//! Run summaries, error kinds, subject classes, and the progress interface
//! the long-running phases report through.
use vstd::prelude::*;

verus! {

/// Where a long-running phase reports its progress.  Each phase calls
/// `stage` (which resets the per-phase count), then `set_total`, then `inc`
/// once per item; `step` names where the current item has got to without
/// disturbing the count.
pub trait ProgressSink {
    fn stage(&self, stage: &str);

    fn set_total(&self, total: u64);

    fn inc(&self);

    fn step(&self, step: &str, item: &str) {
    }
}

/// Summary of a full analyze run.
pub struct AnalyzeReport {
    pub ml_ran: bool,
    pub processed: u64,
    pub skipped: u64,
    pub errored: u64,
    pub groups: u64,
}

/// Summary of a calibration run.
pub struct CalibrationReport {
    pub buckets_built: usize,
    pub global_n_samples: usize,
    pub flags_cleared: usize,
    pub flagged_blur: usize,
    pub flagged_back_focus: usize,
    pub flagged_low_iqa: usize,
    pub blur_confidence_bumped: usize,
}

impl Default for CalibrationReport {
    fn default() -> (r: Self)
        ensures
            r.buckets_built == 0 && r.global_n_samples == 0 && r.flags_cleared == 0 && r.flagged_blur
                == 0 && r.flagged_back_focus == 0 && r.flagged_low_iqa == 0
                && r.blur_confidence_bumped == 0,
    {
        CalibrationReport {
            buckets_built: 0,
            global_n_samples: 0,
            flags_cleared: 0,
            flagged_blur: 0,
            flagged_back_focus: 0,
            flagged_low_iqa: 0,
            blur_confidence_bumped: 0,
        }
    }
}

/// What rebuilding the sharpness baselines wrote.
pub struct RebuildReport {
    /// Count of per-bucket baseline rows written.
    pub buckets_built: usize,
    /// Total sample count backing the global fallback row.
    pub global_n_samples: usize,
}

/// Summary of a dedupe run.
#[derive(Clone, Copy, PartialEq, Eq, Structural, Debug)]
pub struct DedupeReport {
    pub groups: u64,
    pub members: u64,
    pub keepers: u64,
}

impl Default for DedupeReport {
    fn default() -> (r: Self)
        ensures
            r.groups == 0 && r.members == 0 && r.keepers == 0,
    {
        DedupeReport { groups: 0, members: 0, keepers: 0 }
    }
}

impl DedupeReport {
    /// Whether a connected component of `size` photos becomes a group.
    pub fn forms_group(size: usize, min_group_size: usize) -> (r: bool)
        ensures
            r == (size >= min_group_size),
    {
        size >= min_group_size
    }

    /// Count one stored group of `members` photos with its one keeper.
    pub fn record_group(&mut self, members: u64)
        requires
            old(self).groups < u64::MAX,
            old(self).keepers < u64::MAX,
            old(self).members + members <= u64::MAX,
        ensures
            final(self).groups == old(self).groups + 1,
            final(self).members == old(self).members + members,
            final(self).keepers == old(self).keepers + 1,
    {
        self.groups = self.groups + 1;
        self.members = self.members + members;
        self.keepers = self.keepers + 1;
    }
}

/// Summary of a defect-analysis run.
pub struct DefectReport {
    pub analyzed: u64,
    pub skipped: u64,
    pub errored: u64,
    pub flagged_overexposed: u64,
    pub flagged_underexposed: u64,
}

impl Default for DefectReport {
    fn default() -> (r: Self)
        ensures
            r.analyzed == 0 && r.skipped == 0 && r.errored == 0 && r.flagged_overexposed == 0
                && r.flagged_underexposed == 0,
    {
        DefectReport { analyzed: 0, skipped: 0, errored: 0, flagged_overexposed: 0, flagged_underexposed: 0 }
    }
}

/// Why ingesting one file failed.
pub enum IngestError {
    Io { path: String, reason: String },
    Exif { path: String, reason: String },
    Preview { path: String, reason: String },
}

/// Why a catalog operation failed.
pub enum CatalogError {
    Db(String),
    Migration { version: u32, reason: String },
}

/// Why a model could not be used.
pub enum ModelError {
    NotFound(String),
    Ort(String),
    Provider(String),
}

/// What a detected subject is.
#[derive(Clone, Copy, PartialEq, Eq, Structural, Debug)]
pub enum SubjectClass {
    Person,
    Animal,
    Vehicle,
    Object,
    Other,
}

/// The class of a COCO category id: 0 is a person, 1–8 vehicles, 14–23
/// animals, the rest of 9–79 objects, and anything else other.
pub open spec fn coco_class_spec(id: int) -> SubjectClass {
    if id == 0 {
        SubjectClass::Person
    } else if 1 <= id <= 8 {
        SubjectClass::Vehicle
    } else if 9 <= id <= 13 {
        SubjectClass::Object
    } else if 14 <= id <= 23 {
        SubjectClass::Animal
    } else if 24 <= id <= 79 {
        SubjectClass::Object
    } else {
        SubjectClass::Other
    }
}

pub fn coco_id_to_subject_class(id: usize) -> (c: SubjectClass)
    ensures
        c == coco_class_spec(id as int),
{
    if id == 0 {
        SubjectClass::Person
    } else if id <= 8 {
        SubjectClass::Vehicle
    } else if id <= 13 {
        SubjectClass::Object
    } else if id <= 23 {
        SubjectClass::Animal
    } else if id <= 79 {
        SubjectClass::Object
    } else {
        SubjectClass::Other
    }
}

} // verus!
