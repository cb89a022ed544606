//! Ingest rules: which files are photos, in which format, where a preview
//! comes from, and how a run is counted.
use vstd::prelude::*;
use crate::config::{owned, SidecarJpgMode};
use crate::output::views;
use crate::text::{eq_ignore_ascii_case, eq_ignore_ascii_case_spec, push_str};

verus! {

#[derive(Clone, Copy, PartialEq, Eq, Structural, Debug)]
pub enum FileFormat {
    Arw,
    Cr3,
    Cr2,
    Nef,
    Raf,
    Rw2,
    Dng,
    Jpg,
}

/// The format whose extension `ext` is, compared case-insensitively.  Only
/// ASCII letters can lowercase to the ASCII names, so ASCII case folding
/// decides exactly what full lowercasing would.
pub open spec fn format_of(ext: Seq<char>) -> Option<FileFormat> {
    if eq_ignore_ascii_case_spec(ext, "arw"@) {
        Some(FileFormat::Arw)
    } else if eq_ignore_ascii_case_spec(ext, "cr3"@) {
        Some(FileFormat::Cr3)
    } else if eq_ignore_ascii_case_spec(ext, "cr2"@) {
        Some(FileFormat::Cr2)
    } else if eq_ignore_ascii_case_spec(ext, "nef"@) {
        Some(FileFormat::Nef)
    } else if eq_ignore_ascii_case_spec(ext, "raf"@) {
        Some(FileFormat::Raf)
    } else if eq_ignore_ascii_case_spec(ext, "rw2"@) {
        Some(FileFormat::Rw2)
    } else if eq_ignore_ascii_case_spec(ext, "dng"@) {
        Some(FileFormat::Dng)
    } else if eq_ignore_ascii_case_spec(ext, "jpg"@) || eq_ignore_ascii_case_spec(ext, "jpeg"@) {
        Some(FileFormat::Jpg)
    } else {
        None
    }
}

/// The lowercase extension recorded for a format.
pub open spec fn format_name(f: FileFormat) -> Seq<char> {
    match f {
        FileFormat::Arw => "arw"@,
        FileFormat::Cr3 => "cr3"@,
        FileFormat::Cr2 => "cr2"@,
        FileFormat::Nef => "nef"@,
        FileFormat::Raf => "raf"@,
        FileFormat::Rw2 => "rw2"@,
        FileFormat::Dng => "dng"@,
        FileFormat::Jpg => "jpg"@,
    }
}

impl FileFormat {
    pub fn from_ext(ext: &str) -> (r: Option<Self>)
        ensures
            r == format_of(ext@),
    {
        if eq_ignore_ascii_case(ext, "arw") {
            Some(FileFormat::Arw)
        } else if eq_ignore_ascii_case(ext, "cr3") {
            Some(FileFormat::Cr3)
        } else if eq_ignore_ascii_case(ext, "cr2") {
            Some(FileFormat::Cr2)
        } else if eq_ignore_ascii_case(ext, "nef") {
            Some(FileFormat::Nef)
        } else if eq_ignore_ascii_case(ext, "raf") {
            Some(FileFormat::Raf)
        } else if eq_ignore_ascii_case(ext, "rw2") {
            Some(FileFormat::Rw2)
        } else if eq_ignore_ascii_case(ext, "dng") {
            Some(FileFormat::Dng)
        } else if eq_ignore_ascii_case(ext, "jpg") || eq_ignore_ascii_case(ext, "jpeg") {
            Some(FileFormat::Jpg)
        } else {
            None
        }
    }

    pub fn as_str(&self) -> (r: &'static str)
        ensures
            r@ == format_name(*self),
    {
        match self {
            FileFormat::Arw => "arw",
            FileFormat::Cr3 => "cr3",
            FileFormat::Cr2 => "cr2",
            FileFormat::Nef => "nef",
            FileFormat::Raf => "raf",
            FileFormat::Rw2 => "rw2",
            FileFormat::Dng => "dng",
            FileFormat::Jpg => "jpg",
        }
    }

    pub fn is_raw(&self) -> (r: bool)
        ensures
            r == (*self != FileFormat::Jpg),
    {
        match self {
            FileFormat::Jpg => false,
            _ => true,
        }
    }
}

proof fn lemma_no_upper_distinct(a: Seq<char>, b: Seq<char>)
    requires
        forall|i: int| 0 <= i < a.len() ==> !('A' <= #[trigger] a[i] <= 'Z'),
        forall|i: int| 0 <= i < b.len() ==> !('A' <= #[trigger] b[i] <= 'Z'),
        a != b,
    ensures
        !eq_ignore_ascii_case_spec(a, b),
{
    if eq_ignore_ascii_case_spec(a, b) {
        assert forall|i: int| 0 <= i < a.len() implies a[i] == b[i] by {
            assert(crate::text::ascii_lower(a[i]) == crate::text::ascii_lower(b[i]));
        }
        assert(a =~= b);
    }
}

/// Reading back the name a format is recorded under gives the same format.
pub proof fn lemma_format_name_round_trip(f: FileFormat)
    ensures
        format_of(format_name(f)) == Some(f),
{
    reveal_strlit("arw");
    reveal_strlit("cr3");
    reveal_strlit("cr2");
    reveal_strlit("nef");
    reveal_strlit("raf");
    reveal_strlit("rw2");
    reveal_strlit("dng");
    reveal_strlit("jpg");
    reveal_strlit("jpeg");
    let n = format_name(f);
    let names = seq!["arw"@, "cr3"@, "cr2"@, "nef"@, "raf"@, "rw2"@, "dng"@, "jpg"@, "jpeg"@];
    assert(eq_ignore_ascii_case_spec(n, n));
    assert forall|k: int| 0 <= k < names.len() && names[k] != n implies !eq_ignore_ascii_case_spec(
        n,
        #[trigger] names[k],
    ) by {
        lemma_no_upper_distinct(n, names[k]);
    }
    assert(names[0] == "arw"@ && names[1] == "cr3"@ && names[2] == "cr2"@ && names[3] == "nef"@);
    assert(names[4] == "raf"@ && names[5] == "rw2"@ && names[6] == "dng"@ && names[7] == "jpg"@);
    assert(names[8] == "jpeg"@);
    match f {
        FileFormat::Arw => {},
        FileFormat::Cr3 => {
            assert(n[0] != names[0][0]);
        },
        FileFormat::Cr2 => {
            assert(n[0] != names[0][0] && n[2] != names[1][2]);
        },
        FileFormat::Nef => {
            assert(n[0] != names[0][0] && n[0] != names[1][0] && n[0] != names[2][0]);
        },
        FileFormat::Raf => {
            assert(n[0] != names[0][0] && n[0] != names[1][0] && n[0] != names[2][0] && n[0] != names[3][0]);
        },
        FileFormat::Rw2 => {
            assert(n[0] != names[0][0] && n[0] != names[1][0] && n[0] != names[2][0] && n[0] != names[3][0]
                && n[1] != names[4][1]);
        },
        FileFormat::Dng => {
            assert(n[0] != names[0][0] && n[0] != names[1][0] && n[0] != names[2][0] && n[0] != names[3][0]
                && n[0] != names[4][0] && n[0] != names[5][0]);
        },
        FileFormat::Jpg => {
            assert(n[0] != names[0][0] && n[0] != names[1][0] && n[0] != names[2][0] && n[0] != names[3][0]
                && n[0] != names[4][0] && n[0] != names[5][0] && n[0] != names[6][0]);
        },
    }
}

/// `s` with every ASCII capital letter lowered.
pub open spec fn ascii_lowercase(s: Seq<char>) -> Seq<char> {
    s.map_values(|c: char| crate::text::ascii_lower(c))
}

proof fn lemma_ascii_lower_idempotent(c: char)
    ensures
        crate::text::ascii_lower(crate::text::ascii_lower(c)) == crate::text::ascii_lower(c),
{
    if 'A' <= c <= 'Z' {
        assert(65 <= c as u32 <= 90);
        assert(((c as u32) + 32) as char as u32 == (c as u32) + 32);
    }
}

proof fn lemma_fold_case(a: Seq<char>, b: Seq<char>)
    ensures
        eq_ignore_ascii_case_spec(a, b) == eq_ignore_ascii_case_spec(ascii_lowercase(a), b),
{
    let l = ascii_lowercase(a);
    assert forall|i: int| 0 <= i < a.len() implies crate::text::ascii_lower(#[trigger] l[i])
        == crate::text::ascii_lower(a[i]) by {
        lemma_ascii_lower_idempotent(a[i]);
    }
    if eq_ignore_ascii_case_spec(a, b) {
        assert forall|i: int| 0 <= i < l.len() implies crate::text::ascii_lower(#[trigger] l[i])
            == crate::text::ascii_lower(b[i]) by {
            assert(crate::text::ascii_lower(l[i]) == crate::text::ascii_lower(a[i]));
        }
    }
    if eq_ignore_ascii_case_spec(l, b) {
        assert forall|i: int| 0 <= i < a.len() implies crate::text::ascii_lower(#[trigger] a[i])
            == crate::text::ascii_lower(b[i]) by {
            assert(crate::text::ascii_lower(l[i]) == crate::text::ascii_lower(b[i]));
        }
    }
}

/// The format of an extension does not depend on the case of its letters:
/// `NEF`, `Nef` and `nef` name the same format, and any spelling that lowers
/// to a format's recorded name reads as that format.
pub proof fn lemma_format_ignores_case(ext: Seq<char>)
    ensures
        format_of(ext) == format_of(ascii_lowercase(ext)),
        forall|f: FileFormat| ascii_lowercase(ext) == format_name(f) ==> format_of(ext) == Some(f),
{
    lemma_format_name_round_trip(FileFormat::Arw);
    lemma_format_name_round_trip(FileFormat::Cr3);
    lemma_format_name_round_trip(FileFormat::Cr2);
    lemma_format_name_round_trip(FileFormat::Nef);
    lemma_format_name_round_trip(FileFormat::Raf);
    lemma_format_name_round_trip(FileFormat::Rw2);
    lemma_format_name_round_trip(FileFormat::Dng);
    lemma_format_name_round_trip(FileFormat::Jpg);
    lemma_fold_case(ext, "arw"@);
    lemma_fold_case(ext, "cr3"@);
    lemma_fold_case(ext, "cr2"@);
    lemma_fold_case(ext, "nef"@);
    lemma_fold_case(ext, "raf"@);
    lemma_fold_case(ext, "rw2"@);
    lemma_fold_case(ext, "dng"@);
    lemma_fold_case(ext, "jpg"@);
    lemma_fold_case(ext, "jpeg"@);
}

/// `ext` matches one of the configured extensions, ignoring ASCII case.
pub open spec fn accepted(extensions: Seq<Seq<char>>, ext: Seq<char>) -> bool {
    exists|i: int| 0 <= i < extensions.len() && eq_ignore_ascii_case_spec(#[trigger] extensions[i], ext)
}

/// Whether a file with extension `ext` is ingested under `extensions`.
pub fn extension_accepted(extensions: &[String], ext: &str) -> (r: bool)
    ensures
        r == accepted(views(extensions@), ext@),
{
    for i in 0..extensions.len()
        invariant
            forall|j: int| 0 <= j < i ==> !eq_ignore_ascii_case_spec(#[trigger] views(extensions@)[j], ext@),
    {
        if eq_ignore_ascii_case(extensions[i].as_str(), ext) {
            proof {
                assert(eq_ignore_ascii_case_spec(views(extensions@)[i as int], ext@));
            }
            return true;
        }
    }
    false
}

/// The sidecar names tried for a RAW with stem `stem`, in order.
pub open spec fn sidecar_names_spec(stem: Seq<char>) -> Seq<Seq<char>> {
    seq![stem + ".jpg"@, stem + ".jpeg"@, stem + ".JPG"@, stem + ".JPEG"@]
}

fn with_ext(stem: &str, ext: &str) -> (r: String)
    ensures
        r@ == stem@ + ext@,
{
    let mut s = String::new();
    push_str(&mut s, stem);
    push_str(&mut s, ext);
    s
}

/// File names, beside a RAW with stem `stem`, that count as its JPEG
/// sidecar, in the order they are looked for.
pub fn sidecar_names(stem: &str) -> (r: Vec<String>)
    ensures
        views(r@) == sidecar_names_spec(stem@),
{
    let mut r: Vec<String> = Vec::new();
    r.push(with_ext(stem, ".jpg"));
    r.push(with_ext(stem, ".jpeg"));
    r.push(with_ext(stem, ".JPG"));
    r.push(with_ext(stem, ".JPEG"));
    assert(views(r@) =~= sidecar_names_spec(stem@));
    r
}

/// Where a file's preview is taken from.
#[derive(Clone, Copy, PartialEq, Eq, Structural, Debug)]
pub enum PreviewSource {
    /// The JPEG sidecar next to the RAW.
    Sidecar,
    /// The preview embedded in the RAW.
    Raw,
    /// The file itself, a JPEG.
    Jpeg,
}

/// The sidecar is used only when one exists and the mode prefers it;
/// otherwise a RAW gives its embedded preview and a JPEG itself.
pub fn preview_source(has_sidecar: bool, mode: SidecarJpgMode, format: FileFormat) -> (r: PreviewSource)
    ensures
        r == if has_sidecar && mode == SidecarJpgMode::Prefer {
            PreviewSource::Sidecar
        } else if format != FileFormat::Jpg {
            PreviewSource::Raw
        } else {
            PreviewSource::Jpeg
        },
{
    if has_sidecar && mode == SidecarJpgMode::Prefer {
        PreviewSource::Sidecar
    } else if format.is_raw() {
        PreviewSource::Raw
    } else {
        PreviewSource::Jpeg
    }
}

/// The pixel dimensions recorded for a photo: each one its EXIF lacks is
/// taken from the decoded preview.
pub fn backfill_dimensions(width: Option<u32>, height: Option<u32>, preview_width: u32, preview_height: u32) -> (r: (
    Option<u32>,
    Option<u32>,
))
    ensures
        r == (Some(
            match width {
                Some(w) => w,
                None => preview_width,
            },
        ), Some(
            match height {
                Some(h) => h,
                None => preview_height,
            },
        )),
{
    let w = match width {
        Some(w) => w,
        None => preview_width,
    };
    let h = match height {
        Some(h) => h,
        None => preview_height,
    };
    (Some(w), Some(h))
}

/// Summary of an ingest run.
pub struct IngestReport {
    pub processed: u64,
    pub skipped: u64,
    pub errored: u64,
}

impl Default for IngestReport {
    fn default() -> (r: Self)
        ensures
            r.processed == 0 && r.skipped == 0 && r.errored == 0,
    {
        IngestReport { processed: 0, skipped: 0, errored: 0 }
    }
}

/// What processing one file came to.
#[derive(Clone, Copy, PartialEq, Eq, Structural, Debug)]
pub enum FileOutcome {
    /// Already in the catalog, unchanged.
    Skipped,
    /// Read and queued for the catalog.
    Processed,
    /// Could not be read.
    Errored,
}

impl IngestReport {
    /// Count one file's outcome.
    pub fn count(&mut self, outcome: FileOutcome)
        requires
            old(self).processed < u64::MAX,
            old(self).skipped < u64::MAX,
            old(self).errored < u64::MAX,
        ensures
            final(self).processed == old(self).processed + if outcome == FileOutcome::Processed {
                1int
            } else {
                0int
            },
            final(self).skipped == old(self).skipped + if outcome == FileOutcome::Skipped {
                1int
            } else {
                0int
            },
            final(self).errored == old(self).errored + if outcome == FileOutcome::Errored {
                1int
            } else {
                0int
            },
    {
        match outcome {
            FileOutcome::Skipped => self.skipped = self.skipped + 1,
            FileOutcome::Processed => self.processed = self.processed + 1,
            FileOutcome::Errored => self.errored = self.errored + 1,
        }
    }

    /// A batch of `n` processed files failed to reach the catalog: they count
    /// as errored instead.
    pub fn count_failed_batch(&mut self, n: u64)
        requires
            old(self).processed >= n,
            old(self).errored + n <= u64::MAX,
        ensures
            final(self).processed == old(self).processed - n,
            final(self).errored == old(self).errored + n,
            final(self).skipped == old(self).skipped,
    {
        self.processed = self.processed - n;
        self.errored = self.errored + n;
    }

    /// The report of a run whose files came to `outcomes`: each counter is
    /// the number of files with that outcome, so together they count every
    /// file once.
    pub fn tally(outcomes: &[FileOutcome]) -> (r: IngestReport)
        ensures
            r.processed == file_count(outcomes@, FileOutcome::Processed),
            r.skipped == file_count(outcomes@, FileOutcome::Skipped),
            r.errored == file_count(outcomes@, FileOutcome::Errored),
            r.processed + r.skipped + r.errored == outcomes@.len(),
    {
        let mut r = IngestReport::default();
        for i in 0..outcomes.len()
            invariant
                r.processed == file_count(outcomes@.take(i as int), FileOutcome::Processed),
                r.skipped == file_count(outcomes@.take(i as int), FileOutcome::Skipped),
                r.errored == file_count(outcomes@.take(i as int), FileOutcome::Errored),
                r.processed + r.skipped + r.errored == i,
                i <= outcomes@.len(),
                outcomes@.len() <= usize::MAX,
        {
            proof {
                assert(outcomes@.take(i + 1).drop_last() =~= outcomes@.take(i as int));
                assert(outcomes@.take(i + 1).last() == outcomes@[i as int]);
            }
            r.count(outcomes[i]);
        }
        proof {
            assert(outcomes@.take(outcomes@.len() as int) =~= outcomes@);
        }
        r
    }
}

/// How many of `outcomes` are `o`.
pub open spec fn file_count(outcomes: Seq<FileOutcome>, o: FileOutcome) -> nat
    decreases outcomes.len(),
{
    if outcomes.len() == 0 {
        0
    } else {
        file_count(outcomes.drop_last(), o) + if outcomes.last() == o {
            1nat
        } else {
            0nat
        }
    }
}

} // verus!
