//! The review server's rules: the single background-job slot and how a job
//! moves through it, the decisions the UI can post, and the shapes of the
//! requests and responses.
use vstd::prelude::*;
use crate::config::owned;
use crate::text::{push_str, str_eq};

verus! {

/// Counts from a finished `finish` run, for the Develop screen's summary.
pub struct FinishSummary {
    pub rendered: u64,
    pub skipped: u64,
    pub errored: u64,
    pub skipped_unsupported: u64,
    pub pruned: u64,
    /// Where the JPEGs landed.
    pub out_dir: String,
}

impl Default for FinishSummary {
    fn default() -> (r: Self)
        ensures
            r.rendered == 0 && r.skipped == 0 && r.errored == 0 && r.skipped_unsupported == 0
                && r.pruned == 0 && r.out_dir@.len() == 0,
    {
        FinishSummary {
            rendered: 0,
            skipped: 0,
            errored: 0,
            skipped_unsupported: 0,
            pruned: 0,
            out_dir: String::new(),
        }
    }
}

/// Live state of the single background job (analyze or finish).  There is
/// one slot: a new job is refused while one is in flight.
pub struct JobState {
    /// Which command is running: `analyze`, `finish`, or empty.
    pub kind: String,
    /// The phase: `idle`, `done` and `failed` are at rest; anything else is
    /// a job in flight.
    pub stage: String,
    /// Where the current photo has got to within a phase.
    pub step: String,
    /// Display name of the photo `step` refers to.
    pub item: String,
    pub files_done: u64,
    pub files_total: u64,
    pub ml_ran: bool,
    pub folder: String,
    pub message: String,
    pub error: Option<String>,
    /// Present once a finish run has completed successfully.
    pub summary: Option<FinishSummary>,
}

/// A stage at which no job is in flight.
pub open spec fn at_rest(stage: Seq<char>) -> bool {
    stage == "idle"@ || stage == "done"@ || stage == "failed"@
}

impl Default for JobState {
    fn default() -> (r: Self)
        ensures
            r.kind@.len() == 0,
            r.stage@ == "idle"@,
            r.step@.len() == 0,
            r.item@.len() == 0,
            r.files_done == 0,
            r.files_total == 0,
            !r.ml_ran,
            r.folder@.len() == 0,
            r.message@.len() == 0,
            r.error is None,
            r.summary is None,
    {
        JobState {
            kind: String::new(),
            stage: owned("idle"),
            step: String::new(),
            item: String::new(),
            files_done: 0,
            files_total: 0,
            ml_ran: false,
            folder: String::new(),
            message: String::new(),
            error: None,
            summary: None,
        }
    }
}

impl JobState {
    /// True while a run is in flight: any stage that is not `idle`, `done` or
    /// `failed`.
    pub fn running(&self) -> (r: bool)
        ensures
            r == !at_rest(self.stage@),
    {
        !(str_eq(self.stage.as_str(), "idle") || str_eq(self.stage.as_str(), "done") || str_eq(
            self.stage.as_str(),
            "failed",
        ))
    }

    /// Claim the slot for a new job of `kind` on `folder`, starting at
    /// `stage` with `message`; refused (`false`, nothing changed) while
    /// another job is in flight.
    pub fn try_begin(&mut self, kind: &str, stage: &str, folder: &str, message: &str) -> (ok: bool)
        ensures
            ok == at_rest(old(self).stage@),
            !ok ==> *final(self) == *old(self),
            ok ==> {
                &&& final(self).kind@ == kind@
                &&& final(self).stage@ == stage@
                &&& final(self).step@.len() == 0
                &&& final(self).item@.len() == 0
                &&& final(self).files_done == 0
                &&& final(self).files_total == 0
                &&& !final(self).ml_ran
                &&& final(self).folder@ == folder@
                &&& final(self).message@ == message@
                &&& final(self).error is None
                &&& final(self).summary is None
            },
    {
        if self.running() {
            return false;
        }
        *self = JobState {
            kind: owned(kind),
            stage: owned(stage),
            step: String::new(),
            item: String::new(),
            files_done: 0,
            files_total: 0,
            ml_ran: false,
            folder: owned(folder),
            message: owned(message),
            error: None,
            summary: None,
        };
        true
    }

    /// Begin a new phase: the stage changes, the message names it, and
    /// nothing else moves.
    pub fn enter_stage(&mut self, stage: &str)
        ensures
            final(self).stage@ == stage@,
            final(self).message@ == stage@ + "…"@,
            *final(self) == (JobState { stage: final(self).stage, message: final(self).message, ..*old(self) }),
    {
        self.stage = owned(stage);
        let mut m = owned(stage);
        push_str(&mut m, "…");
        self.message = m;
    }

    /// Total items in the current phase.
    pub fn set_total(&mut self, total: u64)
        ensures
            *final(self) == (JobState { files_total: total, ..*old(self) }),
    {
        self.files_total = total;
    }

    /// One item processed in the current phase.
    pub fn inc(&mut self)
        requires
            old(self).files_done < u64::MAX,
        ensures
            final(self).files_done == old(self).files_done + 1,
            *final(self) == (JobState { files_done: final(self).files_done, ..*old(self) }),
    {
        self.files_done = self.files_done + 1;
    }

    /// The job finished: the slot is free again.
    pub fn complete(&mut self)
        ensures
            final(self).stage@ == "done"@,
            final(self).message@ == "complete"@,
            *final(self) == (JobState { stage: final(self).stage, message: final(self).message, ..*old(self) }),
    {
        self.stage = owned("done");
        self.message = owned("complete");
    }

    /// The job failed with `error`: the slot is free again.
    pub fn fail(&mut self, error: &str)
        ensures
            final(self).stage@ == "failed"@,
            final(self).error matches Some(e) && e@ == error@,
            *final(self) == (JobState { stage: final(self).stage, error: final(self).error, ..*old(self) }),
    {
        self.stage = owned("failed");
        self.error = Some(owned(error));
    }
}

/// One job at a time: a job begun at `scanning` (analyze) or `developing`
/// (finish) holds the slot, so [`JobState::try_begin`] refuses every further
/// job until it completes (`done`) or fails (`failed`), which frees it.
pub proof fn lemma_job_stages()
    ensures
        at_rest("idle"@),
        at_rest("done"@),
        at_rest("failed"@),
        !at_rest("scanning"@),
        !at_rest("developing"@),
{
    reveal_strlit("done");
    reveal_strlit("failed");
    reveal_strlit("idle");
    reveal_strlit("scanning");
    reveal_strlit("developing");
    assert("scanning"@ != "idle"@) by {
        assert("scanning"@[0] != "idle"@[0]);
    }
    assert("scanning"@ != "done"@) by {
        assert("scanning"@[0] != "done"@[0]);
    }
    assert("scanning"@ != "failed"@) by {
        assert("scanning"@[0] != "failed"@[0]);
    }
    assert("developing"@ != "idle"@) by {
        assert("developing"@[0] != "idle"@[0]);
    }
    assert("developing"@ != "done"@) by {
        assert("developing"@.len() != "done"@.len());
    }
    assert("developing"@ != "failed"@) by {
        assert("developing"@[0] != "failed"@[0]);
    }
}

/// What the review UI can record for a photo.
#[derive(Clone, Copy, PartialEq, Eq, Structural, Debug)]
pub enum DecisionAction {
    Keep,
    Reject,
    Undecide,
    /// Make this photo its duplicate group's keeper.
    Keeper,
}

/// The action named by a decision request: `keep`, `reject`, `undecide` or
/// `keeper`; anything else is a bad request.
pub open spec fn action_spec(a: Seq<char>) -> Option<DecisionAction> {
    if a == "keep"@ {
        Some(DecisionAction::Keep)
    } else if a == "reject"@ {
        Some(DecisionAction::Reject)
    } else if a == "undecide"@ {
        Some(DecisionAction::Undecide)
    } else if a == "keeper"@ {
        Some(DecisionAction::Keeper)
    } else {
        None
    }
}

pub fn parse_action(action: &str) -> (r: Option<DecisionAction>)
    ensures
        r == action_spec(action@),
{
    if str_eq(action, "keep") {
        Some(DecisionAction::Keep)
    } else if str_eq(action, "reject") {
        Some(DecisionAction::Reject)
    } else if str_eq(action, "undecide") {
        Some(DecisionAction::Undecide)
    } else if str_eq(action, "keeper") {
        Some(DecisionAction::Keeper)
    } else {
        None
    }
}

/// The text after the last `.` of `file` (all of it when there is none).
pub open spec fn last_dot_piece(file: Seq<char>) -> Seq<char> {
    match crate::path::last_dot(file, 0, file.len() as int) {
        Some(p) => file.subrange(p + 1, file.len() as int),
        None => file,
    }
}

/// The content type an embedded asset is served with, by its extension.
pub open spec fn content_type_spec(file: Seq<char>) -> Seq<char> {
    let ext = last_dot_piece(file);
    if ext == "js"@ {
        "text/javascript; charset=utf-8"@
    } else if ext == "css"@ {
        "text/css; charset=utf-8"@
    } else if ext == "html"@ {
        "text/html; charset=utf-8"@
    } else {
        "application/octet-stream"@
    }
}

pub fn content_type_for(file: &str) -> (r: &'static str)
    ensures
        r@ == content_type_spec(file@),
{
    let v = crate::text::chars_of(file);
    let mut b = v.len();
    while b > 0 && v[b - 1] != '.'
        invariant
            b <= v@.len(),
            crate::path::last_dot(v@, 0, v@.len() as int) == crate::path::last_dot(v@, 0, b as int),
        decreases b,
    {
        b = b - 1;
    }
    proof {
        crate::path::lemma_last_dot_bounds_pub(v@, 0, b as int);
    }
    let ext = if b == 0 {
        crate::text::string_of(&v)
    } else {
        crate::text::string_of(&crate::path::slice_chars(&v, b, v.len()))
    };
    if str_eq(ext.as_str(), "js") {
        "text/javascript; charset=utf-8"
    } else if str_eq(ext.as_str(), "css") {
        "text/css; charset=utf-8"
    } else if str_eq(ext.as_str(), "html") {
        "text/html; charset=utf-8"
    } else {
        "application/octet-stream"
    }
}

/// Query string for `/api/photos`.
pub struct PhotoQuery {
    pub flag_type: Option<String>,
    pub decided: Option<bool>,
    pub limit: Option<i64>,
    pub offset: Option<i64>,
}

impl PhotoQuery {
    /// `(limit, offset)` of the page asked for: 200 photos from the start
    /// unless given.
    pub fn page(&self) -> (r: (i64, i64))
        ensures
            r.0 == match self.limit {
                Some(l) => l,
                None => 200,
            },
            r.1 == match self.offset {
                Some(o) => o,
                None => 0,
            },
    {
        let limit = match self.limit {
            Some(l) => l,
            None => 200,
        };
        let offset = match self.offset {
            Some(o) => o,
            None => 0,
        };
        (limit, offset)
    }
}

pub struct DecisionRequest {
    pub file_id: i64,
    /// `keep`, `reject`, `undecide` or `keeper`.
    pub action: String,
    pub note: Option<String>,
}

pub struct ExportRequest {
    /// Output directory; `_keepers` when omitted.
    pub output: Option<String>,
    pub regenerate: bool,
}

pub struct EstimateQuery {
    pub output: Option<String>,
}

/// The directory an export goes to: the requested one with `~/` expanded
/// against the home directory `home`, or `_keepers`.
pub open spec fn export_dir_spec(output: Option<Seq<char>>, home: Option<Seq<char>>) -> Seq<char> {
    match output {
        Some(o) => crate::config::expand_tilde_spec(o, home),
        None => "_keepers"@,
    }
}

/// Where an export or an export estimate writes.
pub fn export_dir(output: &Option<String>) -> (r: String)
    ensures
        exists|h: Option<Seq<char>>| r@ == export_dir_spec(crate::library::opt_view(*output), h),
{
    match output {
        Some(o) => {
            let r = crate::config::expand_tilde(o.as_str());
            proof {
                let h = choose|h: Option<Seq<char>>| r@ == crate::config::expand_tilde_spec(o@, h);
                assert(r@ == export_dir_spec(crate::library::opt_view(*output), h));
            }
            r
        },
        None => {
            let r = owned("_keepers");
            assert(r@ == export_dir_spec(crate::library::opt_view(*output), None));
            r
        },
    }
}

pub struct AnalyzeRequest {
    pub folder: String,
}

pub struct FsEntry {
    pub name: String,
    pub path: String,
    pub photo_count: u64,
}

pub struct FsListing {
    pub path: Option<String>,
    pub parent: Option<String>,
    pub entries: Vec<FsEntry>,
}

pub struct FsQuery {
    pub path: Option<String>,
}

pub struct LibraryEntry {
    pub folder: String,
    pub photo_count: i64,
    pub last_analyzed: Option<i64>,
}

pub struct ActiveInfo {
    pub folder: String,
}

pub struct OpenRequest {
    pub folder: String,
}

pub struct OpenResponse {
    pub folder: String,
    pub pending_new: u64,
}

/// Opening a library is refused as busy while a job is in flight on that
/// same library (its catalog is held by the job).
pub fn open_is_busy(job: &JobState, job_key: &str, folder_key: &str) -> (r: bool)
    ensures
        r == (!at_rest(job.stage@) && job_key@ == folder_key@),
{
    job.running() && str_eq(job_key, folder_key)
}

} // verus!
