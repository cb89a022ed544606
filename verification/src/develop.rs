//! Developing kept RAWs: which keepers are RAWs, where each JPEG lands, when
//! a recorded render is still current, and what RawTherapee is asked to do.
use vstd::prelude::*;
use crate::config::{expand_tilde, expand_tilde_spec, owned, DevelopConfig, OutputSubdirs};
use crate::ingest::{format_of, FileFormat};
use crate::names::{deduped, record_name, taken_in, DirNames};
use crate::output::{stamp_at, stamp_views, views, DiskView};
use crate::path::{components, components_eq, components_spec, file_stem, file_stem_spec, join, join_spec};
use crate::text::{push_str, str_eq};

verus! {

/// Why developing one photo failed.
pub enum DevelopError {
    Decode { path: String, reason: String },
    Render { path: String, reason: String },
    Io { path: String, reason: String },
}

/// One photo the user kept, with everything `finish` needs to place its output.
#[derive(Clone)]
pub struct KeeperToDevelop {
    pub file_id: i64,
    pub path: String,
    pub content_hash: String,
    /// `YYYY-MM` from the capture time, or `unknown-date`.
    pub year_month: String,
    /// Lowercase extension as recorded at ingest (e.g. `arw`, `jpg`).
    pub file_format: String,
}

/// Summary of a `finish` run.
pub struct FinishReport {
    pub rendered: u64,
    pub skipped: u64,
    pub errored: u64,
    /// Keepers that are not RAW files, counted apart from `errored`.
    pub skipped_unsupported: u64,
    /// Files deleted by the prune pass.
    pub pruned: u64,
}

impl Default for FinishReport {
    fn default() -> (r: Self)
        ensures
            r.rendered == 0 && r.skipped == 0 && r.errored == 0 && r.skipped_unsupported == 0
                && r.pruned == 0,
    {
        FinishReport { rendered: 0, skipped: 0, errored: 0, skipped_unsupported: 0, pruned: 0 }
    }
}

/// `file_format` (the lowercase extension recorded at ingest) names a RAW format.
pub open spec fn is_raw_format_spec(file_format: Seq<char>) -> bool {
    match format_of(file_format) {
        Some(f) => f != FileFormat::Jpg,
        None => false,
    }
}

/// True when `file_format` is a RAW format `finish` knows how to develop;
/// `jpg`/`jpeg` are ingested but are not RAWs.
pub fn is_raw_format(file_format: &str) -> (r: bool)
    ensures
        r == is_raw_format_spec(file_format@),
{
    match FileFormat::from_ext(file_format) {
        Some(f) => f.is_raw(),
        None => false,
    }
}

/// The directory a keeper's JPEG goes to.
pub open spec fn output_dir_spec(subdirs: OutputSubdirs, out_dir: Seq<char>, year_month: Seq<char>) -> Seq<
    char,
> {
    match subdirs {
        OutputSubdirs::Month => join_spec(out_dir, year_month),
        OutputSubdirs::Flat => out_dir,
    }
}

/// `<stem>.jpg` for the keeper at `path` (`photo` when it has no stem).
pub open spec fn jpeg_name(path: Seq<char>) -> Seq<char> {
    render_stem(path) + ".jpg"@
}

/// Where one photo's JPEG lands: `<out>/<YYYY-MM>/<stem>.jpg` (or directly in
/// `<out>` when flat), the name de-duplicated against the names already
/// handed out in that directory, which are recorded in `taken`.
pub fn output_path_for(
    cfg: &DevelopConfig,
    out_dir: &str,
    item: &KeeperToDevelop,
    taken: &mut DirNames,
) -> (p: String)
    requires
        old(taken).wf(),
        old(taken).given() < 0xffff_fff0,
    ensures
        final(taken).wf(),
        final(taken).given() == old(taken).given() + 1,
        ({
            let dir = output_dir_spec(cfg.output_subdirs, out_dir@, item.year_month@);
            let name = deduped(taken_in(old(taken)@, components_spec(dir)), jpeg_name(item.path@));
            &&& p@ == join_spec(dir, name)
            &&& !taken_in(old(taken)@, components_spec(dir)).contains(name)
            &&& final(taken)@ == record_name(old(taken)@, components_spec(dir), name)
        }),
{
    let mut base = match file_stem(item.path.as_str()) {
        Some(s) => s,
        None => owned("photo"),
    };
    push_str(&mut base, ".jpg");
    let dir = match cfg.output_subdirs {
        OutputSubdirs::Month => join(out_dir, item.year_month.as_str()),
        OutputSubdirs::Flat => owned(out_dir),
    };
    let name = taken.dedupe_in(dir.as_str(), base.as_str());
    join(dir.as_str(), name.as_str())
}

/// The JPEG paths a `finish` run hands out, in order, for keepers given as
/// `(path, year_month)` and processed with one ledger from empty, with the
/// names then taken per directory.
pub open spec fn finish_run(subdirs: OutputSubdirs, out_dir: Seq<char>, items: Seq<(Seq<char>, Seq<char>)>) -> (
    Seq<Seq<char>>,
    Map<Seq<Seq<char>>, Set<Seq<char>>>,
)
    decreases items.len(),
{
    if items.len() == 0 {
        (Seq::empty(), Map::empty())
    } else {
        let prev = finish_run(subdirs, out_dir, items.drop_last());
        let it = items.last();
        let dir = output_dir_spec(subdirs, out_dir, it.1);
        let key = components_spec(dir);
        let name = deduped(taken_in(prev.1, key), jpeg_name(it.0));
        (prev.0.push(join_spec(dir, name)), record_name(prev.1, key, name))
    }
}

proof fn lemma_jpeg_name_plain(path: Seq<char>)
    ensures
        crate::path::is_plain_name(jpeg_name(path)),
{
    reveal_strlit(".jpg");
    reveal_strlit("photo");
    let stem = render_stem(path);
    assert forall|i: int| 0 <= i < stem.len() implies stem[i] != '/' by {
        match crate::path::file_name_at(path, path.len() as int) {
            Some((a, b)) => {
                crate::path::lemma_file_name_plain(path, path.len() as int);
                let n = path.subrange(a, b);
                crate::path::lemma_last_dot_bounds_pub(n, 0, n.len() as int);
                assert(stem[i] == n[i]);
            },
            None => {},
        }
    }
    let j = jpeg_name(path);
    assert forall|i: int| 0 <= i < j.len() implies j[i] != '/' by {
        if i < stem.len() {
            assert(j[i] == stem[i]);
        }
    }
    assert(j.len() >= 4);
    assert(j != seq!['.']);
}

spec fn finish_inv(subdirs: OutputSubdirs, out_dir: Seq<char>, items: Seq<(Seq<char>, Seq<char>)>) -> bool {
    let out = finish_run(subdirs, out_dir, items).0;
    let m = finish_run(subdirs, out_dir, items).1;
    &&& out.len() == items.len()
    &&& forall|k: Seq<Seq<char>>| #[trigger] m.dom().contains(k) ==> m[k].finite()
    &&& forall|i: int|
        0 <= i < out.len() ==> {
            let c = components_spec(#[trigger] out[i]);
            c.len() > 0 && m.dom().contains(c.drop_last()) && m[c.drop_last()].contains(c.last())
        }
    &&& forall|i: int, j: int|
        0 <= i < j < out.len() ==> components_spec(#[trigger] out[i]) != components_spec(#[trigger] out[j])
}

proof fn lemma_finish_inv(subdirs: OutputSubdirs, out_dir: Seq<char>, items: Seq<(Seq<char>, Seq<char>)>)
    ensures
        finish_inv(subdirs, out_dir, items),
    decreases items.len(),
{
    if items.len() > 0 {
        let q = items.drop_last();
        lemma_finish_inv(subdirs, out_dir, q);
        let prev = finish_run(subdirs, out_dir, q);
        let it = items.last();
        let dir = output_dir_spec(subdirs, out_dir, it.1);
        let key = components_spec(dir);
        let taken = taken_in(prev.1, key);
        let name = deduped(taken, jpeg_name(it.0));
        lemma_jpeg_name_plain(it.0);
        crate::names::lemma_deduped_plain(taken, jpeg_name(it.0));
        crate::path::lemma_components_join(dir, name);
        crate::names::lemma_deduped_fresh(taken, jpeg_name(it.0));
        let out = finish_run(subdirs, out_dir, items).0;
        let m = finish_run(subdirs, out_dir, items).1;
        let cn = components_spec(join_spec(dir, name));
        assert(cn.drop_last() =~= key);
        assert(cn.last() == name);
        assert forall|k: Seq<Seq<char>>| #[trigger] m.dom().contains(k) implies m[k].finite() by {
            if k != key {
                assert(prev.1.dom().contains(k));
            }
        }
        assert forall|i: int| 0 <= i < out.len() implies ({
            let c = components_spec(#[trigger] out[i]);
            c.len() > 0 && m.dom().contains(c.drop_last()) && m[c.drop_last()].contains(c.last())
        }) by {
            if i < prev.0.len() {
                assert(out[i] == prev.0[i]);
                let c = components_spec(prev.0[i]);
                assert(prev.1.dom().contains(c.drop_last()));
            }
        }
        assert forall|i: int, j: int| 0 <= i < j < out.len() implies components_spec(#[trigger] out[i])
            != components_spec(#[trigger] out[j]) by {
            assert(out[i] == prev.0[i]);
            if j < prev.0.len() {
                assert(out[j] == prev.0[j]);
            } else {
                let c = components_spec(prev.0[i]);
                assert(prev.1.dom().contains(c.drop_last()));
                if c == cn {
                    assert(c.drop_last() == key);
                    assert(prev.1[key].contains(name));
                }
            }
        }
    }
}

/// Two keepers never share an output path in one `finish` run: colliding
/// stems in one directory get distinct names, so no render overwrites
/// another's JPEG.
pub proof fn lemma_finish_dests_distinct(
    subdirs: OutputSubdirs,
    out_dir: Seq<char>,
    items: Seq<(Seq<char>, Seq<char>)>,
)
    ensures
        finish_run(subdirs, out_dir, items).0.len() == items.len(),
        forall|i: int, j: int|
            0 <= i < j < items.len() ==> components_spec(#[trigger] finish_run(subdirs, out_dir, items).0[i])
                != components_spec(#[trigger] finish_run(subdirs, out_dir, items).0[j]),
{
    lemma_finish_inv(subdirs, out_dir, items);
}

/// The subset of an `edits` row that decides whether a re-render is needed.
#[derive(Clone)]
pub struct EditIdentity {
    pub content_hash: String,
    pub recipe_hash: String,
    pub decider_version: String,
    pub renderer: String,
    pub look_model: Option<String>,
    pub look_version: Option<String>,
}

impl View for EditIdentity {
    type V = (Seq<char>, Seq<char>, Seq<char>, Seq<char>, Option<Seq<char>>, Option<Seq<char>>);

    open spec fn view(&self) -> Self::V {
        (
            self.content_hash@,
            self.recipe_hash@,
            self.decider_version@,
            self.renderer@,
            crate::library::opt_view(self.look_model),
            crate::library::opt_view(self.look_version),
        )
    }
}

fn opt_str_eq(a: &Option<String>, b: &Option<String>) -> (r: bool)
    ensures
        r == (crate::library::opt_view(*a) == crate::library::opt_view(*b)),
{
    match (a, b) {
        (Some(x), Some(y)) => str_eq(x.as_str(), y.as_str()),
        (None, None) => true,
        _ => false,
    }
}

impl EditIdentity {
    /// Field-wise equality.
    pub fn same_as(&self, other: &EditIdentity) -> (r: bool)
        ensures
            r == (self@ == other@),
    {
        str_eq(self.content_hash.as_str(), other.content_hash.as_str()) && str_eq(
            self.recipe_hash.as_str(),
            other.recipe_hash.as_str(),
        ) && str_eq(self.decider_version.as_str(), other.decider_version.as_str()) && str_eq(
            self.renderer.as_str(),
            other.renderer.as_str(),
        ) && opt_str_eq(&self.look_model, &other.look_model) && opt_str_eq(
            &self.look_version,
            &other.look_version,
        )
    }
}

/// `size as u64`.
pub open spec fn size_bits(size: i64) -> int {
    if size >= 0 {
        size as int
    } else {
        size + 0x1_0000_0000_0000_0000
    }
}

/// The recorded render still satisfies what is wanted: same identity, and the
/// recorded output is on disk at the recorded size.
pub open spec fn up_to_date_spec(
    existing: EditIdentity,
    wanted: EditIdentity,
    output_path: Option<Seq<char>>,
    output_size: Option<i64>,
    st: Seq<(Seq<char>, crate::output::FileStamp)>,
) -> bool {
    existing@ == wanted@ && match (output_path, output_size) {
        (Some(p), Some(size)) => match stamp_at(st, p) {
            Some(s) => s.len as int == size_bits(size),
            None => false,
        },
        _ => false,
    }
}

/// True when the recorded render still satisfies what is now wanted.
pub fn is_up_to_date(
    existing: &EditIdentity,
    wanted: &EditIdentity,
    output_path: Option<&str>,
    output_size: Option<i64>,
    disk: &DiskView,
) -> (r: bool)
    ensures
        r == up_to_date_spec(
            *existing,
            *wanted,
            match output_path {
                Some(p) => Some(p@),
                None => None,
            },
            output_size,
            stamp_views(disk.stamps@),
        ),
{
    if !existing.same_as(wanted) {
        return false;
    }
    match (output_path, output_size) {
        (Some(p), Some(size)) => match crate::output::stamp_lookup(disk, p) {
            Some(s) => if size >= 0 {
                s.len as i128 == size as i128
            } else {
                s.len as i128 == size as i128 + 0x1_0000_0000_0000_0000i128
            },
            None => false,
        },
        _ => false,
    }
}

/// What the catalog recorded of a photo's last render: its identity, output
/// path and output size.
pub struct RecordedEdit {
    pub identity: EditIdentity,
    pub output_path: Option<String>,
    pub output_size: Option<i64>,
}

/// A photo needs no work when its last render was written to `dest` (the same
/// path, however spelled) and is still up to date.
pub open spec fn already_finished_spec(
    existing: Option<RecordedEdit>,
    wanted: EditIdentity,
    dest: Seq<char>,
    st: Seq<(Seq<char>, crate::output::FileStamp)>,
) -> bool {
    match existing {
        Some(e) => match e.output_path {
            Some(p) => components_spec(p@) == components_spec(dest) && up_to_date_spec(
                e.identity,
                wanted,
                Some(p@),
                e.output_size,
                st,
            ),
            None => false,
        },
        None => false,
    }
}

/// Whether `finish` can skip a photo whose JPEG would go to `dest`.
pub fn already_finished(existing: &Option<RecordedEdit>, wanted: &EditIdentity, dest: &str, disk: &DiskView) -> (r:
    bool)
    ensures
        r == already_finished_spec(*existing, *wanted, dest@, stamp_views(disk.stamps@)),
{
    match existing {
        Some(e) => match &e.output_path {
            Some(p) => {
                let here = components_eq(&components(p.as_str()), &components(dest));
                here && is_up_to_date(&e.identity, wanted, Some(p.as_str()), e.output_size, disk)
            },
            None => false,
        },
        None => false,
    }
}

/// The persisted sensor statistics of a photo can stand in for a fresh
/// measurement only when its last render was made from the same content: the
/// statistics row carries no content hash of its own, and the render row that
/// does is written in the same pass.
pub fn reuses_measurement(existing: &Option<RecordedEdit>, content_hash: &str) -> (r: bool)
    ensures
        r == (existing matches Some(e) && e.identity.content_hash@ == content_hash@),
{
    match existing {
        Some(e) => str_eq(e.identity.content_hash.as_str(), content_hash),
        None => false,
    }
}

/// Re-running `finish` over an unchanged library does no work: a photo whose
/// recorded render has the wanted identity, went to the path this run assigns
/// it, and is still on disk at the recorded size is skipped; and any change
/// of identity forces a fresh render.
pub proof fn lemma_finish_skips_exactly_unchanged(
    rec: RecordedEdit,
    wanted: EditIdentity,
    dest: Seq<char>,
    st: Seq<(Seq<char>, crate::output::FileStamp)>,
)
    ensures
        (rec.identity@ == wanted@ && (rec.output_path matches Some(p) && p@ == dest) && (rec.output_size matches Some(
            size,
        ) && (stamp_at(st, dest) matches Some(s) && s.len as int == size_bits(size)))) ==> already_finished_spec(
            Some(rec),
            wanted,
            dest,
            st,
        ),
        rec.identity@ != wanted@ ==> !already_finished_spec(Some(rec), wanted, dest, st),
{
}

pub open spec fn pair_view(p: Option<(String, String)>) -> Option<(Seq<char>, Seq<char>)> {
    match p {
        Some((a, b)) => Some((a@, b@)),
        None => None,
    }
}

/// The look a run intends to apply, as `(model, version)`: none while the
/// look is disabled, otherwise the loaded look model, if one loaded.  It
/// depends only on the settings and on which model loaded, never on whether a
/// prediction succeeded, because it is part of the render identity.
pub fn look_identity(enabled: bool, loaded: &Option<(String, String)>) -> (r: Option<(String, String)>)
    ensures
        pair_view(r) == if enabled {
            pair_view(*loaded)
        } else {
            None
        },
{
    if !enabled {
        return None;
    }
    match loaded {
        Some((name, version)) => Some((name.clone(), version.clone())),
        None => None,
    }
}

/// Runs RawTherapee's command-line tool.
pub struct Pp3Renderer {
    pub exe: String,
}

/// The executable for a configured path: the bare name (found on `PATH`)
/// when none is configured, otherwise the path with `~/` expanded against the
/// home directory `home`.
pub open spec fn renderer_exe_spec(configured: Seq<char>, home: Option<Seq<char>>) -> Seq<char> {
    if configured.len() == 0 {
        "rawtherapee-cli"@
    } else {
        expand_tilde_spec(configured, home)
    }
}

impl Pp3Renderer {
    pub fn new(cfg: &DevelopConfig) -> (r: Self)
        ensures
            exists|h: Option<Seq<char>>| r.exe@ == renderer_exe_spec(cfg.rawtherapee_path@, h),
    {
        if crate::text::chars_of(cfg.rawtherapee_path.as_str()).len() == 0 {
            let r = Pp3Renderer { exe: owned("rawtherapee-cli") };
            assert(r.exe@ == renderer_exe_spec(cfg.rawtherapee_path@, None));
            r
        } else {
            let r = Pp3Renderer { exe: expand_tilde(cfg.rawtherapee_path.as_str()) };
            proof {
                let h = choose|h: Option<Seq<char>>| r.exe@ == expand_tilde_spec(cfg.rawtherapee_path@, h);
                assert(r.exe@ == renderer_exe_spec(cfg.rawtherapee_path@, h));
            }
            r
        }
    }

    /// The resolved executable path.
    pub fn exe_path(&self) -> (p: &str)
        ensures
            p@ == self.exe@,
    {
        self.exe.as_str()
    }
}

/// The arguments for one render: overwrite without prompting, 16-bit TIFF,
/// the base profile then the per-photo one, the output directory, and the
/// input last.
pub open spec fn args_spec(base_pp3: Seq<char>, photo_pp3: Seq<char>, out_dir: Seq<char>, input: Seq<char>) -> Seq<
    Seq<char>,
> {
    seq!["-Y"@, "-t"@, "-b16"@, "-p"@, base_pp3, "-p"@, photo_pp3, "-o"@, out_dir, "-c"@, input]
}

/// Build the argument vector for `rawtherapee-cli`.
pub fn build_args(base_pp3: &str, photo_pp3: &str, out_dir: &str, input: &str) -> (r: Vec<String>)
    ensures
        views(r@) == args_spec(base_pp3@, photo_pp3@, out_dir@, input@),
{
    let mut r: Vec<String> = Vec::new();
    r.push(owned("-Y"));
    r.push(owned("-t"));
    r.push(owned("-b16"));
    r.push(owned("-p"));
    r.push(owned(base_pp3));
    r.push(owned("-p"));
    r.push(owned(photo_pp3));
    r.push(owned("-o"));
    r.push(owned(out_dir));
    r.push(owned("-c"));
    r.push(owned(input));
    assert(views(r@) =~= args_spec(base_pp3@, photo_pp3@, out_dir@, input@));
    r
}

/// What a render is asked for: the input comes last, right after `-c`; before
/// it the output directory is given with `-o` (so the TIFF lands there and
/// not beside the input), the base profile is applied with `-p` ahead of the
/// per-photo one, and the overwrite (`-Y`), TIFF (`-t`) and 16-bit (`-b16`)
/// switches are set.
pub proof fn lemma_render_arguments(base_pp3: Seq<char>, photo_pp3: Seq<char>, out_dir: Seq<char>, input: Seq<char>)
    ensures
        ({
            let a = args_spec(base_pp3, photo_pp3, out_dir, input);
            let n = a.len() as int;
            &&& n >= 2
            &&& a[n - 2] == "-c"@
            &&& a[n - 1] == input
            &&& exists|k: int| 0 <= k && k + 1 < n - 2 && #[trigger] a[k] == "-o"@ && a[k + 1] == out_dir
            &&& exists|i: int, j: int|
                0 <= i && i + 1 < j && j + 1 < n - 2 && #[trigger] a[i] == "-p"@ && a[i + 1] == base_pp3
                    && #[trigger] a[j] == "-p"@ && a[j + 1] == photo_pp3
            &&& exists|k: int| 0 <= k < n - 2 && #[trigger] a[k] == "-Y"@
            &&& exists|k: int| 0 <= k < n - 2 && #[trigger] a[k] == "-t"@
            &&& exists|k: int| 0 <= k < n - 2 && #[trigger] a[k] == "-b16"@
        }),
{
    let a = args_spec(base_pp3, photo_pp3, out_dir, input);
    assert(a[7] == "-o"@ && a[8] == out_dir);
    assert(a[3] == "-p"@ && a[4] == base_pp3 && a[5] == "-p"@ && a[6] == photo_pp3);
    assert(a[0] == "-Y"@ && a[1] == "-t"@ && a[2] == "-b16"@);
}

/// The files of one render in the scratch directory.
pub struct RenderPaths {
    /// The shared base profile.
    pub base_pp3: String,
    /// The per-photo profile, `<stem>.pp3`.
    pub photo_pp3: String,
    /// The TIFF RawTherapee writes, `<stem>.tif`.
    pub tiff: String,
}

/// The stem RawTherapee names its output after (`photo` when there is none).
pub open spec fn render_stem(raw: Seq<char>) -> Seq<char> {
    match file_stem_spec(raw) {
        Some(s) => s,
        None => "photo"@,
    }
}

/// Where the profiles and the TIFF of rendering `raw` go in `tmp_dir`; never
/// beside the original.
pub fn render_paths(raw: &str, tmp_dir: &str) -> (r: RenderPaths)
    ensures
        r.base_pp3@ == join_spec(tmp_dir@, "base.pp3"@),
        r.photo_pp3@ == join_spec(tmp_dir@, render_stem(raw@) + ".pp3"@),
        r.tiff@ == join_spec(tmp_dir@, render_stem(raw@) + ".tif"@),
{
    let stem = match file_stem(raw) {
        Some(s) => s,
        None => owned("photo"),
    };
    let mut pp3 = owned(stem.as_str());
    push_str(&mut pp3, ".pp3");
    let mut tif = stem;
    push_str(&mut tif, ".tif");
    RenderPaths {
        base_pp3: join(tmp_dir, "base.pp3"),
        photo_pp3: join(tmp_dir, pp3.as_str()),
        tiff: join(tmp_dir, tif.as_str()),
    }
}

/// A completed baseline render.
pub struct RenderedTiff {
    /// 16-bit sRGB TIFF in the scratch directory.
    pub tiff: String,
    /// The per-photo profile, copied next to the output JPEG.
    pub pp3: String,
}

/// `path.with_extension(ext)` for a non-empty `ext`: the path cut right after
/// the stem of its file name, then `.` and `ext`; unchanged when the path has
/// no file name.
pub open spec fn with_extension_spec(p: Seq<char>, ext: Seq<char>) -> Seq<char> {
    match crate::path::file_name_at(p, p.len() as int) {
        Some((a, b)) => p.subrange(0, a + crate::path::stem_of_name(p.subrange(a, b)).len()) + seq!['.']
            + ext,
        None => p,
    }
}

/// The `.pp3` profile kept beside the JPEG at `path`.
pub fn pp3_beside(path: &str) -> (r: String)
    ensures
        r@ == with_extension_spec(path@, "pp3"@),
{
    let v = crate::text::chars_of(path);
    match crate::path::file_name_range(&v) {
        Some((a, b)) => {
            let name = crate::path::slice_chars(&v, a, b);
            let mut d = name.len();
            while d > 0 && name[d - 1] != '.'
                invariant
                    d <= name@.len(),
                    crate::path::last_dot(name@, 0, name@.len() as int) == crate::path::last_dot(
                        name@,
                        0,
                        d as int,
                    ),
                decreases d,
            {
                d = d - 1;
            }
            proof {
                crate::path::lemma_last_dot_bounds_pub(name@, 0, d as int);
            }
            let stem_len = if d <= 1 {
                name.len()
            } else {
                d - 1
            };
            proof {
                assert(stem_len == crate::path::stem_of_name(name@).len());
            }
            let head = crate::path::slice_chars(&v, 0, a + stem_len);
            let mut r = crate::text::string_of(&head);
            push_str(&mut r, ".pp3");
            proof {
                reveal_strlit(".pp3");
                reveal_strlit("pp3");
                assert(r@ =~= with_extension_spec(path@, "pp3"@));
            }
            r
        },
        None => owned(path),
    }
}

/// `recorded` lies inside `dir`: the components of `dir` begin those of
/// `recorded` (`Path::starts_with`).
pub open spec fn inside_spec(recorded: Seq<char>, dir: Seq<char>) -> bool {
    let c = components_spec(recorded);
    let d = components_spec(dir);
    d.len() <= c.len() && c.subrange(0, d.len() as int) == d
}

fn inside(recorded: &str, dir: &str) -> (r: bool)
    ensures
        r == inside_spec(recorded@, dir@),
{
    let c = components(recorded);
    let d = components(dir);
    if d.len() > c.len() {
        proof {
            assert(crate::path::vviews(d@).len() > crate::path::vviews(c@).len());
        }
        return false;
    }
    let mut i: usize = 0;
    while i < d.len()
        invariant
            d.len() <= c.len(),
            i <= d.len(),
            crate::path::vviews(c@) == components_spec(recorded@),
            crate::path::vviews(d@) == components_spec(dir@),
            forall|j: int| 0 <= j < i ==> (#[trigger] d@[j])@ == c@[j]@,
        decreases d.len() - i,
    {
        if !crate::text::seq_chars_eq(&d[i], &c[i]) {
            proof {
                let cv = crate::path::vviews(c@);
                let dv = crate::path::vviews(d@);
                assert(cv.subrange(0, dv.len() as int)[i as int] != dv[i as int]);
            }
            return false;
        }
        i = i + 1;
    }
    proof {
        let cv = crate::path::vviews(c@);
        let dv = crate::path::vviews(d@);
        assert(cv.subrange(0, dv.len() as int) =~= dv);
    }
    true
}

/// A finished tree without the marker is adopted (and then pruned) only when
/// it is demonstrably ours: empty, written to by this run, or holding an
/// output the catalog already records.
pub open spec fn adopt_spec(empty: bool, wrote_any: bool, recorded: Seq<Seq<char>>, out_dir: Seq<char>) -> bool {
    empty || wrote_any || exists|i: int| 0 <= i < recorded.len() && inside_spec(#[trigger] recorded[i], out_dir)
}

pub fn adopt_unmarked_tree(empty: bool, wrote_any: bool, recorded: &[String], out_dir: &str) -> (r: bool)
    ensures
        r == adopt_spec(empty, wrote_any, views(recorded@), out_dir@),
{
    if empty || wrote_any {
        return true;
    }
    for i in 0..recorded.len()
        invariant
            forall|j: int| 0 <= j < i ==> !inside_spec(#[trigger] views(recorded@)[j], out_dir@),
    {
        if inside(recorded[i].as_str(), out_dir) {
            proof {
                assert(inside_spec(views(recorded@)[i as int], out_dir@));
            }
            return true;
        }
    }
    false
}

/// `p` is one of the `expected` paths (compared as paths).
pub open spec fn expected_spec(expected: Seq<Seq<char>>, p: Seq<char>) -> bool {
    exists|i: int| 0 <= i < expected.len() && components_spec(#[trigger] expected[i]) == components_spec(p)
}

pub(crate) fn is_expected(expected: &[String], p: &str) -> (r: bool)
    ensures
        r == expected_spec(views(expected@), p@),
{
    let c = components(p);
    for i in 0..expected.len()
        invariant
            crate::path::vviews(c@) == components_spec(p@),
            forall|j: int| 0 <= j < i ==> components_spec(#[trigger] views(expected@)[j]) != components_spec(p@),
    {
        if components_eq(&components(expected[i].as_str()), &c) {
            proof {
                assert(components_spec(views(expected@)[i as int]) == components_spec(p@));
            }
            return true;
        }
    }
    false
}

/// What the sweep of a finished tree does with one entry it finds.
#[derive(PartialEq, Eq, Structural, Clone, Copy, Debug)]
pub enum SweepAction {
    /// Leave it in place.
    Keep,
    /// A directory: sweep inside it.
    Descend,
    /// A file this run does not vouch for: delete it.
    Remove,
}

/// `path` is the tree's own marker file, directly under `root`.
pub open spec fn is_root_marker(root: Seq<char>, path: Seq<char>) -> bool {
    components_spec(path) == components_spec(root).push(".photopipe-tree"@)
}

/// The marker at the root is kept, directories are swept into, expected
/// outputs are kept, and every other file is removed.
pub open spec fn sweep_spec(root: Seq<char>, path: Seq<char>, is_dir: bool, expected: Seq<Seq<char>>) -> SweepAction {
    if is_root_marker(root, path) {
        SweepAction::Keep
    } else if is_dir {
        SweepAction::Descend
    } else if expected_spec(expected, path) {
        SweepAction::Keep
    } else {
        SweepAction::Remove
    }
}

/// What sweeping the finished tree at `root` does with the entry at `path`.
pub fn sweep_action(root: &str, path: &str, is_dir: bool, expected: &[String]) -> (r: SweepAction)
    ensures
        r == sweep_spec(root@, path@, is_dir, views(expected@)),
{
    let mut marker = components(root);
    let name = crate::text::chars_of(".photopipe-tree");
    proof {
        reveal_strlit(".photopipe-tree");
    }
    marker.push(name);
    proof {
        assert(crate::path::vviews(marker@) =~= components_spec(root@).push(".photopipe-tree"@));
    }
    if components_eq(&components(path), &marker) {
        SweepAction::Keep
    } else if is_dir {
        SweepAction::Descend
    } else if is_expected(expected, path) {
        SweepAction::Keep
    } else {
        SweepAction::Remove
    }
}

/// The sweep of a finished tree deletes exactly the files this run does not
/// vouch for: a file other than the root marker whose path is no expected
/// output is removed, wherever it lies; a directory is swept into; the marker
/// and expected outputs are kept.
pub proof fn lemma_sweep_removes_every_unexpected_file(
    root: Seq<char>,
    path: Seq<char>,
    is_dir: bool,
    expected: Seq<Seq<char>>,
)
    ensures
        (!is_dir && !is_root_marker(root, path) && forall|i: int|
            0 <= i < expected.len() ==> components_spec(#[trigger] expected[i]) != components_spec(path))
            ==> sweep_spec(root, path, is_dir, expected) == SweepAction::Remove,
        (is_dir && !is_root_marker(root, path)) ==> sweep_spec(root, path, is_dir, expected) == SweepAction::Descend,
        (is_root_marker(root, path) || (!is_dir && exists|i: int|
            0 <= i < expected.len() && components_spec(#[trigger] expected[i]) == components_spec(path)))
            ==> sweep_spec(root, path, is_dir, expected) == SweepAction::Keep,
{
}

/// The sweep never deletes the tree's marker, a directory, or an output this
/// run vouches for.
pub proof fn lemma_sweep_spares_marker_and_expected(
    root: Seq<char>,
    path: Seq<char>,
    is_dir: bool,
    expected: Seq<Seq<char>>,
)
    ensures
        sweep_spec(root, path, is_dir, expected) == SweepAction::Remove ==> {
            &&& !is_root_marker(root, path)
            &&& !is_dir
            &&& forall|i: int| 0 <= i < expected.len() ==> components_spec(#[trigger] expected[i]) != components_spec(path)
        },
{
}

/// The files to delete for photos that are no longer keepers: each orphan's
/// JPEG and its `.pp3`, unless this run just wrote that JPEG.
pub open spec fn orphan_victims(orphans: Seq<(i64, Option<Seq<char>>)>, expected: Seq<Seq<char>>) -> Seq<
    Seq<char>,
>
    decreases orphans.len(),
{
    if orphans.len() == 0 {
        Seq::empty()
    } else {
        orphan_victims(orphans.drop_last(), expected) + match orphans.last().1 {
            Some(p) => if expected_spec(expected, p) {
                Seq::empty()
            } else {
                seq![p, with_extension_spec(p, "pp3"@)]
            },
            None => Seq::empty(),
        }
    }
}

pub open spec fn orphan_views(v: Seq<(i64, Option<String>)>) -> Seq<(i64, Option<Seq<char>>)> {
    v.map_values(|o: (i64, Option<String>)| (o.0, crate::library::opt_view(o.1)))
}

/// What pruning the orphans of a finished tree does: which files to delete,
/// and which `edits` rows to forget (all of them).
pub struct OrphanPlan {
    pub victims: Vec<String>,
    pub forget: Vec<i64>,
}

pub fn plan_orphans(orphans: &[(i64, Option<String>)], expected: &[String]) -> (r: OrphanPlan)
    ensures
        views(r.victims@) == orphan_victims(orphan_views(orphans@), views(expected@)),
        r.forget@ == orphans@.map_values(|o: (i64, Option<String>)| o.0),
{
    let ghost os = orphan_views(orphans@);
    let mut victims: Vec<String> = Vec::new();
    let mut forget: Vec<i64> = Vec::new();
    for i in 0..orphans.len()
        invariant
            os == orphan_views(orphans@),
            views(victims@) == orphan_victims(os.take(i as int), views(expected@)),
            forget@ == orphans@.take(i as int).map_values(|o: (i64, Option<String>)| o.0),
    {
        proof {
            assert(os.take(i + 1).drop_last() =~= os.take(i as int));
            assert(os.take(i + 1).last() == os[i as int]);
        }
        let ghost before = views(victims@);
        match &orphans[i].1 {
            Some(p) => {
                if !is_expected(expected, p.as_str()) {
                    victims.push(owned(p.as_str()));
                    victims.push(pp3_beside(p.as_str()));
                    proof {
                        assert(views(victims@) =~= before + seq![p@, with_extension_spec(p@, "pp3"@)]);
                    }
                } else {
                    proof {
                        assert(views(victims@) =~= before + Seq::<Seq<char>>::empty());
                    }
                }
            },
            None => {
                proof {
                    assert(views(victims@) =~= before + Seq::<Seq<char>>::empty());
                }
            },
        }
        forget.push(orphans[i].0);
        proof {
            assert(orphans@.take(i + 1).map_values(|o: (i64, Option<String>)| o.0) =~= orphans@.take(
                i as int,
            ).map_values(|o: (i64, Option<String>)| o.0).push(orphans@[i as int].0));
        }
    }
    proof {
        assert(os.take(orphans@.len() as int) =~= os);
        assert(orphans@.take(orphans@.len() as int) =~= orphans@);
    }
    OrphanPlan { victims, forget }
}

/// How one keeper fared in a `finish` run.
#[derive(Clone, Copy, PartialEq, Eq, Structural, Debug)]
pub enum FinishOutcome {
    Rendered,
    Skipped,
    /// Not a RAW file.
    Unsupported,
    Errored,
}

impl FinishReport {
    /// Count one keeper's outcome.
    pub fn count(&mut self, outcome: FinishOutcome)
        requires
            old(self).rendered < u64::MAX,
            old(self).skipped < u64::MAX,
            old(self).skipped_unsupported < u64::MAX,
            old(self).errored < u64::MAX,
        ensures
            final(self).rendered == old(self).rendered + if outcome == FinishOutcome::Rendered {
                1int
            } else {
                0int
            },
            final(self).skipped == old(self).skipped + if outcome == FinishOutcome::Skipped {
                1int
            } else {
                0int
            },
            final(self).skipped_unsupported == old(self).skipped_unsupported + if outcome
                == FinishOutcome::Unsupported {
                1int
            } else {
                0int
            },
            final(self).errored == old(self).errored + if outcome == FinishOutcome::Errored {
                1int
            } else {
                0int
            },
            final(self).pruned == old(self).pruned,
    {
        match outcome {
            FinishOutcome::Rendered => self.rendered = self.rendered + 1,
            FinishOutcome::Skipped => self.skipped = self.skipped + 1,
            FinishOutcome::Unsupported => self.skipped_unsupported = self.skipped_unsupported + 1,
            FinishOutcome::Errored => self.errored = self.errored + 1,
        }
    }

    /// The report of a run whose keepers fared as `outcomes`: each counter is
    /// the number of keepers with that outcome, so together they count every
    /// keeper once; nothing is pruned yet.
    pub fn tally(outcomes: &[FinishOutcome]) -> (r: FinishReport)
        ensures
            r.rendered == finish_count(outcomes@, FinishOutcome::Rendered),
            r.skipped == finish_count(outcomes@, FinishOutcome::Skipped),
            r.skipped_unsupported == finish_count(outcomes@, FinishOutcome::Unsupported),
            r.errored == finish_count(outcomes@, FinishOutcome::Errored),
            r.pruned == 0,
            r.rendered + r.skipped + r.skipped_unsupported + r.errored == outcomes@.len(),
    {
        let mut r = FinishReport::default();
        for i in 0..outcomes.len()
            invariant
                r.rendered == finish_count(outcomes@.take(i as int), FinishOutcome::Rendered),
                r.skipped == finish_count(outcomes@.take(i as int), FinishOutcome::Skipped),
                r.skipped_unsupported == finish_count(outcomes@.take(i as int), FinishOutcome::Unsupported),
                r.errored == finish_count(outcomes@.take(i as int), FinishOutcome::Errored),
                r.pruned == 0,
                r.rendered + r.skipped + r.skipped_unsupported + r.errored == i,
                i <= outcomes@.len(),
                outcomes@.len() <= usize::MAX,
        {
            proof {
                assert(outcomes@.take(i + 1).drop_last() =~= outcomes@.take(i as int));
                assert(outcomes@.take(i + 1).last() == outcomes@[i as int]);
            }
            r.count(outcomes[i]);
        }
        proof {
            assert(outcomes@.take(outcomes@.len() as int) =~= outcomes@);
        }
        r
    }
}

/// How many of `outcomes` are `o`.
pub open spec fn finish_count(outcomes: Seq<FinishOutcome>, o: FinishOutcome) -> nat
    decreases outcomes.len(),
{
    if outcomes.len() == 0 {
        0
    } else {
        finish_count(outcomes.drop_last(), o) + if outcomes.last() == o {
            1nat
        } else {
            0nat
        }
    }
}

/// The first `\n`-separated line of `s` that contains `pat`.
pub open spec fn first_line_with(s: Seq<char>, pat: Seq<char>) -> Option<Seq<char>>
    decreases s.len(),
{
    let k = first_newline(s, 0);
    if k < 0 || k > s.len() {
        None
    } else if contains_spec(s.subrange(0, k), pat) {
        Some(s.subrange(0, k))
    } else if k < s.len() {
        first_line_with(s.subrange(k + 1, s.len() as int), pat)
    } else {
        None
    }
}

/// Index of the first `\n` at or after `i` (the length when none).
pub open spec fn first_newline(s: Seq<char>, i: int) -> int
    decreases s.len() - i,
{
    if i < 0 || i >= s.len() {
        s.len() as int
    } else if s[i] == '\n' {
        i
    } else {
        first_newline(s, i + 1)
    }
}

/// `s.contains(pat)`.
pub open spec fn contains_spec(s: Seq<char>, pat: Seq<char>) -> bool {
    exists|i: int| 0 <= i && i + pat.len() <= s.len() && #[trigger] s.subrange(i, i + pat.len()) == pat
}

fn contains_chars(s: &Vec<char>, pat: &Vec<char>) -> (r: bool)
    ensures
        r == contains_spec(s@, pat@),
{
    if pat.len() > s.len() {
        return false;
    }
    if pat.len() == 0 {
        proof {
            assert(s@.subrange(0, 0int + pat@.len()) =~= pat@);
        }
        return true;
    }
    let mut i: usize = 0;
    let last = s.len() - pat.len();
    while i <= last
        invariant
            pat.len() <= s.len(),
            pat.len() > 0,
            last == s.len() - pat.len(),
            i <= last + 1,
            forall|j: int| 0 <= j < i ==> #[trigger] s@.subrange(j, j + pat@.len()) != pat@,
        decreases last + 1 - i,
    {
        if crate::path::matches_at(s, i, pat) {
            return true;
        }
        i = i + 1;
    }
    false
}

proof fn lemma_first_newline(s: Seq<char>, i: int)
    requires
        0 <= i <= s.len(),
    ensures
        i <= first_newline(s, i) <= s.len(),
        first_newline(s, i) < s.len() ==> s[first_newline(s, i)] == '\n',
        forall|j: int| i <= j < first_newline(s, i) ==> s[j] != '\n',
    decreases s.len() - i,
{
    if i < s.len() && s[i] != '\n' {
        lemma_first_newline(s, i + 1);
    }
}

fn line_with(s: &str, pat: &Vec<char>) -> (r: Option<Vec<char>>)
    ensures
        match r {
            Some(l) => first_line_with(s@, pat@) == Some(l@),
            None => first_line_with(s@, pat@) is None,
        },
{
    let v = crate::text::chars_of(s);
    let mut start: usize = 0;
    proof {
        assert(v@.subrange(0, v@.len() as int) =~= v@);
    }
    loop
        invariant
            v@ == s@,
            start <= v@.len(),
            first_line_with(s@, pat@) == first_line_with(v@.subrange(start as int, v@.len() as int), pat@),
        decreases v@.len() - start,
    {
        let ghost rest = v@.subrange(start as int, v@.len() as int);
        let mut k = start;
        while k < v.len() && v[k] != '\n'
            invariant
                v@ == s@,
                start <= k <= v@.len(),
                rest == v@.subrange(start as int, v@.len() as int),
                first_newline(rest, 0) == first_newline(rest, (k - start) as int),
            decreases v@.len() - k,
        {
            proof {
                assert(rest[(k - start) as int] == v@[k as int]);
            }
            k = k + 1;
        }
        proof {
            if k < v@.len() {
                assert(rest[(k - start) as int] == v@[k as int]);
            }
            assert(first_newline(rest, (k - start) as int) == (k - start) as int);
            assert(rest.subrange(0, (k - start) as int) =~= v@.subrange(start as int, k as int));
        }
        let line = crate::path::slice_chars(&v, start, k);
        if contains_chars(&line, pat) {
            return Some(line);
        }
        if k == v.len() {
            return None;
        }
        proof {
            assert(rest.subrange((k - start) + 1, rest.len() as int) =~= v@.subrange(k + 1, v@.len() as int));
        }
        start = k + 1;
    }
}

/// The version banner a RawTherapee binary prints: the first line of its
/// standard output, else of its standard error, that names RawTherapee,
/// trimmed.
pub open spec fn banner_spec(stdout: Seq<char>, stderr: Seq<char>) -> Option<Seq<char>> {
    match first_line_with(stdout, "RawTherapee"@) {
        Some(l) => Some(crate::exif::trim_spec(l)),
        None => match first_line_with(stderr, "RawTherapee"@) {
            Some(l) => Some(crate::exif::trim_spec(l)),
            None => None,
        },
    }
}

/// Find the version banner in what `rawtherapee-cli --version` printed.  The
/// exit status is not consulted: the banner is the success signal.
pub fn version_banner(stdout: &str, stderr: &str) -> (r: Option<String>)
    ensures
        match r {
            Some(b) => banner_spec(stdout@, stderr@) == Some(b@),
            None => banner_spec(stdout@, stderr@) is None,
        },
{
    let pat = crate::text::chars_of("RawTherapee");
    match line_with(stdout, &pat) {
        Some(l) => Some(crate::text::string_of(&crate::exif::trim_chars(&l))),
        None => match line_with(stderr, &pat) {
            Some(l) => Some(crate::text::string_of(&crate::exif::trim_chars(&l))),
            None => None,
        },
    }
}

} // verus!
