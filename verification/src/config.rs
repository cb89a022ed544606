//! Settings: the defaults each section starts from, and where the config
//! file and `~/` paths resolve to.
use vstd::prelude::*;
use crate::output::views;
use crate::path::{join, join_spec};

verus! {

/// `dirs::config_dir`, as text.  It reads the environment, so nothing is
/// promised of what comes back. The library keeps paths as
/// UTF-8 text, so a directory whose name is not valid UTF-8 comes back with
/// its invalid bytes replaced by U+FFFD.
#[verifier::external_body]
fn os_config_dir() -> Option<String> {
    match dirs::config_dir() {
        Some(p) => Some(p.to_string_lossy().into_owned()),
        None => None,
    }
}

/// `dirs::home_dir`, as text.  It reads the environment and the user
/// database, so nothing is promised of what comes back. The library keeps paths as
/// UTF-8 text, so a directory whose name is not valid UTF-8 comes back with
/// its invalid bytes replaced by U+FFFD.
#[verifier::external_body]
fn os_home_dir() -> Option<String> {
    match dirs::home_dir() {
        Some(p) => Some(p.to_string_lossy().into_owned()),
        None => None,
    }
}

pub(crate) fn owned(s: &str) -> (r: String)
    ensures
        r@ == s@,
{
    s.to_owned()
}

pub struct CatalogConfig {
    pub write_batch_size: usize,
    pub enable_vss: bool,
}

impl Default for CatalogConfig {
    fn default() -> (r: Self)
        ensures
            r.write_batch_size == 64,
            !r.enable_vss,
    {
        CatalogConfig { write_batch_size: 64, enable_vss: false }
    }
}

/// What to do with a JPEG that sits beside a RAW of the same stem.
#[derive(Clone, Copy, PartialEq, Eq, Structural, Debug)]
pub enum SidecarJpgMode {
    Prefer,
    Ignore,
    Require,
}

pub struct IngestConfig {
    pub extensions: Vec<String>,
    pub follow_symlinks: bool,
    /// 0 = use all logical cores
    pub threads: usize,
    pub sidecar_jpg: SidecarJpgMode,
    pub preview_max_long_edge: u32,
    pub preview_quality: u8,
}

impl Default for IngestConfig {
    fn default() -> (r: Self)
        ensures
            views(r.extensions@) == seq![
                "arw"@,
                "cr3"@,
                "cr2"@,
                "nef"@,
                "raf"@,
                "rw2"@,
                "dng"@,
                "jpg"@,
                "jpeg"@,
            ],
            !r.follow_symlinks,
            r.threads == 0,
            r.sidecar_jpg == SidecarJpgMode::Prefer,
            r.preview_max_long_edge == 2048,
            r.preview_quality == 85,
    {
        let mut extensions: Vec<String> = Vec::new();
        extensions.push(owned("arw"));
        extensions.push(owned("cr3"));
        extensions.push(owned("cr2"));
        extensions.push(owned("nef"));
        extensions.push(owned("raf"));
        extensions.push(owned("rw2"));
        extensions.push(owned("dng"));
        extensions.push(owned("jpg"));
        extensions.push(owned("jpeg"));
        let r = IngestConfig {
            extensions,
            follow_symlinks: false,
            threads: 0,
            sidecar_jpg: SidecarJpgMode::Prefer,
            preview_max_long_edge: 2048,
            preview_quality: 85,
        };
        assert(views(r.extensions@) =~= seq![
            "arw"@,
            "cr3"@,
            "cr2"@,
            "nef"@,
            "raf"@,
            "rw2"@,
            "dng"@,
            "jpg"@,
            "jpeg"@,
        ]);
        r
    }
}

/// The inference device to ask the model runtime for.
#[derive(Clone, Copy, PartialEq, Eq, Structural, Debug)]
pub enum DeviceChoice {
    Auto,
    CoreMl,
    Cuda,
    TensorRt,
    Cpu,
}

pub struct ModelsConfig {
    pub device: DeviceChoice,
    pub embedder: String,
    pub iqa: String,
    pub detector: String,
    pub model_dir: String,
}

impl Default for ModelsConfig {
    fn default() -> (r: Self)
        ensures
            r.device == DeviceChoice::Auto,
            r.embedder@ == "dinov2-base"@,
            r.iqa@ == "clip-iqa"@,
            r.detector@ == "rt-detr-l"@,
            r.model_dir@ == "./models"@,
    {
        ModelsConfig {
            device: DeviceChoice::Auto,
            embedder: owned("dinov2-base"),
            iqa: owned("clip-iqa"),
            detector: owned("rt-detr-l"),
            model_dir: owned("./models"),
        }
    }
}

/// How the keeper of a duplicate group is chosen.
#[derive(Clone, Copy, PartialEq, Eq, Structural, Debug)]
pub enum KeeperStrategy {
    Iqa,
    Sharpness,
    IqaThenSharpness,
}

pub struct OutputConfig {
    /// Literal `<library>` is substituted with the scan root at runtime.
    pub review_tree: String,
    pub keeper_strategy: KeeperStrategy,
}

impl Default for OutputConfig {
    fn default() -> (r: Self)
        ensures
            r.review_tree@ == "<library>/_review"@,
            r.keeper_strategy == KeeperStrategy::Iqa,
    {
        OutputConfig { review_tree: owned("<library>/_review"), keeper_strategy: KeeperStrategy::Iqa }
    }
}

/// Where developed JPEGs go under the output directory.
#[derive(Clone, Copy, PartialEq, Eq, Structural, Debug)]
pub enum OutputSubdirs {
    /// `<out>/<YYYY-MM>/`, by capture month.
    Month,
    /// Everything directly in `<out>`.
    Flat,
}

pub struct DevelopConfig {
    /// The `rawtherapee-cli` to run; empty means "search `PATH`".
    pub rawtherapee_path: String,
    pub output_subdirs: OutputSubdirs,
}

impl Default for DevelopConfig {
    fn default() -> (r: Self)
        ensures
            r.rawtherapee_path@.len() == 0,
            r.output_subdirs == OutputSubdirs::Month,
    {
        DevelopConfig { rawtherapee_path: String::new(), output_subdirs: OutputSubdirs::Month }
    }
}

/// `<config dir>/photopipe/photopipe.toml`, the current directory standing in
/// for a config dir that cannot be determined.
pub open spec fn config_path_spec(config_dir: Option<Seq<char>>) -> Seq<char> {
    join_spec(
        match config_dir {
            Some(d) => d,
            None => "."@,
        },
        "photopipe/photopipe.toml"@,
    )
}

/// The config-file path under the given OS config directory.
pub fn config_path_under(config_dir: Option<String>) -> (p: String)
    ensures
        p@ == config_path_spec(crate::library::opt_view(config_dir)),
{
    let root = match config_dir {
        Some(d) => d,
        None => owned("."),
    };
    join(root.as_str(), "photopipe/photopipe.toml")
}

/// Default config-file path: `<config dir>/photopipe/photopipe.toml`.
pub fn default_config_path() -> (p: String)
    ensures
        exists|d: Option<Seq<char>>| p@ == config_path_spec(d),
{
    let d = os_config_dir();
    let p = config_path_under(d);
    proof {
        assert(p@ == config_path_spec(crate::library::opt_view(d)));
    }
    p
}

/// `p` with a leading `~/` replaced by the home directory `home`; unchanged
/// when it has no such prefix or the home directory is unknown.
pub open spec fn expand_tilde_spec(p: Seq<char>, home: Option<Seq<char>>) -> Seq<char> {
    if p.len() >= 2 && p[0] == '~' && p[1] == '/' {
        match home {
            Some(h) => join_spec(h, p.skip(2)),
            None => p,
        }
    } else {
        p
    }
}

/// Expand a leading `~/` against the given home directory.
pub fn expand_tilde_with(p: &str, home: Option<String>) -> (r: String)
    ensures
        r@ == expand_tilde_spec(p@, crate::library::opt_view(home)),
{
    let v = crate::text::chars_of(p);
    if v.len() >= 2 && v[0] == '~' && v[1] == '/' {
        match home {
            Some(h) => {
                let rest = crate::path::slice_chars(&v, 2, v.len());
                let rest_s = crate::text::string_of(&rest);
                proof {
                    assert(rest@ =~= p@.skip(2));
                }
                join(h.as_str(), rest_s.as_str())
            },
            None => owned(p),
        }
    } else {
        owned(p)
    }
}

/// Expand a leading `~/` to the real home directory.
pub fn expand_tilde(p: &str) -> (r: String)
    ensures
        exists|h: Option<Seq<char>>| r@ == expand_tilde_spec(p@, h),
{
    let h = os_home_dir();
    let r = expand_tilde_with(p, h);
    proof {
        assert(r@ == expand_tilde_spec(p@, crate::library::opt_view(h)));
    }
    r
}

} // verus!
