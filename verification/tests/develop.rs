use pipeline::config::{DevelopConfig, OutputSubdirs};
use pipeline::develop::{
    pp3_beside, adopt_unmarked_tree, plan_orphans, FinishOutcome, FinishReport, version_banner,
    already_finished, build_args, is_raw_format, is_up_to_date, output_path_for, render_paths,
    look_identity, reuses_measurement, sweep_action, EditIdentity, KeeperToDevelop, Pp3Renderer, RecordedEdit, SweepAction,
};
use pipeline::names::DirNames;
use pipeline::output::{DiskView, FileStamp};

fn keeper(file_id: i64, path: &str, year_month: &str) -> KeeperToDevelop {
    KeeperToDevelop {
        file_id,
        path: path.to_string(),
        content_hash: format!("hash-{file_id}"),
        year_month: year_month.into(),
        file_format: "arw".into(),
    }
}

fn cfg_with(path: &str) -> DevelopConfig {
    DevelopConfig { rawtherapee_path: path.into(), ..Default::default() }
}

const OUT: &str = "/tmp/finish/a.jpg";

/// The file system holding `OUT` at `len` bytes, or not holding it.
fn disk_with(len: Option<u64>) -> DiskView {
    let mut stamps = Vec::new();
    if let Some(len) = len {
        stamps.push((OUT.to_string(), FileStamp { len, modified: None }));
    }
    DiskView { stamps }
}

fn identity(recipe_hash: &str) -> EditIdentity {
    EditIdentity {
        content_hash: "hash-a".into(),
        recipe_hash: recipe_hash.into(),
        decider_version: "decide-3".into(),
        renderer: "rawtherapee".into(),
        look_model: None,
        look_version: None,
    }
}

#[test]
fn is_raw_format_accepts_raws_and_rejects_jpg() {
    assert!(is_raw_format("arw"));
    assert!(is_raw_format("ARW"));
    assert!(is_raw_format("dng"));
    assert!(!is_raw_format("jpg"));
    assert!(!is_raw_format("jpeg"));
    assert!(!is_raw_format("bogus"));
}

#[test]
fn same_stem_same_month_produces_distinct_output_paths() {
    let cfg = DevelopConfig::default();
    let out = "/out";
    let a = keeper(1, "/cardA/subdir/DSC001.arw", "2024-05");
    let b = keeper(2, "/cardB/otherdir/DSC001.arw", "2024-05");

    let mut taken = DirNames::new();
    let path_a = output_path_for(&cfg, out, &a, &mut taken);
    let path_b = output_path_for(&cfg, out, &b, &mut taken);

    assert_ne!(path_a, path_b, "colliding stems must not overwrite each other");
    assert_eq!(path_a, "/out/2024-05/DSC001.jpg");
    assert_eq!(path_b, "/out/2024-05/DSC001 (2).jpg");
}

#[test]
fn output_path_assignment_is_deterministic_across_runs() {
    let cfg = DevelopConfig::default();
    let out = "/out";
    let items = vec![
        keeper(1, "/cardA/DSC001.arw", "2024-05"),
        keeper(2, "/cardB/DSC001.arw", "2024-05"),
        keeper(3, "/cardC/DSC002.arw", "2024-05"),
        keeper(4, "/cardA/DSC001.arw", "2024-06"),
    ];

    let assign = |items: &[KeeperToDevelop]| -> Vec<String> {
        let mut taken = DirNames::new();
        items.iter().map(|item| output_path_for(&cfg, out, item, &mut taken)).collect()
    };

    let first_run = assign(&items);
    let second_run = assign(&items);
    assert_eq!(first_run, second_run, "the same ordered input must assign identical output paths every run");
}

#[test]
fn flat_output_shares_one_directory_across_months() {
    let cfg = DevelopConfig { output_subdirs: OutputSubdirs::Flat, ..Default::default() };
    let mut taken = DirNames::new();
    let a = output_path_for(&cfg, "/out", &keeper(1, "/a/DSC001.arw", "2024-05"), &mut taken);
    let b = output_path_for(&cfg, "/out", &keeper(2, "/b/DSC001.arw", "2024-06"), &mut taken);
    let c = output_path_for(&cfg, "/out/", &keeper(3, "/c/DSC001.arw", "2024-07"), &mut taken);
    let d = output_path_for(&cfg, "/out", &keeper(4, "/d/noext", "2024-07"), &mut taken);
    assert_eq!(a, "/out/DSC001.jpg");
    assert_eq!(b, "/out/DSC001 (2).jpg");
    // the same directory spelled with a trailing slash shares the names
    assert_eq!(c, "/out/DSC001 (3).jpg");
    assert_eq!(d, "/out/noext.jpg");
}

#[test]
fn empty_path_falls_back_to_bare_name() {
    let r = Pp3Renderer::new(&cfg_with(""));
    assert_eq!(r.exe, "rawtherapee-cli");
}

#[test]
fn configured_path_is_used_verbatim() {
    let r = Pp3Renderer::new(&cfg_with("/opt/rt/rawtherapee-cli"));
    assert_eq!(r.exe, "/opt/rt/rawtherapee-cli");
    assert_eq!(r.exe_path(), "/opt/rt/rawtherapee-cli");
}

#[test]
fn arguments_are_ordered_base_then_photo_then_input() {
    let strs = build_args("/tmp/base.pp3", "/tmp/photo.pp3", "/tmp/out", "/photos/a.arw");
    assert_eq!(strs.last().unwrap(), "/photos/a.arw");
    assert_eq!(strs[strs.len() - 2], "-c");

    let base_at = strs.iter().position(|s| s == "/tmp/base.pp3").unwrap();
    let photo_at = strs.iter().position(|s| s == "/tmp/photo.pp3").unwrap();
    assert!(base_at < photo_at, "base profile must be applied first");

    assert!(strs.contains(&"-Y".to_string()));
    assert!(strs.contains(&"-t".to_string()));
    assert!(strs.contains(&"-b16".to_string()));
    assert!(!strs.contains(&"-d".to_string()));
}

#[test]
fn render_paths_stay_in_the_scratch_directory() {
    let p = render_paths("/photos/DSC_0042.ARW", "/tmp/run");
    assert_eq!(p.base_pp3, "/tmp/run/base.pp3");
    assert_eq!(p.photo_pp3, "/tmp/run/DSC_0042.pp3");
    assert_eq!(p.tiff, "/tmp/run/DSC_0042.tif");
    let q = render_paths("/", "/tmp/run");
    assert_eq!(q.photo_pp3, "/tmp/run/photo.pp3");
}

#[test]
fn identical_identity_with_present_output_is_up_to_date() {
    assert!(is_up_to_date(&identity("r1"), &identity("r1"), Some(OUT), Some(100), &disk_with(Some(100))));
}

#[test]
fn each_identity_component_forces_a_rerender() {
    let out_s = OUT.to_string();
    let disk = disk_with(Some(100));
    let base = identity("r1");

    assert!(
        is_up_to_date(&base, &base.clone(), Some(&out_s), Some(100), &disk),
        "an unmodified identity with the output present at the recorded size must be up to date"
    );

    let mut recipe_changed = base.clone();
    recipe_changed.recipe_hash = "r2".into();
    assert!(!is_up_to_date(&base, &recipe_changed, Some(&out_s), Some(100), &disk));

    let mut decider_changed = base.clone();
    decider_changed.decider_version = "some-other-decider".into();
    assert!(!is_up_to_date(&base, &decider_changed, Some(&out_s), Some(100), &disk));

    let mut content_changed = base.clone();
    content_changed.content_hash = "hash-b".into();
    assert!(!is_up_to_date(&base, &content_changed, Some(&out_s), Some(100), &disk));

    let mut renderer_changed = base.clone();
    renderer_changed.renderer = "vkdt".into();
    assert!(!is_up_to_date(&base, &renderer_changed, Some(&out_s), Some(100), &disk));

    let mut look_model_changed = base.clone();
    look_model_changed.look_model = Some("lut3d-fivek".into());
    assert!(!is_up_to_date(&base, &look_model_changed, Some(&out_s), Some(100), &disk));

    let mut look_version_changed = base.clone();
    look_version_changed.look_version = Some("2".into());
    assert!(!is_up_to_date(&base, &look_version_changed, Some(&out_s), Some(100), &disk));

    let mut from = base.clone();
    from.look_model = Some("lut3d-fivek".into());
    from.look_version = Some("1".into());

    let mut to_other_model = from.clone();
    to_other_model.look_model = Some("lut3d-own".into());
    assert!(!is_up_to_date(&from, &to_other_model, Some(&out_s), Some(100), &disk));

    let mut to_other_version = from.clone();
    to_other_version.look_version = Some("2".into());
    assert!(!is_up_to_date(&from, &to_other_version, Some(&out_s), Some(100), &disk));
}

#[test]
fn missing_or_resized_output_forces_a_rerender() {
    assert!(!is_up_to_date(&identity("r1"), &identity("r1"), Some(OUT), Some(100), &disk_with(None)));

    assert!(!is_up_to_date(&identity("r1"), &identity("r1"), Some(OUT), Some(100), &disk_with(Some(50))));

    assert!(!is_up_to_date(&identity("r1"), &identity("r1"), None, None, &disk_with(Some(50))));
}

#[test]
fn negative_recorded_size_never_matches_a_real_file() {
    let disk = DiskView { stamps: vec![("/o/a.jpg".to_string(), FileStamp { len: 100, modified: None })] };
    assert!(!is_up_to_date(&identity("r"), &identity("r"), Some("/o/a.jpg"), Some(-100), &disk));
    let huge = DiskView { stamps: vec![("/o/a.jpg".to_string(), FileStamp { len: u64::MAX, modified: None })] };
    assert!(is_up_to_date(&identity("r"), &identity("r"), Some("/o/a.jpg"), Some(-1), &huge));
}

#[test]
fn a_render_recorded_elsewhere_is_not_finished_here() {
    let disk = DiskView { stamps: vec![("/old/2024-05/a.jpg".to_string(), FileStamp { len: 10, modified: None })] };
    let rec = Some(RecordedEdit {
        identity: identity("r1"),
        output_path: Some("/old/2024-05/a.jpg".to_string()),
        output_size: Some(10),
    });
    assert!(already_finished(&rec, &identity("r1"), "/old/2024-05/a.jpg", &disk));
    // the same path spelled differently is still the same place
    assert!(already_finished(&rec, &identity("r1"), "/old//2024-05/./a.jpg", &disk));
    assert!(!already_finished(&rec, &identity("r1"), "/new/2024-05/a.jpg", &disk));
    assert!(!already_finished(&rec, &identity("r2"), "/old/2024-05/a.jpg", &disk));
    assert!(!already_finished(&None, &identity("r1"), "/old/2024-05/a.jpg", &disk));
}

#[test]
fn the_profile_sits_beside_the_jpeg() {
    assert_eq!(pp3_beside("/out/2024-05/DSC001.jpg"), "/out/2024-05/DSC001.pp3");
    assert_eq!(pp3_beside("/out/DSC001 (2).jpg"), "/out/DSC001 (2).pp3");
    assert_eq!(pp3_beside("/out/noext"), "/out/noext.pp3");
    assert_eq!(pp3_beside("/out/.hidden"), "/out/.hidden.pp3");
    assert_eq!(pp3_beside("/out/a.b.jpg/"), "/out/a.b.pp3");
    assert_eq!(pp3_beside("/"), "/");
}

#[test]
fn an_unmarked_tree_is_adopted_only_when_ours() {
    let recorded = vec!["/elsewhere/a.jpg".to_string(), "/out/2024-05/b.jpg".to_string()];
    assert!(adopt_unmarked_tree(true, false, &[], "/out"));
    assert!(adopt_unmarked_tree(false, true, &[], "/out"));
    assert!(adopt_unmarked_tree(false, false, &recorded, "/out/"));
    assert!(!adopt_unmarked_tree(false, false, &recorded, "/ou"));
    assert!(!adopt_unmarked_tree(false, false, &recorded[..1], "/out"));
}

#[test]
fn orphans_lose_their_files_unless_just_written() {
    let orphans = vec![
        (1, Some("/out/2024-05/a.jpg".to_string())),
        (2, None),
        (3, Some("/out/2024-05/b.jpg".to_string())),
    ];
    let expected = vec!["/out//2024-05/b.jpg".to_string()];
    let plan = plan_orphans(&orphans, &expected);
    assert_eq!(plan.victims, vec!["/out/2024-05/a.jpg", "/out/2024-05/a.pp3"]);
    assert_eq!(plan.forget, vec![1, 2, 3]);
}

#[test]
fn finish_counts_each_keeper_once() {
    let mut r = FinishReport::default();
    for o in [FinishOutcome::Rendered, FinishOutcome::Skipped, FinishOutcome::Unsupported, FinishOutcome::Errored, FinishOutcome::Rendered] {
        r.count(o);
    }
    assert_eq!((r.rendered, r.skipped, r.skipped_unsupported, r.errored, r.pruned), (2, 1, 1, 1, 0));
}

#[test]
fn the_banner_is_the_first_line_naming_rawtherapee() {
    assert_eq!(version_banner("RawTherapee, version 5.13, command line.\n", ""), Some("RawTherapee, version 5.13, command line.".to_string()));
    assert_eq!(version_banner("usage\n", "  RawTherapee 5.12\r\nmore RawTherapee\n"), Some("RawTherapee 5.12".to_string()));
    assert_eq!(version_banner("true\n", ""), None);
    assert_eq!(version_banner("", ""), None);
    assert_eq!(version_banner("a\nRawTherape\n", "x"), None);
}

#[test]
fn the_sweep_keeps_the_marker_and_expected_outputs_and_removes_the_rest() {
    let expected = vec!["/out/2023-06/a.jpg".to_string(), "/out/2023-06/a.pp3".to_string()];
    assert_eq!(sweep_action("/out", "/out/.photopipe-tree", false, &expected), SweepAction::Keep);
    assert_eq!(sweep_action("/out/", "/out/.photopipe-tree", false, &expected), SweepAction::Keep);
    assert_eq!(sweep_action("/out", "/out/2023-06", true, &expected), SweepAction::Descend);
    assert_eq!(sweep_action("/out", "/out/2023-06/a.jpg", false, &expected), SweepAction::Keep);
    assert_eq!(sweep_action("/out", "/out//2023-06/a.pp3", false, &expected), SweepAction::Keep);
    assert_eq!(sweep_action("/out", "/out/2023-06/b.jpg", false, &expected), SweepAction::Remove);
    assert_eq!(sweep_action("/out", "/out/2023-06/.photopipe-tree", false, &expected), SweepAction::Remove);
}

#[test]
fn changed_content_is_measured_afresh() {
    let rec = Some(RecordedEdit {
        identity: identity("r1"),
        output_path: Some("/out/2024-05/a.jpg".to_string()),
        output_size: Some(10),
    });
    assert!(reuses_measurement(&rec, "hash-a"));
    assert!(!reuses_measurement(&rec, "hash-b"));
    assert!(!reuses_measurement(&None, "hash-a"));
}

#[test]
fn the_look_identity_names_the_loaded_model_only_when_enabled() {
    let loaded = Some(("lut3d".to_string(), "v2".to_string()));
    assert_eq!(look_identity(true, &loaded), Some(("lut3d".to_string(), "v2".to_string())));
    assert_eq!(look_identity(false, &loaded), None);
    assert_eq!(look_identity(true, &None), None);
}

#[test]
fn finish_counts_add_up_to_the_keepers() {
    let outcomes = [
        FinishOutcome::Rendered,
        FinishOutcome::Skipped,
        FinishOutcome::Unsupported,
        FinishOutcome::Rendered,
        FinishOutcome::Errored,
    ];
    let r = FinishReport::tally(&outcomes);
    assert_eq!((r.rendered, r.skipped, r.skipped_unsupported, r.errored, r.pruned), (2, 1, 1, 1, 0));
    assert_eq!(r.rendered + r.skipped + r.skipped_unsupported + r.errored, outcomes.len() as u64);
}
