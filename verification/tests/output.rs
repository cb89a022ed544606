use pipeline::humanize::humanize_bytes;
use pipeline::names::TakenNames;
use pipeline::output::{
    category_of, copy_steps, prune_action, estimate_copy, estimate_keepers_copy, estimate_review_copy, keepers_plan, needs_copy,
    plan_links, resolve_dests, review_group_count, review_readme_body, safe_to_write, substitute_library,
    tree_removal, CopyOutcome, CopyReport, DiskView, FileStamp, KeeperFile, PlannedLink, ReviewEntry, ReviewGroup,
    CopyStep, TreeRemoval,
};
use pipeline::develop::SweepAction;

fn entry(file_id: i64, path: &str, flag_type: &str, confidence: f32, year_month: &str) -> ReviewEntry {
    ReviewEntry {
        file_id,
        path: path.to_string(),
        flag_type: flag_type.to_string(),
        confidence_bits: confidence.to_bits(),
        year_month: year_month.to_string(),
    }
}

fn stamp(len: u64, modified: i128) -> FileStamp {
    FileStamp { len, modified: Some(modified) }
}

#[test]
fn humanize_bytes_formats() {
    assert_eq!(humanize_bytes(0), "0 B");
    assert_eq!(humanize_bytes(512), "512 B");
    assert_eq!(humanize_bytes(1024), "1.0 KB");
    assert_eq!(humanize_bytes(1536), "1.5 KB");
    assert_eq!(humanize_bytes(5 * 1024 * 1024), "5.0 MB");
}

#[test]
fn humanize_bytes_rounds_like_the_formatter() {
    assert_eq!(humanize_bytes(1023), "1023 B");
    assert_eq!(humanize_bytes(1075), "1.0 KB"); // 1.0498… rounds down
    assert_eq!(humanize_bytes(1076), "1.1 KB");
    assert_eq!(humanize_bytes(1024 * 1024 - 1), "1024.0 KB");
    assert_eq!(humanize_bytes(3 * 1024 * 1024 * 1024), "3.0 GB");
    assert_eq!(humanize_bytes(2 * 1024 * 1024 * 1024 * 1024), "2.0 TB");
    assert_eq!(humanize_bytes(u64::MAX), "16777216.0 TB");
}

#[test]
fn substitute_library_replaces_token() {
    let p = substitute_library("<library>/_review", "/photos/2023");
    assert_eq!(p, "/photos/2023/_review");
    let q = substitute_library("/fixed/out", "/photos/2023");
    assert_eq!(q, "/fixed/out");
}

#[test]
fn category_mapping() {
    assert_eq!(category_of("blur", 0.8f32.to_bits()), Some(("rejected", "blur")));
    assert_eq!(category_of("low_iqa", 0.9f32.to_bits()), Some(("rejected", "low_quality")));
    assert_eq!(category_of("overexposed", 0.7f32.to_bits()), Some(("rejected", "overexposed")));
    assert_eq!(category_of("blur", 0.4f32.to_bits()), Some(("uncertain", "")));
    assert_eq!(category_of("low_iqa", 0.59f32.to_bits()), Some(("uncertain", "")));
    assert_eq!(category_of("nonsense", 0.9f32.to_bits()), None);
}

#[test]
fn confidence_threshold_matches_float_comparison() {
    for c in [0.0f32, 0.5, 0.59999996, 0.6, 0.6000001, 1.0, 7.5, f32::INFINITY, -0.0, -1.0, f32::NAN] {
        let expected = if c >= 0.6 { Some(("rejected", "back_focus")) } else { Some(("uncertain", "")) };
        assert_eq!(category_of("back_focus", c.to_bits()), expected, "confidence {c}");
    }
}

#[test]
fn plan_links_buckets_correctly() {
    let entries = vec![
        entry(1, "/lib/a.jpg", "blur", 0.8, "2023-06"),
        entry(2, "/lib/b.jpg", "low_iqa", 0.9, "2023-06"),
        entry(3, "/lib/c.jpg", "blur", 0.4, "unknown-date"),
    ];
    let groups = vec![ReviewGroup {
        group_id: 42,
        date: "2023-06-15".into(),
        keeper: Some("/lib/k.jpg".to_string()),
        others: vec!["/lib/o1.jpg".to_string(), "/lib/o2.jpg".to_string()],
    }];
    let links = plan_links(&entries, &groups, &[]);
    let dirs: Vec<String> = links.iter().map(|l| l.rel_dir.clone()).collect();
    assert!(dirs.contains(&"rejected/blur/2023-06".to_string()));
    assert!(dirs.contains(&"rejected/low_quality/2023-06".to_string()));
    assert!(dirs.contains(&"uncertain/unknown-date".to_string()));
    assert!(dirs.contains(&"duplicates/group_00042_2023-06-15/_keeper".to_string()));
    assert!(dirs.iter().filter(|d| **d == "duplicates/group_00042_2023-06-15/_others").count() == 2);
}

#[test]
fn plan_links_include_filter() {
    let entries = vec![entry(1, "/lib/a.jpg", "blur", 0.8, "2023-06")];
    let groups = vec![ReviewGroup {
        group_id: 1,
        date: "2023-06-15".into(),
        keeper: Some("/lib/k.jpg".to_string()),
        others: vec![],
    }];
    let links = plan_links(&entries, &groups, &["duplicates".to_string()]);
    assert!(links.iter().all(|l| l.rel_dir.starts_with("duplicates")));
    assert!(!links.is_empty());
}

#[test]
fn plan_links_keeps_order_and_negative_group_ids() {
    let entries = vec![entry(1, "/lib/a.jpg", "nonsense", 0.9, "2023-06"), entry(2, "/lib/b.jpg", "underexposed", 0.6, "2020-01")];
    let groups = vec![ReviewGroup { group_id: -7, date: "d".into(), keeper: None, others: vec!["/x/o.jpg".to_string()] }];
    let links = plan_links(&entries, &groups, &["rejected".to_string(), "duplicates".to_string()]);
    let got: Vec<(String, String)> = links.iter().map(|l| (l.rel_dir.clone(), l.original.clone())).collect();
    assert_eq!(
        got,
        vec![
            ("rejected/underexposed/2020-01".to_string(), "/lib/b.jpg".to_string()),
            ("duplicates/group_-0007_d/_others".to_string(), "/x/o.jpg".to_string()),
        ]
    );
    assert_eq!(review_group_count(&groups, &["rejected".to_string()]), 0);
    assert_eq!(review_group_count(&groups, &[]), 1);
}

#[test]
fn dedupe_name_suffixes_collisions() {
    let mut taken = TakenNames::new();
    assert_eq!(taken.dedupe_name("IMG_1.ARW"), "IMG_1.ARW");
    assert_eq!(taken.dedupe_name("IMG_1.ARW"), "IMG_1 (2).ARW");
    assert_eq!(taken.dedupe_name("IMG_1.ARW"), "IMG_1 (3).ARW");
    assert_eq!(taken.dedupe_name("noext"), "noext");
    assert_eq!(taken.dedupe_name("noext"), "noext (2)");
}

#[test]
fn dedupe_name_skips_names_already_taken_literally() {
    let mut taken = TakenNames::new();
    assert_eq!(taken.dedupe_name("a (2).jpg"), "a (2).jpg");
    assert_eq!(taken.dedupe_name("a.jpg"), "a.jpg");
    assert_eq!(taken.dedupe_name("a.jpg"), "a (3).jpg");
    assert_eq!(taken.dedupe_name(".hidden"), ".hidden");
    assert_eq!(taken.dedupe_name(".hidden"), ".hidden (2)");
    assert!(taken.contains("a (3).jpg"));
    assert!(!taken.contains("a (4).jpg"));
}

#[test]
fn resolve_dests_never_collides_within_a_directory() {
    let planned = vec![
        PlannedLink { rel_dir: "rejected/blur/2023-06".into(), original: "/a/IMG.jpg".into() },
        PlannedLink { rel_dir: "rejected/blur/2023-06/".into(), original: "/b/IMG.jpg".into() },
        PlannedLink { rel_dir: "rejected/blur/2023-07".into(), original: "/c/IMG.jpg".into() },
        PlannedLink { rel_dir: "uncertain/x".into(), original: "/".into() },
    ];
    let out = resolve_dests("/out", &planned);
    assert_eq!(
        out,
        vec![
            ("/out/rejected/blur/2023-06/IMG.jpg".to_string(), "/a/IMG.jpg".to_string()),
            ("/out/rejected/blur/2023-06/IMG (2).jpg".to_string(), "/b/IMG.jpg".to_string()),
            ("/out/rejected/blur/2023-07/IMG.jpg".to_string(), "/c/IMG.jpg".to_string()),
            ("/out/uncertain/x/unnamed".to_string(), "/".to_string()),
        ]
    );
}

#[test]
fn keepers_go_under_their_capture_month() {
    let links = keepers_plan(vec![
        KeeperFile { path: "/p/a.jpg".into(), year_month: "2024-01".into() },
        KeeperFile { path: "/q/a.jpg".into(), year_month: "unknown-date".into() },
    ]);
    let got: Vec<(String, String)> = links.iter().map(|l| (l.rel_dir.clone(), l.original.clone())).collect();
    assert_eq!(
        got,
        vec![("2024-01".to_string(), "/p/a.jpg".to_string()), ("unknown-date".to_string(), "/q/a.jpg".to_string())]
    );
}

#[test]
fn needs_copy_compares_size_then_time() {
    assert!(needs_copy(&None, &Some(stamp(1, 1))));
    assert!(needs_copy(&Some(stamp(1, 1)), &None));
    assert!(needs_copy(&Some(stamp(1, 5)), &Some(stamp(2, 1))));
    assert!(needs_copy(&Some(stamp(1, 5)), &Some(stamp(1, 6))));
    assert!(!needs_copy(&Some(stamp(1, 5)), &Some(stamp(1, 5))));
    assert!(!needs_copy(&Some(stamp(1, 5)), &Some(stamp(1, 4))));
    assert!(!needs_copy(&Some(FileStamp { len: 3, modified: None }), &Some(stamp(3, 9))));
}

#[test]
fn estimates_count_only_what_would_be_written() {
    let entries = vec![
        entry(1, "/lib/a.jpg", "blur", 0.8, "2023-06"),
        entry(2, "/lib/b.jpg", "blur", 0.8, "2023-06"),
        entry(3, "/lib/gone.jpg", "blur", 0.8, "2023-06"),
    ];
    let disk = DiskView {
        stamps: vec![
            ("/lib/a.jpg".to_string(), stamp(100, 10)),
            ("/lib/b.jpg".to_string(), stamp(200, 10)),
            // b's copy is already current
            ("/out/rejected/blur/2023-06/b.jpg".to_string(), stamp(200, 20)),
        ],
    };
    let est = estimate_review_copy(&entries, &[], "/out", &[], &disk);
    assert_eq!((est.files, est.bytes), (1, 100));

    let keepers = vec![KeeperFile { path: "/lib/a.jpg".into(), year_month: "2023-06".into() }];
    let est = estimate_keepers_copy(keepers, "/k", &disk);
    assert_eq!((est.files, est.bytes), (1, 100));

    let pairs = vec![("/d".to_string(), "/lib/a.jpg".to_string()), ("/e".to_string(), "/lib/b.jpg".to_string())];
    let est = estimate_copy(&pairs, &disk);
    assert_eq!((est.files, est.bytes), (2, 300));
}

#[test]
fn a_second_pass_over_a_tree_in_step_copies_nothing() {
    let pairs = vec![
        ("/out/a.jpg".to_string(), "/lib/a.jpg".to_string()),
        ("/out/b.jpg".to_string(), "/lib/b.jpg".to_string()),
        ("/out/gone.jpg".to_string(), "/lib/gone.jpg".to_string()),
    ];
    let before = DiskView {
        stamps: vec![("/lib/a.jpg".to_string(), stamp(100, 10)), ("/lib/b.jpg".to_string(), stamp(200, 10))],
    };
    let first = estimate_copy(&pairs, &before);
    assert_eq!((first.files, first.bytes), (2, 300));
    let after = DiskView {
        stamps: vec![
            ("/lib/a.jpg".to_string(), stamp(100, 10)),
            ("/lib/b.jpg".to_string(), stamp(200, 10)),
            ("/out/a.jpg".to_string(), stamp(100, 30)),
            ("/out/b.jpg".to_string(), FileStamp { len: 200, modified: None }),
        ],
    };
    let second = estimate_copy(&pairs, &after);
    assert_eq!((second.files, second.bytes), (0, 0));
}

#[test]
fn copy_report_counts_each_outcome() {
    let mut r = CopyReport::new();
    r.record(Some(CopyOutcome::Copied(10)));
    r.record(Some(CopyOutcome::Copied(5)));
    r.record(Some(CopyOutcome::Skipped));
    r.record(None);
    r.record_removal(true);
    r.record_removal(false);
    assert_eq!((r.copied, r.skipped, r.removed, r.bytes, r.errors), (2, 1, 1, 15, 2));
}

#[test]
fn only_managed_or_empty_trees_are_touched() {
    assert!(safe_to_write(false, false, false));
    assert!(safe_to_write(true, true, false));
    assert!(safe_to_write(true, false, true));
    assert!(!safe_to_write(true, false, false));
    assert!(matches!(tree_removal(false, false, false), TreeRemoval::Absent));
    assert!(matches!(tree_removal(true, false, false), TreeRemoval::Refuse));
    assert!(matches!(tree_removal(true, true, false), TreeRemoval::Remove));
    assert!(matches!(tree_removal(true, false, true), TreeRemoval::Remove));
}

#[test]
fn review_readme_names_the_catalog() {
    let body = review_readme_body("the photopipe catalog");
    assert!(body.starts_with("PhotoPipe Review Tree\n"));
    assert!(body.contains("the catalog at the photopipe catalog is the source of truth."));
}

#[test]
fn a_build_copies_what_the_estimate_announced_and_a_second_build_nothing() {
    let pairs = vec![
        ("/out/a.jpg".to_string(), "/lib/a.jpg".to_string()),
        ("/out/b.jpg".to_string(), "/lib/b.jpg".to_string()),
        ("/out/c.jpg".to_string(), "/lib/c.jpg".to_string()),
        ("/out/gone.jpg".to_string(), "/lib/gone.jpg".to_string()),
    ];
    let before = DiskView {
        stamps: vec![
            ("/lib/a.jpg".to_string(), stamp(100, 10)),
            ("/lib/b.jpg".to_string(), stamp(200, 10)),
            ("/lib/c.jpg".to_string(), stamp(300, 10)),
            ("/out/c.jpg".to_string(), stamp(300, 50)),
        ],
    };
    let steps = copy_steps(&pairs, &before);
    assert_eq!(steps, vec![CopyStep::Copy(100), CopyStep::Copy(200), CopyStep::Skip, CopyStep::Missing]);
    let est = estimate_copy(&pairs, &before);
    assert_eq!((est.files, est.bytes), (2, 300));

    let after = DiskView {
        stamps: vec![
            ("/lib/a.jpg".to_string(), stamp(100, 10)),
            ("/lib/b.jpg".to_string(), stamp(200, 10)),
            ("/lib/c.jpg".to_string(), stamp(300, 10)),
            ("/out/a.jpg".to_string(), stamp(100, 60)),
            ("/out/b.jpg".to_string(), stamp(200, 60)),
            ("/out/c.jpg".to_string(), stamp(300, 50)),
        ],
    };
    assert_eq!(copy_steps(&pairs, &after), vec![CopyStep::Skip, CopyStep::Skip, CopyStep::Skip, CopyStep::Missing]);
    let est = estimate_copy(&pairs, &after);
    assert_eq!((est.files, est.bytes), (0, 0));
}

#[test]
fn reconciling_a_tree_keeps_its_marker_readme_and_planned_copies() {
    let expected = vec!["/out/2023-06/a.jpg".to_string()];
    assert_eq!(prune_action("/out", "/out/.photopipe-tree", false, &expected), SweepAction::Keep);
    assert_eq!(prune_action("/out", "/out/README.txt", false, &expected), SweepAction::Keep);
    assert_eq!(prune_action("/out", "/out/2023-06", true, &expected), SweepAction::Descend);
    assert_eq!(prune_action("/out", "/out/2023-06/a.jpg", false, &expected), SweepAction::Keep);
    assert_eq!(prune_action("/out", "/out/2023-06/b.jpg", false, &expected), SweepAction::Remove);
    assert_eq!(prune_action("/out", "/out/2023-06/README.txt", false, &expected), SweepAction::Remove);
}
