use pipeline::serve::{content_type_for, export_dir, open_is_busy, parse_action, DecisionAction, JobState, PhotoQuery};

#[test]
fn one_job_at_a_time() {
    let mut job = JobState::default();
    assert!(!job.running());
    assert!(job.try_begin("analyze", "scanning", "/photos", "starting…"));
    assert!(job.running());
    assert_eq!((job.kind.as_str(), job.stage.as_str(), job.folder.as_str()), ("analyze", "scanning", "/photos"));
    // a second job is refused and changes nothing
    assert!(!job.try_begin("finish", "developing", "/other", "x"));
    assert_eq!((job.kind.as_str(), job.folder.as_str()), ("analyze", "/photos"));
    job.enter_stage("scoring quality");
    assert_eq!(job.message, "scoring quality…");
    job.set_total(3);
    job.inc();
    assert_eq!((job.files_done, job.files_total), (1, 3));
    assert!(job.running());
    job.complete();
    assert!(!job.running());
    assert!(job.try_begin("finish", "developing", "/other", "x"));
    job.fail("boom");
    assert!(!job.running());
    assert_eq!(job.error.as_deref(), Some("boom"));
}

#[test]
fn decisions_parse_from_their_names() {
    assert_eq!(parse_action("keep"), Some(DecisionAction::Keep));
    assert_eq!(parse_action("reject"), Some(DecisionAction::Reject));
    assert_eq!(parse_action("undecide"), Some(DecisionAction::Undecide));
    assert_eq!(parse_action("keeper"), Some(DecisionAction::Keeper));
    assert_eq!(parse_action("Keep"), None);
    assert_eq!(parse_action(""), None);
}

#[test]
fn assets_get_their_content_type() {
    assert_eq!(content_type_for("app.js"), "text/javascript; charset=utf-8");
    assert_eq!(content_type_for("style.css"), "text/css; charset=utf-8");
    assert_eq!(content_type_for("index.html"), "text/html; charset=utf-8");
    assert_eq!(content_type_for("font.woff2"), "application/octet-stream");
    assert_eq!(content_type_for("js"), "text/javascript; charset=utf-8");
    assert_eq!(content_type_for("a.min.js"), "text/javascript; charset=utf-8");
    assert_eq!(content_type_for("noext."), "application/octet-stream");
}

#[test]
fn photo_page_defaults() {
    let q = PhotoQuery { flag_type: None, decided: None, limit: None, offset: None };
    assert_eq!(q.page(), (200, 0));
    let q = PhotoQuery { flag_type: Some("blur".into()), decided: Some(true), limit: Some(10), offset: Some(30) };
    assert_eq!(q.page(), (10, 30));
}

#[test]
fn export_defaults_to_keepers_dir() {
    assert_eq!(export_dir(&None), "_keepers");
    assert_eq!(export_dir(&Some("/out/x".into())), "/out/x");
}

#[test]
fn opening_the_library_a_job_holds_is_busy() {
    let mut job = JobState::default();
    assert!(!open_is_busy(&job, "k1", "k1"));
    job.try_begin("analyze", "scanning", "/p", "starting…");
    assert!(open_is_busy(&job, "k1", "k1"));
    assert!(!open_is_busy(&job, "k1", "k2"));
}
