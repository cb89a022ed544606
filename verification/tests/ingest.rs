use pipeline::config::SidecarJpgMode;
use pipeline::ingest::{
    backfill_dimensions, extension_accepted, preview_source, sidecar_names, FileFormat, FileOutcome, IngestReport, PreviewSource,
};

#[test]
fn file_format_from_ext() {
    assert_eq!(FileFormat::from_ext("arw"), Some(FileFormat::Arw));
    assert_eq!(FileFormat::from_ext("ARW"), Some(FileFormat::Arw));
    assert_eq!(FileFormat::from_ext("JPEG"), Some(FileFormat::Jpg));
    assert_eq!(FileFormat::from_ext("xyz"), None);
}

#[test]
fn every_format_reads_back_from_its_name() {
    for f in [
        FileFormat::Arw,
        FileFormat::Cr3,
        FileFormat::Cr2,
        FileFormat::Nef,
        FileFormat::Raf,
        FileFormat::Rw2,
        FileFormat::Dng,
        FileFormat::Jpg,
    ] {
        assert_eq!(FileFormat::from_ext(f.as_str()), Some(f));
        assert_eq!(f.is_raw(), f != FileFormat::Jpg);
    }
    assert_eq!(FileFormat::from_ext("Rw2"), Some(FileFormat::Rw2));
    assert_eq!(FileFormat::from_ext(""), None);
    assert_eq!(FileFormat::from_ext("jp"), None);
}

#[test]
fn extensions_match_ignoring_ascii_case() {
    let exts: Vec<String> = vec!["arw".into(), "jpg".into()];
    assert!(extension_accepted(&exts, "ARW"));
    assert!(extension_accepted(&exts, "Jpg"));
    assert!(!extension_accepted(&exts, "jpeg"));
    assert!(!extension_accepted(&exts, ""));
    assert!(!extension_accepted(&[], "arw"));
}

#[test]
fn sidecars_are_looked_for_in_a_fixed_order() {
    assert_eq!(sidecar_names("IMG_001"), vec!["IMG_001.jpg", "IMG_001.jpeg", "IMG_001.JPG", "IMG_001.JPEG"]);
}

#[test]
fn preview_comes_from_the_sidecar_only_when_preferred() {
    assert_eq!(preview_source(true, SidecarJpgMode::Prefer, FileFormat::Arw), PreviewSource::Sidecar);
    assert_eq!(preview_source(true, SidecarJpgMode::Ignore, FileFormat::Arw), PreviewSource::Raw);
    assert_eq!(preview_source(false, SidecarJpgMode::Prefer, FileFormat::Nef), PreviewSource::Raw);
    assert_eq!(preview_source(false, SidecarJpgMode::Require, FileFormat::Jpg), PreviewSource::Jpeg);
}

#[test]
fn a_failed_batch_moves_its_files_to_errored() {
    let mut r = IngestReport::default();
    for o in [FileOutcome::Processed, FileOutcome::Processed, FileOutcome::Processed, FileOutcome::Skipped, FileOutcome::Errored] {
        r.count(o);
    }
    assert_eq!((r.processed, r.skipped, r.errored), (3, 1, 1));
    r.count_failed_batch(2);
    assert_eq!((r.processed, r.skipped, r.errored), (1, 1, 3));
}

#[test]
fn missing_exif_dimensions_come_from_the_preview() {
    assert_eq!(backfill_dimensions(None, None, 1024, 683), (Some(1024), Some(683)));
    assert_eq!(backfill_dimensions(Some(6000), None, 1024, 683), (Some(6000), Some(683)));
    assert_eq!(backfill_dimensions(Some(6000), Some(4000), 1024, 683), (Some(6000), Some(4000)));
}

#[test]
fn ingest_counts_add_up_to_the_files() {
    let outcomes = [FileOutcome::Processed, FileOutcome::Skipped, FileOutcome::Processed, FileOutcome::Errored];
    let r = IngestReport::tally(&outcomes);
    assert_eq!((r.processed, r.skipped, r.errored), (2, 1, 1));
    assert_eq!(r.processed + r.skipped + r.errored, outcomes.len() as u64);
    assert_eq!(IngestReport::tally(&[]).processed, 0);
}
