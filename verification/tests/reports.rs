use pipeline::reports::{coco_id_to_subject_class, CalibrationReport, DedupeReport, DefectReport, SubjectClass};

#[test]
fn report_default_is_all_zeros() {
    let r = CalibrationReport::default();
    assert_eq!(r.buckets_built, 0);
    assert_eq!(r.global_n_samples, 0);
    assert_eq!(r.flags_cleared, 0);
    assert_eq!(r.flagged_blur, 0);
    assert_eq!(r.flagged_back_focus, 0);
    assert_eq!(r.flagged_low_iqa, 0);
    assert_eq!(r.blur_confidence_bumped, 0);
}

#[test]
fn coco_ids_map_to_subject_classes() {
    assert_eq!(coco_id_to_subject_class(0), SubjectClass::Person);
    assert_eq!(coco_id_to_subject_class(3), SubjectClass::Vehicle);
    assert_eq!(coco_id_to_subject_class(8), SubjectClass::Vehicle);
    assert_eq!(coco_id_to_subject_class(9), SubjectClass::Object);
    assert_eq!(coco_id_to_subject_class(16), SubjectClass::Animal);
    assert_eq!(coco_id_to_subject_class(23), SubjectClass::Animal);
    assert_eq!(coco_id_to_subject_class(50), SubjectClass::Object);
    assert_eq!(coco_id_to_subject_class(79), SubjectClass::Object);
    assert_eq!(coco_id_to_subject_class(80), SubjectClass::Other);
}

#[test]
fn dedupe_report_counts_groups_members_and_keepers() {
    let mut r = DedupeReport::default();
    assert_eq!(r, DedupeReport { groups: 0, members: 0, keepers: 0 });
    assert!(!DedupeReport::forms_group(1, 2));
    assert!(DedupeReport::forms_group(2, 2));
    r.record_group(3);
    r.record_group(2);
    assert_eq!(r, DedupeReport { groups: 2, members: 5, keepers: 2 });
}

#[test]
fn defect_report_starts_empty() {
    let r = DefectReport::default();
    assert_eq!(
        (r.analyzed, r.skipped, r.errored, r.flagged_overexposed, r.flagged_underexposed),
        (0, 0, 0, 0, 0)
    );
}
