use pipeline::catalog::pending_migrations;
use pipeline::config::DeviceChoice;
use pipeline::doctor::{disk_free_status, doctor_provider, model_check, unhealthy, CheckStatus, DoctorCheck};

fn check(status: CheckStatus, critical: bool) -> DoctorCheck {
    DoctorCheck { label: "x".into(), status, detail: String::new(), critical }
}

#[test]
fn doctor_rules() {
    assert_eq!(model_check(false, false), (CheckStatus::Fail, true));
    assert_eq!(model_check(true, true), (CheckStatus::Pass, false));
    assert_eq!(model_check(true, false), (CheckStatus::Warn, false));
    assert_eq!(disk_free_status(5 * 1_073_741_824), CheckStatus::Pass);
    assert_eq!(disk_free_status(5 * 1_073_741_824 - 1), CheckStatus::Warn);
    assert!(!unhealthy(&[check(CheckStatus::Fail, false), check(CheckStatus::Warn, true)]));
    assert!(unhealthy(&[check(CheckStatus::Pass, false), check(CheckStatus::Fail, true)]));
    assert_eq!(CheckStatus::Warn.glyph(), "[warn]");
    assert_eq!(doctor_provider(DeviceChoice::Cpu), "CPUExecutionProvider");
}

#[test]
fn migrations_apply_from_the_current_version() {
    assert_eq!(pending_migrations(0, 5), vec![1, 2, 3, 4, 5]);
    assert_eq!(pending_migrations(3, 5), vec![4, 5]);
    assert_eq!(pending_migrations(5, 5), Vec::<u32>::new());
    assert_eq!(pending_migrations(7, 5), Vec::<u32>::new());
}
