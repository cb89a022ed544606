//! The health checks of `photopipe doctor`: what each check concludes and
//! whether the run as a whole is unhealthy.
use vstd::prelude::*;
use crate::config::DeviceChoice;

verus! {

/// The least free disk space, in GiB, that does not warrant a warning.
pub const MIN_FREE_DISK_GB: u64 = 5;

#[derive(Clone, Copy, PartialEq, Eq, Structural, Debug)]
pub enum CheckStatus {
    Pass,
    Warn,
    Fail,
}

impl CheckStatus {
    pub fn glyph(self) -> (r: &'static str)
        ensures
            self == CheckStatus::Pass ==> r@ == "[ ok ]"@,
            self == CheckStatus::Warn ==> r@ == "[warn]"@,
            self == CheckStatus::Fail ==> r@ == "[fail]"@,
    {
        match self {
            CheckStatus::Pass => "[ ok ]",
            CheckStatus::Warn => "[warn]",
            CheckStatus::Fail => "[fail]",
        }
    }
}

/// One diagnostic line; a critical check that fails makes the run unhealthy.
pub struct DoctorCheck {
    pub label: String,
    pub status: CheckStatus,
    pub detail: String,
    pub critical: bool,
}

/// A configured model: missing on disk is a critical failure; present and
/// loaded is fine; present but not loaded is a warning.
pub fn model_check(file_present: bool, loaded: bool) -> (r: (CheckStatus, bool))
    ensures
        !file_present ==> r == (CheckStatus::Fail, true),
        file_present && loaded ==> r == (CheckStatus::Pass, false),
        file_present && !loaded ==> r == (CheckStatus::Warn, false),
{
    if !file_present {
        (CheckStatus::Fail, true)
    } else if loaded {
        (CheckStatus::Pass, false)
    } else {
        (CheckStatus::Warn, false)
    }
}

/// Whole GiB in `bytes`.
pub fn whole_gib(bytes: u64) -> (r: u64)
    ensures
        r == bytes / 1_073_741_824,
{
    bytes / 1_073_741_824
}

/// Free space is fine at `MIN_FREE_DISK_GB` whole GiB or more, else a warning.
pub fn disk_free_status(available_bytes: u64) -> (r: CheckStatus)
    ensures
        r == if available_bytes / 1_073_741_824 >= 5 {
            CheckStatus::Pass
        } else {
            CheckStatus::Warn
        },
{
    if whole_gib(available_bytes) >= MIN_FREE_DISK_GB {
        CheckStatus::Pass
    } else {
        CheckStatus::Warn
    }
}

/// Some critical check failed.
pub open spec fn unhealthy_spec(checks: Seq<DoctorCheck>) -> bool {
    exists|i: int| 0 <= i < checks.len() && (#[trigger] checks[i]).critical && checks[i].status == CheckStatus::Fail
}

pub fn unhealthy(checks: &[DoctorCheck]) -> (r: bool)
    ensures
        r == unhealthy_spec(checks@),
{
    for i in 0..checks.len()
        invariant
            forall|j: int| 0 <= j < i ==> !((#[trigger] checks@[j]).critical && checks@[j].status == CheckStatus::Fail),
    {
        if checks[i].critical && checks[i].status == CheckStatus::Fail {
            return true;
        }
    }
    false
}

/// The execution provider `doctor` reports for a device choice.
pub fn doctor_provider(device: DeviceChoice) -> (r: &'static str)
    ensures
        device == DeviceChoice::Cpu ==> r@ == "CPUExecutionProvider"@,
        device == DeviceChoice::CoreMl ==> r@ == "CoreMLExecutionProvider (overridden → CPU on macOS)"@,
        device == DeviceChoice::Cuda ==> r@ == "CUDAExecutionProvider"@,
        device == DeviceChoice::TensorRt ==> r@ == "TensorRtExecutionProvider"@,
        device == DeviceChoice::Auto ==> r@ == "CUDAExecutionProvider (if available) else CPUExecutionProvider"@,
{
    match device {
        DeviceChoice::Cpu => "CPUExecutionProvider",
        DeviceChoice::CoreMl => "CoreMLExecutionProvider (overridden → CPU on macOS)",
        DeviceChoice::Cuda => "CUDAExecutionProvider",
        DeviceChoice::TensorRt => "TensorRtExecutionProvider",
        DeviceChoice::Auto => "CUDAExecutionProvider (if available) else CPUExecutionProvider",
    }
}

} // verus!
