//! What the desktop commands check and show: their arguments parsed, and
//! the names the user interface gives to the library's enumerations.
use vstd::prelude::*;
use crate::hardware::{GpuVendor, HardwareConfidence};
use crate::installer::InstallStrategy;
use crate::manifest::FileModificationState;
use crate::text::{append_all, chars_of, owned, string_of, trim, trim_vec};
use crate::CoreError;

verus! {

pub open spec fn empty_target_message() -> Seq<char> {
    "target config folder is empty"@
}

/// The config folder a command names: the argument trimmed, which must not
/// be empty.
pub fn parse_target_dir(target_dir: &str) -> (r: Result<String, String>)
    ensures
        match r {
            Ok(d) => trim(target_dir@).len() > 0 && d@ == trim(target_dir@),
            Err(m) => trim(target_dir@).len() == 0 && m@ == empty_target_message(),
        },
{
    let t = trim_vec(&chars_of(target_dir));
    if t.len() == 0 {
        return Err(owned("target config folder is empty"));
    }
    Ok(string_of(&t))
}

pub open spec fn invalid_strategy_message(value: Seq<char>) -> Seq<char> {
    "invalid install strategy '"@ + value + "'"@
}

/// `replace` or `merge`.
pub fn parse_install_strategy(value: &str) -> (r: Result<InstallStrategy, String>)
    ensures
        value@ == "replace"@ ==> r == Ok::<InstallStrategy, String>(InstallStrategy::Replace),
        value@ == "merge"@ ==> r == Ok::<InstallStrategy, String>(InstallStrategy::Merge),
        value@ != "replace"@ && value@ != "merge"@ ==> (r matches Err(m) && m@ == invalid_strategy_message(value@)),
{
    proof {
        reveal_strlit("replace");
        reveal_strlit("merge");
        assert("replace"@.len() != "merge"@.len());
    }
    let v = chars_of(value);
    if crate::ini_doc::vec_eq(&v, &chars_of("replace")) {
        return Ok(InstallStrategy::Replace);
    }
    if crate::ini_doc::vec_eq(&v, &chars_of("merge")) {
        return Ok(InstallStrategy::Merge);
    }
    let mut m = chars_of("invalid install strategy '");
    append_all(&mut m, &v);
    append_all(&mut m, &chars_of("'"));
    Err(string_of(&m))
}

/// The message a command reports for an error.
pub fn to_error_string(error: CoreError) -> (r: String)
    ensures
        r@ == error.message@,
{
    error.message
}

pub open spec fn vendor_name(vendor: GpuVendor) -> Seq<char> {
    match vendor {
        GpuVendor::Amd => "AMD"@,
        GpuVendor::Intel => "Intel"@,
        GpuVendor::Nvidia => "NVIDIA"@,
        GpuVendor::Microsoft => "Microsoft"@,
        GpuVendor::Unknown => "Unknown"@,
    }
}

pub fn vendor_to_string(vendor: GpuVendor) -> (r: String)
    ensures
        r@ == vendor_name(vendor),
{
    owned(
        match vendor {
            GpuVendor::Amd => "AMD",
            GpuVendor::Intel => "Intel",
            GpuVendor::Nvidia => "NVIDIA",
            GpuVendor::Microsoft => "Microsoft",
            GpuVendor::Unknown => "Unknown",
        },
    )
}

pub open spec fn confidence_name(confidence: HardwareConfidence) -> Seq<char> {
    match confidence {
        HardwareConfidence::High => "high"@,
        HardwareConfidence::Medium => "medium"@,
        HardwareConfidence::Low => "low"@,
    }
}

pub fn confidence_to_string(confidence: HardwareConfidence) -> (r: String)
    ensures
        r@ == confidence_name(confidence),
{
    owned(
        match confidence {
            HardwareConfidence::High => "high",
            HardwareConfidence::Medium => "medium",
            HardwareConfidence::Low => "low",
        },
    )
}

pub open spec fn modification_state_name(state: FileModificationState) -> Seq<char> {
    match state {
        FileModificationState::Missing => "missing"@,
        FileModificationState::Unchanged => "unchanged"@,
        FileModificationState::Untracked => "untracked"@,
        FileModificationState::Modified => "modified"@,
    }
}

pub fn modification_state_to_string(state: FileModificationState) -> (r: String)
    ensures
        r@ == modification_state_name(state),
{
    owned(
        match state {
            FileModificationState::Missing => "missing",
            FileModificationState::Unchanged => "unchanged",
            FileModificationState::Untracked => "untracked",
            FileModificationState::Modified => "modified",
        },
    )
}

} // verus!
