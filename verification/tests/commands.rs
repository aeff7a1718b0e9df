use optimizer_core::commands::{
    confidence_to_string, modification_state_to_string, parse_install_strategy, parse_target_dir,
    to_error_string, vendor_to_string,
};
use optimizer_core::CoreError;
use optimizer_core::{FileModificationState, GpuVendor, HardwareConfidence, InstallStrategy};

#[test]
fn parses_command_arguments() {
    assert_eq!(parse_target_dir("  /games/Config \n"), Ok("/games/Config".to_string()));
    assert_eq!(parse_target_dir("   "), Err("target config folder is empty".to_string()));
    assert_eq!(parse_install_strategy("replace"), Ok(InstallStrategy::Replace));
    assert_eq!(parse_install_strategy("merge"), Ok(InstallStrategy::Merge));
    assert_eq!(
        parse_install_strategy("Merge"),
        Err("invalid install strategy 'Merge'".to_string())
    );
}

#[test]
fn names_enumerations_for_the_interface() {
    assert_eq!(vendor_to_string(GpuVendor::Unknown), "Unknown");
    assert_eq!(vendor_to_string(GpuVendor::Amd), "AMD");
    assert_eq!(confidence_to_string(HardwareConfidence::Medium), "medium");
    assert_eq!(modification_state_to_string(FileModificationState::Untracked), "untracked");
    assert_eq!(to_error_string(CoreError::new("boom".to_string())), "boom");
    assert_eq!(
        CoreError::io("read file", "/x", "denied").message(),
        "read file '/x': denied"
    );
}
