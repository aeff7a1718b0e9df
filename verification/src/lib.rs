//! Core of the Gothic 1 Remake optimizer: preset handling, INI generation and
//! merging, install planning, and hardware-based recommendations.
use vstd::prelude::*;

pub mod text;
pub mod seq_util;
pub mod ini_line;
pub mod ini_doc;
pub mod ini_merge;
pub mod content;
pub mod installer;
pub mod manifest;
pub mod presets;
pub mod hardware;
pub mod recommendation;
pub mod paths;
pub mod commands;

pub use hardware::{detect_linux_gpus, GpuInfo, GpuVendor, HardwareConfidence, HardwareSnapshot};
pub use installer::{
    ini_file_contents, install_preset, install_preset_with_strategy, list_backups, preview_install,
    restore_files, BackupInfo, FileInstallReport, FilePreview, IniFileContent, InstallOptions,
    InstallPlan, InstallReport, InstallStrategy, PresetSource, ResetReport, RestoreReport, TargetDir,
};
pub use manifest::FileModificationState;
pub use paths::{
    detect_config_paths, launch_candidates_from_steamapps_roots, ConfigCandidate, LaunchCandidate,
    LaunchCandidateKind,
};
pub use presets::{find_preset, list_presets, Preset};
pub use recommendation::{recommend_preset_for_hardware, PresetRecommendation};

verus! {

/// An error of the optimizer core, with a message for the user.
#[derive(Debug, Clone, PartialEq, Eq)]
pub struct CoreError {
    pub message: String,
}

pub type CoreResult<T> = Result<T, CoreError>;

impl CoreError {
    pub fn new(message: String) -> (e: CoreError)
        ensures
            e.message@ == message@,
    {
        CoreError { message }
    }

    /// `<action> '<path>': <source>`.
    pub fn io(action: &str, path: &str, source: &str) -> (e: CoreError)
        ensures
            e.message@ == action@ + " '"@ + path@ + "': "@ + source@,
    {
        let mut m = crate::text::chars_of(action);
        crate::text::append_all(&mut m, &crate::text::chars_of(" '"));
        crate::text::append_all(&mut m, &crate::text::chars_of(path));
        crate::text::append_all(&mut m, &crate::text::chars_of("': "));
        crate::text::append_all(&mut m, &crate::text::chars_of(source));
        CoreError { message: crate::text::string_of(&m) }
    }

    pub fn message(&self) -> (m: &str)
        ensures
            m@ == self.message@,
    {
        self.message.as_str()
    }
}

} // verus!
