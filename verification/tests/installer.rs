use optimizer_core::installer::{
    reset_step, RemoveOutcome,
    backup_dir_name, managed_file_names, next_backup_dir_step, restore_report, validate_backup_id,
    BackupDirEntry, BackupDirStep, CreateDirOutcome, FileInstallReport, InstallPlan, PresetSource,
    ReadOutcome, TargetDir, TargetFile,
};
use optimizer_core::manifest::{update_manifest_files, ManifestFile};
use optimizer_core::{
    ini_file_contents, install_preset, install_preset_with_strategy, list_backups, preview_install,
    restore_files, FileModificationState, FilePreview, InstallOptions, InstallStrategy, Preset,
};

const PRESET_ID: &str = "08GB_VRAM_4096MB";
const ENGINE_PRESET: &str = "[SystemSettings]\nr.TextureStreaming=1\nr.Streaming.PoolSize=4096\n";
const SCALABILITY_PRESET: &str = "[TextureQuality@0]\nr.Streaming.PoolSize=4096\n\n[TextureQuality@Cine]\nr.Streaming.PoolSize=4096\n";
const TARGET: &str = "/games/Config/Windows";

fn preset_sources(engine: &str, scalability: &str) -> Vec<PresetSource> {
    vec![PresetSource {
        preset: Preset {
            id: PRESET_ID.to_string(),
            directory: format!("/presets/{PRESET_ID}"),
            vram_gb: 8,
            pool_mb: 4096,
            engine_ini: format!("/presets/{PRESET_ID}/Engine.ini"),
            scalability_ini: format!("/presets/{PRESET_ID}/Scalability.ini"),
        },
        engine_text: Ok(engine.to_string()),
        scalability_text: Ok(scalability.to_string()),
    }]
}

fn test_presets() -> Vec<PresetSource> {
    preset_sources(ENGINE_PRESET, SCALABILITY_PRESET)
}

fn missing_file(name: &str) -> TargetFile {
    TargetFile {
        path: format!("{TARGET}/{name}"),
        is_file: false,
        read: ReadOutcome::NotFound,
    }
}

fn empty_target() -> TargetDir {
    TargetDir {
        engine: missing_file("Engine.ini"),
        scalability: missing_file("Scalability.ini"),
        game: missing_file("Game.ini"),
        manifest: None,
    }
}

fn write_file(target: &mut TargetDir, name: &str, content: &str) {
    let file = TargetFile {
        path: format!("{TARGET}/{name}"),
        is_file: true,
        read: ReadOutcome::Bytes(content.as_bytes().to_vec()),
    };
    match name {
        "Engine.ini" => target.engine = file,
        "Scalability.ini" => target.scalability = file,
        "Game.ini" => target.game = file,
        _ => panic!("not a managed file: {name}"),
    }
}

fn read_file(target: &TargetDir, name: &str) -> Option<String> {
    let file = match name {
        "Engine.ini" => &target.engine,
        "Scalability.ini" => &target.scalability,
        "Game.ini" => &target.game,
        _ => panic!("not a managed file: {name}"),
    };
    match &file.read {
        ReadOutcome::Bytes(bytes) if file.is_file => Some(String::from_utf8(bytes.clone()).unwrap()),
        _ => None,
    }
}

/// Carries out a plan on the in-memory folder, as the desktop app does on disk.
fn carry_out(target: &mut TargetDir, plan: InstallPlan) -> Vec<FileInstallReport> {
    let mut reports = Vec::new();
    let mut entries = Vec::new();
    for write in plan.writes {
        let content = write.content.unwrap();
        write_file(target, &write.file_name, &content);
        entries.push(ManifestFile::from_content(&write.file_name, &content, 1_700_000_000));
        reports.push(FileInstallReport::for_content(&write.file_name, &content, write.read_only));
    }
    target.manifest = Some(update_manifest_files(target.manifest.take(), entries));
    reports
}

fn streaming_options() -> InstallOptions {
    InstallOptions {
        lock_engine_ini: false,
        lock_game_ini: false,
        lock_scalability_ini: false,
        custom_pool_mb: None,
        apply_streaming_fixes: true,
        apply_balanced_performance_tweaks: false,
        apply_disable_volumetric_fog: false,
        apply_low_volumetric_fog: false,
        apply_skip_intro_videos: false,
        apply_d3d12_pso_cache: false,
        apply_runtime_pso_precaching: false,
        apply_gc_smoothing: false,
    }
}

fn no_options() -> InstallOptions {
    InstallOptions {
        apply_streaming_fixes: false,
        ..streaming_options()
    }
}

fn count_occurrences(content: &str, needle: &str) -> usize {
    content.matches(needle).count()
}

fn find<'a>(previews: &'a [FilePreview], name: &str) -> &'a FilePreview {
    previews.iter().find(|file| file.file_name == name).unwrap()
}

#[test]
fn preview_marks_existing_files_without_manifest_as_untracked() {
    let mut target = empty_target();
    write_file(&mut target, "Engine.ini", "[SystemSettings]\nr.Streaming.PoolSize=2048\n");

    let preview = preview_install(&test_presets(), PRESET_ID, &target, streaming_options()).unwrap();
    let engine_preview = find(&preview, "Engine.ini");

    assert_eq!(engine_preview.modification_state, FileModificationState::Untracked);
    assert!(engine_preview.has_overwrite_risk());
}

#[test]
fn preview_marks_app_written_files_as_unchanged() {
    let presets = test_presets();
    let mut target = empty_target();
    let plan = install_preset(&presets, PRESET_ID, &target, streaming_options()).unwrap();
    carry_out(&mut target, plan);

    let preview = preview_install(&presets, PRESET_ID, &target, streaming_options()).unwrap();

    assert!(preview
        .iter()
        .filter(|file| file.target_exists)
        .all(|file| file.modification_state == FileModificationState::Unchanged));
    assert!(!preview.iter().any(FilePreview::has_overwrite_risk));
}

#[test]
fn preview_marks_app_written_files_as_modified_after_external_change() {
    let presets = test_presets();
    let mut target = empty_target();
    let plan = install_preset(&presets, PRESET_ID, &target, streaming_options()).unwrap();
    carry_out(&mut target, plan);
    write_file(&mut target, "Engine.ini", "[SystemSettings]\nr.Streaming.PoolSize=2048\n");

    let preview = preview_install(&presets, PRESET_ID, &target, streaming_options()).unwrap();
    let engine_preview = find(&preview, "Engine.ini");
    let scalability_preview = find(&preview, "Scalability.ini");

    assert_eq!(engine_preview.modification_state, FileModificationState::Modified);
    assert!(engine_preview.has_overwrite_risk());
    assert_eq!(scalability_preview.modification_state, FileModificationState::Unchanged);
    assert!(!scalability_preview.has_overwrite_risk());
}

#[test]
fn preview_marks_merge_available_only_for_external_settings() {
    let mut target = empty_target();
    write_file(
        &mut target,
        "Engine.ini",
        "[SystemSettings]\nr.Streaming.PoolSize=1024\nr.TextureStreaming=0\n",
    );
    write_file(
        &mut target,
        "Scalability.ini",
        "[TextureQuality@Cine]\nr.Streaming.PoolSize=1024\nCustomTextureSetting=5\n",
    );

    let preview = preview_install(&test_presets(), PRESET_ID, &target, streaming_options()).unwrap();
    let engine_preview = find(&preview, "Engine.ini");
    let scalability_preview = find(&preview, "Scalability.ini");

    assert!(engine_preview.has_overwrite_risk());
    assert!(!engine_preview.has_external_settings);
    assert!(scalability_preview.has_overwrite_risk());
    assert!(scalability_preview.has_external_settings);
}

#[test]
fn appends_balanced_performance_tweaks_only_when_requested() {
    let presets = test_presets();
    let mut target = empty_target();
    let preview = preview_install(
        &presets,
        PRESET_ID,
        &target,
        InstallOptions {
            lock_engine_ini: true,
            lock_game_ini: true,
            lock_scalability_ini: true,
            apply_balanced_performance_tweaks: true,
            ..streaming_options()
        },
    )
    .unwrap();
    assert!(!preview[0].will_apply_balanced_performance_tweaks);
    assert!(preview[1].will_apply_balanced_performance_tweaks);

    let plan = install_preset(
        &presets,
        PRESET_ID,
        &target,
        InstallOptions {
            apply_balanced_performance_tweaks: true,
            ..streaming_options()
        },
    )
    .unwrap();
    carry_out(&mut target, plan);

    let engine_ini = read_file(&target, "Engine.ini").unwrap();
    assert!(!engine_ini.contains("; Balanced Performance Tweaks (opt-in)"));

    let scalability_ini = read_file(&target, "Scalability.ini").unwrap();
    assert!(scalability_ini.contains("; Balanced Performance Tweaks (opt-in)"));
    assert!(scalability_ini.contains("r.Shadow.Virtual.MaxPhysicalPages=4096"));
    assert!(scalability_ini.contains("r.Lumen.TraceMeshSDFs.Allow=1"));
    assert!(scalability_ini.contains("r.SSR.Quality=3"));
    assert!(!scalability_ini.contains("r.VT.PoolSizeScale"));
    assert!(!scalability_ini.contains("r.MipMapLODBias"));
}

#[test]
fn can_apply_balanced_performance_without_streaming_fixes() {
    let presets = preset_sources(
        "[SystemSettings]\nr.Streaming.PoolSize=4096\n",
        "[TextureQuality@Cine]\nr.Streaming.PoolSize=4096\n",
    );
    let mut target = empty_target();
    let options = InstallOptions {
        apply_balanced_performance_tweaks: true,
        ..no_options()
    };
    let preview = preview_install(&presets, PRESET_ID, &target, options).unwrap();

    assert_eq!(preview.len(), 1);
    assert_eq!(preview[0].file_name, "Scalability.ini");
    assert_eq!(preview[0].preset_pool_mb, None);
    assert!(preview[0].will_apply_balanced_performance_tweaks);

    let plan = install_preset(&presets, PRESET_ID, &target, options).unwrap();
    let installed_files = carry_out(&mut target, plan);

    assert_eq!(installed_files.len(), 1);
    assert!(read_file(&target, "Engine.ini").is_none());
    let scalability_ini = read_file(&target, "Scalability.ini").unwrap();
    assert!(scalability_ini.contains("; Balanced Performance Tweaks (opt-in)"));
    assert!(scalability_ini.contains("r.Lumen.TraceMeshSDFs.Allow=1"));
    assert!(!scalability_ini.contains("r.Streaming.PoolSize"));
}

#[test]
fn can_apply_experimental_engine_tweaks_separately() {
    let presets = preset_sources(
        "[SystemSettings]\nr.Streaming.PoolSize=4096\n",
        "[TextureQuality@Cine]\nr.Streaming.PoolSize=4096\n",
    );
    let mut target = empty_target();
    let preview = preview_install(
        &presets,
        PRESET_ID,
        &target,
        InstallOptions {
            lock_engine_ini: true,
            apply_d3d12_pso_cache: true,
            apply_gc_smoothing: true,
            ..no_options()
        },
    )
    .unwrap();

    assert_eq!(preview.len(), 1);
    assert_eq!(preview[0].file_name, "Engine.ini");
    assert_eq!(preview[0].preset_pool_mb, None);
    assert!(preview[0].will_set_read_only);
    assert!(preview[0].will_apply_d3d12_pso_cache);
    assert!(!preview[0].will_apply_runtime_pso_precaching);
    assert!(preview[0].will_apply_gc_smoothing);

    let plan = install_preset(
        &presets,
        PRESET_ID,
        &target,
        InstallOptions {
            apply_d3d12_pso_cache: true,
            apply_runtime_pso_precaching: true,
            apply_gc_smoothing: true,
            ..no_options()
        },
    )
    .unwrap();
    carry_out(&mut target, plan);

    assert!(read_file(&target, "Scalability.ini").is_none());
    let engine_ini = read_file(&target, "Engine.ini").unwrap();
    assert!(engine_ini.contains("; D3D12 PSO Disk Cache (experimental opt-in)"));
    assert!(engine_ini.contains("D3D12.PSO.DiskCache=1"));
    assert!(engine_ini.contains("; Runtime PSO Precaching (experimental opt-in)"));
    assert!(engine_ini.contains("r.PSOPrecaching=1"));
    assert!(engine_ini.contains("; GC Smoothing (experimental opt-in)"));
    assert!(engine_ini.contains("gc.AllowParallelGC=1"));
    assert_eq!(count_occurrences(&engine_ini, "[SystemSettings]"), 1);
    assert!(!engine_ini.contains("r.Streaming.PoolSize"));
}

#[test]
fn can_disable_volumetric_fog_without_streaming_fixes() {
    let presets = preset_sources(
        "[SystemSettings]\nr.Streaming.PoolSize=4096\n",
        "[TextureQuality@Cine]\nr.Streaming.PoolSize=4096\n",
    );
    let mut target = empty_target();
    let preview = preview_install(
        &presets,
        PRESET_ID,
        &target,
        InstallOptions {
            lock_engine_ini: true,
            apply_disable_volumetric_fog: true,
            ..no_options()
        },
    )
    .unwrap();

    assert_eq!(preview.len(), 1);
    assert_eq!(preview[0].file_name, "Engine.ini");
    assert_eq!(preview[0].preset_pool_mb, None);
    assert!(preview[0].will_set_read_only);
    assert!(preview[0].will_apply_disable_volumetric_fog);

    let plan = install_preset(
        &presets,
        PRESET_ID,
        &target,
        InstallOptions {
            apply_disable_volumetric_fog: true,
            ..no_options()
        },
    )
    .unwrap();
    carry_out(&mut target, plan);

    assert!(read_file(&target, "Scalability.ini").is_none());
    let engine_ini = read_file(&target, "Engine.ini").unwrap();
    assert!(engine_ini.contains("; Disable Volumetric Fog (visual impact opt-in)"));
    assert!(engine_ini.contains("[SystemSettings]"));
    assert!(engine_ini.contains("r.VolumetricFog=0"));
    assert!(!engine_ini.contains("r.Streaming.PoolSize"));
}

#[test]
fn can_apply_low_volumetric_fog_without_streaming_fixes() {
    let presets = preset_sources(
        "[SystemSettings]\nr.Streaming.PoolSize=4096\n",
        "[TextureQuality@Cine]\nr.Streaming.PoolSize=4096\n",
    );
    let mut target = empty_target();
    let preview = preview_install(
        &presets,
        PRESET_ID,
        &target,
        InstallOptions {
            lock_engine_ini: true,
            apply_low_volumetric_fog: true,
            ..no_options()
        },
    )
    .unwrap();

    assert_eq!(preview.len(), 1);
    assert_eq!(preview[0].file_name, "Engine.ini");
    assert_eq!(preview[0].preset_pool_mb, None);
    assert!(preview[0].will_set_read_only);
    assert!(preview[0].will_apply_low_volumetric_fog);

    let plan = install_preset(
        &presets,
        PRESET_ID,
        &target,
        InstallOptions {
            apply_low_volumetric_fog: true,
            ..no_options()
        },
    )
    .unwrap();
    carry_out(&mut target, plan);

    assert!(read_file(&target, "Scalability.ini").is_none());
    let engine_ini = read_file(&target, "Engine.ini").unwrap();
    assert!(engine_ini.contains("; Low Volumetric Fog (visual impact opt-in)"));
    assert!(engine_ini.contains("[SystemSettings]"));
    assert!(engine_ini.contains("r.VolumetricFog=1"));
    assert!(engine_ini.contains("r.VolumetricFog.GridPixelSize=16"));
    assert!(engine_ini.contains("r.VolumetricFog.GridSizeZ=64"));
    assert!(engine_ini.contains("r.VolumetricFog.HistoryMissSupersampleCount=4"));
    assert!(!engine_ini.contains("r.Streaming.PoolSize"));
}

#[test]
fn can_apply_skip_intro_videos_without_streaming_fixes() {
    let presets = preset_sources(
        "[SystemSettings]\nr.Streaming.PoolSize=4096\n",
        "[TextureQuality@Cine]\nr.Streaming.PoolSize=4096\n",
    );
    let mut target = empty_target();
    let options = InstallOptions {
        lock_game_ini: true,
        apply_skip_intro_videos: true,
        ..no_options()
    };
    let preview = preview_install(&presets, PRESET_ID, &target, options).unwrap();

    assert_eq!(preview.len(), 1);
    assert_eq!(preview[0].file_name, "Game.ini");
    assert_eq!(preview[0].preset_pool_mb, None);
    assert!(preview[0].will_set_read_only);
    assert!(preview[0].will_skip_intro_videos);

    let plan = install_preset(&presets, PRESET_ID, &target, options).unwrap();
    let installed_files = carry_out(&mut target, plan);

    assert_eq!(installed_files.len(), 1);
    assert!(read_file(&target, "Engine.ini").is_none());
    assert!(read_file(&target, "Scalability.ini").is_none());
    assert!(installed_files[0].read_only);

    let game_ini = read_file(&target, "Game.ini").unwrap();
    assert!(game_ini.contains("[/Script/AsyncLoadingScreen.LoadingScreenSettings]"));
    assert!(game_ini.contains("MoviePaths=(\"LoopingEngineLoadScreen\")"));
    assert!(!game_ini.contains("Alkimia_Logo"));
    assert!(!game_ini.contains("THQNordic_Logo"));
    assert!(!game_ini.contains("V_LegalScreen"));
}

#[test]
fn rejects_path_like_backup_ids() {
    assert!(validate_backup_id("../x").is_err());
    assert!(validate_backup_id(r"..\x").is_err());
    assert!(validate_backup_id("backup-123").is_ok());
}

#[test]
fn prepares_ini_file_contents_for_manual_copy() {
    let files = ini_file_contents(
        &test_presets(),
        PRESET_ID,
        InstallOptions {
            apply_skip_intro_videos: true,
            ..streaming_options()
        },
    )
    .unwrap();

    let engine_ini = files.iter().find(|file| file.file_name == "Engine.ini").unwrap();
    let scalability_ini = files.iter().find(|file| file.file_name == "Scalability.ini").unwrap();
    let game_ini = files.iter().find(|file| file.file_name == "Game.ini").unwrap();

    assert!(engine_ini.content.contains("; Streaming Fixes"));
    assert!(engine_ini.content.contains("r.Streaming.PoolSize=4096"));
    assert!(scalability_ini.content.contains("; Streaming Fixes"));
    assert!(game_ini.content.contains("; Skip Intro Videos (opt-in)"));
}

#[test]
fn custom_pool_size_overrides_streaming_pool_in_generated_ini_contents() {
    let files = ini_file_contents(
        &test_presets(),
        PRESET_ID,
        InstallOptions {
            custom_pool_mb: Some(12_288),
            ..streaming_options()
        },
    )
    .unwrap();

    let engine_ini = files.iter().find(|file| file.file_name == "Engine.ini").unwrap();
    let scalability_ini = files.iter().find(|file| file.file_name == "Scalability.ini").unwrap();

    assert!(engine_ini.content.contains("; Preset: Custom / 12288 MB pool"));
    assert!(engine_ini.content.contains("r.Streaming.PoolSize=12288"));
    assert!(!engine_ini.content.contains("r.Streaming.PoolSize=4096"));
    assert!(scalability_ini.content.contains("; Preset: Custom / 12288 MB pool"));
    assert_eq!(count_occurrences(&scalability_ini.content, "r.Streaming.PoolSize=12288"), 2);
    assert!(!scalability_ini.content.contains("r.Streaming.PoolSize=4096"));
}

#[test]
fn preview_reports_custom_pool_size() {
    let preview = preview_install(
        &test_presets(),
        PRESET_ID,
        &empty_target(),
        InstallOptions {
            custom_pool_mb: Some(6144),
            ..streaming_options()
        },
    )
    .unwrap();

    assert_eq!(find(&preview, "Engine.ini").preset_pool_mb, Some(6144));
    assert_eq!(find(&preview, "Scalability.ini").preset_pool_mb, Some(6144));
}

#[test]
fn rejects_custom_pool_size_outside_supported_range() {
    let error = preview_install(
        &test_presets(),
        PRESET_ID,
        &empty_target(),
        InstallOptions {
            custom_pool_mb: Some(256),
            ..streaming_options()
        },
    )
    .unwrap_err();

    assert!(error
        .message()
        .contains("custom pool size must be between 512 and 65536 MB"));
}

#[test]
fn installs_preset_and_backups_existing_files() {
    let presets = test_presets();
    let mut target = empty_target();
    write_file(&mut target, "Engine.ini", "r.Streaming.PoolSize=1000\n");

    let preview = preview_install(&presets, PRESET_ID, &target, streaming_options()).unwrap();
    assert_eq!(preview[0].current_pool_mb, Some(1000));
    assert_eq!(preview[0].preset_pool_mb, Some(4096));
    assert!(!preview[0].will_apply_balanced_performance_tweaks);

    let plan = install_preset(&presets, PRESET_ID, &target, streaming_options()).unwrap();
    assert_eq!(plan.backup_files, vec!["Engine.ini".to_string()]);
    carry_out(&mut target, plan);
    assert!(read_file(&target, "Scalability.ini").is_some());
}

fn install(target: &mut TargetDir, options: InstallOptions, strategy: InstallStrategy) {
    let plan = install_preset_with_strategy(&test_presets(), PRESET_ID, target, options, strategy).unwrap();
    carry_out(target, plan);
}

#[test]
fn preview_does_not_treat_disabled_app_features_as_external_settings() {
    let mut target = empty_target();
    install(
        &mut target,
        InstallOptions {
            apply_balanced_performance_tweaks: true,
            ..streaming_options()
        },
        InstallStrategy::Merge,
    );

    let preview = preview_install(&test_presets(), PRESET_ID, &target, streaming_options()).unwrap();
    let scalability_preview = find(&preview, "Scalability.ini");

    assert_eq!(scalability_preview.modification_state, FileModificationState::Unchanged);
    assert!(!scalability_preview.has_external_settings);
}

#[test]
fn install_merge_removes_disabled_app_managed_settings() {
    let mut target = empty_target();
    write_file(
        &mut target,
        "Scalability.ini",
        "[ShadowQuality@Cine]\nCustomShadowSetting=1\n\n[EffectsQuality@Cine]\nModOnly=1\n",
    );

    install(
        &mut target,
        InstallOptions {
            apply_balanced_performance_tweaks: true,
            ..streaming_options()
        },
        InstallStrategy::Merge,
    );
    install(&mut target, streaming_options(), InstallStrategy::Merge);

    let scalability_ini = read_file(&target, "Scalability.ini").unwrap();
    assert!(scalability_ini.contains("CustomShadowSetting=1"));
    assert!(scalability_ini.contains("ModOnly=1"));
    assert!(!scalability_ini.contains("r.Shadow.MaxResolution=2048"));
    assert!(!scalability_ini.contains("r.VolumetricFog.GridPixelSize=8"));
}

#[test]
fn install_merge_removes_disabled_app_managed_settings_from_inactive_files() {
    let mut target = empty_target();
    write_file(
        &mut target,
        "Game.ini",
        "[/Script/AsyncLoadingScreen.LoadingScreenSettings]\nModLoadingScreenSetting=True\n",
    );

    install(
        &mut target,
        InstallOptions {
            apply_skip_intro_videos: true,
            ..streaming_options()
        },
        InstallStrategy::Merge,
    );
    install(&mut target, streaming_options(), InstallStrategy::Merge);

    let game_ini = read_file(&target, "Game.ini").unwrap();
    assert!(game_ini.contains("ModLoadingScreenSetting=True"));
    assert!(!game_ini.contains("StartupLoadingScreen="));
}

#[test]
fn install_merge_removes_disabled_app_block_scaffolding() {
    let mut target = empty_target();
    install(
        &mut target,
        InstallOptions {
            apply_low_volumetric_fog: true,
            apply_d3d12_pso_cache: true,
            apply_runtime_pso_precaching: true,
            apply_gc_smoothing: true,
            ..streaming_options()
        },
        InstallStrategy::Merge,
    );
    install(
        &mut target,
        InstallOptions {
            apply_low_volumetric_fog: true,
            ..streaming_options()
        },
        InstallStrategy::Merge,
    );

    let engine_ini = read_file(&target, "Engine.ini").unwrap();
    assert!(engine_ini.contains("; Low Volumetric Fog (visual impact opt-in)"));
    assert!(engine_ini.contains("r.VolumetricFog.GridPixelSize=16"));
    assert!(!engine_ini.contains("; D3D12 PSO Disk Cache (experimental opt-in)"));
    assert!(!engine_ini.contains("[/Script/D3D12RHI.D3D12Options]"));
    assert!(!engine_ini.contains("; Runtime PSO Precaching (experimental opt-in)"));
    assert!(!engine_ini.contains("; GC Smoothing (experimental opt-in)"));
    assert!(!engine_ini.contains("\n\n\n"));
    assert_eq!(count_occurrences(&engine_ini, "[SystemSettings]"), 1);
}

#[test]
fn install_merge_adds_feature_comment_to_existing_section() {
    let mut target = empty_target();
    write_file(
        &mut target,
        "Engine.ini",
        "[SystemSettings]\nModOnly=1\nr.VolumetricFog=0\n",
    );

    install(
        &mut target,
        InstallOptions {
            apply_low_volumetric_fog: true,
            ..streaming_options()
        },
        InstallStrategy::Merge,
    );

    let engine_ini = read_file(&target, "Engine.ini").unwrap();
    let comment_index = engine_ini.find("; Low Volumetric Fog (visual impact opt-in)").unwrap();
    let setting_index = engine_ini.find("r.VolumetricFog=1").unwrap();
    assert!(comment_index < setting_index);
    assert!(engine_ini.contains("ModOnly=1"));
    assert_eq!(count_occurrences(&engine_ini, "r.VolumetricFog="), 1);
    assert!(!engine_ini.contains("\n\n\n"));
}

#[test]
fn install_merges_balanced_performance_tweaks_without_duplicate_keys() {
    let mut target = empty_target();
    write_file(
        &mut target,
        "Scalability.ini",
        "[ShadowQuality@Cine]\nr.Shadow.MaxResolution=4096\nCustomShadowSetting=1\n\n[EffectsQuality@Cine]\nr.VolumetricFog.GridPixelSize=32\nModOnly=1\n",
    );

    install(
        &mut target,
        InstallOptions {
            apply_streaming_fixes: false,
            apply_balanced_performance_tweaks: true,
            ..streaming_options()
        },
        InstallStrategy::Merge,
    );

    let scalability_ini = read_file(&target, "Scalability.ini").unwrap();
    assert!(scalability_ini.contains("CustomShadowSetting=1"));
    assert!(scalability_ini.contains("ModOnly=1"));
    assert!(scalability_ini.contains("r.Shadow.MaxResolution=2048"));
    assert!(scalability_ini.contains("r.VolumetricFog.GridPixelSize=8"));
    assert!(scalability_ini.contains("[GlobalIlluminationQuality@Cine]"));
    assert!(!scalability_ini.contains("r.Shadow.MaxResolution=4096"));
    assert!(!scalability_ini.contains("r.VolumetricFog.GridPixelSize=32"));
    assert_eq!(count_occurrences(&scalability_ini, "r.Shadow.MaxResolution="), 1);
    assert_eq!(count_occurrences(&scalability_ini, "r.VolumetricFog.GridPixelSize="), 1);
}

#[test]
fn install_merges_skip_intro_settings_into_existing_game_ini() {
    let mut target = empty_target();
    write_file(
        &mut target,
        "Game.ini",
        "[/Script/AsyncLoadingScreen.LoadingScreenSettings]\nStartupLoadingScreen=(MoviePaths=(\"OldIntro\"))\nModLoadingScreenSetting=True\n",
    );

    install(
        &mut target,
        InstallOptions {
            apply_streaming_fixes: false,
            apply_skip_intro_videos: true,
            ..streaming_options()
        },
        InstallStrategy::Merge,
    );

    let game_ini = read_file(&target, "Game.ini").unwrap();
    assert!(game_ini.contains("MoviePaths=(\"LoopingEngineLoadScreen\")"));
    assert!(game_ini.contains("ModLoadingScreenSetting=True"));
    assert!(!game_ini.contains("OldIntro"));
    assert_eq!(count_occurrences(&game_ini, "StartupLoadingScreen="), 1);
}

#[test]
fn install_replace_discards_existing_custom_settings() {
    let mut target = empty_target();
    write_file(
        &mut target,
        "Engine.ini",
        "[SystemSettings]\nr.Streaming.PoolSize=1024\nr.CustomMod.Setting=1\n",
    );

    let plan = install_preset_with_strategy(
        &test_presets(),
        PRESET_ID,
        &target,
        streaming_options(),
        InstallStrategy::Replace,
    )
    .unwrap();
    carry_out(&mut target, plan);

    let engine_ini = read_file(&target, "Engine.ini").unwrap();
    assert!(engine_ini.contains("r.Streaming.PoolSize=4096"));
    assert!(engine_ini.contains("r.TextureStreaming=1"));
    assert!(!engine_ini.contains("r.CustomMod.Setting=1"));
}

#[test]
fn install_merges_streaming_preset_into_existing_ini_files() {
    let mut target = empty_target();
    write_file(
        &mut target,
        "Engine.ini",
        "; User comment stays\n[SystemSettings]\n; Mod setting stays\nr.Streaming.PoolSize=1024\nr.Streaming.PoolSize=2048\nr.CustomMod.Setting=1\n\n[/Script/Other.Mod]\nbEnabled=True\n",
    );
    write_file(
        &mut target,
        "Scalability.ini",
        "[TextureQuality@Cine]\n; User texture comment stays\nr.Streaming.PoolSize=1024\nCustomTextureSetting=5\n\n[EffectsQuality@Cine]\nr.VolumetricFog.GridPixelSize=32\nModOnly=1\n",
    );

    install(&mut target, streaming_options(), InstallStrategy::Merge);

    let engine_ini = read_file(&target, "Engine.ini").unwrap();
    assert!(engine_ini.contains("; User comment stays"));
    assert!(engine_ini.contains("; Mod setting stays"));
    assert!(engine_ini.contains("r.CustomMod.Setting=1"));
    assert!(engine_ini.contains("[/Script/Other.Mod]"));
    assert!(engine_ini.contains("bEnabled=True"));
    assert!(engine_ini.contains("; Streaming Fixes"));
    assert!(engine_ini.contains("r.TextureStreaming=1"));
    assert!(engine_ini.contains("r.Streaming.PoolSize=4096"));
    assert!(!engine_ini.contains("r.Streaming.PoolSize=1024"));
    assert!(!engine_ini.contains("r.Streaming.PoolSize=2048"));
    assert_eq!(count_occurrences(&engine_ini, "r.Streaming.PoolSize="), 1);

    let scalability_ini = read_file(&target, "Scalability.ini").unwrap();
    assert!(scalability_ini.contains("; User texture comment stays"));
    assert!(scalability_ini.contains("; Streaming Fixes"));
    assert!(scalability_ini.contains("CustomTextureSetting=5"));
    assert!(scalability_ini.contains("ModOnly=1"));
    assert!(scalability_ini.contains("[TextureQuality@0]"));
    assert!(scalability_ini.contains("[TextureQuality@Cine]"));
    assert!(scalability_ini.contains("r.Streaming.PoolSize=4096"));
    assert!(!scalability_ini.contains("r.Streaming.PoolSize=1024"));

    let preview = preview_install(&test_presets(), PRESET_ID, &target, streaming_options()).unwrap();
    assert!(preview
        .iter()
        .filter(|file| file.target_exists)
        .all(|file| file.modification_state == FileModificationState::Unchanged));
}

#[test]
fn install_merge_reports_unreadable_existing_file() {
    let mut target = empty_target();
    target.engine = TargetFile {
        path: format!("{TARGET}/Engine.ini"),
        is_file: true,
        read: ReadOutcome::Failed("Permission denied (os error 13)".to_string()),
    };

    let plan = install_preset_with_strategy(
        &test_presets(),
        PRESET_ID,
        &target,
        streaming_options(),
        InstallStrategy::Merge,
    )
    .unwrap();
    let engine_write = &plan.writes[0];
    assert_eq!(engine_write.file_name, "Engine.ini");
    assert_eq!(
        engine_write.content.as_ref().unwrap_err().message(),
        "read existing config file '/games/Config/Windows/Engine.ini': Permission denied (os error 13)"
    );
}

#[test]
fn unknown_preset_is_reported() {
    let error = preview_install(&test_presets(), "99GB_VRAM_1MB", &empty_target(), streaming_options())
        .unwrap_err();
    assert_eq!(error.message(), "unknown preset '99GB_VRAM_1MB'");
}

#[test]
fn unreadable_preset_file_is_reported() {
    let mut presets = test_presets();
    presets[0].scalability_text = Err("No such file or directory (os error 2)".to_string());
    let error = ini_file_contents(&presets, PRESET_ID, streaming_options()).unwrap_err();
    assert_eq!(
        error.message(),
        "read preset file '/presets/08GB_VRAM_4096MB/Scalability.ini': No such file or directory (os error 2)"
    );
}

#[test]
fn pool_size_range_limits_are_inclusive() {
    for pool in [512, 65_536] {
        let options = InstallOptions {
            custom_pool_mb: Some(pool),
            ..streaming_options()
        };
        assert!(options.validate().is_ok());
    }
    for pool in [511, 65_537] {
        let options = InstallOptions {
            custom_pool_mb: Some(pool),
            ..streaming_options()
        };
        assert!(options.validate().is_err());
    }
}

#[test]
fn backup_dir_names_count_attempts_after_the_first() {
    assert_eq!(backup_dir_name(1234, 0), "backup-1234");
    assert_eq!(backup_dir_name(1234, 1), "backup-1234-1");
    assert_eq!(backup_dir_name(0, 999), "backup-0-999");
}

#[test]
fn creates_unique_backup_directory_when_timestamp_collides() {
    let path = format!("{TARGET}/.g1r-streaming-stutter-fix/backups/{}", backup_dir_name(1234, 0));
    match next_backup_dir_step(0, &path, CreateDirOutcome::AlreadyExists) {
        BackupDirStep::Retry(attempt) => assert_eq!(backup_dir_name(1234, attempt), "backup-1234-1"),
        _ => panic!("expected another attempt"),
    }
    assert!(matches!(next_backup_dir_step(1, &path, CreateDirOutcome::Created), BackupDirStep::Done));
    match next_backup_dir_step(999, &path, CreateDirOutcome::AlreadyExists) {
        BackupDirStep::Fail(error) => {
            assert_eq!(error.message(), "could not allocate a unique backup directory")
        }
        _ => panic!("expected the attempts to run out"),
    }
}

#[test]
fn lists_backups_newest_first() {
    let entry = |name: &str, modified: u64, engine: bool| BackupDirEntry {
        path: format!("{TARGET}/.g1r-streaming-stutter-fix/backups/{name}"),
        is_dir: true,
        name: Some(name.to_string()),
        has_engine_ini: engine,
        has_game_ini: false,
        has_scalability_ini: true,
        modified_unix_seconds: modified,
    };
    let mut not_a_folder = entry("notes.txt", 50, true);
    not_a_folder.is_dir = false;
    let entries = vec![
        entry("backup-1", 10, true),
        entry("backup-3", 30, false),
        not_a_folder,
        entry("backup-2", 30, true),
        BackupDirEntry {
            has_scalability_ini: false,
            ..entry("empty", 40, false)
        },
    ];

    let backups = list_backups(&entries);
    let ids: Vec<&str> = backups.iter().map(|backup| backup.id.as_str()).collect();
    assert_eq!(ids, vec!["backup-3", "backup-2", "backup-1"]);
    assert_eq!(backups[0].files, vec!["Scalability.ini".to_string()]);
    assert_eq!(
        backups[1].files,
        vec!["Engine.ini".to_string(), "Scalability.ini".to_string()]
    );
}

#[test]
fn restore_checks_the_backup_first() {
    assert_eq!(
        restore_files("../x", true, true, true, true).unwrap_err().message(),
        "invalid backup id"
    );
    assert_eq!(
        restore_files("backup-1", false, true, true, true).unwrap_err().message(),
        "backup 'backup-1' does not exist"
    );
    assert_eq!(
        restore_files("backup-1", true, true, false, true).unwrap(),
        vec!["Engine.ini".to_string(), "Scalability.ini".to_string()]
    );
    assert_eq!(
        restore_report("backup-1", TARGET, Vec::new()).unwrap_err().message(),
        "backup 'backup-1' contains no managed files"
    );
    let report = restore_report("backup-1", TARGET, vec!["Game.ini".to_string()]).unwrap();
    assert_eq!(report.restored_files, vec!["Game.ini".to_string()]);
}

#[test]
fn managed_files_are_visited_in_name_order() {
    assert_eq!(
        managed_file_names(),
        vec!["Engine.ini".to_string(), "Game.ini".to_string(), "Scalability.ini".to_string()]
    );
}

#[test]
fn report_counts_utf8_bytes() {
    let report = FileInstallReport::for_content("Game.ini", "é=1\n", true);
    assert_eq!(report.bytes_written, 5);
    assert!(report.read_only);
}

#[test]
fn preview_of_bytes_that_are_not_utf8() {
    let mut target = empty_target();
    target.engine = TargetFile {
        path: format!("{TARGET}/Engine.ini"),
        is_file: true,
        read: ReadOutcome::Bytes(vec![b'r', b'=', 0xFF, b'\n']),
    };

    let preview = preview_install(&test_presets(), PRESET_ID, &target, streaming_options()).unwrap();
    let engine_preview = find(&preview, "Engine.ini");
    assert!(engine_preview.target_exists);
    assert_eq!(engine_preview.current_pool_mb, None);
    assert!(!engine_preview.has_external_settings);
    assert_eq!(engine_preview.modification_state, FileModificationState::Untracked);

    let plan = install_preset_with_strategy(
        &test_presets(),
        PRESET_ID,
        &target,
        streaming_options(),
        InstallStrategy::Merge,
    )
    .unwrap();
    assert_eq!(
        plan.writes[0].content.as_ref().unwrap_err().message(),
        "read existing config file '/games/Config/Windows/Engine.ini': stream did not contain valid UTF-8"
    );
}

#[test]
fn unreadable_inactive_file_stops_the_preview() {
    let mut target = empty_target();
    target.engine = TargetFile {
        path: format!("{TARGET}/Engine.ini"),
        is_file: true,
        read: ReadOutcome::Failed("Permission denied (os error 13)".to_string()),
    };
    let options = InstallOptions {
        apply_skip_intro_videos: true,
        ..no_options()
    };

    let error = preview_install(&test_presets(), PRESET_ID, &target, options).unwrap_err();
    assert_eq!(
        error.message(),
        "read existing config file '/games/Config/Windows/Engine.ini': Permission denied (os error 13)"
    );
}

#[test]
fn preview_lists_what_the_install_writes() {
    let mut target = empty_target();
    write_file(&mut target, "Scalability.ini", "[TextureQuality@Cine]\nCustom=1\n");
    let options = InstallOptions {
        lock_engine_ini: true,
        apply_skip_intro_videos: true,
        ..streaming_options()
    };

    let preview = preview_install(&test_presets(), PRESET_ID, &target, options).unwrap();
    let plan = install_preset(&test_presets(), PRESET_ID, &target, options).unwrap();

    let previewed: Vec<&str> = preview.iter().map(|file| file.file_name.as_str()).collect();
    let written: Vec<&str> = plan.writes.iter().map(|write| write.file_name.as_str()).collect();
    assert_eq!(previewed, vec!["Engine.ini", "Scalability.ini", "Game.ini"]);
    assert_eq!(previewed, written);
    let read_only: Vec<bool> = plan.writes.iter().map(|write| write.read_only).collect();
    assert_eq!(read_only, vec![true, false, false]);
    let backed_up: Vec<String> = preview
        .iter()
        .filter(|file| file.will_backup)
        .map(|file| file.file_name.clone())
        .collect();
    assert_eq!(backed_up, plan.backup_files);
}

#[test]
fn copied_contents_match_an_install_into_an_empty_folder() {
    let options = InstallOptions {
        apply_balanced_performance_tweaks: true,
        apply_skip_intro_videos: true,
        ..streaming_options()
    };
    let contents = ini_file_contents(&test_presets(), PRESET_ID, options).unwrap();
    for strategy in [InstallStrategy::Replace, InstallStrategy::Merge] {
        let plan =
            install_preset_with_strategy(&test_presets(), PRESET_ID, &empty_target(), options, strategy).unwrap();
        assert_eq!(plan.writes.len(), contents.len());
        for (write, copy) in plan.writes.iter().zip(contents.iter()) {
            assert_eq!(write.file_name, copy.file_name);
            assert_eq!(write.content.as_ref().unwrap(), &copy.content);
        }
    }
}

#[test]
fn backup_dir_names_of_one_timestamp_all_differ() {
    let names: Vec<String> = (0..50u16).map(|a| backup_dir_name(1234, a)).collect();
    for i in 0..names.len() {
        for j in 0..names.len() {
            if i != j {
                assert_ne!(names[i], names[j]);
            }
        }
    }
    assert_ne!(backup_dir_name(1, 11), backup_dir_name(11, 1));
}

#[test]
fn balanced_performance_tweaks_touch_only_overdose_sections() {
    let files = ini_file_contents(
        &test_presets(),
        PRESET_ID,
        InstallOptions {
            apply_balanced_performance_tweaks: true,
            ..no_options()
        },
    )
    .unwrap();
    let scalability_ini = files.iter().find(|file| file.file_name == "Scalability.ini").unwrap();
    let headers: Vec<&str> = scalability_ini
        .content
        .lines()
        .map(|line| line.trim())
        .filter(|line| line.starts_with('['))
        .collect();
    assert!(headers.len() > 2);
    for header in headers {
        assert!(header == "[TextureQuality@0]" || header.ends_with("@Cine]"), "{header}");
    }
}

#[test]
fn reset_steps_collect_removed_files_and_stop_on_errors() {
    let removed = reset_step(Vec::new(), "Engine.ini", "/cfg/Engine.ini", RemoveOutcome::Removed).unwrap();
    let removed = reset_step(removed, "Game.ini", "/cfg/Game.ini", RemoveOutcome::NotAFile).unwrap();
    let removed = reset_step(removed, "Scalability.ini", "/cfg/Scalability.ini", RemoveOutcome::AlreadyGone).unwrap();
    assert_eq!(removed, vec!["Engine.ini".to_string()]);
    let error = reset_step(removed, "Game.ini", "/cfg/Game.ini", RemoveOutcome::Failed("denied".to_string())).unwrap_err();
    assert_eq!(error.message(), "remove managed config file '/cfg/Game.ini': denied");
}
