use optimizer_core::content::{
    engine_ini_content_with_options, managed_files_vec, streaming_preset_content_with_custom_pool, ConfigFile,
    D3D12_PSO_CACHE_ENGINE_SETTINGS, GC_SMOOTHING_ENGINE_SETTINGS,
};
use optimizer_core::installer::PresetSource;
use optimizer_core::{ini_file_contents, InstallOptions, Preset};

fn chars(s: &str) -> Vec<char> {
    s.chars().collect()
}

fn text(v: &[char]) -> String {
    v.iter().collect()
}

fn options() -> InstallOptions {
    InstallOptions {
        lock_engine_ini: false,
        lock_game_ini: false,
        lock_scalability_ini: false,
        custom_pool_mb: None,
        apply_streaming_fixes: true,
        apply_balanced_performance_tweaks: false,
        apply_disable_volumetric_fog: false,
        apply_low_volumetric_fog: false,
        apply_skip_intro_videos: false,
        apply_d3d12_pso_cache: false,
        apply_runtime_pso_precaching: false,
        apply_gc_smoothing: false,
    }
}

#[test]
fn custom_pool_rewrites_pool_lines_and_adds_a_comment() {
    let preset = "; note\n[SystemSettings]\nr.Streaming.PoolSize=4096\n  r.Streaming.PoolSize = 1\nOther=2\n";
    assert_eq!(text(&streaming_preset_content_with_custom_pool(&chars(preset), None)), preset);
    let out = text(&streaming_preset_content_with_custom_pool(&chars(preset), Some(8192)));
    assert_eq!(
        out,
        "; note\n; Preset: Custom / 8192 MB pool\n[SystemSettings]\nr.Streaming.PoolSize=8192\nr.Streaming.PoolSize=8192\nOther=2\n"
    );
    let with_comment = "; Preset: 8 GB\n[SystemSettings]\nr.Streaming.PoolSize=4096";
    let out = text(&streaming_preset_content_with_custom_pool(&chars(with_comment), Some(512)));
    assert_eq!(out, "; Preset: Custom / 512 MB pool\n[SystemSettings]\nr.Streaming.PoolSize=512");
}

#[test]
fn engine_text_keeps_the_preset_first_and_ends_with_the_d3d12_block() {
    let preset = "[SystemSettings]\nr.TextureStreaming=1\n\n  ";
    let plain = text(&engine_ini_content_with_options(&chars(preset), options()));
    assert_eq!(plain, "[SystemSettings]\nr.TextureStreaming=1");
    let all = InstallOptions { apply_gc_smoothing: true, apply_d3d12_pso_cache: true, ..options() };
    let out = text(&engine_ini_content_with_options(&chars(preset), all));
    assert!(out.starts_with("[SystemSettings]\nr.TextureStreaming=1"));
    assert!(out.ends_with(D3D12_PSO_CACHE_ENGINE_SETTINGS.trim_start()));
    assert_eq!(out.matches("[SystemSettings]").count(), 1);
    assert!(out.contains("gc.AllowParallelGC=1"));
    assert!(GC_SMOOTHING_ENGINE_SETTINGS.contains("[SystemSettings]"));
}

#[test]
fn managed_files_follow_the_lock_options() {
    let o = InstallOptions { lock_engine_ini: true, lock_game_ini: true, ..options() };
    let files = managed_files_vec(&chars("[A]\nx=1\n"), &chars("[B]\ny=1\n"), o);
    assert_eq!(files.len(), 3);
    assert!(matches!(files[0].file, ConfigFile::Engine));
    assert!(matches!(files[1].file, ConfigFile::Scalability));
    assert!(matches!(files[2].file, ConfigFile::Game));
    assert!(files[0].read_only && !files[1].read_only && files[2].read_only);
    assert!(files[2].content.is_empty());
    let skip = managed_files_vec(&chars("[A]\n"), &chars("[B]\n"), InstallOptions { apply_skip_intro_videos: true, ..options() });
    assert!(!skip[2].content.is_empty());
    assert!(text(&files[0].managed_content).contains(GC_SMOOTHING_ENGINE_SETTINGS));
}

#[test]
fn copy_contents_ignore_the_lock_options() {
    let presets = vec![PresetSource {
        preset: Preset {
            id: "08GB_VRAM_4096MB".to_string(),
            directory: "/p".to_string(),
            vram_gb: 8,
            pool_mb: 4096,
            engine_ini: "/p/Engine.ini".to_string(),
            scalability_ini: "/p/Scalability.ini".to_string(),
        },
        engine_text: Ok("[SystemSettings]\nr.Streaming.PoolSize=4096\n".to_string()),
        scalability_text: Ok("[TextureQuality@Cine]\nr.Streaming.PoolSize=4096\n".to_string()),
    }];
    let a = ini_file_contents(&presets, "08GB_VRAM_4096MB", options()).unwrap();
    let locked = InstallOptions { lock_engine_ini: true, lock_game_ini: true, lock_scalability_ini: true, ..options() };
    let b = ini_file_contents(&presets, "08GB_VRAM_4096MB", locked).unwrap();
    assert_eq!(a, b);
    assert!(a.iter().all(|f| f.file_name != "Game.ini"));
    let skip = ini_file_contents(&presets, "08GB_VRAM_4096MB", InstallOptions { apply_skip_intro_videos: true, ..options() }).unwrap();
    assert_eq!(skip.last().unwrap().file_name, "Game.ini");
}

#[test]
fn system_settings_header_is_added_once_and_only_when_needed() {
    let other = "[Core.System]\nPaths=x\n";
    let o = InstallOptions {
        apply_disable_volumetric_fog: true,
        apply_runtime_pso_precaching: true,
        apply_gc_smoothing: true,
        ..options()
    };
    let out = text(&engine_ini_content_with_options(&chars(other), o));
    assert_eq!(out.lines().filter(|l| l.trim() == "[SystemSettings]").count(), 1);
    let none = text(&engine_ini_content_with_options(&chars(other), InstallOptions { apply_d3d12_pso_cache: true, ..options() }));
    assert_eq!(none.lines().filter(|l| l.trim() == "[SystemSettings]").count(), 0);
}

#[test]
fn custom_pool_text_reads_back_as_its_lines() {
    for preset in ["[S]\nr.Streaming.PoolSize=1\n", "[S]\r\nr.Streaming.PoolSize=1", "", "x=1\n\n"] {
        let out = text(&streaming_preset_content_with_custom_pool(&chars(preset), Some(1024)));
        assert_eq!(out.ends_with('\n'), preset.ends_with('\n'));
        assert!(out.lines().any(|l| l == "; Preset: Custom / 1024 MB pool"));
        assert!(out.lines().all(|l| !l.starts_with("r.Streaming.PoolSize") || l == "r.Streaming.PoolSize=1024"));
    }
}
