use optimizer_core::presets::{parse_preset_id, PresetDirEntry};
use optimizer_core::{find_preset, list_presets, Preset};

fn entry(name: &str, engine: bool, scalability: bool) -> PresetDirEntry {
    PresetDirEntry {
        directory: format!("/presets/{name}"),
        is_dir: true,
        name: Some(name.to_string()),
        engine_ini: format!("/presets/{name}/Engine.ini"),
        engine_ini_is_file: engine,
        scalability_ini: format!("/presets/{name}/Scalability.ini"),
        scalability_ini_is_file: scalability,
    }
}

#[test]
fn parses_vram_preset_ids() {
    assert_eq!(parse_preset_id("04GB_VRAM_1536MB"), Some((4, 1536)));
    assert_eq!(parse_preset_id("20GB_VRAM_10240MB"), Some((20, 10240)));
    assert_eq!(parse_preset_id("README"), None);
}

#[test]
fn rejects_malformed_preset_ids() {
    assert_eq!(parse_preset_id("08GB_VRAM_4096"), None);
    assert_eq!(parse_preset_id("xxGB_VRAM_4096MB"), None);
    assert_eq!(parse_preset_id("08GB_VRAM_MB"), None);
    assert_eq!(parse_preset_id("4294967296GB_VRAM_1MB"), None);
    assert_eq!(parse_preset_id("+8GB_VRAM_4096MB"), Some((8, 4096)));
}

#[test]
fn lists_presets_by_vram_then_pool() {
    let mut not_a_folder = entry("06GB_VRAM_2048MB", true, true);
    not_a_folder.is_dir = false;
    let entries = vec![
        entry("12GB_VRAM_6144MB", true, true),
        entry("README", true, true),
        entry("08GB_VRAM_4096MB", true, true),
        entry("08GB_VRAM_3072MB", true, true),
        entry("10GB_VRAM_5120MB", true, false),
        not_a_folder,
        PresetDirEntry {
            name: None,
            ..entry("16GB_VRAM_8192MB", true, true)
        },
    ];

    let presets = list_presets(&entries);
    let ids: Vec<&str> = presets.iter().map(|preset| preset.id.as_str()).collect();
    assert_eq!(ids, vec!["08GB_VRAM_3072MB", "08GB_VRAM_4096MB", "12GB_VRAM_6144MB"]);
    assert_eq!(presets[2].vram_gb, 12);
    assert_eq!(presets[2].pool_mb, 6144);
    assert_eq!(presets[2].engine_ini, "/presets/12GB_VRAM_6144MB/Engine.ini");
}

#[test]
fn finds_presets_by_id() {
    let presets = list_presets(&vec![entry("08GB_VRAM_4096MB", true, true)]);
    let preset: Preset = find_preset(&presets, "08GB_VRAM_4096MB").unwrap();
    assert_eq!(preset.label(), "8 GB VRAM / 4096 MB pool");
    assert_eq!(
        find_preset(&presets, "04GB_VRAM_1536MB").unwrap_err().message(),
        "unknown preset '04GB_VRAM_1536MB'"
    );
}
