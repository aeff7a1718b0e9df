use optimizer_core::{
    recommend_preset_for_hardware, GpuInfo, GpuVendor, HardwareConfidence, HardwareSnapshot, Preset,
};

fn gpu(
    name: &str,
    vendor: GpuVendor,
    dedicated_vram_mb: Option<u32>,
    confidence: HardwareConfidence,
) -> GpuInfo {
    GpuInfo {
        name: name.to_string(),
        vendor,
        dedicated_vram_mb,
        shared_memory_mb: None,
        source: "test".to_string(),
        confidence,
    }
}

fn pool_for_vram(vram_gb: u32) -> u32 {
    match vram_gb {
        4 => 1536,
        _ => vram_gb * 512,
    }
}

fn test_presets(vram_values: &[u32]) -> Vec<Preset> {
    vram_values
        .iter()
        .map(|vram_gb| Preset {
            id: format!("{vram_gb:02}GB_VRAM_{}MB", pool_for_vram(*vram_gb)),
            directory: format!("{vram_gb:02}GB_VRAM"),
            vram_gb: *vram_gb,
            pool_mb: pool_for_vram(*vram_gb),
            engine_ini: "Engine.ini".to_string(),
            scalability_ini: "Scalability.ini".to_string(),
        })
        .collect()
}

fn snapshot(gpus: Vec<GpuInfo>, os_runtime: &str) -> HardwareSnapshot {
    HardwareSnapshot {
        gpus,
        system_ram_mb: None,
        cpu_name: None,
        logical_cores: None,
        os_runtime: os_runtime.to_string(),
    }
}

#[test]
fn recommends_exact_vram_preset_for_best_dedicated_gpu() {
    let presets = test_presets(&[4, 8, 12, 20]);
    let snapshot = HardwareSnapshot {
        gpus: vec![
            gpu("Integrated GPU", GpuVendor::Intel, None, HardwareConfidence::Low),
            gpu("Radeon RX 7900 XT", GpuVendor::Amd, Some(20 * 1024), HardwareConfidence::High),
        ],
        system_ram_mb: Some(32 * 1024),
        cpu_name: Some("AMD Ryzen 7 9800X3D".to_string()),
        logical_cores: Some(16),
        os_runtime: "Linux".to_string(),
    };

    let recommendation = recommend_preset_for_hardware(&presets, &snapshot).unwrap();

    assert_eq!(recommendation.preset_id, "20GB_VRAM_10240MB");
    assert_eq!(recommendation.detected_vram_mb, 20 * 1024);
    assert!(recommendation.reason.contains("20 GB VRAM"));
}

#[test]
fn rounds_down_to_nearest_available_preset() {
    let presets = test_presets(&[4, 8, 10, 12]);
    let snapshot = snapshot(
        vec![gpu("Unknown 11 GB GPU", GpuVendor::Unknown, Some(11 * 1024), HardwareConfidence::Medium)],
        "Windows",
    );

    let recommendation = recommend_preset_for_hardware(&presets, &snapshot).unwrap();

    assert_eq!(recommendation.preset_id, "10GB_VRAM_5120MB");
    assert_eq!(recommendation.detected_vram_mb, 11 * 1024);
}

#[test]
fn allows_small_reported_vram_gap_for_high_vram_cards() {
    let presets = test_presets(&[12, 16, 20, 24]);
    let snapshot = snapshot(
        vec![gpu("Radeon RX 7900 XT", GpuVendor::Amd, Some(19 * 1024), HardwareConfidence::High)],
        "Linux",
    );

    let recommendation = recommend_preset_for_hardware(&presets, &snapshot).unwrap();

    assert_eq!(recommendation.preset_id, "20GB_VRAM_10240MB");
    assert_eq!(recommendation.detected_vram_mb, 19 * 1024);
}

#[test]
fn skips_low_confidence_or_missing_vram() {
    let presets = test_presets(&[4, 8, 12]);
    let snapshot = HardwareSnapshot {
        gpus: vec![
            gpu("Software Adapter", GpuVendor::Unknown, None, HardwareConfidence::Low),
            gpu("Shared Memory GPU", GpuVendor::Intel, Some(8 * 1024), HardwareConfidence::Low),
        ],
        system_ram_mb: Some(16 * 1024),
        cpu_name: None,
        logical_cores: Some(8),
        os_runtime: "Windows".to_string(),
    };

    assert_eq!(recommend_preset_for_hardware(&presets, &snapshot), None);
}

#[test]
fn reason_names_whole_gigabytes_and_the_gpu() {
    let presets = test_presets(&[8]);
    let snapshot = snapshot(
        vec![gpu("GeForce RTX 3070", GpuVendor::Nvidia, Some(8191), HardwareConfidence::High)],
        "Linux",
    );
    let recommendation = recommend_preset_for_hardware(&presets, &snapshot).unwrap();
    assert_eq!(
        recommendation.reason,
        "Detected 7 GB VRAM on GeForce RTX 3070. This preset is recommended."
    );
    assert_eq!(recommendation.gpu_name, "GeForce RTX 3070");
    assert_eq!(recommendation.confidence, HardwareConfidence::High);
}

#[test]
fn picks_the_last_of_equally_large_gpus_and_presets() {
    let mut presets = test_presets(&[8, 8]);
    presets[1].id = "08GB_VRAM_5000MB".to_string();
    let snapshot = snapshot(
        vec![
            gpu("First", GpuVendor::Amd, Some(8192), HardwareConfidence::High),
            gpu("Second", GpuVendor::Amd, Some(8192), HardwareConfidence::Medium),
        ],
        "Linux",
    );
    let recommendation = recommend_preset_for_hardware(&presets, &snapshot).unwrap();
    assert_eq!(recommendation.gpu_name, "Second");
    assert_eq!(recommendation.preset_id, "08GB_VRAM_5000MB");
}

#[test]
fn no_preset_fits_a_small_gpu() {
    let presets = test_presets(&[8, 12]);
    let snapshot = snapshot(
        vec![gpu("Small", GpuVendor::Intel, Some(4096), HardwareConfidence::High)],
        "Linux",
    );
    assert_eq!(recommend_preset_for_hardware(&presets, &snapshot), None);
}

#[test]
fn a_gpu_supports_a_preset_of_its_own_size() {
    let presets = test_presets(&[8, 12]);
    let snapshot = snapshot(
        vec![gpu("Exact", GpuVendor::Amd, Some(8 * 1024), HardwareConfidence::High)],
        "Linux",
    );
    let recommendation = recommend_preset_for_hardware(&presets, &snapshot).unwrap();
    assert_eq!(recommendation.preset_id, "08GB_VRAM_4096MB");
}
