use optimizer_core::hardware::{
    bytes_to_mb_u32, bytes_to_mb_u64, drm_gpu_from_path, dxgi_gpu, hardware_snapshot, is_drm_card,
    nvml_gpu, read_u64, read_vendor, vendor_from_id, vendor_label, wide_name,
};
use optimizer_core::{detect_linux_gpus, GpuInfo, GpuVendor, HardwareConfidence};

fn named(name: &str, vendor: GpuVendor) -> GpuInfo {
    GpuInfo {
        name: name.to_string(),
        vendor,
        dedicated_vram_mb: Some(8192),
        shared_memory_mb: None,
        source: "Linux DRM sysfs".to_string(),
        confidence: HardwareConfidence::High,
    }
}

#[test]
fn converts_bytes_to_whole_mebibytes() {
    assert_eq!(bytes_to_mb_u64(8 * 1024 * 1024 * 1024), 8192);
    assert_eq!(bytes_to_mb_u64(1024 * 1024 - 1), 0);
    assert_eq!(bytes_to_mb_u32(20 * 1024 * 1024 * 1024), Some(20480));
    assert_eq!(bytes_to_mb_u32(u64::MAX), None);
}

#[test]
fn recognizes_drm_cards() {
    assert!(is_drm_card("card0"));
    assert!(is_drm_card("card12"));
    assert!(!is_drm_card("card"));
    assert!(!is_drm_card("card0-DP-1"));
    assert!(!is_drm_card("renderD128"));
}

#[test]
fn reads_sysfs_vendor_and_numbers() {
    assert_eq!(read_vendor(Some("0x1002\n")), GpuVendor::Amd);
    assert_eq!(read_vendor(Some(" 0x8086 ")), GpuVendor::Intel);
    assert_eq!(read_vendor(Some("0x10de")), GpuVendor::Nvidia);
    assert_eq!(read_vendor(Some("0x1414")), GpuVendor::Unknown);
    assert_eq!(read_vendor(None), GpuVendor::Unknown);
    assert_eq!(read_u64(Some("17163091968\n")), Some(17_163_091_968));
    assert_eq!(read_u64(Some("  \n")), None);
    assert_eq!(read_u64(Some("-1")), None);
}

#[test]
fn builds_drm_gpus() {
    let gpu = drm_gpu_from_path(Some("card1"), Some("0x1002\n"), Some("21458059264\n")).unwrap();
    assert_eq!(gpu.name, "AMD card1");
    assert_eq!(gpu.vendor, GpuVendor::Amd);
    assert_eq!(gpu.dedicated_vram_mb, Some(20464));
    assert_eq!(gpu.source, "Linux DRM sysfs");
    assert_eq!(gpu.confidence, HardwareConfidence::High);

    let unknown = drm_gpu_from_path(Some("card0"), None, None).unwrap();
    assert_eq!(unknown.name, "GPU card0");
    assert_eq!(unknown.confidence, HardwareConfidence::Low);

    assert!(drm_gpu_from_path(None, Some("0x1002"), None).is_none());
}

#[test]
fn builds_nvml_gpus() {
    let gpu = nvml_gpu(0, Some("NVIDIA GeForce RTX 4080".to_string()), Some(17_171_480_576));
    assert_eq!(gpu.name, "NVIDIA GeForce RTX 4080");
    assert_eq!(gpu.dedicated_vram_mb, Some(16376));
    assert_eq!(gpu.vendor, GpuVendor::Nvidia);
    assert_eq!(gpu.source, "NVIDIA NVML");
    let unnamed = nvml_gpu(3, None, None);
    assert_eq!(unnamed.name, "NVIDIA GPU 3");
    assert_eq!(unnamed.confidence, HardwareConfidence::Low);
}

#[test]
fn nvml_replaces_nvidia_drm_cards() {
    let drm = vec![named("AMD card0", GpuVendor::Amd), named("NVIDIA card1", GpuVendor::Nvidia)];
    let nvml = vec![nvml_gpu(0, Some("RTX".to_string()), Some(8 << 30))];
    let gpus = detect_linux_gpus(drm.clone(), nvml);
    let names: Vec<&str> = gpus.iter().map(|gpu| gpu.name.as_str()).collect();
    assert_eq!(names, vec!["AMD card0", "RTX"]);

    let kept = detect_linux_gpus(drm.clone(), Vec::new());
    assert_eq!(kept, drm);
}

#[test]
fn maps_vendor_ids_and_labels() {
    assert_eq!(vendor_from_id(0x1002), GpuVendor::Amd);
    assert_eq!(vendor_from_id(0x8086), GpuVendor::Intel);
    assert_eq!(vendor_from_id(0x10de), GpuVendor::Nvidia);
    assert_eq!(vendor_from_id(0x1414), GpuVendor::Microsoft);
    assert_eq!(vendor_from_id(0x1234), GpuVendor::Unknown);
    assert_eq!(vendor_label(GpuVendor::Unknown), "GPU");
    assert_eq!(vendor_label(GpuVendor::Nvidia), "NVIDIA");
}

#[test]
fn builds_dxgi_gpus() {
    let gpu = dxgi_gpu("Radeon RX 7900 XT".to_string(), 0x1002, 20 << 30, 16 << 30, 0);
    assert_eq!(gpu.dedicated_vram_mb, Some(20480));
    assert_eq!(gpu.shared_memory_mb, Some(16384));
    assert_eq!(gpu.confidence, HardwareConfidence::High);
    let software = dxgi_gpu("Microsoft Basic Render Driver".to_string(), 0x1414, 0, 1 << 30, 2);
    assert_eq!(software.vendor, GpuVendor::Microsoft);
    assert_eq!(software.confidence, HardwareConfidence::Low);
}

#[test]
fn reads_wide_adapter_names() {
    let mut units: Vec<u16> = "  Radeon RX 7900 XT ".encode_utf16().collect();
    units.push(0);
    units.extend("garbage".encode_utf16());
    assert_eq!(wide_name(&units), "Radeon RX 7900 XT");
    let unterminated: Vec<u16> = "GPU".encode_utf16().collect();
    assert_eq!(wide_name(&unterminated), "GPU");
    assert_eq!(wide_name(&[0xD800, 0x41]), "\u{FFFD}A");
    assert_eq!(wide_name(&[0xD83D, 0xDE00, 0xDE00, 0x42, 0]), "\u{1F600}\u{FFFD}B");
}

#[test]
fn assembles_the_snapshot() {
    let snapshot = hardware_snapshot(Vec::new(), Some(32 << 30), Some("  AMD Ryzen 7 9800X3D "), Some(16), "Linux", Some("6.9"));
    assert_eq!(snapshot.system_ram_mb, Some(32768));
    assert_eq!(snapshot.cpu_name.as_deref(), Some("AMD Ryzen 7 9800X3D"));
    assert_eq!(snapshot.logical_cores, Some(16));
    assert_eq!(snapshot.os_runtime, "Linux 6.9");
    let bare = hardware_snapshot(Vec::new(), None, Some("   "), None, "Windows", Some(""));
    assert_eq!(bare.cpu_name, None);
    assert_eq!(bare.system_ram_mb, None);
    assert_eq!(bare.os_runtime, "Windows");
}
