use optimizer_core::ini_merge::{has_external_ini_settings, has_managed_ini_settings, merge_ini_content};
use optimizer_core::installer::extract_pool_size;

fn chars(s: &str) -> Vec<char> {
    s.chars().collect()
}

#[test]
fn merge_without_existing_text_writes_the_planned_text() {
    let planned = "[SystemSettings]\nr.Streaming.PoolSize=4096\n";
    assert_eq!(merge_ini_content(None, planned, planned), planned);
    assert_eq!(merge_ini_content(Some("  \n\n"), planned, planned), planned);
}

#[test]
fn merge_sets_planned_keys_and_keeps_the_rest() {
    let existing = "[SystemSettings]\nr.Streaming.PoolSize=1024\nCustom=1\n";
    let planned = "[SystemSettings]\nr.Streaming.PoolSize=4096\n";
    let merged = merge_ini_content(Some(existing), planned, planned);
    assert_eq!(merged, "[SystemSettings]\nr.Streaming.PoolSize=4096\nCustom=1\n");
}

#[test]
fn merge_keeps_windows_line_endings() {
    let existing = "[SystemSettings]\r\nCustom=1\r\n";
    let planned = "[SystemSettings]\nr.Streaming.PoolSize=4096\n";
    let merged = merge_ini_content(Some(existing), planned, planned);
    assert!(merged.contains("\r\n"));
    assert!(merged.contains("r.Streaming.PoolSize=4096"));
    assert!(merged.contains("Custom=1"));
}

#[test]
fn tells_external_from_managed_settings() {
    let managed = "[SystemSettings]\nr.Streaming.PoolSize=4096\n";
    assert!(!has_external_ini_settings("[SystemSettings]\nr.Streaming.PoolSize=1\n", managed));
    assert!(has_external_ini_settings("[SystemSettings]\nOther=1\n", managed));
    assert!(has_managed_ini_settings("[SystemSettings]\nr.Streaming.PoolSize=1\n", managed));
    assert!(!has_managed_ini_settings("[Other]\nr.Streaming.PoolSize=1\n", managed));
}

#[test]
fn extracts_the_first_pool_size() {
    assert_eq!(extract_pool_size(&chars("; r.Streaming.PoolSize=1\n r.Streaming.PoolSize = 2048 \nr.Streaming.PoolSize=4096\n")), Some(2048));
    assert_eq!(extract_pool_size(&chars("# r.Streaming.PoolSize=1\n")), None);
    assert_eq!(extract_pool_size(&chars("r.Streaming.PoolSize=abc\nr.Streaming.PoolSize=7\n")), Some(7));
    assert_eq!(extract_pool_size(&chars("r.Streaming.PoolSize=4294967296\n")), None);
}

#[test]
fn merge_writes_the_planned_value_and_keeps_the_line_layout() {
    let existing = "[SystemSettings]\nr.Fog = 1 ; mine\nr.Fog=2\nCustom=1\n";
    let planned = "[SystemSettings]\nr.Fog=0\n";
    let merged = merge_ini_content(Some(existing), planned, planned);
    assert_eq!(merged, "[SystemSettings]\nr.Fog = 0 ; mine\nCustom=1\n");
}

#[test]
fn merge_into_an_empty_value_with_a_comment_joins_value_and_comment() {
    let existing = "[SystemSettings]\nr.Fog= ;x\n";
    let planned = "[SystemSettings]\nr.Fog=5\n";
    let merged = merge_ini_content(Some(existing), planned, planned);
    assert_eq!(merged, "[SystemSettings]\nr.Fog= 5;x\n");
}

#[test]
fn merge_keeps_custom_lines_in_order_and_blank_lines_tidy() {
    let existing = "\n\n[SystemSettings]\nB=2\n\n\nr.Streaming.PoolSize=1\nA=1\n\n\n";
    let planned = "[SystemSettings]\nr.Streaming.PoolSize=4096\n";
    let merged = merge_ini_content(Some(existing), planned, planned);
    assert_eq!(merged, "[SystemSettings]\nB=2\n\nr.Streaming.PoolSize=4096\nA=1\n");
}
