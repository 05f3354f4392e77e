use winereg::registry_key::RegistryKey;
use winereg::registry_value::{RegistryValue, RegistryValueData};
use winereg::registry_comparator::RegistryComparator;
use winereg::registry_patcher::{RegistryPatcher, PatchOptions};
use winereg::registry_text_diff::{TextDiffExporter, TextDiffParser};

#[test]
fn text_diff_export_and_parse_round_trip() {
    let key1 = RegistryKey::create_root();
    let mut key2 = RegistryKey::create_root();
    key2.create_key_recursive("SOFTWARE\\Test");
    let p = winereg::registry_key::split_path_chars(&"SOFTWARE\\Test".chars().collect());
    key2.set_value_at(
        &p,
        0,
        "Version",
        RegistryValue::new("Version", RegistryValueData::String("1.0".into())),
        true,
    );
    let comparator = RegistryComparator;
    let diff = comparator.compare_registries(&key1, &key2);
    let exporter = TextDiffExporter;
    let text = exporter.export(&diff, None, None);
    let parser = TextDiffParser;
    let parsed = parser.parse(&text).expect("parse text diff");
    assert_eq!(diff.changes.len(), parsed.changes.len());
}

#[test]
fn text_diff_export_parse_and_apply_produces_identical_registry() {
    let mut base = RegistryKey::create_root();
    let mut desired = RegistryKey::create_root();
    desired.create_key_recursive("Software\\Example");
    let p = winereg::registry_key::split_path_chars(&"Software\\Example".chars().collect());
    desired.set_value_at(
        &p,
        0,
        "Version",
        RegistryValue::new("Version", RegistryValueData::String("1.2.3".into())),
        true,
    );
    desired.set_value_at(
        &p,
        0,
        "Enabled",
        RegistryValue::new("Enabled", RegistryValueData::Dword(1)),
        true,
    );

    let comparator = RegistryComparator;
    let diff = comparator.compare_registries(&base, &desired);
    let exporter = TextDiffExporter;
    let text = exporter.export(&diff, Some("old.reg"), Some("new.reg"));
    let parser = TextDiffParser;
    let parsed = parser.parse(&text).expect("parse diff text");

    let patcher = RegistryPatcher;
    let result = patcher.apply_patch(&mut base, &parsed, PatchOptions::default());
    assert!(result.is_success());

    let final_diff = comparator.compare_registries(&base, &desired);
    assert!(!final_diff.has_changes());
}
