use winereg::registry_key::RegistryKey;
use winereg::registry_value::{RegistryValue, RegistryValueData};
use winereg::registry_comparator::{DiffResult, RegistryChange};
use winereg::registry_patcher::{RegistryPatcher, PatchOptions};

#[test]
fn patcher_applies_changes() {
    let mut target = RegistryKey::create_root();
    let mut changes = Vec::new();
    changes.push(RegistryChange::KeyAdded("SOFTWARE\\NewApp".into()));
    changes.push(RegistryChange::ValueAdded(
        "SOFTWARE\\NewApp".into(),
        "Version".into(),
        RegistryValue::new("Version", RegistryValueData::String("1.0".into())),
    ));
    let diff = DiffResult { changes };
    let patcher = RegistryPatcher;
    let result = patcher.apply_patch(&mut target, &diff, PatchOptions::default());
    assert!(result.is_success());
    let key = target.find_key("SOFTWARE\\NewApp").unwrap();
    assert!(key.get_value("Version").is_some());
}

#[test]
fn patcher_respects_create_missing_keys_flag() {
    let mut target = RegistryKey::create_root();
    let diff = DiffResult {
        changes: vec![RegistryChange::KeyAdded("SOFTWARE\\Missing\\Child".into())],
    };
    let patcher = RegistryPatcher;
    let options = PatchOptions {
        create_missing_keys: false,
        ..PatchOptions::default()
    };

    let result = patcher.apply_patch(&mut target, &diff, options);

    assert!(!result.is_success());
    assert_eq!(0, result.applied_count());
    assert!(result.failed_count() >= 1);
    assert!(target.find_key("SOFTWARE\\Missing\\Child").is_none());
}

#[test]
fn patcher_can_delete_empty_key_chains() {
    let mut root = RegistryKey::create_root();
    root.create_key_recursive("SOFTWARE\\Temp\\Leaf");
    let p = winereg::registry_key::split_path_chars(&"SOFTWARE\\Temp\\Leaf".chars().collect());
    root.set_value_at(
        &p,
        0,
        "Only",
        RegistryValue::new("Only", RegistryValueData::String("tmp".into())),
        true,
    );

    let diff = DiffResult {
        changes: vec![RegistryChange::ValueDeleted(
            "SOFTWARE\\Temp\\Leaf".into(),
            "Only".into(),
            RegistryValue::new("Only", RegistryValueData::String("tmp".into())),
        )],
    };
    let patcher = RegistryPatcher;
    let options = PatchOptions {
        delete_empty_keys: true,
        ..PatchOptions::default()
    };
    let result = patcher.apply_patch(&mut root, &diff, options);

    assert!(result.is_success());
    assert_eq!(1, result.applied_count());
    assert!(root.find_key("SOFTWARE\\Temp\\Leaf").is_none());
    assert!(root.find_key("SOFTWARE\\Temp").is_none());
}
