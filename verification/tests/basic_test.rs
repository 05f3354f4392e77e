use winereg::registry_key::RegistryKey;
use winereg::registry_value::{RegistryValue, RegistryValueData};
use winereg::registry_comparator::RegistryComparator;
use winereg::registry_patcher::{RegistryPatcher, PatchOptions};

#[test]
fn should_create_basic_registry_key() {
    let key = RegistryKey::create_root();
    assert!(key.subkeys().len() == 0);
    assert!(key.values().len() == 0);
}

#[test]
fn should_create_and_set_string_value() {
    let mut root = RegistryKey::create_root();
    root.set_value(
        "TestValue",
        RegistryValue::new("TestValue", RegistryValueData::String("Hello World".into())),
    );
    let retrieved = root.get_value("TestValue").unwrap();
    assert_eq!(
        "Hello World",
        match retrieved.data {
            RegistryValueData::String(ref s) => s,
            _ => panic!("expected string"),
        }
    );
}

#[test]
fn should_create_subkeys() {
    let mut root = RegistryKey::create_root();
    root.create_subkey("Child");
    let child = root.get_subkey("Child").unwrap();
    assert_eq!("Child", child.name);
    assert!(root.find_key("Child").is_some());
}

#[test]
fn should_create_comparator_and_patcher() {
    let comparator = RegistryComparator;
    let patcher = RegistryPatcher;
    let a = RegistryKey::create_root();
    let b = RegistryKey::create_root();
    let diff = comparator.compare_registries(&a, &b);
    let mut target = RegistryKey::create_root();
    let res = patcher.apply_patch(&mut target, &diff, PatchOptions::default());
    assert!(res.is_success());
}
