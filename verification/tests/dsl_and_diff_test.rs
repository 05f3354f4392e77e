use winereg::registry_dsl::registry;
use winereg::registry_key::RegistryKey;
use winereg::registry_value::{RegistryValue, RegistryValueData};
use winereg::registry_text_diff::{TextDiffExporter, TextDiffParser};
use winereg::registry_comparator::{RegistryComparator, RegistryChange, DiffResult};
use winereg::registry_patcher::PatchOptions;

#[test]
fn replace_key_wipes_contents_and_recreates() {
    let ctx = registry();
    let mut k = ctx.key("SOFTWARE\\App");
    k.value("Old", "1");
    let k2 = k.key("Nested");
    let d = k2.build().modify().replace_key("SOFTWARE\\App");
    let reg = d.build();
    let key = reg.get("SOFTWARE\\App").unwrap();
    assert!(key.get_value("Old").is_none());
    assert_eq!(key.subkeys().len(), 0);
}

#[test]
fn volatile_keys_are_not_written() {
    let ctx = registry();
    let mut k = ctx.key("Temp");
    k.is_volatile(true);
    k.value("V", "x");
    let reg = k.build();
    let out = reg.write_to_string();
    assert!(!out.contains("Temp"));
    assert!(!out.contains("\"V\""));
}

#[test]
fn class_name_and_symlink_are_written_and_read_back() {
    let ctx = registry();
    let mut k = ctx.key("K");
    k.class_name(Some("Shell".into()));
    k.is_symlink(true);
    let reg = k.build();
    let out = reg.write_to_string();
    assert!(out.contains("#class=\"Shell\"\n"));
    assert!(out.contains("#link\n"));
    let parser = winereg::registry_parser::RegistryParser;
    let loaded = parser.load_from_text(&out).expect("reparse");
    let key = loaded.root_key.find_key("K").unwrap();
    assert_eq!(key.class_name, Some("Shell".to_string()));
    assert!(key.is_symlink);
}

#[test]
fn full_path_display_uses_doubled_backslashes() {
    let mut root = RegistryKey::create_root();
    root.create_key_recursive("Software\\App");
    assert_eq!(root.get_full_path("software\\APP").unwrap(), "Software\\\\App");
    assert!(root.get_full_path("Missing").is_none());
}

#[test]
fn diff_parse_error_variants() {
    let parser = TextDiffParser;
    assert!(matches!(parser.parse("~isSymlink:true"), Err(m) if m == "missing ->"));
    assert!(matches!(parser.parse("~isSymlink:maybe->true"), Err(m) if m == "line 1"));
    assert!(matches!(parser.parse("+\"V\" x"), Err(m) if m == "invalid value line"));
    assert!(matches!(parser.parse("+\"V\"=gibberish"), Err(m) if m == "unknown value format"));
}

#[test]
fn diff_export_groups_and_parses_properties() {
    let mut a = RegistryKey::create_root();
    a.create_key_recursive("K");
    let mut b = RegistryKey::create_root();
    b.create_key_recursive("K");
    let segs = winereg::registry_key::split_path_chars(&"K".chars().collect());
    b.update_meta_at(&segs, 0, winereg::registry_key::MetaUpdate::Symlink(true));
    b.update_meta_at(
        &segs,
        0,
        winereg::registry_key::MetaUpdate::ClassName(Some("C".into())),
    );
    let comparator = RegistryComparator;
    let diff = comparator.compare_registries(&a, &b);
    let text = TextDiffExporter.export(&diff, None, None);
    assert!(text.starts_with("# Registry Patch File\n# Generated: "));
    assert!(text.contains("[K]\n"));
    assert!(text.contains("~className:null->\"C\"\n"));
    assert!(text.contains("~isSymlink:false->true\n"));
    let parsed = TextDiffParser.parse(&text).expect("parse");
    assert_eq!(parsed.changes.len(), 1);
    match &parsed.changes[0] {
        RegistryChange::KeyModified(p, props) => {
            assert_eq!(p, "K");
            assert_eq!(props.len(), 2);
        },
        _ => panic!("expected a key modification"),
    }
}

#[test]
fn validation_gates_value_modification() {
    let mut target = RegistryKey::create_root();
    target.create_key_recursive("K");
    let segs = winereg::registry_key::split_path_chars(&"K".chars().collect());
    target.set_value_at(
        &segs,
        0,
        "V",
        RegistryValue::new("V", RegistryValueData::Dword(1)),
        true,
    );
    let change = RegistryChange::ValueModified(
        "K".into(),
        "V".into(),
        RegistryValue::new("V", RegistryValueData::Dword(2)),
        RegistryValue::new("V", RegistryValueData::Dword(3)),
    );
    let diff = DiffResult { changes: vec![change] };
    let options = PatchOptions {
        validate_before_apply: true,
        ..PatchOptions::default()
    };
    let result = target.apply_patch_with(&diff, options);
    assert!(!result.is_success());
    // the stored value was not touched
    let key = target.find_key("K").unwrap();
    assert!(matches!(key.get_value("V").unwrap().data, RegistryValueData::Dword(1)));
}

#[test]
fn applying_a_comparison_reaches_the_target() {
    // A and B overlap, with an addition, a deletion, a modification, and a
    // property change between them.
    let mut a = RegistryKey::create_root();
    a.create_key_recursive("Common\\Gone");
    let ca = winereg::registry_key::split_path_chars(&"Common".chars().collect());
    a.set_value_at(
        &ca,
        0,
        "Keep",
        RegistryValue::new("Keep", RegistryValueData::Dword(1)),
        true,
    );
    a.set_value_at(
        &ca,
        0,
        "Change",
        RegistryValue::new("Change", RegistryValueData::String("old".into())),
        true,
    );
    a.set_value_at(
        &ca,
        0,
        "Drop",
        RegistryValue::new("Drop", RegistryValueData::Dword(9)),
        true,
    );

    let mut b = RegistryKey::create_root();
    b.create_key_recursive("Common\\Fresh");
    let cb = winereg::registry_key::split_path_chars(&"Common".chars().collect());
    b.set_value_at(
        &cb,
        0,
        "Keep",
        RegistryValue::new("Keep", RegistryValueData::Dword(1)),
        true,
    );
    b.set_value_at(
        &cb,
        0,
        "Change",
        RegistryValue::new("Change", RegistryValueData::String("new".into())),
        true,
    );
    // a property change on a key both sides share
    b.update_meta_at(
        &winereg::registry_key::split_path_chars(&"Common".chars().collect()),
        0,
        winereg::registry_key::MetaUpdate::ClassName(Some("Shared".into())),
    );

    let comparator = RegistryComparator;
    let diff = comparator.compare_registries(&a, &b);
    assert!(diff.has_changes());
    let result = a.apply_patch(&diff);
    assert!(result.is_success());
    let after = comparator.compare_registries(&a, &b);
    assert!(!after.has_changes());
}

#[test]
fn diff_round_trip_keeps_every_change() {
    let mut a = RegistryKey::create_root();
    a.create_key_recursive("Old");
    let mut b = RegistryKey::create_root();
    b.create_key_recursive("New\\Deep");
    let nb = winereg::registry_key::split_path_chars(&"New".chars().collect());
    b.set_value_at(
        &nb,
        0,
        "S",
        RegistryValue::new("S", RegistryValueData::String("v".into())),
        true,
    );
    b.set_value_at(
        &nb,
        0,
        "M",
        RegistryValue::new("M", RegistryValueData::MultiString(vec!["p".into(), "q".into()])),
    true,
    );
    b.set_value_at(
        &nb,
        0,
        "Q",
        RegistryValue::new("Q", RegistryValueData::Qword(7)),
        true,
    );
    let comparator = RegistryComparator;
    let diff = comparator.compare_registries(&a, &b);
    let text = TextDiffExporter.export(&diff, None, None);
    let parsed = TextDiffParser.parse(&text).expect("parse diff");
    assert_eq!(diff.changes.len(), parsed.changes.len());
    // applying the parsed diff reproduces the target
    let mut target = a;
    let result = target.apply_patch(&parsed);
    assert!(result.is_success());
    assert!(!comparator.compare_registries(&target, &b).has_changes());
}
