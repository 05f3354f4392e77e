use winereg::registry_key::RegistryKey;
use winereg::registry_value::{RegistryValue, RegistryValueData};
use winereg::registry_comparator::{RegistryComparator, DiffResult, RegistryChange, values_equal};
use winereg::registry_patcher::{RegistryPatcher, PatchOptions};
use winereg::registry_parser::{RegistryParser, ParseError};
use winereg::registry_writer::RegistryWriter;
use winereg::registry_utils::{timestamp_to_filetime, filetime_to_timestamp};
use winereg::architecture::Architecture;

fn leaf_path(p: &str) -> Vec<Vec<char>> {
    winereg::registry_key::split_path_chars(&p.chars().collect())
}

#[test]
fn comparing_a_tree_with_itself_yields_nothing() {
    let mut k = RegistryKey::create_root();
    k.create_key_recursive("A\\B");
    k.set_value_at(
        &leaf_path("A\\B"),
        0,
        "V",
        RegistryValue::new("V", RegistryValueData::Dword(7)),
        true,
    );
    let comparator = RegistryComparator;
    let diff = comparator.compare_registries(&k, &k);
    assert!(!diff.has_changes());

    // applying the empty list leaves the tree as it stands
    let before = RegistryWriter::new().write_to_string(&k);
    let patcher = RegistryPatcher;
    let res = patcher.apply_patch(&mut k, &diff, PatchOptions::default());
    assert!(res.is_success());
    assert_eq!(0, res.applied_count());
    let after = RegistryWriter::new().write_to_string(&k);
    assert_eq!(before, after);
}

#[test]
fn lookups_fold_ascii_case() {
    let mut k = RegistryKey::create_root();
    k.set_value(
        "Version",
        RegistryValue::new("Version", RegistryValueData::String("1".into())),
    );
    assert!(k.get_value("Version").is_some());
    assert!(k.get_value("VERSION").is_some());
    assert!(k.get_value("version").is_some());
    assert_eq!(
        k.get_value("version").unwrap().raw_bytes(),
        k.get_value("VERSION").unwrap().raw_bytes()
    );
    k.create_subkey("Soft");
    assert!(k.get_subkey("SOFT").is_some());
    assert!(k.get_subkey("soft").is_some());
}

#[test]
fn canonical_equality_is_type_code_plus_raw_bytes() {
    let a = RegistryValue::new("a", RegistryValueData::String("x".into()));
    let b = RegistryValue::new("b", RegistryValueData::String("x".into()));
    assert!(values_equal(&a, &b));
    // same text, different type code
    let c = RegistryValue::new("c", RegistryValueData::ExpandString("x".into()));
    assert!(!values_equal(&a, &c));
    // same bytes and same type code, through the binary spelling
    let d = RegistryValue::new("d", RegistryValueData::Binary(vec![0x78, 0, 0, 0], 1));
    assert_eq!(a.raw_bytes(), d.raw_bytes());
    assert_eq!(a.reg_type(), d.reg_type());
    assert!(values_equal(&a, &d));
    // different bytes
    let e = RegistryValue::new("e", RegistryValueData::String("y".into()));
    assert!(!values_equal(&a, &e));
}

#[test]
fn mutation_dirties_the_whole_chain_and_parsing_leaves_trees_clean() {
    let parser = RegistryParser;
    let loaded = parser
        .load_from_text("WINE REGISTRY Version 2\n\n[A\\\\B] 7\n\"V\"=\"x\"\n")
        .expect("parse");
    fn any_dirty(k: &RegistryKey) -> bool {
        k.is_dirty || k.subkeys().iter().any(|c| any_dirty(c))
    }
    assert!(!any_dirty(&loaded.root_key));

    let mut k = loaded.root_key;
    k.set_value_at(
        &super_path("A\\B"),
        0,
        "W",
        RegistryValue::new("W", RegistryValueData::Dword(1)),
        true,
    );
    assert!(k.is_dirty);
    let a = k.get_subkey("A").unwrap();
    assert!(a.is_dirty);
    assert!(a.get_subkey("B").unwrap().is_dirty);
}

fn super_path(p: &str) -> Vec<Vec<char>> {
    winereg::registry_key::split_path_chars(&p.chars().collect())
}

#[test]
fn key_additions_apply_before_value_additions_whatever_the_input_order() {
    let mut target = RegistryKey::create_root();
    let diff = DiffResult {
        changes: vec![
            RegistryChange::ValueAdded(
                "A".into(),
                "V".into(),
                RegistryValue::new("V", RegistryValueData::Dword(9)),
            ),
            RegistryChange::KeyAdded("A".into()),
        ],
    };
    let patcher = RegistryPatcher;
    let options = PatchOptions {
        create_missing_keys: false,
        ..PatchOptions::default()
    };
    let result = patcher.apply_patch(&mut target, &diff, options);
    assert!(result.is_success());
    assert_eq!(2, result.applied_count());
    let key = target.find_key("A").unwrap();
    assert!(key.get_value("V").is_some());
}

#[test]
fn filetime_conversion_formulas() {
    assert_eq!(timestamp_to_filetime(0), 116_444_736_000_000_000);
    assert_eq!(timestamp_to_filetime(1), 116_444_736_010_000_000);
    assert_eq!(filetime_to_timestamp(116_444_736_010_000_000), 1);
    assert_eq!(filetime_to_timestamp(timestamp_to_filetime(1_491_939_580)), 1_491_939_580);
    // ticks before the 1970 epoch report zero seconds
    assert_eq!(filetime_to_timestamp(5), 0);
}

#[test]
fn canonical_raw_bytes_by_variant() {
    let s = RegistryValue::new("s", RegistryValueData::String("Hi".into()));
    assert_eq!(s.raw_bytes(), vec![0x48, 0, 0x69, 0, 0, 0]);
    let d = RegistryValue::new("d", RegistryValueData::Dword(0x01020304));
    assert_eq!(d.raw_bytes(), vec![4, 3, 2, 1]);
    let q = RegistryValue::new("q", RegistryValueData::Qword(0x0102030405060708));
    assert_eq!(q.raw_bytes(), vec![8, 7, 6, 5, 4, 3, 2, 1]);
    let m = RegistryValue::new(
        "m",
        RegistryValueData::MultiString(vec!["a".into(), "b".into()]),
    );
    assert_eq!(m.raw_bytes(), vec![0x61, 0, 0, 0, 0x62, 0, 0, 0, 0, 0]);
    let b = RegistryValue::new("b", RegistryValueData::Binary(vec![1, 2], 3));
    assert_eq!(b.raw_bytes(), vec![1, 2]);
    assert_eq!(s.reg_type(), 1);
    assert_eq!(d.reg_type(), 4);
    assert_eq!(q.reg_type(), 11);
    assert_eq!(m.reg_type(), 7);
    assert_eq!(b.reg_type(), 3);
}

#[test]
fn writer_renders_the_exact_stream() {
    let mut k = RegistryKey::create_root();
    k.set_value("A", RegistryValue::new("A", RegistryValueData::String("x".into())));
    let out = RegistryWriter::new().write_to_string(&k);
    assert_eq!(out, "WINE REGISTRY Version 2\n\n[] 0\n#time=0\n\"A\"=\"x\"\n");
}

#[test]
fn parser_error_variants() {
    let parser = RegistryParser;
    assert!(matches!(parser.load_from_text(""), Err(ParseError::InvalidHeader)));
    assert!(matches!(parser.load_from_text("not a registry"), Err(ParseError::InvalidHeader)));
    match parser.load_from_text("WINE REGISTRY Version 2\n\"V\"=\"x\"\n") {
        Err(ParseError::Line { line, msg }) => {
            assert_eq!(line, 2);
            assert_eq!(msg, "value without key");
        },
        _ => panic!("expected a line error"),
    }
    match parser.load_from_text("WINE REGISTRY Version 2\n[NoClose\n\"V\"=\"x\"\n") {
        Err(ParseError::Line { line, .. }) => assert_eq!(line, 2),
        _ => panic!("expected a line error"),
    }
    match parser.load_from_text("WINE REGISTRY Version 2\n[K]\n\"V=x\n") {
        Err(ParseError::Line { line, msg }) => {
            assert_eq!(line, 3);
            assert_eq!(msg, "unterminated value name");
        },
        _ => panic!("expected a line error"),
    }
    match parser.load_from_text("WINE REGISTRY Version 2\n[K]\n\"V\"=dword:zz\n") {
        Err(ParseError::Line { line, .. }) => assert_eq!(line, 3),
        _ => panic!("expected a line error"),
    }
}

#[test]
fn parser_joins_continuation_lines() {
    let parser = RegistryParser;
    let loaded = parser
        .load_from_text("WINE REGISTRY Version 2\n\n[K]\n\"B\"=hex:01,02,\\\n  03\n")
        .expect("parse");
    let key = loaded.root_key.find_key("K").unwrap();
    match &key.get_value("B").unwrap().data {
        RegistryValueData::Binary(bytes, ty) => {
            assert_eq!(bytes, &vec![1u8, 2, 3]);
            assert_eq!(*ty, 3);
        },
        _ => panic!("expected binary"),
    }
}

#[test]
fn qword_reads_back_and_writes_as_hex_b() {
    let parser = RegistryParser;
    let loaded = parser
        .load_from_text("WINE REGISTRY Version 2\n\n[K]\n\"Q\"=qword:1f\n")
        .expect("parse");
    let key = loaded.root_key.find_key("K").unwrap();
    assert!(matches!(key.get_value("Q").unwrap().data, RegistryValueData::Qword(0x1f)));
    let out = RegistryWriter::new().write_to_string(&loaded.root_key);
    assert!(out.contains("\"Q\"=hex(b):1f,00,00,00,00,00,00,00\n"));
}

#[test]
fn architecture_tags_fold_case_and_reject_unknowns() {
    assert_eq!(Architecture::from_tag("win32"), Some(Architecture::Win32));
    assert_eq!(Architecture::from_tag("WIN64"), Some(Architecture::Win64));
    assert_eq!(Architecture::from_tag("win128"), None);
    assert_eq!(Architecture::Win32.as_tag(), Some("win32"));
    assert_eq!(Architecture::Win64.as_tag(), Some("win64"));
    assert_eq!(Architecture::Unknown.as_tag(), None);
}

#[test]
fn header_seconds_set_the_filetime_and_absent_means_zero() {
    let parser = RegistryParser;
    let loaded = parser
        .load_from_text("WINE REGISTRY Version 2\n\n[A] 100\n\n[B]\n\n[C] notanumber\n")
        .expect("parse");
    let a = loaded.root_key.find_key("A").unwrap();
    assert_eq!(a.modification_time, timestamp_to_filetime(100));
    let b = loaded.root_key.find_key("B").unwrap();
    assert_eq!(b.modification_time, 0);
    let c = loaded.root_key.find_key("C").unwrap();
    assert_eq!(c.modification_time, 0);

    // #time= overrides with the raw tick count
    let loaded2 = parser
        .load_from_text("WINE REGISTRY Version 2\n\n[A] 100\n#time=1f\n")
        .expect("parse");
    assert_eq!(loaded2.root_key.find_key("A").unwrap().modification_time, 0x1f);
}
