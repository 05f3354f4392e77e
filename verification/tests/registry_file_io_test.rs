use winereg::registry_parser::RegistryParser;
use winereg::registry_key::RegistryKey;
use winereg::registry_value::{RegistryValue, RegistryValueData};
use winereg::architecture::Architecture;

#[test]
fn parser_handles_architecture_and_relative_base_from_text() {
    let reg_text = "WINE REGISTRY Version 2\n;; All keys relative to HKEY_LOCAL_MACHINE\n#arch=win64\n\n[Software\\\\ArchTest]\n\"QWORD\"=hex(b):01,00,00,00,00,00,00,00\n";
    let parser = RegistryParser;
    let loaded = parser.load_from_text(reg_text).expect("parse text");
    assert_eq!(loaded.architecture, Architecture::Win64);
    assert_eq!(loaded.relative_base, "HKEY_LOCAL_MACHINE");
    assert!(loaded.root_key.find_key("Software\\ArchTest").is_some());
}

#[test]
fn parser_handles_minimal_valid_text() {
    let reg_text = "WINE REGISTRY Version 2\n;; All keys relative to HKEY_CURRENT_USER\n\n[Software\\\\TextCase]\n\"Value\"=\"Hello\"\n";
    let parser = RegistryParser;
    let loaded = parser.load_from_text(reg_text).expect("parse text");
    assert_eq!(loaded.relative_base, "HKEY_CURRENT_USER");
    let key = loaded.root_key.find_key("Software\\TextCase").expect("key exists");
    let val_bytes = key.get_value("Value").expect("value exists").raw_bytes();
    assert_eq!(
        val_bytes,
        RegistryValue::new("Value", RegistryValueData::String("Hello".into())).raw_bytes()
    );
}

#[test]
fn load_and_save_roundtrip_from_text() {
    let reg_text = "WINE REGISTRY Version 2\n;; All keys relative to HKEY_CURRENT_USER\n\n[Control Panel\\\\Colors] 1491939580\n#time=1d2b20c7c89d100\n\"Background\"=\"0 85 0\"\n\n[Software\\\\Wine\\\\Fonts] 1491939580\n#time=1d2b20c7c8a1234\n\"Codepages\"=\"1252,437\"\n\"LogPixels\"=dword:00000060\n";
    let parser = RegistryParser;
    let loaded = parser.load_from_text(reg_text).expect("parse text");
    let writer = winereg::registry_writer::RegistryWriter {
        relative_base: loaded.relative_base.clone(),
        architecture: loaded.architecture,
    };
    let written = writer.write_to_string(&loaded.root_key);
    let reparsed = parser.load_from_text(&written).expect("reparse text");
    assert_eq!(count_keys(&loaded.root_key), count_keys(&reparsed.root_key));
    assert_eq!(count_values(&loaded.root_key), count_values(&reparsed.root_key));
}

fn count_keys(node: &RegistryKey) -> usize {
    let mut total = 1;
    for child in node.subkeys() {
        total += count_keys(child);
    }
    total
}

fn count_values(node: &RegistryKey) -> usize {
    let mut total = node.values().len();
    for child in node.subkeys() {
        total += count_values(child);
    }
    total
}
