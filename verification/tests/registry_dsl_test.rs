use winereg::registry_dsl::registry;
use winereg::architecture::Architecture;
use winereg::registry_value::REG_SZ;

#[test]
fn dsl_builds_registry() {
    let mut ctx = registry();
    ctx.relative_base = "\\\\REGISTRY\\\\MACHINE".into();
    ctx.architecture = Architecture::Win64;
    let mut k = ctx.key("MACHINE\\SOFTWARE\\TestApp");
    k.value("Version", "1.0.0");
    k.dword("Enabled", 1);
    k.expand_string("Path", "%ProgramFiles%\\Test");
    k.multi_string("Items", vec!["a".into(), "b".into()]);
    let reg = k.build();

    assert_eq!(reg.relative_base, "\\\\REGISTRY\\\\MACHINE");
    assert_eq!(reg.architecture, Architecture::Win64);
    let key = reg.get("MACHINE\\SOFTWARE\\TestApp").unwrap();
    assert_eq!(key.get_value("Version").unwrap().reg_type(), REG_SZ);
    assert_eq!(key.get_value("Enabled").unwrap().raw_bytes().len(), 4);
}
