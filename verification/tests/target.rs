use k_compiler::target::Target;
use std::str::FromStr;

#[test]
fn parses_supported_target_names() {
    assert_eq!(
        Target::from_str("x86_64-krumpyos").unwrap(),
        Target::X86_64KrumpyOs
    );
    assert_eq!(
        Target::from_str("aarch64-krumpyos").unwrap(),
        Target::Aarch64KrumpyOs
    );
}

#[test]
fn marks_aarch64_as_not_implemented_yet() {
    assert!(!Target::Aarch64KrumpyOs.is_implemented());
    assert!(Target::X86_64KrumpyOs.is_implemented());
}

#[test]
fn every_target_answers_to_its_name_and_alias() {
    for target in [Target::X86_64SystemV, Target::X86_64KrumpyOs, Target::Aarch64KrumpyOs] {
        assert_eq!(Target::from_str(target.name()).unwrap(), target);
    }
    assert_eq!(Target::from_str("linux-x86_64").unwrap(), Target::X86_64SystemV);
    assert_eq!(Target::from_str("krumpyos-x86_64").unwrap(), Target::X86_64KrumpyOs);
    assert_eq!(Target::from_str("krumpyos-aarch64").unwrap(), Target::Aarch64KrumpyOs);
    assert_eq!(Target::default(), Target::X86_64SystemV);
}

#[test]
fn unknown_target_names_are_reported() {
    let error = Target::from_str("riscv").unwrap_err();
    assert_eq!(error.to_string(), "unknown target `riscv`");
}
