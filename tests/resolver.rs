use bpf_profile::digits::{push_dec, push_hex};
use bpf_profile::error::Error;
use bpf_profile::resolver::{read, Resolver};

fn dump() -> Vec<String> {
    vec![
        "".to_string(),
        "ELF Header:".to_string(),
        "  Magic:   7f 45 4c 46".to_string(),
        "Disassembly of section .text:".to_string(),
        "".to_string(),
        "0000000000000120 <entrypoint>:".to_string(),
        "      36       79 11 00 00 00 00 00 00 r1 = *(u64 *)(r1 + 0x0)".to_string(),
        "      37       b7 00 00 00 00 00 00 00 r0 = 0x0".to_string(),
        "0000000000000140 <LBB0_1>:".to_string(),
        "      38       95 00 00 00 00 00 00 00 exit".to_string(),
        "0000000000000148 <helper>:".to_string(),
        "      39       95 00 00 00 00 00 00 00 exit".to_string(),
    ]
}

#[test]
fn dump_names_functions() {
    let r = Resolver::read(&dump()).unwrap();
    assert!(!r.is_default());
    assert_eq!(r.resolve_by_first_pc(36), Some("entrypoint".to_string()));
    assert_eq!(r.resolve_by_first_pc(39), Some("helper".to_string()));
    assert_eq!(r.resolve_by_first_pc(38), None);
    assert_eq!(r.resolve_by_first_pc(37), None);
}

#[test]
fn dump_resolves_addresses() {
    let mut r = Resolver::read(&dump()).unwrap();
    assert_eq!(r.update(0x120, 36), "entrypoint");
    assert_eq!(r.update(0x900, 36), "entrypoint");
    assert_eq!(r.resolve_by_address(0x900), "entrypoint");
    assert_eq!(r.update(0x777, 1000), "function_0 (0x777)");
    assert_eq!(r.resolve_by_first_pc(1000), Some("function_0 (0x777)".to_string()));
}

#[test]
fn dump_without_disassembly() {
    let lines = vec!["ELF Header:".to_string(), "nothing".to_string()];
    assert_eq!(Resolver::read(&lines).err(), Some(Error::DumpFormatNoDisasm));
}

#[test]
fn dump_disassembly_before_header() {
    let lines = vec!["Disassembly of section .text:".to_string(), "ELF Header:".to_string()];
    assert_eq!(Resolver::read(&lines).err(), Some(Error::DumpFormat));
}

#[test]
fn dump_function_without_instruction() {
    let lines = vec![
        "ELF Header:".to_string(),
        "Disassembly of section .text:".to_string(),
        "0000000000000120 <entrypoint>:".to_string(),
        "not an instruction".to_string(),
    ];
    assert_eq!(
        Resolver::read(&lines).err(),
        Some(Error::DumpParsing("not an instruction".to_string(), 4))
    );
}

#[test]
fn no_dump_is_default() {
    let r = read(None).unwrap();
    assert!(r.is_default());
    assert_eq!(r.resolve_by_first_pc(0), None);
}

#[test]
fn copy_unification() {
    let mut r = Resolver::new();
    let a = r.update(0x10, 5);
    let b = r.update(0x20, 5);
    assert_eq!(a, b);
    assert_eq!(r.resolve_by_address(0x10), r.resolve_by_address(0x20));
    let c = r.update(0x30, 6);
    assert_ne!(a, c);
}

#[test]
fn unresolved_counter_increases() {
    let mut r = Resolver::new();
    assert_eq!(r.update(0xab, 1), "function_0 (0xab)");
    assert_eq!(r.update(0xcd, 2), "function_1 (0xcd)");
    assert_eq!(r.update(0xab, 3), "function_0 (0xab)");
    assert_eq!(r.update(0xef, 4), "function_2 (0xef)");
}

#[test]
fn decimal_and_hex() {
    let mut s = String::from("x");
    push_dec(&mut s, 0);
    push_dec(&mut s, 1234567890);
    push_hex(&mut s, 0xdeadbeef);
    push_hex(&mut s, u64::MAX);
    assert_eq!(s, "x01234567890deadbeefffffffffffffffff");
}
