use bpf_profile::error::Error;
use bpf_profile::profile::{parse_trace_file, Profile};
use bpf_profile::resolver::Resolver;
use bpf_profile::trace::{hex_str_to_address, Instruction};

#[test]
fn classify_lines() {
    assert_eq!(Instruction::parse("604: call 0xAA", 1), Ok(Instruction::Call { pc: 604, target: 0xAA }));
    assert_eq!(Instruction::parse("10:   call   0xbb extra", 2), Ok(Instruction::Call { pc: 10, target: 0xBB }));
    assert_eq!(Instruction::parse("11: exit", 3), Ok(Instruction::Exit { pc: 11 }));
    assert_eq!(Instruction::parse("12: r1 = 0x5", 4), Ok(Instruction::Other { pc: 12 }));
    assert_eq!(Instruction::parse("13: exits", 5), Ok(Instruction::Other { pc: 13 }));
    assert_eq!(Instruction::parse("", 6), Ok(Instruction::Skip));
    assert_eq!(Instruction::parse("# comment: here", 7), Ok(Instruction::Skip));
    assert_eq!(Instruction::parse("no colon", 8), Ok(Instruction::Skip));
}

#[test]
fn classify_bad_call() {
    assert_eq!(
        Instruction::parse("5: call", 9),
        Err(Error::Parsing("5: call".to_string(), 9))
    );
    assert_eq!(
        Instruction::parse("5: call 0xzz", 10),
        Err(Error::Parsing("5: call 0xzz".to_string(), 10))
    );
    assert_eq!(
        Instruction::parse("5: call 0x10000000000000000", 11),
        Err(Error::Parsing("5: call 0x10000000000000000".to_string(), 11))
    );
}

#[test]
fn hex_addresses() {
    assert_eq!(hex_str_to_address("0x1f"), Some(0x1f));
    assert_eq!(hex_str_to_address("ABCdef"), Some(0xabcdef));
    assert_eq!(hex_str_to_address("0xffffffffffffffff"), Some(u64::MAX));
    assert_eq!(hex_str_to_address("0x"), None);
    assert_eq!(hex_str_to_address("0xg"), None);
}

#[test]
fn back_to_back_call_lines() {
    let text = ["604: call 0xAA", "10: call 0xBB", "11: exit", "605: exit"];
    let lines: Vec<Instruction> = text
        .iter()
        .enumerate()
        .map(|(i, l)| Instruction::parse(l, i + 1).unwrap())
        .collect();
    let mut prof = Profile::new("t".to_string(), Resolver::new()).unwrap();
    parse_trace_file(&lines[..2].to_vec(), &mut prof).unwrap();
    assert_eq!(prof.call_depth(), 2);
    parse_trace_file(&lines[2..].to_vec(), &mut prof).unwrap();
    let f = |a: u64| prof.registry().iter().find(|f| f.address == a).unwrap();
    assert_eq!(f(0xBB).cost, 1);
    assert_eq!(f(0xAA).cost, 2);
    assert_eq!(f(0xAA).calls[0].address, 0xBB);
}
