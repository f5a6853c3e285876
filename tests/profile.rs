use bpf_profile::error::Error;
use bpf_profile::profile::{parse_trace_file, Profile};
use bpf_profile::report::{aggregate_calls, Stat};
use bpf_profile::resolver::Resolver;
use bpf_profile::trace::Instruction;

fn call(pc: u64, target: u64) -> Instruction {
    Instruction::Call { pc, target }
}

fn other(pc: u64) -> Instruction {
    Instruction::Other { pc }
}

fn exit(pc: u64) -> Instruction {
    Instruction::Exit { pc }
}

fn build(lines: &Vec<Instruction>) -> Profile {
    let mut prof = Profile::new("trace.txt".to_string(), Resolver::new()).unwrap();
    parse_trace_file(lines, &mut prof).unwrap();
    prof
}

fn record(prof: &Profile, address: u64) -> usize {
    prof.registry().iter().position(|f| f.address == address).unwrap()
}

#[test]
fn single_call_costs() {
    let lines = vec![call(99, 0x10), other(100), exit(101)];
    let prof = build(&lines);
    let f = &prof.registry()[record(&prof, 0x10)];
    assert_eq!(f.cost, 2);
    assert_eq!(f.pc, 100);
    assert_eq!(prof.registry()[0].cost, 1);
    assert_eq!(prof.registry()[0].calls.len(), 0);
    assert_eq!(prof.grand_total(), 3);
    assert_eq!(prof.call_depth(), 0);
}

#[test]
fn single_call_report() {
    let lines = vec![call(99, 0x10), other(100), exit(101)];
    let prof = build(&lines);
    let expected = "# callgrind format\nversion: 1\ncreator: bpf-profile\nevents: Instructions\n\
                    totals: 3\nfl=trace.txt\n\nfn=function_0 (0x10)\n100 2\n";
    assert_eq!(prof.write_callgrind(), expected);
}

#[test]
fn report_is_repeatable() {
    let lines = vec![call(1, 0x10), call(2, 0x20), other(3), exit(4), exit(5)];
    let prof = build(&lines);
    assert_eq!(prof.write_callgrind(), prof.write_callgrind());
}

#[test]
fn back_to_back_calls() {
    let mut prof = Profile::new("t".to_string(), Resolver::new()).unwrap();
    parse_trace_file(&vec![call(604, 0xAA), call(10, 0xBB)], &mut prof).unwrap();
    assert_eq!(prof.call_depth(), 2);
    parse_trace_file(&vec![exit(11)], &mut prof).unwrap();
    assert_eq!(prof.call_depth(), 1);
    parse_trace_file(&vec![exit(605)], &mut prof).unwrap();
    assert_eq!(prof.call_depth(), 0);
    let aa = &prof.registry()[record(&prof, 0xAA)];
    let bb = &prof.registry()[record(&prof, 0xBB)];
    assert_eq!(bb.cost, 1);
    assert_eq!(aa.cost, 2);
    assert_eq!(aa.calls.len(), 1);
    assert_eq!(aa.calls[0].address, 0xBB);
    assert_eq!(aa.calls[0].cost, 1);
    assert_eq!(prof.registry()[0].cost, 1);
    assert_eq!(prof.registry()[0].calls.len(), 0);
    assert_eq!(prof.grand_total(), 4);
}

#[test]
fn repeated_calls_aggregate() {
    let mut lines = vec![call(1, 0x01)];
    for _ in 0..2 {
        lines.push(call(7, 0x20));
        for pc in 0..4 {
            lines.push(other(8 + pc));
        }
        lines.push(exit(12));
    }
    lines.push(exit(2));
    let prof = build(&lines);
    let caller = &prof.registry()[record(&prof, 0x01)];
    assert_eq!(caller.calls.len(), 2);
    assert_eq!(caller.calls[0].cost, 5);
    assert_eq!(caller.calls[1].cost, 5);
    let stats = aggregate_calls(&caller.calls);
    assert_eq!(stats.len(), 1);
    assert_eq!(stats[0].address, 0x20);
    assert_eq!(stats[0].count, 2);
    assert_eq!(stats[0].cost, 10);
    assert_eq!(prof.registry()[record(&prof, 0x20)].cost, 10);
    assert!(prof.write_callgrind().contains("cfn=function_1 (0x20)\ncalls=2 8\n7 10\n"));
}

#[test]
fn callee_block_aggregates() {
    let lines = vec![
        call(1, 0x10),
        call(2, 0x20),
        other(3),
        exit(4),
        call(5, 0x20),
        exit(6),
        call(7, 0x30),
        exit(8),
        exit(9),
    ];
    let prof = build(&lines);
    let f = &prof.registry()[record(&prof, 0x10)];
    let stats = aggregate_calls(&f.calls);
    let i20 = record(&prof, 0x20);
    let i30 = record(&prof, 0x30);
    assert_eq!(
        stats,
        vec![
            Stat { address: 0x20, index: i20, count: 2, cost: 3 },
            Stat { address: 0x30, index: i30, count: 1, cost: 1 },
        ]
    );
    let report = prof.write_callgrind();
    assert!(report.contains("fn=function_0 (0x10)\n2 4\ncfn=function_1 (0x20)\ncalls=2 3\n2 3\ncfn=function_2 (0x30)\ncalls=1 8\n2 1\n"));
}

#[test]
fn cost_conservation() {
    let lines = vec![
        Instruction::Skip,
        other(1),
        call(2, 0x10),
        Instruction::Skip,
        other(3),
        call(4, 0x20),
        other(5),
        exit(6),
        exit(7),
        other(8),
        call(9, 0x10),
        other(10),
    ];
    let prof = build(&lines);
    let non_skip = lines.iter().filter(|l| **l != Instruction::Skip).count();
    let total: usize = prof.registry().iter().map(|f| f.cost).sum();
    assert_eq!(total, non_skip);
    assert_eq!(prof.call_depth(), 1);
}

#[test]
fn inclusive_covers_exclusive() {
    let lines = vec![call(1, 0x10), other(2), call(3, 0x20), other(4), exit(5), other(6), exit(7)];
    let prof = build(&lines);
    let f = &prof.registry()[record(&prof, 0x10)];
    assert_eq!(f.calls[0].cost, 2);
    assert!(f.calls[0].cost >= prof.registry()[record(&prof, 0x20)].cost);
    assert_eq!(prof.grand_total(), 7);
}

#[test]
fn unresolved_names_are_numbered() {
    let lines = vec![call(1, 0xaa), exit(2), call(3, 0xbb), exit(4)];
    let prof = build(&lines);
    assert_eq!(prof.registry()[record(&prof, 0xaa)].name, "function_0 (0xaa)");
    assert_eq!(prof.registry()[record(&prof, 0xbb)].name, "function_1 (0xbb)");
}

#[test]
fn copies_share_a_name() {
    let lines = vec![call(5, 0x100), exit(6), call(5, 0x200), exit(6)];
    let prof = build(&lines);
    let a = &prof.registry()[record(&prof, 0x100)];
    let b = &prof.registry()[record(&prof, 0x200)];
    assert_eq!(a.name, b.name);
    assert_eq!(a.name, "function_0 (0x100)");
    assert_eq!(a.pc, 6);
}

#[test]
fn exit_without_call_fails() {
    let mut prof = Profile::new("t".to_string(), Resolver::new()).unwrap();
    let r = parse_trace_file(&vec![other(1), exit(2)], &mut prof);
    assert_eq!(r, Err(Error::EmptyStack(2)));
}

#[test]
fn call_to_root_address_fails() {
    let mut prof = Profile::new("t".to_string(), Resolver::new()).unwrap();
    let r = parse_trace_file(&vec![Instruction::Skip, call(1, 0)], &mut prof);
    assert_eq!(r, Err(Error::ReservedAddress(2)));
}

#[test]
fn open_calls_are_accepted() {
    let prof = build(&vec![call(1, 0x10), other(2)]);
    assert_eq!(prof.call_depth(), 1);
    assert_eq!(prof.grand_total(), 1);
    assert_eq!(prof.registry()[record(&prof, 0x10)].cost, 1);
    assert_eq!(prof.registry()[record(&prof, 0x10)].pc, 2);
}

#[test]
fn entry_pc_at_trace_end() {
    let prof = build(&vec![call(1, 0x10), Instruction::Skip]);
    assert_eq!(prof.registry()[record(&prof, 0x10)].pc, 1);
}

#[test]
fn empty_trace() {
    let prof = build(&vec![]);
    assert_eq!(prof.grand_total(), 0);
    assert_eq!(prof.registry().len(), 1);
    assert_eq!(
        prof.write_callgrind(),
        "# callgrind format\nversion: 1\ncreator: bpf-profile\nevents: Instructions\ntotals: 0\nfl=trace.txt\n"
    );
}

#[test]
fn total_cost_adds_calls() {
    let prof = build(&vec![call(1, 0x10), call(2, 0x20), exit(3), exit(4)]);
    let f = &prof.registry()[record(&prof, 0x10)];
    assert_eq!(f.cost, 2);
    assert_eq!(f.total_cost(), 3);
}
