//! Rendering of a profile in the callgrind text format.

use crate::digits::{dec, push_dec};
use crate::profile::{edge_ok, CallEdge, Function};
use crate::GROUND_ZERO;
use vstd::prelude::*;

verus! {

/// The completed calls of one caller to one callee, aggregated.
#[derive(Debug, Clone, Copy, PartialEq, Eq)]
pub struct Stat {
    /// The callee's address.
    pub address: u64,
    /// The position of the callee's record in the registry.
    pub index: usize,
    /// How many calls were made.
    pub count: usize,
    /// The sum of their inclusive costs, saturated at `usize::MAX`.
    pub cost: usize,
}

/// The distinct callee addresses of `es`, in order of first appearance.
pub open spec fn callees(es: Seq<CallEdge>) -> Seq<u64>
    decreases es.len(),
{
    if es.len() == 0 {
        Seq::empty()
    } else if callees(es.drop_last()).contains(es.last().address) {
        callees(es.drop_last())
    } else {
        callees(es.drop_last()).push(es.last().address)
    }
}

/// How many of `es` call `a`.
pub open spec fn call_count(es: Seq<CallEdge>, a: u64) -> nat
    decreases es.len(),
{
    if es.len() == 0 {
        0
    } else {
        call_count(es.drop_last(), a) + if es.last().address == a {
            1nat
        } else {
            0nat
        }
    }
}

/// The summed inclusive cost of the calls of `es` to `a`.
pub open spec fn call_cost(es: Seq<CallEdge>, a: u64) -> nat
    decreases es.len(),
{
    if es.len() == 0 {
        0
    } else {
        call_cost(es.drop_last(), a) + if es.last().address == a {
            es.last().cost as nat
        } else {
            0nat
        }
    }
}

/// `n`, or `usize::MAX` where `n` exceeds it.
pub open spec fn saturate(n: nat) -> nat {
    if n > usize::MAX {
        usize::MAX as nat
    } else {
        n
    }
}

/// Whether `st` is the aggregate of the calls of `es` to `st.address`.
pub open spec fn stat_of(es: Seq<CallEdge>, st: Stat) -> bool {
    &&& st.count == call_count(es, st.address)
    &&& st.cost == saturate(call_cost(es, st.address))
    &&& exists|m: int|
        0 <= m < es.len() && (#[trigger] es[m]).address == st.address && es[m].index == st.index
}

proof fn lemma_callees_distinct(es: Seq<CallEdge>)
    ensures
        callees(es).no_duplicates(),
    decreases es.len(),
{
    if es.len() > 0 {
        lemma_callees_distinct(es.drop_last());
    }
}

proof fn lemma_call_count_le(es: Seq<CallEdge>, a: u64)
    ensures
        call_count(es, a) <= es.len(),
    decreases es.len(),
{
    if es.len() > 0 {
        lemma_call_count_le(es.drop_last(), a);
    }
}

/// Groups the calls `es` by callee, in order of first appearance of each callee,
/// with the number of calls and their summed inclusive cost.
pub fn aggregate_calls(es: &Vec<CallEdge>) -> (r: Vec<Stat>)
    ensures
        r@.len() == callees(es@).len(),
        forall|k: int|
            0 <= k < r@.len() ==> (#[trigger] r@[k]).address == callees(es@)[k] && stat_of(
                es@,
                r@[k],
            ),
{
    let mut stats: Vec<Stat> = Vec::new();
    let mut i: usize = 0;
    assert(es@.subrange(0, 0) =~= Seq::<CallEdge>::empty());
    while i < es.len()
        invariant
            i <= es@.len(),
            stats@.len() == callees(es@.subrange(0, i as int)).len(),
            forall|k: int|
                0 <= k < stats@.len() ==> (#[trigger] stats@[k]).address == callees(
                    es@.subrange(0, i as int),
                )[k] && stat_of(es@.subrange(0, i as int), stats@[k]),
        decreases es@.len() - i,
    {
        let e = &es[i];
        let ghost pre = es@.subrange(0, i as int);
        let ghost next = es@.subrange(0, i + 1);
        proof {
            assert(next.drop_last() =~= pre);
            lemma_callees_distinct(pre);
            lemma_call_count_le(pre, e.address);
        }
        let mut k: usize = 0;
        while k < stats.len()
            invariant
                k <= stats@.len(),
                forall|q: int| 0 <= q < k ==> (#[trigger] stats@[q]).address != e.address,
                i < es@.len(),
                *e == es@[i as int],
                pre == es@.subrange(0, i as int),
                next == es@.subrange(0, i + 1),
                callees(pre).no_duplicates(),
                call_count(pre, e.address) <= pre.len(),
                stats@.len() == callees(pre).len(),
                forall|q: int|
                    0 <= q < stats@.len() ==> (#[trigger] stats@[q]).address == callees(pre)[q]
                        && stat_of(pre, stats@[q]),
            ensures
                k <= stats@.len(),
                k < stats@.len() ==> stats@[k as int].address == e.address,
                forall|q: int| 0 <= q < k ==> (#[trigger] stats@[q]).address != e.address,
            decreases stats@.len() - k,
        {
            if stats[k].address == e.address {
                break;
            }
            k = k + 1;
        }
        if k < stats.len() {
            let old_stat = stats[k];
            assert(stat_of(pre, stats@[k as int]));
            let st = Stat {
                address: old_stat.address,
                index: old_stat.index,
                count: old_stat.count + 1,
                cost: old_stat.cost.saturating_add(e.cost),
            };
            let ghost before = stats@;
            stats.set(k, st);
            proof {
                assert(callees(pre)[k as int] == e.address);
                assert(callees(pre).contains(e.address));
                assert(callees(next) == callees(pre));
                assert forall|q: int| 0 <= q < stats@.len() implies (#[trigger] stats@[q]).address
                    == callees(next)[q] && stat_of(next, stats@[q]) by {
                    assert(stat_of(pre, before[q]));
                    let m = choose|m: int|
                        0 <= m < pre.len() && (#[trigger] pre[m]).address == before[q].address
                            && pre[m].index == before[q].index;
                    assert(next[m] == pre[m]);
                    if q != k {
                        assert(before[q].address != e.address) by {
                            assert(callees(pre)[q] != callees(pre)[k as int]);
                        }
                    }
                }
            }
        } else {
            let st = Stat { address: e.address, index: e.index, count: 1, cost: e.cost };
            let ghost before = stats@;
            stats.push(st);
            proof {
                assert forall|q: int| 0 <= q < callees(pre).len() implies callees(pre)[q]
                    != e.address by {
                    assert(before[q].address != e.address);
                }
                assert(!callees(pre).contains(e.address));
                assert(callees(next) == callees(pre).push(e.address));
                assert forall|q: int| 0 <= q < stats@.len() implies (#[trigger] stats@[q]).address
                    == callees(next)[q] && stat_of(next, stats@[q]) by {
                    if q < before.len() {
                        assert(stat_of(pre, before[q]));
                        let m = choose|m: int|
                            0 <= m < pre.len() && (#[trigger] pre[m]).address == before[q].address
                                && pre[m].index == before[q].index;
                        assert(next[m] == pre[m]);
                        assert(before[q].address != e.address);
                        assert(stats@[q] == before[q]);
                        assert(call_count(next, before[q].address) == call_count(pre, before[q].address));
                        assert(call_cost(next, before[q].address) == call_cost(pre, before[q].address));
                    } else {
                        assert(next[i as int] == *e);
                        lemma_absent_count(pre, e.address);
                        assert(stats@[q] == st);
                        assert(call_count(next, e.address) == 1);
                        assert(call_cost(next, e.address) == e.cost);
                        assert(callees(next)[q] == e.address);
                    }
                }
            }
        }
        i = i + 1;
    }
    assert(es@.subrange(0, i as int) =~= es@);
    stats
}

proof fn lemma_absent_count(es: Seq<CallEdge>, a: u64)
    requires
        !callees(es).contains(a),
    ensures
        call_count(es, a) == 0,
        call_cost(es, a) == 0,
    decreases es.len(),
{
    if es.len() > 0 {
        if es.last().address == a {
            if !callees(es.drop_last()).contains(a) {
                assert(callees(es).last() == a);
            }
        } else {
            if callees(es.drop_last()).contains(a) {
                let q = choose|q: int|
                    0 <= q < callees(es.drop_last()).len() && callees(es.drop_last())[q] == a;
                if !callees(es.drop_last()).contains(es.last().address) {
                    assert(callees(es)[q] == a);
                }
            }
            lemma_absent_count(es.drop_last(), a);
        }
    }
}

} // verus!

verus! {

/// Whether `fs` is a registry that can be rendered: the root's record first,
/// one record per address, and every completed call naming a record of it.
pub open spec fn registry_ok(fs: Seq<Function>) -> bool {
    &&& fs.len() >= 1
    &&& fs[0].address == GROUND_ZERO
    &&& forall|i: int, j: int|
        0 <= i < j < fs.len() ==> #[trigger] fs[i].address != #[trigger] fs[j].address
    &&& forall|i: int, m: int|
        0 <= i < fs.len() && 0 <= m < fs[i].calls@.len() ==> edge_ok(fs, #[trigger] fs[i].calls@[m])
}

/// The position of the record of `a` in `fs`.
pub open spec fn record_of(fs: Seq<Function>, a: u64) -> int {
    choose|i: int| 0 <= i < fs.len() && fs[i].address == a
}

/// The aggregated calls of `es`, as `aggregate_calls` lists them.
pub open spec fn aggregate(fs: Seq<Function>, es: Seq<CallEdge>) -> Seq<Stat> {
    callees(es).map(
        |k: int, a: u64|
            Stat {
                address: a,
                index: record_of(fs, a) as usize,
                count: call_count(es, a) as usize,
                cost: saturate(call_cost(es, a)) as usize,
            },
    )
}

/// The lines of one aggregated callee of a function whose first instruction is
/// at `caller_pc`.
pub open spec fn stat_text(fs: Seq<Function>, caller_pc: u64, st: Stat) -> Seq<char> {
    "cfn="@ + fs[st.index as int].name@ + "\n"@ + "calls="@ + dec(st.count as nat) + " "@ + dec(
        fs[st.index as int].pc as nat,
    ) + "\n"@ + dec(caller_pc as nat) + " "@ + dec(st.cost as nat) + "\n"@
}

/// The lines of the aggregated callees `ss`, in order.
pub open spec fn stats_text(fs: Seq<Function>, caller_pc: u64, ss: Seq<Stat>) -> Seq<char>
    decreases ss.len(),
{
    if ss.len() == 0 {
        Seq::empty()
    } else {
        stats_text(fs, caller_pc, ss.drop_last()) + stat_text(fs, caller_pc, ss.last())
    }
}

/// The block of function `f`: its name, its exclusive cost, and its callees.
pub open spec fn function_text(fs: Seq<Function>, f: Function) -> Seq<char> {
    "\n"@ + "fn="@ + f.name@ + "\n"@ + dec(f.pc as nat) + " "@ + dec(f.cost as nat) + "\n"@
        + stats_text(fs, f.pc, aggregate(fs, f.calls@))
}

/// The blocks of the records of `fs` before position `n`, the root's left out.
pub open spec fn functions_text(fs: Seq<Function>, n: int) -> Seq<char>
    decreases n,
{
    if n <= 1 {
        Seq::empty()
    } else {
        functions_text(fs, n - 1) + function_text(fs, fs[n - 1])
    }
}

/// The header of the report.
pub open spec fn header_text(total: nat, file: Seq<char>) -> Seq<char> {
    "# callgrind format\n"@ + "version: 1\n"@ + "creator: bpf-profile\n"@ + "events: Instructions\n"@
        + "totals: "@ + dec(total) + "\n"@ + "fl="@ + file + "\n"@
}

/// The whole report of a registry `fs` of the trace `file` whose grand total is `total`.
pub open spec fn report_text(total: nat, file: Seq<char>, fs: Seq<Function>) -> Seq<char> {
    header_text(total, file) + functions_text(fs, fs.len() as int)
}

/// Appends the lines of the aggregated callees `ss` of a function.
fn write_stats(fs: &Vec<Function>, caller_pc: u64, ss: &Vec<Stat>, out: &mut String)
    requires
        forall|k: int| 0 <= k < ss@.len() ==> (#[trigger] ss@[k]).index < fs@.len(),
    ensures
        final(out)@ == old(out)@ + stats_text(fs@, caller_pc, ss@),
{
    let mut k: usize = 0;
    assert(ss@.subrange(0, 0) =~= Seq::<Stat>::empty());
    while k < ss.len()
        invariant
            k <= ss@.len(),
            forall|q: int| 0 <= q < ss@.len() ==> (#[trigger] ss@[q]).index < fs@.len(),
            out@ == old(out)@ + stats_text(fs@, caller_pc, ss@.subrange(0, k as int)),
        decreases ss@.len() - k,
    {
        let st = ss[k];
        let callee = &fs[st.index];
        let ghost before = out@;
        out.append("cfn=");
        out.append(callee.name.as_str());
        out.append("\n");
        out.append("calls=");
        push_dec(out, st.count as u64);
        out.append(" ");
        push_dec(out, callee.pc);
        out.append("\n");
        push_dec(out, caller_pc);
        out.append(" ");
        push_dec(out, st.cost as u64);
        out.append("\n");
        proof {
            assert(ss@.subrange(0, k + 1).drop_last() =~= ss@.subrange(0, k as int));
            assert(out@ =~= before + stat_text(fs@, caller_pc, st));
        }
        k = k + 1;
    }
    assert(ss@.subrange(0, k as int) =~= ss@);
}

/// Writes the block of each function of the registry but the root's: its
/// exclusive cost, then its completed calls grouped by callee.
pub fn write_callgrind_functions(functions: &Vec<Function>, out: &mut String)
    requires
        registry_ok(functions@),
    ensures
        final(out)@ == old(out)@ + functions_text(functions@, functions@.len() as int),
{
    let ghost fs = functions@;
    let mut i: usize = 1;
    while i < functions.len()
        invariant
            1 <= i <= fs.len(),
            fs == functions@,
            registry_ok(fs),
            out@ == old(out)@ + functions_text(fs, i as int),
        decreases fs.len() - i,
    {
        let f = &functions[i];
        let ghost before = out@;
        out.append("\n");
        out.append("fn=");
        out.append(f.name.as_str());
        out.append("\n");
        push_dec(out, f.pc);
        out.append(" ");
        push_dec(out, f.cost as u64);
        out.append("\n");
        let stats = aggregate_calls(&f.calls);
        proof {
            lemma_aggregate(fs, i as int, stats@);
        }
        write_stats(functions, f.pc, &stats, out);
        proof {
            assert(out@ =~= before + function_text(fs, fs[i as int]));
        }
        i = i + 1;
    }
}

/// What `aggregate_calls` lists for a record of a well-formed registry is
/// `aggregate` of its calls.
proof fn lemma_aggregate(fs: Seq<Function>, i: int, ss: Seq<Stat>)
    requires
        registry_ok(fs),
        0 <= i < fs.len(),
        ss.len() == callees(fs[i].calls@).len(),
        forall|k: int|
            0 <= k < ss.len() ==> (#[trigger] ss[k]).address == callees(fs[i].calls@)[k] && stat_of(
                fs[i].calls@,
                ss[k],
            ),
    ensures
        ss == aggregate(fs, fs[i].calls@),
        forall|k: int| 0 <= k < ss.len() ==> (#[trigger] ss[k]).index < fs.len(),
{
    let es = fs[i].calls@;
    assert forall|k: int| 0 <= k < ss.len() implies (#[trigger] ss[k]) == aggregate(fs, es)[k]
        && ss[k].index < fs.len() by {
        assert(stat_of(es, ss[k]));
        let m = choose|m: int|
            0 <= m < es.len() && (#[trigger] es[m]).address == ss[k].address && es[m].index
                == ss[k].index;
        assert(edge_ok(fs, fs[i].calls@[m]));
        let j = record_of(fs, ss[k].address);
        assert(0 <= j < fs.len() && fs[j].address == ss[k].address);
        if j != ss[k].index as int {
            if j < ss[k].index as int {
                assert(fs[j].address != fs[ss[k].index as int].address);
            } else {
                assert(fs[ss[k].index as int].address != fs[j].address);
            }
        }
    }
    assert(ss =~= aggregate(fs, es));
}

} // verus!
