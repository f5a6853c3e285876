//! The call-stack accumulator and the function registry, and the loop that
//! drives them over a classified trace.

use crate::error::Error;
use crate::digits::push_dec;
use crate::report::{header_text, registry_ok, report_text, write_callgrind_functions};
use crate::resolver::{updated, Resolver};
use crate::trace::{
    chain_after, charge, depth_after, edges_after, frames_after, instruction_count, line_cost,
    entry_pc, entry_pc_at, new_edge, next_chain, next_frames, self_cost, well_nested,
    Instruction,
};
use crate::{Address, ProgramCounter, GROUND_ZERO};
use vstd::prelude::*;

verus! {

/// The sum of a sequence of naturals.
pub open spec fn sum(s: Seq<nat>) -> nat
    decreases s.len(),
{
    if s.len() == 0 {
        0
    } else {
        sum(s.drop_last()) + s.last()
    }
}

/// Appending a value adds it to the sum.
pub proof fn lemma_sum_push(s: Seq<nat>, v: nat)
    ensures
        sum(s.push(v)) == sum(s) + v,
{
    assert(s.push(v).drop_last() =~= s);
}

/// Replacing one value changes the sum by the difference.
pub proof fn lemma_sum_update(s: Seq<nat>, j: int, v: nat)
    requires
        0 <= j < s.len(),
    ensures
        sum(s.update(j, v)) + s[j] == sum(s) + v,
    decreases s.len(),
{
    if j == s.len() - 1 {
        assert(s.update(j, v).drop_last() =~= s.drop_last());
    } else {
        lemma_sum_update(s.drop_last(), j, v);
        assert(s.update(j, v).drop_last() =~= s.drop_last().update(j, v));
    }
}

/// No value exceeds the sum.
pub proof fn lemma_elem_le_sum(s: Seq<nat>, j: int)
    requires
        0 <= j < s.len(),
    ensures
        s[j] <= sum(s),
    decreases s.len(),
{
    if j < s.len() - 1 {
        lemma_elem_le_sum(s.drop_last(), j);
    }
}

/// One in-flight call on the active chain.
///
/// Its `cost` counts in two phases: the units spent while it was the innermost
/// frame, plus the inclusive cost of every call it completed, folded in as each
/// of those returned. When it returns itself, `cost` is thus its inclusive cost.
#[derive(Clone, Copy)]
struct Frame {
    address: Address,
    caller: Address,
    cost: usize,
    /// The position of this routine's record in the registry.
    index: usize,
}

/// One completed call that a function made.
pub struct CallEdge {
    /// The address of the callee.
    pub address: Address,
    /// The inclusive cost of the call.
    pub cost: usize,
    /// The position of the callee's record in the registry.
    pub index: usize,
}

/// A function of the registry, with the cost aggregated over all its calls.
pub struct Function {
    /// Its address.
    pub address: Address,
    /// Its display name.
    pub name: String,
    /// The program counter of its first instruction.
    pub pc: ProgramCounter,
    /// Its exclusive cost.
    pub cost: usize,
    /// The calls it completed, in order of completion.
    pub calls: Vec<CallEdge>,
}

/// The sum of the inclusive costs of `es`.
pub open spec fn edge_sum(es: Seq<CallEdge>) -> nat {
    sum(es.map_values(|e: CallEdge| e.cost as nat))
}

/// The exclusive costs of the functions `fs`.
pub open spec fn exclusive_costs(fs: Seq<Function>) -> Seq<nat> {
    fs.map_values(|f: Function| f.cost as nat)
}

spec fn frame_costs(st: Seq<Frame>) -> Seq<nat> {
    st.map_values(|f: Frame| f.cost as nat)
}

impl Function {
    /// Creates the record that stands for the whole program.
    fn ground_zero() -> (r: Function)
        ensures
            r.address == GROUND_ZERO,
            r.name@ == "GROUND_ZERO"@,
            r.pc == 0,
            r.cost == 0,
            r.calls@.len() == 0,
    {
        Function { address: GROUND_ZERO, name: "GROUND_ZERO".to_string(), pc: 0, cost: 0, calls: Vec::new() }
    }

    /// Creates the record of the function at `address`, named by `dump`.
    fn new(address: Address, first_pc: ProgramCounter, dump: &mut Resolver) -> (r: Function)
        requires
            address != GROUND_ZERO,
            old(dump).wf(),
            old(dump).counter() < usize::MAX,
        ensures
            r.address == address,
            r.pc == first_pc,
            r.cost == 0,
            r.calls@.len() == 0,
            updated(*old(dump), *final(dump), address, first_pc),
            final(dump).counter() <= old(dump).counter() + 1,
            r.name@ == final(dump).names()[final(dump).by_address(address)->0 as int],
    {
        let name = dump.update(address, first_pc);
        Function { address, name, pc: first_pc, cost: 0, calls: Vec::new() }
    }

    /// Returns the inclusive cost of the function and of its calls.
    pub fn total_cost(&self) -> (r: usize)
        requires
            self.cost + edge_sum(self.calls@) <= usize::MAX,
        ensures
            r == self.cost + edge_sum(self.calls@),
    {
        let mut total: usize = self.cost;
        let mut i: usize = 0;
        while i < self.calls.len()
            invariant
                i <= self.calls@.len(),
                self.cost + edge_sum(self.calls@) <= usize::MAX,
                total == self.cost + edge_sum(self.calls@.subrange(0, i as int)),
            decreases self.calls@.len() - i,
        {
            proof {
                let costs = |e: CallEdge| e.cost as nat;
                let pre = self.calls@.subrange(0, i as int);
                let next = self.calls@.subrange(0, i + 1);
                assert(next.map_values(costs) =~= pre.map_values(costs).push(self.calls@[i as int].cost as nat));
                lemma_sum_push(pre.map_values(costs), self.calls@[i as int].cost as nat);
                lemma_prefix_sum_le(self.calls@, i + 1);
            }
            total = total + self.calls[i].cost;
            i = i + 1;
        }
        assert(self.calls@.subrange(0, i as int) =~= self.calls@);
        total
    }
}

/// The exclusive cost of the record of `a` in `fs` (zero where it has none).
pub open spec fn record_cost(fs: Seq<Function>, a: u64) -> nat
    decreases fs.len(),
{
    if fs.len() == 0 {
        0
    } else {
        record_cost(fs.drop_last(), a) + if fs.last().address == a {
            fs.last().cost as nat
        } else {
            0nat
        }
    }
}

/// Replacing one record changes the cost of its address alone.
pub proof fn lemma_record_cost_update(fs: Seq<Function>, j: int, f: Function, a: u64)
    requires
        0 <= j < fs.len(),
        f.address == fs[j].address,
    ensures
        record_cost(fs.update(j, f), a) + (if fs[j].address == a {
            fs[j].cost as nat
        } else {
            0nat
        }) == record_cost(fs, a) + (if f.address == a {
            f.cost as nat
        } else {
            0nat
        }),
    decreases fs.len(),
{
    if j == fs.len() - 1 {
        assert(fs.update(j, f).drop_last() =~= fs.drop_last());
    } else {
        lemma_record_cost_update(fs.drop_last(), j, f, a);
        assert(fs.update(j, f).drop_last() =~= fs.drop_last().update(j, f));
    }
}

/// The completed calls (callee and inclusive cost) of `es`, in order.
pub open spec fn edge_view(es: Seq<CallEdge>) -> Seq<(u64, nat)> {
    es.map_values(|e: CallEdge| (e.address, e.cost as nat))
}

/// The completed calls of the record of `a` in `fs` (none where it has none).
pub open spec fn record_calls(fs: Seq<Function>, a: u64) -> Seq<(u64, nat)>
    decreases fs.len(),
{
    if fs.len() == 0 {
        Seq::empty()
    } else {
        record_calls(fs.drop_last(), a) + if fs.last().address == a {
            edge_view(fs.last().calls@)
        } else {
            Seq::empty()
        }
    }
}

/// Appending a completed call to one record of a registry with one record per
/// address extends the calls of that address alone.
pub proof fn lemma_record_calls_push(fs: Seq<Function>, j: int, f: Function, e: CallEdge, a: u64)
    requires
        0 <= j < fs.len(),
        f.address == fs[j].address,
        f.calls@ == fs[j].calls@.push(e),
        forall|i: int| 0 <= i < fs.len() && i != j ==> #[trigger] fs[i].address != fs[j].address,
    ensures
        record_calls(fs.update(j, f), a) == record_calls(fs, a) + if fs[j].address == a {
            seq![(e.address, e.cost as nat)]
        } else {
            Seq::empty()
        },
    decreases fs.len(),
{
    let tail: Seq<(u64, nat)> = if fs[j].address == a {
        seq![(e.address, e.cost as nat)]
    } else {
        Seq::empty()
    };
    assert(edge_view(f.calls@) =~= edge_view(fs[j].calls@).push((e.address, e.cost as nat)));
    if j == fs.len() - 1 {
        assert(fs.update(j, f).drop_last() =~= fs.drop_last());
        if fs[j].address == a {
            assert(record_calls(fs.update(j, f), a) =~= record_calls(fs, a) + tail);
        } else {
            assert(record_calls(fs.update(j, f), a) =~= record_calls(fs, a));
        }
    } else {
        assert(fs.update(j, f).drop_last() =~= fs.drop_last().update(j, f));
        assert forall|i: int| 0 <= i < fs.drop_last().len() && i != j implies #[trigger] fs.drop_last()[i].address != fs.drop_last()[j].address by {
            assert(fs[i].address != fs[j].address);
        }
        lemma_record_calls_push(fs.drop_last(), j, f, e, a);
        assert(fs.last().address != fs[j].address);
        if fs.last().address == a {
            assert(tail =~= Seq::<(u64, nat)>::empty());
            assert(record_calls(fs.update(j, f), a) =~= record_calls(fs, a) + tail);
        } else {
            assert(record_calls(fs.update(j, f), a) =~= record_calls(fs, a) + tail);
        }
    }
}

/// Replacing one record by one with the same address and calls keeps the calls
/// of every address.
pub proof fn lemma_record_calls_same(fs: Seq<Function>, j: int, f: Function, a: u64)
    requires
        0 <= j < fs.len(),
        f.address == fs[j].address,
        f.calls@ == fs[j].calls@,
    ensures
        record_calls(fs.update(j, f), a) == record_calls(fs, a),
    decreases fs.len(),
{
    if j == fs.len() - 1 {
        assert(fs.update(j, f).drop_last() =~= fs.drop_last());
    } else {
        assert(fs.update(j, f).drop_last() =~= fs.drop_last().update(j, f));
        lemma_record_calls_same(fs.drop_last(), j, f, a);
    }
}

/// One more unit on one record adds to the cost of its address alone and keeps
/// the calls of every address.
pub proof fn lemma_bump(fs: Seq<Function>, j: int, f: Function)
    requires
        0 <= j < fs.len(),
        f.address == fs[j].address,
        f.calls@ == fs[j].calls@,
        f.cost == fs[j].cost + 1,
    ensures
        forall|a: u64| #[trigger] record_cost(fs.update(j, f), a) == record_cost(fs, a) + if fs[j].address == a {
            1nat
        } else {
            0nat
        },
        forall|a: u64| #[trigger] record_calls(fs.update(j, f), a) == record_calls(fs, a),
{
    assert forall|a: u64| #[trigger] record_cost(fs.update(j, f), a) == record_cost(fs, a) + if fs[j].address == a {
        1nat
    } else {
        0nat
    } by {
        lemma_record_cost_update(fs, j, f, a);
    }
    assert forall|a: u64| #[trigger] record_calls(fs.update(j, f), a) == record_calls(fs, a) by {
        lemma_record_calls_same(fs, j, f, a);
    }
}

/// Whether `e` is a completed call to a function of `fs`, whose inclusive cost
/// covers what the callee spent as the innermost frame.
pub open spec fn edge_ok(fs: Seq<Function>, e: CallEdge) -> bool {
    &&& e.index < fs.len()
    &&& fs[e.index as int].address == e.address
    &&& e.address != GROUND_ZERO
}

/// Represents the profile: the active call chain, rooted at a frame that stands
/// for the whole trace, and the registry of the functions seen so far.
pub struct Profile {
    file: String,
    stack: Vec<Frame>,
    functions: Vec<Function>,
    dump: Resolver,
}

impl Profile {
    /// The registry of functions, in order of first sight; the first record
    /// stands for the root.
    pub closed spec fn functions(&self) -> Seq<Function> {
        self.functions@
    }

    /// The addresses of the active chain, the root's first.
    pub closed spec fn chain(&self) -> Seq<u64> {
        self.stack@.map_values(|f: Frame| f.address)
    }

    /// The active frames, the root's first: each with its address and its cost
    /// so far.
    pub closed spec fn frames(&self) -> Seq<(u64, nat)> {
        self.stack@.map_values(|f: Frame| (f.address, f.cost as nat))
    }

    /// The number of calls that are active.
    pub closed spec fn depth(&self) -> nat {
        (self.stack@.len() - 1) as nat
    }

    /// The resolver that names the functions.
    pub closed spec fn resolver(&self) -> Resolver {
        self.dump
    }

    /// The display name of the trace.
    pub closed spec fn file(&self) -> Seq<char> {
        self.file@
    }

    /// The sum of the exclusive costs of all records, the root's included.
    pub closed spec fn exclusive_total(&self) -> nat {
        sum(exclusive_costs(self.functions@))
    }

    /// The cost folded into the root frame: what was spent at the root and in
    /// every call from it that completed.
    pub closed spec fn root_cost(&self) -> nat {
        self.stack@[0].cost as nat
    }

    /// Every record of `before` is still here, at its place, with its address,
    /// name and entry pc.
    pub open spec fn records_kept(&self, before: Profile) -> bool {
        kept(before.functions(), self.functions())
    }

    /// The invariant of the call chain and of the registry.
    pub closed spec fn wf(&self) -> bool {
        let st = self.stack@;
        let fs = self.functions@;
        &&& st.len() >= 1
        &&& fs.len() >= 1
        &&& st[0].address == GROUND_ZERO
        &&& st[0].index == 0
        &&& fs[0].address == GROUND_ZERO
        &&& forall|k: int|
            1 <= k < st.len() ==> (#[trigger] st[k]).address != GROUND_ZERO && st[k].caller == st[k
                - 1].address
        &&& forall|k: int|
            0 <= k < st.len() ==> (#[trigger] st[k]).index < fs.len() && fs[st[k].index as int].address
                == st[k].address
        &&& forall|i: int, j: int|
            0 <= i < j < fs.len() ==> #[trigger] fs[i].address != #[trigger] fs[j].address
        &&& forall|i: int, m: int|
            0 <= i < fs.len() && 0 <= m < fs[i].calls@.len() ==> edge_ok(
                fs,
                #[trigger] fs[i].calls@[m],
            )
        &&& sum(exclusive_costs(fs)) == sum(frame_costs(st))
        &&& sum(frame_costs(st)) <= usize::MAX
        &&& fs[0].calls@.len() == 0
        &&& self.dump.wf()
    }

    /// Creates the initial instance of profile.
    pub fn new(file: String, dump: Resolver) -> (r: Result<Profile, Error>)
        requires
            dump.wf(),
        ensures
            r matches Ok(p) && {
                &&& p.wf()
                &&& p.depth() == 0
                &&& p.exclusive_total() == 0
                &&& p.root_cost() == 0
                &&& p.functions().len() == 1
                &&& p.functions()[0].address == GROUND_ZERO
                &&& p.functions()[0].name@ == "GROUND_ZERO"@
                &&& p.functions()[0].pc == 0
                &&& p.functions()[0].cost == 0
                &&& p.functions()[0].calls@.len() == 0
                &&& p.frames() == seq![(GROUND_ZERO, 0nat)]
                &&& p.chain() == seq![GROUND_ZERO]
                &&& registry_named(p.functions(), p.resolver())
                &&& p.resolver() == dump
                &&& p.file() == file@
            },
    {
        let mut functions: Vec<Function> = Vec::new();
        functions.push(Function::ground_zero());
        let mut stack: Vec<Frame> = Vec::new();
        stack.push(Frame { address: GROUND_ZERO, caller: GROUND_ZERO, cost: 0, index: 0 });
        let p = Profile { file, stack, functions, dump };
        proof {
            assert(exclusive_costs(p.functions@) =~= seq![0nat]);
            assert(frame_costs(p.stack@) =~= seq![0nat]);
            assert(seq![0nat].drop_last() =~= Seq::<nat>::empty());
            assert(p.frames() =~= seq![(GROUND_ZERO, 0nat)]);
            assert(p.chain() =~= seq![GROUND_ZERO]);
            assert(sum(Seq::<nat>::empty()) == 0);
            assert(sum(seq![0nat]) == 0);
            assert(p.functions@[0].calls@.map_values(|e: CallEdge| e.cost as nat) =~= Seq::<nat>::empty());
        }
        Ok(p)
    }

    /// Finds the record of the function at `address`.
    fn find_function(&self, address: Address) -> (r: Option<usize>)
        ensures
            r matches Some(j) ==> j < self.functions@.len() && self.functions@[j as int].address
                == address,
            r is None ==> forall|i: int|
                0 <= i < self.functions@.len() ==> #[trigger] self.functions@[i].address != address,
    {
        let mut i: usize = 0;
        while i < self.functions.len()
            invariant
                i <= self.functions@.len(),
                forall|k: int| 0 <= k < i ==> #[trigger] self.functions@[k].address != address,
            decreases self.functions@.len() - i,
        {
            if self.functions[i].address == address {
                return Some(i);
            }
            i = i + 1;
        }
        None
    }

    /// Attributes one unit of cost to the innermost frame and to its function.
    #[verifier::rlimit(100)]
    fn increment_cost(&mut self)
        requires
            old(self).wf(),
            old(self).exclusive_total() < usize::MAX,
        ensures
            final(self).wf(),
            final(self).exclusive_total() == old(self).exclusive_total() + 1,
            final(self).depth() == old(self).depth(),
            final(self).chain() == old(self).chain(),
            final(self).frames() == charge(old(self).frames()),
            final(self).records_kept(*old(self)),
            final(self).functions().len() == old(self).functions().len(),
            forall|a: u64| #[trigger] record_calls(final(self).functions(), a) == record_calls(old(self).functions(), a),
            forall|a: u64|
                #[trigger] record_cost(final(self).functions(), a) == record_cost(
                    old(self).functions(),
                    a,
                ) + if old(self).chain().last() == a {
                    1nat
                } else {
                    0nat
                },
            final(self).resolver() == old(self).resolver(),
            final(self).file() == old(self).file(),
    {
        let top = self.stack.len() - 1;
        let j = self.stack[top].index;
        let ghost st = self.stack@;
        let ghost fs = self.functions@;
        proof {
            lemma_elem_le_sum(frame_costs(st), top as int);
            lemma_elem_le_sum(exclusive_costs(fs), j as int);
        }
        let f = self.stack[top];
        let c = f.cost;
        self.stack.set(top, Frame { address: f.address, caller: f.caller, cost: c + 1, index: f.index });
        let fc = self.functions[j].cost;
        self.functions[j].cost = fc + 1;
        proof {
            assert(frame_costs(self.stack@) =~= frame_costs(st).update(top as int, (c + 1) as nat));
            lemma_sum_update(frame_costs(st), top as int, (c + 1) as nat);
            assert(exclusive_costs(self.functions@) =~= exclusive_costs(fs).update(j as int, (fc + 1) as nat));
            lemma_sum_update(exclusive_costs(fs), j as int, (fc + 1) as nat);
            assert(self.functions@ == fs.update(j as int, self.functions@[j as int]));
            lemma_bump(fs, j as int, self.functions@[j as int]);
            assert forall|i: int| 0 <= i < fs.len() implies #[trigger] self.functions@[i].address == fs[i].address
                && self.functions@[i].name == fs[i].name && self.functions@[i].pc == fs[i].pc by {}
            assert(self.chain() =~= old(self).chain());
            assert(self.frames() =~= charge(old(self).frames()));
            assert(self.functions@[j as int].calls@ == fs[j as int].calls@);

            assert forall|i: int, m: int|
                0 <= i < self.functions@.len() && 0 <= m < self.functions@[i].calls@.len()
                implies edge_ok(self.functions@, #[trigger] self.functions@[i].calls@[m]) by {
                assert(fs[i].calls@[m] == self.functions@[i].calls@[m]);
                assert(edge_ok(fs, fs[i].calls@[m]));
            }
            if top > 0 {
                assert(st[top as int].address != GROUND_ZERO);
            }
            assert forall|k: int| 0 <= k < self.stack@.len() implies (#[trigger] self.stack@[k]).index
                < self.functions@.len() && self.functions@[self.stack@[k].index as int].address
                == self.stack@[k].address by {
                assert(st[k].index < fs.len());
                assert(fs[st[k].index as int].address == self.functions@[st[k].index as int].address);
            }
            assert forall|k: int| 1 <= k < self.stack@.len() implies (#[trigger] self.stack@[k]).address
                != GROUND_ZERO && self.stack@[k].caller == self.stack@[k - 1].address by {
                assert(st[k].address != GROUND_ZERO && st[k].caller == st[k - 1].address);
            }
            assert forall|a: int, b: int| 0 <= a < b < self.functions@.len() implies
                #[trigger] self.functions@[a].address != #[trigger] self.functions@[b].address by {
                assert(fs[a].address != fs[b].address);
            }
        }
    }

    /// Adds a call of the function at `address` to the call chain, and a record
    /// of it to the registry if it has none yet.
    fn push_call(&mut self, address: Address, first_pc: ProgramCounter)
        requires
            old(self).wf(),
            address != GROUND_ZERO,
            old(self).resolver().counter() < usize::MAX,
        ensures
            final(self).wf(),
            final(self).exclusive_total() == old(self).exclusive_total(),
            final(self).depth() == old(self).depth() + 1,
            final(self).chain() == old(self).chain().push(address),
            final(self).frames() == old(self).frames().push((address, 0nat)),
            forall|a: u64| #[trigger] record_calls(final(self).functions(), a) == record_calls(old(self).functions(), a),
            forall|a: u64| #[trigger] record_cost(final(self).functions(), a) == record_cost(old(self).functions(), a),
            final(self).resolver().counter() <= old(self).resolver().counter() + 1,
            final(self).file() == old(self).file(),
            final(self).records_kept(*old(self)),
            (forall|i: int| 0 <= i < old(self).functions().len() ==> #[trigger] old(self).functions()[i].address != address) ==> {
                let f = final(self).functions().last();
                &&& final(self).functions().len() == old(self).functions().len() + 1
                &&& f.address == address
                &&& f.pc == first_pc
                &&& f.cost == 0
                &&& f.calls@.len() == 0
                &&& updated(old(self).resolver(), final(self).resolver(), address, first_pc)
                &&& f.name@ == final(self).resolver().names()[final(self).resolver().by_address(address)->0 as int]
            },
            !(forall|i: int| 0 <= i < old(self).functions().len() ==> #[trigger] old(self).functions()[i].address != address) ==> {
                &&& final(self).functions().len() == old(self).functions().len()
                &&& final(self).resolver() == old(self).resolver()
            },
    {
        let ghost fs = self.functions@;
        let index = match self.find_function(address) {
            Some(j) => j,
            None => {
                let f = Function::new(address, first_pc, &mut self.dump);
                let n = self.functions.len();
                self.functions.push(f);
                proof {
                    assert(exclusive_costs(self.functions@) =~= exclusive_costs(fs).push(0));
                    lemma_sum_push(exclusive_costs(fs), 0);
                    assert forall|a: u64| #[trigger] record_cost(self.functions@, a) == record_cost(fs, a) by {
                        assert(self.functions@.drop_last() =~= fs);
                    }
                    assert forall|a: u64| #[trigger] record_calls(self.functions@, a) == record_calls(fs, a) by {
                        assert(self.functions@.drop_last() =~= fs);
                        assert(edge_view(self.functions@.last().calls@) =~= Seq::<(u64, nat)>::empty());
                        assert(record_calls(self.functions@, a) =~= record_calls(fs, a));
                    }
                    assert forall|i: int, m: int|
                        0 <= i < self.functions@.len() && 0 <= m < self.functions@[i].calls@.len()
                        implies edge_ok(self.functions@, #[trigger] self.functions@[i].calls@[m]) by {
                        assert(i < fs.len());
                        assert(edge_ok(fs, fs[i].calls@[m]));
                    }
                    assert forall|i: int| 0 <= i < fs.len() implies #[trigger] self.functions@[i] == fs[i] by {}
                }
                n
            },
        };
        let ghost st = self.stack@;
        let caller = self.stack[self.stack.len() - 1].address;
        self.stack.push(Frame { address, caller, cost: 0, index });
        proof {
            assert(frame_costs(self.stack@) =~= frame_costs(st).push(0));
            lemma_sum_push(frame_costs(st), 0);
            assert(self.chain() =~= old(self).chain().push(address));
            assert(self.frames() =~= old(self).frames().push((address, 0nat)));
            let fs2 = self.functions@;
            assert forall|k: int| 0 <= k < self.stack@.len() implies (#[trigger] self.stack@[k]).index
                < fs2.len() && fs2[self.stack@[k].index as int].address
                == self.stack@[k].address by {
                if k < st.len() {
                    assert(st[k].index < fs.len());
                    assert(fs[st[k].index as int].address == fs2[st[k].index as int].address);
                }
            }
            assert forall|k: int| 1 <= k < self.stack@.len() implies (#[trigger] self.stack@[k]).address
                != GROUND_ZERO && self.stack@[k].caller == self.stack@[k - 1].address by {
                if k < st.len() {
                    assert(st[k].address != GROUND_ZERO && st[k].caller == st[k - 1].address);
                }
            }
            assert forall|a: int, b: int| 0 <= a < b < fs2.len() implies
                #[trigger] fs2[a].address != #[trigger] fs2[b].address by {
                if b < fs.len() {
                    assert(fs[a].address != fs[b].address);
                }
            }
        }
    }

    /// Removes the innermost call from the call chain and folds its cost into
    /// its caller's frame; unless the caller is the root, the call is recorded
    /// as a completed call of the caller's function.
    #[verifier::rlimit(100)]
    #[verifier::spinoff_prover]
    fn pop_call(&mut self)
        requires
            old(self).wf(),
            old(self).depth() > 0,
        ensures
            final(self).wf(),
            final(self).exclusive_total() == old(self).exclusive_total(),
            final(self).depth() == old(self).depth() - 1,
            final(self).chain() == old(self).chain().drop_last(),
            final(self).frames() == ({
                let p = old(self).frames().drop_last();
                p.update(p.len() - 1, (p.last().0, p.last().1 + old(self).frames().last().1))
            }),
            forall|a: u64| #[trigger] record_calls(final(self).functions(), a) == record_calls(old(self).functions(), a) + if old(self).frames().len() > 2 && old(self).frames()[old(self).frames().len() - 2].0 == a {
                seq![old(self).frames().last()]
            } else {
                Seq::empty()
            },
            forall|a: u64| #[trigger] record_cost(final(self).functions(), a) == record_cost(old(self).functions(), a),
            final(self).records_kept(*old(self)),
            final(self).functions().len() == old(self).functions().len(),
            final(self).resolver() == old(self).resolver(),
            final(self).file() == old(self).file(),
    {
        let ghost st = self.stack@;
        let ghost fs = self.functions@;
        let call = self.stack.pop().unwrap();
        let p = self.stack.len() - 1;
        proof {
            assert(frame_costs(st).drop_last() =~= frame_costs(self.stack@));
            lemma_elem_le_sum(frame_costs(self.stack@), p as int);
        }
        let parent = self.stack[p];
        let pc = parent.cost;
        self.stack.set(p, Frame { address: parent.address, caller: parent.caller, cost: pc + call.cost, index: parent.index });
        proof {
            assert(frame_costs(self.stack@) =~= frame_costs(st).drop_last().update(p as int, (pc + call.cost) as nat));
            lemma_sum_update(frame_costs(st).drop_last(), p as int, (pc + call.cost) as nat);
            assert(self.chain() =~= old(self).chain().drop_last());
            let p0 = old(self).frames().drop_last();
            assert(self.frames() =~= p0.update(p0.len() - 1, (p0.last().0, p0.last().1 + old(self).frames().last().1)));
            assert(st[(p + 1) as int].address != GROUND_ZERO);
        }
        if p > 0 {
            let j = parent.index;
            let ghost calls = self.functions@[j as int].calls@;
            self.functions[j].calls.push(CallEdge { address: call.address, cost: call.cost, index: call.index });
            proof {
                assert(exclusive_costs(self.functions@) =~= exclusive_costs(fs));
                assert(self.functions@ == fs.update(j as int, self.functions@[j as int]));
                assert forall|a: u64| #[trigger] record_cost(self.functions@, a) == record_cost(fs, a) by {
                    lemma_record_cost_update(fs, j as int, self.functions@[j as int], a);
                }
                assert(st[p as int].index == j);
                assert(st[p as int].address != GROUND_ZERO);
                assert forall|q: int| 0 <= q < fs.len() && q != j as int implies #[trigger] fs[q].address != fs[j as int].address by {
                    if q < j { assert(fs[q].address != fs[j as int].address); } else { assert(fs[j as int].address != fs[q].address); }
                }
                assert forall|a: u64| #[trigger] record_calls(self.functions@, a) == record_calls(fs, a) + if old(self).frames().len() > 2 && old(self).frames()[old(self).frames().len() - 2].0 == a {
                    seq![old(self).frames().last()]
                } else {
                    Seq::empty()
                } by {
                    lemma_record_calls_push(fs, j as int, self.functions@[j as int], CallEdge { address: call.address, cost: call.cost, index: call.index }, a);
                }
                assert forall|i: int, m: int|
                    0 <= i < self.functions@.len() && 0 <= m < self.functions@[i].calls@.len()
                    implies edge_ok(self.functions@, #[trigger] self.functions@[i].calls@[m]) by {
                    if i != j || m < calls.len() {
                        assert(fs[i].calls@[m] == self.functions@[i].calls@[m]);
                        assert(edge_ok(fs, fs[i].calls@[m]));
                    }
                }
                assert(j != 0);
                assert(self.functions@[0] == fs[0]);
            }
        } else {
            proof {
                assert forall|a: u64| #[trigger] record_calls(self.functions@, a) == record_calls(fs, a) + if old(self).frames().len() > 2 && old(self).frames()[old(self).frames().len() - 2].0 == a {
                    seq![old(self).frames().last()]
                } else {
                    Seq::empty()
                } by {
                    assert(record_calls(fs, a) =~= record_calls(fs, a) + Seq::<(u64, nat)>::empty());
                }
            }
        }
        proof {
            assert forall|k: int| 0 <= k < self.stack@.len() implies (#[trigger] self.stack@[k]).index
                < self.functions@.len() && self.functions@[self.stack@[k].index as int].address
                == self.stack@[k].address by {
                assert(st[k].index < fs.len());
                assert(fs[st[k].index as int].address == self.functions@[st[k].index as int].address);
            }
            assert forall|k: int| 1 <= k < self.stack@.len() implies (#[trigger] self.stack@[k]).address
                != GROUND_ZERO && self.stack@[k].caller == self.stack@[k - 1].address by {
                assert(st[k].address != GROUND_ZERO && st[k].caller == st[k - 1].address);
            }
            assert forall|a: int, b: int| 0 <= a < b < self.functions@.len() implies
                #[trigger] self.functions@[a].address != #[trigger] self.functions@[b].address by {
                assert(fs[a].address != fs[b].address);
            }
            assert forall|i: int| 0 <= i < fs.len() implies #[trigger] self.functions@[i].address == fs[i].address
                && self.functions@[i].name == fs[i].name && self.functions@[i].pc == fs[i].pc by {}
        }
    }
}

proof fn lemma_prefix_sum_le(es: Seq<CallEdge>, n: int)
    requires
        0 <= n <= es.len(),
    ensures
        edge_sum(es.subrange(0, n)) <= edge_sum(es),
    decreases es.len() - n,
{
    if n < es.len() {
        let costs = |e: CallEdge| e.cost as nat;
        lemma_prefix_sum_le(es, n + 1);
        assert(es.subrange(0, n + 1).map_values(costs) =~= es.subrange(0, n).map_values(costs).push(
            es[n].cost as nat,
        ));
        lemma_sum_push(es.subrange(0, n).map_values(costs), es[n].cost as nat);
    } else {
        assert(es.subrange(0, n) =~= es);
    }
}

} // verus!

verus! {

/// Whether record `f` was registered by the call at position `k` of `lines`:
/// a call to its address, whose callee's entry pc it carries.
pub open spec fn introduced_at(lines: Seq<Instruction>, k: int, f: Function) -> bool {
    0 <= k < lines.len() && match lines[k] {
        Instruction::Call { pc, target } => target == f.address && f.pc == entry_pc(lines, k, pc),
        _ => false,
    }
}

/// Whether record `f` was registered by some call of `lines`.
pub open spec fn registered_by(lines: Seq<Instruction>, f: Function) -> bool {
    exists|k: int| introduced_at(lines, k, f)
}

/// Whether `d` gives the address of `f` the name that `f` carries.
pub open spec fn named_by(d: Resolver, f: Function) -> bool {
    &&& d.by_address(f.address) is Some
    &&& (d.by_address(f.address)->0 as int) < d.names().len()
    &&& d.names()[d.by_address(f.address)->0 as int] == f.name@
}

/// Whether every record but the root's carries the name that `d` gives its address.
pub open spec fn registry_named(fs: Seq<Function>, d: Resolver) -> bool {
    forall|i: int| 1 <= i < fs.len() ==> named_by(d, #[trigger] fs[i])
}

/// Whether `fs1` keeps every record of `fs0` at its place, with its address,
/// name and entry pc.
pub open spec fn kept(fs0: Seq<Function>, fs1: Seq<Function>) -> bool {
    &&& fs0.len() <= fs1.len()
    &&& forall|i: int|
        0 <= i < fs0.len() ==> (#[trigger] fs1[i]).address == fs0[i].address && fs1[i].name
            == fs0[i].name && fs1[i].pc == fs0[i].pc
}

proof fn lemma_kept_trans(a: Seq<Function>, b: Seq<Function>, c: Seq<Function>)
    requires
        kept(a, b),
        kept(b, c),
    ensures
        kept(a, c),
{
    assert forall|i: int| 0 <= i < a.len() implies (#[trigger] c[i]).address == a[i].address && c[i].name
        == a[i].name && c[i].pc == a[i].pc by {
        assert(b[i].address == a[i].address);
    }
}

proof fn lemma_named_same(fs0: Seq<Function>, fs1: Seq<Function>, d: Resolver)
    requires
        registry_named(fs0, d),
        kept(fs0, fs1),
        fs1.len() == fs0.len(),
    ensures
        registry_named(fs1, d),
{
    assert forall|i: int| 1 <= i < fs1.len() implies named_by(d, #[trigger] fs1[i]) by {
        assert(named_by(d, fs0[i]));
    }
}

proof fn lemma_named_push(fs0: Seq<Function>, fs1: Seq<Function>, d0: Resolver, d1: Resolver, address: u64, pc: u64)
    requires
        registry_named(fs0, d0),
        d0.wf(),
        kept(fs0, fs1),
        fs1.len() == fs0.len() + 1,
        forall|i: int| 0 <= i < fs0.len() ==> #[trigger] fs0[i].address != address,
        fs1.last().address == address,
        updated(d0, d1, address, pc),
        fs1.last().name@ == d1.names()[d1.by_address(address)->0 as int],
    ensures
        registry_named(fs1, d1),
{
    assert(d0.names().is_prefix_of(d1.names()));
    assert forall|i: int| 1 <= i < fs1.len() implies named_by(d1, #[trigger] fs1[i]) by {
        if i < fs0.len() {
            assert(named_by(d0, fs0[i]));
            assert(fs0[i].address != address);
        } else {
            assert(fs1[i] == fs1.last());
        }
    }
}

proof fn lemma_count_le(lines: Seq<Instruction>)
    ensures
        instruction_count(lines) <= lines.len(),
    decreases lines.len(),
{
    if lines.len() > 0 {
        lemma_count_le(lines.drop_last());
    }
}

/// Parses the classified trace `lines` in order, building the profile.
///
/// Each instruction costs one unit, which goes to the innermost active call;
/// a call then opens a new innermost call, and an exit closes it. Calls left
/// open at the end stay open.
#[verifier::rlimit(100)]
pub fn parse_trace_file(lines: &Vec<Instruction>, prof: &mut Profile) -> (r: Result<(), Error>)
    requires
        old(prof).wf(),
        registry_named(old(prof).functions(), old(prof).resolver()),
        old(prof).exclusive_total() + lines@.len() <= usize::MAX,
        old(prof).resolver().counter() + lines@.len() < usize::MAX,
    ensures
        final(prof).wf(),
        final(prof).file() == old(prof).file(),
        kept(old(prof).functions(), final(prof).functions()),
        registry_named(final(prof).functions(), final(prof).resolver()),
        forall|j: int|
            old(prof).functions().len() <= j < final(prof).functions().len() ==> registered_by(
                lines@,
                #[trigger] final(prof).functions()[j],
            ),
        r is Ok <==> well_nested(old(prof).depth(), lines@),
        r is Ok ==> final(prof).exclusive_total() == old(prof).exclusive_total()
            + instruction_count(lines@),
        r is Ok ==> final(prof).depth() == depth_after(old(prof).depth(), lines@),
        r is Ok ==> final(prof).chain() == chain_after(old(prof).chain(), lines@),
        r is Ok ==> final(prof).frames() == frames_after(old(prof).frames(), lines@),
        r is Ok ==> forall|a: u64|
            #[trigger] record_calls(final(prof).functions(), a) == record_calls(old(prof).functions(), a)
                + edges_after(old(prof).frames(), lines@, a),
        r is Ok ==> forall|a: u64|
            #[trigger] record_cost(final(prof).functions(), a) == record_cost(old(prof).functions(), a)
                + self_cost(old(prof).chain(), lines@, a),
        r matches Err(e) ==> e is EmptyStack || e is ReservedAddress,
{
    let ghost d0 = prof.depth();
    let ghost t0 = prof.exclusive_total();
    let ghost c0 = prof.resolver().counter();
    let mut i: usize = 0;
    proof {
        assert(kept(prof.functions(), prof.functions()));
        assert(lines@.subrange(0, 0) =~= Seq::<Instruction>::empty());
        assert(lines@.subrange(0, lines@.len() as int) =~= lines@);
    }
    while i < lines.len()
        invariant
            i <= lines@.len(),
            prof.wf(),
            prof.file() == old(prof).file(),
            well_nested(d0, lines@) == well_nested(
                prof.depth(),
                lines@.subrange(i as int, lines@.len() as int),
            ),
            depth_after(d0, lines@) == depth_after(
                prof.depth(),
                lines@.subrange(i as int, lines@.len() as int),
            ),
            prof.exclusive_total() == t0 + instruction_count(lines@.subrange(0, i as int)),
            prof.resolver().counter() <= c0 + i,
            d0 == old(prof).depth(),
            t0 == old(prof).exclusive_total(),
            kept(old(prof).functions(), prof.functions()),
            registry_named(prof.functions(), prof.resolver()),
            forall|j: int|
                old(prof).functions().len() <= j < prof.functions().len() ==> registered_by(
                    lines@,
                    #[trigger] prof.functions()[j],
                ),
            chain_after(old(prof).chain(), lines@) == chain_after(
                prof.chain(),
                lines@.subrange(i as int, lines@.len() as int),
            ),
            frames_after(old(prof).frames(), lines@) == frames_after(
                prof.frames(),
                lines@.subrange(i as int, lines@.len() as int),
            ),
            forall|a: u64|
                #[trigger] record_calls(old(prof).functions(), a) + edges_after(old(prof).frames(), lines@, a)
                    == record_calls(prof.functions(), a) + edges_after(
                    prof.frames(),
                    lines@.subrange(i as int, lines@.len() as int),
                    a,
                ),
            forall|a: u64|
                #[trigger] record_cost(prof.functions(), a) + self_cost(
                    prof.chain(),
                    lines@.subrange(i as int, lines@.len() as int),
                    a,
                ) == record_cost(old(prof).functions(), a) + self_cost(old(prof).chain(), lines@, a),
            t0 + lines@.len() <= usize::MAX,
            c0 + lines@.len() < usize::MAX,
        decreases lines@.len() - i,
    {
        let ix = lines[i];
        let ghost rest = lines@.subrange(i as int, lines@.len() as int);
        let ghost ch = prof.chain();
        let ghost fr = prof.frames();
        let ghost fs = prof.functions();
        proof {
            lemma_chain_len(prof);
        }
        proof {
            let rest = lines@.subrange(i as int, lines@.len() as int);
            assert(rest[0] == ix);
            assert(rest.drop_first() =~= lines@.subrange(i + 1, lines@.len() as int));
            let pre = lines@.subrange(0, i + 1);
            assert(pre.drop_last() =~= lines@.subrange(0, i as int));
            assert(instruction_count(pre) == instruction_count(lines@.subrange(0, i as int))
                + line_cost(ix));
            lemma_count_le(lines@.subrange(0, i as int));
        }
        match ix {
            Instruction::Call { pc, target } => {
                if target == GROUND_ZERO {
                    assert(!well_nested(prof.depth(), rest));
                    return Err(Error::ReservedAddress(i + 1));
                }
                let entry = entry_pc_at(lines, i, pc);
                let ghost p0 = *prof;
                prof.increment_cost();
                let ghost p1 = *prof;
                proof {
                    lemma_named_same(p0.functions(), p1.functions(), p1.resolver());
                }
                prof.push_call(target, entry);
                proof {
                    lemma_kept_trans(old(prof).functions(), p0.functions(), p1.functions());
                    lemma_kept_trans(old(prof).functions(), p1.functions(), prof.functions());
                    if forall|q: int| 0 <= q < p1.functions().len() ==> #[trigger] p1.functions()[q].address != target {
                        lemma_named_push(p1.functions(), prof.functions(), p1.resolver(), prof.resolver(), target, entry);
                    } else {
                        lemma_named_same(p1.functions(), prof.functions(), prof.resolver());
                    }
                    assert forall|j: int|
                        old(prof).functions().len() <= j < prof.functions().len() implies registered_by(lines@, #[trigger] prof.functions()[j]) by {
                        if j < p0.functions().len() {
                            let k = choose|k: int| introduced_at(lines@, k, p0.functions()[j]);
                            assert(introduced_at(lines@, k, prof.functions()[j]));
                        } else {
                            assert(introduced_at(lines@, i as int, prof.functions()[j]));
                        }
                    }
                }
            },
            Instruction::Exit { .. } => {
                if prof.call_depth() == 0 {
                    assert(!well_nested(prof.depth(), rest));
                    return Err(Error::EmptyStack(i + 1));
                }
                let ghost p0 = *prof;
                prof.increment_cost();
                let ghost pm = *prof;
                prof.pop_call();
                proof {
                    lemma_kept_trans(p0.functions(), pm.functions(), prof.functions());
                    lemma_kept_trans(old(prof).functions(), p0.functions(), prof.functions());
                    lemma_named_same(p0.functions(), prof.functions(), prof.resolver());
                    assert forall|j: int|
                        old(prof).functions().len() <= j < prof.functions().len() implies registered_by(lines@, #[trigger] prof.functions()[j]) by {
                        let k = choose|k: int| introduced_at(lines@, k, p0.functions()[j]);
                        assert(introduced_at(lines@, k, prof.functions()[j]));
                    }
                }
            },
            Instruction::Other { .. } => {
                let ghost p0 = *prof;
                prof.increment_cost();
                proof {
                    lemma_kept_trans(old(prof).functions(), p0.functions(), prof.functions());
                    lemma_named_same(p0.functions(), prof.functions(), prof.resolver());
                    assert forall|j: int|
                        old(prof).functions().len() <= j < prof.functions().len() implies registered_by(lines@, #[trigger] prof.functions()[j]) by {
                        let k = choose|k: int| introduced_at(lines@, k, p0.functions()[j]);
                        assert(introduced_at(lines@, k, prof.functions()[j]));
                    }
                }
            },
            Instruction::Skip => {},
        }
        proof {
            let rest2 = lines@.subrange(i + 1, lines@.len() as int);
            assert(rest.drop_first() =~= rest2);
            assert(prof.chain() == next_chain(ch, ix));
            assert(prof.frames() == next_frames(fr, ix));
            assert forall|a: u64| #[trigger] record_calls(prof.functions(), a) == record_calls(fs, a) + new_edge(fr, ix, a) by {
                if !(ix is Exit && fr.len() > 1 && fr[fr.len() - 2].0 == a) {
                    assert(record_calls(prof.functions(), a) =~= record_calls(fs, a) + new_edge(fr, ix, a));
                }
            }
            assert forall|a: u64| #[trigger] record_calls(old(prof).functions(), a) + edges_after(old(prof).frames(), lines@, a)
                == record_calls(prof.functions(), a) + edges_after(prof.frames(), rest2, a) by {
                assert(edges_after(fr, rest, a) == new_edge(fr, ix, a) + edges_after(prof.frames(), rest2, a));
                assert(record_calls(fs, a) + (new_edge(fr, ix, a) + edges_after(prof.frames(), rest2, a))
                    =~= (record_calls(fs, a) + new_edge(fr, ix, a)) + edges_after(prof.frames(), rest2, a));
            }
            assert forall|a: u64| #[trigger] record_cost(prof.functions(), a) + self_cost(prof.chain(), rest2, a)
                == record_cost(fs, a) + self_cost(ch, rest, a) by {
            }
        }
        i = i + 1;
    }
    assert(lines@.subrange(i as int, lines@.len() as int) =~= Seq::<Instruction>::empty());
    assert(lines@.subrange(0, i as int) =~= lines@);
    assert forall|a: u64| #[trigger] record_calls(prof.functions(), a) == record_calls(old(prof).functions(), a)
        + edges_after(old(prof).frames(), lines@, a) by {
        assert(record_calls(prof.functions(), a) =~= record_calls(prof.functions(), a) + Seq::<(u64, nat)>::empty());
    }
    Ok(())
}

} // verus!

verus! {

impl Profile {
    /// The registry of functions; the first record stands for the root.
    pub fn registry(&self) -> (r: &Vec<Function>)
        ensures
            r@ == self.functions(),
    {
        &self.functions
    }

    /// The number of calls that are active.
    pub fn call_depth(&self) -> (r: usize)
        requires
            self.wf(),
        ensures
            r == self.depth(),
    {
        self.stack.len() - 1
    }

    /// The resolver that names the functions.
    pub fn dump(&self) -> (r: &Resolver)
        ensures
            *r == self.resolver(),
    {
        &self.dump
    }

    /// The grand total: the cost of the root and of every call from it that
    /// completed.
    pub fn grand_total(&self) -> (r: usize)
        requires
            self.wf(),
        ensures
            r == self.root_cost(),
    {
        proof {
            lemma_elem_le_sum(frame_costs(self.stack@), 0);
        }
        self.stack[0].cost
    }

    /// Writes the profile data in the callgrind format.
    pub fn write_callgrind(&self) -> (r: String)
        requires
            self.wf(),
        ensures
            r@ == report_text(self.root_cost(), self.file(), self.functions()),
    {
        let mut out = String::new();
        out.append("# callgrind format\n");
        out.append("version: 1\n");
        out.append("creator: bpf-profile\n");
        out.append("events: Instructions\n");
        out.append("totals: ");
        push_dec(&mut out, self.grand_total() as u64);
        out.append("\n");
        out.append("fl=");
        out.append(self.file.as_str());
        out.append("\n");
        let ghost head = out@;
        proof {
            assert(head =~= header_text(self.root_cost(), self.file()));
            lemma_registry_ok(self);
        }
        write_callgrind_functions(&self.functions, &mut out);
        out
    }
}

/// The active chain holds the root and one address per active call.
pub proof fn lemma_chain_len(p: &Profile)
    requires
        p.wf(),
    ensures
        p.chain().len() == p.depth() + 1,
        p.chain()[0] == GROUND_ZERO,
{
}

/// A well-formed profile's registry can be rendered.
pub proof fn lemma_registry_ok(p: &Profile)
    requires
        p.wf(),
    ensures
        registry_ok(p.functions()),
{
}

/// Every instruction is counted once: the exclusive costs of all records, the
/// root's residual cost included, add up to the cost held in the frames of the
/// active chain, and once every call has returned, to the grand total.
pub proof fn lemma_cost_conservation(p: &Profile)
    requires
        p.wf(),
    ensures
        p.depth() == 0 ==> p.exclusive_total() == p.root_cost(),
        p.exclusive_total() >= p.root_cost(),
{
    lemma_elem_le_sum(frame_costs(p.stack@), 0);
    if p.depth() == 0 {
        assert(frame_costs(p.stack@).drop_last() =~= Seq::<nat>::empty());
        assert(sum(Seq::<nat>::empty()) == 0);
        assert(frame_costs(p.stack@).last() == p.stack@[0].cost as nat);
    }
}

/// Rendering one profile twice gives the same text.
pub proof fn lemma_report_deterministic(p: &Profile, r1: Seq<char>, r2: Seq<char>)
    requires
        r1 == report_text(p.root_cost(), p.file(), p.functions()),
        r2 == report_text(p.root_cost(), p.file(), p.functions()),
    ensures
        r1 == r2,
{
}

} // verus!
