//! Name resolution of called addresses.

use crate::digits::{dec, hex, push_dec, push_hex};
use crate::error::Error;
use crate::trace::{parse_number, to_chars};
use crate::{Address, ProgramCounter, GROUND_ZERO};
use vstd::prelude::*;

verus! {

/// The value that the last entry for key `k` of an association list holds.
pub open spec fn assoc(s: Seq<(u64, usize)>, k: u64) -> Option<usize>
    decreases s.len(),
{
    if s.len() == 0 {
        None
    } else if s.last().0 == k {
        Some(s.last().1)
    } else {
        assoc(s.drop_last(), k)
    }
}

/// Appending an entry overrides the key it names and keeps the others.
pub proof fn lemma_assoc_push(s: Seq<(u64, usize)>, e: (u64, usize))
    ensures
        forall|k: u64| #[trigger]
            assoc(s.push(e), k) == if e.0 == k {
                Some(e.1)
            } else {
                assoc(s, k)
            },
{
    assert(s.push(e).drop_last() =~= s);
}

/// The placeholder name given to the `n`-th address that could not be resolved:
/// `function_<n> (0x<address>)`.
pub open spec fn unresolved_name(n: nat, address: nat) -> Seq<char> {
    seq!['f', 'u', 'n', 'c', 't', 'i', 'o', 'n', '_'] + dec(n) + seq![' ', '(', '0', 'x'] + hex(
        address,
    ) + seq![')']
}

/// Looks up the last entry for key `k`.
pub fn find(s: &Vec<(u64, usize)>, k: u64) -> (r: Option<usize>)
    ensures
        r == assoc(s@, k),
{
    let mut i: usize = s.len();
    assert(s@.subrange(0, i as int) =~= s@);
    while i > 0
        invariant
            i <= s@.len(),
            assoc(s@, k) == assoc(s@.subrange(0, i as int), k),
        decreases i,
    {
        let ghost pre = s@.subrange(0, i as int);
        assert(pre.drop_last() =~= s@.subrange(0, i - 1));
        if s[i - 1].0 == k {
            return Some(s[i - 1].1);
        }
        i = i - 1;
    }
    assert(s@.subrange(0, 0) =~= Seq::<(u64, usize)>::empty());
    None
}

/// An index that is absent or below `n`.
pub open spec fn index_below(o: Option<usize>, n: nat) -> bool {
    o matches Some(i) ==> i < n
}

/// How `update(address, first_pc)` takes resolver `pre` to `post`: a known
/// address keeps its name; an unknown one takes the name of the routine that
/// begins at `first_pc` if there is one, else the next placeholder name.
pub open spec fn updated(pre: Resolver, post: Resolver, address: u64, first_pc: u64) -> bool {
    &&& post.wf()
    &&& post.spec_is_default() == pre.spec_is_default()
    &&& post.by_address(address) is Some
    &&& forall|a: u64| a != address ==> #[trigger] post.by_address(a) == pre.by_address(a)
    &&& pre.by_address(address) is Some ==> post == pre
    &&& (pre.by_address(address) is None && pre.by_first_pc(first_pc) is Some) ==> {
        &&& post.by_address(address) == pre.by_first_pc(first_pc)
        &&& post.names() == pre.names()
        &&& post.counter() == pre.counter()
        &&& forall|pc: u64| #[trigger] post.by_first_pc(pc) == pre.by_first_pc(pc)
    }
    &&& (pre.by_address(address) is None && pre.by_first_pc(first_pc) is None) ==> {
        &&& post.names() == pre.names().push(unresolved_name(pre.counter(), address as nat))
        &&& post.by_address(address) == Some(pre.names().len() as usize)
        &&& post.by_first_pc(first_pc) == Some(pre.names().len() as usize)
        &&& post.counter() == pre.counter() + 1
        &&& forall|pc: u64| pc != first_pc ==> #[trigger] post.by_first_pc(pc) == pre.by_first_pc(pc)
    }
}

/// Copies of one routine share its name: two addresses first seen with the same
/// first program counter resolve to the same name.
pub proof fn lemma_copy_unification(
    r0: Resolver,
    r1: Resolver,
    r2: Resolver,
    a1: u64,
    a2: u64,
    pc: u64,
)
    requires
        r0.wf(),
        a1 != a2,
        r0.by_address(a1) is None,
        r0.by_address(a2) is None,
        updated(r0, r1, a1, pc),
        updated(r1, r2, a2, pc),
    ensures
        r2.by_address(a1) == r2.by_address(a2),
        r2.names().len() == r1.names().len(),
{
    assert(r1.by_first_pc(pc) is Some);
    assert(r1.by_address(a2) == r0.by_address(a2));
}

/// Addresses that nothing resolves get placeholder names numbered in order:
/// two such addresses, with first program counters that are not known either,
/// get the next two numbers.
pub proof fn lemma_unresolved_numbering(
    r0: Resolver,
    r1: Resolver,
    r2: Resolver,
    a1: u64,
    a2: u64,
    pc1: u64,
    pc2: u64,
)
    requires
        r0.wf(),
        a1 != a2,
        pc1 != pc2,
        r0.by_address(a1) is None,
        r0.by_address(a2) is None,
        r0.by_first_pc(pc1) is None,
        r0.by_first_pc(pc2) is None,
        updated(r0, r1, a1, pc1),
        updated(r1, r2, a2, pc2),
    ensures
        r2.by_address(a1) == Some(r0.names().len() as usize),
        r2.by_address(a2) == Some((r0.names().len() + 1) as usize),
        r2.names() == r0.names().push(unresolved_name(r0.counter(), a1 as nat)).push(
            unresolved_name(r0.counter() + 1, a2 as nat),
        ),
{
    assert(r1.by_address(a2) == r0.by_address(a2));
    assert(r1.by_first_pc(pc2) == r0.by_first_pc(pc2));
}

/// Maps called addresses to display names.
///
/// Names are kept once each; an address, and the program counter of a routine's
/// first instruction, index into them. Addresses that share a first program
/// counter are copies of one routine and share its name.
#[derive(Debug)]
pub struct Resolver {
    not_default: bool,
    functions: Vec<String>,
    index_function_by_address: Vec<(u64, usize)>,
    index_function_by_first_pc: Vec<(u64, usize)>,
    unresolved_counter: usize,
}

impl Resolver {
    /// The names that the resolver knows, in the order they were learned.
    pub closed spec fn names(&self) -> Seq<Seq<char>> {
        self.functions@.map_values(|s: String| s@)
    }

    /// The index of the name of `address`, if it has one.
    pub closed spec fn by_address(&self, address: u64) -> Option<usize> {
        assoc(self.index_function_by_address@, address)
    }

    /// The index of the name of the routine whose first instruction is at `pc`.
    pub closed spec fn by_first_pc(&self, pc: u64) -> Option<usize> {
        assoc(self.index_function_by_first_pc@, pc)
    }

    /// How many placeholder names have been given out.
    pub closed spec fn counter(&self) -> nat {
        self.unresolved_counter as nat
    }

    /// Whether the resolver was made from nothing rather than from a dump.
    pub closed spec fn spec_is_default(&self) -> bool {
        !self.not_default
    }

    /// Every index points at a name.
    pub open spec fn wf(&self) -> bool {
        &&& self.names().len() <= usize::MAX
        &&& forall|a: u64| index_below(#[trigger] self.by_address(a), self.names().len())
        &&& forall|pc: u64| index_below(#[trigger] self.by_first_pc(pc), self.names().len())
    }

    /// A resolver that knows no names.
    pub fn new() -> (r: Resolver)
        ensures
            r.wf(),
            r.names().len() == 0,
            r.counter() == 0,
            r.spec_is_default(),
            forall|a: u64| r.by_address(a) is None,
            forall|pc: u64| r.by_first_pc(pc) is None,
    {
        Resolver {
            not_default: false,
            functions: Vec::new(),
            index_function_by_address: Vec::new(),
            index_function_by_first_pc: Vec::new(),
            unresolved_counter: 0,
        }
    }

    /// Checks if resolver was made from nothing (default) or from a dump.
    pub fn is_default(&self) -> (r: bool)
        ensures
            r == self.spec_is_default(),
    {
        !self.not_default
    }

    /// Marks the resolver as made from a dump.
    pub fn set_from_dump(&mut self)
        ensures
            !final(self).spec_is_default(),
            final(self).names() == old(self).names(),
            final(self).counter() == old(self).counter(),
            forall|a: u64| final(self).by_address(a) == old(self).by_address(a),
            forall|pc: u64| final(self).by_first_pc(pc) == old(self).by_first_pc(pc),
    {
        self.not_default = true;
    }

    /// Takes an address and returns the name of the corresponding function.
    pub fn resolve_by_address(&self, address: Address) -> (r: String)
        requires
            self.wf(),
            address != GROUND_ZERO,
            self.by_address(address) is Some,
        ensures
            r@ == self.names()[self.by_address(address)->0 as int],
    {
        let func_index = find(&self.index_function_by_address, address).unwrap();
        self.functions[func_index].clone()
    }

    /// Takes a program counter and returns the name of the function which begins
    /// with it (if any).
    pub fn resolve_by_first_pc(&self, pc: ProgramCounter) -> (r: Option<String>)
        requires
            self.wf(),
        ensures
            match self.by_first_pc(pc) {
                Some(i) => r matches Some(s) && s@ == self.names()[i as int],
                None => r is None,
            },
    {
        match find(&self.index_function_by_first_pc, pc) {
            Some(i) => Some(self.functions[i].clone()),
            None => None,
        }
    }

    /// Checks if a function begins at `first_pc`.
    pub fn contains_function_with_first_pc(&self, first_pc: ProgramCounter) -> (r: bool)
        ensures
            r == self.by_first_pc(first_pc) is Some,
    {
        find(&self.index_function_by_first_pc, first_pc).is_some()
    }

    /// Adds `name` as the name of the routine that begins at `first_pc`, and
    /// returns its index.
    pub fn update_first_pc_index(&mut self, name: &str, first_pc: ProgramCounter) -> (r: usize)
        requires
            old(self).wf(),
        ensures
            final(self).wf(),
            r == old(self).names().len(),
            final(self).names() == old(self).names().push(name@),
            final(self).by_first_pc(first_pc) == Some(r),
            forall|pc: u64|
                pc != first_pc ==> #[trigger] final(self).by_first_pc(pc) == old(self).by_first_pc(pc),
            forall|a: u64| #[trigger] final(self).by_address(a) == old(self).by_address(a),
            final(self).counter() == old(self).counter(),
            final(self).spec_is_default() == old(self).spec_is_default(),
    {
        let func_index = self.functions.len();
        self.functions.push(name.to_string());
        let grown = self.functions.len();
        assert(grown as int == self.names().len());
        self.index_function_by_first_pc.push((first_pc, func_index));
        proof {
            assert(self.names() =~= old(self).names().push(name@));
            lemma_assoc_push(old(self).index_function_by_first_pc@, (first_pc, func_index));
            assert forall|a: u64| index_below(#[trigger] self.by_address(a), self.names().len()) by {
                assert(index_below(old(self).by_address(a), old(self).names().len()));
            }
            assert forall|pc: u64| index_below(#[trigger] self.by_first_pc(pc), self.names().len()) by {
                assert(index_below(old(self).by_first_pc(pc), old(self).names().len()));
            }
        }
        func_index
    }

    /// Takes an address and returns the name of its function; an address that
    /// is not known yet takes the name of the routine that begins at `first_pc`,
    /// or else a new placeholder name.
    pub fn update(&mut self, address: Address, first_pc: ProgramCounter) -> (r: String)
        requires
            old(self).wf(),
            address != GROUND_ZERO,
            old(self).counter() < usize::MAX,
        ensures
            updated(*old(self), *final(self), address, first_pc),
            r@ == final(self).names()[final(self).by_address(address)->0 as int],
    {
        let found = find(&self.index_function_by_address, address);
        if found.is_none() {
            let by_pc = find(&self.index_function_by_first_pc, first_pc);
            if by_pc.is_some() {
                // There can be multiple copies of one function with different addresses
                let func_index = by_pc.unwrap();
                self.index_function_by_address.push((address, func_index));
                proof {
                    lemma_assoc_push(old(self).index_function_by_address@, (address, func_index));
                    assert(index_below(old(self).by_first_pc(first_pc), old(self).names().len()));
                    assert forall|a: u64| index_below(#[trigger] self.by_address(a), self.names().len()) by {
                        assert(index_below(old(self).by_address(a), old(self).names().len()));
                    }
                    assert forall|a: u64| a != address implies #[trigger] self.by_address(a) == old(self).by_address(a) by {
                    }
                    assert forall|pc: u64| index_below(#[trigger] self.by_first_pc(pc), self.names().len()) by {
                        assert(index_below(old(self).by_first_pc(pc), old(self).names().len()));
                    }
                }
            } else {
                let mut name = String::new();
                name.append("function_");
                push_dec(&mut name, self.unresolved_counter as u64);
                name.append(" (0x");
                push_hex(&mut name, address);
                name.append(")");
                proof {
                    reveal_strlit("function_");
                    reveal_strlit(" (0x");
                    reveal_strlit(")");
                    assert(name@ =~= unresolved_name(old(self).counter(), address as nat));
                }
                self.unresolved_counter = self.unresolved_counter + 1;
                assert forall|a: u64| index_below(#[trigger] self.by_address(a), self.names().len()) by {
                    assert(index_below(old(self).by_address(a), old(self).names().len()));
                }
                assert forall|pc: u64| index_below(#[trigger] self.by_first_pc(pc), self.names().len()) by {
                    assert(index_below(old(self).by_first_pc(pc), old(self).names().len()));
                }
                let ghost before = *self;
                assert(before.index_function_by_address@ == old(self).index_function_by_address@);
                let func_index = self.update_first_pc_index(name.as_str(), first_pc);
                let ghost mid_state = *self;
                let ghost mid = self.index_function_by_address@;
                self.index_function_by_address.push((address, func_index));
                proof {
                    lemma_assoc_push(mid, (address, func_index));
                    assert forall|a: u64| a != address implies #[trigger] self.by_address(a) == old(self).by_address(a) by {
                        assert(self.by_address(a) == assoc(mid, a));
                        assert(assoc(mid, a) == mid_state.by_address(a));
                        assert(mid_state.by_address(a) == before.by_address(a));
                        assert(before.by_address(a) == old(self).by_address(a));
                    }
                    assert forall|pc: u64| index_below(#[trigger] self.by_first_pc(pc), self.names().len()) by {
                        assert(index_below(mid_state.by_first_pc(pc), mid_state.names().len()));
                    }
                    assert forall|pc: u64| pc != first_pc implies #[trigger] self.by_first_pc(pc) == old(self).by_first_pc(pc) by {
                        assert(mid_state.by_first_pc(pc) == before.by_first_pc(pc));
                    }
                    assert(self.by_first_pc(first_pc) == mid_state.by_first_pc(first_pc));
                    assert forall|a: u64| index_below(#[trigger] self.by_address(a), self.names().len()) by {
                        if a != address {
                            assert(index_below(old(self).by_address(a), old(self).names().len()));
                        }
                    }
                }
            }
        }
        let func_index = find(&self.index_function_by_address, address).unwrap();
        self.functions[func_index].clone()
    }
}

} // verus!

verus! {

/// The text of the first capture group of the first match of regular
/// expression `pattern` in `line`, if `pattern` is valid and matches there with
/// that group taking part.
pub uninterp spec fn first_capture(pattern: Seq<char>, line: Seq<char>) -> Option<Seq<char>>;

/// Relies on `regex::Regex::new`, `Regex::captures` and `Captures::get`: the
/// first capture group of the leftmost match, a function of the pattern and the
/// text alone.
#[verifier::external_body]
fn capture_first(pattern: &str, line: &str) -> (r: Option<String>)
    ensures
        match r {
            Some(s) => first_capture(pattern@, line@) == Some(s@),
            None => first_capture(pattern@, line@) is None,
        },
{
    match regex::Regex::new(pattern) {
        Ok(re) => re.captures(line).and_then(|c| c.get(1)).map(|m| m.as_str().to_string()),
        Err(_) => None,
    }
}

/// Whether `s` begins with `p`.
pub open spec fn has_prefix(s: Seq<char>, p: Seq<char>) -> bool {
    p.len() <= s.len() && s.subrange(0, p.len() as int) == p
}

/// Whether `s` begins with `p`.
fn starts_with(s: &str, p: &str) -> (r: bool)
    ensures
        r == has_prefix(s@, p@),
{
    let cs = to_chars(s);
    let ps = to_chars(p);
    if ps.len() > cs.len() {
        return false;
    }
    let mut k: usize = 0;
    while k < ps.len()
        invariant
            ps@.len() <= cs@.len(),
            cs@ == s@,
            ps@ == p@,
            k <= ps@.len(),
            forall|q: int| 0 <= q < k ==> cs@[q] == ps@[q],
        decreases ps@.len() - k,
    {
        if cs[k] != ps[k] {
            assert(s@.subrange(0, p@.len() as int)[k as int] != p@[k as int]);
            return false;
        }
        k = k + 1;
    }
    assert(s@.subrange(0, p@.len() as int) =~= p@);
    true
}

/// The pattern of the line that opens a function of the disassembly; its group
/// is the function's name.
pub const FUNC_HEADER: &'static str = r"[[:xdigit:]]+\s+<(.+)>";

/// The pattern of an instruction line of the disassembly; its group is the
/// instruction's program counter.
pub const FUNC_INSTRUCTION: &'static str = r"\s+(\d+)(\s+[[:xdigit:]]{2}){8}\s+.+";

/// The line that opens the dump.
pub const HEADER: &'static str = "ELF Header";

/// The line that opens the disassembly.
pub const DISASM_HEADER: &'static str = "Disassembly of section .text";

/// The prefix of names of local labels, which are no functions.
pub const LOCAL_LABEL: &'static str = "LBB";

/// The position of the first line of `lines` at or after `from` that opens the
/// disassembly, if any.
pub open spec fn disasm_line(lines: Seq<String>, from: int) -> Option<int>
    decreases lines.len() - from,
{
    if from < 0 || from >= lines.len() {
        None
    } else if has_prefix(lines[from]@, DISASM_HEADER@) {
        Some(from)
    } else {
        disasm_line(lines, from + 1)
    }
}

/// Whether a line before position `end` opens the dump.
pub open spec fn header_before(lines: Seq<String>, end: int) -> bool {
    exists|h: int| 0 <= h < end && has_prefix(#[trigger] lines[h]@, HEADER@)
}

/// Parses the lines of a dump, adding to `resolv` the name of each function of
/// its disassembly under the program counter of the function's first
/// instruction (the first name seen for a program counter is kept).
pub fn parse_dump_file(lines: &Vec<String>, resolv: &mut Resolver) -> (r: Result<(), Error>)
    requires
        old(resolv).wf(),
    ensures
        final(resolv).wf(),
        final(resolv).counter() == old(resolv).counter(),
        final(resolv).spec_is_default() == old(resolv).spec_is_default(),
        old(resolv).names().is_prefix_of(final(resolv).names()),
        forall|a: u64| #[trigger] final(resolv).by_address(a) == old(resolv).by_address(a),
        disasm_line(lines@, 0) is None ==> r == Err::<(), Error>(Error::DumpFormatNoDisasm),
        (disasm_line(lines@, 0) matches Some(d) && !header_before(lines@, d)) ==> r == Err::<
            (),
            Error,
        >(Error::DumpFormat),
        r is Ok ==> (disasm_line(lines@, 0) matches Some(d) && header_before(lines@, d)),
        r matches Err(e) ==> e is DumpFormatNoDisasm || e is DumpFormat || e is DumpParsing,
        r matches Err(Error::DumpParsing(t, n)) ==> 1 <= n <= lines@.len() && (t@ == lines@[n - 1]@
            || t@.len() == 0),
{
    let n = lines.len();
    let mut i: usize = 0;
    let mut was_header = false;
    let mut disasm: Option<usize> = None;
    // Skip to the disassembly
    while i < n
        invariant_except_break
            disasm is None,
        invariant
            n == lines@.len(),
            i <= n,
            disasm_line(lines@, 0) == disasm_line(lines@, i as int),
            was_header == header_before(lines@, i as int),
        ensures
            disasm matches Some(dd) ==> dd == i && i < n && disasm_line(lines@, 0) == Some(i as int),
            disasm is None ==> i == n && disasm_line(lines@, 0) is None,
            was_header == header_before(lines@, i as int),
        decreases n - i,
    {
        if starts_with(lines[i].as_str(), DISASM_HEADER) {
            assert(disasm_line(lines@, i as int) == Some(i as int));
            disasm = Some(i);
            break;
        }
        if starts_with(lines[i].as_str(), HEADER) {
            was_header = true;
        }
        proof {
            assert forall|h: int| 0 <= h < i + 1 && has_prefix(#[trigger] lines@[h]@, HEADER@) implies
                h < i || has_prefix(lines@[i as int]@, HEADER@) by {}
            if has_prefix(lines@[i as int]@, HEADER@) {
                assert(header_before(lines@, i + 1));
            }
            assert(disasm_line(lines@, i as int) == disasm_line(lines@, i + 1));
        }
        i = i + 1;
    }
    let d = match disasm {
        None => {
            return Err(Error::DumpFormatNoDisasm);
        },
        Some(d) => d,
    };
    if !was_header {
        return Err(Error::DumpFormat);
    }
    // Read functions and their instructions
    let mut i: usize = d + 1;
    while i < n
        invariant
            n == lines@.len(),
            d < i <= n + 1,
            disasm_line(lines@, 0) == Some(d as int),
            header_before(lines@, d as int),
            resolv.wf(),
            resolv.counter() == old(resolv).counter(),
            resolv.spec_is_default() == old(resolv).spec_is_default(),
            old(resolv).names().is_prefix_of(resolv.names()),
            forall|a: u64| #[trigger] resolv.by_address(a) == old(resolv).by_address(a),
        decreases n + 1 - i,
    {
        if let Some(name) = capture_first(FUNC_HEADER, lines[i].as_str()) {
            if !starts_with(name.as_str(), LOCAL_LABEL) {
                // The very first instruction of the function
                if i + 1 >= n {
                    let empty = String::new();
                    assert(empty@.len() == 0);
                    return Err(Error::DumpParsing(empty, i + 1));
                }
                let pc = match capture_first(FUNC_INSTRUCTION, lines[i + 1].as_str()) {
                    Some(digits) => {
                        let cs = to_chars(digits.as_str());
                        parse_number(&cs, 0, cs.len(), 10)
                    },
                    None => None,
                };
                match pc {
                    Some(pc) => {
                        if !resolv.contains_function_with_first_pc(pc) {
                            let ghost before = *resolv;
                            resolv.update_first_pc_index(name.as_str(), pc);
                            assert(before.names().is_prefix_of(resolv.names()));
                        }
                    },
                    None => {
                        let t = lines[i + 1].clone();
                        assert(t@ == lines@[i + 1]@);
                        return Err(Error::DumpParsing(t, i + 2));
                    },
                }
                i = i + 1;
            }
        }
        i = i + 1;
    }
    Ok(())
}

impl Resolver {
    /// Reads the lines of a dump to collect function names.
    /// Returns a non-trivial instance (with real function names) of the Resolver.
    pub fn read(lines: &Vec<String>) -> (r: Result<Resolver, Error>)
        ensures
            r matches Ok(res) ==> res.wf() && !res.spec_is_default() && res.counter() == 0,
            r is Ok ==> (disasm_line(lines@, 0) matches Some(d) && header_before(lines@, d)),
            disasm_line(lines@, 0) is None ==> r == Err::<Resolver, Error>(Error::DumpFormatNoDisasm),
            (disasm_line(lines@, 0) matches Some(d) && !header_before(lines@, d)) ==> r == Err::<
                Resolver,
                Error,
            >(Error::DumpFormat),
    {
        let mut resolver = Resolver::new();
        match parse_dump_file(lines, &mut resolver) {
            Ok(()) => {
                resolver.set_from_dump();
                Ok(resolver)
            },
            Err(e) => Err(e),
        }
    }
}

/// Reads the dump (if any) and returns a resolver of its names.
pub fn read(lines: Option<&Vec<String>>) -> (r: Result<Resolver, Error>)
    ensures
        r matches Ok(res) ==> res.wf() && res.counter() == 0,
        lines is None ==> (r matches Ok(res) && res.spec_is_default() && res.names().len() == 0),
        (lines matches Some(l) && disasm_line(l@, 0) is None) ==> r == Err::<Resolver, Error>(
            Error::DumpFormatNoDisasm,
        ),
        (lines matches Some(l) && disasm_line(l@, 0) matches Some(d) && !header_before(l@, d)) ==> r
            == Err::<Resolver, Error>(Error::DumpFormat),
{
    match lines {
        None => Ok(Resolver::new()),
        Some(lines) => Resolver::read(lines),
    }
}

} // verus!
