//! Classified trace instructions.

use crate::error::Error;
use vstd::prelude::*;

verus! {

/// One classified trace line.
#[derive(Debug, Clone, Copy, PartialEq, Eq)]
pub enum Instruction {
    /// A call at program counter `pc` to the routine at `target`.
    Call { pc: u64, target: u64 },
    /// A return from the innermost call, at program counter `pc`.
    Exit { pc: u64 },
    /// Any other instruction, at program counter `pc`.
    Other { pc: u64 },
    /// A line that holds no instruction (a header, a comment, a blank).
    Skip,
}

/// The cost of one line: one unit for each instruction, none for a skipped line.
pub open spec fn line_cost(ix: Instruction) -> nat {
    if ix is Skip {
        0
    } else {
        1
    }
}

/// The number of lines of `lines` that hold an instruction.
pub open spec fn instruction_count(lines: Seq<Instruction>) -> nat
    decreases lines.len(),
{
    if lines.len() == 0 {
        0
    } else {
        instruction_count(lines.drop_last()) + line_cost(lines.last())
    }
}

/// Whether `lines`, started with `depth` calls open, never exits while no call
/// is open and never calls the reserved root address.
pub open spec fn well_nested(depth: nat, lines: Seq<Instruction>) -> bool
    decreases lines.len(),
{
    if lines.len() == 0 {
        true
    } else {
        match lines[0] {
            Instruction::Call { pc, target } => target != crate::GROUND_ZERO && well_nested(
                depth + 1,
                lines.drop_first(),
            ),
            Instruction::Exit { .. } => depth > 0 && well_nested((depth - 1) as nat, lines.drop_first()),
            _ => well_nested(depth, lines.drop_first()),
        }
    }
}

/// The chain of active call addresses after instruction `ix`, from chain `st`
/// (whose first entry stands for the root, which is never removed).
pub open spec fn next_chain(st: Seq<u64>, ix: Instruction) -> Seq<u64> {
    match ix {
        Instruction::Call { pc, target } => st.push(target),
        Instruction::Exit { .. } => if st.len() > 1 {
            st.drop_last()
        } else {
            st
        },
        _ => st,
    }
}

/// The chain of active call addresses after `lines`, from chain `st`.
pub open spec fn chain_after(st: Seq<u64>, lines: Seq<Instruction>) -> Seq<u64>
    decreases lines.len(),
{
    if lines.len() == 0 {
        st
    } else {
        chain_after(next_chain(st, lines[0]), lines.drop_first())
    }
}

/// The units of `lines` spent while `a` was the innermost active call, from
/// chain `st`: each instruction costs one unit to the innermost call before it
/// opens or closes one.
pub open spec fn self_cost(st: Seq<u64>, lines: Seq<Instruction>, a: u64) -> nat
    decreases lines.len(),
{
    if lines.len() == 0 {
        0
    } else {
        (if !(lines[0] is Skip) && st.len() > 0 && st.last() == a {
            1nat
        } else {
            0nat
        }) + self_cost(next_chain(st, lines[0]), lines.drop_first(), a)
    }
}

/// The active frames `fr` (address and cost so far) with one unit charged to
/// the innermost one.
pub open spec fn charge(fr: Seq<(u64, nat)>) -> Seq<(u64, nat)> {
    if fr.len() == 0 {
        fr
    } else {
        fr.update(fr.len() - 1, (fr.last().0, fr.last().1 + 1))
    }
}

/// The active frames after instruction `ix`: its unit goes to the innermost
/// frame; a call opens a frame; an exit closes the innermost frame (never the
/// root) and folds its cost into its caller's.
pub open spec fn next_frames(fr: Seq<(u64, nat)>, ix: Instruction) -> Seq<(u64, nat)> {
    match ix {
        Instruction::Skip => fr,
        Instruction::Call { pc, target } => charge(fr).push((target, 0)),
        Instruction::Exit { .. } => {
            let c = charge(fr);
            if c.len() > 1 {
                let p = c.drop_last();
                p.update(p.len() - 1, (p.last().0, p.last().1 + c.last().1))
            } else {
                c
            }
        },
        Instruction::Other { .. } => charge(fr),
    }
}

/// The completed call (callee and inclusive cost) that instruction `ix`
/// records under caller `a`, from frames `fr`; a call from the root is
/// recorded under no function.
pub open spec fn new_edge(fr: Seq<(u64, nat)>, ix: Instruction, a: u64) -> Seq<(u64, nat)> {
    if ix is Exit && fr.len() > 2 && fr[fr.len() - 2].0 == a {
        seq![charge(fr).last()]
    } else {
        Seq::empty()
    }
}

/// The completed calls that `lines` record under caller `a`, in order, from
/// frames `fr`.
pub open spec fn edges_after(fr: Seq<(u64, nat)>, lines: Seq<Instruction>, a: u64) -> Seq<(u64, nat)>
    decreases lines.len(),
{
    if lines.len() == 0 {
        Seq::empty()
    } else {
        new_edge(fr, lines[0], a) + edges_after(next_frames(fr, lines[0]), lines.drop_first(), a)
    }
}

/// The active frames after `lines`, from frames `fr`.
pub open spec fn frames_after(fr: Seq<(u64, nat)>, lines: Seq<Instruction>) -> Seq<(u64, nat)>
    decreases lines.len(),
{
    if lines.len() == 0 {
        fr
    } else {
        frames_after(next_frames(fr, lines[0]), lines.drop_first())
    }
}

/// The program counter of `ix`, if it is an instruction.
pub open spec fn pc_of(ix: Instruction) -> Option<u64> {
    match ix {
        Instruction::Call { pc, .. } => Some(pc),
        Instruction::Exit { pc } => Some(pc),
        Instruction::Other { pc } => Some(pc),
        Instruction::Skip => None,
    }
}

/// The program counter of the first instruction of `lines` at or after
/// `from`, or `dflt` where none is left.
pub open spec fn next_pc(lines: Seq<Instruction>, from: int, dflt: u64) -> u64
    decreases lines.len() - from,
{
    if from < 0 || from >= lines.len() {
        dflt
    } else {
        match pc_of(lines[from]) {
            Some(p) => p,
            None => next_pc(lines, from + 1, dflt),
        }
    }
}

/// The entry pc of the routine called at position `k` (which holds a call at
/// `pc`): the pc of the instruction that follows the call, which is the
/// callee's first, or the call's own pc where the trace ends first.
pub open spec fn entry_pc(lines: Seq<Instruction>, k: int, pc: u64) -> u64 {
    next_pc(lines, k + 1, pc)
}

/// Finds the entry pc of the routine called at position `k`.
pub fn entry_pc_at(lines: &Vec<Instruction>, k: usize, pc: u64) -> (r: u64)
    requires
        k < lines@.len(),
    ensures
        r == entry_pc(lines@, k as int, pc),
{
    let n = lines.len();
    let mut i = k + 1;
    while i < n
        invariant
            n == lines@.len(),
            k < i <= lines@.len(),
            next_pc(lines@, k + 1, pc) == next_pc(lines@, i as int, pc),
        decreases n - i,
    {
        match lines[i] {
            Instruction::Call { pc, .. } => {
                return pc;
            },
            Instruction::Exit { pc } => {
                return pc;
            },
            Instruction::Other { pc } => {
                return pc;
            },
            Instruction::Skip => {},
        }
        i = i + 1;
    }
    pc
}

/// The number of calls left open after `lines`, started with `depth` open.
pub open spec fn depth_after(depth: nat, lines: Seq<Instruction>) -> nat
    decreases lines.len(),
{
    if lines.len() == 0 {
        depth
    } else {
        match lines[0] {
            Instruction::Call { .. } => depth_after(depth + 1, lines.drop_first()),
            Instruction::Exit { .. } => depth_after((depth - 1) as nat, lines.drop_first()),
            _ => depth_after(depth, lines.drop_first()),
        }
    }
}

} // verus!

verus! {

/// The first position at or after `from` where `s` holds `c`, or the length of `s`.
pub open spec fn find_char(s: Seq<char>, from: int, c: char) -> int
    decreases s.len() - from,
{
    if from < 0 || from >= s.len() {
        s.len() as int
    } else if s[from] == c {
        from
    } else {
        find_char(s, from + 1, c)
    }
}

/// The first position at or after `from` where `s` holds no space, or the length of `s`.
pub open spec fn skip_spaces(s: Seq<char>, from: int) -> int
    decreases s.len() - from,
{
    if from < 0 || from >= s.len() {
        s.len() as int
    } else if s[from] != ' ' {
        from
    } else {
        skip_spaces(s, from + 1)
    }
}

/// Whether `c` is an ASCII decimal digit.
pub open spec fn is_digit(c: char) -> bool {
    '0' <= c <= '9'
}

/// The value of hexadecimal digit `c`, if it is one.
pub open spec fn hex_digit(c: char) -> Option<nat> {
    if '0' <= c <= '9' {
        Some((c as u32 - '0' as u32) as nat)
    } else if 'a' <= c <= 'f' {
        Some((c as u32 - 'a' as u32 + 10) as nat)
    } else if 'A' <= c <= 'F' {
        Some((c as u32 - 'A' as u32 + 10) as nat)
    } else {
        None
    }
}

/// The value of the digits `s` in base `b`, if each is a digit of that base
/// (decimal digits only for base 10) and `s` is not empty.
pub open spec fn digits_value(s: Seq<char>, b: nat) -> Option<nat>
    decreases s.len(),
{
    if s.len() == 0 {
        None
    } else {
        let d = if b == 10 {
            if is_digit(s.last()) {
                hex_digit(s.last())
            } else {
                None
            }
        } else {
            hex_digit(s.last())
        };
        match d {
            None => None,
            Some(v) => if s.len() == 1 {
                Some(v)
            } else {
                match digits_value(s.drop_last(), b) {
                    None => None,
                    Some(h) => Some(h * b + v),
                }
            },
        }
    }
}

/// The value of `s` as an unsigned 64-bit number in base `b`, if it is one.
pub open spec fn number(s: Seq<char>, b: nat) -> Option<u64> {
    match digits_value(s, b) {
        Some(v) => if v <= u64::MAX {
            Some(v as u64)
        } else {
            None
        },
        None => None,
    }
}

/// The first position at or after `from` where `s` holds a space, or the length of `s`.
pub open spec fn token_end(s: Seq<char>, from: int) -> int {
    find_char(s, from, ' ')
}

/// An address operand: hexadecimal digits, after an optional `0x`.
pub open spec fn address_operand(tok: Seq<char>) -> Option<u64> {
    if tok.len() >= 2 && tok[0] == '0' && tok[1] == 'x' {
        number(tok.subrange(2, tok.len() as int), 16)
    } else {
        number(tok, 16)
    }
}

/// How a trace line `<pc>: <mnemonic> [<operand> ...]` is classified: a line
/// without a decimal program counter before its first colon holds no
/// instruction; a `call` needs an address operand (else `Err`).
pub open spec fn classify(s: Seq<char>) -> Result<Instruction, ()> {
    let c = find_char(s, 0, ':');
    if c >= s.len() || number(s.subrange(0, c), 10) is None {
        Ok(Instruction::Skip)
    } else {
        let pc = number(s.subrange(0, c), 10)->0;
        let m0 = skip_spaces(s, c + 1);
        let m1 = token_end(s, m0);
        let mn = s.subrange(m0, m1);
        if mn == seq!['c', 'a', 'l', 'l'] {
            let t0 = skip_spaces(s, m1);
            let t1 = token_end(s, t0);
            match address_operand(s.subrange(t0, t1)) {
                Some(target) => Ok(Instruction::Call { pc, target }),
                None => Err(()),
            }
        } else if mn == seq!['e', 'x', 'i', 't'] {
            Ok(Instruction::Exit { pc })
        } else {
            Ok(Instruction::Other { pc })
        }
    }
}

pub(crate) fn to_chars(s: &str) -> (r: Vec<char>)
    ensures
        r@ == s@,
{
    let n = s.unicode_len();
    let mut r: Vec<char> = Vec::new();
    let mut i: usize = 0;
    while i < n
        invariant
            n == s@.len(),
            i <= n,
            r@ == s@.subrange(0, i as int),
        decreases n - i,
    {
        r.push(s.get_char(i));
        assert(r@ =~= s@.subrange(0, i + 1));
        i = i + 1;
    }
    assert(r@ =~= s@);
    r
}

fn find_in(cs: &Vec<char>, from: usize, c: char) -> (r: usize)
    requires
        from <= cs@.len(),
    ensures
        r == find_char(cs@, from as int, c),
        from <= r <= cs@.len(),
{
    let mut i = from;
    while i < cs.len()
        invariant
            from <= i <= cs@.len(),
            find_char(cs@, from as int, c) == find_char(cs@, i as int, c),
        decreases cs@.len() - i,
    {
        if cs[i] == c {
            return i;
        }
        i = i + 1;
    }
    i
}

fn skip_in(cs: &Vec<char>, from: usize) -> (r: usize)
    requires
        from <= cs@.len(),
    ensures
        r == skip_spaces(cs@, from as int),
        from <= r <= cs@.len(),
{
    let mut i = from;
    while i < cs.len()
        invariant
            from <= i <= cs@.len(),
            skip_spaces(cs@, from as int) == skip_spaces(cs@, i as int),
        decreases cs@.len() - i,
    {
        if cs[i] != ' ' {
            return i;
        }
        i = i + 1;
    }
    i
}

fn hex_digit_of(c: char) -> (r: Option<u64>)
    ensures
        r matches Some(v) ==> hex_digit(c) == Some(v as nat) && v < 16,
        r is None ==> hex_digit(c) is None,
{
    if '0' <= c && c <= '9' {
        Some((c as u32 - '0' as u32) as u64)
    } else if 'a' <= c && c <= 'f' {
        Some((c as u32 - 'a' as u32 + 10) as u64)
    } else if 'A' <= c && c <= 'F' {
        Some((c as u32 - 'A' as u32 + 10) as u64)
    } else {
        None
    }
}

proof fn lemma_digits_value_mono(s: Seq<char>, b: nat, v: nat)
    requires
        b >= 2,
        s.len() >= 1,
        digits_value(s, b) == Some(v),
    ensures
        s.len() > 1 ==> (digits_value(s.drop_last(), b) matches Some(h) && h <= v),
{
    if s.len() > 1 {
        let h = digits_value(s.drop_last(), b)->0;
        assert(h <= h * b) by (nonlinear_arith)
            requires
                b >= 2,
        ;
    }
}

/// Parses `cs[from..to]` as an unsigned number in base `b` (10 or 16).
pub(crate) fn parse_number(cs: &Vec<char>, from: usize, to: usize, b: u64) -> (r: Option<u64>)
    requires
        from <= to <= cs@.len(),
        b == 10 || b == 16,
    ensures
        r == number(cs@.subrange(from as int, to as int), b as nat),
{
    if from == to {
        assert(cs@.subrange(from as int, to as int).len() == 0);
        return None;
    }
    let mut value: u64 = 0;
    let mut i = from;
    while i < to
        invariant
            from <= i <= to <= cs@.len(),
            b == 10 || b == 16,
            i == from ==> value == 0,
            i > from ==> digits_value(cs@.subrange(from as int, i as int), b as nat) == Some(
                value as nat,
            ),
        decreases to - i,
    {
        let c = cs[i];
        let ghost pre = cs@.subrange(from as int, i as int);
        let ghost next = cs@.subrange(from as int, i + 1);
        proof {
            assert(next.drop_last() =~= pre);
            assert(next.last() == c);
        }
        let d = if b == 10 && !('0' <= c && c <= '9') {
            None
        } else {
            hex_digit_of(c)
        };
        match d {
            None => {
                proof {
                    lemma_none_extends(cs@, from as int, i + 1, to as int, b as nat);
                }
                return None;
            },
            Some(d) => {
                if value > (u64::MAX - d) / b {
                    proof {
                        assert(value as int * b as int + d as int > u64::MAX as int) by (nonlinear_arith)
                            requires
                                value as int > (u64::MAX as int - d as int) / (b as int),
                                b == 10 || b == 16,
                                d < 16,
                        ;
                        lemma_big_extends(cs@, from as int, i + 1, to as int, b as nat);
                    }
                    return None;
                }
                proof {
                    assert(value as int * b as int + d as int <= u64::MAX as int) by (nonlinear_arith)
                        requires
                            value as int <= (u64::MAX as int - d as int) / (b as int),
                            b == 10 || b == 16,
                            d < 16,
                    ;
                }
                value = value * b + d;
            },
        }
        i = i + 1;
    }
    Some(value)
}

proof fn lemma_none_extends(s: Seq<char>, from: int, k: int, to: int, b: nat)
    requires
        0 <= from < k <= to <= s.len(),
        digits_value(s.subrange(from, k), b) is None,
    ensures
        number(s.subrange(from, to), b) is None,
    decreases to - k,
{
    if k < to {
        assert(s.subrange(from, k + 1).drop_last() =~= s.subrange(from, k));
        lemma_none_extends(s, from, k + 1, to, b);
    }
}

proof fn lemma_big_extends(s: Seq<char>, from: int, k: int, to: int, b: nat)
    requires
        0 <= from < k <= to <= s.len(),
        b >= 2,
        digits_value(s.subrange(from, k), b) is None || digits_value(s.subrange(from, k), b)->0
            > u64::MAX,
    ensures
        number(s.subrange(from, to), b) is None,
    decreases to - k,
{
    if k < to {
        let next = s.subrange(from, k + 1);
        assert(next.drop_last() =~= s.subrange(from, k));
        if digits_value(next, b) is Some {
            lemma_digits_value_mono(next, b, digits_value(next, b)->0);
        }
        lemma_big_extends(s, from, k + 1, to, b);
    }
}

} // verus!

verus! {

fn is_word(cs: &Vec<char>, from: usize, to: usize, w: &Vec<char>) -> (r: bool)
    requires
        from <= to <= cs@.len(),
    ensures
        r == (cs@.subrange(from as int, to as int) == w@),
{
    if to - from != w.len() {
        proof {
            assert(cs@.subrange(from as int, to as int).len() != w@.len());
        }
        return false;
    }
    let mut k: usize = 0;
    while k < w.len()
        invariant
            from <= to <= cs@.len(),
            to - from == w@.len(),
            k <= w@.len(),
            forall|q: int| 0 <= q < k ==> cs@[from + q] == w@[q],
        decreases w@.len() - k,
    {
        if cs[from + k] != w[k] {
            proof {
                assert(cs@.subrange(from as int, to as int)[k as int] != w@[k as int]);
            }
            return false;
        }
        k = k + 1;
    }
    assert(cs@.subrange(from as int, to as int) =~= w@);
    true
}

/// Converts an address operand (hexadecimal digits after an optional `0x`) to
/// an address.
pub fn hex_str_to_address(s: &str) -> (r: Option<u64>)
    ensures
        r == address_operand(s@),
{
    let cs = to_chars(s);
    assert(cs@.subrange(0, cs@.len() as int) =~= s@);
    operand_in(&cs, 0, cs.len())
}

fn operand_in(cs: &Vec<char>, from: usize, to: usize) -> (r: Option<u64>)
    requires
        from <= to <= cs@.len(),
    ensures
        r == address_operand(cs@.subrange(from as int, to as int)),
{
    let ghost tok = cs@.subrange(from as int, to as int);
    if to - from >= 2 && cs[from] == '0' && cs[from + 1] == 'x' {
        assert(tok.subrange(2, tok.len() as int) =~= cs@.subrange(from + 2, to as int));
        parse_number(cs, from + 2, to, 16)
    } else {
        parse_number(cs, from, to, 16)
    }
}

impl Instruction {
    /// Classifies one trace line `<pc>: <mnemonic> [<operand> ...]`; `lc` is
    /// its 1-based number, reported with a call whose address cannot be read.
    pub fn parse(line: &str, lc: usize) -> (r: Result<Instruction, Error>)
        ensures
            classify(line@) matches Ok(ix) ==> r == Ok::<Instruction, Error>(ix),
            classify(line@) is Err ==> (r matches Err(Error::Parsing(t, n)) && t@ == line@ && n
                == lc),
    {
        let cs = to_chars(line);
        let n = cs.len();
        let c = find_in(&cs, 0, ':');
        if c >= n {
            return Ok(Instruction::Skip);
        }
        let pc = match parse_number(&cs, 0, c, 10) {
            None => {
                return Ok(Instruction::Skip);
            },
            Some(pc) => pc,
        };
        let m0 = skip_in(&cs, c + 1);
        let m1 = find_in(&cs, m0, ' ');
        let call_word = vec!['c', 'a', 'l', 'l'];
        let exit_word = vec!['e', 'x', 'i', 't'];
        if is_word(&cs, m0, m1, &call_word) {
            assert(call_word@ =~= seq!['c', 'a', 'l', 'l']);
            let t0 = skip_in(&cs, m1);
            let t1 = find_in(&cs, t0, ' ');
            match operand_in(&cs, t0, t1) {
                Some(target) => Ok(Instruction::Call { pc, target }),
                None => Err(Error::Parsing(line.to_string(), lc)),
            }
        } else if is_word(&cs, m0, m1, &exit_word) {
            assert(call_word@ =~= seq!['c', 'a', 'l', 'l']);
            assert(exit_word@ =~= seq!['e', 'x', 'i', 't']);
            Ok(Instruction::Exit { pc })
        } else {
            assert(call_word@ =~= seq!['c', 'a', 'l', 'l']);
            assert(exit_word@ =~= seq!['e', 'x', 'i', 't']);
            Ok(Instruction::Other { pc })
        }
    }
}

} // verus!
