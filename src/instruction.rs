//! Instructions: their parsed form, the parser, and the 16-bit encoder.
use vstd::prelude::*;
use crate::codes::{comp_bits, comp_code, dest_bits, dest_code, jump_bits, jump_code};
use crate::text::{
    chars_between, chars_of, parse_i16, push_char, read_i16, string_of, trim, trimmed, views,
};

verus! {

/// One instruction. `A` holds the address token after `@`; `C` holds the
/// destination, the computation and the jump condition.
#[derive(Debug, Clone, PartialEq, Eq)]
pub enum Instruction {
    A(String),
    C(String, String, String),
}

/// What an instruction holds, as character sequences.
pub enum InstructionView {
    Addr(Seq<char>),
    Comp(Seq<char>, Seq<char>, Seq<char>),
}

impl View for Instruction {
    type V = InstructionView;

    open spec fn view(&self) -> InstructionView {
        match self {
            Instruction::A(a) => InstructionView::Addr(a@),
            Instruction::C(d, c, j) => InstructionView::Comp(d@, c@, j@),
        }
    }
}

/// Why a program cannot be assembled. A destination or a jump that is not empty
/// and not in its table is an error, as an unknown computation is.
#[derive(Debug, Clone, PartialEq, Eq)]
pub enum AsmError {
    /// An address that is no integer in `0..=32767` once resolved.
    MalformedAddress(String),
    UnknownComputation(String),
    UnknownDestination(String),
    UnknownJump(String),
    /// More statements than 16-bit label and variable addresses can number.
    ProgramTooLarge,
}

/// What an [`AsmError`] holds, as character sequences.
pub enum AsmErrorView {
    MalformedAddress(Seq<char>),
    UnknownComputation(Seq<char>),
    UnknownDestination(Seq<char>),
    UnknownJump(Seq<char>),
    ProgramTooLarge,
}

impl View for AsmError {
    type V = AsmErrorView;

    open spec fn view(&self) -> AsmErrorView {
        match self {
            AsmError::MalformedAddress(s) => AsmErrorView::MalformedAddress(s@),
            AsmError::UnknownComputation(s) => AsmErrorView::UnknownComputation(s@),
            AsmError::UnknownDestination(s) => AsmErrorView::UnknownDestination(s@),
            AsmError::UnknownJump(s) => AsmErrorView::UnknownJump(s@),
            AsmError::ProgramTooLarge => AsmErrorView::ProgramTooLarge,
        }
    }
}

/// The views of a sequence of instructions.
pub open spec fn models(v: Seq<Instruction>) -> Seq<InstructionView> {
    v.map_values(|i: Instruction| i@)
}

/// Index of the first `c` in `s` at or after `i`, or `s.len()` where there is none.
pub open spec fn find_from(s: Seq<char>, c: char, i: int) -> int
    decreases s.len() - i,
{
    if i < 0 || i >= s.len() {
        s.len() as int
    } else if s[i] == c {
        i
    } else {
        find_from(s, c, i + 1)
    }
}

/// A computation and a jump, split at the first `;` and trimmed.
pub open spec fn split_comp_jump(e: Seq<char>) -> (Seq<char>, Seq<char>) {
    let k = find_from(e, ';', 0);
    if k < e.len() {
        (trim(e.take(k)), trim(e.skip(k + 1)))
    } else {
        (trim(e), Seq::empty())
    }
}

/// A compute statement: a destination before the first `=`, if there is one, then
/// the computation and the jump.
pub open spec fn compute_form(l: Seq<char>) -> InstructionView {
    let k = find_from(l, '=', 0);
    if k < l.len() {
        let (c, j) = split_comp_jump(l.skip(k + 1));
        InstructionView::Comp(trim(l.take(k)), c, j)
    } else {
        let (c, j) = split_comp_jump(l);
        InstructionView::Comp(Seq::empty(), c, j)
    }
}

/// The instruction that a statement line holds.
pub open spec fn parse_line(l: Seq<char>) -> InstructionView {
    if l.len() > 0 && l[0] == '@' {
        InstructionView::Addr(l.drop_first())
    } else {
        compute_form(l)
    }
}

/// The instructions that statement lines hold.
pub open spec fn parse_all(ls: Seq<Seq<char>>) -> Seq<InstructionView> {
    ls.map_values(|l: Seq<char>| parse_line(l))
}

/// The `n` lowest bits of `v`, most significant first.
pub open spec fn bits(v: nat, n: nat) -> Seq<char>
    decreases n,
{
    if n == 0 {
        Seq::empty()
    } else {
        bits(v / 2, (n - 1) as nat).push(if v % 2 == 1 { '1' } else { '0' })
    }
}

/// The machine word of an instruction whose address is resolved.
pub open spec fn word_of(i: InstructionView) -> Result<int, AsmErrorView> {
    match i {
        InstructionView::Addr(t) => {
            if parse_i16(t) is Some && parse_i16(t)->0 >= 0 {
                Ok(parse_i16(t)->0 as int)
            } else {
                Err(AsmErrorView::MalformedAddress(t))
            }
        },
        InstructionView::Comp(d, c, j) => {
            if comp_code(c) is None {
                Err(AsmErrorView::UnknownComputation(c))
            } else if dest_code(d) is None {
                Err(AsmErrorView::UnknownDestination(d))
            } else if jump_code(j) is None {
                Err(AsmErrorView::UnknownJump(j))
            } else {
                Ok(7 * 8192 + comp_code(c)->0 * 64 + dest_code(d)->0 * 8 + jump_code(j)->0)
            }
        },
    }
}

/// The 16-character binary text of an instruction whose address is resolved.
pub open spec fn encode(i: InstructionView) -> Result<Seq<char>, AsmErrorView> {
    match word_of(i) {
        Ok(w) => Ok(bits(w as nat, 16)),
        Err(e) => Err(e),
    }
}

/// What a result of [`Instruction::to_binary`] holds, as character sequences.
pub open spec fn binary_view(r: Result<String, AsmError>) -> Result<Seq<char>, AsmErrorView> {
    match r {
        Ok(s) => Ok(s@),
        Err(e) => Err(e@),
    }
}

/// Index of the first `c` in `s`, or `s.len()`.
fn find_char(s: &Vec<char>, c: char) -> (r: usize)
    ensures
        r == find_from(s@, c, 0),
{
    let mut i: usize = 0;
    while i < s.len() && s[i] != c
        invariant
            i <= s@.len(),
            find_from(s@, c, 0) == find_from(s@, c, i as int),
        decreases s@.len() - i,
    {
        i = i + 1;
    }
    i
}

fn push_bits(s: &mut String, v: u32, n: u32)
    ensures
        final(s)@ == old(s)@ + bits(v as nat, n as nat),
    decreases n,
{
    if n > 0 {
        push_bits(s, v / 2, n - 1);
        push_char(s, if v % 2 == 1 { '1' } else { '0' });
    }
    assert(final(s)@ =~= old(s)@ + bits(v as nat, n as nat));
}

fn text_of(v: &Vec<char>) -> (r: String)
    ensures
        r@ == v@,
{
    let r = string_of(v, 0, v.len());
    assert(r@ =~= v@);
    r
}

impl Instruction {
    /// Splits `s` at its first `;` into a trimmed computation and a trimmed jump.
    fn parse_comp_and_jump(s: &Vec<char>) -> (r: (String, String))
        ensures
            (r.0@, r.1@) == split_comp_jump(s@),
    {
        let k = find_char(s, ';');
        if k < s.len() {
            let c = trimmed(s, 0, k);
            let j = trimmed(s, k + 1, s.len());
            assert(s@.take(k as int) =~= s@.subrange(0, k as int));
            assert(s@.skip(k + 1) =~= s@.subrange(k + 1, s@.len() as int));
            (text_of(&c), text_of(&j))
        } else {
            let c = trimmed(s, 0, s.len());
            assert(s@ =~= s@.subrange(0, s@.len() as int));
            (text_of(&c), String::new())
        }
    }

    /// Reads a compute statement.
    fn c_from_string(s: &str) -> (r: Instruction)
        ensures
            r@ == compute_form(s@),
    {
        let cs = chars_of(s);
        let k = find_char(&cs, '=');
        if k < cs.len() {
            let rest = chars_between(&cs, k + 1, cs.len());
            assert(rest@ =~= cs@.skip(k + 1));
            let (c, j) = Self::parse_comp_and_jump(&rest);
            let d = trimmed(&cs, 0, k);
            assert(cs@.take(k as int) =~= cs@.subrange(0, k as int));
            Instruction::C(text_of(&d), c, j)
        } else {
            let (c, j) = Self::parse_comp_and_jump(&cs);
            Instruction::C(String::new(), c, j)
        }
    }

    /// The 16-character binary text of this instruction, whose address is resolved.
    pub fn to_binary(&self) -> (r: Result<String, AsmError>)
        ensures
            binary_view(r) == encode(self@),
    {
        let w: u32 = match self {
            Instruction::A(t) => {
                let cs = chars_of(t.as_str());
                match read_i16(&cs) {
                    Some(v) => {
                        if v < 0 {
                            return Err(AsmError::MalformedAddress(t.clone()));
                        }
                        v as u32
                    },
                    None => {
                        return Err(AsmError::MalformedAddress(t.clone()));
                    },
                }
            },
            Instruction::C(d, c, j) => {
                let comp = match comp_bits(&chars_of(c.as_str())) {
                    Some(b) => b,
                    None => {
                        return Err(AsmError::UnknownComputation(c.clone()));
                    },
                };
                let dest = match dest_bits(&chars_of(d.as_str())) {
                    Some(b) => b,
                    None => {
                        return Err(AsmError::UnknownDestination(d.clone()));
                    },
                };
                let jump = match jump_bits(&chars_of(j.as_str())) {
                    Some(b) => b,
                    None => {
                        return Err(AsmError::UnknownJump(j.clone()));
                    },
                };
                7 * 8192 + comp as u32 * 64 + dest as u32 * 8 + jump as u32
            },
        };
        let mut out = String::new();
        push_bits(&mut out, w, 16);
        assert(out@ =~= bits(w as nat, 16));
        Ok(out)
    }
}

/// Parses each statement line into an instruction.
pub fn parse_instructions(lines: Vec<String>) -> (r: Vec<Instruction>)
    ensures
        models(r@) == parse_all(views(lines@)),
{
    let mut out: Vec<Instruction> = Vec::new();
    let mut i: usize = 0;
    while i < lines.len()
        invariant
            i <= lines@.len(),
            models(out@) == parse_all(views(lines@).take(i as int)),
        decreases lines@.len() - i,
    {
        let line = &lines[i];
        let cs = chars_of(line.as_str());
        let ins = if cs.len() > 0 && cs[0] == '@' {
            let rest = chars_between(&cs, 1, cs.len());
            assert(rest@ =~= cs@.drop_first());
            Instruction::A(text_of(&rest))
        } else {
            Instruction::c_from_string(line.as_str())
        };
        assert(ins@ == parse_line(views(lines@)[i as int]));
        let ghost before = out@;
        out.push(ins);
        assert(models(out@) =~= models(before).push(ins@));
        assert(views(lines@).take(i + 1) =~= views(lines@).take(i as int).push(views(lines@)[i as int]));
        assert(parse_all(views(lines@).take(i + 1)) =~= parse_all(views(lines@).take(i as int)).push(
            parse_line(views(lines@)[i as int]),
        ));
        i = i + 1;
    }
    assert(views(lines@).take(i as int) =~= views(lines@));
    out
}

} // verus!
