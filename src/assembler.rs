//! Symbol resolution and the whole assembly run, from program text to binary lines.
use vstd::prelude::*;
use crate::instruction::{
    encode, models, parse_all, parse_instructions, AsmError, AsmErrorView, Instruction,
    InstructionView,
};
use crate::symbols::{
    count_instructions, filter_labels, new_symbol_table, non_labels, resolve_address, scan_labels, SymbolTable,
    Symbols,
};
use crate::text::{normalize, strip_comments, views};

verus! {

/// The most instructions a program may have: with 16 slots below the variables,
/// every label and variable address then fits in 15 bits.
pub const MAX_INSTRUCTIONS: usize = 32752;

/// Resolves the address tokens of `prog` in order, threading the table through.
pub open spec fn resolve_all(prog: Seq<InstructionView>, st: Symbols) -> (
    Seq<InstructionView>,
    Symbols,
)
    decreases prog.len(),
{
    if prog.len() == 0 {
        (Seq::empty(), st)
    } else {
        let (done, st1) = resolve_all(prog.drop_last(), st);
        match prog.last() {
            InstructionView::Addr(t) => {
                let (a, st2) = resolve_address(st1, t);
                (done.push(InstructionView::Addr(a)), st2)
            },
            other => (done.push(other), st1),
        }
    }
}

/// The encodings of `prog` in order, or the error of its first instruction that
/// has none.
pub open spec fn encode_seq(prog: Seq<InstructionView>) -> Result<Seq<Seq<char>>, AsmErrorView>
    decreases prog.len(),
{
    if prog.len() == 0 {
        Ok(Seq::empty())
    } else {
        match encode_seq(prog.drop_last()) {
            Err(e) => Err(e),
            Ok(done) => match encode(prog.last()) {
                Err(e) => Err(e),
                Ok(w) => Ok(done.push(w)),
            },
        }
    }
}

/// The binary lines of a whole program text, or the error that stops the run.
pub open spec fn assembly(t: Seq<char>) -> Result<Seq<Seq<char>>, AsmErrorView> {
    let ls = normalize(t);
    if non_labels(ls).len() > MAX_INSTRUCTIONS {
        Err(AsmErrorView::ProgramTooLarge)
    } else {
        let st = Symbols { map: scan_labels(Map::empty(), ls), next: 16 };
        encode_seq(resolve_all(parse_all(non_labels(ls)), st).0)
    }
}

/// Replaces each address token by the address it resolves to; compute
/// instructions stay as they are. Unknown names become variables.
pub fn resolve_symbols(instructions: Vec<Instruction>, symbol_table: &mut SymbolTable) -> (r: Vec<
    Instruction,
>)
    requires
        old(symbol_table).wf(),
        resolve_all(models(instructions@), old(symbol_table)@).1.next <= 32768,
    ensures
        final(symbol_table).wf(),
        (models(r@), final(symbol_table)@) == resolve_all(models(instructions@), old(symbol_table)@),
{
    let ghost prog = models(instructions@);
    let mut out: Vec<Instruction> = Vec::new();
    let mut i: usize = 0;
    while i < instructions.len()
        invariant
            prog == models(instructions@),
            i <= instructions@.len(),
            symbol_table.wf(),
            resolve_all(prog, old(symbol_table)@).1.next <= 32768,
            (models(out@), symbol_table@) == resolve_all(prog.take(i as int), old(symbol_table)@),
        decreases instructions@.len() - i,
    {
        let ghost p = prog.take(i as int);
        assert(prog.take(i + 1).drop_last() =~= p);
        proof {
            lemma_resolve_next_prefix(prog, old(symbol_table)@, i + 1);
        }
        let ghost before = out@;
        let ins = match &instructions[i] {
            Instruction::A(t) => Instruction::A(symbol_table.apply_to_address(t.as_str())),
            Instruction::C(d, c, j) => Instruction::C(d.clone(), c.clone(), j.clone()),
        };
        out.push(ins);
        assert(models(out@) =~= models(before).push(ins@));
        i = i + 1;
    }
    assert(prog.take(i as int) =~= prog);
    out
}

/// Resolution never lowers the next free slot, and raises it by at most one per
/// instruction.
pub proof fn lemma_resolve_next(prog: Seq<InstructionView>, st: Symbols)
    ensures
        st.next <= resolve_all(prog, st).1.next <= st.next + prog.len(),
    decreases prog.len(),
{
    if prog.len() > 0 {
        lemma_resolve_next(prog.drop_last(), st);
    }
}

/// Resolving a prefix leaves the next free slot no higher than resolving the whole.
pub proof fn lemma_resolve_next_prefix(prog: Seq<InstructionView>, st: Symbols, i: int)
    requires
        0 <= i <= prog.len(),
    ensures
        resolve_all(prog.take(i), st).1.next <= resolve_all(prog, st).1.next,
    decreases prog.len(),
{
    if i < prog.len() {
        assert(prog.drop_last().take(i) =~= prog.take(i));
        lemma_resolve_next_prefix(prog.drop_last(), st, i);
    } else {
        assert(prog.take(i) =~= prog);
    }
}

proof fn lemma_encode_seq_err(prog: Seq<InstructionView>, i: int)
    requires
        0 <= i <= prog.len(),
        encode_seq(prog.take(i)) is Err,
    ensures
        encode_seq(prog) == encode_seq(prog.take(i)),
    decreases prog.len(),
{
    if i < prog.len() {
        assert(prog.drop_last().take(i) =~= prog.take(i));
        lemma_encode_seq_err(prog.drop_last(), i);
    } else {
        assert(prog.take(i) =~= prog);
    }
}

/// Encodes each instruction, stopping at the first that cannot be encoded.
pub fn encode_all(instructions: &Vec<Instruction>) -> (r: Result<Vec<String>, AsmError>)
    ensures
        match r {
            Ok(v) => encode_seq(models(instructions@)) == Ok::<Seq<Seq<char>>, AsmErrorView>(views(v@)),
            Err(e) => encode_seq(models(instructions@)) == Err::<Seq<Seq<char>>, AsmErrorView>(e@),
        },
{
    let ghost prog = models(instructions@);
    let mut out: Vec<String> = Vec::new();
    let mut i: usize = 0;
    assert(views(out@) =~= Seq::<Seq<char>>::empty());
    assert(prog.take(0) =~= Seq::<InstructionView>::empty());
    while i < instructions.len()
        invariant
            prog == models(instructions@),
            i <= instructions@.len(),
            encode_seq(prog.take(i as int)) == Ok::<Seq<Seq<char>>, AsmErrorView>(views(out@)),
        decreases instructions@.len() - i,
    {
        let ghost p = prog.take(i as int);
        assert(prog.take(i + 1).drop_last() =~= p);
        assert(prog.take(i + 1).last() == instructions@[i as int]@);
        match instructions[i].to_binary() {
            Ok(s) => {
                proof {
                    crate::text::lemma_views_push(out@, s);
                }
                out.push(s);
            },
            Err(e) => {
                proof {
                    lemma_encode_seq_err(prog, i + 1);
                }
                return Err(e);
            },
        }
        i = i + 1;
    }
    assert(prog.take(i as int) =~= prog);
    Ok(out)
}

/// Assembles a whole program text into its binary lines, one per instruction.
pub fn assemble(text: &str) -> (r: Result<Vec<String>, AsmError>)
    ensures
        match r {
            Ok(v) => assembly(text@) == Ok::<Seq<Seq<char>>, AsmErrorView>(views(v@)),
            Err(e) => assembly(text@) == Err::<Seq<Seq<char>>, AsmErrorView>(e@),
        },
{
    let mut table = new_symbol_table();
    let lines = strip_comments(text);
    if count_instructions(&lines) > MAX_INSTRUCTIONS {
        return Err(AsmError::ProgramTooLarge);
    }
    let body = filter_labels(lines, &mut table);
    let instructions = parse_instructions(body);
    assert(models(instructions@).len() == views(body@).len());
    proof {
        lemma_resolve_next(models(instructions@), table@);
    }
    let resolved = resolve_symbols(instructions, &mut table);
    encode_all(&resolved)
}

} // verus!
