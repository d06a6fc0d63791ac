//! Properties of the assembler as a whole, proved from the contracts of its stages.
use vstd::prelude::*;
use crate::codes::comp_code;
use crate::assembler::{assembly, encode_seq, lemma_resolve_next, lemma_resolve_next_prefix, resolve_all, MAX_INSTRUCTIONS};
use crate::instruction::{
    binary_view, bits, encode, parse_all, parse_line, AsmError, AsmErrorView,
    Instruction, InstructionView,
};
use crate::symbols::{
    is_label, label_name, lemma_non_labels_prefix, non_labels, predefined, resolve_address,
    scan_labels, Symbols,
};
use crate::text::{decimal, is_numeral, lemma_parse_decimal, normalize, parse_i16};

verus! {

/// The number that a text of `0` and `1` characters writes in binary.
pub open spec fn binary_value(s: Seq<char>) -> int
    decreases s.len(),
{
    if s.len() == 0 {
        0
    } else {
        binary_value(s.drop_last()) * 2 + if s.last() == '1' {
            1int
        } else {
            0int
        }
    }
}

/// Two to the power `n`.
pub open spec fn pow2(n: nat) -> nat
    decreases n,
{
    if n == 0 {
        1
    } else {
        2 * pow2((n - 1) as nat)
    }
}

/// An address statement whose token is a literal address in range.
pub open spec fn is_literal_statement(l: Seq<char>) -> bool {
    l.len() > 0 && l[0] == '@' && parse_i16(l.drop_first()) is Some && parse_i16(
        l.drop_first(),
    )->0 >= 0
}

/// The address that a literal address statement loads.
pub open spec fn literal_value(l: Seq<char>) -> int {
    parse_i16(l.drop_first())->0 as int
}

/// Reading back `n` bits of `v` gives `v`.
pub proof fn lemma_bits_value(v: nat, n: nat)
    requires
        v < pow2(n),
    ensures
        bits(v, n).len() == n,
        binary_value(bits(v, n)) == v,
    decreases n,
{
    if n > 0 {
        lemma_bits_value(v / 2, (n - 1) as nat);
        assert(bits(v, n).drop_last() =~= bits(v / 2, (n - 1) as nat));
    }
}

proof fn lemma_literal_statements(ls: Seq<Seq<char>>, m: Map<Seq<char>, i16>, st: Symbols)
    requires
        forall|i: int| 0 <= i < ls.len() ==> is_literal_statement(#[trigger] ls[i]),
    ensures
        non_labels(ls) == ls,
        scan_labels(m, ls) == m,
        resolve_all(parse_all(ls), st) == (parse_all(ls), st),
        encode_seq(parse_all(ls)) is Ok,
        encode_seq(parse_all(ls))->Ok_0.len() == ls.len(),
        forall|i: int|
            0 <= i < ls.len() ==> binary_value(#[trigger] encode_seq(parse_all(ls))->Ok_0[i])
                == literal_value(ls[i]),
    decreases ls.len(),
{
    if ls.len() > 0 {
        let init = ls.drop_last();
        lemma_literal_statements(init, m, st);
        let l = ls.last();
        assert(is_literal_statement(ls[ls.len() - 1]));
        assert(parse_all(ls).drop_last() =~= parse_all(init));
        assert(parse_all(ls).last() == InstructionView::Addr(l.drop_first()));
        assert(non_labels(ls) =~= ls);
        let v = literal_value(l);
        assert(pow2(16) == 65536) by {
            reveal_with_fuel(pow2, 17);
        }
        lemma_bits_value(v as nat, 16);
        let out = encode_seq(parse_all(ls))->Ok_0;
        assert forall|i: int| 0 <= i < ls.len() implies binary_value(#[trigger] out[i])
            == literal_value(ls[i]) by {
            if i < ls.len() - 1 {
                assert(out[i] == encode_seq(parse_all(init))->Ok_0[i]);
            }
        }
    } else {
        assert(non_labels(ls) =~= ls);
        assert(parse_all(ls) =~= Seq::<InstructionView>::empty());
    }
}

/// A program of address literals alone assembles to one line per statement, and
/// each line reads back, in binary, as the literal it came from.
pub proof fn law_literal_program(t: Seq<char>)
    requires
        normalize(t).len() <= MAX_INSTRUCTIONS,
        forall|i: int| 0 <= i < normalize(t).len() ==> is_literal_statement(#[trigger] normalize(t)[i]),
    ensures
        assembly(t) is Ok,
        assembly(t)->Ok_0.len() == normalize(t).len(),
        forall|i: int|
            0 <= i < normalize(t).len() ==> binary_value(#[trigger] assembly(t)->Ok_0[i])
                == literal_value(normalize(t)[i]),
{
    let ls = normalize(t);
    lemma_literal_statements(ls, Map::empty(), Symbols { map: Map::empty(), next: 16 });
}

proof fn lemma_label_binding(m: Map<Seq<char>, i16>, ls: Seq<Seq<char>>, p: int)
    requires
        0 <= p < ls.len(),
        is_label(ls[p]),
        forall|q: int|
            p < q < ls.len() && is_label(#[trigger] ls[q]) ==> label_name(ls[q]) != label_name(ls[p]),
    ensures
        scan_labels(m, ls).contains_key(label_name(ls[p])),
        scan_labels(m, ls)[label_name(ls[p])] == non_labels(ls.take(p)).len() as i16,
    decreases ls.len(),
{
    let init = ls.drop_last();
    if p < ls.len() - 1 {
        assert(init[p] == ls[p]);
        assert forall|q: int| p < q < init.len() && is_label(#[trigger] init[q]) implies label_name(
            init[q],
        ) != label_name(init[p]) by {
            assert(init[q] == ls[q]);
        }
        lemma_label_binding(m, init, p);
        assert(init.take(p) =~= ls.take(p));
        assert(is_label(ls.last()) ==> label_name(ls[ls.len() - 1]) != label_name(ls[p]));
    } else {
        assert(init =~= ls.take(p));
    }
}

/// A label resolves to the index, among the instructions, of the first
/// instruction after its (last) declaration.
pub proof fn law_label_address(m: Map<Seq<char>, i16>, ls: Seq<Seq<char>>, p: int, next: int)
    requires
        0 <= p < ls.len(),
        is_label(ls[p]),
        forall|q: int|
            p < q < ls.len() && is_label(#[trigger] ls[q]) ==> label_name(ls[q]) != label_name(ls[p]),
        label_name(ls[p]).len() > 0,
        !is_numeral(label_name(ls[p])),
        predefined(label_name(ls[p])) is None,
        non_labels(ls).len() <= 32767,
    ensures
        ({
            let st = Symbols { map: scan_labels(m, ls), next };
            resolve_address(st, label_name(ls[p])) == (decimal(non_labels(ls.take(p)).len() as int), st)
        }),
{
    lemma_label_binding(m, ls, p);
    lemma_non_labels_prefix(ls, p);
}

/// The first unknown name gets the next free slot, a second distinct one the slot
/// after it, and the first name then keeps its slot.
pub proof fn law_variable_slots(st: Symbols, x: Seq<char>, y: Seq<char>)
    requires
        x != y,
        x.len() > 0,
        y.len() > 0,
        !is_numeral(x),
        !is_numeral(y),
        predefined(x) is None,
        predefined(y) is None,
        !st.map.contains_key(x),
        !st.map.contains_key(y),
        16 <= st.next <= 32766,
    ensures
        ({
            let (a1, s1) = resolve_address(st, x);
            let (a2, s2) = resolve_address(s1, y);
            let (a3, s3) = resolve_address(s2, x);
            &&& a1 == decimal(st.next)
            &&& a2 == decimal(st.next + 1)
            &&& a3 == a1
            &&& s3 == s2
            &&& s2.next == st.next + 2
        }),
{
    let (a1, s1) = resolve_address(st, x);
    let (a2, s2) = resolve_address(s1, y);
    assert(s2.map[x] == st.next as i16);
}

/// `@SCREEN` stands for 16384 whatever the table holds, and encodes as
/// `0100000000000000`.
pub proof fn law_screen_fixed(st: Symbols)
    ensures
        ({
            let screen = seq!['S', 'C', 'R', 'E', 'E', 'N'];
            let (a, s1) = resolve_address(st, screen);
            &&& a == decimal(16384)
            &&& s1 == st
            &&& encode(InstructionView::Addr(a)) == Ok::<Seq<char>, AsmErrorView>(
                seq!['0', '1', '0', '0', '0', '0', '0', '0', '0', '0', '0', '0', '0', '0', '0', '0'],
            )
        }),
{
    let screen = seq!['S', 'C', 'R', 'E', 'E', 'N'];
    assert(!is_numeral(screen)) by {
        assert(screen[0] != '-');
        assert(screen[0] != '+');
        assert(!crate::text::is_digit(screen[0]));
    }
    lemma_parse_decimal(16384);
    assert(bits(16384, 16) =~= seq![
        '0', '1', '0', '0', '0', '0', '0', '0', '0', '0', '0', '0', '0', '0', '0', '0',
    ]) by {
        reveal_with_fuel(bits, 17);
    }
}

/// Two encodings of one instruction are the same.
pub proof fn law_encoding_repeatable(
    ins: Instruction,
    r1: Result<String, AsmError>,
    r2: Result<String, AsmError>,
)
    requires
        binary_view(r1) == encode(ins@),
        binary_view(r2) == encode(ins@),
    ensures
        binary_view(r1) == binary_view(r2),
{
}

proof fn lemma_non_labels_index(ls: Seq<Seq<char>>, i: int) -> (k: int)
    requires
        0 <= i < ls.len(),
        !is_label(ls[i]),
    ensures
        0 <= k < non_labels(ls).len(),
        non_labels(ls)[k] == ls[i],
    decreases ls.len(),
{
    let init = ls.drop_last();
    if i == ls.len() - 1 {
        non_labels(init).len() as int
    } else {
        assert(init[i] == ls[i]);
        lemma_non_labels_index(init, i)
    }
}

proof fn lemma_resolve_keeps_compute(prog: Seq<InstructionView>, st: Symbols, k: int)
    requires
        0 <= k < prog.len(),
        prog[k] is Comp,
    ensures
        resolve_all(prog, st).0.len() == prog.len(),
        resolve_all(prog, st).0[k] == prog[k],
    decreases prog.len(),
{
    let init = prog.drop_last();
    if k < prog.len() - 1 {
        assert(init[k] == prog[k]);
        lemma_resolve_keeps_compute(init, st, k);
    } else {
        lemma_resolve_len(init, st);
    }
}

proof fn lemma_resolve_len(prog: Seq<InstructionView>, st: Symbols)
    ensures
        resolve_all(prog, st).0.len() == prog.len(),
    decreases prog.len(),
{
    if prog.len() > 0 {
        lemma_resolve_len(prog.drop_last(), st);
    }
}

/// One instruction that cannot be encoded makes the encoding of the whole list
/// fail, so that [`crate::encode_all`] hands back no line at all.
pub proof fn law_encoding_fails_whole(prog: Seq<InstructionView>, k: int)
    requires
        0 <= k < prog.len(),
        encode(prog[k]) is Err,
    ensures
        encode_seq(prog) is Err,
    decreases prog.len(),
{
    let init = prog.drop_last();
    if k < prog.len() - 1 {
        assert(init[k] == prog[k]);
        law_encoding_fails_whole(init, k);
    }
}

/// A statement with an unknown computation makes the whole run fail, so
/// that no line is produced.
pub proof fn law_unknown_computation_aborts(t: Seq<char>, i: int)
    requires
        0 <= i < normalize(t).len(),
        !is_label(normalize(t)[i]),
        parse_line(normalize(t)[i]) is Comp,
        comp_code(parse_line(normalize(t)[i])->Comp_1) is None,
    ensures
        assembly(t) is Err,
{
    let ls = normalize(t);
    if non_labels(ls).len() <= MAX_INSTRUCTIONS {
        let k = lemma_non_labels_index(ls, i);
        let prog = parse_all(non_labels(ls));
        let st = Symbols { map: scan_labels(Map::empty(), ls), next: 16 };
        assert(prog[k] == parse_line(ls[i]));
        lemma_resolve_keeps_compute(prog, st, k);
        law_encoding_fails_whole(resolve_all(prog, st).0, k);
    }
}

/// Where every address token is an integer literal, resolution leaves the
/// instructions and the table as they are.
pub proof fn law_literals_kept(prog: Seq<InstructionView>, st: Symbols)
    requires
        forall|i: int|
            0 <= i < prog.len() && (#[trigger] prog[i]) is Addr ==> is_numeral(prog[i]->Addr_0),
    ensures
        resolve_all(prog, st) == (prog, st),
    decreases prog.len(),
{
    if prog.len() > 0 {
        let init = prog.drop_last();
        assert forall|i: int| 0 <= i < init.len() && (#[trigger] init[i]) is Addr implies is_numeral(
            init[i]->Addr_0,
        ) by {
            assert(init[i] == prog[i]);
        }
        law_literals_kept(init, st);
        assert(prog[prog.len() - 1] == prog.last());
        assert(init.push(prog.last()) =~= prog);
    } else {
        assert(prog =~= Seq::<InstructionView>::empty());
    }
}

proof fn lemma_resolve_take(prog: Seq<InstructionView>, st: Symbols, j: int)
    requires
        0 <= j <= prog.len(),
    ensures
        resolve_all(prog.take(j), st).0 == resolve_all(prog, st).0.take(j),
    decreases prog.len(),
{
    lemma_resolve_len(prog, st);
    if j < prog.len() {
        let init = prog.drop_last();
        assert(init.take(j) =~= prog.take(j));
        lemma_resolve_take(init, st, j);
        lemma_resolve_len(init, st);
        assert(resolve_all(prog, st).0.take(j) =~= resolve_all(init, st).0.take(j));
    } else {
        assert(prog.take(j) =~= prog);
        assert(resolve_all(prog, st).0.take(j) =~= resolve_all(prog, st).0);
    }
}

proof fn lemma_bindings_kept(prog: Seq<InstructionView>, st: Symbols, j: int, j2: int, x: Seq<char>)
    requires
        0 <= j <= j2 <= prog.len(),
        resolve_all(prog.take(j), st).1.map.contains_key(x),
    ensures
        resolve_all(prog.take(j2), st).1.map.contains_key(x),
        resolve_all(prog.take(j2), st).1.map[x] == resolve_all(prog.take(j), st).1.map[x],
    decreases j2 - j,
{
    if j < j2 {
        lemma_bindings_kept(prog, st, j, j2 - 1, x);
        assert(prog.take(j2).drop_last() =~= prog.take(j2 - 1));
    }
}

/// The step that resolves instruction `j` of `prog`, whose token `t` is a name.
proof fn lemma_name_step(prog: Seq<InstructionView>, st: Symbols, j: int, t: Seq<char>)
    requires
        0 <= j < prog.len(),
        prog[j] == InstructionView::Addr(t),
        t.len() > 0,
        !is_numeral(t),
        predefined(t) is None,
        16 <= st.next,
        resolve_all(prog, st).1.next <= 32768,
    ensures
        resolve_all(prog.take(j + 1), st).1.map.contains_key(t),
        resolve_all(prog, st).0[j] == InstructionView::Addr(
            decimal(resolve_all(prog.take(j + 1), st).1.map[t] as int),
        ),
{
    let q = prog.take(j + 1);
    assert(q.drop_last() =~= prog.take(j));
    assert(q.last() == prog[j]);
    lemma_resolve_take(prog, st, j + 1);
    lemma_resolve_len(prog, st);
    lemma_resolve_len(prog.take(j), st);
    lemma_resolve_next_prefix(prog, st, j + 1);
    assert(resolve_all(prog, st).0[j] == resolve_all(q, st).0[j]);
    let sj = resolve_all(prog.take(j), st).1;
    lemma_resolve_next(prog.take(j), st);
    if !sj.map.contains_key(t) {
        assert(16 <= sj.next < 32768);
        assert((sj.next as i16) as int == sj.next);
    }
}

/// A name resolves to one address throughout a run: two address instructions
/// with the same name resolve alike, and a later reference allocates nothing new.
pub proof fn law_name_stable(prog: Seq<InstructionView>, st: Symbols, i: int, k: int, t: Seq<char>)
    requires
        0 <= i < k < prog.len(),
        prog[i] == InstructionView::Addr(t),
        prog[k] == InstructionView::Addr(t),
        t.len() > 0,
        !is_numeral(t),
        predefined(t) is None,
        16 <= st.next,
        resolve_all(prog, st).1.next <= 32768,
    ensures
        resolve_all(prog, st).0[i] == resolve_all(prog, st).0[k],
{
    lemma_name_step(prog, st, i, t);
    lemma_name_step(prog, st, k, t);
    lemma_bindings_kept(prog, st, i + 1, k + 1, t);
}

/// A token that names a label or a variable: not empty, no integer literal, and
/// not predefined.
pub open spec fn is_name(t: Seq<char>) -> bool {
    t.len() > 0 && !is_numeral(t) && predefined(t) is None
}

/// The names that the address instructions of `prog` use and `known` lacks.
pub open spec fn fresh_names(prog: Seq<InstructionView>, known: Set<Seq<char>>) -> Set<Seq<char>>
    decreases prog.len(),
{
    if prog.len() == 0 {
        Set::empty()
    } else {
        let f = fresh_names(prog.drop_last(), known);
        match prog.last() {
            InstructionView::Addr(t) => if is_name(t) && !known.contains(t) {
                f.insert(t)
            } else {
                f
            },
            _ => f,
        }
    }
}

/// Resolution takes one slot for each distinct name that the table did not know,
/// and no other: after it the table knows exactly those names besides its own,
/// and the next free slot has moved by their number.
pub proof fn law_variable_count(prog: Seq<InstructionView>, st: Symbols)
    ensures
        fresh_names(prog, st.map.dom()).finite(),
        resolve_all(prog, st).1.map.dom() == st.map.dom().union(fresh_names(prog, st.map.dom())),
        resolve_all(prog, st).1.next == st.next + fresh_names(prog, st.map.dom()).len(),
    decreases prog.len(),
{
    let known = st.map.dom();
    if prog.len() == 0 {
        assert(st.map.dom().union(Set::empty()) =~= st.map.dom());
    } else {
        let init = prog.drop_last();
        law_variable_count(init, st);
        let f = fresh_names(init, known);
        let s1 = resolve_all(init, st).1;
        match prog.last() {
            InstructionView::Addr(t) => {
                if is_name(t) && !known.contains(t) {
                    if !f.contains(t) {
                        assert(!s1.map.contains_key(t));
                        assert(resolve_all(prog, st).1.map.dom() =~= known.union(f.insert(t)));
                    } else {
                        assert(f.insert(t) =~= f);
                        assert(s1.map.contains_key(t));
                    }
                } else if is_name(t) {
                    assert(s1.map.contains_key(t));
                }
            },
            _ => {},
        }
    }
}

} // verus!
