//! The symbol table: predefined symbols, labels and variables, and the label scan.
use vstd::prelude::*;
use crate::text::{chars_of, decimal, decimal_string, is_numeral, is_word, numeral, string_of, views};

verus! {

/// What a symbol table stands for: the labels and variables found so far, and the
/// next free variable slot.
pub struct Symbols {
    pub map: Map<Seq<char>, i16>,
    pub next: int,
}

/// Labels and variables of one assembly run. The predefined symbols are not
/// stored: they are looked up in [`predefined_address`] before the table.
pub struct SymbolTable {
    table: Vec<(String, i16)>,
    variable_count: i32,
    known: Ghost<Map<Seq<char>, i16>>,
}

/// The address of a predefined symbol of the architecture.
pub open spec fn predefined(name: Seq<char>) -> Option<i16> {
    if name == seq!['R', '0'] || name == seq!['S', 'P'] {
        Some(0)
    } else if name == seq!['R', '1'] || name == seq!['L', 'C', 'L'] {
        Some(1)
    } else if name == seq!['R', '2'] || name == seq!['A', 'R', 'G'] {
        Some(2)
    } else if name == seq!['R', '3'] || name == seq!['T', 'H', 'I', 'S'] {
        Some(3)
    } else if name == seq!['R', '4'] || name == seq!['T', 'H', 'A', 'T'] {
        Some(4)
    } else if name == seq!['R', '5'] {
        Some(5)
    } else if name == seq!['R', '6'] {
        Some(6)
    } else if name == seq!['R', '7'] {
        Some(7)
    } else if name == seq!['R', '8'] {
        Some(8)
    } else if name == seq!['R', '9'] {
        Some(9)
    } else if name == seq!['R', '1', '0'] {
        Some(10)
    } else if name == seq!['R', '1', '1'] {
        Some(11)
    } else if name == seq!['R', '1', '2'] {
        Some(12)
    } else if name == seq!['R', '1', '3'] {
        Some(13)
    } else if name == seq!['R', '1', '4'] {
        Some(14)
    } else if name == seq!['R', '1', '5'] {
        Some(15)
    } else if name == seq!['S', 'C', 'R', 'E', 'E', 'N'] {
        Some(16384)
    } else if name == seq!['K', 'B', 'D'] {
        Some(24576)
    } else {
        None
    }
}

/// Looks `name` up among the predefined symbols.
pub fn predefined_address(name: &Vec<char>) -> (r: Option<i16>)
    ensures
        r == predefined(name@),
{
    let n = name.as_slice();
    if is_word(n, &['R', '0']) || is_word(n, &['S', 'P']) {
        Some(0)
    } else if is_word(n, &['R', '1']) || is_word(n, &['L', 'C', 'L']) {
        Some(1)
    } else if is_word(n, &['R', '2']) || is_word(n, &['A', 'R', 'G']) {
        Some(2)
    } else if is_word(n, &['R', '3']) || is_word(n, &['T', 'H', 'I', 'S']) {
        Some(3)
    } else if is_word(n, &['R', '4']) || is_word(n, &['T', 'H', 'A', 'T']) {
        Some(4)
    } else if is_word(n, &['R', '5']) {
        Some(5)
    } else if is_word(n, &['R', '6']) {
        Some(6)
    } else if is_word(n, &['R', '7']) {
        Some(7)
    } else if is_word(n, &['R', '8']) {
        Some(8)
    } else if is_word(n, &['R', '9']) {
        Some(9)
    } else if is_word(n, &['R', '1', '0']) {
        Some(10)
    } else if is_word(n, &['R', '1', '1']) {
        Some(11)
    } else if is_word(n, &['R', '1', '2']) {
        Some(12)
    } else if is_word(n, &['R', '1', '3']) {
        Some(13)
    } else if is_word(n, &['R', '1', '4']) {
        Some(14)
    } else if is_word(n, &['R', '1', '5']) {
        Some(15)
    } else if is_word(n, &['S', 'C', 'R', 'E', 'E', 'N']) {
        Some(16384)
    } else if is_word(n, &['K', 'B', 'D']) {
        Some(24576)
    } else {
        None
    }
}

/// Whether resolving `tok` against `st` allocates a fresh variable slot.
pub open spec fn allocates(st: Symbols, tok: Seq<char>) -> bool {
    tok.len() > 0 && !is_numeral(tok) && predefined(tok) is None && !st.map.contains_key(tok)
}

/// Resolving an address token: an integer literal stands as it is, whatever its
/// size (the encoder rejects one out of range); a predefined symbol,
/// then a known label or variable, gives its address; any other name becomes a
/// new variable at the next free slot. An empty token is no name: it stays as it
/// is, for the encoder to reject.
pub open spec fn resolve_address(st: Symbols, tok: Seq<char>) -> (Seq<char>, Symbols) {
    if tok.len() == 0 || is_numeral(tok) {
        (tok, st)
    } else if predefined(tok) is Some {
        (decimal(predefined(tok)->0 as int), st)
    } else if st.map.contains_key(tok) {
        (decimal(st.map[tok] as int), st)
    } else {
        (decimal(st.next), Symbols { map: st.map.insert(tok, st.next as i16), next: st.next + 1 })
    }
}

impl View for SymbolTable {
    type V = Symbols;

    closed spec fn view(&self) -> Symbols {
        Symbols { map: self.known@, next: self.variable_count as int }
    }
}

/// An empty table: no label, no variable, and the first variable slot at 16.
pub fn new_symbol_table() -> (r: SymbolTable)
    ensures
        r.wf(),
        r@.map == Map::<Seq<char>, i16>::empty(),
        r@.next == 16,
{
    SymbolTable { table: Vec::new(), variable_count: 16, known: Ghost(Map::empty()) }
}

impl SymbolTable {
    /// The entries match the model one for one, and the next slot is a valid
    /// variable address or one past the last.
    pub closed spec fn wf(&self) -> bool {
        &&& forall|i: int|
            0 <= i < self.table@.len() ==> #[trigger] self.known@.contains_key(self.table@[i].0@)
                && self.known@[self.table@[i].0@] == self.table@[i].1
        &&& forall|k: Seq<char>| #[trigger]
            self.known@.contains_key(k) ==> exists|i: int|
                0 <= i < self.table@.len() && #[trigger] self.table@[i].0@ == k
        &&& forall|i: int, j: int|
            0 <= i < j < self.table@.len() ==> #[trigger] self.table@[i].0@ != #[trigger] self.table@[j].0@
        &&& 16 <= self.variable_count <= 32768
    }

    /// The next free slot of a well-formed table is a variable address or one past
    /// the last.
    pub proof fn lemma_slot_range(&self)
        requires
            self.wf(),
        ensures
            16 <= self@.next <= 32768,
    {
    }

    /// The index of the entry for `name`.
    fn find(&self, name: &String) -> (r: Option<usize>)
        requires
            self.wf(),
        ensures
            match r {
                Some(i) => i < self.table@.len() && self.table@[i as int].0@ == name@,
                None => !self@.map.contains_key(name@),
            },
    {
        let mut i: usize = 0;
        while i < self.table.len()
            invariant
                self.wf(),
                i <= self.table@.len(),
                forall|k: int| 0 <= k < i ==> self.table@[k].0@ != name@,
            decreases self.table@.len() - i,
        {
            if self.table[i].0 == *name {
                return Some(i);
            }
            i = i + 1;
        }
        None
    }

    /// Binds `symbol` to `value`, replacing an earlier binding of the same name: of
    /// two declarations of one label, the later one holds.
    pub fn insert_label(&mut self, symbol: &str, value: i16)
        requires
            old(self).wf(),
        ensures
            final(self).wf(),
            final(self)@ == (Symbols { map: old(self)@.map.insert(symbol@, value), next: old(self)@.next }),
    {
        let key = symbol.to_string();
        self.bind(key, value, self.variable_count);
    }

    /// Binds `key` to `value` and moves the next free slot to `count`.
    fn bind(&mut self, key: String, value: i16, count: i32)
        requires
            old(self).wf(),
            16 <= count <= 32768,
        ensures
            final(self).wf(),
            final(self)@ == (Symbols { map: old(self)@.map.insert(key@, value), next: count as int }),
    {
        let ghost k = key@;
        let ghost pos: int;
        match self.find(&key) {
            Some(i) => {
                self.table.set(i, (key, value));
                proof {
                    pos = i as int;
                }
            },
            None => {
                self.table.push((key, value));
                proof {
                    pos = old(self).table@.len() as int;
                    assert forall|j: int| 0 <= j < old(self).table@.len() implies old(self).table@[j].0@ != k by {
                        assert(old(self).known@.contains_key(old(self).table@[j].0@));
                    }
                }
            },
        }
        self.known = Ghost(self.known@.insert(k, value));
        self.variable_count = count;
        assert forall|kk: Seq<char>| #[trigger]
            self.known@.contains_key(kk) implies exists|j: int|
                0 <= j < self.table@.len() && #[trigger] self.table@[j].0@ == kk by {
            if kk != k {
                let j = choose|j: int| 0 <= j < old(self).table@.len() && #[trigger] old(self).table@[j].0@ == kk;
                assert(self.table@[j].0@ == kk);
            } else {
                assert(self.table@[pos].0@ == kk);
            }
        }
    }

    /// The address that an `@` token stands for, recording a new variable where the
    /// token names no literal, predefined symbol, label or known variable.
    pub fn apply_to_address(&mut self, address: &str) -> (r: String)
        requires
            old(self).wf(),
            allocates(old(self)@, address@) ==> old(self)@.next < 32768,
        ensures
            final(self).wf(),
            (r@, final(self)@) == resolve_address(old(self)@, address@),
    {
        let name = chars_of(address);
        if name.len() == 0 || numeral(&name) {
            return address.to_string();
        }
        match predefined_address(&name) {
            Some(v) => decimal_string(v),
            None => {
                let key = address.to_string();
                match self.find(&key) {
                    Some(i) => {
                        proof {
                            assert(self.known@[key@] == self.table@[i as int].1);
                        }
                        decimal_string(self.table[i].1)
                    },
                    None => self.create_new_variable(address),
                }
            },
        }
    }

    /// Records `address` as a variable at the next free slot and returns that slot.
    /// A name already in the table is bound anew.
    fn create_new_variable(&mut self, address: &str) -> (r: String)
        requires
            old(self).wf(),
            old(self)@.next < 32768,
        ensures
            final(self).wf(),
            r@ == decimal(old(self)@.next),
            final(self)@ == (Symbols {
                map: old(self)@.map.insert(address@, old(self)@.next as i16),
                next: old(self)@.next + 1,
            }),
    {
        let slot = self.variable_count as i16;
        self.bind(address.to_string(), slot, self.variable_count + 1);
        decimal_string(slot)
    }
}

/// A label declaration: a statement written `(NAME)`.
pub open spec fn is_label(l: Seq<char>) -> bool {
    l.len() >= 2 && l[0] == '(' && l.last() == ')'
}

/// The name that a label declaration declares.
pub open spec fn label_name(l: Seq<char>) -> Seq<char> {
    l.subrange(1, l.len() - 1)
}

/// The statements that are not label declarations, in order.
pub open spec fn non_labels(ls: Seq<Seq<char>>) -> Seq<Seq<char>>
    decreases ls.len(),
{
    if ls.len() == 0 {
        Seq::empty()
    } else {
        let rest = non_labels(ls.drop_last());
        if is_label(ls.last()) {
            rest
        } else {
            rest.push(ls.last())
        }
    }
}

/// `m` with each label of `ls` bound, in order, to the number of non-label
/// statements before it.
pub open spec fn scan_labels(m: Map<Seq<char>, i16>, ls: Seq<Seq<char>>) -> Map<Seq<char>, i16>
    decreases ls.len(),
{
    if ls.len() == 0 {
        m
    } else {
        let m0 = scan_labels(m, ls.drop_last());
        if is_label(ls.last()) {
            m0.insert(label_name(ls.last()), non_labels(ls.drop_last()).len() as i16)
        } else {
            m0
        }
    }
}

/// A prefix has no more instructions than the whole.
pub proof fn lemma_non_labels_prefix(ls: Seq<Seq<char>>, i: int)
    requires
        0 <= i <= ls.len(),
    ensures
        non_labels(ls.take(i)).len() <= non_labels(ls).len(),
    decreases ls.len(),
{
    if i < ls.len() {
        assert(ls.take(i) =~= ls.drop_last().take(i));
        lemma_non_labels_prefix(ls.drop_last(), i);
    } else {
        assert(ls.take(i) =~= ls);
    }
}

/// The number of statements that are not label declarations.
pub fn count_instructions(lines: &Vec<String>) -> (r: usize)
    ensures
        r == non_labels(views(lines@)).len(),
{
    let ghost ls = views(lines@);
    let mut n: usize = 0;
    let mut i: usize = 0;
    while i < lines.len()
        invariant
            ls == views(lines@),
            i <= lines@.len(),
            n == non_labels(ls.take(i as int)).len(),
            n <= i,
        decreases lines@.len() - i,
    {
        let ghost q = ls.take(i + 1);
        assert(q.drop_last() =~= ls.take(i as int));
        assert(q.last() == lines@[i as int]@);
        let cs = chars_of(lines[i].as_str());
        let k = cs.len();
        if !(k >= 2 && cs[0] == '(' && cs[k - 1] == ')') {
            n = n + 1;
        }
        i = i + 1;
    }
    assert(ls.take(i as int) =~= ls);
    n
}

/// Removes the label declarations from `lines`, binding each label in the table
/// to the index that the next instruction will have.
/// Where a label is declared twice, the later declaration holds.
pub fn filter_labels(lines: Vec<String>, symbol_table: &mut SymbolTable) -> (r: Vec<String>)
    requires
        old(symbol_table).wf(),
        non_labels(views(lines@)).len() <= 32767,
    ensures
        final(symbol_table).wf(),
        views(r@) == non_labels(views(lines@)),
        final(symbol_table)@ == (Symbols {
            map: scan_labels(old(symbol_table)@.map, views(lines@)),
            next: old(symbol_table)@.next,
        }),
{
    let ghost ls = views(lines@);
    let mut out: Vec<String> = Vec::new();
    let mut i: usize = 0;
    while i < lines.len()
        invariant
            ls == views(lines@),
            non_labels(ls).len() <= 32767,
            i <= lines@.len(),
            symbol_table.wf(),
            views(out@) == non_labels(ls.take(i as int)),
            symbol_table@ == (Symbols {
                map: scan_labels(old(symbol_table)@.map, ls.take(i as int)),
                next: old(symbol_table)@.next,
            }),
        decreases lines@.len() - i,
    {
        let ghost p = ls.take(i as int);
        let ghost q = ls.take(i + 1);
        assert(q.drop_last() =~= p);
        assert(q.last() == lines@[i as int]@);
        proof {
            lemma_non_labels_prefix(ls, i as int);
        }
        let line = lines[i].clone();
        let cs = chars_of(line.as_str());
        let n = cs.len();
        if n >= 2 && cs[0] == '(' && cs[n - 1] == ')' {
            let name = string_of(&cs, 1, n - 1);
            symbol_table.insert_label(name.as_str(), out.len() as i16);
        } else {
            proof {
                crate::text::lemma_views_push(out@, line);
            }
            out.push(line);
        }
        i = i + 1;
    }
    assert(ls.take(i as int) =~= ls);
    out
}

} // verus!
