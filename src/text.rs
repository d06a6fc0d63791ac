//! Character-level helpers: whitespace, trimming, comment removal, line splitting,
//! and decimal conversion between `i16` values and their text.
use vstd::prelude::*;
use vstd::std_specs::iter::IteratorSpec;

verus! {

/// Relies on `String::push`: appends one character to the end of the string.
#[verifier::external_body]
pub(crate) fn push_char(s: &mut String, c: char)
    ensures
        final(s)@ == old(s)@.push(c),
{
    s.push(c);
}

/// The characters of a string slice, in order.
pub fn chars_of(s: &str) -> (r: Vec<char>)
    ensures
        r@ == s@,
{
    let mut r: Vec<char> = Vec::new();
    let mut it = s.chars();
    loop
        invariant
            it.remaining() == s@.skip(r@.len() as int),
            r@ == s@.take(r@.len() as int),
            r@.len() <= s@.len(),
        ensures
            r@ == s@,
        decreases s@.len() - r@.len(),
    {
        match it.next() {
            Some(c) => {
                r.push(c);
            },
            None => {
                assert(s@.skip(r@.len() as int).len() == 0);
                assert(r@ =~= s@);
                break;
            },
        }
    }
    r
}

/// Whether `v` holds exactly the characters of `w`.
pub fn is_word(v: &[char], w: &[char]) -> (r: bool)
    ensures
        r == (v@ == w@),
{
    if v.len() != w.len() {
        return false;
    }
    let mut i: usize = 0;
    while i < v.len()
        invariant
            v@.len() == w@.len(),
            i <= v@.len(),
            forall|k: int| 0 <= k < i ==> v@[k] == w@[k],
        decreases v@.len() - i,
    {
        if v[i] != w[i] {
            return false;
        }
        i = i + 1;
    }
    assert(v@ =~= w@);
    true
}

/// Unicode `White_Space` characters: the ones `char::is_whitespace` accepts.
pub open spec fn is_space(c: char) -> bool {
    let u = c as u32;
    (9 <= u && u <= 13) || u == 32 || u == 0x85 || u == 0xA0 || u == 0x1680 || (0x2000 <= u
        && u <= 0x200A) || u == 0x2028 || u == 0x2029 || u == 0x202F || u == 0x205F || u == 0x3000
}

/// Whether `c` is white space.
pub fn space(c: char) -> (r: bool)
    ensures
        r == is_space(c),
{
    let u = c as u32;
    (9 <= u && u <= 13) || u == 32 || u == 0x85 || u == 0xA0 || u == 0x1680 || (0x2000 <= u
        && u <= 0x200A) || u == 0x2028 || u == 0x2029 || u == 0x202F || u == 0x205F || u == 0x3000
}

/// Index of the first non-space character of `s` at or after `i` (or `s.len()`).
pub open spec fn solid_from(s: Seq<char>, i: int) -> int
    decreases s.len() - i,
{
    if i < 0 || i >= s.len() {
        s.len() as int
    } else if is_space(s[i]) {
        solid_from(s, i + 1)
    } else {
        i
    }
}

/// One past the last non-space character of `s` before `j` (or `0`).
pub open spec fn solid_until(s: Seq<char>, j: int) -> int
    decreases j,
{
    if j <= 0 || j > s.len() {
        0
    } else if is_space(s[j - 1]) {
        solid_until(s, j - 1)
    } else {
        j
    }
}

/// `s` without its leading and trailing white space.
pub open spec fn trim(s: Seq<char>) -> Seq<char> {
    let a = solid_from(s, 0);
    let b = solid_until(s, s.len() as int);
    if a < b {
        s.subrange(a, b)
    } else {
        Seq::empty()
    }
}

/// Index of the first `//` in `s` at or after `i`, or `s.len()` where there is none.
pub open spec fn comment_from(s: Seq<char>, i: int) -> int
    decreases s.len() - i,
{
    if i < 0 || i + 1 >= s.len() {
        s.len() as int
    } else if s[i] == '/' && s[i + 1] == '/' {
        i
    } else {
        comment_from(s, i + 1)
    }
}

/// A source line reduced to its statement: the comment cut off, then trimmed.
pub open spec fn clean(line: Seq<char>) -> Seq<char> {
    trim(line.take(comment_from(line, 0)))
}

/// Where the line that `t` ends in starts: just after its last line feed.
pub open spec fn line_start(t: Seq<char>) -> int
    decreases t.len(),
{
    if t.len() == 0 {
        0
    } else if t.last() == '\n' {
        t.len() as int
    } else {
        line_start(t.drop_last())
    }
}

/// The lines of `t` that a line feed ends, without the line feed.
pub open spec fn ended_lines(t: Seq<char>) -> Seq<Seq<char>>
    decreases t.len(),
{
    if t.len() == 0 {
        Seq::empty()
    } else {
        let p = t.drop_last();
        if t.last() == '\n' {
            ended_lines(p).push(p.subrange(line_start(p), p.len() as int))
        } else {
            ended_lines(p)
        }
    }
}

/// The lines of `t`: split at each line feed; a last, empty piece is no line.
pub open spec fn split_lines(t: Seq<char>) -> Seq<Seq<char>> {
    if line_start(t) < t.len() {
        ended_lines(t).push(t.subrange(line_start(t), t.len() as int))
    } else {
        ended_lines(t)
    }
}

/// The cleaned lines, in order, without those that cleaning left empty.
pub open spec fn statements(lines: Seq<Seq<char>>) -> Seq<Seq<char>>
    decreases lines.len(),
{
    if lines.len() == 0 {
        Seq::empty()
    } else {
        let rest = statements(lines.drop_last());
        let c = clean(lines.last());
        if c.len() > 0 {
            rest.push(c)
        } else {
            rest
        }
    }
}

/// The statements of a whole program text.
pub open spec fn normalize(t: Seq<char>) -> Seq<Seq<char>> {
    statements(split_lines(t))
}

/// The views of a sequence of strings.
pub open spec fn views(v: Seq<String>) -> Seq<Seq<char>> {
    v.map_values(|s: String| s@)
}

proof fn lemma_statements_push(lines: Seq<Seq<char>>, l: Seq<char>)
    ensures
        statements(lines.push(l)) == (if clean(l).len() > 0 {
            statements(lines).push(clean(l))
        } else {
            statements(lines)
        }),
{
    assert(lines.push(l).drop_last() =~= lines);
}

/// Pushing a string pushes its view.
pub proof fn lemma_views_push(v: Seq<String>, s: String)
    ensures
        views(v.push(s)) == views(v).push(s@),
{
    assert(views(v.push(s)) =~= views(v).push(s@));
}

/// The characters `s[a..b]` as a string.
pub fn string_of(s: &Vec<char>, a: usize, b: usize) -> (r: String)
    requires
        a <= b <= s@.len(),
    ensures
        r@ == s@.subrange(a as int, b as int),
{
    let mut r = String::new();
    let mut i: usize = a;
    while i < b
        invariant
            a <= i <= b <= s@.len(),
            r@ == s@.subrange(a as int, i as int),
        decreases b - i,
    {
        push_char(&mut r, s[i]);
        i = i + 1;
        assert(r@ =~= s@.subrange(a as int, i as int));
    }
    r
}

/// The characters `s[a..b]`.
pub fn chars_between(s: &Vec<char>, a: usize, b: usize) -> (r: Vec<char>)
    requires
        a <= b <= s@.len(),
    ensures
        r@ == s@.subrange(a as int, b as int),
{
    let mut r: Vec<char> = Vec::new();
    let mut i: usize = a;
    while i < b
        invariant
            a <= i <= b <= s@.len(),
            r@ == s@.subrange(a as int, i as int),
        decreases b - i,
    {
        r.push(s[i]);
        i = i + 1;
        assert(r@ =~= s@.subrange(a as int, i as int));
    }
    r
}

/// `s[a..b]` without its leading and trailing white space.
pub fn trimmed(s: &Vec<char>, a: usize, b: usize) -> (r: Vec<char>)
    requires
        a <= b <= s@.len(),
    ensures
        r@ == trim(s@.subrange(a as int, b as int)),
{
    let ghost u = s@.subrange(a as int, b as int);
    let mut i: usize = a;
    while i < b && space(s[i])
        invariant
            a <= i <= b <= s@.len(),
            u == s@.subrange(a as int, b as int),
            solid_from(u, 0) == solid_from(u, i - a),
        decreases b - i,
    {
        i = i + 1;
    }
    let mut j: usize = b;
    while j > i && space(s[j - 1])
        invariant
            a <= i <= j <= b <= s@.len(),
            u == s@.subrange(a as int, b as int),
            solid_until(u, u.len() as int) == solid_until(u, j - a),
            i < b ==> i < j && !is_space(s@[i as int]),
        decreases j,
    {
        j = j - 1;
    }
    proof {
        if i < b {
            assert(solid_from(u, i - a) == i - a);
            if j < b {
                assert(solid_until(u, j - a) == j - a);
            }
        } else {
            assert(solid_from(u, i - a) == u.len());
            lemma_solid_until_le(u, u.len() as int);
        }
    }
    let r = chars_between(s, i, j);
    assert(r@ =~= trim(u));
    r
}

proof fn lemma_solid_until_le(s: Seq<char>, j: int)
    ensures
        solid_until(s, j) <= s.len(),
        solid_until(s, j) <= j || solid_until(s, j) == 0,
    decreases j,
{
    if 0 < j <= s.len() && is_space(s[j - 1]) {
        lemma_solid_until_le(s, j - 1);
    }
}

/// The statement that the line `s[a..b]` holds.
pub fn clean_line(s: &Vec<char>, a: usize, b: usize) -> (r: Vec<char>)
    requires
        a <= b <= s@.len(),
    ensures
        r@ == clean(s@.subrange(a as int, b as int)),
{
    let ghost u = s@.subrange(a as int, b as int);
    let mut i: usize = a;
    while b - i > 1 && !(s[i] == '/' && s[i + 1] == '/')
        invariant
            a <= i <= b <= s@.len(),
            u == s@.subrange(a as int, b as int),
            comment_from(u, 0) == comment_from(u, i - a),
        decreases b - i,
    {
        i = i + 1;
    }
    let cut: usize = if b - i > 1 { i } else { b };
    assert(comment_from(u, i - a) == cut - a);
    let r = trimmed(s, a, cut);
    assert(u.take(cut - a) =~= s@.subrange(a as int, cut as int));
    r
}

/// Reduces a program text to its statements: each line loses its `//` comment and
/// its surrounding white space, and lines left empty are dropped.
pub fn strip_comments(text: &str) -> (r: Vec<String>)
    ensures
        views(r@) == normalize(text@),
{
    let t = chars_of(text);
    let mut out: Vec<String> = Vec::new();
    let mut start: usize = 0;
    let mut i: usize = 0;
    while i < t.len()
        invariant
            t@ == text@,
            0 <= start <= i <= t@.len(),
            start == line_start(t@.take(i as int)),
            views(out@) == statements(ended_lines(t@.take(i as int))),
        decreases t@.len() - i,
    {
        let ghost p = t@.take(i as int);
        let ghost q = t@.take(i + 1);
        assert(q.drop_last() =~= p);
        assert(q.last() == t@[i as int]);
        if t[i] == '\n' {
            let c = clean_line(&t, start, i);
            assert(p.subrange(start as int, i as int) =~= t@.subrange(start as int, i as int));
            assert(ended_lines(q) == ended_lines(p).push(t@.subrange(start as int, i as int)));
            proof {
                lemma_statements_push(ended_lines(p), t@.subrange(start as int, i as int));
            }
            if c.len() > 0 {
                let cs = string_of(&c, 0, c.len());
                assert(cs@ =~= c@);
                proof {
                    lemma_views_push(out@, cs);
                }
                out.push(cs);
            }
            start = i + 1;
        } else {
            assert(ended_lines(q) == ended_lines(p));
            assert(line_start(q) == line_start(p));
        }
        i = i + 1;
    }
    assert(t@.take(i as int) =~= t@);
    if start < t.len() {
        let c = clean_line(&t, start, t.len());
        proof {
            lemma_statements_push(ended_lines(t@), t@.subrange(start as int, t@.len() as int));
        }
        if c.len() > 0 {
            let cs = string_of(&c, 0, c.len());
            assert(cs@ =~= c@);
            proof {
                lemma_views_push(out@, cs);
            }
            out.push(cs);
        }
    }
    out
}

/// A decimal digit `0`..`9`.
pub open spec fn is_digit(c: char) -> bool {
    48 <= c as u32 && c as u32 <= 57
}

/// One or more decimal digits.
pub open spec fn all_digits(s: Seq<char>) -> bool {
    s.len() > 0 && forall|i: int| 0 <= i < s.len() ==> is_digit(#[trigger] s[i])
}

/// The value of a decimal digit.
pub open spec fn digit_value(c: char) -> int {
    c as u32 - 48
}

/// The number that the decimal digits `s` write.
pub open spec fn digits_value(s: Seq<char>) -> int
    decreases s.len(),
{
    if s.len() == 0 {
        0
    } else {
        digits_value(s.drop_last()) * 10 + digit_value(s.last())
    }
}

/// An integer literal of any size: an optional `+` or `-`, then one or more digits.
pub open spec fn is_numeral(s: Seq<char>) -> bool {
    if s.len() > 0 && (s[0] == '-' || s[0] == '+') {
        all_digits(s.drop_first())
    } else {
        all_digits(s)
    }
}

/// Whether `s` is an integer literal.
pub fn numeral(s: &Vec<char>) -> (r: bool)
    ensures
        r == is_numeral(s@),
{
    let k0: usize = if s.len() > 0 && (s[0] == '-' || s[0] == '+') { 1 } else { 0 };
    let ghost d = s@.skip(k0 as int);
    proof {
        if k0 == 1 {
            assert(d =~= s@.drop_first());
        } else {
            assert(d =~= s@);
        }
    }
    if k0 == s.len() {
        return false;
    }
    let mut k: usize = k0;
    while k < s.len()
        invariant
            k0 <= k <= s@.len(),
            d == s@.skip(k0 as int),
            k0 == 1 ==> d == s@.drop_first(),
            k0 == 0 ==> d == s@,
            (k0 == 1) == (s@.len() > 0 && (s@[0] == '-' || s@[0] == '+')),
            forall|i: int| 0 <= i < k - k0 ==> is_digit(#[trigger] d[i]),
        decreases s@.len() - k,
    {
        let u = s[k] as u32;
        if u < 48 || u > 57 {
            assert(!is_digit(d[k - k0]));
            assert(!all_digits(d));
            return false;
        }
        k = k + 1;
    }
    assert(all_digits(d));
    true
}

/// A literal that reads as an `i16` is a numeral.
pub proof fn lemma_parse_numeral(s: Seq<char>)
    requires
        parse_i16(s) is Some,
    ensures
        is_numeral(s),
{
}

/// What `s` reads as a signed 16-bit decimal: an optional `+` or `-`, then one or
/// more digits, of a value in range.
pub open spec fn parse_i16(s: Seq<char>) -> Option<i16> {
    if s.len() > 0 && s[0] == '-' {
        let d = s.drop_first();
        if all_digits(d) && digits_value(d) <= 32768 {
            Some((-digits_value(d)) as i16)
        } else {
            None
        }
    } else {
        let d = if s.len() > 0 && s[0] == '+' {
            s.drop_first()
        } else {
            s
        };
        if all_digits(d) && digits_value(d) <= 32767 {
            Some(digits_value(d) as i16)
        } else {
            None
        }
    }
}

/// Reads `s` as a signed 16-bit decimal.
pub fn read_i16(s: &Vec<char>) -> (r: Option<i16>)
    ensures
        r == parse_i16(s@),
{
    let negative = s.len() > 0 && s[0] == '-';
    let k0: usize = if s.len() > 0 && (s[0] == '-' || s[0] == '+') { 1 } else { 0 };
    let ghost d = s@.skip(k0 as int);
    proof {
        if k0 == 1 {
            assert(d =~= s@.drop_first());
        } else {
            assert(d =~= s@);
        }
    }
    if k0 == s.len() {
        return None;
    }
    let mut acc: u32 = 0;
    let mut k: usize = k0;
    while k < s.len()
        invariant
            k0 <= k <= s@.len(),
            d == s@.skip(k0 as int),
            k0 == 1 ==> d == s@.drop_first(),
            k0 == 0 ==> d == s@,
            (k0 == 1) == (s@.len() > 0 && (s@[0] == '-' || s@[0] == '+')),
            negative == (s@.len() > 0 && s@[0] == '-'),
            forall|i: int| 0 <= i < k - k0 ==> is_digit(#[trigger] d[i]),
            acc as int == if digits_value(d.take(k - k0)) < 40000 {
                digits_value(d.take(k - k0))
            } else {
                40000
            },
        decreases s@.len() - k,
    {
        let c = s[k];
        let u = c as u32;
        if u < 48 || u > 57 {
            assert(!is_digit(d[k - k0]));
            assert(!all_digits(d));
            return None;
        }
        let ghost t = d.take(k - k0);
        assert(d.take(k + 1 - k0).drop_last() =~= t);
        acc = acc * 10 + (u - 48);
        if acc > 40000 {
            acc = 40000;
        }
        k = k + 1;
    }
    assert(d.take(k - k0) =~= d);
    if negative {
        if acc <= 32768 {
            Some((0 - acc as i32) as i16)
        } else {
            None
        }
    } else {
        if acc <= 32767 {
            Some(acc as i16)
        } else {
            None
        }
    }
}

/// The decimal digit of a value below ten.
pub open spec fn digit_char(n: int) -> char {
    if n == 0 {
        '0'
    } else if n == 1 {
        '1'
    } else if n == 2 {
        '2'
    } else if n == 3 {
        '3'
    } else if n == 4 {
        '4'
    } else if n == 5 {
        '5'
    } else if n == 6 {
        '6'
    } else if n == 7 {
        '7'
    } else if n == 8 {
        '8'
    } else {
        '9'
    }
}

/// The decimal digits of `n`, without leading zeros.
pub open spec fn digits_of(n: nat) -> Seq<char>
    decreases n,
{
    if n < 10 {
        seq![digit_char(n as int)]
    } else {
        digits_of(n / 10).push(digit_char((n % 10) as int))
    }
}

/// The decimal text of `v`, with a `-` before a negative value.
pub open spec fn decimal(v: int) -> Seq<char> {
    if v < 0 {
        seq!['-'] + digits_of((-v) as nat)
    } else {
        digits_of(v as nat)
    }
}

fn digit_of(n: u32) -> (r: char)
    requires
        n < 10,
    ensures
        r == digit_char(n as int),
{
    if n == 0 {
        '0'
    } else if n == 1 {
        '1'
    } else if n == 2 {
        '2'
    } else if n == 3 {
        '3'
    } else if n == 4 {
        '4'
    } else if n == 5 {
        '5'
    } else if n == 6 {
        '6'
    } else if n == 7 {
        '7'
    } else if n == 8 {
        '8'
    } else {
        '9'
    }
}

fn push_digits(s: &mut String, n: u32)
    ensures
        final(s)@ == old(s)@ + digits_of(n as nat),
    decreases n,
{
    if n >= 10 {
        push_digits(s, n / 10);
    }
    push_char(s, digit_of(n % 10));
    assert(final(s)@ =~= old(s)@ + digits_of(n as nat));
}

/// The decimal text of `v`.
pub fn decimal_string(v: i16) -> (r: String)
    ensures
        r@ == decimal(v as int),
{
    let mut r = String::new();
    if v < 0 {
        push_char(&mut r, '-');
        push_digits(&mut r, (0 - v as i32) as u32);
    } else {
        push_digits(&mut r, v as u32);
    }
    assert(r@ =~= decimal(v as int));
    r
}

proof fn lemma_digits_of(n: nat)
    ensures
        all_digits(digits_of(n)),
        digits_value(digits_of(n)) == n,
    decreases n,
{
    let c = digit_char((n % 10) as int);
    assert(digit_value(c) == n % 10);
    if n < 10 {
        assert(digits_of(n).drop_last() =~= Seq::<char>::empty());
        assert(digits_value(Seq::<char>::empty()) == 0);
        assert(digits_value(digits_of(n)) == n);
    } else {
        lemma_digits_of(n / 10);
        let s = digits_of(n);
        assert(n == (n / 10) * 10 + n % 10);
        assert(s.drop_last() =~= digits_of(n / 10));
        assert(s.last() == c);
        assert(digits_value(s) == digits_value(digits_of(n / 10)) * 10 + n % 10);
        assert forall|i: int| 0 <= i < s.len() implies is_digit(#[trigger] s[i]) by {
            if i < s.len() - 1 {
                assert(s[i] == digits_of(n / 10)[i]);
            }
        }
    }
}

/// Reading back the decimal text of an `i16` value gives that value.
pub proof fn lemma_parse_decimal(v: i16)
    ensures
        parse_i16(decimal(v as int)) == Some(v),
{
    if v < 0 {
        let n = (-v) as nat;
        lemma_digits_of(n);
        let s = decimal(v as int);
        assert(s.drop_first() =~= digits_of(n));
    } else {
        lemma_digits_of(v as nat);
        assert(digits_of(v as nat)[0] != '-');
        assert(digits_of(v as nat)[0] != '+');
    }
}

} // verus!
