//! Text as a sequence of characters: the order of strings, and numbers in
//! decimal.

use crate::sorted::{Rank, SortKey};
use vstd::prelude::*;

verus! {

/// `std::string::String::push` appends the character to the end of the string
/// and changes nothing else.
pub assume_specification[ String::push ](s: &mut String, c: char)
    ensures
        final(s)@ == old(s)@.push(c),
;

/// The characters of `s`, in order.
pub fn chars_of(s: &str) -> (r: Vec<char>)
    ensures
        r@ == s@,
{
    let mut chars: Vec<char> = Vec::new();
    for c in it: s.chars()
        invariant
            it.seq() == s@,
            chars@ == s@.take(it.index()),
    {
        chars.push(c);
    }
    chars
}

/// The string made of the characters of `chars` from `from` up to `to`.
pub fn text_between(chars: &[char], from: usize, to: usize) -> (r: String)
    requires
        from <= to <= chars@.len(),
    ensures
        r@ == chars@.subrange(from as int, to as int),
{
    let mut s = String::new();
    let mut i: usize = from;
    while i < to
        invariant
            from <= i <= to <= chars@.len(),
            s@ == chars@.subrange(from as int, i as int),
        decreases to - i,
    {
        s.push(chars[i]);
        i += 1;
        assert(s@ == chars@.subrange(from as int, i as int));
    }
    s
}

/// The order of strings: by the first character in which they differ, a proper
/// prefix before what it is a prefix of. This is also the order of their UTF-8
/// bytes.
pub open spec fn text_lt(a: Seq<char>, b: Seq<char>) -> bool
    decreases a.len(),
{
    if b.len() == 0 {
        false
    } else if a.len() == 0 {
        true
    } else if a[0] != b[0] {
        a[0] < b[0]
    } else {
        text_lt(a.drop_first(), b.drop_first())
    }
}

/// No string comes before itself.
pub proof fn text_lt_irreflexive(a: Seq<char>)
    ensures
        !text_lt(a, a),
    decreases a.len(),
{
    if a.len() > 0 {
        text_lt_irreflexive(a.drop_first());
    }
}

/// The order of strings is transitive.
pub proof fn text_lt_transitive(a: Seq<char>, b: Seq<char>, c: Seq<char>)
    requires
        text_lt(a, b),
        text_lt(b, c),
    ensures
        text_lt(a, c),
    decreases a.len(),
{
    if a.len() > 0 && b.len() > 0 && c.len() > 0 && a[0] == b[0] && b[0] == c[0] {
        text_lt_transitive(a.drop_first(), b.drop_first(), c.drop_first());
    }
}

/// Of two different strings one comes before the other.
pub proof fn text_lt_total(a: Seq<char>, b: Seq<char>)
    ensures
        text_lt(a, b) || a == b || text_lt(b, a),
    decreases a.len(),
{
    if a.len() > 0 && b.len() > 0 && a[0] == b[0] {
        text_lt_total(a.drop_first(), b.drop_first());
        if a.drop_first() == b.drop_first() {
            assert(a =~= seq![a[0]] + a.drop_first());
            assert(b =~= seq![b[0]] + b.drop_first());
        }
    } else if a.len() == 0 && b.len() == 0 {
        assert(a =~= b);
    }
}

/// A common prefix does not change how two strings are ordered.
proof fn lemma_common_prefix(a: Seq<char>, b: Seq<char>, n: int)
    requires
        0 <= n <= a.len(),
        n <= b.len(),
        a.take(n) == b.take(n),
    ensures
        text_lt(a, b) == text_lt(a.skip(n), b.skip(n)),
    decreases n,
{
    if n == 0 {
        assert(a.skip(0) =~= a);
        assert(b.skip(0) =~= b);
    } else {
        assert(a[0] == a.take(n)[0]);
        assert(b[0] == b.take(n)[0]);
        assert(a.drop_first().take(n - 1) =~= a.take(n).drop_first());
        assert(b.drop_first().take(n - 1) =~= b.take(n).drop_first());
        lemma_common_prefix(a.drop_first(), b.drop_first(), n - 1);
        assert(a.drop_first().skip(n - 1) =~= a.skip(n));
        assert(b.drop_first().skip(n - 1) =~= b.skip(n));
    }
}

/// How `a` and `b` are ordered.
pub fn text_rank(a: &str, b: &str) -> (r: Rank)
    ensures
        match r {
            Rank::Before => text_lt(a@, b@),
            Rank::Same => a@ == b@,
            Rank::After => text_lt(b@, a@),
        },
{
    let x = chars_of(a);
    let y = chars_of(b);
    let mut i: usize = 0;
    while i < x.len() && i < y.len() && x[i] == y[i]
        invariant
            x@ == a@,
            y@ == b@,
            i <= x.len(),
            i <= y.len(),
            a@.take(i as int) == b@.take(i as int),
        decreases x.len() - i,
    {
        i += 1;
        assert(a@.take(i as int) =~= a@.take(i as int - 1).push(a@[i as int - 1]));
        assert(b@.take(i as int) =~= b@.take(i as int - 1).push(b@[i as int - 1]));
    }
    proof {
        lemma_common_prefix(a@, b@, i as int);
        lemma_common_prefix(b@, a@, i as int);
        if i == a@.len() && i == b@.len() {
            assert(a@.take(i as int) =~= a@);
            assert(b@.take(i as int) =~= b@);
        }
    }
    if i == x.len() {
        if i == y.len() {
            Rank::Same
        } else {
            Rank::Before
        }
    } else if i == y.len() {
        Rank::After
    } else if x[i] < y[i] {
        Rank::Before
    } else {
        Rank::After
    }
}

impl SortKey for String {
    open spec fn lt(a: Seq<char>, b: Seq<char>) -> bool {
        text_lt(a, b)
    }

    proof fn lt_irreflexive(a: Seq<char>) {
        text_lt_irreflexive(a);
    }

    proof fn lt_transitive(a: Seq<char>, b: Seq<char>, c: Seq<char>) {
        text_lt_transitive(a, b, c);
    }

    proof fn lt_total(a: Seq<char>, b: Seq<char>) {
        text_lt_total(a, b);
    }

    fn rank(&self, other: &Self) -> (r: Rank) {
        text_rank(self.as_str(), other.as_str())
    }
}

/// What strings stand for.
pub open spec fn texts(v: Seq<String>) -> Seq<Seq<char>> {
    v.map_values(|s: String| s@)
}

/// Whether `a` comes before `b` or is the same.
pub open spec fn text_le(a: Seq<char>, b: Seq<char>) -> bool {
    a == b || text_lt(a, b)
}

/// The texts in order. The same text may occur more than once.
pub open spec fn sorted_texts(s: Seq<Seq<char>>) -> Seq<Seq<char>> {
    s.sort_by(|a: Seq<char>, b: Seq<char>| text_le(a, b))
}

/// The order of strings is a total order.
pub proof fn lemma_text_le_total_ordering()
    ensures
        vstd::relations::total_ordering(|a: Seq<char>, b: Seq<char>| text_le(a, b)),
{
    let le = |a: Seq<char>, b: Seq<char>| text_le(a, b);
    assert forall|a: Seq<char>, b: Seq<char>| #[trigger] le(a, b) && #[trigger] le(b, a) implies a
        == b by {
        if a != b {
            text_lt_transitive(a, b, a);
            text_lt_irreflexive(a);
        }
    }
    assert forall|a: Seq<char>, b: Seq<char>, c: Seq<char>| #[trigger]
        le(a, b) && #[trigger] le(b, c) implies le(a, c) by {
        if a != b && b != c {
            text_lt_transitive(a, b, c);
        }
    }
    assert forall|a: Seq<char>, b: Seq<char>| #[trigger] le(a, b) || le(b, a) by {
        text_lt_total(a, b);
    }
}

/// What is sorted, and has the same members, is the texts in order.
pub proof fn lemma_sorted_texts(s: Seq<Seq<char>>, t: Seq<Seq<char>>)
    requires
        vstd::relations::sorted_by(t, |a: Seq<char>, b: Seq<char>| text_le(a, b)),
        s.to_multiset() == t.to_multiset(),
    ensures
        sorted_texts(s) == t,
{
    let le = |a: Seq<char>, b: Seq<char>| text_le(a, b);
    lemma_text_le_total_ordering();
    s.lemma_sort_by_ensures(le);
    vstd::seq_lib::lemma_sorted_unique(s.sort_by(le), t, le);
}

/// The strings in order.
pub fn sort_strings(strings: Vec<String>) -> (r: Vec<String>)
    ensures
        texts(r@) == sorted_texts(texts(strings@)),
{
    let ghost le = |a: Seq<char>, b: Seq<char>| text_le(a, b);
    let ghost all = texts(strings@);
    let mut out: Vec<String> = Vec::new();
    assert(texts(out@) =~= all.take(0));
    let mut i: usize = 0;
    while i < strings.len()
        invariant
            i <= strings@.len(),
            all == texts(strings@),
            le == (|a: Seq<char>, b: Seq<char>| text_le(a, b)),
            vstd::relations::sorted_by(texts(out@), le),
            texts(out@).to_multiset() == all.take(i as int).to_multiset(),
        decreases strings@.len() - i,
    {
        let s = strings[i].clone();
        let ghost before = texts(out@);
        let mut p: usize = 0;
        while p < out.len() && !matches!(text_rank(s.as_str(), out[p].as_str()), Rank::Before)
            invariant
                p <= out@.len(),
                before == texts(out@),
                forall|j: int| 0 <= j < p ==> text_le(#[trigger] before[j], s@),
            decreases out@.len() - p,
        {
            proof {
                text_lt_total(s@, before[p as int]);
            }
            assert(before[p as int] == out@[p as int]@);
            p += 1;
        }
        proof {
            let t = before.insert(p as int, s@);
            if p < before.len() {
                assert(before[p as int] == out@[p as int]@);
                assert(text_lt(s@, before[p as int]));
            }
            assert forall|j: int| p <= j < before.len() implies text_le(s@, #[trigger] before[j]) by {
                assert(le(before[p as int], before[j]) || j == p);
                if before[p as int] != before[j] {
                    text_lt_transitive(s@, before[p as int], before[j]);
                }
            }
            assert forall|a: int, b: int| 0 <= a < b < t.len() implies #[trigger] le(t[a], t[b]) by {
                let x = if a < p {
                    a
                } else {
                    a - 1
                };
                let y = if b < p {
                    b
                } else {
                    b - 1
                };
                if a != p && b != p {
                    assert(le(before[x], before[y]));
                }
            }
            vstd::seq_lib::to_multiset_insert(before, p as int, s@);
            vstd::seq_lib::to_multiset_build(all.take(i as int), s@);
            assert(all.take(i + 1) =~= all.take(i as int).push(s@));
        }
        out.insert(p, s);
        assert(texts(out@) =~= before.insert(p as int, s@));
        i += 1;
    }
    proof {
        assert(all.take(i as int) =~= all);
        lemma_sorted_texts(all, texts(out@));
    }
    out
}

/// The texts with `sep` between each and the next.
pub open spec fn joined(s: Seq<Seq<char>>, sep: Seq<char>) -> Seq<char>
    decreases s.len(),
{
    if s.len() == 0 {
        Seq::empty()
    } else if s.len() == 1 {
        s[0]
    } else {
        joined(s.drop_last(), sep) + sep + s.last()
    }
}

/// The strings with `sep` between each and the next.
pub fn join(strings: &Vec<String>, sep: &str) -> (r: String)
    ensures
        r@ == joined(texts(strings@), sep@),
{
    let ghost all = texts(strings@);
    let mut out = String::new();
    let mut i: usize = 0;
    while i < strings.len()
        invariant
            i <= strings@.len(),
            all == texts(strings@),
            out@ == joined(all.take(i as int), sep@),
        decreases strings@.len() - i,
    {
        let ghost before = out@;
        if i > 0 {
            out.append(sep);
        }
        out.append(strings[i].as_str());
        assert(all.take(i + 1).drop_last() =~= all.take(i as int));
        assert(i == 0 ==> out@ =~= all[0]);
        i += 1;
    }
    assert(all.take(i as int) =~= all);
    out
}

/// `a` and `b`, one after the other.
pub fn cat(a: &str, b: &str) -> (r: String)
    ensures
        r@ == a@ + b@,
{
    let mut s = a.to_owned();
    s.append(b);
    s
}

/// `a`, `b` and `c`, one after the other.
pub fn cat3(a: &str, b: &str, c: &str) -> (r: String)
    ensures
        r@ == a@ + b@ + c@,
{
    let mut s = a.to_owned();
    s.append(b);
    s.append(c);
    s
}

/// `a` to `d`, one after the other.
pub fn cat4(a: &str, b: &str, c: &str, d: &str) -> (r: String)
    ensures
        r@ == a@ + b@ + c@ + d@,
{
    let mut s = cat3(a, b, c);
    s.append(d);
    s
}

/// `a` to `e`, one after the other.
pub fn cat5(a: &str, b: &str, c: &str, d: &str, e: &str) -> (r: String)
    ensures
        r@ == a@ + b@ + c@ + d@ + e@,
{
    let mut s = cat4(a, b, c, d);
    s.append(e);
    s
}

/// Whether a character is white space: of Unicode's property `White_Space`.
pub open spec fn is_space(c: char) -> bool {
    ||| '\u{9}' <= c <= '\u{d}'
    ||| c == ' '
    ||| c == '\u{85}'
    ||| c == '\u{a0}'
    ||| c == '\u{1680}'
    ||| '\u{2000}' <= c <= '\u{200a}'
    ||| c == '\u{2028}'
    ||| c == '\u{2029}'
    ||| c == '\u{202f}'
    ||| c == '\u{205f}'
    ||| c == '\u{3000}'
}

/// Whether a character is white space.
pub fn white_space(c: char) -> (r: bool)
    ensures
        r == is_space(c),
{
    ('\u{9}' <= c && c <= '\u{d}') || c == ' ' || c == '\u{85}' || c == '\u{a0}' || c == '\u{1680}'
        || ('\u{2000}' <= c && c <= '\u{200a}') || c == '\u{2028}' || c == '\u{2029}' || c
        == '\u{202f}' || c == '\u{205f}' || c == '\u{3000}'
}

/// The text without the white space at its end.
pub open spec fn trim_end(s: Seq<char>) -> Seq<char>
    decreases s.len(),
{
    if s.len() > 0 && is_space(s.last()) {
        trim_end(s.drop_last())
    } else {
        s
    }
}

/// The text without the white space at its start.
pub open spec fn trim_start(s: Seq<char>) -> Seq<char>
    decreases s.len(),
{
    if s.len() > 0 && is_space(s[0]) {
        trim_start(s.drop_first())
    } else {
        s
    }
}

/// The text without the white space at its ends.
pub open spec fn trim(s: Seq<char>) -> Seq<char> {
    trim_start(trim_end(s))
}

/// Where the white space at the end of `chars` starts.
fn end_of_text(chars: &Vec<char>) -> (n: usize)
    ensures
        n <= chars@.len(),
        trim_end(chars@) == chars@.take(n as int),
{
    let mut n: usize = chars.len();
    assert(chars@.take(n as int) =~= chars@);
    while n > 0 && white_space(chars[n - 1])
        invariant
            n <= chars@.len(),
            trim_end(chars@) == trim_end(chars@.take(n as int)),
        decreases n,
    {
        assert(chars@.take(n as int).drop_last() =~= chars@.take(n as int - 1));
        n -= 1;
    }
    n
}

/// The string without the white space at its end.
pub fn without_trailing_space(s: &str) -> (r: String)
    ensures
        r@ == trim_end(s@),
{
    let chars = chars_of(s);
    let n: usize = end_of_text(&chars);
    assert(chars@.subrange(0, n as int) =~= chars@.take(n as int));
    text_between(chars.as_slice(), 0, n)
}

/// The string without the white space at its ends.
pub fn without_outer_space(s: &str) -> (r: String)
    ensures
        r@ == trim(s@),
{
    let chars = chars_of(s);
    let n: usize = end_of_text(&chars);
    let ghost t = chars@.take(n as int);
    let mut m: usize = 0;
    assert(t.skip(0) =~= t);
    while m < n && white_space(chars[m])
        invariant
            m <= n <= chars@.len(),
            t == chars@.take(n as int),
            trim_start(t) == trim_start(t.skip(m as int)),
        decreases n - m,
    {
        assert(t.skip(m as int).drop_first() =~= t.skip(m + 1));
        m += 1;
    }
    assert(chars@.subrange(m as int, n as int) =~= t.skip(m as int));
    text_between(chars.as_slice(), m, n)
}

/// `n` times the character `c`.
pub open spec fn repeated(c: char, n: nat) -> Seq<char> {
    Seq::new(n, |i: int| c)
}

/// Appends `n` times the character `c`.
pub fn push_repeated(s: &mut String, c: char, n: usize)
    ensures
        final(s)@ == old(s)@ + repeated(c, n as nat),
{
    let ghost before = s@;
    let mut i: usize = 0;
    assert(before + repeated(c, 0) =~= before);
    while i < n
        invariant
            i <= n,
            s@ == before + repeated(c, i as nat),
        decreases n - i,
    {
        s.push(c);
        i += 1;
        assert(s@ =~= before + repeated(c, i as nat));
    }
}

/// The lines, each with a newline behind it.
pub open spec fn unlines(lines: Seq<Seq<char>>) -> Seq<char>
    decreases lines.len(),
{
    if lines.len() == 0 {
        Seq::empty()
    } else {
        unlines(lines.drop_last()) + lines.last() + "\n"@
    }
}

/// Appends a line and a newline.
pub fn push_line(s: &mut String, line: &str)
    ensures
        final(s)@ == old(s)@ + line@ + "\n"@,
{
    s.append(line);
    s.append("\n");
}

/// The lines, each with a newline behind it.
pub fn lines_to_text(lines: &Vec<String>) -> (r: String)
    ensures
        r@ == unlines(texts(lines@)),
{
    let ghost all = texts(lines@);
    let mut out = String::new();
    let mut i: usize = 0;
    while i < lines.len()
        invariant
            i <= lines@.len(),
            all == texts(lines@),
            out@ == unlines(all.take(i as int)),
        decreases lines@.len() - i,
    {
        assert(all.take(i + 1).drop_last() =~= all.take(i as int));
        push_line(&mut out, lines[i].as_str());
        i += 1;
    }
    assert(all.take(i as int) =~= all);
    out
}

/// Where the first newline of a text stands: behind the end where there is none.
pub open spec fn newline_at(s: Seq<char>) -> int
    decreases s.len(),
{
    if s.len() == 0 || s[0] == '\n' {
        0
    } else {
        newline_at(s.skip(1)) + 1
    }
}

/// A line without the carriage return that stands before its newline.
pub open spec fn bare_line(s: Seq<char>) -> Seq<char> {
    if s.len() > 0 && s.last() == '\r' {
        s.drop_last()
    } else {
        s
    }
}

/// The lines of a text, without what ends them.
pub open spec fn lines_of(s: Seq<char>) -> Seq<Seq<char>>
    decreases s.len(),
{
    let n = newline_at(s);
    if s.len() == 0 {
        Seq::empty()
    } else if n < 0 || n >= s.len() {
        seq![s]
    } else {
        seq![bare_line(s.take(n))] + lines_of(s.skip(n + 1))
    }
}

proof fn lemma_newline(s: Seq<char>, n: int)
    requires
        0 <= n <= s.len(),
        forall|i: int| 0 <= i < n ==> s[i] != '\n',
        n == s.len() || s[n] == '\n',
    ensures
        newline_at(s) == n,
    decreases s.len(),
{
    if n > 0 {
        assert(s[0] != '\n');
        let rest = s.skip(1);
        assert forall|i: int| 0 <= i < n - 1 implies rest[i] != '\n' by {
            assert(rest[i] == s[i + 1]);
        }
        lemma_newline(rest, n - 1);
    }
}

/// The lines of a text, without what ends them.
pub fn split_lines(s: &str) -> (r: Vec<String>)
    ensures
        texts(r@) == lines_of(s@),
{
    let chars = chars_of(s);
    let mut out: Vec<String> = Vec::new();
    let mut start: usize = 0;
    let mut i: usize = 0;
    proof {
        assert(chars@.skip(0) =~= s@);
        assert(texts(out@) + lines_of(s@) =~= lines_of(s@));
    }
    while i < chars.len()
        invariant
            start <= i <= chars@.len(),
            chars@ == s@,
            forall|k: int| start <= k < i ==> chars@[k] != '\n',
            texts(out@) + lines_of(chars@.skip(start as int)) == lines_of(s@),
        decreases chars@.len() - i,
    {
        if chars[i] == '\n' {
            let ghost rest = chars@.skip(start as int);
            let ghost n = i - start;
            proof {
                assert forall|k: int| 0 <= k < n implies rest[k] != '\n' by {
                    assert(rest[k] == chars@[start + k]);
                }
                lemma_newline(rest, n);
            }
            let end: usize = if i > start && chars[i - 1] == '\r' { i - 1 } else { i };
            let line = text_between(&chars, start, end);
            proof {
                assert(line@ =~= bare_line(rest.take(n)));
                assert(rest.skip(n + 1) =~= chars@.skip(i + 1));
            }
            let ghost before = out@;
            out.push(line);
            proof {
                assert(texts(out@) =~= texts(before).push(line@));
                assert(texts(before) + (seq![line@] + lines_of(chars@.skip(i + 1))) =~= texts(out@)
                    + lines_of(chars@.skip(i + 1)));
            }
            start = i + 1;
        }
        i += 1;
    }
    if start < chars.len() {
        let ghost rest = chars@.skip(start as int);
        proof {
            assert forall|k: int| 0 <= k < rest.len() implies rest[k] != '\n' by {
                assert(rest[k] == chars@[start + k]);
            }
            lemma_newline(rest, rest.len() as int);
        }
        let line = text_between(&chars, start, chars.len());
        let ghost before = out@;
        assert(line@ =~= rest);
        out.push(line);
        assert(texts(out@) =~= texts(before) + seq![rest]);
    } else {
        assert(chars@.skip(start as int) =~= Seq::<char>::empty());
        assert(texts(out@) =~= texts(out@) + Seq::<Seq<char>>::empty());
    }
    out
}

/// The decimal digit of `d`.
pub open spec fn digit(d: nat) -> char {
    (48 + d) as char
}

/// `n` in decimal, without leading zeros.
pub open spec fn decimal_text(n: nat) -> Seq<char>
    decreases n,
{
    if n < 10 {
        seq![digit(n)]
    } else {
        decimal_text(n / 10).push(digit(n % 10))
    }
}

/// `n` in decimal, without leading zeros.
pub fn decimal(n: u64) -> (r: String)
    ensures
        r@ == decimal_text(n as nat),
{
    decimal_wide(n as u128)
}

/// `n` in decimal, without leading zeros.
pub fn decimal_wide(n: u128) -> (r: String)
    ensures
        r@ == decimal_text(n as nat),
    decreases n,
{
    let mut s = if n < 10 {
        String::new()
    } else {
        decimal_wide(n / 10)
    };
    let d: u8 = (n % 10) as u8;
    s.push((48 + d) as char);
    assert(n < 10 ==> s@ == seq![digit(n as nat)]);
    s
}

/// `n` in lower-case hexadecimal, without leading zeros.
pub open spec fn hex_text(n: nat) -> Seq<char>
    decreases n,
{
    if n < 16 {
        seq![crate::ids::hex_digit(n as int)]
    } else {
        hex_text(n / 16).push(crate::ids::hex_digit((n % 16) as int))
    }
}

/// `n` in lower-case hexadecimal, without leading zeros.
pub fn hexadecimal(n: u64) -> (r: String)
    ensures
        r@ == hex_text(n as nat),
    decreases n,
{
    let mut s = if n < 16 {
        String::new()
    } else {
        hexadecimal(n / 16)
    };
    let d: u8 = (n % 16) as u8;
    s.push(
        if d < 10 {
            (48 + d) as char
        } else {
            (87 + d) as char
        },
    );
    assert(n < 16 ==> s@ == seq![crate::ids::hex_digit(n as int)]);
    s
}

/// Whether every character of `s` is a decimal digit.
pub open spec fn all_digits(s: Seq<char>) -> bool {
    forall|i: int| 0 <= i < s.len() ==> '0' <= #[trigger] s[i] <= '9'
}

/// The number that decimal digits spell.
pub open spec fn digits_value(s: Seq<char>) -> nat
    decreases s.len(),
{
    if s.len() == 0 {
        0
    } else {
        digits_value(s.drop_last()) * 10 + (s.last() as nat - 48) as nat
    }
}

/// The digits of a number that may have a plus sign in front.
pub open spec fn unsigned(s: Seq<char>) -> Seq<char> {
    if s.len() > 1 && s[0] == '+' {
        s.drop_first()
    } else {
        s
    }
}

/// The number that `s` spells: digits, of which there is at least one, with or without a
/// plus sign in front. A number that does not fit into 64 bits is refused.
pub open spec fn number_in(s: Seq<char>) -> Option<u64> {
    let d = unsigned(s);
    if d.len() > 0 && all_digits(d) && digits_value(d) <= u64::MAX {
        Some(digits_value(d) as u64)
    } else {
        None
    }
}

proof fn lemma_digits_grow(s: Seq<char>, n: int)
    requires
        0 <= n <= s.len(),
        all_digits(s),
    ensures
        digits_value(s.take(n)) <= digits_value(s),
    decreases s.len() - n,
{
    if n < s.len() {
        lemma_digits_grow(s, n + 1);
        assert(s.take(n + 1).drop_last() =~= s.take(n));
        assert('0' <= s[n] <= '9');
    } else {
        assert(s.take(n) =~= s);
    }
}

/// The number that `s` spells.
pub fn parse_number(s: &str) -> (r: Option<u64>)
    ensures
        r == number_in(s@),
{
    let chars = chars_of(s);
    let start: usize = if chars.len() > 1 && chars[0] == '+' {
        1
    } else {
        0
    };
    let ghost d = unsigned(s@);
    assert(d =~= s@.skip(start as int));
    if chars.len() == start {
        return None;
    }
    let mut n: u64 = 0;
    let mut i: usize = start;
    assert(d.take(0) =~= Seq::empty());
    while i < chars.len()
        invariant
            start <= i <= chars@.len(),
            chars@ == s@,
            d == unsigned(s@),
            d == s@.skip(start as int),
            d.len() > 0,
            all_digits(d.take(i - start)),
            n == digits_value(d.take(i - start)),
        decreases chars@.len() - i,
    {
        let c = chars[i];
        let ghost k = i - start;
        assert(d[k] == c);
        assert(d.take(k + 1).drop_last() =~= d.take(k));
        if !('0' <= c && c <= '9') {
            assert(!all_digits(d));
            return None;
        }
        assert forall|j: int| 0 <= j < k + 1 implies '0' <= #[trigger] d.take(k + 1)[j] <= '9' by {
            if j < k {
                assert('0' <= d.take(k)[j] <= '9');
            }
        }
        let v: u64 = (c as u32 - 48) as u64;
        match n.checked_mul(10) {
            Some(m) => match m.checked_add(v) {
                Some(sum) => {
                    n = sum;
                },
                None => {
                    proof {
                        if all_digits(d) {
                            lemma_digits_grow(d, k + 1);
                        }
                    }
                    return None;
                },
            },
            None => {
                proof {
                    if all_digits(d) {
                        lemma_digits_grow(d, k + 1);
                    }
                }
                return None;
            },
        }
        i += 1;
    }
    assert(d.take(i - start) =~= d);
    Some(n)
}

/// Whether a text stands in another at place `i`.
pub open spec fn stands_at(s: Seq<char>, part: Seq<char>, i: int) -> bool {
    0 <= i && i + part.len() <= s.len() && s.subrange(i, i + part.len()) == part
}

/// Whether a text has another in it.
pub open spec fn has_text(s: Seq<char>, part: Seq<char>) -> bool {
    exists|i: int| #[trigger] stands_at(s, part, i)
}

/// Whether `s` has `part` in it.
pub fn contains_text(s: &str, part: &str) -> (r: bool)
    ensures
        r == has_text(s@, part@),
{
    let text = chars_of(s);
    let wanted = chars_of(part);
    let n: usize = text.len();
    let m: usize = wanted.len();
    if m > n {
        return false;
    }
    let mut i: usize = 0;
    while i <= n - m
        invariant
            m <= n,
            n == s@.len(),
            m == part@.len(),
            text@ == s@,
            wanted@ == part@,
            i <= n - m + 1,
            forall|k: int| 0 <= k < i ==> !#[trigger] stands_at(s@, part@, k),
        decreases n - i,
    {
        let mut j: usize = 0;
        while j < m && text[i + j] == wanted[j]
            invariant
                j <= m,
                i + m <= n,
                n == s@.len(),
                m == part@.len(),
                text@ == s@,
                wanted@ == part@,
                forall|k: int| 0 <= k < j ==> s@[i + k] == part@[k],
            decreases m - j,
        {
            j += 1;
        }
        if j == m {
            assert(s@.subrange(i as int, i + m) =~= part@);
            assert(stands_at(s@, part@, i as int));
            return true;
        }
        assert(!stands_at(s@, part@, i as int)) by {
            if stands_at(s@, part@, i as int) {
                assert(s@.subrange(i as int, i + m)[j as int] == part@[j as int]);
            }
        }
        if i == n - m {
            assert forall|k: int| !#[trigger] stands_at(s@, part@, k) by {
                if stands_at(s@, part@, k) {
                    assert(0 <= k <= i);
                }
            }
            return false;
        }
        i += 1;
    }
    false
}

/// Strings are ordered by the first character in which they differ, and a proper prefix
/// comes before what it is a prefix of.
pub proof fn law_order_is_by_the_first_difference(a: Seq<char>, b: Seq<char>)
    ensures
        text_lt(a, b) <==> exists|n: int|
            {
                &&& 0 <= n <= a.len()
                &&& n < b.len()
                &&& #[trigger] a.take(n) == b.take(n)
                &&& n == a.len() || a[n] < b[n]
            },
    decreases a.len(),
{
    if text_lt(a, b) {
        if a.len() == 0 || a[0] != b[0] {
            assert(a.take(0) =~= b.take(0));
        } else {
            let (x, y) = (a.drop_first(), b.drop_first());
            law_order_is_by_the_first_difference(x, y);
            let n = choose|n: int|
                {
                    &&& 0 <= n <= x.len()
                    &&& n < y.len()
                    &&& #[trigger] x.take(n) == y.take(n)
                    &&& n == x.len() || x[n] < y[n]
                };
            assert forall|i: int| 0 <= i < n + 1 implies a[i] == b[i] by {
                if i > 0 {
                    assert(x.take(n)[i - 1] == y.take(n)[i - 1]);
                }
            }
            assert(a.take(n + 1) =~= b.take(n + 1));
        }
    }
    if exists|n: int|
        {
            &&& 0 <= n <= a.len()
            &&& n < b.len()
            &&& #[trigger] a.take(n) == b.take(n)
            &&& n == a.len() || a[n] < b[n]
        } {
        let n = choose|n: int|
            {
                &&& 0 <= n <= a.len()
                &&& n < b.len()
                &&& #[trigger] a.take(n) == b.take(n)
                &&& n == a.len() || a[n] < b[n]
            };
        if n > 0 {
            assert(a.take(n)[0] == b.take(n)[0]);
            let (x, y) = (a.drop_first(), b.drop_first());
            assert forall|i: int| 0 <= i < n - 1 implies x[i] == y[i] by {
                assert(a.take(n)[i + 1] == b.take(n)[i + 1]);
            }
            assert(x.take(n - 1) =~= y.take(n - 1));
            law_order_is_by_the_first_difference(x, y);
        }
    }
}

/// Sorting texts loses none and makes none up, and no text stands behind a greater one.
pub proof fn law_sorted_texts_are_in_order(s: Seq<Seq<char>>, i: int, j: int)
    ensures
        sorted_texts(s).to_multiset() == s.to_multiset(),
        sorted_texts(s).len() == s.len(),
        0 <= i < j < s.len() ==> sorted_texts(s)[i] == sorted_texts(s)[j] || text_lt(
            sorted_texts(s)[i],
            sorted_texts(s)[j],
        ),
{
    let le = |a: Seq<char>, b: Seq<char>| text_le(a, b);
    lemma_text_le_total_ordering();
    s.lemma_sort_by_ensures(le);
    s.to_multiset_ensures();
    sorted_texts(s).to_multiset_ensures();
    if 0 <= i < j < s.len() {
        assert(le(sorted_texts(s)[i], sorted_texts(s)[j]));
    }
}

proof fn lemma_trim_end(s: Seq<char>)
    ensures
        trim_end(s).len() <= s.len(),
        trim_end(s) == s.take(trim_end(s).len() as int),
        forall|k: int| trim_end(s).len() <= k < s.len() ==> is_space(#[trigger] s[k]),
        trim_end(s).len() > 0 ==> !is_space(trim_end(s).last()),
    decreases s.len(),
{
    if s.len() > 0 && is_space(s.last()) {
        let rest = s.drop_last();
        lemma_trim_end(rest);
        assert forall|k: int| trim_end(s).len() <= k < s.len() implies is_space(
            #[trigger] s[k],
        ) by {
            if k < rest.len() {
                assert(rest[k] == s[k]);
            }
        }
        assert(rest.take(trim_end(s).len() as int) =~= s.take(trim_end(s).len() as int));
    } else {
        assert(s.take(s.len() as int) =~= s);
    }
}

proof fn lemma_trim_start(s: Seq<char>)
    ensures
        trim_start(s).len() <= s.len(),
        trim_start(s) == s.skip(s.len() - trim_start(s).len()),
        forall|k: int| 0 <= k < s.len() - trim_start(s).len() ==> is_space(#[trigger] s[k]),
        trim_start(s).len() > 0 ==> !is_space(trim_start(s)[0]),
    decreases s.len(),
{
    if s.len() > 0 && is_space(s[0]) {
        let rest = s.drop_first();
        lemma_trim_start(rest);
        assert forall|k: int| 0 <= k < s.len() - trim_start(s).len() implies is_space(
            #[trigger] s[k],
        ) by {
            if k > 0 {
                assert(rest[k - 1] == s[k]);
            }
        }
        assert(rest.skip(rest.len() - trim_start(s).len()) =~= s.skip(
            s.len() - trim_start(s).len(),
        ));
    } else {
        assert(s.skip(0) =~= s);
    }
}

/// What is trimmed off a text is white space at its ends, and all of it: what is left is
/// a part of the text, neither starts nor ends with white space, and nothing but white
/// space stands around it.
pub proof fn law_trimming_takes_outer_space_off(s: Seq<char>)
    ensures
        exists|i: int|
            {
                &&& 0 <= i <= i + trim(s).len() <= s.len()
                &&& trim(s) == #[trigger] s.subrange(i, i + trim(s).len())
                &&& forall|k: int| 0 <= k < i ==> is_space(#[trigger] s[k])
                &&& forall|k: int| i + trim(s).len() <= k < s.len() ==> is_space(#[trigger] s[k])
            },
        trim(s).len() > 0 ==> !is_space(trim(s)[0]) && !is_space(trim(s).last()),
        trim_end(s).len() > 0 ==> !is_space(trim_end(s).last()),
        trim_end(s).is_prefix_of(s),
        forall|k: int| trim_end(s).len() <= k < s.len() ==> is_space(#[trigger] s[k]),
{
    let e = trim_end(s);
    let t = trim(s);
    lemma_trim_end(s);
    lemma_trim_start(e);
    let i = e.len() - t.len();
    assert(t =~= s.subrange(i, i + t.len())) by {
        assert(e =~= s.take(e.len() as int));
        assert(t =~= e.skip(i));
    }
    assert forall|k: int| 0 <= k < i implies is_space(#[trigger] s[k]) by {
        assert(e[k] == s[k]);
    }
    if t.len() > 0 {
        assert(t.last() == e.last());
    }
}

/// A number in decimal is digits without leading zeros, and the digits spell the number:
/// reading it gives the number again.
pub proof fn law_decimals_are_read_back(n: nat)
    ensures
        decimal_text(n).len() > 0,
        all_digits(decimal_text(n)),
        digits_value(decimal_text(n)) == n,
        decimal_text(n).len() > 1 ==> decimal_text(n)[0] != '0',
        n <= u64::MAX ==> number_in(decimal_text(n)) == Some(n as u64),
    decreases n,
{
    let t = decimal_text(n);
    if n < 10 {
        assert(t.drop_last() =~= Seq::empty());
        assert(digits_value(Seq::<char>::empty()) == 0);
        assert(t.last() as nat == 48 + n);
    } else {
        law_decimals_are_read_back(n / 10);
        let rest = decimal_text(n / 10);
        assert(t.drop_last() =~= rest);
        assert(t.last() as nat == 48 + n % 10);
        assert forall|i: int| 0 <= i < t.len() implies '0' <= #[trigger] t[i] <= '9' by {
            if i < rest.len() {
                assert(t[i] == rest[i]);
            }
        }
        assert(t[0] == rest[0]);
        if rest.len() == 1 {
            assert(n / 10 < 10) by {
                if n / 10 >= 10 {
                    law_decimals_are_read_back(n / 100);
                    assert(decimal_text(n / 10) == decimal_text(n / 10 / 10).push(
                        digit(n / 10 % 10),
                    ));
                    law_decimals_are_read_back(n / 10 / 10);
                }
            }
            assert(rest[0] as nat == 48 + n / 10);
        }
    }
    assert('0' <= t[0] <= '9');
    assert(unsigned(t) == t);
}

/// The lines of a text that was made of lines are those lines, where none of them has a
/// newline in it or a carriage return at its end.
pub proof fn law_lines_are_read_back(lines: Seq<Seq<char>>)
    requires
        forall|i: int, k: int|
            #![trigger lines[i][k]]
            0 <= i < lines.len() && 0 <= k < lines[i].len() ==> lines[i][k] != '\n',
        forall|i: int|
            0 <= i < lines.len() && (#[trigger] lines[i]).len() > 0 ==> lines[i].last() != '\r',
    ensures
        lines_of(unlines(lines)) == lines,
    decreases lines.len(),
{
    reveal_strlit("\n");
    if lines.len() > 0 {
        let first = lines[0];
        let rest = lines.drop_first();
        assert forall|i: int, k: int|
            #![trigger rest[i][k]]
            0 <= i < rest.len() && 0 <= k < rest[i].len() implies rest[i][k] != '\n' by {
            assert(lines[i + 1][k] != '\n');
        }
        assert forall|i: int| 0 <= i < rest.len() && (
        #[trigger] rest[i]).len() > 0 implies rest[i].last() != '\r' by {
            assert(lines[i + 1] == rest[i]);
        }
        law_lines_are_read_back(rest);
        lemma_unlines_first(lines);
        let s = unlines(lines);
        assert(s == first + "\n"@ + unlines(rest));
        let n = first.len() as int;
        assert forall|i: int| 0 <= i < n implies s[i] != '\n' by {
            assert(lines[0][i] != '\n');
        }
        assert(s[n] == '\n');
        lemma_newline(s, n);
        assert(s.take(n) =~= first);
        assert(s.skip(n + 1) =~= unlines(rest));
        assert(bare_line(first) == first);
        assert(seq![first] + rest =~= lines);
    }
}

proof fn lemma_unlines_first(lines: Seq<Seq<char>>)
    requires
        lines.len() > 0,
    ensures
        unlines(lines) == lines[0] + "\n"@ + unlines(lines.drop_first()),
    decreases lines.len(),
{
    if lines.len() == 1 {
        assert(lines.drop_last() =~= Seq::empty());
        assert(lines.drop_first() =~= Seq::empty());
        assert(unlines(lines) =~= lines[0] + "\n"@ + unlines(lines.drop_first()));
    } else {
        let before = lines.drop_last();
        lemma_unlines_first(before);
        assert(lines.drop_first().drop_last() =~= before.drop_first());
        assert(unlines(lines) =~= lines[0] + "\n"@ + unlines(lines.drop_first()));
    }
}

/// A text is in another exactly where the other is made of something, that text, and
/// something.
pub proof fn law_a_part_stands_between_two_others(s: Seq<char>, part: Seq<char>)
    ensures
        has_text(s, part) <==> exists|a: Seq<char>, b: Seq<char>| #[trigger] (a + part + b) == s,
{
    if has_text(s, part) {
        let i = choose|i: int| #[trigger] stands_at(s, part, i);
        let a = s.take(i);
        let b = s.skip(i + part.len());
        assert(s.subrange(i, i + part.len()) == part);
        assert(a + part + b =~= s) by {
            assert forall|k: int| 0 <= k < s.len() implies (a + part + b)[k] == s[k] by {
                if i <= k < i + part.len() {
                    assert(s.subrange(i, i + part.len())[k - i] == s[k]);
                }
            }
        }
    }
    if exists|a: Seq<char>, b: Seq<char>| #[trigger] (a + part + b) == s {
        let (a, b) = choose|a: Seq<char>, b: Seq<char>| #[trigger] (a + part + b) == s;
        let i = a.len() as int;
        assert(s.subrange(i, i + part.len()) =~= part);
        assert(stands_at(s, part, i));
    }
}

/// Joined texts are the texts in order with the separator between each and the next.
pub proof fn law_joining_puts_the_separator_between(
    s: Seq<Seq<char>>,
    last: Seq<char>,
    sep: Seq<char>,
)
    ensures
        joined(Seq::empty(), sep).len() == 0,
        joined(seq![last], sep) == last,
        s.len() > 0 ==> joined(s.push(last), sep) == joined(s, sep) + sep + last,
{
    assert(s.push(last).drop_last() =~= s);
}

/// No two numbers have the same text in hexadecimal.
pub proof fn law_hexadecimals_are_told_apart(a: nat, b: nat)
    requires
        hex_text(a) == hex_text(b),
    ensures
        a == b,
    decreases a,
{
    lemma_hex_filled(a);
    lemma_hex_filled(b);
    let (x, y) = (hex_text(a), hex_text(b));
    crate::ids::law_hexadecimal_digits_are_read_back((a % 16) as int, '0');
    crate::ids::law_hexadecimal_digits_are_read_back((b % 16) as int, '0');
    assert(x.last() == crate::ids::hex_digit((a % 16) as int));
    assert(y.last() == crate::ids::hex_digit((b % 16) as int));
    assert(a % 16 == b % 16);
    if a >= 16 && b >= 16 {
        assert(x.drop_last() =~= hex_text(a / 16));
        assert(y.drop_last() =~= hex_text(b / 16));
        law_hexadecimals_are_told_apart(a / 16, b / 16);
    } else if a >= 16 {
        lemma_hex_filled(a / 16);
        assert(x.len() > 1 && y.len() == 1);
    } else if b >= 16 {
        lemma_hex_filled(b / 16);
        assert(y.len() > 1 && x.len() == 1);
    }
}

proof fn lemma_hex_filled(n: nat)
    ensures
        hex_text(n).len() > 0,
    decreases n,
{
    if n >= 16 {
        lemma_hex_filled(n / 16);
    }
}

/// A plus sign in front of a number does not change it, and any other character that is no
/// digit keeps a text from being a number.
pub proof fn law_only_digits_and_a_plus_sign_are_a_number(n: nat, s: Seq<char>, i: int)
    requires
        n <= u64::MAX,
        0 <= i < s.len(),
    ensures
        number_in(seq!['+'] + decimal_text(n)) == Some(n as u64),
        !('0' <= s[i] <= '9') && !(i == 0 && s[0] == '+') ==> number_in(s) is None,
{
    let d = decimal_text(n);
    law_decimals_are_read_back(n);
    let t = seq!['+'] + d;
    assert(t.drop_first() =~= d);
    assert(unsigned(t) == d);
    if !('0' <= s[i] <= '9') && !(i == 0 && s[0] == '+') {
        let u = unsigned(s);
        if s.len() > 1 && s[0] == '+' {
            assert(u[i - 1] == s[i]);
        } else {
            assert(u[i] == s[i]);
        }
    }
}

} // verus!
