//! How things are shown: identifiers, sizes, tables and colours.

use crate::ids::{public_key_text, Did};
use crate::location::EndpointId;
use crate::sorted::SortedMap;
use crate::text::{
    cat, cat3, cat5, chars_of, decimal, decimal_text, digit, push_repeated, repeated, text_between,
    texts, trim_end, unlines, without_trailing_space,
};
use vstd::prelude::*;

verus! {

/// A step of fetching an artifact.
#[derive(Debug)]
pub enum FetchProgress {
    /// The fetch has begun.
    Connecting,
    /// A provider is being asked.
    TryingLocation {
        endpoint_id: EndpointId,
    },
    /// A provider could not help.
    LocationFailed {
        endpoint_id: EndpointId,
    },
    /// Bytes have arrived.
    Downloading {
        offset: u64,
        total: Option<u64>,
    },
    /// Bytes are being written out.
    Exporting {
        offset: u64,
        total: Option<u64>,
        /// The member of a collection that is being written.
        entry: Option<String>,
    },
}

/// What a step changes on a display.
#[derive(Debug, PartialEq, Eq)]
pub enum ProgressUpdate {
    /// The message.
    Message(String),
    /// The number of bytes.
    Position(u64),
}

/// What a step shows.
#[verifier::ext_equal]
pub enum ProgressView {
    Message(Seq<char>),
    Position(u64),
}

impl View for ProgressUpdate {
    type V = ProgressView;

    open spec fn view(&self) -> ProgressView {
        match *self {
            ProgressUpdate::Message(s) => ProgressView::Message(s@),
            ProgressUpdate::Position(n) => ProgressView::Position(n),
        }
    }
}

/// What a step changes on a display: nothing, where a provider fails and the next
/// one is tried.
pub open spec fn progress_spec(p: FetchProgress) -> Option<ProgressView> {
    match p {
        FetchProgress::Connecting => Some(ProgressView::Message("connecting"@)),
        FetchProgress::TryingLocation { endpoint_id } => Some(
            ProgressView::Message("trying "@ + endpoint_id.url_text()),
        ),
        FetchProgress::LocationFailed { .. } => None,
        FetchProgress::Downloading { offset, .. } => Some(ProgressView::Position(offset)),
        FetchProgress::Exporting { .. } => Some(ProgressView::Message("exporting"@)),
    }
}

/// What a step changes on a display.
pub fn describe_progress(p: &FetchProgress) -> (r: Option<ProgressUpdate>)
    ensures
        match r {
            Some(update) => progress_spec(*p) == Some(update@),
            None => progress_spec(*p) is None,
        },
{
    match p {
        FetchProgress::Connecting => Some(ProgressUpdate::Message("connecting".to_owned())),
        FetchProgress::TryingLocation { endpoint_id } => {
            let url = endpoint_id.to_url();
            Some(ProgressUpdate::Message(cat("trying ", url.as_str())))
        },
        FetchProgress::LocationFailed { .. } => None,
        FetchProgress::Downloading { offset, .. } => Some(ProgressUpdate::Position(*offset)),
        FetchProgress::Exporting { .. } => Some(ProgressUpdate::Message("exporting".to_owned())),
    }
}

/// The text of an optional string.
pub open spec fn opt_text(s: Option<String>) -> Option<Seq<char>> {
    match s {
        Some(s) => Some(s@),
        None => None,
    }
}

/// The aliases of users, as text.
pub open spec fn aliases_view(m: SortedMap<Did, String>) -> Map<Did, Seq<char>> {
    m@.map_values(|s: String| s@)
}

/// The alias of a user.
pub open spec fn alias_of(did: Did, aliases: Map<Did, Seq<char>>) -> Option<Seq<char>> {
    if aliases.contains_key(did) {
        Some(aliases[did])
    } else {
        None
    }
}

/// The alias of a user.
pub fn resolve(did: &Did, aliases: &SortedMap<Did, String>) -> (r: Option<String>)
    ensures
        opt_text(r) == alias_of(*did, aliases_view(*aliases)),
{
    match aliases.get(did) {
        Some(alias) => {
            assert(aliases_view(*aliases).contains_key(*did));
            Some(alias.clone())
        },
        None => {
            assert(!aliases_view(*aliases).contains_key(*did));
            None
        },
    }
}

/// The first and the last seven characters of a text, with an ellipsis between.
pub open spec fn shortened(s: Seq<char>) -> Seq<char> {
    s.take(7) + "…"@ + s.skip(s.len() - 7)
}

/// A user as shown: the key in full or shortened, behind the alias if there is one.
pub open spec fn did_shown(did: Did, alias: Option<Seq<char>>, full: bool) -> Seq<char> {
    let key = public_key_text(did.key.hi, did.key.lo);
    let shown = if full {
        key
    } else {
        shortened(key)
    };
    match alias {
        Some(alias) => alias + "@"@ + shown,
        None => shown,
    }
}

/// A user as shown.
pub fn format_did(did: &Did, alias: &Option<String>, full: bool) -> (r: String)
    ensures
        r@ == did_shown(*did, opt_text(*alias), full),
{
    let text = did.encode();
    let chars = chars_of(text.as_str());
    let ghost key = public_key_text(did.key.hi, did.key.lo);
    proof {
        reveal_strlit("did:key:");
        assert(text@.skip(8) =~= key);
    }
    let n: usize = chars.len();
    let shown = if full {
        assert(chars@.subrange(8, n as int) =~= key);
        text_between(chars.as_slice(), 8, n)
    } else {
        assert(chars@.subrange(8, 15) =~= key.take(7));
        assert(chars@.subrange(n - 7, n as int) =~= key.skip(key.len() - 7));
        let head = text_between(chars.as_slice(), 8, 15);
        let tail = text_between(chars.as_slice(), n - 7, n);
        cat3(head.as_str(), "…", tail.as_str())
    };
    match alias {
        Some(alias) => cat3(alias.as_str(), "@", shown.as_str()),
        None => shown,
    }
}

/// The whole number nearest to `a / d`, the even one of two that are equally near.
pub open spec fn half_even(a: nat, d: nat) -> nat {
    let q = a / d;
    let r = a % d;
    if 2 * r < d {
        q
    } else if 2 * r > d {
        q + 1
    } else {
        q + q % 2
    }
}

/// The distance between neighbouring numbers of 53 binary digits, near `n`.
pub open spec fn double_step(n: nat) -> nat
    decreases n,
{
    if n < 0x20_0000_0000_0000 {
        1
    } else {
        2 * double_step(n / 2)
    }
}

/// The number of 53 binary digits nearest to `n`.
pub open spec fn as_double(n: nat) -> nat {
    half_even(n, double_step(n)) * double_step(n)
}

/// A number of bytes as shown: in the greatest unit that it reaches, to one or two
/// decimals.
pub open spec fn bytes_shown(n: nat) -> Seq<char> {
    if n >= 0x4000_0000 {
        let h = half_even(as_double(n) * 100, 0x4000_0000);
        decimal_text(h / 100) + "."@ + seq![digit(h / 10 % 10), digit(h % 10)] + " GiB"@
    } else if n >= 0x10_0000 {
        let h = half_even(n * 10, 0x10_0000);
        decimal_text(h / 10) + "."@ + seq![digit(h % 10)] + " MiB"@
    } else if n >= 0x400 {
        let h = half_even(n * 10, 0x400);
        decimal_text(h / 10) + "."@ + seq![digit(h % 10)] + " KiB"@
    } else {
        decimal_text(n) + " B"@
    }
}

fn nearest(a: u128, d: u128) -> (r: u128)
    requires
        0 < d <= 0x1_0000_0000_0000_0000,
        a <= 0x1_0000_0000_0000_0000_0000_0000,
    ensures
        r == half_even(a as nat, d as nat),
        r <= a + 1,
{
    let q = a / d;
    let r = a % d;
    proof {
        vstd::arithmetic::div_mod::lemma_div_is_ordered_by_denominator(a as int, 1, d as int);
    }
    if 2 * r < d {
        q
    } else if 2 * r > d {
        q + 1
    } else {
        q + q % 2
    }
}

/// The number of 53 binary digits nearest to `n`.
fn nearest_double(n: u64) -> (r: u128)
    ensures
        r == as_double(n as nat),
        r <= 0x2_0000_0000_0000_0000,
{
    let mut step: u128 = 1;
    let mut m: u64 = n;
    while m >= 0x20_0000_0000_0000
        invariant
            step >= 1,
            step * m <= n,
            step * double_step(m as nat) == double_step(n as nat),
        decreases m,
    {
        let ghost s = step as int;
        let ghost x = m as int;
        proof {
            assert(s * 2 * (x / 2) <= s * x) by (nonlinear_arith)
                requires
                    s >= 1,
                    x >= 0,
            ;
            assert(s <= s * x) by (nonlinear_arith)
                requires
                    s >= 1,
                    x >= 1,
            ;
            assert(s * (2 * double_step((x / 2) as nat)) == (s * 2) * double_step((x / 2) as nat))
                by (nonlinear_arith);
        }
        step = step * 2;
        m = m / 2;
    }
    proof {
        assert(step * double_step(m as nat) == step) by (nonlinear_arith)
            requires
                double_step(m as nat) == 1,
        ;
        if m == 0 {
            assert(n < 0x20_0000_0000_0000 || step >= 1);
        }
        lemma_double_step(n as nat);
    }
    let q = nearest(n as u128, step);
    proof {
        lemma_nearest_bound(n as nat, step as nat);
    }
    q * step
}

/// The distance is at most the number, where the number is large.
proof fn lemma_double_step(n: nat)
    ensures
        1 <= double_step(n),
        n >= 1 ==> double_step(n) <= n,
        n == 0 ==> double_step(n) == 1,
    decreases n,
{
    if n >= 0x20_0000_0000_0000 {
        lemma_double_step(n / 2);
    }
}

/// The nearest multiple of `d` is less than `d` away.
proof fn lemma_nearest_bound(a: nat, d: nat)
    requires
        d >= 1,
    ensures
        half_even(a, d) * d <= a + d,
{
    let q = a / d;
    let r = a % d;
    vstd::arithmetic::div_mod::lemma_fundamental_div_mod(a as int, d as int);
    assert(q * d <= a) by (nonlinear_arith)
        requires
            a == d * q + r,
            r >= 0,
    ;
    assert((q + 1) * d == q * d + d) by (nonlinear_arith);
}

/// A number of bytes as shown, such as `1.5 MiB`.
pub fn human_bytes(n: u64) -> (r: String)
    ensures
        r@ == bytes_shown(n as nat),
{
    if n >= 0x4000_0000 {
        let h: u128 = nearest(nearest_double(n) * 100, 0x4000_0000);
        proof {
            lemma_gib_bound(as_double(n as nat) * 100);
        }
        let whole = decimal((h / 100) as u64);
        let mut s = cat(whole.as_str(), ".");
        let tens: u8 = (h / 10 % 10) as u8;
        let ones: u8 = (h % 10) as u8;
        s.push((48 + tens) as char);
        s.push((48 + ones) as char);
        s.append(" GiB");
        assert(s@ =~= bytes_shown(n as nat));
        s
    } else if n >= 0x10_0000 {
        let h: u128 = nearest(n as u128 * 10, 0x10_0000);
        one_decimal(h, " MiB")
    } else if n >= 0x400 {
        let h: u128 = nearest(n as u128 * 10, 0x400);
        one_decimal(h, " KiB")
    } else {
        let count = decimal(n);
        cat(count.as_str(), " B")
    }
}

proof fn lemma_gib_bound(a: nat)
    requires
        a <= 200 * 0x1_0000_0000_0000_0000,
    ensures
        half_even(a, 0x4000_0000) < 0x1_0000_0000_0000_0000,
{
}

/// `h` tenths, with a unit behind.
fn one_decimal(h: u128, unit: &str) -> (r: String)
    requires
        h <= 0x1_0000_0000_0000,
    ensures
        r@ == decimal_text(h as nat / 10) + "."@ + seq![digit(h as nat % 10)] + unit@,
{
    let whole = decimal((h / 10) as u64);
    let mut s = cat(whole.as_str(), ".");
    let ones: u8 = (h % 10) as u8;
    s.push((48 + ones) as char);
    s.append(unit);
    assert(s@ =~= decimal_text(h as nat / 10) + "."@ + seq![digit(h as nat % 10)] + unit@);
    s
}

/// What is left behind a control sequence: the sequence ends with the first
/// character from `@` to `~`.
pub open spec fn after_sequence(s: Seq<char>) -> Seq<char>
    decreases s.len(),
{
    if s.len() == 0 {
        s
    } else if '@' <= s[0] <= '~' {
        s.drop_first()
    } else {
        after_sequence(s.drop_first())
    }
}

/// A sequence does not make a text longer.
pub proof fn lemma_after_sequence(s: Seq<char>)
    ensures
        after_sequence(s).len() <= s.len(),
    decreases s.len(),
{
    if s.len() > 0 {
        lemma_after_sequence(s.drop_first());
    }
}

/// The number of columns that a text takes: one for each character, and none for a
/// control sequence, which starts with an escape and `[`.
pub open spec fn width(s: Seq<char>) -> nat
    decreases s.len(),
{
    if s.len() == 0 {
        0
    } else if s[0] == '\u{1b}' && s.len() > 1 && s[1] == '[' {
        proof {
            lemma_after_sequence(s.skip(2));
        }
        width(after_sequence(s.skip(2)))
    } else {
        1 + width(s.drop_first())
    }
}

/// The number of columns that a string takes.
pub fn visible_width(s: &str) -> (r: usize)
    ensures
        r == width(s@),
        r <= s@.len(),
{
    let chars = chars_of(s);
    let mut w: usize = 0;
    let mut i: usize = 0;
    assert(s@.skip(0) =~= s@);
    while i < chars.len()
        invariant
            i <= chars@.len(),
            chars@ == s@,
            w <= i,
            w + width(s@.skip(i as int)) == width(s@),
        decreases chars@.len() - i,
    {
        let ghost here = s@.skip(i as int);
        if chars[i] == '\u{1b}' && i + 1 < chars.len() && chars[i + 1] == '[' {
            assert(here.skip(2) =~= s@.skip(i + 2));
            let ghost start = i as int;
            i += 2;
            while i < chars.len() && !('@' <= chars[i] && chars[i] <= '~')
                invariant
                    start + 2 <= i <= chars@.len(),
                    chars@ == s@,
                    w <= start,
                    w + width(after_sequence(s@.skip(i as int))) == width(s@),
                decreases chars@.len() - i,
            {
                assert(s@.skip(i as int).drop_first() =~= s@.skip(i + 1));
                i += 1;
            }
            if i < chars.len() {
                assert(s@.skip(i as int).drop_first() =~= s@.skip(i + 1));
                i += 1;
            }
        } else {
            assert(here.drop_first() =~= s@.skip(i + 1));
            i += 1;
            w += 1;
        }
    }
    w
}

/// `s` with spaces behind it, so that it takes at least `target` columns.
pub open spec fn padded(s: Seq<char>, target: nat) -> Seq<char> {
    if width(s) >= target {
        s
    } else {
        s + repeated(' ', (target - width(s)) as nat)
    }
}

/// `s` with spaces behind it, so that it takes at least `target` columns.
pub fn pad_right(s: &str, target: usize) -> (r: String)
    ensures
        r@ == padded(s@, target as nat),
{
    let w: usize = visible_width(s);
    let mut out = s.to_owned();
    if w < target {
        push_repeated(&mut out, ' ', target - w);
    }
    out
}

/// The cells of a row, as text.
pub open spec fn row_texts(rows: Seq<Vec<String>>) -> Seq<Seq<Seq<char>>> {
    rows.map_values(|r: Vec<String>| texts(r@))
}

/// The width of column `c`: that of its widest cell.
pub open spec fn column_width(rows: Seq<Seq<Seq<char>>>, c: int) -> nat
    decreases rows.len(),
{
    if rows.len() == 0 {
        0
    } else {
        let w = column_width(rows.drop_last(), c);
        let row = rows.last();
        if c < row.len() && width(row[c]) > w {
            width(row[c])
        } else {
            w
        }
    }
}

/// The first `n` cells of a row: each but the last of the row is padded to its column
/// and has two spaces behind it.
pub open spec fn cells(row: Seq<Seq<char>>, rows: Seq<Seq<Seq<char>>>, n: int) -> Seq<char>
    decreases n,
{
    if n <= 0 {
        Seq::empty()
    } else if n < row.len() {
        cells(row, rows, n - 1) + padded(row[n - 1], column_width(rows, n - 1)) + "  "@
    } else {
        cells(row, rows, n - 1) + row[n - 1]
    }
}

/// A row as a line of the table, without white space at its end.
pub open spec fn table_line(row: Seq<Seq<char>>, rows: Seq<Seq<Seq<char>>>, indent: nat) -> Seq<
    char,
> {
    trim_end(repeated(' ', indent) + cells(row, rows, row.len() as int))
}

/// The lines of a table.
pub open spec fn table_lines(rows: Seq<Seq<Seq<char>>>, indent: nat) -> Seq<Seq<char>> {
    rows.map_values(|row: Seq<Seq<char>>| table_line(row, rows, indent))
}

/// Whether a control sequence in `s` ends.
pub open spec fn terminated(s: Seq<char>) -> bool {
    exists|i: int| 0 <= i < s.len() && '@' <= #[trigger] s[i] <= '~'
}

/// Whether `s` breaks no control sequence off: each one in it ends, and the last
/// character is no escape.
pub open spec fn complete(s: Seq<char>) -> bool
    decreases s.len(),
{
    if s.len() == 0 {
        true
    } else if s[0] == '\u{1b}' && s.len() > 1 && s[1] == '[' {
        proof {
            lemma_after_sequence(s.skip(2));
        }
        terminated(s.skip(2)) && complete(after_sequence(s.skip(2)))
    } else {
        (s[0] == '\u{1b}' ==> s.len() > 1) && complete(s.drop_first())
    }
}

/// What stands behind the end of a control sequence has no part in it.
proof fn lemma_after_sequence_add(a: Seq<char>, b: Seq<char>)
    requires
        terminated(a),
    ensures
        after_sequence(a + b) == after_sequence(a) + b,
    decreases a.len(),
{
    let i = choose|i: int| 0 <= i < a.len() && '@' <= #[trigger] a[i] <= '~';
    if '@' <= a[0] <= '~' {
        assert((a + b).drop_first() =~= a.drop_first() + b);
    } else {
        assert(a.drop_first()[i - 1] == a[i]);
        lemma_after_sequence_add(a.drop_first(), b);
        assert((a + b).drop_first() =~= a.drop_first() + b);
    }
}

/// The columns of a text are those of its parts, where the first breaks nothing off.
pub proof fn lemma_width_add(a: Seq<char>, b: Seq<char>)
    requires
        complete(a),
    ensures
        width(a + b) == width(a) + width(b),
        complete(b) ==> complete(a + b),
    decreases a.len(),
{
    let s = a + b;
    if a.len() == 0 {
        assert(s =~= b);
    } else if a[0] == '\u{1b}' && a.len() > 1 && a[1] == '[' {
        lemma_after_sequence(a.skip(2));
        assert(s.skip(2) =~= a.skip(2) + b);
        lemma_after_sequence_add(a.skip(2), b);
        lemma_width_add(after_sequence(a.skip(2)), b);
        let i = choose|i: int| 0 <= i < a.skip(2).len() && '@' <= #[trigger] a.skip(2)[i] <= '~';
        assert(s.skip(2)[i] == a.skip(2)[i]);
        assert(terminated(s.skip(2)));
    } else {
        assert(s.drop_first() =~= a.drop_first() + b);
        lemma_width_add(a.drop_first(), b);
        assert(s[0] == a[0]);
        assert(a.len() > 1 ==> s[1] == a[1]);
    }
}

/// Each space takes a column.
proof fn lemma_width_spaces(n: nat)
    ensures
        width(repeated(' ', n)) == n,
        complete(repeated(' ', n)),
    decreases n,
{
    if n > 0 {
        lemma_width_spaces((n - 1) as nat);
        assert(repeated(' ', n).drop_first() =~= repeated(' ', (n - 1) as nat));
    }
}

/// Colours take no room: a painted text is as wide as the text.
pub proof fn law_colours_take_no_room(color: bool, code: Seq<char>, s: Seq<char>)
    requires
        complete(s),
        forall|i: int| 0 <= i < code.len() ==> !('@' <= #[trigger] code[i] <= '~'),
    ensures
        width(painted(color, code, s)) == width(s),
        complete(painted(color, code, s)),
{
    if color && s.len() > 0 {
        reveal_strlit("\x1b[");
        reveal_strlit("m");
        reveal_strlit("\x1b[0m");
        let start = "\x1b["@ + code + "m"@;
        let end = "\x1b[0m"@;
        let rest = start.skip(2);
        assert(rest =~= code + "m"@);
        assert(rest[code.len() as int] == 'm');
        assert(after_sequence(rest) == Seq::<char>::empty()) by {
            lemma_after_code(code);
        }
        reveal_with_fuel(width, 2);
        reveal_with_fuel(complete, 2);
        assert(complete(start) && width(start) == 0);
        let tail = end.skip(2);
        assert(tail =~= seq!['0'] + "m"@);
        lemma_after_code(seq!['0']);
        assert(tail[1] == 'm');
        assert(complete(end) && width(end) == 0);
        lemma_width_add(start, s);
        lemma_width_add(start + s, end);
        assert(painted(color, code, s) =~= start + s + end);
    }
}

/// Nothing stands behind the sequence with the code `code`.
proof fn lemma_after_code(code: Seq<char>)
    requires
        forall|i: int| 0 <= i < code.len() ==> !('@' <= #[trigger] code[i] <= '~'),
    ensures
        after_sequence(code + "m"@) == Seq::<char>::empty(),
    decreases code.len(),
{
    reveal_strlit("m");
    let s = code + "m"@;
    if code.len() == 0 {
        assert(s.drop_first() =~= Seq::<char>::empty());
    } else {
        assert(s[0] == code[0]);
        assert forall|i: int| 0 <= i < code.drop_first().len() implies !('@'
            <= #[trigger] code.drop_first()[i] <= '~') by {
            assert(code[i + 1] == code.drop_first()[i]);
        }
        lemma_after_code(code.drop_first());
        assert(s.drop_first() =~= code.drop_first() + "m"@);
    }
}

/// Every cell of a row breaks no control sequence off.
pub open spec fn complete_row(row: Seq<Seq<char>>) -> bool {
    forall|i: int| 0 <= i < row.len() ==> complete(#[trigger] row[i])
}

/// The columns in front of column `c`: the widths of the columns before it, with two
/// spaces behind each.
pub open spec fn offset(rows: Seq<Seq<Seq<char>>>, c: int) -> nat
    decreases c,
{
    if c <= 0 {
        0
    } else {
        offset(rows, c - 1) + column_width(rows, c - 1) + 2
    }
}

/// No cell is wider than its column.
proof fn lemma_column_width(rows: Seq<Seq<Seq<char>>>, r: int, c: int)
    requires
        0 <= r < rows.len(),
        0 <= c < rows[r].len(),
    ensures
        width(rows[r][c]) <= column_width(rows, c),
    decreases rows.len(),
{
    if r < rows.len() - 1 {
        lemma_column_width(rows.drop_last(), r, c);
    }
}

/// The columns of a table are aligned: a cell starts at the same place in every row that
/// has it.
pub proof fn law_columns_are_aligned(rows: Seq<Seq<Seq<char>>>, r: int, c: int)
    requires
        0 <= r < rows.len(),
        0 <= c < rows[r].len(),
        complete_row(rows[r]),
    ensures
        width(cells(rows[r], rows, c)) == offset(rows, c),
        complete(cells(rows[r], rows, c)),
    decreases c,
{
    if c > 0 {
        law_columns_are_aligned(rows, r, c - 1);
        let before = cells(rows[r], rows, c - 1);
        let cell = rows[r][c - 1];
        let w = column_width(rows, c - 1);
        assert(complete(cell));
        lemma_column_width(rows, r, c - 1);
        let pad = (w - width(cell)) as nat;
        lemma_width_spaces(pad);
        lemma_width_add(cell, repeated(' ', pad));
        lemma_width_add(before, padded(cell, w));
        reveal_strlit("  ");
        lemma_width_spaces(2);
        assert("  "@ =~= repeated(' ', 2));
        lemma_width_add(before + padded(cell, w), "  "@);
    }
}

/// The width of column `c`: that of its widest cell.
fn width_of_column(rows: &Vec<Vec<String>>, c: usize) -> (r: usize)
    ensures
        r == column_width(row_texts(rows@), c as int),
{
    let ghost all = row_texts(rows@);
    let mut w: usize = 0;
    let mut i: usize = 0;
    while i < rows.len()
        invariant
            i <= rows@.len(),
            all == row_texts(rows@),
            w == column_width(all.take(i as int), c as int),
        decreases rows@.len() - i,
    {
        assert(all.take(i + 1).drop_last() =~= all.take(i as int));
        assert(all[i as int] == texts(rows@[i as int]@));
        let row = &rows[i];
        if c < row.len() {
            let cell: usize = visible_width(row[c].as_str());
            if cell > w {
                w = cell;
            }
        }
        i += 1;
    }
    assert(all.take(i as int) =~= all);
    w
}

/// The rows as lines of a table whose columns are aligned, `indent` spaces in.
pub fn table(rows: &Vec<Vec<String>>, indent: usize) -> (r: Vec<String>)
    ensures
        texts(r@) == table_lines(row_texts(rows@), indent as nat),
{
    let ghost all = row_texts(rows@);
    let mut out: Vec<String> = Vec::new();
    let mut i: usize = 0;
    while i < rows.len()
        invariant
            i <= rows@.len(),
            all == row_texts(rows@),
            texts(out@) == table_lines(all, indent as nat).take(i as int),
        decreases rows@.len() - i,
    {
        let row = &rows[i];
        let ghost cells_here = texts(row@);
        assert(all[i as int] == cells_here);
        let mut line = String::new();
        push_repeated(&mut line, ' ', indent);
        assert(line@ =~= repeated(' ', indent as nat));
        let mut c: usize = 0;
        assert(line@ =~= repeated(' ', indent as nat) + cells(cells_here, all, 0));
        while c < row.len()
            invariant
                c <= row@.len(),
                all == row_texts(rows@),
                cells_here == texts(row@),
                line@ == repeated(' ', indent as nat) + cells(cells_here, all, c as int),
            decreases row@.len() - c,
        {
            assert(cells_here[c as int] == row@[c as int]@);
            if c + 1 < row.len() {
                let w: usize = width_of_column(rows, c);
                let cell = pad_right(row[c].as_str(), w);
                line.append(cell.as_str());
                line.append("  ");
            } else {
                line.append(row[c].as_str());
            }
            c += 1;
            assert(line@ =~= repeated(' ', indent as nat) + cells(cells_here, all, c as int));
        }
        let ghost before = texts(out@);
        out.push(without_trailing_space(line.as_str()));
        assert(texts(out@) =~= before.push(table_line(cells_here, all, indent as nat)));
        i += 1;
        assert(texts(out@) =~= table_lines(all, indent as nat).take(i as int));
    }
    assert(texts(out@) =~= table_lines(all, indent as nat));
    out
}

/// The rows as a table whose columns are aligned, `indent` spaces in.
pub fn format_table(rows: &Vec<Vec<String>>, indent: usize) -> (r: String)
    ensures
        r@ == unlines(table_lines(row_texts(rows@), indent as nat)),
{
    let lines = table(rows, indent);
    crate::text::lines_to_text(&lines)
}

/// How much is shown, and whether in colour.
#[derive(Clone, Copy, PartialEq, Eq, Debug, Structural)]
pub struct Style {
    /// Whether identifiers are shown in full.
    pub verbose: bool,
    /// Whether colours are used.
    pub color: bool,
}

impl Default for Style {
    fn default() -> (r: Style)
        ensures
            !r.verbose,
            !r.color,
    {
        Style { verbose: false, color: false }
    }
}

/// `s` in the colour or weight `code`, where colours are used.
pub open spec fn painted(color: bool, code: Seq<char>, s: Seq<char>) -> Seq<char> {
    if color && s.len() > 0 {
        "\x1b["@ + code + "m"@ + s + "\x1b[0m"@
    } else {
        s
    }
}

impl Style {
    /// A style with colours.
    pub fn colored(verbose: bool) -> (r: Style)
        ensures
            r == (Style { verbose, color: true }),
    {
        Style { verbose, color: true }
    }

    /// A style without colours.
    pub fn plain(verbose: bool) -> (r: Style)
        ensures
            r == (Style { verbose, color: false }),
    {
        Style { verbose, color: false }
    }

    /// `s` in the colour or weight `code`.
    pub fn paint(&self, code: &str, s: &str) -> (r: String)
        ensures
            r@ == painted(self.color, code@, s@),
    {
        if self.color && !s.is_empty() {
            cat5("\x1b[", code, "m", s, "\x1b[0m")
        } else {
            s.to_owned()
        }
    }

    /// A text, bold where there are colours.
    pub open spec fn spec_bold(self, s: Seq<char>) -> Seq<char> {
        painted(self.color, "1"@, s)
    }

    /// `s` in bold.
    pub fn bold(&self, s: &str) -> (r: String)
        ensures
            r@ == self.spec_bold(s@),
    {
        self.paint("1", s)
    }

    /// A text, dim where there are colours.
    pub open spec fn spec_dim(self, s: Seq<char>) -> Seq<char> {
        painted(self.color, "2"@, s)
    }

    /// `s` dimmed.
    pub fn dim(&self, s: &str) -> (r: String)
        ensures
            r@ == self.spec_dim(s@),
    {
        self.paint("2", s)
    }

    /// A text, cyan where there are colours.
    pub open spec fn spec_cyan(self, s: Seq<char>) -> Seq<char> {
        painted(self.color, "36"@, s)
    }

    /// `s` in cyan.
    pub fn cyan(&self, s: &str) -> (r: String)
        ensures
            r@ == self.spec_cyan(s@),
    {
        self.paint("36", s)
    }

    /// A text, yellow where there are colours.
    pub open spec fn spec_yellow(self, s: Seq<char>) -> Seq<char> {
        painted(self.color, "33"@, s)
    }

    /// `s` in yellow.
    pub fn yellow(&self, s: &str) -> (r: String)
        ensures
            r@ == self.spec_yellow(s@),
    {
        self.paint("33", s)
    }

    /// A text, green where there are colours.
    pub open spec fn spec_green(self, s: Seq<char>) -> Seq<char> {
        painted(self.color, "32"@, s)
    }

    /// `s` in green.
    pub fn green(&self, s: &str) -> (r: String)
        ensures
            r@ == self.spec_green(s@),
    {
        self.paint("32", s)
    }

    /// A text, red where there are colours.
    pub open spec fn spec_red(self, s: Seq<char>) -> Seq<char> {
        painted(self.color, "31"@, s)
    }

    /// `s` in red.
    pub fn red(&self, s: &str) -> (r: String)
        ensures
            r@ == self.spec_red(s@),
    {
        self.paint("31", s)
    }

    /// A text, magenta where there are colours.
    pub open spec fn spec_magenta(self, s: Seq<char>) -> Seq<char> {
        painted(self.color, "35"@, s)
    }

    /// `s` in magenta.
    pub fn magenta(&self, s: &str) -> (r: String)
        ensures
            r@ == self.spec_magenta(s@),
    {
        self.paint("35", s)
    }
}

/// Rounding gives the nearest whole number, and the even one of two that are equally near.
pub proof fn law_rounding_is_to_the_nearest(a: nat, d: nat)
    requires
        d > 0,
    ensures
        2 * (half_even(a, d) * d - a) <= d,
        2 * (a - half_even(a, d) * d) <= d,
        2 * (half_even(a, d) * d - a) == d || 2 * (a - half_even(a, d) * d) == d ==> half_even(
            a,
            d,
        ) % 2 == 0,
{
    let q = a / d;
    let r = a % d;
    vstd::arithmetic::div_mod::lemma_fundamental_div_mod(a as int, d as int);
    assert(d * q == q * d) by (nonlinear_arith);
    assert((q + 1) * d == q * d + d) by (nonlinear_arith);
    assert(0 <= r < d) by {
        vstd::arithmetic::div_mod::lemma_mod_bound(a as int, d as int);
    }
}

/// A number of at most 53 binary digits is shown as it is, not as one near it.
pub proof fn law_small_numbers_are_exact(n: nat)
    requires
        n < 0x20_0000_0000_0000,
    ensures
        as_double(n) == n,
{
    assert(double_step(n) == 1);
    assert(n % 1 == 0);
    assert(half_even(n, 1) == n);
}

/// A cell that is padded takes the width of its column, or its own where that is greater,
/// and starts with what is in it.
pub proof fn law_padding_fills_the_column(s: Seq<char>, target: nat)
    requires
        complete(s),
    ensures
        s.is_prefix_of(padded(s, target)),
        width(padded(s, target)) == (if width(s) >= target {
            width(s)
        } else {
            target
        }),
{
    if width(s) < target {
        let n = (target - width(s)) as nat;
        lemma_width_spaces(n);
        lemma_width_add(s, repeated(' ', n));
    }
}

/// A column is as wide as its widest cell, and no wider.
pub proof fn law_a_column_is_as_wide_as_its_widest_cell(rows: Seq<Seq<Seq<char>>>, c: int)
    requires
        0 <= c,
    ensures
        forall|r: int|
            0 <= r < rows.len() && c < (#[trigger] rows[r]).len() ==> width(rows[r][c])
                <= column_width(rows, c),
        column_width(rows, c) > 0 ==> exists|r: int|
            0 <= r < rows.len() && c < (#[trigger] rows[r]).len() && width(rows[r][c])
                == column_width(rows, c),
    decreases rows.len(),
{
    if rows.len() > 0 {
        let rest = rows.drop_last();
        let n = rows.len() - 1;
        law_a_column_is_as_wide_as_its_widest_cell(rest, c);
        assert forall|r: int| 0 <= r < rows.len() && c < (#[trigger] rows[r]).len() implies width(
            rows[r][c],
        ) <= column_width(rows, c) by {
            if r < n {
                assert(rest[r] == rows[r]);
            }
        }
        if c < rows[n].len() && width(rows[n][c]) > column_width(rest, c) {
            assert(width(rows[n][c]) == column_width(rows, c));
        } else if column_width(rest, c) > 0 {
            let r = choose|r: int|
                0 <= r < rest.len() && c < (#[trigger] rest[r]).len() && width(rest[r][c])
                    == column_width(rest, c);
            assert(rows[r] == rest[r]);
        }
    }
}

/// A number of bytes is shown in the greatest unit that it reaches: below 1024 as it is, then
/// in KiB and MiB to a tenth, and then in GiB to a hundredth, and what is shown is as near to
/// the number as that allows.
pub proof fn law_bytes_are_shown_in_the_greatest_unit(n: nat)
    ensures
        n < 1024 ==> bytes_shown(n) == decimal_text(n) + " B"@,
        1024 <= n < 1048576 ==> exists|h: nat|
            {
                &&& bytes_shown(n) == #[trigger] decimal_text(h / 10) + "."@ + seq![digit(h % 10)]
                    + " KiB"@
                &&& 2 * (h * 1024 - 10 * n) <= 1024
                &&& 2 * (10 * n - h * 1024) <= 1024
            },
        1048576 <= n < 1073741824 ==> exists|h: nat|
            {
                &&& bytes_shown(n) == #[trigger] decimal_text(h / 10) + "."@ + seq![digit(h % 10)]
                    + " MiB"@
                &&& 2 * (h * 1048576 - 10 * n) <= 1048576
                &&& 2 * (10 * n - h * 1048576) <= 1048576
            },
        1073741824 <= n < 0x20_0000_0000_0000 ==> exists|h: nat|
            {
                &&& bytes_shown(n) == #[trigger] decimal_text(h / 100) + "."@ + seq![
                    digit(h / 10 % 10),
                    digit(h % 10),
                ] + " GiB"@
                &&& 2 * (h * 1073741824 - 100 * n) <= 1073741824
                &&& 2 * (100 * n - h * 1073741824) <= 1073741824
            },
{
    if 1024 <= n < 1048576 {
        law_rounding_is_to_the_nearest(n * 10, 1024);
        let h = half_even(n * 10, 1024);
        assert(bytes_shown(n) == decimal_text(h / 10) + "."@ + seq![digit(h % 10)] + " KiB"@);
    } else if 1048576 <= n < 1073741824 {
        law_rounding_is_to_the_nearest(n * 10, 1048576);
        let h = half_even(n * 10, 1048576);
        assert(bytes_shown(n) == decimal_text(h / 10) + "."@ + seq![digit(h % 10)] + " MiB"@);
    } else if 1073741824 <= n < 0x20_0000_0000_0000 {
        law_small_numbers_are_exact(n);
        law_rounding_is_to_the_nearest(n * 100, 1073741824);
        let h = half_even(n * 100, 1073741824);
        assert(bytes_shown(n) == decimal_text(h / 100) + "."@ + seq![
            digit(h / 10 % 10),
            digit(h % 10),
        ] + " GiB"@);
    }
}

/// A user is shown by their key, in full or by its first and last seven characters, and
/// behind the alias where there is one.
pub proof fn law_a_user_is_shown_by_their_key(did: Did, alias: Seq<char>, full: bool)
    ensures
        did_shown(did, Some(alias), full) == alias + "@"@ + did_shown(did, None, full),
        did_shown(did, None, true) == public_key_text(did.key.hi, did.key.lo),
        public_key_text(did.key.hi, did.key.lo).len() >= 7 ==> {
            let key = public_key_text(did.key.hi, did.key.lo);
            let short = did_shown(did, None, false);
            &&& short.len() == 15
            &&& short.take(7) == key.take(7)
            &&& short.skip(8) == key.skip(key.len() - 7)
        },
{
    reveal_strlit("…");
    let key = public_key_text(did.key.hi, did.key.lo);
    if key.len() >= 7 {
        let short = did_shown(did, None, false);
        assert(short.take(7) =~= key.take(7));
        assert(short.skip(8) =~= key.skip(key.len() - 7));
    }
}

/// Without colours a text is shown as it is, and with them it stands between the code and
/// the reset; an empty text stays empty.
pub proof fn law_colours_surround_the_text(color: bool, code: Seq<char>, s: Seq<char>)
    ensures
        painted(false, code, s) == s,
        s.len() == 0 ==> painted(color, code, s) == s,
        s.len() > 0 ==> painted(true, code, s) == "\x1b["@ + code + "m"@ + s + "\x1b[0m"@,
{
}

/// Bytes that arrive move the position, and a provider that fails shows nothing: the next one
/// is tried.
pub proof fn law_progress_shows_position_and_provider(p: FetchProgress)
    ensures
        p matches FetchProgress::Downloading { offset, .. } ==> progress_spec(p) == Some(
            ProgressView::Position(offset),
        ),
        p is LocationFailed <==> progress_spec(p) is None,
        p matches FetchProgress::TryingLocation { endpoint_id } ==> progress_spec(p) == Some(
            ProgressView::Message("trying "@ + endpoint_id.url_text()),
        ),
{
}

} // verus!
