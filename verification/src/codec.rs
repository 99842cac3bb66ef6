//! The persisted form of a note: one JSON document per note.
//!
//! The document layout is fixed — the five fields `id`, `title`,
//! `content`, `created_at`, `updated_at` in that order, two-space
//! indentation, string values with `\"`, `\\` and `\u00XX` escapes,
//! timestamps rendered as `YYYY-MM-DDTHH:MM:SS.NNNNNNNNN` — so the
//! whole format is a function [`encode_spec`] of the note's value, and
//! [`decode_note`] is proved to accept exactly the documents that
//! [`encode_note`] produces: parsing a document yields `Some(n)` if and
//! only if the document is the encoding of `n`.

use vstd::prelude::*;
use vstd::string::*;

use crate::note::{Note, NoteView};
use crate::timestamp::Timestamp;

verus! {

// ---------------------------------------------------------------------
// Decimal digits
// ---------------------------------------------------------------------
/// The decimal digit character for `d` (digits 10..=15 never arise).
pub open spec fn digit_char(d: u32) -> char {
    if d == 0 {
        '0'
    } else if d == 1 {
        '1'
    } else if d == 2 {
        '2'
    } else if d == 3 {
        '3'
    } else if d == 4 {
        '4'
    } else if d == 5 {
        '5'
    } else if d == 6 {
        '6'
    } else if d == 7 {
        '7'
    } else if d == 8 {
        '8'
    } else {
        '9'
    }
}

/// The value of a decimal digit character, `None` for any other character.
pub open spec fn spec_digit_val(c: char) -> Option<u32> {
    if c == '0' {
        Some(0)
    } else if c == '1' {
        Some(1)
    } else if c == '2' {
        Some(2)
    } else if c == '3' {
        Some(3)
    } else if c == '4' {
        Some(4)
    } else if c == '5' {
        Some(5)
    } else if c == '6' {
        Some(6)
    } else if c == '7' {
        Some(7)
    } else if c == '8' {
        Some(8)
    } else if c == '9' {
        Some(9)
    } else {
        None
    }
}

fn digit_char_exec(d: u32) -> (c: char)
    requires
        d < 10,
    ensures
        c == digit_char(d),
{
    if d == 0 {
        '0'
    } else if d == 1 {
        '1'
    } else if d == 2 {
        '2'
    } else if d == 3 {
        '3'
    } else if d == 4 {
        '4'
    } else if d == 5 {
        '5'
    } else if d == 6 {
        '6'
    } else if d == 7 {
        '7'
    } else if d == 8 {
        '8'
    } else {
        '9'
    }
}

fn digit_val_exec(c: char) -> (r: Option<u32>)
    ensures
        r == spec_digit_val(c),
{
    if c == '0' {
        Some(0)
    } else if c == '1' {
        Some(1)
    } else if c == '2' {
        Some(2)
    } else if c == '3' {
        Some(3)
    } else if c == '4' {
        Some(4)
    } else if c == '5' {
        Some(5)
    } else if c == '6' {
        Some(6)
    } else if c == '7' {
        Some(7)
    } else if c == '8' {
        Some(8)
    } else if c == '9' {
        Some(9)
    } else {
        None
    }
}

pub proof fn lemma_digit_roundtrip(d: u32)
    requires
        d < 10,
    ensures
        spec_digit_val(digit_char(d)) == Some(d),
{
}

// ---------------------------------------------------------------------
// Fixed-width decimal renderings
// ---------------------------------------------------------------------
/// Ten to the `w`.
pub open spec fn pow10(w: nat) -> nat
    decreases w,
{
    if w == 0 {
        1
    } else {
        10 * pow10((w - 1) as nat)
    }
}

pub proof fn lemma_pow10_table()
    ensures
        pow10(0) == 1,
        pow10(1) == 10,
        pow10(2) == 100,
        pow10(3) == 1000,
        pow10(4) == 10000,
        pow10(9) == 1_000_000_000,
{
    reveal_with_fuel(pow10, 10);
}

/// `n` rendered as exactly `width` decimal digits, zero-padded
/// (meaningful for `n < pow10(width)`).
pub open spec fn digits(n: u32, width: nat) -> Seq<char>
    decreases width,
{
    if width == 0 {
        Seq::empty()
    } else {
        digits(n / 10, (width - 1) as nat).push(digit_char(n % 10))
    }
}

pub proof fn lemma_digits_len(n: u32, width: nat)
    ensures
        digits(n, width).len() == width,
    decreases width,
{
    if width > 0 {
        lemma_digits_len(n / 10, (width - 1) as nat);
    }
}

fn push_digits(out: &mut Vec<char>, n: u32, width: usize)
    requires
        n < pow10(width as nat),
        width <= 9,
    ensures
        final(out)@ == old(out)@ + digits(n, width as nat),
    decreases width,
{
    if width == 0 {
        assert(out@ =~= old(out)@ + digits(n, 0));
    } else {
        assert(n / 10 < pow10((width - 1) as nat));
        push_digits(out, n / 10, width - 1);
        out.push(digit_char_exec(n % 10));
        assert(out@ =~= old(out)@ + digits(n, width as nat));
    }
}

// ---------------------------------------------------------------------
// Timestamp rendering
// ---------------------------------------------------------------------
/// A timestamp rendered as `YYYY-MM-DDTHH:MM:SS.NNNNNNNNN`.
pub open spec fn ts_chars(t: Timestamp) -> Seq<char> {
    digits(t.year, 4) + (seq!['-'] + (digits(t.month, 2) + (seq!['-'] + (digits(t.day, 2) + (seq![
        'T',
    ] + (digits(t.hour, 2) + (seq![':'] + (digits(t.minute, 2) + (seq![':'] + (digits(
        t.second,
        2,
    ) + (seq!['.'] + digits(t.nanos, 9))))))))))))
}

/// A timestamp rendered as `YYYY-MM-DD HH:MM`, for display.
pub open spec fn minute_chars(t: Timestamp) -> Seq<char> {
    digits(t.year, 4) + seq!['-'] + digits(t.month, 2) + seq!['-'] + digits(t.day, 2) + seq![' ']
        + digits(t.hour, 2) + seq![':'] + digits(t.minute, 2)
}

fn push_ts(out: &mut Vec<char>, t: &Timestamp)
    requires
        t.wf(),
    ensures
        final(out)@ == old(out)@ + ts_chars(*t),
{
    proof {
        lemma_pow10_table();
    }
    push_digits(out, t.year, 4);
    out.push('-');
    push_digits(out, t.month, 2);
    out.push('-');
    push_digits(out, t.day, 2);
    out.push('T');
    push_digits(out, t.hour, 2);
    out.push(':');
    push_digits(out, t.minute, 2);
    out.push(':');
    push_digits(out, t.second, 2);
    out.push('.');
    push_digits(out, t.nanos, 9);
    assert(out@ =~= old(out)@ + ts_chars(*t));
}

/// The display rendering `YYYY-MM-DD HH:MM` of a timestamp.
pub fn render_minute_time(t: &Timestamp) -> (r: String)
    requires
        t.wf(),
    ensures
        r@ == minute_chars(*t),
{
    proof {
        lemma_pow10_table();
    }
    let mut out: Vec<char> = Vec::new();
    push_digits(&mut out, t.year, 4);
    out.push('-');
    push_digits(&mut out, t.month, 2);
    out.push('-');
    push_digits(&mut out, t.day, 2);
    out.push(' ');
    push_digits(&mut out, t.hour, 2);
    out.push(':');
    push_digits(&mut out, t.minute, 2);
    assert(out@ =~= minute_chars(*t));
    chars_to_string(&out)
}

// ---------------------------------------------------------------------
// String escaping
// ---------------------------------------------------------------------
/// The lowercase hexadecimal digit character for `d < 16`.
pub open spec fn hex_char(d: u32) -> char {
    if d < 10 {
        digit_char(d)
    } else if d == 10 {
        'a'
    } else if d == 11 {
        'b'
    } else if d == 12 {
        'c'
    } else if d == 13 {
        'd'
    } else if d == 14 {
        'e'
    } else {
        'f'
    }
}

/// The value of a lowercase hexadecimal digit character.
pub open spec fn spec_hex_val(c: char) -> Option<u32> {
    if c == 'a' {
        Some(10)
    } else if c == 'b' {
        Some(11)
    } else if c == 'c' {
        Some(12)
    } else if c == 'd' {
        Some(13)
    } else if c == 'e' {
        Some(14)
    } else if c == 'f' {
        Some(15)
    } else {
        spec_digit_val(c)
    }
}

fn hex_char_exec(d: u32) -> (c: char)
    requires
        d < 16,
    ensures
        c == hex_char(d),
{
    if d < 10 {
        digit_char_exec(d)
    } else if d == 10 {
        'a'
    } else if d == 11 {
        'b'
    } else if d == 12 {
        'c'
    } else if d == 13 {
        'd'
    } else if d == 14 {
        'e'
    } else {
        'f'
    }
}

fn hex_val_exec(c: char) -> (r: Option<u32>)
    ensures
        r == spec_hex_val(c),
{
    if c == 'a' {
        Some(10)
    } else if c == 'b' {
        Some(11)
    } else if c == 'c' {
        Some(12)
    } else if c == 'd' {
        Some(13)
    } else if c == 'e' {
        Some(14)
    } else if c == 'f' {
        Some(15)
    } else {
        digit_val_exec(c)
    }
}

pub proof fn lemma_hex_roundtrip(d: u32)
    requires
        d < 16,
    ensures
        spec_hex_val(hex_char(d)) == Some(d),
{
}

/// The control character with code `x < 32`.
fn ctrl_char_exec(x: u32) -> (c: char)
    requires
        x < 32,
    ensures
        c as u32 == x,
{
    if x == 0 {
        '\u{00}'
    } else if x == 1 {
        '\u{01}'
    } else if x == 2 {
        '\u{02}'
    } else if x == 3 {
        '\u{03}'
    } else if x == 4 {
        '\u{04}'
    } else if x == 5 {
        '\u{05}'
    } else if x == 6 {
        '\u{06}'
    } else if x == 7 {
        '\u{07}'
    } else if x == 8 {
        '\u{08}'
    } else if x == 9 {
        '\u{09}'
    } else if x == 10 {
        '\u{0a}'
    } else if x == 11 {
        '\u{0b}'
    } else if x == 12 {
        '\u{0c}'
    } else if x == 13 {
        '\u{0d}'
    } else if x == 14 {
        '\u{0e}'
    } else if x == 15 {
        '\u{0f}'
    } else if x == 16 {
        '\u{10}'
    } else if x == 17 {
        '\u{11}'
    } else if x == 18 {
        '\u{12}'
    } else if x == 19 {
        '\u{13}'
    } else if x == 20 {
        '\u{14}'
    } else if x == 21 {
        '\u{15}'
    } else if x == 22 {
        '\u{16}'
    } else if x == 23 {
        '\u{17}'
    } else if x == 24 {
        '\u{18}'
    } else if x == 25 {
        '\u{19}'
    } else if x == 26 {
        '\u{1a}'
    } else if x == 27 {
        '\u{1b}'
    } else if x == 28 {
        '\u{1c}'
    } else if x == 29 {
        '\u{1d}'
    } else if x == 30 {
        '\u{1e}'
    } else {
        '\u{1f}'
    }
}

/// A character that is rendered as itself inside a quoted string.
pub open spec fn plain_char(c: char) -> bool {
    c as u32 >= 32 && c != '"' && c != '\\'
}

pub open spec fn all_plain(s: Seq<char>) -> bool {
    forall|i: int| 0 <= i < s.len() ==> plain_char(#[trigger] s[i])
}

/// The escape sequence for one character inside a quoted string.
pub open spec fn esc_char(c: char) -> Seq<char> {
    if c == '"' {
        seq!['\\', '"']
    } else if c == '\\' {
        seq!['\\', '\\']
    } else if (c as u32) < 32 {
        seq!['\\', 'u', '0', '0', hex_char((c as u32) / 16), hex_char((c as u32) % 16)]
    } else {
        seq![c]
    }
}

/// A whole character sequence escaped for a quoted string.
pub open spec fn esc(s: Seq<char>) -> Seq<char>
    decreases s.len(),
{
    if s.len() == 0 {
        Seq::empty()
    } else {
        esc_char(s[0]) + esc(s.skip(1))
    }
}

pub proof fn lemma_esc_char_props(c: char)
    ensures
        1 <= esc_char(c).len() <= 6,
        esc_char(c)[0] != '"',
        (esc_char(c)[0] == '\\') == !plain_char(c),
        plain_char(c) ==> esc_char(c) == seq![c],
{
}

pub proof fn lemma_esc_push(s: Seq<char>, c: char)
    ensures
        esc(s.push(c)) == esc(s) + esc_char(c),
    decreases s.len(),
{
    if s.len() == 0 {
        assert(s.push(c).skip(1) =~= Seq::<char>::empty());
        assert(s.push(c)[0] == c);
        assert(esc(s.push(c)) == esc_char(c) + esc(Seq::<char>::empty()));
        assert(esc(Seq::<char>::empty()) == Seq::<char>::empty());
        assert(esc(s.push(c)) =~= esc(s) + esc_char(c));
    } else {
        assert(s.push(c).skip(1) =~= s.skip(1).push(c));
        lemma_esc_push(s.skip(1), c);
        assert(esc(s.push(c)) == esc_char(s[0]) + esc(s.skip(1).push(c)));
        assert(esc(s.push(c)) =~= esc(s) + esc_char(c));
    }
}

pub proof fn lemma_esc_plain(s: Seq<char>)
    requires
        all_plain(s),
    ensures
        esc(s) == s,
    decreases s.len(),
{
    if s.len() == 0 {
        assert(esc(s) =~= s);
    } else {
        assert(plain_char(s[0]));
        lemma_esc_plain(s.skip(1));
        assert(esc(s) =~= s);
    }
}

/// Appends `esc(s@)` to `out`.
fn push_escaped(out: &mut Vec<char>, s: &str)
    ensures
        final(out)@ == old(out)@ + esc(s@),
{
    let n = s.unicode_len();
    let mut i: usize = 0;
    while i < n
        invariant
            n == s@.len(),
            i <= n,
            out@ == old(out)@ + esc(s@.subrange(0, i as int)),
        decreases n - i,
    {
        let ghost prefix = s@.subrange(0, i as int);
        let c = s.get_char(i);
        if c == '"' {
            out.push('\\');
            out.push('"');
        } else if c == '\\' {
            out.push('\\');
            out.push('\\');
        } else if (c as u32) < 32 {
            let x = c as u32;
            out.push('\\');
            out.push('u');
            out.push('0');
            out.push('0');
            out.push(hex_char_exec(x / 16));
            out.push(hex_char_exec(x % 16));
        } else {
            out.push(c);
        }
        i = i + 1;
        proof {
            lemma_esc_push(prefix, c);
            assert(s@.subrange(0, i as int) =~= prefix.push(c));
            assert(out@ =~= old(out)@ + esc(s@.subrange(0, i as int)));
        }
    }
    assert(s@.subrange(0, n as int) =~= s@);
}

// ---------------------------------------------------------------------
// Parsing quoted strings
// ---------------------------------------------------------------------
/// True when `p` is an initial segment of `s`.
pub open spec fn prefix_of(p: Seq<char>, s: Seq<char>) -> bool {
    p.len() <= s.len() && s.subrange(0, p.len() as int) == p
}

/// The escaped form of `w` followed by the closing quote.
pub open spec fn quoted(w: Seq<char>) -> Seq<char> {
    esc(w) + seq!['"']
}

proof fn lemma_skip_skip(s: Seq<char>, a: int, b: int)
    requires
        0 <= a,
        0 <= b,
        a + b <= s.len(),
    ensures
        s.skip(a).skip(b) == s.skip(a + b),
{
    assert(s.skip(a).skip(b) =~= s.skip(a + b));
}

/// Peeling a known head off a prefix: if `p1 + p2` starts `s`, then
/// `p1` starts `s` and `p2` starts the rest.
proof fn lemma_prefix_peel(p1: Seq<char>, p2: Seq<char>, s: Seq<char>)
    requires
        prefix_of(p1 + p2, s),
    ensures
        prefix_of(p1, s),
        prefix_of(p2, s.skip(p1.len() as int)),
        s.subrange(0, p1.len() as int) == p1,
{
    let l1 = p1.len() as int;
    let l2 = p2.len() as int;
    assert forall|m: int| 0 <= m < l1 + l2 implies s[m] == (p1 + p2)[m] by {
        assert(s.subrange(0, l1 + l2)[m] == s[m]);
    }
    assert(s.subrange(0, l1) =~= p1);
    assert(s.skip(l1).subrange(0, l2) =~= p2) by {
        assert forall|k: int| 0 <= k < l2 implies s.skip(l1).subrange(0, l2)[k] == p2[k] by {
            assert(s.skip(l1).subrange(0, l2)[k] == s.skip(l1)[k]);
            assert(s.skip(l1)[k] == s[l1 + k]);
            assert(s[l1 + k] == (p1 + p2)[l1 + k]);
        }
    }
}

proof fn lemma_quoted_unfold(w: Seq<char>)
    requires
        w.len() > 0,
    ensures
        quoted(w) == esc_char(w[0]) + quoted(w.skip(1)),
{
    assert(quoted(w) =~= esc_char(w[0]) + quoted(w.skip(1)));
}

proof fn lemma_cons_self(w: Seq<char>)
    requires
        w.len() > 0,
    ensures
        w == seq![w[0]] + w.skip(1),
{
    assert(w =~= seq![w[0]] + w.skip(1));
}

/// Characters with the same code point are the same character.
proof fn lemma_char_code(c1: char, c2: char)
    requires
        c1 as u32 == c2 as u32,
    ensures
        c1 == c2,
{
}

/// From a candidate value `w` whose quoted form starts the suffix (and
/// the suffix does not open with the closing quote): `w` is non-empty,
/// the escape of its first character lies at the start of the suffix,
/// and the quoted rest of `w` starts right after it.
proof fn lemma_candidate_step(suffix: Seq<char>, w: Seq<char>)
    requires
        prefix_of(quoted(w), suffix),
        suffix.len() == 0 || suffix[0] != '"',
    ensures
        w.len() > 0,
        esc_char(w[0]).len() + 1 <= suffix.len(),
        forall|k: int| 0 <= k < esc_char(w[0]).len() ==> suffix[k] == esc_char(w[0])[k],
        prefix_of(quoted(w.skip(1)), suffix.skip(esc_char(w[0]).len() as int)),
{
    assert(quoted(w).len() == esc(w).len() + 1);
    if suffix.len() == 0 {
        assert(false);
    }
    if w.len() == 0 {
        assert(quoted(w) =~= seq!['"']);
        assert(suffix.subrange(0, 1) == quoted(w));
        assert(suffix.subrange(0, 1)[0] == suffix[0]);
        assert(false);
    }
    lemma_quoted_unfold(w);
    lemma_prefix_peel(esc_char(w[0]), quoted(w.skip(1)), suffix);
    assert forall|k: int| 0 <= k < esc_char(w[0]).len() implies suffix[k] == esc_char(w[0])[k] by {
        assert(suffix.subrange(0, esc_char(w[0]).len() as int)[k] == suffix[k]);
    }
    assert(quoted(w.skip(1)).len() >= 1);
}

/// Gluing a span back together: a fixed head at `i..m` followed by a
/// known subrange at `m..j` makes the whole subrange at `i..j`.
proof fn lemma_span_compose(s: Seq<char>, i: int, m: int, j: int, head: Seq<char>, tail: Seq<char>)
    requires
        0 <= i <= m <= j <= s.len(),
        m - i == head.len(),
        forall|k: int| 0 <= k < head.len() ==> s[i + k] == head[k],
        s.subrange(m, j) == tail,
    ensures
        s.subrange(i, j) == head + tail,
{
    assert forall|k: int| 0 <= k < j - i implies s.subrange(i, j)[k] == (head + tail)[k] by {
        if k < head.len() {
            assert(s[i + k] == head[k]);
        } else {
            assert(s.subrange(m, j)[k - head.len()] == s[m + (k - head.len())]);
        }
    }
    assert(s.subrange(i, j) =~= head + tail);
}

proof fn lemma_quoted_cons(c: char, tail: Seq<char>)
    ensures
        quoted(seq![c] + tail) == esc_char(c) + quoted(tail),
        esc(seq![c] + tail) == esc_char(c) + esc(tail),
{
    assert((seq![c] + tail)[0] == c);
    assert((seq![c] + tail).skip(1) =~= tail);
    assert(esc(seq![c] + tail) == esc_char(c) + esc(tail));
    assert(quoted(seq![c] + tail) =~= esc_char(c) + quoted(tail));
}

/// Parses one quoted-string body starting at `i`: consumes characters
/// up to and including the closing quote, undoing the escapes.  The
/// contract is exact: the parse succeeds with value `w` if and only if
/// the input continues with the quoted form of `w`.
#[verifier::rlimit(50)]
fn parse_string(input: &Vec<char>, i: usize) -> (r: Option<(Vec<char>, usize)>)
    requires
        i <= input@.len(),
    ensures
        r matches Some((v, j)) ==> {
            &&& i < j <= input@.len()
            &&& j == i + esc(v@).len() + 1
            &&& input@.subrange(i as int, j as int) == quoted(v@)
        },
        forall|w: Seq<char>|
            prefix_of(#[trigger] quoted(w), input@.skip(i as int)) ==> (r matches Some((v, j))
                && v@ == w),
    decreases input@.len() - i,
{
    let ghost suffix = input@.skip(i as int);
    let n = input.len();
    if i == n {
        proof {
            assert forall|w: Seq<char>| prefix_of(#[trigger] quoted(w), suffix) implies false by {
                assert(quoted(w).len() >= 1);
            }
        }
        return None;
    }
    let c = input[i];
    assert(suffix[0] == c);
    if c == '"' {
        let v: Vec<char> = Vec::new();
        proof {
            assert(input@.subrange(i as int, i as int + 1) =~= quoted(Seq::<char>::empty()));
            assert forall|w: Seq<char>|
                prefix_of(#[trigger] quoted(w), suffix) implies w == Seq::<char>::empty() by {
                if w.len() > 0 {
                    lemma_esc_char_props(w[0]);
                    lemma_quoted_unfold(w);
                    assert(suffix.subrange(0, quoted(w).len() as int)[0] == suffix[0]);
                    assert(quoted(w)[0] == esc_char(w[0])[0]);
                }
                assert(w =~= Seq::<char>::empty());
            }
        }
        return Some((v, i + 1));
    }
    if c == '\\' {
        if n - i < 2 {
            proof {
                assert forall|w: Seq<char>|
                    prefix_of(#[trigger] quoted(w), suffix) implies false by {
                    lemma_candidate_step(suffix, w);
                    lemma_esc_char_props(w[0]);
                    assert(esc_char(w[0])[0] == suffix[0]);
                }
            }
            return None;
        }
        let d = input[i + 1];
        assert(suffix[1] == d);
        if d == '"' || d == '\\' {
            let rec = parse_string(input, i + 2);
            proof {
                lemma_skip_skip(input@, i as int, 2);
                assert forall|w: Seq<char>|
                    prefix_of(#[trigger] quoted(w), suffix) implies w.len() > 0 && w[0] == d
                    && prefix_of(quoted(w.skip(1)), input@.skip(i + 2)) by {
                    lemma_candidate_step(suffix, w);
                    lemma_esc_char_props(w[0]);
                    assert(esc_char(w[0])[0] == suffix[0]);
                    assert(esc_char(w[0])[1] == suffix[1]);
                    assert(esc_char(w[0]).len() == 2);
                }
            }
            match rec {
                Some((mut v, j)) => {
                    let ghost tail = v@;
                    v.insert(0, d);
                    proof {
                        assert(v@ =~= seq![d] + tail);
                        lemma_quoted_cons(d, tail);
                        assert(esc_char(d) == seq!['\\', d]);
                        assert forall|k: int| 0 <= k < 2 implies input@[i + k] == esc_char(d)[k] by {
                        }
                        lemma_span_compose(
                            input@,
                            i as int,
                            i + 2,
                            j as int,
                            esc_char(d),
                            quoted(tail),
                        );
                        assert forall|w: Seq<char>|
                            prefix_of(#[trigger] quoted(w), suffix) implies v@ == w by {
                            assert(tail == w.skip(1));
                            lemma_cons_self(w);
                        }
                    }
                    return Some((v, j));
                },
                None => {
                    return None;
                },
            }
        } else if d == 'u' {
            // A control character escape: backslash, 'u', two zeros and
            // two lowercase hex digits whose value is below 32.
            proof {
                assert forall|w: Seq<char>|
                    prefix_of(#[trigger] quoted(w), suffix) implies w.len() > 0 && (w[0] as u32)
                    < 32 && esc_char(w[0]).len() == 6 by {
                    lemma_candidate_step(suffix, w);
                    lemma_esc_char_props(w[0]);
                    assert(esc_char(w[0])[0] == suffix[0]);
                    assert(esc_char(w[0])[1] == suffix[1]);
                }
            }
            if n - i < 6 {
                proof {
                    assert forall|w: Seq<char>|
                        prefix_of(#[trigger] quoted(w), suffix) implies false by {
                        lemma_candidate_step(suffix, w);
                    }
                }
                return None;
            }
            proof {
                assert forall|w: Seq<char>|
                    prefix_of(#[trigger] quoted(w), suffix) implies suffix[2] == '0' && suffix[3]
                    == '0' && suffix[4] == hex_char((w[0] as u32) / 16) && suffix[5] == hex_char(
                    (w[0] as u32) % 16,
                ) && prefix_of(quoted(w.skip(1)), input@.skip(i + 6)) by {
                    lemma_candidate_step(suffix, w);
                    lemma_skip_skip(input@, i as int, 6);
                }
            }
            let z1 = input[i + 2];
            let z2 = input[i + 3];
            if !(z1 == '0' && z2 == '0') {
                return None;
            }
            let h1 = hex_val_exec(input[i + 4]);
            let h2 = hex_val_exec(input[i + 5]);
            let (a, b) = match (h1, h2) {
                (Some(a), Some(b)) => (a, b),
                _ => {
                    proof {
                        assert forall|w: Seq<char>|
                            prefix_of(#[trigger] quoted(w), suffix) implies false by {
                            lemma_hex_roundtrip((w[0] as u32) / 16);
                            lemma_hex_roundtrip((w[0] as u32) % 16);
                        }
                    }
                    return None;
                },
            };
            if a >= 2 {
                proof {
                    assert forall|w: Seq<char>|
                        prefix_of(#[trigger] quoted(w), suffix) implies false by {
                        lemma_hex_roundtrip((w[0] as u32) / 16);
                    }
                }
                return None;
            }
            let x = a * 16 + b;
            let c2 = ctrl_char_exec(x);
            let rec = parse_string(input, i + 6);
            proof {
                lemma_hex_roundtrip(a);
                lemma_hex_roundtrip(b);
                assert((c2 as u32) / 16 == a && (c2 as u32) % 16 == b);
                assert(esc_char(c2) =~= seq!['\\', 'u', '0', '0', hex_char(a), hex_char(b)]);
                lemma_skip_skip(input@, i as int, 6);
                assert forall|w: Seq<char>|
                    prefix_of(#[trigger] quoted(w), suffix) implies w.len() > 0 && w[0] == c2
                    && prefix_of(quoted(w.skip(1)), input@.skip(i + 6)) by {
                    lemma_candidate_step(suffix, w);
                    lemma_esc_char_props(w[0]);
                    assert(esc_char(w[0])[0] == suffix[0]);
                    assert(esc_char(w[0])[1] == suffix[1]);
                    assert((w[0] as u32) < 32);
                    lemma_hex_roundtrip((w[0] as u32) / 16);
                    lemma_hex_roundtrip((w[0] as u32) % 16);
                    assert(suffix[4] == hex_char((w[0] as u32) / 16));
                    assert(suffix[5] == hex_char((w[0] as u32) % 16));
                    assert(suffix[4] == input@[i + 4]);
                    assert(suffix[5] == input@[i + 5]);
                    assert(spec_hex_val(input@[i + 4]) == Some((w[0] as u32) / 16));
                    assert(spec_hex_val(input@[i + 5]) == Some((w[0] as u32) % 16));
                    assert((w[0] as u32) / 16 == a && (w[0] as u32) % 16 == b);
                    assert(w[0] as u32 == 16 * ((w[0] as u32) / 16) + ((w[0] as u32) % 16));
                    assert(w[0] as u32 == x);
                    assert(c2 as u32 == x);
                    lemma_char_code(w[0], c2);
                    assert(w[0] == c2);
                    assert(esc_char(w[0]).len() == 6);
                    assert(prefix_of(quoted(w.skip(1)), suffix.skip(6)));
                    assert(suffix.skip(6) == input@.skip(i + 6));
                }
            }
            match rec {
                Some((mut v, j)) => {
                    let ghost tail = v@;
                    v.insert(0, c2);
                    proof {
                        assert(v@ =~= seq![c2] + tail);
                        lemma_quoted_cons(c2, tail);
                        assert forall|k: int| 0 <= k < 6 implies input@[i + k] == esc_char(c2)[k] by {
                            assert(suffix[k] == input@[i + k]);
                        }
                        lemma_span_compose(
                            input@,
                            i as int,
                            i + 6,
                            j as int,
                            esc_char(c2),
                            quoted(tail),
                        );
                        assert forall|w: Seq<char>|
                            prefix_of(#[trigger] quoted(w), suffix) implies v@ == w by {
                            assert(tail == w.skip(1));
                            lemma_cons_self(w);
                        }
                    }
                    return Some((v, j));
                },
                None => {
                    return None;
                },
            }
        } else {
            proof {
                assert forall|w: Seq<char>|
                    prefix_of(#[trigger] quoted(w), suffix) implies false by {
                    lemma_candidate_step(suffix, w);
                    lemma_esc_char_props(w[0]);
                    assert(esc_char(w[0])[0] == suffix[0]);
                    assert(esc_char(w[0])[1] == suffix[1]);
                }
            }
            return None;
        }
    } else if (c as u32) < 32 {
        // A raw control character is never part of an escaped string.
        proof {
            assert forall|w: Seq<char>| prefix_of(#[trigger] quoted(w), suffix) implies false by {
                lemma_candidate_step(suffix, w);
                lemma_esc_char_props(w[0]);
                assert(esc_char(w[0])[0] == suffix[0]);
            }
        }
        return None;
    } else {
        let rec = parse_string(input, i + 1);
        proof {
            lemma_esc_char_props(c);
            lemma_skip_skip(input@, i as int, 1);
            assert forall|w: Seq<char>|
                prefix_of(#[trigger] quoted(w), suffix) implies w.len() > 0 && w[0] == c
                && prefix_of(quoted(w.skip(1)), input@.skip(i + 1)) by {
                lemma_candidate_step(suffix, w);
                lemma_esc_char_props(w[0]);
                assert(esc_char(w[0])[0] == suffix[0]);
            }
        }
        match rec {
            Some((mut v, j)) => {
                let ghost tail = v@;
                v.insert(0, c);
                proof {
                    assert(v@ =~= seq![c] + tail);
                    lemma_quoted_cons(c, tail);
                    assert(esc_char(c) == seq![c]);
                    assert forall|k: int| 0 <= k < 1 implies input@[i + k] == esc_char(c)[k] by {
                    }
                    lemma_span_compose(
                        input@,
                        i as int,
                        i + 1,
                        j as int,
                        esc_char(c),
                        quoted(tail),
                    );
                    assert forall|w: Seq<char>|
                        prefix_of(#[trigger] quoted(w), suffix) implies v@ == w by {
                        assert(tail == w.skip(1));
                        lemma_cons_self(w);
                    }
                }
                return Some((v, j));
            },
            None => {
                return None;
            },
        }
    }
}

// ---------------------------------------------------------------------
// Parsing fixed-width decimals and timestamps
// ---------------------------------------------------------------------
proof fn lemma_digit_inverse(c: char, d: u32)
    requires
        spec_digit_val(c) == Some(d),
    ensures
        digit_char(d) == c,
        d < 10,
{
}

pub proof fn lemma_pow10_mono(a: nat, b: nat)
    requires
        a <= b,
    ensures
        pow10(a) <= pow10(b),
    decreases b,
{
    if a < b {
        lemma_pow10_mono(a, (b - 1) as nat);
    }
}

/// Splitting a sequence known to end in a pushed element.
proof fn lemma_unsnoc(s: Seq<char>, xs: Seq<char>, y: char)
    requires
        s == xs.push(y),
    ensures
        s.len() == xs.len() + 1,
        s.subrange(0, xs.len() as int) == xs,
        s[xs.len() as int] == y,
{
    assert(s.subrange(0, xs.len() as int) =~= xs);
}

/// Parses exactly `width` decimal digits at `i`.  Exact contract:
/// succeeds with `n` if and only if the span holds `digits(n, width)`.
fn parse_digits(v: &Vec<char>, i: usize, width: usize) -> (r: Option<u32>)
    requires
        i + width <= v@.len(),
        width <= 9,
    ensures
        r matches Some(n) ==> n < pow10(width as nat) && v@.subrange(i as int, (i + width) as int)
            == digits(n, width as nat),
        forall|m: u32|
            m < pow10(width as nat) && v@.subrange(i as int, (i + width) as int) == #[trigger] digits(
                m,
                width as nat,
            ) ==> r == Some(m),
    decreases width,
{
    if width == 0 {
        proof {
            assert(v@.subrange(i as int, i as int) =~= digits(0u32, 0));
        }
        return Some(0);
    }
    let vl = v.len();
    let ghost span = v@.subrange(i as int, (i + width) as int);
    proof {
        assert(i + width <= vl);
        assert forall|m: u32|
            m < pow10(width as nat) && span == #[trigger] digits(m, width as nat) implies {
            &&& m / 10 < pow10((width - 1) as nat)
            &&& v@.subrange(i as int, (i + width - 1) as int) == digits(m / 10, (width - 1) as nat)
            &&& spec_digit_val(v@[i + width - 1]) == Some(m % 10)
        } by {
            lemma_digits_len(m / 10, (width - 1) as nat);
            lemma_unsnoc(span, digits(m / 10, (width - 1) as nat), digit_char(m % 10));
            assert(v@.subrange(i as int, (i + width - 1) as int) =~= span.subrange(
                0,
                (width - 1) as int,
            ));
            assert(span[(width - 1) as int] == v@[i + width - 1]);
            lemma_digit_roundtrip(m % 10);
        }
    }
    let rec = parse_digits(v, i, width - 1);
    match rec {
        Some(msb) => {
            let c = v[i + width - 1];
            match digit_val_exec(c) {
                Some(d) => {
                    proof {
                        lemma_pow10_mono((width - 1) as nat, 8);
                        lemma_pow10_table();
                        assert(pow10(8) * 10 == pow10(9)) by {
                            reveal_with_fuel(pow10, 10);
                        }
                        lemma_digit_inverse(c, d);
                    }
                    let n = msb * 10 + d;
                    proof {
                        assert(n < pow10(width as nat));
                        assert(n / 10 == msb && n % 10 == d);
                        lemma_digits_len(msb, (width - 1) as nat);
                        assert(span =~= digits(n, width as nat)) by {
                            assert(digits(n, width as nat) == digits(
                                msb,
                                (width - 1) as nat,
                            ).push(digit_char(d)));
                            assert(v@.subrange(i as int, (i + width - 1) as int) == digits(
                                msb,
                                (width - 1) as nat,
                            ));
                            assert forall|k: int| 0 <= k < width implies span[k] == digits(
                                n,
                                width as nat,
                            )[k] by {
                                if k < width - 1 {
                                    assert(v@.subrange(i as int, (i + width - 1) as int)[k]
                                        == v@[i + k]);
                                } else {
                                    assert(span[k] == v@[i + width - 1]);
                                }
                            }
                        }
                    }
                    Some(n)
                },
                None => {
                    None
                },
            }
        },
        None => {
            None
        },
    }
}

proof fn lemma_ts_len(t: Timestamp)
    ensures
        ts_chars(t).len() == 29,
{
    lemma_digits_len(t.year, 4);
    lemma_digits_len(t.month, 2);
    lemma_digits_len(t.day, 2);
    lemma_digits_len(t.hour, 2);
    lemma_digits_len(t.minute, 2);
    lemma_digits_len(t.second, 2);
    lemma_digits_len(t.nanos, 9);
}

/// Where each field of a rendered timestamp lies in the 29 characters.
proof fn lemma_ts_fields(v: Seq<char>, t: Timestamp)
    requires
        v == ts_chars(t),
    ensures
        v.len() == 29,
        v.subrange(0, 4) == digits(t.year, 4),
        v[4] == '-',
        v.subrange(5, 7) == digits(t.month, 2),
        v[7] == '-',
        v.subrange(8, 10) == digits(t.day, 2),
        v[10] == 'T',
        v.subrange(11, 13) == digits(t.hour, 2),
        v[13] == ':',
        v.subrange(14, 16) == digits(t.minute, 2),
        v[16] == ':',
        v.subrange(17, 19) == digits(t.second, 2),
        v[19] == '.',
        v.subrange(20, 29) == digits(t.nanos, 9),
{
    lemma_ts_len(t);
    lemma_digits_len(t.year, 4);
    lemma_digits_len(t.month, 2);
    lemma_digits_len(t.day, 2);
    lemma_digits_len(t.hour, 2);
    lemma_digits_len(t.minute, 2);
    lemma_digits_len(t.second, 2);
    lemma_digits_len(t.nanos, 9);
    assert(v.subrange(0, 4) =~= digits(t.year, 4));
    assert(v.subrange(5, 7) =~= digits(t.month, 2));
    assert(v.subrange(8, 10) =~= digits(t.day, 2));
    assert(v.subrange(11, 13) =~= digits(t.hour, 2));
    assert(v.subrange(14, 16) =~= digits(t.minute, 2));
    assert(v.subrange(17, 19) =~= digits(t.second, 2));
    assert(v.subrange(20, 29) =~= digits(t.nanos, 9));
}

/// The converse: a sequence whose pieces are the rendered fields is the
/// rendering of the whole timestamp.
proof fn lemma_ts_assemble(v: Seq<char>, t: Timestamp)
    requires
        v.len() == 29,
        v.subrange(0, 4) == digits(t.year, 4),
        v[4] == '-',
        v.subrange(5, 7) == digits(t.month, 2),
        v[7] == '-',
        v.subrange(8, 10) == digits(t.day, 2),
        v[10] == 'T',
        v.subrange(11, 13) == digits(t.hour, 2),
        v[13] == ':',
        v.subrange(14, 16) == digits(t.minute, 2),
        v[16] == ':',
        v.subrange(17, 19) == digits(t.second, 2),
        v[19] == '.',
        v.subrange(20, 29) == digits(t.nanos, 9),
    ensures
        v == ts_chars(t),
{
    lemma_ts_len(t);
    lemma_digits_len(t.year, 4);
    lemma_digits_len(t.month, 2);
    lemma_digits_len(t.day, 2);
    lemma_digits_len(t.hour, 2);
    lemma_digits_len(t.minute, 2);
    lemma_digits_len(t.second, 2);
    lemma_digits_len(t.nanos, 9);
    assert forall|k: int| 0 <= k < 4 implies v[k] == digits(t.year, 4)[k] by {
        assert(v.subrange(0, 4)[k] == v[k]);
    }
    assert forall|k: int| 5 <= k < 7 implies v[k] == digits(t.month, 2)[k - 5] by {
        assert(v.subrange(5, 7)[k - 5] == v[k]);
    }
    assert forall|k: int| 8 <= k < 10 implies v[k] == digits(t.day, 2)[k - 8] by {
        assert(v.subrange(8, 10)[k - 8] == v[k]);
    }
    assert forall|k: int| 11 <= k < 13 implies v[k] == digits(t.hour, 2)[k - 11] by {
        assert(v.subrange(11, 13)[k - 11] == v[k]);
    }
    assert forall|k: int| 14 <= k < 16 implies v[k] == digits(t.minute, 2)[k - 14] by {
        assert(v.subrange(14, 16)[k - 14] == v[k]);
    }
    assert forall|k: int| 17 <= k < 19 implies v[k] == digits(t.second, 2)[k - 17] by {
        assert(v.subrange(17, 19)[k - 17] == v[k]);
    }
    assert forall|k: int| 20 <= k < 29 implies v[k] == digits(t.nanos, 9)[k - 20] by {
        assert(v.subrange(20, 29)[k - 20] == v[k]);
    }
    assert(v =~= ts_chars(t));
}

/// Parses a 29-character timestamp rendering.  Exact contract: succeeds
/// with `t` if and only if the input is `ts_chars(t)` for an in-range `t`.
fn parse_ts(v: &Vec<char>) -> (r: Option<Timestamp>)
    ensures
        r matches Some(t) ==> t.wf() && v@ == ts_chars(t),
        forall|t: Timestamp| t.wf() && v@ == #[trigger] ts_chars(t) ==> r == Some(t),
{
    proof {
        lemma_pow10_table();
        assert forall|t: Timestamp| t.wf() && v@ == #[trigger] ts_chars(t) implies {
            &&& v@.len() == 29
            &&& v@.subrange(0, 4) == digits(t.year, 4)
            &&& v@[4] == '-'
            &&& v@.subrange(5, 7) == digits(t.month, 2)
            &&& v@[7] == '-'
            &&& v@.subrange(8, 10) == digits(t.day, 2)
            &&& v@[10] == 'T'
            &&& v@.subrange(11, 13) == digits(t.hour, 2)
            &&& v@[13] == ':'
            &&& v@.subrange(14, 16) == digits(t.minute, 2)
            &&& v@[16] == ':'
            &&& v@.subrange(17, 19) == digits(t.second, 2)
            &&& v@[19] == '.'
            &&& v@.subrange(20, 29) == digits(t.nanos, 9)
        } by {
            lemma_ts_fields(v@, t);
        }
    }
    if v.len() != 29 {
        return None;
    }
    let year = match parse_digits(v, 0, 4) {
        Some(n) => n,
        None => {
            return None;
        },
    };
    if v[4] != '-' {
        return None;
    }
    let month = match parse_digits(v, 5, 2) {
        Some(n) => n,
        None => {
            return None;
        },
    };
    if v[7] != '-' {
        return None;
    }
    let day = match parse_digits(v, 8, 2) {
        Some(n) => n,
        None => {
            return None;
        },
    };
    if v[10] != 'T' {
        return None;
    }
    let hour = match parse_digits(v, 11, 2) {
        Some(n) => n,
        None => {
            return None;
        },
    };
    if v[13] != ':' {
        return None;
    }
    let minute = match parse_digits(v, 14, 2) {
        Some(n) => n,
        None => {
            return None;
        },
    };
    if v[16] != ':' {
        return None;
    }
    let second = match parse_digits(v, 17, 2) {
        Some(n) => n,
        None => {
            return None;
        },
    };
    if v[19] != '.' {
        return None;
    }
    let nanos = match parse_digits(v, 20, 9) {
        Some(n) => n,
        None => {
            return None;
        },
    };
    if !(1 <= month && month <= 12 && 1 <= day && day <= 31 && hour <= 23 && minute <= 59 && second
        <= 59) {
        return None;
    }
    let t0 = Timestamp { year, month, day, hour, minute, second, nanos };
    proof {
        lemma_ts_assemble(v@, t0);
    }
    Some(t0)
}

// ---------------------------------------------------------------------
// The note document
// ---------------------------------------------------------------------
pub open spec fn lit_head() -> Seq<char> {
    "{\n  \"id\": \""@
}

pub open spec fn lit_title() -> Seq<char> {
    ",\n  \"title\": \""@
}

pub open spec fn lit_content() -> Seq<char> {
    ",\n  \"content\": \""@
}

pub open spec fn lit_created() -> Seq<char> {
    ",\n  \"created_at\": \""@
}

pub open spec fn lit_updated() -> Seq<char> {
    ",\n  \"updated_at\": \""@
}

pub open spec fn lit_tail() -> Seq<char> {
    "\n}"@
}

/// A rendered timestamp with its closing quote.
pub open spec fn quoted_ts(t: Timestamp) -> Seq<char> {
    ts_chars(t) + seq!['"']
}

/// The whole JSON document for a note value.
pub open spec fn encode_spec(n: NoteView) -> Seq<char> {
    lit_head() + (quoted(n.id) + (lit_title() + (quoted(n.title) + (lit_content() + (quoted(
        n.content,
    ) + (lit_created() + (quoted_ts(n.created_at) + (lit_updated() + (quoted_ts(n.updated_at)
        + lit_tail())))))))))
}

proof fn lemma_digits_plain(n: u32, w: nat)
    ensures
        all_plain(digits(n, w)),
    decreases w,
{
    if w > 0 {
        lemma_digits_plain(n / 10, (w - 1) as nat);
        lemma_digits_len(n / 10, (w - 1) as nat);
        assert forall|i: int| 0 <= i < digits(n, w).len() implies plain_char(
            #[trigger] digits(n, w)[i],
        ) by {
            if i < w - 1 {
                assert(digits(n, w)[i] == digits(n / 10, (w - 1) as nat)[i]);
            } else {
                assert(digits(n, w)[i] == digit_char(n % 10));
            }
        }
    }
}

/// A rendered timestamp needs no escaping: its quoted form is itself
/// plus the closing quote.
proof fn lemma_ts_plain(t: Timestamp)
    ensures
        all_plain(ts_chars(t)),
        quoted(ts_chars(t)) == quoted_ts(t),
{
    lemma_ts_fields(ts_chars(t), t);
    lemma_digits_plain(t.year, 4);
    lemma_digits_plain(t.month, 2);
    lemma_digits_plain(t.day, 2);
    lemma_digits_plain(t.hour, 2);
    lemma_digits_plain(t.minute, 2);
    lemma_digits_plain(t.second, 2);
    lemma_digits_plain(t.nanos, 9);
    let v = ts_chars(t);
    assert forall|k: int| 0 <= k < v.len() implies plain_char(#[trigger] v[k]) by {
        if 0 <= k < 4 {
            assert(v.subrange(0, 4)[k] == v[k]);
        } else if k == 4 {
        } else if 5 <= k < 7 {
            assert(v.subrange(5, 7)[k - 5] == v[k]);
        } else if k == 7 {
        } else if 8 <= k < 10 {
            assert(v.subrange(8, 10)[k - 8] == v[k]);
        } else if k == 10 {
        } else if 11 <= k < 13 {
            assert(v.subrange(11, 13)[k - 11] == v[k]);
        } else if k == 13 {
        } else if 14 <= k < 16 {
            assert(v.subrange(14, 16)[k - 14] == v[k]);
        } else if k == 16 {
        } else if 17 <= k < 19 {
            assert(v.subrange(17, 19)[k - 17] == v[k]);
        } else if k == 19 {
        } else {
            assert(v.subrange(20, 29)[k - 20] == v[k]);
        }
    }
    lemma_esc_plain(v);
}

/// Appends every character of `s` to `out`.
fn push_lit(out: &mut Vec<char>, s: &str)
    ensures
        final(out)@ == old(out)@ + s@,
{
    let n = s.unicode_len();
    let mut i: usize = 0;
    assert(out@ =~= old(out)@ + s@.subrange(0, 0));
    while i < n
        invariant
            n == s@.len(),
            i <= n,
            out@ == old(out)@ + s@.subrange(0, i as int),
        decreases n - i,
    {
        out.push(s.get_char(i));
        i = i + 1;
        assert(out@ =~= old(out)@ + s@.subrange(0, i as int));
    }
    assert(s@.subrange(0, n as int) =~= s@);
}

/// Renders a note as its JSON document.
#[verifier::rlimit(50)]
pub fn encode_note(note: &Note) -> (r: String)
    requires
        note.wf(),
    ensures
        r@ == encode_spec(note@),
{
    let mut out: Vec<char> = Vec::new();
    push_lit(&mut out, "{\n  \"id\": \"");
    push_escaped(&mut out, note.id.as_str());
    out.push('"');
    push_lit(&mut out, ",\n  \"title\": \"");
    push_escaped(&mut out, note.title.as_str());
    out.push('"');
    push_lit(&mut out, ",\n  \"content\": \"");
    push_escaped(&mut out, note.content.as_str());
    out.push('"');
    push_lit(&mut out, ",\n  \"created_at\": \"");
    push_ts(&mut out, &note.created_at);
    out.push('"');
    push_lit(&mut out, ",\n  \"updated_at\": \"");
    push_ts(&mut out, &note.updated_at);
    out.push('"');
    push_lit(&mut out, "\n}");
    assert(out@ =~= encode_spec(note@));
    chars_to_string(&out)
}

/// Checks that the characters of `lit` lie at `i`.  Exact: returns the
/// index just past them when they do, `None` when they do not.
fn expect_lit(input: &Vec<char>, i: usize, lit: &str) -> (r: Option<usize>)
    requires
        i <= input@.len(),
    ensures
        r matches Some(j) ==> j == i + lit@.len() && j <= input@.len() && input@.subrange(
            i as int,
            j as int,
        ) == lit@,
        r is None ==> !prefix_of(lit@, input@.skip(i as int)),
    {
    let ilen = input.len();
    let m = lit.unicode_len();
    if m > ilen - i {
        return None;
    }
    let mut k: usize = 0;
    while k < m
        invariant
            i + m <= ilen,
            ilen == input@.len(),
            k <= m,
            m == lit@.len(),
            forall|t: int| 0 <= t < k ==> input@[i + t] == lit@[t],
        decreases m - k,
    {
        if input[i + k] != lit.get_char(k) {
            proof {
                if prefix_of(lit@, input@.skip(i as int)) {
                    assert(input@.skip(i as int).subrange(0, m as int)[k as int] == input@.skip(
                        i as int,
                    )[k as int]);
                }
            }
            return None;
        }
        k = k + 1;
    }
    proof {
        assert(input@.subrange(i as int, (i + m) as int) =~= lit@);
    }
    Some(i + m)
}

// Where each piece of an encoded document starts.
pub open spec fn enc_pos1() -> int {
    lit_head().len() as int
}

pub open spec fn enc_pos2(nv: NoteView) -> int {
    enc_pos1() + quoted(nv.id).len()
}

pub open spec fn enc_pos3(nv: NoteView) -> int {
    enc_pos2(nv) + lit_title().len()
}

pub open spec fn enc_pos4(nv: NoteView) -> int {
    enc_pos3(nv) + quoted(nv.title).len()
}

pub open spec fn enc_pos5(nv: NoteView) -> int {
    enc_pos4(nv) + lit_content().len()
}

pub open spec fn enc_pos6(nv: NoteView) -> int {
    enc_pos5(nv) + quoted(nv.content).len()
}

pub open spec fn enc_pos7(nv: NoteView) -> int {
    enc_pos6(nv) + lit_created().len()
}

pub open spec fn enc_pos8(nv: NoteView) -> int {
    enc_pos7(nv) + quoted_ts(nv.created_at).len()
}

pub open spec fn enc_pos9(nv: NoteView) -> int {
    enc_pos8(nv) + lit_updated().len()
}

pub open spec fn enc_pos10(nv: NoteView) -> int {
    enc_pos9(nv) + quoted_ts(nv.updated_at).len()
}

/// Where each piece of an encoded document lies.
proof fn lemma_encode_fields(s: Seq<char>, nv: NoteView)
    requires
        s == encode_spec(nv),
    ensures
        s.len() == enc_pos10(nv) + lit_tail().len(),
        prefix_of(lit_head(), s),
        prefix_of(quoted(nv.id), s.skip(enc_pos1())),
        prefix_of(lit_title(), s.skip(enc_pos2(nv))),
        prefix_of(quoted(nv.title), s.skip(enc_pos3(nv))),
        prefix_of(lit_content(), s.skip(enc_pos4(nv))),
        prefix_of(quoted(nv.content), s.skip(enc_pos5(nv))),
        prefix_of(lit_created(), s.skip(enc_pos6(nv))),
        prefix_of(quoted(ts_chars(nv.created_at)), s.skip(enc_pos7(nv))),
        prefix_of(lit_updated(), s.skip(enc_pos8(nv))),
        prefix_of(quoted(ts_chars(nv.updated_at)), s.skip(enc_pos9(nv))),
        prefix_of(lit_tail(), s.skip(enc_pos10(nv))),
{
    lemma_ts_plain(nv.created_at);
    lemma_ts_plain(nv.updated_at);
    assert(prefix_of(s, s)) by {
        assert(s.subrange(0, s.len() as int) =~= s);
    }
    let r1 = quoted(nv.id) + (lit_title() + (quoted(nv.title) + (lit_content() + (quoted(
        nv.content,
    ) + (lit_created() + (quoted_ts(nv.created_at) + (lit_updated() + (quoted_ts(nv.updated_at)
        + lit_tail()))))))));
    lemma_prefix_peel(lit_head(), r1, s);
    let r2 = lit_title() + (quoted(nv.title) + (lit_content() + (quoted(nv.content) + (
    lit_created() + (quoted_ts(nv.created_at) + (lit_updated() + (quoted_ts(nv.updated_at)
        + lit_tail())))))));
    lemma_prefix_peel(quoted(nv.id), r2, s.skip(enc_pos1()));
    lemma_skip_skip(s, enc_pos1(), quoted(nv.id).len() as int);
    let r3 = quoted(nv.title) + (lit_content() + (quoted(nv.content) + (lit_created() + (quoted_ts(
        nv.created_at,
    ) + (lit_updated() + (quoted_ts(nv.updated_at) + lit_tail()))))));
    lemma_prefix_peel(lit_title(), r3, s.skip(enc_pos2(nv)));
    lemma_skip_skip(s, enc_pos2(nv), lit_title().len() as int);
    let r4 = lit_content() + (quoted(nv.content) + (lit_created() + (quoted_ts(nv.created_at) + (
    lit_updated() + (quoted_ts(nv.updated_at) + lit_tail())))));
    lemma_prefix_peel(quoted(nv.title), r4, s.skip(enc_pos3(nv)));
    lemma_skip_skip(s, enc_pos3(nv), quoted(nv.title).len() as int);
    let r5 = quoted(nv.content) + (lit_created() + (quoted_ts(nv.created_at) + (lit_updated() + (
    quoted_ts(nv.updated_at) + lit_tail()))));
    lemma_prefix_peel(lit_content(), r5, s.skip(enc_pos4(nv)));
    lemma_skip_skip(s, enc_pos4(nv), lit_content().len() as int);
    let r6 = lit_created() + (quoted_ts(nv.created_at) + (lit_updated() + (quoted_ts(nv.updated_at)
        + lit_tail())));
    lemma_prefix_peel(quoted(nv.content), r6, s.skip(enc_pos5(nv)));
    lemma_skip_skip(s, enc_pos5(nv), quoted(nv.content).len() as int);
    let r7 = quoted_ts(nv.created_at) + (lit_updated() + (quoted_ts(nv.updated_at) + lit_tail()));
    lemma_prefix_peel(lit_created(), r7, s.skip(enc_pos6(nv)));
    lemma_skip_skip(s, enc_pos6(nv), lit_created().len() as int);
    let r8 = lit_updated() + (quoted_ts(nv.updated_at) + lit_tail());
    lemma_prefix_peel(quoted_ts(nv.created_at), r8, s.skip(enc_pos7(nv)));
    lemma_skip_skip(s, enc_pos7(nv), quoted_ts(nv.created_at).len() as int);
    let r9 = quoted_ts(nv.updated_at) + lit_tail();
    lemma_prefix_peel(lit_updated(), r9, s.skip(enc_pos8(nv)));
    lemma_skip_skip(s, enc_pos8(nv), lit_updated().len() as int);
    lemma_prefix_peel(quoted_ts(nv.updated_at), lit_tail(), s.skip(enc_pos9(nv)));
    lemma_skip_skip(s, enc_pos9(nv), quoted_ts(nv.updated_at).len() as int);
}

proof fn lemma_subrange_split(s: Seq<char>, a: int, b: int, c: int)
    requires
        0 <= a <= b <= c <= s.len(),
    ensures
        s.subrange(a, c) == s.subrange(a, b) + s.subrange(b, c),
{
    assert(s.subrange(a, c) =~= s.subrange(a, b) + s.subrange(b, c));
}

/// Parses a note document.  The contract is exact: the result is
/// `Some(n)` if and only if the document is `encode_spec(n)` for a
/// well-formed note value `n`.
#[verifier::rlimit(100)]
pub fn decode_note(doc: &str) -> (r: Option<Note>)
    ensures
        r matches Some(n) ==> n.wf() && doc@ == encode_spec(n@),
        forall|nv: NoteView|
            nv.wf() && doc@ == #[trigger] encode_spec(nv) ==> (r matches Some(n) && n@ == nv),
{
    let input = str_to_chars(doc);
    let ghost iv = input@;
    proof {
        assert(iv.skip(0) =~= iv);
        assert forall|nv: NoteView| nv.wf() && doc@ == #[trigger] encode_spec(nv) implies {
            &&& prefix_of(lit_head(), iv.skip(0))
            &&& prefix_of(quoted(nv.id), iv.skip(enc_pos1()))
            &&& prefix_of(lit_title(), iv.skip(enc_pos2(nv)))
            &&& prefix_of(quoted(nv.title), iv.skip(enc_pos3(nv)))
            &&& prefix_of(lit_content(), iv.skip(enc_pos4(nv)))
            &&& prefix_of(quoted(nv.content), iv.skip(enc_pos5(nv)))
            &&& prefix_of(lit_created(), iv.skip(enc_pos6(nv)))
            &&& prefix_of(quoted(ts_chars(nv.created_at)), iv.skip(enc_pos7(nv)))
            &&& prefix_of(lit_updated(), iv.skip(enc_pos8(nv)))
            &&& prefix_of(quoted(ts_chars(nv.updated_at)), iv.skip(enc_pos9(nv)))
            &&& prefix_of(lit_tail(), iv.skip(enc_pos10(nv)))
            &&& iv.len() == enc_pos10(nv) + lit_tail().len()
        } by {
            lemma_encode_fields(iv, nv);
        }
    }
    let i1 = match expect_lit(&input, 0, "{\n  \"id\": \"") {
        Some(j) => j,
        None => {
            return None;
        },
    };
    let (v1, i2) = match parse_string(&input, i1) {
        Some(p) => p,
        None => {
            return None;
        },
    };
    proof {
        assert forall|nv: NoteView|
            nv.wf() && doc@ == #[trigger] encode_spec(nv) implies v1@ == nv.id && i2 as int
            == enc_pos2(nv) by {
            assert(prefix_of(quoted(nv.id), iv.skip(i1 as int)));
        }
    }
    let i3 = match expect_lit(&input, i2, ",\n  \"title\": \"") {
        Some(j) => j,
        None => {
            return None;
        },
    };
    let (v2, i4) = match parse_string(&input, i3) {
        Some(p) => p,
        None => {
            return None;
        },
    };
    proof {
        assert forall|nv: NoteView|
            nv.wf() && doc@ == #[trigger] encode_spec(nv) implies v2@ == nv.title && i4 as int
            == enc_pos4(nv) by {
            assert(i3 as int == enc_pos3(nv));
            assert(prefix_of(quoted(nv.title), iv.skip(i3 as int)));
        }
    }
    let i5 = match expect_lit(&input, i4, ",\n  \"content\": \"") {
        Some(j) => j,
        None => {
            return None;
        },
    };
    let (v3, i6) = match parse_string(&input, i5) {
        Some(p) => p,
        None => {
            return None;
        },
    };
    proof {
        assert forall|nv: NoteView|
            nv.wf() && doc@ == #[trigger] encode_spec(nv) implies v3@ == nv.content && i6 as int
            == enc_pos6(nv) by {
            assert(i5 as int == enc_pos5(nv));
            assert(prefix_of(quoted(nv.content), iv.skip(i5 as int)));
        }
    }
    let i7 = match expect_lit(&input, i6, ",\n  \"created_at\": \"") {
        Some(j) => j,
        None => {
            return None;
        },
    };
    let (v4, i8) = match parse_string(&input, i7) {
        Some(p) => p,
        None => {
            return None;
        },
    };
    proof {
        assert forall|nv: NoteView|
            nv.wf() && doc@ == #[trigger] encode_spec(nv) implies v4@ == ts_chars(nv.created_at)
            && i8 as int == enc_pos8(nv) by {
            assert(i7 as int == enc_pos7(nv));
            assert(prefix_of(quoted(ts_chars(nv.created_at)), iv.skip(i7 as int)));
            lemma_ts_plain(nv.created_at);
        }
    }
    let i9 = match expect_lit(&input, i8, ",\n  \"updated_at\": \"") {
        Some(j) => j,
        None => {
            return None;
        },
    };
    let (v5, i10) = match parse_string(&input, i9) {
        Some(p) => p,
        None => {
            return None;
        },
    };
    proof {
        assert forall|nv: NoteView|
            nv.wf() && doc@ == #[trigger] encode_spec(nv) implies v5@ == ts_chars(nv.updated_at)
            && i10 as int == enc_pos10(nv) by {
            assert(i9 as int == enc_pos9(nv));
            assert(prefix_of(quoted(ts_chars(nv.updated_at)), iv.skip(i9 as int)));
            lemma_ts_plain(nv.updated_at);
        }
    }
    let i11 = match expect_lit(&input, i10, "\n}") {
        Some(j) => j,
        None => {
            return None;
        },
    };
    if i11 != input.len() {
        return None;
    }
    let tc = match parse_ts(&v4) {
        Some(t) => t,
        None => {
            return None;
        },
    };
    let tu = match parse_ts(&v5) {
        Some(t) => t,
        None => {
            return None;
        },
    };
    proof {
        assert forall|nv: NoteView|
            nv.wf() && doc@ == #[trigger] encode_spec(nv) implies tc == nv.created_at && tu
            == nv.updated_at by {
            assert(v4@ == ts_chars(nv.created_at));
            assert(v5@ == ts_chars(nv.updated_at));
        }
    }
    if !tc.le(&tu) {
        return None;
    }
    let note = Note {
        id: chars_to_string(&v1),
        title: chars_to_string(&v2),
        content: chars_to_string(&v3),
        created_at: tc,
        updated_at: tu,
    };
    proof {
        lemma_ts_plain(tc);
        lemma_ts_plain(tu);
        assert(iv.subrange(i9 as int, i11 as int) == quoted_ts(tu) + lit_tail()) by {
            lemma_subrange_split(iv, i9 as int, i10 as int, i11 as int);
        }
        assert(iv.subrange(i8 as int, i11 as int) == lit_updated() + (quoted_ts(tu) + lit_tail()))
            by {
            lemma_subrange_split(iv, i8 as int, i9 as int, i11 as int);
        }
        assert(iv.subrange(i7 as int, i11 as int) == quoted_ts(tc) + (lit_updated() + (quoted_ts(
            tu,
        ) + lit_tail()))) by {
            lemma_subrange_split(iv, i7 as int, i8 as int, i11 as int);
        }
        assert(iv.subrange(i6 as int, i11 as int) == lit_created() + (quoted_ts(tc) + (
        lit_updated() + (quoted_ts(tu) + lit_tail())))) by {
            lemma_subrange_split(iv, i6 as int, i7 as int, i11 as int);
        }
        assert(iv.subrange(i5 as int, i11 as int) == quoted(note@.content) + (lit_created() + (
        quoted_ts(tc) + (lit_updated() + (quoted_ts(tu) + lit_tail()))))) by {
            lemma_subrange_split(iv, i5 as int, i6 as int, i11 as int);
        }
        assert(iv.subrange(i4 as int, i11 as int) == lit_content() + (quoted(note@.content) + (
        lit_created() + (quoted_ts(tc) + (lit_updated() + (quoted_ts(tu) + lit_tail())))))) by {
            lemma_subrange_split(iv, i4 as int, i5 as int, i11 as int);
        }
        assert(iv.subrange(i3 as int, i11 as int) == quoted(note@.title) + (lit_content() + (
        quoted(note@.content) + (lit_created() + (quoted_ts(tc) + (lit_updated() + (quoted_ts(tu)
            + lit_tail()))))))) by {
            lemma_subrange_split(iv, i3 as int, i4 as int, i11 as int);
        }
        assert(iv.subrange(i2 as int, i11 as int) == lit_title() + (quoted(note@.title) + (
        lit_content() + (quoted(note@.content) + (lit_created() + (quoted_ts(tc) + (lit_updated()
            + (quoted_ts(tu) + lit_tail())))))))) by {
            lemma_subrange_split(iv, i2 as int, i3 as int, i11 as int);
        }
        assert(iv.subrange(i1 as int, i11 as int) == quoted(note@.id) + (lit_title() + (quoted(
            note@.title,
        ) + (lit_content() + (quoted(note@.content) + (lit_created() + (quoted_ts(tc) + (
        lit_updated() + (quoted_ts(tu) + lit_tail()))))))))) by {
            lemma_subrange_split(iv, i1 as int, i2 as int, i11 as int);
        }
        assert(iv.subrange(0, i11 as int) == encode_spec(note@)) by {
            lemma_subrange_split(iv, 0, i1 as int, i11 as int);
        }
        assert(iv.subrange(0, i11 as int) =~= iv);
        assert forall|nv: NoteView|
            nv.wf() && doc@ == #[trigger] encode_spec(nv) implies note@ =~= nv by {
        }
    }
    Some(note)
}

// ---------------------------------------------------------------------
// Injectivity of the encoding
// ---------------------------------------------------------------------
proof fn lemma_digits_injective(m1: u32, m2: u32, w: nat)
    requires
        m1 < pow10(w),
        m2 < pow10(w),
        digits(m1, w) == digits(m2, w),
    ensures
        m1 == m2,
    decreases w,
{
    if w == 0 {
    } else {
        lemma_digits_len(m1 / 10, (w - 1) as nat);
        lemma_digits_len(m2 / 10, (w - 1) as nat);
        lemma_unsnoc(digits(m1, w), digits(m1 / 10, (w - 1) as nat), digit_char(m1 % 10));
        lemma_unsnoc(digits(m2, w), digits(m2 / 10, (w - 1) as nat), digit_char(m2 % 10));
        lemma_digit_roundtrip(m1 % 10);
        lemma_digit_roundtrip(m2 % 10);
        assert(digit_char(m1 % 10) == digit_char(m2 % 10));
        assert(m1 % 10 == m2 % 10);
        assert(digits(m1 / 10, (w - 1) as nat) == digits(m2 / 10, (w - 1) as nat));
        lemma_digits_injective(m1 / 10, m2 / 10, (w - 1) as nat);
    }
}

proof fn lemma_ts_injective(t1: Timestamp, t2: Timestamp)
    requires
        t1.wf(),
        t2.wf(),
        ts_chars(t1) == ts_chars(t2),
    ensures
        t1 == t2,
{
    let v = ts_chars(t1);
    lemma_ts_fields(v, t1);
    lemma_ts_fields(v, t2);
    lemma_pow10_table();
    lemma_digits_injective(t1.year, t2.year, 4);
    lemma_digits_injective(t1.month, t2.month, 2);
    lemma_digits_injective(t1.day, t2.day, 2);
    lemma_digits_injective(t1.hour, t2.hour, 2);
    lemma_digits_injective(t1.minute, t2.minute, 2);
    lemma_digits_injective(t1.second, t2.second, 2);
    lemma_digits_injective(t1.nanos, t2.nanos, 9);
}

/// Two values whose quoted forms start the same text are the same
/// value, and their quoted forms have the same length.
proof fn lemma_quoted_prefix_unique(t: Seq<char>, x: Seq<char>, y: Seq<char>)
    requires
        prefix_of(quoted(x), t),
        prefix_of(quoted(y), t),
    ensures
        x == y,
    decreases x.len(),
{
    if t.len() == 0 {
        assert(quoted(x).len() >= 1);
        assert(false);
    } else if t[0] == '"' {
        if x.len() > 0 {
            lemma_quoted_unfold(x);
            lemma_esc_char_props(x[0]);
            assert(t.subrange(0, quoted(x).len() as int)[0] == t[0]);
            assert(quoted(x)[0] == esc_char(x[0])[0]);
            assert(false);
        }
        if y.len() > 0 {
            lemma_quoted_unfold(y);
            lemma_esc_char_props(y[0]);
            assert(t.subrange(0, quoted(y).len() as int)[0] == t[0]);
            assert(quoted(y)[0] == esc_char(y[0])[0]);
            assert(false);
        }
        assert(x =~= y);
    } else {
        lemma_candidate_step(t, x);
        lemma_candidate_step(t, y);
        lemma_esc_char_props(x[0]);
        lemma_esc_char_props(y[0]);
        assert(esc_char(x[0])[0] == t[0]);
        assert(esc_char(y[0])[0] == t[0]);
        if t[0] != '\\' {
            assert(plain_char(x[0]) && x[0] == t[0]) by {
                if !plain_char(x[0]) {
                    assert(esc_char(x[0])[0] == '\\');
                }
            }
            assert(plain_char(y[0]) && y[0] == t[0]) by {
                if !plain_char(y[0]) {
                    assert(esc_char(y[0])[0] == '\\');
                }
            }
        } else {
            assert(!plain_char(x[0]));
            assert(!plain_char(y[0]));
            assert(esc_char(x[0])[1] == t[1]);
            assert(esc_char(y[0])[1] == t[1]);
            if t[1] == 'u' {
                assert((x[0] as u32) < 32 && (y[0] as u32) < 32);
                assert(esc_char(x[0])[4] == t[4] && esc_char(x[0])[5] == t[5]);
                assert(esc_char(y[0])[4] == t[4] && esc_char(y[0])[5] == t[5]);
                lemma_hex_roundtrip((x[0] as u32) / 16);
                lemma_hex_roundtrip((x[0] as u32) % 16);
                lemma_hex_roundtrip((y[0] as u32) / 16);
                lemma_hex_roundtrip((y[0] as u32) % 16);
                assert((x[0] as u32) / 16 == (y[0] as u32) / 16);
                assert((x[0] as u32) % 16 == (y[0] as u32) % 16);
                assert(x[0] as u32 == 16 * ((x[0] as u32) / 16) + ((x[0] as u32) % 16));
                assert(y[0] as u32 == 16 * ((y[0] as u32) / 16) + ((y[0] as u32) % 16));
                lemma_char_code(x[0], y[0]);
            }
        }
        assert(x[0] == y[0]);
        lemma_skip_skip(t, 0, esc_char(x[0]).len() as int);
        lemma_quoted_prefix_unique(t.skip(esc_char(x[0]).len() as int), x.skip(1), y.skip(1));
        lemma_cons_self(x);
        lemma_cons_self(y);
        assert(x =~= y);
    }
}

/// Two well-formed note values with the same document are equal.
pub proof fn lemma_encode_injective(a: NoteView, b: NoteView)
    requires
        a.wf(),
        b.wf(),
        encode_spec(a) == encode_spec(b),
    ensures
        a == b,
{
    let s = encode_spec(a);
    lemma_encode_fields(s, a);
    lemma_encode_fields(s, b);
    lemma_quoted_prefix_unique(s.skip(enc_pos1()), a.id, b.id);
    assert(enc_pos2(a) == enc_pos2(b));
    assert(enc_pos3(a) == enc_pos3(b));
    lemma_quoted_prefix_unique(s.skip(enc_pos3(a)), a.title, b.title);
    assert(enc_pos5(a) == enc_pos5(b));
    lemma_quoted_prefix_unique(s.skip(enc_pos5(a)), a.content, b.content);
    assert(enc_pos7(a) == enc_pos7(b));
    lemma_quoted_prefix_unique(
        s.skip(enc_pos7(a)),
        ts_chars(a.created_at),
        ts_chars(b.created_at),
    );
    lemma_ts_injective(a.created_at, b.created_at);
    assert(enc_pos9(a) == enc_pos9(b));
    lemma_quoted_prefix_unique(
        s.skip(enc_pos9(a)),
        ts_chars(a.updated_at),
        ts_chars(b.updated_at),
    );
    lemma_ts_injective(a.updated_at, b.updated_at);
    assert(a =~= b);
}

// ---------------------------------------------------------------------
// Conversions between strings and character vectors
// ---------------------------------------------------------------------
/// The characters of a string, in order.
pub fn str_to_chars(s: &str) -> (r: Vec<char>)
    ensures
        r@ == s@,
{
    let n = s.unicode_len();
    let mut out: Vec<char> = Vec::new();
    let mut i: usize = 0;
    while i < n
        invariant
            n == s@.len(),
            i <= n,
            out@ == s@.subrange(0, i as int),
        decreases n - i,
    {
        out.push(s.get_char(i));
        i = i + 1;
        assert(out@ =~= s@.subrange(0, i as int));
    }
    assert(out@ =~= s@);
    out
}

/// Relies on `String: FromIterator<char>`: collecting characters
/// builds the string holding exactly those characters in order.
#[verifier::external_body]
pub fn chars_to_string(v: &Vec<char>) -> (r: String)
    ensures
        r@ == v@,
{
    v.iter().collect()
}

} // verus!
