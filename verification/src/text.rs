//! The human-facing text of a path: slash-delimited segments, each
//! percent-escaped, with an unambiguous way back.  A number prints as its
//! decimal digits; a name whose text could be mistaken for a number, or
//! that starts with the quote used for the purpose, is prefixed with a
//! quote.  Every path's text starts with the separator; the root path is
//! the bare separator itself.
//!
//! The escaping works character by character: an unsafe ASCII character
//! becomes a percent escape of its code point, and characters beyond
//! ASCII stand for themselves, in both directions.  The format is proved
//! to round-trip exactly; a byte-oriented consumer that percent-encodes
//! multi-byte sequences will agree with it on all-ASCII names.

use vstd::prelude::*;

use crate::path::ItemView;
use crate::path::Path;
use crate::path::PathItem;

verus! {

/// Relies on String::push: appends the given character to the end of the
/// string.
pub assume_specification [ String::push ](s: &mut String, ch: char)
    ensures
        final(s)@ == old(s)@.push(ch),
;

/// A decimal digit.
pub open spec fn is_digit_char(c: char) -> bool {
    48 <= (c as u32) && (c as u32) <= 57
}

/// A character the escaping leaves alone: an ASCII letter or digit, or one
/// of `- _ . ! ~ * ' ( )`.
pub open spec fn is_safe_char(c: char) -> bool {
    let u = c as u32;
    (48 <= u && u <= 57) || (65 <= u && u <= 90) || (97 <= u && u <= 122) || u == 45 || u == 95
        || u == 46 || u == 33 || u == 126 || u == 42 || u == 39 || u == 40 || u == 41
}

/// The digit character for a value below sixteen, upper case.
pub open spec fn hex_digit(v: u32) -> char {
    if v == 0 {
        '0'
    } else if v == 1 {
        '1'
    } else if v == 2 {
        '2'
    } else if v == 3 {
        '3'
    } else if v == 4 {
        '4'
    } else if v == 5 {
        '5'
    } else if v == 6 {
        '6'
    } else if v == 7 {
        '7'
    } else if v == 8 {
        '8'
    } else if v == 9 {
        '9'
    } else if v == 10 {
        'A'
    } else if v == 11 {
        'B'
    } else if v == 12 {
        'C'
    } else if v == 13 {
        'D'
    } else if v == 14 {
        'E'
    } else {
        'F'
    }
}

/// The escaped form of one character: itself when safe or beyond ASCII, a
/// percent escape of its code point otherwise.
pub open spec fn escape_char(c: char) -> Seq<char> {
    if is_safe_char(c) || (c as u32) >= 128 {
        seq![c]
    } else {
        seq!['%', hex_digit((c as u32) / 16), hex_digit((c as u32) % 16)]
    }
}

/// The escaped form of a whole name.
pub open spec fn escape_seq(s: Seq<char>) -> Seq<char>
    decreases s.len(),
{
    if s.len() == 0 {
        Seq::empty()
    } else {
        escape_char(s[0]) + escape_seq(s.skip(1))
    }
}

/// The decimal digits of a number, most significant first.
pub open spec fn dec_digits(n: nat) -> Seq<char>
    decreases n,
{
    if n < 10 {
        seq![hex_digit(n as u32)]
    } else {
        dec_digits(n / 10).push(hex_digit((n % 10) as u32))
    }
}

/// The text of one path item.  A name that is empty, or starts with a
/// digit or a quote, is quote-prefixed, so that its text is never empty
/// and cannot be read back as a number.
pub open spec fn item_text(v: ItemView) -> Seq<char> {
    match v {
        ItemView::Number(n) => dec_digits(n as nat),
        ItemView::Name(s) => if s.len() == 0 || is_digit_char(s[0]) || s[0] == '\'' {
            seq!['\''] + escape_seq(s)
        } else {
            escape_seq(s)
        },
    }
}

/// The text of a path's items: a separator before every item.
pub open spec fn segments_text(p: Seq<ItemView>) -> Seq<char>
    decreases p.len(),
{
    if p.len() == 0 {
        Seq::empty()
    } else {
        seq!['/'] + item_text(p[0]) + segments_text(p.skip(1))
    }
}

/// The text of a path.  The root path is marked by the bare separator; it
/// is never the empty text.
pub open spec fn path_text(p: Seq<ItemView>) -> Seq<char> {
    if p.len() == 0 {
        seq!['/']
    } else {
        segments_text(p)
    }
}

/// Escaping one more character appends its escaped form.
proof fn lemma_escape_push(s: Seq<char>, c: char)
    ensures
        escape_seq(s.push(c)) == escape_seq(s) + escape_char(c),
    decreases s.len(),
{
    if s.len() == 0 {
        assert(s.push(c)[0] == c);
        assert(s.push(c).skip(1) =~= Seq::<char>::empty());
        assert(escape_seq(Seq::<char>::empty()) =~= Seq::<char>::empty());
        assert(escape_seq(s.push(c)) =~= escape_char(c));
        assert(escape_seq(s) + escape_char(c) =~= escape_char(c));
    } else {
        assert(s.push(c)[0] == s[0]);
        assert(s.push(c).skip(1) =~= s.skip(1).push(c));
        lemma_escape_push(s.skip(1), c);
        assert(escape_char(s[0]) + (escape_seq(s.skip(1)) + escape_char(c)) =~= (escape_char(s[0])
            + escape_seq(s.skip(1))) + escape_char(c));
    }
}

/// Printing one more item appends a separator and its text.
proof fn lemma_segments_text_push(p: Seq<ItemView>, v: ItemView)
    ensures
        segments_text(p.push(v)) == segments_text(p) + seq!['/'] + item_text(v),
    decreases p.len(),
{
    if p.len() == 0 {
        assert(p.push(v)[0] == v);
        assert(p.push(v).skip(1) =~= Seq::<ItemView>::empty());
        assert(segments_text(Seq::<ItemView>::empty()) =~= Seq::<char>::empty());
        assert(segments_text(p.push(v)) =~= seq!['/'] + item_text(v));
        assert(segments_text(p) + seq!['/'] + item_text(v) =~= seq!['/'] + item_text(v));
    } else {
        assert(p.push(v)[0] == p[0]);
        assert(p.push(v).skip(1) =~= p.skip(1).push(v));
        lemma_segments_text_push(p.skip(1), v);
        assert(seq!['/'] + item_text(p[0]) + (segments_text(p.skip(1)) + seq!['/'] + item_text(v))
            =~= (seq!['/'] + item_text(p[0]) + segments_text(p.skip(1))) + seq!['/'] + item_text(
            v,
        ));
    }
}

/// A hexadecimal digit, in either case.
pub open spec fn is_hex_char(c: char) -> bool {
    let u = c as u32;
    (48 <= u && u <= 57) || (65 <= u && u <= 70) || (97 <= u && u <= 102)
}

/// The value of a hexadecimal digit.
pub open spec fn hex_val(c: char) -> int {
    let u = c as u32;
    if u <= 57 {
        u - 48
    } else if u <= 70 {
        u - 55
    } else {
        u - 87
    }
}

/// The unescaped form of an escaped name: every percent escape of two
/// hexadecimal digits becomes the character of that code point, everything
/// else stands for itself.
pub open spec fn unescape_seq(s: Seq<char>) -> Seq<char>
    decreases s.len(),
{
    if s.len() == 0 {
        Seq::empty()
    } else if s[0] == '%' && s.len() >= 3 && is_hex_char(s[1]) && is_hex_char(s[2]) {
        seq![((hex_val(s[1]) * 16 + hex_val(s[2])) as u8) as char] + unescape_seq(s.skip(3))
    } else {
        seq![s[0]] + unescape_seq(s.skip(1))
    }
}

/// Every character is a decimal digit.
pub open spec fn all_digits(s: Seq<char>) -> bool {
    forall|i: int| 0 <= i < s.len() ==> is_digit_char(#[trigger] s[i])
}

/// The value of a decimal digit.
pub open spec fn digit_val(c: char) -> int {
    c as u32 - 48
}

/// The number a digit sequence denotes.
pub open spec fn dec_val(s: Seq<char>) -> int
    decreases s.len(),
{
    if s.len() == 0 {
        0
    } else {
        dec_val(s.drop_last()) * 10 + digit_val(s.last())
    }
}

/// The item one segment of a path's text denotes, or nothing where a
/// numeric-looking segment is no valid number.  A segment that starts with
/// a digit must be a number that fits; a segment that starts with a quote
/// is the unescaped name after it; anything else is an unescaped name.
pub open spec fn parse_item(seg: Seq<char>) -> Option<ItemView> {
    if seg.len() > 0 && is_digit_char(seg[0]) {
        if all_digits(seg) && dec_val(seg) <= u64::MAX {
            Some(ItemView::Number(dec_val(seg) as u64))
        } else {
            None
        }
    } else if seg.len() > 0 && seg[0] == '\'' {
        Some(ItemView::Name(unescape_seq(seg.skip(1))))
    } else {
        Some(ItemView::Name(unescape_seq(seg)))
    }
}

/// The position of the first separator, or the length if there is none.
pub open spec fn first_slash(s: Seq<char>) -> int
    decreases s.len(),
{
    if s.len() == 0 {
        0
    } else if s[0] == '/' {
        0
    } else {
        1 + first_slash(s.skip(1))
    }
}

/// Where the first separator is: within bounds, a separator, and nothing
/// before it is one.
proof fn lemma_first_slash(s: Seq<char>)
    ensures
        0 <= first_slash(s) <= s.len(),
        first_slash(s) < s.len() ==> s[first_slash(s)] == '/',
        forall|i: int| 0 <= i < first_slash(s) ==> s[i] != '/',
    decreases s.len(),
{
    if s.len() > 0 && s[0] != '/' {
        lemma_first_slash(s.skip(1));
        assert(forall|i: int| 0 < i < first_slash(s) ==> s[i] == s.skip(1)[i - 1]);
    }
}

/// A position with no separator before it, and a separator or the end at
/// it, is the first separator.
proof fn lemma_first_slash_is(s: Seq<char>, k: int)
    requires
        0 <= k <= s.len(),
        forall|i: int| 0 <= i < k ==> s[i] != '/',
        k < s.len() ==> s[k] == '/',
    ensures
        first_slash(s) == k,
    decreases k,
{
    if k > 0 {
        assert(forall|i: int| 0 <= i < k - 1 ==> s.skip(1)[i] != '/');
        assert(k - 1 < s.skip(1).len() ==> s.skip(1)[k - 1] == '/');
        lemma_first_slash_is(s.skip(1), k - 1);
    }
}

/// The items the text after the leading separator denotes: segments split
/// at each separator, each parsed as an item.
pub open spec fn parse_segments(s: Seq<char>) -> Option<Seq<ItemView>>
    decreases s.len(),
        via parse_segments_decreases
{
    let k = first_slash(s);
    match parse_item(s.take(k)) {
        None => None,
        Some(v) => if k == s.len() {
            Some(seq![v])
        } else {
            match parse_segments(s.skip(k + 1)) {
                None => None,
                Some(rest) => Some(seq![v] + rest),
            }
        },
    }
}

#[via_fn]
proof fn parse_segments_decreases(s: Seq<char>) {
    lemma_first_slash(s);
}

/// The path a text denotes: nothing without the leading separator, the
/// root path for the bare separator, else the parsed segments.  An empty
/// name is not confused with the root: its text is the quote form.
pub open spec fn parse_path(s: Seq<char>) -> Option<Seq<ItemView>> {
    if s.len() == 0 || s[0] != '/' {
        None
    } else if s.len() == 1 {
        Some(Seq::empty())
    } else {
        parse_segments(s.skip(1))
    }
}

/// Why a path failed to parse: the text does not start with the
/// separator, or a numeric-looking segment is no valid number.
#[derive(Clone, Copy, Debug, PartialEq, Eq, Structural)]
pub enum ParseError {
    NoRoot,
    BadInt,
}

/// A digit sequence denotes a nonnegative number.
proof fn lemma_dec_val_nonneg(s: Seq<char>)
    requires
        all_digits(s),
    ensures
        dec_val(s) >= 0,
    decreases s.len(),
{
    if s.len() > 0 {
        assert(forall|i: int| 0 <= i < s.drop_last().len() ==> s.drop_last()[i] == s[i]);
        lemma_dec_val_nonneg(s.drop_last());
    }
}

/// A digit sequence denotes at least what any of its prefixes denotes.
proof fn lemma_dec_val_monotone(s: Seq<char>, i: int)
    requires
        0 <= i <= s.len(),
        all_digits(s),
    ensures
        dec_val(s) >= dec_val(s.take(i)),
    decreases s.len() - i,
{
    if i < s.len() {
        assert(s.take(i + 1).drop_last() =~= s.take(i));
        assert(s.take(i + 1).last() == s[i]);
        assert(forall|j: int| 0 <= j < i ==> s.take(i)[j] == s[j]);
        lemma_dec_val_nonneg(s.take(i));
        assert(dec_val(s.take(i + 1)) >= dec_val(s.take(i)));
        lemma_dec_val_monotone(s, i + 1);
    } else {
        assert(s.take(i) =~= s);
    }
}

/// The digit character for a value below sixteen.
fn hex_char(v: u32) -> (c: char)
    requires
        v < 16,
    ensures
        c == hex_digit(v),
{
    match v {
        0 => '0',
        1 => '1',
        2 => '2',
        3 => '3',
        4 => '4',
        5 => '5',
        6 => '6',
        7 => '7',
        8 => '8',
        9 => '9',
        10 => 'A',
        11 => 'B',
        12 => 'C',
        13 => 'D',
        14 => 'E',
        _ => 'F',
    }
}

/// Append the decimal digits of `n`.
fn push_number(out: &mut String, n: u64)
    ensures
        final(out)@ == old(out)@ + dec_digits(n as nat),
    decreases n,
{
    if n >= 10 {
        push_number(out, n / 10);
    }
    let d = (n % 10) as u32;
    out.push(hex_char(d));
    proof {
        if n < 10 {
            assert(out@ =~= old(out)@ + dec_digits(n as nat));
        } else {
            assert(out@ =~= old(out)@ + dec_digits((n / 10) as nat).push(
                hex_digit((n % 10) as u32),
            ));
        }
    }
}

/// Append the escaped form of a name.
fn push_escaped(out: &mut String, s: &str)
    ensures
        final(out)@ == old(out)@ + escape_seq(s@),
{
    let n = s.unicode_len();
    proof {
        assert(escape_seq(s@.take(0)) =~= Seq::<char>::empty());
        assert(out@ =~= old(out)@ + escape_seq(s@.take(0)));
    }
    for i in 0..n
        invariant
            n == s@.len(),
            out@ == old(out)@ + escape_seq(s@.take(i as int)),
    {
        let c = s.get_char(i);
        let u = c as u32;
        if (48 <= u && u <= 57) || (65 <= u && u <= 90) || (97 <= u && u <= 122) || u == 45
            || u == 95 || u == 46 || u == 33 || u == 126 || u == 42 || u == 39 || u == 40
            || u == 41 || u >= 128 {
            out.push(c);
        } else {
            out.push('%');
            out.push(hex_char(u / 16));
            out.push(hex_char(u % 16));
        }
        proof {
            assert(s@.take(i + 1) =~= s@.take(i as int).push(s@[i as int]));
            lemma_escape_push(s@.take(i as int), s@[i as int]);
            assert(out@ =~= old(out)@ + escape_seq(s@.take(i + 1)));
        }
    }
    proof {
        assert(s@.take(n as int) =~= s@);
    }
}

/// What the digit characters are: hexadecimal digits with their own
/// value, decimal ones below ten, and never a separator or an escape.
proof fn lemma_hex_digit_props(v: u32)
    requires
        v < 16,
    ensures
        is_hex_char(hex_digit(v)),
        hex_val(hex_digit(v)) == v,
        hex_digit(v) != '/',
        hex_digit(v) != '%',
        v < 10 ==> is_digit_char(hex_digit(v)) && digit_val(hex_digit(v)) == v,
{
}

/// The decimal digits of a number are digits, start with one, carry no
/// separator, and denote the number again.
proof fn lemma_dec_digits_props(n: nat)
    ensures
        dec_digits(n).len() > 0,
        all_digits(dec_digits(n)),
        is_digit_char(dec_digits(n)[0]),
        dec_val(dec_digits(n)) == n,
        forall|i: int| 0 <= i < dec_digits(n).len() ==> dec_digits(n)[i] != '/',
    decreases n,
{
    if n < 10 {
        lemma_hex_digit_props(n as u32);
        let d = dec_digits(n);
        assert(d == seq![hex_digit(n as u32)]);
        assert(d.drop_last() =~= Seq::<char>::empty());
        assert(dec_val(d.drop_last()) == 0);
        assert(d.last() == hex_digit(n as u32));
    } else {
        lemma_dec_digits_props(n / 10);
        lemma_hex_digit_props((n % 10) as u32);
        let d = dec_digits(n);
        let prev = dec_digits(n / 10);
        assert(d == prev.push(hex_digit((n % 10) as u32)));
        assert(d.drop_last() =~= prev);
        assert(dec_val(d) == dec_val(prev) * 10 + digit_val(d.last()));
        assert((n / 10) * 10 + (n % 10) == n);
        assert(d[0] == prev[0]);
        assert forall|i: int| 0 <= i < d.len() implies is_digit_char(#[trigger] d[i]) by {
            if i < d.len() - 1 {
                assert(d[i] == prev[i]);
            }
        }
        assert forall|i: int| 0 <= i < d.len() implies d[i] != '/' by {
            if i < d.len() - 1 {
                assert(d[i] == prev[i]);
            }
        }
    }
}

/// Escaped text never contains a separator.
proof fn lemma_escape_no_slash(s: Seq<char>)
    ensures
        forall|i: int| 0 <= i < escape_seq(s).len() ==> escape_seq(s)[i] != '/',
    decreases s.len(),
{
    if s.len() > 0 {
        lemma_escape_no_slash(s.skip(1));
        let e = escape_seq(s);
        let head = escape_char(s[0]);
        let rest = escape_seq(s.skip(1));
        assert(e == head + rest);
        if !(is_safe_char(s[0]) || (s[0] as u32) >= 128) {
            lemma_hex_digit_props((s[0] as u32) / 16);
            lemma_hex_digit_props((s[0] as u32) % 16);
        }
        assert forall|i: int| 0 <= i < e.len() implies e[i] != '/' by {
            if i < head.len() {
                assert(e[i] == head[i]);
            } else {
                assert(e[i] == rest[i - head.len()]);
            }
        }
    }
}

/// Unescaping undoes escaping: the escaped form of any name reads back as
/// exactly that name.
proof fn lemma_unescape_escape(s: Seq<char>)
    ensures
        unescape_seq(escape_seq(s)) == s,
    decreases s.len(),
{
    if s.len() == 0 {
        assert(escape_seq(s) =~= Seq::<char>::empty());
        assert(unescape_seq(Seq::<char>::empty()) =~= Seq::<char>::empty());
        assert(s =~= Seq::<char>::empty());
    } else {
        let c = s[0];
        let e = escape_seq(s.skip(1));
        lemma_unescape_escape(s.skip(1));
        let w = escape_seq(s);
        assert(w == escape_char(c) + e);
        if is_safe_char(c) || (c as u32) >= 128 {
            assert(w[0] == c);
            assert(c != '%');
            assert(w.skip(1) =~= e);
            assert(unescape_seq(w) == seq![c] + unescape_seq(e));
            assert(seq![c] + s.skip(1) =~= s);
        } else {
            let u = c as u32;
            lemma_hex_digit_props(u / 16);
            lemma_hex_digit_props(u % 16);
            assert(w[0] == '%');
            assert(w[1] == hex_digit(u / 16));
            assert(w[2] == hex_digit(u % 16));
            assert(w.len() >= 3);
            assert(hex_val(w[1]) * 16 + hex_val(w[2]) == u);
            assert(u < 128);
            assert(u < 256 ==> ((u as u8) as u32) == u) by (bit_vector);
            vstd::utf8::char_u32_cast(c, u);
            assert((u as char) == c);
            assert(((u as u8) as char) == c);
            assert(w.skip(3) =~= e);
            assert(unescape_seq(w) == seq![c] + unescape_seq(e));
            assert(seq![c] + s.skip(1) =~= s);
        }
    }
}

/// The text of one item parses back to exactly that item, and holds no
/// separator.
proof fn lemma_item_text_parses(v: ItemView)
    ensures
        parse_item(item_text(v)) == Some(v),
        item_text(v).len() > 0,
        forall|i: int| 0 <= i < item_text(v).len() ==> item_text(v)[i] != '/',
{
    let seg = item_text(v);
    match v {
        ItemView::Number(n) => {
            lemma_dec_digits_props(n as nat);
        },
        ItemView::Name(s) => {
            lemma_unescape_escape(s);
            lemma_escape_no_slash(s);
            if s.len() == 0 || is_digit_char(s[0]) || s[0] == '\'' {
                assert(seg == seq!['\''] + escape_seq(s));
                assert(seg[0] == '\'');
                assert(!is_digit_char('\''));
                assert(seg.skip(1) =~= escape_seq(s));
                if s.len() == 0 {
                    assert(escape_seq(s) =~= Seq::<char>::empty());
                    assert(unescape_seq(seg.skip(1)) =~= Seq::<char>::empty());
                }
                assert forall|i: int| 0 <= i < seg.len() implies seg[i] != '/' by {
                    if i > 0 {
                        assert(seg[i] == escape_seq(s)[i - 1]);
                    }
                }
            } else {
                assert(seg == escape_seq(s));
                assert(s.len() > 0);
                assert(seg[0] == escape_char(s[0])[0]);
                assert(seg.len() > 0);
                if is_safe_char(s[0]) || (s[0] as u32) >= 128 {
                    assert(seg[0] == s[0]);
                    assert(!is_digit_char(seg[0]));
                    assert(seg[0] != '\'');
                } else {
                    assert(seg[0] == '%');
                    assert(!is_digit_char('%'));
                }
            }
        },
    }
}

/// The text after the leading separator parses back to the whole path.
proof fn lemma_parse_segments_text(p: Seq<ItemView>)
    requires
        p.len() > 0,
    ensures
        parse_segments(segments_text(p).skip(1)) == Some(p),
    decreases p.len(),
{
    let t0 = item_text(p[0]);
    let rest = segments_text(p.skip(1));
    let s1 = segments_text(p).skip(1);
    assert(segments_text(p) == seq!['/'] + t0 + rest);
    assert(s1 =~= t0 + rest);
    lemma_item_text_parses(p[0]);
    if p.len() == 1 {
        assert(p.skip(1).len() == 0);
        assert(rest =~= Seq::<char>::empty());
        assert(s1 =~= t0);
        assert(forall|i: int| 0 <= i < s1.len() ==> s1[i] != '/');
        lemma_first_slash_is(s1, s1.len() as int);
        assert(s1.take(s1.len() as int) =~= t0);
        assert(parse_segments(s1) == Some(seq![p[0]]));
        assert(seq![p[0]] =~= p);
    } else {
        lemma_parse_segments_text(p.skip(1));
        assert(rest == seq!['/'] + item_text(p.skip(1)[0]) + segments_text(p.skip(1).skip(1)));
        assert(rest[0] == '/');
        let k = t0.len() as int;
        assert forall|i: int| 0 <= i < k implies s1[i] != '/' by {
            assert(s1[i] == t0[i]);
        }
        assert(s1[k] == rest[0]);
        lemma_first_slash_is(s1, k);
        assert(s1.take(k) =~= t0);
        assert(s1.skip(k + 1) =~= rest.skip(1));
        assert(parse_segments(s1) == Some(seq![p[0]] + p.skip(1)));
        assert(seq![p[0]] + p.skip(1) =~= p);
    }
}

/// The text round trip: every path prints to a text that parses back to
/// exactly that path.  The root's text is the bare separator, and an
/// empty name takes the quote form, so the two are never confused.
pub proof fn lemma_text_round_trip(p: Seq<ItemView>)
    ensures
        parse_path(path_text(p)) == Some(p),
{
    let t = path_text(p);
    if p.len() == 0 {
        assert(t == seq!['/']);
        assert(t.len() == 1 && t[0] == '/');
        assert(p =~= Seq::<ItemView>::empty());
    } else {
        lemma_item_text_parses(p[0]);
        assert(t == seq!['/'] + item_text(p[0]) + segments_text(p.skip(1)));
        assert(t[0] == '/');
        assert(t.len() >= 2);
        lemma_parse_segments_text(p);
    }
}

/// The value of a hexadecimal digit.
fn hex_value(c: char) -> (v: u32)
    requires
        is_hex_char(c),
    ensures
        v == hex_val(c),
        v < 16,
{
    let u = c as u32;
    if u <= 57 {
        u - 48
    } else if u <= 70 {
        u - 55
    } else {
        u - 87
    }
}

/// A decimal digit.
fn is_digit(c: char) -> (r: bool)
    ensures
        r == is_digit_char(c),
{
    let u = c as u32;
    48 <= u && u <= 57
}

/// A hexadecimal digit, in either case.
fn is_hex(c: char) -> (r: bool)
    ensures
        r == is_hex_char(c),
{
    let u = c as u32;
    (48 <= u && u <= 57) || (65 <= u && u <= 70) || (97 <= u && u <= 102)
}

/// The unescaped form of the text from position `from` on.
fn unescape(s: &str, from: usize) -> (r: String)
    requires
        from <= s@.len(),
    ensures
        r@ == unescape_seq(s@.skip(from as int)),
{
    let n = s.unicode_len();
    let mut out = String::new();
    let mut i = from;
    while i < n
        invariant
            from <= i <= n,
            n == s@.len(),
            unescape_seq(s@.skip(from as int)) == out@ + unescape_seq(s@.skip(i as int)),
        decreases n - i,
    {
        let ghost tail = s@.skip(i as int);
        let c = s.get_char(i);
        proof {
            assert(tail[0] == c);
            assert(tail.len() == n - i);
        }
        if c == '%' && n - i > 2 {
            let c1 = s.get_char(i + 1);
            let c2 = s.get_char(i + 2);
            proof {
                assert(tail[1] == c1);
                assert(tail[2] == c2);
            }
            if is_hex(c1) && is_hex(c2) {
                let ghost out_pre = out@;
                let ghost x = ((hex_val(tail[1]) * 16 + hex_val(tail[2])) as u8) as char;
                let b = hex_value(c1) * 16 + hex_value(c2);
                out.push((b as u8) as char);
                proof {
                    assert(tail.skip(3) =~= s@.skip(i + 3));
                    assert(unescape_seq(tail) == seq![x] + unescape_seq(s@.skip(i + 3)));
                    assert(out_pre + (seq![x] + unescape_seq(s@.skip(i + 3))) =~= out@
                        + unescape_seq(s@.skip(i + 3)));
                }
                i = i + 3;
            } else {
                let ghost out_pre = out@;
                out.push(c);
                proof {
                    assert(tail.skip(1) =~= s@.skip(i + 1));
                    assert(unescape_seq(tail) == seq![c] + unescape_seq(s@.skip(i + 1)));
                    assert(out_pre + (seq![c] + unescape_seq(s@.skip(i + 1))) =~= out@
                        + unescape_seq(s@.skip(i + 1)));
                }
                i = i + 1;
            }
        } else {
            let ghost out_pre = out@;
            out.push(c);
            proof {
                assert(tail.skip(1) =~= s@.skip(i + 1));
                assert(unescape_seq(tail) == seq![c] + unescape_seq(s@.skip(i + 1)));
                assert(out_pre + (seq![c] + unescape_seq(s@.skip(i + 1))) =~= out@
                    + unescape_seq(s@.skip(i + 1)));
            }
            i = i + 1;
        }
    }
    proof {
        assert(s@.skip(n as int) =~= Seq::<char>::empty());
        assert(unescape_seq(Seq::<char>::empty()) =~= Seq::<char>::empty());
        assert(out@ =~= unescape_seq(s@.skip(from as int)));
    }
    out
}

/// The item one segment denotes, or the error for a numeric-looking
/// segment that is no valid number.
fn parse_item_str(seg: &String) -> (r: Result<PathItem, ParseError>)
    ensures
        (match r {
            Ok(it) => parse_item(seg@) == Some(it@),
            Err(e) => e == ParseError::BadInt && parse_item(seg@) is None,
        }),
{
    let text = seg.as_str();
    let n = text.unicode_len();
    if n > 0 && is_digit(text.get_char(0)) {
        let mut val: u64 = 0;
        for i in 0..n
            invariant
                n == seg@.len(),
                n > 0,
                text@ == seg@,
                is_digit_char(seg@[0]),
                all_digits(seg@.take(i as int)),
                val == dec_val(seg@.take(i as int)),
        {
            let c = text.get_char(i);
            if !is_digit(c) {
                proof {
                    assert(!is_digit_char(seg@[i as int]));
                    assert(!all_digits(seg@));
                }
                return Err(ParseError::BadInt);
            }
            let d = ((c as u32) - 48) as u64;
            let next = match val.checked_mul(10) {
                Some(v10) => v10.checked_add(d),
                None => None,
            };
            proof {
                assert(seg@.take(i + 1).drop_last() =~= seg@.take(i as int));
                assert(seg@.take(i + 1).last() == seg@[i as int]);
            }
            match next {
                Some(v) => {
                    val = v;
                },
                None => {
                    proof {
                        assert(dec_val(seg@.take(i + 1)) > u64::MAX);
                        if all_digits(seg@) {
                            lemma_dec_val_monotone(seg@, i + 1);
                        }
                    }
                    return Err(ParseError::BadInt);
                },
            }
        }
        proof {
            assert(seg@.take(n as int) =~= seg@);
        }
        Ok(PathItem::Number(val))
    } else if n > 0 && text.get_char(0) == '\'' {
        Ok(PathItem::Name(unescape(text, 1)))
    } else {
        proof {
            assert(seg@.skip(0) =~= seg@);
        }
        Ok(PathItem::Name(unescape(text, 0)))
    }
}

impl Path {
    /// The text of this path: a separator before each item, each item
    /// escaped.  The root path gives the bare separator.
    pub fn to_string(&self) -> (r: String)
        ensures
            r@ == path_text(self@),
    {
        let mut out = String::new();
        let n = self.len();
        if n == 0 {
            out.push('/');
            return out;
        }
        proof {
            assert(segments_text(self@.take(0)) =~= Seq::<char>::empty());
            assert(out@ =~= segments_text(self@.take(0)));
        }
        for i in 0..n
            invariant
                n == self@.len(),
                out@ == segments_text(self@.take(i as int)),
        {
            out.push('/');
            match self.item(i) {
                PathItem::Number(m) => push_number(&mut out, *m),
                PathItem::Name(s) => {
                    let text = s.as_str();
                    let quoted = if text.unicode_len() > 0 {
                        let c0 = text.get_char(0);
                        let u0 = c0 as u32;
                        (48 <= u0 && u0 <= 57) || c0 == '\''
                    } else {
                        true
                    };
                    if quoted {
                        out.push('\'');
                    }
                    push_escaped(&mut out, text);
                },
            }
            proof {
                assert(self@.take(i + 1) =~= self@.take(i as int).push(self@[i as int]));
                lemma_segments_text_push(self@.take(i as int), self@[i as int]);
                assert(out@ =~= segments_text(self@.take(i + 1)));
            }
        }
        proof {
            assert(self@.take(n as int) =~= self@);
        }
        out
    }

    /// Parse the text of a path.  The text must begin with the separator;
    /// the bare separator is the root path, and each following segment
    /// becomes one item.  `NoRoot` reports a missing separator, `BadInt` a
    /// numeric-looking segment that is no valid number, and these are the
    /// only errors.
    pub fn from_str(s: &str) -> (r: Result<Path, ParseError>)
        ensures
            (match r {
                Ok(p) => parse_path(s@) == Some(p@),
                Err(ParseError::NoRoot) => s@.len() == 0 || s@[0] != '/',
                Err(ParseError::BadInt) => s@.len() > 0 && s@[0] == '/' && parse_path(s@) is None,
            }),
    {
        let n = s.unicode_len();
        if n == 0 {
            return Err(ParseError::NoRoot);
        }
        if s.get_char(0) != '/' {
            return Err(ParseError::NoRoot);
        }
        if n == 1 {
            let root = Path::root();
            proof {
                assert(parse_path(s@) == Some(root@));
            }
            return Ok(root);
        }
        let mut path = Path::root();
        let mut seg = String::new();
        let ghost mut g: int = 1;
        let mut i: usize = 1;
        proof {
            assert(seg@ =~= s@.subrange(1, 1));
            match parse_segments(s@.skip(1)) {
                Some(rest) => {
                    assert(path@ + rest =~= rest);
                },
                None => (),
            }
        }
        while i < n
            invariant
                1 <= g <= i <= n,
                n == s@.len(),
                s@[0] == '/',
                seg@ == s@.subrange(g, i as int),
                forall|j: int| g <= j < i ==> s@[j] != '/',
                (match parse_segments(s@.skip(g)) {
                    Some(rest) => parse_segments(s@.skip(1)) == Some(path@ + rest),
                    None => parse_segments(s@.skip(1)) is None,
                }),
            decreases n - i,
        {
            let c = s.get_char(i);
            if c == '/' {
                let ghost tail = s@.skip(g);
                let ghost k = i - g;
                proof {
                    assert(forall|j: int| 0 <= j < tail.len() ==> tail[j] == s@[j + g]);
                    assert(tail[k] == s@[i as int]);
                    lemma_first_slash_is(tail, k);
                    assert(tail.take(k) =~= seg@);
                    assert(tail.skip(k + 1) =~= s@.skip(i + 1));
                }
                match parse_item_str(&seg) {
                    Ok(it) => {
                        let ghost pre_path = path@;
                        let ghost itv = it@;
                        path.push(it);
                        proof {
                            match parse_segments(s@.skip(i + 1)) {
                                Some(rest2) => {
                                    assert(parse_segments(tail) == Some(seq![itv] + rest2));
                                    assert(pre_path + (seq![itv] + rest2) =~= path@ + rest2);
                                },
                                None => {
                                    assert(parse_segments(tail) is None);
                                },
                            }
                            g = i + 1;
                        }
                        seg = String::new();
                        proof {
                            assert(seg@ =~= s@.subrange(i + 1, i + 1));
                        }
                    },
                    Err(e) => {
                        proof {
                            assert(parse_segments(tail) is None);
                        }
                        return Err(e);
                    },
                }
            } else {
                seg.push(c);
                proof {
                    assert(s@.subrange(g, i + 1) =~= s@.subrange(g, i as int).push(
                        s@[i as int],
                    ));
                }
            }
            i = i + 1;
        }
        let ghost tail = s@.skip(g);
        let ghost k = n - g;
        proof {
            assert(forall|j: int| 0 <= j < tail.len() ==> tail[j] == s@[j + g]);
            lemma_first_slash_is(tail, k);
            assert(tail.take(k) =~= seg@);
        }
        match parse_item_str(&seg) {
            Ok(it) => {
                let ghost pre_path = path@;
                let ghost itv = it@;
                path.push(it);
                proof {
                    assert(parse_segments(tail) == Some(seq![itv]));
                    assert(pre_path + seq![itv] =~= path@);
                }
                Ok(path)
            },
            Err(e) => {
                proof {
                    assert(parse_segments(tail) is None);
                }
                Err(e)
            },
        }
    }
}

} // verus!
