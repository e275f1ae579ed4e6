//! Character-level helpers: UTF-8 widths, decimal rendering, and the two
//! Unicode character classes that emphasis flanking depends on.

use vstd::prelude::*;
use vstd::utf8::*;

verus! {

broadcast use vstd::seq::group_seq_axioms;

/// Number of bytes in the UTF-8 encoding of `c`.
pub open spec fn char_width(c: char) -> int {
    let v = c as u32;
    if v <= 0x7F {
        1
    } else if v <= 0x7FF {
        2
    } else if v <= 0xFFFF {
        3
    } else {
        4
    }
}

/// Number of bytes in the UTF-8 encoding of a character sequence.
pub open spec fn utf8_len(s: Seq<char>) -> int
    decreases s.len(),
{
    if s.len() == 0 {
        0
    } else {
        utf8_len(s.drop_last()) + char_width(s.last())
    }
}

pub proof fn lemma_char_width_bounds(c: char)
    ensures
        1 <= char_width(c) <= 4,
        char_width(c) == 1 <==> (c as u32) < 0x80,
{
}

pub proof fn lemma_encode_scalar_len(c: char)
    ensures
        encode_scalar(c as u32).len() == char_width(c),
{
    broadcast use char_is_scalar;

    assert(is_scalar(c as u32));
}

pub proof fn lemma_utf8_len_concat(a: Seq<char>, b: Seq<char>)
    ensures
        utf8_len(a + b) == utf8_len(a) + utf8_len(b),
    decreases b.len(),
{
    if b.len() == 0 {
        assert(a + b =~= a);
    } else {
        lemma_utf8_len_concat(a, b.drop_last());
        assert((a + b).drop_last() =~= a + b.drop_last());
        assert((a + b).last() == b.last());
    }
}

pub proof fn lemma_utf8_len_nonneg(s: Seq<char>)
    ensures
        0 <= utf8_len(s),
        s.len() <= utf8_len(s),
    decreases s.len(),
{
    if s.len() > 0 {
        lemma_utf8_len_nonneg(s.drop_last());
        lemma_char_width_bounds(s.last());
    }
}

pub proof fn lemma_utf8_len_push(s: Seq<char>, c: char)
    ensures
        utf8_len(s.push(c)) == utf8_len(s) + char_width(c),
{
    assert(s.push(c).drop_last() =~= s);
}

pub proof fn lemma_utf8_len_single(c: char)
    ensures
        utf8_len(seq![c]) == char_width(c),
{
    assert(seq![c].drop_last() =~= Seq::<char>::empty());
    assert(utf8_len(Seq::<char>::empty()) == 0);
    assert(seq![c].last() == c);
}

pub proof fn lemma_utf8_len_prefix(s: Seq<char>, i: int)
    requires
        0 <= i <= s.len(),
    ensures
        utf8_len(s.take(i)) <= utf8_len(s),
        utf8_len(s.take(i)) + utf8_len(s.skip(i)) == utf8_len(s),
{
    lemma_utf8_len_concat(s.take(i), s.skip(i));
    assert(s.take(i) + s.skip(i) =~= s);
    lemma_utf8_len_nonneg(s.skip(i));
}

/// The byte length of a character sequence is the length of its UTF-8 encoding.
pub proof fn lemma_utf8_len_encode(s: Seq<char>)
    ensures
        utf8_len(s) == encode_utf8(s).len(),
    decreases s.len(),
{
    if s.len() > 0 {
        lemma_utf8_len_encode(s.drop_first());
        lemma_encode_scalar_len(s[0]);
        lemma_utf8_len_concat(seq![s[0]], s.drop_first());
        assert(seq![s[0]] + s.drop_first() =~= s);
        lemma_utf8_len_single(s[0]);
    }
}

/// Byte length of `s` (`str::len`).
pub fn str_byte_len(s: &str) -> (r: usize)
    ensures
        r as int == utf8_len(s@),
{
    broadcast use vstd::slice::group_slice_axioms;

    let b = s.as_bytes();
    proof {
        lemma_utf8_len_encode(s@);
    }
    b.len()
}

/// `char::len_utf8`: the number of bytes `c` needs in UTF-8.
pub fn char_len_utf8(c: char) -> (r: usize)
    ensures
        r as int == char_width(c),
{
    let v = c as u32;
    if v <= 0x7F {
        1
    } else if v <= 0x7FF {
        2
    } else if v <= 0xFFFF {
        3
    } else {
        4
    }
}

/// `String::push`. Its documentation says that it appends the given `char`
/// to the end of the `String`; the contract claims that the characters of
/// `s` afterwards are those before, followed by `c`.
#[verifier::external_body]
pub(crate) fn push_char(s: &mut String, c: char)
    ensures
        final(s)@ == old(s)@.push(c),
{
    s.push(c);
}

/// Builds a `String` holding exactly the characters of `v`.
pub fn string_from_chars(v: &Vec<char>) -> (r: String)
    ensures
        r@ == v@,
{
    let mut r = String::new();
    let mut i: usize = 0;
    while i < v.len()
        invariant
            i <= v.len(),
            r@ == v@.take(i as int),
        decreases v.len() - i,
    {
        push_char(&mut r, v[i]);
        assert(v@.take(i + 1) =~= v@.take(i as int).push(v@[i as int]));
        i = i + 1;
    }
    assert(v@.take(v.len() as int) =~= v@);
    r
}

/// The characters of a `&str`.
pub fn chars_of(s: &str) -> (r: Vec<char>)
    ensures
        r@ == s@,
{
    let mut r: Vec<char> = Vec::new();
    for c in it: s.chars()
        invariant
            r@ == it.seq().take(it.index() as int),
            it.seq() == s@,
    {
        r.push(c);
    }
    r
}

/// The first character of `s`, if any.
pub fn first_char(s: &str) -> (r: Option<char>)
    ensures
        s@.len() == 0 ==> r is None,
        s@.len() > 0 ==> r == Some(s@[0]),
{
    let mut r: Option<char> = None;
    for c in it: s.chars()
        invariant
            it.seq() == s@,
            it.index() == 0 ==> r is None,
            it.index() > 0 ==> r == Some(s@[0]),
    {
        if r.is_none() {
            r = Some(c);
        }
    }
    r
}

/// The last character of `s`, if any.
pub fn last_char(s: &str) -> (r: Option<char>)
    ensures
        s@.len() == 0 ==> r is None,
        s@.len() > 0 ==> r == Some(s@.last()),
{
    let mut r: Option<char> = None;
    for c in it: s.chars()
        invariant
            it.seq() == s@,
            it.index() == 0 ==> r is None,
            it.index() > 0 ==> r == Some(s@[it.index() - 1]),
    {
        r = Some(c);
    }
    r
}

/// `b` is the byte offset of a character boundary of `s`.
pub open spec fn is_char_boundary(s: Seq<char>, b: int) -> bool {
    exists|k: int| 0 <= k <= s.len() && #[trigger] utf8_len(s.take(k)) == b
}

/// The number of characters of `s` before byte offset `b`.
pub open spec fn char_index(s: Seq<char>, b: int) -> int {
    choose|k: int| 0 <= k <= s.len() && #[trigger] utf8_len(s.take(k)) == b
}

/// The characters of `s` between byte offsets `a` and `b`.
pub open spec fn byte_slice(s: Seq<char>, a: int, b: int) -> Seq<char> {
    s.subrange(char_index(s, a), char_index(s, b))
}

/// Longer prefixes take more bytes.
pub proof fn lemma_prefix_bytes_increase(s: Seq<char>, a: int, b: int)
    requires
        0 <= a < b <= s.len(),
    ensures
        utf8_len(s.take(a)) < utf8_len(s.take(b)),
    decreases b - a,
{
    lemma_char_width_bounds(s[b - 1]);
    assert(s.take(b - 1).push(s[b - 1]) =~= s.take(b));
    lemma_utf8_len_push(s.take(b - 1), s[b - 1]);
    if a < b - 1 {
        lemma_prefix_bytes_increase(s, a, b - 1);
    }
}

/// The character index of a boundary is the one prefix that takes that many
/// bytes.
pub proof fn lemma_char_index(s: Seq<char>, k: int)
    requires
        0 <= k <= s.len(),
    ensures
        is_char_boundary(s, utf8_len(s.take(k))),
        char_index(s, utf8_len(s.take(k))) == k,
{
    let b = utf8_len(s.take(k));
    assert(utf8_len(s.take(k)) == b);
    let c = char_index(s, b);
    if c < k {
        lemma_prefix_bytes_increase(s, c, k);
    } else if c > k {
        lemma_prefix_bytes_increase(s, k, c);
    }
}

/// Appends the characters `s[ci..]` that lie before byte `target`, moving
/// `ci` and `cb` (the byte offset of `ci`) up to `target`.
pub fn copy_until(s: &Vec<char>, out: &mut String, ci: &mut usize, cb: &mut usize, target: usize)
    requires
        *old(ci) <= s@.len(),
        *old(cb) as int == utf8_len(s@.take(*old(ci) as int)),
        *old(cb) <= target,
        is_char_boundary(s@, target as int),
    ensures
        *final(ci) as int == char_index(s@, target as int),
        *final(cb) == target,
        *final(cb) as int == utf8_len(s@.take(*final(ci) as int)),
        *final(ci) <= s@.len(),
        final(out)@ == old(out)@ + s@.subrange(*old(ci) as int, *final(ci) as int),
{
    let ghost k = char_index(s@, target as int);
    proof {
        if k < *ci {
            lemma_prefix_bytes_increase(s@, k, *ci as int);
        }
    }
    while *cb < target
        invariant
            *old(ci) <= *ci <= k <= s@.len(),
            *cb as int == utf8_len(s@.take(*ci as int)),
            *cb <= target,
            utf8_len(s@.take(k)) == target,
            out@ == old(out)@ + s@.subrange(*old(ci) as int, *ci as int),
        decreases k - *ci,
    {
        proof {
            if *ci == k {
                assert(false);
            }
            assert(*ci < k);
            assert(k <= s.len());
            lemma_prefix_bytes_increase(s@, *ci as int, k);
            assert(s@.take(*ci + 1) =~= s@.take(*ci as int).push(s@[*ci as int]));
            lemma_utf8_len_push(s@.take(*ci as int), s@[*ci as int]);
            if *ci + 1 < k {
                lemma_prefix_bytes_increase(s@, *ci + 1, k);
            }
        }
        let c = s[*ci];
        push_char(out, c);
        *cb = *cb + char_len_utf8(c);
        proof {
            assert(s@.subrange(*old(ci) as int, *ci + 1) =~= s@.subrange(*old(ci) as int, *ci as int).push(c));
        }
        *ci = *ci + 1;
    }
    proof {
        if *ci < k {
            lemma_prefix_bytes_increase(s@, *ci as int, k);
        }
        lemma_char_index(s@, *ci as int);
    }
}

/// The decimal digit character for `d < 10`.
pub open spec fn digit_char(d: nat) -> char {
    ((d + 48) as u32) as char
}

/// Decimal representation of a natural number, as `{}` writes it.
pub open spec fn decimal(n: nat) -> Seq<char>
    decreases n,
{
    if n < 10 {
        seq![digit_char(n)]
    } else {
        decimal(n / 10).push(digit_char(n % 10))
    }
}

/// Writes `n` in decimal, as `format!("{}", n)` does.
pub fn usize_to_decimal(n: usize) -> (r: String)
    ensures
        r@ == decimal(n as nat),
    decreases n,
{
    if n < 10 {
        let mut r = String::new();
        let d: u32 = (n as u32) + 48;
        push_char(&mut r, char_from_digit(d));
        r
    } else {
        let mut r = usize_to_decimal(n / 10);
        let d: u32 = ((n % 10) as u32) + 48;
        push_char(&mut r, char_from_digit(d));
        r
    }
}

fn char_from_digit(d: u32) -> (c: char)
    requires
        48 <= d <= 57,
    ensures
        c == (d as char),
{
    match d {
        48 => '0',
        49 => '1',
        50 => '2',
        51 => '3',
        52 => '4',
        53 => '5',
        54 => '6',
        55 => '7',
        56 => '8',
        _ => '9',
    }
}

/// The Unicode `White_Space` property of a character (what `char::is_whitespace`
/// reports): tab, line feed, vertical tab, form feed, carriage return, space,
/// next line, no-break space, ogham space mark, the spaces U+2000 to U+200A,
/// line and paragraph separators, narrow no-break space, medium mathematical
/// space and ideographic space.
pub open spec fn unicode_whitespace(c: char) -> bool {
    let v = c as u32;
    (0x09 <= v <= 0x0D) || v == 0x20 || v == 0x85 || v == 0xA0 || v == 0x1680 || (0x2000 <= v
        <= 0x200A) || v == 0x2028 || v == 0x2029 || v == 0x202F || v == 0x205F || v == 0x3000
}

/// The Unicode alphabetic-or-numeric class of a character (what `char::is_alphanumeric` reports).
pub uninterp spec fn unicode_alphanumeric(c: char) -> bool;

/// Whether `c` has the Unicode `White_Space` property, as
/// `char::is_whitespace` reports.
pub fn is_whitespace(c: char) -> (r: bool)
    ensures
        r == unicode_whitespace(c),
{
    let v = c as u32;
    (0x09 <= v && v <= 0x0D) || v == 0x20 || v == 0x85 || v == 0xA0 || v == 0x1680 || (0x2000 <= v
        && v <= 0x200A) || v == 0x2028 || v == 0x2029 || v == 0x202F || v == 0x205F || v == 0x3000
}

/// An ASCII letter or digit.
pub open spec fn ascii_alphanumeric(c: char) -> bool {
    ('0' <= c && c <= '9') || ('a' <= c && c <= 'z') || ('A' <= c && c <= 'Z')
}

/// `char::is_alphanumeric`. Its documentation defines the result as "alphabetic or
/// numeric" by the Unicode tables, a function of `c` alone; the result is given the
/// name `unicode_alphanumeric`. Within ASCII the Unicode classes `Alphabetic` and
/// `Numeric` hold exactly the letters and the digits, which the contract states; the
/// tables beyond ASCII are not restated.
#[verifier::external_body]
pub(crate) fn is_alphanumeric(c: char) -> (r: bool)
    ensures
        r == unicode_alphanumeric(c),
        (c as u32) < 0x80 ==> (r <==> ascii_alphanumeric(c)),
{
    c.is_alphanumeric()
}

} // verus!
