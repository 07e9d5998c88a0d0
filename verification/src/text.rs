//! Byte-level facts about UTF-8 source text: white space, trimming, char
//! boundaries, and decimal numerals.
use vstd::prelude::*;
use vstd::utf8::*;

verus! {

/// `u8::is_ascii_whitespace`: space, tab, line feed, form feed, carriage return.
pub open spec fn is_ascii_space(b: u8) -> bool {
    b == 0x20 || b == 0x09 || b == 0x0A || b == 0x0C || b == 0x0D
}

/// Length in bytes of the white-space character (`char::is_whitespace`, the
/// Unicode `White_Space` property) that the UTF-8 text `t` starts with, or 0
/// when it starts with none.
pub open spec fn white_prefix(t: Seq<u8>) -> int {
    if t.len() >= 1 && ((0x09 <= t[0] && t[0] <= 0x0D) || t[0] == 0x20) {
        1
    } else if t.len() >= 2 && t[0] == 0xC2 && (t[1] == 0x85 || t[1] == 0xA0) {
        2
    } else if t.len() >= 3 && is_white3(t[0], t[1], t[2]) {
        3
    } else {
        0
    }
}

/// Length in bytes of the white-space character that the UTF-8 text `t` ends
/// with, or 0 when it ends with none.
pub open spec fn white_suffix(t: Seq<u8>) -> int {
    let n = t.len() as int;
    if n >= 1 && ((0x09 <= t[n - 1] && t[n - 1] <= 0x0D) || t[n - 1] == 0x20) {
        1
    } else if n >= 2 && t[n - 2] == 0xC2 && (t[n - 1] == 0x85 || t[n - 1] == 0xA0) {
        2
    } else if n >= 3 && is_white3(t[n - 3], t[n - 2], t[n - 1]) {
        3
    } else {
        0
    }
}

/// The three-byte encodings of white space: U+1680, U+2000..U+200A, U+2028,
/// U+2029, U+202F, U+205F and U+3000.
pub open spec fn is_white3(a: u8, b: u8, c: u8) -> bool {
    (a == 0xE1 && b == 0x9A && c == 0x80)
    || (a == 0xE2 && b == 0x80 && ((0x80 <= c && c <= 0x8A) || c == 0xA8 || c == 0xA9 || c == 0xAF))
    || (a == 0xE2 && b == 0x81 && c == 0x9F)
    || (a == 0xE3 && b == 0x80 && c == 0x80)
}

/// Bytes that `str::trim_start` removes from `t`.
pub open spec fn leading_white(t: Seq<u8>) -> int
    decreases t.len(),
{
    if white_prefix(t) > 0 {
        white_prefix(t) + leading_white(t.skip(white_prefix(t)))
    } else {
        0
    }
}

/// Bytes that `str::trim_end` removes from `t`.
pub open spec fn trailing_white(t: Seq<u8>) -> int
    decreases t.len(),
{
    if white_suffix(t) > 0 {
        white_suffix(t) + trailing_white(t.take(t.len() - white_suffix(t)))
    } else {
        0
    }
}

pub(crate) proof fn lemma_leading_white_bounds(t: Seq<u8>)
    ensures
        0 <= leading_white(t) <= t.len(),
    decreases t.len(),
{
    if white_prefix(t) > 0 {
        lemma_leading_white_bounds(t.skip(white_prefix(t)));
    }
}

pub(crate) proof fn lemma_trailing_white_bounds(t: Seq<u8>)
    ensures
        0 <= trailing_white(t) <= t.len(),
    decreases t.len(),
{
    if white_suffix(t) > 0 {
        lemma_trailing_white_bounds(t.take(t.len() - white_suffix(t)));
    }
}

/// `white_prefix` of `b[i..end]`.
fn white_prefix_at(b: &[u8], i: usize, end: usize) -> (n: usize)
    requires
        i <= end <= b@.len(),
    ensures
        n == white_prefix(b@.subrange(i as int, end as int)),
{
    let ghost t = b@.subrange(i as int, end as int);
    if i < end && ((0x09 <= b[i] && b[i] <= 0x0D) || b[i] == 0x20) {
        1
    } else if end - i >= 2 && b[i] == 0xC2 && (b[i + 1] == 0x85 || b[i + 1] == 0xA0) {
        2
    } else if end - i >= 3 && white3(b[i], b[i + 1], b[i + 2]) {
        3
    } else {
        0
    }
}

/// `white_suffix` of `b[start..j]`.
fn white_suffix_at(b: &[u8], start: usize, j: usize) -> (n: usize)
    requires
        start <= j <= b@.len(),
    ensures
        n == white_suffix(b@.subrange(start as int, j as int)),
{
    let ghost t = b@.subrange(start as int, j as int);
    if j - start >= 1 && ((0x09 <= b[j - 1] && b[j - 1] <= 0x0D) || b[j - 1] == 0x20) {
        1
    } else if j - start >= 2 && b[j - 2] == 0xC2 && (b[j - 1] == 0x85 || b[j - 1] == 0xA0) {
        2
    } else if j - start >= 3 && white3(b[j - 3], b[j - 2], b[j - 1]) {
        3
    } else {
        0
    }
}

fn white3(a: u8, b: u8, c: u8) -> (r: bool)
    ensures
        r == is_white3(a, b, c),
{
    (a == 0xE1 && b == 0x9A && c == 0x80) || (a == 0xE2 && b == 0x80 && ((0x80 <= c && c <= 0x8A)
        || c == 0xA8 || c == 0xA9 || c == 0xAF)) || (a == 0xE2 && b == 0x81 && c == 0x9F) || (a
        == 0xE3 && b == 0x80 && c == 0x80)
}

/// Whether `b[i..end]` starts with a white-space character.
pub fn starts_with_white(b: &[u8], i: usize, end: usize) -> (r: bool)
    requires
        i <= end <= b@.len(),
    ensures
        r == (white_prefix(b@.subrange(i as int, end as int)) > 0),
{
    white_prefix_at(b, i, end) > 0
}

/// Whether `b[start..j]` ends with a white-space character.
pub fn ends_with_white(b: &[u8], start: usize, j: usize) -> (r: bool)
    requires
        start <= j <= b@.len(),
    ensures
        r == (white_suffix(b@.subrange(start as int, j as int)) > 0),
{
    white_suffix_at(b, start, j) > 0
}

/// Bytes that `trim_start` removes from `b[start..end]`.
pub fn leading_white_len(b: &[u8], start: usize, end: usize) -> (n: usize)
    requires
        start <= end <= b@.len(),
    ensures
        n == leading_white(b@.subrange(start as int, end as int)),
        n <= end - start,
{
    let mut i = start;
    while i < end
        invariant
            start <= i <= end <= b@.len(),
            leading_white(b@.subrange(start as int, end as int)) == (i - start) + leading_white(
                b@.subrange(i as int, end as int),
            ),
        ensures
            start <= i <= end,
            leading_white(b@.subrange(start as int, end as int)) == (i - start) + leading_white(
                b@.subrange(i as int, end as int),
            ),
            white_prefix(b@.subrange(i as int, end as int)) == 0,
        decreases end - i,
    {
        let w = white_prefix_at(b, i, end);
        if w == 0 {
            break;
        }
        proof {
            let t = b@.subrange(i as int, end as int);
            assert(t.skip(w as int) =~= b@.subrange(i + w, end as int));
        }
        i = i + w;
    }
    proof {
        lemma_leading_white_bounds(b@.subrange(start as int, end as int));
    }
    i - start
}

/// Bytes that `trim_end` removes from `b[start..end]`.
pub fn trailing_white_len(b: &[u8], start: usize, end: usize) -> (n: usize)
    requires
        start <= end <= b@.len(),
    ensures
        n == trailing_white(b@.subrange(start as int, end as int)),
        n <= end - start,
{
    let mut j = end;
    while j > start
        invariant
            start <= j <= end <= b@.len(),
            trailing_white(b@.subrange(start as int, end as int)) == (end - j) + trailing_white(
                b@.subrange(start as int, j as int),
            ),
        ensures
            start <= j <= end,
            trailing_white(b@.subrange(start as int, end as int)) == (end - j) + trailing_white(
                b@.subrange(start as int, j as int),
            ),
            white_suffix(b@.subrange(start as int, j as int)) == 0,
        decreases j - start,
    {
        let w = white_suffix_at(b, start, j);
        if w == 0 {
            break;
        }
        proof {
            let t = b@.subrange(start as int, j as int);
            assert(t.take(t.len() - w) =~= b@.subrange(start as int, j - w));
        }
        j = j - w;
    }
    proof {
        lemma_trailing_white_bounds(b@.subrange(start as int, end as int));
    }
    end - j
}

/// Occurrences of the byte `b` in `t`.
pub open spec fn count_byte(t: Seq<u8>, b: u8) -> nat
    decreases t.len(),
{
    if t.len() == 0 {
        0
    } else {
        count_byte(t.drop_last(), b) + if t.last() == b {
            1nat
        } else {
            0nat
        }
    }
}

/// Where the line holding byte `i` begins.
pub open spec fn line_start(src: Seq<u8>, i: int) -> int
    decreases i,
{
    if i <= 0 {
        0
    } else if src[i - 1] == 0x0A {
        i
    } else {
        line_start(src, i - 1)
    }
}

/// Where the line holding byte `i` begins.
pub fn find_line_start(bytes: &[u8], i: usize) -> (r: usize)
    requires
        i <= bytes@.len(),
    ensures
        r == line_start(bytes@, i as int),
        r <= i,
{
    let mut begin = i;
    while begin > 0 && bytes[begin - 1] != 0x0A
        invariant
            begin <= i <= bytes@.len(),
            line_start(bytes@, i as int) == line_start(bytes@, begin as int),
        decreases begin,
    {
        begin = begin - 1;
    }
    begin
}

/// Occurrences of the byte `b` in `bytes[from..to]`.
pub fn count_in(bytes: &[u8], from: usize, to: usize, b: u8) -> (r: usize)
    requires
        from <= to <= bytes@.len(),
    ensures
        r == count_byte(bytes@.subrange(from as int, to as int), b),
        r <= to - from,
{
    let mut k = from;
    let mut r: usize = 0;
    assert(bytes@.subrange(from as int, from as int).len() == 0);
    while k < to
        invariant
            from <= k <= to <= bytes@.len(),
            r == count_byte(bytes@.subrange(from as int, k as int), b),
            r <= k - from,
        decreases to - k,
    {
        assert(bytes@.subrange(from as int, k + 1).drop_last() =~= bytes@.subrange(
            from as int,
            k as int,
        ));
        if bytes[k] == b {
            r = r + 1;
        }
        k = k + 1;
    }
    r
}

/// `String::push`. Claimed: the character is appended.
#[verifier::external_body]
pub(crate) fn push_char(s: &mut String, c: char)
    ensures
        final(s)@ == old(s)@.push(c),
{
    s.push(c)
}

/// The decimal numeral of `n`.
pub open spec fn decimal(n: nat) -> Seq<char>
    decreases n,
{
    if n < 10 {
        seq![digit(n)]
    } else {
        decimal(n / 10).push(digit(n % 10))
    }
}

pub open spec fn digit(d: nat) -> char {
    (('0' as u32) + d) as char
}

fn digit_char(d: usize) -> (c: char)
    requires
        d < 10,
    ensures
        c == digit(d as nat),
{
    let c: char = match d {
        0 => '0',
        1 => '1',
        2 => '2',
        3 => '3',
        4 => '4',
        5 => '5',
        6 => '6',
        7 => '7',
        8 => '8',
        _ => '9',
    };
    c
}

/// Appends the decimal numeral of `n` to `s`.
pub fn push_decimal(s: &mut String, n: usize)
    ensures
        final(s)@ == old(s)@ + decimal(n as nat),
    decreases n,
{
    if n >= 10 {
        push_decimal(s, n / 10);
    }
    push_char(s, digit_char(n % 10));
}

} // verus!
