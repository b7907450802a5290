//! The 512-byte header block: field layout, text truncation, octal fields and
//! the header checksum.
use vstd::prelude::*;
use vstd::slice::slice_subrange;

verus! {

/// Size of one block of the archive; headers and data regions are aligned to it.
pub const BLOCK_SIZE: u64 = 512;

/// Byte ranges of the header fields used by the reader.
pub const NAME_START: usize = 0;
pub const NAME_LEN: usize = 100;
pub const SIZE_START: usize = 124;
pub const SIZE_LEN: usize = 12;
pub const CKSUM_START: usize = 148;
pub const CKSUM_LEN: usize = 8;

/// Number of leading elements of `s` that satisfy `p`.
pub open spec fn span_while(s: Seq<u8>, p: spec_fn(u8) -> bool) -> nat
    decreases s.len(),
{
    if s.len() > 0 && p(s[0]) {
        1 + span_while(s.drop_first(), p)
    } else {
        0
    }
}

pub open spec fn is_not_nul(b: u8) -> bool {
    b != 0
}

/// The one-byte whitespace characters: tab, newline, vertical tab, form feed,
/// carriage return and space.
pub open spec fn is_space(b: u8) -> bool {
    (9 <= b <= 13) || b == 32
}

/// The three-byte UTF-8 encodings of whitespace characters: U+1680,
/// U+2000 to U+200A, U+2028, U+2029, U+202F, U+205F and U+3000.
pub open spec fn is_space3(a: u8, b: u8, c: u8) -> bool {
    ||| (a == 0xE1 && b == 0x9A && c == 0x80)
    ||| (a == 0xE2 && b == 0x80 && ((0x80 <= c <= 0x8A) || c == 0xA8 || c == 0xA9 || c == 0xAF))
    ||| (a == 0xE2 && b == 0x81 && c == 0x9F)
    ||| (a == 0xE3 && b == 0x80 && c == 0x80)
}

/// The two-byte UTF-8 encodings of whitespace characters: U+0085 and U+00A0.
pub open spec fn is_space2(a: u8, b: u8) -> bool {
    a == 0xC2 && (b == 0x85 || b == 0xA0)
}

/// The length of the UTF-8 encoded whitespace character (Unicode's
/// White_Space, as `char::is_whitespace` has it) that `s` starts with, or 0.
pub open spec fn lead_space_len(s: Seq<u8>) -> nat {
    if s.len() >= 1 && is_space(s[0]) {
        1
    } else if s.len() >= 2 && is_space2(s[0], s[1]) {
        2
    } else if s.len() >= 3 && is_space3(s[0], s[1], s[2]) {
        3
    } else {
        0
    }
}

/// The length of the UTF-8 encoded whitespace character that `s` ends with, or 0.
pub open spec fn trail_space_len(s: Seq<u8>) -> nat {
    let n = s.len();
    if n >= 1 && is_space(s[n - 1]) {
        1
    } else if n >= 2 && is_space2(s[n - 2], s[n - 1]) {
        2
    } else if n >= 3 && is_space3(s[n - 3], s[n - 2], s[n - 1]) {
        3
    } else {
        0
    }
}

/// `s` without its leading whitespace characters.
pub open spec fn trim_start(s: Seq<u8>) -> Seq<u8>
    decreases s.len(),
{
    if lead_space_len(s) > 0 {
        trim_start(s.skip(lead_space_len(s) as int))
    } else {
        s
    }
}

/// `s` without its trailing whitespace characters.
pub open spec fn trim_end(s: Seq<u8>) -> Seq<u8>
    decreases s.len(),
{
    if trail_space_len(s) > 0 {
        trim_end(s.take(s.len() - trail_space_len(s)))
    } else {
        s
    }
}

pub open spec fn is_octal_digit(b: u8) -> bool {
    48 <= b <= 55
}

/// A text field cut at its first NUL byte.
pub open spec fn trunc(s: Seq<u8>) -> Seq<u8> {
    s.take(span_while(s, |b: u8| is_not_nul(b)) as int)
}

/// A field with surrounding whitespace removed, as `str::trim` removes it from
/// the field's text.
pub open spec fn trim(s: Seq<u8>) -> Seq<u8> {
    trim_end(trim_start(s))
}

/// The value of a string of octal digits.
pub open spec fn octal_value(s: Seq<u8>) -> nat
    decreases s.len(),
{
    if s.len() == 0 {
        0
    } else {
        octal_value(s.drop_last()) * 8 + (s.last() - 48) as nat
    }
}

pub open spec fn all_octal(s: Seq<u8>) -> bool {
    forall|i: int| 0 <= i < s.len() ==> is_octal_digit(#[trigger] s[i])
}

/// Base-8 reading of a number: an optional `+`, then one or more octal digits.
pub open spec fn parse_octal(s: Seq<u8>) -> Option<nat> {
    let d = if s.len() > 0 && s[0] == 43 { s.drop_first() } else { s };
    if d.len() > 0 && all_octal(d) {
        Some(octal_value(d))
    } else {
        None
    }
}

pub open spec fn field(b: Seq<u8>, start: int, len: int) -> Seq<u8> {
    b.subrange(start, start + len)
}

/// The entry's name: the name field cut at its first NUL.
pub open spec fn header_name(b: Seq<u8>) -> Seq<u8> {
    trunc(field(b, NAME_START as int, NAME_LEN as int))
}

/// The entry's size as the size field states it (cut at NUL, not trimmed).
pub open spec fn header_size(b: Seq<u8>) -> Option<nat> {
    parse_octal(trunc(field(b, SIZE_START as int, SIZE_LEN as int)))
}

/// The checksum that the header states (cut at NUL, then trimmed).
pub open spec fn header_cksum(b: Seq<u8>) -> Option<nat> {
    parse_octal(trim(trunc(field(b, CKSUM_START as int, CKSUM_LEN as int))))
}

pub open spec fn byte_sum(s: Seq<u8>) -> nat
    decreases s.len(),
{
    if s.len() == 0 {
        0
    } else {
        byte_sum(s.drop_last()) + s.last() as nat
    }
}

/// The checksum of a header block: every byte outside the checksum field,
/// plus eight spaces standing for the field itself.
pub open spec fn header_sum(b: Seq<u8>) -> nat {
    byte_sum(b.take(CKSUM_START as int)) + byte_sum(b.skip((CKSUM_START + CKSUM_LEN) as int))
        + 32 * 8
}

/// A block that the reader accepts as a header.
pub open spec fn header_valid(b: Seq<u8>) -> bool {
    &&& header_cksum(b) == Some(header_sum(b))
    &&& header_size(b) is Some
}

pub proof fn lemma_span_while(s: Seq<u8>, p: spec_fn(u8) -> bool, i: int)
    requires
        0 <= i <= s.len(),
        forall|j: int| 0 <= j < i ==> p(#[trigger] s[j]),
        i == s.len() || !p(s[i]),
    ensures
        span_while(s, p) == i,
    decreases i,
{
    if i > 0 {
        assert(p(s[0]));
        assert forall|j: int| 0 <= j < i - 1 implies p(#[trigger] s.drop_first()[j]) by {
            assert(p(s[j + 1]));
        }
        lemma_span_while(s.drop_first(), p, i - 1);
    }
}

pub proof fn lemma_span_while_le(s: Seq<u8>, p: spec_fn(u8) -> bool)
    ensures
        span_while(s, p) <= s.len(),
    decreases s.len(),
{
    if s.len() > 0 {
        lemma_span_while_le(s.drop_first(), p);
    }
}

pub open spec fn pow8(n: nat) -> nat
    decreases n,
{
    if n == 0 {
        1
    } else {
        8 * pow8((n - 1) as nat)
    }
}

pub proof fn lemma_octal_bound(s: Seq<u8>)
    requires
        all_octal(s),
    ensures
        octal_value(s) < pow8(s.len()),
    decreases s.len(),
{
    if s.len() > 0 {
        let t = s.drop_last();
        assert(all_octal(t)) by {
            assert forall|i: int| 0 <= i < t.len() implies is_octal_digit(#[trigger] t[i]) by {
                assert(is_octal_digit(s[i]));
            }
        }
        assert(is_octal_digit(s[s.len() - 1]));
        lemma_octal_bound(t);
    }
}

/// The part of `slice` before its first NUL byte.
pub fn truncate(slice: &[u8]) -> (r: &[u8])
    ensures
        r@ == trunc(slice@),
        r@.len() <= slice@.len(),
{
    let mut i: usize = 0;
    while i < slice.len() && slice[i] != 0
        invariant
            i <= slice@.len(),
            forall|j: int| 0 <= j < i ==> is_not_nul(#[trigger] slice@[j]),
        decreases slice@.len() - i,
    {
        i = i + 1;
    }
    proof {
        lemma_span_while(slice@, |b: u8| is_not_nul(b), i as int);
    }
    slice_subrange(slice, 0, i)
}

fn is_space_byte(b: u8) -> (r: bool)
    ensures
        r == is_space(b),
{
    (9 <= b && b <= 13) || b == 32
}

/// The length of the whitespace character that `slice[i..j]` starts with, or 0.
fn lead_space_at(slice: &[u8], i: usize, j: usize) -> (r: usize)
    requires
        i <= j <= slice@.len(),
    ensures
        r as nat == lead_space_len(slice@.subrange(i as int, j as int)),
{
    let n = j - i;
    if n >= 1 && is_space_byte(slice[i]) {
        1
    } else if n >= 2 && slice[i] == 0xC2 && (slice[i + 1] == 0x85 || slice[i + 1] == 0xA0) {
        2
    } else if n >= 3 && is_space3_bytes(slice[i], slice[i + 1], slice[i + 2]) {
        3
    } else {
        0
    }
}

/// The length of the whitespace character that `slice[i..j]` ends with, or 0.
fn trail_space_at(slice: &[u8], i: usize, j: usize) -> (r: usize)
    requires
        i <= j <= slice@.len(),
    ensures
        r as nat == trail_space_len(slice@.subrange(i as int, j as int)),
{
    let n = j - i;
    if n >= 1 && is_space_byte(slice[j - 1]) {
        1
    } else if n >= 2 && slice[j - 2] == 0xC2 && (slice[j - 1] == 0x85 || slice[j - 1] == 0xA0) {
        2
    } else if n >= 3 && is_space3_bytes(slice[j - 3], slice[j - 2], slice[j - 1]) {
        3
    } else {
        0
    }
}

fn is_space3_bytes(a: u8, b: u8, c: u8) -> (r: bool)
    ensures
        r == is_space3(a, b, c),
{
    (a == 0xE1 && b == 0x9A && c == 0x80) || (a == 0xE2 && b == 0x80 && ((0x80 <= c && c
        <= 0x8A) || c == 0xA8 || c == 0xA9 || c == 0xAF)) || (a == 0xE2 && b == 0x81 && c
        == 0x9F) || (a == 0xE3 && b == 0x80 && c == 0x80)
}

/// `slice` without leading and trailing whitespace.
pub fn trim_field(slice: &[u8]) -> (r: &[u8])
    ensures
        r@ == trim(slice@),
        r@.len() <= slice@.len(),
{
    let n = slice.len();
    let mut i: usize = 0;
    assert(slice@.subrange(0, n as int) =~= slice@);
    let mut k = lead_space_at(slice, i, n);
    while k > 0
        invariant
            n == slice@.len(),
            i <= n,
            trim_start(slice@) == trim_start(slice@.subrange(i as int, n as int)),
            k as nat == lead_space_len(slice@.subrange(i as int, n as int)),
        decreases n - i,
    {
        assert(slice@.subrange(i as int, n as int).skip(k as int) =~= slice@.subrange(
            (i + k) as int,
            n as int,
        ));
        i = i + k;
        k = lead_space_at(slice, i, n);
    }
    let mut j: usize = n;
    k = trail_space_at(slice, i, j);
    while k > 0
        invariant
            n == slice@.len(),
            i <= j <= n,
            trim_start(slice@) == slice@.subrange(i as int, n as int),
            trim(slice@) == trim_end(slice@.subrange(i as int, j as int)),
            k as nat == trail_space_len(slice@.subrange(i as int, j as int)),
        decreases j - i,
    {
        let ghost t = slice@.subrange(i as int, j as int);
        assert(t.take(t.len() - k) =~= slice@.subrange(i as int, (j - k) as int));
        j = j - k;
        k = trail_space_at(slice, i, j);
    }
    slice_subrange(slice, i, j)
}

/// Reads a base-8 number; fields hold at most twelve characters, so the value
/// always fits.
pub fn read_octal(s: &[u8]) -> (r: Option<u64>)
    requires
        s@.len() <= 12,
    ensures
        r is Some <==> parse_octal(s@) is Some,
        r is Some ==> r->0 as nat == parse_octal(s@)->0,
{
    let start: usize = if s.len() > 0 && s[0] == 43 { 1 } else { 0 };
    let ghost d = s@.skip(start as int);
    proof {
        if start == 1 {
            assert(d =~= s@.drop_first());
        } else {
            assert(d =~= s@);
        }
        assert(d == (if s@.len() > 0 && s@[0] == 43 { s@.drop_first() } else { s@ }));
    }
    if start == s.len() {
        return None;
    }
    let mut acc: u64 = 0;
    let mut i: usize = start;
    while i < s.len()
        invariant
            start <= i <= s@.len() <= 12,
            d == s@.skip(start as int),
            d == (if s@.len() > 0 && s@[0] == 43 { s@.drop_first() } else { s@ }),
            d.len() > 0,
            all_octal(d.take(i - start)),
            acc as nat == octal_value(d.take(i - start)),
        decreases s@.len() - i,
    {
        let c = s[i];
        if c < 48 || c > 55 {
            assert(!all_octal(d)) by {
                assert(d[i - start] == c);
                assert(!is_octal_digit(d[i - start]));
            }
            return None;
        }
        let ghost t = d.take(i + 1 - start);
        proof {
            assert(t.drop_last() =~= d.take(i - start));
            assert(all_octal(t)) by {
                assert forall|k: int| 0 <= k < t.len() implies is_octal_digit(#[trigger] t[k]) by {
                    if k < t.len() - 1 {
                        assert(t[k] == d.take(i - start)[k]);
                    }
                }
            }
            lemma_octal_bound(t);
            assert(pow8(t.len()) <= pow8(12)) by {
                lemma_pow8_mono(t.len(), 12);
            }
            assert(pow8(12) == 68719476736) by {
                reveal_with_fuel(pow8, 13);
            }
        }
        acc = acc * 8 + (c - 48) as u64;
        i = i + 1;
    }
    assert(d.take(s@.len() - start) =~= d);
    Some(acc)
}

pub proof fn lemma_pow8_mono(a: nat, b: nat)
    requires
        a <= b,
    ensures
        pow8(a) <= pow8(b),
    decreases b,
{
    if a < b {
        lemma_pow8_mono(a, (b - 1) as nat);
    }
}

/// The checksum of a 512-byte header block (see `header_sum`).
pub fn checksum_of(b: &[u8]) -> (r: u64)
    requires
        b@.len() == 512,
    ensures
        r as nat == header_sum(b@),
{
    let mut sum: u64 = 0;
    let mut i: usize = 0;
    while i < CKSUM_START
        invariant
            b@.len() == 512,
            i <= CKSUM_START,
            sum as nat == byte_sum(b@.subrange(0, i as int)),
            sum <= 255 * i,
        decreases CKSUM_START - i,
    {
        assert(b@.subrange(0, i + 1).drop_last() =~= b@.subrange(0, i as int));
        sum = sum + b[i] as u64;
        i = i + 1;
    }
    let first = sum;
    assert(b@.subrange(0, 148) =~= b@.take(148));
    sum = 0;
    i = CKSUM_START + CKSUM_LEN;
    while i < 512
        invariant
            b@.len() == 512,
            156 <= i <= 512,
            sum as nat == byte_sum(b@.subrange(156, i as int)),
            sum <= 255 * (i - 156),
        decreases 512 - i,
    {
        assert(b@.subrange(156, i + 1).drop_last() =~= b@.subrange(156, i as int));
        sum = sum + b[i] as u64;
        i = i + 1;
    }
    assert(b@.subrange(156, 512) =~= b@.skip(156));
    first + sum + 32 * 8
}

/// The size field holds at most twelve octal digits.
pub proof fn lemma_size_field_bound(b: Seq<u8>)
    requires
        b.len() == 512,
        header_size(b) is Some,
    ensures
        header_size(b)->0 < 68719476736,
{
    let t = trunc(field(b, SIZE_START as int, SIZE_LEN as int));
    let d = if t.len() > 0 && t[0] == 43 { t.drop_first() } else { t };
    lemma_span_while_le(field(b, SIZE_START as int, SIZE_LEN as int), |c: u8| is_not_nul(c));
    lemma_octal_bound(d);
    lemma_pow8_mono(d.len(), 12);
    assert(pow8(12) == 68719476736) by {
        reveal_with_fuel(pow8, 13);
    }
}

/// Trimming keeps a part of the field, so it never makes it longer.
pub proof fn lemma_trim_len(s: Seq<u8>)
    ensures
        trim(s).len() <= s.len(),
        s.len() == 0 ==> trim(s).len() == 0,
{
    lemma_trim_start_len(s);
    lemma_trim_end_len(trim_start(s));
}

proof fn lemma_trim_start_len(s: Seq<u8>)
    ensures
        trim_start(s).len() <= s.len(),
    decreases s.len(),
{
    if lead_space_len(s) > 0 {
        lemma_trim_start_len(s.skip(lead_space_len(s) as int));
    }
}

proof fn lemma_trim_end_len(s: Seq<u8>)
    ensures
        trim_end(s).len() <= s.len(),
    decreases s.len(),
{
    if trail_space_len(s) > 0 {
        lemma_trim_end_len(s.take(s.len() - trail_space_len(s)));
    }
}

} // verus!
