//! Hexadecimal text: lowercase hex of bytes and UUIDs, and decoding through the
//! `hex` crate.

use vstd::prelude::*;
use crate::text::push_char;

verus! {

/// The value of a hex digit (either case), if the character is one.
pub open spec fn hex_value(c: char) -> Option<nat> {
    if '0' <= c && c <= '9' {
        Some((c as u32 - '0' as u32) as nat)
    } else if 'a' <= c && c <= 'f' {
        Some((c as u32 - 'a' as u32 + 10) as nat)
    } else if 'A' <= c && c <= 'F' {
        Some((c as u32 - 'A' as u32 + 10) as nat)
    } else {
        None
    }
}

/// The bytes a hex text stands for: each pair of hex digits (either case) one byte, high
/// digit first; `None` when a character is not a hex digit or the length is odd.
pub open spec fn hex_decoded(s: Seq<char>) -> Option<Seq<u8>> {
    if s.len() % 2 != 0 || exists|i: int| 0 <= i < s.len() && (#[trigger] hex_value(s[i])) is None {
        None
    } else {
        Some(Seq::new(s.len() / 2, |k: int| (hex_value(s[2 * k])->0 * 16 + hex_value(s[2 * k + 1])->0) as u8))
    }
}

/// `hex::decode`: decodes a text of hex digit pairs (either case, high digit first) into
/// bytes; an error on an odd length or on a character that is not a hex digit. A
/// non-ASCII character is never a hex digit, so the byte length and the character
/// length agree whenever the text decodes.
#[verifier::external_body]
pub(crate) fn hex_decode(s: &str) -> (out: Option<Vec<u8>>)
    ensures
        out matches Some(v) ==> hex_decoded(s@) == Some(v@),
        out is None ==> hex_decoded(s@) is None,
{
    hex::decode(s).ok()
}

/// The lowercase hex digit for `n < 16`.
pub open spec fn hex_digit(n: nat) -> char {
    if n < 10 {
        crate::text::digit_char(n)
    } else if n == 10 { 'a' } else if n == 11 { 'b' } else if n == 12 { 'c' }
    else if n == 13 { 'd' } else if n == 14 { 'e' } else { 'f' }
}

/// Two lowercase hex digits for a byte.
pub open spec fn byte_hex(b: u8) -> Seq<char> {
    seq![hex_digit((b / 16) as nat), hex_digit((b % 16) as nat)]
}

/// Lowercase hex of a byte sequence, two digits per byte.
pub open spec fn bytes_hex(bs: Seq<u8>) -> Seq<char>
    decreases bs.len(),
{
    if bs.len() == 0 {
        Seq::empty()
    } else {
        bytes_hex(bs.drop_last()) + byte_hex(bs.last())
    }
}

proof fn lemma_hex_digit_value(n: nat)
    requires
        n < 16,
    ensures
        hex_value(hex_digit(n)) == Some(n),
{
    if n == 0 { assert(hex_digit(n) == '0'); }
    else if n == 1 { assert(hex_digit(n) == '1'); }
    else if n == 2 { assert(hex_digit(n) == '2'); }
    else if n == 3 { assert(hex_digit(n) == '3'); }
    else if n == 4 { assert(hex_digit(n) == '4'); }
    else if n == 5 { assert(hex_digit(n) == '5'); }
    else if n == 6 { assert(hex_digit(n) == '6'); }
    else if n == 7 { assert(hex_digit(n) == '7'); }
    else if n == 8 { assert(hex_digit(n) == '8'); }
    else if n == 9 { assert(hex_digit(n) == '9'); }
}

proof fn lemma_bytes_hex_index(bs: Seq<u8>)
    ensures
        bytes_hex(bs).len() == 2 * bs.len(),
        forall|k: int| 0 <= k < bs.len() ==> bytes_hex(bs)[2 * k] == hex_digit((#[trigger] bs[k] / 16) as nat)
            && bytes_hex(bs)[2 * k + 1] == hex_digit((bs[k] % 16) as nat),
    decreases bs.len(),
{
    if bs.len() > 0 {
        let front = bs.drop_last();
        lemma_bytes_hex_index(front);
        let h = bytes_hex(bs);
        assert(h == bytes_hex(front) + byte_hex(bs.last()));
        assert forall|k: int| 0 <= k < bs.len() implies h[2 * k] == hex_digit((#[trigger] bs[k] / 16) as nat)
            && h[2 * k + 1] == hex_digit((bs[k] % 16) as nat) by {
            if k < front.len() {
                assert(front[k] == bs[k]);
            }
        }
    }
}

/// Hex decoding reads back what hex encoding wrote: decoding the lowercase hex of any
/// bytes gives those bytes.
pub proof fn law_hex_round_trip(bs: Seq<u8>)
    ensures
        hex_decoded(bytes_hex(bs)) == Some(bs),
{
    lemma_bytes_hex_index(bs);
    let h = bytes_hex(bs);
    assert forall|i: int| 0 <= i < h.len() implies (#[trigger] hex_value(h[i])) is Some by {
        let k = i / 2;
        assert(0 <= k < bs.len());
        lemma_hex_digit_value((bs[k] / 16) as nat);
        lemma_hex_digit_value((bs[k] % 16) as nat);
        if i % 2 == 0 {
            assert(i == 2 * k);
        } else {
            assert(i == 2 * k + 1);
        }
    }
    assert(!(exists|i: int| 0 <= i < h.len() && (#[trigger] hex_value(h[i])) is None));
    let d = Seq::new(h.len() / 2, |k: int| (hex_value(h[2 * k])->0 * 16 + hex_value(h[2 * k + 1])->0) as u8);
    assert forall|k: int| 0 <= k < bs.len() implies d[k] == bs[k] by {
        lemma_hex_digit_value((bs[k] / 16) as nat);
        lemma_hex_digit_value((bs[k] % 16) as nat);
        assert((bs[k] / 16) * 16 + bs[k] % 16 == bs[k]);
    }
    assert(d =~= bs);
}

fn nibble(n: u8) -> (c: char)
    requires
        n < 16,
    ensures
        c == hex_digit(n as nat),
{
    if n < 10 {
        if n == 0 { '0' } else if n == 1 { '1' } else if n == 2 { '2' } else if n == 3 { '3' }
        else if n == 4 { '4' } else if n == 5 { '5' } else if n == 6 { '6' } else if n == 7 { '7' }
        else if n == 8 { '8' } else { '9' }
    } else if n == 10 { 'a' } else if n == 11 { 'b' } else if n == 12 { 'c' }
    else if n == 13 { 'd' } else if n == 14 { 'e' } else { 'f' }
}

/// Appends the two lowercase hex digits of a byte.
pub fn push_byte_hex(s: &mut String, b: u8)
    ensures
        final(s)@ == old(s)@ + byte_hex(b),
{
    push_char(s, nibble(b / 16));
    push_char(s, nibble(b % 16));
}

/// Appends the lowercase hex of a byte slice.
pub fn push_bytes_hex(s: &mut String, bs: &[u8])
    ensures
        final(s)@ == old(s)@ + bytes_hex(bs@),
{
    let ghost start = s@;
    let mut i: usize = 0;
    while i < bs.len()
        invariant
            i <= bs@.len(),
            s@ == start + bytes_hex(bs@.take(i as int)),
        decreases bs@.len() - i,
    {
        push_byte_hex(s, bs[i]);
        assert(bs@.take(i + 1).drop_last() == bs@.take(i as int));
        i = i + 1;
    }
    assert(bs@.take(bs@.len() as int) == bs@);
}

/// A PostgreSQL bytea literal body: `\x` followed by the lowercase hex of the bytes.
pub fn bytes_to_pg_hex(bs: &[u8]) -> (out: String)
    ensures
        out@ == seq!['\\', 'x'] + bytes_hex(bs@),
{
    let mut out = String::new();
    push_char(&mut out, '\\');
    push_char(&mut out, 'x');
    push_bytes_hex(&mut out, bs);
    out
}

/// The 16 bytes of a UUID held as a big-endian `u128`.
pub open spec fn uuid_bytes(u: u128) -> Seq<u8> {
    Seq::new(16, |i: int| ((u >> ((8 * (15 - i)) as u128)) & 0xff) as u8)
}

/// The hyphenated lowercase text of a UUID: 8-4-4-4-12 hex digits.
pub open spec fn uuid_text(u: u128) -> Seq<char> {
    let b = uuid_bytes(u);
    bytes_hex(b.subrange(0, 4)) + seq!['-'] + bytes_hex(b.subrange(4, 6)) + seq!['-']
        + bytes_hex(b.subrange(6, 8)) + seq!['-'] + bytes_hex(b.subrange(8, 10)) + seq!['-']
        + bytes_hex(b.subrange(10, 16))
}

/// The bytes of a UUID, most significant first.
pub fn uuid_to_bytes(u: u128) -> (out: Vec<u8>)
    ensures
        out@ == uuid_bytes(u),
{
    let mut out: Vec<u8> = Vec::new();
    let mut i: usize = 0;
    while i < 16
        invariant
            i <= 16,
            out@.len() == i,
            forall|k: int| 0 <= k < i ==> #[trigger] out@[k] == uuid_bytes(u)[k],
        decreases 16 - i,
    {
        let shift: u128 = (8 * (15 - i)) as u128;
        let b: u8 = ((u >> shift) & 0xff) as u8;
        out.push(b);
        i = i + 1;
    }
    assert(out@ =~= uuid_bytes(u));
    out
}

/// Appends the hyphenated lowercase text of a UUID.
pub fn push_uuid_text(s: &mut String, u: u128)
    ensures
        final(s)@ == old(s)@ + uuid_text(u),
{
    let b = uuid_to_bytes(u);
    let ghost start = s@;
    let ghost bs = b@;
    push_bytes_hex(s, vstd::slice::slice_subrange(b.as_slice(), 0, 4));
    push_char(s, '-');
    push_bytes_hex(s, vstd::slice::slice_subrange(b.as_slice(), 4, 6));
    push_char(s, '-');
    push_bytes_hex(s, vstd::slice::slice_subrange(b.as_slice(), 6, 8));
    push_char(s, '-');
    push_bytes_hex(s, vstd::slice::slice_subrange(b.as_slice(), 8, 10));
    push_char(s, '-');
    push_bytes_hex(s, vstd::slice::slice_subrange(b.as_slice(), 10, 16));
    assert(s@ =~= start + uuid_text(u));
}

} // verus!
