//! The protocol's primitive encodings: base-128 variable-length integers and
//! length-prefixed UTF-8 strings.

use vstd::prelude::*;
use vstd::slice::slice_to_vec;
use vstd::utf8::decode_utf8;
use vstd::utf8::valid_utf8;

use crate::cursor::take_at;
use crate::cursor::ByteCursor;

verus! {

/// The most groups a variable-length integer may take.
pub const MAX_VARINT_GROUPS: u32 = 5;

/// Decodes groups of seven bits from `pos`, the `k`-th group landing at bit
/// `7 * k` of `acc`, until a byte without the continuation bit ends the number.
pub open spec fn varint_from(data: Seq<u8>, pos: int, k: nat, acc: u32) -> Option<(u32, int)>
    decreases 5 - k,
{
    if k >= 5 {
        None
    } else if !(0 <= pos < data.len()) {
        None
    } else {
        let b = data[pos];
        let next = acc | (((b & 0x7F) as u32) << ((7 * k) as u32));
        if b & 0x80 == 0 {
            Some((next, pos + 1))
        } else {
            varint_from(data, pos + 1, k + 1, next)
        }
    }
}

/// The variable-length integer at `pos`, with the position after it.
pub open spec fn varint_at(data: Seq<u8>, pos: int) -> Option<(i32, int)> {
    match varint_from(data, pos, 0, 0) {
        Some((v, p)) => Some((v as i32, p)),
        None => None,
    }
}

/// The characters that `b` encodes, when it is well-formed UTF-8.
pub open spec fn utf8_text(b: Seq<u8>) -> Option<Seq<char>> {
    if valid_utf8(b) {
        Some(decode_utf8(b))
    } else {
        None
    }
}

/// `n` bytes from `pos` read as UTF-8 text, with the position after them.
pub open spec fn text_at(data: Seq<u8>, pos: int, n: int) -> Option<(Seq<char>, int)> {
    match take_at(data, pos, n) {
        Some((b, q)) => match utf8_text(b) {
            Some(t) => Some((t, q)),
            None => None,
        },
        None => None,
    }
}

/// A string whose byte length is a variable-length integer, at `pos`.
/// A negative length can never be met.
pub open spec fn string_at(data: Seq<u8>, pos: int) -> Option<(Seq<char>, int)> {
    match varint_at(data, pos) {
        Some((n, p)) => if n < 0 {
            None
        } else {
            text_at(data, p, n as int)
        },
        None => None,
    }
}

/// A string whose byte length is a single unsigned byte, at `pos`.
pub open spec fn byte_prefixed_string_at(data: Seq<u8>, pos: int) -> Option<(Seq<char>, int)> {
    match take_at(data, pos, 1) {
        Some((b, p)) => text_at(data, p, b[0] as int),
        None => None,
    }
}

/// Every number this encoding reads ends after its start and within the data.
pub proof fn lemma_varint_from_advances(data: Seq<u8>, pos: int, k: nat, acc: u32)
    ensures
        varint_from(data, pos, k, acc) matches Some((_, p)) ==> pos < p <= data.len(),
    decreases 5 - k,
{
    if k < 5 && 0 <= pos < data.len() && data[pos] & 0x80 != 0 {
        lemma_varint_from_advances(data, pos + 1, k + 1, acc | (((data[pos] & 0x7F) as u32) << ((
        7 * k) as u32)));
    }
}

/// The encoding of `n`: seven bits per byte, least significant group first,
/// the high bit set on every byte but the last.
pub open spec fn varint_encoding(n: u32) -> Seq<u8>
    decreases n,
    via varint_encoding_decreases
{
    if n < 0x80 {
        seq![n as u8]
    } else {
        seq![((n & 0x7F) | 0x80) as u8] + varint_encoding(n >> 7)
    }
}

#[via_fn]
proof fn varint_encoding_decreases(n: u32) {
    assert(n >= 0x80 ==> (n >> 7) < n) by (bit_vector);
}

/// Decoding the encoding of `m` from group `k` on, over the groups already
/// gathered in `acc`, places `m` above them.
proof fn lemma_varint_groups(data: Seq<u8>, pos: int, k: nat, acc: u32, m: u32)
    requires
        k <= 4,
        0 <= pos,
        pos + varint_encoding(m).len() <= data.len(),
        data.subrange(pos, pos + varint_encoding(m).len()) == varint_encoding(m),
        acc < (1u32 << ((7 * k) as u32)),
        (m << ((7 * k) as u32)) >> ((7 * k) as u32) == m,
    ensures
        varint_from(data, pos, k, acc) == Some(
            ((acc | (m << ((7 * k) as u32))), pos + varint_encoding(m).len()),
        ),
    decreases 5 - k,
{
    let s = (7 * k) as u32;
    let enc = varint_encoding(m);
    assert(data[pos] == data.subrange(pos, pos + enc.len())[0]);
    if m < 0x80 {
        let b = m as u8;
        assert(b & 0x80 == 0 && (b & 0x7F) as u32 == m) by (bit_vector)
            requires
                m < 0x80,
                b == m as u8,
        ;
    } else {
        let b = ((m & 0x7F) | 0x80) as u8;
        let next = acc | (((b & 0x7F) as u32) << s);
        assert(b & 0x80 != 0 && (b & 0x7F) as u32 == m & 0x7F) by (bit_vector)
            requires
                b == ((m & 0x7F) | 0x80) as u8,
        ;
        assert(s <= 21 && next < (1u32 << ((s + 7) as u32)) && ((m >> 7u32) << ((s + 7) as u32))
            >> ((s + 7) as u32) == (m >> 7u32) && (next | ((m >> 7u32) << ((s + 7) as u32))) == (
        acc | (m << s))) by (bit_vector)
            requires
                s <= 28,
                s % 7 == 0,
                m >= 0x80,
                acc < (1u32 << s),
                (m << s) >> s == m,
                next == acc | ((m & 0x7F) << s),
        ;
        let rest = varint_encoding(m >> 7);
        assert(enc == seq![b] + rest);
        assert(data.subrange(pos + 1, pos + 1 + rest.len()) =~= data.subrange(
            pos,
            pos + enc.len(),
        ).subrange(1, enc.len() as int));
        assert(seq![b] + rest == enc);
        assert(enc.subrange(1, enc.len() as int) =~= rest);
        assert((7 * (k + 1)) as u32 == s + 7);
        lemma_varint_groups(data, pos + 1, k + 1, next, m >> 7);
    }
}

/// Encoding a non-negative number and decoding it gives the number back;
/// the decoder stops exactly where the encoding ends, whatever follows.
pub proof fn lemma_varint_round_trip(n: i32, rest: Seq<u8>)
    requires
        n >= 0,
    ensures
        varint_at(varint_encoding(n as u32) + rest, 0) == Some(
            (n, varint_encoding(n as u32).len() as int),
        ),
{
    let m = n as u32;
    let enc = varint_encoding(m);
    let data = enc + rest;
    assert(data.subrange(0, enc.len() as int) =~= enc);
    assert(0u32 < (1u32 << 0u32) && (m << 0u32) >> 0u32 == m && (0u32 | (m << 0u32)) == m)
        by (bit_vector);
    lemma_varint_groups(data, 0, 0, 0, m);
    assert(((n as u32) as i32) == n) by (bit_vector);
}

/// From group `k` on, bytes that all carry the continuation bit up to the
/// fifth group leave no number.
proof fn lemma_varint_unterminated(data: Seq<u8>, pos: int, k: nat, acc: u32)
    requires
        k <= 5,
        0 <= pos,
        pos + (5 - k) <= data.len(),
        forall|i: int| pos <= i < pos + (5 - k) ==> data[i] & 0x80 != 0,
    ensures
        varint_from(data, pos, k, acc) is None,
    decreases 5 - k,
{
    if k < 5 {
        lemma_varint_unterminated(
            data,
            pos + 1,
            k + 1,
            acc | (((data[pos] & 0x7F) as u32) << ((7 * k) as u32)),
        );
    }
}

/// A number may take at most five groups: when the first five bytes all
/// carry the continuation bit, decoding fails.
pub proof fn lemma_varint_group_limit(data: Seq<u8>, pos: int)
    requires
        0 <= pos,
        pos + 5 <= data.len(),
        forall|i: int| pos <= i < pos + 5 ==> data[i] & 0x80 != 0,
    ensures
        varint_at(data, pos) is None,
{
    lemma_varint_unterminated(data, pos, 0, 0);
}

/// Relies on `String::from_utf8`: it accepts exactly the well-formed UTF-8
/// byte sequences and keeps the characters they encode.
#[verifier::external_body]
pub(crate) fn string_from_utf8(bytes: Vec<u8>) -> (r: Option<String>)
    ensures
        match r {
            Some(s) => utf8_text(bytes@) == Some(s@),
            None => utf8_text(bytes@) is None,
        },
{
    String::from_utf8(bytes).ok()
}

/// Reads a variable-length integer: seven bits per byte, least significant
/// group first, the high bit marking that another byte follows. Fails when
/// the data ends first or a sixth group would be needed.
pub fn read_varint(cursor: &mut ByteCursor) -> (r: Option<i32>)
    requires
        old(cursor).wf(),
    ensures
        final(cursor).wf(),
        final(cursor).bytes() == old(cursor).bytes(),
        match r {
            Some(v) => varint_at(old(cursor).bytes(), old(cursor).at()) == Some(
                (v, final(cursor).at()),
            ),
            None => varint_at(old(cursor).bytes(), old(cursor).at()) is None,
        },
{
    let ghost data = cursor.bytes();
    let ghost start = cursor.at();
    let mut result: u32 = 0;
    let mut k: u32 = 0;
    loop
        invariant
            cursor.wf(),
            cursor.bytes() == data,
            data == old(cursor).bytes(),
            start == old(cursor).at(),
            k <= MAX_VARINT_GROUPS,
            varint_from(data, start, 0, 0) == varint_from(data, cursor.at(), k as nat, result),
        decreases MAX_VARINT_GROUPS - k,
    {
        if k >= MAX_VARINT_GROUPS {
            return None;
        }
        let b = match cursor.read_u8() {
            Some(b) => b,
            None => return None,
        };
        proof {
            assert(data.subrange(cursor.at() - 1, cursor.at()) == seq![b]);
            assert(data[cursor.at() - 1] == seq![b][0]);
        }
        result = result | (((b & 0x7F) as u32) << (7 * k));
        k = k + 1;
        if b & 0x80 == 0 {
            return Some(#[verifier::truncate] (result as i32));
        }
    }
}

/// Reads a variable-length integer and keeps its bit pattern as unsigned.
pub fn read_varint_u32(cursor: &mut ByteCursor) -> (r: Option<u32>)
    requires
        old(cursor).wf(),
    ensures
        final(cursor).wf(),
        final(cursor).bytes() == old(cursor).bytes(),
        match r {
            Some(v) => varint_at(old(cursor).bytes(), old(cursor).at()) == Some(
                (v as i32, final(cursor).at()),
            ),
            None => varint_at(old(cursor).bytes(), old(cursor).at()) is None,
        },
{
    match read_varint(cursor) {
        Some(v) => {
            proof {
                assert(v == (v as u32) as i32) by (bit_vector);
            }
            Some(v as u32)
        },
        None => None,
    }
}

/// Reads `n` bytes as UTF-8 text.
fn read_text(cursor: &mut ByteCursor, n: usize) -> (r: Option<String>)
    requires
        old(cursor).wf(),
    ensures
        final(cursor).wf(),
        final(cursor).bytes() == old(cursor).bytes(),
        match r {
            Some(s) => text_at(old(cursor).bytes(), old(cursor).at(), n as int) == Some(
                (s@, final(cursor).at()),
            ),
            None => text_at(old(cursor).bytes(), old(cursor).at(), n as int) is None,
        },
{
    let bytes = match cursor.take(n) {
        Some(b) => b,
        None => return None,
    };
    string_from_utf8(slice_to_vec(bytes))
}

/// Reads a string whose byte length comes first as a variable-length
/// integer. Fails when the length cannot be read or is negative, when fewer
/// bytes remain than it declares, or when they are not UTF-8.
pub fn read_string(cursor: &mut ByteCursor) -> (r: Option<String>)
    requires
        old(cursor).wf(),
    ensures
        final(cursor).wf(),
        final(cursor).bytes() == old(cursor).bytes(),
        match r {
            Some(s) => string_at(old(cursor).bytes(), old(cursor).at()) == Some(
                (s@, final(cursor).at()),
            ),
            None => string_at(old(cursor).bytes(), old(cursor).at()) is None,
        },
{
    let n = match read_varint(cursor) {
        Some(n) => n,
        None => return None,
    };
    if n < 0 {
        return None;
    }
    read_text(cursor, n as usize)
}

/// Reads a string whose byte length comes first as one unsigned byte.
pub fn read_string_byte_prefix(cursor: &mut ByteCursor) -> (r: Option<String>)
    requires
        old(cursor).wf(),
    ensures
        final(cursor).wf(),
        final(cursor).bytes() == old(cursor).bytes(),
        match r {
            Some(s) => byte_prefixed_string_at(old(cursor).bytes(), old(cursor).at()) == Some(
                (s@, final(cursor).at()),
            ),
            None => byte_prefixed_string_at(old(cursor).bytes(), old(cursor).at()) is None,
        },
{
    let n = match cursor.read_u8() {
        Some(n) => n,
        None => return None,
    };
    read_text(cursor, n as usize)
}

} // verus!
