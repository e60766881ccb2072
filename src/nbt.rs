//! The tagged binary tree format: a compound is a run of named, typed
//! values closed by an end marker; lists and compounds nest.

use vstd::prelude::*;
use vstd::slice::slice_to_vec;

use crate::cursor::be_at;
use crate::cursor::be_nat;
use crate::cursor::pow256;
use crate::cursor::take_at;
use crate::cursor::ByteCursor;
use crate::wire::string_from_utf8;
use crate::wire::utf8_text;

verus! {

/// Why a tree could not be decoded.
#[derive(Debug, Clone, Copy, PartialEq, Eq, Structural)]
pub enum NbtError {
    /// Fewer bytes remain than a field needs.
    Truncated,
    /// A name or string is not well-formed UTF-8.
    InvalidUtf8,
    /// A tag type outside the known set.
    UnknownTag(u8),
}

/// A decoded compound: named values in the order they were read. Names may
/// repeat.
#[derive(Debug)]
pub struct NbtCompound {
    pub tags: Vec<(String, NbtTag)>,
}

impl Default for NbtCompound {
    /// The empty compound.
    fn default() -> (r: NbtCompound)
        ensures
            r.tags@.len() == 0,
    {
        NbtCompound { tags: Vec::new() }
    }
}

/// A decoded tree value. Floating-point values are kept as their IEEE-754
/// bit patterns.
#[derive(Debug)]
pub enum NbtTag {
    Byte(i8),
    Short(i16),
    Int(i32),
    Long(i64),
    Float(u32),
    Double(u64),
    ByteArray(Vec<i8>),
    String(String),
    List(Vec<NbtTag>),
    Compound(NbtCompound),
    IntArray(Vec<i32>),
    LongArray(Vec<i64>),
}

/// The mathematical value of a tree.
pub enum NbtValue {
    Byte(i8),
    Short(i16),
    Int(i32),
    Long(i64),
    Float(u32),
    Double(u64),
    ByteArray(Seq<i8>),
    String(Seq<char>),
    List(Seq<NbtValue>),
    Compound(Seq<(Seq<char>, NbtValue)>),
    IntArray(Seq<i32>),
    LongArray(Seq<i64>),
}

pub open spec fn tag_model(t: NbtTag) -> NbtValue
    decreases t,
{
    match t {
        NbtTag::Byte(v) => NbtValue::Byte(v),
        NbtTag::Short(v) => NbtValue::Short(v),
        NbtTag::Int(v) => NbtValue::Int(v),
        NbtTag::Long(v) => NbtValue::Long(v),
        NbtTag::Float(v) => NbtValue::Float(v),
        NbtTag::Double(v) => NbtValue::Double(v),
        NbtTag::ByteArray(v) => NbtValue::ByteArray(v@),
        NbtTag::String(s) => NbtValue::String(s@),
        NbtTag::List(items) => NbtValue::List(
            Seq::new(
                items.len() as nat,
                |i: int|
                    if 0 <= i < items.len() {
                        tag_model(items[i])
                    } else {
                        NbtValue::Byte(0)
                    },
            ),
        ),
        NbtTag::Compound(c) => NbtValue::Compound(compound_model(c)),
        NbtTag::IntArray(v) => NbtValue::IntArray(v@),
        NbtTag::LongArray(v) => NbtValue::LongArray(v@),
    }
}

pub open spec fn compound_model(c: NbtCompound) -> Seq<(Seq<char>, NbtValue)>
    decreases c,
{
    Seq::new(
        c.tags.len() as nat,
        |i: int|
            if 0 <= i < c.tags.len() {
                (c.tags[i].0@, tag_model(c.tags[i].1))
            } else {
                (Seq::empty(), NbtValue::Byte(0))
            },
    )
}

impl View for NbtTag {
    type V = NbtValue;

    open spec fn view(&self) -> NbtValue {
        tag_model(*self)
    }
}

impl View for NbtCompound {
    type V = Seq<(Seq<char>, NbtValue)>;

    open spec fn view(&self) -> Seq<(Seq<char>, NbtValue)> {
        compound_model(*self)
    }
}

/// A name: a two-byte big-endian byte length, then that many UTF-8 bytes.
pub open spec fn name_at(data: Seq<u8>, pos: int) -> Result<(Seq<char>, int), NbtError> {
    match be_at(data, pos, 2) {
        None => Err(NbtError::Truncated),
        Some((n, p)) => match take_at(data, p, n as int) {
            None => Err(NbtError::Truncated),
            Some((b, q)) => match utf8_text(b) {
                Some(t) => Ok((t, q)),
                None => Err(NbtError::InvalidUtf8),
            },
        },
    }
}

/// A four-byte signed big-endian count.
pub open spec fn count_at(data: Seq<u8>, pos: int) -> Option<(int, int)> {
    match be_at(data, pos, 4) {
        Some((v, p)) => Some((((v as u32) as i32) as int, p)),
        None => None,
    }
}

/// The `i`-th big-endian number of `width` bytes from `pos`.
pub open spec fn be_item(data: Seq<u8>, pos: int, width: int, i: int) -> nat {
    be_nat(data.subrange(pos + width * i, pos + width * i + width))
}

/// A counted run of numbers of `width` bytes at `pos`: the count, with the
/// position after the run, or a failure when the count is negative or the
/// run does not fit.
pub open spec fn run_at(data: Seq<u8>, pos: int, width: int) -> Result<(int, int), NbtError> {
    match count_at(data, pos) {
        None => Err(NbtError::Truncated),
        Some((c, p)) => if c < 0 || p + width * c > data.len() {
            Err(NbtError::Truncated)
        } else {
            Ok((c, p + width * c))
        },
    }
}

/// The payload of a value of type `tag` at `pos`, with the position after it.
pub open spec fn payload_at(data: Seq<u8>, pos: int, tag: u8) -> Result<(NbtValue, int), NbtError>
    decreases data.len() - pos, 1int,
{
    if !(0 <= pos <= data.len()) {
        Err(NbtError::Truncated)
    } else if 1 <= tag <= 6 {
        let w: int = if tag == 1 {
            1
        } else if tag == 2 {
            2
        } else if tag == 3 || tag == 5 {
            4
        } else {
            8
        };
        match be_at(data, pos, w) {
            None => Err(NbtError::Truncated),
            Some((v, p)) => Ok((scalar_value(tag, v), p)),
        }
    } else if tag == 7 {
        match run_at(data, pos, 1) {
            Err(e) => Err(e),
            Ok((c, q)) => Ok(
                (NbtValue::ByteArray(Seq::new(c as nat, |i: int| data[pos + 4 + i] as i8)), q),
            ),
        }
    } else if tag == 8 {
        match name_at(data, pos) {
            Err(e) => Err(e),
            Ok((s, q)) => Ok((NbtValue::String(s), q)),
        }
    } else if tag == 9 {
        if pos + 1 > data.len() {
            Err(NbtError::Truncated)
        } else {
            match count_at(data, pos + 1) {
                None => Err(NbtError::Truncated),
                Some((c, p)) => if c < 0 {
                    Err(NbtError::Truncated)
                } else {
                    match list_at(data, p, data[pos], c) {
                        Err(e) => Err(e),
                        Ok((items, q)) => Ok((NbtValue::List(items), q)),
                    }
                },
            }
        }
    } else if tag == 10 {
        match compound_at(data, pos) {
            Err(e) => Err(e),
            Ok((entries, q)) => Ok((NbtValue::Compound(entries), q)),
        }
    } else if tag == 11 {
        match run_at(data, pos, 4) {
            Err(e) => Err(e),
            Ok((c, q)) => Ok(
                (
                    NbtValue::IntArray(
                        Seq::new(c as nat, |i: int| (be_item(data, pos + 4, 4, i) as u32) as i32),
                    ),
                    q,
                ),
            ),
        }
    } else if tag == 12 {
        match run_at(data, pos, 8) {
            Err(e) => Err(e),
            Ok((c, q)) => Ok(
                (
                    NbtValue::LongArray(
                        Seq::new(c as nat, |i: int| (be_item(data, pos + 4, 8, i) as u64) as i64),
                    ),
                    q,
                ),
            ),
        }
    } else {
        Err(NbtError::UnknownTag(tag))
    }
}

/// A fixed-width number read as the value of type `tag`.
pub open spec fn scalar_value(tag: u8, v: nat) -> NbtValue {
    if tag == 1 {
        NbtValue::Byte((v as u8) as i8)
    } else if tag == 2 {
        NbtValue::Short((v as u16) as i16)
    } else if tag == 3 {
        NbtValue::Int((v as u32) as i32)
    } else if tag == 4 {
        NbtValue::Long((v as u64) as i64)
    } else if tag == 5 {
        NbtValue::Float(v as u32)
    } else {
        NbtValue::Double(v as u64)
    }
}

/// `count` payloads of type `tag`, one after another, from `pos`.
pub open spec fn list_at(data: Seq<u8>, pos: int, tag: u8, count: int) -> Result<
    (Seq<NbtValue>, int),
    NbtError,
>
    decreases data.len() - pos, 2int,
{
    if !(0 <= pos <= data.len()) {
        Err(NbtError::Truncated)
    } else if count <= 0 {
        Ok((seq![], pos))
    } else {
        match payload_at(data, pos, tag) {
            Err(e) => Err(e),
            Ok((v, p)) => if !(pos < p <= data.len()) {
                Err(NbtError::Truncated)
            } else {
                match list_at(data, p, tag, count - 1) {
                    Err(e) => Err(e),
                    Ok((rest, q)) => Ok((seq![v] + rest, q)),
                }
            },
        }
    }
}

/// The entries of a compound from `pos` up to and including its end marker.
pub open spec fn compound_at(data: Seq<u8>, pos: int) -> Result<
    (Seq<(Seq<char>, NbtValue)>, int),
    NbtError,
>
    decreases data.len() - pos, 0int,
{
    if !(0 <= pos < data.len()) {
        Err(NbtError::Truncated)
    } else if data[pos] == 0 {
        Ok((seq![], pos + 1))
    } else {
        match name_at(data, pos + 1) {
            Err(e) => Err(e),
            Ok((name, p1)) => if !(pos < p1 <= data.len()) {
                Err(NbtError::Truncated)
            } else {
                match payload_at(data, p1, data[pos]) {
                    Err(e) => Err(e),
                    Ok((v, p2)) => if !(pos < p2 <= data.len()) {
                        Err(NbtError::Truncated)
                    } else {
                        match compound_at(data, p2) {
                            Err(e) => Err(e),
                            Ok((rest, q)) => Ok((seq![(name, v)] + rest, q)),
                        }
                    },
                }
            },
        }
    }
}

/// The tree that `data` holds: empty data is an empty compound; otherwise
/// the entries of one compound from the first byte. Bytes after its end
/// marker are not read.
pub open spec fn parse_tree(data: Seq<u8>) -> Result<Seq<(Seq<char>, NbtValue)>, NbtError> {
    if data.len() == 0 {
        Ok(seq![])
    } else {
        match compound_at(data, 0) {
            Ok((entries, _)) => Ok(entries),
            Err(e) => Err(e),
        }
    }
}

/// The values of a run of decoded trees.
pub open spec fn tags_model(v: Seq<NbtTag>) -> Seq<NbtValue> {
    Seq::new(v.len(), |i: int| v[i]@)
}

/// The entries of a run of decoded named trees.
pub open spec fn entries_model(v: Seq<(String, NbtTag)>) -> Seq<(Seq<char>, NbtValue)> {
    Seq::new(v.len(), |i: int| (v[i].0@, v[i].1@))
}

/// `prefix` put before the values of a decoded run.
pub open spec fn after_values(prefix: Seq<NbtValue>, r: Result<(Seq<NbtValue>, int), NbtError>) -> Result<
    (Seq<NbtValue>, int),
    NbtError,
> {
    match r {
        Ok((vs, q)) => Ok((prefix + vs, q)),
        Err(e) => Err(e),
    }
}

/// `prefix` put before the entries of a decoded compound.
pub open spec fn after_entries(
    prefix: Seq<(Seq<char>, NbtValue)>,
    r: Result<(Seq<(Seq<char>, NbtValue)>, int), NbtError>,
) -> Result<(Seq<(Seq<char>, NbtValue)>, int), NbtError> {
    match r {
        Ok((vs, q)) => Ok((prefix + vs, q)),
        Err(e) => Err(e),
    }
}

/// Reads a name: a two-byte big-endian length, then UTF-8 bytes.
fn read_nbt_string(cursor: &mut ByteCursor) -> (r: Result<String, NbtError>)
    requires
        old(cursor).wf(),
    ensures
        final(cursor).wf(),
        final(cursor).bytes() == old(cursor).bytes(),
        match r {
            Ok(s) => name_at(old(cursor).bytes(), old(cursor).at()) == Ok::<_, NbtError>(
                (s@, final(cursor).at()),
            ),
            Err(e) => name_at(old(cursor).bytes(), old(cursor).at()) == Err::<
                (Seq<char>, int),
                _,
            >(e),
        },
{
    let n = match cursor.read_be(2) {
        Some(n) => n,
        None => return Err(NbtError::Truncated),
    };
    proof {
        reveal_with_fuel(pow256, 3);
    }
    let bytes = match cursor.take(n as usize) {
        Some(b) => b,
        None => return Err(NbtError::Truncated),
    };
    match string_from_utf8(slice_to_vec(bytes)) {
        Some(s) => Ok(s),
        None => Err(NbtError::InvalidUtf8),
    }
}

/// Reads a four-byte signed big-endian count.
fn read_count(cursor: &mut ByteCursor) -> (r: Option<i32>)
    requires
        old(cursor).wf(),
    ensures
        final(cursor).wf(),
        final(cursor).bytes() == old(cursor).bytes(),
        match r {
            Some(c) => count_at(old(cursor).bytes(), old(cursor).at()) == Some(
                (c as int, final(cursor).at()),
            ),
            None => count_at(old(cursor).bytes(), old(cursor).at()) is None,
        },
{
    match cursor.read_be(4) {
        Some(v) => Some(#[verifier::truncate] ((#[verifier::truncate] (v as u32)) as i32)),
        None => None,
    }
}

/// Reads the payload of a value of type `tag_type`.
fn read_nbt_payload(cursor: &mut ByteCursor, tag_type: u8) -> (r: Result<NbtTag, NbtError>)
    requires
        old(cursor).wf(),
    ensures
        final(cursor).wf(),
        final(cursor).bytes() == old(cursor).bytes(),
        match r {
            Ok(t) => payload_at(old(cursor).bytes(), old(cursor).at(), tag_type) == Ok::<
                _,
                NbtError,
            >((t@, final(cursor).at())) && old(cursor).at() < final(cursor).at(),
            Err(e) => payload_at(old(cursor).bytes(), old(cursor).at(), tag_type) == Err::<
                (NbtValue, int),
                _,
            >(e),
        },
    decreases old(cursor).bytes().len() - old(cursor).at(), 1int,
{
    let ghost data = cursor.bytes();
    let ghost start = cursor.at();
    if 1 <= tag_type && tag_type <= 6 {
        let w: usize = if tag_type == 1 {
            1
        } else if tag_type == 2 {
            2
        } else if tag_type == 3 || tag_type == 5 {
            4
        } else {
            8
        };
        let v = match cursor.read_be(w) {
            Some(v) => v,
            None => return Err(NbtError::Truncated),
        };
        let t = if tag_type == 1 {
            NbtTag::Byte(#[verifier::truncate] ((#[verifier::truncate] (v as u8)) as i8))
        } else if tag_type == 2 {
            NbtTag::Short(#[verifier::truncate] ((#[verifier::truncate] (v as u16)) as i16))
        } else if tag_type == 3 {
            NbtTag::Int(#[verifier::truncate] ((#[verifier::truncate] (v as u32)) as i32))
        } else if tag_type == 4 {
            NbtTag::Long(#[verifier::truncate] (v as i64))
        } else if tag_type == 5 {
            NbtTag::Float(#[verifier::truncate] (v as u32))
        } else {
            NbtTag::Double(v)
        };
        proof {
            assert((v as u64) == ((v as nat) as u64));
        }
        Ok(t)
    } else if tag_type == 7 {
        let c = match read_count(cursor) {
            Some(c) => c,
            None => return Err(NbtError::Truncated),
        };
        if c < 0 || c as usize > cursor.remaining() {
            return Err(NbtError::Truncated);
        }
        let bytes = match cursor.take(c as usize) {
            Some(b) => b,
            None => return Err(NbtError::Truncated),
        };
        let mut out: Vec<i8> = Vec::new();
        let mut i: usize = 0;
        while i < bytes.len()
            invariant
                i <= bytes@.len(),
                out@ =~= Seq::new(i as nat, |j: int| bytes@[j] as i8),
            decreases bytes@.len() - i,
        {
            out.push(#[verifier::truncate] (bytes[i] as i8));
            i = i + 1;
        }
        proof {
            assert(out@ =~= Seq::new(c as nat, |j: int| data[start + 4 + j] as i8));
        }
        Ok(NbtTag::ByteArray(out))
    } else if tag_type == 8 {
        match read_nbt_string(cursor) {
            Ok(s) => Ok(NbtTag::String(s)),
            Err(e) => Err(e),
        }
    } else if tag_type == 9 {
        let et = match cursor.read_u8() {
            Some(b) => b,
            None => return Err(NbtError::Truncated),
        };
        proof {
            assert(data.subrange(start, start + 1) == seq![et]);
            assert(data[start] == seq![et][0]);
        }
        let c = match read_count(cursor) {
            Some(c) => c,
            None => return Err(NbtError::Truncated),
        };
        if c < 0 {
            return Err(NbtError::Truncated);
        }
        let mut items: Vec<NbtTag> = Vec::new();
        let mut i: i32 = 0;
        while i < c
            invariant
                cursor.wf(),
                cursor.bytes() == data,
                data == old(cursor).bytes(),
                start == old(cursor).at(),
                start + 5 <= cursor.at(),
                tag_type == 9,
                0 <= start,
                start + 1 <= data.len(),
                data[start] == et,
                count_at(data, start + 1) == Some((c as int, start + 5)),
                0 <= i <= c,
                list_at(data, start + 5, et, c as int) == after_values(
                    tags_model(items@),
                    list_at(data, cursor.at(), et, (c - i) as int),
                ),
            decreases c - i,
        {
            let ghost p = cursor.at();
            let t = match read_nbt_payload(cursor, et) {
                Ok(t) => t,
                Err(e) => {
                    proof {
                        assert(list_at(data, p, et, (c - i) as int) == Err::<
                            (Seq<NbtValue>, int),
                            NbtError,
                        >(e));
                        assert(list_at(data, start + 5, et, c as int) == Err::<
                            (Seq<NbtValue>, int),
                            NbtError,
                        >(e));
                            }
                    return Err(e);
                },
            };
            proof {
                let ghost q = cursor.at();
                assert(tags_model(items@.push(t)) =~= tags_model(items@) + seq![t@]);
                match list_at(data, q, et, (c - i - 1) as int) {
                    Ok((vs, _)) => {
                        assert(tags_model(items@) + (seq![t@] + vs) =~= (tags_model(items@)
                            + seq![t@]) + vs);
                    },
                    Err(_) => {},
                }
            }
            items.push(t);
            i = i + 1;
        }
        proof {
            assert(tags_model(items@) + seq![] =~= tags_model(items@));
            let ghost m = tag_model(NbtTag::List(items));
            assert(m->List_0 =~= tags_model(items@));
        }
        Ok(NbtTag::List(items))
    } else if tag_type == 10 {
        match read_nbt_compound(cursor) {
            Ok(c) => Ok(NbtTag::Compound(c)),
            Err(e) => Err(e),
        }
    } else if tag_type == 11 || tag_type == 12 {
        let w: usize = if tag_type == 11 {
            4
        } else {
            8
        };
        let c = match read_count(cursor) {
            Some(c) => c,
            None => return Err(NbtError::Truncated),
        };
        if c < 0 || (c as u64) * (w as u64) > cursor.remaining() as u64 {
            return Err(NbtError::Truncated);
        }
        let mut ints: Vec<i32> = Vec::new();
        let mut longs: Vec<i64> = Vec::new();
        let mut i: i32 = 0;
        while i < c
            invariant
                cursor.wf(),
                cursor.bytes() == data,
                w == 4 || w == 8,
                0 <= i <= c,
                cursor.at() == start + 4 + w * i,
                start + 4 + w * c <= data.len(),
                w == 4 ==> ints@ =~= Seq::new(
                    i as nat,
                    |j: int| (be_item(data, start + 4, 4, j) as u32) as i32,
                ),
                w == 8 ==> longs@ =~= Seq::new(
                    i as nat,
                    |j: int| (be_item(data, start + 4, 8, j) as u64) as i64,
                ),
            decreases c - i,
        {
            proof {
                assert(w * i + w <= w * c) by (nonlinear_arith)
                    requires
                        i < c,
                        w == 4 || w == 8,
                ;
            }
            let v = match cursor.read_be(w) {
                Some(v) => v,
                None => return Err(NbtError::Truncated),
            };
            if w == 4 {
                ints.push(#[verifier::truncate] ((#[verifier::truncate] (v as u32)) as i32));
            } else {
                longs.push(#[verifier::truncate] (v as i64));
            }
            proof {
                assert(w * (i + 1) == w * i + w) by (nonlinear_arith);
                assert((v as u64) == ((v as nat) as u64));
            }
            i = i + 1;
        }
        if tag_type == 11 {
            Ok(NbtTag::IntArray(ints))
        } else {
            Ok(NbtTag::LongArray(longs))
        }
    } else {
        Err(NbtError::UnknownTag(tag_type))
    }
}

/// Reads the entries of a compound up to and including its end marker.
fn read_nbt_compound(cursor: &mut ByteCursor) -> (r: Result<NbtCompound, NbtError>)
    requires
        old(cursor).wf(),
    ensures
        final(cursor).wf(),
        final(cursor).bytes() == old(cursor).bytes(),
        match r {
            Ok(c) => compound_at(old(cursor).bytes(), old(cursor).at()) == Ok::<_, NbtError>(
                (c@, final(cursor).at()),
            ) && old(cursor).at() < final(cursor).at(),
            Err(e) => compound_at(old(cursor).bytes(), old(cursor).at()) == Err::<
                (Seq<(Seq<char>, NbtValue)>, int),
                _,
            >(e),
        },
    decreases old(cursor).bytes().len() - old(cursor).at(), 0int,
{
    let ghost data = cursor.bytes();
    let ghost start = cursor.at();
    let mut tags: Vec<(String, NbtTag)> = Vec::new();
    loop
        invariant
            cursor.wf(),
            cursor.bytes() == data,
            data == old(cursor).bytes(),
            start == old(cursor).at(),
            start <= cursor.at(),
            compound_at(data, start) == after_entries(
                entries_model(tags@),
                compound_at(data, cursor.at()),
            ),
        decreases data.len() - cursor.at(),
    {
        let ghost p = cursor.at();
        let t = match cursor.read_u8() {
            Some(t) => t,
            None => return Err(NbtError::Truncated),
        };
        proof {
            assert(data.subrange(p, p + 1) == seq![t]);
            assert(data[p] == seq![t][0]);
        }
        if t == 0 {
            proof {
                assert(entries_model(tags@) + seq![] =~= entries_model(tags@));
                assert(entries_model(tags@) =~= compound_model(NbtCompound { tags }));
            }
            return Ok(NbtCompound { tags });
        }
        let name = match read_nbt_string(cursor) {
            Ok(n) => n,
            Err(e) => return Err(e),
        };
        let v = match read_nbt_payload(cursor, t) {
            Ok(v) => v,
            Err(e) => return Err(e),
        };
        proof {
            let ghost q = cursor.at();
            assert(entries_model(tags@.push((name, v))) =~= entries_model(tags@) + seq![
                (name@, v@),
            ]);
            match compound_at(data, q) {
                Ok((vs, _)) => {
                    assert(entries_model(tags@) + (seq![(name@, v@)] + vs) =~= (entries_model(
                        tags@,
                    ) + seq![(name@, v@)]) + vs);
                },
                Err(_) => {},
            }
        }
        tags.push((name, v));
    }
}

/// What a decode call returned, over the values of the trees.
pub open spec fn tree_result(r: Result<NbtCompound, NbtError>) -> Result<
    Seq<(Seq<char>, NbtValue)>,
    NbtError,
> {
    match r {
        Ok(c) => Ok(c@),
        Err(e) => Err(e),
    }
}

/// Decodes a tagged tree. Empty input is an empty compound; otherwise the
/// input holds the entries of one compound, closed by its end marker.
pub fn parse_nbt(data: &[u8]) -> (r: Result<NbtCompound, NbtError>)
    ensures
        tree_result(r) == parse_tree(data@),
        data@.len() == 0 ==> (r matches Ok(c) && c.tags@.len() == 0),
{
    if data.len() == 0 {
        let c = NbtCompound { tags: Vec::new() };
        proof {
            assert(c@ =~= seq![]);
        }
        return Ok(c);
    }
    let mut cursor = ByteCursor::new(data);
    read_nbt_compound(&mut cursor)
}

/// Decoding keeps no state between calls: two decodes of the same bytes
/// give structurally equal results.
pub proof fn lemma_decode_repeatable(
    data: Seq<u8>,
    first: Result<NbtCompound, NbtError>,
    second: Result<NbtCompound, NbtError>,
)
    requires
        tree_result(first) == parse_tree(data),
        tree_result(second) == parse_tree(data),
    ensures
        tree_result(first) == tree_result(second),
{
}

} // verus!
