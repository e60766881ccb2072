//! The component-sync message: an entity identifier, then named
//! components, each normally framed by a two-byte length and holding a tree.

use vstd::prelude::*;
use vstd::slice::slice_to_vec;

use crate::cursor::be_at;
use crate::cursor::lemma_be_nat_two;
use crate::cursor::ByteCursor;
use crate::nbt::parse_nbt;
use crate::nbt::parse_tree;
use crate::nbt::NbtCompound;
use crate::nbt::NbtValue;
use crate::wire::lemma_varint_from_advances;
use crate::wire::read_string;
use crate::wire::read_varint;
use crate::wire::string_at;
use crate::wire::varint_at;

verus! {

/// Why a message could not be decoded at all.
#[derive(Debug, Clone, Copy, PartialEq, Eq, Structural)]
pub enum PacketError {
    /// The leading entity identifier could not be read.
    MissingEntityId,
    /// A component's type identifier could not be read.
    MissingComponentType,
}

/// What a component holds.
#[derive(Debug)]
pub enum ComponentData {
    /// Framed bytes that did not decode as a tree.
    Nbt(Vec<u8>),
    /// Framed bytes that decoded as a tree.
    ParsedNbt(NbtCompound),
    /// Every byte left when no framing could be read.
    Unknown(Vec<u8>),
}

/// One component of a message.
#[derive(Debug)]
pub struct CcaComponent {
    /// The component's type identifier.
    pub component_type: String,
    pub data: ComponentData,
}

/// A decoded component-sync message.
#[derive(Debug)]
pub struct CcaEntitySyncPacket {
    /// The entity whose components are synchronised.
    pub entity_id: i32,
    pub components: Vec<CcaComponent>,
}

pub enum PayloadModel {
    Raw(Seq<u8>),
    Parsed(Seq<(Seq<char>, NbtValue)>),
    Unknown(Seq<u8>),
}

pub struct ComponentModel {
    pub component_type: Seq<char>,
    pub data: PayloadModel,
}

pub struct PacketModel {
    pub entity_id: i32,
    pub components: Seq<ComponentModel>,
}

impl View for CcaComponent {
    type V = ComponentModel;

    open spec fn view(&self) -> ComponentModel {
        ComponentModel {
            component_type: self.component_type@,
            data: match self.data {
                ComponentData::Nbt(b) => PayloadModel::Raw(b@),
                ComponentData::ParsedNbt(c) => PayloadModel::Parsed(c@),
                ComponentData::Unknown(b) => PayloadModel::Unknown(b@),
            },
        }
    }
}

pub open spec fn components_model(v: Seq<CcaComponent>) -> Seq<ComponentModel> {
    Seq::new(v.len(), |i: int| v[i]@)
}

impl View for CcaEntitySyncPacket {
    type V = PacketModel;

    open spec fn view(&self) -> PacketModel {
        PacketModel { entity_id: self.entity_id, components: components_model(self.components@) }
    }
}

/// A framed body: its tree when it decodes as one, else the bytes themselves.
pub open spec fn framed_payload(body: Seq<u8>) -> PayloadModel {
    match parse_tree(body) {
        Ok(entries) => PayloadModel::Parsed(entries),
        Err(_) => PayloadModel::Raw(body),
    }
}

/// The components from `pos` to the end of `data`. A component whose
/// framing is missing or too long for what remains takes every remaining
/// byte and ends the message. A string always ends after its start, so the
/// second failure below is never reached.
pub open spec fn components_at(data: Seq<u8>, pos: int) -> Result<Seq<ComponentModel>, PacketError>
    decreases data.len() - pos,
{
    if !(0 <= pos < data.len()) {
        Ok(seq![])
    } else {
        match string_at(data, pos) {
            None => Err(PacketError::MissingComponentType),
            Some((ty, p)) => if !(pos < p <= data.len()) {
                Err(PacketError::MissingComponentType)
            } else {
                match be_at(data, p, 2) {
                    Some((l, q)) => if q + l <= data.len() {
                        let c = ComponentModel {
                            component_type: ty,
                            data: framed_payload(data.subrange(q, q + l)),
                        };
                        match components_at(data, q + l) {
                            Ok(rest) => Ok(seq![c] + rest),
                            Err(e) => Err(e),
                        }
                    } else {
                        Ok(
                            seq![
                                ComponentModel {
                                    component_type: ty,
                                    data: PayloadModel::Unknown(data.subrange(p, data.len() as int)),
                                },
                            ],
                        )
                    },
                    None => Ok(
                        seq![
                            ComponentModel {
                                component_type: ty,
                                data: PayloadModel::Unknown(data.subrange(p, data.len() as int)),
                            },
                        ],
                    ),
                }
            },
        }
    }
}

/// The message that `data` holds.
pub open spec fn entity_sync_at(data: Seq<u8>) -> Result<PacketModel, PacketError> {
    match varint_at(data, 0) {
        None => Err(PacketError::MissingEntityId),
        Some((id, p)) => match components_at(data, p) {
            Ok(cs) => Ok(PacketModel { entity_id: id, components: cs }),
            Err(e) => Err(e),
        },
    }
}

/// `prefix` put before the components of a decoded run.
pub open spec fn after_components(
    prefix: Seq<ComponentModel>,
    r: Result<Seq<ComponentModel>, PacketError>,
) -> Result<Seq<ComponentModel>, PacketError> {
    match r {
        Ok(cs) => Ok(prefix + cs),
        Err(e) => Err(e),
    }
}

/// A string of this encoding always ends after its start and within the data.
pub proof fn lemma_string_advances(data: Seq<u8>, pos: int)
    ensures
        string_at(data, pos) matches Some((_, p)) ==> pos < p <= data.len(),
{
    lemma_varint_from_advances(data, pos, 0, 0);
}

/// Decodes a component-sync message: a variable-length entity identifier,
/// then, while bytes remain, a component type string and a two-byte
/// big-endian framed body that is decoded as a tree when it can be. A body
/// that is not a tree is kept as raw bytes; when the framing cannot be read
/// the rest of the message becomes one unknown component.
#[verifier::rlimit(40)]
pub fn decode_cca_entity_sync(data: &[u8]) -> (r: Result<CcaEntitySyncPacket, PacketError>)
    ensures
        match r {
            Ok(p) => entity_sync_at(data@) == Ok::<_, PacketError>(p@),
            Err(e) => entity_sync_at(data@) == Err::<PacketModel, _>(e),
        },
{
    let mut cursor = ByteCursor::new(data);
    let entity_id = match read_varint(&mut cursor) {
        Some(v) => v,
        None => return Err(PacketError::MissingEntityId),
    };
    let ghost first = cursor.at();
    let mut components: Vec<CcaComponent> = Vec::new();
    while cursor.position() < data.len()
        invariant
            cursor.wf(),
            cursor.bytes() == data@,
            varint_at(data@, 0) == Some((entity_id, first)),
            components_at(data@, first) == after_components(
                components_model(components@),
                components_at(data@, cursor.at()),
            ),
        decreases data@.len() - cursor.at(),
    {
        let ghost pos = cursor.at();
        let component_type = match read_string(&mut cursor) {
            Some(s) => s,
            None => return Err(PacketError::MissingComponentType),
        };
        proof {
            lemma_string_advances(data@, pos);
        }
        let start = cursor.position();
        let remaining = data.len() - start;
        if remaining >= 2 {
            let nbt_len = (data[start] as usize) * 256 + data[start + 1] as usize;
            proof {
                lemma_be_nat_two(data@.subrange(start as int, start + 2));
            }
            if remaining - 2 >= nbt_len {
                let framed = match cursor.take(nbt_len + 2) {
                    Some(f) => f,
                    None => return Err(PacketError::MissingComponentType),
                };
                let body = slice_to_vec(vstd::slice::slice_subrange(framed, 2, nbt_len + 2));
                proof {
                    assert(body@ =~= data@.subrange(start + 2, start + 2 + nbt_len));
                }
                let component_data = match parse_nbt(body.as_slice()) {
                    Ok(nbt) => ComponentData::ParsedNbt(nbt),
                    Err(_) => ComponentData::Nbt(body),
                };
                let c = CcaComponent { component_type, data: component_data };
                proof {
                    assert(components_model(components@.push(c)) =~= components_model(components@)
                        + seq![c@]);
                    match components_at(data@, cursor.at()) {
                        Ok(cs) => {
                            assert(components_model(components@) + (seq![c@] + cs) =~= (
                            components_model(components@) + seq![c@]) + cs);
                        },
                        Err(_) => {},
                    }
                }
                components.push(c);
                continue ;
            }
        }
        let rest = match cursor.take(remaining) {
            Some(b) => slice_to_vec(b),
            None => return Err(PacketError::MissingComponentType),
        };
        let c = CcaComponent { component_type, data: ComponentData::Unknown(rest) };
        proof {
            assert(components_model(components@.push(c)) =~= components_model(components@) + seq![
                c@,
            ]);
        }
        components.push(c);
        return Ok(CcaEntitySyncPacket { entity_id, components });
    }
    proof {
        assert(components_model(components@) + seq![] =~= components_model(components@));
    }
    Ok(CcaEntitySyncPacket { entity_id, components })
}

/// A component whose framed body is not a tree keeps exactly the framed
/// bytes, and the components after it are decoded as usual.
pub proof fn lemma_unparsed_body_kept(data: Seq<u8>, pos: int, ty: Seq<char>, p: int, len: nat)
    requires
        0 <= pos < data.len(),
        string_at(data, pos) == Some((ty, p)),
        be_at(data, p, 2) == Some((len, p + 2)),
        p + 2 + len <= data.len(),
        parse_tree(data.subrange(p + 2, p + 2 + len)) is Err,
    ensures
        components_at(data, pos) == after_components(
            seq![
                ComponentModel {
                    component_type: ty,
                    data: PayloadModel::Raw(data.subrange(p + 2, p + 2 + len)),
                },
            ],
            components_at(data, p + 2 + len),
        ),
{
    lemma_string_advances(data, pos);
}

/// When fewer than two bytes follow a component's type, that component
/// takes every remaining byte as unknown data and decoding ends without
/// failure.
pub proof fn lemma_missing_framing_takes_rest(data: Seq<u8>, pos: int, ty: Seq<char>, p: int)
    requires
        0 <= pos < data.len(),
        string_at(data, pos) == Some((ty, p)),
        p + 2 > data.len(),
    ensures
        components_at(data, pos) == Ok::<_, PacketError>(
            seq![
                ComponentModel {
                    component_type: ty,
                    data: PayloadModel::Unknown(data.subrange(p, data.len() as int)),
                },
            ],
        ),
{
    lemma_string_advances(data, pos);
}

} // verus!
