//! Decoders for extension payloads of the game protocol: variable-length
//! integers, length-prefixed strings, tagged binary trees and the
//! component-sync message built from them, with short text summaries of
//! decoded values; and sets of block state identifiers with the extended
//! bound on the identifiers accepted.

pub mod cursor;
pub mod wire;
pub mod nbt;
pub mod packet;
pub mod range;
pub mod format;
