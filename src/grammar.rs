//! The byte grammar of the format, as spec functions over the input buffer.
//!
//! Each function reads from a position `p` of the buffer `d` and yields either
//! the decoded value with the position just past it, or the error that decoding
//! stops with. `budget` is the number of List/Compound levels that may still
//! be opened.
use vstd::prelude::*;
use vstd::utf8::{decode_utf8, valid_utf8};
use crate::error::NbtError;

verus! {

/// The mathematical value of a decoded tag.
pub enum TagModel {
    End,
    Byte(i8),
    Short(i16),
    Int(i32),
    Long(i64),
    /// The IEEE-754 bit pattern of a 32-bit float.
    Float(u32),
    /// The IEEE-754 bit pattern of a 64-bit float.
    Double(u64),
    ByteArray(Seq<u8>),
    String(Seq<char>),
    /// The declared element type and the elements.
    List(u8, Seq<TagModel>),
    Compound(Map<Seq<char>, TagModel>),
    IntArray(Seq<i32>),
    LongArray(Seq<i64>),
}

pub const TAG_END: u8 = 0;
pub const TAG_BYTE: u8 = 1;
pub const TAG_SHORT: u8 = 2;
pub const TAG_INT: u8 = 3;
pub const TAG_LONG: u8 = 4;
pub const TAG_FLOAT: u8 = 5;
pub const TAG_DOUBLE: u8 = 6;
pub const TAG_BYTE_ARRAY: u8 = 7;
pub const TAG_STRING: u8 = 8;
pub const TAG_LIST: u8 = 9;
pub const TAG_COMPOUND: u8 = 10;
pub const TAG_INT_ARRAY: u8 = 11;
pub const TAG_LONG_ARRAY: u8 = 12;

/// Whether the buffer starts with the gzip magic bytes `0x1F 0x8B`.
pub open spec fn has_gzip_magic(d: Seq<u8>) -> bool {
    d.len() >= 2 && d[0] == 0x1F && d[1] == 0x8B
}

/// Whether `width` bytes can be read at `p`.
pub open spec fn fits(d: Seq<u8>, p: int, width: int) -> bool {
    0 <= p && p + width <= d.len()
}

pub open spec fn be16(d: Seq<u8>, p: int) -> u16 {
    (d[p] as int * 0x100 + d[p + 1] as int) as u16
}

pub open spec fn be32(d: Seq<u8>, p: int) -> u32 {
    (d[p] as int * 0x1000000 + d[p + 1] as int * 0x10000 + d[p + 2] as int * 0x100
        + d[p + 3] as int) as u32
}

pub open spec fn be64(d: Seq<u8>, p: int) -> u64 {
    (be32(d, p) as int * 0x100000000 + be32(d, p + 4) as int) as u64
}

/// Two's-complement reading of an unsigned value.
pub open spec fn signed8(u: u8) -> i8 {
    if u >= 0x80 { (u as int - 0x100) as i8 } else { u as i8 }
}

pub open spec fn signed16(u: u16) -> i16 {
    if u >= 0x8000 { (u as int - 0x10000) as i16 } else { u as i16 }
}

pub open spec fn signed32(u: u32) -> i32 {
    if u >= 0x8000_0000 { (u as int - 0x1_0000_0000) as i32 } else { u as i32 }
}

pub open spec fn signed64(u: u64) -> i64 {
    if u >= 0x8000_0000_0000_0000 {
        (u as int - 0x1_0000_0000_0000_0000) as i64
    } else {
        u as i64
    }
}

/// A length-prefixed text: a big-endian `u16` byte count, then that many
/// bytes, which must be valid UTF-8.
pub open spec fn text_at(d: Seq<u8>, p: int) -> Result<(Seq<char>, int), NbtError> {
    if !fits(d, p, 2) {
        Err(NbtError::UnexpectedEndOfData)
    } else {
        let n = be16(d, p) as int;
        if !fits(d, p + 2, n) {
            Err(NbtError::UnexpectedEndOfData)
        } else if !valid_utf8(d.subrange(p + 2, p + 2 + n)) {
            Err(NbtError::MalformedData)
        } else {
            Ok((decode_utf8(d.subrange(p + 2, p + 2 + n)), p + 2 + n))
        }
    }
}

/// The `i`-th element of an array of big-endian 32-bit integers at `p`.
pub open spec fn int_elems(d: Seq<u8>, p: int, n: int) -> Seq<i32> {
    Seq::new(n as nat, |i: int| signed32(be32(d, p + 4 * i)))
}

pub open spec fn long_elems(d: Seq<u8>, p: int, n: int) -> Seq<i64> {
    Seq::new(n as nat, |i: int| signed64(be64(d, p + 8 * i)))
}

/// An array: a signed 32-bit count, then `count * width` bytes.
/// Returns the count and the position of the first element.
pub open spec fn array_header(d: Seq<u8>, p: int, width: int) -> Result<(int, int), NbtError> {
    if !fits(d, p, 4) {
        Err(NbtError::UnexpectedEndOfData)
    } else {
        let n = signed32(be32(d, p)) as int;
        if n < 0 {
            Err(NbtError::MalformedData)
        } else if !fits(d, p + 4, n * width) {
            Err(NbtError::UnexpectedEndOfData)
        } else {
            Ok((n, p + 4))
        }
    }
}

/// The payload of a tag of type `tag` at `p`.
pub open spec fn payload(d: Seq<u8>, p: int, tag: u8, budget: nat) -> Result<(TagModel, int), NbtError>
    decreases budget, 0nat, 0nat,
{
    if tag == TAG_END {
        Ok((TagModel::End, p))
    } else if tag == TAG_BYTE {
        if fits(d, p, 1) { Ok((TagModel::Byte(signed8(d[p])), p + 1)) }
        else { Err(NbtError::UnexpectedEndOfData) }
    } else if tag == TAG_SHORT {
        if fits(d, p, 2) { Ok((TagModel::Short(signed16(be16(d, p))), p + 2)) }
        else { Err(NbtError::UnexpectedEndOfData) }
    } else if tag == TAG_INT {
        if fits(d, p, 4) { Ok((TagModel::Int(signed32(be32(d, p))), p + 4)) }
        else { Err(NbtError::UnexpectedEndOfData) }
    } else if tag == TAG_LONG {
        if fits(d, p, 8) { Ok((TagModel::Long(signed64(be64(d, p))), p + 8)) }
        else { Err(NbtError::UnexpectedEndOfData) }
    } else if tag == TAG_FLOAT {
        if fits(d, p, 4) { Ok((TagModel::Float(be32(d, p)), p + 4)) }
        else { Err(NbtError::UnexpectedEndOfData) }
    } else if tag == TAG_DOUBLE {
        if fits(d, p, 8) { Ok((TagModel::Double(be64(d, p)), p + 8)) }
        else { Err(NbtError::UnexpectedEndOfData) }
    } else if tag == TAG_BYTE_ARRAY {
        match array_header(d, p, 1) {
            Err(e) => Err(e),
            Ok((n, q)) => Ok((TagModel::ByteArray(d.subrange(q, q + n)), q + n)),
        }
    } else if tag == TAG_STRING {
        match text_at(d, p) {
            Err(e) => Err(e),
            Ok((s, q)) => Ok((TagModel::String(s), q)),
        }
    } else if tag == TAG_LIST {
        if budget == 0 {
            Err(NbtError::DepthExceeded)
        } else if !fits(d, p, 5) {
            Err(NbtError::UnexpectedEndOfData)
        } else {
            let n = signed32(be32(d, p + 1)) as int;
            if n < 0 {
                Err(NbtError::MalformedData)
            } else {
                match list_items(d, p + 5, d[p], n as nat, (budget - 1) as nat, Seq::empty()) {
                    Err(e) => Err(e),
                    Ok((items, q)) => Ok((TagModel::List(d[p], items), q)),
                }
            }
        }
    } else if tag == TAG_COMPOUND {
        if budget == 0 {
            Err(NbtError::DepthExceeded)
        } else {
            match compound_entries(d, p, (budget - 1) as nat, Map::empty()) {
                Err(e) => Err(e),
                Ok((m, q)) => Ok((TagModel::Compound(m), q)),
            }
        }
    } else if tag == TAG_INT_ARRAY {
        match array_header(d, p, 4) {
            Err(e) => Err(e),
            Ok((n, q)) => Ok((TagModel::IntArray(int_elems(d, q, n)), q + 4 * n)),
        }
    } else if tag == TAG_LONG_ARRAY {
        match array_header(d, p, 8) {
            Err(e) => Err(e),
            Ok((n, q)) => Ok((TagModel::LongArray(long_elems(d, q, n)), q + 8 * n)),
        }
    } else {
        Err(NbtError::MalformedData)
    }
}

/// `n` more list elements of type `elem` at `p`, appended to `acc`.
pub open spec fn list_items(
    d: Seq<u8>,
    p: int,
    elem: u8,
    n: nat,
    budget: nat,
    acc: Seq<TagModel>,
) -> Result<(Seq<TagModel>, int), NbtError>
    decreases budget, 1nat, n,
{
    if n == 0 {
        Ok((acc, p))
    } else {
        match payload(d, p, elem, budget) {
            Err(e) => Err(e),
            Ok((v, q)) => list_items(d, q, elem, (n - 1) as nat, budget, acc.push(v)),
        }
    }
}

/// The remaining entries of a compound at `p`, inserted into `acc` in order
/// (a later entry with the same name replaces an earlier one), up to and
/// including the End byte.
pub open spec fn compound_entries(
    d: Seq<u8>,
    p: int,
    budget: nat,
    acc: Map<Seq<char>, TagModel>,
) -> Result<(Map<Seq<char>, TagModel>, int), NbtError>
    decreases budget, 1nat, (d.len() - p) as nat,
{
    if !fits(d, p, 1) {
        Err(NbtError::UnexpectedEndOfData)
    } else if d[p] == TAG_END {
        Ok((acc, p + 1))
    } else {
        match text_at(d, p + 1) {
            Err(e) => Err(e),
            Ok((name, q)) => match payload(d, q, d[p], budget) {
                Err(e) => Err(e),
                Ok((v, r)) => if r <= p || r > d.len() {
                    // never taken: every payload ends within the buffer, after `p`
                    Err(NbtError::MalformedData)
                } else {
                    compound_entries(d, r, budget, acc.insert(name, v))
                },
            },
        }
    }
}

/// A whole document read from `p`: a Compound tag with its name.
pub open spec fn document(d: Seq<u8>, p: int, budget: nat) -> Result<(Seq<char>, TagModel, int), NbtError> {
    if has_gzip_magic(d) {
        Err(NbtError::StillCompressed)
    } else if !fits(d, p, 1) {
        Err(NbtError::UnexpectedEndOfData)
    } else if d[p] != TAG_COMPOUND {
        Err(NbtError::InvalidRoot(d[p]))
    } else {
        match text_at(d, p + 1) {
            Err(e) => Err(e),
            Ok((name, q)) => match payload(d, q, TAG_COMPOUND, budget) {
                Err(e) => Err(e),
                Ok((v, r)) => Ok((name, v, r)),
            },
        }
    }
}

} // verus!
