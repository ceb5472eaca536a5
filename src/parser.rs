//! The decoder: a cursor over a borrowed buffer, the recursive payload
//! decoder, the root entry point and the decompression gate.
use vstd::prelude::*;
use vstd::utf8::{decode_utf8, valid_utf8};
use std::io::Read;
use crate::error::NbtError;
use crate::grammar::{
    be16, be32, be64, document, fits, has_gzip_magic, int_elems, list_items,
    long_elems, payload, signed16, signed32, signed64, signed8, text_at, compound_entries,
    TagModel, TAG_COMPOUND, TAG_END,
};
use crate::tag::{entries_match, NbtCompound, NbtList, NbtTag};

verus! {

/// The nesting depth that [`NbtParser::new`] allows.
pub const DEFAULT_MAX_DEPTH: u32 = 512;

/// What inflating a gzip stream yields, or `None` where the stream is invalid.
pub uninterp spec fn gunzip(data: Seq<u8>) -> Option<Seq<u8>>;

/// The outcome of the decompression gate on `data`: the input itself when it
/// carries no gzip magic, else what it inflates to.
pub open spec fn decompressed(data: Seq<u8>) -> Result<Seq<u8>, NbtError> {
    if !has_gzip_magic(data) {
        Ok(data)
    } else {
        match gunzip(data) {
            Some(v) => Ok(v),
            None => Err(NbtError::DecompressionFailure),
        }
    }
}

/// Relies on `libflate::gzip::Decoder` and `Read::read_to_end`: the bytes
/// that the gzip stream inflates to, or `None` where it is malformed or
/// truncated.
#[verifier::external_body]
fn inflate_gzip(data: &[u8]) -> (r: Option<Vec<u8>>)
    ensures
        r matches Some(v) ==> gunzip(data@) == Some(v@),
        r is None ==> gunzip(data@) is None,
{
    let mut decoder = match libflate::gzip::Decoder::new(data) {
        Ok(d) => d,
        Err(_) => return None,
    };
    let mut out = Vec::new();
    match decoder.read_to_end(&mut out) {
        Ok(_) => Some(out),
        Err(_) => None,
    }
}

/// Relies on `std::str::from_utf8`: it accepts exactly the valid UTF-8
/// byte strings, and the text then holds the characters they encode.
#[verifier::external_body]
fn utf8_text(bytes: &[u8]) -> (r: Option<String>)
    ensures
        r is Some <==> valid_utf8(bytes@),
        r matches Some(s) ==> s@ == decode_utf8(bytes@),
{
    match std::str::from_utf8(bytes) {
        Ok(s) => Some(s.to_owned()),
        Err(_) => None,
    }
}

/// Reads the big-endian `u32` at `p`.
fn be32_at(d: &[u8], p: usize) -> (r: u32)
    requires
        fits(d@, p as int, 4),
    ensures
        r == be32(d@, p as int),
{
    (d[p] as u32) * 0x1000000 + (d[p + 1] as u32) * 0x10000 + (d[p + 2] as u32) * 0x100 + (d[p + 3] as u32)
}

fn to_i8(u: u8) -> (r: i8)
    ensures
        r == signed8(u),
{
    if u >= 0x80 { (u as i16 - 0x100) as i8 } else { u as i8 }
}

fn to_i16(u: u16) -> (r: i16)
    ensures
        r == signed16(u),
{
    if u >= 0x8000 { (u as i32 - 0x10000) as i16 } else { u as i16 }
}

fn to_i32(u: u32) -> (r: i32)
    ensures
        r == signed32(u),
{
    if u >= 0x8000_0000 { (u as i64 - 0x1_0000_0000) as i32 } else { u as i32 }
}

fn to_i64(u: u64) -> (r: i64)
    ensures
        r == signed64(u),
{
    if u >= 0x8000_0000_0000_0000 {
        (u - 0x8000_0000_0000_0000) as i64 + i64::MIN
    } else {
        u as i64
    }
}

/// A parser over a borrowed buffer, reading forward from a position.
pub struct NbtParser<'a> {
    data: &'a [u8],
    pos: usize,
    max_depth: u32,
}

impl<'a> NbtParser<'a> {
    /// The buffer being read.
    pub closed spec fn spec_data(&self) -> Seq<u8> {
        self.data@
    }

    /// The read position.
    pub closed spec fn spec_pos(&self) -> int {
        self.pos as int
    }

    /// How many List/Compound levels may be nested.
    pub closed spec fn spec_max_depth(&self) -> nat {
        self.max_depth as nat
    }

    /// `next` reads the same buffer with the same limit as `prev`.
    pub open spec fn same_source(prev: &Self, next: &Self) -> bool {
        &&& next.spec_data() == prev.spec_data()
        &&& next.spec_max_depth() == prev.spec_max_depth()
        &&& next.spec_pos() <= next.spec_data().len()
    }

    /// Creates a parser at the start of `data`, allowing nesting up to the
    /// default depth.
    pub fn new(data: &'a [u8]) -> (r: NbtParser<'a>)
        ensures
            r.spec_data() == data@,
            r.spec_pos() == 0,
            r.spec_max_depth() == DEFAULT_MAX_DEPTH as nat,
    {
        NbtParser { data, pos: 0, max_depth: DEFAULT_MAX_DEPTH }
    }

    /// Creates a parser at the start of `data`, allowing `max_depth` nested
    /// List/Compound levels.
    pub fn with_max_depth(data: &'a [u8], max_depth: u32) -> (r: NbtParser<'a>)
        ensures
            r.spec_data() == data@,
            r.spec_pos() == 0,
            r.spec_max_depth() == max_depth as nat,
    {
        NbtParser { data, pos: 0, max_depth }
    }

    /// Whether `data` starts with the gzip magic bytes.
    pub fn is_compressed(data: &[u8]) -> (r: bool)
        ensures
            r == has_gzip_magic(data@),
    {
        data.len() >= 2 && data[0] == 0x1F && data[1] == 0x8B
    }

    /// Reads one byte.
    pub fn read_u8(&mut self) -> (r: Result<u8, NbtError>)
        requires
            old(self).spec_pos() <= old(self).spec_data().len(),
        ensures
            Self::same_source(old(self), final(self)),
            fits(old(self).spec_data(), old(self).spec_pos(), 1) ==> r == Ok::<u8, NbtError>(old(self).spec_data()[old(self).spec_pos()])
                && final(self).spec_pos() == old(self).spec_pos() + 1,
            !fits(old(self).spec_data(), old(self).spec_pos(), 1) ==> r == Err::<u8, NbtError>(NbtError::UnexpectedEndOfData)
                && final(self).spec_pos() == old(self).spec_pos(),
    {
        if self.pos >= self.data.len() {
            return Err(NbtError::UnexpectedEndOfData);
        }
        let v = self.data[self.pos];
        self.pos = self.pos + 1;
        Ok(v)
    }

    /// Reads one signed byte.
    pub fn read_i8(&mut self) -> (r: Result<i8, NbtError>)
        requires
            old(self).spec_pos() <= old(self).spec_data().len(),
        ensures
            Self::same_source(old(self), final(self)),
            fits(old(self).spec_data(), old(self).spec_pos(), 1) ==> r == Ok::<i8, NbtError>(signed8(old(self).spec_data()[old(self).spec_pos()]))
                && final(self).spec_pos() == old(self).spec_pos() + 1,
            !fits(old(self).spec_data(), old(self).spec_pos(), 1) ==> r == Err::<i8, NbtError>(NbtError::UnexpectedEndOfData)
                && final(self).spec_pos() == old(self).spec_pos(),
    {
        let u = self.read_u8()?;
        Ok(to_i8(u))
    }

    /// Reads a big-endian `u16`.
    pub fn read_u16(&mut self) -> (r: Result<u16, NbtError>)
        requires
            old(self).spec_pos() <= old(self).spec_data().len(),
        ensures
            Self::same_source(old(self), final(self)),
            fits(old(self).spec_data(), old(self).spec_pos(), 2) ==> r == Ok::<u16, NbtError>(be16(old(self).spec_data(), old(self).spec_pos()))
                && final(self).spec_pos() == old(self).spec_pos() + 2,
            !fits(old(self).spec_data(), old(self).spec_pos(), 2) ==> r == Err::<u16, NbtError>(NbtError::UnexpectedEndOfData)
                && final(self).spec_pos() == old(self).spec_pos(),
    {
        if self.data.len() - self.pos < 2 {
            return Err(NbtError::UnexpectedEndOfData);
        }
        let v = (self.data[self.pos] as u16) * 0x100 + (self.data[self.pos + 1] as u16);
        self.pos = self.pos + 2;
        Ok(v)
    }

    /// Reads a big-endian `i16`.
    pub fn read_i16(&mut self) -> (r: Result<i16, NbtError>)
        requires
            old(self).spec_pos() <= old(self).spec_data().len(),
        ensures
            Self::same_source(old(self), final(self)),
            fits(old(self).spec_data(), old(self).spec_pos(), 2) ==> r == Ok::<i16, NbtError>(signed16(be16(old(self).spec_data(), old(self).spec_pos())))
                && final(self).spec_pos() == old(self).spec_pos() + 2,
            !fits(old(self).spec_data(), old(self).spec_pos(), 2) ==> r == Err::<i16, NbtError>(NbtError::UnexpectedEndOfData)
                && final(self).spec_pos() == old(self).spec_pos(),
    {
        let u = self.read_u16()?;
        Ok(to_i16(u))
    }

    /// Reads a big-endian `u32`.
    pub fn read_u32(&mut self) -> (r: Result<u32, NbtError>)
        requires
            old(self).spec_pos() <= old(self).spec_data().len(),
        ensures
            Self::same_source(old(self), final(self)),
            fits(old(self).spec_data(), old(self).spec_pos(), 4) ==> r == Ok::<u32, NbtError>(be32(old(self).spec_data(), old(self).spec_pos()))
                && final(self).spec_pos() == old(self).spec_pos() + 4,
            !fits(old(self).spec_data(), old(self).spec_pos(), 4) ==> r == Err::<u32, NbtError>(NbtError::UnexpectedEndOfData)
                && final(self).spec_pos() == old(self).spec_pos(),
    {
        if self.data.len() - self.pos < 4 {
            return Err(NbtError::UnexpectedEndOfData);
        }
        let v = be32_at(self.data, self.pos);
        self.pos = self.pos + 4;
        Ok(v)
    }

    /// Reads a big-endian `i32`.
    pub fn read_i32(&mut self) -> (r: Result<i32, NbtError>)
        requires
            old(self).spec_pos() <= old(self).spec_data().len(),
        ensures
            Self::same_source(old(self), final(self)),
            fits(old(self).spec_data(), old(self).spec_pos(), 4) ==> r == Ok::<i32, NbtError>(signed32(be32(old(self).spec_data(), old(self).spec_pos())))
                && final(self).spec_pos() == old(self).spec_pos() + 4,
            !fits(old(self).spec_data(), old(self).spec_pos(), 4) ==> r == Err::<i32, NbtError>(NbtError::UnexpectedEndOfData)
                && final(self).spec_pos() == old(self).spec_pos(),
    {
        let u = self.read_u32()?;
        Ok(to_i32(u))
    }

    /// Reads a big-endian `u64`.
    pub fn read_u64(&mut self) -> (r: Result<u64, NbtError>)
        requires
            old(self).spec_pos() <= old(self).spec_data().len(),
        ensures
            Self::same_source(old(self), final(self)),
            fits(old(self).spec_data(), old(self).spec_pos(), 8) ==> r == Ok::<u64, NbtError>(be64(old(self).spec_data(), old(self).spec_pos()))
                && final(self).spec_pos() == old(self).spec_pos() + 8,
            !fits(old(self).spec_data(), old(self).spec_pos(), 8) ==> r == Err::<u64, NbtError>(NbtError::UnexpectedEndOfData)
                && final(self).spec_pos() == old(self).spec_pos(),
    {
        if self.data.len() - self.pos < 8 {
            return Err(NbtError::UnexpectedEndOfData);
        }
        let hi = be32_at(self.data, self.pos);
        let lo = be32_at(self.data, self.pos + 4);
        self.pos = self.pos + 8;
        Ok((hi as u64) * 0x100000000 + (lo as u64))
    }

    /// Reads a big-endian `i64`.
    pub fn read_i64(&mut self) -> (r: Result<i64, NbtError>)
        requires
            old(self).spec_pos() <= old(self).spec_data().len(),
        ensures
            Self::same_source(old(self), final(self)),
            fits(old(self).spec_data(), old(self).spec_pos(), 8) ==> r == Ok::<i64, NbtError>(signed64(be64(old(self).spec_data(), old(self).spec_pos())))
                && final(self).spec_pos() == old(self).spec_pos() + 8,
            !fits(old(self).spec_data(), old(self).spec_pos(), 8) ==> r == Err::<i64, NbtError>(NbtError::UnexpectedEndOfData)
                && final(self).spec_pos() == old(self).spec_pos(),
    {
        let u = self.read_u64()?;
        Ok(to_i64(u))
    }

    /// Reads `len` raw bytes.
    pub fn read_bytes(&mut self, len: usize) -> (r: Result<Vec<u8>, NbtError>)
        requires
            old(self).spec_pos() <= old(self).spec_data().len(),
        ensures
            Self::same_source(old(self), final(self)),
            fits(old(self).spec_data(), old(self).spec_pos(), len as int) ==> (r matches Ok(v)
                && v@ == old(self).spec_data().subrange(old(self).spec_pos(), old(self).spec_pos() + len)
                && final(self).spec_pos() == old(self).spec_pos() + len),
            !fits(old(self).spec_data(), old(self).spec_pos(), len as int) ==> r == Err::<Vec<u8>, NbtError>(NbtError::UnexpectedEndOfData)
                && final(self).spec_pos() == old(self).spec_pos(),
    {
        if self.data.len() - self.pos < len {
            return Err(NbtError::UnexpectedEndOfData);
        }
        let ghost d = self.data@;
        let total = self.data.len();
        let start = self.pos;
        let mut out: Vec<u8> = Vec::new();
        let mut i: usize = 0;
        while i < len
            invariant
                d == self.data@,
                start + len <= d.len(),
                total == d.len(),
                i <= len,
                out@ == d.subrange(start as int, start + i),
            decreases len - i,
        {
            out.push(self.data[start + i]);
            i = i + 1;
            proof {
                assert(out@ =~= d.subrange(start as int, start + i));
            }
        }
        self.pos = start + len;
        Ok(out)
    }

    /// Reads `len` big-endian `i32` values.
    pub fn read_i32_array(&mut self, len: usize) -> (r: Result<Vec<i32>, NbtError>)
        requires
            old(self).spec_pos() <= old(self).spec_data().len(),
        ensures
            Self::same_source(old(self), final(self)),
            fits(old(self).spec_data(), old(self).spec_pos(), 4 * len) ==> (r matches Ok(v)
                && v@ == int_elems(old(self).spec_data(), old(self).spec_pos(), len as int)
                && final(self).spec_pos() == old(self).spec_pos() + 4 * len),
            !fits(old(self).spec_data(), old(self).spec_pos(), 4 * len) ==> r == Err::<Vec<i32>, NbtError>(NbtError::UnexpectedEndOfData)
                && final(self).spec_pos() == old(self).spec_pos(),
    {
        let avail = self.data.len() - self.pos;
        if len > avail / 4 {
            proof {
                assert(4 * len > avail) by (nonlinear_arith)
                    requires
                        len > avail / 4,
                ;
            }
            return Err(NbtError::UnexpectedEndOfData);
        }
        proof {
            assert(4 * len <= avail) by (nonlinear_arith)
                requires
                    len <= avail / 4,
            ;
        }
        let total = self.data.len();
        let ghost d = self.data@;
        let start = self.pos;
        let mut out: Vec<i32> = Vec::new();
        let mut i: usize = 0;
        while i < len
            invariant
                d == self.data@,
                start + 4 * len <= d.len(),
                total == d.len(),
                i <= len,
                out@ == int_elems(d, start as int, i as int),
            decreases len - i,
        {
            let u = be32_at(self.data, start + 4 * i);
            out.push(to_i32(u));
            i = i + 1;
            proof {
                assert(out@ =~= int_elems(d, start as int, i as int));
            }
        }
        self.pos = start + 4 * len;
        Ok(out)
    }

    /// Reads `len` big-endian `i64` values.
    pub fn read_i64_array(&mut self, len: usize) -> (r: Result<Vec<i64>, NbtError>)
        requires
            old(self).spec_pos() <= old(self).spec_data().len(),
        ensures
            Self::same_source(old(self), final(self)),
            fits(old(self).spec_data(), old(self).spec_pos(), 8 * len) ==> (r matches Ok(v)
                && v@ == long_elems(old(self).spec_data(), old(self).spec_pos(), len as int)
                && final(self).spec_pos() == old(self).spec_pos() + 8 * len),
            !fits(old(self).spec_data(), old(self).spec_pos(), 8 * len) ==> r == Err::<Vec<i64>, NbtError>(NbtError::UnexpectedEndOfData)
                && final(self).spec_pos() == old(self).spec_pos(),
    {
        let avail = self.data.len() - self.pos;
        if len > avail / 8 {
            proof {
                assert(8 * len > avail) by (nonlinear_arith)
                    requires
                        len > avail / 8,
                ;
            }
            return Err(NbtError::UnexpectedEndOfData);
        }
        proof {
            assert(8 * len <= avail) by (nonlinear_arith)
                requires
                    len <= avail / 8,
            ;
        }
        let total = self.data.len();
        let ghost d = self.data@;
        let start = self.pos;
        let mut out: Vec<i64> = Vec::new();
        let mut i: usize = 0;
        while i < len
            invariant
                d == self.data@,
                start + 8 * len <= d.len(),
                total == d.len(),
                i <= len,
                out@ == long_elems(d, start as int, i as int),
            decreases len - i,
        {
            let hi = be32_at(self.data, start + 8 * i);
            let lo = be32_at(self.data, start + 8 * i + 4);
            out.push(to_i64((hi as u64) * 0x100000000 + (lo as u64)));
            i = i + 1;
            proof {
                assert(out@ =~= long_elems(d, start as int, i as int));
            }
        }
        self.pos = start + 8 * len;
        Ok(out)
    }

    /// Reads a length-prefixed UTF-8 text.
    pub fn parse_string(&mut self) -> (r: Result<String, NbtError>)
        requires
            old(self).spec_pos() <= old(self).spec_data().len(),
        ensures
            Self::same_source(old(self), final(self)),
            r matches Ok(s) ==> text_at(old(self).spec_data(), old(self).spec_pos()) == Ok::<(Seq<char>, int), NbtError>((s@, final(self).spec_pos())),
            r matches Err(e) ==> text_at(old(self).spec_data(), old(self).spec_pos()) == Err::<(Seq<char>, int), NbtError>(e),
    {
        let n = self.read_u16()? as usize;
        if self.data.len() - self.pos < n {
            return Err(NbtError::UnexpectedEndOfData);
        }
        let bytes = vstd::slice::slice_subrange(self.data, self.pos, self.pos + n);
        match utf8_text(bytes) {
            None => Err(NbtError::MalformedData),
            Some(s) => {
                self.pos = self.pos + n;
                Ok(s)
            },
        }
    }

    /// Decodes the payload of a tag of type `tag`, with `budget` List/Compound
    /// levels left to open.
    pub fn parse_payload(&mut self, tag: u8, budget: u32) -> (r: Result<NbtTag, NbtError>)
        requires
            old(self).spec_pos() <= old(self).spec_data().len(),
        ensures
            Self::same_source(old(self), final(self)),
            r matches Ok(t) ==> final(self).spec_pos() >= old(self).spec_pos()
                && payload(old(self).spec_data(), old(self).spec_pos(), tag, budget as nat)
                    == Ok::<(TagModel, int), NbtError>((t.model(), final(self).spec_pos())),
            r matches Err(e) ==> payload(old(self).spec_data(), old(self).spec_pos(), tag, budget as nat)
                == Err::<(TagModel, int), NbtError>(e),
        decreases budget, 0nat,
    {
        match tag {
            0 => Ok(NbtTag::End),
            1 => {
                let v = self.read_i8()?;
                Ok(NbtTag::Byte(v))
            },
            2 => {
                let v = self.read_i16()?;
                Ok(NbtTag::Short(v))
            },
            3 => {
                let v = self.read_i32()?;
                Ok(NbtTag::Int(v))
            },
            4 => {
                let v = self.read_i64()?;
                Ok(NbtTag::Long(v))
            },
            5 => {
                let v = self.read_u32()?;
                Ok(NbtTag::Float(v))
            },
            6 => {
                let v = self.read_u64()?;
                Ok(NbtTag::Double(v))
            },
            7 => {
                let n = self.read_i32()?;
                if n < 0 {
                    return Err(NbtError::MalformedData);
                }
                let v = self.read_bytes(n as usize)?;
                Ok(NbtTag::ByteArray(v))
            },
            8 => {
                let s = self.parse_string()?;
                Ok(NbtTag::String(s))
            },
            9 => {
                if budget == 0 {
                    return Err(NbtError::DepthExceeded);
                }
                let elem = self.read_u8()?;
                let n = self.read_i32()?;
                if n < 0 {
                    return Err(NbtError::MalformedData);
                }
                let list = self.parse_list(elem, n as usize, budget - 1)?;
                Ok(NbtTag::List(list))
            },
            10 => {
                if budget == 0 {
                    return Err(NbtError::DepthExceeded);
                }
                let c = self.parse_compound(budget - 1)?;
                Ok(NbtTag::Compound(c))
            },
            11 => {
                let n = self.read_i32()?;
                if n < 0 {
                    return Err(NbtError::MalformedData);
                }
                let v = self.read_i32_array(n as usize)?;
                Ok(NbtTag::IntArray(v))
            },
            12 => {
                let n = self.read_i32()?;
                if n < 0 {
                    return Err(NbtError::MalformedData);
                }
                let v = self.read_i64_array(n as usize)?;
                Ok(NbtTag::LongArray(v))
            },
            _ => Err(NbtError::MalformedData),
        }
    }

    /// Decodes `n` list elements of type `elem`.
    fn parse_list(&mut self, elem: u8, n: usize, budget: u32) -> (r: Result<NbtList, NbtError>)
        requires
            old(self).spec_pos() <= old(self).spec_data().len(),
        ensures
            Self::same_source(old(self), final(self)),
            r matches Ok(l) ==> final(self).spec_pos() >= old(self).spec_pos()
                && l.spec_element_type() == elem
                && list_items(old(self).spec_data(), old(self).spec_pos(), elem, n as nat, budget as nat, Seq::empty())
                    == Ok::<(Seq<TagModel>, int), NbtError>((l@, final(self).spec_pos())),
            r matches Err(e) ==> list_items(old(self).spec_data(), old(self).spec_pos(), elem, n as nat, budget as nat, Seq::empty())
                == Err::<(Seq<TagModel>, int), NbtError>(e),
        decreases budget, 1nat,
    {
        let ghost d = self.spec_data();
        let ghost p0 = self.spec_pos();
        let ghost md = self.spec_max_depth();
        let ghost mut items: Seq<TagModel> = Seq::empty();
        let mut elements: Vec<NbtTag> = Vec::new();
        let mut i: usize = 0;
        while i < n
            invariant
                d == old(self).spec_data(),
                p0 == old(self).spec_pos(),
                md == old(self).spec_max_depth(),
                self.spec_data() == d,
                self.spec_max_depth() == md,
                p0 <= self.spec_pos() <= d.len(),
                i <= n,
                elements@.len() == i,
                items.len() == i,
                forall|j: int| 0 <= j < i ==> #[trigger] elements@[j].model() == items[j],
                list_items(d, self.spec_pos(), elem, (n - i) as nat, budget as nat, items)
                    == list_items(d, p0, elem, n as nat, budget as nat, Seq::empty()),
            decreases n - i,
        {
            let v = self.parse_payload(elem, budget)?;
            proof {
                items = items.push(v.model());
            }
            elements.push(v);
            i = i + 1;
        }
        Ok(NbtList::from_parts(elem, elements, Ghost(items)))
    }

    /// Decodes compound entries up to and including the End byte.
    fn parse_compound(&mut self, budget: u32) -> (r: Result<NbtCompound, NbtError>)
        requires
            old(self).spec_pos() <= old(self).spec_data().len(),
        ensures
            Self::same_source(old(self), final(self)),
            r matches Ok(c) ==> final(self).spec_pos() > old(self).spec_pos()
                && compound_entries(old(self).spec_data(), old(self).spec_pos(), budget as nat, Map::empty())
                    == Ok::<(Map<Seq<char>, TagModel>, int), NbtError>((c@, final(self).spec_pos())),
            r matches Err(e) ==> compound_entries(old(self).spec_data(), old(self).spec_pos(), budget as nat, Map::empty())
                == Err::<(Map<Seq<char>, TagModel>, int), NbtError>(e),
        decreases budget, 1nat,
    {
        let ghost d = self.spec_data();
        let ghost p0 = self.spec_pos();
        let ghost md = self.spec_max_depth();
        let ghost mut m: Map<Seq<char>, TagModel> = Map::empty();
        let mut tags: Vec<(String, NbtTag)> = Vec::new();
        loop
            invariant
                d == old(self).spec_data(),
                p0 == old(self).spec_pos(),
                md == old(self).spec_max_depth(),
                self.spec_data() == d,
                self.spec_max_depth() == md,
                p0 <= self.spec_pos() <= d.len(),
                entries_match(tags@, m),
                compound_entries(d, self.spec_pos(), budget as nat, m)
                    == compound_entries(d, p0, budget as nat, Map::empty()),
            decreases d.len() - self.spec_pos(),
        {
            let tag = self.read_u8()?;
            if tag == TAG_END {
                return Ok(NbtCompound::from_parts(tags, Ghost(m)));
            }
            let name = self.parse_string()?;
            let value = self.parse_payload(tag, budget)?;
            let ghost prev = m;
            proof {
                m = m.insert(name@, value.model());
            }
            insert_entry(&mut tags, Ghost(prev), name, value);
        }
    }

    /// Decodes a whole document: a Compound tag with its name, read from the
    /// current position. The buffer must not carry the gzip magic prefix.
    pub fn parse(&mut self) -> (r: Result<(String, NbtTag), NbtError>)
        requires
            old(self).spec_pos() <= old(self).spec_data().len(),
        ensures
            Self::same_source(old(self), final(self)),
            r matches Ok((name, t)) ==> document(old(self).spec_data(), old(self).spec_pos(), old(self).spec_max_depth())
                == Ok::<(Seq<char>, TagModel, int), NbtError>((name@, t.model(), final(self).spec_pos())),
            r matches Err(e) ==> document(old(self).spec_data(), old(self).spec_pos(), old(self).spec_max_depth())
                == Err::<(Seq<char>, TagModel, int), NbtError>(e),
    {
        if Self::is_compressed(self.data) {
            return Err(NbtError::StillCompressed);
        }
        let tag = self.read_u8()?;
        if tag != TAG_COMPOUND {
            return Err(NbtError::InvalidRoot(tag));
        }
        let name = self.parse_string()?;
        let budget = self.max_depth;
        let payload = self.parse_payload(tag, budget)?;
        Ok((name, payload))
    }

    /// Inflates `data` if it starts with the gzip magic bytes; otherwise
    /// returns a copy of it.
    pub fn decompress(data: &[u8]) -> (r: Result<Vec<u8>, NbtError>)
        ensures
            r matches Ok(v) ==> decompressed(data@) == Ok::<Seq<u8>, NbtError>(v@),
            r matches Err(e) ==> decompressed(data@) == Err::<Seq<u8>, NbtError>(e),
    {
        if !Self::is_compressed(data) {
            return Ok(vstd::slice::slice_to_vec(data));
        }
        match inflate_gzip(data) {
            Some(v) => Ok(v),
            None => Err(NbtError::DecompressionFailure),
        }
    }
}

/// Inserts `(name, value)` into entries with distinct names, replacing the
/// entry of the same name if there is one.
fn insert_entry(tags: &mut Vec<(String, NbtTag)>, prev: Ghost<Map<Seq<char>, TagModel>>, name: String, value: NbtTag)
    requires
        entries_match(old(tags)@, prev@),
    ensures
        entries_match(final(tags)@, prev@.insert(name@, value.model())),
{
    let ghost key = name@;
    let ghost vm = value.model();
    let ghost m = prev@.insert(key, vm);
    let mut i: usize = 0;
    while i < tags.len()
        invariant
            entries_match(tags@, prev@),
            key == name@,
            vm == value.model(),
            m == prev@.insert(key, vm),
            i <= tags@.len(),
            forall|j: int| 0 <= j < i ==> tags@[j].0@ != key,
        decreases tags@.len() - i,
    {
        if tags[i].0 == name {
            let ghost before = tags@;
            tags[i] = (name, value);
            proof {
                assert(forall|j: int| 0 <= j < tags@.len() ==> #[trigger] tags@[j].0@ == before[j].0@);
                assert forall|k: Seq<char>| #[trigger] m.contains_key(k) implies exists|j: int| 0 <= j < tags@.len() && tags@[j].0@ == k by {
                    if k != key {
                        assert(prev@.contains_key(k));
                        assert(before.len() == tags@.len());
                        let j = choose|j: int| 0 <= j < before.len() && before[j].0@ == k;
                        assert(tags@[j].0@ == k);
                    } else {
                        assert(tags@[i as int].0@ == k);
                    }
                }
            }
            return;
        }
        i = i + 1;
    }
    let ghost before = tags@;
    tags.push((name, value));
    proof {
        assert(forall|j: int| 0 <= j < before.len() ==> #[trigger] tags@[j] == before[j]);
        assert forall|k: Seq<char>| #[trigger] m.contains_key(k) implies exists|j: int| 0 <= j < tags@.len() && tags@[j].0@ == k by {
            if k != key {
                assert(prev@.contains_key(k));
                let j = choose|j: int| 0 <= j < before.len() && before[j].0@ == k;
                assert(tags@[j].0@ == k);
            } else {
                assert(tags@[before.len() as int].0@ == k);
            }
        }
    }
}

} // verus!
