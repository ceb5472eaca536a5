//! Properties of the format that hold across inputs and across calls.
use vstd::prelude::*;
use vstd::utf8::valid_utf8;
use crate::error::NbtError;
use crate::grammar::{
    be16, be32, compound_entries, document, fits, has_gzip_magic, list_items, payload, signed32,
    text_at,
    TagModel, TAG_BYTE_ARRAY, TAG_COMPOUND, TAG_END, TAG_INT_ARRAY, TAG_LIST, TAG_LONG_ARRAY,
    TAG_STRING,
};
use crate::parser::decompressed;

verus! {

/// A buffer that starts with the gzip magic bytes is refused as still
/// compressed, wherever reading would start.
pub proof fn lemma_compressed_input_refused(d: Seq<u8>, p: int, budget: nat)
    requires
        has_gzip_magic(d),
    ensures
        document(d, p, budget) == Err::<(Seq<char>, TagModel, int), NbtError>(NbtError::StillCompressed),
{
}

/// When the decompression gate yields a buffer that then decodes, that buffer
/// starts with the Compound type id.
pub proof fn lemma_decompressed_document_starts_with_compound(d: Seq<u8>, v: Seq<u8>, budget: nat)
    requires
        decompressed(d) == Ok::<Seq<u8>, NbtError>(v),
        document(v, 0, budget) is Ok,
    ensures
        v.len() > 0,
        v[0] == TAG_COMPOUND,
{
}

/// An array (byte, int or long) whose declared count is negative is malformed,
/// whatever follows it.
pub proof fn lemma_negative_array_count_malformed(d: Seq<u8>, p: int, tag: u8, budget: nat)
    requires
        tag == TAG_BYTE_ARRAY || tag == TAG_INT_ARRAY || tag == TAG_LONG_ARRAY,
        fits(d, p, 4),
        signed32(be32(d, p)) < 0,
    ensures
        payload(d, p, tag, budget) == Err::<(TagModel, int), NbtError>(NbtError::MalformedData),
{
}

/// A list whose declared count is negative is malformed, whatever follows it.
pub proof fn lemma_negative_list_count_malformed(d: Seq<u8>, p: int, budget: nat)
    requires
        budget > 0,
        fits(d, p, 5),
        signed32(be32(d, p + 1)) < 0,
    ensures
        payload(d, p, TAG_LIST, budget) == Err::<(TagModel, int), NbtError>(NbtError::MalformedData),
{
}

/// A List or Compound opened with no nesting budget left is refused as too
/// deep, whatever it holds.
pub proof fn lemma_depth_exhausted(d: Seq<u8>, p: int, tag: u8)
    requires
        tag == TAG_LIST || tag == TAG_COMPOUND,
    ensures
        payload(d, p, tag, 0) == Err::<(TagModel, int), NbtError>(NbtError::DepthExceeded),
{
}

/// Text bytes that are not valid UTF-8 make a String payload malformed; no
/// text is produced.
pub proof fn lemma_invalid_text_malformed(d: Seq<u8>, p: int, budget: nat)
    requires
        fits(d, p, 2),
        fits(d, p + 2, be16(d, p) as int),
        !valid_utf8(d.subrange(p + 2, p + 2 + be16(d, p))),
    ensures
        text_at(d, p) == Err::<(Seq<char>, int), NbtError>(NbtError::MalformedData),
        payload(d, p, TAG_STRING, budget) == Err::<(TagModel, int), NbtError>(NbtError::MalformedData),
{
}

/// Two entries of one name, then the End byte: the compound keeps the value
/// of the later entry.
pub proof fn lemma_later_entry_wins(
    d: Seq<u8>,
    p: int,
    budget: nat,
    acc: Map<Seq<char>, TagModel>,
    name: Seq<char>,
    q1: int,
    v1: TagModel,
    r1: int,
    q2: int,
    v2: TagModel,
    r2: int,
)
    requires
        0 <= p < r1 < r2 < d.len(),
        d[p] != TAG_END,
        text_at(d, p + 1) == Ok::<(Seq<char>, int), NbtError>((name, q1)),
        payload(d, q1, d[p], budget) == Ok::<(TagModel, int), NbtError>((v1, r1)),
        d[r1] != TAG_END,
        text_at(d, r1 + 1) == Ok::<(Seq<char>, int), NbtError>((name, q2)),
        payload(d, q2, d[r1], budget) == Ok::<(TagModel, int), NbtError>((v2, r2)),
        d[r2] == TAG_END,
    ensures
        compound_entries(d, p, budget, acc)
            == Ok::<(Map<Seq<char>, TagModel>, int), NbtError>((acc.insert(name, v2), r2 + 1)),
{
    assert(acc.insert(name, v1).insert(name, v2) =~= acc.insert(name, v2));
    assert(compound_entries(d, r2, budget, acc.insert(name, v1).insert(name, v2))
        == Ok::<(Map<Seq<char>, TagModel>, int), NbtError>((acc.insert(name, v1).insert(name, v2), r2 + 1)));
    assert(compound_entries(d, r1, budget, acc.insert(name, v1))
        == compound_entries(d, r2, budget, acc.insert(name, v1).insert(name, v2)));
}

/// Raising the nesting limit never turns a successful decode into another
/// result: what decodes within a limit decodes the same within any larger one.
pub proof fn lemma_payload_budget_monotone(d: Seq<u8>, p: int, tag: u8, budget: nat, larger: nat)
    requires
        budget <= larger,
        payload(d, p, tag, budget) is Ok,
    ensures
        payload(d, p, tag, larger) == payload(d, p, tag, budget),
    decreases budget, 0nat, 0nat,
{
    if tag == TAG_LIST {
        let n = signed32(be32(d, p + 1)) as int;
        lemma_list_budget_monotone(d, p + 5, d[p], n as nat, (budget - 1) as nat, (larger - 1) as nat, Seq::empty());
    } else if tag == TAG_COMPOUND {
        lemma_compound_budget_monotone(d, p, (budget - 1) as nat, (larger - 1) as nat, Map::empty());
    }
}

proof fn lemma_list_budget_monotone(d: Seq<u8>, p: int, elem: u8, n: nat, budget: nat, larger: nat, acc: Seq<TagModel>)
    requires
        budget <= larger,
        list_items(d, p, elem, n, budget, acc) is Ok,
    ensures
        list_items(d, p, elem, n, larger, acc) == list_items(d, p, elem, n, budget, acc),
    decreases budget, 1nat, n,
{
    if n > 0 {
        lemma_payload_budget_monotone(d, p, elem, budget, larger);
        let (v, q) = payload(d, p, elem, budget).unwrap();
        lemma_list_budget_monotone(d, q, elem, (n - 1) as nat, budget, larger, acc.push(v));
    }
}

proof fn lemma_compound_budget_monotone(d: Seq<u8>, p: int, budget: nat, larger: nat, acc: Map<Seq<char>, TagModel>)
    requires
        budget <= larger,
        compound_entries(d, p, budget, acc) is Ok,
    ensures
        compound_entries(d, p, larger, acc) == compound_entries(d, p, budget, acc),
    decreases budget, 1nat, (d.len() - p) as nat,
{
    if fits(d, p, 1) && d[p] != TAG_END {
        let (name, q) = text_at(d, p + 1).unwrap();
        lemma_payload_budget_monotone(d, q, d[p], budget, larger);
        let (v, r) = payload(d, q, d[p], budget).unwrap();
        lemma_compound_budget_monotone(d, r, budget, larger, acc.insert(name, v));
    }
}

/// A document that decodes within a nesting limit decodes the same within any
/// larger limit.
pub proof fn lemma_document_budget_monotone(d: Seq<u8>, p: int, budget: nat, larger: nat)
    requires
        budget <= larger,
        document(d, p, budget) is Ok,
    ensures
        document(d, p, larger) == document(d, p, budget),
{
    let (s, q) = text_at(d, p + 1).unwrap();
    lemma_payload_budget_monotone(d, q, TAG_COMPOUND, budget, larger);
}

} // verus!
