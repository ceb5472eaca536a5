//! Cutting a decodable buffer short: every cut before the end of what was
//! decoded fails with `UnexpectedEndOfData`, and a cut after it changes nothing.
use vstd::prelude::*;
use crate::error::NbtError;
use crate::grammar::{
    array_header, be16, be32, be64, compound_entries, document, fits, int_elems, list_items,
    long_elems, payload, signed32, text_at, TagModel, TAG_BYTE_ARRAY, TAG_COMPOUND, TAG_END,
    TAG_INT_ARRAY, TAG_LIST, TAG_LONG_ARRAY, TAG_STRING,
};

verus! {

proof fn lemma_text_prefix(d: Seq<u8>, k: int, p: int, s: Seq<char>, e: int)
    requires
        0 <= p <= k <= d.len(),
        text_at(d, p) == Ok::<(Seq<char>, int), NbtError>((s, e)),
    ensures
        p <= e <= d.len(),
        k >= e ==> text_at(d.take(k), p) == Ok::<(Seq<char>, int), NbtError>((s, e)),
        k < e ==> text_at(d.take(k), p) == Err::<(Seq<char>, int), NbtError>(NbtError::UnexpectedEndOfData),
{
    let t = d.take(k);
    if k >= p + 2 {
        assert(be16(t, p) == be16(d, p));
        let n = be16(d, p) as int;
        if k >= p + 2 + n {
            assert(t.subrange(p + 2, p + 2 + n) =~= d.subrange(p + 2, p + 2 + n));
        }
    }
}

proof fn lemma_array_prefix(d: Seq<u8>, k: int, p: int, width: int, n: int, q: int)
    requires
        0 <= p <= k <= d.len(),
        1 <= width,
        array_header(d, p, width) == Ok::<(int, int), NbtError>((n, q)),
    ensures
        q == p + 4,
        0 <= n,
        0 <= n * width,
        q + n * width <= d.len(),
        k >= q + n * width ==> array_header(d.take(k), p, width) == Ok::<(int, int), NbtError>((n, q)),
        k < q + n * width ==> array_header(d.take(k), p, width) == Err::<(int, int), NbtError>(NbtError::UnexpectedEndOfData),
{
    let t = d.take(k);
    if k >= p + 4 {
        assert(be32(t, p) == be32(d, p));
    }
    assert(0 <= n * width) by (nonlinear_arith)
        requires
            0 <= n,
            1 <= width,
    ;
}

proof fn lemma_payload_prefix(d: Seq<u8>, k: int, p: int, tag: u8, budget: nat, v: TagModel, e: int)
    requires
        0 <= p <= k <= d.len(),
        payload(d, p, tag, budget) == Ok::<(TagModel, int), NbtError>((v, e)),
    ensures
        p <= e <= d.len(),
        k >= e ==> payload(d.take(k), p, tag, budget) == Ok::<(TagModel, int), NbtError>((v, e)),
        k < e ==> payload(d.take(k), p, tag, budget) == Err::<(TagModel, int), NbtError>(NbtError::UnexpectedEndOfData),
    decreases budget, 0nat, 0nat,
{
    let t = d.take(k);
    if fits(d, p, 8) && k >= p + 8 {
        assert(be32(t, p + 4) == be32(d, p + 4));
        assert(be64(t, p) == be64(d, p));
    }
    if fits(d, p, 4) && k >= p + 4 {
        assert(be32(t, p) == be32(d, p));
    }
    if fits(d, p, 2) && k >= p + 2 {
        assert(be16(t, p) == be16(d, p));
    }
    if tag == TAG_BYTE_ARRAY {
        let (n, q) = array_header(d, p, 1).unwrap();
        lemma_array_prefix(d, k, p, 1, n, q);
        if k >= q + n {
            assert(t.subrange(q, q + n) =~= d.subrange(q, q + n));
        }
    } else if tag == TAG_INT_ARRAY {
        let (n, q) = array_header(d, p, 4).unwrap();
        lemma_array_prefix(d, k, p, 4, n, q);
        if k >= q + n * 4 {
            assert forall|i: int| 0 <= i < n implies #[trigger] be32(t, q + 4 * i) == be32(d, q + 4 * i) by {}
            assert(int_elems(t, q, n) =~= int_elems(d, q, n));
        }
    } else if tag == TAG_LONG_ARRAY {
        let (n, q) = array_header(d, p, 8).unwrap();
        lemma_array_prefix(d, k, p, 8, n, q);
        if k >= q + n * 8 {
            assert forall|i: int| 0 <= i < n implies #[trigger] be64(t, q + 8 * i) == be64(d, q + 8 * i) by {
                assert(be32(t, q + 8 * i) == be32(d, q + 8 * i));
                assert(be32(t, q + 8 * i + 4) == be32(d, q + 8 * i + 4));
            }
            assert(long_elems(t, q, n) =~= long_elems(d, q, n));
        }
    } else if tag == TAG_STRING {
        let (s, q) = text_at(d, p).unwrap();
        lemma_text_prefix(d, k, p, s, q);
    } else if tag == TAG_LIST {
        let n = signed32(be32(d, p + 1)) as int;
        let (items, q) = list_items(d, p + 5, d[p], n as nat, (budget - 1) as nat, Seq::empty()).unwrap();
        if k >= p + 5 {
            assert(be32(t, p + 1) == be32(d, p + 1));
            lemma_list_prefix(d, k, p + 5, d[p], n as nat, (budget - 1) as nat, Seq::empty(), items, q);
        } else {
            lemma_list_prefix(d, p + 5, p + 5, d[p], n as nat, (budget - 1) as nat, Seq::empty(), items, q);
        }
    } else if tag == TAG_COMPOUND {
        let (m, q) = compound_entries(d, p, (budget - 1) as nat, Map::empty()).unwrap();
        lemma_compound_prefix(d, k, p, (budget - 1) as nat, Map::empty(), m, q);
    }
}

proof fn lemma_list_prefix(
    d: Seq<u8>,
    k: int,
    p: int,
    elem: u8,
    n: nat,
    budget: nat,
    acc: Seq<TagModel>,
    items: Seq<TagModel>,
    e: int,
)
    requires
        0 <= p <= k <= d.len(),
        list_items(d, p, elem, n, budget, acc) == Ok::<(Seq<TagModel>, int), NbtError>((items, e)),
    ensures
        p <= e <= d.len(),
        k >= e ==> list_items(d.take(k), p, elem, n, budget, acc) == Ok::<(Seq<TagModel>, int), NbtError>((items, e)),
        k < e ==> list_items(d.take(k), p, elem, n, budget, acc) == Err::<(Seq<TagModel>, int), NbtError>(NbtError::UnexpectedEndOfData),
    decreases budget, 1nat, n,
{
    if n > 0 {
        let (v, q) = payload(d, p, elem, budget).unwrap();
        lemma_payload_prefix(d, k, p, elem, budget, v, q);
        if k >= q {
            lemma_list_prefix(d, k, q, elem, (n - 1) as nat, budget, acc.push(v), items, e);
        } else {
            lemma_list_prefix(d, q, q, elem, (n - 1) as nat, budget, acc.push(v), items, e);
        }
    }
}

proof fn lemma_compound_prefix(
    d: Seq<u8>,
    k: int,
    p: int,
    budget: nat,
    acc: Map<Seq<char>, TagModel>,
    m: Map<Seq<char>, TagModel>,
    e: int,
)
    requires
        0 <= p <= k <= d.len(),
        compound_entries(d, p, budget, acc) == Ok::<(Map<Seq<char>, TagModel>, int), NbtError>((m, e)),
    ensures
        p < e <= d.len(),
        k >= e ==> compound_entries(d.take(k), p, budget, acc) == Ok::<(Map<Seq<char>, TagModel>, int), NbtError>((m, e)),
        k < e ==> compound_entries(d.take(k), p, budget, acc) == Err::<(Map<Seq<char>, TagModel>, int), NbtError>(NbtError::UnexpectedEndOfData),
    decreases budget, 1nat, (d.len() - p) as nat,
{
    if d[p] != TAG_END {
        let (name, q) = text_at(d, p + 1).unwrap();
        if k >= p + 1 {
            lemma_text_prefix(d, k, p + 1, name, q);
        } else {
            lemma_text_prefix(d, p + 1, p + 1, name, q);
        }
        let (v, r) = payload(d, q, d[p], budget).unwrap();
        if k >= q {
            lemma_payload_prefix(d, k, q, d[p], budget, v, r);
        } else {
            lemma_payload_prefix(d, q, q, d[p], budget, v, r);
        }
        if k >= r {
            lemma_compound_prefix(d, k, r, budget, acc.insert(name, v), m, e);
        } else {
            lemma_compound_prefix(d, r, r, budget, acc.insert(name, v), m, e);
        }
    }
}

/// Cutting a decodable buffer anywhere before the end of its root compound
/// makes decoding fail with `UnexpectedEndOfData`.
pub proof fn lemma_truncated_document_ends_early(
    d: Seq<u8>,
    budget: nat,
    name: Seq<char>,
    v: TagModel,
    e: int,
    k: int,
)
    requires
        document(d, 0, budget) == Ok::<(Seq<char>, TagModel, int), NbtError>((name, v, e)),
        0 <= k < e,
    ensures
        document(d.take(k), 0, budget) == Err::<(Seq<char>, TagModel, int), NbtError>(NbtError::UnexpectedEndOfData),
{
    let (s, q) = text_at(d, 1).unwrap();
    lemma_text_prefix(d, 1, 1, s, q);
    let (w, r) = payload(d, q, TAG_COMPOUND, budget).unwrap();
    lemma_payload_prefix(d, q, q, TAG_COMPOUND, budget, w, r);
    if k >= 1 {
        lemma_text_prefix(d, k, 1, s, q);
        if k >= q {
            lemma_payload_prefix(d, k, q, TAG_COMPOUND, budget, w, r);
        }
    }
}

} // verus!
