//! The decoded tree: tagged values, lists and compounds.
use vstd::prelude::*;
use crate::grammar::TagModel;

verus! {

/// One decoded value. Floats are kept as their IEEE-754 bit patterns.

pub enum NbtTag {
    End,
    Byte(i8),
    Short(i16),
    Int(i32),
    Long(i64),
    Float(u32),
    Double(u64),
    ByteArray(Vec<u8>),
    String(String),
    List(NbtList),
    Compound(NbtCompound),
    IntArray(Vec<i32>),
    LongArray(Vec<i64>),
}

/// A homogeneous list: the declared element type and the elements in order.

pub struct NbtList {
    element_type: u8,
    elements: Vec<NbtTag>,
    items: Ghost<Seq<TagModel>>,
}

/// A mapping from names to values; each name occurs once.

pub struct NbtCompound {
    tags: Vec<(String, NbtTag)>,
    entries: Ghost<Map<Seq<char>, TagModel>>,
}

impl NbtTag {
    /// The mathematical value of this tag.
    pub open spec fn model(&self) -> TagModel {
        match self {
            NbtTag::End => TagModel::End,
            NbtTag::Byte(v) => TagModel::Byte(*v),
            NbtTag::Short(v) => TagModel::Short(*v),
            NbtTag::Int(v) => TagModel::Int(*v),
            NbtTag::Long(v) => TagModel::Long(*v),
            NbtTag::Float(v) => TagModel::Float(*v),
            NbtTag::Double(v) => TagModel::Double(*v),
            NbtTag::ByteArray(v) => TagModel::ByteArray(v@),
            NbtTag::String(s) => TagModel::String(s@),
            NbtTag::List(l) => TagModel::List(l.spec_element_type(), l@),
            NbtTag::Compound(c) => TagModel::Compound(c@),
            NbtTag::IntArray(v) => TagModel::IntArray(v@),
            NbtTag::LongArray(v) => TagModel::LongArray(v@),
        }
    }
}

impl View for NbtList {
    type V = Seq<TagModel>;

    closed spec fn view(&self) -> Seq<TagModel> {
        self.items@
    }
}

impl NbtList {
    #[verifier::type_invariant]
    spec fn inv(self) -> bool {
        &&& self.items@.len() == self.elements@.len()
        &&& forall|i: int| 0 <= i < self.elements@.len() ==> #[trigger] self.elements@[i].model() == self.items@[i]
    }

    pub closed spec fn spec_element_type(&self) -> u8 {
        self.element_type
    }

    pub(crate) fn from_parts(element_type: u8, elements: Vec<NbtTag>, items: Ghost<Seq<TagModel>>) -> (r: NbtList)
        requires
            items@.len() == elements@.len(),
            forall|i: int| 0 <= i < elements@.len() ==> #[trigger] elements@[i].model() == items@[i],
        ensures
            r@ == items@,
            r.spec_element_type() == element_type,
    {
        NbtList { element_type, elements, items }
    }

    /// The declared type of the elements.
    pub fn element_type(&self) -> (r: u8)
        ensures
            r == self.spec_element_type(),
    {
        self.element_type
    }

    /// The elements, in order.
    pub fn elements(&self) -> (r: &Vec<NbtTag>)
        ensures
            r@.len() == self@.len(),
            forall|i: int| 0 <= i < r@.len() ==> #[trigger] r@[i].model() == self@[i],
    {
        proof { use_type_invariant(self); }
        &self.elements
    }
}

/// The map that a list of entries with distinct names stands for.
pub open spec fn entries_match(tags: Seq<(String, NbtTag)>, m: Map<Seq<char>, TagModel>) -> bool {
    &&& forall|i: int, j: int| 0 <= i < j < tags.len() ==> tags[i].0@ != tags[j].0@
    &&& forall|k: Seq<char>| #[trigger] m.contains_key(k) <==> exists|i: int| 0 <= i < tags.len() && tags[i].0@ == k
    &&& forall|i: int| 0 <= i < tags.len() ==> m.contains_key(#[trigger] tags[i].0@) && m[tags[i].0@] == tags[i].1.model()
}

impl View for NbtCompound {
    type V = Map<Seq<char>, TagModel>;

    closed spec fn view(&self) -> Map<Seq<char>, TagModel> {
        self.entries@
    }
}

impl NbtCompound {
    #[verifier::type_invariant]
    spec fn inv(self) -> bool {
        entries_match(self.tags@, self.entries@)
    }

    pub(crate) fn from_parts(tags: Vec<(String, NbtTag)>, entries: Ghost<Map<Seq<char>, TagModel>>) -> (r: NbtCompound)
        requires
            entries_match(tags@, entries@),
        ensures
            r@ == entries@,
    {
        NbtCompound { tags, entries }
    }

    /// The value stored under `name`, if any.
    pub fn get(&self, name: &str) -> (r: Option<&NbtTag>)
        ensures
            r is Some <==> self@.contains_key(name@),
            r is Some ==> r->0.model() == self@[name@],
    {
        proof { use_type_invariant(self); }
        let key = name.to_owned();
        let mut i: usize = 0;
        while i < self.tags.len()
            invariant
                0 <= i <= self.tags@.len(),
                key@ == name@,
                entries_match(self.tags@, self.entries@),
                forall|j: int| 0 <= j < i ==> self.tags@[j].0@ != name@,
            decreases self.tags@.len() - i,
        {
            if self.tags[i].0 == key {
                return Some(&self.tags[i].1);
            }
            i = i + 1;
        }
        None
    }
}

} // verus!
