use vstd::prelude::*;

use rust_dense_bitset::DenseBitSet;

verus! {

/// Declares rust_dense_bitset::DenseBitSet so that it can stand in
/// signatures and fields; the crate stores a 64-bit mask behind it.
#[verifier::external_type_specification]
#[verifier::external_body]
pub struct ExDenseBitSet(DenseBitSet);

/// The 64-bit mask a DenseBitSet holds; rust_dense_bitset's
/// DenseBitSet::to_integer returns exactly this value.
pub uninterp spec fn bits_of(b: DenseBitSet) -> u64;

/// An opaque user id attached to a shape in the index.
#[derive(Debug, Copy, Clone, PartialEq, Eq, Structural)]
pub struct Tag(pub usize);

/// A set of categorical flags attached to a shape, stored as a 64-bit bitset.
#[derive(Debug, Copy, Clone)]
pub struct Kinds(pub DenseBitSet);

impl Kinds {
    /// The mask this kind set holds.
    pub open spec fn mask(self) -> u64 {
        bits_of(self.0)
    }
}

/// Selects shapes by their tag.
#[derive(Debug, Copy, Clone, PartialEq, Eq, Structural)]
pub enum TagQuery {
    All,
    Tag(Tag),
    Except(Tag),
}

/// Selects shapes by their kind set.
#[derive(Debug, Copy, Clone)]
pub enum KindsQuery {
    All,
    /// Matches the shapes that share at least one kind with the given set.
    HasCommon(Kinds),
}

/// A query filter: a shape matches iff both the tag part and the kinds part
/// match.
#[derive(Debug, Copy, Clone)]
pub struct Query(pub TagQuery, pub KindsQuery);

/// What the index keeps of a shape for filtering: its tag and its kind set.
#[derive(Debug, Copy, Clone)]
pub struct ShapeMeta {
    pub tag: Tag,
    pub kinds: Kinds,
}

pub open spec fn spec_matches_tag(t: Tag, q: TagQuery) -> bool {
    match q {
        TagQuery::All => true,
        TagQuery::Tag(x) => x == t,
        TagQuery::Except(x) => x != t,
    }
}

pub open spec fn spec_matches_kinds(k: Kinds, q: KindsQuery) -> bool {
    match q {
        KindsQuery::All => true,
        KindsQuery::HasCommon(m) => (m.mask() & k.mask()) != 0,
    }
}

pub open spec fn spec_matches(m: ShapeMeta, q: Query) -> bool {
    spec_matches_tag(m.tag, q.0) && spec_matches_kinds(m.kinds, q.1)
}

/// Relies on rust_dense_bitset's BitAnd impl for DenseBitSet: the result's
/// state is the bitwise AND of the operands' states.
#[verifier::external_body]
fn mask_and(a: &Kinds, b: &Kinds) -> (r: DenseBitSet)
    ensures
        bits_of(r) == bits_of(a.0) & bits_of(b.0),
{
    a.0 & b.0
}

/// Relies on DenseBitSet::any: true iff some bit of the state is set.
#[verifier::external_body]
fn mask_any(b: DenseBitSet) -> (r: bool)
    ensures
        r == (bits_of(b) != 0),
{
    b.any()
}

fn matches_tag_query(s: &ShapeMeta, q: TagQuery) -> (r: bool)
    ensures
        r == spec_matches_tag(s.tag, q),
{
    match q {
        TagQuery::All => true,
        TagQuery::Tag(tag) => tag == s.tag,
        TagQuery::Except(tag) => tag != s.tag,
    }
}

fn matches_kinds_query(s: &ShapeMeta, q: KindsQuery) -> (r: bool)
    ensures
        r == spec_matches_kinds(s.kinds, q),
{
    match q {
        KindsQuery::All => true,
        KindsQuery::HasCommon(kinds) => mask_any(mask_and(&kinds, &s.kinds)),
    }
}

/// Whether a shape's tag and kind set pass the filter.
pub fn matches_query(s: &ShapeMeta, q: Query) -> (r: bool)
    ensures
        r == spec_matches(*s, q),
{
    matches_tag_query(s, q.0) && matches_kinds_query(s, q.1)
}

} // verus!
