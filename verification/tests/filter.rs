use memegeom::query::{matches_query, Kinds, KindsQuery, Query, ShapeMeta, Tag, TagQuery};
use rust_dense_bitset::{BitSet, DenseBitSet};

fn kinds_with_bits(bits: &[usize]) -> Kinds {
    let mut bs = DenseBitSet::new();
    for &b in bits {
        bs.set_bit(b, true);
    }
    Kinds(bs)
}

fn meta(tag: usize, bits: &[usize]) -> ShapeMeta {
    ShapeMeta { tag: Tag(tag), kinds: kinds_with_bits(bits) }
}

#[test]
fn matches_all_query() {
    let q = Query(TagQuery::All, KindsQuery::All);
    assert!(matches_query(&meta(1, &[]), q));
    assert!(matches_query(&meta(7, &[0, 5]), q));
}

#[test]
fn matches_tag() {
    let q = Query(TagQuery::Tag(Tag(1)), KindsQuery::All);
    assert!(matches_query(&meta(1, &[]), q));
    assert!(!matches_query(&meta(2, &[]), q));
}

#[test]
fn matches_except_tag() {
    let q = Query(TagQuery::Except(Tag(1)), KindsQuery::All);
    assert!(!matches_query(&meta(1, &[]), q));
    assert!(matches_query(&meta(2, &[]), q));
}

#[test]
fn matches_kinds_has_common() {
    let q = Query(TagQuery::All, KindsQuery::HasCommon(kinds_with_bits(&[0])));
    // Shares bit 0.
    assert!(matches_query(&meta(0, &[0]), q));
    assert!(matches_query(&meta(0, &[0, 3]), q));
    // Only bit 1: no common kind.
    assert!(!matches_query(&meta(0, &[1]), q));
    // No kinds at all.
    assert!(!matches_query(&meta(0, &[]), q));
}

#[test]
fn matches_kinds_overlap_is_not_identity() {
    // The AND of the two masks decides, not either mask alone.
    let q = Query(TagQuery::All, KindsQuery::HasCommon(kinds_with_bits(&[2, 4])));
    assert!(matches_query(&meta(0, &[4, 9]), q));
    assert!(!matches_query(&meta(0, &[3, 9]), q));
}

#[test]
fn matches_both_parts_must_pass() {
    let q = Query(TagQuery::Tag(Tag(5)), KindsQuery::HasCommon(kinds_with_bits(&[1])));
    assert!(matches_query(&meta(5, &[1]), q));
    assert!(!matches_query(&meta(5, &[0]), q));
    assert!(!matches_query(&meta(4, &[1]), q));
}
