use memegeom::quadtree::{DistScan, QtCore, ScanOutcome, TEST_THRESHOLD};
use memegeom::query::{Kinds, KindsQuery, Query, ShapeMeta, Tag, TagQuery};
use rust_dense_bitset::DenseBitSet;

fn anon() -> ShapeMeta {
    ShapeMeta { tag: Tag(usize::MAX), kinds: Kinds(DenseBitSet::new()) }
}

fn tagged(t: usize) -> ShapeMeta {
    ShapeMeta { tag: Tag(t), kinds: Kinds(DenseBitSet::new()) }
}

fn all() -> Query {
    Query(TagQuery::All, KindsQuery::All)
}

#[test]
fn from_metas_seeds_root() {
    let q = QtCore::from_metas(&vec![anon(), anon(), anon()]);
    assert_eq!(q.slot_count(), 3);
    assert_eq!(q.node_count(), 2);
    assert_eq!(q.entry_count(1), 3);
    let idxs: Vec<usize> = q.nodes[1].intersect.iter().map(|e| e.shape_idx).collect();
    assert_eq!(idxs, vec![0, 1, 2]);
    assert!(q.nodes[1].intersect.iter().all(|e| e.tests == 0));
}

#[test]
fn insert_grows_then_reuses_freed_handle() {
    let mut q = QtCore::new();
    let a = q.insert_slot(anon());
    let b = q.insert_slot(anon());
    assert_eq!(a, 0);
    assert_eq!(b, 1);

    q.remove_shape(a);
    assert!(!q.is_occupied(a));

    // The freed handle is handed out again before the table grows.
    let c = q.insert_slot(anon());
    assert_eq!(c, a);
    assert!(q.is_occupied(c));
    assert_eq!(q.slot_count(), 2);
}

#[test]
fn remove_sweeps_node_lists() {
    let mut q = QtCore::from_metas(&vec![anon(), anon()]);
    q.remove_shape(0);
    let idxs: Vec<usize> = q.nodes[1].intersect.iter().map(|e| e.shape_idx).collect();
    assert_eq!(idxs, vec![1]);
    assert_eq!(q.free, vec![0]);

    // Removing an unknown or already-removed handle changes nothing.
    q.remove_shape(0);
    q.remove_shape(99);
    assert_eq!(q.free, vec![0]);
    assert_eq!(q.entry_count(1), 1);
}

#[test]
fn scan_tests_then_caches() {
    let mut q = QtCore::from_metas(&vec![anon()]);

    // First scan: nothing cached, the shape must be tested.
    match q.scan_intersect(1, all(), 0) {
        ScanOutcome::Test(i, s) => {
            assert_eq!(i, 0);
            assert_eq!(s, 0);
        }
        _ => panic!("expected a direct test"),
    }
    assert_eq!(q.nodes[1].intersect[0].tests, 1);

    q.store_intersect(0, true);

    // Second scan: the memoized positive outcome answers.
    match q.scan_intersect(1, all(), 0) {
        ScanOutcome::Hit(i) => assert_eq!(i, 0),
        _ => panic!("expected a memoized hit"),
    }
    assert_eq!(q.nodes[1].intersect[0].tests, 2);

    // A memoized negative outcome is passed over silently.
    q.store_intersect(0, false);
    match q.scan_intersect(1, all(), 0) {
        ScanOutcome::Done => {}
        _ => panic!("expected the scan to pass the negative outcome over"),
    }
    assert_eq!(q.nodes[1].intersect[0].tests, 3);
}

#[test]
fn scan_rejected_leaves_cache_untouched() {
    let mut q = QtCore::from_metas(&vec![tagged(1)]);
    let except = Query(TagQuery::Except(Tag(1)), KindsQuery::All);

    // The filter rejects the shape; the counter still advances.
    match q.scan_intersect(1, except, 0) {
        ScanOutcome::Done => {}
        _ => panic!("expected the filter to reject"),
    }
    assert_eq!(q.nodes[1].intersect[0].tests, 1);

    // Nothing was cached while the shape was filtered out.
    match q.scan_intersect(1, all(), 0) {
        ScanOutcome::Test(_, s) => assert_eq!(s, 0),
        _ => panic!("expected a direct test: rejection must not populate the cache"),
    }
}

#[test]
fn caches_are_per_kind_and_clearable() {
    let mut q = QtCore::from_metas(&vec![anon()]);
    q.store_intersect(0, true);
    q.store_contain(0, true);
    q.store_dist(0, Some(0));
    match q.scan_contain(1, all(), 0) {
        ScanOutcome::Hit(i) => assert_eq!(i, 0),
        _ => panic!("expected the containment cache to answer"),
    }
    match q.scan_dist(1, all(), 0) {
        DistScan::Memo(_, d) => assert_eq!(d, Some(0)),
        _ => panic!("expected the distance cache to answer"),
    }
    q.clear_caches();
    match q.scan_intersect(1, all(), 0) {
        ScanOutcome::Test(_, _) => {}
        _ => panic!("expected an empty cache after clearing"),
    }
}

#[test]
fn ripe_entries_move_to_children() {
    let mut q = QtCore::from_metas(&vec![anon()]);
    for _ in 0..TEST_THRESHOLD {
        match q.scan_intersect(1, all(), 0) {
            ScanOutcome::Test(_, s) => q.store_intersect(s, false),
            ScanOutcome::Hit(_) => panic!("nothing positive was stored"),
            ScanOutcome::Done => {}
        }
    }
    assert_eq!(q.nodes[1].intersect[0].tests, TEST_THRESHOLD);

    let ripe = q.take_ripe(1);
    assert_eq!(ripe, vec![0]);
    assert_eq!(q.entry_count(1), 0);

    let (bl, br, tr, tl) = q.ensure_children(1);
    assert_eq!((bl, br, tr, tl), (2, 3, 4, 5));
    assert_eq!(q.node_count(), 6);

    // Say the shape meets the bottom two quadrants and covers bottom-left.
    q.child_insert(bl, 0, true);
    q.child_insert(br, 0, false);
    assert_eq!(q.nodes[bl].intersect[0].shape_idx, 0);
    assert_eq!(q.nodes[bl].intersect[0].tests, 0);
    assert_eq!(q.nodes[bl].contain, vec![0]);
    assert_eq!(q.nodes[br].intersect.len(), 1);
    assert!(q.nodes[br].contain.is_empty());
    assert!(q.nodes[tr].intersect.is_empty());
    assert!(q.nodes[tl].intersect.is_empty());

    // A second pass finds the children already present.
    let again = q.ensure_children(1);
    assert_eq!(again, (2, 3, 4, 5));
    assert_eq!(q.node_count(), 6);
}

#[test]
fn unripe_entries_stay_put() {
    let mut q = QtCore::from_metas(&vec![anon(), anon()]);
    // An unanswered scan stops at the first entry, so only that one
    // ripens; the second entry is visited once.
    for _ in 0..TEST_THRESHOLD {
        q.scan_intersect(1, all(), 0);
    }
    q.scan_intersect(1, all(), 1);
    let ripe = q.take_ripe(1);
    assert_eq!(ripe, vec![0]);
    let idxs: Vec<usize> = q.nodes[1].intersect.iter().map(|e| e.shape_idx).collect();
    assert_eq!(idxs, vec![1]);
    assert!(q.nodes[1].intersect[0].tests < TEST_THRESHOLD);
}

#[test]
fn rebuild_orders_holes_for_reuse() {
    let mut q = QtCore::from_metas(&vec![anon(), anon(), anon()]);
    q.remove_shape(1);
    q.remove_shape(0);
    assert_eq!(q.free, vec![1, 0]);

    // The rebuild lists the holes in increasing handle order, so the next
    // insertion takes the highest freed handle.
    q.rebuild();
    assert_eq!(q.free, vec![0, 1]);
    let got = q.insert_slot(anon());
    assert_eq!(got, 1);
}

#[test]
fn distance_cache_round_trips_encoding() {
    let mut q = QtCore::from_metas(&vec![anon()]);
    let d: f64 = 1.25;
    q.store_dist(0, Some(d.to_bits()));
    match q.scan_dist(1, all(), 0) {
        DistScan::Memo(_, Some(bits)) => assert_eq!(f64::from_bits(bits), 1.25),
        _ => panic!("expected the encoded distance back"),
    }
    // An undefined (empty-set) distance is memoized as well.
    q.store_dist(0, None);
    match q.scan_dist(1, all(), 0) {
        DistScan::Memo(_, None) => {}
        _ => panic!("expected the memoized undefined distance"),
    }
}

#[test]
fn contain_match_respects_filter() {
    let mut q = QtCore::from_metas(&vec![tagged(1), tagged(2)]);
    let (bl, _, _, _) = q.ensure_children(1);
    q.child_insert(bl, 0, true);
    q.child_insert(bl, 1, false);

    // Handle 0 covers the child box; only queries its tag passes can use it.
    assert!(q.contain_match(bl, all()));
    assert!(q.contain_match(bl, Query(TagQuery::Tag(Tag(1)), KindsQuery::All)));
    assert!(!q.contain_match(bl, Query(TagQuery::Tag(Tag(2)), KindsQuery::All)));
    assert!(!q.contain_match(bl, Query(TagQuery::Except(Tag(1)), KindsQuery::All)));
    assert!(!q.contain_match(1, all()));
}

#[test]
fn rebuild_keeps_holes_and_reseeds_root() {
    let mut q = QtCore::from_metas(&vec![anon(), anon(), anon()]);
    q.remove_shape(1);

    // Grow a little structure and dirty the caches first.
    for _ in 0..TEST_THRESHOLD {
        q.scan_intersect(1, all(), 0);
    }
    q.take_ripe(1);
    q.ensure_children(1);
    q.store_intersect(0, true);

    q.rebuild();

    assert_eq!(q.node_count(), 2);
    let idxs: Vec<usize> = q.nodes[1].intersect.iter().map(|e| e.shape_idx).collect();
    assert_eq!(idxs, vec![0, 2], "removed shapes must not come back");
    assert!(q.nodes[1].intersect.iter().all(|e| e.tests == 0));
    assert_eq!(q.free, vec![1]);

    // Caches were emptied by the rebuild.
    match q.scan_intersect(1, all(), 0) {
        ScanOutcome::Test(_, _) => {}
        _ => panic!("expected an empty cache after a rebuild"),
    }

    // The hole is still the next handle handed out.
    let mut q2 = q;
    let got = q2.insert_slot(anon());
    assert_eq!(got, 1);
}
