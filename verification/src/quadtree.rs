//! Structural core of the quadtree index: the shape table with its free
//! list, the node array with per-node `intersect` and `contain` lists, the
//! per-entry test counters that drive lazy subdivision, and the per-query
//! result caches. Geometry is not decided here: the caller computes the
//! axis-aligned-box and pairwise-predicate answers and hands them in, and
//! every bookkeeping step is verified against its contract.

use vstd::prelude::*;

use std::collections::HashMap;

use crate::query::{matches_query, spec_matches, Query, ShapeMeta};

verus! {

broadcast use vstd::std_specs::hash::group_hash_axioms;

/// How many direct tests an entry may take in one node before the node is
/// subdivided and the entry pushed down.
pub const TEST_THRESHOLD: usize = 4;

/// Nodes deeper than this are never subdivided.
pub const MAX_DEPTH: usize = 7;

/// Sentinel node index meaning "no child".
pub const NO_NODE: usize = 0;

/// A shape handle stored in a node, with the count of direct tests made
/// against it there.
#[derive(Debug, Copy, Clone, PartialEq, Eq, Structural)]
pub struct IntersectData {
    pub shape_idx: usize,
    pub tests: usize,
}

/// One node of the quadtree: the shapes to test directly, the shapes known
/// to contain the node's whole box, and the four child node indices
/// (`NO_NODE` when a child has not been created).
#[derive(Debug, Clone)]
pub struct Node {
    pub intersect: Vec<IntersectData>,
    pub contain: Vec<usize>,
    pub bl: usize,
    pub br: usize,
    pub tr: usize,
    pub tl: usize,
}

impl Node {
    pub open spec fn is_empty(self) -> bool {
        self.intersect@ =~= Seq::<IntersectData>::empty() && self.contain@ =~= Seq::<
            usize,
        >::empty() && self.bl == NO_NODE && self.br == NO_NODE && self.tr == NO_NODE && self.tl
            == NO_NODE
    }

    fn new() -> (n: Node)
        ensures
            n.is_empty(),
    {
        Node { intersect: Vec::new(), contain: Vec::new(), bl: 0, br: 0, tr: 0, tl: 0 }
    }
}

/// The entry list with every entry that names the handle `idx` removed.
pub open spec fn purge_entry_seq(s: Seq<IntersectData>, idx: usize) -> Seq<IntersectData>
    decreases s.len(),
{
    if s.len() == 0 {
        Seq::empty()
    } else {
        let rest = purge_entry_seq(s.drop_last(), idx);
        if s.last().shape_idx != idx {
            rest.push(s.last())
        } else {
            rest
        }
    }
}

/// The handle list with every occurrence of `idx` removed.
pub open spec fn purge_idx_seq(s: Seq<usize>, idx: usize) -> Seq<usize>
    decreases s.len(),
{
    if s.len() == 0 {
        Seq::empty()
    } else {
        let rest = purge_idx_seq(s.drop_last(), idx);
        if s.last() != idx {
            rest.push(s.last())
        } else {
            rest
        }
    }
}

/// Every element of the purged entry list stood in the original list, and
/// none of them names the purged handle.
pub proof fn lemma_purge_entry_seq(s: Seq<IntersectData>, idx: usize)
    ensures
        forall|i: int|
            0 <= i < purge_entry_seq(s, idx).len() ==> s.contains(
                #[trigger] purge_entry_seq(s, idx)[i],
            ) && purge_entry_seq(s, idx)[i].shape_idx != idx,
    decreases s.len(),
{
    if s.len() > 0 {
        let rest = purge_entry_seq(s.drop_last(), idx);
        let p = purge_entry_seq(s, idx);
        lemma_purge_entry_seq(s.drop_last(), idx);
        assert forall|i: int| 0 <= i < p.len() implies s.contains(#[trigger] p[i]) && p[i].shape_idx
            != idx by {
            if s.last().shape_idx != idx && i == p.len() - 1 {
                assert(p[i] == s.last());
                assert(s[s.len() - 1] == s.last());
            } else {
                assert(p[i] == rest[i]);
                assert(s.drop_last().contains(rest[i]));
                let w = choose|w: int|
                    0 <= w < s.drop_last().len() && s.drop_last()[w] == rest[i];
                assert(s[w] == rest[i]);
            }
        }
    }
}

/// Every element of the purged handle list stood in the original list, and
/// none of them is the purged handle.
pub proof fn lemma_purge_idx_seq(s: Seq<usize>, idx: usize)
    ensures
        forall|i: int|
            0 <= i < purge_idx_seq(s, idx).len() ==> s.contains(#[trigger] purge_idx_seq(s, idx)[i])
                && purge_idx_seq(s, idx)[i] != idx,
    decreases s.len(),
{
    if s.len() > 0 {
        let rest = purge_idx_seq(s.drop_last(), idx);
        let p = purge_idx_seq(s, idx);
        lemma_purge_idx_seq(s.drop_last(), idx);
        assert forall|i: int| 0 <= i < p.len() implies s.contains(#[trigger] p[i]) && p[i]
            != idx by {
            if s.last() != idx && i == p.len() - 1 {
                assert(p[i] == s.last());
                assert(s[s.len() - 1] == s.last());
            } else {
                assert(p[i] == rest[i]);
                assert(s.drop_last().contains(rest[i]));
                let w = choose|w: int|
                    0 <= w < s.drop_last().len() && s.drop_last()[w] == rest[i];
                assert(s[w] == rest[i]);
            }
        }
    }
}

/// Relates two nodes before and after every reference to the handle `idx`
/// is swept out of the per-node lists.
pub open spec fn node_purged(old_n: Node, new_n: Node, idx: usize) -> bool {
    &&& new_n.intersect@ == purge_entry_seq(old_n.intersect@, idx)
    &&& new_n.contain@ == purge_idx_seq(old_n.contain@, idx)
    &&& new_n.bl == old_n.bl
    &&& new_n.br == old_n.br
    &&& new_n.tr == old_n.tr
    &&& new_n.tl == old_n.tl
}

/// The bookkeeping state of the quadtree index.
#[derive(Debug, Clone)]
pub struct QtCore {
    /// The shape table; deletion leaves a `None` hole so handles stay stable.
    pub slots: Vec<Option<ShapeMeta>>,
    /// Indices of holes in `slots`, ready for reuse.
    pub free: Vec<usize>,
    /// Node array; index 0 is the `NO_NODE` sentinel, index 1 the root.
    pub nodes: Vec<Node>,
    /// Per-query memoization of pairwise intersection outcomes, by handle.
    pub inter_cache: HashMap<usize, bool>,
    /// Per-query memoization of pairwise containment outcomes, by handle.
    pub cont_cache: HashMap<usize, bool>,
    /// Per-query memoization of pairwise distance outcomes, by handle. The
    /// payload is whatever 64-bit encoding the caller uses for a distance;
    /// `None` records an empty-set (undefined) distance.
    pub dist_cache: HashMap<usize, Option<u64>>,
}

impl QtCore {
    /// The handle `i` names an occupied slot.
    pub open spec fn occupied(self, i: usize) -> bool {
        i < self.slots@.len() && self.slots@[i as int] is Some
    }

    pub open spec fn entry_ok(self, e: IntersectData) -> bool {
        self.occupied(e.shape_idx)
    }

    pub open spec fn child_ok(self, c: usize) -> bool {
        c == NO_NODE || (NO_NODE < c < self.nodes@.len())
    }

    pub open spec fn node_ok(self, n: Node) -> bool {
        &&& forall|i: int| 0 <= i < n.intersect@.len() ==> self.entry_ok(#[trigger] n.intersect@[i])
        &&& forall|i: int| 0 <= i < n.contain@.len() ==> self.occupied(#[trigger] n.contain@[i])
        &&& self.child_ok(n.bl)
        &&& self.child_ok(n.br)
        &&& self.child_ok(n.tr)
        &&& self.child_ok(n.tl)
        &&& (n.bl == NO_NODE <==> n.br == NO_NODE)
        &&& (n.bl == NO_NODE <==> n.tr == NO_NODE)
        &&& (n.bl == NO_NODE <==> n.tl == NO_NODE)
    }

    pub open spec fn free_ok(self) -> bool {
        &&& forall|i: int|
            0 <= i < self.free@.len() ==> #[trigger] self.free@[i] < self.slots@.len()
                && self.slots@[self.free@[i] as int] is None
        &&& forall|i: int, j: int|
            0 <= i < j < self.free@.len() ==> #[trigger] self.free@[i] != #[trigger] self.free@[j]
    }

    /// Well-formedness of the whole index: a sentinel and a root exist,
    /// every list entry names an occupied slot, every child pointer stays in
    /// range, and the free list holds distinct holes.
    pub open spec fn wf(self) -> bool {
        &&& self.nodes@.len() >= 2
        &&& forall|n: int| 0 <= n < self.nodes@.len() ==> self.node_ok(#[trigger] self.nodes@[n])
        &&& self.free_ok()
    }

    pub open spec fn caches_empty(self) -> bool {
        self.inter_cache@ =~= Map::<usize, bool>::empty() && self.cont_cache@ =~= Map::<
            usize,
            bool,
        >::empty() && self.dist_cache@ =~= Map::<usize, Option<u64>>::empty()
    }

    /// An index with no shapes and an empty root.
    pub fn new() -> (q: QtCore)
        ensures
            q.slots@.len() == 0,
            q.free@.len() == 0,
            q.nodes@.len() == 2,
            q.nodes@[0].is_empty(),
            q.nodes@[1].is_empty(),
            q.caches_empty(),
            q.wf(),
    {
        let mut nodes: Vec<Node> = Vec::new();
        nodes.push(Node::new());
        nodes.push(Node::new());
        QtCore {
            slots: Vec::new(),
            free: Vec::new(),
            nodes,
            inter_cache: HashMap::new(),
            cont_cache: HashMap::new(),
            dist_cache: HashMap::new(),
        }
    }

    /// Which handle the next insertion takes: the most recently freed hole,
    /// or a fresh slot at the end of the table.
    pub open spec fn alloc_choice(free: Seq<usize>, slots_len: int) -> int {
        if free.len() > 0 {
            free.last() as int
        } else {
            slots_len
        }
    }

    /// Places a shape's metadata in the table, reusing the most recently
    /// freed hole when one exists, and returns its handle. Nothing else of
    /// the index changes.
    pub fn insert_slot(&mut self, m: ShapeMeta) -> (idx: usize)
        requires
            old(self).wf(),
            old(self).slots@.len() < usize::MAX,
        ensures
            idx == Self::alloc_choice(old(self).free@, old(self).slots@.len() as int),
            final(self).slots@ == if old(self).free@.len() > 0 {
                old(self).slots@.update(idx as int, Some(m))
            } else {
                old(self).slots@.push(Some(m))
            },
            final(self).free@ == if old(self).free@.len() > 0 {
                old(self).free@.drop_last()
            } else {
                old(self).free@
            },
            final(self).nodes@ == old(self).nodes@,
            final(self).inter_cache@ == old(self).inter_cache@,
            final(self).cont_cache@ == old(self).cont_cache@,
            final(self).dist_cache@ == old(self).dist_cache@,
            final(self).occupied(idx),
            final(self).wf(),
    {
        let idx: usize = match self.free.pop() {
            Some(i) => {
                self.slots.set(i, Some(m));
                i
            },
            None => {
                self.slots.push(Some(m));
                self.slots.len() - 1
            },
        };
        proof {
            assert forall|n: int| 0 <= n < self.nodes@.len() implies self.node_ok(
                #[trigger] self.nodes@[n],
            ) by {
                assert(old(self).node_ok(old(self).nodes@[n]));
            }
        }
        idx
    }

    /// Appends a handle to the root's `intersect` list with a fresh test
    /// counter; done for each new shape that does not grow the world bounds.
    pub fn seed_root(&mut self, idx: usize)
        requires
            old(self).wf(),
            old(self).occupied(idx),
        ensures
            final(self).nodes@.len() == old(self).nodes@.len(),
            final(self).nodes@[1].intersect@ == old(self).nodes@[1].intersect@.push(
                IntersectData { shape_idx: idx, tests: 0 },
            ),
            final(self).nodes@[1].contain@ == old(self).nodes@[1].contain@,
            final(self).nodes@[1].bl == old(self).nodes@[1].bl,
            final(self).nodes@[1].br == old(self).nodes@[1].br,
            final(self).nodes@[1].tr == old(self).nodes@[1].tr,
            final(self).nodes@[1].tl == old(self).nodes@[1].tl,
            forall|n: int|
                0 <= n < old(self).nodes@.len() && n != 1 ==> final(self).nodes@[n]
                    == old(self).nodes@[n],
            final(self).slots@ == old(self).slots@,
            final(self).free@ == old(self).free@,
            final(self).inter_cache@ == old(self).inter_cache@,
            final(self).cont_cache@ == old(self).cont_cache@,
            final(self).dist_cache@ == old(self).dist_cache@,
            final(self).wf(),
    {
        let root = node_at(&mut self.nodes, 1);
        root.intersect.push(IntersectData { shape_idx: idx, tests: 0 });
        proof {
            assert forall|n: int| 0 <= n < self.nodes@.len() implies self.node_ok(
                #[trigger] self.nodes@[n],
            ) by {
                assert(old(self).node_ok(old(self).nodes@[n]));
            }
        }
    }
}

impl QtCore {
    /// Deletes the shape behind a handle: the slot becomes a hole on the
    /// free list and every node list drops its references to the handle.
    /// A handle that names no occupied slot leaves the index unchanged.
    pub fn remove_shape(&mut self, idx: usize)
        requires
            old(self).wf(),
        ensures
            final(self).nodes@.len() == old(self).nodes@.len(),
            old(self).occupied(idx) ==> {
                &&& final(self).slots@ == old(self).slots@.update(idx as int, None::<ShapeMeta>)
                &&& final(self).free@ == old(self).free@.push(idx)
                &&& forall|n: int|
                    0 <= n < old(self).nodes@.len() ==> node_purged(
                        old(self).nodes@[n],
                        #[trigger] final(self).nodes@[n],
                        idx,
                    )
            },
            !old(self).occupied(idx) ==> {
                &&& final(self).slots@ == old(self).slots@
                &&& final(self).free@ == old(self).free@
                &&& final(self).nodes@ == old(self).nodes@
            },
            final(self).inter_cache@ == old(self).inter_cache@,
            final(self).cont_cache@ == old(self).cont_cache@,
            final(self).dist_cache@ == old(self).dist_cache@,
            final(self).wf(),
    {
        if idx >= self.slots.len() {
            return ;
        }
        let is_occupied = self.slots[idx].is_some();
        if !is_occupied {
            return ;
        }
        self.slots.set(idx, None);
        let n = self.nodes.len();
        let mut j: usize = 0;
        while j < n
            invariant
                n == self.nodes@.len(),
                j <= n,
                forall|k: int|
                    0 <= k < j ==> node_purged(old(self).nodes@[k], #[trigger] self.nodes@[k], idx),
                forall|k: int| j <= k < n ==> #[trigger] self.nodes@[k] == old(self).nodes@[k],
                self.slots@ == old(self).slots@.update(idx as int, None::<ShapeMeta>),
                self.free@ == old(self).free@,
                self.inter_cache@ == old(self).inter_cache@,
                self.cont_cache@ == old(self).cont_cache@,
                self.dist_cache@ == old(self).dist_cache@,
            decreases n - j,
        {
            let node = node_at(&mut self.nodes, j);
            purge_entries(&mut node.intersect, idx);
            purge_idxs(&mut node.contain, idx);
            j += 1;
        }
        self.free.push(idx);
        proof {
            self.lemma_purge_wf(*old(self), idx);
        }
    }

    proof fn lemma_purge_wf(self, prev: QtCore, idx: usize)
        requires
            prev.wf(),
            prev.occupied(idx),
            self.slots@ == prev.slots@.update(idx as int, None::<ShapeMeta>),
            self.free@ == prev.free@.push(idx),
            self.nodes@.len() == prev.nodes@.len(),
            forall|n: int|
                0 <= n < prev.nodes@.len() ==> node_purged(
                    prev.nodes@[n],
                    #[trigger] self.nodes@[n],
                    idx,
                ),
        ensures
            self.wf(),
    {
        assert forall|n: int| 0 <= n < self.nodes@.len() implies self.node_ok(
            #[trigger] self.nodes@[n],
        ) by {
            let old_n = prev.nodes@[n];
            let new_n = self.nodes@[n];
            assert(prev.node_ok(old_n));
            lemma_purge_entry_seq(old_n.intersect@, idx);
            lemma_purge_idx_seq(old_n.contain@, idx);
            assert forall|i: int| 0 <= i < new_n.intersect@.len() implies self.entry_ok(
                #[trigger] new_n.intersect@[i],
            ) by {
                assert(old_n.intersect@.contains(new_n.intersect@[i]));
                let w = choose|w: int|
                    0 <= w < old_n.intersect@.len() && old_n.intersect@[w] == new_n.intersect@[i];
                assert(prev.entry_ok(old_n.intersect@[w]));
            }
            assert forall|i: int| 0 <= i < new_n.contain@.len() implies self.occupied(
                #[trigger] new_n.contain@[i],
            ) by {
                assert(old_n.contain@.contains(new_n.contain@[i]));
                let w = choose|w: int|
                    0 <= w < old_n.contain@.len() && old_n.contain@[w] == new_n.contain@[i];
                assert(prev.occupied(old_n.contain@[w]));
            }
        }
        assert forall|i: int| 0 <= i < self.free@.len() implies #[trigger] self.free@[i]
            < self.slots@.len() && self.slots@[self.free@[i] as int] is None by {
            if i < prev.free@.len() {
                assert(prev.free@[i] < prev.slots@.len());
                assert(prev.slots@[prev.free@[i] as int] is None);
                assert(prev.free@[i] != idx);
            }
        }
    }
}

/// Rebuilds the list without the entries that name the handle `idx`.
fn purge_entries(v: &mut Vec<IntersectData>, idx: usize)
    ensures
        final(v)@ == purge_entry_seq(old(v)@, idx),
{
    let mut out: Vec<IntersectData> = Vec::new();
    let n = v.len();
    let mut j: usize = 0;
    while j < n
        invariant
            n == v@.len(),
            j <= n,
            out@ == purge_entry_seq(v@.subrange(0, j as int), idx),
        decreases n - j,
    {
        proof {
            let t = v@.subrange(0, j + 1);
            assert(t.drop_last() =~= v@.subrange(0, j as int));
            assert(t.last() == v@[j as int]);
        }
        let e = v[j];
        if e.shape_idx != idx {
            out.push(e);
        }
        j += 1;
    }
    proof {
        assert(v@.subrange(0, n as int) =~= v@);
    }
    *v = out;
}

/// Rebuilds the list without the occurrences of the handle `idx`.
fn purge_idxs(v: &mut Vec<usize>, idx: usize)
    ensures
        final(v)@ == purge_idx_seq(old(v)@, idx),
{
    let mut out: Vec<usize> = Vec::new();
    let n = v.len();
    let mut j: usize = 0;
    while j < n
        invariant
            n == v@.len(),
            j <= n,
            out@ == purge_idx_seq(v@.subrange(0, j as int), idx),
        decreases n - j,
    {
        proof {
            let t = v@.subrange(0, j + 1);
            assert(t.drop_last() =~= v@.subrange(0, j as int));
            assert(t.last() == v@[j as int]);
        }
        let e = v[j];
        if e != idx {
            out.push(e);
        }
        j += 1;
    }
    proof {
        assert(v@.subrange(0, n as int) =~= v@);
    }
    *v = out;
}

/// The entries of a node list that stay put: those tested fewer than
/// `TEST_THRESHOLD` times.
pub open spec fn keep_unripe(s: Seq<IntersectData>) -> Seq<IntersectData>
    decreases s.len(),
{
    if s.len() == 0 {
        Seq::empty()
    } else {
        let rest = keep_unripe(s.drop_last());
        if s.last().tests < TEST_THRESHOLD {
            rest.push(s.last())
        } else {
            rest
        }
    }
}

/// The handles of the entries ripe for push-down: those tested at least
/// `TEST_THRESHOLD` times.
pub open spec fn ripe_idx_seq(s: Seq<IntersectData>) -> Seq<usize>
    decreases s.len(),
{
    if s.len() == 0 {
        Seq::empty()
    } else {
        let rest = ripe_idx_seq(s.drop_last());
        if s.last().tests >= TEST_THRESHOLD {
            rest.push(s.last().shape_idx)
        } else {
            rest
        }
    }
}

/// Once the ripe entries are gone, every entry left in the node has been
/// tested fewer than `TEST_THRESHOLD` times; and each ripe handle was the
/// handle of some entry of the original list.
pub proof fn lemma_ripe_split(s: Seq<IntersectData>)
    ensures
        forall|i: int|
            0 <= i < keep_unripe(s).len() ==> s.contains(#[trigger] keep_unripe(s)[i])
                && keep_unripe(s)[i].tests < TEST_THRESHOLD,
        forall|i: int|
            0 <= i < ripe_idx_seq(s).len() ==> exists|w: int|
                0 <= w < s.len() && (#[trigger] s[w]).shape_idx == #[trigger] ripe_idx_seq(s)[i],
    decreases s.len(),
{
    if s.len() > 0 {
        let rest = keep_unripe(s.drop_last());
        let k = keep_unripe(s);
        let restr = ripe_idx_seq(s.drop_last());
        let r = ripe_idx_seq(s);
        lemma_ripe_split(s.drop_last());
        assert forall|i: int| 0 <= i < k.len() implies s.contains(#[trigger] k[i]) && k[i].tests
            < TEST_THRESHOLD by {
            if s.last().tests < TEST_THRESHOLD && i == k.len() - 1 {
                assert(k[i] == s.last());
                assert(s[s.len() - 1] == s.last());
            } else {
                assert(k[i] == rest[i]);
                assert(s.drop_last().contains(rest[i]));
                let w = choose|w: int|
                    0 <= w < s.drop_last().len() && s.drop_last()[w] == rest[i];
                assert(s[w] == rest[i]);
            }
        }
        assert forall|i: int| 0 <= i < r.len() implies exists|w: int|
            0 <= w < s.len() && (#[trigger] s[w]).shape_idx == #[trigger] r[i] by {
            if s.last().tests >= TEST_THRESHOLD && i == r.len() - 1 {
                assert(s[s.len() - 1].shape_idx == r[i]);
            } else {
                assert(r[i] == restr[i]);
                let w = choose|w: int|
                    0 <= w < s.drop_last().len() && (#[trigger] s.drop_last()[w]).shape_idx
                        == restr[i];
                assert(s[w].shape_idx == r[i]);
            }
        }
    }
}

impl QtCore {
    /// Removes the entries of a node that have reached `TEST_THRESHOLD`
    /// tests and returns their handles, each of which names an occupied
    /// slot. The caller then seeds the children with them.
    pub fn take_ripe(&mut self, node: usize) -> (r: Vec<usize>)
        requires
            old(self).wf(),
            node < old(self).nodes@.len(),
        ensures
            r@ == ripe_idx_seq(old(self).nodes@[node as int].intersect@),
            final(self).nodes@.len() == old(self).nodes@.len(),
            final(self).nodes@[node as int].intersect@ == keep_unripe(
                old(self).nodes@[node as int].intersect@,
            ),
            final(self).nodes@[node as int].contain@ == old(self).nodes@[node as int].contain@,
            final(self).nodes@[node as int].bl == old(self).nodes@[node as int].bl,
            final(self).nodes@[node as int].br == old(self).nodes@[node as int].br,
            final(self).nodes@[node as int].tr == old(self).nodes@[node as int].tr,
            final(self).nodes@[node as int].tl == old(self).nodes@[node as int].tl,
            forall|n: int|
                0 <= n < old(self).nodes@.len() && n != node ==> final(self).nodes@[n] == old(
                    self,
                ).nodes@[n],
            final(self).slots@ == old(self).slots@,
            final(self).free@ == old(self).free@,
            final(self).inter_cache@ == old(self).inter_cache@,
            final(self).cont_cache@ == old(self).cont_cache@,
            final(self).dist_cache@ == old(self).dist_cache@,
            forall|i: int| 0 <= i < r@.len() ==> final(self).occupied(#[trigger] r@[i]),
            final(self).wf(),
    {
        let node_ref = node_at(&mut self.nodes, node);
        let mut kept: Vec<IntersectData> = Vec::new();
        let mut ripe: Vec<usize> = Vec::new();
        let n = node_ref.intersect.len();
        let mut j: usize = 0;
        while j < n
            invariant
                n == node_ref.intersect@.len(),
                j <= n,
                kept@ == keep_unripe(node_ref.intersect@.subrange(0, j as int)),
                ripe@ == ripe_idx_seq(node_ref.intersect@.subrange(0, j as int)),
            decreases n - j,
        {
            proof {
                let t = node_ref.intersect@.subrange(0, j + 1);
                assert(t.drop_last() =~= node_ref.intersect@.subrange(0, j as int));
                assert(t.last() == node_ref.intersect@[j as int]);
            }
            let e = node_ref.intersect[j];
            if e.tests >= TEST_THRESHOLD {
                ripe.push(e.shape_idx);
            } else {
                kept.push(e);
            }
            j += 1;
        }
        proof {
            assert(node_ref.intersect@.subrange(0, n as int) =~= node_ref.intersect@);
        }
        node_ref.intersect = kept;
        proof {
            lemma_ripe_split(old(self).nodes@[node as int].intersect@);
            assert(old(self).node_ok(old(self).nodes@[node as int]));
            assert forall|n2: int| 0 <= n2 < self.nodes@.len() implies self.node_ok(
                #[trigger] self.nodes@[n2],
            ) by {
                assert(old(self).node_ok(old(self).nodes@[n2]));
            }
        }
        ripe
    }

    /// Creates the four children of a node if they are absent, and returns
    /// their indices in bottom-left, bottom-right, top-right, top-left
    /// order.
    pub fn ensure_children(&mut self, node: usize) -> (r: (usize, usize, usize, usize))
        requires
            old(self).wf(),
            NO_NODE < node < old(self).nodes@.len(),
            old(self).nodes@.len() + 4 <= usize::MAX,
        ensures
            r.0 == final(self).nodes@[node as int].bl,
            r.1 == final(self).nodes@[node as int].br,
            r.2 == final(self).nodes@[node as int].tr,
            r.3 == final(self).nodes@[node as int].tl,
            old(self).nodes@[node as int].bl != NO_NODE ==> final(self).nodes@ == old(self).nodes@
                && r.0 == old(self).nodes@[node as int].bl,
            old(self).nodes@[node as int].bl == NO_NODE ==> {
                &&& final(self).nodes@.len() == old(self).nodes@.len() + 4
                &&& r.0 == old(self).nodes@.len()
                &&& r.1 == old(self).nodes@.len() + 1
                &&& r.2 == old(self).nodes@.len() + 2
                &&& r.3 == old(self).nodes@.len() + 3
                &&& final(self).nodes@[r.0 as int].is_empty()
                &&& final(self).nodes@[r.1 as int].is_empty()
                &&& final(self).nodes@[r.2 as int].is_empty()
                &&& final(self).nodes@[r.3 as int].is_empty()
                &&& final(self).nodes@[node as int].intersect@ == old(
                    self,
                ).nodes@[node as int].intersect@
                &&& final(self).nodes@[node as int].contain@ == old(
                    self,
                ).nodes@[node as int].contain@
                &&& forall|n: int|
                    0 <= n < old(self).nodes@.len() && n != node ==> final(self).nodes@[n] == old(
                        self,
                    ).nodes@[n]
            },
            NO_NODE < r.0 < final(self).nodes@.len(),
            NO_NODE < r.1 < final(self).nodes@.len(),
            NO_NODE < r.2 < final(self).nodes@.len(),
            NO_NODE < r.3 < final(self).nodes@.len(),
            final(self).slots@ == old(self).slots@,
            final(self).free@ == old(self).free@,
            final(self).inter_cache@ == old(self).inter_cache@,
            final(self).cont_cache@ == old(self).cont_cache@,
            final(self).dist_cache@ == old(self).dist_cache@,
            final(self).wf(),
    {
        if self.nodes[node].bl == NO_NODE {
            let base = self.nodes.len();
            self.nodes.push(Node::new());
            self.nodes.push(Node::new());
            self.nodes.push(Node::new());
            self.nodes.push(Node::new());
            let node_ref = node_at(&mut self.nodes, node);
            node_ref.bl = base;
            node_ref.br = base + 1;
            node_ref.tr = base + 2;
            node_ref.tl = base + 3;
            proof {
                assert forall|n2: int| 0 <= n2 < self.nodes@.len() implies self.node_ok(
                    #[trigger] self.nodes@[n2],
                ) by {
                    if n2 < old(self).nodes@.len() {
                        assert(old(self).node_ok(old(self).nodes@[n2]));
                    }
                }
            }
            (base, base + 1, base + 2, base + 3)
        } else {
            let n = &self.nodes[node];
            proof {
                assert(old(self).node_ok(old(self).nodes@[node as int]));
            }
            (n.bl, n.br, n.tr, n.tl)
        }
    }

    /// Seeds one child with a pushed-down shape: the handle joins the
    /// child's `intersect` list with a fresh test counter, and also its
    /// `contain` list when the shape covers the child's whole box.
    pub fn child_insert(&mut self, child: usize, shape_idx: usize, contain: bool)
        requires
            old(self).wf(),
            NO_NODE < child < old(self).nodes@.len(),
            old(self).occupied(shape_idx),
        ensures
            final(self).nodes@.len() == old(self).nodes@.len(),
            final(self).nodes@[child as int].intersect@ == old(
                self,
            ).nodes@[child as int].intersect@.push(IntersectData { shape_idx, tests: 0 }),
            final(self).nodes@[child as int].contain@ == if contain {
                old(self).nodes@[child as int].contain@.push(shape_idx)
            } else {
                old(self).nodes@[child as int].contain@
            },
            final(self).nodes@[child as int].bl == old(self).nodes@[child as int].bl,
            final(self).nodes@[child as int].br == old(self).nodes@[child as int].br,
            final(self).nodes@[child as int].tr == old(self).nodes@[child as int].tr,
            final(self).nodes@[child as int].tl == old(self).nodes@[child as int].tl,
            forall|n: int|
                0 <= n < old(self).nodes@.len() && n != child ==> final(self).nodes@[n] == old(
                    self,
                ).nodes@[n],
            final(self).slots@ == old(self).slots@,
            final(self).free@ == old(self).free@,
            final(self).inter_cache@ == old(self).inter_cache@,
            final(self).cont_cache@ == old(self).cont_cache@,
            final(self).dist_cache@ == old(self).dist_cache@,
            final(self).wf(),
    {
        let node_ref = node_at(&mut self.nodes, child);
        node_ref.intersect.push(IntersectData { shape_idx, tests: 0 });
        if contain {
            node_ref.contain.push(shape_idx);
        }
        proof {
            assert forall|n2: int| 0 <= n2 < self.nodes@.len() implies self.node_ok(
                #[trigger] self.nodes@[n2],
            ) by {
                assert(old(self).node_ok(old(self).nodes@[n2]));
            }
        }
    }

    /// The four child indices of a node (`NO_NODE` where absent).
    pub fn children(&self, node: usize) -> (r: (usize, usize, usize, usize))
        requires
            self.wf(),
            node < self.nodes@.len(),
        ensures
            r.0 == self.nodes@[node as int].bl,
            r.1 == self.nodes@[node as int].br,
            r.2 == self.nodes@[node as int].tr,
            r.3 == self.nodes@[node as int].tl,
            self.child_ok(r.0),
            self.child_ok(r.1),
            self.child_ok(r.2),
            self.child_ok(r.3),
    {
        let n = &self.nodes[node];
        proof {
            assert(self.node_ok(self.nodes@[node as int]));
        }
        (n.bl, n.br, n.tr, n.tl)
    }

    /// How many entries the node's `intersect` list holds.
    pub fn entry_count(&self, node: usize) -> (r: usize)
        requires
            node < self.nodes@.len(),
        ensures
            r == self.nodes@[node as int].intersect@.len(),
    {
        self.nodes[node].intersect.len()
    }

    pub fn node_count(&self) -> (r: usize)
        ensures
            r == self.nodes@.len(),
    {
        self.nodes.len()
    }

    pub fn slot_count(&self) -> (r: usize)
        ensures
            r == self.slots@.len(),
    {
        self.slots.len()
    }

    /// Whether a handle currently names a live shape.
    pub fn is_occupied(&self, idx: usize) -> (r: bool)
        ensures
            r == self.occupied(idx),
    {
        idx < self.slots.len() && self.slots[idx].is_some()
    }
}

/// What a scan of a node's entries reports for an intersection or
/// containment query.
pub enum ScanOutcome {
    /// Entry `i` passed the filter and its memoized outcome is positive:
    /// the query is answered.
    Hit(usize),
    /// Entry `i` passed the filter and nothing is memoized: the shape
    /// behind the returned handle must be tested directly and the outcome
    /// stored.
    Test(usize, usize),
    /// Every entry from the start of the scan on was rejected by the
    /// filter or memoized negative; none of them touched the caches.
    Done,
}

/// What a scan of a node's entries reports for a distance query.
pub enum DistScan {
    /// Entry `i` passed the filter; its memoized outcome (in the caller's
    /// 64-bit encoding, `None` for an undefined distance) is returned.
    Memo(usize, Option<u64>),
    /// Entry `i` passed the filter and nothing is memoized: the shape
    /// behind the returned handle must be tested directly and the outcome
    /// stored.
    Test(usize, usize),
    /// Every entry from the start of the scan on was rejected by the
    /// filter; none of them touched the caches.
    Done,
}

/// A test counter after one more test, saturating at the top of `usize`.
pub open spec fn bumped_tests(t: usize) -> usize {
    if t < usize::MAX {
        (t + 1) as usize
    } else {
        t
    }
}

/// The entry list with every counter in `[from, upto)` advanced once.
pub open spec fn bump_range(s: Seq<IntersectData>, from: int, upto: int) -> Seq<IntersectData> {
    Seq::new(
        s.len(),
        |i: int|
            if from <= i < upto {
                IntersectData { shape_idx: s[i].shape_idx, tests: bumped_tests(s[i].tests) }
            } else {
                s[i]
            },
    )
}

/// Relates two nodes before and after the entry at `i` takes one more test.
pub open spec fn node_bumped(old_n: Node, new_n: Node, i: int) -> bool {
    &&& new_n.intersect@ == old_n.intersect@.update(
        i,
        IntersectData {
            shape_idx: old_n.intersect@[i].shape_idx,
            tests: bumped_tests(old_n.intersect@[i].tests),
        },
    )
    &&& new_n.contain@ == old_n.contain@
    &&& new_n.bl == old_n.bl
    &&& new_n.br == old_n.br
    &&& new_n.tr == old_n.tr
    &&& new_n.tl == old_n.tl
}

impl QtCore {
    /// What must hold of the whole state after a probe of entry `i` of
    /// `node`: that entry's test counter advanced and nothing else moved.
    pub open spec fn probed(self, prev: QtCore, node: usize, i: int) -> bool {
        &&& self.nodes@.len() == prev.nodes@.len()
        &&& node_bumped(prev.nodes@[node as int], self.nodes@[node as int], i)
        &&& forall|n: int|
            0 <= n < prev.nodes@.len() && n != node ==> self.nodes@[n] == prev.nodes@[n]
        &&& self.slots@ == prev.slots@
        &&& self.free@ == prev.free@
        &&& self.inter_cache@ == prev.inter_cache@
        &&& self.cont_cache@ == prev.cont_cache@
        &&& self.dist_cache@ == prev.dist_cache@
    }

    /// What must hold of the whole state after a scan visited the entries
    /// `[from, upto)` of `node`: their test counters advanced once each,
    /// and nothing else moved - in particular no cache was written.
    pub open spec fn scanned(self, prev: QtCore, node: usize, from: int, upto: int) -> bool {
        &&& self.nodes@.len() == prev.nodes@.len()
        &&& self.nodes@[node as int].intersect@ == bump_range(
            prev.nodes@[node as int].intersect@,
            from,
            upto,
        )
        &&& self.nodes@[node as int].contain@ == prev.nodes@[node as int].contain@
        &&& self.nodes@[node as int].bl == prev.nodes@[node as int].bl
        &&& self.nodes@[node as int].br == prev.nodes@[node as int].br
        &&& self.nodes@[node as int].tr == prev.nodes@[node as int].tr
        &&& self.nodes@[node as int].tl == prev.nodes@[node as int].tl
        &&& forall|n: int|
            0 <= n < prev.nodes@.len() && n != node ==> self.nodes@[n] == prev.nodes@[n]
        &&& self.slots@ == prev.slots@
        &&& self.free@ == prev.free@
        &&& self.inter_cache@ == prev.inter_cache@
        &&& self.cont_cache@ == prev.cont_cache@
        &&& self.dist_cache@ == prev.dist_cache@
    }

    /// The shape of entry `j` of `node` fails the filter.
    pub open spec fn entry_rejected(self, node: usize, j: int, q: Query) -> bool {
        !spec_matches(
            self.slots@[self.nodes@[node as int].intersect@[j].shape_idx as int].unwrap(),
            q,
        )
    }

    /// The shape of entry `j` of `node` cannot answer an intersection
    /// query positively: the filter rejects it, or its memoized outcome is
    /// negative.
    pub open spec fn entry_negative_inter(self, node: usize, j: int, q: Query) -> bool {
        let sx = self.nodes@[node as int].intersect@[j].shape_idx;
        self.entry_rejected(node, j, q) || (self.inter_cache@.contains_key(sx)
            && self.inter_cache@[sx] == false)
    }

    /// As `entry_negative_inter`, for a containment query.
    pub open spec fn entry_negative_cont(self, node: usize, j: int, q: Query) -> bool {
        let sx = self.nodes@[node as int].intersect@[j].shape_idx;
        self.entry_rejected(node, j, q) || (self.cont_cache@.contains_key(sx)
            && self.cont_cache@[sx] == false)
    }

    /// Advances the test counter of entry `i` of `node` and returns the
    /// entry's handle.
    fn bump_entry(&mut self, node: usize, i: usize) -> (sidx: usize)
        requires
            old(self).wf(),
            node < old(self).nodes@.len(),
            i < old(self).nodes@[node as int].intersect@.len(),
        ensures
            sidx == old(self).nodes@[node as int].intersect@[i as int].shape_idx,
            final(self).occupied(sidx),
            final(self).probed(*old(self), node, i as int),
            final(self).wf(),
    {
        let node_ref = node_at(&mut self.nodes, node);
        let e = node_ref.intersect[i];
        let bumped = if e.tests < usize::MAX {
            e.tests + 1
        } else {
            e.tests
        };
        node_ref.intersect.set(i, IntersectData { shape_idx: e.shape_idx, tests: bumped });
        proof {
            assert(old(self).node_ok(old(self).nodes@[node as int]));
            assert forall|n2: int| 0 <= n2 < self.nodes@.len() implies self.node_ok(
                #[trigger] self.nodes@[n2],
            ) by {
                assert(old(self).node_ok(old(self).nodes@[n2]));
                if n2 == node {
                    let old_n = old(self).nodes@[n2];
                    let new_n = self.nodes@[n2];
                    assert forall|k: int| 0 <= k < new_n.intersect@.len() implies self.entry_ok(
                        #[trigger] new_n.intersect@[k],
                    ) by {
                        assert(old(self).entry_ok(old_n.intersect@[k]));
                    }
                }
            }
        }
        e.shape_idx
    }

    /// Walks the `intersect` entries of `node` from `start` for an
    /// intersection query: each visited entry takes one test; entries the
    /// filter rejects or whose memoized outcome is negative are passed
    /// over without touching any cache; the scan stops at the first entry
    /// that answers positively (`Hit`) or needs a direct test (`Test`).
    pub fn scan_intersect(&mut self, node: usize, q: Query, start: usize) -> (r: ScanOutcome)
        requires
            old(self).wf(),
            node < old(self).nodes@.len(),
            start <= old(self).nodes@[node as int].intersect@.len(),
        ensures
            final(self).wf(),
            ({
                let s = old(self).nodes@[node as int].intersect@;
                match r {
                    ScanOutcome::Hit(i) => {
                        &&& start <= i < s.len()
                        &&& final(self).scanned(*old(self), node, start as int, i + 1)
                        &&& spec_matches(old(self).slots@[s[i as int].shape_idx as int].unwrap(), q)
                        &&& old(self).inter_cache@.contains_key(s[i as int].shape_idx)
                        &&& old(self).inter_cache@[s[i as int].shape_idx] == true
                        &&& forall|j: int|
                            start <= j < i ==> old(self).entry_negative_inter(node, j, q)
                    },
                    ScanOutcome::Test(i, sx) => {
                        &&& start <= i < s.len()
                        &&& final(self).scanned(*old(self), node, start as int, i + 1)
                        &&& sx == s[i as int].shape_idx
                        &&& final(self).occupied(sx)
                        &&& spec_matches(old(self).slots@[sx as int].unwrap(), q)
                        &&& !old(self).inter_cache@.contains_key(sx)
                        &&& forall|j: int|
                            start <= j < i ==> old(self).entry_negative_inter(node, j, q)
                    },
                    ScanOutcome::Done => {
                        &&& final(self).scanned(*old(self), node, start as int, s.len() as int)
                        &&& forall|j: int|
                            start <= j < s.len() ==> old(self).entry_negative_inter(node, j, q)
                    },
                }
            }),
    {
        let ghost prev = *old(self);
        let n = self.entry_count(node);
        let mut i: usize = start;
        proof {
            lemma_bump_range_empty(prev.nodes@[node as int].intersect@, start as int);
        }
        while i < n
            invariant
                prev == *old(self),
                prev.wf(),
                node < prev.nodes@.len(),
                n == prev.nodes@[node as int].intersect@.len(),
                start <= i <= n,
                self.wf(),
                self.scanned(prev, node, start as int, i as int),
                forall|j: int| start <= j < i ==> prev.entry_negative_inter(node, j, q),
            decreases n - i,
        {
            let ghost mid = *self;
            let sidx = self.bump_entry(node, i);
            proof {
                lemma_scan_chain(prev, mid, *self, node, start as int, i as int);
                assert(sidx == prev.nodes@[node as int].intersect@[i as int].shape_idx);
            }
            let m = self.slots[sidx].unwrap();
            if matches_query(&m, q) {
                match self.inter_cache.get(&sidx) {
                    Some(b) => {
                        if *b {
                            return ScanOutcome::Hit(i);
                        }
                    },
                    None => {
                        return ScanOutcome::Test(i, sidx);
                    },
                }
            }
            i += 1;
        }
        ScanOutcome::Done
    }

    /// As `scan_intersect`, for a containment query.
    pub fn scan_contain(&mut self, node: usize, q: Query, start: usize) -> (r: ScanOutcome)
        requires
            old(self).wf(),
            node < old(self).nodes@.len(),
            start <= old(self).nodes@[node as int].intersect@.len(),
        ensures
            final(self).wf(),
            ({
                let s = old(self).nodes@[node as int].intersect@;
                match r {
                    ScanOutcome::Hit(i) => {
                        &&& start <= i < s.len()
                        &&& final(self).scanned(*old(self), node, start as int, i + 1)
                        &&& spec_matches(old(self).slots@[s[i as int].shape_idx as int].unwrap(), q)
                        &&& old(self).cont_cache@.contains_key(s[i as int].shape_idx)
                        &&& old(self).cont_cache@[s[i as int].shape_idx] == true
                        &&& forall|j: int|
                            start <= j < i ==> old(self).entry_negative_cont(node, j, q)
                    },
                    ScanOutcome::Test(i, sx) => {
                        &&& start <= i < s.len()
                        &&& final(self).scanned(*old(self), node, start as int, i + 1)
                        &&& sx == s[i as int].shape_idx
                        &&& final(self).occupied(sx)
                        &&& spec_matches(old(self).slots@[sx as int].unwrap(), q)
                        &&& !old(self).cont_cache@.contains_key(sx)
                        &&& forall|j: int|
                            start <= j < i ==> old(self).entry_negative_cont(node, j, q)
                    },
                    ScanOutcome::Done => {
                        &&& final(self).scanned(*old(self), node, start as int, s.len() as int)
                        &&& forall|j: int|
                            start <= j < s.len() ==> old(self).entry_negative_cont(node, j, q)
                    },
                }
            }),
    {
        let ghost prev = *old(self);
        let n = self.entry_count(node);
        let mut i: usize = start;
        proof {
            lemma_bump_range_empty(prev.nodes@[node as int].intersect@, start as int);
        }
        while i < n
            invariant
                prev == *old(self),
                prev.wf(),
                node < prev.nodes@.len(),
                n == prev.nodes@[node as int].intersect@.len(),
                start <= i <= n,
                self.wf(),
                self.scanned(prev, node, start as int, i as int),
                forall|j: int| start <= j < i ==> prev.entry_negative_cont(node, j, q),
            decreases n - i,
        {
            let ghost mid = *self;
            let sidx = self.bump_entry(node, i);
            proof {
                lemma_scan_chain(prev, mid, *self, node, start as int, i as int);
                assert(sidx == prev.nodes@[node as int].intersect@[i as int].shape_idx);
            }
            let m = self.slots[sidx].unwrap();
            if matches_query(&m, q) {
                match self.cont_cache.get(&sidx) {
                    Some(b) => {
                        if *b {
                            return ScanOutcome::Hit(i);
                        }
                    },
                    None => {
                        return ScanOutcome::Test(i, sidx);
                    },
                }
            }
            i += 1;
        }
        ScanOutcome::Done
    }

    /// Walks the `intersect` entries of `node` from `start` for a distance
    /// query: each visited entry takes one test; entries the filter
    /// rejects are passed over without touching any cache; the scan stops
    /// at the first entry whose outcome is memoized (`Memo`) or that needs
    /// a direct test (`Test`). Unlike an intersection scan, every outcome
    /// is handed back: the caller folds the distances.
    pub fn scan_dist(&mut self, node: usize, q: Query, start: usize) -> (r: DistScan)
        requires
            old(self).wf(),
            node < old(self).nodes@.len(),
            start <= old(self).nodes@[node as int].intersect@.len(),
        ensures
            final(self).wf(),
            ({
                let s = old(self).nodes@[node as int].intersect@;
                match r {
                    DistScan::Memo(i, d) => {
                        &&& start <= i < s.len()
                        &&& final(self).scanned(*old(self), node, start as int, i + 1)
                        &&& spec_matches(old(self).slots@[s[i as int].shape_idx as int].unwrap(), q)
                        &&& old(self).dist_cache@.contains_key(s[i as int].shape_idx)
                        &&& d == old(self).dist_cache@[s[i as int].shape_idx]
                        &&& forall|j: int| start <= j < i ==> old(self).entry_rejected(node, j, q)
                    },
                    DistScan::Test(i, sx) => {
                        &&& start <= i < s.len()
                        &&& final(self).scanned(*old(self), node, start as int, i + 1)
                        &&& sx == s[i as int].shape_idx
                        &&& final(self).occupied(sx)
                        &&& spec_matches(old(self).slots@[sx as int].unwrap(), q)
                        &&& !old(self).dist_cache@.contains_key(sx)
                        &&& forall|j: int| start <= j < i ==> old(self).entry_rejected(node, j, q)
                    },
                    DistScan::Done => {
                        &&& final(self).scanned(*old(self), node, start as int, s.len() as int)
                        &&& forall|j: int|
                            start <= j < s.len() ==> old(self).entry_rejected(node, j, q)
                    },
                }
            }),
    {
        let ghost prev = *old(self);
        let n = self.entry_count(node);
        let mut i: usize = start;
        proof {
            lemma_bump_range_empty(prev.nodes@[node as int].intersect@, start as int);
        }
        while i < n
            invariant
                prev == *old(self),
                prev.wf(),
                node < prev.nodes@.len(),
                n == prev.nodes@[node as int].intersect@.len(),
                start <= i <= n,
                self.wf(),
                self.scanned(prev, node, start as int, i as int),
                forall|j: int| start <= j < i ==> prev.entry_rejected(node, j, q),
            decreases n - i,
        {
            let ghost mid = *self;
            let sidx = self.bump_entry(node, i);
            proof {
                lemma_scan_chain(prev, mid, *self, node, start as int, i as int);
                assert(sidx == prev.nodes@[node as int].intersect@[i as int].shape_idx);
            }
            let m = self.slots[sidx].unwrap();
            if matches_query(&m, q) {
                match self.dist_cache.get(&sidx) {
                    Some(d) => {
                        return DistScan::Memo(i, *d);
                    },
                    None => {
                        return DistScan::Test(i, sidx);
                    },
                }
            }
            i += 1;
        }
        DistScan::Done
    }

}

/// A scan that has visited nothing yet leaves the entry list as it was.
proof fn lemma_bump_range_empty(s: Seq<IntersectData>, from: int)
    ensures
        bump_range(s, from, from) == s,
{
    assert(bump_range(s, from, from) =~= s);
}

/// Visiting one more entry extends the scanned range by one.
proof fn lemma_scan_chain(prev: QtCore, mid: QtCore, cur: QtCore, node: usize, start: int, i: int)
    requires
        node < prev.nodes@.len(),
        0 <= start <= i < prev.nodes@[node as int].intersect@.len(),
        mid.scanned(prev, node, start, i),
        cur.probed(mid, node, i),
    ensures
        cur.scanned(prev, node, start, i + 1),
        cur.nodes@[node as int].intersect@.len() == prev.nodes@[node as int].intersect@.len(),
{
    let s = prev.nodes@[node as int].intersect@;
    assert(mid.nodes@[node as int].intersect@[i] == s[i]);
    assert(cur.nodes@[node as int].intersect@ =~= bump_range(s, start, i + 1));
}

impl QtCore {
    /// Memoizes a computed intersection outcome for the rest of the query.
    pub fn store_intersect(&mut self, idx: usize, r: bool)
        requires
            old(self).wf(),
            old(self).occupied(idx),
        ensures
            final(self).inter_cache@ == old(self).inter_cache@.insert(idx, r),
            final(self).cont_cache@ == old(self).cont_cache@,
            final(self).dist_cache@ == old(self).dist_cache@,
            final(self).slots@ == old(self).slots@,
            final(self).free@ == old(self).free@,
            final(self).nodes@ == old(self).nodes@,
            final(self).wf(),
    {
        self.inter_cache.insert(idx, r);
        proof {
            self.lemma_same_shape_wf(*old(self));
        }
    }

    /// Memoizes a computed containment outcome for the rest of the query.
    pub fn store_contain(&mut self, idx: usize, r: bool)
        requires
            old(self).wf(),
            old(self).occupied(idx),
        ensures
            final(self).cont_cache@ == old(self).cont_cache@.insert(idx, r),
            final(self).inter_cache@ == old(self).inter_cache@,
            final(self).dist_cache@ == old(self).dist_cache@,
            final(self).slots@ == old(self).slots@,
            final(self).free@ == old(self).free@,
            final(self).nodes@ == old(self).nodes@,
            final(self).wf(),
    {
        self.cont_cache.insert(idx, r);
        proof {
            self.lemma_same_shape_wf(*old(self));
        }
    }

    /// Memoizes a computed distance outcome for the rest of the query.
    pub fn store_dist(&mut self, idx: usize, d: Option<u64>)
        requires
            old(self).wf(),
            old(self).occupied(idx),
        ensures
            final(self).dist_cache@ == old(self).dist_cache@.insert(idx, d),
            final(self).inter_cache@ == old(self).inter_cache@,
            final(self).cont_cache@ == old(self).cont_cache@,
            final(self).slots@ == old(self).slots@,
            final(self).free@ == old(self).free@,
            final(self).nodes@ == old(self).nodes@,
            final(self).wf(),
    {
        self.dist_cache.insert(idx, d);
        proof {
            self.lemma_same_shape_wf(*old(self));
        }
    }

    /// Empties the three per-query caches; done at the start of every
    /// top-level query.
    pub fn clear_caches(&mut self)
        requires
            old(self).wf(),
        ensures
            final(self).caches_empty(),
            final(self).slots@ == old(self).slots@,
            final(self).free@ == old(self).free@,
            final(self).nodes@ == old(self).nodes@,
            final(self).wf(),
    {
        self.inter_cache.clear();
        self.cont_cache.clear();
        self.dist_cache.clear();
        proof {
            self.lemma_same_shape_wf(*old(self));
        }
    }

    /// Well-formedness only reads the slots, free list and nodes, so it
    /// survives any change confined to the caches.
    proof fn lemma_same_shape_wf(self, prev: QtCore)
        requires
            prev.wf(),
            self.slots@ == prev.slots@,
            self.free@ == prev.free@,
            self.nodes@ == prev.nodes@,
        ensures
            self.wf(),
    {
        assert forall|n: int| 0 <= n < self.nodes@.len() implies self.node_ok(
            #[trigger] self.nodes@[n],
        ) by {
            assert(prev.node_ok(prev.nodes@[n]));
        }
    }

    /// Whether any shape on the node's `contain` list passes the filter.
    /// Such a shape covers the node's whole box, so for a query shape that
    /// meets the box it answers intersection immediately. The filter is
    /// re-checked on every call: no cache is involved.
    pub fn contain_match(&self, node: usize, q: Query) -> (r: bool)
        requires
            self.wf(),
            node < self.nodes@.len(),
        ensures
            r == exists|i: int|
                0 <= i < self.nodes@[node as int].contain@.len() && spec_matches(
                    self.slots@[#[trigger] self.nodes@[node as int].contain@[i] as int].unwrap(),
                    q,
                ),
    {
        proof {
            assert(self.node_ok(self.nodes@[node as int]));
        }
        let n = self.nodes[node].contain.len();
        let mut j: usize = 0;
        while j < n
            invariant
                self.wf(),
                node < self.nodes@.len(),
                n == self.nodes@[node as int].contain@.len(),
                j <= n,
                forall|i: int|
                    0 <= i < j ==> !spec_matches(
                        self.slots@[#[trigger] self.nodes@[node as int].contain@[i] as int].unwrap(
                        ),
                        q,
                    ),
            decreases n - j,
        {
            proof {
                assert(self.node_ok(self.nodes@[node as int]));
            }
            let cidx = self.nodes[node].contain[j];
            let m = self.slots[cidx].unwrap();
            if matches_query(&m, q) {
                return true;
            }
            j += 1;
        }
        false
    }
}

/// The root `intersect` list that a rebuild seeds: one entry per occupied
/// slot, in handle order, each with a reset test counter.
pub open spec fn live_entries(slots: Seq<Option<ShapeMeta>>) -> Seq<IntersectData>
    decreases slots.len(),
{
    if slots.len() == 0 {
        Seq::empty()
    } else {
        let rest = live_entries(slots.drop_last());
        if slots.last() is Some {
            rest.push(IntersectData { shape_idx: (slots.len() - 1) as usize, tests: 0 })
        } else {
            rest
        }
    }
}

/// The free list that a rebuild leaves: the unoccupied slot indices in
/// increasing order.
pub open spec fn hole_idxs(slots: Seq<Option<ShapeMeta>>) -> Seq<usize>
    decreases slots.len(),
{
    if slots.len() == 0 {
        Seq::empty()
    } else {
        let rest = hole_idxs(slots.drop_last());
        if slots.last() is None {
            rest.push((slots.len() - 1) as usize)
        } else {
            rest
        }
    }
}

/// Every seeded entry names an occupied slot with a reset counter, and the
/// hole list names exactly unoccupied slots, in strictly increasing order.
pub proof fn lemma_rebuild_seqs(slots: Seq<Option<ShapeMeta>>)
    requires
        slots.len() <= usize::MAX,
    ensures
        forall|i: int|
            0 <= i < live_entries(slots).len() ==> (#[trigger] live_entries(slots)[i]).tests == 0
                && live_entries(slots)[i].shape_idx < slots.len() && slots[live_entries(
                slots,
            )[i].shape_idx as int] is Some,
        forall|i: int|
            0 <= i < hole_idxs(slots).len() ==> #[trigger] hole_idxs(slots)[i] < slots.len()
                && slots[hole_idxs(slots)[i] as int] is None,
        forall|i: int, j: int|
            0 <= i < j < hole_idxs(slots).len() ==> #[trigger] hole_idxs(slots)[i]
                < #[trigger] hole_idxs(slots)[j],
    decreases slots.len(),
{
    if slots.len() > 0 {
        lemma_rebuild_seqs(slots.drop_last());
        let live = live_entries(slots);
        let rest = live_entries(slots.drop_last());
        assert forall|i: int| 0 <= i < live.len() implies (#[trigger] live[i]).tests == 0
            && live[i].shape_idx < slots.len() && slots[live[i].shape_idx as int] is Some by {
            if slots.last() is Some && i == live.len() - 1 {
                assert(live[i] == IntersectData {
                    shape_idx: (slots.len() - 1) as usize,
                    tests: 0,
                });
                assert(slots[slots.len() - 1] == slots.last());
            } else {
                assert(live[i] == rest[i]);
                assert(slots.drop_last()[live[i].shape_idx as int] == slots[live[i].shape_idx
                    as int]);
            }
        }
        let holes = hole_idxs(slots);
        let hrest = hole_idxs(slots.drop_last());
        assert forall|i: int| 0 <= i < holes.len() implies #[trigger] holes[i] < slots.len()
            && slots[holes[i] as int] is None by {
            if slots.last() is None && i == holes.len() - 1 {
                assert(holes[i] == (slots.len() - 1) as usize);
                assert(slots[slots.len() - 1] == slots.last());
            } else {
                assert(holes[i] == hrest[i]);
                assert(slots.drop_last()[holes[i] as int] == slots[holes[i] as int]);
            }
        }
        assert forall|i: int, j: int| 0 <= i < j < holes.len() implies #[trigger] holes[i]
            < #[trigger] holes[j] by {
            if slots.last() is None && j == holes.len() - 1 {
                assert(holes[i] == hrest[i]);
                assert(hrest[i] < slots.drop_last().len());
            } else {
                assert(holes[i] == hrest[i] && holes[j] == hrest[j]);
            }
        }
    }
}

/// A handle stands among the seeded root entries iff its slot is occupied:
/// a rebuild neither loses a live shape nor resurrects a removed one.
pub proof fn lemma_live_entries_exact(slots: Seq<Option<ShapeMeta>>, h: usize)
    requires
        slots.len() <= usize::MAX,
    ensures
        (exists|i: int|
            0 <= i < live_entries(slots).len() && (#[trigger] live_entries(slots)[i]).shape_idx
                == h) <==> (h < slots.len() && slots[h as int] is Some),
    decreases slots.len(),
{
    lemma_rebuild_seqs(slots);
    if slots.len() > 0 {
        lemma_live_entries_exact(slots.drop_last(), h);
        let live = live_entries(slots);
        let rest = live_entries(slots.drop_last());
        if h < slots.len() && slots[h as int] is Some {
            if h == slots.len() - 1 {
                assert(slots.last() is Some);
                assert(live[live.len() - 1].shape_idx == h);
            } else {
                assert(slots.drop_last()[h as int] == slots[h as int]);
                let i = choose|i: int|
                    0 <= i < rest.len() && (#[trigger] rest[i]).shape_idx == h;
                assert(live[i].shape_idx == h);
            }
        }
        if exists|i: int|
            0 <= i < live.len() && (#[trigger] live[i]).shape_idx == h {
            let i = choose|i: int| 0 <= i < live.len() && (#[trigger] live[i]).shape_idx == h;
            assert(slots[live[i].shape_idx as int] is Some);
        }
    }
}

/// A freed handle is reused first: removal leaves the hole on top of the
/// free list, and the next insertion takes exactly the top.
pub proof fn lemma_handle_reuse(free: Seq<usize>, h: usize, slots_len: int)
    ensures
        QtCore::alloc_choice(free.push(h), slots_len) == h,
{
}

/// When every slot is occupied, the seeded root lists every handle in
/// order and the hole list is empty.
pub proof fn lemma_live_entries_full(slots: Seq<Option<ShapeMeta>>)
    requires
        slots.len() <= usize::MAX,
        forall|i: int| 0 <= i < slots.len() ==> slots[i] is Some,
    ensures
        live_entries(slots).len() == slots.len(),
        forall|i: int|
            0 <= i < slots.len() ==> live_entries(slots)[i] == (IntersectData {
                shape_idx: i as usize,
                tests: 0,
            }),
        hole_idxs(slots).len() == 0,
    decreases slots.len(),
{
    if slots.len() > 0 {
        assert forall|i: int| 0 <= i < slots.drop_last().len() implies slots.drop_last()[i]
            is Some by {
            assert(slots.drop_last()[i] == slots[i]);
        }
        lemma_live_entries_full(slots.drop_last());
        assert(slots[slots.len() - 1] == slots.last());
    }
}

impl QtCore {
    /// Discards the node tree and re-seeds the root with every live shape,
    /// its test counter reset; holes stay holes (a removed shape does not
    /// come back), and the caches are emptied. Done when the world bounds
    /// grow.
    pub fn rebuild(&mut self)
        requires
            old(self).wf(),
        ensures
            final(self).slots@ == old(self).slots@,
            final(self).nodes@.len() == 2,
            final(self).nodes@[0].is_empty(),
            final(self).nodes@[1].intersect@ == live_entries(old(self).slots@),
            final(self).nodes@[1].contain@ =~= Seq::<usize>::empty(),
            final(self).nodes@[1].bl == NO_NODE,
            final(self).nodes@[1].br == NO_NODE,
            final(self).nodes@[1].tr == NO_NODE,
            final(self).nodes@[1].tl == NO_NODE,
            final(self).free@ == hole_idxs(old(self).slots@),
            final(self).caches_empty(),
            final(self).wf(),
    {
        let mut root_entries: Vec<IntersectData> = Vec::new();
        let mut holes: Vec<usize> = Vec::new();
        let n = self.slots.len();
        let mut j: usize = 0;
        while j < n
            invariant
                n == self.slots@.len(),
                j <= n,
                root_entries@ == live_entries(self.slots@.subrange(0, j as int)),
                holes@ == hole_idxs(self.slots@.subrange(0, j as int)),
            decreases n - j,
        {
            proof {
                let t = self.slots@.subrange(0, j + 1);
                assert(t.drop_last() =~= self.slots@.subrange(0, j as int));
                assert(t.last() == self.slots@[j as int]);
                assert(t.len() == j + 1);
            }
            if self.slots[j].is_some() {
                root_entries.push(IntersectData { shape_idx: j, tests: 0 });
            } else {
                holes.push(j);
            }
            j += 1;
        }
        proof {
            assert(self.slots@.subrange(0, n as int) =~= self.slots@);
        }
        let mut nodes: Vec<Node> = Vec::new();
        nodes.push(Node::new());
        nodes.push(Node { intersect: root_entries, contain: Vec::new(), bl: 0, br: 0, tr: 0, tl: 0 });
        self.nodes = nodes;
        self.free = holes;
        self.inter_cache.clear();
        self.cont_cache.clear();
        self.dist_cache.clear();
        proof {
            lemma_rebuild_seqs(self.slots@);
        }
    }

    /// An index over a batch of shapes: each takes the next handle in
    /// order, and all are seeded at the root with fresh counters.
    pub fn from_metas(metas: &Vec<ShapeMeta>) -> (q: QtCore)
        ensures
            q.slots@.len() == metas@.len(),
            forall|i: int| 0 <= i < metas@.len() ==> q.slots@[i] == Some(metas@[i]),
            q.free@.len() == 0,
            q.nodes@.len() == 2,
            q.nodes@[0].is_empty(),
            q.nodes@[1].intersect@.len() == metas@.len(),
            forall|i: int|
                0 <= i < metas@.len() ==> q.nodes@[1].intersect@[i] == (IntersectData {
                    shape_idx: i as usize,
                    tests: 0,
                }),
            q.nodes@[1].contain@ =~= Seq::<usize>::empty(),
            q.nodes@[1].bl == NO_NODE,
            q.nodes@[1].br == NO_NODE,
            q.nodes@[1].tr == NO_NODE,
            q.nodes@[1].tl == NO_NODE,
            q.caches_empty(),
            q.wf(),
    {
        let mut q = QtCore::new();
        let n = metas.len();
        let mut j: usize = 0;
        while j < n
            invariant
                n == metas@.len(),
                j <= n,
                q.slots@.len() == j,
                forall|i: int| 0 <= i < j ==> q.slots@[i] == Some(metas@[i]),
                q.free@.len() == 0,
                q.nodes@.len() == 2,
                q.nodes@[0].is_empty(),
                q.nodes@[1].is_empty(),
                q.caches_empty(),
                q.wf(),
            decreases n - j,
        {
            q.slots.push(Some(metas[j]));
            proof {
                assert forall|n2: int| 0 <= n2 < q.nodes@.len() implies q.node_ok(
                    #[trigger] q.nodes@[n2],
                ) by {
                    assert(q.nodes@[n2].is_empty());
                }
            }
            j += 1;
        }
        q.rebuild();
        proof {
            lemma_live_entries_full(q.slots@);
        }
        q
    }
}

/// A mutable borrow of one node of the array.
fn node_at(nodes: &mut Vec<Node>, i: usize) -> (n: &mut Node)
    requires
        i < old(nodes)@.len(),
    ensures
        *n == old(nodes)@[i as int],
        final(nodes)@ == old(nodes)@.update(i as int, *final(n)),
{
    &mut nodes[i]
}

} // verus!
