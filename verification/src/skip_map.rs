//! The skip list map itself. Nodes live in an arena of slots; a slot is
//! `Some` while its node is linked into the list and `None` once it has been
//! freed. Forward links and the head tower hold slot indices. A ghost
//! sequence `ord` records the live slots in key order; the structural
//! invariant ties every forward link to the first tall-enough successor in
//! that order.

use vstd::prelude::*;
use vstd::pervasive::VecAdditionalExecFns;

use crate::levels::{
    lemma_pred_bounds, lemma_pred_unique, lemma_succ_bounds, lemma_succ_insert, lemma_succ_min,
    lemma_succ_remove, lemma_succ_stable, pred_pos, succ_pos,
};
use crate::rng::next_height;
use crate::sorted_seq::{
    ge_idx, lemma_ge_idx, lemma_ge_idx_sorted, seq_get, seq_insert,
    seq_remove, sorted_keys,
};

verus! {

/// Every tower is capped at this many levels; heights follow a geometric
/// distribution, so with workloads up to a few thousand entries a full tower
/// is vanishingly rare.
pub const MAX_HEIGHT: usize = 12;

/// One entry of the map: a key, its value, and the tower of forward links,
/// one per level the node participates in. The tower's length is the node's
/// height, fixed at creation.
pub struct Node<V> {
    pub key: u64,
    pub value: V,
    pub forward: Vec<Option<usize>>,
}

impl<V> Node<V> {
    /// A fresh entry of the smallest height, not yet linked into any map.
    pub fn new(key: u64, value: V) -> (r: Node<V>)
        ensures
            r.key == key,
            r.value == value,
            r.forward@.len() == 1,
    {
        let mut forward: Vec<Option<usize>> = Vec::new();
        forward.push(None);
        Node { key, value, forward }
    }
}

/// An ordered map from `u64` keys to values, with expected logarithmic
/// search, insert and remove, abstracted by a key-sorted sequence of entries.
pub struct SkipMap<V> {
    nodes: Vec<Option<Node<V>>>,
    head: Vec<Option<usize>>,
    free: Vec<usize>,
    len: usize,
    ord: Ghost<Seq<usize>>,
}

impl<V> SkipMap<V> {
    /// The arena slot of the live node at position `p` of the key order.
    pub(crate) closed spec fn idx_at(self, p: int) -> int {
        self.ord@[p] as int
    }

    pub(crate) closed spec fn node_at(self, p: int) -> Node<V> {
        self.nodes@[self.idx_at(p)]->0
    }

    pub(crate) closed spec fn key_at(self, p: int) -> u64 {
        self.node_at(p).key
    }

    pub(crate) closed spec fn height_at(self, p: int) -> int {
        self.node_at(p).forward@.len() as int
    }

    /// The heights of the live nodes, in key order: the abstraction the level
    /// scans of `crate::levels` work on.
    pub(crate) closed spec fn heights(self) -> Seq<int> {
        Seq::new(self.ord@.len(), |p: int| self.height_at(p))
    }

    /// The slot index stored by a link that points at position `p`; `None`
    /// past the end of the order.
    pub(crate) closed spec fn opt_at(self, p: int) -> Option<usize> {
        if 0 <= p < self.ord@.len() {
            Some(self.ord@[p])
        } else {
            None
        }
    }

    /// Position `p` holds a live, well-sized node.
    pub(crate) closed spec fn live_at(self, p: int) -> bool {
        &&& self.ord@[p] < self.nodes@.len()
        &&& self.nodes@[self.idx_at(p)] is Some
        &&& 1 <= self.node_at(p).forward@.len() <= MAX_HEIGHT
    }

    /// The link found at level `l` when standing on node `cur` (`None` means
    /// the head tower).
    pub(crate) closed spec fn link_spec(self, cur: Option<usize>, l: int) -> Option<usize> {
        match cur {
            None => self.head@[l],
            Some(i) => self.nodes@[i as int]->0.forward@[l],
        }
    }

    /// The structural invariant: the head tower is full height, `len` counts
    /// the live nodes, keys strictly increase in order, every forward link at
    /// every level points at the first later position tall enough for that
    /// level, and the free list holds distinct emptied slots.
    pub closed spec fn wf(self) -> bool {
        &&& self.head@.len() == MAX_HEIGHT
        &&& self.len == self.ord@.len()
        &&& self.ord@.len() + self.free@.len() <= self.nodes@.len()
        &&& forall|p: int| 0 <= p < self.ord@.len() ==> #[trigger] self.live_at(p)
        &&& forall|p: int, q: int|
            0 <= p < q < self.ord@.len() ==> #[trigger] self.key_at(p) < #[trigger] self.key_at(q)
        &&& forall|l: int|
            0 <= l < MAX_HEIGHT ==> #[trigger] self.head@[l] == self.opt_at(
                succ_pos(self.heights(), 0, l),
            )
        &&& forall|p: int, l: int|
            0 <= p < self.ord@.len() && 0 <= l < self.height_at(p)
                ==> #[trigger] self.node_at(p).forward@[l] == self.opt_at(
                succ_pos(self.heights(), p + 1, l),
            )
        &&& forall|a: int|
            0 <= a < self.free@.len() ==> #[trigger] self.free@[a] < self.nodes@.len()
                && self.nodes@[self.free@[a] as int] is None
        &&& forall|a: int, b: int|
            0 <= a < b < self.free@.len() ==> self.free@[a] != self.free@[b]
    }

    /// Distinct positions hold distinct slots: their keys differ.
    proof fn lemma_ord_distinct(self)
        requires
            self.wf(),
        ensures
            forall|p: int, q: int|
                0 <= p < self.ord@.len() && 0 <= q < self.ord@.len() && p != q ==> self.ord@[p]
                    != self.ord@[q],
    {
        assert forall|p: int, q: int|
            0 <= p < self.ord@.len() && 0 <= q < self.ord@.len() && p != q implies self.ord@[p]
            != self.ord@[q] by {
            if p < q {
                assert(self.key_at(p) < self.key_at(q));
            } else {
                assert(self.key_at(q) < self.key_at(p));
            }
        }
    }

    /// The keys of the entries strictly increase: iterating the map yields
    /// keys in sorted order with no duplicates.
    pub proof fn lemma_sorted(&self)
        requires
            self.wf(),
        ensures
            sorted_keys(self@),
            forall|i: int, j: int|
                0 <= i < j < self@.len() ==> self@[i].0 != self@[j].0,
    {
        assert forall|i: int, j: int| 0 <= i < j < self@.len() implies self@[i].0 < self@[j].0 by {
            assert(self.key_at(i) < self.key_at(j));
        }
    }

    /// The cursor of a search: `None` is the head tower, `Some(i)` a live
    /// slot whose tower reaches above level `l`.
    pub(crate) closed spec fn cursor_ok(self, cur: Option<usize>, l: int) -> bool {
        match cur {
            None => true,
            Some(i) => i < self.nodes@.len() && self.nodes@[i as int] is Some && l
                < self.nodes@[i as int]->0.forward@.len(),
        }
    }

    /// The link from `cur` at level `l` points at a live slot, if anywhere.
    pub(crate) closed spec fn link_ok(self, cur: Option<usize>, l: int) -> bool {
        match self.link_spec(cur, l) {
            None => true,
            Some(i) => i < self.nodes@.len() && self.nodes@[i as int] is Some,
        }
    }

    /// Reads the forward link of `cur` at level `l`.
    fn link_at(&self, cur: Option<usize>, l: usize) -> (r: Option<usize>)
        requires
            self.wf(),
            l < MAX_HEIGHT,
            self.cursor_ok(cur, l as int),
        ensures
            r == self.link_spec(cur, l as int),
    {
        match cur {
            None => self.head[l],
            Some(i) => match &self.nodes[i] {
                Some(n) => n.forward[l],
                None => vstd::pervasive::unreached(),
            },
        }
    }

    /// Whether the link from `cur` at level `l` exists and holds a key below
    /// `key`, i.e. whether the search should keep moving forward.
    fn next_key_less(&self, cur: Option<usize>, l: usize, key: u64) -> (r: bool)
        requires
            self.wf(),
            l < MAX_HEIGHT,
            self.cursor_ok(cur, l as int),
            self.link_ok(cur, l as int),
        ensures
            r == match self.link_spec(cur, l as int) {
                Some(i) => self.nodes@[i as int]->0.key < key,
                None => false,
            },
    {
        match self.link_at(cur, l) {
            None => false,
            Some(i) => match &self.nodes[i] {
                Some(n) => n.key < key,
                None => vstd::pervasive::unreached(),
            },
        }
    }

    /// The cursor standing on position `pos` of the key order (`-1` for the
    /// head), with every key up to it below `key` and its tower reaching
    /// above level `l`.
    pub(crate) closed spec fn at_pos(self, cur: Option<usize>, pos: int, l: int, key: u64) -> bool {
        &&& -1 <= pos < self.ord@.len()
        &&& cur == self.opt_at(pos)
        &&& pos >= 0 ==> self.height_at(pos) > l && self.key_at(pos) < key
    }

    /// From a well-placed cursor, the stored link at level `l` is the scan
    /// successor, and it points at a live slot.
    proof fn lemma_link_from_pos(self, cur: Option<usize>, pos: int, l: int, key: u64)
        requires
            self.wf(),
            0 <= l < MAX_HEIGHT,
            self.at_pos(cur, pos, l, key),
        ensures
            self.link_spec(cur, l) == self.opt_at(succ_pos(self.heights(), pos + 1, l)),
            self.cursor_ok(cur, l),
            self.link_ok(cur, l),
            succ_pos(self.heights(), pos + 1, l) < self.ord@.len()
                ==> self.link_spec(cur, l) == Some(
                self.ord@[succ_pos(self.heights(), pos + 1, l)]),
            succ_pos(self.heights(), pos + 1, l) >= self.ord@.len() ==> self.link_spec(cur, l)
                is None,
    {
        let hs = self.heights();
        lemma_succ_bounds(hs, pos + 1, l);
        let s = succ_pos(hs, pos + 1, l);
        if pos >= 0 {
            assert(self.live_at(pos));
            assert(self.link_spec(cur, l) == self.node_at(pos).forward@[l]);
        }
        if s < self.ord@.len() {
            assert(self.live_at(s));
        }
    }

    /// One full top-down traversal for `key`: the predecessor tower. Entry
    /// `l` is the slot of the last node before `key`'s position whose tower
    /// reaches above level `l`, or `None` when only the head does.
    fn find_preds(&self, key: u64) -> (preds: Vec<Option<usize>>)
        requires
            self.wf(),
        ensures
            preds@.len() == MAX_HEIGHT,
            forall|l: int|
                0 <= l < MAX_HEIGHT ==> preds@[l] == self.opt_at(
                    pred_pos(self.heights(), ge_idx(self@, key), l),
                ),
    {
        let ghost hs = self.heights();
        let ghost g = ge_idx(self@, key);
        proof {
            self.lemma_sorted();
            lemma_ge_idx_sorted(self@, key);
            assert forall|j: int| 0 <= j < self.ord@.len() implies hs[j] <= MAX_HEIGHT as int by {
                assert(self.live_at(j));
            }
            assert forall|j: int| 0 <= j < g implies self.key_at(j) < key by {
                assert(self@[j].0 == self.key_at(j));
            }
            assert forall|j: int| g <= j < self.ord@.len() implies self.key_at(j) >= key by {
                assert(self@[j].0 == self.key_at(j));
            }
            lemma_pred_unique(hs, g, MAX_HEIGHT as int, -1);
        }
        let mut preds: Vec<Option<usize>> = Vec::new();
        let mut l: usize = 0;
        while l < MAX_HEIGHT
            invariant
                preds@.len() == l,
                l <= MAX_HEIGHT,
            decreases MAX_HEIGHT - l,
        {
            preds.push(None);
            l += 1;
        }
        let mut cur: Option<usize> = None;
        let ghost mut pos: int = -1;
        let mut h: usize = MAX_HEIGHT;
        while h > 0
            invariant
                self.wf(),
                hs == self.heights(),
                g == ge_idx(self@, key),
                0 <= g <= self.ord@.len(),
                forall|j: int| 0 <= j < g ==> self.key_at(j) < key,
                forall|j: int| g <= j < self.ord@.len() ==> self.key_at(j) >= key,
                h <= MAX_HEIGHT,
                pos == pred_pos(hs, g, h as int),
                -1 <= pos < self.ord@.len(),
                cur == self.opt_at(pos),
                pos >= 0 ==> self.height_at(pos) > h as int - 1 && self.key_at(pos) < key,
                preds@.len() == MAX_HEIGHT,
                forall|l2: int|
                    h <= l2 < MAX_HEIGHT ==> preds@[l2] == self.opt_at(pred_pos(hs, g, l2)),
            decreases h,
        {
            proof {
                lemma_pred_bounds(hs, g, h as int);
            }
            h = h - 1;
            loop
                invariant
                    self.wf(),
                    hs == self.heights(),
                    g == ge_idx(self@, key),
                    0 <= g <= self.ord@.len(),
                    forall|j: int| 0 <= j < g ==> self.key_at(j) < key,
                    forall|j: int| g <= j < self.ord@.len() ==> self.key_at(j) >= key,
                    h < MAX_HEIGHT,
                    self.at_pos(cur, pos, h as int, key),
                    pos < g,
                    preds@.len() == MAX_HEIGHT,
                    forall|l2: int|
                        h + 1 <= l2 < MAX_HEIGHT ==> preds@[l2] == self.opt_at(pred_pos(hs, g, l2)),
                ensures
                    self.at_pos(cur, pos, h as int, key),
                    pos < g,
                    pos == pred_pos(hs, g, h as int),
                    preds@.len() == MAX_HEIGHT,
                    forall|l2: int|
                        h + 1 <= l2 < MAX_HEIGHT ==> preds@[l2] == self.opt_at(pred_pos(hs, g, l2)),
                decreases self.ord@.len() - pos,
            {
                proof {
                    self.lemma_link_from_pos(cur, pos, h as int, key);
                }
                let ghost sp = succ_pos(hs, pos + 1, h as int);
                if self.next_key_less(cur, h, key) {
                    cur = self.link_at(cur, h);
                    proof {
                        lemma_succ_bounds(hs, pos + 1, h as int);
                        assert(sp < self.ord@.len());
                        assert(self.key_at(sp) < key);
                        pos = sp;
                    }
                } else {
                    proof {
                        lemma_succ_bounds(hs, pos + 1, h as int);
                        if sp < self.ord@.len() {
                            assert(self.key_at(sp) >= key);
                            assert(g <= sp);
                        }
                        assert forall|j: int| pos < j < g implies hs[j] <= h as int by {
                            assert(hs[j] <= h as int);
                        }
                        lemma_pred_unique(hs, g, h as int, pos);
                    }
                    break ;
                }
            }
            preds.set(h, cur);
        }
        preds
    }

    /// Pure lookup: the arena slot of the node holding `key`, if present.
    /// Unlike the traversal of the mutating operations, this one needs no
    /// predecessors and stops at the first equality, at whatever level.
    fn lookup(&self, key: u64) -> (r: Option<usize>)
        requires
            self.wf(),
        ensures
            match r {
                Some(i) => {
                    &&& i < self.nodes@.len()
                    &&& self.nodes@[i as int] is Some
                    &&& self.nodes@[i as int]->0.key == key
                    &&& seq_get(self@, key) == Some(self.nodes@[i as int]->0.value)
                },
                None => seq_get(self@, key) == None::<V>,
            },
    {
        let ghost hs = self.heights();
        let ghost g = ge_idx(self@, key);
        proof {
            self.lemma_sorted();
            lemma_ge_idx_sorted(self@, key);
            assert forall|j: int| 0 <= j < self.ord@.len() implies 1 <= #[trigger] hs[j]
                <= MAX_HEIGHT by {
                assert(self.live_at(j));
            }
            assert forall|j: int| 0 <= j < g implies self.key_at(j) < key by {
                assert(self@[j].0 == self.key_at(j));
            }
            assert forall|j: int| g <= j < self.ord@.len() implies self.key_at(j) >= key by {
                assert(self@[j].0 == self.key_at(j));
            }
            lemma_pred_unique(hs, g, MAX_HEIGHT as int, -1);
        }
        let mut cur: Option<usize> = None;
        let ghost mut pos: int = -1;
        let mut h: usize = MAX_HEIGHT;
        loop
            invariant
                self.wf(),
                hs == self.heights(),
                g == ge_idx(self@, key),
                0 <= g <= self.ord@.len(),
                forall|j: int| 0 <= j < g ==> self.key_at(j) < key,
                forall|j: int| g <= j < self.ord@.len() ==> self.key_at(j) >= key,
                1 <= h <= MAX_HEIGHT,
                pos == pred_pos(hs, g, h as int),
                -1 <= pos < self.ord@.len(),
                cur == self.opt_at(pos),
                pos >= 0 ==> self.height_at(pos) > h as int - 1 && self.key_at(pos) < key,
            decreases h,
        {
            proof {
                lemma_pred_bounds(hs, g, h as int);
            }
            h = h - 1;
            loop
                invariant
                    self.wf(),
                    hs == self.heights(),
                    g == ge_idx(self@, key),
                    0 <= g <= self.ord@.len(),
                    forall|j: int| 0 <= j < g ==> self.key_at(j) < key,
                    forall|j: int| g <= j < self.ord@.len() ==> self.key_at(j) >= key,
                    h < MAX_HEIGHT,
                    self.at_pos(cur, pos, h as int, key),
                    pos < g,
                ensures
                    self.at_pos(cur, pos, h as int, key),
                    pos < g,
                    pos == pred_pos(hs, g, h as int),
                decreases self.ord@.len() - pos,
            {
                proof {
                    self.lemma_link_from_pos(cur, pos, h as int, key);
                }
                let ghost sp = succ_pos(hs, pos + 1, h as int);
                if self.next_key_less(cur, h, key) {
                    cur = self.link_at(cur, h);
                    proof {
                        lemma_succ_bounds(hs, pos + 1, h as int);
                        assert(sp < self.ord@.len());
                        assert(self.key_at(sp) < key);
                        pos = sp;
                    }
                } else {
                    proof {
                        lemma_succ_bounds(hs, pos + 1, h as int);
                        if sp < self.ord@.len() {
                            assert(self.key_at(sp) >= key);
                            assert(g <= sp);
                        }
                        assert forall|j: int| pos < j < g implies hs[j] <= h as int by {
                            assert(hs[j] <= h as int);
                        }
                        lemma_pred_unique(hs, g, h as int, pos);
                    }
                    break ;
                }
            }
            proof {
                self.lemma_link_from_pos(cur, pos, h as int, key);
                lemma_succ_bounds(hs, pos + 1, h as int);
            }
            let ghost sp = succ_pos(hs, pos + 1, h as int);
            match self.link_at(cur, h) {
                Some(nx) => {
                    proof {
                        assert(sp < self.ord@.len());
                        assert(nx == self.ord@[sp]);
                        assert(self.live_at(sp));
                    }
                    match &self.nodes[nx] {
                        Some(n) => {
                            if n.key == key {
                                proof {
                                    assert(self.key_at(sp) == key);
                                    assert(sp == g);
                                    assert(self@[g] == (self.key_at(g), self.node_at(g).value));
                                }
                                return Some(nx);
                            }
                        },
                        None => {
                            proof {
                                assert(false);
                            }
                        },
                    }
                },
                None => {},
            }
            if h == 0 {
                proof {
                    if g < self.ord@.len() {
                        assert(self.live_at(g));
                        lemma_pred_bounds(hs, g, 0);
                        assert(pos == g - 1) by {
                            if pos < g - 1 {
                                assert(self.live_at(g - 1));
                                assert(hs[g - 1] <= 0);
                            }
                        }
                        assert(sp == g);
                        assert(self.key_at(g) != key);
                        assert(self@[g].0 == self.key_at(g));
                    }
                }
                return None;
            }
        }
    }

    /// From a predecessor tower, the slot of the node with exactly `key`:
    /// the level-0 link of the level-0 predecessor is the first node whose
    /// key is `key` or greater, so it decides presence.
    fn candidate_at0(&self, preds: &Vec<Option<usize>>, key: u64) -> (r: Option<usize>)
        requires
            self.wf(),
            preds@.len() == MAX_HEIGHT,
            preds@[0] == self.opt_at(pred_pos(self.heights(), ge_idx(self@, key), 0)),
        ensures
            match r {
                Some(i) => {
                    &&& i < self.nodes@.len()
                    &&& self.nodes@[i as int] is Some
                    &&& self.nodes@[i as int]->0.key == key
                    &&& ge_idx(self@, key) < self.ord@.len()
                    &&& i == self.ord@[ge_idx(self@, key)]
                    &&& seq_get(self@, key) == Some(self.nodes@[i as int]->0.value)
                },
                None => seq_get(self@, key) == None::<V>,
            },
    {
        let ghost hs = self.heights();
        let ghost g = ge_idx(self@, key);
        proof {
            self.lemma_sorted();
            lemma_ge_idx_sorted(self@, key);
        }
        let p0 = preds[0];
        let ghost pp = pred_pos(hs, g, 0);
        proof {
            lemma_pred_bounds(hs, g, 0);
            assert forall|j: int| 0 <= j < self.ord@.len() implies hs[j] >= 1 by {
                assert(self.live_at(j));
            }
            assert forall|j: int| 0 <= j < g implies self.key_at(j) < key by {
                assert(self@[j].0 == self.key_at(j));
            }
            assert(self.at_pos(p0, pp, 0, key));
            self.lemma_link_from_pos(p0, pp, 0, key);
            assert(pp == g - 1) by {
                if pp < g - 1 {
                    assert(hs[g - 1] <= 0);
                }
            }
            if g < self.ord@.len() {
                assert(succ_pos(hs, g, 0) == g);
            } else {
                lemma_succ_bounds(hs, g, 0);
            }
        }
        match self.link_at(p0, 0) {
            None => {
                proof {
                    assert(g == self.ord@.len());
                }
                None
            },
            Some(ci) => {
                proof {
                    assert(ci == self.ord@[g]);
                    assert(self.live_at(g));
                }
                match &self.nodes[ci] {
                    Some(n) => {
                        if n.key == key {
                            proof {
                                assert(self@[g] == (self.key_at(g), self.node_at(g).value));
                            }
                            Some(ci)
                        } else {
                            proof {
                                assert(self@[g].0 == self.key_at(g));
                            }
                            None
                        }
                    },
                    None => vstd::pervasive::unreached(),
                }
            },
        }
    }

    /// Overwrites the forward link of the head tower (`at == None`) or of the
    /// live node in slot `at` at level `l`, leaving everything else in place.
    fn set_link(&mut self, at: Option<usize>, l: usize, v: Option<usize>)
        requires
            match at {
                None => l < old(self).head@.len(),
                Some(i) => i < old(self).nodes@.len() && old(self).nodes@[i as int] is Some && l
                    < old(self).nodes@[i as int]->0.forward@.len(),
            },
        ensures
            final(self).free == old(self).free,
            final(self).len == old(self).len,
            final(self).ord == old(self).ord,
            match at {
                None => final(self).head@ == old(self).head@.update(l as int, v)
                    && final(self).nodes@ == old(self).nodes@,
                Some(i) => {
                    &&& final(self).head@ == old(self).head@
                    &&& final(self).nodes@.len() == old(self).nodes@.len()
                    &&& forall|j: int|
                        0 <= j < old(self).nodes@.len() && j != i
                            ==> final(self).nodes@[j] == old(self).nodes@[j]
                    &&& final(self).nodes@[i as int] is Some
                    &&& final(self).nodes@[i as int]->0.key == old(self).nodes@[i as int]->0.key
                    &&& final(self).nodes@[i as int]->0.value
                        == old(self).nodes@[i as int]->0.value
                    &&& final(self).nodes@[i as int]->0.forward@
                        == old(self).nodes@[i as int]->0.forward@.update(l as int, v)
                },
            },
    {
        match at {
            None => {
                self.head.set(l, v);
            },
            Some(i) => {
                let mut tmp: Option<Node<V>> = None;
                self.nodes.set_and_swap(i, &mut tmp);
                match tmp {
                    Some(mut n) => {
                        n.forward.set(l, v);
                        self.nodes.set(i, Some(n));
                    },
                    None => {
                        proof {
                            assert(false);
                        }
                    },
                }
            },
        }
    }

    /// Empties slot `i`, handing its node out.
    fn take_node(&mut self, i: usize) -> (r: Node<V>)
        requires
            i < old(self).nodes@.len(),
            old(self).nodes@[i as int] is Some,
        ensures
            r == old(self).nodes@[i as int]->0,
            final(self).nodes@ == old(self).nodes@.update(i as int, None),
            final(self).head == old(self).head,
            final(self).free == old(self).free,
            final(self).len == old(self).len,
            final(self).ord == old(self).ord,
    {
        let mut tmp: Option<Node<V>> = None;
        self.nodes.set_and_swap(i, &mut tmp);
        match tmp {
            Some(n) => n,
            None => vstd::pervasive::unreached(),
        }
    }

    /// Fills slot `i` with a node.
    fn put_node(&mut self, i: usize, n: Node<V>)
        requires
            i < old(self).nodes@.len(),
        ensures
            final(self).nodes@ == old(self).nodes@.update(i as int, Some(n)),
            final(self).head == old(self).head,
            final(self).free == old(self).free,
            final(self).len == old(self).len,
            final(self).ord == old(self).ord,
    {
        self.nodes.set(i, Some(n));
    }

    /// Finishing argument for an insert that overwrote a present key in
    /// place: slot `ci` holds position `g` of the order, only its value
    /// changed, so the structure is untouched and the view gains the new
    /// value at `g`.
    proof fn lemma_overwrite_done(
        m0: Self,
        mf: Self,
        ci: usize,
        g: int,
        key: u64,
        vspec: V,
    )
        requires
            m0.wf(),
            g == ge_idx(m0@, key),
            0 <= g < m0.ord@.len(),
            m0.ord@[g] == ci,
            ci < m0.nodes@.len(),
            m0.nodes@[ci as int] is Some,
            m0.nodes@[ci as int]->0.key == key,
            mf.nodes@ == m0.nodes@.update(
                ci as int,
                Some(
                    Node {
                        key,
                        value: vspec,
                        forward: m0.nodes@[ci as int]->0.forward,
                    },
                ),
            ),
            mf.head == m0.head,
            mf.free == m0.free,
            mf.len == m0.len,
            mf.ord == m0.ord,
        ensures
            mf.wf(),
            mf@ == seq_insert(m0@, key, vspec),
    {
        m0.lemma_ord_distinct();
        let node2 = Node { key, value: vspec, forward: m0.nodes@[ci as int]->0.forward };
        assert(mf.nodes@ =~= m0.nodes@.update(ci as int, Some(node2)));
        assert forall|p: int|
            0 <= p < mf.ord@.len() && p != g implies #[trigger] mf.node_at(p) == m0.node_at(
            p) by {
            assert(m0.live_at(p));
            assert(m0.ord@[p] != m0.ord@[g]);
        }
        assert(mf.node_at(g) == node2);
        assert(node2.key == m0.node_at(g).key);
        assert(node2.forward == m0.node_at(g).forward);
        assert forall|p: int| 0 <= p < mf.ord@.len() implies #[trigger] mf.live_at(p) by {
            assert(m0.live_at(p));
        }
        assert forall|p: int|
            0 <= p < mf.ord@.len() implies #[trigger] mf.height_at(p) == m0.height_at(p)
            && #[trigger] mf.key_at(p) == m0.key_at(p) by {
            assert(m0.live_at(p));
        }
        assert(mf.heights() =~= m0.heights());
        assert(mf.heights() == m0.heights());
        assert forall|p: int, l: int|
            0 <= p < mf.ord@.len() && 0 <= l < mf.height_at(p)
            implies #[trigger] mf.node_at(p).forward@[l] == mf.opt_at(
            succ_pos(mf.heights(), p + 1, l)) by {
            assert(l < m0.height_at(p));
            assert(m0.node_at(p).forward@[l] == m0.opt_at(succ_pos(m0.heights(), p + 1, l)));
            assert(mf.node_at(p).forward@ == m0.node_at(p).forward@);
        }
        assert forall|p: int, q: int|
            0 <= p < q < mf.ord@.len() implies #[trigger] mf.key_at(p) < #[trigger] mf.key_at(
            q) by {
            assert(m0.key_at(p) < m0.key_at(q));
        }
        assert(mf.wf());
        assert(m0@[g].0 == m0.key_at(g));
        assert(mf@ =~= m0@.update(g, (key, vspec)));
        assert(seq_insert(m0@, key, vspec) == m0@.update(g, (key, vspec)));
    }

    /// Finishing argument for an insert that spliced a fresh node into slot
    /// `idx` at position `g`: its tower was copied from the predecessor
    /// links, the predecessors now point at it up to its height `hn`, and
    /// every other link is as before. The scan lemmas of `crate::levels`
    /// then re-establish the invariant over the grown order.
    #[verifier::rlimit(100)]
    proof fn lemma_splice_done(
        m0: Self,
        mf: Self,
        preds: Seq<Option<usize>>,
        fwdspec: Seq<Option<usize>>,
        idx: usize,
        g: int,
        hn: int,
        key: u64,
        vspec: V,
    )
        requires
            m0.wf(),
            g == ge_idx(m0@, key),
            0 <= g <= m0.ord@.len(),
            seq_get(m0@, key) == None::<V>,
            1 <= hn <= MAX_HEIGHT,
            preds.len() == MAX_HEIGHT,
            forall|lev: int|
                0 <= lev < MAX_HEIGHT ==> preds[lev] == m0.opt_at(
                    pred_pos(m0.heights(), g, lev),
                ),
            fwdspec.len() == hn,
            forall|x: int|
                0 <= x < hn ==> fwdspec[x] == m0.opt_at(
                    succ_pos(m0.heights(), pred_pos(m0.heights(), g, x) + 1, x),
                ),
            forall|p: int| 0 <= p < m0.ord@.len() ==> m0.ord@[p] != idx,
            idx < mf.nodes@.len(),
            m0.nodes@.len() <= mf.nodes@.len() <= m0.nodes@.len() + 1,
            mf.nodes@.len() <= usize::MAX,
            forall|j: int|
                0 <= j < mf.nodes@.len() && j != idx ==> ((#[trigger] mf.nodes@[j] is Some)
                    <==> (m0.nodes@[j] is Some)) && j < m0.nodes@.len(),
            forall|j: int|
                0 <= j < m0.nodes@.len() && j != idx && m0.nodes@[j] is Some
                    ==> #[trigger] mf.nodes@[j]->0.key == m0.nodes@[j]->0.key,
            forall|j: int|
                0 <= j < m0.nodes@.len() && j != idx && m0.nodes@[j] is Some
                    ==> #[trigger] mf.nodes@[j]->0.value == m0.nodes@[j]->0.value,
            forall|j: int|
                0 <= j < m0.nodes@.len() && j != idx && m0.nodes@[j] is Some
                    ==> #[trigger] mf.nodes@[j]->0.forward@.len()
                    == m0.nodes@[j]->0.forward@.len(),
            forall|j: int, lev: int|
                0 <= j < m0.nodes@.len() && j != idx && m0.nodes@[j] is Some && 0 <= lev
                    < m0.nodes@[j]->0.forward@.len()
                    ==> #[trigger] mf.nodes@[j]->0.forward@[lev] == (if lev < hn && preds[lev]
                    == Some(j as usize) {
                    Some(idx)
                } else {
                    m0.nodes@[j]->0.forward@[lev]
                }),
            mf.nodes@[idx as int] is Some,
            mf.nodes@[idx as int]->0.key == key,
            mf.nodes@[idx as int]->0.value == vspec,
            mf.nodes@[idx as int]->0.forward@ == fwdspec,
            mf.head@.len() == MAX_HEIGHT,
            forall|lev: int|
                0 <= lev < MAX_HEIGHT ==> #[trigger] mf.head@[lev] == (if lev < hn && preds[lev]
                    is None {
                    Some(idx)
                } else {
                    m0.head@[lev]
                }),
            mf.len == m0.len + 1,
            mf.ord@ == m0.ord@.insert(g, idx),
            m0.ord@.len() + mf.free@.len() + 1 <= mf.nodes@.len(),
            forall|a: int|
                0 <= a < mf.free@.len() ==> #[trigger] mf.free@[a] < mf.nodes@.len()
                    && mf.nodes@[mf.free@[a] as int] is None && mf.free@[a] != idx,
            forall|a: int, b: int|
                0 <= a < b < mf.free@.len() ==> mf.free@[a] != mf.free@[b],
        ensures
            mf.wf(),
            mf@ == seq_insert(m0@, key, vspec),
    {
        let hs = m0.heights();
        m0.lemma_ord_distinct();
        m0.lemma_sorted();
        lemma_ge_idx_sorted(m0@, key);
        assert forall|j: int| 0 <= j < g implies m0.key_at(j) < key by {
            assert(m0@[j].0 == m0.key_at(j));
        }
        assert forall|j: int| g <= j < m0.ord@.len() implies m0.key_at(j) > key by {
            assert(m0@[j].0 == m0.key_at(j));
        }
        let hsi = hs.insert(g, hn);
        hs.insert_ensures(g, hn);
        m0.ord@.insert_ensures(g, idx);
        m0@.insert_ensures(g, (key, vspec));
        assert(mf.ord@.len() == m0.ord@.len() + 1);
        assert forall|x: int| 0 <= x < g implies #[trigger] mf.opt_at(x) == m0.opt_at(x) by {
            assert(m0.live_at(x));
        }
        assert forall|x: int| g <= x <= m0.ord@.len() implies #[trigger] mf.opt_at(x + 1)
            == m0.opt_at(x) by {
            if x < m0.ord@.len() {
                assert(m0.live_at(x));
            }
        }
        assert forall|p: int|
            0 <= p < mf.ord@.len() implies #[trigger] mf.live_at(p) && mf.height_at(p) == hsi[p]
            && mf.key_at(p) == (if p < g {
            m0.key_at(p)
        } else if p == g {
            key
        } else {
            m0.key_at(p - 1)
        }) && mf.node_at(p).value == (if p < g {
            m0.node_at(p).value
        } else if p == g {
            vspec
        } else {
            m0.node_at(p - 1).value
        }) by {
            if p < g {
                assert(m0.live_at(p));
                let s = m0.ord@[p] as int;
                assert(mf.ord@[p] == m0.ord@[p]);
                assert(mf.nodes@[s] is Some);
                assert(mf.nodes@[s]->0.key == m0.nodes@[s]->0.key);
                assert(mf.nodes@[s]->0.value == m0.nodes@[s]->0.value);
                assert(mf.nodes@[s]->0.forward@.len() == m0.nodes@[s]->0.forward@.len());
            } else if p > g {
                assert(m0.live_at(p - 1));
                let s = m0.ord@[p - 1] as int;
                assert(mf.ord@[p] == m0.ord@[p - 1]);
                assert(mf.nodes@[s] is Some);
                assert(mf.nodes@[s]->0.key == m0.nodes@[s]->0.key);
                assert(mf.nodes@[s]->0.value == m0.nodes@[s]->0.value);
                assert(mf.nodes@[s]->0.forward@.len() == m0.nodes@[s]->0.forward@.len());
            } else {
                assert(mf.ord@[p] == idx);
            }
        }
        assert forall|p: int| 0 <= p < mf.ord@.len() implies #[trigger] mf.height_at(p)
            == hsi[p] by {
            assert(mf.live_at(p));
        }
        assert forall|p: int|
            0 <= p < mf.ord@.len() implies #[trigger] mf.key_at(p) == (if p < g {
            m0.key_at(p)
        } else if p == g {
            key
        } else {
            m0.key_at(p - 1)
        }) by {
            assert(mf.live_at(p));
        }
        assert forall|p: int|
            0 <= p < mf.ord@.len() implies #[trigger] mf.node_at(p).value == (if p < g {
            m0.node_at(p).value
        } else if p == g {
            vspec
        } else {
            m0.node_at(p - 1).value
        }) by {
            assert(mf.live_at(p));
        }
        assert(mf.heights() =~= hsi);
        assert(mf.heights() == hsi);
        assert forall|p: int| 0 <= p < mf.ord@.len() implies #[trigger] mf@[p]
            == m0@.insert(g, (key, vspec))[p] by {
            assert(mf.live_at(p));
            assert(mf@[p] == (mf.key_at(p), mf.node_at(p).value));
            if p < g {
                assert(m0@[p] == (m0.key_at(p), m0.node_at(p).value));
            } else if p > g {
                assert(m0@[p - 1] == (m0.key_at(p - 1), m0.node_at(p - 1).value));
            }
        }
        assert(mf@ =~= m0@.insert(g, (key, vspec)));
        assert(seq_insert(m0@, key, vspec) == m0@.insert(g, (key, vspec)));
        assert forall|lev: int|
            0 <= lev < MAX_HEIGHT implies #[trigger] mf.head@[lev] == mf.opt_at(
            succ_pos(hsi, 0, lev)) by {
            lemma_succ_insert(hs, g, hn, lev, 0);
            lemma_pred_bounds(hs, g, lev);
            lemma_succ_bounds(hs, 0, lev);
            let pp = pred_pos(hs, g, lev);
            let x = succ_pos(hs, 0, lev);
            if lev < hn {
                if pp == -1 {
                    assert(preds[lev] is None);
                    assert(mf.head@[lev] == Some(idx));
                    assert(x >= g) by {
                        if x < g {
                            assert(hs[x] <= lev);
                            assert(hs[x] > lev);
                        }
                    }
                    assert(succ_pos(hsi, 0, lev) == g);
                } else {
                    assert(preds[lev] == Some(m0.ord@[pp]));
                    lemma_succ_min(hs, 0, lev, pp);
                    assert(mf.head@[lev] == m0.head@[lev]);
                    assert(x < g);
                    assert(succ_pos(hsi, 0, lev) == x);
                }
            } else {
                assert(mf.head@[lev] == m0.head@[lev]);
            }
        }
        assert forall|p: int, lev: int|
            0 <= p < mf.ord@.len() && 0 <= lev < mf.height_at(p)
            implies #[trigger] mf.node_at(p).forward@[lev] == mf.opt_at(
            succ_pos(hsi, p + 1, lev)) by {
            lemma_pred_bounds(hs, g, lev);
            let pp = pred_pos(hs, g, lev);
            if p == g {
                lemma_succ_insert(hs, g, hn, lev, g + 1);
                lemma_succ_bounds(hs, g, lev);
                lemma_succ_bounds(hs, pp + 1, lev);
                lemma_succ_stable(hs, pp + 1, g, lev);
                let x = succ_pos(hs, g, lev);
                assert(mf.node_at(p).forward@[lev] == fwdspec[lev]);
                assert(fwdspec[lev] == m0.opt_at(x));
                assert(succ_pos(hsi, g + 1, lev) == x + 1);
            } else if p < g {
                assert(m0.live_at(p));
                lemma_succ_insert(hs, g, hn, lev, p + 1);
                lemma_succ_bounds(hs, p + 1, lev);
                let x = succ_pos(hs, p + 1, lev);
                assert(hs[p] > lev);
                assert(m0.node_at(p).forward@[lev] == m0.opt_at(x));
                if lev < hn && pp == p {
                    assert(preds[lev] == Some(m0.ord@[p]));
                    assert(mf.node_at(p).forward@[lev] == Some(idx));
                    lemma_succ_stable(hs, p + 1, g, lev);
                    lemma_succ_bounds(hs, g, lev);
                    assert(x >= g);
                    assert(succ_pos(hsi, p + 1, lev) == g);
                } else {
                    assert(p <= pp) by {
                        if p > pp {
                            assert(hs[p] <= lev);
                        }
                    }
                    if lev < hn {
                        assert(p < pp);
                        assert(m0.ord@[p] != m0.ord@[pp]);
                        assert(preds[lev] == Some(m0.ord@[pp]));
                        assert(preds[lev] != Some(m0.ord@[p]));
                        assert(mf.node_at(p).forward@[lev] == m0.node_at(p).forward@[lev]);
                        lemma_succ_min(hs, p + 1, lev, pp);
                        assert(x <= pp < g);
                        assert(succ_pos(hsi, p + 1, lev) == x);
                    } else {
                        assert(mf.node_at(p).forward@[lev] == m0.node_at(p).forward@[lev]);
                    }
                }
            } else {
                assert(m0.live_at(p - 1));
                lemma_succ_insert(hs, g, hn, lev, p + 1);
                lemma_succ_bounds(hs, p, lev);
                if pp >= 0 {
                    assert(m0.ord@[p - 1] != m0.ord@[pp]);
                    assert(preds[lev] == Some(m0.ord@[pp]));
                }
                assert(preds[lev] != Some(m0.ord@[p - 1]));
                assert(mf.node_at(p).forward@[lev] == m0.node_at(p - 1).forward@[lev]);
                assert(m0.node_at(p - 1).forward@[lev] == m0.opt_at(succ_pos(hs, p, lev)));
            }
        }
        assert forall|p: int, q: int|
            0 <= p < q < mf.ord@.len() implies #[trigger] mf.key_at(p) < #[trigger] mf.key_at(
            q) by {}
        assert(mf.wf());
    }

    /// Finishing argument for removing the node of slot `ci` at position
    /// `g`: each predecessor now holds what the removed node's tower held at
    /// the same level, every other link is as before, and the slot joined
    /// the free list. The scan lemmas of `crate::levels` re-establish the
    /// invariant over the shrunken order.
    #[verifier::rlimit(100)]
    proof fn lemma_unsplice_done(
        m0: Self,
        mf: Self,
        preds: Seq<Option<usize>>,
        nodespec: Node<V>,
        ci: usize,
        g: int,
        key: u64,
    )
        requires
            m0.wf(),
            g == ge_idx(m0@, key),
            0 <= g < m0.ord@.len(),
            m0.ord@[g] == ci,
            ci < m0.nodes@.len(),
            m0.nodes@[ci as int] is Some,
            nodespec == m0.nodes@[ci as int]->0,
            nodespec.key == key,
            preds.len() == MAX_HEIGHT,
            forall|lev: int|
                0 <= lev < MAX_HEIGHT ==> preds[lev] == m0.opt_at(
                    pred_pos(m0.heights(), g, lev),
                ),
            mf.nodes@.len() == m0.nodes@.len(),
            mf.nodes@[ci as int] is None,
            forall|j: int|
                0 <= j < mf.nodes@.len() && j != ci ==> ((#[trigger] mf.nodes@[j] is Some)
                    <==> (m0.nodes@[j] is Some)),
            forall|j: int|
                0 <= j < m0.nodes@.len() && j != ci && m0.nodes@[j] is Some
                    ==> #[trigger] mf.nodes@[j]->0.key == m0.nodes@[j]->0.key,
            forall|j: int|
                0 <= j < m0.nodes@.len() && j != ci && m0.nodes@[j] is Some
                    ==> #[trigger] mf.nodes@[j]->0.value == m0.nodes@[j]->0.value,
            forall|j: int|
                0 <= j < m0.nodes@.len() && j != ci && m0.nodes@[j] is Some
                    ==> #[trigger] mf.nodes@[j]->0.forward@.len()
                    == m0.nodes@[j]->0.forward@.len(),
            forall|j: int, lev: int|
                0 <= j < m0.nodes@.len() && j != ci && m0.nodes@[j] is Some && 0 <= lev
                    < m0.nodes@[j]->0.forward@.len()
                    ==> #[trigger] mf.nodes@[j]->0.forward@[lev] == (if lev
                    < nodespec.forward@.len() && preds[lev] == Some(j as usize) {
                    nodespec.forward@[lev]
                } else {
                    m0.nodes@[j]->0.forward@[lev]
                }),
            mf.head@.len() == MAX_HEIGHT,
            forall|lev: int|
                0 <= lev < MAX_HEIGHT ==> #[trigger] mf.head@[lev] == (if lev
                    < nodespec.forward@.len() && preds[lev] is None {
                    nodespec.forward@[lev]
                } else {
                    m0.head@[lev]
                }),
            mf.len == m0.len - 1,
            mf.ord@ == m0.ord@.remove(g),
            mf.free@ == m0.free@.push(ci),
        ensures
            mf.wf(),
            mf@ == seq_remove(m0@, key),
    {
        let hs = m0.heights();
        let hgt = nodespec.forward@.len() as int;
        m0.lemma_ord_distinct();
        m0.lemma_sorted();
        lemma_ge_idx_sorted(m0@, key);
        assert forall|j: int| 0 <= j < g implies m0.key_at(j) < key by {
            assert(m0@[j].0 == m0.key_at(j));
        }
        assert forall|j: int| g < j < m0.ord@.len() implies m0.key_at(j) > key by {
            assert(m0@[j].0 == m0.key_at(j));
            assert(m0@[g].0 == m0.key_at(g));
        }
        assert(m0.live_at(g));
        assert(m0.height_at(g) == hgt);
        assert(hs[g] == hgt);
        let hsr = hs.remove(g);
        hs.remove_ensures(g);
        m0.ord@.remove_ensures(g);
        m0@.remove_ensures(g);
        assert(mf.ord@.len() == m0.ord@.len() - 1);
        assert forall|x: int| 0 <= x < g implies #[trigger] mf.opt_at(x) == m0.opt_at(x) by {
            assert(m0.live_at(x));
        }
        assert forall|x: int| g <= x <= mf.ord@.len() implies #[trigger] mf.opt_at(x)
            == m0.opt_at(x + 1) by {
            if x < mf.ord@.len() {
                assert(m0.live_at(x + 1));
            }
        }
        assert forall|p: int|
            0 <= p < mf.ord@.len() implies #[trigger] mf.live_at(p) && mf.height_at(p) == hsr[p]
            && mf.key_at(p) == (if p < g {
            m0.key_at(p)
        } else {
            m0.key_at(p + 1)
        }) && mf.node_at(p).value == (if p < g {
            m0.node_at(p).value
        } else {
            m0.node_at(p + 1).value
        }) by {
            let q: int = if p < g {
                p
            } else {
                p + 1
            };
            assert(m0.live_at(q));
            assert(m0.ord@[q] != m0.ord@[g]);
            let s = m0.ord@[q] as int;
            assert(mf.ord@[p] == m0.ord@[q]);
            assert(mf.nodes@[s] is Some);
            assert(mf.nodes@[s]->0.key == m0.nodes@[s]->0.key);
            assert(mf.nodes@[s]->0.value == m0.nodes@[s]->0.value);
            assert(mf.nodes@[s]->0.forward@.len() == m0.nodes@[s]->0.forward@.len());
        }
        assert forall|p: int| 0 <= p < mf.ord@.len() implies #[trigger] mf.height_at(p)
            == hsr[p] by {
            assert(mf.live_at(p));
        }
        assert forall|p: int|
            0 <= p < mf.ord@.len() implies #[trigger] mf.key_at(p) == (if p < g {
            m0.key_at(p)
        } else {
            m0.key_at(p + 1)
        }) by {
            assert(mf.live_at(p));
        }
        assert forall|p: int|
            0 <= p < mf.ord@.len() implies #[trigger] mf.node_at(p).value == (if p < g {
            m0.node_at(p).value
        } else {
            m0.node_at(p + 1).value
        }) by {
            assert(mf.live_at(p));
        }
        assert(mf.heights() =~= hsr);
        assert(mf.heights() == hsr);
        assert forall|p: int| 0 <= p < mf.ord@.len() implies #[trigger] mf@[p] == m0@.remove(
            g)[p] by {
            assert(mf.live_at(p));
            assert(mf@[p] == (mf.key_at(p), mf.node_at(p).value));
            if p < g {
                assert(m0@[p] == (m0.key_at(p), m0.node_at(p).value));
            } else {
                assert(m0@[p + 1] == (m0.key_at(p + 1), m0.node_at(p + 1).value));
            }
        }
        assert(mf@ =~= m0@.remove(g));
        assert(m0@[g].0 == m0.key_at(g));
        assert(seq_remove(m0@, key) == m0@.remove(g));
        // the removed node's own tower still satisfies the old invariant
        assert forall|lev: int| 0 <= lev < hgt implies #[trigger] nodespec.forward@[lev]
            == m0.opt_at(succ_pos(hs, g + 1, lev)) by {
            assert(m0.node_at(g).forward@[lev] == m0.opt_at(succ_pos(hs, g + 1, lev)));
        }
        assert forall|lev: int|
            0 <= lev < MAX_HEIGHT implies #[trigger] mf.head@[lev] == mf.opt_at(
            succ_pos(hsr, 0, lev)) by {
            lemma_succ_remove(hs, g, lev, 0);
            lemma_pred_bounds(hs, g, lev);
            lemma_succ_bounds(hs, 0, lev);
            lemma_succ_bounds(hs, g + 1, lev);
            let pp = pred_pos(hs, g, lev);
            let x = succ_pos(hs, 0, lev);
            let y = succ_pos(hs, g + 1, lev);
            if lev < hgt {
                if pp == -1 {
                    assert(preds[lev] is None);
                    assert(mf.head@[lev] == nodespec.forward@[lev]);
                    assert(x >= g) by {
                        if x < g {
                            assert(hs[x] <= lev);
                            assert(hs[x] > lev);
                        }
                    }
                    assert(succ_pos(hsr, 0, lev) == y - 1);
                } else {
                    assert(preds[lev] == Some(m0.ord@[pp]));
                    lemma_succ_min(hs, 0, lev, pp);
                    assert(mf.head@[lev] == m0.head@[lev]);
                    assert(x <= pp < g);
                    assert(succ_pos(hsr, 0, lev) == x);
                }
            } else {
                assert(mf.head@[lev] == m0.head@[lev]);
                assert(x != g);
                if x > g {
                    assert(y == x) by {
                        if y < x {
                            assert(hs[y] > lev);
                            assert(hs[y] <= lev);
                        }
                        if y > x {
                            assert(x < hs.len());
                            assert(hs[x] > lev);
                            assert(hs[x] <= lev);
                        }
                    }
                    assert(succ_pos(hsr, 0, lev) == x - 1);
                } else {
                    assert(succ_pos(hsr, 0, lev) == x);
                }
            }
        }
        assert forall|p: int, lev: int|
            0 <= p < mf.ord@.len() && 0 <= lev < mf.height_at(p)
            implies #[trigger] mf.node_at(p).forward@[lev] == mf.opt_at(
            succ_pos(hsr, p + 1, lev)) by {
            lemma_pred_bounds(hs, g, lev);
            lemma_succ_bounds(hs, g + 1, lev);
            let pp = pred_pos(hs, g, lev);
            let y = succ_pos(hs, g + 1, lev);
            if p < g {
                assert(m0.live_at(p));
                lemma_succ_remove(hs, g, lev, p + 1);
                lemma_succ_bounds(hs, p + 1, lev);
                let x = succ_pos(hs, p + 1, lev);
                assert(hs[p] > lev);
                assert(m0.node_at(p).forward@[lev] == m0.opt_at(x));
                if lev < hgt && pp == p {
                    assert(preds[lev] == Some(m0.ord@[p]));
                    assert(mf.node_at(p).forward@[lev] == nodespec.forward@[lev]);
                    lemma_succ_stable(hs, p + 1, g, lev);
                    assert(succ_pos(hs, g, lev) == g);
                    assert(x == g);
                    assert(succ_pos(hsr, p + 1, lev) == y - 1);
                } else {
                    assert(p <= pp) by {
                        if p > pp {
                            assert(hs[p] <= lev);
                        }
                    }
                    if lev < hgt {
                        assert(p < pp);
                        assert(m0.ord@[p] != m0.ord@[pp]);
                        assert(preds[lev] == Some(m0.ord@[pp]));
                        assert(preds[lev] != Some(m0.ord@[p]));
                        assert(mf.node_at(p).forward@[lev] == m0.node_at(p).forward@[lev]);
                        lemma_succ_min(hs, p + 1, lev, pp);
                        assert(x <= pp < g);
                        assert(succ_pos(hsr, p + 1, lev) == x);
                    } else {
                        assert(mf.node_at(p).forward@[lev] == m0.node_at(p).forward@[lev]);
                        assert(x != g);
                        if x > g {
                            assert(y == x) by {
                                if y < x {
                                    assert(hs[y] > lev);
                                    assert(hs[y] <= lev);
                                }
                                if y > x {
                                    assert(x < hs.len());
                                    assert(hs[x] > lev);
                                    assert(hs[x] <= lev);
                                }
                            }
                            assert(succ_pos(hsr, p + 1, lev) == y - 1);
                        } else {
                            assert(succ_pos(hsr, p + 1, lev) == x);
                        }
                    }
                }
            } else {
                assert(m0.live_at(p + 1));
                lemma_succ_remove(hs, g, lev, p + 2);
                lemma_succ_bounds(hs, p + 2, lev);
                if pp >= 0 {
                    assert(m0.ord@[p + 1] != m0.ord@[pp]);
                    assert(preds[lev] == Some(m0.ord@[pp]));
                }
                assert(preds[lev] != Some(m0.ord@[p + 1]));
                assert(mf.node_at(p).forward@[lev] == m0.node_at(p + 1).forward@[lev]);
                assert(m0.node_at(p + 1).forward@[lev] == m0.opt_at(succ_pos(hs, p + 2, lev)));
                assert(succ_pos(hsr, p + 1, lev) == succ_pos(hs, p + 2, lev) - 1);
            }
        }
        assert forall|p: int, q: int|
            0 <= p < q < mf.ord@.len() implies #[trigger] mf.key_at(p) < #[trigger] mf.key_at(
            q) by {}
        assert forall|a: int|
            0 <= a < mf.free@.len() implies #[trigger] mf.free@[a] < mf.nodes@.len()
            && mf.nodes@[mf.free@[a] as int] is None by {
            if a < m0.free@.len() {
                assert(m0.free@[a] < m0.nodes@.len());
                assert(m0.nodes@[m0.free@[a] as int] is None);
            }
        }
        assert forall|a: int, b: int|
            0 <= a < b < mf.free@.len() implies mf.free@[a] != mf.free@[b] by {
            if b < m0.free@.len() {
                assert(m0.free@[a] != m0.free@[b]);
            } else {
                assert(mf.free@[b] == ci);
                if a < m0.free@.len() {
                    assert(m0.nodes@[m0.free@[a] as int] is None);
                }
            }
        }
        assert(mf.wf());
    }

    /// Unbinds `key`: the node holding it is unlinked from every level it
    /// participates in, its slot is marked free for reuse, and its value is
    /// handed back. An absent key leaves the map untouched.
    pub fn remove(&mut self, key: u64) -> (r: Option<V>)
        requires
            old(self).wf(),
        ensures
            final(self).wf(),
            final(self)@ == seq_remove(old(self)@, key),
            r == seq_get(old(self)@, key),
    {
        let ghost m0 = *self;
        let ghost hs = m0.heights();
        let ghost g = ge_idx(m0@, key);
        proof {
            self.lemma_sorted();
            lemma_ge_idx_sorted(m0@, key);
            self.lemma_ord_distinct();
        }
        let preds = self.find_preds(key);
        match self.candidate_at0(&preds, key) {
            None => None,
            Some(ci) => {
                let node = self.take_node(ci);
                let ghost nodespec = node;
                let arena_len = self.nodes.len();
                let hgt = node.forward.len();
                proof {
                    assert(m0.live_at(g));
                    assert(hgt <= MAX_HEIGHT);
                }
                let mut l: usize = 0;
                while l < hgt
                    invariant
                        m0.wf(),
                        hs == m0.heights(),
                        g == ge_idx(m0@, key),
                        0 <= g < m0.ord@.len(),
                        m0.ord@[g] == ci,
                        ci < m0.nodes@.len(),
                        m0.nodes@[ci as int] is Some,
                        nodespec == m0.nodes@[ci as int]->0,
                        node == nodespec,
                        hgt == nodespec.forward@.len(),
                        hgt <= MAX_HEIGHT,
                        l <= hgt,
                        preds@.len() == MAX_HEIGHT,
                        forall|lev: int|
                            0 <= lev < MAX_HEIGHT ==> preds@[lev] == m0.opt_at(
                                pred_pos(hs, g, lev),
                            ),
                        self.nodes@.len() == m0.nodes@.len(),
                        self.nodes@.len() == arena_len,
                        self.nodes@[ci as int] is None,
                        forall|j: int|
                            0 <= j < self.nodes@.len() && j != ci ==> ((#[trigger] self.nodes@[j]
                                is Some) <==> (m0.nodes@[j] is Some)),
                        forall|j: int|
                            0 <= j < m0.nodes@.len() && j != ci && m0.nodes@[j] is Some
                                ==> #[trigger] self.nodes@[j]->0.key == m0.nodes@[j]->0.key,
                        forall|j: int|
                            0 <= j < m0.nodes@.len() && j != ci && m0.nodes@[j] is Some
                                ==> #[trigger] self.nodes@[j]->0.value == m0.nodes@[j]->0.value,
                        forall|j: int|
                            0 <= j < m0.nodes@.len() && j != ci && m0.nodes@[j] is Some
                                ==> #[trigger] self.nodes@[j]->0.forward@.len()
                                == m0.nodes@[j]->0.forward@.len(),
                        forall|j: int, lev: int|
                            0 <= j < m0.nodes@.len() && j != ci && m0.nodes@[j] is Some && 0 <= lev
                                < m0.nodes@[j]->0.forward@.len()
                                ==> #[trigger] self.nodes@[j]->0.forward@[lev] == (if lev < l
                                && preds@[lev] == Some(j as usize) {
                                nodespec.forward@[lev]
                            } else {
                                m0.nodes@[j]->0.forward@[lev]
                            }),
                        self.head@.len() == MAX_HEIGHT,
                        forall|lev: int|
                            0 <= lev < MAX_HEIGHT ==> #[trigger] self.head@[lev] == (if lev < l
                                && preds@[lev] is None {
                                nodespec.forward@[lev]
                            } else {
                                m0.head@[lev]
                            }),
                        self.len == m0.len,
                        self.ord@ == m0.ord@,
                        self.free@ == m0.free@,
                    decreases hgt - l,
                {
                    let ghost pp = pred_pos(hs, g, l as int);
                    proof {
                        lemma_pred_bounds(hs, g, l as int);
                        m0.lemma_ord_distinct();
                        assert(hs[g] == m0.height_at(g));
                        assert(hs[g] >= hgt);
                        if pp >= 0 {
                            assert(m0.live_at(pp));
                            assert(m0.ord@[pp] != m0.ord@[g]);
                            let s = m0.ord@[pp] as int;
                            assert(self.nodes@[s] is Some);
                            assert(self.nodes@[s]->0.forward@.len()
                                == m0.nodes@[s]->0.forward@.len());
                            assert(m0.height_at(pp) == hs[pp]);
                            assert(hs[pp] > l as int);
                        }
                    }
                    let v = node.forward[l];
                    self.set_link(preds[l], l, v);
                    l += 1;
                }
                self.free.push(ci);
                self.len = self.len - 1;
                proof {
                    self.ord@ = m0.ord@.remove(g);
                }
                proof {
                    Self::lemma_unsplice_done(m0, *self, preds@, nodespec, ci, g, key);
                }
                let Node { key: _, value, forward: _ } = node;
                Some(value)
            },
        }
    }

    /// Binds `key` to `value`. A present key has its entry overwritten in
    /// place — key, value, tower and position all kept, the old value handed
    /// back. An absent key gets a fresh node of randomly sampled height,
    /// spliced in after its predecessor at every level of its tower.
    pub fn insert(&mut self, key: u64, value: V) -> (r: Option<V>)
        requires
            old(self).wf(),
        ensures
            final(self).wf(),
            final(self)@ == seq_insert(old(self)@, key, value),
            r == seq_get(old(self)@, key),
    {
        let ghost m0 = *self;
        let ghost hs = m0.heights();
        let ghost g = ge_idx(m0@, key);
        let ghost vspec = value;
        proof {
            self.lemma_sorted();
            lemma_ge_idx_sorted(m0@, key);
            self.lemma_ord_distinct();
            assert forall|j: int| 0 <= j < m0.ord@.len() implies 1 <= #[trigger] hs[j]
                <= MAX_HEIGHT by {
                assert(m0.live_at(j));
            }
            assert forall|j: int| 0 <= j < g implies m0.key_at(j) < key by {
                assert(m0@[j].0 == m0.key_at(j));
            }
            assert forall|j: int| g <= j < m0.ord@.len() implies m0.key_at(j) >= key by {
                assert(m0@[j].0 == m0.key_at(j));
            }
        }
        let preds = self.find_preds(key);
        match self.candidate_at0(&preds, key) {
            Some(ci) => {
                let node = self.take_node(ci);
                let Node { key: _, value: old_value, forward } = node;
                self.put_node(ci, Node { key, value, forward });
                proof {
                    let node2 = Node {
                        key,
                        value: vspec,
                        forward: m0.nodes@[ci as int]->0.forward,
                    };
                    assert(self.nodes@ =~= m0.nodes@.update(ci as int, Some(node2)));
                    Self::lemma_overwrite_done(m0, *self, ci, g, key, vspec);
                }
                Some(old_value)
            },
            None => {
                let hn = next_height();
                let mut fwd: Vec<Option<usize>> = Vec::new();
                let mut l: usize = 0;
                while l < hn
                    invariant
                        *self == m0,
                        m0.wf(),
                        hs == m0.heights(),
                        g == ge_idx(m0@, key),
                        0 <= g <= m0.ord@.len(),
                        forall|j: int| 0 <= j < g ==> m0.key_at(j) < key,
                        l <= hn,
                        1 <= hn <= MAX_HEIGHT,
                        preds@.len() == MAX_HEIGHT,
                        forall|lev: int|
                            0 <= lev < MAX_HEIGHT ==> preds@[lev] == m0.opt_at(
                                pred_pos(hs, g, lev),
                            ),
                        fwd@.len() == l,
                        forall|x: int|
                            0 <= x < l ==> fwd@[x] == m0.opt_at(
                                succ_pos(hs, pred_pos(hs, g, x) + 1, x),
                            ),
                    decreases hn - l,
                {
                    proof {
                        lemma_pred_bounds(hs, g, l as int);
                        let pp = pred_pos(hs, g, l as int);
                        if pp >= 0 {
                            assert(m0.live_at(pp));
                        }
                        assert(self.at_pos(preds@[l as int], pp, l as int, key));
                        self.lemma_link_from_pos(preds@[l as int], pp, l as int, key);
                    }
                    let lk = self.link_at(preds[l], l);
                    fwd.push(lk);
                    l += 1;
                }
                let ghost fwdspec = fwd@;
                let arena_len = self.nodes.len();
                let idx = match self.free.pop() {
                    Some(f) => f,
                    None => {
                        self.nodes.push(None);
                        self.nodes.len() - 1
                    },
                };
                proof {
                    assert forall|p: int| 0 <= p < m0.ord@.len() implies m0.ord@[p] != idx by {
                        assert(m0.live_at(p));
                    }
                }
                self.put_node(idx, Node { key, value, forward: fwd });
                let mut l: usize = 0;
                while l < hn
                    invariant
                        m0.wf(),
                        hs == m0.heights(),
                        g == ge_idx(m0@, key),
                        0 <= g <= m0.ord@.len(),
                        seq_get(m0@, key) == None::<V>,
                        l <= hn,
                        1 <= hn <= MAX_HEIGHT,
                        preds@.len() == MAX_HEIGHT,
                        forall|lev: int|
                            0 <= lev < MAX_HEIGHT ==> preds@[lev] == m0.opt_at(
                                pred_pos(hs, g, lev),
                            ),
                        fwdspec.len() == hn,
                        forall|x: int|
                            0 <= x < hn ==> fwdspec[x] == m0.opt_at(
                                succ_pos(hs, pred_pos(hs, g, x) + 1, x),
                            ),
                        forall|p: int| 0 <= p < m0.ord@.len() ==> m0.ord@[p] != idx,
                        idx < self.nodes@.len(),
                        m0.nodes@.len() <= self.nodes@.len() <= m0.nodes@.len() + 1,
                        self.nodes@.len() <= usize::MAX,
                        forall|j: int|
                            0 <= j < self.nodes@.len() && j != idx ==> ((#[trigger] self.nodes@[j]
                                is Some) <==> (m0.nodes@[j] is Some)) && j < m0.nodes@.len(),
                        forall|j: int|
                            0 <= j < m0.nodes@.len() && j != idx && m0.nodes@[j] is Some
                                ==> #[trigger] self.nodes@[j]->0.key == m0.nodes@[j]->0.key,
                        forall|j: int|
                            0 <= j < m0.nodes@.len() && j != idx && m0.nodes@[j] is Some
                                ==> #[trigger] self.nodes@[j]->0.value == m0.nodes@[j]->0.value,
                        forall|j: int|
                            0 <= j < m0.nodes@.len() && j != idx && m0.nodes@[j] is Some
                                ==> #[trigger] self.nodes@[j]->0.forward@.len()
                                == m0.nodes@[j]->0.forward@.len(),
                        forall|j: int, lev: int|
                            0 <= j < m0.nodes@.len() && j != idx && m0.nodes@[j] is Some && 0 <= lev
                                < m0.nodes@[j]->0.forward@.len()
                                ==> #[trigger] self.nodes@[j]->0.forward@[lev] == (if lev < l
                                && preds@[lev] == Some(j as usize) {
                                Some(idx)
                            } else {
                                m0.nodes@[j]->0.forward@[lev]
                            }),
                        self.nodes@[idx as int] is Some,
                        self.nodes@[idx as int]->0.key == key,
                        self.nodes@[idx as int]->0.value == vspec,
                        self.nodes@[idx as int]->0.forward@ == fwdspec,
                        self.head@.len() == MAX_HEIGHT,
                        forall|lev: int|
                            0 <= lev < MAX_HEIGHT ==> #[trigger] self.head@[lev] == (if lev < l
                                && preds@[lev] is None {
                                Some(idx)
                            } else {
                                m0.head@[lev]
                            }),
                        self.len == m0.len,
                        self.ord@ == m0.ord@,
                        m0.ord@.len() + self.free@.len() + 1 <= self.nodes@.len(),
                        forall|a: int|
                            0 <= a < self.free@.len() ==> #[trigger] self.free@[a]
                                < self.nodes@.len() && self.nodes@[self.free@[a] as int] is None
                                && self.free@[a] != idx,
                        forall|a: int, b: int|
                            0 <= a < b < self.free@.len() ==> self.free@[a] != self.free@[b],
                    decreases hn - l,
                {
                    let ghost pp = pred_pos(hs, g, l as int);
                    proof {
                        lemma_pred_bounds(hs, g, l as int);
                        if pp >= 0 {
                            assert(m0.live_at(pp));
                            assert(m0.ord@[pp] != idx);
                            let s = m0.ord@[pp] as int;
                            assert(self.nodes@[s] is Some);
                            assert(self.nodes@[s]->0.forward@.len()
                                == m0.nodes@[s]->0.forward@.len());
                            assert(m0.height_at(pp) == hs[pp]);
                            assert(hs[pp] > l as int);
                        }
                    }
                    self.set_link(preds[l], l, Some(idx));
                    l += 1;
                }
                self.len = self.len + 1;
                proof {
                    self.ord@ = m0.ord@.insert(g, idx);
                }
                proof {
                    Self::lemma_splice_done(
                        m0,
                        *self,
                        preds@,
                        fwdspec,
                        idx,
                        g,
                        hn as int,
                        key,
                        vspec,
                    );
                }
                None
            },
        }
    }

    /// A reference to the value stored under `key`, or nothing when the key
    /// is absent. No mutation, no allocation, no effect on length.
    pub fn get(&self, key: u64) -> (r: Option<&V>)
        requires
            self.wf(),
        ensures
            match r {
                Some(v) => seq_get(self@, key) == Some(*v),
                None => seq_get(self@, key) == None::<V>,
            },
    {
        match self.lookup(key) {
            None => None,
            Some(i) => match &self.nodes[i] {
                Some(n) => Some(&n.value),
                None => vstd::pervasive::unreached(),
            },
        }
    }

    /// A mutable borrow of the value in slot `i`, leaving key and tower in
    /// place: whatever the caller writes through it becomes the slot's value.
    fn node_value_mut<'x>(nodes: &'x mut Vec<Option<Node<V>>>, i: usize) -> (r: &'x mut V)
        requires
            i < old(nodes)@.len(),
            old(nodes)@[i as int] is Some,
        ensures
            *r == old(nodes)@[i as int]->0.value,
            final(nodes)@ == old(nodes)@.update(
                i as int,
                Some(
                    Node {
                        key: old(nodes)@[i as int]->0.key,
                        value: *final(r),
                        forward: old(nodes)@[i as int]->0.forward,
                    },
                ),
            ),
    {
        match &mut nodes[i] {
            Some(n) => &mut n.value,
            None => vstd::pervasive::unreached(),
        }
    }

    /// A mutable reference to the value stored under `key`, or nothing when
    /// the key is absent. Whatever the caller writes through the reference
    /// becomes the value bound to `key`; the structure is untouched.
    pub fn get_mut(&mut self, key: u64) -> (r: Option<&mut V>)
        requires
            old(self).wf(),
        ensures
            match r {
                None => {
                    &&& seq_get(old(self)@, key) == None::<V>
                    &&& *final(self) == *old(self)
                },
                Some(v) => {
                    &&& seq_get(old(self)@, key) == Some(*v)
                    &&& final(self).wf()
                    &&& final(self)@ == seq_insert(old(self)@, key, *final(v))
                },
            },
    {
        let ghost m0 = *self;
        let ghost g = ge_idx(m0@, key);
        let preds = self.find_preds(key);
        match self.candidate_at0(&preds, key) {
            None => None,
            Some(ci) => {
                proof {
                    self.lemma_sorted();
                    lemma_ge_idx(m0@, key);
                }
                let vref = Self::node_value_mut(&mut self.nodes, ci);
                proof {
                    Self::lemma_overwrite_done(m0, after_borrow(*self), ci, g, key, *final(vref));
                }
                Some(vref)
            },
        }
    }

    /// Whether `key` is bound in the map.
    pub fn contains_key(&self, key: u64) -> (r: bool)
        requires
            self.wf(),
        ensures
            r == (seq_get(self@, key) is Some),
    {
        self.lookup(key).is_some()
    }

    /// A full-height tower of empty links, for a head that stands before all
    /// keys.
    fn empty_head() -> (r: Vec<Option<usize>>)
        ensures
            r@.len() == MAX_HEIGHT,
            forall|l: int| 0 <= l < MAX_HEIGHT ==> r@[l] is None,
    {
        let mut head: Vec<Option<usize>> = Vec::new();
        let mut l: usize = 0;
        while l < MAX_HEIGHT
            invariant
                head@.len() == l,
                l <= MAX_HEIGHT,
                forall|x: int| 0 <= x < l ==> head@[x] is None,
            decreases MAX_HEIGHT - l,
        {
            head.push(None);
            l += 1;
        }
        head
    }

    /// An empty map: a bare head tower, no nodes, no free slots.
    pub fn new() -> (r: SkipMap<V>)
        ensures
            r.wf(),
            r@ == Seq::<(u64, V)>::empty(),
    {
        let r = SkipMap {
            nodes: Vec::new(),
            head: Self::empty_head(),
            free: Vec::new(),
            len: 0,
            ord: Ghost(Seq::empty()),
        };
        proof {
            assert(r@ =~= Seq::<(u64, V)>::empty());
        }
        r
    }

    /// How many entries the map holds.
    pub fn len(&self) -> (r: usize)
        requires
            self.wf(),
        ensures
            r == self@.len(),
    {
        self.len
    }

    /// Whether the map holds no entry at all.
    pub fn is_empty(&self) -> (r: bool)
        requires
            self.wf(),
        ensures
            r == (self@.len() == 0),
    {
        self.len == 0
    }

    /// Unlinks and frees every entry at once by dropping the whole arena and
    /// resetting the head tower.
    pub fn clear(&mut self)
        requires
            old(self).wf(),
        ensures
            final(self).wf(),
            final(self)@ == Seq::<(u64, V)>::empty(),
    {
        self.nodes = Vec::new();
        self.head = Self::empty_head();
        self.free = Vec::new();
        self.len = 0;
        proof {
            self.ord@ = Seq::empty();
        }
        proof {
            assert(self@ =~= Seq::<(u64, V)>::empty());
        }
    }
}

/// A forward-only walk over the map's entries in key order, following the
/// level-0 links. It borrows the map, so the map cannot be mutated while the
/// walk is alive; a fresh call to `iter` starts over.
pub struct Iter<'a, V> {
    map: &'a SkipMap<V>,
    cur: Option<usize>,
    len: usize,
    pos: Ghost<int>,
}

impl<'a, V> Iter<'a, V> {
    /// The entries not yet yielded, in key order.
    pub closed spec fn remaining(self) -> Seq<(u64, V)> {
        self.map@.skip(self.pos@)
    }

    /// The walk stands on a live position of its map, with `len` entries
    /// still to come.
    pub closed spec fn wf(self) -> bool {
        &&& self.map.wf()
        &&& 0 <= self.pos@ <= self.map@.len()
        &&& self.cur == self.map.opt_at(self.pos@)
        &&& self.len == self.map@.len() - self.pos@
    }

    /// The next entry in key order, or nothing once the walk is done.
    pub fn next(&mut self) -> (r: Option<(u64, &'a V)>)
        requires
            old(self).wf(),
        ensures
            final(self).wf(),
            match r {
                None => old(self).remaining().len() == 0 && final(self).remaining() == old(
                    self,
                ).remaining(),
                Some(kv) => {
                    &&& old(self).remaining().len() > 0
                    &&& kv.0 == old(self).remaining()[0].0
                    &&& *kv.1 == old(self).remaining()[0].1
                    &&& final(self).remaining() == old(self).remaining().drop_first()
                },
            },
    {
        let m = self.map;
        let ghost p = self.pos@;
        match self.cur {
            None => None,
            Some(i) => {
                proof {
                    assert(m.live_at(p));
                    assert(m.node_at(p).forward@[0] == m.opt_at(succ_pos(m.heights(), p + 1, 0)));
                    if p + 1 < m.ord@.len() {
                        assert(m.live_at(p + 1));
                        assert(m.heights()[p + 1] >= 1);
                        assert(succ_pos(m.heights(), p + 1, 0) == p + 1);
                    } else {
                        lemma_succ_bounds(m.heights(), p + 1, 0);
                    }
                }
                match &m.nodes[i] {
                    Some(n) => {
                        self.cur = n.forward[0];
                        self.len = self.len - 1;
                        proof {
                            self.pos@ = p + 1;
                        }
                        proof {
                            assert(m@.skip(p)[0] == m@[p]);
                            assert(m@[p] == (m.key_at(p), m.node_at(p).value));
                            assert(m@.skip(p + 1) =~= m@.skip(p).drop_first());
                        }
                        Some((n.key, &n.value))
                    },
                    None => vstd::pervasive::unreached(),
                }
            },
        }
    }

    /// Exactly how many entries are still to come.
    pub fn size_hint(&self) -> (r: (usize, Option<usize>))
        requires
            self.wf(),
        ensures
            r.0 == self.remaining().len(),
            r.1 == Some(r.0),
    {
        (self.len, Some(self.len))
    }
}

impl<V> SkipMap<V> {
    /// A walk over all entries in strictly increasing key order, reflecting
    /// the map as it is now.
    pub fn iter<'a>(&'a self) -> (r: Iter<'a, V>)
        requires
            self.wf(),
        ensures
            r.wf(),
            r.remaining() == self@,
    {
        let cur = self.link_at(None, 0);
        proof {
            if self.ord@.len() > 0 {
                assert(self.live_at(0));
                assert(self.heights()[0] >= 1);
                assert(succ_pos(self.heights(), 0, 0) == 0);
            } else {
                lemma_succ_bounds(self.heights(), 0, 0);
            }
            assert(self@.skip(0) =~= self@);
        }
        Iter { map: self, cur, len: self.len, pos: Ghost(0) }
    }
}

impl<V> View for SkipMap<V> {
    type V = Seq<(u64, V)>;

    /// The map's abstraction: its entries in strictly increasing key order.
    closed spec fn view(&self) -> Seq<(u64, V)> {
        Seq::new(self.ord@.len(), |p: int| (self.key_at(p), self.node_at(p).value))
    }
}

} // verus!
