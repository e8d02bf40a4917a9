//! Positional model of the tower links. A map state is abstracted as the
//! sequence of node heights in key order; the forward link of a node at one
//! level is then the first later position whose height clears that level.
//! The lemmas here describe how these scan positions move when a node is
//! spliced in or out, which is the heart of the insert and remove proofs.

use vstd::prelude::*;

verus! {

/// First position `i` or later whose height exceeds level `l`; `hs.len()` if
/// there is none. This is where the forward link at level `l` points when the
/// search stands just before position `i`.
pub open spec fn succ_pos(hs: Seq<int>, i: int, l: int) -> int
    decreases hs.len() - i,
{
    if i < 0 || i >= hs.len() {
        hs.len() as int
    } else if hs[i] > l {
        i
    } else {
        succ_pos(hs, i + 1, l)
    }
}

/// Last position before `m` whose height exceeds level `l`; `-1` if there is
/// none. This is the predecessor recorded at level `l` by a search that ends
/// at position `m`.
pub open spec fn pred_pos(hs: Seq<int>, m: int, l: int) -> int
    decreases m,
{
    if m <= 0 {
        -1
    } else if hs[m - 1] > l {
        m - 1
    } else {
        pred_pos(hs, m - 1, l)
    }
}

pub proof fn lemma_succ_bounds(hs: Seq<int>, i: int, l: int)
    requires
        0 <= i <= hs.len(),
    ensures
        i <= succ_pos(hs, i, l) <= hs.len(),
        succ_pos(hs, i, l) < hs.len() ==> hs[succ_pos(hs, i, l)] > l,
        forall|j: int| i <= j < succ_pos(hs, i, l) ==> hs[j] <= l,
    decreases hs.len() - i,
{
    if i < hs.len() && !(hs[i] > l) {
        lemma_succ_bounds(hs, i + 1, l);
    }
}

/// The scan finds the first tall position: no tall position can precede it.
pub proof fn lemma_succ_min(hs: Seq<int>, i: int, l: int, j: int)
    requires
        0 <= i <= j < hs.len(),
        hs[j] > l,
    ensures
        succ_pos(hs, i, l) <= j,
    decreases j - i,
{
    if i < j && !(hs[i] > l) {
        lemma_succ_min(hs, i + 1, l, j);
    }
}

/// Skipping over a stretch of short positions does not change the scan result.
pub proof fn lemma_succ_stable(hs: Seq<int>, i: int, j: int, l: int)
    requires
        0 <= i <= j <= hs.len(),
        forall|x: int| i <= x < j ==> hs[x] <= l,
    ensures
        succ_pos(hs, i, l) == succ_pos(hs, j, l),
    decreases j - i,
{
    if i < j {
        lemma_succ_stable(hs, i + 1, j, l);
    }
}

pub proof fn lemma_pred_bounds(hs: Seq<int>, m: int, l: int)
    requires
        0 <= m <= hs.len(),
    ensures
        -1 <= pred_pos(hs, m, l) < m,
        pred_pos(hs, m, l) >= 0 ==> hs[pred_pos(hs, m, l)] > l,
        forall|j: int| pred_pos(hs, m, l) < j < m ==> hs[j] <= l,
    decreases m,
{
    if m > 0 && !(hs[m - 1] > l) {
        lemma_pred_bounds(hs, m - 1, l);
    }
}

/// The last tall position before `m` is pinned down by its characteristic
/// properties.
pub proof fn lemma_pred_unique(hs: Seq<int>, m: int, l: int, p: int)
    requires
        0 <= m <= hs.len(),
        -1 <= p < m,
        p >= 0 ==> hs[p] > l,
        forall|j: int| p < j < m ==> hs[j] <= l,
    ensures
        pred_pos(hs, m, l) == p,
    decreases m,
{
    if m > 0 && p < m - 1 {
        lemma_pred_unique(hs, m - 1, l, p);
    }
}

/// How every scan position moves when a height `hn` is spliced in at position
/// `p`: scans that stop before `p` are unchanged, scans that would pass `p`
/// stop there if the new node is tall enough, and later positions shift by
/// one.
pub proof fn lemma_succ_insert(hs: Seq<int>, p: int, hn: int, l: int, i: int)
    requires
        0 <= p <= hs.len(),
        0 <= i <= hs.len() + 1,
    ensures
        i <= p && hn > l ==> succ_pos(hs.insert(p, hn), i, l) == (if succ_pos(hs, i, l) < p {
            succ_pos(hs, i, l)
        } else {
            p
        }),
        i <= p && hn <= l ==> succ_pos(hs.insert(p, hn), i, l) == (if succ_pos(hs, i, l) < p {
            succ_pos(hs, i, l)
        } else {
            succ_pos(hs, i, l) + 1
        }),
        i > p ==> succ_pos(hs.insert(p, hn), i, l) == (if succ_pos(hs, i - 1, l) < p {
            succ_pos(hs, i - 1, l)
        } else {
            succ_pos(hs, i - 1, l) + 1
        }),
    decreases hs.len() + 1 - i,
{
    let hs2 = hs.insert(p, hn);
    hs.insert_ensures(p, hn);
    if i <= hs.len() {
        lemma_succ_insert(hs, p, hn, l, i + 1);
    }
    if 0 <= i <= hs.len() {
        lemma_succ_bounds(hs, i, l);
    }
    if i > p && i - 1 <= hs.len() {
        lemma_succ_bounds(hs, i - 1, l);
    }
}

/// How every scan position moves when the node at position `p` is spliced
/// out: scans that stopped before `p` are unchanged, scans that stopped at or
/// after `p` land where the continuation past `p` stopped, shifted down by
/// one.
pub proof fn lemma_succ_remove(hs: Seq<int>, p: int, l: int, i: int)
    requires
        0 <= p < hs.len(),
        0 <= i <= hs.len(),
    ensures
        i <= p ==> succ_pos(hs.remove(p), i, l) == (if succ_pos(hs, i, l) < p {
            succ_pos(hs, i, l)
        } else {
            succ_pos(hs, p + 1, l) - 1
        }),
        i > p ==> succ_pos(hs.remove(p), i - 1, l) == succ_pos(hs, i, l) - 1,
    decreases hs.len() - i,
{
    let hs2 = hs.remove(p);
    hs.remove_ensures(p);
    if i < hs.len() {
        lemma_succ_remove(hs, p, l, i + 1);
    }
    lemma_succ_bounds(hs, i, l);
    if i <= p {
        lemma_succ_bounds(hs, p + 1, l);
        if succ_pos(hs, i, l) >= p && succ_pos(hs, i, l) != p {
            lemma_succ_stable(hs, i, p + 1, l);
        }
        if succ_pos(hs, i, l) == p && i < p {
            assert(hs[p] > l);
        }
    }
}

} // verus!
