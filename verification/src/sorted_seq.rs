//! The mathematical model of the map: a sequence of key-value entries with
//! strictly increasing keys. Every public contract of `SkipMap` is stated as a
//! transformation of such a sequence.

use vstd::prelude::*;

verus! {

/// Keys strictly increase along the sequence of entries.
pub open spec fn sorted_keys<V>(s: Seq<(u64, V)>) -> bool {
    forall|i: int, j: int| 0 <= i < j < s.len() ==> s[i].0 < s[j].0
}

/// Index of the first entry at position `i` or later whose key is `k` or
/// greater; `s.len()` if there is none.
pub open spec fn ge_idx_from<V>(s: Seq<(u64, V)>, i: int, k: u64) -> int
    decreases s.len() - i,
{
    if i < 0 || i >= s.len() {
        s.len() as int
    } else if s[i].0 >= k {
        i
    } else {
        ge_idx_from(s, i + 1, k)
    }
}

/// Index of the first entry whose key is `k` or greater; on a sorted sequence
/// this is the position where key `k` lives or would be inserted.
pub open spec fn ge_idx<V>(s: Seq<(u64, V)>, k: u64) -> int {
    ge_idx_from(s, 0, k)
}

/// The value stored under key `k`, if any.
pub open spec fn seq_get<V>(s: Seq<(u64, V)>, k: u64) -> Option<V> {
    let g = ge_idx(s, k);
    if g < s.len() && s[g].0 == k {
        Some(s[g].1)
    } else {
        None
    }
}

/// The sequence after binding key `k` to value `v`: an entry with key `k` is
/// overwritten in place, an absent key is inserted at its sorted position.
pub open spec fn seq_insert<V>(s: Seq<(u64, V)>, k: u64, v: V) -> Seq<(u64, V)> {
    let g = ge_idx(s, k);
    if g < s.len() && s[g].0 == k {
        s.update(g, (k, v))
    } else {
        s.insert(g, (k, v))
    }
}

/// The sequence after unbinding key `k`: its entry is removed, an absent key
/// leaves the sequence unchanged.
pub open spec fn seq_remove<V>(s: Seq<(u64, V)>, k: u64) -> Seq<(u64, V)> {
    let g = ge_idx(s, k);
    if g < s.len() && s[g].0 == k {
        s.remove(g)
    } else {
        s
    }
}

pub proof fn lemma_ge_idx_from<V>(s: Seq<(u64, V)>, i: int, k: u64)
    requires
        0 <= i <= s.len(),
    ensures
        i <= ge_idx_from(s, i, k) <= s.len(),
        forall|j: int| i <= j < ge_idx_from(s, i, k) ==> s[j].0 < k,
        ge_idx_from(s, i, k) < s.len() ==> s[ge_idx_from(s, i, k)].0 >= k,
    decreases s.len() - i,
{
    if i < s.len() && s[i].0 < k {
        lemma_ge_idx_from(s, i + 1, k);
    }
}

pub proof fn lemma_ge_idx<V>(s: Seq<(u64, V)>, k: u64)
    ensures
        0 <= ge_idx(s, k) <= s.len(),
        forall|j: int| 0 <= j < ge_idx(s, k) ==> s[j].0 < k,
        ge_idx(s, k) < s.len() ==> s[ge_idx(s, k)].0 >= k,
{
    lemma_ge_idx_from(s, 0, k);
}

/// The first position whose key reaches `k` is pinned down by its
/// characteristic properties: everything before it misses, it hits or is the
/// end.
pub proof fn lemma_ge_idx_unique<V>(s: Seq<(u64, V)>, i: int, k: u64, p: int)
    requires
        0 <= i <= p <= s.len(),
        forall|j: int| i <= j < p ==> s[j].0 < k,
        p < s.len() ==> s[p].0 >= k,
    ensures
        ge_idx_from(s, i, k) == p,
    decreases s.len() - i,
{
    if i < p {
        lemma_ge_idx_unique(s, i + 1, k, p);
    }
}

/// On a sorted sequence, key `k` occurs at position `ge_idx(s, k)` or not at
/// all, and every position from there on has a key at least `k`.
pub proof fn lemma_ge_idx_sorted<V>(s: Seq<(u64, V)>, k: u64)
    requires
        sorted_keys(s),
    ensures
        0 <= ge_idx(s, k) <= s.len(),
        forall|j: int| 0 <= j < ge_idx(s, k) ==> s[j].0 < k,
        forall|j: int| ge_idx(s, k) <= j < s.len() ==> s[j].0 >= k,
        forall|j: int| 0 <= j < s.len() && s[j].0 == k ==> j == ge_idx(s, k),
{
    lemma_ge_idx(s, k);
    let g = ge_idx(s, k);
    assert forall|j: int| g <= j < s.len() implies s[j].0 >= k by {
        if j > g {
            assert(s[g].0 < s[j].0);
        }
    }
}

/// Binding a key then reading it back yields the bound value.
pub proof fn lemma_insert_get<V>(s: Seq<(u64, V)>, k: u64, v: V)
    requires
        sorted_keys(s),
    ensures
        seq_get(seq_insert(s, k, v), k) == Some(v),
{
    lemma_ge_idx_sorted(s, k);
    let g = ge_idx(s, k);
    let t = seq_insert(s, k, v);
    if g < s.len() && s[g].0 == k {
        assert forall|j: int| 0 <= j < g implies t[j].0 < k by {
            assert(t[j] == s[j]);
        }
        lemma_ge_idx_unique(t, 0, k, g);
    } else {
        s.insert_ensures(g, (k, v));
        assert forall|j: int| 0 <= j < g implies t[j].0 < k by {
            assert(t[j] == s[j]);
        }
        lemma_ge_idx_unique(t, 0, k, g);
    }
}

/// Binding a key keeps the keys sorted, so the result is again a valid map
/// sequence.
pub proof fn lemma_insert_sorted<V>(s: Seq<(u64, V)>, k: u64, v: V)
    requires
        sorted_keys(s),
    ensures
        sorted_keys(seq_insert(s, k, v)),
{
    lemma_ge_idx_sorted(s, k);
    let g = ge_idx(s, k);
    let t = seq_insert(s, k, v);
    if g < s.len() && s[g].0 == k {
        assert forall|i: int, j: int| 0 <= i < j < t.len() implies t[i].0 < t[j].0 by {
            assert(i != g ==> t[i] == s[i]);
            assert(j != g ==> t[j] == s[j]);
        }
    } else {
        s.insert_ensures(g, (k, v));
        assert(g < s.len() ==> s[g].0 > k);
        assert forall|i: int, j: int| 0 <= i < j < t.len() implies t[i].0 < t[j].0 by {
            if i < g {
                assert(t[i] == s[i]);
            }
            if j < g {
                assert(t[j] == s[j]);
            }
            if i > g {
                assert(t[i] == s[i - 1]);
            }
            if j > g {
                assert(t[j] == s[j - 1]);
            }
        }
    }
}

/// Unbinding a key then reading it yields nothing; unbinding an absent key
/// changes nothing at all.
pub proof fn lemma_remove_get<V>(s: Seq<(u64, V)>, k: u64)
    requires
        sorted_keys(s),
    ensures
        seq_get(seq_remove(s, k), k) == None::<V>,
        seq_get(s, k) == None::<V> ==> seq_remove(s, k) == s,
        sorted_keys(seq_remove(s, k)),
{
    lemma_ge_idx_sorted(s, k);
    let g = ge_idx(s, k);
    if g < s.len() && s[g].0 == k {
        let t = s.remove(g);
        s.remove_ensures(g);
        assert forall|i: int, j: int| 0 <= i < j < t.len() implies t[i].0 < t[j].0 by {
            assert(i < g ==> t[i] == s[i]);
            assert(i >= g ==> t[i] == s[i + 1]);
            assert(j < g ==> t[j] == s[j]);
            assert(j >= g ==> t[j] == s[j + 1]);
        }
        assert forall|j: int| 0 <= j < g implies t[j].0 < k by {
            assert(t[j] == s[j]);
        }
        if g < t.len() {
            assert(t[g] == s[g + 1]);
            assert(s[g].0 < s[g + 1].0);
        }
        lemma_ge_idx_unique(t, 0, k, g);
    }
}

} // verus!
