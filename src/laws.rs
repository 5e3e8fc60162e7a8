//! Properties that hold across sequences of cache operations.
use crate::cache::{get_step, is_mru_value, pop_mru_step, promoted, put_recency, LruCache};
use std::hash::Hash;
use vstd::prelude::*;

verus! {

/// The recency order left by putting each key of `ks` in turn, with no
/// other operation in between, into a cache of capacity `cap` whose
/// recency order was `rec`.
pub open spec fn puts_recency<K>(rec: Seq<K>, ks: Seq<K>, cap: nat) -> Seq<K>
    decreases ks.len(),
{
    if ks.len() == 0 {
        rec
    } else {
        put_recency(puts_recency(rec, ks.drop_last(), cap), ks.last(), cap)
    }
}

/// The smaller of two naturals.
pub open spec fn min_nat(a: nat, b: nat) -> nat {
    if a <= b {
        a
    } else {
        b
    }
}

/// Putting distinct keys one after another into an empty cache of capacity
/// `cap` retains exactly the `cap` most recently put keys (all of them while
/// there are fewer), the newest first.
pub proof fn lemma_puts_keep_newest<K>(ks: Seq<K>, cap: nat)
    requires
        cap > 0,
        ks.no_duplicates(),
    ensures
        puts_recency(Seq::<K>::empty(), ks, cap).len() == min_nat(cap, ks.len()),
        forall|j: int|
            0 <= j < min_nat(cap, ks.len()) ==> #[trigger] puts_recency(Seq::<K>::empty(), ks, cap)[j]
                == ks[ks.len() - 1 - j],
        puts_recency(Seq::<K>::empty(), ks, cap).to_set() == ks.subrange(
            ks.len() - min_nat(cap, ks.len()),
            ks.len() as int,
        ).to_set(),
    decreases ks.len(),
{
    let r = puts_recency(Seq::<K>::empty(), ks, cap);
    let n = ks.len();
    let m = min_nat(cap, n);
    if n > 0 {
        let prev = ks.drop_last();
        assert(prev.no_duplicates()) by {
            assert forall|a: int, b: int| 0 <= a < prev.len() && 0 <= b < prev.len() && a != b implies prev[a]
                != prev[b] by {
                assert(prev[a] == ks[a] && prev[b] == ks[b]);
            }
        }
        lemma_puts_keep_newest(prev, cap);
        let r0 = puts_recency(Seq::<K>::empty(), prev, cap);
        let m0 = min_nat(cap, prev.len());
        let k = ks.last();
        assert(!r0.contains(k)) by {
            if r0.contains(k) {
                let j = choose|j: int| 0 <= j < r0.len() && r0[j] == k;
                assert(r0[j] == ks[n - 2 - j]);
            }
        }
        assert(r == put_recency(r0, k, cap));
        assert forall|j: int| 0 <= j < m implies #[trigger] r[j] == ks[n - 1 - j] by {
            if j > 0 {
                assert(r[j] == r0[j - 1]);
                assert(r0[j - 1] == prev[prev.len() - 1 - (j - 1)]);
            }
        }
    }
    let sub = ks.subrange(n - m, n as int);
    assert forall|x: K| r.to_set().contains(x) <==> sub.to_set().contains(x) by {
        if r.to_set().contains(x) {
            let j = choose|j: int| 0 <= j < r.len() && r[j] == x;
            assert(sub[m - 1 - j] == x);
        }
        if sub.to_set().contains(x) {
            let j = choose|j: int| 0 <= j < sub.len() && sub[j] == x;
            assert(r[m - 1 - j] == ks[n - m + j]);
        }
    }
    assert(r.to_set() =~= sub.to_set());
}

/// A `get` that finds `k` makes it the most recently used key: a `pop_mru`
/// right after it yields the value stored under `k`, and so does a
/// `get_mru` (up to cloning), while the cache keeps the same keys.
pub proof fn lemma_get_makes_mru<K: Clone + Eq + Hash, V: Clone>(
    c0: LruCache<K, V>,
    c1: LruCache<K, V>,
    c2: LruCache<K, V>,
    k: K,
    got: Option<V>,
    popped: Option<V>,
    peeked: Option<V>,
)
    requires
        c0.wf(),
        c0.store().contains_key(k),
        get_step(c0, c1, k, got),
        pop_mru_step(c1, c2, popped),
        is_mru_value(c1, peeked),
    ensures
        c1.recency()[0] == k,
        c1.recency().to_set() == c0.recency().to_set(),
        popped == Some(c0.store()[k]),
        peeked matches Some(v) && cloned(c0.store()[k], v),
{
    c0.lemma_consistent();
    let r = c0.recency();
    let p = promoted(r, k);
    assert(r.to_set().contains(k));
    let i = r.index_of(k);
    assert(p.len() == r.len());
    assert(p[0] == k);
    assert forall|x: K| p.to_set().contains(x) <==> r.to_set().contains(x) by {
        if p.to_set().contains(x) {
            let j = choose|j: int| 0 <= j < p.len() && p[j] == x;
            if j > 0 {
                if j - 1 < i {
                    assert(r[j - 1] == x);
                } else {
                    assert(r[j] == x);
                }
            }
        }
        if r.to_set().contains(x) {
            let j = choose|j: int| 0 <= j < r.len() && r[j] == x;
            if j < i {
                assert(p[j + 1] == x);
            } else if j > i {
                assert(p[j] == x);
            } else {
                assert(p[0] == x);
            }
        }
    }
    assert(p.to_set() =~= r.to_set());
}

} // verus!
