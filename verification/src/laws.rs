//! Laws relating the map's operations, stated over the views that the
//! operations' contracts use and proved once and for all.

use vstd::prelude::*;
use crate::map::{batch_keys, batch_map, extend_ok};
use crate::bytes::seqs_distinct;

verus! {

/// Round trip: after a clean extension (`extend_ok` held and `extend`
/// returned `Ok`, so the view became `m.union_prefer_right(batch_map(kvs))`),
/// every batch key is present and maps to its batch value. Together with
/// `get`'s contract, a lookup of any batch key returns that value.
pub proof fn lemma_round_trip<V>(m: Map<Seq<u8>, V>, kvs: Seq<(Vec<u8>, V)>, i: int)
    requires
        extend_ok(m, kvs),
        0 <= i < kvs.len(),
    ensures
        m.union_prefer_right(batch_map(kvs)).contains_key((kvs[i].0)@),
        m.union_prefer_right(batch_map(kvs))[(kvs[i].0)@] == kvs[i].1,
{
    crate::map::lemma_batch_map_at(kvs, i);
    assert(batch_keys(kvs)[i] == (kvs[i].0)@);
    assert(batch_keys(kvs).contains((kvs[i].0)@));
}

/// Rebuild idempotence: the empty batch always extends cleanly, and the
/// rebuilt view equals the old one, so every lookup answers as before.
pub proof fn lemma_rebuild_idempotent<V>(m: Map<Seq<u8>, V>)
    ensures
        extend_ok(m, Seq::<(Vec<u8>, V)>::empty()),
        m.union_prefer_right(batch_map(Seq::<(Vec<u8>, V)>::empty())) == m,
{
    let b = Seq::<(Vec<u8>, V)>::empty();
    assert(batch_keys(b).len() == 0);
    assert forall|k: Seq<u8>| !(#[trigger] batch_map(b).contains_key(k)) by {
        if batch_keys(b).contains(k) {
            let j = choose|j: int| 0 <= j < batch_keys(b).len() && batch_keys(b)[j] == k;
            assert(false);
        }
    }
    assert(m.union_prefer_right(batch_map(b)) =~= m);
}

/// Incremental merge: if the concatenated batch `a + b` extends a map
/// cleanly, then so does `a`, then `b` on the result, and the two-step view
/// equals the one-step view — extending with a disjoint set `B` yields the
/// same map as building from the union in one go.
pub proof fn lemma_incremental_merge<V>(
    m: Map<Seq<u8>, V>,
    a: Seq<(Vec<u8>, V)>,
    b: Seq<(Vec<u8>, V)>,
)
    requires
        extend_ok(m, a + b),
    ensures
        extend_ok(m, a),
        extend_ok(m.union_prefer_right(batch_map(a)), b),
        m.union_prefer_right(batch_map(a)).union_prefer_right(batch_map(b))
            == m.union_prefer_right(batch_map(a + b)),
{
    let ab = a + b;
    let na = a.len() as int;
    assert forall|i: int| 0 <= i < ab.len() implies #[trigger] batch_keys(ab)[i] == (ab[i].0)@ by {
    }
    assert forall|i: int| 0 <= i < a.len() implies #[trigger] batch_keys(a)[i] == batch_keys(ab)[i] by {
        assert(ab[i] == a[i]);
    }
    assert forall|i: int|
        0 <= i < b.len() implies #[trigger] batch_keys(b)[i] == batch_keys(ab)[na + i] by {
        assert(ab[na + i] == b[i]);
    }
    // `a` extends `m` cleanly.
    assert(seqs_distinct(batch_keys(a)));
    assert forall|i: int| 0 <= i < a.len() implies !m.contains_key(#[trigger] batch_keys(a)[i]) by {
        assert(batch_keys(ab)[i] == batch_keys(a)[i]);
    }
    // `b` extends the result cleanly: distinct among itself, absent from
    // `m`, and absent from `a`'s keys by the distinctness of `a + b`.
    assert forall|i: int, j: int|
        0 <= i < j < b.len() implies (#[trigger] batch_keys(b)[i]) != (#[trigger] batch_keys(
        b,
    )[j]) by {
        assert(batch_keys(ab)[na + i] != batch_keys(ab)[na + j]);
    }
    assert forall|i: int|
        0 <= i < b.len() implies !m.union_prefer_right(batch_map(a)).contains_key(
        #[trigger] batch_keys(b)[i],
    ) by {
        assert(!m.contains_key(batch_keys(ab)[na + i]));
        if batch_map(a).contains_key(batch_keys(b)[i]) {
            assert(batch_keys(a).contains(batch_keys(b)[i]));
            let j = choose|j: int|
                0 <= j < batch_keys(a).len() && batch_keys(a)[j] == batch_keys(b)[i];
            assert(batch_keys(ab)[j] == batch_keys(ab)[na + i]);
            assert(false);
        }
    }
    // The two views agree key by key.
    let lhs = m.union_prefer_right(batch_map(a)).union_prefer_right(batch_map(b));
    let rhs = m.union_prefer_right(batch_map(ab));
    assert forall|k: Seq<u8>|
        batch_map(ab).contains_key(k) <==> (batch_map(a).contains_key(k) || batch_map(
            b,
        ).contains_key(k)) by {
        if batch_keys(ab).contains(k) {
            let i = choose|i: int| 0 <= i < batch_keys(ab).len() && batch_keys(ab)[i] == k;
            if i < na {
                assert(batch_keys(a)[i] == k);
                assert(batch_keys(a).contains(k));
            } else {
                assert(batch_keys(b)[i - na] == k);
                assert(batch_keys(b).contains(k));
            }
        }
        if batch_keys(a).contains(k) {
            let i = choose|i: int| 0 <= i < batch_keys(a).len() && batch_keys(a)[i] == k;
            assert(batch_keys(ab)[i] == k);
            assert(batch_keys(ab).contains(k));
        }
        if batch_keys(b).contains(k) {
            let i = choose|i: int| 0 <= i < batch_keys(b).len() && batch_keys(b)[i] == k;
            assert(batch_keys(ab)[na + i] == k);
            assert(batch_keys(ab).contains(k));
        }
    }
    assert forall|k: Seq<u8>| #[trigger] batch_map(ab).contains_key(k) implies batch_map(ab)[k]
        == (if batch_map(b).contains_key(k) {
        batch_map(b)[k]
    } else {
        batch_map(a)[k]
    }) by {
        assert(batch_keys(ab).contains(k));
        let i = choose|i: int| 0 <= i < batch_keys(ab).len() && batch_keys(ab)[i] == k;
        assert((ab[i].0)@ == k);
        crate::map::lemma_batch_map_at(ab, i);
        assert(batch_map(ab)[k] == ab[i].1);
        if i < na {
            assert(batch_keys(a)[i] == k);
            assert(batch_keys(a).contains(k));
            if batch_map(b).contains_key(k) {
                let j = choose|j: int|
                    0 <= j < batch_keys(b).len() && batch_keys(b)[j] == k;
                assert(batch_keys(ab)[i] == batch_keys(ab)[na + j]);
                assert(false);
            }
            assert(ab[i] == a[i]);
            crate::map::lemma_batch_map_at(a, i);
        } else {
            assert(batch_keys(b)[i - na] == k);
            assert(batch_keys(b).contains(k));
            assert(ab[i] == b[i - na]);
            crate::map::lemma_batch_map_at(b, i - na);
        }
    }
    assert(lhs =~= rhs);
}

} // verus!
