//! The range finder: given distinct byte keys, the smallest byte-offset range
//! that starts right after their common prefix and still distinguishes all of
//! them once every key is sliced to it.

use vstd::prelude::*;
use crate::bytes::key_views;

verus! {

/// Every key is longer than `p` and all keys hold the same byte at offset `p`.
pub open spec fn agree_at(ks: Seq<Seq<u8>>, p: int) -> bool {
    &&& forall|i: int| 0 <= i < ks.len() ==> p < (#[trigger] ks[i]).len()
    &&& forall|i: int, j: int|
        0 <= i < ks.len() && 0 <= j < ks.len() ==> #[trigger] ks[i][p] == #[trigger] ks[j][p]
}

/// Every key is longer than `p` and two keys differ at offset `p`.
pub open spec fn differ_at(ks: Seq<Seq<u8>>, p: int) -> bool {
    &&& forall|i: int| 0 <= i < ks.len() ==> p < (#[trigger] ks[i]).len()
    &&& exists|i: int, j: int|
        0 <= i < ks.len() && 0 <= j < ks.len() && #[trigger] ks[i][p] != #[trigger] ks[j][p]
}

/// Offset `e` is within every key, so slicing each key to `[_, e)` is defined.
pub open spec fn cut_fits(ks: Seq<Seq<u8>>, e: int) -> bool {
    forall|i: int| 0 <= i < ks.len() ==> e <= (#[trigger] ks[i]).len()
}

/// Slicing every key to `[s, e)` yields pairwise distinct sequences.
pub open spec fn slices_distinct(ks: Seq<Seq<u8>>, s: int, e: int) -> bool {
    forall|i: int, j: int|
        0 <= i < j < ks.len() ==> (#[trigger] ks[i].subrange(s, e)) != (#[trigger] ks[j].subrange(
            s,
            e,
        ))
}

/// `[s, e)` is a valid distinguishing range: it starts at the first offset
/// where the keys disagree (the end of the common prefix), fits within every
/// key, and slicing to it keeps all keys distinct.
pub open spec fn good_range(ks: Seq<Seq<u8>>, s: int, e: int) -> bool {
    &&& 0 <= s < e
    &&& forall|p: int| 0 <= p < s ==> #[trigger] agree_at(ks, p)
    &&& differ_at(ks, s)
    &&& cut_fits(ks, e)
    &&& slices_distinct(ks, s, e)
}

enum ColumnKind {
    Short,
    Agree,
    Differ,
}

/// Classifies byte offset `p` over all keys: some key too short to have it,
/// all keys agreeing on it, or two keys differing at it.
fn column_kind(keys: &Vec<Vec<u8>>, p: usize) -> (r: ColumnKind)
    requires
        keys@.len() >= 1,
    ensures
        r is Short <==> !(forall|i: int|
            0 <= i < key_views(keys@).len() ==> p < (#[trigger] key_views(keys@)[i]).len()),
        r is Agree <==> agree_at(key_views(keys@), p as int),
        r is Differ <==> differ_at(key_views(keys@), p as int),
{
    let ghost kv = key_views(keys@);
    let n = keys.len();
    let mut i: usize = 0;
    while i < n
        invariant
            n == keys@.len(),
            kv == key_views(keys@),
            i <= n,
            forall|k: int| 0 <= k < i ==> p < (#[trigger] kv[k]).len(),
        decreases n - i,
    {
        proof {
            assert(kv[i as int] == keys@[i as int]@);
        }
        if keys[i].len() <= p {
            proof {
                assert(kv[i as int].len() <= p);
            }
            return ColumnKind::Short;
        }
        i = i + 1;
    }
    proof {
        assert(kv[0] == keys@[0]@);
    }
    let first: u8 = keys[0][p];
    let mut j: usize = 1;
    while j < n
        invariant
            n == keys@.len(),
            kv == key_views(keys@),
            1 <= j <= n,
            forall|k: int| 0 <= k < kv.len() ==> (p as int) < (#[trigger] kv[k]).len(),
            first == kv[0][p as int],
            forall|k: int| 0 <= k < j ==> #[trigger] kv[k][p as int] == first,
        decreases n - j,
    {
        proof {
            assert(kv[j as int] == keys@[j as int]@);
        }
        if keys[j][p] != first {
            proof {
                assert(kv[j as int][p as int] != kv[0][p as int]);
            }
            return ColumnKind::Differ;
        }
        j = j + 1;
    }
    proof {
        assert forall|a: int, b: int|
            0 <= a < kv.len() && 0 <= b < kv.len() implies #[trigger] kv[a][p as int]
            == #[trigger] kv[b][p as int] by {
            assert(kv[a][p as int] == first);
            assert(kv[b][p as int] == first);
        }
    }
    ColumnKind::Agree
}

/// The bytes of `a` and `b` in `[s, e)` are equal.
fn range_eq(a: &Vec<u8>, b: &Vec<u8>, s: usize, e: usize) -> (r: bool)
    requires
        s <= e,
        e <= a@.len(),
        e <= b@.len(),
    ensures
        r == (a@.subrange(s as int, e as int) == b@.subrange(s as int, e as int)),
{
    let mut p: usize = s;
    while p < e
        invariant
            s <= p <= e,
            e <= a@.len(),
            e <= b@.len(),
            forall|k: int| s <= k < p ==> a@[k] == b@[k],
        decreases e - p,
    {
        if a[p] != b[p] {
            proof {
                assert(a@.subrange(s as int, e as int)[p - s] != b@.subrange(s as int, e as int)[p
                    - s]);
            }
            return false;
        }
        p = p + 1;
    }
    proof {
        assert(a@.subrange(s as int, e as int) =~= b@.subrange(s as int, e as int));
    }
    true
}

/// Slicing every key to `[s, e)` yields pairwise distinct sequences, decided
/// by comparing all pairs.
fn all_slices_distinct(keys: &Vec<Vec<u8>>, s: usize, e: usize) -> (r: bool)
    requires
        s <= e,
        cut_fits(key_views(keys@), e as int),
    ensures
        r == slices_distinct(key_views(keys@), s as int, e as int),
{
    let ghost kv = key_views(keys@);
    let n = keys.len();
    let mut i: usize = 0;
    while i < n
        invariant
            n == keys@.len(),
            kv == key_views(keys@),
            s <= e,
            cut_fits(kv, e as int),
            i <= n,
            forall|a: int, b: int|
                0 <= a < b < n && a < i ==> (#[trigger] kv[a].subrange(s as int, e as int))
                    != (#[trigger] kv[b].subrange(s as int, e as int)),
        decreases n - i,
    {
        let mut j: usize = i + 1;
        while j < n
            invariant
                n == keys@.len(),
                kv == key_views(keys@),
                s <= e,
                cut_fits(kv, e as int),
                i < j <= n,
                i < n,
                forall|a: int, b: int|
                    0 <= a < b < n && a < i ==> (#[trigger] kv[a].subrange(s as int, e as int))
                        != (#[trigger] kv[b].subrange(s as int, e as int)),
                forall|b: int| i < b < j ==> (#[trigger] kv[b].subrange(s as int, e as int))
                    != kv[i as int].subrange(s as int, e as int),
            decreases n - j,
        {
            proof {
                assert(kv[i as int] == keys@[i as int]@);
                assert(kv[j as int] == keys@[j as int]@);
            }
            if range_eq(&keys[i], &keys[j], s, e) {
                proof {
                    assert(kv[i as int].subrange(s as int, e as int) == kv[j as int].subrange(
                        s as int,
                        e as int,
                    ));
                }
                return false;
            }
            j = j + 1;
        }
        i = i + 1;
    }
    true
}

/// Finds the smallest distinguishing byte range of the given keys.
///
/// The range starts at the first offset where the keys disagree, skipping
/// their common prefix, and its end grows one byte at a time until slicing
/// every key to the range keeps all keys pairwise distinct. Returns `None`
/// exactly when no such range exists within the keys' lengths: with fewer
/// than two keys, with duplicate keys, or when a key is exhausted before the
/// keys can be told apart.
pub fn smallest_uncommon_range(keys: &Vec<Vec<u8>>) -> (r: Option<(usize, usize)>)
    ensures
        r matches Some(se) ==> good_range(key_views(keys@), se.0 as int, se.1 as int),
        r matches Some(se) ==> forall|e2: int|
            se.0 < e2 < se.1 ==> !slices_distinct(key_views(keys@), se.0 as int, e2),
        r is None <==> !(exists|s: int, e: int| good_range(key_views(keys@), s, e)),
{
    let ghost kv = key_views(keys@);
    let n = keys.len();
    if n == 0 {
        proof {
            assert forall|s: int, e: int| !good_range(kv, s, e) by {
                if good_range(kv, s, e) {
                    assert(differ_at(kv, s));
                    let (i, j) = choose|i: int, j: int|
                        0 <= i < kv.len() && 0 <= j < kv.len() && kv[i][s] != kv[j][s];
                    assert(false);
                }
            }
        }
        return None;
    }
    // The minimum key length bounds both scans.
    proof {
        assert(kv[0] == keys@[0]@);
    }
    let mut m: usize = keys[0].len();
    let ghost mut wit: int = 0;
    let mut c: usize = 1;
    while c < n
        invariant
            n == keys@.len(),
            kv == key_views(keys@),
            1 <= c <= n,
            forall|i: int| 0 <= i < c ==> m <= (#[trigger] kv[i]).len(),
            0 <= wit < c,
            m == kv[wit].len(),
        decreases n - c,
    {
        proof {
            assert(kv[c as int] == keys@[c as int]@);
        }
        if keys[c].len() < m {
            m = keys[c].len();
            proof {
                wit = c as int;
            }
        }
        c = c + 1;
    }
    let mut s: usize = 0;
    loop
        invariant
            n == keys@.len(),
            n >= 1,
            kv == key_views(keys@),
            forall|i: int| 0 <= i < n ==> m <= (#[trigger] kv[i]).len(),
            0 <= wit < n,
            m == kv[wit].len(),
            s <= m,
            forall|p: int| 0 <= p < s ==> #[trigger] agree_at(kv, p),
        ensures
            s <= m,
            forall|p: int| 0 <= p < s ==> #[trigger] agree_at(kv, p),
            differ_at(kv, s as int),
        decreases m - s,
    {
        match column_kind(keys, s) {
            ColumnKind::Short => {
                proof {
                    lemma_no_good_range_when_short(kv, s as int);
                }
                return None;
            },
            ColumnKind::Differ => {
                break ;
            },
            ColumnKind::Agree => {
                proof {
                    assert((s as int) < kv[wit].len());
                }
                s = s + 1;
            },
        }
    }
    proof {
        // The keys disagree at `s`, so every key, the shortest included, is
        // longer than `s`.
        assert((s as int) < kv[wit].len());
    }
    let mut e: usize = s + 1;
    loop
        invariant
            n == keys@.len(),
            n >= 1,
            kv == key_views(keys@),
            forall|i: int| 0 <= i < n ==> m <= (#[trigger] kv[i]).len(),
            0 <= wit < n,
            m == kv[wit].len(),
            s < e,
            e <= m,
            forall|p: int| 0 <= p < s ==> #[trigger] agree_at(kv, p),
            differ_at(kv, s as int),
            forall|e2: int| s < e2 < e ==> !slices_distinct(kv, s as int, e2),
        decreases m - e,
    {
        if all_slices_distinct(keys, s, e) {
            proof {
                assert(good_range(kv, s as int, e as int));
            }
            return Some((s, e));
        }
        if e >= m {
            proof {
                lemma_no_good_range_when_exhausted(kv, s as int, (m + 1) as int, m as int);
            }
            return None;
        }
        e = e + 1;
    }
}

/// If at offset `s` some key is too short, while all keys agree on every
/// earlier offset, then no distinguishing range exists at all.
proof fn lemma_no_good_range_when_short(kv: Seq<Seq<u8>>, s: int)
    requires
        0 <= s,
        forall|p: int| 0 <= p < s ==> #[trigger] agree_at(kv, p),
        !(forall|i: int| 0 <= i < kv.len() ==> s < (#[trigger] kv[i]).len()),
    ensures
        !(exists|s2: int, e2: int| good_range(kv, s2, e2)),
{
    assert forall|s2: int, e2: int| !good_range(kv, s2, e2) by {
        if good_range(kv, s2, e2) {
            if s2 < s {
                assert(agree_at(kv, s2));
                assert(differ_at(kv, s2));
                let (i, j) = choose|i: int, j: int|
                    0 <= i < kv.len() && 0 <= j < kv.len() && #[trigger] kv[i][s2]
                        != #[trigger] kv[j][s2];
                assert(kv[i][s2] == kv[j][s2]);
                assert(false);
            } else {
                // `s2 >= s`: at or before `s2` the keys still have a byte at
                // offset `s`, contradicting the short key at `s`.
                let i = choose|i: int| 0 <= i < kv.len() && !(s < (#[trigger] kv[i]).len());
                if s2 == s {
                    assert(differ_at(kv, s));
                    assert(s < kv[i].len());
                } else {
                    assert(agree_at(kv, s));
                    assert(s < kv[i].len());
                }
                assert(false);
            }
        }
    }
}

/// If the keys first disagree at `s` but every end offset up to the shortest
/// key's length fails to distinguish them, no distinguishing range exists.
proof fn lemma_no_good_range_when_exhausted(kv: Seq<Seq<u8>>, s: int, e: int, m: int)
    requires
        0 <= s < e,
        m < e,
        forall|i: int| 0 <= i < kv.len() ==> m <= (#[trigger] kv[i]).len(),
        exists|i: int| 0 <= i < kv.len() && m == (#[trigger] kv[i]).len(),
        forall|p: int| 0 <= p < s ==> #[trigger] agree_at(kv, p),
        differ_at(kv, s),
        forall|e2: int| s < e2 < e ==> !slices_distinct(kv, s, e2),
    ensures
        !(exists|s2: int, e2: int| good_range(kv, s2, e2)),
{
    assert forall|s2: int, e2: int| !good_range(kv, s2, e2) by {
        if good_range(kv, s2, e2) {
            lemma_split_point_unique(kv, s, s2);
            // The good range's end fits every key, so it is at most `m`,
            // hence below `e`, contradicting the scanned failures.
            let i = choose|i: int| 0 <= i < kv.len() && m == (#[trigger] kv[i]).len();
            assert(e2 <= kv[i].len());
            assert(!slices_distinct(kv, s, e2));
            assert(false);
        }
    }
}

/// The split point (first offset where keys disagree, all earlier offsets
/// agreeing) is unique.
pub(crate) proof fn lemma_split_point_unique(kv: Seq<Seq<u8>>, s: int, s2: int)
    requires
        0 <= s,
        0 <= s2,
        forall|p: int| 0 <= p < s ==> #[trigger] agree_at(kv, p),
        differ_at(kv, s),
        forall|p: int| 0 <= p < s2 ==> #[trigger] agree_at(kv, p),
        differ_at(kv, s2),
    ensures
        s == s2,
{
    if s < s2 {
        assert(agree_at(kv, s));
        let (i, j) = choose|i: int, j: int|
            0 <= i < kv.len() && 0 <= j < kv.len() && #[trigger] kv[i][s] != #[trigger] kv[j][s];
        assert(kv[i][s] == kv[j][s]);
        assert(false);
    }
    if s2 < s {
        assert(agree_at(kv, s2));
        let (i, j) = choose|i: int, j: int|
            0 <= i < kv.len() && 0 <= j < kv.len() && #[trigger] kv[i][s2] != #[trigger] kv[j][s2];
        assert(kv[i][s2] == kv[j][s2]);
        assert(false);
    }
}

} // verus!
