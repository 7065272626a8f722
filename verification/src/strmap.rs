//! The string-key specialization: trims every key to the smallest
//! distinguishing byte range before handing it to the slot-addressed map,
//! so that only the bytes that tell the keys apart are stored and hashed.
//! The trim range is fixed by the first successful extension and asserted
//! unchanged on every later one.

use vstd::prelude::*;
use crate::map::{PhMap, ExtendError};
use crate::range::{smallest_uncommon_range, good_range, slices_distinct, differ_at};
use crate::bytes::key_views;
use crate::index::{hash_of, index_builds};

verus! {

/// Why a string-map extension was refused.
#[derive(Clone, Copy, Debug, PartialEq, Eq, Structural)]
pub enum StrExtendError {
    /// The batch has no distinguishing byte range (fewer than two keys, a
    /// repeated key, or a key exhausted before the keys can be told apart).
    RangeNotFound,
    /// The batch's distinguishing range differs from the range fixed by an
    /// earlier extension.
    RangeMismatch,
    /// A trimmed batch key collides with a held trimmed key.
    DuplicateKey,
    /// The index function could not be built over the combined key set.
    IndexBuildFailed,
}

/// A string-key map over the slot-addressed map: keys are stored and looked
/// up as the byte slice of the UTF-8 key restricted to the trim range.
pub struct PhStrMap<V> {
    start: usize,
    end: usize,
    inner: PhMap<V>,
}

/// The UTF-8 bytes of a string key.
pub open spec fn str_bytes(s: Seq<char>) -> Seq<u8> {
    vstd::utf8::encode_utf8(s)
}

/// The byte keys of a string batch.
pub open spec fn str_batch_keys<V>(kvs: Seq<(String, V)>) -> Seq<Seq<u8>> {
    Seq::new(kvs.len(), |i: int| str_bytes(kvs[i].0@))
}

/// The byte keys of a string batch, trimmed to `[s, e)`.
pub open spec fn trimmed_keys<V>(kvs: Seq<(String, V)>, s: int, e: int) -> Seq<Seq<u8>> {
    Seq::new(kvs.len(), |i: int| str_bytes(kvs[i].0@).subrange(s, e))
}

/// The string batch as a mathematical map from trimmed byte keys to values
/// (meaningful when the trimmed keys are distinct).
pub open spec fn trimmed_map<V>(kvs: Seq<(String, V)>, s: int, e: int) -> Map<Seq<u8>, V> {
    Map::new(
        |k: Seq<u8>| trimmed_keys(kvs, s, e).contains(k),
        |k: Seq<u8>|
            kvs[choose|i: int|
                0 <= i < kvs.len() && str_bytes(kvs[i].0@).subrange(s, e) == k].1,
    )
}

/// The range the range finder selects for these keys: the unique valid
/// distinguishing range with the smallest end.
pub open spec fn is_chosen_range(ks: Seq<Seq<u8>>, s: int, e: int) -> bool {
    &&& good_range(ks, s, e)
    &&& forall|e2: int| s < e2 < e ==> !slices_distinct(ks, s, e2)
}

/// At most one range is chosen: its start is the unique first disagreement
/// offset and its end the least distinguishing end.
pub proof fn lemma_chosen_range_unique(ks: Seq<Seq<u8>>, s1: int, e1: int, s2: int, e2: int)
    requires
        is_chosen_range(ks, s1, e1),
        is_chosen_range(ks, s2, e2),
    ensures
        s1 == s2,
        e1 == e2,
{
    crate::range::lemma_split_point_unique(ks, s1, s2);
    if e1 < e2 {
        assert(slices_distinct(ks, s1, e1));
        assert(!slices_distinct(ks, s2, e1));
        assert(false);
    }
    if e2 < e1 {
        assert(slices_distinct(ks, s2, e2));
        assert(!slices_distinct(ks, s1, e2));
        assert(false);
    }
}

impl<V> PhStrMap<V> {
    /// First byte offset of the trim range.
    pub closed spec fn trim_start(self) -> int {
        self.start as int
    }

    /// One past the last byte offset of the trim range.
    pub closed spec fn trim_end(self) -> int {
        self.end as int
    }

    /// No extension has fixed a trim range yet.
    pub closed spec fn range_unset(self) -> bool {
        self.start == self.end
    }

    /// The trimmed byte keys held by the inner map, in insertion order.
    pub closed spec fn key_seq(self) -> Seq<Seq<u8>> {
        self.inner.kseq()
    }

    /// The held trimmed key a lookup of trimmed bytes `tk` lands on: `tk`
    /// itself when held, a hash-colliding held key when the index function
    /// routes `tk` to its slot, `None` otherwise — the inner map's rule.
    pub closed spec fn found_key(self, tk: Seq<u8>) -> Option<Seq<u8>> {
        self.inner.found_key(tk)
    }

    /// Well-formedness: the inner map's invariant, and an ordered range.
    pub closed spec fn wf(self) -> bool {
        &&& self.inner.wf()
        &&& self.start <= self.end
    }
}

impl<V> View for PhStrMap<V> {
    type V = Map<Seq<u8>, V>;

    /// The map from trimmed byte keys to values.
    closed spec fn view(&self) -> Map<Seq<u8>, V> {
        self.inner@
    }
}

impl<V> Default for PhStrMap<V> {
    /// The empty string map: empty trim range, empty inner map.
    fn default() -> (r: Self)
        ensures
            r.wf(),
            r@ == Map::<Seq<u8>, V>::empty(),
            r.range_unset(),
    {
        PhStrMap { start: 0, end: 0, inner: PhMap::default() }
    }
}

/// Copies the bytes of `a` in `[s, e)` into an owned vector.
fn copy_range(a: &[u8], s: usize, e: usize) -> (r: Vec<u8>)
    requires
        s <= e <= a@.len(),
    ensures
        r@ == a@.subrange(s as int, e as int),
{
    crate::bytes::to_byte_vec(vstd::slice::slice_subrange(a, s, e))
}

impl<V> PhStrMap<V> {
    /// Extends the map with a batch of string key-value pairs.
    ///
    /// The batch's own keys choose the distinguishing range: if none exists,
    /// `RangeNotFound`; if one exists but differs from the range fixed
    /// earlier, `RangeMismatch`; a trimmed key already held is
    /// `DuplicateKey`. Every error leaves the map untouched. Success is owed
    /// exactly when the chosen range is compatible, no trimmed key is held,
    /// and the index builds over the combined trimmed keys; then the trim
    /// range is the chosen one and every trimmed pair has been added.
    pub fn extend(&mut self, kvs: Vec<(String, V)>) -> (r: Result<(), StrExtendError>)
        requires
            old(self).wf(),
        ensures
            final(self).wf(),
            r is Err ==> *final(self) == *old(self),
            r == Err::<(), StrExtendError>(StrExtendError::RangeNotFound) <==> !(exists|s: int, e: int|
                good_range(str_batch_keys(kvs@), s, e)),
            r == Err::<(), StrExtendError>(StrExtendError::RangeMismatch) ==> exists|s: int, e: int|
                #[trigger] is_chosen_range(str_batch_keys(kvs@), s, e) && !(old(self).range_unset()
                    || (s == old(self).trim_start() && e == old(self).trim_end())),
            r == Err::<(), StrExtendError>(StrExtendError::DuplicateKey) ==> exists|s: int, e: int|
                #[trigger] is_chosen_range(str_batch_keys(kvs@), s, e) && exists|i: int|
                    0 <= i < kvs@.len() && old(self)@.contains_key(
                        #[trigger] trimmed_keys(kvs@, s, e)[i],
                    ),
            r == Err::<(), StrExtendError>(StrExtendError::IndexBuildFailed) ==> exists|s: int, e: int|
                #[trigger] is_chosen_range(str_batch_keys(kvs@), s, e) && !index_builds(
                    old(self).key_seq() + trimmed_keys(kvs@, s, e),
                ),
            r is Ok <==> exists|s: int, e: int|
                {
                    &&& #[trigger] is_chosen_range(str_batch_keys(kvs@), s, e)
                    &&& old(self).range_unset() || (s == old(self).trim_start() && e == old(
                        self,
                    ).trim_end())
                    &&& forall|i: int|
                        0 <= i < kvs@.len() ==> !old(self)@.contains_key(
                            #[trigger] trimmed_keys(kvs@, s, e)[i],
                        )
                    &&& index_builds(old(self).key_seq() + trimmed_keys(kvs@, s, e))
                },
            r is Ok ==> exists|s: int, e: int|
                {
                    &&& #[trigger] is_chosen_range(str_batch_keys(kvs@), s, e)
                    &&& old(self).range_unset() || (s == old(self).trim_start() && e == old(
                        self,
                    ).trim_end())
                    &&& final(self).trim_start() == s
                    &&& final(self).trim_end() == e
                    &&& forall|i: int|
                        0 <= i < kvs@.len() ==> !old(self)@.contains_key(
                            #[trigger] trimmed_keys(kvs@, s, e)[i],
                        )
                    &&& final(self)@ == old(self)@.union_prefer_right(trimmed_map(kvs@, s, e))
                },
    {
        let ghost pre = *self;
        let ghost kvb = kvs@;
        // The raw byte keys of the batch, used only to choose the range.
        let n = kvs.len();
        let mut key_bytes: Vec<Vec<u8>> = Vec::new();
        let mut i: usize = 0;
        while i < n
            invariant
                n == kvs@.len(),
                kvs@ == kvb,
                i <= n,
                key_bytes@.len() == i,
                forall|j: int| 0 <= j < i ==> (#[trigger] key_bytes@[j])@ == str_batch_keys(kvb)[j],
            decreases n - i,
        {
            proof {
                assert(str_batch_keys(kvb)[i as int] == str_bytes(kvs@[i as int].0@));
            }
            key_bytes.push(crate::bytes::to_byte_vec(kvs[i].0.as_str().as_bytes()));
            proof {
                assert(key_bytes@[i as int]@ == str_batch_keys(kvb)[i as int]);
            }
            i = i + 1;
        }
        proof {
            assert(key_views(key_bytes@) =~= str_batch_keys(kvb));
        }
        let (s, e) = match smallest_uncommon_range(&key_bytes) {
            Some(se) => se,
            None => {
                proof {
                    assert forall|s2: int, e2: int|
                        !is_chosen_range(str_batch_keys(kvb), s2, e2) by {
                        if is_chosen_range(str_batch_keys(kvb), s2, e2) {
                            assert(good_range(str_batch_keys(kvb), s2, e2));
                        }
                    }
                }
                return Err(StrExtendError::RangeNotFound);
            },
        };
        if !(self.start == self.end || (s == self.start && e == self.end)) {
            proof {
                assert(is_chosen_range(str_batch_keys(kvb), s as int, e as int));
                assert forall|s2: int, e2: int|
                    #[trigger] is_chosen_range(str_batch_keys(kvb), s2, e2) implies s2 == s as int
                    && e2 == e as int by {
                    lemma_chosen_range_unique(str_batch_keys(kvb), s2, e2, s as int, e as int);
                }
            }
            return Err(StrExtendError::RangeMismatch);
        }
        // Trim every key to the chosen range and hand the batch to the
        // slot-addressed map.
        let mut trimmed: Vec<(Vec<u8>, V)> = Vec::new();
        let mut kvs = kvs;
        while kvs.len() > 0
            invariant
                kvb.len() == n,
                trimmed@.len() + kvs@.len() == n,
                kvs@ == kvb.subrange(trimmed@.len() as int, n as int),
                good_range(str_batch_keys(kvb), s as int, e as int),
                forall|j: int|
                    0 <= j < trimmed@.len() ==> (#[trigger] trimmed@[j].0)@ == trimmed_keys(
                        kvb,
                        s as int,
                        e as int,
                    )[j] && trimmed@[j].1 == kvb[j].1,
            decreases kvs@.len(),
        {
            let ghost done = trimmed@.len() as int;
            let pair = kvs.remove(0);
            proof {
                assert(pair == kvb[done]);
                assert(str_batch_keys(kvb)[done] == str_bytes(kvb[done].0@));
                assert((e as int) <= str_batch_keys(kvb)[done].len());
                assert(kvs@ =~= kvb.subrange(done + 1, n as int));
            }
            let (k, v) = pair;
            let tk = copy_range(k.as_str().as_bytes(), s, e);
            proof {
                assert(tk@ == trimmed_keys(kvb, s as int, e as int)[done]);
            }
            trimmed.push((tk, v));
        }
        let ghost tkeys = trimmed_keys(kvb, s as int, e as int);
        proof {
            assert(crate::map::batch_keys(trimmed@) =~= tkeys);
            // The chosen range makes the trimmed keys pairwise distinct.
            assert forall|a: int, b: int|
                0 <= a < b < tkeys.len() implies (#[trigger] tkeys[a]) != (#[trigger] tkeys[b]) by {
                assert(slices_distinct(str_batch_keys(kvb), s as int, e as int));
                assert(str_batch_keys(kvb)[a].subrange(s as int, e as int) != str_batch_keys(
                    kvb,
                )[b].subrange(s as int, e as int));
            }
            assert(crate::bytes::seqs_distinct(crate::map::batch_keys(trimmed@)));
        }
        match self.inner.extend(trimmed) {
            Ok(()) => {
                self.start = s;
                self.end = e;
                proof {
                    let tm = trimmed_map(kvb, s as int, e as int);
                    let bm = crate::map::batch_map(trimmed@);
                    assert forall|k: Seq<u8>| #[trigger] bm.contains_key(k) implies bm[k]
                        == tm[k] by {
                        let i = choose|i: int|
                            0 <= i < trimmed@.len() && (trimmed@[i].0)@ == k;
                        let i2 = choose|i2: int|
                            0 <= i2 < kvb.len() && str_bytes(kvb[i2].0@).subrange(
                                s as int,
                                e as int,
                            ) == k;
                        assert(crate::map::batch_keys(trimmed@).contains(k));
                        let j = choose|j: int|
                            0 <= j < crate::map::batch_keys(trimmed@).len()
                                && crate::map::batch_keys(trimmed@)[j] == k;
                        assert((trimmed@[j].0)@ == k);
                        assert(tkeys[i] == k);
                        assert(tkeys[i2] == k);
                        if i != i2 {
                            assert(false);
                        }
                        assert(bm[k] == trimmed@[i].1);
                        assert(tm[k] == kvb[i2].1);
                    }
                    assert(tm =~= bm);
                    assert(is_chosen_range(str_batch_keys(kvb), s as int, e as int));
                    assert(pre.inner.kseq() + crate::map::batch_keys(trimmed@) == pre.key_seq()
                        + tkeys);
                    assert(index_builds(pre.key_seq() + tkeys));
                    assert forall|i: int|
                        0 <= i < kvb.len() implies !pre@.contains_key(#[trigger] tkeys[i]) by {
                        assert(crate::map::batch_keys(trimmed@)[i] == tkeys[i]);
                    }
                }
                Ok(())
            },
            Err(ExtendError::DuplicateKey) => {
                proof {
                    assert(is_chosen_range(str_batch_keys(kvb), s as int, e as int));
                    assert forall|s2: int, e2: int|
                        #[trigger] is_chosen_range(str_batch_keys(kvb), s2, e2) implies s2
                        == s as int && e2 == e as int by {
                        lemma_chosen_range_unique(str_batch_keys(kvb), s2, e2, s as int, e as int);
                    }
                    // The trimmed keys are distinct, so the duplicate is a
                    // collision with a held key.
                    let i = choose|i: int|
                        0 <= i < kvb.len() && pre@.contains_key(
                            #[trigger] crate::map::batch_keys(trimmed@)[i],
                        );
                    assert(pre@.contains_key(tkeys[i]));
                }
                Err(StrExtendError::DuplicateKey)
            },
            Err(ExtendError::IndexBuildFailed) => {
                proof {
                    assert(is_chosen_range(str_batch_keys(kvb), s as int, e as int));
                    assert forall|s2: int, e2: int|
                        #[trigger] is_chosen_range(str_batch_keys(kvb), s2, e2) implies s2
                        == s as int && e2 == e as int by {
                        lemma_chosen_range_unique(str_batch_keys(kvb), s2, e2, s as int, e as int);
                    }
                    assert(pre.inner.kseq() + crate::map::batch_keys(trimmed@) == pre.key_seq()
                        + tkeys);
                    assert(!index_builds(pre.key_seq() + tkeys));
                }
                Err(StrExtendError::IndexBuildFailed)
            },
        }
    }

    /// Inserts one key-value pair: shorthand for a one-element `extend`.
    ///
    /// A single key can never yield a distinguishing range (two keys are
    /// needed to disagree at some byte), so this always reports
    /// `RangeNotFound` and leaves the map untouched; it exists to mirror the
    /// slot-addressed map's insert-as-one-element-extend shorthand.
    pub fn insert(&mut self, key: String, value: V) -> (r: Result<(), StrExtendError>)
        requires
            old(self).wf(),
        ensures
            final(self).wf(),
            r == Err::<(), StrExtendError>(StrExtendError::RangeNotFound),
            *final(self) == *old(self),
    {
        let mut kvs: Vec<(String, V)> = Vec::new();
        kvs.push((key, value));
        let ghost kvb = kvs@;
        let r = self.extend(kvs);
        proof {
            assert forall|s: int, e: int| !good_range(str_batch_keys(kvb), s, e) by {
                if good_range(str_batch_keys(kvb), s, e) {
                    assert(differ_at(str_batch_keys(kvb), s));
                    let (i, j) = choose|i: int, j: int|
                        0 <= i < str_batch_keys(kvb).len() && 0 <= j < str_batch_keys(kvb).len()
                            && #[trigger] str_batch_keys(kvb)[i][s] != #[trigger] str_batch_keys(
                            kvb,
                        )[j][s];
                    assert(i == 0 && j == 0);
                    assert(false);
                }
            }
        }
        r
    }

    /// Point lookup: the key's bytes are trimmed to the stored range and the
    /// inner map is consulted, so only the trim-range bytes of a query ever
    /// influence the result, exactly by the inner map's hash-match rule. A
    /// key too short for the range was never inserted, so it answers `None`.
    pub fn get(&self, key: &str) -> (r: Option<&V>)
        requires
            self.wf(),
        ensures
            str_bytes(key@).len() < self.trim_end() ==> r is None,
            str_bytes(key@).len() >= self.trim_end() ==> {
                let tk = str_bytes(key@).subrange(self.trim_start(), self.trim_end());
                &&& (r is Some <==> self.found_key(tk) is Some)
                &&& r matches Some(v) ==> (self.found_key(tk) matches Some(k2)
                    && self@.contains_key(k2) && hash_of(k2) == hash_of(tk) && *v == self@[k2])
                &&& self@.contains_key(tk) ==> (r matches Some(v) && *v == self@[tk])
            },
    {
        let bytes = key.as_bytes();
        if bytes.len() < self.end {
            return None;
        }
        let sub = vstd::slice::slice_subrange(bytes, self.start, self.end);
        self.inner.get(sub)
    }

    /// Mutable point lookup with exactly `get`'s membership semantics:
    /// `Some` iff the trimmed query's probe hits, and then a reference to
    /// the found trimmed key's value; writing through it updates only that
    /// key's entry.
    pub fn get_mut(&mut self, key: &str) -> (r: Option<&mut V>)
        requires
            old(self).wf(),
        ensures
            final(self).wf(),
            final(self).trim_start() == old(self).trim_start(),
            final(self).trim_end() == old(self).trim_end(),
            r is None ==> *final(self) == *old(self),
            str_bytes(key@).len() < old(self).trim_end() ==> r is None,
            str_bytes(key@).len() >= old(self).trim_end() ==> {
                let tk = str_bytes(key@).subrange(old(self).trim_start(), old(self).trim_end());
                &&& (r is Some <==> old(self).found_key(tk) is Some)
                &&& r matches Some(v) ==> (old(self).found_key(tk) matches Some(k2)
                    && old(self)@.contains_key(k2) && hash_of(k2) == hash_of(tk)
                    && *v == old(self)@[k2] && final(self)@ == old(self)@.insert(k2, *final(v)))
                &&& old(self)@.contains_key(tk) ==> old(self).found_key(tk) == Some(tk)
            },
    {
        let bytes = key.as_bytes();
        if bytes.len() < self.end {
            return None;
        }
        let sub = vstd::slice::slice_subrange(bytes, self.start, self.end);
        self.inner.get_mut(sub)
    }

    /// Point lookup without the verification-hash check. The caller must
    /// guarantee that the trimmed key is held and that the key supports the
    /// stored range.
    pub fn get_unchecked(&self, key: &str) -> (r: &V)
        requires
            self.wf(),
            self.trim_end() <= str_bytes(key@).len(),
            self@.contains_key(str_bytes(key@).subrange(self.trim_start(), self.trim_end())),
        ensures
            *r == self@[str_bytes(key@).subrange(self.trim_start(), self.trim_end())],
    {
        let bytes = key.as_bytes();
        let sub = vstd::slice::slice_subrange(bytes, self.start, self.end);
        self.inner.get_unchecked(sub)
    }

    /// Mutable point lookup without the verification-hash check. The caller
    /// must guarantee that the trimmed key is held and that the key supports
    /// the stored range.
    pub fn get_unchecked_mut(&mut self, key: &str) -> (r: &mut V)
        requires
            old(self).wf(),
            old(self).trim_end() <= str_bytes(key@).len(),
            old(self)@.contains_key(
                str_bytes(key@).subrange(old(self).trim_start(), old(self).trim_end()),
            ),
        ensures
            final(self).wf(),
            final(self).trim_start() == old(self).trim_start(),
            final(self).trim_end() == old(self).trim_end(),
            *r == old(self)@[str_bytes(key@).subrange(old(self).trim_start(), old(self).trim_end())],
            final(self)@ == old(self)@.insert(
                str_bytes(key@).subrange(old(self).trim_start(), old(self).trim_end()),
                *final(r),
            ),
    {
        let bytes = key.as_bytes();
        let sub = vstd::slice::slice_subrange(bytes, self.start, self.end);
        self.inner.get_unchecked_mut(sub)
    }
}

} // verus!
