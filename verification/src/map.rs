//! The slot-addressed map: owns the key list, a parallel array of value
//! slots, a parallel array of verification hashes, and the current perfect
//! index function. Lookup goes key -> hash -> slot -> hash check -> value;
//! every mutation rebuilds the whole index over the union of old and new
//! keys.

use vstd::prelude::*;
use crate::bytes::{key_views, seqs_distinct, bytes_eq};
use crate::index::{IndexFn, slot_of, hash_of, hash_key, build_index, query_index, index_builds};

verus! {

/// Why an `extend` was refused.
#[derive(Clone, Copy, Debug, PartialEq, Eq, Structural)]
pub enum ExtendError {
    /// The combined key set (old keys and the new batch) holds a duplicate.
    DuplicateKey,
    /// The index function could not be built over the combined key set.
    IndexBuildFailed,
}

/// A static key-value map addressed through a perfect index function.
///
/// `keys` is the full owned key list, used for rebuilds, not for lookup.
/// `values` and `top_level_hashes` are parallel slot arrays indexed by the
/// output of `to_index`; a slot is vacant (`None`) exactly when no key maps
/// to it.
pub struct PhMap<V> {
    keys: Vec<Vec<u8>>,
    top_level_hashes: Vec<u64>,
    values: Vec<Option<V>>,
    to_index: IndexFn,
}

impl<V> PhMap<V> {
    /// The keys held by the map, as byte sequences, in insertion order.
    pub closed spec fn kseq(self) -> Seq<Seq<u8>> {
        key_views(self.keys@)
    }

    /// The slot the current index function assigns to the `i`-th key.
    pub closed spec fn slot_at(self, i: int) -> int {
        slot_of(self.to_index, self.kseq()[i]).unwrap() as int
    }

    /// The map's internal invariant: keys are distinct; every key has an
    /// in-range slot holding its value and its verification hash; distinct
    /// keys get distinct slots; and every occupied slot belongs to a key.
    pub closed spec fn wf(self) -> bool {
        &&& seqs_distinct(self.kseq())
        &&& self.values@.len() == self.top_level_hashes@.len()
        &&& forall|i: int|
            0 <= i < self.kseq().len() ==> {
                &&& (#[trigger] slot_of(self.to_index, self.kseq()[i])) is Some
                &&& self.slot_at(i) < self.values@.len()
                &&& self.values@[self.slot_at(i)] is Some
                &&& self.top_level_hashes@[self.slot_at(i)] == hash_of(self.kseq()[i])
            }
        &&& forall|i: int, j: int|
            0 <= i < j < self.kseq().len() ==> slot_of(self.to_index, self.kseq()[i]) != slot_of(
                self.to_index,
                self.kseq()[j],
            )
        &&& forall|t: int|
            0 <= t < self.values@.len() && (#[trigger] self.values@[t]) is Some ==> exists|i: int|
                0 <= i < self.kseq().len() && slot_of(self.to_index, self.kseq()[i]) == Some(
                    t as usize,
                )
    }

    /// The value stored for key `k` (meaningful when `k` is held).
    pub closed spec fn value_of(self, k: Seq<u8>) -> V {
        let i = choose|i: int| 0 <= i < self.kseq().len() && self.kseq()[i] == k;
        self.values@[self.slot_at(i)].unwrap()
    }

    /// Whether a lookup of `k` hits: the index function routes `k` to an
    /// in-range occupied slot whose stored verification hash equals `k`'s
    /// hash.
    pub closed spec fn probe_hits(self, k: Seq<u8>) -> bool {
        match slot_of(self.to_index, k) {
            Some(idx) => {
                &&& (idx as int) < self.values@.len()
                &&& (idx as int) < self.top_level_hashes@.len()
                &&& self.top_level_hashes@[idx as int] == hash_of(k)
                &&& self.values@[idx as int] is Some
            },
            None => false,
        }
    }

    /// The held key whose slot a lookup of `k` lands on, when the probe
    /// hits: a held `k` finds itself; an absent `k` finds the held key whose
    /// 64-bit hash collides with `k`'s and whose slot the index function
    /// routed `k` to. Membership is authenticated by hash equality alone,
    /// so a lookup returns exactly this key's value, and `None` otherwise.
    pub closed spec fn found_key(self, k: Seq<u8>) -> Option<Seq<u8>> {
        if self.probe_hits(k) {
            Some(
                self.kseq()[choose|i: int|
                    0 <= i < self.kseq().len() && slot_of(self.to_index, self.kseq()[i])
                        == slot_of(self.to_index, k)],
            )
        } else {
            None
        }
    }

    /// What `found_key` answers: a held key finds itself; any found key is
    /// held and its hash collides with the query's; an unfound key is
    /// absent.
    pub proof fn lemma_found_key(self, k: Seq<u8>)
        requires
            self.wf(),
        ensures
            self@.contains_key(k) ==> self.found_key(k) == Some(k),
            self.found_key(k) matches Some(k2) ==> self@.contains_key(k2) && hash_of(k2)
                == hash_of(k),
            self.found_key(k) is None ==> !self@.contains_key(k),
    {
        self.lemma_view_dom(k);
        if self@.contains_key(k) {
            let im = choose|i: int| 0 <= i < self.kseq().len() && self.kseq()[i] == k;
            assert(slot_of(self.to_index, self.kseq()[im]) is Some);
            assert(self.probe_hits(k));
        }
        if self.probe_hits(k) {
            let idx = slot_of(self.to_index, k).unwrap();
            assert(self.values@[idx as int] is Some);
            assert(exists|i: int|
                0 <= i < self.kseq().len() && slot_of(self.to_index, self.kseq()[i]) == Some(
                    idx,
                ));
            let i = choose|i: int|
                0 <= i < self.kseq().len() && slot_of(self.to_index, self.kseq()[i]) == slot_of(
                    self.to_index,
                    k,
                );
            assert(0 <= i < self.kseq().len());
            self.lemma_view_at(i);
            assert(self.slot_at(i) == idx as int);
            assert(hash_of(self.kseq()[i]) == self.top_level_hashes@[idx as int]);
            assert(self.found_key(k) == Some(self.kseq()[i]));
            if self@.contains_key(k) {
                let im = choose|i2: int| 0 <= i2 < self.kseq().len() && self.kseq()[i2] == k;
                if i != im {
                    if i < im {
                        assert(slot_of(self.to_index, self.kseq()[i]) != slot_of(
                            self.to_index,
                            self.kseq()[im],
                        ));
                    } else {
                        assert(slot_of(self.to_index, self.kseq()[im]) != slot_of(
                            self.to_index,
                            self.kseq()[i],
                        ));
                    }
                    assert(false);
                }
            }
        }
    }

    /// A held key's view entry is the value in its slot.
    proof fn lemma_view_at(self, i: int)
        requires
            self.wf(),
            0 <= i < self.kseq().len(),
        ensures
            self@.contains_key(self.kseq()[i]),
            self@[self.kseq()[i]] == self.values@[self.slot_at(i)].unwrap(),
    {
        let k = self.kseq()[i];
        assert(self.kseq().contains(k));
        let i2 = choose|i2: int| 0 <= i2 < self.kseq().len() && self.kseq()[i2] == k;
        if i2 != i {
            assert(self.kseq()[i] == self.kseq()[i2]);
            assert(false);
        }
    }

    /// Membership in the view is membership in the key list.
    pub proof fn lemma_view_dom(self, k: Seq<u8>)
        ensures
            self@.contains_key(k) <==> exists|i: int|
                0 <= i < self.kseq().len() && self.kseq()[i] == k,
    {
        if self.kseq().contains(k) {
        }
    }
}

impl<V> View for PhMap<V> {
    type V = Map<Seq<u8>, V>;

    /// The map as a mathematical map from key bytes to values.
    closed spec fn view(&self) -> Map<Seq<u8>, V> {
        Map::new(|k: Seq<u8>| self.kseq().contains(k), |k: Seq<u8>| self.value_of(k))
    }
}

impl<V> Default for PhMap<V> {
    /// The empty map: no keys, no slots, an index function built over the
    /// empty key set.
    fn default() -> (r: Self)
        ensures
            r.wf(),
            r@ == Map::<Seq<u8>, V>::empty(),
    {
        let empty_keys: Vec<Vec<u8>> = Vec::new();
        let f = match build_index(&empty_keys) {
            Some(f) => f,
            None => {
                return vstd::pervasive::unreached();
            },
        };
        let r = PhMap {
            keys: Vec::new(),
            top_level_hashes: Vec::new(),
            values: Vec::new(),
            to_index: f,
        };
        proof {
            assert(r@ =~= Map::<Seq<u8>, V>::empty());
        }
        r
    }
}

impl<V> PhMap<V> {
    /// Point lookup. The result is exactly the hash-match rule: `Some` iff
    /// the probe hits (`found_key` answers), and then the found key's value.
    /// A held key finds itself; an absent key whose hash collides with a
    /// held key's, routed to that key's slot, gets that key's value — the
    /// documented hash-width-bounded false positive of this design.
    pub fn get(&self, key: &[u8]) -> (r: Option<&V>)
        requires
            self.wf(),
        ensures
            r is Some <==> self.found_key(key@) is Some,
            r matches Some(v) ==> (self.found_key(key@) matches Some(k2) && self@.contains_key(k2)
                && hash_of(k2) == hash_of(key@) && *v == self@[k2]),
            self@.contains_key(key@) ==> (r matches Some(v) && *v == self@[key@]),
    {
        proof {
            self.lemma_view_dom(key@);
            self.lemma_found_key(key@);
        }
        let h = hash_key(key);
        match query_index(&self.to_index, key) {
            None => {
                proof {
                    assert(!self.probe_hits(key@));
                }
                None
            },
            Some(idx) => {
                if idx < self.top_level_hashes.len() && idx < self.values.len() {
                    if self.top_level_hashes[idx] == h {
                        match self.values[idx].as_ref() {
                            Some(v) => {
                                proof {
                                    assert(self.probe_hits(key@));
                                    self.lemma_member_at_slot(key@, idx);
                                }
                                Some(v)
                            },
                            None => {
                                proof {
                                    assert(!self.probe_hits(key@));
                                }
                                None
                            },
                        }
                    } else {
                        proof {
                            assert(!self.probe_hits(key@));
                        }
                        None
                    }
                } else {
                    proof {
                        assert(!self.probe_hits(key@));
                    }
                    None
                }
            },
        }
    }

    /// When the queried key routes to an occupied slot whose stored hash
    /// equals the key's hash, the slot belongs to the found key and holds
    /// its value.
    proof fn lemma_member_at_slot(self, k: Seq<u8>, idx: usize)
        requires
            self.wf(),
            slot_of(self.to_index, k) == Some(idx),
            (idx as int) < self.values@.len(),
            self.values@[idx as int] is Some,
            (idx as int) < self.top_level_hashes@.len(),
            self.top_level_hashes@[idx as int] == hash_of(k),
        ensures
            self.probe_hits(k),
            self.found_key(k) matches Some(k2) && self@.contains_key(k2) && hash_of(k2) == hash_of(
                k,
            ) && self@[k2] == self.values@[idx as int].unwrap(),
            self@.contains_key(k) ==> self.found_key(k) == Some(k) && self@[k]
                == self.values@[idx as int].unwrap(),
    {
        self.lemma_view_dom(k);
        self.lemma_found_key(k);
        assert(self.probe_hits(k));
        assert(exists|i: int|
            0 <= i < self.kseq().len() && slot_of(self.to_index, self.kseq()[i]) == Some(idx));
        let i = choose|i: int|
            0 <= i < self.kseq().len() && slot_of(self.to_index, self.kseq()[i]) == slot_of(
                self.to_index,
                k,
            );
        self.lemma_view_at(i);
        assert(self.slot_at(i) == idx as int);
        assert(self.found_key(k) == Some(self.kseq()[i]));
        assert(self@[self.kseq()[i]] == self.values@[idx as int].unwrap());
    }

    /// Extends the map with a batch of key-value pairs, rebuilding the whole
    /// index over the union of the old keys and the batch.
    ///
    /// The batch is rejected with `DuplicateKey`, and the map left untouched,
    /// exactly when the batch repeats a key or collides with a held key.
    /// Success is owed otherwise whenever the index construction succeeds
    /// over the combined key sequence (`index_builds`, a function of that
    /// sequence alone, which a distinct key set makes all but certain);
    /// `IndexBuildFailed` also leaves the map untouched.
    pub fn extend(&mut self, kvs: Vec<(Vec<u8>, V)>) -> (r: Result<(), ExtendError>)
        requires
            old(self).wf(),
        ensures
            final(self).wf(),
            !extend_ok(old(self)@, kvs@) ==> r == Err::<(), ExtendError>(ExtendError::DuplicateKey)
                && *final(self) == *old(self),
            r == Err::<(), ExtendError>(ExtendError::DuplicateKey) ==> !extend_ok(old(self)@, kvs@),
            r == Err::<(), ExtendError>(ExtendError::IndexBuildFailed) ==> extend_ok(
                old(self)@,
                kvs@,
            ) && *final(self) == *old(self),
            r is Ok <==> extend_ok(old(self)@, kvs@) && index_builds(
                old(self).kseq() + batch_keys(kvs@),
            ),
            r is Ok ==> final(self)@ == old(self)@.union_prefer_right(batch_map(kvs@)),
    {
        let ghost pre = *old(self);
        let ghost kvb = kvs@;
        // Reject duplicates within the batch and against the held keys
        // before any state changes.
        if !batch_distinct(&kvs) {
            return Err(ExtendError::DuplicateKey);
        }
        if !batch_disjoint(&self.keys, &kvs) {
            proof {
                let i = choose|i: int|
                    0 <= i < kvs@.len() && key_views(self.keys@).contains(batch_keys(kvs@)[i]);
                pre.lemma_view_dom(batch_keys(kvs@)[i]);
            }
            return Err(ExtendError::DuplicateKey);
        }
        proof {
            assert forall|i: int| 0 <= i < kvs@.len() implies !pre@.contains_key(
                #[trigger] batch_keys(kvs@)[i],
            ) by {
                pre.lemma_view_dom(batch_keys(kvs@)[i]);
            }
        }
        // The combined key list: copies of the held keys, then the batch keys.
        let n_old = self.keys.len();
        let mut all_keys: Vec<Vec<u8>> = Vec::new();
        let mut i: usize = 0;
        while i < n_old
            invariant
                n_old == self.keys@.len(),
                self.keys == pre.keys,
                self.top_level_hashes == pre.top_level_hashes,
                self.values == pre.values,
                self.to_index == pre.to_index,
                i <= n_old,
                all_keys@.len() == i,
                forall|j: int| 0 <= j < i ==> (#[trigger] all_keys@[j])@ == pre.kseq()[j],
            decreases n_old - i,
        {
            proof {
                assert(pre.kseq()[i as int] == self.keys@[i as int]@);
            }
            all_keys.push(crate::bytes::to_byte_vec(self.keys[i].as_slice()));
            proof {
                assert(all_keys@[i as int]@ == pre.kseq()[i as int]);
            }
            i = i + 1;
        }
        let n_batch = kvs.len();
        let mut b: usize = 0;
        while b < n_batch
            invariant
                n_old == pre.keys@.len(),
                n_batch == kvs@.len(),
                kvs@ == kvb,
                self.keys == pre.keys,
                self.top_level_hashes == pre.top_level_hashes,
                self.values == pre.values,
                self.to_index == pre.to_index,
                b <= n_batch,
                all_keys@.len() == n_old + b,
                forall|j: int| 0 <= j < n_old ==> (#[trigger] all_keys@[j])@ == pre.kseq()[j],
                forall|j: int|
                    n_old <= j < n_old + b ==> (#[trigger] all_keys@[j])@ == batch_keys(kvb)[j
                        - n_old],
            decreases n_batch - b,
        {
            proof {
                assert(batch_keys(kvb)[b as int] == kvs@[b as int].0@);
            }
            all_keys.push(crate::bytes::to_byte_vec(kvs[b].0.as_slice()));
            proof {
                assert(all_keys@[(n_old + b) as int]@ == batch_keys(kvb)[b as int]);
            }
            b = b + 1;
        }
        let n_all = all_keys.len();
        let ghost ak = key_views(all_keys@);
        proof {
            assert(ak =~= pre.kseq() + batch_keys(kvb));
            lemma_combined_distinct(pre, kvb, ak);
        }
        // Rebuild the index over the combined keys; on failure nothing has
        // been mutated yet, so the map keeps its prior state.
        let new_fn = match build_index(&all_keys) {
            Some(f) => f,
            None => {
                return Err(ExtendError::IndexBuildFailed);
            },
        };
        // Fresh slot arrays, sized by the combined key count: the index
        // function is minimal, so every slot it emits is below `n_all`.
        let mut new_values: Vec<Option<V>> = Vec::new();
        let mut new_hashes: Vec<u64> = Vec::new();
        let mut t: usize = 0;
        while t < n_all
            invariant
                t <= n_all,
                new_values@.len() == t,
                new_hashes@.len() == t,
                forall|x: int| 0 <= x < t ==> (#[trigger] new_values@[x]) is None,
            decreases n_all - t,
        {
            new_values.push(None);
            new_hashes.push(0);
            t = t + 1;
        }
        // Move every held value from its old slot to its new one.
        let mut i: usize = 0;
        while i < n_old
            invariant
                pre.wf(),
                n_old == pre.keys@.len(),
                n_all == ak.len(),
                ak == key_views(all_keys@),
                all_keys@.len() == n_all,
                n_all == n_old + kvb.len(),
                forall|j: int| 0 <= j < n_old ==> ak[j] == pre.kseq()[j],
                forall|j: int|
                    0 <= j < n_all ==> (#[trigger] slot_of(new_fn, ak[j])) is Some && slot_of(
                        new_fn,
                        ak[j],
                    ).unwrap() < n_all,
                forall|j: int, j2: int|
                    0 <= j < j2 < n_all ==> slot_of(new_fn, ak[j]) != slot_of(new_fn, ak[j2]),
                i <= n_old,
                self.keys@ == pre.keys@,
                self.to_index == pre.to_index,
                self.top_level_hashes@ == pre.top_level_hashes@,
                self.values@.len() == pre.values@.len(),
                forall|j: int|
                    i <= j < n_old ==> self.values@[pre.slot_at(j)] == pre.values@[#[trigger] pre.slot_at(
                        j,
                    )],
                new_values@.len() == n_all,
                new_hashes@.len() == n_all,
                forall|j: int|
                    0 <= j < i ==> new_values@[nslot(new_fn, ak, j)] == Some(
                        pre@[#[trigger] ak[j]],
                    ),
                forall|j: int|
                    0 <= j < i ==> new_hashes@[#[trigger] nslot(new_fn, ak, j)] == hash_of(ak[j]),
                forall|x: int|
                    0 <= x < n_all && (#[trigger] new_values@[x]) is Some ==> exists|j: int|
                        0 <= j < i && nslot(new_fn, ak, j) == x,
            decreases n_old - i,
        {
            proof {
                assert(ak[i as int] == pre.kseq()[i as int]);
                pre.lemma_view_at(i as int);
                assert(self.values@[pre.slot_at(i as int)] == pre.values@[pre.slot_at(i as int)]);
            }
            let kref = self.keys[i].as_slice();
            let v = take_unchecked(&mut self.values, &self.to_index, kref);
            proof {
                assert(v == pre@[ak[i as int]]);
            }
            let h = hash_key(kref);
            let idx = match query_index(&new_fn, kref) {
                Some(s) => s,
                None => {
                    return vstd::pervasive::unreached();
                },
            };
            proof {
                assert(idx as int == nslot(new_fn, ak, i as int));
            }
            set_slot(&mut new_values, idx, Some(v));
            set_slot(&mut new_hashes, idx, h);
            proof {
                assert forall|j: int|
                    i + 1 <= j < n_old implies self.values@[pre.slot_at(j)]
                    == pre.values@[#[trigger] pre.slot_at(j)] by {
                    assert(slot_of(pre.to_index, pre.kseq()[i as int]) != slot_of(
                        pre.to_index,
                        pre.kseq()[j],
                    ));
                }
                assert forall|j: int|
                    0 <= j < i + 1 implies new_values@[nslot(new_fn, ak, j)] == Some(
                        pre@[#[trigger] ak[j]],
                    ) by {
                    if j < i {
                        assert(slot_of(new_fn, ak[j]) != slot_of(new_fn, ak[i as int]));
                    }
                }
                assert forall|j: int|
                    0 <= j < i + 1 implies new_hashes@[#[trigger] nslot(new_fn, ak, j)] == hash_of(
                        ak[j],
                    ) by {
                    if j < i {
                        assert(slot_of(new_fn, ak[j]) != slot_of(new_fn, ak[i as int]));
                    }
                }
            }
            i = i + 1;
        }
        // Move the batch values into their slots, consuming the batch from
        // the back.
        let mut kvs = kvs;
        while kvs.len() > 0
            invariant
                pre.wf(),
                n_old == pre.keys@.len(),
                n_all == ak.len(),
                n_all == n_old + kvb.len(),
                kvs@.len() <= kvb.len(),
                kvs@ == kvb.subrange(0, kvs@.len() as int),
                forall|j: int| 0 <= j < n_old ==> ak[j] == pre.kseq()[j],
                forall|j: int| n_old <= j < n_all ==> ak[j] == batch_keys(kvb)[j - n_old],
                forall|j: int|
                    0 <= j < n_all ==> (#[trigger] slot_of(new_fn, ak[j])) is Some && slot_of(
                        new_fn,
                        ak[j],
                    ).unwrap() < n_all,
                forall|j: int, j2: int|
                    0 <= j < j2 < n_all ==> slot_of(new_fn, ak[j]) != slot_of(new_fn, ak[j2]),
                new_values@.len() == n_all,
                new_hashes@.len() == n_all,
                forall|j: int|
                    0 <= j < n_old ==> new_values@[nslot(new_fn, ak, j)] == Some(
                        pre@[#[trigger] ak[j]],
                    ),
                forall|j: int|
                    kvs@.len() <= j < kvb.len() ==> new_values@[nslot(new_fn, ak, n_old + j)]
                        == Some((#[trigger] kvb[j]).1),
                forall|j: int|
                    0 <= j < n_old ==> new_hashes@[#[trigger] nslot(new_fn, ak, j)] == hash_of(
                        ak[j],
                    ),
                forall|j: int|
                    kvs@.len() <= j < kvb.len() ==> new_hashes@[#[trigger] nslot(
                        new_fn,
                        ak,
                        n_old + j,
                    )] == hash_of(ak[n_old + j]),
                forall|x: int|
                    0 <= x < n_all && (#[trigger] new_values@[x]) is Some ==> exists|j: int|
                        0 <= j < n_all && (j < n_old || j - n_old >= kvs@.len()) && nslot(
                            new_fn,
                            ak,
                            j,
                        ) == x,
            decreases kvs@.len(),
        {
            let pair = match kvs.pop() {
                Some(p) => p,
                None => {
                    return vstd::pervasive::unreached();
                },
            };
            let ghost jj = kvs@.len() as int;
            let (k, v) = pair;
            proof {
                assert(kvb[jj] == kvb.subrange(0, jj + 1)[jj]);
                assert(k@ == batch_keys(kvb)[jj]);
                assert(k@ == ak[n_old + jj]);
                assert(kvs@ =~= kvb.subrange(0, jj));
            }
            let h = hash_key(k.as_slice());
            let idx = match query_index(&new_fn, k.as_slice()) {
                Some(s) => s,
                None => {
                    return vstd::pervasive::unreached();
                },
            };
            proof {
                assert(idx as int == nslot(new_fn, ak, n_old + jj));
            }
            set_slot(&mut new_values, idx, Some(v));
            set_slot(&mut new_hashes, idx, h);
            proof {
                assert forall|j: int|
                    0 <= j < n_old implies new_values@[nslot(new_fn, ak, j)] == Some(
                        pre@[#[trigger] ak[j]],
                    ) by {
                    assert(slot_of(new_fn, ak[j]) != slot_of(new_fn, ak[n_old + jj]));
                }
                assert forall|j: int|
                    jj <= j < kvb.len() implies new_values@[nslot(new_fn, ak, n_old + j)] == Some(
                        (#[trigger] kvb[j]).1,
                    ) by {
                    if j > jj {
                        assert(slot_of(new_fn, ak[n_old + j]) != slot_of(new_fn, ak[n_old + jj]));
                    }
                }
                assert forall|j: int|
                    0 <= j < n_old implies new_hashes@[#[trigger] nslot(new_fn, ak, j)] == hash_of(
                        ak[j],
                    ) by {
                    assert(slot_of(new_fn, ak[j]) != slot_of(new_fn, ak[n_old + jj]));
                }
                assert forall|j: int|
                    jj <= j < kvb.len() implies new_hashes@[#[trigger] nslot(new_fn, ak, n_old + j)]
                        == hash_of(ak[n_old + j]) by {
                    if j > jj {
                        assert(slot_of(new_fn, ak[n_old + j]) != slot_of(new_fn, ak[n_old + jj]));
                    }
                }
            }
        }
        self.keys = all_keys;
        self.values = new_values;
        self.top_level_hashes = new_hashes;
        self.to_index = new_fn;
        proof {
            assert(self.kseq() =~= ak);
            lemma_extend_final(*self, pre, kvb);
        }
        Ok(())
    }

    /// Inserts one key-value pair: shorthand for a one-element `extend`.
    pub fn insert(&mut self, key: Vec<u8>, value: V) -> (r: Result<(), ExtendError>)
        requires
            old(self).wf(),
        ensures
            final(self).wf(),
            old(self)@.contains_key(key@) ==> r == Err::<(), ExtendError>(ExtendError::DuplicateKey)
                && *final(self) == *old(self),
            r == Err::<(), ExtendError>(ExtendError::DuplicateKey) ==> old(self)@.contains_key(
                key@,
            ),
            r == Err::<(), ExtendError>(ExtendError::IndexBuildFailed) ==> *final(self) == *old(
                self,
            ),
            r is Ok <==> !old(self)@.contains_key(key@) && index_builds(
                old(self).kseq().push(key@),
            ),
            r is Ok ==> final(self)@ == old(self)@.insert(key@, value),
    {
        let ghost kseq = key@;
        let mut kvs: Vec<(Vec<u8>, V)> = Vec::new();
        kvs.push((key, value));
        let r = self.extend(kvs);
        proof {
            let b = Seq::<(Vec<u8>, V)>::empty().push((key, value));
            assert(batch_keys(b).len() == 1);
            assert(batch_keys(b)[0] == kseq);
            assert(extend_ok(old(self)@, b) <==> !old(self)@.contains_key(kseq));
            assert(old(self).kseq() + batch_keys(b) =~= old(self).kseq().push(kseq));
            if r is Ok {
                assert(batch_map(b).contains_key(kseq));
                assert(batch_map(b)[kseq] == value);
                assert(final(self)@ =~= old(self)@.insert(kseq, value));
            }
        }
        r
    }

    /// Mutable point lookup, with exactly `get`'s membership semantics:
    /// `Some` iff the probe hits (`found_key` answers), and then a reference
    /// to the found key's value; writing through it updates only that key's
    /// entry.
    pub fn get_mut(&mut self, key: &[u8]) -> (r: Option<&mut V>)
        requires
            old(self).wf(),
        ensures
            final(self).wf(),
            r is Some <==> old(self).found_key(key@) is Some,
            r is None ==> *final(self) == *old(self),
            r matches Some(v) ==> (old(self).found_key(key@) matches Some(k2)
                && old(self)@.contains_key(k2) && hash_of(k2) == hash_of(key@)
                && *v == old(self)@[k2] && final(self)@ == old(self)@.insert(k2, *final(v))),
            old(self)@.contains_key(key@) ==> old(self).found_key(key@) == Some(key@),
    {
        let ghost pre = *self;
        proof {
            pre.lemma_view_dom(key@);
            pre.lemma_found_key(key@);
        }
        let h = hash_key(key);
        match query_index(&self.to_index, key) {
            None => {
                proof {
                    assert(!pre.probe_hits(key@));
                }
                None
            },
            Some(idx) => {
                if idx < self.top_level_hashes.len() && idx < self.values.len() {
                    if self.top_level_hashes[idx] == h {
                        if self.values[idx].is_some() {
                            proof {
                                assert(pre.probe_hits(key@));
                                // The occupied slot belongs to the found key.
                                assert(exists|i: int|
                                    0 <= i < pre.kseq().len() && slot_of(
                                        pre.to_index,
                                        pre.kseq()[i],
                                    ) == Some(idx));
                                let i0 = choose|i: int|
                                    0 <= i < pre.kseq().len() && slot_of(
                                        pre.to_index,
                                        pre.kseq()[i],
                                    ) == slot_of(pre.to_index, key@);
                                pre.lemma_view_at(i0);
                                assert(pre.slot_at(i0) == idx as int);
                                assert(hash_of(pre.kseq()[i0]) == hash_of(key@));
                                assert(pre.found_key(key@) == Some(pre.kseq()[i0]));
                                assert forall|fs: PhMap<V>|
                                    #![trigger fs.values@]
                                    (fs.keys == pre.keys && fs.top_level_hashes
                                        == pre.top_level_hashes && fs.to_index == pre.to_index
                                        && fs.values@[idx as int] is Some && fs.values@
                                        == pre.values@.update(
                                        idx as int,
                                        fs.values@[idx as int],
                                    )) implies (fs.wf() && fs@ == pre@.insert(
                                    pre.kseq()[i0],
                                    fs.values@[idx as int].unwrap(),
                                )) by {
                                    lemma_value_update(pre, fs, i0);
                                }
                            }
                            let cell = &mut self.values[idx];
                            match cell {
                                Some(v) => Some(v),
                                None => vstd::pervasive::unreached(),
                            }
                        } else {
                            proof {
                                assert(!pre.probe_hits(key@));
                            }
                            None
                        }
                    } else {
                        proof {
                            assert(!pre.probe_hits(key@));
                        }
                        None
                    }
                } else {
                    proof {
                        assert(!pre.probe_hits(key@));
                    }
                    None
                }
            },
        }
    }

    /// Mutable point lookup without the verification-hash check. The caller
    /// must guarantee that the key is held.
    pub fn get_unchecked_mut(&mut self, key: &[u8]) -> (r: &mut V)
        requires
            old(self).wf(),
            old(self)@.contains_key(key@),
        ensures
            *r == old(self)@[key@],
            final(self).wf(),
            final(self)@ == old(self)@.insert(key@, *final(r)),
    {
        let ghost pre = *self;
        proof {
            pre.lemma_view_dom(key@);
            let i0 = choose|i: int| 0 <= i < pre.kseq().len() && pre.kseq()[i] == key@;
            pre.lemma_view_at(i0);
            assert(slot_of(pre.to_index, key@) is Some);
        }
        let idx = match query_index(&self.to_index, key) {
            Some(i) => i,
            None => {
                return vstd::pervasive::unreached();
            },
        };
        proof {
            let i0 = choose|i: int| 0 <= i < pre.kseq().len() && pre.kseq()[i] == key@;
            assert(idx as int == pre.slot_at(i0));
            assert(idx < pre.values@.len());
            assert(pre.values@[idx as int] is Some);
            assert(pre.values@[idx as int].unwrap() == pre@[key@]);
            assert forall|fs: PhMap<V>|
                #![trigger fs.values@]
                (fs.keys == pre.keys && fs.top_level_hashes == pre.top_level_hashes && fs.to_index
                    == pre.to_index && fs.values@[idx as int] is Some && fs.values@
                    == pre.values@.update(idx as int, fs.values@[idx as int])) implies (fs.wf()
                && fs@ == pre@.insert(key@, fs.values@[idx as int].unwrap())) by {
                lemma_value_update(pre, fs, i0);
            }
        }
        let cell = &mut self.values[idx];
        match cell {
            Some(v) => v,
            None => vstd::pervasive::unreached(),
        }
    }

    /// Point lookup without the verification-hash check. The caller must
    /// guarantee that the key is held; the checks skipped here are exactly
    /// the ones that made `get` safe for arbitrary keys.
    pub fn get_unchecked(&self, key: &[u8]) -> (r: &V)
        requires
            self.wf(),
            self@.contains_key(key@),
        ensures
            *r == self@[key@],
    {
        proof {
            self.lemma_view_dom(key@);
            let i = choose|i: int| 0 <= i < self.kseq().len() && self.kseq()[i] == key@;
            self.lemma_view_at(i);
            assert(slot_of(self.to_index, key@) is Some);
        }
        let idx = match query_index(&self.to_index, key) {
            Some(idx) => idx,
            None => {
                return vstd::pervasive::unreached();
            },
        };
        proof {
            let i = choose|i: int| 0 <= i < self.kseq().len() && self.kseq()[i] == key@;
            self.lemma_view_at(i);
            assert(idx as int == self.slot_at(i));
            assert(idx < self.values@.len());
            assert(self.values@[idx as int] is Some);
            assert(self.values@[idx as int].unwrap() == self@[key@]);
        }
        match self.values[idx].as_ref() {
            Some(v) => v,
            None => vstd::pervasive::unreached(),
        }
    }
}

/// Replacing the value in the slot of the `i0`-th key keeps the map well
/// formed and updates exactly that key's view entry.
proof fn lemma_value_update<V>(pre: PhMap<V>, post: PhMap<V>, i0: int)
    requires
        pre.wf(),
        0 <= i0 < pre.kseq().len(),
        post.keys == pre.keys,
        post.top_level_hashes == pre.top_level_hashes,
        post.to_index == pre.to_index,
        post.values@.len() == pre.values@.len(),
        post.values@[pre.slot_at(i0)] is Some,
        post.values@ == pre.values@.update(pre.slot_at(i0), post.values@[pre.slot_at(i0)]),
    ensures
        post.wf(),
        post@ == pre@.insert(pre.kseq()[i0], post.values@[pre.slot_at(i0)].unwrap()),
{
    let s0 = pre.slot_at(i0);
    let nv = post.values@[s0].unwrap();
    assert(s0 < pre.values@.len());
    assert forall|i: int| 0 <= i < post.kseq().len() implies {
        &&& (#[trigger] slot_of(post.to_index, post.kseq()[i])) is Some
        &&& post.slot_at(i) < post.values@.len()
        &&& post.values@[post.slot_at(i)] is Some
        &&& post.top_level_hashes@[post.slot_at(i)] == hash_of(post.kseq()[i])
    } by {
        if i != i0 {
            if i < i0 {
                assert(slot_of(pre.to_index, pre.kseq()[i]) != slot_of(
                    pre.to_index,
                    pre.kseq()[i0],
                ));
            } else {
                assert(slot_of(pre.to_index, pre.kseq()[i0]) != slot_of(
                    pre.to_index,
                    pre.kseq()[i],
                ));
            }
        }
    }
    assert forall|t: int|
        0 <= t < post.values@.len() && (#[trigger] post.values@[t]) is Some implies exists|i: int|
        0 <= i < post.kseq().len() && slot_of(post.to_index, post.kseq()[i]) == Some(
        t as usize,
    ) by {
        if t == s0 {
            assert(slot_of(post.to_index, post.kseq()[i0]) == Some(t as usize));
        } else {
            assert(pre.values@[t] is Some);
        }
    }
    assert(post.wf());
    let k0 = pre.kseq()[i0];
    assert forall|k: Seq<u8>|
        post@.contains_key(k) <==> pre@.insert(k0, nv).contains_key(k) by {
        post.lemma_view_dom(k);
        pre.lemma_view_dom(k);
        if k == k0 {
            assert(pre.kseq()[i0] == k);
        }
    }
    assert forall|k: Seq<u8>| #[trigger] post@.contains_key(k) implies post@[k] == pre@.insert(
        k0,
        nv,
    )[k] by {
        post.lemma_view_dom(k);
        let i = choose|i: int| 0 <= i < post.kseq().len() && post.kseq()[i] == k;
        post.lemma_view_at(i);
        pre.lemma_view_at(i);
        if k == k0 {
            if i != i0 {
                assert(post.kseq()[i] == post.kseq()[i0]);
                assert(false);
            }
            assert(post@[k] == nv);
        } else {
            if i == i0 {
                assert(false);
            }
            if i < i0 {
                assert(slot_of(pre.to_index, pre.kseq()[i]) != slot_of(
                    pre.to_index,
                    pre.kseq()[i0],
                ));
            } else {
                assert(slot_of(pre.to_index, pre.kseq()[i0]) != slot_of(
                    pre.to_index,
                    pre.kseq()[i],
                ));
            }
            assert(post@[k] == pre@[k]);
        }
    }
    assert(post@ =~= pre@.insert(k0, nv));
}

/// The keys of a batch of key-value pairs, as byte sequences.
pub open spec fn batch_keys<V>(kvs: Seq<(Vec<u8>, V)>) -> Seq<Seq<u8>> {
    Seq::new(kvs.len(), |i: int| (kvs[i].0)@)
}

/// The batch value stored under key `k` (meaningful when `k` is a batch key).
pub open spec fn batch_val<V>(kvs: Seq<(Vec<u8>, V)>, k: Seq<u8>) -> V {
    kvs[choose|i: int| 0 <= i < kvs.len() && (kvs[i].0)@ == k].1
}

/// The batch as a mathematical map (meaningful when its keys are distinct).
pub open spec fn batch_map<V>(kvs: Seq<(Vec<u8>, V)>) -> Map<Seq<u8>, V> {
    Map::new(|k: Seq<u8>| batch_keys(kvs).contains(k), |k: Seq<u8>| batch_val(kvs, k))
}

/// With distinct batch keys, the batch map sends each batch key to its
/// batch value.
pub proof fn lemma_batch_map_at<V>(kvs: Seq<(Vec<u8>, V)>, i: int)
    requires
        seqs_distinct(batch_keys(kvs)),
        0 <= i < kvs.len(),
    ensures
        batch_map(kvs).contains_key((kvs[i].0)@),
        batch_map(kvs)[(kvs[i].0)@] == kvs[i].1,
{
    let k = (kvs[i].0)@;
    assert(batch_keys(kvs)[i] == k);
    assert(batch_keys(kvs).contains(k));
    assert(batch_map(kvs).contains_key(k));
    assert(batch_map(kvs)[k] == batch_val(kvs, k));
    assert forall|a: int, b: int|
        0 <= a < kvs.len() && (#[trigger] (kvs[a].0))@ == k && 0 <= b < kvs.len() && (#[trigger] (
        kvs[b].0))@ == k implies a == b by {
        if a != b {
            if a < b {
                assert(batch_keys(kvs)[a] == batch_keys(kvs)[b]);
            } else {
                assert(batch_keys(kvs)[b] == batch_keys(kvs)[a]);
            }
            assert(false);
        }
    }
    assert(exists|i2: int| 0 <= i2 < kvs.len() && (kvs[i2].0)@ == k);
    assert(batch_val(kvs, k) == kvs[i].1);
}

/// A batch extends a map cleanly when its keys are pairwise distinct and
/// none of them is already held.
pub open spec fn extend_ok<V>(m: Map<Seq<u8>, V>, kvs: Seq<(Vec<u8>, V)>) -> bool {
    &&& seqs_distinct(batch_keys(kvs))
    &&& forall|i: int| 0 <= i < kvs.len() ==> !m.contains_key(#[trigger] batch_keys(kvs)[i])
}

/// The slot an index function assigns to the `i`-th of the given keys.
spec fn nslot(f: IndexFn, ks: Seq<Seq<u8>>, i: int) -> int {
    slot_of(f, ks[i]).unwrap() as int
}

/// Overwrites one vector element in place.
fn set_slot<T>(v: &mut Vec<T>, i: usize, x: T)
    requires
        i < old(v)@.len(),
    ensures
        final(v)@ == old(v)@.update(i as int, x),
{
    let cell = &mut v[i];
    *cell = x;
}

/// Takes the value out of the slot that `to_index` assigns to `key`, leaving
/// that slot vacant. The caller must guarantee that `to_index` maps `key` to
/// an occupied in-range slot of `vals` — the map's invariant guarantees it
/// for every held key under the current index function.
pub fn take_unchecked<V>(vals: &mut Vec<Option<V>>, to_index: &IndexFn, key: &[u8]) -> (r: V)
    requires
        slot_of(*to_index, key@) is Some,
        slot_of(*to_index, key@).unwrap() < old(vals)@.len(),
        old(vals)@[slot_of(*to_index, key@).unwrap() as int] is Some,
    ensures
        r == old(vals)@[slot_of(*to_index, key@).unwrap() as int].unwrap(),
        final(vals)@ == old(vals)@.update(slot_of(*to_index, key@).unwrap() as int, None),
{
    let idx = match query_index(to_index, key) {
        Some(i) => i,
        None => {
            return vstd::pervasive::unreached();
        },
    };
    let cell = &mut vals[idx];
    match cell.take() {
        Some(v) => v,
        None => vstd::pervasive::unreached(),
    }
}

/// The batch keys are pairwise distinct, decided by comparing all pairs.
fn batch_distinct<V>(kvs: &Vec<(Vec<u8>, V)>) -> (r: bool)
    ensures
        r == seqs_distinct(batch_keys(kvs@)),
{
    let n = kvs.len();
    let mut i: usize = 0;
    while i < n
        invariant
            n == kvs@.len(),
            i <= n,
            forall|a: int, b: int|
                0 <= a < b < n && a < i ==> (#[trigger] batch_keys(kvs@)[a])
                    != (#[trigger] batch_keys(kvs@)[b]),
        decreases n - i,
    {
        let mut j: usize = i + 1;
        while j < n
            invariant
                n == kvs@.len(),
                i < j <= n,
                i < n,
                forall|a: int, b: int|
                    0 <= a < b < n && a < i ==> (#[trigger] batch_keys(kvs@)[a])
                        != (#[trigger] batch_keys(kvs@)[b]),
                forall|b: int| i < b < j ==> batch_keys(kvs@)[i as int]
                    != (#[trigger] batch_keys(kvs@)[b]),
            decreases n - j,
        {
            if bytes_eq(kvs[i].0.as_slice(), kvs[j].0.as_slice()) {
                proof {
                    assert(batch_keys(kvs@)[i as int] == batch_keys(kvs@)[j as int]);
                }
                return false;
            }
            j = j + 1;
        }
        i = i + 1;
    }
    true
}

/// Whether some held key equals `k`.
fn vec_contains_key(keys: &Vec<Vec<u8>>, k: &[u8]) -> (r: bool)
    ensures
        r == key_views(keys@).contains(k@),
{
    let n = keys.len();
    let mut i: usize = 0;
    while i < n
        invariant
            n == keys@.len(),
            i <= n,
            forall|j: int| 0 <= j < i ==> (#[trigger] key_views(keys@)[j]) != k@,
        decreases n - i,
    {
        if bytes_eq(keys[i].as_slice(), k) {
            proof {
                assert(key_views(keys@)[i as int] == k@);
            }
            return true;
        }
        i = i + 1;
    }
    proof {
        if key_views(keys@).contains(k@) {
            let j = choose|j: int|
                0 <= j < key_views(keys@).len() && key_views(keys@)[j] == k@;
            assert(false);
        }
    }
    false
}

/// No batch key equals a held key.
fn batch_disjoint<V>(keys: &Vec<Vec<u8>>, kvs: &Vec<(Vec<u8>, V)>) -> (r: bool)
    ensures
        r == forall|i: int|
            0 <= i < kvs@.len() ==> !key_views(keys@).contains(#[trigger] batch_keys(kvs@)[i]),
{
    let n = kvs.len();
    let mut i: usize = 0;
    while i < n
        invariant
            n == kvs@.len(),
            i <= n,
            forall|j: int|
                0 <= j < i ==> !key_views(keys@).contains(#[trigger] batch_keys(kvs@)[j]),
        decreases n - i,
    {
        if vec_contains_key(keys, kvs[i].0.as_slice()) {
            proof {
                assert(key_views(keys@).contains(batch_keys(kvs@)[i as int]));
            }
            return false;
        }
        i = i + 1;
    }
    true
}

/// Distinct held keys and a distinct, disjoint batch concatenate into a
/// distinct key list.
proof fn lemma_combined_distinct<V>(pre: PhMap<V>, kvb: Seq<(Vec<u8>, V)>, ak: Seq<Seq<u8>>)
    requires
        pre.wf(),
        seqs_distinct(batch_keys(kvb)),
        forall|i: int| 0 <= i < kvb.len() ==> !pre@.contains_key(#[trigger] batch_keys(kvb)[i]),
        ak == pre.kseq() + batch_keys(kvb),
    ensures
        seqs_distinct(ak),
{
    let n_old = pre.kseq().len() as int;
    assert forall|i: int, j: int| 0 <= i < j < ak.len() implies ak[i] != ak[j] by {
        if j < n_old {
            assert(ak[i] == pre.kseq()[i]);
            assert(ak[j] == pre.kseq()[j]);
        } else if i < n_old {
            if ak[i] == ak[j] {
                pre.lemma_view_dom(ak[j]);
                assert(pre.kseq()[i] == ak[i]);
                assert(ak[j] == batch_keys(kvb)[j - n_old]);
                assert(pre@.contains_key(batch_keys(kvb)[j - n_old]));
                assert(false);
            }
        } else {
            assert(ak[i] == batch_keys(kvb)[i - n_old]);
            assert(ak[j] == batch_keys(kvb)[j - n_old]);
        }
    }
}

/// After a rebuild that placed every old value and every batch value into
/// its slot under the new index function, the map is well formed and its
/// view is the old view extended with the batch.
proof fn lemma_extend_final<V>(post: PhMap<V>, pre: PhMap<V>, kvb: Seq<(Vec<u8>, V)>)
    requires
        pre.wf(),
        seqs_distinct(batch_keys(kvb)),
        forall|i: int| 0 <= i < kvb.len() ==> !pre@.contains_key(#[trigger] batch_keys(kvb)[i]),
        post.kseq() == pre.kseq() + batch_keys(kvb),
        seqs_distinct(post.kseq()),
        post.values@.len() == post.kseq().len(),
        post.top_level_hashes@.len() == post.kseq().len(),
        forall|i: int|
            0 <= i < post.kseq().len() ==> (#[trigger] slot_of(post.to_index, post.kseq()[i]))
                is Some && slot_of(post.to_index, post.kseq()[i]).unwrap() < post.kseq().len(),
        forall|i: int, j: int|
            0 <= i < j < post.kseq().len() ==> slot_of(post.to_index, post.kseq()[i]) != slot_of(
                post.to_index,
                post.kseq()[j],
            ),
        forall|i: int|
            0 <= i < pre.kseq().len() ==> post.values@[#[trigger] post.slot_at(i)] == Some(
                pre@[post.kseq()[i]],
            ),
        forall|i: int|
            pre.kseq().len() <= i < post.kseq().len() ==> post.values@[#[trigger] post.slot_at(i)]
                == Some(kvb[i - pre.kseq().len()].1),
        forall|i: int|
            0 <= i < post.kseq().len() ==> post.top_level_hashes@[#[trigger] post.slot_at(i)]
                == hash_of(post.kseq()[i]),
        forall|t: int|
            0 <= t < post.values@.len() && (#[trigger] post.values@[t]) is Some ==> exists|i: int|
                0 <= i < post.kseq().len() && slot_of(post.to_index, post.kseq()[i]) == Some(
                    t as usize,
                ),
    ensures
        post.wf(),
        post@ == pre@.union_prefer_right(batch_map(kvb)),
{
    let n_old = pre.kseq().len() as int;
    let n_all = post.kseq().len() as int;
    assert(post.wf());
    assert forall|k: Seq<u8>|
        post@.contains_key(k) <==> (pre@.contains_key(k) || batch_map(kvb).contains_key(k)) by {
        post.lemma_view_dom(k);
        pre.lemma_view_dom(k);
        if post@.contains_key(k) {
            let i = choose|i: int| 0 <= i < post.kseq().len() && post.kseq()[i] == k;
            if i < n_old {
                assert(pre.kseq()[i] == k);
            } else {
                assert(batch_keys(kvb)[i - n_old] == k);
                assert(batch_keys(kvb).contains(k));
            }
        }
        if pre@.contains_key(k) {
            let i = choose|i: int| 0 <= i < pre.kseq().len() && pre.kseq()[i] == k;
            assert(post.kseq()[i] == k);
        }
        if batch_map(kvb).contains_key(k) {
            assert(batch_keys(kvb).contains(k));
            let j = choose|j: int|
                0 <= j < batch_keys(kvb).len() && batch_keys(kvb)[j] == k;
            assert(post.kseq()[n_old + j] == k);
        }
    }
    assert forall|k: Seq<u8>| #[trigger] post@.contains_key(k) implies post@[k]
        == pre@.union_prefer_right(batch_map(kvb))[k] by {
        post.lemma_view_dom(k);
        let i = choose|i: int| 0 <= i < post.kseq().len() && post.kseq()[i] == k;
        post.lemma_view_at(i);
        if i < n_old {
            assert(pre.kseq()[i] == k);
            pre.lemma_view_dom(k);
            if batch_map(kvb).contains_key(k) {
                let j = choose|j: int|
                    0 <= j < batch_keys(kvb).len() && batch_keys(kvb)[j] == k;
                assert(!pre@.contains_key(batch_keys(kvb)[j]));
                assert(false);
            }
            assert(post@[k] == post.values@[post.slot_at(i)].unwrap());
            assert(post.values@[post.slot_at(i)] == Some(pre@[post.kseq()[i]]));
        } else {
            let j = i - n_old;
            assert(batch_keys(kvb)[j] == k);
            assert(batch_keys(kvb).contains(k));
            let j2 = choose|j2: int| 0 <= j2 < kvb.len() && (kvb[j2].0)@ == k;
            if j2 != j {
                assert(batch_keys(kvb)[j2] == batch_keys(kvb)[j]);
                assert(false);
            }
            assert(batch_map(kvb)[k] == kvb[j].1);
            assert(post@[k] == post.values@[post.slot_at(i)].unwrap());
        }
    }
    assert(post@ =~= pre@.union_prefer_right(batch_map(kvb)));
}

} // verus!
