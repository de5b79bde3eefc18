//! A hash map from `u64` keys to arbitrary values, built on separate
//! chaining, abstracted as a `Map<u64, V>`.
//!
//! Keys are placed by their remainder modulo the bucket count.

use vstd::prelude::*;

verus! {

broadcast use vstd::seq_lib::group_seq_properties;

/// One stored binding.
struct Bucket<V> {
    key: u64,
    value: V,
}

/// First value bound to `k` in a bucket chain.
spec fn chain_find<V>(b: Seq<Bucket<V>>, k: u64) -> Option<V>
    decreases b.len(),
{
    if b.len() == 0 {
        None
    } else if b[0].key == k {
        Some(b[0].value)
    } else {
        chain_find(b.drop_first(), k)
    }
}

/// Appending a binding is only visible for its own key, and only when the
/// key was absent.
proof fn lemma_chain_find_push<V>(b: Seq<Bucket<V>>, e: Bucket<V>, k: u64)
    ensures
        chain_find(b.push(e), k) == (if chain_find(b, k) is Some {
            chain_find(b, k)
        } else if e.key == k {
            Some(e.value)
        } else {
            None::<V>
        }),
    decreases b.len(),
{
    if b.len() == 0 {
        assert(b.push(e).drop_first() =~= Seq::<Bucket<V>>::empty());
        assert(b.push(e)[0] == e);
        assert(chain_find(b, k) is None);
        assert(chain_find(Seq::<Bucket<V>>::empty(), k) is None);
    } else {
        lemma_chain_find_push(b.drop_first(), e, k);
        assert(b.push(e).drop_first() =~= b.drop_first().push(e));
        assert(b.push(e)[0] == b[0]);
    }
}

/// Updating position `pos` changes lookups only for the old and new key at
/// that position.
proof fn lemma_chain_find_update<V>(b: Seq<Bucket<V>>, pos: int, e: Bucket<V>, k: u64)
    requires
        0 <= pos < b.len(),
        forall|i: int| 0 <= i < b.len() && i != pos ==> (#[trigger] b[i]).key != b[pos].key,
        e.key == b[pos].key,
    ensures
        chain_find(b.update(pos, e), k) == (if b[pos].key == k {
            Some(e.value)
        } else {
            chain_find(b, k)
        }),
    decreases b.len(),
{
    if pos == 0 {
        assert(b.update(0, e).drop_first() =~= b.drop_first());
    } else {
        assert(b.update(pos, e).drop_first() =~= b.drop_first().update(pos - 1, e));
        assert(b.update(pos, e)[0] == b[0]);
        lemma_chain_find_update(b.drop_first(), pos - 1, e, k);
    }
}

/// Removing position `pos` changes lookups only for that key.
proof fn lemma_chain_find_remove<V>(b: Seq<Bucket<V>>, pos: int, k: u64)
    requires
        0 <= pos < b.len(),
        forall|i: int| 0 <= i < b.len() && i != pos ==> (#[trigger] b[i]).key != b[pos].key,
    ensures
        chain_find(b.remove(pos), k) == (if b[pos].key == k {
            None::<V>
        } else {
            chain_find(b, k)
        }),
    decreases b.len(),
{
    if pos == 0 {
        assert(b.remove(0) =~= b.drop_first());
        if b[0].key == k {
            lemma_chain_find_none(b.drop_first(), k, b[0].key);
        }
    } else {
        assert(b.remove(pos).drop_first() =~= b.drop_first().remove(pos - 1));
        assert(b.remove(pos)[0] == b[0]);
        lemma_chain_find_remove(b.drop_first(), pos - 1, k);
    }
}

/// A chain without `k` among its keys never finds `k`.
proof fn lemma_chain_find_none<V>(b: Seq<Bucket<V>>, k: u64, absent: u64)
    requires
        forall|i: int| 0 <= i < b.len() ==> (#[trigger] b[i]).key != absent,
        k == absent,
    ensures
        chain_find(b, k) is None,
    decreases b.len(),
{
    if b.len() > 0 {
        lemma_chain_find_none(b.drop_first(), k, absent);
    }
}

/// Hash map from `u64` keys to values, with separate chaining.
pub struct HashMap<V> {
    buckets: Vec<Vec<Bucket<V>>>,
    size: usize,
    capacity: usize,
}

impl<V> View for HashMap<V> {
    type V = Map<u64, V>;

    closed spec fn view(&self) -> Map<u64, V> {
        Map::new(
            |k: u64| chain_find(self.buckets[(k as int) % (self.capacity as int)]@, k) is Some,
            |k: u64| chain_find(self.buckets[(k as int) % (self.capacity as int)]@, k).unwrap(),
        )
    }
}

impl<V> HashMap<V> {
    /// Number of bindings stored.
    pub closed spec fn spec_len(self) -> nat {
        self.size as nat
    }

    spec fn buckets_wf(buckets: Seq<Vec<Bucket<V>>>, capacity: int) -> bool {
        &&& buckets.len() == capacity
        &&& capacity > 0
        &&& forall|i: int, e: int|
            0 <= i < buckets.len() && 0 <= e < buckets[i]@.len() ==> ((#[trigger] buckets[i]@[e]).key
                as int) % capacity == i
        &&& forall|i: int, e1: int, e2: int|
            0 <= i < buckets.len() && 0 <= e1 < e2 < buckets[i]@.len() ==> (#[trigger] buckets[i]@[e1]).key
                != (#[trigger] buckets[i]@[e2]).key
    }

    spec fn chain_total(buckets: Seq<Vec<Bucket<V>>>) -> nat
        decreases buckets.len(),
    {
        if buckets.len() == 0 {
            0
        } else {
            Self::chain_total(buckets.drop_last()) + buckets.last()@.len()
        }
    }

    #[verifier::type_invariant]
    spec fn wf(self) -> bool {
        &&& Self::buckets_wf(self.buckets@, self.capacity as int)
        &&& self.size == Self::chain_total(self.buckets@)
    }

    /// An empty map with the default number of buckets.
    pub fn new() -> (r: HashMap<V>)
        ensures
            r@ == Map::<u64, V>::empty(),
            r.spec_len() == 0,
    {
        let mut buckets: Vec<Vec<Bucket<V>>> = Vec::new();
        let mut i: usize = 0;
        while i < 16
            invariant
                i <= 16,
                buckets@.len() == i,
                forall|j: int| 0 <= j < i ==> (#[trigger] buckets@[j])@.len() == 0,
            decreases 16 - i,
        {
            buckets.push(Vec::new());
            i += 1;
        }
        proof {
            lemma_total_of_empties(buckets@);
        }
        let r = HashMap { buckets, size: 0, capacity: 16 };
        proof {
            assert forall|k: u64| !r@.contains_key(k) by {
                let b = (k as int) % 16;
                assert(r.buckets@[b]@.len() == 0);
            }
            assert(r@ =~= Map::<u64, V>::empty());
        }
        r
    }

    /// Bind `key` to `value`; the previous value bound to `key`, if any, is
    /// returned.
    pub fn insert(&mut self, key: u64, value: V) -> (r: Option<V>)
        requires
            old(self).spec_len() < usize::MAX,
        ensures
            final(self)@ == old(self)@.insert(key, value),
            r == (if old(self)@.contains_key(key) {
                Some(old(self)@[key])
            } else {
                None::<V>
            }),
            final(self).spec_len() == old(self).spec_len() + (if old(self)@.contains_key(key) {
                0int
            } else {
                1int
            }),
    {
        proof {
            use_type_invariant(&*self);
        }
        let mut tmp = Self::swapped_out(self);
        let capacity = tmp.capacity;
        let mut buckets = tmp.buckets;
        let idx = (key % (capacity as u64)) as usize;
        proof {
            assert(idx < buckets@.len());
        }
        let mut row = buckets.remove(idx);
        let ghost old_row = row@;

        let mut pos: usize = 0;
        let mut found = false;
        while pos < row.len()
            invariant
                pos <= row.len(),
                !found ==> forall|u: int| 0 <= u < pos ==> (#[trigger] row@[u]).key != key,
                found ==> pos < row.len() && row@[pos as int].key == key,
            ensures
                found ==> pos < row.len() && row@[pos as int].key == key,
                !found ==> forall|u: int| 0 <= u < row@.len() ==> (#[trigger] row@[u]).key != key,
            decreases row.len() - pos + if found {
                0int
            } else {
                1int
            },
        {
            if !found {
                if row[pos].key == key {
                    found = true;
                } else {
                    pos += 1;
                }
            } else {
                break ;
            }
        }

        proof {
            assert(old_row == old(self).buckets@[idx as int]@);
            assert(old(self)@.contains_key(key) == (chain_find(old_row, key) is Some));
        }
        let r: Option<V>;
        let new_size: usize;
        if found {
            proof {
                lemma_chain_skip_to_find(old_row, pos as int);
            }
            let old_bucket = row.remove(pos);
            row.insert(pos, Bucket { key, value });
            proof {
                assert(row@ =~= old_row.update(pos as int, Bucket { key, value }));
                lemma_chain_find_update(
                    old_row,
                    pos as int,
                    Bucket { key, value },
                    key,
                );
            }
            r = Some(old_bucket.value);
            new_size = tmp.size;
        } else {
            row.push(Bucket { key, value });
            proof {
                lemma_chain_find_push(old_row, Bucket { key, value }, key);
                lemma_chain_find_none(old_row, key, key);
            }
            r = None;
            new_size = tmp.size + 1;
        }

        let ghost new_row = row@;
        buckets.insert(idx, row);
        proof {
            assert(buckets@ =~= tmp.buckets@.update(idx as int, buckets@[idx as int]));
            lemma_total_update(tmp.buckets@, idx as int, buckets@[idx as int]);
        }
        *self = HashMap { buckets, size: new_size, capacity };
        proof {
            assert forall|k2: u64| true implies #[trigger] final(self)@.contains_key(k2) == old(
                self,
            )@.insert(key, value).contains_key(k2) && (final(self)@.contains_key(k2)
                ==> final(self)@[k2] == old(self)@.insert(key, value)[k2]) by {
                let b2 = (k2 as int) % (capacity as int);
                if b2 != idx as int {
                    assert(final(self).buckets@[b2] == old(self).buckets@[b2]);
                } else {
                    if found {
                        lemma_chain_find_update(
                            old_row,
                            pos as int,
                            Bucket { key, value },
                            k2,
                        );
                    } else {
                        lemma_chain_find_push(old_row, Bucket { key, value }, k2);
                    }
                }
            }
            assert(final(self)@ =~= old(self)@.insert(key, value));
            if found {
                lemma_chain_find_update(old_row, pos as int, Bucket { key, value }, key);
            }
        }
        r
    }

    /// Move the whole map out, leaving a well-formed placeholder behind.
    fn swapped_out(place: &mut HashMap<V>) -> (r: HashMap<V>)
        ensures
            r == *old(place),
    {
        let mut empty_buckets: Vec<Vec<Bucket<V>>> = Vec::new();
        empty_buckets.push(Vec::new());
        proof {
            assert(empty_buckets@.drop_last() =~= Seq::<Vec<Bucket<V>>>::empty());
            assert(Self::chain_total(Seq::<Vec<Bucket<V>>>::empty()) == 0);
            assert(Self::chain_total(empty_buckets@) == 0);
        }
        let mut tmp = HashMap { buckets: empty_buckets, size: 0, capacity: 1 };
        core::mem::swap(place, &mut tmp);
        tmp
    }

    /// The value bound to `key`, if any.
    pub fn get(&self, key: &u64) -> (r: Option<&V>)
        ensures
            match r {
                Some(v) => self@.contains_key(*key) && *v == self@[*key],
                None => !self@.contains_key(*key),
            },
    {
        proof {
            use_type_invariant(self);
        }
        let idx = (*key % (self.capacity as u64)) as usize;
        proof {
            assert(idx as int == (*key as int) % (self.capacity as int));
        }
        let row = &self.buckets[idx];
        let ghost chain = row@;
        let n = row.len();
        let mut i: usize = 0;
        proof {
            assert(chain.skip(0) =~= chain);
        }
        while i < n
            invariant
                n == row@.len(),
                chain == row@,
                idx < self.buckets@.len(),
                chain == self.buckets@[idx as int]@,
                idx as int == (*key as int) % (self.capacity as int),
                i <= n,
                chain_find(chain, *key) == chain_find(chain.skip(i as int), *key),
            decreases n - i,
        {
            proof {
                assert(chain.skip(i as int)[0] == chain[i as int]);
                assert(chain.skip(i as int).drop_first() =~= chain.skip(i + 1));
            }
            if row[i].key == *key {
                proof {
                    assert(chain_find(chain, *key) == Some(chain[i as int].value));
                    assert(self@.contains_key(*key));
                }
                return Some(&row[i].value);
            }
            i += 1;
        }
        proof {
            assert(chain.skip(n as int) =~= Seq::<Bucket<V>>::empty());
            assert(chain_find(Seq::<Bucket<V>>::empty(), *key) is None);
        }
        None
    }

    /// Unbind `key`, returning the value it was bound to.
    pub fn remove(&mut self, key: &u64) -> (r: Option<V>)
        ensures
            final(self)@ == old(self)@.remove(*key),
            r == (if old(self)@.contains_key(*key) {
                Some(old(self)@[*key])
            } else {
                None::<V>
            }),
            final(self).spec_len() == old(self).spec_len() - (if old(self)@.contains_key(*key) {
                1int
            } else {
                0int
            }),
    {
        proof {
            use_type_invariant(&*self);
        }
        let k = *key;
        let mut tmp = Self::swapped_out(self);
        let capacity = tmp.capacity;
        let mut buckets = tmp.buckets;
        let idx = (k % (capacity as u64)) as usize;
        let mut row = buckets.remove(idx);
        let ghost old_row = row@;

        let mut pos: usize = 0;
        let mut found = false;
        while pos < row.len()
            invariant
                pos <= row.len(),
                !found ==> forall|u: int| 0 <= u < pos ==> (#[trigger] row@[u]).key != k,
                found ==> pos < row.len() && row@[pos as int].key == k,
            ensures
                found ==> pos < row.len() && row@[pos as int].key == k,
                !found ==> forall|u: int| 0 <= u < row@.len() ==> (#[trigger] row@[u]).key != k,
            decreases row.len() - pos + if found {
                0int
            } else {
                1int
            },
        {
            if !found {
                if row[pos].key == k {
                    found = true;
                } else {
                    pos += 1;
                }
            } else {
                break ;
            }
        }

        proof {
            assert(old_row == old(self).buckets@[idx as int]@);
            assert(old(self)@.contains_key(k) == (chain_find(old_row, k) is Some));
        }
        let r: Option<V>;
        let new_size: usize;
        if found {
            proof {
                lemma_chain_skip_to_find(old_row, pos as int);
            }
            let removed = row.remove(pos);
            proof {
                lemma_chain_find_remove(old_row, pos as int, k);
                assert(Self::chain_total(tmp.buckets@) >= tmp.buckets@[idx as int]@.len()) by {
                    lemma_total_lower_bound(tmp.buckets@, idx as int);
                }
            }
            r = Some(removed.value);
            new_size = tmp.size - 1;
        } else {
            proof {
                lemma_chain_find_none(old_row, k, k);
            }
            r = None;
            new_size = tmp.size;
        }

        let ghost new_row = row@;
        buckets.insert(idx, row);
        proof {
            assert(buckets@ =~= tmp.buckets@.update(idx as int, buckets@[idx as int]));
            lemma_total_update(tmp.buckets@, idx as int, buckets@[idx as int]);
        }
        *self = HashMap { buckets, size: new_size, capacity };
        proof {
            assert forall|k2: u64| true implies #[trigger] final(self)@.contains_key(k2) == old(
                self,
            )@.remove(k).contains_key(k2) && (final(self)@.contains_key(k2) ==> final(self)@[k2]
                == old(self)@.remove(k)[k2]) by {
                let b2 = (k2 as int) % (capacity as int);
                if b2 != idx as int {
                    assert(final(self).buckets@[b2] == old(self).buckets@[b2]);
                } else {
                    if found {
                        lemma_chain_find_remove(old_row, pos as int, k2);
                    }
                }
            }
            assert(final(self)@ =~= old(self)@.remove(k));
            if found {
                lemma_chain_find_remove(old_row, pos as int, k);
            }
        }
        r
    }

    /// Is `key` bound?
    pub fn contains_key(&self, key: &u64) -> (r: bool)
        ensures
            r == self@.contains_key(*key),
    {
        self.get(key).is_some()
    }

    /// Number of bindings.
    pub fn len(&self) -> (r: usize)
        ensures
            r == self.spec_len(),
    {
        proof {
            use_type_invariant(self);
        }
        self.size
    }

    /// Is the map empty?
    pub fn is_empty(&self) -> (r: bool)
        ensures
            r == (self.spec_len() == 0),
            r ==> forall|k: u64| !self@.contains_key(k),
    {
        proof {
            use_type_invariant(self);
            if self.size == 0 {
                lemma_total_zero(self.buckets@);
                assert forall|k: u64| !self@.contains_key(k) by {
                    let b = (k as int) % (self.capacity as int);
                    lemma_chain_find_none(self.buckets@[b]@, k, k);
                }
            }
        }
        self.size == 0
    }

    /// Every bound key, bucket by bucket.
    pub fn keys(&self) -> (r: Vec<u64>)
        ensures
            forall|t: int| 0 <= t < r@.len() ==> self@.contains_key(#[trigger] r@[t]),
            forall|k: u64| self@.contains_key(k) ==> r@.contains(k),
            forall|t: int, u: int| 0 <= t < u < r@.len() ==> r@[t] != r@[u],
    {
        proof {
            use_type_invariant(self);
        }
        let mut r: Vec<u64> = Vec::new();
        let n = self.buckets.len();
        let mut b: usize = 0;
        while b < n
            invariant
                Self::buckets_wf(self.buckets@, self.capacity as int),
                n == self.buckets@.len(),
                b <= n,
                forall|t: int| 0 <= t < r@.len() ==> self@.contains_key(#[trigger] r@[t]),
                forall|i: int, e: int|
                    0 <= i < b && 0 <= e < self.buckets@[i]@.len() ==> r@.contains(
                        (#[trigger] self.buckets@[i]@[e]).key,
                    ),
                forall|t: int, u: int| 0 <= t < u < r@.len() ==> r@[t] != r@[u],
                forall|t: int|
                    0 <= t < r@.len() ==> ((#[trigger] r@[t]) as int) % (self.capacity as int) < b,
            decreases n - b,
        {
            let row = &self.buckets[b];
            let m = row.len();
            let mut e: usize = 0;
            while e < m
                invariant
                    Self::buckets_wf(self.buckets@, self.capacity as int),
                    n == self.buckets@.len(),
                    b < n,
                    m == self.buckets@[b as int]@.len(),
                    row@ == self.buckets@[b as int]@,
                    e <= m,
                    forall|t: int| 0 <= t < r@.len() ==> self@.contains_key(#[trigger] r@[t]),
                    forall|i: int, e2: int|
                        0 <= i < b && 0 <= e2 < self.buckets@[i]@.len() ==> r@.contains(
                            (#[trigger] self.buckets@[i]@[e2]).key,
                        ),
                    forall|e2: int|
                        0 <= e2 < e ==> r@.contains((#[trigger] self.buckets@[b as int]@[e2]).key),
                    forall|t: int, u: int| 0 <= t < u < r@.len() ==> r@[t] != r@[u],
                    forall|t: int|
                        0 <= t < r@.len() ==> ((#[trigger] r@[t]) as int) % (self.capacity as int)
                            <= b,
                    forall|t: int|
                        0 <= t < r@.len() && ((#[trigger] r@[t]) as int) % (self.capacity as int)
                            == b ==> exists|e2: int|
                            0 <= e2 < e && (#[trigger] self.buckets@[b as int]@[e2]).key == r@[t],
                decreases m - e,
            {
                let k = row[e].key;
                let ghost pre = r@;
                r.push(k);
                proof {
                    lemma_chain_skip_to_find(row@, e as int);
                    assert(self@.contains_key(k));
                    assert forall|t: int, u: int|
                        0 <= t < u < r@.len() implies r@[t] != r@[u] by {
                        if u == r@.len() - 1 {
                            if (r@[t] as int) % (self.capacity as int) == b as int {
                                let w = choose|e2: int|
                                    0 <= e2 < e && (#[trigger] self.buckets@[b as int]@[e2]).key
                                        == pre[t];
                            }
                        }
                    }
                }
                e += 1;
            }
            b += 1;
        }
        proof {
            assert forall|k: u64| self@.contains_key(k) implies r@.contains(k) by {
                let bi = (k as int) % (self.capacity as int);
                lemma_chain_find_to_index(self.buckets@[bi]@, k);
                let w = choose|e: int|
                    0 <= e < self.buckets@[bi]@.len() && (#[trigger] self.buckets@[bi]@[e]).key
                        == k;
            }
        }
        r
    }

    /// Every stored value, bucket by bucket.
    pub fn values(&self) -> (r: Vec<&V>)
        ensures
            r@.len() == self.spec_len(),
            forall|t: int| 0 <= t < r@.len() ==> stored_value(self@, #[trigger] r@[t]),
    {
        proof {
            use_type_invariant(self);
        }
        let mut r: Vec<&V> = Vec::new();
        let n = self.buckets.len();
        let mut b: usize = 0;
        proof {
            assert(self.buckets@.take(0) =~= Seq::<Vec<Bucket<V>>>::empty());
        }
        while b < n
            invariant
                Self::buckets_wf(self.buckets@, self.capacity as int),
                n == self.buckets@.len(),
                b <= n,
                r@.len() == Self::chain_total(self.buckets@.take(b as int)),
                forall|t: int| 0 <= t < r@.len() ==> stored_value(self@, #[trigger] r@[t]),
            decreases n - b,
        {
            let row = &self.buckets[b];
            let m = row.len();
            let mut e: usize = 0;
            while e < m
                invariant
                    Self::buckets_wf(self.buckets@, self.capacity as int),
                    n == self.buckets@.len(),
                    b < n,
                    m == self.buckets@[b as int]@.len(),
                    row@ == self.buckets@[b as int]@,
                    e <= m,
                    r@.len() == Self::chain_total(self.buckets@.take(b as int)) + e,
                    forall|t: int| 0 <= t < r@.len() ==> stored_value(self@, #[trigger] r@[t]),
                decreases m - e,
            {
                r.push(&row[e].value);
                proof {
                    lemma_chain_skip_to_find(row@, e as int);
                    let k = row@[e as int].key;
                    assert(self@.contains_key(k) && self@[k] == *(r@[r@.len() - 1]));
                    assert(stored_value(self@, r@[r@.len() - 1]));
                }
                e += 1;
            }
            proof {
                assert(self.buckets@.take(b + 1).drop_last() =~= self.buckets@.take(b as int));
                assert(self.buckets@.take(b + 1).last() == self.buckets@[b as int]);
            }
            b += 1;
        }
        proof {
            assert(self.buckets@.take(n as int) =~= self.buckets@);
        }
        r
    }
}

/// Is `v` one of the map's values?
pub open spec fn stored_value<V>(m: Map<u64, V>, v: &V) -> bool {
    exists|k: u64| #[trigger] m.contains_key(k) && m[k] == *v
}

/// If every bucket is empty the total is zero, and conversely.
proof fn lemma_total_of_empties<V>(buckets: Seq<Vec<Bucket<V>>>)
    requires
        forall|j: int| 0 <= j < buckets.len() ==> (#[trigger] buckets[j])@.len() == 0,
    ensures
        HashMap::<V>::chain_total(buckets) == 0,
    decreases buckets.len(),
{
    if buckets.len() > 0 {
        lemma_total_of_empties(buckets.drop_last());
    }
}

/// A zero total forces every bucket empty.
proof fn lemma_total_zero<V>(buckets: Seq<Vec<Bucket<V>>>)
    requires
        HashMap::<V>::chain_total(buckets) == 0,
    ensures
        forall|j: int| 0 <= j < buckets.len() ==> (#[trigger] buckets[j])@.len() == 0,
    decreases buckets.len(),
{
    if buckets.len() > 0 {
        lemma_total_zero(buckets.drop_last());
        assert forall|j: int| 0 <= j < buckets.len() implies (#[trigger] buckets[j])@.len()
            == 0 by {
            if j < buckets.len() - 1 {
                assert(buckets.drop_last()[j] == buckets[j]);
            }
        }
    }
}

/// The total counts each bucket, so one bucket never exceeds it.
proof fn lemma_total_lower_bound<V>(buckets: Seq<Vec<Bucket<V>>>, i: int)
    requires
        0 <= i < buckets.len(),
    ensures
        HashMap::<V>::chain_total(buckets) >= buckets[i]@.len(),
    decreases buckets.len(),
{
    if i == buckets.len() - 1 {
    } else {
        lemma_total_lower_bound(buckets.drop_last(), i);
        assert(buckets.drop_last()[i] == buckets[i]);
    }
}

/// How the total moves when one bucket is replaced.
proof fn lemma_total_update<V>(buckets: Seq<Vec<Bucket<V>>>, i: int, row: Vec<Bucket<V>>)
    requires
        0 <= i < buckets.len(),
    ensures
        HashMap::<V>::chain_total(buckets.update(i, row)) == HashMap::<V>::chain_total(buckets)
            - buckets[i]@.len() + row@.len(),
    decreases buckets.len(),
{
    if i == buckets.len() - 1 {
        assert(buckets.update(i, row).drop_last() =~= buckets.drop_last());
        assert(buckets.update(i, row).last() == row);
    } else {
        lemma_total_update(buckets.drop_last(), i, row);
        assert(buckets.update(i, row).drop_last() =~= buckets.drop_last().update(i, row));
        assert(buckets.update(i, row).last() == buckets.last());
    }
}

/// An entry at index `e` makes the chain lookup of its key succeed.
proof fn lemma_chain_skip_to_find<V>(b: Seq<Bucket<V>>, e: int)
    requires
        0 <= e < b.len(),
        forall|i: int, j: int| 0 <= i < j < b.len() ==> (#[trigger] b[i]).key != (#[trigger] b[j]).key,
    ensures
        chain_find(b, b[e].key) == Some(b[e].value),
    decreases b.len(),
{
    if e == 0 {
    } else {
        lemma_chain_skip_to_find(b.drop_first(), e - 1);
        assert(b.drop_first()[e - 1] == b[e]);
        assert(b[0].key != b[e].key);
    }
}

/// A successful chain lookup points at some stored entry.
proof fn lemma_chain_find_to_index<V>(b: Seq<Bucket<V>>, k: u64)
    requires
        chain_find(b, k) is Some,
    ensures
        exists|e: int| 0 <= e < b.len() && (#[trigger] b[e]).key == k,
    decreases b.len(),
{
    if b.len() > 0 {
        if b[0].key == k {
            assert(b[0].key == k);
        } else {
            lemma_chain_find_to_index(b.drop_first(), k);
            let w = choose|e: int|
                0 <= e < b.drop_first().len() && (#[trigger] b.drop_first()[e]).key == k;
            assert(b[w + 1].key == k);
        }
    }
}

} // verus!
