//! Fixed-capacity LRU cache over an index-addressed slot array.
//!
//! Slots hold the entries; a second array holds the doubly linked recency
//! list (`head` is the most recently used slot, `tail` the least); a stack
//! holds the unused slot indices; a hash map finds the slot of a key.
use std::collections::HashMap;
use std::hash::Hash;
use vstd::prelude::*;
use vstd::std_specs::hash::obeys_key_model;
use vstd::pervasive::VecAdditionalExecFns;

verus! {

/// Neighbours of a slot in the recency list.
#[derive(Clone, Copy)]
struct Link {
    prev: Option<usize>,
    next: Option<usize>,
}

/// The slot before position `i` of `order`.
pub open spec fn prev_in(order: Seq<usize>, i: int) -> Option<usize> {
    if i == 0 {
        None
    } else {
        Some(order[i - 1])
    }
}

/// The slot after position `i` of `order`.
pub open spec fn next_in(order: Seq<usize>, i: int) -> Option<usize> {
    if i + 1 >= order.len() {
        None
    } else {
        Some(order[i + 1])
    }
}

/// `s` with `k` moved to the front.
pub open spec fn promote<K>(s: Seq<K>, k: K) -> Seq<K> {
    seq![k] + s.remove(s.index_of(k))
}

/// One `put` on the model of a cache of capacity `n`: recency order (most
/// recent first), contents, and the evicted entry.
pub open spec fn model_put<K, V>(n: nat, rec: Seq<K>, m: Map<K, V>, k: K, v: V) -> (Seq<K>, Map<K, V>, Option<(K, V)>) {
    if m.contains_key(k) {
        (promote(rec, k), m.insert(k, v), None)
    } else if rec.len() < n {
        (seq![k] + rec, m.insert(k, v), None)
    } else {
        (seq![k] + rec.drop_last(), m.remove(rec.last()).insert(k, v), Some((rec.last(), m[rec.last()])))
    }
}

/// The model after putting `keys[i]` with `vals[i]`, in order, into an
/// empty cache of capacity `n`; the third part is the last eviction.
pub open spec fn run_puts<K, V>(n: nat, keys: Seq<K>, vals: Seq<V>) -> (Seq<K>, Map<K, V>, Option<(K, V)>)
    decreases keys.len(),
{
    if keys.len() == 0 || vals.len() == 0 {
        (Seq::empty(), Map::empty(), None)
    } else {
        let prev = run_puts(n, keys.drop_last(), vals.drop_last());
        model_put(n, prev.0, prev.1, keys.last(), vals.last())
    }
}

/// The model of one more put: putting `k`, `v` after `keys`, `vals` is one
/// `model_put` step from the model of `keys`, `vals`. With `new`'s and
/// `put`'s contracts this carries the model over to a real cache.
pub proof fn lemma_run_puts_step<K, V>(n: nat, keys: Seq<K>, vals: Seq<V>, k: K, v: V)
    requires
        keys.len() == vals.len(),
    ensures
        run_puts(n, keys.push(k), vals.push(v)) == model_put(
            n,
            run_puts(n, keys, vals).0,
            run_puts(n, keys, vals).1,
            k,
            v,
        ),
        run_puts(n, Seq::<K>::empty(), Seq::<V>::empty()) == (Seq::<K>::empty(), Map::<K, V>::empty(), None::<(K, V)>),
{
    assert(keys.push(k).drop_last() =~= keys);
    assert(vals.push(v).drop_last() =~= vals);
}

/// After a put of `v` under `k`, the cache holds `v` under `k`, so a `get`
/// of `k` returns `v`.
pub proof fn lemma_put_then_get<K, V>(n: nat, rec: Seq<K>, m: Map<K, V>, k: K, v: V)
    ensures
        model_put(n, rec, m, k, v).1.contains_key(k),
        model_put(n, rec, m, k, v).1[k] == v,
{
}

/// Up to capacity, distinct keys are all kept, newest first, and nothing
/// is evicted.
pub proof fn lemma_fill<K, V>(n: nat, keys: Seq<K>, vals: Seq<V>)
    requires
        keys.len() == vals.len(),
        keys.len() <= n,
        distinct(keys),
    ensures
        run_puts(n, keys, vals).0 == keys.reverse(),
        run_puts(n, keys, vals).2 is None,
        forall|i: int| 0 <= i < keys.len() ==> #[trigger] run_puts(n, keys, vals).1.contains_key(keys[i])
            && run_puts(n, keys, vals).1[keys[i]] == vals[i],
        forall|k: K| #[trigger] run_puts(n, keys, vals).1.contains_key(k) ==> keys.contains(k),
    decreases keys.len(),
{
    if keys.len() > 0 {
        let ks = keys.drop_last();
        let vs = vals.drop_last();
        assert(distinct(ks));
        lemma_fill(n, ks, vs);
        let prev = run_puts(n, ks, vs);
        let k = keys.last();
        assert(!prev.1.contains_key(k)) by {
            if prev.1.contains_key(k) {
                let j = choose|j: int| 0 <= j < ks.len() && ks[j] == k;
                assert(keys[j] == keys[keys.len() - 1]);
            }
        }
        assert(prev.0.len() == ks.len());
        assert(seq![k] + ks.reverse() =~= keys.reverse());
        let r = run_puts(n, keys, vals);
        assert forall|i: int| 0 <= i < keys.len() implies #[trigger] r.1.contains_key(keys[i]) && r.1[keys[i]] == vals[i] by {
            if i < keys.len() - 1 {
                assert(ks[i] == keys[i]);
                assert(keys[i] != k);
            }
        }
        assert forall|x: K| #[trigger] r.1.contains_key(x) implies keys.contains(x) by {
            if x != k {
                assert(prev.1.contains_key(x));
                let j = choose|j: int| 0 <= j < ks.len() && ks[j] == x;
                assert(keys[j] == x);
            } else {
                assert(keys[keys.len() - 1] == x);
            }
        }
    }
}

/// Putting `n + 1` distinct keys into an empty cache of capacity `n`
/// evicts exactly the first key, with its value, and keeps all others.
pub proof fn lemma_overflow_evicts_first<K, V>(n: nat, keys: Seq<K>, vals: Seq<V>)
    requires
        n > 0,
        keys.len() == vals.len(),
        keys.len() == n + 1,
        distinct(keys),
    ensures
        run_puts(n, keys, vals).2 == Some((keys[0], vals[0])),
        !run_puts(n, keys, vals).1.contains_key(keys[0]),
        forall|i: int| 1 <= i < keys.len() ==> #[trigger] run_puts(n, keys, vals).1.contains_key(keys[i]),
{
    let ks = keys.drop_last();
    let vs = vals.drop_last();
    assert(distinct(ks));
    lemma_fill(n, ks, vs);
    let prev = run_puts(n, ks, vs);
    let k = keys.last();
    assert(!prev.1.contains_key(k)) by {
        if prev.1.contains_key(k) {
            let j = choose|j: int| 0 <= j < ks.len() && ks[j] == k;
            assert(keys[j] == keys[keys.len() - 1]);
        }
    }
    assert(prev.0.last() == keys[0]);
    assert(ks[0] == keys[0]);
    let r = run_puts(n, keys, vals);
    assert(keys[0] != k);
    assert forall|i: int| 1 <= i < keys.len() implies #[trigger] r.1.contains_key(keys[i]) by {
        if i < keys.len() - 1 {
            assert(ks[i] == keys[i]);
            assert(prev.1.contains_key(ks[i]));
            assert(keys[i] != keys[0]);
        }
    }
}

/// A sequence without repeated elements.
pub open spec fn distinct<T>(s: Seq<T>) -> bool {
    forall|i: int, j: int| 0 <= i < s.len() && 0 <= j < s.len() && i != j ==> s[i] != s[j]
}

pub struct LRUCache<K, V, const N: usize> {
    entries: Vec<Option<(K, V)>>,
    links: Vec<Link>,
    map: HashMap<K, usize>,
    free_list: Vec<usize>,
    head: Option<usize>,
    tail: Option<usize>,
    /// Slots in use, most recently used first.
    order: Ghost<Seq<usize>>,
}


impl<K: Copy + Eq + Hash, V, const N: usize> View for LRUCache<K, V, N> {
    type V = Map<K, V>;

    /// The cached key-value pairs.
    closed spec fn view(&self) -> Map<K, V> {
        Map::new(
            |k: K| self.map@.contains_key(k),
            |k: K| self.entries@[self.map@[k] as int]->Some_0.1,
        )
    }
}

impl<K: Copy + Eq + Hash, V, const N: usize> LRUCache<K, V, N> {
    spec fn key_at(&self, idx: usize) -> K {
        self.entries@[idx as int]->Some_0.0
    }

    /// The cached keys, most recently used first.
    pub closed spec fn recency(&self) -> Seq<K> {
        self.order@.map_values(|idx: usize| self.key_at(idx))
    }

    /// Number of unused slots.
    pub closed spec fn free_slots(&self) -> nat {
        self.free_list@.len()
    }

    /// Number of keys in the lookup map.
    pub closed spec fn map_size(&self) -> nat {
        self.map@.len()
    }

    /// Slot of the most recently used entry.
    pub closed spec fn head_slot(&self) -> Option<usize> {
        self.head
    }

    /// Slot of the least recently used entry.
    pub closed spec fn tail_slot(&self) -> Option<usize> {
        self.tail
    }

    /// Well-formedness: the list, the map, the slots and the free stack agree.
    pub closed spec fn inv(&self) -> bool {
        let order = self.order@;
        &&& N > 0
        &&& obeys_key_model::<K>()
        &&& self.entries@.len() == N
        &&& self.linked()
        &&& forall|i: int|
            0 <= i < order.len() ==> {
                &&& (#[trigger] self.entries@[order[i] as int]) is Some
                &&& self.map@.contains_key(self.key_at(order[i]))
                &&& self.map@[self.key_at(order[i])] == order[i]
            }
        &&& forall|k: K|
            #[trigger] self.map@.contains_key(k) ==> {
                &&& (self.map@[k] as int) < N
                &&& self.entries@[self.map@[k] as int] is Some
                &&& self.key_at(self.map@[k]) == k
                &&& order.contains(self.map@[k])
            }
        &&& forall|j: int|
            0 <= j < self.free_list@.len() ==> {
                &&& (#[trigger] self.free_list@[j] as int) < N
                &&& self.entries@[self.free_list@[j] as int] is None
            }
        &&& distinct(self.free_list@)
        &&& self.free_list@.len() + order.len() == N
        &&& self.map@.len() == order.len()
    }


    /// Position of the slot of key `k` in the recency list.
    proof fn lemma_position(&self, k: K) -> (p: int)
        requires
            self.inv(),
            self.map@.contains_key(k),
        ensures
            0 <= p < self.order@.len(),
            self.order@[p] == self.map@[k],
            self.recency()[p] == k,
            self.recency().index_of(k) == p,
            self.recency().len() == self.order@.len(),
    {
        let p = choose|p: int| 0 <= p < self.order@.len() && self.order@[p] == self.map@[k];
        let r = self.recency();
        assert(r[p] == k);
        let q = r.index_of(k);
        assert(r.contains(k));
        assert(0 <= q < r.len() && r[q] == k);
        assert(self.entries@[self.order@[q] as int] is Some);
        assert(self.map@[self.key_at(self.order@[q])] == self.order@[q]);
        p
    }


    /// The value cached under `key`; a hit makes `key` the most recently used.
    pub fn get(&mut self, key: K) -> (r: Option<&V>)
        requires
            old(self).inv(),
        ensures
            final(self).inv(),
            final(self)@ == old(self)@,
            match r {
                Some(v) => {
                    &&& old(self)@.contains_key(key)
                    &&& *v == old(self)@[key]
                    &&& final(self).recency() == promote(old(self).recency(), key)
                },
                None => {
                    &&& !old(self)@.contains_key(key)
                    &&& final(self).recency() == old(self).recency()
                },
            },
    {
        match self.map.get(&key) {
            Some(i) => {
                let idx: usize = *i;
                let ghost p = self.lemma_position(key);
                self.move_to_front(idx, Ghost(p));
                proof {
                    self.lemma_recency_after_move(*old(self), key, p);
                    assert(self@ =~= old(self)@);
                }
                match &self.entries[idx] {
                    Some(e) => Some(&e.1),
                    None => None,
                }
            },
            None => None,
        }
    }

    proof fn lemma_recency_after_move(&self, before: Self, key: K, p: int)
        requires
            before.inv(),
            0 <= p < before.order@.len(),
            before.order@[p] == before.map@[key],
            before.recency()[p] == key,
            before.recency().index_of(key) == p,
            self.entries == before.entries,
            self.order@ == seq![before.order@[p]] + before.order@.remove(p),
        ensures
            self.recency() == promote(before.recency(), key),
    {
        assert(self.recency() =~= promote(before.recency(), key));
    }

    /// Removes `key` and hands back its entry.
    pub fn pop(&mut self, key: &K) -> (r: Option<(K, V)>)
        requires
            old(self).inv(),
        ensures
            final(self).inv(),
            final(self)@ == old(self)@.remove(*key),
            match r {
                Some(e) => {
                    &&& old(self)@.contains_key(*key)
                    &&& e == (*key, old(self)@[*key])
                    &&& final(self).recency() == old(self).recency().remove(
                        old(self).recency().index_of(*key),
                    )
                },
                None => {
                    &&& !old(self)@.contains_key(*key)
                    &&& final(self).recency() == old(self).recency()
                },
            },
    {
        if !self.map.contains_key(key) {
            proof {
                assert(self@ =~= old(self)@.remove(*key));
            }
            return None;
        }
        let ghost p = self.lemma_position(*key);
        let ghost before = *self;
        let idx = match self.map.remove(key) {
            Some(i) => i,
            None => {
                return None;
            },
        };
        self.detach(idx, Ghost(p));
        let e = self.release(idx, Ghost(p), Ghost(before));
        proof {
            assert(self@ =~= old(self)@.remove(*key));
            assert(self.recency() =~= old(self).recency().remove(p));
        }
        Some(e)
    }

    /// Takes the entry out of slot `idx`, already unlinked from position `p`
    /// and dropped from the map, and puts the slot back on the free stack.
    fn release(&mut self, idx: usize, Ghost(p): Ghost<int>, Ghost(before): Ghost<Self>) -> (e: (K, V))
        requires
            before.inv(),
            0 <= p < before.order@.len(),
            before.order@[p] == idx,
            old(self).linked(),
            old(self).order@ == before.order@.remove(p),
            old(self).entries == before.entries,
            old(self).free_list == before.free_list,
            old(self).map@ == before.map@.remove(before.key_at(idx)),
        ensures
            final(self).inv(),
            e == (before.key_at(idx), before@[before.key_at(idx)]),
            final(self).order == old(self).order,
            final(self).map == old(self).map,
            forall|k: K| #[trigger] final(self).map@.contains_key(k) ==> final(self).key_at(final(self).map@[k]) == before.key_at(before.map@[k]) && final(self).entries@[final(self).map@[k] as int] == before.entries@[before.map@[k] as int],
            forall|i: int| 0 <= i < final(self).order@.len() ==> (#[trigger] final(self).entries@[final(self).order@[i] as int]) == before.entries@[final(self).order@[i] as int],
    {
        let ghost o = before.order@;
        let ghost no = self.order@;
        let ghost k0 = before.key_at(idx);
        let mut slot: Option<(K, V)> = None;
        self.entries.set_and_swap(idx, &mut slot);
        self.free_list.push(idx);
        proof {
            assert(before.map@.contains_key(k0));
            assert forall|i: int| 0 <= i < no.len() implies no[i] != idx by {
                let a = if i < p { i } else { i + 1 };
                assert(no[i] == o[a]);
            }
            assert forall|i: int| 0 <= i < no.len() implies {
                &&& (#[trigger] self.entries@[no[i] as int]) is Some
                &&& self.map@.contains_key(self.key_at(no[i]))
                &&& self.map@[self.key_at(no[i])] == no[i]
            } by {
                let a = if i < p { i } else { i + 1 };
                assert(no[i] == o[a]);
                assert(a != p);
                assert(before.key_at(o[a]) != k0);
            }
            assert forall|k: K| #[trigger] self.map@.contains_key(k) implies {
                &&& (self.map@[k] as int) < N
                &&& self.entries@[self.map@[k] as int] is Some
                &&& self.key_at(self.map@[k]) == k
                &&& no.contains(self.map@[k])
            } by {
                assert(before.map@.contains_key(k));
                let j = choose|j: int| 0 <= j < o.len() && o[j] == before.map@[k];
                assert(j != p);
                if j < p {
                    assert(no[j] == o[j]);
                } else {
                    assert(no[j - 1] == o[j]);
                }
            }
            assert forall|j: int| 0 <= j < self.free_list@.len() implies {
                &&& (#[trigger] self.free_list@[j] as int) < N
                &&& self.entries@[self.free_list@[j] as int] is None
            } by {
                if j < before.free_list@.len() {
                    assert(self.free_list@[j] == before.free_list@[j]);
                    assert(before.entries@[before.free_list@[j] as int] is None);
                }
            }
            assert(distinct(self.free_list@)) by {
                assert forall|i: int, j: int|
                    0 <= i < self.free_list@.len() && 0 <= j < self.free_list@.len() && i != j
                    implies self.free_list@[i] != self.free_list@[j] by {
                    if i < before.free_list@.len() {
                        assert(before.entries@[before.free_list@[i] as int] is None);
                    }
                    if j < before.free_list@.len() {
                        assert(before.entries@[before.free_list@[j] as int] is None);
                    }
                }
            }
        }
        slot.unwrap()
    }



    /// Every slot is either in use (one per cached key) or free, and the
    /// list has a head and a tail exactly when the cache holds something.
    pub proof fn lemma_slots_accounted(&self)
        requires
            self.inv(),
        ensures
            self.map_size() + self.free_slots() == N,
            self.head_slot() is None <==> self@.len() == 0,
            self.tail_slot() is None <==> self@.len() == 0,
    {
        self.lemma_sizes();
    }

    /// Size facts of a well-formed cache.
    pub proof fn lemma_sizes(&self)
        requires
            self.inv(),
        ensures
            self@.len() == self.map_size(),
            self@.len() == self.recency().len(),
            self@.len() <= N,
            self.map_size() + self.free_slots() == N,
            distinct(self.recency()),
            forall|i: int| 0 <= i < self.recency().len() ==> self@.contains_key(#[trigger] self.recency()[i]),
            forall|k: K| #[trigger] self@.contains_key(k) ==> self.recency().contains(k),
    {
        assert(self@.dom() =~= self.map@.dom());
        let r = self.recency();
        assert forall|i: int| 0 <= i < r.len() implies self@.contains_key(#[trigger] r[i]) by {
            assert(self.entries@[self.order@[i] as int] is Some);
        }
        assert forall|k: K| #[trigger] self@.contains_key(k) implies r.contains(k) by {
            let p = self.lemma_position(k);
        }
        assert(distinct(r)) by {
            assert forall|i: int, j: int| 0 <= i < r.len() && 0 <= j < r.len() && i != j implies r[i] != r[j] by {
                assert(self.entries@[self.order@[i] as int] is Some);
                assert(self.entries@[self.order@[j] as int] is Some);
            }
        }
    }

    /// Evicts the least recently used entry.
    fn evict(&mut self) -> (r: Option<(K, V)>)
        requires
            old(self).inv(),
            old(self).order@.len() > 0,
        ensures
            final(self).inv(),
            r == Some((old(self).recency().last(), old(self)@[old(self).recency().last()])),
            final(self)@ == old(self)@.remove(old(self).recency().last()),
            final(self).recency() == old(self).recency().drop_last(),
    {
        let ghost before = *self;
        let ghost p = self.order@.len() - 1;
        let idx = match self.tail {
            Some(t) => t,
            None => {
                return None;
            },
        };
        let key = match &self.entries[idx] {
            Some(e) => e.0,
            None => {
                return None;
            },
        };
        let ghost q = self.lemma_position(key);
        proof {
            assert(self.order@[p] == idx);
            assert(self.map@[key] == idx);
            assert(q == p);
        }
        self.map.remove(&key);
        self.detach(idx, Ghost(p));
        let e = self.release(idx, Ghost(p), Ghost(before));
        proof {
            assert(self@ =~= before@.remove(key));
            assert(self.recency() =~= before.recency().drop_last());
        }
        Some(e)
    }

    /// Puts a new key into a free slot at the front of the recency list.
    fn occupy(&mut self, key: K, value: V)
        requires
            old(self).inv(),
            !old(self)@.contains_key(key),
            old(self).order@.len() < N,
        ensures
            final(self).inv(),
            final(self)@ == old(self)@.insert(key, value),
            final(self).recency() == seq![key] + old(self).recency(),
    {
        let ghost before = *self;
        let ghost o = self.order@;
        let idx = self.free_list.pop().unwrap();
        proof {
            assert(before.free_list@[before.free_list@.len() - 1] == idx);
            assert(!o.contains(idx)) by {
                if o.contains(idx) {
                    let j = choose|j: int| 0 <= j < o.len() && o[j] == idx;
                    assert(before.entries@[o[j] as int] is Some);
                }
            }
        }
        let mut slot = Some((key, value));
        self.entries.set_and_swap(idx, &mut slot);
        self.attach_front(idx);
        self.map.insert(key, idx);
        proof {
            let no = self.order@;
            assert(!before.map@.contains_key(key));
            assert forall|i: int| 0 <= i < no.len() implies {
                &&& (#[trigger] self.entries@[no[i] as int]) is Some
                &&& self.map@.contains_key(self.key_at(no[i]))
                &&& self.map@[self.key_at(no[i])] == no[i]
            } by {
                if i > 0 {
                    assert(no[i] == o[i - 1]);
                    assert(o[i - 1] != idx);
                    assert(before.entries@[o[i - 1] as int] is Some);
                }
            }
            assert forall|k: K| #[trigger] self.map@.contains_key(k) implies {
                &&& (self.map@[k] as int) < N
                &&& self.entries@[self.map@[k] as int] is Some
                &&& self.key_at(self.map@[k]) == k
                &&& no.contains(self.map@[k])
            } by {
                if k == key {
                    assert(no[0] == idx);
                } else {
                    assert(before.map@.contains_key(k));
                    let j = choose|j: int| 0 <= j < o.len() && o[j] == before.map@[k];
                    assert(no[j + 1] == o[j]);
                    assert(o[j] != idx);
                }
            }
            assert forall|j: int| 0 <= j < self.free_list@.len() implies {
                &&& (#[trigger] self.free_list@[j] as int) < N
                &&& self.entries@[self.free_list@[j] as int] is None
            } by {
                assert(self.free_list@[j] == before.free_list@[j]);
                assert(before.free_list@[j] != idx);
            }
            assert(distinct(self.free_list@)) by {
                assert forall|i: int, j: int|
                    0 <= i < self.free_list@.len() && 0 <= j < self.free_list@.len() && i != j
                    implies self.free_list@[i] != self.free_list@[j] by {
                    assert(self.free_list@[i] == before.free_list@[i]);
                    assert(self.free_list@[j] == before.free_list@[j]);
                }
            }
            assert(self@ =~= before@.insert(key, value)) by {
                assert forall|k: K| #[trigger] self.map@.contains_key(k) && k != key implies self.map@[k] == before.map@[k] by {}
            }
            assert(self.recency() =~= seq![key] + before.recency()) by {
                assert forall|i: int| 1 <= i < no.len() implies #[trigger] self.entries@[no[i] as int] == before.entries@[no[i] as int] by {
                    assert(no[i] == o[i - 1]);
                }
            }
        }
    }

    /// Caches `value` under `key` and makes `key` the most recently used.
    ///
    /// Returns the evicted entry, if any, and whether `key` was already
    /// cached: a cached key has its value replaced and nothing is evicted;
    /// a new key on a full cache evicts the least recently used entry.
    pub fn put(&mut self, key: K, value: V) -> (r: (Option<(K, V)>, bool))
        requires
            old(self).inv(),
        ensures
            final(self).inv(),
            (final(self).recency(), final(self)@, r.0) == model_put(
                N as nat,
                old(self).recency(),
                old(self)@,
                key,
                value,
            ),
            r.1 == old(self)@.contains_key(key),
    {
        let ghost before = *self;
        proof {
            self.lemma_sizes();
        }
        match self.map.get(&key) {
            Some(i) => {
                let idx: usize = *i;
                let ghost p = self.lemma_position(key);
                let mut slot = Some((key, value));
                self.entries.set_and_swap(idx, &mut slot);
                proof {
                    let o = self.order@;
                    assert forall|i: int| 0 <= i < o.len() implies {
                        &&& (#[trigger] self.entries@[o[i] as int]) is Some
                        &&& self.map@.contains_key(self.key_at(o[i]))
                        &&& self.map@[self.key_at(o[i])] == o[i]
                    } by {
                        assert(before.entries@[o[i] as int] is Some);
                    }
                    assert forall|j: int| 0 <= j < self.free_list@.len() implies {
                        &&& (#[trigger] self.free_list@[j] as int) < N
                        &&& self.entries@[self.free_list@[j] as int] is None
                    } by {
                        assert(before.entries@[before.free_list@[j] as int] is None);
                    }
                    assert(self.recency() =~= before.recency());
                    assert(self.recency().index_of(key) == p);
                }
                self.move_to_front(idx, Ghost(p));
                proof {
                    assert(self.recency() =~= promote(before.recency(), key));
                    assert(self@ =~= before@.insert(key, value));
                }
                (None, true)
            },
            None => {
                if self.map.len() == N {
                    let evicted = self.evict();
                    proof {
                        self.lemma_sizes();
                        let lru = before.recency().last();
                        assert(before@.contains_key(lru));
                        assert(self@.len() < N) by {
                            assert(self@.dom() =~= before@.dom().remove(lru));
                        }
                    }
                    self.occupy(key, value);
                    (evicted, false)
                } else {
                    self.occupy(key, value);
                    (None, false)
                }
            },
        }
    }

    /// Moves the slot at position `p` to the front of the recency list.
    fn move_to_front(&mut self, idx: usize, Ghost(p): Ghost<int>)
        requires
            old(self).inv(),
            0 <= p < old(self).order@.len(),
            old(self).order@[p] == idx,
        ensures
            final(self).inv(),
            final(self).order@ == seq![idx] + old(self).order@.remove(p),
            final(self).entries == old(self).entries,
            final(self).map == old(self).map,
    {
        let ghost o = self.order@;
        if self.head == Some(idx) {
            assert(p == 0);
            assert(seq![idx] + o.remove(0) =~= o);
            return;
        }
        self.detach(idx, Ghost(p));
        proof {
            assert(!self.order@.contains(idx)) by {
                if self.order@.contains(idx) {
                    let j = choose|j: int| 0 <= j < self.order@.len() && self.order@[j] == idx;
                    let a = if j < p { j } else { j + 1 };
                    assert(o[a] == idx);
                }
            }
        }
        self.attach_front(idx);
        let ghost no = self.order@;
        proof {
            assert forall|x: usize| no.contains(x) <==> o.contains(x) by {
                if no.contains(x) {
                    let j = choose|j: int| 0 <= j < no.len() && no[j] == x;
                    if j == 0 {
                        assert(o[p] == x);
                    } else {
                        let a = if j - 1 < p { j - 1 } else { j };
                        assert(o[a] == x);
                    }
                }
                if o.contains(x) {
                    let j = choose|j: int| 0 <= j < o.len() && o[j] == x;
                    if j == p {
                        assert(no[0] == x);
                    } else if j < p {
                        assert(no[j + 1] == x);
                    } else {
                        assert(no[j] == x);
                    }
                }
            }
            assert forall|i: int| 0 <= i < no.len() implies {
                &&& (#[trigger] self.entries@[no[i] as int]) is Some
                &&& self.map@.contains_key(self.key_at(no[i]))
                &&& self.map@[self.key_at(no[i])] == no[i]
            } by {
                assert(no.contains(no[i]));
                let j = choose|j: int| 0 <= j < o.len() && o[j] == no[i];
            }
        }
    }

    /// An empty cache with `N` free slots.
    pub fn new() -> (r: Self)
        requires
            N > 0,
            obeys_key_model::<K>(),
        ensures
            r.inv(),
            r@ == Map::<K, V>::empty(),
            r.recency() == Seq::<K>::empty(),
    {
        let mut entries: Vec<Option<(K, V)>> = Vec::with_capacity(N);
        let mut links: Vec<Link> = Vec::with_capacity(N);
        let mut free_list: Vec<usize> = Vec::with_capacity(N);
        let mut i: usize = 0;
        while i < N
            invariant
                i <= N,
                entries@.len() == i,
                links@.len() == i,
                free_list@.len() == i,
                forall|j: int| 0 <= j < i ==> (#[trigger] entries@[j]) is None,
                forall|j: int| 0 <= j < i ==> #[trigger] free_list@[j] == N - 1 - j,
            decreases N - i,
        {
            entries.push(None);
            links.push(Link { prev: None, next: None });
            free_list.push(N - 1 - i);
            i = i + 1;
        }
        let r = LRUCache {
            entries,
            links,
            map: HashMap::new(),
            free_list,
            head: None,
            tail: None,
            order: Ghost(Seq::empty()),
        };
        assert(r@ =~= Map::<K, V>::empty());
        assert(r.recency() =~= Seq::<K>::empty());
        r
    }

    /// An empty cache on the heap.
    pub fn new_boxed() -> (r: Box<Self>)
        requires
            N > 0,
            obeys_key_model::<K>(),
        ensures
            r.inv(),
            r@ == Map::<K, V>::empty(),
            r.recency() == Seq::<K>::empty(),
    {
        Box::new(Self::new())
    }

    /// Whether `key` is cached; the recency order is left as it is.
    pub fn contains(&self, key: K) -> (r: bool)
        requires
            self.inv(),
        ensures
            r == self@.contains_key(key),
    {
        self.map.contains_key(&key)
    }

    /// The links, `head` and `tail` describe exactly the list `order`.
    spec fn linked(&self) -> bool {
        let order = self.order@;
        &&& self.links@.len() == N
        &&& forall|i: int| 0 <= i < order.len() ==> (#[trigger] order[i] as int) < N
        &&& distinct(order)
        &&& forall|i: int|
            0 <= i < order.len() ==> {
                &&& (#[trigger] self.links@[order[i] as int]).prev == prev_in(order, i)
                &&& self.links@[order[i] as int].next == next_in(order, i)
            }
        &&& self.head == (if order.len() == 0 {
            None
        } else {
            Some(order[0])
        })
        &&& self.tail == (if order.len() == 0 {
            None
        } else {
            Some(order.last())
        })
    }

    /// Unlinks the slot at position `p` of the recency list.
    fn detach(&mut self, idx: usize, Ghost(p): Ghost<int>)
        requires
            old(self).linked(),
            0 <= p < old(self).order@.len(),
            old(self).order@[p] == idx,
        ensures
            final(self).linked(),
            final(self).order@ == old(self).order@.remove(p),
            final(self).entries == old(self).entries,
            final(self).map == old(self).map,
            final(self).free_list == old(self).free_list,
    {
        let ghost o = self.order@;
        let link = self.links[idx];
        assert(self.links@[o[p] as int] == link);
        match link.prev {
            Some(pr) => {
                let l = self.links[pr];
                self.links.set(pr, Link { prev: l.prev, next: link.next });
            },
            None => {
                self.head = link.next;
            },
        }
        match link.next {
            Some(nx) => {
                assert(nx == o[p + 1]);
                assert(nx != idx);
                let l = self.links[nx];
                self.links.set(nx, Link { prev: link.prev, next: l.next });
            },
            None => {
                self.tail = link.prev;
            },
        }
        let ghost no = o.remove(p);
        self.order = Ghost(no);
        assert forall|i: int| 0 <= i < no.len() implies {
            &&& (#[trigger] self.links@[no[i] as int]).prev == prev_in(no, i)
            &&& self.links@[no[i] as int].next == next_in(no, i)
        } by {
            if i < p {
                assert(no[i] == o[i]);
            } else {
                assert(no[i] == o[i + 1]);
            }
        }
        assert(distinct(no)) by {
            assert forall|i: int, j: int|
                0 <= i < no.len() && 0 <= j < no.len() && i != j implies no[i] != no[j] by {
                let a = if i < p { i } else { i + 1 };
                let b = if j < p { j } else { j + 1 };
                assert(no[i] == o[a] && no[j] == o[b]);
            }
        }
        assert forall|i: int| 0 <= i < no.len() implies (#[trigger] no[i] as int) < N by {
            if i < p {
                assert(no[i] == o[i]);
            } else {
                assert(no[i] == o[i + 1]);
            }
        }
    }

    /// Links slot `idx`, which is not in the recency list, at its front.
    fn attach_front(&mut self, idx: usize)
        requires
            old(self).linked(),
            idx < N,
            !old(self).order@.contains(idx),
        ensures
            final(self).linked(),
            final(self).order@ == seq![idx] + old(self).order@,
            final(self).entries == old(self).entries,
            final(self).map == old(self).map,
            final(self).free_list == old(self).free_list,
    {
        let ghost o = self.order@;
        let old_head = self.head;
        self.links.set(idx, Link { prev: None, next: old_head });
        match old_head {
            Some(h) => {
                assert(h == o[0]);
                let l = self.links[h];
                self.links.set(h, Link { prev: Some(idx), next: l.next });
            },
            None => {
                self.tail = Some(idx);
            },
        }
        self.head = Some(idx);
        let ghost no = seq![idx] + o;
        self.order = Ghost(no);
        assert forall|i: int| 0 <= i < no.len() implies {
            &&& (#[trigger] self.links@[no[i] as int]).prev == prev_in(no, i)
            &&& self.links@[no[i] as int].next == next_in(no, i)
        } by {
            if i > 0 {
                assert(no[i] == o[i - 1]);
                assert(o[i - 1] != idx);
            }
        }
        assert(distinct(no)) by {
            assert forall|i: int, j: int|
                0 <= i < no.len() && 0 <= j < no.len() && i != j implies no[i] != no[j] by {
                if i > 0 && j > 0 {
                    assert(no[i] == o[i - 1] && no[j] == o[j - 1]);
                } else if i > 0 {
                    assert(no[i] == o[i - 1]);
                } else {
                    assert(no[j] == o[j - 1]);
                }
            }
        }
        assert forall|i: int| 0 <= i < no.len() implies (#[trigger] no[i] as int) < N by {
            if i > 0 {
                assert(no[i] == o[i - 1]);
            }
        }
        proof {
            if o.len() > 0 {
                assert(no.last() == o.last());
            }
        }
    }
}

} // verus!
