//! Bounded double-ended priority buffer: keeps fewer than `N` items, hands
//! back the smallest when a push fills it, and drains largest first.
use vstd::multiset::Multiset;
use min_max_heap::MinMaxHeap as RawHeap;
use vstd::prelude::*;

verus! {

#[verifier::external_type_specification]
#[verifier::external_body]
#[verifier::reject_recursive_types(T)]
pub struct ExMinMaxHeap<T>(RawHeap<T>);

/// The items held by a heap of the `min_max_heap` crate.
pub uninterp spec fn heap_items(h: RawHeap<u64>) -> Multiset<u64>;

/// Relies on min_max_heap::MinMaxHeap::with_capacity: the new heap is empty.
#[verifier::external_body]
fn heap_with_capacity(n: usize) -> (r: RawHeap<u64>)
    ensures
        heap_items(r) == Multiset::<u64>::empty(),
{
    RawHeap::with_capacity(n)
}

/// Relies on min_max_heap::MinMaxHeap::len: the number of items held.
#[verifier::external_body]
fn heap_len(h: &RawHeap<u64>) -> (r: usize)
    ensures
        r == heap_items(*h).len(),
{
    h.len()
}

/// Relies on min_max_heap::MinMaxHeap::push: adds one item.
#[verifier::external_body]
fn heap_push(h: &mut RawHeap<u64>, x: u64)
    ensures
        heap_items(*final(h)) == heap_items(*old(h)).insert(x),
{
    h.push(x)
}

/// Relies on min_max_heap::MinMaxHeap::pop_min: removes a smallest item.
#[verifier::external_body]
fn heap_pop_min(h: &mut RawHeap<u64>) -> (r: Option<u64>)
    ensures
        match r {
            None => heap_items(*old(h)).len() == 0 && heap_items(*final(h)) == heap_items(*old(h)),
            Some(m) => {
                &&& heap_items(*old(h)).count(m) > 0
                &&& forall|x: u64| heap_items(*old(h)).count(x) > 0 ==> m <= x
                &&& heap_items(*final(h)) == heap_items(*old(h)).remove(m)
            },
        },
{
    h.pop_min()
}

/// Relies on min_max_heap::MinMaxHeap::pop_max: removes a largest item.
#[verifier::external_body]
fn heap_pop_max(h: &mut RawHeap<u64>) -> (r: Option<u64>)
    ensures
        match r {
            None => heap_items(*old(h)).len() == 0 && heap_items(*final(h)) == heap_items(*old(h)),
            Some(m) => {
                &&& heap_items(*old(h)).count(m) > 0
                &&& forall|x: u64| heap_items(*old(h)).count(x) > 0 ==> x <= m
                &&& heap_items(*final(h)) == heap_items(*old(h)).remove(m)
            },
        },
{
    h.pop_max()
}

/// `m` is a smallest item of `s`.
pub open spec fn is_min(s: Multiset<u64>, m: u64) -> bool {
    s.count(m) > 0 && forall|x: u64| s.count(x) > 0 ==> m <= x
}

/// `m` is a largest item of `s`.
pub open spec fn is_max(s: Multiset<u64>, m: u64) -> bool {
    s.count(m) > 0 && forall|x: u64| s.count(x) > 0 ==> x <= m
}

/// Every item of `s` is at most `bound`.
pub open spec fn all_at_most(s: Multiset<u64>, bound: u64) -> bool {
    forall|x: u64| s.count(x) > 0 ==> x <= bound
}

/// `v` does not increase from one item to the next.
pub open spec fn non_increasing(v: Seq<u64>) -> bool {
    forall|i: int, j: int| 0 <= i <= j < v.len() ==> v[j] <= v[i]
}

pub struct MinMaxHeap<const N: usize> {
    inner: RawHeap<u64>,
}

impl<const N: usize> View for MinMaxHeap<N> {
    type V = Multiset<u64>;

    closed spec fn view(&self) -> Multiset<u64> {
        heap_items(self.inner)
    }
}

impl<const N: usize> MinMaxHeap<N> {
    /// Between calls the heap holds at most `N - 1` items.
    pub open spec fn inv(&self) -> bool {
        0 < N && self@.len() < N
    }

    /// An empty heap.
    pub fn new() -> (r: Self)
        requires
            N > 0,
        ensures
            r.inv(),
            r@ == Multiset::<u64>::empty(),
    {
        MinMaxHeap { inner: heap_with_capacity(N) }
    }

    /// Inserts `value`; when that brings the heap to `N` items, a smallest
    /// item is removed and returned.
    pub fn push(&mut self, value: u64) -> (r: Option<u64>)
        requires
            old(self).inv(),
        ensures
            final(self).inv(),
            old(self)@.len() + 1 < N ==> r is None && final(self)@ == old(self)@.insert(value),
            old(self)@.len() + 1 == N ==> {
                &&& r is Some
                &&& is_min(old(self)@.insert(value), r->Some_0)
                &&& final(self)@ == old(self)@.insert(value).remove(r->Some_0)
            },
    {
        heap_push(&mut self.inner, value);
        if heap_len(&self.inner) == N {
            heap_pop_min(&mut self.inner)
        } else {
            None
        }
    }

    /// Removes and returns a largest item.
    pub fn pop_max(&mut self) -> (r: Option<u64>)
        requires
            old(self).inv(),
        ensures
            final(self).inv(),
            match r {
                None => old(self)@.len() == 0 && final(self)@ == old(self)@,
                Some(m) => is_max(old(self)@, m) && final(self)@ == old(self)@.remove(m),
            },
    {
        heap_pop_max(&mut self.inner)
    }

    /// Empties the heap, largest items first.
    pub fn get_max_values(&mut self) -> (r: Vec<u64>)
        requires
            old(self).inv(),
        ensures
            final(self).inv(),
            final(self)@.len() == 0,
            r@.to_multiset() == old(self)@,
            non_increasing(r@),
    {
        let mut out: Vec<u64> = Vec::new();
        proof {
            out@.to_multiset_ensures();
            assert(out@.to_multiset() =~= Multiset::<u64>::empty());
            assert(out@.to_multiset().add(self@) =~= self@);
        }
        loop
            invariant
                self.inv(),
                out@.to_multiset().add(self@) == old(self)@,
                non_increasing(out@),
                out@.len() > 0 ==> all_at_most(self@, out@.last()),
            decreases self@.len(),
        {
            let ghost before = self@;
            match self.pop_max() {
                Some(m) => {
                    proof {
                        let o = out@;
                        assert(o.push(m).to_multiset() =~= o.to_multiset().insert(m)) by {
                            o.to_multiset_ensures();
                            o.push(m).to_multiset_ensures();
                        }
                        assert(o.to_multiset().insert(m).add(before.remove(m)) =~= o.to_multiset().add(before));
                    }
                    out.push(m);
                },
                None => {
                    proof {
                        assert(self@ =~= Multiset::<u64>::empty());
                        assert(out@.to_multiset().add(self@) =~= out@.to_multiset());
                    }
                    return out;
                },
            }
        }
    }

    /// Number of items held.
    pub fn len(&self) -> (r: usize)
        ensures
            r == self@.len(),
    {
        heap_len(&self.inner)
    }
}

} // verus!
