//! Holds scored transactions and, on each send tick, hands out the
//! highest-scoring ones whose signatures were not seen recently.
use crate::lru::LRUCache;
use crate::minmax::{all_at_most, is_min, MinMaxHeap};
use crate::packet::Packet;
use crate::pipeline::Stats;
use std::collections::HashMap;
use vstd::multiset::Multiset;
use vstd::prelude::*;

verus! {

/// A transaction ready to send, ordered by `score` alone: the order key
/// of its value, a larger key for a better transaction.
#[derive(Clone, Copy)]
pub struct ScoredTransaction {
    pub score: u64,
    pub sig_key: u64,
    pub packet: Packet,
    pub ipv4: u32,
}

/// Sign bit of a double.
pub const SIGN_BIT: u64 = 0x8000_0000_0000_0000;

/// The order key of the double with bit pattern `bits`: negative doubles
/// have all bits flipped, others the sign bit set, so that the order of the
/// keys is the IEEE-754 total order of the doubles.
pub open spec fn order_key_of(bits: u64) -> u64 {
    if bits & SIGN_BIT != 0 {
        !bits
    } else {
        bits | SIGN_BIT
    }
}

pub fn order_key(bits: u64) -> (r: u64)
    ensures
        r == order_key_of(bits),
{
    if bits & SIGN_BIT != 0 {
        !bits
    } else {
        bits | SIGN_BIT
    }
}

/// `x + n`, held at `usize::MAX`.
pub open spec fn sat_add(x: usize, n: nat) -> usize {
    if x + n > usize::MAX {
        usize::MAX
    } else {
        (x + n) as usize
    }
}

/// `k` is among the recent signature keys.
pub open spec fn is_recent<const SIG_CACHE_SIZE: usize>(
    recent_signatures: Option<&LRUCache<u64, (), SIG_CACHE_SIZE>>,
    k: u64,
) -> bool {
    recent_signatures matches Some(rs) && rs@.contains_key(k)
}

/// A drain that handed out `out` and dropped `dropped`: together with what
/// is still held they are what was held; each dropped transaction had a
/// recent signature key, and each counts as recently processed.
pub open spec fn drained<const SIG_CACHE_SIZE: usize>(
    old_held: Multiset<ScoredTransaction>,
    new_held: Multiset<ScoredTransaction>,
    out: Seq<ScoredTransaction>,
    dropped: Seq<ScoredTransaction>,
    recent_signatures: Option<&LRUCache<u64, (), SIG_CACHE_SIZE>>,
    old_stats: Stats,
    new_stats: Stats,
) -> bool {
    &&& old_held == new_held.add(out.to_multiset()).add(dropped.to_multiset())
    &&& forall|i: int| 0 <= i < dropped.len() ==> is_recent(recent_signatures, #[trigger] dropped[i].sig_key)
    &&& new_stats == (Stats {
        recently_processed_queued: sat_add(old_stats.recently_processed_queued, dropped.len()),
        ..old_stats
    })
}

/// Capacity of the priority buffer; it holds one less between calls.
pub const QUEUE_CAPACITY: usize = 16384;

/// Milliseconds between two sends.
pub const SEND_INTERVAL_MS: u64 = 100;

pub struct TransactionContainer {
    priority_queue_heap: MinMaxHeap<QUEUE_CAPACITY>,
    /// The transactions of each score key held in the heap.
    buckets: HashMap<u64, Vec<ScoredTransaction>>,
    max_send: usize,
    /// The transactions held, as a multiset.
    held: Ghost<Multiset<ScoredTransaction>>,
}

/// Scores of a sequence of transactions.
pub open spec fn scores_of(v: Seq<ScoredTransaction>) -> Seq<u64> {
    v.map_values(|t: ScoredTransaction| t.score)
}

impl TransactionContainer {
    spec fn bucket_len(&self, k: u64) -> nat {
        if self.buckets@.contains_key(k) {
            self.buckets@[k]@.len()
        } else {
            0
        }
    }

    spec fn bucket_items(&self, k: u64) -> Multiset<ScoredTransaction> {
        if self.buckets@.contains_key(k) {
            self.buckets@[k]@.to_multiset()
        } else {
            Multiset::empty()
        }
    }

    /// The held multiset is what the buckets hold.
    spec fn held_ok(&self) -> bool {
        forall|t: ScoredTransaction| #[trigger] self.held@.count(t) == self.bucket_items(t.score).count(t)
    }

    /// The transactions held.
    pub closed spec fn held(&self) -> Multiset<ScoredTransaction> {
        self.held@
    }

    /// Score keys of the held transactions.
    pub closed spec fn scores(&self) -> Multiset<u64> {
        self.priority_queue_heap@
    }

    /// Most transactions handed out per tick.
    pub closed spec fn max_send(&self) -> usize {
        self.max_send
    }

    pub closed spec fn inv(&self) -> bool {
        &&& self.priority_queue_heap.inv()
        &&& forall|k: u64| #[trigger] self.priority_queue_heap@.count(k) == self.bucket_len(k)
        &&& forall|k: u64, i: int|
            self.buckets@.contains_key(k) && 0 <= i < self.buckets@[k]@.len() ==> (
            #[trigger] self.buckets@[k]@[i]).score == k
        &&& self.held_ok()
        &&& self.held@.len() == self.priority_queue_heap@.len()
    }

    /// The held transactions and the score keys agree: there are as many of
    /// each, each held transaction's score is among the keys, and fewer than
    /// `QUEUE_CAPACITY` are held (so exactly one case of `queue` applies).
    pub proof fn lemma_views_linked(&self)
        requires
            self.inv(),
        ensures
            self.held().len() == self.scores().len(),
            self.scores().len() < QUEUE_CAPACITY,
            forall|t: ScoredTransaction| #[trigger] self.held().count(t) > 0 ==> self.scores().count(t.score) > 0,
    {
        assert forall|t: ScoredTransaction| #[trigger] self.held().count(t) > 0 implies self.scores().count(t.score) > 0 by {
            self.lemma_held_scored(t);
        }
    }

    /// What the score-key clauses of a drain say of the held transactions.
    proof fn lemma_drain_held(&self, out: Seq<ScoredTransaction>)
        requires
            self.inv(),
            forall|i: int| 0 <= i < out.len() ==> all_at_most(self.scores(), #[trigger] out[i].score),
        ensures
            self.scores().len() == 0 ==> self.held() == Multiset::<ScoredTransaction>::empty(),
            forall|t: ScoredTransaction, i: int|
                #[trigger] self.held().count(t) > 0 && 0 <= i < out.len() ==> t.score <= #[trigger] out[i].score,
    {
        self.lemma_views_linked();
        if self.scores().len() == 0 {
            assert(self.held() =~= Multiset::<ScoredTransaction>::empty());
        }
        assert forall|t: ScoredTransaction, i: int|
            #[trigger] self.held().count(t) > 0 && 0 <= i < out.len() implies t.score <= #[trigger] out[i].score by {
            assert(all_at_most(self.scores(), out[i].score));
            assert(self.scores().count(t.score) > 0);
        }
    }

    /// A held transaction's score key is in the heap.
    proof fn lemma_held_scored(&self, t: ScoredTransaction)
        requires
            self.inv(),
            self.held@.count(t) > 0,
        ensures
            self.priority_queue_heap@.count(t.score) > 0,
    {
        let k = t.score;
        if self.buckets@.contains_key(k) {
            self.buckets@[k]@.to_multiset_ensures();
        }
    }

    /// An empty container that sends at most a tenth of `target_pps` per
    /// tick, one tick each hundred milliseconds.
    pub fn new(target_pps: usize) -> (r: TransactionContainer)
        ensures
            r.inv(),
            r.scores() == Multiset::<u64>::empty(),
            r.held() == Multiset::<ScoredTransaction>::empty(),
            r.max_send() == target_pps * SEND_INTERVAL_MS / 1000,
    {
        let r = TransactionContainer {
            priority_queue_heap: MinMaxHeap::new(),
            buckets: HashMap::new(),
            max_send: target_pps / 10,
            held: Ghost(Multiset::empty()),
        };
        proof {
            assert forall|k: u64| #[trigger] r.priority_queue_heap@.count(k) == r.bucket_len(k) by {}
        }
        r
    }

    /// Takes out one transaction of score key `k`.
    fn take(&mut self, k: u64) -> (r: ScoredTransaction)
        requires
            old(self).bucket_len(k) > 0,
            forall|j: u64, i: int|
                old(self).buckets@.contains_key(j) && 0 <= i < old(self).buckets@[j]@.len() ==> (
                #[trigger] old(self).buckets@[j]@[i]).score == j,
            old(self).held_ok(),
        ensures
            r.score == k,
            final(self).held_ok(),
            old(self).held@.count(r) > 0,
            final(self).held@ == old(self).held@.remove(r),
            final(self).held@.len() + 1 == old(self).held@.len(),
            final(self).priority_queue_heap == old(self).priority_queue_heap,
            final(self).max_send == old(self).max_send,
            final(self).bucket_len(k) + 1 == old(self).bucket_len(k),
            forall|j: u64| j != k ==> #[trigger] final(self).bucket_len(j) == old(self).bucket_len(j),
            forall|j: u64, i: int|
                final(self).buckets@.contains_key(j) && 0 <= i < final(self).buckets@[j]@.len() ==> (
                #[trigger] final(self).buckets@[j]@[i]).score == j,
    {
        let ghost old_self = *self;
        let mut b = self.buckets.remove(&k).unwrap();
        let ghost bb = b@;
        let t = b.pop().unwrap();
        proof {
            assert(bb[bb.len() - 1] == t);
            assert(bb =~= b@.push(t));
            b@.to_multiset_ensures();
            assert(bb.to_multiset() =~= b@.to_multiset().insert(t));
            assert(t.score == k);
        }
        if b.len() > 0 {
            self.buckets.insert(k, b);
        }
        proof {
            b@.to_multiset_ensures();
            self.held = Ghost(old_self.held@.remove(t));
            assert(old_self.bucket_items(k) == bb.to_multiset());
            assert(self.bucket_items(k) =~= b@.to_multiset());
            assert forall|x: ScoredTransaction| #[trigger] self.held@.count(x) == self.bucket_items(x.score).count(x) by {
                assert(old_self.held@.count(x) == old_self.bucket_items(x.score).count(x));
                if x.score != k {
                    assert(self.bucket_items(x.score) == old_self.bucket_items(x.score));
                }
            }
            assert forall|j: u64, i: int|
                self.buckets@.contains_key(j) && 0 <= i < self.buckets@[j]@.len() implies (
                #[trigger] self.buckets@[j]@[i]).score == j by {
                if j == k {
                    assert(self.buckets@[j]@[i] == bb[i]);
                }
            }
        }
        t
    }

    /// Adds a transaction; when the buffer fills, one with the lowest score
    /// is dropped and counted as leaked.
    pub fn queue(&mut self, scored_transaction: ScoredTransaction, stats: &mut Stats)
        requires
            old(self).inv(),
        ensures
            final(self).inv(),
            final(self).max_send() == old(self).max_send(),
            old(self).scores().len() + 1 < QUEUE_CAPACITY ==> {
                &&& final(self).scores() == old(self).scores().insert(scored_transaction.score)
                &&& final(self).held() == old(self).held().insert(scored_transaction)
                &&& *final(stats) == *old(stats)
            },
            old(self).scores().len() + 1 == QUEUE_CAPACITY ==> {
                let all = old(self).held().insert(scored_transaction);
                exists|x: ScoredTransaction|
                    #![trigger all.remove(x)]
                    all.count(x) > 0 && (forall|y: ScoredTransaction| all.count(y) > 0 ==> x.score <= y.score)
                        && final(self).held() == all.remove(x)
            },
            old(self).scores().len() + 1 == QUEUE_CAPACITY ==> {
                let all = old(self).scores().insert(scored_transaction.score);
                &&& exists|m: u64| is_min(all, m) && final(self).scores() == all.remove(m)
                &&& *final(stats) == (Stats { leaked_priority: crate::pipeline::inc(old(stats).leaked_priority), ..*old(stats) })
            },
    {
        let k = scored_transaction.score;
        let ghost old_self = *self;
        let mut b = match self.buckets.remove(&k) {
            Some(b) => b,
            None => Vec::new(),
        };
        let ghost bb = b@;
        proof {
            assert(old_self.bucket_items(k) =~= bb.to_multiset()) by {
                bb.to_multiset_ensures();
                if !old_self.buckets@.contains_key(k) {
                    assert(bb.len() == 0);
                    assert(bb.to_multiset() =~= Multiset::<ScoredTransaction>::empty());
                }
            }
        }
        b.push(scored_transaction);
        self.buckets.insert(k, b);
        let evicted = self.priority_queue_heap.push(k);
        proof {
            bb.to_multiset_ensures();
            self.held = Ghost(old_self.held@.insert(scored_transaction));
            assert(self.bucket_items(k) =~= bb.to_multiset().insert(scored_transaction));
            assert forall|x: ScoredTransaction| #[trigger] self.held@.count(x) == self.bucket_items(x.score).count(x) by {
                assert(old_self.held@.count(x) == old_self.bucket_items(x.score).count(x));
                if x.score != k {
                    assert(self.bucket_items(x.score) == old_self.bucket_items(x.score));
                }
            }
            assert forall|j: u64, i: int|
                self.buckets@.contains_key(j) && 0 <= i < self.buckets@[j]@.len() implies (
                #[trigger] self.buckets@[j]@[i]).score == j by {
                if j == k && i < bb.len() {
                    assert(self.buckets@[j]@[i] == bb[i]);
                }
            }
        }
        let ghost all = self.held@;
        let ghost pre = old_self.priority_queue_heap@.insert(k);
        proof {
            assert forall|y: ScoredTransaction| all.count(y) > 0 implies pre.count(y.score) > 0 by {
                let j = y.score;
                assert(self.held@.count(y) == self.bucket_items(j).count(y));
                if self.buckets@.contains_key(j) {
                    self.buckets@[j]@.to_multiset_ensures();
                }
                assert(old_self.priority_queue_heap@.count(j) == old_self.bucket_len(j));
                if j == k {
                    assert(self.bucket_len(j) == bb.len() + 1);
                    assert(old_self.bucket_len(j) == bb.len());
                } else {
                    assert(self.bucket_len(j) == old_self.bucket_len(j));
                }
            }
        }
        match evicted {
            Some(m) => {
                let t = self.take(m);
                proof {
                    assert forall|y: ScoredTransaction| all.count(y) > 0 implies t.score <= y.score by {
                        assert(pre.count(y.score) > 0);
                    }
                    assert(all.count(t) > 0 && (forall|y: ScoredTransaction| all.count(y) > 0 ==> t.score <= y.score) && self.held() == all.remove(t));
                    assert(all == old(self).held().insert(scored_transaction));
                    assert(exists|x: ScoredTransaction|
                        #![trigger all.remove(x)]
                        all.count(x) > 0 && (forall|y: ScoredTransaction| all.count(y) > 0 ==> x.score <= y.score)
                            && self.held() == all.remove(x));
                }
                stats.leaked_priority = stats.leaked_priority.saturating_add(1);
            },
            None => {},
        }
    }

    /// On a send tick (`elapsed_ms` since the last send at least the
    /// interval), takes transactions highest score first, drops those whose
    /// signature key is in `recent_signatures` (counted), and returns up to
    /// `max_send` of the rest. Off a tick, returns `None` and changes nothing.
    pub fn maybe_retrieve<const SIG_CACHE_SIZE: usize>(
        &mut self,
        elapsed_ms: u64,
        stats: &mut Stats,
        recent_signatures: Option<&LRUCache<u64, (), SIG_CACHE_SIZE>>,
    ) -> (r: Option<Vec<ScoredTransaction>>)
        requires
            old(self).inv(),
            recent_signatures matches Some(rs) ==> rs.inv(),
        ensures
            final(self).inv(),
            final(self).max_send() == old(self).max_send(),
            elapsed_ms < SEND_INTERVAL_MS ==> r is None && *final(self) == *old(self) && *final(stats) == *old(stats),
            elapsed_ms >= SEND_INTERVAL_MS ==> (r matches Some(out) && {
                &&& out@.len() <= old(self).max_send()
                &&& forall|i: int| 0 <= i < out@.len() ==> !(recent_signatures matches Some(rs) && rs@.contains_key(#[trigger] out@[i].sig_key))
                &&& crate::minmax::non_increasing(scores_of(out@))
                &&& forall|i: int| 0 <= i < out@.len() ==> all_at_most(final(self).scores(), #[trigger] out@[i].score)
                &&& forall|i: int| 0 <= i < out@.len() ==> old(self).scores().count(#[trigger] out@[i].score) > 0
                &&& final(self).scores().add(scores_of(out@).to_multiset()).subset_of(old(self).scores())
                &&& out@.len() < old(self).max_send() ==> final(self).scores().len() == 0
                &&& out@.len() < old(self).max_send() ==> final(self).held() == Multiset::<ScoredTransaction>::empty()
                &&& forall|t: ScoredTransaction, i: int|
                    #[trigger] final(self).held().count(t) > 0 && 0 <= i < out@.len() ==> t.score <= #[trigger] out@[i].score
                &&& exists|dropped: Seq<ScoredTransaction>|
                    #[trigger] drained(
                        old(self).held(),
                        final(self).held(),
                        out@,
                        dropped,
                        recent_signatures,
                        *old(stats),
                        *final(stats),
                    )
            }),
    {
        if elapsed_ms < SEND_INTERVAL_MS {
            return None;
        }
        let mut out: Vec<ScoredTransaction> = Vec::new();
        let ghost mut dropped: Seq<ScoredTransaction> = Seq::empty();
        proof {
            out@.to_multiset_ensures();
            dropped.to_multiset_ensures();
            assert(out@.to_multiset() =~= Multiset::<ScoredTransaction>::empty());
            assert(dropped.to_multiset() =~= Multiset::<ScoredTransaction>::empty());
            assert(self.held().add(out@.to_multiset()).add(dropped.to_multiset()) =~= self.held());
            scores_of(out@).to_multiset_ensures();
            assert(scores_of(out@).to_multiset() =~= Multiset::<u64>::empty());
            assert(self.scores().add(scores_of(out@).to_multiset()) =~= self.scores());
        }
        while out.len() < self.max_send
            invariant
                elapsed_ms >= SEND_INTERVAL_MS,
                recent_signatures matches Some(rs) ==> rs.inv(),
                self.inv(),
                self.max_send == old(self).max_send,
                out@.len() <= self.max_send,
                self.scores().add(scores_of(out@).to_multiset()).subset_of(old(self).scores()),
                forall|i: int| 0 <= i < out@.len() ==> !(recent_signatures matches Some(rs) && rs@.contains_key(#[trigger] out@[i].sig_key)),
                crate::minmax::non_increasing(scores_of(out@)),
                forall|i: int| 0 <= i < out@.len() ==> all_at_most(self.scores(), #[trigger] out@[i].score),
                forall|i: int| 0 <= i < out@.len() ==> old(self).scores().count(#[trigger] out@[i].score) > 0,
                drained(old(self).held(), self.held(), out@, dropped, recent_signatures, *old(stats), *stats),
            decreases self.scores().len(),
        {
            let ghost before = self.scores();
            let ghost before_held = self.held();
            let k = match self.priority_queue_heap.pop_max() {
                Some(k) => k,
                None => {
                    proof {
                        assert(drained(old(self).held(), self.held(), out@, dropped, recent_signatures, *old(stats), *stats));
                        self.lemma_drain_held(out@);
                    }
                    return Some(out);
                },
            };
            let t = self.take(k);
            proof {
                assert forall|x: u64| #[trigger] self.priority_queue_heap@.count(x) == self.bucket_len(x) by {}
                assert(before.count(k) > 0);
                let o = scores_of(out@).to_multiset();
                assert(self.scores() =~= before.remove(k));
                assert(self.scores().add(o).subset_of(before.add(o)));
                assert(before.add(o).count(k) > 0);
            }
            let skip = match recent_signatures {
                Some(rs) => rs.contains(t.sig_key),
                None => false,
            };
            proof {
                assert(before_held =~= self.held().insert(t));
            }
            if skip {
                stats.recently_processed_queued = stats.recently_processed_queued.saturating_add(1);
                proof {
                    let d = dropped;
                    dropped = dropped.push(t);
                    d.to_multiset_ensures();
                    assert(dropped.to_multiset() =~= d.to_multiset().insert(t));
                    assert(old(self).held() =~= self.held().add(out@.to_multiset()).add(dropped.to_multiset()));
                    assert forall|i: int| 0 <= i < dropped.len() implies is_recent(recent_signatures, #[trigger] dropped[i].sig_key) by {
                        if i < d.len() {
                            assert(dropped[i] == d[i]);
                        }
                    }
                }
            } else {
                let ghost o = out@;
                out.push(t);
                proof {
                    assert(scores_of(out@) =~= scores_of(o).push(k));
                    o.to_multiset_ensures();
                    assert(out@.to_multiset() =~= o.to_multiset().insert(t));
                    assert(old(self).held() =~= self.held().add(out@.to_multiset()).add(dropped.to_multiset()));
                    scores_of(o).to_multiset_ensures();
                    scores_of(o).push(k).to_multiset_ensures();
                    assert(scores_of(out@).to_multiset() =~= scores_of(o).to_multiset().insert(k));
                    assert(self.scores().add(scores_of(out@).to_multiset()) =~= before.add(scores_of(o).to_multiset()));
                    assert forall|i: int| 0 <= i < out@.len() implies all_at_most(self.scores(), #[trigger] out@[i].score) by {
                        if i < o.len() {
                            assert(out@[i] == o[i]);
                        }
                    }
                }
            }
        }
        proof {
            self.lemma_drain_held(out@);
        }
        Some(out)
    }
}

} // verus!
