//! Reputation tables of the model: a score for each source address and for
//! each fee payer, ordered by score so that the median and the middle of the
//! table are at hand.
//!
//! Scores are held as the bit patterns of non-negative IEEE-754 doubles;
//! on those, the order of the integers is the order of the numbers. The
//! arithmetic on scores (sums, means, moving averages, penalties) is
//! handed in by the caller as functions on those bit patterns; the tables
//! decide which scores change, which ids join and which are dropped.
use vstd::pervasive::VecAdditionalExecFns;
use vstd::prelude::*;

verus! {

/// Bit pattern of the double `1.0`, the score imputed from an empty table.
pub const ONE_SCORE: u64 = 0x3ff0_0000_0000_0000;

/// Scores keyed by `W`-byte ids, at most one entry per id, in two views
/// kept in step: one ordered by score (for the median and pruning), one
/// ordered by id (for lookups).
pub struct ScoreTable<const W: usize> {
    entries: Vec<(u64, [u8; W])>,
    by_id: Vec<(u64, [u8; W])>,
}

/// Entries as (score, id bytes).
pub open spec fn entries_view<const W: usize>(v: Seq<(u64, [u8; W])>) -> Seq<(u64, Seq<u8>)> {
    v.map_values(|e: (u64, [u8; W])| (e.0, e.1@))
}

/// `a` comes before `b` in byte order: at the first byte where they differ,
/// `a`'s is smaller.
pub open spec fn lex_lt(a: Seq<u8>, b: Seq<u8>) -> bool {
    exists|i: int|
        0 <= i < a.len() && i < b.len() && a[i] < b[i] && #[trigger] a.subrange(0, i) == b.subrange(0, i)
}

/// Entries in strictly increasing byte order of their ids.
pub open spec fn id_sorted(s: Seq<(u64, Seq<u8>)>) -> bool {
    forall|i: int, j: int| 0 <= i < j < s.len() ==> lex_lt(s[i].1, s[j].1)
}

proof fn lemma_lex_irreflexive(a: Seq<u8>)
    ensures
        !lex_lt(a, a),
{
}

proof fn lemma_lex_trans(a: Seq<u8>, b: Seq<u8>, c: Seq<u8>)
    requires
        lex_lt(a, b),
        lex_lt(b, c),
    ensures
        lex_lt(a, c),
{
    let i = choose|i: int|
        0 <= i < a.len() && i < b.len() && a[i] < b[i] && #[trigger] a.subrange(0, i) == b.subrange(0, i);
    let j = choose|j: int|
        0 <= j < b.len() && j < c.len() && b[j] < c[j] && #[trigger] b.subrange(0, j) == c.subrange(0, j);
    if i < j {
        assert(b[i] == b.subrange(0, j)[i]);
        assert(c[i] == c.subrange(0, j)[i]);
        assert(a.subrange(0, i) =~= c.subrange(0, i)) by {
            assert forall|k: int| 0 <= k < i implies a[k] == c[k] by {
                assert(a[k] == a.subrange(0, i)[k]);
                assert(b[k] == b.subrange(0, i)[k]);
                assert(b[k] == b.subrange(0, j)[k]);
                assert(c[k] == c.subrange(0, j)[k]);
            }
        }
    } else if j < i {
        assert(a[j] == a.subrange(0, i)[j]);
        assert(b[j] == b.subrange(0, i)[j]);
        assert(a.subrange(0, j) =~= c.subrange(0, j)) by {
            assert forall|k: int| 0 <= k < j implies a[k] == c[k] by {
                assert(a[k] == a.subrange(0, i)[k]);
                assert(b[k] == b.subrange(0, i)[k]);
                assert(b[k] == b.subrange(0, j)[k]);
                assert(c[k] == c.subrange(0, j)[k]);
            }
        }
    } else {
        assert(a.subrange(0, i) =~= c.subrange(0, i));
    }
}

proof fn lemma_sorted_distinct(s: Seq<(u64, Seq<u8>)>)
    requires
        id_sorted(s),
    ensures
        distinct_ids(s),
{
    assert forall|i: int, j: int| 0 <= i < s.len() && 0 <= j < s.len() && i != j implies s[i].1 != s[j].1 by {
        if i < j {
            assert(lex_lt(s[i].1, s[j].1));
        } else {
            assert(lex_lt(s[j].1, s[i].1));
        }
    }
}

/// Compares two ids in byte order.
fn compare_ids<const W: usize>(a: &[u8; W], b: &[u8; W]) -> (r: core::cmp::Ordering)
    ensures
        r == core::cmp::Ordering::Less ==> lex_lt(a@, b@),
        r == core::cmp::Ordering::Greater ==> lex_lt(b@, a@),
        r == core::cmp::Ordering::Equal ==> a@ == b@,
{
    let mut i: usize = 0;
    while i < W
        invariant
            i <= W,
            a@.len() == W,
            b@.len() == W,
            a@.subrange(0, i as int) == b@.subrange(0, i as int),
        decreases W - i,
    {
        if a[i] < b[i] {
            assert(a@.subrange(0, i as int) == b@.subrange(0, i as int));
            return core::cmp::Ordering::Less;
        }
        if a[i] > b[i] {
            assert(b@.subrange(0, i as int) == a@.subrange(0, i as int));
            return core::cmp::Ordering::Greater;
        }
        proof {
            assert(a@.subrange(0, i + 1) =~= a@.subrange(0, i as int).push(a@[i as int]));
            assert(b@.subrange(0, i + 1) =~= b@.subrange(0, i as int).push(b@[i as int]));
        }
        i = i + 1;
    }
    proof {
        assert(a@ =~= a@.subrange(0, W as int));
        assert(b@ =~= b@.subrange(0, W as int));
    }
    core::cmp::Ordering::Equal
}

/// No id twice.
pub open spec fn distinct_ids(s: Seq<(u64, Seq<u8>)>) -> bool {
    forall|i: int, j: int| 0 <= i < s.len() && 0 <= j < s.len() && i != j ==> s[i].1 != s[j].1
}

/// Sorted by score, no id twice.
pub open spec fn well_ordered(s: Seq<(u64, Seq<u8>)>) -> bool {
    &&& forall|i: int, j: int| 0 <= i <= j < s.len() ==> s[i].0 <= s[j].0
    &&& distinct_ids(s)
}

/// The id-to-score map of a table.
pub open spec fn score_map(s: Seq<(u64, Seq<u8>)>) -> Map<Seq<u8>, u64> {
    Map::new(
        |id: Seq<u8>| exists|i: int| 0 <= i < s.len() && s[i].1 == id,
        |id: Seq<u8>| s[choose|i: int| 0 <= i < s.len() && s[i].1 == id].0,
    )
}

/// The score at the middle of a table, or `1.0` for an empty one.
pub open spec fn median_of(s: Seq<(u64, Seq<u8>)>) -> u64 {
    if s.len() == 0 {
        ONE_SCORE
    } else {
        s[(s.len() / 2) as int].0
    }
}

/// `s` without its middle `d` entries: the `(keep + 1) / 2` lowest and the
/// `keep / 2` highest stay, where `keep` is the length left.
pub open spec fn without_middle<A>(s: Seq<A>, keep: nat) -> Seq<A> {
    if s.len() <= keep {
        s
    } else {
        let a = (keep + 1) / 2;
        s.subrange(0, a as int) + s.subrange(s.len() - (keep - a), s.len() as int)
    }
}

/// `s` after removing its median entry (index `len / 2`) `d` times.
pub open spec fn remove_medians<A>(s: Seq<A>, d: nat) -> Seq<A>
    decreases d,
{
    if d == 0 || s.len() == 0 {
        s
    } else {
        remove_medians(s.remove((s.len() / 2) as int), (d - 1) as nat)
    }
}

/// Pruning to `keep` entries is removing the median entry until `keep`
/// remain: it drops the entries closest to the median.
pub proof fn lemma_prune_removes_medians<A>(s: Seq<A>, keep: nat)
    requires
        keep < s.len(),
    ensures
        without_middle(s, keep) == remove_medians(s, (s.len() - keep) as nat),
    decreases s.len() - keep,
{
    let n = s.len() as int;
    let d = n - keep;
    let a = ((keep + 1) / 2) as int;
    let m = n / 2;
    assert(a <= m && m < a + d) by {
        assert(n == keep + d);
        assert(d >= 1);
    }
    let t = s.remove(m);
    if d == 1 {
        assert(without_middle(s, keep) =~= t) by {
            assert(keep == n - 1);
            assert(m == a) by {
                assert(n / 2 == (keep + 1) / 2);
            }
        }
        assert(remove_medians(t, 0) == t);
    } else {
        lemma_prune_removes_medians(t, keep);
        assert(without_middle(t, keep) =~= without_middle(s, keep)) by {
            assert(t.len() == n - 1);
            assert forall|i: int| 0 <= i < a implies t[i] == s[i] by {}
            assert forall|i: int| a + d - 1 <= i < n - 1 implies t[i] == s[i + 1] by {}
        }
    }
}

/// The ordered view and the id-to-score map hold the same entries: each
/// entry of the ordered view is the map's entry for its id, and each entry
/// of the map stands in the ordered view.
pub proof fn lemma_views_agree(s: Seq<(u64, Seq<u8>)>)
    requires
        distinct_ids(s),
    ensures
        forall|i: int| 0 <= i < s.len() ==> #[trigger] score_map(s).contains_key(s[i].1) && score_map(s)[s[i].1] == s[i].0,
        forall|id: Seq<u8>| #[trigger] score_map(s).contains_key(id) ==> exists|i: int| 0 <= i < s.len() && s[i] == (score_map(s)[id], id),
{
    assert forall|i: int| 0 <= i < s.len() implies #[trigger] score_map(s).contains_key(s[i].1) && score_map(s)[s[i].1] == s[i].0 by {
        lemma_map_lookup(s, i);
    }
    assert forall|id: Seq<u8>| #[trigger] score_map(s).contains_key(id) implies exists|i: int| 0 <= i < s.len() && s[i] == (score_map(s)[id], id) by {
        let i = choose|i: int| 0 <= i < s.len() && s[i].1 == id;
        lemma_map_lookup(s, i);
        assert(s[i] == (score_map(s)[id], id));
    }
}

/// A table without repeated ids has as many map entries as entries.
pub proof fn lemma_map_len(s: Seq<(u64, Seq<u8>)>)
    requires
        distinct_ids(s),
    ensures
        score_map(s).dom().finite(),
        score_map(s).len() == s.len(),
    decreases s.len(),
{
    if s.len() == 0 {
        assert(score_map(s).dom() =~= Set::<Seq<u8>>::empty());
    } else {
        let last = s.len() - 1;
        let t = s.remove(last);
        lemma_remove(s, last);
        lemma_map_len(t);
        lemma_map_lookup(s, last);
        assert(score_map(s).dom() =~= score_map(t).dom().insert(s[last].1));
    }
}

proof fn lemma_map_lookup(s: Seq<(u64, Seq<u8>)>, i: int)
    requires
        distinct_ids(s),
        0 <= i < s.len(),
    ensures
        score_map(s).contains_key(s[i].1),
        score_map(s)[s[i].1] == s[i].0,
{
    let id = s[i].1;
    assert(exists|j: int| 0 <= j < s.len() && s[j].1 == id);
    let j = choose|j: int| 0 <= j < s.len() && s[j].1 == id;
    assert(j == i);
}


/// An id the table does not hold is not in its map.
proof fn lemma_absent(s: Seq<(u64, Seq<u8>)>, id: Seq<u8>)
    requires
        forall|i: int| 0 <= i < s.len() ==> s[i].1 != id,
    ensures
        !score_map(s).contains_key(id),
        score_map(s).remove(id) == score_map(s),
{
    assert(score_map(s).remove(id) =~= score_map(s));
}

proof fn lemma_remove(s: Seq<(u64, Seq<u8>)>, i: int)
    requires
        distinct_ids(s),
        0 <= i < s.len(),
    ensures
        distinct_ids(s.remove(i)),
        well_ordered(s) ==> well_ordered(s.remove(i)),
        id_sorted(s) ==> id_sorted(s.remove(i)),
        score_map(s.remove(i)) == score_map(s).remove(s[i].1),
{
    let r = s.remove(i);
    if well_ordered(s) {
        assert forall|a: int, b: int| 0 <= a <= b < r.len() implies r[a].0 <= r[b].0 by {
            let x = if a < i { a } else { a + 1 };
            let y = if b < i { b } else { b + 1 };
            assert(r[a] == s[x] && r[b] == s[y]);
        }
    }
    if id_sorted(s) {
        assert forall|a: int, b: int| 0 <= a < b < r.len() implies lex_lt(r[a].1, r[b].1) by {
            let x = if a < i { a } else { a + 1 };
            let y = if b < i { b } else { b + 1 };
            assert(r[a] == s[x] && r[b] == s[y]);
        }
    }
    assert forall|a: int, b: int| 0 <= a < r.len() && 0 <= b < r.len() && a != b implies r[a].1 != r[b].1 by {
        let x = if a < i { a } else { a + 1 };
        let y = if b < i { b } else { b + 1 };
        assert(r[a] == s[x] && r[b] == s[y]);
    }
    let m = score_map(s).remove(s[i].1);
    assert forall|id: Seq<u8>| #[trigger] score_map(r).contains_key(id) == m.contains_key(id) by {
        if score_map(r).contains_key(id) {
            let j = choose|j: int| 0 <= j < r.len() && r[j].1 == id;
            let x = if j < i { j } else { j + 1 };
            assert(r[j] == s[x]);
        }
        if m.contains_key(id) {
            let x = choose|x: int| 0 <= x < s.len() && s[x].1 == id;
            assert(x != i);
            let j = if x < i { x } else { x - 1 };
            assert(r[j] == s[x]);
        }
    }
    assert forall|id: Seq<u8>| #[trigger] score_map(r).contains_key(id) implies score_map(r)[id] == m[id] by {
        let j = choose|j: int| 0 <= j < r.len() && r[j].1 == id;
        let x = if j < i { j } else { j + 1 };
        assert(r[j] == s[x]);
        lemma_map_lookup(r, j);
        lemma_map_lookup(s, x);
    }
    assert(score_map(r) =~= m);
}

proof fn lemma_insert(s: Seq<(u64, Seq<u8>)>, k: int, e: (u64, Seq<u8>))
    requires
        distinct_ids(s),
        0 <= k <= s.len(),
        forall|j: int| 0 <= j < s.len() ==> s[j].1 != e.1,
    ensures
        distinct_ids(s.insert(k, e)),
        (well_ordered(s) && (forall|j: int| 0 <= j < k ==> s[j].0 <= e.0) && (k == s.len() || s[k].0
            > e.0)) ==> well_ordered(s.insert(k, e)),
        (id_sorted(s) && (forall|j: int| 0 <= j < k ==> lex_lt(s[j].1, e.1)) && (forall|j: int|
            k <= j < s.len() ==> lex_lt(e.1, s[j].1))) ==> id_sorted(s.insert(k, e)),
        score_map(s.insert(k, e)) == score_map(s).insert(e.1, e.0),
{
    let r = s.insert(k, e);
    if id_sorted(s) && (forall|j: int| 0 <= j < k ==> lex_lt(s[j].1, e.1)) && (forall|j: int|
        k <= j < s.len() ==> lex_lt(e.1, s[j].1)) {
        assert forall|x: int, y: int| 0 <= x < y < r.len() implies lex_lt(r[x].1, r[y].1) by {
            if x < k && y < k {
                assert(r[x] == s[x] && r[y] == s[y]);
            } else if x < k && y == k {
                assert(r[x] == s[x]);
            } else if x < k {
                assert(r[x] == s[x] && r[y] == s[y - 1]);
            } else if x == k {
                assert(r[y] == s[y - 1]);
            } else {
                assert(r[x] == s[x - 1] && r[y] == s[y - 1]);
            }
        }
    }
    if well_ordered(s) && (forall|j: int| 0 <= j < k ==> s[j].0 <= e.0) && (k == s.len() || s[k].0
        > e.0) {
    assert forall|x: int, y: int| 0 <= x <= y < r.len() implies r[x].0 <= r[y].0 by {
        if x < k && y < k {
            assert(r[x] == s[x] && r[y] == s[y]);
        } else if x < k && y > k {
            assert(r[x] == s[x] && r[y] == s[y - 1]);
        } else if x == k && y > k {
            assert(r[y] == s[y - 1]);
            assert(s[k].0 <= s[y - 1].0);
        } else if x > k {
            assert(r[x] == s[x - 1] && r[y] == s[y - 1]);
        }
    }
    }
    assert forall|x: int, y: int| 0 <= x < r.len() && 0 <= y < r.len() && x != y implies r[x].1 != r[y].1 by {
        let xx = if x < k { x } else { x - 1 };
        let yy = if y < k { y } else { y - 1 };
        if x != k && y != k {
            assert(r[x] == s[xx] && r[y] == s[yy]);
        } else if x == k {
            assert(r[y] == s[yy]);
        } else {
            assert(r[x] == s[xx]);
        }
    }
    let m = score_map(s).insert(e.1, e.0);
    assert forall|id: Seq<u8>| #[trigger] score_map(r).contains_key(id) == m.contains_key(id) by {
        if score_map(r).contains_key(id) && id != e.1 {
            let j = choose|j: int| 0 <= j < r.len() && r[j].1 == id;
            let x = if j < k { j } else { j - 1 };
            assert(r[j] == s[x]);
        }
        if m.contains_key(id) {
            if id == e.1 {
                assert(r[k] == e);
            } else {
                let x = choose|x: int| 0 <= x < s.len() && s[x].1 == id;
                let j = if x < k { x } else { x + 1 };
                assert(r[j] == s[x]);
            }
        }
    }
    assert forall|id: Seq<u8>| #[trigger] score_map(r).contains_key(id) implies score_map(r)[id] == m[id] by {
        let j = choose|j: int| 0 <= j < r.len() && r[j].1 == id;
        lemma_map_lookup(r, j);
        if j != k {
            let x = if j < k { j } else { j - 1 };
            assert(r[j] == s[x]);
            lemma_map_lookup(s, x);
        } else {
            assert(r[k] == e);
        }
    }
    assert(score_map(r) =~= m);
}

impl<const W: usize> ScoreTable<W> {
    pub closed spec fn view(&self) -> Seq<(u64, Seq<u8>)> {
        entries_view(self.entries@)
    }

    /// The entries ordered by id.
    pub closed spec fn index(&self) -> Seq<(u64, Seq<u8>)> {
        entries_view(self.by_id@)
    }

    /// The id-ordered view holds the same entries as the score-ordered one.
    pub closed spec fn indexed(&self) -> bool {
        id_sorted(self.index()) && score_map(self.index()) == score_map(self.view())
    }

    pub open spec fn inv(&self) -> bool {
        well_ordered(self.view()) && self.indexed()
    }

    /// Scores by id.
    pub open spec fn scores(&self) -> Map<Seq<u8>, u64> {
        score_map(self.view())
    }

    /// The id-ordered view is a permutation of the score-ordered one: the
    /// same number of entries, each entry of one standing in the other.
    pub proof fn lemma_views_permute(&self)
        requires
            self.inv(),
        ensures
            self.index().len() == self.view().len(),
            forall|i: int| 0 <= i < self.index().len() ==> self.view().contains(#[trigger] self.index()[i]),
            forall|j: int| 0 <= j < self.view().len() ==> self.index().contains(#[trigger] self.view()[j]),
    {
        let v = self.view();
        let x = self.index();
        lemma_sorted_distinct(x);
        lemma_map_len(v);
        lemma_map_len(x);
        lemma_views_agree(v);
        lemma_views_agree(x);
        assert forall|i: int| 0 <= i < x.len() implies v.contains(#[trigger] x[i]) by {
            let id = x[i].1;
            assert(score_map(x).contains_key(id));
            assert(score_map(v).contains_key(id));
            let j = choose|j: int| 0 <= j < v.len() && v[j] == (score_map(v)[id], id);
            assert(v[j] == x[i]);
        }
        assert forall|j: int| 0 <= j < v.len() implies x.contains(#[trigger] v[j]) by {
            let id = v[j].1;
            assert(score_map(v).contains_key(id));
            assert(score_map(x).contains_key(id));
            let i = choose|i: int| 0 <= i < x.len() && x[i] == (score_map(x)[id], id);
            assert(x[i] == v[j]);
        }
    }

    pub fn new() -> (r: Self)
        ensures
            r.inv(),
            r.view() == Seq::<(u64, Seq<u8>)>::empty(),
    {
        let r = ScoreTable { entries: Vec::new(), by_id: Vec::new() };
        proof {
            assert(r.view() =~= Seq::<(u64, Seq<u8>)>::empty());
            assert(r.index() =~= Seq::<(u64, Seq<u8>)>::empty());
        }
        r
    }

    pub fn len(&self) -> (r: usize)
        ensures
            r == self.view().len(),
    {
        self.entries.len()
    }

    fn same_id(a: &[u8; W], b: &[u8; W]) -> (r: bool)
        ensures
            r == (a@ == b@),
    {
        let mut i: usize = 0;
        while i < W
            invariant
                i <= W,
                a@.len() == W,
                b@.len() == W,
                forall|j: int| 0 <= j < i ==> a@[j] == b@[j],
            decreases W - i,
        {
            if a[i] != b[i] {
                return false;
            }
            i = i + 1;
        }
        proof {
            assert(a@ =~= b@);
        }
        true
    }

    /// Position of `id`, if the table holds it.
    fn position(&self, id: &[u8; W]) -> (r: Option<usize>)
        ensures
            match r {
                Some(i) => i < self.view().len() && self.view()[i as int].1 == id@,
                None => forall|i: int| 0 <= i < self.view().len() ==> self.view()[i].1 != id@,
            },
    {
        let mut i: usize = 0;
        while i < self.entries.len()
            invariant
                i <= self.entries@.len(),
                forall|j: int| 0 <= j < i ==> self.view()[j].1 != id@,
            decreases self.entries@.len() - i,
        {
            if Self::same_id(&self.entries[i].1, id) {
                return Some(i);
            }
            i = i + 1;
        }
        None
    }

    /// Where `id` stands in the id-ordered view, or where it would go.
    fn find_id(&self, id: &[u8; W]) -> (r: Result<usize, usize>)
        requires
            id_sorted(self.index()),
        ensures
            match r {
                Ok(j) => j < self.index().len() && self.index()[j as int].1 == id@,
                Err(k) => {
                    &&& k <= self.index().len()
                    &&& forall|i: int| 0 <= i < k ==> lex_lt(#[trigger] self.index()[i].1, id@)
                    &&& forall|i: int| k <= i < self.index().len() ==> lex_lt(id@, #[trigger] self.index()[i].1)
                },
            },
    {
        let ghost v = self.index();
        let mut lo: usize = 0;
        let mut hi: usize = self.by_id.len();
        while lo < hi
            invariant
                v == self.index(),
                id_sorted(v),
                lo <= hi <= v.len(),
                forall|i: int| 0 <= i < lo ==> lex_lt(#[trigger] v[i].1, id@),
                forall|i: int| hi <= i < v.len() ==> lex_lt(id@, #[trigger] v[i].1),
            decreases hi - lo,
        {
            let mid = lo + (hi - lo) / 2;
            match compare_ids(&self.by_id[mid].1, id) {
                core::cmp::Ordering::Less => {
                    proof {
                        assert forall|i: int| 0 <= i < mid + 1 implies lex_lt(#[trigger] v[i].1, id@) by {
                            if i < mid {
                                lemma_lex_trans(v[i].1, v[mid as int].1, id@);
                            }
                        }
                    }
                    lo = mid + 1;
                },
                core::cmp::Ordering::Greater => {
                    proof {
                        assert forall|i: int| mid <= i < v.len() implies lex_lt(id@, #[trigger] v[i].1) by {
                            if i > mid {
                                lemma_lex_trans(id@, v[mid as int].1, v[i].1);
                            }
                        }
                    }
                    hi = mid;
                },
                core::cmp::Ordering::Equal => {
                    return Ok(mid);
                },
            }
        }
        Err(lo)
    }

    /// The score of `id`, if the table holds one.
    pub fn get(&self, id: &[u8; W]) -> (r: Option<u64>)
        requires
            self.inv(),
        ensures
            r == (if self.scores().contains_key(id@) {
                Some(self.scores()[id@])
            } else {
                None
            }),
    {
        let ghost v = self.index();
        proof {
            lemma_sorted_distinct(v);
        }
        match self.find_id(id) {
            Ok(j) => {
                proof {
                    lemma_map_lookup(v, j as int);
                }
                Some(self.by_id[j].0)
            },
            Err(_) => {
                proof {
                    assert forall|i: int| 0 <= i < v.len() implies v[i].1 != id@ by {
                        lemma_lex_irreflexive(id@);
                    }
                    lemma_absent(v, id@);
                }
                None
            },
        }
    }

    /// The entries, lowest score first.
    pub fn entries(&self) -> (r: Vec<(u64, [u8; W])>)
        ensures
            entries_view(r@) == self.view(),
    {
        let mut out: Vec<(u64, [u8; W])> = Vec::new();
        let mut i: usize = 0;
        while i < self.entries.len()
            invariant
                i <= self.entries@.len(),
                out@ == self.entries@.subrange(0, i as int),
            decreases self.entries@.len() - i,
        {
            out.push(self.entries[i]);
            i = i + 1;
            proof {
                assert(out@ =~= self.entries@.subrange(0, i as int));
            }
        }
        proof {
            assert(out@ =~= self.entries@);
        }
        out
    }

    /// The score at the middle of the table; `1.0` when it is empty.
    pub fn median(&self) -> (r: u64)
        ensures
            r == median_of(self.view()),
    {
        let n = self.entries.len();
        if n == 0 {
            ONE_SCORE
        } else {
            self.entries[n / 2].0
        }
    }

    /// Sets the score of `id`, replacing any score it had.
    pub fn set(&mut self, id: [u8; W], score: u64)
        requires
            old(self).inv(),
        ensures
            final(self).inv(),
            final(self).scores() == old(self).scores().insert(id@, score),
            final(self).view().len() == old(self).view().len() + (if old(self).scores().contains_key(
                id@,
            ) {
                0int
            } else {
                1int
            }),
    {
        let ghost s0 = self.view();
        match self.position(&id) {
            Some(i) => {
                self.entries.remove(i);
                proof {
                    assert(self.view() =~= s0.remove(i as int));
                    lemma_remove(s0, i as int);
                    lemma_map_lookup(s0, i as int);
                }
            },
            None => {
                proof {
                    lemma_absent(s0, id@);
                }
            },
        }
        let ghost s1 = self.view();
        proof {
            assert(score_map(s1) =~= score_map(s0).remove(id@));
            assert forall|j: int| 0 <= j < s1.len() implies s1[j].1 != id@ by {
                if score_map(s1).contains_key(s1[j].1) && s1[j].1 == id@ {
                    lemma_map_lookup(s1, j);
                }
                lemma_map_lookup(s1, j);
            }
        }
        let mut k: usize = 0;
        while k < self.entries.len() && self.entries[k].0 <= score
            invariant
                self.view() == s1,
                k <= s1.len(),
                forall|j: int| 0 <= j < k ==> s1[j].0 <= score,
            decreases s1.len() - k,
        {
            k = k + 1;
        }
        self.entries.insert(k, (score, id));
        proof {
            assert(self.view() =~= s1.insert(k as int, (score, id@)));
            lemma_insert(s1, k as int, (score, id@));
            assert(self.scores() =~= score_map(s0).insert(id@, score));
        }
        let ghost i0 = self.index();
        proof {
            lemma_sorted_distinct(i0);
        }
        match self.find_id(&id) {
            Ok(j) => {
                self.by_id.remove(j);
                self.by_id.insert(j, (score, id));
                proof {
                    let i1 = i0.remove(j as int);
                    lemma_remove(i0, j as int);
                    assert forall|x: int| 0 <= x < j implies lex_lt(i1[x].1, id@) by {
                        assert(i1[x] == i0[x]);
                    }
                    assert forall|x: int| j <= x < i1.len() implies lex_lt(id@, i1[x].1) by {
                        assert(i1[x] == i0[x + 1]);
                    }
                    assert forall|x: int| 0 <= x < i1.len() implies i1[x].1 != id@ by {
                        let y = if x < j { x } else { x + 1 };
                        assert(i1[x] == i0[y]);
                    }
                    lemma_insert(i1, j as int, (score, id@));
                    assert(self.index() =~= i1.insert(j as int, (score, id@)));
                    assert(score_map(self.index()) =~= score_map(i0).insert(id@, score));
                }
            },
            Err(k) => {
                self.by_id.insert(k, (score, id));
                proof {
                    assert forall|x: int| 0 <= x < i0.len() implies i0[x].1 != id@ by {
                        lemma_lex_irreflexive(id@);
                    }
                    lemma_insert(i0, k as int, (score, id@));
                    assert(self.index() =~= i0.insert(k as int, (score, id@)));
                }
            },
        }
    }

    /// Drops entries from the middle of the table until at most `keep`
    /// remain, so that the lowest and highest scores stay. This is removing
    /// the median entry (the one `median` reads) again and again.
    pub fn prune(&mut self, keep: usize)
        requires
            old(self).inv(),
        ensures
            final(self).inv(),
            final(self).view() == without_middle(old(self).view(), keep as nat),
            final(self).view().len() <= keep,
            final(self).view().len() == if old(self).view().len() < keep { old(self).view().len() } else { keep as nat },
    {
        let ghost s0 = self.view();
        let n = self.entries.len();
        if n <= keep {
            return;
        }
        let a = (keep + 1) / 2;
        let d = n - keep;
        let mut removed: usize = 0;
        while removed < d
            invariant
                a == (keep + 1) / 2,
                d == n - keep,
                n == s0.len(),
                a <= keep < n,
                removed <= d,
                self.entries@.len() == n - removed,
                self.view() == s0.subrange(0, a as int) + s0.subrange(a + removed, n as int),
                distinct_ids(self.view()),
                self.indexed(),
            decreases d - removed,
        {
            let ghost v0 = self.view();
            let ghost i0 = self.index();
            let e = self.entries.remove(a);
            proof {
                assert(self.view() =~= v0.remove(a as int));
                assert(v0[a as int] == (e.0, e.1@));
                lemma_remove(v0, a as int);
                lemma_map_lookup(v0, a as int);
                lemma_sorted_distinct(i0);
            }
            match self.find_id(&e.1) {
                Ok(j) => {
                    self.by_id.remove(j);
                    proof {
                        lemma_remove(i0, j as int);
                        assert(self.index() =~= i0.remove(j as int));
                    }
                },
                Err(_) => {
                    proof {
                        assert forall|x: int| 0 <= x < i0.len() implies i0[x].1 != e.1@ by {
                            lemma_lex_irreflexive(e.1@);
                        }
                        lemma_absent(i0, e.1@);
                    }
                },
            }
            removed = removed + 1;
            proof {
                assert(self.view() =~= s0.subrange(0, a as int) + s0.subrange(a + removed, n as int));
            }
        }
        proof {
            let s = self.view();
            assert(s =~= without_middle(s0, keep as nat));
            assert forall|i: int, j: int| 0 <= i <= j < s.len() implies s[i].0 <= s[j].0 by {
                let x = if i < a { i } else { i + d };
                let y = if j < a { j } else { j + d };
                assert(s[i] == s0[x] && s[j] == s0[y]);
            }
        }
    }
}

/// Observations an id needs before its score moves towards them.
pub const MIN_SUPPORT: usize = 5;

/// Number of times `id` occurs in `ids`.
pub open spec fn id_count(ids: Seq<Seq<u8>>, id: Seq<u8>) -> nat
    decreases ids.len(),
{
    if ids.len() == 0 {
        0
    } else {
        id_count(ids.drop_last(), id) + if ids.last() == id {
            1nat
        } else {
            0nat
        }
    }
}

/// Observations gathered for one id: their combined value and how many.
#[derive(Clone, Copy)]
pub struct Tally<const W: usize> {
    pub id: [u8; W],
    pub sum: u64,
    pub count: usize,
}

/// Tallies as (id bytes, count).
pub open spec fn tallies_view<const W: usize>(t: Seq<Tally<W>>) -> Seq<(Seq<u8>, nat)> {
    t.map_values(|x: Tally<W>| (x.id@, x.count as nat))
}

/// `t` holds one tally for each id of `ids`, with its number of occurrences.
pub open spec fn tallies_of(t: Seq<(Seq<u8>, nat)>, ids: Seq<Seq<u8>>) -> bool {
    &&& forall|i: int, j: int| 0 <= i < t.len() && 0 <= j < t.len() && i != j ==> t[i].0 != t[j].0
    &&& forall|i: int| 0 <= i < t.len() ==> #[trigger] t[i].1 == id_count(ids, t[i].0) && t[i].1 > 0
    &&& forall|id: Seq<u8>| #[trigger] id_count(ids, id) > 0 ==> exists|i: int| 0 <= i < t.len() && t[i].0 == id
}

/// Ids of a sequence of arrays.
pub open spec fn ids_view<const W: usize>(v: Seq<[u8; W]>) -> Seq<Seq<u8>> {
    v.map_values(|a: [u8; W]| a@)
}

proof fn lemma_count_step(ids: Seq<Seq<u8>>, x: Seq<u8>, id: Seq<u8>)
    ensures
        id_count(ids.push(x), id) == id_count(ids, id) + if x == id {
            1nat
        } else {
            0nat
        },
{
    assert(ids.push(x).drop_last() =~= ids);
}

proof fn lemma_count_bound(ids: Seq<Seq<u8>>, id: Seq<u8>)
    ensures
        id_count(ids, id) <= ids.len(),
    decreases ids.len(),
{
    if ids.len() > 0 {
        lemma_count_bound(ids.drop_last(), id);
    }
}

fn same_array<const W: usize>(a: &[u8; W], b: &[u8; W]) -> (r: bool)
    ensures
        r == (a@ == b@),
{
    match compare_ids(a, b) {
        core::cmp::Ordering::Equal => true,
        core::cmp::Ordering::Less => {
            proof {
                if a@ == b@ {
                    lemma_lex_irreflexive(a@);
                }
            }
            false
        },
        core::cmp::Ordering::Greater => {
            proof {
                if a@ == b@ {
                    lemma_lex_irreflexive(a@);
                }
            }
            false
        },
    }
}

/// The values `vals[i]` of the occurrences of `id` in `ids`, in order.
pub open spec fn values_of(ids: Seq<Seq<u8>>, vals: Seq<u64>, id: Seq<u8>) -> Seq<u64>
    decreases ids.len(),
{
    if ids.len() == 0 || vals.len() == 0 {
        Seq::empty()
    } else {
        let prev = values_of(ids.drop_last(), vals.drop_last(), id);
        if ids.last() == id {
            prev.push(vals.last())
        } else {
            prev
        }
    }
}

/// `r` may be what folding `vals` from the left with `combine` gives; an
/// empty sequence folds to nothing.
pub open spec fn folds<FA: Fn(u64, u64) -> u64>(combine: FA, vals: Seq<u64>, r: u64) -> bool
    decreases vals.len(),
{
    if vals.len() == 0 {
        false
    } else if vals.len() == 1 {
        r == vals[0]
    } else {
        exists|p: u64| folds(combine, vals.drop_last(), p) && #[trigger] combine.ensures((p, vals.last()), r)
    }
}

proof fn lemma_values_step(ids: Seq<Seq<u8>>, vals: Seq<u64>, x: Seq<u8>, v: u64, id: Seq<u8>)
    requires
        ids.len() == vals.len(),
    ensures
        values_of(ids.push(x), vals.push(v), id) == if x == id {
            values_of(ids, vals, id).push(v)
        } else {
            values_of(ids, vals, id)
        },
{
    assert(ids.push(x).drop_last() =~= ids);
    assert(vals.push(v).drop_last() =~= vals);
}

proof fn lemma_values_len(ids: Seq<Seq<u8>>, vals: Seq<u64>, id: Seq<u8>)
    requires
        ids.len() == vals.len(),
    ensures
        values_of(ids, vals, id).len() == id_count(ids, id),
    decreases ids.len(),
{
    if ids.len() > 0 {
        lemma_values_len(ids.drop_last(), vals.drop_last(), id);
    }
}

proof fn lemma_folds_push<FA: Fn(u64, u64) -> u64>(combine: FA, vals: Seq<u64>, p: u64, v: u64, r: u64)
    requires
        folds(combine, vals, p),
        combine.ensures((p, v), r),
    ensures
        folds(combine, vals.push(v), r),
{
    assert(vals.push(v).drop_last() =~= vals);
    assert(vals.push(v).last() == v);
}

/// Gathers the values of `ids[i]` (`values[i]`) per id, combining them
/// with `combine`.
pub fn tally<const W: usize, FA: Fn(u64, u64) -> u64>(ids: &Vec<[u8; W]>, values: &Vec<u64>, combine: &FA) -> (r: Vec<Tally<W>>)
    requires
        ids@.len() == values@.len(),
        forall|a: u64, b: u64| #[trigger] combine.requires((a, b)),
    ensures
        tallies_of(tallies_view(r@), ids_view(ids@)),
        forall|i: int|
            0 <= i < r@.len() ==> folds(*combine, values_of(ids_view(ids@), values@, #[trigger] r@[i].id@), r@[i].sum),
{
    let mut out: Vec<Tally<W>> = Vec::new();
    let mut i: usize = 0;
    while i < ids.len()
        invariant
            ids@.len() == values@.len(),
            forall|a: u64, b: u64| #[trigger] combine.requires((a, b)),
            i <= ids@.len(),
            tallies_of(tallies_view(out@), ids_view(ids@.subrange(0, i as int))),
            forall|j: int|
                0 <= j < out@.len() ==> folds(
                    *combine,
                    values_of(ids_view(ids@.subrange(0, i as int)), values@.subrange(0, i as int), #[trigger] out@[j].id@),
                    out@[j].sum,
                ),
        decreases ids@.len() - i,
    {
        let ghost before = tallies_view(out@);
        let ghost prefix = ids_view(ids@.subrange(0, i as int));
        let ghost next = ids_view(ids@.subrange(0, i + 1));
        let ghost vprefix = values@.subrange(0, i as int);
        let ghost vnext = values@.subrange(0, i + 1);
        let ghost old_out = out@;
        proof {
            assert(next =~= prefix.push(ids@[i as int]@));
            assert(vnext =~= vprefix.push(values@[i as int]));
            assert forall|id: Seq<u8>| #[trigger] values_of(next, vnext, id) == if ids@[i as int]@ == id {
                values_of(prefix, vprefix, id).push(values@[i as int])
            } else {
                values_of(prefix, vprefix, id)
            } by {
                lemma_values_step(prefix, vprefix, ids@[i as int]@, values@[i as int], id);
            }
            assert forall|id: Seq<u8>| #[trigger] id_count(next, id) == id_count(prefix, id) + if ids@[i as int]@ == id { 1nat } else { 0nat } by {
                lemma_count_step(prefix, ids@[i as int]@, id);
            }
            lemma_count_bound(prefix, ids@[i as int]@);
        }
        let mut k: usize = 0;
        while k < out.len() && !same_array(&out[k].id, &ids[i])
            invariant
                i < ids@.len(),
                k <= out@.len(),
                forall|j: int| 0 <= j < k ==> out@[j].id@ != ids@[i as int]@,
            decreases out@.len() - k,
        {
            k = k + 1;
        }
        if k < out.len() {
            let t = out[k];
            proof {
                assert(before[k as int].1 == id_count(prefix, t.id@));
                lemma_count_bound(prefix, t.id@);
            }
            let nsum = combine(t.sum, values[i]);
            out.set(k, Tally { id: t.id, sum: nsum, count: t.count + 1 });
            proof {
                assert(t.id@ == ids@[i as int]@);
                assert(folds(*combine, values_of(prefix, vprefix, t.id@), t.sum));
                lemma_folds_push(*combine, values_of(prefix, vprefix, t.id@), t.sum, values@[i as int], nsum);
                assert forall|j: int| 0 <= j < out@.len() implies folds(*combine, values_of(next, vnext, #[trigger] out@[j].id@), out@[j].sum) by {
                    if j != k {
                        assert(out@[j] == old_out[j]);
                        assert(before[j].0 != before[k as int].0);
                        assert(folds(*combine, values_of(prefix, vprefix, old_out[j].id@), old_out[j].sum));
                    }
                }
                let after = tallies_view(out@);
                assert(after =~= before.update(k as int, (t.id@, (t.count + 1) as nat)));
                assert forall|j: int| 0 <= j < after.len() implies #[trigger] after[j].1 == id_count(next, after[j].0) && after[j].1 > 0 by {
                    if j != k {
                        assert(after[j] == before[j]);
                    }
                }
                assert forall|id: Seq<u8>| #[trigger] id_count(next, id) > 0 implies exists|j: int| 0 <= j < after.len() && after[j].0 == id by {
                    if id_count(prefix, id) > 0 {
                        let j = choose|j: int| 0 <= j < before.len() && before[j].0 == id;
                        assert(after[j].0 == id);
                    } else {
                        assert(after[k as int].0 == id);
                    }
                }
            }
        } else {
            out.push(Tally { id: ids[i], sum: values[i], count: 1 });
            proof {
                assert(values_of(prefix, vprefix, ids@[i as int]@).len() == 0) by {
                    lemma_values_len(prefix, vprefix, ids@[i as int]@);
                    if id_count(prefix, ids@[i as int]@) > 0 {
                        let j = choose|j: int| 0 <= j < before.len() && before[j].0 == ids@[i as int]@;
                        assert(old_out[j].id@ == before[j].0);
                    }
                }
                assert(values_of(next, vnext, ids@[i as int]@) =~= seq![values@[i as int]]);
                assert forall|j: int| 0 <= j < out@.len() implies folds(*combine, values_of(next, vnext, #[trigger] out@[j].id@), out@[j].sum) by {
                    if j < old_out.len() {
                        assert(out@[j] == old_out[j]);
                        assert(old_out[j].id@ != ids@[i as int]@);
                        assert(folds(*combine, values_of(prefix, vprefix, old_out[j].id@), old_out[j].sum));
                    }
                }
                let after = tallies_view(out@);
                assert(after =~= before.push((ids@[i as int]@, 1nat)));
                assert(id_count(prefix, ids@[i as int]@) == 0) by {
                    if id_count(prefix, ids@[i as int]@) > 0 {
                        let j = choose|j: int| 0 <= j < before.len() && before[j].0 == ids@[i as int]@;
                        assert(out@[j].id@ == before[j].0);
                    }
                }
                assert forall|j: int| 0 <= j < after.len() implies #[trigger] after[j].1 == id_count(next, after[j].0) && after[j].1 > 0 by {
                    if j < before.len() {
                        assert(after[j] == before[j]);
                        assert(out@[j].id@ != ids@[i as int]@);
                    }
                }
                assert forall|a: int, b: int| 0 <= a < after.len() && 0 <= b < after.len() && a != b implies after[a].0 != after[b].0 by {
                    if a < before.len() && b < before.len() {
                        assert(after[a] == before[a] && after[b] == before[b]);
                    } else if a < before.len() {
                        assert(out@[a].id@ != ids@[i as int]@);
                    } else {
                        assert(out@[b].id@ != ids@[i as int]@);
                    }
                }
                assert forall|id: Seq<u8>| #[trigger] id_count(next, id) > 0 implies exists|j: int| 0 <= j < after.len() && after[j].0 == id by {
                    if id_count(prefix, id) > 0 {
                        let j = choose|j: int| 0 <= j < before.len() && before[j].0 == id;
                        assert(after[j].0 == id);
                    } else {
                        assert(after[before.len() as int].0 == id);
                    }
                }
            }
        }
        i = i + 1;
    }
    proof {
        assert(ids@.subrange(0, ids@.len() as int) =~= ids@);
        assert(values@.subrange(0, values@.len() as int) =~= values@);
    }
    out
}

/// Some tally of `id` has at least `MIN_SUPPORT` observations.
pub open spec fn qualifies(t: Seq<(Seq<u8>, nat)>, id: Seq<u8>) -> bool {
    exists|i: int| 0 <= i < t.len() && t[i].0 == id && t[i].1 >= MIN_SUPPORT
}

/// The tally of `id` has at least `MIN_SUPPORT` observations and `mean`
/// of it may give `x`.
pub open spec fn mean_of_tally<const W: usize, FM: Fn(u64, usize) -> u64>(
    tallies: Seq<Tally<W>>,
    id: Seq<u8>,
    mean: FM,
    x: u64,
) -> bool {
    exists|i: int|
        0 <= i < tallies.len() && tallies[i].id@ == id && tallies[i].count >= MIN_SUPPORT
            && #[trigger] mean.ensures((tallies[i].sum, tallies[i].count), x)
}

/// `target` is what the score of a known `id` moves towards: a mean of its
/// tally when that has at least `MIN_SUPPORT` observations, else `median`.
pub open spec fn target_for<const W: usize, FM: Fn(u64, usize) -> u64>(
    tallies: Seq<Tally<W>>,
    id: Seq<u8>,
    median: u64,
    mean: FM,
    target: u64,
) -> bool {
    if qualifies(tallies_view(tallies), id) {
        mean_of_tally(tallies, id, mean, target)
    } else {
        target == median
    }
}

/// `new_score` is `ema` of `old_score` and the target of `id`.
pub open spec fn moved_score<const W: usize, FM: Fn(u64, usize) -> u64, FE: Fn(u64, u64) -> u64>(
    tallies: Seq<Tally<W>>,
    median: u64,
    mean: FM,
    ema: FE,
    id: Seq<u8>,
    old_score: u64,
    new_score: u64,
) -> bool {
    exists|target: u64| target_for(tallies, id, median, mean, target) && #[trigger] ema.ensures((old_score, target), new_score)
}

/// `after` is `before` having absorbed `tallies`: each known score moved
/// towards its target, each new id with enough observations added at a
/// mean of its tally, nothing else.
pub open spec fn absorbed<const W: usize, FM: Fn(u64, usize) -> u64, FE: Fn(u64, u64) -> u64>(
    before: Map<Seq<u8>, u64>,
    median: u64,
    tallies: Seq<Tally<W>>,
    mean: FM,
    ema: FE,
    after: Map<Seq<u8>, u64>,
) -> bool {
    &&& forall|id: Seq<u8>|
        #[trigger] after.contains_key(id) <==> (before.contains_key(id) || qualifies(tallies_view(tallies), id))
    &&& forall|id: Seq<u8>|
        #[trigger] before.contains_key(id) ==> moved_score(tallies, median, mean, ema, id, before[id], after[id])
    &&& forall|id: Seq<u8>|
        !before.contains_key(id) && #[trigger] qualifies(tallies_view(tallies), id) ==> mean_of_tally(
            tallies,
            id,
            mean,
            after[id],
        )
}

impl<const W: usize> ScoreTable<W> {
    /// Moves each score `s` to `ema(s, target)`, where the target is
    /// `mean` of the id's tally when it has at least `MIN_SUPPORT`
    /// observations, else the table's median; then adds each new id with
    /// such a tally at `mean` of it.
    pub fn absorb<FM: Fn(u64, usize) -> u64, FE: Fn(u64, u64) -> u64>(
        &mut self,
        tallies: &Vec<Tally<W>>,
        mean: &FM,
        ema: &FE,
    )
        requires
            old(self).inv(),
            forall|i: int, j: int|
                0 <= i < tallies@.len() && 0 <= j < tallies@.len() && i != j ==> tallies@[i].id@ != tallies@[j].id@,
            forall|a: u64, n: usize| #[trigger] mean.requires((a, n)),
            forall|a: u64, b: u64| #[trigger] ema.requires((a, b)),
        ensures
            final(self).inv(),
            absorbed(old(self).scores(), median_of(old(self).view()), tallies@, *mean, *ema, final(self).scores()),
    {
        let ghost s0 = self.scores();
        let ghost d0 = s0.dom();
        let ghost tv = tallies_view(tallies@);
        let median = self.median();
        let snapshot = self.entries();
        let ghost sn = snapshot@;
        proof {
            let v = self.view();
            lemma_views_agree(v);
            assert forall|x: int| 0 <= x < sn.len() implies d0.contains(#[trigger] sn[x].1@) && s0[sn[x].1@] == sn[x].0 by {
                assert(entries_view(sn)[x] == (sn[x].0, sn[x].1@));
                assert(score_map(v).contains_key(v[x].1));
            }
            assert forall|id: Seq<u8>| #[trigger] d0.contains(id) implies exists|x: int| 0 <= x < sn.len() && sn[x].1@ == id by {
                let x = choose|x: int| 0 <= x < v.len() && v[x] == (score_map(v)[id], id);
                assert(entries_view(sn)[x] == (sn[x].0, sn[x].1@));
            }
            assert forall|x: int, y: int| 0 <= x < sn.len() && 0 <= y < sn.len() && x != y implies sn[x].1@ != sn[y].1@ by {
                assert(entries_view(sn)[x] == (sn[x].0, sn[x].1@));
                assert(entries_view(sn)[y] == (sn[y].0, sn[y].1@));
            }
        }
        let mut used: Vec<bool> = Vec::new();
        let mut k: usize = 0;
        while k < tallies.len()
            invariant
                k <= tallies@.len(),
                used@.len() == k,
                forall|j: int| 0 <= j < k ==> !(#[trigger] used@[j]),
            decreases tallies@.len() - k,
        {
            used.push(false);
            k = k + 1;
        }
        let mut i: usize = 0;
        while i < snapshot.len()
            invariant
                self.inv(),
                sn == snapshot@,
                tv == tallies_view(tallies@),
                d0 == s0.dom(),
                median == median_of(old(self).view()),
                s0 == old(self).scores(),
                i <= sn.len(),
                forall|x: int| 0 <= x < sn.len() ==> d0.contains(#[trigger] sn[x].1@) && s0[sn[x].1@] == sn[x].0,
                forall|x: int, y: int| 0 <= x < sn.len() && 0 <= y < sn.len() && x != y ==> sn[x].1@ != sn[y].1@,
                forall|a: int, b: int|
                    0 <= a < tallies@.len() && 0 <= b < tallies@.len() && a != b ==> tallies@[a].id@ != tallies@[b].id@,
                self.scores().dom() == d0,
                used@.len() == tallies@.len(),
                forall|j: int| 0 <= j < used@.len() && #[trigger] used@[j] ==> d0.contains(tallies@[j].id@),
                forall|j: int, x: int| 0 <= j < used@.len() && 0 <= x < i && #[trigger] sn[x].1@ == #[trigger] tallies@[j].id@ ==> used@[j],
                forall|x: int| 0 <= x < i ==> moved_score(tallies@, median, *mean, *ema, #[trigger] sn[x].1@, s0[sn[x].1@], self.scores()[sn[x].1@]),
                forall|x: int| i <= x < sn.len() ==> self.scores()[#[trigger] sn[x].1@] == s0[sn[x].1@],
                forall|a: u64, n: usize| #[trigger] mean.requires((a, n)),
                forall|a: u64, b: u64| #[trigger] ema.requires((a, b)),
            decreases sn.len() - i,
        {
            let (old_score, id) = snapshot[i];
            let mut k: usize = 0;
            let mut found = false;
            while k < tallies.len() && !found
                invariant
                    k <= tallies@.len(),
                    found ==> k < tallies@.len() && tallies@[k as int].id@ == id@,
                    forall|j: int| 0 <= j < k ==> tallies@[j].id@ != id@,
                decreases tallies@.len() - k, if found { 0int } else { 1int },
            {
                if same_array(&tallies[k].id, &id) {
                    found = true;
                } else {
                    k = k + 1;
                }
            }
            let mut target = median;
            if found {
                used.set(k, true);
                if tallies[k].count >= MIN_SUPPORT {
                    target = mean(tallies[k].sum, tallies[k].count);
                }
            }
            let new_score = ema(old_score, target);
            let ghost before = self.scores();
            self.set(id, new_score);
            proof {
                assert(sn[i as int].1@ == id@);
                assert(d0.contains(id@));
                assert(self.scores().dom() =~= d0);
                assert(target_for(tallies@, id@, median, *mean, target)) by {
                    if found && tallies@[k as int].count >= MIN_SUPPORT {
                        assert(tv[k as int] == (id@, tallies@[k as int].count as nat));
                    } else if qualifies(tv, id@) {
                        let j = choose|j: int| 0 <= j < tv.len() && tv[j].0 == id@ && tv[j].1 >= MIN_SUPPORT;
                        assert(tv[j] == (tallies@[j].id@, tallies@[j].count as nat));
                    }
                }
                assert(moved_score(tallies@, median, *mean, *ema, id@, s0[id@], self.scores()[id@]));
                assert forall|x: int| 0 <= x < i + 1 implies moved_score(tallies@, median, *mean, *ema, #[trigger] sn[x].1@, s0[sn[x].1@], self.scores()[sn[x].1@]) by {
                    if x < i {
                        assert(sn[x].1@ != id@);
                        assert(self.scores()[sn[x].1@] == before[sn[x].1@]);
                    }
                }
                assert forall|x: int| i + 1 <= x < sn.len() implies self.scores()[#[trigger] sn[x].1@] == s0[sn[x].1@] by {
                    assert(sn[x].1@ != id@);
                }
                assert forall|j: int, x: int| 0 <= j < used@.len() && 0 <= x < i + 1 && #[trigger] sn[x].1@ == #[trigger] tallies@[j].id@ implies used@[j] by {
                    if x == i {
                        assert(found);
                        assert(j == k);
                    }
                }
            }
            i = i + 1;
        }
        proof {
            assert forall|id: Seq<u8>| #[trigger] d0.contains(id) implies moved_score(tallies@, median, *mean, *ema, id, s0[id], self.scores()[id]) by {
                let x = choose|x: int| 0 <= x < sn.len() && sn[x].1@ == id;
            }
            assert forall|j: int| 0 <= j < tallies@.len() && d0.contains(#[trigger] tallies@[j].id@) implies used@[j] by {
                let x = choose|x: int| 0 <= x < sn.len() && sn[x].1@ == tallies@[j].id@;
            }
        }
        let ghost s1 = self.scores();
        let mut k: usize = 0;
        while k < tallies.len()
            invariant
                self.inv(),
                tv == tallies_view(tallies@),
                d0 == s0.dom(),
                median == median_of(old(self).view()),
                s0 == old(self).scores(),
                forall|id: Seq<u8>| #[trigger] d0.contains(id) ==> moved_score(tallies@, median, *mean, *ema, id, s0[id], s1[id]),
                k <= tallies@.len(),
                used@.len() == tallies@.len(),
                forall|a: int, b: int|
                    0 <= a < tallies@.len() && 0 <= b < tallies@.len() && a != b ==> tallies@[a].id@ != tallies@[b].id@,
                forall|j: int| 0 <= j < used@.len() && #[trigger] used@[j] ==> d0.contains(tallies@[j].id@),
                forall|j: int| 0 <= j < tallies@.len() && d0.contains(#[trigger] tallies@[j].id@) ==> used@[j],
                forall|id: Seq<u8>|
                    #[trigger] self.scores().contains_key(id) <==> (d0.contains(id) || exists|j: int|
                        0 <= j < k && tv[j].0 == id && tv[j].1 >= MIN_SUPPORT),
                forall|id: Seq<u8>| #[trigger] d0.contains(id) ==> self.scores()[id] == s1[id],
                forall|j: int|
                    0 <= j < k && !d0.contains(tallies@[j].id@) && tallies@[j].count >= MIN_SUPPORT ==> mean_of_tally(
                        tallies@,
                        #[trigger] tallies@[j].id@,
                        *mean,
                        self.scores()[tallies@[j].id@],
                    ),
                forall|a: u64, n: usize| #[trigger] mean.requires((a, n)),
            decreases tallies@.len() - k,
        {
            let tk = tallies[k];
            let ghost before = self.scores();
            if !used[k] && tk.count >= MIN_SUPPORT {
                let m = mean(tk.sum, tk.count);
                self.set(tk.id, m);
                proof {
                    assert(!d0.contains(tk.id@));
                    assert(mean_of_tally(tallies@, tk.id@, *mean, self.scores()[tk.id@]));
                }
            }
            proof {
                assert(tv[k as int] == (tk.id@, tk.count as nat));
                assert forall|id: Seq<u8>|
                    #[trigger] self.scores().contains_key(id) <==> (d0.contains(id) || exists|j: int|
                        0 <= j < k + 1 && tv[j].0 == id && tv[j].1 >= MIN_SUPPORT) by {
                    if exists|j: int| 0 <= j < k + 1 && tv[j].0 == id && tv[j].1 >= MIN_SUPPORT {
                        let j = choose|j: int| 0 <= j < k + 1 && tv[j].0 == id && tv[j].1 >= MIN_SUPPORT;
                        if j < k {
                            assert(before.contains_key(id));
                        } else if used@[k as int] {
                            assert(d0.contains(id));
                        }
                    }
                    if self.scores().contains_key(id) && !d0.contains(id) && !before.contains_key(id) {
                        assert(tv[k as int].0 == id && tv[k as int].1 >= MIN_SUPPORT);
                    }
                }
                assert forall|id: Seq<u8>| #[trigger] d0.contains(id) implies self.scores()[id] == s1[id] by {
                    if id == tk.id@ {
                        assert(used@[k as int]);
                    }
                }
                assert forall|j: int|
                    0 <= j < k + 1 && !d0.contains(tallies@[j].id@) && tallies@[j].count >= MIN_SUPPORT implies mean_of_tally(
                        tallies@,
                        #[trigger] tallies@[j].id@,
                        *mean,
                        self.scores()[tallies@[j].id@],
                    ) by {
                    if j < k {
                        assert(tallies@[j].id@ != tk.id@);
                        assert(self.scores()[tallies@[j].id@] == before[tallies@[j].id@]);
                    }
                }
            }
            k = k + 1;
        }
        proof {
            assert forall|id: Seq<u8>|
                !s0.contains_key(id) && #[trigger] qualifies(tv, id) implies mean_of_tally(tallies@, id, *mean, self.scores()[id]) by {
                let j = choose|j: int| 0 <= j < tv.len() && tv[j].0 == id && tv[j].1 >= MIN_SUPPORT;
                assert(tv[j] == (tallies@[j].id@, tallies@[j].count as nat));
            }
            assert forall|id: Seq<u8>| #[trigger] s0.contains_key(id) implies moved_score(tallies@, median, *mean, *ema, id, s0[id], self.scores()[id]) by {
                assert(d0.contains(id));
            }
            assert forall|id: Seq<u8>| #[trigger] self.scores().contains_key(id) <==> (s0.contains_key(id) || qualifies(tv, id)) by {
                if qualifies(tv, id) {
                    let j = choose|j: int| 0 <= j < tv.len() && tv[j].0 == id && tv[j].1 >= MIN_SUPPORT;
                }
            }
        }
    }
}

/// The four bytes an address is keyed by: the integer little-endian.
pub open spec fn ip_bytes(ip: u32) -> Seq<u8> {
    seq![ip as u8, (ip >> 8u32) as u8, (ip >> 16u32) as u8, (ip >> 24u32) as u8]
}

fn ip_id(ip: u32) -> (r: [u8; 4])
    ensures
        r@ == ip_bytes(ip),
{
    let r = [ip as u8, (ip >> 8u32) as u8, (ip >> 16u32) as u8, (ip >> 24u32) as u8];
    proof {
        assert(r@ =~= ip_bytes(ip));
    }
    r
}

/// The score `table` gives `id`, or its median when it holds none.
pub open spec fn score_or_median(table: Seq<(u64, Seq<u8>)>, id: Seq<u8>) -> u64 {
    if score_map(table).contains_key(id) {
        score_map(table)[id]
    } else {
        median_of(table)
    }
}

/// `new` is `old` after the score of a known `ip` was replaced by
/// `penalty` of it; an unknown `ip` leaves the model as it was.
pub open spec fn penalized<F: Fn(u64) -> u64>(old: IpSignerModel, new: IpSignerModel, ip: u32, penalty: F) -> bool {
    &&& new.signer_table() == old.signer_table()
    &&& score_map(old.ip_table()).contains_key(ip_bytes(ip)) ==> exists|y: u64|
        penalty.ensures((score_map(old.ip_table())[ip_bytes(ip)],), y) && score_map(new.ip_table())
            == score_map(old.ip_table()).insert(ip_bytes(ip), y)
    &&& !score_map(old.ip_table()).contains_key(ip_bytes(ip)) ==> new.ip_table() == old.ip_table()
}

/// A completed transaction as the model learns from it: source, fee payer,
/// and value as the bit pattern of a non-negative double.
#[derive(Clone, Copy)]
pub struct Observation {
    pub ip: u32,
    pub signer: [u8; 32],
    pub value: u64,
}

/// The address ids of a batch of observations.
pub open spec fn observed_ips(obs: Seq<Observation>) -> Seq<Seq<u8>> {
    obs.map_values(|o: Observation| ip_bytes(o.ip))
}

/// The fee-payer ids of a batch of observations.
pub open spec fn observed_signers(obs: Seq<Observation>) -> Seq<Seq<u8>> {
    obs.map_values(|o: Observation| o.signer@)
}

/// `x` may be what `mean` gives for the values `vals`: their fold by
/// `combine` and their number.
pub open spec fn mean_of_values<FA: Fn(u64, u64) -> u64, FM: Fn(u64, usize) -> u64>(
    combine: FA,
    mean: FM,
    vals: Seq<u64>,
    x: u64,
) -> bool {
    exists|sum: u64| folds(combine, vals, sum) && #[trigger] mean.ensures((sum, vals.len() as usize), x)
}

/// The values of a batch of observations.
pub open spec fn observed_values(obs: Seq<Observation>) -> Seq<u64> {
    obs.map_values(|o: Observation| o.value)
}

/// `after` is `before` having learned from observations of `ids` with
/// values `vals`: it holds the ids of `before` and those observed at least
/// `MIN_SUPPORT` times; a known id's score is `ema` of its old score and a
/// target (the mean of its observed values when there are enough, else
/// `median`); a new id's score is the mean of its observed values.
pub open spec fn learned<FA: Fn(u64, u64) -> u64, FM: Fn(u64, usize) -> u64, FE: Fn(u64, u64) -> u64>(
    before: Map<Seq<u8>, u64>,
    ids: Seq<Seq<u8>>,
    vals: Seq<u64>,
    median: u64,
    combine: FA,
    mean: FM,
    ema: FE,
    after: Map<Seq<u8>, u64>,
) -> bool {
    &&& forall|id: Seq<u8>|
        #[trigger] after.contains_key(id) <==> (before.contains_key(id) || id_count(ids, id) >= MIN_SUPPORT)
    &&& forall|id: Seq<u8>|
        #[trigger] before.contains_key(id) ==> exists|target: u64|
            (if id_count(ids, id) >= MIN_SUPPORT {
                mean_of_values(combine, mean, values_of(ids, vals, id), target)
            } else {
                target == median
            }) && #[trigger] ema.ensures((before[id], target), after[id])
    &&& forall|id: Seq<u8>|
        !before.contains_key(id) && #[trigger] id_count(ids, id) >= MIN_SUPPORT ==> mean_of_values(
            combine,
            mean,
            values_of(ids, vals, id),
            after[id],
        )
}

proof fn lemma_learned<const W: usize, FA: Fn(u64, u64) -> u64, FM: Fn(u64, usize) -> u64, FE: Fn(u64, u64) -> u64>(
    before: Map<Seq<u8>, u64>,
    median: u64,
    tallies: Seq<Tally<W>>,
    ids: Seq<Seq<u8>>,
    vals: Seq<u64>,
    combine: FA,
    mean: FM,
    ema: FE,
    after: Map<Seq<u8>, u64>,
)
    requires
        absorbed(before, median, tallies, mean, ema, after),
        tallies_of(tallies_view(tallies), ids),
        ids.len() == vals.len(),
        forall|i: int| 0 <= i < tallies.len() ==> folds(combine, values_of(ids, vals, #[trigger] tallies[i].id@), tallies[i].sum),
    ensures
        learned(before, ids, vals, median, combine, mean, ema, after),
{
    let t = tallies_view(tallies);
    assert forall|id: Seq<u8>| #[trigger] after.contains_key(id) <==> (before.contains_key(id) || id_count(ids, id) >= MIN_SUPPORT) by {
        lemma_qualifies(t, ids, id);
    }
    assert forall|id: Seq<u8>, x: u64| mean_of_tally(tallies, id, mean, x) implies #[trigger] mean_of_values(combine, mean, values_of(ids, vals, id), x) by {
        let i = choose|i: int| 0 <= i < tallies.len() && tallies[i].id@ == id && tallies[i].count >= MIN_SUPPORT
            && #[trigger] mean.ensures((tallies[i].sum, tallies[i].count), x);
        assert(t[i] == (id, tallies[i].count as nat));
        assert(t[i].1 == id_count(ids, t[i].0));
        lemma_values_len(ids, vals, id);
        assert(folds(combine, values_of(ids, vals, tallies[i].id@), tallies[i].sum));
        assert(mean.ensures((tallies[i].sum, values_of(ids, vals, id).len() as usize), x));
    }
    assert forall|id: Seq<u8>| #[trigger] before.contains_key(id) implies exists|target: u64|
        (if id_count(ids, id) >= MIN_SUPPORT {
            mean_of_values(combine, mean, values_of(ids, vals, id), target)
        } else {
            target == median
        }) && #[trigger] ema.ensures((before[id], target), after[id]) by {
        lemma_qualifies(t, ids, id);
        assert(moved_score(tallies, median, mean, ema, id, before[id], after[id]));
        let target = choose|target: u64| target_for(tallies, id, median, mean, target) && #[trigger] ema.ensures((before[id], target), after[id]);
        if id_count(ids, id) >= MIN_SUPPORT {
            assert(mean_of_tally(tallies, id, mean, target));
            assert(mean_of_values(combine, mean, values_of(ids, vals, id), target));
        }
    }
    assert forall|id: Seq<u8>| !before.contains_key(id) && #[trigger] id_count(ids, id) >= MIN_SUPPORT implies mean_of_values(combine, mean, values_of(ids, vals, id), after[id]) by {
        lemma_qualifies(t, ids, id);
        assert(mean_of_tally(tallies, id, mean, after[id]));
    }
}

/// Pruning keeps the scores of the entries it keeps.
pub proof fn lemma_prune_keeps_scores(s: Seq<(u64, Seq<u8>)>, keep: nat)
    requires
        distinct_ids(s),
    ensures
        forall|id: Seq<u8>|
            #[trigger] score_map(without_middle(s, keep)).contains_key(id) ==> score_map(s).contains_key(id)
                && score_map(without_middle(s, keep))[id] == score_map(s)[id],
{
    let w = without_middle(s, keep);
    if s.len() > keep {
        let a = ((keep + 1) / 2) as int;
        let d = s.len() - keep;
        assert forall|i: int, j: int| 0 <= i < w.len() && 0 <= j < w.len() && i != j implies w[i].1 != w[j].1 by {
            let x = if i < a { i } else { i + d };
            let y = if j < a { j } else { j + d };
            assert(w[i] == s[x] && w[j] == s[y]);
        }
        assert forall|id: Seq<u8>| #[trigger] score_map(w).contains_key(id) implies score_map(s).contains_key(id) && score_map(w)[id] == score_map(s)[id] by {
            let i = choose|i: int| 0 <= i < w.len() && w[i].1 == id;
            let x = if i < a { i } else { i + d };
            assert(w[i] == s[x]);
            lemma_map_lookup(w, i);
            lemma_map_lookup(s, x);
        }
    }
}

proof fn lemma_qualifies(t: Seq<(Seq<u8>, nat)>, ids: Seq<Seq<u8>>, id: Seq<u8>)
    requires
        tallies_of(t, ids),
    ensures
        qualifies(t, id) <==> id_count(ids, id) >= MIN_SUPPORT,
{
    if qualifies(t, id) {
        let i = choose|i: int| 0 <= i < t.len() && t[i].0 == id && t[i].1 >= MIN_SUPPORT;
        assert(t[i].1 == id_count(ids, t[i].0));
    }
    if id_count(ids, id) >= MIN_SUPPORT {
        assert(id_count(ids, id) > 0);
        let i = choose|i: int| 0 <= i < t.len() && t[i].0 == id;
        assert(t[i].1 == id_count(ids, t[i].0));
    }
}

proof fn lemma_tally_ids_distinct<const W: usize>(r: Seq<Tally<W>>, ids: Seq<Seq<u8>>)
    requires
        tallies_of(tallies_view(r), ids),
    ensures
        forall|i: int, j: int| 0 <= i < r.len() && 0 <= j < r.len() && i != j ==> r[i].id@ != r[j].id@,
{
    let t = tallies_view(r);
    assert forall|i: int, j: int| 0 <= i < r.len() && 0 <= j < r.len() && i != j implies r[i].id@ != r[j].id@ by {
        assert(t[i].0 == r[i].id@ && t[j].0 == r[j].id@);
    }
}

/// Reputation of source addresses and fee payers.
pub struct IpSignerModel {
    signer_score: ScoreTable<32>,
    ip_score: ScoreTable<4>,
}

impl IpSignerModel {
    /// Address scores, lowest first.
    pub closed spec fn ip_table(&self) -> Seq<(u64, Seq<u8>)> {
        self.ip_score.view()
    }

    /// Fee-payer scores, lowest first.
    pub closed spec fn signer_table(&self) -> Seq<(u64, Seq<u8>)> {
        self.signer_score.view()
    }

    /// Address scores ordered by address bytes (the lookup view).
    pub closed spec fn ip_index(&self) -> Seq<(u64, Seq<u8>)> {
        self.ip_score.index()
    }

    /// Fee-payer scores ordered by fee payer (the lookup view).
    pub closed spec fn signer_index(&self) -> Seq<(u64, Seq<u8>)> {
        self.signer_score.index()
    }

    /// In each table, the view ordered by id and the view ordered by score
    /// are permutations of each other: the same number of entries, each
    /// (score, id) entry of one standing in the other, one entry per id.
    pub proof fn lemma_views_permute(&self)
        requires
            self.inv(),
        ensures
            self.ip_index().len() == self.ip_table().len(),
            forall|i: int| 0 <= i < self.ip_index().len() ==> self.ip_table().contains(#[trigger] self.ip_index()[i]),
            forall|j: int| 0 <= j < self.ip_table().len() ==> self.ip_index().contains(#[trigger] self.ip_table()[j]),
            distinct_ids(self.ip_index()),
            self.signer_index().len() == self.signer_table().len(),
            forall|i: int| 0 <= i < self.signer_index().len() ==> self.signer_table().contains(#[trigger] self.signer_index()[i]),
            forall|j: int| 0 <= j < self.signer_table().len() ==> self.signer_index().contains(#[trigger] self.signer_table()[j]),
            distinct_ids(self.signer_index()),
    {
        self.ip_score.lemma_views_permute();
        self.signer_score.lemma_views_permute();
        lemma_sorted_distinct(self.ip_index());
        lemma_sorted_distinct(self.signer_index());
    }

    /// Both tables' id-ordered views agree with their score-ordered ones.
    pub closed spec fn indexed(&self) -> bool {
        self.ip_score.indexed() && self.signer_score.indexed()
    }

    pub open spec fn inv(&self) -> bool {
        well_ordered(self.ip_table()) && well_ordered(self.signer_table()) && self.indexed()
    }

    /// A model with empty tables.
    pub fn new() -> (r: IpSignerModel)
        ensures
            r.inv(),
            r.ip_table().len() == 0,
            r.signer_table().len() == 0,
    {
        IpSignerModel { signer_score: ScoreTable::new(), ip_score: ScoreTable::new() }
    }

    pub fn approximate_median_ip_score(&self) -> (r: u64)
        ensures
            r == median_of(self.ip_table()),
    {
        self.ip_score.median()
    }

    pub fn approximate_median_signer_score(&self) -> (r: u64)
        ensures
            r == median_of(self.signer_table()),
    {
        self.signer_score.median()
    }

    /// Address scores as (score, address bytes), lowest first; the address
    /// is the bytes of its integer key, little-endian.
    pub fn ip_entries(&self) -> (r: Vec<(u64, [u8; 4])>)
        ensures
            entries_view(r@) == self.ip_table(),
    {
        self.ip_score.entries()
    }

    /// Fee-payer scores as (score, fee payer), lowest first.
    pub fn signer_entries(&self) -> (r: Vec<(u64, [u8; 32])>)
        ensures
            entries_view(r@) == self.signer_table(),
    {
        self.signer_score.entries()
    }

    /// The score held for `ip`, if any.
    pub fn ip_score(&self, ip: u32) -> (r: Option<u64>)
        requires
            self.inv(),
        ensures
            r == (if score_map(self.ip_table()).contains_key(ip_bytes(ip)) {
                Some(score_map(self.ip_table())[ip_bytes(ip)])
            } else {
                None
            }),
    {
        self.ip_score.get(&ip_id(ip))
    }

    /// The score held for `signer`, if any.
    pub fn signer_score(&self, signer: &[u8; 32]) -> (r: Option<u64>)
        requires
            self.inv(),
        ensures
            r == (if score_map(self.signer_table()).contains_key(signer@) {
                Some(score_map(self.signer_table())[signer@])
            } else {
                None
            }),
    {
        self.signer_score.get(signer)
    }

    /// The two factors of the score of a transaction from `ip` paid by
    /// `signer`: each id's score, or the median of its table when the id is
    /// unknown (`1.0` for an empty table). The score is their product.
    pub fn forward(&self, ip: u32, signer: &[u8; 32]) -> (r: (u64, u64))
        requires
            self.inv(),
        ensures
            r.0 == score_or_median(self.ip_table(), ip_bytes(ip)),
            r.1 == score_or_median(self.signer_table(), signer@),
    {
        let a = match self.ip_score(ip) {
            Some(s) => s,
            None => self.approximate_median_ip_score(),
        };
        let b = match self.signer_score(signer) {
            Some(s) => s,
            None => self.approximate_median_signer_score(),
        };
        (a, b)
    }

    /// Sets the score of `ip` in both views.
    pub fn add_ip_score(&mut self, ip: u32, score: u64)
        requires
            old(self).inv(),
        ensures
            final(self).inv(),
            score_map(final(self).ip_table()) == score_map(old(self).ip_table()).insert(ip_bytes(ip), score),
            final(self).signer_table() == old(self).signer_table(),
    {
        self.ip_score.set(ip_id(ip), score);
    }

    /// Sets the score of `signer` in both views.
    pub fn add_signer_score(&mut self, signer: [u8; 32], score: u64)
        requires
            old(self).inv(),
        ensures
            final(self).inv(),
            score_map(final(self).signer_table()) == score_map(old(self).signer_table()).insert(signer@, score),
            final(self).ip_table() == old(self).ip_table(),
    {
        self.signer_score.set(signer, score);
    }

    /// Replaces the score of a known `ip` by `penalty` of it; an unknown
    /// `ip` is left alone.
    pub fn ip_feedback<F: Fn(u64) -> u64>(&mut self, ip: u32, penalty: F)
        requires
            old(self).inv(),
            forall|x: u64| #[trigger] penalty.requires((x,)),
        ensures
            final(self).inv(),
            penalized(*old(self), *final(self), ip, penalty),
    {
        match self.ip_score(ip) {
            Some(s) => {
                let y = penalty(s);
                self.add_ip_score(ip, y);
            },
            None => {},
        }
    }

    /// Learns from a batch of completed transactions, then prunes: each
    /// table's scores move towards the mean value observed for their id
    /// (see `ScoreTable::absorb`), ids observed at least `MIN_SUPPORT`
    /// times join, and the middle of each table is dropped down to
    /// `prune_ips` addresses and `prune_signers` fee payers. Values are
    /// combined by `combine`, averaged by `mean` and blended by `ema`.
    pub fn update_model<FA: Fn(u64, u64) -> u64, FM: Fn(u64, usize) -> u64, FE: Fn(u64, u64) -> u64>(
        &mut self,
        observations: &Vec<Observation>,
        combine: FA,
        mean: FM,
        ema: FE,
        prune_signers: usize,
        prune_ips: usize,
    )
        requires
            old(self).inv(),
            forall|a: u64, b: u64| #[trigger] combine.requires((a, b)),
            forall|a: u64, n: usize| #[trigger] mean.requires((a, n)),
            forall|a: u64, b: u64| #[trigger] ema.requires((a, b)),
        ensures
            final(self).inv(),
            final(self).ip_table().len() <= prune_ips,
            final(self).signer_table().len() <= prune_signers,
            exists|mid: Seq<(u64, Seq<u8>)>|
                well_ordered(mid) && learned(
                    score_map(old(self).ip_table()),
                    observed_ips(observations@),
                    observed_values(observations@),
                    median_of(old(self).ip_table()),
                    combine,
                    mean,
                    ema,
                    score_map(mid),
                ) && final(self).ip_table() == #[trigger] without_middle(mid, prune_ips as nat),
            exists|mid: Seq<(u64, Seq<u8>)>|
                well_ordered(mid) && learned(
                    score_map(old(self).signer_table()),
                    observed_signers(observations@),
                    observed_values(observations@),
                    median_of(old(self).signer_table()),
                    combine,
                    mean,
                    ema,
                    score_map(mid),
                ) && final(self).signer_table() == #[trigger] without_middle(mid, prune_signers as nat),
    {
        let mut ip_ids: Vec<[u8; 4]> = Vec::new();
        let mut signer_ids: Vec<[u8; 32]> = Vec::new();
        let mut values: Vec<u64> = Vec::new();
        let mut i: usize = 0;
        while i < observations.len()
            invariant
                i <= observations@.len(),
                ip_ids@.len() == i,
                signer_ids@.len() == i,
                values@.len() == i,
                ids_view(ip_ids@) == observed_ips(observations@.subrange(0, i as int)),
                ids_view(signer_ids@) == observed_signers(observations@.subrange(0, i as int)),
                values@ == observed_values(observations@.subrange(0, i as int)),
            decreases observations@.len() - i,
        {
            let o = observations[i];
            let ghost prev_ips = ip_ids@;
            let ghost prev_signers = signer_ids@;
            let ghost prefix = observations@.subrange(0, i as int);
            ip_ids.push(ip_id(o.ip));
            signer_ids.push(o.signer);
            values.push(o.value);
            i = i + 1;
            proof {
                assert(observations@.subrange(0, i as int) =~= prefix.push(o));
                assert(ids_view(ip_ids@) =~= ids_view(prev_ips).push(ip_bytes(o.ip)));
                assert(observed_ips(prefix.push(o)) =~= observed_ips(prefix).push(ip_bytes(o.ip)));
                assert(ids_view(signer_ids@) =~= ids_view(prev_signers).push(o.signer@));
                assert(observed_signers(prefix.push(o)) =~= observed_signers(prefix).push(o.signer@));
                assert(observed_values(prefix.push(o)) =~= observed_values(prefix).push(o.value));
            }
        }
        proof {
            assert(observations@.subrange(0, i as int) =~= observations@);
        }
        let ghost old_ips = self.ip_table();
        let ghost old_signers = self.signer_table();
        let ip_tallies = tally(&ip_ids, &values, &combine);
        proof {
            lemma_tally_ids_distinct(ip_tallies@, ids_view(ip_ids@));
        }
        self.ip_score.absorb(&ip_tallies, &mean, &ema);
        let ghost mid_ips = self.ip_table();
        proof {
            lemma_learned(score_map(old_ips), median_of(old_ips), ip_tallies@, ids_view(ip_ids@), values@, combine, mean, ema, score_map(mid_ips));
        }
        let signer_tallies = tally(&signer_ids, &values, &combine);
        proof {
            lemma_tally_ids_distinct(signer_tallies@, ids_view(signer_ids@));
        }
        self.signer_score.absorb(&signer_tallies, &mean, &ema);
        let ghost mid_signers = self.signer_table();
        proof {
            lemma_learned(score_map(old_signers), median_of(old_signers), signer_tallies@, ids_view(signer_ids@), values@, combine, mean, ema, score_map(mid_signers));
        }
        self.prune(prune_ips, prune_signers);
        proof {
            assert(well_ordered(mid_ips));
            assert(self.ip_table() == without_middle(mid_ips, prune_ips as nat));
            assert(well_ordered(mid_signers));
            assert(self.signer_table() == without_middle(mid_signers, prune_signers as nat));
        }
    }

    /// Drops scores from the middle of each table until at most `num_ips`
    /// addresses and `num_signers` fee payers remain.
    pub fn prune(&mut self, num_ips: usize, num_signers: usize)
        requires
            old(self).inv(),
        ensures
            final(self).inv(),
            final(self).ip_table() == without_middle(old(self).ip_table(), num_ips as nat),
            final(self).signer_table() == without_middle(old(self).signer_table(), num_signers as nat),
            final(self).ip_table().len() <= num_ips,
            final(self).signer_table().len() <= num_signers,
    {
        self.ip_score.prune(num_ips);
        self.signer_score.prune(num_signers);
    }
}

} // verus!
