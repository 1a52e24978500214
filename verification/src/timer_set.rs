//! An ordered map from timer keys to wakers.
//!
//! A timer is identified by its key: the deadline (in clock ticks) and an id that tells
//! apart timers with the same deadline. Timers are kept in the order in which they fire,
//! as a vector sorted strictly by key, so every key occurs at most once.
use vstd::prelude::*;

verus! {

/// The order in which timers fire: by deadline, then by id.
pub open spec fn key_lt(a: (u64, usize), b: (u64, usize)) -> bool {
    a.0 < b.0 || (a.0 == b.0 && a.1 < b.1)
}

/// One registered timer.
pub struct TimerEntry<W> {
    pub when: u64,
    pub id: usize,
    pub waker: W,
}

impl<W> TimerEntry<W> {
    pub open spec fn key(self) -> (u64, usize) {
        (self.when, self.id)
    }
}

/// The entries are in strictly increasing key order.
pub open spec fn sorted_entries<W>(s: Seq<TimerEntry<W>>) -> bool {
    forall|i: int, j: int|
        #![trigger s[i], s[j]]
        0 <= i < j < s.len() ==> key_lt(s[i].key(), s[j].key())
}

pub open spec fn has_key<W>(s: Seq<TimerEntry<W>>, k: (u64, usize)) -> bool {
    exists|i: int| 0 <= i < s.len() && #[trigger] s[i].key() == k
}

pub open spec fn index_of_key<W>(s: Seq<TimerEntry<W>>, k: (u64, usize)) -> int {
    choose|i: int| 0 <= i < s.len() && #[trigger] s[i].key() == k
}

/// The map from keys to wakers that a sequence of entries stands for.
pub open spec fn entries_map<W>(s: Seq<TimerEntry<W>>) -> Map<(u64, usize), W> {
    Map::new(|k: (u64, usize)| has_key(s, k), |k: (u64, usize)| s[index_of_key(s, k)].waker)
}

/// The timers of `m` that fire before key `k`.
pub open spec fn keys_below<W>(m: Map<(u64, usize), W>, k: (u64, usize)) -> Map<(u64, usize), W> {
    Map::new(|kk: (u64, usize)| m.dom().contains(kk) && key_lt(kk, k), |kk: (u64, usize)| m[kk])
}

/// The timers of `m` at key `k` or after it.
pub open spec fn keys_from<W>(m: Map<(u64, usize), W>, k: (u64, usize)) -> Map<(u64, usize), W> {
    Map::new(|kk: (u64, usize)| m.dom().contains(kk) && !key_lt(kk, k), |kk: (u64, usize)| m[kk])
}

/// `k` is the first key of `m` in firing order.
pub open spec fn is_first_key<W>(m: Map<(u64, usize), W>, k: (u64, usize)) -> bool {
    &&& m.dom().contains(k)
    &&& forall|kk: (u64, usize)| #[trigger] m.dom().contains(kk) ==> kk == k || key_lt(k, kk)
}

/// A map has at most one first key.
pub proof fn lemma_first_key_unique<W>(m: Map<(u64, usize), W>, k1: (u64, usize), k2: (u64, usize))
    requires
        is_first_key(m, k1),
        is_first_key(m, k2),
    ensures
        k1 == k2,
{
    assert(m.dom().contains(k1) && m.dom().contains(k2));
}

/// `ws` are the wakers of `m`, each once, in firing order.
pub open spec fn wakers_in_order<W>(m: Map<(u64, usize), W>, ws: Seq<W>) -> bool {
    exists|s: Seq<TimerEntry<W>>|
        #[trigger] sorted_entries(s) && entries_map(s) == m && ws == s.map_values(
            |e: TimerEntry<W>| e.waker,
        )
}

/// Two ordered listings of the same timers are the same listing.
proof fn lemma_sorted_unique<W>(s1: Seq<TimerEntry<W>>, s2: Seq<TimerEntry<W>>)
    requires
        sorted_entries(s1),
        sorted_entries(s2),
        entries_map(s1) == entries_map(s2),
    ensures
        s1 == s2,
    decreases s1.len(),
{
    if s1.len() == 0 {
        if s2.len() > 0 {
            lemma_key_index(s2, 0);
        }
        assert(s1 =~= s2);
    } else {
        lemma_key_index(s1, 0);
        if s2.len() == 0 {
            assert(false);
        }
        lemma_key_index(s2, 0);
        let k1 = s1[0].key();
        let k2 = s2[0].key();
        let j1 = index_of_key(s2, k1);
        lemma_key_index(s2, j1);
        let j2 = index_of_key(s1, k2);
        lemma_key_index(s1, j2);
        if j1 > 0 {
            assert(key_lt(s2[0].key(), s2[j1].key()));
            if j2 > 0 {
                assert(key_lt(s1[0].key(), s1[j2].key()));
            }
        }
        if j2 > 0 {
            assert(key_lt(s1[0].key(), s1[j2].key()));
        }
        assert(k1 == k2);
        assert(s1[0] == s2[0]);
        lemma_remove_at(s1, 0);
        lemma_remove_at(s2, 0);
        lemma_sorted_unique(s1.remove(0), s2.remove(0));
        assert forall|i: int| 0 <= i < s1.len() implies s1[i] == s2[i] by {
            if i > 0 {
                assert(s1[i] == s1.remove(0)[i - 1]);
                assert(s2[i] == s2.remove(0)[i - 1]);
            }
        }
        assert(s1.len() == s2.len());
        assert(s1 =~= s2);
    }
}

/// The wakers of a set of timers, in firing order, are determined by the set.
pub proof fn law_wakers_in_order_unique<W>(m: Map<(u64, usize), W>, a: Seq<W>, b: Seq<W>)
    requires
        wakers_in_order(m, a),
        wakers_in_order(m, b),
    ensures
        a == b,
{
    let sa = choose|s: Seq<TimerEntry<W>>|
        #[trigger] sorted_entries(s) && entries_map(s) == m && a == s.map_values(
            |e: TimerEntry<W>| e.waker,
        );
    let sb = choose|s: Seq<TimerEntry<W>>|
        #[trigger] sorted_entries(s) && entries_map(s) == m && b == s.map_values(
            |e: TimerEntry<W>| e.waker,
        );
    lemma_sorted_unique(sa, sb);
}

/// Listing no timers gives no wakers; listing some gives some.
pub proof fn lemma_wakers_in_order_len<W>(m: Map<(u64, usize), W>, ws: Seq<W>)
    requires
        wakers_in_order(m, ws),
    ensures
        (ws.len() == 0) == (m == Map::<(u64, usize), W>::empty()),
{
    let s = choose|s: Seq<TimerEntry<W>>|
        #[trigger] sorted_entries(s) && entries_map(s) == m && ws == s.map_values(
            |e: TimerEntry<W>| e.waker,
        );
    if s.len() == 0 {
        assert(m =~= Map::<(u64, usize), W>::empty());
    } else {
        lemma_key_index(s, 0);
        assert(m.dom().contains(s[0].key()));
    }
}

/// Splitting at a key loses and duplicates nothing: the timers before the key and the
/// timers from it on are disjoint and together make up the whole map.
pub proof fn law_split_partitions<W>(m: Map<(u64, usize), W>, k: (u64, usize))
    ensures
        keys_below(m, k).dom().disjoint(keys_from(m, k).dom()),
        keys_below(m, k).union_prefer_right(keys_from(m, k)) == m,
{
    assert(keys_below(m, k).union_prefer_right(keys_from(m, k)) =~= m);
}

/// Timers ordered by key, each key at most once.
pub struct TimerSet<W> {
    entries: Vec<TimerEntry<W>>,
}

impl<W> View for TimerSet<W> {
    type V = Map<(u64, usize), W>;

    open spec fn view(&self) -> Map<(u64, usize), W> {
        entries_map(self.entries())
    }
}

proof fn lemma_key_index<W>(s: Seq<TimerEntry<W>>, i: int)
    requires
        sorted_entries(s),
        0 <= i < s.len(),
    ensures
        has_key(s, s[i].key()),
        index_of_key(s, s[i].key()) == i,
        entries_map(s).dom().contains(s[i].key()),
        entries_map(s)[s[i].key()] == s[i].waker,
{
    let k = s[i].key();
    assert(s[i].key() == k);
    let j = index_of_key(s, k);
    if j < i {
        assert(key_lt(s[j].key(), s[i].key()));
    } else if j > i {
        assert(key_lt(s[i].key(), s[j].key()));
    }
}

proof fn lemma_insert_at<W>(s: Seq<TimerEntry<W>>, p: int, e: TimerEntry<W>)
    requires
        sorted_entries(s),
        0 <= p <= s.len(),
        forall|i: int| 0 <= i < p ==> key_lt(#[trigger] s[i].key(), e.key()),
        forall|i: int| p <= i < s.len() ==> key_lt(e.key(), #[trigger] s[i].key()),
    ensures
        sorted_entries(s.insert(p, e)),
        entries_map(s.insert(p, e)) =~= entries_map(s).insert(e.key(), e.waker),
{
    let t = s.insert(p, e);
    assert forall|i: int, j: int| #![trigger t[i], t[j]] 0 <= i < j < t.len() implies key_lt(
        t[i].key(),
        t[j].key(),
    ) by {
        if i < p && j > p {
            assert(t[i] == s[i] && t[j] == s[j - 1]);
            assert(key_lt(s[i].key(), s[j - 1].key()));
        } else if i > p {
            assert(t[i] == s[i - 1] && t[j] == s[j - 1]);
        } else if j < p {
            assert(t[i] == s[i] && t[j] == s[j]);
        }
    }
    let m = entries_map(s).insert(e.key(), e.waker);
    assert forall|k: (u64, usize)| #[trigger] m.dom().contains(k) implies entries_map(t).dom().contains(k)
        && entries_map(t)[k] == m[k] by {
        if k == e.key() {
            lemma_key_index(t, p);
        } else {
            let j = index_of_key(s, k);
            lemma_key_index(s, j);
            if j < p {
                assert(t[j] == s[j]);
                lemma_key_index(t, j);
            } else {
                assert(t[j + 1] == s[j]);
                lemma_key_index(t, j + 1);
            }
        }
    }
    assert forall|k: (u64, usize)| #[trigger] entries_map(t).dom().contains(k) implies m.dom().contains(
        k,
    ) by {
        let j = index_of_key(t, k);
        if j < p {
            assert(t[j] == s[j]);
            lemma_key_index(s, j);
        } else if j > p {
            assert(t[j] == s[j - 1]);
            lemma_key_index(s, j - 1);
        }
    }
}

proof fn lemma_remove_at<W>(s: Seq<TimerEntry<W>>, p: int)
    requires
        sorted_entries(s),
        0 <= p < s.len(),
    ensures
        sorted_entries(s.remove(p)),
        entries_map(s.remove(p)) =~= entries_map(s).remove(s[p].key()),
{
    let t = s.remove(p);
    assert forall|i: int, j: int| #![trigger t[i], t[j]] 0 <= i < j < t.len() implies key_lt(
        t[i].key(),
        t[j].key(),
    ) by {
        let si = if i < p { i } else { i + 1 };
        let sj = if j < p { j } else { j + 1 };
        assert(t[i] == s[si] && t[j] == s[sj]);
    }
    let m = entries_map(s).remove(s[p].key());
    assert forall|k: (u64, usize)| #[trigger] m.dom().contains(k) implies entries_map(t).dom().contains(k)
        && entries_map(t)[k] == m[k] by {
        let j = index_of_key(s, k);
        lemma_key_index(s, j);
        if j < p {
            assert(t[j] == s[j]);
            lemma_key_index(t, j);
        } else {
            assert(j != p);
            assert(t[j - 1] == s[j]);
            lemma_key_index(t, j - 1);
        }
    }
    assert forall|k: (u64, usize)| #[trigger] entries_map(t).dom().contains(k) implies m.dom().contains(
        k,
    ) by {
        let j = index_of_key(t, k);
        let sj = if j < p { j } else { j + 1 };
        assert(t[j] == s[sj]);
        lemma_key_index(s, sj);
        if sj < p {
            assert(key_lt(s[sj].key(), s[p].key()));
        } else {
            assert(key_lt(s[p].key(), s[sj].key()));
        }
    }
}

proof fn lemma_split_at<W>(s: Seq<TimerEntry<W>>, p: int, k: (u64, usize))
    requires
        sorted_entries(s),
        0 <= p <= s.len(),
        forall|i: int| 0 <= i < p ==> key_lt(#[trigger] s[i].key(), k),
        forall|i: int| p <= i < s.len() ==> !key_lt(#[trigger] s[i].key(), k),
    ensures
        sorted_entries(s.subrange(0, p)),
        sorted_entries(s.subrange(p, s.len() as int)),
        entries_map(s.subrange(0, p)) =~= keys_below(entries_map(s), k),
        entries_map(s.subrange(p, s.len() as int)) =~= keys_from(entries_map(s), k),
{
    let lo = s.subrange(0, p);
    let hi = s.subrange(p, s.len() as int);
    assert forall|i: int, j: int| #![trigger lo[i], lo[j]] 0 <= i < j < lo.len() implies key_lt(
        lo[i].key(),
        lo[j].key(),
    ) by {
        assert(lo[i] == s[i] && lo[j] == s[j]);
    }
    assert forall|i: int, j: int| #![trigger hi[i], hi[j]] 0 <= i < j < hi.len() implies key_lt(
        hi[i].key(),
        hi[j].key(),
    ) by {
        assert(hi[i] == s[i + p] && hi[j] == s[j + p]);
    }
    let mlo = keys_below(entries_map(s), k);
    let mhi = keys_from(entries_map(s), k);
    assert forall|kk: (u64, usize)| #[trigger] mlo.dom().contains(kk) implies entries_map(lo).dom().contains(kk)
        && entries_map(lo)[kk] == mlo[kk] by {
        let j = index_of_key(s, kk);
        lemma_key_index(s, j);
        assert(j < p);
        assert(lo[j] == s[j]);
        lemma_key_index(lo, j);
    }
    assert forall|kk: (u64, usize)| #[trigger] entries_map(lo).dom().contains(kk) implies mlo.dom().contains(
        kk,
    ) by {
        let j = index_of_key(lo, kk);
        assert(lo[j] == s[j]);
        lemma_key_index(s, j);
    }
    assert forall|kk: (u64, usize)| #[trigger] mhi.dom().contains(kk) implies entries_map(hi).dom().contains(kk)
        && entries_map(hi)[kk] == mhi[kk] by {
        let j = index_of_key(s, kk);
        lemma_key_index(s, j);
        assert(j >= p);
        assert(hi[j - p] == s[j]);
        lemma_key_index(hi, j - p);
    }
    assert forall|kk: (u64, usize)| #[trigger] entries_map(hi).dom().contains(kk) implies mhi.dom().contains(
        kk,
    ) by {
        let j = index_of_key(hi, kk);
        assert(hi[j] == s[j + p]);
        lemma_key_index(s, j + p);
    }
}

/// Compares two timer keys in firing order.
fn key_less(a_when: u64, a_id: usize, b_when: u64, b_id: usize) -> (r: bool)
    ensures
        r == key_lt((a_when, a_id), (b_when, b_id)),
{
    a_when < b_when || (a_when == b_when && a_id < b_id)
}

impl<W> TimerSet<W> {
    /// The entries, in firing order.
    pub closed spec fn entries(&self) -> Seq<TimerEntry<W>> {
        self.entries@
    }

    /// Keys are strictly increasing along the entries.
    pub open spec fn wf(&self) -> bool {
        sorted_entries(self.entries())
    }

    /// Creates an empty set of timers.
    pub fn new() -> (s: Self)
        ensures
            s.wf(),
            s@ == Map::<(u64, usize), W>::empty(),
            s.entries() == Seq::<TimerEntry<W>>::empty(),
    {
        let s = TimerSet { entries: Vec::new() };
        assert(s@ =~= Map::<(u64, usize), W>::empty());
        s
    }

    /// The position of the first entry whose key is not below `(when, id)`.
    fn lower_bound(&self, when: u64, id: usize) -> (p: usize)
        requires
            self.wf(),
        ensures
            p <= self.entries().len(),
            forall|i: int| 0 <= i < p ==> key_lt(#[trigger] self.entries()[i].key(), (when, id)),
            forall|i: int|
                p <= i < self.entries().len() ==> !key_lt(
                    #[trigger] self.entries()[i].key(),
                    (when, id),
                ),
    {
        let mut lo: usize = 0;
        let mut hi: usize = self.entries.len();
        while lo < hi
            invariant
                self.wf(),
                0 <= lo <= hi <= self.entries@.len(),
                forall|i: int| 0 <= i < lo ==> key_lt(#[trigger] self.entries@[i].key(), (when, id)),
                forall|i: int|
                    hi <= i < self.entries@.len() ==> !key_lt(
                        #[trigger] self.entries@[i].key(),
                        (when, id),
                    ),
            decreases hi - lo,
        {
            let mid = lo + (hi - lo) / 2;
            let e = &self.entries[mid];
            if key_less(e.when, e.id, when, id) {
                assert forall|i: int| 0 <= i < mid + 1 implies key_lt(
                    #[trigger] self.entries@[i].key(),
                    (when, id),
                ) by {
                    if i < mid {
                        assert(key_lt(self.entries@[i].key(), self.entries@[mid as int].key()));
                    }
                }
                lo = mid + 1;
            } else {
                assert forall|i: int| mid <= i < self.entries@.len() implies !key_lt(
                    #[trigger] self.entries@[i].key(),
                    (when, id),
                ) by {
                    if i > mid {
                        assert(key_lt(self.entries@[mid as int].key(), self.entries@[i].key()));
                    }
                }
                hi = mid;
            }
        }
        lo
    }

    /// Registers `waker` under key `(when, id)`, returning the waker it replaces, if any.
    pub fn insert(&mut self, when: u64, id: usize, waker: W) -> (replaced: Option<W>)
        requires
            old(self).wf(),
        ensures
            final(self).wf(),
            final(self)@ == old(self)@.insert((when, id), waker),
            replaced == (if old(self)@.dom().contains((when, id)) {
                Some(old(self)@[(when, id)])
            } else {
                None
            }),
    {
        let p = self.lower_bound(when, id);
        let ghost s0 = self.entries@;
        let e = TimerEntry { when, id, waker };
        if p < self.entries.len() && self.entries[p].when == when && self.entries[p].id == id {
            proof {
                lemma_key_index(s0, p as int);
            }
            let prev = self.entries.remove(p);
            proof {
                lemma_remove_at(s0, p as int);
                let s1 = s0.remove(p as int);
                assert forall|i: int| 0 <= i < p implies key_lt(#[trigger] s1[i].key(), e.key()) by {
                    assert(s1[i] == s0[i]);
                }
                assert forall|i: int| p <= i < s1.len() implies key_lt(e.key(), #[trigger] s1[i].key()) by {
                    assert(s1[i] == s0[i + 1]);
                    assert(key_lt(s0[p as int].key(), s0[i + 1].key()));
                }
                lemma_insert_at(s1, p as int, e);
                assert(entries_map(s0).remove((when, id)).insert((when, id), waker) =~= entries_map(
                    s0,
                ).insert((when, id), waker));
            }
            self.entries.insert(p, e);
            Some(prev.waker)
        } else {
            proof {
                assert forall|i: int| p <= i < s0.len() implies key_lt(e.key(), #[trigger] s0[i].key()) by {
                    assert(!key_lt(s0[i].key(), e.key()));
                    if i > p {
                        assert(key_lt(s0[p as int].key(), s0[i].key()));
                    }
                }
                lemma_insert_at(s0, p as int, e);
                if entries_map(s0).dom().contains((when, id)) {
                    let j = index_of_key(s0, (when, id));
                    lemma_key_index(s0, j);
                    assert(false);
                }
            }
            self.entries.insert(p, e);
            None
        }
    }

    /// Deregisters the timer with key `(when, id)`, returning its waker, if it was there.
    pub fn remove(&mut self, when: u64, id: usize) -> (removed: Option<W>)
        requires
            old(self).wf(),
        ensures
            final(self).wf(),
            final(self)@ == old(self)@.remove((when, id)),
            removed == (if old(self)@.dom().contains((when, id)) {
                Some(old(self)@[(when, id)])
            } else {
                None
            }),
    {
        let p = self.lower_bound(when, id);
        let ghost s0 = self.entries@;
        if p < self.entries.len() && self.entries[p].when == when && self.entries[p].id == id {
            proof {
                lemma_key_index(s0, p as int);
                lemma_remove_at(s0, p as int);
            }
            let prev = self.entries.remove(p);
            Some(prev.waker)
        } else {
            proof {
                if entries_map(s0).dom().contains((when, id)) {
                    let j = index_of_key(s0, (when, id));
                    lemma_key_index(s0, j);
                    if j < p {
                    } else if j > p {
                        assert(key_lt(s0[p as int].key(), s0[j].key()));
                    }
                    assert(false);
                }
                assert(entries_map(s0).remove((when, id)) =~= entries_map(s0));
            }
            None
        }
    }

    /// Splits the set at key `(when, id)`: the timers before it stay, and the timers at it or
    /// after it are returned.
    pub fn split_off(&mut self, when: u64, id: usize) -> (tail: Self)
        requires
            old(self).wf(),
        ensures
            final(self).wf(),
            tail.wf(),
            final(self)@ == keys_below(old(self)@, (when, id)),
            tail@ == keys_from(old(self)@, (when, id)),
    {
        let p = self.lower_bound(when, id);
        proof {
            lemma_split_at(self.entries@, p as int, (when, id));
        }
        let rest = self.entries.split_off(p);
        TimerSet { entries: rest }
    }

    /// Whether no timer is registered.
    pub fn is_empty(&self) -> (r: bool)
        requires
            self.wf(),
        ensures
            r == (self@ == Map::<(u64, usize), W>::empty()),
    {
        proof {
            if self.entries@.len() == 0 {
                assert(self@ =~= Map::<(u64, usize), W>::empty());
            } else {
                lemma_key_index(self.entries@, 0);
                assert(self@.dom().contains(self.entries@[0].key()));
            }
        }
        self.entries.len() == 0
    }

    /// The key of the timer that fires first, if any.
    pub fn first_key(&self) -> (r: Option<(u64, usize)>)
        requires
            self.wf(),
        ensures
            r is None ==> self@ == Map::<(u64, usize), W>::empty(),
            r matches Some(k) ==> is_first_key(self@, k),
    {
        if self.entries.len() == 0 {
            assert(self@ =~= Map::<(u64, usize), W>::empty());
            None
        } else {
            let e = &self.entries[0];
            proof {
                let s = self.entries@;
                lemma_key_index(s, 0);
                assert forall|kk: (u64, usize)| #[trigger] self@.dom().contains(kk) implies kk == s[0].key()
                    || key_lt(s[0].key(), kk) by {
                    let j = index_of_key(s, kk);
                    if j > 0 {
                        assert(key_lt(s[0].key(), s[j].key()));
                    }
                }
            }
            Some((e.when, e.id))
        }
    }

    /// The wakers of all timers, in firing order.
    pub fn into_wakers(self) -> (r: Vec<W>)
        ensures
            r@ == self.entries().map_values(|e: TimerEntry<W>| e.waker),
            self.wf() ==> wakers_in_order(self@, r@),
    {
        let mut entries = self.entries;
        let ghost s0 = entries@;
        let mut r: Vec<W> = Vec::new();
        while entries.len() > 0
            invariant
                r@.len() + entries@.len() == s0.len(),
                entries@ == s0.subrange(r@.len() as int, s0.len() as int),
                forall|i: int| 0 <= i < r@.len() ==> r@[i] == #[trigger] s0[i].waker,
            decreases entries@.len(),
        {
            let e = entries.remove(0);
            r.push(e.waker);
        }
        assert(r@ =~= s0.map_values(|e: TimerEntry<W>| e.waker));
        assert(sorted_entries(s0) ==> sorted_entries(s0) && entries_map(s0) == entries_map(s0)
            && r@ == s0.map_values(|e: TimerEntry<W>| e.waker));
        r
    }
}

} // verus!
