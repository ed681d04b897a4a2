//! An ordered key/value table: the in-memory form of one storage partition.
//!
//! Rows are kept sorted by a three-part integer key, so prefix and range scans
//! return rows in the same order an ordered key/value store would. Every write
//! is also appended to a write log, so the set of changes made since the last
//! `begin` can be handed to a persistence layer as one atomic batch.
use vstd::prelude::*;

verus! {

/// A three-part key. Shorter keys use trailing zeros.
pub type Key = (u64, u64, u64);

/// Strict lexicographic order on keys.
pub open spec fn key_lt(a: Key, b: Key) -> bool {
    ||| a.0 < b.0
    ||| (a.0 == b.0 && a.1 < b.1)
    ||| (a.0 == b.0 && a.1 == b.1 && a.2 < b.2)
}

/// Rows strictly ascending by key (so no key occurs twice).
pub open spec fn sorted<V>(s: Seq<(Key, V)>) -> bool {
    forall|i: int, j: int| 0 <= i < j < s.len() ==> key_lt(#[trigger] s[i].0, #[trigger] s[j].0)
}

/// The map that a row sequence denotes.
pub open spec fn as_map<V>(s: Seq<(Key, V)>) -> Map<Key, V> {
    Map::new(
        |k: Key| exists|i: int| 0 <= i < s.len() && #[trigger] s[i].0 == k,
        |k: Key| s[choose|i: int| 0 <= i < s.len() && #[trigger] s[i].0 == k].1,
    )
}

/// Optional lookup in a map.
pub open spec fn opt_get<V>(m: Map<Key, V>, k: Key) -> Option<V> {
    if m.contains_key(k) {
        Some(m[k])
    } else {
        None
    }
}

/// One logged write: `Some(v)` puts `v` under the key, `None` removes the key.
pub open spec fn apply_write<V>(m: Map<Key, V>, w: (Key, Option<V>)) -> Map<Key, V> {
    match w.1 {
        Some(v) => m.insert(w.0, v),
        None => m.remove(w.0),
    }
}

/// The map obtained by applying a sequence of writes, in order, to `m`.
pub open spec fn apply_log<V>(m: Map<Key, V>, log: Seq<(Key, Option<V>)>) -> Map<Key, V>
    decreases log.len(),
{
    if log.len() == 0 {
        m
    } else {
        apply_write(apply_log(m, log.drop_last()), log.last())
    }
}

pub proof fn lemma_apply_log_push<V>(m: Map<Key, V>, log: Seq<(Key, Option<V>)>, w: (Key, Option<V>))
    ensures
        apply_log(m, log.push(w)) == apply_write(apply_log(m, log), w),
{
    assert(log.push(w).drop_last() =~= log);
}

/// Rows of `s` matching `a` in the first key part, `b` (when given) in the
/// second, and with a second part of at least `min1`.
pub open spec fn key_matches(k: Key, a: u64, b: Option<u64>, min1: u64) -> bool {
    &&& k.0 == a
    &&& match b {
        Some(bb) => k.1 == bb,
        None => true,
    }
    &&& k.1 >= min1
}

pub open spec fn scan_spec<V>(s: Seq<(Key, V)>, a: u64, b: Option<u64>, min1: u64) -> Seq<(Key, V)> {
    s.filter(|e: (Key, V)| key_matches(e.0, a, b, min1))
}

pub fn key_less(a: Key, b: Key) -> (r: bool)
    ensures
        r == key_lt(a, b),
{
    a.0 < b.0 || (a.0 == b.0 && a.1 < b.1) || (a.0 == b.0 && a.1 == b.1 && a.2 < b.2)
}

pub fn key_eq(a: Key, b: Key) -> (r: bool)
    ensures
        r == (a == b),
{
    a.0 == b.0 && a.1 == b.1 && a.2 == b.2
}

/// An ordered table of rows with a log of the writes made since `begin`.
pub struct Table<V> {
    rows: Vec<(Key, V)>,
    log: Vec<(Key, Option<V>)>,
    base: Ghost<Map<Key, V>>,
}

impl<V: Copy> Table<V> {
    /// The rows, ascending by key.
    pub closed spec fn view(&self) -> Seq<(Key, V)> {
        self.rows@
    }

    /// The writes made since the last `begin`, in order.
    pub closed spec fn log(&self) -> Seq<(Key, Option<V>)> {
        self.log@
    }

    /// The contents as of the last `begin`.
    pub closed spec fn base(&self) -> Map<Key, V> {
        self.base@
    }

    /// The contents as a map.
    pub open spec fn map(&self) -> Map<Key, V> {
        as_map(self@)
    }

    pub open spec fn get_spec(&self, k: Key) -> Option<V> {
        opt_get(self.map(), k)
    }

    /// Rows are sorted, and the log turns the base contents into the current ones.
    pub closed spec fn wf(&self) -> bool {
        &&& sorted(self.rows@)
        &&& apply_log(self.base@, self.log@) == as_map(self.rows@)
    }

    pub fn new() -> (t: Self)
        ensures
            t.wf(),
            t@ == Seq::<(Key, V)>::empty(),
            t.log() == Seq::<(Key, Option<V>)>::empty(),
    {
        let t = Table { rows: Vec::new(), log: Vec::new(), base: Ghost(Map::empty()) };
        assert(as_map(t.rows@) =~= Map::<Key, V>::empty());
        t
    }

    pub fn len(&self) -> (n: usize)
        ensures
            n == self@.len(),
    {
        self.rows.len()
    }

    /// Row `i` (ascending key order).
    pub fn row(&self, i: usize) -> (r: (Key, V))
        requires
            i < self@.len(),
        ensures
            r == self@[i as int],
    {
        self.rows[i]
    }

    /// Start a new batch: forget the log and remember the current contents.
    pub fn begin(&mut self)
        requires
            old(self).wf(),
        ensures
            final(self).wf(),
            final(self)@ == old(self)@,
            final(self).log() == Seq::<(Key, Option<V>)>::empty(),
            final(self).base() == old(self).map(),
    {
        self.log = Vec::new();
        self.base = Ghost(as_map(self.rows@));
    }

    /// Hand out the writes of the current batch and start a new one.
    pub fn take_log(&mut self) -> (log: Vec<(Key, Option<V>)>)
        requires
            old(self).wf(),
        ensures
            final(self).wf(),
            final(self)@ == old(self)@,
            log@ == old(self).log(),
            final(self).log() == Seq::<(Key, Option<V>)>::empty(),
            final(self).base() == old(self).map(),
    {
        let mut log: Vec<(Key, Option<V>)> = Vec::new();
        std::mem::swap(&mut log, &mut self.log);
        self.base = Ghost(as_map(self.rows@));
        log
    }

    /// The rows of a well-formed table ascend strictly by key.
    pub proof fn lemma_sorted(&self)
        requires
            self.wf(),
        ensures
            sorted(self@),
    {
    }

    /// Replaying the log over the base contents gives the current contents.
    pub proof fn lemma_replays(&self)
        requires
            self.wf(),
        ensures
            apply_log(self.base(), self.log()) == self.map(),
            sorted(self@),
    {
    }

    pub proof fn lemma_sorted_unique(s: Seq<(Key, V)>, i: int, j: int)
        requires
            sorted(s),
            0 <= i < s.len(),
            0 <= j < s.len(),
            s[i].0 == s[j].0,
        ensures
            i == j,
    {
        if i < j {
            assert(key_lt(s[i].0, s[j].0));
        } else if j < i {
            assert(key_lt(s[j].0, s[i].0));
        }
    }

    /// Sorted rows denoting no key are empty, and sorted rows denoting one
    /// key are that one row.
    pub proof fn lemma_rows_of_small_map(s: Seq<(Key, V)>, k: Key, v: V)
        requires
            sorted(s),
        ensures
            as_map(s) == Map::<Key, V>::empty() ==> s == Seq::<(Key, V)>::empty(),
            as_map(s) == Map::<Key, V>::empty().insert(k, v) ==> s == seq![(k, v)],
    {
        if as_map(s) == Map::<Key, V>::empty() && s.len() > 0 {
            assert(as_map(s).contains_key(s[0].0));
        }
        if as_map(s) == Map::<Key, V>::empty().insert(k, v) {
            assert(as_map(s).contains_key(k));
            let c = choose|i: int| 0 <= i < s.len() && #[trigger] s[i].0 == k;
            assert forall|i: int| 0 <= i < s.len() implies #[trigger] s[i].0 == k by {
                assert(as_map(s).contains_key(s[i].0));
            }
            if s.len() > 1 {
                assert(key_lt(s[0].0, s[1].0));
                assert(s[0].0 == k && s[1].0 == k);
            }
            Self::lemma_map_at(s, c);
            assert(s =~= seq![(k, v)]);
        }
    }

    pub proof fn lemma_map_at(s: Seq<(Key, V)>, i: int)
        requires
            sorted(s),
            0 <= i < s.len(),
        ensures
            as_map(s).contains_key(s[i].0),
            as_map(s)[s[i].0] == s[i].1,
    {
        let k = s[i].0;
        assert(exists|j: int| 0 <= j < s.len() && #[trigger] s[j].0 == k);
        let c = choose|j: int| 0 <= j < s.len() && #[trigger] s[j].0 == k;
        Self::lemma_sorted_unique(s, i, c);
    }

    /// Position of the first row whose key is not below `k`.
    fn find(&self, k: Key) -> (i: usize)
        requires
            self.wf(),
        ensures
            i <= self@.len(),
            forall|j: int| 0 <= j < i ==> key_lt(#[trigger] self@[j].0, k),
            i < self@.len() ==> !key_lt(self@[i as int].0, k),
    {
        let mut i: usize = 0;
        while i < self.rows.len()
            invariant
                i <= self.rows@.len(),
                forall|j: int| 0 <= j < i ==> key_lt(#[trigger] self.rows@[j].0, k),
            decreases self.rows@.len() - i,
        {
            if !key_less(self.rows[i].0, k) {
                return i;
            }
            i = i + 1;
        }
        i
    }

    proof fn lemma_absent(s: Seq<(Key, V)>, k: Key, i: int)
        requires
            sorted(s),
            0 <= i <= s.len(),
            forall|j: int| 0 <= j < i ==> key_lt(#[trigger] s[j].0, k),
            i < s.len() ==> s[i].0 != k && !key_lt(s[i].0, k),
        ensures
            !as_map(s).contains_key(k),
            forall|j: int| 0 <= j < s.len() ==> #[trigger] s[j].0 != k,
    {
        assert forall|j: int| 0 <= j < s.len() implies #[trigger] s[j].0 != k by {
            if j < i {
                assert(key_lt(s[j].0, k));
            } else if j > i {
                assert(key_lt(s[i].0, s[j].0));
            }
        }
    }

    /// Look a key up.
    pub fn get(&self, k: Key) -> (r: Option<V>)
        requires
            self.wf(),
        ensures
            r == self.get_spec(k),
    {
        let i = self.find(k);
        if i < self.rows.len() && key_eq(self.rows[i].0, k) {
            proof {
                Self::lemma_map_at(self.rows@, i as int);
            }
            Some(self.rows[i].1)
        } else {
            proof {
                Self::lemma_absent(self.rows@, k, i as int);
            }
            None
        }
    }

    /// Does the table hold the key?
    pub fn contains(&self, k: Key) -> (r: bool)
        requires
            self.wf(),
        ensures
            r == self.map().contains_key(k),
    {
        self.get(k).is_some()
    }

    /// Put `v` under `k`, replacing any previous value.
    pub fn insert(&mut self, k: Key, v: V)
        requires
            old(self).wf(),
        ensures
            final(self).wf(),
            final(self).map() == old(self).map().insert(k, v),
            final(self).log() == old(self).log().push((k, Some(v))),
            final(self).base() == old(self).base(),
    {
        let ghost old_rows = self.rows@;
        let i = self.find(k);
        if i < self.rows.len() && key_eq(self.rows[i].0, k) {
            self.rows.set(i, (k, v));
            proof {
                let s = self.rows@;
                assert(sorted(s)) by {
                    assert forall|a: int, b: int| 0 <= a < b < s.len() implies key_lt(
                        #[trigger] s[a].0,
                        #[trigger] s[b].0,
                    ) by {
                        assert(key_lt(old_rows[a].0, old_rows[b].0));
                    }
                }
                assert(as_map(s) =~= as_map(old_rows).insert(k, v)) by {
                    Self::lemma_map_at(s, i as int);
                    assert forall|kk: Key| #[trigger] as_map(s).contains_key(kk) <==> as_map(
                        old_rows,
                    ).insert(k, v).contains_key(kk) by {
                        if as_map(s).contains_key(kk) {
                            let c = choose|j: int| 0 <= j < s.len() && #[trigger] s[j].0 == kk;
                            if kk != k {
                                assert(old_rows[c].0 == kk);
                            }
                        }
                        if as_map(old_rows).contains_key(kk) {
                            let c = choose|j: int| 0 <= j < old_rows.len() && #[trigger] old_rows[j].0 == kk;
                            assert(s[c].0 == kk);
                        }
                    }
                    assert forall|kk: Key| #[trigger] as_map(s).contains_key(kk) implies as_map(s)[kk]
                        == as_map(old_rows).insert(k, v)[kk] by {
                        if kk != k {
                            let c = choose|j: int| 0 <= j < s.len() && #[trigger] s[j].0 == kk;
                            Self::lemma_map_at(s, c);
                            Self::lemma_map_at(old_rows, c);
                        }
                    }
                }
            }
        } else {
            self.rows.insert(i, (k, v));
            proof {
                let s = self.rows@;
                assert(forall|j: int| 0 <= j < i ==> s[j] == old_rows[j]);
                assert(forall|j: int| i < j < s.len() ==> s[j] == old_rows[j - 1]);
                assert(s[i as int] == (k, v));
                if i < old_rows.len() {
                    assert(key_lt(k, old_rows[i as int].0));
                }
                assert(sorted(s)) by {
                    assert forall|a: int, b: int| 0 <= a < b < s.len() implies key_lt(
                        #[trigger] s[a].0,
                        #[trigger] s[b].0,
                    ) by {
                        if b < i {
                            assert(key_lt(old_rows[a].0, old_rows[b].0));
                        } else if b == i {
                        } else if a < i {
                            assert(key_lt(old_rows[a].0, old_rows[b - 1].0));
                        } else if a == i {
                            if b - 1 > i {
                                assert(key_lt(old_rows[i as int].0, old_rows[b - 1].0));
                            }
                        } else {
                            assert(key_lt(old_rows[a - 1].0, old_rows[b - 1].0));
                        }
                    }
                }
                Self::lemma_absent(old_rows, k, i as int);
                assert(as_map(s) =~= as_map(old_rows).insert(k, v)) by {
                    Self::lemma_map_at(s, i as int);
                    assert forall|kk: Key| #[trigger] as_map(s).contains_key(kk) <==> as_map(
                        old_rows,
                    ).insert(k, v).contains_key(kk) by {
                        if as_map(s).contains_key(kk) && kk != k {
                            let c = choose|j: int| 0 <= j < s.len() && #[trigger] s[j].0 == kk;
                            if c < i {
                                assert(old_rows[c].0 == kk);
                            } else {
                                assert(old_rows[c - 1].0 == kk);
                            }
                        }
                        if as_map(old_rows).contains_key(kk) {
                            let c = choose|j: int| 0 <= j < old_rows.len() && #[trigger] old_rows[j].0 == kk;
                            if c < i {
                                assert(s[c].0 == kk);
                            } else {
                                assert(s[c + 1].0 == kk);
                            }
                        }
                    }
                    assert forall|kk: Key| #[trigger] as_map(s).contains_key(kk) implies as_map(s)[kk]
                        == as_map(old_rows).insert(k, v)[kk] by {
                        if kk != k {
                            let c = choose|j: int| 0 <= j < s.len() && #[trigger] s[j].0 == kk;
                            Self::lemma_map_at(s, c);
                            if c < i {
                                Self::lemma_map_at(old_rows, c);
                            } else {
                                Self::lemma_map_at(old_rows, c - 1);
                            }
                        }
                    }
                }
            }
        }
        self.log.push((k, Some(v)));
        proof {
            lemma_apply_log_push(self.base@, old(self).log@, (k, Some(v)));
        }
    }

    /// Remove `k` if present.
    pub fn remove(&mut self, k: Key)
        requires
            old(self).wf(),
        ensures
            final(self).wf(),
            final(self).map() == old(self).map().remove(k),
            final(self).log() == old(self).log().push((k, None)),
            final(self).base() == old(self).base(),
    {
        let ghost old_rows = self.rows@;
        let i = self.find(k);
        if i < self.rows.len() && key_eq(self.rows[i].0, k) {
            self.rows.remove(i);
            proof {
                let s = self.rows@;
                assert(forall|j: int| 0 <= j < i ==> s[j] == old_rows[j]);
                assert(forall|j: int| i <= j < s.len() ==> s[j] == old_rows[j + 1]);
                assert(sorted(s)) by {
                    assert forall|a: int, b: int| 0 <= a < b < s.len() implies key_lt(
                        #[trigger] s[a].0,
                        #[trigger] s[b].0,
                    ) by {
                        if b < i {
                            assert(key_lt(old_rows[a].0, old_rows[b].0));
                        } else if a < i {
                            assert(key_lt(old_rows[a].0, old_rows[b + 1].0));
                        } else {
                            assert(key_lt(old_rows[a + 1].0, old_rows[b + 1].0));
                        }
                    }
                }
                assert(as_map(s) =~= as_map(old_rows).remove(k)) by {
                    assert forall|kk: Key| #[trigger] as_map(s).contains_key(kk) <==> as_map(
                        old_rows,
                    ).remove(k).contains_key(kk) by {
                        if as_map(s).contains_key(kk) {
                            let c = choose|j: int| 0 <= j < s.len() && #[trigger] s[j].0 == kk;
                            if c < i {
                                assert(old_rows[c].0 == kk);
                                if kk == k {
                                    Self::lemma_sorted_unique(old_rows, c, i as int);
                                }
                            } else {
                                assert(old_rows[c + 1].0 == kk);
                                if kk == k {
                                    Self::lemma_sorted_unique(old_rows, c + 1, i as int);
                                }
                            }
                        }
                        if as_map(old_rows).contains_key(kk) && kk != k {
                            let c = choose|j: int| 0 <= j < old_rows.len() && #[trigger] old_rows[j].0 == kk;
                            if c < i {
                                assert(s[c].0 == kk);
                            } else {
                                assert(c != i);
                                assert(s[c - 1].0 == kk);
                            }
                        }
                    }
                    assert forall|kk: Key| #[trigger] as_map(s).contains_key(kk) implies as_map(s)[kk]
                        == as_map(old_rows).remove(k)[kk] by {
                        let c = choose|j: int| 0 <= j < s.len() && #[trigger] s[j].0 == kk;
                        Self::lemma_map_at(s, c);
                        if c < i {
                            Self::lemma_map_at(old_rows, c);
                        } else {
                            Self::lemma_map_at(old_rows, c + 1);
                        }
                    }
                }
            }
        } else {
            proof {
                Self::lemma_absent(old_rows, k, i as int);
                assert(as_map(old_rows) =~= as_map(old_rows).remove(k));
            }
        }
        self.log.push((k, None));
        proof {
            lemma_apply_log_push(self.base@, old(self).log@, (k, None));
        }
    }

    /// Rows whose key matches `a` (and `b` when given) with a second part of
    /// at least `min1`, ascending by key.
    pub fn scan(&self, a: u64, b: Option<u64>, min1: u64) -> (r: Vec<(Key, V)>)
        requires
            self.wf(),
        ensures
            r@ == scan_spec(self@, a, b, min1),
    {
        let mut r: Vec<(Key, V)> = Vec::new();
        let mut i: usize = 0;
        let ghost pred = |e: (Key, V)| key_matches(e.0, a, b, min1);
        while i < self.rows.len()
            invariant
                i <= self.rows@.len(),
                r@ == self.rows@.take(i as int).filter(pred),
                pred == (|e: (Key, V)| key_matches(e.0, a, b, min1)),
            decreases self.rows@.len() - i,
        {
            let e = self.rows[i];
            proof {
                assert(self.rows@.take(i + 1) =~= self.rows@.take(i as int).push(e));
                self.rows@.take(i as int).lemma_filter_push(e, pred);
            }
            let m = e.0.0 == a && match b {
                Some(bb) => e.0.1 == bb,
                None => true,
            } && e.0.1 >= min1;
            if m {
                r.push(e);
            }
            i = i + 1;
        }
        proof {
            assert(self.rows@.take(i as int) =~= self.rows@);
        }
        r
    }
}

/// Part `part` of key `k` (0, 1, or 2 and above for the last).
pub open spec fn key_part(k: Key, part: u8) -> u64 {
    if part == 0 {
        k.0
    } else if part == 1 {
        k.1
    } else {
        k.2
    }
}

/// Does key `k` have `a` in its first part (or second, when `by_second`),
/// and `third` (when given) in its last part?
pub open spec fn key_hit(k: Key, by_second: bool, a: u64, third: Option<u64>) -> bool {
    &&& (if by_second {
        k.1 == a
    } else {
        k.0 == a
    })
    &&& match third {
        Some(t) => k.2 == t,
        None => true,
    }
}

impl<V: Copy> Table<V> {
    /// Does any row have `a` as the first key part?
    pub fn any_for(&self, a: u64) -> (r: bool)
        requires
            self.wf(),
        ensures
            r == exists|i: int| 0 <= i < self@.len() && (#[trigger] self@[i]).0.0 == a,
    {
        let mut i: usize = 0;
        while i < self.rows.len()
            invariant
                i <= self.rows@.len(),
                forall|j: int| 0 <= j < i ==> (#[trigger] self.rows@[j]).0.0 != a,
            decreases self.rows@.len() - i,
        {
            if self.rows[i].0.0 == a {
                assert(self@[i as int].0.0 == a);
                return true;
            }
            i = i + 1;
        }
        false
    }

    /// Does any row's key satisfy `key_hit(k, by_second, a, third)`?
    pub fn any_hit(&self, by_second: bool, a: u64, third: Option<u64>) -> (r: bool)
        requires
            self.wf(),
        ensures
            r == exists|i: int| 0 <= i < self@.len() && key_hit((#[trigger] self@[i]).0, by_second, a, third),
    {
        let mut i: usize = 0;
        while i < self.rows.len()
            invariant
                i <= self.rows@.len(),
                forall|j: int| 0 <= j < i ==> !key_hit((#[trigger] self.rows@[j]).0, by_second, a, third),
            decreases self.rows@.len() - i,
        {
            let k = self.rows[i].0;
            let hit = (if by_second {
                k.1 == a
            } else {
                k.0 == a
            }) && match third {
                Some(t) => k.2 == t,
                None => true,
            };
            if hit {
                assert(key_hit(self@[i as int].0, by_second, a, third));
                return true;
            }
            i = i + 1;
        }
        false
    }

    /// Remove every row whose key satisfies `key_hit(k, by_second, a, third)`.
    pub fn remove_where(&mut self, by_second: bool, a: u64, third: Option<u64>)
        requires
            old(self).wf(),
        ensures
            final(self).wf(),
            final(self).base() == old(self).base(),
            forall|k: Key|
                #[trigger] opt_get(final(self).map(), k) == (if key_hit(k, by_second, a, third) {
                    None
                } else {
                    opt_get(old(self).map(), k)
                }),
    {
        let ghost orig = self.map();
        let ghost rows0 = self.rows@;
        let mut keys: Vec<Key> = Vec::new();
        let mut i: usize = 0;
        while i < self.rows.len()
            invariant
                self.wf(),
                self.rows@ == rows0,
                i <= rows0.len(),
                forall|j: int| 0 <= j < keys@.len() ==> key_hit(#[trigger] keys@[j], by_second, a, third),
                forall|j: int|
                    0 <= j < i && key_hit((#[trigger] rows0[j]).0, by_second, a, third) ==> keys@.contains(
                        rows0[j].0,
                    ),
            decreases rows0.len() - i,
        {
            let k = self.rows[i].0;
            let hit = (if by_second {
                k.1 == a
            } else {
                k.0 == a
            }) && match third {
                Some(t) => k.2 == t,
                None => true,
            };
            if hit {
                let ghost keys0 = keys@;
                keys.push(k);
                proof {
                    assert forall|j: int|
                        0 <= j < i + 1 && key_hit((#[trigger] rows0[j]).0, by_second, a, third) implies keys@.contains(
                        rows0[j].0,
                    ) by {
                        if j < i {
                            let q = choose|q: int| 0 <= q < keys0.len() && keys0[q] == rows0[j].0;
                            assert(keys@[q] == rows0[j].0);
                        } else {
                            assert(keys@[keys@.len() - 1] == rows0[j].0);
                        }
                    }
                }
            }
            i = i + 1;
        }
        let mut i: usize = 0;
        while i < keys.len()
            invariant
                self.wf(),
                self.base() == old(self).base(),
                orig == old(self).map(),
                i <= keys@.len(),
                forall|j: int| 0 <= j < keys@.len() ==> key_hit(#[trigger] keys@[j], by_second, a, third),
                forall|j: int|
                    0 <= j < rows0.len() && key_hit((#[trigger] rows0[j]).0, by_second, a, third) ==> keys@.contains(
                        rows0[j].0,
                    ),
                forall|k: Key|
                    #[trigger] opt_get(self.map(), k) == (if exists|j: int| 0 <= j < i && keys@[j] == k {
                        None
                    } else {
                        opt_get(orig, k)
                    }),
            decreases keys@.len() - i,
        {
            let k = keys[i];
            let ghost m0 = self.map();
            self.remove(k);
            proof {
                assert forall|kk: Key|
                    #[trigger] opt_get(self.map(), kk) == (if exists|j: int| 0 <= j < i + 1 && keys@[j] == kk {
                        None
                    } else {
                        opt_get(orig, kk)
                    }) by {
                    if kk == k {
                        assert(keys@[i as int] == kk);
                    } else {
                        assert(opt_get(self.map(), kk) == opt_get(m0, kk));
                        if exists|j: int| 0 <= j < i + 1 && keys@[j] == kk {
                            let j = choose|j: int| 0 <= j < i + 1 && keys@[j] == kk;
                            assert(j < i);
                        }
                    }
                }
            }
            i = i + 1;
        }
        proof {
            assert forall|k: Key|
                #[trigger] opt_get(self.map(), k) == (if key_hit(k, by_second, a, third) {
                    None
                } else {
                    opt_get(orig, k)
                }) by {
                if exists|j: int| 0 <= j < i && keys@[j] == k {
                    let j = choose|j: int| 0 <= j < i && keys@[j] == k;
                    assert(key_hit(keys@[j], by_second, a, third));
                } else if key_hit(k, by_second, a, third) && orig.contains_key(k) {
                    let idx = choose|idx: int| 0 <= idx < rows0.len() && #[trigger] rows0[idx].0 == k;
                    assert(keys@.contains(rows0[idx].0));
                    let q = choose|q: int| 0 <= q < keys@.len() && keys@[q] == k;
                    assert(false);
                }
            }
        }
    }
}

impl<V: Copy> Table<V> {
    /// Remove every row whose key has `a` in part `part` (0, 1, or 2 and above for the last).
    pub fn remove_part(&mut self, part: u8, a: u64)
        requires
            old(self).wf(),
        ensures
            final(self).wf(),
            final(self).base() == old(self).base(),
            forall|k: Key|
                #[trigger] opt_get(final(self).map(), k) == (if key_part(k, part) == a {
                    None
                } else {
                    opt_get(old(self).map(), k)
                }),
    {
        let ghost orig = self.map();
        let ghost rows0 = self.rows@;
        let mut keys: Vec<Key> = Vec::new();
        let mut i: usize = 0;
        while i < self.rows.len()
            invariant
                self.wf(),
                self.rows@ == rows0,
                i <= rows0.len(),
                forall|j: int| 0 <= j < keys@.len() ==> key_part(#[trigger] keys@[j], part) == a,
                forall|j: int|
                    0 <= j < i && key_part((#[trigger] rows0[j]).0, part) == a ==> keys@.contains(
                        rows0[j].0,
                    ),
            decreases rows0.len() - i,
        {
            let k = self.rows[i].0;
            let hit = (if part == 0 {
                k.0
            } else if part == 1 {
                k.1
            } else {
                k.2
            }) == a;
            if hit {
                let ghost keys0 = keys@;
                keys.push(k);
                proof {
                    assert forall|j: int|
                        0 <= j < i + 1 && key_part((#[trigger] rows0[j]).0, part) == a implies keys@.contains(
                        rows0[j].0,
                    ) by {
                        if j < i {
                            let q = choose|q: int| 0 <= q < keys0.len() && keys0[q] == rows0[j].0;
                            assert(keys@[q] == rows0[j].0);
                        } else {
                            assert(keys@[keys@.len() - 1] == rows0[j].0);
                        }
                    }
                }
            }
            i = i + 1;
        }
        let mut i: usize = 0;
        while i < keys.len()
            invariant
                self.wf(),
                self.base() == old(self).base(),
                orig == old(self).map(),
                i <= keys@.len(),
                forall|j: int| 0 <= j < keys@.len() ==> key_part(#[trigger] keys@[j], part) == a,
                forall|j: int|
                    0 <= j < rows0.len() && key_part((#[trigger] rows0[j]).0, part) == a ==> keys@.contains(
                        rows0[j].0,
                    ),
                forall|k: Key|
                    #[trigger] opt_get(self.map(), k) == (if exists|j: int| 0 <= j < i && keys@[j] == k {
                        None
                    } else {
                        opt_get(orig, k)
                    }),
            decreases keys@.len() - i,
        {
            let k = keys[i];
            let ghost m0 = self.map();
            self.remove(k);
            proof {
                assert forall|kk: Key|
                    #[trigger] opt_get(self.map(), kk) == (if exists|j: int| 0 <= j < i + 1 && keys@[j] == kk {
                        None
                    } else {
                        opt_get(orig, kk)
                    }) by {
                    if kk == k {
                        assert(keys@[i as int] == kk);
                    } else {
                        assert(opt_get(self.map(), kk) == opt_get(m0, kk));
                        if exists|j: int| 0 <= j < i + 1 && keys@[j] == kk {
                            let j = choose|j: int| 0 <= j < i + 1 && keys@[j] == kk;
                            assert(j < i);
                        }
                    }
                }
            }
            i = i + 1;
        }
        proof {
            assert forall|k: Key|
                #[trigger] opt_get(self.map(), k) == (if key_part(k, part) == a {
                    None
                } else {
                    opt_get(orig, k)
                }) by {
                if exists|j: int| 0 <= j < i && keys@[j] == k {
                    let j = choose|j: int| 0 <= j < i && keys@[j] == k;
                    assert(key_part(keys@[j], part) == a);
                } else if key_part(k, part) == a && orig.contains_key(k) {
                    let idx = choose|idx: int| 0 <= idx < rows0.len() && #[trigger] rows0[idx].0 == k;
                    assert(keys@.contains(rows0[idx].0));
                    let q = choose|q: int| 0 <= q < keys@.len() && keys@[q] == k;
                    assert(false);
                }
            }
        }
    }
}

impl<V: Copy> Table<V> {
    /// Remove every row.
    pub fn clear_rows(&mut self)
        requires
            old(self).wf(),
        ensures
            final(self).wf(),
            final(self).base() == old(self).base(),
            final(self).map() == Map::<Key, V>::empty(),
    {
        let ghost orig = self.map();
        let ghost rows0 = self.rows@;
        let mut keys: Vec<Key> = Vec::new();
        let mut i: usize = 0;
        while i < self.rows.len()
            invariant
                self.wf(),
                self.rows@ == rows0,
                i <= rows0.len(),
                keys@.len() == i,
                forall|j: int| 0 <= j < i ==> keys@[j] == (#[trigger] rows0[j]).0,
            decreases rows0.len() - i,
        {
            keys.push(self.rows[i].0);
            i = i + 1;
        }
        let mut i: usize = 0;
        while i < keys.len()
            invariant
                self.wf(),
                self.base() == old(self).base(),
                orig == old(self).map(),
                keys@.len() == rows0.len(),
                i <= keys@.len(),
                forall|j: int| 0 <= j < rows0.len() ==> keys@[j] == (#[trigger] rows0[j]).0,
                forall|k: Key|
                    #[trigger] opt_get(self.map(), k) == (if exists|j: int| 0 <= j < i && keys@[j] == k {
                        None
                    } else {
                        opt_get(orig, k)
                    }),
            decreases keys@.len() - i,
        {
            let k = keys[i];
            let ghost m0 = self.map();
            self.remove(k);
            proof {
                assert forall|kk: Key|
                    #[trigger] opt_get(self.map(), kk) == (if exists|j: int| 0 <= j < i + 1 && keys@[j] == kk {
                        None
                    } else {
                        opt_get(orig, kk)
                    }) by {
                    if kk == k {
                        assert(keys@[i as int] == kk);
                    } else {
                        assert(opt_get(self.map(), kk) == opt_get(m0, kk));
                        if exists|j: int| 0 <= j < i + 1 && keys@[j] == kk {
                            let j = choose|j: int| 0 <= j < i + 1 && keys@[j] == kk;
                            assert(j < i);
                        }
                    }
                }
            }
            i = i + 1;
        }
        proof {
            assert(self.map() =~= Map::<Key, V>::empty()) by {
                assert forall|k: Key| !self.map().contains_key(k) by {
                    if orig.contains_key(k) {
                        let idx = choose|idx: int| 0 <= idx < rows0.len() && #[trigger] rows0[idx].0 == k;
                        assert(keys@[idx] == k);
                    }
                    assert(opt_get(self.map(), k) is None);
                }
            }
        }
    }
}


impl<V: Copy> Table<V> {
    /// A copy of the table: same rows, same log, same base.
    pub fn duplicate(&self) -> (t: Self)
        requires
            self.wf(),
        ensures
            t.wf(),
            t@ == self@,
            t.log() == self.log(),
            t.base() == self.base(),
    {
        let mut rows: Vec<(Key, V)> = Vec::new();
        let mut i: usize = 0;
        while i < self.rows.len()
            invariant
                i <= self.rows@.len(),
                rows@ == self.rows@.take(i as int),
            decreases self.rows@.len() - i,
        {
            rows.push(self.rows[i]);
            assert(rows@ =~= self.rows@.take(i + 1));
            i = i + 1;
        }
        let mut log: Vec<(Key, Option<V>)> = Vec::new();
        let mut j: usize = 0;
        while j < self.log.len()
            invariant
                j <= self.log@.len(),
                log@ == self.log@.take(j as int),
            decreases self.log@.len() - j,
        {
            log.push(self.log[j]);
            assert(log@ =~= self.log@.take(j + 1));
            j = j + 1;
        }
        assert(rows@ =~= self.rows@);
        assert(log@ =~= self.log@);
        Table { rows, log, base: Ghost(self.base@) }
    }
}


/// Rows whose first key part is at least `from`, ascending by key.
pub open spec fn from_spec<V>(s: Seq<(Key, V)>, from: u64) -> Seq<(Key, V)> {
    s.filter(|e: (Key, V)| e.0.0 >= from)
}

impl<V: Copy> Table<V> {
    /// Rows whose first key part is at least `from`, ascending by key.
    pub fn scan_from(&self, from: u64) -> (r: Vec<(Key, V)>)
        requires
            self.wf(),
        ensures
            r@ == from_spec(self@, from),
    {
        let mut r: Vec<(Key, V)> = Vec::new();
        let mut i: usize = 0;
        let ghost pred = |e: (Key, V)| e.0.0 >= from;
        while i < self.rows.len()
            invariant
                i <= self.rows@.len(),
                r@ == self.rows@.take(i as int).filter(pred),
                pred == (|e: (Key, V)| e.0.0 >= from),
            decreases self.rows@.len() - i,
        {
            let e = self.rows[i];
            proof {
                assert(self.rows@.take(i + 1) =~= self.rows@.take(i as int).push(e));
                self.rows@.take(i as int).lemma_filter_push(e, pred);
            }
            if e.0.0 >= from {
                r.push(e);
            }
            i = i + 1;
        }
        proof {
            assert(self.rows@.take(i as int) =~= self.rows@);
        }
        r
    }
}

} // verus!
