//! Entity labels: id to name, and name to id. The two directions are kept
//! separately, as stored, and need not agree.
use vstd::prelude::*;
#[allow(unused_imports)]
use vstd::string::*;
#[allow(unused_imports)]
use vstd::utf8::*;
use crate::table::{Key, Table, opt_get, sorted};
use crate::text::bytes_equal;

verus! {

/// Whether two strings are equal.
pub fn str_equal(a: &str, b: &str) -> (r: bool)
    ensures
        r == (a@ == b@),
{
    proof {
        encode_utf8_decode_utf8(a@);
        encode_utf8_decode_utf8(b@);
    }
    bytes_equal(a.as_bytes(), b.as_bytes())
}

/// Name to id, with each name once.
pub struct Names {
    rows: Vec<(String, u64)>,
}

impl Names {
    /// The name/id pairs.
    pub closed spec fn rows(&self) -> Seq<(Seq<char>, u64)> {
        self.rows@.map_values(|e: (String, u64)| (e.0@, e.1))
    }

    /// No name occurs twice.
    pub closed spec fn wf(&self) -> bool {
        forall|i: int, j: int|
            0 <= i < self.rows@.len() && 0 <= j < self.rows@.len() && i != j ==> #[trigger] self.rows@[i].0@
                != #[trigger] self.rows@[j].0@
    }

    /// The ids by name.
    pub open spec fn map(&self) -> Map<Seq<char>, u64> {
        Map::new(
            |k: Seq<char>| exists|i: int| 0 <= i < self.rows().len() && #[trigger] self.rows()[i].0 == k,
            |k: Seq<char>| self.rows()[choose|i: int| 0 <= i < self.rows().len() && #[trigger] self.rows()[i].0 == k].1,
        )
    }

    proof fn lemma_at(&self, i: int)
        requires
            self.wf(),
            0 <= i < self.rows@.len(),
        ensures
            self.map().contains_key(self.rows@[i].0@),
            self.map()[self.rows@[i].0@] == self.rows@[i].1,
    {
        let k = self.rows@[i].0@;
        assert(self.rows()[i].0 == k);
        let c = choose|j: int| 0 <= j < self.rows().len() && #[trigger] self.rows()[j].0 == k;
        assert(self.rows@[c].0@ == k);
    }

    pub fn new() -> (n: Self)
        ensures
            n.wf(),
            n.map() == Map::<Seq<char>, u64>::empty(),
    {
        let n = Names { rows: Vec::new() };
        assert(n.map() =~= Map::<Seq<char>, u64>::empty());
        n
    }

    fn find(&self, name: &str) -> (r: Option<usize>)
        requires
            self.wf(),
        ensures
            r matches Some(i) ==> i < self.rows@.len() && self.rows@[i as int].0@ == name@,
            r is None ==> forall|j: int| 0 <= j < self.rows@.len() ==> #[trigger] self.rows@[j].0@ != name@,
    {
        let mut i: usize = 0;
        while i < self.rows.len()
            invariant
                i <= self.rows@.len(),
                forall|j: int| 0 <= j < i ==> #[trigger] self.rows@[j].0@ != name@,
            decreases self.rows@.len() - i,
        {
            if str_equal(self.rows[i].0.as_str(), name) {
                return Some(i);
            }
            i = i + 1;
        }
        None
    }

    /// The id stored under `name`.
    pub fn get(&self, name: &str) -> (r: Option<u64>)
        requires
            self.wf(),
        ensures
            r == (if self.map().contains_key(name@) { Some(self.map()[name@]) } else { None::<u64> }),
    {
        match self.find(name) {
            Some(i) => {
                proof {
                    self.lemma_at(i as int);
                }
                Some(self.rows[i].1)
            },
            None => {
                proof {
                    if self.map().contains_key(name@) {
                        let c = choose|j: int| 0 <= j < self.rows().len() && #[trigger] self.rows()[j].0 == name@;
                        assert(self.rows@[c].0@ == name@);
                    }
                }
                None
            },
        }
    }

    /// Store `id` under `name`, replacing what was there.
    pub fn put(&mut self, name: &str, id: u64)
        requires
            old(self).wf(),
        ensures
            final(self).wf(),
            final(self).map() == old(self).map().insert(name@, id),
    {
        let entry = (String::from_str(name), id);
        match self.find(name) {
            Some(i) => {
                self.rows.set(i, entry);
                proof {
                    let o = old(self);
                    assert forall|k: Seq<char>| #[trigger] self.map().contains_key(k) <==> o.map().insert(
                        name@,
                        id,
                    ).contains_key(k) by {
                        if o.map().contains_key(k) && k != name@ {
                            let c = choose|j: int| 0 <= j < o.rows().len() && #[trigger] o.rows()[j].0 == k;
                            assert(self.rows()[c].0 == k);
                        }
                        if k == name@ {
                            assert(self.rows()[i as int].0 == k);
                        }
                        if self.map().contains_key(k) && k != name@ {
                            let c = choose|j: int| 0 <= j < self.rows().len() && #[trigger] self.rows()[j].0 == k;
                            assert(o.rows()[c].0 == k);
                        }
                    }
                    assert forall|k: Seq<char>| #[trigger] self.map().contains_key(k) implies self.map()[k] == o.map().insert(
                        name@,
                        id,
                    )[k] by {
                        let c = choose|j: int| 0 <= j < self.rows().len() && #[trigger] self.rows()[j].0 == k;
                        self.lemma_at(c);
                        if c != i {
                            o.lemma_at(c);
                        }
                    }
                    assert(self.map() =~= o.map().insert(name@, id));
                }
            },
            None => {
                self.rows.push(entry);
                proof {
                    let o = old(self);
                    let n = o.rows@.len() as int;
                    assert forall|k: Seq<char>| #[trigger] self.map().contains_key(k) <==> o.map().insert(
                        name@,
                        id,
                    ).contains_key(k) by {
                        if o.map().contains_key(k) {
                            let c = choose|j: int| 0 <= j < o.rows().len() && #[trigger] o.rows()[j].0 == k;
                            assert(self.rows()[c].0 == k);
                        }
                        if k == name@ {
                            assert(self.rows()[n].0 == k);
                        }
                        if self.map().contains_key(k) && k != name@ {
                            let c = choose|j: int| 0 <= j < self.rows().len() && #[trigger] self.rows()[j].0 == k;
                            assert(o.rows()[c].0 == k);
                        }
                    }
                    assert forall|k: Seq<char>| #[trigger] self.map().contains_key(k) implies self.map()[k] == o.map().insert(
                        name@,
                        id,
                    )[k] by {
                        let c = choose|j: int| 0 <= j < self.rows().len() && #[trigger] self.rows()[j].0 == k;
                        self.lemma_at(c);
                        if c != n {
                            o.lemma_at(c);
                        }
                    }
                    assert(self.map() =~= o.map().insert(name@, id));
                }
            },
        }
    }

    /// Remove `name`, if stored.
    pub fn del(&mut self, name: &str)
        requires
            old(self).wf(),
        ensures
            final(self).wf(),
            final(self).map() == old(self).map().remove(name@),
    {
        match self.find(name) {
            Some(i) => {
                self.rows.remove(i);
                proof {
                    let o = old(self);
                    assert(forall|j: int| 0 <= j < i ==> self.rows@[j] == o.rows@[j]);
                    assert(forall|j: int| i <= j < self.rows@.len() ==> self.rows@[j] == o.rows@[j + 1]);
                    assert forall|a: int, b: int|
                        0 <= a < self.rows@.len() && 0 <= b < self.rows@.len() && a != b implies #[trigger] self.rows@[a].0@
                        != #[trigger] self.rows@[b].0@ by {
                        let a2 = if a < i { a } else { a + 1 };
                        let b2 = if b < i { b } else { b + 1 };
                        assert(o.rows@[a2].0@ != o.rows@[b2].0@);
                    }
                    assert forall|k: Seq<char>| #[trigger] self.map().contains_key(k) <==> o.map().remove(
                        name@,
                    ).contains_key(k) by {
                        if o.map().contains_key(k) && k != name@ {
                            let c = choose|j: int| 0 <= j < o.rows().len() && #[trigger] o.rows()[j].0 == k;
                            if c < i {
                                assert(self.rows()[c].0 == k);
                            } else {
                                assert(c != i);
                                assert(self.rows()[c - 1].0 == k);
                            }
                        }
                        if self.map().contains_key(k) {
                            let c = choose|j: int| 0 <= j < self.rows().len() && #[trigger] self.rows()[j].0 == k;
                            let c2 = if c < i { c } else { c + 1 };
                            assert(o.rows()[c2].0 == k);
                            assert(c2 != i);
                            assert(o.rows@[c2].0@ != o.rows@[i as int].0@);
                        }
                    }
                    assert forall|k: Seq<char>| #[trigger] self.map().contains_key(k) implies self.map()[k] == o.map().remove(
                        name@,
                    )[k] by {
                        let c = choose|j: int| 0 <= j < self.rows().len() && #[trigger] self.rows()[j].0 == k;
                        self.lemma_at(c);
                        let c2 = if c < i { c } else { c + 1 };
                        o.lemma_at(c2);
                    }
                    assert(self.map() =~= o.map().remove(name@));
                }
            },
            None => {
                proof {
                    let o = old(self);
                    if o.map().contains_key(name@) {
                        let c = choose|j: int| 0 <= j < o.rows().len() && #[trigger] o.rows()[j].0 == name@;
                        assert(o.rows@[c].0@ == name@);
                    }
                    assert(o.map() =~= o.map().remove(name@));
                }
            },
        }
    }
}


/// Id to name, ordered by id.
pub struct Labels {
    index: Table<usize>,
    pool: Vec<String>,
}

impl Labels {
    /// The index is well formed, its keys are `(id, 0, 0)`, and each points
    /// into the pool.
    pub closed spec fn wf(&self) -> bool {
        &&& self.index.wf()
        &&& forall|k: Key| #[trigger] self.index.map().contains_key(k) ==> k.1 == 0 && k.2 == 0
            && self.index.map()[k] < self.pool@.len()
    }

    /// The names by id.
    pub closed spec fn map(&self) -> Map<u64, Seq<char>> {
        Map::new(
            |id: u64| self.index.map().contains_key((id, 0, 0)),
            |id: u64| self.pool@[self.index.map()[(id, 0, 0)] as int]@,
        )
    }

    /// The id/name pairs, ascending by id.
    pub closed spec fn rows(&self) -> Seq<(u64, Seq<char>)> {
        self.index@.map_values(|e: (Key, usize)| (e.0.0, self.pool@[e.1 as int]@))
    }

    /// The rows ascend strictly by id and list exactly the map.
    pub proof fn lemma_rows(&self)
        requires
            self.wf(),
        ensures
            forall|i: int, j: int| 0 <= i < j < self.rows().len() ==> #[trigger] self.rows()[i].0 < #[trigger] self.rows()[j].0,
            forall|i: int| 0 <= i < self.rows().len() ==> #[trigger] self.map().contains_key(self.rows()[i].0)
                && self.map()[self.rows()[i].0] == self.rows()[i].1,
            forall|id: u64| #[trigger] self.map().contains_key(id) ==> exists|i: int| 0 <= i < self.rows().len()
                && #[trigger] self.rows()[i].0 == id,
    {
        let s = self.index@;
        self.index.lemma_sorted();
        assert forall|i: int, j: int| 0 <= i < j < self.rows().len() implies #[trigger] self.rows()[i].0
            < #[trigger] self.rows()[j].0 by {
            Table::<usize>::lemma_map_at(s, i);
            Table::<usize>::lemma_map_at(s, j);
            assert(self.index.map().contains_key(s[i].0));
            assert(self.index.map().contains_key(s[j].0));
            assert(crate::table::key_lt(s[i].0, s[j].0));
            assert(self.rows()[i].0 == s[i].0.0);
            assert(self.rows()[j].0 == s[j].0.0);
        }
        assert forall|i: int| 0 <= i < self.rows().len() implies #[trigger] self.map().contains_key(self.rows()[i].0)
            && self.map()[self.rows()[i].0] == self.rows()[i].1 by {
            Table::<usize>::lemma_map_at(s, i);
            assert(self.index.map().contains_key(s[i].0));
        }
        assert forall|id: u64| #[trigger] self.map().contains_key(id) implies exists|i: int| 0 <= i < self.rows().len()
            && #[trigger] self.rows()[i].0 == id by {
            let c = choose|i: int| 0 <= i < s.len() && #[trigger] s[i].0 == (id, 0u64, 0u64);
            assert(self.rows()[c].0 == id);
        }
    }

    pub fn new() -> (l: Self)
        ensures
            l.wf(),
            l.map() == Map::<u64, Seq<char>>::empty(),
    {
        let l = Labels { index: Table::new(), pool: Vec::new() };
        assert(l.map() =~= Map::<u64, Seq<char>>::empty());
        l
    }

    /// The name stored under `id`.
    pub fn get(&self, id: u64) -> (r: Option<String>)
        requires
            self.wf(),
        ensures
            r is Some <==> self.map().contains_key(id),
            r matches Some(s) ==> s@ == self.map()[id],
    {
        match self.index.get((id, 0, 0)) {
            Some(i) => Some(self.pool[i].clone()),
            None => None,
        }
    }

    /// Whether a name is stored under `id`.
    pub fn contains(&self, id: u64) -> (r: bool)
        requires
            self.wf(),
        ensures
            r == self.map().contains_key(id),
    {
        self.index.contains((id, 0, 0))
    }

    /// Store `name` under `id`, replacing what was there.
    pub fn put(&mut self, id: u64, name: &str)
        requires
            old(self).wf(),
        ensures
            final(self).wf(),
            final(self).map() == old(self).map().insert(id, name@),
    {
        let at = self.pool.len();
        self.pool.push(String::from_str(name));
        self.index.insert((id, 0, 0), at);
        proof {
            let o = old(self);
            assert forall|k: Key| #[trigger] self.index.map().contains_key(k) implies k.1 == 0 && k.2 == 0
                && self.index.map()[k] < self.pool@.len() by {
                if k != (id, 0u64, 0u64) {
                    assert(o.index.map().contains_key(k));
                }
            }
            assert(self.map() =~= o.map().insert(id, name@));
        }
    }

    /// Remove the name under `id`; whether there was one.
    pub fn del(&mut self, id: u64) -> (had: bool)
        requires
            old(self).wf(),
        ensures
            final(self).wf(),
            final(self).map() == old(self).map().remove(id),
            had == old(self).map().contains_key(id),
    {
        let had = self.index.contains((id, 0, 0));
        self.index.remove((id, 0, 0));
        proof {
            let o = old(self);
            assert forall|k: Key| #[trigger] self.index.map().contains_key(k) implies k.1 == 0 && k.2 == 0
                && self.index.map()[k] < self.pool@.len() by {
                assert(o.index.map().contains_key(k));
            }
            assert(self.map() =~= o.map().remove(id));
        }
        had
    }

    /// All id/name pairs, ascending by id.
    pub fn list(&self) -> (r: Vec<(u64, String)>)
        requires
            self.wf(),
        ensures
            r@.map_values(|e: (u64, String)| (e.0, e.1@)) == self.rows(),
    {
        let mut r: Vec<(u64, String)> = Vec::new();
        let mut i: usize = 0;
        proof {
            self.index.lemma_sorted();
        }
        while i < self.index.len()
            invariant
                self.wf(),
                sorted(self.index@),
                i <= self.index@.len(),
                r@.map_values(|e: (u64, String)| (e.0, e.1@)) == self.rows().take(i as int),
            decreases self.index@.len() - i,
        {
            let (k, at) = self.index.row(i);
            proof {
                Table::<usize>::lemma_map_at(self.index@, i as int);
                assert(self.index.map().contains_key(k));
            }
            let name = self.pool[at].clone();
            let ghost before = r@;
            r.push((k.0, name));
            proof {
                let f = |e: (u64, String)| (e.0, e.1@);
                assert(r@ == before.push((k.0, name)));
                assert(self.rows()[i as int] == (k.0, name@));
                assert(r@.map_values(f) =~= before.map_values(f).push((k.0, name@)));
                assert(self.rows().take(i + 1) =~= self.rows().take(i as int).push(self.rows()[i as int]));
                assert(r@.map_values(f) =~= self.rows().take(i + 1));
            }
            i = i + 1;
        }
        assert(self.rows().take(i as int) =~= self.rows());
        r
    }
}


/// Texts under three-part keys, ordered by key.
pub struct Texts {
    index: Table<usize>,
    pool: Vec<String>,
}

impl Texts {
    /// The index is well formed and each entry points into the pool.
    pub closed spec fn wf(&self) -> bool {
        &&& self.index.wf()
        &&& forall|k: Key| #[trigger] self.index.map().contains_key(k) ==> self.index.map()[k] < self.pool@.len()
    }

    /// The texts by key.
    pub closed spec fn map(&self) -> Map<Key, Seq<char>> {
        Map::new(
            |k: Key| self.index.map().contains_key(k),
            |k: Key| self.pool@[self.index.map()[k] as int]@,
        )
    }

    /// The key/text pairs, ascending by key.
    pub closed spec fn rows(&self) -> Seq<(Key, Seq<char>)> {
        self.index@.map_values(|e: (Key, usize)| (e.0, self.pool@[e.1 as int]@))
    }

    /// The rows ascend strictly by key and list exactly the map.
    pub proof fn lemma_rows(&self)
        requires
            self.wf(),
        ensures
            forall|i: int, j: int| 0 <= i < j < self.rows().len() ==> crate::table::key_lt(
                #[trigger] self.rows()[i].0,
                #[trigger] self.rows()[j].0,
            ),
            forall|i: int| 0 <= i < self.rows().len() ==> #[trigger] self.map().contains_key(self.rows()[i].0)
                && self.map()[self.rows()[i].0] == self.rows()[i].1,
            forall|k: Key| #[trigger] self.map().contains_key(k) ==> exists|i: int| 0 <= i < self.rows().len()
                && #[trigger] self.rows()[i].0 == k,
    {
        let s = self.index@;
        self.index.lemma_sorted();
        assert forall|i: int, j: int| 0 <= i < j < self.rows().len() implies crate::table::key_lt(
            #[trigger] self.rows()[i].0,
            #[trigger] self.rows()[j].0,
        ) by {
            assert(crate::table::key_lt(s[i].0, s[j].0));
        }
        assert forall|i: int| 0 <= i < self.rows().len() implies #[trigger] self.map().contains_key(self.rows()[i].0)
            && self.map()[self.rows()[i].0] == self.rows()[i].1 by {
            Table::<usize>::lemma_map_at(s, i);
        }
        assert forall|k: Key| #[trigger] self.map().contains_key(k) implies exists|i: int| 0 <= i < self.rows().len()
            && #[trigger] self.rows()[i].0 == k by {
            let c = choose|i: int| 0 <= i < s.len() && #[trigger] s[i].0 == k;
            assert(self.rows()[c].0 == k);
        }
    }

    pub fn new() -> (t: Self)
        ensures
            t.wf(),
            t.map() == Map::<Key, Seq<char>>::empty(),
            t.rows() == Seq::<(Key, Seq<char>)>::empty(),
    {
        let t = Texts { index: Table::new(), pool: Vec::new() };
        assert(t.map() =~= Map::<Key, Seq<char>>::empty());
        assert(t.rows() =~= Seq::<(Key, Seq<char>)>::empty());
        t
    }

    /// The text under `k`.
    pub fn get(&self, k: Key) -> (r: Option<String>)
        requires
            self.wf(),
        ensures
            r is Some <==> self.map().contains_key(k),
            r matches Some(s) ==> s@ == self.map()[k],
    {
        match self.index.get(k) {
            Some(i) => Some(self.pool[i].clone()),
            None => None,
        }
    }

    /// Store `text` under `k`, replacing what was there.
    pub fn put(&mut self, k: Key, text: &str)
        requires
            old(self).wf(),
        ensures
            final(self).wf(),
            final(self).map() == old(self).map().insert(k, text@),
    {
        let at = self.pool.len();
        self.pool.push(String::from_str(text));
        self.index.insert(k, at);
        proof {
            let o = old(self);
            assert forall|kk: Key| #[trigger] self.index.map().contains_key(kk) implies self.index.map()[kk]
                < self.pool@.len() by {
                if kk != k {
                    assert(o.index.map().contains_key(kk));
                }
            }
            assert(self.map() =~= o.map().insert(k, text@));
        }
    }

    /// Remove the text under `k`; whether there was one.
    pub fn del(&mut self, k: Key) -> (had: bool)
        requires
            old(self).wf(),
        ensures
            final(self).wf(),
            final(self).map() == old(self).map().remove(k),
            had == old(self).map().contains_key(k),
    {
        let had = self.index.contains(k);
        self.index.remove(k);
        proof {
            let o = old(self);
            assert forall|kk: Key| #[trigger] self.index.map().contains_key(kk) implies self.index.map()[kk]
                < self.pool@.len() by {
                assert(o.index.map().contains_key(kk));
            }
            assert(self.map() =~= o.map().remove(k));
        }
        had
    }

    /// Remove every text.
    pub fn clear(&mut self)
        requires
            old(self).wf(),
        ensures
            final(self).wf(),
            final(self).map() == Map::<Key, Seq<char>>::empty(),
    {
        *self = Texts::new();
    }

    /// How many texts are stored.
    pub fn len(&self) -> (n: usize)
        requires
            self.wf(),
        ensures
            n == self.rows().len(),
    {
        self.index.len()
    }

    /// Row `i`, ascending by key.
    pub fn row(&self, i: usize) -> (r: (Key, String))
        requires
            self.wf(),
            i < self.rows().len(),
        ensures
            r.0 == self.rows()[i as int].0,
            r.1@ == self.rows()[i as int].1,
    {
        let (k, at) = self.index.row(i);
        proof {
            self.index.lemma_sorted();
            Table::<usize>::lemma_map_at(self.index@, i as int);
            assert(self.index.map().contains_key(k));
        }
        (k, self.pool[at].clone())
    }
}


fn copy_strings(v: &Vec<String>) -> (r: Vec<String>)
    ensures
        r@.len() == v@.len(),
        forall|i: int| 0 <= i < v@.len() ==> #[trigger] r@[i]@ == v@[i]@,
{
    let mut r: Vec<String> = Vec::new();
    let mut i: usize = 0;
    while i < v.len()
        invariant
            i <= v@.len(),
            r@.len() == i,
            forall|j: int| 0 <= j < i ==> #[trigger] r@[j]@ == v@[j]@,
        decreases v@.len() - i,
    {
        r.push(v[i].clone());
        i = i + 1;
    }
    r
}

impl Names {
    /// A copy.
    pub fn duplicate(&self) -> (n: Self)
        requires
            self.wf(),
        ensures
            n.wf(),
            n.map() == self.map(),
    {
        let mut rows: Vec<(String, u64)> = Vec::new();
        let mut i: usize = 0;
        while i < self.rows.len()
            invariant
                i <= self.rows@.len(),
                rows@.len() == i,
                forall|j: int| 0 <= j < i ==> #[trigger] rows@[j].0@ == self.rows@[j].0@ && rows@[j].1 == self.rows@[j].1,
            decreases self.rows@.len() - i,
        {
            rows.push((self.rows[i].0.clone(), self.rows[i].1));
            i = i + 1;
        }
        let n = Names { rows };
        assert(n.rows() =~= self.rows());
        assert forall|a: int, b: int|
            0 <= a < n.rows@.len() && 0 <= b < n.rows@.len() && a != b implies #[trigger] n.rows@[a].0@
            != #[trigger] n.rows@[b].0@ by {
            assert(self.rows@[a].0@ != self.rows@[b].0@);
        }
        assert(n.map() =~= self.map());
        n
    }
}

impl Texts {
    /// A copy.
    pub fn duplicate(&self) -> (t: Self)
        requires
            self.wf(),
        ensures
            t.wf(),
            t.map() == self.map(),
            t.rows() == self.rows(),
    {
        let t = Texts { index: self.index.duplicate(), pool: copy_strings(&self.pool) };
        assert(t.map() =~= self.map());
        proof {
            self.index.lemma_sorted();
            assert forall|i: int| 0 <= i < t.rows().len() implies #[trigger] t.rows()[i] == self.rows()[i] by {
                Table::<usize>::lemma_map_at(self.index@, i);
                assert(self.index.map().contains_key(self.index@[i].0));
            }
        }
        assert(t.rows() =~= self.rows());
        t
    }
}


impl Labels {
    /// A copy.
    pub fn duplicate(&self) -> (t: Self)
        requires
            self.wf(),
        ensures
            t.wf(),
            t.map() == self.map(),
            t.rows() == self.rows(),
    {
        let t = Labels { index: self.index.duplicate(), pool: copy_strings(&self.pool) };
        assert(t.map() =~= self.map());
        proof {
            self.index.lemma_sorted();
            assert forall|i: int| 0 <= i < t.rows().len() implies #[trigger] t.rows()[i] == self.rows()[i] by {
                Table::<usize>::lemma_map_at(self.index@, i);
                assert(self.index.map().contains_key(self.index@[i].0));
            }
        }
        assert(t.rows() =~= self.rows());
        t
    }
}


impl Names {
    /// The names, in row order; no name occurs twice.
    pub fn names(&self) -> (r: Vec<String>)
        requires
            self.wf(),
        ensures
            r@.len() == self.rows().len(),
            forall|i: int| 0 <= i < r@.len() ==> (#[trigger] r@[i])@ == self.rows()[i].0,
            forall|i: int, j: int| 0 <= i < j < r@.len() ==> (#[trigger] r@[i])@ != (#[trigger] r@[j])@,
    {
        let mut r: Vec<String> = Vec::new();
        let mut i: usize = 0;
        while i < self.rows.len()
            invariant
                self.wf(),
                i <= self.rows@.len(),
                r@.len() == i,
                forall|j: int| 0 <= j < i ==> (#[trigger] r@[j])@ == self.rows@[j].0@,
            decreases self.rows@.len() - i,
        {
            r.push(self.rows[i].0.clone());
            i = i + 1;
        }
        proof {
            assert forall|a: int, b: int| 0 <= a < b < r@.len() implies (#[trigger] r@[a])@ != (#[trigger] r@[b])@ by {
                assert(self.rows@[a].0@ != self.rows@[b].0@);
            }
        }
        r
    }
}

} // verus!
