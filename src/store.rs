//! Named-entry caches of one connection: prepared statements and portals.
use vstd::prelude::*;

verus! {

/// An in-memory store from names to entries. The empty name stands for the
/// unnamed statement or portal. Entries live until deleted: there is no
/// eviction.
pub struct MemSessionStore<V> {
    entries: Vec<(String, V)>,
    contents: Ghost<Map<Seq<char>, V>>,
}

impl<V> View for MemSessionStore<V> {
    type V = Map<Seq<char>, V>;

    closed spec fn view(&self) -> Map<Seq<char>, V> {
        self.contents@
    }
}

impl<V> MemSessionStore<V> {
    /// Each name appears once in `entries`, and the entries are exactly the
    /// modelled map.
    pub closed spec fn wf(&self) -> bool {
        &&& forall|i: int|
            0 <= i < self.entries@.len() ==> #[trigger] self.contents@.contains_key(
                self.entries@[i].0@,
            ) && self.contents@[self.entries@[i].0@] == self.entries@[i].1
        &&& forall|k: Seq<char>|
            #[trigger] self.contents@.contains_key(k) ==> exists|i: int|
                0 <= i < self.entries@.len() && #[trigger] self.entries@[i].0@ == k
        &&& forall|i: int, j: int|
            0 <= i < j < self.entries@.len() ==> #[trigger] self.entries@[i].0@
                != #[trigger] self.entries@[j].0@
    }

    /// An empty store.
    pub fn new() -> (r: Self)
        ensures
            r.wf(),
            r@ == Map::<Seq<char>, V>::empty(),
    {
        MemSessionStore { entries: Vec::new(), contents: Ghost(Map::empty()) }
    }

    /// Where the entry named `name` stands, if there is one.
    fn position(&self, name: &String) -> (r: Option<usize>)
        requires
            self.wf(),
        ensures
            match r {
                Some(i) => i < self.entries@.len() && self.entries@[i as int].0@ == name@,
                None => !self@.contains_key(name@),
            },
    {
        let mut i: usize = 0;
        while i < self.entries.len()
            invariant
                0 <= i <= self.entries@.len(),
                forall|j: int| 0 <= j < i ==> self.entries@[j].0@ != name@,
            decreases self.entries@.len() - i,
        {
            if self.entries[i].0 == *name {
                return Some(i);
            }
            i = i + 1;
        }
        None
    }

    /// Stores `value` under `name`, replacing any entry of that name.
    pub fn put(&mut self, name: &str, value: V)
        requires
            old(self).wf(),
        ensures
            final(self).wf(),
            final(self)@ == old(self)@.insert(name@, value),
    {
        let key = name.to_owned();
        let ghost k = key@;
        let ghost m = self.contents@.insert(k, value);
        match self.position(&key) {
            Some(i) => {
                self.entries.set(i, (key, value));
                self.contents = Ghost(m);
                assert forall|a: int|
                    0 <= a < self.entries@.len() implies #[trigger] self.contents@.contains_key(
                    self.entries@[a].0@,
                ) && self.contents@[self.entries@[a].0@] == self.entries@[a].1 by {
                    if a != i {
                        assert(old(self).entries@[a] == self.entries@[a]);
                        assert(old(self).entries@[a].0@ != old(self).entries@[i as int].0@);
                        assert(old(self).contents@.contains_key(old(self).entries@[a].0@));
                    }
                }
                assert forall|a: int, b: int|
                    0 <= a < b < self.entries@.len() implies #[trigger] self.entries@[a].0@
                    != #[trigger] self.entries@[b].0@ by {
                    assert(old(self).entries@[a].0@ != old(self).entries@[b].0@);
                }
                assert forall|kk: Seq<char>| #[trigger] self.contents@.contains_key(kk) implies exists|
                    j: int,
                | 0 <= j < self.entries@.len() && #[trigger] self.entries@[j].0@ == kk by {
                    if kk != k {
                        let j = choose|j: int|
                            0 <= j < old(self).entries@.len() && #[trigger] old(
                                self,
                            ).entries@[j].0@ == kk;
                        assert(self.entries@[j].0@ == kk);
                    } else {
                        assert(self.entries@[i as int].0@ == kk);
                    }
                }
            },
            None => {
                self.entries.push((key, value));
                self.contents = Ghost(m);
                let ghost n: int = self.entries@.len() - 1;
                assert forall|kk: Seq<char>| #[trigger] self.contents@.contains_key(kk) implies exists|
                    j: int,
                | 0 <= j < self.entries@.len() && #[trigger] self.entries@[j].0@ == kk by {
                    if kk != k {
                        let j = choose|j: int|
                            0 <= j < old(self).entries@.len() && #[trigger] old(
                                self,
                            ).entries@[j].0@ == kk;
                        assert(self.entries@[j].0@ == kk);
                    } else {
                        assert(self.entries@[n].0@ == kk);
                    }
                }
                assert forall|a: int, b: int|
                    0 <= a < b < self.entries@.len() implies #[trigger] self.entries@[a].0@
                    != #[trigger] self.entries@[b].0@ by {
                    if b == n {
                        assert(old(self).contents@.contains_key(self.entries@[a].0@));
                    }
                }
            },
        }
    }

    /// The entry named `name`, if there is one.
    pub fn get(&self, name: &str) -> (r: Option<&V>)
        requires
            self.wf(),
        ensures
            match r {
                Some(v) => self@.contains_key(name@) && *v == self@[name@],
                None => !self@.contains_key(name@),
            },
    {
        let key = name.to_owned();
        match self.position(&key) {
            Some(i) => {
                assert(self.contents@.contains_key(self.entries@[i as int].0@));
                Some(&self.entries[i].1)
            },
            None => None,
        }
    }

    /// Removes the entry named `name`; a name with no entry is no error.
    pub fn del(&mut self, name: &str)
        requires
            old(self).wf(),
        ensures
            final(self).wf(),
            final(self)@ == old(self)@.remove(name@),
    {
        let key = name.to_owned();
        let ghost k = key@;
        let ghost m = self.contents@.remove(k);
        match self.position(&key) {
            Some(i) => {
                self.entries.remove(i);
                self.contents = Ghost(m);
                assert forall|a: int|
                    0 <= a < self.entries@.len() implies #[trigger] self.contents@.contains_key(
                    self.entries@[a].0@,
                ) && self.contents@[self.entries@[a].0@] == self.entries@[a].1 by {
                    let oa = if a < i { a } else { a + 1 };
                    assert(old(self).entries@[oa] == self.entries@[a]);
                    assert(old(self).entries@[oa].0@ != old(self).entries@[i as int].0@);
                    assert(old(self).contents@.contains_key(old(self).entries@[oa].0@));
                }
                assert forall|kk: Seq<char>| #[trigger] self.contents@.contains_key(kk) implies exists|
                    j: int,
                | 0 <= j < self.entries@.len() && #[trigger] self.entries@[j].0@ == kk by {
                    let j = choose|j: int|
                        0 <= j < old(self).entries@.len() && #[trigger] old(self).entries@[j].0@
                            == kk;
                    if j < i {
                        assert(self.entries@[j].0@ == kk);
                    } else {
                        assert(j != i);
                        assert(self.entries@[j - 1].0@ == kk);
                    }
                }
                assert forall|a: int, b: int|
                    0 <= a < b < self.entries@.len() implies #[trigger] self.entries@[a].0@
                    != #[trigger] self.entries@[b].0@ by {
                    let oa = if a < i { a } else { a + 1 };
                    let ob = if b < i { b } else { b + 1 };
                    assert(self.entries@[a] == old(self).entries@[oa]);
                    assert(self.entries@[b] == old(self).entries@[ob]);
                }
            },
            None => {
                assert(m =~= self.contents@);
            },
        }
    }
}

/// A named-entry store: one entry per name, replaced on insert, with a
/// delete that is no error for an absent name.
pub trait SessionStore<V> {
    /// The entries, by name.
    spec fn entries(&self) -> Map<Seq<char>, V>;

    /// The store's own invariant holds.
    spec fn valid(&self) -> bool;

    fn put(&mut self, name: &str, value: V)
        requires
            old(self).valid(),
        ensures
            final(self).valid(),
            final(self).entries() == old(self).entries().insert(name@, value),
    ;

    fn get(&self, name: &str) -> (r: Option<&V>)
        requires
            self.valid(),
        ensures
            match r {
                Some(v) => self.entries().contains_key(name@) && *v == self.entries()[name@],
                None => !self.entries().contains_key(name@),
            },
    ;

    fn del(&mut self, name: &str)
        requires
            old(self).valid(),
        ensures
            final(self).valid(),
            final(self).entries() == old(self).entries().remove(name@),
    ;
}

impl<V> SessionStore<V> for MemSessionStore<V> {
    open spec fn entries(&self) -> Map<Seq<char>, V> {
        self@
    }

    open spec fn valid(&self) -> bool {
        self.wf()
    }

    fn put(&mut self, name: &str, value: V) {
        MemSessionStore::put(self, name, value)
    }

    fn get(&self, name: &str) -> (r: Option<&V>) {
        MemSessionStore::get(self, name)
    }

    fn del(&mut self, name: &str) {
        MemSessionStore::del(self, name)
    }
}

/// Deleting a name twice in a row leaves the store as deleting it once did,
/// and after either deletion the name has no entry.
pub proof fn lemma_del_idempotent<V>(m: Map<Seq<char>, V>, name: Seq<char>)
    ensures
        !m.remove(name).contains_key(name),
        m.remove(name).remove(name) == m.remove(name),
        !m.remove(name).remove(name).contains_key(name),
{
    assert(m.remove(name).remove(name) =~= m.remove(name));
}

/// Storing under a name that already has an entry replaces it: a lookup
/// then finds the last value stored.
pub proof fn lemma_put_replaces<V>(m: Map<Seq<char>, V>, name: Seq<char>, a: V, b: V)
    ensures
        m.insert(name, a).insert(name, b).contains_key(name),
        m.insert(name, a).insert(name, b)[name] == b,
        m.insert(name, a).insert(name, b) == m.insert(name, b),
{
    assert(m.insert(name, a).insert(name, b) =~= m.insert(name, b));
}

} // verus!
