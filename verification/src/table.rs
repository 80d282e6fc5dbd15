//! A small keyed table: entries in the order in which their keys first came, no key twice.

use vstd::prelude::*;
use vstd::string::*;
use crate::address::Address;
use crate::backend::RouteKey;
use crate::text::text_eq;

verus! {

/// A key of a table, and the form in which it is looked up.
pub trait TableKey: Sized {
    /// What two equal keys have in common.
    type Id;

    /// The form in which a key is looked up.
    type Probe: ?Sized;

    /// What identifies a key.
    spec fn id(&self) -> Self::Id;

    /// What identifies the key that a probe asks for.
    spec fn probe_id(probe: &Self::Probe) -> Self::Id;

    /// Whether this is the key that a probe asks for.
    fn is(&self, probe: &Self::Probe) -> (r: bool)
        ensures
            r == (self.id() == Self::probe_id(probe)),
    ;

    /// The key that a probe asks for.
    fn from_probe(probe: &Self::Probe) -> (r: Self)
        ensures
            r.id() == Self::probe_id(probe),
    ;
}

impl TableKey for String {
    type Id = Seq<char>;

    type Probe = str;

    open spec fn id(&self) -> Seq<char> {
        self@
    }

    open spec fn probe_id(probe: &str) -> Seq<char> {
        probe@
    }

    fn is(&self, probe: &str) -> (r: bool) {
        text_eq(self.as_str(), probe)
    }

    fn from_probe(probe: &str) -> (r: Self) {
        probe.to_owned()
    }
}

impl TableKey for Address {
    type Id = Address;

    type Probe = Address;

    open spec fn id(&self) -> Address {
        *self
    }

    open spec fn probe_id(probe: &Address) -> Address {
        *probe
    }

    fn is(&self, probe: &Address) -> (r: bool) {
        *self == *probe
    }

    fn from_probe(probe: &Address) -> (r: Self) {
        *probe
    }
}

impl TableKey for u16 {
    type Id = u16;

    type Probe = u16;

    open spec fn id(&self) -> u16 {
        *self
    }

    open spec fn probe_id(probe: &u16) -> u16 {
        *probe
    }

    fn is(&self, probe: &u16) -> (r: bool) {
        *self == *probe
    }

    fn from_probe(probe: &u16) -> (r: Self) {
        *probe
    }
}

impl TableKey for RouteKey {
    type Id = RouteKey;

    type Probe = RouteKey;

    open spec fn id(&self) -> RouteKey {
        *self
    }

    open spec fn probe_id(probe: &RouteKey) -> RouteKey {
        *probe
    }

    fn is(&self, probe: &RouteKey) -> (r: bool) {
        *self == *probe
    }

    fn from_probe(probe: &RouteKey) -> (r: Self) {
        *probe
    }
}

/// A keyed table.
pub struct Table<K, V> {
    entries: Vec<(K, V)>,
}

impl<K: TableKey, V> Table<K, V> {
    /// The keys, in order.
    pub closed spec fn keys(&self) -> Seq<K::Id> {
        Seq::new(self.entries@.len(), |i: int| self.entries@[i].0.id())
    }

    /// The values, in the order of the keys.
    pub closed spec fn values(&self) -> Seq<V> {
        Seq::new(self.entries@.len(), |i: int| self.entries@[i].1)
    }

    /// No key occurs twice.
    pub open spec fn wf(&self) -> bool {
        &&& self.keys().no_duplicates()
        &&& self.keys().len() == self.values().len()
    }

    /// The table as a map.
    pub open spec fn map(&self) -> Map<K::Id, V> {
        Map::new(
            |k: K::Id| self.keys().contains(k),
            |k: K::Id| self.values()[self.keys().index_of(k)],
        )
    }

    /// A table without entries.
    pub fn new() -> (r: Self)
        ensures
            r.wf(),
            r.keys() == Seq::<K::Id>::empty(),
            r.map() == Map::<K::Id, V>::empty(),
    {
        let r = Table { entries: Vec::new() };
        assert(r.keys() =~= Seq::<K::Id>::empty());
        assert(r.map() =~= Map::<K::Id, V>::empty());
        r
    }

    /// The number of entries.
    pub fn len(&self) -> (r: usize)
        ensures
            r == self.keys().len(),
            r == self.values().len(),
    {
        self.entries.len()
    }

    /// The position of a key.
    pub fn find(&self, probe: &K::Probe) -> (r: Option<usize>)
        requires
            self.wf(),
        ensures
            match r {
                Some(i) => {
                    &&& i < self.keys().len()
                    &&& self.keys()[i as int] == K::probe_id(probe)
                    &&& self.map().contains_key(K::probe_id(probe))
                    &&& self.map()[K::probe_id(probe)] == self.values()[i as int]
                },
                None => !self.keys().contains(K::probe_id(probe)) && !self.map().contains_key(
                    K::probe_id(probe),
                ),
            },
    {
        let mut i: usize = 0;
        while i < self.entries.len()
            invariant
                self.wf(),
                i <= self.entries.len(),
                forall|j: int| 0 <= j < i ==> self.keys()[j] != K::probe_id(probe),
            decreases self.entries.len() - i,
        {
            if self.entries[i].0.is(probe) {
                assert(self.keys()[i as int] == K::probe_id(probe));
                assert(self.keys().index_of(K::probe_id(probe)) == i);
                return Some(i);
            }
            assert(self.keys()[i as int] != K::probe_id(probe));
            i += 1;
        }
        None
    }

    /// The value at a position.
    pub fn at(&self, i: usize) -> (r: &V)
        requires
            i < self.keys().len(),
        ensures
            *r == self.values()[i as int],
    {
        &self.entries[i].1
    }

    /// The key at a position.
    pub fn key_at(&self, i: usize) -> (r: &K)
        requires
            i < self.keys().len(),
        ensures
            r.id() == self.keys()[i as int],
    {
        &self.entries[i].0
    }

    /// The value of a key.
    pub fn get(&self, probe: &K::Probe) -> (r: Option<&V>)
        requires
            self.wf(),
        ensures
            match r {
                Some(v) => self.map().contains_key(K::probe_id(probe)) && *v == self.map()[K::probe_id(
                    probe,
                )],
                None => !self.map().contains_key(K::probe_id(probe)),
            },
    {
        match self.find(probe) {
            Some(i) => Some(&self.entries[i].1),
            None => None,
        }
    }

    /// Whether a key has an entry.
    pub fn contains_key(&self, probe: &K::Probe) -> (r: bool)
        requires
            self.wf(),
        ensures
            r == self.map().contains_key(K::probe_id(probe)),
    {
        self.find(probe).is_some()
    }

    /// Sets the value of a key: in place where it has an entry, else at the end.
    pub fn insert(&mut self, probe: &K::Probe, value: V)
        requires
            old(self).wf(),
        ensures
            final(self).wf(),
            final(self).map() == old(self).map().insert(K::probe_id(probe), value),
            match position(old(self).keys(), K::probe_id(probe)) {
                Some(i) => final(self).keys() == old(self).keys() && final(self).values() == old(self).values().update(i, value),
                None => final(self).keys() == old(self).keys().push(K::probe_id(probe)) && final(self).values() == old(self).values().push(value),
            },
    {
        let ghost id = K::probe_id(probe);
        match self.find(probe) {
            Some(i) => {
                assert(old(self).keys().index_of(id) == i);
                self.entries[i].1 = value;
                assert(self.keys() =~= old(self).keys());
                assert(self.values() =~= old(self).values().update(i as int, value));
                assert(self.map() =~= old(self).map().insert(id, value)) by {
                    assert forall|k: K::Id| self.keys().contains(k) && k != id implies self.map()[k]
                        == old(self).map()[k] by {
                        assert(self.keys().index_of(k) != i);
                    }
                }
            },
            None => {
                let key = K::from_probe(probe);
                self.entries.push((key, value));
                assert(self.keys() =~= old(self).keys().push(id));
                assert(self.values() =~= old(self).values().push(value));
                proof {
                    lemma_push_map(*old(self), *self, id, value);
                }
            },
        }
    }

    /// The value at a position, to be changed in place.
    pub fn at_mut(&mut self, i: usize) -> (r: &mut V)
        requires
            old(self).wf(),
            i < old(self).keys().len(),
        ensures
            *r == old(self).values()[i as int],
            final(self).keys() == old(self).keys(),
            final(self).values() == old(self).values().update(i as int, *final(r)),
    {
        &mut self.entries[i].1
    }

    /// Puts a value at a position and hands out the one that was there.
    pub fn replace_at(&mut self, i: usize, value: V) -> (r: V)
        requires
            old(self).wf(),
            i < old(self).keys().len(),
        ensures
            final(self).wf(),
            r == old(self).values()[i as int],
            final(self).keys() == old(self).keys(),
            final(self).values() == old(self).values().update(i as int, value),
            final(self).map() == old(self).map().insert(old(self).keys()[i as int], value),
    {
        let ghost id = self.keys()[i as int];
        let mut given: V = value;
        std::mem::swap(&mut self.entries[i].1, &mut given);
        assert(self.keys() =~= old(self).keys());
        assert(self.values() =~= old(self).values().update(i as int, value));
        assert(self.keys().index_of(id) == i);
        assert(self.map() =~= old(self).map().insert(id, value)) by {
            assert forall|k: K::Id| self.keys().contains(k) && k != id implies self.map()[k] == old(
                self).map()[k] by {
                assert(self.keys().index_of(k) != i);
            }
        }
        given
    }

    /// Removes a key; whether it had an entry.
    pub fn remove(&mut self, probe: &K::Probe) -> (r: bool)
        requires
            old(self).wf(),
        ensures
            final(self).wf(),
            r == old(self).map().contains_key(K::probe_id(probe)),
            final(self).map() == old(self).map().remove(K::probe_id(probe)),
            !r ==> final(self).keys() == old(self).keys() && final(self).values() == old(self).values(),
            r ==> ({
                let i = old(self).keys().index_of(K::probe_id(probe));
                &&& 0 <= i < old(self).keys().len()
                &&& final(self).keys() == old(self).keys().remove(i)
                &&& final(self).values() == old(self).values().remove(i)
            }),
    {
        let ghost id = K::probe_id(probe);
        match self.find(probe) {
            Some(i) => {
                assert(old(self).keys().index_of(id) == i);
                let _gone = self.entries.remove(i);
                assert(self.keys() =~= old(self).keys().remove(i as int));
                assert(self.values() =~= old(self).values().remove(i as int));
                proof {
                    lemma_remove_map(*old(self), *self, i as int);
                }
                true
            },
            None => {
                assert(self.map() =~= old(self).map().remove(id));
                false
            },
        }
    }
}

/// The position of the first occurrence of a value.
pub open spec fn position<A>(s: Seq<A>, v: A) -> Option<int> {
    if s.contains(v) {
        Some(s.index_of(v))
    } else {
        None
    }
}

/// A table that differs from another in one value is the other's map with that value put in.
pub proof fn lemma_updated_map<K: TableKey, V>(a: Table<K, V>, b: Table<K, V>, i: int, v: V)
    requires
        a.wf(),
        0 <= i < a.keys().len(),
        b.keys() == a.keys(),
        b.values() == a.values().update(i, v),
    ensures
        b.wf(),
        b.map() == a.map().insert(a.keys()[i], v),
{
    let id = a.keys()[i];
    assert(a.keys().index_of(id) == i);
    assert forall|k: K::Id| b.keys().contains(k) && k != id implies b.map()[k] == a.map()[k] by {
        assert(b.keys().index_of(k) != i);
    }
    assert(b.map() =~= a.map().insert(id, v));
}

proof fn lemma_push_map<K: TableKey, V>(a: Table<K, V>, b: Table<K, V>, id: K::Id, value: V)
    requires
        a.wf(),
        !a.keys().contains(id),
        b.keys() == a.keys().push(id),
        b.values() == a.values().push(value),
    ensures
        b.wf(),
        b.map() == a.map().insert(id, value),
{
    let n = a.keys().len();
    assert(b.keys()[n as int] == id);
    assert forall|i: int, j: int| 0 <= i < b.keys().len() && 0 <= j < b.keys().len() && i
        != j implies b.keys()[i] != b.keys()[j] by {
        if i < n && j < n {
            assert(a.keys()[i] != a.keys()[j]);
        } else if i < n {
            assert(a.keys()[i] == b.keys()[i]);
        } else {
            assert(a.keys()[j] == b.keys()[j]);
        }
    }
    assert(b.keys().index_of(id) == n);
    assert forall|k: K::Id| b.keys().contains(k) <==> a.keys().contains(k) || k == id by {
        if a.keys().contains(k) {
            let i = a.keys().index_of(k);
            assert(b.keys()[i] == k);
        }
        if b.keys().contains(k) && k != id {
            let i = b.keys().index_of(k);
            assert(a.keys()[i] == k);
        }
    }
    assert forall|k: K::Id| a.keys().contains(k) implies b.map()[k] == a.map()[k] by {
        let i = a.keys().index_of(k);
        assert(b.keys()[i] == k);
        assert(b.keys().index_of(k) == i);
    }
    assert(b.map() =~= a.map().insert(id, value));
}

proof fn lemma_remove_map<K: TableKey, V>(a: Table<K, V>, b: Table<K, V>, i: int)
    requires
        a.wf(),
        0 <= i < a.keys().len(),
        b.keys() == a.keys().remove(i),
        b.values() == a.values().remove(i),
    ensures
        b.wf(),
        b.map() == a.map().remove(a.keys()[i]),
{
    let id = a.keys()[i];
    assert forall|p: int, q: int| 0 <= p < b.keys().len() && 0 <= q < b.keys().len() && p
        != q implies b.keys()[p] != b.keys()[q] by {
        let p2 = if p < i { p } else { p + 1 };
        let q2 = if q < i { q } else { q + 1 };
        assert(b.keys()[p] == a.keys()[p2]);
        assert(b.keys()[q] == a.keys()[q2]);
    }
    assert forall|k: K::Id| b.keys().contains(k) <==> a.keys().contains(k) && k != id by {
        if b.keys().contains(k) {
            let p = b.keys().index_of(k);
            let p2 = if p < i { p } else { p + 1 };
            assert(a.keys()[p2] == k);
        }
        if a.keys().contains(k) && k != id {
            let p = a.keys().index_of(k);
            let p2 = if p < i { p } else { p - 1 };
            assert(b.keys()[p2] == k);
        }
    }
    assert forall|k: K::Id| b.keys().contains(k) implies b.map()[k] == a.map()[k] by {
        let p = b.keys().index_of(k);
        let p2 = if p < i { p } else { p + 1 };
        assert(a.keys()[p2] == k);
        assert(a.keys().index_of(k) == p2);
    }
    assert(b.map() =~= a.map().remove(id));
}

} // verus!
