//! A small map that keeps its entries in the order in which they came.
use crate::scan::same_bytes;
use vstd::prelude::*;

verus! {

/// A key that can be told apart by its view.
pub trait MapKey: View + Sized {
    fn same_key(&self, other: &Self) -> (r: bool)
        ensures
            r == (self@ == other@),
    ;
}

impl MapKey for String {
    fn same_key(&self, other: &Self) -> (r: bool) {
        *self == *other
    }
}

impl MapKey for u64 {
    fn same_key(&self, other: &Self) -> (r: bool) {
        *self == *other
    }
}

impl MapKey for Vec<u8> {
    fn same_key(&self, other: &Self) -> (r: bool) {
        same_bytes(self.as_slice(), other.as_slice())
    }
}

/// Entries in the order of their first insertion; no key occurs twice.
#[derive(Debug)]
pub struct KeyMap<K: MapKey, T> {
    entries: Vec<(K, T)>,
}

/// The place of the first entry with this key, or the number of entries.
pub open spec fn place_of<K: View, T>(entries: Seq<(K, T)>, key: K::V) -> int
    decreases entries.len(),
{
    if entries.len() == 0 {
        0
    } else if entries[0].0@ == key {
        0
    } else {
        1 + place_of(entries.skip(1), key)
    }
}

/// The map that a list of entries stands for.
pub open spec fn as_map<K: View, T>(entries: Seq<(K, T)>) -> Map<K::V, T> {
    Map::new(
        |k: K::V| place_of(entries, k) < entries.len(),
        |k: K::V| entries[place_of(entries, k)].1,
    )
}

pub open spec fn distinct_keys<K: View, T>(entries: Seq<(K, T)>) -> bool {
    forall|i: int, j: int|
        0 <= i < j < entries.len() ==> #[trigger] entries[i].0@ != #[trigger] entries[j].0@
}

proof fn lemma_place<K: View, T>(entries: Seq<(K, T)>, key: K::V)
    ensures
        0 <= place_of(entries, key) <= entries.len(),
        place_of(entries, key) < entries.len() ==> entries[place_of(entries, key)].0@ == key,
        forall|i: int| 0 <= i < place_of(entries, key) ==> #[trigger] entries[i].0@ != key,
    decreases entries.len(),
{
    if entries.len() > 0 && entries[0].0@ != key {
        lemma_place(entries.skip(1), key);
        let p = place_of(entries.skip(1), key);
        assert forall|i: int| 0 <= i < 1 + p implies #[trigger] entries[i].0@ != key by {
            if i > 0 {
                assert(entries.skip(1)[i - 1] == entries[i]);
            }
        }
    }
}

proof fn lemma_place_is<K: View, T>(entries: Seq<(K, T)>, key: K::V, at: int)
    requires
        0 <= at <= entries.len(),
        at < entries.len() ==> entries[at].0@ == key,
        forall|i: int| 0 <= i < at ==> #[trigger] entries[i].0@ != key,
    ensures
        place_of(entries, key) == at,
{
    lemma_place(entries, key);
    let p = place_of(entries, key);
    if p < at {
        assert(entries[p].0@ != key);
    } else if at < p {
        assert(entries[at].0@ != key);
    }
}

/// With distinct keys, an entry is where its key is.
pub proof fn lemma_entry<K: View, T>(entries: Seq<(K, T)>, i: int)
    requires
        distinct_keys(entries),
        0 <= i < entries.len(),
    ensures
        place_of(entries, entries[i].0@) == i,
        as_map(entries).contains_key(entries[i].0@),
        as_map(entries)[entries[i].0@] == entries[i].1,
{
    lemma_place_is(entries, entries[i].0@, i);
}

/// A key of the map is the key of some entry.
pub proof fn lemma_key<K: View, T>(entries: Seq<(K, T)>, key: K::V)
    requires
        as_map(entries).contains_key(key),
    ensures
        0 <= place_of(entries, key) < entries.len(),
        entries[place_of(entries, key)].0@ == key,
        as_map(entries)[key] == entries[place_of(entries, key)].1,
{
    lemma_place(entries, key);
}

/// With distinct keys, the map has as many keys as there are entries.
pub proof fn lemma_map_size<K: View, T>(entries: Seq<(K, T)>)
    requires
        distinct_keys(entries),
    ensures
        as_map(entries).dom().finite(),
        as_map(entries).dom().len() == entries.len(),
    decreases entries.len(),
{
    broadcast use vstd::set::group_set_axioms;

    let d = as_map(entries).dom();
    if entries.len() == 0 {
        assert(d =~= Set::<K::V>::empty());
    } else {
        let front = entries.drop_last();
        let n = entries.len() - 1;
        let key = entries.last().0@;
        assert(distinct_keys(front)) by {
            assert forall|i: int, j: int| 0 <= i < j < front.len() implies #[trigger] front[i].0@
                != #[trigger] front[j].0@ by {
                assert(entries[i].0@ != entries[j].0@);
            }
        }
        lemma_map_size(front);
        let f = as_map(front).dom();
        assert(!f.contains(key)) by {
            lemma_place(front, key);
            let p = place_of(front, key);
            if p < front.len() {
                assert(entries[p].0@ != entries[n].0@);
            }
        }
        assert forall|q: K::V| #[trigger] d.contains(q) == f.insert(key).contains(q) by {
            lemma_place(front, q);
            lemma_place(entries, q);
            let p = place_of(front, q);
            if p < front.len() {
                assert(entries[p] == front[p]);
                lemma_entry(entries, p);
            }
            let r = place_of(entries, q);
            if r < n {
                assert(front[r] == entries[r]);
                lemma_entry(front, r);
            }
            if q == key {
                lemma_entry(entries, n);
            }
        }
        assert(d =~= f.insert(key));
    }
}

impl<K: MapKey, T> View for KeyMap<K, T> {
    type V = Map<K::V, T>;

    closed spec fn view(&self) -> Map<K::V, T> {
        as_map(self.entries@)
    }
}

impl<K: MapKey, T> KeyMap<K, T> {
    /// The entries in their order.
    pub closed spec fn list(&self) -> Seq<(K, T)> {
        self.entries@
    }

    /// No key occurs twice, and the map is that of the entries.
    pub open spec fn wf(&self) -> bool {
        distinct_keys(self.list()) && self@ == as_map(self.list())
    }

    pub fn new() -> (r: Self)
        ensures
            r.wf(),
            r@ == Map::<K::V, T>::empty(),
            r.list() == Seq::<(K, T)>::empty(),
    {
        let r = KeyMap { entries: Vec::new() };
        proof {
            assert(r@ =~= Map::<K::V, T>::empty());
        }
        r
    }

    pub fn len(&self) -> (r: usize)
        ensures
            r == self.list().len(),
    {
        self.entries.len()
    }

    /// The entry at a place.
    pub fn at(&self, i: usize) -> (r: &(K, T))
        requires
            i < self.list().len(),
        ensures
            *r == self.list()[i as int],
    {
        &self.entries[i]
    }

    fn place(&self, key: &K) -> (r: usize)
        ensures
            r == place_of(self.list(), key@),
            r <= self.list().len(),
    {
        let mut i: usize = 0;
        while i < self.entries.len()
            invariant
                i <= self.entries@.len(),
                forall|k: int| 0 <= k < i ==> #[trigger] self.entries@[k].0@ != key@,
            decreases self.entries@.len() - i,
        {
            if self.entries[i].0.same_key(key) {
                proof {
                    lemma_place_is(self.entries@, key@, i as int);
                }
                return i;
            }
            i = i + 1;
        }
        proof {
            lemma_place_is(self.entries@, key@, i as int);
        }
        i
    }

    pub fn get(&self, key: &K) -> (r: Option<&T>)
        requires
            self.wf(),
        ensures
            match r {
                Some(v) => self@.contains_key(key@) && self@[key@] == *v,
                None => !self@.contains_key(key@),
            },
    {
        let p = self.place(key);
        if p < self.entries.len() {
            Some(&self.entries[p].1)
        } else {
            None
        }
    }

    /// Sets the value of a key; an entry that was there keeps its place.
    pub fn insert(&mut self, key: K, value: T)
        requires
            old(self).wf(),
        ensures
            final(self).wf(),
            final(self)@ == old(self)@.insert(key@, value),
            old(self)@.contains_key(key@) ==> final(self).list() == old(self).list().update(
                place_of(old(self).list(), key@),
                (key, value),
            ),
            !old(self)@.contains_key(key@) ==> final(self).list() == old(self).list().push(
                (key, value),
            ),
    {
        let p = self.place(&key);
        let ghost before = self.entries@;
        let ghost k = key@;
        proof {
            lemma_place(before, k);
        }
        if p < self.entries.len() {
            self.entries.set(p, (key, value));
        } else {
            self.entries.push((key, value));
        }
        proof {
            let after = self.entries@;
            assert(distinct_keys(after)) by {
                assert forall|i: int, j: int| 0 <= i < j < after.len() implies #[trigger] after[i].0@
                    != #[trigger] after[j].0@ by {
                    if j < before.len() {
                        assert(before[i].0@ != before[j].0@);
                        assert(after[j].0@ == before[j].0@);
                        assert(after[i].0@ == before[i].0@);
                    } else {
                        assert(before[i].0@ != k);
                    }
                }
            }
            assert forall|q: K::V|
                #![trigger as_map(after).dom().contains(q)]
                #![trigger as_map(after)[q]]
                as_map(after).contains_key(q) == as_map(before).insert(k, value).contains_key(q) && (
                as_map(after).contains_key(q) ==> as_map(after)[q] == as_map(before).insert(
                    k,
                    value,
                )[q]) by {
                lemma_place(before, q);
                lemma_place(after, q);
                let b = place_of(before, q);
                if q == k {
                    assert(after[p as int].0@ == k);
                    lemma_entry(after, p as int);
                } else if b < before.len() {
                    assert(after[b] == before[b]);
                    lemma_entry(after, b);
                } else {
                    let a = place_of(after, q);
                    if a < after.len() {
                        if a < before.len() {
                            assert(before[a].0@ == after[a].0@);
                        }
                    }
                }
            }
            assert(as_map(after) =~= as_map(before).insert(k, value));
        }
    }

    /// Takes a key out of the map; the other entries keep their order.
    pub fn remove(&mut self, key: &K) -> (r: Option<(K, T)>)
        requires
            old(self).wf(),
        ensures
            final(self).wf(),
            final(self)@ == old(self)@.remove(key@),
            match r {
                Some(e) => old(self)@.contains_key(key@) && e.0@ == key@ && e.1 == old(
                    self,
                )@[key@],
                None => !old(self)@.contains_key(key@),
            },
            final(self).list() == (if old(self)@.contains_key(key@) {
                old(self).list().remove(place_of(old(self).list(), key@))
            } else {
                old(self).list()
            }),
    {
        let p = self.place(key);
        let ghost before = self.entries@;
        let ghost k = key@;
        proof {
            lemma_place(before, k);
        }
        if p < self.entries.len() {
            let e = self.entries.remove(p);
            proof {
                let after = self.entries@;
                assert(after =~= before.remove(p as int));
                assert(distinct_keys(after)) by {
                    assert forall|i: int, j: int| 0 <= i < j < after.len() implies #[trigger] after[i].0@
                        != #[trigger] after[j].0@ by {
                        let bi = if i < p { i } else { i + 1 };
                        let bj = if j < p { j } else { j + 1 };
                        assert(after[i] == before[bi]);
                        assert(after[j] == before[bj]);
                        assert(before[bi].0@ != before[bj].0@);
                    }
                }
                assert forall|q: K::V|
                    #![trigger as_map(after).dom().contains(q)]
                    #![trigger as_map(after)[q]]
                    as_map(after).contains_key(q) == as_map(before).remove(k).contains_key(q) && (
                    as_map(after).contains_key(q) ==> as_map(after)[q] == as_map(before).remove(
                        k,
                    )[q]) by {
                    lemma_place(before, q);
                    lemma_place(after, q);
                    let b = place_of(before, q);
                    let a = place_of(after, q);
                    if q == k {
                        if a < after.len() {
                            let ba = if a < p { a } else { a + 1 };
                            assert(after[a] == before[ba]);
                            lemma_entry(before, ba);
                            lemma_entry(before, p as int);
                        }
                    } else if b < before.len() {
                        let nb = if b < p { b } else { b - 1 };
                        assert(b != p);
                        assert(after[nb] == before[b]);
                        lemma_entry(after, nb);
                    } else if a < after.len() {
                        let ba = if a < p { a } else { a + 1 };
                        assert(after[a] == before[ba]);
                        assert(before[ba].0@ != q);
                    }
                }
                assert(as_map(after) =~= as_map(before).remove(k));
            }
            Some(e)
        } else {
            proof {
                assert(self@.remove(k) =~= self@);
            }
            None
        }
    }
}

impl KeyMap<String, u64> {
    /// A copy of the map, entry by entry.
    pub fn copy(&self) -> (r: Self)
        ensures
            r.list() == self.list(),
            r@ == self@,
    {
        let mut out: Vec<(String, u64)> = Vec::new();
        let mut i: usize = 0;
        while i < self.entries.len()
            invariant
                i <= self.entries@.len(),
                out@ == self.entries@.take(i as int),
            decreases self.entries@.len() - i,
        {
            let e = &self.entries[i];
            out.push((e.0.clone(), e.1));
            i = i + 1;
            proof {
                assert(out@ =~= self.entries@.take(i as int));
            }
        }
        proof {
            assert(self.entries@.take(i as int) =~= self.entries@);
        }
        KeyMap { entries: out }
    }
}

} // verus!
