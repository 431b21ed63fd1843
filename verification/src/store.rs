//! The key-value substrate as the layers above it see it.
use crate::maps;
use crate::maps::KeyMap;
use crate::scan::{push_all, starts_with};
use vstd::prelude::*;

verus! {

/// A stored value.
#[derive(Debug, PartialEq)]
pub enum Value {
    Int(i64),
    Bytes(Vec<u8>),
}

/// What a stored value is.
pub enum ValueView {
    Int(i64),
    Bytes(Seq<u8>),
}

impl View for Value {
    type V = ValueView;

    open spec fn view(&self) -> ValueView {
        match self {
            Value::Int(i) => ValueView::Int(*i),
            Value::Bytes(b) => ValueView::Bytes(b@),
        }
    }
}

impl Clone for Value {
    fn clone(&self) -> (r: Self)
        ensures
            r@ == self@,
    {
        match self {
            Value::Int(i) => Value::Int(*i),
            Value::Bytes(b) => {
                let mut v: Vec<u8> = Vec::new();
                push_all(&mut v, b.as_slice());
                proof {
                    assert(v@ =~= b@);
                }
                Value::Bytes(v)
            },
        }
    }
}

/// Keys and values, in the order in which the keys first came.
pub struct Store {
    map: KeyMap<Vec<u8>, Value>,
}

/// One row of the store.
pub type Row = (Seq<u8>, ValueView);

pub open spec fn row_of(e: (Vec<u8>, Value)) -> Row {
    (e.0@, e.1@)
}

pub open spec fn rows_of(list: Seq<(Vec<u8>, Value)>) -> Seq<Row> {
    Seq::new(list.len(), |i: int| row_of(list[i]))
}

/// The rows whose key begins with `prefix`, in their order.
pub open spec fn rows_under(rows: Seq<Row>, prefix: Seq<u8>) -> Seq<Row> {
    rows.filter(|r: Row| prefix.is_prefix_of(r.0))
}

impl View for Store {
    type V = Map<Seq<u8>, ValueView>;

    closed spec fn view(&self) -> Map<Seq<u8>, ValueView> {
        self.map@.map_values(|v: Value| v@)
    }
}

impl Store {
    pub closed spec fn wf(&self) -> bool {
        self.map.wf()
    }

    /// All rows, in their order.
    pub closed spec fn rows(&self) -> Seq<Row> {
        rows_of(self.map.list())
    }

    pub fn new() -> (r: Self)
        ensures
            r.wf(),
            r@ == Map::<Seq<u8>, ValueView>::empty(),
            r.rows() == Seq::<Row>::empty(),
    {
        let r = Store { map: KeyMap::new() };
        proof {
            assert(r@ =~= Map::<Seq<u8>, ValueView>::empty());
            assert(r.rows() =~= Seq::<Row>::empty());
        }
        r
    }

    /// The value at a key.
    pub fn get(&self, key: &Vec<u8>) -> (r: Option<Value>)
        requires
            self.wf(),
        ensures
            match r {
                Some(v) => self@.contains_key(key@) && self@[key@] == v@,
                None => !self@.contains_key(key@),
            },
    {
        match self.map.get(key) {
            Some(v) => Some(v.clone()),
            None => None,
        }
    }

    /// Writes a value. A key that was there keeps its place among the rows.
    pub fn put(&mut self, key: Vec<u8>, value: Value)
        requires
            old(self).wf(),
        ensures
            final(self).wf(),
            final(self)@ == old(self)@.insert(key@, value@),
            !old(self)@.contains_key(key@) ==> final(self).rows() == old(self).rows().push(
                (key@, value@),
            ),
            old(self)@.contains_key(key@) ==> exists|i: int|
                0 <= i < old(self).rows().len() && (#[trigger] old(self).rows()[i]).0 == key@
                    && final(self).rows() == old(self).rows().update(i, (key@, value@)),
    {
        self.map.insert(key, value);
        proof {
            assert(self@ =~= old(self)@.insert(key@, value@));
            if !old(self)@.contains_key(key@) {
                assert(self.rows() =~= old(self).rows().push((key@, value@)));
            } else {
                maps::lemma_key(old(self).map.list(), key@);
                let i = maps::place_of(old(self).map.list(), key@);
                assert(old(self).rows()[i].0 == key@);
                assert(self.rows() =~= old(self).rows().update(i, (key@, value@)));
            }
        }
    }

    /// Takes a key out; `true` where it was there. The other rows keep their order.
    pub fn delete(&mut self, key: &Vec<u8>) -> (r: bool)
        requires
            old(self).wf(),
        ensures
            final(self).wf(),
            final(self)@ == old(self)@.remove(key@),
            r == old(self)@.contains_key(key@),
            !r ==> final(self).rows() == old(self).rows(),
            r ==> exists|i: int|
                0 <= i < old(self).rows().len() && (#[trigger] old(self).rows()[i]).0 == key@
                    && final(self).rows() == old(self).rows().remove(i),
    {
        let gone = self.map.remove(key);
        proof {
            assert(self@ =~= old(self)@.remove(key@));
            if old(self)@.contains_key(key@) {
                maps::lemma_key(old(self).map.list(), key@);
                let i = maps::place_of(old(self).map.list(), key@);
                assert(old(self).rows()[i].0 == key@);
                assert(self.rows() =~= old(self).rows().remove(i));
            }
        }
        gone.is_some()
    }

    /// The rows whose key begins with `prefix`.
    pub fn scan_prefix(&self, prefix: &Vec<u8>) -> (r: Vec<(Vec<u8>, Value)>)
        requires
            self.wf(),
        ensures
            rows_of(r@) == rows_under(self.rows(), prefix@),
    {
        let mut out: Vec<(Vec<u8>, Value)> = Vec::new();
        let mut i: usize = 0;
        let ghost p = |r: Row| prefix@.is_prefix_of(r.0);
        let ghost all = self.rows();
        proof {
            assert(rows_of(out@) =~= Seq::<Row>::empty());
            assert(all.take(0).filter(p) =~= Seq::<Row>::empty());
        }
        while i < self.map.len()
            invariant
                self.wf(),
                all == self.rows(),
                p == (|r: Row| prefix@.is_prefix_of(r.0)),
                i <= all.len(),
                rows_of(out@) == all.take(i as int).filter(p),
            decreases all.len() - i,
        {
            let e = self.map.at(i);
            proof {
                assert(all[i as int] == row_of(*e));
                assert(all.take(i + 1) =~= all.take(i as int).push(all[i as int]));
                all.take(i as int).lemma_filter_push(all[i as int], p);
            }
            if starts_with(e.0.as_slice(), prefix.as_slice()) {
                let mut k: Vec<u8> = Vec::new();
                push_all(&mut k, e.0.as_slice());
                let ghost before = out@;
                proof {
                    assert(k@ =~= e.0@);
                }
                out.push((k, e.1.clone()));
                proof {
                    assert(rows_of(out@) =~= rows_of(before).push(row_of(*e)));
                }
            }
            i = i + 1;
        }
        proof {
            assert(all.take(i as int) =~= all);
        }
        out
    }
}

/// A key of the store's map is one of its rows.
pub proof fn lemma_key_is_row(s: Store, key: Seq<u8>)
    requires
        s.wf(),
        s@.contains_key(key),
    ensures
        exists|i: int| 0 <= i < s.rows().len() && s.rows()[i] == (key, s@[key]),
{
    maps::lemma_key(s.map.list(), key);
    let p = maps::place_of(s.map.list(), key);
    assert(s.rows()[p] == (key, s@[key]));
}

} // verus!
