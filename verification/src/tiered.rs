//! Tiered memory: short-lived entries in a hot tier, and the pass that takes the
//! expired ones out so that they can be kept in the cold tier.
use crate::maps;
use crate::maps::KeyMap;
use crate::scan::push_all;
use vstd::prelude::*;

verus! {

/// An entry of the hot tier. Times and spans are in nanoseconds.
pub struct HotEntry {
    pub value: Vec<u8>,
    pub inserted: u128,
    pub ttl: u128,
}

/// Whether the entry is still readable at `now`.
pub open spec fn live(e: HotEntry, now: u128) -> bool {
    now <= e.inserted || now - e.inserted <= e.ttl
}

/// The hot tier. The caller reads the clock.
pub struct TieredMemory {
    hot: KeyMap<String, HotEntry>,
    default_ttl: u128,
}

/// The keys and values of the entries that are expired at `now`, in their order.
pub open spec fn expired_of(list: Seq<(String, HotEntry)>, now: u128) -> Seq<(Seq<char>, Seq<u8>)>
    decreases list.len(),
{
    if list.len() == 0 {
        Seq::empty()
    } else {
        let rest = expired_of(list.skip(1), now);
        if live(list[0].1, now) {
            rest
        } else {
            seq![(list[0].0@, list[0].1.value@)] + rest
        }
    }
}

/// The entries that are live at `now`, in their order.
pub open spec fn live_of(list: Seq<(String, HotEntry)>, now: u128) -> Seq<(String, HotEntry)> {
    list.filter(|e: (String, HotEntry)| live(e.1, now))
}

pub open spec fn pairs(v: Seq<(String, Vec<u8>)>) -> Seq<(Seq<char>, Seq<u8>)> {
    Seq::new(v.len(), |i: int| (v[i].0@, v[i].1@))
}

impl View for TieredMemory {
    type V = Map<Seq<char>, HotEntry>;

    closed spec fn view(&self) -> Map<Seq<char>, HotEntry> {
        self.hot@
    }
}

/// How a write changes the entries: the entry of a key that was there is replaced in its
/// place, and a new one comes last.
pub open spec fn put_in(
    before: Seq<(String, HotEntry)>,
    after: Seq<(String, HotEntry)>,
    key: Seq<char>,
    e: HotEntry,
) -> bool {
    exists|k: String|
        (#[trigger] k@) == key && after == (if maps::as_map(before).contains_key(key) {
            before.update(maps::place_of(before, key), (k, e))
        } else {
            before.push((k, e))
        })
}

impl TieredMemory {
    /// The type's invariant: no key has two entries, and the map is that of the entries.
    pub open spec fn wf(&self) -> bool {
        maps::distinct_keys(self.list()) && self@ == maps::as_map(self.list())
    }

    /// The entries in the order of their first insertion.
    pub closed spec fn list(&self) -> Seq<(String, HotEntry)> {
        self.hot.list()
    }

    /// The time to live of an entry that is written without one.
    pub closed spec fn default_span(&self) -> u128 {
        self.default_ttl
    }

    /// An empty hot tier.
    pub fn new(default_ttl_secs: u64) -> (r: Self)
        ensures
            r.wf(),
            r@ == Map::<Seq<char>, HotEntry>::empty(),
            r.list() == Seq::<(String, HotEntry)>::empty(),
            r.default_span() == default_ttl_secs * 1_000_000_000,
    {
        TieredMemory { hot: KeyMap::new(), default_ttl: default_ttl_secs as u128 * 1_000_000_000 }
    }

    /// Writes to the hot tier with the default time to live.
    pub fn put_hot(&mut self, key: &str, value: Vec<u8>, now: u128)
        requires
            old(self).wf(),
        ensures
            final(self).wf(),
            final(self).default_span() == old(self).default_span(),
            final(self)@ == old(self)@.insert(
                key@,
                (HotEntry { value, inserted: now, ttl: old(self).default_span() }),
            ),
            put_in(
                old(self).list(),
                final(self).list(),
                key@,
                (HotEntry { value, inserted: now, ttl: old(self).default_span() }),
            ),
            final(self).list().len() == old(self).list().len() + (if old(self)@.contains_key(key@) {
                0int
            } else {
                1
            }),
    {
        let ttl: u128 = self.default_ttl;
        self.put_hot_ttl(key, value, ttl, now);
    }

    /// Writes to the hot tier; value, age and time to live of an entry that was there are
    /// replaced.
    pub fn put_hot_ttl(&mut self, key: &str, value: Vec<u8>, ttl: u128, now: u128)
        requires
            old(self).wf(),
        ensures
            final(self).wf(),
            final(self).default_span() == old(self).default_span(),
            final(self)@ == old(self)@.insert(key@, (HotEntry { value, inserted: now, ttl })),
            put_in(
                old(self).list(),
                final(self).list(),
                key@,
                (HotEntry { value, inserted: now, ttl }),
            ),
            final(self).list().len() == old(self).list().len() + (if old(self)@.contains_key(key@) {
                0int
            } else {
                1
            }),
    {
        let name: String = key.to_owned();
        let ghost k = name;
        let ghost before = self.list();
        self.hot.insert(name, HotEntry { value, inserted: now, ttl });
        proof {
            if maps::as_map(before).contains_key(key@) {
                maps::lemma_key(before, key@);
            }
            assert(k@ == key@);
            assert(put_in(before, self.list(), key@, (HotEntry { value, inserted: now, ttl })));
        }
    }

    /// Reads from the hot tier; an expired entry is not there.
    pub fn get_hot(&self, key: &str, now: u128) -> (r: Option<Vec<u8>>)
        requires
            self.wf(),
        ensures
            match r {
                Some(v) => self@.contains_key(key@) && live(self@[key@], now) && v@
                    == self@[key@].value@,
                None => !(self@.contains_key(key@) && live(self@[key@], now)),
            },
    {
        match self.hot.get(&key.to_owned()) {
            None => None,
            Some(e) => {
                if is_live(e, now) {
                    let mut v: Vec<u8> = Vec::new();
                    push_all(&mut v, e.value.as_slice());
                    proof {
                        assert(v@ =~= e.value@);
                    }
                    Some(v)
                } else {
                    None
                }
            },
        }
    }

    /// Takes the expired entries out of the hot tier, so that the caller can keep
    /// them in the cold tier.
    pub fn drain_expired(&mut self, now: u128) -> (r: Vec<(String, Vec<u8>)>)
        requires
            old(self).wf(),
        ensures
            final(self).wf(),
            final(self).default_span() == old(self).default_span(),
            pairs(r@) == expired_of(old(self).list(), now),
            final(self).list() == live_of(old(self).list(), now),
            forall|k: Seq<char>|
                #![trigger final(self)@.dom().contains(k)]
                final(self)@.dom().contains(k) == (old(self)@.dom().contains(k) && live(
                    old(self)@[k],
                    now,
                )),
            forall|k: Seq<char>|
                #![trigger final(self)@[k]]
                final(self)@.dom().contains(k) ==> final(self)@[k] == old(self)@[k],
    {
        let ghost start = self.hot.list();
        let mut out: Vec<(String, Vec<u8>)> = Vec::new();
        let mut i: usize = 0;
        let ghost mut seen: int = 0;
        proof {
            assert(pairs(out@) =~= expired_of(start.take(0), now)) by {
                assert(start.take(0).len() == 0);
            }
            assert(live_of(start.take(0), now) =~= Seq::<(String, HotEntry)>::empty());
            assert(self.hot.list() =~= live_of(start.take(0), now) + start.skip(0));
        }
        while i < self.hot.len()
            invariant
                self.hot.wf(),
                0 <= seen <= start.len(),
                i == live_of(start.take(seen), now).len(),
                self.hot.list() == live_of(start.take(seen), now) + start.skip(seen),
                pairs(out@) == expired_of(start.take(seen), now),
                self.default_ttl == old(self).default_ttl,
            decreases self.hot.list().len() - i,
        {
            proof {
                assert(self.hot.list()[i as int] == start[seen]);
                assert(start.take(seen + 1) =~= start.take(seen).push(start[seen]));
                start.take(seen).lemma_filter_push(
                    start[seen],
                    |e: (String, HotEntry)| live(e.1, now),
                );
                lemma_expired_push(start.take(seen), start[seen], now);
            }
            let keep = is_live(&self.hot.at(i).1, now);
            if keep {
                proof {
                    assert(self.hot.list() =~= live_of(start.take(seen + 1), now) + start.skip(
                        seen + 1,
                    ));
                }
                i = i + 1;
            } else {
                let key = self.hot.at(i).0.clone();
                proof {
                    maps::lemma_entry(self.hot.list(), i as int);
                }
                let ghost before = self.hot.list();
                let ghost had = out@;
                if let Some((k, e)) = self.hot.remove(&key) {
                    out.push((k, e.value));
                    proof {
                        assert(pairs(out@) =~= pairs(had).push(
                            (start[seen].0@, start[seen].1.value@),
                        ));
                    }
                }
                proof {
                    assert(before.remove(i as int) =~= live_of(start.take(seen + 1), now)
                        + start.skip(seen + 1));
                }
            }
            proof {
                seen = seen + 1;
            }
        }
        proof {
            assert(start.take(seen).len() + start.skip(seen).len() == start.len());
            assert(start.skip(seen).len() == 0);
            assert(start.take(seen) =~= start);
            assert(self.hot.list() =~= live_of(start, now));
            lemma_live_map(start, now);
        }
        out
    }

    /// The number of entries, expired ones that were not drained among them.
    pub fn hot_len(&self) -> (r: usize)
        requires
            self.wf(),
        ensures
            r == self.list().len(),
            self@.dom().finite(),
            r == self@.dom().len(),
    {
        proof {
            maps::lemma_map_size(self.list());
        }
        self.hot.len()
    }
}

fn is_live(e: &HotEntry, now: u128) -> (r: bool)
    ensures
        r == live(*e, now),
{
    now <= e.inserted || now - e.inserted <= e.ttl
}

proof fn lemma_expired_push(s: Seq<(String, HotEntry)>, e: (String, HotEntry), now: u128)
    ensures
        expired_of(s.push(e), now) == (if live(e.1, now) {
            expired_of(s, now)
        } else {
            expired_of(s, now).push((e.0@, e.1.value@))
        }),
    decreases s.len(),
{
    if s.len() == 0 {
        assert(s.push(e).skip(1) =~= Seq::<(String, HotEntry)>::empty());
        assert(expired_of(s.push(e).skip(1), now) =~= Seq::<(Seq<char>, Seq<u8>)>::empty());
        assert(s.push(e)[0] == e);
        assert(expired_of(s, now) =~= Seq::<(Seq<char>, Seq<u8>)>::empty());
        assert(expired_of(s.push(e), now) =~= (if live(e.1, now) {
            expired_of(s, now)
        } else {
            expired_of(s, now).push((e.0@, e.1.value@))
        }));
    } else {
        assert(s.push(e).skip(1) =~= s.skip(1).push(e));
        lemma_expired_push(s.skip(1), e, now);
        assert(s.push(e)[0] == s[0]);
        assert(expired_of(s.push(e), now) =~= (if live(e.1, now) {
            expired_of(s, now)
        } else {
            expired_of(s, now).push((e.0@, e.1.value@))
        }));
    }
}

/// Dropping the expired entries of a list drops exactly their keys from the map.
proof fn lemma_live_map(list: Seq<(String, HotEntry)>, now: u128)
    requires
        maps::distinct_keys(list),
        maps::distinct_keys(live_of(list, now)),
    ensures
        forall|k: Seq<char>|
            #![trigger maps::as_map(live_of(list, now)).dom().contains(k)]
            maps::as_map(live_of(list, now)).dom().contains(k) == (maps::as_map(
                list,
            ).dom().contains(k) && live(maps::as_map(list)[k], now)),
        forall|k: Seq<char>|
            #![trigger maps::as_map(live_of(list, now))[k]]
            maps::as_map(live_of(list, now)).dom().contains(k) ==> maps::as_map(
                live_of(list, now),
            )[k] == maps::as_map(list)[k],
{
    broadcast use Seq::<_>::lemma_filter_contains_rev;

    let p = |e: (String, HotEntry)| live(e.1, now);
    let l = live_of(list, now);
    assert forall|k: Seq<char>|
        #![trigger maps::as_map(l).dom().contains(k)]
        #![trigger maps::as_map(l)[k]]
        maps::as_map(l).dom().contains(k) == (maps::as_map(list).dom().contains(k) && live(
            maps::as_map(list)[k],
            now,
        )) && (maps::as_map(l).dom().contains(k) ==> maps::as_map(l)[k] == maps::as_map(
            list,
        )[k]) by {
        if maps::as_map(l).contains_key(k) {
            maps::lemma_key(l, k);
            let q = maps::place_of(l, k);
            list.lemma_filter_contains_rev(p, l[q]);
            list.lemma_filter_pred(p, q);
            let j = choose|j: int| 0 <= j < list.len() && list[j] == l[q];
            maps::lemma_entry(list, j);
        }
        if maps::as_map(list).contains_key(k) && live(maps::as_map(list)[k], now) {
            maps::lemma_key(list, k);
            let q = maps::place_of(list, k);
            list.lemma_filter_contains(p, q);
            let j = choose|j: int| 0 <= j < l.len() && l[j] == list[q];
            maps::lemma_entry(l, j);
        }
    }
}

// ── laws ──────────────────────────────────────────────────────────────────

/// An entry is readable from when it was written until its time to live is over, and not a
/// nanosecond longer.
pub proof fn law_entries_live_for_their_time(e: HotEntry, now: u128)
    requires
        e.inserted <= now,
    ensures
        live(e, now) == (now <= e.inserted + e.ttl),
{
}

/// An entry that has expired stays expired.
pub proof fn law_expiry_is_final(e: HotEntry, then: u128, later: u128)
    requires
        !live(e, then),
        then <= later,
    ensures
        !live(e, later),
{
}

/// An entry that was written is handed out by a drain after its time, and stays through one
/// before; whatever was there under its key before is gone either way.
pub proof fn law_written_entry_is_drained_in_time(
    before: Seq<(String, HotEntry)>,
    after: Seq<(String, HotEntry)>,
    key: Seq<char>,
    e: HotEntry,
    now: u128,
)
    requires
        maps::distinct_keys(before),
        maps::distinct_keys(after),
        put_in(before, after, key, e),
    ensures
        maps::as_map(after).contains_key(key) && maps::as_map(after)[key] == e,
        live(e, now) ==> exists|i: int|
            0 <= i < live_of(after, now).len() && (#[trigger] live_of(after, now)[i]).0@ == key
                && live_of(after, now)[i].1 == e,
        !live(e, now) ==> expired_of(after, now).contains((key, e.value@)),
{
    let k = choose|k: String|
        (#[trigger] k@) == key && after == (if maps::as_map(before).contains_key(key) {
            before.update(maps::place_of(before, key), (k, e))
        } else {
            before.push((k, e))
        });
    let at = if maps::as_map(before).contains_key(key) {
        maps::lemma_key(before, key);
        maps::place_of(before, key)
    } else {
        before.len() as int
    };
    let p = |x: (String, HotEntry)| live(x.1, now);
    assert(after[at] == (k, e));
    maps::lemma_entry(after, at);
    law_draining_loses_nothing(after, now);
    let l = live_of(after, now);
    if live(e, now) {
        after.lemma_filter_contains(p, at);
        let i = choose|i: int| 0 <= i < l.len() && l[i] == after[at];
        assert(l[i].0@ == key);
    } else if l.contains(after[at]) {
        let i = choose|i: int| 0 <= i < l.len() && l[i] == after[at];
        after.lemma_filter_pred(p, i);
    }
}

/// The pass that takes expired entries out loses none: each stays or is handed out.
pub proof fn law_draining_loses_nothing(list: Seq<(String, HotEntry)>, now: u128)
    ensures
        live_of(list, now).len() + expired_of(list, now).len() == list.len(),
        forall|i: int|
            0 <= i < list.len() ==> live_of(list, now).contains(#[trigger] list[i])
                || expired_of(list, now).contains((list[i].0@, list[i].1.value@)),
    decreases list.len(),
{
    let p = |e: (String, HotEntry)| live(e.1, now);
    if list.len() == 0 {
        assert(live_of(list, now) =~= Seq::<(String, HotEntry)>::empty());
    } else {
        let rest = list.skip(1);
        law_draining_loses_nothing(rest, now);
        let head = seq![list[0]];
        assert(list =~= head + rest);
        Seq::filter_distributes_over_add(head, rest, p);
        assert(head.drop_last() =~= Seq::<(String, HotEntry)>::empty());
        reveal(Seq::filter);
        assert(head.drop_last().filter(p) =~= Seq::<(String, HotEntry)>::empty());
        let a = live_of(list, now);
        let b = expired_of(list, now);
        assert forall|i: int| 0 <= i < list.len() implies a.contains(#[trigger] list[i])
            || b.contains((list[i].0@, list[i].1.value@)) by {
            let kept = head.filter(p);
            let x = (list[i].0@, list[i].1.value@);
            if i == 0 {
                if p(list[0]) {
                    assert(kept =~= head);
                    assert(a[0] == list[0]);
                } else {
                    assert(b[0] == x);
                }
            } else {
                assert(rest[i - 1] == list[i]);
                if live_of(rest, now).contains(list[i]) {
                    let j = choose|j: int|
                        0 <= j < live_of(rest, now).len() && live_of(rest, now)[j] == list[i];
                    assert(a[kept.len() + j] == list[i]);
                } else {
                    let tail = expired_of(rest, now);
                    let j = choose|j: int| 0 <= j < tail.len() && tail[j] == x;
                    assert(b[b.len() - tail.len() + j] == x);
                }
            }
        }
    }
}

/// A pass hands out the entries whose time is over, in their order, and keeps the others in
/// theirs.
pub proof fn law_drained_are_those_whose_time_is_over(list: Seq<(String, HotEntry)>, now: u128)
    ensures
        expired_of(list, now) == Seq::new(
            list.filter(|e: (String, HotEntry)| now > e.1.inserted + e.1.ttl).len(),
            |i: int|
                (
                    list.filter(|e: (String, HotEntry)| now > e.1.inserted + e.1.ttl)[i].0@,
                    list.filter(|e: (String, HotEntry)| now > e.1.inserted + e.1.ttl)[i].1.value@,
                ),
        ),
        live_of(list, now) == list.filter(|e: (String, HotEntry)| now <= e.1.inserted + e.1.ttl),
    decreases list.len(),
{
    let p = |e: (String, HotEntry)| now > e.1.inserted + e.1.ttl;
    let q = |e: (String, HotEntry)| now <= e.1.inserted + e.1.ttl;
    let kept = |e: (String, HotEntry)| live(e.1, now);
    assert(q =~= kept);
    if list.len() == 0 {
        reveal(Seq::filter);
        assert(expired_of(list, now) =~= Seq::new(
            list.filter(p).len(),
            |i: int| (list.filter(p)[i].0@, list.filter(p)[i].1.value@),
        ));
    } else {
        let rest = list.skip(1);
        law_drained_are_those_whose_time_is_over(rest, now);
        let one = seq![list[0]];
        assert(list =~= one + rest);
        Seq::filter_distributes_over_add(one, rest, p);
        reveal(Seq::filter);
        assert(one.drop_last() =~= Seq::<(String, HotEntry)>::empty());
        assert(one.drop_last().filter(p) =~= Seq::<(String, HotEntry)>::empty());
        assert(one.last() == list[0]);
        let f = list.filter(p);
        let g = rest.filter(p);
        if p(list[0]) {
            assert(one.filter(p) =~= one);
            assert(f =~= one + g);
            assert(expired_of(list, now) =~= Seq::new(f.len(), |i: int| (f[i].0@, f[i].1.value@)));
        } else {
            assert(one.filter(p) =~= Seq::<(String, HotEntry)>::empty());
            assert(f =~= g);
            assert(expired_of(list, now) =~= Seq::new(f.len(), |i: int| (f[i].0@, f[i].1.value@)));
        }
    }
}

} // verus!
