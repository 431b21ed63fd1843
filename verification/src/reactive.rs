//! Reactive sync: committed changes go to the subscribers of their key's prefix, and
//! into an ordered change log.
use crate::scan::{push_all, starts_with};
use crate::store;
use crate::store::Value;
use vstd::prelude::*;

verus! {

/// A committed change, and its place in the change log.
#[derive(Debug, PartialEq)]
pub struct CdcEvent {
    pub seq: u64,
    pub key: Vec<u8>,
    pub value: Value,
    pub ts: u64,
}

/// What an event says.
pub struct EventView {
    pub seq: u64,
    pub key: Seq<u8>,
    pub value: store::ValueView,
    pub ts: u64,
}

impl View for CdcEvent {
    type V = EventView;

    open spec fn view(&self) -> EventView {
        EventView { seq: self.seq, key: self.key@, value: self.value@, ts: self.ts }
    }
}

impl Clone for CdcEvent {
    fn clone(&self) -> (r: Self)
        ensures
            r@ == self@,
    {
        let mut k: Vec<u8> = Vec::new();
        push_all(&mut k, self.key.as_slice());
        proof {
            assert(k@ =~= self.key@);
        }
        CdcEvent { seq: self.seq, key: k, value: self.value.clone(), ts: self.ts }
    }
}

/// A registration: a prefix, and the subscriber that asked for it.
pub type Registration = (Seq<u8>, u64);

/// The hub's state.
pub struct HubView {
    pub enabled: bool,
    pub seq: u64,
    pub log: Seq<EventView>,
    pub regs: Seq<Registration>,
    pub next_id: u64,
}

pub open spec fn event_views(s: Seq<CdcEvent>) -> Seq<EventView> {
    Seq::new(s.len(), |i: int| s[i]@)
}

pub open spec fn reg_views(s: Seq<(Vec<u8>, u64)>) -> Seq<Registration> {
    Seq::new(s.len(), |i: int| (s[i].0@, s[i].1))
}

/// Whether some registration of `id` matches the key.
pub open spec fn wants(regs: Seq<Registration>, id: u64, key: Seq<u8>) -> bool {
    exists|i: int| 0 <= i < regs.len() && (#[trigger] regs[i]).1 == id && regs[i].0.is_prefix_of(key)
}

/// The number of registrations whose prefix matches the key.
pub open spec fn matching(regs: Seq<Registration>, key: Seq<u8>) -> nat {
    regs.filter(|r: Registration| r.0.is_prefix_of(key)).len()
}

/// Each subscriber with a matching prefix, exactly once, in the order of subscription.
pub open spec fn receivers_of(regs: Seq<Registration>, key: Seq<u8>, r: Seq<u64>) -> bool {
    &&& forall|i: int, j: int| 0 <= i < j < r.len() ==> #[trigger] r[i] < #[trigger] r[j]
    &&& forall|id: u64| #[trigger] r.contains(id) == wants(regs, id, key)
}

/// The hub. Whoever drives it owns the channels to the subscribers.
pub struct Reactive {
    enabled: bool,
    seq: u64,
    log: Vec<CdcEvent>,
    regs: Vec<(Vec<u8>, u64)>,
    next_id: u64,
}

impl View for Reactive {
    type V = HubView;

    closed spec fn view(&self) -> HubView {
        HubView {
            enabled: self.enabled,
            seq: self.seq,
            log: event_views(self.log@),
            regs: reg_views(self.regs@),
            next_id: self.next_id,
        }
    }
}

/// The log numbers its events from 1 on without a gap; registrations stand in the
/// order of their subscribers.
pub open spec fn hub_ok(h: HubView) -> bool {
    &&& h.log.len() == h.seq
    &&& forall|i: int| 0 <= i < h.log.len() ==> (#[trigger] h.log[i]).seq == i + 1
    &&& forall|i: int, j: int|
        0 <= i < j < h.regs.len() ==> (#[trigger] h.regs[i]).1 <= (#[trigger] h.regs[j]).1
    &&& forall|i: int| 0 <= i < h.regs.len() ==> (#[trigger] h.regs[i]).1 < h.next_id
}

impl Reactive {
    pub open spec fn wf(&self) -> bool {
        hub_ok(self@)
    }

    /// A hub that nobody listens to yet.
    pub fn attach() -> (r: Self)
        ensures
            r.wf(),
            r@ == (HubView {
                enabled: false,
                seq: 0,
                log: Seq::empty(),
                regs: Seq::empty(),
                next_id: 0,
            }),
    {
        let r = Reactive {
            enabled: false,
            seq: 0,
            log: Vec::new(),
            regs: Vec::new(),
            next_id: 0,
        };
        proof {
            assert(r@.log =~= Seq::<EventView>::empty());
            assert(r@.regs =~= Seq::<Registration>::empty());
        }
        r
    }

    /// Takes in a committed change: the event, and the subscribers it has to be sent
    /// to. Nothing happens while nobody listens.
    pub fn on_commit(&mut self, key: &Vec<u8>, value: &Value, ts: u64) -> (r: Option<
        (CdcEvent, Vec<u64>),
    >)
        requires
            old(self).wf(),
            old(self)@.seq < u64::MAX,
        ensures
            final(self).wf(),
            match r {
                None => !old(self)@.enabled && final(self)@ == old(self)@,
                Some(d) => {
                    let ev = EventView {
                        seq: (old(self)@.seq + 1) as u64,
                        key: key@,
                        value: value@,
                        ts,
                    };
                    &&& old(self)@.enabled
                    &&& d.0@ == ev
                    &&& receivers_of(old(self)@.regs, key@, d.1@)
                    &&& final(self)@ == (HubView {
                        seq: ev.seq,
                        log: old(self)@.log.push(ev),
                        ..old(self)@
                    })
                },
            },
    {
        if !self.enabled {
            return None;
        }
        self.seq = self.seq + 1;
        let mut k: Vec<u8> = Vec::new();
        push_all(&mut k, key.as_slice());
        proof {
            assert(k@ =~= key@);
        }
        let ev = CdcEvent { seq: self.seq, key: k, value: value.clone(), ts };
        self.log.push(ev.clone());
        proof {
            assert(self@.log =~= old(self)@.log.push(ev@));
        }
        let to = self.receivers(key);
        Some((ev, to))
    }

    fn receivers(&self, key: &Vec<u8>) -> (r: Vec<u64>)
        requires
            self.wf(),
        ensures
            receivers_of(self@.regs, key@, r@),
    {
        let mut out: Vec<u64> = Vec::new();
        let mut i: usize = 0;
        let ghost regs = self@.regs;
        while i < self.regs.len()
            invariant
                self.wf(),
                regs == self@.regs,
                regs.len() == self.regs@.len(),
                i <= regs.len(),
                forall|a: int, b: int| 0 <= a < b < out@.len() ==> #[trigger] out@[a] < #[trigger] out@[b],
                forall|a: int|
                    0 <= a < out@.len() ==> wants(regs.take(i as int), #[trigger] out@[a], key@),
                forall|a: int|
                    0 <= a < i && (#[trigger] regs[a]).0.is_prefix_of(key@) ==> out@.contains(
                        regs[a].1,
                    ),
            decreases regs.len() - i,
        {
            let e = &self.regs[i];
            proof {
                assert(regs[i as int] == (e.0@, e.1));
                assert forall|a: int| 0 <= a < out@.len() implies wants(
                    regs.take(i + 1),
                    #[trigger] out@[a],
                    key@,
                ) by {
                    let w = choose|w: int|
                        0 <= w < i && (#[trigger] regs.take(i as int)[w]).1 == out@[a]
                            && regs.take(i as int)[w].0.is_prefix_of(key@);
                    assert(regs.take(i + 1)[w] == regs.take(i as int)[w]);
                }
            }
            if starts_with(key.as_slice(), e.0.as_slice()) {
                let id: u64 = e.1;
                let known = out.len() > 0 && out[out.len() - 1] == id;
                if !known {
                    let ghost before = out@;
                    proof {
                        if before.len() > 0 {
                            let l = before[before.len() - 1];
                            assert(wants(regs.take(i as int), l, key@));
                            let w = choose|w: int|
                                0 <= w < i && (#[trigger] regs.take(i as int)[w]).1 == l
                                    && regs.take(i as int)[w].0.is_prefix_of(key@);
                            assert(regs[w].1 == l);
                            assert(regs[w].1 <= regs[i as int].1);
                        }
                    }
                    out.push(id);
                    proof {
                        assert(regs.take(i + 1)[i as int] == regs[i as int]);
                        assert forall|a: int|
                            0 <= a < i && (#[trigger] regs[a]).0.is_prefix_of(
                                key@,
                            ) implies out@.contains(regs[a].1) by {
                            assert(before.contains(regs[a].1));
                            let p = choose|p: int| 0 <= p < before.len() && before[p] == regs[a].1;
                            assert(out@[p] == regs[a].1);
                        }
                        assert(out@[before.len() as int] == id);
                    }
                } else {
                    proof {
                        assert(out@[out@.len() - 1] == id);
                    }
                }
            }
            i = i + 1;
        }
        proof {
            assert(regs.take(i as int) =~= regs);
            assert forall|id: u64| #[trigger] out@.contains(id) == wants(regs, id, key@) by {
                if out@.contains(id) {
                    let p = choose|p: int| 0 <= p < out@.len() && out@[p] == id;
                    assert(wants(regs.take(i as int), out@[p], key@));
                }
                if wants(regs, id, key@) {
                    let w = choose|w: int|
                        0 <= w < regs.len() && (#[trigger] regs[w]).1 == id
                            && regs[w].0.is_prefix_of(key@);
                    assert(out@.contains(regs[w].1));
                }
            }
        }
        out
    }

    /// A subscriber to all changes whose key begins with `prefix`.
    pub fn subscribe_prefix(&mut self, prefix: &[u8]) -> (r: u64)
        requires
            old(self).wf(),
            old(self)@.next_id < u64::MAX,
        ensures
            final(self).wf(),
            r == old(self)@.next_id,
            final(self)@ == (HubView {
                enabled: true,
                regs: old(self)@.regs.push((prefix@, r)),
                next_id: (r + 1) as u64,
                ..old(self)@
            }),
    {
        let id: u64 = self.next_id;
        let mut p: Vec<u8> = Vec::new();
        push_all(&mut p, prefix);
        proof {
            assert(p@ =~= prefix@);
        }
        self.enabled = true;
        self.regs.push((p, id));
        self.next_id = id + 1;
        proof {
            assert(self@.regs =~= old(self)@.regs.push((prefix@, id)));
        }
        id
    }

    /// One subscriber to several prefixes. A change that matches more than one of them
    /// still reaches it once.
    pub fn subscribe_prefixes(&mut self, prefixes: &Vec<Vec<u8>>) -> (r: u64)
        requires
            old(self).wf(),
            old(self)@.next_id < u64::MAX,
        ensures
            final(self).wf(),
            r == old(self)@.next_id,
            final(self)@ == (HubView {
                enabled: true,
                regs: old(self)@.regs + Seq::new(
                    prefixes@.len(),
                    |i: int| (prefixes@[i]@, r),
                ),
                next_id: (r + 1) as u64,
                ..old(self)@
            }),
    {
        let id: u64 = self.next_id;
        let ghost before = self@.regs;
        self.enabled = true;
        self.next_id = id + 1;
        let mut i: usize = 0;
        proof {
            assert(self@.regs =~= before + Seq::new(0, |k: int| (prefixes@[k]@, id)));
        }
        while i < prefixes.len()
            invariant
                i <= prefixes@.len(),
                self@.regs == before + Seq::new(i as nat, |k: int| (prefixes@[k]@, id)),
                self.enabled,
                self.next_id == id + 1,
                self.seq == old(self).seq,
                self.log == old(self).log,
            decreases prefixes@.len() - i,
        {
            let mut p: Vec<u8> = Vec::new();
            push_all(&mut p, prefixes[i].as_slice());
            proof {
                assert(p@ =~= prefixes@[i as int]@);
            }
            let ghost had = self@.regs;
            self.regs.push((p, id));
            i = i + 1;
            proof {
                assert(self@.regs =~= had.push((p@, id)));
                assert(self@.regs =~= before + Seq::new(
                    i as nat,
                    |k: int| (prefixes@[k]@, id),
                ));
            }
        }
        id
    }

    /// The change log behind `since_seq`. From here on the log is kept.
    pub fn cdc_since(&mut self, since_seq: u64) -> (r: Vec<CdcEvent>)
        requires
            old(self).wf(),
        ensures
            final(self).wf(),
            final(self)@ == (HubView { enabled: true, ..old(self)@ }),
            event_views(r@) == (if since_seq <= old(self)@.seq {
                old(self)@.log.skip(since_seq as int)
            } else {
                Seq::empty()
            }),
    {
        self.enabled = true;
        let mut out: Vec<CdcEvent> = Vec::new();
        let mut i: usize = 0;
        let ghost log = self@.log;
        while i < self.log.len()
            invariant
                self.wf(),
                log == self@.log,
                log.len() == self.log@.len(),
                self@ == (HubView { enabled: true, ..old(self)@ }),
                i <= log.len(),
                event_views(out@) == (if since_seq <= i {
                    log.subrange(since_seq as int, i as int)
                } else {
                    Seq::<EventView>::empty()
                }),
            decreases log.len() - i,
        {
            proof {
                assert(log[i as int].seq == i + 1);
            }
            if self.log[i].seq > since_seq {
                let ghost before = out@;
                let e = self.log[i].clone();
                out.push(e);
                proof {
                    assert(event_views(out@) =~= event_views(before).push(log[i as int]));
                    assert(event_views(out@) =~= log.subrange(since_seq as int, i + 1));
                }
            } else {
                proof {
                    if since_seq == i + 1 {
                        assert(event_views(out@) =~= log.subrange(since_seq as int, i + 1));
                    }
                }
            }
            i = i + 1;
        }
        proof {
            if since_seq <= log.len() {
                assert(log.subrange(since_seq as int, log.len() as int) =~= log.skip(
                    since_seq as int,
                ));
            }
        }
        out
    }

    /// The length of the change log. From here on the log is kept.
    pub fn cdc_len(&mut self) -> (r: usize)
        requires
            old(self).wf(),
        ensures
            final(self).wf(),
            final(self)@ == (HubView { enabled: true, ..old(self)@ }),
            r == old(self)@.log.len(),
    {
        self.enabled = true;
        self.log.len()
    }

    /// The number of registrations whose prefix matches the key.
    pub fn subscribers_matching(&self, key: &Vec<u8>) -> (r: usize)
        ensures
            r == matching(self@.regs, key@),
    {
        let mut n: usize = 0;
        let mut i: usize = 0;
        let ghost regs = self@.regs;
        let ghost p = |r: Registration| r.0.is_prefix_of(key@);
        proof {
            assert(regs.take(0).filter(p) =~= Seq::<Registration>::empty());
        }
        while i < self.regs.len()
            invariant
                i <= regs.len(),
                regs == reg_views(self.regs@),
                p == (|r: Registration| r.0.is_prefix_of(key@)),
                n == regs.take(i as int).filter(p).len(),
                n <= i,
            decreases regs.len() - i,
        {
            proof {
                assert(regs.take(i + 1) =~= regs.take(i as int).push(regs[i as int]));
                regs.take(i as int).lemma_filter_push(regs[i as int], p);
            }
            if starts_with(key.as_slice(), self.regs[i].0.as_slice()) {
                n = n + 1;
            }
            i = i + 1;
        }
        proof {
            assert(regs.take(i as int) =~= regs);
        }
        n
    }
}

/// A late joiner that has seen everything up to some event, and replays from there,
/// ends up with the whole log, each event once and in order.
pub proof fn law_replay_is_complete(h: HubView, seen: int)
    requires
        hub_ok(h),
        0 <= seen <= h.log.len(),
    ensures
        h.log.take(seen) + h.log.skip(seen) == h.log,
        forall|i: int| seen <= i < h.log.len() ==> (#[trigger] h.log[i]).seq > seen,
        forall|i: int| 0 <= i < seen ==> (#[trigger] h.log[i]).seq <= seen,
{
    assert(h.log.take(seen) + h.log.skip(seen) =~= h.log);
}

/// A change reaches every subscriber to a prefix that its key begins with, each once and in the order
/// of their numbers, and nobody else.
pub proof fn law_changes_reach_their_subscribers(
    regs: Seq<Registration>,
    prefix: Seq<u8>,
    rest: Seq<u8>,
    r: Seq<u64>,
    i: int,
    j: int,
)
    requires
        receivers_of(regs, prefix + rest, r),
    ensures
        0 <= i < regs.len() && regs[i].0 == prefix ==> r.contains(regs[i].1),
        0 <= j < r.len() ==> exists|x: int|
            0 <= x < regs.len() && (#[trigger] regs[x]).1 == r[j] && regs[x].0.len() <= (prefix
                + rest).len() && regs[x].0 == (prefix + rest).take(regs[x].0.len() as int),
        r.no_duplicates(),
        forall|a: int, b: int| 0 <= a < b < r.len() ==> #[trigger] r[a] < #[trigger] r[b],
{
    let key = prefix + rest;
    assert(prefix =~= key.subrange(0, prefix.len() as int));
    if 0 <= i < regs.len() && regs[i].0 == prefix {
        assert(regs[i].0.is_prefix_of(key));
        assert(wants(regs, regs[i].1, key));
    }
    if 0 <= j < r.len() {
        assert(r.contains(r[j]));
        assert(wants(regs, r[j], key));
        let x = choose|x: int|
            0 <= x < regs.len() && (#[trigger] regs[x]).1 == r[j] && regs[x].0.is_prefix_of(key);
        assert(regs[x].0 =~= key.take(regs[x].0.len() as int));
    }
}

/// One more registration counts for the keys that begin with its prefix, and for no others.
pub proof fn law_registrations_count_for_their_keys(
    regs: Seq<Registration>,
    prefix: Seq<u8>,
    id: u64,
    rest: Seq<u8>,
    key: Seq<u8>,
)
    ensures
        matching(Seq::empty(), key) == 0,
        matching(regs.push((prefix, id)), prefix + rest) == matching(regs, prefix + rest) + 1,
        (key.len() < prefix.len() || key.take(prefix.len() as int) != prefix) ==> matching(
            regs.push((prefix, id)),
            key,
        ) == matching(regs, key),
{
    reveal(Seq::filter);
    let all = regs.push((prefix, id));
    assert(all.drop_last() =~= regs);
    assert(prefix =~= (prefix + rest).subrange(0, prefix.len() as int));
    if prefix.is_prefix_of(key) {
        assert(key.take(prefix.len() as int) =~= prefix);
    }
}

} // verus!
