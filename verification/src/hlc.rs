//! A hybrid logical clock: timestamps that grow on every node and respect what was
//! received from other nodes.
use vstd::prelude::*;

verus! {

/// Milliseconds since the epoch, and a counter that orders events within one.
#[derive(Clone, Copy, Debug, PartialEq, Eq, PartialOrd, Ord, Structural)]
pub struct Timestamp {
    pub physical: u64,
    pub logical: u32,
}

/// Whether `a` comes before `b`.
pub open spec fn earlier(a: Timestamp, b: Timestamp) -> bool {
    a.physical < b.physical || (a.physical == b.physical && a.logical < b.logical)
}

/// The clock of one node. The caller reads the physical clock.
pub struct Hlc {
    state: Timestamp,
}

pub open spec fn larger(a: u64, b: u64) -> u64 {
    if a >= b {
        a
    } else {
        b
    }
}

/// The timestamp of a local event at physical time `pt`.
pub open spec fn ticked(s: Timestamp, pt: u64) -> Timestamp {
    if pt > s.physical {
        Timestamp { physical: pt, logical: 0 }
    } else {
        Timestamp { physical: s.physical, logical: (s.logical + 1) as u32 }
    }
}

/// The counter after a timestamp of another node was received at physical time `pt`.
pub open spec fn merged_logical(s: Timestamp, remote: Timestamp, pt: u64) -> int {
    let p = larger(larger(pt, s.physical), remote.physical);
    if p == s.physical && p == remote.physical {
        (if s.logical >= remote.logical {
            s.logical
        } else {
            remote.logical
        }) + 1
    } else if p == s.physical {
        s.logical + 1
    } else if p == remote.physical {
        remote.logical + 1
    } else {
        0
    }
}

/// The timestamp after one of another node was received at physical time `pt`.
pub open spec fn received(s: Timestamp, remote: Timestamp, pt: u64) -> Timestamp {
    Timestamp {
        physical: larger(larger(pt, s.physical), remote.physical),
        logical: merged_logical(s, remote, pt) as u32,
    }
}

impl View for Hlc {
    type V = Timestamp;

    closed spec fn view(&self) -> Timestamp {
        self.state
    }
}

impl Hlc {
    pub fn new() -> (r: Self)
        ensures
            r@ == (Timestamp { physical: 0, logical: 0 }),
    {
        Hlc { state: Timestamp { physical: 0, logical: 0 } }
    }

    /// The timestamp of a local event; `pt` is what the physical clock reads.
    pub fn now(&mut self, pt: u64) -> (r: Timestamp)
        requires
            pt > old(self)@.physical || old(self)@.logical < u32::MAX,
        ensures
            r == ticked(old(self)@, pt),
            final(self)@ == r,
            earlier(old(self)@, r),
    {
        if pt > self.state.physical {
            self.state = Timestamp { physical: pt, logical: 0 };
        } else {
            self.state = Timestamp {
                physical: self.state.physical,
                logical: self.state.logical + 1,
            };
        }
        self.state
    }

    /// Takes in a timestamp of another node; `pt` is what the physical clock reads.
    pub fn update(&mut self, remote: Timestamp, pt: u64) -> (r: Timestamp)
        requires
            merged_logical(old(self)@, remote, pt) <= u32::MAX,
        ensures
            r == received(old(self)@, remote, pt),
            final(self)@ == r,
            earlier(old(self)@, r),
            earlier(remote, r),
            r.physical >= pt,
    {
        let s = self.state;
        let mut p: u64 = pt;
        if s.physical > p {
            p = s.physical;
        }
        if remote.physical > p {
            p = remote.physical;
        }
        let logical: u32 = if p == s.physical && p == remote.physical {
            (if s.logical >= remote.logical {
                s.logical
            } else {
                remote.logical
            }) + 1
        } else if p == s.physical {
            s.logical + 1
        } else if p == remote.physical {
            remote.logical + 1
        } else {
            0
        };
        self.state = Timestamp { physical: p, logical };
        self.state
    }
}

impl Default for Hlc {
    fn default() -> (r: Self)
        ensures
            r@ == (Timestamp { physical: 0, logical: 0 }),
    {
        Hlc::new()
    }
}

/// The order of timestamps is transitive and total, so along any chain of local
/// events and messages each timestamp is later than all before it.
pub proof fn law_timestamps_ordered(a: Timestamp, b: Timestamp, c: Timestamp)
    ensures
        !earlier(a, a),
        earlier(a, b) && earlier(b, c) ==> earlier(a, c),
        earlier(a, b) || earlier(b, a) || a == b,
{
}

/// The timestamp of a local event is never behind the physical clock, reads a time that the clock
/// or the node had already, and begins to count anew where the clock is ahead.
pub proof fn law_events_follow_the_clock(s: Timestamp, pt: u64)
    requires
        pt > s.physical || s.logical < u32::MAX,
    ensures
        earlier(s, ticked(s, pt)),
        ticked(s, pt).physical >= pt,
        ticked(s, pt).physical == pt || ticked(s, pt).physical == s.physical,
        ticked(s, pt).logical > 0 ==> s == (Timestamp {
            physical: ticked(s, pt).physical,
            logical: (ticked(s, pt).logical - 1) as u32,
        }),
        pt > s.physical ==> ticked(s, pt) == (Timestamp { physical: pt, logical: 0 }),
{
}

/// A received timestamp puts the node behind both what it had and what it received, at the
/// greatest of the three times, and no further: but for a clock that is ahead, the timestamp just
/// before is one of the two.
pub proof fn law_receiving_goes_just_behind(s: Timestamp, remote: Timestamp, pt: u64)
    requires
        merged_logical(s, remote, pt) <= u32::MAX,
    ensures
        ({
            let r = received(s, remote, pt);
            &&& earlier(s, r) && earlier(remote, r)
            &&& r.physical >= pt
            &&& r.physical == pt || r.physical == s.physical || r.physical == remote.physical
            &&& r.logical > 0 ==> {
                let just = Timestamp { physical: r.physical, logical: (r.logical - 1) as u32 };
                just == s || just == remote
            }
            &&& r.logical == 0 ==> r.physical == pt && pt > s.physical && pt > remote.physical
        }),
{
}

} // verus!
