//! Replies as a load generator reads them: drained, as an array of parts, as
//! search hits, or as one text.
use crate::reply;
use crate::reply::text_of;
use crate::scan;
use crate::scan::{copy_range, find_byte, line_of};
use crate::text;
use crate::text::{parse_header, parse_header_signed};
use vstd::prelude::*;

verus! {

/// Why a reply does not count as a success.
#[derive(Clone, Copy, Debug, PartialEq, Eq, Structural)]
pub enum ReplyFault {
    /// The server answered with an error.
    ServerError,
    /// The length of a bulk string cannot be read.
    BadBulkHeader,
    /// The length of an array cannot be read.
    BadArrayHeader,
    /// The reply is of no known kind.
    UnknownKind,
}

/// What draining one reply comes to.
pub enum DrainScan {
    Pending,
    Failed(ReplyFault),
    Done(int),
}

/// Draining the reply at `pos`: an error reply is a failure, also inside an array.
pub open spec fn drained(buf: Seq<u8>, pos: int) -> DrainScan
    decreases buf.len() - pos, 0int,
    when 0 <= pos <= buf.len()
{
    let nl = scan::find(buf, 10, pos);
    proof {
        scan::lemma_find(buf, 10, pos);
    }
    if nl >= buf.len() {
        DrainScan::Pending
    } else {
        let line = scan::strip_eol(buf.subrange(pos, nl + 1));
        let at = nl + 1;
        if line.len() == 0 {
            DrainScan::Failed(ReplyFault::UnknownKind)
        } else if line[0] == 45 {
            DrainScan::Failed(ReplyFault::ServerError)
        } else if line[0] == 43 || line[0] == 58 {
            DrainScan::Done(at)
        } else if line[0] == 36 {
            match text::header_signed(line.skip(1)) {
                None => DrainScan::Failed(ReplyFault::BadBulkHeader),
                Some(n) => if n < 0 {
                    DrainScan::Done(at)
                } else if at + n + 2 > buf.len() {
                    DrainScan::Pending
                } else {
                    DrainScan::Done(at + n + 2)
                },
            }
        } else if line[0] == 42 {
            match text::header_signed(line.skip(1)) {
                None => DrainScan::Failed(ReplyFault::BadArrayHeader),
                Some(n) => drained_all(buf, at, reply::at_least_zero(n)),
            }
        } else {
            DrainScan::Failed(ReplyFault::UnknownKind)
        }
    }
}

/// Draining `count` replies from `pos` on.
pub open spec fn drained_all(buf: Seq<u8>, pos: int, count: nat) -> DrainScan
    decreases buf.len() - pos, count + 1,
    when 0 <= pos <= buf.len()
{
    if count == 0 {
        DrainScan::Done(pos)
    } else {
        match drained(buf, pos) {
            DrainScan::Done(mid) => if pos <= mid <= buf.len() {
                drained_all(buf, mid, (count - 1) as nat)
            } else {
                DrainScan::Pending
            },
            other => other,
        }
    }
}

proof fn lemma_drained_end(buf: Seq<u8>, pos: int)
    requires
        0 <= pos <= buf.len(),
    ensures
        drained(buf, pos) matches DrainScan::Done(end) ==> pos < end <= buf.len(),
    decreases buf.len() - pos, 0int,
{
    scan::lemma_find(buf, 10, pos);
    let nl = scan::find(buf, 10, pos);
    if nl < buf.len() {
        let line = scan::strip_eol(buf.subrange(pos, nl + 1));
        if line.len() > 0 && line[0] == 42 {
            if let Some(n) = text::header_signed(line.skip(1)) {
                lemma_drained_all_end(buf, nl + 1, reply::at_least_zero(n));
            }
        }
    }
}

proof fn lemma_drained_all_end(buf: Seq<u8>, pos: int, count: nat)
    requires
        0 <= pos <= buf.len(),
    ensures
        drained_all(buf, pos, count) matches DrainScan::Done(end) ==> pos <= end <= buf.len(),
    decreases buf.len() - pos, count + 1,
{
    if count > 0 {
        lemma_drained_end(buf, pos);
        if let DrainScan::Done(mid) = drained(buf, pos) {
            lemma_drained_all_end(buf, mid, (count - 1) as nat);
        }
    }
}

/// What `drain_reply` found.
#[derive(Clone, Copy, Debug, PartialEq, Eq, Structural)]
pub enum DrainStep {
    Pending,
    Failed(ReplyFault),
    Done(usize),
}

pub open spec fn drain_view(s: DrainStep) -> DrainScan {
    match s {
        DrainStep::Pending => DrainScan::Pending,
        DrainStep::Failed(f) => DrainScan::Failed(f),
        DrainStep::Done(n) => DrainScan::Done(n as int),
    }
}

/// Passes over one reply at `buf[pos..]`.
pub fn drain_reply(buf: &[u8], pos: usize) -> (r: DrainStep)
    requires
        pos <= buf@.len(),
    ensures
        drain_view(r) == drained(buf@, pos as int),
        r matches DrainStep::Done(n) ==> pos < n <= buf@.len(),
    decreases buf@.len() - pos,
{
    let nl = find_byte(buf, 10, pos);
    if nl >= buf.len() {
        return DrainStep::Pending;
    }
    proof {
        lemma_drained_end(buf@, pos as int);
    }
    let at: usize = nl + 1;
    let line = line_of(buf, pos, at);
    if line.len() == 0 {
        return DrainStep::Failed(ReplyFault::UnknownKind);
    }
    let kind: u8 = line[0];
    if kind == 45 {
        return DrainStep::Failed(ReplyFault::ServerError);
    }
    if kind == 43 || kind == 58 {
        return DrainStep::Done(at);
    }
    if kind != 36 && kind != 42 {
        return DrainStep::Failed(ReplyFault::UnknownKind);
    }
    let rest = copy_range(line.as_slice(), 1, line.len());
    proof {
        assert(rest@ =~= line@.skip(1));
    }
    let n: i64 = match parse_header_signed(rest) {
        None => {
            return DrainStep::Failed(
                if kind == 36 {
                    ReplyFault::BadBulkHeader
                } else {
                    ReplyFault::BadArrayHeader
                },
            );
        },
        Some(n) => n,
    };
    if kind == 36 {
        if n < 0 {
            return DrainStep::Done(at);
        }
        let room: usize = buf.len() - at;
        if room < 2 || n as u64 > (room - 2) as u64 {
            return DrainStep::Pending;
        }
        return DrainStep::Done(at + n as usize + 2);
    }
    let mut left: u64 = if n < 0 { 0 } else { n as u64 };
    let mut here: usize = at;
    while left > 0
        invariant
            pos < at <= here <= buf@.len(),
            drained(buf@, pos as int) == drained_all(buf@, here as int, left as nat),
        decreases left,
    {
        match drain_reply(buf, here) {
            DrainStep::Done(end) => {
                here = end;
                left = left - 1;
            },
            other => {
                return other;
            },
        }
    }
    DrainStep::Done(here)
}

/// What reading an array of parts comes to.
pub enum PartsScan {
    Pending,
    /// The stream does not hold an array of parts here.
    Nothing,
    Done(Seq<Seq<u8>>, int),
}

pub open spec fn parts_before(head: Seq<Seq<u8>>, s: PartsScan) -> PartsScan {
    match s {
        PartsScan::Done(v, end) => PartsScan::Done(head + v, end),
        other => other,
    }
}

/// `count` parts from `pos` on: bulk strings by their bytes, numbers, simple
/// strings and errors by the rest of their line.
pub open spec fn parts_from(buf: Seq<u8>, pos: int, count: nat, closed: bool) -> PartsScan
    decreases count,
{
    if count == 0 {
        PartsScan::Done(Seq::empty(), pos)
    } else {
        let nl = scan::find(buf, 10, pos);
        if nl >= buf.len() && !closed {
            PartsScan::Pending
        } else {
            let at = if nl < buf.len() { nl + 1 } else { buf.len() as int };
            let line = scan::strip_eol(buf.subrange(pos, at));
            if line.len() == 0 {
                PartsScan::Nothing
            } else if line[0] == 36 {
                match text::header_number(line.skip(1), usize::MAX as nat) {
                    None => PartsScan::Nothing,
                    Some(len) => if at + len + 2 > buf.len() {
                        if closed {
                            PartsScan::Nothing
                        } else {
                            PartsScan::Pending
                        }
                    } else {
                        parts_before(
                            seq![buf.subrange(at, at + len)],
                            parts_from(buf, at + len + 2, (count - 1) as nat, closed),
                        )
                    },
                }
            } else if line[0] == 58 || line[0] == 43 || line[0] == 45 {
                parts_before(
                    seq![line.skip(1)],
                    parts_from(buf, at, (count - 1) as nat, closed),
                )
            } else {
                PartsScan::Nothing
            }
        }
    }
}

/// The array of parts at the front of a stream that has delivered `buf`.
pub open spec fn array_parts(buf: Seq<u8>, closed: bool) -> PartsScan {
    let nl = scan::find(buf, 10, 0);
    if nl >= buf.len() && !closed {
        PartsScan::Pending
    } else {
        let at = if nl < buf.len() { nl + 1 } else { buf.len() as int };
        let line = scan::strip_eol(buf.subrange(0, at));
        if line.len() == 0 || line[0] != 42 {
            PartsScan::Nothing
        } else {
            match text::header_number(line.skip(1), usize::MAX as nat) {
                None => PartsScan::Nothing,
                Some(n) => parts_from(buf, at, n, closed),
            }
        }
    }
}

/// What `read_resp_array` found.
#[derive(Debug, PartialEq)]
pub enum PartsStep {
    Pending,
    Nothing,
    Done(Vec<Vec<u8>>, usize),
}

/// Reads an array of parts from the front of a stream.
pub fn read_resp_array(buf: &[u8], closed: bool) -> (r: PartsStep)
    ensures
        match array_parts(buf@, closed) {
            PartsScan::Pending => r is Pending,
            PartsScan::Nothing => r is Nothing,
            PartsScan::Done(v, end) => r matches PartsStep::Done(x, n) && scan::parts(x@) == v && n
                == end,
        },
{
    let nl = find_byte(buf, 10, 0);
    if nl >= buf.len() && !closed {
        return PartsStep::Pending;
    }
    let at: usize = if nl < buf.len() { nl + 1 } else { buf.len() };
    let line = line_of(buf, 0, at);
    if line.len() == 0 || line[0] != 42 {
        return PartsStep::Nothing;
    }
    let rest = copy_range(line.as_slice(), 1, line.len());
    proof {
        assert(rest@ =~= line@.skip(1));
    }
    let mut left: u64 = match parse_header(rest, usize::MAX as u64) {
        None => {
            return PartsStep::Nothing;
        },
        Some(n) => n,
    };
    let mut pos: usize = at;
    let mut out: Vec<Vec<u8>> = Vec::new();
    proof {
        assert(scan::parts(out@) =~= Seq::<Seq<u8>>::empty());
        if let PartsScan::Done(v, end) = array_parts(buf@, closed) {
            assert(Seq::<Seq<u8>>::empty() + v =~= v);
        }
    }
    while left > 0
        invariant
            pos <= buf@.len(),
            array_parts(buf@, closed) == parts_before(
                scan::parts(out@),
                parts_from(buf@, pos as int, left as nat, closed),
            ),
        decreases left,
    {
        let nl = find_byte(buf, 10, pos);
        if nl >= buf.len() && !closed {
            return PartsStep::Pending;
        }
        let at: usize = if nl < buf.len() { nl + 1 } else { buf.len() };
        let line = line_of(buf, pos, at);
        if line.len() == 0 {
            return PartsStep::Nothing;
        }
        let rest = copy_range(line.as_slice(), 1, line.len());
        proof {
            assert(rest@ =~= line@.skip(1));
        }
        let kind: u8 = line[0];
        let next: usize;
        let part: Vec<u8>;
        if kind == 36 {
            let len: u64 = match parse_header(rest, usize::MAX as u64) {
                None => {
                    return PartsStep::Nothing;
                },
                Some(n) => n,
            };
            let room: usize = buf.len() - at;
            if room < 2 || len > (room - 2) as u64 {
                if closed {
                    return PartsStep::Nothing;
                }
                return PartsStep::Pending;
            }
            part = copy_range(buf, at, at + len as usize);
            next = at + len as usize + 2;
        } else if kind == 58 || kind == 43 || kind == 45 {
            part = rest;
            next = at;
        } else {
            return PartsStep::Nothing;
        }
        let ghost before = out@;
        let ghost tail = parts_from(buf@, next as int, (left - 1) as nat, closed);
        out.push(part);
        pos = next;
        left = left - 1;
        proof {
            assert(scan::parts(out@) =~= scan::parts(before) + seq![part@]);
            if let PartsScan::Done(v, end) = tail {
                assert(scan::parts(before) + (seq![part@] + v) =~= scan::parts(out@) + v);
            }
        }
    }
    proof {
        assert(scan::parts(out@) + Seq::<Seq<u8>>::empty() =~= scan::parts(out@));
    }
    PartsStep::Done(out, pos)
}

/// A search hit: an id, and the text of its distance where the server sent one.
pub type HitView = (u64, Option<Seq<u8>>);

pub open spec fn hit_view(h: (u64, Option<Vec<u8>>)) -> HitView {
    (
        h.0,
        match h.1 {
            Some(b) => Some(b@),
            None => None,
        },
    )
}

pub open spec fn hit_views(s: Seq<(u64, Option<Vec<u8>>)>) -> Seq<HitView> {
    Seq::new(s.len(), |i: int| hit_view(s[i]))
}

/// The value of an item: a number on its own line, or the bytes of a bulk string,
/// and where the next item begins. `None` where bytes are missing.
pub open spec fn item_at(buf: Seq<u8>, pos: int) -> Option<(u8, Seq<u8>, int)> {
    let nl = scan::find(buf, 10, pos);
    if nl >= buf.len() {
        None
    } else {
        let line = scan::strip_eol(buf.subrange(pos, nl + 1));
        let at = nl + 1;
        if line.len() > 0 && line[0] == 36 {
            let len = or_zero(text::header_number(line.skip(1), usize::MAX as nat));
            if at + len + 2 > buf.len() {
                None
            } else {
                Some((36u8, buf.subrange(at, at + len), at + len + 2))
            }
        } else if line.len() > 0 {
            Some((line[0], line.skip(1), at))
        } else {
            Some((0u8, Seq::empty(), at))
        }
    }
}

pub open spec fn or_zero(n: Option<nat>) -> nat {
    match n {
        Some(v) => v,
        None => 0,
    }
}

pub enum HitsScan {
    Pending,
    ServerError,
    Done(Seq<HitView>, int),
}

pub open spec fn hits_before(head: Seq<HitView>, s: HitsScan) -> HitsScan {
    match s {
        HitsScan::Done(v, end) => HitsScan::Done(head + v, end),
        other => other,
    }
}

/// `count` pairs of an id and a distance from `pos` on. An id that cannot be read is 0.
pub open spec fn hits_from(buf: Seq<u8>, pos: int, count: nat) -> HitsScan
    decreases count,
{
    if count == 0 {
        HitsScan::Done(Seq::empty(), pos)
    } else {
        match item_at(buf, pos) {
            None => HitsScan::Pending,
            Some((kind, bytes, mid)) => {
                let id = if kind == 58 || kind == 36 {
                    or_zero(text::header_number(bytes, u64::MAX as nat)) as u64
                } else {
                    0u64
                };
                match item_at(buf, mid) {
                    None => HitsScan::Pending,
                    Some((dkind, dbytes, end)) => hits_before(
                        seq![(id, if dkind == 36 { Some(dbytes) } else { None })],
                        hits_from(buf, end, (count - 1) as nat),
                    ),
                }
            },
        }
    }
}

/// The search hits of the reply at `pos`; none where the reply is no array.
pub open spec fn hits_at(buf: Seq<u8>, pos: int) -> HitsScan {
    let nl = scan::find(buf, 10, pos);
    if nl >= buf.len() {
        HitsScan::Pending
    } else {
        let line = scan::strip_eol(buf.subrange(pos, nl + 1));
        if line.len() > 0 && line[0] == 45 {
            HitsScan::ServerError
        } else if line.len() > 0 && line[0] == 42 {
            let n = reply::at_least_zero(reply::number_or(line.skip(1), 0));
            hits_from(buf, nl + 1, ((n + 1) / 2) as nat)
        } else {
            HitsScan::Done(Seq::empty(), nl + 1)
        }
    }
}

fn read_item(buf: &[u8], pos: usize) -> (r: Option<(u8, Vec<u8>, usize)>)
    requires
        pos <= buf@.len(),
    ensures
        match r {
            None => item_at(buf@, pos as int) is None,
            Some(x) => item_at(buf@, pos as int) == Some((x.0, x.1@, x.2 as int)) && x.2
                <= buf@.len(),
        },
{
    let nl = find_byte(buf, 10, pos);
    if nl >= buf.len() {
        return None;
    }
    let at: usize = nl + 1;
    let line = line_of(buf, pos, at);
    if line.len() == 0 {
        let none: Vec<u8> = Vec::new();
        return Some((0, none, at));
    }
    let rest = copy_range(line.as_slice(), 1, line.len());
    proof {
        assert(rest@ =~= line@.skip(1));
    }
    let kind: u8 = line[0];
    if kind != 36 {
        return Some((kind, rest, at));
    }
    let len: u64 = match parse_header(rest, usize::MAX as u64) {
        Some(n) => n,
        None => 0,
    };
    let room: usize = buf.len() - at;
    if room < 2 || len > (room - 2) as u64 {
        return None;
    }
    Some((36, copy_range(buf, at, at + len as usize), at + len as usize + 2))
}

/// What `read_id_dist_array` found.
#[derive(Debug, PartialEq)]
pub enum HitsStep {
    Pending,
    ServerError,
    Done(Vec<(u64, Option<Vec<u8>>)>, usize),
}

/// Reads the hits of a search from `buf[pos..]`.
pub fn read_id_dist_array(buf: &[u8], pos: usize) -> (r: HitsStep)
    requires
        pos <= buf@.len(),
    ensures
        match hits_at(buf@, pos as int) {
            HitsScan::Pending => r is Pending,
            HitsScan::ServerError => r is ServerError,
            HitsScan::Done(v, end) => r matches HitsStep::Done(x, n) && hit_views(x@) == v && n
                == end,
        },
{
    let nl = find_byte(buf, 10, pos);
    if nl >= buf.len() {
        return HitsStep::Pending;
    }
    let at: usize = nl + 1;
    let line = line_of(buf, pos, at);
    let mut out: Vec<(u64, Option<Vec<u8>>)> = Vec::new();
    proof {
        assert(hit_views(out@) =~= Seq::<HitView>::empty());
    }
    if line.len() == 0 || (line[0] != 45 && line[0] != 42) {
        return HitsStep::Done(out, at);
    }
    if line[0] == 45 {
        return HitsStep::ServerError;
    }
    let rest = copy_range(line.as_slice(), 1, line.len());
    proof {
        assert(rest@ =~= line@.skip(1));
    }
    let n: i64 = match parse_header_signed(rest) {
        Some(n) => n,
        None => 0,
    };
    let n: u64 = if n < 0 { 0 } else { n as u64 };
    let mut left: u64 = (n + 1) / 2;
    let mut here: usize = at;
    proof {
        if let HitsScan::Done(v, end) = hits_at(buf@, pos as int) {
            assert(Seq::<HitView>::empty() + v =~= v);
        }
    }
    while left > 0
        invariant
            here <= buf@.len(),
            hits_at(buf@, pos as int) == hits_before(
                hit_views(out@),
                hits_from(buf@, here as int, left as nat),
            ),
        decreases left,
    {
        let (kind, bytes, mid) = match read_item(buf, here) {
            None => {
                return HitsStep::Pending;
            },
            Some(x) => x,
        };
        let mut id: u64 = 0;
        if kind == 58 || kind == 36 {
            id = match parse_header(bytes, u64::MAX) {
                Some(v) => v,
                None => 0,
            };
        }
        let (dkind, dbytes, end) = match read_item(buf, mid) {
            None => {
                return HitsStep::Pending;
            },
            Some(x) => x,
        };
        let ghost before = out@;
        let dist: Option<Vec<u8>> = if dkind == 36 { Some(dbytes) } else { None };
        let ghost h = hit_view((id, dist));
        let ghost tail = hits_from(buf@, end as int, (left - 1) as nat);
        out.push((id, dist));
        here = end;
        left = left - 1;
        proof {
            assert(hit_views(out@) =~= hit_views(before) + seq![h]);
            if let HitsScan::Done(v, e) = tail {
                assert(hit_views(before) + (seq![h] + v) =~= hit_views(out@) + v);
            }
        }
    }
    proof {
        assert(hit_views(out@) + Seq::<HitView>::empty() =~= hit_views(out@));
    }
    HitsStep::Done(out, here)
}

/// The ids of the hits, in their order.
pub fn hit_ids(hits: &Vec<(u64, Option<Vec<u8>>)>) -> (r: Vec<u64>)
    ensures
        r@ == Seq::new(hits@.len(), |i: int| hits@[i].0),
{
    let mut out: Vec<u64> = Vec::new();
    let mut i: usize = 0;
    while i < hits.len()
        invariant
            i <= hits@.len(),
            out@ == Seq::new(i as nat, |k: int| hits@[k].0),
        decreases hits@.len() - i,
    {
        out.push(hits[i].0);
        i = i + 1;
        proof {
            assert(out@ =~= Seq::new(i as nat, |k: int| hits@[k].0));
        }
    }
    out
}

/// What reading the text of a reply comes to.
pub enum TextScan {
    Pending,
    Failed(ReplyFault),
    Done(Seq<u8>, int),
}

/// The bytes of a reply that carries text; a nil bulk string is empty.
pub open spec fn text_at(buf: Seq<u8>, pos: int) -> TextScan {
    let nl = scan::find(buf, 10, pos);
    if nl >= buf.len() {
        TextScan::Pending
    } else {
        let line = scan::strip_eol(buf.subrange(pos, nl + 1));
        let at = nl + 1;
        if line.len() == 0 {
            TextScan::Failed(ReplyFault::UnknownKind)
        } else if line[0] == 45 {
            TextScan::Failed(ReplyFault::ServerError)
        } else if line[0] == 36 {
            match text::header_signed(line.skip(1)) {
                None => TextScan::Failed(ReplyFault::BadBulkHeader),
                Some(n) => if n < 0 {
                    TextScan::Done(Seq::empty(), at)
                } else if at + n + 2 > buf.len() {
                    TextScan::Pending
                } else {
                    TextScan::Done(buf.subrange(at, at + n), at + n + 2)
                },
            }
        } else if line[0] == 43 || line[0] == 58 {
            TextScan::Done(line.skip(1), at)
        } else {
            TextScan::Failed(ReplyFault::UnknownKind)
        }
    }
}

/// What `read_text` found.
#[derive(Debug, PartialEq)]
pub enum TextStep {
    Pending,
    Failed(ReplyFault),
    Done(String, usize),
}

/// Reads a reply that carries text from `buf[pos..]`.
pub fn read_text(buf: &[u8], pos: usize) -> (r: TextStep)
    requires
        pos <= buf@.len(),
    ensures
        match text_at(buf@, pos as int) {
            TextScan::Pending => r is Pending,
            TextScan::Failed(f) => r == TextStep::Failed(f),
            TextScan::Done(b, end) => r matches TextStep::Done(s, n) && s@ == reply::shown(b)
                && n == end,
        },
{
    let nl = find_byte(buf, 10, pos);
    if nl >= buf.len() {
        return TextStep::Pending;
    }
    let at: usize = nl + 1;
    let line = line_of(buf, pos, at);
    if line.len() == 0 {
        return TextStep::Failed(ReplyFault::UnknownKind);
    }
    let kind: u8 = line[0];
    if kind == 45 {
        return TextStep::Failed(ReplyFault::ServerError);
    }
    let rest = copy_range(line.as_slice(), 1, line.len());
    proof {
        assert(rest@ =~= line@.skip(1));
    }
    if kind == 43 || kind == 58 {
        return TextStep::Done(text_of(rest.as_slice()), at);
    }
    if kind != 36 {
        return TextStep::Failed(ReplyFault::UnknownKind);
    }
    match parse_header_signed(rest) {
        None => TextStep::Failed(ReplyFault::BadBulkHeader),
        Some(n) => {
            if n < 0 {
                let none: Vec<u8> = Vec::new();
                return TextStep::Done(text_of(none.as_slice()), at);
            }
            let room: usize = buf.len() - at;
            if room < 2 || n as u64 > (room - 2) as u64 {
                return TextStep::Pending;
            }
            let len: usize = n as usize;
            let body = copy_range(buf, at, at + len);
            TextStep::Done(text_of(body.as_slice()), at + len + 2)
        },
    }
}

// ── laws ──────────────────────────────────────────────────────────────────

/// Whether no error stands in a reply.
pub open spec fn without_errors(v: reply::ReplyView) -> bool
    decreases v,
{
    match v {
        reply::ReplyView::Error(_) => false,
        reply::ReplyView::Array(s) => all_without_errors(s),
        _ => true,
    }
}

pub open spec fn all_without_errors(s: Seq<reply::ReplyView>) -> bool
    decreases s,
{
    s.len() == 0 || (without_errors(s[0]) && all_without_errors(s.subrange(1, s.len() as int)))
}

/// A reply that is drained as a success is one that a client reads, up to the same byte, and
/// no error stands in it, however deep.
pub proof fn law_drained_reply_is_no_error(buf: Seq<u8>, pos: int, end: int)
    requires
        0 <= pos <= buf.len(),
        drained(buf, pos) == DrainScan::Done(end),
    ensures
        reply::reply_at(buf, pos) matches reply::ReplyScan::Done(v, e) && e == end
            && without_errors(v),
    decreases buf.len() - pos, 0int,
{
    scan::lemma_find(buf, 10, pos);
    let nl = scan::find(buf, 10, pos);
    let line = scan::strip_eol(buf.subrange(pos, nl + 1));
    if line[0] == 42 {
        if let Some(n) = text::header_signed(line.skip(1)) {
            lemma_drained_replies(buf, nl + 1, reply::at_least_zero(n), end);
        }
    }
}

proof fn lemma_drained_replies(buf: Seq<u8>, pos: int, count: nat, end: int)
    requires
        0 <= pos <= buf.len(),
        drained_all(buf, pos, count) == DrainScan::Done(end),
    ensures
        reply::replies_at(buf, pos, count) matches reply::RepliesScan::Done(v, e) && e == end
            && all_without_errors(v),
    decreases buf.len() - pos, count + 1,
{
    if count > 0 {
        lemma_drained_end(buf, pos);
        if let DrainScan::Done(mid) = drained(buf, pos) {
            law_drained_reply_is_no_error(buf, pos, mid);
            lemma_drained_replies(buf, mid, (count - 1) as nat, end);
            if let reply::ReplyScan::Done(v, _) = reply::reply_at(buf, pos) {
                if let reply::RepliesScan::Done(vs, _) = reply::replies_at(
                    buf,
                    mid,
                    (count - 1) as nat,
                ) {
                    let all = seq![v] + vs;
                    assert(all.subrange(1, all.len() as int) =~= vs);
                }
            }
        }
    }
}

/// The text of a reply is what a client reads there: the bytes of a bulk or simple string, up to
/// the same byte; an error is a failure; and what is not all there yet is waited for.
pub proof fn law_texts_are_the_replies(buf: Seq<u8>, pos: int)
    requires
        0 <= pos <= buf.len(),
    ensures
        reply::reply_at(buf, pos) matches reply::ReplyScan::Done(v, e) ==> {
            &&& v matches reply::ReplyView::Bulk(Some(b)) ==> text_at(buf, pos) == TextScan::Done(
                b,
                e,
            )
            &&& v is Error ==> text_at(buf, pos) == TextScan::Failed(ReplyFault::ServerError)
            &&& v matches reply::ReplyView::Simple(b) ==> buf[pos] == 43 ==> text_at(buf, pos)
                == TextScan::Done(b, e)
            &&& v is Array ==> text_at(buf, pos) == TextScan::Failed(ReplyFault::UnknownKind)
        },
        text_at(buf, pos) matches TextScan::Done(b, e) ==> (reply::reply_at(
            buf,
            pos,
        ) matches reply::ReplyScan::Done(v, end) && end == e),
        text_at(buf, pos) is Pending ==> reply::reply_at(buf, pos) is Pending,
{
    scan::lemma_find(buf, 10, pos);
    let nl = scan::find(buf, 10, pos);
    if nl < buf.len() {
        let whole = buf.subrange(pos, nl + 1);
        scan::law_line_ends_are_taken_off(whole);
        let line = scan::strip_eol(whole);
        if line.len() > 0 {
            assert(line[0] == whole.subrange(0, line.len() as int)[0]);
            assert(line[0] == buf[pos]);
        }
    }
}

/// A reply that a client reads and in which no error stands is drained as a success where its
/// numbers can be read, and ends at the same byte: a bulk string, a number or a simple string.
pub proof fn law_plain_replies_are_drained(buf: Seq<u8>, pos: int)
    requires
        0 <= pos <= buf.len(),
    ensures
        text_at(buf, pos) matches TextScan::Done(_, e) ==> drained(buf, pos) == DrainScan::Done(e),
        text_at(buf, pos) == TextScan::Failed(ReplyFault::ServerError) ==> drained(buf, pos)
            == DrainScan::Failed(ReplyFault::ServerError),
        text_at(buf, pos) is Pending ==> drained(buf, pos) is Pending,
{
    scan::lemma_find(buf, 10, pos);
}

proof fn lemma_parts_agree(buf: Seq<u8>, pos: int, count: nat, closed: bool)
    ensures
        crate::resp::stream_bulks(buf, pos, count, closed) matches crate::resp::Scan::Done(args, end)
            ==> parts_from(buf, pos, count, closed) == PartsScan::Done(args, end),
    decreases count,
{
    if count > 0 {
        let nl = scan::find(buf, 10, pos);
        let at = if nl < buf.len() {
            nl + 1
        } else {
            buf.len() as int
        };
        let line = scan::strip_eol(buf.subrange(pos, at));
        if let Some(len) = text::header_number(line.skip(1), usize::MAX as nat) {
            lemma_parts_agree(buf, at + len + 2, (count - 1) as nat, closed);
        }
    }
}

/// An array of bulk strings is read part by part as a server reads a command.
pub proof fn law_parts_are_arguments(buf: Seq<u8>, closed: bool)
    requires
        buf.len() > 0,
        buf[0] == 42,
    ensures
        crate::resp::stream_parsed(buf, closed) matches crate::resp::Scan::Done(args, end)
            ==> array_parts(buf, closed) == PartsScan::Done(args, end),
{
    let nl = scan::find(buf, 10, 0);
    scan::lemma_find(buf, 10, 0);
    let at = if nl < buf.len() {
        nl + 1
    } else {
        buf.len() as int
    };
    assert(buf.subrange(0, at) =~= buf.take(at));
    let line = scan::strip_eol(buf.take(at));
    scan::law_line_ends_are_taken_off(buf.take(at));
    if line.len() == 0 {
        assert(buf.take(at)[0] == buf[0]);
    } else {
        assert(line[0] == buf.take(at).subrange(0, line.len() as int)[0]);
        if let Some(count) = text::header_number(line.skip(1), usize::MAX as nat) {
            lemma_parts_agree(buf, at, count, closed);
        }
    }
}

/// Hits on the wire: each an integer line with the id, and a bulk string with the distance.
pub open spec fn hit_frames(hits: Seq<(u64, Seq<u8>)>) -> Seq<u8>
    decreases hits.len(),
{
    if hits.len() == 0 {
        Seq::empty()
    } else {
        seq![58u8] + text::dec(hits[0].0 as nat) + crate::resp::crlf() + crate::resp::bulk_frame(
            hits[0].1,
        ) + hit_frames(hits.skip(1))
    }
}

/// A line with a number, read as one part of a reply.
proof fn lemma_number_item(buf: Seq<u8>, pos: int, id: nat)
    requires
        id <= u32::MAX,
        0 <= pos,
        pos + (3 + text::dec(id).len()) <= buf.len(),
        buf.subrange(pos, pos + (3 + text::dec(id).len())) == seq![58u8] + text::dec(id)
            + crate::resp::crlf(),
    ensures
        item_at(buf, pos) == Some((58u8, text::dec(id), pos + (3 + text::dec(id).len()))),
        text::header_number(text::dec(id), u64::MAX as nat) == Some(id),
{
    let n = text::dec(id);
    assert(pos + 1 + n.len() + 2 == pos + (3 + n.len()));
    crate::resp_laws::lemma_header(buf, pos, 58, id);
    let line = scan::strip_eol(buf.subrange(pos, pos + (3 + n.len())));
    assert(line == seq![58u8] + n);
    assert(line.skip(1) =~= n);
    text::law_header_round_trip(id, u64::MAX as nat);
}

/// A bulk string, read as one part of a reply.
proof fn lemma_bulk_item(buf: Seq<u8>, pos: int, d: Seq<u8>)
    requires
        d.len() <= u32::MAX,
        0 <= pos,
        pos + crate::resp::bulk_frame(d).len() <= buf.len(),
        buf.subrange(pos, pos + crate::resp::bulk_frame(d).len()) == crate::resp::bulk_frame(d),
    ensures
        item_at(buf, pos) == Some((36u8, d, pos + crate::resp::bulk_frame(d).len())),
{
    let m = text::dec(d.len());
    let crlf = crate::resp::crlf();
    let head = seq![36u8] + m + crlf;
    let frame = crate::resp::bulk_frame(d);
    assert(frame =~= head + d + crlf);
    let part = buf.subrange(pos, pos + frame.len());
    let body = pos + head.len();
    assert(buf.subrange(pos, pos + 1 + m.len() + 2) =~= part.subrange(0, head.len() as int));
    assert(part.subrange(0, head.len() as int) =~= head);
    crate::resp_laws::lemma_header(buf, pos, 36, d.len());
    let line = scan::strip_eol(buf.subrange(pos, body));
    assert(line == seq![36u8] + m);
    assert(line.skip(1) =~= m);
    assert(buf.subrange(body, body + d.len()) =~= part.subrange(
        head.len() as int,
        (head.len() + d.len()) as int,
    ));
    assert(part.subrange(head.len() as int, (head.len() + d.len()) as int) =~= d);
}

proof fn lemma_hits_read(hits: Seq<(u64, Seq<u8>)>, buf: Seq<u8>, pos: int)
    requires
        0 <= pos,
        pos + hit_frames(hits).len() <= buf.len(),
        buf.subrange(pos, pos + hit_frames(hits).len()) == hit_frames(hits),
        forall|i: int| 0 <= i < hits.len() ==> (#[trigger] hits[i]).1.len() <= u32::MAX && hits[i].0
            <= u32::MAX,
    ensures
        hits_from(buf, pos, hits.len()) == HitsScan::Done(
            Seq::new(hits.len(), |i: int| (hits[i].0, Some(hits[i].1))),
            pos + hit_frames(hits).len() as int,
        ),
    decreases hits.len(),
{
    let want = Seq::new(hits.len(), |i: int| (hits[i].0, Some(hits[i].1)));
    if hits.len() == 0 {
        assert(want =~= Seq::<HitView>::empty());
    } else {
        let all = hit_frames(hits);
        let (id, d) = hits[0];
        let rest = hits.skip(1);
        let first = seq![58u8] + text::dec(id as nat) + crate::resp::crlf();
        let frame = crate::resp::bulk_frame(d);
        let tail = hit_frames(rest);
        assert(all =~= first + frame + tail);
        let a = first.len() as int;
        let b = a + frame.len() as int;
        let part = buf.subrange(pos, pos + all.len());
        assert(hits[0].0 <= u32::MAX && hits[0].1.len() <= u32::MAX);
        assert(buf.subrange(pos, pos + a) =~= part.subrange(0, a));
        assert(part.subrange(0, a) =~= first);
        lemma_number_item(buf, pos, id as nat);
        assert(buf.subrange(pos + a, pos + b) =~= part.subrange(a, b));
        assert(part.subrange(a, b) =~= frame);
        lemma_bulk_item(buf, pos + a, d);
        assert(buf.subrange(pos + b, pos + b + tail.len()) =~= part.subrange(b, all.len() as int));
        assert(part.subrange(b, all.len() as int) =~= tail);
        assert forall|i: int| 0 <= i < rest.len() implies (#[trigger] rest[i]).1.len() <= u32::MAX
            && rest[i].0 <= u32::MAX by {
            assert(rest[i] == hits[i + 1]);
        }
        lemma_hits_read(rest, buf, pos + b);
        let more = Seq::new(rest.len(), |i: int| (rest[i].0, Some(rest[i].1)));
        assert(want =~= seq![(id, Some(d))] + more);
        assert(item_at(buf, pos) == Some((58u8, text::dec(id as nat), pos + a)));
        assert(item_at(buf, pos + a) == Some((36u8, d, pos + b)));
    }
}

/// The hits that a server sends, ids and distances in turn, are read back as they were, in their
/// order, whatever follows them.
pub proof fn law_hits_read_back(hits: Seq<(u64, Seq<u8>)>, tail: Seq<u8>)
    requires
        hits.len() <= u32::MAX / 2,
        forall|i: int| 0 <= i < hits.len() ==> (#[trigger] hits[i]).1.len() <= u32::MAX && hits[i].0
            <= u32::MAX,
    ensures
        ({
            let sent = seq![42u8] + text::dec(2 * hits.len()) + crate::resp::crlf() + hit_frames(
                hits,
            );
            hits_at(sent + tail, 0) == HitsScan::Done(
                Seq::new(hits.len(), |i: int| (hits[i].0, Some(hits[i].1))),
                sent.len() as int,
            )
        }),
{
    let d = text::dec(2 * hits.len());
    let head = seq![42u8] + d + crate::resp::crlf();
    let frames = hit_frames(hits);
    let sent = head + frames;
    let buf = sent + tail;
    assert(buf.subrange(0, head.len() as int) =~= head);
    crate::resp_laws::lemma_header(buf, 0, 42, 2 * hits.len());
    let line = scan::strip_eol(buf.subrange(0, head.len() as int));
    assert(line.skip(1) =~= d);
    text::law_signed_round_trip((2 * hits.len()) as int);
    assert(text::dec_signed((2 * hits.len()) as int) == d);
    assert(buf.subrange(head.len() as int, head.len() as int + frames.len()) =~= frames);
    lemma_hits_read(hits, buf, head.len() as int);
}

/// What is drained as not all there yet is not all there for a client either; and a reply that a
/// client reads without an error in it is drained up to the same byte, or is refused for a header
/// that cannot be read or a kind that is not known, never as an error of the server.
pub proof fn law_replies_without_errors_are_drained(buf: Seq<u8>, pos: int)
    requires
        0 <= pos <= buf.len(),
    ensures
        drained(buf, pos) is Pending ==> reply::reply_at(buf, pos) is Pending,
        reply::reply_at(buf, pos) matches reply::ReplyScan::Done(v, e) ==> without_errors(v)
            ==> drained(buf, pos) == DrainScan::Done(e) || (drained(
            buf,
            pos,
        ) matches DrainScan::Failed(f) && f != ReplyFault::ServerError),
    decreases buf.len() - pos, 0int,
{
    scan::lemma_find(buf, 10, pos);
    let nl = scan::find(buf, 10, pos);
    if nl < buf.len() {
        let line = scan::strip_eol(buf.subrange(pos, nl + 1));
        if line.len() > 0 && line[0] == 42 {
            if let Some(n) = text::header_signed(line.skip(1)) {
                lemma_replies_drained(buf, nl + 1, reply::at_least_zero(n));
            }
        }
    }
}

proof fn lemma_replies_drained(buf: Seq<u8>, pos: int, count: nat)
    requires
        0 <= pos <= buf.len(),
    ensures
        drained_all(buf, pos, count) is Pending ==> reply::replies_at(buf, pos, count) is Pending,
        reply::replies_at(buf, pos, count) matches reply::RepliesScan::Done(v, e)
            ==> all_without_errors(v) ==> drained_all(buf, pos, count) == DrainScan::Done(e) || (
        drained_all(buf, pos, count) matches DrainScan::Failed(f) && f != ReplyFault::ServerError),
    decreases buf.len() - pos, count + 1,
{
    if count > 0 {
        lemma_drained_end(buf, pos);
        law_replies_without_errors_are_drained(buf, pos);
        let rest = (count - 1) as nat;
        if let reply::ReplyScan::Done(v, mid) = reply::reply_at(buf, pos) {
            if pos <= mid <= buf.len() {
                if let reply::RepliesScan::Done(vs, _) = reply::replies_at(buf, mid, rest) {
                    let all = seq![v] + vs;
                    assert(all[0] == v);
                    assert(all.subrange(1, all.len() as int) =~= vs);
                }
            }
        }
        if let DrainScan::Done(mid) = drained(buf, pos) {
            law_drained_reply_is_no_error(buf, pos, mid);
            lemma_replies_drained(buf, mid, rest);
        }
    }
}

} // verus!
