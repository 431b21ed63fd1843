//! The client's side of the wire: reading the replies of a server.
use crate::scan;
use crate::scan::{copy_range, find_byte, line_of};
use crate::text;
use crate::text::{parse_header_signed, signed_string};
use vstd::prelude::*;

verus! {

/// A reply of the server.
#[derive(Debug, PartialEq, Eq)]
pub enum Reply {
    Simple(Vec<u8>),
    Error(Vec<u8>),
    Int(i64),
    Bulk(Option<Vec<u8>>),
    Array(Vec<Reply>),
}

/// What a reply says, as mathematical values.
pub enum ReplyView {
    Simple(Seq<u8>),
    Error(Seq<u8>),
    Int(int),
    Bulk(Option<Seq<u8>>),
    Array(Seq<ReplyView>),
}

pub open spec fn reply_view(r: Reply) -> ReplyView
    decreases r,
{
    match r {
        Reply::Simple(b) => ReplyView::Simple(b@),
        Reply::Error(b) => ReplyView::Error(b@),
        Reply::Int(i) => ReplyView::Int(i as int),
        Reply::Bulk(None) => ReplyView::Bulk(None),
        Reply::Bulk(Some(b)) => ReplyView::Bulk(Some(b@)),
        Reply::Array(v) => ReplyView::Array(reply_views(v@)),
    }
}

pub open spec fn reply_views(s: Seq<Reply>) -> Seq<ReplyView>
    decreases s,
{
    if s.len() == 0 {
        Seq::empty()
    } else {
        reply_views(s.subrange(0, s.len() - 1)).push(reply_view(s[s.len() - 1]))
    }
}

/// What the bytes delivered so far amount to.
pub enum ReplyScan {
    /// More bytes are needed.
    Pending,
    /// An empty line stands where a reply should begin.
    Malformed,
    /// A reply, and the place just behind it.
    Done(ReplyView, int),
}

/// Several replies, and the place just behind them.
pub enum RepliesScan {
    Pending,
    Malformed,
    Done(Seq<ReplyView>, int),
}

/// The reply at `pos`. A number that cannot be read counts as 0, as the length of
/// a bulk string as -1; a line of an unknown kind as an empty simple reply.
pub open spec fn reply_at(buf: Seq<u8>, pos: int) -> ReplyScan
    decreases buf.len() - pos, 0int,
    when 0 <= pos <= buf.len()
{
    let nl = scan::find(buf, 10, pos);
    proof {
        scan::lemma_find(buf, 10, pos);
    }
    if nl >= buf.len() {
        ReplyScan::Pending
    } else {
        let line = scan::strip_eol(buf.subrange(pos, nl + 1));
        if line.len() == 0 {
            ReplyScan::Malformed
        } else {
            let rest = line.skip(1);
            let at = nl + 1;
            if line[0] == 43 {
                ReplyScan::Done(ReplyView::Simple(rest), at)
            } else if line[0] == 45 {
                ReplyScan::Done(ReplyView::Error(rest), at)
            } else if line[0] == 58 {
                ReplyScan::Done(ReplyView::Int(number_or(rest, 0)), at)
            } else if line[0] == 36 {
                let n = number_or(rest, -1);
                if n < 0 {
                    ReplyScan::Done(ReplyView::Bulk(None), at)
                } else if at + n + 2 > buf.len() {
                    ReplyScan::Pending
                } else {
                    ReplyScan::Done(ReplyView::Bulk(Some(buf.subrange(at, at + n))), at + n + 2)
                }
            } else if line[0] == 42 {
                match replies_at(buf, at, at_least_zero(number_or(rest, 0))) {
                    RepliesScan::Pending => ReplyScan::Pending,
                    RepliesScan::Malformed => ReplyScan::Malformed,
                    RepliesScan::Done(v, end) => ReplyScan::Done(ReplyView::Array(v), end),
                }
            } else {
                ReplyScan::Done(ReplyView::Simple(Seq::empty()), at)
            }
        }
    }
}

/// `count` replies from `pos` on.
pub open spec fn replies_at(buf: Seq<u8>, pos: int, count: nat) -> RepliesScan
    decreases buf.len() - pos, count + 1,
    when 0 <= pos <= buf.len()
{
    if count == 0 {
        RepliesScan::Done(Seq::empty(), pos)
    } else {
        match reply_at(buf, pos) {
            ReplyScan::Pending => RepliesScan::Pending,
            ReplyScan::Malformed => RepliesScan::Malformed,
            ReplyScan::Done(v, mid) => if pos <= mid <= buf.len() {
                joined(seq![v], replies_at(buf, mid, (count - 1) as nat))
            } else {
                RepliesScan::Malformed
            },
        }
    }
}

/// `head` in front of the replies that `s` holds.
pub open spec fn joined(head: Seq<ReplyView>, s: RepliesScan) -> RepliesScan {
    match s {
        RepliesScan::Done(v, end) => RepliesScan::Done(head + v, end),
        other => other,
    }
}

/// The number written in `bytes`, or `other` where there is none.
pub open spec fn number_or(bytes: Seq<u8>, other: int) -> int {
    match text::header_signed(bytes) {
        Some(n) => n,
        None => other,
    }
}

pub open spec fn at_least_zero(n: int) -> nat {
    if n < 0 {
        0
    } else {
        n as nat
    }
}

proof fn lemma_reply_end(buf: Seq<u8>, pos: int)
    requires
        0 <= pos <= buf.len(),
    ensures
        reply_at(buf, pos) matches ReplyScan::Done(_, end) ==> pos < end <= buf.len(),
    decreases buf.len() - pos, 0int,
{
    scan::lemma_find(buf, 10, pos);
    let nl = scan::find(buf, 10, pos);
    if nl < buf.len() {
        let line = scan::strip_eol(buf.subrange(pos, nl + 1));
        if line.len() > 0 && line[0] == 42 {
            lemma_replies_end(buf, nl + 1, at_least_zero(number_or(line.skip(1), 0)));
        }
    }
}

proof fn lemma_replies_end(buf: Seq<u8>, pos: int, count: nat)
    requires
        0 <= pos <= buf.len(),
    ensures
        replies_at(buf, pos, count) matches RepliesScan::Done(_, end) ==> pos <= end
            <= buf.len(),
    decreases buf.len() - pos, count + 1,
{
    if count > 0 {
        lemma_reply_end(buf, pos);
        if let ReplyScan::Done(_, mid) = reply_at(buf, pos) {
            lemma_replies_end(buf, mid, (count - 1) as nat);
        }
    }
}

/// What `read_reply` makes of the bytes it was given.
#[derive(Debug, PartialEq, Eq)]
pub enum ReplyStep {
    Pending,
    Malformed,
    Reply(Reply, usize),
}

fn number_in(bytes: Vec<u8>, other: i64) -> (r: i64)
    ensures
        r == number_or(bytes@, other as int),
{
    match parse_header_signed(bytes) {
        Some(n) => n,
        None => other,
    }
}

/// Reads one reply from `buf[pos..]`.
pub fn read_reply(buf: &[u8], pos: usize) -> (r: ReplyStep)
    requires
        pos <= buf@.len(),
    ensures
        match reply_at(buf@, pos as int) {
            ReplyScan::Pending => r is Pending,
            ReplyScan::Malformed => r is Malformed,
            ReplyScan::Done(v, end) => r matches ReplyStep::Reply(x, n) && reply_view(x) == v && n
                == end && pos < n <= buf@.len(),
        },
    decreases buf@.len() - pos,
{
    let nl = find_byte(buf, 10, pos);
    if nl >= buf.len() {
        return ReplyStep::Pending;
    }
    let line = line_of(buf, pos, nl + 1);
    if line.len() == 0 {
        return ReplyStep::Malformed;
    }
    let rest = copy_range(line.as_slice(), 1, line.len());
    proof {
        assert(rest@ =~= line@.skip(1));
        lemma_reply_end(buf@, pos as int);
    }
    let at: usize = nl + 1;
    let kind: u8 = line[0];
    if kind == 43 {
        ReplyStep::Reply(Reply::Simple(rest), at)
    } else if kind == 45 {
        ReplyStep::Reply(Reply::Error(rest), at)
    } else if kind == 58 {
        ReplyStep::Reply(Reply::Int(number_in(rest, 0)), at)
    } else if kind == 36 {
        let n: i64 = number_in(rest, -1);
        if n < 0 {
            return ReplyStep::Reply(Reply::Bulk(None), at);
        }
        let room: usize = buf.len() - at;
        if room < 2 || n as u64 > (room - 2) as u64 {
            return ReplyStep::Pending;
        }
        let len: usize = n as usize;
        ReplyStep::Reply(Reply::Bulk(Some(copy_range(buf, at, at + len))), at + len + 2)
    } else if kind == 42 {
        let n: i64 = number_in(rest, 0);
        let mut left: u64 = if n < 0 { 0 } else { n as u64 };
        let mut out: Vec<Reply> = Vec::new();
        let mut here: usize = at;
        let ghost want = replies_at(buf@, at as int, left as nat);
        proof {
            assert(reply_views(out@) =~= Seq::<ReplyView>::empty());
            if let RepliesScan::Done(v, end) = want {
                assert(Seq::<ReplyView>::empty() + v =~= v);
            }
        }
        while left > 0
            invariant
                pos < at <= here <= buf@.len(),
                want == joined(
                    reply_views(out@),
                    replies_at(buf@, here as int, left as nat),
                ),
                reply_at(buf@, pos as int) == (match want {
                    RepliesScan::Pending => ReplyScan::Pending,
                    RepliesScan::Malformed => ReplyScan::Malformed,
                    RepliesScan::Done(v, end) => ReplyScan::Done(ReplyView::Array(v), end),
                }),
            decreases left,
        {
            match read_reply(buf, here) {
                ReplyStep::Pending => {
                    return ReplyStep::Pending;
                },
                ReplyStep::Malformed => {
                    return ReplyStep::Malformed;
                },
                ReplyStep::Reply(x, end) => {
                    let ghost before = out@;
                    let ghost v = reply_view(x);
                    out.push(x);
                    here = end;
                    left = left - 1;
                    proof {
                        assert(out@.subrange(0, out@.len() - 1) =~= before);
                        assert(reply_views(out@) =~= reply_views(before) + seq![v]);
                        if let RepliesScan::Done(tail, e) = replies_at(
                            buf@,
                            here as int,
                            left as nat,
                        ) {
                            assert(reply_views(before) + (seq![v] + tail) =~= reply_views(out@)
                                + tail);
                        }
                    }
                },
            }
        }
        proof {
            assert(reply_views(out@) + Seq::<ReplyView>::empty() =~= reply_views(out@));
        }
        ReplyStep::Reply(Reply::Array(out), here)
    } else {
        ReplyStep::Reply(Reply::Simple(Vec::new()), at)
    }
}

/// What `String::from_utf8_lossy` makes of `bytes`.
pub uninterp spec fn lossy_text(bytes: Seq<u8>) -> Seq<char>;

/// Calls `String::from_utf8_lossy`: a function of the bytes alone, which decodes
/// them where they are valid UTF-8. What stands for invalid bytes is not stated.
#[verifier::external_body]
fn lossy(bytes: &[u8]) -> (r: String)
    ensures
        r@ == lossy_text(bytes@),
        vstd::utf8::valid_utf8(bytes@) ==> r@ == vstd::utf8::decode_utf8(bytes@),
{
    String::from_utf8_lossy(bytes).into_owned()
}

/// Bytes as text: decoded where they are valid UTF-8.
pub open spec fn shown(bytes: Seq<u8>) -> Seq<char> {
    if vstd::utf8::valid_utf8(bytes) {
        vstd::utf8::decode_utf8(bytes)
    } else {
        lossy_text(bytes)
    }
}

/// Bytes as text.
pub fn text_of(bytes: &[u8]) -> (r: String)
    ensures
        r@ == shown(bytes@),
{
    lossy(bytes)
}

impl Reply {
    /// The bytes of a bulk reply.
    pub fn as_bulk(&self) -> (r: Option<&[u8]>)
        ensures
            match *self {
                Reply::Bulk(Some(b)) => r matches Some(x) && x@ == b@,
                _ => r is None,
            },
    {
        match self {
            Reply::Bulk(Some(b)) => Some(b.as_slice()),
            _ => None,
        }
    }

    /// The number of an integer reply.
    pub fn as_int(&self) -> (r: Option<i64>)
        ensures
            r == (match *self {
                Reply::Int(i) => Some(i),
                _ => None,
            }),
    {
        match self {
            Reply::Int(i) => Some(*i),
            _ => None,
        }
    }

    /// The items of an array reply.
    pub fn as_array(&self) -> (r: Option<&[Reply]>)
        ensures
            match *self {
                Reply::Array(v) => r matches Some(x) && x@ == v@,
                _ => r is None,
            },
    {
        match self {
            Reply::Array(v) => Some(v.as_slice()),
            _ => None,
        }
    }

    /// The reply as text: the bytes of a simple or bulk reply, the digits of a number.
    pub fn as_str(&self) -> (r: Option<String>)
        ensures
            match *self {
                Reply::Simple(b) => r matches Some(s) && s@ == shown(b@),
                Reply::Bulk(Some(b)) => r matches Some(s) && s@ == shown(b@),
                Reply::Int(i) => r matches Some(s) && s@ == text::signed_text(i as int),
                _ => r is None,
            },
    {
        match self {
            Reply::Simple(b) => Some(text_of(b.as_slice())),
            Reply::Bulk(Some(b)) => Some(text_of(b.as_slice())),
            Reply::Int(i) => Some(signed_string(*i)),
            _ => None,
        }
    }
}

} // verus!
