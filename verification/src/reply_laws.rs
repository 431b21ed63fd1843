//! What a server writes, a client reads back.
use crate::reply;
use crate::resp;
use crate::resp::Resp;
use crate::scan;
use crate::text;
use vstd::prelude::*;

verus! {

/// Text that fits on one line of the wire: no line feed, no carriage return at its end.
pub open spec fn one_line(b: Seq<u8>) -> bool {
    &&& forall|i: int| 0 <= i < b.len() ==> #[trigger] b[i] != 10
    &&& b.len() > 0 ==> b.last() != 13
}

/// A value whose texts fit on a line and whose lengths fit in an `i64`.
pub open spec fn sendable(r: Resp) -> bool
    decreases r,
{
    match r {
        Resp::Simple(s) => one_line(vstd::utf8::encode_utf8(s@)),
        Resp::Error(s) => one_line(vstd::utf8::encode_utf8(s@)),
        Resp::Int(_) => true,
        Resp::Bulk(b) => b@.len() <= i64::MAX,
        Resp::Nil => true,
        Resp::Array(items) => items@.len() <= i64::MAX && all_sendable(items@),
    }
}

pub open spec fn all_sendable(s: Seq<Resp>) -> bool
    decreases s,
{
    s.len() > 0 ==> all_sendable(s.subrange(0, s.len() - 1)) && sendable(s[s.len() - 1])
}

/// The reply that a value is for the client.
pub open spec fn as_reply(r: Resp) -> reply::ReplyView
    decreases r,
{
    match r {
        Resp::Simple(s) => reply::ReplyView::Simple(vstd::utf8::encode_utf8(s@)),
        Resp::Error(s) => reply::ReplyView::Error(vstd::utf8::encode_utf8(s@)),
        Resp::Int(i) => reply::ReplyView::Int(i as int),
        Resp::Bulk(b) => reply::ReplyView::Bulk(Some(b@)),
        Resp::Nil => reply::ReplyView::Bulk(None),
        Resp::Array(items) => reply::ReplyView::Array(as_replies(items@)),
    }
}

pub open spec fn as_replies(s: Seq<Resp>) -> Seq<reply::ReplyView>
    decreases s,
{
    if s.len() == 0 {
        Seq::empty()
    } else {
        as_replies(s.subrange(0, s.len() - 1)).push(as_reply(s[s.len() - 1]))
    }
}

/// A line at `pos`: where it ends, and what is left without its line end.
proof fn lemma_line(buf: Seq<u8>, pos: int, sigil: u8, body: Seq<u8>)
    requires
        0 <= pos,
        pos + 1 + body.len() + 2 <= buf.len(),
        sigil != 10 && sigil != 13,
        one_line(body),
        buf.subrange(pos, pos + 1 + body.len() + 2) == seq![sigil] + body + resp::crlf(),
    ensures
        scan::find(buf, 10, pos) == pos + body.len() + 2,
        scan::strip_eol(buf.subrange(pos, pos + 1 + body.len() + 2)) == seq![sigil] + body,
        (seq![sigil] + body).skip(1) == body,
{
    let h = seq![sigil] + body + resp::crlf();
    let l = buf.subrange(pos, pos + 1 + body.len() + 2);
    assert forall|i: int| 0 <= i < h.len() implies #[trigger] buf[pos + i] == h[i] by {
        assert(l[i] == buf[pos + i]);
    }
    assert forall|i: int| pos <= i < pos + body.len() + 2 implies #[trigger] buf[i] != 10 by {
        assert(buf[pos + (i - pos)] == h[i - pos]);
        if 1 <= i - pos <= body.len() {
            assert(h[i - pos] == body[i - pos - 1]);
        }
    }
    assert(buf[pos + (body.len() + 2)] == h[body.len() as int + 2]);
    scan::lemma_find_is(buf, 10, pos, pos + body.len() + 2);
    let l1 = h.drop_last();
    let l2 = l1.drop_last();
    assert(l2 =~= seq![sigil] + body);
    if body.len() > 0 {
        assert(l2.last() == body.last());
        assert(body[body.len() - 1] != 10);
    }
    assert(scan::strip_eol(l2) == l2);
    assert(scan::strip_eol(l1) == scan::strip_eol(l2));
    assert(scan::strip_eol(h) == scan::strip_eol(l1));
    assert((seq![sigil] + body).skip(1) =~= body);
}

proof fn lemma_number_line(buf: Seq<u8>, pos: int, sigil: u8, n: int)
    requires
        0 <= pos,
        i64::MIN <= n <= i64::MAX,
        pos + 1 + text::dec_signed(n).len() + 2 <= buf.len(),
        sigil != 10 && sigil != 13,
        buf.subrange(pos, pos + 1 + text::dec_signed(n).len() + 2) == seq![sigil]
            + text::dec_signed(n) + resp::crlf(),
    ensures
        scan::find(buf, 10, pos) == pos + text::dec_signed(n).len() + 2,
        scan::strip_eol(buf.subrange(pos, pos + 1 + text::dec_signed(n).len() + 2)) == seq![sigil]
            + text::dec_signed(n),
        (seq![sigil] + text::dec_signed(n)).skip(1) == text::dec_signed(n),
        text::header_signed(text::dec_signed(n)) == Some(n),
{
    let body = text::dec_signed(n);
    text::lemma_dec_signed_valid(n);
    assert(one_line(body)) by {
        assert(body.last() == body[body.len() - 1]);
    }
    lemma_line(buf, pos, sigil, body);
    text::law_signed_round_trip(n);
}

proof fn lemma_reads_back(buf: Seq<u8>, pos: int, r: Resp)
    requires
        0 <= pos,
        sendable(r),
        pos + resp::encoded(r).len() <= buf.len(),
        buf.subrange(pos, pos + resp::encoded(r).len()) == resp::encoded(r),
    ensures
        reply::reply_at(buf, pos) == reply::ReplyScan::Done(
            as_reply(r),
            pos + resp::encoded(r).len(),
        ),
    decreases r, 0int,
{
    let e = resp::encoded(r);
    let l = buf.subrange(pos, pos + e.len());
    match r {
        Resp::Simple(s) => {
            lemma_line(buf, pos, 43, vstd::utf8::encode_utf8(s@));
        },
        Resp::Error(s) => {
            lemma_line(buf, pos, 45, vstd::utf8::encode_utf8(s@));
        },
        Resp::Int(i) => {
            lemma_number_line(buf, pos, 58, i as int);
        },
        Resp::Nil => {
            assert(text::dec_signed(-1) =~= seq![45u8, 49u8]);
            assert(e =~= seq![36u8] + text::dec_signed(-1) + resp::crlf());
            lemma_number_line(buf, pos, 36, -1);
        },
        Resp::Bulk(b) => {
            let d = text::dec_signed(b@.len() as int);
            let h = seq![36u8] + d + resp::crlf();
            assert(e =~= h + (b@ + resp::crlf()));
            assert(l.subrange(0, h.len() as int) =~= buf.subrange(pos, pos + h.len()));
            assert(e.subrange(0, h.len() as int) =~= h);
            lemma_number_line(buf, pos, 36, b@.len() as int);
            let at = pos + h.len();
            assert(buf.subrange(at, at + b@.len()) =~= b@) by {
                assert forall|i: int| 0 <= i < b@.len() implies buf.subrange(at, at + b@.len())[i]
                    == b@[i] by {
                    assert(l[h.len() + i] == buf[at + i]);
                }
            }
        },
        Resp::Array(items) => {
            let d = text::dec_signed(items@.len() as int);
            let h = seq![42u8] + d + resp::crlf();
            let body = resp::encoded_all(items@);
            assert(e =~= h + body);
            assert(l.subrange(0, h.len() as int) =~= buf.subrange(pos, pos + h.len()));
            assert(e.subrange(0, h.len() as int) =~= h);
            lemma_number_line(buf, pos, 42, items@.len() as int);
            let at = pos + h.len();
            assert(buf.subrange(at, at + body.len()) =~= body) by {
                assert forall|i: int| 0 <= i < body.len() implies buf.subrange(
                    at,
                    at + body.len(),
                )[i] == body[i] by {
                    assert(l[h.len() + i] == buf[at + i]);
                }
            }
            assert(decreases_to!(r => r->Array_0));
            assert(decreases_to!(items => items@));
            lemma_all_read_back(buf, at, items@, 0);
            let z = items@.subrange(items@.len() as int, items@.len() as int);
            assert(as_replies(items@) + Seq::<reply::ReplyView>::empty() =~= as_replies(items@));
            assert(items@.subrange(0, 0) =~= Seq::<Resp>::empty());
        },
    }
}

/// The replies from the end of the first `items.len()` on are those of `items`
/// followed by `extra` more.
proof fn lemma_all_read_back(buf: Seq<u8>, pos: int, items: Seq<Resp>, extra: nat)
    requires
        0 <= pos,
        all_sendable(items),
        pos + resp::encoded_all(items).len() <= buf.len(),
        buf.subrange(pos, pos + resp::encoded_all(items).len()) == resp::encoded_all(items),
    ensures
        reply::replies_at(buf, pos, items.len() + extra) == reply::joined(
            as_replies(items),
            reply::replies_at(buf, pos + resp::encoded_all(items).len(), extra),
        ),
    decreases items, 1int,
{
    if items.len() == 0 {
        if let reply::RepliesScan::Done(v, end) = reply::replies_at(buf, pos, extra) {
            assert(Seq::<reply::ReplyView>::empty() + v =~= v);
        }
    } else {
        let front = items.subrange(0, items.len() - 1);
        let last = items[items.len() - 1];
        let fe = resp::encoded_all(front);
        let le = resp::encoded(last);
        let all = resp::encoded_all(items);
        let l = buf.subrange(pos, pos + all.len());
        assert(all == fe + le);
        assert(buf.subrange(pos, pos + fe.len()) =~= fe) by {
            assert(l.subrange(0, fe.len() as int) =~= buf.subrange(pos, pos + fe.len()));
            assert(all.subrange(0, fe.len() as int) =~= fe);
        }
        let mid = pos + fe.len();
        assert(buf.subrange(mid, mid + le.len()) =~= le) by {
            assert forall|i: int| 0 <= i < le.len() implies buf.subrange(mid, mid + le.len())[i]
                == le[i] by {
                assert(l[fe.len() + i] == buf[mid + i]);
            }
        }
        lemma_all_read_back(buf, pos, front, extra + 1);
        lemma_reads_back(buf, mid, last);
        let end = mid + le.len();
        assert(front.len() + (extra + 1) == items.len() + extra);
        if let reply::RepliesScan::Done(v, e) = reply::replies_at(buf, end, extra) {
            assert(as_replies(front) + (seq![as_reply(last)] + v) =~= as_replies(items) + v);
        }
    }
}

/// A client reads back, byte for byte, the value that a server encoded, whatever
/// follows it on the connection.
pub proof fn law_reply_round_trip(r: Resp, tail: Seq<u8>)
    requires
        sendable(r),
    ensures
        reply::reply_at(resp::encoded(r) + tail, 0) == reply::ReplyScan::Done(
            as_reply(r),
            resp::encoded(r).len() as int,
        ),
{
    let buf = resp::encoded(r) + tail;
    assert(buf.subrange(0, resp::encoded(r).len() as int) =~= resp::encoded(r));
    lemma_reads_back(buf, 0, r);
}

} // verus!
