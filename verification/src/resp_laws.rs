//! What a command on the wire reads back as, whole or cut short.
use crate::resp;
use crate::scan;
use crate::text;
use vstd::prelude::*;

verus! {

proof fn lemma_dec_digits(n: nat)
    ensures
        text::dec(n).len() > 0,
        forall|i: int| 0 <= i < text::dec(n).len() ==> 48 <= #[trigger] text::dec(n)[i] <= 57,
    decreases n,
{
    if n >= 10 {
        lemma_dec_digits(n / 10);
    }
}

/// The header line `sigil text::dec(n) CR LF` at `pos`: where it ends and what it says.
pub proof fn lemma_header(buf: Seq<u8>, pos: int, sigil: u8, n: nat)
    requires
        0 <= pos,
        pos + 1 + text::dec(n).len() + 2 <= buf.len(),
        sigil != 10 && sigil != 13,
        buf.subrange(pos, pos + 1 + text::dec(n).len() + 2) == seq![sigil] + text::dec(n) + resp::crlf(),
        n <= usize::MAX,
    ensures
        buf[pos] == sigil,
        scan::find(buf, 10, pos) == pos + text::dec(n).len() + 2,
        text::header_number(
            scan::strip_cr(buf.subrange(pos + 1, pos + text::dec(n).len() + 2)),
            usize::MAX as nat,
        ) == Some(n),
        scan::strip_eol(buf.subrange(pos, pos + 1 + text::dec(n).len() + 2)) == seq![sigil] + text::dec(n),
        text::header_number((seq![sigil] + text::dec(n)).skip(1), usize::MAX as nat) == Some(n),
{
    let d = text::dec(n);
    let h = seq![sigil] + d + resp::crlf();
    let l = buf.subrange(pos, pos + 1 + d.len() + 2);
    lemma_dec_digits(n);
    assert forall|i: int| 0 <= i < h.len() implies #[trigger] buf[pos + i] == h[i] by {
        assert(l[i] == buf[pos + i]);
    }
    assert(buf[pos] == h[0]);
    assert forall|i: int| pos <= i < pos + d.len() + 2 implies #[trigger] buf[i] != 10 by {
        assert(buf[pos + (i - pos)] == h[i - pos]);
        if 1 <= i - pos <= d.len() {
            assert(h[i - pos] == d[i - pos - 1]);
        }
    }
    assert(buf[pos + (d.len() + 2)] == h[d.len() as int + 2]);
    scan::lemma_find_is(buf, 10, pos, pos + d.len() + 2);
    let inner = buf.subrange(pos + 1, pos + d.len() + 2);
    assert(inner =~= d + seq![13u8]) by {
        assert forall|i: int| 0 <= i < inner.len() implies inner[i] == (d + seq![13u8])[i] by {
            assert(inner[i] == buf[pos + (i + 1)]);
        }
    }
    assert(inner.drop_last() =~= d);
    text::law_header_round_trip(n, usize::MAX as nat);
    assert((seq![sigil] + d).skip(1) =~= d);
    // the line feed, then the carriage return, then a digit
    let l1 = h.drop_last();
    let l2 = l1.drop_last();
    assert(l2 =~= seq![sigil] + d);
    assert(l2.last() == d[d.len() - 1]);
    assert(scan::strip_eol(l2) == l2);
    assert(scan::strip_eol(l1) == scan::strip_eol(l2));
    assert(scan::strip_eol(h) == scan::strip_eol(l1));
}

pub open spec fn fits(args: Seq<Seq<u8>>) -> bool {
    &&& args.len() <= usize::MAX
    &&& forall|i: int| 0 <= i < args.len() ==> (#[trigger] args[i]).len() <= usize::MAX
}

proof fn lemma_bulks_read(buf: Seq<u8>, pos: int, args: Seq<Seq<u8>>, closed: bool)
    requires
        0 <= pos,
        fits(args),
        pos + resp::bulk_frames(args).len() <= buf.len(),
        buf.subrange(pos, pos + resp::bulk_frames(args).len()) == resp::bulk_frames(args),
    ensures
        resp::bulks(buf, pos, args.len()) == resp::Scan::Done(args, pos + resp::bulk_frames(args).len()),
        resp::stream_bulks(buf, pos, args.len(), closed) == resp::Scan::Done(
            args,
            pos + resp::bulk_frames(args).len(),
        ),
    decreases args.len(),
{
    if args.len() == 0 {
        assert(args =~= Seq::<Seq<u8>>::empty());
    } else {
        let p = args[0];
        let rest = args.skip(1);
        let d = text::dec(p.len());
        let f = resp::bulk_frame(p);
        let all = resp::bulk_frames(args);
        let l = buf.subrange(pos, pos + all.len());
        assert(all == f + resp::bulk_frames(rest));
        assert(l.subrange(0, 1 + d.len() as int + 2) =~= buf.subrange(
            pos,
            pos + 1 + d.len() + 2,
        ));
        assert(all.subrange(0, 1 + d.len() as int + 2) =~= seq![36u8] + d + resp::crlf());
        lemma_header(buf, pos, 36, p.len());
        let at = pos + d.len() + 3;
        assert(buf.subrange(at, at + p.len()) =~= p) by {
            assert forall|i: int| 0 <= i < p.len() implies buf.subrange(at, at + p.len())[i]
                == p[i] by {
                assert(l[d.len() + 3 + i] == buf[at + i]);
                assert(all[d.len() + 3 + i] == p[i]);
            }
        }
        let next = at + p.len() + 2;
        assert(buf.subrange(next, next + resp::bulk_frames(rest).len()) =~= resp::bulk_frames(rest)) by {
            assert forall|i: int| 0 <= i < resp::bulk_frames(rest).len() implies buf.subrange(
                next,
                next + resp::bulk_frames(rest).len(),
            )[i] == resp::bulk_frames(rest)[i] by {
                assert(l[f.len() + i] == buf[next + i]);
                assert(all[f.len() + i] == resp::bulk_frames(rest)[i]);
            }
        }
        assert(fits(rest)) by {
            assert forall|i: int| 0 <= i < rest.len() implies (#[trigger] rest[i]).len()
                <= usize::MAX by {
                assert(args[i + 1].len() <= usize::MAX);
            }
        }
        lemma_bulks_read(buf, next, rest, closed);
        assert(seq![p] + rest =~= args);
        scan::lemma_find(buf, 10, pos);
    }
}

/// Nothing of `buf` from `pos` on is a line feed, so no line ends there.
proof fn lemma_no_line(buf: Seq<u8>, pos: int)
    requires
        0 <= pos <= buf.len(),
        forall|i: int| pos <= i < buf.len() ==> #[trigger] buf[i] != 10,
    ensures
        scan::find(buf, 10, pos) == buf.len(),
{
    scan::lemma_find_is(buf, 10, pos, buf.len() as int);
}

/// A first byte that ends no line stays when the ends of lines are stripped.
proof fn lemma_strip_keeps_first(s: Seq<u8>)
    requires
        s.len() > 0,
        s[0] != 13 && s[0] != 10,
    ensures
        scan::strip_eol(s).len() > 0,
        scan::strip_eol(s)[0] == s[0],
    decreases s.len(),
{
    if s.last() == 13 || s.last() == 10 {
        lemma_strip_keeps_first(s.drop_last());
    }
}

proof fn lemma_bulks_cut(buf: Seq<u8>, pos: int, args: Seq<Seq<u8>>)
    requires
        0 <= pos <= buf.len(),
        fits(args),
        buf.len() - pos < resp::bulk_frames(args).len(),
        buf.skip(pos) == resp::bulk_frames(args).take(buf.len() - pos),
    ensures
        resp::bulks(buf, pos, args.len()) == resp::Scan::Incomplete,
        resp::stream_bulks(buf, pos, args.len(), false) == resp::Scan::Incomplete,
        resp::stream_bulks(buf, pos, args.len(), true) is Bad,
    decreases args.len(),
{
    let p = args[0];
    let rest = args.skip(1);
    let d = text::dec(p.len());
    let f = resp::bulk_frame(p);
    let all = resp::bulk_frames(args);
    let k = buf.len() - pos;
    assert(all == f + resp::bulk_frames(rest));
    lemma_dec_digits(p.len());
    assert forall|i: int| 0 <= i < k implies #[trigger] buf[pos + i] == all[i] by {
        assert(buf.skip(pos)[i] == all.take(k)[i]);
    }
    if k < 1 + d.len() + 2 {
        assert forall|i: int| pos <= i < buf.len() implies #[trigger] buf[i] != 10 by {
            assert(buf[pos + (i - pos)] == all[i - pos]);
            if 1 <= i - pos <= d.len() {
                assert(all[i - pos] == d[i - pos - 1]);
            }
        }
        lemma_no_line(buf, pos);
        if k > 0 {
            assert(buf[pos + 0] == all[0]);
            let line = buf.subrange(pos, buf.len() as int);
            lemma_strip_keeps_first(line);
            assert(line[0] == 36);
        }
    } else {
        assert(buf.subrange(pos, pos + 1 + d.len() + 2) =~= seq![36u8] + d + resp::crlf()) by {
            assert forall|i: int| 0 <= i < 1 + d.len() + 2 implies buf.subrange(
                pos,
                pos + 1 + d.len() + 2,
            )[i] == (seq![36u8] + d + resp::crlf())[i] by {
                assert(buf[pos + i] == all[i]);
            }
        }
        lemma_header(buf, pos, 36, p.len());
        scan::lemma_find(buf, 10, pos);
        let at = pos + d.len() + 3;
        let next = at + p.len() + 2;
        if k >= f.len() {
            assert(fits(rest)) by {
                assert forall|i: int| 0 <= i < rest.len() implies (#[trigger] rest[i]).len()
                    <= usize::MAX by {
                    assert(args[i + 1].len() <= usize::MAX);
                }
            }
            assert(buf.skip(next) =~= resp::bulk_frames(rest).take(buf.len() - next)) by {
                assert forall|i: int| 0 <= i < buf.len() - next implies buf.skip(next)[i]
                    == resp::bulk_frames(rest)[i] by {
                    assert(buf[pos + (f.len() + i)] == all[f.len() + i]);
                }
            }
            lemma_bulks_cut(buf, next, rest);
        }
    }
}

/// A command that was framed reads back as itself, whatever bytes follow it, by
/// either reader, and takes exactly the bytes of its frame.
pub proof fn law_command_round_trip(args: Seq<Seq<u8>>, tail: Seq<u8>, closed: bool)
    requires
        fits(args),
    ensures
        resp::parsed(resp::command_frame(args) + tail) == resp::Scan::Done(args, resp::command_frame(args).len() as int),
        resp::stream_parsed(resp::command_frame(args) + tail, closed) == resp::Scan::Done(
            args,
            resp::command_frame(args).len() as int,
        ),
{
    let f = resp::command_frame(args);
    let buf = f + tail;
    let d = text::dec(args.len());
    let bf = resp::bulk_frames(args);
    assert(buf.subrange(0, 1 + d.len() as int + 2) =~= seq![42u8] + d + resp::crlf());
    lemma_header(buf, 0, 42, args.len());
    let at = d.len() as int + 3;
    assert(buf.subrange(at, at + bf.len()) =~= bf);
    lemma_bulks_read(buf, at, args, closed);
    scan::lemma_find(buf, 10, 0);
    assert(buf.take(at) =~= buf.subrange(0, at));
}

/// A frame that was cut short is never taken for a malformed one, nor for a
/// shorter command: every proper prefix of it asks for more bytes.
pub proof fn law_prefix_is_incomplete(args: Seq<Seq<u8>>, k: int)
    requires
        fits(args),
        0 <= k < resp::command_frame(args).len(),
    ensures
        resp::parsed(resp::command_frame(args).take(k)) == resp::Scan::Incomplete,
        resp::stream_parsed(resp::command_frame(args).take(k), false) == resp::Scan::Incomplete,
{
    let f = resp::command_frame(args);
    let buf = f.take(k);
    let d = text::dec(args.len());
    let bf = resp::bulk_frames(args);
    let at = d.len() as int + 3;
    lemma_dec_digits(args.len());
    if k < at {
        assert forall|i: int| 0 <= i < buf.len() implies #[trigger] buf[i] != 10 by {
            assert(buf[i] == f[i]);
            if 1 <= i <= d.len() {
                assert(f[i] == d[i - 1]);
            }
        }
        lemma_no_line(buf, 0);
    } else {
        assert(buf.subrange(0, at) =~= seq![42u8] + d + resp::crlf());
        lemma_header(buf, 0, 42, args.len());
        scan::lemma_find(buf, 10, 0);
        assert(buf.skip(at) =~= bf.take(k - at));
        assert(buf.take(at) =~= buf.subrange(0, at));
        lemma_bulks_cut(buf, at, args);
    }
}

/// A frame that the end of the stream cuts off is an error, never a clean end nor a shorter
/// command; a stream that ends before the frame begins is closed.
pub proof fn law_cut_frame_is_an_error(args: Seq<Seq<u8>>, k: int)
    requires
        fits(args),
        args.len() > 0,
        0 <= k < resp::command_frame(args).len(),
    ensures
        k == 0 ==> resp::stream_parsed(resp::command_frame(args).take(k), true) is Closed,
        k > 0 ==> resp::stream_parsed(resp::command_frame(args).take(k), true) is Bad,
{
    let f = resp::command_frame(args);
    let buf = f.take(k);
    let d = text::dec(args.len());
    let bf = resp::bulk_frames(args);
    let at = d.len() as int + 3;
    lemma_dec_digits(args.len());
    if k == 0 {
    } else if k < at {
        assert forall|i: int| 0 <= i < buf.len() implies #[trigger] buf[i] != 10 by {
            assert(buf[i] == f[i]);
            if 1 <= i <= d.len() {
                assert(f[i] == d[i - 1]);
            }
        }
        lemma_no_line(buf, 0);
        assert(buf.take(k) =~= buf);
        lemma_strip_keeps_first(buf);
        let j = if k - 1 < d.len() { k - 1 } else { d.len() as int };
        let kept = seq![42u8] + d.take(j);
        assert(scan::strip_eol(buf) == kept) by {
            if k == at - 1 {
                assert(buf.last() == 13);
                assert(buf.drop_last() =~= kept);
            } else {
                assert(buf =~= kept);
            }
            if j > 0 {
                assert(kept.last() == d[j - 1]);
            }
            assert(scan::strip_eol(kept) == kept);
        }
        assert(kept.skip(1) =~= d.take(j));
        if j == 0 {
            assert(d.take(0) =~= Seq::<u8>::empty());
            text::lemma_header_empty(usize::MAX as nat);
        } else {
            let m = text::lemma_dec_prefix(args.len(), j);
            text::law_header_round_trip(m, usize::MAX as nat);
            lemma_no_line(buf, k);
            assert(buf.subrange(k, k) =~= Seq::<u8>::empty());
        }
    } else {
        assert(buf.subrange(0, at) =~= seq![42u8] + d + resp::crlf());
        lemma_header(buf, 0, 42, args.len());
        scan::lemma_find(buf, 10, 0);
        assert(buf.skip(at) =~= bf.take(k - at));
        assert(buf.take(at) =~= buf.subrange(0, at));
        lemma_bulks_cut(buf, at, args);
    }
}

/// A header reads the same without the carriage returns behind it.
proof fn lemma_line_number(sigil: u8, y: Seq<u8>)
    requires
        sigil != 13 && sigil != 10,
        forall|i: int| 0 <= i < y.len() ==> #[trigger] y[i] != 10,
        text::header_number(y, usize::MAX as nat) is Some,
    ensures
        scan::strip_eol(seq![sigil] + y).len() > 0,
        scan::strip_eol(seq![sigil] + y)[0] == sigil,
        text::header_number(scan::strip_eol(seq![sigil] + y).skip(1), usize::MAX as nat)
            == text::header_number(y, usize::MAX as nat),
    decreases y.len(),
{
    let l = seq![sigil] + y;
    if y.len() > 0 && y.last() == 13 {
        text::lemma_header_behind(y, usize::MAX as nat);
        assert(l.drop_last() =~= seq![sigil] + y.drop_last());
        lemma_line_number(sigil, y.drop_last());
    } else {
        if y.len() > 0 {
            assert(y[y.len() - 1] != 10);
        }
        assert(scan::strip_eol(l) == l);
        assert(l.skip(1) =~= y);
    }
}

/// The two readers agree on a header line that one of them can read.
proof fn lemma_headers_agree(buf: Seq<u8>, pos: int)
    requires
        0 <= pos < buf.len(),
        buf[pos] != 13 && buf[pos] != 10,
        scan::find(buf, 10, pos) < buf.len(),
        text::header_number(
            scan::strip_cr(buf.subrange(pos + 1, scan::find(buf, 10, pos))),
            usize::MAX as nat,
        ) is Some,
    ensures
        pos < scan::find(buf, 10, pos),
        ({
            let nl = scan::find(buf, 10, pos);
            let line = scan::strip_eol(buf.subrange(pos, nl + 1));
            &&& line.len() > 0
            &&& line[0] == buf[pos]
            &&& text::header_number(line.skip(1), usize::MAX as nat) == text::header_number(
                scan::strip_cr(buf.subrange(pos + 1, nl)),
                usize::MAX as nat,
            )
        }),
{
    scan::lemma_find(buf, 10, pos);
    let nl = scan::find(buf, 10, pos);
    let x = buf.subrange(pos + 1, nl);
    let y = scan::strip_cr(x);
    let whole = buf.subrange(pos, nl + 1);
    assert(whole.last() == 10);
    assert(whole.drop_last() =~= seq![buf[pos]] + x);
    assert forall|i: int| 0 <= i < x.len() implies #[trigger] x[i] != 10 by {
        assert(buf[pos + 1 + i] != 10);
    }
    let l = seq![buf[pos]] + x;
    assert(scan::strip_eol(whole) == scan::strip_eol(l));
    if x.len() > 0 && x.last() == 13 {
        assert(l.last() == 13);
        assert(l.drop_last() =~= seq![buf[pos]] + y);
    }
    assert(scan::strip_eol(l) == scan::strip_eol(seq![buf[pos]] + y));
    assert forall|i: int| 0 <= i < y.len() implies #[trigger] y[i] != 10 by {
        assert(y[i] == x[i]);
    }
    lemma_line_number(buf[pos], y);
}

proof fn lemma_bulks_agree(buf: Seq<u8>, pos: int, count: nat, closed: bool)
    requires
        0 <= pos <= buf.len(),
        resp::bulks(buf, pos, count) is Done,
    ensures
        resp::stream_bulks(buf, pos, count, closed) == resp::bulks(buf, pos, count),
    decreases count,
{
    if count > 0 {
        scan::lemma_find(buf, 10, pos);
        let nl = scan::find(buf, 10, pos);
        lemma_headers_agree(buf, pos);
        if let Some(len) = text::header_number(
            scan::strip_cr(buf.subrange(pos + 1, nl)),
            usize::MAX as nat,
        ) {
            lemma_bulks_agree(buf, nl + 1 + len + 2, (count - 1) as nat, closed);
        }
    }
}

/// What `try_parse` takes for a framed command, `read_command` reads the same way, and it uses
/// the same bytes.
pub proof fn law_readers_agree(buf: Seq<u8>, closed: bool)
    requires
        buf.len() > 0,
        buf[0] == 42,
        resp::parsed(buf) is Done,
    ensures
        resp::stream_parsed(buf, closed) == resp::parsed(buf),
{
    scan::lemma_find(buf, 10, 0);
    let nl = scan::find(buf, 10, 0);
    lemma_headers_agree(buf, 0);
    assert(buf.take(nl + 1) =~= buf.subrange(0, nl + 1));
    if let Some(count) = text::header_number(
        scan::strip_cr(buf.subrange(1, nl)),
        usize::MAX as nat,
    ) {
        lemma_bulks_agree(buf, nl + 1, count, closed);
    }
}

proof fn lemma_bulks_end(buf: Seq<u8>, pos: int, count: nat)
    requires
        0 <= pos <= buf.len(),
    ensures
        resp::bulks(buf, pos, count) matches resp::Scan::Done(args, end) ==> pos <= end <= buf.len()
            && args.len() == count,
    decreases count,
{
    if count > 0 && pos < buf.len() {
        scan::lemma_find(buf, 10, pos);
        let nl = scan::find(buf, 10, pos);
        if nl < buf.len() {
            if let Some(len) = text::header_number(
                scan::strip_cr(buf.subrange(pos + 1, nl)),
                usize::MAX as nat,
            ) {
                if nl + 1 + len + 2 <= buf.len() {
                    lemma_bulks_end(buf, nl + 1 + len + 2, (count - 1) as nat);
                }
            }
        }
    }
}

/// A command takes at least one byte of the buffer, and no more than there are.
pub proof fn law_consumed_in_range(buf: Seq<u8>)
    ensures
        resp::parsed(buf) matches resp::Scan::Done(_, end) ==> 0 < end <= buf.len(),
{
    scan::lemma_find(buf, 10, 0);
    let nl = scan::find(buf, 10, 0);
    if nl < buf.len() && buf[0] == 42 {
        if let Some(count) = text::header_number(scan::strip_cr(buf.subrange(1, nl)), usize::MAX as nat) {
            lemma_bulks_end(buf, nl + 1, count);
        }
    }
}

/// A line that ends within a buffer ends at the same place with more bytes behind it.
proof fn lemma_find_with_tail(buf: Seq<u8>, tail: Seq<u8>, pos: int)
    requires
        0 <= pos <= buf.len(),
        scan::find(buf, 10, pos) < buf.len(),
    ensures
        pos <= scan::find(buf, 10, pos),
        scan::find(buf + tail, 10, pos) == scan::find(buf, 10, pos),
{
    scan::lemma_find(buf, 10, pos);
    scan::lemma_find_is(buf + tail, 10, pos, scan::find(buf, 10, pos));
}

/// A line that ends before a cut ends there still; one that does not, ends no more.
proof fn lemma_find_in_cut(buf: Seq<u8>, k: int, pos: int)
    requires
        0 <= pos <= k <= buf.len(),
    ensures
        pos <= scan::find(buf, 10, pos),
        scan::find(buf.take(k), 10, pos) == (if scan::find(buf, 10, pos) < k {
            scan::find(buf, 10, pos)
        } else {
            k
        }),
{
    scan::lemma_find(buf, 10, pos);
    let nl = scan::find(buf, 10, pos);
    scan::lemma_find_is(buf.take(k), 10, pos, if nl < k { nl } else { k });
}

proof fn lemma_bulks_with_tail(buf: Seq<u8>, tail: Seq<u8>, pos: int, count: nat)
    requires
        0 <= pos <= buf.len(),
    ensures
        !(resp::bulks(buf, pos, count) is Incomplete) ==> resp::bulks(buf + tail, pos, count)
            == resp::bulks(buf, pos, count),
        !(resp::stream_bulks(buf, pos, count, false) is Incomplete) ==> resp::stream_bulks(
            buf + tail,
            pos,
            count,
            false,
        ) == resp::stream_bulks(buf, pos, count, false),
    decreases count,
{
    let all = buf + tail;
    let nl = scan::find(buf, 10, pos);
    if count > 0 && nl < buf.len() {
        lemma_find_with_tail(buf, tail, pos);
        assert(all.subrange(pos, nl + 1) =~= buf.subrange(pos, nl + 1));
        assert(all[pos] == buf[pos]);
        if pos < nl {
            assert(all.subrange(pos + 1, nl) =~= buf.subrange(pos + 1, nl));
            if let Some(len) = text::header_number(
                scan::strip_cr(buf.subrange(pos + 1, nl)),
                usize::MAX as nat,
            ) {
                if nl + 1 + len + 2 <= buf.len() {
                    assert(all.subrange(nl + 1, nl + 1 + len) =~= buf.subrange(nl + 1, nl + 1 + len));
                    lemma_bulks_with_tail(buf, tail, nl + 1 + len + 2, (count - 1) as nat);
                }
            }
        } else {
            assert(buf[pos] == 10) by {
                scan::lemma_find(buf, 10, pos);
            }
        }
        let line = scan::strip_eol(buf.subrange(pos, nl + 1));
        if line.len() > 0 {
            if let Some(len) = text::header_number(line.skip(1), usize::MAX as nat) {
                if nl + 1 + len + 2 <= buf.len() {
                    assert(all.subrange(nl + 1, nl + 1 + len) =~= buf.subrange(nl + 1, nl + 1 + len));
                    lemma_bulks_with_tail(buf, tail, nl + 1 + len + 2, (count - 1) as nat);
                }
            }
        }
    } else if count > 0 && pos < buf.len() {
        assert(all[pos] == buf[pos]);
    }
}

/// Bytes behind what was read change nothing: a buffer that holds a whole command, or that is
/// malformed, reads the same whatever follows, by either reader.
pub proof fn law_tail_changes_nothing(buf: Seq<u8>, tail: Seq<u8>)
    ensures
        !(resp::parsed(buf) is Incomplete) ==> resp::parsed(buf + tail) == resp::parsed(buf),
        !(resp::stream_parsed(buf, false) is Incomplete) ==> resp::stream_parsed(buf + tail, false)
            == resp::stream_parsed(buf, false),
{
    let all = buf + tail;
    let nl = scan::find(buf, 10, 0);
    if nl < buf.len() {
        lemma_find_with_tail(buf, tail, 0);
        assert(all[0] == buf[0]);
        assert(all.take(nl) =~= buf.take(nl));
        assert(all.take(nl + 1) =~= buf.take(nl + 1));
        if buf[0] == 42 {
            assert(nl > 0) by {
                scan::lemma_find(buf, 10, 0);
            }
            assert(all.subrange(1, nl) =~= buf.subrange(1, nl));
            if let Some(count) = text::header_number(
                scan::strip_cr(buf.subrange(1, nl)),
                usize::MAX as nat,
            ) {
                lemma_bulks_with_tail(buf, tail, nl + 1, count);
            }
        }
        let line = scan::strip_eol(buf.take(nl + 1));
        if line.len() > 0 {
            if let Some(count) = text::header_number(line.skip(1), usize::MAX as nat) {
                lemma_bulks_with_tail(buf, tail, nl + 1, count);
            }
        }
    }
}

proof fn lemma_bulks_before_end(buf: Seq<u8>, k: int, pos: int, count: nat)
    requires
        0 <= pos <= k <= buf.len(),
    ensures
        resp::bulks(buf, pos, count) matches resp::Scan::Done(_, end) ==> k < end ==> resp::bulks(
            buf.take(k),
            pos,
            count,
        ) is Incomplete,
        resp::stream_bulks(buf, pos, count, false) matches resp::Scan::Done(_, end) ==> k < end
            ==> resp::stream_bulks(buf.take(k), pos, count, false) is Incomplete,
    decreases count,
{
    let cut = buf.take(k);
    let nl = scan::find(buf, 10, pos);
    if count > 0 {
        lemma_find_in_cut(buf, k, pos);
        if pos < k {
            assert(cut[pos] == buf[pos]);
        }
        if nl < k {
            assert(cut.subrange(pos, nl + 1) =~= buf.subrange(pos, nl + 1));
            if pos < nl {
                assert(cut.subrange(pos + 1, nl) =~= buf.subrange(pos + 1, nl));
                if let Some(len) = text::header_number(
                    scan::strip_cr(buf.subrange(pos + 1, nl)),
                    usize::MAX as nat,
                ) {
                    if nl + 1 + len + 2 <= k {
                        lemma_bulks_before_end(buf, k, nl + 1 + len + 2, (count - 1) as nat);
                    }
                }
            } else {
                assert(buf[pos] == 10) by {
                    scan::lemma_find(buf, 10, pos);
                }
            }
            let line = scan::strip_eol(buf.subrange(pos, nl + 1));
            if line.len() > 0 {
                if let Some(len) = text::header_number(line.skip(1), usize::MAX as nat) {
                    if nl + 1 + len + 2 <= k {
                        lemma_bulks_before_end(buf, k, nl + 1 + len + 2, (count - 1) as nat);
                    }
                }
            }
        }
    }
}

/// Whatever the form of a command on the wire, every proper prefix of it asks for more bytes,
/// by either reader: it is never taken for a malformed command nor for a shorter one.
pub proof fn law_cut_asks_for_more(buf: Seq<u8>, k: int)
    requires
        0 <= k <= buf.len(),
    ensures
        resp::parsed(buf) matches resp::Scan::Done(_, end) ==> k < end ==> resp::parsed(buf.take(k))
            == resp::Scan::Incomplete,
        resp::stream_parsed(buf, false) matches resp::Scan::Done(_, end) ==> k < end
            ==> resp::stream_parsed(buf.take(k), false) == resp::Scan::Incomplete,
{
    let cut = buf.take(k);
    let nl = scan::find(buf, 10, 0);
    lemma_find_in_cut(buf, k, 0);
    if nl < k {
        assert(cut[0] == buf[0]);
        assert(cut.take(nl) =~= buf.take(nl));
        assert(cut.take(nl + 1) =~= buf.take(nl + 1));
        if buf[0] == 42 {
            assert(nl > 0) by {
                scan::lemma_find(buf, 10, 0);
            }
            assert(cut.subrange(1, nl) =~= buf.subrange(1, nl));
            if let Some(count) = text::header_number(
                scan::strip_cr(buf.subrange(1, nl)),
                usize::MAX as nat,
            ) {
                lemma_bulks_before_end(buf, k, nl + 1, count);
            }
        }
        let line = scan::strip_eol(buf.take(nl + 1));
        if line.len() > 0 {
            if let Some(count) = text::header_number(line.skip(1), usize::MAX as nat) {
                lemma_bulks_before_end(buf, k, nl + 1, count);
            }
        }
    }
}

/// The first byte of a value on the wire tells its kind, and every value ends its last line.
pub proof fn law_first_byte_tells_the_kind(r: resp::Resp)
    ensures
        resp::encoded(r)[0] as char == (match r {
            resp::Resp::Simple(_) => '+',
            resp::Resp::Error(_) => '-',
            resp::Resp::Int(_) => ':',
            resp::Resp::Bulk(_) => '$',
            resp::Resp::Nil => '$',
            resp::Resp::Array(_) => '*',
        }),
        !(r is Array) ==> resp::encoded(r).len() >= 3 && resp::encoded(r)[resp::encoded(r).len() - 2]
            == 13 && resp::encoded(r).last() == 10,
        r is Nil ==> resp::encoded(r) == seq![36u8, 45u8, 49u8, 13u8, 10u8],
{
    if r is Nil {
        assert(resp::encoded(r) =~= seq![36u8, 45u8, 49u8, 13u8, 10u8]);
    }
}

/// A line that does not begin with a star is a command of its words: it takes its bytes and the
/// line end, with a carriage return or without.
pub proof fn law_plain_line_is_a_command(line: Seq<u8>, tail: Seq<u8>)
    requires
        line.len() > 0,
        line[0] != 42,
        line.last() != 13,
        forall|i: int| 0 <= i < line.len() ==> #[trigger] line[i] != 10,
    ensures
        resp::parsed(line + seq![13u8, 10u8] + tail) == resp::Scan::Done(
            scan::words(line),
            line.len() as int + 2,
        ),
        resp::parsed(line + seq![10u8] + tail) == resp::Scan::Done(
            scan::words(line),
            line.len() as int + 1,
        ),
{
    let a = line + seq![13u8, 10u8] + tail;
    let b = line + seq![10u8] + tail;
    assert forall|i: int| 0 <= i < line.len() + 1 implies #[trigger] a[i] != 10 by {
        if i < line.len() {
            assert(a[i] == line[i]);
        }
    }
    assert forall|i: int| 0 <= i < line.len() implies #[trigger] b[i] != 10 by {
        assert(b[i] == line[i]);
    }
    scan::lemma_find_is(a, 10, 0, line.len() as int + 1);
    scan::lemma_find_is(b, 10, 0, line.len() as int);
    assert(a.take(line.len() as int + 1) =~= line.push(13));
    assert(line.push(13).drop_last() =~= line);
    assert(b.take(line.len() as int) =~= line);
}

/// An array whose first argument is no bulk string is malformed, whatever follows.
pub proof fn law_arguments_are_bulk_strings(n: nat, b: u8, tail: Seq<u8>)
    requires
        0 < n <= usize::MAX,
        b != 36,
    ensures
        resp::parsed(seq![42u8] + text::dec(n) + resp::crlf() + seq![b] + tail) == resp::Scan::Bad(
            resp::ProtocolError::ExpectedBulk,
        ),
{
    let d = text::dec(n);
    let buf = seq![42u8] + d + resp::crlf() + seq![b] + tail;
    assert(buf.subrange(0, (1 + d.len() + 2) as int) =~= seq![42u8] + d + resp::crlf());
    lemma_header(buf, 0, 42, n);
    assert(buf[d.len() as int + 3] == b);
}

} // verus!
