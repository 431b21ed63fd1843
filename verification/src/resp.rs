//! RESP, the Redis serialization protocol: values to bytes, bytes to commands.
use crate::scan;
use crate::scan::{copy_range, find_byte, line_of, push_all, split_words};
use crate::text;
use crate::text::{parse_header, push_dec, push_dec_signed};
use vstd::prelude::*;

verus! {

/// A RESP value.
#[derive(Debug, PartialEq)]
pub enum Resp {
    Simple(String),
    Error(String),
    Int(i64),
    Bulk(Vec<u8>),
    Nil,
    Array(Vec<Resp>),
}

/// Carriage return and line feed, the end of every line on the wire.
pub open spec fn crlf() -> Seq<u8> {
    seq![13u8, 10u8]
}

/// A bulk string on the wire: its length, then its bytes.
pub open spec fn bulk_frame(p: Seq<u8>) -> Seq<u8> {
    seq![36u8] + text::dec(p.len()) + crlf() + p + crlf()
}

/// Bulk strings on the wire, one after the other.
pub open spec fn bulk_frames(args: Seq<Seq<u8>>) -> Seq<u8>
    decreases args.len(),
{
    if args.len() == 0 {
        Seq::empty()
    } else {
        bulk_frame(args[0]) + bulk_frames(args.skip(1))
    }
}

/// A command on the wire: the number of its arguments, then the arguments.
pub open spec fn command_frame(args: Seq<Seq<u8>>) -> Seq<u8> {
    seq![42u8] + text::dec(args.len()) + crlf() + bulk_frames(args)
}

/// The wire form of a value.
pub open spec fn encoded(r: Resp) -> Seq<u8>
    decreases r,
{
    match r {
        Resp::Simple(s) => seq![43u8] + vstd::utf8::encode_utf8(s@) + crlf(),
        Resp::Error(s) => seq![45u8] + vstd::utf8::encode_utf8(s@) + crlf(),
        Resp::Int(i) => seq![58u8] + text::dec_signed(i as int) + crlf(),
        Resp::Bulk(b) => bulk_frame(b@),
        Resp::Nil => seq![36u8, 45u8, 49u8] + crlf(),
        Resp::Array(items) => seq![42u8] + text::dec(items@.len()) + crlf() + encoded_all(
            items@,
        ),
    }
}

/// The wire forms of the values of a list, one after the other.
pub open spec fn encoded_all(s: Seq<Resp>) -> Seq<u8>
    decreases s,
{
    if s.len() == 0 {
        Seq::empty()
    } else {
        encoded_all(s.subrange(0, s.len() - 1)) + encoded(s[s.len() - 1])
    }
}

fn push_crlf(out: &mut Vec<u8>)
    ensures
        final(out)@ == old(out)@ + crlf(),
{
    out.push(13);
    out.push(10);
    proof {
        assert(out@ =~= old(out)@ + crlf());
    }
}

impl Resp {
    /// Encodes the value to wire bytes.
    pub fn encode(&self) -> (r: Vec<u8>)
        ensures
            r@ == encoded(*self),
    {
        let mut out: Vec<u8> = Vec::new();
        self.encode_into(&mut out);
        proof {
            assert(out@ =~= encoded(*self));
        }
        out
    }

    /// Appends the wire bytes of the value.
    fn encode_into(&self, out: &mut Vec<u8>)
        ensures
            final(out)@ == old(out)@ + encoded(*self),
        decreases *self,
    {
        match self {
            Resp::Simple(s) => {
                out.push(43);
                push_all(out, s.as_str().as_bytes());
                push_crlf(out);
            },
            Resp::Error(s) => {
                out.push(45);
                push_all(out, s.as_str().as_bytes());
                push_crlf(out);
            },
            Resp::Int(i) => {
                out.push(58);
                push_dec_signed(out, *i);
                push_crlf(out);
            },
            Resp::Bulk(b) => {
                out.push(36);
                push_dec(out, b.len() as u64);
                push_crlf(out);
                push_all(out, b.as_slice());
                push_crlf(out);
            },
            Resp::Nil => {
                out.push(36);
                out.push(45);
                out.push(49);
                push_crlf(out);
            },
            Resp::Array(items) => {
                out.push(42);
                push_dec(out, items.len() as u64);
                push_crlf(out);
                let ghost head = out@;
                let mut i: usize = 0;
                proof {
                    assert(items@.take(0) =~= Seq::<Resp>::empty());
                    assert(out@ =~= head + encoded_all(items@.take(0)));
                }
                while i < items.len()
                    invariant
                        i <= items@.len(),
                        *self == Resp::Array(*items),
                        out@ == head + encoded_all(items@.take(i as int)),
                    decreases items@.len() - i,
                {
                    proof {
                        assert(decreases_to!(*self => self->Array_0));
                        assert(decreases_to!(*items => items@));
                        assert(decreases_to!(items@ => items@[i as int]));
                    }
                    items[i].encode_into(out);
                    i = i + 1;
                    proof {
                        let t = items@.take(i as int);
                        assert(t.subrange(0, t.len() - 1) =~= items@.take(i - 1));
                        assert(out@ =~= head + encoded_all(t));
                    }
                }
                proof {
                    assert(items@.take(i as int) =~= items@);
                }
            },
        }
        proof {
            assert(out@ =~= old(out)@ + encoded(*self));
        }
    }
}

/// Whether two values are of one kind and hold the same.
pub open spec fn alike(a: Resp, b: Resp) -> bool
    decreases a,
{
    match (a, b) {
        (Resp::Simple(s), Resp::Simple(t)) => s@ == t@,
        (Resp::Error(s), Resp::Error(t)) => s@ == t@,
        (Resp::Int(i), Resp::Int(j)) => i == j,
        (Resp::Bulk(s), Resp::Bulk(t)) => s@ == t@,
        (Resp::Nil, Resp::Nil) => true,
        (Resp::Array(s), Resp::Array(t)) => all_alike(s@, t@),
        _ => false,
    }
}

/// The same of two lists.
pub open spec fn all_alike(s: Seq<Resp>, t: Seq<Resp>) -> bool
    decreases s,
{
    if s.len() == 0 || t.len() == 0 {
        s.len() == t.len()
    } else {
        all_alike(s.subrange(0, s.len() - 1), t.drop_last()) && alike(
            s[s.len() - 1],
            t[t.len() - 1],
        )
    }
}

impl Clone for Resp {
    fn clone(&self) -> (r: Self)
        ensures
            alike(*self, r),
        decreases *self,
    {
        match self {
            Resp::Simple(s) => Resp::Simple(s.clone()),
            Resp::Error(s) => Resp::Error(s.clone()),
            Resp::Int(i) => Resp::Int(*i),
            Resp::Bulk(b) => {
                let copy = copy_range(b.as_slice(), 0, b.len());
                proof {
                    assert(copy@ =~= b@);
                }
                Resp::Bulk(copy)
            },
            Resp::Nil => Resp::Nil,
            Resp::Array(items) => {
                let mut out: Vec<Resp> = Vec::new();
                let mut i: usize = 0;
                while i < items.len()
                    invariant
                        i <= items@.len(),
                        *self == Resp::Array(*items),
                        out@.len() == i,
                        all_alike(items@.take(i as int), out@),
                    decreases items@.len() - i,
                {
                    proof {
                        assert(decreases_to!(*self => self->Array_0));
                        assert(decreases_to!(*items => items@));
                        assert(decreases_to!(items@ => items@[i as int]));
                    }
                    let ghost before = out@;
                    out.push(items[i].clone());
                    i = i + 1;
                    proof {
                        let t = items@.take(i as int);
                        assert(t.subrange(0, t.len() - 1) =~= items@.take(i - 1));
                        assert(out@.drop_last() =~= before);
                    }
                }
                proof {
                    assert(items@.take(i as int) =~= items@);
                }
                Resp::Array(out)
            },
        }
    }
}

/// Writes a reply behind what a buffer holds. Callers gather several and send them at once.
pub fn write_resp_buf(w: &mut Vec<u8>, resp: &Resp)
    ensures
        final(w)@ == old(w)@ + encoded(*resp),
{
    resp.encode_into(w);
}

/// What can be wrong with bytes that should hold a command.
#[derive(Clone, Copy, Debug, PartialEq, Eq, Structural)]
pub enum ProtocolError {
    BadArrayHeader,
    ExpectedBulk,
    BadBulkLen,
    UnexpectedEof,
}

impl ProtocolError {
    /// The message sent back to the client.
    pub fn message(&self) -> (r: &'static str)
        ensures
            r@ == (match *self {
                ProtocolError::BadArrayHeader => "bad array header"@,
                ProtocolError::ExpectedBulk => "expected bulk string"@,
                ProtocolError::BadBulkLen => "bad bulk len"@,
                ProtocolError::UnexpectedEof => "failed to fill whole buffer"@,
            }),
    {
        match self {
            ProtocolError::BadArrayHeader => "bad array header",
            ProtocolError::ExpectedBulk => "expected bulk string",
            ProtocolError::BadBulkLen => "bad bulk len",
            ProtocolError::UnexpectedEof => "failed to fill whole buffer",
        }
    }
}

/// What the bytes delivered so far amount to.
pub enum Scan {
    /// More bytes are needed.
    Incomplete,
    /// The connection was closed before the first byte.
    Closed,
    /// No further bytes can make this a command.
    Bad(ProtocolError),
    /// A command, and the place just behind it.
    Done(Seq<Seq<u8>>, int),
}

/// `args` in front of the arguments that `s` holds.
pub open spec fn prepend(args: Seq<Seq<u8>>, s: Scan) -> Scan {
    match s {
        Scan::Done(rest, end) => Scan::Done(args + rest, end),
        other => other,
    }
}

/// `count` bulk strings from `pos` on.
pub open spec fn bulks(buf: Seq<u8>, pos: int, count: nat) -> Scan
    decreases count,
{
    if count == 0 {
        Scan::Done(Seq::empty(), pos)
    } else if pos >= buf.len() {
        Scan::Incomplete
    } else if buf[pos] != 36 {
        Scan::Bad(ProtocolError::ExpectedBulk)
    } else {
        let nl = scan::find(buf, 10, pos);
        if nl >= buf.len() {
            Scan::Incomplete
        } else {
            match text::header_number(
                scan::strip_cr(buf.subrange(pos + 1, nl)),
                usize::MAX as nat,
            ) {
                None => Scan::Bad(ProtocolError::BadBulkLen),
                Some(len) => {
                    let at = nl + 1;
                    if at + len + 2 > buf.len() {
                        Scan::Incomplete
                    } else {
                        prepend(
                            seq![buf.subrange(at, at + len)],
                            bulks(buf, at + len + 2, (count - 1) as nat),
                        )
                    }
                },
            }
        }
    }
}

/// The command at the front of `buf`: an array of bulk strings, or a line of words.
pub open spec fn parsed(buf: Seq<u8>) -> Scan {
    let nl = scan::find(buf, 10, 0);
    if nl >= buf.len() {
        Scan::Incomplete
    } else if buf[0] == 42 {
        match text::header_number(
            scan::strip_cr(buf.subrange(1, nl)),
            usize::MAX as nat,
        ) {
            None => Scan::Bad(ProtocolError::BadArrayHeader),
            Some(count) => bulks(buf, nl + 1, count),
        }
    } else {
        Scan::Done(scan::words(scan::strip_cr(buf.take(nl))), nl + 1)
    }
}

/// A copy of `buf[lo..hi]` without one carriage return at its end.
fn copy_header(buf: &[u8], lo: usize, hi: usize) -> (r: Vec<u8>)
    requires
        lo <= hi <= buf@.len(),
    ensures
        r@ == scan::strip_cr(buf@.subrange(lo as int, hi as int)),
{
    if hi > lo && buf[hi - 1] == 13 {
        let r = copy_range(buf, lo, hi - 1);
        proof {
            assert(r@ =~= buf@.subrange(lo as int, hi as int).drop_last());
        }
        r
    } else {
        copy_range(buf, lo, hi)
    }
}

/// Tries to read one command from the front of `buf` without blocking: the command
/// and the number of bytes it took, `None` where more bytes are needed, or an error.
pub fn try_parse(buf: &[u8]) -> (r: Result<Option<(Vec<Vec<u8>>, usize)>, ProtocolError>)
    ensures
        match parsed(buf@) {
            Scan::Done(args, end) => r matches Ok(Some(c)) && scan::parts(c.0@) == args && c.1
                == end,
            Scan::Bad(e) => r == Err::<Option<(Vec<Vec<u8>>, usize)>, ProtocolError>(e),
            _ => r matches Ok(None),
        },
{
    if buf.len() == 0 {
        return Ok(None);
    }
    let nl = find_byte(buf, 10, 0);
    if nl >= buf.len() {
        return Ok(None);
    }
    proof {
        scan::lemma_find(buf@, 10, 0);
    }
    if buf[0] == 42 {
        let count: u64 = match parse_header(copy_header(buf, 1, nl), usize::MAX as u64) {
            None => {
                return Err(ProtocolError::BadArrayHeader);
            },
            Some(n) => n,
        };
        let mut pos: usize = nl + 1;
        let mut args: Vec<Vec<u8>> = Vec::new();
        let mut left: u64 = count;
        proof {
            assert(scan::parts(args@) =~= Seq::<Seq<u8>>::empty());
            let s = bulks(buf@, pos as int, count as nat);
            if let Scan::Done(rest, end) = s {
                assert(Seq::<Seq<u8>>::empty() + rest =~= rest);
            }
        }
        while left > 0
            invariant
                pos <= buf@.len(),
                parsed(buf@) == prepend(
                    scan::parts(args@),
                    bulks(buf@, pos as int, left as nat),
                ),
            decreases left,
        {
            if pos >= buf.len() {
                return Ok(None);
            }
            if buf[pos] != 36 {
                return Err(ProtocolError::ExpectedBulk);
            }
            let bnl = find_byte(buf, 10, pos);
            if bnl >= buf.len() {
                return Ok(None);
            }
            proof {
                scan::lemma_find(buf@, 10, pos as int);
            }
            let len: u64 = match parse_header(copy_header(buf, pos + 1, bnl), usize::MAX as u64) {
                None => {
                    return Err(ProtocolError::BadBulkLen);
                },
                Some(n) => n,
            };
            let at: usize = bnl + 1;
            let room: usize = buf.len() - at;
            if room < 2 || len > (room - 2) as u64 {
                return Ok(None);
            }
            let len: usize = len as usize;
            let arg = copy_range(buf, at, at + len);
            let ghost before = args@;
            args.push(arg);
            pos = at + len + 2;
            left = left - 1;
            proof {
                assert(scan::parts(args@) =~= scan::parts(before) + seq![arg@]);
                if let Scan::Done(rest, end) = bulks(buf@, pos as int, left as nat) {
                    assert(scan::parts(before) + (seq![arg@] + rest)
                        =~= scan::parts(args@) + rest);
                }
            }
        }
        proof {
            assert(scan::parts(args@) + Seq::<Seq<u8>>::empty()
                =~= scan::parts(args@));
        }
        Ok(Some((args, pos)))
    } else {
        let line = copy_header(buf, 0, nl);
        let args = split_words(line.as_slice());
        proof {
            assert(buf@.take(nl as int) =~= buf@.subrange(0, nl as int));
        }
        Ok(Some((args, nl + 1)))
    }
}

/// `count` bulk strings from `pos` on, as a stream hands them out: a header line
/// ends at a line feed or where the stream was closed.
pub open spec fn stream_bulks(buf: Seq<u8>, pos: int, count: nat, closed: bool) -> Scan
    decreases count,
{
    if count == 0 {
        Scan::Done(Seq::empty(), pos)
    } else {
        let nl = scan::find(buf, 10, pos);
        if nl >= buf.len() && !closed {
            Scan::Incomplete
        } else {
            let at = if nl < buf.len() { nl + 1 } else { buf.len() as int };
            let line = scan::strip_eol(buf.subrange(pos, at));
            if line.len() == 0 || line[0] != 36 {
                Scan::Bad(ProtocolError::ExpectedBulk)
            } else {
                match text::header_number(line.skip(1), usize::MAX as nat) {
                    None => Scan::Bad(ProtocolError::BadBulkLen),
                    Some(len) => if at + len + 2 > buf.len() {
                        if closed {
                            Scan::Bad(ProtocolError::UnexpectedEof)
                        } else {
                            Scan::Incomplete
                        }
                    } else {
                        prepend(
                            seq![buf.subrange(at, at + len)],
                            stream_bulks(buf, at + len + 2, (count - 1) as nat, closed),
                        )
                    },
                }
            }
        }
    }
}

/// The command at the front of a stream that has delivered `buf`, and that will
/// deliver more unless it is `closed`.
pub open spec fn stream_parsed(buf: Seq<u8>, closed: bool) -> Scan {
    let nl = scan::find(buf, 10, 0);
    if nl >= buf.len() && !closed {
        Scan::Incomplete
    } else if buf.len() == 0 {
        Scan::Closed
    } else {
        let at = if nl < buf.len() { nl + 1 } else { buf.len() as int };
        let line = scan::strip_eol(buf.take(at));
        if line.len() == 0 {
            Scan::Done(Seq::empty(), at)
        } else if line[0] == 42 {
            match text::header_number(line.skip(1), usize::MAX as nat) {
                None => Scan::Bad(ProtocolError::BadArrayHeader),
                Some(count) => stream_bulks(buf, at, count, closed),
            }
        } else {
            Scan::Done(scan::words(line), at)
        }
    }
}

/// What `read_command` makes of the bytes it was given.
#[derive(Debug, PartialEq)]
pub enum ReadOutcome {
    /// The stream has to deliver more bytes first.
    Pending,
    /// The stream was closed between two commands.
    Closed,
    /// A command, and the number of bytes it took.
    Command(Vec<Vec<u8>>, usize),
}

/// Reads one command from the front of a stream. `buf` is what the stream has
/// delivered and not yet given to a command; `closed` says that nothing will follow.
pub fn read_command(buf: &[u8], closed: bool) -> (r: Result<ReadOutcome, ProtocolError>)
    ensures
        match stream_parsed(buf@, closed) {
            Scan::Incomplete => r matches Ok(ReadOutcome::Pending),
            Scan::Closed => r matches Ok(ReadOutcome::Closed),
            Scan::Bad(e) => r == Err::<ReadOutcome, ProtocolError>(e),
            Scan::Done(args, end) => r matches Ok(ReadOutcome::Command(a, n)) && scan::parts(
                a@,
            ) == args && n == end,
        },
{
    let nl = find_byte(buf, 10, 0);
    if nl >= buf.len() && !closed {
        return Ok(ReadOutcome::Pending);
    }
    if buf.len() == 0 {
        return Ok(ReadOutcome::Closed);
    }
    let at: usize = if nl < buf.len() { nl + 1 } else { buf.len() };
    let first = line_of(buf, 0, at);
    proof {
        assert(buf@.take(at as int) =~= buf@.subrange(0, at as int));
    }
    if first.len() == 0 {
        proof {
            assert(scan::parts(Seq::<Vec<u8>>::empty()) =~= Seq::<Seq<u8>>::empty());
        }
        return Ok(ReadOutcome::Command(Vec::new(), at));
    }
    if first[0] != 42 {
        return Ok(ReadOutcome::Command(split_words(first.as_slice()), at));
    }
    let header = copy_range(first.as_slice(), 1, first.len());
    proof {
        assert(header@ =~= first@.skip(1));
    }
    let count: u64 = match parse_header(header, usize::MAX as u64) {
        None => {
            return Err(ProtocolError::BadArrayHeader);
        },
        Some(n) => n,
    };
    let mut pos: usize = at;
    let mut args: Vec<Vec<u8>> = Vec::new();
    let mut left: u64 = count;
    proof {
        assert(scan::parts(args@) =~= Seq::<Seq<u8>>::empty());
        if let Scan::Done(rest, end) = stream_bulks(buf@, pos as int, count as nat, closed) {
            assert(Seq::<Seq<u8>>::empty() + rest =~= rest);
        }
    }
    while left > 0
        invariant
            pos <= buf@.len(),
            stream_parsed(buf@, closed) == prepend(
                scan::parts(args@),
                stream_bulks(buf@, pos as int, left as nat, closed),
            ),
        decreases left,
    {
        let nl = find_byte(buf, 10, pos);
        if nl >= buf.len() && !closed {
            return Ok(ReadOutcome::Pending);
        }
        let at: usize = if nl < buf.len() { nl + 1 } else { buf.len() };
        let line = line_of(buf, pos, at);
        if line.len() == 0 || line[0] != 36 {
            return Err(ProtocolError::ExpectedBulk);
        }
        let header = copy_range(line.as_slice(), 1, line.len());
        proof {
            assert(header@ =~= line@.skip(1));
        }
        let len: u64 = match parse_header(header, usize::MAX as u64) {
            None => {
                return Err(ProtocolError::BadBulkLen);
            },
            Some(n) => n,
        };
        let room: usize = buf.len() - at;
        if room < 2 || len > (room - 2) as u64 {
            if closed {
                return Err(ProtocolError::UnexpectedEof);
            }
            return Ok(ReadOutcome::Pending);
        }
        let len: usize = len as usize;
        let arg = copy_range(buf, at, at + len);
        let ghost before = args@;
        args.push(arg);
        pos = at + len + 2;
        left = left - 1;
        proof {
            assert(scan::parts(args@) =~= scan::parts(before) + seq![arg@]);
            if let Scan::Done(rest, end) = stream_bulks(buf@, pos as int, left as nat, closed) {
                assert(scan::parts(before) + (seq![arg@] + rest) =~= scan::parts(
                    args@,
                ) + rest);
            }
        }
    }
    proof {
        assert(scan::parts(args@) + Seq::<Seq<u8>>::empty() =~= scan::parts(args@));
    }
    Ok(ReadOutcome::Command(args, pos))
}

} // verus!
