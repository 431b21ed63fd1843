//! The wire protocol, on the server's side and on the client's.
use dbstrike::drain::{
    drain_reply, hit_ids, read_id_dist_array, read_resp_array, read_text, DrainStep, HitsStep,
    PartsStep, ReplyFault, TextStep,
};
use dbstrike::reply::{read_reply, Reply, ReplyStep};
use dbstrike::resp::{
    read_command, try_parse, write_resp_buf, ProtocolError, ReadOutcome, Resp,
};
use dbstrike::wire::{
    calibrate_cmd, encode_command, pad_ids, push_bulk, vadd_cmd, vaddbatch_cmd, vsearch_cmd,
    vsearch_flags_cmd,
};

fn texts(parts: &[&str]) -> Vec<Vec<u8>> {
    parts.iter().map(|p| p.as_bytes().to_vec()).collect()
}

#[test]
fn chunked_large_frame_parses_once() {
    const DIM: usize = 384;
    const NVEC: usize = 64;
    let n_args = 2 + NVEC * (1 + DIM);
    let mut frame: Vec<u8> = format!("*{n_args}\r\n").into_bytes();
    let push = |f: &mut Vec<u8>, s: &str| {
        f.extend_from_slice(format!("${}\r\n{s}\r\n", s.len()).as_bytes());
    };
    push(&mut frame, "VADDBATCH");
    push(&mut frame, &DIM.to_string());
    for i in 0..NVEC {
        push(&mut frame, &i.to_string());
        for j in 0..DIM {
            let v = (i * DIM + j) as f32 * 0.000_123_45;
            push(&mut frame, &format!("{v}"));
        }
    }
    assert!(frame.len() > 300_000, "frame should be a few hundred KB, got {}", frame.len());

    let mut buf: Vec<u8> = Vec::new();
    let mut parsed = 0;
    for chunk in frame.chunks(32 * 1024) {
        buf.extend_from_slice(chunk);
        loop {
            match try_parse(&buf) {
                Ok(Some((cmd, consumed))) => {
                    assert_eq!(cmd.len(), n_args);
                    assert_eq!(cmd[0], b"VADDBATCH");
                    buf.drain(..consumed);
                    parsed += 1;
                }
                Ok(None) => break,
                Err(e) => panic!(
                    "truncated frame misreported as malformed at {} / {} bytes: {}",
                    buf.len(),
                    frame.len(),
                    e.message()
                ),
            }
        }
    }
    assert_eq!(parsed, 1, "expected exactly one complete command");
    assert!(buf.is_empty(), "{} bytes left over", buf.len());
}

#[test]
fn encode_types() {
    assert_eq!(Resp::Simple("OK".into()).encode(), b"+OK\r\n");
    assert_eq!(Resp::Int(42).encode(), b":42\r\n");
    assert_eq!(Resp::Bulk(b"hi".to_vec()).encode(), b"$2\r\nhi\r\n");
    assert_eq!(Resp::Nil.encode(), b"$-1\r\n");
    let arr = Resp::Array(vec![Resp::Int(1), Resp::Bulk(b"x".to_vec())]);
    assert_eq!(arr.encode(), b"*2\r\n:1\r\n$1\r\nx\r\n");
}

#[test]
fn parse_resp_array() {
    let input = b"*3\r\n$3\r\nSET\r\n$3\r\nfoo\r\n$3\r\nbar\r\n";
    match read_command(&input[..], true).unwrap() {
        ReadOutcome::Command(cmd, used) => {
            assert_eq!(cmd, vec![b"SET".to_vec(), b"foo".to_vec(), b"bar".to_vec()]);
            assert_eq!(used, input.len());
        }
        _ => unreachable!(),
    }
}

#[test]
fn parse_inline() {
    let input = b"PING\r\n";
    match read_command(&input[..], true).unwrap() {
        ReadOutcome::Command(cmd, _) => assert_eq!(cmd, vec![b"PING".to_vec()]),
        _ => unreachable!(),
    }
}

#[test]
fn encode_errors_and_negative_numbers() {
    assert_eq!(Resp::Error("ERR no".into()).encode(), b"-ERR no\r\n");
    assert_eq!(Resp::Int(-7).encode(), b":-7\r\n");
    assert_eq!(Resp::Int(i64::MIN).encode(), b":-9223372036854775808\r\n");
    let mut out = b"head".to_vec();
    write_resp_buf(&mut out, &Resp::Nil);
    assert_eq!(out, b"head$-1\r\n");
}

#[test]
fn malformed_frames_are_refused() {
    assert_eq!(try_parse(b"*x\r\n"), Err(ProtocolError::BadArrayHeader));
    assert_eq!(try_parse(b"*1\r\n+OK\r\n"), Err(ProtocolError::ExpectedBulk));
    assert_eq!(try_parse(b"*1\r\n$x\r\n"), Err(ProtocolError::BadBulkLen));
    assert_eq!(try_parse(b"*1\r\n$3\r\nab"), Ok(None));
    assert_eq!(read_command(b"*1\r\n$3\r\nab", true), Err(ProtocolError::UnexpectedEof));
    assert_eq!(read_command(b"*1\r\n$3\r\nab", false), Ok(ReadOutcome::Pending));
    assert_eq!(read_command(b"", true), Ok(ReadOutcome::Closed));
}

#[test]
fn a_sent_command_is_read_back() {
    let args = texts(&["SET", "key with blanks", "väl\r\nue"]);
    let frame = encode_command(&args);
    assert_eq!(try_parse(&frame), Ok(Some((args, frame.len()))));
}

#[test]
fn vector_commands_are_framed() {
    assert_eq!(
        vadd_cmd(7, &texts(&["0.5", "-1"])),
        b"*4\r\n$4\r\nVADD\r\n$1\r\n7\r\n$3\r\n0.5\r\n$2\r\n-1\r\n"
    );
    let flat = texts(&["1", "0", "0", "1"]);
    assert_eq!(
        vaddbatch_cmd(2, &vec![3, 4], &flat, true),
        b"*9\r\n$9\r\nVADDBATCH\r\n$3\r\nPAR\r\n$1\r\n2\r\n$1\r\n3\r\n$1\r\n1\r\n$1\r\n0\r\n$1\r\n4\r\n$1\r\n0\r\n$1\r\n1\r\n"
    );
    let (cmd, _) = try_parse(&vaddbatch_cmd(2, &vec![3, 4], &flat, false)).unwrap().unwrap();
    assert_eq!(cmd, texts(&["VADDBATCH", "2", "3", "1", "0", "4", "0", "1"]));
    assert_eq!(vsearch_cmd(&texts(&["1"])), b"*3\r\n$7\r\nVSEARCH\r\n$2\r\n10\r\n$1\r\n1\r\n");
    let (cmd, _) = try_parse(&vsearch_flags_cmd(5, &texts(&["F", "3"]), &texts(&["1", "2"])))
        .unwrap()
        .unwrap();
    assert_eq!(cmd, texts(&["VSEARCH", "5", "F", "3", "1", "2"]));
    let mut out = Vec::new();
    push_bulk(&mut out, b"VADDBATCH");
    assert_eq!(out, b"$9\r\nVADDBATCH\r\n");
}

#[test]
fn calibration_counts_its_own_arguments() {
    let frame = calibrate_cmd(2, 1, 3, &texts(&["0.1", "0.2"]), &vec![5, 6, 6]);
    let (cmd, used) = try_parse(&frame).unwrap().unwrap();
    assert_eq!(cmd, texts(&["VCALIBRATE", "2", "1", "3", "0.1", "0.2", "5", "6", "6"]));
    assert_eq!(used, frame.len());
    assert_eq!(pad_ids(&vec![4, 9], 4), vec![4, 9, 9, 9]);
    assert_eq!(pad_ids(&vec![], 2), vec![0, 0]);
    assert_eq!(pad_ids(&vec![1, 2, 3], 2), vec![1, 2]);
}

#[test]
fn replies_are_read_with_their_ends() {
    let buf = b"+OK\r\n:12\r\n$-1\r\n*2\r\n$2\r\nhi\r\n:-3\r\n";
    match read_reply(buf, 0) {
        ReplyStep::Reply(r, at) => {
            assert_eq!(r.as_str(), Some("OK".to_string()));
            assert_eq!(at, 5);
        }
        _ => unreachable!(),
    }
    match read_reply(buf, 5) {
        ReplyStep::Reply(r, _) => assert_eq!(r.as_int(), Some(12)),
        _ => unreachable!(),
    }
    match read_reply(buf, 10) {
        ReplyStep::Reply(r, _) => {
            assert!(r.as_bulk().is_none());
            assert!(r.as_str().is_none());
        }
        _ => unreachable!(),
    }
    match read_reply(buf, 15) {
        ReplyStep::Reply(r, at) => {
            let a = r.as_array().unwrap();
            assert_eq!(a[0].as_bulk(), Some(&b"hi"[..]));
            assert_eq!(a[1].as_str(), Some("-3".to_string()));
            assert_eq!(at, buf.len());
        }
        _ => unreachable!(),
    }
    assert!(matches!(read_reply(b"$5\r\nab", 0), ReplyStep::Pending));
    assert!(matches!(read_reply(b"\r\n", 0), ReplyStep::Malformed));
}

#[test]
fn invalid_text_in_replies_is_replaced() {
    let r = Reply::Bulk(Some(vec![0x61, 0xff, 0x62]));
    assert_eq!(r.as_str(), Some("a\u{fffd}b".to_string()));
    assert_eq!(Reply::Simple("é".as_bytes().to_vec()).as_str(), Some("é".to_string()));
    assert_eq!(Reply::Error(b"ERR".to_vec()).as_str(), None);
}

#[test]
fn draining_tells_errors_from_replies() {
    assert_eq!(drain_reply(b"+OK\r\n", 0), DrainStep::Done(5));
    assert_eq!(drain_reply(b"-ERR no\r\n", 0), DrainStep::Failed(ReplyFault::ServerError));
    assert_eq!(drain_reply(b"$x\r\n", 0), DrainStep::Failed(ReplyFault::BadBulkHeader));
    assert_eq!(drain_reply(b"*x\r\n", 0), DrainStep::Failed(ReplyFault::BadArrayHeader));
    assert_eq!(drain_reply(b"?\r\n", 0), DrainStep::Failed(ReplyFault::UnknownKind));
    assert_eq!(drain_reply(b"*2\r\n:1\r\n$2\r\nab\r\n+x\r\n", 0), DrainStep::Done(16));
    assert_eq!(drain_reply(b"*2\r\n:1\r\n$2\r\na", 0), DrainStep::Pending);
}

#[test]
fn hits_are_read_from_either_form() {
    let buf = b"*4\r\n:7\r\n$3\r\n0.5\r\n$2\r\n12\r\n$1\r\n1\r\n";
    match read_id_dist_array(buf, 0) {
        HitsStep::Done(hits, at) => {
            assert_eq!(hit_ids(&hits), vec![7, 12]);
            assert_eq!(hits[0].1, Some(b"0.5".to_vec()));
            assert_eq!(at, buf.len());
        }
        _ => unreachable!(),
    }
    assert_eq!(read_id_dist_array(b"-ERR\r\n", 0), HitsStep::ServerError);
    assert_eq!(read_id_dist_array(b"+OK\r\n", 0), HitsStep::Done(vec![], 5));
    assert_eq!(read_id_dist_array(b"*2\r\n:1\r\n", 0), HitsStep::Pending);
}

#[test]
fn pushed_arrays_and_texts_are_read() {
    let buf = b"*3\r\n$9\r\nsubscribe\r\n$6\r\ntrades\r\n:1\r\n";
    assert_eq!(
        read_resp_array(buf, false),
        PartsStep::Done(texts(&["subscribe", "trades", "1"]), buf.len())
    );
    assert_eq!(read_resp_array(b"+OK\r\n", false), PartsStep::Nothing);
    assert_eq!(read_text(b"$4\r\nlive\r\n", 0), TextStep::Done("live".to_string(), 10));
    assert_eq!(read_text(b"$-1\r\n", 0), TextStep::Done(String::new(), 5));
    assert_eq!(read_text(b"-ERR\r\n", 0), TextStep::Failed(ReplyFault::ServerError));
    assert_eq!(read_text(b"*1\r\n", 0), TextStep::Failed(ReplyFault::UnknownKind));
}

#[test]
fn an_error_within_a_reply_is_not_drained() {
    let nested = b"*2\r\n:1\r\n*1\r\n-ERR deep\r\n";
    assert_eq!(drain_reply(nested, 0), DrainStep::Failed(ReplyFault::ServerError));
    let fine = b"*2\r\n:1\r\n*1\r\n+OK\r\n:9\r\n";
    assert_eq!(drain_reply(fine, 0), DrainStep::Done(17));
    let read = Reply::Array(vec![Reply::Int(1), Reply::Array(vec![Reply::Simple(b"OK".to_vec())])]);
    assert_eq!(read_reply(fine, 0), ReplyStep::Reply(read, 17));
}

#[test]
fn a_frame_that_the_stream_cuts_off_is_an_error() {
    let frame = b"*2\r\n$3\r\nGET\r\n$12\r\nhello world!\r\n";
    assert_eq!(read_command(&frame[..0], true), Ok(ReadOutcome::Closed));
    for cut in 1..frame.len() {
        assert!(read_command(&frame[..cut], true).is_err(), "cut at {cut}");
        assert_eq!(read_command(&frame[..cut], false), Ok(ReadOutcome::Pending));
    }
    let whole = ReadOutcome::Command(texts(&["GET", "hello world!"]), frame.len());
    assert_eq!(read_command(frame, true), Ok(whole));
}

#[test]
fn both_readers_take_the_same_bytes() {
    let frames: [&[u8]; 3] = [
        b"*1\r\r\n$2 \r\nhi\r\nrest",
        b"*2\n$0\n\r\n$1\r\nx\r\n",
        b"*0\r\nPING\r\n",
    ];
    for f in frames {
        let (args, used) = try_parse(f).unwrap().unwrap();
        assert_eq!(read_command(f, false), Ok(ReadOutcome::Command(args, used)));
    }
}

#[test]
fn a_copied_value_is_written_the_same_way() {
    let v = Resp::Array(vec![
        Resp::Simple("OK".to_string()),
        Resp::Array(vec![Resp::Int(-3), Resp::Nil]),
        Resp::Bulk(vec![0, 255]),
        Resp::Error("no".to_string()),
    ]);
    assert_eq!(v.clone(), v);
    assert_eq!(v.clone().encode(), v.encode());
}

#[test]
fn any_form_of_a_command_is_read_once_and_whole() {
    // Lengths with a sign and spaces, a bare line feed, and an inline command.
    for frame in [&b"* 2\n$+3\r\nGET\r\n$1 \nk\r\n"[..], &b"GET  k\n"[..]] {
        let (cmd, used) = try_parse(frame).unwrap().unwrap();
        assert_eq!((cmd, used), (vec![b"GET".to_vec(), b"k".to_vec()], frame.len()));
        for k in 0..frame.len() {
            assert!(matches!(try_parse(&frame[..k]), Ok(None)));
        }
        let mut more = frame.to_vec();
        more.extend_from_slice(b"$$$");
        assert_eq!(try_parse(&more).unwrap().unwrap().1, frame.len());
    }
}
