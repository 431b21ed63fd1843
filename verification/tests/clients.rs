//! The consoles that talk to the server.
use dbstrike::agent::{
    embed, history_from, print_hits, print_neighbors, read_command, request, turn_key,
    AgentCommand,
};
use dbstrike::chat::{
    deliver, joined_payload, message_channel, message_payload, presence_key, probe_payload,
    push_line, read_chat_line, read_push, typing_channel, typing_payload, who_in_room, ChatLine,
    Push,
};
use dbstrike::dashboard::{
    bench_window, closing_line, read_window, render_row, sparkline, summarize, window_start,
    Summary,
};
use dbstrike::layout::{field_mb, push_left, push_right, status_field};
use dbstrike::options::{arg, flag, number, value};
use dbstrike::reducer::fnv_hash;
use dbstrike::reply::Reply;
use dbstrike::text::{
    chars_of, dec_string, parse_header, parse_header_signed, parse_signed, parse_unsigned,
    signed_string, trim,
};
use dbstrike::words::{
    cut_once, ends_in, find_part, join_from, split_lines, split_white, strip_head, trim_text,
};

fn strings(parts: &[&str]) -> Vec<String> {
    parts.iter().map(|p| p.to_string()).collect()
}

fn bulk(s: &str) -> Reply {
    Reply::Bulk(Some(s.as_bytes().to_vec()))
}

#[test]
fn typed_lines_are_understood() {
    assert_eq!(read_command("  \n"), AgentCommand::Empty);
    assert_eq!(read_command(":q"), AgentCommand::Quit);
    assert_eq!(read_command(":remember a fact"), AgentCommand::Remember("a fact".into()));
    assert_eq!(read_command(":recall x y"), AgentCommand::Recall("x y".into()));
    assert_eq!(
        read_command(":link 1  knows 2"),
        AgentCommand::Link("1".into(), "knows".into(), "2".into())
    );
    assert_eq!(read_command(":link 1 2"), AgentCommand::LinkUsage);
    assert_eq!(read_command(":neigh  7 "), AgentCommand::Neigh("7".into()));
    assert_eq!(
        read_command(":fact sky at 100 for me"),
        AgentCommand::Fact("sky".into(), "100".into())
    );
    assert_eq!(read_command(":fact sky"), AgentCommand::FactUsage);
    assert_eq!(read_command(":fact a for b at c"), AgentCommand::FactGarbled);
    assert_eq!(read_command(":asof 5 sky"), AgentCommand::AsOf("5".into(), "sky".into()));
    assert_eq!(read_command(":asof 5"), AgentCommand::AsOfUsage);
    assert_eq!(read_command(":history"), AgentCommand::History);
    assert_eq!(read_command("hello there "), AgentCommand::Turn("hello there".into()));
}

#[test]
fn commands_become_requests() {
    let comps = strings(&["0.5", "1"]);
    assert_eq!(
        request(&read_command(":remember x"), "me", &comps),
        Some(strings(&["MEM.REMEMBER", "x", "me", "0.7", "0.5", "1"]))
    );
    assert_eq!(
        request(&read_command(":link a r b"), "me", &comps),
        Some(strings(&["MEM.LINK", "a", "b", "r", "1.0"]))
    );
    assert_eq!(
        request(&read_command(":asof 9 q"), "me", &comps),
        Some(strings(&["MEM.RECALL.AS_OF", "5", "q", "9", "0.5", "1"]))
    );
    assert_eq!(request(&read_command(":history"), "me", &comps), None);
    assert_eq!(turn_key("me", 3), "wm-agent:me:turn:3");
    assert_eq!(history_from(12), 2);
    assert_eq!(history_from(3), 0);
}

#[test]
fn embeddings_count_words_by_bucket() {
    let v = embed("Rust rust, and ÜBER", 8);
    assert_eq!(v.iter().sum::<usize>(), 4);
    assert!(v[(fnv_hash(b"rust") % 8) as usize] >= 2);
}

#[test]
fn replies_are_shown() {
    let r = Reply::Array(vec![Reply::Int(7), bulk("0.9"), bulk("semantic"), bulk("text")]);
    let lines = print_hits("recall", &r);
    assert_eq!(lines[0], "  \x1b[90mrecall:\x1b[0m");
    assert_eq!(lines[1], "    #7    [semantic] score=0.9  text");
    assert_eq!(print_hits("x", &Reply::Array(vec![Reply::Int(1)])), vec!["  (x: unexpected reply shape)"]);
    assert_eq!(print_hits("x", &bulk("no")), vec!["  (x: no results)"]);
    let n = Reply::Array(vec![Reply::Int(2), bulk("knows"), bulk("0.5")]);
    assert_eq!(print_neighbors(&n), vec!["  --knows(0.5)--> #2"]);
    assert_eq!(print_neighbors(&Reply::Array(vec![])), vec!["  (no outgoing edges)"]);
}

#[test]
fn messages_reach_the_others() {
    assert_eq!(message_channel("lobby"), "chat:lobby");
    assert_eq!(typing_channel("lobby"), "chat:lobby:typ");
    assert_eq!(presence_key("lobby", "ann"), "pres:lobby:ann");
    let p = message_payload("ann", 100, "hi | there");
    assert_eq!(p, "ann|100|hi | there");
    assert_eq!(
        deliver("bob", "chat:lobby", &p, 150),
        Push::Message("ann".into(), 50, "hi | there".into())
    );
    assert_eq!(deliver("ann", "chat:lobby", &p, 150), Push::Ignored);
    assert_eq!(
        deliver("bob", "chat:lobby", "ann|x", 9),
        Push::Message("ann".into(), 9, "".into())
    );
    assert_eq!(joined_payload("ann", 3), "system|3|ann joined");
    assert_eq!(probe_payload(3, 4), "me|3|msg-4");
}

#[test]
fn typing_shows_while_it_is_on() {
    let on = typing_payload("ann", true);
    let off = typing_payload("ann", false);
    assert_eq!(deliver("bob", "chat:lobby:typ", &on, 0), Push::Typing("ann".into()));
    assert_eq!(deliver("bob", "chat:lobby:typ", &off, 0), Push::Ignored);
    assert_eq!(
        push_line(&Push::Typing("ann".into())),
        Some("  \x1b[90mann is typing…\x1b[0m".to_string())
    );
    assert_eq!(push_line(&Push::Ignored), None);
}

#[test]
fn pushes_are_told_from_other_replies() {
    let push = Reply::Array(vec![bulk("message"), bulk("chat:r"), bulk("ann|5|yo")]);
    assert_eq!(read_push("bob", &push, 7), Push::Message("ann".into(), 2, "yo".into()));
    let ack = Reply::Array(vec![bulk("subscribe"), bulk("chat:r"), Reply::Int(1)]);
    assert_eq!(read_push("bob", &ack, 7), Push::Ignored);
    assert_eq!(read_push("bob", &Reply::Int(1), 7), Push::Ignored);
    let keys = Reply::Array(vec![bulk("pres:r:ann"), bulk("pres:q:bob"), Reply::Bulk(None)]);
    assert_eq!(who_in_room("r", &keys), vec!["ann"]);
}

#[test]
fn chat_lines_are_understood() {
    assert_eq!(read_chat_line(" "), ChatLine::Empty);
    assert_eq!(read_chat_line(":quit\n"), ChatLine::Quit);
    assert_eq!(read_chat_line(":who"), ChatLine::Who);
    assert_eq!(read_chat_line(":typ on"), ChatLine::Typing(true));
    assert_eq!(read_chat_line(":typ off"), ChatLine::Typing(false));
    assert_eq!(read_chat_line("hello"), ChatLine::Say("hello".into()));
}

#[test]
fn sparklines_span_the_values() {
    assert_eq!(sparkline(&vec![]), "(no data)");
    assert_eq!(sparkline(&vec![5, 5]), "▁▁");
    assert_eq!(sparkline(&vec![0, 1, 2, 3, 4, 5, 6, 7]), "▁▂▃▄▅▆▇█");
    // A value just below a large greatest one is drawn as high.
    assert_eq!(sparkline(&vec![0, (1 << 60) - 1, 1 << 60]), "▁██");
    let ticks = ['▁', '▂', '▃', '▄', '▅', '▆', '▇', '█'];
    for (x, span) in [(3i64, 7i64), (6, 7), (1, 3), (i64::MAX / 7, i64::MAX), (i64::MAX - 9, i64::MAX)]
        .into_iter()
        .chain((1..400).map(|i| (i * 5_555_555_555_555_555, i * 7_777_777_777_777_777 + 3)))
    {
        let h = (x as f64 / span as f64 * 7.0) as usize;
        assert_eq!(sparkline(&vec![0, x, span]).chars().nth(1), Some(ticks[h.min(7)]), "{x} {span}");
    }
    let v: Vec<i64> = vec![-3, 10, 4, 0, 99, 98];
    let want: String = v
        .iter()
        .map(|x| {
            let b = ((x + 3) as f64 / 102.0 * 7.0) as usize;
            ['▁', '▂', '▃', '▄', '▅', '▆', '▇', '█'][b.min(7)]
        })
        .collect();
    assert_eq!(sparkline(&v), want);
}

#[test]
fn series_are_summed_up() {
    assert_eq!(
        summarize(&vec![3, -8, 2]),
        Summary { cur: 2, delta: 10, min: -8, max: 3, avg: -1 }
    );
    assert_eq!(summarize(&vec![]), Summary { cur: 0, delta: 0, min: 0, max: 0, avg: 0 });
    assert_eq!(
        render_row("cpu", &vec![1, 3]),
        "  cpu   cur=     3  \x1b[32m▲\x1b[0m  +2   min=    1  avg=    2  max=    3    ▁█"
    );
    let r = Reply::Array(vec![Reply::Int(1), Reply::Int(10), Reply::Int(2), bulk("x"), Reply::Int(3)]);
    assert_eq!(read_window(&r), vec![10]);
    let long = Reply::Array((0..70).flat_map(|v| [Reply::Int(0), Reply::Int(v)]).collect());
    assert_eq!(read_window(&long), (10..70).collect::<Vec<i64>>());
    assert_eq!(sparkline(&read_window(&long)).chars().count(), 60);
    assert_eq!(window_start(29_999), 0);
    assert_eq!(window_start(30_005), 5);
    assert_eq!(bench_window(30, 2500), (0, 1000));
    assert_eq!(bench_window(7, 1000), (0, 1000));
    assert_eq!(bench_window(7, 20_000), (700, 1700));
    assert_eq!(closing_line(4, 3, 30), "✓ wrote 4 samples per series (12 total) over 30s");
}

#[test]
fn options_are_looked_up() {
    let a = strings(&["prog", "--addr", "h:1", "--latency", "--n", "40", "--last"]);
    assert!(flag(&a, "--latency") && !flag(&a, "--bench"));
    assert_eq!(value(&a, "--addr"), Some("h:1".to_string()));
    assert_eq!(value(&a, "--last"), None);
    assert_eq!(arg(&a, "--room", "lobby"), "lobby");
    assert_eq!(number(value(&a, "--n"), 7), 40);
    assert_eq!(number(value(&a, "--addr"), 7), 7);
}

#[test]
fn texts_are_taken_apart() {
    assert_eq!(find_part(&chars_of("abcab"), &chars_of("ca")), Some(2));
    assert_eq!(find_part(&chars_of("abc"), &chars_of("x")), None);
    assert_eq!(strip_head("key:v", "key:"), Some("v".to_string()));
    assert!(ends_in("a:typ", ":typ") && !ends_in("typ", ":typ"));
    assert_eq!(cut_once("a|b|c", '|'), Some(("a".to_string(), "b|c".to_string())));
    assert_eq!(split_white(" a  b\tc "), vec!["a", "b", "c"]);
    assert_eq!(trim_text("\u{a0} x \n"), "x");
    assert_eq!(split_lines("a\r\nb\n\nc"), vec!["a", "b", "", "c"]);
    assert_eq!(split_lines("a\n"), vec!["a"]);
    assert_eq!(join_from(&strings(&["a", "b", "c"]), 1, "-"), "b-c");
}

#[test]
fn numbers_are_read_and_written() {
    assert_eq!(dec_string(0), "0");
    assert_eq!(dec_string(u64::MAX), "18446744073709551615");
    assert_eq!(signed_string(-12), "-12");
    assert_eq!(parse_unsigned(&chars_of("+42"), u64::MAX), Some(42));
    assert_eq!(parse_unsigned(&chars_of("256"), 255), None);
    assert_eq!(parse_unsigned(&chars_of(""), 255), None);
    assert_eq!(parse_signed(&chars_of("-9223372036854775808")), Some(i64::MIN));
    assert_eq!(parse_signed(&chars_of("9223372036854775808")), None);
    assert_eq!(parse_header(b" 12\t".to_vec(), u64::MAX), Some(12));
    assert_eq!(parse_header(vec![0xff], u64::MAX), None);
    assert_eq!(parse_header_signed(b"-1".to_vec()), Some(-1));
    assert_eq!(trim(&chars_of("  a ")), vec!['a']);
}

#[test]
fn fields_stand_in_columns() {
    let mut s = String::new();
    push_left(&mut s, "ab", 4);
    push_right(&mut s, "c", 3);
    push_left(&mut s, "long", 2);
    assert_eq!(s, "ab    clong");
    assert_eq!(status_field("A: 1\nVmRSS:\t2048 kB\n", "VmRSS:"), Some(2048));
    assert_eq!(field_mb("VmRSS: 2048 kB", "VmRSS:"), Some(2));
    assert_eq!(field_mb("VmRSS: x", "VmRSS:"), None);
}
