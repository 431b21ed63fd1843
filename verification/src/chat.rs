//! The chat room: channels, payloads, and what a pushed message or a typed line means.
use crate::agent;
use crate::agent::shown_text;
use crate::options;
use crate::reply::Reply;
use crate::text;
use crate::text::{chars_of, dec_string, parse_unsigned};
use crate::words;
use crate::words::{cut_once, ends_in, same_text, strip_head, trim_text};
use vstd::prelude::*;
use vstd::string::*;

verus! {

// ── names ─────────────────────────────────────────────────────────────────

/// The channel of a room's messages.
pub open spec fn messages_of(room: Seq<char>) -> Seq<char> {
    "chat:"@ + room
}

/// The channel of a room's typing indicators.
pub open spec fn typing_channel_of(room: Seq<char>) -> Seq<char> {
    messages_of(room) + ":typ"@
}

/// What the presence keys of a room begin with.
pub open spec fn presence_of(room: Seq<char>) -> Seq<char> {
    "pres:"@ + room + ":"@
}

/// The channel of a room's messages.
pub fn message_channel(room: &str) -> (r: String)
    ensures
        r@ == messages_of(room@),
{
    let mut s: String = "chat:".to_owned();
    s.append(room);
    s
}

/// The channel of a room's typing indicators.
pub fn typing_channel(room: &str) -> (r: String)
    ensures
        r@ == typing_channel_of(room@),
{
    let mut s = message_channel(room);
    s.append(":typ");
    s
}

/// What the presence keys of a room begin with.
pub fn presence_prefix(room: &str) -> (r: String)
    ensures
        r@ == presence_of(room@),
{
    let mut s: String = "pres:".to_owned();
    s.append(room);
    s.append(":");
    s
}

/// The presence key of a user in a room.
pub fn presence_key(room: &str, user: &str) -> (r: String)
    ensures
        r@ == presence_of(room@) + user@,
{
    let mut s = presence_prefix(room);
    s.append(user);
    s
}

// ── payloads ──────────────────────────────────────────────────────────────

/// A message as it is published: who, when, what.
pub open spec fn message_text(user: Seq<char>, sent_us: nat, line: Seq<char>) -> Seq<char> {
    user + "|"@ + text::dec_text(sent_us) + "|"@ + line
}

/// A typing indicator as it is published: who, and whether they type.
pub open spec fn typing_text(user: Seq<char>, on: bool) -> Seq<char> {
    user + "|"@ + (if on {
        "1"@
    } else {
        "0"@
    })
}

/// Writes a message for publishing.
pub fn message_payload(user: &str, sent_us: u64, line: &str) -> (r: String)
    ensures
        r@ == message_text(user@, sent_us as nat, line@),
{
    let mut s: String = user.to_owned();
    s.append("|");
    s.append(dec_string(sent_us).as_str());
    s.append("|");
    s.append(line);
    s
}

/// Writes a typing indicator for publishing.
pub fn typing_payload(user: &str, on: bool) -> (r: String)
    ensures
        r@ == typing_text(user@, on),
{
    let mut s: String = user.to_owned();
    s.append("|");
    if on {
        s.append("1");
    } else {
        s.append("0");
    }
    s
}

/// The announcement that a user has joined.
pub fn joined_payload(user: &str, sent_us: u64) -> (r: String)
    ensures
        r@ == message_text("system"@, sent_us as nat, user@ + " joined"@),
{
    let mut line: String = user.to_owned();
    line.append(" joined");
    message_payload("system", sent_us, line.as_str())
}

/// The message of a latency probe.
pub fn probe_payload(sent_us: u64, i: u64) -> (r: String)
    ensures
        r@ == message_text("me"@, sent_us as nat, "msg-"@ + text::dec_text(i as nat)),
{
    let mut line: String = "msg-".to_owned();
    line.append(dec_string(i).as_str());
    message_payload("me", sent_us, line.as_str())
}

// ── pushed messages ───────────────────────────────────────────────────────

/// The user, the time and the text of a published message. What is missing or cannot be
/// read is empty, or 0.
pub open spec fn message_parts(payload: Seq<char>) -> (Seq<char>, nat, Seq<char>) {
    match words::cut_at(payload, '|') {
        None => (payload, 0, Seq::empty()),
        Some((user, rest)) => match words::cut_at(rest, '|') {
            None => (user, options::number_or(Some(rest), 0), Seq::empty()),
            Some((sent, line)) => (user, options::number_or(Some(sent), 0), line),
        },
    }
}

/// The user of a typing indicator, and whether they type.
pub open spec fn typing_parts(payload: Seq<char>) -> (Seq<char>, bool) {
    match words::cut_at(payload, '|') {
        None => (payload, false),
        Some((user, rest)) => (user, rest == "1"@),
    }
}

/// What a push means to a member of the room.
pub enum PushView {
    Ignored,
    /// Who is typing.
    Typing(Seq<char>),
    /// Who wrote, how long it took to arrive in microseconds, and what.
    Message(Seq<char>, nat, Seq<char>),
}

/// What a push means to a member of the room.
#[derive(Debug, PartialEq)]
pub enum Push {
    Ignored,
    Typing(String),
    Message(String, u64, String),
}

impl View for Push {
    type V = PushView;

    open spec fn view(&self) -> PushView {
        match self {
            Push::Ignored => PushView::Ignored,
            Push::Typing(u) => PushView::Typing(u@),
            Push::Message(u, d, t) => PushView::Message(u@, *d as nat, t@),
        }
    }
}

pub open spec fn elapsed(now: nat, sent: nat) -> nat {
    if now >= sent {
        (now - sent) as nat
    } else {
        0
    }
}

/// What a payload on a channel means to `me` at time `now`. One's own messages are ignored.
pub open spec fn delivered(me: Seq<char>, channel: Seq<char>, payload: Seq<char>, now: nat)
    -> PushView {
    if ":typ"@.is_suffix_of(channel) {
        let (user, on) = typing_parts(payload);
        if user != me && on {
            PushView::Typing(user)
        } else {
            PushView::Ignored
        }
    } else {
        let (user, sent, line) = message_parts(payload);
        if user != me {
            PushView::Message(user, elapsed(now, sent), line)
        } else {
            PushView::Ignored
        }
    }
}

/// What a reply from the server means to `me`: an array of three that begins with `message`
/// is a push.
pub open spec fn pushed(me: Seq<char>, r: Reply, now: nat) -> PushView {
    match r {
        Reply::Array(a) => if a@.len() == 3 && agent::text_or_empty(a@[0]) == "message"@ {
            delivered(me, agent::text_or_empty(a@[1]), agent::text_or_empty(a@[2]), now)
        } else {
            PushView::Ignored
        },
        _ => PushView::Ignored,
    }
}

fn read_number(s: &str) -> (r: u64)
    ensures
        r == options::number_or(Some(s@), 0),
{
    match parse_unsigned(&chars_of(s), u64::MAX) {
        Some(n) => n,
        None => 0,
    }
}

fn read_message(payload: &str) -> (r: (String, u64, String))
    ensures
        (r.0@, r.1 as nat, r.2@) == message_parts(payload@),
{
    match cut_once(payload, '|') {
        None => {
            let empty = String::new();
            proof {
                assert(empty@ =~= Seq::<char>::empty());
            }
            (payload.to_owned(), 0, empty)
        },
        Some((user, rest)) => match cut_once(rest.as_str(), '|') {
            None => {
                let empty = String::new();
                proof {
                    assert(empty@ =~= Seq::<char>::empty());
                }
                (user, read_number(rest.as_str()), empty)
            },
            Some((sent, line)) => (user, read_number(sent.as_str()), line),
        },
    }
}

fn read_typing(payload: &str) -> (r: (String, bool))
    ensures
        (r.0@, r.1) == typing_parts(payload@),
{
    match cut_once(payload, '|') {
        None => (payload.to_owned(), false),
        Some((user, rest)) => {
            let on = same_text(rest.as_str(), "1");
            (user, on)
        },
    }
}

/// Reads what a payload on a channel means.
pub fn deliver(me: &str, channel: &str, payload: &str, now: u64) -> (r: Push)
    ensures
        r@ == delivered(me@, channel@, payload@, now as nat),
{
    if ends_in(channel, ":typ") {
        let (user, on) = read_typing(payload);
        if !same_text(user.as_str(), me) && on {
            Push::Typing(user)
        } else {
            Push::Ignored
        }
    } else {
        let (user, sent, line) = read_message(payload);
        if !same_text(user.as_str(), me) {
            let took: u64 = if now >= sent {
                now - sent
            } else {
                0
            };
            Push::Message(user, took, line)
        } else {
            Push::Ignored
        }
    }
}

/// Reads what a reply from the server means.
pub fn read_push(me: &str, r: &Reply, now: u64) -> (p: Push)
    ensures
        p@ == pushed(me@, *r, now as nat),
{
    match r {
        Reply::Array(a) => {
            if a.len() != 3 {
                return Push::Ignored;
            }
            if !same_text(shown_text(&a[0]).as_str(), "message") {
                return Push::Ignored;
            }
            let channel = shown_text(&a[1]);
            let payload = shown_text(&a[2]);
            deliver(me, channel.as_str(), payload.as_str(), now)
        },
        _ => Push::Ignored,
    }
}

/// The line that shows a push, if it shows one.
pub fn push_line(p: &Push) -> (r: Option<String>)
    ensures
        words::opt_view(r) == (match p@ {
            PushView::Ignored => None,
            PushView::Typing(u) => Some("  \x1b[90m"@ + u + " is typing…\x1b[0m"@),
            PushView::Message(u, d, t) => Some(
                "  \x1b[35m"@ + u + "\x1b[0m ("@ + text::dec_text(d) + " µs push): "@ + t,
            ),
        }),
{
    match p {
        Push::Ignored => None,
        Push::Typing(u) => {
            let mut s: String = "  \x1b[90m".to_owned();
            s.append(u.as_str());
            s.append(" is typing…\x1b[0m");
            Some(s)
        },
        Push::Message(u, d, t) => {
            let mut s: String = "  \x1b[35m".to_owned();
            s.append(u.as_str());
            s.append("\x1b[0m (");
            s.append(dec_string(*d).as_str());
            s.append(" µs push): ");
            s.append(t.as_str());
            Some(s)
        },
    }
}

// ── presence ──────────────────────────────────────────────────────────────

/// The user whose presence key a reply names.
pub open spec fn peer_of(room: Seq<char>, r: Reply) -> Option<Seq<char>> {
    match r {
        Reply::Error(_) | Reply::Bulk(None) | Reply::Array(_) => None,
        _ => words::behind(agent::text_or_empty(r), presence_of(room)),
    }
}

/// The users that the first `n` replies name.
pub open spec fn peers_of(room: Seq<char>, a: Seq<Reply>, n: int) -> Seq<Seq<char>>
    decreases n,
{
    if n <= 0 {
        Seq::empty()
    } else {
        match peer_of(room, a[n - 1]) {
            Some(u) => peers_of(room, a, n - 1).push(u),
            None => peers_of(room, a, n - 1),
        }
    }
}

/// The users in a room, of the keys that the server found.
pub fn who_in_room(room: &str, found: &Reply) -> (r: Vec<String>)
    ensures
        words::views_of(r@) == (match *found {
            Reply::Array(a) => peers_of(room@, a@, a@.len() as int),
            _ => Seq::empty(),
        }),
{
    let mut out: Vec<String> = Vec::new();
    proof {
        assert(words::views_of(out@) =~= Seq::<Seq<char>>::empty());
    }
    match found {
        Reply::Array(a) => {
            let prefix = presence_prefix(room);
            let n: usize = a.len();
            let mut i: usize = 0;
            while i < n
                invariant
                    i <= n == a@.len(),
                    prefix@ == presence_of(room@),
                    words::views_of(out@) == peers_of(room@, a@, i as int),
                decreases n - i,
            {
                let ghost before = out@;
                if let Some(key) = a[i].as_str() {
                    if let Some(user) = strip_head(key.as_str(), prefix.as_str()) {
                        let ghost v = user@;
                        out.push(user);
                        proof {
                            assert(words::views_of(out@) =~= words::views_of(before).push(v));
                        }
                    }
                }
                i = i + 1;
            }
        },
        _ => {},
    }
    out
}

// ── typed lines ───────────────────────────────────────────────────────────

/// What a typed line asks for.
#[derive(Debug, PartialEq)]
pub enum ChatLine {
    Empty,
    Quit,
    Who,
    Typing(bool),
    Say(String),
}

pub enum ChatView {
    Empty,
    Quit,
    Who,
    Typing(bool),
    Say(Seq<char>),
}

impl View for ChatLine {
    type V = ChatView;

    open spec fn view(&self) -> ChatView {
        match self {
            ChatLine::Empty => ChatView::Empty,
            ChatLine::Quit => ChatView::Quit,
            ChatLine::Who => ChatView::Who,
            ChatLine::Typing(on) => ChatView::Typing(*on),
            ChatLine::Say(s) => ChatView::Say(s@),
        }
    }
}

/// What a trimmed line asks for. Anything that is no command is said.
pub open spec fn line_meaning(line: Seq<char>) -> ChatView {
    if line.len() == 0 {
        ChatView::Empty
    } else if line == ":quit"@ || line == ":q"@ {
        ChatView::Quit
    } else if line == ":who"@ {
        ChatView::Who
    } else {
        match words::behind(line, ":typ"@) {
            Some(rest) => ChatView::Typing(text::trimmed(rest) == "on"@),
            None => ChatView::Say(line),
        }
    }
}

/// Reads a typed line.
pub fn read_chat_line(typed: &str) -> (r: ChatLine)
    ensures
        r@ == line_meaning(text::trimmed(typed@)),
{
    let line = trim_text(typed);
    let s = line.as_str();
    if s.is_empty() {
        return ChatLine::Empty;
    }
    if same_text(s, ":quit") || same_text(s, ":q") {
        return ChatLine::Quit;
    }
    if same_text(s, ":who") {
        return ChatLine::Who;
    }
    if let Some(rest) = strip_head(s, ":typ") {
        let word = trim_text(rest.as_str());
        return ChatLine::Typing(same_text(word.as_str(), "on"));
    }
    ChatLine::Say(line)
}

// ── laws ──────────────────────────────────────────────────────────────────

proof fn lemma_cut(head: Seq<char>, tail: Seq<char>, c: char, i: int)
    requires
        0 <= i <= head.len(),
        !head.contains(c),
    ensures
        words::char_from(head + seq![c] + tail, c, i) == head.len(),
    decreases head.len() - i,
{
    let s = head + seq![c] + tail;
    if i < head.len() {
        assert(s[i] == head[i]);
        assert(head.contains(head[i]));
        lemma_cut(head, tail, c, i + 1);
    } else {
        assert(s[i] == c);
    }
}

proof fn lemma_cut_at(head: Seq<char>, tail: Seq<char>, c: char)
    requires
        !head.contains(c),
    ensures
        words::cut_at(head + seq![c] + tail, c) == Some((head, tail)),
{
    let s = head + seq![c] + tail;
    lemma_cut(head, tail, c, 0);
    assert(s.take(head.len() as int) =~= head);
    assert(s.skip(head.len() as int + 1) =~= tail);
}

proof fn lemma_digits_plain(n: nat)
    ensures
        !text::dec_text(n).contains('|'),
{
    text::lemma_dec_text_digits(n);
    let d = text::dec_text(n);
    if d.contains('|') {
        let i = choose|i: int| 0 <= i < d.len() && d[i] == '|';
        assert(text::is_digit(d[i]));
    }
}

/// A published message is delivered to everyone else in the room as it was sent: who wrote
/// it, how long ago, and the whole line, whatever it holds.
pub proof fn law_message_is_delivered(
    user: Seq<char>,
    me: Seq<char>,
    sent: nat,
    line: Seq<char>,
    channel: Seq<char>,
    now: nat,
)
    requires
        !user.contains('|'),
        user != me,
        sent <= u64::MAX,
        !":typ"@.is_suffix_of(channel),
    ensures
        delivered(me, channel, message_text(user, sent, line), now) == PushView::Message(
            user,
            elapsed(now, sent),
            line,
        ),
{
    reveal_strlit("|");
    let rest = text::dec_text(sent) + "|"@ + line;
    assert("|"@ =~= seq!['|']);
    assert(message_text(user, sent, line) =~= user + seq!['|'] + rest);
    lemma_cut_at(user, rest, '|');
    lemma_digits_plain(sent);
    assert(rest =~= text::dec_text(sent) + seq!['|'] + line);
    lemma_cut_at(text::dec_text(sent), line, '|');
    text::lemma_dec_text_unsigned(sent, u64::MAX as nat);
}

/// A typing indicator shows to everyone else while it is on, and never once it is off.
pub proof fn law_typing_is_shown(user: Seq<char>, me: Seq<char>, room: Seq<char>, on: bool, now: nat)
    requires
        !user.contains('|'),
        user != me,
    ensures
        delivered(me, typing_channel_of(room), typing_text(user, on), now) == (if on {
            PushView::Typing(user)
        } else {
            PushView::Ignored
        }),
{
    reveal_strlit("|");
    reveal_strlit("1");
    reveal_strlit("0");
    reveal_strlit(":typ");
    assert("|"@ =~= seq!['|']);
    let mark = if on {
        "1"@
    } else {
        "0"@
    };
    assert(typing_text(user, on) =~= user + seq!['|'] + mark);
    lemma_cut_at(user, mark, '|');
    assert("1"@[0] == '1' && "0"@[0] == '0');
    let ch = typing_channel_of(room);
    let tail = ":typ"@;
    assert(ch.subrange(ch.len() - tail.len(), ch.len() as int) =~= tail);
}

/// No one is shown their own messages.
pub proof fn law_own_messages_are_ignored(
    me: Seq<char>,
    sent: nat,
    line: Seq<char>,
    channel: Seq<char>,
    now: nat,
)
    requires
        !me.contains('|'),
        sent <= u64::MAX,
        !":typ"@.is_suffix_of(channel),
    ensures
        delivered(me, channel, message_text(me, sent, line), now) == PushView::Ignored,
{
    reveal_strlit("|");
    let rest = text::dec_text(sent) + "|"@ + line;
    assert("|"@ =~= seq!['|']);
    assert(message_text(me, sent, line) =~= me + seq!['|'] + rest);
    lemma_cut_at(me, rest, '|');
    lemma_digits_plain(sent);
    assert(rest =~= text::dec_text(sent) + seq!['|'] + line);
    lemma_cut_at(text::dec_text(sent), line, '|');
}

/// A user's presence key names that user in their room.
pub proof fn law_presence_names_the_user(room: Seq<char>, user: Seq<char>)
    ensures
        words::behind(presence_of(room) + user, presence_of(room)) == Some(user),
{
    let p = presence_of(room);
    assert(p.is_prefix_of(p + user)) by {
        assert((p + user).subrange(0, p.len() as int) =~= p);
    }
    assert((p + user).skip(p.len() as int) =~= user);
}

/// Time that has passed since a message was sent, and the time of sending, make the time now; a
/// message from the future has just been sent.
pub proof fn law_elapsed_time_adds_up(now: nat, sent: nat)
    ensures
        sent <= now ==> sent + elapsed(now, sent) == now,
        sent > now ==> elapsed(now, sent) == 0,
{
}

/// A push that carries a published message reaches everyone else in the room.
pub proof fn law_pushes_carry_messages(
    a: Vec<Reply>,
    user: Seq<char>,
    me: Seq<char>,
    sent: nat,
    line: Seq<char>,
    now: nat,
)
    requires
        a@.len() == 3,
        agent::text_or_empty(a@[0]) == "message"@,
        !":typ"@.is_suffix_of(agent::text_or_empty(a@[1])),
        agent::text_or_empty(a@[2]) == message_text(user, sent, line),
        !user.contains('|'),
        user != me,
        sent <= u64::MAX,
    ensures
        pushed(me, Reply::Array(a), now) == PushView::Message(user, elapsed(now, sent), line),
{
    law_message_is_delivered(user, me, sent, line, agent::text_or_empty(a@[1]), now);
}

/// The users in a room are those whose presence keys were found, in the order of the replies.
pub proof fn law_peers_are_those_present(room: Seq<char>, a: Seq<Reply>, n: int)
    requires
        0 <= n <= a.len(),
    ensures
        peers_of(room, a, n) == a.take(n).filter_map(|r: Reply| peer_of(room, r)),
        forall|r: Reply, user: Seq<char>|
            (r is Simple || r matches Reply::Bulk(Some(_))) && #[trigger] agent::text_or_empty(r)
                == #[trigger] (presence_of(room) + user) ==> peer_of(room, r) == Some(user),
        forall|r: Reply| #[trigger]
            peer_of(room, r) matches Some(user) ==> agent::text_or_empty(r) == presence_of(room)
                + user,
    decreases n,
{
    reveal(Seq::filter_map);
    let f = |r: Reply| peer_of(room, r);
    if n > 0 {
        law_peers_are_those_present(room, a, n - 1);
        assert(a.take(n).drop_last() =~= a.take(n - 1));
        assert(a.take(n).last() == a[n - 1]);
    } else {
        assert(a.take(0) =~= Seq::<Reply>::empty());
    }
    assert forall|r: Reply, user: Seq<char>|
        (r is Simple || r matches Reply::Bulk(Some(_))) && #[trigger] agent::text_or_empty(r)
            == #[trigger] (presence_of(room) + user) implies peer_of(room, r) == Some(user) by {
        words::law_head_and_rest(agent::text_or_empty(r), presence_of(room), user);
    }
    assert forall|r: Reply| (#[trigger] peer_of(room, r)) is Some implies (peer_of(
        room,
        r,
    ) matches Some(user) && agent::text_or_empty(r) == presence_of(room) + user) by {
        words::law_head_and_rest(agent::text_or_empty(r), presence_of(room), Seq::empty());
    }
}

/// A line that does not begin with a colon is said as it is; an indicator is switched on by `on`
/// and off by anything else.
pub proof fn law_plain_lines_are_said(line: Seq<char>, word: Seq<char>)
    requires
        line.len() > 0,
        line[0] != ':',
    ensures
        line_meaning(line) == ChatView::Say(line),
        line_meaning(":typ"@ + word) == ChatView::Typing(text::trimmed(word) == "on"@),
        line_meaning(":who"@) == ChatView::Who,
        line_meaning(":quit"@) == ChatView::Quit,
        line_meaning(":q"@) == ChatView::Quit,
        line_meaning(Seq::empty()) == ChatView::Empty,
{
    reveal_strlit(":quit");
    reveal_strlit(":q");
    reveal_strlit(":who");
    reveal_strlit(":typ");
    assert(":quit"@[0] == ':' && ":q"@[0] == ':' && ":who"@[0] == ':' && ":typ"@[0] == ':');
    if ":typ"@.is_prefix_of(line) {
        assert(line.subrange(0, 4)[0] == ":typ"@[0]);
    }
    let t = ":typ"@ + word;
    words::law_head_and_rest(t, ":typ"@, word);
    assert(t[1] == 't');
    assert(":quit"@[1] == 'q' && ":q"@[1] == 'q' && ":who"@[1] == 'w');
}

} // verus!
