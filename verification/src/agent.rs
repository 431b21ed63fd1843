//! The agent console: what a typed line asks for, the commands that go to the server, and
//! how replies are shown.
use crate::layout;
use crate::layout::push_left;
use crate::reducer;
use crate::reducer::fnv_hash;
use crate::reply;
use crate::reply::Reply;
use crate::text;
use crate::text::{chars_of, dec_string};
use crate::tokens;
use crate::tokens::split_long_words;
use crate::words;
use crate::words::{cut_once, find_part, same_text, split_white, strip_head, trim_text};
use vstd::prelude::*;
use vstd::string::*;

verus! {

// ── embedding ─────────────────────────────────────────────────────────────

/// The bucket of a word: the FNV-1a hash of its bytes.
pub open spec fn bucket_of(w: Seq<char>, dim: int) -> int {
    reducer::fnv(vstd::utf8::encode_utf8(w)) as int % dim
}

/// How many of the first `n` words fall into bucket `b`.
pub open spec fn bucket_count(ws: Seq<Seq<char>>, dim: int, b: int, n: int) -> nat
    decreases n,
{
    if n <= 0 {
        0
    } else {
        bucket_count(ws, dim, b, n - 1) + (if bucket_of(ws[n - 1], dim) == b {
            1nat
        } else {
            0
        })
    }
}

proof fn lemma_bucket_count(ws: Seq<Seq<char>>, dim: int, b: int, n: int)
    requires
        0 <= n,
    ensures
        bucket_count(ws, dim, b, n) <= n,
    decreases n,
{
    if n > 0 {
        lemma_bucket_count(ws, dim, b, n - 1);
    }
}

/// Counts the words of a text by bucket. Scaled to unit length, this is its embedding.
pub fn embed(text: &str, dim: usize) -> (r: Vec<usize>)
    requires
        dim > 0,
    ensures
        r@.len() == dim,
        forall|b: int|
            0 <= b < dim ==> #[trigger] r@[b] == bucket_count(
                tokens::long_words(text@),
                dim as int,
                b,
                tokens::long_words(text@).len() as int,
            ),
{
    let ws = split_long_words(text);
    let ghost all = tokens::text_views(ws@);
    let n: usize = ws.len();
    let mut out: Vec<usize> = Vec::new();
    let mut i: usize = 0;
    while i < dim
        invariant
            i <= dim,
            out@.len() == i,
            forall|b: int| 0 <= b < i ==> #[trigger] out@[b] == 0,
        decreases dim - i,
    {
        out.push(0);
        i = i + 1;
    }
    let mut j: usize = 0;
    while j < n
        invariant
            dim > 0,
            all == tokens::text_views(ws@),
            j <= n == ws@.len(),
            out@.len() == dim,
            forall|b: int|
                0 <= b < dim ==> #[trigger] out@[b] == bucket_count(all, dim as int, b, j as int),
        decreases n - j,
    {
        let h: u64 = fnv_hash(ws[j].as_str().as_bytes());
        let at: usize = (h % dim as u64) as usize;
        assert(all[j as int] == ws@[j as int]@);
        proof {
            lemma_bucket_count(all, dim as int, at as int, j as int);
            assert(out@[at as int] == bucket_count(all, dim as int, at as int, j as int));
        }
        let c: usize = out[at] + 1;
        out.set(at, c);
        j = j + 1;
    }
    out
}

// ── commands ──────────────────────────────────────────────────────────────

/// What a typed line asks for.
#[derive(Debug, PartialEq)]
pub enum AgentCommand {
    /// Nothing.
    Empty,
    Quit,
    Remember(String),
    Recall(String),
    /// From, relation, to.
    Link(String, String, String),
    LinkUsage,
    Neigh(String),
    /// A text and the time from which it holds.
    Fact(String, String),
    FactUsage,
    /// The two markers of a fact stand in the wrong order.
    FactGarbled,
    /// A time and a query.
    AsOf(String, String),
    AsOfUsage,
    History,
    /// Anything else.
    Turn(String),
}

/// What a line asks for, as mathematical values.
pub enum AgentView {
    Empty,
    Quit,
    Remember(Seq<char>),
    Recall(Seq<char>),
    Link(Seq<char>, Seq<char>, Seq<char>),
    LinkUsage,
    Neigh(Seq<char>),
    Fact(Seq<char>, Seq<char>),
    FactUsage,
    FactGarbled,
    AsOf(Seq<char>, Seq<char>),
    AsOfUsage,
    History,
    Turn(Seq<char>),
}

impl View for AgentCommand {
    type V = AgentView;

    open spec fn view(&self) -> AgentView {
        match self {
            AgentCommand::Empty => AgentView::Empty,
            AgentCommand::Quit => AgentView::Quit,
            AgentCommand::Remember(s) => AgentView::Remember(s@),
            AgentCommand::Recall(s) => AgentView::Recall(s@),
            AgentCommand::Link(a, b, c) => AgentView::Link(a@, b@, c@),
            AgentCommand::LinkUsage => AgentView::LinkUsage,
            AgentCommand::Neigh(s) => AgentView::Neigh(s@),
            AgentCommand::Fact(a, b) => AgentView::Fact(a@, b@),
            AgentCommand::FactUsage => AgentView::FactUsage,
            AgentCommand::FactGarbled => AgentView::FactGarbled,
            AgentCommand::AsOf(a, b) => AgentView::AsOf(a@, b@),
            AgentCommand::AsOfUsage => AgentView::AsOfUsage,
            AgentCommand::History => AgentView::History,
            AgentCommand::Turn(s) => AgentView::Turn(s@),
        }
    }
}

/// What `:fact` asks for: the text before ` at `, and the time between it and ` for `.
pub open spec fn fact_of(rest: Seq<char>) -> AgentView {
    match (words::place_in(rest, " at "@), words::place_in(rest, " for "@)) {
        (Some(a), Some(b)) => if a + 4 <= b {
            AgentView::Fact(rest.take(a), rest.subrange(a + 4, b))
        } else {
            AgentView::FactGarbled
        },
        _ => AgentView::FactUsage,
    }
}

/// What `:link` asks for: three words.
pub open spec fn link_of(rest: Seq<char>) -> AgentView {
    let w = words::words_from(rest, 0);
    if w.len() == 3 {
        AgentView::Link(w[0], w[1], w[2])
    } else {
        AgentView::LinkUsage
    }
}

/// What `:asof` asks for: a time, a blank, and a query.
pub open spec fn as_of(rest: Seq<char>) -> AgentView {
    match words::cut_at(rest, ' ') {
        Some((t, q)) => AgentView::AsOf(t, q),
        None => AgentView::AsOfUsage,
    }
}

/// What a trimmed line asks for.
pub open spec fn asked(line: Seq<char>) -> AgentView {
    if line.len() == 0 {
        AgentView::Empty
    } else if line == ":quit"@ || line == ":q"@ {
        AgentView::Quit
    } else if words::behind(line, ":remember "@) is Some {
        AgentView::Remember(words::behind(line, ":remember "@)->0)
    } else if words::behind(line, ":recall "@) is Some {
        AgentView::Recall(words::behind(line, ":recall "@)->0)
    } else if words::behind(line, ":link "@) is Some {
        link_of(words::behind(line, ":link "@)->0)
    } else if words::behind(line, ":neigh "@) is Some {
        AgentView::Neigh(text::trimmed(words::behind(line, ":neigh "@)->0))
    } else if words::behind(line, ":fact "@) is Some {
        fact_of(words::behind(line, ":fact "@)->0)
    } else if words::behind(line, ":asof "@) is Some {
        as_of(words::behind(line, ":asof "@)->0)
    } else if line == ":history"@ {
        AgentView::History
    } else {
        AgentView::Turn(line)
    }
}

fn read_fact(rest: &str) -> (r: AgentCommand)
    ensures
        r@ == fact_of(rest@),
{
    let cs = chars_of(rest);
    let at = find_part(&cs, &chars_of(" at "));
    let whom = find_part(&cs, &chars_of(" for "));
    proof {
        reveal_strlit(" at ");
        reveal_strlit(" for ");
    }
    match (at, whom) {
        (Some(a), Some(b)) => {
            if a <= b && b - a >= 4 {
                proof {
                    assert(rest@.subrange(0, a as int) =~= rest@.take(a as int));
                }
                let t = rest.substring_char(a + 4, b).to_owned();
                AgentCommand::Fact(rest.substring_char(0, a).to_owned(), t)
            } else {
                AgentCommand::FactGarbled
            }
        },
        _ => AgentCommand::FactUsage,
    }
}

fn read_link(rest: &str) -> (r: AgentCommand)
    ensures
        r@ == link_of(rest@),
{
    let mut w = split_white(rest);
    let ghost all = words::views_of(w@);
    if w.len() != 3 {
        return AgentCommand::LinkUsage;
    }
    assert(all[0] == w@[0]@ && all[1] == w@[1]@ && all[2] == w@[2]@);
    let to = w.remove(2);
    let rel = w.remove(1);
    let from = w.remove(0);
    AgentCommand::Link(from, rel, to)
}

/// Reads a typed line.
pub fn read_command(typed: &str) -> (r: AgentCommand)
    ensures
        r@ == asked(text::trimmed(typed@)),
{
    let line = trim_text(typed);
    let s = line.as_str();
    if s.is_empty() {
        return AgentCommand::Empty;
    }
    if same_text(s, ":quit") || same_text(s, ":q") {
        return AgentCommand::Quit;
    }
    if let Some(rest) = strip_head(s, ":remember ") {
        return AgentCommand::Remember(rest);
    }
    if let Some(rest) = strip_head(s, ":recall ") {
        return AgentCommand::Recall(rest);
    }
    if let Some(rest) = strip_head(s, ":link ") {
        return read_link(rest.as_str());
    }
    if let Some(rest) = strip_head(s, ":neigh ") {
        return AgentCommand::Neigh(trim_text(rest.as_str()));
    }
    if let Some(rest) = strip_head(s, ":fact ") {
        return read_fact(rest.as_str());
    }
    if let Some(rest) = strip_head(s, ":asof ") {
        return match cut_once(rest.as_str(), ' ') {
            Some((t, q)) => AgentCommand::AsOf(t, q),
            None => AgentCommand::AsOfUsage,
        };
    }
    if same_text(s, ":history") {
        return AgentCommand::History;
    }
    AgentCommand::Turn(line)
}

// ── requests ──────────────────────────────────────────────────────────────

/// The words of a request, before its components.
pub open spec fn request_head(cmd: AgentView, agent: Seq<char>) -> Option<(Seq<Seq<char>>, bool)> {
    match cmd {
        AgentView::Remember(t) => Some((seq!["MEM.REMEMBER"@, t, agent, "0.7"@], true)),
        AgentView::Recall(q) => Some((seq!["MEM.RECALL"@, "5"@, q], true)),
        AgentView::Link(from, rel, to) => Some((seq!["MEM.LINK"@, from, to, rel, "1.0"@], false)),
        AgentView::Neigh(id) => Some((seq!["MEM.NEIGH"@, id], false)),
        AgentView::Fact(t, at) => Some(
            (seq!["MEM.REMEMBER.T"@, t, "user-fact"@, "0.9"@, at, "0"@], true),
        ),
        AgentView::AsOf(t, q) => Some((seq!["MEM.RECALL.AS_OF"@, "5"@, q, t], true)),
        AgentView::Turn(t) => Some((seq!["MEM.RECALL"@, "3"@, t], true)),
        _ => None,
    }
}

/// The words of a request: its head, and the components of the embedding where it takes
/// them.
pub open spec fn request_of(cmd: AgentView, agent: Seq<char>, comps: Seq<Seq<char>>) -> Option<
    Seq<Seq<char>>,
> {
    match request_head(cmd, agent) {
        Some((head, true)) => Some(head + comps),
        Some((head, false)) => Some(head),
        None => None,
    }
}

/// The request that a command sends, if it sends one.
pub fn request(cmd: &AgentCommand, agent: &str, comps: &Vec<String>) -> (r: Option<Vec<String>>)
    ensures
        match r {
            Some(v) => request_of(cmd@, agent@, words::views_of(comps@)) == Some(
                words::views_of(v@),
            ),
            None => request_of(cmd@, agent@, words::views_of(comps@)) is None,
        },
{
    let mut out: Vec<String> = Vec::new();
    let mut takes: bool = true;
    match cmd {
        AgentCommand::Remember(t) => {
            out.push("MEM.REMEMBER".to_owned());
            out.push(t.clone());
            out.push(agent.to_owned());
            out.push("0.7".to_owned());
        },
        AgentCommand::Recall(q) => {
            out.push("MEM.RECALL".to_owned());
            out.push("5".to_owned());
            out.push(q.clone());
        },
        AgentCommand::Link(from, rel, to) => {
            out.push("MEM.LINK".to_owned());
            out.push(from.clone());
            out.push(to.clone());
            out.push(rel.clone());
            out.push("1.0".to_owned());
            takes = false;
        },
        AgentCommand::Neigh(id) => {
            out.push("MEM.NEIGH".to_owned());
            out.push(id.clone());
            takes = false;
        },
        AgentCommand::Fact(t, at) => {
            out.push("MEM.REMEMBER.T".to_owned());
            out.push(t.clone());
            out.push("user-fact".to_owned());
            out.push("0.9".to_owned());
            out.push(at.clone());
            out.push("0".to_owned());
        },
        AgentCommand::AsOf(t, q) => {
            out.push("MEM.RECALL.AS_OF".to_owned());
            out.push("5".to_owned());
            out.push(q.clone());
            out.push(t.clone());
        },
        AgentCommand::Turn(t) => {
            out.push("MEM.RECALL".to_owned());
            out.push("3".to_owned());
            out.push(t.clone());
        },
        _ => {
            return None;
        },
    }
    let ghost head = words::views_of(out@);
    proof {
        assert(request_head(cmd@, agent@) is Some);
        let pair = request_head(cmd@, agent@)->0;
        assert(head =~= pair.0);
    }
    if takes {
        push_texts(&mut out, comps);
    }
    Some(out)
}

fn push_texts(out: &mut Vec<String>, more: &Vec<String>)
    ensures
        words::views_of(final(out)@) == words::views_of(old(out)@) + words::views_of(more@),
{
    let ghost head = words::views_of(out@);
    let mut i: usize = 0;
    proof {
        assert(words::views_of(out@) =~= head + words::views_of(more@.take(0)));
    }
    while i < more.len()
        invariant
            i <= more@.len(),
            words::views_of(out@) == head + words::views_of(more@.take(i as int)),
        decreases more@.len() - i,
    {
        let ghost before = out@;
        let x = more[i].clone();
        let ghost v = x@;
        out.push(x);
        i = i + 1;
        proof {
            assert(words::views_of(out@) =~= words::views_of(before).push(v));
            assert(words::views_of(out@) =~= head + words::views_of(more@.take(i as int)));
        }
    }
    proof {
        assert(more@.take(i as int) =~= more@);
    }
}

/// The key under which a turn is kept.
pub fn turn_key(agent: &str, turn: u64) -> (r: String)
    ensures
        r@ == "wm-agent:"@ + agent@ + ":turn:"@ + text::dec_text(turn as nat),
{
    let mut s: String = "wm-agent:".to_owned();
    s.append(agent);
    s.append(":turn:");
    s.append(dec_string(turn).as_str());
    s
}

/// The first turn that the history shows, of the last ten.
pub fn history_from(turn: u64) -> (r: u64)
    ensures
        r == (if turn > 10 {
            turn - 10
        } else {
            0
        }),
{
    if turn > 10 {
        turn - 10
    } else {
        0
    }
}

// ── showing replies ───────────────────────────────────────────────────────

/// A reply as text, empty where it has none.
pub open spec fn text_or_empty(r: Reply) -> Seq<char> {
    match r {
        Reply::Simple(b) => reply::shown(b@),
        Reply::Bulk(Some(b)) => reply::shown(b@),
        Reply::Int(i) => text::signed_text(i as int),
        _ => Seq::empty(),
    }
}

/// A reply as a number, -1 where it is none.
pub open spec fn int_or_minus(r: Reply) -> int {
    match r {
        Reply::Int(i) => i as int,
        _ => -1,
    }
}

/// The text of a reply, empty where it has none.
pub fn shown_text(r: &Reply) -> (s: String)
    ensures
        s@ == text_or_empty(*r),
{
    match r.as_str() {
        Some(s) => s,
        None => {
            let s = String::new();
            proof {
                assert(s@ =~= Seq::<char>::empty());
            }
            s
        },
    }
}

fn shown_int(r: &Reply) -> (n: i64)
    ensures
        n == int_or_minus(*r),
{
    match r.as_int() {
        Some(n) => n,
        None => -1,
    }
}

/// The line of a recalled memory, of the four replies that tell of it.
pub open spec fn hit_line(a: Seq<Reply>, i: int) -> Seq<char> {
    "    #"@ + layout::at_left(text::signed_text(int_or_minus(a[i])), 4) + " ["@ + text_or_empty(
        a[i + 2],
    ) + "] score="@ + text_or_empty(a[i + 1]) + "  "@ + text_or_empty(a[i + 3])
}

/// The lines of the first `n` memories.
pub open spec fn hit_lines(a: Seq<Reply>, n: int) -> Seq<Seq<char>>
    decreases n,
{
    if n <= 0 {
        Seq::empty()
    } else {
        hit_lines(a, n - 1).push(hit_line(a, 4 * (n - 1)))
    }
}

/// The lines that show recalled memories.
pub open spec fn hits_shown(label: Seq<char>, r: Reply) -> Seq<Seq<char>> {
    match r {
        Reply::Array(a) => if a@.len() % 4 != 0 {
            seq!["  ("@ + label + ": unexpected reply shape)"@]
        } else {
            seq!["  \x1b[90m"@ + label + ":\x1b[0m"@] + hit_lines(a@, (a@.len() / 4) as int)
        },
        _ => seq!["  ("@ + label + ": no results)"@],
    }
}

/// Shows recalled memories.
pub fn print_hits(label: &str, r: &Reply) -> (out: Vec<String>)
    ensures
        words::views_of(out@) == hits_shown(label@, *r),
{
    let mut out: Vec<String> = Vec::new();
    match r {
        Reply::Array(a) => {
            if a.len() % 4 != 0 {
                let mut s: String = "  (".to_owned();
                s.append(label);
                s.append(": unexpected reply shape)");
                out.push(s);
                proof {
                    assert(words::views_of(out@) =~= hits_shown(label@, *r));
                }
                return out;
            }
            let mut s: String = "  \x1b[90m".to_owned();
            s.append(label);
            s.append(":\x1b[0m");
            out.push(s);
            let ghost head = words::views_of(out@);
            let n: usize = a.len() / 4;
            let size: usize = a.len();
            let mut i: usize = 0;
            proof {
                assert(head =~= seq!["  \x1b[90m"@ + label@ + ":\x1b[0m"@]);
                assert(head =~= head + hit_lines(a@, 0));
            }
            while i < n
                invariant
                    i <= n,
                    4 * n <= size == a@.len(),
                    words::views_of(out@) == head + hit_lines(a@, i as int),
                decreases n - i,
            {
                let at: usize = 4 * i;
                let mut line: String = "    #".to_owned();
                push_left(&mut line, text::signed_string(shown_int(&a[at])).as_str(), 4);
                line.append(" [");
                line.append(shown_text(&a[at + 2]).as_str());
                line.append("] score=");
                line.append(shown_text(&a[at + 1]).as_str());
                line.append("  ");
                line.append(shown_text(&a[at + 3]).as_str());
                let ghost before = out@;
                let ghost v = line@;
                proof {
                    assert(v =~= hit_line(a@, at as int));
                }
                out.push(line);
                i = i + 1;
                proof {
                    assert(words::views_of(out@) =~= words::views_of(before).push(v));
                    assert(words::views_of(out@) =~= head + hit_lines(a@, i as int));
                }
            }
            proof {
                assert(words::views_of(out@) == hits_shown(label@, *r));
            }
        },
        _ => {
            let mut s: String = "  (".to_owned();
            s.append(label);
            s.append(": no results)");
            out.push(s);
            proof {
                assert(words::views_of(out@) =~= hits_shown(label@, *r));
            }
        },
    }
    out
}

/// The line of an edge, of the three replies that tell of it.
pub open spec fn edge_line(a: Seq<Reply>, i: int) -> Seq<char> {
    "  --"@ + text_or_empty(a[i + 1]) + "("@ + text_or_empty(a[i + 2]) + ")--> #"@
        + text::signed_text(int_or_minus(a[i]))
}

pub open spec fn edge_lines(a: Seq<Reply>, n: int) -> Seq<Seq<char>>
    decreases n,
{
    if n <= 0 {
        Seq::empty()
    } else {
        edge_lines(a, n - 1).push(edge_line(a, 3 * (n - 1)))
    }
}

/// The lines that show outgoing edges.
pub open spec fn neighbors_shown(r: Reply) -> Seq<Seq<char>> {
    match r {
        Reply::Array(a) => if a@.len() == 0 {
            seq!["  (no outgoing edges)"@]
        } else {
            edge_lines(a@, (a@.len() / 3) as int)
        },
        _ => seq!["  (no neighbors)"@],
    }
}

/// Shows outgoing edges. Each is told of by three replies.
pub fn print_neighbors(r: &Reply) -> (out: Vec<String>)
    requires
        r matches Reply::Array(a) ==> a@.len() % 3 == 0,
    ensures
        words::views_of(out@) == neighbors_shown(*r),
{
    let mut out: Vec<String> = Vec::new();
    match r {
        Reply::Array(a) => {
            if a.len() == 0 {
                out.push("  (no outgoing edges)".to_owned());
                proof {
                    assert(words::views_of(out@) =~= neighbors_shown(*r));
                }
                return out;
            }
            let n: usize = a.len() / 3;
            let size: usize = a.len();
            let mut i: usize = 0;
            proof {
                assert(words::views_of(out@) =~= edge_lines(a@, 0));
            }
            while i < n
                invariant
                    i <= n,
                    3 * n <= size == a@.len(),
                    words::views_of(out@) == edge_lines(a@, i as int),
                decreases n - i,
            {
                let at: usize = 3 * i;
                let mut line: String = "  --".to_owned();
                line.append(shown_text(&a[at + 1]).as_str());
                line.append("(");
                line.append(shown_text(&a[at + 2]).as_str());
                line.append(")--> #");
                line.append(text::signed_string(shown_int(&a[at])).as_str());
                let ghost before = out@;
                let ghost v = line@;
                proof {
                    assert(v =~= edge_line(a@, at as int));
                }
                out.push(line);
                i = i + 1;
                proof {
                    assert(words::views_of(out@) =~= words::views_of(before).push(v));
                }
            }
        },
        _ => {
            out.push("  (no neighbors)".to_owned());
            proof {
                assert(words::views_of(out@) =~= neighbors_shown(*r));
            }
        },
    }
    out
}

// ── laws ──────────────────────────────────────────────────────────────────
/// A bucket counts exactly the words that fall into it.
pub proof fn law_buckets_count_their_words(ws: Seq<Seq<char>>, dim: int, b: int, n: int)
    requires
        0 <= n <= ws.len(),
    ensures
        bucket_count(ws, dim, b, n) == ws.take(n).filter(
            |w: Seq<char>| bucket_of(w, dim) == b,
        ).len(),
    decreases n,
{
    reveal(Seq::filter);
    let f = |w: Seq<char>| bucket_of(w, dim) == b;
    if n > 0 {
        law_buckets_count_their_words(ws, dim, b, n - 1);
        assert(ws.take(n).drop_last() =~= ws.take(n - 1));
        assert(ws.take(n).last() == ws[n - 1]);
    } else {
        assert(ws.take(0) =~= Seq::<Seq<char>>::empty());
    }
}

/// What follows `:remember`, `:recall` and `:neigh` is what they are about, and a line without a
/// colon in front is a turn of the conversation.
pub proof fn law_commands_take_what_follows(rest: Seq<char>, line: Seq<char>)
    requires
        line.len() > 0,
        line[0] != ':',
    ensures
        asked(":remember "@ + rest) == AgentView::Remember(rest),
        asked(":recall "@ + rest) == AgentView::Recall(rest),
        asked(":neigh "@ + rest) == AgentView::Neigh(text::trimmed(rest)),
        asked(":link "@ + rest) == link_of(rest),
        asked(":fact "@ + rest) == fact_of(rest),
        asked(":asof "@ + rest) == as_of(rest),
        asked(line) == AgentView::Turn(line),
        asked(Seq::empty()) == AgentView::Empty,
{
    lemma_marks();
    words::law_head_and_rest(":remember "@ + rest, ":remember "@, rest);
    words::law_head_and_rest(":recall "@ + rest, ":recall "@, rest);
    words::law_head_and_rest(":neigh "@ + rest, ":neigh "@, rest);
    words::law_head_and_rest(":link "@ + rest, ":link "@, rest);
    words::law_head_and_rest(":fact "@ + rest, ":fact "@, rest);
    words::law_head_and_rest(":asof "@ + rest, ":asof "@, rest);
    lemma_no_head(line, ":remember "@, 0);
    lemma_no_head(line, ":recall "@, 0);
    lemma_no_head(line, ":neigh "@, 0);
    lemma_no_head(line, ":link "@, 0);
    lemma_no_head(line, ":fact "@, 0);
    lemma_no_head(line, ":asof "@, 0);
    lemma_no_head(":recall "@ + rest, ":remember "@, 3);
    lemma_no_head(":link "@ + rest, ":remember "@, 1);
    lemma_no_head(":link "@ + rest, ":recall "@, 1);
    lemma_no_head(":neigh "@ + rest, ":remember "@, 1);
    lemma_no_head(":neigh "@ + rest, ":recall "@, 1);
    lemma_no_head(":neigh "@ + rest, ":link "@, 1);
    lemma_no_head(":fact "@ + rest, ":remember "@, 1);
    lemma_no_head(":fact "@ + rest, ":recall "@, 1);
    lemma_no_head(":fact "@ + rest, ":link "@, 1);
    lemma_no_head(":fact "@ + rest, ":neigh "@, 1);
    lemma_no_head(":asof "@ + rest, ":remember "@, 1);
    lemma_no_head(":asof "@ + rest, ":recall "@, 1);
    lemma_no_head(":asof "@ + rest, ":link "@, 1);
    lemma_no_head(":asof "@ + rest, ":neigh "@, 1);
    lemma_no_head(":asof "@ + rest, ":fact "@, 1);
    assert((":remember "@ + rest)[1] == 'r');
    assert((":recall "@ + rest)[1] == 'r');
    assert((":neigh "@ + rest)[1] == 'n');
    assert((":link "@ + rest)[1] == 'l');
    assert((":fact "@ + rest)[1] == 'f');
    assert((":asof "@ + rest)[1] == 'a');
    reveal_strlit(":quit");
    reveal_strlit(":q");
    reveal_strlit(":history");
    assert(":quit"@[0] == ':' && ":q"@[0] == ':' && ":history"@[0] == ':');
    assert(":quit"@[1] == 'q' && ":q"@[1] == 'q' && ":history"@[1] == 'h');
}

proof fn lemma_marks()
    ensures
        ":remember "@ == seq![':', 'r', 'e', 'm', 'e', 'm', 'b', 'e', 'r', ' '],
        ":recall "@ == seq![':', 'r', 'e', 'c', 'a', 'l', 'l', ' '],
        ":neigh "@ == seq![':', 'n', 'e', 'i', 'g', 'h', ' '],
        ":link "@ == seq![':', 'l', 'i', 'n', 'k', ' '],
        ":fact "@ == seq![':', 'f', 'a', 'c', 't', ' '],
        ":asof "@ == seq![':', 'a', 's', 'o', 'f', ' '],
{
    reveal_strlit(":remember ");
    reveal_strlit(":recall ");
    reveal_strlit(":neigh ");
    reveal_strlit(":link ");
    reveal_strlit(":fact ");
    reveal_strlit(":asof ");
    assert(":remember "@ =~= seq![':', 'r', 'e', 'm', 'e', 'm', 'b', 'e', 'r', ' ']);
    assert(":recall "@ =~= seq![':', 'r', 'e', 'c', 'a', 'l', 'l', ' ']);
    assert(":neigh "@ =~= seq![':', 'n', 'e', 'i', 'g', 'h', ' ']);
    assert(":link "@ =~= seq![':', 'l', 'i', 'n', 'k', ' ']);
    assert(":fact "@ =~= seq![':', 'f', 'a', 'c', 't', ' ']);
    assert(":asof "@ =~= seq![':', 'a', 's', 'o', 'f', ' ']);
}

proof fn lemma_no_head(s: Seq<char>, head: Seq<char>, i: int)
    requires
        0 <= i < head.len(),
        i < s.len(),
        s[i] != head[i],
    ensures
        words::behind(s, head) is None,
{
    if head.is_prefix_of(s) {
        assert(s.subrange(0, head.len() as int)[i] == s[i]);
    }
}

/// A fact is the text in front of the first ` at `, and its time stands between that and the first
/// ` for `; a time and a query are parted by the first blank; a link is three words.
pub proof fn law_commands_stand_between_their_marks(rest: Seq<char>)
    ensures
        fact_of(rest) matches AgentView::Fact(t, when) ==> (t + " at "@ + when
            + " for "@).is_prefix_of(rest) && words::place_in(rest, " at "@) == Some(t.len() as int),
        fact_of(rest) is FactUsage <==> words::place_in(rest, " at "@) is None || words::place_in(
            rest,
            " for "@,
        ) is None,
        fact_of(rest) is Fact || fact_of(rest) is FactUsage || fact_of(rest) is FactGarbled,
        as_of(rest) matches AgentView::AsOf(t, q) ==> rest == t.push(' ') + q && !t.contains(' '),
        as_of(rest) is AsOfUsage <==> !rest.contains(' '),
        link_of(rest) matches AgentView::Link(a, b, c) ==> words::words_from(rest, 0) == seq![
            a,
            b,
            c,
        ],
        link_of(rest) is LinkUsage <==> words::words_from(rest, 0).len() != 3,
{
    words::law_part_is_found_first(rest, " at "@);
    words::law_part_is_found_first(rest, " for "@);
    words::law_cuts_are_at_the_first(rest, ' ');
    reveal_strlit(" at ");
    reveal_strlit(" for ");
    if let AgentView::Fact(t, when) = fact_of(rest) {
        let a = words::place_in(rest, " at "@)->0;
        let b = words::place_in(rest, " for "@)->0;
        let whole = t + " at "@ + when + " for "@;
        assert(whole.len() == b + 5);
        assert forall|i: int| 0 <= i < whole.len() implies whole[i] == #[trigger] rest.subrange(
            0,
            b + 5,
        )[i] by {
            if a <= i < a + 4 {
                assert(rest.subrange(a, a + 4)[i - a] == rest[i]);
            }
            if b <= i {
                assert(rest.subrange(b, b + 5)[i - b] == rest[i]);
            }
        }
        assert(whole =~= rest.subrange(0, b + 5));
    }
    if let AgentView::AsOf(t, q) = as_of(rest) {
        assert((t.push(' ') + q)[t.len() as int] == ' ');
    }
    if let AgentView::Link(a, b, c) = link_of(rest) {
        assert(words::words_from(rest, 0) =~= seq![a, b, c]);
    }
}

/// A request carries what was typed, and behind it the embedding where it searches by it: a link
/// names its two ends before the relation.
pub proof fn law_requests_carry_what_was_typed(
    agent: Seq<char>,
    comps: Seq<Seq<char>>,
    x: Seq<char>,
    y: Seq<char>,
    z: Seq<char>,
)
    ensures
        request_of(AgentView::Remember(x), agent, comps) matches Some(r) && r[1] == x && r[2]
            == agent && comps.is_suffix_of(r) && r.len() == 4 + comps.len(),
        request_of(AgentView::Recall(x), agent, comps) matches Some(r) && r[2] == x
            && comps.is_suffix_of(r) && r.len() == 3 + comps.len(),
        request_of(AgentView::Turn(x), agent, comps) matches Some(r) && r[2] == x
            && comps.is_suffix_of(r) && r.len() == 3 + comps.len(),
        request_of(AgentView::Link(x, y, z), agent, comps) matches Some(r) && r[1] == x && r[2] == z
            && r[3] == y && r.len() == 5,
        request_of(AgentView::Neigh(x), agent, comps) matches Some(r) && r[1] == x && r.len() == 2,
        request_of(AgentView::Fact(x, y), agent, comps) matches Some(r) && r[1] == x && r[4] == y
            && comps.is_suffix_of(r) && r.len() == 6 + comps.len(),
        request_of(AgentView::AsOf(x, y), agent, comps) matches Some(r) && r[2] == y && r[3] == x
            && comps.is_suffix_of(r) && r.len() == 4 + comps.len(),
        request_of(AgentView::Empty, agent, comps) is None,
        request_of(AgentView::Quit, agent, comps) is None,
        request_of(AgentView::History, agent, comps) is None,
{
    lemma_behind_head(AgentView::Remember(x), agent, comps);
    lemma_behind_head(AgentView::Recall(x), agent, comps);
    lemma_behind_head(AgentView::Turn(x), agent, comps);
    lemma_behind_head(AgentView::Fact(x, y), agent, comps);
    lemma_behind_head(AgentView::AsOf(x, y), agent, comps);
}

proof fn lemma_behind_head(cmd: AgentView, agent: Seq<char>, comps: Seq<Seq<char>>)
    ensures
        request_head(cmd, agent) matches Some((head, true)) ==> comps.is_suffix_of(head + comps),
{
    if let Some((head, true)) = request_head(cmd, agent) {
        let r = head + comps;
        assert(comps =~= r.subrange((r.len() - comps.len()) as int, r.len() as int));
    }
}

/// Every four replies make one line, in their order, that ends in the text of the memory; every
/// three make one edge, that ends in where it leads.
pub proof fn law_lines_follow_the_replies(a: Seq<Reply>, n: int, i: int)
    requires
        0 <= i < n,
    ensures
        hit_lines(a, n).len() == n,
        text_or_empty(a[4 * i + 3]).is_suffix_of(hit_lines(a, n)[i]),
        edge_lines(a, n).len() == n,
        text::signed_text(int_or_minus(a[3 * i])).is_suffix_of(edge_lines(a, n)[i]),
    decreases n,
{
    lemma_line_count(a, n - 1);
    if i < n - 1 {
        law_lines_follow_the_replies(a, n - 1, i);
        assert(hit_lines(a, n)[i] == hit_lines(a, n - 1)[i]);
        assert(edge_lines(a, n)[i] == edge_lines(a, n - 1)[i]);
    } else {
        let h = hit_line(a, 4 * i);
        let e = edge_line(a, 3 * i);
        let t = text_or_empty(a[4 * i + 3]);
        let d = text::signed_text(int_or_minus(a[3 * i]));
        assert(t =~= h.subrange((h.len() - t.len()) as int, h.len() as int));
        assert(d =~= e.subrange((e.len() - d.len()) as int, e.len() as int));
    }
}

proof fn lemma_line_count(a: Seq<Reply>, n: int)
    requires
        n >= 0,
    ensures
        hit_lines(a, n).len() == n,
        edge_lines(a, n).len() == n,
    decreases n,
{
    if n > 0 {
        lemma_line_count(a, n - 1);
    }
}

} // verus!
