//! What agent memory gives back, keeps apart and forgets.
use crate::codec;
use crate::memory;
use crate::memory::{EpisodeView, Rows};
use crate::memory_keys as keys;
use crate::order;
use crate::recall;
use crate::reply;
use crate::store;
use crate::tokens;
use vstd::prelude::*;
use vstd::utf8::*;

verus! {

proof fn lemma_id_bytes(a: u64, b: u64)
    ensures
        keys::id_bytes(a).len() == 8,
        keys::id_bytes(a) == keys::id_bytes(b) ==> a == b,
        codec::be_value(keys::id_bytes(a)) == a,
{
    codec::lemma_limits();
    codec::law_bytes_round_trip(a as nat, 8);
    codec::law_bytes_round_trip(b as nat, 8);
}

/// The keys of texts, meta records and postings never collide, and different ids have
/// different keys.
pub proof fn law_ltm_keys_apart(a: u64, b: u64, token: Seq<char>, c: u64)
    ensures
        memory::ltm_at(a) != memory::meta_at(b),
        memory::ltm_at(a) != memory::kw_at(token, c),
        memory::meta_at(a) != memory::kw_at(token, c),
        memory::ltm_at(a) == memory::ltm_at(b) ==> a == b,
        memory::meta_at(a) == memory::meta_at(b) ==> a == b,
{
    lemma_id_bytes(a, b);
    let la = memory::ltm_at(a);
    let lb = memory::ltm_at(b);
    let ma = memory::meta_at(a);
    let mb = memory::meta_at(b);
    let k = memory::kw_at(token, c);
    assert(la[4] == 108 && mb[4] == 109 && ma[4] == 109 && k[4] == 107);
    if la == lb {
        assert(la.skip(8) =~= keys::id_bytes(a));
        assert(lb.skip(8) =~= keys::id_bytes(b));
    }
    if ma == mb {
        assert(ma.skip(9) =~= keys::id_bytes(a));
        assert(mb.skip(9) =~= keys::id_bytes(b));
    }
}

proof fn lemma_postings_keep(s: Rows, toks: Seq<Seq<char>>, id: u64, key: Seq<u8>)
    requires
        forall|t: Seq<char>| #[trigger] memory::kw_at(t, id) != key,
    ensures
        memory::bytes_at(memory::with_postings(s, toks, id), key) == memory::bytes_at(s, key),
        memory::bytes_at(memory::without_postings(s, toks, id), key) == memory::bytes_at(s, key),
    decreases toks.len(),
{
    if toks.len() > 0 {
        lemma_postings_keep(s, toks.drop_last(), id, key);
        assert(memory::kw_at(toks.last(), id) != key);
    }
}

/// A memory that was stored is read back with its text, its lineage and its owner, and
/// every other memory as it was.
pub proof fn law_stored_memory_is_found(
    s: Rows,
    id: u64,
    text: Seq<char>,
    m: keys::MetaView,
    other: u64,
)
    requires
        encode_utf8(m.source).len() < 0x1_0000_0000,
        encode_utf8(m.owner).len() < 0x1_0000_0000,
    ensures
        memory::ltm_for(memory::stored(s, id, text, m), id) == Some((text, m)),
        other != id ==> memory::ltm_for(memory::stored(s, id, text, m), other) == memory::ltm_for(
            s,
            other,
        ),
{
    let base = s.insert(
        memory::ltm_at(id),
        store::ValueView::Bytes(encode_utf8(text)),
    ).insert(memory::meta_at(id), store::ValueView::Bytes(keys::meta_bytes(m)));
    let toks = tokens::tokens(text);
    law_ltm_keys_apart(id, other, Seq::empty(), id);
    law_ltm_keys_apart(other, id, Seq::empty(), id);
    law_ltm_keys_apart(id, id, Seq::empty(), id);
    assert forall|t: Seq<char>| #[trigger] memory::kw_at(t, id) != memory::ltm_at(id) && memory::kw_at(
        t,
        id,
    ) != memory::meta_at(id) && memory::kw_at(t, id) != memory::ltm_at(other) && memory::kw_at(
        t,
        id,
    ) != memory::meta_at(other) by {
        law_ltm_keys_apart(id, other, t, id);
        law_ltm_keys_apart(other, id, t, id);
    }
    lemma_postings_keep(base, toks, id, memory::ltm_at(id));
    lemma_postings_keep(base, toks, id, memory::meta_at(id));
    lemma_postings_keep(base, toks, id, memory::ltm_at(other));
    lemma_postings_keep(base, toks, id, memory::meta_at(other));
    encode_utf8_valid_utf8(text);
    encode_utf8_decode_utf8(text);
    keys::law_meta_round_trip(m);
}

/// A memory that was forgotten is gone, and every other memory is as it was.
pub proof fn law_forgotten_memory_is_gone(s: Rows, id: u64, other: u64)
    ensures
        memory::ltm_for(memory::forgotten(s, id), id) is None,
        other != id ==> memory::ltm_for(memory::forgotten(s, id), other) == memory::ltm_for(
            s,
            other,
        ),
{
    law_ltm_keys_apart(id, other, Seq::empty(), id);
    law_ltm_keys_apart(other, id, Seq::empty(), id);
    law_ltm_keys_apart(id, id, Seq::empty(), id);
    assert forall|t: Seq<char>| #[trigger] memory::kw_at(t, id) != memory::ltm_at(other)
        && memory::kw_at(t, id) != memory::meta_at(other) by {
        law_ltm_keys_apart(other, id, t, id);
    }
    if let Some((text, _)) = memory::ltm_for(s, id) {
        lemma_postings_keep(s, tokens::tokens(text), id, memory::ltm_at(other));
        lemma_postings_keep(s, tokens::tokens(text), id, memory::meta_at(other));
    }
}

/// A memory that was invalidated is hidden from recall from that time on: no query and no
/// agent gets it, however many results are asked for.
pub proof fn law_invalidated_memory_is_hidden(
    s: Rows,
    id: u64,
    at: u64,
    scope: Seq<char>,
    now: u64,
    all: Seq<recall::Scored>,
    k: nat,
    r: Seq<recall::HitView>,
)
    requires
        0 < at <= now,
        recall::recalled(memory::invalidated(s, id, at), scope, now, all, k, r),
    ensures
        forall|i: int| 0 <= i < r.len() ==> (#[trigger] r[i]).id != id,
{
    let t = memory::invalidated(s, id, at);
    law_ltm_keys_apart(id, id, Seq::empty(), id);
    if let Some((_, m)) = memory::ltm_for(s, id) {
        keys::lemma_meta_fits(memory::bytes_at(s, memory::meta_at(id))->0);
        keys::law_meta_round_trip((keys::MetaView { valid_to: at, ..m }));
        assert(memory::ltm_for(t, id) matches Some((_, x)) && x.valid_to == at);
    }
    recall::law_recall_is_scoped(t, scope, now, all, k, r);
}

/// An entry of working memory can be read until it expires, and never after; without a
/// time to live it never expires.
pub proof fn law_working_memory_expires(
    s: Rows,
    agent: Seq<char>,
    k: Seq<char>,
    value: Seq<u8>,
    ttl_ms: u64,
    written: u64,
    now: u64,
)
    requires
        written + ttl_ms <= u64::MAX,
    ensures
        ({
            let w = memory::wm_written(s, agent, k, value, memory::expiry(ttl_ms, written));
            let dead = ttl_ms > 0 && now >= written + ttl_ms;
            &&& memory::wm_read(w, agent, k, now) == (if dead {
                None
            } else {
                Some(value)
            })
            &&& dead ==> memory::bytes_at(
                memory::wm_after(w, agent, k, now),
                memory::wm_at(agent, k),
            ) is None
        }),
{
    let exp = memory::expiry(ttl_ms, written);
    assert((exp as i64) as u64 == exp) by (bit_vector);
    assert(exp != 0 ==> (exp as i64) != 0) by (bit_vector);
    assert((0u64 as i64) == 0) by (bit_vector);
    let a = memory::wm_at(agent, k);
    let b = memory::wmx_at(agent, k);
    assert(a[6] == 58 && b[6] == 120);
}

/// Episodes numbered in the same millisecond differ as long as their counters do, and
/// a later millisecond always gives a larger number.
pub proof fn law_episode_numbers_ordered(ts1: u64, c1: u64, ts2: u64, c2: u64)
    requires
        ts1 < 0x400_0000_0000,
        ts2 < 0x400_0000_0000,
    ensures
        ts1 < ts2 ==> memory::episode_seq(ts1, c1) < memory::episode_seq(ts2, c2),
        ts1 == ts2 && c1 % 0x40_0000 != c2 % 0x40_0000 ==> memory::episode_seq(ts1, c1)
            != memory::episode_seq(ts2, c2),
        ts1 == ts2 && c1 % 0x40_0000 < c2 % 0x40_0000 ==> memory::episode_seq(ts1, c1)
            < memory::episode_seq(ts2, c2),
{
    assert((ts1 << 22) | (c1 & 0x3F_FFFF) == ts1 * 0x40_0000 + c1 % 0x40_0000) by (bit_vector)
        requires
            ts1 < 0x400_0000_0000,
    ;
    assert((ts2 << 22) | (c2 & 0x3F_FFFF) == ts2 * 0x40_0000 + c2 % 0x40_0000) by (bit_vector)
        requires
            ts2 < 0x400_0000_0000,
    ;
}

/// The numbers of a run of episodes, by the times that the clock reads, and the least number
/// that is left then.
pub open spec fn issued(counter: u64, least: u64, times: Seq<u64>) -> (Seq<u64>, u64)
    decreases times.len(),
{
    if times.len() == 0 {
        (Seq::empty(), least)
    } else {
        let before = issued(counter, least, times.drop_last());
        let n = memory::numbered(
            times.last(),
            counter.wrapping_add((times.len() - 1) as u64),
            before.1,
        );
        (before.0.push(n), memory::behind(n))
    }
}

/// The numbers of episodes rise with every one, whatever the clock reads and however many
/// there were before, until the last number is given.
pub proof fn law_episode_numbers_rise(counter: u64, least: u64, times: Seq<u64>)
    ensures
        issued(counter, least, times).0.len() == times.len(),
        forall|i: int, j: int|
            0 <= i < j < times.len() && issued(counter, least, times).0[i] < u64::MAX
                ==> #[trigger] issued(counter, least, times).0[i] < #[trigger] issued(
                counter,
                least,
                times,
            ).0[j],
        forall|i: int|
            0 <= i < times.len() && issued(counter, least, times).0[i] < u64::MAX
                ==> #[trigger] issued(counter, least, times).0[i] < issued(
                counter,
                least,
                times,
            ).1,
    decreases times.len(),
{
    if times.len() > 0 {
        law_episode_numbers_rise(counter, least, times.drop_last());
        let before = issued(counter, least, times.drop_last());
        let after = issued(counter, least, times);
        assert forall|i: int, j: int|
            0 <= i < j < times.len() && after.0[i] < u64::MAX implies #[trigger] after.0[i]
            < #[trigger] after.0[j] by {
            assert(after.0[i] == before.0[i]);
            if j < before.0.len() {
                assert(after.0[j] == before.0[j]);
            }
        }
        assert forall|i: int| 0 <= i < times.len() && after.0[i] < u64::MAX implies #[trigger] after.0[i]
            < after.1 by {
            if i < before.0.len() {
                assert(after.0[i] == before.0[i]);
            }
        }
    }
}

proof fn lemma_left_behind(rows: Seq<store::Row>, i: int)
    requires
        0 <= i < rows.len(),
        memory::ends_in_number(rows[i].0),
    ensures
        memory::least_left(rows) >= memory::behind(memory::tail_id(rows[i].0)),
    decreases rows.len(),
{
    if i < rows.len() - 1 {
        assert(rows.drop_last()[i] == rows[i]);
        lemma_left_behind(rows.drop_last(), i);
    }
}

/// However a store comes to be taken up, an episode that is appended then overwrites none that
/// is stored, whatever the clock reads, until the last number is given.
pub proof fn law_reopening_overwrites_no_episode(
    rows: Seq<store::Row>,
    i: int,
    agent: Seq<char>,
    ts: u64,
    counter: u64,
)
    requires
        0 <= i < rows.len(),
        memory::tail_id(rows[i].0) < u64::MAX,
    ensures
        rows[i].0 != keys::text_id(
            keys::ep_head(),
            agent,
            memory::numbered(ts, counter, memory::episodes_left(rows)),
        ),
        keys::ep_head().is_prefix_of(rows[i].0) && memory::ends_in_number(rows[i].0)
            ==> memory::tail_id(rows[i].0) < memory::numbered(
            ts,
            counter,
            memory::episodes_left(rows),
        ),
{
    let head = keys::ep_head();
    let n = memory::numbered(ts, counter, memory::episodes_left(rows));
    let key = keys::text_id(head, agent, n);
    let p = |r: store::Row| head.is_prefix_of(r.0);
    let under = store::rows_under(rows, head);
    if head.is_prefix_of(rows[i].0) && memory::ends_in_number(rows[i].0) {
        rows.lemma_filter_contains(p, i);
        let j = choose|j: int| 0 <= j < under.len() && under[j] == rows[i];
        lemma_left_behind(under, j);
    }
    if rows[i].0 == key {
        codec::lemma_limits();
        codec::law_bytes_round_trip(n as nat, 8);
        assert(key.skip(key.len() - 8) =~= codec::be(n as nat, 8));
        assert(head.is_prefix_of(key));
        assert(key[key.len() - 9] == 58);
    }
}

/// An episode that was appended is listed for its agent, with its number, kind and
/// payload.
pub proof fn law_episode_is_listed(agent: Seq<char>, seq: u64, kind: Seq<char>, payload: Seq<u8>)
    requires
        encode_utf8(kind).len() < 0x1_0000,
    ensures
        memory::ep_prefix(agent).is_prefix_of(keys::text_id(keys::ep_head(), agent, seq)),
        memory::episode_in(
            (
                keys::text_id(keys::ep_head(), agent, seq),
                store::ValueView::Bytes(memory::episode_bytes(kind, payload)),
            ),
            agent,
        ) == Some(EpisodeView { seq, agent, kind, payload }),
{
    let key = keys::text_id(keys::ep_head(), agent, seq);
    let prefix = memory::ep_prefix(agent);
    let b = memory::episode_bytes(kind, payload);
    let e = encode_utf8(kind);
    lemma_id_bytes(seq, seq);
    codec::lemma_limits();
    codec::law_bytes_round_trip(e.len(), 2);
    assert(key.subrange(0, prefix.len() as int) =~= prefix);
    assert(key.skip(prefix.len() as int) =~= keys::id_bytes(seq));
    assert(b.subrange(0, 2) =~= codec::be(e.len(), 2));
    assert(b.subrange(2, 2 + e.len() as int) =~= e);
    assert(b.skip(2 + e.len() as int) =~= payload);
    encode_utf8_valid_utf8(kind);
    encode_utf8_decode_utf8(kind);
}

/// An agent is never shown a row of another agent: an episode listed for it was written
/// under its own name.
pub proof fn law_episodes_are_private(agent: Seq<char>, other: Seq<char>, seq: u64, v: store::ValueView)
    requires
        memory::ep_prefix(agent).is_prefix_of(keys::text_id(keys::ep_head(), other, seq)),
        memory::episode_in((keys::text_id(keys::ep_head(), other, seq), v), agent) is Some,
    ensures
        other == agent,
{
    let key = keys::text_id(keys::ep_head(), other, seq);
    let p = memory::ep_prefix(agent);
    let q = memory::ep_prefix(other);
    lemma_id_bytes(seq, seq);
    assert(key.len() == q.len() + 8);
    assert(p.len() == q.len());
    assert(key.subrange(0, p.len() as int) =~= q);
    assert(p == q);
    let n = keys::ep_head().len() as int;
    assert(p.subrange(n, p.len() - 1) =~= encode_utf8(agent));
    assert(q.subrange(n, q.len() - 1) =~= encode_utf8(other));
    encode_utf8_decode_utf8(agent);
    encode_utf8_decode_utf8(other);
}

/// After taking up a store, a new memory's id is larger than that of every memory in it.
pub proof fn law_resumed_ids_are_new(rows: Seq<store::Row>, i: int)
    requires
        0 <= i < rows.len(),
    ensures
        memory::tail_id(rows[i].0) <= memory::max_id(rows),
    decreases rows.len(),
{
    if i < rows.len() - 1 {
        law_resumed_ids_are_new(rows.drop_last(), i);
    }
}

/// A procedure that was stored is listed under its agent, with its name.
pub proof fn law_procedure_is_listed(agent: Seq<char>, name: Seq<char>)
    ensures
        memory::proc_prefix(agent).is_prefix_of(memory::proc_at(agent, name)),
        reply::shown(memory::proc_at(agent, name)) == memory::proc_text(agent) + name,
{
    reveal_strlit("mem:proc:");
    reveal_strlit(":");
    let key = memory::proc_at(agent, name);
    let prefix = memory::proc_prefix(agent);
    assert(key.subrange(0, prefix.len() as int) =~= prefix);
    let h = "mem:proc:"@;
    let c = ":"@;
    is_ascii_chars_encode_utf8(h);
    is_ascii_chars_encode_utf8(c);
    assert(encode_utf8(h) =~= keys::proc_head());
    assert(encode_utf8(c) =~= seq![58u8]);
    let t = h + agent + c + name;
    lemma_encode_concat(h, agent);
    lemma_encode_concat(h + agent, c);
    lemma_encode_concat(h + agent + c, name);
    assert(encode_utf8(t) =~= key);
    encode_utf8_valid_utf8(t);
    encode_utf8_decode_utf8(t);
}

/// Encoding two texts one after the other is encoding them together.
pub proof fn lemma_encode_concat(a: Seq<char>, b: Seq<char>)
    ensures
        encode_utf8(a + b) == encode_utf8(a) + encode_utf8(b),
    decreases a.len(),
{
    if a.len() == 0 {
        assert(a + b =~= b);
        assert(encode_utf8(a) + encode_utf8(b) =~= encode_utf8(b));
    } else {
        lemma_encode_concat(a.drop_first(), b);
        assert((a + b).drop_first() =~= a.drop_first() + b);
        assert((a + b)[0] == a[0]);
        assert(encode_utf8(a + b) =~= encode_utf8(a) + encode_utf8(b));
    }
}

proof fn lemma_postings_apart(a: Seq<char>, b: Seq<char>, id: u64, other: u64)
    ensures
        memory::kw_at(a, id) == memory::kw_at(b, other) ==> a == b && id == other,
{
    let h = keys::kw_head();
    let (x, y) = (memory::kw_at(a, id), memory::kw_at(b, other));
    let (ea, eb) = (encode_utf8(a), encode_utf8(b));
    lemma_id_bytes(id, other);
    lemma_id_bytes(other, id);
    if x == y {
        assert(x.len() == h.len() + ea.len() + 9);
        assert(y.len() == h.len() + eb.len() + 9);
        assert(x.subrange(h.len() as int, (h.len() + ea.len()) as int) =~= ea);
        assert(y.subrange(h.len() as int, (h.len() + eb.len()) as int) =~= eb);
        assert(x.skip(x.len() - 8) =~= keys::id_bytes(id));
        assert(y.skip(y.len() - 8) =~= keys::id_bytes(other));
        encode_utf8_decode_utf8(a);
        encode_utf8_decode_utf8(b);
    }
}

proof fn lemma_postings(s: Rows, toks: Seq<Seq<char>>, id: u64, t: Seq<char>, other: u64)
    ensures
        memory::with_postings(s, toks, id).contains_key(memory::kw_at(t, other)) <==> (
        s.contains_key(memory::kw_at(t, other)) || (other == id && toks.contains(t))),
        memory::without_postings(s, toks, id).contains_key(memory::kw_at(t, other)) <==> (
        s.contains_key(memory::kw_at(t, other)) && !(other == id && toks.contains(t))),
    decreases toks.len(),
{
    if toks.len() > 0 {
        let front = toks.drop_last();
        lemma_postings(s, front, id, t, other);
        lemma_postings_apart(toks.last(), t, id, other);
        if front.contains(t) {
            let i = choose|i: int| 0 <= i < front.len() && front[i] == t;
            assert(toks[i] == t);
        }
        if toks.contains(t) {
            let i = choose|i: int| 0 <= i < toks.len() && toks[i] == t;
            if i < front.len() {
                assert(front[i] == t);
            }
        }
        assert(toks.last() == t ==> toks.contains(t)) by {
            assert(toks[toks.len() - 1] == toks.last());
        }
    }
}

/// A memory that is stored is posted under every token of its text, and under no other token that
/// it was not posted under before; no posting of another memory comes or goes.
pub proof fn law_stored_memory_is_posted(
    s: Rows,
    id: u64,
    text: Seq<char>,
    m: keys::MetaView,
    token: Seq<char>,
    other: u64,
)
    ensures
        memory::stored(s, id, text, m).contains_key(memory::kw_at(token, other)) <==> (
        s.contains_key(memory::kw_at(token, other)) || (other == id && tokens::tokens(
            text,
        ).contains(token))),
{
    let base = s.insert(
        memory::ltm_at(id),
        store::ValueView::Bytes(encode_utf8(text)),
    ).insert(memory::meta_at(id), store::ValueView::Bytes(keys::meta_bytes(m)));
    law_ltm_keys_apart(id, id, token, other);
    lemma_postings(base, tokens::tokens(text), id, token, other);
}

/// A memory that is forgotten is posted under none of the tokens of its text any more; no posting
/// of another memory goes.
pub proof fn law_forgotten_memory_is_unposted(
    s: Rows,
    id: u64,
    token: Seq<char>,
    other: u64,
)
    ensures
        other != id ==> memory::forgotten(s, id).contains_key(memory::kw_at(token, other))
            == s.contains_key(memory::kw_at(token, other)),
        (memory::ltm_for(s, id) matches Some((text, _)) && tokens::tokens(text).contains(token))
            ==> !memory::forgotten(s, id).contains_key(memory::kw_at(token, id)),
{
    law_ltm_keys_apart(id, id, token, other);
    law_ltm_keys_apart(id, id, token, id);
    if let Some((text, _)) = memory::ltm_for(s, id) {
        lemma_postings(s, tokens::tokens(text), id, token, other);
        lemma_postings(s, tokens::tokens(text), id, token, id);
    }
}

/// Ending a memory's validity leaves its text and all else that is known of it, and every other
/// memory; one that is not stored is not made.
pub proof fn law_invalidation_ends_validity_only(s: Rows, id: u64, at: u64, other: u64)
    ensures
        match memory::ltm_for(s, id) {
            Some((text, m)) => memory::ltm_for(memory::invalidated(s, id, at), id) == Some(
                (text, (keys::MetaView { valid_to: at, ..m })),
            ),
            None => memory::ltm_for(memory::invalidated(s, id, at), id) is None,
        },
        other != id ==> memory::ltm_for(memory::invalidated(s, id, at), other) == memory::ltm_for(
            s,
            other,
        ),
{
    law_ltm_keys_apart(id, other, Seq::empty(), id);
    law_ltm_keys_apart(other, id, Seq::empty(), id);
    law_ltm_keys_apart(id, id, Seq::empty(), id);
    if let Some((text, m)) = memory::ltm_for(s, id) {
        let b = memory::bytes_at(s, memory::meta_at(id))->0;
        keys::lemma_meta_fits(b);
        keys::law_meta_round_trip(keys::MetaView { valid_to: at, ..m });
    }
}

/// No kind of row begins as another does, so that no scan of one finds another.
pub proof fn law_kinds_of_rows_apart()
    ensures
        ({
            let heads = seq![
                keys::wm_head(),
                keys::wmx_head(),
                keys::ltm_head(),
                keys::meta_head(),
                keys::ep_head(),
                keys::kw_head(),
                keys::edge_head(),
                keys::redge_head(),
                keys::proc_head(),
            ];
            forall|i: int, j: int|
                0 <= i < 9 && 0 <= j < 9 && i != j ==> !(#[trigger] heads[i]).is_prefix_of(
                    #[trigger] heads[j],
                )
        }),
{
    let heads = seq![
        keys::wm_head(),
        keys::wmx_head(),
        keys::ltm_head(),
        keys::meta_head(),
        keys::ep_head(),
        keys::kw_head(),
        keys::edge_head(),
        keys::redge_head(),
        keys::proc_head(),
    ];
    assert forall|i: int, j: int| 0 <= i < 9 && 0 <= j < 9 && i != j implies !(
    #[trigger] heads[i]).is_prefix_of(#[trigger] heads[j]) by {
        let (a, b) = (heads[i], heads[j]);
        if a.is_prefix_of(b) {
            assert(a[4] == b.subrange(0, a.len() as int)[4]);
            assert(a[5] == b.subrange(0, a.len() as int)[5]);
            assert(a[6] == b.subrange(0, a.len() as int)[6]);
        }
    }
}

/// The episodes of an agent are those that its rows hold, in the order of the rows.
pub proof fn law_rows_make_episodes(rows: Seq<store::Row>, agent: Seq<char>)
    ensures
        memory::episodes_in(rows, agent) == rows.filter_map(
            |r: store::Row| memory::episode_in(r, agent),
        ),
    decreases rows.len(),
{
    reveal(Seq::filter_map);
    if rows.len() > 0 {
        law_rows_make_episodes(rows.drop_last(), agent);
        if let Some(e) = memory::episode_in(rows.last(), agent) {
            let rest = memory::episodes_in(rows.drop_last(), agent);
            assert(rest.push(e) =~= rest + seq![e]);
        }
    }
}

/// The listed episodes are the oldest, oldest first: as many as were asked for, or all, and no
/// episode that is left out has a smaller number than one that is listed.
pub proof fn law_oldest_episodes_come_first(eps: Seq<EpisodeView>, limit: nat, r: Seq<EpisodeView>)
    requires
        memory::oldest(eps, limit, r),
    ensures
        r.len() == (if limit < eps.len() {
            limit
        } else {
            eps.len()
        }),
        forall|i: int, j: int| 0 <= i < j < r.len() ==> (#[trigger] r[i]).seq <= (#[trigger] r[j]).seq,
        forall|i: int| 0 <= i < r.len() ==> eps.contains(#[trigger] r[i]),
        forall|e: EpisodeView, i: int|
            #![trigger eps.contains(e), r[i]]
            eps.contains(e) && !r.contains(e) && 0 <= i < r.len() ==> r[i].seq <= e.seq,
        eps.len() <= limit ==> forall|e: EpisodeView| #[trigger] eps.contains(e) ==> r.contains(e),
{
    let keys = memory::seq_keys(eps);
    let p = choose|p: Seq<usize>|
        #![trigger order::stable_order(memory::seq_keys(eps), p)]
        order::stable_order(memory::seq_keys(eps), p) && r == Seq::new(
            if limit < eps.len() {
                limit
            } else {
                eps.len()
            },
            |i: int| eps[p[i] as int],
        );
    order::law_stable_order_sorts(keys, p);
    assert forall|i: int, j: int| 0 <= i < j < r.len() implies (#[trigger] r[i]).seq <= (
    #[trigger] r[j]).seq by {
        assert(keys[p[i] as int] <= keys[p[j] as int]);
    }
    assert forall|e: EpisodeView| #[trigger] eps.contains(e) implies r.contains(e) || (r.len()
        == limit < eps.len() && forall|i: int| 0 <= i < r.len() ==> (#[trigger] r[i]).seq <= e.seq) by {
        let x = choose|x: int| 0 <= x < eps.len() && eps[x] == e;
        assert(p.contains(x as usize));
        let k = choose|k: int| 0 <= k < p.len() && p[k] == x as usize;
        if k < r.len() {
            assert(r[k] == e);
        } else {
            assert forall|i: int| 0 <= i < r.len() implies (#[trigger] r[i]).seq <= e.seq by {
                assert(keys[p[i] as int] <= keys[p[k] as int]);
            }
        }
    }
}

/// The names of an agent's procedures are what its rows say behind the agent's name, in the order
/// of the rows.
pub proof fn law_rows_name_procedures(rows: Seq<store::Row>, agent: Seq<char>)
    ensures
        memory::proc_names(rows, agent) == rows.filter_map(
            |r: store::Row|
                {
                    let (t, h) = (reply::shown(r.0), "mem:proc:"@ + agent + ":"@);
                    if h.is_prefix_of(t) {
                        Some(t.skip(h.len() as int))
                    } else {
                        None
                    }
                },
        ),
    decreases rows.len(),
{
    reveal(Seq::filter_map);
    if rows.len() > 0 {
        law_rows_name_procedures(rows.drop_last(), agent);
        let rest = memory::proc_names(rows.drop_last(), agent);
        let (t, h) = (reply::shown(rows.last().0), "mem:proc:"@ + agent + ":"@);
        assert(h == memory::proc_text(agent));
        if h.is_prefix_of(t) {
            let e = t.skip(h.len() as int);
            assert(rest.push(e) =~= rest + seq![e]);
        }
    }
}

/// The largest id is that of a row, or 0 where there is none: no id behind it is passed over.
pub proof fn law_largest_id_is_stored(rows: Seq<store::Row>)
    ensures
        memory::max_id(rows) == 0 || exists|i: int|
            0 <= i < rows.len() && memory::tail_id((#[trigger] rows[i]).0) == memory::max_id(rows),
    decreases rows.len(),
{
    if rows.len() > 0 {
        let front = rows.drop_last();
        law_largest_id_is_stored(front);
        if memory::max_id(rows) == memory::max_id(front) && memory::max_id(front) != 0 {
            let i = choose|i: int|
                0 <= i < front.len() && memory::tail_id((#[trigger] front[i]).0) == memory::max_id(
                    front,
                );
            assert(rows[i] == front[i]);
        } else if memory::max_id(rows) != 0 {
            assert(memory::tail_id(rows[rows.len() - 1].0) == memory::max_id(rows));
        }
    }
}

/// After taking up a store, the salience of each memory in it is known as its record says it, and
/// of no other.
pub proof fn law_saliences_are_the_records(rows: Seq<store::Row>, s: Rows, id: u64)
    ensures
        memory::saliences(rows, s).contains_key(id) <==> memory::meta_for(s, id) is Some && exists|
            i: int,
        |
            0 <= i < rows.len() && memory::tail_id((#[trigger] rows[i]).0) == id,
        memory::saliences(rows, s).contains_key(id) ==> memory::saliences(rows, s)[id]
            == memory::meta_for(s, id)->0.salience,
    decreases rows.len(),
{
    if rows.len() > 0 {
        let front = rows.drop_last();
        law_saliences_are_the_records(front, s, id);
        if exists|i: int| 0 <= i < front.len() && memory::tail_id((#[trigger] front[i]).0) == id {
            let i = choose|i: int|
                0 <= i < front.len() && memory::tail_id((#[trigger] front[i]).0) == id;
            assert(memory::tail_id(rows[i].0) == id);
        }
        if exists|i: int| 0 <= i < rows.len() && memory::tail_id((#[trigger] rows[i]).0) == id {
            let i = choose|i: int|
                0 <= i < rows.len() && memory::tail_id((#[trigger] rows[i]).0) == id;
            if i < front.len() {
                assert(memory::tail_id(front[i].0) == id);
            }
        }
    }
}

/// What is written to working memory is found under the same agent and key alone: another key of
/// the agent reads as before.
pub proof fn law_working_memory_is_keyed(
    s: Rows,
    agent: Seq<char>,
    k: Seq<char>,
    other: Seq<char>,
    value: Seq<u8>,
    exp: u64,
    now: u64,
)
    requires
        k != other,
    ensures
        memory::wm_read(memory::wm_written(s, agent, k, value, exp), agent, other, now)
            == memory::wm_read(s, agent, other, now),
{
    let a = encode_utf8(agent);
    let (x, y) = (memory::wm_at(agent, k), memory::wm_at(agent, other));
    let (z, w) = (memory::wmx_at(agent, k), memory::wmx_at(agent, other));
    encode_utf8_decode_utf8(k);
    encode_utf8_decode_utf8(other);
    assert(x.skip(8 + a.len() as int) =~= encode_utf8(k));
    assert(y.skip(8 + a.len() as int) =~= encode_utf8(other));
    assert(z.skip(9 + a.len() as int) =~= encode_utf8(k));
    assert(w.skip(9 + a.len() as int) =~= encode_utf8(other));
    assert(x[6] == 58 && y[6] == 58 && z[6] == 120 && w[6] == 120);
}

} // verus!
