//! Agent memory: working memory with expiry, long-term memory with provenance,
//! episodes, and procedures. The caller reads the clock and keeps the vector index.
use crate::codec;
use crate::codec::{push_be, read_be};
use crate::maps::KeyMap;
use crate::memory_keys as keys;
use crate::memory_keys::{
    decode_meta, encode_meta, ep_key, kw_key, ltm_key, meta_key, proc_key, wm_exp_key, wm_key, Meta,
};
use crate::order;
use crate::order::sort_places;
use crate::reply;
use crate::reply::text_of;
use crate::scan::{copy_range, push_all};
use crate::store;
use crate::store::{Store, Value};
use crate::text::chars_of;
use crate::tokens;
use crate::tokens::tokenize;
use vstd::prelude::*;
use vstd::string::*;

verus! {

/// What a store holds.
pub type Rows = Map<Seq<u8>, store::ValueView>;

/// The bytes at a key, where there are bytes.
pub open spec fn bytes_at(s: Rows, key: Seq<u8>) -> Option<Seq<u8>> {
    if s.contains_key(key) {
        match s[key] {
            store::ValueView::Bytes(b) => Some(b),
            _ => None,
        }
    } else {
        None
    }
}

fn get_bytes(s: &Store, key: &Vec<u8>) -> (r: Option<Vec<u8>>)
    requires
        s.wf(),
    ensures
        match r {
            Some(b) => bytes_at(s@, key@) == Some(b@),
            None => bytes_at(s@, key@) is None,
        },
{
    match s.get(key) {
        Some(Value::Bytes(b)) => Some(b),
        _ => None,
    }
}

fn copy_bytes(b: &[u8]) -> (r: Vec<u8>)
    ensures
        r@ == b@,
{
    copy_range(b, 0, b.len())
}

// ── working memory ────────────────────────────────────────────────────────

pub open spec fn wm_at(agent: Seq<char>, k: Seq<char>) -> Seq<u8> {
    keys::two_part(keys::wm_head(), agent, k)
}

pub open spec fn wmx_at(agent: Seq<char>, k: Seq<char>) -> Seq<u8> {
    keys::two_part(keys::wmx_head(), agent, k)
}

/// The time at which an entry written at `now` expires; 0 for never.
pub open spec fn expiry(ttl_ms: u64, now: u64) -> u64 {
    if ttl_ms == 0 {
        0
    } else {
        (now + ttl_ms) as u64
    }
}

/// Whether the stored expiry of an entry has come.
pub open spec fn wm_expired(s: Rows, agent: Seq<char>, k: Seq<char>, now: u64) -> bool {
    &&& s.contains_key(wmx_at(agent, k))
    &&& s[wmx_at(agent, k)] matches store::ValueView::Int(exp) && exp != 0 && now >= exp as u64
}

/// What a read of working memory finds.
pub open spec fn wm_read(s: Rows, agent: Seq<char>, k: Seq<char>, now: u64) -> Option<Seq<u8>> {
    if wm_expired(s, agent, k, now) {
        None
    } else {
        bytes_at(s, wm_at(agent, k))
    }
}

/// What a read of working memory leaves: an expired entry is gone, and so is an expiry
/// without a value.
pub open spec fn wm_after(s: Rows, agent: Seq<char>, k: Seq<char>, now: u64) -> Rows {
    if wm_expired(s, agent, k, now) {
        s.remove(wm_at(agent, k)).remove(wmx_at(agent, k))
    } else if bytes_at(s, wm_at(agent, k)) is Some {
        s
    } else {
        s.remove(wmx_at(agent, k))
    }
}

/// Working memory after a write.
pub open spec fn wm_written(
    s: Rows,
    agent: Seq<char>,
    k: Seq<char>,
    value: Seq<u8>,
    exp: u64,
) -> Rows {
    s.insert(wm_at(agent, k), store::ValueView::Bytes(value)).insert(
        wmx_at(agent, k),
        store::ValueView::Int(exp as i64),
    )
}

// ── long-term memory ──────────────────────────────────────────────────────

pub open spec fn ltm_at(id: u64) -> Seq<u8> {
    keys::ltm_head() + keys::id_bytes(id)
}

pub open spec fn meta_at(id: u64) -> Seq<u8> {
    keys::meta_head() + keys::id_bytes(id)
}

pub open spec fn kw_at(token: Seq<char>, id: u64) -> Seq<u8> {
    keys::text_id(keys::kw_head(), token, id)
}

/// The meta record of an id.
pub open spec fn meta_for(s: Rows, id: u64) -> Option<keys::MetaView> {
    match bytes_at(s, meta_at(id)) {
        None => None,
        Some(b) => keys::meta_of(b),
    }
}

/// The text and meta record of an id.
pub open spec fn ltm_for(s: Rows, id: u64) -> Option<(Seq<char>, keys::MetaView)> {
    match (bytes_at(s, ltm_at(id)), meta_for(s, id)) {
        (Some(b), Some(m)) => Some((reply::shown(b), m)),
        _ => None,
    }
}

/// The store once the validity of a memory has been ended at a time.
pub open spec fn invalidated(s: Rows, id: u64, at: u64) -> Rows {
    match ltm_for(s, id) {
        Some((_, m)) => s.insert(
            meta_at(id),
            store::ValueView::Bytes(keys::meta_bytes((keys::MetaView { valid_to: at, ..m }))),
        ),
        None => s,
    }
}

/// The store with a posting for each token.
pub open spec fn with_postings(s: Rows, toks: Seq<Seq<char>>, id: u64) -> Rows
    decreases toks.len(),
{
    if toks.len() == 0 {
        s
    } else {
        with_postings(s, toks.drop_last(), id).insert(
            kw_at(toks.last(), id),
            store::ValueView::Int(1),
        )
    }
}

/// The store without the postings of the tokens.
pub open spec fn without_postings(s: Rows, toks: Seq<Seq<char>>, id: u64) -> Rows
    decreases toks.len(),
{
    if toks.len() == 0 {
        s
    } else {
        without_postings(s, toks.drop_last(), id).remove(kw_at(toks.last(), id))
    }
}

/// The store with a new memory in it.
pub open spec fn stored(s: Rows, id: u64, text: Seq<char>, m: keys::MetaView) -> Rows {
    with_postings(
        s.insert(ltm_at(id), store::ValueView::Bytes(vstd::utf8::encode_utf8(text))).insert(
            meta_at(id),
            store::ValueView::Bytes(keys::meta_bytes(m)),
        ),
        tokens::tokens(text),
        id,
    )
}

/// The store after a memory was forgotten.
pub open spec fn forgotten(s: Rows, id: u64) -> Rows {
    let kept = match ltm_for(s, id) {
        Some((text, _)) => without_postings(s, tokens::tokens(text), id),
        None => s,
    };
    kept.remove(ltm_at(id)).remove(meta_at(id))
}

/// A long-term memory. Its vector stays in the index.
#[derive(Clone, Debug, PartialEq)]
pub struct LtmRecord {
    pub id: u64,
    pub text: String,
    pub meta: Meta,
}

/// A working-memory entry; it expires at `expires_at`, or never where that is 0.
#[derive(Clone, Debug, PartialEq)]
pub struct WmEntry {
    pub value: Vec<u8>,
    pub expires_at: u64,
}

/// An event in an agent's log.
#[derive(Clone, Debug, PartialEq)]
pub struct Episode {
    pub seq: u64,
    pub agent: String,
    pub kind: String,
    pub payload: Vec<u8>,
}

/// What an episode says.
pub struct EpisodeView {
    pub seq: u64,
    pub agent: Seq<char>,
    pub kind: Seq<char>,
    pub payload: Seq<u8>,
}

impl View for Episode {
    type V = EpisodeView;

    open spec fn view(&self) -> EpisodeView {
        EpisodeView {
            seq: self.seq,
            agent: self.agent@,
            kind: self.kind@,
            payload: self.payload@,
        }
    }
}

// ── episodes ──────────────────────────────────────────────────────────────

/// The number of an episode: the time above, a counter in the low 22 bits.
pub open spec fn episode_seq(ts: u64, counter: u64) -> u64 {
    (ts << 22) | (counter & 0x3F_FFFF)
}

/// The number of an episode, which is never below the least that is left.
pub open spec fn numbered(ts: u64, counter: u64, least: u64) -> u64 {
    if episode_seq(ts, counter) >= least {
        episode_seq(ts, counter)
    } else {
        least
    }
}

/// The least number that is left behind `n`.
pub open spec fn behind(n: u64) -> u64 {
    if n < u64::MAX {
        (n + 1) as u64
    } else {
        n
    }
}

/// The stored form of an episode: the length of its kind, its kind, its payload.
pub open spec fn episode_bytes(kind: Seq<char>, payload: Seq<u8>) -> Seq<u8> {
    codec::be(vstd::utf8::encode_utf8(kind).len(), 2) + vstd::utf8::encode_utf8(kind) + payload
}

/// The kind and payload in a stored episode. A length that does not fit is passed
/// over; what is too short for a length is all payload.
pub open spec fn episode_parts(b: Seq<u8>) -> (Seq<char>, Seq<u8>) {
    if b.len() >= 2 {
        let n = codec::be_value(b.subrange(0, 2));
        if b.len() >= 2 + n {
            (reply::shown(b.subrange(2, 2 + n as int)), b.skip(2 + n as int))
        } else {
            (Seq::empty(), b.skip(2))
        }
    } else {
        (Seq::empty(), b)
    }
}

pub open spec fn ep_prefix(agent: Seq<char>) -> Seq<u8> {
    keys::ep_head() + vstd::utf8::encode_utf8(agent) + seq![58u8]
}

/// The episode in a row: the key must have exactly eight bytes behind the agent.
pub open spec fn episode_in(row: store::Row, agent: Seq<char>) -> Option<EpisodeView> {
    let n = ep_prefix(agent).len();
    if row.0.len() != n + 8 {
        None
    } else {
        match row.1 {
            store::ValueView::Bytes(b) => Some(
                EpisodeView {
                    seq: codec::be_value(row.0.skip(n as int)) as u64,
                    agent,
                    kind: episode_parts(b).0,
                    payload: episode_parts(b).1,
                },
            ),
            _ => None,
        }
    }
}

/// The episodes of an agent, in the order of the rows.
pub open spec fn episodes_in(rows: Seq<store::Row>, agent: Seq<char>) -> Seq<EpisodeView>
    decreases rows.len(),
{
    if rows.len() == 0 {
        Seq::empty()
    } else {
        let rest = episodes_in(rows.drop_last(), agent);
        match episode_in(rows.last(), agent) {
            Some(e) => rest.push(e),
            None => rest,
        }
    }
}

pub open spec fn seq_keys(eps: Seq<EpisodeView>) -> Seq<i128> {
    Seq::new(eps.len(), |i: int| eps[i].seq as i128)
}

/// The first `limit` of the episodes by number.
pub open spec fn oldest(eps: Seq<EpisodeView>, limit: nat, r: Seq<EpisodeView>) -> bool {
    exists|p: Seq<usize>|
        #![trigger order::stable_order(seq_keys(eps), p)]
        order::stable_order(seq_keys(eps), p) && r == Seq::new(
            if limit < eps.len() {
                limit
            } else {
                eps.len()
            },
            |i: int| eps[p[i] as int],
        )
}

pub open spec fn episode_views(s: Seq<Episode>) -> Seq<EpisodeView> {
    Seq::new(s.len(), |i: int| s[i]@)
}

// ── procedures ────────────────────────────────────────────────────────────

pub open spec fn proc_at(agent: Seq<char>, name: Seq<char>) -> Seq<u8> {
    keys::two_part(keys::proc_head(), agent, name)
}

pub open spec fn proc_prefix(agent: Seq<char>) -> Seq<u8> {
    keys::proc_head() + vstd::utf8::encode_utf8(agent) + seq![58u8]
}

/// The text in front of the name of an agent's procedure.
pub open spec fn proc_text(agent: Seq<char>) -> Seq<char> {
    "mem:proc:"@ + agent + ":"@
}

/// The names in the keys of some rows, in their order.
pub open spec fn proc_names(rows: Seq<store::Row>, agent: Seq<char>) -> Seq<Seq<char>>
    decreases rows.len(),
{
    if rows.len() == 0 {
        Seq::empty()
    } else {
        let rest = proc_names(rows.drop_last(), agent);
        let t = reply::shown(rows.last().0);
        if proc_text(agent).is_prefix_of(t) {
            rest.push(t.skip(proc_text(agent).len() as int))
        } else {
            rest
        }
    }
}

// ── resuming ──────────────────────────────────────────────────────────────

pub open spec fn ltm_rows(rows: Seq<store::Row>) -> Seq<store::Row> {
    store::rows_under(rows, keys::ltm_head())
}

/// The id at the end of a key.
pub open spec fn tail_id(key: Seq<u8>) -> u64 {
    codec::be_value(key.skip(key.len() - 8)) as u64
}

/// The largest id among the rows, 0 where there is none.
pub open spec fn max_id(rows: Seq<store::Row>) -> u64
    decreases rows.len(),
{
    if rows.len() == 0 {
        0
    } else {
        let m = max_id(rows.drop_last());
        let id = tail_id(rows.last().0);
        if id > m {
            id
        } else {
            m
        }
    }
}

/// Whether a key is that of an episode of some agent: it ends in a colon and a number.
pub open spec fn ends_in_number(key: Seq<u8>) -> bool {
    key.len() >= 16 && key[key.len() - 9] == 58
}

/// The least number behind those of the episodes among the rows, 0 where there are none.
pub open spec fn least_left(rows: Seq<store::Row>) -> u64
    decreases rows.len(),
{
    if rows.len() == 0 {
        0
    } else {
        let m = least_left(rows.drop_last());
        let key = rows.last().0;
        if ends_in_number(key) && behind(tail_id(key)) > m {
            behind(tail_id(key))
        } else {
            m
        }
    }
}

/// The least number that is left for an episode once a store is taken up.
pub open spec fn episodes_left(rows: Seq<store::Row>) -> u64 {
    least_left(store::rows_under(rows, keys::ep_head()))
}

/// The saliences of the ids among the rows whose meta record can be read.
pub open spec fn saliences(rows: Seq<store::Row>, s: Rows) -> Map<u64, u32>
    decreases rows.len(),
{
    if rows.len() == 0 {
        Map::empty()
    } else {
        let m = saliences(rows.drop_last(), s);
        let id = tail_id(rows.last().0);
        match meta_for(s, id) {
            Some(meta) => m.insert(id, meta.salience),
            None => m,
        }
    }
}

/// What agent memory keeps beside the store.
pub struct MemoryView {
    pub next_id: u64,
    pub ltm_count: u64,
    pub ep_seq: u64,
    pub ep_least: u64,
    pub salience: Map<u64, u32>,
}

/// The agent memory engine.
pub struct Memory {
    next_id: u64,
    ltm_count: u64,
    ep_seq: u64,
    ep_least: u64,
    salience: KeyMap<u64, u32>,
}

impl View for Memory {
    type V = MemoryView;

    closed spec fn view(&self) -> MemoryView {
        MemoryView {
            next_id: self.next_id,
            ltm_count: self.ltm_count,
            ep_seq: self.ep_seq,
            ep_least: self.ep_least,
            salience: self.salience@,
        }
    }
}

/// The id at the end of a key.
pub fn last_id(key: &Vec<u8>) -> (r: u64)
    requires
        key@.len() >= 8,
    ensures
        r == tail_id(key@),
{
    let n: usize = key.len();
    proof {
        codec::lemma_limits();
        assert(key@.subrange(n - 8, n as int) =~= key@.skip(n - 8));
    }
    read_be(key.as_slice(), n - 8, 8)
}

impl Memory {
    pub closed spec fn wf(&self) -> bool {
        self.salience.wf()
    }

    /// The number of long-term memories.
    pub fn ltm_count(&self) -> (r: u64)
        ensures
            r == self@.ltm_count,
    {
        self.ltm_count
    }

    /// Whether there is an id left for another memory.
    pub fn has_room(&self) -> (r: bool)
        ensures
            r == (self@.next_id < u64::MAX),
    {
        self.next_id < u64::MAX
    }

    /// The number of long-term memories.
    pub fn ltm_len(&self) -> (r: usize)
        ensures
            r == self@.ltm_count as usize,
    {
        self.ltm_count as usize
    }

    /// The salience of an id, as far as it is known without reading the store.
    pub fn salience_of(&self, id: u64) -> (r: Option<u32>)
        requires
            self.wf(),
        ensures
            match r {
                Some(v) => self@.salience.contains_key(id) && self@.salience[id] == v,
                None => !self@.salience.contains_key(id),
            },
    {
        match self.salience.get(&id) {
            Some(v) => Some(*v),
            None => None,
        }
    }

    /// The largest id of a memory in the store, 0 where there is none.
    pub fn largest_id(s: &Store) -> (r: u64)
        requires
            s.wf(),
        ensures
            r == max_id(ltm_rows(s.rows())),
    {
        let head: Vec<u8> = vec![109u8, 101u8, 109u8, 58u8, 108u8, 116u8, 109u8, 58u8];
        assert(head@ =~= keys::ltm_head());
        let found = s.scan_prefix(&head);
        let ghost rows = ltm_rows(s.rows());
        let mut max: u64 = 0;
        let mut i: usize = 0;
        while i < found.len()
            invariant
                rows == store::rows_of(found@),
                rows == store::rows_under(s.rows(), keys::ltm_head()),
                i <= found@.len(),
                max == max_id(rows.take(i as int)),
            decreases found@.len() - i,
        {
            proof {
                let t = rows.take(i + 1);
                assert(t.drop_last() =~= rows.take(i as int));
                assert(t.last() == rows[i as int]);
                assert(rows[i as int].0 == found@[i as int].0@);
                s.rows().lemma_filter_pred(
                    |r: store::Row| keys::ltm_head().is_prefix_of(r.0),
                    i as int,
                );
                assert(keys::ltm_head().len() == 8);
            }
            let id: u64 = last_id(&found[i].0);
            if id > max {
                max = id;
            }
            i = i + 1;
        }
        proof {
            assert(rows.take(i as int) =~= rows);
        }
        max
    }

    fn episodes_behind(s: &Store) -> (r: u64)
        requires
            s.wf(),
        ensures
            r == episodes_left(s.rows()),
    {
        let head: Vec<u8> = vec![109u8, 101u8, 109u8, 58u8, 101u8, 112u8, 58u8];
        assert(head@ =~= keys::ep_head());
        let found = s.scan_prefix(&head);
        let ghost rows = store::rows_under(s.rows(), keys::ep_head());
        let mut least: u64 = 0;
        let mut i: usize = 0;
        while i < found.len()
            invariant
                rows == store::rows_of(found@),
                i <= found@.len(),
                least == least_left(rows.take(i as int)),
            decreases found@.len() - i,
        {
            proof {
                let t = rows.take(i + 1);
                assert(t.drop_last() =~= rows.take(i as int));
                assert(t.last() == rows[i as int]);
                assert(rows[i as int].0 == found@[i as int].0@);
            }
            let size: usize = found[i].0.len();
            if size >= 16 && found[i].0[size - 9] == 58 {
                let id: u64 = last_id(&found[i].0);
                let next: u64 = if id < u64::MAX { id + 1 } else { id };
                if next > least {
                    least = next;
                }
            }
            i = i + 1;
        }
        proof {
            assert(rows.take(i as int) =~= rows);
        }
        least
    }

    /// Takes up what the store holds: new ids begin behind the largest one, and so do the
    /// numbers of new episodes.
    pub fn open(s: &Store) -> (r: Self)
        requires
            s.wf(),
            max_id(ltm_rows(s.rows())) < u64::MAX,
        ensures
            r.wf(),
            r@ == (MemoryView {
                next_id: (max_id(ltm_rows(s.rows())) + 1) as u64,
                ltm_count: ltm_rows(s.rows()).len() as u64,
                ep_seq: 0,
                ep_least: episodes_left(s.rows()),
                salience: saliences(ltm_rows(s.rows()), s@),
            }),
    {
        let head: Vec<u8> = vec![109u8, 101u8, 109u8, 58u8, 108u8, 116u8, 109u8, 58u8];
        assert(head@ =~= keys::ltm_head());
        let found = s.scan_prefix(&head);
        let ghost rows = ltm_rows(s.rows());
        let mut max: u64 = 0;
        let mut sal: KeyMap<u64, u32> = KeyMap::new();
        let mut i: usize = 0;
        proof {
            assert(store::rows_of(found@) == rows);
        }
        while i < found.len()
            invariant
                s.wf(),
                sal.wf(),
                rows == store::rows_of(found@),
                rows == store::rows_under(s.rows(), keys::ltm_head()),
                i <= found@.len(),
                max == max_id(rows.take(i as int)),
                sal@ == saliences(rows.take(i as int), s@),
            decreases found@.len() - i,
        {
            proof {
                let t = rows.take(i + 1);
                assert(t.drop_last() =~= rows.take(i as int));
                assert(t.last() == rows[i as int]);
                assert(rows[i as int].0 == found@[i as int].0@);
                s.rows().lemma_filter_pred(
                    |r: store::Row| keys::ltm_head().is_prefix_of(r.0),
                    i as int,
                );
                assert(keys::ltm_head().len() == 8);
            }
            let id: u64 = last_id(&found[i].0);
            if id > max {
                max = id;
            }
            match get_bytes(s, &meta_key(id)) {
                Some(mb) => match decode_meta(mb.as_slice()) {
                    Some(m) => {
                        sal.insert(id, m.salience);
                    },
                    None => {},
                },
                None => {},
            }
            i = i + 1;
        }
        proof {
            assert(rows.take(i as int) =~= rows);
        }
        Memory {
            next_id: max + 1,
            ltm_count: found.len() as u64,
            ep_seq: 0,
            ep_least: Self::episodes_behind(s),
            salience: sal,
        }
    }

    /// Forgets everything that is kept beside the store, as after the store was emptied. The
    /// numbers of episodes go on rising.
    pub fn reset_volatile(&mut self)
        ensures
            final(self).wf(),
            final(self)@ == (MemoryView {
                next_id: 1,
                ltm_count: 0,
                ep_seq: 0,
                ep_least: old(self)@.ep_least,
                salience: Map::empty(),
            }),
    {
        self.next_id = 1;
        self.ep_seq = 0;
        self.ltm_count = 0;
        self.salience = KeyMap::new();
    }

    /// Writes to working memory; the entry expires `ttl_ms` after `now`, or never where
    /// that is 0.
    pub fn wm_set(
        &self,
        s: &mut Store,
        agent: &str,
        key: &str,
        value: &[u8],
        ttl_ms: u64,
        now: u64,
    )
        requires
            old(s).wf(),
            ttl_ms == 0 || now + ttl_ms <= u64::MAX,
        ensures
            final(s).wf(),
            final(s)@ == wm_written(old(s)@, agent@, key@, value@, expiry(ttl_ms, now)),
    {
        let exp: u64 = if ttl_ms == 0 { 0 } else { now + ttl_ms };
        s.put(wm_key(agent, key), Value::Bytes(copy_bytes(value)));
        s.put(wm_exp_key(agent, key), Value::Int(exp as i64));
    }

    /// Reads working memory at `now`.
    pub fn wm_get(&self, s: &mut Store, agent: &str, key: &str, now: u64) -> (r: Option<Vec<u8>>)
        requires
            old(s).wf(),
        ensures
            final(s).wf(),
            final(s)@ == wm_after(old(s)@, agent@, key@, now),
            match r {
                Some(b) => wm_read(old(s)@, agent@, key@, now) == Some(b@),
                None => wm_read(old(s)@, agent@, key@, now) is None,
            },
    {
        let k = wm_key(agent, key);
        let x = wm_exp_key(agent, key);
        let expired: bool = match s.get(&x) {
            Some(Value::Int(exp)) => exp != 0 && now >= exp as u64,
            _ => false,
        };
        if expired {
            let _v = s.delete(&k);
            let _x = s.delete(&x);
            return None;
        }
        match get_bytes(s, &k) {
            Some(b) => Some(b),
            None => {
                let _x = s.delete(&x);
                None
            },
        }
    }

    /// Drops an entry of working memory before it expires.
    pub fn wm_delete(&self, s: &mut Store, agent: &str, key: &str)
        requires
            old(s).wf(),
        ensures
            final(s).wf(),
            final(s)@ == old(s)@.remove(wm_at(agent@, key@)).remove(wmx_at(agent@, key@)),
    {
        let _v = s.delete(&wm_key(agent, key));
        let _x = s.delete(&wm_exp_key(agent, key));
    }

    /// Stores a memory that holds from now on.
    pub fn ltm_store(
        &mut self,
        s: &mut Store,
        text: &str,
        source: &str,
        salience: u32,
        lineage: &str,
        owner: &str,
        ts: u64,
    ) -> (r: u64)
        requires
            old(self).wf(),
            old(s).wf(),
            old(self)@.next_id < u64::MAX,
        ensures
            final(self).wf(),
            final(s).wf(),
            r == old(self)@.next_id,
            final(s)@ == stored(
                old(s)@,
                r,
                text@,
                (keys::MetaView {
                    source: source@,
                    created_ts: ts,
                    salience,
                    lineage: lineage@,
                    valid_from: ts,
                    valid_to: 0,
                    owner: owner@,
                }),
            ),
            final(self)@ == (MemoryView {
                next_id: (r + 1) as u64,
                ltm_count: old(self)@.ltm_count.wrapping_add(1),
                salience: old(self)@.salience.insert(r, salience),
                ..old(self)@
            }),
    {
        self.ltm_store_temporal(s, text, source, salience, lineage, 0, 0, owner, ts)
    }

    /// Stores a memory with its validity: from `valid_from` on, or from now on where
    /// that is 0, until `valid_to`, or open-ended where that is 0.
    pub fn ltm_store_temporal(
        &mut self,
        s: &mut Store,
        text: &str,
        source: &str,
        salience: u32,
        lineage: &str,
        valid_from: u64,
        valid_to: u64,
        owner: &str,
        ts: u64,
    ) -> (r: u64)
        requires
            old(self).wf(),
            old(s).wf(),
            old(self)@.next_id < u64::MAX,
        ensures
            final(self).wf(),
            final(s).wf(),
            r == old(self)@.next_id,
            final(s)@ == stored(
                old(s)@,
                r,
                text@,
                (keys::MetaView {
                    source: source@,
                    created_ts: ts,
                    salience,
                    lineage: lineage@,
                    valid_from: if valid_from == 0 { ts } else { valid_from },
                    valid_to,
                    owner: owner@,
                }),
            ),
            final(self)@ == (MemoryView {
                next_id: (r + 1) as u64,
                ltm_count: old(self)@.ltm_count.wrapping_add(1),
                salience: old(self)@.salience.insert(r, salience),
                ..old(self)@
            }),
    {
        let id: u64 = self.next_id;
        self.next_id = id + 1;
        let vf: u64 = if valid_from == 0 { ts } else { valid_from };
        let m = Meta {
            source: source.to_owned(),
            created_ts: ts,
            salience,
            lineage: lineage.to_owned(),
            valid_from: vf,
            valid_to,
            owner: owner.to_owned(),
        };
        s.put(ltm_key(id), Value::Bytes(copy_bytes(text.as_bytes())));
        s.put(meta_key(id), Value::Bytes(encode_meta(&m)));
        let toks = tokenize(text);
        let ghost base = s@;
        let ghost all = tokens::tokens(text@);
        let mut i: usize = 0;
        while i < toks.len()
            invariant
                s.wf(),
                all == tokens::text_views(toks@),
                i <= toks@.len(),
                s@ == with_postings(base, all.take(i as int), id),
            decreases toks@.len() - i,
        {
            proof {
                let t = all.take(i + 1);
                assert(t.drop_last() =~= all.take(i as int));
                assert(t.last() == toks@[i as int]@);
            }
            s.put(kw_key(toks[i].as_str(), id), Value::Int(1));
            i = i + 1;
        }
        proof {
            assert(all.take(i as int) =~= all);
        }
        self.ltm_count = self.ltm_count.wrapping_add(1);
        self.salience.insert(id, salience);
        id
    }

    /// The text and meta record of a memory.
    pub fn ltm_get_light(&self, s: &Store, id: u64) -> (r: Option<(String, Meta)>)
        requires
            s.wf(),
        ensures
            match r {
                Some(x) => ltm_for(s@, id) == Some((x.0@, x.1@)),
                None => ltm_for(s@, id) is None,
            },
    {
        let text = match get_bytes(s, &ltm_key(id)) {
            Some(b) => text_of(b.as_slice()),
            None => {
                return None;
            },
        };
        match get_bytes(s, &meta_key(id)) {
            Some(b) => match decode_meta(b.as_slice()) {
                Some(m) => Some((text, m)),
                None => None,
            },
            None => None,
        }
    }

    /// A memory.
    pub fn ltm_get(&self, s: &Store, id: u64) -> (r: Option<LtmRecord>)
        requires
            s.wf(),
        ensures
            match r {
                Some(x) => x.id == id && ltm_for(s@, id) == Some((x.text@, x.meta@)),
                None => ltm_for(s@, id) is None,
            },
    {
        match self.ltm_get_light(s, id) {
            Some((text, meta)) => Some(LtmRecord { id, text, meta }),
            None => None,
        }
    }

    /// Ends the validity of a memory at `invalid_at`, without deleting it.
    pub fn ltm_invalidate(&self, s: &mut Store, id: u64, invalid_at: u64)
        requires
            old(s).wf(),
        ensures
            final(s).wf(),
            final(s)@ == invalidated(old(s)@, id, invalid_at),
    {
        match self.ltm_get(s, id) {
            Some(rec) => {
                let mut m = rec.meta;
                m.valid_to = invalid_at;
                s.put(meta_key(id), Value::Bytes(encode_meta(&m)));
            },
            None => {},
        }
    }

    /// Gives a memory another salience, the bits of an `f32`.
    pub fn touch_salience(&mut self, s: &mut Store, id: u64, salience: u32)
        requires
            old(self).wf(),
            old(s).wf(),
        ensures
            final(self).wf(),
            final(s).wf(),
            match ltm_for(old(s)@, id) {
                Some((_, m)) => {
                    &&& final(s)@ == old(s)@.insert(
                        meta_at(id),
                        store::ValueView::Bytes(
                            keys::meta_bytes((keys::MetaView { salience, ..m })),
                        ),
                    )
                    &&& final(self)@ == (MemoryView {
                        salience: old(self)@.salience.insert(id, salience),
                        ..old(self)@
                    })
                },
                None => final(s)@ == old(s)@ && final(self)@ == old(self)@,
            },
    {
        match self.ltm_get(s, id) {
            Some(rec) => {
                let mut m = rec.meta;
                m.salience = salience;
                s.put(meta_key(id), Value::Bytes(encode_meta(&m)));
                self.salience.insert(id, salience);
            },
            None => {},
        }
    }

    /// Deletes a memory, its meta record and its postings.
    pub fn ltm_forget(&mut self, s: &mut Store, id: u64)
        requires
            old(self).wf(),
            old(s).wf(),
        ensures
            final(self).wf(),
            final(s).wf(),
            final(s)@ == forgotten(old(s)@, id),
            final(self)@ == (if ltm_for(old(s)@, id) is Some {
                MemoryView {
                    ltm_count: if old(self)@.ltm_count == 0 {
                        0
                    } else {
                        (old(self)@.ltm_count - 1) as u64
                    },
                    salience: old(self)@.salience.remove(id),
                    ..old(self)@
                }
            } else {
                old(self)@
            }),
    {
        let existed = self.ltm_get(s, id);
        let ghost base = s@;
        match &existed {
            Some(rec) => {
                let toks = tokenize(rec.text.as_str());
                let ghost all = tokens::tokens(rec.text@);
                let mut i: usize = 0;
                while i < toks.len()
                    invariant
                        s.wf(),
                        all == tokens::text_views(toks@),
                        i <= toks@.len(),
                        s@ == without_postings(base, all.take(i as int), id),
                    decreases toks@.len() - i,
                {
                    proof {
                        let t = all.take(i + 1);
                        assert(t.drop_last() =~= all.take(i as int));
                        assert(t.last() == toks@[i as int]@);
                    }
                    let _was = s.delete(&kw_key(toks[i].as_str(), id));
                    i = i + 1;
                }
                proof {
                    assert(all.take(i as int) =~= all);
                }
            },
            None => {},
        }
        let _l = s.delete(&ltm_key(id));
        let _m = s.delete(&meta_key(id));
        if existed.is_some() {
            if self.ltm_count > 0 {
                self.ltm_count = self.ltm_count - 1;
            }
            let _s = self.salience.remove(&id);
        }
    }

    /// Appends an episode; `ts` is what the clock reads. Its number is larger than those before.
    pub fn episode(&mut self, s: &mut Store, agent: &str, kind: &str, payload: &[u8], ts: u64) -> (r:
        u64)
        requires
            old(self).wf(),
            old(s).wf(),
        ensures
            final(self).wf(),
            final(s).wf(),
            r == numbered(ts, old(self)@.ep_seq, old(self)@.ep_least),
            final(self)@ == (MemoryView {
                ep_seq: old(self)@.ep_seq.wrapping_add(1),
                ep_least: behind(r),
                ..old(self)@
            }),
            final(s)@ == old(s)@.insert(
                keys::text_id(keys::ep_head(), agent@, r),
                store::ValueView::Bytes(episode_bytes(kind@, payload@)),
            ),
    {
        let c: u64 = self.ep_seq;
        self.ep_seq = c.wrapping_add(1);
        let stamp: u64 = (ts << 22) | (c & 0x3F_FFFF);
        let seq: u64 = if stamp >= self.ep_least { stamp } else { self.ep_least };
        self.ep_least = if seq < u64::MAX { seq + 1 } else { seq };
        let mut val: Vec<u8> = Vec::new();
        let kb = kind.as_bytes();
        push_be(&mut val, kb.len() as u64, 2);
        push_all(&mut val, kb);
        push_all(&mut val, payload);
        proof {
            assert(val@ =~= episode_bytes(kind@, payload@));
        }
        s.put(ep_key(agent, seq), Value::Bytes(val));
        seq
    }

    /// The first `limit` episodes of an agent, oldest first.
    pub fn episodes(&self, s: &Store, agent: &str, limit: usize) -> (r: Vec<Episode>)
        requires
            s.wf(),
        ensures
            oldest(
                episodes_in(store::rows_under(s.rows(), ep_prefix(agent@)), agent@),
                limit as nat,
                episode_views(r@),
            ),
    {
        let prefix = episode_prefix(agent);
        let found = s.scan_prefix(&prefix);
        let ghost rows = store::rows_under(s.rows(), ep_prefix(agent@));
        let mut eps: Vec<Episode> = Vec::new();
        let mut sort_keys: Vec<i128> = Vec::new();
        let mut i: usize = 0;
        proof {
            codec::lemma_limits();
            assert(episode_views(eps@) =~= Seq::<EpisodeView>::empty());
            assert(sort_keys@ =~= seq_keys(episode_views(eps@)));
        }
        while i < found.len()
            invariant
                rows == store::rows_of(found@),
                prefix@ == ep_prefix(agent@),
                i <= found@.len(),
                episode_views(eps@) == episodes_in(rows.take(i as int), agent@),
                sort_keys@ == seq_keys(episode_views(eps@)),
                codec::bytes_limit(8) == 0x1_0000_0000_0000_0000,
            decreases found@.len() - i,
        {
            let ghost row = rows[i as int];
            proof {
                let t = rows.take(i + 1);
                assert(t.drop_last() =~= rows.take(i as int));
                assert(t.last() == row);
                assert(row == store::row_of(found@[i as int]));
            }
            let k = &found[i].0;
            let n: usize = prefix.len();
            if k.len() >= n && k.len() - n == 8 {
                match &found[i].1 {
                    Value::Bytes(b) => {
                        let seq: u64 = read_be(k.as_slice(), n, 8);
                        let (kind, payload) = split_episode(b);
                        let ghost before = eps@;
                        let e = Episode { seq, agent: agent.to_owned(), kind, payload };
                        let ghost v = e@;
                        eps.push(e);
                        sort_keys.push(seq as i128);
                        proof {
                            assert(k@.subrange(n as int, n + 8) =~= row.0.skip(n as int));
                            assert(episode_views(eps@) =~= episode_views(before).push(v));
                            assert(episode_in(row, agent@) == Some(v));
                            assert(sort_keys@ =~= seq_keys(episode_views(eps@)));
                        }
                    },
                    Value::Int(_) => {},
                }
            }
            i = i + 1;
        }
        proof {
            assert(rows.take(i as int) =~= rows);
        }
        let p = sort_places(&sort_keys);
        let ghost listed = episode_views(eps@);
        let n: usize = if limit < eps.len() { limit } else { eps.len() };
        let mut out: Vec<Episode> = Vec::new();
        let mut j: usize = 0;
        proof {
            assert(episode_views(out@) =~= Seq::<EpisodeView>::empty());
        }
        while j < n
            invariant
                j <= n <= eps@.len(),
                order::stable_order(sort_keys@, p@),
                sort_keys@.len() == eps@.len(),
                listed == episode_views(eps@),
                episode_views(out@) == Seq::new(j as nat, |x: int| listed[p@[x] as int]),
            decreases n - j,
        {
            let e = &eps[p[j]];
            let ghost before = out@;
            let c = Episode {
                seq: e.seq,
                agent: e.agent.clone(),
                kind: e.kind.clone(),
                payload: copy_bytes(e.payload.as_slice()),
            };
            let ghost v = c@;
            out.push(c);
            j = j + 1;
            proof {
                assert(v == listed[p@[j - 1] as int]);
                assert(episode_views(out@) =~= episode_views(before).push(v));
                assert(episode_views(out@) =~= Seq::new(
                    j as nat,
                    |x: int| listed[p@[x] as int],
                ));
            }
        }
        proof {
            assert(order::stable_order(seq_keys(listed), p@));
        }
        out
    }

    /// Deletes one episode.
    pub fn episode_forget(&self, s: &mut Store, agent: &str, seq: u64)
        requires
            old(s).wf(),
        ensures
            final(s).wf(),
            final(s)@ == old(s)@.remove(keys::text_id(keys::ep_head(), agent@, seq)),
    {
        let _was = s.delete(&ep_key(agent, seq));
    }

    /// Deletes all episodes of an agent, and no other row.
    pub fn episodes_clear(&self, s: &mut Store, agent: &str)
        requires
            old(s).wf(),
        ensures
            final(s).wf(),
            forall|k: Seq<u8>|
                #![trigger final(s)@.dom().contains(k)]
                final(s)@.dom().contains(k) == (old(s)@.dom().contains(k) && !(ep_prefix(
                    agent@,
                ).is_prefix_of(k) && k.len() == ep_prefix(agent@).len() + 8)),
            forall|k: Seq<u8>|
                #![trigger final(s)@[k]]
                final(s)@.dom().contains(k) ==> final(s)@[k] == old(s)@[k],
    {
        let prefix = episode_prefix(agent);
        let found = s.scan_prefix(&prefix);
        let ghost start = *s;
        let ghost rows = store::rows_under(start.rows(), prefix@);
        let ghost gone = |k: Seq<u8>, n: int|
            exists|j: int|
                0 <= j < n && (#[trigger] rows[j]).0 == k && k.len() == prefix@.len() + 8;
        let mut i: usize = 0;
        while i < found.len()
            invariant
                s.wf(),
                start.wf(),
                rows == store::rows_of(found@),
                prefix@ == ep_prefix(agent@),
                i <= found@.len(),
                gone == (|k: Seq<u8>, n: int|
                    exists|j: int|
                        0 <= j < n && (#[trigger] rows[j]).0 == k && k.len() == prefix@.len()
                            + 8),
                forall|k: Seq<u8>|
                    #![trigger s@.dom().contains(k)]
                    s@.dom().contains(k) == (start@.dom().contains(k) && !gone(k, i as int)),
                forall|k: Seq<u8>|
                    #![trigger s@[k]]
                    s@.dom().contains(k) ==> s@[k] == start@[k],
            decreases found@.len() - i,
        {
            let ghost row = rows[i as int];
            assert(row == store::row_of(found@[i as int]));
            let ghost before = s@;
            let k = &found[i].0;
            let n: usize = prefix.len();
            let mine = k.len() >= n && k.len() - n == 8;
            if mine {
                let _was = s.delete(k);
            }
            proof {
                assert forall|q: Seq<u8>|
                    #![trigger s@.dom().contains(q)]
                    s@.dom().contains(q) == (start@.dom().contains(q) && !gone(q, i + 1)) by {
                    if mine && q == k@ {
                        assert(rows[i as int].0 == q);
                        assert(gone(q, i + 1));
                    } else {
                        assert(before.dom().contains(q) == (start@.dom().contains(q) && !gone(
                            q,
                            i as int,
                        )));
                        if gone(q, i as int) {
                            let j = choose|j: int|
                                0 <= j < i && (#[trigger] rows[j]).0 == q && q.len()
                                    == prefix@.len() + 8;
                            assert(rows[j].0 == q);
                            assert(gone(q, i + 1));
                        }
                        if gone(q, i + 1) {
                            let j = choose|j: int|
                                0 <= j < i + 1 && (#[trigger] rows[j]).0 == q && q.len()
                                    == prefix@.len() + 8;
                            if j < i {
                                assert(gone(q, i as int));
                            }
                        }
                    }
                }
            }
            i = i + 1;
        }
        proof {
            let p = |r: store::Row| prefix@.is_prefix_of(r.0);
            assert forall|k: Seq<u8>|
                #![trigger s@.dom().contains(k)]
                s@.dom().contains(k) == (start@.dom().contains(k) && !(prefix@.is_prefix_of(k)
                    && k.len() == prefix@.len() + 8)) by {
                if gone(k, i as int) {
                    let j = choose|j: int|
                        0 <= j < i && (#[trigger] rows[j]).0 == k && k.len() == prefix@.len() + 8;
                    start.rows().lemma_filter_pred(p, j);
                }
                if start@.dom().contains(k) && prefix@.is_prefix_of(k) && k.len() == prefix@.len()
                    + 8 {
                    store::lemma_key_is_row(start, k);
                    let q = choose|q: int|
                        0 <= q < start.rows().len() && start.rows()[q] == (k, start@[k]);
                    start.rows().lemma_filter_contains(p, q);
                    let j = choose|j: int| 0 <= j < rows.len() && rows[j] == start.rows()[q];
                    assert(rows[j].0 == k);
                    assert(gone(k, i as int));
                }
            }
        }
    }

    /// Stores a procedure of an agent.
    pub fn proc_store(&self, s: &mut Store, agent: &str, name: &str, body: &[u8])
        requires
            old(s).wf(),
        ensures
            final(s).wf(),
            final(s)@ == old(s)@.insert(
                proc_at(agent@, name@),
                store::ValueView::Bytes(body@),
            ),
    {
        s.put(proc_key(agent, name), Value::Bytes(copy_bytes(body)));
    }

    /// A procedure of an agent.
    pub fn proc_get(&self, s: &Store, agent: &str, name: &str) -> (r: Option<Vec<u8>>)
        requires
            s.wf(),
        ensures
            match r {
                Some(b) => bytes_at(s@, proc_at(agent@, name@)) == Some(b@),
                None => bytes_at(s@, proc_at(agent@, name@)) is None,
            },
    {
        get_bytes(s, &proc_key(agent, name))
    }

    /// The names of an agent's procedures.
    pub fn proc_list(&self, s: &Store, agent: &str) -> (r: Vec<String>)
        requires
            s.wf(),
        ensures
            tokens::text_views(r@) == proc_names(
                store::rows_under(s.rows(), proc_prefix(agent@)),
                agent@,
            ),
    {
        let mut prefix: Vec<u8> = vec![
            109u8,
            101u8,
            109u8,
            58u8,
            112u8,
            114u8,
            111u8,
            99u8,
            58u8,
        ];
        push_all(&mut prefix, agent.as_bytes());
        prefix.push(58);
        proof {
            assert(prefix@ =~= proc_prefix(agent@));
        }
        let mut head: String = "mem:proc:".to_owned();
        head.append(agent);
        head.append(":");
        let h = chars_of(head.as_str());
        let found = s.scan_prefix(&prefix);
        let ghost rows = store::rows_under(s.rows(), proc_prefix(agent@));
        let mut out: Vec<String> = Vec::new();
        let mut i: usize = 0;
        proof {
            assert(tokens::text_views(out@) =~= Seq::<Seq<char>>::empty());
        }
        while i < found.len()
            invariant
                rows == store::rows_of(found@),
                h@ == proc_text(agent@),
                i <= found@.len(),
                tokens::text_views(out@) == proc_names(rows.take(i as int), agent@),
            decreases found@.len() - i,
        {
            proof {
                let t = rows.take(i + 1);
                assert(t.drop_last() =~= rows.take(i as int));
                assert(t.last() == store::row_of(found@[i as int]));
            }
            let t = text_of(found[i].0.as_slice());
            match strip_text(&t, &h) {
                Some(name) => {
                    let ghost before = out@;
                    let ghost v = name@;
                    out.push(name);
                    proof {
                        assert(tokens::text_views(out@) =~= tokens::text_views(before).push(v));
                    }
                },
                None => {},
            }
            i = i + 1;
        }
        proof {
            assert(rows.take(i as int) =~= rows);
        }
        out
    }
}

fn episode_prefix(agent: &str) -> (r: Vec<u8>)
    ensures
        r@ == ep_prefix(agent@),
{
    let mut b: Vec<u8> = vec![109u8, 101u8, 109u8, 58u8, 101u8, 112u8, 58u8];
    push_all(&mut b, agent.as_bytes());
    b.push(58);
    proof {
        assert(b@ =~= ep_prefix(agent@));
    }
    b
}

/// What is left of a text behind `head`.
fn strip_text(t: &String, head: &Vec<char>) -> (r: Option<String>)
    ensures
        match r {
            Some(s) => head@.is_prefix_of(t@) && s@ == t@.skip(head@.len() as int),
            None => !head@.is_prefix_of(t@),
        },
{
    let cs = chars_of(t.as_str());
    if cs.len() < head.len() {
        return None;
    }
    let mut i: usize = 0;
    while i < head.len()
        invariant
            i <= head@.len() <= cs@.len(),
            cs@ == t@,
            forall|k: int| 0 <= k < i ==> cs@[k] == head@[k],
        decreases head@.len() - i,
    {
        if cs[i] != head[i] {
            proof {
                assert(t@.subrange(0, head@.len() as int)[i as int] == t@[i as int]);
            }
            return None;
        }
        i = i + 1;
    }
    proof {
        assert(t@.subrange(0, head@.len() as int) =~= head@);
        assert(t@.subrange(head@.len() as int, t@.len() as int) =~= t@.skip(head@.len() as int));
    }
    Some(t.as_str().substring_char(head.len(), cs.len()).to_owned())
}

fn split_episode(b: &Vec<u8>) -> (r: (String, Vec<u8>))
    ensures
        (r.0@, r.1@) == episode_parts(b@),
{
    if b.len() < 2 {
        return (String::new(), copy_bytes(b.as_slice()));
    }
    let n: u64 = read_be(b.as_slice(), 0, 2);
    if n <= (b.len() - 2) as u64 {
        let end: usize = 2 + n as usize;
        let kind = text_of(copy_range(b.as_slice(), 2, end).as_slice());
        let body = copy_range(b.as_slice(), end, b.len());
        proof {
            assert(body@ =~= b@.skip(end as int));
        }
        (kind, body)
    } else {
        let body = copy_range(b.as_slice(), 2, b.len());
        proof {
            assert(body@ =~= b@.skip(2));
        }
        (String::new(), body)
    }
}

} // verus!
