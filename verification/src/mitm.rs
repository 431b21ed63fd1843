//! The cache debugger: it stands between a cache and the source of truth, compares
//! what the cache serves with what the source holds, and keeps a trace of it.
use crate::maps::KeyMap;
use crate::scan::{push_all, same_bytes};
use crate::store;
use crate::store::{Store, Value};
use crate::text;
use crate::text::{dec_string, push_dec_signed};
use vstd::prelude::*;
use vstd::string::*;

verus! {

/// What a cache read turned out to be.
#[derive(Clone, Copy, Debug, PartialEq, Eq, Structural)]
pub enum Verdict {
    Hit,
    StaleHit,
    Miss,
    Phantom,
}

impl Verdict {
    pub open spec fn name(self) -> Seq<char> {
        match self {
            Verdict::Hit => "HIT"@,
            Verdict::StaleHit => "STALE_HIT"@,
            Verdict::Miss => "MISS"@,
            Verdict::Phantom => "PHANTOM"@,
        }
    }

    pub open spec fn bug(self) -> bool {
        self == Verdict::StaleHit || self == Verdict::Phantom
    }

    pub fn as_str(&self) -> (r: &'static str)
        ensures
            r@ == self.name(),
    {
        match self {
            Verdict::Hit => "HIT",
            Verdict::StaleHit => "STALE_HIT",
            Verdict::Miss => "MISS",
            Verdict::Phantom => "PHANTOM",
        }
    }

    pub fn is_bug(&self) -> (r: bool)
        ensures
            r == self.bug(),
    {
        match self {
            Verdict::StaleHit => true,
            Verdict::Phantom => true,
            _ => false,
        }
    }
}

/// One intercepted cache access.
#[derive(Debug)]
pub struct Trace {
    pub seq: u64,
    pub op: &'static str,
    pub key: String,
    pub verdict: Verdict,
    pub cached_ver: u64,
    pub engine_ver: u64,
    pub note: String,
}

/// What a trace says.
pub struct TraceView {
    pub seq: u64,
    pub op: Seq<char>,
    pub key: Seq<char>,
    pub verdict: Verdict,
    pub cached_ver: u64,
    pub engine_ver: u64,
    pub note: Seq<char>,
}

impl View for Trace {
    type V = TraceView;

    open spec fn view(&self) -> TraceView {
        TraceView {
            seq: self.seq,
            op: self.op@,
            key: self.key@,
            verdict: self.verdict,
            cached_ver: self.cached_ver,
            engine_ver: self.engine_ver,
            note: self.note@,
        }
    }
}

impl Clone for Trace {
    fn clone(&self) -> (r: Self)
        ensures
            r@ == self@,
    {
        Trace {
            seq: self.seq,
            op: self.op,
            key: self.key.clone(),
            verdict: self.verdict,
            cached_ver: self.cached_ver,
            engine_ver: self.engine_ver,
            note: self.note.clone(),
        }
    }
}

/// A cached value, and the version of the source that it was taken from.
pub struct CacheEntry {
    pub value: Vec<u8>,
    pub populated_at_ver: u64,
}

/// The key under which the source keeps the value of `key`.
pub open spec fn source_key(key: Seq<char>) -> Seq<u8> {
    seq![115u8, 114u8, 99u8, 58u8] + vstd::utf8::encode_utf8(key)
}

/// Builds the key under which the source keeps the value of `key`.
pub fn ek(key: &str) -> (r: Vec<u8>)
    ensures
        r@ == source_key(key@),
{
    let mut b: Vec<u8> = vec![115u8, 114u8, 99u8, 58u8];
    push_all(&mut b, key.as_bytes());
    proof {
        assert(b@ =~= source_key(key@));
    }
    b
}

/// The bytes that the source holds for a key: a number counts as its digits.
pub open spec fn source_value(s: Map<Seq<u8>, store::ValueView>, key: Seq<char>) -> Option<Seq<u8>> {
    if s.contains_key(source_key(key)) {
        match s[source_key(key)] {
            store::ValueView::Bytes(b) => Some(b),
            store::ValueView::Int(i) => Some(text::dec_signed(i as int)),
        }
    } else {
        None
    }
}

/// How a read is judged, from what the cache and the source hold.
pub open spec fn verdict_of(cached: Option<Seq<u8>>, source: Option<Seq<u8>>) -> Verdict {
    match (cached, source) {
        (None, _) => Verdict::Miss,
        (Some(c), Some(s)) => if c == s {
            Verdict::Hit
        } else {
            Verdict::StaleHit
        },
        (Some(_), None) => Verdict::Phantom,
    }
}

/// The note on a read.
pub open spec fn note_of(
    cached: Option<Seq<u8>>,
    source: Option<Seq<u8>>,
    cached_ver: u64,
    engine_ver: u64,
) -> Seq<char> {
    match (cached, source) {
        (None, _) => "not cached"@,
        (Some(c), Some(s)) => if c == s {
            "fresh"@
        } else {
            "STALE: cached v"@ + text::dec_text(cached_ver as nat) + " != engine v"@
                + text::dec_text(engine_ver as nat) + " ("@ + text::dec_text(c.len()) + " bytes vs "@
                + text::dec_text(s.len()) + " bytes)"@
        },
        (Some(_), None) => "PHANTOM: cached but engine has no value (missed invalidation)"@,
    }
}

/// The state of the debugger: the cache, the version of each key, the traces kept.
pub struct DebugView {
    pub cache: Map<Seq<char>, (Seq<u8>, u64)>,
    pub ver: Map<Seq<char>, u64>,
    pub traces: Seq<TraceView>,
    pub seq: u64,
    pub max_traces: nat,
}

/// The version of a key, 0 where the source was never written.
pub open spec fn version_of(ver: Map<Seq<char>, u64>, key: Seq<char>) -> u64 {
    if ver.contains_key(key) {
        ver[key]
    } else {
        0
    }
}

/// The last `max` of the traces with `t` behind them.
pub open spec fn recorded(traces: Seq<TraceView>, t: TraceView, max: nat) -> Seq<TraceView> {
    let all = traces.push(t);
    if all.len() > max {
        all.skip(all.len() - max)
    } else {
        all
    }
}

pub open spec fn trace_views(s: Seq<Trace>) -> Seq<TraceView> {
    Seq::new(s.len(), |i: int| s[i]@)
}

pub open spec fn cached_value(
    cache: Map<Seq<char>, (Seq<u8>, u64)>,
    key: Seq<char>,
) -> Option<Seq<u8>> {
    if cache.contains_key(key) {
        Some(cache[key].0)
    } else {
        None
    }
}

/// The trace that reading `key` leaves.
pub open spec fn get_trace(
    d: DebugView,
    s: Map<Seq<u8>, store::ValueView>,
    key: Seq<char>,
) -> TraceView {
    let cached = cached_value(d.cache, key);
    let source = source_value(s, key);
    let cv = if d.cache.contains_key(key) { d.cache[key].1 } else { 0 };
    let ev = version_of(d.ver, key);
    TraceView {
        seq: d.seq.wrapping_add(1),
        op: "GET"@,
        key,
        verdict: verdict_of(cached, source),
        cached_ver: cv,
        engine_ver: ev,
        note: note_of(cached, source, cv, ev),
    }
}

/// The line that reports a bug.
pub open spec fn report_line(t: TraceView) -> Seq<char> {
    "#"@ + text::dec_text(t.seq as nat) + " "@ + t.op + " key="@ + t.key + " verdict="@
        + t.verdict.name() + " cached_v="@ + text::dec_text(t.cached_ver as nat) + " engine_v="@
        + text::dec_text(t.engine_ver as nat) + " :: "@ + t.note
}

/// The cache debugger. The source of truth is handed to each operation that needs it.
pub struct CacheDebugger {
    cache: KeyMap<String, CacheEntry>,
    ver: KeyMap<String, u64>,
    traces: Vec<Trace>,
    seq: u64,
    max_traces: usize,
}

impl View for CacheDebugger {
    type V = DebugView;

    closed spec fn view(&self) -> DebugView {
        DebugView {
            cache: self.cache@.map_values(|e: CacheEntry| (e.value@, e.populated_at_ver)),
            ver: self.ver@,
            traces: trace_views(self.traces@),
            seq: self.seq,
            max_traces: self.max_traces as nat,
        }
    }
}

fn copy_bytes(b: &[u8]) -> (r: Vec<u8>)
    ensures
        r@ == b@,
{
    let mut v: Vec<u8> = Vec::new();
    push_all(&mut v, b);
    proof {
        assert(v@ =~= b@);
    }
    v
}

impl CacheDebugger {
    pub closed spec fn wf(&self) -> bool {
        &&& self.cache.wf()
        &&& self.ver.wf()
        &&& self.max_traces >= 16
        &&& self.traces@.len() <= self.max_traces
    }

    /// At most the last `max_traces` traces are kept, but never fewer than 16.
    pub fn new(max_traces: usize) -> (r: Self)
        ensures
            r.wf(),
            r@ == (DebugView {
                cache: Map::empty(),
                ver: Map::empty(),
                traces: Seq::empty(),
                seq: 0,
                max_traces: if max_traces >= 16 { max_traces as nat } else { 16 },
            }),
    {
        let r = CacheDebugger {
            cache: KeyMap::new(),
            ver: KeyMap::new(),
            traces: Vec::new(),
            seq: 0,
            max_traces: if max_traces >= 16 { max_traces } else { 16 },
        };
        proof {
            assert(r@.cache =~= Map::<Seq<char>, (Seq<u8>, u64)>::empty());
            assert(r@.traces =~= Seq::<TraceView>::empty());
        }
        r
    }

    fn engine_value(&self, source: &Store, key: &str) -> (r: Option<Vec<u8>>)
        requires
            source.wf(),
        ensures
            match r {
                Some(b) => source_value(source@, key@) == Some(b@),
                None => source_value(source@, key@) is None,
            },
    {
        match source.get(&ek(key)) {
            Some(Value::Bytes(b)) => Some(b),
            Some(Value::Int(i)) => {
                let mut d: Vec<u8> = Vec::new();
                push_dec_signed(&mut d, i);
                proof {
                    assert(d@ =~= text::dec_signed(i as int));
                }
                Some(d)
            },
            None => None,
        }
    }

    /// Whether the source of a key can be written once more.
    pub fn has_room(&self, key: &str) -> (r: bool)
        requires
            self.wf(),
        ensures
            r == (version_of(self@.ver, key@) < u64::MAX),
    {
        self.engine_ver(key) < u64::MAX
    }

    fn engine_ver(&self, key: &str) -> (r: u64)
        requires
            self.wf(),
        ensures
            r == version_of(self@.ver, key@),
    {
        match self.ver.get(&key.to_owned()) {
            Some(v) => *v,
            None => 0,
        }
    }

    fn record(&mut self, t: Trace)
        requires
            old(self).wf(),
        ensures
            final(self).wf(),
            final(self)@ == (DebugView {
                traces: recorded(old(self)@.traces, t@, old(self)@.max_traces),
                ..old(self)@
            }),
    {
        let ghost before = self@;
        self.traces.push(t);
        if self.traces.len() > self.max_traces {
            let _oldest = self.traces.remove(0);
        }
        proof {
            assert(self@.traces =~= recorded(before.traces, t@, before.max_traces));
        }
    }

    fn bump(&mut self, key: &str) -> (r: u64)
        requires
            old(self).wf(),
            version_of(old(self)@.ver, key@) < u64::MAX,
        ensures
            final(self).wf(),
            r == version_of(old(self)@.ver, key@) + 1,
            final(self)@ == (DebugView { ver: old(self)@.ver.insert(key@, r), ..old(self)@ }),
    {
        let nv: u64 = self.engine_ver(key) + 1;
        self.ver.insert(key.to_owned(), nv);
        nv
    }

    /// An authoritative write: the source takes the value, and the version of the key
    /// goes up by one.
    pub fn source_set(&mut self, source: &mut Store, key: &str, value: &[u8]) -> (r: u64)
        requires
            old(self).wf(),
            old(source).wf(),
            version_of(old(self)@.ver, key@) < u64::MAX,
        ensures
            final(self).wf(),
            final(source).wf(),
            r == version_of(old(self)@.ver, key@) + 1,
            final(self)@ == (DebugView { ver: old(self)@.ver.insert(key@, r), ..old(self)@ }),
            final(source)@ == old(source)@.insert(
                source_key(key@),
                store::ValueView::Bytes(value@),
            ),
            source_value(final(source)@, key@) == Some(value@),
    {
        source.put(ek(key), Value::Bytes(copy_bytes(value)));
        self.bump(key)
    }

    /// An authoritative delete.
    pub fn source_del(&mut self, source: &mut Store, key: &str) -> (r: u64)
        requires
            old(self).wf(),
            old(source).wf(),
            version_of(old(self)@.ver, key@) < u64::MAX,
        ensures
            final(self).wf(),
            final(source).wf(),
            r == version_of(old(self)@.ver, key@) + 1,
            final(self)@ == (DebugView { ver: old(self)@.ver.insert(key@, r), ..old(self)@ }),
            final(source)@ == old(source)@.remove(source_key(key@)),
            source_value(final(source)@, key@) is None,
    {
        let _was = source.delete(&ek(key));
        self.bump(key)
    }

    /// A read of the source, past the cache.
    pub fn source_get(&self, source: &Store, key: &str) -> (r: Option<Vec<u8>>)
        requires
            source.wf(),
        ensures
            match r {
                Some(b) => source_value(source@, key@) == Some(b@),
                None => source_value(source@, key@) is None,
            },
    {
        self.engine_value(source, key)
    }

    /// A cache write, stamped with the version that the source has now.
    pub fn cache_set(&mut self, key: &str, value: &[u8])
        requires
            old(self).wf(),
        ensures
            final(self).wf(),
            ({
                let ver = version_of(old(self)@.ver, key@);
                final(self)@ == (DebugView {
                    cache: old(self)@.cache.insert(key@, (value@, ver)),
                    seq: old(self)@.seq.wrapping_add(1),
                    traces: recorded(
                        old(self)@.traces,
                        (TraceView {
                            seq: old(self)@.seq.wrapping_add(1),
                            op: "SET"@,
                            key: key@,
                            verdict: Verdict::Hit,
                            cached_ver: ver,
                            engine_ver: ver,
                            note: "cache populated"@,
                        }),
                        old(self)@.max_traces,
                    ),
                    ..old(self)@
                })
            }),
    {
        let ver: u64 = self.engine_ver(key);
        let v = copy_bytes(value);
        self.cache.insert(key.to_owned(), CacheEntry { value: v, populated_at_ver: ver });
        self.seq = self.seq.wrapping_add(1);
        proof {
            assert(self@.cache =~= old(self)@.cache.insert(key@, (value@, ver)));
        }
        let seq: u64 = self.seq;
        self.record(
            Trace {
                seq,
                op: "SET",
                key: key.to_owned(),
                verdict: Verdict::Hit,
                cached_ver: ver,
                engine_ver: ver,
                note: "cache populated".to_owned(),
            },
        );
    }

    /// Drops a key from the cache.
    pub fn cache_invalidate(&mut self, key: &str)
        requires
            old(self).wf(),
        ensures
            final(self).wf(),
            final(self)@ == (DebugView {
                cache: old(self)@.cache.remove(key@),
                seq: old(self)@.seq.wrapping_add(1),
                traces: recorded(
                    old(self)@.traces,
                    (TraceView {
                        seq: old(self)@.seq.wrapping_add(1),
                        op: "INVALIDATE"@,
                        key: key@,
                        verdict: Verdict::Miss,
                        cached_ver: 0,
                        engine_ver: version_of(old(self)@.ver, key@),
                        note: "cache invalidated"@,
                    }),
                    old(self)@.max_traces,
                ),
                ..old(self)@
            }),
    {
        let _gone = self.cache.remove(&key.to_owned());
        self.seq = self.seq.wrapping_add(1);
        proof {
            assert(self@.cache =~= old(self)@.cache.remove(key@));
        }
        let ev: u64 = self.engine_ver(key);
        let seq: u64 = self.seq;
        self.record(
            Trace {
                seq,
                op: "INVALIDATE",
                key: key.to_owned(),
                verdict: Verdict::Miss,
                cached_ver: 0,
                engine_ver: ev,
                note: "cache invalidated".to_owned(),
            },
        );
    }

    /// A cache read: what the cache serves, judged against the source.
    pub fn cache_get(&mut self, source: &Store, key: &str) -> (r: (Option<Vec<u8>>, Verdict))
        requires
            old(self).wf(),
            source.wf(),
        ensures
            final(self).wf(),
            match r.0 {
                Some(b) => cached_value(old(self)@.cache, key@) == Some(b@),
                None => cached_value(old(self)@.cache, key@) is None,
            },
            r.1 == verdict_of(cached_value(old(self)@.cache, key@), source_value(source@, key@)),
            final(self)@ == (DebugView {
                seq: old(self)@.seq.wrapping_add(1),
                traces: recorded(
                    old(self)@.traces,
                    get_trace(old(self)@, source@, key@),
                    old(self)@.max_traces,
                ),
                ..old(self)@
            }),
    {
        let engine_ver: u64 = self.engine_ver(key);
        let engine_val = self.engine_value(source, key);
        let ghost d = self@;
        let mut value: Option<Vec<u8>> = None;
        let mut verdict = Verdict::Miss;
        let mut cached_ver: u64 = 0;
        let mut note: String = "not cached".to_owned();
        match self.cache.get(&key.to_owned()) {
            None => {
                assert(!d.cache.contains_key(key@));
            },
            Some(c) => {
                assert(d.cache.contains_key(key@));
                assert(d.cache[key@] == (c.value@, c.populated_at_ver));
                value = Some(copy_bytes(c.value.as_slice()));
                cached_ver = c.populated_at_ver;
                match &engine_val {
                    None => {
                        verdict = Verdict::Phantom;
                        note =
                        "PHANTOM: cached but engine has no value (missed invalidation)".to_owned();
                    },
                    Some(ev) => {
                        if same_bytes(c.value.as_slice(), ev.as_slice()) {
                            verdict = Verdict::Hit;
                            note = "fresh".to_owned();
                        } else {
                            verdict = Verdict::StaleHit;
                            note = "STALE: cached v".to_owned();
                            note.append(dec_string(cached_ver).as_str());
                            note.append(" != engine v");
                            note.append(dec_string(engine_ver).as_str());
                            note.append(" (");
                            note.append(dec_string(c.value.len() as u64).as_str());
                            note.append(" bytes vs ");
                            note.append(dec_string(ev.len() as u64).as_str());
                            note.append(" bytes)");
                        }
                    },
                }
            },
        }
        self.seq = self.seq.wrapping_add(1);
        let seq: u64 = self.seq;
        self.record(
            Trace { seq, op: "GET", key: key.to_owned(), verdict, cached_ver, engine_ver, note },
        );
        (value, verdict)
    }

    /// All traces that are kept, oldest first.
    pub fn traces(&self) -> (r: Vec<Trace>)
        ensures
            trace_views(r@) == self@.traces,
    {
        let mut out: Vec<Trace> = Vec::new();
        let mut i: usize = 0;
        while i < self.traces.len()
            invariant
                i <= self.traces@.len(),
                out@.len() == i,
                forall|k: int| 0 <= k < i ==> (#[trigger] out@[k])@ == self.traces@[k]@,
            decreases self.traces@.len() - i,
        {
            out.push(self.traces[i].clone());
            i = i + 1;
        }
        proof {
            assert(trace_views(out@) =~= self@.traces);
        }
        out
    }

    /// The traces that show a bug, oldest first.
    pub fn bugs(&self) -> (r: Vec<Trace>)
        ensures
            trace_views(r@) == self@.traces.filter(|t: TraceView| t.verdict.bug()),
    {
        let mut out: Vec<Trace> = Vec::new();
        let mut i: usize = 0;
        let ghost all = self@.traces;
        let ghost p = |t: TraceView| t.verdict.bug();
        proof {
            assert(all.take(0).filter(p) =~= Seq::<TraceView>::empty());
            assert(trace_views(out@) =~= Seq::<TraceView>::empty());
        }
        while i < self.traces.len()
            invariant
                i <= self.traces@.len(),
                all == trace_views(self.traces@),
                p == (|t: TraceView| t.verdict.bug()),
                trace_views(out@) == all.take(i as int).filter(p),
            decreases self.traces@.len() - i,
        {
            proof {
                assert(all.take(i + 1) =~= all.take(i as int).push(all[i as int]));
                all.take(i as int).lemma_filter_push(all[i as int], p);
            }
            if self.traces[i].verdict.is_bug() {
                let ghost before = out@;
                let t = self.traces[i].clone();
                out.push(t);
                proof {
                    assert(trace_views(out@) =~= trace_views(before).push(all[i as int]));
                }
            }
            i = i + 1;
        }
        proof {
            assert(all.take(i as int) =~= all);
        }
        out
    }

    /// One line for each bug.
    pub fn report(&self) -> (r: Vec<String>)
        ensures
            r@.len() == self@.traces.filter(|t: TraceView| t.verdict.bug()).len(),
            forall|i: int|
                0 <= i < r@.len() ==> (#[trigger] r@[i])@ == report_line(
                    self@.traces.filter(|t: TraceView| t.verdict.bug())[i],
                ),
    {
        let bugs = self.bugs();
        let mut out: Vec<String> = Vec::new();
        let mut i: usize = 0;
        while i < bugs.len()
            invariant
                i <= bugs@.len(),
                out@.len() == i,
                forall|k: int| 0 <= k < i ==> (#[trigger] out@[k])@ == report_line(bugs@[k]@),
            decreases bugs@.len() - i,
        {
            let t = &bugs[i];
            let mut s: String = "#".to_owned();
            s.append(dec_string(t.seq).as_str());
            s.append(" ");
            s.append(t.op);
            s.append(" key=");
            s.append(t.key.as_str());
            s.append(" verdict=");
            s.append(t.verdict.as_str());
            s.append(" cached_v=");
            s.append(dec_string(t.cached_ver).as_str());
            s.append(" engine_v=");
            s.append(dec_string(t.engine_ver).as_str());
            s.append(" :: ");
            s.append(t.note.as_str());
            out.push(s);
            i = i + 1;
        }
        out
    }

    /// Forgets the traces and begins to number them anew.
    pub fn clear(&mut self)
        requires
            old(self).wf(),
        ensures
            final(self).wf(),
            final(self)@ == (DebugView { traces: Seq::empty(), seq: 0, ..old(self)@ }),
    {
        self.traces.clear();
        self.seq = 0;
        proof {
            assert(self@.traces =~= Seq::<TraceView>::empty());
        }
    }
}

/// A cache that was filled with what the source holds serves a hit, until the source
/// takes another value without an invalidation: then every read is a stale hit, and
/// after a delete a phantom; after an invalidation it is a miss, which is no bug.
pub proof fn law_missed_invalidation_is_caught(cached: Seq<u8>, other: Seq<u8>)
    ensures
        verdict_of(Some(cached), Some(cached)) == Verdict::Hit,
        other != cached ==> verdict_of(Some(cached), Some(other)) == Verdict::StaleHit,
        verdict_of(Some(cached), None) == Verdict::Phantom,
        !verdict_of(None, Some(other)).bug(),
        !verdict_of(None, None).bug(),
        verdict_of(Some(cached), Some(other)).bug() == (other != cached),
{
}

/// Never more traces are kept than the limit, and the newest is always among them.
pub proof fn law_traces_bounded(traces: Seq<TraceView>, t: TraceView, max: nat)
    requires
        max >= 1,
        traces.len() <= max,
    ensures
        recorded(traces, t, max).len() <= max,
        recorded(traces, t, max).last() == t,
{
}

/// The traces that are kept are the newest, in the order in which they came; while there is room
/// none is dropped.
pub proof fn law_traces_are_the_newest(traces: Seq<TraceView>, t: TraceView, max: nat, i: int)
    requires
        max >= 1,
        traces.len() <= max,
        0 <= i < recorded(traces, t, max).len() - 1,
    ensures
        recorded(traces, t, max)[i] == traces[i + 1 + traces.len() - recorded(traces, t, max).len()],
        traces.len() < max ==> recorded(traces, t, max).len() == traces.len() + 1,
        traces.len() == max ==> recorded(traces, t, max).len() == max,
{
}

/// What was written to the source is what it holds for that key, a number as the text that reads
/// back as it.
pub proof fn law_source_holds_what_was_written(
    s: Map<Seq<u8>, store::ValueView>,
    key: Seq<char>,
    b: Seq<u8>,
    n: i64,
)
    ensures
        source_value(s.insert(source_key(key), store::ValueView::Bytes(b)), key) == Some(b),
        source_value(s.remove(source_key(key)), key) is None,
        source_value(s.insert(source_key(key), store::ValueView::Int(n)), key) matches Some(d)
            && text::header_signed(d) == Some(n as int),
{
    text::law_signed_round_trip(n as int);
}

/// A read leaves a trace of the key, numbered behind the last, with the version that the cached
/// value was taken at and the version that the source has come to.
pub proof fn law_reads_are_traced(
    d: DebugView,
    s: Map<Seq<u8>, store::ValueView>,
    key: Seq<char>,
    b: Seq<u8>,
    taken: u64,
    now: u64,
)
    requires
        d.seq < u64::MAX,
    ensures
        ({
            let seen = DebugView {
                cache: d.cache.insert(key, (b, taken)),
                ver: d.ver.insert(key, now),
                ..d
            };
            let t = get_trace(seen, s, key);
            &&& t.key == key
            &&& t.seq == d.seq + 1
            &&& t.cached_ver == taken
            &&& t.engine_ver == now
            &&& t.verdict.bug() == (source_value(s, key) != Some(b))
        }),
        get_trace(DebugView { cache: d.cache.remove(key), ..d }, s, key).verdict == Verdict::Miss,
        get_trace(
            DebugView { cache: d.cache.remove(key), ver: d.ver.remove(key), ..d },
            s,
            key,
        ).engine_ver == 0,
{
    match source_value(s, key) {
        Some(x) => law_missed_invalidation_is_caught(b, x),
        None => law_missed_invalidation_is_caught(b, b),
    }
}

} // verus!
