//! Agent memory, the memory graph and retrieval.
use dbstrike::graph::UNIT_WEIGHT;
use dbstrike::memory::Memory;
use dbstrike::memory_keys::{decode_meta, encode_meta, Meta};
use dbstrike::rag::{
    decode_ids, encode_ids, pool_size, top_results, Rag, Ranked, Retrieved,
};
use dbstrike::recall::{postings, recall_candidates, Scored};
use dbstrike::store::Store;
use dbstrike::tokens::tokenize;

/// A brute-force vector index.
struct Flat {
    rows: Vec<(u64, Vec<f32>)>,
}

fn cosine(a: &[f32], b: &[f32]) -> f32 {
    let dot: f32 = a.iter().zip(b).map(|(x, y)| x * y).sum();
    let na = a.iter().map(|x| x * x).sum::<f32>().sqrt().max(1e-9);
    let nb = b.iter().map(|x| x * x).sum::<f32>().sqrt().max(1e-9);
    dot / (na * nb)
}

impl Flat {
    fn search(&self, q: &[f32], k: usize) -> Vec<(u64, f32)> {
        let mut all: Vec<(u64, f32)> =
            self.rows.iter().map(|(id, v)| (*id, 1.0 - cosine(q, v))).collect();
        all.sort_by(|a, b| a.1.partial_cmp(&b.1).unwrap());
        all.truncate(k);
        all
    }
}

/// Scores the candidates of a query by similarity, keywords and salience.
fn scored(mem: &Memory, s: &Store, idx: &Flat, query: &str, qv: &[f32], k: usize) -> Vec<Scored> {
    let found = idx.search(qv, k * 3);
    let ids: Vec<u64> = found.iter().map(|f| f.0).collect();
    let post = postings(s, query);
    let total = mem.ltm_count() as f32;
    let weight =
        |id: u64| 0.5 + 0.5 * mem.salience_of(id).map(f32::from_bits).unwrap_or(0.5);
    recall_candidates(&ids, &post)
        .iter()
        .map(|c| {
            let mut score = 0.0f32;
            if let Some(at) = c.semantic {
                score = (1.0 - found[at].1 / 2.0) * weight(c.id);
            }
            for t in &c.tokens {
                let df = post[*t].ids.len() as f32;
                let idf = ((total - df + 0.5) / (df + 0.5)).ln().max(0.0) + 1.0;
                score += idf * 0.8 * weight(c.id);
            }
            Scored { id: c.id, score: score.to_bits(), semantic: c.semantic.is_some() }
        })
        .collect()
}

fn letters(s: &str, dim: usize, m: u32) -> Vec<f32> {
    let mut v = vec![0f32; dim];
    for (i, c) in s.chars().enumerate() {
        v[i % dim] += (c as u32 % m) as f32;
    }
    v
}

#[test]
fn ltm_recall_blended() {
    let mut s = Store::new();
    let mut m = Memory::open(&s);
    let mut idx = Flat { rows: vec![] };
    let v = |t: &str| letters(t, 8, 7);
    let id = m.ltm_store(
        &mut s,
        "the agent planned a deployment to production",
        "agent:planner",
        0.9f32.to_bits(),
        "trigger:goal",
        "default",
        1,
    );
    idx.rows.push((id, v("deploy production plan")));
    let id = m.ltm_store(
        &mut s,
        "user prefers rust over python for speed",
        "user",
        0.7f32.to_bits(),
        "trigger:chat",
        "default",
        2,
    );
    idx.rows.push((id, v("rust speed preference")));
    let id = m.ltm_store(
        &mut s,
        "cache returned a stale value during load test",
        "tool:monitor",
        0.5f32.to_bits(),
        "trigger:alert",
        "default",
        3,
    );
    idx.rows.push((id, v("cache stale bug")));

    let q = "production deployment plan";
    let all = scored(&m, &s, &idx, q, &v(q), 3);
    let hits = m.recall(&s, &all, 3, 9);
    assert!(!hits.is_empty());
    assert!(hits[0].text.contains("deployment"));
}

#[test]
fn ltm_recall_is_agent_scoped() {
    let mut s = Store::new();
    let mut m = Memory::open(&s);
    let mut idx = Flat { rows: vec![] };
    let v = |t: &str| -> Vec<f32> {
        // deterministic pseudo-embedding from tokens
        let mut o = vec![0f32; 8];
        for (i, w) in t.split_whitespace().enumerate() {
            let h = w.bytes().fold(0u64, |a, b| a.wrapping_mul(31).wrapping_add(b as u64));
            o[i % 8] += (h % 1000) as f32 / 1000.0;
        }
        o
    };

    // alice's secret + bob's secret + one legacy record.
    let id = m.ltm_store(
        &mut s,
        "alice aws key is AKIA-ALICE-123",
        "agent:alice",
        0.9f32.to_bits(),
        "t",
        "alice",
        1,
    );
    idx.rows.push((id, v("alice aws key secret credential")));
    let id = m.ltm_store(
        &mut s,
        "bob gpg passphrase is hunter2-bob",
        "agent:bob",
        0.9f32.to_bits(),
        "t",
        "bob",
        2,
    );
    idx.rows.push((id, v("bob gpg passphrase secret credential")));
    let id = m.ltm_store(
        &mut s,
        "legacy public onboarding doc",
        "doc",
        0.5f32.to_bits(),
        "t",
        "",
        3,
    );
    idx.rows.push((id, v("legacy public onboarding doc")));

    let ask = |scope: &str, query: &str, vec: &str| {
        let all = scored(&m, &s, &idx, query, &v(vec), 10);
        m.recall_scoped(&s, scope, &all, 10, 9)
    };

    // Alice asks about credentials: sees hers + legacy, NEVER bob's.
    let a = ask("alice", "secret credential key", "alice aws key secret credential");
    assert!(a.iter().any(|h| h.text.contains("AKIA-ALICE")), "alice must see her own memory");
    assert!(a.iter().any(|h| h.text.contains("onboarding")), "legacy records visible to all scopes");
    assert!(
        !a.iter().any(|h| h.text.contains("hunter2")),
        "SECURITY: alice recalled bob's memory!"
    );

    // Bob symmetric.
    let b = ask("bob", "secret credential passphrase", "bob gpg passphrase secret credential");
    assert!(b.iter().any(|h| h.text.contains("hunter2")));
    assert!(
        !b.iter().any(|h| h.text.contains("AKIA-ALICE")),
        "SECURITY: bob recalled alice's memory!"
    );

    // Default pool sees only legacy — neither agent's writes leak into it.
    let d = ask("default", "secret credential", "secret credential key passphrase");
    assert!(!d.iter().any(|h| h.text.contains("AKIA-ALICE")));
    assert!(!d.iter().any(|h| h.text.contains("hunter2")));

    // Meta round-trips the owner through encode/decode (v3).
    let rec = m.ltm_get(&s, a.iter().find(|h| h.text.contains("AKIA")).unwrap().id).unwrap();
    assert_eq!(rec.meta.owner, "alice");
}

#[test]
fn reset_volatile_after_flush_clears_mirrors() {
    let mut s = Store::new();
    let mut m = Memory::open(&s);
    let mut idx = Flat { rows: vec![] };
    let v = |t: &str| vec![t.len() as f32, 1.0, 0.5];
    let id = m.ltm_store(&mut s, "fact one about rust", "doc", 0.9f32.to_bits(), "t", "default", 1);
    idx.rows.push((id, v("rust")));
    let id = m.ltm_store(&mut s, "fact two about llvm", "doc", 0.8f32.to_bits(), "t", "default", 2);
    idx.rows.push((id, v("llvm")));
    assert_eq!(m.ltm_count(), 2);
    let all = scored(&m, &s, &idx, "rust", &v("rust"), 5);
    assert!(m.recall(&s, &all, 5, 9).len() >= 1);

    // A flush wipes the substrate and resets the mirrors.
    s = Store::new();
    idx.rows.clear();
    m.reset_volatile();

    assert_eq!(m.ltm_count(), 0, "MEM.COUNT must be 0 after flush");
    let all = scored(&m, &s, &idx, "rust", &v("rust"), 5);
    assert!(m.recall(&s, &all, 5, 9).is_empty(), "no ghost hits");
    // Id allocator restarts where a fresh engine starts: first id = 1.
    let id = m.ltm_store(&mut s, "fresh after flush", "doc", 0.5f32.to_bits(), "t", "default", 3);
    assert_eq!(id, 1, "ids must restart at 1 after flush, got {id}");
    assert_eq!(m.ltm_count(), 1);
}

#[test]
fn v2_meta_decodes_with_empty_owner() {
    // hand-encode a v2 blob: [ver=2][src][ts][sal][vf][vt][lineage]
    let mut blob = vec![2u8];
    let src = b"tool:cli";
    blob.extend_from_slice(&(src.len() as u32).to_le_bytes());
    blob.extend_from_slice(src);
    blob.extend_from_slice(&42u64.to_le_bytes());
    blob.extend_from_slice(&0.6f32.to_le_bytes());
    blob.extend_from_slice(&7u64.to_le_bytes());
    blob.extend_from_slice(&0u64.to_le_bytes());
    blob.extend_from_slice(b"op:rotate");
    let meta = decode_meta(&blob).expect("v2 blob must decode");
    assert_eq!(meta.source, "tool:cli");
    assert_eq!(meta.lineage, "op:rotate");
    assert_eq!(meta.valid_from, 7);
    assert_eq!(meta.owner, "");
}

#[test]
fn wm_ttl_expires() {
    let mut s = Store::new();
    let m = Memory::open(&s);
    m.wm_set(&mut s, "agent1", "ctx", b"hot", 100, 0);
    assert_eq!(m.wm_get(&mut s, "agent1", "ctx", 50), Some(b"hot".to_vec()));
    assert_eq!(m.wm_get(&mut s, "agent1", "ctx", 200), None);
}

#[test]
fn lineage_survives_roundtrip() {
    let mut s = Store::new();
    let mut m = Memory::open(&s);
    let id = m.ltm_store(
        &mut s,
        "secret key rotated",
        "tool:cli",
        0.6f32.to_bits(),
        "op:rotate",
        "default",
        9,
    );
    let rec = m.ltm_get(&s, id).unwrap();
    assert_eq!(rec.meta.source, "tool:cli");
    assert_eq!(rec.meta.lineage, "op:rotate");
    assert_eq!(f32::from_bits(rec.meta.salience), 0.6);
    assert_eq!(rec.meta.owner, "default");
}

#[test]
fn memory_survives_reopening() {
    let mut s = Store::new();
    let mut m = Memory::open(&s);
    let a = m.ltm_store(&mut s, "rust ownership model", "doc", 0.6f32.to_bits(), "seed", "x", 1);
    let b = m.ltm_store(&mut s, "python dynamic typing", "doc", 0.6f32.to_bits(), "seed", "x", 2);
    m.link(&mut s, a, b, "related_to", 0.9f32.to_bits());
    let seq = m.episode(&mut s, "agent-a", "tool", b"called search()", 3);
    m.proc_store(&mut s, "agent-a", "deploy", b"1. test");

    let mut again = Memory::open(&s);
    assert_eq!(again.ltm_count(), 2);
    assert_eq!(again.ltm_get(&s, a).unwrap().text, "rust ownership model");
    assert!(again.traverse(&s, a, 2, "").contains(&b));
    assert!(again.episodes(&s, "agent-a", 10).iter().any(|e| e.seq == seq));
    assert_eq!(again.proc_get(&s, "agent-a", "deploy"), Some(b"1. test".to_vec()));
    assert_eq!(again.proc_list(&s, "agent-a"), vec!["deploy".to_string()]);
    let c = again.ltm_store(&mut s, "a third fact", "doc", 0.5f32.to_bits(), "seed", "x", 4);
    assert!(c > a && c > b);
    again.ltm_forget(&mut s, a);
    assert!(Memory::open(&s).ltm_get(&s, a).is_none());
}

#[test]
fn episodes_and_working_memory_stay_apart_by_agent() {
    let mut s = Store::new();
    let mut m = Memory::open(&s);
    m.episode(&mut s, "a", "k", b"1", 1);
    let second = m.episode(&mut s, "a", "k", b"2", 2);
    m.episode(&mut s, "ab", "k", b"3", 3);
    assert_eq!(m.episodes(&s, "a", 10).len(), 2);
    m.episode_forget(&mut s, "a", second);
    assert_eq!(m.episodes(&s, "a", 10).len(), 1);
    m.episodes_clear(&mut s, "a");
    assert!(m.episodes(&s, "a", 10).is_empty());
    assert_eq!(m.episodes(&s, "ab", 10).len(), 1);
    m.wm_set(&mut s, "a", "k", b"v", 10, 0);
    m.wm_delete(&mut s, "a", "k");
    assert_eq!(m.wm_get(&mut s, "a", "k", 1), None);
}

#[test]
fn facts_hold_only_in_their_time() {
    let mut s = Store::new();
    let mut m = Memory::open(&s);
    let id = m.ltm_store_temporal(
        &mut s,
        "the sky was red",
        "doc",
        0.5f32.to_bits(),
        "t",
        100,
        200,
        "default",
        1,
    );
    let all = vec![Scored { id, score: 1f32.to_bits(), semantic: true }];
    assert_eq!(m.recall_as_of(&s, "default", &all, 3, 150).len(), 1);
    assert_eq!(m.recall_as_of(&s, "default", &all, 3, 50).len(), 0);
    assert_eq!(m.recall_as_of(&s, "default", &all, 3, 250).len(), 0);
    m.ltm_invalidate(&mut s, id, 120);
    assert_eq!(m.recall_as_of(&s, "default", &all, 3, 150).len(), 0);
    // Hidden from then on, and still there for a look at the time before.
    assert_eq!(m.recall(&s, &all, 3, 119).len(), 1);
    assert_eq!(m.recall(&s, &all, 3, 120).len(), 0);
    assert_eq!(m.recall_as_of(&s, "default", &all, 3, 110).len(), 1);
}

#[test]
fn meta_round_trips() {
    let m = Meta {
        source: "src é".into(),
        created_ts: 5,
        salience: 0.25f32.to_bits(),
        lineage: "why".into(),
        valid_from: 1,
        valid_to: 9,
        owner: "me".into(),
    };
    assert_eq!(decode_meta(&encode_meta(&m)), Some(m));
    assert_eq!(decode_meta(&[9u8, 1, 2]), None);
}

#[test]
fn edges_lead_both_ways() {
    let mut s = Store::new();
    let m = Memory::open(&s);
    m.link(&mut s, 1, 2, "knows", 0.5f32.to_bits());
    m.link(&mut s, 2, 3, "knows", UNIT_WEIGHT);
    m.link(&mut s, 1, 4, "likes", UNIT_WEIGHT);
    let out = m.neighbors(&s, 1, "knows");
    assert_eq!(out.len(), 1);
    assert_eq!((out[0].id, f32::from_bits(out[0].weight)), (2, 0.5));
    assert_eq!(m.neighbors(&s, 1, "").len(), 2);
    assert_eq!(m.incoming(&s, 3, "").iter().map(|e| e.id).collect::<Vec<_>>(), vec![2]);
    assert_eq!(m.traverse(&s, 1, 1, "knows"), vec![1, 2]);
    let far = m.traverse(&s, 1, 2, "");
    assert!(far.contains(&3) && far.contains(&4));
    m.unlink(&mut s, 1, 2, "knows");
    assert!(m.neighbors(&s, 1, "knows").is_empty());
    assert!(m.incoming(&s, 2, "").is_empty());
}

#[test]
fn tokens_are_lowered_and_cut() {
    assert_eq!(
        tokenize("The Quick-brown FOX, and it's ÜBER 42nd!"),
        vec!["quick", "brown", "fox", "über", "42nd"]
    );
}

fn answer(ranked: Vec<Ranked>, k: usize) -> Vec<Retrieved> {
    let all: Vec<Retrieved> = ranked
        .into_iter()
        .map(|r| {
            let rank = |x: Option<usize>| x.map_or(0.0, |n| 1.0 / (60.0 + n as f32 + 1.0));
            let score =
                rank(r.dense_rank) + rank(r.sparse_rank) + 0.01 * r.overlap as f32;
            Retrieved {
                id: r.id,
                text: r.text,
                score: score.to_bits(),
                source: r.source,
                dense_rank: r.dense_rank,
                sparse_rank: r.sparse_rank,
            }
        })
        .collect();
    top_results(&all, k)
}

#[test]
fn hybrid_retrieve_finds_relevant() {
    let mut s = Store::new();
    let mut r = Rag::open(&s);
    let mut idx = Flat { rows: vec![] };
    let emb = |t: &str| letters(t, 16, 11);
    let docs = [
        ("Rust ownership prevents data races at compile time", "rust ownership data races", "doc:rust"),
        ("Python uses a global interpreter lock called the GIL", "python gil interpreter lock", "doc:python"),
        ("HNSW is a graph index for approximate nearest neighbor search", "hnsw graph index nearest neighbor", "doc:ann"),
    ];
    for (text, words, source) in docs {
        let id = r.ingest(&mut s, text, source, "default", 1);
        idx.rows.push((id, emb(words)));
    }

    let q = "nearest neighbor graph index";
    let all = scored(r.memory(), &s, &idx, q, &emb(q), pool_size(3));
    let hits = answer(r.retrieve_scoped(&s, "default", q, &all, 3, 9), 3);
    assert!(!hits.is_empty());
    assert_eq!(hits[0].source, "doc:ann");
    assert!(r.context_block(&hits, 3).contains("HNSW"));
    assert!(r.context_block(&hits, 1).starts_with("[1] (doc:ann) HNSW is a graph index"));
}

#[test]
fn cache_serves_then_invalidates_on_ingest() {
    let mut s = Store::new();
    let mut r = Rag::open(&s);
    let mut idx = Flat { rows: vec![] };
    let emb = |t: &str| letters(t, 16, 11);
    let id = r.ingest(&mut s, "the sky is blue during the day", "doc:1", "default", 1);
    idx.rows.push((id, emb("sky blue day")));
    let q = "sky color";
    // first call computes
    assert!(r.retrieve_cached(&s, "default", q, 2, 9).is_none());
    let all = scored(r.memory(), &s, &idx, q, &emb(q), pool_size(2));
    let hits = answer(r.retrieve_scoped(&s, "default", q, &all, 2, 9), 2);
    r.remember(&mut s, "default", q, 2, &hits);
    // second call served from cache
    let served = r.retrieve_cached(&s, "default", q, 2, 9).unwrap();
    assert_eq!(served.len(), hits.len());
    assert_eq!(served[0].id, hits[0].id);
    assert_eq!(served[0].score, hits[0].score);

    // new ingest bumps corpus generation -> cache key changes -> recompute
    r.ingest(&mut s, "the ocean is also blue", "doc:2", "default", 2);
    assert!(r.retrieve_cached(&s, "default", q, 2, 9).is_none());
    // another agent is never served this answer
    r.remember(&mut s, "default", q, 2, &hits);
    assert!(r.retrieve_cached(&s, "other", q, 2, 9).is_none());
    r.invalidate_query_cache(&mut s);
    assert!(r.retrieve_cached(&s, "default", q, 2, 9).is_none());
}

#[test]
fn cached_lists_round_trip() {
    let item = |id: u64, score: f32| Retrieved {
        id,
        text: "t".into(),
        score: score.to_bits(),
        source: "s".into(),
        dense_rank: Some(0),
        sparse_rank: None,
    };
    let list = vec![item(3, 0.5), item(u64::MAX, -1.0)];
    assert_eq!(
        decode_ids(&encode_ids(&list)),
        Some(vec![(3, 0.5f32.to_bits()), (u64::MAX, (-1.0f32).to_bits())])
    );
    assert_eq!(decode_ids(&vec![1, 0]), None);
}

#[test]
fn salience_is_kept_where_it_is_read() {
    let mut s = Store::new();
    let mut m = Memory::open(&s);
    let id = m.ltm_store(&mut s, "a fact", "tool", 0.5f32.to_bits(), "", "a", 1);
    m.touch_salience(&mut s, id, 0.75f32.to_bits());
    assert_eq!(m.salience_of(id), Some(0.75f32.to_bits()));
    assert_eq!(m.ltm_get(&s, id).unwrap().meta.salience, 0.75f32.to_bits());
    assert_eq!(Memory::open(&s).salience_of(id), Some(0.75f32.to_bits()));
    m.touch_salience(&mut s, id + 1, 0);
    assert_eq!(m.salience_of(id + 1), None);
}

#[test]
fn a_walk_takes_the_shortest_way() {
    let mut s = Store::new();
    let m = Memory::open(&s);
    // 5 is four edges away over 2, 3 and 4, and two over 6.
    for (a, b) in [(1, 2), (2, 3), (3, 4), (4, 5), (1, 6), (6, 5)] {
        m.link(&mut s, a, b, "next", UNIT_WEIGHT);
    }
    assert_eq!(m.traverse(&s, 1, 2, "next"), vec![1, 2, 6, 3, 5]);
    assert_eq!(m.traverse(&s, 1, 9, "next"), vec![1, 2, 6, 3, 5, 4]);
}

#[test]
fn answers_are_kept_apart_by_scope_and_query() {
    let mut s = Store::new();
    let mut r = Rag::open(&s);
    let id = r.ingest(&mut s, "the sky is blue", "doc", "default", 1);
    let found = vec![Retrieved {
        id,
        text: "the sky is blue".into(),
        score: 1f32.to_bits(),
        source: "doc".into(),
        dense_rank: Some(0),
        sparse_rank: None,
    }];
    // Colons in a scope and in a query make no two of them the same.
    r.remember(&mut s, "a", "7:q", 5, &found);
    assert!(r.retrieve_cached(&s, "a:5", "q", 7, 9).is_none());
    assert_eq!(r.retrieve_cached(&s, "a", "7:q", 5, 9).unwrap().len(), 1);
}

#[test]
fn a_relation_is_matched_whole() {
    let mut s = Store::new();
    let m = Memory::open(&s);
    m.link(&mut s, 1, 2, "a", UNIT_WEIGHT);
    m.link(&mut s, 1, 3, "a:b", UNIT_WEIGHT);
    m.link(&mut s, 1, 4, "ab", UNIT_WEIGHT);
    assert_eq!(m.neighbors(&s, 1, "a").iter().map(|e| e.id).collect::<Vec<_>>(), vec![2]);
    assert_eq!(m.neighbors(&s, 1, "a:b").iter().map(|e| e.id).collect::<Vec<_>>(), vec![3]);
    assert_eq!(m.neighbors(&s, 1, "").len(), 3);
    assert!(m.incoming(&s, 3, "a").is_empty());
    assert_eq!(m.incoming(&s, 3, "a:b").iter().map(|e| e.id).collect::<Vec<_>>(), vec![1]);
}

#[test]
fn episode_numbers_rise_while_the_clock_goes_back() {
    let mut s = Store::new();
    let mut m = Memory::open(&s);
    let first = m.episode(&mut s, "a", "k", b"1", 1_000);
    let second = m.episode(&mut s, "b", "k", b"2", 10);
    let third = m.episode(&mut s, "a", "k", b"3", 1_000);
    assert!(first < second && second < third);
    assert_eq!(m.episodes(&s, "a", 10).len(), 2);
}

#[test]
fn reopening_goes_on_behind_the_stored_episodes() {
    let mut s = Store::new();
    let mut m = Memory::open(&s);
    let first = m.episode(&mut s, "a", "k", b"1", 1_000);
    // Taken up again in the same millisecond, and with the clock set back.
    let mut again = Memory::open(&s);
    let second = again.episode(&mut s, "a", "k", b"2", 1_000);
    let mut late = Memory::open(&s);
    let third = late.episode(&mut s, "a", "k", b"3", 10);
    assert!(first < second && second < third);
    let kept: Vec<Vec<u8>> = late.episodes(&s, "a", 10).into_iter().map(|e| e.payload).collect();
    assert_eq!(kept, vec![b"1".to_vec(), b"2".to_vec(), b"3".to_vec()]);
    late.reset_volatile();
    assert!(late.episode(&mut s, "a", "k", b"4", 10) > third);
}

#[test]
fn the_cache_hides_what_has_ended() {
    let mut s = Store::new();
    let mut r = Rag::open(&s);
    let id = r.ingest(&mut s, "the sky is blue", "doc", "default", 1);
    let found = vec![Retrieved {
        id,
        text: "the sky is blue".into(),
        score: 1f32.to_bits(),
        source: "doc".into(),
        dense_rank: Some(0),
        sparse_rank: None,
    }];
    r.remember(&mut s, "default", "sky", 3, &found);
    assert_eq!(r.retrieve_cached(&s, "default", "sky", 3, 50).unwrap().len(), 1);
    r.memory().ltm_invalidate(&mut s, id, 40);
    assert_eq!(r.retrieve_cached(&s, "default", "sky", 3, 39).unwrap().len(), 1);
    assert_eq!(r.retrieve_cached(&s, "default", "sky", 3, 40).unwrap().len(), 0);
}

#[test]
fn hits_come_highest_first_and_once() {
    let mut s = Store::new();
    let mut m = Memory::open(&s);
    let mut all = Vec::new();
    for (i, score) in [0.2f32, 0.9, 0.5, 0.9].iter().enumerate() {
        let id = m.ltm_store(&mut s, "some text", "doc", 0.5f32.to_bits(), "t", "default", i as u64);
        all.push(Scored { id, score: score.to_bits(), semantic: true });
    }
    let ids: Vec<u64> = m.recall(&s, &all, 4, 9).iter().map(|h| h.id).collect();
    assert_eq!(ids, vec![all[1].id, all[3].id, all[2].id, all[0].id]);
}
