//! Change events, filtered search and short-lived memory.
use dbstrike::reactive::Reactive;
use dbstrike::router::{rag_candidates, rag_join, rag_rank, AnnPlan, RagNeed, Router};
use dbstrike::store::{Store, Value};
use dbstrike::tiered::TieredMemory;

#[test]
fn subscriber_receives_matching_commits() {
    let mut e = Store::new();
    let mut hub = Reactive::attach();
    let me = hub.subscribe_prefix(b"kv:user");
    let mut inbox: Vec<Vec<u8>> = Vec::new();
    let mut put = |key: &[u8], v: i64, ts: u64| {
        e.put(key.to_vec(), Value::Int(v));
        if let Some((event, to)) = hub.on_commit(&key.to_vec(), &Value::Int(v), ts) {
            if to.contains(&me) {
                inbox.push(event.key);
            }
        }
    };
    put(b"kv:user:1", 1, 1);
    put(b"kv:post:1", 2, 2); // no match
    put(b"kv:user:2", 3, 3);

    assert_eq!(inbox[0], b"kv:user:1");
    assert_eq!(inbox[1], b"kv:user:2");
    assert_eq!(inbox.len(), 2); // the post commit was filtered out
}

#[test]
fn cdc_replay() {
    let mut hub = Reactive::attach();
    hub.cdc_len(); // enables the CDC log before any writes
    hub.on_commit(&b"a".to_vec(), &Value::Int(1), 1);
    hub.on_commit(&b"b".to_vec(), &Value::Int(2), 2);
    let all = hub.cdc_since(0);
    assert_eq!(all.len(), 2);
    let tail = hub.cdc_since(1);
    assert_eq!(tail.len(), 1);
    assert_eq!(tail[0].key, b"b");
}

#[test]
fn several_prefixes_deliver_once() {
    let mut hub = Reactive::attach();
    let id = hub.subscribe_prefixes(&vec![b"a".to_vec(), b"ab".to_vec()]);
    let (_, to) = hub.on_commit(&b"abc".to_vec(), &Value::Int(1), 1).unwrap();
    assert_eq!(to, vec![id]);
    assert_eq!(hub.subscribers_matching(&b"x".to_vec()), 0);
}

#[test]
fn few_rows_are_filtered_first() {
    for total in 0usize..300 {
        for n in [0, total / 20, total / 20 + 1, total] {
            let matching: Vec<String> = (0..n).map(|i| i.to_string()).collect();
            let share = n as f32 / total.max(1) as f32;
            let first = matches!(Router::new().rag_search(&matching, total), RagNeed::Distances(_));
            assert_eq!(first, share <= 0.05, "{n} of {total}");
        }
    }
}

#[test]
fn planner_switches_on_selectivity() {
    let r = Router::new();
    assert_eq!(r.plan_ann(0.01f32.to_bits()), AnnPlan::PreFilter);
    assert_eq!(r.plan_ann(0.5f32.to_bits()), AnnPlan::PostFilter);
    assert_eq!(r.plan_ann(0.05f32.to_bits()), AnnPlan::PreFilter);
    assert_eq!(r.plan_ann(f32::NAN.to_bits()), AnnPlan::PostFilter);
}

#[test]
fn rag_join_end_to_end() {
    // 3 tickets; only "open" ones should come back, ranked by similarity.
    let tickets = [("1", "open", [1.0f32, 0.0]), ("2", "closed", [0.95, 0.05]), ("3", "open", [0.8, 0.2])];
    let query = [1.0f32, 0.0];
    let dist = |v: &[f32; 2]| {
        let norm = (v[0] * v[0] + v[1] * v[1]).sqrt();
        1.0 - (v[0] * query[0] + v[1] * query[1]) / norm
    };
    let matching: Vec<String> =
        tickets.iter().filter(|t| t.1 == "open").map(|t| t.0.to_string()).collect();
    let hits = match Router::new().rag_search(&matching, tickets.len()) {
        RagNeed::Distances(cands) => {
            let dists: Vec<Option<u32>> = cands
                .iter()
                .map(|(_, id)| Some(dist(&tickets[(*id - 1) as usize].2).to_bits()))
                .collect();
            rag_rank(&cands, &dists, 5)
        }
        RagNeed::Search(allowed) => {
            let mut found: Vec<(u64, u32)> = tickets
                .iter()
                .map(|t| (t.0.parse::<u64>().unwrap(), dist(&t.2).to_bits()))
                .filter(|(id, _)| allowed.contains(id))
                .collect();
            found.sort_by_key(|(_, d)| *d);
            found.truncate(5);
            rag_join(&found, &matching)
        }
    };
    // ticket 2 excluded despite being closest; 1 and 3 returned
    assert!(hits.iter().all(|h| h.id != 2));
    assert_eq!(hits[0].id, 1);
    assert_eq!(hits.len(), 2);
}

#[test]
fn exact_ranking_leaves_out_what_has_no_vector() {
    let pks: Vec<String> = vec!["4".into(), "x".into(), "2".into()];
    let cands = rag_candidates(&pks);
    assert_eq!(cands, vec![(0, 4), (2, 2)]);
    let hits = rag_rank(&cands, &vec![Some(0.5f32.to_bits()), Some(0.1f32.to_bits())], 5);
    assert_eq!(hits.iter().map(|h| h.id).collect::<Vec<_>>(), vec![2, 4]);
    let hits = rag_rank(&cands, &vec![None, Some(0.1f32.to_bits())], 5);
    assert_eq!(hits.len(), 1);
    assert_eq!(hits[0].row, 2);
}

const MS: u128 = 1_000_000;

#[test]
fn hot_ttl_expiry() {
    let mut m = TieredMemory::new(60);
    m.put_hot_ttl("a", b"1".to_vec(), 20 * MS, 0);
    assert_eq!(m.get_hot("a", 0), Some(b"1".to_vec()));
    assert_eq!(m.get_hot("a", 40 * MS), None);
}

#[test]
fn consolidation_drains_expired() {
    let mut m = TieredMemory::new(60);
    m.put_hot_ttl("a", b"x".to_vec(), 10 * MS, 0);
    m.put_hot("keep", b"y".to_vec(), 0);
    let drained = m.drain_expired(30 * MS);
    assert_eq!(drained.len(), 1);
    assert_eq!(drained[0].0, "a");
    assert_eq!(m.hot_len(), 1); // "keep" survives
}

#[test]
fn draining_hands_out_what_it_removes() {
    let mut m = TieredMemory::new(60);
    for i in 0..10u128 {
        m.put_hot_ttl(&format!("k{i}"), vec![i as u8], i * MS, 0);
    }
    let drained = m.drain_expired(4 * MS);
    assert_eq!(drained.len() + m.hot_len(), 10);
    for (k, v) in &drained {
        assert_eq!(*k, format!("k{}", v[0]));
        assert_eq!(m.get_hot(k, 0), None);
    }
    assert_eq!(m.get_hot("k9", 4 * MS), Some(vec![9]));
}
