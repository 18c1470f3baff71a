use icm_store::neighbours::neighbour_candidates;
use icm_store::encode::sanitize_fts_query;
use icm_store::model::{IcmError, Importance, Memory};
use icm_store::store::SqliteStore;

fn test_store() -> SqliteStore {
    SqliteStore::in_memory().unwrap()
}

fn make_memory(topic: &str, summary: &str) -> Memory {
    Memory::new(topic.into(), summary.into(), Importance::Medium)
}

#[test]
fn test_get_many_returns_requested_ids() {
    let mut store = test_store();
    let m1 = make_memory("t", "first");
    let m2 = make_memory("t", "second");
    let m3 = make_memory("t", "third");
    let id1 = store.store(m1.clone()).unwrap();
    let id2 = store.store(m2.clone()).unwrap();
    store.store(m3).unwrap();
    let got = store.get_many(&[id1.as_str(), id2.as_str()]).unwrap();
    assert_eq!(got.len(), 2);
    assert!(got.contains_key(&id1));
    assert!(got.contains_key(&id2));
}

#[test]
fn test_get_many_empty_input_returns_empty() {
    let mut store = test_store();
    let got = store.get_many(&[]).unwrap();
    assert!(got.is_empty());
}

#[test]
fn test_get_many_missing_ids_silently_dropped() {
    let mut store = test_store();
    let m1 = make_memory("t", "real");
    let id1 = store.store(m1).unwrap();
    let got = store.get_many(&[id1.as_str(), "01NONEXISTENT"]).unwrap();
    assert_eq!(got.len(), 1);
    assert!(got.contains_key(&id1));
}

#[test]
fn test_get_many_dedupes_input() {
    let mut store = test_store();
    let m1 = make_memory("t", "only");
    let id1 = store.store(m1).unwrap();
    let got = store
        .get_many(&[id1.as_str(), id1.as_str(), id1.as_str()])
        .unwrap();
    assert_eq!(got.len(), 1);
}

#[test]
fn test_delete_invalidates_cache() {
    let mut store = test_store();
    let m = make_memory("t", "doomed");
    let id = store.store(m).unwrap();
    let _ = store.get(&id).unwrap();
    store.delete(&id).unwrap();
    let after = store.get(&id).unwrap();
    assert!(after.is_none(), "deleted memory must not survive in cache");
}

#[test]
fn test_dedup_same_topic_summary_collapses() {
    let mut store = test_store();
    let m1 = make_memory("dedup", "Use Turso for cloud sync");
    let m2 = make_memory("dedup", "Use Turso for cloud sync");
    let id1 = store.store(m1).unwrap();
    let id2 = store.store(m2).unwrap();
    assert_eq!(id1, id2, "dedup must return the existing row's id");
    assert_eq!(store.count().unwrap(), 1, "only one row in memories");
}

#[test]
fn test_dedup_normalizes_whitespace_and_case() {
    let mut store = test_store();
    let m1 = make_memory("DEDUP", "Use   Turso   for cloud sync");
    let m2 = make_memory("dedup", "use turso for cloud sync");
    let id1 = store.store(m1).unwrap();
    let id2 = store.store(m2).unwrap();
    assert_eq!(id1, id2);
    assert_eq!(store.count().unwrap(), 1);
}

#[test]
fn test_dedup_normalizes_accented_case() {
    let mut store = test_store();
    let m1 = make_memory("Décisions", "on utilise Turso pour la synchro");
    let m2 = make_memory("DÉCISIONS", "on utilise Turso pour la synchro");
    let id1 = store.store(m1).unwrap();
    let id2 = store.store(m2).unwrap();
    assert_eq!(
        id1, id2,
        "accented topics differing only in case must dedup to the same row"
    );
    assert_eq!(store.count().unwrap(), 1);
}

#[test]
fn test_dedup_different_topic_keeps_both() {
    let mut store = test_store();
    let m1 = make_memory("topic-a", "shared body");
    let m2 = make_memory("topic-b", "shared body");
    let id1 = store.store(m1).unwrap();
    let id2 = store.store(m2).unwrap();
    assert_ne!(id1, id2, "different topic = different row");
    assert_eq!(store.count().unwrap(), 2);
}

#[test]
fn test_fts_sanitize_utf8_safe() {
    let base = "a".repeat(9_998);
    let input = format!("{base}\u{1F600}\u{1F600}");
    assert!(input.len() > 10_000);
    let result = sanitize_fts_query(&input);
    assert!(!result.is_empty());
}

#[test]
fn test_forget_topic() {
    let mut store = test_store();
    for i in 0..3 {
        let m = make_memory("ephemeral", &format!("item {i}"));
        store.store(m).unwrap();
    }
    let before = store.get_by_topic("ephemeral").unwrap();
    assert_eq!(before.len(), 3);
    for m in &before {
        store.delete(&m.id).unwrap();
    }
    let after = store.get_by_topic("ephemeral").unwrap();
    assert!(after.is_empty());
}

#[test]
fn dedup_keeps_higher_importance() {
    let mut store = test_store();
    let low = Memory::new("t".into(), "same text".into(), Importance::Low);
    let high = Memory::new("t".into(), "same text".into(), Importance::High);
    let id = store.store(low).unwrap();
    store.store(high).unwrap();
    assert_eq!(store.get(&id).unwrap().unwrap().importance, Importance::High);
}

#[test]
fn delete_drops_links_to_the_deleted_memory() {
    let mut store = test_store();
    let target = make_memory("t", "target");
    let mut linker = make_memory("t", "linker");
    linker.related_ids = vec![target.id.clone(), "other".into()];
    let tid = store.store(target).unwrap();
    let lid = store.store(linker).unwrap();
    store.delete(&tid).unwrap();
    let l = store.get(&lid).unwrap().unwrap();
    assert_eq!(l.related_ids, vec!["other".to_string()]);
    assert_eq!(store.delete(&tid), Err(IcmError::NotFound(tid.clone())));
}

#[test]
fn get_by_topic_is_heaviest_first() {
    let mut store = test_store();
    let mut a = make_memory("t", "light");
    a.weight = 100;
    let mut b = make_memory("t", "heavy");
    b.weight = 900_000;
    store.store(a).unwrap();
    store.store(b).unwrap();
    let v = store.get_by_topic("t").unwrap();
    assert_eq!(v[0].summary, "heavy");
    assert_eq!(v[1].summary, "light");
}

#[test]
fn neighbour_candidates_dedup_skip_results_and_cap() {
    let mut a = Memory::new("t".into(), "a".into(), Importance::Low);
    a.id = "A".into();
    a.related_ids = vec!["B".into(), "C".into(), "A".into(), "B".into()];
    let mut d = Memory::new("t".into(), "d".into(), Importance::Low);
    d.id = "D".into();
    d.related_ids = vec!["C".into(), "E".into(), "D".into()];
    let initial = vec![a, d];
    let all = neighbour_candidates(&initial, 10);
    assert_eq!(all, vec![("B".to_string(), 0), ("C".to_string(), 0), ("E".to_string(), 1)]);
    let two = neighbour_candidates(&initial, 2);
    assert_eq!(two, vec![("B".to_string(), 0), ("C".to_string(), 0)]);
    assert!(neighbour_candidates(&initial, 0).is_empty());
    assert!(neighbour_candidates(&Vec::new(), 5).is_empty());
}

#[test]
fn test_apply_decay_clears_cache() {
    let mut store = test_store();
    let m1 = make_memory("t", "a");
    let m2 = make_memory("t", "b");
    let id1 = store.store(m1).unwrap();
    let id2 = store.store(m2).unwrap();

    let before1 = store.get(&id1).unwrap().unwrap().weight;
    let _ = store.get(&id2).unwrap();

    store.apply_decay(500).unwrap();

    let after1 = store.get(&id1).unwrap().unwrap().weight;
    assert!(after1 < before1, "post-decay weight should reflect the table, not a stale cache (before={before1}, after={after1})");
}

#[test]
fn test_update_invalidates_cache() {
    let mut store = test_store();
    let m = make_memory("t", "v1");
    let id = store.store(m).unwrap();

    let _ = store.get(&id).unwrap();

    let mut updated = store.get(&id).unwrap().unwrap();
    updated.summary = "v2".into();
    store.update(&updated).unwrap();

    let after = store.get(&id).unwrap().unwrap();
    assert_eq!(after.summary, "v2");
}

#[test]
fn update_refuses_content_of_another_memory() {
    let mut store = test_store();
    let a = store.store(make_memory("t", "one")).unwrap();
    store.store(make_memory("t", "two")).unwrap();
    let mut m = store.get(&a).unwrap().unwrap();
    m.summary = "TWO".into();
    match store.update(&m) {
        Err(IcmError::Database(_)) => {},
        other => panic!("unexpected: {other:?}"),
    }
    assert_eq!(store.get(&a).unwrap().unwrap().summary, "one");
}

#[test]
fn get_many_caches_what_it_reads() {
    let mut store = SqliteStore::in_memory().unwrap();
    let id = store.store(Memory::new("t".into(), "cached later".into(), Importance::Medium)).unwrap();
    icm_store::cache::cache_clear(&mut store.cache);
    let got = store.get_many(&[id.as_str(), "missing"]).unwrap();
    assert_eq!(got.entries.len(), 1);
    let hit = icm_store::cache::cache_get(&mut store.cache, &id).unwrap();
    assert_eq!(hit.summary, "cached later");
    assert!(icm_store::cache::cache_get(&mut store.cache, "missing").is_none());
}

#[test]
fn cache_evicts_only_when_full() {
    let mut c = icm_store::cache::new_cache();
    let mut ids = Vec::new();
    for i in 0..icm_store::cache::MEMORY_CACHE_CAP {
        let mut m = Memory::new("t".into(), format!("m{i}"), Importance::Low);
        m.id = format!("id{i}");
        icm_store::cache::cache_put(&mut c, &m);
        ids.push(m.id.clone());
    }
    for id in &ids {
        assert!(icm_store::cache::cache_get(&mut c, id).is_some());
    }
    let mut again = Memory::new("t".into(), "again".into(), Importance::Low);
    again.id = ids[0].clone();
    icm_store::cache::cache_put(&mut c, &again);
    for id in &ids {
        assert!(icm_store::cache::cache_get(&mut c, id).is_some());
    }
    let mut extra = Memory::new("t".into(), "extra".into(), Importance::Low);
    extra.id = "extra".into();
    icm_store::cache::cache_put(&mut c, &extra);
    let kept = ids.iter().filter(|id| icm_store::cache::cache_get(&mut c, id).is_some()).count();
    assert_eq!(kept, icm_store::cache::MEMORY_CACHE_CAP - 1);
    assert!(icm_store::cache::cache_get(&mut c, "extra").is_some());
}

#[test]
fn a_memory_put_survives_fewer_puts_than_the_capacity() {
    let cap = icm_store::cache::MEMORY_CACHE_CAP;
    let mut c = icm_store::cache::new_cache();
    for i in 0..cap {
        let mut m = Memory::new("t".into(), format!("old{i}"), Importance::Low);
        m.id = format!("old{i}");
        icm_store::cache::cache_put(&mut c, &m);
    }
    let mut mine = Memory::new("t".into(), "mine".into(), Importance::High);
    mine.id = "mine".into();
    icm_store::cache::cache_put(&mut c, &mine);
    for i in 0..cap - 1 {
        if i % 3 == 0 {
            let _ = icm_store::cache::cache_get(&mut c, &format!("old{i}"));
        } else {
            let mut m = Memory::new("t".into(), format!("new{i}"), Importance::Low);
            m.id = format!("new{i}");
            icm_store::cache::cache_put(&mut c, &m);
        }
    }
    let got = icm_store::cache::cache_get(&mut c, "mine").unwrap();
    assert_eq!(got.summary, "mine");
}

#[test]
fn the_least_recently_used_memory_leaves_first() {
    let cap = icm_store::cache::MEMORY_CACHE_CAP;
    let mut c = icm_store::cache::new_cache();
    for i in 0..cap {
        let mut m = Memory::new("t".into(), format!("m{i}"), Importance::Low);
        m.id = format!("m{i}");
        icm_store::cache::cache_put(&mut c, &m);
    }
    assert!(icm_store::cache::cache_get(&mut c, "m0").is_some());
    let mut extra = Memory::new("t".into(), "extra".into(), Importance::Low);
    extra.id = "extra".into();
    icm_store::cache::cache_put(&mut c, &extra);
    assert!(icm_store::cache::cache_get(&mut c, "m1").is_none());
    assert!(icm_store::cache::cache_get(&mut c, "m0").is_some());
    assert!(icm_store::cache::cache_get(&mut c, "m2").is_some());
}
