use icm_store::model::{Importance, Memory};
use icm_store::store::SqliteStore;

fn test_store() -> SqliteStore {
    SqliteStore::in_memory().unwrap()
}

fn make_memory(topic: &str, summary: &str) -> Memory {
    Memory::new(topic.into(), summary.into(), Importance::Medium)
}

#[test]
fn test_auto_consolidate_below_threshold() {
    let mut store = test_store();
    store.store(make_memory("t", "one")).unwrap();
    store.store(make_memory("t", "two")).unwrap();
    let result = store.auto_consolidate("t", 10).unwrap();
    assert!(!result);
    assert_eq!(store.count_by_topic("t").unwrap(), 2);
}

#[test]
fn test_auto_consolidate_above_threshold() {
    let mut store = test_store();
    for i in 0..12 {
        store
            .store(make_memory("bulk", &format!("entry {i}")))
            .unwrap();
    }
    let result = store.auto_consolidate("bulk", 10).unwrap();
    assert!(result);
    assert_eq!(store.count_by_topic("bulk").unwrap(), 1);
}

#[test]
fn test_list_topics_multiple() {
    let mut store = test_store();
    store.store(make_memory("alpha", "a")).unwrap();
    store.store(make_memory("beta", "b")).unwrap();
    store.store(make_memory("alpha", "c")).unwrap();
    let topics = store.list_topics().unwrap();
    assert_eq!(topics.len(), 2);
}

#[test]
fn test_stats_multi_topic() {
    let mut store = test_store();
    store.store(make_memory("t1", "one")).unwrap();
    store.store(make_memory("t2", "two")).unwrap();
    let stats = store.stats().unwrap();
    assert_eq!(stats.total_memories, 2);
    assert_eq!(stats.total_topics, 2);
}

#[test]
fn test_get_by_topic_prefix() {
    let mut store = test_store();
    store.store(make_memory("project:web", "web stuff")).unwrap();
    store.store(make_memory("project:api", "api stuff")).unwrap();
    store.store(make_memory("other", "unrelated")).unwrap();
    let results = store.get_by_topic_prefix("project:*").unwrap();
    assert_eq!(results.len(), 2);
}

#[test]
fn consolidation_folds_summaries_keywords_and_importance() {
    let mut store = test_store();
    let mut a = Memory::new("fold".into(), "alpha".into(), Importance::Low);
    a.keywords = vec!["x".into(), "y".into()];
    a.weight = 900_000;
    let mut b = Memory::new("fold".into(), "beta".into(), Importance::High);
    b.keywords = vec!["y".into(), "z".into()];
    b.weight = 100_000;
    let keep = Memory::new("fold".into(), "pinned".into(), Importance::Critical);
    store.store(a).unwrap();
    store.store(b).unwrap();
    store.store(keep).unwrap();
    assert!(store.auto_consolidate("fold", 2).unwrap());
    let v = store.get_by_topic("fold").unwrap();
    assert_eq!(v.len(), 2, "critical memory survives next to the folded one");
    let folded = v.iter().find(|m| m.summary != "pinned").unwrap();
    assert_eq!(folded.summary, "pinned\nalpha\nbeta");
    assert_eq!(folded.keywords, vec!["x".to_string(), "y".to_string(), "z".to_string()]);
    assert_eq!(folded.importance, Importance::Critical);
}

#[test]
fn stats_reports_mean_weight_and_creation_range() {
    let mut store = test_store();
    let mut a = make_memory("t1", "one");
    a.weight = 400;
    a.created_at = "2024-01-01T00:00:00+00:00".into();
    let mut b = make_memory("t1", "two");
    b.weight = 600;
    b.created_at = "2025-06-01T00:00:00+00:00".into();
    store.store(a).unwrap();
    store.store(b).unwrap();
    let s = store.stats().unwrap();
    assert_eq!(s.avg_weight, 500);
    assert_eq!(s.total_topics, 1);
    assert_eq!(s.oldest_memory.as_deref(), Some("2024-01-01T00:00:00+00:00"));
    assert_eq!(s.newest_memory.as_deref(), Some("2025-06-01T00:00:00+00:00"));
    let empty = test_store().stats().unwrap();
    assert_eq!(empty.avg_weight, 0);
    assert!(empty.oldest_memory.is_none());
}

fn with_keywords(summary: &str, weight: u32, kws: &[&str]) -> Memory {
    let mut m = make_memory("patterns", summary);
    m.weight = weight;
    m.keywords = kws.iter().map(|k| k.to_string()).collect();
    m
}

#[test]
fn detect_patterns_groups_by_keyword_overlap() {
    let mut store = test_store();
    // a ~ b (3/4 shared), b ~ c (2/3 shared): one chain a-b-c.
    let a = with_keywords("a", 300, &["rust", "async", "tokio", "io"]);
    let b = with_keywords("b", 900, &["Rust", "ASYNC", "tokio"]);
    let c = with_keywords("c", 100, &["rust", "tokio"]);
    // d, e share everything: a second cluster.
    let d = with_keywords("d", 500, &["sql", "index"]);
    let e = with_keywords("e", 500, &["SQL", "Index"]);
    // f is alone, g has no keywords.
    let f = with_keywords("f", 50, &["misc"]);
    let g = with_keywords("g", 40, &[]);
    for m in [&a, &b, &c, &d, &e, &f, &g] {
        store.store(m.clone()).unwrap();
    }
    let clusters = store.detect_patterns("patterns", 2).unwrap();
    assert_eq!(clusters.len(), 2);
    assert_eq!(clusters[0].count, 3);
    assert_eq!(clusters[0].representative_summary, "b");
    let mut ids = clusters[0].memory_ids.clone();
    ids.sort();
    let mut want = vec![a.id.clone(), b.id.clone(), c.id.clone()];
    want.sort();
    assert_eq!(ids, want);
    // members in weight order b, a, c; keywords by first spelling
    assert_eq!(clusters[0].keywords, vec!["Rust", "ASYNC", "tokio", "io"]);
    assert_eq!(clusters[1].count, 2);
    // equal weights: the later member (e) represents the cluster
    assert_eq!(clusters[1].keywords, vec!["sql", "index"]);
    assert_eq!(clusters[1].representative_summary, "e");
    // singletons appear only with a minimum of one
    assert_eq!(store.detect_patterns("patterns", 1).unwrap().len(), 4);
    // fewer memories than the minimum: nothing
    assert!(store.detect_patterns("patterns", 8).unwrap().is_empty());
}

#[test]
fn test_apply_decay_with_aggressive_factor() {
    let mut store = test_store();
    store.store(make_memory("t", "decayable")).unwrap();
    let affected = store.apply_decay(500).unwrap();
    assert!(affected > 0);
    let mems = store.get_by_topic("t").unwrap();
    assert!(mems[0].weight < icm_store::model::WEIGHT_ONE);
}

#[test]
fn test_prune_low_weight() {
    let mut store = test_store();
    store.store(make_memory("t", "will be pruned")).unwrap();
    store.apply_decay(10).unwrap();
    let pruned = store.prune(icm_store::model::WEIGHT_ONE / 2).unwrap();
    assert!(pruned > 0);
    assert_eq!(store.count().unwrap(), 0);
}

#[test]
fn prune_spares_critical_high_and_heavy() {
    let mut store = test_store();
    let mut low = make_memory("t", "light low");
    low.weight = 10;
    low.importance = Importance::Low;
    let mut high = make_memory("t", "light high");
    high.weight = 10;
    high.importance = Importance::High;
    let mut crit = make_memory("t", "light critical");
    crit.weight = 10;
    crit.importance = Importance::Critical;
    let heavy = make_memory("t", "heavy");
    store.store(low).unwrap();
    store.store(high).unwrap();
    store.store(crit).unwrap();
    store.store(heavy).unwrap();
    assert_eq!(store.prune(500_000).unwrap(), 1);
    assert_eq!(store.count().unwrap(), 3);
}

#[test]
fn failed_consolidation_puts_the_topic_back() {
    let mut store = SqliteStore::in_memory().unwrap();
    let a = store.store(Memory::new("t".into(), "one".into(), Importance::Medium)).unwrap();
    let b = store.store(Memory::new("t".into(), "two".into(), Importance::Low)).unwrap();
    let other = store.store(Memory::new("u".into(), "three".into(), Importance::Medium)).unwrap();
    let mut c = Memory::new("t".into(), "merged".into(), Importance::High);
    c.id = other.clone();
    let err = store.consolidate_topic("t", c).unwrap_err();
    assert!(matches!(err, icm_store::model::IcmError::Database(_)));
    assert_eq!(store.count().unwrap(), 3);
    assert_eq!(store.get(&a).unwrap().unwrap().summary, "one");
    assert_eq!(store.get(&b).unwrap().unwrap().summary, "two");
    assert_eq!(store.get(&other).unwrap().unwrap().summary, "three");
}

#[test]
fn decay_above_one_grows_the_weight() {
    let mut store = SqliteStore::in_memory().unwrap();
    let id = store.store(Memory::new("t".into(), "grows".into(), Importance::Medium)).unwrap();
    let before = store.get(&id).unwrap().unwrap().weight;
    assert_eq!(before, icm_store::model::WEIGHT_ONE);
    store.apply_decay(1500).unwrap();
    let after = store.get(&id).unwrap().unwrap().weight;
    assert_eq!(after, icm_store::model::WEIGHT_ONE / 2 * 3);
    store.apply_decay(u32::MAX).unwrap();
    assert_eq!(store.get(&id).unwrap().unwrap().weight, u32::MAX);
}
