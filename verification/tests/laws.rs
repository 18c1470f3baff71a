use icm_store::graph::{Concept, ConceptLink, Memoir, Relation};
use icm_store::model::{IcmError, Importance, Memory};
use icm_store::store::SqliteStore;
use icm_store::transcript::Role;

fn test_store() -> SqliteStore {
    SqliteStore::in_memory().unwrap()
}

fn make_memory(topic: &str, summary: &str, importance: Importance) -> Memory {
    Memory::new(topic.into(), summary.into(), importance)
}

#[test]
fn law_fact_read_after_write_holds() {
    let mut store = test_store();
    let id = store.set_fact("svc", "listen", "8080", "cfg").unwrap();
    let f = store.get_fact("svc", "listen").unwrap().unwrap();
    assert_eq!(f.value, "8080");
    assert_eq!(f.id, id);
    let id2 = store.set_fact("svc", "listen", "9090", "cfg").unwrap();
    let f2 = store.get_fact("svc", "listen").unwrap().unwrap();
    assert_eq!(f2.value, "9090");
    assert_eq!(f2.id, id2);
    assert_ne!(id, id2);
}

#[test]
fn law_fact_rewrite_is_idempotent_holds() {
    let mut store = test_store();
    let a = store.set_fact("svc", "host", "db1", "one").unwrap();
    let b = store.set_fact("svc", "host", "db1", "two").unwrap();
    assert_eq!(a, b);
    assert_eq!(store.history("svc", "host").unwrap().len(), 1);
}

#[test]
fn law_fact_write_keeps_other_slots_holds() {
    let mut store = test_store();
    store.set_fact("a", "k", "1", "s").unwrap();
    store.set_fact("b", "k", "2", "s").unwrap();
    store.set_fact("a", "k", "3", "s").unwrap();
    assert_eq!(store.get_fact("b", "k").unwrap().unwrap().value, "2");
}

#[test]
fn law_forgotten_fact_is_gone_holds() {
    let mut store = test_store();
    store.set_fact("a", "k", "1", "s").unwrap();
    store.set_fact("a", "k", "2", "s").unwrap();
    assert_eq!(store.forget_fact("a", "k").unwrap(), 2);
    assert!(store.get_fact("a", "k").unwrap().is_none());
    assert!(store.history("a", "k").unwrap().is_empty());
}

#[test]
fn law_stored_memory_is_readable_holds() {
    let mut store = test_store();
    let id = store.store(make_memory("  topic  ", "a summary", Importance::Low)).unwrap();
    let got = store.get(&id).unwrap().unwrap();
    assert_eq!(got.topic, "topic");
    assert_eq!(got.summary, "a summary");
}

#[test]
fn law_duplicate_store_merges_holds() {
    let mut store = test_store();
    let a = store.store(make_memory("t", "Same   Text", Importance::Low)).unwrap();
    let b = store.store(make_memory("T", "same text", Importance::High)).unwrap();
    assert_eq!(a, b);
    assert_eq!(store.count().unwrap(), 1);
    assert_eq!(store.get(&a).unwrap().unwrap().importance, Importance::High);
}

#[test]
fn law_deleted_memory_is_gone_holds() {
    let mut store = test_store();
    let a = store.store(make_memory("t", "first", Importance::Low)).unwrap();
    let mut m = make_memory("t", "second", Importance::Low);
    m.related_ids = vec![a.clone(), "other".to_string()];
    let b = store.store(m).unwrap();
    store.delete(&a).unwrap();
    assert!(store.get(&a).unwrap().is_none());
    assert_eq!(store.get(&b).unwrap().unwrap().related_ids, vec!["other".to_string()]);
    match store.delete(&a) {
        Err(IcmError::NotFound(x)) => assert_eq!(x, a),
        other => panic!("unexpected: {other:?}"),
    }
}

#[test]
fn law_decay_never_raises_holds() {
    let mut store = test_store();
    let mut low = make_memory("t", "low", Importance::Low);
    low.weight = 1000;
    let mut crit = make_memory("t", "crit", Importance::Critical);
    crit.weight = 1000;
    let l = store.store(low).unwrap();
    let c = store.store(crit).unwrap();
    assert_eq!(store.apply_decay(500).unwrap(), 1);
    assert!(store.get(&l).unwrap().unwrap().weight < 1000);
    assert_eq!(store.get(&c).unwrap().unwrap().weight, 1000);
}

#[test]
fn law_consolidation_leaves_one_holds() {
    let mut store = test_store();
    for i in 0..4 {
        store.store(make_memory("topic", &format!("note {i}"), Importance::Medium)).unwrap();
    }
    store.store(make_memory("topic", "keep me", Importance::Critical)).unwrap();
    store.consolidate_topic("topic", make_memory("topic", "all notes", Importance::Medium)).unwrap();
    let rows = store.get_by_topic("topic").unwrap();
    let non_critical: Vec<_> = rows.iter().filter(|m| m.importance != Importance::Critical).collect();
    assert_eq!(non_critical.len(), 1);
    assert_eq!(non_critical[0].summary, "all notes");
    assert_eq!(rows.len(), 2);
}

#[test]
fn law_ensure_session_is_idempotent_holds() {
    let mut store = test_store();
    store.ensure_session("s-1", "cli", Some("p"), Some("{\"a\":1}")).unwrap();
    let before = store.get_session("s-1").unwrap().unwrap();
    store.ensure_session("s-1", "other", None, None).unwrap();
    let after = store.get_session("s-1").unwrap().unwrap();
    assert_eq!(before, after);
    assert_eq!(store.list_sessions(None, 10).unwrap().len(), 1);
}

#[test]
fn law_forgotten_session_is_gone_holds() {
    let mut store = test_store();
    let a = store.create_session("cli", None, None).unwrap();
    let b = store.create_session("cli", None, None).unwrap();
    store.record_message(&a, Role::User, "x", None, None, None).unwrap();
    store.record_message(&b, Role::User, "y", None, None, None).unwrap();
    store.forget_session(&a).unwrap();
    assert!(store.get_session(&a).unwrap().is_none());
    assert_eq!(store.transcript_stats().unwrap().total_messages, 1);
    assert_eq!(store.list_session_messages(&b, 10, 0).unwrap().len(), 1);
}

#[test]
fn law_add_link_keeps_acyclic_holds() {
    let mut store = test_store();
    let mid = store.create_memoir(Memoir::new("m".into(), "d".into())).unwrap();
    let a = store.add_concept(Concept::new(mid.clone(), "a".into(), "A".into())).unwrap();
    let b = store.add_concept(Concept::new(mid.clone(), "b".into(), "B".into())).unwrap();
    let c = store.add_concept(Concept::new(mid.clone(), "c".into(), "C".into())).unwrap();
    store.add_link(ConceptLink::new(a.clone(), b.clone(), Relation::DependsOn)).unwrap();
    store.add_link(ConceptLink::new(b.clone(), c.clone(), Relation::DependsOn)).unwrap();
    assert!(store.add_link(ConceptLink::new(c.clone(), a.clone(), Relation::DependsOn)).is_err());
    assert!(store.add_link(ConceptLink::new(a.clone(), a.clone(), Relation::DependsOn)).is_err());
    store.add_link(ConceptLink::new(a.clone(), c.clone(), Relation::RelatedTo)).unwrap();
}

#[test]
fn law_deleted_memoir_leaves_nothing_holds() {
    let mut store = test_store();
    let m1 = store.create_memoir(Memoir::new("m1".into(), "d".into())).unwrap();
    let m2 = store.create_memoir(Memoir::new("m2".into(), "d".into())).unwrap();
    let a = store.add_concept(Concept::new(m1.clone(), "a".into(), "A".into())).unwrap();
    let b = store.add_concept(Concept::new(m2.clone(), "b".into(), "B".into())).unwrap();
    store.add_link(ConceptLink::new(b.clone(), a.clone(), Relation::RelatedTo)).unwrap();
    store.delete_memoir(&m1).unwrap();
    assert!(store.get_memoir(&m1).unwrap().is_none());
    assert!(store.get_concept(&a).unwrap().is_none());
    assert!(store.get_links_from(&b).unwrap().is_empty());
    assert!(store.get_concept(&b).unwrap().is_some());
}

#[test]
fn cached_reads_follow_every_write() {
    let mut store = test_store();
    let id = store.store(make_memory("t", "cached", Importance::Low)).unwrap();
    assert_eq!(store.get(&id).unwrap().unwrap().access_count, 0);
    assert_eq!(store.get(&id).unwrap().unwrap().access_count, 0);
    store.update_access(&id).unwrap();
    assert_eq!(store.get(&id).unwrap().unwrap().access_count, 1);
    store.batch_update_access(&[id.as_str()]).unwrap();
    assert_eq!(store.get(&id).unwrap().unwrap().access_count, 2);
    store.store(make_memory("t", "cached", Importance::Critical)).unwrap();
    assert_eq!(store.get(&id).unwrap().unwrap().importance, Importance::Critical);
    store.delete(&id).unwrap();
    assert!(store.get(&id).unwrap().is_none());
}

#[test]
fn cached_reads_follow_decay_and_consolidation() {
    let mut store = test_store();
    let mut m = make_memory("t", "weighted", Importance::Low);
    m.weight = 1000;
    let id = store.store(m).unwrap();
    assert_eq!(store.get(&id).unwrap().unwrap().weight, 1000);
    store.apply_decay(500).unwrap();
    assert!(store.get(&id).unwrap().unwrap().weight < 1000);
    store.consolidate_topic("t", make_memory("t", "folded", Importance::Low)).unwrap();
    assert!(store.get(&id).unwrap().is_none());
}

#[test]
fn cached_batch_reads_match_the_table() {
    let mut store = test_store();
    let a = store.store(make_memory("t", "one", Importance::Low)).unwrap();
    let b = store.store(make_memory("t", "two", Importance::Low)).unwrap();
    let _ = store.get(&a).unwrap();
    store.update_access(&a).unwrap();
    let got = store.get_many(&[a.as_str(), b.as_str(), a.as_str(), "nope"]).unwrap();
    assert_eq!(got.len(), 2);
    assert_eq!(got.get(&a).unwrap().access_count, 1);
    let again = store.get_many(&[b.as_str()]).unwrap();
    assert_eq!(again.get(&b).unwrap().summary, "two");
}

#[test]
fn law_recorded_message_is_listed_holds() {
    let mut store = test_store();
    let s = store.create_session("cli", None, None).unwrap();
    let other = store.create_session("cli", None, None).unwrap();
    store.record_message(&other, Role::User, "elsewhere", None, None, None).unwrap();
    let id = store.record_message(&s, Role::Assistant, "kept", Some("tool"), Some(3), None).unwrap();
    let page = store.list_session_messages(&s, 100, 0).unwrap();
    let m = page.iter().find(|m| m.id == id).unwrap();
    assert_eq!(m.content, "kept");
    assert_eq!(m.role, Role::Assistant);
    assert_eq!(page.len(), 1);
}

#[test]
fn law_fact_history_grows_holds() {
    let mut store = test_store();
    store.set_fact("e", "k", "1", "s").unwrap();
    store.set_fact("e", "k", "2", "s").unwrap();
    store.set_fact("e", "k", "3", "s").unwrap();
    let h = store.history("e", "k").unwrap();
    assert_eq!(h.len(), 3);
    assert_eq!(h[0].value, "3");
    assert!(h[0].superseded_at.is_none());
    assert!(h[1].superseded_at.is_some() && h[2].superseded_at.is_some());
}

#[test]
fn law_deleted_concept_is_unlinked_holds() {
    let mut store = test_store();
    let mid = store.create_memoir(Memoir::new("m".into(), "d".into())).unwrap();
    let a = store.add_concept(Concept::new(mid.clone(), "a".into(), "A".into())).unwrap();
    let b = store.add_concept(Concept::new(mid.clone(), "b".into(), "B".into())).unwrap();
    let c = store.add_concept(Concept::new(mid.clone(), "c".into(), "C".into())).unwrap();
    store.add_link(ConceptLink::new(a.clone(), b.clone(), Relation::RelatedTo)).unwrap();
    store.add_link(ConceptLink::new(b.clone(), c.clone(), Relation::RelatedTo)).unwrap();
    store.add_link(ConceptLink::new(a.clone(), c.clone(), Relation::RelatedTo)).unwrap();
    store.delete_concept(&b).unwrap();
    assert!(store.get_concept(&b).unwrap().is_none());
    assert_eq!(store.get_links_from(&a).unwrap().len(), 1);
    assert!(store.get_links_to(&c).unwrap().iter().all(|l| l.source_id != b));
}

#[test]
fn law_keyword_matches_literally_holds() {
    let mut store = test_store();
    store.store(make_memory("t", "coverage is 100% now", Importance::Low)).unwrap();
    store.store(make_memory("t", "coverage is 1000 now", Importance::Low)).unwrap();
    store.store(make_memory("t", "use snake_case names", Importance::Low)).unwrap();
    store.store(make_memory("t", "use snakeXcase names", Importance::Low)).unwrap();
    let hits = store.search_by_keywords(&["100%"], 10).unwrap();
    assert_eq!(hits.len(), 1);
    assert!(hits[0].summary.contains("100%"));
    let hits = store.search_by_keywords(&["SNAKE_CASE"], 10).unwrap();
    assert_eq!(hits.len(), 1);
    assert!(hits[0].summary.contains("snake_case"));
}
