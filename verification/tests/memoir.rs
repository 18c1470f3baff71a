use icm_store::graph::{Concept, ConceptLink, Label, Memoir, Relation};
use icm_store::model::{IcmError, Importance, Memory};
use icm_store::patterns::PatternCluster;
use icm_store::store::SqliteStore;

fn test_store() -> SqliteStore {
    SqliteStore::in_memory().unwrap()
}

fn make_memoir(name: &str) -> Memoir {
    Memoir::new(name.into(), format!("Description for {name}"))
}

fn make_concept(memoir_id: &str, name: &str, definition: &str) -> Concept {
    Concept::new(memoir_id.into(), name.into(), definition.into())
}

#[test]
fn test_memoir_crud() {
    let mut store = test_store();
    let m = make_memoir("my-project");
    let id = store.create_memoir(m).unwrap();
    let retrieved = store.get_memoir(&id).unwrap().unwrap();
    assert_eq!(retrieved.name, "my-project");
    let by_name = store.get_memoir_by_name("my-project").unwrap().unwrap();
    assert_eq!(by_name.id, id);
    store.delete_memoir(&id).unwrap();
    assert!(store.get_memoir(&id).unwrap().is_none());
}

#[test]
fn test_memoir_unique_name() {
    let mut store = test_store();
    store.create_memoir(make_memoir("dup")).unwrap();
    let result = store.create_memoir(make_memoir("dup"));
    assert!(result.is_err());
}

#[test]
fn test_list_memoirs() {
    let mut store = test_store();
    store.create_memoir(make_memoir("beta")).unwrap();
    store.create_memoir(make_memoir("alpha")).unwrap();
    let list = store.list_memoirs().unwrap();
    assert_eq!(list.len(), 2);
    assert_eq!(list[0].name, "alpha");
    assert_eq!(list[1].name, "beta");
}

#[test]
fn test_concept_crud() {
    let mut store = test_store();
    let m_id = store.create_memoir(make_memoir("proj")).unwrap();
    let mut c = make_concept(&m_id, "event-sourcing", "Events stored in SQLite");
    c.labels = vec![Label::new("domain", "arch"), Label::new("type", "decision")];
    let c_id = store.add_concept(c).unwrap();
    let retrieved = store.get_concept(&c_id).unwrap().unwrap();
    assert_eq!(retrieved.name, "event-sourcing");
    assert_eq!(retrieved.labels.len(), 2);
    let by_name = store
        .get_concept_by_name(&m_id, "event-sourcing")
        .unwrap()
        .unwrap();
    assert_eq!(by_name.id, c_id);
    store.delete_concept(&c_id).unwrap();
    assert!(store.get_concept(&c_id).unwrap().is_none());
}

#[test]
fn test_concept_unique_within_memoir() {
    let mut store = test_store();
    let m_id = store.create_memoir(make_memoir("proj")).unwrap();
    store.add_concept(make_concept(&m_id, "dup", "first")).unwrap();
    let result = store.add_concept(make_concept(&m_id, "dup", "second"));
    assert!(result.is_err());
}

#[test]
fn test_concept_same_name_different_memoirs() {
    let mut store = test_store();
    let m1 = store.create_memoir(make_memoir("proj1")).unwrap();
    let m2 = store.create_memoir(make_memoir("proj2")).unwrap();
    store.add_concept(make_concept(&m1, "sqlite", "def1")).unwrap();
    store.add_concept(make_concept(&m2, "sqlite", "def2")).unwrap();
    let c1 = store.get_concept_by_name(&m1, "sqlite").unwrap().unwrap();
    let c2 = store.get_concept_by_name(&m2, "sqlite").unwrap().unwrap();
    assert_ne!(c1.id, c2.id);
}

#[test]
fn test_concept_links() {
    let mut store = test_store();
    let m_id = store.create_memoir(make_memoir("proj")).unwrap();
    let c1_id = store
        .add_concept(make_concept(&m_id, "event-sourcing", "ES pattern"))
        .unwrap();
    let c2_id = store
        .add_concept(make_concept(&m_id, "sqlite", "SQLite storage"))
        .unwrap();
    let link = ConceptLink::new(c1_id.clone(), c2_id.clone(), Relation::DependsOn);
    let link_id = store.add_link(link).unwrap();
    let from = store.get_links_from(&c1_id).unwrap();
    assert_eq!(from.len(), 1);
    assert_eq!(from[0].target_id, c2_id);
    assert_eq!(from[0].relation, Relation::DependsOn);
    let to = store.get_links_to(&c2_id).unwrap();
    assert_eq!(to.len(), 1);
    assert_eq!(to[0].source_id, c1_id);
    store.delete_link(&link_id).unwrap();
    assert!(store.get_links_from(&c1_id).unwrap().is_empty());
}

#[test]
fn test_self_link_rejected() {
    let mut store = test_store();
    let m_id = store.create_memoir(make_memoir("proj")).unwrap();
    let c_id = store.add_concept(make_concept(&m_id, "concept", "def")).unwrap();
    let link = ConceptLink::new(c_id.clone(), c_id, Relation::RelatedTo);
    let result = store.add_link(link);
    assert!(result.is_err());
}

#[test]
fn test_transitive_cycle_rejected() {
    let mut store = test_store();
    let m_id = store.create_memoir(make_memoir("proj")).unwrap();
    let a = store.add_concept(make_concept(&m_id, "A", "a")).unwrap();
    let b = store.add_concept(make_concept(&m_id, "B", "b")).unwrap();
    let c = store.add_concept(make_concept(&m_id, "C", "c")).unwrap();
    store
        .add_link(ConceptLink::new(a.clone(), b.clone(), Relation::DependsOn))
        .unwrap();
    store
        .add_link(ConceptLink::new(b.clone(), c.clone(), Relation::Refines))
        .unwrap();
    let cycle_attempt = store.add_link(ConceptLink::new(c, a, Relation::RelatedTo));
    assert!(cycle_attempt.is_err(), "C → A should be rejected as a cycle");
    let err_msg = cycle_attempt.unwrap_err().message();
    assert!(
        err_msg.contains("cycle"),
        "error message should mention cycle: {err_msg}"
    );
}

#[test]
fn test_dag_links_still_allowed() {
    let mut store = test_store();
    let m_id = store.create_memoir(make_memoir("proj")).unwrap();
    let a = store.add_concept(make_concept(&m_id, "A", "a")).unwrap();
    let b = store.add_concept(make_concept(&m_id, "B", "b")).unwrap();
    let c = store.add_concept(make_concept(&m_id, "C", "c")).unwrap();
    store
        .add_link(ConceptLink::new(a.clone(), b.clone(), Relation::DependsOn))
        .unwrap();
    store
        .add_link(ConceptLink::new(a, c.clone(), Relation::DependsOn))
        .unwrap();
    store
        .add_link(ConceptLink::new(b, c, Relation::Refines))
        .unwrap();
}

#[test]
fn test_get_neighbors() {
    let mut store = test_store();
    let m_id = store.create_memoir(make_memoir("proj")).unwrap();
    let c1 = store.add_concept(make_concept(&m_id, "a", "node a")).unwrap();
    let c2 = store.add_concept(make_concept(&m_id, "b", "node b")).unwrap();
    let c3 = store.add_concept(make_concept(&m_id, "c", "node c")).unwrap();
    store
        .add_link(ConceptLink::new(c1.clone(), c2.clone(), Relation::DependsOn))
        .unwrap();
    store
        .add_link(ConceptLink::new(c3.clone(), c1.clone(), Relation::PartOf))
        .unwrap();
    let neighbors = store.get_neighbors(&c1, None).unwrap();
    assert_eq!(neighbors.len(), 2);
    let dep_neighbors = store.get_neighbors(&c1, Some(Relation::DependsOn)).unwrap();
    assert_eq!(dep_neighbors.len(), 1);
    assert_eq!(dep_neighbors[0].name, "b");
}

#[test]
fn test_cascade_delete_memoir() {
    let mut store = test_store();
    let m_id = store.create_memoir(make_memoir("proj")).unwrap();
    let c1 = store.add_concept(make_concept(&m_id, "a", "def")).unwrap();
    let c2 = store.add_concept(make_concept(&m_id, "b", "def")).unwrap();
    store
        .add_link(ConceptLink::new(c1.clone(), c2, Relation::RelatedTo))
        .unwrap();
    store.delete_memoir(&m_id).unwrap();
    let concepts = store.list_concepts(&m_id).unwrap();
    assert!(concepts.is_empty());
    assert!(store.get_links_from(&c1).unwrap().is_empty());
}

#[test]
fn concept_of_missing_memoir_is_refused() {
    let mut store = test_store();
    let err = store
        .add_concept(make_concept("no-such-memoir", "x", "y"))
        .unwrap_err();
    assert!(matches!(err, IcmError::Database(_)));
}

#[test]
fn list_concepts_is_by_name() {
    let mut store = test_store();
    let m_id = store.create_memoir(make_memoir("proj")).unwrap();
    store.add_concept(make_concept(&m_id, "zeta", "z")).unwrap();
    store.add_concept(make_concept(&m_id, "alpha", "a")).unwrap();
    let v = store.list_concepts(&m_id).unwrap();
    assert_eq!(v.iter().map(|c| c.name.as_str()).collect::<Vec<_>>(), vec!["alpha", "zeta"]);
}

#[test]
fn extract_pattern_as_concept_builds_the_concept() {
    let mut store = test_store();
    let m_id = store.create_memoir(make_memoir("patterns")).unwrap();
    let cluster = PatternCluster {
        representative_summary: "use tokio".into(),
        memory_ids: vec!["01ABCDEFGHJKMNPQRSTVWXYZ01".into(), "02X".into()],
        keywords: vec!["rust".into(), "async".into(), "tokio".into(), "io".into(), "net".into(), "extra".into()],
        count: 2,
    };
    let id = store.extract_pattern_as_concept(&cluster, &m_id).unwrap();
    let c = store.get_concept(&id).unwrap().unwrap();
    assert_eq!(c.name, "rust-async-tokio");
    assert_eq!(c.definition, "use tokio (pattern detected across 2 memories)");
    assert_eq!(c.confidence, 600);
    assert_eq!(c.labels.len(), 5);
    assert_eq!(c.labels[4], Label::new("pattern", "net"));
    assert_eq!(c.source_memory_ids, cluster.memory_ids);

    let bare = PatternCluster {
        representative_summary: "s".into(),
        memory_ids: vec!["01ABCDEFGHJKMNPQRSTVWXYZ01".into()],
        keywords: vec![],
        count: 12,
    };
    let id2 = store.extract_pattern_as_concept(&bare, &m_id).unwrap();
    let c2 = store.get_concept(&id2).unwrap().unwrap();
    assert_eq!(c2.name, "pattern-01ABCDEF");
    assert_eq!(c2.confidence, 900);
    let _ = Memory::new("t".into(), "s".into(), Importance::Low);
}

#[test]
fn test_refine_concept() {
    let mut store = test_store();
    let m_id = store.create_memoir(make_memoir("proj")).unwrap();
    let c_id = store.add_concept(make_concept(&m_id, "es", "Events v1")).unwrap();

    let orig = store.get_concept(&c_id).unwrap().unwrap();
    assert_eq!(orig.revision, 1);
    let orig_confidence = orig.confidence;

    store.refine_concept(&c_id, "Events v2 with snapshots", &["mem-1".into()]).unwrap();

    let refined = store.get_concept(&c_id).unwrap().unwrap();
    assert_eq!(refined.revision, 2);
    assert_eq!(refined.definition, "Events v2 with snapshots");
    assert!(refined.confidence > orig_confidence);
    assert!(refined.source_memory_ids.contains(&"mem-1".into()));
}

#[test]
fn test_get_neighborhood_bfs() {
    let mut store = test_store();
    let m_id = store.create_memoir(make_memoir("proj")).unwrap();
    let c1 = store.add_concept(make_concept(&m_id, "a", "node a")).unwrap();
    let c2 = store.add_concept(make_concept(&m_id, "b", "node b")).unwrap();
    let c3 = store.add_concept(make_concept(&m_id, "c", "node c")).unwrap();
    let c4 = store.add_concept(make_concept(&m_id, "d", "node d")).unwrap();

    store.add_link(ConceptLink::new(c1.clone(), c2.clone(), Relation::DependsOn)).unwrap();
    store.add_link(ConceptLink::new(c2.clone(), c3.clone(), Relation::DependsOn)).unwrap();
    store.add_link(ConceptLink::new(c3, c4, Relation::DependsOn)).unwrap();

    let (concepts, links) = store.get_neighborhood(&c1, 1).unwrap();
    assert_eq!(concepts.len(), 2);
    assert!(!links.is_empty());

    let (concepts, _) = store.get_neighborhood(&c1, 2).unwrap();
    assert_eq!(concepts.len(), 3);

    let (concepts, _) = store.get_neighborhood(&c1, 3).unwrap();
    assert_eq!(concepts.len(), 4);
}

#[test]
fn test_memoir_stats() {
    let mut store = test_store();
    let m_id = store.create_memoir(make_memoir("proj")).unwrap();

    let mut c = make_concept(&m_id, "es", "event sourcing");
    c.labels = vec![Label::new("domain", "arch")];
    let c1 = store.add_concept(c).unwrap();

    let mut c = make_concept(&m_id, "sqlite", "sqlite storage");
    c.labels = vec![Label::new("domain", "arch"), Label::new("type", "tech")];
    let c2 = store.add_concept(c).unwrap();

    store.add_link(ConceptLink::new(c1, c2, Relation::DependsOn)).unwrap();

    let stats = store.memoir_stats(&m_id).unwrap();
    assert_eq!(stats.total_concepts, 2);
    assert_eq!(stats.total_links, 1);
    assert!(stats.avg_confidence > 0);
    assert!(!stats.label_counts.is_empty());
}

#[test]
fn test_search_concepts_fts() {
    let mut store = test_store();
    let m_id = store.create_memoir(make_memoir("proj")).unwrap();
    store
        .add_concept(make_concept(&m_id, "event-sourcing", "Store domain events in append-only log"))
        .unwrap();
    store
        .add_concept(make_concept(&m_id, "cqrs", "Command Query Responsibility Segregation"))
        .unwrap();

    let results = store.search_concepts_fts(&m_id, "events", 10).unwrap();
    assert_eq!(results.len(), 1);
    assert_eq!(results[0].name, "event-sourcing");
}

#[test]
fn test_search_concepts_by_label() {
    let mut store = test_store();
    let m_id = store.create_memoir(make_memoir("proj")).unwrap();

    let mut c1 = make_concept(&m_id, "es", "event sourcing");
    c1.labels = vec![Label::new("domain", "arch")];
    store.add_concept(c1).unwrap();

    let mut c2 = make_concept(&m_id, "sqlite", "storage");
    c2.labels = vec![Label::new("domain", "tech")];
    store.add_concept(c2).unwrap();

    let results = store.search_concepts_by_label(&m_id, &Label::new("domain", "arch"), 10).unwrap();
    assert_eq!(results.len(), 1);
    assert_eq!(results[0].name, "es");
}

#[test]
fn test_search_concepts_by_label_escapes_wildcards() {
    let mut store = test_store();
    let m_id = store.create_memoir(make_memoir("proj")).unwrap();

    let mut c1 = make_concept(&m_id, "c1", "def1");
    c1.labels = vec![Label::new("domain", "test")];
    store.add_concept(c1).unwrap();

    let mut c2 = make_concept(&m_id, "c2", "def2");
    c2.labels = vec![Label::new("domain", "text")];
    store.add_concept(c2).unwrap();

    let results = store.search_concepts_by_label(&m_id, &Label::new("domain", "te_t"), 10).unwrap();
    assert!(results.is_empty(), "unescaped '_' wildcard matched unrelated label values: {results:?}");
}

#[test]
fn test_search_concepts_fts_special_chars() {
    let mut store = test_store();
    let m_id = store.create_memoir(make_memoir("proj")).unwrap();
    store
        .add_concept(make_concept(&m_id, "sqlite-vec", "Vector search extension for SQLite"))
        .unwrap();

    let results = store.search_concepts_fts(&m_id, "sqlite-vec", 10).unwrap();
    assert_eq!(results.len(), 1);
    assert_eq!(results[0].name, "sqlite-vec");

    let results = store.search_concepts_fts(&m_id, "***", 10).unwrap();
    assert!(results.is_empty());
}

#[test]
fn refine_missing_concept_and_confidence_cap() {
    let mut store = test_store();
    match store.refine_concept("nope", "d", &[]) {
        Err(IcmError::NotFound(m)) => assert_eq!(m, "nope"),
        other => panic!("unexpected: {other:?}"),
    }
    let m_id = store.create_memoir(make_memoir("proj")).unwrap();
    let c = store.add_concept(make_concept(&m_id, "x", "d")).unwrap();
    for _ in 0..8 {
        store.refine_concept(&c, "d", &["m".into(), "m".into()]).unwrap();
    }
    let got = store.get_concept(&c).unwrap().unwrap();
    assert_eq!(got.confidence, 1000);
    assert_eq!(got.revision, 9);
    assert_eq!(got.source_memory_ids, vec!["m".to_string()]);
}

#[test]
fn neighborhood_follows_links_both_ways_and_stops() {
    let mut store = test_store();
    let m_id = store.create_memoir(make_memoir("proj")).unwrap();
    let a = store.add_concept(make_concept(&m_id, "a", "A")).unwrap();
    let b = store.add_concept(make_concept(&m_id, "b", "B")).unwrap();
    let c = store.add_concept(make_concept(&m_id, "c", "C")).unwrap();
    store.add_link(ConceptLink::new(b.clone(), a.clone(), Relation::PartOf)).unwrap();
    let (cs, ls) = store.get_neighborhood(&a, 5).unwrap();
    assert_eq!(cs.len(), 2);
    assert_eq!(cs[0].id, a);
    assert_eq!(ls.len(), 1);
    let (cs, ls) = store.get_neighborhood(&c, 5).unwrap();
    assert_eq!(cs.len(), 1);
    assert!(ls.is_empty());
    let (cs, ls) = store.get_neighborhood(&a, 0).unwrap();
    assert_eq!(cs.len(), 1);
    assert!(ls.is_empty());
    let (cs, _) = store.get_neighborhood("missing", 3).unwrap();
    assert!(cs.is_empty());
}

#[test]
fn memoir_stats_counts_labels_and_averages() {
    let mut store = test_store();
    let m_id = store.create_memoir(make_memoir("proj")).unwrap();
    let mut c = make_concept(&m_id, "a", "A");
    c.labels = vec![Label::new("k", "v"), Label::new("k", "w")];
    c.confidence = 400;
    store.add_concept(c).unwrap();
    let mut c = make_concept(&m_id, "b", "B");
    c.labels = vec![Label::new("k", "v")];
    c.confidence = 701;
    store.add_concept(c).unwrap();
    let st = store.memoir_stats(&m_id).unwrap();
    assert_eq!(st.avg_confidence, 550);
    assert_eq!(st.label_counts[0], ("k:v".to_string(), 2));
    assert_eq!(st.label_counts.len(), 2);
    let empty = store.memoir_stats("other").unwrap();
    assert_eq!(empty.total_concepts, 0);
    assert_eq!(empty.avg_confidence, 0);
}

#[test]
fn add_link_database_refusals() {
    let mut store = SqliteStore::in_memory().unwrap();
    let m_id = store.create_memoir(make_memoir("proj")).unwrap();
    let a = store.add_concept(make_concept(&m_id, "a", "first")).unwrap();
    let b = store.add_concept(make_concept(&m_id, "b", "second")).unwrap();
    let missing = store.add_link(ConceptLink::new(a.clone(), "nowhere".into(), Relation::DependsOn));
    assert_eq!(missing.unwrap_err(), IcmError::Database("FOREIGN KEY constraint failed".into()));
    let link = ConceptLink::new(a.clone(), b.clone(), Relation::DependsOn);
    let c = store.add_concept(make_concept(&m_id, "c", "third")).unwrap();
    let mut twin = ConceptLink::new(a.clone(), c.clone(), Relation::RelatedTo);
    twin.id = link.id.clone();
    store.add_link(link).unwrap();
    let err = store.add_link(twin).unwrap_err();
    assert_eq!(err, IcmError::Database("UNIQUE constraint failed: concept_links.id".into()));
}
