use icm_store::backends::{OpenSearchStore, PostgresStore};
use icm_store::documents::{parse_dt, parse_importance, parse_source, SearchHit, SourceDoc};
use icm_store::model::{IcmError, Importance, Memory, MemorySource, WEIGHT_ONE};

fn empty_doc() -> SourceDoc {
    SourceDoc {
        created_at: None,
        updated_at: None,
        last_accessed: None,
        access_count: None,
        weight: None,
        topic: None,
        summary: None,
        raw_excerpt: None,
        keywords: None,
        importance: None,
        source_type: None,
        source: None,
        related_ids: None,
    }
}

#[test]
fn document_defaults_when_fields_are_missing() {
    let m = OpenSearchStore::source_to_memory("id-1", &empty_doc());
    assert_eq!(m.id, "id-1");
    assert_eq!(m.topic, "");
    assert_eq!(m.summary, "");
    assert_eq!(m.access_count, 0);
    assert_eq!(m.weight, WEIGHT_ONE);
    assert_eq!(m.importance, Importance::Medium);
    assert_eq!(m.source, MemorySource::Manual);
    assert!(m.raw_excerpt.is_none());
    assert!(m.keywords.is_empty());
    assert!(!m.created_at.is_empty());
}

#[test]
fn document_fields_are_read_back() {
    let mut d = empty_doc();
    d.created_at = Some("2024-01-02T03:04:05+00:00".into());
    d.access_count = Some(7);
    d.weight = Some(500_000);
    d.topic = Some("t".into());
    d.summary = Some("s".into());
    d.raw_excerpt = Some(String::new());
    d.keywords = Some(vec![Some("a".into()), None, Some("b".into())]);
    d.importance = Some("critical".into());
    d.source_type = Some("conversation".into());
    d.source = Some(MemorySource::Conversation { thread_id: Some("x".into()) });
    d.related_ids = Some(vec![None, Some("r".into())]);
    let m = OpenSearchStore::source_to_memory("id-2", &d);
    assert_eq!(m.created_at, "2024-01-02T03:04:05+00:00");
    assert_eq!(m.access_count, 7);
    assert_eq!(m.weight, 500_000);
    assert!(m.raw_excerpt.is_none());
    assert_eq!(m.keywords, vec!["a".to_string(), "b".to_string()]);
    assert_eq!(m.importance, Importance::Critical);
    assert_eq!(m.source, MemorySource::Conversation { thread_id: Some("x".into()) });
    assert_eq!(m.related_ids, vec!["r".to_string()]);
}

#[test]
fn document_manual_type_wins_and_counts_wrap() {
    let mut d = empty_doc();
    d.source_type = Some("manual".into());
    d.source = Some(MemorySource::Conversation { thread_id: None });
    d.access_count = Some((1u64 << 32) + 3);
    d.importance = Some("LOUD".into());
    let m = OpenSearchStore::source_to_memory("id", &d);
    assert_eq!(m.source, MemorySource::Manual);
    assert_eq!(m.access_count, 3);
    assert_eq!(m.importance, Importance::Medium);
}

#[test]
fn document_invalid_time_reads_as_now() {
    let mut d = empty_doc();
    d.updated_at = Some("yesterday".into());
    let m = OpenSearchStore::source_to_memory("id", &d);
    assert_ne!(m.updated_at, "yesterday");
}

#[test]
fn memory_document_names_and_hash() {
    let m = Memory::new("Topic".into(), "Some summary".into(), Importance::High);
    let d = OpenSearchStore::memory_to_source(&m);
    assert_eq!(d.importance, "high");
    assert_eq!(d.source_type, "manual");
    assert_eq!(d.summary_hash.len(), 64);
    let m2 = Memory::new("topic ".into(), "some   SUMMARY".into(), Importance::Low);
    assert_eq!(OpenSearchStore::memory_to_source(&m2).summary_hash, d.summary_hash);
}

#[test]
fn hits_without_id_or_source_are_skipped() {
    let mut d = empty_doc();
    d.topic = Some("kept".into());
    let hits = vec![
        SearchHit { id: None, source: Some(empty_doc()) },
        SearchHit { id: Some("a".into()), source: Some(d) },
        SearchHit { id: Some("b".into()), source: None },
    ];
    let v = OpenSearchStore::hits_to_memories(&hits);
    assert_eq!(v.len(), 1);
    assert_eq!(v[0].id, "a");
    assert_eq!(v[0].topic, "kept");
}

#[test]
fn importance_names_parse() {
    assert_eq!(parse_importance("low"), Some(Importance::Low));
    assert_eq!(parse_importance("high"), Some(Importance::High));
    assert_eq!(parse_importance("urgent"), None);
}

#[test]
fn postgres_keyword_plan_caps_and_escapes() {
    assert!(PostgresStore::keyword_search_plan(&[], 10).is_none());
    let (pats, limit) = PostgresStore::keyword_search_plan(&["100%", "a_b"], 500).unwrap();
    assert_eq!(pats, vec!["%100\\%%".to_string(), "%a\\_b%".to_string()]);
    assert_eq!(limit, 100);
    let many: Vec<String> = (0..60).map(|i| format!("k{i}")).collect();
    let refs: Vec<&str> = many.iter().map(|s| s.as_str()).collect();
    let (pats, limit) = PostgresStore::keyword_search_plan(&refs, 7).unwrap();
    assert_eq!(pats.len(), 50);
    assert_eq!(limit, 7);
}

#[test]
fn unoffered_operations_name_themselves() {
    let os = OpenSearchStore { readonly: false };
    match os.list_memoirs() {
        Err(IcmError::Unsupported(m)) => assert!(m.starts_with("memoir.list_memoirs")),
        other => panic!("unexpected: {other:?}"),
    }
    match os.transcript_stats() {
        Err(IcmError::Unsupported(m)) => assert!(m.starts_with("transcript.transcript_stats")),
        other => panic!("unexpected: {other:?}"),
    }
    let pg = PostgresStore { readonly: false };
    match pg.get_fact("e", "k") {
        Err(IcmError::Unsupported(m)) => assert!(m.starts_with("facts.get_fact")),
        other => panic!("unexpected: {other:?}"),
    }
}

#[test]
fn postgres_write_decisions() {
    let ro = PostgresStore { readonly: true };
    let rw = PostgresStore { readonly: false };
    match ro.write_guard("prune") {
        Err(IcmError::ReadOnly(m)) => assert_eq!(m, "prune"),
        other => panic!("unexpected: {other:?}"),
    }
    assert!(rw.write_guard("prune").is_ok());
    match rw.prepare_store(Memory::new("  ".into(), "s".into(), Importance::Low)) {
        Err(IcmError::InvalidInput(m)) => assert_eq!(m, "topic cannot be empty"),
        other => panic!("unexpected: {other:?}"),
    }
    let m = rw.prepare_store(Memory::new(" t ".into(), "s".into(), Importance::Low)).unwrap();
    assert_eq!(m.topic, "t");
    assert!(matches!(ro.update_row(&m), Err(IcmError::ReadOnly(_))));
    let row = rw.update_row(&m).unwrap();
    assert_eq!(row.importance, "low");
    match PostgresStore::changed_one(0, "x") {
        Err(IcmError::NotFound(id)) => assert_eq!(id, "x"),
        other => panic!("unexpected: {other:?}"),
    }
    assert!(PostgresStore::changed_one(1, "x").is_ok());
}

#[test]
fn parse_dt_reads_valid_timestamps_in_utc() {
    assert_eq!(parse_dt("2024-05-06T07:08:09Z"), "2024-05-06T07:08:09+00:00");
    assert_eq!(parse_dt("2024-05-06T09:08:09+02:00"), "2024-05-06T07:08:09+00:00");
    assert_ne!(parse_dt("not a time"), "not a time");
}

#[test]
fn postgres_topic_counts_clamp_negative() {
    let rows = vec![("a".to_string(), 3i64), ("b".to_string(), -2i64)];
    let got = icm_store::backends::topic_counts_from_rows(rows);
    assert_eq!(got, vec![("a".to_string(), 3usize), ("b".to_string(), 0usize)]);
}

#[test]
fn fresh_store_is_writable() {
    let store = icm_store::store::SqliteStore::in_memory().unwrap();
    assert!(!store.is_readonly());
}

#[test]
fn parse_source_prefers_manual_type() {
    let conv = Some(MemorySource::Conversation { thread_id: Some("t".into()) });
    assert_eq!(parse_source("manual", &conv), MemorySource::Manual);
    assert_eq!(parse_source("conversation", &conv), conv.clone().unwrap());
    assert_eq!(parse_source("conversation", &None), MemorySource::Manual);
}
