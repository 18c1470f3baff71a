use icm_store::model::IcmError;
use icm_store::store::SqliteStore;
use icm_store::transcript::{Role, MAX_MESSAGE_BYTES, MAX_TOOL_NAME_BYTES};

fn test_store() -> SqliteStore {
    SqliteStore::in_memory().unwrap()
}

#[test]
fn test_transcript_create_session_and_record() {
    let mut store = test_store();
    let sid = store.create_session("code-agent", Some("proj"), None).unwrap();
    assert!(!sid.is_empty());

    let mid = store.record_message(&sid, Role::User, "hello world", None, None, None).unwrap();
    assert!(!mid.is_empty());

    let msgs = store.list_session_messages(&sid, 10, 0).unwrap();
    assert_eq!(msgs.len(), 1);
    assert_eq!(msgs[0].content, "hello world");
    assert_eq!(msgs[0].role, Role::User);
}

#[test]
fn perf_session_archive_search_2k_messages() {
    let mut store = test_store();
    let sid = store.ensure_session("perf-sess", "code-agent", Some("icm"), None).unwrap();
    for i in 0..2_000 {
        let body = if i % 100 == 0 {
            format!("turbofish needle hit {i}")
        } else {
            format!("filler payload number {i}")
        };
        store.record_message(&sid, Role::User, &body, None, None, None).unwrap();
    }
    let start = std::time::Instant::now();
    let hits = store.search_transcripts("turbofish", None, None, 50).unwrap();
    let elapsed = start.elapsed();
    assert!(hits.len() >= 10, "expected at least 10 hits, got {}", hits.len());
    assert!(
        elapsed.as_millis() < 1500,
        "search across 2k archived messages took {}ms (budget 1500ms)",
        elapsed.as_millis(),
    );
}

#[test]
fn test_ensure_session_is_idempotent() {
    let mut store = test_store();
    let external_id = "host-sess-abc-123";
    let id1 = store.ensure_session(external_id, "code-agent", Some("icm"), None).unwrap();
    assert_eq!(id1, external_id);

    let id2 = store.ensure_session(external_id, "code-agent", Some("icm"), None).unwrap();
    assert_eq!(id2, external_id);

    let sessions = store.list_sessions(Some("icm"), 10).unwrap();
    assert_eq!(sessions.len(), 1, "ensure_session must be idempotent, got: {sessions:?}");
    assert_eq!(sessions[0].id, external_id);

    store.record_message(external_id, Role::User, "first turn", None, None, None).unwrap();
    store.record_message(external_id, Role::Tool, "tool out", Some("bash"), None, None).unwrap();
    let msgs = store.list_session_messages(external_id, 10, 0).unwrap();
    assert_eq!(msgs.len(), 2);
}

#[test]
fn test_transcript_record_into_missing_session_fails() {
    let mut store = test_store();
    let err = store.record_message("nonexistent", Role::User, "hi", None, None, None).unwrap_err();
    assert!(err.message().to_lowercase().contains("session"));
}

#[test]
fn test_transcript_search_fts5_boolean_and_phrase() {
    let mut store = test_store();
    let sid = store.create_session("cli", Some("db-debate"), None).unwrap();
    store
        .record_message(&sid, Role::Assistant, "Postgres 16 supports JSONB and BRIN indexes natively.", None, None, None)
        .unwrap();
    store
        .record_message(&sid, Role::Assistant, "MySQL lacks BRIN; its JSON type is stored differently.", None, None, None)
        .unwrap();
    store.record_message(&sid, Role::User, "Et SQLite ?", None, None, None).unwrap();

    let hits = store.search_transcripts("postgres OR mysql", None, None, 10).unwrap();
    assert_eq!(hits.len(), 2);

    let phrase_hits = store.search_transcripts("\"BRIN indexes\"", None, None, 10).unwrap();
    assert_eq!(phrase_hits.len(), 1);
    assert!(phrase_hits[0].message.content.contains("Postgres"));
}

#[test]
fn test_transcript_search_malformed_fts5_query_degrades_gracefully() {
    let mut store = test_store();
    let sid = store.create_session("cli", None, None).unwrap();
    store.record_message(&sid, Role::User, "hello world", None, None, None).unwrap();

    for bad_query in ["hello AND", "(hello", "hello OR OR"] {
        let result = store.search_transcripts(bad_query, None, None, 10);
        assert!(result.is_ok(), "malformed FTS5 query {bad_query:?} must not error: {result:?}");
        assert!(result.unwrap().is_empty());
    }
}

#[test]
fn test_transcript_search_scoped_by_session_and_project() {
    let mut store = test_store();
    let s1 = store.create_session("cli", Some("alpha"), None).unwrap();
    let s2 = store.create_session("cli", Some("beta"), None).unwrap();
    store.record_message(&s1, Role::User, "alpha wants postgres", None, None, None).unwrap();
    store.record_message(&s2, Role::User, "beta wants postgres", None, None, None).unwrap();

    let all = store.search_transcripts("postgres", None, None, 10).unwrap();
    assert_eq!(all.len(), 2);

    let only_s1 = store.search_transcripts("postgres", Some(&s1), None, 10).unwrap();
    assert_eq!(only_s1.len(), 1);
    assert_eq!(only_s1[0].message.session_id, s1);

    let only_beta = store.search_transcripts("postgres", None, Some("beta"), 10).unwrap();
    assert_eq!(only_beta.len(), 1);
    assert_eq!(only_beta[0].session.project.as_deref(), Some("beta"));
}

#[test]
fn test_transcript_stats_breakdown() {
    let mut store = test_store();
    let s = store.create_session("code-agent", None, None).unwrap();
    store.record_message(&s, Role::User, "q", None, None, None).unwrap();
    store.record_message(&s, Role::Assistant, "a", None, None, None).unwrap();
    store.record_message(&s, Role::Tool, "{}", Some("Bash"), Some(10), None).unwrap();

    let stats = store.transcript_stats().unwrap();
    assert_eq!(stats.total_sessions, 1);
    assert_eq!(stats.total_messages, 3);
    assert!(stats.total_bytes > 0);
    assert_eq!(stats.by_role.len(), 3);
    assert!(stats.by_agent.iter().any(|(a, _)| a == "code-agent"));
    assert_eq!(stats.top_sessions.len(), 1);
    assert_eq!(stats.top_sessions[0].1, 3);
}

#[test]
fn test_transcript_forget_cascade_deletes_messages() {
    let mut store = test_store();
    let s = store.create_session("cli", None, None).unwrap();
    for i in 0..5 {
        store.record_message(&s, Role::User, &format!("msg {i}"), None, None, None).unwrap();
    }

    store.forget_session(&s).unwrap();

    assert!(store.get_session(&s).unwrap().is_none());
    let msgs = store.list_session_messages(&s, 100, 0).unwrap();
    assert!(msgs.is_empty());
}

#[test]
fn test_transcript_list_sessions_sorted_by_updated() {
    let mut store = test_store();
    let a = store.create_session("cli", Some("p"), None).unwrap();
    let b = store.create_session("cli", Some("p"), None).unwrap();
    store.record_message(&a, Role::User, "bump", None, None, None).unwrap();

    let list = store.list_sessions(Some("p"), 10).unwrap();
    assert_eq!(list.len(), 2);
    assert_eq!(list[0].id, a);
    assert_eq!(list[1].id, b);
}

#[test]
fn test_transcript_messages_chronological() {
    let mut store = test_store();
    let s = store.create_session("cli", None, None).unwrap();
    let mut ids = Vec::new();
    for i in 0..3 {
        ids.push(store.record_message(&s, Role::User, &format!("{i}"), None, None, None).unwrap());
    }

    let msgs = store.list_session_messages(&s, 10, 0).unwrap();
    let got: Vec<_> = msgs.iter().map(|m| m.id.clone()).collect();
    assert_eq!(got, ids);
}

#[test]
fn transcript_content_is_cut_to_the_byte_cap() {
    let mut store = test_store();
    let s = store.create_session("cli", None, None).unwrap();
    let long = "é".repeat(MAX_MESSAGE_BYTES);
    let tool = "x".repeat(MAX_TOOL_NAME_BYTES + 7);
    store.record_message(&s, Role::Tool, &long, Some(&tool), None, None).unwrap();
    let msgs = store.list_session_messages(&s, 10, 0).unwrap();
    assert_eq!(msgs[0].content.len(), MAX_MESSAGE_BYTES);
    assert_eq!(msgs[0].tool_name.as_deref().map(str::len), Some(MAX_TOOL_NAME_BYTES));
}

#[test]
fn transcript_pages_skip_and_limit() {
    let mut store = test_store();
    let s = store.create_session("cli", None, None).unwrap();
    for i in 0..5 {
        store.record_message(&s, Role::User, &format!("m{i}"), None, None, None).unwrap();
    }
    let page = store.list_session_messages(&s, 2, 1).unwrap();
    let got: Vec<_> = page.iter().map(|m| m.content.clone()).collect();
    assert_eq!(got, vec!["m1".to_string(), "m2".to_string()]);
    assert!(store.list_session_messages(&s, 2, 9).unwrap().is_empty());
}

#[test]
fn transcript_ensure_session_defaults_metadata() {
    let mut store = test_store();
    store.ensure_session("ext-1", "cli", None, None).unwrap();
    let s = store.get_session("ext-1").unwrap().unwrap();
    assert_eq!(s.metadata.as_deref(), Some("{}"));
    assert_eq!(s.agent, "cli");
}

#[test]
fn transcript_stats_on_empty_store() {
    let store = test_store();
    let stats = store.transcript_stats().unwrap();
    assert_eq!(stats.total_sessions, 0);
    assert_eq!(stats.total_messages, 0);
    assert_eq!(stats.total_bytes, 0);
    assert!(stats.oldest.is_none() && stats.newest.is_none());
}

#[test]
fn transcript_missing_session_error_names_it() {
    let mut store = test_store();
    match store.record_message("ghost", Role::User, "hi", None, None, None) {
        Err(IcmError::NotFound(m)) => assert_eq!(m, "session ghost does not exist"),
        other => panic!("unexpected: {other:?}"),
    }
}

#[test]
fn read_only_store_refuses_transcript_writes_as_the_database() {
    let mut store = test_store();
    let sid = store.create_session("code-agent", None, None).unwrap();
    store.readonly = true;
    let ro = IcmError::Database("attempt to write a readonly database".into());
    assert_eq!(store.create_session("code-agent", None, None).unwrap_err(), ro);
    assert_eq!(store.ensure_session("other", "code-agent", None, None).unwrap_err(), ro);
    assert_eq!(store.record_message(&sid, Role::User, "hi", None, None, None).unwrap_err(), ro);
    assert_eq!(
        store.record_message("nope", Role::User, "hi", None, None, None).unwrap_err(),
        IcmError::NotFound("session nope does not exist".into())
    );
    assert_eq!(store.forget_session(&sid).unwrap_err(), ro);
    assert_eq!(store.list_sessions(None, 10).unwrap().len(), 1);
    assert!(store.list_session_messages(&sid, 10, 0).unwrap().is_empty());
}

#[test]
fn insert_session_refuses_a_taken_id() {
    let mut store = test_store();
    let id = "01ARZ3NDEKTSV4RRFFQ69G5FAV".to_string();
    let now = "2024-01-01T00:00:00+00:00".to_string();
    let got = store.transcripts.insert_session(id.clone(), "code-agent", Some("p"), Some("{}"), now.clone()).unwrap();
    assert_eq!(got, id);
    let err = store.transcripts.insert_session(id.clone(), "other", None, None, now.clone()).unwrap_err();
    assert_eq!(err, IcmError::Database("UNIQUE constraint failed: sessions.id".into()));
    let sessions = store.list_sessions(None, 10).unwrap();
    assert_eq!(sessions.len(), 1);
    assert_eq!(sessions[0].agent, "code-agent");
    assert_eq!(sessions[0].started_at, now);
    assert_eq!(sessions[0].updated_at, now);
    assert_eq!(sessions[0].project.as_deref(), Some("p"));
}

#[test]
fn drawn_session_and_message_ids_are_ulids() {
    let mut store = test_store();
    let sid = store.create_session("code-agent", None, None).unwrap();
    assert_eq!(sid.chars().count(), 26);
    let mid = store.record_message(&sid, Role::Assistant, "x", None, None, None).unwrap();
    assert_eq!(mid.chars().count(), 26);
    assert_ne!(sid, mid);
}

#[test]
fn search_hits_are_distinct_messages() {
    let mut store = test_store();
    let sid = store.create_session("code-agent", None, None).unwrap();
    store.record_message(&sid, Role::User, "alpha beta", None, None, None).unwrap();
    store.record_message(&sid, Role::User, "alpha alpha", None, None, None).unwrap();
    store.record_message(&sid, Role::User, "gamma", None, None, None).unwrap();
    let hits = store.search_transcripts("alpha", None, None, 10).unwrap();
    assert_eq!(hits.len(), 2);
    assert_ne!(hits[0].message.id, hits[1].message.id);
}
