use icm_store::encode::sanitize_fts_query;
use icm_store::model::{Fact, IcmError, Importance, Memory};
use icm_store::transcript::{Message, Role, Session};
use icm_store::store::SqliteStore;

fn test_store() -> SqliteStore {
    SqliteStore::in_memory().unwrap()
}

fn make_memory(topic: &str, summary: &str) -> Memory {
    Memory::new(topic.into(), summary.into(), Importance::Medium)
}

#[test]
fn test_sanitize_fts_query() {
    assert_eq!(sanitize_fts_query("hello world"), "\"hello\" \"world\"");
    assert_eq!(sanitize_fts_query("sqlite-vec"), "\"sqlite\" \"vec\"");
    assert_eq!(sanitize_fts_query("foo*bar"), "\"foo\" \"bar\"");
    assert_eq!(sanitize_fts_query("col:value"), "\"col\" \"value\"");
    assert_eq!(sanitize_fts_query(""), "");
    assert_eq!(sanitize_fts_query("  "), "");
    assert_eq!(sanitize_fts_query("---"), "");
    assert_eq!(
        sanitize_fts_query("no-such column:vec"),
        "\"no\" \"such\" \"column\" \"vec\""
    );
}

#[test]
fn test_search_fts_special_chars() {
    let mut store = test_store();
    store
        .store(make_memory("tools", "sqlite-vec is a vector search extension"))
        .unwrap();
    let results = store.search_fts("sqlite-vec", 10).unwrap();
    assert_eq!(results.len(), 1);
    assert_eq!(results[0].topic, "tools");
    let results = store.search_fts("---", 10).unwrap();
    assert!(results.is_empty());
}

#[test]
fn test_sql_injection_in_topic() {
    let mut store = test_store();
    let mem = make_memory("'; DROP TABLE memories; --", "should be safe");
    store.store(mem.clone()).unwrap();
    let retrieved = store.get(&mem.id).unwrap().unwrap();
    assert_eq!(retrieved.topic, "'; DROP TABLE memories; --");
    assert_eq!(store.count().unwrap(), 1);
    let topics = store.list_topics().unwrap();
    assert_eq!(topics.len(), 1);
}

#[test]
fn test_sql_injection_in_summary() {
    let mut store = test_store();
    let mem = make_memory("test", "value'); DELETE FROM memories WHERE ('1'='1");
    store.store(mem).unwrap();
    assert_eq!(store.count().unwrap(), 1);
}

#[test]
fn test_sql_injection_in_fts_query() {
    let mut store = test_store();
    store.store(make_memory("test", "normal content here")).unwrap();
    let results = store.search_fts("') OR 1=1 --", 10).unwrap();
    assert!(results.is_empty() || results.len() <= 1);
    let results = store.search_fts("NEAR(a b)", 10).unwrap();
    let _ = results;
}

#[test]
fn test_sql_injection_in_keywords() {
    let mut store = test_store();
    let mut mem = make_memory("test", "keyword injection");
    mem.keywords = vec!["normal".into(), "'; DROP TABLE memories; --".into()];
    store.store(mem).unwrap();
    assert_eq!(store.count().unwrap(), 1);
    let results = store
        .search_by_keywords(&["'; DROP TABLE memories; --"], 10)
        .unwrap();
    let _ = results;
}

#[test]
fn test_null_bytes_in_summary_rejected() {
    let mut store = test_store();
    let mem = make_memory("test", "before\0after");
    let err = store.store(mem).unwrap_err();
    assert!(
        matches!(err, IcmError::InvalidInput(ref m) if m.contains("NUL")),
        "expected InvalidInput(NUL...) got {err:?}"
    );
}

#[test]
fn test_null_bytes_in_topic_rejected() {
    let mut store = test_store();
    let mem = make_memory("topic\0fake", "real summary content");
    let err = store.store(mem).unwrap_err();
    assert!(
        matches!(err, IcmError::InvalidInput(ref m) if m.contains("NUL")),
        "expected InvalidInput(NUL...) got {err:?}"
    );
}

#[test]
fn test_unicode_topic_with_trailing_null_rejected() {
    let mut store = test_store();
    let unicode_topic = "\u{1F600}\u{1F4A9}\u{0000}";
    let mem = make_memory(unicode_topic, "emoji topic content here");
    let err = store.store(mem).unwrap_err();
    assert!(
        matches!(err, IcmError::InvalidInput(ref m) if m.contains("NUL")),
        "expected NUL rejection on emoji+NUL topic, got {err:?}"
    );
}

#[test]
fn test_unicode_emoji_topic_without_null_accepted() {
    let mut store = test_store();
    let mem = make_memory("\u{1F525}-decisions", "real content here please");
    let id = store.store(mem.clone()).unwrap();
    let retrieved = store.get(&id).unwrap().unwrap();
    assert!(retrieved.topic.starts_with('\u{1F525}'));
}

#[test]
fn test_summary_within_cap_accepted() {
    let mut store = test_store();
    let summary = "a".repeat(60_000);
    let mem = make_memory("test", &summary);
    store.store(mem.clone()).unwrap();
    let retrieved = store.get(&mem.id).unwrap().unwrap();
    assert_eq!(retrieved.summary.len(), 60_000);
}

#[test]
fn test_summary_exceeding_cap_rejected() {
    let mut store = test_store();
    let long_summary = "a".repeat(100_000);
    let mem = make_memory("test", &long_summary);
    let err = store.store(mem).unwrap_err();
    assert!(
        matches!(err, IcmError::InvalidInput(ref m) if m.contains("summary exceeds")),
        "expected summary-size rejection got {err:?}"
    );
}

#[test]
fn test_empty_topic_rejected() {
    let mut store = test_store();
    let mem = make_memory("", "real summary content here");
    let err = store.store(mem).unwrap_err();
    assert!(
        matches!(err, IcmError::InvalidInput(ref m) if m.contains("topic cannot be empty")),
        "expected empty-topic rejection got {err:?}"
    );
}

#[test]
fn test_whitespace_only_topic_rejected() {
    let mut store = test_store();
    let mem = make_memory("   \t  ", "real summary content here");
    let err = store.store(mem).unwrap_err();
    assert!(
        matches!(err, IcmError::InvalidInput(ref m) if m.contains("topic cannot be empty")),
        "expected empty-after-trim rejection got {err:?}"
    );
}

#[test]
fn test_empty_summary_rejected() {
    let mut store = test_store();
    let mem = make_memory("topic", "");
    let err = store.store(mem).unwrap_err();
    assert!(
        matches!(err, IcmError::InvalidInput(ref m) if m.contains("summary cannot be empty")),
        "expected empty-summary rejection got {err:?}"
    );
}

#[test]
fn test_topic_with_newline_rejected() {
    let mut store = test_store();
    let mem = make_memory("topic\nfake-topic", "real summary content here");
    let err = store.store(mem).unwrap_err();
    assert!(
        matches!(err, IcmError::InvalidInput(ref m) if m.contains("newline")),
        "expected newline rejection got {err:?}"
    );
}

#[test]
fn test_topic_trailing_whitespace_trimmed_on_store() {
    let mut store = test_store();
    let id1 = store
        .store(make_memory("  trail  ", "summary one content"))
        .unwrap();
    let mem1 = store.get(&id1).unwrap().unwrap();
    assert_eq!(mem1.topic, "trail", "topic should be trimmed");
}

#[test]
fn read_only_store_refuses_writes() {
    let mut store = test_store();
    store.readonly = true;
    let err = store.store(make_memory("t", "s")).unwrap_err();
    assert_eq!(err, IcmError::ReadOnly("store".into()));
    assert_eq!(err.message(), "read-only store: store");
    assert_eq!(store.count().unwrap(), 0);
}

#[test]
fn restore_operations_refuse_what_breaks_a_table() {
    let mut store = SqliteStore::in_memory().unwrap();

    let mut m = Memory::new("t".into(), "kept as saved".into(), Importance::High);
    m.id = "M1".into();
    m.weight = 123;
    store.memories.restore_row(m.clone()).unwrap();
    assert_eq!(store.memories.rows.len(), 1);
    assert_eq!(store.memories.rows[0].weight, 123);
    let mut same_id = Memory::new("u".into(), "other".into(), Importance::Low);
    same_id.id = "M1".into();
    assert!(matches!(store.memories.restore_row(same_id), Err(IcmError::Database(_))));
    let mut same_content = Memory::new("T ".into(), "Kept as saved".into(), Importance::Low);
    same_content.id = "M2".into();
    assert!(matches!(store.memories.restore_row(same_content), Err(IcmError::Database(_))));
    assert_eq!(store.memories.rows.len(), 1);

    let f = Fact {
        id: "F1".into(),
        entity: "e".into(),
        key: "k".into(),
        value: "v".into(),
        source: "s".into(),
        created_at: "c".into(),
        superseded_at: None,
    };
    store.restore_fact(f.clone()).unwrap();
    let mut second_active = f.clone();
    second_active.id = "F2".into();
    assert_eq!(
        store.restore_fact(second_active.clone()).unwrap_err(),
        IcmError::Database("UNIQUE constraint failed: facts.entity, facts.key".into())
    );
    second_active.superseded_at = Some("later".into());
    store.restore_fact(second_active).unwrap();
    assert_eq!(store.restore_fact(f).unwrap_err(), IcmError::Database("UNIQUE constraint failed: facts.id".into()));
    assert_eq!(store.history("e", "k").unwrap().len(), 2);

    let s = Session {
        id: "S1".into(),
        agent: "code-agent".into(),
        project: None,
        started_at: "a".into(),
        updated_at: "b".into(),
        metadata: None,
    };
    store.transcripts.restore_session(s.clone()).unwrap();
    assert_eq!(
        store.transcripts.restore_session(s).unwrap_err(),
        IcmError::Database("UNIQUE constraint failed: sessions.id".into())
    );
    let msg = Message {
        id: "X1".into(),
        session_id: "S1".into(),
        role: Role::Tool,
        content: "out".into(),
        tool_name: Some("ls".into()),
        tokens: Some(3),
        ts: "b".into(),
        metadata: None,
    };
    store.transcripts.restore_message(msg.clone()).unwrap();
    let mut orphan = msg;
    orphan.session_id = "nope".into();
    assert_eq!(
        store.transcripts.restore_message(orphan).unwrap_err(),
        IcmError::Database("FOREIGN KEY constraint failed".into())
    );
    assert_eq!(store.list_session_messages("S1", 10, 0).unwrap().len(), 1);

    store.readonly = true;
    let late = Fact {
        id: "F9".into(),
        entity: "e2".into(),
        key: "k".into(),
        value: "v".into(),
        source: "s".into(),
        created_at: "c".into(),
        superseded_at: None,
    };
    assert_eq!(store.restore_fact(late).unwrap_err(), IcmError::Database("attempt to write a readonly database".into()));
}

#[test]
fn unicode_white_space_is_trimmed() {
    assert_eq!(icm_store::normalize::trim("\u{3000}\u{85} topic\u{2028}\u{a0}"), "topic");
    assert_eq!(icm_store::normalize::trim("\u{200b}x"), "\u{200b}x");
}
