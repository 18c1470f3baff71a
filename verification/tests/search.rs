use icm_store::encode::sanitize_fts_query;
use icm_store::model::{IcmError, Importance, Memory};
use icm_store::store::SqliteStore;

fn test_store() -> SqliteStore {
    SqliteStore::in_memory().unwrap()
}

fn make_memory(topic: &str, summary: &str) -> Memory {
    Memory::new(topic.into(), summary.into(), Importance::Medium)
}

#[test]
fn test_sanitize_fts_empty() {
    assert_eq!(sanitize_fts_query(""), "");
    assert_eq!(sanitize_fts_query("   "), "");
}

#[test]
fn test_sanitize_fts_special_chars() {
    assert_eq!(sanitize_fts_query("hello-world"), "\"hello\" \"world\"");
    assert_eq!(sanitize_fts_query("foo*bar"), "\"foo\" \"bar\"");
    assert_eq!(sanitize_fts_query("a:b"), "\"a\" \"b\"");
    assert_eq!(sanitize_fts_query("(test)"), "\"test\"");
    assert_eq!(sanitize_fts_query("x^y+z~w"), "\"x\" \"y\" \"z\" \"w\"");
}

#[test]
fn test_sanitize_fts_quotes_stripped() {
    assert_eq!(sanitize_fts_query("say \"hello\""), "\"say\" \"hello\"");
}

#[test]
fn test_sanitize_fts_unicode() {
    assert_eq!(sanitize_fts_query("café résumé"), "\"café\" \"résumé\"");
    assert_eq!(sanitize_fts_query("日本語テスト"), "\"日本語テスト\"");
}

#[test]
fn test_sanitize_fts_long_input_truncated() {
    let long = "a ".repeat(6000);
    let result = sanitize_fts_query(&long);
    let token_count = result.split_whitespace().count();
    assert!(token_count <= 100);
}

#[test]
fn test_sanitize_fts_many_tokens_capped() {
    let many_tokens: String = (0..200)
        .map(|i| format!("word{i}"))
        .collect::<Vec<_>>()
        .join(" ");
    let result = sanitize_fts_query(&many_tokens);
    let token_count = result.split_whitespace().count();
    assert_eq!(token_count, 100);
}

#[test]
fn test_search_fts_limit_capped() {
    let mut store = test_store();
    store.store(make_memory("test", "hello world")).unwrap();
    let results = store.search_fts("hello", 999_999).unwrap();
    assert!(results.len() <= 100);
}

#[test]
fn test_search_by_keywords_limit_capped() {
    let mut store = test_store();
    let mut mem = make_memory("test", "keyword search test");
    mem.keywords = vec!["findme".into()];
    store.store(mem).unwrap();
    let results = store.search_by_keywords(&["findme"], 999_999).unwrap();
    assert!(results.len() <= 100);
}

#[test]
fn test_search_fts_empty_query() {
    let mut store = test_store();
    store.store(make_memory("topic", "hello world")).unwrap();
    let results = store.search_fts("", 10).unwrap();
    assert!(results.is_empty());
}

#[test]
fn test_search_by_keywords_empty() {
    let store = test_store();
    let results = store.search_by_keywords(&[], 10).unwrap();
    assert!(results.is_empty());
}

#[test]
fn test_search_by_keywords_escapes_percent_wildcard() {
    let mut store = test_store();
    store
        .store(make_memory("t", "revenue grew by 100% year over year"))
        .unwrap();
    store
        .store(make_memory("t", "the report has exactly 100 lines total"))
        .unwrap();
    let results = store.search_by_keywords(&["100%"], 10).unwrap();
    assert_eq!(
        results.len(),
        1,
        "a literal '100%' keyword must match only rows containing that exact substring, got {} hits",
        results.len()
    );
    assert!(results[0].summary.contains("100%"));
}

#[test]
fn test_search_by_keywords_escapes_underscore_wildcard() {
    let mut store = test_store();
    store.store(make_memory("t", "uses snake_case naming")).unwrap();
    store
        .store(make_memory("t", "uses snakeXcase naming (not the real word)"))
        .unwrap();
    let results = store.search_by_keywords(&["snake_case"], 10).unwrap();
    assert_eq!(
        results.len(),
        1,
        "'_' in a keyword must be literal, not a single-char wildcard, got {} hits",
        results.len()
    );
    assert!(results[0].summary.contains("snake_case"));
}

#[test]
fn test_delete_nonexistent_memory() {
    let mut store = test_store();
    let result = store.delete("nonexistent-id");
    assert!(result.is_err());
}

#[test]
fn test_batch_update_access() {
    let mut store = test_store();
    let id1 = store.store(make_memory("t", "one")).unwrap();
    let id2 = store.store(make_memory("t", "two")).unwrap();
    store.batch_update_access(&[&id1, &id2]).unwrap();
    let m1 = store.get(&id1).unwrap().unwrap();
    let m2 = store.get(&id2).unwrap().unwrap();
    assert_eq!(m1.access_count, 1);
    assert_eq!(m2.access_count, 1);
}

#[test]
fn search_fts_ignores_case_and_ranks_by_weight() {
    let mut store = test_store();
    let mut light = make_memory("a", "Rust borrow checker notes");
    light.weight = 200_000;
    let heavy = make_memory("b", "the BORROW rules of rust");
    store.store(light).unwrap();
    store.store(heavy).unwrap();
    store.store(make_memory("c", "unrelated python notes")).unwrap();
    let results = store.search_fts("rust borrow", 10).unwrap();
    assert_eq!(results.len(), 2);
    assert_eq!(results[0].topic, "b");
    assert_eq!(results[1].topic, "a");
    let capped = store.search_fts("rust", 1).unwrap();
    assert_eq!(capped.len(), 1);
}

#[test]
fn search_by_keywords_matches_keyword_list_case_insensitively() {
    let mut store = test_store();
    let mut m = make_memory("t", "plain summary");
    m.keywords = vec!["Deployment".into()];
    store.store(m).unwrap();
    let results = store.search_by_keywords(&["deploy"], 10).unwrap();
    assert_eq!(results.len(), 1);
}

#[test]
fn update_access_counts_and_reports_missing() {
    let mut store = test_store();
    let id = store.store(make_memory("t", "one")).unwrap();
    store.update_access(&id).unwrap();
    store.update_access(&id).unwrap();
    assert_eq!(store.get(&id).unwrap().unwrap().access_count, 2);
    assert_eq!(
        store.update_access("missing"),
        Err(IcmError::NotFound("missing".into()))
    );
}

#[test]
fn test_update_nonexistent_memory() {
    let mut store = test_store();
    let mut mem = make_memory("t", "s");
    mem.id = "nonexistent-id".to_string();
    let result = store.update(&mem);
    assert!(result.is_err());
}
