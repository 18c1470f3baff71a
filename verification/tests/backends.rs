use icm_store::backends::{DecayStep, OpenSearchStore, PostgresStore, AUTO_DECAY_FACTOR_PERMILLE, DAY_MILLIS};
use icm_store::encode::{escape_like_wildcards, url_encode_path_segment};
use icm_store::model::{IcmError, Importance, Memory};

#[test]
fn test_url_encode_path_segment() {
    assert_eq!(
        url_encode_path_segment("abc-DEF_123.~"),
        "abc-DEF_123.~",
        "unreserved chars must pass through unchanged"
    );
    assert_eq!(url_encode_path_segment("a/b"), "a%2Fb");
    assert_eq!(url_encode_path_segment("../secret"), "..%2Fsecret");
    assert_eq!(url_encode_path_segment("id?x=1"), "id%3Fx%3D1");
    assert_eq!(url_encode_path_segment("id#frag"), "id%23frag");
    assert_eq!(url_encode_path_segment("a b"), "a%20b");
}

#[test]
fn test_escape_like_wildcards() {
    assert_eq!(escape_like_wildcards("100%"), "100\\%");
    assert_eq!(escape_like_wildcards("snake_case"), "snake\\_case");
    assert_eq!(escape_like_wildcards("back\\slash"), "back\\\\slash");
    assert_eq!(escape_like_wildcards("plain"), "plain");
}

#[test]
fn tests_test_apply_decay_formula_would_go_negative_without_clamp() {
    let factor: f64 = 0.4;
    let mult: f64 = 2.0; // low importance
    let access: f64 = 0.0;
    let raw = 1.0 - (1.0 - factor) * mult / (1.0 + access * 0.1);
    assert!(
        raw < 0.0,
        "expected the pre-clamp formula to go negative, got {raw}"
    );
    assert_eq!(raw.max(0.0), 0.0, "GREATEST(0.0, ...) must clamp this to 0.0");
}

#[test]
fn postgres_auto_decay_claims_then_decays() {
    let pg = PostgresStore { readonly: false };
    assert_eq!(pg.maybe_auto_decay(None), DecayStep::ClaimSlot);
    assert_eq!(
        pg.maybe_auto_decay(Some(1)),
        DecayStep::ApplyDecay { factor_permille: AUTO_DECAY_FACTOR_PERMILLE }
    );
    assert_eq!(pg.maybe_auto_decay(Some(0)), DecayStep::Done);
    let ro = PostgresStore { readonly: true };
    assert_eq!(ro.maybe_auto_decay(None), DecayStep::Done);
    assert_eq!(AUTO_DECAY_FACTOR_PERMILLE, 950);
}

#[test]
fn opensearch_auto_decay_follows_changed_flag() {
    let os = OpenSearchStore { readonly: false };
    assert_eq!(os.maybe_auto_decay(None), DecayStep::ClaimSlot);
    assert_eq!(
        os.maybe_auto_decay(Some(Some(true))),
        DecayStep::ApplyDecay { factor_permille: 950 }
    );
    assert_eq!(os.maybe_auto_decay(Some(Some(false))), DecayStep::Done);
    assert_eq!(os.maybe_auto_decay(Some(None)), DecayStep::Done);
    let ro = OpenSearchStore { readonly: true };
    assert_eq!(ro.maybe_auto_decay(Some(Some(true))), DecayStep::Done);
}

#[test]
fn postgres_unsupported_operations() {
    let pg = PostgresStore { readonly: false };
    assert_eq!(pg.auto_consolidate("t", 1), Ok(false));
    assert_eq!(pg.auto_consolidate_with_embedder("t", 1, None), Ok(false));
    match pg.detect_patterns("t", 2) {
        Err(IcmError::Unsupported(m)) => {
            assert_eq!(m, "detect_patterns (use the default SQLite backend)")
        }
        other => panic!("expected Unsupported, got {other:?}"),
    }
    let os = OpenSearchStore { readonly: false };
    assert_eq!(os.auto_consolidate("t", 0), Ok(false));
}

#[test]
fn postgres_query_parameters() {
    let pg = PostgresStore { readonly: false };
    assert_eq!(pg.get_by_topic_prefix("100%_x"), "100\\%\\_x%");
    assert_eq!(pg.list_topics_with_prefix(Some("proj")), Some("proj%".to_string()));
    assert_eq!(pg.list_topics_with_prefix(None), None);
    assert_eq!(PostgresStore::get_many_ids(&[]), None);
    assert_eq!(
        PostgresStore::get_many_ids(&["a", "b"]),
        Some(vec!["a".to_string(), "b".to_string()])
    );
}

#[test]
fn postgres_get_many_keys_rows_by_id() {
    let pg = PostgresStore { readonly: false };
    let a = Memory::new("t".into(), "first".into(), Importance::Medium);
    let mut a2 = a.clone();
    a2.summary = "second".into();
    let b = Memory::new("t".into(), "other".into(), Importance::Low);
    let map = pg
        .get_many(&[a.id.as_str(), b.id.as_str()], vec![a.clone(), b.clone(), a2])
        .unwrap();
    assert_eq!(map.len(), 2);
    assert_eq!(map.get(&a.id).unwrap().summary, "second");
    assert_eq!(map.get(&b.id).unwrap().summary, "other");
    let empty = pg.get_many(&[], vec![a]).unwrap();
    assert!(empty.is_empty());
}

#[test]
fn decay_claim_is_due_once_a_day() {
    let claim = OpenSearchStore::claim_decay_slot;
    assert_eq!(claim(None, 1_000), (Some(1_000), true));
    assert_eq!(claim(Some(1_000), 1_000 + DAY_MILLIS - 1), (Some(1_000), false));
    assert_eq!(claim(Some(1_000), 1_000 + DAY_MILLIS), (Some(1_000 + DAY_MILLIS), true));
    assert_eq!(claim(Some(i64::MAX), i64::MIN), (Some(i64::MAX), false));
    assert_eq!(claim(Some(i64::MIN), i64::MAX), (Some(i64::MAX), true));
    let (slot, first) = claim(None, 5);
    let (_, second) = claim(slot, 5 + 3_600_000);
    assert!(first);
    assert!(!second);
}

#[test]
fn postgres_decay_claim_needs_more_than_a_day() {
    let claim = PostgresStore::claim_decay_slot;
    assert_eq!(claim(None, 7), (Some(7), true));
    assert_eq!(claim(Some(1_000), 1_000 + DAY_MILLIS), (Some(1_000), false));
    assert_eq!(claim(Some(1_000), 1_000 + DAY_MILLIS + 1), (Some(1_001 + DAY_MILLIS), true));
    assert_eq!(claim(Some(i64::MIN), i64::MAX), (Some(i64::MAX), true));
    let (slot, first) = claim(None, 5);
    let (_, second) = claim(slot, 5 + DAY_MILLIS);
    assert!(first);
    assert!(!second);
}

#[test]
fn hybrid_search_pool_sizes() {
    assert_eq!(PostgresStore::hybrid_pool(10), (10, 40));
    assert_eq!(PostgresStore::hybrid_pool(1000), (1000, 4000));
    assert_eq!(PostgresStore::hybrid_pool(5000), (1000, 4000));
    assert_eq!(PostgresStore::hybrid_pool(0), (0, 0));
}
