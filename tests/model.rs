use torm::{collection_pattern, default_limit, found_or_missing, record_key, Error, MIGRATIONS_KEY};

#[test]
fn keys_join_collection_and_id() {
    assert_eq!(record_key("user", "42"), "user:42");
    assert_eq!(collection_pattern("user"), "user:*");
    assert_eq!(MIGRATIONS_KEY, "torm:migrations");
}

#[test]
fn find_by_id_on_a_missing_key_is_not_found() {
    match found_or_missing("user:404", None) {
        Err(Error::NotFound(k)) => assert_eq!(k, "user:404"),
        other => panic!("expected not found, got {:?}", other),
    }
    assert_eq!(found_or_missing("user:1", Some("{}".to_string())).unwrap(), "{}");
}

#[test]
fn key_listing_defaults_to_one_hundred() {
    assert_eq!(default_limit(), 100);
}
