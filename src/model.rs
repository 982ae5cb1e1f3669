use vstd::prelude::*;
use vstd::string::StringExecFns;
use crate::error::{Error, Result};

verus! {

/// The store key under which the migration bookkeeping is kept.
pub const MIGRATIONS_KEY: &'static str = "torm:migrations";

/// How many keys a key listing shows when the caller does not say.
pub fn default_limit() -> (r: usize)
    ensures
        r == 100,
{
    100
}

/// The store key of the record `id` of `collection`: `collection:id`.
pub fn record_key(collection: &str, id: &str) -> (r: String)
    ensures
        r@ == collection@ + ":"@ + id@,
{
    proof { reveal_strlit(":"); }
    let mut key = String::from_str(collection);
    key.append(":");
    key.append(id);
    key
}

/// The key pattern that lists every record of `collection`: `collection:*`.
pub fn collection_pattern(collection: &str) -> (r: String)
    ensures
        r@ == collection@ + ":*"@,
{
    proof { reveal_strlit(":*"); }
    let mut pattern = String::from_str(collection);
    pattern.append(":*");
    pattern
}

/// The outcome of looking up one record by its key: what the store held
/// under it, or a not-found error that names the key.
pub fn found_or_missing(key: &str, fetched: Option<String>) -> (r: Result<String>)
    ensures
        fetched matches Some(v) ==> r == Ok::<String, Error>(v),
        fetched is None ==> (r matches Err(Error::NotFound(k)) && k@ == key@),
{
    match fetched {
        Some(v) => Ok(v),
        None => Err(Error::NotFound(String::from_str(key))),
    }
}

} // verus!
