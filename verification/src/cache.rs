//! The process-scoped token-mutation cache: a thread-safe map from a
//! token to its computed default mutation list, with an atomic
//! insert-if-absent so that each distinct token is computed at most
//! once even under concurrent access.

use vstd::prelude::*;

use crate::mutation::mutate_string::{is_plain_token_mutation, plain_token_mutations};

verus! {

/// The cache.  The map is private and has exactly one writer,
/// `get_or_compute`, which only ever publishes the default mutation
/// list of its key, so every value observed under a key is that key's
/// default mutation list.
#[verifier::external_body]
pub struct TokenCache {
    map: dashmap::DashMap<Vec<u8>, Vec<Vec<u8>>>,
}

impl TokenCache {
    /// Relies on dashmap's `DashMap::new`: an empty map.
    #[verifier::external_body]
    pub(crate) fn new() -> (r: TokenCache) {
        TokenCache { map: dashmap::DashMap::new() }
    }

    /// Relies on dashmap's `Entry::or_insert_with`: an atomic
    /// insert-if-absent that returns the value published under the
    /// key — either the one this call computes, or the one an earlier
    /// call to this function computed for the same key.
    #[verifier::external_body]
    pub(crate) fn get_or_compute(&self, token: &Vec<u8>) -> (r: Vec<Vec<u8>>)
        requires
            token@.len() < usize::MAX,
        ensures
            forall|m: Seq<u8>| #[trigger] r.deep_view().contains(m) <==> is_plain_token_mutation(
                token@,
                m,
            ),
    {
        self.map.entry(token.clone()).or_insert_with(|| plain_token_mutations(token)).value().clone()
    }
}

} // verus!
