//! The Ephemeral Handle Store: a concurrent map from handle strings to token
//! bundles. The map itself is dashmap's; its contents are named by
//! `store_contents`, and each operation the protocol uses is a trusted
//! wrapper whose contract states what dashmap's source shows.

use vstd::prelude::*;

use dashmap::DashMap;

use crate::token::{TokenBundle, TokenBundleView};

verus! {

#[verifier::external_type_specification]
#[verifier::external_body]
#[verifier::reject_recursive_types(K)]
#[verifier::reject_recursive_types(V)]
#[verifier::reject_recursive_types(S)]
pub struct ExDashMap<K, V, S>(DashMap<K, V, S>);

/// What the ephemeral handle store holds: each handle mapped to the bundle
/// deposited under it.
pub uninterp spec fn store_contents(m: DashMap<String, TokenBundle>) -> Map<
    Seq<char>,
    TokenBundleView,
>;

/// Creates an empty ephemeral handle store.
///
/// Relies on dashmap::DashMap::new: a new map holds no entries.
#[verifier::external_body]
pub fn store_new() -> (store: DashMap<String, TokenBundle>)
    ensures
        ({
            let fresh = store;
            store_contents(fresh) == Map::<Seq<char>, TokenBundleView>::empty()
        }),
{
    DashMap::new()
}

/// Deposits a bundle under a handle.
///
/// Relies on dashmap::DashMap::insert: maps the key to the value, replacing
/// any earlier value under the same key (last write wins).
#[verifier::external_body]
pub fn store_insert(m: &mut DashMap<String, TokenBundle>, handle: String, bundle: TokenBundle)
    ensures
        store_contents(*final(m)) == store_contents(*old(m)).insert(handle@, bundle@),
{
    m.insert(handle, bundle);
}

/// Reads the bundle under a handle without consuming it.
///
/// Relies on dashmap::DashMap::get: returns the value under the key exactly
/// when the key is present; the clone out of the read guard is this
/// wrapper's own.
#[verifier::external_body]
pub fn store_get(m: &DashMap<String, TokenBundle>, handle: &str) -> (r: Option<TokenBundle>)
    ensures
        match r {
            Some(b) => store_contents(*m).contains_key(handle@) && store_contents(*m)[handle@]
                == b@,
            None => !store_contents(*m).contains_key(handle@),
        },
{
    m.get(handle).map(|g| g.value().clone())
}

/// Deletes the entry under a handle; removing an absent handle is a no-op.
///
/// Relies on dashmap::DashMap::remove: deletes the entry under the key if
/// one exists.
#[verifier::external_body]
pub fn store_remove(m: &mut DashMap<String, TokenBundle>, handle: &str)
    ensures
        store_contents(*final(m)) == store_contents(*old(m)).remove(handle@),
{
    m.remove(handle);
}

} // verus!
