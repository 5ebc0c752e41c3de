//! The Linking Protocol: look a handle up in the ephemeral store, serialize
//! the bundle it names, write the record to the durable store under the
//! external identity, and only then evict the handle. The durable store is a
//! remote service, so a run is two verified steps around the caller's write;
//! `link_run` states the whole run over the two stores' contents.

use vstd::prelude::*;

use dashmap::DashMap;

use crate::json::{json_of, serialize_bundle};
use crate::store::{store_contents, store_get, store_remove};
use crate::token::{TokenBundle, TokenBundleView};

verus! {

/// How one Linking Protocol run ended.
pub enum LinkResult {
    /// The record was written and the handle consumed.
    Linked,
    /// The handle was unknown or already consumed; nothing changed.
    HandleNotFound,
    /// The durable write failed; nothing changed, the link may be retried.
    StoreUnavailable,
}

/// One Linking Protocol run over the contents of the two stores: the
/// ephemeral contents afterwards, the durable contents afterwards, and the
/// reported outcome. `write_succeeds` is whether the durable write, if one
/// is attempted, succeeds.
pub open spec fn link_run(
    e: Map<Seq<char>, TokenBundleView>,
    d: Map<Seq<char>, Seq<char>>,
    handle: Seq<char>,
    identity: Seq<char>,
    write_succeeds: bool,
) -> (Map<Seq<char>, TokenBundleView>, Map<Seq<char>, Seq<char>>, LinkResult) {
    if !e.contains_key(handle) {
        (e, d, LinkResult::HandleNotFound)
    } else if !write_succeeds {
        (e, d, LinkResult::StoreUnavailable)
    } else {
        (e.remove(handle), d.insert(identity, json_of(e[handle])), LinkResult::Linked)
    }
}

/// Step one of a link: looks the handle up and serializes the bundle it
/// names. Returns the record to write, or `None` exactly when the handle is
/// absent. The store is not changed.
pub fn prepare_link(store: &DashMap<String, TokenBundle>, handle: &str) -> (r: Option<String>)
    ensures
        match r {
            Some(record) => store_contents(*store).contains_key(handle@) && record@ == json_of(
                store_contents(*store)[handle@],
            ),
            None => !store_contents(*store).contains_key(handle@),
        },
{
    match store_get(store, handle) {
        Some(b) => Some(serialize_bundle(&b)),
        None => None,
    }
}

/// Step two of a link, once the durable write's outcome is known: a
/// successful write consumes the handle; a failed one leaves the store
/// unchanged, so the link may be retried without a new exchange.
pub fn finish_link(store: &mut DashMap<String, TokenBundle>, handle: &str, write_succeeded: bool)
    ensures
        write_succeeded ==> store_contents(*final(store)) == store_contents(*old(store)).remove(
            handle@,
        ),
        !write_succeeded ==> store_contents(*final(store)) == store_contents(*old(store)),
{
    if write_succeeded {
        store_remove(store, handle);
    }
}

/// After a successful link of a handle, the handle is gone: a second run
/// with it reports not-found, whatever identity it names and whether or not
/// its write would succeed; and the durable store holds the serialized
/// bundle under the identity key.
pub proof fn lemma_link_consumes_handle(
    e: Map<Seq<char>, TokenBundleView>,
    d: Map<Seq<char>, Seq<char>>,
    handle: Seq<char>,
    identity: Seq<char>,
    identity2: Seq<char>,
    w2: bool,
)
    requires
        e.contains_key(handle),
    ensures
        ({
            let after = link_run(e, d, handle, identity, true);
            &&& after.2 is Linked
            &&& !after.0.contains_key(handle)
            &&& after.1.contains_key(identity)
            &&& after.1[identity] == json_of(e[handle])
            &&& link_run(after.0, after.1, handle, identity2, w2).2 is HandleNotFound
        }),
{
}

/// A failed durable write changes neither store and reports the store
/// unavailable: the handle stays, and the same run with a succeeding write
/// then links.
pub proof fn lemma_link_retry_safe(
    e: Map<Seq<char>, TokenBundleView>,
    d: Map<Seq<char>, Seq<char>>,
    handle: Seq<char>,
    identity: Seq<char>,
)
    requires
        e.contains_key(handle),
    ensures
        ({
            let after = link_run(e, d, handle, identity, false);
            &&& after.0 == e
            &&& after.1 == d
            &&& after.2 is StoreUnavailable
            &&& link_run(after.0, after.1, handle, identity, true).2 is Linked
        }),
{
}

} // verus!
