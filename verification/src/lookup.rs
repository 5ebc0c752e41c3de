//! The Gated Lookup: a shared-secret check in front of a durable-store read.
//! Any wrong or missing secret fails closed, with no distinction between the
//! two in the outcome; with the right secret the caller gets the exact
//! stored record, or a distinct not-found failure.

use vstd::prelude::*;

use crate::json::json_of;
use crate::link::link_run;
use crate::text::str_eq;
use crate::token::TokenBundleView;

verus! {

/// The outcome of a gated lookup over the durable store's contents.
pub enum LookupOutcome {
    /// The secret was wrong or missing; nothing is revealed.
    Rejected,
    /// The secret was right but the key holds no record.
    NotFound,
    /// The secret was right: the exact stored record.
    Found(Seq<char>),
}

/// What a gated lookup returns, over the durable store's contents: rejection
/// for any wrong or missing secret, whether or not the key exists; with the
/// right secret, the stored record or not-found.
pub open spec fn gated_lookup_spec(
    d: Map<Seq<char>, Seq<char>>,
    identity: Seq<char>,
    provided: Option<Seq<char>>,
    expected: Seq<char>,
) -> LookupOutcome {
    if provided != Some(expected) {
        LookupOutcome::Rejected
    } else if !d.contains_key(identity) {
        LookupOutcome::NotFound
    } else {
        LookupOutcome::Found(d[identity])
    }
}

/// Checks the caller's secret against the configured one: accepted exactly
/// when present and equal, character for character.
pub fn check_secret(provided: Option<&str>, expected: &str) -> (r: bool)
    ensures
        r == match provided {
            Some(p) => p@ == expected@,
            None => false,
        },
{
    match provided {
        Some(p) => str_eq(p, expected),
        None => false,
    }
}
// An accepted secret is exactly one whose view equals the expected view, so
// `check_secret` decides the `Rejected` case of `gated_lookup_spec`.

/// A wrong or missing secret is rejected, whatever the durable store holds:
/// the outcome does not depend on whether the key exists.
pub proof fn lemma_lookup_fails_closed(
    d: Map<Seq<char>, Seq<char>>,
    identity: Seq<char>,
    provided: Option<Seq<char>>,
    expected: Seq<char>,
)
    requires
        provided != Some(expected),
    ensures
        gated_lookup_spec(d, identity, provided, expected) is Rejected,
{
}

/// With the correct secret, a gated lookup after a successful link returns
/// exactly the record the link wrote: the serialized bundle round-trips
/// through the durable store unchanged.
pub proof fn lemma_lookup_after_link(
    e: Map<Seq<char>, TokenBundleView>,
    d: Map<Seq<char>, Seq<char>>,
    handle: Seq<char>,
    identity: Seq<char>,
    expected: Seq<char>,
)
    requires
        e.contains_key(handle),
    ensures
        ({
            let after = link_run(e, d, handle, identity, true);
            gated_lookup_spec(after.1, identity, Some(expected), expected)
                == LookupOutcome::Found(json_of(e[handle]))
        }),
{
}

} // verus!
