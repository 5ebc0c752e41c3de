//! The Token Exchange step: parse the identity provider's response (either
//! of its two shapes), and on success deposit the bundle in the ephemeral
//! store under a freshly generated handle. A malformed response issues no
//! handle and leaves the store unchanged.

use vstd::prelude::*;

use dashmap::DashMap;

use crate::form::{
    borrowed_pairs_view, form_encoding, lemma_form_round_trip, lemma_pairs_of_no_eq, pairs_of,
    querify,
};
use crate::handle::{generate_handle, is_handle_char, HANDLE_LEN};
use crate::json::{
    bundle_pairs, json_of, json_pairs, json_pairs_spec, lemma_bundle_pairs_decode,
    lemma_json_of_free_of_eq, lemma_json_round_trip,
};
use crate::store::{store_contents, store_insert};
use crate::text::free_of;
use crate::token::{
    bundle_from_pairs, bundle_from_pairs_spec, pairs_view, TokenBundle, TokenBundleView,
};

verus! {

/// The bundle a token response denotes: the form-encoded reading wherever it
/// yields a complete bundle, else the JSON reading.
pub open spec fn parse_response_spec(s: Seq<char>) -> Option<TokenBundleView> {
    if bundle_from_pairs_spec(pairs_of(s)) is Some {
        bundle_from_pairs_spec(pairs_of(s))
    } else {
        match json_pairs_spec(s) {
            Some(ps) => bundle_from_pairs_spec(ps),
            None => None,
        }
    }
}

/// Parses a token response in either of the provider's two shapes, exactly
/// where `parse_response_spec` gives a bundle.
pub fn parse_token_response(body: &str) -> (r: Option<TokenBundle>)
    ensures
        match r {
            Some(b) => parse_response_spec(body@) == Some(b@),
            None => parse_response_spec(body@) is None,
        },
{
    let fp = querify(body);
    let mut owned: Vec<(String, String)> = Vec::new();
    let n = fp.len();
    for i in 0..n
        invariant
            n == fp@.len(),
            borrowed_pairs_view(fp@) == pairs_of(body@),
            owned@.len() == i,
            pairs_view(owned@) == borrowed_pairs_view(fp@).take(i as int),
    {
        let p = &fp[i];
        let k = String::from_str(p.0);
        let v = String::from_str(p.1);
        let ghost pre = owned@;
        owned.push((k, v));
        proof {
            assert(owned@ == pre.push((k, v)));
            assert(borrowed_pairs_view(fp@)[i as int] == (fp@[i as int].0@, fp@[i as int].1@));
            assert forall|j: int| 0 <= j <= i implies pairs_view(owned@)[j] == borrowed_pairs_view(
                fp@,
            )[j] by {
                if j < i {
                    assert(owned@[j] == pre[j]);
                    assert(pairs_view(pre)[j] == borrowed_pairs_view(fp@).take(i as int)[j]);
                } else {
                    assert(owned@[j] == (k, v));
                }
            }
            assert(pairs_view(owned@) =~= borrowed_pairs_view(fp@).take(i + 1));
        }
    }
    proof {
        assert(borrowed_pairs_view(fp@).take(n as int) =~= borrowed_pairs_view(fp@));
    }
    match bundle_from_pairs(&owned) {
        Some(b) => Some(b),
        None => match json_pairs(body) {
            Some(ps) => bundle_from_pairs(&ps),
            None => None,
        },
    }
}

/// Completes the exchange step: parses the provider's response, draws a
/// fresh handle, and deposits the bundle under it. On a malformed response
/// no handle is issued and the store is unchanged.
pub fn exchange(store: &mut DashMap<String, TokenBundle>, body: &str) -> (r: Option<String>)
    ensures
        match r {
            Some(h) => {
                &&& parse_response_spec(body@) is Some
                &&& store_contents(*final(store)) == store_contents(*old(store)).insert(
                    h@,
                    parse_response_spec(body@)->0,
                )
                &&& h@.len() == HANDLE_LEN as nat
                &&& forall|i: int| 0 <= i < h@.len() ==> is_handle_char(#[trigger] h@[i])
            },
            None => parse_response_spec(body@) is None && store_contents(*final(store))
                == store_contents(*old(store)),
        },
{
    match parse_token_response(body) {
        Some(b) => {
            let h = generate_handle();
            let issued = h.clone();
            store_insert(store, h, b);
            Some(issued)
        },
        None => None,
    }
}

/// A handle the exchange has just deposited, looked up at once, yields
/// exactly the bundle that was inserted.
pub proof fn lemma_exchange_lookup(
    e: Map<Seq<char>, TokenBundleView>,
    handle: Seq<char>,
    b: TokenBundleView,
)
    ensures
        e.insert(handle, b).contains_key(handle),
        e.insert(handle, b)[handle] == b,
{
}

/// The two response shapes agree: a response carrying the six fields of a
/// well-formed bundle parses to exactly those values, whether the provider
/// sent it form-encoded or as JSON. The string fields may not carry the
/// form separators `&` and `=`.
pub proof fn lemma_shapes_agree(b: TokenBundleView)
    requires
        b.wf(),
        free_of(b.access_token, '&'),
        free_of(b.access_token, '='),
        free_of(b.refresh_token, '&'),
        free_of(b.refresh_token, '='),
        free_of(b.scope, '&'),
        free_of(b.scope, '='),
        free_of(b.token_type, '&'),
        free_of(b.token_type, '='),
    ensures
        parse_response_spec(form_encoding(b)) == Some(b),
        parse_response_spec(json_of(b)) == Some(b),
{
    lemma_form_round_trip(b);
    lemma_bundle_pairs_decode(b);
    assert(bundle_from_pairs_spec(pairs_of(form_encoding(b))) == Some(b));

    lemma_json_of_free_of_eq(b);
    lemma_pairs_of_no_eq(json_of(b));
    assert(pairs_of(json_of(b)).len() == 0);
    assert(bundle_from_pairs_spec(pairs_of(json_of(b))) is None);
    lemma_json_round_trip(b);
    assert(json_pairs_spec(json_of(b)) == Some(bundle_pairs(b)));
    assert(parse_response_spec(json_of(b)) == Some(b));
}

} // verus!
