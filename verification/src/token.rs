//! The token bundle: the six fields a completed OAuth grant carries, and the
//! rule that builds a bundle from the key-value pairs of a provider response.

use vstd::prelude::*;

use crate::num::{parse_i64, parse_i64_spec};
use crate::text::str_eq;

verus! {

/// The abstract value of a [`TokenBundle`]: its six fields as mathematical
/// values.
pub struct TokenBundleView {
    pub access_token: Seq<char>,
    pub expires_in: int,
    pub refresh_token: Seq<char>,
    pub refresh_token_expires_in: int,
    pub scope: Seq<char>,
    pub token_type: Seq<char>,
}

/// A completed OAuth grant, as the identity provider returns it.
///
/// Every bundle a successful exchange produces satisfies
/// [`TokenBundleView::wf`]: the four string fields are non-empty.
#[derive(Clone, Debug)]
pub struct TokenBundle {
    pub access_token: String,
    pub expires_in: i64,
    pub refresh_token: String,
    pub refresh_token_expires_in: i64,
    pub scope: String,
    pub token_type: String,
}

impl View for TokenBundle {
    type V = TokenBundleView;

    open spec fn view(&self) -> TokenBundleView {
        TokenBundleView {
            access_token: self.access_token@,
            expires_in: self.expires_in as int,
            refresh_token: self.refresh_token@,
            refresh_token_expires_in: self.refresh_token_expires_in as int,
            scope: self.scope@,
            token_type: self.token_type@,
        }
    }
}

impl TokenBundleView {
    /// A well-formed bundle: all string fields present and non-empty, the
    /// expiries within `i64`.
    pub open spec fn wf(self) -> bool {
        &&& self.access_token.len() > 0
        &&& self.refresh_token.len() > 0
        &&& self.scope.len() > 0
        &&& self.token_type.len() > 0
        &&& i64::MIN <= self.expires_in <= i64::MAX
        &&& i64::MIN <= self.refresh_token_expires_in <= i64::MAX
    }
}

/// The views of a vector of owned key-value pairs.
pub open spec fn pairs_view(ps: Seq<(String, String)>) -> Seq<(Seq<char>, Seq<char>)> {
    ps.map_values(|p: (String, String)| (p.0@, p.1@))
}

/// The value of the last pair carrying the given key, if any: a later pair
/// overwrites an earlier one with the same key.
pub open spec fn last_value(pairs: Seq<(Seq<char>, Seq<char>)>, key: Seq<char>) -> Option<
    Seq<char>,
>
    decreases pairs.len(),
{
    if pairs.len() == 0 {
        None
    } else if pairs.last().0 == key {
        Some(pairs.last().1)
    } else {
        last_value(pairs.drop_last(), key)
    }
}

/// The bundle a list of key-value pairs denotes: all six required keys must
/// be present, the string fields non-empty, and the two expiry fields must
/// parse as `i64`; unknown keys are skipped. `None` otherwise.
pub open spec fn bundle_from_pairs_spec(pairs: Seq<(Seq<char>, Seq<char>)>) -> Option<
    TokenBundleView,
> {
    let at = last_value(pairs, "access_token"@);
    let ei = last_value(pairs, "expires_in"@);
    let rt = last_value(pairs, "refresh_token"@);
    let rte = last_value(pairs, "refresh_token_expires_in"@);
    let sc = last_value(pairs, "scope"@);
    let tt = last_value(pairs, "token_type"@);
    if at is Some && ei is Some && rt is Some && rte is Some && sc is Some && tt is Some
        && parse_i64_spec(ei->0) is Some && parse_i64_spec(rte->0) is Some && at->0.len() > 0
        && rt->0.len() > 0 && sc->0.len() > 0 && tt->0.len() > 0 {
        Some(
            TokenBundleView {
                access_token: at->0,
                expires_in: parse_i64_spec(ei->0)->0,
                refresh_token: rt->0,
                refresh_token_expires_in: parse_i64_spec(rte->0)->0,
                scope: sc->0,
                token_type: tt->0,
            },
        )
    } else {
        None
    }
}

/// Every bundle built from pairs is well-formed.
pub proof fn lemma_bundle_from_pairs_wf(pairs: Seq<(Seq<char>, Seq<char>)>)
    ensures
        bundle_from_pairs_spec(pairs) is Some ==> bundle_from_pairs_spec(pairs)->0.wf(),
{
}

proof fn lemma_last_value_push(pairs: Seq<(Seq<char>, Seq<char>)>, p: (Seq<char>, Seq<char>), key: Seq<char>)
    ensures
        last_value(pairs.push(p), key) == if p.0 == key {
            Some(p.1)
        } else {
            last_value(pairs, key)
        },
{
    assert(pairs.push(p).drop_last() =~= pairs);
    assert(pairs.push(p).last() == p);
}

/// Builds a token bundle from the key-value pairs of a provider response,
/// exactly where `bundle_from_pairs_spec` gives one.
pub fn bundle_from_pairs(pairs: &Vec<(String, String)>) -> (r: Option<TokenBundle>)
    ensures
        match r {
            Some(b) => bundle_from_pairs_spec(pairs_view(pairs@)) == Some(b@),
            None => bundle_from_pairs_spec(pairs_view(pairs@)) is None,
        },
{
    let ghost views = pairs_view(pairs@);
    let mut access_token: Option<String> = None;
    let mut expires_in: Option<String> = None;
    let mut refresh_token: Option<String> = None;
    let mut refresh_token_expires_in: Option<String> = None;
    let mut scope: Option<String> = None;
    let mut token_type: Option<String> = None;

    let n = pairs.len();
    for i in 0..n
        invariant
            n == pairs@.len(),
            views == pairs_view(pairs@),
            views.len() == n,
            opt_view(access_token) == last_value(views.take(i as int), "access_token"@),
            opt_view(expires_in) == last_value(views.take(i as int), "expires_in"@),
            opt_view(refresh_token) == last_value(views.take(i as int), "refresh_token"@),
            opt_view(refresh_token_expires_in) == last_value(
                views.take(i as int),
                "refresh_token_expires_in"@,
            ),
            opt_view(scope) == last_value(views.take(i as int), "scope"@),
            opt_view(token_type) == last_value(views.take(i as int), "token_type"@),
    {
        let p = &pairs[i];
        proof {
            reveal_strlit("access_token");
            reveal_strlit("expires_in");
            reveal_strlit("refresh_token");
            reveal_strlit("refresh_token_expires_in");
            reveal_strlit("scope");
            reveal_strlit("token_type");
            assert("access_token"@.len() == 12);
            assert("expires_in"@.len() == 10);
            assert("refresh_token"@.len() == 13);
            assert("refresh_token_expires_in"@.len() == 24);
            assert("scope"@.len() == 5);
            assert("token_type"@.len() == 10);
            assert("expires_in"@[0] == 'e' && "token_type"@[0] == 't');
            assert(views[i as int] == (pairs@[i as int].0@, pairs@[i as int].1@));
            assert(views.take(i + 1).drop_last() =~= views.take(i as int));
            assert(views.take(i + 1).last() == views[i as int]);
            lemma_last_value_push(views.take(i as int), views[i as int], "access_token"@);
            lemma_last_value_push(views.take(i as int), views[i as int], "expires_in"@);
            lemma_last_value_push(views.take(i as int), views[i as int], "refresh_token"@);
            lemma_last_value_push(
                views.take(i as int),
                views[i as int],
                "refresh_token_expires_in"@,
            );
            lemma_last_value_push(views.take(i as int), views[i as int], "scope"@);
            lemma_last_value_push(views.take(i as int), views[i as int], "token_type"@);
            assert(views.take(i as int).push(views[i as int]) =~= views.take(i + 1));
        }
        if str_eq(p.0.as_str(), "access_token") {
            access_token = Some(p.1.clone());
        } else if str_eq(p.0.as_str(), "expires_in") {
            expires_in = Some(p.1.clone());
        } else if str_eq(p.0.as_str(), "refresh_token") {
            refresh_token = Some(p.1.clone());
        } else if str_eq(p.0.as_str(), "refresh_token_expires_in") {
            refresh_token_expires_in = Some(p.1.clone());
        } else if str_eq(p.0.as_str(), "scope") {
            scope = Some(p.1.clone());
        } else if str_eq(p.0.as_str(), "token_type") {
            token_type = Some(p.1.clone());
        }
    }
    proof {
        assert(views.take(n as int) =~= views);
    }

    let at = match access_token {
        Some(s) => s,
        None => { return None; },
    };
    let ei = match expires_in {
        Some(s) => s,
        None => { return None; },
    };
    let rt = match refresh_token {
        Some(s) => s,
        None => { return None; },
    };
    let rte = match refresh_token_expires_in {
        Some(s) => s,
        None => { return None; },
    };
    let sc = match scope {
        Some(s) => s,
        None => { return None; },
    };
    let tt = match token_type {
        Some(s) => s,
        None => { return None; },
    };

    let ei_n = match parse_i64(ei.as_str()) {
        Some(v) => v,
        None => { return None; },
    };
    let rte_n = match parse_i64(rte.as_str()) {
        Some(v) => v,
        None => { return None; },
    };
    if at.as_str().is_empty() || rt.as_str().is_empty() || sc.as_str().is_empty()
        || tt.as_str().is_empty() {
        return None;
    }

    Some(
        TokenBundle {
            access_token: at,
            expires_in: ei_n,
            refresh_token: rt,
            refresh_token_expires_in: rte_n,
            scope: sc,
            token_type: tt,
        },
    )
}

/// The view of an optional owned string.
spec fn opt_view(o: Option<String>) -> Option<Seq<char>> {
    match o {
        Some(s) => Some(s@),
        None => None,
    }
}

} // verus!
