//! Form-encoded responses: splitting `k=v` pairs joined by `&`, as the
//! identity provider's token endpoint historically returns them.

use vstd::prelude::*;

use crate::json::bundle_pairs;
use crate::num::{dec_i64_of, dec_of, is_digit, lemma_dec_of_digits};
use crate::text::{free_of, lemma_free_of_concat};
use crate::token::TokenBundleView;

verus! {

/// The index of the first occurrence of `sep` in `s`, or `s.len()` if none.
pub open spec fn find_char(s: Seq<char>, sep: char) -> nat
    decreases s.len(),
{
    if s.len() == 0 {
        0
    } else if s[0] == sep {
        0
    } else {
        (1 + find_char(s.skip(1), sep)) as nat
    }
}

pub proof fn lemma_find_char_le(s: Seq<char>, sep: char)
    ensures
        find_char(s, sep) <= s.len(),
    decreases s.len(),
{
    if s.len() > 0 && s[0] != sep {
        lemma_find_char_le(s.skip(1), sep);
    }
}

/// `find_char` returns exactly the first position of `sep`.
pub proof fn lemma_find_char_at(s: Seq<char>, sep: char, j: int)
    requires
        0 <= j <= s.len(),
        forall|k: int| 0 <= k < j ==> s[k] != sep,
        j < s.len() ==> s[j] == sep,
    ensures
        find_char(s, sep) == j,
    decreases j,
{
    if j == 0 {
    } else {
        assert(s[0] != sep);
        let t = s.skip(1);
        assert(forall|k: int| 0 <= k < j - 1 ==> t[k] == s[k + 1] && s[k + 1] != sep);
        assert(j - 1 < t.len() ==> t[j - 1] == s[j as int]);
        lemma_find_char_at(t, sep, j - 1);
    }
}

/// The key-value pair a single `&`-delimited segment yields: `None` when the
/// segment has no `=`; otherwise the key is the text before the first `=`
/// and the value the text between the first and the second `=` (or the rest
/// of the segment when there is no second `=`).
pub open spec fn pair_of_segment(seg: Seq<char>) -> Option<(Seq<char>, Seq<char>)> {
    let e = find_char(seg, '=');
    if e >= seg.len() {
        None
    } else {
        let key = seg.take(e as int);
        let rest = seg.skip(e as int + 1);
        let e2 = find_char(rest, '=');
        Some((key, if e2 >= rest.len() { rest } else { rest.take(e2 as int) }))
    }
}

/// The key-value pairs of a form-encoded body: split on `&`, one optional
/// pair per segment.
pub open spec fn pairs_of(s: Seq<char>) -> Seq<(Seq<char>, Seq<char>)>
    decreases s.len(),
{
    let a = find_char(s, '&');
    if a >= s.len() {
        match pair_of_segment(s) {
            Some(p) => seq![p],
            None => seq![],
        }
    } else {
        let rest = pairs_of(s.skip(a as int + 1));
        match pair_of_segment(s.take(a as int)) {
            Some(p) => seq![p] + rest,
            None => rest,
        }
    }
}

/// The views of a vector of borrowed key-value pairs.
pub open spec fn borrowed_pairs_view(ps: Seq<(&str, &str)>) -> Seq<(Seq<char>, Seq<char>)> {
    ps.map_values(|p: (&str, &str)| (p.0@, p.1@))
}

/// Finds the first occurrence of `sep` in `s` between `from` and `to`.
fn find_in(s: &str, from: usize, to: usize, sep: char) -> (r: usize)
    requires
        from <= to <= s@.len(),
    ensures
        from <= r <= to,
        r - from == find_char(s@.subrange(from as int, to as int), sep),
{
    let ghost seg = s@.subrange(from as int, to as int);
    let mut i = from;
    while i < to && s.get_char(i) != sep
        invariant
            from <= i <= to <= s@.len(),
            seg == s@.subrange(from as int, to as int),
            forall|k: int| from <= k < i ==> s@[k] != sep,
        decreases to - i,
    {
        i += 1;
    }
    proof {
        assert(forall|k: int| 0 <= k < i - from ==> seg[k] == s@[k + from] && s@[k + from] != sep);
        if i < to {
            assert(seg[i - from] == s@[i as int]);
        }
        lemma_find_char_at(seg, sep, i - from);
    }
    i
}

/// Splits the tail of `string` beginning at `pos` into key-value pairs.
fn querify_from<'a>(string: &'a str, pos: usize) -> (r: Vec<(&'a str, &'a str)>)
    requires
        pos <= string@.len(),
    ensures
        borrowed_pairs_view(r@) == pairs_of(string@.skip(pos as int)),
    decreases string@.len() - pos,
{
    let n = string.unicode_len();
    let ghost tail = string@.skip(pos as int);
    proof {
        assert(tail =~= string@.subrange(pos as int, n as int));
    }
    let a = find_in(string, pos, n, '&');
    let ghost fa = find_char(tail, '&');
    let ghost seg = if fa >= tail.len() { tail } else { tail.take(fa as int) };
    proof {
        assert(seg =~= string@.subrange(pos as int, a as int));
    }

    let mut out: Vec<(&'a str, &'a str)> = Vec::new();
    // the current segment is string[pos..a]
    let e = find_in(string, pos, a, '=');
    proof {
        lemma_find_char_le(seg, '=');
    }
    if e < a {
        let key = string.substring_char(pos, e);
        let ghost rest_s = seg.skip((e - pos) as int + 1);
        proof {
            assert(rest_s =~= string@.subrange(e as int + 1, a as int));
        }
        let e2 = find_in(string, e + 1, a, '=');
        let value = string.substring_char(e + 1, e2);
        out.push((key, value));
        proof {
            assert(key@ =~= seg.take((e - pos) as int));
            let fe2 = find_char(rest_s, '=');
            if e2 < a {
                assert(value@ =~= rest_s.take(fe2 as int));
            } else {
                assert(value@ =~= rest_s);
            }
            assert(pair_of_segment(seg) == Some((key@, value@)));
        }
    } else {
        proof {
            assert(find_char(seg, '=') >= seg.len());
            assert(pair_of_segment(seg) is None);
        }
    }

    if a < n {
        let mut rest = querify_from(string, a + 1);
        proof {
            assert(string@.skip(a as int + 1) =~= tail.skip(fa as int + 1));
        }
        out.append(&mut rest);
        proof {
            assert(fa < tail.len());
        }
    } else {
        proof {
            assert(fa >= tail.len());
        }
    }
    proof {
        assert(borrowed_pairs_view(out@) =~= pairs_of(tail));
    }
    out
}

/// Splits a form-encoded body into its key-value pairs, exactly `pairs_of`.
pub fn querify<'a>(string: &'a str) -> (r: Vec<(&'a str, &'a str)>)
    ensures
        borrowed_pairs_view(r@) == pairs_of(string@),
{
    let r = querify_from(string, 0);
    proof {
        assert(string@.skip(0) =~= string@);
    }
    r
}

/// The form text from the `token_type` field on.
pub open spec fn form_from_token_type(b: TokenBundleView) -> Seq<char> {
    "token_type"@ + seq!['='] + b.token_type
}

/// The form text from the `scope` field on.
pub open spec fn form_from_scope(b: TokenBundleView) -> Seq<char> {
    "scope"@ + seq!['='] + b.scope + (seq!['&'] + form_from_token_type(b))
}

/// The form text from the `refresh_token_expires_in` field on.
pub open spec fn form_from_refresh_expiry(b: TokenBundleView) -> Seq<char> {
    "refresh_token_expires_in"@ + seq!['='] + dec_i64_of(b.refresh_token_expires_in) + (seq!['&']
        + form_from_scope(b))
}

/// The form text from the `refresh_token` field on.
pub open spec fn form_from_refresh_token(b: TokenBundleView) -> Seq<char> {
    "refresh_token"@ + seq!['='] + b.refresh_token + (seq!['&'] + form_from_refresh_expiry(b))
}

/// The form text from the `expires_in` field on.
pub open spec fn form_from_expires_in(b: TokenBundleView) -> Seq<char> {
    "expires_in"@ + seq!['='] + dec_i64_of(b.expires_in) + (seq!['&'] + form_from_refresh_token(b))
}

/// A form-encoded token response carrying the six fields of a bundle, the
/// expiries as decimal text.
pub open spec fn form_encoding(b: TokenBundleView) -> Seq<char> {
    "access_token"@ + seq!['='] + b.access_token + (seq!['&'] + form_from_expires_in(b))
}

/// A digit run holds neither separator.
proof fn lemma_dec_free_of(x: int, c: char)
    requires
        !is_digit(c),
        c != '-',
    ensures
        free_of(dec_i64_of(x), c),
{
    if x < 0 {
        lemma_dec_of_digits(-x);
        assert(free_of(dec_of(-x), c));
        lemma_free_of_concat(seq!['-'], dec_of(-x), c);
    } else {
        lemma_dec_of_digits(x);
    }
}

/// A `key=value` segment followed by `&` and more text contributes exactly
/// one pair and hands the rest of the text on.
proof fn lemma_pairs_of_segment_chain(key: Seq<char>, value: Seq<char>, rest: Seq<char>)
    requires
        free_of(key, '&'),
        free_of(key, '='),
        free_of(value, '&'),
        free_of(value, '='),
    ensures
        pairs_of(key + seq!['='] + value + (seq!['&'] + rest)) == seq![(key, value)] + pairs_of(
            rest,
        ),
{
    let s = key + seq!['='] + value + (seq!['&'] + rest);
    let a = key.len() + 1 + value.len();
    assert forall|k: int| 0 <= k < a implies s[k] != '&' by {
        if k < key.len() {
            assert(s[k] == key[k]);
        } else if k == key.len() {
            assert(s[k] == '=');
        } else {
            assert(s[k] == value[k - key.len() - 1]);
        }
    }
    assert(s[a as int] == '&');
    lemma_find_char_at(s, '&', a as int);
    assert(find_char(s, '&') == a);
    assert(a < s.len());

    let seg = s.take(a as int);
    assert(seg =~= key + seq!['='] + value);
    assert forall|k: int| 0 <= k < key.len() implies seg[k] != '=' by {
        assert(seg[k] == key[k]);
    }
    assert(seg[key.len() as int] == '=');
    lemma_find_char_at(seg, '=', key.len() as int);
    assert(find_char(seg, '=') == key.len());
    assert(seg.take(key.len() as int) =~= key);
    let rest_s = seg.skip(key.len() as int + 1);
    assert(rest_s =~= value);
    lemma_find_char_at(value, '=', value.len() as int);
    assert(find_char(rest_s, '=') == value.len());
    assert(pair_of_segment(seg) == Some((key, value)));
    assert(s.skip(a as int + 1) =~= rest);
}

/// A final `key=value` segment, with no `&` anywhere, is exactly one pair.
proof fn lemma_pairs_of_segment_last(key: Seq<char>, value: Seq<char>)
    requires
        free_of(key, '&'),
        free_of(key, '='),
        free_of(value, '&'),
        free_of(value, '='),
    ensures
        pairs_of(key + seq!['='] + value) == seq![(key, value)],
{
    let s = key + seq!['='] + value;
    assert forall|k: int| 0 <= k < s.len() implies s[k] != '&' by {
        if k < key.len() {
            assert(s[k] == key[k]);
        } else if k == key.len() {
            assert(s[k] == '=');
        } else {
            assert(s[k] == value[k - key.len() - 1]);
        }
    }
    lemma_find_char_at(s, '&', s.len() as int);
    assert(find_char(s, '&') >= s.len());
    assert forall|k: int| 0 <= k < key.len() implies s[k] != '=' by {
        assert(s[k] == key[k]);
    }
    assert(s[key.len() as int] == '=');
    lemma_find_char_at(s, '=', key.len() as int);
    assert(s.take(key.len() as int) =~= key);
    let rest_s = s.skip(key.len() as int + 1);
    assert(rest_s =~= value);
    lemma_find_char_at(value, '=', value.len() as int);
    assert(pair_of_segment(s) == Some((key, value)));
}

/// Splitting inverts form encoding: the form text of a bundle splits into
/// exactly the six fields' pairs, provided no value carries a separator.
pub proof fn lemma_form_round_trip(b: TokenBundleView)
    requires
        free_of(b.access_token, '&'),
        free_of(b.access_token, '='),
        free_of(b.refresh_token, '&'),
        free_of(b.refresh_token, '='),
        free_of(b.scope, '&'),
        free_of(b.scope, '='),
        free_of(b.token_type, '&'),
        free_of(b.token_type, '='),
    ensures
        pairs_of(form_encoding(b)) == bundle_pairs(b),
{
    reveal_strlit("access_token");
    reveal_strlit("expires_in");
    reveal_strlit("refresh_token");
    reveal_strlit("refresh_token_expires_in");
    reveal_strlit("scope");
    reveal_strlit("token_type");
    assert(free_of("access_token"@, '&') && free_of("access_token"@, '='));
    assert(free_of("expires_in"@, '&') && free_of("expires_in"@, '='));
    assert(free_of("refresh_token"@, '&') && free_of("refresh_token"@, '='));
    assert(free_of("refresh_token_expires_in"@, '&') && free_of(
        "refresh_token_expires_in"@,
        '=',
    ));
    assert(free_of("scope"@, '&') && free_of("scope"@, '='));
    assert(free_of("token_type"@, '&') && free_of("token_type"@, '='));
    lemma_dec_free_of(b.expires_in, '&');
    lemma_dec_free_of(b.expires_in, '=');
    lemma_dec_free_of(b.refresh_token_expires_in, '&');
    lemma_dec_free_of(b.refresh_token_expires_in, '=');

    lemma_pairs_of_segment_last("token_type"@, b.token_type);
    assert(form_from_token_type(b) == "token_type"@ + seq!['='] + b.token_type);

    lemma_pairs_of_segment_chain("scope"@, b.scope, form_from_token_type(b));
    lemma_pairs_of_segment_chain(
        "refresh_token_expires_in"@,
        dec_i64_of(b.refresh_token_expires_in),
        form_from_scope(b),
    );
    lemma_pairs_of_segment_chain("refresh_token"@, b.refresh_token, form_from_refresh_expiry(b));
    lemma_pairs_of_segment_chain("expires_in"@, dec_i64_of(b.expires_in), form_from_refresh_token(b));
    lemma_pairs_of_segment_chain("access_token"@, b.access_token, form_from_expires_in(b));

    assert(pairs_of(form_encoding(b)) =~= bundle_pairs(b));
}

/// A text without `=` splits into no pairs at all: every segment is skipped.
pub proof fn lemma_pairs_of_no_eq(s: Seq<char>)
    requires
        free_of(s, '='),
    ensures
        pairs_of(s) == Seq::<(Seq<char>, Seq<char>)>::empty(),
    decreases s.len(),
{
    let a = find_char(s, '&');
    lemma_find_char_le(s, '&');
    if a >= s.len() {
        lemma_find_char_at(s, '=', s.len() as int);
        assert(pair_of_segment(s) is None);
    } else {
        let seg = s.take(a as int);
        assert(forall|k: int| 0 <= k < seg.len() ==> seg[k] == s[k]);
        assert(free_of(seg, '='));
        lemma_find_char_at(seg, '=', seg.len() as int);
        assert(pair_of_segment(seg) is None);
        let rest = s.skip(a as int + 1);
        assert(forall|k: int| 0 <= k < rest.len() ==> rest[k] == s[k + a + 1]);
        assert(free_of(rest, '='));
        lemma_pairs_of_no_eq(rest);
    }
}

} // verus!
