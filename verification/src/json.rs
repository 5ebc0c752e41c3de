//! The durable record's text form: serializing a token bundle to a JSON
//! object, and parsing a JSON token response back into key-value pairs.
//! Values are strings (with the common escapes) or integers; that is all the
//! identity provider's token endpoint produces and all the durable record
//! holds.

use vstd::prelude::*;

use crate::num::{
    all_digits, dec_i64_of, dec_of, i64_to_dec, is_digit, lemma_dec_of_digits, lemma_parse_dec_i64,
    parse_i64_spec,
};
use crate::text::{chars_to_string, free_of, lemma_free_of_concat, str_to_chars};
use crate::token::{
    bundle_from_pairs_spec, last_value, pairs_view, TokenBundle, TokenBundleView,
};

verus! {

/// The escape sequence a character serializes to inside a JSON string.
pub open spec fn escape_char(c: char) -> Seq<char> {
    if c == '"' {
        seq!['\\', '"']
    } else if c == '\\' {
        seq!['\\', '\\']
    } else if c == '\n' {
        seq!['\\', 'n']
    } else if c == '\t' {
        seq!['\\', 't']
    } else if c == '\r' {
        seq!['\\', 'r']
    } else {
        seq![c]
    }
}

/// The body of a JSON string: every character escaped as needed.
pub open spec fn escape_seq(s: Seq<char>) -> Seq<char>
    decreases s.len(),
{
    if s.len() == 0 {
        Seq::empty()
    } else {
        escape_char(s[0]) + escape_seq(s.skip(1))
    }
}

/// A JSON string: quote, escaped body, quote.
pub open spec fn json_string_of(v: Seq<char>) -> Seq<char> {
    seq!['"'] + escape_seq(v) + seq!['"']
}

/// The record text from the `token_type` member to the closing brace.
pub open spec fn json_from_token_type(b: TokenBundleView) -> Seq<char> {
    json_string_of("token_type"@) + seq![':'] + json_string_of(b.token_type) + seq!['}']
}

/// The record text from the `scope` member on.
pub open spec fn json_from_scope(b: TokenBundleView) -> Seq<char> {
    json_string_of("scope"@) + seq![':'] + json_string_of(b.scope) + (seq![',']
        + json_from_token_type(b))
}

/// The record text from the `refresh_token_expires_in` member on.
pub open spec fn json_from_refresh_expiry(b: TokenBundleView) -> Seq<char> {
    json_string_of("refresh_token_expires_in"@) + seq![':'] + dec_i64_of(
        b.refresh_token_expires_in,
    ) + (seq![','] + json_from_scope(b))
}

/// The record text from the `refresh_token` member on.
pub open spec fn json_from_refresh_token(b: TokenBundleView) -> Seq<char> {
    json_string_of("refresh_token"@) + seq![':'] + json_string_of(b.refresh_token) + (seq![',']
        + json_from_refresh_expiry(b))
}

/// The record text from the `expires_in` member on.
pub open spec fn json_from_expires_in(b: TokenBundleView) -> Seq<char> {
    json_string_of("expires_in"@) + seq![':'] + dec_i64_of(b.expires_in) + (seq![',']
        + json_from_refresh_token(b))
}

/// The record text from the `access_token` member on.
pub open spec fn json_from_access_token(b: TokenBundleView) -> Seq<char> {
    json_string_of("access_token"@) + seq![':'] + json_string_of(b.access_token) + (seq![',']
        + json_from_expires_in(b))
}

/// The serialized durable record of a bundle: one JSON object holding the
/// six fields in their canonical order, without added whitespace.
pub open spec fn json_of(b: TokenBundleView) -> Seq<char> {
    seq!['{'] + json_from_access_token(b)
}

/// Appends the escaped body of `v` to `out`.
fn push_escaped(out: &mut Vec<char>, v: &str)
    ensures
        final(out)@ == old(out)@ + escape_seq(v@),
{
    let n = v.unicode_len();
    let mut i: usize = 0;
    while i < n
        invariant
            0 <= i <= n,
            n == v@.len(),
            out@ == old(out)@ + escape_seq(v@.take(i as int)),
        decreases n - i,
    {
        let c = v.get_char(i);
        if c == '"' {
            out.push('\\');
            out.push('"');
        } else if c == '\\' {
            out.push('\\');
            out.push('\\');
        } else if c == '\n' {
            out.push('\\');
            out.push('n');
        } else if c == '\t' {
            out.push('\\');
            out.push('t');
        } else if c == '\r' {
            out.push('\\');
            out.push('r');
        } else {
            out.push(c);
        }
        proof {
            lemma_escape_seq_push(v@.take(i as int), v@[i as int]);
            assert(v@.take(i as int).push(v@[i as int]) =~= v@.take(i + 1));
            assert(out@ =~= old(out)@ + escape_seq(v@.take(i + 1)));
        }
        i += 1;
    }
    proof {
        assert(v@.take(n as int) =~= v@);
    }
}

/// Escaping a sequence extended by one character appends that character's
/// escape.
proof fn lemma_escape_seq_push(s: Seq<char>, c: char)
    ensures
        escape_seq(s.push(c)) == escape_seq(s) + escape_char(c),
    decreases s.len(),
{
    if s.len() == 0 {
        reveal_with_fuel(escape_seq, 2);
        assert(s.push(c)[0] == c);
        assert(s.push(c).skip(1) =~= Seq::<char>::empty());
        assert(escape_seq(s.push(c)) =~= escape_char(c));
        assert(escape_seq(s) + escape_char(c) =~= escape_char(c));
    } else {
        assert(s.push(c)[0] == s[0]);
        assert(s.push(c).skip(1) =~= s.skip(1).push(c));
        lemma_escape_seq_push(s.skip(1), c);
        assert(escape_seq(s.push(c)) =~= escape_seq(s) + escape_char(c));
    }
}

/// Appends a complete JSON string for `v` to `out`.
fn push_json_string(out: &mut Vec<char>, v: &str)
    ensures
        final(out)@ == old(out)@ + json_string_of(v@),
{
    out.push('"');
    push_escaped(out, v);
    out.push('"');
    proof {
        assert(out@ =~= old(out)@ + json_string_of(v@));
    }
}

/// Appends the decimal text of `v` to `out`.
fn push_dec(out: &mut Vec<char>, v: i64)
    ensures
        final(out)@ == old(out)@ + dec_i64_of(v as int),
{
    let ds = i64_to_dec(v);
    let n = ds.len();
    let mut i: usize = 0;
    while i < n
        invariant
            0 <= i <= n,
            n == ds@.len(),
            ds@ == dec_i64_of(v as int),
            out@ == old(out)@ + ds@.take(i as int),
        decreases n - i,
    {
        out.push(ds[i]);
        proof {
            assert(out@ =~= old(out)@ + ds@.take(i + 1));
        }
        i += 1;
    }
    proof {
        assert(ds@.take(n as int) =~= ds@);
    }
}

/// Serializes a bundle to its durable record, exactly `json_of`.
#[verifier::rlimit(100)]
pub fn serialize_bundle(b: &TokenBundle) -> (r: String)
    ensures
        r@ == json_of(b@),
{
    let mut out: Vec<char> = Vec::new();
    out.push('{');
    push_json_string(&mut out, "access_token");
    out.push(':');
    push_json_string(&mut out, b.access_token.as_str());
    out.push(',');
    push_json_string(&mut out, "expires_in");
    out.push(':');
    push_dec(&mut out, b.expires_in);
    out.push(',');
    push_json_string(&mut out, "refresh_token");
    out.push(':');
    push_json_string(&mut out, b.refresh_token.as_str());
    out.push(',');
    push_json_string(&mut out, "refresh_token_expires_in");
    out.push(':');
    push_dec(&mut out, b.refresh_token_expires_in);
    out.push(',');
    push_json_string(&mut out, "scope");
    out.push(':');
    push_json_string(&mut out, b.scope.as_str());
    out.push(',');
    push_json_string(&mut out, "token_type");
    out.push(':');
    push_json_string(&mut out, b.token_type.as_str());
    out.push('}');
    proof {
        assert(out@ =~= json_of(b@));
    }
    chars_to_string(&out)
}

/// A JSON whitespace character.
pub open spec fn is_ws(c: char) -> bool {
    c == ' ' || c == '\t' || c == '\n' || c == '\r'
}

/// The input with its leading whitespace removed.
pub open spec fn skip_ws(s: Seq<char>) -> Seq<char>
    decreases s.len(),
{
    if s.len() > 0 && is_ws(s[0]) {
        skip_ws(s.skip(1))
    } else {
        s
    }
}

/// The character an escape code denotes, `None` for an unsupported code.
pub open spec fn unescape_char(c: char) -> Option<char> {
    if c == '"' {
        Some('"')
    } else if c == '\\' {
        Some('\\')
    } else if c == '/' {
        Some('/')
    } else if c == 'n' {
        Some('\n')
    } else if c == 't' {
        Some('\t')
    } else if c == 'r' {
        Some('\r')
    } else if c == 'b' {
        Some('\u{8}')
    } else if c == 'f' {
        Some('\u{c}')
    } else {
        None
    }
}

/// Parses a JSON string body up to and including its closing quote: the
/// decoded text, and the rest of the input after the quote.
pub open spec fn parse_string_body(s: Seq<char>) -> Option<(Seq<char>, Seq<char>)>
    decreases s.len(),
{
    if s.len() == 0 {
        None
    } else if s[0] == '"' {
        Some((Seq::empty(), s.skip(1)))
    } else if s[0] == '\\' {
        if s.len() >= 2 {
            match unescape_char(s[1]) {
                Some(c) => match parse_string_body(s.skip(2)) {
                    Some(p) => Some((seq![c] + p.0, p.1)),
                    None => None,
                },
                None => None,
            }
        } else {
            None
        }
    } else {
        match parse_string_body(s.skip(1)) {
            Some(p) => Some((seq![s[0]] + p.0, p.1)),
            None => None,
        }
    }
}

/// Parses a complete JSON string, opening quote included.
pub open spec fn parse_json_string(s: Seq<char>) -> Option<(Seq<char>, Seq<char>)> {
    if s.len() > 0 && s[0] == '"' {
        parse_string_body(s.skip(1))
    } else {
        None
    }
}

/// The length of the run of decimal digits at the head of the input.
pub open spec fn digits_len(s: Seq<char>) -> nat
    decreases s.len(),
{
    if s.len() > 0 && is_digit(s[0]) {
        (1 + digits_len(s.skip(1))) as nat
    } else {
        0
    }
}

/// Parses a JSON integer: its literal text, and the rest of the input.
pub open spec fn parse_json_number(s: Seq<char>) -> Option<(Seq<char>, Seq<char>)> {
    if s.len() > 0 && s[0] == '-' {
        let d = digits_len(s.skip(1));
        if d == 0 {
            None
        } else {
            Some((s.take(1 + d as int), s.skip(1 + d as int)))
        }
    } else {
        let d = digits_len(s);
        if d == 0 {
            None
        } else {
            Some((s.take(d as int), s.skip(d as int)))
        }
    }
}

/// Parses a JSON value of the two kinds a token response holds: a string's
/// decoded text, or a number's literal text.
pub open spec fn parse_json_value(s: Seq<char>) -> Option<(Seq<char>, Seq<char>)> {
    if s.len() > 0 && s[0] == '"' {
        parse_json_string(s)
    } else {
        parse_json_number(s)
    }
}

/// Parses one `"key": value` member.
pub open spec fn parse_member(s: Seq<char>) -> Option<((Seq<char>, Seq<char>), Seq<char>)> {
    match parse_json_string(s) {
        Some(kp) => {
            let r2 = skip_ws(kp.1);
            if r2.len() > 0 && r2[0] == ':' {
                let r3 = skip_ws(r2.skip(1));
                match parse_json_value(r3) {
                    Some(vp) => Some(((kp.0, vp.0), vp.1)),
                    None => None,
                }
            } else {
                None
            }
        },
        None => None,
    }
}

pub proof fn lemma_skip_ws_len(s: Seq<char>)
    ensures
        skip_ws(s).len() <= s.len(),
    decreases s.len(),
{
    if s.len() > 0 && is_ws(s[0]) {
        lemma_skip_ws_len(s.skip(1));
    }
}

pub proof fn lemma_parse_string_body_len(s: Seq<char>)
    ensures
        parse_string_body(s) is Some ==> (parse_string_body(s)->0).1.len() < s.len(),
    decreases s.len(),
{
    if s.len() == 0 {
    } else if s[0] == '"' {
    } else if s[0] == '\\' {
        if s.len() >= 2 {
            lemma_parse_string_body_len(s.skip(2));
        }
    } else {
        lemma_parse_string_body_len(s.skip(1));
    }
}

pub proof fn lemma_digits_len_le(s: Seq<char>)
    ensures
        digits_len(s) <= s.len(),
    decreases s.len(),
{
    if s.len() > 0 && is_digit(s[0]) {
        lemma_digits_len_le(s.skip(1));
    }
}

pub proof fn lemma_parse_member_len(s: Seq<char>)
    ensures
        parse_member(s) is Some ==> (parse_member(s)->0).1.len() < s.len(),
{
    if parse_json_string(s) is Some {
        let kp = parse_json_string(s)->0;
        lemma_parse_string_body_len(s.skip(1));
        let r2 = skip_ws(kp.1);
        lemma_skip_ws_len(kp.1);
        if r2.len() > 0 && r2[0] == ':' {
            let r3 = skip_ws(r2.skip(1));
            lemma_skip_ws_len(r2.skip(1));
            if parse_json_value(r3) is Some {
                if r3.len() > 0 && r3[0] == '"' {
                    lemma_parse_string_body_len(r3.skip(1));
                } else {
                    lemma_digits_len_le(r3);
                    lemma_digits_len_le(r3.skip(1));
                }
            }
        }
    }
}

/// Parses a comma-separated run of members; the rest begins at the first
/// non-whitespace character after the last member.
pub open spec fn parse_members(s: Seq<char>) -> Option<(Seq<(Seq<char>, Seq<char>)>, Seq<char>)>
    decreases s.len(),
{
    match parse_member(s) {
        Some(pr) => {
            let r1 = skip_ws(pr.1);
            if r1.len() > 0 && r1[0] == ',' {
                let s2 = skip_ws(r1.skip(1));
                proof {
                    lemma_parse_member_len(s);
                    lemma_skip_ws_len(pr.1);
                    lemma_skip_ws_len(r1.skip(1));
                }
                match parse_members(s2) {
                    Some(rr) => Some((seq![pr.0] + rr.0, rr.1)),
                    None => None,
                }
            } else {
                Some((seq![pr.0], r1))
            }
        },
        None => None,
    }
}

/// The key-value pairs of a JSON token response: one flat object whose
/// values are strings or integers, with optional whitespace, and nothing
/// after the closing brace.
pub open spec fn json_pairs_spec(s: Seq<char>) -> Option<Seq<(Seq<char>, Seq<char>)>> {
    let t0 = skip_ws(s);
    if t0.len() > 0 && t0[0] == '{' {
        let t1 = skip_ws(t0.skip(1));
        if t1.len() > 0 && t1[0] == '}' {
            if skip_ws(t1.skip(1)).len() == 0 {
                Some(Seq::empty())
            } else {
                None
            }
        } else {
            match parse_members(t1) {
                Some(pr) => {
                    if pr.1.len() > 0 && pr.1[0] == '}' && skip_ws(pr.1.skip(1)).len() == 0 {
                        Some(pr.0)
                    } else {
                        None
                    }
                },
                None => None,
            }
        }
    } else {
        None
    }
}

/// Advances past whitespace: the tail at the result is `skip_ws` of the tail
/// at `i`.
fn ws_to(cs: &Vec<char>, i: usize) -> (r: usize)
    requires
        i <= cs@.len(),
    ensures
        i <= r <= cs@.len(),
        cs@.skip(r as int) == skip_ws(cs@.skip(i as int)),
{
    let n = cs.len();
    let mut j = i;
    while j < n && (cs[j] == ' ' || cs[j] == '\t' || cs[j] == '\n' || cs[j] == '\r')
        invariant
            i <= j <= n,
            n == cs@.len(),
            skip_ws(cs@.skip(i as int)) == skip_ws(cs@.skip(j as int)),
        decreases n - j,
    {
        proof {
            assert(cs@.skip(j as int)[0] == cs@[j as int]);
            assert(cs@.skip(j as int).skip(1) =~= cs@.skip(j + 1));
        }
        j += 1;
    }
    proof {
        if j < n {
            assert(cs@.skip(j as int)[0] == cs@[j as int]);
            assert(!is_ws(cs@.skip(j as int)[0]));
        }
        assert(skip_ws(cs@.skip(j as int)) == cs@.skip(j as int));
    }
    j
}

/// Parses a string body beginning at `i` (just past the opening quote).
fn parse_string_body_exec(cs: &Vec<char>, i: usize) -> (r: Option<(Vec<char>, usize)>)
    requires
        i <= cs@.len(),
    ensures
        match r {
            Some(p) => i <= p.1 <= cs@.len() && parse_string_body(cs@.skip(i as int)) == Some(
                (p.0@, cs@.skip(p.1 as int)),
            ),
            None => parse_string_body(cs@.skip(i as int)) is None,
        },
    decreases cs@.len() - i,
{
    let n = cs.len();
    let ghost s = cs@.skip(i as int);
    if i == n {
        return None;
    }
    let c = cs[i];
    proof {
        assert(s[0] == cs@[i as int]);
    }
    if c == '"' {
        let v: Vec<char> = Vec::new();
        proof {
            assert(s.skip(1) =~= cs@.skip(i + 1));
            assert(v@ =~= Seq::<char>::empty());
        }
        return Some((v, i + 1));
    }
    if c == '\\' {
        if i + 1 == n {
            return None;
        }
        let e = cs[i + 1];
        proof {
            assert(s[1] == cs@[i + 1]);
        }
        let u: char;
        if e == '"' {
            u = '"';
        } else if e == '\\' {
            u = '\\';
        } else if e == '/' {
            u = '/';
        } else if e == 'n' {
            u = '\n';
        } else if e == 't' {
            u = '\t';
        } else if e == 'r' {
            u = '\r';
        } else if e == 'b' {
            u = '\u{8}';
        } else if e == 'f' {
            u = '\u{c}';
        } else {
            proof {
                assert(unescape_char(s[1]) is None);
            }
            return None;
        }
        proof {
            assert(unescape_char(s[1]) == Some(u));
            assert(s.skip(2) =~= cs@.skip(i + 2));
        }
        match parse_string_body_exec(cs, i + 2) {
            Some(p) => {
                let mut v = p.0;
                v.insert(0, u);
                proof {
                    assert(v@ =~= seq![u] + p.0@);
                }
                Some((v, p.1))
            },
            None => None,
        }
    } else {
        proof {
            assert(s.skip(1) =~= cs@.skip(i + 1));
        }
        match parse_string_body_exec(cs, i + 1) {
            Some(p) => {
                let mut v = p.0;
                v.insert(0, c);
                proof {
                    assert(v@ =~= seq![c] + p.0@);
                }
                Some((v, p.1))
            },
            None => None,
        }
    }
}

/// Parses a complete JSON string beginning at `i`.
fn parse_json_string_exec(cs: &Vec<char>, i: usize) -> (r: Option<(Vec<char>, usize)>)
    requires
        i <= cs@.len(),
    ensures
        match r {
            Some(p) => i <= p.1 <= cs@.len() && parse_json_string(cs@.skip(i as int)) == Some(
                (p.0@, cs@.skip(p.1 as int)),
            ),
            None => parse_json_string(cs@.skip(i as int)) is None,
        },
{
    let n = cs.len();
    if i < n && cs[i] == '"' {
        proof {
            assert(cs@.skip(i as int)[0] == cs@[i as int]);
            assert(cs@.skip(i as int).skip(1) =~= cs@.skip(i + 1));
        }
        parse_string_body_exec(cs, i + 1)
    } else {
        proof {
            if i < n {
                assert(cs@.skip(i as int)[0] == cs@[i as int]);
            }
        }
        None
    }
}

/// Advances past the run of digits beginning at `i`.
fn digits_to(cs: &Vec<char>, i: usize) -> (r: usize)
    requires
        i <= cs@.len(),
    ensures
        i <= r <= cs@.len(),
        r - i == digits_len(cs@.skip(i as int)),
        cs@.skip(r as int) == cs@.skip(i as int).skip((r - i) as int),
{
    let n = cs.len();
    let mut j = i;
    while j < n && '0' <= cs[j] && cs[j] <= '9'
        invariant
            i <= j <= n,
            n == cs@.len(),
            digits_len(cs@.skip(i as int)) == (j - i) + digits_len(cs@.skip(j as int)),
        decreases n - j,
    {
        proof {
            assert(cs@.skip(j as int)[0] == cs@[j as int]);
            assert(is_digit(cs@.skip(j as int)[0]));
            assert(cs@.skip(j as int).skip(1) =~= cs@.skip(j + 1));
        }
        j += 1;
    }
    proof {
        if j < n {
            assert(cs@.skip(j as int)[0] == cs@[j as int]);
            assert(!is_digit(cs@.skip(j as int)[0]));
        }
        assert(digits_len(cs@.skip(j as int)) == 0);
        assert(cs@.skip(j as int) =~= cs@.skip(i as int).skip((j - i) as int));
    }
    j
}

/// Copies the characters of `cs` between `from` and `to`.
fn copy_range(cs: &Vec<char>, from: usize, to: usize) -> (r: Vec<char>)
    requires
        from <= to <= cs@.len(),
    ensures
        r@ == cs@.subrange(from as int, to as int),
{
    let mut r: Vec<char> = Vec::new();
    let mut k = from;
    while k < to
        invariant
            from <= k <= to <= cs@.len(),
            r@ == cs@.subrange(from as int, k as int),
        decreases to - k,
    {
        r.push(cs[k]);
        proof {
            assert(r@ =~= cs@.subrange(from as int, k + 1));
        }
        k += 1;
    }
    r
}

/// Parses a JSON integer beginning at `i`.
fn parse_json_number_exec(cs: &Vec<char>, i: usize) -> (r: Option<(Vec<char>, usize)>)
    requires
        i <= cs@.len(),
    ensures
        match r {
            Some(p) => i <= p.1 <= cs@.len() && parse_json_number(cs@.skip(i as int)) == Some(
                (p.0@, cs@.skip(p.1 as int)),
            ),
            None => parse_json_number(cs@.skip(i as int)) is None,
        },
{
    let n = cs.len();
    let ghost s = cs@.skip(i as int);
    let neg = i < n && cs[i] == '-';
    let start = if neg {
        i + 1
    } else {
        i
    };
    proof {
        if i < n {
            assert(s[0] == cs@[i as int]);
        }
        if neg {
            assert(s.skip(1) =~= cs@.skip(i + 1));
        }
    }
    let e = digits_to(cs, start);
    if e == start {
        return None;
    }
    let v = copy_range(cs, i, e);
    proof {
        if neg {
            let d = digits_len(s.skip(1));
            assert(d == e - start);
            assert(s.take(1 + d as int) =~= cs@.subrange(i as int, e as int));
            assert(s.skip(1 + d as int) =~= cs@.skip(e as int));
        } else {
            let d = digits_len(s);
            assert(d == e - start);
            assert(s.take(d as int) =~= cs@.subrange(i as int, e as int));
            assert(s.skip(d as int) =~= cs@.skip(e as int));
        }
    }
    Some((v, e))
}

/// Parses a JSON value beginning at `i`.
fn parse_json_value_exec(cs: &Vec<char>, i: usize) -> (r: Option<(Vec<char>, usize)>)
    requires
        i <= cs@.len(),
    ensures
        match r {
            Some(p) => i <= p.1 <= cs@.len() && parse_json_value(cs@.skip(i as int)) == Some(
                (p.0@, cs@.skip(p.1 as int)),
            ),
            None => parse_json_value(cs@.skip(i as int)) is None,
        },
{
    let n = cs.len();
    proof {
        if i < n {
            assert(cs@.skip(i as int)[0] == cs@[i as int]);
        }
    }
    if i < n && cs[i] == '"' {
        parse_json_string_exec(cs, i)
    } else {
        parse_json_number_exec(cs, i)
    }
}

/// Parses one `"key": value` member beginning at `i`.
fn parse_member_exec(cs: &Vec<char>, i: usize) -> (r: Option<((Vec<char>, Vec<char>), usize)>)
    requires
        i <= cs@.len(),
    ensures
        match r {
            Some(p) => i <= p.1 <= cs@.len() && parse_member(cs@.skip(i as int)) == Some(
                ((p.0.0@, p.0.1@), cs@.skip(p.1 as int)),
            ),
            None => parse_member(cs@.skip(i as int)) is None,
        },
{
    let n = cs.len();
    let ghost s = cs@.skip(i as int);
    let kp = match parse_json_string_exec(cs, i) {
        Some(p) => p,
        None => {
            return None;
        },
    };
    let r2 = ws_to(cs, kp.1);
    proof {
        if r2 < n {
            assert(cs@.skip(r2 as int)[0] == cs@[r2 as int]);
        }
    }
    if !(r2 < n) {
        return None;
    }
    if cs[r2] != ':' {
        return None;
    }
    proof {
        assert(cs@.skip(r2 as int).skip(1) =~= cs@.skip(r2 + 1));
    }
    let r3 = ws_to(cs, r2 + 1);
    match parse_json_value_exec(cs, r3) {
        Some(vp) => Some(((kp.0, vp.0), vp.1)),
        None => None,
    }
}

/// Parses a comma-separated run of members beginning at `i`.
fn parse_members_exec(cs: &Vec<char>, i: usize) -> (r: Option<(Vec<(String, String)>, usize)>)
    requires
        i <= cs@.len(),
    ensures
        match r {
            Some(p) => i <= p.1 <= cs@.len() && parse_members(cs@.skip(i as int)) == Some(
                (pairs_view(p.0@), cs@.skip(p.1 as int)),
            ),
            None => parse_members(cs@.skip(i as int)) is None,
        },
    decreases cs@.len() - i,
{
    let n = cs.len();
    let ghost s = cs@.skip(i as int);
    let pr = match parse_member_exec(cs, i) {
        Some(p) => p,
        None => {
            return None;
        },
    };
    let key = chars_to_string(&pr.0.0);
    let value = chars_to_string(&pr.0.1);
    let r1 = ws_to(cs, pr.1);
    proof {
        if r1 < n {
            assert(cs@.skip(r1 as int)[0] == cs@[r1 as int]);
        }
    }
    if r1 < n && cs[r1] == ',' {
        proof {
            assert(cs@.skip(r1 as int).skip(1) =~= cs@.skip(r1 + 1));
            lemma_parse_member_len(s);
            lemma_skip_ws_len(cs@.skip(pr.1 as int));
            lemma_skip_ws_len(cs@.skip(r1 + 1));
        }
        let s2 = ws_to(cs, r1 + 1);
        match parse_members_exec(cs, s2) {
            Some(rp) => {
                let mut ps = rp.0;
                ps.insert(0, (key, value));
                proof {
                    assert(pairs_view(ps@) =~= seq![(pr.0.0@, pr.0.1@)] + pairs_view(rp.0@));
                }
                Some((ps, rp.1))
            },
            None => None,
        }
    } else {
        let mut ps: Vec<(String, String)> = Vec::new();
        ps.push((key, value));
        proof {
            assert(pairs_view(ps@) =~= seq![(pr.0.0@, pr.0.1@)]);
        }
        Some((ps, r1))
    }
}

/// Parses a JSON token response into its key-value pairs, exactly where
/// `json_pairs_spec` gives them.
pub fn json_pairs(body: &str) -> (r: Option<Vec<(String, String)>>)
    ensures
        match r {
            Some(ps) => json_pairs_spec(body@) == Some(pairs_view(ps@)),
            None => json_pairs_spec(body@) is None,
        },
{
    let cs = str_to_chars(body);
    let n = cs.len();
    proof {
        assert(cs@.skip(0) =~= cs@);
    }
    let t0 = ws_to(&cs, 0);
    proof {
        if t0 < n {
            assert(cs@.skip(t0 as int)[0] == cs@[t0 as int]);
        }
    }
    if !(t0 < n) {
        return None;
    }
    if cs[t0] != '{' {
        return None;
    }
    proof {
        assert(cs@.skip(t0 as int).skip(1) =~= cs@.skip(t0 + 1));
    }
    let t1 = ws_to(&cs, t0 + 1);
    proof {
        if t1 < n {
            assert(cs@.skip(t1 as int)[0] == cs@[t1 as int]);
        }
    }
    if t1 < n && cs[t1] == '}' {
        proof {
            assert(cs@.skip(t1 as int).skip(1) =~= cs@.skip(t1 + 1));
        }
        let t2 = ws_to(&cs, t1 + 1);
        if t2 == n {
            let ps: Vec<(String, String)> = Vec::new();
            proof {
                assert(cs@.skip(t2 as int).len() == 0);
                assert(pairs_view(ps@) =~= Seq::<(Seq<char>, Seq<char>)>::empty());
            }
            return Some(ps);
        } else {
            proof {
                assert(cs@.skip(t2 as int).len() > 0);
            }
            return None;
        }
    }
    match parse_members_exec(&cs, t1) {
        Some(pr) => {
            proof {
                if pr.1 < n {
                    assert(cs@.skip(pr.1 as int)[0] == cs@[pr.1 as int]);
                }
            }
            if pr.1 < n && cs[pr.1] == '}' {
                proof {
                    assert(cs@.skip(pr.1 as int).skip(1) =~= cs@.skip(pr.1 + 1));
                }
                let t3 = ws_to(&cs, pr.1 + 1);
                if t3 == n {
                    proof {
                        assert(cs@.skip(t3 as int).len() == 0);
                    }
                    Some(pr.0)
                } else {
                    proof {
                        assert(cs@.skip(t3 as int).len() > 0);
                    }
                    None
                }
            } else {
                None
            }
        },
        None => None,
    }
}

/// Parsing a string body inverts escaping: the escaped text, a closing
/// quote, and anything after it parse back to the original text.
pub proof fn lemma_parse_body_of_escape(v: Seq<char>, tail: Seq<char>)
    ensures
        parse_string_body(escape_seq(v) + seq!['"'] + tail) == Some((v, tail)),
    decreases v.len(),
{
    let s = escape_seq(v) + seq!['"'] + tail;
    if v.len() == 0 {
        assert(s =~= seq!['"'] + tail);
        assert(s[0] == '"');
        assert(s.skip(1) =~= tail);
    } else {
        let c = v[0];
        let e = escape_char(c);
        assert(escape_seq(v) == e + escape_seq(v.skip(1)));
        let s2 = escape_seq(v.skip(1)) + seq!['"'] + tail;
        lemma_parse_body_of_escape(v.skip(1), tail);
        if c == '"' || c == '\\' || c == '\n' || c == '\t' || c == '\r' {
            assert(e.len() == 2 && e[0] == '\\');
            assert(s.len() >= 2);
            assert(s[0] == '\\');
            assert(s[1] == e[1]);
            assert(unescape_char(e[1]) == Some(c));
            assert(s.skip(2) =~= s2);
            assert(parse_string_body(s) == Some((seq![c] + v.skip(1), tail)));
            assert(seq![c] + v.skip(1) =~= v);
        } else {
            assert(e =~= seq![c]);
            assert(s[0] == c);
            assert(c != '"' && c != '\\');
            assert(s.skip(1) =~= s2);
            assert(parse_string_body(s) == Some((seq![c] + v.skip(1), tail)));
            assert(seq![c] + v.skip(1) =~= v);
        }
    }
}

/// Parsing a complete JSON string inverts `json_string_of`.
pub proof fn lemma_parse_json_string_of(v: Seq<char>, tail: Seq<char>)
    ensures
        parse_json_string(json_string_of(v) + tail) == Some((v, tail)),
{
    let s = json_string_of(v) + tail;
    assert(s[0] == '"');
    assert(s.skip(1) =~= escape_seq(v) + seq!['"'] + tail);
    lemma_parse_body_of_escape(v, tail);
}

/// A run of digits followed by a non-digit is measured exactly.
proof fn lemma_digits_len_concat(d: Seq<char>, t: Seq<char>)
    requires
        all_digits(d),
        t.len() > 0,
        !is_digit(t[0]),
    ensures
        digits_len(d + t) == d.len(),
    decreases d.len(),
{
    if d.len() == 0 {
        assert(d + t =~= t);
    } else {
        assert((d + t)[0] == d[0]);
        assert(is_digit(d[0]));
        assert((d + t).skip(1) =~= d.skip(1) + t);
        assert(all_digits(d.skip(1)));
        lemma_digits_len_concat(d.skip(1), t);
    }
}

/// Parsing a JSON number inverts decimal printing, up to the first non-digit.
pub proof fn lemma_parse_number_of_dec(x: int, tail: Seq<char>)
    requires
        tail.len() > 0,
        !is_digit(tail[0]),
    ensures
        parse_json_number(dec_i64_of(x) + tail) == Some((dec_i64_of(x), tail)),
{
    let s = dec_i64_of(x) + tail;
    if x < 0 {
        let m = -x;
        lemma_dec_of_digits(m);
        assert(s[0] == '-');
        assert(s.skip(1) =~= dec_of(m) + tail);
        lemma_digits_len_concat(dec_of(m), tail);
        let d = digits_len(s.skip(1));
        assert(d == dec_of(m).len());
        assert(d > 0);
        assert(s.take(1 + d as int) =~= dec_i64_of(x));
        assert(s.skip(1 + d as int) =~= tail);
    } else {
        let m = x;
        lemma_dec_of_digits(m);
        assert(s =~= dec_of(m) + tail);
        assert(s[0] == dec_of(m)[0]);
        assert(is_digit(s[0]));
        assert(s[0] != '-');
        lemma_digits_len_concat(dec_of(m), tail);
        let d = digits_len(s);
        assert(d == dec_of(m).len());
        assert(d > 0);
        assert(s.take(d as int) =~= dec_i64_of(x));
        assert(s.skip(d as int) =~= tail);
    }
}

/// Parsing one member inverts writing a string-valued member.
proof fn lemma_parse_member_string(k: Seq<char>, v: Seq<char>, tail: Seq<char>)
    ensures
        parse_member(json_string_of(k) + seq![':'] + json_string_of(v) + tail) == Some(
            ((k, v), tail),
        ),
{
    let s = json_string_of(k) + seq![':'] + json_string_of(v) + tail;
    let r1 = seq![':'] + json_string_of(v) + tail;
    assert(s =~= json_string_of(k) + r1);
    lemma_parse_json_string_of(k, r1);
    assert(r1[0] == ':');
    assert(!is_ws(r1[0]));
    assert(skip_ws(r1) == r1);
    let r3 = json_string_of(v) + tail;
    assert(r1.skip(1) =~= r3);
    assert(r3[0] == '"');
    assert(!is_ws(r3[0]));
    assert(skip_ws(r3) == r3);
    lemma_parse_json_string_of(v, tail);
}

/// Parsing one member inverts writing an integer-valued member.
proof fn lemma_parse_member_number(k: Seq<char>, x: int, tail: Seq<char>)
    requires
        tail.len() > 0,
        !is_digit(tail[0]),
    ensures
        parse_member(json_string_of(k) + seq![':'] + dec_i64_of(x) + tail) == Some(
            ((k, dec_i64_of(x)), tail),
        ),
{
    let s = json_string_of(k) + seq![':'] + dec_i64_of(x) + tail;
    let r1 = seq![':'] + dec_i64_of(x) + tail;
    assert(s =~= json_string_of(k) + r1);
    lemma_parse_json_string_of(k, r1);
    assert(r1[0] == ':');
    assert(!is_ws(r1[0]));
    assert(skip_ws(r1) == r1);
    let r3 = dec_i64_of(x) + tail;
    assert(r1.skip(1) =~= r3);
    if x < 0 {
        lemma_dec_of_digits(-x);
        assert(r3[0] == '-');
    } else {
        lemma_dec_of_digits(x);
        assert(r3[0] == dec_of(x)[0]);
        assert(is_digit(r3[0]));
    }
    assert(r3[0] != '"');
    assert(!is_ws(r3[0]));
    assert(skip_ws(r3) == r3);
    lemma_parse_number_of_dec(x, tail);
}

/// A member followed by a comma and further members parses as their
/// concatenation.
proof fn lemma_members_cons(
    s: Seq<char>,
    p: (Seq<char>, Seq<char>),
    r: Seq<char>,
    ps: Seq<(Seq<char>, Seq<char>)>,
    rr: Seq<char>,
)
    requires
        parse_member(s) == Some((p, r)),
        r.len() > 0,
        r[0] == ',',
        r.skip(1).len() > 0,
        !is_ws(r.skip(1)[0]),
        parse_members(r.skip(1)) == Some((ps, rr)),
    ensures
        parse_members(s) == Some((seq![p] + ps, rr)),
{
    assert(!is_ws(r[0]));
    assert(skip_ws(r) == r);
    assert(skip_ws(r.skip(1)) == r.skip(1));
}

/// A member followed by the closing brace parses as a one-member run.
proof fn lemma_members_last(s: Seq<char>, p: (Seq<char>, Seq<char>), r: Seq<char>)
    requires
        parse_member(s) == Some((p, r)),
        r.len() > 0,
        r[0] == '}',
    ensures
        parse_members(s) == Some((seq![p], r)),
{
    assert(!is_ws(r[0]));
    assert(skip_ws(r) == r);
}

/// The pairs the serialized record of a bundle denotes: the six fields in
/// order, the expiries as decimal text.
pub open spec fn bundle_pairs(b: TokenBundleView) -> Seq<(Seq<char>, Seq<char>)> {
    seq![
        ("access_token"@, b.access_token),
        ("expires_in"@, dec_i64_of(b.expires_in)),
        ("refresh_token"@, b.refresh_token),
        ("refresh_token_expires_in"@, dec_i64_of(b.refresh_token_expires_in)),
        ("scope"@, b.scope),
        ("token_type"@, b.token_type),
    ]
}

/// Parsing inverts serialization: the serialized record of any bundle parses
/// back to exactly the six fields' pairs.
pub proof fn lemma_json_round_trip(b: TokenBundleView)
    ensures
        json_pairs_spec(json_of(b)) == Some(bundle_pairs(b)),
{
    let p_at = ("access_token"@, b.access_token);
    let p_ei = ("expires_in"@, dec_i64_of(b.expires_in));
    let p_rt = ("refresh_token"@, b.refresh_token);
    let p_rte = ("refresh_token_expires_in"@, dec_i64_of(b.refresh_token_expires_in));
    let p_sc = ("scope"@, b.scope);
    let p_tt = ("token_type"@, b.token_type);

    let t6 = seq!['}'];
    lemma_parse_member_string("token_type"@, b.token_type, t6);
    assert(json_from_token_type(b) == json_string_of("token_type"@) + seq![':'] + json_string_of(
        b.token_type,
    ) + t6);
    lemma_members_last(json_from_token_type(b), p_tt, t6);

    let t5 = seq![','] + json_from_token_type(b);
    lemma_parse_member_string("scope"@, b.scope, t5);
    assert(t5.skip(1) =~= json_from_token_type(b));
    assert(json_from_token_type(b)[0] == '"');
    lemma_members_cons(json_from_scope(b), p_sc, t5, seq![p_tt], t6);

    let t4 = seq![','] + json_from_scope(b);
    lemma_parse_member_number("refresh_token_expires_in"@, b.refresh_token_expires_in, t4);
    assert(t4.skip(1) =~= json_from_scope(b));
    assert(json_from_scope(b)[0] == '"');
    lemma_members_cons(json_from_refresh_expiry(b), p_rte, t4, seq![p_sc] + seq![p_tt], t6);

    let t3 = seq![','] + json_from_refresh_expiry(b);
    lemma_parse_member_string("refresh_token"@, b.refresh_token, t3);
    assert(t3.skip(1) =~= json_from_refresh_expiry(b));
    assert(json_from_refresh_expiry(b)[0] == '"');
    lemma_members_cons(
        json_from_refresh_token(b),
        p_rt,
        t3,
        seq![p_rte] + (seq![p_sc] + seq![p_tt]),
        t6,
    );

    let t2 = seq![','] + json_from_refresh_token(b);
    lemma_parse_member_number("expires_in"@, b.expires_in, t2);
    assert(t2.skip(1) =~= json_from_refresh_token(b));
    assert(json_from_refresh_token(b)[0] == '"');
    lemma_members_cons(
        json_from_expires_in(b),
        p_ei,
        t2,
        seq![p_rt] + (seq![p_rte] + (seq![p_sc] + seq![p_tt])),
        t6,
    );

    let t1 = seq![','] + json_from_expires_in(b);
    lemma_parse_member_string("access_token"@, b.access_token, t1);
    assert(t1.skip(1) =~= json_from_expires_in(b));
    assert(json_from_expires_in(b)[0] == '"');
    lemma_members_cons(
        json_from_access_token(b),
        p_at,
        t1,
        seq![p_ei] + (seq![p_rt] + (seq![p_rte] + (seq![p_sc] + seq![p_tt]))),
        t6,
    );

    let s = json_of(b);
    assert(s[0] == '{');
    assert(!is_ws(s[0]));
    assert(skip_ws(s) == s);
    assert(s.skip(1) =~= json_from_access_token(b));
    assert(json_from_access_token(b)[0] == '"');
    assert(skip_ws(json_from_access_token(b)) == json_from_access_token(b));
    assert(parse_members(json_from_access_token(b)) == Some(
        (seq![p_at] + (seq![p_ei] + (seq![p_rt] + (seq![p_rte] + (seq![p_sc] + seq![p_tt])))), t6),
    ));
    assert(t6[0] == '}');
    assert(t6.skip(1) =~= Seq::<char>::empty());
    assert(skip_ws(t6.skip(1)).len() == 0);
    assert(seq![p_at] + (seq![p_ei] + (seq![p_rt] + (seq![p_rte] + (seq![p_sc] + seq![p_tt])))) =~= bundle_pairs(
        b,
    ));
}


/// Escaping introduces no `=`: the escape codes are letters, quotes and
/// backslashes.
proof fn lemma_escape_free_of_eq(v: Seq<char>)
    requires
        free_of(v, '='),
    ensures
        free_of(escape_seq(v), '='),
    decreases v.len(),
{
    if v.len() > 0 {
        assert(free_of(v.skip(1), '='));
        lemma_escape_free_of_eq(v.skip(1));
        assert(v[0] != '=');
        assert(free_of(escape_char(v[0]), '='));
        lemma_free_of_concat(escape_char(v[0]), escape_seq(v.skip(1)), '=');
    }
}

proof fn lemma_json_string_free_of_eq(v: Seq<char>)
    requires
        free_of(v, '='),
    ensures
        free_of(json_string_of(v), '='),
{
    lemma_escape_free_of_eq(v);
    lemma_free_of_concat(seq!['"'], escape_seq(v), '=');
    lemma_free_of_concat(seq!['"'] + escape_seq(v), seq!['"'], '=');
}

proof fn lemma_dec_free_of_eq(x: int)
    ensures
        free_of(dec_i64_of(x), '='),
{
    if x < 0 {
        lemma_dec_of_digits(-x);
        assert(free_of(dec_of(-x), '='));
        lemma_free_of_concat(seq!['-'], dec_of(-x), '=');
    } else {
        lemma_dec_of_digits(x);
    }
}

/// A serialized record holds no `=` when the bundle's string fields hold
/// none: its structural characters, key letters, escapes and digits are all
/// other characters.
pub proof fn lemma_json_of_free_of_eq(b: TokenBundleView)
    requires
        free_of(b.access_token, '='),
        free_of(b.refresh_token, '='),
        free_of(b.scope, '='),
        free_of(b.token_type, '='),
    ensures
        free_of(json_of(b), '='),
{
    reveal_strlit("access_token");
    reveal_strlit("expires_in");
    reveal_strlit("refresh_token");
    reveal_strlit("refresh_token_expires_in");
    reveal_strlit("scope");
    reveal_strlit("token_type");
    assert(free_of("access_token"@, '='));
    assert(free_of("expires_in"@, '='));
    assert(free_of("refresh_token"@, '='));
    assert(free_of("refresh_token_expires_in"@, '='));
    assert(free_of("scope"@, '='));
    assert(free_of("token_type"@, '='));
    lemma_json_string_free_of_eq("access_token"@);
    lemma_json_string_free_of_eq("expires_in"@);
    lemma_json_string_free_of_eq("refresh_token"@);
    lemma_json_string_free_of_eq("refresh_token_expires_in"@);
    lemma_json_string_free_of_eq("scope"@);
    lemma_json_string_free_of_eq("token_type"@);
    lemma_json_string_free_of_eq(b.access_token);
    lemma_json_string_free_of_eq(b.refresh_token);
    lemma_json_string_free_of_eq(b.scope);
    lemma_json_string_free_of_eq(b.token_type);
    lemma_dec_free_of_eq(b.expires_in);
    lemma_dec_free_of_eq(b.refresh_token_expires_in);
    assert(free_of(seq!['{'], '='));
    assert(free_of(seq!['}'], '='));
    assert(free_of(seq![':'], '='));
    assert(free_of(seq![','], '='));
    lemma_free_of_concat(json_string_of(b.token_type), seq!['}'], '=');
    lemma_free_of_concat(seq![':'], json_string_of(b.token_type) + seq!['}'], '=');
    lemma_free_of_concat(
        json_string_of("token_type"@),
        seq![':'] + (json_string_of(b.token_type) + seq!['}']),
        '=',
    );
    assert(json_from_token_type(b) =~= json_string_of("token_type"@) + (seq![':']
        + (json_string_of(b.token_type) + seq!['}'])));

    lemma_free_of_concat(seq![','], json_from_token_type(b), '=');
    lemma_free_of_concat(json_string_of(b.scope), seq![','] + json_from_token_type(b), '=');
    lemma_free_of_concat(
        seq![':'],
        json_string_of(b.scope) + (seq![','] + json_from_token_type(b)),
        '=',
    );
    lemma_free_of_concat(
        json_string_of("scope"@),
        seq![':'] + (json_string_of(b.scope) + (seq![','] + json_from_token_type(b))),
        '=',
    );
    assert(json_from_scope(b) =~= json_string_of("scope"@) + (seq![':'] + (json_string_of(b.scope)
        + (seq![','] + json_from_token_type(b)))));

    lemma_free_of_concat(seq![','], json_from_scope(b), '=');
    lemma_free_of_concat(
        dec_i64_of(b.refresh_token_expires_in),
        seq![','] + json_from_scope(b),
        '=',
    );
    lemma_free_of_concat(
        seq![':'],
        dec_i64_of(b.refresh_token_expires_in) + (seq![','] + json_from_scope(b)),
        '=',
    );
    lemma_free_of_concat(
        json_string_of("refresh_token_expires_in"@),
        seq![':'] + (dec_i64_of(b.refresh_token_expires_in) + (seq![','] + json_from_scope(b))),
        '=',
    );
    assert(json_from_refresh_expiry(b) =~= json_string_of("refresh_token_expires_in"@) + (seq![':']
        + (dec_i64_of(b.refresh_token_expires_in) + (seq![','] + json_from_scope(b)))));

    lemma_free_of_concat(seq![','], json_from_refresh_expiry(b), '=');
    lemma_free_of_concat(
        json_string_of(b.refresh_token),
        seq![','] + json_from_refresh_expiry(b),
        '=',
    );
    lemma_free_of_concat(
        seq![':'],
        json_string_of(b.refresh_token) + (seq![','] + json_from_refresh_expiry(b)),
        '=',
    );
    lemma_free_of_concat(
        json_string_of("refresh_token"@),
        seq![':'] + (json_string_of(b.refresh_token) + (seq![','] + json_from_refresh_expiry(b))),
        '=',
    );
    assert(json_from_refresh_token(b) =~= json_string_of("refresh_token"@) + (seq![':']
        + (json_string_of(b.refresh_token) + (seq![','] + json_from_refresh_expiry(b)))));

    lemma_free_of_concat(seq![','], json_from_refresh_token(b), '=');
    lemma_free_of_concat(dec_i64_of(b.expires_in), seq![','] + json_from_refresh_token(b), '=');
    lemma_free_of_concat(
        seq![':'],
        dec_i64_of(b.expires_in) + (seq![','] + json_from_refresh_token(b)),
        '=',
    );
    lemma_free_of_concat(
        json_string_of("expires_in"@),
        seq![':'] + (dec_i64_of(b.expires_in) + (seq![','] + json_from_refresh_token(b))),
        '=',
    );
    assert(json_from_expires_in(b) =~= json_string_of("expires_in"@) + (seq![':'] + (dec_i64_of(
        b.expires_in,
    ) + (seq![','] + json_from_refresh_token(b)))));

    lemma_free_of_concat(seq![','], json_from_expires_in(b), '=');
    lemma_free_of_concat(
        json_string_of(b.access_token),
        seq![','] + json_from_expires_in(b),
        '=',
    );
    lemma_free_of_concat(
        seq![':'],
        json_string_of(b.access_token) + (seq![','] + json_from_expires_in(b)),
        '=',
    );
    lemma_free_of_concat(
        json_string_of("access_token"@),
        seq![':'] + (json_string_of(b.access_token) + (seq![','] + json_from_expires_in(b))),
        '=',
    );
    assert(json_from_access_token(b) =~= json_string_of("access_token"@) + (seq![':']
        + (json_string_of(b.access_token) + (seq![','] + json_from_expires_in(b)))));

    lemma_free_of_concat(seq!['{'], json_from_access_token(b), '=');
    assert(json_of(b) =~= seq!['{'] + json_from_access_token(b));
}

/// The pairs of a serialized record decode back to exactly the bundle.
pub proof fn lemma_bundle_pairs_decode(b: TokenBundleView)
    requires
        b.wf(),
    ensures
        bundle_from_pairs_spec(bundle_pairs(b)) == Some(b),
{
    reveal_strlit("access_token");
    reveal_strlit("expires_in");
    reveal_strlit("refresh_token");
    reveal_strlit("refresh_token_expires_in");
    reveal_strlit("scope");
    reveal_strlit("token_type");
    assert("access_token"@.len() == 12);
    assert("expires_in"@.len() == 10);
    assert("refresh_token"@.len() == 13);
    assert("refresh_token_expires_in"@.len() == 24);
    assert("scope"@.len() == 5);
    assert("token_type"@.len() == 10);
    assert("expires_in"@[0] == 'e' && "token_type"@[0] == 't');

    let p_at = ("access_token"@, b.access_token);
    let p_ei = ("expires_in"@, dec_i64_of(b.expires_in));
    let p_rt = ("refresh_token"@, b.refresh_token);
    let p_rte = ("refresh_token_expires_in"@, dec_i64_of(b.refresh_token_expires_in));
    let p_sc = ("scope"@, b.scope);
    let p_tt = ("token_type"@, b.token_type);
    let ps = bundle_pairs(b);
    let ps5 = seq![p_at, p_ei, p_rt, p_rte, p_sc];
    let ps4 = seq![p_at, p_ei, p_rt, p_rte];
    let ps3 = seq![p_at, p_ei, p_rt];
    let ps2 = seq![p_at, p_ei];
    let ps1 = seq![p_at];
    assert(ps.drop_last() =~= ps5);
    assert(ps5.drop_last() =~= ps4);
    assert(ps4.drop_last() =~= ps3);
    assert(ps3.drop_last() =~= ps2);
    assert(ps2.drop_last() =~= ps1);
    assert(ps1.drop_last() =~= Seq::<(Seq<char>, Seq<char>)>::empty());

    assert(last_value(ps, "token_type"@) == Some(b.token_type));

    assert(last_value(ps5, "scope"@) == Some(b.scope));
    assert(last_value(ps, "scope"@) == Some(b.scope));

    assert(last_value(ps4, "refresh_token_expires_in"@) == Some(
        dec_i64_of(b.refresh_token_expires_in),
    ));
    assert(last_value(ps5, "refresh_token_expires_in"@) == Some(
        dec_i64_of(b.refresh_token_expires_in),
    ));
    assert(last_value(ps, "refresh_token_expires_in"@) == Some(
        dec_i64_of(b.refresh_token_expires_in),
    ));

    assert(last_value(ps3, "refresh_token"@) == Some(b.refresh_token));
    assert(last_value(ps4, "refresh_token"@) == Some(b.refresh_token));
    assert(last_value(ps5, "refresh_token"@) == Some(b.refresh_token));
    assert(last_value(ps, "refresh_token"@) == Some(b.refresh_token));

    assert(last_value(ps2, "expires_in"@) == Some(dec_i64_of(b.expires_in)));
    assert(last_value(ps3, "expires_in"@) == Some(dec_i64_of(b.expires_in)));
    assert(last_value(ps4, "expires_in"@) == Some(dec_i64_of(b.expires_in)));
    assert(last_value(ps5, "expires_in"@) == Some(dec_i64_of(b.expires_in)));
    assert(last_value(ps, "expires_in"@) == Some(dec_i64_of(b.expires_in)));

    assert(last_value(ps1, "access_token"@) == Some(b.access_token));
    assert(last_value(ps2, "access_token"@) == Some(b.access_token));
    assert(last_value(ps3, "access_token"@) == Some(b.access_token));
    assert(last_value(ps4, "access_token"@) == Some(b.access_token));
    assert(last_value(ps5, "access_token"@) == Some(b.access_token));
    assert(last_value(ps, "access_token"@) == Some(b.access_token));

    let ei = b.expires_in as i64;
    let rte = b.refresh_token_expires_in as i64;
    lemma_parse_dec_i64(ei);
    lemma_parse_dec_i64(rte);
    assert(ei as int == b.expires_in);
    assert(rte as int == b.refresh_token_expires_in);
    assert(parse_i64_spec(dec_i64_of(b.expires_in)) == Some(b.expires_in));
    assert(parse_i64_spec(dec_i64_of(b.refresh_token_expires_in)) == Some(
        b.refresh_token_expires_in,
    ));
    assert(bundle_from_pairs_spec(ps) == Some(b));
}

} // verus!


