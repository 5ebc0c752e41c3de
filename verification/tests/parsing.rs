use tokenbridge::exchange::parse_token_response;
use tokenbridge::form::querify;
use tokenbridge::json::serialize_bundle;
use tokenbridge::num::parse_i64;
use tokenbridge::token::{bundle_from_pairs, TokenBundle};

fn sample_bundle() -> TokenBundle {
    TokenBundle {
        access_token: "tok_1".to_string(),
        expires_in: 3600,
        refresh_token: "ref_1".to_string(),
        refresh_token_expires_in: 604800,
        scope: "read".to_string(),
        token_type: "bearer".to_string(),
    }
}

const FORM_BODY: &str = "access_token=tok_1&expires_in=3600&refresh_token=ref_1&refresh_token_expires_in=604800&scope=read&token_type=bearer";

const JSON_BODY: &str = "{\"access_token\":\"tok_1\",\"expires_in\":3600,\"refresh_token\":\"ref_1\",\"refresh_token_expires_in\":604800,\"scope\":\"read\",\"token_type\":\"bearer\"}";

fn assert_is_sample(b: &TokenBundle) {
    assert_eq!(b.access_token, "tok_1");
    assert_eq!(b.expires_in, 3600);
    assert_eq!(b.refresh_token, "ref_1");
    assert_eq!(b.refresh_token_expires_in, 604800);
    assert_eq!(b.scope, "read");
    assert_eq!(b.token_type, "bearer");
}

#[test]
fn form_response_exact_values() {
    let b = parse_token_response(FORM_BODY).expect("form body should parse");
    assert_is_sample(&b);
}

#[test]
fn json_response_exact_values() {
    let b = parse_token_response(JSON_BODY).expect("json body should parse");
    assert_is_sample(&b);
}

#[test]
fn json_with_whitespace_and_string_numbers() {
    let body = "  { \"access_token\" : \"a\" ,\n\t\"expires_in\": \"12\", \"refresh_token\": \"r\", \"refresh_token_expires_in\": -3, \"scope\": \"s\", \"token_type\": \"t\" }  ";
    let b = parse_token_response(body).expect("spaced json should parse");
    assert_eq!(b.access_token, "a");
    assert_eq!(b.expires_in, 12);
    assert_eq!(b.refresh_token_expires_in, -3);
}

#[test]
fn missing_any_field_fails() {
    let pairs = [
        ("access_token", "tok_1"),
        ("expires_in", "3600"),
        ("refresh_token", "ref_1"),
        ("refresh_token_expires_in", "604800"),
        ("scope", "read"),
        ("token_type", "bearer"),
    ];
    for skip in 0..pairs.len() {
        let body: Vec<String> = pairs
            .iter()
            .enumerate()
            .filter(|(i, _)| *i != skip)
            .map(|(_, (k, v))| format!("{k}={v}"))
            .collect();
        let body = body.join("&");
        assert!(
            parse_token_response(&body).is_none(),
            "body missing {} should fail",
            pairs[skip].0
        );
    }
}

#[test]
fn numeric_parse_failure_is_terminal() {
    let body = FORM_BODY.replace("3600", "abc");
    assert!(parse_token_response(&body).is_none());
}

#[test]
fn empty_field_value_fails() {
    let body = FORM_BODY.replace("tok_1", "");
    assert!(parse_token_response(&body).is_none());
}

#[test]
fn unknown_keys_are_skipped() {
    let body = format!("zzz=1&{FORM_BODY}&junk=2");
    let b = parse_token_response(&body).expect("extra keys are skipped");
    assert_is_sample(&b);
}

#[test]
fn later_pair_overwrites_earlier() {
    let body = format!("{FORM_BODY}&access_token=tok_2");
    let b = parse_token_response(&body).expect("should parse");
    assert_eq!(b.access_token, "tok_2");
}

#[test]
fn querify_splits_pairs() {
    let v = querify("a=b&c=d&nopair&x=");
    assert_eq!(v, vec![("a", "b"), ("c", "d"), ("x", "")]);
}

#[test]
fn querify_keeps_text_between_first_and_second_equals() {
    let v = querify("a=b=c");
    assert_eq!(v, vec![("a", "b")]);
}

#[test]
fn bundle_from_pairs_exact() {
    let pairs: Vec<(String, String)> = vec![
        ("access_token".to_string(), "tok_1".to_string()),
        ("expires_in".to_string(), "3600".to_string()),
        ("refresh_token".to_string(), "ref_1".to_string()),
        ("refresh_token_expires_in".to_string(), "604800".to_string()),
        ("scope".to_string(), "read".to_string()),
        ("token_type".to_string(), "bearer".to_string()),
    ];
    let b = bundle_from_pairs(&pairs).expect("complete pairs should build");
    assert_is_sample(&b);
}

#[test]
fn serialize_bundle_exact_text() {
    let s = serialize_bundle(&sample_bundle());
    assert_eq!(s, JSON_BODY);
}

#[test]
fn serialized_record_is_valid_json() {
    let mut b = sample_bundle();
    b.scope = "quote\" slash\\ line\nend\ttab\rdone".to_string();
    let s = serialize_bundle(&b);
    let v: serde_json::Value = serde_json::from_str(&s).expect("record should be valid JSON");
    assert_eq!(v.get("scope").and_then(|x| x.as_str()), Some(b.scope.as_str()));
    assert_eq!(v.get("expires_in").and_then(|x| x.as_i64()), Some(3600));
    assert_eq!(v.get("access_token").and_then(|x| x.as_str()), Some("tok_1"));
}

#[test]
fn serialize_then_parse_round_trip() {
    let mut b = sample_bundle();
    b.refresh_token = "with \"escapes\" and \\ inside".to_string();
    b.expires_in = -7;
    let s = serialize_bundle(&b);
    let back = parse_token_response(&s).expect("own record should parse");
    assert_eq!(back.access_token, b.access_token);
    assert_eq!(back.expires_in, b.expires_in);
    assert_eq!(back.refresh_token, b.refresh_token);
    assert_eq!(back.refresh_token_expires_in, b.refresh_token_expires_in);
    assert_eq!(back.scope, b.scope);
    assert_eq!(back.token_type, b.token_type);
}

#[test]
fn parse_i64_edges() {
    assert_eq!(parse_i64("0"), Some(0));
    assert_eq!(parse_i64("+42"), Some(42));
    assert_eq!(parse_i64("-42"), Some(-42));
    assert_eq!(parse_i64("0012"), Some(12));
    assert_eq!(parse_i64("9223372036854775807"), Some(i64::MAX));
    assert_eq!(parse_i64("-9223372036854775808"), Some(i64::MIN));
    assert_eq!(parse_i64("9223372036854775808"), None);
    assert_eq!(parse_i64("-9223372036854775809"), None);
    assert_eq!(parse_i64("00000000000000000000000007"), Some(7));
    assert_eq!(parse_i64(""), None);
    assert_eq!(parse_i64("-"), None);
    assert_eq!(parse_i64("1a"), None);
    assert_eq!(parse_i64(" 1"), None);
}
