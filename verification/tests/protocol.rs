use std::collections::HashMap;

use tokenbridge::exchange::exchange;
use tokenbridge::handle::generate_handle;
use tokenbridge::json::serialize_bundle;
use tokenbridge::link::{finish_link, prepare_link};
use tokenbridge::lookup::check_secret;
use tokenbridge::store::{store_get, store_insert, store_new, store_remove};
use tokenbridge::token::TokenBundle;

fn sample_bundle() -> TokenBundle {
    TokenBundle {
        access_token: "tok_1".to_string(),
        expires_in: 3600,
        refresh_token: "ref_1".to_string(),
        refresh_token_expires_in: 604800,
        scope: "read".to_string(),
        token_type: "bearer".to_string(),
    }
}

const FORM_BODY: &str = "access_token=tok_1&expires_in=3600&refresh_token=ref_1&refresh_token_expires_in=604800&scope=read&token_type=bearer";

const RECORD: &str = "{\"access_token\":\"tok_1\",\"expires_in\":3600,\"refresh_token\":\"ref_1\",\"refresh_token_expires_in\":604800,\"scope\":\"read\",\"token_type\":\"bearer\"}";

#[test]
fn generated_handles_are_twenty_alphanumerics() {
    for _ in 0..20 {
        let h = generate_handle();
        assert_eq!(h.chars().count(), 20);
        assert!(h.chars().all(|c| c.is_ascii_alphanumeric()));
    }
}

#[test]
fn exchange_then_immediate_lookup_round_trips() {
    let mut store = store_new();
    let h = exchange(&mut store, FORM_BODY).expect("valid body should issue a handle");
    assert_eq!(h.chars().count(), 20);
    let held = store_get(&store, &h).expect("freshly issued handle should be present");
    assert_eq!(held.access_token, "tok_1");
    assert_eq!(held.expires_in, 3600);
    assert_eq!(held.refresh_token, "ref_1");
    assert_eq!(held.refresh_token_expires_in, 604800);
    assert_eq!(held.scope, "read");
    assert_eq!(held.token_type, "bearer");
}

#[test]
fn failed_exchange_issues_no_handle() {
    let mut store = store_new();
    let body = "access_token=tok_1&expires_in=oops";
    assert!(exchange(&mut store, body).is_none());
}

#[test]
fn full_linking_scenario() {
    // exchange, link, consume, second link fails: the scenario end to end,
    // with the durable store played by a plain map as the caller would.
    let mut store = store_new();
    let handle = "h0000000000000000001".to_string();
    store_insert(&mut store, handle.clone(), sample_bundle());

    let record = prepare_link(&store, &handle).expect("known handle should serialize");
    assert_eq!(record, RECORD);

    let mut durable: HashMap<String, String> = HashMap::new();
    durable.insert("tg_42".to_string(), record.clone());
    finish_link(&mut store, &handle, true);

    // the handle is consumed: lookup and a second link attempt both fail
    assert!(store_get(&store, &handle).is_none());
    assert!(prepare_link(&store, &handle).is_none());

    // gated lookup with the right secret returns the exact record
    assert!(check_secret(Some("s3cr3t"), "s3cr3t"));
    let fetched = durable.get("tg_42").expect("record should be stored");
    assert_eq!(fetched, RECORD);
}

#[test]
fn failed_durable_write_keeps_handle() {
    let mut store = store_new();
    let handle = "h0000000000000000001".to_string();
    store_insert(&mut store, handle.clone(), sample_bundle());

    let first = prepare_link(&store, &handle).expect("handle present");
    finish_link(&mut store, &handle, false);

    // retry succeeds with the same record
    let second = prepare_link(&store, &handle).expect("handle must survive a failed write");
    assert_eq!(first, second);
    finish_link(&mut store, &handle, true);
    assert!(prepare_link(&store, &handle).is_none());
}

#[test]
fn wrong_or_missing_secret_is_rejected() {
    assert!(!check_secret(Some("wrong"), "s3cr3t"));
    assert!(!check_secret(Some(""), "s3cr3t"));
    assert!(!check_secret(None, "s3cr3t"));
    assert!(!check_secret(Some("s3cr3t "), "s3cr3t"));
    assert!(check_secret(Some("s3cr3t"), "s3cr3t"));
}

#[test]
fn insert_overwrites_existing_handle() {
    let mut store = store_new();
    let handle = "hX000000000000000002".to_string();
    store_insert(&mut store, handle.clone(), sample_bundle());
    let mut second = sample_bundle();
    second.access_token = "tok_2".to_string();
    store_insert(&mut store, handle.clone(), second);
    let held = store_get(&store, &handle).expect("handle present");
    assert_eq!(held.access_token, "tok_2");
}

#[test]
fn remove_is_idempotent() {
    let mut store = store_new();
    store_remove(&mut store, "never-inserted");
    let handle = "hY000000000000000003".to_string();
    store_insert(&mut store, handle.clone(), sample_bundle());
    store_remove(&mut store, &handle);
    store_remove(&mut store, &handle);
    assert!(store_get(&store, &handle).is_none());
}

#[test]
fn record_text_matches_serializer() {
    let b = sample_bundle();
    assert_eq!(serialize_bundle(&b), RECORD);
}
