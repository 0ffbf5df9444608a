use matrix_channel::crypto_store::{
    host_decrypt_pickle, host_encrypt_pickle, open_account, open_inbound_session, open_olm_session,
    open_outbound_session, read_account, read_inbound_megolm_session, read_olm_sessions,
    read_outbound_megolm_session, sanitize_key, save_olm_session, should_rotate_session,
    start_saving_olm, write_account, write_inbound_megolm_session, write_olm_sessions, write_outbound_megolm_session,
    StoredAccount, StoredInboundMegolmSession, StoredOlmSession, StoredOutboundMegolmSession,
    MEGOLM_ROTATION_AGE_MS, MEGOLM_ROTATION_MESSAGE_COUNT, OTK_MIN_COUNT, OTK_UPLOAD_BATCH,
};
use matrix_channel::host::{HostCall, HostReply, Step};
use matrix_channel::olm::OlmAccount;
use matrix_channel::session_cache::MegolmSessionCache;

fn outbound(message_count: u32, created_ts: u64) -> StoredOutboundMegolmSession {
    StoredOutboundMegolmSession {
        room_id: "!room:example.com".to_string(),
        session_id: "session1".to_string(),
        pickled_session: String::new(),
        message_count,
        created_ts,
    }
}

fn inbound(room_id: &str, session_id: &str) -> StoredInboundMegolmSession {
    StoredInboundMegolmSession {
        room_id: room_id.to_string(),
        session_id: session_id.to_string(),
        sender_key: "k".to_string(),
        pickled_session: "p".to_string(),
        forwarded: false,
        seen_indices: vec![0, 17],
    }
}

fn written(call: HostCall) -> (String, String) {
    match call {
        HostCall::Write(path, text) => (path, text),
        _ => panic!("a write"),
    }
}

#[test]
fn test_sanitize_key() {
    assert_eq!(sanitize_key("hello"), "hello");
    assert_eq!(sanitize_key("!room:example.com"), "_room_example.com");
    assert_eq!(sanitize_key("@user:matrix.org"), "_user_matrix.org");
    assert_eq!(sanitize_key("curve25519_key_abc123"), "curve25519_key_abc123");
}

#[test]
fn sanitized_keys_hold_no_separator() {
    assert_eq!(sanitize_key("../a/b+c=é"), ".._a_b_c__");
    assert_eq!(sanitize_key(&sanitize_key("!a/b")), sanitize_key("!a/b"));
}

#[test]
fn test_should_rotate_session_by_count() {
    let session = StoredOutboundMegolmSession {
        room_id: "!room:example.com".to_string(),
        session_id: "session1".to_string(),
        pickled_session: String::new(),
        message_count: 100,
        created_ts: 0,
    };
    assert!(should_rotate_session(&session, 1000));
}

#[test]
fn test_should_rotate_session_by_age() {
    let session = StoredOutboundMegolmSession {
        room_id: "!room:example.com".to_string(),
        session_id: "session1".to_string(),
        pickled_session: String::new(),
        message_count: 1,
        created_ts: 0,
    };
    // More than 1 week old
    let now_ms = 8 * 24 * 60 * 60 * 1000;
    assert!(should_rotate_session(&session, now_ms));
}

#[test]
fn test_should_not_rotate_fresh_session() {
    let session = StoredOutboundMegolmSession {
        room_id: "!room:example.com".to_string(),
        session_id: "session1".to_string(),
        pickled_session: String::new(),
        message_count: 5,
        created_ts: 1000,
    };
    assert!(!should_rotate_session(&session, 2000));
}

#[test]
fn rotation_limits_are_exact() {
    assert_eq!(MEGOLM_ROTATION_MESSAGE_COUNT, 100);
    assert_eq!(MEGOLM_ROTATION_AGE_MS, 7 * 24 * 60 * 60 * 1000);
    assert_eq!((OTK_MIN_COUNT, OTK_UPLOAD_BATCH), (10, 10));
    assert!(!should_rotate_session(&outbound(99, 5), 5 + MEGOLM_ROTATION_AGE_MS - 1));
    assert!(should_rotate_session(&outbound(99, 5), 5 + MEGOLM_ROTATION_AGE_MS));
    // A clock that went back does not rotate.
    assert!(!should_rotate_session(&outbound(0, u64::MAX), 0));
}

#[test]
fn test_stored_account_roundtrip() {
    let account = StoredAccount {
        user_id: "@bot:example.com".to_string(),
        device_id: "ABCDEF".to_string(),
        pickled_account: "pickled_data".to_string(),
        ed25519_key: "ed25519_pub".to_string(),
        curve25519_key: "curve25519_pub".to_string(),
        keys_uploaded: true,
        uploaded_key_count: 50,
    };
    let json = account.to_json();
    let parsed: serde_json::Value = serde_json::from_str(&json).unwrap();
    assert_eq!(parsed["user_id"], account.user_id);
    assert_eq!(parsed["device_id"], account.device_id);
    assert_eq!(parsed["keys_uploaded"], true);
    assert_eq!(parsed["uploaded_key_count"], 50);
    assert_eq!(written(write_account(&account)), ("crypto/account.json".to_string(), json));
}

#[test]
fn records_have_their_places() {
    assert!(matches!(read_account(), HostCall::ReadAccount(p) if p == "crypto/account.json"));
    assert!(matches!(
        read_olm_sessions("a+b/c"),
        HostCall::ReadOlmSessions(p) if p == "crypto/olm_sessions/a_b_c.json"
    ));
    assert!(matches!(
        read_inbound_megolm_session("!r:h", "s/1"),
        HostCall::ReadInbound(p) if p == "crypto/megolm_inbound/_r_h/s_1.json"
    ));
    assert!(matches!(
        read_outbound_megolm_session("!r:h"),
        HostCall::ReadOutbound(p) if p == "crypto/megolm_outbound/_r_h.json"
    ));
}

#[test]
fn records_are_written_as_json() {
    assert_eq!(
        written(write_inbound_megolm_session(&inbound("!r:h", "s"))),
        (
            "crypto/megolm_inbound/_r_h/s.json".to_string(),
            format!(
                "{}{}",
                r#"{"room_id":"!r:h","session_id":"s","sender_key":"k","pickled_session":"p","#,
                r#""forwarded":false,"seen_indices":[0,17]}"#
            )
        )
    );
    let mut session = outbound(3, 9);
    session.pickled_session = "p".to_string();
    assert_eq!(
        written(write_outbound_megolm_session(&session)),
        (
            "crypto/megolm_outbound/_room_example.com.json".to_string(),
            format!(
                "{}{}",
                r#"{"room_id":"!room:example.com","session_id":"session1","pickled_session":"p","#,
                r#""message_count":3,"created_ts":9}"#
            )
        )
    );
    let one = || StoredOlmSession {
        sender_key: "k".to_string(),
        pickled_session: "p".to_string(),
        last_use_ts: 4,
    };
    let json = r#"{"sender_key":"k","pickled_session":"p","last_use_ts":4}"#;
    assert_eq!(
        written(save_olm_session("k", vec![], one())),
        ("crypto/olm_sessions/k.json".to_string(), format!("[{}]", json))
    );
    let other = |pickled: &str| StoredOlmSession {
        sender_key: "k".to_string(),
        pickled_session: pickled.to_string(),
        last_use_ts: 9,
    };
    let other_json = r#"{"sender_key":"k","pickled_session":"q","last_use_ts":9}"#;
    assert_eq!(
        written(save_olm_session("k", vec![other("q")], one())).1,
        format!("[{},{}]", json, other_json)
    );
    // A session replaces its own earlier state, and no other.
    let saved = |replaced: Option<&str>, stored: Vec<StoredOlmSession>| {
        let (call, flow) =
            start_saving_olm("k".to_string(), replaced.map(|s| s.to_string()), one());
        assert!(matches!(
            call,
            HostCall::ReadOlmSessions(p) if p == "crypto/olm_sessions/k.json"
        ));
        match flow.resume(HostReply::OlmSessions(stored)) {
            Step::Ask(call, _) => written(call).1,
            _ => panic!("a write"),
        }
    };
    assert_eq!(
        saved(Some("old"), vec![other("q"), other("old")]),
        format!("[{},{}]", json, other_json)
    );
    assert_eq!(saved(None, vec![other("q")]), format!("[{},{}]", json, other_json));
    assert_eq!(
        written(write_olm_sessions("k", &vec![one(), one()])).1,
        format!("[{},{}]", json, json)
    );
}

#[test]
fn sealed_pickles_are_base64_of_what_the_host_made() {
    let sealed = host_encrypt_pickle(Ok(vec![0, 255, 16])).unwrap();
    assert_eq!(sealed, "AP8Q");
    assert_eq!(host_decrypt_pickle(&sealed).unwrap(), vec![0, 255, 16]);
    assert_eq!(
        host_encrypt_pickle(Err("no key".to_string())).unwrap_err(),
        "Host encryption failed: no key"
    );
    let e = host_decrypt_pickle("?").unwrap_err();
    assert!(e.starts_with("Invalid base64 in stored pickle: "));
}

#[test]
fn opened_pickles_are_what_was_sealed() {
    let account = OlmAccount::new();
    let opened = open_account(Ok(account.pickle())).unwrap();
    assert_eq!(opened.ed25519_key(), account.ed25519_key());
    assert_eq!(
        open_account(Err("bad key".to_string())).err().unwrap(),
        "Host decryption failed: bad key"
    );
    let bad = "Failed to deserialize pickle: ";
    assert!(open_account(Ok(vec![])).err().unwrap().starts_with(bad));
    assert!(open_olm_session(Ok(vec![])).err().unwrap().starts_with(bad));
    assert!(open_inbound_session(Ok(vec![])).err().unwrap().starts_with(bad));
    assert!(open_outbound_session(Ok(vec![])).err().unwrap().starts_with(bad));
}

#[test]
fn cache_is_a_map_by_room_and_session() {
    let cache = MegolmSessionCache::new();
    let (cache, none) = cache.remove("!r:h", "s");
    assert!(none.is_none());
    let cache = cache.insert("!r:h".to_string(), "s".to_string(), inbound("!r:h", "s"));
    let cache = cache.insert("!q:h".to_string(), "s".to_string(), inbound("!q:h", "s"));
    let mut newer = inbound("!r:h", "s");
    newer.seen_indices = vec![3];
    let cache = cache.insert("!r:h".to_string(), "s".to_string(), newer);
    let (cache, found) = cache.remove("!r:h", "s");
    assert_eq!(found.unwrap().seen_indices, vec![3]);
    let (cache, found) = cache.remove("!r:h", "s");
    assert!(found.is_none());
    let (_, found) = cache.remove("!q:h", "s");
    assert_eq!(found.unwrap().room_id, "!q:h");
}
