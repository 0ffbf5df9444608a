use matrix_channel::decryption::{
    decrypt_olm_message, find_message, handle_olm_encrypted_to_device, handle_room_key_event,
    try_decrypt_event, DecryptOlm, OlmToDevice, TryDecrypt,
};
use matrix_channel::encryption::{
    encrypt_message, find_claimed_key, share_room_key, EncryptMessage, Sender, Share, ShareRoomKey,
};
use matrix_channel::crypto_store::{
    StoredAccount, StoredInboundMegolmSession, StoredOutboundMegolmSession,
};
use matrix_channel::host::{HostCall, HostReply, HttpResponse, ParsedResponse, Step};
use matrix_channel::megolm::{InboundSession, OutboundSession};
use matrix_channel::olm::{CurveKey, NormalText, OlmAccount, OlmText, PreKeyText};
use matrix_channel::session_cache::MegolmSessionCache;
use matrix_channel::types::{
    DeviceKeys, EncryptedContent, EventContent, KeysClaimResponse, KeysQueryResponse,
    OlmEncryptedContent, RoomEvent, ToDeviceContent, ToDeviceEvent,
};

fn failure<F, T>(step: Step<F, Result<T, String>>) -> String {
    match step {
        Step::Done(Err(e)) => e,
        _ => panic!("a failure"),
    }
}

fn asked<F, T>(step: Step<F, T>) -> (HostCall, F) {
    match step {
        Step::Ask(call, flow) => (call, flow),
        _ => panic!("a question"),
    }
}

fn account(account: &OlmAccount, pickled: &str) -> StoredAccount {
    StoredAccount {
        user_id: "@bot:h".to_string(),
        device_id: "D".to_string(),
        pickled_account: pickled.to_string(),
        ed25519_key: account.ed25519_key(),
        curve25519_key: account.curve25519_key(),
        keys_uploaded: true,
        uploaded_key_count: 0,
    }
}

#[test]
fn room_keys_must_be_whole() {
    let fails = |json: &str| failure(handle_room_key_event(json.as_bytes(), ""));
    assert_eq!(fails("nonsense"), "room_key missing algorithm");
    assert_eq!(fails(r#"{"algorithm":"x"}"#), "Unsupported room key algorithm: x");
    let a = r#""algorithm":"m.megolm.v1.aes-sha2""#;
    assert_eq!(fails(&format!("{{{}}}", a)), "room_key missing room_id");
    let r = r#""room_id":"!r:h""#;
    assert_eq!(fails(&format!("{{{},{}}}", a, r)), "room_key missing session_id");
    let s = r#""session_id":"sid""#;
    assert_eq!(fails(&format!("{{{},{},{}}}", a, r, s)), "room_key missing session_key");
    let k = r#""session_key":"bad""#;
    let e = fails(&format!("{{{},{},{},{}}}", a, r, s, k));
    assert!(e.starts_with("Invalid Megolm session key: "));
    let session = OutboundSession::new();
    let k = format!(r#""session_key":"{}""#, session.session_key());
    assert_eq!(
        fails(&format!("{{{},{},{},{}}}", a, r, s, k)),
        format!("Session ID mismatch: expected sid, got {}", session.session_id())
    );
    let s = format!(r#""session_id":"{}""#, session.session_id());
    let json = format!(r#"{{"content":{{{},{},{},{}}}}}"#, a, r, s, k);
    let (call, _) = asked(handle_room_key_event(json.as_bytes(), "/content"));
    assert!(matches!(call, HostCall::Encrypt(_)));
}

#[test]
fn olm_messages_are_found_for_our_key() {
    let content = |json: &str| OlmEncryptedContent {
        algorithm: "m.olm.v1.curve25519-aes-sha2".to_string(),
        sender_key: String::new(),
        ciphertext: vec![("ours".to_string(), json.as_bytes().to_vec())],
    };
    let fails = |json: &str, key: &str| find_message(&content(json), key).err().unwrap();
    assert_eq!(fails("{}", "theirs"), "No ciphertext for our device");
    assert_eq!(fails("{}", "ours"), "Missing message type in Olm ciphertext");
    assert_eq!(fails(r#"{"type":0}"#, "ours"), "Missing body in Olm ciphertext");
    let e = fails(r#"{"type":0,"body":"?"}"#, "ours");
    assert!(e.starts_with("Invalid Olm PreKey message: "));
    let e = fails(r#"{"type":1,"body":"?"}"#, "ours");
    assert!(e.starts_with("Invalid Olm normal message: "));
    assert_eq!(fails(r#"{"type":2,"body":"x"}"#, "ours"), "Unknown Olm message type: 2");
}

fn olm_event(olm: Result<OlmEncryptedContent, String>) -> ToDeviceEvent {
    ToDeviceEvent {
        event_type: "m.room.encrypted".to_string(),
        sender: None,
        content: ToDeviceContent { json: vec![], olm },
    }
}

#[test]
fn olm_events_must_be_supported() {
    let e = failure(handle_olm_encrypted_to_device(olm_event(Err("no".to_string()))));
    assert_eq!(e, "Failed to parse Olm encrypted content: no");
    let content = |algorithm: &str, key: &str| OlmEncryptedContent {
        algorithm: algorithm.to_string(),
        sender_key: key.to_string(),
        ciphertext: vec![],
    };
    let e = failure(handle_olm_encrypted_to_device(olm_event(Ok(content("x", "k")))));
    assert_eq!(e, "Unsupported to-device algorithm: x");
    let olm = "m.olm.v1.curve25519-aes-sha2";
    let e = failure(handle_olm_encrypted_to_device(olm_event(Ok(content(olm, "k")))));
    assert!(e.starts_with("Invalid sender Curve25519 key: "));
    let key = OlmAccount::new().curve25519_key();
    let (call, flow) = asked(handle_olm_encrypted_to_device(olm_event(Ok(content(olm, &key)))));
    assert!(matches!(call, HostCall::ReadAccount(_)));
    let e = failure(flow.resume(HostReply::Account(None)));
    assert_eq!(e, "No crypto account for Olm decryption");
}

#[test]
fn olm_payloads_are_room_keys_or_nothing() {
    let e = failure(OlmToDevice::read(vec![0xff]));
    assert!(e.starts_with("Olm plaintext not valid UTF-8: "));
    let e = failure(OlmToDevice::read(b"{".to_vec()));
    assert!(e.starts_with("Olm plaintext not valid JSON: "));
    match OlmToDevice::read(br#"{"type":"m.dummy"}"#.to_vec()) {
        Step::Done(Ok(None)) => {}
        _ => panic!("nothing to store"),
    }
    let e = failure(OlmToDevice::read(br#"{"type":"m.room_key"}"#.to_vec()));
    assert_eq!(e, "m.room_key missing content");
    let e = failure(OlmToDevice::read(br#"{"type":"m.room_key","content":{}}"#.to_vec()));
    assert_eq!(e, "room_key missing algorithm");
}

fn sealed_event(encrypted: Result<EncryptedContent, String>) -> RoomEvent {
    RoomEvent {
        event_type: "m.room.encrypted".to_string(),
        event_id: None,
        sender: None,
        origin_server_ts: None,
        content: EventContent { message: Err(String::new()), encrypted },
        state_key: None,
    }
}

fn some(s: &str) -> Option<String> {
    Some(s.to_string())
}

#[test]
fn encrypted_events_must_be_whole() {
    let fails = |encrypted: Result<EncryptedContent, String>| {
        match try_decrypt_event("!r:h", &sealed_event(encrypted), MegolmSessionCache::new()) {
            Step::Done((Err(e), _)) => e,
            _ => panic!("a failure"),
        }
    };
    let content = |s: Option<String>, k: Option<String>, c: Option<String>| EncryptedContent {
        algorithm: "m.megolm.v1.aes-sha2".to_string(),
        sender_key: k,
        session_id: s,
        device_id: None,
        ciphertext: c,
    };
    assert_eq!(fails(Err("no".to_string())), "Failed to parse encrypted content: no");
    let mut odd = content(None, None, None);
    odd.algorithm = "x".to_string();
    assert_eq!(fails(Ok(odd)), "Unsupported algorithm: x");
    assert_eq!(fails(Ok(content(None, None, None))), "Missing session_id in encrypted event");
    assert_eq!(
        fails(Ok(content(some("s"), None, None))),
        "Missing sender_key in encrypted event"
    );
    assert_eq!(
        fails(Ok(content(some("s"), some("k"), None))),
        "Missing ciphertext in encrypted event"
    );
    let event = sealed_event(Ok(content(some("s"), some("k"), some("c"))));
    let (call, flow) = asked(try_decrypt_event("!r:h", &event, MegolmSessionCache::new()));
    assert!(matches!(
        call,
        HostCall::ReadInbound(p) if p == "crypto/megolm_inbound/_r_h/s.json"
    ));
    match TryDecrypt::resume(flow, HostReply::Inbound(None)) {
        Step::Done((Err(e), _)) => assert_eq!(e, "Missing Megolm session s"),
        _ => panic!("a failure"),
    }
}

#[test]
fn normal_messages_need_a_session() {
    let bob = OlmAccount::new().with_one_time_keys(1);
    let alice = OlmAccount::new();
    let bob_key = CurveKey::from_base64(&bob.curve25519_key()).unwrap();
    let once = CurveKey::from_base64(&bob.one_time_keys()[0].1).unwrap();
    let (session, _, body) = alice.create_outbound_session(&bob_key, &once).encrypt("hi").unwrap();
    let prekey = || OlmText::PreKey(PreKeyText::from_base64(&body).unwrap());
    let alice_key = || CurveKey::from_base64(&alice.curve25519_key()).unwrap();

    // A pre-key message without a session asks for the account.
    let (_, flow) = decrypt_olm_message(alice_key(), prekey());
    let (call, flow) = asked(flow.resume(HostReply::OlmSessions(vec![])));
    assert!(matches!(call, HostCall::ReadAccount(_)));
    let e = failure(flow.resume(HostReply::Account(None)));
    assert_eq!(e, "No crypto account for inbound session");

    // Its one-time key must be known.
    let (_, flow) = decrypt_olm_message(alice_key(), prekey());
    let (_, flow) = asked(flow.resume(HostReply::OlmSessions(vec![])));
    let stranger = OlmAccount::new();
    let (_, flow) = asked(flow.resume(HostReply::Account(Some(account(&stranger, "AA==")))));
    let e = failure(flow.resume(HostReply::Bytes(Ok(stranger.pickle()))));
    assert!(e.starts_with("Failed to create inbound Olm session: "));

    // A normal message without a session fails.
    let (_, bob_session, _) = bob
        .create_inbound_session(&alice_key(), &PreKeyText::from_base64(&body).unwrap())
        .unwrap();
    let (_, kind, body) = bob_session.encrypt("back").unwrap();
    assert_eq!(kind, 1);
    let normal = || OlmText::Normal(NormalText::from_base64(&body).unwrap());
    let (_, flow) = decrypt_olm_message(alice_key(), normal());
    let e = failure(flow.resume(HostReply::OlmSessions(vec![])));
    assert_eq!(
        e,
        format!(
            "No matching Olm session for sender_key={} and message is not a PreKey message (stored_sessions_tried=0)",
            alice.curve25519_key()
        )
    );

    // What follows an attempt depends on its outcome alone.
    let outcome = session.decrypt(&normal());
    let stored = matrix_channel::crypto_store::StoredOlmSession {
        sender_key: "k".to_string(),
        pickled_session: "AA==".to_string(),
        last_use_ts: 1,
    };
    let step = DecryptOlm::after_attempt(alice_key(), normal(), 1, stored, vec![], outcome);
    let (call, flow) = asked(step);
    assert!(matches!(call, HostCall::Encrypt(_)));
    let (call, flow) = asked(flow.resume(HostReply::Bytes(Ok(vec![1]))));
    assert!(matches!(call, HostCall::Now));
    let (call, flow) = asked(flow.resume(HostReply::Time(77)));
    assert!(matches!(call, HostCall::ReadOlmSessions(_)));
    let other = |pickled: &str| matrix_channel::crypto_store::StoredOlmSession {
        sender_key: "k".to_string(),
        pickled_session: pickled.to_string(),
        last_use_ts: 2,
    };
    let stored = vec![other("AA=="), other("Ag==")];
    let (call, flow) = asked(flow.resume(HostReply::OlmSessions(stored)));
    match call {
        HostCall::Write(path, text) => {
            assert!(path.starts_with("crypto/olm_sessions/"));
            assert_eq!(
                text,
                format!(
                    "{}{}",
                    r#"[{"sender_key":"k","pickled_session":"AQ==","last_use_ts":77},"#,
                    r#"{"sender_key":"k","pickled_session":"Ag==","last_use_ts":2}]"#
                )
            );
        }
        _ => panic!("a write"),
    }
    match flow.resume(HostReply::Written(Ok(()))) {
        Step::Done(Ok(plaintext)) => assert_eq!(plaintext, b"back".to_vec()),
        _ => panic!("the plaintext"),
    }
}

#[test]
fn claimed_keys_must_be_there() {
    let response = |json: &str| KeysClaimResponse {
        one_time_keys: vec![(
            "@al:h".to_string(),
            vec![("D".to_string(), json.as_bytes().to_vec())],
        )],
    };
    let fails = |json: &str, user: &str, device: &str| {
        find_claimed_key(&response(json), user, device).err().unwrap()
    };
    assert_eq!(fails("{}", "@bo:h", "D"), "No OTK claimed for user @bo:h");
    assert_eq!(fails("{}", "@al:h", "E"), "No OTK claimed for device E");
    assert_eq!(fails("{}", "@al:h", "D"), "Empty OTK response for device");
    assert_eq!(fails("[]", "@al:h", "D"), "Empty OTK response for device");
    assert_eq!(fails(r#"{"a":{}}"#, "@al:h", "D"), "OTK response missing key field");
    let e = fails(r#"{"a":{"key":"?"}}"#, "@al:h", "D");
    assert!(e.starts_with("Invalid OTK Curve25519 key: "));
    let key = OlmAccount::new().curve25519_key();
    let json = format!(r#"{{"signed_curve25519:A~/":{{"key":"{}"}}}}"#, key);
    assert_eq!(find_claimed_key(&response(&json), "@al:h", "D").ok().unwrap().to_base64(), key);
}

fn share() -> Share {
    Share {
        homeserver_url: "https://h".to_string(),
        room_id: "!r:h".to_string(),
        session_key: "key".to_string(),
        session_id: "sid".to_string(),
        sender: Sender {
            user_id: "@bot:h".to_string(),
            device_id: "D".to_string(),
            ed25519_key: "ed".to_string(),
            curve25519_key: "cu".to_string(),
        },
        txn: 0,
    }
}

fn members(body: &str) -> HostReply {
    HostReply::Http(Ok(HttpResponse { status: 200, body: body.as_bytes().to_vec() }))
}

fn keys_found(keys: Vec<(&str, &str)>) -> HostReply {
    let keys = keys.into_iter().map(|(k, v)| (k.to_string(), v.to_string())).collect();
    let device = DeviceKeys {
        user_id: "@al:h".to_string(),
        device_id: "AD".to_string(),
        algorithms: vec![],
        keys,
        signatures: vec![],
    };
    HostReply::KeysQuery(Ok(ParsedResponse {
        response: HttpResponse { status: 200, body: vec![] },
        parsed: Ok(KeysQueryResponse {
            device_keys: vec![("@al:h".to_string(), vec![("AD".to_string(), device)])],
        }),
    }))
}

#[test]
fn sharing_needs_the_keys_of_each_device() {
    let (_, flow) = share_room_key(share());
    match flow.resume(members(r#"{"joined":{}}"#)) {
        Step::Done(Ok(())) => {}
        _ => panic!("nobody to share with"),
    }
    let query = || {
        let (_, flow) = share_room_key(share());
        asked(ShareRoomKey::resume(flow, members(r#"{"joined":{"@al:h":{}}}"#))).1
    };
    let e = failure(query().resume(keys_found(vec![])));
    assert_eq!(e, "No Curve25519 key for @al:h:AD");
    let e = failure(query().resume(keys_found(vec![("curve25519:AD", "?")])));
    assert!(e.starts_with("Invalid target Curve25519 key: "));

    // With a session, but without the key that the payload names.
    let bob = OlmAccount::new();
    let key = bob.curve25519_key();
    let curve = CurveKey::from_base64(&key).unwrap();
    let session = OlmAccount::new().create_outbound_session(&curve, &curve);
    let (_, flow) = asked(query().resume(keys_found(vec![("curve25519:AD", &key)])));
    let stored = matrix_channel::crypto_store::StoredOlmSession {
        sender_key: key.clone(),
        pickled_session: "AA==".to_string(),
        last_use_ts: 1,
    };
    let (call, flow) = asked(flow.resume(HostReply::OlmSessions(vec![stored])));
    assert!(matches!(call, HostCall::Decrypt(bytes) if bytes == vec![0]));
    let e = failure(flow.resume(HostReply::Bytes(Ok(session.pickle()))));
    assert_eq!(e, "No Ed25519 key for @al:h:AD");
}

#[test]
fn session_without_an_index_left_encrypts_nothing() {
    let pickle = String::from_utf8(OutboundSession::new().pickle()).unwrap();
    assert!(pickle.contains("\"counter\":0"));
    let last = pickle.replace("\"counter\":0", "\"counter\":4294967294");
    let session = OutboundSession::from_pickle(last.as_bytes()).unwrap();
    let (session, _) = session.encrypt("last").unwrap();
    assert_eq!(session.message_index(), u32::MAX);
    let spent = session.pickle();
    assert!(session.encrypt("one more").is_none());

    let (_, flow) = encrypt_message("https://h", "!r:h", "text", 0);
    let (_, flow) = asked(EncryptMessage::resume(flow, HostReply::Time(5)));
    let ours = OlmAccount::new();
    let (_, flow) = asked(flow.resume(HostReply::Account(Some(account(&ours, "AA==")))));
    let record = StoredOutboundMegolmSession {
        room_id: "!r:h".to_string(),
        session_id: "sid".to_string(),
        pickled_session: "AA==".to_string(),
        message_count: 1,
        created_ts: 5,
    };
    let (_, flow) = asked(flow.resume(HostReply::Outbound(Some(record))));
    let e = failure(flow.resume(HostReply::Bytes(Ok(spent))));
    assert_eq!(e, "Megolm session has no message index left");
}

#[test]
fn failed_decryption_keeps_the_cached_session() {
    let record = || StoredInboundMegolmSession {
        room_id: "!r:h".to_string(),
        session_id: "s".to_string(),
        sender_key: "k".to_string(),
        pickled_session: "AA==".to_string(),
        forwarded: false,
        seen_indices: vec![4],
    };
    let cache = || {
        MegolmSessionCache::new().insert("!r:h".to_string(), "s".to_string(), record())
    };
    let event = sealed_event(Ok(EncryptedContent {
        algorithm: "m.megolm.v1.aes-sha2".to_string(),
        sender_key: some("k"),
        session_id: some("s"),
        device_id: None,
        ciphertext: some("?"),
    }));
    let inbound = InboundSession::from_session_key(&OutboundSession::new().session_key()).unwrap();
    for reply in [Err("no key".to_string()), Ok(inbound.pickle())] {
        let (call, flow) = asked(try_decrypt_event("!r:h", &event, cache()));
        assert!(matches!(call, HostCall::Decrypt(bytes) if bytes == vec![0]));
        match flow.resume(HostReply::Bytes(reply)) {
            Step::Done((Err(_), cache)) => {
                assert_eq!(cache.get("!r:h", "s").unwrap().seen_indices, vec![4]);
                assert!(cache.get("!r:h", "t").is_none());
            }
            _ => panic!("a failure"),
        }
    }
}
