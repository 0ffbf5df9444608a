use matrix_channel::crypto_store::StoredAccount;
use matrix_channel::decryption::{decrypt_fresh, decrypted_body};
use matrix_channel::device::sign_json;
use matrix_channel::json::{
    canonicalize_json, read_error, read_names, read_number, read_presence, read_stored_list,
    read_string, signable_json, Json, Number,
};
use matrix_channel::megolm::{Ciphertext, InboundSession, OutboundSession};
use matrix_channel::olm::{
    CurveKey, NormalText, OlmAccount, OlmSession, OlmText, PreKeyText,
};

fn text(s: &str) -> Json {
    Json::Str(s.to_string())
}

fn number(n: u64) -> Json {
    Json::Number(Number::Unsigned(n))
}

fn object(members: Vec<(&str, Json)>) -> Json {
    Json::Object(members.into_iter().map(|(k, v)| (k.to_string(), v)).collect())
}

#[test]
fn test_canonicalize_json_simple() {
    let val = object(vec![("b", number(2)), ("a", number(1))]);
    assert_eq!(canonicalize_json(&val), r#"{"a":1,"b":2}"#);
}

#[test]
fn test_canonicalize_json_nested() {
    let val = object(vec![
        ("z", object(vec![("b", Json::Bool(true)), ("a", Json::Null)])),
        ("a", Json::Array(vec![number(1), text("two")])),
    ]);
    assert_eq!(
        canonicalize_json(&val),
        r#"{"a":[1,"two"],"z":{"a":null,"b":true}}"#
    );
}

#[test]
fn test_canonicalize_json_string_escaping() {
    let val = object(vec![("key", text("hello \"world\""))]);
    assert_eq!(canonicalize_json(&val), r#"{"key":"hello \"world\""}"#);
}

#[test]
fn canonical_strings_escape_control_characters() {
    let val = text("\u{8}\t\n\u{c}\r\u{1}\u{1f}\\/é\u{7f}");
    let expected = "\"\\b\\t\\n\\f\\r\\u0001\\u001f\\\\/é\u{7f}\"";
    assert_eq!(canonicalize_json(&val), expected);
}

#[test]
fn canonical_numbers() {
    assert_eq!(canonicalize_json(&Json::Number(Number::Signed(i64::MIN))), "-9223372036854775808");
    assert_eq!(canonicalize_json(&Json::Number(Number::Signed(7))), "7");
    assert_eq!(canonicalize_json(&number(u64::MAX)), "18446744073709551615");
    assert_eq!(canonicalize_json(&Json::Number(Number::Decimal("1.5".to_string()))), "1.5");
    assert_eq!(canonicalize_json(&Json::Bool(false)), "false");
    assert_eq!(canonicalize_json(&Json::Array(vec![])), "[]");
    assert_eq!(canonicalize_json(&object(vec![])), "{}");
}

#[test]
fn canonical_order_is_that_of_code_points() {
    let val = object(vec![("é", number(1)), ("z", number(2)), ("", number(3)), ("zz", number(4))]);
    assert_eq!(canonicalize_json(&val), r#"{"":3,"z":2,"zz":4,"é":1}"#);
}

#[test]
fn canonical_text_agrees_with_serde_json() {
    let source = r#"{"b":[true,null,-3,"x\ny"],"a":{"d":1,"c":"é"}}"#;
    let value: serde_json::Value = serde_json::from_str(source).unwrap();
    let ours = object(vec![
        (
            "b",
            Json::Array(vec![
                Json::Bool(true),
                Json::Null,
                Json::Number(Number::Signed(-3)),
                text("x\ny"),
            ]),
        ),
        ("a", object(vec![("d", number(1)), ("c", text("é"))])),
    ]);
    assert_eq!(canonicalize_json(&ours), value.to_string());
}

#[test]
fn signatures_and_unsigned_data_are_not_signed() {
    let bare = object(vec![("key", text("k"))]);
    let signed = object(vec![
        ("unsigned", number(1)),
        ("key", text("k")),
        ("signatures", object(vec![("@a:h", text("s"))])),
    ]);
    assert_eq!(signable_json(&signed), r#"{"key":"k"}"#);
    let account = OlmAccount::new();
    assert_eq!(sign_json(&account, &signed), sign_json(&account, &bare));
    assert_ne!(sign_json(&account, &bare), sign_json(&OlmAccount::new(), &bare));
    let nested = object(vec![("a", object(vec![("signatures", number(1))]))]);
    assert_eq!(signable_json(&nested), r#"{"a":{"signatures":1}}"#);
    assert_eq!(signable_json(&text("x")), r#""x""#);
}

#[test]
fn signature_is_one_of_the_canonical_text() {
    let account = OlmAccount::new();
    let value = object(vec![("b", number(2)), ("a", number(1))]);
    let key = vodozemac::Ed25519PublicKey::from_base64(&account.ed25519_key()).unwrap();
    let signature = vodozemac::Ed25519Signature::from_base64(&sign_json(&account, &value)).unwrap();
    assert!(key.verify(br#"{"a":1,"b":2}"#, &signature).is_ok());
    assert!(key.verify(br#"{"b":2,"a":1}"#, &signature).is_err());
}

#[test]
fn test_vodozemac_account_roundtrip() {
    let account = OlmAccount::new();
    let ed25519 = account.ed25519_key();
    let curve25519 = account.curve25519_key();

    // Verify keys are non-empty base64
    assert!(!ed25519.is_empty());
    assert!(!curve25519.is_empty());

    // Serde roundtrip of pickle (mirrors host_encrypt_pickle/host_decrypt_pickle path)
    let serialized = account.pickle();
    let restored = OlmAccount::from_pickle(&serialized).expect("deserialize pickle");

    assert_eq!(restored.ed25519_key(), ed25519);
    assert_eq!(restored.curve25519_key(), curve25519);
    assert_eq!(restored.pickle(), serialized);
}

#[test]
fn test_megolm_encrypt_decrypt_roundtrip() {
    let outbound = OutboundSession::new();
    let inbound = InboundSession::from_session_key(&outbound.session_key()).unwrap();

    assert_eq!(outbound.session_id(), inbound.session_id());

    let plaintext = r#"{"type":"m.room.message","content":{"msgtype":"m.text","body":"Hello!"}}"#;
    let (_, ciphertext) = outbound.encrypt(plaintext).unwrap();

    let ciphertext = Ciphertext::from_base64(&ciphertext).unwrap();
    let decrypted = inbound.decrypt(&ciphertext).expect("decrypt should succeed");

    assert_eq!(String::from_utf8(decrypted.0).expect("valid utf8"), plaintext);
    assert_eq!(decrypted.1, 0);
}

#[test]
fn test_megolm_replay_detection_indices() {
    let outbound = OutboundSession::new();
    let inbound = InboundSession::from_session_key(&outbound.session_key()).unwrap();

    let (outbound, msg1) = outbound.encrypt("message 1").unwrap();
    let (outbound, msg2) = outbound.encrypt("message 2").unwrap();
    assert_eq!(outbound.message_index(), 2);

    let d1 = inbound.decrypt(&Ciphertext::from_base64(&msg1).unwrap()).expect("decrypt msg1");
    let d2 = inbound.decrypt(&Ciphertext::from_base64(&msg2).unwrap()).expect("decrypt msg2");

    assert_eq!(d1.1, 0);
    assert_eq!(d2.1, 1);

    // Replaying msg1 still works at the level of the session; the stored indices tell.
    let again = decrypt_fresh(&inbound, &msg1, &vec![], "sid").unwrap();
    assert_eq!(again, (b"message 1".to_vec(), 0));
    assert_eq!(
        decrypt_fresh(&inbound, &msg1, &vec![4, 0], "sid").unwrap_err(),
        "Replay detected: message index 0 already seen for session sid"
    );
    assert_eq!(decrypt_fresh(&inbound, &msg2, &vec![0], "sid").unwrap().1, 1);
}

#[test]
fn undecryptable_ciphertexts_are_refused() {
    let outbound = OutboundSession::new();
    let inbound = InboundSession::from_session_key(&outbound.session_key()).unwrap();
    let e = decrypt_fresh(&inbound, "???", &vec![], "sid").unwrap_err();
    assert!(e.starts_with("Invalid Megolm ciphertext: "));
    let (_, foreign) = OutboundSession::new().encrypt("x").unwrap();
    let e = decrypt_fresh(&inbound, &foreign, &vec![], "sid").unwrap_err();
    assert!(e.starts_with("Megolm decryption failed: "));
    assert!(InboundSession::from_session_key("nonsense").is_err());
    assert!(InboundSession::from_pickle(b"{}").is_err());
    assert!(OutboundSession::from_pickle(b"{}").is_err());
}

#[test]
fn test_olm_session_roundtrip() {
    let alice = OlmAccount::new();
    let bob = OlmAccount::new();

    let bob = bob.with_one_time_keys(1);
    let bob_otks = bob.one_time_keys();
    let bob_otk = CurveKey::from_base64(&bob_otks.first().expect("should have OTK").1).unwrap();
    let bob = bob.with_keys_published();
    assert!(bob.one_time_keys().is_empty());

    // Alice creates outbound session to Bob
    let bob_key = CurveKey::from_base64(&bob.curve25519_key()).unwrap();
    let alice_session = alice.create_outbound_session(&bob_key, &bob_otk);

    // Alice encrypts
    let (alice_session, kind, alice_msg) = alice_session.encrypt("hello from alice").unwrap();
    assert_eq!(kind, 0, "First message should be PreKey");

    // Bob creates inbound session
    let alice_key = CurveKey::from_base64(&alice.curve25519_key()).unwrap();
    let pre_key = PreKeyText::from_base64(&alice_msg).unwrap();
    let (_bob, bob_session, plaintext) =
        bob.create_inbound_session(&alice_key, &pre_key).expect("inbound session creation");

    assert_eq!(String::from_utf8(plaintext).expect("valid utf8"), "hello from alice");

    // Bob can now respond
    let (_, kind, bob_msg) = bob_session.encrypt("hello from bob").unwrap();
    assert_eq!(kind, 1);

    // Alice decrypts Bob's response
    let bob_msg = OlmText::Normal(NormalText::from_base64(&bob_msg).unwrap());
    let (_, decrypted) = alice_session.decrypt(&bob_msg).expect("alice decrypt bob msg");

    assert_eq!(String::from_utf8(decrypted).expect("valid utf8"), "hello from bob");
}

#[test]
fn one_time_key_serves_once() {
    let alice = OlmAccount::new();
    let bob = OlmAccount::new().with_one_time_keys(3);
    let keys = bob.one_time_keys();
    assert_eq!(keys.len(), 3);
    let identity = (bob.ed25519_key(), bob.curve25519_key());
    let bob_key = CurveKey::from_base64(&bob.curve25519_key()).unwrap();
    let once = CurveKey::from_base64(&keys[0].1).unwrap();
    let (_, _, body) = alice.create_outbound_session(&bob_key, &once).encrypt("hi").unwrap();
    let alice_key = CurveKey::from_base64(&alice.curve25519_key()).unwrap();
    let message = PreKeyText::from_base64(&body).unwrap();
    let (bob, _, _) = bob.create_inbound_session(&alice_key, &message).unwrap();
    assert_eq!((bob.ed25519_key(), bob.curve25519_key()), identity);
    assert!(bob.create_inbound_session(&alice_key, &message).is_err());
}

#[test]
fn messages_and_keys_must_be_well_formed() {
    assert!(CurveKey::from_base64("short").is_err());
    assert!(PreKeyText::from_base64("!").is_err());
    assert!(NormalText::from_base64("!").is_err());
    assert!(OlmSession::from_pickle(b"[]").is_err());
    assert!(OlmAccount::from_pickle(b"nonsense").is_err());
    let account = OlmAccount::new();
    let key = CurveKey::from_base64(&account.curve25519_key()).unwrap();
    assert_eq!(key.to_base64(), account.curve25519_key());
    // The padding that other implementations write is read, and left out again.
    let padded = format!("{}=", account.curve25519_key());
    assert_eq!(CurveKey::from_base64(&padded).unwrap().to_base64(), account.curve25519_key());
}

#[test]
fn session_that_does_not_fit_decrypts_nothing() {
    let bob = OlmAccount::new().with_one_time_keys(1);
    let bob_key = CurveKey::from_base64(&bob.curve25519_key()).unwrap();
    let once = CurveKey::from_base64(&bob.one_time_keys()[0].1).unwrap();
    let one = OlmAccount::new().create_outbound_session(&bob_key, &once);
    let other = OlmAccount::new().create_outbound_session(&bob_key, &once);
    let (_, _, body) = one.encrypt("secret").unwrap();
    let message = OlmText::PreKey(PreKeyText::from_base64(&body).unwrap());
    assert!(other.decrypt(&message).is_none());
}

#[test]
fn test_megolm_session_pickle_roundtrip() {
    let outbound = OutboundSession::new();
    let session_id = outbound.session_id();

    // Encrypt a message before pickling
    let (outbound, _) = outbound.encrypt("test").unwrap();

    // Serde roundtrip of pickle (mirrors host_encrypt_pickle/host_decrypt_pickle path)
    let serialized = outbound.pickle();
    let restored = OutboundSession::from_pickle(&serialized).expect("deserialize pickle");

    assert_eq!(restored.session_id(), session_id);
    assert_eq!(restored.message_index(), 1);
    assert_eq!(restored.pickle(), serialized);
}

#[test]
fn pickles_read_back_as_themselves() {
    let account = OlmAccount::new().with_one_time_keys(5);
    assert_eq!(OlmAccount::from_pickle(&account.pickle()).unwrap().pickle(), account.pickle());
    let key = CurveKey::from_base64(&OlmAccount::new().curve25519_key()).unwrap();
    let session = account.create_outbound_session(&key, &key);
    assert_eq!(OlmSession::from_pickle(&session.pickle()).unwrap().pickle(), session.pickle());
    let inbound = InboundSession::from_session_key(&OutboundSession::new().session_key()).unwrap();
    let again = InboundSession::from_pickle(&inbound.pickle()).unwrap();
    assert_eq!(again.pickle(), inbound.pickle());
    assert_eq!(again.session_id(), inbound.session_id());
}

#[test]
fn decrypted_events_must_have_a_body() {
    let event = br#"{"type":"m.room.message","content":{"body":"in content"},"body":"bare"}"#;
    assert_eq!(decrypted_body(event.to_vec()).unwrap(), "in content");
    assert_eq!(decrypted_body(br#"{"body":"bare"}"#.to_vec()).unwrap(), "bare");
    assert_eq!(
        decrypted_body(br#"{"content":{"body":1}}"#.to_vec()).unwrap_err(),
        "Decrypted event missing body field"
    );
    let e = decrypted_body(b"{".to_vec()).unwrap_err();
    assert!(e.starts_with("Decrypted plaintext not valid JSON: "));
    let e = decrypted_body(vec![0xff]).unwrap_err();
    assert!(e.starts_with("Decrypted plaintext not valid UTF-8: "));
}

#[test]
fn json_texts_are_read_by_pointer() {
    let json = br#"{"a":{"b/c":"x","n":7,"neg":-1},"list":["p","q"],"t":true}"#;
    assert_eq!(read_string(json, "/a/b~1c"), Some("x".to_string()));
    assert_eq!(read_string(json, "/a/n"), None);
    assert_eq!(read_number(json, "/a/n"), Some(7));
    assert_eq!(read_number(json, "/a/neg"), None);
    assert_eq!(read_names(json, "/a").unwrap(), vec!["b/c", "n", "neg"]);
    assert_eq!(read_names(json, "/list"), None);
    assert!(read_presence(json, "/t"));
    assert!(!read_presence(json, "/u"));
    assert_eq!(read_error(json), None);
    assert!(read_error(b"{").is_some());
    assert_eq!(read_string(b"{", "/a"), None);
}

#[test]
fn stored_lists_read_back() {
    assert!(read_stored_list(&None).is_empty());
    assert!(read_stored_list(&Some("nonsense".to_string())).is_empty());
    assert!(read_stored_list(&Some("[1]".to_string())).is_empty());
    let list = vec!["a\"b".to_string(), "".to_string()];
    let json = matrix_channel::json::string_array_json(&list);
    assert_eq!(json, r#"["a\"b",""]"#);
    assert_eq!(read_stored_list(&Some(json)), list);
}

#[test]
fn sessions_without_room_do_nothing() {
    let bob = OlmAccount::new().with_one_time_keys(1);
    let alice = OlmAccount::new();
    let bob_key = CurveKey::from_base64(&bob.curve25519_key()).unwrap();
    let once = CurveKey::from_base64(&bob.one_time_keys()[0].1).unwrap();
    let session = alice.create_outbound_session(&bob_key, &once);
    let pickle = String::from_utf8(session.pickle()).unwrap();
    assert!(pickle.contains("\"Known\":0") && pickle.contains("\"index\":0"));
    let (_, _, body) = session.encrypt("hi").unwrap();
    for spent in [
        pickle.replace("\"Known\":0", "\"Known\":18446744073709551614"),
        pickle.replace("\"index\":0", "\"index\":18446744073709551615"),
    ] {
        let spent = || OlmSession::from_pickle(spent.as_bytes()).unwrap();
        assert!(spent().encrypt("hi").is_none());
        let message = OlmText::PreKey(PreKeyText::from_base64(&body).unwrap());
        assert!(spent().decrypt(&message).is_none());
    }
    // A chain of the other side counts too.
    let alice_key = CurveKey::from_base64(&alice.curve25519_key()).unwrap();
    let message = PreKeyText::from_base64(&body).unwrap();
    let (_, received, _) = bob.create_inbound_session(&alice_key, &message).unwrap();
    let pickle = String::from_utf8(received.pickle()).unwrap();
    assert!(pickle.contains("\"index\":1"));
    let spent = pickle.replace("\"index\":1", "\"index\":18446744073709549615");
    assert!(OlmSession::from_pickle(spent.as_bytes()).unwrap().encrypt("back").is_none());
    let near = pickle.replace("\"index\":1", "\"index\":18446744073709549614");
    assert!(OlmSession::from_pickle(near.as_bytes()).unwrap().encrypt("back").is_some());
}

#[test]
fn one_time_keys_serve_once() {
    let bob = OlmAccount::new().with_one_time_keys(1);
    let alice = OlmAccount::new();
    let bob_key = CurveKey::from_base64(&bob.curve25519_key()).unwrap();
    let once = CurveKey::from_base64(&bob.one_time_keys()[0].1).unwrap();
    let bob = bob.with_keys_published();
    let alice_key = CurveKey::from_base64(&alice.curve25519_key()).unwrap();
    let (_, kind, body) = alice.create_outbound_session(&bob_key, &once).encrypt("hi").unwrap();
    assert_eq!(kind, 0);
    let message = || PreKeyText::from_base64(&body).unwrap();
    let (bob, _, plaintext) = bob.create_inbound_session(&alice_key, &message()).unwrap();
    assert_eq!(plaintext, b"hi".to_vec());
    assert!(bob.create_inbound_session(&alice_key, &message()).is_err());
}

#[test]
fn order_does_not_matter_at_any_depth() {
    let deep = |turned: bool| {
        let mut inner = vec![("y", number(1)), ("x", Json::Number(Number::Signed(-2)))];
        let mut list = vec![("b", text("}")), ("a", Json::Bool(false))];
        if turned {
            inner.reverse();
            list.reverse();
        }
        let items = Json::Array(vec![object(list), Json::Null, number(3)]);
        let mut outer = vec![("k", object(inner)), ("c", items)];
        if turned {
            outer.reverse();
        }
        object(outer)
    };
    let expected = r#"{"c":[{"a":false,"b":"}"},null,3],"k":{"x":-2,"y":1}}"#;
    assert_eq!(canonicalize_json(&deep(false)), expected);
    assert_eq!(canonicalize_json(&deep(true)), expected);
    // The text reads back as the value.
    assert_eq!(read_number(expected.as_bytes(), "/k/y"), Some(1));
    assert_eq!(read_string(expected.as_bytes(), "/c/0/b"), Some("}".to_string()));
    let value: serde_json::Value = serde_json::from_str(expected).unwrap();
    assert_eq!(value["k"]["x"], -2);
    assert_eq!(value["c"][2], 3);
}

#[test]
fn stored_account_reads_back() {
    let account = StoredAccount {
        user_id: "@b\"ot:h".to_string(),
        device_id: "DEV\n".to_string(),
        pickled_account: "AAA=".to_string(),
        ed25519_key: "e/~".to_string(),
        curve25519_key: "".to_string(),
        keys_uploaded: true,
        uploaded_key_count: 4_000_000_000,
    };
    let json = account.to_json();
    let bytes = json.as_bytes();
    let field = |name: &str| read_string(bytes, name);
    assert_eq!(field("/user_id"), Some(account.user_id.clone()));
    assert_eq!(field("/device_id"), Some(account.device_id.clone()));
    assert_eq!(field("/pickled_account"), Some(account.pickled_account.clone()));
    assert_eq!(field("/ed25519_key"), Some(account.ed25519_key.clone()));
    assert_eq!(field("/curve25519_key"), Some(account.curve25519_key.clone()));
    assert_eq!(field("/keys_uploaded"), None);
    assert_eq!(read_number(bytes, "/uploaded_key_count"), Some(4_000_000_000));
    let value: serde_json::Value = serde_json::from_str(&json).unwrap();
    assert_eq!(value["keys_uploaded"], true);
}
