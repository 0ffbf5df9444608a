use matrix_channel::json::Json;
use matrix_channel::types::{
    find_entry, text_map, DeviceKeys, KeysUploadRequest, MatrixMessageMetadata, TextMessageBody,
};

fn metadata(event_id: &str, encrypted: bool) -> MatrixMessageMetadata {
    MatrixMessageMetadata {
        room_id: "!room:example.com".to_string(),
        event_id: event_id.to_string(),
        sender: "@alice:example.com".to_string(),
        encrypted,
    }
}

#[test]
fn test_text_message_body_serialization() {
    let body = TextMessageBody {
        msgtype: "m.text".to_string(),
        body: "Hello".to_string(),
        format: None,
        formatted_body: None,
    };
    let json = body.to_json();
    assert!(!json.contains("format"));
    assert!(!json.contains("formatted_body"));
    assert_eq!(json, r#"{"msgtype":"m.text","body":"Hello"}"#);
}

#[test]
fn test_text_message_body_with_html() {
    let body = TextMessageBody {
        msgtype: "m.text".to_string(),
        body: "Hello **world**".to_string(),
        format: Some("org.matrix.custom.html".to_string()),
        formatted_body: Some("Hello <b>world</b>".to_string()),
    };
    let json = body.to_json();
    assert!(json.contains("org.matrix.custom.html"));
    assert!(json.contains("Hello <b>world</b>"));
}

#[test]
fn types_test_metadata_roundtrip() {
    let meta = metadata("$evt123", true);
    let json = meta.to_json();
    let parsed: serde_json::Value = serde_json::from_str(&json).unwrap();
    assert_eq!(parsed["room_id"], meta.room_id);
    assert_eq!(parsed["event_id"], meta.event_id);
    assert_eq!(parsed["encrypted"], true);
}

#[test]
fn lib_test_metadata_roundtrip() {
    let meta = metadata("$evt1", false);
    let json = meta.to_json();
    let parsed: serde_json::Value = serde_json::from_str(&json).unwrap();
    assert_eq!(parsed["room_id"], "!room:example.com");
    assert_eq!(parsed["sender"], "@alice:example.com");
    assert_eq!(parsed["encrypted"], false);
}

#[test]
fn key_uploads_hold_only_what_there_is() {
    let none = KeysUploadRequest { device_keys: None, one_time_keys: None };
    assert_eq!(none.to_json(), "{}");
    let once = vec![("signed_curve25519:AAA".to_string(), Json::Str("k".to_string()))];
    let some = KeysUploadRequest { device_keys: None, one_time_keys: Some(once) };
    assert_eq!(some.to_json(), r#"{"one_time_keys":{"signed_curve25519:AAA":"k"}}"#);
    let keys = DeviceKeys {
        user_id: "@a:h".to_string(),
        device_id: "D".to_string(),
        algorithms: vec!["x".to_string()],
        keys: vec![("ed25519:D".to_string(), "k".to_string())],
        signatures: vec![(
            "@a:h".to_string(),
            vec![("ed25519:D".to_string(), "s".to_string())],
        )],
    };
    let all = KeysUploadRequest { device_keys: Some(keys), one_time_keys: None };
    assert_eq!(
        all.to_json(),
        format!(
            "{}{}{}",
            r#"{"device_keys":{"user_id":"@a:h","device_id":"D","algorithms":["x"],"#,
            r#""keys":{"ed25519:D":"k"},"#,
            r#""signatures":{"@a:h":{"ed25519:D":"s"}}}}"#
        )
    );
}

#[test]
fn entries_are_found_by_name() {
    let entries = vec![
        ("a".to_string(), "1".to_string()),
        ("b".to_string(), "2".to_string()),
        ("a".to_string(), "3".to_string()),
    ];
    assert_eq!(find_entry(&entries, "a"), Some(0));
    assert_eq!(find_entry(&entries, "b"), Some(1));
    assert_eq!(find_entry(&entries, "c"), None);
    assert_eq!(text_map(&entries), r#"{"a":"1","b":"2","a":"3"}"#);
}
