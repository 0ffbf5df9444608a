use matrix_channel::host::HostCall;
use matrix_channel::incoming::{extract_display_name, is_room_allowed, read_flag};
use matrix_channel::sync::{
    build_message_metadata, default_sync_filter, extract_message_events, is_room_encrypted,
    is_valid_room_id, is_valid_user_id, mark_room_encrypted, parse_message_event,
    read_encrypted_rooms, read_homeserver_url, read_since_token, read_user_id,
    write_homeserver_url, write_since_token, write_user_id,
};
use matrix_channel::text::{decimal, parse_u32};
use matrix_channel::types::{
    EventContent, JoinedRoom, MessageContent, RoomEvent, StateEvents, Timeline,
};

fn event(kind: &str, sender: Option<&str>, msgtype: &str, body: Option<&str>) -> RoomEvent {
    RoomEvent {
        event_type: kind.to_string(),
        event_id: Some("$evt".to_string()),
        sender: sender.map(|s| s.to_string()),
        origin_server_ts: Some(1000),
        content: EventContent {
            message: Ok(MessageContent {
                msgtype: Some(msgtype.to_string()),
                body: body.map(|s| s.to_string()),
                formatted_body: None,
                format: None,
            }),
            encrypted: Err("missing field `algorithm`".to_string()),
        },
        state_key: None,
    }
}

fn room(timeline: Vec<RoomEvent>, state: Option<Vec<RoomEvent>>) -> JoinedRoom {
    JoinedRoom {
        timeline: Some(Timeline { events: timeline }),
        state: state.map(|events| StateEvents { events }),
    }
}

fn quiet_writes(call: HostCall) -> Vec<(String, String)> {
    match call {
        HostCall::WriteAll(writes) => writes,
        _ => panic!("writes"),
    }
}

fn stored(s: &str) -> Option<String> {
    Some(s.to_string())
}

#[test]
fn test_is_valid_user_id() {
    assert!(is_valid_user_id("@alice:example.com"));
    assert!(is_valid_user_id("@bot:matrix.org"));
    assert!(!is_valid_user_id("alice:example.com")); // missing @
    assert!(!is_valid_user_id("@alice")); // missing domain
    assert!(!is_valid_user_id("@:example.com")); // empty localpart
    assert!(!is_valid_user_id("@alice:")); // empty domain
}

#[test]
fn user_ids_at_the_edge() {
    assert!(!is_valid_user_id(""));
    assert!(!is_valid_user_id("@"));
    assert!(!is_valid_user_id("@:"));
    assert!(is_valid_user_id("@a:b"));
    assert!(is_valid_user_id("@a:b:8448"));
    assert!(is_valid_user_id("@a::"));
}

#[test]
fn test_is_valid_room_id() {
    assert!(is_valid_room_id("!room123:example.com"));
    assert!(is_valid_room_id("!abc:matrix.org"));
    // Opaque v2 room IDs (no colon) are valid
    assert!(is_valid_room_id("!ePIvvZfTk6aEXG-LDlA1bSU_-ClVbVEaDs7ykXqZhhs"));
    assert!(is_valid_room_id("!room")); // minimal valid
    assert!(!is_valid_room_id("room:example.com")); // missing !
    assert!(!is_valid_room_id("!")); // just sigil, no content
    assert!(!is_valid_room_id("")); // empty
}

#[test]
fn test_parse_message_event_text() {
    let event = RoomEvent {
        event_type: "m.room.message".to_string(),
        event_id: Some("$evt1".to_string()),
        sender: Some("@alice:example.com".to_string()),
        origin_server_ts: Some(1000),
        content: EventContent {
            message: Ok(MessageContent {
                msgtype: Some("m.text".to_string()),
                body: Some("Hello!".to_string()),
                formatted_body: None,
                format: None,
            }),
            encrypted: Err("missing field `algorithm`".to_string()),
        },
        state_key: None,
    };

    let result = parse_message_event(&event);
    assert!(result.is_some());
    let (sender, body, event_id) = result.unwrap();
    assert_eq!(sender, "@alice:example.com");
    assert_eq!(body, "Hello!");
    assert_eq!(event_id, "$evt1");
}

#[test]
fn test_parse_message_event_image_ignored() {
    let event = RoomEvent {
        event_type: "m.room.message".to_string(),
        event_id: Some("$evt2".to_string()),
        sender: Some("@alice:example.com".to_string()),
        origin_server_ts: Some(1000),
        content: EventContent {
            message: Ok(MessageContent {
                msgtype: Some("m.image".to_string()),
                body: Some("photo.jpg".to_string()),
                formatted_body: None,
                format: None,
            }),
            encrypted: Err("missing field `algorithm`".to_string()),
        },
        state_key: None,
    };

    // m.image is not m.text, so it should be None
    let result = parse_message_event(&event);
    assert!(result.is_none());
}

#[test]
fn test_parse_message_event_missing_sender() {
    let event = RoomEvent {
        event_type: "m.room.message".to_string(),
        event_id: Some("$evt3".to_string()),
        sender: None,
        origin_server_ts: None,
        content: EventContent {
            message: Ok(MessageContent {
                msgtype: Some("m.text".to_string()),
                body: Some("hi".to_string()),
                formatted_body: None,
                format: None,
            }),
            encrypted: Err("missing field `algorithm`".to_string()),
        },
        state_key: None,
    };

    assert!(parse_message_event(&event).is_none());
}

#[test]
fn only_whole_text_messages_are_parsed() {
    let alice = Some("@alice:h");
    assert!(parse_message_event(&event("m.room.message", alice, "m.text", None)).is_none());
    assert!(parse_message_event(&event("m.reaction", alice, "m.text", Some("x"))).is_none());
    let mut odd = event("m.room.message", alice, "m.text", Some("x"));
    odd.event_id = None;
    assert!(parse_message_event(&odd).is_none());
    let mut odd = event("m.room.message", alice, "m.text", Some("x"));
    odd.content.message = Err("invalid type".to_string());
    assert!(parse_message_event(&odd).is_none());
}

#[test]
fn test_build_message_metadata() {
    let json = build_message_metadata("!room:example.com", "$evt1", "@alice:example.com", false);
    let meta: serde_json::Value = serde_json::from_str(&json).unwrap();
    assert_eq!(meta["room_id"], "!room:example.com");
    assert_eq!(meta["event_id"], "$evt1");
    assert_eq!(meta["encrypted"], false);
}

#[test]
fn test_extract_display_name() {
    assert_eq!(extract_display_name("@alice:example.com"), "alice");
    assert_eq!(extract_display_name("@bot:matrix.org"), "bot");
    assert_eq!(extract_display_name("@user"), "user");
    assert_eq!(extract_display_name("plain"), "plain");
}

#[test]
fn display_names_at_the_edge() {
    assert_eq!(extract_display_name(""), "");
    assert_eq!(extract_display_name("@@a:b:c"), "@a");
}

#[test]
fn stored_texts_count_where_they_are_not_empty() {
    assert_eq!(read_since_token(None), None);
    assert_eq!(read_since_token(stored("")), None);
    assert_eq!(read_since_token(stored("s1")), stored("s1"));
    assert_eq!(read_homeserver_url(stored("https://h")), stored("https://h"));
    assert_eq!(read_user_id(stored("")), None);
}

#[test]
fn texts_are_stored_at_their_places() {
    assert_eq!(
        quiet_writes(write_since_token("s1")),
        vec![("state/since_token".to_string(), "s1".to_string())]
    );
    assert_eq!(quiet_writes(write_homeserver_url("u"))[0].0, "state/homeserver_url");
    assert_eq!(quiet_writes(write_user_id("@a:b"))[0].0, "state/user_id");
}

#[test]
fn rooms_are_marked_once() {
    let call = mark_room_encrypted(&None, "!a:h").unwrap();
    let first = quiet_writes(call).remove(0);
    assert_eq!(first, ("state/encrypted_rooms".to_string(), r#"["!a:h"]"#.to_string()));
    let now = Some(first.1);
    assert!(is_room_encrypted(&now, "!a:h"));
    assert!(!is_room_encrypted(&now, "!b:h"));
    assert!(mark_room_encrypted(&now, "!a:h").is_none());
    let second = quiet_writes(mark_room_encrypted(&now, "!b:h").unwrap()).remove(0);
    assert_eq!(read_encrypted_rooms(&Some(second.1)), vec!["!a:h", "!b:h"]);
    assert!(!is_room_encrypted(&None, "!a:h"));
    assert!(!is_room_encrypted(&stored("{}"), "!a:h"));
}

#[test]
fn empty_list_allows_all_rooms() {
    assert!(is_room_allowed(&None, "!a:h"));
    assert!(is_room_allowed(&stored("[]"), "!a:h"));
    assert!(is_room_allowed(&stored(r#"["!a:h"]"#), "!a:h"));
    assert!(!is_room_allowed(&stored(r#"["!b:h"]"#), "!a:h"));
}

#[test]
fn flags_are_set_by_true_alone() {
    assert!(read_flag(&stored("true")));
    assert!(!read_flag(&stored("True")));
    assert!(!read_flag(&None));
}

#[test]
fn filter_keeps_messages() {
    let filter = default_sync_filter();
    assert_eq!(filter.room.timeline.types, vec!["m.room.message", "m.room.encrypted"]);
    assert_eq!(filter.room.timeline.limit, 50);
    assert_eq!(filter.room.state.types, vec!["m.room.encryption", "m.room.member"]);
}

#[test]
fn messages_of_others_are_extracted() {
    let rooms = || {
        vec![
            (
                "!a:h".to_string(),
                room(
                    vec![
                        event("m.room.message", Some("@bot:h"), "m.text", Some("mine")),
                        event("m.room.message", Some("@al:h"), "m.text", Some("hers")),
                        event("m.room.message", Some("@al:h"), "m.image", Some("x.png")),
                        event("m.room.encrypted", Some("@al:h"), "", None),
                    ],
                    Some(vec![event("m.room.encryption", Some("@al:h"), "", None)]),
                ),
            ),
            (
                "!b:h".to_string(),
                room(vec![event("m.room.encryption", Some("@al:h"), "", None)], None),
            ),
            ("!c:h".to_string(), JoinedRoom { timeline: None, state: None }),
        ]
    };
    let (found, marks) = extract_message_events(rooms(), "@bot:h", false);
    assert_eq!(found.len(), 1);
    assert_eq!(found[0].0, "!a:h");
    assert_eq!(parse_message_event(&found[0].1).unwrap().1, "hers");
    assert_eq!(marks, vec!["!a:h", "!b:h"]);
    let (found, _) = extract_message_events(rooms(), "@bot:h", true);
    assert_eq!(found.len(), 2);
    assert_eq!(found[1].1.event_type, "m.room.encrypted");
}

#[test]
fn decimal_numbers_read_back() {
    assert_eq!(decimal(0), "0");
    assert_eq!(decimal(u64::MAX), "18446744073709551615");
    assert_eq!(parse_u32("4294967295"), Some(u32::MAX));
    assert_eq!(parse_u32("4294967296"), None);
    assert_eq!(parse_u32("+7"), Some(7));
    assert_eq!(parse_u32("007"), Some(7));
    assert_eq!(parse_u32(""), None);
    assert_eq!(parse_u32("+"), None);
    assert_eq!(parse_u32("-1"), None);
    assert_eq!(parse_u32("1 "), None);
}

#[test]
fn metadata_reads_back() {
    let json = build_message_metadata("!r\"/:h", "$e\\n", "@é:h", true);
    let bytes = json.as_bytes();
    let field = |name: &str| matrix_channel::json::read_string(bytes, name);
    assert_eq!(field("/room_id"), Some("!r\"/:h".to_string()));
    assert_eq!(field("/event_id"), Some("$e\\n".to_string()));
    assert_eq!(field("/sender"), Some("@é:h".to_string()));
    let value: serde_json::Value = serde_json::from_str(&json).unwrap();
    assert_eq!(value["encrypted"], true);
}
