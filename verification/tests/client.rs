use matrix_channel::chunking::{split_message, LONG_MESSAGE_LEN, MATRIX_MAX_MESSAGE_LEN};
use matrix_channel::client::{
    api_url, generate_txn_id, join_room, join_room_response, joined_members,
    joined_members_response, keys_claim, keys_query, keys_upload, keys_upload_response,
    send_event_response, send_message_event, send_text_message, send_to_device,
    send_to_device_response, sync, sync_response, url_encode, whoami, whoami_response,
};
use matrix_channel::host::{HttpResponse, Method, ParsedResponse};
use matrix_channel::sync::default_sync_filter;
use matrix_channel::types::{
    KeysUploadResponse, SendEventResponse, SyncResponse, WhoamiResponse,
};

const AUTH: &str = r#"{"Authorization":"Bearer {MATRIX_ACCESS_TOKEN}"}"#;
const AUTH_JSON: &str =
    r#"{"Authorization":"Bearer {MATRIX_ACCESS_TOKEN}","Content-Type":"application/json"}"#;

fn http(status: u16, body: &str) -> Result<HttpResponse, String> {
    Ok(HttpResponse { status, body: body.as_bytes().to_vec() })
}

fn parsed<T>(
    status: u16,
    body: &str,
    parsed: Result<T, String>,
) -> Result<ParsedResponse<T>, String> {
    let response = HttpResponse { status, body: body.as_bytes().to_vec() };
    Ok(ParsedResponse { response, parsed })
}

#[test]
fn test_url_encode_simple() {
    assert_eq!(url_encode("hello"), "hello");
}

#[test]
fn test_url_encode_room_id() {
    let encoded = url_encode("!room123:example.com");
    assert_eq!(encoded, "%21room123%3Aexample.com");
}

#[test]
fn test_url_encode_user_id() {
    let encoded = url_encode("@user:example.com");
    assert_eq!(encoded, "%40user%3Aexample.com");
}

#[test]
fn url_encode_keeps_unreserved_and_encodes_the_rest() {
    assert_eq!(url_encode("AZaz09-_.~"), "AZaz09-_.~");
    assert_eq!(url_encode("a/b c%"), "a%2Fb%20c%25");
    assert_eq!(url_encode("é€"), "%C3%A9%E2%82%AC");
    assert_eq!(url_encode(""), "");
}

#[test]
fn test_api_url() {
    assert_eq!(
        api_url("https://matrix.example.com", "/_matrix/client/v3/sync"),
        "https://matrix.example.com/_matrix/client/v3/sync"
    );
    // Trailing slash should be stripped
    assert_eq!(
        api_url("https://matrix.example.com/", "/_matrix/client/v3/sync"),
        "https://matrix.example.com/_matrix/client/v3/sync"
    );
}

#[test]
fn api_url_strips_every_trailing_slash() {
    assert_eq!(api_url("https://h///", "/p"), "https://h/p");
    assert_eq!(api_url("//", "/p"), "/p");
}

#[test]
fn test_split_message_short() {
    let chunks = split_message("Hello, world!");
    assert_eq!(chunks, vec!["Hello, world!"]);
}

#[test]
fn test_split_message_long() {
    let text = "a ".repeat(3000); // 6000 chars > 4096 limit
    let chunks = split_message(&text);
    assert!(chunks.len() >= 2);
    for chunk in &chunks {
        assert!(chunk.chars().count() <= MATRIX_MAX_MESSAGE_LEN);
    }
}

#[test]
fn test_split_message_paragraph_boundary() {
    let text = format!("{}\n\n{}", "A".repeat(2000), "B".repeat(2000));
    let chunks = split_message(&text);
    // Should split at the paragraph boundary
    assert!(chunks.len() >= 2);
    assert!(chunks[0].ends_with('A'));
    assert!(chunks[1].starts_with('B'));
}

#[test]
fn split_message_of_nothing_is_one_empty_chunk() {
    assert_eq!(split_message(""), vec![""]);
}

#[test]
fn split_message_keeps_a_message_that_fits() {
    let text = format!("{}\n\n{}", "A".repeat(1999), "B".repeat(1999));
    assert_eq!(text.chars().count(), LONG_MESSAGE_LEN);
    assert_eq!(split_message(&text), vec![text]);
    let text = "x y ".repeat(1024);
    assert_eq!(text.chars().count(), MATRIX_MAX_MESSAGE_LEN);
    assert_eq!(split_message(&text), vec![text]);
}

#[test]
fn split_message_splits_early_as_a_whole_only() {
    // A break at the end has no text after it.
    let text = format!("{}\n\n", "A".repeat(4050));
    assert_eq!(split_message(&text), vec![text]);
    // What is left after a split is whole where it fits.
    let rest = format!("{}\n\n{}", "b".repeat(2000), "c".repeat(2050));
    let text = format!("{} {}", "a".repeat(4000), rest);
    assert_eq!(split_message(&text), vec!["a".repeat(4000), rest]);
}

#[test]
fn split_message_prefers_the_most_natural_boundary() {
    let line = format!("{}\n{}. {}", "a".repeat(3000), "b".repeat(500), "c".repeat(2000));
    let chunks = split_message(&line);
    assert_eq!(chunks[0], "a".repeat(3000));
    assert_eq!(chunks[1], format!("{}. {}", "b".repeat(500), "c".repeat(2000)));

    let sentence = format!("{}! {} {}", "a".repeat(3000), "b".repeat(500), "c".repeat(2000));
    let chunks = split_message(&sentence);
    assert_eq!(chunks[0], format!("{}!", "a".repeat(3000)));
    assert_eq!(chunks[1], format!("{} {}", "b".repeat(500), "c".repeat(2000)));

    let word = format!("{} {}", "a".repeat(3000), "c".repeat(2000));
    assert_eq!(split_message(&word), vec!["a".repeat(3000), "c".repeat(2000)]);
}

#[test]
fn split_message_cuts_hard_without_boundary() {
    let chunks = split_message(&"é".repeat(5000));
    assert_eq!(chunks, vec!["é".repeat(4096), "é".repeat(904)]);
}

#[test]
fn split_message_loses_only_white_space() {
    let text = format!("{}\n\n{} \u{a0}{}", "a ".repeat(2500), "b\n".repeat(1000), "c".repeat(4500));
    let joined: String = split_message(&text).concat();
    let bare: String = joined.chars().filter(|c| !c.is_whitespace()).collect();
    let expected: String = text.chars().filter(|c| !c.is_whitespace()).collect();
    assert_eq!(bare, expected);
}

#[test]
fn txn_ids_hold_time_and_counter() {
    assert_eq!(generate_txn_id(1_700_000_000_000, 0), "m1700000000000");
    assert_eq!(generate_txn_id(1_700_000_000_000, 7), "m1700000000000.7");
    assert_ne!(generate_txn_id(5, 1), generate_txn_id(5, 2));
}

#[test]
fn get_requests_carry_no_body() {
    let r = whoami("https://h/");
    assert_eq!(r.method, Method::Get);
    assert_eq!(r.url, "https://h/_matrix/client/v3/account/whoami");
    assert_eq!(r.headers, AUTH);
    assert!(r.body.is_none());
    assert!(r.timeout_ms.is_none());
    let r = joined_members("https://h", "!r:h");
    assert_eq!(r.method, Method::Get);
    assert_eq!(r.url, "https://h/_matrix/client/v3/rooms/%21r%3Ah/joined_members");
}

#[test]
fn sync_request_names_token_timeout_and_filter() {
    let r = sync("https://h", &None, 30_000, None);
    assert_eq!(r.url, "https://h/_matrix/client/v3/sync?timeout=30000");
    assert_eq!(r.timeout_ms, Some(35_000));
    let r = sync("https://h", &Some("s1".to_string()), u32::MAX, Some(&default_sync_filter()));
    let expected = "https://h/_matrix/client/v3/sync?since=s1&timeout=4294967295&filter=";
    assert!(r.url.starts_with(expected));
    assert!(r.url.ends_with("%7D%7D%7D"));
    assert_eq!(r.timeout_ms, Some(u32::MAX));
    assert_eq!(
        default_sync_filter().to_json(),
        concat_filter(),
    );
}

fn concat_filter() -> String {
    let timeline = r#"{"types":["m.room.message","m.room.encrypted"],"limit":50}"#;
    let state = r#"{"types":["m.room.encryption","m.room.member"]}"#;
    format!("{}{}{}{}{}", r#"{"room":{"timeline":"#, timeline, r#","state":"#, state, "}}")
}

#[test]
fn send_requests_name_room_type_and_transaction() {
    let r = send_text_message("https://h", "!r:h", "m1", "a \"b\"\n");
    assert_eq!(r.method, Method::Put);
    assert_eq!(r.url, "https://h/_matrix/client/v3/rooms/%21r%3Ah/send/m.room.message/m1");
    assert_eq!(r.headers, AUTH_JSON);
    assert_eq!(
        r.body,
        Some(r#"{"msgtype":"m.text","body":"a \"b\"\n"}"#.as_bytes().to_vec())
    );
    let r = send_message_event("https://h", "!r:h", "m.room.encrypted", "m2", vec![1, 2]);
    assert_eq!(r.url, "https://h/_matrix/client/v3/rooms/%21r%3Ah/send/m.room.encrypted/m2");
    assert_eq!(r.body, Some(vec![1, 2]));
    let r = send_to_device("https://h", "m.room.encrypted", "m3", vec![3]);
    assert_eq!(r.method, Method::Put);
    assert_eq!(r.url, "https://h/_matrix/client/v3/sendToDevice/m.room.encrypted/m3");
    assert_eq!(r.body, Some(vec![3]));
}

#[test]
fn post_requests_carry_their_body() {
    let r = join_room("https://h", "#alias:h");
    assert_eq!(r.method, Method::Post);
    assert_eq!(r.url, "https://h/_matrix/client/v3/join/%23alias%3Ah");
    assert_eq!(r.body, Some(b"{}".to_vec()));
    let r = keys_upload("https://h", vec![1]);
    assert_eq!(r.url, "https://h/_matrix/client/v3/keys/upload");
    assert_eq!(r.body, Some(vec![1]));
    let r = keys_query("https://h", vec![2]);
    assert_eq!(r.url, "https://h/_matrix/client/v3/keys/query");
    assert_eq!(r.method, Method::Post);
    let r = keys_claim("https://h", vec![3]);
    assert_eq!(r.url, "https://h/_matrix/client/v3/keys/claim");
    assert_eq!(r.headers, AUTH_JSON);
}

#[test]
fn responses_are_values_or_errors() {
    let ok = WhoamiResponse { user_id: "@b:h".to_string(), device_id: None };
    assert_eq!(whoami_response(parsed(200, "", Ok(ok))).unwrap().user_id, "@b:h");
    assert_eq!(
        whoami_response(Err("timeout".to_string())).unwrap_err(),
        "whoami request failed: timeout"
    );
    let refused: Result<ParsedResponse<SyncResponse>, String> =
        parsed(401, "{\"errcode\":\"M_UNKNOWN_TOKEN\"}", Err("unread".to_string()));
    assert_eq!(
        sync_response(refused).unwrap_err(),
        "sync returned 401: {\"errcode\":\"M_UNKNOWN_TOKEN\"}"
    );
    let odd: Result<ParsedResponse<SendEventResponse>, String> =
        parsed(200, "[]", Err("invalid type".to_string()));
    assert_eq!(
        send_event_response(odd).unwrap_err(),
        "Failed to parse send event response: invalid type"
    );
    let odd: Result<ParsedResponse<KeysUploadResponse>, String> =
        parsed(500, "x", Err("e".to_string()));
    assert_eq!(keys_upload_response(odd).unwrap_err(), "keys/upload returned 500: x");
}

#[test]
fn refusal_shows_a_body_that_is_no_text() {
    let reply = Ok(HttpResponse { status: 502, body: vec![b'a', 0xff, b'b'] });
    assert_eq!(
        send_to_device_response(reply).unwrap_err(),
        "sendToDevice returned 502: a\u{fffd}b"
    );
    assert!(send_to_device_response(http(200, "anything")).is_ok());
}

#[test]
fn join_response_tells_the_room() {
    assert_eq!(join_room_response(http(200, r#"{"room_id":"!r:h"}"#)).unwrap(), "!r:h");
    assert_eq!(
        join_room_response(http(200, r#"{"room_id":1}"#)).unwrap_err(),
        "join response missing room_id"
    );
    let e = join_room_response(http(200, "nonsense")).unwrap_err();
    assert!(e.starts_with("Failed to parse join response: "));
    assert_eq!(join_room_response(http(403, "no")).unwrap_err(), "join room returned 403: no");
}

#[test]
fn members_response_lists_user_ids() {
    let body = r#"{"joined":{"@b:h":{},"@a:h":{"display_name":"A"}}}"#;
    let mut members = joined_members_response(http(200, body)).unwrap();
    members.sort();
    assert_eq!(members, vec!["@a:h", "@b:h"]);
    assert!(joined_members_response(http(200, "{}")).unwrap().is_empty());
    let e = joined_members_response(http(200, "{")).unwrap_err();
    assert!(e.starts_with("Failed to parse joined_members: "));
    assert_eq!(
        joined_members_response(http(404, "gone")).unwrap_err(),
        "joined_members returned 404: gone"
    );
}
