//! Matrix Client-Server API: requests, and what becomes of their responses.
//!
//! The host sends the requests. Credentials are injected by the host at that boundary: no request
//! holds an access token.

use vstd::prelude::*;
use vstd::string::*;
use vstd::utf8::*;

use crate::codec::{self, text_lossy};
use crate::host::{
    self, CallView, HostCall, HostReply, HttpRequest, HttpResponse, Method, ParsedResponse,
    RequestView, Step,
};
use crate::json;
use crate::json_tree::{self, JsonTree};
use crate::text::{self, chars_of, concat2, concat3, concat4, decimal, parse_u64, text_of};
use crate::types::{
    KeysClaimResponse, KeysQueryResponse, KeysUploadResponse, SendEventResponse, SyncFilter,
    SyncResponse, TextMessageBody, WhoamiResponse,
};

verus! {

// ---------------------------------------------------------------------------
// URLs
// ---------------------------------------------------------------------------

/// Whether a byte stands in a URL path segment as it is: letters, digits and `-_.~`.
pub open spec fn is_unreserved(b: u8) -> bool {
    (65 <= b <= 90) || (97 <= b <= 122) || (48 <= b <= 57) || b == 45 || b == 95 || b == 46 || b
        == 126
}

/// A hexadecimal digit, in upper case.
pub open spec fn hex_upper(d: nat) -> char {
    if d < 10 {
        (48 + d) as char
    } else {
        (55 + d) as char
    }
}

/// A byte in a URL: itself, or a percent sign and two hexadecimal digits.
pub open spec fn encoded_byte(b: u8) -> Seq<char> {
    if is_unreserved(b) {
        seq![b as char]
    } else {
        seq!['%', hex_upper(b as nat / 16), hex_upper(b as nat % 16)]
    }
}

/// Bytes in a URL.
pub open spec fn encoded_bytes(bytes: Seq<u8>) -> Seq<char>
    decreases bytes.len(),
{
    if bytes.len() == 0 {
        Seq::empty()
    } else {
        encoded_byte(bytes[0]) + encoded_bytes(bytes.skip(1))
    }
}

/// A text in a URL: its UTF-8 bytes, percent-encoded where they are not unreserved.
pub open spec fn url_encoded(input: Seq<char>) -> Seq<char> {
    encoded_bytes(encode_utf8(input))
}

fn hex_digit(d: u8) -> (c: char)
    requires
        d < 16,
    ensures
        c == hex_upper(d as nat),
{
    if d < 10 {
        (48 + d) as char
    } else {
        (55 + d) as char
    }
}

/// URL encoding for Matrix identifiers.
///
/// Encodes characters that are not valid in URL path segments. Matrix room IDs contain `!` and `:`
/// which need encoding when used in URL paths.
pub fn url_encode(input: &str) -> (r: String)
    ensures
        r@ == url_encoded(input@),
{
    let bytes = input.as_bytes();
    let mut r = String::new();
    let mut i: usize = 0;
    assert(bytes@.skip(0) =~= bytes@);
    assert(r@ + encoded_bytes(bytes@.skip(0)) =~= url_encoded(input@));
    while i < bytes.len()
        invariant
            i <= bytes.len(),
            bytes@ == encode_utf8(input@),
            r@ + encoded_bytes(bytes@.skip(i as int)) == url_encoded(input@),
        decreases bytes.len() - i,
    {
        let b: u8 = bytes[i];
        let ghost before = r@;
        if (65 <= b && b <= 90) || (97 <= b && b <= 122) || (48 <= b && b <= 57) || b == 45 || b
            == 95 || b == 46 || b == 126 {
            r.push(b as char);
        } else {
            r.push('%');
            r.push(hex_digit(b / 16));
            r.push(hex_digit(b % 16));
        }
        proof {
            assert(r@ =~= before + encoded_byte(b));
            assert(bytes@.skip(i as int).skip(1) =~= bytes@.skip(i + 1));
            assert(r@ + encoded_bytes(bytes@.skip(i + 1)) =~= before + encoded_bytes(
                bytes@.skip(i as int),
            ));
        }
        i += 1;
    }
    assert(r@ =~= url_encoded(input@));
    r
}

/// `s` without the slashes at its end.
pub open spec fn without_slashes(s: Seq<char>) -> Seq<char>
    decreases s.len(),
{
    if s.len() > 0 && s.last() == '/' {
        without_slashes(s.drop_last())
    } else {
        s
    }
}

/// A full Matrix API URL.
pub open spec fn full_url(homeserver_url: Seq<char>, path: Seq<char>) -> Seq<char> {
    without_slashes(homeserver_url) + path
}

/// Construct a full Matrix API URL from a homeserver base URL and path.
///
/// Strips trailing slashes from the homeserver URL to avoid double-slashes.
pub fn api_url(homeserver_url: &str, path: &str) -> (url: String)
    ensures
        url@ == full_url(homeserver_url@, path@),
{
    let chars = chars_of(homeserver_url);
    let mut end: usize = chars.len();
    assert(chars@.take(end as int) =~= chars@);
    while end > 0 && chars[end - 1] == '/'
        invariant
            end <= chars.len(),
            chars@ == homeserver_url@,
            without_slashes(chars@.take(end as int)) == without_slashes(homeserver_url@),
        decreases end,
    {
        assert(chars@.take(end as int).drop_last() =~= chars@.take(end - 1));
        end -= 1;
    }
    assert(chars@.subrange(0, end as int) =~= chars@.take(end as int));
    let base = text_of(&chars, 0, end);
    concat2(base.as_str(), path)
}

// ---------------------------------------------------------------------------
// Requests
// ---------------------------------------------------------------------------

/// Headers with Authorization and Content-Type for JSON requests.
pub open spec fn json_headers_text() -> Seq<char> {
    r#"{"Authorization":"Bearer {MATRIX_ACCESS_TOKEN}","Content-Type":"application/json"}"#@
}

/// Headers with Authorization only (no Content-Type).
pub open spec fn auth_headers_text() -> Seq<char> {
    r#"{"Authorization":"Bearer {MATRIX_ACCESS_TOKEN}"}"#@
}

/// A GET request.
pub open spec fn get_request(url: Seq<char>, timeout_ms: Option<u32>) -> RequestView {
    RequestView {
        method: Method::Get,
        url,
        headers: auth_headers_text(),
        body: None,
        timeout_ms,
    }
}

/// A request with a JSON body.
pub open spec fn json_request(method: Method, url: Seq<char>, body: Seq<u8>) -> RequestView {
    RequestView {
        method,
        url,
        headers: json_headers_text(),
        body: Some(body),
        timeout_ms: None,
    }
}

fn get(url: String, timeout_ms: Option<u32>) -> (r: HttpRequest)
    ensures
        r@ == get_request(url@, timeout_ms),
{
    let headers = r#"{"Authorization":"Bearer {MATRIX_ACCESS_TOKEN}"}"#.to_owned();
    HttpRequest { method: Method::Get, url, headers, body: None, timeout_ms }
}

fn with_json(method: Method, url: String, body: Vec<u8>) -> (r: HttpRequest)
    ensures
        r@ == json_request(method, url@, body@),
{
    let headers =
        r#"{"Authorization":"Bearer {MATRIX_ACCESS_TOKEN}","Content-Type":"application/json"}"#.to_owned();
    HttpRequest { method, url, headers, body: Some(body), timeout_ms: None }
}

/// The bytes of a text.
pub fn bytes_of(s: &str) -> (bytes: Vec<u8>)
    ensures
        bytes@ == encode_utf8(s@),
{
    s.as_bytes_vec()
}

/// The request for the user and device of the access token.
pub open spec fn whoami_request(homeserver_url: Seq<char>) -> RequestView {
    get_request(full_url(homeserver_url, "/_matrix/client/v3/account/whoami"@), None)
}

/// GET /_matrix/client/v3/account/whoami
///
/// Asks for the user ID and device ID of the authenticated user.
pub fn whoami(homeserver_url: &str) -> (r: HttpRequest)
    ensures
        r@ == whoami_request(homeserver_url@),
{
    get(api_url(homeserver_url, "/_matrix/client/v3/account/whoami"), None)
}

/// The query of a /sync request.
pub open spec fn sync_query(
    since: Option<Seq<char>>,
    timeout_ms: u32,
    filter: Option<Seq<char>>,
) -> Seq<char> {
    let from = match since {
        Some(token) => "?since="@ + token + "&timeout="@,
        None => "?timeout="@,
    };
    let timed = from + text::decimal_text(timeout_ms as nat);
    match filter {
        Some(json) => timed + "&filter="@ + url_encoded(json),
        None => timed,
    }
}

/// The request for new events. The HTTP timeout is longer than that of the server, as far as 32
/// bits go.
pub open spec fn sync_request(
    homeserver_url: Seq<char>,
    since: Option<Seq<char>>,
    timeout_ms: u32,
    filter: Option<Seq<char>>,
) -> RequestView {
    get_request(
        full_url(homeserver_url, "/_matrix/client/v3/sync"@) + sync_query(
            since,
            timeout_ms,
            filter,
        ),
        Some(
            if timeout_ms + 5_000 <= u32::MAX {
                (timeout_ms + 5_000) as u32
            } else {
                u32::MAX
            },
        ),
    )
}

/// GET /_matrix/client/v3/sync
///
/// Long-polls for new events. Pass a `since` token to get incremental updates.
pub fn sync(
    homeserver_url: &str,
    since: &Option<String>,
    timeout_ms: u32,
    filter: Option<&SyncFilter>,
) -> (r: HttpRequest)
    ensures
        r@ == sync_request(
            homeserver_url@,
            json::opt_text(*since),
            timeout_ms,
            match filter {
                Some(f) => Some(f.json()),
                None => None,
            },
        ),
{
    let mut query = match since {
        Some(token) => concat3("?since=", token.as_str(), "&timeout="),
        None => "?timeout=".to_owned(),
    };
    query.append(decimal(timeout_ms as u64).as_str());
    if let Some(f) = filter {
        query.append("&filter=");
        query.append(url_encode(f.to_json().as_str()).as_str());
    }
    let url = api_url(homeserver_url, "/_matrix/client/v3/sync");
    get(concat2(url.as_str(), query.as_str()), Some(timeout_ms.saturating_add(5_000)))
}

/// The request that sends an event to a room.
pub open spec fn send_request(
    homeserver_url: Seq<char>,
    room_id: Seq<char>,
    event_type: Seq<char>,
    txn_id: Seq<char>,
    body: Seq<u8>,
) -> RequestView {
    json_request(
        Method::Put,
        full_url(
            homeserver_url,
            "/_matrix/client/v3/rooms/"@ + url_encoded(room_id) + "/send/"@ + event_type + ("/"@
                + txn_id),
        ),
        body,
    )
}

/// PUT /_matrix/client/v3/rooms/{roomId}/send/{eventType}/{txnId}
///
/// Sends a message event to a room.
pub fn send_message_event(
    homeserver_url: &str,
    room_id: &str,
    event_type: &str,
    txn_id: &str,
    body: Vec<u8>,
) -> (r: HttpRequest)
    ensures
        r@ == send_request(homeserver_url@, room_id@, event_type@, txn_id@, body@),
{
    let room = url_encode(room_id);
    let path = concat4("/_matrix/client/v3/rooms/", room.as_str(), "/send/", event_type);
    let txn = concat2("/", txn_id);
    let path = concat2(path.as_str(), txn.as_str());
    with_json(Method::Put, api_url(homeserver_url, path.as_str()), body)
}

/// The body of a plain text message.
pub open spec fn text_message_json(content: Seq<char>) -> Seq<char> {
    json::object_text(
        seq![
            ("msgtype"@, json::string_text("m.text"@)),
            ("body"@, json::string_text(content)),
        ],
    )
}

/// The request that sends a plain text message to a room.
pub open spec fn text_message_request(
    homeserver_url: Seq<char>,
    room_id: Seq<char>,
    txn_id: Seq<char>,
    content: Seq<char>,
) -> RequestView {
    send_request(
        homeserver_url,
        room_id,
        "m.room.message"@,
        txn_id,
        encode_utf8(text_message_json(content)),
    )
}

/// Send a plain text message to a room.
pub fn send_text_message(homeserver_url: &str, room_id: &str, txn_id: &str, content: &str) -> (r:
    HttpRequest)
    ensures
        r@ == text_message_request(homeserver_url@, room_id@, txn_id@, content@),
{
    let msg = TextMessageBody {
        msgtype: "m.text".to_owned(),
        body: content.to_owned(),
        format: None,
        formatted_body: None,
    };
    let body = bytes_of(msg.to_json().as_str());
    send_message_event(homeserver_url, room_id, "m.room.message", txn_id, body)
}

/// The request that joins a room.
pub open spec fn join_request(homeserver_url: Seq<char>, room: Seq<char>) -> RequestView {
    json_request(
        Method::Post,
        full_url(homeserver_url, "/_matrix/client/v3/join/"@ + url_encoded(room)),
        encode_utf8("{}"@),
    )
}

/// POST /_matrix/client/v3/join/{roomIdOrAlias}
///
/// Joins a room by ID or alias.
pub fn join_room(homeserver_url: &str, room_id_or_alias: &str) -> (r: HttpRequest)
    ensures
        r@ == join_request(homeserver_url@, room_id_or_alias@),
{
    let room = url_encode(room_id_or_alias);
    let path = concat2("/_matrix/client/v3/join/", room.as_str());
    with_json(Method::Post, api_url(homeserver_url, path.as_str()), bytes_of("{}"))
}

/// The request that uploads keys.
pub open spec fn keys_upload_request(homeserver_url: Seq<char>, body: Seq<u8>) -> RequestView {
    json_request(Method::Post, full_url(homeserver_url, "/_matrix/client/v3/keys/upload"@), body)
}

/// POST /_matrix/client/v3/keys/upload
///
/// Uploads device identity keys and one-time keys.
pub fn keys_upload(homeserver_url: &str, body: Vec<u8>) -> (r: HttpRequest)
    ensures
        r@ == keys_upload_request(homeserver_url@, body@),
{
    with_json(Method::Post, api_url(homeserver_url, "/_matrix/client/v3/keys/upload"), body)
}

/// The request for device keys.
pub open spec fn keys_query_request(homeserver_url: Seq<char>, body: Seq<u8>) -> RequestView {
    json_request(Method::Post, full_url(homeserver_url, "/_matrix/client/v3/keys/query"@), body)
}

/// POST /_matrix/client/v3/keys/query
///
/// Downloads device keys for specified users.
pub fn keys_query(homeserver_url: &str, body: Vec<u8>) -> (r: HttpRequest)
    ensures
        r@ == keys_query_request(homeserver_url@, body@),
{
    with_json(Method::Post, api_url(homeserver_url, "/_matrix/client/v3/keys/query"), body)
}

/// The request for one-time keys.
pub open spec fn keys_claim_request(homeserver_url: Seq<char>, body: Seq<u8>) -> RequestView {
    json_request(Method::Post, full_url(homeserver_url, "/_matrix/client/v3/keys/claim"@), body)
}

/// POST /_matrix/client/v3/keys/claim
///
/// Claims one-time keys for Olm session establishment.
pub fn keys_claim(homeserver_url: &str, body: Vec<u8>) -> (r: HttpRequest)
    ensures
        r@ == keys_claim_request(homeserver_url@, body@),
{
    with_json(Method::Post, api_url(homeserver_url, "/_matrix/client/v3/keys/claim"), body)
}

/// The request that sends events to devices.
pub open spec fn to_device_request(
    homeserver_url: Seq<char>,
    event_type: Seq<char>,
    txn_id: Seq<char>,
    body: Seq<u8>,
) -> RequestView {
    json_request(
        Method::Put,
        full_url(
            homeserver_url,
            "/_matrix/client/v3/sendToDevice/"@ + event_type + "/"@ + txn_id,
        ),
        body,
    )
}

/// PUT /_matrix/client/v3/sendToDevice/{eventType}/{txnId}
///
/// Sends to-device events (used for key sharing in E2EE).
pub fn send_to_device(homeserver_url: &str, event_type: &str, txn_id: &str, body: Vec<u8>) -> (r:
    HttpRequest)
    ensures
        r@ == to_device_request(homeserver_url@, event_type@, txn_id@, body@),
{
    let path = concat4("/_matrix/client/v3/sendToDevice/", event_type, "/", txn_id);
    with_json(Method::Put, api_url(homeserver_url, path.as_str()), body)
}

/// The request for the members of a room.
pub open spec fn joined_members_request(homeserver_url: Seq<char>, room_id: Seq<char>) -> RequestView {
    get_request(
        full_url(
            homeserver_url,
            "/_matrix/client/v3/rooms/"@ + url_encoded(room_id) + "/joined_members"@,
        ),
        None,
    )
}

/// GET /_matrix/client/v3/rooms/{roomId}/joined_members
///
/// Asks for the members of a room, for key sharing.
pub fn joined_members(homeserver_url: &str, room_id: &str) -> (r: HttpRequest)
    ensures
        r@ == joined_members_request(homeserver_url@, room_id@),
{
    let room = url_encode(room_id);
    let path = concat3("/_matrix/client/v3/rooms/", room.as_str(), "/joined_members");
    get(api_url(homeserver_url, path.as_str()), None)
}

// ---------------------------------------------------------------------------
// Responses
// ---------------------------------------------------------------------------

/// What becomes of a response: its body where its status is 200, else an error that tells the
/// request, and the status and body or why there was no response.
pub open spec fn accepted_body(
    reply: Result<HttpResponse, String>,
    request: Seq<char>,
) -> Result<Seq<u8>, Seq<char>> {
    match reply {
        Err(e) => Err(request + " request failed: "@ + e@),
        Ok(response) => if response.status == 200 {
            Ok(response.body@)
        } else {
            Err(refusal(response, request))
        },
    }
}

/// The error for a response with another status than 200.
pub open spec fn refusal(response: HttpResponse, request: Seq<char>) -> Seq<char> {
    request + " returned "@ + text::decimal_text(response.status as nat) + ": "@
        + codec::lossy_text(response.body@)
}

/// What becomes of a response that is read as a value.
pub open spec fn accepted<T>(
    reply: Result<ParsedResponse<T>, String>,
    request: Seq<char>,
    shape: Seq<char>,
) -> Result<T, Seq<char>> {
    match reply {
        Err(e) => Err(request + " request failed: "@ + e@),
        Ok(p) => if p.response.status == 200 {
            match p.parsed {
                Ok(value) => Ok(value),
                Err(e) => Err("Failed to parse "@ + shape + ": "@ + e@),
            }
        } else {
            Err(refusal(p.response, request))
        },
    }
}

fn refused(response: &HttpResponse, request: &str) -> (e: String)
    ensures
        e@ == refusal(*response, request@),
{
    let status = decimal(response.status as u64);
    let body = text_lossy(response.body.as_slice());
    text::concat5(request, " returned ", status.as_str(), ": ", body.as_str())
}

fn accept_body(reply: Result<HttpResponse, String>, request: &str) -> (r: Result<Vec<u8>, String>)
    ensures
        host::agrees_in_view(r, accepted_body(reply, request@)),
{
    match reply {
        Err(e) => Err(concat3(request, " request failed: ", e.as_str())),
        Ok(response) => if response.status == 200 {
            Ok(response.body)
        } else {
            Err(refused(&response, request))
        },
    }
}

fn accept<T>(reply: Result<ParsedResponse<T>, String>, request: &str, shape: &str) -> (r: Result<
    T,
    String,
>)
    ensures
        host::agrees(r, accepted(reply, request@, shape@)),
{
    match reply {
        Err(e) => Err(concat3(request, " request failed: ", e.as_str())),
        Ok(p) => if p.response.status == 200 {
            match p.parsed {
                Ok(value) => Ok(value),
                Err(e) => Err(concat4("Failed to parse ", shape, ": ", e.as_str())),
            }
        } else {
            Err(refused(&p.response, request))
        },
    }
}

/// The user and device of the access token, or why they are not known.
pub fn whoami_response(reply: Result<ParsedResponse<WhoamiResponse>, String>) -> (r: Result<
    WhoamiResponse,
    String,
>)
    ensures
        host::agrees(r, accepted(reply, "whoami"@, "whoami response"@)),
{
    accept(reply, "whoami", "whoami response")
}

/// The new events, or why there are none.
pub fn sync_response(reply: Result<ParsedResponse<SyncResponse>, String>) -> (r: Result<
    SyncResponse,
    String,
>)
    ensures
        host::agrees(r, accepted(reply, "sync"@, "sync response"@)),
{
    accept(reply, "sync", "sync response")
}

/// What became of an event sent to a room.
pub fn send_event_response(reply: Result<ParsedResponse<SendEventResponse>, String>) -> (r: Result<
    SendEventResponse,
    String,
>)
    ensures
        host::agrees(r, accepted(reply, "send event"@, "send event response"@)),
{
    accept(reply, "send event", "send event response")
}

/// The joined room, or why it is not joined.
pub open spec fn joined_room(reply: Result<HttpResponse, String>) -> Result<Seq<char>, Seq<char>> {
    match accepted_body(reply, "join room"@) {
        Err(e) => Err(e),
        Ok(body) => match json::json_error(body) {
            Some(e) => Err("Failed to parse join response: "@ + e),
            None => match json::string_at(body, "/room_id"@) {
                Some(room_id) => Ok(room_id),
                None => Err("join response missing room_id"@),
            },
        },
    }
}

/// The ID of the joined room, or why it is not joined.
pub fn join_room_response(reply: Result<HttpResponse, String>) -> (r: Result<String, String>)
    ensures
        host::agrees_in_view(r, joined_room(reply)),
{
    match accept_body(reply, "join room") {
        Err(e) => Err(e),
        Ok(body) => match json::read_error(body.as_slice()) {
            Some(e) => Err(concat2("Failed to parse join response: ", e.as_str())),
            None => match json::read_string(body.as_slice(), "/room_id") {
                Some(room_id) => Ok(room_id),
                None => Err("join response missing room_id".to_owned()),
            },
        },
    }
}

/// The counts of one-time keys after an upload, or why it failed.
pub fn keys_upload_response(reply: Result<ParsedResponse<KeysUploadResponse>, String>) -> (r:
    Result<KeysUploadResponse, String>)
    ensures
        host::agrees(r, accepted(reply, "keys/upload"@, "keys/upload response"@)),
{
    accept(reply, "keys/upload", "keys/upload response")
}

/// The device keys, or why there are none.
pub fn keys_query_response(reply: Result<ParsedResponse<KeysQueryResponse>, String>) -> (r: Result<
    KeysQueryResponse,
    String,
>)
    ensures
        host::agrees(r, accepted(reply, "keys/query"@, "keys/query response"@)),
{
    accept(reply, "keys/query", "keys/query response")
}

/// The claimed one-time keys, or why there are none.
pub fn keys_claim_response(reply: Result<ParsedResponse<KeysClaimResponse>, String>) -> (r: Result<
    KeysClaimResponse,
    String,
>)
    ensures
        host::agrees(r, accepted(reply, "keys/claim"@, "keys/claim response"@)),
{
    accept(reply, "keys/claim", "keys/claim response")
}

/// What becomes of events sent to devices.
pub open spec fn sent_to_device(reply: Result<HttpResponse, String>) -> Result<(), Seq<char>> {
    match accepted_body(reply, "sendToDevice"@) {
        Ok(_) => Ok(()),
        Err(e) => Err(e),
    }
}

/// What became of events sent to devices.
pub fn send_to_device_response(reply: Result<HttpResponse, String>) -> (r: Result<(), String>)
    ensures
        host::agrees(r, sent_to_device(reply)),
{
    match accept_body(reply, "sendToDevice") {
        Ok(_) => Ok(()),
        Err(e) => Err(e),
    }
}

/// The members of a room, or why they are not known.
pub open spec fn room_members(reply: Result<HttpResponse, String>) -> Result<
    Seq<Seq<char>>,
    Seq<char>,
> {
    match accepted_body(reply, "joined_members"@) {
        Err(e) => Err(e),
        Ok(body) => match json::json_error(body) {
            Some(e) => Err("Failed to parse joined_members: "@ + e),
            None => match json::names_at(body, "/joined"@) {
                Some(names) => Ok(names),
                None => Ok(Seq::empty()),
            },
        },
    }
}

/// The user IDs of the members of a room, or why they are not known.
pub fn joined_members_response(reply: Result<HttpResponse, String>) -> (r: Result<
    Vec<String>,
    String,
>)
    ensures
        match r {
            Ok(members) => room_members(reply) == Ok::<Seq<Seq<char>>, Seq<char>>(
                text::texts(members@),
            ),
            Err(e) => room_members(reply) == Err::<Seq<Seq<char>>, Seq<char>>(e@),
        },
{
    match accept_body(reply, "joined_members") {
        Err(e) => Err(e),
        Ok(body) => match json::read_error(body.as_slice()) {
            Some(e) => Err(concat2("Failed to parse joined_members: ", e.as_str())),
            None => match json::read_names(body.as_slice(), "/joined") {
                Some(names) => Ok(names),
                None => {
                    let none: Vec<String> = Vec::new();
                    assert(text::texts(none@) =~= Seq::empty());
                    Ok(none)
                },
            },
        },
    }
}

// ---------------------------------------------------------------------------
// Transaction IDs
// ---------------------------------------------------------------------------

/// A transaction ID: the time, and the counter where it is not the first of its time.
pub open spec fn txn_id_text(now_ms: u64, counter: u64) -> Seq<char> {
    if counter == 0 {
        "m"@ + text::decimal_text(now_ms as nat)
    } else {
        "m"@ + text::decimal_text(now_ms as nat) + "."@ + text::decimal_text(counter as nat)
    }
}

/// Generate a unique transaction ID for idempotent message sending.
///
/// A combination of timestamp and a simple counter. The counter goes on from one invocation to the
/// next, so that no two IDs are the same.
pub fn generate_txn_id(now_ms: u64, counter: u64) -> (id: String)
    ensures
        id@ == txn_id_text(now_ms, counter),
{
    let now = decimal(now_ms);
    if counter == 0 {
        concat2("m", now.as_str())
    } else {
        let count = decimal(counter);
        concat4("m", now.as_str(), ".", count.as_str())
    }
}

/// The counter of the next transaction ID: the one that is stored, or 0.
pub open spec fn stored_counter(stored: Option<String>) -> u64 {
    match stored {
        Some(s) => match text::parsed_u64(s@) {
            Some(counter) => counter,
            None => 0,
        },
        None => 0,
    }
}

/// Reads the counter of the next transaction ID.
pub fn read_counter(stored: &Option<String>) -> (counter: u64)
    ensures
        counter == stored_counter(*stored),
{
    match stored {
        Some(s) => match parse_u64(s.as_str()) {
            Some(counter) => counter,
            None => 0,
        },
        None => 0,
    }
}

/// The write that keeps the transaction IDs below a counter for this invocation.
pub open spec fn reserve_call(next: u64) -> CallView {
    CallView::WriteAll(seq![("state/txn_counter"@, text::decimal_text(next as nat))])
}

/// Keeps the transaction IDs below a counter for this invocation: the next one starts there.
pub fn reserve(next: u64) -> (call: HostCall)
    ensures
        call@ == reserve_call(next),
{
    let writes = vec![("state/txn_counter".to_owned(), decimal(next))];
    assert(json::member_views(writes@) =~= seq![
        ("state/txn_counter"@, text::decimal_text(next as nat)),
    ]);
    HostCall::WriteAll(writes)
}

// ---------------------------------------------------------------------------
// Laws
// ---------------------------------------------------------------------------

/// A slash at the end of the homeserver URL makes no difference.
pub proof fn trailing_slash_does_not_matter(homeserver_url: Seq<char>, path: Seq<char>)
    ensures
        full_url(homeserver_url.push('/'), path) == full_url(homeserver_url, path),
{
    assert(homeserver_url.push('/').drop_last() =~= homeserver_url);
}

/// Whether a character may stand in an encoded URL segment.
pub open spec fn is_url_char(c: char) -> bool {
    c == '%' || (c as u32 <= 127 && is_unreserved(c as u8))
}

/// An encoded identifier holds unreserved characters and percent signs only, so it is one path
/// segment.
pub proof fn encoded_is_a_segment(input: Seq<char>, i: int)
    requires
        0 <= i < url_encoded(input).len(),
    ensures
        is_url_char(url_encoded(input)[i]),
        url_encoded(input)[i] != '/',
{
    encoded_bytes_are_url_chars(encode_utf8(input), i);
}

proof fn encoded_bytes_are_url_chars(bytes: Seq<u8>, i: int)
    requires
        0 <= i < encoded_bytes(bytes).len(),
    ensures
        is_url_char(encoded_bytes(bytes)[i]),
    decreases bytes.len(),
{
    if bytes.len() > 0 {
        let head = encoded_byte(bytes[0]);
        if i >= head.len() {
            encoded_bytes_are_url_chars(bytes.skip(1), i - head.len());
        }
    }
}

/// Two identifiers that are encoded alike are the same identifier.
pub proof fn url_encoding_is_injective(a: Seq<char>, b: Seq<char>)
    requires
        url_encoded(a) == url_encoded(b),
    ensures
        a == b,
{
    encoded_bytes_are_injective(encode_utf8(a), encode_utf8(b));
    encode_utf8_decode_utf8(a);
    encode_utf8_decode_utf8(b);
}

proof fn encoded_bytes_are_injective(a: Seq<u8>, b: Seq<u8>)
    requires
        encoded_bytes(a) == encoded_bytes(b),
    ensures
        a == b,
    decreases a.len(),
{
    if a.len() == 0 {
        assert(encoded_bytes(b).len() == 0);
        if b.len() > 0 {
            assert(encoded_byte(b[0]).len() > 0);
        }
        assert(a =~= b);
    } else if b.len() == 0 {
        assert(encoded_byte(a[0]).len() > 0);
    } else {
        let x = encoded_byte(a[0]);
        let y = encoded_byte(b[0]);
        let all = encoded_bytes(a);
        assert(all == x + encoded_bytes(a.skip(1)));
        assert(all == y + encoded_bytes(b.skip(1)));
        assert(all[0] == x[0]);
        assert(all[0] == y[0]);
        assert(x.len() == y.len());
        if x.len() == 3 {
            assert(all[1] == x[1] && all[1] == y[1]);
            assert(all[2] == x[2] && all[2] == y[2]);
        }
        assert(a[0] == b[0]);
        assert(encoded_bytes(a.skip(1)) =~= all.skip(x.len() as int));
        assert(encoded_bytes(b.skip(1)) =~= all.skip(y.len() as int));
        encoded_bytes_are_injective(a.skip(1), b.skip(1));
        assert(a =~= seq![a[0]] + a.skip(1));
        assert(b =~= seq![b[0]] + b.skip(1));
    }
}

/// Transaction IDs of two different times or counters differ.
pub proof fn txn_ids_are_unique(now: u64, counter: u64, other_now: u64, other_counter: u64)
    requires
        txn_id_text(now, counter) == txn_id_text(other_now, other_counter),
    ensures
        now == other_now,
        counter == other_counter,
{
    reveal_strlit("m");
    reveal_strlit(".");
    let a = text::decimal_text(now as nat);
    let b = text::decimal_text(other_now as nat);
    let c = text::decimal_text(counter as nat);
    let d = text::decimal_text(other_counter as nat);
    text::decimal_is_digits(now as nat);
    text::decimal_is_digits(other_now as nat);
    let na = a.len() as int;
    let nb = b.len() as int;
    let x = txn_id_text(now, counter);
    let y = txn_id_text(other_now, other_counter);
    assert(x.skip(1).take(na) =~= a);
    assert(y.skip(1).take(nb) =~= b);
    if a.len() < b.len() {
        if counter == 0 {
            assert(x.len() == 1 + a.len());
            assert(false);
        } else {
            assert(x[1 + na] == '.');
            assert(y[1 + na] == b[na]);
            assert(text::is_digit(b[na]));
        }
    } else if b.len() < a.len() {
        if other_counter == 0 {
            assert(y.len() == 1 + b.len());
            assert(false);
        } else {
            assert(y[1 + nb] == '.');
            assert(x[1 + nb] == a[nb]);
            assert(text::is_digit(a[nb]));
        }
    }
    assert(a =~= b);
    text::decimal_is_injective(now as nat, other_now as nat);
    if counter != 0 && other_counter != 0 {
        assert(x.skip(2 + na) =~= c);
        assert(y.skip(2 + na) =~= d);
        text::decimal_is_injective(counter as nat, other_counter as nat);
    } else if counter != 0 {
        assert(x.len() == 2 + a.len() + c.len());
        assert(y.len() == 1 + a.len());
    } else if other_counter != 0 {
        assert(y.len() == 2 + a.len() + d.len());
        assert(x.len() == 1 + a.len());
    }
}

/// Transaction IDs are unique across invocations, whatever the clock tells. An invocation that reserves
/// those from `first` up to `next` stores `next`; one that finds this stored starts there, or later,
/// and so gives none of them again.
pub proof fn reserved_ids_are_not_given_again(
    first: u64,
    next: u64,
    stored: String,
    counter: u64,
    now: u64,
    later_counter: u64,
    later_now: u64,
)
    requires
        first <= counter < next,
        stored@ == text::decimal_text(next as nat),
        stored_counter(Some(stored)) <= later_counter,
    ensures
        reserve_call(next) == CallView::WriteAll(seq![("state/txn_counter"@, stored@)]),
        stored_counter(Some(stored)) == next,
        txn_id_text(now, counter) != txn_id_text(later_now, later_counter),
{
    text::decimal_round_trip_of_64_bits(next);
    if txn_id_text(now, counter) == txn_id_text(later_now, later_counter) {
        txn_ids_are_unique(now, counter, later_now, later_counter);
    }
}

/// Whether a question is a request that sends something under a transaction ID: an event to a room, or
/// messages to devices.
pub open spec fn sends(call: CallView) -> bool {
    match call {
        CallView::SendEvent(_) => true,
        CallView::Http(request) => request.method == Method::Put,
        _ => false,
    }
}

/// Whether a question is a request with this transaction ID.
pub open spec fn bears_id(call: CallView, txn_id: Seq<char>) -> bool {
    ||| exists|url: Seq<char>, room_id: Seq<char>, kind: Seq<char>, body: Seq<u8>|
        call == CallView::SendEvent(#[trigger] send_request(url, room_id, kind, txn_id, body))
    ||| exists|url: Seq<char>, kind: Seq<char>, body: Seq<u8>|
        call == CallView::Http(#[trigger] to_device_request(url, kind, txn_id, body))
}

/// Whether a question is a request whose transaction ID has this counter.
pub open spec fn bears(call: CallView, counter: u64) -> bool {
    exists|now: u64| bears_id(call, #[trigger] txn_id_text(now, counter))
}

/// Whether a flow that has a counter left, or none, may ask this and go on with what it then has: a
/// request that sends something bears the counter, which is then spent.
pub open spec fn spends(before: Option<u64>, call: CallView, after: Option<u64>) -> bool {
    if sends(call) {
        before is Some && bears(call, before->0) && after is None
    } else {
        after == before || after is None
    }
}

/// Whether a step gives out counters in order: what it sends bears a counter from `floor` up, below all
/// those that the flow it goes on as may still use, which stay below `limit`.
pub open spec fn counts_on<F, T>(
    sound: spec_fn(F) -> bool,
    low: spec_fn(F) -> int,
    floor: int,
    limit: int,
    step: Step<F, T>,
) -> bool {
    match step {
        Step::Ask(call, next) => sound(next) && floor <= low(next) <= limit && (sends(call@)
            ==> exists|k: u64| floor <= k < low(next) && #[trigger] bears(call@, k)),
        _ => true,
    }
}

/// Whether all steps of a flow give out counters in order, where `low` is the least one that it may
/// still use.
pub open spec fn counts_well<F, T>(
    rule: host::Rule<F, T>,
    sound: spec_fn(F) -> bool,
    low: spec_fn(F) -> int,
    limit: int,
) -> bool {
    forall|flow: F, reply: HostReply, step: Step<F, T>| #[trigger]
        host::goes(rule, flow, reply, step) && sound(flow) ==> counts_on(
            sound,
            low,
            low(flow),
            limit,
            step,
        )
}

/// Whether these are the counters of what the questions send: each from `floor` up and below `limit`,
/// and each above the ones before it.
pub open spec fn are_counters(
    calls: Seq<CallView>,
    counters: Seq<u64>,
    floor: int,
    limit: int,
) -> bool {
    &&& counters.len() == calls.len()
    &&& forall|i: int|
        0 <= i < calls.len() && sends(calls[i]) ==> bears(calls[i], counters[i]) && floor
            <= #[trigger] counters[i] < limit
    &&& forall|i: int, j: int|
        0 <= i < j < calls.len() && sends(calls[i]) && sends(calls[j]) ==> #[trigger] counters[i]
            < #[trigger] counters[j]
}

/// The counters of a run of a flow that gives them out in order.
pub proof fn run_counts<F, T>(
    rule: host::Rule<F, T>,
    sound: spec_fn(F) -> bool,
    low: spec_fn(F) -> int,
    floor: int,
    limit: int,
    first: Step<F, T>,
    calls: Seq<CallView>,
    replies: Seq<HostReply>,
    last: Step<F, T>,
) -> (counters: Seq<u64>)
    requires
        counts_well(rule, sound, low, limit),
        counts_on(sound, low, floor, limit, first),
        host::runs(rule, first, calls, replies, last),
    ensures
        are_counters(calls, counters, floor, limit),
    decreases replies.len(),
{
    if replies.len() == 0 {
        Seq::empty()
    } else {
        let flow = first->Ask_1;
        let next = choose|next: Step<F, T>|
            #![trigger host::goes(rule, flow, replies[0], next)]
            host::goes(rule, flow, replies[0], next) && host::runs(
                rule,
                next,
                calls.skip(1),
                replies.skip(1),
                last,
            );
        let rest = run_counts(
            rule,
            sound,
            low,
            low(flow),
            limit,
            next,
            calls.skip(1),
            replies.skip(1),
            last,
        );
        let k = if sends(calls[0]) {
            choose|k: u64| floor <= k < low(flow) && #[trigger] bears(calls[0], k)
        } else {
            0
        };
        let counters = seq![k] + rest;
        assert forall|i: int| 0 <= i < calls.len() && sends(calls[i]) implies bears(
            calls[i],
            counters[i],
        ) && floor <= #[trigger] counters[i] < limit by {
            if i > 0 {
                assert(calls.skip(1)[i - 1] == calls[i]);
                assert(rest[i - 1] == counters[i]);
            }
        }
        assert forall|i: int, j: int|
            0 <= i < j < calls.len() && sends(calls[i]) && sends(
                calls[j],
            ) implies #[trigger] counters[i] < #[trigger] counters[j] by {
            assert(calls.skip(1)[j - 1] == calls[j]);
            assert(rest[j - 1] == counters[j]);
            if i > 0 {
                assert(calls.skip(1)[i - 1] == calls[i]);
                assert(rest[i - 1] == counters[i]);
            }
        }
        counters
    }
}

/// The counters of questions of which the first sends nothing.
pub proof fn counters_with_first(
    calls: Seq<CallView>,
    rest: Seq<u64>,
    floor: int,
    limit: int,
)
    requires
        calls.len() > 0,
        !sends(calls[0]),
        are_counters(calls.skip(1), rest, floor, limit),
    ensures
        are_counters(calls, seq![0u64] + rest, floor, limit),
{
    let counters = seq![0u64] + rest;
    assert forall|i: int| 0 <= i < calls.len() && sends(calls[i]) implies bears(
        calls[i],
        counters[i],
    ) && floor <= #[trigger] counters[i] < limit by {
        assert(calls.skip(1)[i - 1] == calls[i]);
        assert(rest[i - 1] == counters[i]);
    }
    assert forall|i: int, j: int|
        0 <= i < j < calls.len() && sends(calls[i]) && sends(calls[j]) implies #[trigger] counters[i]
        < #[trigger] counters[j] by {
        assert(calls.skip(1)[i - 1] == calls[i]);
        assert(rest[i - 1] == counters[i]);
        assert(calls.skip(1)[j - 1] == calls[j]);
        assert(rest[j - 1] == counters[j]);
    }
}

/// What is sent in one invocation and what is sent in a later one bear different transaction IDs: where
/// the first has written the counter after those it reserved, and the later one starts at the counter
/// that it finds, or above. So do two requests of one invocation.
pub proof fn requests_bear_different_ids(
    calls: Seq<CallView>,
    counters: Seq<u64>,
    first: u64,
    next: u64,
    stored: String,
    later_calls: Seq<CallView>,
    later_counters: Seq<u64>,
    later_limit: int,
    i: int,
    j: int,
    now: u64,
    later_now: u64,
)
    requires
        are_counters(calls, counters, first as int, next as int),
        host::written_at(reserve_call(next), "state/txn_counter"@) == Some(stored@),
        are_counters(
            later_calls,
            later_counters,
            stored_counter(Some(stored)) as int,
            later_limit,
        ),
        0 <= i < calls.len() && sends(calls[i]),
    ensures
        0 <= j < later_calls.len() && sends(later_calls[j]) ==> txn_id_text(now, counters[i])
            != txn_id_text(later_now, later_counters[j]),
        0 <= j < calls.len() && sends(calls[j]) && i != j ==> txn_id_text(now, counters[i])
            != txn_id_text(later_now, counters[j]),
{
    let writes = seq![("state/txn_counter"@, text::decimal_text(next as nat))];
    assert(writes.last() == writes[0]);
    assert(first <= counters[i] < next);
    if 0 <= j < later_calls.len() && sends(later_calls[j]) {
        assert(stored_counter(Some(stored)) <= later_counters[j]);
        reserved_ids_are_not_given_again(
            first,
            next,
            stored,
            counters[i],
            now,
            later_counters[j],
            later_now,
        );
    }
    if 0 <= j < calls.len() && sends(calls[j]) && i != j {
        if i < j {
            assert(counters[i] < counters[j]);
        } else {
            assert(counters[j] < counters[i]);
        }
        if txn_id_text(now, counters[i]) == txn_id_text(later_now, counters[j]) {
            txn_ids_are_unique(now, counters[i], later_now, counters[j]);
        }
    }
}

/// The body of a text message reads back: it is the text of an object that tells that it is a text, and has
/// the text as it is.
pub proof fn text_message_reads_back(content: Seq<char>) -> (tree: JsonTree)
    ensures
        text_message_json(content) == json_tree::written(tree),
        json_tree::fits(tree, 1),
        json_tree::at(tree, seq!["msgtype"@]) == Some(JsonTree::Str("m.text"@)),
        json_tree::at(tree, seq!["body"@]) == Some(JsonTree::Str(content)),
{
    reveal_strlit("msgtype");
    reveal_strlit("body");
    let members = seq![
        ("msgtype"@, JsonTree::Str("m.text"@)),
        ("body"@, JsonTree::Str(content)),
    ];
    json_tree::written_members_are(
        members,
        seq![
            ("msgtype"@, json::string_text("m.text"@)),
            ("body"@, json::string_text(content)),
        ],
    );
    assert(members[0].0.len() == 7 && members[1].0.len() == 4);
    json_tree::members_all_fit(members, 0);
    json_tree::member_is_at_its_name(members, 0);
    json_tree::member_is_at_its_name(members, 1);
    JsonTree::Object(members)
}

/// The number that a hexadecimal digit in upper case stands for.
pub open spec fn hex_value(c: char) -> int {
    if '0' <= c <= '9' {
        c as int - '0' as int
    } else {
        c as int - 'A' as int + 10
    }
}

/// The bytes that a text in a URL stands for: a percent sign and two hexadecimal digits for one byte, and any
/// other character for its own.
pub open spec fn percent_decoded(s: Seq<char>) -> Seq<u8>
    decreases s.len(),
{
    if s.len() == 0 {
        Seq::empty()
    } else if s[0] == '%' && s.len() > 2 {
        seq![(hex_value(s[1]) * 16 + hex_value(s[2])) as u8] + percent_decoded(s.skip(3))
    } else {
        seq![s[0] as u8] + percent_decoded(s.skip(1))
    }
}

proof fn encoded_bytes_decode(bytes: Seq<u8>)
    ensures
        percent_decoded(encoded_bytes(bytes)) == bytes,
    decreases bytes.len(),
{
    if bytes.len() > 0 {
        let b = bytes[0];
        let rest = encoded_bytes(bytes.skip(1));
        let all = encoded_bytes(bytes);
        encoded_bytes_decode(bytes.skip(1));
        assert(all == encoded_byte(b) + rest);
        if is_unreserved(b) {
            assert(all[0] == b as char);
            assert(all[0] != '%');
            assert(all.skip(1) =~= rest);
        } else {
            assert(all[0] == '%');
            assert(all[1] == hex_upper(b as nat / 16));
            assert(all[2] == hex_upper(b as nat % 16));
            assert(all.skip(3) =~= rest);
            assert(hex_value(all[1]) == b as int / 16);
            assert(hex_value(all[2]) == b as int % 16);
        }
        assert(percent_decoded(all) =~= bytes);
    } else {
        assert(percent_decoded(encoded_bytes(bytes)) =~= bytes);
    }
}

/// An encoded identifier stands for the identifier: percent-decoding gives its UTF-8 bytes back.
pub proof fn encoded_identifier_decodes(input: Seq<char>)
    ensures
        percent_decoded(url_encoded(input)) == encode_utf8(input),
{
    encoded_bytes_decode(encode_utf8(input));
}

/// Bytes that need no encoding are left as they are.
pub proof fn unreserved_bytes_are_left(bytes: Seq<u8>)
    requires
        forall|i: int|
            0 <= i < bytes.len() ==> ('a' as u8 <= #[trigger] bytes[i] <= 'z' as u8) || ('A' as u8
                <= bytes[i] <= 'Z' as u8) || ('0' as u8 <= bytes[i] <= '9' as u8) || bytes[i]
                == '-' as u8 || bytes[i] == '_' as u8 || bytes[i] == '.' as u8 || bytes[i]
                == '~' as u8,
    ensures
        encoded_bytes(bytes) == bytes.map_values(|b: u8| b as char),
    decreases bytes.len(),
{
    if bytes.len() > 0 {
        let rest = bytes.skip(1);
        assert forall|i: int| 0 <= i < rest.len() implies ('a' as u8 <= #[trigger] rest[i]
            <= 'z' as u8) || ('A' as u8 <= rest[i] <= 'Z' as u8) || ('0' as u8 <= rest[i] <= '9' as u8)
            || rest[i] == '-' as u8 || rest[i] == '_' as u8 || rest[i] == '.' as u8 || rest[i]
            == '~' as u8 by {
            assert(rest[i] == bytes[i + 1]);
        }
        unreserved_bytes_are_left(rest);
        assert(bytes[0] == bytes[0]);
        assert(is_unreserved(bytes[0]));
        assert(encoded_bytes(bytes) == encoded_byte(bytes[0]) + encoded_bytes(rest));
        assert(encoded_bytes(bytes) =~= bytes.map_values(|b: u8| b as char));
    } else {
        assert(encoded_bytes(bytes) =~= bytes.map_values(|b: u8| b as char));
    }
}

proof fn first_part_is_the_same(
    a: Seq<char>,
    x: Seq<char>,
    b: Seq<char>,
    y: Seq<char>,
    mark: char,
)
    requires
        a + seq![mark] + x == b + seq![mark] + y,
        !a.contains(mark),
        !b.contains(mark),
    ensures
        a == b,
        x == y,
{
    let all = a + seq![mark] + x;
    let n = a.len() as int;
    let m = b.len() as int;
    assert(all == b + seq![mark] + y);
    assert(all[n] == mark);
    assert(all[m] == mark);
    if n < m {
        assert(all[n] == b[n]);
        assert(b.contains(b[n]));
    }
    if m < n {
        assert(all[m] == a[m]);
        assert(a.contains(a[m]));
    }
    assert(all.take(n) =~= a);
    assert(all.take(m) =~= b);
    assert(all.skip(n + 1) =~= x);
    assert(all.skip(m + 1) =~= y);
}

proof fn segment_has_no_slash(input: Seq<char>)
    ensures
        !url_encoded(input).contains('/'),
{
    if url_encoded(input).contains('/') {
        let i = choose|i: int| 0 <= i < url_encoded(input).len() && url_encoded(input)[i] == '/';
        encoded_is_a_segment(input, i);
    }
}

proof fn same_tails(a: Seq<char>, x: Seq<char>, y: Seq<char>)
    requires
        a + x == a + y,
    ensures
        x == y,
{
    assert((a + x).skip(a.len() as int) =~= x);
    assert((a + y).skip(a.len() as int) =~= y);
}

/// Where an event goes can be told from its request: two requests to one server that go to the same URL send to
/// the same room, with the same event type and transaction ID.
pub proof fn sent_event_names_its_room(
    homeserver_url: Seq<char>,
    room_id: Seq<char>,
    event_type: Seq<char>,
    txn_id: Seq<char>,
    other_room: Seq<char>,
    other_type: Seq<char>,
    other_txn: Seq<char>,
    body: Seq<u8>,
    other_body: Seq<u8>,
)
    requires
        send_request(homeserver_url, room_id, event_type, txn_id, body).url == send_request(
            homeserver_url,
            other_room,
            other_type,
            other_txn,
            other_body,
        ).url,
        !event_type.contains('/'),
        !other_type.contains('/'),
    ensures
        room_id == other_room,
        event_type == other_type,
        txn_id == other_txn,
{
    reveal_strlit("/_matrix/client/v3/rooms/");
    reveal_strlit("/send/");
    reveal_strlit("/");
    let base = without_slashes(homeserver_url) + "/_matrix/client/v3/rooms/"@;
    let a = url_encoded(room_id);
    let b = url_encoded(other_room);
    let send = "/send/"@.skip(1);
    let x = send + (event_type + seq!['/'] + txn_id);
    let y = send + (other_type + seq!['/'] + other_txn);
    assert("/send/"@ =~= seq!['/'] + send);
    assert("/"@ =~= seq!['/']);
    assert(send_request(homeserver_url, room_id, event_type, txn_id, body).url =~= base + (a + seq![
        '/',
    ] + x));
    assert(send_request(homeserver_url, other_room, other_type, other_txn, other_body).url =~= base
        + (b + seq!['/'] + y));
    same_tails(base, a + seq!['/'] + x, b + seq!['/'] + y);
    segment_has_no_slash(room_id);
    segment_has_no_slash(other_room);
    first_part_is_the_same(a, x, b, y, '/');
    url_encoding_is_injective(room_id, other_room);
    same_tails(send, event_type + seq!['/'] + txn_id, other_type + seq!['/'] + other_txn);
    first_part_is_the_same(event_type, txn_id, other_type, other_txn, '/');
}

/// The room of a request to join it, or for its members, can be told from the request.
pub proof fn room_request_names_its_room(
    homeserver_url: Seq<char>,
    room: Seq<char>,
    other: Seq<char>,
)
    ensures
        join_request(homeserver_url, room) == join_request(homeserver_url, other) ==> room == other,
        joined_members_request(homeserver_url, room) == joined_members_request(
            homeserver_url,
            other,
        ) ==> room == other,
{
    let base = without_slashes(homeserver_url);
    let a = url_encoded(room);
    let b = url_encoded(other);
    if join_request(homeserver_url, room) == join_request(homeserver_url, other) {
        let head = base + "/_matrix/client/v3/join/"@;
        assert(join_request(homeserver_url, room).url =~= head + a);
        assert(join_request(homeserver_url, other).url =~= head + b);
        same_tails(head, a, b);
        url_encoding_is_injective(room, other);
    }
    if joined_members_request(homeserver_url, room) == joined_members_request(
        homeserver_url,
        other,
    ) {
        reveal_strlit("/joined_members");
        let head = base + "/_matrix/client/v3/rooms/"@;
        let tail = "/joined_members"@.skip(1);
        assert("/joined_members"@ =~= seq!['/'] + tail);
        assert(joined_members_request(homeserver_url, room).url =~= head + (a + seq!['/'] + tail));
        assert(joined_members_request(homeserver_url, other).url =~= head + (b + seq!['/'] + tail));
        same_tails(head, a + seq!['/'] + tail, b + seq!['/'] + tail);
        segment_has_no_slash(room);
        segment_has_no_slash(other);
        first_part_is_the_same(a, tail, b, tail, '/');
        url_encoding_is_injective(room, other);
    }
}

/// From where, and for how long, a request asks for new events can be told from it; and it waits longer for its
/// answer than the server does, as far as 32 bits go.
pub proof fn sync_request_tells_its_token(
    homeserver_url: Seq<char>,
    since: Option<Seq<char>>,
    timeout_ms: u32,
    filter: Option<Seq<char>>,
    other_since: Option<Seq<char>>,
    other_timeout: u32,
)
    requires
        since is Some ==> !since->0.contains('&'),
        other_since is Some ==> !other_since->0.contains('&'),
        sync_request(homeserver_url, since, timeout_ms, filter).url == sync_request(
            homeserver_url,
            other_since,
            other_timeout,
            filter,
        ).url,
    ensures
        since == other_since,
        timeout_ms == other_timeout,
        sync_request(homeserver_url, since, timeout_ms, filter).timeout_ms matches Some(wait) && (wait
            > timeout_ms || wait == u32::MAX),
{
    reveal_strlit("?since=");
    reveal_strlit("&timeout=");
    reveal_strlit("?timeout=");
    reveal_strlit("&filter=");
    let head = full_url(homeserver_url, "/_matrix/client/v3/sync"@);
    let q = sync_query(since, timeout_ms, filter);
    let p = sync_query(other_since, other_timeout, filter);
    same_tails(head, q, p);
    let n = text::decimal_text(timeout_ms as nat);
    let m = text::decimal_text(other_timeout as nat);
    text::decimal_is_digits(timeout_ms as nat);
    text::decimal_is_digits(other_timeout as nat);
    let rest = match filter {
        Some(json) => "&filter="@ + url_encoded(json),
        None => Seq::empty(),
    };
    let timeout = "&timeout="@.skip(1);
    assert("&timeout="@ =~= seq!['&'] + timeout);
    assert(q[1] == (if since is Some {
        's'
    } else {
        't'
    }));
    assert(p[1] == (if other_since is Some {
        's'
    } else {
        't'
    }));
    if since is Some {
        let a = since->0;
        let b = other_since->0;
        assert(q =~= "?since="@ + (a + seq!['&'] + (timeout + (n + rest))));
        assert(p =~= "?since="@ + (b + seq!['&'] + (timeout + (m + rest))));
        same_tails(
            "?since="@,
            a + seq!['&'] + (timeout + (n + rest)),
            b + seq!['&'] + (timeout + (m + rest)),
        );
        first_part_is_the_same(a, timeout + (n + rest), b, timeout + (m + rest), '&');
        same_tails(timeout, n + rest, m + rest);
    } else {
        assert(q =~= "?timeout="@ + (n + rest));
        assert(p =~= "?timeout="@ + (m + rest));
        same_tails("?timeout="@, n + rest, m + rest);
    }
    assert((n + rest).len() == (m + rest).len());
    assert((n + rest).take(n.len() as int) =~= n);
    assert((m + rest).take(m.len() as int) =~= m);
    text::decimal_is_injective(timeout_ms as nat, other_timeout as nat);
}

} // verus!
