use std::collections::{HashMap, VecDeque};

use matrix_channel::channel::{
    on_broadcast, on_http_request, on_poll, on_respond, on_start, ChannelConfig, OnPoll, OnStart,
};
use matrix_channel::config::MatrixConfig;
use matrix_channel::crypto_store::{
    StoredAccount, StoredInboundMegolmSession, StoredOlmSession, StoredOutboundMegolmSession,
};
use matrix_channel::decryption::{
    handle_to_device_events, try_decrypt_event, ToDevice, TryDecrypt,
};
use matrix_channel::delivery::SendOutgoing;
use matrix_channel::device::{resolve_device_id, save_account};
use matrix_channel::encryption::{encrypt_message, EncryptMessage};
use matrix_channel::host::{
    EmittedMessage, HostCall, HostReply, HttpRequest, HttpResponse, LogLevel, PairingRequest,
    ParsedResponse, Step,
};
use matrix_channel::olm::OlmAccount;
use matrix_channel::session_cache::MegolmSessionCache;
use matrix_channel::types::{
    DeviceKeys, EncryptedContent, EventContent, JoinedRoom, KeysClaimResponse, KeysQueryResponse,
    KeysUploadResponse, MatrixMessageMetadata, MessageContent, OlmEncryptedContent, RoomEvent,
    SendEventResponse, StateEvents, SyncResponse, SyncRooms, Timeline, ToDeviceContent,
    ToDeviceEvent, ToDeviceEvents, WhoamiResponse,
};
use serde_json::Value;
use vodozemac::megolm::{GroupSession, InboundGroupSession, MegolmMessage, SessionKey};
use vodozemac::olm::{Account, OlmMessage, PreKeyMessage, Session};
use vodozemac::Curve25519PublicKey;

// A host in memory: its workspace, a homeserver, and a pairing store.

struct Host {
    now: u64,
    files: HashMap<String, String>,
    /// What the homeserver answers: the first entry whose key stands in the URL.
    answers: Vec<(&'static str, u16, String)>,
    syncs: VecDeque<SyncResponse>,
    requests: Vec<HttpRequest>,
    emitted: Vec<EmittedMessage>,
    approved: Vec<String>,
    known: Vec<String>,
    paired: Vec<(String, String)>,
    refuses_to_encrypt: bool,
    log: Vec<(LogLevel, String)>,
    /// Whether the clock stands still.
    frozen: bool,
}

fn string(v: &Value) -> Result<String, String> {
    v.as_str().map(|s| s.to_string()).ok_or("not a string".to_string())
}

fn pairs(v: &Value) -> Vec<(String, String)> {
    let members = v.as_object().expect("an object");
    members.iter().map(|(k, v)| (k.clone(), string(v).unwrap())).collect()
}

fn account_of(v: &Value) -> Option<StoredAccount> {
    Some(StoredAccount {
        user_id: string(&v["user_id"]).ok()?,
        device_id: string(&v["device_id"]).ok()?,
        pickled_account: string(&v["pickled_account"]).ok()?,
        ed25519_key: string(&v["ed25519_key"]).ok()?,
        curve25519_key: string(&v["curve25519_key"]).ok()?,
        keys_uploaded: v["keys_uploaded"].as_bool()?,
        uploaded_key_count: v["uploaded_key_count"].as_u64()? as u32,
    })
}

fn olm_of(v: &Value) -> Option<StoredOlmSession> {
    Some(StoredOlmSession {
        sender_key: string(&v["sender_key"]).ok()?,
        pickled_session: string(&v["pickled_session"]).ok()?,
        last_use_ts: v["last_use_ts"].as_u64()?,
    })
}

fn inbound_of(v: &Value) -> Option<StoredInboundMegolmSession> {
    let indices = v["seen_indices"].as_array()?;
    Some(StoredInboundMegolmSession {
        room_id: string(&v["room_id"]).ok()?,
        session_id: string(&v["session_id"]).ok()?,
        sender_key: string(&v["sender_key"]).ok()?,
        pickled_session: string(&v["pickled_session"]).ok()?,
        forwarded: v["forwarded"].as_bool()?,
        seen_indices: indices.iter().map(|i| i.as_u64().unwrap() as u32).collect(),
    })
}

fn outbound_of(v: &Value) -> Option<StoredOutboundMegolmSession> {
    Some(StoredOutboundMegolmSession {
        room_id: string(&v["room_id"]).ok()?,
        session_id: string(&v["session_id"]).ok()?,
        pickled_session: string(&v["pickled_session"]).ok()?,
        message_count: v["message_count"].as_u64()? as u32,
        created_ts: v["created_ts"].as_u64()?,
    })
}

fn device_keys_of(v: &Value) -> DeviceKeys {
    DeviceKeys {
        user_id: string(&v["user_id"]).unwrap(),
        device_id: string(&v["device_id"]).unwrap(),
        algorithms: vec![],
        keys: pairs(&v["keys"]),
        signatures: vec![],
    }
}

fn query_of(v: &Value) -> Result<KeysQueryResponse, String> {
    let users = v["device_keys"].as_object().ok_or("no device keys")?;
    let mut device_keys = vec![];
    for (user, devices) in users {
        let devices = devices.as_object().ok_or("no devices")?;
        let keys = devices.iter().map(|(d, k)| (d.clone(), device_keys_of(k))).collect();
        device_keys.push((user.clone(), keys));
    }
    Ok(KeysQueryResponse { device_keys })
}

fn claim_of(v: &Value) -> Result<KeysClaimResponse, String> {
    let users = v["one_time_keys"].as_object().ok_or("no keys")?;
    let mut one_time_keys = vec![];
    for (user, devices) in users {
        let devices = devices.as_object().ok_or("no devices")?;
        let keys =
            devices.iter().map(|(d, k)| (d.clone(), k.to_string().into_bytes())).collect();
        one_time_keys.push((user.clone(), keys));
    }
    Ok(KeysClaimResponse { one_time_keys })
}

fn upload_of(v: &Value) -> Result<KeysUploadResponse, String> {
    let counts = v["one_time_key_counts"].as_object().ok_or("no counts")?;
    let counts = counts.iter().map(|(k, n)| (k.clone(), n.as_u64().unwrap() as u32)).collect();
    Ok(KeysUploadResponse { one_time_key_counts: counts })
}

fn whoami_of(v: &Value) -> Result<WhoamiResponse, String> {
    let device_id = string(&v["device_id"]).ok();
    Ok(WhoamiResponse { user_id: string(&v["user_id"])?, device_id })
}

fn sent_of(v: &Value) -> Result<SendEventResponse, String> {
    Ok(SendEventResponse { event_id: string(&v["event_id"])? })
}

impl Host {
    fn new() -> Host {
        Host {
            now: 1000,
            files: HashMap::new(),
            answers: vec![],
            syncs: VecDeque::new(),
            requests: vec![],
            emitted: vec![],
            approved: vec![],
            known: vec![],
            paired: vec![],
            refuses_to_encrypt: false,
            log: vec![],
            frozen: false,
        }
    }

    fn put(&mut self, path: &str, text: &str) {
        self.files.insert(path.to_string(), text.to_string());
    }

    fn file(&self, path: &str) -> &str {
        self.files.get(path).expect(path)
    }

    fn answer_with(&mut self, url: &'static str, status: u16, body: &str) {
        self.answers.insert(0, (url, status, body.to_string()));
    }

    fn http(&mut self, request: HttpRequest) -> Result<HttpResponse, String> {
        let found = self.answers.iter().find(|(url, _, _)| request.url.contains(url));
        let answer = match found {
            Some((_, status, body)) => {
                Ok(HttpResponse { status: *status, body: body.clone().into_bytes() })
            }
            None => Err("no route".to_string()),
        };
        self.requests.push(request);
        answer
    }

    fn parsed<T>(
        &mut self,
        request: HttpRequest,
        read: fn(&Value) -> Result<T, String>,
    ) -> Result<ParsedResponse<T>, String> {
        let response = self.http(request)?;
        let value: Result<Value, String> =
            serde_json::from_slice(&response.body).map_err(|e| e.to_string());
        let parsed = value.and_then(|v| read(&v));
        Ok(ParsedResponse { response, parsed })
    }

    fn record<T>(&self, path: &str, read: fn(&Value) -> Option<T>) -> Option<T> {
        let text = self.files.get(path)?;
        let value: Value = serde_json::from_str(text).ok()?;
        read(&value)
    }

    fn reply(&mut self, call: HostCall) -> HostReply {
        match call {
            HostCall::Log(level, message) => {
                self.log.push((level, message));
                HostReply::Finished
            }
            HostCall::Now => {
                if !self.frozen {
                    self.now += 1;
                }
                HostReply::Time(self.now)
            }
            HostCall::Read(path) => HostReply::Text(self.files.get(&path).cloned()),
            HostCall::Write(path, text) => {
                self.files.insert(path, text);
                HostReply::Written(Ok(()))
            }
            HostCall::WriteAll(writes) => {
                for (path, text) in writes {
                    self.files.insert(path, text);
                }
                HostReply::Finished
            }
            HostCall::ReadAccount(path) => HostReply::Account(self.record(&path, account_of)),
            HostCall::ReadOlmSessions(path) => {
                let list = |v: &Value| -> Option<Vec<StoredOlmSession>> {
                    v.as_array()?.iter().map(olm_of).collect()
                };
                HostReply::OlmSessions(self.record(&path, list).unwrap_or_default())
            }
            HostCall::ReadInbound(path) => HostReply::Inbound(self.record(&path, inbound_of)),
            HostCall::ReadOutbound(path) => HostReply::Outbound(self.record(&path, outbound_of)),
            HostCall::Encrypt(bytes) => {
                if self.refuses_to_encrypt {
                    return HostReply::Bytes(Err("no key".to_string()));
                }
                let mut sealed = vec![b'#'];
                sealed.extend(bytes.iter().map(|b| b ^ 0x5a));
                HostReply::Bytes(Ok(sealed))
            }
            HostCall::Decrypt(bytes) => match bytes.split_first() {
                Some((b'#', rest)) => HostReply::Bytes(Ok(rest.iter().map(|b| b ^ 0x5a).collect())),
                _ => HostReply::Bytes(Err("not sealed".to_string())),
            },
            HostCall::Http(request) => HostReply::Http(self.http(request)),
            HostCall::Whoami(request) => HostReply::Whoami(self.parsed(request, whoami_of)),
            HostCall::Sync(request) => {
                self.requests.push(request);
                let response = HttpResponse { status: 200, body: vec![] };
                HostReply::Sync(match self.syncs.pop_front() {
                    Some(sync) => Ok(ParsedResponse { response, parsed: Ok(sync) }),
                    None => Err("offline".to_string()),
                })
            }
            HostCall::SendEvent(request) => HostReply::SendEvent(self.parsed(request, sent_of)),
            HostCall::KeysUpload(request) => {
                HostReply::KeysUpload(self.parsed(request, upload_of))
            }
            HostCall::KeysQuery(request) => HostReply::KeysQuery(self.parsed(request, query_of)),
            HostCall::KeysClaim(request) => HostReply::KeysClaim(self.parsed(request, claim_of)),
            HostCall::Emit(message) => {
                self.emitted.push(message);
                HostReply::Finished
            }
            HostCall::PairingAllowFrom(channel) => {
                assert_eq!(channel, "matrix");
                HostReply::PairingAllowFrom(Ok(self.approved.clone()))
            }
            HostCall::PairingIsAllowed(_, sender) => {
                HostReply::PairingIsAllowed(Ok(self.known.contains(&sender)))
            }
            HostCall::PairingUpsert(_, sender, meta) => {
                let created = !self.paired.iter().any(|(s, _)| *s == sender);
                self.paired.push((sender, meta));
                HostReply::PairingUpsert(Ok(PairingRequest {
                    code: "CODE42".to_string(),
                    created,
                }))
            }
        }
    }

    fn run<F, T>(&mut self, first: Step<F, T>, resume: fn(F, HostReply) -> Step<F, T>) -> T {
        let mut step = first;
        loop {
            step = match step {
                Step::Ask(call, flow) => {
                    let reply = self.reply(call);
                    resume(flow, reply)
                }
                Step::Done(result) => return result,
                Step::Stray(_) => panic!("a stray answer"),
            };
        }
    }

    fn start(&mut self, config: MatrixConfig) -> Result<ChannelConfig, String> {
        self.run(on_start(Ok(config)), OnStart::resume)
    }

    fn poll(&mut self) {
        let (call, flow) = on_poll();
        self.run(Step::Ask(call, flow), OnPoll::resume)
    }

    fn respond(&mut self, room: &str, encrypted: bool, text: &str) -> Result<(), String> {
        let metadata = MatrixMessageMetadata {
            room_id: room.to_string(),
            event_id: "$e".to_string(),
            sender: "@al:h".to_string(),
            encrypted,
        };
        self.run(on_respond(Ok(metadata), text.to_string()), SendOutgoing::resume)
    }

    fn broadcast(&mut self, room: &str, text: &str) -> Result<(), String> {
        let (call, flow) = on_broadcast(room.to_string(), text.to_string());
        self.run(Step::Ask(call, flow), SendOutgoing::resume)
    }

    /// The bodies of the requests whose URL holds `url`, and forgets all requests.
    fn sent(&mut self, url: &str) -> Vec<Value> {
        let bodies = self
            .requests
            .iter()
            .filter(|r| r.url.contains(url))
            .map(|r| serde_json::from_slice(r.body.as_ref().unwrap()).unwrap())
            .collect();
        self.requests.clear();
        bodies
    }
}

fn config(e2ee: bool) -> MatrixConfig {
    MatrixConfig {
        homeserver_url: "https://h".to_string(),
        enable_e2ee: e2ee,
        ..MatrixConfig::default()
    }
}

fn message(sender: &str, body: &str) -> RoomEvent {
    RoomEvent {
        event_type: "m.room.message".to_string(),
        event_id: Some("$m".to_string()),
        sender: Some(sender.to_string()),
        origin_server_ts: None,
        content: EventContent {
            message: Ok(MessageContent {
                msgtype: Some("m.text".to_string()),
                body: Some(body.to_string()),
                formatted_body: None,
                format: None,
            }),
            encrypted: Err("missing field `algorithm`".to_string()),
        },
        state_key: None,
    }
}

fn encrypted(sender: &str, session_id: &str, ciphertext: &str) -> RoomEvent {
    RoomEvent {
        event_type: "m.room.encrypted".to_string(),
        event_id: Some("$x".to_string()),
        sender: Some(sender.to_string()),
        origin_server_ts: None,
        content: EventContent {
            message: Err("no message".to_string()),
            encrypted: Ok(EncryptedContent {
                algorithm: "m.megolm.v1.aes-sha2".to_string(),
                sender_key: Some("k".to_string()),
                session_id: Some(session_id.to_string()),
                device_id: None,
                ciphertext: Some(ciphertext.to_string()),
            }),
        },
        state_key: None,
    }
}

fn room_sync(
    next: &str,
    room: &str,
    events: Vec<RoomEvent>,
    to_device: Vec<ToDeviceEvent>,
) -> SyncResponse {
    let joined = JoinedRoom { timeline: Some(Timeline { events }), state: None };
    SyncResponse {
        next_batch: next.to_string(),
        rooms: Some(SyncRooms { join: Some(vec![(room.to_string(), joined)]), invite: None }),
        to_device: Some(ToDeviceEvents { events: to_device }),
    }
}

fn olm_event(sender_key: &str, our_key: &str, kind: u64, body: &str) -> ToDeviceEvent {
    let message = format!("{{\"type\":{},\"body\":\"{}\"}}", kind, body);
    ToDeviceEvent {
        event_type: "m.room.encrypted".to_string(),
        sender: None,
        content: ToDeviceContent {
            json: b"{}".to_vec(),
            olm: Ok(OlmEncryptedContent {
                algorithm: "m.olm.v1.curve25519-aes-sha2".to_string(),
                sender_key: sender_key.to_string(),
                ciphertext: vec![(our_key.to_string(), message.into_bytes())],
            }),
        },
    }
}

fn room_key(room: &str, session: &GroupSession) -> String {
    format!(
        "{}{}{}{}{}{}{}",
        r#"{"algorithm":"m.megolm.v1.aes-sha2","room_id":""#,
        room,
        r#"","session_id":""#,
        session.session_id(),
        r#"","session_key":""#,
        session.session_key().to_base64(),
        r#""}"#
    )
}

fn room_key_payload(room: &str, session: &GroupSession) -> String {
    format!(r#"{{"type":"m.room_key","content":{}}}"#, room_key(room, session))
}

// A plain start, and what it stores.

#[test]
fn start_persists_its_settings() {
    let mut host = Host::new();
    let mut config = config(false);
    config.user_id = Some("@bot:h".to_string());
    config.allow_from = vec!["@al:h".to_string()];
    config.allowed_room_ids = vec!["!r:h".to_string()];
    config.respond_to_all_room_messages = true;
    config.sync_timeout_ms = 60_000;
    let told = host.start(config).unwrap();
    assert_eq!(told.display_name, "Matrix");
    assert_eq!(told.http_endpoints.len(), 1);
    assert_eq!(told.http_endpoints[0].path, "/webhook/matrix");
    assert_eq!(told.http_endpoints[0].methods, vec!["POST"]);
    assert!(!told.http_endpoints[0].require_secret);
    let poll = told.poll.unwrap();
    assert_eq!((poll.interval_ms, poll.enabled), (60_000, true));
    assert_eq!(host.file("state/homeserver_url"), "https://h");
    assert_eq!(host.file("state/user_id"), "@bot:h");
    assert_eq!(host.file("state/dm_policy"), "pairing");
    assert_eq!(host.file("state/allow_from"), r#"["@al:h"]"#);
    assert_eq!(host.file("state/allowed_room_ids"), r#"["!r:h"]"#);
    assert_eq!(host.file("state/respond_to_all_room_messages"), "true");
    assert_eq!(host.file("state/e2ee_enabled"), "false");
    assert_eq!(host.file("state/sync_timeout_ms"), "60000");
    assert!(host.requests.is_empty());
}

#[test]
fn start_polls_no_more_often_than_every_half_minute() {
    let mut host = Host::new();
    let mut config = config(false);
    config.user_id = Some("@bot:h".to_string());
    config.sync_timeout_ms = 10;
    assert_eq!(host.start(config).unwrap().poll.unwrap().interval_ms, 30_000);
}

#[test]
fn start_falls_back_to_what_is_stored() {
    let mut host = Host::new();
    host.put("state/homeserver_url", "https://old");
    host.put("state/user_id", "@old:h");
    assert!(host.start(MatrixConfig::default()).is_ok());
    assert_eq!(host.file("state/homeserver_url"), "https://old");
    assert_eq!(host.file("state/user_id"), "@old:h");
}

#[test]
fn start_needs_a_homeserver_and_a_user() {
    let mut host = Host::new();
    let e = host.start(MatrixConfig::default()).unwrap_err();
    assert!(e.starts_with("homeserver_url is required."));
    let e = host.start(config(false)).unwrap_err();
    assert_eq!(e, "Failed to detect user ID: whoami request failed: no route");
    host.answer_with("whoami", 200, r#"{"user_id":"@found:h"}"#);
    assert!(host.start(config(false)).is_ok());
    assert_eq!(host.file("state/user_id"), "@found:h");
    let step = on_start(Err("expected value".to_string()));
    let e = host.run(step, OnStart::resume).unwrap_err();
    assert_eq!(e, "Failed to parse config: expected value");
}

#[test]
fn health_check_answers() {
    let r = on_http_request();
    assert_eq!(r.status, 200);
    assert_eq!(r.headers_json, r#"{"Content-Type":"application/json"}"#);
    assert_eq!(r.body, br#"{"ok":true}"#.to_vec());
}

#[test]
fn whoami_device_counts_before_the_configured_one() {
    let told = |d: Option<&str>| {
        Ok(WhoamiResponse {
            user_id: "@b:h".to_string(),
            device_id: d.map(|s| s.to_string()),
        })
    };
    assert_eq!(resolve_device_id(told(Some("A")), "B").unwrap(), "A");
    assert_eq!(resolve_device_id(told(Some("")), "B").unwrap(), "B");
    assert_eq!(resolve_device_id(told(None), "B").unwrap(), "B");
    assert_eq!(resolve_device_id(Err("e".to_string()), "B").unwrap(), "B");
    let e = resolve_device_id(told(None), "").unwrap_err();
    assert!(e.starts_with("Cannot initialize E2EE: whoami returned no device_id"));
    assert_eq!(
        resolve_device_id(Err("e".to_string()), "").unwrap_err(),
        "Cannot initialize E2EE: whoami failed (e) and no device_id configured"
    );
}

// Plaintext messages.

fn plain_host(policy: &str) -> Host {
    let mut host = Host::new();
    let mut config = config(false);
    config.user_id = Some("@bot:h".to_string());
    config.dm_policy = policy.to_string();
    config.allow_from = vec!["@al:h".to_string()];
    host.start(config).unwrap();
    host.put("state/since_token", "s0");
    host.answer_with("/send/", 200, r#"{"event_id":"$sent"}"#);
    host.answer_with("joined_members", 200, r#"{"joined":{"@bot:h":{},"@al:h":{}}}"#);
    host
}

#[test]
fn permitted_message_is_emitted_and_answered() {
    let mut host = plain_host("allowlist");
    let events = vec![message("@bot:h", "mine"), message("@al:h", "hello")];
    host.syncs.push_back(room_sync("s1", "!r:h", events, vec![]));
    host.poll();
    assert_eq!(host.file("state/since_token"), "s1");
    assert!(host.requests[0].url.contains("since=s0&timeout=30000&filter="));
    assert_eq!(host.emitted.len(), 1);
    let emitted = &host.emitted[0];
    assert_eq!(emitted.user_id, "@al:h");
    assert_eq!(emitted.user_name.as_deref(), Some("al"));
    assert_eq!(emitted.content, "hello");
    assert!(emitted.thread_id.is_none());
    assert_eq!(
        emitted.metadata_json,
        r#"{"room_id":"!r:h","event_id":"$m","sender":"@al:h","encrypted":false}"#
    );
    host.requests.clear();
    host.respond("!r:h", false, "hi").unwrap();
    // The poll had the first counter, for a reply to the event.
    assert_eq!(host.requests[0].url.split('/').last().unwrap(), format!("m{}.1", host.now));
    let sent = host.sent("/rooms/%21r%3Ah/send/m.room.message/");
    assert_eq!(sent.len(), 1);
    assert_eq!(sent[0]["body"], "hi");
}

#[test]
fn chunks_of_one_message_have_different_transactions() {
    let mut host = plain_host("allowlist");
    host.respond("!r:h", false, &"a".repeat(9000)).unwrap();
    let urls: Vec<String> = host.requests.iter().map(|r| r.url.clone()).collect();
    assert_eq!(urls.len(), 3);
    assert_ne!(urls[0], urls[1]);
    assert_ne!(urls[1], urls[2]);
    assert!(urls[1].ends_with(".1"));
}

#[test]
fn transactions_differ_across_invocations() {
    let mut host = plain_host("pairing");
    host.frozen = true;
    host.respond("!r:h", false, "one").unwrap();
    host.respond("!r:h", false, "two").unwrap();
    host.broadcast("!r:h", "three").unwrap();
    host.syncs.push_back(room_sync("s1", "!r:h", vec![message("@eve:h", "hi")], vec![]));
    host.poll();
    host.respond("!r:h", false, "four").unwrap();
    let mut urls: Vec<String> = host
        .requests
        .iter()
        .filter(|r| r.url.contains("/send/"))
        .map(|r| r.url.clone())
        .collect();
    assert_eq!(urls.len(), 5);
    assert!(urls[0].ends_with(&format!("/m{}", host.now)));
    urls.sort();
    urls.dedup();
    assert_eq!(urls.len(), 5);
    assert_eq!(host.file("state/txn_counter"), "9");
}

#[test]
fn only_dm_rooms_are_answered_by_default() {
    let mut host = plain_host("allowlist");
    host.answer_with("joined_members", 200, r#"{"joined":{"@bot:h":{},"@al:h":{},"@bo:h":{}}}"#);
    let mut poll = |host: &mut Host| {
        host.syncs.push_back(room_sync("s1", "!r:h", vec![message("@al:h", "hello")], vec![]));
        host.poll();
        host.emitted.len()
    };
    assert_eq!(poll(&mut host), 0);
    // Nobody is paired there either.
    host.put("state/dm_policy", "pairing");
    host.put("state/allow_from", "[]");
    assert_eq!(poll(&mut host), 0);
    assert!(host.paired.is_empty());
    host.put("state/respond_to_all_room_messages", "true");
    assert_eq!(poll(&mut host), 1);
    // A room whose members are not known is no DM room.
    host.put("state/respond_to_all_room_messages", "false");
    host.put("state/dm_policy", "open");
    host.answer_with("joined_members", 403, "no");
    assert_eq!(poll(&mut host), 1);
    let entry = "Members of !r:h unknown: joined_members returned 403: no".to_string();
    assert_eq!(host.log.pop(), Some((LogLevel::Warn, entry)));
}

#[test]
fn failures_are_logged() {
    let mut host = plain_host("pairing");
    host.poll();
    let entry = |level: LogLevel, message: &str| Some((level, message.to_string()));
    assert_eq!(
        host.log.pop(),
        entry(LogLevel::Error, "Sync failed: sync request failed: offline")
    );
    host.syncs.push_back(room_sync("s1", "#bad", vec![message("@al:h", "a")], vec![]));
    host.poll();
    assert_eq!(host.log.pop(), entry(LogLevel::Warn, "Rejected: invalid room ID format: #bad"));
    host.syncs.push_back(room_sync("s2", "!r:h", vec![message("al", "a")], vec![]));
    host.poll();
    assert_eq!(host.log.pop(), entry(LogLevel::Warn, "Rejected: invalid sender user ID: al"));
    host.answer_with("/send/", 500, "down");
    host.syncs.push_back(room_sync("s3", "!r:h", vec![message("@eve:h", "a")], vec![]));
    host.poll();
    assert_eq!(
        host.log.pop(),
        entry(LogLevel::Error, "Failed to send pairing reply: send event returned 500: down")
    );
    assert!(host.log.is_empty());
    let mut host = Host::new();
    host.poll();
    assert_eq!(host.log.pop(), entry(LogLevel::Error, "No homeserver URL configured"));
    host.put("state/homeserver_url", "https://h");
    host.poll();
    assert_eq!(host.log.pop(), entry(LogLevel::Error, "No user ID configured"));
}

#[test]
fn first_sync_is_history() {
    let mut host = plain_host("open");
    host.put("state/since_token", "");
    host.syncs.push_back(room_sync("s1", "!r:h", vec![message("@al:h", "old")], vec![]));
    host.poll();
    assert!(host.emitted.is_empty());
    assert_eq!(host.file("state/since_token"), "s1");
    assert!(!host.requests[0].url.contains("since="));
}

#[test]
fn failed_sync_changes_nothing() {
    let mut host = plain_host("open");
    host.poll();
    assert!(host.emitted.is_empty());
    assert_eq!(host.file("state/since_token"), "s0");
}

#[test]
fn refused_sync_is_not_repeated_in_the_poll() {
    let mut host = plain_host("open");
    let asked = host.requests.len();
    host.poll();
    assert_eq!(host.requests.len(), asked + 1);
    assert_eq!(host.log.len(), 1);
    host.poll();
    assert_eq!(host.requests.len(), asked + 2);
}

#[test]
fn stranger_gets_a_pairing_code_once() {
    let mut host = plain_host("pairing");
    for i in 0..2 {
        let token = format!("s{}", i + 1);
        host.syncs.push_back(room_sync(&token, "!r:h", vec![message("@eve:h", "hi")], vec![]));
        host.poll();
    }
    assert!(host.emitted.is_empty());
    assert_eq!(host.paired.len(), 2);
    assert_eq!(host.paired[0].1, r#"{"room_id":"!r:h","user_id":"@eve:h"}"#);
    let sent = host.sent("/send/m.room.message/");
    assert_eq!(sent.len(), 1);
    assert_eq!(
        sent[0]["body"],
        "To pair with this bot, run: `ironclaw pairing approve matrix CODE42`"
    );
}

#[test]
fn stranger_gets_nothing_from_an_allowlist() {
    let mut host = plain_host("allowlist");
    host.syncs.push_back(room_sync("s1", "!r:h", vec![message("@eve:h", "hi")], vec![]));
    host.poll();
    assert!(host.emitted.is_empty());
    assert!(host.paired.is_empty());
    assert!(host.sent("/send/").is_empty());
}

#[test]
fn everybody_is_permitted_by_policy_flag_wildcard_or_store() {
    let send = |host: &mut Host| {
        host.syncs.push_back(room_sync("s1", "!r:h", vec![message("@eve:h", "hi")], vec![]));
        host.poll();
        host.emitted.len()
    };
    assert_eq!(send(&mut plain_host("open")), 1);
    let mut host = plain_host("allowlist");
    host.put("state/respond_to_all_room_messages", "true");
    assert_eq!(send(&mut host), 1);
    let mut host = plain_host("allowlist");
    host.put("state/allow_from", r#"["*"]"#);
    assert_eq!(send(&mut host), 1);
    let mut host = plain_host("allowlist");
    host.approved = vec!["@eve:h".to_string()];
    assert_eq!(send(&mut host), 1);
    let mut host = plain_host("allowlist");
    host.known = vec!["@eve:h".to_string()];
    assert_eq!(send(&mut host), 1);
}

#[test]
fn rooms_and_senders_must_be_fit() {
    let mut host = plain_host("open");
    host.put("state/allowed_room_ids", r#"["!only:h"]"#);
    host.syncs.push_back(room_sync("s1", "!r:h", vec![message("@al:h", "a")], vec![]));
    host.syncs.push_back(room_sync("s2", "#bad:h", vec![message("@al:h", "b")], vec![]));
    host.syncs.push_back(room_sync("s3", "!only:h", vec![message("al:h", "c")], vec![]));
    host.syncs.push_back(room_sync("s4", "!only:h", vec![message("@al:h", "d")], vec![]));
    for _ in 0..4 {
        host.poll();
    }
    assert_eq!(host.emitted.len(), 1);
    assert_eq!(host.emitted[0].content, "d");
}

#[test]
fn invitations_are_accepted() {
    let mut host = plain_host("open");
    let invite = Some(vec!["!new:h".to_string(), "!gone:h".to_string()]);
    host.syncs.push_back(SyncResponse {
        next_batch: "s1".to_string(),
        rooms: Some(SyncRooms { join: None, invite }),
        to_device: None,
    });
    host.poll();
    let joins: Vec<&str> =
        host.requests.iter().filter(|r| r.url.contains("/join/")).map(|r| r.url.as_str()).collect();
    assert_eq!(
        joins,
        vec![
            "https://h/_matrix/client/v3/join/%21new%3Ah",
            "https://h/_matrix/client/v3/join/%21gone%3Ah"
        ]
    );
    assert_eq!(
        host.log[1],
        (
            LogLevel::Error,
            "Failed to join room !gone:h: join room request failed: no route".to_string()
        )
    );
}

#[test]
fn encryption_of_a_room_is_noticed() {
    let mut host = plain_host("open");
    let mut turned_on = message("@al:h", "");
    turned_on.event_type = "m.room.encryption".to_string();
    let mut response = room_sync("s1", "!r:h", vec![message("@al:h", "hi")], vec![]);
    if let Some(join) = &mut response.rooms.as_mut().unwrap().join {
        join[0].1.state = Some(StateEvents { events: vec![turned_on] });
    }
    host.syncs.push_back(response);
    host.poll();
    assert_eq!(host.file("state/encrypted_rooms"), r#"["!r:h"]"#);
    assert!(host.emitted[0].metadata_json.contains(r#""encrypted":true"#));
    // So it is where the timeline alone tells it.
    let mut turned_on = message("@al:h", "");
    turned_on.event_type = "m.room.encryption".to_string();
    host.syncs.push_back(room_sync("s2", "!q:h", vec![turned_on], vec![]));
    host.poll();
    assert_eq!(host.file("state/encrypted_rooms"), r#"["!r:h","!q:h"]"#);
}

#[test]
fn sending_tells_its_failures() {
    let mut host = Host::new();
    assert_eq!(host.respond("!r:h", false, "x").unwrap_err(), "No homeserver URL configured");
    assert_eq!(host.broadcast("!r:h", "x").unwrap_err(), "No homeserver URL configured");
    let mut host = plain_host("open");
    host.answer_with("/send/", 403, "no");
    assert_eq!(host.respond("!r:h", false, "x").unwrap_err(), "send event returned 403: no");
    assert_eq!(
        host.broadcast("!r:h", "x").unwrap_err(),
        "Failed to broadcast to !r:h: send event returned 403: no"
    );
    let step = on_respond(Err("missing field".to_string()), "x".to_string());
    let e = host.run(step, SendOutgoing::resume).unwrap_err();
    assert_eq!(e, "Failed to parse metadata: missing field");
}

#[test]
fn polls_without_a_start_do_nothing() {
    let mut host = Host::new();
    host.poll();
    host.put("state/homeserver_url", "https://h");
    host.poll();
    assert!(host.requests.is_empty());
}

#[test]
fn stray_answers_leave_a_flow_where_it_was() {
    let (_, flow) = on_poll();
    match flow.resume(HostReply::Finished) {
        Step::Stray(OnPoll::Homeserver) => {}
        _ => panic!("a stray answer"),
    }
    let account = OlmAccount::new();
    let (call, save) = save_account(&account, "@b:h", "D", true, 3);
    assert!(matches!(call, HostCall::Encrypt(bytes) if bytes == account.pickle()));
    let same = match save.resume(HostReply::Time(1)) {
        Step::Stray(save) => save,
        _ => panic!("a stray answer"),
    };
    match same.resume(HostReply::Bytes(Err("no".to_string()))) {
        Step::Done(Err(e)) => assert_eq!(e, "Host encryption failed: no"),
        _ => panic!("a failure"),
    }
}

// End-to-end encryption.

struct Peer {
    user: &'static str,
    device: &'static str,
    account: Account,
}

impl Peer {
    fn new(user: &'static str, device: &'static str) -> Peer {
        Peer { user, device, account: Account::new() }
    }

    fn key(&self) -> String {
        self.account.curve25519_key().to_base64()
    }

    fn keys_json(&self) -> String {
        format!(
            r#"{{"user_id":"{}","device_id":"{}","keys":{{"curve25519:{}":"{}","ed25519:{}":"{}"}}}}"#,
            self.user,
            self.device,
            self.device,
            self.key(),
            self.device,
            self.account.ed25519_key().to_base64()
        )
    }
}

/// A host whose channel has started with E2EE, in a room with itself and one peer.
fn sealed_host(peer: &mut Peer) -> Host {
    let mut host = Host::new();
    host.answer_with("whoami", 200, r#"{"user_id":"@bot:h","device_id":"BOTDEV"}"#);
    host.answer_with("keys/upload", 200, r#"{"one_time_key_counts":{"signed_curve25519":10}}"#);
    host.answer_with("/send/", 200, r#"{"event_id":"$sent"}"#);
    host.answer_with("/sendToDevice/", 200, "{}");
    host.answer_with(
        "joined_members",
        200,
        &format!(r#"{{"joined":{{"@bot:h":{{}},"{}":{{}}}}}}"#, peer.user),
    );
    host.answer_with(
        "keys/query",
        200,
        &format!(
            r#"{{"device_keys":{{"@bot:h":{{"OWN":{{"user_id":"@bot:h","device_id":"OWN","keys":{{}}}}}},"{}":{{"{}":{}}}}}}}"#,
            peer.user,
            peer.device,
            peer.keys_json()
        ),
    );
    peer.account.generate_one_time_keys(1);
    let once = peer.account.one_time_keys().values().next().unwrap().to_base64();
    host.answer_with(
        "keys/claim",
        200,
        &format!(
            r#"{{"one_time_keys":{{"{}":{{"{}":{{"signed_curve25519:AA/A~Q":{{"key":"{}"}}}}}}}}}}"#,
            peer.user, peer.device, once
        ),
    );
    let mut config = config(true);
    config.user_id = Some("@bot:h".to_string());
    config.dm_policy = "open".to_string();
    host.start(config).unwrap();
    host.put("state/since_token", "s0");
    host.put("state/encrypted_rooms", r#"["!r:h"]"#);
    host
}

fn bot_key(host: &Host) -> String {
    let account: Value = serde_json::from_str(host.file("crypto/account.json")).unwrap();
    string(&account["curve25519_key"]).unwrap()
}

#[test]
fn start_with_e2ee_uploads_signed_keys() {
    let mut peer = Peer::new("@al:h", "ALDEV");
    let mut host = sealed_host(&mut peer);
    assert_eq!(host.file("state/e2ee_enabled"), "true");
    assert_eq!(host.file("state/device_id"), "BOTDEV");
    let stored: Value = serde_json::from_str(host.file("crypto/account.json")).unwrap();
    assert_eq!(stored["user_id"], "@bot:h");
    assert_eq!(stored["device_id"], "BOTDEV");
    assert_eq!(stored["keys_uploaded"], true);
    let ed25519 = string(&stored["ed25519_key"]).unwrap();
    let public = vodozemac::Ed25519PublicKey::from_base64(&ed25519).unwrap();
    let verifies = |value: &Value| {
        let signature = string(&value["signatures"]["@bot:h"]["ed25519:BOTDEV"]).unwrap();
        let signature = vodozemac::Ed25519Signature::from_base64(&signature).unwrap();
        let mut bare = value.clone();
        bare.as_object_mut().unwrap().remove("signatures");
        public.verify(bare.to_string().as_bytes(), &signature).is_ok()
    };
    let uploads = host.sent("keys/upload");
    assert_eq!(uploads.len(), 2);
    let device = &uploads[0]["device_keys"];
    assert_eq!(device["user_id"], "@bot:h");
    assert_eq!(device["device_id"], "BOTDEV");
    assert_eq!(device["algorithms"][0], "m.olm.v1.curve25519-aes-sha2");
    assert_eq!(device["algorithms"][1], "m.megolm.v1.aes-sha2");
    assert_eq!(device["keys"]["ed25519:BOTDEV"], stored["ed25519_key"]);
    assert_eq!(device["keys"]["curve25519:BOTDEV"], stored["curve25519_key"]);
    assert!(verifies(device));
    let once = uploads[1]["one_time_keys"].as_object().unwrap();
    assert_eq!(once.len(), 10);
    for (name, key) in once {
        assert!(name.starts_with("signed_curve25519:"));
        assert!(verifies(key));
    }
}

#[test]
fn stored_pickles_are_sealed() {
    let mut peer = Peer::new("@al:h", "ALDEV");
    let mut host = sealed_host(&mut peer);
    host.respond("!r:h", true, "secret").unwrap();
    let mut seen = 0;
    for (path, text) in &host.files {
        if path.starts_with("crypto/") {
            assert!(!text.contains("signing_key") && !text.contains("ratchet"), "{}", path);
            assert!(!text.contains("secret"), "{}", path);
            seen += 1;
        }
    }
    assert!(seen >= 4);
}

#[test]
fn encrypted_conversation() {
    let mut peer = Peer::new("@al:h", "ALDEV");
    let mut host = sealed_host(&mut peer);
    let bot_curve = bot_key(&host);
    host.requests.clear();

    // The bot answers in the encrypted room: the key goes to the peer's device, and to no other.
    host.respond("!r:h", true, "Hello \"Al\"").unwrap();
    let requests: Vec<HttpRequest> = host.requests.drain(..).collect();
    let body = |url: &str| -> Value {
        let request = requests.iter().find(|r| r.url.contains(url)).expect(url);
        serde_json::from_slice(request.body.as_ref().unwrap()).unwrap()
    };
    assert_eq!(body("keys/query").to_string(), r#"{"device_keys":{"@al:h":[],"@bot:h":[]}}"#);
    assert_eq!(
        body("keys/claim").to_string(),
        r#"{"one_time_keys":{"@al:h":{"ALDEV":"signed_curve25519"}}}"#
    );
    let to_device = body("/sendToDevice/m.room.encrypted/");
    assert_eq!(to_device["messages"].as_object().unwrap().len(), 1);
    let envelope = &to_device["messages"]["@al:h"]["ALDEV"];
    assert_eq!(envelope["algorithm"], "m.olm.v1.curve25519-aes-sha2");
    assert_eq!(envelope["sender_key"], bot_curve);
    let olm = &envelope["ciphertext"][peer.key()];
    assert_eq!(olm["type"], 0);
    let prekey = PreKeyMessage::from_base64(olm["body"].as_str().unwrap()).unwrap();
    let their = Curve25519PublicKey::from_base64(&bot_curve).unwrap();
    let made = peer.account.create_inbound_session(their, &prekey).unwrap();
    let mut olm_session: Session = made.session;
    let payload: Value = serde_json::from_slice(&made.plaintext).unwrap();
    assert_eq!(payload["type"], "m.room_key");
    assert_eq!(payload["sender"], "@bot:h");
    assert_eq!(payload["sender_device"], "BOTDEV");
    assert_eq!(payload["recipient"], "@al:h");
    assert_eq!(payload["recipient_keys"]["ed25519"], peer.account.ed25519_key().to_base64());
    assert_eq!(payload["content"]["room_id"], "!r:h");

    // The peer reads the message with the key.
    let key = SessionKey::from_base64(payload["content"]["session_key"].as_str().unwrap()).unwrap();
    let config = vodozemac::megolm::SessionConfig::version_1();
    let mut inbound = InboundGroupSession::new(&key, config);
    let event = body("/send/m.room.encrypted/");
    assert_eq!(event["algorithm"], "m.megolm.v1.aes-sha2");
    assert_eq!(event["session_id"], payload["content"]["session_id"]);
    assert_eq!(event["device_id"], "BOTDEV");
    let read = |inbound: &mut InboundGroupSession, event: &Value| -> String {
        let message = MegolmMessage::from_base64(event["ciphertext"].as_str().unwrap()).unwrap();
        String::from_utf8(inbound.decrypt(&message).unwrap().plaintext).unwrap()
    };
    assert_eq!(
        read(&mut inbound, &event),
        r#"{"content":{"body":"Hello \"Al\"","msgtype":"m.text"},"room_id":"!r:h","type":"m.room.message"}"#
    );
    let record: Value =
        serde_json::from_str(host.file("crypto/megolm_outbound/_r_h.json")).unwrap();
    assert_eq!(record["message_count"], 1);

    // The next message uses the same session, whose key is not sent again. A broadcast is
    // encrypted too.
    host.broadcast("!r:h", "news").unwrap();
    assert!(!host.requests.iter().any(|r| r.url.contains("/sendToDevice/")));
    assert!(!host.requests.iter().any(|r| r.url.contains("/send/m.room.message/")));
    let event = host.sent("/send/m.room.encrypted/").remove(0);
    assert!(read(&mut inbound, &event).contains("news"));
    let record: Value =
        serde_json::from_str(host.file("crypto/megolm_outbound/_r_h.json")).unwrap();
    assert_eq!(record["message_count"], 2);

    // The peer answers: its key comes in a message of the established session.
    let mut group = GroupSession::new(config);
    let (kind, sealed) = match olm_session.encrypt(room_key_payload("!r:h", &group)) {
        OlmMessage::PreKey(m) => (0, m.to_base64()),
        OlmMessage::Normal(m) => (1, m.to_base64()),
    };
    assert_eq!(kind, 1);
    let plain = r#"{"type":"m.room.message","content":{"msgtype":"m.text","body":"Hi bot"}}"#;
    let ciphertext = group.encrypt(plain).to_base64();
    let events = || vec![encrypted("@al:h", &group.session_id(), &ciphertext)];
    let keys = vec![olm_event(&peer.key(), &bot_curve, kind, &sealed)];
    host.syncs.push_back(room_sync("s1", "!r:h", events(), keys));
    host.poll();
    assert_eq!(host.emitted.len(), 1);
    assert_eq!(host.emitted[0].content, "Hi bot");
    assert!(host.emitted[0].metadata_json.contains(r#""encrypted":true"#));

    // The same message again is a replay.
    host.syncs.push_back(room_sync("s2", "!r:h", events(), vec![]));
    host.poll();
    assert_eq!(host.emitted.len(), 1);
    let entry = host.log.pop().unwrap().1;
    assert!(entry.starts_with("Failed to decrypt event in !r:h: Replay detected: message index 0"));

    // So it is within one poll.
    let second = group.encrypt(r#"{"body":"once"}"#).to_base64();
    let twice = || encrypted("@al:h", &group.session_id(), &second);
    host.syncs.push_back(room_sync("s3", "!r:h", vec![twice(), twice()], vec![]));
    host.poll();
    assert_eq!(host.emitted.len(), 2);
    assert_eq!(host.emitted[1].content, "once");
}

#[test]
fn stranger_device_starts_a_session_with_a_one_time_key() {
    let mut peer = Peer::new("@al:h", "ALDEV");
    let mut host = sealed_host(&mut peer);
    let uploads = host.sent("keys/upload");
    let once = uploads[1]["one_time_keys"].as_object().unwrap();
    let once = once.values().next().unwrap()["key"].as_str().unwrap().to_string();
    let bot_curve = bot_key(&host);
    let carol = Account::new();
    let mut session = carol.create_outbound_session(
        vodozemac::olm::SessionConfig::version_1(),
        Curve25519PublicKey::from_base64(&bot_curve).unwrap(),
        Curve25519PublicKey::from_base64(&once).unwrap(),
    );
    let mut group = GroupSession::new(vodozemac::megolm::SessionConfig::version_1());
    let sealed = match session.encrypt(room_key_payload("!r:h", &group)) {
        OlmMessage::PreKey(m) => m.to_base64(),
        OlmMessage::Normal(_) => panic!("a pre-key message"),
    };
    let ciphertext = group.encrypt(r#"{"content":{"body":"from carol"}}"#).to_base64();
    let carol_key = carol.curve25519_key().to_base64();
    let keys = vec![olm_event(&carol_key, &bot_curve, 0, &sealed)];
    let events = vec![encrypted("@carol:h", &group.session_id(), &ciphertext)];
    let before = host.file("crypto/account.json").to_string();
    host.syncs.push_back(room_sync("s1", "!r:h", events, keys));
    host.poll();
    assert_eq!(host.emitted.len(), 1);
    assert_eq!(host.emitted[0].user_id, "@carol:h");
    assert_eq!(host.emitted[0].content, "from carol");
    // The one-time key is gone from the stored account.
    assert_ne!(host.file("crypto/account.json"), before);
    assert_eq!(bot_key(&host), bot_curve);
}

#[test]
fn room_keys_that_come_as_they_are_serve_too() {
    let mut peer = Peer::new("@al:h", "ALDEV");
    let mut host = sealed_host(&mut peer);
    let mut group = GroupSession::new(vodozemac::megolm::SessionConfig::version_1());
    let ciphertext = group.encrypt(r#"{"body":"direct"}"#).to_base64();
    let id = group.session_id();
    let direct = |json: String| ToDeviceEvent {
        event_type: "m.room_key".to_string(),
        sender: None,
        content: ToDeviceContent { json: json.into_bytes(), olm: Err("none".to_string()) },
    };
    // The ratchet has moved on, so a key taken now does not reach the first message.
    let late = room_key("!r:h", &group);
    let events = || vec![encrypted("@al:h", &id, &ciphertext)];
    host.syncs.push_back(room_sync("s1", "!r:h", events(), vec![direct(late)]));
    host.poll();
    assert!(host.emitted.is_empty());
    // Keys that are malformed, or claim another session, are passed over.
    let other = GroupSession::new(vodozemac::megolm::SessionConfig::version_1());
    let fresh = GroupSession::new(vodozemac::megolm::SessionConfig::version_1());
    let wrong = room_key("!r:h", &other).replace(&other.session_id(), &fresh.session_id());
    let broken = vec![direct("{}".to_string()), direct("nonsense".to_string()), direct(wrong)];
    host.syncs.push_back(room_sync("s2", "!r:h", vec![], broken));
    host.poll();
    assert!(!host.files.keys().any(|k| k.contains("megolm_inbound")
        && k.contains(&fresh.session_id().replace(['+', '/'], "_"))));
    // A key in time serves.
    let mut group = GroupSession::new(vodozemac::megolm::SessionConfig::version_1());
    let key = room_key("!r:h", &group);
    let id = group.session_id();
    let ciphertext = group.encrypt(r#"{"body":"direct"}"#).to_base64();
    let events = vec![encrypted("@al:h", &id, &ciphertext)];
    host.syncs.push_back(room_sync("s3", "!r:h", events, vec![direct(key)]));
    host.poll();
    assert_eq!(host.emitted.len(), 1);
    assert_eq!(host.emitted[0].content, "direct");
}

#[test]
fn encrypted_room_never_gets_plaintext() {
    let mut peer = Peer::new("@al:h", "ALDEV");
    let mut host = sealed_host(&mut peer);
    host.answer_with("joined_members", 500, "down");
    host.requests.clear();
    assert_eq!(
        host.respond("!r:h", true, "secret").unwrap_err(),
        "Encryption failed for room !r:h chunk 0 — refusing plaintext in E2EE room: joined_members returned 500: down"
    );
    assert_eq!(
        host.broadcast("!r:h", "secret").unwrap_err(),
        "Broadcast encryption failed for !r:h: joined_members returned 500: down"
    );
    host.refuses_to_encrypt = true;
    let e = host.respond("!r:h", false, "secret").unwrap_err();
    assert!(e.ends_with("refusing plaintext in E2EE room: Host encryption failed: no key"));
    host.refuses_to_encrypt = false;
    host.files.remove("crypto/account.json");
    let e = host.respond("!r:h", false, "secret").unwrap_err();
    assert!(e.ends_with("No crypto account for encryption"));
    assert!(!host.requests.iter().any(|r| r.url.contains("/send/")));
    // A room that is not encrypted does.
    host.respond("!open:h", false, "public").unwrap();
    assert_eq!(host.sent("/send/m.room.message/")[0]["body"], "public");
}

#[test]
fn sessions_rotate_after_100_messages_or_a_week() {
    let mut peer = Peer::new("@al:h", "ALDEV");
    let mut host = sealed_host(&mut peer);
    host.respond("!r:h", true, "first").unwrap();
    let path = "crypto/megolm_outbound/_r_h.json";
    let session = |host: &Host| -> (String, u64) {
        let record: Value = serde_json::from_str(host.file(path)).unwrap();
        (string(&record["session_id"]).unwrap(), record["message_count"].as_u64().unwrap())
    };
    let (id, _) = session(&host);
    for _ in 0..99 {
        host.respond("!r:h", true, "more").unwrap();
    }
    assert_eq!(session(&host), (id.clone(), 100));
    host.requests.clear();
    host.respond("!r:h", true, "rotated").unwrap();
    let (second, count) = session(&host);
    assert_ne!(second, id);
    assert_eq!(count, 1);
    // The key of the new session goes out with the Olm session that is there already.
    assert!(!host.requests.iter().any(|r| r.url.contains("keys/claim")));
    assert_eq!(host.sent("/sendToDevice/").len(), 1);
    host.now += 7 * 24 * 60 * 60 * 1000;
    host.respond("!r:h", true, "rotated").unwrap();
    assert_ne!(session(&host).0, second);
}

#[test]
fn restart_keeps_the_account_and_tops_up_keys() {
    let mut peer = Peer::new("@al:h", "ALDEV");
    let mut host = sealed_host(&mut peer);
    let key = bot_key(&host);
    let restart = |host: &mut Host| {
        host.requests.clear();
        let mut config = config(true);
        config.user_id = Some("@bot:h".to_string());
        host.start(config).unwrap();
        host.sent("keys/upload")
    };
    let uploads = restart(&mut host);
    assert_eq!(uploads.len(), 1);
    assert_eq!(uploads[0].to_string(), "{}");
    assert_eq!(bot_key(&host), key);
    host.answer_with("keys/upload", 200, r#"{"one_time_key_counts":{"signed_curve25519":9}}"#);
    let uploads = restart(&mut host);
    assert_eq!(uploads.len(), 2);
    assert_eq!(uploads[1]["one_time_keys"].as_object().unwrap().len(), 10);
    assert_eq!(bot_key(&host), key);
    let stored: Value = serde_json::from_str(host.file("crypto/account.json")).unwrap();
    assert_eq!(stored["uploaded_key_count"], 9);
    // Where the server does not tell, the stored count does.
    host.answer_with("keys/upload", 400, "known key");
    host.log.clear();
    let uploads = restart(&mut host);
    assert_eq!(uploads.len(), 2);
    let entries: Vec<String> = host.log.drain(..).map(|(_, message)| message).collect();
    // No device is configured: the one that is invented is not that of the session.
    assert!(entries[0].starts_with("Config device_id=IRONCLAW_"));
    assert_eq!(
        entries[1..],
        [
            "Failed to query server OTK count: keys/upload returned 400: known key; using stored \
             count",
            "OTK upload got 400 (likely key collision with existing upload): keys/upload returned \
             400: known key. Continuing with existing server OTKs.",
        ]
    );
    assert_eq!(host.file("state/e2ee_enabled"), "true");
    // Another device gets an account of its own.
    host.answer_with("keys/upload", 200, r#"{"one_time_key_counts":{}}"#);
    host.answer_with("whoami", 200, r#"{"user_id":"@bot:h","device_id":"OTHER"}"#);
    let uploads = restart(&mut host);
    assert_eq!(uploads[0]["device_keys"]["device_id"], "OTHER");
    assert_ne!(bot_key(&host), key);
    let entry = "Stored device_id BOTDEV does not match authenticated device_id OTHER, \
                 re-initializing crypto account";
    assert!(host.log.iter().any(|(level, m)| *level == LogLevel::Warn && m == entry));
}

#[test]
fn failed_e2ee_does_not_stop_the_start() {
    let mut host = Host::new();
    host.answer_with("keys/upload", 503, "later");
    let mut config = config(true);
    config.user_id = Some("@bot:h".to_string());
    config.device_id = Some(String::new());
    assert!(host.start(config).is_ok());
    assert_eq!(host.file("state/e2ee_enabled"), "false");
    assert_eq!(
        host.log[0].1,
        "whoami failed: whoami request failed: no route; falling back to config device_id"
    );
    assert!(host.log[1].1.starts_with("E2EE initialization failed: "));
    // No device is known: one is invented.
    assert_eq!(host.file("state/device_id"), format!("IRONCLAW_{}", host.now));
    assert!(!host.files.contains_key("crypto/account.json"));
}

#[test]
fn device_without_one_time_key_is_passed_over() {
    let mut peer = Peer::new("@al:h", "ALDEV");
    let mut host = sealed_host(&mut peer);
    host.answer_with("keys/claim", 200, r#"{"one_time_keys":{}}"#);
    host.requests.clear();
    host.respond("!r:h", true, "unread").unwrap();
    assert!(!host.requests.iter().any(|r| r.url.contains("/sendToDevice/")));
    assert_eq!(host.sent("/send/m.room.encrypted/").len(), 1);
    assert_eq!(
        host.log.pop().unwrap().1,
        "share_room_key: failed to get Olm session for @al:h:ALDEV: No OTK claimed for user @al:h. Skipping."
    );
}

#[test]
fn own_messages_are_read_once() {
    let mut peer = Peer::new("@al:h", "ALDEV");
    let mut host = sealed_host(&mut peer);
    let body = "¿qué tal?\n\"so\"~/";
    let (call, flow) = encrypt_message("https://h", "!r:h", body, 0);
    let content = host.run(Step::Ask(call, flow), EncryptMessage::resume).unwrap();
    let content: Value = serde_json::from_str(&content).unwrap();
    let event = encrypted(
        "@bot:h",
        content["session_id"].as_str().unwrap(),
        content["ciphertext"].as_str().unwrap(),
    );
    let first = try_decrypt_event("!r:h", &event, MegolmSessionCache::new());
    let (text, cache) = host.run(first, TryDecrypt::resume);
    assert_eq!(text.unwrap(), body);
    // The same event again is a replay, and nothing is written.
    let files = host.files.clone();
    let second = try_decrypt_event("!r:h", &event, cache);
    let (text, cache) = host.run(second, TryDecrypt::resume);
    assert!(text.unwrap_err().starts_with("Replay detected: message index 0 already seen"));
    assert_eq!(host.files, files);
    // So it is for one who reads the record that was written.
    let third = try_decrypt_event("!r:h", &event, MegolmSessionCache::new());
    assert!(host.run(third, TryDecrypt::resume).0.is_err());
    let id = content["session_id"].as_str().unwrap();
    assert_eq!(cache.get("!r:h", id).unwrap().seen_indices, vec![0]);
}

#[test]
fn to_device_events_give_the_union_of_their_keys() {
    let mut host = Host::new();
    let config = vodozemac::megolm::SessionConfig::version_1;
    let (a, b) = (GroupSession::new(config()), GroupSession::new(config()));
    let event = |kind: &str, json: String| ToDeviceEvent {
        event_type: kind.to_string(),
        sender: None,
        content: ToDeviceContent { json: json.into_bytes(), olm: Err("none".to_string()) },
    };
    let events = vec![
        event("m.room_key", room_key("!r:h", &a)),
        event("m.room_key", "{}".to_string()),
        event("m.dummy", room_key("!s:h", &a)),
        event("m.room_key", room_key("!r:h", &b)),
        event("m.room_key", room_key("!r:h", &a)),
    ];
    let cache = host.run(handle_to_device_events(events), ToDevice::resume);
    for session in [&a, &b] {
        let stored = cache.get("!r:h", &session.session_id()).unwrap();
        assert_eq!(stored.room_id, "!r:h");
        assert_eq!(stored.session_id, session.session_id());
        assert!(stored.seen_indices.is_empty());
    }
    assert!(cache.get("!s:h", &a.session_id()).is_none());
    assert_eq!(host.log.len(), 1);
    // No events bring nothing.
    let cache = host.run(handle_to_device_events(vec![]), ToDevice::resume);
    assert!(cache.get("!r:h", &a.session_id()).is_none());
}

#[test]
fn starts_give_one_configuration() {
    let mut peer = Peer::new("@al:h", "ALDEV");
    let working = sealed_host(&mut peer);
    assert_eq!(working.file("state/e2ee_enabled"), "true");
    let mut seen = vec![];
    for (e2ee, status) in [(false, 200), (true, 200), (true, 503)] {
        let mut host = Host::new();
        host.answer_with("whoami", 200, r#"{"user_id":"@bot:h","device_id":"BOTDEV"}"#);
        host.answer_with(
            "keys/upload",
            status,
            r#"{"one_time_key_counts":{"signed_curve25519":10}}"#,
        );
        let mut config = config(e2ee);
        config.user_id = Some("@bot:h".to_string());
        config.sync_timeout_ms = 45_000;
        seen.push(format!("{:?}", host.start(config).unwrap()));
        let on = e2ee && status == 200;
        assert_eq!(host.file("state/e2ee_enabled"), if on { "true" } else { "false" });
    }
    assert!(seen.iter().all(|c| *c == seen[0]));
    assert!(seen[0].contains("45000"));
}

#[test]
fn odd_devices_are_logged() {
    for (told, entry) in [
        (
            r#"{"user_id":"@bot:h","device_id":"A"}"#,
            Some("Config device_id=B differs from authenticated device_id=A; using authenticated value"),
        ),
        (r#"{"user_id":"@bot:h"}"#, Some("whoami returned no device_id; using config hint")),
        (r#"{"user_id":"@bot:h","device_id":"B"}"#, None),
    ] {
        let mut host = Host::new();
        host.answer_with("whoami", 200, told);
        host.answer_with("keys/upload", 200, r#"{"one_time_key_counts":{}}"#);
        let mut config = config(true);
        config.user_id = Some("@bot:h".to_string());
        config.device_id = Some("B".to_string());
        host.start(config).unwrap();
        assert_eq!(host.log.first().map(|(_, m)| m.as_str()), entry);
        assert_eq!(host.file("state/e2ee_enabled"), "true");
    }
}

#[test]
fn unreadable_messages_are_logged() {
    let mut host = plain_host("open");
    let broken = |sender: &str, why: &str| {
        let mut event = message(sender, "x");
        event.content.message = Err(why.to_string());
        event
    };
    let events = vec![
        broken("@al:h", "first"),
        message("@al:h", "read"),
        broken("@bot:h", "ours"),
        broken("@al:h", "second"),
    ];
    host.syncs.push_back(room_sync("s1", "!r:h", events, vec![]));
    host.poll();
    assert_eq!(host.emitted.len(), 1);
    let entries: Vec<String> = host.log.drain(..).map(|(_, message)| message).collect();
    assert_eq!(
        entries,
        vec![
            "Failed to parse m.room.message content: first",
            "Failed to parse m.room.message content: second",
        ]
    );
}
