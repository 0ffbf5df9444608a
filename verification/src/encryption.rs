//! Encryption: sessions with other devices, the sharing of room keys, and room messages.

use vstd::prelude::*;
use vstd::string::*;
use vstd::utf8::*;

use crate::client::{
    self, bytes_of, generate_txn_id, joined_members, joined_members_response, keys_claim,
    keys_claim_response, keys_query, keys_query_response, send_to_device, send_to_device_response,
};
use crate::codec;
use crate::crypto_store::{
    self, host_decrypt_pickle, host_encrypt_pickle, open_account, open_olm_session,
    open_outbound_session, read_account, read_olm_sessions, read_outbound_megolm_session,
    should_rotate_session, start_saving_olm, write_inbound_megolm_session,
    write_outbound_megolm_session, InboundView, OutboundView, SaveOlm, StoredAccount,
    StoredInboundMegolmSession, StoredOlmSession, StoredOutboundMegolmSession,
};
use crate::host::{self, log_warning, CallView, HostCall, HostReply, Step};
use crate::json::{
    self, object_json, read_names, read_string, sorted_object_json, string_json, token_of,
};
use crate::json_tree::{self, JsonTree};
use crate::megolm::{self, InboundSession, OutboundSession};
use crate::olm::{self, CurveKey, OlmSession};
use crate::text::{self, concat2, concat3, concat4, concat5, decimal, same_text};
use crate::types::{self, field, find_entry, DeviceKeys, KeysClaimResponse};

verus! {

// ---------------------------------------------------------------------------
// Olm sessions with other devices
// ---------------------------------------------------------------------------

/// The body of a claim of a one-time key of a device.
pub open spec fn claim_text(user_id: Seq<char>, device_id: Seq<char>) -> Seq<char> {
    let device = json::object_text(seq![(device_id, json::string_text("signed_curve25519"@))]);
    let user = json::object_text(seq![(user_id, device)]);
    json::object_text(seq![("one_time_keys"@, user)])
}

fn claim_json(user_id: &str, device_id: &str) -> (r: String)
    ensures
        r@ == claim_text(user_id@, device_id@),
{
    let device_members = vec![field(device_id, string_json("signed_curve25519"))];
    assert(json::member_views(device_members@) =~= seq![
        (device_id@, json::string_text("signed_curve25519"@)),
    ]);
    let user_members = vec![field(user_id, object_json(&device_members))];
    assert(json::member_views(user_members@) =~= seq![(user_id@, user_members@[0].1@)]);
    let members = vec![field("one_time_keys", object_json(&user_members))];
    assert(json::member_views(members@) =~= seq![("one_time_keys"@, members@[0].1@)]);
    object_json(&members)
}

/// The one-time key of a device in the response to a claim, or why there is none: the key of the
/// first entry.
pub open spec fn claimed_key(
    response: KeysClaimResponse,
    user_id: Seq<char>,
    device_id: Seq<char>,
) -> Result<Seq<char>, Seq<char>> {
    match types::lookup(response.one_time_keys@, user_id) {
        None => Err("No OTK claimed for user "@ + user_id),
        Some(devices) => match types::lookup(devices@, device_id) {
            None => Err("No OTK claimed for device "@ + device_id),
            Some(keys) => match json::names_at(keys@, ""@) {
                None => Err("Empty OTK response for device"@),
                Some(names) => if names.len() == 0 {
                    Err("Empty OTK response for device"@)
                } else {
                    match json::string_at(keys@, "/"@ + json::pointer_token(names[0]) + "/key"@) {
                        None => Err("OTK response missing key field"@),
                        Some(key) => match olm::curve_key(key) {
                            Ok(key) => Ok(key),
                            Err(e) => Err("Invalid OTK Curve25519 key: "@ + e),
                        },
                    }
                },
            },
        },
    }
}

/// Finds the claimed one-time key of a device.
pub fn find_claimed_key(response: &KeysClaimResponse, user_id: &str, device_id: &str) -> (r: Result<
    CurveKey,
    String,
>)
    ensures
        host::agrees_in_view(r, claimed_key(*response, user_id@, device_id@)),
{
    let devices = match find_entry(&response.one_time_keys, user_id) {
        Some(i) => &response.one_time_keys[i].1,
        None => return Err(concat2("No OTK claimed for user ", user_id)),
    };
    let keys = match find_entry(devices, device_id) {
        Some(i) => devices[i].1.as_slice(),
        None => return Err(concat2("No OTK claimed for device ", device_id)),
    };
    let names = match read_names(keys, "") {
        Some(names) => names,
        None => return Err("Empty OTK response for device".to_owned()),
    };
    if names.len() == 0 {
        return Err("Empty OTK response for device".to_owned());
    }
    let token = token_of(names[0].as_str());
    let pointer = concat3("/", token.as_str(), "/key");
    match read_string(keys, pointer.as_str()) {
        None => Err("OTK response missing key field".to_owned()),
        Some(key) => match CurveKey::from_base64(key.as_str()) {
            Ok(key) => Ok(key),
            Err(e) => Err(concat2("Invalid OTK Curve25519 key: ", e.as_str())),
        },
    }
}

/// Another device: its identity key, its owner and its ID.
pub struct Target {
    pub homeserver_url: String,
    pub key: CurveKey,
    pub user_id: String,
    pub device_id: String,
}

/// Gets or creates an Olm session with a target device.
pub enum GetOlmSession {
    /// The host is to read the sessions with the device.
    Reading(Target),
    /// The host is to decrypt the stored pickle of the first.
    Opening(String),
    /// There is none: the host is to claim a one-time key.
    Claiming(Target),
    /// The host is to read our account. Holds the one-time key.
    Loading(Target, CurveKey),
    /// The host is to decrypt the pickle of the account.
    Unsealing(Target, CurveKey),
    /// The host is to encrypt the pickle of the new session.
    Sealing(Target, OlmSession),
    /// The host is to tell the time, which is stored with the encrypted pickle.
    Stamping(Target, OlmSession, String),
    /// The session is to be saved. Holds its stored pickle.
    Saving(OlmSession, String, SaveOlm),
}

/// A step of the search for a session. It gives the session and its stored pickle.
pub type GetOlmStep = Step<GetOlmSession, Result<(OlmSession, String), String>>;

impl GetOlmSession {
    /// The flow starts: the host is asked for the sessions with the device.
    pub open spec fn begins(self, call: HostCall, target: Target) -> bool {
        &&& call@ == CallView::ReadOlmSessions(crypto_store::olm_sessions_path(target.key@))
        &&& self == GetOlmSession::Reading(target)
    }

    /// The flow goes on from an answer: the first stored session is taken; where there is none, a
    /// one-time key of the device is claimed, and a new session is started with it and stored.
    pub open spec fn moves(self, reply: HostReply, step: GetOlmStep) -> bool {
        match (self, reply) {
            (GetOlmSession::Reading(target), HostReply::OlmSessions(sessions)) => {
                if sessions.len() > 0 {
                    match crypto_store::unsealed_bytes(sessions[0].pickled_session@) {
                        Ok(bytes) => step.asks(
                            CallView::Decrypt(bytes),
                            GetOlmSession::Opening(sessions[0].pickled_session),
                        ),
                        Err(e) => step.fails(e),
                    }
                } else {
                    step.asks(
                        CallView::KeysClaim(
                            client::keys_claim_request(
                                target.homeserver_url@,
                                encode_utf8(claim_text(target.user_id@, target.device_id@)),
                            ),
                        ),
                        GetOlmSession::Claiming(target),
                    )
                }
            },
            (GetOlmSession::Opening(pickled), HostReply::Bytes(decrypted)) => {
                match crypto_store::opened_pickle(decrypted, olm::olm_pickle(decrypted->Ok_0@)) {
                    Ok(pickle) => step matches Step::Done(Ok((session, stored))) && session@ == pickle
                        && stored == pickled,
                    Err(e) => step.fails(e),
                }
            },
            (GetOlmSession::Claiming(target), HostReply::KeysClaim(response)) => {
                match client::accepted(response, "keys/claim"@, "keys/claim response"@) {
                    Err(e) => step.fails(e),
                    Ok(claimed) => match claimed_key(claimed, target.user_id@, target.device_id@) {
                        Err(e) => step.fails(e),
                        Ok(key) => step matches Step::Ask(call, GetOlmSession::Loading(t, k))
                            && call@ == CallView::ReadAccount("crypto/account.json"@) && t == target
                            && k@ == key,
                    },
                }
            },
            (GetOlmSession::Loading(target, key), HostReply::Account(stored)) => match stored {
                None => step.fails("No crypto account for outbound Olm session"@),
                Some(account) => match crypto_store::unsealed_bytes(account.pickled_account@) {
                    Ok(bytes) => step.asks(
                        CallView::Decrypt(bytes),
                        GetOlmSession::Unsealing(target, key),
                    ),
                    Err(e) => step.fails(e),
                },
            },
            (GetOlmSession::Unsealing(target, key), HostReply::Bytes(decrypted)) => {
                match crypto_store::opened_pickle(
                    decrypted,
                    olm::account_pickle(decrypted->Ok_0@),
                ) {
                    Err(e) => step.fails(e),
                    Ok(account) => step matches Step::Ask(call, GetOlmSession::Sealing(t, session))
                        && call@ == CallView::Encrypt(session@) && t == target
                        && olm::outbound_creation(account, target.key@, key@, session@)
                        && olm::reaches(account, target.key@, key@, session@),
                }
            },
            (GetOlmSession::Sealing(target, session), HostReply::Bytes(encrypted)) => {
                match crypto_store::sealed_pickle(encrypted) {
                    Err(e) => step.fails(e),
                    Ok(pickled) => step matches Step::Ask(
                        call,
                        GetOlmSession::Stamping(t, s, p),
                    ) && call@ == CallView::Now && t == target && s == session && p@ == pickled
                        && crypto_store::unsealed_bytes(pickled) == Ok::<Seq<u8>, Seq<char>>(
                        encrypted->Ok_0@,
                    ),
                }
            },
            (GetOlmSession::Stamping(target, session, pickled), HostReply::Time(now)) => {
                step matches Step::Ask(call, GetOlmSession::Saving(s, p, save)) && s == session && p
                    == pickled && save.begins(call, target.key@, None, target.key@, pickled@, now)
            },
            (GetOlmSession::Saving(session, pickled, save), _) => exists|inner|
                #![trigger save.moves(reply, inner)]
                save.moves(reply, inner) && inner.passes_to(
                    step,
                    |s: SaveOlm| GetOlmSession::Saving(session, pickled, s),
                ) && match inner {
                    Step::Done(Ok(_)) => step.gives(Ok((session, pickled))),
                    Step::Done(Err(e)) => step.gives(Err(e)),
                    _ => true,
                },
            _ => step.strays(self),
        }
    }

    /// Goes on from an answer of the host.
    pub fn resume(self, reply: HostReply) -> (step: GetOlmStep)
        ensures
            self.moves(reply, step),
    {
        match (self, reply) {
            (GetOlmSession::Reading(target), HostReply::OlmSessions(sessions)) => {
                if sessions.len() > 0 {
                    match host_decrypt_pickle(sessions[0].pickled_session.as_str()) {
                        Ok(bytes) => Step::Ask(
                            HostCall::Decrypt(bytes),
                            GetOlmSession::Opening(sessions[0].pickled_session.clone()),
                        ),
                        Err(e) => Step::Done(Err(e)),
                    }
                } else {
                    let claim = claim_json(target.user_id.as_str(), target.device_id.as_str());
                    let body = bytes_of(claim.as_str());
                    let request = keys_claim(target.homeserver_url.as_str(), body);
                    Step::Ask(HostCall::KeysClaim(request), GetOlmSession::Claiming(target))
                }
            },
            (GetOlmSession::Opening(pickled), HostReply::Bytes(decrypted)) => {
                match open_olm_session(decrypted) {
                    Ok(session) => Step::Done(Ok((session, pickled))),
                    Err(e) => Step::Done(Err(e)),
                }
            },
            (GetOlmSession::Claiming(target), HostReply::KeysClaim(response)) => {
                match keys_claim_response(response) {
                    Err(e) => Step::Done(Err(e)),
                    Ok(claimed) => match find_claimed_key(
                        &claimed,
                        target.user_id.as_str(),
                        target.device_id.as_str(),
                    ) {
                        Err(e) => Step::Done(Err(e)),
                        Ok(key) => Step::Ask(read_account(), GetOlmSession::Loading(target, key)),
                    },
                }
            },
            (GetOlmSession::Loading(target, key), HostReply::Account(stored)) => match stored {
                None => Step::Done(Err("No crypto account for outbound Olm session".to_owned())),
                Some(account) => match host_decrypt_pickle(account.pickled_account.as_str()) {
                    Ok(bytes) => Step::Ask(
                        HostCall::Decrypt(bytes),
                        GetOlmSession::Unsealing(target, key),
                    ),
                    Err(e) => Step::Done(Err(e)),
                },
            },
            (GetOlmSession::Unsealing(target, key), HostReply::Bytes(decrypted)) => {
                match open_account(decrypted) {
                    Err(e) => Step::Done(Err(e)),
                    Ok(account) => {
                        let session = account.create_outbound_session(&target.key, &key);
                        let pickle = session.pickle();
                        Step::Ask(HostCall::Encrypt(pickle), GetOlmSession::Sealing(target, session))
                    },
                }
            },
            (GetOlmSession::Sealing(target, session), HostReply::Bytes(encrypted)) => {
                match host_encrypt_pickle(encrypted) {
                    Err(e) => Step::Done(Err(e)),
                    Ok(pickled) => Step::Ask(
                        HostCall::Now,
                        GetOlmSession::Stamping(target, session, pickled),
                    ),
                }
            },
            (GetOlmSession::Stamping(target, session, pickled), HostReply::Time(now)) => {
                let key = target.key.to_base64();
                let record = StoredOlmSession {
                    sender_key: key.clone(),
                    pickled_session: pickled.clone(),
                    last_use_ts: now,
                };
                let (call, save) = start_saving_olm(key, None, record);
                Step::Ask(call, GetOlmSession::Saving(session, pickled, save))
            },
            (GetOlmSession::Saving(session, pickled, save), reply) => match save.resume(reply) {
                Step::Ask(call, save) => Step::Ask(
                    call,
                    GetOlmSession::Saving(session, pickled, save),
                ),
                Step::Stray(save) => Step::Stray(GetOlmSession::Saving(session, pickled, save)),
                Step::Done(Ok(_)) => Step::Done(Ok((session, pickled))),
                Step::Done(Err(e)) => Step::Done(Err(e)),
            },
            (flow, _) => Step::Stray(flow),
        }
    }
}

/// Get or create an Olm session with a target device.
pub fn get_or_create_olm_session(target: Target) -> (start: (HostCall, GetOlmSession))
    ensures
        start.1.begins(start.0, target),
{
    let key = target.key.to_base64();
    (read_olm_sessions(key.as_str()), GetOlmSession::Reading(target))
}

// ---------------------------------------------------------------------------
// To-device messages
// ---------------------------------------------------------------------------

/// Messages for devices, by user and device: each the text of its content.
pub struct Messages {
    entries: Vec<(String, Vec<(String, String)>)>,
}

/// Messages for devices, with texts as sequences.
pub type MessagesView = Seq<(Seq<char>, Seq<(Seq<char>, Seq<char>)>)>;

impl View for Messages {
    type V = MessagesView;

    closed spec fn view(&self) -> MessagesView {
        self.entries@.map_values(
            |e: (String, Vec<(String, String)>)| (e.0@, json::member_views(e.1@)),
        )
    }
}

/// The position of the first entry of a user, or the number of entries where there is none.
pub open spec fn user_at(messages: MessagesView, user_id: Seq<char>) -> int
    decreases messages.len(),
{
    if messages.len() == 0 || messages[0].0 == user_id {
        0
    } else {
        1 + user_at(messages.skip(1), user_id)
    }
}

/// The messages with one more, for a device of a user.
pub open spec fn with_message(
    messages: MessagesView,
    user_id: Seq<char>,
    device_id: Seq<char>,
    content: Seq<char>,
) -> MessagesView {
    let at = user_at(messages, user_id);
    if at < messages.len() {
        messages.update(at, (user_id, messages[at].1.push((device_id, content))))
    } else {
        messages.push((user_id, seq![(device_id, content)]))
    }
}

/// The body of the request that sends the messages.
pub open spec fn messages_text(messages: MessagesView) -> Seq<char> {
    let by_user = messages.map_values(
        |m: (Seq<char>, Seq<(Seq<char>, Seq<char>)>)| (m.0, json::sorted_object_text(m.1)),
    );
    json::object_text(seq![("messages"@, json::sorted_object_text(by_user))])
}

proof fn user_is_at(entries: Seq<(String, Vec<(String, String)>)>, messages: MessagesView, user_id: Seq<char>)
    requires
        messages == entries.map_values(
            |e: (String, Vec<(String, String)>)| (e.0@, json::member_views(e.1@)),
        ),
    ensures
        user_at(messages, user_id) == types::entry_at(entries, user_id),
    decreases entries.len(),
{
    if entries.len() > 0 && entries[0].0@ != user_id {
        assert(messages.skip(1) =~= entries.skip(1).map_values(
            |e: (String, Vec<(String, String)>)| (e.0@, json::member_views(e.1@)),
        ));
        user_is_at(entries.skip(1), messages.skip(1), user_id);
    }
}

impl Messages {
    /// No messages.
    pub fn new() -> (messages: Messages)
        ensures
            messages@ == Seq::<(Seq<char>, Seq<(Seq<char>, Seq<char>)>)>::empty(),
    {
        let messages = Messages { entries: Vec::new() };
        assert(messages@ =~= Seq::empty());
        messages
    }

    /// Whether there are none.
    pub fn is_empty(&self) -> (empty: bool)
        ensures
            empty == (self@.len() == 0),
    {
        self.entries.len() == 0
    }

    /// The messages with one more.
    pub fn with(self, user_id: String, device_id: String, content: String) -> (messages: Messages)
        ensures
            messages@ == with_message(self@, user_id@, device_id@, content@),
    {
        let ghost before = self@;
        let mut entries = self.entries;
        let ghost old_entries = entries@;
        proof {
            user_is_at(entries@, before, user_id@);
        }
        match find_entry(&entries, user_id.as_str()) {
            Some(i) => {
                let (user, mut devices) = entries.remove(i);
                let ghost old_devices = devices@;
                devices.push((device_id, content));
                assert(json::member_views(devices@) =~= json::member_views(old_devices).push(
                    (device_id@, content@),
                ));
                entries.insert(i, (user, devices));
                let messages = Messages { entries };
                assert(messages@ =~= with_message(before, user_id@, device_id@, content@));
                messages
            },
            None => {
                let devices = vec![(device_id, content)];
                assert(json::member_views(devices@) =~= seq![(device_id@, content@)]);
                entries.push((user_id, devices));
                let messages = Messages { entries };
                assert(messages@ =~= with_message(before, user_id@, device_id@, content@));
                messages
            },
        }
    }

    /// Writes the body of the request that sends the messages.
    pub fn to_json(self) -> (r: String)
        ensures
            r@ == messages_text(self@),
    {
        let ghost view = self@;
        let ghost by_user = view.map_values(
            |m: (Seq<char>, Seq<(Seq<char>, Seq<char>)>)| (m.0, json::sorted_object_text(m.1)),
        );
        let mut left = self.entries;
        let mut members: Vec<(String, String)> = Vec::new();
        let ghost all = left@;
        assert(json::member_views(members@) =~= by_user.take(0));
        assert(left@ =~= all.skip(0));
        while left.len() > 0
            invariant
                members.len() <= all.len(),
                left@ == all.skip(members.len() as int),
                view == all.map_values(
                    |e: (String, Vec<(String, String)>)| (e.0@, json::member_views(e.1@)),
                ),
                by_user == view.map_values(
                    |m: (Seq<char>, Seq<(Seq<char>, Seq<char>)>)|
                        (m.0, json::sorted_object_text(m.1)),
                ),
                json::member_views(members@) == by_user.take(members.len() as int),
            decreases left.len(),
        {
            let ghost n = members.len() as int;
            let (user_id, devices) = left.remove(0);
            assert(user_id == all[n].0 && devices == all[n].1);
            members.push((user_id, sorted_object_json(devices)));
            assert(left@ =~= all.skip(n + 1));
            assert(json::member_views(members@) =~= by_user.take(n + 1));
        }
        assert(by_user.take(members.len() as int) =~= by_user);
        let outer = vec![field("messages", sorted_object_json(members))];
        assert(json::member_views(outer@) =~= seq![("messages"@, outer@[0].1@)]);
        object_json(&outer)
    }
}

// ---------------------------------------------------------------------------
// Sharing a room key
// ---------------------------------------------------------------------------

/// Our device as the sender of a room key.
pub struct Sender {
    pub user_id: String,
    pub device_id: String,
    pub ed25519_key: String,
    pub curve25519_key: String,
}

/// A room key to share, and by whom.
pub struct Share {
    pub homeserver_url: String,
    pub room_id: String,
    pub session_key: String,
    pub session_id: String,
    pub sender: Sender,
    /// The counter of the transaction ID with which the key is sent.
    pub txn: u64,
}

/// The body of the query for the device keys of users: all devices of each.
pub open spec fn query_text(members: Seq<Seq<char>>) -> Seq<char> {
    json::object_text(
        seq![
            (
                "device_keys"@,
                json::sorted_object_text(members.map_values(|m: Seq<char>| (m, "[]"@))),
            ),
        ],
    )
}

fn query_json(members: &Vec<String>) -> (r: String)
    ensures
        r@ == query_text(text::texts(members@)),
{
    let mut users: Vec<(String, String)> = Vec::new();
    let mut i: usize = 0;
    while i < members.len()
        invariant
            i == users.len() <= members.len(),
            forall|k: int|
                0 <= k < i ==> users[k].0@ == members[k]@ && users[k].1@ == "[]"@,
        decreases members.len() - i,
    {
        users.push((members[i].clone(), "[]".to_owned()));
        i += 1;
    }
    assert(json::member_views(users@) =~= text::texts(members@).map_values(
        |m: Seq<char>| (m, "[]"@),
    ));
    let outer = vec![field("device_keys", sorted_object_json(users))];
    assert(json::member_views(outer@) =~= seq![("device_keys"@, outer@[0].1@)]);
    object_json(&outer)
}

/// The payload that delivers a room key to a device of a user.
pub open spec fn room_key_payload(
    share: Share,
    recipient: Seq<char>,
    recipient_key: Seq<char>,
) -> Seq<char> {
    let content = json::sorted_object_text(
        seq![
            ("algorithm"@, json::string_text("m.megolm.v1.aes-sha2"@)),
            ("room_id"@, json::string_text(share.room_id@)),
            ("session_id"@, json::string_text(share.session_id@)),
            ("session_key"@, json::string_text(share.session_key@)),
        ],
    );
    json::sorted_object_text(
        seq![
            ("type"@, json::string_text("m.room_key"@)),
            ("content"@, content),
            ("sender"@, json::string_text(share.sender.user_id@)),
            ("sender_device"@, json::string_text(share.sender.device_id@)),
            (
                "keys"@,
                json::object_text(
                    seq![("ed25519"@, json::string_text(share.sender.ed25519_key@))],
                ),
            ),
            ("recipient"@, json::string_text(recipient)),
            (
                "recipient_keys"@,
                json::object_text(seq![("ed25519"@, json::string_text(recipient_key))]),
            ),
        ],
    )
}

fn payload_json(share: &Share, recipient: &str, recipient_key: &str) -> (r: String)
    ensures
        r@ == room_key_payload(*share, recipient@, recipient_key@),
{
    let content_members = vec![
        field("algorithm", string_json("m.megolm.v1.aes-sha2")),
        field("room_id", string_json(share.room_id.as_str())),
        field("session_id", string_json(share.session_id.as_str())),
        field("session_key", string_json(share.session_key.as_str())),
    ];
    assert(json::member_views(content_members@) =~= seq![
        ("algorithm"@, json::string_text("m.megolm.v1.aes-sha2"@)),
        ("room_id"@, json::string_text(share.room_id@)),
        ("session_id"@, json::string_text(share.session_id@)),
        ("session_key"@, json::string_text(share.session_key@)),
    ]);
    let content = sorted_object_json(content_members);
    let our_keys = vec![field("ed25519", string_json(share.sender.ed25519_key.as_str()))];
    assert(json::member_views(our_keys@) =~= seq![
        ("ed25519"@, json::string_text(share.sender.ed25519_key@)),
    ]);
    let their_keys = vec![field("ed25519", string_json(recipient_key))];
    assert(json::member_views(their_keys@) =~= seq![
        ("ed25519"@, json::string_text(recipient_key@)),
    ]);
    let members = vec![
        field("type", string_json("m.room_key")),
        field("content", content),
        field("sender", string_json(share.sender.user_id.as_str())),
        field("sender_device", string_json(share.sender.device_id.as_str())),
        field("keys", object_json(&our_keys)),
        field("recipient", string_json(recipient)),
        field("recipient_keys", object_json(&their_keys)),
    ];
    assert(json::member_views(members@) =~= seq![
        ("type"@, json::string_text("m.room_key"@)),
        ("content"@, content@),
        ("sender"@, json::string_text(share.sender.user_id@)),
        ("sender_device"@, json::string_text(share.sender.device_id@)),
        (
            "keys"@,
            json::object_text(seq![("ed25519"@, json::string_text(share.sender.ed25519_key@))]),
        ),
        ("recipient"@, json::string_text(recipient@)),
        (
            "recipient_keys"@,
            json::object_text(seq![("ed25519"@, json::string_text(recipient_key@))]),
        ),
    ]);
    sorted_object_json(members)
}

/// The content of the event that carries an Olm message to a device with this key.
pub open spec fn olm_event_text(
    our_key: Seq<char>,
    their_key: Seq<char>,
    kind: u64,
    body: Seq<char>,
) -> Seq<char> {
    let message = json::sorted_object_text(
        seq![
            ("type"@, text::decimal_text(kind as nat)),
            ("body"@, json::string_text(body)),
        ],
    );
    json::sorted_object_text(
        seq![
            ("algorithm"@, json::string_text("m.olm.v1.curve25519-aes-sha2"@)),
            ("sender_key"@, json::string_text(our_key)),
            ("ciphertext"@, json::object_text(seq![(their_key, message)])),
        ],
    )
}

fn olm_event_json(our_key: &str, their_key: &str, kind: u64, body: &str) -> (r: String)
    ensures
        r@ == olm_event_text(our_key@, their_key@, kind, body@),
{
    let message_members = vec![
        field("type", decimal(kind)),
        field("body", string_json(body)),
    ];
    assert(json::member_views(message_members@) =~= seq![
        ("type"@, text::decimal_text(kind as nat)),
        ("body"@, json::string_text(body@)),
    ]);
    let ciphertext = vec![field(their_key, sorted_object_json(message_members))];
    assert(json::member_views(ciphertext@) =~= seq![(their_key@, ciphertext@[0].1@)]);
    let members = vec![
        field("algorithm", string_json("m.olm.v1.curve25519-aes-sha2")),
        field("sender_key", string_json(our_key)),
        field("ciphertext", object_json(&ciphertext)),
    ];
    assert(json::member_views(members@) =~= seq![
        ("algorithm"@, json::string_text("m.olm.v1.curve25519-aes-sha2"@)),
        ("sender_key"@, json::string_text(our_key@)),
        ("ciphertext"@, members@[2].1@),
    ]);
    sorted_object_json(members)
}

/// A device that the key is being shared with, and what is left to do after it.
pub struct Pending {
    pub share: Share,
    pub user_id: String,
    pub device_id: String,
    /// The identity key of the device, as the server tells it.
    pub curve_key: String,
    /// The keys of the device, by name.
    pub keys: Vec<(String, String)>,
    /// The devices of the same user that follow.
    pub devices: Vec<(String, DeviceKeys)>,
    /// The users that follow, with their devices.
    pub users: Vec<(String, Vec<(String, DeviceKeys)>)>,
    /// The messages so far.
    pub messages: Messages,
}

/// Shares a Megolm room key with all devices in a room via Olm.
pub enum ShareRoomKey {
    /// The host is to ask for the members of the room.
    Listing(Share),
    /// The host is to ask for their device keys.
    Querying(Share),
    /// An Olm session with a device is to be found or made.
    Finding(Pending, GetOlmSession),
    /// There is no session with the device, which is passed over: the host is to log why.
    Skipping(Pending),
    /// The host is to encrypt the pickle of the session. Holds the stored pickle that it replaces,
    /// and the message for the device.
    Sealing(Pending, String, String),
    /// The host is to tell the time, which is stored with the encrypted pickle.
    Stamping(Pending, String, String, String),
    /// The session is to be saved. Holds the message for the device.
    Saving(Pending, String, SaveOlm),
    /// The host is to tell the time, for the transaction ID.
    Naming(Share, Messages),
    /// The host is to send the messages.
    Sending,
}

/// A step of the sharing of a room key.
pub type ShareStep = Step<ShareRoomKey, Result<(), String>>;

/// The identity key of a device of a user, as the server tells it and as it reads, or why it has
/// none.
pub open spec fn target_key(user_id: Seq<char>, device: (String, DeviceKeys)) -> Result<
    (Seq<char>, Seq<char>),
    Seq<char>,
> {
    match types::lookup(device.1.keys@, "curve25519:"@ + device.0@) {
        None => Err("No Curve25519 key for "@ + user_id + ":"@ + device.0@),
        Some(raw) => match olm::curve_key(raw@) {
            Ok(key) => Ok((raw@, key)),
            Err(e) => Err("Invalid target Curve25519 key: "@ + e),
        },
    }
}

impl ShareRoomKey {
    /// The flow starts: the host is asked for the members of the room.
    pub open spec fn begins(self, call: HostCall, share: Share) -> bool {
        &&& call@ == CallView::Http(
            client::joined_members_request(share.homeserver_url@, share.room_id@),
        )
        &&& self == ShareRoomKey::Listing(share)
    }

    /// Whether the step turns to a device: a session with it is sought.
    pub open spec fn turns_to(
        share: Share,
        user_id: Seq<char>,
        devices: Seq<(String, DeviceKeys)>,
        users: Seq<(String, Vec<(String, DeviceKeys)>)>,
        messages: MessagesView,
        key: (Seq<char>, Seq<char>),
        step: ShareStep,
    ) -> bool {
        &&& step matches Step::Ask(call, ShareRoomKey::Finding(p, find))
        &&& p.share == share
        &&& p.user_id@ == user_id
        &&& p.device_id == devices[0].0
        &&& p.curve_key@ == key.0
        &&& p.keys == devices[0].1.keys
        &&& p.devices@ == devices.skip(1)
        &&& p.users@ == users
        &&& p.messages@ == messages
        &&& exists|target: Target|
            #![trigger find.begins(call, target)]
            find.begins(call, target) && target.homeserver_url@ == share.homeserver_url@
                && target.key@ == key.1 && target.user_id@ == user_id && target.device_id@
                == devices[0].0@
    }

    /// The devices that are left of a user, then those of the users that follow, are turned to in
    /// order; those of our own user are passed over. In the end the messages are sent, if there are
    /// any.
    pub open spec fn proceeds(
        share: Share,
        user_id: Seq<char>,
        devices: Seq<(String, DeviceKeys)>,
        users: Seq<(String, Vec<(String, DeviceKeys)>)>,
        messages: MessagesView,
        step: ShareStep,
    ) -> bool
        decreases users.len(), devices.len(),
    {
        if devices.len() > 0 {
            if user_id == share.sender.user_id@ {
                Self::proceeds(share, user_id, devices.skip(1), users, messages, step)
            } else {
                match target_key(user_id, devices[0]) {
                    Err(e) => step.fails(e),
                    Ok(key) => Self::turns_to(
                        share,
                        user_id,
                        devices,
                        users,
                        messages,
                        key,
                        step,
                    ),
                }
            }
        } else if users.len() > 0 {
            Self::proceeds(share, users[0].0@, users[0].1@, users.skip(1), messages, step)
        } else if messages.len() == 0 {
            step.gives(Ok(()))
        } else {
            step matches Step::Ask(call, ShareRoomKey::Naming(s, m)) && call@ == CallView::Now && s
                == share && m@ == messages
        }
    }

    /// The devices after a pending one are turned to.
    pub open spec fn goes_on(pending: Pending, messages: MessagesView, step: ShareStep) -> bool {
        Self::proceeds(
            pending.share,
            pending.user_id@,
            pending.devices@,
            pending.users@,
            messages,
            step,
        )
    }

    /// What follows once a session with a device is there: the payload is encrypted with it, for
    /// which the device must have an Ed25519 key.
    pub open spec fn found(
        pending: Pending,
        session: Seq<u8>,
        replaced: String,
        step: ShareStep,
    ) -> bool {
        match types::lookup(pending.keys@, "ed25519:"@ + pending.device_id@) {
            None => step.fails(
                "No Ed25519 key for "@ + pending.user_id@ + ":"@ + pending.device_id@,
            ),
            Some(key) => if !olm::has_room(session) {
                step.fails("Olm session has no message index left"@)
            } else {
                exists|after: OlmSession, kind: u64, body: String|
                    #![trigger olm::olm_encrypts(
                        session,
                        room_key_payload(pending.share, pending.user_id@, key@),
                        after@,
                        kind,
                        body@,
                    )]
                    olm::olm_encrypts(
                        session,
                        room_key_payload(pending.share, pending.user_id@, key@),
                        after@,
                        kind,
                        body@,
                    ) && olm::first_is_opened(
                        session,
                        room_key_payload(pending.share, pending.user_id@, key@),
                        kind,
                        body@,
                    ) && Self::encrypted(pending, after, replaced, kind, body@, step)
            },
        }
    }

    /// What follows the encryption: the session after it is stored, and the message is kept.
    pub open spec fn encrypted(
        pending: Pending,
        session: OlmSession,
        replaced: String,
        kind: u64,
        body: Seq<char>,
        step: ShareStep,
    ) -> bool {
        step matches Step::Ask(call, ShareRoomKey::Sealing(p, r, content)) && call@
            == CallView::Encrypt(session@) && p == pending && r == replaced && content@
            == olm_event_text(
            pending.share.sender.curve25519_key@,
            pending.curve_key@,
            kind,
            body,
        )
    }

    /// The flow goes on from an answer. A device without a session is passed over; any other failure
    /// ends the sharing.
    pub open spec fn moves(self, reply: HostReply, step: ShareStep) -> bool {
        match (self, reply) {
            (ShareRoomKey::Listing(share), HostReply::Http(response)) => {
                match client::room_members(response) {
                    Err(e) => step.fails(e),
                    Ok(members) => if members.len() == 0 {
                        step.gives(Ok(()))
                    } else {
                        step.asks(
                            CallView::KeysQuery(
                                client::keys_query_request(
                                    share.homeserver_url@,
                                    encode_utf8(query_text(members)),
                                ),
                            ),
                            ShareRoomKey::Querying(share),
                        )
                    },
                }
            },
            (ShareRoomKey::Querying(share), HostReply::KeysQuery(response)) => {
                match client::accepted(response, "keys/query"@, "keys/query response"@) {
                    Err(e) => step.fails(e),
                    Ok(found) => Self::proceeds(
                        share,
                        Seq::empty(),
                        Seq::empty(),
                        found.device_keys@,
                        Seq::empty(),
                        step,
                    ),
                }
            },
            (ShareRoomKey::Finding(pending, find), _) => exists|inner|
                #![trigger find.moves(reply, inner)]
                find.moves(reply, inner) && inner.passes_to(
                    step,
                    |f: GetOlmSession| ShareRoomKey::Finding(pending, f),
                ) && match inner {
                    Step::Done(Ok((session, replaced))) => Self::found(
                        pending,
                        session@,
                        replaced,
                        step,
                    ),
                    Step::Done(Err(e)) => step.asks(
                        host::warning_entry(
                            "share_room_key: failed to get Olm session for "@ + pending.user_id@
                                + ":"@ + pending.device_id@ + ": "@,
                            e@ + ". Skipping."@,
                        ),
                        ShareRoomKey::Skipping(pending),
                    ),
                    _ => true,
                },
            (ShareRoomKey::Skipping(pending), HostReply::Finished) => Self::goes_on(
                pending,
                pending.messages@,
                step,
            ),
            (ShareRoomKey::Sealing(pending, replaced, content), HostReply::Bytes(encrypted)) => {
                match crypto_store::sealed_pickle(encrypted) {
                    Err(e) => step.fails(e),
                    Ok(pickled) => step matches Step::Ask(call, ShareRoomKey::Stamping(p, r, c, s))
                        && call@ == CallView::Now && p == pending && r == replaced && c == content
                        && s@ == pickled && crypto_store::unsealed_bytes(pickled) == Ok::<
                        Seq<u8>,
                        Seq<char>,
                    >(encrypted->Ok_0@),
                }
            },
            (ShareRoomKey::Stamping(pending, replaced, content, pickled), HostReply::Time(now)) => {
                step matches Step::Ask(call, ShareRoomKey::Saving(p, c, save)) && p == pending && c
                    == content && save.begins(
                    call,
                    pending.curve_key@,
                    Some(replaced@),
                    pending.curve_key@,
                    pickled@,
                    now,
                )
            },
            (ShareRoomKey::Saving(pending, content, save), _) => exists|inner|
                #![trigger save.moves(reply, inner)]
                save.moves(reply, inner) && inner.passes_to(
                    step,
                    |s: SaveOlm| ShareRoomKey::Saving(pending, content, s),
                ) && match inner {
                    Step::Done(Err(e)) => step.gives(Err(e)),
                    Step::Done(Ok(_)) => Self::goes_on(
                        pending,
                        with_message(
                            pending.messages@,
                            pending.user_id@,
                            pending.device_id@,
                            content@,
                        ),
                        step,
                    ),
                    _ => true,
                },
            (ShareRoomKey::Naming(share, messages), HostReply::Time(now)) => step.asks(
                CallView::Http(
                    client::to_device_request(
                        share.homeserver_url@,
                        "m.room.encrypted"@,
                        client::txn_id_text(now, share.txn),
                        encode_utf8(messages_text(messages@)),
                    ),
                ),
                ShareRoomKey::Sending,
            ),
            (ShareRoomKey::Sending, HostReply::Http(response)) => {
                step matches Step::Done(result) && host::agrees(
                    result,
                    client::sent_to_device(response),
                )
            },
            _ => step.strays(self),
        }
    }

    /// Turns to the next device.
    fn proceed(
        share: Share,
        user_id: String,
        mut devices: Vec<(String, DeviceKeys)>,
        mut users: Vec<(String, Vec<(String, DeviceKeys)>)>,
        messages: Messages,
    ) -> (step: ShareStep)
        ensures
            Self::proceeds(share, user_id@, devices@, users@, messages@, step),
        decreases users.len(), devices.len(),
    {
        if devices.len() > 0 {
            let ghost all = devices@;
            let (device_id, info) = devices.remove(0);
            assert(devices@ =~= all.skip(1));
            if same_text(user_id.as_str(), share.sender.user_id.as_str()) {
                return Self::proceed(share, user_id, devices, users, messages);
            }
            let name = concat2("curve25519:", device_id.as_str());
            let curve_key = match find_entry(&info.keys, name.as_str()) {
                Some(i) => info.keys[i].1.clone(),
                None => return Step::Done(
                    Err(
                        concat4(
                            "No Curve25519 key for ",
                            user_id.as_str(),
                            ":",
                            device_id.as_str(),
                        ),
                    ),
                ),
            };
            let key = match CurveKey::from_base64(curve_key.as_str()) {
                Ok(key) => key,
                Err(e) => return Step::Done(
                    Err(concat2("Invalid target Curve25519 key: ", e.as_str())),
                ),
            };
            let target = Target {
                homeserver_url: share.homeserver_url.clone(),
                key,
                user_id: user_id.clone(),
                device_id: device_id.clone(),
            };
            let (call, find) = get_or_create_olm_session(target);
            let keys = info.keys;
            let pending = Pending {
                share,
                user_id,
                device_id,
                curve_key,
                keys,
                devices,
                users,
                messages,
            };
            Step::Ask(call, ShareRoomKey::Finding(pending, find))
        } else if users.len() > 0 {
            let ghost all = users@;
            let (next_user, next_devices) = users.remove(0);
            assert(users@ =~= all.skip(1));
            Self::proceed(share, next_user, next_devices, users, messages)
        } else if messages.is_empty() {
            Step::Done(Ok(()))
        } else {
            Step::Ask(HostCall::Now, ShareRoomKey::Naming(share, messages))
        }
    }

    /// Goes on from the session and the message that the encryption of the payload gave.
    pub fn after_encryption(
        pending: Pending,
        session: OlmSession,
        replaced: String,
        kind: u64,
        body: String,
    ) -> (step: ShareStep)
        ensures
            Self::encrypted(pending, session, replaced, kind, body@, step),
    {
        let content = olm_event_json(
            pending.share.sender.curve25519_key.as_str(),
            pending.curve_key.as_str(),
            kind,
            body.as_str(),
        );
        Step::Ask(
            HostCall::Encrypt(session.pickle()),
            ShareRoomKey::Sealing(pending, replaced, content),
        )
    }

    fn encrypt(pending: Pending, session: OlmSession, replaced: String) -> (step: ShareStep)
        ensures
            Self::found(pending, session@, replaced, step),
    {
        let name = concat2("ed25519:", pending.device_id.as_str());
        let payload = match find_entry(&pending.keys, name.as_str()) {
            Some(i) => payload_json(
                &pending.share,
                pending.user_id.as_str(),
                pending.keys[i].1.as_str(),
            ),
            None => return Step::Done(
                Err(
                    concat4(
                        "No Ed25519 key for ",
                        pending.user_id.as_str(),
                        ":",
                        pending.device_id.as_str(),
                    ),
                ),
            ),
        };
        let ghost key = types::lookup(pending.keys@, "ed25519:"@ + pending.device_id@)->0;
        let ghost before = session@;
        let (after, kind, body) = match session.encrypt(payload.as_str()) {
            Some(encrypted) => encrypted,
            None => return Step::Done(Err("Olm session has no message index left".to_owned())),
        };
        assert(olm::olm_encrypts(
            before,
            room_key_payload(pending.share, pending.user_id@, key@),
            after@,
            kind,
            body@,
        ));
        Self::after_encryption(pending, after, replaced, kind, body)
    }

    /// Goes on from an answer of the host.
    pub fn resume(self, reply: HostReply) -> (step: ShareStep)
        ensures
            self.moves(reply, step),
    {
        match (self, reply) {
            (ShareRoomKey::Listing(share), HostReply::Http(response)) => {
                match joined_members_response(response) {
                    Err(e) => Step::Done(Err(e)),
                    Ok(members) => {
                        assert(text::texts(members@).len() == members@.len());
                        if members.len() == 0 {
                            return Step::Done(Ok(()));
                        }
                        let query = query_json(&members);
                        let body = bytes_of(query.as_str());
                        let request = keys_query(share.homeserver_url.as_str(), body);
                        Step::Ask(HostCall::KeysQuery(request), ShareRoomKey::Querying(share))
                    },
                }
            },
            (ShareRoomKey::Querying(share), HostReply::KeysQuery(response)) => {
                match keys_query_response(response) {
                    Err(e) => Step::Done(Err(e)),
                    Ok(found) => {
                        let nobody = String::new();
                        let devices: Vec<(String, DeviceKeys)> = Vec::new();
                        assert(nobody@ =~= Seq::empty());
                        assert(devices@ =~= Seq::empty());
                        Self::proceed(share, nobody, devices, found.device_keys, Messages::new())
                    },
                }
            },
            (ShareRoomKey::Finding(pending, find), reply) => match find.resume(reply) {
                Step::Ask(call, find) => Step::Ask(call, ShareRoomKey::Finding(pending, find)),
                Step::Stray(find) => Step::Stray(ShareRoomKey::Finding(pending, find)),
                Step::Done(Ok((session, replaced))) => Self::encrypt(pending, session, replaced),
                Step::Done(Err(e)) => {
                    let what = concat5(
                        "share_room_key: failed to get Olm session for ",
                        pending.user_id.as_str(),
                        ":",
                        pending.device_id.as_str(),
                        ": ",
                    );
                    let why = concat2(e.as_str(), ". Skipping.");
                    Step::Ask(
                        log_warning(what.as_str(), why.as_str()),
                        ShareRoomKey::Skipping(pending),
                    )
                },
            },
            (ShareRoomKey::Skipping(pending), HostReply::Finished) => Self::proceed(
                pending.share,
                pending.user_id,
                pending.devices,
                pending.users,
                pending.messages,
            ),
            (ShareRoomKey::Sealing(pending, replaced, content), HostReply::Bytes(encrypted)) => {
                match host_encrypt_pickle(encrypted) {
                    Err(e) => Step::Done(Err(e)),
                    Ok(pickled) => Step::Ask(
                        HostCall::Now,
                        ShareRoomKey::Stamping(pending, replaced, content, pickled),
                    ),
                }
            },
            (ShareRoomKey::Stamping(pending, replaced, content, pickled), HostReply::Time(now)) => {
                let record = StoredOlmSession {
                    sender_key: pending.curve_key.clone(),
                    pickled_session: pickled,
                    last_use_ts: now,
                };
                let key = pending.curve_key.clone();
                let (call, save) = start_saving_olm(key, Some(replaced), record);
                Step::Ask(call, ShareRoomKey::Saving(pending, content, save))
            },
            (ShareRoomKey::Saving(pending, content, save), reply) => match save.resume(reply) {
                Step::Ask(call, save) => Step::Ask(
                    call,
                    ShareRoomKey::Saving(pending, content, save),
                ),
                Step::Stray(save) => Step::Stray(ShareRoomKey::Saving(pending, content, save)),
                Step::Done(Err(e)) => Step::Done(Err(e)),
                Step::Done(Ok(_)) => {
                    let user_id = pending.user_id.clone();
                    let messages = pending.messages.with(user_id, pending.device_id, content);
                    Self::proceed(
                        pending.share,
                        pending.user_id,
                        pending.devices,
                        pending.users,
                        messages,
                    )
                },
            },
            (ShareRoomKey::Naming(share, messages), HostReply::Time(now)) => {
                let txn_id = generate_txn_id(now, share.txn);
                let json = messages.to_json();
                let request = send_to_device(
                    share.homeserver_url.as_str(),
                    "m.room.encrypted",
                    txn_id.as_str(),
                    bytes_of(json.as_str()),
                );
                Step::Ask(HostCall::Http(request), ShareRoomKey::Sending)
            },
            (ShareRoomKey::Sending, HostReply::Http(response)) => {
                Step::Done(send_to_device_response(response))
            },
            (flow, _) => Step::Stray(flow),
        }
    }
}

/// Share Megolm room key with all devices in a room via Olm.
///
/// 1. Queries device keys for all users in the room
/// 2. For each device, establishes or reuses an Olm session
/// 3. Encrypts the room key with each Olm session
/// 4. Sends encrypted keys via sendToDevice
pub fn share_room_key(share: Share) -> (start: (HostCall, ShareRoomKey))
    ensures
        start.1.begins(start.0, share),
{
    let request = joined_members(share.homeserver_url.as_str(), share.room_id.as_str());
    (HostCall::Http(request), ShareRoomKey::Listing(share))
}

// ---------------------------------------------------------------------------
// Encrypting a message
// ---------------------------------------------------------------------------

/// The event that is encrypted for a text in a room.
pub open spec fn inner_event_text(room_id: Seq<char>, plaintext: Seq<char>) -> Seq<char> {
    let content = json::sorted_object_text(
        seq![
            ("msgtype"@, json::string_text("m.text"@)),
            ("body"@, json::string_text(plaintext)),
        ],
    );
    json::sorted_object_text(
        seq![
            ("type"@, json::string_text("m.room.message"@)),
            ("content"@, content),
            ("room_id"@, json::string_text(room_id)),
        ],
    )
}

fn inner_event_json(room_id: &str, plaintext: &str) -> (r: String)
    ensures
        r@ == inner_event_text(room_id@, plaintext@),
{
    let content_members = vec![
        field("msgtype", string_json("m.text")),
        field("body", string_json(plaintext)),
    ];
    assert(json::member_views(content_members@) =~= seq![
        ("msgtype"@, json::string_text("m.text"@)),
        ("body"@, json::string_text(plaintext@)),
    ]);
    let content = sorted_object_json(content_members);
    let members = vec![
        field("type", string_json("m.room.message")),
        field("content", content),
        field("room_id", string_json(room_id)),
    ];
    assert(json::member_views(members@) =~= seq![
        ("type"@, json::string_text("m.room.message"@)),
        ("content"@, content@),
        ("room_id"@, json::string_text(room_id@)),
    ]);
    sorted_object_json(members)
}

/// The content of an encrypted event.
pub open spec fn encrypted_event_text(
    sender_key: Seq<char>,
    session_id: Seq<char>,
    device_id: Seq<char>,
    ciphertext: Seq<char>,
) -> Seq<char> {
    json::sorted_object_text(
        seq![
            ("algorithm"@, json::string_text("m.megolm.v1.aes-sha2"@)),
            ("sender_key"@, json::string_text(sender_key)),
            ("session_id"@, json::string_text(session_id)),
            ("device_id"@, json::string_text(device_id)),
            ("ciphertext"@, json::string_text(ciphertext)),
        ],
    )
}

fn encrypted_event_json(sender_key: &str, session_id: &str, device_id: &str, ciphertext: &str) -> (r:
    String)
    ensures
        r@ == encrypted_event_text(sender_key@, session_id@, device_id@, ciphertext@),
{
    let members = vec![
        field("algorithm", string_json("m.megolm.v1.aes-sha2")),
        field("sender_key", string_json(sender_key)),
        field("session_id", string_json(session_id)),
        field("device_id", string_json(device_id)),
        field("ciphertext", string_json(ciphertext)),
    ];
    assert(json::member_views(members@) =~= seq![
        ("algorithm"@, json::string_text("m.megolm.v1.aes-sha2"@)),
        ("sender_key"@, json::string_text(sender_key@)),
        ("session_id"@, json::string_text(session_id@)),
        ("device_id"@, json::string_text(device_id@)),
        ("ciphertext"@, json::string_text(ciphertext@)),
    ]);
    sorted_object_json(members)
}

/// A text to encrypt for a room.
pub struct Draft {
    pub homeserver_url: String,
    pub room_id: String,
    pub plaintext: String,
    /// The counter of the transaction ID with which a room key is sent, if one is.
    pub txn: u64,
}

/// Encrypts a plaintext message for an E2EE-enabled room.
pub enum EncryptMessage {
    /// The host is to tell the time.
    Starting(Draft),
    /// The host is to read our account. Holds the time.
    Loading(Draft, u64),
    /// The host is to read the outbound session of the room.
    Choosing(Draft, u64, StoredAccount),
    /// A new session: the host is to encrypt the pickle of the inbound session for our own
    /// messages, which then goes into the record. Holds the session and its key.
    SealingInbound(Draft, u64, StoredAccount, OutboundSession, String, StoredInboundMegolmSession),
    /// The host is to write the record.
    WritingInbound(Draft, u64, StoredAccount, OutboundSession, String, String),
    /// The key of the new session, with this ID, is to be shared.
    Sharing(Draft, u64, StoredAccount, OutboundSession, String, ShareRoomKey),
    /// The session of the room: the host is to decrypt its pickle. Holds the record that it will
    /// have after the message.
    Opening(Draft, StoredAccount, StoredOutboundMegolmSession),
    /// The host is to encrypt the pickle of the session, which then goes into the record. Holds the
    /// content of the encrypted event.
    Sealing(StoredOutboundMegolmSession, String),
    /// The host is to write the record.
    Writing(String),
}

/// A step of the encryption. It gives the content of the encrypted event.
pub type EncryptStep = Step<EncryptMessage, Result<String, String>>;

impl EncryptMessage {
    /// The flow starts: the host is asked for the time.
    pub open spec fn begins(
        self,
        call: HostCall,
        homeserver_url: Seq<char>,
        room_id: Seq<char>,
        plaintext: Seq<char>,
        txn: u64,
    ) -> bool {
        &&& call@ == CallView::Now
        &&& self matches EncryptMessage::Starting(draft)
        &&& draft.homeserver_url@ == homeserver_url
        &&& draft.room_id@ == room_id
        &&& draft.plaintext@ == plaintext
        &&& draft.txn == txn
    }

    /// A new session is made, at index 0, with an inbound session for our own messages.
    pub open spec fn renews(draft: Draft, now: u64, account: StoredAccount, step: EncryptStep) -> bool {
        &&& step matches Step::Ask(
            call,
            EncryptMessage::SealingInbound(d, t, a, session, key, record),
        )
        &&& d == draft
        &&& t == now
        &&& a == account
        &&& megolm::is_outbound(session@)
        &&& megolm::outbound_index(session@) == 0
        &&& megolm::outbound_version(session@) == 1
        &&& key@ == megolm::outbound_key(session@)
        &&& megolm::inbound_of_key(key@) is Ok
        &&& megolm::is_inbound(megolm::inbound_of_key(key@)->Ok_0)
        &&& megolm::inbound_reads(megolm::inbound_of_key(key@)->Ok_0, session@)
        &&& call@ == CallView::Encrypt(megolm::inbound_of_key(key@)->Ok_0)
        &&& record@ == InboundView {
            room_id: draft.room_id@,
            session_id: megolm::outbound_id(session@),
            sender_key: account.curve25519_key@,
            pickled_session: Seq::empty(),
            forwarded: false,
            seen_indices: Seq::empty(),
        }
    }

    /// The text is encrypted with a session, whose record, but for the pickle, is `record`.
    pub open spec fn encrypts(
        draft: Draft,
        account: StoredAccount,
        session: Seq<u8>,
        record: OutboundView,
        step: EncryptStep,
    ) -> bool {
        if megolm::outbound_index(session) == u32::MAX {
            step.fails("Megolm session has no message index left"@)
        } else {
            let (after, ciphertext) = megolm::outbound_encryption(
                session,
                inner_event_text(draft.room_id@, draft.plaintext@),
            );
            step matches Step::Ask(call, EncryptMessage::Sealing(r, content)) && call@
                == CallView::Encrypt(after) && r@ == (OutboundView {
                pickled_session: r@.pickled_session,
                ..record
            }) && content@ == encrypted_event_text(
                account.curve25519_key@,
                record.session_id,
                account.device_id@,
                ciphertext,
            ) && (forall|inbound: Seq<u8>| #[trigger]
                megolm::inbound_reads(inbound, session) ==> megolm::inbound_reads(inbound, after)
                    && megolm::decrypts_to(
                    inbound,
                    ciphertext,
                    inner_event_text(draft.room_id@, draft.plaintext@),
                    megolm::outbound_index(session),
                ))
        }
    }

    /// The flow goes on from an answer. The session of the room is used, unless there is none or it
    /// is due for rotation: then a new one is made, and its key is shared before anything is
    /// encrypted with it.
    pub open spec fn moves(self, reply: HostReply, step: EncryptStep) -> bool {
        match (self, reply) {
            (EncryptMessage::Starting(draft), HostReply::Time(now)) => step.asks(
                CallView::ReadAccount("crypto/account.json"@),
                EncryptMessage::Loading(draft, now),
            ),
            (EncryptMessage::Loading(draft, now), HostReply::Account(stored)) => match stored {
                None => step.fails("No crypto account for encryption"@),
                Some(account) => step.asks(
                    CallView::ReadOutbound(crypto_store::outbound_path(draft.room_id@)),
                    EncryptMessage::Choosing(draft, now, account),
                ),
            },
            (EncryptMessage::Choosing(draft, now, account), HostReply::Outbound(stored)) => {
                match stored {
                    None => Self::renews(draft, now, account, step),
                    Some(session) => if crypto_store::rotation_due(
                        session.message_count,
                        session.created_ts,
                        now,
                    ) {
                        Self::renews(draft, now, account, step)
                    } else {
                        match crypto_store::unsealed_bytes(session.pickled_session@) {
                            Err(e) => step.fails(e),
                            Ok(bytes) => step matches Step::Ask(
                                call,
                                EncryptMessage::Opening(d, a, record),
                            ) && call@ == CallView::Decrypt(bytes) && d == draft && a == account
                                && record@ == (OutboundView {
                                room_id: draft.room_id@,
                                message_count: (session.message_count + 1) as u32,
                                ..session@
                            }),
                        }
                    },
                }
            },
            (
                EncryptMessage::SealingInbound(draft, now, account, session, key, record),
                HostReply::Bytes(encrypted),
            ) => match crypto_store::sealed_pickle(encrypted) {
                Err(e) => step.fails(e),
                Ok(pickled_session) => step matches Step::Ask(
                    call,
                    EncryptMessage::WritingInbound(d, t, a, s, k, id),
                ) && d == draft && t == now && a == account && s == session && k == key && id
                    == record.session_id && call@ == CallView::Write(
                    crypto_store::inbound_path(record.room_id@, record.session_id@),
                    InboundView { pickled_session, ..record@ }.json(),
                ) && crypto_store::unsealed_bytes(pickled_session) == Ok::<Seq<u8>, Seq<char>>(
                    encrypted->Ok_0@,
                ),
            },
            (
                EncryptMessage::WritingInbound(draft, now, account, session, key, id),
                HostReply::Written(result),
            ) => match result {
                Err(e) => step.gives(Err(e)),
                Ok(_) => step matches Step::Ask(
                    call,
                    EncryptMessage::Sharing(d, t, a, s, i, sharing),
                ) && d == draft && t == now && a == account && s == session && i == id
                    && exists|share: Share|
                    #![trigger sharing.begins(call, share)]
                    sharing.begins(call, share) && share.homeserver_url@ == draft.homeserver_url@
                        && share.room_id@ == draft.room_id@ && share.session_key@ == key@
                        && share.session_id@ == id@ && share.sender.user_id@ == account.user_id@
                        && share.sender.device_id@ == account.device_id@
                        && share.sender.ed25519_key@ == account.ed25519_key@
                        && share.sender.curve25519_key@ == account.curve25519_key@ && share.txn
                        == draft.txn,
            },
            (EncryptMessage::Sharing(draft, now, account, session, id, sharing), _) => exists|inner|
                #![trigger sharing.moves(reply, inner)]
                sharing.moves(reply, inner) && inner.passes_to(
                    step,
                    |s: ShareRoomKey|
                        EncryptMessage::Sharing(draft, now, account, session, id, s),
                ) && match inner {
                    Step::Done(Err(e)) => step.gives(Err(e)),
                    Step::Done(Ok(_)) => Self::encrypts(
                        draft,
                        account,
                        session@,
                        OutboundView {
                            room_id: draft.room_id@,
                            session_id: id@,
                            pickled_session: Seq::empty(),
                            message_count: 1,
                            created_ts: now,
                        },
                        step,
                    ),
                    _ => true,
                },
            (EncryptMessage::Opening(draft, account, record), HostReply::Bytes(decrypted)) => {
                match crypto_store::opened_pickle(
                    decrypted,
                    megolm::outbound_pickle(decrypted->Ok_0@),
                ) {
                    Err(e) => step.fails(e),
                    Ok(session) => Self::encrypts(draft, account, session, record@, step),
                }
            },
            (EncryptMessage::Sealing(record, content), HostReply::Bytes(encrypted)) => {
                match crypto_store::sealed_pickle(encrypted) {
                    Err(e) => step.fails(e),
                    Ok(pickled_session) => step.asks(
                        CallView::Write(
                            crypto_store::outbound_path(record.room_id@),
                            OutboundView { pickled_session, ..record@ }.json(),
                        ),
                        EncryptMessage::Writing(content),
                    ) && crypto_store::unsealed_bytes(pickled_session) == Ok::<Seq<u8>, Seq<char>>(
                        encrypted->Ok_0@,
                    ),
                }
            },
            (EncryptMessage::Writing(content), HostReply::Written(result)) => match result {
                Ok(_) => step.gives(Ok(content)),
                Err(e) => step.gives(Err(e)),
            },
            _ => step.strays(self),
        }
    }

    fn renew(draft: Draft, now: u64, account: StoredAccount) -> (step: EncryptStep)
        ensures
            Self::renews(draft, now, account, step),
    {
        let session = OutboundSession::new();
        let key = session.session_key();
        let record = StoredInboundMegolmSession {
            room_id: draft.room_id.clone(),
            session_id: session.session_id(),
            sender_key: account.curve25519_key.clone(),
            pickled_session: String::new(),
            forwarded: false,
            seen_indices: Vec::new(),
        };
        assert(record.pickled_session@ =~= Seq::empty());
        assert(record.seen_indices@ =~= Seq::empty());
        match InboundSession::from_session_key(key.as_str()) {
            Ok(inbound) => Step::Ask(
                HostCall::Encrypt(inbound.pickle()),
                EncryptMessage::SealingInbound(draft, now, account, session, key, record),
            ),
            Err(e) => Step::Done(Err(e)),
        }
    }

    fn encrypt(
        draft: Draft,
        account: StoredAccount,
        session: OutboundSession,
        record: StoredOutboundMegolmSession,
    ) -> (step: EncryptStep)
        ensures
            Self::encrypts(draft, account, session@, record@, step),
    {
        let event = inner_event_json(draft.room_id.as_str(), draft.plaintext.as_str());
        match session.encrypt(event.as_str()) {
            None => Step::Done(Err("Megolm session has no message index left".to_owned())),
            Some((after, ciphertext)) => {
                let content = encrypted_event_json(
                    account.curve25519_key.as_str(),
                    record.session_id.as_str(),
                    account.device_id.as_str(),
                    ciphertext.as_str(),
                );
                Step::Ask(
                    HostCall::Encrypt(after.pickle()),
                    EncryptMessage::Sealing(record, content),
                )
            },
        }
    }

    /// Goes on from an answer of the host.
    pub fn resume(self, reply: HostReply) -> (step: EncryptStep)
        ensures
            self.moves(reply, step),
    {
        match (self, reply) {
            (EncryptMessage::Starting(draft), HostReply::Time(now)) => Step::Ask(
                read_account(),
                EncryptMessage::Loading(draft, now),
            ),
            (EncryptMessage::Loading(draft, now), HostReply::Account(stored)) => match stored {
                None => Step::Done(Err("No crypto account for encryption".to_owned())),
                Some(account) => {
                    let call = read_outbound_megolm_session(draft.room_id.as_str());
                    Step::Ask(call, EncryptMessage::Choosing(draft, now, account))
                },
            },
            (EncryptMessage::Choosing(draft, now, account), HostReply::Outbound(stored)) => {
                match stored {
                    None => Self::renew(draft, now, account),
                    Some(session) => {
                        if should_rotate_session(&session, now) {
                            return Self::renew(draft, now, account);
                        }
                        match host_decrypt_pickle(session.pickled_session.as_str()) {
                            Err(e) => Step::Done(Err(e)),
                            Ok(bytes) => {
                                let record = StoredOutboundMegolmSession {
                                    room_id: draft.room_id.clone(),
                                    session_id: session.session_id,
                                    pickled_session: session.pickled_session,
                                    message_count: session.message_count + 1,
                                    created_ts: session.created_ts,
                                };
                                Step::Ask(
                                    HostCall::Decrypt(bytes),
                                    EncryptMessage::Opening(draft, account, record),
                                )
                            },
                        }
                    },
                }
            },
            (
                EncryptMessage::SealingInbound(draft, now, account, session, key, mut record),
                HostReply::Bytes(encrypted),
            ) => match host_encrypt_pickle(encrypted) {
                Err(e) => Step::Done(Err(e)),
                Ok(pickled) => {
                    record.pickled_session = pickled;
                    let call = write_inbound_megolm_session(&record);
                    let id = record.session_id;
                    Step::Ask(
                        call,
                        EncryptMessage::WritingInbound(draft, now, account, session, key, id),
                    )
                },
            },
            (
                EncryptMessage::WritingInbound(draft, now, account, session, key, id),
                HostReply::Written(result),
            ) => match result {
                Err(e) => Step::Done(Err(e)),
                Ok(_) => {
                    let share = Share {
                        homeserver_url: draft.homeserver_url.clone(),
                        room_id: draft.room_id.clone(),
                        session_key: key,
                        session_id: id.clone(),
                        sender: Sender {
                            user_id: account.user_id.clone(),
                            device_id: account.device_id.clone(),
                            ed25519_key: account.ed25519_key.clone(),
                            curve25519_key: account.curve25519_key.clone(),
                        },
                        txn: draft.txn,
                    };
                    let (call, sharing) = share_room_key(share);
                    Step::Ask(
                        call,
                        EncryptMessage::Sharing(draft, now, account, session, id, sharing),
                    )
                },
            },
            (EncryptMessage::Sharing(draft, now, account, session, id, sharing), reply) => {
                match sharing.resume(reply) {
                    Step::Ask(call, sharing) => Step::Ask(
                        call,
                        EncryptMessage::Sharing(draft, now, account, session, id, sharing),
                    ),
                    Step::Stray(sharing) => Step::Stray(
                        EncryptMessage::Sharing(draft, now, account, session, id, sharing),
                    ),
                    Step::Done(Err(e)) => Step::Done(Err(e)),
                    Step::Done(Ok(_)) => {
                        let record = StoredOutboundMegolmSession {
                            room_id: draft.room_id.clone(),
                            session_id: id,
                            pickled_session: String::new(),
                            message_count: 1,
                            created_ts: now,
                        };
                        assert(record.pickled_session@ =~= Seq::empty());
                        Self::encrypt(draft, account, session, record)
                    },
                }
            },
            (EncryptMessage::Opening(draft, account, record), HostReply::Bytes(decrypted)) => {
                match open_outbound_session(decrypted) {
                    Err(e) => Step::Done(Err(e)),
                    Ok(session) => Self::encrypt(draft, account, session, record),
                }
            },
            (EncryptMessage::Sealing(mut record, content), HostReply::Bytes(encrypted)) => {
                match host_encrypt_pickle(encrypted) {
                    Err(e) => Step::Done(Err(e)),
                    Ok(pickled) => {
                        record.pickled_session = pickled;
                        Step::Ask(
                            write_outbound_megolm_session(&record),
                            EncryptMessage::Writing(content),
                        )
                    },
                }
            },
            (EncryptMessage::Writing(content), HostReply::Written(result)) => match result {
                Ok(_) => Step::Done(Ok(content)),
                Err(e) => Step::Done(Err(e)),
            },
            (flow, _) => Step::Stray(flow),
        }
    }
}

/// Encrypt a plaintext message for an E2EE-enabled room.
///
/// Uses the outbound Megolm session for the room, creating one if needed. Room keys are shared with
/// other devices via Olm before encryption.
pub fn encrypt_message(homeserver_url: &str, room_id: &str, plaintext: &str, txn: u64) -> (start: (
    HostCall,
    EncryptMessage,
))
    ensures
        start.1.begins(start.0, homeserver_url@, room_id@, plaintext@, txn),
{
    let draft = Draft {
        homeserver_url: homeserver_url.to_owned(),
        room_id: room_id.to_owned(),
        plaintext: plaintext.to_owned(),
        txn,
    };
    (HostCall::Now, EncryptMessage::Starting(draft))
}

// ---------------------------------------------------------------------------
// Laws
// ---------------------------------------------------------------------------

/// A room key is shared with no device of our own user.
pub proof fn own_devices_get_no_key(
    share: Share,
    user_id: Seq<char>,
    devices: Seq<(String, DeviceKeys)>,
    users: Seq<(String, Vec<(String, DeviceKeys)>)>,
    messages: MessagesView,
    step: ShareStep,
)
    requires
        ShareRoomKey::proceeds(share, user_id, devices, users, messages, step),
    ensures
        step matches Step::Ask(_, ShareRoomKey::Finding(pending, _)) ==> pending.user_id@
            != share.sender.user_id@ && pending.share == share,
    decreases users.len(), devices.len(),
{
    if devices.len() > 0 {
        if user_id == share.sender.user_id@ {
            own_devices_get_no_key(share, user_id, devices.skip(1), users, messages, step);
        }
    } else if users.len() > 0 {
        own_devices_get_no_key(share, users[0].0@, users[0].1@, users.skip(1), messages, step);
    }
}

/// A stored session encrypts a message only if it has sent fewer than 100 messages and is less than
/// a week old; otherwise, or where there is none, a new one takes its place.
pub proof fn sessions_rotate(
    draft: Draft,
    now: u64,
    account: StoredAccount,
    stored: Option<StoredOutboundMegolmSession>,
    step: EncryptStep,
)
    requires
        EncryptMessage::Choosing(draft, now, account).moves(HostReply::Outbound(stored), step),
    ensures
        step matches Step::Ask(_, EncryptMessage::Opening(_, _, _)) ==> stored is Some
            && stored->0.message_count < 100 && now - stored->0.created_ts < 604_800_000,
        stored is None || stored->0.message_count >= 100 || now - stored->0.created_ts
            >= 604_800_000 ==> EncryptMessage::renews(draft, now, account, step),
{
}

impl EncryptMessage {
    /// Whether the record that the flow holds, if it holds one, counts at most 100 messages.
    pub open spec fn counts_at_most_100(self) -> bool {
        match self {
            EncryptMessage::Opening(_, _, record) => record.message_count <= 100,
            EncryptMessage::Sealing(record, _) => record.message_count <= 100,
            _ => true,
        }
    }
}

/// No outbound session is ever stored as one that has sent more than 100 messages: the bound holds
/// at the start and is kept by every step.
pub proof fn sessions_send_at_most_100_messages(
    flow: EncryptMessage,
    reply: HostReply,
    step: EncryptStep,
)
    requires
        flow.counts_at_most_100(),
        flow.moves(reply, step),
    ensures
        step matches Step::Ask(_, next) ==> next.counts_at_most_100(),
        step matches Step::Stray(same) ==> same.counts_at_most_100(),
{
}

/// The key that is shared for a new session gives an inbound session that reads what the session
/// encrypts.
pub proof fn shared_key_reads_the_session(
    draft: Draft,
    now: u64,
    account: StoredAccount,
    session: OutboundSession,
    key: String,
    record: StoredInboundMegolmSession,
    call: HostCall,
)
    requires
        EncryptMessage::renews(
            draft,
            now,
            account,
            Step::Ask(
                call,
                EncryptMessage::SealingInbound(draft, now, account, session, key, record),
            ),
        ),
    ensures
        megolm::inbound_of_key(key@) is Ok,
        megolm::inbound_reads(megolm::inbound_of_key(key@)->Ok_0, session@),
{
}

/// Who reads a session reads each of its messages: the event is recovered from the ciphertext that is
/// sent. And they read the session that is stored for the messages that follow.
pub proof fn readers_recover_every_message(
    draft: Draft,
    account: StoredAccount,
    session: Seq<u8>,
    record: OutboundView,
    inbound: Seq<u8>,
    call: HostCall,
    sealed: StoredOutboundMegolmSession,
    content: String,
)
    requires
        megolm::inbound_reads(inbound, session),
        EncryptMessage::encrypts(
            draft,
            account,
            session,
            record,
            Step::Ask(call, EncryptMessage::Sealing(sealed, content)),
        ),
    ensures
        exists|ciphertext: Seq<char>|
            content@ == #[trigger] encrypted_event_text(
                account.curve25519_key@,
                record.session_id,
                account.device_id@,
                ciphertext,
            ) && megolm::decrypts_to(
                inbound,
                ciphertext,
                inner_event_text(draft.room_id@, draft.plaintext@),
                megolm::outbound_index(session),
            ),
        call@ matches CallView::Encrypt(after) && megolm::inbound_reads(inbound, after),
{
    let (after, ciphertext) = megolm::outbound_encryption(
        session,
        inner_event_text(draft.room_id@, draft.plaintext@),
    );
    assert(content@ == encrypted_event_text(
        account.curve25519_key@,
        record.session_id,
        account.device_id@,
        ciphertext,
    ));
}

/// Nothing is encrypted with a new session before its key is shared: where the sharing fails, so
/// does the encryption.
pub proof fn unshared_session_encrypts_nothing(
    draft: Draft,
    now: u64,
    account: StoredAccount,
    session: OutboundSession,
    id: String,
    sharing: ShareRoomKey,
    reply: HostReply,
    step: EncryptStep,
)
    requires
        EncryptMessage::Sharing(draft, now, account, session, id, sharing).moves(reply, step),
        forall|inner: ShareStep| #[trigger]
            sharing.moves(reply, inner) ==> !(inner matches Step::Done(Ok(_))),
    ensures
        !(step matches Step::Ask(_, EncryptMessage::Sealing(_, _))),
        !(step matches Step::Done(Ok(_))),
{
}

/// Encrypting a message sends no event to a room: the only requests are those for members and keys,
/// and the room key to devices.
pub proof fn encrypting_sends_no_event(flow: EncryptMessage, reply: HostReply, step: EncryptStep)
    requires
        flow.moves(reply, step),
    ensures
        step matches Step::Ask(call, _) ==> !(call@ is SendEvent),
{
    if let EncryptMessage::Sharing(draft, now, account, session, id, sharing) = flow {
        let inner = choose|inner: ShareStep|
            #![trigger sharing.moves(reply, inner)]
            sharing.moves(reply, inner) && inner.passes_to(
                step,
                |s: ShareRoomKey| EncryptMessage::Sharing(draft, now, account, session, id, s),
            ) && match inner {
                Step::Done(Err(e)) => step.gives(Err(e)),
                Step::Done(Ok(_)) => EncryptMessage::encrypts(
                    draft,
                    account,
                    session@,
                    OutboundView {
                        room_id: draft.room_id@,
                        session_id: id@,
                        pickled_session: Seq::empty(),
                        message_count: 1,
                        created_ts: now,
                    },
                    step,
                ),
                _ => true,
            };
        sharing_sends_no_event(sharing, reply, inner);
    }
}

proof fn sharing_sends_no_event(flow: ShareRoomKey, reply: HostReply, step: ShareStep)
    requires
        flow.moves(reply, step),
    ensures
        step matches Step::Ask(call, _) ==> !(call@ is SendEvent),
{
    match flow {
        ShareRoomKey::Querying(share) => {
            if let HostReply::KeysQuery(response) = reply {
                if let Ok(found) = client::accepted(
                    response,
                    "keys/query"@,
                    "keys/query response"@,
                ) {
                    turning_sends_no_event(
                        share,
                        Seq::empty(),
                        Seq::empty(),
                        found.device_keys@,
                        Seq::empty(),
                        step,
                    );
                }
            }
        },
        ShareRoomKey::Skipping(p) => {
            if reply is Finished {
                turning_sends_no_event(
                    p.share,
                    p.user_id@,
                    p.devices@,
                    p.users@,
                    p.messages@,
                    step,
                );
            }
        },
        ShareRoomKey::Saving(p, content, save) => {
            let messages = with_message(p.messages@, p.user_id@, p.device_id@, content@);
            let inner = choose|inner: crypto_store::SaveOlmStep|
                #![trigger save.moves(reply, inner)]
                save.moves(reply, inner) && inner.passes_to(
                    step,
                    |s: SaveOlm| ShareRoomKey::Saving(p, content, s),
                ) && match inner {
                    Step::Done(Err(e)) => step.gives(Err(e)),
                    Step::Done(Ok(_)) => ShareRoomKey::goes_on(p, messages, step),
                    _ => true,
                };
            if inner matches Step::Done(Ok(_)) {
                turning_sends_no_event(
                    p.share,
                    p.user_id@,
                    p.devices@,
                    p.users@,
                    messages,
                    step,
                );
            }
        },
        _ => {},
    }
}

proof fn turning_sends_no_event(
    share: Share,
    user_id: Seq<char>,
    devices: Seq<(String, DeviceKeys)>,
    users: Seq<(String, Vec<(String, DeviceKeys)>)>,
    messages: MessagesView,
    step: ShareStep,
)
    requires
        ShareRoomKey::proceeds(share, user_id, devices, users, messages, step),
    ensures
        step matches Step::Ask(call, _) ==> !(call@ is SendEvent),
    decreases users.len(), devices.len(),
{
    if devices.len() > 0 {
        if user_id == share.sender.user_id@ {
            turning_sends_no_event(share, user_id, devices.skip(1), users, messages, step);
        }
    } else if users.len() > 0 {
        turning_sends_no_event(share, users[0].0@, users[0].1@, users.skip(1), messages, step);
    }
}

/// The outbound session of a room is stored only once the host has encrypted its pickle, and with
/// the encrypted pickle alone.
pub proof fn outbound_session_is_stored_sealed(
    record: StoredOutboundMegolmSession,
    content: String,
    reply: HostReply,
    step: EncryptStep,
)
    requires
        EncryptMessage::Sealing(record, content).moves(reply, step),
        step matches Step::Ask(call, _) && call@ is Write,
    ensures
        reply matches HostReply::Bytes(Ok(encrypted)) && step->Ask_0@ == CallView::Write(
            crypto_store::outbound_path(record.room_id@),
            OutboundView {
                pickled_session: codec::base64_text(encrypted@),
                ..record@
            }.json(),
        ),
{
}

/// The event that is encrypted for a text reads back: it is the text of an object that has the text as
/// the body of its content.
pub proof fn inner_event_reads_back(room_id: Seq<char>, plaintext: Seq<char>) -> (tree: JsonTree)
    ensures
        inner_event_text(room_id, plaintext) == json_tree::written(tree),
        json_tree::fits(tree, 2),
        json_tree::leads_through_objects(tree, seq!["content"@, "body"@]),
        json_tree::text_in(tree, seq!["content"@, "body"@]) == Some(plaintext),
        json_tree::at(tree, seq!["type"@]) == Some(JsonTree::Str("m.room.message"@)),
        json_tree::at(tree, seq!["room_id"@]) == Some(JsonTree::Str(room_id)),
{
    reveal_strlit("msgtype");
    reveal_strlit("body");
    reveal_strlit("type");
    reveal_strlit("content");
    reveal_strlit("room_id");
    let inner = seq![
        ("msgtype"@, JsonTree::Str("m.text"@)),
        ("body"@, JsonTree::Str(plaintext)),
    ];
    json_tree::written_members_are(
        inner,
        seq![
            ("msgtype"@, json::string_text("m.text"@)),
            ("body"@, json::string_text(plaintext)),
        ],
    );
    assert(inner[0].0.len() == 7);
    assert(inner[1].0.len() == 4);
    let content = json_tree::sorted_object_is_written(inner);
    json_tree::member_is_found(inner, 1);
    json_tree::reordered_members_fit(content, inner, 0);
    let outer = seq![
        ("type"@, JsonTree::Str("m.room.message"@)),
        ("content"@, JsonTree::Object(content)),
        ("room_id"@, JsonTree::Str(room_id)),
    ];
    json_tree::written_members_are(
        outer,
        seq![
            ("type"@, json::string_text("m.room.message"@)),
            ("content"@, json_tree::written(JsonTree::Object(content))),
            ("room_id"@, json::string_text(room_id)),
        ],
    );
    assert(outer[0].0.len() == 4);
    assert(outer[1].0.len() == 7);
    assert(outer[2].0.len() == 7);
    assert(outer[1].0[0] != outer[2].0[0]);
    let event = json_tree::sorted_object_is_written(outer);
    json_tree::member_is_found(outer, 0);
    json_tree::member_is_found(outer, 1);
    json_tree::member_is_found(outer, 2);
    json_tree::reordered_members_fit(event, outer, 1);
    let tree = JsonTree::Object(event);
    json_tree::way_goes_on(event, "content"@, seq!["body"@]);
    json_tree::way_goes_on(content, "body"@, Seq::empty());
    json_tree::way_goes_on(event, "type"@, Seq::empty());
    json_tree::way_goes_on(event, "room_id"@, Seq::empty());
    assert(seq!["content"@] + seq!["body"@] =~= seq!["content"@, "body"@]);
    assert(seq!["body"@] + Seq::empty() =~= seq!["body"@]);
    assert(seq!["type"@] + Seq::empty() =~= seq!["type"@]);
    assert(seq!["room_id"@] + Seq::empty() =~= seq!["room_id"@]);
    tree
}

/// The content of an encrypted event reads back: it is the text of an object that has each field under
/// the field's name.
pub proof fn encrypted_event_reads_back(
    sender_key: Seq<char>,
    session_id: Seq<char>,
    device_id: Seq<char>,
    ciphertext: Seq<char>,
) -> (tree: JsonTree)
    ensures
        encrypted_event_text(sender_key, session_id, device_id, ciphertext) == json_tree::written(
            tree,
        ),
        json_tree::fits(tree, 1),
        json_tree::at(tree, seq!["algorithm"@]) == Some(JsonTree::Str("m.megolm.v1.aes-sha2"@)),
        json_tree::at(tree, seq!["sender_key"@]) == Some(JsonTree::Str(sender_key)),
        json_tree::at(tree, seq!["session_id"@]) == Some(JsonTree::Str(session_id)),
        json_tree::at(tree, seq!["device_id"@]) == Some(JsonTree::Str(device_id)),
        json_tree::at(tree, seq!["ciphertext"@]) == Some(JsonTree::Str(ciphertext)),
{
    reveal_strlit("algorithm");
    reveal_strlit("sender_key");
    reveal_strlit("session_id");
    reveal_strlit("device_id");
    reveal_strlit("ciphertext");
    let fields = seq![
        ("algorithm"@, JsonTree::Str("m.megolm.v1.aes-sha2"@)),
        ("sender_key"@, JsonTree::Str(sender_key)),
        ("session_id"@, JsonTree::Str(session_id)),
        ("device_id"@, JsonTree::Str(device_id)),
        ("ciphertext"@, JsonTree::Str(ciphertext)),
    ];
    json_tree::written_members_are(
        fields,
        seq![
            ("algorithm"@, json::string_text("m.megolm.v1.aes-sha2"@)),
            ("sender_key"@, json::string_text(sender_key)),
            ("session_id"@, json::string_text(session_id)),
            ("device_id"@, json::string_text(device_id)),
            ("ciphertext"@, json::string_text(ciphertext)),
        ],
    );
    assert(fields[0].0[2] == 'g');
    assert(fields[1].0[2] == 'n');
    assert(fields[2].0[2] == 's');
    assert(fields[3].0[2] == 'v');
    assert(fields[4].0[2] == 'p');
    assert forall|i: int, j: int| 0 <= i < j < fields.len() implies fields[i].0 != fields[j].0 by {
        assert(fields[i].0[2] != fields[j].0[2]);
    }
    let sorted = json_tree::sorted_object_is_written(fields);
    json_tree::reordered_members_fit(sorted, fields, 0);
    assert forall|i: int| 0 <= i < fields.len() implies json_tree::at(
        JsonTree::Object(sorted),
        seq![(#[trigger] fields[i]).0],
    ) == Some(fields[i].1) by {
        json_tree::member_is_found(fields, i);
        json_tree::way_goes_on(sorted, fields[i].0, Seq::empty());
        assert(seq![fields[i].0] + Seq::empty() =~= seq![fields[i].0]);
    }
    assert(fields[0].0 == "algorithm"@ && fields[1].0 == "sender_key"@ && fields[2].0
        == "session_id"@ && fields[3].0 == "device_id"@ && fields[4].0 == "ciphertext"@);
    JsonTree::Object(sorted)
}

/// Whether a session is a new one: at its first message, with a key that gives an inbound session that
/// reads it.
pub open spec fn is_new(session: Seq<u8>) -> bool {
    &&& megolm::outbound_index(session) == 0
    &&& megolm::inbound_of_key(megolm::outbound_key(session)) is Ok
    &&& megolm::is_inbound(megolm::inbound_of_key(megolm::outbound_key(session))->Ok_0)
    &&& megolm::inbound_reads(
        megolm::inbound_of_key(megolm::outbound_key(session))->Ok_0,
        session,
    )
}

/// Whether a session is the one that the host has decrypted.
pub open spec fn is_opened(session: Seq<u8>, call: CallView, reply: HostReply) -> bool {
    call is Decrypt && (reply matches HostReply::Bytes(Ok(bytes)) && megolm::outbound_pickle(bytes@)
        == Ok::<Seq<u8>, Seq<char>>(session))
}

/// Whether a session is one that an encryption works with, by the questions it asks and the answers it
/// gets: the stored one, or a new one whose inbound session is stored.
pub open spec fn is_used(
    session: Seq<u8>,
    calls: Seq<CallView>,
    replies: Seq<HostReply>,
) -> bool {
    ||| exists|i: int|
        0 <= i < calls.len() && #[trigger] is_opened(session, calls[i], replies[i])
    ||| is_new(session) && calls.contains(
        CallView::Encrypt(megolm::inbound_of_key(megolm::outbound_key(session))->Ok_0),
    )
}

/// Whether a content is that of an event with a text, encrypted with a session: who reads the session
/// recovers the event from it.
pub open spec fn is_sent_with(
    session: Seq<u8>,
    room_id: Seq<char>,
    plaintext: Seq<char>,
    content: Seq<char>,
) -> bool {
    exists|sender_key: Seq<char>, session_id: Seq<char>, device_id: Seq<char>, ciphertext: Seq<char>|
        content == #[trigger] encrypted_event_text(sender_key, session_id, device_id, ciphertext)
            && (forall|inbound: Seq<u8>| #[trigger]
            megolm::inbound_reads(inbound, session) ==> megolm::decrypts_to(
                inbound,
                ciphertext,
                inner_event_text(room_id, plaintext),
                megolm::outbound_index(session),
            ))
}

/// Whether a content is that of an event with a text, encrypted with one of these sessions.
pub open spec fn is_sent(
    sessions: Set<Seq<u8>>,
    room_id: Seq<char>,
    plaintext: Seq<char>,
    content: Seq<char>,
) -> bool {
    exists|session: Seq<u8>|
        sessions.contains(session) && #[trigger] is_sent_with(session, room_id, plaintext, content)
}

impl EncryptMessage {
    /// What the flow does from an answer.
    pub open spec fn rule() -> host::Rule<EncryptMessage, Result<String, String>> {
        |flow: EncryptMessage, reply: HostReply, step: EncryptStep| flow.moves(reply, step)
    }

    /// Whether the flow is on the way to encrypt this text for this room, with one of these sessions.
    pub open spec fn is_for(
        self,
        room_id: Seq<char>,
        plaintext: Seq<char>,
        sessions: Set<Seq<u8>>,
    ) -> bool {
        match self {
            EncryptMessage::Starting(d) => d.room_id@ == room_id && d.plaintext@ == plaintext,
            EncryptMessage::Loading(d, _) => d.room_id@ == room_id && d.plaintext@ == plaintext,
            EncryptMessage::Choosing(d, _, _) => d.room_id@ == room_id && d.plaintext@ == plaintext,
            EncryptMessage::Opening(d, _, _) => d.room_id@ == room_id && d.plaintext@ == plaintext,
            EncryptMessage::SealingInbound(d, _, _, session, _, _) => d.room_id@ == room_id
                && d.plaintext@ == plaintext && sessions.contains(session@),
            EncryptMessage::WritingInbound(d, _, _, session, _, _) => d.room_id@ == room_id
                && d.plaintext@ == plaintext && sessions.contains(session@),
            EncryptMessage::Sharing(d, _, _, session, _, _) => d.room_id@ == room_id
                && d.plaintext@ == plaintext && sessions.contains(session@),
            EncryptMessage::Sealing(_, content) => is_sent(
                sessions,
                room_id,
                plaintext,
                content@,
            ),
            EncryptMessage::Writing(content) => is_sent(sessions, room_id, plaintext, content@),
        }
    }

    /// Whether a step is one of an encryption of this text for this room, with one of these sessions.
    pub open spec fn step_is_for(
        step: EncryptStep,
        room_id: Seq<char>,
        plaintext: Seq<char>,
        sessions: Set<Seq<u8>>,
    ) -> bool {
        match step {
            Step::Ask(call, flow) => flow.is_for(room_id, plaintext, sessions) && (flow is Opening
                ==> call@ is Decrypt),
            Step::Done(Ok(content)) => is_sent(sessions, room_id, plaintext, content@),
            _ => true,
        }
    }
}

proof fn encrypting_sends_the_text(
    draft: Draft,
    account: StoredAccount,
    session: Seq<u8>,
    record: OutboundView,
    step: EncryptStep,
    sessions: Set<Seq<u8>>,
)
    requires
        EncryptMessage::encrypts(draft, account, session, record, step),
        sessions.contains(session),
    ensures
        EncryptMessage::step_is_for(step, draft.room_id@, draft.plaintext@, sessions),
{
    if megolm::outbound_index(session) != u32::MAX {
        let (after, ciphertext) = megolm::outbound_encryption(
            session,
            inner_event_text(draft.room_id@, draft.plaintext@),
        );
        let content = encrypted_event_text(
            account.curve25519_key@,
            record.session_id,
            account.device_id@,
            ciphertext,
        );
        assert(is_sent_with(session, draft.room_id@, draft.plaintext@, content));
    }
}

proof fn encryption_goes_on(
    flow: EncryptMessage,
    reply: HostReply,
    step: EncryptStep,
    room_id: Seq<char>,
    plaintext: Seq<char>,
    sessions: Set<Seq<u8>>,
)
    requires
        flow.moves(reply, step),
        flow.is_for(room_id, plaintext, sessions),
        flow is Opening ==> (reply matches HostReply::Bytes(Ok(bytes)) ==> (
        megolm::outbound_pickle(bytes@) matches Ok(session) ==> sessions.contains(session))),
        flow is Choosing ==> (step matches Step::Ask(
            _,
            EncryptMessage::SealingInbound(_, _, _, session, _, _),
        ) ==> sessions.contains(session@)),
    ensures
        EncryptMessage::step_is_for(step, room_id, plaintext, sessions),
{
    match flow {
        EncryptMessage::Sharing(draft, now, account, session, id, sharing) => {
            let record = OutboundView {
                room_id: draft.room_id@,
                session_id: id@,
                pickled_session: Seq::empty(),
                message_count: 1,
                created_ts: now,
            };
            let inner = choose|inner: ShareStep|
                #![trigger sharing.moves(reply, inner)]
                sharing.moves(reply, inner) && inner.passes_to(
                    step,
                    |s: ShareRoomKey| EncryptMessage::Sharing(draft, now, account, session, id, s),
                ) && match inner {
                    Step::Done(Err(e)) => step.gives(Err(e)),
                    Step::Done(Ok(_)) => EncryptMessage::encrypts(
                        draft,
                        account,
                        session@,
                        record,
                        step,
                    ),
                    _ => true,
                };
            if inner matches Step::Done(Ok(_)) {
                encrypting_sends_the_text(draft, account, session@, record, step, sessions);
            }
        },
        EncryptMessage::Opening(draft, account, record) => {
            if let HostReply::Bytes(Ok(bytes)) = reply {
                if let Ok(session) = megolm::outbound_pickle(bytes@) {
                    encrypting_sends_the_text(draft, account, session, record@, step, sessions);
                }
            }
        },
        _ => {},
    }
}

proof fn run_encrypts_the_text(
    first: EncryptStep,
    calls: Seq<CallView>,
    replies: Seq<HostReply>,
    content: String,
    room_id: Seq<char>,
    plaintext: Seq<char>,
    sessions: Set<Seq<u8>>,
)
    requires
        host::runs(EncryptMessage::rule(), first, calls, replies, Step::Done(Ok(content))),
        EncryptMessage::step_is_for(first, room_id, plaintext, sessions),
        forall|session: Seq<u8>| #[trigger]
            is_used(session, calls, replies) ==> sessions.contains(session),
    ensures
        is_sent(sessions, room_id, plaintext, content@),
    decreases replies.len(),
{
    let last: EncryptStep = Step::Done(Ok(content));
    if first != last {
        let next = host::run_goes_on(EncryptMessage::rule(), first, calls, replies, last);
        let flow = first->Ask_1;
        if let (EncryptMessage::Opening(_, _, _), HostReply::Bytes(Ok(bytes))) = (flow, replies[0]) {
            if let Ok(session) = megolm::outbound_pickle(bytes@) {
                assert(is_opened(session, calls[0], replies[0]));
                assert(is_used(session, calls, replies));
            }
        }
        if let (
            EncryptMessage::Choosing(_, _, _),
            Step::Ask(call, EncryptMessage::SealingInbound(_, _, _, session, key, _)),
        ) = (flow, next) {
            let _ = host::run_goes_on(
                EncryptMessage::rule(),
                next,
                calls.skip(1),
                replies.skip(1),
                last,
            );
            assert(calls[1] == calls.skip(1)[0]);
            assert(is_new(session@));
            assert(is_used(session@, calls, replies));
        }
        encryption_goes_on(flow, replies[0], next, room_id, plaintext, sessions);
        assert forall|session: Seq<u8>| #[trigger]
            is_used(session, calls.skip(1), replies.skip(1)) implies sessions.contains(
            session,
        ) by {
            if exists|i: int|
                0 <= i < calls.skip(1).len() && #[trigger] is_opened(
                    session,
                    calls.skip(1)[i],
                    replies.skip(1)[i],
                ) {
                let i = choose|i: int|
                    0 <= i < calls.skip(1).len() && #[trigger] is_opened(
                        session,
                        calls.skip(1)[i],
                        replies.skip(1)[i],
                    );
                assert(is_opened(session, calls[i + 1], replies[i + 1]));
            } else {
                let sealed = CallView::Encrypt(
                    megolm::inbound_of_key(megolm::outbound_key(session))->Ok_0,
                );
                let i = choose|i: int| 0 <= i < calls.skip(1).len() && calls.skip(1)[i] == sealed;
                assert(calls[i + 1] == sealed);
            }
            assert(is_used(session, calls, replies));
        }
        run_encrypts_the_text(
            next,
            calls.skip(1),
            replies.skip(1),
            content,
            room_id,
            plaintext,
            sessions,
        );
    }
}

/// A whole encryption that succeeds gives an event from which everyone who reads the session that it
/// used recovers the text.
pub proof fn encryption_can_be_read(
    flow: EncryptMessage,
    call: HostCall,
    homeserver_url: Seq<char>,
    room_id: Seq<char>,
    plaintext: Seq<char>,
    txn: u64,
    calls: Seq<CallView>,
    replies: Seq<HostReply>,
    content: String,
) -> (session: Seq<u8>)
    requires
        flow.begins(call, homeserver_url, room_id, plaintext, txn),
        host::runs(
            EncryptMessage::rule(),
            Step::Ask(call, flow),
            calls,
            replies,
            Step::Done(Ok(content)),
        ),
    ensures
        is_used(session, calls, replies),
        is_sent_with(session, room_id, plaintext, content@),
{
    let sessions = Set::new(|session: Seq<u8>| is_used(session, calls, replies));
    run_encrypts_the_text(
        Step::Ask(call, flow),
        calls,
        replies,
        content,
        room_id,
        plaintext,
        sessions,
    );
    choose|session: Seq<u8>|
        sessions.contains(session) && #[trigger] is_sent_with(
            session,
            room_id,
            plaintext,
            content@,
        )
}

impl ShareRoomKey {
    /// The counter that the flow has left for the room key.
    pub open spec fn counter_left(self) -> Option<u64> {
        match self {
            ShareRoomKey::Listing(share) => Some(share.txn),
            ShareRoomKey::Querying(share) => Some(share.txn),
            ShareRoomKey::Finding(p, _) => Some(p.share.txn),
            ShareRoomKey::Skipping(p) => Some(p.share.txn),
            ShareRoomKey::Sealing(p, _, _) => Some(p.share.txn),
            ShareRoomKey::Stamping(p, _, _, _) => Some(p.share.txn),
            ShareRoomKey::Saving(p, _, _) => Some(p.share.txn),
            ShareRoomKey::Naming(share, _) => Some(share.txn),
            ShareRoomKey::Sending => None,
        }
    }
}

impl EncryptMessage {
    /// The counter that the flow has left for a room key.
    pub open spec fn counter_left(self) -> Option<u64> {
        match self {
            EncryptMessage::Starting(d) => Some(d.txn),
            EncryptMessage::Loading(d, _) => Some(d.txn),
            EncryptMessage::Choosing(d, _, _) => Some(d.txn),
            EncryptMessage::SealingInbound(d, _, _, _, _, _) => Some(d.txn),
            EncryptMessage::WritingInbound(d, _, _, _, _, _) => Some(d.txn),
            EncryptMessage::Sharing(_, _, _, _, _, sharing) => sharing.counter_left(),
            _ => None,
        }
    }
}

proof fn turning_spends_nothing(
    share: Share,
    user_id: Seq<char>,
    devices: Seq<(String, DeviceKeys)>,
    users: Seq<(String, Vec<(String, DeviceKeys)>)>,
    messages: MessagesView,
    step: ShareStep,
)
    requires
        ShareRoomKey::proceeds(share, user_id, devices, users, messages, step),
    ensures
        step matches Step::Ask(call, next) ==> !client::sends(call@) && next.counter_left() == Some(
            share.txn,
        ),
    decreases users.len(), devices.len(),
{
    if devices.len() > 0 {
        if user_id == share.sender.user_id@ {
            turning_spends_nothing(share, user_id, devices.skip(1), users, messages, step);
        }
    } else if users.len() > 0 {
        turning_spends_nothing(share, users[0].0@, users[0].1@, users.skip(1), messages, step);
    }
}

proof fn finding_sends_nothing(flow: GetOlmSession, reply: HostReply, step: GetOlmStep)
    requires
        flow.moves(reply, step),
    ensures
        step matches Step::Ask(call, _) ==> !client::sends(call@),
{
    if let GetOlmSession::Saving(_, _, save) = flow {
        assert forall|inner: crypto_store::SaveOlmStep| save.moves(reply, inner) implies (
        inner matches Step::Ask(call, _) ==> !client::sends(call@)) by {}
    }
}

proof fn sharing_spends_its_counter(flow: ShareRoomKey, reply: HostReply, step: ShareStep)
    requires
        flow.moves(reply, step),
    ensures
        step matches Step::Ask(call, next) ==> client::spends(
            flow.counter_left(),
            call@,
            next.counter_left(),
        ),
{
    match flow {
        ShareRoomKey::Querying(share) => {
            if let HostReply::KeysQuery(response) = reply {
                if let Ok(found) = client::accepted(
                    response,
                    "keys/query"@,
                    "keys/query response"@,
                ) {
                    turning_spends_nothing(
                        share,
                        Seq::empty(),
                        Seq::empty(),
                        found.device_keys@,
                        Seq::empty(),
                        step,
                    );
                }
            }
        },
        ShareRoomKey::Finding(p, find) => {
            assert forall|inner: GetOlmStep| find.moves(reply, inner) implies (
            inner matches Step::Ask(call, _) ==> !client::sends(call@)) by {
                finding_sends_nothing(find, reply, inner);
            }
        },
        ShareRoomKey::Skipping(p) => {
            if reply is Finished {
                turning_spends_nothing(
                    p.share,
                    p.user_id@,
                    p.devices@,
                    p.users@,
                    p.messages@,
                    step,
                );
            }
        },
        ShareRoomKey::Saving(p, content, save) => {
            let messages = with_message(p.messages@, p.user_id@, p.device_id@, content@);
            let inner = choose|inner: crypto_store::SaveOlmStep|
                #![trigger save.moves(reply, inner)]
                save.moves(reply, inner) && inner.passes_to(
                    step,
                    |s: SaveOlm| ShareRoomKey::Saving(p, content, s),
                ) && match inner {
                    Step::Done(Err(e)) => step.gives(Err(e)),
                    Step::Done(Ok(_)) => ShareRoomKey::goes_on(p, messages, step),
                    _ => true,
                };
            if inner matches Step::Done(Ok(_)) {
                turning_spends_nothing(
                    p.share,
                    p.user_id@,
                    p.devices@,
                    p.users@,
                    messages,
                    step,
                );
            }
        },
        ShareRoomKey::Naming(share, messages) => {
            if let HostReply::Time(now) = reply {
                let id = client::txn_id_text(now, share.txn);
                let request = client::to_device_request(
                    share.homeserver_url@,
                    "m.room.encrypted"@,
                    id,
                    encode_utf8(messages_text(messages@)),
                );
                assert(client::bears_id(CallView::Http(request), id));
                assert(client::bears(CallView::Http(request), share.txn));
            }
        },
        _ => {},
    }
}

/// What an encryption sends, which is a room key at most, bears the counter that it was given, once.
pub proof fn encryption_spends_its_counter(
    flow: EncryptMessage,
    reply: HostReply,
    step: EncryptStep,
)
    requires
        flow.moves(reply, step),
    ensures
        step matches Step::Ask(call, next) ==> client::spends(
            flow.counter_left(),
            call@,
            next.counter_left(),
        ),
{
    if let EncryptMessage::Sharing(draft, now, account, session, id, sharing) = flow {
        assert forall|inner: ShareStep| sharing.moves(reply, inner) implies (inner matches Step::Ask(
            call,
            next,
        ) ==> client::spends(sharing.counter_left(), call@, next.counter_left())) by {
            sharing_spends_its_counter(sharing, reply, inner);
        }
    }
}

/// Whether a content is that of an event with a text, encrypted with a session under an ID: who reads
/// the session recovers the event from it.
pub open spec fn is_sent_as(
    session: Seq<u8>,
    session_id: Seq<char>,
    room_id: Seq<char>,
    plaintext: Seq<char>,
    content: Seq<char>,
) -> bool {
    exists|sender_key: Seq<char>, device_id: Seq<char>, ciphertext: Seq<char>|
        content == #[trigger] encrypted_event_text(sender_key, session_id, device_id, ciphertext)
            && (forall|inbound: Seq<u8>| #[trigger]
            megolm::inbound_reads(inbound, session) ==> megolm::decrypts_to(
                inbound,
                ciphertext,
                inner_event_text(room_id, plaintext),
                megolm::outbound_index(session),
            ))
}

impl EncryptMessage {
    /// Whether the flow is on the way to encrypt this text for this room with this session, which it has
    /// made, under this ID.
    pub open spec fn is_with(
        self,
        room_id: Seq<char>,
        plaintext: Seq<char>,
        session: Seq<u8>,
        session_id: Seq<char>,
    ) -> bool {
        match self {
            EncryptMessage::WritingInbound(d, _, _, s, _, id) => d.room_id@ == room_id
                && d.plaintext@ == plaintext && s@ == session && id@ == session_id,
            EncryptMessage::Sharing(d, _, _, s, id, _) => d.room_id@ == room_id && d.plaintext@
                == plaintext && s@ == session && id@ == session_id,
            EncryptMessage::Sealing(_, content) => is_sent_as(
                session,
                session_id,
                room_id,
                plaintext,
                content@,
            ),
            EncryptMessage::Writing(content) => is_sent_as(
                session,
                session_id,
                room_id,
                plaintext,
                content@,
            ),
            _ => false,
        }
    }

    /// Whether a step is one of an encryption of this text for this room with this session.
    pub open spec fn step_is_with(
        step: EncryptStep,
        room_id: Seq<char>,
        plaintext: Seq<char>,
        session: Seq<u8>,
        session_id: Seq<char>,
    ) -> bool {
        match step {
            Step::Ask(_, flow) => flow.is_with(room_id, plaintext, session, session_id),
            Step::Done(Ok(content)) => is_sent_as(
                session,
                session_id,
                room_id,
                plaintext,
                content@,
            ),
            _ => true,
        }
    }
}

proof fn new_session_goes_on(
    flow: EncryptMessage,
    reply: HostReply,
    step: EncryptStep,
    room_id: Seq<char>,
    plaintext: Seq<char>,
    session: Seq<u8>,
    session_id: Seq<char>,
)
    requires
        flow.moves(reply, step),
        flow.is_with(room_id, plaintext, session, session_id),
    ensures
        EncryptMessage::step_is_with(step, room_id, plaintext, session, session_id),
{
    if let EncryptMessage::Sharing(draft, now, account, s, id, sharing) = flow {
        let record = OutboundView {
            room_id: draft.room_id@,
            session_id: id@,
            pickled_session: Seq::empty(),
            message_count: 1,
            created_ts: now,
        };
        let inner = choose|inner: ShareStep|
            #![trigger sharing.moves(reply, inner)]
            sharing.moves(reply, inner) && inner.passes_to(
                step,
                |f: ShareRoomKey| EncryptMessage::Sharing(draft, now, account, s, id, f),
            ) && match inner {
                Step::Done(Err(e)) => step.gives(Err(e)),
                Step::Done(Ok(_)) => EncryptMessage::encrypts(draft, account, s@, record, step),
                _ => true,
            };
        if inner matches Step::Done(Ok(_)) {
            if megolm::outbound_index(session) != u32::MAX {
                let (after, ciphertext) = megolm::outbound_encryption(
                    session,
                    inner_event_text(room_id, plaintext),
                );
                let content = encrypted_event_text(
                    account.curve25519_key@,
                    session_id,
                    account.device_id@,
                    ciphertext,
                );
                assert(is_sent_as(session, session_id, room_id, plaintext, content));
            }
        }
    }
}

proof fn new_session_runs(
    first: EncryptStep,
    calls: Seq<CallView>,
    replies: Seq<HostReply>,
    content: String,
    room_id: Seq<char>,
    plaintext: Seq<char>,
    session: Seq<u8>,
    session_id: Seq<char>,
)
    requires
        host::runs(EncryptMessage::rule(), first, calls, replies, Step::Done(Ok(content))),
        EncryptMessage::step_is_with(first, room_id, plaintext, session, session_id),
    ensures
        is_sent_as(session, session_id, room_id, plaintext, content@),
    decreases replies.len(),
{
    let last: EncryptStep = Step::Done(Ok(content));
    if first != last {
        let next = host::run_goes_on(EncryptMessage::rule(), first, calls, replies, last);
        new_session_goes_on(
            first->Ask_1,
            replies[0],
            next,
            room_id,
            plaintext,
            session,
            session_id,
        );
        new_session_runs(
            next,
            calls.skip(1),
            replies.skip(1),
            content,
            room_id,
            plaintext,
            session,
            session_id,
        );
    }
}

/// A message that is encrypted with a session of its own making can be read by ourselves: the inbound
/// session that reads it is written, with no index seen, once the host has encrypted its pickle.
pub proof fn new_session_is_kept(
    flow: EncryptMessage,
    call: HostCall,
    homeserver_url: Seq<char>,
    room_id: Seq<char>,
    plaintext: Seq<char>,
    txn: u64,
    calls: Seq<CallView>,
    replies: Seq<HostReply>,
    content: String,
) -> (r: (Seq<u8>, InboundView))
    requires
        flow.begins(call, homeserver_url, room_id, plaintext, txn),
        host::runs(
            EncryptMessage::rule(),
            Step::Ask(call, flow),
            calls,
            replies,
            Step::Done(Ok(content)),
        ),
        calls.len() > 3,
        calls[3] is Encrypt,
    ensures
        is_new(r.0),
        is_sent_as(r.0, r.1.session_id, room_id, plaintext, content@),
        r.1.room_id == room_id,
        r.1.seen_indices == Seq::<u32>::empty(),
        calls.len() == replies.len() > 4,
        calls[3] == CallView::Encrypt(megolm::inbound_of_key(megolm::outbound_key(r.0))->Ok_0),
        replies[3] matches HostReply::Bytes(Ok(sealed)) && crypto_store::unsealed_bytes(
            r.1.pickled_session,
        ) == Ok::<Seq<u8>, Seq<char>>(sealed@),
        calls[4] == CallView::Write(
            crypto_store::inbound_path(room_id, r.1.session_id),
            r.1.json(),
        ),
{
    let rule = EncryptMessage::rule();
    let last: EncryptStep = Step::Done(Ok(content));
    let first: EncryptStep = Step::Ask(call, flow);
    let s1 = host::run_goes_on(rule, first, calls, replies, last);
    let (c1, r1) = (calls.skip(1), replies.skip(1));
    assert(s1 is Ask) by {
        if !(s1 is Ask) {
            host::run_is_over(rule, s1, c1, r1, last);
        }
    }
    let s2 = host::run_goes_on(rule, s1, c1, r1, last);
    let (c2, r2) = (c1.skip(1), r1.skip(1));
    assert(s2 is Ask) by {
        if !(s2 is Ask) {
            host::run_is_over(rule, s2, c2, r2, last);
        }
    }
    let s3 = host::run_goes_on(rule, s2, c2, r2, last);
    let (c3, r3) = (c2.skip(1), r2.skip(1));
    assert(s3 is Ask) by {
        if !(s3 is Ask) {
            host::run_is_over(rule, s3, c3, r3, last);
        }
    }
    assert(c3[0] == calls[3]);
    let s4 = host::run_goes_on(rule, s3, c3, r3, last);
    assert(r3[0] == replies[3]);
    let (session, record) = match s3 {
        Step::Ask(_, EncryptMessage::SealingInbound(_, _, _, session, _, record)) => (
            session@,
            record@,
        ),
        _ => arbitrary(),
    };
    let (c4, r4) = (c3.skip(1), r3.skip(1));
    assert(s4 is Ask) by {
        if !(s4 is Ask) {
            host::run_is_over(rule, s4, c4, r4, last);
        }
    }
    let pickled_session = crypto_store::sealed_pickle(replies[3]->Bytes_0)->Ok_0;
    let kept = InboundView { pickled_session, ..record };
    let _ = host::run_goes_on(rule, s4, c4, r4, last);
    assert(c4[0] == calls[4]);
    new_session_runs(s4, c4, r4, content, room_id, plaintext, session, record.session_id);
    (session, kept)
}

/// A room key that is sent to a device with a new Olm session is opened by the device: the account that
/// has its identity key and holds the one-time key that was claimed decrypts the message to the payload.
pub proof fn room_key_is_opened(
    target: Target,
    key: CurveKey,
    decrypted: Vec<u8>,
    call: HostCall,
    session: OlmSession,
    pending: Pending,
    replaced: String,
    next_call: HostCall,
    content: String,
    other: Seq<u8>,
) -> (body: Seq<char>)
    requires
        GetOlmSession::Unsealing(target, key).moves(
            HostReply::Bytes(Ok(decrypted)),
            Step::Ask(call, GetOlmSession::Sealing(target, session)),
        ),
        ShareRoomKey::found(
            pending,
            session@,
            replaced,
            Step::Ask(next_call, ShareRoomKey::Sealing(pending, replaced, content)),
        ),
        olm::is_account(other),
        olm::curve25519_of(other) == target.key@,
        olm::held_keys(other).count(key@) > 0,
    ensures
        types::lookup(pending.keys@, "ed25519:"@ + pending.device_id@) is Some,
        content@ == olm_event_text(
            pending.share.sender.curve25519_key@,
            pending.curve_key@,
            0,
            body,
        ),
        olm::opens(
            other,
            olm::curve25519_of(olm::account_pickle(decrypted@)->Ok_0),
            body,
            room_key_payload(
                pending.share,
                pending.user_id@,
                types::lookup(pending.keys@, "ed25519:"@ + pending.device_id@)->0@,
            ),
        ),
{
    let account = olm::account_pickle(decrypted@)->Ok_0;
    let their = types::lookup(pending.keys@, "ed25519:"@ + pending.device_id@)->0;
    let payload = room_key_payload(pending.share, pending.user_id@, their@);
    let step: ShareStep = Step::Ask(
        next_call,
        ShareRoomKey::Sealing(pending, replaced, content),
    );
    let (after, kind, body) = choose|after: OlmSession, kind: u64, body: String|
        #![trigger olm::olm_encrypts(session@, payload, after@, kind, body@)]
        olm::olm_encrypts(session@, payload, after@, kind, body@) && olm::first_is_opened(
            session@,
            payload,
            kind,
            body@,
        ) && ShareRoomKey::encrypted(pending, after, replaced, kind, body@, step);
    assert(olm::reaches(account, target.key@, key@, session@));
    assert(olm::starts_with(session@, other, olm::curve25519_of(account)));
    body@
}

impl GetOlmSession {
    /// What the flow does from an answer.
    pub open spec fn rule() -> host::Rule<GetOlmSession, Result<(OlmSession, String), String>> {
        |flow: GetOlmSession, reply: HostReply, step: GetOlmStep| flow.moves(reply, step)
    }
}

/// Whether a session with a device is the first of those that are stored, opened.
pub open spec fn is_stored_session(
    session: Seq<u8>,
    pickled: Seq<char>,
    calls: Seq<CallView>,
    replies: Seq<HostReply>,
) -> bool {
    &&& calls.len() == replies.len() == 2
    &&& (replies[0] matches HostReply::OlmSessions(stored) && stored@.len() > 0
        && stored@[0].pickled_session@ == pickled)
    &&& (calls[1] matches CallView::Decrypt(bytes) && crypto_store::unsealed_bytes(pickled) == Ok::<
        Seq<u8>,
        Seq<char>,
    >(bytes))
    &&& (replies[1] matches HostReply::Bytes(Ok(opened)) && olm::olm_pickle(opened@) == Ok::<
        Seq<u8>,
        Seq<char>,
    >(session))
}

/// Whether a session with a device is a new one, made by our account for the identity key of the device
/// with a one-time key that was claimed from it, and saved.
pub open spec fn is_made_session(
    session: Seq<u8>,
    homeserver_url: Seq<char>,
    key: Seq<char>,
    user_id: Seq<char>,
    device_id: Seq<char>,
    calls: Seq<CallView>,
    replies: Seq<HostReply>,
) -> bool {
    &&& calls.len() == replies.len() >= 8
    &&& (replies[0] matches HostReply::OlmSessions(stored) && stored@.len() == 0)
    &&& calls[1] == CallView::KeysClaim(
        client::keys_claim_request(homeserver_url, encode_utf8(claim_text(user_id, device_id))),
    )
    &&& replies[1] matches HostReply::KeysClaim(response)
    &&& client::accepted(response, "keys/claim"@, "keys/claim response"@) matches Ok(claimed)
    &&& claimed_key(claimed, user_id, device_id) matches Ok(one_time_key)
    &&& calls[2] == CallView::ReadAccount("crypto/account.json"@)
    &&& calls[3] is Decrypt
    &&& replies[3] matches HostReply::Bytes(Ok(opened))
    &&& olm::account_pickle(opened@) matches Ok(account)
    &&& olm::outbound_creation(account, key, one_time_key, session)
    &&& olm::reaches(account, key, one_time_key, session)
    &&& crypto_store::session_is_saved(calls, replies, key, session, None)
}

/// The search for a session with a device gives the first that is stored, or where there is none, a new
/// one, which is saved: so it is found the next time.
pub proof fn olm_session_is_found_or_made(
    flow: GetOlmSession,
    call: HostCall,
    target: Target,
    calls: Seq<CallView>,
    replies: Seq<HostReply>,
    session: OlmSession,
    pickled: String,
)
    requires
        flow.begins(call, target),
        host::runs(
            GetOlmSession::rule(),
            Step::Ask(call, flow),
            calls,
            replies,
            Step::Done(Ok((session, pickled))),
        ),
    ensures
        calls.len() > 0,
        calls[0] == CallView::ReadOlmSessions(crypto_store::olm_sessions_path(target.key@)),
        is_stored_session(session@, pickled@, calls, replies) || is_made_session(
            session@,
            target.homeserver_url@,
            target.key@,
            target.user_id@,
            target.device_id@,
            calls,
            replies,
        ),
{
    let rule = GetOlmSession::rule();
    let last: GetOlmStep = Step::Done(Ok((session, pickled)));
    let s1 = host::run_goes_on(rule, Step::Ask(call, flow), calls, replies, last);
    let (c1, r1) = (calls.skip(1), replies.skip(1));
    if !(s1 is Ask) {
        host::run_is_over(rule, s1, c1, r1, last);
    }
    let s2 = host::run_goes_on(rule, s1, c1, r1, last);
    let (c2, r2) = (c1.skip(1), r1.skip(1));
    assert(c1[0] == calls[1] && r1[0] == replies[1]);
    if s1 matches Step::Ask(_, GetOlmSession::Opening(_)) {
        host::run_is_over(rule, s2, c2, r2, last);
    } else {
        if !(s2 is Ask) {
            host::run_is_over(rule, s2, c2, r2, last);
        }
        assert(s2 matches Step::Ask(_, GetOlmSession::Loading(_, _)));
        let s3 = host::run_goes_on(rule, s2, c2, r2, last);
        let (c3, r3) = (c2.skip(1), r2.skip(1));
        assert(c2[0] == calls[2] && r2[0] == replies[2]);
        if !(s3 is Ask) {
            host::run_is_over(rule, s3, c3, r3, last);
        }
        assert(s3 matches Step::Ask(_, GetOlmSession::Unsealing(_, _)));
        let s4 = host::run_goes_on(rule, s3, c3, r3, last);
        let (c4, r4) = (c3.skip(1), r3.skip(1));
        assert(c3[0] == calls[3] && r3[0] == replies[3]);
        if !(s4 is Ask) {
            host::run_is_over(rule, s4, c4, r4, last);
        }
        let made = match s4 {
            Step::Ask(_, GetOlmSession::Sealing(_, made)) => made,
            _ => arbitrary(),
        };
        assert(s4 matches Step::Ask(asked, GetOlmSession::Sealing(t, _)) && asked@
            == CallView::Encrypt(made@) && t == target);
        assert(c4 =~= calls.skip(4) && r4 =~= replies.skip(4));
        made_session_is_saved(target, made, s4->Ask_0, c4, r4, session, pickled);
        assert(c4[0] == calls[4] && r4[0] == replies[4]);
        saved_in_more(calls, replies, 4, target.key@, session@, None);
    }
}

/// A session that is saved by the later questions is saved by all of them.
pub proof fn saved_in_more(
    calls: Seq<CallView>,
    replies: Seq<HostReply>,
    n: int,
    key: Seq<char>,
    session: Seq<u8>,
    replaced: Option<Seq<char>>,
)
    requires
        0 <= n <= calls.len(),
        calls.len() == replies.len(),
        crypto_store::session_is_saved(calls.skip(n), replies.skip(n), key, session, replaced),
    ensures
        crypto_store::session_is_saved(calls, replies, key, session, replaced),
{
    let (cn, rn) = (calls.skip(n), replies.skip(n));
    let (sealed_at, stored, record) = choose|
        sealed_at: int,
        stored: Seq<StoredOlmSession>,
        record: StoredOlmSession,
    |
        #![trigger cn[sealed_at], crypto_store::saves_record(cn, rn, key, stored, record, replaced)]
        {
            &&& 0 <= sealed_at < cn.len()
            &&& cn[sealed_at] == CallView::Encrypt(session)
            &&& (rn[sealed_at] matches HostReply::Bytes(Ok(sealed)) && crypto_store::unsealed_bytes(
                record.pickled_session@,
            ) == Ok::<Seq<u8>, Seq<char>>(sealed@))
            &&& crypto_store::saves_record(cn, rn, key, stored, record, replaced)
        };
    let m = cn.len() as int;
    assert(cn[m - 2] == calls[n + m - 2] && cn[m - 1] == calls[n + m - 1]);
    assert(rn[m - 2] == replies[n + m - 2] && rn[m - 1] == replies[n + m - 1]);
    assert(crypto_store::saves_record(calls, replies, key, stored, record, replaced));
    assert(calls[n + sealed_at] == cn[sealed_at]);
    assert(replies[n + sealed_at] == rn[sealed_at]);
}

proof fn made_session_is_saved(
    target: Target,
    made: OlmSession,
    call: HostCall,
    calls: Seq<CallView>,
    replies: Seq<HostReply>,
    session: OlmSession,
    pickled: String,
)
    requires
        call@ == CallView::Encrypt(made@),
        host::runs(
            GetOlmSession::rule(),
            Step::Ask(call, GetOlmSession::Sealing(target, made)),
            calls,
            replies,
            Step::Done(Ok((session, pickled))),
        ),
    ensures
        session == made,
        calls.len() == replies.len() == 4,
        crypto_store::session_is_saved(calls, replies, target.key@, session@, None),
{
    let rule = GetOlmSession::rule();
    let last: GetOlmStep = Step::Done(Ok((session, pickled)));
    let first: GetOlmStep = Step::Ask(call, GetOlmSession::Sealing(target, made));
    let s1 = host::run_goes_on(rule, first, calls, replies, last);
    let (c1, r1) = (calls.skip(1), replies.skip(1));
    if !(s1 is Ask) {
        host::run_is_over(rule, s1, c1, r1, last);
    }
    let sealed = match s1 {
        Step::Ask(_, GetOlmSession::Stamping(_, _, sealed)) => sealed,
        _ => arbitrary(),
    };
    assert(s1 matches Step::Ask(_, GetOlmSession::Stamping(_, _, _)));
    let s2 = host::run_goes_on(rule, s1, c1, r1, last);
    let (c2, r2) = (c1.skip(1), r1.skip(1));
    if !(s2 is Ask) {
        host::run_is_over(rule, s2, c2, r2, last);
    }
    let now = r1[0]->Time_0;
    if let Step::Ask(save_call, GetOlmSession::Saving(_, _, save)) = s2 {
        let inner_rule = SaveOlm::rule();
        let whole = |f: SaveOlm| GetOlmSession::Saving(made, sealed, f);
        let after = |result: Result<(), String>, step: GetOlmStep|
            match result {
                Ok(_) => step.gives(Ok((made, sealed))),
                Err(e) => step.gives(Err(e)),
            };
        assert forall|flow: SaveOlm, reply: HostReply, step: GetOlmStep| #[trigger]
            host::goes(rule, whole(flow), reply, step) implies host::passes_on(
            inner_rule,
            whole,
            after,
            flow,
            reply,
            step,
        ) by {
            let inner = choose|inner: crypto_store::SaveOlmStep|
                #![trigger flow.moves(reply, inner)]
                flow.moves(reply, inner) && inner.passes_to(
                    step,
                    |f: SaveOlm| GetOlmSession::Saving(made, sealed, f),
                ) && match inner {
                    Step::Done(Ok(_)) => step.gives(Ok((made, sealed))),
                    Step::Done(Err(e)) => step.gives(Err(e)),
                    _ => true,
                };
            assert(host::goes(inner_rule, flow, reply, inner));
            assert(inner matches Step::Done(result) ==> after(result, step));
        }
        let (k, result, step) = host::inner_run_ends(
            inner_rule,
            rule,
            whole,
            after,
            save_call,
            save,
            c2,
            r2,
            last,
        );
        host::run_is_over(rule, step, c2.skip(k), r2.skip(k), last);
        assert(c2.take(k) =~= c2 && r2.take(k) =~= r2);
        assert(result is Ok);
        assert(result->Ok_0 == ());
        let key = target.key@;
        let (stored, record) = crypto_store::saving_writes_the_sessions(
            save,
            save_call,
            key,
            None,
            key,
            sealed@,
            now,
            c2,
            r2,
        );
        assert(c2[0] == calls[2] && c2[1] == calls[3]);
        assert(r2[0] == replies[2] && r2[1] == replies[3]);
        assert(crypto_store::saves_record(calls, replies, key, stored, record, None));
        assert(calls[0] == CallView::Encrypt(made@));
    }
}

impl ShareRoomKey {
    /// What the flow does from an answer.
    pub open spec fn rule() -> host::Rule<ShareRoomKey, Result<(), String>> {
        |flow: ShareRoomKey, reply: HostReply, step: ShareStep| flow.moves(reply, step)
    }
}

/// Whether there is a message for a device of a user with this content.
pub open spec fn has_message(
    messages: MessagesView,
    user_id: Seq<char>,
    device_id: Seq<char>,
    content: Seq<char>,
) -> bool {
    exists|i: int, j: int|
        0 <= i < messages.len() && 0 <= j < messages[i].1.len() && messages[i].0 == user_id
            && #[trigger] messages[i].1[j] == (device_id, content)
}

/// Whether a content delivers a room key to a device: the payload with the key, encrypted by Olm with some
/// session, for the Curve25519 key of the device.
pub open spec fn delivers_key(
    share: Share,
    user_id: Seq<char>,
    device: (String, DeviceKeys),
    content: Seq<char>,
) -> bool {
    exists|session: Seq<u8>, after: Seq<u8>, kind: u64, body: Seq<char>, signing_key: String, curve_key: String|
        {
            &&& types::lookup(device.1.keys@, "ed25519:"@ + device.0@) == Some(signing_key)
            &&& types::lookup(device.1.keys@, "curve25519:"@ + device.0@) == Some(curve_key)
            &&& #[trigger] olm::olm_encrypts(
                session,
                room_key_payload(share, user_id, signing_key@),
                after,
                kind,
                body,
            )
            &&& content == #[trigger] olm_event_text(
                share.sender.curve25519_key@,
                curve_key@,
                kind,
                body,
            )
        }
}

/// Whether it is logged that a device is passed over, since there is no session with it.
pub open spec fn is_passed_over(
    calls: Seq<CallView>,
    user_id: Seq<char>,
    device_id: Seq<char>,
) -> bool {
    exists|e: Seq<char>|
        calls.contains(
            #[trigger] host::warning_entry(
                "share_room_key: failed to get Olm session for "@ + user_id + ":"@ + device_id
                    + ": "@,
                e + ". Skipping."@,
            ),
        )
}

/// Whether a device of a user is served: there is a message that delivers the key to it, or it is logged
/// that it is passed over.
pub open spec fn is_served(
    share: Share,
    user_id: Seq<char>,
    device: (String, DeviceKeys),
    messages: MessagesView,
    calls: Seq<CallView>,
) -> bool {
    ||| exists|content: Seq<char>| #[trigger]
        has_message(messages, user_id, device.0@, content) && delivers_key(
            share,
            user_id,
            device,
            content,
        )
    ||| is_passed_over(calls, user_id, device.0@)
}

/// Whether every message is for a device among these of a user, or was there before.
spec fn comes_from(
    messages: MessagesView,
    before: MessagesView,
    user_id: Seq<char>,
    devices: Seq<(String, DeviceKeys)>,
    users: Seq<(String, Vec<(String, DeviceKeys)>)>,
    own: Seq<char>,
) -> bool {
    forall|u: Seq<char>, d: Seq<char>, content: Seq<char>| #[trigger]
        has_message(messages, u, d, content) ==> has_message(before, u, d, content) || (u != own && (
        (u == user_id && lists_device(devices, d)) || exists|k: int|
            0 <= k < users.len() && (#[trigger] users[k]).0@ == u && lists_device(users[k].1@, d)))
}

/// Whether a device is among these.
pub open spec fn lists_device(devices: Seq<(String, DeviceKeys)>, device_id: Seq<char>) -> bool {
    exists|i: int| 0 <= i < devices.len() && (#[trigger] devices[i]).0@ == device_id
}

proof fn user_is_where_it_is(messages: MessagesView, user_id: Seq<char>)
    ensures
        0 <= user_at(messages, user_id) <= messages.len(),
        user_at(messages, user_id) < messages.len() ==> messages[user_at(messages, user_id)].0
            == user_id,
    decreases messages.len(),
{
    if messages.len() > 0 && messages[0].0 != user_id {
        user_is_where_it_is(messages.skip(1), user_id);
    }
}

/// A message that is added is there, those before it stay, and no other comes.
pub proof fn message_is_added(
    messages: MessagesView,
    user_id: Seq<char>,
    device_id: Seq<char>,
    content: Seq<char>,
    u: Seq<char>,
    d: Seq<char>,
    c: Seq<char>,
)
    ensures
        has_message(with_message(messages, user_id, device_id, content), u, d, c) <==> has_message(
            messages,
            u,
            d,
            c,
        ) || (u, d, c) == (user_id, device_id, content),
        with_message(messages, user_id, device_id, content).len() > 0,
{
    let at = user_at(messages, user_id);
    let more = with_message(messages, user_id, device_id, content);
    user_is_where_it_is(messages, user_id);
    if at < messages.len() {
        assert(more[at].1[messages[at].1.len() as int] == (device_id, content));
    } else {
        assert(more[at].1[0] == (device_id, content));
    }
    if has_message(messages, u, d, c) {
        let (i, j) = choose|i: int, j: int|
            0 <= i < messages.len() && 0 <= j < messages[i].1.len() && messages[i].0 == u
                && #[trigger] messages[i].1[j] == (d, c);
        assert(more[i].1[j] == (d, c));
    }
    if has_message(more, u, d, c) {
        let (i, j) = choose|i: int, j: int|
            0 <= i < more.len() && 0 <= j < more[i].1.len() && more[i].0 == u
                && #[trigger] more[i].1[j] == (d, c);
        if i < messages.len() && j < messages[i].1.len() {
            assert(messages[i].1[j] == (d, c));
        }
    }
}

/// Whether a device that is turned to is dealt with: it is logged that it is passed over, or a message is
/// added that delivers the key to it.
spec fn is_dealt_with(
    pending: Pending,
    device: (String, DeviceKeys),
    messages: MessagesView,
    calls: Seq<CallView>,
) -> bool {
    ||| messages == pending.messages@ && is_passed_over(calls, pending.user_id@, device.0@)
    ||| exists|content: Seq<char>|
        messages == #[trigger] with_message(
            pending.messages@,
            pending.user_id@,
            device.0@,
            content,
        ) && delivers_key(pending.share, pending.user_id@, device, content)
}

/// What becomes of a device that is turned to: after how many questions it is dealt with, the messages
/// then, and the step. Either a message for it is added that delivers the key, or it is logged that it is
/// passed over.
proof fn device_is_dealt_with(
    pending: Pending,
    find: GetOlmSession,
    call: HostCall,
    device: (String, DeviceKeys),
    calls: Seq<CallView>,
    replies: Seq<HostReply>,
    last: ShareStep,
) -> (r: (int, MessagesView, ShareStep))
    requires
        host::runs(
            ShareRoomKey::rule(),
            Step::Ask(call, ShareRoomKey::Finding(pending, find)),
            calls,
            replies,
            last,
        ),
        last == Step::<ShareRoomKey, Result<(), String>>::Done(Ok(())),
        pending.device_id == device.0,
        pending.keys == device.1.keys,
        types::lookup(device.1.keys@, "curve25519:"@ + device.0@) matches Some(raw) && raw@
            == pending.curve_key@,
    ensures
        0 < r.0 <= calls.len(),
        calls.len() == replies.len(),
        is_dealt_with(pending, device, r.1, calls.take(r.0)),
        ShareRoomKey::goes_on(pending, r.1, r.2),
        host::runs(ShareRoomKey::rule(), r.2, calls.skip(r.0), replies.skip(r.0), last),
{
    let rule = ShareRoomKey::rule();
    let (k, result, step) = device_session_is_sought(pending, find, call, calls, replies, last);
    let (ck, rk) = (calls.skip(k), replies.skip(k));
    match result {
        Err(e) => {
            let s1 = host::run_goes_on(rule, step, ck, rk, last);
            let (c1, r1) = (ck.skip(1), rk.skip(1));
            if s1 is Stray {
                host::run_is_over(rule, s1, c1, r1, last);
            }
            let n = k + 1;
            assert(c1 =~= calls.skip(n) && r1 =~= replies.skip(n));
            assert(ck[0] == calls[k] && calls.take(n)[k] == calls[k]);
            let entry = host::warning_entry(
                "share_room_key: failed to get Olm session for "@ + pending.user_id@ + ":"@
                    + device.0@ + ": "@,
                e@ + ". Skipping."@,
            );
            assert(calls.take(n)[k] == entry);
            assert(calls.take(n).contains(entry));
            (n, pending.messages@, s1)
        },
        Ok((session, replaced)) => {
            let signing_key = types::lookup(pending.keys@, "ed25519:"@ + pending.device_id@);
            if signing_key is None || !olm::has_room(session@) {
                host::run_is_over(rule, step, ck, rk, last);
            }
            let payload = room_key_payload(
                pending.share,
                pending.user_id@,
                signing_key->0@,
            );
            let (after, kind, body) = choose|after: OlmSession, kind: u64, body: String|
                #![trigger olm::olm_encrypts(session@, payload, after@, kind, body@)]
                olm::olm_encrypts(session@, payload, after@, kind, body@) && olm::first_is_opened(
                    session@,
                    payload,
                    kind,
                    body@,
                ) && ShareRoomKey::encrypted(pending, after, replaced, kind, body@, step);
            let content = match step {
                Step::Ask(_, ShareRoomKey::Sealing(_, _, content)) => content,
                _ => arbitrary(),
            };
            let asked = step->Ask_0;
            let (m, next) = sealed_message_is_kept(
                pending,
                replaced,
                content,
                asked,
                ck,
                rk,
                last,
            );
            let n = k + m;
            assert(ck.skip(m) =~= calls.skip(n) && rk.skip(m) =~= replies.skip(n));
            assert(olm::olm_encrypts(session@, payload, after@, kind, body@));
            assert(content@ == olm_event_text(
                pending.share.sender.curve25519_key@,
                pending.curve_key@,
                kind,
                body@,
            ));
            assert(delivers_key(pending.share, pending.user_id@, device, content@));
            let more = with_message(
                pending.messages@,
                pending.user_id@,
                device.0@,
                content@,
            );
            (n, more, next)
        },
    }
}

/// The search for a session with a device that is turned to: how many questions it asks, its result, and
/// the step after it.
proof fn device_session_is_sought(
    pending: Pending,
    find: GetOlmSession,
    call: HostCall,
    calls: Seq<CallView>,
    replies: Seq<HostReply>,
    last: ShareStep,
) -> (r: (int, Result<(OlmSession, String), String>, ShareStep))
    requires
        host::runs(
            ShareRoomKey::rule(),
            Step::Ask(call, ShareRoomKey::Finding(pending, find)),
            calls,
            replies,
            last,
        ),
        last is Done,
    ensures
        0 < r.0 <= calls.len(),
        calls.len() == replies.len(),
        host::runs(
            GetOlmSession::rule(),
            Step::Ask(call, find),
            calls.take(r.0),
            replies.take(r.0),
            Step::Done(r.1),
        ),
        match r.1 {
            Ok((session, replaced)) => ShareRoomKey::found(pending, session@, replaced, r.2),
            Err(e) => r.2.asks(
                host::warning_entry(
                    "share_room_key: failed to get Olm session for "@ + pending.user_id@ + ":"@
                        + pending.device_id@ + ": "@,
                    e@ + ". Skipping."@,
                ),
                ShareRoomKey::Skipping(pending),
            ),
        },
        host::runs(ShareRoomKey::rule(), r.2, calls.skip(r.0), replies.skip(r.0), last),
{
    let rule = ShareRoomKey::rule();
    let inner_rule = GetOlmSession::rule();
    let whole = |f: GetOlmSession| ShareRoomKey::Finding(pending, f);
    let after = |result: Result<(OlmSession, String), String>, step: ShareStep|
        match result {
            Ok((session, replaced)) => ShareRoomKey::found(pending, session@, replaced, step),
            Err(e) => step.asks(
                host::warning_entry(
                    "share_room_key: failed to get Olm session for "@ + pending.user_id@ + ":"@
                        + pending.device_id@ + ": "@,
                    e@ + ". Skipping."@,
                ),
                ShareRoomKey::Skipping(pending),
            ),
        };
    assert forall|flow: GetOlmSession, reply: HostReply, step: ShareStep| #[trigger]
        host::goes(rule, whole(flow), reply, step) implies host::passes_on(
        inner_rule,
        whole,
        after,
        flow,
        reply,
        step,
    ) by {
        let inner = choose|inner: GetOlmStep|
            #![trigger flow.moves(reply, inner)]
            flow.moves(reply, inner) && inner.passes_to(
                step,
                |f: GetOlmSession| ShareRoomKey::Finding(pending, f),
            ) && match inner {
                Step::Done(Ok((session, replaced))) => ShareRoomKey::found(
                    pending,
                    session@,
                    replaced,
                    step,
                ),
                Step::Done(Err(e)) => step.asks(
                    host::warning_entry(
                        "share_room_key: failed to get Olm session for "@ + pending.user_id@ + ":"@
                            + pending.device_id@ + ": "@,
                        e@ + ". Skipping."@,
                    ),
                    ShareRoomKey::Skipping(pending),
                ),
                _ => true,
            };
        assert(host::goes(inner_rule, flow, reply, inner));
        assert(inner matches Step::Done(result) ==> after(result, step));
    }
    host::inner_run_ends(inner_rule, rule, whole, after, call, find, calls, replies, last)
}

/// What follows the encryption of a key for a device: the session is saved, the message is added, and the
/// sharing goes on: after how many questions, and with which step.
proof fn sealed_message_is_kept(
    pending: Pending,
    replaced: String,
    content: String,
    call: HostCall,
    calls: Seq<CallView>,
    replies: Seq<HostReply>,
    last: ShareStep,
) -> (r: (int, ShareStep))
    requires
        host::runs(
            ShareRoomKey::rule(),
            Step::Ask(call, ShareRoomKey::Sealing(pending, replaced, content)),
            calls,
            replies,
            last,
        ),
        call@ is Encrypt,
        last == Step::<ShareRoomKey, Result<(), String>>::Done(Ok(())),
    ensures
        0 < r.0 <= calls.len(),
        calls.len() == replies.len(),
        calls[0] == call@,
        crypto_store::session_is_saved(
            calls.take(r.0),
            replies.take(r.0),
            pending.curve_key@,
            call@->Encrypt_0,
            Some(replaced@),
        ),
        ShareRoomKey::goes_on(
            pending,
            with_message(
                pending.messages@,
                pending.user_id@,
                pending.device_id@,
                content@,
            ),
            r.1,
        ),
        host::runs(ShareRoomKey::rule(), r.1, calls.skip(r.0), replies.skip(r.0), last),
{
    let rule = ShareRoomKey::rule();
    let first: ShareStep = Step::Ask(call, ShareRoomKey::Sealing(pending, replaced, content));
    let s1 = host::run_goes_on(rule, first, calls, replies, last);
    let (c1, r1) = (calls.skip(1), replies.skip(1));
    if !(s1 is Ask) {
        host::run_is_over(rule, s1, c1, r1, last);
    }
    let sealed = match s1 {
        Step::Ask(_, ShareRoomKey::Stamping(_, _, _, sealed)) => sealed,
        _ => arbitrary(),
    };
    assert(s1 matches Step::Ask(_, ShareRoomKey::Stamping(p, r, c, _)) && p == pending && r
        == replaced && c == content);
    let s2 = host::run_goes_on(rule, s1, c1, r1, last);
    let (c2, r2) = (c1.skip(1), r1.skip(1));
    if !(s2 is Ask) {
        host::run_is_over(rule, s2, c2, r2, last);
    }
    let now = r1[0]->Time_0;
    let (save_call, save) = match s2 {
        Step::Ask(save_call, ShareRoomKey::Saving(_, _, save)) => (save_call, save),
        _ => arbitrary(),
    };
    assert(s2 == Step::<ShareRoomKey, Result<(), String>>::Ask(
        save_call,
        ShareRoomKey::Saving(pending, content, save),
    ));
    let more = with_message(
        pending.messages@,
        pending.user_id@,
        pending.device_id@,
        content@,
    );
    let inner_rule = SaveOlm::rule();
    let whole = |f: SaveOlm| ShareRoomKey::Saving(pending, content, f);
    let after = |result: Result<(), String>, step: ShareStep|
        match result {
            Ok(_) => ShareRoomKey::goes_on(pending, more, step),
            Err(e) => step.gives(Err(e)),
        };
    assert forall|flow: SaveOlm, reply: HostReply, step: ShareStep| #[trigger]
        host::goes(rule, whole(flow), reply, step) implies host::passes_on(
        inner_rule,
        whole,
        after,
        flow,
        reply,
        step,
    ) by {
        let inner = choose|inner: crypto_store::SaveOlmStep|
            #![trigger flow.moves(reply, inner)]
            flow.moves(reply, inner) && inner.passes_to(
                step,
                |f: SaveOlm| ShareRoomKey::Saving(pending, content, f),
            ) && match inner {
                Step::Done(Err(e)) => step.gives(Err(e)),
                Step::Done(Ok(_)) => ShareRoomKey::goes_on(pending, more, step),
                _ => true,
            };
        assert(host::goes(inner_rule, flow, reply, inner));
        assert(inner matches Step::Done(result) ==> after(result, step));
    }
    let (k, result, step) = host::inner_run_ends(
        inner_rule,
        rule,
        whole,
        after,
        save_call,
        save,
        c2,
        r2,
        last,
    );
    if result is Err {
        host::run_is_over(rule, step, c2.skip(k), r2.skip(k), last);
    }
    assert(result->Ok_0 == ());
    let key = pending.curve_key@;
    let (stored, record) = crypto_store::saving_writes_the_sessions(
        save,
        save_call,
        key,
        Some(replaced@),
        key,
        sealed@,
        now,
        c2.take(k),
        r2.take(k),
    );
    let n = k + 2;
    let (cn, rn) = (calls.take(n), replies.take(n));
    assert(c2.take(k)[0] == cn[2] && c2.take(k)[1] == cn[3]);
    assert(r2.take(k)[0] == rn[2] && r2.take(k)[1] == rn[3]);
    assert(crypto_store::saves_record(cn, rn, key, stored, record, Some(replaced@)));
    assert(cn[0] == call@ && rn[0] == replies[0]);
    assert(c2.skip(k) =~= calls.skip(n) && r2.skip(k) =~= replies.skip(n));
    (n, step)
}

/// What a sharing that succeeds has made of the devices that were left: the messages in the end.
proof fn devices_left_are_served(
    share: Share,
    user_id: Seq<char>,
    devices: Seq<(String, DeviceKeys)>,
    users: Seq<(String, Vec<(String, DeviceKeys)>)>,
    messages: MessagesView,
    first: ShareStep,
    calls: Seq<CallView>,
    replies: Seq<HostReply>,
    last: ShareStep,
) -> (sent: MessagesView)
    requires
        ShareRoomKey::proceeds(share, user_id, devices, users, messages, first),
        host::runs(ShareRoomKey::rule(), first, calls, replies, last),
        last == Step::<ShareRoomKey, Result<(), String>>::Done(Ok(())),
    ensures
        calls.len() == replies.len(),
        forall|u: Seq<char>, d: Seq<char>, content: Seq<char>|
            has_message(messages, u, d, content) ==> #[trigger] has_message(sent, u, d, content),
        user_id != share.sender.user_id@ ==> forall|i: int|
            0 <= i < devices.len() ==> is_served(
                share,
                user_id,
                #[trigger] devices[i],
                sent,
                calls,
            ),
        forall|k: int, i: int|
            0 <= k < users.len() && users[k].0@ != share.sender.user_id@ && 0 <= i
                < users[k].1@.len() ==> is_served(
                share,
                users[k].0@,
                #[trigger] users[k].1@[i],
                sent,
                calls,
            ),
        comes_from(sent, messages, user_id, devices, users, share.sender.user_id@),
        is_sent_to_devices(share, sent, calls, replies),
    decreases replies.len(), users.len(), devices.len(),
{
    let rule = ShareRoomKey::rule();
    let own = share.sender.user_id@;
    if devices.len() > 0 {
        let rest = devices.skip(1);
        if user_id == own {
            let sent = devices_left_are_served(
                share,
                user_id,
                rest,
                users,
                messages,
                first,
                calls,
                replies,
                last,
            );
            sent
        } else {
            if target_key(user_id, devices[0]) is Err {
                host::run_is_over(rule, first, calls, replies, last);
            }
            let (call, p, find) = match first {
                Step::Ask(call, ShareRoomKey::Finding(p, find)) => (call, p, find),
                _ => arbitrary(),
            };
            assert(first == Step::<ShareRoomKey, Result<(), String>>::Ask(
                call,
                ShareRoomKey::Finding(p, find),
            ));
            let device = devices[0];
            let (n, more, step) = device_is_dealt_with(
                p,
                find,
                call,
                device,
                calls,
                replies,
                last,
            );
            let (cn, rn) = (calls.skip(n), replies.skip(n));
            let sent = devices_left_are_served(
                share,
                user_id,
                rest,
                users,
                more,
                step,
                cn,
                rn,
                last,
            );
            device_and_the_rest_are_served(
                p,
                devices,
                more,
                sent,
                calls,
                n,
            );
            assert forall|i: int| 0 <= i < devices.len() implies is_served(
                share,
                user_id,
                #[trigger] devices[i],
                sent,
                calls,
            ) by {
                if i > 0 {
                    assert(rest[i - 1] == devices[i]);
                    served_in_more(share, user_id, devices[i], sent, calls, n);
                }
            }
            assert forall|k: int, i: int|
                0 <= k < users.len() && users[k].0@ != own && 0 <= i
                    < users[k].1@.len() implies is_served(
                share,
                users[k].0@,
                #[trigger] users[k].1@[i],
                sent,
                calls,
            ) by {
                served_in_more(share, users[k].0@, users[k].1@[i], sent, calls, n);
            }
            assert forall|u: Seq<char>, d: Seq<char>, content: Seq<char>| #[trigger]
                has_message(sent, u, d, content) implies has_message(messages, u, d, content) || (u
                != own && ((u == user_id && lists_device(devices, d)) || exists|k: int|
                0 <= k < users.len() && (#[trigger] users[k]).0@ == u && lists_device(
                    users[k].1@,
                    d,
                ))) by {
                if has_message(more, u, d, content) {
                    if !has_message(messages, u, d, content) {
                        let c = choose|c: Seq<char>|
                            more == #[trigger] with_message(messages, user_id, device.0@, c)
                                && delivers_key(p.share, p.user_id@, device, c);
                        message_is_added(messages, user_id, device.0@, c, u, d, content);
                        assert(devices[0].0@ == d);
                    }
                } else if u == user_id && lists_device(rest, d) {
                    let i = choose|i: int| 0 <= i < rest.len() && (#[trigger] rest[i]).0@ == d;
                    assert(devices[i + 1].0@ == d);
                }
            }
            assert(is_sent_to_devices(share, sent, calls, replies)) by {
                if sent.len() > 0 {
                    assert(cn.last() == calls.last() && rn.last() == replies.last());
                }
            }
            sent
        }
    } else if users.len() > 0 {
        let rest = users.skip(1);
        let sent = devices_left_are_served(
            share,
            users[0].0@,
            users[0].1@,
            rest,
            messages,
            first,
            calls,
            replies,
            last,
        );
        assert forall|k: int, i: int|
            0 <= k < users.len() && users[k].0@ != own && 0 <= i < users[k].1@.len() implies is_served(
            share,
            users[k].0@,
            #[trigger] users[k].1@[i],
            sent,
            calls,
        ) by {
            if k > 0 {
                assert(rest[k - 1] == users[k]);
                assert(rest[k - 1].1@[i] == users[k].1@[i]);
            }
        }
        assert forall|u: Seq<char>, d: Seq<char>, content: Seq<char>| #[trigger]
            has_message(sent, u, d, content) implies has_message(messages, u, d, content) || (u
            != own && ((u == user_id && lists_device(devices, d)) || exists|k: int|
            0 <= k < users.len() && (#[trigger] users[k]).0@ == u && lists_device(
                users[k].1@,
                d,
            ))) by {
            if !has_message(messages, u, d, content) {
                if u == users[0].0@ && lists_device(users[0].1@, d) {
                    assert(users[0].0@ == u);
                } else {
                    let k = choose|k: int|
                        0 <= k < rest.len() && (#[trigger] rest[k]).0@ == u && lists_device(
                            rest[k].1@,
                            d,
                        );
                    assert(users[k + 1].0@ == u);
                }
            }
        }
        sent
    } else if messages.len() == 0 {
        host::run_is_over(rule, first, calls, replies, last);
        messages
    } else {
        let s1 = host::run_goes_on(rule, first, calls, replies, last);
        let (c1, r1) = (calls.skip(1), replies.skip(1));
        if !(s1 is Ask) {
            host::run_is_over(rule, s1, c1, r1, last);
        }
        let s2 = host::run_goes_on(rule, s1, c1, r1, last);
        host::run_is_over(rule, s2, c1.skip(1), r1.skip(1), last);
        assert(c1[0] == calls[1] && r1[0] == replies[1]);
        assert(calls.last() == calls[1] && replies.last() == replies[1]);
        messages
    }
}

proof fn served_in_more(
    share: Share,
    user_id: Seq<char>,
    device: (String, DeviceKeys),
    messages: MessagesView,
    calls: Seq<CallView>,
    n: int,
)
    requires
        0 <= n <= calls.len(),
        is_served(share, user_id, device, messages, calls.skip(n)),
    ensures
        is_served(share, user_id, device, messages, calls),
{
    let cn = calls.skip(n);
    if is_passed_over(cn, user_id, device.0@) {
        let e = choose|e: Seq<char>|
            cn.contains(
                #[trigger] host::warning_entry(
                    "share_room_key: failed to get Olm session for "@ + user_id + ":"@ + device.0@
                        + ": "@,
                    e + ". Skipping."@,
                ),
            );
        let entry = host::warning_entry(
            "share_room_key: failed to get Olm session for "@ + user_id + ":"@ + device.0@ + ": "@,
            e + ". Skipping."@,
        );
        let i = choose|i: int| 0 <= i < cn.len() && cn[i] == entry;
        assert(calls[n + i] == entry);
        assert(calls.contains(entry));
    }
}

proof fn device_and_the_rest_are_served(
    pending: Pending,
    devices: Seq<(String, DeviceKeys)>,
    more: MessagesView,
    sent: MessagesView,
    calls: Seq<CallView>,
    n: int,
)
    requires
        devices.len() > 0,
        0 <= n <= calls.len(),
        is_dealt_with(pending, devices[0], more, calls.take(n)),
        forall|u: Seq<char>, d: Seq<char>, content: Seq<char>|
            has_message(more, u, d, content) ==> #[trigger] has_message(sent, u, d, content),
    ensures
        is_served(pending.share, pending.user_id@, devices[0], sent, calls),
        forall|u: Seq<char>, d: Seq<char>, content: Seq<char>|
            has_message(pending.messages@, u, d, content) ==> #[trigger] has_message(
                sent,
                u,
                d,
                content,
            ),
{
    let (messages, user_id, device) = (pending.messages@, pending.user_id@, devices[0]);
    let cn = calls.take(n);
    if messages == more && is_passed_over(cn, user_id, device.0@) {
        let e = choose|e: Seq<char>|
            cn.contains(
                #[trigger] host::warning_entry(
                    "share_room_key: failed to get Olm session for "@ + user_id + ":"@ + device.0@
                        + ": "@,
                    e + ". Skipping."@,
                ),
            );
        let entry = host::warning_entry(
            "share_room_key: failed to get Olm session for "@ + user_id + ":"@ + device.0@ + ": "@,
            e + ". Skipping."@,
        );
        let i = choose|i: int| 0 <= i < cn.len() && cn[i] == entry;
        assert(calls[i] == entry);
        assert(calls.contains(entry));
    } else {
        let c = choose|c: Seq<char>|
            more == #[trigger] with_message(messages, user_id, device.0@, c) && delivers_key(
                pending.share,
                user_id,
                device,
                c,
            );
        message_is_added(messages, user_id, device.0@, c, user_id, device.0@, c);
        assert(has_message(sent, user_id, device.0@, c));
        assert forall|u: Seq<char>, d: Seq<char>, content: Seq<char>|
            has_message(messages, u, d, content) implies #[trigger] has_message(
            sent,
            u,
            d,
            content,
        ) by {
            message_is_added(messages, user_id, device.0@, c, u, d, content);
        }
    }
}

/// A room key reaches every device in a room. Where the sharing succeeds, and the server has told the
/// devices of the members, the messages that are sent in one request have one for every device of every
/// user but us, and each delivers the key to its device; a device that has none is one with which no Olm
/// session could be had, and that is logged. No other device gets a message.
pub proof fn every_device_gets_the_key(
    flow: ShareRoomKey,
    call: HostCall,
    share: Share,
    calls: Seq<CallView>,
    replies: Seq<HostReply>,
    members: Seq<Seq<char>>,
    told: types::KeysQueryResponse,
) -> (sent: MessagesView)
    requires
        flow.begins(call, share),
        host::runs(
            ShareRoomKey::rule(),
            Step::Ask(call, flow),
            calls,
            replies,
            Step::Done(Ok(())),
        ),
        replies[0] matches HostReply::Http(response) && client::room_members(response) == Ok::<
            Seq<Seq<char>>,
            Seq<char>,
        >(members) && members.len() > 0,
        replies[1] matches HostReply::KeysQuery(Ok(response)) && response.response.status == 200
            && response.parsed == Ok::<types::KeysQueryResponse, String>(told),
    ensures
        calls.len() == replies.len(),
        calls[0] == CallView::Http(
            client::joined_members_request(share.homeserver_url@, share.room_id@),
        ),
        calls[1] == CallView::KeysQuery(
            client::keys_query_request(share.homeserver_url@, encode_utf8(query_text(members))),
        ),
        forall|k: int, i: int|
            0 <= k < told.device_keys@.len() && told.device_keys@[k].0@ != share.sender.user_id@
                && 0 <= i < told.device_keys@[k].1@.len() ==> is_served(
                share,
                told.device_keys@[k].0@,
                #[trigger] told.device_keys@[k].1@[i],
                sent,
                calls,
            ),
        forall|u: Seq<char>, d: Seq<char>, content: Seq<char>| #[trigger]
            has_message(sent, u, d, content) ==> u != share.sender.user_id@ && exists|k: int|
                0 <= k < told.device_keys@.len() && (#[trigger] told.device_keys@[k]).0@ == u
                    && lists_device(told.device_keys@[k].1@, d),
        is_sent_to_devices(share, sent, calls, replies),
{
    let rule = ShareRoomKey::rule();
    let last: ShareStep = Step::Done(Ok(()));
    let s1 = host::run_goes_on(rule, Step::Ask(call, flow), calls, replies, last);
    let (c1, r1) = (calls.skip(1), replies.skip(1));
    let s2 = host::run_goes_on(rule, s1, c1, r1, last);
    let (c2, r2) = (c1.skip(1), r1.skip(1));
    assert(c1[0] == calls[1] && r1[0] == replies[1]);
    assert(c2 =~= calls.skip(2) && r2 =~= replies.skip(2));
    let users = told.device_keys@;
    let own = share.sender.user_id@;
    let nobody: Seq<(String, DeviceKeys)> = Seq::empty();
    let sent = devices_left_are_served(
        share,
        Seq::empty(),
        nobody,
        users,
        Seq::empty(),
        s2,
        c2,
        r2,
        last,
    );
    assert forall|k: int, i: int|
        0 <= k < users.len() && users[k].0@ != own && 0 <= i < users[k].1@.len() implies is_served(
        share,
        users[k].0@,
        #[trigger] users[k].1@[i],
        sent,
        calls,
    ) by {
        served_in_more(share, users[k].0@, users[k].1@[i], sent, calls, 2);
    }
    assert forall|u: Seq<char>, d: Seq<char>, content: Seq<char>| #[trigger]
        has_message(sent, u, d, content) implies u != own && exists|k: int|
        0 <= k < users.len() && (#[trigger] users[k]).0@ == u && lists_device(users[k].1@, d) by {
        assert(!has_message(Seq::empty(), u, d, content));
        assert(!lists_device(nobody, d));
    }
    if sent.len() > 0 {
        assert(c2.last() == calls.last() && r2.last() == replies.last());
    }
    sent
}

/// Whether the messages are sent to the devices, all in one request, which the server accepts; where there
/// are none, there is no such request.
pub open spec fn is_sent_to_devices(
    share: Share,
    messages: MessagesView,
    calls: Seq<CallView>,
    replies: Seq<HostReply>,
) -> bool {
    messages.len() > 0 ==> calls.len() == replies.len() >= 2 && exists|txn_id: Seq<char>|
        calls.last() == CallView::Http(
            #[trigger] client::to_device_request(
                share.homeserver_url@,
                "m.room.encrypted"@,
                txn_id,
                encode_utf8(messages_text(messages)),
            ),
        ) && (replies.last() matches HostReply::Http(Ok(response)) && response.status == 200)
}

/// How a message is encrypted: the session before and after it, and the record that is stored of it.
pub struct EncryptedRun {
    pub session: Seq<u8>,
    pub after: Seq<u8>,
    pub record: OutboundView,
}

/// Whether the last two questions store the outbound session of a room: the host has encrypted its pickle,
/// and has written the record with the encrypted pickle.
pub open spec fn stores_outbound(
    calls: Seq<CallView>,
    replies: Seq<HostReply>,
    room_id: Seq<char>,
    after: Seq<u8>,
    record: OutboundView,
) -> bool {
    let n = calls.len() as int;
    &&& n == replies.len() >= 2
    &&& calls[n - 2] == CallView::Encrypt(after)
    &&& (replies[n - 2] matches HostReply::Bytes(Ok(sealed)) && crypto_store::unsealed_bytes(
        record.pickled_session,
    ) == Ok::<Seq<u8>, Seq<char>>(sealed@))
    &&& calls[n - 1] == CallView::Write(crypto_store::outbound_path(room_id), record.json())
    &&& (replies[n - 1] matches HostReply::Written(Ok(_)))
    &&& record.room_id == room_id
}

/// Whether a content is that of an event with a text that is encrypted with a session, which is another
/// one after it: who reads the session recovers the text from it, and reads the session after it too.
pub open spec fn is_sent_on(
    run: EncryptedRun,
    room_id: Seq<char>,
    plaintext: Seq<char>,
    content: Seq<char>,
) -> bool {
    exists|sender_key: Seq<char>, device_id: Seq<char>, ciphertext: Seq<char>|
        content == #[trigger] encrypted_event_text(
            sender_key,
            run.record.session_id,
            device_id,
            ciphertext,
        ) && (forall|inbound: Seq<u8>| #[trigger]
            megolm::inbound_reads(inbound, run.session) ==> megolm::inbound_reads(inbound, run.after)
                && megolm::decrypts_to(
                inbound,
                ciphertext,
                inner_event_text(room_id, plaintext),
                megolm::outbound_index(run.session),
            ))
}

proof fn encrypted_session_is_stored(
    draft: Draft,
    account: StoredAccount,
    session: Seq<u8>,
    record: OutboundView,
    first: EncryptStep,
    calls: Seq<CallView>,
    replies: Seq<HostReply>,
    content: String,
) -> (r: EncryptedRun)
    requires
        EncryptMessage::encrypts(draft, account, session, record, first),
        host::runs(EncryptMessage::rule(), first, calls, replies, Step::Done(Ok(content))),
        record.room_id == draft.room_id@,
    ensures
        calls.len() == 2,
        r.session == session,
        r.record == (OutboundView { pickled_session: r.record.pickled_session, ..record }),
        stores_outbound(calls, replies, draft.room_id@, r.after, r.record),
        is_sent_on(r, draft.room_id@, draft.plaintext@, content@),
{
    let rule = EncryptMessage::rule();
    let last: EncryptStep = Step::Done(Ok(content));
    if megolm::outbound_index(session) == u32::MAX {
        host::run_is_over(rule, first, calls, replies, last);
    }
    let event = inner_event_text(draft.room_id@, draft.plaintext@);
    let (after, ciphertext) = megolm::outbound_encryption(session, event);
    let s1 = host::run_goes_on(rule, first, calls, replies, last);
    let (c1, r1) = (calls.skip(1), replies.skip(1));
    if !(s1 is Ask) {
        host::run_is_over(rule, s1, c1, r1, last);
    }
    let s2 = host::run_goes_on(rule, s1, c1, r1, last);
    host::run_is_over(rule, s2, c1.skip(1), r1.skip(1), last);
    assert(c1[0] == calls[1] && r1[0] == replies[1]);
    let (sealing, event_content) = match first {
        Step::Ask(_, EncryptMessage::Sealing(sealing, event_content)) => (sealing, event_content),
        _ => arbitrary(),
    };
    assert(s1 matches Step::Ask(_, EncryptMessage::Writing(c)) && c == event_content);
    assert(content == event_content);
    let pickled_session = crypto_store::sealed_pickle(replies[0]->Bytes_0)->Ok_0;
    let kept = OutboundView { pickled_session, ..sealing@ };
    let run = EncryptedRun { session, after, record: kept };
    assert(run.record.session_id == record.session_id);
    assert(content@ == encrypted_event_text(
        account.curve25519_key@,
        run.record.session_id,
        account.device_id@,
        ciphertext,
    ));
    assert forall|inbound: Seq<u8>| #[trigger] megolm::inbound_reads(
        inbound,
        run.session,
    ) implies megolm::inbound_reads(inbound, run.after) && megolm::decrypts_to(
        inbound,
        ciphertext,
        event,
        megolm::outbound_index(run.session),
    ) by {}
    assert(is_sent_on(run, draft.room_id@, draft.plaintext@, content@));
    run
}

/// Whether the session of an encryption is the stored one, opened: its record counts one message more, and
/// is else as it was.
pub open spec fn goes_on_with_stored(
    run: EncryptedRun,
    calls: Seq<CallView>,
    replies: Seq<HostReply>,
) -> bool {
    &&& calls.len() == replies.len() == 6
    &&& replies[2] matches HostReply::Outbound(Some(stored))
    &&& calls[3] matches CallView::Decrypt(bytes)
    &&& crypto_store::unsealed_bytes(stored.pickled_session@) == Ok::<Seq<u8>, Seq<char>>(bytes)
    &&& is_opened(run.session, calls[3], replies[3])
    &&& run.record.session_id == stored.session_id@
    &&& run.record.message_count == stored.message_count + 1
    &&& run.record.created_ts == stored.created_ts
    &&& stored.message_count < 100
    &&& (replies[0] matches HostReply::Time(now) && now - stored.created_ts < 604_800_000)
}

/// Whether the session of an encryption is a new one, whose inbound session is stored for ourselves, and
/// whose key is shared with the devices in the room, by a whole sharing that succeeds, before anything is
/// encrypted with it.
pub open spec fn starts_with_new(
    run: EncryptedRun,
    homeserver_url: Seq<char>,
    room_id: Seq<char>,
    sharing: SharingRun,
    calls: Seq<CallView>,
    replies: Seq<HostReply>,
) -> bool {
    &&& calls.len() == replies.len()
    &&& sharing.start == 5
    &&& sharing.start < sharing.end == calls.len() - 2
    &&& is_new(run.session)
    &&& run.record.session_id == megolm::outbound_id(run.session)
    &&& run.record.message_count == 1
    &&& (replies[0] matches HostReply::Time(now) && run.record.created_ts == now)
    &&& calls[3] == CallView::Encrypt(
        megolm::inbound_of_key(megolm::outbound_key(run.session))->Ok_0,
    )
    &&& (calls[4] matches CallView::Write(path, _) && path == crypto_store::inbound_path(
        room_id,
        megolm::outbound_id(run.session),
    ))
    &&& sharing.share.homeserver_url@ == homeserver_url
    &&& sharing.share.room_id@ == room_id
    &&& sharing.share.session_key@ == megolm::outbound_key(run.session)
    &&& sharing.share.session_id@ == megolm::outbound_id(run.session)
    &&& (replies[1] matches HostReply::Account(Some(account)) && sharing.share.sender.user_id@
        == account.user_id@ && sharing.share.sender.device_id@ == account.device_id@
        && sharing.share.sender.ed25519_key@ == account.ed25519_key@
        && sharing.share.sender.curve25519_key@ == account.curve25519_key@)
    &&& sharing.flow.begins(sharing.call, sharing.share)
    &&& host::runs(
        ShareRoomKey::rule(),
        Step::Ask(sharing.call, sharing.flow),
        calls.subrange(sharing.start, sharing.end),
        replies.subrange(sharing.start, sharing.end),
        Step::Done(Ok(())),
    )
}

/// How a room key is shared within an encryption: where the sharing starts and ends, and its first step.
pub struct SharingRun {
    pub start: int,
    pub end: int,
    pub share: Share,
    pub call: HostCall,
    pub flow: ShareRoomKey,
}

/// What a whole encryption that succeeds does with the session of the room: it encrypts the text with the
/// stored one, or, where there is none or it is due for rotation, with a new one, whose key it shares
/// before with all devices in the room. Then it stores the session as it is afterwards, which whoever reads
/// it goes on reading; so the next message goes on from there.
#[verifier::rlimit(60)]
pub proof fn encryption_stores_its_session(
    flow: EncryptMessage,
    call: HostCall,
    homeserver_url: Seq<char>,
    room_id: Seq<char>,
    plaintext: Seq<char>,
    txn: u64,
    calls: Seq<CallView>,
    replies: Seq<HostReply>,
    content: String,
) -> (r: (EncryptedRun, SharingRun))
    requires
        flow.begins(call, homeserver_url, room_id, plaintext, txn),
        host::runs(
            EncryptMessage::rule(),
            Step::Ask(call, flow),
            calls,
            replies,
            Step::Done(Ok(content)),
        ),
    ensures
        is_sent_on(r.0, room_id, plaintext, content@),
        stores_outbound(calls, replies, room_id, r.0.after, r.0.record),
        calls[2] == CallView::ReadOutbound(crypto_store::outbound_path(room_id)),
        goes_on_with_stored(r.0, calls, replies) || starts_with_new(
            r.0,
            homeserver_url,
            room_id,
            r.1,
            calls,
            replies,
        ),
{
    let rule = EncryptMessage::rule();
    let last: EncryptStep = Step::Done(Ok(content));
    let s1 = host::run_goes_on(rule, Step::Ask(call, flow), calls, replies, last);
    let (c1, r1) = (calls.skip(1), replies.skip(1));
    if !(s1 is Ask) {
        host::run_is_over(rule, s1, c1, r1, last);
    }
    let s2 = host::run_goes_on(rule, s1, c1, r1, last);
    let (c2, r2) = (c1.skip(1), r1.skip(1));
    assert(c1[0] == calls[1] && r1[0] == replies[1]);
    if !(s2 is Ask) {
        host::run_is_over(rule, s2, c2, r2, last);
    }
    let s3 = host::run_goes_on(rule, s2, c2, r2, last);
    let (c3, r3) = (c2.skip(1), r2.skip(1));
    assert(c2[0] == calls[2] && r2[0] == replies[2]);
    assert(c3 =~= calls.skip(3) && r3 =~= replies.skip(3));
    if !(s3 is Ask) {
        host::run_is_over(rule, s3, c3, r3, last);
    }
    match s3 {
        Step::Ask(_, EncryptMessage::Opening(draft, account, record)) => {
            assert(record.room_id@ == room_id);
            let run = stored_session_goes_on(draft, account, record, s3->Ask_0, c3, r3, content);
            assert(c3[0] == calls[3] && c3[1] == calls[4] && c3[2] == calls[5]);
            assert(r3[0] == replies[3] && r3[1] == replies[4] && r3[2] == replies[5]);
            (run, arbitrary())
        },
        Step::Ask(_, EncryptMessage::SealingInbound(draft, _, account, _, _, _)) => {
            let (run, sharing) = new_session_is_shared(
                draft,
                account,
                s3,
                c3,
                r3,
                content,
                replies[0]->Time_0,
            );
            let n = calls.len() as int;
            let m = c3.len() as int;
            assert(c3[m - 2] == calls[n - 2] && c3[m - 1] == calls[n - 1]);
            assert(r3[m - 2] == replies[n - 2] && r3[m - 1] == replies[n - 1]);
            assert(c3[0] == calls[3] && c3[1] == calls[4]);
            assert(c3.subrange(2, m - 2) =~= calls.subrange(5, n - 2));
            assert(r3.subrange(2, m - 2) =~= replies.subrange(5, n - 2));
            (run, SharingRun { start: 5, end: n - 2, ..sharing })
        },
        _ => arbitrary(),
    }
}

/// The course of an encryption with the stored session, from the question to decrypt its pickle on.
proof fn stored_session_goes_on(
    draft: Draft,
    account: StoredAccount,
    record: StoredOutboundMegolmSession,
    call: HostCall,
    calls: Seq<CallView>,
    replies: Seq<HostReply>,
    content: String,
) -> (run: EncryptedRun)
    requires
        host::runs(
            EncryptMessage::rule(),
            Step::Ask(call, EncryptMessage::Opening(draft, account, record)),
            calls,
            replies,
            Step::Done(Ok(content)),
        ),
        call@ is Decrypt,
        record.room_id@ == draft.room_id@,
    ensures
        calls.len() == replies.len() == 3,
        calls[0] == call@,
        is_opened(run.session, calls[0], replies[0]),
        run.record == (OutboundView { pickled_session: run.record.pickled_session, ..record@ }),
        stores_outbound(calls, replies, draft.room_id@, run.after, run.record),
        is_sent_on(run, draft.room_id@, draft.plaintext@, content@),
{
    let rule = EncryptMessage::rule();
    let last: EncryptStep = Step::Done(Ok(content));
    let first: EncryptStep = Step::Ask(call, EncryptMessage::Opening(draft, account, record));
    let s1 = host::run_goes_on(rule, first, calls, replies, last);
    let (c1, r1) = (calls.skip(1), replies.skip(1));
    let decrypted = replies[0]->Bytes_0;
    let opened = crypto_store::opened_pickle(
        decrypted,
        megolm::outbound_pickle(decrypted->Ok_0@),
    );
    if !(replies[0] is Bytes) || opened is Err {
        host::run_is_over(rule, s1, c1, r1, last);
    }
    let run = encrypted_session_is_stored(
        draft,
        account,
        opened->Ok_0,
        record@,
        s1,
        c1,
        r1,
        content,
    );
    assert(c1[0] == calls[1] && c1[1] == calls[2]);
    assert(r1[0] == replies[1] && r1[1] == replies[2]);
    run
}

/// The course of an encryption with a new session, from the question to encrypt the pickle of its inbound
/// session on.
#[verifier::rlimit(60)]
proof fn new_session_is_shared(
    draft: Draft,
    account: StoredAccount,
    first: EncryptStep,
    calls: Seq<CallView>,
    replies: Seq<HostReply>,
    content: String,
    now: u64,
) -> (r: (EncryptedRun, SharingRun))
    requires
        EncryptMessage::renews(draft, now, account, first),
        host::runs(EncryptMessage::rule(), first, calls, replies, Step::Done(Ok(content))),
    ensures
        calls.len() == replies.len() > 4,
        is_sent_on(r.0, draft.room_id@, draft.plaintext@, content@),
        stores_outbound(calls, replies, draft.room_id@, r.0.after, r.0.record),
        is_new(r.0.session),
        r.0.record.session_id == megolm::outbound_id(r.0.session),
        r.0.record.message_count == 1,
        r.0.record.created_ts == now,
        calls[0] == CallView::Encrypt(
            megolm::inbound_of_key(megolm::outbound_key(r.0.session))->Ok_0,
        ),
        calls[1] matches CallView::Write(path, _) && path == crypto_store::inbound_path(
            draft.room_id@,
            megolm::outbound_id(r.0.session),
        ),
        r.1.share.homeserver_url@ == draft.homeserver_url@,
        r.1.share.room_id@ == draft.room_id@,
        r.1.share.session_key@ == megolm::outbound_key(r.0.session),
        r.1.share.session_id@ == megolm::outbound_id(r.0.session),
        r.1.share.sender.user_id@ == account.user_id@,
        r.1.share.sender.device_id@ == account.device_id@,
        r.1.share.sender.ed25519_key@ == account.ed25519_key@,
        r.1.share.sender.curve25519_key@ == account.curve25519_key@,
        r.1.flow.begins(r.1.call, r.1.share),
        host::runs(
            ShareRoomKey::rule(),
            Step::Ask(r.1.call, r.1.flow),
            calls.subrange(2, calls.len() - 2),
            replies.subrange(2, calls.len() - 2),
            Step::Done(Ok(())),
        ),
{
    let rule = EncryptMessage::rule();
    let last: EncryptStep = Step::Done(Ok(content));
    let (session, key, inbound) = match first {
        Step::Ask(_, EncryptMessage::SealingInbound(_, _, _, session, key, inbound)) => (
            session,
            key,
            inbound,
        ),
        _ => arbitrary(),
    };
    let second = host::run_goes_on(rule, first, calls, replies, last);
    let (c1, r1) = (calls.skip(1), replies.skip(1));
    if !(second is Ask) {
        host::run_is_over(rule, second, c1, r1, last);
    }
    assert(second matches Step::Ask(_, EncryptMessage::WritingInbound(d, t, a, s, k, i)) && d
        == draft && t == now && a == account && s == session && k == key && i
        == inbound.session_id);
    let s2 = host::run_goes_on(rule, second, c1, r1, last);
    let (c2, r2) = (c1.skip(1), r1.skip(1));
    assert(c1[0] == calls[1] && r1[0] == replies[1]);
    if !(s2 is Ask) {
        host::run_is_over(rule, s2, c2, r2, last);
    }
    let (share_call, id, sharing) = match s2 {
        Step::Ask(share_call, EncryptMessage::Sharing(_, _, _, _, id, sharing)) => (
            share_call,
            id,
            sharing,
        ),
        _ => arbitrary(),
    };
    assert(s2 == Step::<EncryptMessage, Result<String, String>>::Ask(
        share_call,
        EncryptMessage::Sharing(draft, now, account, session, id, sharing),
    ));
    assert(id@ == megolm::outbound_id(session@));
    let share = choose|share: Share|
        #![trigger sharing.begins(share_call, share)]
        sharing.begins(share_call, share) && share.homeserver_url@ == draft.homeserver_url@
            && share.room_id@ == draft.room_id@ && share.session_key@ == key@ && share.session_id@
            == id@ && share.sender.user_id@ == account.user_id@ && share.sender.device_id@
            == account.device_id@ && share.sender.ed25519_key@ == account.ed25519_key@
            && share.sender.curve25519_key@ == account.curve25519_key@ && share.txn == draft.txn;
    let record = OutboundView {
        room_id: draft.room_id@,
        session_id: id@,
        pickled_session: Seq::empty(),
        message_count: 1,
        created_ts: now,
    };
    let (k, step) = key_is_shared(
        draft,
        now,
        account,
        session,
        id,
        share_call,
        sharing,
        c2,
        r2,
        content,
    );
    let (ck, rk) = (c2.skip(k), r2.skip(k));
    let run = encrypted_session_is_stored(
        draft,
        account,
        session@,
        record,
        step,
        ck,
        rk,
        content,
    );
    let n = calls.len() as int;
    assert(c2.take(k) =~= calls.subrange(2, n - 2) && r2.take(k) =~= replies.subrange(2, n - 2));
    assert(ck[0] == calls[n - 2] && ck[1] == calls[n - 1]);
    assert(rk[0] == replies[n - 2] && rk[1] == replies[n - 1]);
    (run, SharingRun { start: 2, end: n - 2, share, call: share_call, flow: sharing })
}

/// The sharing of a new key within an encryption: how many questions it asks, and the step after it.
proof fn key_is_shared(
    draft: Draft,
    now: u64,
    account: StoredAccount,
    session: OutboundSession,
    id: String,
    call: HostCall,
    sharing: ShareRoomKey,
    calls: Seq<CallView>,
    replies: Seq<HostReply>,
    content: String,
) -> (r: (int, EncryptStep))
    requires
        host::runs(
            EncryptMessage::rule(),
            Step::Ask(call, EncryptMessage::Sharing(draft, now, account, session, id, sharing)),
            calls,
            replies,
            Step::Done(Ok(content)),
        ),
    ensures
        0 < r.0 <= calls.len(),
        calls.len() == replies.len(),
        host::runs(
            ShareRoomKey::rule(),
            Step::Ask(call, sharing),
            calls.take(r.0),
            replies.take(r.0),
            Step::Done(Ok(())),
        ),
        EncryptMessage::encrypts(
            draft,
            account,
            session@,
            (OutboundView {
                room_id: draft.room_id@,
                session_id: id@,
                pickled_session: Seq::empty(),
                message_count: 1,
                created_ts: now,
            }),
            r.1,
        ),
        host::runs(
            EncryptMessage::rule(),
            r.1,
            calls.skip(r.0),
            replies.skip(r.0),
            Step::Done(Ok(content)),
        ),
{
    let rule = EncryptMessage::rule();
    let inner_rule = ShareRoomKey::rule();
    let last: EncryptStep = Step::Done(Ok(content));
    let record = OutboundView {
        room_id: draft.room_id@,
        session_id: id@,
        pickled_session: Seq::empty(),
        message_count: 1,
        created_ts: now,
    };
    let whole = |s: ShareRoomKey| EncryptMessage::Sharing(draft, now, account, session, id, s);
    let after = |result: Result<(), String>, step: EncryptStep|
        match result {
            Ok(_) => EncryptMessage::encrypts(draft, account, session@, record, step),
            Err(e) => step.gives(Err(e)),
        };
    assert forall|flow: ShareRoomKey, reply: HostReply, step: EncryptStep| #[trigger]
        host::goes(rule, whole(flow), reply, step) implies host::passes_on(
        inner_rule,
        whole,
        after,
        flow,
        reply,
        step,
    ) by {
        let inner = choose|inner: ShareStep|
            #![trigger flow.moves(reply, inner)]
            flow.moves(reply, inner) && inner.passes_to(
                step,
                |s: ShareRoomKey| EncryptMessage::Sharing(draft, now, account, session, id, s),
            ) && match inner {
                Step::Done(Err(e)) => step.gives(Err(e)),
                Step::Done(Ok(_)) => EncryptMessage::encrypts(
                    draft,
                    account,
                    session@,
                    record,
                    step,
                ),
                _ => true,
            };
        assert(host::goes(inner_rule, flow, reply, inner));
        assert(inner matches Step::Done(result) ==> after(result, step));
    }
    let (k, result, step) = host::inner_run_ends(
        inner_rule,
        rule,
        whole,
        after,
        call,
        sharing,
        calls,
        replies,
        last,
    );
    if result is Err {
        host::run_is_over(rule, step, calls.skip(k), replies.skip(k), last);
    }
    assert(result->Ok_0 == ());
    (k, step)
}

/// The body of a claim reads back: it asks for a signed one-time key of the device of the user.
pub proof fn claim_reads_back(user_id: Seq<char>, device_id: Seq<char>) -> (tree: JsonTree)
    ensures
        claim_text(user_id, device_id) == json_tree::written(tree),
        json_tree::fits(tree, 3),
        json_tree::at(tree, seq!["one_time_keys"@, user_id, device_id]) == Some(
            JsonTree::Str("signed_curve25519"@),
        ),
{
    let device = seq![(device_id, JsonTree::Str("signed_curve25519"@))];
    json_tree::written_members_are(
        device,
        seq![(device_id, json::string_text("signed_curve25519"@))],
    );
    json_tree::members_all_fit(device, 0);
    let user = seq![(user_id, JsonTree::Object(device))];
    json_tree::written_members_are(
        user,
        seq![(user_id, json_tree::written(JsonTree::Object(device)))],
    );
    json_tree::members_all_fit(user, 1);
    let outer = seq![("one_time_keys"@, JsonTree::Object(user))];
    json_tree::written_members_are(
        outer,
        seq![("one_time_keys"@, json_tree::written(JsonTree::Object(user)))],
    );
    json_tree::members_all_fit(outer, 2);
    let path = seq!["one_time_keys"@, user_id, device_id];
    json_tree::ways_go_on(outer, 0, path);
    json_tree::ways_go_on(user, 0, path.skip(1));
    json_tree::ways_go_on(device, 0, path.skip(1).skip(1));
    assert(path.skip(1).skip(1).skip(1) =~= Seq::empty());
    JsonTree::Object(outer)
}

/// The body of the query for device keys reads back: it asks for all devices of each of the users.
pub proof fn query_reads_back(members: Seq<Seq<char>>) -> (tree: JsonTree)
    requires
        members.no_duplicates(),
    ensures
        query_text(members) == json_tree::written(tree),
        json_tree::fits(tree, 3),
        forall|i: int|
            0 <= i < members.len() ==> json_tree::at(
                tree,
                seq!["device_keys"@, #[trigger] members[i]],
            ) == Some(JsonTree::Array(Seq::empty())),
{
    reveal_strlit("[]");
    let all = JsonTree::Array(Seq::empty());
    assert(json_tree::written_items(Seq::empty()) =~= Seq::empty());
    assert(json_tree::written(all) =~= "[]"@);
    let users = members.map_values(|m: Seq<char>| (m, all));
    let texts = members.map_values(|m: Seq<char>| (m, "[]"@));
    json_tree::written_members_are(users, texts);
    assert forall|i: int, j: int| 0 <= i < j < users.len() implies users[i].0 != users[j].0 by {
        assert(members[i] != members[j]);
    }
    let sorted = json_tree::sorted_object_is_written(users);
    assert forall|i: int| 0 <= i < users.len() implies json_tree::fits(
        (#[trigger] users[i]).1,
        1,
    ) by {
        json_tree::items_all_fit(Seq::empty(), 0);
    }
    json_tree::reordered_members_fit(sorted, users, 1);
    let outer = seq![("device_keys"@, JsonTree::Object(sorted))];
    json_tree::written_members_are(
        outer,
        seq![("device_keys"@, json::sorted_object_text(texts))],
    );
    json_tree::members_all_fit(outer, 2);
    assert forall|i: int| 0 <= i < members.len() implies json_tree::at(
        JsonTree::Object(outer),
        seq!["device_keys"@, #[trigger] members[i]],
    ) == Some(all) by {
        let path = seq!["device_keys"@, members[i]];
        json_tree::ways_go_on(outer, 0, path);
        json_tree::sorted_ways_go_on(sorted, users, i, path.skip(1));
        assert(path.skip(1).skip(1) =~= Seq::empty());
    }
    JsonTree::Object(outer)
}

/// The content of the event that carries an Olm message reads back: it tells who sends it, and has the
/// message under the key of the device that it is for.
pub proof fn olm_event_reads_back(
    our_key: Seq<char>,
    their_key: Seq<char>,
    kind: u64,
    body: Seq<char>,
) -> (tree: JsonTree)
    ensures
        olm_event_text(our_key, their_key, kind, body) == json_tree::written(tree),
        json_tree::fits(tree, 3),
        json_tree::at(tree, seq!["algorithm"@]) == Some(
            JsonTree::Str("m.olm.v1.curve25519-aes-sha2"@),
        ),
        json_tree::at(tree, seq!["sender_key"@]) == Some(JsonTree::Str(our_key)),
        json_tree::at(tree, seq!["ciphertext"@, their_key, "type"@]) == Some(
            JsonTree::Unsigned(kind),
        ),
        json_tree::at(tree, seq!["ciphertext"@, their_key, "body"@]) == Some(JsonTree::Str(body)),
{
    reveal_strlit("type");
    reveal_strlit("body");
    reveal_strlit("algorithm");
    reveal_strlit("sender_key");
    reveal_strlit("ciphertext");
    let message = seq![
        ("type"@, JsonTree::Unsigned(kind)),
        ("body"@, JsonTree::Str(body)),
    ];
    json_tree::written_members_are(
        message,
        seq![
            ("type"@, text::decimal_text(kind as nat)),
            ("body"@, json::string_text(body)),
        ],
    );
    assert(message[0].0[0] != message[1].0[0]);
    let sorted_message = json_tree::sorted_object_is_written(message);
    json_tree::reordered_members_fit(sorted_message, message, 0);
    let for_key = seq![(their_key, JsonTree::Object(sorted_message))];
    json_tree::written_members_are(
        for_key,
        seq![(their_key, json_tree::written(JsonTree::Object(sorted_message)))],
    );
    json_tree::members_all_fit(for_key, 1);
    let outer = seq![
        ("algorithm"@, JsonTree::Str("m.olm.v1.curve25519-aes-sha2"@)),
        ("sender_key"@, JsonTree::Str(our_key)),
        ("ciphertext"@, JsonTree::Object(for_key)),
    ];
    json_tree::written_members_are(
        outer,
        seq![
            ("algorithm"@, json::string_text("m.olm.v1.curve25519-aes-sha2"@)),
            ("sender_key"@, json::string_text(our_key)),
            ("ciphertext"@, json_tree::written(JsonTree::Object(for_key))),
        ],
    );
    assert(outer[0].0[0] == 'a' && outer[1].0[0] == 's' && outer[2].0[0] == 'c');
    let sorted = json_tree::sorted_object_is_written(outer);
    json_tree::reordered_members_fit(sorted, outer, 2);
    json_tree::sorted_ways_go_on(sorted, outer, 0, seq!["algorithm"@]);
    json_tree::sorted_ways_go_on(sorted, outer, 1, seq!["sender_key"@]);
    assert(seq!["algorithm"@].skip(1) =~= Seq::empty());
    assert(seq!["sender_key"@].skip(1) =~= Seq::empty());
    let to_type = seq!["ciphertext"@, their_key, "type"@];
    let to_body = seq!["ciphertext"@, their_key, "body"@];
    json_tree::sorted_ways_go_on(sorted, outer, 2, to_type);
    json_tree::sorted_ways_go_on(sorted, outer, 2, to_body);
    json_tree::ways_go_on(for_key, 0, to_type.skip(1));
    json_tree::ways_go_on(for_key, 0, to_body.skip(1));
    json_tree::sorted_ways_go_on(sorted_message, message, 0, to_type.skip(1).skip(1));
    json_tree::sorted_ways_go_on(sorted_message, message, 1, to_body.skip(1).skip(1));
    assert(to_type.skip(1).skip(1).skip(1) =~= Seq::empty());
    assert(to_body.skip(1).skip(1).skip(1) =~= Seq::empty());
    JsonTree::Object(sorted)
}

/// Whether no user is among the messages twice, and no device of a user.
pub open spec fn are_for_different_devices(messages: MessagesView) -> bool {
    &&& forall|i: int, j: int|
        0 <= i < j < messages.len() ==> messages[i].0 != messages[j].0
    &&& forall|i: int, j: int, k: int|
        0 <= i < messages.len() && 0 <= j < k < messages[i].1.len() ==> (
        #[trigger] messages[i].1[j]).0 != (#[trigger] messages[i].1[k]).0
}

/// The body of the request that sends messages to devices reads back: it has the content of every message
/// under its user and device.
pub proof fn messages_read_back(messages: MessagesView, contents: Seq<Seq<JsonTree>>, depth: nat) -> (tree:
    JsonTree)
    requires
        are_for_different_devices(messages),
        contents.len() == messages.len(),
        forall|i: int|
            0 <= i < messages.len() ==> (#[trigger] contents[i]).len() == messages[i].1.len(),
        forall|i: int, j: int|
            0 <= i < messages.len() && 0 <= j < messages[i].1.len() ==> json_tree::written(
                #[trigger] contents[i][j],
            ) == messages[i].1[j].1 && json_tree::fits(contents[i][j], depth),
    ensures
        messages_text(messages) == json_tree::written(tree),
        json_tree::fits(tree, depth + 3),
        forall|i: int, j: int|
            0 <= i < messages.len() && 0 <= j < messages[i].1.len() ==> json_tree::at(
                tree,
                seq!["messages"@, messages[i].0, (#[trigger] messages[i].1[j]).0],
            ) == Some(contents[i][j]),
{
    let members = |i: int|
        Seq::new(messages[i].1.len(), |j: int| (messages[i].1[j].0, contents[i][j]));
    let sorted_of = |i: int|
        choose|sorted: Seq<(Seq<char>, JsonTree)>| #[trigger]
            is_sorted_of(sorted, members(i), depth);
    assert forall|i: int| 0 <= i < messages.len() implies is_sorted_of(
        #[trigger] sorted_of(i),
        members(i),
        depth,
    ) && json_tree::written(JsonTree::Object(sorted_of(i))) == json::sorted_object_text(
        messages[i].1,
    ) && json_tree::names_differ(members(i)) by {
        let some = members(i);
        assert forall|j: int, k: int| 0 <= j < k < some.len() implies some[j].0 != some[k].0 by {
            assert(messages[i].1[j].0 != messages[i].1[k].0);
        }
        assert forall|j: int| 0 <= j < some.len() implies (#[trigger] some[j]).0
            == messages[i].1[j].0 && json_tree::written(some[j].1) == messages[i].1[j].1
            && json_tree::fits(some[j].1, depth) by {
            assert(contents[i][j] == some[j].1);
        }
        json_tree::written_members_are(some, messages[i].1);
        let sorted = json_tree::sorted_object_is_written(some);
        json_tree::reordered_members_fit(sorted, some, depth);
        assert(is_sorted_of(sorted, some, depth));
    }
    let users = Seq::new(
        messages.len(),
        |i: int| (messages[i].0, JsonTree::Object(sorted_of(i))),
    );
    let by_user = messages.map_values(
        |m: (Seq<char>, Seq<(Seq<char>, Seq<char>)>)| (m.0, json::sorted_object_text(m.1)),
    );
    assert forall|i: int| 0 <= i < users.len() implies (#[trigger] users[i]).0 == by_user[i].0
        && json_tree::written(users[i].1) == by_user[i].1 && json_tree::fits(
        users[i].1,
        depth + 1,
    ) by {
        assert(is_sorted_of(sorted_of(i), members(i), depth));
    }
    json_tree::written_members_are(users, by_user);
    assert forall|i: int, j: int| 0 <= i < j < users.len() implies users[i].0 != users[j].0 by {
        assert(messages[i].0 != messages[j].0);
    }
    let sorted_users = json_tree::sorted_object_is_written(users);
    json_tree::reordered_members_fit(sorted_users, users, depth + 1);
    let outer = seq![("messages"@, JsonTree::Object(sorted_users))];
    json_tree::written_members_are(
        outer,
        seq![("messages"@, json::sorted_object_text(by_user))],
    );
    json_tree::members_all_fit(outer, depth + 2);
    assert forall|i: int, j: int|
        0 <= i < messages.len() && 0 <= j < messages[i].1.len() implies json_tree::at(
        JsonTree::Object(outer),
        seq!["messages"@, messages[i].0, (#[trigger] messages[i].1[j]).0],
    ) == Some(contents[i][j]) by {
        let path = seq!["messages"@, messages[i].0, messages[i].1[j].0];
        assert(is_sorted_of(sorted_of(i), members(i), depth));
        json_tree::ways_go_on(outer, 0, path);
        json_tree::sorted_ways_go_on(sorted_users, users, i, path.skip(1));
        json_tree::sorted_ways_go_on(sorted_of(i), members(i), j, path.skip(1).skip(1));
        assert(path.skip(1).skip(1).skip(1) =~= Seq::empty());
    }
    JsonTree::Object(outer)
}

spec fn is_sorted_of(
    sorted: Seq<(Seq<char>, JsonTree)>,
    members: Seq<(Seq<char>, JsonTree)>,
    depth: nat,
) -> bool {
    &&& json_tree::written(JsonTree::Object(sorted)) == json::sorted_object_text(
        json_tree::written_members(members),
    )
    &&& json_tree::fits(JsonTree::Object(sorted), depth + 1)
    &&& forall|name: Seq<char>| #[trigger]
        json_tree::member(sorted, name) == json_tree::member(members, name)
}

proof fn member_is_found(
    sorted: Seq<(Seq<char>, JsonTree)>,
    members: Seq<(Seq<char>, JsonTree)>,
    i: int,
)
    requires
        0 <= i < members.len(),
        json_tree::names_differ(members),
        forall|name: Seq<char>| #[trigger]
            json_tree::member(sorted, name) == json_tree::member(members, name),
    ensures
        json_tree::at(JsonTree::Object(sorted), seq![members[i].0]) == Some(members[i].1),
{
    let path = seq![members[i].0];
    json_tree::sorted_ways_go_on(sorted, members, i, path);
    assert(path.skip(1) =~= Seq::empty());
}

/// The payload that delivers a room key reads back: it is a room key event with the room, the ID and the key
/// of the session, from our device and for the device that it is encrypted for.
pub proof fn room_key_payload_reads_back(
    share: Share,
    recipient: Seq<char>,
    recipient_key: Seq<char>,
) -> (tree: JsonTree)
    ensures
        room_key_payload(share, recipient, recipient_key) == json_tree::written(tree),
        json_tree::fits(tree, 2),
        json_tree::at(tree, seq!["type"@]) == Some(JsonTree::Str("m.room_key"@)),
        json_tree::at(tree, seq!["content"@, "algorithm"@]) == Some(
            JsonTree::Str("m.megolm.v1.aes-sha2"@),
        ),
        json_tree::at(tree, seq!["content"@, "room_id"@]) == Some(JsonTree::Str(share.room_id@)),
        json_tree::at(tree, seq!["content"@, "session_id"@]) == Some(
            JsonTree::Str(share.session_id@),
        ),
        json_tree::at(tree, seq!["content"@, "session_key"@]) == Some(
            JsonTree::Str(share.session_key@),
        ),
        json_tree::at(tree, seq!["sender"@]) == Some(JsonTree::Str(share.sender.user_id@)),
        json_tree::at(tree, seq!["sender_device"@]) == Some(
            JsonTree::Str(share.sender.device_id@),
        ),
        json_tree::at(tree, seq!["keys"@, "ed25519"@]) == Some(
            JsonTree::Str(share.sender.ed25519_key@),
        ),
        json_tree::at(tree, seq!["recipient"@]) == Some(JsonTree::Str(recipient)),
        json_tree::at(tree, seq!["recipient_keys"@, "ed25519"@]) == Some(
            JsonTree::Str(recipient_key),
        ),
{
    reveal_strlit("algorithm");
    reveal_strlit("room_id");
    reveal_strlit("session_id");
    reveal_strlit("session_key");
    reveal_strlit("type");
    reveal_strlit("content");
    reveal_strlit("sender");
    reveal_strlit("sender_device");
    reveal_strlit("keys");
    reveal_strlit("recipient");
    reveal_strlit("recipient_keys");
    let inner = seq![
        ("algorithm"@, JsonTree::Str("m.megolm.v1.aes-sha2"@)),
        ("room_id"@, JsonTree::Str(share.room_id@)),
        ("session_id"@, JsonTree::Str(share.session_id@)),
        ("session_key"@, JsonTree::Str(share.session_key@)),
    ];
    json_tree::written_members_are(
        inner,
        seq![
            ("algorithm"@, json::string_text("m.megolm.v1.aes-sha2"@)),
            ("room_id"@, json::string_text(share.room_id@)),
            ("session_id"@, json::string_text(share.session_id@)),
            ("session_key"@, json::string_text(share.session_key@)),
        ],
    );
    assert(inner[0].0.len() == 9 && inner[1].0.len() == 7 && inner[2].0.len() == 10
        && inner[3].0.len() == 11);
    let content = json_tree::sorted_object_is_written(inner);
    json_tree::reordered_members_fit(content, inner, 0);
    let ours = seq![("ed25519"@, JsonTree::Str(share.sender.ed25519_key@))];
    json_tree::written_members_are(
        ours,
        seq![("ed25519"@, json::string_text(share.sender.ed25519_key@))],
    );
    json_tree::members_all_fit(ours, 0);
    let theirs = seq![("ed25519"@, JsonTree::Str(recipient_key))];
    json_tree::written_members_are(theirs, seq![("ed25519"@, json::string_text(recipient_key))]);
    json_tree::members_all_fit(theirs, 0);
    let outer = seq![
        ("type"@, JsonTree::Str("m.room_key"@)),
        ("content"@, JsonTree::Object(content)),
        ("sender"@, JsonTree::Str(share.sender.user_id@)),
        ("sender_device"@, JsonTree::Str(share.sender.device_id@)),
        ("keys"@, JsonTree::Object(ours)),
        ("recipient"@, JsonTree::Str(recipient)),
        ("recipient_keys"@, JsonTree::Object(theirs)),
    ];
    json_tree::written_members_are(
        outer,
        seq![
            ("type"@, json::string_text("m.room_key"@)),
            ("content"@, json_tree::written(JsonTree::Object(content))),
            ("sender"@, json::string_text(share.sender.user_id@)),
            ("sender_device"@, json::string_text(share.sender.device_id@)),
            ("keys"@, json_tree::written(JsonTree::Object(ours))),
            ("recipient"@, json::string_text(recipient)),
            ("recipient_keys"@, json_tree::written(JsonTree::Object(theirs))),
        ],
    );
    assert(outer[0].0.len() == 4 && outer[1].0.len() == 7 && outer[2].0.len() == 6
        && outer[3].0.len() == 13 && outer[4].0.len() == 4 && outer[5].0.len() == 9
        && outer[6].0.len() == 14);
    assert(outer[0].0[0] == 't' && outer[4].0[0] == 'k');
    assert forall|i: int, j: int| 0 <= i < j < outer.len() implies outer[i].0 != outer[j].0 by {
        if i == 0 && j == 4 {
            assert(outer[0].0[0] != outer[4].0[0]);
        } else {
            assert(outer[i].0.len() != outer[j].0.len());
        }
    }
    let sorted = json_tree::sorted_object_is_written(outer);
    json_tree::reordered_members_fit(sorted, outer, 1);
    let whole = JsonTree::Object(sorted);
    assert(outer[0] == ("type"@, JsonTree::Str("m.room_key"@)));
    member_is_found(sorted, outer, 0);
    assert(outer[2] == ("sender"@, JsonTree::Str(share.sender.user_id@)));
    member_is_found(sorted, outer, 2);
    assert(outer[3] == ("sender_device"@, JsonTree::Str(share.sender.device_id@)));
    member_is_found(sorted, outer, 3);
    assert(outer[5] == ("recipient"@, JsonTree::Str(recipient)));
    member_is_found(sorted, outer, 5);
    assert(inner[0] == ("algorithm"@, JsonTree::Str("m.megolm.v1.aes-sha2"@)));
    let to_algorithm = seq!["content"@, "algorithm"@];
    json_tree::sorted_ways_go_on(sorted, outer, 1, to_algorithm);
    assert(to_algorithm.skip(1) =~= seq!["algorithm"@]);
    member_is_found(content, inner, 0);
    assert(inner[1] == ("room_id"@, JsonTree::Str(share.room_id@)));
    let to_room = seq!["content"@, "room_id"@];
    json_tree::sorted_ways_go_on(sorted, outer, 1, to_room);
    assert(to_room.skip(1) =~= seq!["room_id"@]);
    member_is_found(content, inner, 1);
    assert(inner[2] == ("session_id"@, JsonTree::Str(share.session_id@)));
    let to_session = seq!["content"@, "session_id"@];
    json_tree::sorted_ways_go_on(sorted, outer, 1, to_session);
    assert(to_session.skip(1) =~= seq!["session_id"@]);
    member_is_found(content, inner, 2);
    assert(inner[3] == ("session_key"@, JsonTree::Str(share.session_key@)));
    let to_key = seq!["content"@, "session_key"@];
    json_tree::sorted_ways_go_on(sorted, outer, 1, to_key);
    assert(to_key.skip(1) =~= seq!["session_key"@]);
    member_is_found(content, inner, 3);
    let to_ours = seq!["keys"@, "ed25519"@];
    json_tree::sorted_ways_go_on(sorted, outer, 4, to_ours);
    json_tree::ways_go_on(ours, 0, to_ours.skip(1));
    assert(to_ours.skip(1).skip(1) =~= Seq::empty());
    let to_theirs = seq!["recipient_keys"@, "ed25519"@];
    json_tree::sorted_ways_go_on(sorted, outer, 6, to_theirs);
    json_tree::ways_go_on(theirs, 0, to_theirs.skip(1));
    assert(to_theirs.skip(1).skip(1) =~= Seq::empty());
    whole
}

/// The search for a session with a device fails only where the stored session or our account cannot be opened,
/// where the server has no one-time key of the device, or where the host does not save the new session.
pub proof fn finding_fails_with_cause(flow: GetOlmSession, reply: HostReply, e: String)
    requires
        flow.moves(reply, Step::Done(Err(e))),
    ensures
        host::is_setback(reply) || match flow {
            GetOlmSession::Reading(_) => reply matches HostReply::OlmSessions(sessions)
                && sessions@.len() > 0 && crypto_store::unsealed_bytes(
                sessions@[0].pickled_session@,
            ) is Err,
            GetOlmSession::Opening(_) => reply matches HostReply::Bytes(Ok(bytes)) && olm::olm_pickle(
                bytes@,
            ) is Err,
            GetOlmSession::Claiming(target) => reply matches HostReply::KeysClaim(Ok(p)) && claimed_key(
                p.parsed->Ok_0,
                target.user_id@,
                target.device_id@,
            ) is Err,
            GetOlmSession::Loading(_, _) => reply matches HostReply::Account(Some(account))
                && crypto_store::unsealed_bytes(account.pickled_account@) is Err,
            GetOlmSession::Unsealing(_, _) => reply matches HostReply::Bytes(Ok(bytes))
                && olm::account_pickle(bytes@) is Err,
            _ => false,
        },
{
    if let GetOlmSession::Saving(session, pickled, save) = flow {
        let step: GetOlmStep = Step::Done(Err(e));
        let inner = choose|inner: crypto_store::SaveOlmStep|
            #![trigger save.moves(reply, inner)]
            save.moves(reply, inner) && inner.passes_to(
                step,
                |s: SaveOlm| GetOlmSession::Saving(session, pickled, s),
            ) && match inner {
                Step::Done(Ok(_)) => step.gives(Ok((session, pickled))),
                Step::Done(Err(e)) => step.gives(Err(e)),
                _ => true,
            };
        crypto_store::saving_fails_with_the_host(save, reply, e);
    }
}

/// Whether the server tells no usable identity key of a device.
pub open spec fn has_no_key(device: (String, DeviceKeys)) -> bool {
    match types::lookup(device.1.keys@, "curve25519:"@ + device.0@) {
        None => true,
        Some(key) => olm::curve_key(key@) is Err,
    }
}

/// Whether a user other than the given one has a device without a usable identity key.
pub open spec fn some_device_has_no_key(
    users: Seq<(String, Vec<(String, DeviceKeys)>)>,
    own: Seq<char>,
) -> bool {
    exists|i: int, j: int|
        0 <= i < users.len() && users[i].0@ != own && 0 <= j < users[i].1@.len() && has_no_key(
            #[trigger] users[i].1@[j],
        )
}

proof fn proceeding_fails_with_cause(
    share: Share,
    user_id: Seq<char>,
    devices: Seq<(String, DeviceKeys)>,
    users: Seq<(String, Vec<(String, DeviceKeys)>)>,
    messages: MessagesView,
    e: String,
)
    requires
        ShareRoomKey::proceeds(share, user_id, devices, users, messages, Step::Done(Err(e))),
    ensures
        (user_id != share.sender.user_id@ && exists|j: int|
            0 <= j < devices.len() && has_no_key(#[trigger] devices[j])) || some_device_has_no_key(
            users,
            share.sender.user_id@,
        ),
    decreases users.len(), devices.len(),
{
    if devices.len() > 0 {
        if user_id == share.sender.user_id@ {
            proceeding_fails_with_cause(share, user_id, devices.skip(1), users, messages, e);
        } else {
            assert(has_no_key(devices[0]));
        }
    } else if users.len() > 0 {
        let rest = users.skip(1);
        proceeding_fails_with_cause(share, users[0].0@, users[0].1@, rest, messages, e);
        if some_device_has_no_key(rest, share.sender.user_id@) {
            let (i, j) = choose|i: int, j: int|
                0 <= i < rest.len() && rest[i].0@ != share.sender.user_id@ && 0 <= j
                    < rest[i].1@.len() && has_no_key(#[trigger] rest[i].1@[j]);
            assert(has_no_key(users[i + 1].1@[j]));
        } else {
            let j = choose|j: int| 0 <= j < users[0].1@.len() && has_no_key(
                #[trigger] users[0].1@[j],
            );
            assert(has_no_key(users[0].1@[j]));
        }
    }
}

/// Whether a device that is left to be served has no usable identity key.
pub open spec fn some_left_has_no_key(pending: Pending) -> bool {
    (exists|j: int|
        0 <= j < pending.devices@.len() && has_no_key(#[trigger] pending.devices@[j]))
        || some_device_has_no_key(pending.users@, pending.share.sender.user_id@)
}

/// The sharing of a room key fails only where the server turns a request down, where it tells no usable key of a
/// device, where a session has no index left, or where the host does not save a session. That no session with a
/// device is found is no failure: the others are served.
pub proof fn sharing_fails_with_cause(flow: ShareRoomKey, reply: HostReply, e: String)
    requires
        flow.moves(reply, Step::Done(Err(e))),
    ensures
        match flow {
            ShareRoomKey::Listing(_) => reply matches HostReply::Http(answer)
                && client::room_members(answer) is Err,
            ShareRoomKey::Querying(share) => host::is_setback(reply) || (
            reply matches HostReply::KeysQuery(Ok(p)) && some_device_has_no_key(
                p.parsed->Ok_0.device_keys@,
                share.sender.user_id@,
            )),
            ShareRoomKey::Finding(pending, find) => exists|session: OlmSession, pickled: String|
                #[trigger] find.moves(reply, Step::Done(Ok((session, pickled)))) && (types::lookup(
                    pending.keys@,
                    "ed25519:"@ + pending.device_id@,
                ) is None || !olm::has_room(session@)),
            ShareRoomKey::Skipping(pending) => some_left_has_no_key(pending),
            ShareRoomKey::Saving(pending, _, _) => host::is_setback(reply) || some_left_has_no_key(
                pending,
            ),
            _ => host::is_setback(reply),
        },
{
    let step: ShareStep = Step::Done(Err(e));
    match flow {
        ShareRoomKey::Querying(share) => {
            if !host::is_setback(reply) {
                let found = reply->KeysQuery_0->Ok_0.parsed->Ok_0;
                proceeding_fails_with_cause(
                    share,
                    Seq::empty(),
                    Seq::empty(),
                    found.device_keys@,
                    Seq::empty(),
                    e,
                );
            }
        },
        ShareRoomKey::Finding(pending, find) => {
            let inner = choose|inner: GetOlmStep|
                #![trigger find.moves(reply, inner)]
                find.moves(reply, inner) && inner.passes_to(
                    step,
                    |f: GetOlmSession| ShareRoomKey::Finding(pending, f),
                ) && match inner {
                    Step::Done(Ok((session, replaced))) => ShareRoomKey::found(
                        pending,
                        session@,
                        replaced,
                        step,
                    ),
                    Step::Done(Err(e)) => step.asks(
                        host::warning_entry(
                            "share_room_key: failed to get Olm session for "@ + pending.user_id@
                                + ":"@ + pending.device_id@ + ": "@,
                            e@ + ". Skipping."@,
                        ),
                        ShareRoomKey::Skipping(pending),
                    ),
                    _ => true,
                };
            let (session, pickled) = match inner {
                Step::Done(Ok((session, pickled))) => (session, pickled),
                _ => arbitrary(),
            };
            assert(find.moves(reply, Step::Done(Ok((session, pickled)))));
        },
        ShareRoomKey::Skipping(pending) => {
            proceeding_fails_with_cause(
                pending.share,
                pending.user_id@,
                pending.devices@,
                pending.users@,
                pending.messages@,
                e,
            );
        },
        ShareRoomKey::Saving(pending, content, save) => {
            let inner = choose|inner: crypto_store::SaveOlmStep|
                #![trigger save.moves(reply, inner)]
                save.moves(reply, inner) && inner.passes_to(
                    step,
                    |s: SaveOlm| ShareRoomKey::Saving(pending, content, s),
                ) && match inner {
                    Step::Done(Err(e)) => step.gives(Err(e)),
                    Step::Done(Ok(_)) => ShareRoomKey::goes_on(
                        pending,
                        with_message(
                            pending.messages@,
                            pending.user_id@,
                            pending.device_id@,
                            content@,
                        ),
                        step,
                    ),
                    _ => true,
                };
            if inner matches Step::Done(Err(_)) {
                crypto_store::saving_fails_with_the_host(save, reply, e);
            } else {
                proceeding_fails_with_cause(
                    pending.share,
                    pending.user_id@,
                    pending.devices@,
                    pending.users@,
                    with_message(
                        pending.messages@,
                        pending.user_id@,
                        pending.device_id@,
                        content@,
                    ),
                    e,
                );
            }
        },
        _ => {},
    }
}

/// The encryption of a message fails only where there is no account, where the stored session cannot be opened or
/// has no index left, where the key of a new session is not shared, or where the host does not save a session.
pub proof fn encryption_fails_with_cause(flow: EncryptMessage, reply: HostReply, e: String)
    requires
        flow.moves(reply, Step::Done(Err(e))),
    ensures
        host::is_setback(reply) || match flow {
            EncryptMessage::Choosing(_, now, _) => reply matches HostReply::Outbound(Some(stored))
                && crypto_store::unsealed_bytes(stored.pickled_session@) is Err
                && stored.message_count < 100 && now - stored.created_ts < 604_800_000,
            EncryptMessage::Sharing(_, _, _, session, _, sharing) => sharing.moves(
                reply,
                Step::Done(Err(e)),
            ) || megolm::outbound_index(session@) == u32::MAX,
            EncryptMessage::Opening(_, _, _) => reply matches HostReply::Bytes(Ok(bytes)) && (
            megolm::outbound_pickle(bytes@) is Err || megolm::outbound_index(
                megolm::outbound_pickle(bytes@)->Ok_0,
            ) == u32::MAX),
            _ => false,
        },
{
    if let EncryptMessage::Sharing(draft, now, account, session, id, sharing) = flow {
        let step: EncryptStep = Step::Done(Err(e));
        let inner = choose|inner: ShareStep|
            #![trigger sharing.moves(reply, inner)]
            sharing.moves(reply, inner) && inner.passes_to(
                step,
                |s: ShareRoomKey| EncryptMessage::Sharing(draft, now, account, session, id, s),
            ) && match inner {
                Step::Done(Err(e)) => step.gives(Err(e)),
                Step::Done(Ok(_)) => EncryptMessage::encrypts(
                    draft,
                    account,
                    session@,
                    OutboundView {
                        room_id: draft.room_id@,
                        session_id: id@,
                        pickled_session: Seq::empty(),
                        message_count: 1,
                        created_ts: now,
                    },
                    step,
                ),
                _ => true,
            };
        assert(inner is Done);
    }
}

/// A one-time key that the server gives for a device is found: the key field of the first entry, where it is a
/// key. Nothing is found of another device or user.
pub proof fn claimed_key_is_found(
    response: KeysClaimResponse,
    user_id: Seq<char>,
    device_id: Seq<char>,
    i: int,
    j: int,
    names: Seq<Seq<char>>,
    key: Seq<char>,
)
    requires
        0 <= i < response.one_time_keys@.len(),
        response.one_time_keys@[i].0@ == user_id,
        forall|k: int|
            0 <= k < response.one_time_keys@.len() && k != i ==> (
            #[trigger] response.one_time_keys@[k]).0@ != user_id,
        0 <= j < response.one_time_keys@[i].1@.len(),
        response.one_time_keys@[i].1@[j].0@ == device_id,
        forall|k: int|
            0 <= k < response.one_time_keys@[i].1@.len() && k != j ==> (
            #[trigger] response.one_time_keys@[i].1@[k]).0@ != device_id,
        json::names_at(response.one_time_keys@[i].1@[j].1@, ""@) == Some(names),
        names.len() > 0,
        json::string_at(
            response.one_time_keys@[i].1@[j].1@,
            "/"@ + json::pointer_token(names[0]) + "/key"@,
        ) == Some(key),
        olm::curve_key(key) is Ok,
    ensures
        claimed_key(response, user_id, device_id) == Ok::<Seq<char>, Seq<char>>(
            olm::curve_key(key)->Ok_0,
        ),
{
    types::lookup_finds_every_entry(response.one_time_keys@, user_id);
    types::lookup_finds_every_entry(response.one_time_keys@[i].1@, device_id);
}

} // verus!
