//! Incoming events: who may write to the bot, and what is handed to the agent.

use vstd::prelude::*;
use vstd::string::*;
use vstd::utf8::*;

use crate::client::{
    self, generate_txn_id, joined_members, joined_members_response, send_event_response,
    send_text_message,
};
use crate::decryption::{try_decrypt_event, Sessions, TryDecrypt, TryDecryptStep};
use crate::host::{
    self, log_error, log_warning, CallView, EmittedMessage, EmittedView, HostCall, HostReply, Step,
};
use crate::json::{self, read_stored_list, sorted_object_json, string_json};
use crate::json_tree::{self, JsonTree};
use crate::session_cache::MegolmSessionCache;
use crate::sync::{
    self, build_message_metadata, is_room_encrypted, is_valid_room_id, is_valid_user_id, list_has,
    parse_message_event, read_homeserver_url,
};
use crate::text::{self, chars_of, concat3, find_char, same_text, text_of};
use crate::types::{self, field, RoomEvent};

verus! {

// ---------------------------------------------------------------------------
// Names and rooms
// ---------------------------------------------------------------------------

/// The display name in a user ID: what stands before the first colon, without the `@` that it
/// starts with.
pub open spec fn display_name(user_id: Seq<char>) -> Seq<char> {
    let rest = if user_id.len() > 0 && user_id[0] == '@' {
        user_id.skip(1)
    } else {
        user_id
    };
    rest.take(text::position_of(rest, ':'))
}

/// Extract a display name from a Matrix user ID.
///
/// "@alice:example.com" -> "alice"
pub fn extract_display_name(user_id: &str) -> (name: String)
    ensures
        name@ == display_name(user_id@),
{
    let mut chars = chars_of(user_id);
    if chars.len() > 0 && chars[0] == '@' {
        let ghost all = chars@;
        let _ = chars.remove(0);
        assert(chars@ =~= all.skip(1));
    }
    let colon: usize = find_char(&chars, ':');
    proof {
        text::position_of_is_first(chars@, ':');
    }
    assert(chars@.subrange(0, colon as int) =~= chars@.take(colon as int));
    text_of(&chars, 0, colon)
}

/// Whether a room is allowed by a list of rooms: an empty one allows all.
pub open spec fn room_allowed(rooms: Seq<Seq<char>>, room_id: Seq<char>) -> bool {
    rooms.len() == 0 || rooms.contains(room_id)
}

/// Check if a room is in the allowed rooms list: given what is stored.
///
/// If the allowed list is empty, all rooms are allowed.
pub fn is_room_allowed(stored: &Option<String>, room_id: &str) -> (allowed: bool)
    ensures
        allowed == room_allowed(json::stored_list(json::opt_text(*stored)), room_id@),
        forall|list: Seq<Seq<char>>|
            json::opt_text(*stored) == Some(#[trigger] json::string_array_text(list)) ==> allowed
                == room_allowed(list, room_id@),
{
    let rooms = read_stored_list(stored);
    assert(text::texts(rooms@).len() == rooms@.len());
    rooms.len() == 0 || list_has(&rooms, room_id)
}

/// Whether a stored flag is set.
pub open spec fn flag_set(stored: Option<String>) -> bool {
    json::opt_text(stored) == Some("true"@)
}

/// Reads a stored flag.
pub fn read_flag(stored: &Option<String>) -> (set: bool)
    ensures
        set == flag_set(*stored),
{
    match stored {
        Some(s) => same_text(s.as_str(), "true"),
        None => false,
    }
}

// ---------------------------------------------------------------------------
// Permission and pairing
// ---------------------------------------------------------------------------

/// A sender who writes in a room.
pub struct Applicant {
    pub sender: String,
    pub room_id: String,
    /// The counter of the transaction ID of a reply.
    pub txn: u64,
}

/// Checks if a sender is permitted. For pairing mode, sends a pairing code message if denied.
pub enum CheckPermission {
    /// The host is to read the DM policy.
    Policy(Applicant),
    /// The host is to read whether to respond to all. Holds whether the policy is pairing.
    RespondAll(Applicant, bool),
    /// The host is to read the configured list of allowed senders.
    AllowFrom(Applicant, bool),
    /// The host is to tell the senders that the pairing store allows. Holds the configured ones.
    Store(Applicant, bool, Vec<String>),
    /// The host is to tell whether the pairing store allows the sender.
    Asking(Applicant, bool),
    /// The host is to log that it could not tell.
    Complaining(Applicant, bool),
    /// The host is to enter a pairing request.
    Requesting(Applicant),
    /// The request is new: the host is to read the homeserver URL. Holds the code.
    Replying(Applicant, String),
    /// The host is to tell the time, for the transaction ID. Holds the code and the URL.
    Naming(Applicant, String, String),
    /// The host is to send the code.
    Sending,
    /// The sender is not permitted: the host is to log what failed on the way.
    Ending,
}

/// A step of the check. It gives whether the sender is permitted.
pub type PermissionStep = Step<CheckPermission, bool>;

/// The metadata of a pairing request.
pub open spec fn pairing_text(sender: Seq<char>, room_id: Seq<char>) -> Seq<char> {
    json::sorted_object_text(
        seq![
            ("user_id"@, json::string_text(sender)),
            ("room_id"@, json::string_text(room_id)),
        ],
    )
}

fn pairing_json(sender: &str, room_id: &str) -> (r: String)
    ensures
        r@ == pairing_text(sender@, room_id@),
{
    let members = vec![field("user_id", string_json(sender)), field("room_id", string_json(room_id))];
    assert(json::member_views(members@) =~= seq![
        ("user_id"@, json::string_text(sender@)),
        ("room_id"@, json::string_text(room_id@)),
    ]);
    sorted_object_json(members)
}

/// The message that tells a pairing code.
pub open spec fn pairing_reply(code: Seq<char>) -> Seq<char> {
    "To pair with this bot, run: `ironclaw pairing approve matrix "@ + code + "`"@
}

/// Whether a list of allowed senders allows a sender: it names the sender, or everybody.
pub open spec fn sender_allowed(allowed: Seq<Seq<char>>, sender: Seq<char>) -> bool {
    allowed.contains("*"@) || allowed.contains(sender)
}

impl CheckPermission {
    /// The flow starts: the host is asked for the DM policy.
    pub open spec fn begins(
        self,
        call: HostCall,
        sender: Seq<char>,
        room_id: Seq<char>,
        txn: u64,
    ) -> bool {
        &&& call@ == CallView::Read("state/dm_policy"@)
        &&& self matches CheckPermission::Policy(a)
        &&& a.sender@ == sender
        &&& a.room_id@ == room_id
        &&& a.txn == txn
    }

    /// The sender is not in the lists: a pairing request is entered where the policy is pairing.
    pub open spec fn denies(applicant: Applicant, pairing: bool, step: PermissionStep) -> bool {
        if pairing {
            step.asks(
                CallView::PairingUpsert(
                    "matrix"@,
                    applicant.sender@,
                    pairing_text(applicant.sender@, applicant.room_id@),
                ),
                CheckPermission::Requesting(applicant),
            )
        } else {
            step.gives(false)
        }
    }

    /// The flow goes on from an answer. The open policy permits everybody, and so does the flag to
    /// respond to all; else the sender must be in the configured list or in the pairing store. A
    /// sender who is not gets a pairing code where the policy is pairing and the request is new.
    pub open spec fn moves(self, reply: HostReply, step: PermissionStep) -> bool {
        match (self, reply) {
            (CheckPermission::Policy(a), HostReply::Text(stored)) => {
                if json::opt_text(stored) == Some("open"@) {
                    step.gives(true)
                } else {
                    step.asks(
                        CallView::Read("state/respond_to_all_room_messages"@),
                        CheckPermission::RespondAll(
                            a,
                            stored is None || stored->0@ == "pairing"@,
                        ),
                    )
                }
            },
            (CheckPermission::RespondAll(a, pairing), HostReply::Text(stored)) => {
                if flag_set(stored) {
                    step.gives(true)
                } else {
                    step.asks(
                        CallView::Read("state/allow_from"@),
                        CheckPermission::AllowFrom(a, pairing),
                    )
                }
            },
            (CheckPermission::AllowFrom(a, pairing), HostReply::Text(stored)) => {
                step matches Step::Ask(call, CheckPermission::Store(b, p, allowed)) && call@
                    == CallView::PairingAllowFrom("matrix"@) && b == a && p == pairing
                    && text::texts(allowed@) == json::stored_list(json::opt_text(stored))
            },
            (CheckPermission::Store(a, pairing, configured), HostReply::PairingAllowFrom(stored)) => {
                let allowed = match stored {
                    Ok(approved) => text::texts(configured@) + text::texts(approved@),
                    Err(_) => text::texts(configured@),
                };
                if sender_allowed(allowed, a.sender@) {
                    step.gives(true)
                } else {
                    step.asks(
                        CallView::PairingIsAllowed("matrix"@, a.sender@),
                        CheckPermission::Asking(a, pairing),
                    )
                }
            },
            (CheckPermission::Asking(a, pairing), HostReply::PairingIsAllowed(allowed)) => {
                match allowed {
                    Ok(true) => step.gives(true),
                    Ok(false) => Self::denies(a, pairing, step),
                    Err(e) => step.asks(
                        host::error_entry("Pairing check failed: "@, e@),
                        CheckPermission::Complaining(a, pairing),
                    ),
                }
            },
            (CheckPermission::Complaining(a, pairing), HostReply::Finished) => Self::denies(
                a,
                pairing,
                step,
            ),
            (CheckPermission::Requesting(a), HostReply::PairingUpsert(entered)) => match entered {
                Ok(request) => if request.created {
                    step.asks(
                        CallView::Read("state/homeserver_url"@),
                        CheckPermission::Replying(a, request.code),
                    )
                } else {
                    step.gives(false)
                },
                Err(e) => step.asks(
                    host::error_entry("Pairing upsert failed: "@, e@),
                    CheckPermission::Ending,
                ),
            },
            (CheckPermission::Replying(a, code), HostReply::Text(stored)) => {
                match sync::nonempty(stored) {
                    Some(url) => step.asks(CallView::Now, CheckPermission::Naming(a, code, url)),
                    None => step.gives(false),
                }
            },
            (CheckPermission::Naming(a, code, url), HostReply::Time(now)) => step.asks(
                CallView::SendEvent(
                    client::text_message_request(
                        url@,
                        a.room_id@,
                        client::txn_id_text(now, a.txn),
                        pairing_reply(code@),
                    ),
                ),
                CheckPermission::Sending,
            ),
            (CheckPermission::Sending, HostReply::SendEvent(response)) => {
                match client::accepted(response, "send event"@, "send event response"@) {
                    Ok(_) => step.gives(false),
                    Err(e) => step.asks(
                        host::error_entry("Failed to send pairing reply: "@, e),
                        CheckPermission::Ending,
                    ),
                }
            },
            (CheckPermission::Ending, HostReply::Finished) => step.gives(false),
            _ => step.strays(self),
        }
    }

    fn deny(a: Applicant, pairing: bool) -> (step: PermissionStep)
        ensures
            Self::denies(a, pairing, step),
    {
        if !pairing {
            return Step::Done(false);
        }
        let meta = pairing_json(a.sender.as_str(), a.room_id.as_str());
        let sender = a.sender.clone();
        Step::Ask(
            HostCall::PairingUpsert("matrix".to_owned(), sender, meta),
            CheckPermission::Requesting(a),
        )
    }

    /// Goes on from an answer of the host.
    pub fn resume(self, reply: HostReply) -> (step: PermissionStep)
        ensures
            self.moves(reply, step),
    {
        match (self, reply) {
            (CheckPermission::Policy(a), HostReply::Text(stored)) => {
                let pairing = match &stored {
                    Some(policy) => {
                        if same_text(policy.as_str(), "open") {
                            return Step::Done(true);
                        }
                        same_text(policy.as_str(), "pairing")
                    },
                    None => true,
                };
                Step::Ask(
                    HostCall::Read("state/respond_to_all_room_messages".to_owned()),
                    CheckPermission::RespondAll(a, pairing),
                )
            },
            (CheckPermission::RespondAll(a, pairing), HostReply::Text(stored)) => {
                if read_flag(&stored) {
                    return Step::Done(true);
                }
                Step::Ask(
                    HostCall::Read("state/allow_from".to_owned()),
                    CheckPermission::AllowFrom(a, pairing),
                )
            },
            (CheckPermission::AllowFrom(a, pairing), HostReply::Text(stored)) => {
                let allowed = read_stored_list(&stored);
                Step::Ask(
                    HostCall::PairingAllowFrom("matrix".to_owned()),
                    CheckPermission::Store(a, pairing, allowed),
                )
            },
            (CheckPermission::Store(a, pairing, configured), HostReply::PairingAllowFrom(stored)) => {
                let allowed = match &stored {
                    Ok(approved) => {
                        proof {
                            let all = text::texts(configured@) + text::texts(approved@);
                            assert forall|item: Seq<char>| #[trigger] all.contains(item) == (
                            text::texts(configured@).contains(item) || text::texts(
                                approved@,
                            ).contains(item)) by {
                                sum_contains(
                                    text::texts(configured@),
                                    text::texts(approved@),
                                    item,
                                );
                            }
                        }
                        list_has(&configured, "*") || list_has(approved, "*") || list_has(
                            &configured,
                            a.sender.as_str(),
                        ) || list_has(approved, a.sender.as_str())
                    },
                    Err(_) => list_has(&configured, "*") || list_has(
                        &configured,
                        a.sender.as_str(),
                    ),
                };
                if allowed {
                    return Step::Done(true);
                }
                let sender = a.sender.clone();
                Step::Ask(
                    HostCall::PairingIsAllowed("matrix".to_owned(), sender),
                    CheckPermission::Asking(a, pairing),
                )
            },
            (CheckPermission::Asking(a, pairing), HostReply::PairingIsAllowed(allowed)) => {
                match allowed {
                    Ok(true) => Step::Done(true),
                    Ok(false) => Self::deny(a, pairing),
                    Err(e) => Step::Ask(
                        log_error("Pairing check failed: ", e.as_str()),
                        CheckPermission::Complaining(a, pairing),
                    ),
                }
            },
            (CheckPermission::Complaining(a, pairing), HostReply::Finished) => {
                Self::deny(a, pairing)
            },
            (CheckPermission::Requesting(a), HostReply::PairingUpsert(entered)) => match entered {
                Ok(request) => if request.created {
                    Step::Ask(
                        HostCall::Read("state/homeserver_url".to_owned()),
                        CheckPermission::Replying(a, request.code),
                    )
                } else {
                    Step::Done(false)
                },
                Err(e) => Step::Ask(
                    log_error("Pairing upsert failed: ", e.as_str()),
                    CheckPermission::Ending,
                ),
            },
            (CheckPermission::Replying(a, code), HostReply::Text(stored)) => {
                match read_homeserver_url(stored) {
                    Some(url) => Step::Ask(HostCall::Now, CheckPermission::Naming(a, code, url)),
                    None => Step::Done(false),
                }
            },
            (CheckPermission::Naming(a, code, url), HostReply::Time(now)) => {
                let reply = concat3(
                    "To pair with this bot, run: `ironclaw pairing approve matrix ",
                    code.as_str(),
                    "`",
                );
                let txn_id = generate_txn_id(now, a.txn);
                let request = send_text_message(
                    url.as_str(),
                    a.room_id.as_str(),
                    txn_id.as_str(),
                    reply.as_str(),
                );
                Step::Ask(HostCall::SendEvent(request), CheckPermission::Sending)
            },
            (CheckPermission::Sending, HostReply::SendEvent(response)) => {
                match send_event_response(response) {
                    Ok(_) => Step::Done(false),
                    Err(e) => Step::Ask(
                        log_error("Failed to send pairing reply: ", e.as_str()),
                        CheckPermission::Ending,
                    ),
                }
            },
            (CheckPermission::Ending, HostReply::Finished) => Step::Done(false),
            (flow, _) => Step::Stray(flow),
        }
    }
}

proof fn sum_contains(a: Seq<Seq<char>>, b: Seq<Seq<char>>, item: Seq<char>)
    ensures
        (a + b).contains(item) == (a.contains(item) || b.contains(item)),
{
    if a.contains(item) {
        let i = choose|i: int| 0 <= i < a.len() && a[i] == item;
        assert((a + b)[i] == item);
    }
    if b.contains(item) {
        let i = choose|i: int| 0 <= i < b.len() && b[i] == item;
        assert((a + b)[a.len() + i] == item);
    }
    if (a + b).contains(item) {
        let i = choose|i: int| 0 <= i < (a + b).len() && (a + b)[i] == item;
        if i < a.len() {
            assert(a[i] == item);
        } else {
            assert(b[i - a.len()] == item);
        }
    }
}

/// Check if a sender is permitted. Gives true if allowed.
/// For pairing mode, sends a pairing code message if denied.
pub fn check_sender_permission(sender: String, room_id: String, txn: u64) -> (start: (
    HostCall,
    CheckPermission,
))
    ensures
        start.1.begins(start.0, sender@, room_id@, txn),
{
    let applicant = Applicant { sender, room_id, txn };
    (HostCall::Read("state/dm_policy".to_owned()), CheckPermission::Policy(applicant))
}

// ---------------------------------------------------------------------------
// Incoming events
// ---------------------------------------------------------------------------

/// A message for the agent, before its sender is permitted.
pub struct Message {
    pub room_id: String,
    pub event_id: String,
    pub sender: String,
    pub body: String,
    /// Whether it was decrypted; else the room tells whether it is encrypted.
    pub decrypted: bool,
}

/// What is handed to the agent of a message.
pub open spec fn emitted(message: Message, encrypted: bool) -> EmittedView {
    EmittedView {
        user_id: message.sender@,
        user_name: Some(display_name(message.sender@)),
        content: message.body@,
        thread_id: None,
        metadata_json: types::metadata_json(
            message.room_id@,
            message.event_id@,
            message.sender@,
            encrypted,
        ),
    }
}

/// Emit a message to the agent.
fn emit_agent_message(message: Message, encrypted: bool) -> (call: HostCall)
    ensures
        call@ == CallView::Emit(emitted(message, encrypted)),
{
    let metadata_json = build_message_metadata(
        message.room_id.as_str(),
        message.event_id.as_str(),
        message.sender.as_str(),
        encrypted,
    );
    let user_name = extract_display_name(message.sender.as_str());
    HostCall::Emit(
        EmittedMessage {
            user_id: message.sender,
            user_name: Some(user_name),
            content: message.body,
            thread_id: None,
            metadata_json,
        },
    )
}

/// An event of a room that is to be processed.
pub struct Arrival {
    pub room_id: String,
    pub event: RoomEvent,
    pub e2ee_enabled: bool,
    /// The counter of the transaction ID of a reply.
    pub txn: u64,
}

/// Processes an incoming event from /sync.
pub enum ProcessIncoming {
    /// The host is to read the allowed rooms.
    Admitting(Arrival, MegolmSessionCache),
    /// The room is allowed: the host is to read whether to respond in all rooms.
    Scoping(Arrival, MegolmSessionCache),
    /// Only DM rooms count: the host is to read the homeserver URL.
    Locating(Arrival, MegolmSessionCache),
    /// The host is to ask for the members of the room.
    Surveying(Arrival, MegolmSessionCache),
    /// The event is to be decrypted.
    Decrypting(String, RoomEvent, u64, TryDecrypt),
    /// The permission of the sender is to be checked.
    Permitting(Message, MegolmSessionCache, CheckPermission),
    /// The host is to read the encrypted rooms.
    Marking(Message, MegolmSessionCache),
    /// The host is to hand the message to the agent.
    Emitting(MegolmSessionCache),
    /// The event is passed over: the host is to log why.
    Ending(MegolmSessionCache),
}

/// How many members a DM room has at most: the bot and the other.
pub const DM_ROOM_MEMBERS: usize = 2;

/// A step of the processing. It gives the sessions.
pub type ProcessStep = Step<ProcessIncoming, MegolmSessionCache>;

/// A text that may be missing, or an empty one.
pub open spec fn or_empty(s: Option<String>) -> Seq<char> {
    match s {
        Some(s) => s@,
        None => ""@,
    }
}

fn text_or_empty(s: Option<String>) -> (r: String)
    ensures
        r@ == or_empty(s),
{
    match s {
        Some(s) => s,
        None => "".to_owned(),
    }
}

impl ProcessIncoming {
    /// What the flow does from an answer.
    pub open spec fn rule() -> host::Rule<ProcessIncoming, MegolmSessionCache> {
        |flow: ProcessIncoming, reply: HostReply, step: ProcessStep| flow.moves(reply, step)
    }

    /// Whether the processing is done, with these sessions.
    pub open spec fn ends(sessions: Sessions, step: ProcessStep) -> bool {
        step matches Step::Done(cache) && cache@ == sessions
    }

    /// Whether the event is passed over, with a log entry.
    pub open spec fn complains(entry: CallView, sessions: Sessions, step: ProcessStep) -> bool {
        step matches Step::Ask(call, ProcessIncoming::Ending(cache)) && call@ == entry && cache@
            == sessions
    }

    /// The flow starts: an event of a room with an invalid ID is passed over.
    pub open spec fn begins(
        room_id: Seq<char>,
        event: RoomEvent,
        e2ee_enabled: bool,
        sessions: Sessions,
        txn: u64,
        step: ProcessStep,
    ) -> bool {
        if !sync::valid_room_id(room_id) {
            Self::complains(
                host::warning_entry("Rejected: invalid room ID format: "@, room_id),
                sessions,
                step,
            )
        } else {
            step matches Step::Ask(call, ProcessIncoming::Admitting(a, cache)) && call@
                == CallView::Read("state/allowed_room_ids"@) && a.room_id@ == room_id && a.event
                == event && a.e2ee_enabled == e2ee_enabled && cache@ == sessions && a.txn == txn
        }
    }

    /// The permission of the sender of a message is checked.
    pub open spec fn checks(
        room_id: Seq<char>,
        event_id: Seq<char>,
        sender: Seq<char>,
        body: Seq<char>,
        decrypted: bool,
        sessions: Sessions,
        txn: u64,
        step: ProcessStep,
    ) -> bool {
        &&& step matches Step::Ask(call, ProcessIncoming::Permitting(m, cache, check))
        &&& m.room_id@ == room_id
        &&& m.event_id@ == event_id
        &&& m.sender@ == sender
        &&& m.body@ == body
        &&& m.decrypted == decrypted
        &&& cache@ == sessions
        &&& check.begins(call, sender, room_id, txn)
    }

    /// What a step of the decryption is as a step of the whole.
    pub open spec fn decrypts(
        room_id: String,
        event: RoomEvent,
        txn: u64,
        inner: TryDecryptStep,
        step: ProcessStep,
    ) -> bool {
        inner.passes_to(step, |d: TryDecrypt| ProcessIncoming::Decrypting(room_id, event, txn, d))
            && match inner {
            Step::Done((Ok(body), cache)) => Self::checks(
                room_id@,
                or_empty(event.event_id),
                or_empty(event.sender),
                body@,
                true,
                cache@,
                txn,
                step,
            ),
            Step::Done((Err(e), cache)) => Self::complains(
                host::warning_entry("Failed to decrypt event in "@ + room_id@ + ": "@, e@),
                cache@,
                step,
            ),
            _ => true,
        }
    }

    /// What follows for an event of a room that counts: an encrypted one is decrypted where E2EE is on;
    /// the sender of a text message, who must have a valid ID, is checked.
    pub open spec fn lets_in(
        room_id: String,
        event: RoomEvent,
        e2ee_enabled: bool,
        sessions: Sessions,
        txn: u64,
        step: ProcessStep,
    ) -> bool {
        if event.event_type@ == "m.room.encrypted"@ {
            if !e2ee_enabled {
                Self::ends(sessions, step)
            } else {
                exists|inner|
                    #![trigger TryDecrypt::begins(room_id@, event, sessions, inner)]
                    TryDecrypt::begins(room_id@, event, sessions, inner) && Self::decrypts(
                        room_id,
                        event,
                        txn,
                        inner,
                        step,
                    )
            }
        } else if event.sender is Some && event.event_id is Some && event.event_type@
            == "m.room.message"@ && sync::is_text_message(event) {
            if sync::valid_user_id(event.sender->0@) {
                Self::checks(
                    room_id@,
                    event.event_id->0@,
                    event.sender->0@,
                    event.content.message->Ok_0.body->0@,
                    false,
                    sessions,
                    txn,
                    step,
                )
            } else {
                Self::complains(
                    host::warning_entry("Rejected: invalid sender user ID: "@, event.sender->0@),
                    sessions,
                    step,
                )
            }
        } else {
            Self::ends(sessions, step)
        }
    }

    /// What follows for an arrival in a room that counts.
    pub open spec fn welcomes(arrival: Arrival, sessions: Sessions, step: ProcessStep) -> bool {
        Self::lets_in(
            arrival.room_id,
            arrival.event,
            arrival.e2ee_enabled,
            sessions,
            arrival.txn,
            step,
        )
    }

    /// The flow goes on from an answer: the message of a permitted sender in an allowed room is
    /// handed to the agent. Unless the channel responds in all rooms, the room must be a DM room: one
    /// with at most two members.
    pub open spec fn moves(self, reply: HostReply, step: ProcessStep) -> bool {
        match (self, reply) {
            (ProcessIncoming::Admitting(arrival, cache), HostReply::Text(stored)) => {
                if room_allowed(json::stored_list(json::opt_text(stored)), arrival.room_id@) {
                    step.asks(
                        CallView::Read("state/respond_to_all_room_messages"@),
                        ProcessIncoming::Scoping(arrival, cache),
                    )
                } else {
                    step.gives(cache)
                }
            },
            (ProcessIncoming::Scoping(arrival, cache), HostReply::Text(stored)) => {
                if flag_set(stored) {
                    Self::welcomes(arrival, cache@, step)
                } else {
                    step.asks(
                        CallView::Read("state/homeserver_url"@),
                        ProcessIncoming::Locating(arrival, cache),
                    )
                }
            },
            (ProcessIncoming::Locating(arrival, cache), HostReply::Text(stored)) => {
                match sync::nonempty(stored) {
                    None => step.gives(cache),
                    Some(url) => step.asks(
                        CallView::Http(client::joined_members_request(url@, arrival.room_id@)),
                        ProcessIncoming::Surveying(arrival, cache),
                    ),
                }
            },
            (ProcessIncoming::Surveying(arrival, cache), HostReply::Http(response)) => {
                match client::room_members(response) {
                    Ok(members) => if members.len() <= DM_ROOM_MEMBERS {
                        Self::welcomes(arrival, cache@, step)
                    } else {
                        step.gives(cache)
                    },
                    Err(e) => Self::complains(
                        host::warning_entry("Members of "@ + arrival.room_id@ + " unknown: "@, e),
                        cache@,
                        step,
                    ),
                }
            },
            (ProcessIncoming::Decrypting(room_id, event, txn, flow), _) => exists|inner|
                #![trigger flow.moves(reply, inner)]
                flow.moves(reply, inner) && Self::decrypts(room_id, event, txn, inner, step),
            (ProcessIncoming::Permitting(message, cache, check), _) => exists|inner|
                #![trigger check.moves(reply, inner)]
                check.moves(reply, inner) && inner.passes_to(
                    step,
                    |c: CheckPermission| ProcessIncoming::Permitting(message, cache, c),
                ) && match inner {
                    Step::Done(permitted) => if !permitted {
                        step.gives(cache)
                    } else if message.decrypted {
                        step.asks(
                            CallView::Emit(emitted(message, true)),
                            ProcessIncoming::Emitting(cache),
                        )
                    } else {
                        step.asks(
                            CallView::Read("state/encrypted_rooms"@),
                            ProcessIncoming::Marking(message, cache),
                        )
                    },
                    _ => true,
                },
            (ProcessIncoming::Marking(message, cache), HostReply::Text(stored)) => step.asks(
                CallView::Emit(
                    emitted(
                        message,
                        json::stored_list(json::opt_text(stored)).contains(message.room_id@),
                    ),
                ),
                ProcessIncoming::Emitting(cache),
            ),
            (ProcessIncoming::Emitting(cache), HostReply::Finished) => step.gives(cache),
            (ProcessIncoming::Ending(cache), HostReply::Finished) => step.gives(cache),
            _ => step.strays(self),
        }
    }

    fn check(
        room_id: String,
        event_id: String,
        sender: String,
        body: String,
        decrypted: bool,
        cache: MegolmSessionCache,
        txn: u64,
    ) -> (step: ProcessStep)
        ensures
            Self::checks(
                room_id@,
                event_id@,
                sender@,
                body@,
                decrypted,
                cache@,
                txn,
                step,
            ),
    {
        let (call, check) = check_sender_permission(sender.clone(), room_id.clone(), txn);
        let message = Message { room_id, event_id, sender, body, decrypted };
        Step::Ask(call, ProcessIncoming::Permitting(message, cache, check))
    }

    fn decrypt(room_id: String, event: RoomEvent, txn: u64, inner: TryDecryptStep) -> (step:
        ProcessStep)
        ensures
            Self::decrypts(room_id, event, txn, inner, step),
    {
        match inner {
            Step::Ask(call, flow) => Step::Ask(
                call,
                ProcessIncoming::Decrypting(room_id, event, txn, flow),
            ),
            Step::Stray(flow) => Step::Stray(
                ProcessIncoming::Decrypting(room_id, event, txn, flow),
            ),
            Step::Done((Ok(body), cache)) => Self::check(
                room_id,
                text_or_empty(event.event_id),
                text_or_empty(event.sender),
                body,
                true,
                cache,
                txn,
            ),
            Step::Done((Err(e), cache)) => {
                let what = concat3("Failed to decrypt event in ", room_id.as_str(), ": ");
                Step::Ask(log_warning(what.as_str(), e.as_str()), ProcessIncoming::Ending(cache))
            },
        }
    }

    fn let_in(
        room_id: String,
        event: RoomEvent,
        e2ee_enabled: bool,
        cache: MegolmSessionCache,
        txn: u64,
    ) -> (step: ProcessStep)
        ensures
            Self::lets_in(room_id, event, e2ee_enabled, cache@, txn, step),
    {
        if same_text(event.event_type.as_str(), "m.room.encrypted") {
            if !e2ee_enabled {
                return Step::Done(cache);
            }
            let inner = try_decrypt_event(room_id.as_str(), &event, cache);
            return Self::decrypt(room_id, event, txn, inner);
        }
        match parse_message_event(&event) {
            Some((sender, body, event_id)) => if is_valid_user_id(sender.as_str()) {
                Self::check(room_id, event_id, sender, body, false, cache, txn)
            } else {
                Step::Ask(
                    log_warning("Rejected: invalid sender user ID: ", sender.as_str()),
                    ProcessIncoming::Ending(cache),
                )
            },
            None => Step::Done(cache),
        }
    }

    fn welcome(arrival: Arrival, cache: MegolmSessionCache) -> (step: ProcessStep)
        ensures
            Self::welcomes(arrival, cache@, step),
    {
        let Arrival { room_id, event, e2ee_enabled, txn } = arrival;
        Self::let_in(room_id, event, e2ee_enabled, cache, txn)
    }

    /// Goes on from an answer of the host.
    pub fn resume(self, reply: HostReply) -> (step: ProcessStep)
        ensures
            self.moves(reply, step),
    {
        match (self, reply) {
            (ProcessIncoming::Admitting(arrival, cache), HostReply::Text(stored)) => {
                if is_room_allowed(&stored, arrival.room_id.as_str()) {
                    Step::Ask(
                        HostCall::Read("state/respond_to_all_room_messages".to_owned()),
                        ProcessIncoming::Scoping(arrival, cache),
                    )
                } else {
                    Step::Done(cache)
                }
            },
            (ProcessIncoming::Scoping(arrival, cache), HostReply::Text(stored)) => {
                if read_flag(&stored) {
                    Self::welcome(arrival, cache)
                } else {
                    Step::Ask(
                        HostCall::Read("state/homeserver_url".to_owned()),
                        ProcessIncoming::Locating(arrival, cache),
                    )
                }
            },
            (ProcessIncoming::Locating(arrival, cache), HostReply::Text(stored)) => {
                match read_homeserver_url(stored) {
                    None => Step::Done(cache),
                    Some(url) => {
                        let request = joined_members(url.as_str(), arrival.room_id.as_str());
                        Step::Ask(
                            HostCall::Http(request),
                            ProcessIncoming::Surveying(arrival, cache),
                        )
                    },
                }
            },
            (ProcessIncoming::Surveying(arrival, cache), HostReply::Http(response)) => {
                match joined_members_response(response) {
                    Ok(members) => {
                        assert(text::texts(members@).len() == members@.len());
                        if members.len() <= DM_ROOM_MEMBERS {
                            Self::welcome(arrival, cache)
                        } else {
                            Step::Done(cache)
                        }
                    },
                    Err(e) => {
                        let what = concat3("Members of ", arrival.room_id.as_str(), " unknown: ");
                        Step::Ask(
                            log_warning(what.as_str(), e.as_str()),
                            ProcessIncoming::Ending(cache),
                        )
                    },
                }
            },
            (ProcessIncoming::Decrypting(room_id, event, txn, flow), reply) => {
                let inner = flow.resume(reply);
                Self::decrypt(room_id, event, txn, inner)
            },
            (ProcessIncoming::Permitting(message, cache, check), reply) => {
                match check.resume(reply) {
                    Step::Ask(call, check) => Step::Ask(
                        call,
                        ProcessIncoming::Permitting(message, cache, check),
                    ),
                    Step::Stray(check) => Step::Stray(
                        ProcessIncoming::Permitting(message, cache, check),
                    ),
                    Step::Done(permitted) => if !permitted {
                        Step::Done(cache)
                    } else if message.decrypted {
                        Step::Ask(
                            emit_agent_message(message, true),
                            ProcessIncoming::Emitting(cache),
                        )
                    } else {
                        Step::Ask(
                            HostCall::Read("state/encrypted_rooms".to_owned()),
                            ProcessIncoming::Marking(message, cache),
                        )
                    },
                }
            },
            (ProcessIncoming::Marking(message, cache), HostReply::Text(stored)) => {
                let encrypted = is_room_encrypted(&stored, message.room_id.as_str());
                Step::Ask(
                    emit_agent_message(message, encrypted),
                    ProcessIncoming::Emitting(cache),
                )
            },
            (ProcessIncoming::Emitting(cache), HostReply::Finished) => Step::Done(cache),
            (ProcessIncoming::Ending(cache), HostReply::Finished) => Step::Done(cache),
            (flow, _) => Step::Stray(flow),
        }
    }
}

/// Process an incoming event from /sync.
pub fn process_incoming_event(
    room_id: String,
    event: RoomEvent,
    e2ee_enabled: bool,
    session_cache: MegolmSessionCache,
    txn: u64,
) -> (step: ProcessStep)
    ensures
        ProcessIncoming::begins(room_id@, event, e2ee_enabled, session_cache@, txn, step),
{
    if !is_valid_room_id(room_id.as_str()) {
        return Step::Ask(
            log_warning("Rejected: invalid room ID format: ", room_id.as_str()),
            ProcessIncoming::Ending(session_cache),
        );
    }
    let arrival = Arrival { room_id, event, e2ee_enabled, txn };
    Step::Ask(
        HostCall::Read("state/allowed_room_ids".to_owned()),
        ProcessIncoming::Admitting(arrival, session_cache),
    )
}

// ---------------------------------------------------------------------------
// Laws
// ---------------------------------------------------------------------------

/// The display name of `@name:server` is the name.
pub proof fn display_name_is_the_localpart(name: Seq<char>, server: Seq<char>)
    requires
        !name.contains(':'),
    ensures
        display_name("@"@ + name + ":"@ + server) == name,
{
    reveal_strlit("@");
    reveal_strlit(":");
    let id = "@"@ + name + ":"@ + server;
    let rest = id.skip(1);
    assert(id[0] == '@');
    assert(rest =~= name + ":"@ + server);
    text::position_of_is_first(rest, ':');
    assert(rest[name.len() as int] == ':');
    assert forall|k: int| 0 <= k < name.len() implies rest[k] != ':' by {
        assert(rest[k] == name[k]);
    }
    assert(text::position_of(rest, ':') == name.len());
    assert(rest.take(name.len() as int) =~= name);
}

/// A valid user ID has a display name.
pub proof fn valid_user_has_a_name(user_id: Seq<char>)
    requires
        sync::valid_user_id(user_id),
    ensures
        display_name(user_id).len() > 0,
{
    text::position_of_is_first(user_id.skip(1), ':');
}

/// The open policy permits everybody.
pub proof fn open_policy_permits_everybody(
    applicant: Applicant,
    stored: Option<String>,
    step: PermissionStep,
)
    requires
        json::opt_text(stored) == Some("open"@),
        CheckPermission::Policy(applicant).moves(HostReply::Text(stored), step),
    ensures
        step.gives(true),
{
}

/// A sender who is in the configured list is permitted, whatever the pairing store says.
pub proof fn listed_sender_is_permitted(
    applicant: Applicant,
    pairing: bool,
    configured: Vec<String>,
    approved: Result<Vec<String>, String>,
    step: PermissionStep,
)
    requires
        text::texts(configured@).contains(applicant.sender@),
        CheckPermission::Store(applicant, pairing, configured).moves(
            HostReply::PairingAllowFrom(approved),
            step,
        ),
    ensures
        step.gives(true),
{
    if let Ok(list) = approved {
        sum_contains(text::texts(configured@), text::texts(list@), applicant.sender@);
    }
}

impl CheckPermission {
    /// What the flow does from an answer.
    pub open spec fn rule() -> host::Rule<CheckPermission, bool> {
        |flow: CheckPermission, reply: HostReply, step: PermissionStep| flow.moves(reply, step)
    }

    /// Whether the flow, which checks this sender, has asked this.
    spec fn has_asked(self, call: CallView, sender: Seq<char>) -> bool {
        match self {
            CheckPermission::Policy(a) => a.sender@ == sender && call == CallView::Read(
                "state/dm_policy"@,
            ),
            CheckPermission::RespondAll(a, _) => a.sender@ == sender && call == CallView::Read(
                "state/respond_to_all_room_messages"@,
            ),
            CheckPermission::AllowFrom(a, _) => a.sender@ == sender && call == CallView::Read(
                "state/allow_from"@,
            ),
            CheckPermission::Asking(a, _) => a.sender@ == sender && call
                == CallView::PairingIsAllowed("matrix"@, sender),
            CheckPermission::Complaining(a, _) => a.sender@ == sender && call is Log,
            CheckPermission::Requesting(_) => call is PairingUpsert,
            CheckPermission::Replying(_, _) => call == CallView::Read("state/homeserver_url"@),
            CheckPermission::Naming(_, _, _) => call == CallView::Now,
            CheckPermission::Sending => call is SendEvent,
            CheckPermission::Ending => call is Log,
            CheckPermission::Store(_, _, _) => false,
        }
    }
}

/// Whether an answer to a question permits a sender: the policy is open, the channel responds to all,
/// the configured list or the pairing store names the sender or everybody, or the store allows the
/// sender.
pub open spec fn permits(call: CallView, reply: HostReply, sender: Seq<char>) -> bool {
    match (call, reply) {
        (CallView::Read(path), HostReply::Text(stored)) => {
            let list = json::stored_list(json::opt_text(stored));
            ||| path == "state/dm_policy"@ && json::opt_text(stored) == Some("open"@)
            ||| path == "state/respond_to_all_room_messages"@ && json::opt_text(stored) == Some(
                "true"@,
            )
            ||| path == "state/allow_from"@ && (list.contains(sender) || list.contains("*"@))
        },
        (CallView::PairingAllowFrom(channel), HostReply::PairingAllowFrom(Ok(approved))) => channel
            == "matrix"@ && (text::texts(approved@).contains(sender) || text::texts(
            approved@,
        ).contains("*"@)),
        (CallView::PairingIsAllowed(channel, who), HostReply::PairingIsAllowed(Ok(allowed))) =>
        channel == "matrix"@ && who == sender && allowed,
        _ => false,
    }
}

/// Whether one of the answers permits a sender.
pub open spec fn some_answer_permits(
    calls: Seq<CallView>,
    replies: Seq<HostReply>,
    sender: Seq<char>,
) -> bool {
    exists|i: int| 0 <= i < calls.len() && #[trigger] permits(calls[i], replies[i], sender)
}

proof fn first_answer_permits_or_a_later_one(
    calls: Seq<CallView>,
    replies: Seq<HostReply>,
    sender: Seq<char>,
)
    requires
        calls.len() == replies.len() > 0,
    ensures
        some_answer_permits(calls, replies, sender) <==> permits(calls[0], replies[0], sender)
            || some_answer_permits(calls.skip(1), replies.skip(1), sender),
{
    let (c1, r1) = (calls.skip(1), replies.skip(1));
    if some_answer_permits(c1, r1, sender) {
        let i = choose|i: int| 0 <= i < c1.len() && #[trigger] permits(c1[i], r1[i], sender);
        assert(permits(calls[i + 1], replies[i + 1], sender));
    }
    if some_answer_permits(calls, replies, sender) {
        let i = choose|i: int|
            0 <= i < calls.len() && #[trigger] permits(calls[i], replies[i], sender);
        if i > 0 {
            assert(permits(c1[i - 1], r1[i - 1], sender));
        }
    }
}

proof fn check_goes_by_the_answers(
    call: HostCall,
    flow: CheckPermission,
    calls: Seq<CallView>,
    replies: Seq<HostReply>,
    permitted: bool,
    sender: Seq<char>,
)
    requires
        host::runs(
            CheckPermission::rule(),
            Step::Ask(call, flow),
            calls,
            replies,
            Step::Done(permitted),
        ),
        flow.has_asked(call@, sender),
    ensures
        permitted <==> some_answer_permits(calls, replies, sender),
    decreases replies.len(),
{
    reveal_strlit("state/dm_policy");
    reveal_strlit("state/respond_to_all_room_messages");
    reveal_strlit("state/allow_from");
    reveal_strlit("state/homeserver_url");
    assert("state/dm_policy"@.len() == 15);
    assert("state/respond_to_all_room_messages"@.len() == 34);
    assert("state/allow_from"@.len() == 16);
    assert("state/homeserver_url"@.len() == 20);
    let rule = CheckPermission::rule();
    let last: PermissionStep = Step::Done(permitted);
    let next = host::run_goes_on(rule, Step::Ask(call, flow), calls, replies, last);
    let (c1, r1) = (calls.skip(1), replies.skip(1));
    first_answer_permits_or_a_later_one(calls, replies, sender);
    match next {
        Step::Ask(next_call, CheckPermission::Store(a, pairing, configured)) => {
            assert(flow is AllowFrom);
            let list = json::stored_list(json::opt_text(replies[0]->Text_0));
            assert(text::texts(configured@) == list);
            assert(permits(calls[0], replies[0], sender) == (list.contains(sender) || list.contains(
                "*"@,
            )));
            let after = host::run_goes_on(rule, next, c1, r1, last);
            let (c2, r2) = (c1.skip(1), r1.skip(1));
            first_answer_permits_or_a_later_one(c1, r1, sender);
            if let HostReply::PairingAllowFrom(Ok(approved)) = r1[0] {
                sum_contains(text::texts(configured@), text::texts(approved@), sender);
                sum_contains(text::texts(configured@), text::texts(approved@), "*"@);
            }
            if !(r1[0] is PairingAllowFrom) {
                host::run_is_over(rule, after, c2, r2, last);
            }
            if let Step::Ask(later_call, later) = after {
                check_goes_by_the_answers(later_call, later, c2, r2, permitted, sender);
            } else {
                host::run_is_over(rule, after, c2, r2, last);
            }
        },
        Step::Ask(next_call, next_flow) => {
            check_goes_by_the_answers(next_call, next_flow, c1, r1, permitted, sender);
        },
        _ => {
            host::run_is_over(rule, next, c1, r1, last);
        },
    }
}

/// Who is permitted: a check that comes to an end permits the sender exactly where one of the answers
/// does. The answers are those of the host, and none is left out: a sender is refused only after the
/// host was asked for the policy, for the flag to respond to all, for the whole configured list, for
/// those whom the pairing store allows, and whether it allows the sender.
pub proof fn answers_decide_who_is_permitted(
    flow: CheckPermission,
    call: HostCall,
    sender: Seq<char>,
    room_id: Seq<char>,
    txn: u64,
    calls: Seq<CallView>,
    replies: Seq<HostReply>,
    permitted: bool,
)
    requires
        flow.begins(call, sender, room_id, txn),
        host::runs(
            CheckPermission::rule(),
            Step::Ask(call, flow),
            calls,
            replies,
            Step::Done(permitted),
        ),
    ensures
        permitted <==> some_answer_permits(calls, replies, sender),
        !permitted ==> calls.len() >= 5 && calls.take(5) == seq![
            CallView::Read("state/dm_policy"@),
            CallView::Read("state/respond_to_all_room_messages"@),
            CallView::Read("state/allow_from"@),
            CallView::PairingAllowFrom("matrix"@),
            CallView::PairingIsAllowed("matrix"@, sender),
        ],
{
    check_goes_by_the_answers(call, flow, calls, replies, permitted, sender);
    if !permitted {
        let _ = refusal_asks_everything(flow, call, sender, room_id, txn, calls, replies);
    }
}

/// A check that refuses goes through all that may permit, and then on from the question whether the
/// pairing store allows the sender.
#[verifier::rlimit(40)]
proof fn refusal_asks_everything(
    flow: CheckPermission,
    call: HostCall,
    sender: Seq<char>,
    room_id: Seq<char>,
    txn: u64,
    calls: Seq<CallView>,
    replies: Seq<HostReply>,
) -> (r: (HostCall, Applicant, bool))
    requires
        flow.begins(call, sender, room_id, txn),
        host::runs(
            CheckPermission::rule(),
            Step::Ask(call, flow),
            calls,
            replies,
            Step::Done(false),
        ),
    ensures
        calls.len() == replies.len() >= 5,
        calls.take(5) == seq![
            CallView::Read("state/dm_policy"@),
            CallView::Read("state/respond_to_all_room_messages"@),
            CallView::Read("state/allow_from"@),
            CallView::PairingAllowFrom("matrix"@),
            CallView::PairingIsAllowed("matrix"@, sender),
        ],
        r.1.sender@ == sender,
        r.1.room_id@ == room_id,
        r.1.txn == txn,
        replies[0] matches HostReply::Text(policy) && r.2 == (policy is None || policy->0@
            == "pairing"@),
        host::runs(
            CheckPermission::rule(),
            Step::Ask(r.0, CheckPermission::Asking(r.1, r.2)),
            calls.skip(4),
            replies.skip(4),
            Step::Done(false),
        ),
{
    let rule = CheckPermission::rule();
    let last: PermissionStep = Step::Done(false);
    let pairing = replies[0] matches HostReply::Text(policy) && (policy is None || policy->0@
        == "pairing"@);
    let s1 = host::run_goes_on(rule, Step::Ask(call, flow), calls, replies, last);
    let (c1, r1) = (calls.skip(1), replies.skip(1));
    assert(s1 matches Step::Ask(asked, CheckPermission::RespondAll(a, p)) && asked@ == CallView::Read("state/respond_to_all_room_messages"@) && a.sender@
        == sender && a.room_id@ == room_id && a.txn == txn && p == pairing) by {
        if !(s1 is Ask) {
            host::run_is_over(rule, s1, c1, r1, last);
        }
    }
    let s2 = host::run_goes_on(rule, s1, c1, r1, last);
    let (c2, r2) = (c1.skip(1), r1.skip(1));
    assert(s2 matches Step::Ask(asked, CheckPermission::AllowFrom(a, p)) && asked@ == CallView::Read("state/allow_from"@) && a.sender@
        == sender && a.room_id@ == room_id && a.txn == txn && p == pairing) by {
        if !(s2 is Ask) {
            host::run_is_over(rule, s2, c2, r2, last);
        }
    }
    let s3 = host::run_goes_on(rule, s2, c2, r2, last);
    let (c3, r3) = (c2.skip(1), r2.skip(1));
    assert(s3 matches Step::Ask(asked, CheckPermission::Store(a, p, _)) && asked@ == CallView::PairingAllowFrom("matrix"@) && a.sender@
        == sender && a.room_id@ == room_id && a.txn == txn && p == pairing) by {
        if !(s3 is Ask) {
            host::run_is_over(rule, s3, c3, r3, last);
        }
    }
    let s4 = host::run_goes_on(rule, s3, c3, r3, last);
    let (c4, r4) = (c3.skip(1), r3.skip(1));
    assert(s4 matches Step::Ask(asked, CheckPermission::Asking(a, p)) && asked@ == CallView::PairingIsAllowed("matrix"@, sender) && a.sender@
        == sender && a.room_id@ == room_id && a.txn == txn && p == pairing) by {
        if !(s4 is Ask) {
            host::run_is_over(rule, s4, c4, r4, last);
        }
    }
    let _ = host::run_goes_on(rule, s4, c4, r4, last);
    assert(c1[0] == calls[1] && c2[0] == calls[2] && c3[0] == calls[3] && c4[0] == calls[4]);
    assert(c4 =~= calls.skip(4));
    assert(r4 =~= replies.skip(4));
    assert(calls.take(5) =~= seq![
        CallView::Read("state/dm_policy"@),
        CallView::Read("state/respond_to_all_room_messages"@),
        CallView::Read("state/allow_from"@),
        CallView::PairingAllowFrom("matrix"@),
        CallView::PairingIsAllowed("matrix"@, sender),
    ]);
    match s4 {
        Step::Ask(c, CheckPermission::Asking(a, p)) => (c, a, p),
        _ => arbitrary(),
    }
}

impl CheckPermission {
    /// Whether the check may lead to a pairing request.
    pub open spec fn may_pair(self) -> bool {
        match self {
            CheckPermission::Policy(_) => true,
            CheckPermission::RespondAll(_, pairing) => pairing,
            CheckPermission::AllowFrom(_, pairing) => pairing,
            CheckPermission::Store(_, pairing, _) => pairing,
            CheckPermission::Asking(_, pairing) => pairing,
            CheckPermission::Complaining(_, pairing) => pairing,
            _ => true,
        }
    }
}

/// Under a policy other than pairing, no pairing request is entered and no code is sent: the check
/// stays one that leads to none.
pub proof fn only_pairing_policy_pairs(
    flow: CheckPermission,
    reply: HostReply,
    step: PermissionStep,
)
    requires
        !flow.may_pair(),
        flow.moves(reply, step),
    ensures
        step matches Step::Ask(call, next) ==> !next.may_pair() && !(call@ is PairingUpsert)
            && !(call@ is SendEvent),
{
}

/// An empty list of allowed rooms allows all rooms; any other only those in it.
pub proof fn empty_room_list_allows_all(rooms: Seq<Seq<char>>, room_id: Seq<char>)
    ensures
        rooms.len() == 0 ==> room_allowed(rooms, room_id),
        rooms.len() > 0 ==> room_allowed(rooms, room_id) == rooms.contains(room_id),
{
}

/// Only the message of a permitted sender is handed to the agent. The message is handed over, or
/// waits for what is stored of its room before it is, only once the check of its sender permits it.
pub proof fn only_permitted_messages_are_emitted(
    flow: ProcessIncoming,
    reply: HostReply,
    step: ProcessStep,
)
    requires
        flow.moves(reply, step),
        step matches Step::Ask(call, next) && (call@ is Emit || next is Marking || next is Emitting),
    ensures
        match flow {
            ProcessIncoming::Permitting(_, _, check) => exists|inner: PermissionStep|
                check.moves(reply, inner) && inner == Step::<CheckPermission, bool>::Done(true),
            ProcessIncoming::Marking(_, _) => true,
            _ => false,
        },
{
    match flow {
        ProcessIncoming::Scoping(arrival, cache) => {
            if reply matches HostReply::Text(stored) && flag_set(stored) {
                welcome_emits_nothing(arrival, cache@, step);
            }
        },
        ProcessIncoming::Surveying(arrival, cache) => {
            if step matches Step::Ask(_, next) && !(next is Ending) {
                welcome_emits_nothing(arrival, cache@, step);
            }
        },
        ProcessIncoming::Decrypting(room_id, event, txn, decrypt) => {
            let inner = choose|inner: TryDecryptStep|
                #![trigger decrypt.moves(reply, inner)]
                decrypt.moves(reply, inner) && ProcessIncoming::decrypts(
                    room_id,
                    event,
                    txn,
                    inner,
                    step,
                );
            assert(!(inner matches Step::Ask(c, _) && c@ is Emit));
        },
        ProcessIncoming::Permitting(message, cache, check) => {
            let inner = choose|inner: PermissionStep|
                #![trigger check.moves(reply, inner)]
                check.moves(reply, inner) && inner.passes_to(
                    step,
                    |c: CheckPermission| ProcessIncoming::Permitting(message, cache, c),
                ) && match inner {
                    Step::Done(permitted) => if !permitted {
                        step.gives(cache)
                    } else if message.decrypted {
                        step.asks(
                            CallView::Emit(emitted(message, true)),
                            ProcessIncoming::Emitting(cache),
                        )
                    } else {
                        step.asks(
                            CallView::Read("state/encrypted_rooms"@),
                            ProcessIncoming::Marking(message, cache),
                        )
                    },
                    _ => true,
                };
            assert(inner == Step::<CheckPermission, bool>::Done(true));
        },
        _ => {},
    }
}

proof fn welcome_emits_nothing(arrival: Arrival, sessions: Sessions, step: ProcessStep)
    requires
        ProcessIncoming::welcomes(arrival, sessions, step),
    ensures
        step matches Step::Ask(call, next) ==> !(call@ is Emit) && !(next is Marking) && !(
        next is Emitting),
{
    let (room_id, event) = (arrival.room_id, arrival.event);
    if event.event_type@ == "m.room.encrypted"@ && arrival.e2ee_enabled {
        let inner = choose|inner: TryDecryptStep|
            #![trigger TryDecrypt::begins(room_id@, event, sessions, inner)]
            TryDecrypt::begins(room_id@, event, sessions, inner) && ProcessIncoming::decrypts(
                room_id,
                event,
                arrival.txn,
                inner,
                step,
            );
        assert(!(inner matches Step::Ask(c, _) && c@ is Emit));
    }
}

/// Whether a call asks for the members of a room.
pub open spec fn surveys(call: CallView, room_id: Seq<char>) -> bool {
    exists|url: Seq<char>|
        call == CallView::Http(#[trigger] client::joined_members_request(url, room_id))
}

/// Unless the channel responds in all rooms, it responds in DM rooms only. An event of a room that is
/// not known to have at most two members is passed over: while the whole processing of it runs, the
/// host reads, asks who the members are and logs, and nothing else. So the event is neither decrypted
/// nor handed to the agent, and its sender gets no pairing code.
pub proof fn only_dm_rooms_are_answered(
    room_id: Seq<char>,
    event: RoomEvent,
    e2ee_enabled: bool,
    sessions: Sessions,
    txn: u64,
    first: ProcessStep,
    calls: Seq<CallView>,
    replies: Seq<HostReply>,
    last: ProcessStep,
)
    requires
        ProcessIncoming::begins(room_id, event, e2ee_enabled, sessions, txn, first),
        host::runs(ProcessIncoming::rule(), first, calls, replies, last),
        last is Done,
        forall|i: int|
            0 <= i < calls.len() && calls[i] == CallView::Read(
                "state/respond_to_all_room_messages"@,
            ) ==> (#[trigger] replies[i] matches HostReply::Text(stored) ==> !flag_set(stored)),
        forall|i: int|
            0 <= i < calls.len() && calls[i] is Http ==> (
            #[trigger] replies[i] matches HostReply::Http(response) ==> !(client::room_members(
                response,
            ) matches Ok(members) && members.len() <= 2)),
    ensures
        forall|i: int|
            0 <= i < calls.len() ==> #[trigger] calls[i] is Read || calls[i] is Log || surveys(
                calls[i],
                room_id,
            ),
        last matches Step::Done(cache) && cache@ == sessions,
{
    let rule = ProcessIncoming::rule();
    let second = host::run_goes_on(rule, first, calls, replies, last);
    let (c1, r1) = (calls.skip(1), replies.skip(1));
    if !(second is Ask) {
        host::run_is_over(rule, second, c1, r1, last);
    } else {
        assert(second matches Step::Ask(_, ProcessIncoming::Scoping(_, _)));
        let third = host::run_goes_on(rule, second, c1, r1, last);
        let (c2, r2) = (c1.skip(1), r1.skip(1));
        assert(c1[0] == calls[1] && r1[0] == replies[1]);
        if !(third is Ask) {
            host::run_is_over(rule, third, c2, r2, last);
        } else {
            assert(third matches Step::Ask(_, ProcessIncoming::Locating(_, _)));
            let fourth = host::run_goes_on(rule, third, c2, r2, last);
            let (c3, r3) = (c2.skip(1), r2.skip(1));
            assert(c2[0] == calls[2] && r2[0] == replies[2]);
            if !(fourth is Ask) {
                host::run_is_over(rule, fourth, c3, r3, last);
            } else {
                assert(fourth matches Step::Ask(_, ProcessIncoming::Surveying(_, _)));
                let fifth = host::run_goes_on(rule, fourth, c3, r3, last);
                let (c4, r4) = (c3.skip(1), r3.skip(1));
                assert(c3[0] == calls[3] && r3[0] == replies[3]);
                if !(fifth is Ask) {
                    host::run_is_over(rule, fifth, c4, r4, last);
                } else {
                    assert(fifth matches Step::Ask(_, ProcessIncoming::Ending(_)));
                    let sixth = host::run_goes_on(rule, fifth, c4, r4, last);
                    assert(c4[0] == calls[4]);
                    host::run_is_over(rule, sixth, c4.skip(1), r4.skip(1), last);
                }
            }
        }
    }
}

/// The pairing policy leads a stranger to a code: who is refused under it is entered into the pairing
/// store, and where the request is new, the code that the store gives is sent to the room. Under any
/// other policy, who is refused is neither entered nor answered.
pub proof fn strangers_are_asked_to_pair(
    flow: CheckPermission,
    call: HostCall,
    sender: Seq<char>,
    room_id: Seq<char>,
    txn: u64,
    policy: Option<String>,
    calls: Seq<CallView>,
    replies: Seq<HostReply>,
) -> (n: int)
    requires
        flow.begins(call, sender, room_id, txn),
        host::runs(
            CheckPermission::rule(),
            Step::Ask(call, flow),
            calls,
            replies,
            Step::Done(false),
        ),
        replies[0] == HostReply::Text(policy),
    ensures
        calls.len() == replies.len(),
        5 <= n <= 6,
        forall|i: int|
            0 <= i < n && i < calls.len() ==> !(#[trigger] calls[i] is PairingUpsert)
                && !(calls[i] is SendEvent),
        json::opt_text(policy) is None || json::opt_text(policy) == Some("pairing"@) ==> calls.len()
            > n && calls[n] == CallView::PairingUpsert(
            "matrix"@,
            sender,
            pairing_text(sender, room_id),
        ) && (replies[n] matches HostReply::PairingUpsert(Ok(entered)) ==> if entered.created {
            calls.len() > n + 1 && calls[n + 1] == CallView::Read("state/homeserver_url"@) && (
            replies[n + 1] matches HostReply::Text(Some(url)) ==> url@.len() > 0 ==> calls.len() > n
                + 3 && (replies[n + 2] matches HostReply::Time(now) && calls[n + 3]
                == CallView::SendEvent(
                client::text_message_request(
                    url@,
                    room_id,
                    client::txn_id_text(now, txn),
                    "To pair with this bot, run: `ironclaw pairing approve matrix "@
                        + entered.code@ + "`"@,
                ),
            )))
        } else {
            calls.len() == n + 1
        }),
        json::opt_text(policy) is Some && json::opt_text(policy) != Some("pairing"@)
            ==> calls.len() == n,
{
    let rule = CheckPermission::rule();
    let last: PermissionStep = Step::Done(false);
    let (asked, applicant, pairing) = refusal_asks_everything(
        flow,
        call,
        sender,
        room_id,
        txn,
        calls,
        replies,
    );
    assert forall|i: int| 0 <= i < 5 implies #[trigger] calls[i] == calls.take(5)[i] by {}
    let (c4, r4) = (calls.skip(4), replies.skip(4));
    let first: PermissionStep = Step::Ask(asked, CheckPermission::Asking(applicant, pairing));
    let s5 = host::run_goes_on(rule, first, c4, r4, last);
    let (c5, r5) = (c4.skip(1), r4.skip(1));
    assert(c5 =~= calls.skip(5) && r5 =~= replies.skip(5));
    if s5 matches Step::Ask(_, CheckPermission::Complaining(_, _)) {
        let s6 = host::run_goes_on(rule, s5, c5, r5, last);
        let (c6, r6) = (c5.skip(1), r5.skip(1));
        assert(c6 =~= calls.skip(6) && r6 =~= replies.skip(6));
        assert(c5[0] == calls[5]);
        if s6 is Stray {
            host::run_is_over(rule, s6, c6, r6, last);
        }
        denial_runs(applicant, pairing, s6, c6, r6);
        denial_is_placed(calls, replies, 6);
        6
    } else {
        if s5 is Stray {
            host::run_is_over(rule, s5, c5, r5, last);
        }
        if s5 == Step::<CheckPermission, bool>::Done(true) {
            host::run_is_over(rule, s5, c5, r5, last);
        }
        denial_runs(applicant, pairing, s5, c5, r5);
        denial_is_placed(calls, replies, 5);
        5
    }
}

proof fn denial_is_placed(calls: Seq<CallView>, replies: Seq<HostReply>, n: int)
    requires
        0 <= n <= calls.len(),
        calls.len() == replies.len(),
    ensures
        forall|i: int|
            0 <= i < calls.len() - n ==> (#[trigger] calls.skip(n)[i]) == calls[n + i],
        forall|i: int|
            0 <= i < calls.len() - n ==> (#[trigger] replies.skip(n)[i]) == replies[n + i],
{
}

proof fn denial_runs(
    applicant: Applicant,
    pairing: bool,
    first: PermissionStep,
    calls: Seq<CallView>,
    replies: Seq<HostReply>,
)
    requires
        CheckPermission::denies(applicant, pairing, first),
        host::runs(CheckPermission::rule(), first, calls, replies, Step::Done(false)),
    ensures
        !pairing ==> calls.len() == 0,
        pairing ==> calls.len() > 0 && calls[0] == CallView::PairingUpsert(
            "matrix"@,
            applicant.sender@,
            pairing_text(applicant.sender@, applicant.room_id@),
        ) && (replies[0] matches HostReply::PairingUpsert(Ok(entered)) ==> if entered.created {
            calls.len() > 1 && calls[1] == CallView::Read("state/homeserver_url"@) && (
            replies[1] matches HostReply::Text(Some(url)) ==> url@.len() > 0 ==> calls.len() > 3 && (
            replies[2] matches HostReply::Time(now) && calls[3] == CallView::SendEvent(
                client::text_message_request(
                    url@,
                    applicant.room_id@,
                    client::txn_id_text(now, applicant.txn),
                    "To pair with this bot, run: `ironclaw pairing approve matrix "@
                        + entered.code@ + "`"@,
                ),
            )))
        } else {
            calls.len() == 1
        }),
{
    let rule = CheckPermission::rule();
    let last: PermissionStep = Step::Done(false);
    if !pairing {
        host::run_is_over(rule, first, calls, replies, last);
    } else {
        let s1 = host::run_goes_on(rule, first, calls, replies, last);
        let (c1, r1) = (calls.skip(1), replies.skip(1));
        if let HostReply::PairingUpsert(Ok(entered)) = replies[0] {
            if !entered.created {
                host::run_is_over(rule, s1, c1, r1, last);
            } else {
                let s2 = host::run_goes_on(rule, s1, c1, r1, last);
                let (c2, r2) = (c1.skip(1), r1.skip(1));
                assert(c1[0] == calls[1] && r1[0] == replies[1]);
                if let HostReply::Text(Some(url)) = replies[1] {
                    if url@.len() > 0 {
                        let s3 = host::run_goes_on(rule, s2, c2, r2, last);
                        let (c3, r3) = (c2.skip(1), r2.skip(1));
                        assert(c2[0] == calls[2] && r2[0] == replies[2]);
                        if !(replies[2] is Time) {
                            host::run_is_over(rule, s3, c3, r3, last);
                        }
                        let _ = host::run_goes_on(rule, s3, c3, r3, last);
                        assert(c3[0] == calls[3]);
                    }
                }
            }
        }
    }
}

/// Whether a message is handed to the agent last, and only then: with its sender, its text, and the
/// metadata by which a response finds its way back.
pub open spec fn hands_over(
    calls: Seq<CallView>,
    room_id: Seq<char>,
    event_id: Seq<char>,
    sender: Seq<char>,
    body: Seq<char>,
    encrypted: bool,
) -> bool {
    &&& calls.len() > 0
    &&& calls.last() == CallView::Emit(
        EmittedView {
            user_id: sender,
            user_name: Some(display_name(sender)),
            content: body,
            thread_id: None,
            metadata_json: types::metadata_json(room_id, event_id, sender, encrypted),
        },
    )
    &&& forall|i: int| 0 <= i < calls.len() - 1 ==> !(#[trigger] calls[i] is Emit)
}

/// Whether nothing is handed to the agent.
pub open spec fn hands_nothing_over(calls: Seq<CallView>) -> bool {
    forall|i: int| 0 <= i < calls.len() ==> !(#[trigger] calls[i] is Emit)
}

proof fn permission_emits_nothing(
    first: PermissionStep,
    calls: Seq<CallView>,
    replies: Seq<HostReply>,
    last: PermissionStep,
)
    requires
        host::runs(CheckPermission::rule(), first, calls, replies, last),
        first matches Step::Ask(call, _) ==> !(call@ is Emit),
    ensures
        hands_nothing_over(calls),
    decreases replies.len(),
{
    if replies.len() > 0 {
        let next = host::run_goes_on(CheckPermission::rule(), first, calls, replies, last);
        permission_emits_nothing(next, calls.skip(1), replies.skip(1), last);
        assert forall|i: int| 0 <= i < calls.len() implies !(#[trigger] calls[i] is Emit) by {
            if i > 0 {
                assert(calls.skip(1)[i - 1] == calls[i]);
            }
        }
    }
}

/// What becomes of a message whose sender is checked: where one of the answers permits the sender, it is
/// handed over, and else it is not.
proof fn checked_message_is_handed_over(
    message: Message,
    cache: MegolmSessionCache,
    check: CheckPermission,
    call: HostCall,
    txn: u64,
    calls: Seq<CallView>,
    replies: Seq<HostReply>,
    last: ProcessStep,
)
    requires
        check.begins(call, message.sender@, message.room_id@, txn),
        host::runs(
            ProcessIncoming::rule(),
            Step::Ask(call, ProcessIncoming::Permitting(message, cache, check)),
            calls,
            replies,
            last,
        ),
        last is Done,
    ensures
        calls.len() == replies.len() > 0,
        some_answer_permits(calls, replies, message.sender@) && message.decrypted ==> hands_over(
            calls,
            message.room_id@,
            message.event_id@,
            message.sender@,
            message.body@,
            true,
        ),
        some_answer_permits(calls, replies, message.sender@) && !message.decrypted ==> calls.len()
            > 1 && calls[calls.len() - 2] == CallView::Read("state/encrypted_rooms"@) && (
        replies[calls.len() - 2] matches HostReply::Text(stored) && hands_over(
            calls,
            message.room_id@,
            message.event_id@,
            message.sender@,
            message.body@,
            json::stored_list(json::opt_text(stored)).contains(message.room_id@),
        )),
        !some_answer_permits(calls, replies, message.sender@) ==> hands_nothing_over(calls),
{
    let rule = ProcessIncoming::rule();
    let inner_rule = CheckPermission::rule();
    let whole = |c: CheckPermission| ProcessIncoming::Permitting(message, cache, c);
    let after = |permitted: bool, step: ProcessStep|
        if !permitted {
            step.gives(cache)
        } else if message.decrypted {
            step.asks(CallView::Emit(emitted(message, true)), ProcessIncoming::Emitting(cache))
        } else {
            step.asks(
                CallView::Read("state/encrypted_rooms"@),
                ProcessIncoming::Marking(message, cache),
            )
        };
    assert forall|flow: CheckPermission, reply: HostReply, step: ProcessStep| #[trigger]
        host::goes(rule, whole(flow), reply, step) implies host::passes_on(
        inner_rule,
        whole,
        after,
        flow,
        reply,
        step,
    ) by {
        let inner = choose|inner: PermissionStep|
            #![trigger flow.moves(reply, inner)]
            flow.moves(reply, inner) && inner.passes_to(
                step,
                |c: CheckPermission| ProcessIncoming::Permitting(message, cache, c),
            ) && match inner {
                Step::Done(permitted) => if !permitted {
                    step.gives(cache)
                } else if message.decrypted {
                    step.asks(
                        CallView::Emit(emitted(message, true)),
                        ProcessIncoming::Emitting(cache),
                    )
                } else {
                    step.asks(
                        CallView::Read("state/encrypted_rooms"@),
                        ProcessIncoming::Marking(message, cache),
                    )
                },
                _ => true,
            };
        assert(host::goes(inner_rule, flow, reply, inner));
        assert(inner matches Step::Done(permitted) ==> after(permitted, step));
    }
    let (n, permitted, then_step) = host::inner_run_ends(
        inner_rule,
        rule,
        whole,
        after,
        call,
        check,
        calls,
        replies,
        last,
    );
    let sender = message.sender@;
    let (ci, ri) = (calls.take(n), replies.take(n));
    let (ct, rt) = (calls.skip(n), replies.skip(n));
    answers_decide_who_is_permitted(
        check,
        call,
        sender,
        message.room_id@,
        txn,
        ci,
        ri,
        permitted,
    );
    permission_emits_nothing(Step::Ask(call, check), ci, ri, Step::Done(permitted));
    assert forall|i: int| 0 <= i < n implies !(#[trigger] calls[i] is Emit) by {
        assert(ci[i] == calls[i]);
    }
    if permitted {
        let i = choose|i: int| 0 <= i < ci.len() && #[trigger] permits(ci[i], ri[i], sender);
        assert(permits(calls[i], replies[i], sender));
        let s1 = host::run_goes_on(rule, then_step, ct, rt, last);
        let (c1, r1) = (ct.skip(1), rt.skip(1));
        assert(ct[0] == calls[n] && rt[0] == replies[n]);
        if message.decrypted {
            host::run_is_over(rule, s1, c1, r1, last);
            assert(calls.len() == n + 1);
        } else {
            if !(rt[0] is Text) {
                host::run_is_over(rule, s1, c1, r1, last);
            }
            let s2 = host::run_goes_on(rule, s1, c1, r1, last);
            host::run_is_over(rule, s2, c1.skip(1), r1.skip(1), last);
            assert(c1[0] == calls[n + 1]);
            assert(calls.len() == n + 2);
        }
    } else {
        host::run_is_over(rule, then_step, ct, rt, last);
        assert(ci =~= calls && ri =~= replies);
    }
}

/// What an event of a room that counts is led on by, from its arrival: after how many questions the room
/// is found to count, and the step that follows. A room counts where the list of allowed rooms is empty
/// or names it, and it is a DM room or the channel responds in all rooms.
proof fn arrival_is_let_in(
    room_id: Seq<char>,
    event: RoomEvent,
    e2ee_enabled: bool,
    sessions: Sessions,
    txn: u64,
    first: ProcessStep,
    calls: Seq<CallView>,
    replies: Seq<HostReply>,
    last: ProcessStep,
) -> (r: (int, String, ProcessStep))
    requires
        ProcessIncoming::begins(room_id, event, e2ee_enabled, sessions, txn, first),
        host::runs(ProcessIncoming::rule(), first, calls, replies, last),
        last is Done,
        sync::valid_room_id(room_id),
    ensures
        calls.len() == replies.len() > 0,
        calls[0] == CallView::Read("state/allowed_room_ids"@),
        replies[0] is Text,
        room_counts(room_id, replies) ==> {
            &&& r.0 == (if replies[1] matches HostReply::Text(flag) && flag_set(flag) {
                2int
            } else {
                4
            })
            &&& calls.len() >= r.0
            &&& r.1@ == room_id
            &&& ProcessIncoming::lets_in(r.1, event, e2ee_enabled, sessions, txn, r.2)
            &&& host::runs(
                ProcessIncoming::rule(),
                r.2,
                calls.skip(r.0),
                replies.skip(r.0),
                last,
            )
            &&& forall|i: int| 0 <= i < r.0 ==> #[trigger] calls[i] is Read || surveys(
                calls[i],
                room_id,
            )
        },
        !room_counts(room_id, replies) ==> hands_nothing_over(calls),
{
    let rule = ProcessIncoming::rule();
    let s1 = host::run_goes_on(rule, first, calls, replies, last);
    let (c1, r1) = (calls.skip(1), replies.skip(1));
    if !(s1 is Ask) {
        host::run_is_over(rule, s1, c1, r1, last);
        (0, arbitrary(), s1)
    } else {
        let (arrival, cache) = match s1 {
            Step::Ask(_, ProcessIncoming::Scoping(arrival, cache)) => (arrival, cache),
            _ => arbitrary(),
        };
        let s2 = host::run_goes_on(rule, s1, c1, r1, last);
        let (c2, r2) = (c1.skip(1), r1.skip(1));
        assert(c1[0] == calls[1] && r1[0] == replies[1]);
        assert(c2 =~= calls.skip(2) && r2 =~= replies.skip(2));
        if !(replies[1] is Text) {
            host::run_is_over(rule, s2, c2, r2, last);
        }
        if flag_set(replies[1]->Text_0) {
            (2, arrival.room_id, s2)
        } else {
            let s3 = host::run_goes_on(rule, s2, c2, r2, last);
            let (c3, r3) = (c2.skip(1), r2.skip(1));
            assert(c2[0] == calls[2] && r2[0] == replies[2]);
            if !(s3 is Ask) {
                host::run_is_over(rule, s3, c3, r3, last);
                (0, arbitrary(), s3)
            } else {
                let s4 = host::run_goes_on(rule, s3, c3, r3, last);
                let (c4, r4) = (c3.skip(1), r3.skip(1));
                assert(c3[0] == calls[3] && r3[0] == replies[3]);
                assert(c4 =~= calls.skip(4) && r4 =~= replies.skip(4));
                let url = sync::nonempty(replies[2]->Text_0)->0;
                assert(calls[3] == CallView::Http(
                    client::joined_members_request(url@, room_id),
                ));
                if room_counts(room_id, replies) {
                    (4, arrival.room_id, s4)
                } else {
                    if !(s4 is Ask) {
                        host::run_is_over(rule, s4, c4, r4, last);
                    } else {
                        let s5 = host::run_goes_on(rule, s4, c4, r4, last);
                        host::run_is_over(rule, s5, c4.skip(1), r4.skip(1), last);
                        assert(c4[0] == calls[4]);
                    }
                    (0, arbitrary(), s4)
                }
            }
        }
    }
}

/// Whether a room counts, by the answers to the first questions about an event: the allowed rooms, the
/// flag to respond in all rooms, the homeserver URL, and the members of the room.
pub open spec fn room_counts(room_id: Seq<char>, replies: Seq<HostReply>) -> bool {
    &&& replies.len() > 1
    &&& replies[0] matches HostReply::Text(rooms)
    &&& json::stored_list(json::opt_text(rooms)).len() == 0 || json::stored_list(
        json::opt_text(rooms),
    ).contains(room_id)
    &&& replies[1] matches HostReply::Text(flag)
    &&& json::opt_text(flag) == Some("true"@) || (replies.len() > 3 && (
    replies[3] matches HostReply::Http(response) && (client::room_members(response) matches Ok(members)
        && members.len() <= 2)))
}

/// A text message reaches the agent exactly where its room counts and one of the answers about its sender
/// permits the sender. It is handed over with its text as it is, once, and marked as encrypted where its
/// room is known as encrypted.
pub proof fn text_message_reaches_the_agent(
    room_id: Seq<char>,
    event: RoomEvent,
    e2ee_enabled: bool,
    sessions: Sessions,
    txn: u64,
    first: ProcessStep,
    calls: Seq<CallView>,
    replies: Seq<HostReply>,
    last: ProcessStep,
    sender: String,
    event_id: String,
    body: String,
) -> (n: int)
    requires
        ProcessIncoming::begins(room_id, event, e2ee_enabled, sessions, txn, first),
        host::runs(ProcessIncoming::rule(), first, calls, replies, last),
        last is Done,
        sync::valid_room_id(room_id),
        event.event_type@ == "m.room.message"@,
        event.sender == Some(sender),
        sync::valid_user_id(sender@),
        event.event_id == Some(event_id),
        event.content.message matches Ok(content) && content.body == Some(body) && (
        content.msgtype matches Some(kind) && kind@ == "m.text"@),
    ensures
        room_counts(room_id, replies) ==> {
            &&& n == (if replies[1] matches HostReply::Text(flag) && flag_set(flag) {
                2int
            } else {
                4
            })
            &&& calls.len() == replies.len() > n
            &&& if some_answer_permits(calls.skip(n), replies.skip(n), sender@) {
                calls[calls.len() - 2] == CallView::Read("state/encrypted_rooms"@) && (
                replies[calls.len() - 2] matches HostReply::Text(stored) && hands_over(
                    calls,
                    room_id,
                    event_id@,
                    sender@,
                    body@,
                    json::stored_list(json::opt_text(stored)).contains(room_id),
                ))
            } else {
                hands_nothing_over(calls)
            }
        },
        !room_counts(room_id, replies) ==> hands_nothing_over(calls),
{
    reveal_strlit("m.room.message");
    reveal_strlit("m.room.encrypted");
    assert("m.room.message"@.len() != "m.room.encrypted"@.len());
    let (n, room, step) = arrival_is_let_in(
        room_id,
        event,
        e2ee_enabled,
        sessions,
        txn,
        first,
        calls,
        replies,
        last,
    );
    if room_counts(room_id, replies) {
        let (ct, rt) = (calls.skip(n), replies.skip(n));
        if let Step::Ask(call, ProcessIncoming::Permitting(message, cache, check)) = step {
            checked_message_is_handed_over(message, cache, check, call, txn, ct, rt, last);
            later_calls_hand_over(calls, n, room_id, event_id@, sender@, body@);
            assert(ct[ct.len() - 2] == calls[calls.len() - 2] || ct.len() < 2);
            assert(rt[rt.len() - 2] == replies[replies.len() - 2] || ct.len() < 2);
        }
    }
    n
}

proof fn decryption_emits_nothing(
    first: TryDecryptStep,
    calls: Seq<CallView>,
    replies: Seq<HostReply>,
    last: TryDecryptStep,
)
    requires
        host::runs(TryDecrypt::rule(), first, calls, replies, last),
        first matches Step::Ask(call, _) ==> !(call@ is Emit),
    ensures
        hands_nothing_over(calls),
    decreases replies.len(),
{
    if replies.len() > 0 {
        let next = host::run_goes_on(TryDecrypt::rule(), first, calls, replies, last);
        decryption_emits_nothing(next, calls.skip(1), replies.skip(1), last);
        assert forall|i: int| 0 <= i < calls.len() implies !(#[trigger] calls[i] is Emit) by {
            if i > 0 {
                assert(calls.skip(1)[i - 1] == calls[i]);
            }
        }
    }
}

/// How the processing of an encrypted event goes: where the decryption starts and where it ends, its
/// first step and its outcome.
pub struct DecryptedRun {
    pub start: int,
    pub end: int,
    pub first: TryDecryptStep,
    pub text: Result<String, String>,
    pub cache: MegolmSessionCache,
}

/// An encrypted message of a room that counts is decrypted, and reaches the agent exactly where it is
/// decrypted and one of the answers about its sender permits the sender: it is handed over with the
/// decrypted text, once, and marked as encrypted. Where it is not decrypted, it is logged why. What the
/// decryption leaves of the sessions is what the processing gives.
pub proof fn encrypted_message_reaches_the_agent(
    room_id: Seq<char>,
    event: RoomEvent,
    sessions: Sessions,
    txn: u64,
    first: ProcessStep,
    calls: Seq<CallView>,
    replies: Seq<HostReply>,
    last: ProcessStep,
) -> (r: DecryptedRun)
    requires
        ProcessIncoming::begins(room_id, event, true, sessions, txn, first),
        host::runs(ProcessIncoming::rule(), first, calls, replies, last),
        last is Done,
        sync::valid_room_id(room_id),
        event.event_type@ == "m.room.encrypted"@,
        room_counts(room_id, replies),
    ensures
        calls.len() == replies.len(),
        2 <= r.start <= r.end < calls.len(),
        TryDecrypt::begins(room_id, event, sessions, r.first),
        host::runs(
            TryDecrypt::rule(),
            r.first,
            calls.subrange(r.start, r.end),
            replies.subrange(r.start, r.end),
            Step::Done((r.text, r.cache)),
        ),
        last matches Step::Done(cache) && cache@ == r.cache@,
        r.text matches Err(e) ==> calls.len() == r.end + 1 && calls.last() == CallView::Log(
            host::LogLevel::Warn,
            "Failed to decrypt event in "@ + room_id + ": "@ + e@,
        ) && hands_nothing_over(calls),
        r.text matches Ok(body) ==> if some_answer_permits(
            calls.skip(r.end),
            replies.skip(r.end),
            or_empty(event.sender),
        ) {
            hands_over(
                calls,
                room_id,
                or_empty(event.event_id),
                or_empty(event.sender),
                body@,
                true,
            )
        } else {
            hands_nothing_over(calls)
        },
{
    let rule = ProcessIncoming::rule();
    let inner_rule = TryDecrypt::rule();
    let (n, room, step) = arrival_is_let_in(
        room_id,
        event,
        true,
        sessions,
        txn,
        first,
        calls,
        replies,
        last,
    );
    let (ct, rt) = (calls.skip(n), replies.skip(n));
    let begun = choose|inner: TryDecryptStep|
        #![trigger TryDecrypt::begins(room@, event, sessions, inner)]
        TryDecrypt::begins(room@, event, sessions, inner) && ProcessIncoming::decrypts(
            room,
            event,
            txn,
            inner,
            step,
        );
    let whole = |d: TryDecrypt| ProcessIncoming::Decrypting(room, event, txn, d);
    let after = |outcome: (Result<String, String>, MegolmSessionCache), step: ProcessStep|
        ProcessIncoming::decrypts(room, event, txn, Step::Done(outcome), step);
    let (k, outcome, led) = match begun {
        Step::Ask(call, flow) => {
            assert forall|flow: TryDecrypt, reply: HostReply, step: ProcessStep| #[trigger]
                host::goes(rule, whole(flow), reply, step) implies host::passes_on(
                inner_rule,
                whole,
                after,
                flow,
                reply,
                step,
            ) by {
                let inner = choose|inner: TryDecryptStep|
                    #![trigger flow.moves(reply, inner)]
                    flow.moves(reply, inner) && ProcessIncoming::decrypts(
                        room,
                        event,
                        txn,
                        inner,
                        step,
                    );
                assert(host::goes(inner_rule, flow, reply, inner));
                assert(inner matches Step::Done(outcome) ==> after(outcome, step));
            }
            assert(step == Step::<ProcessIncoming, MegolmSessionCache>::Ask(call, whole(flow)));
            let r = host::inner_run_ends(
                inner_rule,
                rule,
                whole,
                after,
                call,
                flow,
                ct,
                rt,
                last,
            );
            assert(!(call@ is Emit));
            decryption_emits_nothing(begun, ct.take(r.0), rt.take(r.0), Step::Done(r.1));
            r
        },
        Step::Done(outcome) => {
            assert(ct.take(0) =~= Seq::empty() && rt.take(0) =~= Seq::empty());
            assert(ct.skip(0) =~= ct && rt.skip(0) =~= rt);
            (0, outcome, step)
        },
        Step::Stray(_) => {
            host::run_is_over(rule, step, ct, rt, last);
            arbitrary()
        },
    };
    let end = n + k;
    let (ce, re) = (calls.skip(end), replies.skip(end));
    assert(ct.take(k) =~= calls.subrange(n, end) && rt.take(k) =~= replies.subrange(n, end));
    assert(ct.skip(k) =~= ce && rt.skip(k) =~= re);
    assert forall|i: int| 0 <= i < end implies !(#[trigger] calls[i] is Emit) by {
        if i >= n {
            assert(ct.take(k)[i - n] == calls[i]);
        }
    }
    let (text, cache) = outcome;
    match text {
        Ok(body) => {
            if let Step::Ask(call, ProcessIncoming::Permitting(message, kept, check)) = led {
                checked_message_is_handed_over(message, kept, check, call, txn, ce, re, last);
                checked_message_keeps_the_sessions(message, kept, check, call, ce, re, last);
                later_calls_hand_over(
                    calls,
                    end,
                    room_id,
                    or_empty(event.event_id),
                    or_empty(event.sender),
                    body@,
                );
            }
        },
        Err(e) => {
            let s1 = host::run_goes_on(rule, led, ce, re, last);
            host::run_is_over(rule, s1, ce.skip(1), re.skip(1), last);
            assert(ce[0] == calls[end]);
            assert("Failed to decrypt event in "@ + room_id + ": "@ + e@ =~= (
            "Failed to decrypt event in "@ + room_id + ": "@) + e@);
        },
    }
    DecryptedRun { start: n, end, first: begun, text, cache }
}

proof fn checked_message_keeps_the_sessions(
    message: Message,
    cache: MegolmSessionCache,
    check: CheckPermission,
    call: HostCall,
    calls: Seq<CallView>,
    replies: Seq<HostReply>,
    last: ProcessStep,
)
    requires
        host::runs(
            ProcessIncoming::rule(),
            Step::Ask(call, ProcessIncoming::Permitting(message, cache, check)),
            calls,
            replies,
            last,
        ),
        last is Done,
    ensures
        last == Step::<ProcessIncoming, MegolmSessionCache>::Done(cache),
    decreases replies.len(),
{
    let rule = ProcessIncoming::rule();
    let first: ProcessStep = Step::Ask(call, ProcessIncoming::Permitting(message, cache, check));
    let next = host::run_goes_on(rule, first, calls, replies, last);
    let (c1, r1) = (calls.skip(1), replies.skip(1));
    match next {
        Step::Ask(next_call, ProcessIncoming::Permitting(_, _, next_check)) => {
            checked_message_keeps_the_sessions(
                message,
                cache,
                next_check,
                next_call,
                c1,
                r1,
                last,
            );
        },
        Step::Ask(_, _) => {
            let s2 = host::run_goes_on(rule, next, c1, r1, last);
            let (c2, r2) = (c1.skip(1), r1.skip(1));
            if s2 is Ask {
                let s3 = host::run_goes_on(rule, s2, c2, r2, last);
                host::run_is_over(rule, s3, c2.skip(1), r2.skip(1), last);
            } else {
                host::run_is_over(rule, s2, c2, r2, last);
            }
        },
        _ => {
            host::run_is_over(rule, next, c1, r1, last);
        },
    }
}

proof fn later_calls_hand_over(
    calls: Seq<CallView>,
    n: int,
    room_id: Seq<char>,
    event_id: Seq<char>,
    sender: Seq<char>,
    body: Seq<char>,
)
    requires
        0 <= n <= calls.len(),
        forall|i: int| 0 <= i < n ==> !(#[trigger] calls[i] is Emit),
    ensures
        hands_nothing_over(calls.skip(n)) ==> hands_nothing_over(calls),
        hands_over(calls.skip(n), room_id, event_id, sender, body, true) ==> hands_over(
            calls,
            room_id,
            event_id,
            sender,
            body,
            true,
        ),
        hands_over(calls.skip(n), room_id, event_id, sender, body, false) ==> hands_over(
            calls,
            room_id,
            event_id,
            sender,
            body,
            false,
        ),
{
    assert forall|i: int| n <= i < calls.len() implies #[trigger] calls[i] == calls.skip(n)[i
        - n] by {}
}

impl CheckPermission {
    /// The counter that the flow has left for a reply.
    pub open spec fn counter_left(self) -> Option<u64> {
        match self {
            CheckPermission::Policy(a) => Some(a.txn),
            CheckPermission::RespondAll(a, _) => Some(a.txn),
            CheckPermission::AllowFrom(a, _) => Some(a.txn),
            CheckPermission::Store(a, _, _) => Some(a.txn),
            CheckPermission::Asking(a, _) => Some(a.txn),
            CheckPermission::Complaining(a, _) => Some(a.txn),
            CheckPermission::Requesting(a) => Some(a.txn),
            CheckPermission::Replying(a, _) => Some(a.txn),
            CheckPermission::Naming(a, _, _) => Some(a.txn),
            CheckPermission::Sending => None,
            CheckPermission::Ending => None,
        }
    }
}

impl ProcessIncoming {
    /// The counter that the flow has left for a reply.
    pub open spec fn counter_left(self) -> Option<u64> {
        match self {
            ProcessIncoming::Admitting(a, _) => Some(a.txn),
            ProcessIncoming::Scoping(a, _) => Some(a.txn),
            ProcessIncoming::Locating(a, _) => Some(a.txn),
            ProcessIncoming::Surveying(a, _) => Some(a.txn),
            ProcessIncoming::Decrypting(_, _, txn, _) => Some(txn),
            ProcessIncoming::Permitting(_, _, check) => check.counter_left(),
            _ => None,
        }
    }
}

proof fn permission_spends_its_counter(
    flow: CheckPermission,
    reply: HostReply,
    step: PermissionStep,
)
    requires
        flow.moves(reply, step),
    ensures
        step matches Step::Ask(call, next) ==> client::spends(
            flow.counter_left(),
            call@,
            next.counter_left(),
        ),
{
    if let (CheckPermission::Naming(a, code, url), HostReply::Time(now)) = (flow, reply) {
        let id = client::txn_id_text(now, a.txn);
        let call = CallView::SendEvent(
            client::text_message_request(url@, a.room_id@, id, pairing_reply(code@)),
        );
        assert(client::bears_id(call, id));
        assert(client::bears(call, a.txn));
    }
}

proof fn decryption_sends_nothing(flow: TryDecrypt, reply: HostReply, step: TryDecryptStep)
    requires
        flow.moves(reply, step),
    ensures
        step matches Step::Ask(call, _) ==> !client::sends(call@),
{
}

proof fn letting_in_spends_nothing(
    room_id: String,
    event: RoomEvent,
    e2ee_enabled: bool,
    sessions: Sessions,
    txn: u64,
    step: ProcessStep,
)
    requires
        ProcessIncoming::lets_in(room_id, event, e2ee_enabled, sessions, txn, step),
    ensures
        step matches Step::Ask(call, next) ==> client::spends(
            Some(txn),
            call@,
            next.counter_left(),
        ),
{
    assert forall|inner: TryDecryptStep| TryDecrypt::begins(
        room_id@,
        event,
        sessions,
        inner,
    ) implies (inner matches Step::Ask(call, _) ==> !client::sends(call@)) by {}
}

/// What the processing of an event sends, which is a pairing code at most, bears the counter that it was
/// given, once.
pub proof fn processing_spends_its_counter(
    flow: ProcessIncoming,
    reply: HostReply,
    step: ProcessStep,
)
    requires
        flow.moves(reply, step),
    ensures
        step matches Step::Ask(call, next) ==> client::spends(
            flow.counter_left(),
            call@,
            next.counter_left(),
        ),
{
    match flow {
        ProcessIncoming::Scoping(a, cache) => {
            if let HostReply::Text(stored) = reply {
                if flag_set(stored) {
                    letting_in_spends_nothing(
                        a.room_id,
                        a.event,
                        a.e2ee_enabled,
                        cache@,
                        a.txn,
                        step,
                    );
                }
            }
        },
        ProcessIncoming::Surveying(a, cache) => {
            if let HostReply::Http(response) = reply {
                if let Ok(members) = client::room_members(response) {
                    if members.len() <= DM_ROOM_MEMBERS {
                        letting_in_spends_nothing(
                            a.room_id,
                            a.event,
                            a.e2ee_enabled,
                            cache@,
                            a.txn,
                            step,
                        );
                    }
                }
            }
        },
        ProcessIncoming::Decrypting(_, _, _, decrypt) => {
            assert forall|inner: TryDecryptStep| decrypt.moves(reply, inner) implies (
            inner matches Step::Ask(call, _) ==> !client::sends(call@)) by {
                decryption_sends_nothing(decrypt, reply, inner);
            }
        },
        ProcessIncoming::Permitting(_, _, check) => {
            assert forall|inner: PermissionStep| check.moves(reply, inner) implies (
            inner matches Step::Ask(call, next) ==> client::spends(
                check.counter_left(),
                call@,
                next.counter_left(),
            )) by {
                permission_spends_its_counter(check, reply, inner);
            }
        },
        _ => {},
    }
}

/// The metadata of a pairing request reads back: it has the sender and the room.
pub proof fn pairing_reads_back(sender: Seq<char>, room_id: Seq<char>) -> (tree: JsonTree)
    ensures
        pairing_text(sender, room_id) == json_tree::written(tree),
        json_tree::fits(tree, 1),
        json_tree::at(tree, seq!["user_id"@]) == Some(JsonTree::Str(sender)),
        json_tree::at(tree, seq!["room_id"@]) == Some(JsonTree::Str(room_id)),
{
    reveal_strlit("user_id");
    reveal_strlit("room_id");
    let members = seq![
        ("user_id"@, JsonTree::Str(sender)),
        ("room_id"@, JsonTree::Str(room_id)),
    ];
    json_tree::written_members_are(
        members,
        seq![
            ("user_id"@, json::string_text(sender)),
            ("room_id"@, json::string_text(room_id)),
        ],
    );
    assert(members[0].0[0] == 'u' && members[1].0[0] == 'r');
    let sorted = json_tree::sorted_object_is_written(members);
    json_tree::reordered_members_fit(sorted, members, 0);
    let to_user = seq!["user_id"@];
    json_tree::sorted_ways_go_on(sorted, members, 0, to_user);
    assert(to_user.skip(1) =~= Seq::empty());
    let to_room = seq!["room_id"@];
    json_tree::sorted_ways_go_on(sorted, members, 1, to_room);
    assert(to_room.skip(1) =~= Seq::empty());
    JsonTree::Object(sorted)
}

} // verus!
