//! Delivery of messages of the agent to rooms.

use vstd::prelude::*;
use vstd::string::*;
use vstd::utf8::*;

use crate::chunking::{self, split_message};
use crate::client::{
    self, bytes_of, generate_txn_id, read_counter, reserve, send_event_response,
    send_message_event, send_text_message,
};
use crate::encryption::{encrypt_message, EncryptMessage, EncryptStep};
use crate::host::{self, CallView, HostCall, HostReply, RequestView, Step};
use crate::incoming::{self, read_flag};
use crate::json;
use crate::sync::{self, is_room_encrypted, read_homeserver_url};
use crate::text::{self, concat2, concat4, concat5, decimal};
use crate::types::MatrixMessageMetadata;

verus! {

/// A message on its way to a room, chunk by chunk.
pub struct Parcel {
    pub homeserver_url: String,
    pub room_id: String,
    /// Whether it is a broadcast; else it is a response.
    pub broadcast: bool,
    /// Whether each chunk is encrypted.
    pub encrypted: bool,
    /// The chunks that are left.
    pub chunks: Vec<String>,
    /// The number of the chunk that is under way.
    pub index: u64,
    /// The counter of the next transaction ID.
    pub txn: u64,
}

/// A parcel, with texts as sequences.
pub struct ParcelView {
    pub homeserver_url: Seq<char>,
    pub room_id: Seq<char>,
    pub broadcast: bool,
    pub encrypted: bool,
    pub chunks: Seq<Seq<char>>,
    pub index: u64,
    pub txn: u64,
}

impl View for Parcel {
    type V = ParcelView;

    open spec fn view(&self) -> ParcelView {
        ParcelView {
            homeserver_url: self.homeserver_url@,
            room_id: self.room_id@,
            broadcast: self.broadcast,
            encrypted: self.encrypted,
            chunks: text::texts(self.chunks@),
            index: self.index,
            txn: self.txn,
        }
    }
}

/// Why a chunk was not encrypted: it is not sent in plaintext instead.
pub open spec fn encryption_failure(parcel: ParcelView, e: Seq<char>) -> Seq<char> {
    if parcel.broadcast {
        "Broadcast encryption failed for "@ + parcel.room_id + ": "@ + e
    } else {
        "Encryption failed for room "@ + parcel.room_id + " chunk "@ + text::decimal_text(
            parcel.index as nat,
        ) + (" — refusing plaintext in E2EE room: "@ + e)
    }
}

/// Why a chunk was not sent.
pub open spec fn sending_failure(parcel: ParcelView, e: Seq<char>) -> Seq<char> {
    if parcel.broadcast && !parcel.encrypted {
        "Failed to broadcast to "@ + parcel.room_id + ": "@ + e
    } else {
        e
    }
}

/// The request that sends a chunk: its encrypted content, or its text.
pub open spec fn chunk_request(parcel: ParcelView, content: Seq<char>, now: u64) -> RequestView {
    let txn_id = client::txn_id_text(now, parcel.txn);
    if parcel.encrypted {
        client::send_request(
            parcel.homeserver_url,
            parcel.room_id,
            "m.room.encrypted"@,
            txn_id,
            encode_utf8(content),
        )
    } else {
        client::text_message_request(parcel.homeserver_url, parcel.room_id, txn_id, content)
    }
}

/// Delivers a message, chunk by chunk.
pub enum Deliver {
    /// A chunk is to be encrypted.
    Encrypting(Parcel, EncryptMessage),
    /// The host is to tell the time, for the transaction ID. Holds what is sent of the chunk.
    Naming(Parcel, String),
    /// The host is to send the chunk.
    Sending(Parcel),
}

/// A step of the delivery.
pub type DeliverStep = Step<Deliver, Result<(), String>>;

impl Deliver {
    /// The first of the chunks that are left is sent, encrypted first where the parcel is. Once none
    /// is left, the delivery is done.
    pub open spec fn proceeds(parcel: ParcelView, step: DeliverStep) -> bool {
        if parcel.chunks.len() == 0 {
            step.gives(Ok(()))
        } else {
            let rest = ParcelView { chunks: parcel.chunks.skip(1), ..parcel };
            if parcel.encrypted {
                step matches Step::Ask(call, Deliver::Encrypting(p, flow)) && p@ == (ParcelView {
                    txn: parcel.txn.wrapping_add(1),
                    ..rest
                }) && flow.begins(
                    call,
                    parcel.homeserver_url,
                    parcel.room_id,
                    parcel.chunks[0],
                    parcel.txn,
                )
            } else {
                step matches Step::Ask(call, Deliver::Naming(p, content)) && call@ == CallView::Now
                    && p@ == rest && content@ == parcel.chunks[0]
            }
        }
    }

    /// The flow goes on from an answer. Where a chunk is not encrypted or not sent, the delivery
    /// fails, and what follows is not sent.
    pub open spec fn moves(self, reply: HostReply, step: DeliverStep) -> bool {
        match (self, reply) {
            (Deliver::Encrypting(parcel, flow), _) => exists|inner|
                #![trigger flow.moves(reply, inner)]
                flow.moves(reply, inner) && inner.passes_to(
                    step,
                    |f: EncryptMessage| Deliver::Encrypting(parcel, f),
                ) && match inner {
                    Step::Done(Ok(content)) => step.asks(
                        CallView::Now,
                        Deliver::Naming(parcel, content),
                    ),
                    Step::Done(Err(e)) => step.fails(encryption_failure(parcel@, e@)),
                    _ => true,
                },
            (Deliver::Naming(parcel, content), HostReply::Time(now)) => {
                step matches Step::Ask(call, Deliver::Sending(p)) && call@ == CallView::SendEvent(
                    chunk_request(parcel@, content@, now),
                ) && p@ == (ParcelView { txn: parcel.txn.wrapping_add(1), ..parcel@ })
            },
            (Deliver::Sending(parcel), HostReply::SendEvent(response)) => {
                match client::accepted(response, "send event"@, "send event response"@) {
                    Err(e) => step.fails(sending_failure(parcel@, e)),
                    Ok(_) => Self::proceeds(
                        ParcelView { index: parcel.index.wrapping_add(1), ..parcel@ },
                        step,
                    ),
                }
            },
            _ => step.strays(self),
        }
    }

    /// Sends the next chunk.
    fn proceed(mut parcel: Parcel) -> (step: DeliverStep)
        ensures
            Self::proceeds(parcel@, step),
    {
        let ghost all = parcel@;
        if parcel.chunks.len() == 0 {
            return Step::Done(Ok(()));
        }
        let chunk = parcel.chunks.remove(0);
        assert(text::texts(parcel.chunks@) =~= all.chunks.skip(1));
        if parcel.encrypted {
            let (call, flow) = encrypt_message(
                parcel.homeserver_url.as_str(),
                parcel.room_id.as_str(),
                chunk.as_str(),
                parcel.txn,
            );
            parcel.txn = parcel.txn.wrapping_add(1);
            Step::Ask(call, Deliver::Encrypting(parcel, flow))
        } else {
            Step::Ask(HostCall::Now, Deliver::Naming(parcel, chunk))
        }
    }

    /// Goes on from an answer of the host.
    pub fn resume(self, reply: HostReply) -> (step: DeliverStep)
        ensures
            self.moves(reply, step),
    {
        match (self, reply) {
            (Deliver::Encrypting(parcel, flow), reply) => match flow.resume(reply) {
                Step::Ask(call, flow) => Step::Ask(call, Deliver::Encrypting(parcel, flow)),
                Step::Stray(flow) => Step::Stray(Deliver::Encrypting(parcel, flow)),
                Step::Done(Ok(content)) => Step::Ask(
                    HostCall::Now,
                    Deliver::Naming(parcel, content),
                ),
                Step::Done(Err(e)) => if parcel.broadcast {
                    Step::Done(
                        Err(
                            concat4(
                                "Broadcast encryption failed for ",
                                parcel.room_id.as_str(),
                                ": ",
                                e.as_str(),
                            ),
                        ),
                    )
                } else {
                    let number = decimal(parcel.index);
                    let why = concat2(" — refusing plaintext in E2EE room: ", e.as_str());
                    Step::Done(
                        Err(
                            concat5(
                                "Encryption failed for room ",
                                parcel.room_id.as_str(),
                                " chunk ",
                                number.as_str(),
                                why.as_str(),
                            ),
                        ),
                    )
                },
            },
            (Deliver::Naming(mut parcel, content), HostReply::Time(now)) => {
                let txn_id = generate_txn_id(now, parcel.txn);
                let request = if parcel.encrypted {
                    send_message_event(
                        parcel.homeserver_url.as_str(),
                        parcel.room_id.as_str(),
                        "m.room.encrypted",
                        txn_id.as_str(),
                        bytes_of(content.as_str()),
                    )
                } else {
                    send_text_message(
                        parcel.homeserver_url.as_str(),
                        parcel.room_id.as_str(),
                        txn_id.as_str(),
                        content.as_str(),
                    )
                };
                parcel.txn = parcel.txn.wrapping_add(1);
                Step::Ask(HostCall::SendEvent(request), Deliver::Sending(parcel))
            },
            (Deliver::Sending(mut parcel), HostReply::SendEvent(response)) => {
                match send_event_response(response) {
                    Err(e) => if parcel.broadcast && !parcel.encrypted {
                        Step::Done(
                            Err(
                                concat4(
                                    "Failed to broadcast to ",
                                    parcel.room_id.as_str(),
                                    ": ",
                                    e.as_str(),
                                ),
                            ),
                        )
                    } else {
                        Step::Done(Err(e))
                    },
                    Ok(_) => {
                        parcel.index = parcel.index.wrapping_add(1);
                        Self::proceed(parcel)
                    },
                }
            },
            (flow, _) => Step::Stray(flow),
        }
    }
}

/// The parcel of a text for a room, with the counter of its first transaction ID.
pub open spec fn parcel_of(
    homeserver_url: Seq<char>,
    room_id: Seq<char>,
    content: Seq<char>,
    broadcast: bool,
    encrypted: bool,
    txn: u64,
) -> ParcelView {
    ParcelView {
        homeserver_url,
        room_id,
        broadcast,
        encrypted,
        chunks: chunking::message_chunks(content),
        index: 0,
        txn,
    }
}

/// The counter after those that the delivery of a parcel uses: two for each chunk, one for a room key
/// and one for the chunk itself.
pub open spec fn counter_after(parcel: ParcelView) -> u64 {
    parcel.txn.wrapping_add(parcel.chunks.len() as u64).wrapping_add(parcel.chunks.len() as u64)
}

/// Delivers a parcel to its room, chunk by chunk.
pub fn deliver(parcel: Parcel) -> (step: DeliverStep)
    ensures
        Deliver::proceeds(parcel@, step),
{
    Deliver::proceed(parcel)
}

// ---------------------------------------------------------------------------
// Responses and broadcasts
// ---------------------------------------------------------------------------

/// A text that the agent sends to a room.
pub struct Outgoing {
    pub room_id: String,
    pub content: String,
    /// Whether it is a broadcast; else it is a response.
    pub broadcast: bool,
    /// Whether the message that it responds to came from an encrypted room.
    pub encrypted: bool,
}

/// Sends a text of the agent to a room.
pub enum SendOutgoing {
    /// The host is to read the homeserver URL.
    Homeserver(Outgoing),
    /// The host is to read whether E2EE is on. Holds the URL.
    E2ee(Outgoing, String),
    /// The host is to read the encrypted rooms. Holds the URL, and whether E2EE is on.
    Rooms(Outgoing, String, bool),
    /// The host is to read the counter of transaction IDs. Holds the URL, and whether the text is
    /// encrypted.
    Counting(Outgoing, String, bool),
    /// The host is to write the counter after those that the delivery uses.
    Reserving(Parcel),
    /// The text is to be delivered.
    Delivering(Deliver),
}

/// A step of the sending.
pub type SendStep = Step<SendOutgoing, Result<(), String>>;

impl SendOutgoing {
    /// The flow starts: the host is asked for the homeserver URL.
    pub open spec fn begins(
        self,
        call: HostCall,
        room_id: Seq<char>,
        content: Seq<char>,
        broadcast: bool,
        encrypted: bool,
    ) -> bool {
        &&& call@ == CallView::Read("state/homeserver_url"@)
        &&& self matches SendOutgoing::Homeserver(out)
        &&& out.room_id@ == room_id
        &&& out.content@ == content
        &&& out.broadcast == broadcast
        &&& out.encrypted == encrypted
    }

    /// What a step of the delivery is as a step of the whole.
    pub open spec fn delivers(inner: DeliverStep, step: SendStep) -> bool {
        inner.passes_to(step, |d: Deliver| SendOutgoing::Delivering(d)) && (inner matches Step::Done(
            result,
        ) ==> step.gives(result))
    }

    /// The delivery is prepared: the host is asked for the counter of transaction IDs.
    pub open spec fn starts(out: Outgoing, url: String, encrypted: bool, step: SendStep) -> bool {
        step.asks(
            CallView::Read("state/txn_counter"@),
            SendOutgoing::Counting(out, url, encrypted),
        )
    }

    /// The flow goes on from an answer. The text is encrypted where E2EE is on and the room is
    /// encrypted: by what the message told to which it responds, or by the list of encrypted rooms.
    pub open spec fn moves(self, reply: HostReply, step: SendStep) -> bool {
        match (self, reply) {
            (SendOutgoing::Homeserver(out), HostReply::Text(stored)) => match sync::nonempty(
                stored,
            ) {
                None => step.fails("No homeserver URL configured"@),
                Some(url) => step.asks(
                    CallView::Read("state/e2ee_enabled"@),
                    SendOutgoing::E2ee(out, url),
                ),
            },
            (SendOutgoing::E2ee(out, url), HostReply::Text(stored)) => {
                let on = incoming::flag_set(stored);
                if out.encrypted {
                    Self::starts(out, url, on, step)
                } else if out.broadcast && !on {
                    Self::starts(out, url, false, step)
                } else {
                    step.asks(
                        CallView::Read("state/encrypted_rooms"@),
                        SendOutgoing::Rooms(out, url, on),
                    )
                }
            },
            (SendOutgoing::Rooms(out, url, on), HostReply::Text(stored)) => Self::starts(
                out,
                url,
                on && json::stored_list(json::opt_text(stored)).contains(out.room_id@),
                step,
            ),
            (SendOutgoing::Counting(out, url, encrypted), HostReply::Text(stored)) => {
                step matches Step::Ask(call, SendOutgoing::Reserving(p)) && p@ == parcel_of(
                    url@,
                    out.room_id@,
                    out.content@,
                    out.broadcast,
                    encrypted,
                    client::stored_counter(stored),
                ) && call@ == client::reserve_call(counter_after(p@))
            },
            (SendOutgoing::Reserving(parcel), HostReply::Finished) => exists|inner|
                #![trigger Deliver::proceeds(parcel@, inner)]
                Deliver::proceeds(parcel@, inner) && Self::delivers(inner, step),
            (SendOutgoing::Delivering(flow), _) => exists|inner|
                #![trigger flow.moves(reply, inner)]
                flow.moves(reply, inner) && Self::delivers(inner, step),
            _ => step.strays(self),
        }
    }

    fn pass(inner: DeliverStep) -> (step: SendStep)
        ensures
            Self::delivers(inner, step),
    {
        match inner {
            Step::Ask(call, flow) => Step::Ask(call, SendOutgoing::Delivering(flow)),
            Step::Stray(flow) => Step::Stray(SendOutgoing::Delivering(flow)),
            Step::Done(result) => Step::Done(result),
        }
    }

    fn start(out: Outgoing, url: String, encrypted: bool) -> (step: SendStep)
        ensures
            Self::starts(out, url, encrypted, step),
    {
        Step::Ask(
            HostCall::Read("state/txn_counter".to_owned()),
            SendOutgoing::Counting(out, url, encrypted),
        )
    }

    /// Goes on from an answer of the host.
    pub fn resume(self, reply: HostReply) -> (step: SendStep)
        ensures
            self.moves(reply, step),
    {
        match (self, reply) {
            (SendOutgoing::Homeserver(out), HostReply::Text(stored)) => {
                match read_homeserver_url(stored) {
                    None => Step::Done(Err("No homeserver URL configured".to_owned())),
                    Some(url) => Step::Ask(
                        HostCall::Read("state/e2ee_enabled".to_owned()),
                        SendOutgoing::E2ee(out, url),
                    ),
                }
            },
            (SendOutgoing::E2ee(out, url), HostReply::Text(stored)) => {
                let on = read_flag(&stored);
                if out.encrypted {
                    Self::start(out, url, on)
                } else if out.broadcast && !on {
                    Self::start(out, url, false)
                } else {
                    Step::Ask(
                        HostCall::Read("state/encrypted_rooms".to_owned()),
                        SendOutgoing::Rooms(out, url, on),
                    )
                }
            },
            (SendOutgoing::Rooms(out, url, on), HostReply::Text(stored)) => {
                let encrypted = on && is_room_encrypted(&stored, out.room_id.as_str());
                Self::start(out, url, encrypted)
            },
            (SendOutgoing::Counting(out, url, encrypted), HostReply::Text(stored)) => {
                let txn: u64 = read_counter(&stored);
                let chunks = split_message(out.content.as_str());
                let n: u64 = chunks.len() as u64;
                assert(text::texts(chunks@).len() == chunks@.len());
                let parcel = Parcel {
                    homeserver_url: url,
                    room_id: out.room_id,
                    broadcast: out.broadcast,
                    encrypted,
                    chunks,
                    index: 0,
                    txn,
                };
                let call = reserve(txn.wrapping_add(n).wrapping_add(n));
                Step::Ask(call, SendOutgoing::Reserving(parcel))
            },
            (SendOutgoing::Reserving(parcel), HostReply::Finished) => Self::pass(deliver(parcel)),
            (SendOutgoing::Delivering(flow), reply) => {
                let inner = flow.resume(reply);
                Self::pass(inner)
            },
            (flow, _) => Step::Stray(flow),
        }
    }
}

/// Send a response message to a Matrix room.
pub fn send_response_to_room(metadata: MatrixMessageMetadata, content: String) -> (start: (
    HostCall,
    SendOutgoing,
))
    ensures
        start.1.begins(start.0, metadata.room_id@, content@, false, metadata.encrypted),
{
    let out = Outgoing {
        room_id: metadata.room_id,
        content,
        broadcast: false,
        encrypted: metadata.encrypted,
    };
    (HostCall::Read("state/homeserver_url".to_owned()), SendOutgoing::Homeserver(out))
}

/// Send a message of the agent's own to a Matrix room.
pub fn broadcast_to_room(room_id: String, content: String) -> (start: (HostCall, SendOutgoing))
    ensures
        start.1.begins(start.0, room_id@, content@, true, false),
{
    let out = Outgoing { room_id, content, broadcast: true, encrypted: false };
    (HostCall::Read("state/homeserver_url".to_owned()), SendOutgoing::Homeserver(out))
}

// ---------------------------------------------------------------------------
// Laws
// ---------------------------------------------------------------------------

impl Deliver {
    /// The parcel that the flow delivers.
    pub open spec fn parcel(self) -> ParcelView {
        match self {
            Deliver::Encrypting(parcel, _) => parcel@,
            Deliver::Naming(parcel, _) => parcel@,
            Deliver::Sending(parcel) => parcel@,
        }
    }
}

/// An encrypted parcel is never sent in plaintext: every event that its delivery sends, in any state
/// and after any answer, is an m.room.encrypted event in its room; and it stays encrypted.
pub proof fn encrypted_parcel_is_never_sent_in_plaintext(
    flow: Deliver,
    reply: HostReply,
    step: DeliverStep,
)
    requires
        flow.parcel().encrypted,
        flow.moves(reply, step),
    ensures
        step matches Step::Ask(call, next) ==> next.parcel().encrypted && next.parcel().room_id
            == flow.parcel().room_id,
        step matches Step::Ask(call, _) ==> (call@ matches CallView::SendEvent(request) ==> exists|
            txn_id: Seq<char>,
            content: Seq<char>,
        |
            request == #[trigger] client::send_request(
                flow.parcel().homeserver_url,
                flow.parcel().room_id,
                "m.room.encrypted"@,
                txn_id,
                encode_utf8(content),
            )),
{
    match flow {
        Deliver::Encrypting(parcel, encrypt) => {
            let inner = choose|inner: EncryptStep|
                #![trigger encrypt.moves(reply, inner)]
                encrypt.moves(reply, inner) && inner.passes_to(
                    step,
                    |f: EncryptMessage| Deliver::Encrypting(parcel, f),
                ) && match inner {
                    Step::Done(Ok(content)) => step.asks(
                        CallView::Now,
                        Deliver::Naming(parcel, content),
                    ),
                    Step::Done(Err(e)) => step.fails(encryption_failure(parcel@, e@)),
                    _ => true,
                };
            crate::encryption::encrypting_sends_no_event(encrypt, reply, inner);
        },
        _ => {},
    }
}

/// The delivery of an encrypted parcel turns to each chunk by encrypting it, not by sending it.
pub proof fn encrypted_chunks_are_encrypted_first(parcel: ParcelView, step: DeliverStep)
    requires
        parcel.encrypted,
        Deliver::proceeds(parcel, step),
    ensures
        parcel.chunks.len() > 0 ==> (step matches Step::Ask(call, next) && next is Encrypting
            && !(call@ is SendEvent)),
{
}

/// Where a chunk cannot be encrypted, the delivery fails: nothing is sent in its place.
pub proof fn failed_encryption_sends_nothing(
    parcel: Parcel,
    encrypt: EncryptMessage,
    reply: HostReply,
    step: DeliverStep,
)
    requires
        Deliver::Encrypting(parcel, encrypt).moves(reply, step),
        forall|inner: EncryptStep| #[trigger]
            encrypt.moves(reply, inner) ==> inner matches Step::Done(Err(_)),
    ensures
        step matches Step::Done(Err(_)),
{
}

/// With E2EE on, a response to a message from an encrypted room is encrypted.
pub proof fn responses_to_encrypted_messages_are_encrypted(
    out: Outgoing,
    url: String,
    stored: Option<String>,
    step: SendStep,
)
    requires
        out.encrypted,
        incoming::flag_set(stored),
        SendOutgoing::E2ee(out, url).moves(HostReply::Text(stored), step),
    ensures
        SendOutgoing::starts(out, url, true, step),
{
}

/// With E2EE on, a text for a room that is known as encrypted is encrypted.
pub proof fn texts_for_encrypted_rooms_are_encrypted(
    out: Outgoing,
    url: String,
    stored: Option<String>,
    step: SendStep,
)
    requires
        json::stored_list(json::opt_text(stored)).contains(out.room_id@),
        SendOutgoing::Rooms(out, url, true).moves(HostReply::Text(stored), step),
    ensures
        SendOutgoing::starts(out, url, true, step),
{
}

impl Deliver {
    /// The least counter that the flow may still use.
    pub open spec fn low(self) -> int {
        match self {
            Deliver::Encrypting(parcel, flow) => if flow.counter_left() is Some {
                parcel.txn - 1
            } else {
                parcel.txn as int
            },
            Deliver::Naming(parcel, _) => parcel.txn as int,
            Deliver::Sending(parcel) => parcel.txn as int,
        }
    }

    /// Whether all counters that the flow may still use are below the limit.
    pub open spec fn stays_below(self, limit: int) -> bool {
        limit <= u64::MAX && match self {
            Deliver::Encrypting(parcel, flow) => parcel.txn > 0 && (flow.counter_left() is Some
                ==> flow.counter_left()->0 == parcel.txn - 1) && parcel.txn + 1 + 2
                * parcel@.chunks.len() <= limit,
            Deliver::Naming(parcel, _) => parcel.txn + 1 + 2 * parcel@.chunks.len() <= limit,
            Deliver::Sending(parcel) => parcel.txn + 2 * parcel@.chunks.len() <= limit,
        }
    }
}

impl SendOutgoing {
    /// What the flow does from an answer.
    pub open spec fn rule() -> host::Rule<SendOutgoing, Result<(), String>> {
        |flow: SendOutgoing, reply: HostReply, step: SendStep| flow.moves(reply, step)
    }

    /// The least counter that the flow may still use, once its counters are reserved.
    pub open spec fn low(self) -> int {
        match self {
            SendOutgoing::Reserving(parcel) => parcel.txn as int,
            SendOutgoing::Delivering(flow) => flow.low(),
            _ => 0,
        }
    }

    /// Whether its counters are reserved, and all that the flow may still use are below the limit.
    pub open spec fn stays_below(self, limit: int) -> bool {
        match self {
            SendOutgoing::Reserving(parcel) => limit <= u64::MAX && parcel.txn + 2
                * parcel@.chunks.len() <= limit,
            SendOutgoing::Delivering(flow) => flow.stays_below(limit),
            _ => false,
        }
    }
}

/// Whether a step of a delivery gives out counters in order.
pub open spec fn delivery_counts_on(floor: int, limit: int, step: DeliverStep) -> bool {
    client::counts_on(
        |f: Deliver| f.stays_below(limit),
        |f: Deliver| f.low(),
        floor,
        limit,
        step,
    )
}

proof fn parcel_counts_on(parcel: ParcelView, limit: int, step: DeliverStep)
    requires
        Deliver::proceeds(parcel, step),
        parcel.txn + 2 * parcel.chunks.len() <= limit <= u64::MAX,
    ensures
        delivery_counts_on(parcel.txn as int, limit, step),
{
    if parcel.chunks.len() > 0 {
        assert(parcel.chunks.skip(1).len() == parcel.chunks.len() - 1);
        assert(parcel.txn.wrapping_add(1) == parcel.txn + 1);
    }
}

proof fn delivery_goes_on_counting(flow: Deliver, reply: HostReply, limit: int, step: DeliverStep)
    requires
        flow.moves(reply, step),
        flow.stays_below(limit),
    ensures
        delivery_counts_on(flow.low(), limit, step),
{
    match flow {
        Deliver::Encrypting(parcel, encrypt) => {
            assert forall|inner: EncryptStep| encrypt.moves(
                reply,
                inner,
            ) implies (inner matches Step::Ask(call, next) ==> client::spends(
                encrypt.counter_left(),
                call@,
                next.counter_left(),
            )) by {
                crate::encryption::encryption_spends_its_counter(encrypt, reply, inner);
            }
        },
        Deliver::Naming(parcel, content) => {
            if let HostReply::Time(now) = reply {
                let id = client::txn_id_text(now, parcel.txn);
                let call = CallView::SendEvent(chunk_request(parcel@, content@, now));
                assert(parcel.txn.wrapping_add(1) == parcel.txn + 1);
                assert(client::bears_id(call, id));
                assert(client::bears(call, parcel.txn));
            }
        },
        Deliver::Sending(parcel) => {
            if let HostReply::SendEvent(response) = reply {
                if client::accepted(response, "send event"@, "send event response"@) is Ok {
                    parcel_counts_on(
                        ParcelView { index: parcel.index.wrapping_add(1), ..parcel@ },
                        limit,
                        step,
                    );
                }
            }
        },
    }
}

proof fn sending_counts_well(limit: int)
    ensures
        client::counts_well(
            SendOutgoing::rule(),
            |f: SendOutgoing| f.stays_below(limit),
            |f: SendOutgoing| f.low(),
            limit,
        ),
{
    let sound = |f: SendOutgoing| f.stays_below(limit);
    let low = |f: SendOutgoing| f.low();
    assert forall|flow: SendOutgoing, reply: HostReply, step: SendStep| #[trigger]
        host::goes(SendOutgoing::rule(), flow, reply, step) && sound(
            flow,
        ) implies client::counts_on(sound, low, low(flow), limit, step) by {
        match flow {
            SendOutgoing::Reserving(parcel) => {
                if reply is Finished {
                    let inner = choose|inner: DeliverStep|
                        #![trigger Deliver::proceeds(parcel@, inner)]
                        Deliver::proceeds(parcel@, inner) && SendOutgoing::delivers(inner, step);
                    parcel_counts_on(parcel@, limit, inner);
                }
            },
            SendOutgoing::Delivering(deliver) => {
                let inner = choose|inner: DeliverStep|
                    #![trigger deliver.moves(reply, inner)]
                    deliver.moves(reply, inner) && SendOutgoing::delivers(inner, step);
                delivery_goes_on_counting(deliver, reply, limit, inner);
            },
            _ => {},
        }
    }
}

/// A text of the agent is sent under transaction IDs of its own: before anything is sent, the counter
/// after all those that it uses is written; and what is sent, the chunks and the room keys, bears the
/// counters from the stored one up to that, each above the ones before it.
pub proof fn sending_keeps_to_its_reserve(
    call: HostCall,
    out: Outgoing,
    url: String,
    encrypted: bool,
    stored: Option<String>,
    calls: Seq<CallView>,
    replies: Seq<HostReply>,
    last: SendStep,
) -> (r: (u64, Seq<u64>))
    requires
        host::runs(
            SendOutgoing::rule(),
            Step::Ask(call, SendOutgoing::Counting(out, url, encrypted)),
            calls,
            replies,
            last,
        ),
        call@ == CallView::Read("state/txn_counter"@),
        calls.len() > 1,
        replies[0] == HostReply::Text(stored),
        client::stored_counter(stored) + 2 * chunking::message_chunks(out.content@).len()
            <= u64::MAX,
    ensures
        calls[1] == client::reserve_call(r.0),
        r.0 == client::stored_counter(stored) + 2 * chunking::message_chunks(out.content@).len(),
        client::are_counters(calls, r.1, client::stored_counter(stored) as int, r.0 as int),
{
    let rule = SendOutgoing::rule();
    let first: SendStep = Step::Ask(call, SendOutgoing::Counting(out, url, encrypted));
    let second = host::run_goes_on(rule, first, calls, replies, last);
    let parcel = match second {
        Step::Ask(_, SendOutgoing::Reserving(parcel)) => parcel,
        _ => arbitrary(),
    };
    let n = chunking::message_chunks(out.content@).len();
    let next = counter_after(parcel@);
    assert(parcel.txn.wrapping_add(n as u64) == parcel.txn + n);
    assert(next == parcel.txn + 2 * n);
    let sound = |f: SendOutgoing| f.stays_below(next as int);
    let low = |f: SendOutgoing| f.low();
    sending_counts_well(next as int);
    let rest = client::run_counts(
        rule,
        sound,
        low,
        parcel.txn as int,
        next as int,
        second,
        calls.skip(1),
        replies.skip(1),
        last,
    );
    let counters = seq![0u64] + rest;
    assert(calls.skip(1)[0] == calls[1]);
    client::counters_with_first(calls, rest, parcel.txn as int, next as int);
    (next, counters)
}

/// The events that are sent to rooms by these questions, in order.
pub open spec fn sent_events(calls: Seq<CallView>) -> Seq<RequestView>
    decreases calls.len(),
{
    if calls.len() == 0 {
        Seq::empty()
    } else {
        match calls[0] {
            CallView::SendEvent(request) => seq![request] + sent_events(calls.skip(1)),
            _ => sent_events(calls.skip(1)),
        }
    }
}

proof fn sent_events_add_up(calls: Seq<CallView>, n: int)
    requires
        0 <= n <= calls.len(),
    ensures
        sent_events(calls) == sent_events(calls.take(n)) + sent_events(calls.skip(n)),
    decreases calls.len(),
{
    if n == 0 {
        assert(calls.take(0) =~= Seq::empty());
        assert(calls.skip(0) =~= calls);
        assert(sent_events(calls.take(0)) + sent_events(calls) =~= sent_events(calls));
    } else {
        sent_events_add_up(calls.skip(1), n - 1);
        assert(calls.take(n).skip(1) =~= calls.skip(1).take(n - 1));
        assert(calls.skip(1).skip(n - 1) =~= calls.skip(n));
        assert(sent_events(calls) =~= sent_events(calls.take(n)) + sent_events(calls.skip(n)));
    }
}

proof fn nothing_is_sent(calls: Seq<CallView>)
    requires
        forall|i: int| 0 <= i < calls.len() ==> !(#[trigger] calls[i] is SendEvent),
    ensures
        sent_events(calls) == Seq::<RequestView>::empty(),
    decreases calls.len(),
{
    if calls.len() > 0 {
        assert forall|i: int| 0 <= i < calls.len() - 1 implies !(#[trigger] calls.skip(1)[i] is SendEvent) by {
            assert(calls.skip(1)[i] == calls[i + 1]);
        }
        nothing_is_sent(calls.skip(1));
    }
}

/// Whether a request sends a text to a room as a message that everybody can read.
pub open spec fn sends_text(
    request: RequestView,
    homeserver_url: Seq<char>,
    room_id: Seq<char>,
    content: Seq<char>,
) -> bool {
    exists|txn_id: Seq<char>|
        request == #[trigger] client::text_message_request(homeserver_url, room_id, txn_id, content)
}

/// Whether a request sends a text to a room encrypted, with a session that the encryption of it has used:
/// who reads the session recovers the text.
pub open spec fn sends_encrypted(
    request: RequestView,
    homeserver_url: Seq<char>,
    room_id: Seq<char>,
    content: Seq<char>,
    calls: Seq<CallView>,
    replies: Seq<HostReply>,
) -> bool {
    exists|txn_id: Seq<char>, sealed: Seq<char>, session: Seq<u8>|
        request == #[trigger] client::send_request(
            homeserver_url,
            room_id,
            "m.room.encrypted"@,
            txn_id,
            encode_utf8(sealed),
        ) && #[trigger] crate::encryption::is_used(session, calls, replies)
            && crate::encryption::is_sent_with(session, room_id, content, sealed)
}

/// Whether the events that are sent are these chunks, one after the other.
pub open spec fn sends_chunks(
    sent: Seq<RequestView>,
    homeserver_url: Seq<char>,
    room_id: Seq<char>,
    encrypted: bool,
    chunks: Seq<Seq<char>>,
    calls: Seq<CallView>,
    replies: Seq<HostReply>,
) -> bool {
    &&& sent.len() == chunks.len()
    &&& forall|i: int|
        0 <= i < chunks.len() ==> if encrypted {
            sends_encrypted(
                #[trigger] sent[i],
                homeserver_url,
                room_id,
                chunks[i],
                calls,
                replies,
            )
        } else {
            sends_text(sent[i], homeserver_url, room_id, chunks[i])
        }
}

impl Deliver {
    /// What the flow does from an answer.
    pub open spec fn rule() -> host::Rule<Deliver, Result<(), String>> {
        |flow: Deliver, reply: HostReply, step: DeliverStep| flow.moves(reply, step)
    }
}

proof fn encryption_run_sends_no_event(
    first: EncryptStep,
    calls: Seq<CallView>,
    replies: Seq<HostReply>,
    last: EncryptStep,
)
    requires
        host::runs(EncryptMessage::rule(), first, calls, replies, last),
        first matches Step::Ask(call, _) ==> !(call@ is SendEvent),
    ensures
        sent_events(calls) == Seq::<RequestView>::empty(),
    decreases replies.len(),
{
    if replies.len() > 0 {
        let next = host::run_goes_on(EncryptMessage::rule(), first, calls, replies, last);
        crate::encryption::encrypting_sends_no_event(first->Ask_1, replies[0], next);
        encryption_run_sends_no_event(next, calls.skip(1), replies.skip(1), last);
    }
}

proof fn session_is_used_in_more(
    session: Seq<u8>,
    calls: Seq<CallView>,
    replies: Seq<HostReply>,
    from: int,
    to: int,
)
    requires
        0 <= from <= to <= calls.len(),
        calls.len() == replies.len(),
        crate::encryption::is_used(
            session,
            calls.subrange(from, to),
            replies.subrange(from, to),
        ),
    ensures
        crate::encryption::is_used(session, calls, replies),
{
    let (some, answers) = (calls.subrange(from, to), replies.subrange(from, to));
    if exists|i: int|
        0 <= i < some.len() && #[trigger] crate::encryption::is_opened(
            session,
            some[i],
            answers[i],
        ) {
        let i = choose|i: int|
            0 <= i < some.len() && #[trigger] crate::encryption::is_opened(
                session,
                some[i],
                answers[i],
            );
        assert(crate::encryption::is_opened(session, calls[from + i], replies[from + i]));
    } else {
        let sealed = CallView::Encrypt(
            crate::megolm::inbound_of_key(crate::megolm::outbound_key(session))->Ok_0,
        );
        let i = choose|i: int| 0 <= i < some.len() && some[i] == sealed;
        assert(calls[from + i] == sealed);
    }
}

proof fn chunk_is_sent_in_more(
    request: RequestView,
    homeserver_url: Seq<char>,
    room_id: Seq<char>,
    content: Seq<char>,
    calls: Seq<CallView>,
    replies: Seq<HostReply>,
    from: int,
    to: int,
)
    requires
        0 <= from <= to <= calls.len(),
        calls.len() == replies.len(),
        sends_encrypted(
            request,
            homeserver_url,
            room_id,
            content,
            calls.subrange(from, to),
            replies.subrange(from, to),
        ),
    ensures
        sends_encrypted(request, homeserver_url, room_id, content, calls, replies),
{
    let (txn_id, sealed, session) = choose|txn_id: Seq<char>, sealed: Seq<char>, session: Seq<u8>|
        request == #[trigger] client::send_request(
            homeserver_url,
            room_id,
            "m.room.encrypted"@,
            txn_id,
            encode_utf8(sealed),
        ) && #[trigger] crate::encryption::is_used(
            session,
            calls.subrange(from, to),
            replies.subrange(from, to),
        ) && crate::encryption::is_sent_with(session, room_id, content, sealed);
    session_is_used_in_more(session, calls, replies, from, to);
    assert(request == client::send_request(
        homeserver_url,
        room_id,
        "m.room.encrypted"@,
        txn_id,
        encode_utf8(sealed),
    ));
}

/// What follows once it is known what is sent of a chunk: it is sent, and then the chunks that are left.
proof fn named_chunk_is_sent(
    parcel: Parcel,
    content: String,
    call: HostCall,
    calls: Seq<CallView>,
    replies: Seq<HostReply>,
    last: DeliverStep,
) -> (r: (RequestView, ParcelView, DeliverStep))
    requires
        host::runs(
            Deliver::rule(),
            Step::Ask(call, Deliver::Naming(parcel, content)),
            calls,
            replies,
            last,
        ),
        call@ == CallView::Now,
        last == Step::<Deliver, Result<(), String>>::Done(Ok(())),
    ensures
        calls.len() == replies.len() >= 2,
        calls[0] == CallView::Now,
        calls[1] == CallView::SendEvent(r.0),
        sent_events(calls) == seq![r.0] + sent_events(calls.skip(2)),
        exists|txn_id: Seq<char>|
            r.0 == if parcel.encrypted {
                client::send_request(
                    parcel.homeserver_url@,
                    parcel.room_id@,
                    "m.room.encrypted"@,
                    txn_id,
                    encode_utf8(content@),
                )
            } else {
                #[trigger] client::text_message_request(
                    parcel.homeserver_url@,
                    parcel.room_id@,
                    txn_id,
                    content@,
                )
            },
        r.1.chunks == text::texts(parcel.chunks@),
        r.1.homeserver_url == parcel.homeserver_url@,
        r.1.room_id == parcel.room_id@,
        r.1.encrypted == parcel.encrypted,
        Deliver::proceeds(r.1, r.2),
        host::runs(Deliver::rule(), r.2, calls.skip(2), replies.skip(2), last),
{
    let rule = Deliver::rule();
    let first: DeliverStep = Step::Ask(call, Deliver::Naming(parcel, content));
    let s1 = host::run_goes_on(rule, first, calls, replies, last);
    let (c1, r1) = (calls.skip(1), replies.skip(1));
    if s1 is Stray {
        host::run_is_over(rule, s1, c1, r1, last);
    }
    let now = replies[0]->Time_0;
    let sending = match s1 {
        Step::Ask(_, Deliver::Sending(p)) => p,
        _ => arbitrary(),
    };
    assert(s1 matches Step::Ask(_, Deliver::Sending(_)));
    let s2 = host::run_goes_on(rule, s1, c1, r1, last);
    let (c2, r2) = (c1.skip(1), r1.skip(1));
    assert(c1[0] == calls[1]);
    assert(c2 =~= calls.skip(2) && r2 =~= replies.skip(2));
    if s2 is Stray || s2 matches Step::Done(Err(_)) {
        host::run_is_over(rule, s2, c2, r2, last);
    }
    let request = chunk_request(parcel@, content@, now);
    let txn_id = client::txn_id_text(now, parcel.txn);
    let plain = client::text_message_request(
        parcel.homeserver_url@,
        parcel.room_id@,
        txn_id,
        content@,
    );
    assert(parcel.encrypted || request == plain);
    assert(sent_events(c1) == seq![request] + sent_events(c2));
    assert(sent_events(calls) == sent_events(c1));
    let rest = ParcelView { index: sending.index.wrapping_add(1), ..sending@ };
    assert(Deliver::proceeds(rest, s2)) by {
        if let HostReply::SendEvent(response) = r1[0] {
            if client::accepted(response, "send event"@, "send event response"@) is Err {
                assert(s2 matches Step::Done(Err(_)));
            }
        }
    }
    (request, rest, s2)
}

/// A delivery that succeeds sends the chunks of its parcel, all of them, in order.
proof fn delivery_sends_the_chunks(
    parcel: ParcelView,
    first: DeliverStep,
    calls: Seq<CallView>,
    replies: Seq<HostReply>,
    last: DeliverStep,
)
    requires
        Deliver::proceeds(parcel, first),
        host::runs(Deliver::rule(), first, calls, replies, last),
        last == Step::<Deliver, Result<(), String>>::Done(Ok(())),
    ensures
        calls.len() == replies.len(),
        sends_chunks(
            sent_events(calls),
            parcel.homeserver_url,
            parcel.room_id,
            parcel.encrypted,
            parcel.chunks,
            calls,
            replies,
        ),
    decreases replies.len(),
{
    let rule = Deliver::rule();
    let (url, room) = (parcel.homeserver_url, parcel.room_id);
    if parcel.chunks.len() == 0 {
        host::run_is_over(rule, first, calls, replies, last);
    } else if parcel.encrypted {
        if let Step::Ask(call, Deliver::Encrypting(p, flow)) = first {
            let (k, content, step) = chunk_is_encrypted(p, call, flow, calls, replies, last);
            let (ci, ri) = (calls.take(k), replies.take(k));
            let (ct, rt) = (calls.skip(k), replies.skip(k));
            let chunk = parcel.chunks[0];
            let session = crate::encryption::encryption_can_be_read(
                flow,
                call,
                url,
                room,
                chunk,
                parcel.txn,
                ci,
                ri,
                content,
            );
            encryption_run_sends_no_event(
                Step::Ask(call, flow),
                ci,
                ri,
                Step::Done(Ok(content)),
            );
            sent_events_add_up(calls, k);
            if let Step::Ask(next_call, _) = step {
                let (request, rest, next) = named_chunk_is_sent(
                    p,
                    content,
                    next_call,
                    ct,
                    rt,
                    last,
                );
                let (c2, r2) = (ct.skip(2), rt.skip(2));
                delivery_sends_the_chunks(rest, next, c2, r2, last);
                let txn_id = choose|txn_id: Seq<char>|
                    request == if p.encrypted {
                        client::send_request(
                            p.homeserver_url@,
                            p.room_id@,
                            "m.room.encrypted"@,
                            txn_id,
                            encode_utf8(content@),
                        )
                    } else {
                        #[trigger] client::text_message_request(
                            p.homeserver_url@,
                            p.room_id@,
                            txn_id,
                            content@,
                        )
                    };
                assert(request == client::send_request(
                    url,
                    room,
                    "m.room.encrypted"@,
                    txn_id,
                    encode_utf8(content@),
                ));
                assert(ci =~= calls.subrange(0, k) && ri =~= replies.subrange(0, k));
                assert(sends_encrypted(request, url, room, chunk, ci, ri));
                chunk_is_sent_in_more(request, url, room, chunk, calls, replies, 0, k);
                let n = calls.len() as int;
                assert(c2 =~= calls.subrange(k + 2, n) && r2 =~= replies.subrange(k + 2, n));
                let sent = sent_events(calls);
                assert(sent =~= seq![request] + sent_events(c2));
                assert forall|i: int| 0 <= i < parcel.chunks.len() implies sends_encrypted(
                    #[trigger] sent[i],
                    url,
                    room,
                    parcel.chunks[i],
                    calls,
                    replies,
                ) by {
                    if i > 0 {
                        assert(sent[i] == sent_events(c2)[i - 1]);
                        assert(rest.chunks[i - 1] == parcel.chunks[i]);
                        chunk_is_sent_in_more(
                            sent[i],
                            url,
                            room,
                            parcel.chunks[i],
                            calls,
                            replies,
                            k + 2,
                            n,
                        );
                    }
                }
            }
        }
    } else {
        if let Step::Ask(call, Deliver::Naming(p, content)) = first {
            let (request, rest, next) = named_chunk_is_sent(p, content, call, calls, replies, last);
            let (c2, r2) = (calls.skip(2), replies.skip(2));
            delivery_sends_the_chunks(rest, next, c2, r2, last);
            let sent = sent_events(calls);
            assert forall|i: int| 0 <= i < parcel.chunks.len() implies sends_text(
                #[trigger] sent[i],
                url,
                room,
                parcel.chunks[i],
            ) by {
                if i > 0 {
                    assert(sent[i] == sent_events(c2)[i - 1]);
                    assert(rest.chunks[i - 1] == parcel.chunks[i]);
                } else {
                    assert(sent[0] == request);
                }
            }
        }
    }
}

/// The encryption of a chunk within a delivery that succeeds: how many questions it asks, the content that
/// it gives, and the step after it.
proof fn chunk_is_encrypted(
    parcel: Parcel,
    call: HostCall,
    flow: EncryptMessage,
    calls: Seq<CallView>,
    replies: Seq<HostReply>,
    last: DeliverStep,
) -> (r: (int, String, DeliverStep))
    requires
        host::runs(
            Deliver::rule(),
            Step::Ask(call, Deliver::Encrypting(parcel, flow)),
            calls,
            replies,
            last,
        ),
        last == Step::<Deliver, Result<(), String>>::Done(Ok(())),
    ensures
        0 < r.0 <= calls.len(),
        calls.len() == replies.len(),
        host::runs(
            EncryptMessage::rule(),
            Step::Ask(call, flow),
            calls.take(r.0),
            replies.take(r.0),
            Step::Done(Ok(r.1)),
        ),
        r.2.asks(CallView::Now, Deliver::Naming(parcel, r.1)),
        host::runs(Deliver::rule(), r.2, calls.skip(r.0), replies.skip(r.0), last),
{
    let rule = Deliver::rule();
    let inner_rule = EncryptMessage::rule();
    let whole = |f: EncryptMessage| Deliver::Encrypting(parcel, f);
    let after = |result: Result<String, String>, step: DeliverStep|
        match result {
            Ok(content) => step.asks(CallView::Now, Deliver::Naming(parcel, content)),
            Err(e) => step.fails(encryption_failure(parcel@, e@)),
        };
    assert forall|flow: EncryptMessage, reply: HostReply, step: DeliverStep| #[trigger]
        host::goes(rule, whole(flow), reply, step) implies host::passes_on(
        inner_rule,
        whole,
        after,
        flow,
        reply,
        step,
    ) by {
        let inner = choose|inner: EncryptStep|
            #![trigger flow.moves(reply, inner)]
            flow.moves(reply, inner) && inner.passes_to(
                step,
                |f: EncryptMessage| Deliver::Encrypting(parcel, f),
            ) && match inner {
                Step::Done(Ok(content)) => step.asks(
                    CallView::Now,
                    Deliver::Naming(parcel, content),
                ),
                Step::Done(Err(e)) => step.fails(encryption_failure(parcel@, e@)),
                _ => true,
            };
        assert(host::goes(inner_rule, flow, reply, inner));
        assert(inner matches Step::Done(result) ==> after(result, step));
    }
    let (k, result, step) = host::inner_run_ends(
        inner_rule,
        rule,
        whole,
        after,
        call,
        flow,
        calls,
        replies,
        last,
    );
    if result is Err {
        host::run_is_over(rule, step, calls.skip(k), replies.skip(k), last);
    }
    (k, result->Ok_0, step)
}

/// Whether a text for a room is to be encrypted, by the answers to the questions about it: E2EE is on, and
/// the room is encrypted, by what the message told to which it responds or by the list of encrypted rooms.
pub open spec fn is_to_be_encrypted(
    room_id: Seq<char>,
    from_encrypted: bool,
    calls: Seq<CallView>,
    replies: Seq<HostReply>,
) -> bool {
    &&& calls.len() == replies.len() > 2
    &&& replies[1] matches HostReply::Text(flag)
    &&& json::opt_text(flag) == Some("true"@)
    &&& from_encrypted || (calls[2] == CallView::Read("state/encrypted_rooms"@) && (
    replies[2] matches HostReply::Text(rooms) && json::stored_list(json::opt_text(rooms)).contains(
        room_id,
    )))
}

/// What is sent of a text of the agent, where the sending succeeds: its chunks, all of them, in order, one
/// event each, and no other event; and every one of them is accepted. Each is encrypted where the text is
/// to be, and else sent as it is.
pub proof fn text_is_sent_chunk_by_chunk(
    flow: SendOutgoing,
    call: HostCall,
    room_id: Seq<char>,
    content: Seq<char>,
    broadcast: bool,
    from_encrypted: bool,
    calls: Seq<CallView>,
    replies: Seq<HostReply>,
) -> (url: Seq<char>)
    requires
        flow.begins(call, room_id, content, broadcast, from_encrypted),
        host::runs(
            SendOutgoing::rule(),
            Step::Ask(call, flow),
            calls,
            replies,
            Step::Done(Ok(())),
        ),
    ensures
        calls.len() == replies.len() > 2,
        calls[0] == CallView::Read("state/homeserver_url"@),
        replies[0] matches HostReply::Text(Some(stored)) && stored@ == url,
        calls[1] == CallView::Read("state/e2ee_enabled"@),
        !from_encrypted && (!broadcast || (replies[1] matches HostReply::Text(flag)
            && json::opt_text(flag) == Some("true"@))) ==> calls[2] == CallView::Read(
            "state/encrypted_rooms"@,
        ),
        sends_chunks(
            sent_events(calls),
            url,
            room_id,
            is_to_be_encrypted(room_id, from_encrypted, calls, replies),
            chunking::message_chunks(content),
            calls,
            replies,
        ),
        all_are_accepted(calls, replies),
{
    success_means_acceptance(Step::Ask(call, flow), calls, replies);
    let rule = SendOutgoing::rule();
    let last: SendStep = Step::Done(Ok(()));
    let s1 = host::run_goes_on(rule, Step::Ask(call, flow), calls, replies, last);
    let (c1, r1) = (calls.skip(1), replies.skip(1));
    if !(s1 is Ask) {
        host::run_is_over(rule, s1, c1, r1, last);
    }
    let (out, url) = match s1 {
        Step::Ask(_, SendOutgoing::E2ee(out, url)) => (out, url),
        _ => arbitrary(),
    };
    assert(s1 matches Step::Ask(_, SendOutgoing::E2ee(_, _)));
    let s2 = host::run_goes_on(rule, s1, c1, r1, last);
    let (c2, r2) = (c1.skip(1), r1.skip(1));
    assert(c1[0] == calls[1] && r1[0] == replies[1]);
    if s2 is Stray {
        host::run_is_over(rule, s2, c2, r2, last);
    }
    let s3 = host::run_goes_on(rule, s2, c2, r2, last);
    let (c3, r3) = (c2.skip(1), r2.skip(1));
    assert(c2[0] == calls[2] && r2[0] == replies[2]);
    reveal_strlit("state/encrypted_rooms");
    reveal_strlit("state/txn_counter");
    assert("state/encrypted_rooms"@.len() != "state/txn_counter"@.len());
    let encrypted = is_to_be_encrypted(room_id, from_encrypted, calls, replies);
    let chunks = chunking::message_chunks(content);
    let n = calls.len() as int;
    let k = if s2 matches Step::Ask(_, SendOutgoing::Rooms(_, _, _)) {
        if s3 is Stray {
            host::run_is_over(rule, s3, c3, r3, last);
        }
        counted_text_is_sent(out, url, encrypted, s3, c3, r3);
        assert(c3 =~= calls.subrange(3, n) && r3 =~= replies.subrange(3, n));
        3int
    } else {
        counted_text_is_sent(out, url, encrypted, s2, c2, r2);
        assert(c2 =~= calls.subrange(2, n) && r2 =~= replies.subrange(2, n));
        2int
    };
    sent_events_add_up(calls, k);
    assert(calls.skip(k) =~= calls.subrange(k, n));
    nothing_is_sent(calls.take(k));
    assert(sent_events(calls) =~= sent_events(calls.subrange(k, n)));
    let sent = sent_events(calls);
    if encrypted {
        assert forall|i: int| 0 <= i < chunks.len() implies sends_encrypted(
            #[trigger] sent[i],
            url@,
            room_id,
            chunks[i],
            calls,
            replies,
        ) by {
            chunk_is_sent_in_more(sent[i], url@, room_id, chunks[i], calls, replies, k, n);
        }
    }
    url@
}

/// A text of which it is known whether it is encrypted, and whose sending succeeds, is sent chunk by chunk.
proof fn counted_text_is_sent(
    out: Outgoing,
    url: String,
    encrypted: bool,
    first: SendStep,
    calls: Seq<CallView>,
    replies: Seq<HostReply>,
)
    requires
        SendOutgoing::starts(out, url, encrypted, first),
        host::runs(SendOutgoing::rule(), first, calls, replies, Step::Done(Ok(()))),
    ensures
        calls.len() == replies.len(),
        sends_chunks(
            sent_events(calls),
            url@,
            out.room_id@,
            encrypted,
            chunking::message_chunks(out.content@),
            calls,
            replies,
        ),
{
    let rule = SendOutgoing::rule();
    let inner_rule = Deliver::rule();
    let last: SendStep = Step::Done(Ok(()));
    let s1 = host::run_goes_on(rule, first, calls, replies, last);
    let (c1, r1) = (calls.skip(1), replies.skip(1));
    if s1 is Stray {
        host::run_is_over(rule, s1, c1, r1, last);
    }
    let parcel = match s1 {
        Step::Ask(_, SendOutgoing::Reserving(parcel)) => parcel,
        _ => arbitrary(),
    };
    assert(s1 matches Step::Ask(_, SendOutgoing::Reserving(_)));
    let s2 = host::run_goes_on(rule, s1, c1, r1, last);
    let (c2, r2) = (c1.skip(1), r1.skip(1));
    if s2 is Stray && !(r1[0] is Finished) {
        host::run_is_over(rule, s2, c2, r2, last);
    }
    let begun = choose|inner: DeliverStep|
        #![trigger Deliver::proceeds(parcel@, inner)]
        Deliver::proceeds(parcel@, inner) && SendOutgoing::delivers(inner, s2);
    let whole = |d: Deliver| SendOutgoing::Delivering(d);
    let after = |result: Result<(), String>, step: SendStep| step.gives(result);
    assert forall|flow: Deliver, reply: HostReply, step: SendStep| #[trigger]
        host::goes(rule, whole(flow), reply, step) implies host::passes_on(
        inner_rule,
        whole,
        after,
        flow,
        reply,
        step,
    ) by {
        let inner = choose|inner: DeliverStep|
            #![trigger flow.moves(reply, inner)]
            flow.moves(reply, inner) && SendOutgoing::delivers(inner, step);
        assert(host::goes(inner_rule, flow, reply, inner));
        assert(inner matches Step::Done(result) ==> after(result, step));
    }
    let done: DeliverStep = Step::Done(Ok(()));
    match begun {
        Step::Ask(call, flow) => {
            let (k, result, step) = host::inner_run_ends(
                inner_rule,
                rule,
                whole,
                after,
                call,
                flow,
                c2,
                r2,
                last,
            );
            host::run_is_over(rule, step, c2.skip(k), r2.skip(k), last);
            assert(c2.take(k) =~= c2 && r2.take(k) =~= r2);
            delivery_sends_the_chunks(parcel@, begun, c2, r2, done);
        },
        _ => {
            host::run_is_over(rule, s2, c2, r2, last);
            delivery_sends_the_chunks(parcel@, begun, c2, r2, done);
        },
    }
    assert(c1[0] == calls[1]);
    let n = calls.len() as int;
    assert(c2 =~= calls.subrange(2, n) && r2 =~= replies.subrange(2, n));
    assert(sent_events(c1) == sent_events(c2));
    assert(sent_events(calls) == sent_events(c1));
    let sent = sent_events(calls);
    let chunks = chunking::message_chunks(out.content@);
    if encrypted {
        assert forall|i: int| 0 <= i < chunks.len() implies sends_encrypted(
            #[trigger] sent[i],
            url@,
            out.room_id@,
            chunks[i],
            calls,
            replies,
        ) by {
            chunk_is_sent_in_more(sent[i], url@, out.room_id@, chunks[i], calls, replies, 2, n);
        }
    }
}

/// Whether the server accepts every event that is sent.
pub open spec fn all_are_accepted(calls: Seq<CallView>, replies: Seq<HostReply>) -> bool {
    forall|i: int|
        0 <= i < calls.len() && #[trigger] calls[i] is SendEvent ==> (
        replies[i] matches HostReply::SendEvent(Ok(response)) && response.response.status == 200
            && response.parsed is Ok)
}

/// A flow that asks for an event to be sent waits for what becomes of it.
spec fn waits_for_what_is_sent(step: SendStep) -> bool {
    step matches Step::Ask(call, flow) ==> (call@ is SendEvent ==> (
    flow matches SendOutgoing::Delivering(deliver) && deliver is Sending))
}

proof fn sending_waits(flow: SendOutgoing, reply: HostReply, step: SendStep)
    requires
        flow.moves(reply, step),
    ensures
        waits_for_what_is_sent(step),
{
    if let SendOutgoing::Delivering(deliver) = flow {
        let inner = choose|inner: DeliverStep|
            #![trigger deliver.moves(reply, inner)]
            deliver.moves(reply, inner) && SendOutgoing::delivers(inner, step);
        if let Deliver::Encrypting(parcel, encrypt) = deliver {
            let within = choose|within: EncryptStep|
                #![trigger encrypt.moves(reply, within)]
                encrypt.moves(reply, within) && within.passes_to(
                    inner,
                    |f: EncryptMessage| Deliver::Encrypting(parcel, f),
                ) && match within {
                    Step::Done(Ok(content)) => inner.asks(
                        CallView::Now,
                        Deliver::Naming(parcel, content),
                    ),
                    Step::Done(Err(e)) => inner.fails(encryption_failure(parcel@, e@)),
                    _ => true,
                };
            crate::encryption::encrypting_sends_no_event(encrypt, reply, within);
        }
    }
}

/// A sending that succeeds has had every event accepted: where one is refused, the sending fails.
pub proof fn success_means_acceptance(
    first: SendStep,
    calls: Seq<CallView>,
    replies: Seq<HostReply>,
)
    requires
        host::runs(SendOutgoing::rule(), first, calls, replies, Step::Done(Ok(()))),
        first matches Step::Ask(call, _) ==> !(call@ is SendEvent),
    ensures
        all_are_accepted(calls, replies),
{
    run_is_accepted(first, calls, replies);
}

proof fn run_is_accepted(first: SendStep, calls: Seq<CallView>, replies: Seq<HostReply>)
    requires
        host::runs(SendOutgoing::rule(), first, calls, replies, Step::Done(Ok(()))),
        waits_for_what_is_sent(first),
    ensures
        all_are_accepted(calls, replies),
    decreases replies.len(),
{
    let rule = SendOutgoing::rule();
    let last: SendStep = Step::Done(Ok(()));
    if replies.len() > 0 {
        let next = host::run_goes_on(rule, first, calls, replies, last);
        let (c1, r1) = (calls.skip(1), replies.skip(1));
        sending_waits(first->Ask_1, replies[0], next);
        run_is_accepted(next, c1, r1);
        assert forall|i: int|
            0 <= i < calls.len() && #[trigger] calls[i] is SendEvent implies (
        replies[i] matches HostReply::SendEvent(Ok(response)) && response.response.status == 200
            && response.parsed is Ok) by {
            if i > 0 {
                assert(c1[i - 1] == calls[i] && r1[i - 1] == replies[i]);
            } else {
                if let SendOutgoing::Delivering(deliver) = first->Ask_1 {
                    let inner = choose|inner: DeliverStep|
                        #![trigger deliver.moves(replies[0], inner)]
                        deliver.moves(replies[0], inner) && SendOutgoing::delivers(inner, next);
                    if !(replies[0] matches HostReply::SendEvent(Ok(response))
                        && response.response.status == 200 && response.parsed is Ok) {
                        assert(!(next is Ask));
                        host::run_is_over(rule, next, c1, r1, last);
                    }
                }
            }
        }
    }
}

/// The delivery of a text fails only where a chunk is not encrypted, or the server does not take one.
pub proof fn delivery_fails_with_cause(flow: Deliver, reply: HostReply, e: String)
    requires
        flow.moves(reply, Step::Done(Err(e))),
    ensures
        match flow {
            Deliver::Encrypting(_, encryption) => exists|cause: String| #[trigger]
                encryption.moves(reply, Step::Done(Err(cause))),
            _ => host::is_setback(reply),
        },
{
    if let Deliver::Encrypting(parcel, encryption) = flow {
        let step: DeliverStep = Step::Done(Err(e));
        let inner = choose|inner: EncryptStep|
            #![trigger encryption.moves(reply, inner)]
            encryption.moves(reply, inner) && inner.passes_to(
                step,
                |f: EncryptMessage| Deliver::Encrypting(parcel, f),
            ) && match inner {
                Step::Done(Ok(content)) => step.asks(
                    CallView::Now,
                    Deliver::Naming(parcel, content),
                ),
                Step::Done(Err(e)) => step.fails(encryption_failure(parcel@, e@)),
                _ => true,
            };
        let cause = match inner {
            Step::Done(Err(cause)) => cause,
            _ => arbitrary(),
        };
        assert(encryption.moves(reply, Step::Done(Err(cause))));
    }
}

/// The sending of a text fails only where no homeserver is known, or its delivery fails.
pub proof fn sending_fails_with_cause(flow: SendOutgoing, reply: HostReply, e: String)
    requires
        flow.moves(reply, Step::Done(Err(e))),
    ensures
        match flow {
            SendOutgoing::Homeserver(_) => host::is_setback(reply),
            SendOutgoing::Delivering(delivery) => delivery.moves(reply, Step::Done(Err(e))),
            _ => false,
        },
{
    let step: SendStep = Step::Done(Err(e));
    match flow {
        SendOutgoing::Delivering(delivery) => {
            let inner = choose|inner: DeliverStep|
                #![trigger delivery.moves(reply, inner)]
                delivery.moves(reply, inner) && SendOutgoing::delivers(inner, step);
            assert(inner is Done);
        },
        SendOutgoing::Reserving(parcel) => {
            let inner = choose|inner: DeliverStep|
                #![trigger Deliver::proceeds(parcel@, inner)]
                Deliver::proceeds(parcel@, inner) && SendOutgoing::delivers(inner, step);
            assert(inner is Done);
        },
        _ => {},
    }
}

} // verus!
