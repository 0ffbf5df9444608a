//! The crypto store: E2EE state in the workspace.
//!
//! All of it is stored under the `crypto/` prefix. Private keys are stored as pickles that the host
//! encrypts with a key that it alone holds.

use vstd::prelude::*;
use vstd::string::*;

use crate::codec::{self, base64_decode, base64_encode};
use crate::host::{self, CallView, HostCall, HostReply, Step};
use crate::megolm::{self, InboundSession, OutboundSession};
use crate::olm::{self, OlmAccount, OlmSession};
use crate::json_tree::{self, JsonTree};
use crate::json::{self, bool_json, object_json, string_json};
use crate::text::{self, chars_of, concat2, concat3, decimal};
use crate::types::field;

verus! {

/// Account state (identity keys, pickled Olm account).
#[derive(Debug)]
pub struct StoredAccount {
    /// User ID of the account owner.
    pub user_id: String,
    /// Device ID.
    pub device_id: String,
    /// Pickled Olm account (encrypted by the host).
    pub pickled_account: String,
    /// Ed25519 identity key (public, safe to store in plaintext).
    pub ed25519_key: String,
    /// Curve25519 identity key (public, safe to store in plaintext).
    pub curve25519_key: String,
    /// Whether device keys have been uploaded to the homeserver.
    pub keys_uploaded: bool,
    /// Number of one-time keys uploaded.
    pub uploaded_key_count: u32,
}

/// A stored Olm session for device-to-device communication.
#[derive(Debug)]
pub struct StoredOlmSession {
    /// Sender's Curve25519 key (identifies the remote device).
    pub sender_key: String,
    /// Pickled Olm session (encrypted by the host).
    pub pickled_session: String,
    /// Timestamp of last use.
    pub last_use_ts: u64,
}

/// A stored inbound Megolm session for room message decryption.
#[derive(Debug)]
pub struct StoredInboundMegolmSession {
    /// Room ID this session belongs to.
    pub room_id: String,
    /// Session ID.
    pub session_id: String,
    /// Sender's Curve25519 key.
    pub sender_key: String,
    /// Pickled session (encrypted by the host).
    pub pickled_session: String,
    /// Whether we forwarded this session (key request).
    pub forwarded: bool,
    /// Already-seen message indices for replay detection.
    pub seen_indices: Vec<u32>,
}

/// A stored outbound Megolm session for room message encryption.
#[derive(Debug)]
pub struct StoredOutboundMegolmSession {
    /// Room ID this session belongs to.
    pub room_id: String,
    /// Session ID.
    pub session_id: String,
    /// Pickled session (encrypted by the host).
    pub pickled_session: String,
    /// Number of messages sent with this session.
    pub message_count: u32,
    /// Creation timestamp.
    pub created_ts: u64,
}

// ---------------------------------------------------------------------------
// Records as JSON
// ---------------------------------------------------------------------------

/// An account, with texts as sequences.
pub struct AccountView {
    pub user_id: Seq<char>,
    pub device_id: Seq<char>,
    pub pickled_account: Seq<char>,
    pub ed25519_key: Seq<char>,
    pub curve25519_key: Seq<char>,
    pub keys_uploaded: bool,
    pub uploaded_key_count: u32,
}

impl View for StoredAccount {
    type V = AccountView;

    open spec fn view(&self) -> AccountView {
        AccountView {
            user_id: self.user_id@,
            device_id: self.device_id@,
            pickled_account: self.pickled_account@,
            ed25519_key: self.ed25519_key@,
            curve25519_key: self.curve25519_key@,
            keys_uploaded: self.keys_uploaded,
            uploaded_key_count: self.uploaded_key_count,
        }
    }
}

impl AccountView {
    /// The account as JSON.
    pub open spec fn json(self) -> Seq<char> {
        json::object_text(
            seq![
                ("user_id"@, json::string_text(self.user_id)),
                ("device_id"@, json::string_text(self.device_id)),
                ("pickled_account"@, json::string_text(self.pickled_account)),
                ("ed25519_key"@, json::string_text(self.ed25519_key)),
                ("curve25519_key"@, json::string_text(self.curve25519_key)),
                ("keys_uploaded"@, json::bool_text(self.keys_uploaded)),
                ("uploaded_key_count"@, text::decimal_text(self.uploaded_key_count as nat)),
            ],
        )
    }
}

impl StoredAccount {
    /// Writes the account as JSON.
    pub fn to_json(&self) -> (r: String)
        ensures
            r@ == self@.json(),
    {
        let members = vec![
            field("user_id", string_json(self.user_id.as_str())),
            field("device_id", string_json(self.device_id.as_str())),
            field("pickled_account", string_json(self.pickled_account.as_str())),
            field("ed25519_key", string_json(self.ed25519_key.as_str())),
            field("curve25519_key", string_json(self.curve25519_key.as_str())),
            field("keys_uploaded", bool_json(self.keys_uploaded)),
            field("uploaded_key_count", decimal(self.uploaded_key_count as u64)),
        ];
        assert(json::member_views(members@) =~= seq![
            ("user_id"@, json::string_text(self.user_id@)),
            ("device_id"@, json::string_text(self.device_id@)),
            ("pickled_account"@, json::string_text(self.pickled_account@)),
            ("ed25519_key"@, json::string_text(self.ed25519_key@)),
            ("curve25519_key"@, json::string_text(self.curve25519_key@)),
            ("keys_uploaded"@, json::bool_text(self.keys_uploaded)),
            ("uploaded_key_count"@, text::decimal_text(self.uploaded_key_count as nat)),
        ]);
        object_json(&members)
    }
}

/// An Olm session as JSON.
pub open spec fn olm_session_json(
    sender_key: Seq<char>,
    pickled_session: Seq<char>,
    last_use_ts: u64,
) -> Seq<char> {
    json::object_text(
        seq![
            ("sender_key"@, json::string_text(sender_key)),
            ("pickled_session"@, json::string_text(pickled_session)),
            ("last_use_ts"@, text::decimal_text(last_use_ts as nat)),
        ],
    )
}

impl StoredOlmSession {
    /// The session as JSON.
    pub open spec fn json(self) -> Seq<char> {
        olm_session_json(self.sender_key@, self.pickled_session@, self.last_use_ts)
    }

    /// Writes the session as JSON.
    pub fn to_json(&self) -> (r: String)
        ensures
            r@ == self.json(),
    {
        let members = vec![
            field("sender_key", string_json(self.sender_key.as_str())),
            field("pickled_session", string_json(self.pickled_session.as_str())),
            field("last_use_ts", decimal(self.last_use_ts)),
        ];
        assert(json::member_views(members@) =~= seq![
            ("sender_key"@, json::string_text(self.sender_key@)),
            ("pickled_session"@, json::string_text(self.pickled_session@)),
            ("last_use_ts"@, text::decimal_text(self.last_use_ts as nat)),
        ]);
        object_json(&members)
    }
}

/// An inbound Megolm session, with texts as sequences.
pub struct InboundView {
    pub room_id: Seq<char>,
    pub session_id: Seq<char>,
    pub sender_key: Seq<char>,
    pub pickled_session: Seq<char>,
    pub forwarded: bool,
    pub seen_indices: Seq<u32>,
}

impl View for StoredInboundMegolmSession {
    type V = InboundView;

    open spec fn view(&self) -> InboundView {
        InboundView {
            room_id: self.room_id@,
            session_id: self.session_id@,
            sender_key: self.sender_key@,
            pickled_session: self.pickled_session@,
            forwarded: self.forwarded,
            seen_indices: self.seen_indices@,
        }
    }
}

impl InboundView {
    /// The session as JSON.
    pub open spec fn json(self) -> Seq<char> {
        json::object_text(
            seq![
                ("room_id"@, json::string_text(self.room_id)),
                ("session_id"@, json::string_text(self.session_id)),
                ("sender_key"@, json::string_text(self.sender_key)),
                ("pickled_session"@, json::string_text(self.pickled_session)),
                ("forwarded"@, json::bool_text(self.forwarded)),
                (
                    "seen_indices"@,
                    json::array_text(
                        self.seen_indices.map_values(|i: u32| text::decimal_text(i as nat)),
                    ),
                ),
            ],
        )
    }
}

impl StoredInboundMegolmSession {
    /// A copy of the session's record.
    pub fn copied(&self) -> (copy: StoredInboundMegolmSession)
        ensures
            copy@ == self@,
    {
        let mut seen_indices: Vec<u32> = Vec::new();
        let mut i: usize = 0;
        while i < self.seen_indices.len()
            invariant
                i <= self.seen_indices.len(),
                seen_indices@ == self.seen_indices@.take(i as int),
            decreases self.seen_indices.len() - i,
        {
            seen_indices.push(self.seen_indices[i]);
            i += 1;
            assert(seen_indices@ =~= self.seen_indices@.take(i as int));
        }
        assert(seen_indices@ =~= self.seen_indices@);
        StoredInboundMegolmSession {
            room_id: self.room_id.clone(),
            session_id: self.session_id.clone(),
            sender_key: self.sender_key.clone(),
            pickled_session: self.pickled_session.clone(),
            forwarded: self.forwarded,
            seen_indices,
        }
    }

    /// Writes the session as JSON.
    pub fn to_json(&self) -> (r: String)
        ensures
            r@ == self@.json(),
    {
        let mut indices: Vec<String> = Vec::new();
        let mut i: usize = 0;
        while i < self.seen_indices.len()
            invariant
                i == indices.len() <= self.seen_indices.len(),
                forall|k: int|
                    0 <= k < i ==> indices[k]@ == text::decimal_text(self.seen_indices[k] as nat),
            decreases self.seen_indices.len() - i,
        {
            indices.push(decimal(self.seen_indices[i] as u64));
            i += 1;
        }
        assert(text::texts(indices@) =~= self.seen_indices@.map_values(
            |i: u32| text::decimal_text(i as nat),
        ));
        let members = vec![
            field("room_id", string_json(self.room_id.as_str())),
            field("session_id", string_json(self.session_id.as_str())),
            field("sender_key", string_json(self.sender_key.as_str())),
            field("pickled_session", string_json(self.pickled_session.as_str())),
            field("forwarded", bool_json(self.forwarded)),
            field("seen_indices", json::array_json(&indices)),
        ];
        assert(json::member_views(members@) =~= seq![
            ("room_id"@, json::string_text(self.room_id@)),
            ("session_id"@, json::string_text(self.session_id@)),
            ("sender_key"@, json::string_text(self.sender_key@)),
            ("pickled_session"@, json::string_text(self.pickled_session@)),
            ("forwarded"@, json::bool_text(self.forwarded)),
            ("seen_indices"@, json::array_text(text::texts(indices@))),
        ]);
        object_json(&members)
    }
}

/// An outbound Megolm session, with texts as sequences.
pub struct OutboundView {
    pub room_id: Seq<char>,
    pub session_id: Seq<char>,
    pub pickled_session: Seq<char>,
    pub message_count: u32,
    pub created_ts: u64,
}

impl View for StoredOutboundMegolmSession {
    type V = OutboundView;

    open spec fn view(&self) -> OutboundView {
        OutboundView {
            room_id: self.room_id@,
            session_id: self.session_id@,
            pickled_session: self.pickled_session@,
            message_count: self.message_count,
            created_ts: self.created_ts,
        }
    }
}

impl OutboundView {
    /// The session as JSON.
    pub open spec fn json(self) -> Seq<char> {
        json::object_text(
            seq![
                ("room_id"@, json::string_text(self.room_id)),
                ("session_id"@, json::string_text(self.session_id)),
                ("pickled_session"@, json::string_text(self.pickled_session)),
                ("message_count"@, text::decimal_text(self.message_count as nat)),
                ("created_ts"@, text::decimal_text(self.created_ts as nat)),
            ],
        )
    }
}

impl StoredOutboundMegolmSession {
    /// Writes the session as JSON.
    pub fn to_json(&self) -> (r: String)
        ensures
            r@ == self@.json(),
    {
        let members = vec![
            field("room_id", string_json(self.room_id.as_str())),
            field("session_id", string_json(self.session_id.as_str())),
            field("pickled_session", string_json(self.pickled_session.as_str())),
            field("message_count", decimal(self.message_count as u64)),
            field("created_ts", decimal(self.created_ts)),
        ];
        assert(json::member_views(members@) =~= seq![
            ("room_id"@, json::string_text(self.room_id@)),
            ("session_id"@, json::string_text(self.session_id@)),
            ("pickled_session"@, json::string_text(self.pickled_session@)),
            ("message_count"@, text::decimal_text(self.message_count as nat)),
            ("created_ts"@, text::decimal_text(self.created_ts as nat)),
        ]);
        object_json(&members)
    }
}

// ---------------------------------------------------------------------------
// Paths
// ---------------------------------------------------------------------------

/// Whether a character may stand in a file name as it is.
pub open spec fn is_file_char(c: char) -> bool {
    ('a' <= c <= 'z') || ('A' <= c <= 'Z') || ('0' <= c <= '9') || c == '-' || c == '_' || c == '.'
}

/// A key as a file name: an underscore for each character that may not stand in one.
pub open spec fn sanitized(key: Seq<char>) -> Seq<char> {
    key.map_values(|c: char| if is_file_char(c) { c } else { '_' })
}

/// Sanitize a key for use as a filename.
///
/// Matrix identifiers contain characters like `!`, `:`, `@` that may not be valid in file paths.
/// Replaces them with an underscore.
pub fn sanitize_key(key: &str) -> (r: String)
    ensures
        r@ == sanitized(key@),
{
    let chars = chars_of(key);
    let mut r = String::new();
    let mut i: usize = 0;
    while i < chars.len()
        invariant
            i <= chars.len(),
            chars@ == key@,
            r@ == sanitized(key@).take(i as int),
        decreases chars.len() - i,
    {
        let c: char = chars[i];
        if ('a' <= c && c <= 'z') || ('A' <= c && c <= 'Z') || ('0' <= c && c <= '9') || c == '-'
            || c == '_' || c == '.' {
            r.push(c);
        } else {
            r.push('_');
        }
        i += 1;
        assert(r@ =~= sanitized(key@).take(i as int));
    }
    assert(r@ =~= sanitized(key@));
    r
}

/// Where the Olm sessions with a sender key are stored.
pub open spec fn olm_sessions_path(sender_key: Seq<char>) -> Seq<char> {
    "crypto/olm_sessions/"@ + sanitized(sender_key) + ".json"@
}

/// Where an inbound session of a room is stored.
pub open spec fn inbound_path(room_id: Seq<char>, session_id: Seq<char>) -> Seq<char> {
    "crypto/megolm_inbound/"@ + sanitized(room_id) + "/"@ + sanitized(session_id) + ".json"@
}

/// Where the outbound session of a room is stored.
pub open spec fn outbound_path(room_id: Seq<char>) -> Seq<char> {
    "crypto/megolm_outbound/"@ + sanitized(room_id) + ".json"@
}

fn path_of_inbound(room_id: &str, session_id: &str) -> (path: String)
    ensures
        path@ == inbound_path(room_id@, session_id@),
{
    let room = sanitize_key(room_id);
    let session = sanitize_key(session_id);
    text::concat5("crypto/megolm_inbound/", room.as_str(), "/", session.as_str(), ".json")
}

/// Read the stored Olm account.
pub fn read_account() -> (call: HostCall)
    ensures
        call@ == CallView::ReadAccount("crypto/account.json"@),
{
    HostCall::ReadAccount("crypto/account.json".to_owned())
}

/// Write the Olm account.
pub fn write_account(account: &StoredAccount) -> (call: HostCall)
    ensures
        call@ == CallView::Write("crypto/account.json"@, account@.json()),
{
    HostCall::Write("crypto/account.json".to_owned(), account.to_json())
}

/// Read Olm sessions for a given sender key.
pub fn read_olm_sessions(sender_key: &str) -> (call: HostCall)
    ensures
        call@ == CallView::ReadOlmSessions(olm_sessions_path(sender_key@)),
{
    let safe_key = sanitize_key(sender_key);
    HostCall::ReadOlmSessions(concat3("crypto/olm_sessions/", safe_key.as_str(), ".json"))
}

/// Olm sessions as a JSON array.
pub open spec fn olm_sessions_json(sessions: Seq<StoredOlmSession>) -> Seq<char> {
    json::array_text(sessions.map_values(|s: StoredOlmSession| s.json()))
}

/// Write Olm sessions for a given sender key.
pub fn write_olm_sessions(sender_key: &str, sessions: &Vec<StoredOlmSession>) -> (call: HostCall)
    ensures
        call@ == CallView::Write(olm_sessions_path(sender_key@), olm_sessions_json(sessions@)),
{
    let mut items: Vec<String> = Vec::new();
    let mut i: usize = 0;
    while i < sessions.len()
        invariant
            i == items.len() <= sessions.len(),
            forall|k: int| 0 <= k < i ==> items[k]@ == sessions[k].json(),
        decreases sessions.len() - i,
    {
        items.push(sessions[i].to_json());
        i += 1;
    }
    assert(text::texts(items@) =~= sessions@.map_values(|s: StoredOlmSession| s.json()));
    let safe_key = sanitize_key(sender_key);
    HostCall::Write(
        concat3("crypto/olm_sessions/", safe_key.as_str(), ".json"),
        json::array_json(&items),
    )
}

/// Read an inbound Megolm session.
pub fn read_inbound_megolm_session(room_id: &str, session_id: &str) -> (call: HostCall)
    ensures
        call@ == CallView::ReadInbound(inbound_path(room_id@, session_id@)),
{
    HostCall::ReadInbound(path_of_inbound(room_id, session_id))
}

/// Write an inbound Megolm session.
pub fn write_inbound_megolm_session(session: &StoredInboundMegolmSession) -> (call: HostCall)
    ensures
        call@ == CallView::Write(
            inbound_path(session.room_id@, session.session_id@),
            session@.json(),
        ),
{
    HostCall::Write(
        path_of_inbound(session.room_id.as_str(), session.session_id.as_str()),
        session.to_json(),
    )
}

/// Read an outbound Megolm session for a room.
pub fn read_outbound_megolm_session(room_id: &str) -> (call: HostCall)
    ensures
        call@ == CallView::ReadOutbound(outbound_path(room_id@)),
{
    let room = sanitize_key(room_id);
    HostCall::ReadOutbound(concat3("crypto/megolm_outbound/", room.as_str(), ".json"))
}

/// Write an outbound Megolm session for a room.
pub fn write_outbound_megolm_session(session: &StoredOutboundMegolmSession) -> (call: HostCall)
    ensures
        call@ == CallView::Write(outbound_path(session.room_id@), session@.json()),
{
    let room = sanitize_key(session.room_id.as_str());
    HostCall::Write(
        concat3("crypto/megolm_outbound/", room.as_str(), ".json"),
        session.to_json(),
    )
}

/// Save an Olm session, merging with existing sessions for the same sender key: it comes first, and
/// those that are stored stay.
pub fn save_olm_session(
    sender_key: &str,
    stored: Vec<StoredOlmSession>,
    session: StoredOlmSession,
) -> (call: HostCall)
    ensures
        call@ == saved_olm_sessions(sender_key@, session, stored@),
{
    let mut sessions = stored;
    let ghost others = sessions@;
    sessions.insert(0, session);
    assert(sessions@ =~= seq![session] + others);
    write_olm_sessions(sender_key, &sessions)
}

/// The write that saves an Olm session along with others for the same sender key.
pub open spec fn saved_olm_sessions(
    sender_key: Seq<char>,
    session: StoredOlmSession,
    others: Seq<StoredOlmSession>,
) -> CallView {
    CallView::Write(olm_sessions_path(sender_key), olm_sessions_json(seq![session] + others))
}

/// Whether a stored session stays where one with this pickle is replaced.
pub open spec fn stays(session: StoredOlmSession, replaced: Option<Seq<char>>) -> bool {
    replaced != Some(session.pickled_session@)
}

/// The sessions that stay where one with this pickle is replaced.
pub open spec fn kept_sessions(
    sessions: Seq<StoredOlmSession>,
    replaced: Option<Seq<char>>,
) -> Seq<StoredOlmSession> {
    sessions.filter(|s: StoredOlmSession| stays(s, replaced))
}

fn keep_sessions(sessions: Vec<StoredOlmSession>, replaced: &Option<String>) -> (kept: Vec<
    StoredOlmSession,
>)
    ensures
        kept@ == kept_sessions(sessions@, json::opt_text(*replaced)),
{
    let ghost all = sessions@;
    let ghost pred = |s: StoredOlmSession| stays(s, json::opt_text(*replaced));
    let mut left = sessions;
    let mut kept: Vec<StoredOlmSession> = Vec::new();
    proof {
        reveal(Seq::filter);
        assert(left@ =~= all.skip(0));
        assert(all.take(0) =~= Seq::empty());
        assert(kept@ =~= all.take(0).filter(pred));
    }
    let ghost mut n: int = 0;
    while left.len() > 0
        invariant
            0 <= n <= all.len(),
            left@ == all.skip(n),
            pred == (|s: StoredOlmSession| stays(s, json::opt_text(*replaced))),
            kept@ == all.take(n).filter(pred),
        decreases left.len(),
    {
        let session = left.remove(0);
        proof {
            assert(left@ =~= all.skip(n + 1));
            assert(all.take(n + 1).drop_last() =~= all.take(n));
            assert(all.take(n + 1).last() == session);
            reveal(Seq::filter);
        }
        let goes = match replaced {
            Some(r) => text::same_text(r.as_str(), session.pickled_session.as_str()),
            None => false,
        };
        if !goes {
            kept.push(session);
        }
        proof {
            n = n + 1;
        }
    }
    assert(all.take(n) =~= all);
    kept
}

/// Saves an Olm session: it replaces its own earlier state among the sessions that are stored for the
/// sender key, and the others stay.
pub enum SaveOlm {
    /// The host is to read the sessions that are stored. Holds the sender key, the stored pickle of
    /// the session's earlier state, if it has one, and the session.
    Reading(String, Option<String>, StoredOlmSession),
    /// The host is to write the sessions.
    Writing,
}

/// A step of the saving of an Olm session.
pub type SaveOlmStep = Step<SaveOlm, Result<(), String>>;

impl SaveOlm {
    /// The flow starts: the host is asked for the sessions that are stored.
    pub open spec fn begins(
        self,
        call: HostCall,
        key: Seq<char>,
        replaced: Option<Seq<char>>,
        sender_key: Seq<char>,
        pickled_session: Seq<char>,
        last_use_ts: u64,
    ) -> bool {
        &&& call@ == CallView::ReadOlmSessions(olm_sessions_path(key))
        &&& self matches SaveOlm::Reading(k, r, session)
        &&& k@ == key
        &&& json::opt_text(r) == replaced
        &&& session.sender_key@ == sender_key
        &&& session.pickled_session@ == pickled_session
        &&& session.last_use_ts == last_use_ts
    }

    /// The flow goes on from an answer: the session and the others are written.
    pub open spec fn moves(self, reply: HostReply, step: SaveOlmStep) -> bool {
        match (self, reply) {
            (SaveOlm::Reading(key, replaced, session), HostReply::OlmSessions(stored)) => step.asks(
                saved_olm_sessions(
                    key@,
                    session,
                    kept_sessions(stored@, json::opt_text(replaced)),
                ),
                SaveOlm::Writing,
            ),
            (SaveOlm::Writing, HostReply::Written(result)) => step.gives(result),
            _ => step.strays(self),
        }
    }

    /// Goes on from an answer of the host.
    pub fn resume(self, reply: HostReply) -> (step: SaveOlmStep)
        ensures
            self.moves(reply, step),
    {
        match (self, reply) {
            (SaveOlm::Reading(key, replaced, session), HostReply::OlmSessions(stored)) => {
                let kept = keep_sessions(stored, &replaced);
                Step::Ask(save_olm_session(key.as_str(), kept, session), SaveOlm::Writing)
            },
            (SaveOlm::Writing, HostReply::Written(result)) => Step::Done(result),
            (flow, _) => Step::Stray(flow),
        }
    }
}

/// Starts to save an Olm session.
pub fn start_saving_olm(
    key: String,
    replaced: Option<String>,
    session: StoredOlmSession,
) -> (start: (HostCall, SaveOlm))
    ensures
        start.1.begins(
            start.0,
            key@,
            json::opt_text(replaced),
            session.sender_key@,
            session.pickled_session@,
            session.last_use_ts,
        ),
{
    (read_olm_sessions(key.as_str()), SaveOlm::Reading(key, replaced, session))
}

// ---------------------------------------------------------------------------
// One-time keys and rotation
// ---------------------------------------------------------------------------

/// Minimum one-time keys to keep uploaded. When the server count falls below this, more are
/// generated and uploaded.
pub const OTK_MIN_COUNT: usize = 10;

/// Number of one-time keys to generate at a time.
pub const OTK_UPLOAD_BATCH: usize = 10;

/// Maximum messages before Megolm session rotation.
pub const MEGOLM_ROTATION_MESSAGE_COUNT: u32 = 100;

/// Maximum age before Megolm session rotation (1 week in milliseconds).
pub const MEGOLM_ROTATION_AGE_MS: u64 = 604_800_000;

/// Whether an outbound session that has sent this many messages since this time is to be replaced:
/// after 100 messages or one week.
pub open spec fn rotation_due(message_count: u32, created_ts: u64, now_ms: u64) -> bool {
    message_count >= 100 || now_ms - created_ts >= 7 * 24 * 60 * 60 * 1000
}

/// Check if an outbound Megolm session needs rotation.
pub fn should_rotate_session(session: &StoredOutboundMegolmSession, now_ms: u64) -> (rotate: bool)
    ensures
        rotate == rotation_due(session.message_count, session.created_ts, now_ms),
{
    if session.message_count >= MEGOLM_ROTATION_MESSAGE_COUNT {
        return true;
    }
    now_ms.saturating_sub(session.created_ts) >= MEGOLM_ROTATION_AGE_MS
}

// ---------------------------------------------------------------------------
// Pickles
// ---------------------------------------------------------------------------

/// What is stored of a pickle that the host has encrypted, or why it could not encrypt it.
pub open spec fn sealed_pickle(encrypted: Result<Vec<u8>, String>) -> Result<
    Seq<char>,
    Seq<char>,
> {
    match encrypted {
        Ok(bytes) => Ok(codec::base64_text(bytes@)),
        Err(e) => Err("Host encryption failed: "@ + e@),
    }
}

/// Encrypt a pickle via the host, for a base64 string to store: given what the host made of the
/// pickle's bytes, what is stored.
pub fn host_encrypt_pickle(encrypted: Result<Vec<u8>, String>) -> (stored: Result<String, String>)
    ensures
        host::agrees_in_view(stored, sealed_pickle(encrypted)),
        encrypted matches Ok(bytes) ==> unsealed_bytes(stored->Ok_0@) == Ok::<Seq<u8>, Seq<char>>(
            bytes@,
        ),
{
    match encrypted {
        Ok(bytes) => Ok(base64_encode(bytes.as_slice())),
        Err(e) => Err(concat2("Host encryption failed: ", e.as_str())),
    }
}

/// The bytes that the host is to decrypt for a stored pickle, or why there are none.
pub open spec fn unsealed_bytes(stored: Seq<char>) -> Result<Seq<u8>, Seq<char>> {
    match codec::base64_bytes(stored) {
        Ok(bytes) => Ok(bytes),
        Err(e) => Err("Invalid base64 in stored pickle: "@ + e),
    }
}

/// Decrypt a base64 string via the host: the bytes to hand to the host.
pub fn host_decrypt_pickle(stored: &str) -> (bytes: Result<Vec<u8>, String>)
    ensures
        host::agrees_in_view(bytes, unsealed_bytes(stored@)),
{
    match base64_decode(stored) {
        Ok(bytes) => Ok(bytes),
        Err(e) => Err(concat2("Invalid base64 in stored pickle: ", e.as_str())),
    }
}

/// Why a stored pickle could not be decrypted by the host.
pub open spec fn decryption_failure(e: Seq<char>) -> Seq<char> {
    "Host decryption failed: "@ + e
}

/// Why a decrypted pickle could not be read.
pub open spec fn pickle_failure(e: Seq<char>) -> Seq<char> {
    "Failed to deserialize pickle: "@ + e
}

/// What becomes of a stored pickle once the host has decrypted it, or tried to, given what the
/// decrypted bytes unpickle to.
pub open spec fn opened_pickle(
    decrypted: Result<Vec<u8>, String>,
    unpickled: Result<Seq<u8>, Seq<char>>,
) -> Result<Seq<u8>, Seq<char>> {
    match decrypted {
        Err(e) => Err(decryption_failure(e@)),
        Ok(_) => match unpickled {
            Ok(pickle) => Ok(pickle),
            Err(e) => Err(pickle_failure(e)),
        },
    }
}

/// Reads the account out of a stored pickle that the host has decrypted.
pub fn open_account(decrypted: Result<Vec<u8>, String>) -> (r: Result<OlmAccount, String>)
    ensures
        host::agrees_in_view(
            r,
            opened_pickle(decrypted, olm::account_pickle(decrypted->Ok_0@)),
        ),
{
    match decrypted {
        Err(e) => Err(concat2("Host decryption failed: ", e.as_str())),
        Ok(bytes) => match OlmAccount::from_pickle(bytes.as_slice()) {
            Ok(account) => Ok(account),
            Err(e) => Err(concat2("Failed to deserialize pickle: ", e.as_str())),
        },
    }
}

/// Reads the Olm session out of a stored pickle that the host has decrypted.
pub fn open_olm_session(decrypted: Result<Vec<u8>, String>) -> (r: Result<OlmSession, String>)
    ensures
        host::agrees_in_view(r, opened_pickle(decrypted, olm::olm_pickle(decrypted->Ok_0@))),
{
    match decrypted {
        Err(e) => Err(concat2("Host decryption failed: ", e.as_str())),
        Ok(bytes) => match OlmSession::from_pickle(bytes.as_slice()) {
            Ok(session) => Ok(session),
            Err(e) => Err(concat2("Failed to deserialize pickle: ", e.as_str())),
        },
    }
}

/// Reads the inbound session out of a stored pickle that the host has decrypted.
pub fn open_inbound_session(decrypted: Result<Vec<u8>, String>) -> (r: Result<
    InboundSession,
    String,
>)
    ensures
        host::agrees_in_view(
            r,
            opened_pickle(decrypted, megolm::inbound_pickle(decrypted->Ok_0@)),
        ),
        r matches Ok(session) ==> megolm::is_inbound(session@),
{
    match decrypted {
        Err(e) => Err(concat2("Host decryption failed: ", e.as_str())),
        Ok(bytes) => match InboundSession::from_pickle(bytes.as_slice()) {
            Ok(session) => Ok(session),
            Err(e) => Err(concat2("Failed to deserialize pickle: ", e.as_str())),
        },
    }
}

/// Reads the outbound session out of a stored pickle that the host has decrypted.
pub fn open_outbound_session(decrypted: Result<Vec<u8>, String>) -> (r: Result<
    OutboundSession,
    String,
>)
    ensures
        host::agrees_in_view(
            r,
            opened_pickle(decrypted, megolm::outbound_pickle(decrypted->Ok_0@)),
        ),
{
    match decrypted {
        Err(e) => Err(concat2("Host decryption failed: ", e.as_str())),
        Ok(bytes) => match OutboundSession::from_pickle(bytes.as_slice()) {
            Ok(session) => Ok(session),
            Err(e) => Err(concat2("Failed to deserialize pickle: ", e.as_str())),
        },
    }
}

// ---------------------------------------------------------------------------
// Laws
// ---------------------------------------------------------------------------

/// A file name made of a key holds no character that may not stand in one, and is as long as the
/// key.
pub proof fn sanitized_is_a_file_name(key: Seq<char>)
    ensures
        sanitized(key).len() == key.len(),
        forall|i: int| 0 <= i < key.len() ==> is_file_char(#[trigger] sanitized(key)[i]),
{
}

/// Sanitizing changes nothing in a key that is a file name already, such as one sanitized before.
pub proof fn sanitizing_is_idempotent(key: Seq<char>)
    ensures
        sanitized(sanitized(key)) == sanitized(key),
{
    assert(sanitized(sanitized(key)) =~= sanitized(key));
}

/// Saving an Olm session keeps every other session that is stored for the sender key: what is written
/// is the session and, among the others, each that is stored but the session's own earlier state.
pub proof fn saving_keeps_the_other_sessions(
    key: String,
    replaced: Option<String>,
    session: StoredOlmSession,
    stored: Vec<StoredOlmSession>,
    step: SaveOlmStep,
    i: int,
)
    requires
        SaveOlm::Reading(key, replaced, session).moves(HostReply::OlmSessions(stored), step),
        0 <= i < stored@.len(),
        replaced is None || stored@[i].pickled_session@ != replaced->0@,
    ensures
        exists|others: Seq<StoredOlmSession>|
            step matches Step::Ask(call, _) && call@ == #[trigger] saved_olm_sessions(
                key@,
                session,
                others,
            ) && others.contains(stored@[i]) && (replaced is None ==> others == stored@),
{
    let pred = |s: StoredOlmSession| stays(s, json::opt_text(replaced));
    let others = kept_sessions(stored@, json::opt_text(replaced));
    assert(pred(stored@[i]));
    broadcast use vstd::seq_lib::group_filter_ensures;

    if replaced is None {
        all_stay(stored@);
    }
    assert(step->Ask_0@ == saved_olm_sessions(key@, session, others));
}

proof fn all_stay(sessions: Seq<StoredOlmSession>)
    ensures
        kept_sessions(sessions, None) == sessions,
    decreases sessions.len(),
{
    reveal(Seq::filter);
    if sessions.len() > 0 {
        all_stay(sessions.drop_last());
        assert(sessions =~= sessions.drop_last().push(sessions.last()));
    }
}

/// A session that is due for rotation stays due: with more messages, and at any later time.
pub proof fn rotation_stays_due(count: u32, created_ts: u64, now: u64, more: u32, later: u64)
    requires
        rotation_due(count, created_ts, now),
        more >= count,
        later >= now,
    ensures
        rotation_due(more, created_ts, later),
{
}

impl AccountView {
    /// The value that the account is as JSON.
    pub open spec fn tree(self) -> JsonTree {
        JsonTree::Object(
            seq![
                ("user_id"@, JsonTree::Str(self.user_id)),
                ("device_id"@, JsonTree::Str(self.device_id)),
                ("pickled_account"@, JsonTree::Str(self.pickled_account)),
                ("ed25519_key"@, JsonTree::Str(self.ed25519_key)),
                ("curve25519_key"@, JsonTree::Str(self.curve25519_key)),
                ("keys_uploaded"@, JsonTree::Bool(self.keys_uploaded)),
                ("uploaded_key_count"@, JsonTree::Unsigned(self.uploaded_key_count as u64)),
            ],
        )
    }
}

/// A stored account reads back as what was written: its text is that of an object that has each
/// field under the field's name.
pub proof fn stored_account_reads_back(account: AccountView)
    ensures
        account.json() == json_tree::written(account.tree()),
        json_tree::fits(account.tree(), 1),
        json_tree::at(account.tree(), seq!["user_id"@]) == Some(JsonTree::Str(account.user_id)),
        json_tree::at(account.tree(), seq!["device_id"@]) == Some(JsonTree::Str(account.device_id)),
        json_tree::at(account.tree(), seq!["pickled_account"@]) == Some(
            JsonTree::Str(account.pickled_account),
        ),
        json_tree::at(account.tree(), seq!["ed25519_key"@]) == Some(
            JsonTree::Str(account.ed25519_key),
        ),
        json_tree::at(account.tree(), seq!["curve25519_key"@]) == Some(
            JsonTree::Str(account.curve25519_key),
        ),
        json_tree::at(account.tree(), seq!["keys_uploaded"@]) == Some(
            JsonTree::Bool(account.keys_uploaded),
        ),
        json_tree::at(account.tree(), seq!["uploaded_key_count"@]) == Some(
            JsonTree::Unsigned(account.uploaded_key_count as u64),
        ),
{
    reveal_strlit("user_id");
    reveal_strlit("device_id");
    reveal_strlit("pickled_account");
    reveal_strlit("ed25519_key");
    reveal_strlit("curve25519_key");
    reveal_strlit("keys_uploaded");
    reveal_strlit("uploaded_key_count");
    let members = account.tree()->Object_0;
    json_tree::written_members_are(
        members,
        seq![
            ("user_id"@, json::string_text(account.user_id)),
            ("device_id"@, json::string_text(account.device_id)),
            ("pickled_account"@, json::string_text(account.pickled_account)),
            ("ed25519_key"@, json::string_text(account.ed25519_key)),
            ("curve25519_key"@, json::string_text(account.curve25519_key)),
            ("keys_uploaded"@, json::bool_text(account.keys_uploaded)),
            ("uploaded_key_count"@, text::decimal_text(account.uploaded_key_count as nat)),
        ],
    );
    assert(members[0].0.len() == 7);
    assert(members[1].0.len() == 9);
    assert(members[2].0.len() == 15);
    assert(members[3].0.len() == 11);
    assert(members[4].0.len() == 14);
    assert(members[5].0.len() == 13);
    assert(members[6].0.len() == 18);
    assert forall|i: int, j: int| 0 <= i < j < members.len() implies members[i].0 != members[j].0 by {
        assert(members[i].0.len() != members[j].0.len());
    }
    json_tree::members_all_fit(members, 0);
    json_tree::member_is_at_its_name(members, 0);
    json_tree::member_is_at_its_name(members, 1);
    json_tree::member_is_at_its_name(members, 2);
    json_tree::member_is_at_its_name(members, 3);
    json_tree::member_is_at_its_name(members, 4);
    json_tree::member_is_at_its_name(members, 5);
    json_tree::member_is_at_its_name(members, 6);
}

impl SaveOlm {
    /// What the flow does from an answer.
    pub open spec fn rule() -> host::Rule<SaveOlm, Result<(), String>> {
        |flow: SaveOlm, reply: HostReply, step: SaveOlmStep| flow.moves(reply, step)
    }
}

/// Whether an Olm session is saved under a key by these questions: the host has encrypted its pickle, and
/// what is written last for the key is a list that starts with a record of the encrypted pickle, and then
/// has every session that was stored, in order, but the one whose state it replaces.
pub open spec fn session_is_saved(
    calls: Seq<CallView>,
    replies: Seq<HostReply>,
    key: Seq<char>,
    session: Seq<u8>,
    replaced: Option<Seq<char>>,
) -> bool {
    exists|sealed_at: int, stored: Seq<StoredOlmSession>, record: StoredOlmSession|
        #![trigger calls[sealed_at], saves_record(calls, replies, key, stored, record, replaced)]
        {
            &&& 0 <= sealed_at < calls.len()
            &&& calls[sealed_at] == CallView::Encrypt(session)
            &&& (replies[sealed_at] matches HostReply::Bytes(Ok(sealed)) && unsealed_bytes(
                record.pickled_session@,
            ) == Ok::<Seq<u8>, Seq<char>>(sealed@))
            &&& saves_record(calls, replies, key, stored, record, replaced)
        }
}

/// Whether the last two questions read the sessions that are stored for a key, and write them, with a
/// record before them, and without the one that it replaces.
pub open spec fn saves_record(
    calls: Seq<CallView>,
    replies: Seq<HostReply>,
    key: Seq<char>,
    stored: Seq<StoredOlmSession>,
    record: StoredOlmSession,
    replaced: Option<Seq<char>>,
) -> bool {
    let n = calls.len() as int;
    &&& n == replies.len() >= 2
    &&& calls[n - 2] == CallView::ReadOlmSessions(olm_sessions_path(key))
    &&& (replies[n - 2] matches HostReply::OlmSessions(found) && found@ == stored)
    &&& calls[n - 1] == CallView::Write(
        olm_sessions_path(key),
        olm_sessions_json(
            seq![record] + stored.filter(
                |s: StoredOlmSession| replaced != Some(s.pickled_session@),
            ),
        ),
    )
    &&& (replies[n - 1] matches HostReply::Written(Ok(_)))
}

/// A saving that succeeds has written the session before those that are stored, which stay but for the one
/// whose state it replaces.
pub proof fn saving_writes_the_sessions(
    flow: SaveOlm,
    call: HostCall,
    key: Seq<char>,
    replaced: Option<Seq<char>>,
    sender_key: Seq<char>,
    pickled_session: Seq<char>,
    last_use_ts: u64,
    calls: Seq<CallView>,
    replies: Seq<HostReply>,
) -> (r: (Seq<StoredOlmSession>, StoredOlmSession))
    requires
        flow.begins(call, key, replaced, sender_key, pickled_session, last_use_ts),
        host::runs(SaveOlm::rule(), Step::Ask(call, flow), calls, replies, Step::Done(Ok(()))),
    ensures
        calls.len() == 2,
        saves_record(calls, replies, key, r.0, r.1, replaced),
        r.1.sender_key@ == sender_key,
        r.1.pickled_session@ == pickled_session,
        r.1.last_use_ts == last_use_ts,
{
    let rule = SaveOlm::rule();
    let last: SaveOlmStep = Step::Done(Ok(()));
    let s1 = host::run_goes_on(rule, Step::Ask(call, flow), calls, replies, last);
    let (c1, r1) = (calls.skip(1), replies.skip(1));
    if s1 is Stray {
        host::run_is_over(rule, s1, c1, r1, last);
    }
    let s2 = host::run_goes_on(rule, s1, c1, r1, last);
    host::run_is_over(rule, s2, c1.skip(1), r1.skip(1), last);
    assert(c1[0] == calls[1] && r1[0] == replies[1]);
    let stored = replies[0]->OlmSessions_0@;
    match flow {
        SaveOlm::Reading(k, r, session) => {
            assert(kept_sessions(stored, replaced) =~= stored.filter(
                |s: StoredOlmSession| replaced != Some(s.pickled_session@),
            )) by {
                kept_are_the_filtered(stored, replaced);
            }
            (stored, session)
        },
        _ => arbitrary(),
    }
}

proof fn kept_are_the_filtered(sessions: Seq<StoredOlmSession>, replaced: Option<Seq<char>>)
    ensures
        kept_sessions(sessions, replaced) == sessions.filter(
            |s: StoredOlmSession| replaced != Some(s.pickled_session@),
        ),
    decreases sessions.len(),
{
    reveal(Seq::filter);
    if sessions.len() > 0 {
        kept_are_the_filtered(sessions.drop_last(), replaced);
    }
}

/// A stored Olm session as a JSON value.
pub open spec fn olm_session_tree(session: StoredOlmSession) -> JsonTree {
    JsonTree::Object(
        seq![
            ("sender_key"@, JsonTree::Str(session.sender_key@)),
            ("pickled_session"@, JsonTree::Str(session.pickled_session@)),
            ("last_use_ts"@, JsonTree::Unsigned(session.last_use_ts)),
        ],
    )
}

proof fn olm_session_reads_back(session: StoredOlmSession)
    ensures
        session.json() == json_tree::written(olm_session_tree(session)),
        json_tree::fits(olm_session_tree(session), 1),
{
    reveal_strlit("sender_key");
    reveal_strlit("pickled_session");
    reveal_strlit("last_use_ts");
    let members = olm_session_tree(session)->Object_0;
    json_tree::written_members_are(
        members,
        seq![
            ("sender_key"@, json::string_text(session.sender_key@)),
            ("pickled_session"@, json::string_text(session.pickled_session@)),
            ("last_use_ts"@, text::decimal_text(session.last_use_ts as nat)),
        ],
    );
    assert(members[0].0.len() == 10 && members[1].0.len() == 15 && members[2].0.len() == 11);
    json_tree::members_all_fit(members, 0);
}

/// The Olm sessions that are written for a key read back: their text is that of the array of all of them,
/// in order, each with its fields.
pub proof fn olm_sessions_read_back(sessions: Seq<StoredOlmSession>) -> (tree: JsonTree)
    ensures
        tree == JsonTree::Array(sessions.map_values(|s: StoredOlmSession| olm_session_tree(s))),
        olm_sessions_json(sessions) == json_tree::written(tree),
        json_tree::fits(tree, 2),
{
    let items = sessions.map_values(|s: StoredOlmSession| olm_session_tree(s));
    let texts = sessions.map_values(|s: StoredOlmSession| s.json());
    assert forall|i: int| 0 <= i < items.len() implies json_tree::written(#[trigger] items[i])
        == texts[i] && json_tree::fits(items[i], 1) by {
        olm_session_reads_back(sessions[i]);
    }
    json_tree::written_items_are(items, texts);
    json_tree::items_all_fit(items, 1);
    JsonTree::Array(items)
}

/// A stored inbound session reads back as what was written: its text is that of an object that has each
/// field under the field's name, with all indices that were seen, in order.
pub proof fn stored_inbound_reads_back(record: InboundView) -> (tree: JsonTree)
    ensures
        record.json() == json_tree::written(tree),
        json_tree::fits(tree, 2),
        json_tree::at(tree, seq!["room_id"@]) == Some(JsonTree::Str(record.room_id)),
        json_tree::at(tree, seq!["session_id"@]) == Some(JsonTree::Str(record.session_id)),
        json_tree::at(tree, seq!["sender_key"@]) == Some(JsonTree::Str(record.sender_key)),
        json_tree::at(tree, seq!["pickled_session"@]) == Some(
            JsonTree::Str(record.pickled_session),
        ),
        json_tree::at(tree, seq!["forwarded"@]) == Some(JsonTree::Bool(record.forwarded)),
        json_tree::at(tree, seq!["seen_indices"@]) == Some(
            JsonTree::Array(
                record.seen_indices.map_values(|i: u32| JsonTree::Unsigned(i as u64)),
            ),
        ),
{
    reveal_strlit("room_id");
    reveal_strlit("session_id");
    reveal_strlit("sender_key");
    reveal_strlit("pickled_session");
    reveal_strlit("forwarded");
    reveal_strlit("seen_indices");
    let indices = record.seen_indices.map_values(|i: u32| JsonTree::Unsigned(i as u64));
    let texts = record.seen_indices.map_values(|i: u32| text::decimal_text(i as nat));
    json_tree::written_items_are(indices, texts);
    json_tree::items_all_fit(indices, 0);
    let members = seq![
        ("room_id"@, JsonTree::Str(record.room_id)),
        ("session_id"@, JsonTree::Str(record.session_id)),
        ("sender_key"@, JsonTree::Str(record.sender_key)),
        ("pickled_session"@, JsonTree::Str(record.pickled_session)),
        ("forwarded"@, JsonTree::Bool(record.forwarded)),
        ("seen_indices"@, JsonTree::Array(indices)),
    ];
    json_tree::written_members_are(
        members,
        seq![
            ("room_id"@, json::string_text(record.room_id)),
            ("session_id"@, json::string_text(record.session_id)),
            ("sender_key"@, json::string_text(record.sender_key)),
            ("pickled_session"@, json::string_text(record.pickled_session)),
            ("forwarded"@, json::bool_text(record.forwarded)),
            ("seen_indices"@, json::array_text(texts)),
        ],
    );
    assert(members[0].0.len() == 7 && members[1].0.len() == 10 && members[2].0.len() == 10
        && members[3].0.len() == 15 && members[4].0.len() == 9 && members[5].0.len() == 12);
    assert(members[1].0[1] == 'e' && members[2].0[1] == 'e');
    assert(members[1].0[2] == 's' && members[2].0[2] == 'n');
    assert forall|i: int, j: int| 0 <= i < j < members.len() implies members[i].0 != members[j].0 by {
        if i == 1 && j == 2 {
            assert(members[1].0[2] != members[2].0[2]);
        } else {
            assert(members[i].0.len() != members[j].0.len());
        }
    }
    json_tree::members_all_fit(members, 1);
    json_tree::member_is_at_its_name(members, 0);
    json_tree::member_is_at_its_name(members, 1);
    json_tree::member_is_at_its_name(members, 2);
    json_tree::member_is_at_its_name(members, 3);
    json_tree::member_is_at_its_name(members, 4);
    json_tree::member_is_at_its_name(members, 5);
    JsonTree::Object(members)
}

/// A stored outbound session reads back as what was written: its text is that of an object that has each
/// field under the field's name.
pub proof fn stored_outbound_reads_back(record: OutboundView) -> (tree: JsonTree)
    ensures
        record.json() == json_tree::written(tree),
        json_tree::fits(tree, 1),
        json_tree::at(tree, seq!["room_id"@]) == Some(JsonTree::Str(record.room_id)),
        json_tree::at(tree, seq!["session_id"@]) == Some(JsonTree::Str(record.session_id)),
        json_tree::at(tree, seq!["pickled_session"@]) == Some(
            JsonTree::Str(record.pickled_session),
        ),
        json_tree::at(tree, seq!["message_count"@]) == Some(
            JsonTree::Unsigned(record.message_count as u64),
        ),
        json_tree::at(tree, seq!["created_ts"@]) == Some(JsonTree::Unsigned(record.created_ts)),
{
    reveal_strlit("room_id");
    reveal_strlit("session_id");
    reveal_strlit("pickled_session");
    reveal_strlit("message_count");
    reveal_strlit("created_ts");
    let members = seq![
        ("room_id"@, JsonTree::Str(record.room_id)),
        ("session_id"@, JsonTree::Str(record.session_id)),
        ("pickled_session"@, JsonTree::Str(record.pickled_session)),
        ("message_count"@, JsonTree::Unsigned(record.message_count as u64)),
        ("created_ts"@, JsonTree::Unsigned(record.created_ts)),
    ];
    json_tree::written_members_are(
        members,
        seq![
            ("room_id"@, json::string_text(record.room_id)),
            ("session_id"@, json::string_text(record.session_id)),
            ("pickled_session"@, json::string_text(record.pickled_session)),
            ("message_count"@, text::decimal_text(record.message_count as nat)),
            ("created_ts"@, text::decimal_text(record.created_ts as nat)),
        ],
    );
    assert(members[0].0.len() == 7 && members[1].0.len() == 10 && members[2].0.len() == 15
        && members[3].0.len() == 13 && members[4].0.len() == 10);
    assert(members[1].0[0] == 's' && members[4].0[0] == 'c');
    assert forall|i: int, j: int| 0 <= i < j < members.len() implies members[i].0 != members[j].0 by {
        if i == 1 && j == 4 {
            assert(members[1].0[0] != members[4].0[0]);
        } else {
            assert(members[i].0.len() != members[j].0.len());
        }
    }
    json_tree::members_all_fit(members, 0);
    json_tree::member_is_at_its_name(members, 0);
    json_tree::member_is_at_its_name(members, 1);
    json_tree::member_is_at_its_name(members, 2);
    json_tree::member_is_at_its_name(members, 3);
    json_tree::member_is_at_its_name(members, 4);
    JsonTree::Object(members)
}

/// Sanitizing keeps every letter, digit, hyphen, underscore and full stop where it is, and puts an underscore
/// for anything else.
pub proof fn sanitizing_keeps_what_may_stand(key: Seq<char>, i: int)
    requires
        0 <= i < key.len(),
    ensures
        ('a' <= key[i] <= 'z') || ('A' <= key[i] <= 'Z') || ('0' <= key[i] <= '9') || key[i] == '-'
            || key[i] == '_' || key[i] == '.' ==> sanitized(key)[i] == key[i],
        sanitized(key)[i] == key[i] || sanitized(key)[i] == '_',
        key[i] == '/' || key[i] == '\\' || key[i] == ':' || key[i] == '!' || key[i] == '@' ==> sanitized(
            key,
        )[i] == '_',
{
}

/// The saving of an Olm session fails only where the host does not write it.
pub proof fn saving_fails_with_the_host(flow: SaveOlm, reply: HostReply, e: String)
    requires
        flow.moves(reply, Step::Done(Err(e))),
    ensures
        host::is_setback(reply),
{
}

} // verus!
