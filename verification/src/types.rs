//! Matrix event types: what /sync brings, and the bodies of requests.
//!
//! A map of the Matrix API is held as the list of its entries.

use vstd::prelude::*;
use vstd::string::*;

use crate::json_tree::{self, JsonTree};
use crate::json::{self, bool_json, canonicalize_json, object_json, string_array_json, string_json};
use crate::json::Json;
use crate::text::{self, decimal};

verus! {

// ---------------------------------------------------------------------------
// Sync response
// ---------------------------------------------------------------------------

/// Top-level /sync response.
#[derive(Debug)]
pub struct SyncResponse {
    /// Token for the next /sync call.
    pub next_batch: String,
    /// Room-related events.
    pub rooms: Option<SyncRooms>,
    /// To-device events (used for E2EE key delivery).
    pub to_device: Option<ToDeviceEvents>,
}

/// Container for to-device events in a /sync response.
#[derive(Debug)]
pub struct ToDeviceEvents {
    /// List of to-device events.
    pub events: Vec<ToDeviceEvent>,
}

/// A to-device event from /sync.
#[derive(Debug)]
pub struct ToDeviceEvent {
    /// Event type (e.g., "m.room.encrypted", "m.room_key").
    pub event_type: String,
    /// Sender user ID.
    pub sender: Option<String>,
    /// Event content.
    pub content: ToDeviceContent,
}

/// Content of a to-device event.
#[derive(Debug)]
pub struct ToDeviceContent {
    /// The content as JSON text.
    pub json: Vec<u8>,
    /// The content as that of an Olm-encrypted event, or why it is none.
    pub olm: Result<OlmEncryptedContent, String>,
}

/// Content of an Olm-encrypted to-device event.
#[derive(Debug)]
pub struct OlmEncryptedContent {
    /// Encryption algorithm.
    pub algorithm: String,
    /// Sender's Curve25519 key.
    pub sender_key: String,
    /// Ciphertext by the recipient's Curve25519 key, each as JSON text (`{type, body}`).
    pub ciphertext: Vec<(String, Vec<u8>)>,
}

/// Room categories in a /sync response.
#[derive(Debug)]
pub struct SyncRooms {
    /// Joined rooms with new events, by room ID.
    pub join: Option<Vec<(String, JoinedRoom)>>,
    /// IDs of the rooms the user has been invited to.
    pub invite: Option<Vec<String>>,
}

/// A joined room in the /sync response.
#[derive(Debug)]
pub struct JoinedRoom {
    /// Timeline events (messages, state changes).
    pub timeline: Option<Timeline>,
    /// State events (room name, membership, encryption).
    pub state: Option<StateEvents>,
}

/// Timeline within a joined room.
#[derive(Debug)]
pub struct Timeline {
    /// List of events.
    pub events: Vec<RoomEvent>,
}

/// State events within a joined room.
#[derive(Debug)]
pub struct StateEvents {
    /// List of state events.
    pub events: Vec<RoomEvent>,
}

/// A room event (timeline or state).
#[derive(Debug)]
pub struct RoomEvent {
    /// Event type (e.g., "m.room.message", "m.room.encrypted").
    pub event_type: String,
    /// Event ID.
    pub event_id: Option<String>,
    /// Sender user ID.
    pub sender: Option<String>,
    /// Server timestamp in milliseconds.
    pub origin_server_ts: Option<u64>,
    /// Event content.
    pub content: EventContent,
    /// State key (for state events).
    pub state_key: Option<String>,
}

/// Content of a room event, as what it can be read as.
#[derive(Debug)]
pub struct EventContent {
    /// As the content of an m.room.message event, or why it is none.
    pub message: Result<MessageContent, String>,
    /// As the content of an m.room.encrypted event, or why it is none.
    pub encrypted: Result<EncryptedContent, String>,
}

/// Content of an m.room.message event.
#[derive(Debug)]
pub struct MessageContent {
    /// Message type: "m.text", "m.image", "m.file", etc.
    pub msgtype: Option<String>,
    /// Plain text body.
    pub body: Option<String>,
    /// Formatted body (HTML).
    pub formatted_body: Option<String>,
    /// Format of formatted_body (e.g., "org.matrix.custom.html").
    pub format: Option<String>,
}

/// Content of an m.room.encrypted event.
#[derive(Debug)]
pub struct EncryptedContent {
    /// Encryption algorithm (e.g., "m.megolm.v1.aes-sha2").
    pub algorithm: String,
    /// Sender's Curve25519 key.
    pub sender_key: Option<String>,
    /// Megolm session ID.
    pub session_id: Option<String>,
    /// Device ID of the sender.
    pub device_id: Option<String>,
    /// Ciphertext (format depends on algorithm).
    pub ciphertext: Option<String>,
}

// ---------------------------------------------------------------------------
// Responses
// ---------------------------------------------------------------------------

/// Response from GET /_matrix/client/v3/account/whoami.
#[derive(Debug)]
pub struct WhoamiResponse {
    pub user_id: String,
    pub device_id: Option<String>,
}

/// Response from PUT /_matrix/client/v3/rooms/{roomId}/send/{eventType}/{txnId}.
#[derive(Debug)]
pub struct SendEventResponse {
    pub event_id: String,
}

/// Response from POST /_matrix/client/v3/keys/upload.
#[derive(Debug)]
pub struct KeysUploadResponse {
    /// Count of one-time keys by algorithm.
    pub one_time_key_counts: Vec<(String, u32)>,
}

/// Response from POST /_matrix/client/v3/keys/query.
#[derive(Debug)]
pub struct KeysQueryResponse {
    /// Device keys: by user ID and device ID.
    pub device_keys: Vec<(String, Vec<(String, DeviceKeys)>)>,
}

/// Response from POST /_matrix/client/v3/keys/claim.
#[derive(Debug)]
pub struct KeysClaimResponse {
    /// Claimed one-time keys: by user ID and device ID, each as JSON text (`{key_id: key}`).
    pub one_time_keys: Vec<(String, Vec<(String, Vec<u8>)>)>,
}

// ---------------------------------------------------------------------------
// Entries of a map
// ---------------------------------------------------------------------------

/// The position of the first entry with this name, or the number of entries where there is none.
pub open spec fn entry_at<V>(entries: Seq<(String, V)>, name: Seq<char>) -> int
    decreases entries.len(),
{
    if entries.len() == 0 || entries[0].0@ == name {
        0
    } else {
        1 + entry_at(entries.skip(1), name)
    }
}

/// The value that a map has for a name, where it has one.
pub open spec fn lookup<V>(entries: Seq<(String, V)>, name: Seq<char>) -> Option<V> {
    if 0 <= entry_at(entries, name) < entries.len() {
        Some(entries[entry_at(entries, name)].1)
    } else {
        None
    }
}

proof fn entry_is_first<V>(entries: Seq<(String, V)>, name: Seq<char>, i: int)
    requires
        0 <= i <= entries.len(),
        forall|k: int| 0 <= k < i ==> entries[k].0@ != name,
        i < entries.len() ==> entries[i].0@ == name,
    ensures
        entry_at(entries, name) == i,
    decreases entries.len(),
{
    if i > 0 {
        entry_is_first(entries.skip(1), name, i - 1);
    }
}

/// The position of the first entry with this name, where there is one.
pub fn find_entry<V>(entries: &Vec<(String, V)>, name: &str) -> (at: Option<usize>)
    ensures
        match at {
            Some(i) => i < entries.len() && i == entry_at(entries@, name@) && entries[i as int].0@
                == name@ && lookup(entries@, name@) == Some(entries[i as int].1),
            None => lookup(entries@, name@) is None && entry_at(entries@, name@) == entries.len(),
        },
{
    let mut i: usize = 0;
    while i < entries.len()
        invariant
            i <= entries.len(),
            forall|k: int| 0 <= k < i ==> entries[k].0@ != name@,
        decreases entries.len() - i,
    {
        if text::same_text(entries[i].0.as_str(), name) {
            proof {
                entry_is_first(entries@, name@, i as int);
            }
            return Some(i);
        }
        i += 1;
    }
    proof {
        entry_is_first(entries@, name@, entries.len() as int);
    }
    None
}

// ---------------------------------------------------------------------------
// Request bodies
// ---------------------------------------------------------------------------

/// A member of an object: its name and the text of its value.
pub fn field(name: &str, value: String) -> (member: (String, String))
    ensures
        member.0@ == name@,
        member.1 == value,
{
    (name.to_owned(), value)
}

/// A map from names to texts as an object, in the order of the entries.
pub open spec fn text_map_json(entries: Seq<(String, String)>) -> Seq<char> {
    json::object_text(
        entries.map_values(|e: (String, String)| (e.0@, json::string_text(e.1@))),
    )
}

/// Writes a map from names to texts as an object.
pub fn text_map(entries: &Vec<(String, String)>) -> (r: String)
    ensures
        r@ == text_map_json(entries@),
{
    let mut members: Vec<(String, String)> = Vec::new();
    let mut i: usize = 0;
    while i < entries.len()
        invariant
            i == members.len() <= entries.len(),
            forall|k: int|
                0 <= k < i ==> members[k].0@ == entries[k].0@ && members[k].1@ == json::string_text(
                    entries[k].1@,
                ),
        decreases entries.len() - i,
    {
        members.push((entries[i].0.clone(), string_json(entries[i].1.as_str())));
        i += 1;
    }
    assert(json::member_views(members@) =~= entries@.map_values(
        |e: (String, String)| (e.0@, json::string_text(e.1@)),
    ));
    object_json(&members)
}

/// Body for sending an m.room.message event.
#[derive(Debug)]
pub struct TextMessageBody {
    pub msgtype: String,
    pub body: String,
    pub format: Option<String>,
    pub formatted_body: Option<String>,
}

impl TextMessageBody {
    /// The body as JSON: the format and the formatted body only where there are any.
    pub open spec fn json(self) -> Seq<char> {
        let plain = seq![
            ("msgtype"@, json::string_text(self.msgtype@)),
            ("body"@, json::string_text(self.body@)),
        ];
        let formatted = match self.format {
            Some(f) => plain.push(("format"@, json::string_text(f@))),
            None => plain,
        };
        json::object_text(
            match self.formatted_body {
                Some(b) => formatted.push(("formatted_body"@, json::string_text(b@))),
                None => formatted,
            },
        )
    }

    /// Writes the body as JSON.
    pub fn to_json(&self) -> (r: String)
        ensures
            r@ == self.json(),
    {
        let mut members: Vec<(String, String)> = Vec::new();
        members.push(field("msgtype", string_json(self.msgtype.as_str())));
        members.push(field("body", string_json(self.body.as_str())));
        let ghost plain = seq![
            ("msgtype"@, json::string_text(self.msgtype@)),
            ("body"@, json::string_text(self.body@)),
        ];
        assert(json::member_views(members@) =~= plain);
        let ghost formatted = match &self.format {
            Some(f) => plain.push(("format"@, json::string_text(f@))),
            None => plain,
        };
        if let Some(f) = &self.format {
            members.push(field("format", string_json(f.as_str())));
        }
        assert(json::member_views(members@) =~= formatted);
        if let Some(b) = &self.formatted_body {
            members.push(field("formatted_body", string_json(b.as_str())));
            assert(json::member_views(members@) =~= formatted.push(
                ("formatted_body"@, json::string_text(b@)),
            ));
        }
        object_json(&members)
    }
}

/// Sync filter to reduce response size.
#[derive(Debug)]
pub struct SyncFilter {
    pub room: RoomFilter,
}

/// Room filter for /sync.
#[derive(Debug)]
pub struct RoomFilter {
    pub timeline: TimelineFilter,
    pub state: StateFilter,
}

/// Timeline filter.
#[derive(Debug)]
pub struct TimelineFilter {
    /// Event types to keep.
    pub types: Vec<String>,
    /// Maximum number of events to return.
    pub limit: u32,
}

/// State filter.
#[derive(Debug)]
pub struct StateFilter {
    /// Event types to keep.
    pub types: Vec<String>,
}

impl SyncFilter {
    /// The filter as JSON.
    pub open spec fn json(self) -> Seq<char> {
        let timeline = json::object_text(
            seq![
                ("types"@, json::string_array_text(text::texts(self.room.timeline.types@))),
                ("limit"@, text::decimal_text(self.room.timeline.limit as nat)),
            ],
        );
        let state = json::object_text(
            seq![("types"@, json::string_array_text(text::texts(self.room.state.types@)))],
        );
        json::object_text(
            seq![("room"@, json::object_text(seq![("timeline"@, timeline), ("state"@, state)]))],
        )
    }

    /// Writes the filter as JSON.
    pub fn to_json(&self) -> (r: String)
        ensures
            r@ == self.json(),
    {
        let timeline_members = vec![
            field("types", string_array_json(&self.room.timeline.types)),
            field("limit", decimal(self.room.timeline.limit as u64)),
        ];
        assert(json::member_views(timeline_members@) =~= seq![
            ("types"@, json::string_array_text(text::texts(self.room.timeline.types@))),
            ("limit"@, text::decimal_text(self.room.timeline.limit as nat)),
        ]);
        let state_members = vec![field("types", string_array_json(&self.room.state.types))];
        assert(json::member_views(state_members@) =~= seq![
            ("types"@, json::string_array_text(text::texts(self.room.state.types@))),
        ]);
        let timeline = object_json(&timeline_members);
        let state = object_json(&state_members);
        let room_members = vec![field("timeline", timeline), field("state", state)];
        assert(json::member_views(room_members@) =~= seq![
            ("timeline"@, timeline@),
            ("state"@, state@),
        ]);
        let room = object_json(&room_members);
        let members = vec![field("room", room)];
        assert(json::member_views(members@) =~= seq![("room"@, room@)]);
        object_json(&members)
    }
}

/// Device keys for /keys/upload.
#[derive(Debug)]
pub struct DeviceKeys {
    /// User ID of the device owner.
    pub user_id: String,
    /// Device ID.
    pub device_id: String,
    /// Supported algorithms.
    pub algorithms: Vec<String>,
    /// Identity keys: {"curve25519:<device_id>": "<key>", "ed25519:<device_id>": "<key>"}.
    pub keys: Vec<(String, String)>,
    /// Signatures: {user_id: {key_id: signature}}.
    pub signatures: Vec<(String, Vec<(String, String)>)>,
}

/// The signatures of each user as an object.
pub open spec fn signatures_json(signatures: Seq<(String, Vec<(String, String)>)>) -> Seq<char> {
    json::object_text(
        signatures.map_values(|e: (String, Vec<(String, String)>)| (e.0@, text_map_json(e.1@))),
    )
}

impl DeviceKeys {
    /// The device keys as JSON.
    pub open spec fn json(self) -> Seq<char> {
        json::object_text(
            seq![
                ("user_id"@, json::string_text(self.user_id@)),
                ("device_id"@, json::string_text(self.device_id@)),
                ("algorithms"@, json::string_array_text(text::texts(self.algorithms@))),
                ("keys"@, text_map_json(self.keys@)),
                ("signatures"@, signatures_json(self.signatures@)),
            ],
        )
    }

    /// Writes the device keys as JSON.
    pub fn to_json(&self) -> (r: String)
        ensures
            r@ == self.json(),
    {
        let mut signatures: Vec<(String, String)> = Vec::new();
        let mut i: usize = 0;
        while i < self.signatures.len()
            invariant
                i == signatures.len() <= self.signatures.len(),
                forall|k: int|
                    0 <= k < i ==> signatures[k].0@ == self.signatures[k].0@ && signatures[k].1@
                        == text_map_json(self.signatures[k].1@),
            decreases self.signatures.len() - i,
        {
            signatures.push((self.signatures[i].0.clone(), text_map(&self.signatures[i].1)));
            i += 1;
        }
        assert(json::member_views(signatures@) =~= self.signatures@.map_values(
            |e: (String, Vec<(String, String)>)| (e.0@, text_map_json(e.1@)),
        ));
        let members = vec![
            field("user_id", string_json(self.user_id.as_str())),
            field("device_id", string_json(self.device_id.as_str())),
            field("algorithms", string_array_json(&self.algorithms)),
            field("keys", text_map(&self.keys)),
            field("signatures", object_json(&signatures)),
        ];
        assert(json::member_views(members@) =~= seq![
            ("user_id"@, json::string_text(self.user_id@)),
            ("device_id"@, json::string_text(self.device_id@)),
            ("algorithms"@, json::string_array_text(text::texts(self.algorithms@))),
            ("keys"@, text_map_json(self.keys@)),
            ("signatures"@, signatures_json(self.signatures@)),
        ]);
        object_json(&members)
    }
}

/// Request body for POST /_matrix/client/v3/keys/upload.
pub struct KeysUploadRequest {
    /// Device keys (identity keys + signatures).
    pub device_keys: Option<DeviceKeys>,
    /// One-time keys for Olm session establishment.
    pub one_time_keys: Option<Vec<(String, Json)>>,
}

/// One-time keys as an object, in the order of the entries.
pub open spec fn one_time_keys_json(keys: Seq<(String, Json)>) -> Seq<char> {
    json::object_text(keys.map_values(|e: (String, Json)| (e.0@, json::canonical_text(e.1))))
}

impl KeysUploadRequest {
    /// The request as JSON: only the keys that there are.
    pub open spec fn json(self) -> Seq<char> {
        let device = match self.device_keys {
            Some(keys) => seq![("device_keys"@, keys.json())],
            None => Seq::empty(),
        };
        json::object_text(
            match self.one_time_keys {
                Some(keys) => device.push(("one_time_keys"@, one_time_keys_json(keys@))),
                None => device,
            },
        )
    }

    /// Writes the request as JSON.
    pub fn to_json(&self) -> (r: String)
        ensures
            r@ == self.json(),
    {
        let mut members: Vec<(String, String)> = Vec::new();
        let ghost device = match &self.device_keys {
            Some(keys) => seq![("device_keys"@, keys.json())],
            None => Seq::empty(),
        };
        if let Some(keys) = &self.device_keys {
            members.push(field("device_keys", keys.to_json()));
        }
        assert(json::member_views(members@) =~= device);
        if let Some(keys) = &self.one_time_keys {
            let mut entries: Vec<(String, String)> = Vec::new();
            let mut i: usize = 0;
            while i < keys.len()
                invariant
                    i == entries.len() <= keys.len(),
                    forall|k: int|
                        0 <= k < i ==> entries[k].0@ == keys[k].0@ && entries[k].1@
                            == json::canonical_text(keys[k].1),
                decreases keys.len() - i,
            {
                entries.push((keys[i].0.clone(), canonicalize_json(&keys[i].1)));
                i += 1;
            }
            assert(json::member_views(entries@) =~= keys@.map_values(
                |e: (String, Json)| (e.0@, json::canonical_text(e.1)),
            ));
            members.push(field("one_time_keys", object_json(&entries)));
            assert(json::member_views(members@) =~= device.push(
                ("one_time_keys"@, one_time_keys_json(keys@)),
            ));
        }
        object_json(&members)
    }
}

/// Metadata stored with emitted messages for response routing.
#[derive(Debug)]
pub struct MatrixMessageMetadata {
    /// Room ID where the message was received.
    pub room_id: String,
    /// Event ID of the original message.
    pub event_id: String,
    /// Sender user ID.
    pub sender: String,
    /// Whether the room has encryption enabled.
    pub encrypted: bool,
}

/// Message metadata as JSON.
pub open spec fn metadata_json(
    room_id: Seq<char>,
    event_id: Seq<char>,
    sender: Seq<char>,
    encrypted: bool,
) -> Seq<char> {
    json::object_text(
        seq![
            ("room_id"@, json::string_text(room_id)),
            ("event_id"@, json::string_text(event_id)),
            ("sender"@, json::string_text(sender)),
            ("encrypted"@, json::bool_text(encrypted)),
        ],
    )
}

impl MatrixMessageMetadata {
    /// Writes the metadata as JSON.
    pub fn to_json(&self) -> (r: String)
        ensures
            r@ == metadata_json(self.room_id@, self.event_id@, self.sender@, self.encrypted),
    {
        let members = vec![
            field("room_id", string_json(self.room_id.as_str())),
            field("event_id", string_json(self.event_id.as_str())),
            field("sender", string_json(self.sender.as_str())),
            field("encrypted", bool_json(self.encrypted)),
        ];
        assert(json::member_views(members@) =~= seq![
            ("room_id"@, json::string_text(self.room_id@)),
            ("event_id"@, json::string_text(self.event_id@)),
            ("sender"@, json::string_text(self.sender@)),
            ("encrypted"@, json::bool_text(self.encrypted)),
        ]);
        object_json(&members)
    }
}

/// The value that message metadata is as JSON.
pub open spec fn metadata_tree(
    room_id: Seq<char>,
    event_id: Seq<char>,
    sender: Seq<char>,
    encrypted: bool,
) -> JsonTree {
    JsonTree::Object(
        seq![
            ("room_id"@, JsonTree::Str(room_id)),
            ("event_id"@, JsonTree::Str(event_id)),
            ("sender"@, JsonTree::Str(sender)),
            ("encrypted"@, JsonTree::Bool(encrypted)),
        ],
    )
}

/// Metadata reads back as what was written: its text is that of an object that has each field under
/// the field's name.
pub proof fn metadata_reads_back(
    room_id: Seq<char>,
    event_id: Seq<char>,
    sender: Seq<char>,
    encrypted: bool,
)
    ensures
        metadata_json(room_id, event_id, sender, encrypted) == json_tree::written(
            metadata_tree(room_id, event_id, sender, encrypted),
        ),
        json_tree::fits(metadata_tree(room_id, event_id, sender, encrypted), 1),
        json_tree::at(
            metadata_tree(room_id, event_id, sender, encrypted),
            seq!["room_id"@],
        ) == Some(JsonTree::Str(room_id)),
        json_tree::at(
            metadata_tree(room_id, event_id, sender, encrypted),
            seq!["event_id"@],
        ) == Some(JsonTree::Str(event_id)),
        json_tree::at(
            metadata_tree(room_id, event_id, sender, encrypted),
            seq!["sender"@],
        ) == Some(JsonTree::Str(sender)),
        json_tree::at(
            metadata_tree(room_id, event_id, sender, encrypted),
            seq!["encrypted"@],
        ) == Some(JsonTree::Bool(encrypted)),
{
    reveal_strlit("room_id");
    reveal_strlit("event_id");
    reveal_strlit("sender");
    reveal_strlit("encrypted");
    let members = metadata_tree(room_id, event_id, sender, encrypted)->Object_0;
    json_tree::written_members_are(
        members,
        seq![
            ("room_id"@, json::string_text(room_id)),
            ("event_id"@, json::string_text(event_id)),
            ("sender"@, json::string_text(sender)),
            ("encrypted"@, json::bool_text(encrypted)),
        ],
    );
    assert(members[0].0.len() == 7);
    assert(members[1].0.len() == 8);
    assert(members[2].0.len() == 6);
    assert(members[3].0.len() == 9);
    assert forall|i: int, j: int| 0 <= i < j < members.len() implies members[i].0 != members[j].0 by {
        assert(members[i].0.len() != members[j].0.len());
    }
    json_tree::members_all_fit(members, 0);
    json_tree::member_is_at_its_name(members, 0);
    json_tree::member_is_at_its_name(members, 1);
    json_tree::member_is_at_its_name(members, 2);
    json_tree::member_is_at_its_name(members, 3);
}

/// What a map has for a name is the value of the first entry of that name; it has nothing only where no entry
/// has it. So where no two entries have the same name, it has the value of each.
pub proof fn lookup_finds_every_entry<V>(entries: Seq<(String, V)>, name: Seq<char>)
    ensures
        match lookup(entries, name) {
            Some(value) => exists|i: int|
                0 <= i < entries.len() && (#[trigger] entries[i]).0@ == name && entries[i].1 == value
                    && forall|k: int| 0 <= k < i ==> (#[trigger] entries[k]).0@ != name,
            None => forall|i: int| 0 <= i < entries.len() ==> (#[trigger] entries[i]).0@ != name,
        },
    decreases entries.len(),
{
    if entries.len() > 0 && entries[0].0@ != name {
        let rest = entries.skip(1);
        lookup_finds_every_entry(rest, name);
        entry_is_within(rest, name);
        assert(lookup(entries, name) == lookup(rest, name));
        match lookup(rest, name) {
            Some(value) => {
                let i = choose|i: int|
                    0 <= i < rest.len() && (#[trigger] rest[i]).0@ == name && rest[i].1 == value
                        && forall|k: int| 0 <= k < i ==> (#[trigger] rest[k]).0@ != name;
                assert(entries[i + 1] == rest[i]);
                assert forall|k: int| 0 <= k < i + 1 implies (#[trigger] entries[k]).0@ != name by {
                    if k > 0 {
                        assert(rest[k - 1] == entries[k]);
                    }
                }
            },
            None => {
                assert forall|i: int| 0 <= i < entries.len() implies (#[trigger] entries[i]).0@
                    != name by {
                    if i > 0 {
                        assert(rest[i - 1] == entries[i]);
                    }
                }
            },
        }
    }
}

proof fn entry_is_within<V>(entries: Seq<(String, V)>, name: Seq<char>)
    ensures
        0 <= entry_at(entries, name) <= entries.len(),
    decreases entries.len(),
{
    if entries.len() > 0 {
        entry_is_within(entries.skip(1), name);
    }
}

/// A filter reads back: it has the event types of the timeline, all of them in order, and its limit, and the event
/// types of the state.
pub proof fn filter_reads_back(filter: SyncFilter) -> (tree: JsonTree)
    ensures
        filter.json() == json_tree::written(tree),
        json_tree::fits(tree, 4),
        json_tree::at(tree, seq!["room"@, "timeline"@, "types"@]) == Some(
            JsonTree::Array(
                text::texts(filter.room.timeline.types@).map_values(
                    |s: Seq<char>| JsonTree::Str(s),
                ),
            ),
        ),
        json_tree::at(tree, seq!["room"@, "timeline"@, "limit"@]) == Some(
            JsonTree::Unsigned(filter.room.timeline.limit as u64),
        ),
        json_tree::at(tree, seq!["room"@, "state"@, "types"@]) == Some(
            JsonTree::Array(
                text::texts(filter.room.state.types@).map_values(|s: Seq<char>| JsonTree::Str(s)),
            ),
        ),
{
    reveal_strlit("types");
    reveal_strlit("limit");
    reveal_strlit("timeline");
    reveal_strlit("state");
    let kinds = json_tree::string_array_is_written(text::texts(filter.room.timeline.types@));
    let limit = JsonTree::Unsigned(filter.room.timeline.limit as u64);
    let timeline = seq![("types"@, kinds), ("limit"@, limit)];
    json_tree::written_members_are(
        timeline,
        seq![
            ("types"@, json::string_array_text(text::texts(filter.room.timeline.types@))),
            ("limit"@, text::decimal_text(filter.room.timeline.limit as nat)),
        ],
    );
    assert(timeline[0].0[0] == 't' && timeline[1].0[0] == 'l');
    json_tree::shallow_fits(limit, 0, 1);
    assert forall|i: int| 0 <= i < timeline.len() implies json_tree::fits(
        (#[trigger] timeline[i]).1,
        1,
    ) by {}
    json_tree::members_all_fit(timeline, 1);
    let states = json_tree::string_array_is_written(text::texts(filter.room.state.types@));
    let state = seq![("types"@, states)];
    json_tree::written_members_are(
        state,
        seq![("types"@, json::string_array_text(text::texts(filter.room.state.types@)))],
    );
    json_tree::members_all_fit(state, 1);
    let room = seq![
        ("timeline"@, JsonTree::Object(timeline)),
        ("state"@, JsonTree::Object(state)),
    ];
    json_tree::written_members_are(
        room,
        seq![
            ("timeline"@, json_tree::written(JsonTree::Object(timeline))),
            ("state"@, json_tree::written(JsonTree::Object(state))),
        ],
    );
    assert(room[0].0[0] == 't' && room[1].0[0] == 's');
    json_tree::members_all_fit(room, 2);
    let outer = seq![("room"@, JsonTree::Object(room))];
    json_tree::written_members_are(
        outer,
        seq![("room"@, json_tree::written(JsonTree::Object(room)))],
    );
    json_tree::members_all_fit(outer, 3);
    let to_types = seq!["room"@, "timeline"@, "types"@];
    json_tree::ways_go_on(outer, 0, to_types);
    json_tree::ways_go_on(room, 0, to_types.skip(1));
    json_tree::ways_go_on(timeline, 0, to_types.skip(1).skip(1));
    assert(to_types.skip(1).skip(1).skip(1) =~= Seq::empty());
    let to_limit = seq!["room"@, "timeline"@, "limit"@];
    json_tree::ways_go_on(outer, 0, to_limit);
    json_tree::ways_go_on(room, 0, to_limit.skip(1));
    json_tree::ways_go_on(timeline, 1, to_limit.skip(1).skip(1));
    assert(to_limit.skip(1).skip(1).skip(1) =~= Seq::empty());
    let to_states = seq!["room"@, "state"@, "types"@];
    json_tree::ways_go_on(outer, 0, to_states);
    json_tree::ways_go_on(room, 1, to_states.skip(1));
    json_tree::ways_go_on(state, 0, to_states.skip(1).skip(1));
    assert(to_states.skip(1).skip(1).skip(1) =~= Seq::empty());
    JsonTree::Object(outer)
}

} // verus!
