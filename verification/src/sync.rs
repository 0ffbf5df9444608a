//! Matrix /sync polling and event processing.
//!
//! Extracts incoming messages from timeline events, and persists the `since` token between polls.

use vstd::prelude::*;
use vstd::string::*;

use crate::client::{self, join_room, join_room_response, sync, sync_response};
use crate::decryption::{handle_to_device_events, Sessions, ToDevice};
use crate::host::{self, log_error, log_warning, CallView, HostCall, HostReply, ParsedResponse, Step};
use crate::json::{self, read_stored_list, string_array_json};
use crate::session_cache::MegolmSessionCache;
use crate::text::{self, chars_of, concat3, find_char, same_text};
use crate::types::{
    self, JoinedRoom, MatrixMessageMetadata, RoomEvent, RoomFilter, StateFilter, SyncFilter,
    SyncResponse, SyncRooms, TimelineFilter, ToDeviceEvents,
};

verus! {

// ---------------------------------------------------------------------------
// Persistent state
// ---------------------------------------------------------------------------

/// A stored text that counts: one that is there and not empty.
pub open spec fn nonempty(stored: Option<String>) -> Option<String> {
    match stored {
        Some(s) => if s@.len() > 0 {
            Some(s)
        } else {
            None
        },
        None => None,
    }
}

fn keep_nonempty(stored: Option<String>) -> (r: Option<String>)
    ensures
        r == nonempty(stored),
{
    match stored {
        Some(s) => if s.as_str().is_empty() {
            None
        } else {
            Some(s)
        },
        None => None,
    }
}

/// A write of one text, whatever comes of it.
pub open spec fn quiet_write(path: Seq<char>, content: Seq<char>) -> CallView {
    CallView::WriteAll(seq![(path, content)])
}

/// Writes one text, whatever comes of it.
pub fn write_quietly(path: &str, content: &str) -> (call: HostCall)
    ensures
        call@ == quiet_write(path@, content@),
{
    let writes = vec![(path.to_owned(), content.to_owned())];
    assert(json::member_views(writes@) =~= seq![(path@, content@)]);
    HostCall::WriteAll(writes)
}

/// Read the stored since token: given what is stored, the token.
pub fn read_since_token(stored: Option<String>) -> (token: Option<String>)
    ensures
        token == nonempty(stored),
{
    keep_nonempty(stored)
}

/// Write the since token.
pub fn write_since_token(token: &str) -> (call: HostCall)
    ensures
        call@ == quiet_write("state/since_token"@, token@),
{
    write_quietly("state/since_token", token)
}

/// Read the stored homeserver URL: given what is stored, the URL.
pub fn read_homeserver_url(stored: Option<String>) -> (url: Option<String>)
    ensures
        url == nonempty(stored),
{
    keep_nonempty(stored)
}

/// Write the homeserver URL.
pub fn write_homeserver_url(url: &str) -> (call: HostCall)
    ensures
        call@ == quiet_write("state/homeserver_url"@, url@),
{
    write_quietly("state/homeserver_url", url)
}

/// Read the stored user ID (our bot's Matrix user ID): given what is stored, the ID.
pub fn read_user_id(stored: Option<String>) -> (user_id: Option<String>)
    ensures
        user_id == nonempty(stored),
{
    keep_nonempty(stored)
}

/// Write our user ID.
pub fn write_user_id(user_id: &str) -> (call: HostCall)
    ensures
        call@ == quiet_write("state/user_id"@, user_id@),
{
    write_quietly("state/user_id", user_id)
}

/// Read the set of encrypted room IDs (stored as JSON array): given what is stored, the IDs.
pub fn read_encrypted_rooms(stored: &Option<String>) -> (rooms: Vec<String>)
    ensures
        text::texts(rooms@) == json::stored_list(json::opt_text(*stored)),
        forall|list: Seq<Seq<char>>|
            json::opt_text(*stored) == Some(#[trigger] json::string_array_text(list))
                ==> text::texts(rooms@) == list,
{
    read_stored_list(stored)
}

/// Whether a text is in a list.
pub fn list_has(list: &Vec<String>, item: &str) -> (found: bool)
    ensures
        found == text::texts(list@).contains(item@),
{
    let mut i: usize = 0;
    while i < list.len()
        invariant
            i <= list.len(),
            forall|k: int| 0 <= k < i ==> list[k]@ != item@,
        decreases list.len() - i,
    {
        if same_text(list[i].as_str(), item) {
            assert(text::texts(list@)[i as int] == item@);
            return true;
        }
        i += 1;
    }
    assert forall|k: int| 0 <= k < list.len() implies text::texts(list@)[k] != item@ by {
        assert(list[k]@ != item@);
    }
    false
}

/// The set of encrypted rooms with one more, or nothing where it holds the room already.
pub open spec fn marked_rooms(rooms: Seq<Seq<char>>, room_id: Seq<char>) -> Option<Seq<Seq<char>>> {
    if rooms.contains(room_id) {
        None
    } else {
        Some(rooms.push(room_id))
    }
}

/// Add a room ID to the encrypted rooms set: given what is stored, the write that adds it, if one
/// is needed.
pub fn mark_room_encrypted(stored: &Option<String>, room_id: &str) -> (call: Option<HostCall>)
    ensures
        match marked_rooms(json::stored_list(json::opt_text(*stored)), room_id@) {
            Some(rooms) => call matches Some(c) && c@ == quiet_write(
                "state/encrypted_rooms"@,
                json::string_array_text(rooms),
            ),
            None => call is None,
        },
{
    let mut rooms = read_encrypted_rooms(stored);
    if list_has(&rooms, room_id) {
        return None;
    }
    let ghost before = text::texts(rooms@);
    rooms.push(room_id.to_owned());
    assert(text::texts(rooms@) =~= before.push(room_id@));
    Some(write_quietly("state/encrypted_rooms", string_array_json(&rooms).as_str()))
}

/// Check if a room is known to have encryption enabled: given what is stored.
pub fn is_room_encrypted(stored: &Option<String>, room_id: &str) -> (encrypted: bool)
    ensures
        encrypted == json::stored_list(json::opt_text(*stored)).contains(room_id@),
        forall|list: Seq<Seq<char>>|
            json::opt_text(*stored) == Some(#[trigger] json::string_array_text(list)) ==> encrypted
                == list.contains(room_id@),
{
    list_has(&read_encrypted_rooms(stored), room_id)
}

// ---------------------------------------------------------------------------
// Identifiers, filter, metadata
// ---------------------------------------------------------------------------

/// Whether a text is a user ID: `@`, a localpart, a colon and a domain.
pub open spec fn valid_user_id(user_id: Seq<char>) -> bool {
    &&& user_id.len() > 0
    &&& user_id[0] == '@'
    &&& 0 < text::position_of(user_id.skip(1), ':') < user_id.len() - 2
}

/// Validate a Matrix user ID format (@localpart:domain).
pub fn is_valid_user_id(user_id: &str) -> (valid: bool)
    ensures
        valid == valid_user_id(user_id@),
{
    let mut rest = chars_of(user_id);
    if rest.len() == 0 || rest[0] != '@' {
        return false;
    }
    let ghost all = rest@;
    let _ = rest.remove(0);
    assert(rest@ =~= all.skip(1));
    let colon: usize = find_char(&rest, ':');
    colon > 0 && rest.len() > 0 && colon < rest.len() - 1
}

/// Whether a text is a room ID: `!` and at least one character after it.
pub open spec fn valid_room_id(room_id: Seq<char>) -> bool {
    room_id.len() > 1 && room_id[0] == '!'
}

/// Validate a Matrix room ID format.
///
/// Does not enforce ':server': some homeservers use opaque IDs without a colon, and the homeserver
/// is authoritative on format.
pub fn is_valid_room_id(room_id: &str) -> (valid: bool)
    ensures
        valid == valid_room_id(room_id@),
{
    let chars = chars_of(room_id);
    chars.len() > 1 && chars[0] == '!'
}

/// Build a default sync filter that only fetches message-related events.
pub fn default_sync_filter() -> (filter: SyncFilter)
    ensures
        text::texts(filter.room.timeline.types@) == seq!["m.room.message"@, "m.room.encrypted"@],
        filter.room.timeline.limit == 50,
        text::texts(filter.room.state.types@) == seq!["m.room.encryption"@, "m.room.member"@],
        filter.json() == default_filter_text(),
{
    let timeline_types = vec!["m.room.message".to_owned(), "m.room.encrypted".to_owned()];
    let state_types = vec!["m.room.encryption".to_owned(), "m.room.member".to_owned()];
    assert(text::texts(timeline_types@) =~= seq!["m.room.message"@, "m.room.encrypted"@]);
    assert(text::texts(state_types@) =~= seq!["m.room.encryption"@, "m.room.member"@]);
    SyncFilter {
        room: RoomFilter {
            timeline: TimelineFilter { types: timeline_types, limit: 50 },
            state: StateFilter { types: state_types },
        },
    }
}

/// The default sync filter as JSON.
pub open spec fn default_filter_text() -> Seq<char> {
    let timeline = json::object_text(
        seq![
            (
                "types"@,
                json::string_array_text(seq!["m.room.message"@, "m.room.encrypted"@]),
            ),
            ("limit"@, text::decimal_text(50)),
        ],
    );
    let state = json::object_text(
        seq![
            (
                "types"@,
                json::string_array_text(seq!["m.room.encryption"@, "m.room.member"@]),
            ),
        ],
    );
    json::object_text(
        seq![("room"@, json::object_text(seq![("timeline"@, timeline), ("state"@, state)]))],
    )
}

/// Whether the content of an event is a text message with a body.
pub open spec fn is_text_message(event: RoomEvent) -> bool {
    &&& event.content.message matches Ok(content)
    &&& content.msgtype matches Some(kind)
    &&& kind@ == "m.text"@
    &&& content.body is Some
}

fn has_text_message(event: &RoomEvent) -> (yes: bool)
    ensures
        yes == is_text_message(*event),
{
    match &event.content.message {
        Ok(content) => match &content.msgtype {
            Some(kind) => same_text(kind.as_str(), "m.text") && content.body.is_some(),
            None => false,
        },
        Err(_) => false,
    }
}

/// Parse a message event into components suitable for emitting to the agent.
///
/// Gives sender, body and event ID of a text message, or nothing if the event is none or lacks one
/// of them.
pub fn parse_message_event(event: &RoomEvent) -> (r: Option<(String, String, String)>)
    ensures
        r is Some == (event.sender is Some && event.event_id is Some && event.event_type@
            == "m.room.message"@ && is_text_message(*event)),
        r matches Some(m) ==> event.sender == Some(m.0) && event.content.message->Ok_0.body == Some(
            m.1,
        ) && event.event_id == Some(m.2),
{
    let sender = match &event.sender {
        Some(sender) => sender,
        None => return None,
    };
    let event_id = match &event.event_id {
        Some(event_id) => event_id,
        None => return None,
    };
    if !same_text(event.event_type.as_str(), "m.room.message") || !has_text_message(event) {
        return None;
    }
    match &event.content.message {
        Ok(content) => match &content.body {
            Some(body) => Some((sender.clone(), body.clone(), event_id.clone())),
            None => None,
        },
        Err(_) => None,
    }
}

/// Build metadata for an incoming message to enable response routing.
pub fn build_message_metadata(room_id: &str, event_id: &str, sender: &str, encrypted: bool) -> (r:
    String)
    ensures
        r@ == types::metadata_json(room_id@, event_id@, sender@, encrypted),
{
    let metadata = MatrixMessageMetadata {
        room_id: room_id.to_owned(),
        event_id: event_id.to_owned(),
        sender: sender.to_owned(),
        encrypted,
    };
    metadata.to_json()
}

// ---------------------------------------------------------------------------
// Extracting messages
// ---------------------------------------------------------------------------

/// Whether an event is a message for the agent: a text message, or an encrypted one where E2EE is
/// on, that we did not send ourselves.
pub open spec fn is_incoming(event: RoomEvent, our_user_id: Seq<char>, e2ee_enabled: bool) -> bool {
    &&& json::opt_text(event.sender) != Some(our_user_id)
    &&& (event.event_type@ == "m.room.message"@ && is_text_message(event)) || (event.event_type@
        == "m.room.encrypted"@ && e2ee_enabled)
}

/// The messages among the events of a room.
pub open spec fn incoming(
    room_id: Seq<char>,
    events: Seq<RoomEvent>,
    our_user_id: Seq<char>,
    e2ee_enabled: bool,
) -> Seq<(Seq<char>, RoomEvent)>
    decreases events.len(),
{
    if events.len() == 0 {
        Seq::empty()
    } else if is_incoming(events[0], our_user_id, e2ee_enabled) {
        seq![(room_id, events[0])] + incoming(room_id, events.skip(1), our_user_id, e2ee_enabled)
    } else {
        incoming(room_id, events.skip(1), our_user_id, e2ee_enabled)
    }
}

/// The events of a room's timeline.
pub open spec fn timeline_events(room: JoinedRoom) -> Seq<RoomEvent> {
    match room.timeline {
        Some(timeline) => timeline.events@,
        None => Seq::empty(),
    }
}

/// The messages in the joined rooms, room after room.
pub open spec fn all_incoming(
    rooms: Seq<(String, JoinedRoom)>,
    our_user_id: Seq<char>,
    e2ee_enabled: bool,
) -> Seq<(Seq<char>, RoomEvent)>
    decreases rooms.len(),
{
    if rooms.len() == 0 {
        Seq::empty()
    } else {
        incoming(rooms[0].0@, timeline_events(rooms[0].1), our_user_id, e2ee_enabled)
            + all_incoming(rooms.skip(1), our_user_id, e2ee_enabled)
    }
}

/// Why messages among the events cannot be read: for each that we did not send ourselves and whose
/// content is none of a message.
pub open spec fn unreadable(events: Seq<RoomEvent>, our_user_id: Seq<char>) -> Seq<Seq<char>>
    decreases events.len(),
{
    if events.len() == 0 {
        Seq::empty()
    } else {
        let before = unreadable(events.drop_last(), our_user_id);
        let event = events.last();
        match event.content.message {
            Err(e) => if json::opt_text(event.sender) != Some(our_user_id) && event.event_type@
                == "m.room.message"@ {
                before.push(e@)
            } else {
                before
            },
            Ok(_) => before,
        }
    }
}

/// Why messages in the joined rooms cannot be read, room after room.
pub open spec fn all_unreadable(
    rooms: Seq<(String, JoinedRoom)>,
    our_user_id: Seq<char>,
) -> Seq<Seq<char>>
    decreases rooms.len(),
{
    if rooms.len() == 0 {
        Seq::empty()
    } else {
        all_unreadable(rooms.drop_last(), our_user_id) + unreadable(
            timeline_events(rooms.last().1),
            our_user_id,
        )
    }
}

/// Adds why messages among the events cannot be read.
fn add_unreadable(events: &Vec<RoomEvent>, our_user_id: &str, errors: &mut Vec<String>)
    ensures
        text::texts(final(errors)@) == text::texts(old(errors)@) + unreadable(
            events@,
            our_user_id@,
        ),
{
    let ghost before = text::texts(errors@);
    let mut i: usize = 0;
    assert(events@.take(0) =~= Seq::empty());
    assert(before + unreadable(events@.take(0), our_user_id@) =~= before);
    while i < events.len()
        invariant
            i <= events.len(),
            text::texts(errors@) == before + unreadable(events@.take(i as int), our_user_id@),
        decreases events.len() - i,
    {
        let event = &events[i];
        let ghost so_far = text::texts(errors@);
        assert(events@.take(i + 1).drop_last() =~= events@.take(i as int));
        let ours = match &event.sender {
            Some(sender) => same_text(sender.as_str(), our_user_id),
            None => false,
        };
        if let Err(e) = &event.content.message {
            if !ours && same_text(event.event_type.as_str(), "m.room.message") {
                errors.push(e.clone());
                assert(text::texts(errors@) =~= so_far.push(e@));
            }
        }
        i += 1;
        assert(text::texts(errors@) =~= before + unreadable(
            events@.take(i as int),
            our_user_id@,
        ));
    }
    assert(events@.take(i as int) =~= events@);
}

/// Tells why messages in the joined rooms cannot be read.
fn find_unreadable(rooms: &Vec<(String, JoinedRoom)>, our_user_id: &str) -> (errors: Vec<String>)
    ensures
        text::texts(errors@) == all_unreadable(rooms@, our_user_id@),
{
    let mut errors: Vec<String> = Vec::new();
    let mut i: usize = 0;
    assert(rooms@.take(0) =~= Seq::empty());
    assert(text::texts(errors@) =~= Seq::empty());
    while i < rooms.len()
        invariant
            i <= rooms.len(),
            text::texts(errors@) == all_unreadable(rooms@.take(i as int), our_user_id@),
        decreases rooms.len() - i,
    {
        let ghost so_far = text::texts(errors@);
        assert(rooms@.take(i + 1).drop_last() =~= rooms@.take(i as int));
        if let Some(timeline) = &rooms[i].1.timeline {
            add_unreadable(&timeline.events, our_user_id, &mut errors);
        } else {
            assert(so_far + unreadable(Seq::empty(), our_user_id@) =~= so_far);
        }
        i += 1;
    }
    assert(rooms@.take(i as int) =~= rooms@);
    errors
}

/// The events of a room's state.
pub open spec fn state_events(room: JoinedRoom) -> Seq<RoomEvent> {
    match room.state {
        Some(state) => state.events@,
        None => Seq::empty(),
    }
}

/// How many of the events turn encryption on.
pub open spec fn encryption_events(events: Seq<RoomEvent>) -> nat
    decreases events.len(),
{
    if events.len() == 0 {
        0
    } else {
        encryption_events(events.drop_last()) + if events.last().event_type@
            == "m.room.encryption"@ {
            1nat
        } else {
            0nat
        }
    }
}

/// How often a room is marked as encrypted: for each event of its state or of its timeline that
/// turns encryption on.
pub open spec fn mark_count(room: JoinedRoom) -> nat {
    encryption_events(state_events(room)) + encryption_events(timeline_events(room))
}

/// The rooms to mark as encrypted, room after room.
pub open spec fn all_marks(rooms: Seq<(String, JoinedRoom)>) -> Seq<Seq<char>>
    decreases rooms.len(),
{
    if rooms.len() == 0 {
        Seq::empty()
    } else {
        Seq::new(mark_count(rooms[0].1), |i: int| rooms[0].0@) + all_marks(rooms.skip(1))
    }
}

/// Messages with their rooms, with the rooms as sequences.
pub open spec fn message_views(messages: Seq<(String, RoomEvent)>) -> Seq<(Seq<char>, RoomEvent)> {
    messages.map_values(|m: (String, RoomEvent)| (m.0@, m.1))
}

/// Adds the rooms to mark for the events of a room.
fn mark_events(events: &Vec<RoomEvent>, room_id: &str, marks: &mut Vec<String>)
    ensures
        text::texts(final(marks)@) == text::texts(old(marks)@) + Seq::new(
            encryption_events(events@),
            |i: int| room_id@,
        ),
{
    let ghost before = text::texts(marks@);
    let mut i: usize = 0;
    assert(events@.take(0) =~= Seq::empty());
    assert(text::texts(marks@) =~= before + Seq::new(0, |i: int| room_id@));
    while i < events.len()
        invariant
            i <= events.len(),
            before == text::texts(old(marks)@),
            text::texts(marks@) == before + Seq::new(
                encryption_events(events@.take(i as int)),
                |i: int| room_id@,
            ),
        decreases events.len() - i,
    {
        assert(events@.take(i + 1).drop_last() =~= events@.take(i as int));
        let ghost so_far = text::texts(marks@);
        if same_text(events[i].event_type.as_str(), "m.room.encryption") {
            marks.push(room_id.to_owned());
            assert(text::texts(marks@) =~= so_far.push(room_id@));
        }
        i += 1;
        assert(text::texts(marks@) =~= before + Seq::new(
            encryption_events(events@.take(i as int)),
            |i: int| room_id@,
        ));
    }
    assert(events@.take(i as int) =~= events@);
}

/// Process state events from a room to track encryption status: adds the room to those to mark, as
/// often as events turn encryption on.
fn process_state_events(room_id: &str, room: &JoinedRoom, marks: &mut Vec<String>)
    ensures
        text::texts(final(marks)@) == text::texts(old(marks)@) + Seq::new(
            mark_count(*room),
            |i: int| room_id@,
        ),
{
    let ghost before = text::texts(marks@);
    if let Some(state) = &room.state {
        mark_events(&state.events, room_id, marks);
    }
    if let Some(timeline) = &room.timeline {
        mark_events(&timeline.events, room_id, marks);
    }
    assert(text::texts(marks@) =~= before + Seq::new(mark_count(*room), |i: int| room_id@));
}

/// Adds the messages among the events of a room.
fn add_incoming(
    room_id: &str,
    events: Vec<RoomEvent>,
    our_user_id: &str,
    e2ee_enabled: bool,
    messages: &mut Vec<(String, RoomEvent)>,
)
    ensures
        message_views(final(messages)@) == message_views(old(messages)@) + incoming(
            room_id@,
            events@,
            our_user_id@,
            e2ee_enabled,
        ),
{
    let ghost before = message_views(messages@);
    let ghost all = incoming(room_id@, events@, our_user_id@, e2ee_enabled);
    let mut left = events;
    assert(message_views(messages@) + all =~= before + all);
    while left.len() > 0
        invariant
            before == message_views(old(messages)@),
            message_views(messages@) + incoming(room_id@, left@, our_user_id@, e2ee_enabled)
                == before + all,
        decreases left.len(),
    {
        let ghost rest = left@;
        let ghost so_far = message_views(messages@);
        let event = left.remove(0);
        assert(left@ =~= rest.skip(1));
        let ours = match &event.sender {
            Some(sender) => same_text(sender.as_str(), our_user_id),
            None => false,
        };
        let wanted = (same_text(event.event_type.as_str(), "m.room.message") && has_text_message(
            &event,
        )) || (same_text(event.event_type.as_str(), "m.room.encrypted") && e2ee_enabled);
        if !ours && wanted {
            messages.push((room_id.to_owned(), event));
            assert(message_views(messages@) =~= so_far.push((room_id@, event)));
            assert(so_far + incoming(room_id@, rest, our_user_id@, e2ee_enabled) =~= message_views(
                messages@,
            ) + incoming(room_id@, left@, our_user_id@, e2ee_enabled));
        }
    }
    assert(left@ =~= Seq::empty());
    assert(message_views(messages@) =~= before + all);
}

/// Extract message events from the joined rooms of a sync response.
///
/// Filters out our own messages. Also gives the rooms to mark as encrypted.
pub fn extract_message_events(
    rooms: Vec<(String, JoinedRoom)>,
    our_user_id: &str,
    e2ee_enabled: bool,
) -> (r: (Vec<(String, RoomEvent)>, Vec<String>))
    ensures
        message_views(r.0@) == all_incoming(rooms@, our_user_id@, e2ee_enabled),
        text::texts(r.1@) == all_marks(rooms@),
{
    let ghost all = all_incoming(rooms@, our_user_id@, e2ee_enabled);
    let ghost to_mark = all_marks(rooms@);
    let mut messages: Vec<(String, RoomEvent)> = Vec::new();
    let mut marks: Vec<String> = Vec::new();
    let mut left = rooms;
    assert(message_views(messages@) + all =~= all);
    assert(text::texts(marks@) + to_mark =~= to_mark);
    while left.len() > 0
        invariant
            message_views(messages@) + all_incoming(left@, our_user_id@, e2ee_enabled) == all,
            text::texts(marks@) + all_marks(left@) == to_mark,
        decreases left.len(),
    {
        let ghost rest = left@;
        let ghost so_far = message_views(messages@);
        let ghost marked = text::texts(marks@);
        let (room_id, room) = left.remove(0);
        assert(left@ =~= rest.skip(1));
        process_state_events(room_id.as_str(), &room, &mut marks);
        let ghost events = timeline_events(room);
        match room.timeline {
            Some(timeline) => {
                add_incoming(
                    room_id.as_str(),
                    timeline.events,
                    our_user_id,
                    e2ee_enabled,
                    &mut messages,
                );
            },
            None => {
                assert(so_far + incoming(room_id@, events, our_user_id@, e2ee_enabled) =~= so_far);
            },
        }
        assert(message_views(messages@) == so_far + incoming(
            room_id@,
            events,
            our_user_id@,
            e2ee_enabled,
        ));
        assert(message_views(messages@) + all_incoming(left@, our_user_id@, e2ee_enabled) =~= so_far
            + all_incoming(rest, our_user_id@, e2ee_enabled));
        assert(text::texts(marks@) + all_marks(left@) =~= marked + all_marks(rest));
    }
    assert(left@ =~= Seq::empty());
    assert(message_views(messages@) =~= all);
    assert(text::texts(marks@) =~= to_mark);
    (messages, marks)
}

// ---------------------------------------------------------------------------
// Polling
// ---------------------------------------------------------------------------

/// What a poll is made for.
pub struct Poll {
    pub homeserver_url: String,
    pub timeout_ms: u32,
    pub our_user_id: String,
    pub e2ee_enabled: bool,
}

/// The part of a sync response that is yet to be processed, and whether it is that of the first
/// sync, whose events are history.
pub struct Pending {
    pub poll: Poll,
    pub initial: bool,
    pub join: Option<Vec<(String, JoinedRoom)>>,
    pub to_device: Option<ToDeviceEvents>,
}

/// Performs a single /sync poll.
pub enum PollSync {
    /// The host is to read the since token.
    Starting(Poll),
    /// The host is to ask the server for new events. Holds whether this is the first sync.
    Syncing(Poll, bool),
    /// The server did not answer: the host is to log why.
    Failing,
    /// The host is to write the token for the next poll. Holds the rooms to which we are invited.
    Recording(Pending, Vec<String>),
    /// The host is to join a room. Holds the room, and those that follow.
    Joining(Pending, String, Vec<String>),
    /// The room was not joined: the host is to log why. Holds the rooms that follow.
    Complaining(Pending, Vec<String>),
    /// The to-device events are to be processed. Holds what is processed after them.
    Keys(Poll, bool, Option<Vec<(String, JoinedRoom)>>, ToDevice),
    /// A message cannot be read: the host is to log why. Holds why others cannot, the rooms to mark as
    /// encrypted, and the result.
    Noting(Vec<String>, Vec<String>, Vec<(String, RoomEvent)>, MegolmSessionCache),
    /// The host is to read the encrypted rooms, to which a room is added. Holds the rooms that
    /// follow, and the result.
    Reading(String, Vec<String>, Vec<(String, RoomEvent)>, MegolmSessionCache),
    /// The host is to write the encrypted rooms.
    Writing(Vec<String>, Vec<(String, RoomEvent)>, MegolmSessionCache),
}

/// A step of a poll. It gives the new messages with their rooms, and the sessions received.
pub type PollStep = Step<PollSync, (Vec<(String, RoomEvent)>, MegolmSessionCache)>;

impl PollSync {
    /// The flow starts: the host is asked for the since token.
    pub open spec fn begins(
        self,
        call: HostCall,
        homeserver_url: Seq<char>,
        timeout_ms: u32,
        our_user_id: Seq<char>,
        e2ee_enabled: bool,
    ) -> bool {
        &&& call@ == CallView::Read("state/since_token"@)
        &&& self matches PollSync::Starting(poll)
        &&& poll.homeserver_url@ == homeserver_url
        &&& poll.timeout_ms == timeout_ms
        &&& poll.our_user_id@ == our_user_id
        &&& poll.e2ee_enabled == e2ee_enabled
    }

    /// Whether the poll is done with these messages and sessions.
    pub open spec fn ends(
        messages: Seq<(Seq<char>, RoomEvent)>,
        sessions: Sessions,
        step: PollStep,
    ) -> bool {
        step matches Step::Done((found, cache)) && message_views(found@) == messages && cache@
            == sessions
    }

    /// The rooms that are left are marked as encrypted, one after the other. Then the poll is done.
    pub open spec fn marks(
        left: Seq<Seq<char>>,
        messages: Seq<(Seq<char>, RoomEvent)>,
        sessions: Sessions,
        step: PollStep,
    ) -> bool {
        if left.len() == 0 {
            Self::ends(messages, sessions, step)
        } else {
            step matches Step::Ask(call, PollSync::Reading(room, rest, found, cache)) && call@
                == CallView::Read("state/encrypted_rooms"@) && room@ == left[0] && text::texts(
                rest@,
            ) == left.skip(1) && message_views(found@) == messages && cache@ == sessions
        }
    }

    /// It is logged why messages cannot be read, one after the other. Then rooms are marked.
    pub open spec fn notes(
        errors: Seq<Seq<char>>,
        marks: Seq<Seq<char>>,
        messages: Seq<(Seq<char>, RoomEvent)>,
        sessions: Sessions,
        step: PollStep,
    ) -> bool {
        if errors.len() == 0 {
            Self::marks(marks, messages, sessions, step)
        } else {
            step matches Step::Ask(call, PollSync::Noting(rest, rooms, found, cache)) && call@
                == host::warning_entry("Failed to parse m.room.message content: "@, errors[0])
                && text::texts(rest@) == errors.skip(1) && text::texts(rooms@) == marks
                && message_views(found@) == messages && cache@ == sessions
        }
    }

    /// What follows the to-device events: the messages of the joined rooms, but for the first sync,
    /// whose events are history.
    pub open spec fn extracts(
        poll: Poll,
        initial: bool,
        join: Option<Vec<(String, JoinedRoom)>>,
        sessions: Sessions,
        step: PollStep,
    ) -> bool {
        if initial || join is None {
            Self::ends(Seq::empty(), sessions, step)
        } else {
            Self::notes(
                all_unreadable(join->0@, poll.our_user_id@),
                all_marks(join->0@),
                all_incoming(join->0@, poll.our_user_id@, poll.e2ee_enabled),
                sessions,
                step,
            )
        }
    }

    /// What a step of the processing of to-device events is as a step of the whole.
    pub open spec fn keys(
        poll: Poll,
        initial: bool,
        join: Option<Vec<(String, JoinedRoom)>>,
        inner: Step<ToDevice, MegolmSessionCache>,
        step: PollStep,
    ) -> bool {
        inner.passes_to(step, |k: ToDevice| PollSync::Keys(poll, initial, join, k)) && (
        inner matches Step::Done(cache) ==> Self::extracts(poll, initial, join, cache@, step))
    }

    /// The rooms that are left are joined, one after the other. Then the to-device events are
    /// processed, where E2EE is on and there are any.
    pub open spec fn joins(pending: Pending, left: Seq<String>, step: PollStep) -> bool {
        if left.len() > 0 {
            step matches Step::Ask(call, PollSync::Joining(p, room, rest)) && call@
                == CallView::Http(
                client::join_request(pending.poll.homeserver_url@, left[0]@),
            ) && p == pending && room == left[0] && rest@ == left.skip(1)
        } else if pending.poll.e2ee_enabled && pending.to_device is Some
            && pending.to_device->0.events.len() > 0 {
            exists|inner|
                #![trigger ToDevice::proceeds(pending.to_device->0.events@, Map::empty(), inner)]
                ToDevice::proceeds(pending.to_device->0.events@, Map::empty(), inner) && Self::keys(
                    pending.poll,
                    pending.initial,
                    pending.join,
                    inner,
                    step,
                )
        } else {
            Self::extracts(pending.poll, pending.initial, pending.join, Map::empty(), step)
        }
    }

    /// The flow goes on from an answer.
    pub open spec fn moves(self, reply: HostReply, step: PollStep) -> bool {
        match (self, reply) {
            (PollSync::Starting(poll), HostReply::Text(stored)) => step.asks(
                CallView::Sync(
                    client::sync_request(
                        poll.homeserver_url@,
                        json::opt_text(nonempty(stored)),
                        poll.timeout_ms,
                        Some(default_filter_text()),
                    ),
                ),
                PollSync::Syncing(poll, nonempty(stored) is None),
            ),
            (PollSync::Syncing(poll, initial), HostReply::Sync(response)) => {
                match client::accepted(response, "sync"@, "sync response"@) {
                    Err(e) => step.asks(host::error_entry("Sync failed: "@, e), PollSync::Failing),
                    Ok(sync) => step matches Step::Ask(call, PollSync::Recording(p, invites))
                        && call@ == quiet_write("state/since_token"@, sync.next_batch@) && p.poll
                        == poll && p.initial == initial && p.join == joined(sync) && p.to_device
                        == sync.to_device && invites@ == invited(sync),
                }
            },
            (PollSync::Recording(pending, invites), HostReply::Finished) => Self::joins(
                pending,
                invites@,
                step,
            ),
            (PollSync::Failing, HostReply::Finished) => Self::ends(
                Seq::empty(),
                Map::empty(),
                step,
            ),
            (PollSync::Joining(pending, room, rest), HostReply::Http(response)) => {
                match client::joined_room(response) {
                    Ok(_) => Self::joins(pending, rest@, step),
                    Err(e) => step.asks(
                        host::error_entry("Failed to join room "@ + room@ + ": "@, e),
                        PollSync::Complaining(pending, rest),
                    ),
                }
            },
            (PollSync::Complaining(pending, rest), HostReply::Finished) => Self::joins(
                pending,
                rest@,
                step,
            ),
            (PollSync::Keys(poll, initial, join, flow), _) => exists|inner|
                #![trigger flow.moves(reply, inner)]
                flow.moves(reply, inner) && Self::keys(poll, initial, join, inner, step),
            (PollSync::Noting(rest, marks, messages, cache), HostReply::Finished) => Self::notes(
                text::texts(rest@),
                text::texts(marks@),
                message_views(messages@),
                cache@,
                step,
            ),
            (PollSync::Reading(room, rest, messages, cache), HostReply::Text(stored)) => {
                match marked_rooms(json::stored_list(json::opt_text(stored)), room@) {
                    Some(rooms) => step matches Step::Ask(call, PollSync::Writing(r, m, c))
                        && call@ == quiet_write(
                        "state/encrypted_rooms"@,
                        json::string_array_text(rooms),
                    ) && r == rest && m == messages && c == cache,
                    None => Self::marks(
                        text::texts(rest@),
                        message_views(messages@),
                        cache@,
                        step,
                    ),
                }
            },
            (PollSync::Writing(rest, messages, cache), HostReply::Finished) => Self::marks(
                text::texts(rest@),
                message_views(messages@),
                cache@,
                step,
            ),
            _ => step.strays(self),
        }
    }

    fn mark(rooms: Vec<String>, messages: Vec<(String, RoomEvent)>, cache: MegolmSessionCache) -> (step:
        PollStep)
        ensures
            Self::marks(text::texts(rooms@), message_views(messages@), cache@, step),
    {
        let mut left = rooms;
        if left.len() == 0 {
            return Step::Done((messages, cache));
        }
        let ghost all = text::texts(left@);
        let room = left.remove(0);
        assert(text::texts(left@) =~= all.skip(1));
        Step::Ask(
            HostCall::Read("state/encrypted_rooms".to_owned()),
            PollSync::Reading(room, left, messages, cache),
        )
    }

    fn note(
        errors: Vec<String>,
        marks: Vec<String>,
        messages: Vec<(String, RoomEvent)>,
        cache: MegolmSessionCache,
    ) -> (step: PollStep)
        ensures
            Self::notes(
                text::texts(errors@),
                text::texts(marks@),
                message_views(messages@),
                cache@,
                step,
            ),
    {
        let mut left = errors;
        if left.len() == 0 {
            return Self::mark(marks, messages, cache);
        }
        let ghost all = text::texts(left@);
        let e = left.remove(0);
        assert(text::texts(left@) =~= all.skip(1));
        Step::Ask(
            log_warning("Failed to parse m.room.message content: ", e.as_str()),
            PollSync::Noting(left, marks, messages, cache),
        )
    }

    fn extract(
        poll: Poll,
        initial: bool,
        join: Option<Vec<(String, JoinedRoom)>>,
        cache: MegolmSessionCache,
    ) -> (step: PollStep)
        ensures
            Self::extracts(poll, initial, join, cache@, step),
    {
        match join {
            Some(rooms) => if !initial {
                let errors = find_unreadable(&rooms, poll.our_user_id.as_str());
                let (messages, marks) = extract_message_events(
                    rooms,
                    poll.our_user_id.as_str(),
                    poll.e2ee_enabled,
                );
                return Self::note(errors, marks, messages, cache);
            },
            None => {},
        }
        let none: Vec<(String, RoomEvent)> = Vec::new();
        assert(message_views(none@) =~= Seq::empty());
        Step::Done((none, cache))
    }

    fn process_keys(
        poll: Poll,
        initial: bool,
        join: Option<Vec<(String, JoinedRoom)>>,
        inner: Step<ToDevice, MegolmSessionCache>,
    ) -> (step: PollStep)
        ensures
            Self::keys(poll, initial, join, inner, step),
    {
        match inner {
            Step::Ask(call, flow) => Step::Ask(call, PollSync::Keys(poll, initial, join, flow)),
            Step::Stray(flow) => Step::Stray(PollSync::Keys(poll, initial, join, flow)),
            Step::Done(cache) => Self::extract(poll, initial, join, cache),
        }
    }

    /// Auto-join rooms the bot has been invited to, and go on once none is left.
    fn handle_invites(pending: Pending, rooms: Vec<String>) -> (step: PollStep)
        ensures
            Self::joins(pending, rooms@, step),
    {
        let mut left = rooms;
        if left.len() > 0 {
            let ghost all = left@;
            let room = left.remove(0);
            assert(left@ =~= all.skip(1));
            let request = join_room(pending.poll.homeserver_url.as_str(), room.as_str());
            return Step::Ask(HostCall::Http(request), PollSync::Joining(pending, room, left));
        }
        let Pending { poll, initial, join, to_device } = pending;
        if poll.e2ee_enabled {
            if let Some(to_device) = to_device {
                if to_device.events.len() > 0 {
                    let inner = handle_to_device_events(to_device.events);
                    return Self::process_keys(poll, initial, join, inner);
                }
            }
        }
        Self::extract(poll, initial, join, MegolmSessionCache::new())
    }

    /// Goes on from an answer of the host.
    pub fn resume(self, reply: HostReply) -> (step: PollStep)
        ensures
            self.moves(reply, step),
    {
        match (self, reply) {
            (PollSync::Starting(poll), HostReply::Text(stored)) => {
                let since = read_since_token(stored);
                let filter = default_sync_filter();
                let request = sync(
                    poll.homeserver_url.as_str(),
                    &since,
                    poll.timeout_ms,
                    Some(&filter),
                );
                Step::Ask(HostCall::Sync(request), PollSync::Syncing(poll, since.is_none()))
            },
            (PollSync::Syncing(poll, initial), HostReply::Sync(response)) => {
                match sync_response(response) {
                    Err(e) => Step::Ask(
                        log_error("Sync failed: ", e.as_str()),
                        PollSync::Failing,
                    ),
                    Ok(response) => {
                        let call = write_since_token(response.next_batch.as_str());
                        let (join, invites) = match response.rooms {
                            Some(rooms) => (
                                rooms.join,
                                match rooms.invite {
                                    Some(invites) => invites,
                                    None => Vec::new(),
                                },
                            ),
                            None => (None, Vec::new()),
                        };
                        assert(invites@ =~= invited(response));
                        let to_device = response.to_device;
                        let pending = Pending { poll, initial, join, to_device };
                        Step::Ask(call, PollSync::Recording(pending, invites))
                    },
                }
            },
            (PollSync::Recording(pending, invites), HostReply::Finished) => {
                Self::handle_invites(pending, invites)
            },
            (PollSync::Failing, HostReply::Finished) => {
                let none: Vec<(String, RoomEvent)> = Vec::new();
                assert(message_views(none@) =~= Seq::empty());
                Step::Done((none, MegolmSessionCache::new()))
            },
            (PollSync::Joining(pending, room, rest), HostReply::Http(response)) => {
                match join_room_response(response) {
                    Ok(_) => Self::handle_invites(pending, rest),
                    Err(e) => {
                        let what = concat3("Failed to join room ", room.as_str(), ": ");
                        Step::Ask(
                            log_error(what.as_str(), e.as_str()),
                            PollSync::Complaining(pending, rest),
                        )
                    },
                }
            },
            (PollSync::Complaining(pending, rest), HostReply::Finished) => {
                Self::handle_invites(pending, rest)
            },
            (PollSync::Keys(poll, initial, join, flow), reply) => {
                let inner = flow.resume(reply);
                Self::process_keys(poll, initial, join, inner)
            },
            (PollSync::Noting(rest, marks, messages, cache), HostReply::Finished) => {
                Self::note(rest, marks, messages, cache)
            },
            (PollSync::Reading(room, rest, messages, cache), HostReply::Text(stored)) => {
                match mark_room_encrypted(&stored, room.as_str()) {
                    Some(call) => Step::Ask(call, PollSync::Writing(rest, messages, cache)),
                    None => Self::mark(rest, messages, cache),
                }
            },
            (PollSync::Writing(rest, messages, cache), HostReply::Finished) => {
                Self::mark(rest, messages, cache)
            },
            (flow, _) => Step::Stray(flow),
        }
    }
}

/// The joined rooms of a sync response.
pub open spec fn joined(response: SyncResponse) -> Option<Vec<(String, JoinedRoom)>> {
    match response.rooms {
        Some(rooms) => rooms.join,
        None => None,
    }
}

/// The rooms of a sync response to which we are invited.
pub open spec fn invited(response: SyncResponse) -> Seq<String> {
    match response.rooms {
        Some(SyncRooms { join: _, invite: Some(rooms) }) => rooms@,
        _ => Seq::empty(),
    }
}

/// Perform a single /sync poll and give any new message events.
///
/// Gives the message events that should be forwarded to the agent, with their rooms, and the
/// sessions of the room keys that came with them.
pub fn poll_sync(homeserver_url: &str, timeout_ms: u32, our_user_id: &str, e2ee_enabled: bool) -> (start:
    (HostCall, PollSync))
    ensures
        start.1.begins(start.0, homeserver_url@, timeout_ms, our_user_id@, e2ee_enabled),
{
    let poll = Poll {
        homeserver_url: homeserver_url.to_owned(),
        timeout_ms,
        our_user_id: our_user_id.to_owned(),
        e2ee_enabled,
    };
    (HostCall::Read("state/since_token".to_owned()), PollSync::Starting(poll))
}

// ---------------------------------------------------------------------------
// Laws
// ---------------------------------------------------------------------------

/// No message that we sent ourselves is handed on, so the bot does not answer itself.
pub proof fn own_messages_are_left_out(
    rooms: Seq<(String, JoinedRoom)>,
    our_user_id: Seq<char>,
    e2ee_enabled: bool,
    i: int,
)
    requires
        0 <= i < all_incoming(rooms, our_user_id, e2ee_enabled).len(),
    ensures
        json::opt_text(all_incoming(rooms, our_user_id, e2ee_enabled)[i].1.sender) != Some(
            our_user_id,
        ),
    decreases rooms.len(),
{
    if rooms.len() > 0 {
        let events = timeline_events(rooms[0].1);
        let first = incoming(rooms[0].0@, events, our_user_id, e2ee_enabled);
        if i < first.len() {
            incoming_is_wanted(rooms[0].0@, events, our_user_id, e2ee_enabled, i);
        } else {
            own_messages_are_left_out(rooms.skip(1), our_user_id, e2ee_enabled, i - first.len());
        }
    }
}

/// Without E2EE no encrypted event is handed on.
pub proof fn encrypted_events_need_e2ee(
    rooms: Seq<(String, JoinedRoom)>,
    our_user_id: Seq<char>,
    i: int,
)
    requires
        0 <= i < all_incoming(rooms, our_user_id, false).len(),
    ensures
        all_incoming(rooms, our_user_id, false)[i].1.event_type@ == "m.room.message"@,
    decreases rooms.len(),
{
    if rooms.len() > 0 {
        let events = timeline_events(rooms[0].1);
        let first = incoming(rooms[0].0@, events, our_user_id, false);
        if i < first.len() {
            incoming_is_wanted(rooms[0].0@, events, our_user_id, false, i);
        } else {
            encrypted_events_need_e2ee(rooms.skip(1), our_user_id, i - first.len());
        }
    }
}

proof fn incoming_is_wanted(
    room_id: Seq<char>,
    events: Seq<RoomEvent>,
    our_user_id: Seq<char>,
    e2ee_enabled: bool,
    i: int,
)
    requires
        0 <= i < incoming(room_id, events, our_user_id, e2ee_enabled).len(),
    ensures
        is_incoming(
            incoming(room_id, events, our_user_id, e2ee_enabled)[i].1,
            our_user_id,
            e2ee_enabled,
        ),
    decreases events.len(),
{
    if events.len() > 0 {
        if is_incoming(events[0], our_user_id, e2ee_enabled) {
            if i > 0 {
                incoming_is_wanted(room_id, events.skip(1), our_user_id, e2ee_enabled, i - 1);
            }
        } else {
            incoming_is_wanted(room_id, events.skip(1), our_user_id, e2ee_enabled, i);
        }
    }
}

/// Marking a room as encrypted adds it, keeps the rooms marked before, and adds no room twice; a
/// room marked already needs no further write.
pub proof fn marking_adds_the_room(rooms: Seq<Seq<char>>, room_id: Seq<char>, other: Seq<char>)
    ensures
        match marked_rooms(rooms, room_id) {
            Some(marked) => marked.contains(room_id) && (rooms.contains(other) ==> marked.contains(
                other,
            )) && (rooms.no_duplicates() ==> marked.no_duplicates()) && marked_rooms(
                marked,
                room_id,
            ) is None,
            None => rooms.contains(room_id),
        },
{
    if let Some(marked) = marked_rooms(rooms, room_id) {
        assert(marked[rooms.len() as int] == room_id);
        if rooms.contains(other) {
            let i = choose|i: int| 0 <= i < rooms.len() && rooms[i] == other;
            assert(marked[i] == other);
        }
    }
}

/// The first sync, whose events are history, brings no messages.
pub proof fn first_sync_brings_no_messages(
    poll: Poll,
    join: Option<Vec<(String, JoinedRoom)>>,
    sessions: Sessions,
    step: PollStep,
)
    requires
        PollSync::extracts(poll, true, join, sessions, step),
    ensures
        step matches Step::Done((messages, _)) && messages@.len() == 0,
{
    if let Step::Done((messages, _)) = step {
        assert(message_views(messages@).len() == messages@.len());
    }
}

/// A poll goes on where the last one ended: the token that a response brings is stored before
/// anything else of the response is processed, and the next poll asks for what came after it.
pub proof fn next_poll_goes_on(
    poll: Poll,
    initial: bool,
    response: Result<ParsedResponse<SyncResponse>, String>,
    step: PollStep,
    next: Poll,
    stored: String,
    next_step: PollStep,
)
    requires
        client::accepted(response, "sync"@, "sync response"@) is Ok,
        PollSync::Syncing(poll, initial).moves(HostReply::Sync(response), step),
        stored@ == client::accepted(response, "sync"@, "sync response"@)->Ok_0.next_batch@,
        stored@.len() > 0,
        PollSync::Starting(next).moves(HostReply::Text(Some(stored)), next_step),
    ensures
        step matches Step::Ask(call, _) && call@ == quiet_write("state/since_token"@, stored@),
        next_step.asks(
            CallView::Sync(
                client::sync_request(
                    next.homeserver_url@,
                    Some(stored@),
                    next.timeout_ms,
                    Some(default_filter_text()),
                ),
            ),
            PollSync::Syncing(next, false),
        ),
{
}

/// Whether one of the events turns encryption on.
pub open spec fn has_encryption_event(events: Seq<RoomEvent>) -> bool {
    exists|i: int| 0 <= i < events.len() && (#[trigger] events[i]).event_type@ == "m.room.encryption"@
}

/// Whether an event of the state or of the timeline of a room turns encryption on.
pub open spec fn turns_encryption_on(room: JoinedRoom) -> bool {
    ||| room.state matches Some(state) && has_encryption_event(state.events@)
    ||| room.timeline matches Some(timeline) && has_encryption_event(timeline.events@)
}

proof fn some_event_turns_encryption_on(events: Seq<RoomEvent>)
    ensures
        encryption_events(events) > 0 <==> has_encryption_event(events),
    decreases events.len(),
{
    if events.len() > 0 {
        let rest = events.drop_last();
        some_event_turns_encryption_on(rest);
        if has_encryption_event(rest) {
            let i = choose|i: int|
                0 <= i < rest.len() && (#[trigger] rest[i]).event_type@ == "m.room.encryption"@;
            assert(events[i] == rest[i]);
        }
        if has_encryption_event(events) {
            let i = choose|i: int|
                0 <= i < events.len() && (#[trigger] events[i]).event_type@ == "m.room.encryption"@;
            if i < events.len() - 1 {
                assert(rest[i] == events[i]);
            }
        }
        if events.last().event_type@ == "m.room.encryption"@ {
            assert(events[events.len() - 1].event_type@ == "m.room.encryption"@);
        }
    }
}

/// A room is to be marked as encrypted exactly where an event of its state or of its timeline turns
/// encryption on; either may be absent.
pub proof fn encrypted_rooms_are_marked(rooms: Seq<(String, JoinedRoom)>, room_id: Seq<char>)
    ensures
        all_marks(rooms).contains(room_id) <==> exists|i: int|
            0 <= i < rooms.len() && (#[trigger] rooms[i]).0@ == room_id && turns_encryption_on(
                rooms[i].1,
            ),
    decreases rooms.len(),
{
    if rooms.len() > 0 {
        let first = Seq::new(mark_count(rooms[0].1), |i: int| rooms[0].0@);
        let rest = all_marks(rooms.skip(1));
        encrypted_rooms_are_marked(rooms.skip(1), room_id);
        some_event_turns_encryption_on(state_events(rooms[0].1));
        some_event_turns_encryption_on(timeline_events(rooms[0].1));
        if first.contains(room_id) {
            assert(rooms[0].0@ == room_id);
            let i = choose|i: int| 0 <= i < first.len() && first[i] == room_id;
            assert((first + rest)[i] == room_id);
        }
        if rest.contains(room_id) {
            let i = choose|i: int| 0 <= i < rest.len() && rest[i] == room_id;
            assert((first + rest)[first.len() + i] == room_id);
            let k = choose|k: int|
                0 <= k < rooms.skip(1).len() && (#[trigger] rooms.skip(1)[k]).0@ == room_id
                    && turns_encryption_on(rooms.skip(1)[k].1);
            assert(rooms[k + 1] == rooms.skip(1)[k]);
        }
        if all_marks(rooms).contains(room_id) {
            let i = choose|i: int| 0 <= i < (first + rest).len() && (first + rest)[i] == room_id;
            if i < first.len() {
                assert(first[i] == room_id);
                assert(first.contains(room_id));
            } else {
                assert(rest[i - first.len()] == room_id);
                assert(rest.contains(room_id));
            }
        }
        if exists|i: int|
            0 <= i < rooms.len() && (#[trigger] rooms[i]).0@ == room_id && turns_encryption_on(
                rooms[i].1,
            ) {
            let i = choose|i: int|
                0 <= i < rooms.len() && (#[trigger] rooms[i]).0@ == room_id && turns_encryption_on(
                    rooms[i].1,
                );
            if i == 0 {
                assert(first[0] == room_id);
                assert(first.contains(room_id));
            } else {
                assert(rooms.skip(1)[i - 1] == rooms[i]);
                assert(rest.contains(room_id));
            }
        }
    }
}

/// The encrypted rooms after these are marked one after the other.
pub open spec fn after_marks(rooms: Seq<Seq<char>>, marks: Seq<Seq<char>>) -> Seq<Seq<char>>
    decreases marks.len(),
{
    if marks.len() == 0 {
        rooms
    } else {
        match marked_rooms(rooms, marks[0]) {
            Some(marked) => after_marks(marked, marks.skip(1)),
            None => after_marks(rooms, marks.skip(1)),
        }
    }
}

/// Marking rooms adds exactly these: a room is encrypted afterwards if and only if it was before or is
/// among them.
pub proof fn marks_add_exactly_their_rooms(
    rooms: Seq<Seq<char>>,
    marks: Seq<Seq<char>>,
    room_id: Seq<char>,
)
    ensures
        after_marks(rooms, marks).contains(room_id) <==> rooms.contains(room_id) || marks.contains(
            room_id,
        ),
    decreases marks.len(),
{
    if marks.len() > 0 {
        let next = match marked_rooms(rooms, marks[0]) {
            Some(marked) => marked,
            None => rooms,
        };
        marks_add_exactly_their_rooms(next, marks.skip(1), room_id);
        if rooms.contains(room_id) && !rooms.contains(marks[0]) {
            let i = choose|i: int| 0 <= i < rooms.len() && rooms[i] == room_id;
            assert(next[i] == room_id);
        }
        if !rooms.contains(marks[0]) {
            assert(next[rooms.len() as int] == marks[0]);
            if next.contains(room_id) {
                let i = choose|i: int| 0 <= i < next.len() && next[i] == room_id;
                if i < rooms.len() {
                    assert(rooms[i] == room_id);
                }
            }
        }
        if marks.skip(1).contains(room_id) {
            let i = choose|i: int| 0 <= i < marks.skip(1).len() && marks.skip(1)[i] == room_id;
            assert(marks[i + 1] == room_id);
        }
        if marks.contains(room_id) {
            let i = choose|i: int| 0 <= i < marks.len() && marks[i] == room_id;
            if i > 0 {
                assert(marks.skip(1)[i - 1] == room_id);
            } else {
                assert(next.contains(room_id));
            }
        }
    }
}

impl PollSync {
    /// What the flow does from an answer.
    pub open spec fn rule() -> host::Rule<
        PollSync,
        (Vec<(String, RoomEvent)>, MegolmSessionCache),
    > {
        |flow: PollSync, reply: HostReply, step: PollStep| flow.moves(reply, step)
    }
}

/// Whether the host keeps the list of encrypted rooms: it holds these at first, is read as it is, and
/// changes only to what is written.
pub open spec fn keeps_rooms(
    calls: Seq<CallView>,
    replies: Seq<HostReply>,
    rooms: Seq<Seq<char>>,
) -> bool
    decreases calls.len(),
{
    if calls.len() == 0 {
        true
    } else if calls[0] == CallView::Read("state/encrypted_rooms"@) {
        (replies[0] matches HostReply::Text(stored) && json::stored_list(json::opt_text(stored))
            == rooms) && keeps_rooms(calls.skip(1), replies.skip(1), rooms)
    } else {
        match host::written_at(calls[0], "state/encrypted_rooms"@) {
            Some(text) => forall|after: Seq<Seq<char>>|
                text == #[trigger] json::string_array_text(after) ==> keeps_rooms(
                    calls.skip(1),
                    replies.skip(1),
                    after,
                ),
            None => keeps_rooms(calls.skip(1), replies.skip(1), rooms),
        }
    }
}

/// The rooms to mark end up in the stored list: what a poll leaves there in the end is the list with
/// them, and where nothing is written they were in it before.
pub proof fn marks_are_stored(
    marks: Seq<Seq<char>>,
    messages: Seq<(Seq<char>, RoomEvent)>,
    sessions: Sessions,
    rooms: Seq<Seq<char>>,
    step: PollStep,
    calls: Seq<CallView>,
    replies: Seq<HostReply>,
    last: PollStep,
)
    requires
        PollSync::marks(marks, messages, sessions, step),
        host::runs(PollSync::rule(), step, calls, replies, last),
        last is Done,
        keeps_rooms(calls, replies, rooms),
    ensures
        match host::last_written(calls, "state/encrypted_rooms"@) {
            Some(text) => text == json::string_array_text(after_marks(rooms, marks)),
            None => after_marks(rooms, marks) == rooms,
        },
    decreases marks.len(),
{
    let rule = PollSync::rule();
    let path = "state/encrypted_rooms"@;
    if marks.len() == 0 {
        host::run_is_over(rule, step, calls, replies, last);
    } else {
        let second = host::run_goes_on(rule, step, calls, replies, last);
        let (c1, r1) = (calls.skip(1), replies.skip(1));
        assert(keeps_rooms(c1, r1, rooms));
        match marked_rooms(rooms, marks[0]) {
            None => {
                marks_are_stored(
                    marks.skip(1),
                    messages,
                    sessions,
                    rooms,
                    second,
                    c1,
                    r1,
                    last,
                );
            },
            Some(marked) => {
                let third = host::run_goes_on(rule, second, c1, r1, last);
                let (c2, r2) = (c1.skip(1), r1.skip(1));
                if !(r1[0] is Finished) {
                    host::run_is_over(rule, third, c2, r2, last);
                }
                let text = json::string_array_text(marked);
                assert(seq![(path, text)].last() == (path, text));
                assert(host::written_at(c1[0], path) == Some(text));
                assert(keeps_rooms(c2, r2, marked));
                marks_are_stored(
                    marks.skip(1),
                    messages,
                    sessions,
                    marked,
                    third,
                    c2,
                    r2,
                    last,
                );
                assert(host::last_written(c1, path) is Some);
            },
        }
    }
}

/// Whether an event of a timeline is for the agent: another than we has sent it, and it is a text
/// message, or an encrypted one where E2EE is on.
pub open spec fn for_the_agent(our_user_id: Seq<char>, e2ee_enabled: bool) -> spec_fn(
    RoomEvent,
) -> bool {
    |event: RoomEvent|
        {
            &&& !(event.sender matches Some(sender) && sender@ == our_user_id)
            &&& {
                ||| event.event_type@ == "m.room.encrypted"@ && e2ee_enabled
                ||| event.event_type@ == "m.room.message"@ && (
                event.content.message matches Ok(content) && content.body is Some && (
                content.msgtype matches Some(kind) && kind@ == "m.text"@))
            }
        }
}

/// What a room brings for the agent: the events of its timeline that are for the agent, all of them, in
/// the order of the timeline, with the room.
pub open spec fn brought_by(our_user_id: Seq<char>, e2ee_enabled: bool) -> spec_fn(
    (String, JoinedRoom),
) -> Seq<(Seq<char>, RoomEvent)> {
    |room: (String, JoinedRoom)|
        match room.1.timeline {
            Some(timeline) => timeline.events@.filter(
                for_the_agent(our_user_id, e2ee_enabled),
            ).map_values(|event: RoomEvent| (room.0@, event)),
            None => Seq::empty(),
        }
}

proof fn incoming_is_the_filtered_timeline(
    room_id: Seq<char>,
    events: Seq<RoomEvent>,
    our_user_id: Seq<char>,
    e2ee_enabled: bool,
)
    ensures
        incoming(room_id, events, our_user_id, e2ee_enabled) == events.filter(
            for_the_agent(our_user_id, e2ee_enabled),
        ).map_values(|event: RoomEvent| (room_id, event)),
    decreases events.len(),
{
    reveal(Seq::filter);
    let pred = for_the_agent(our_user_id, e2ee_enabled);
    let with_room = |event: RoomEvent| (room_id, event);
    if events.len() == 0 {
        assert(events.filter(pred).map_values(with_room) =~= Seq::empty());
    } else {
        let one = seq![events[0]];
        let rest = events.skip(1);
        incoming_is_the_filtered_timeline(room_id, rest, our_user_id, e2ee_enabled);
        assert(one + rest =~= events);
        Seq::filter_distributes_over_add(one, rest, pred);
        assert(one.drop_last() =~= Seq::empty());
        assert(one.drop_last().filter(pred) =~= Seq::empty());
        assert(pred(events[0]) == is_incoming(events[0], our_user_id, e2ee_enabled));
        if pred(events[0]) {
            assert(one.filter(pred) =~= one);
        } else {
            assert(one.filter(pred) =~= Seq::empty());
        }
        assert(events.filter(pred).map_values(with_room) =~= one.filter(pred).map_values(with_room)
            + rest.filter(pred).map_values(with_room));
        assert(one.map_values(with_room) =~= seq![(room_id, events[0])]);
        assert(incoming(room_id, events, our_user_id, e2ee_enabled) =~= events.filter(
            pred,
        ).map_values(with_room));
    }
}

/// The messages of joined rooms are all that their timelines bring for the agent, and nothing else: room
/// after room, in the order of each timeline, each as often as it is there.
pub proof fn messages_are_those_of_the_timelines(
    rooms: Seq<(String, JoinedRoom)>,
    our_user_id: Seq<char>,
    e2ee_enabled: bool,
)
    ensures
        all_incoming(rooms, our_user_id, e2ee_enabled) == rooms.map_values(
            brought_by(our_user_id, e2ee_enabled),
        ).flatten(),
    decreases rooms.len(),
{
    let brought = brought_by(our_user_id, e2ee_enabled);
    let all = rooms.map_values(brought);
    if rooms.len() > 0 {
        let events = timeline_events(rooms[0].1);
        messages_are_those_of_the_timelines(rooms.skip(1), our_user_id, e2ee_enabled);
        incoming_is_the_filtered_timeline(rooms[0].0@, events, our_user_id, e2ee_enabled);
        assert(all.drop_first() =~= rooms.skip(1).map_values(brought));
        if rooms[0].1.timeline is None {
            assert(events =~= Seq::empty());
            assert(incoming(rooms[0].0@, events, our_user_id, e2ee_enabled) =~= Seq::empty());
        }
        assert(all.first() =~= incoming(rooms[0].0@, events, our_user_id, e2ee_enabled));
    }
}

/// Every message in the joined rooms that cannot be read, of another than we, is among those of which it
/// is told why.
proof fn unreadable_message_is_told(
    rooms: Seq<(String, JoinedRoom)>,
    our_user_id: Seq<char>,
    i: int,
    j: int,
    e: String,
)
    requires
        0 <= i < rooms.len(),
        0 <= j < timeline_events(rooms[i].1).len(),
        timeline_events(rooms[i].1)[j].event_type@ == "m.room.message"@,
        timeline_events(rooms[i].1)[j].content.message == Err::<types::MessageContent, String>(e),
        json::opt_text(timeline_events(rooms[i].1)[j].sender) != Some(our_user_id),
    ensures
        all_unreadable(rooms, our_user_id).contains(e@),
    decreases rooms.len(),
{
    let before = all_unreadable(rooms.drop_last(), our_user_id);
    let here = unreadable(timeline_events(rooms.last().1), our_user_id);
    if i == rooms.len() - 1 {
        unreadable_event_is_told(timeline_events(rooms.last().1), our_user_id, j, e);
        let k = choose|k: int| 0 <= k < here.len() && here[k] == e@;
        assert((before + here)[before.len() + k] == e@);
    } else {
        assert(rooms.drop_last()[i] == rooms[i]);
        unreadable_message_is_told(rooms.drop_last(), our_user_id, i, j, e);
        let k = choose|k: int| 0 <= k < before.len() && before[k] == e@;
        assert((before + here)[k] == e@);
    }
}

proof fn unreadable_event_is_told(
    events: Seq<RoomEvent>,
    our_user_id: Seq<char>,
    j: int,
    e: String,
)
    requires
        0 <= j < events.len(),
        events[j].event_type@ == "m.room.message"@,
        events[j].content.message == Err::<types::MessageContent, String>(e),
        json::opt_text(events[j].sender) != Some(our_user_id),
    ensures
        unreadable(events, our_user_id).contains(e@),
    decreases events.len(),
{
    let before = unreadable(events.drop_last(), our_user_id);
    let all = unreadable(events, our_user_id);
    if j == events.len() - 1 {
        assert(all[before.len() as int] == e@);
    } else {
        assert(events.drop_last()[j] == events[j]);
        unreadable_event_is_told(events.drop_last(), our_user_id, j, e);
        let k = choose|k: int| 0 <= k < before.len() && before[k] == e@;
        assert(all[k] == e@);
    }
}

/// A poll that is down to marking rooms gives the messages and sessions that it has.
proof fn marking_gives_the_messages(
    left: Seq<Seq<char>>,
    messages: Seq<(Seq<char>, RoomEvent)>,
    sessions: Sessions,
    first: PollStep,
    calls: Seq<CallView>,
    replies: Seq<HostReply>,
    last: PollStep,
)
    requires
        PollSync::marks(left, messages, sessions, first),
        host::runs(PollSync::rule(), first, calls, replies, last),
        last is Done,
    ensures
        PollSync::ends(messages, sessions, last),
    decreases replies.len(),
{
    let rule = PollSync::rule();
    if left.len() == 0 {
        host::run_is_over(rule, first, calls, replies, last);
    } else {
        let second = host::run_goes_on(rule, first, calls, replies, last);
        let (c1, r1) = (calls.skip(1), replies.skip(1));
        if second is Stray {
            host::run_is_over(rule, second, c1, r1, last);
        }
        if second matches Step::Ask(_, PollSync::Writing(_, _, _)) {
            let third = host::run_goes_on(rule, second, c1, r1, last);
            let (c2, r2) = (c1.skip(1), r1.skip(1));
            if third is Stray {
                host::run_is_over(rule, third, c2, r2, last);
            }
            marking_gives_the_messages(left.skip(1), messages, sessions, third, c2, r2, last);
        } else {
            marking_gives_the_messages(left.skip(1), messages, sessions, second, c1, r1, last);
        }
    }
}

/// A poll tells why messages cannot be read, one after the other, and then marks rooms.
proof fn notes_are_made(
    errors: Seq<Seq<char>>,
    marks: Seq<Seq<char>>,
    messages: Seq<(Seq<char>, RoomEvent)>,
    sessions: Sessions,
    first: PollStep,
    calls: Seq<CallView>,
    replies: Seq<HostReply>,
    last: PollStep,
) -> (step: PollStep)
    requires
        PollSync::notes(errors, marks, messages, sessions, first),
        host::runs(PollSync::rule(), first, calls, replies, last),
        last is Done,
    ensures
        calls.len() == replies.len() >= errors.len(),
        forall|i: int|
            0 <= i < errors.len() ==> #[trigger] calls[i] == host::warning_entry(
                "Failed to parse m.room.message content: "@,
                errors[i],
            ),
        PollSync::marks(marks, messages, sessions, step),
        host::runs(
            PollSync::rule(),
            step,
            calls.skip(errors.len() as int),
            replies.skip(errors.len() as int),
            last,
        ),
    decreases errors.len(),
{
    let rule = PollSync::rule();
    if errors.len() == 0 {
        assert(calls.skip(0) =~= calls && replies.skip(0) =~= replies);
        first
    } else {
        let second = host::run_goes_on(rule, first, calls, replies, last);
        let (c1, r1) = (calls.skip(1), replies.skip(1));
        if second is Stray {
            host::run_is_over(rule, second, c1, r1, last);
        }
        let n = errors.len() as int;
        let step = notes_are_made(
            errors.skip(1),
            marks,
            messages,
            sessions,
            second,
            c1,
            r1,
            last,
        );
        assert(c1.skip(n - 1) =~= calls.skip(n) && r1.skip(n - 1) =~= replies.skip(n));
        assert forall|i: int| 0 <= i < n implies #[trigger] calls[i] == host::warning_entry(
            "Failed to parse m.room.message content: "@,
            errors[i],
        ) by {
            if i > 0 {
                assert(c1[i - 1] == calls[i]);
                assert(errors.skip(1)[i - 1] == errors[i]);
            }
        }
        step
    }
}

/// Whether the rooms of which these are the IDs are joined by these questions.
pub open spec fn joins_all(
    calls: Seq<CallView>,
    homeserver_url: Seq<char>,
    rooms: Seq<String>,
) -> bool {
    forall|k: int|
        0 <= k < rooms.len() ==> calls.contains(
            CallView::Http(client::join_request(homeserver_url, (#[trigger] rooms[k])@)),
        )
}

/// A poll asks to join every room to which we are invited, whatever comes of each, and then goes on: after
/// how many questions, and with which step.
proof fn invites_are_accepted(
    pending: Pending,
    left: Seq<String>,
    first: PollStep,
    calls: Seq<CallView>,
    replies: Seq<HostReply>,
    last: PollStep,
) -> (r: (int, PollStep))
    requires
        PollSync::joins(pending, left, first),
        host::runs(PollSync::rule(), first, calls, replies, last),
        last is Done,
    ensures
        0 <= r.0 <= calls.len(),
        calls.len() == replies.len(),
        joins_all(calls.take(r.0), pending.poll.homeserver_url@, left),
        PollSync::joins(pending, Seq::empty(), r.1),
        host::runs(PollSync::rule(), r.1, calls.skip(r.0), replies.skip(r.0), last),
    decreases left.len(),
{
    let rule = PollSync::rule();
    let url = pending.poll.homeserver_url@;
    if left.len() == 0 {
        assert(calls.skip(0) =~= calls && replies.skip(0) =~= replies);
        assert(left =~= Seq::empty());
        (0, first)
    } else {
        let second = host::run_goes_on(rule, first, calls, replies, last);
        let (c1, r1) = (calls.skip(1), replies.skip(1));
        if second is Stray {
            host::run_is_over(rule, second, c1, r1, last);
        }
        let failed = second matches Step::Ask(_, PollSync::Complaining(_, _));
        let (n, led) = if failed {
            let third = host::run_goes_on(rule, second, c1, r1, last);
            let (c2, r2) = (c1.skip(1), r1.skip(1));
            if third is Stray {
                host::run_is_over(rule, third, c2, r2, last);
            }
            let r = invites_are_accepted(pending, left.skip(1), third, c2, r2, last);
            assert(c2.skip(r.0) =~= calls.skip(r.0 + 2));
            assert(r2.skip(r.0) =~= replies.skip(r.0 + 2));
            assert(c2.take(r.0) =~= calls.take(r.0 + 2).skip(2));
            (r.0 + 2, r.1)
        } else {
            let r = invites_are_accepted(pending, left.skip(1), second, c1, r1, last);
            assert(c1.skip(r.0) =~= calls.skip(r.0 + 1));
            assert(r1.skip(r.0) =~= replies.skip(r.0 + 1));
            assert(c1.take(r.0) =~= calls.take(r.0 + 1).skip(1));
            (r.0 + 1, r.1)
        };
        let some = calls.take(n);
        let later = if failed {
            some.skip(2)
        } else {
            some.skip(1)
        };
        assert forall|k: int| 0 <= k < left.len() implies some.contains(
            CallView::Http(client::join_request(url, (#[trigger] left[k])@)),
        ) by {
            let asked = CallView::Http(client::join_request(url, left[k]@));
            if k == 0 {
                assert(some[0] == asked);
            } else {
                assert(left.skip(1)[k - 1] == left[k]);
                assert(later.contains(asked));
                let i = choose|i: int| 0 <= i < later.len() && later[i] == asked;
                assert(some[i + (if failed {
                    2int
                } else {
                    1
                })] == asked);
            }
        }
        (n, led)
    }
}

/// How a poll goes on from the response to its sync: where the processing of the to-device events starts
/// and ends, its first step and the sessions that it gives, and from where on rooms are marked.
pub struct PollRun {
    pub keys_start: int,
    pub keys_end: int,
    pub keys_first: Step<ToDevice, MegolmSessionCache>,
    pub keys_cache: MegolmSessionCache,
    pub marks_start: int,
}

/// Whether this list of encrypted rooms is left: the one that is written last, or that which was there.
pub open spec fn leaves_list(
    calls: Seq<CallView>,
    rooms: Seq<Seq<char>>,
    list: Seq<Seq<char>>,
) -> bool {
    match host::last_written(calls, "state/encrypted_rooms"@) {
        Some(text) => text == json::string_array_text(list),
        None => list == rooms,
    }
}

/// Whether the list of encrypted rooms ends up right: with those that were in it and those of the joined
/// rooms that turn encryption on, and with no other.
pub open spec fn encrypted_rooms_end_up(
    calls: Seq<CallView>,
    rooms: Seq<Seq<char>>,
    joined_rooms: Seq<(String, JoinedRoom)>,
) -> bool {
    exists|list: Seq<Seq<char>>| #[trigger]
        leaves_list(calls, rooms, list) && forall|room_id: Seq<char>| #[trigger]
            list.contains(room_id) <==> rooms.contains(room_id) || exists|i: int|
                0 <= i < joined_rooms.len() && (#[trigger] joined_rooms[i]).0@ == room_id
                    && turns_encryption_on(joined_rooms[i].1)
}

/// What a whole poll does with the response to its sync. It asks for what came after the stored token,
/// and stores the next one before it processes anything. It joins every room to which we are invited.
/// With E2EE on, the to-device events are processed, all of them, and the sessions that it gives are what
/// that processing gives. But for the first sync, the messages that it gives are all that the timelines of
/// the joined rooms bring for the agent; of each that cannot be read it is logged why; and exactly the
/// rooms that turn encryption on are added to the encrypted ones.
#[verifier::rlimit(50)]
pub proof fn poll_takes_in_the_response(
    flow: PollSync,
    call: HostCall,
    homeserver_url: Seq<char>,
    timeout_ms: u32,
    our_user_id: Seq<char>,
    e2ee_enabled: bool,
    calls: Seq<CallView>,
    replies: Seq<HostReply>,
    stored: Option<String>,
    sync: SyncResponse,
    messages: Vec<(String, RoomEvent)>,
    cache: MegolmSessionCache,
) -> (r: PollRun)
    requires
        flow.begins(call, homeserver_url, timeout_ms, our_user_id, e2ee_enabled),
        host::runs(
            PollSync::rule(),
            Step::Ask(call, flow),
            calls,
            replies,
            Step::Done((messages, cache)),
        ),
        replies[0] == HostReply::Text(stored),
        replies[1] matches HostReply::Sync(Ok(response)) && response.response.status == 200
            && response.parsed == Ok::<SyncResponse, String>(sync),
    ensures
        calls.len() == replies.len(),
        3 <= r.keys_start <= r.keys_end <= r.marks_start <= calls.len(),
        calls[0] == CallView::Read("state/since_token"@),
        calls[1] == CallView::Sync(
            client::sync_request(
                homeserver_url,
                if stored is Some && stored->0@.len() > 0 {
                    Some(stored->0@)
                } else {
                    None
                },
                timeout_ms,
                Some(default_filter_text()),
            ),
        ),
        calls[2] == CallView::WriteAll(seq![("state/since_token"@, sync.next_batch@)]),
        sync.rooms matches Some(rooms) ==> (rooms.invite matches Some(invites) ==> joins_all(
            calls.subrange(3, r.keys_start),
            homeserver_url,
            invites@,
        )),
        if e2ee_enabled && (sync.to_device matches Some(to_device) && to_device.events@.len() > 0) {
            ToDevice::proceeds(sync.to_device->0.events@, Map::empty(), r.keys_first) && host::runs(
                ToDevice::rule(),
                r.keys_first,
                calls.subrange(r.keys_start, r.keys_end),
                replies.subrange(r.keys_start, r.keys_end),
                Step::Done(r.keys_cache),
            ) && r.keys_cache@ == cache@
        } else {
            r.keys_start == r.keys_end && cache@ == Map::<
                (Seq<char>, Seq<char>),
                crate::crypto_store::StoredInboundMegolmSession,
            >::empty()
        },
        stored is None || stored->0@.len() == 0 ==> messages@.len() == 0,
        (sync.rooms is None || sync.rooms->0.join is None) ==> messages@.len() == 0,
        stored is Some && stored->0@.len() > 0 ==> (sync.rooms matches Some(rooms) ==> (
        rooms.join matches Some(join) ==> {
            &&& message_views(messages@) == join@.map_values(
                brought_by(our_user_id, e2ee_enabled),
            ).flatten()
            &&& unreadable_is_logged(calls, join@, our_user_id)
            &&& forall|listed: Seq<Seq<char>>| #[trigger]
                keeps_rooms(calls.skip(r.marks_start), replies.skip(r.marks_start), listed)
                    ==> encrypted_rooms_end_up(calls.skip(r.marks_start), listed, join@)
        })),
{
    let rule = PollSync::rule();
    let last: PollStep = Step::Done((messages, cache));
    let s1 = host::run_goes_on(rule, Step::Ask(call, flow), calls, replies, last);
    let (c1, r1) = (calls.skip(1), replies.skip(1));
    let s2 = host::run_goes_on(rule, s1, c1, r1, last);
    let (c2, r2) = (c1.skip(1), r1.skip(1));
    assert(c1[0] == calls[1] && r1[0] == replies[1]);
    let (pending, invites) = match s2 {
        Step::Ask(_, PollSync::Recording(pending, invites)) => (pending, invites),
        _ => arbitrary(),
    };
    assert(s2 matches Step::Ask(_, PollSync::Recording(_, _)));
    let s3 = host::run_goes_on(rule, s2, c2, r2, last);
    let (c3, r3) = (c2.skip(1), r2.skip(1));
    assert(c2[0] == calls[2]);
    assert(c3 =~= calls.skip(3) && r3 =~= replies.skip(3));
    if s3 is Stray {
        host::run_is_over(rule, s3, c3, r3, last);
    }
    let (n, s4) = invites_are_accepted(pending, invites@, s3, c3, r3, last);
    let keys_start = 3 + n;
    let (ck, rk) = (calls.skip(keys_start), replies.skip(keys_start));
    assert(c3.skip(n) =~= ck && r3.skip(n) =~= rk);
    assert(c3.take(n) =~= calls.subrange(3, keys_start));
    let (poll, initial, join) = (pending.poll, pending.initial, pending.join);
    let nothing: Sessions = Map::empty();
    let (k, first_key, keys_cache, s5) = if e2ee_enabled && (sync.to_device matches Some(to_device)
        && to_device.events@.len() > 0) {
        keys_run_ends(poll, initial, join, sync.to_device->0.events@, s4, ck, rk, last)
    } else {
        (0int, arbitrary(), cache, s4)
    };
    let keys_end = keys_start + k;
    let (ce, re) = (calls.skip(keys_end), replies.skip(keys_end));
    assert(ck.skip(k) =~= ce && rk.skip(k) =~= re);
    assert(ck.take(k) =~= calls.subrange(keys_start, keys_end));
    assert(rk.take(k) =~= replies.subrange(keys_start, keys_end));
    let sessions = if e2ee_enabled && (sync.to_device matches Some(to_device)
        && to_device.events@.len() > 0) {
        keys_cache@
    } else {
        nothing
    };
    assert(PollSync::extracts(poll, initial, join, sessions, s5));
    let told = extraction_runs(
        poll,
        initial,
        join,
        sessions,
        s5,
        ce,
        re,
        messages,
        cache,
    );
    let marks_start = keys_end + told;
    assert(ce.skip(told) =~= calls.skip(marks_start));
    assert(re.skip(told) =~= replies.skip(marks_start));
    assert forall|asked: CallView| ce.contains(asked) implies calls.contains(asked) by {
        let at = choose|at: int| 0 <= at < ce.len() && ce[at] == asked;
        assert(calls[keys_end + at] == asked);
    }
    PollRun { keys_start, keys_end, keys_first: first_key, keys_cache, marks_start }
}

/// Whether it is logged of every message of another than we that cannot be read, why it cannot.
pub open spec fn unreadable_is_logged(
    calls: Seq<CallView>,
    rooms: Seq<(String, JoinedRoom)>,
    our_user_id: Seq<char>,
) -> bool {
    forall|i: int, j: int, e: String|
        #![trigger timeline_events(rooms[i].1)[j], e@]
        0 <= i < rooms.len() && 0 <= j < timeline_events(rooms[i].1).len() && timeline_events(
            rooms[i].1,
        )[j].event_type@ == "m.room.message"@ && timeline_events(rooms[i].1)[j].content.message
            == Err::<types::MessageContent, String>(e) && json::opt_text(
            timeline_events(rooms[i].1)[j].sender,
        ) != Some(our_user_id) ==> calls.contains(
            host::warning_entry("Failed to parse m.room.message content: "@, e@),
        )
}

/// The end of a poll: how many log entries there are before rooms are marked.
proof fn extraction_runs(
    poll: Poll,
    initial: bool,
    join: Option<Vec<(String, JoinedRoom)>>,
    sessions: Sessions,
    first: PollStep,
    calls: Seq<CallView>,
    replies: Seq<HostReply>,
    messages: Vec<(String, RoomEvent)>,
    cache: MegolmSessionCache,
) -> (told: int)
    requires
        PollSync::extracts(poll, initial, join, sessions, first),
        host::runs(PollSync::rule(), first, calls, replies, Step::Done((messages, cache))),
    ensures
        0 <= told <= calls.len(),
        calls.len() == replies.len(),
        cache@ == sessions,
        initial || join is None ==> messages@.len() == 0,
        !initial && join is Some ==> {
            &&& message_views(messages@) == join->0@.map_values(
                brought_by(poll.our_user_id@, poll.e2ee_enabled),
            ).flatten()
            &&& unreadable_is_logged(calls, join->0@, poll.our_user_id@)
            &&& forall|listed: Seq<Seq<char>>| #[trigger]
                keeps_rooms(calls.skip(told), replies.skip(told), listed)
                    ==> encrypted_rooms_end_up(calls.skip(told), listed, join->0@)
        },
{
    let rule = PollSync::rule();
    let last: PollStep = Step::Done((messages, cache));
    assert(message_views(messages@).len() == messages@.len());
    if initial || join is None {
        host::run_is_over(rule, first, calls, replies, last);
        0
    } else {
        let rooms = join->0@;
        let us = poll.our_user_id@;
        let errors = all_unreadable(rooms, us);
        let marks = all_marks(rooms);
        let found = all_incoming(rooms, us, poll.e2ee_enabled);
        let step = notes_are_made(errors, marks, found, sessions, first, calls, replies, last);
        let told = errors.len() as int;
        let (cm, rm) = (calls.skip(told), replies.skip(told));
        marking_gives_the_messages(marks, found, sessions, step, cm, rm, last);
        messages_are_those_of_the_timelines(rooms, us, poll.e2ee_enabled);
        assert forall|i: int, j: int, e: String|
            #![trigger timeline_events(rooms[i].1)[j], e@]
            0 <= i < rooms.len() && 0 <= j < timeline_events(rooms[i].1).len() && timeline_events(
                rooms[i].1,
            )[j].event_type@ == "m.room.message"@ && timeline_events(
                rooms[i].1,
            )[j].content.message == Err::<types::MessageContent, String>(e) && json::opt_text(
                timeline_events(rooms[i].1)[j].sender,
            ) != Some(us) implies calls.contains(
            host::warning_entry("Failed to parse m.room.message content: "@, e@),
        ) by {
            unreadable_message_is_told(rooms, us, i, j, e);
            let at = choose|at: int| 0 <= at < errors.len() && errors[at] == e@;
            assert(calls[at] == host::warning_entry(
                "Failed to parse m.room.message content: "@,
                e@,
            ));
        }
        assert forall|listed: Seq<Seq<char>>| #[trigger]
            keeps_rooms(cm, rm, listed) implies encrypted_rooms_end_up(cm, listed, rooms) by {
            marks_are_stored(marks, found, sessions, listed, step, cm, rm, last);
            let list = after_marks(listed, marks);
            assert(leaves_list(cm, listed, list));
            assert forall|room_id: Seq<char>| #[trigger]
                list.contains(room_id) <==> listed.contains(room_id) || exists|i: int|
                    0 <= i < rooms.len() && (#[trigger] rooms[i]).0@ == room_id
                        && turns_encryption_on(rooms[i].1) by {
                marks_add_exactly_their_rooms(listed, marks, room_id);
                encrypted_rooms_are_marked(rooms, room_id);
            }
        }
        told
    }
}

/// The processing of the to-device events within a poll: how many questions it asks, its first step, the
/// sessions that it gives, and the step after it.
proof fn keys_run_ends(
    poll: Poll,
    initial: bool,
    join: Option<Vec<(String, JoinedRoom)>>,
    events: Seq<types::ToDeviceEvent>,
    first: PollStep,
    calls: Seq<CallView>,
    replies: Seq<HostReply>,
    last: PollStep,
) -> (r: (int, Step<ToDevice, MegolmSessionCache>, MegolmSessionCache, PollStep))
    requires
        exists|inner|
            #![trigger ToDevice::proceeds(events, Map::empty(), inner)]
            ToDevice::proceeds(events, Map::empty(), inner) && PollSync::keys(
                poll,
                initial,
                join,
                inner,
                first,
            ),
        host::runs(PollSync::rule(), first, calls, replies, last),
        last is Done,
    ensures
        0 <= r.0 <= calls.len(),
        calls.len() == replies.len(),
        ToDevice::proceeds(events, Map::empty(), r.1),
        host::runs(
            ToDevice::rule(),
            r.1,
            calls.take(r.0),
            replies.take(r.0),
            Step::Done(r.2),
        ),
        PollSync::extracts(poll, initial, join, r.2@, r.3),
        host::runs(PollSync::rule(), r.3, calls.skip(r.0), replies.skip(r.0), last),
{
    let rule = PollSync::rule();
    let inner_rule = ToDevice::rule();
    let whole = |k: ToDevice| PollSync::Keys(poll, initial, join, k);
    let after = |cache: MegolmSessionCache, step: PollStep|
        PollSync::extracts(poll, initial, join, cache@, step);
    let begun = choose|inner: Step<ToDevice, MegolmSessionCache>|
        #![trigger ToDevice::proceeds(events, Map::empty(), inner)]
        ToDevice::proceeds(events, Map::empty(), inner) && PollSync::keys(
            poll,
            initial,
            join,
            inner,
            first,
        );
    match begun {
        Step::Ask(call, flow) => {
            assert forall|flow: ToDevice, reply: HostReply, step: PollStep| #[trigger]
                host::goes(rule, whole(flow), reply, step) implies host::passes_on(
                inner_rule,
                whole,
                after,
                flow,
                reply,
                step,
            ) by {
                let inner = choose|inner: Step<ToDevice, MegolmSessionCache>|
                    #![trigger flow.moves(reply, inner)]
                    flow.moves(reply, inner) && PollSync::keys(poll, initial, join, inner, step);
                assert(host::goes(inner_rule, flow, reply, inner));
                assert(inner matches Step::Done(cache) ==> after(cache, step));
            }
            let r = host::inner_run_ends(
                inner_rule,
                rule,
                whole,
                after,
                call,
                flow,
                calls,
                replies,
                last,
            );
            (r.0, begun, r.1, r.2)
        },
        Step::Done(cache) => {
            assert(calls.take(0) =~= Seq::empty() && replies.take(0) =~= Seq::empty());
            assert(calls.skip(0) =~= calls && replies.skip(0) =~= replies);
            (0, begun, cache, first)
        },
        Step::Stray(_) => {
            host::run_is_over(rule, first, calls, replies, last);
            arbitrary()
        },
    }
}

/// Whether a text is an `@`, a localpart without a colon, a colon and a domain, neither of the two empty.
pub open spec fn has_two_parts(user_id: Seq<char>, local: Seq<char>, domain: Seq<char>) -> bool {
    &&& local.len() > 0
    &&& !local.contains(':')
    &&& domain.len() > 0
    &&& user_id == seq!['@'] + local + seq![':'] + domain
}

/// A user ID has a localpart and a domain.
pub proof fn user_id_has_two_parts(user_id: Seq<char>) -> (parts: (Seq<char>, Seq<char>))
    requires
        valid_user_id(user_id),
    ensures
        has_two_parts(user_id, parts.0, parts.1),
{
    let rest = user_id.skip(1);
    let at = text::position_of(rest, ':');
    text::position_of_is_first(rest, ':');
    let local = rest.take(at);
    let domain = rest.skip(at + 1);
    assert(user_id =~= seq!['@'] + local + seq![':'] + domain);
    (local, domain)
}

/// Whatever has a localpart and a domain is a user ID.
pub proof fn two_parts_are_a_user_id(user_id: Seq<char>, local: Seq<char>, domain: Seq<char>)
    requires
        has_two_parts(user_id, local, domain),
    ensures
        valid_user_id(user_id),
{
    let rest = user_id.skip(1);
    let at = text::position_of(rest, ':');
    text::position_of_is_first(rest, ':');
    let n = local.len() as int;
    assert(rest =~= local + seq![':'] + domain);
    assert(rest[n] == ':');
    if at < n {
        assert(rest[at] == local[at]);
        assert(local.contains(local[at]));
    }
}

/// A room ID is an exclamation mark and something after it, with or without a server.
pub proof fn room_ids_need_no_server(name: Seq<char>, c: char)
    ensures
        valid_room_id(seq!['!'] + name) <==> name.len() > 0,
        c != '!' ==> !valid_room_id(seq![c] + name),
        !valid_room_id(Seq::empty()),
{
}

} // verus!
