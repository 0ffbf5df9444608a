//! The channel: its start, its polls, and the messages that the agent sends through it.

use vstd::prelude::*;
use vstd::string::*;
use vstd::utf8::*;

use crate::client::{self, bytes_of, read_counter, reserve, whoami, whoami_response};
use crate::config::MatrixConfig;
use crate::decryption::Sessions;
use crate::delivery::{broadcast_to_room, send_response_to_room, SendOutgoing, SendStep};
use crate::device::{self, init_crypto, InitCrypto};
use crate::host::{self, log_error, CallView, HostCall, HostReply, Step};
use crate::incoming::{self, process_incoming_event, read_flag, ProcessIncoming, ProcessStep};
use crate::json::{self, bool_json, object_json, string_array_json, string_json};
use crate::session_cache::MegolmSessionCache;
use crate::sync::{
    self, poll_sync, read_homeserver_url, read_user_id, write_homeserver_url, write_quietly, PollSync,
};
use crate::text::{self, concat2, decimal, parse_u32};
use crate::types::{field, MatrixMessageMetadata, RoomEvent};

verus! {

// ---------------------------------------------------------------------------
// HTTP endpoint
// ---------------------------------------------------------------------------

/// An HTTP response of the channel.
#[derive(Debug)]
pub struct OutgoingHttpResponse {
    pub status: u16,
    pub headers_json: String,
    pub body: Vec<u8>,
}

/// Create a JSON HTTP response.
fn json_response(status: u16, body: &str) -> (r: OutgoingHttpResponse)
    ensures
        r.status == status,
        r.headers_json@ == json::object_text(
            seq![("Content-Type"@, json::string_text("application/json"@))],
        ),
        r.body@ == encode_utf8(body@),
{
    let headers = vec![field("Content-Type", string_json("application/json"))];
    assert(json::member_views(headers@) =~= seq![
        ("Content-Type"@, json::string_text("application/json"@)),
    ]);
    OutgoingHttpResponse { status, headers_json: object_json(&headers), body: bytes_of(body) }
}

/// Answer an HTTP request.
///
/// Matrix uses /sync polling; the HTTP endpoint exists for health checks.
pub fn on_http_request() -> (r: OutgoingHttpResponse)
    ensures
        r.status == 200,
        r.headers_json@ == json::object_text(
            seq![("Content-Type"@, json::string_text("application/json"@))],
        ),
        r.body@ == encode_utf8(json::object_text(seq![("ok"@, json::bool_text(true))])),
{
    let members = vec![field("ok", bool_json(true))];
    assert(json::member_views(members@) =~= seq![("ok"@, json::bool_text(true))]);
    json_response(200, object_json(&members).as_str())
}

// ---------------------------------------------------------------------------
// Start
// ---------------------------------------------------------------------------

/// What the channel tells its host at the start.
#[derive(Debug)]
pub struct ChannelConfig {
    pub display_name: String,
    pub http_endpoints: Vec<HttpEndpointConfig>,
    pub poll: Option<PollConfig>,
}

/// An HTTP endpoint of the channel.
#[derive(Debug)]
pub struct HttpEndpointConfig {
    pub path: String,
    pub methods: Vec<String>,
    pub require_secret: bool,
}

/// How often the channel is polled.
#[derive(Debug, Clone, Copy, PartialEq, Eq, Structural)]
pub struct PollConfig {
    pub interval_ms: u32,
    pub enabled: bool,
}

/// Whether the channel's configuration is the one for a sync timeout: one endpoint, for health
/// checks, and a poll every 30 seconds or, if it is longer, every sync timeout.
pub open spec fn is_channel_config(config: ChannelConfig, sync_timeout_ms: u32) -> bool {
    &&& config.display_name@ == "Matrix"@
    &&& config.http_endpoints@.len() == 1
    &&& config.http_endpoints[0].path@ == "/webhook/matrix"@
    &&& text::texts(config.http_endpoints[0].methods@) == seq!["POST"@]
    &&& !config.http_endpoints[0].require_secret
    &&& config.poll == Some(
        PollConfig {
            interval_ms: if sync_timeout_ms > 30_000 {
                sync_timeout_ms
            } else {
                30_000
            },
            enabled: true,
        },
    )
}

fn channel_config(sync_timeout_ms: u32) -> (config: ChannelConfig)
    ensures
        is_channel_config(config, sync_timeout_ms),
{
    let methods = vec!["POST".to_owned()];
    assert(text::texts(methods@) =~= seq!["POST"@]);
    let endpoint = HttpEndpointConfig {
        path: "/webhook/matrix".to_owned(),
        methods,
        require_secret: false,
    };
    let interval_ms: u32 = if sync_timeout_ms > 30_000 {
        sync_timeout_ms
    } else {
        30_000
    };
    ChannelConfig {
        display_name: "Matrix".to_owned(),
        http_endpoints: vec![endpoint],
        poll: Some(PollConfig { interval_ms, enabled: true }),
    }
}

/// The settings that the start persists for the later calls.
pub open spec fn settings(config: MatrixConfig, user_id: Seq<char>) -> Seq<
    (Seq<char>, Seq<char>),
> {
    seq![
        ("state/user_id"@, user_id),
        ("state/dm_policy"@, config.dm_policy@),
        ("state/allow_from"@, json::string_array_text(text::texts(config.allow_from@))),
        ("state/allowed_room_ids"@, json::string_array_text(text::texts(config.allowed_room_ids@))),
        (
            "state/respond_to_all_room_messages"@,
            json::bool_text(config.respond_to_all_room_messages),
        ),
        ("state/e2ee_enabled"@, json::bool_text(config.enable_e2ee)),
        ("state/sync_timeout_ms"@, text::decimal_text(config.sync_timeout_ms as nat)),
    ]
}

fn settings_writes(config: &MatrixConfig, user_id: &str) -> (call: HostCall)
    ensures
        call@ == CallView::WriteAll(settings(*config, user_id@)),
{
    let writes = vec![
        field("state/user_id", user_id.to_owned()),
        field("state/dm_policy", config.dm_policy.clone()),
        field("state/allow_from", string_array_json(&config.allow_from)),
        field("state/allowed_room_ids", string_array_json(&config.allowed_room_ids)),
        field(
            "state/respond_to_all_room_messages",
            bool_json(config.respond_to_all_room_messages),
        ),
        field("state/e2ee_enabled", bool_json(config.enable_e2ee)),
        field("state/sync_timeout_ms", decimal(config.sync_timeout_ms as u64)),
    ];
    assert(json::member_views(writes@) =~= settings(*config, user_id@));
    HostCall::WriteAll(writes)
}

/// Starts the channel.
pub enum OnStart {
    /// No homeserver URL is configured: the host is to read the stored one.
    Url(MatrixConfig),
    /// No user ID is configured: the host is to read the stored one.
    User(MatrixConfig),
    /// The host is to write the homeserver URL.
    Recording(MatrixConfig),
    /// There is no user ID: the host is to ask who the access token belongs to.
    Detecting(MatrixConfig),
    /// The host is to write the settings. Holds the user ID.
    Persisting(MatrixConfig, String),
    /// E2EE is on, and no device ID is configured: the host is to tell the time, for one.
    Inventing(MatrixConfig, String),
    /// E2EE is to be initialized. Holds the sync timeout.
    Initializing(u32, InitCrypto),
    /// E2EE failed to start: the host is to log why.
    Complaining(u32),
    /// The host is to write that E2EE is off.
    FallingBack(u32),
}

/// A step of the start.
pub type StartStep = Step<OnStart, Result<ChannelConfig, String>>;

/// Whether a configured text is missing: not there, or empty.
pub open spec fn missing(s: Option<String>) -> bool {
    s is None || s->0@.len() == 0
}

fn is_missing(s: &Option<String>) -> (yes: bool)
    ensures
        yes == missing(*s),
{
    match s {
        Some(s) => s.as_str().is_empty(),
        None => true,
    }
}

impl OnStart {
    /// The flow starts: with the stored homeserver URL where none is configured.
    pub open spec fn begins(config: Result<MatrixConfig, String>, step: StartStep) -> bool {
        match config {
            Err(e) => step.fails("Failed to parse config: "@ + e@),
            Ok(config) => if config.homeserver_url@.len() == 0 {
                step.asks(CallView::Read("state/homeserver_url"@), OnStart::Url(config))
            } else {
                Self::has_url(config, step)
            },
        }
    }

    /// The stored user ID is read where none is configured.
    pub open spec fn has_url(config: MatrixConfig, step: StartStep) -> bool {
        if missing(config.user_id) {
            step.asks(CallView::Read("state/user_id"@), OnStart::User(config))
        } else {
            Self::records(config, step)
        }
    }

    /// The homeserver URL, without which there is no start, is written.
    pub open spec fn records(config: MatrixConfig, step: StartStep) -> bool {
        if config.homeserver_url@.len() == 0 {
            step.fails(
                "homeserver_url is required. Set it in the config section of matrix.capabilities.json or run 'ironclaw onboard' to configure it."@,
            )
        } else {
            step.asks(
                sync::quiet_write("state/homeserver_url"@, config.homeserver_url@),
                OnStart::Recording(config),
            )
        }
    }

    /// The settings are written.
    pub open spec fn persists(config: MatrixConfig, user_id: Seq<char>, step: StartStep) -> bool {
        step matches Step::Ask(call, OnStart::Persisting(c, u)) && call@ == CallView::WriteAll(
            settings(config, user_id),
        ) && c == config && u@ == user_id
    }

    /// E2EE is initialized for a device.
    pub open spec fn initializes(
        config: MatrixConfig,
        user_id: Seq<char>,
        device_id: Seq<char>,
        step: StartStep,
    ) -> bool {
        step matches Step::Ask(call, OnStart::Initializing(timeout, init)) && timeout
            == config.sync_timeout_ms && init.begins(
            call,
            config.homeserver_url@,
            user_id,
            device_id,
        )
    }

    /// Whether the start is done.
    pub open spec fn ends(sync_timeout_ms: u32, step: StartStep) -> bool {
        step matches Step::Done(Ok(config)) && is_channel_config(config, sync_timeout_ms)
    }

    /// The flow goes on from an answer.
    pub open spec fn moves(self, reply: HostReply, step: StartStep) -> bool {
        match (self, reply) {
            (OnStart::Url(config), HostReply::Text(stored)) => match sync::nonempty(stored) {
                Some(url) => Self::has_url(
                    MatrixConfig { homeserver_url: url, ..config },
                    step,
                ),
                None => Self::has_url(config, step),
            },
            (OnStart::User(config), HostReply::Text(stored)) => match sync::nonempty(stored) {
                Some(user_id) => Self::records(
                    MatrixConfig { user_id: Some(user_id), ..config },
                    step,
                ),
                None => Self::records(config, step),
            },
            (OnStart::Recording(config), HostReply::Finished) => if missing(config.user_id) {
                step.asks(
                    CallView::Whoami(client::whoami_request(config.homeserver_url@)),
                    OnStart::Detecting(config),
                )
            } else {
                Self::persists(config, config.user_id->0@, step)
            },
            (OnStart::Detecting(config), HostReply::Whoami(response)) => {
                match client::accepted(response, "whoami"@, "whoami response"@) {
                    Err(e) => step.fails("Failed to detect user ID: "@ + e),
                    Ok(whoami) => Self::persists(config, whoami.user_id@, step),
                }
            },
            (OnStart::Persisting(config, user_id), HostReply::Finished) => {
                if !config.enable_e2ee {
                    Self::ends(config.sync_timeout_ms, step)
                } else if missing(config.device_id) {
                    step.asks(CallView::Now, OnStart::Inventing(config, user_id))
                } else {
                    Self::initializes(config, user_id@, config.device_id->0@, step)
                }
            },
            (OnStart::Inventing(config, user_id), HostReply::Time(now)) => Self::initializes(
                config,
                user_id@,
                "IRONCLAW_"@ + text::decimal_text(now as nat),
                step,
            ),
            (OnStart::Initializing(timeout, init), _) => exists|inner|
                #![trigger init.moves(reply, inner)]
                init.moves(reply, inner) && inner.passes_to(
                    step,
                    |i: InitCrypto| OnStart::Initializing(timeout, i),
                ) && match inner {
                    Step::Done(Ok(_)) => Self::ends(timeout, step),
                    Step::Done(Err(e)) => step.asks(
                        host::error_entry("E2EE initialization failed: "@, e@),
                        OnStart::Complaining(timeout),
                    ),
                    _ => true,
                },
            (OnStart::Complaining(timeout), HostReply::Finished) => step.asks(
                sync::quiet_write("state/e2ee_enabled"@, "false"@),
                OnStart::FallingBack(timeout),
            ),
            (OnStart::FallingBack(timeout), HostReply::Finished) => Self::ends(timeout, step),
            _ => step.strays(self),
        }
    }

    fn record(config: MatrixConfig) -> (step: StartStep)
        ensures
            Self::records(config, step),
    {
        if config.homeserver_url.as_str().is_empty() {
            return Step::Done(
                Err(
                    "homeserver_url is required. Set it in the config section of matrix.capabilities.json or run 'ironclaw onboard' to configure it.".to_owned(),
                ),
            );
        }
        let call = write_homeserver_url(config.homeserver_url.as_str());
        Step::Ask(call, OnStart::Recording(config))
    }

    fn with_url(config: MatrixConfig) -> (step: StartStep)
        ensures
            Self::has_url(config, step),
    {
        if is_missing(&config.user_id) {
            Step::Ask(HostCall::Read("state/user_id".to_owned()), OnStart::User(config))
        } else {
            Self::record(config)
        }
    }

    fn persist(config: MatrixConfig, user_id: String) -> (step: StartStep)
        ensures
            Self::persists(config, user_id@, step),
    {
        let call = settings_writes(&config, user_id.as_str());
        Step::Ask(call, OnStart::Persisting(config, user_id))
    }

    fn initialize(config: MatrixConfig, user_id: &str, device_id: &str) -> (step: StartStep)
        ensures
            Self::initializes(config, user_id@, device_id@, step),
    {
        let (call, init) = init_crypto(config.homeserver_url.as_str(), user_id, device_id);
        Step::Ask(call, OnStart::Initializing(config.sync_timeout_ms, init))
    }

    fn end(sync_timeout_ms: u32) -> (step: StartStep)
        ensures
            Self::ends(sync_timeout_ms, step),
    {
        Step::Done(Ok(channel_config(sync_timeout_ms)))
    }

    /// Goes on from an answer of the host.
    pub fn resume(self, reply: HostReply) -> (step: StartStep)
        ensures
            self.moves(reply, step),
    {
        match (self, reply) {
            (OnStart::Url(mut config), HostReply::Text(stored)) => {
                if let Some(url) = read_homeserver_url(stored) {
                    config.homeserver_url = url;
                }
                Self::with_url(config)
            },
            (OnStart::User(mut config), HostReply::Text(stored)) => {
                if let Some(user_id) = read_user_id(stored) {
                    config.user_id = Some(user_id);
                }
                Self::record(config)
            },
            (OnStart::Recording(config), HostReply::Finished) => {
                if let Some(user_id) = &config.user_id {
                    if !user_id.as_str().is_empty() {
                        let user_id = user_id.clone();
                        return Self::persist(config, user_id);
                    }
                }
                let request = whoami(config.homeserver_url.as_str());
                Step::Ask(HostCall::Whoami(request), OnStart::Detecting(config))
            },
            (OnStart::Detecting(config), HostReply::Whoami(response)) => {
                match whoami_response(response) {
                    Err(e) => Step::Done(Err(concat2("Failed to detect user ID: ", e.as_str()))),
                    Ok(whoami) => Self::persist(config, whoami.user_id),
                }
            },
            (OnStart::Persisting(config, user_id), HostReply::Finished) => {
                if !config.enable_e2ee {
                    return Self::end(config.sync_timeout_ms);
                }
                if let Some(device_id) = &config.device_id {
                    if !device_id.as_str().is_empty() {
                        let device_id = device_id.clone();
                        return Self::initialize(config, user_id.as_str(), device_id.as_str());
                    }
                }
                Step::Ask(HostCall::Now, OnStart::Inventing(config, user_id))
            },
            (OnStart::Inventing(config, user_id), HostReply::Time(now)) => {
                let device_id = concat2("IRONCLAW_", decimal(now).as_str());
                Self::initialize(config, user_id.as_str(), device_id.as_str())
            },
            (OnStart::Initializing(timeout, init), reply) => match init.resume(reply) {
                Step::Ask(call, init) => Step::Ask(call, OnStart::Initializing(timeout, init)),
                Step::Stray(init) => Step::Stray(OnStart::Initializing(timeout, init)),
                Step::Done(Ok(_)) => Self::end(timeout),
                Step::Done(Err(e)) => Step::Ask(
                    log_error("E2EE initialization failed: ", e.as_str()),
                    OnStart::Complaining(timeout),
                ),
            },
            (OnStart::Complaining(timeout), HostReply::Finished) => Step::Ask(
                write_quietly("state/e2ee_enabled", "false"),
                OnStart::FallingBack(timeout),
            ),
            (OnStart::FallingBack(timeout), HostReply::Finished) => Self::end(timeout),
            (flow, _) => Step::Stray(flow),
        }
    }
}

/// Start the channel with its configuration, or with why it could not be read.
///
/// Texts that are not configured are taken from what an earlier start stored. Where E2EE fails to
/// start, the channel starts without it.
pub fn on_start(config: Result<MatrixConfig, String>) -> (step: StartStep)
    ensures
        OnStart::begins(config, step),
{
    match config {
        Err(e) => Step::Done(Err(concat2("Failed to parse config: ", e.as_str()))),
        Ok(config) => if config.homeserver_url.as_str().is_empty() {
            Step::Ask(HostCall::Read("state/homeserver_url".to_owned()), OnStart::Url(config))
        } else {
            OnStart::with_url(config)
        },
    }
}

// ---------------------------------------------------------------------------
// Poll
// ---------------------------------------------------------------------------

/// Polls for new events and processes them.
pub enum OnPoll {
    /// The host is to read the homeserver URL.
    Homeserver,
    /// The host is to read our user ID. Holds the URL.
    User(String),
    /// The host is to read whether E2EE is on.
    E2ee(String, String),
    /// The host is to read the sync timeout.
    Timeout(String, String, bool),
    /// There is nothing to poll: the host is to log why.
    Ending,
    /// The server is polled.
    Polling(bool, PollSync),
    /// There are events to process: the host is to read the counter of transaction IDs. Holds whether
    /// E2EE is on, the events and the sessions.
    Counting(bool, Vec<(String, RoomEvent)>, MegolmSessionCache),
    /// The host is to write the counter after those that the events use: one for each.
    Reserving(bool, Vec<(String, RoomEvent)>, MegolmSessionCache, u64),
    /// An event is processed. Holds whether E2EE is on, the events that follow, and the counter of
    /// the next transaction ID.
    Processing(bool, Vec<(String, RoomEvent)>, u64, ProcessIncoming),
}

/// A step of a poll.
pub type OnPollStep = Step<OnPoll, ()>;

/// The sync timeout that is stored, or 30 seconds.
pub open spec fn stored_timeout(stored: Option<String>) -> u32 {
    match stored {
        Some(s) => match text::parsed_u32(s@) {
            Some(timeout) => timeout,
            None => 30_000,
        },
        None => 30_000,
    }
}

fn read_timeout(stored: &Option<String>) -> (timeout_ms: u32)
    ensures
        timeout_ms == stored_timeout(*stored),
{
    match stored {
        Some(s) => match parse_u32(s.as_str()) {
            Some(timeout) => timeout,
            None => 30_000,
        },
        None => 30_000,
    }
}

impl OnPoll {
    /// What a step of the processing of an event is as a step of the whole: once the event is
    /// processed, the next is.
    pub open spec fn processes(
        on: bool,
        rest: Vec<(String, RoomEvent)>,
        txn: u64,
        inner: ProcessStep,
        step: OnPollStep,
    ) -> bool
        decreases rest.len(), 1int,
    {
        inner.passes_to(step, |p: ProcessIncoming| OnPoll::Processing(on, rest, txn, p)) && (
        inner matches Step::Done(cache) ==> Self::proceeds(on, rest@, txn, cache@, step))
    }

    /// The events that are left are processed in order.
    pub open spec fn proceeds(
        on: bool,
        left: Seq<(String, RoomEvent)>,
        txn: u64,
        sessions: Sessions,
        step: OnPollStep,
    ) -> bool
        decreases left.len(), 0int,
    {
        if left.len() == 0 {
            step.gives(())
        } else {
            exists|inner: ProcessStep, rest: Vec<(String, RoomEvent)>|
                #![trigger ProcessIncoming::begins(left[0].0@, left[0].1, on, sessions, txn, inner), rest@]
                ProcessIncoming::begins(left[0].0@, left[0].1, on, sessions, txn, inner) && rest@
                    == left.skip(1) && rest.len() < left.len() && Self::processes(
                    on,
                    rest,
                    txn.wrapping_add(1),
                    inner,
                    step,
                )
        }
    }

    /// The flow goes on from an answer: with the stored URL and user ID, without which there is
    /// nothing to poll, the server is polled, and the messages are processed.
    pub open spec fn moves(self, reply: HostReply, step: OnPollStep) -> bool {
        match (self, reply) {
            (OnPoll::Homeserver, HostReply::Text(stored)) => match sync::nonempty(stored) {
                None => step.asks(
                    host::error_entry("No homeserver URL configured"@, ""@),
                    OnPoll::Ending,
                ),
                Some(url) => step.asks(CallView::Read("state/user_id"@), OnPoll::User(url)),
            },
            (OnPoll::User(url), HostReply::Text(stored)) => match sync::nonempty(stored) {
                None => step.asks(
                    host::error_entry("No user ID configured"@, ""@),
                    OnPoll::Ending,
                ),
                Some(user_id) => step.asks(
                    CallView::Read("state/e2ee_enabled"@),
                    OnPoll::E2ee(url, user_id),
                ),
            },
            (OnPoll::E2ee(url, user_id), HostReply::Text(stored)) => step.asks(
                CallView::Read("state/sync_timeout_ms"@),
                OnPoll::Timeout(url, user_id, incoming::flag_set(stored)),
            ),
            (OnPoll::Timeout(url, user_id, on), HostReply::Text(stored)) => {
                step matches Step::Ask(call, OnPoll::Polling(o, poll)) && o == on && poll.begins(
                    call,
                    url@,
                    stored_timeout(stored),
                    user_id@,
                    on,
                )
            },
            (OnPoll::Polling(on, poll), _) => exists|inner|
                #![trigger poll.moves(reply, inner)]
                poll.moves(reply, inner) && inner.passes_to(
                    step,
                    |p: PollSync| OnPoll::Polling(on, p),
                ) && match inner {
                    Step::Done((events, cache)) => if events.len() == 0 {
                        step.gives(())
                    } else {
                        step.asks(
                            CallView::Read("state/txn_counter"@),
                            OnPoll::Counting(on, events, cache),
                        )
                    },
                    _ => true,
                },
            (OnPoll::Ending, HostReply::Finished) => step.gives(()),
            (OnPoll::Counting(on, events, cache), HostReply::Text(stored)) => {
                let txn = client::stored_counter(stored);
                step.asks(
                    client::reserve_call(txn.wrapping_add(events.len() as u64)),
                    OnPoll::Reserving(on, events, cache, txn),
                )
            },
            (OnPoll::Reserving(on, events, cache, txn), HostReply::Finished) => Self::proceeds(
                on,
                events@,
                txn,
                cache@,
                step,
            ),
            (OnPoll::Processing(on, rest, txn, flow), _) => exists|inner|
                #![trigger flow.moves(reply, inner)]
                flow.moves(reply, inner) && Self::processes(on, rest, txn, inner, step),
            _ => step.strays(self),
        }
    }

    fn process(on: bool, rest: Vec<(String, RoomEvent)>, txn: u64, inner: ProcessStep) -> (step:
        OnPollStep)
        ensures
            Self::processes(on, rest, txn, inner, step),
        decreases rest.len(), 1int,
    {
        match inner {
            Step::Ask(call, flow) => Step::Ask(call, OnPoll::Processing(on, rest, txn, flow)),
            Step::Stray(flow) => Step::Stray(OnPoll::Processing(on, rest, txn, flow)),
            Step::Done(cache) => Self::proceed(on, rest, txn, cache),
        }
    }

    fn proceed(on: bool, events: Vec<(String, RoomEvent)>, txn: u64, cache: MegolmSessionCache) -> (step:
        OnPollStep)
        ensures
            Self::proceeds(on, events@, txn, cache@, step),
        decreases events.len(), 0int,
    {
        let mut left = events;
        if left.len() == 0 {
            return Step::Done(());
        }
        let ghost all = left@;
        let ghost sessions = cache@;
        let (room_id, event) = left.remove(0);
        assert(left@ =~= all.skip(1));
        let inner = process_incoming_event(room_id, event, on, cache, txn);
        assert(ProcessIncoming::begins(all[0].0@, all[0].1, on, sessions, txn, inner));
        Self::process(on, left, txn.wrapping_add(1), inner)
    }

    /// Goes on from an answer of the host.
    pub fn resume(self, reply: HostReply) -> (step: OnPollStep)
        ensures
            self.moves(reply, step),
    {
        match (self, reply) {
            (OnPoll::Homeserver, HostReply::Text(stored)) => match read_homeserver_url(stored) {
                None => Step::Ask(log_error("No homeserver URL configured", ""), OnPoll::Ending),
                Some(url) => Step::Ask(
                    HostCall::Read("state/user_id".to_owned()),
                    OnPoll::User(url),
                ),
            },
            (OnPoll::User(url), HostReply::Text(stored)) => match read_user_id(stored) {
                None => Step::Ask(log_error("No user ID configured", ""), OnPoll::Ending),
                Some(user_id) => Step::Ask(
                    HostCall::Read("state/e2ee_enabled".to_owned()),
                    OnPoll::E2ee(url, user_id),
                ),
            },
            (OnPoll::E2ee(url, user_id), HostReply::Text(stored)) => {
                let on = read_flag(&stored);
                Step::Ask(
                    HostCall::Read("state/sync_timeout_ms".to_owned()),
                    OnPoll::Timeout(url, user_id, on),
                )
            },
            (OnPoll::Timeout(url, user_id, on), HostReply::Text(stored)) => {
                let timeout_ms: u32 = read_timeout(&stored);
                let (call, poll) = poll_sync(url.as_str(), timeout_ms, user_id.as_str(), on);
                Step::Ask(call, OnPoll::Polling(on, poll))
            },
            (OnPoll::Polling(on, poll), reply) => match poll.resume(reply) {
                Step::Ask(call, poll) => Step::Ask(call, OnPoll::Polling(on, poll)),
                Step::Stray(poll) => Step::Stray(OnPoll::Polling(on, poll)),
                Step::Done((events, cache)) => if events.len() == 0 {
                    Step::Done(())
                } else {
                    Step::Ask(
                        HostCall::Read("state/txn_counter".to_owned()),
                        OnPoll::Counting(on, events, cache),
                    )
                },
            },
            (OnPoll::Ending, HostReply::Finished) => Step::Done(()),
            (OnPoll::Counting(on, events, cache), HostReply::Text(stored)) => {
                let txn: u64 = read_counter(&stored);
                let next: u64 = txn.wrapping_add(events.len() as u64);
                Step::Ask(reserve(next), OnPoll::Reserving(on, events, cache, txn))
            },
            (OnPoll::Reserving(on, events, cache, txn), HostReply::Finished) => {
                Self::proceed(on, events, txn, cache)
            },
            (OnPoll::Processing(on, rest, txn, flow), reply) => {
                let inner = flow.resume(reply);
                Self::process(on, rest, txn, inner)
            },
            (flow, _) => Step::Stray(flow),
        }
    }
}

/// Poll for new events and process them.
pub fn on_poll() -> (start: (HostCall, OnPoll))
    ensures
        start.0@ == CallView::Read("state/homeserver_url"@),
        start.1 == OnPoll::Homeserver,
{
    (HostCall::Read("state/homeserver_url".to_owned()), OnPoll::Homeserver)
}

// ---------------------------------------------------------------------------
// Messages of the agent
// ---------------------------------------------------------------------------

/// Send a response of the agent, given the metadata of the message to which it responds, or why it
/// could not be read.
pub fn on_respond(metadata: Result<MatrixMessageMetadata, String>, content: String) -> (step:
    SendStep)
    ensures
        match metadata {
            Err(e) => step.fails("Failed to parse metadata: "@ + e@),
            Ok(m) => step matches Step::Ask(call, flow) && flow.begins(
                call,
                m.room_id@,
                content@,
                false,
                m.encrypted,
            ),
        },
{
    match metadata {
        Err(e) => Step::Done(Err(concat2("Failed to parse metadata: ", e.as_str()))),
        Ok(metadata) => {
            let (call, flow) = send_response_to_room(metadata, content);
            Step::Ask(call, flow)
        },
    }
}

/// Send a message of the agent's own.
///
/// For Matrix, the user ID in a broadcast is the ID of a room.
pub fn on_broadcast(user_id: String, content: String) -> (start: (HostCall, SendOutgoing))
    ensures
        start.1.begins(start.0, user_id@, content@, true, false),
{
    broadcast_to_room(user_id, content)
}

// ---------------------------------------------------------------------------
// Laws
// ---------------------------------------------------------------------------

/// A setting that the start persists is what a later call reads of it: the sync timeout, and each of
/// the flags.
pub proof fn settings_read_back(config: MatrixConfig, user_id: Seq<char>, stored: String)
    ensures
        stored@ == settings(config, user_id)[6].1 ==> stored_timeout(Some(stored))
            == config.sync_timeout_ms,
        stored@ == settings(config, user_id)[5].1 ==> incoming::flag_set(Some(stored))
            == config.enable_e2ee,
        stored@ == settings(config, user_id)[4].1 ==> incoming::flag_set(Some(stored))
            == config.respond_to_all_room_messages,
{
    text::decimal_round_trip(config.sync_timeout_ms);
    reveal_strlit("true");
    reveal_strlit("false");
    assert("true"@.len() == 4 && "false"@.len() == 5);
}

/// Where E2EE fails to start, the channel starts all the same, and what is stored says that E2EE is
/// off.
pub proof fn failed_e2ee_does_not_fail_the_start(
    timeout: u32,
    init: InitCrypto,
    reply: HostReply,
    step: StartStep,
    next: StartStep,
    last: StartStep,
)
    requires
        OnStart::Initializing(timeout, init).moves(reply, step),
        forall|inner: Step<InitCrypto, Result<(), String>>| #[trigger]
            init.moves(reply, inner) ==> inner matches Step::Done(Err(_)),
        OnStart::Complaining(timeout).moves(HostReply::Finished, next),
        OnStart::FallingBack(timeout).moves(HostReply::Finished, last),
    ensures
        step matches Step::Ask(call, flow) && call@ is Log && flow == OnStart::Complaining(timeout),
        next.asks(
            sync::quiet_write("state/e2ee_enabled"@, "false"@),
            OnStart::FallingBack(timeout),
        ),
        OnStart::ends(timeout, last),
{
}

/// The channel is polled at most every 30 seconds, and no sooner than a sync can last.
pub proof fn polls_leave_time_for_the_sync(config: ChannelConfig, sync_timeout_ms: u32)
    requires
        is_channel_config(config, sync_timeout_ms),
    ensures
        config.poll is Some,
        config.poll->0.enabled,
        config.poll->0.interval_ms >= 30_000,
        config.poll->0.interval_ms >= sync_timeout_ms,
        config.poll->0.interval_ms == 30_000 || config.poll->0.interval_ms == sync_timeout_ms,
{
}

/// A step of the initialization of E2EE.
pub type InitStep = Step<InitCrypto, Result<(), String>>;

/// A course of the initialization of E2EE: its first step, the questions and answers, and its end.
pub struct InitRun {
    pub first: InitStep,
    pub calls: Seq<CallView>,
    pub replies: Seq<HostReply>,
    pub end: InitStep,
}

impl OnStart {
    /// What the flow does from an answer.
    pub open spec fn rule() -> host::Rule<OnStart, Result<ChannelConfig, String>> {
        |flow: OnStart, reply: HostReply, step: StartStep| flow.moves(reply, step)
    }

    /// What a step of the initialization of E2EE is as a step of the start.
    pub open spec fn takes_init(timeout: u32, inner: InitStep, step: StartStep) -> bool {
        inner.passes_to(step, |i: InitCrypto| OnStart::Initializing(timeout, i)) && match inner {
            Step::Done(Ok(_)) => Self::ends(timeout, step),
            Step::Done(Err(e)) => step.asks(
                host::error_entry("E2EE initialization failed: "@, e@),
                OnStart::Complaining(timeout),
            ),
            _ => true,
        }
    }
}

proof fn other_paths_are_left_alone(call: CallView)
    requires
        device::keeps_settings(call),
    ensures
        host::written_at(call, "state/e2ee_enabled"@) is None,
{
    reveal_strlit("state/e2ee_enabled");
    reveal_strlit("crypto/account.json");
    reveal_strlit("state/device_id");
    assert("state/e2ee_enabled"@.len() == 18);
    assert("crypto/account.json"@.len() == 19);
    assert("state/device_id"@.len() == 15);
    if let CallView::WriteAll(writes) = call {
        assert(writes.last() == writes[0]);
        assert(host::left_at(writes.drop_last(), "state/e2ee_enabled"@) is None);
    }
}

/// The flag that the settings hold for E2EE is the configured one.
proof fn settings_tell_e2ee(config: MatrixConfig, user_id: Seq<char>)
    ensures
        host::left_at(settings(config, user_id), "state/e2ee_enabled"@) == Some(
            json::bool_text(config.enable_e2ee),
        ),
{
    reveal_strlit("state/e2ee_enabled");
    reveal_strlit("state/sync_timeout_ms");
    assert("state/e2ee_enabled"@.len() == 18);
    assert("state/sync_timeout_ms"@.len() == 21);
    let all = settings(config, user_id);
    assert(all.last().0 == "state/sync_timeout_ms"@);
    assert(all.drop_last().last() == all[5]);
    assert(host::left_at(all.drop_last(), "state/e2ee_enabled"@) == Some(all[5].1));
}

proof fn initialization_runs(
    timeout: u32,
    inner: InitStep,
    step: StartStep,
    calls: Seq<CallView>,
    replies: Seq<HostReply>,
    last: StartStep,
) -> (r: (Seq<CallView>, Seq<HostReply>, InitStep))
    requires
        OnStart::takes_init(timeout, inner, step),
        inner matches Step::Ask(call, _) ==> device::keeps_settings(call@),
        host::runs(OnStart::rule(), step, calls, replies, last),
        last is Done,
    ensures
        host::runs(InitCrypto::rule(), inner, r.0, r.1, r.2),
        r.2 is Done,
        OnStart::ends(timeout, last),
        host::last_written(calls, "state/e2ee_enabled"@) == (if r.2->Done_0 is Ok {
            None
        } else {
            Some("false"@)
        }),
    decreases replies.len(),
{
    let rule = OnStart::rule();
    match inner {
        Step::Ask(call, init) => {
            let next = host::run_goes_on(rule, step, calls, replies, last);
            assert(OnStart::Initializing(timeout, init).moves(replies[0], next));
            let after = choose|after: InitStep|
                #![trigger init.moves(replies[0], after)]
                init.moves(replies[0], after) && OnStart::takes_init(timeout, after, next);
            device::initialization_keeps_settings(init, replies[0], after);
            let (sub_calls, sub_replies, end) = initialization_runs(
                timeout,
                after,
                next,
                calls.skip(1),
                replies.skip(1),
                last,
            );
            assert(InitCrypto::rule()(init, replies[0], after));
            host::run_is_led_to(
                InitCrypto::rule(),
                call,
                init,
                replies[0],
                after,
                sub_calls,
                sub_replies,
                end,
            );
            other_paths_are_left_alone(call@);
            (seq![call@] + sub_calls, seq![replies[0]] + sub_replies, end)
        },
        Step::Stray(_) => {
            host::run_is_over(rule, step, calls, replies, last);
            arbitrary()
        },
        Step::Done(Ok(_)) => {
            host::run_is_over(rule, step, calls, replies, last);
            (Seq::empty(), Seq::empty(), inner)
        },
        Step::Done(Err(_)) => {
            let second = host::run_goes_on(rule, step, calls, replies, last);
            if !(second is Ask) {
                host::run_is_over(rule, second, calls.skip(1), replies.skip(1), last);
            }
            let third = host::run_goes_on(rule, second, calls.skip(1), replies.skip(1), last);
            host::run_is_over(
                rule,
                third,
                calls.skip(1).skip(1),
                replies.skip(1).skip(1),
                last,
            );
            let path = "state/e2ee_enabled"@;
            let write = calls.skip(1)[0];
            assert(write == sync::quiet_write(path, "false"@));
            assert(seq![(path, "false"@)].last() == (path, "false"@));
            assert(host::written_at(write, path) == Some("false"@));
            assert(host::last_written(calls.skip(1).skip(1), path) is None);
            assert(host::last_written(calls.skip(1), path) == Some("false"@));
            (Seq::empty(), Seq::empty(), inner)
        },
    }
}

/// Whether the start has come out so: with the channel's configuration, and with E2EE told to be on if
/// and only if it is configured and its initialization, whose course is told as well, succeeds.
pub open spec fn is_started(
    config: MatrixConfig,
    calls: Seq<CallView>,
    last: StartStep,
    init: Option<InitRun>,
) -> bool {
    &&& OnStart::ends(config.sync_timeout_ms, last)
    &&& init is Some == config.enable_e2ee
    &&& match init {
        Some(run) => host::runs(
            InitCrypto::rule(),
            run.first,
            run.calls,
            run.replies,
            run.end,
        ) && (run.first matches Step::Ask(call, flow) && exists|
            homeserver_url: Seq<char>,
            user_id: Seq<char>,
            device_id: Seq<char>,
        | #[trigger]
            flow.begins(call, homeserver_url, user_id, device_id)) && run.end is Done,
        None => true,
    }
    &&& host::last_written(calls, "state/e2ee_enabled"@) == Some(
        json::bool_text(init matches Some(run) && run.end->Done_0 is Ok),
    )
}

proof fn persisted_start_runs(
    config: MatrixConfig,
    user_id: Seq<char>,
    step: StartStep,
    calls: Seq<CallView>,
    replies: Seq<HostReply>,
    last: StartStep,
) -> (init: Option<InitRun>)
    requires
        OnStart::persists(config, user_id, step),
        host::runs(OnStart::rule(), step, calls, replies, last),
        last is Done,
    ensures
        is_started(config, calls, last, init),
{
    let rule = OnStart::rule();
    let path = "state/e2ee_enabled"@;
    settings_tell_e2ee(config, user_id);
    let second = host::run_goes_on(rule, step, calls, replies, last);
    assert(host::written_at(calls[0], path) == Some(json::bool_text(config.enable_e2ee)));
    if !(second is Ask) {
        host::run_is_over(rule, second, calls.skip(1), replies.skip(1), last);
        None
    } else if second matches Step::Ask(_, OnStart::Inventing(_, _)) {
        let third = host::run_goes_on(rule, second, calls.skip(1), replies.skip(1), last);
        if !(third is Ask) {
            host::run_is_over(
                rule,
                third,
                calls.skip(1).skip(1),
                replies.skip(1).skip(1),
                last,
            );
        }
        let (call, init) = match third {
            Step::Ask(call, OnStart::Initializing(_, init)) => (call, init),
            _ => arbitrary(),
        };
        let first: InitStep = Step::Ask(call, init);
        let (sub_calls, sub_replies, end) = initialization_runs(
            config.sync_timeout_ms,
            first,
            third,
            calls.skip(1).skip(1),
            replies.skip(1).skip(1),
            last,
        );
        assert(calls.skip(1)[0] is Now);
        assert(host::last_written(calls.skip(1), path) == host::last_written(
            calls.skip(1).skip(1),
            path,
        ));
        Some(InitRun { first, calls: sub_calls, replies: sub_replies, end })
    } else {
        let (call, init) = match second {
            Step::Ask(call, OnStart::Initializing(_, init)) => (call, init),
            _ => arbitrary(),
        };
        let first: InitStep = Step::Ask(call, init);
        let (sub_calls, sub_replies, end) = initialization_runs(
            config.sync_timeout_ms,
            first,
            second,
            calls.skip(1),
            replies.skip(1),
            last,
        );
        Some(InitRun { first, calls: sub_calls, replies: sub_replies, end })
    }
}

/// A start with a homeserver URL and a user ID always succeeds, whether E2EE is configured or not and
/// whatever comes of it, and gives the same configuration of the channel. What it leaves stored says
/// that E2EE is on if and only if E2EE is configured and its initialization succeeds.
pub proof fn configured_start_succeeds(
    config: MatrixConfig,
    first: StartStep,
    calls: Seq<CallView>,
    replies: Seq<HostReply>,
    last: StartStep,
) -> (init: Option<InitRun>)
    requires
        config.homeserver_url@.len() > 0,
        !missing(config.user_id),
        OnStart::begins(Ok(config), first),
        host::runs(OnStart::rule(), first, calls, replies, last),
        last is Done,
    ensures
        is_started(config, calls, last, init),
{
    let rule = OnStart::rule();
    let second = host::run_goes_on(rule, first, calls, replies, last);
    if !(second is Ask) {
        host::run_is_over(rule, second, calls.skip(1), replies.skip(1), last);
    }
    persisted_start_runs(
        config,
        config.user_id->0@,
        second,
        calls.skip(1),
        replies.skip(1),
        last,
    )
}

impl OnPoll {
    /// What the flow does from an answer.
    pub open spec fn rule() -> host::Rule<OnPoll, ()> {
        |flow: OnPoll, reply: HostReply, step: OnPollStep| flow.moves(reply, step)
    }

    /// The least counter that the flow may still use, once its counters are reserved.
    pub open spec fn low(self) -> int {
        match self {
            OnPoll::Reserving(_, _, _, txn) => txn as int,
            OnPoll::Processing(_, _, txn, flow) => if flow.counter_left() is Some {
                txn - 1
            } else {
                txn as int
            },
            _ => 0,
        }
    }

    /// Whether its counters are reserved, and all that the flow may still use are below the limit.
    pub open spec fn stays_below(self, limit: int) -> bool {
        limit <= u64::MAX && match self {
            OnPoll::Reserving(_, events, _, txn) => txn + events@.len() <= limit,
            OnPoll::Processing(_, rest, txn, flow) => txn > 0 && (flow.counter_left() is Some
                ==> flow.counter_left()->0 == txn - 1) && txn + rest@.len() <= limit,
            _ => false,
        }
    }
}

/// Whether a step of a poll gives out counters in order.
pub open spec fn poll_counts_on(floor: int, limit: int, step: OnPollStep) -> bool {
    client::counts_on(
        |f: OnPoll| f.stays_below(limit),
        |f: OnPoll| f.low(),
        floor,
        limit,
        step,
    )
}

proof fn events_count_on(
    on: bool,
    left: Seq<(String, RoomEvent)>,
    txn: u64,
    sessions: Sessions,
    limit: int,
    step: OnPollStep,
)
    requires
        OnPoll::proceeds(on, left, txn, sessions, step),
        txn + left.len() <= limit <= u64::MAX,
    ensures
        poll_counts_on(txn as int, limit, step),
{
    if left.len() > 0 {
        assert(txn.wrapping_add(1) == txn + 1);
        let (inner, rest) = choose|inner: ProcessStep, rest: Vec<(String, RoomEvent)>|
            #![trigger ProcessIncoming::begins(left[0].0@, left[0].1, on, sessions, txn, inner), rest@]
            ProcessIncoming::begins(left[0].0@, left[0].1, on, sessions, txn, inner) && rest@
                == left.skip(1) && rest.len() < left.len() && OnPoll::processes(
                on,
                rest,
                txn.wrapping_add(1),
                inner,
                step,
            );
        assert(inner is Ask);
        assert(!client::sends(inner->Ask_0@));
    }
}

proof fn polling_counts_well(limit: int)
    ensures
        client::counts_well(
            OnPoll::rule(),
            |f: OnPoll| f.stays_below(limit),
            |f: OnPoll| f.low(),
            limit,
        ),
{
    let sound = |f: OnPoll| f.stays_below(limit);
    let low = |f: OnPoll| f.low();
    assert forall|flow: OnPoll, reply: HostReply, step: OnPollStep| #[trigger]
        host::goes(OnPoll::rule(), flow, reply, step) && sound(flow) implies client::counts_on(
        sound,
        low,
        low(flow),
        limit,
        step,
    ) by {
        match flow {
            OnPoll::Reserving(on, events, cache, txn) => {
                if reply is Finished {
                    events_count_on(on, events@, txn, cache@, limit, step);
                }
            },
            OnPoll::Processing(on, rest, txn, process) => {
                let inner = choose|inner: ProcessStep|
                    #![trigger process.moves(reply, inner)]
                    process.moves(reply, inner) && OnPoll::processes(on, rest, txn, inner, step);
                incoming::processing_spends_its_counter(process, reply, inner);
                if let Step::Done(cache) = inner {
                    events_count_on(on, rest@, txn, cache@, limit, step);
                }
            },
            _ => {},
        }
    }
}

/// A poll sends under transaction IDs of its own: before anything is sent, the counter after all those
/// that its events use is written; and what is sent, the pairing codes, bears the counters from the
/// stored one up to that, each above the ones before it.
pub proof fn polling_keeps_to_its_reserve(
    call: HostCall,
    on: bool,
    events: Vec<(String, RoomEvent)>,
    cache: MegolmSessionCache,
    stored: Option<String>,
    calls: Seq<CallView>,
    replies: Seq<HostReply>,
    last: OnPollStep,
) -> (r: (u64, Seq<u64>))
    requires
        host::runs(
            OnPoll::rule(),
            Step::Ask(call, OnPoll::Counting(on, events, cache)),
            calls,
            replies,
            last,
        ),
        call@ == CallView::Read("state/txn_counter"@),
        calls.len() > 1,
        replies[0] == HostReply::Text(stored),
        client::stored_counter(stored) + events@.len() <= u64::MAX,
    ensures
        calls[1] == client::reserve_call(r.0),
        r.0 == client::stored_counter(stored) + events@.len(),
        client::are_counters(calls, r.1, client::stored_counter(stored) as int, r.0 as int),
{
    let rule = OnPoll::rule();
    let first: OnPollStep = Step::Ask(call, OnPoll::Counting(on, events, cache));
    let second = host::run_goes_on(rule, first, calls, replies, last);
    let txn = client::stored_counter(stored);
    let next: u64 = txn.wrapping_add(events.len() as u64);
    assert(next == txn + events@.len());
    polling_counts_well(next as int);
    let rest = client::run_counts(
        rule,
        |f: OnPoll| f.stays_below(next as int),
        |f: OnPoll| f.low(),
        txn as int,
        next as int,
        second,
        calls.skip(1),
        replies.skip(1),
        last,
    );
    assert(calls.skip(1)[0] == calls[1]);
    client::counters_with_first(calls, rest, txn as int, next as int);
    (next, seq![0u64] + rest)
}

/// A sync that the server refuses, as it does with 429 where it is asked too often, ends the poll: the
/// refusal is logged, no message is processed, and the server is not asked again before the next poll,
/// for which `polls_leave_time_for_the_sync` tells the interval.
pub proof fn refused_sync_ends_the_poll(
    call: HostCall,
    on: bool,
    poll: sync::Poll,
    initial: bool,
    response: Result<host::ParsedResponse<crate::types::SyncResponse>, String>,
    calls: Seq<CallView>,
    replies: Seq<HostReply>,
    last: OnPollStep,
)
    requires
        host::runs(
            OnPoll::rule(),
            Step::Ask(call, OnPoll::Polling(on, PollSync::Syncing(poll, initial))),
            calls,
            replies,
            last,
        ),
        last is Done,
        replies[0] == HostReply::Sync(response),
        client::accepted(response, "sync"@, "sync response"@) is Err,
    ensures
        calls.len() == 2,
        calls[1] == host::error_entry(
            "Sync failed: "@,
            client::accepted(response, "sync"@, "sync response"@)->Err_0,
        ),
{
    let rule = OnPoll::rule();
    let syncing = PollSync::Syncing(poll, initial);
    let first: OnPollStep = Step::Ask(call, OnPoll::Polling(on, syncing));
    let second = host::run_goes_on(rule, first, calls, replies, last);
    let (c1, r1) = (calls.skip(1), replies.skip(1));
    assert(second matches Step::Ask(_, OnPoll::Polling(_, PollSync::Failing)));
    let third = host::run_goes_on(rule, second, c1, r1, last);
    assert(c1[0] == calls[1]);
    assert forall|inner: sync::PollStep| PollSync::Failing.moves(r1[0], inner) implies !(inner is Ask)
        && (inner matches Step::Done((found, _)) ==> found.len() == 0) by {
        if let Step::Done((found, _)) = inner {
            assert(sync::message_views(found@).len() == found@.len());
        }
    }
    host::run_is_over(rule, third, c1.skip(1), r1.skip(1), last);
}

/// How the processing of one event goes within a poll: where it starts and ends, its first step, the
/// sessions that it starts with, its counter, and the sessions that it leaves.
pub struct EventRun {
    pub start: int,
    pub end: int,
    pub first: ProcessStep,
    pub sessions: Sessions,
    pub txn: u64,
    pub cache: MegolmSessionCache,
}

/// Whether these are whole runs of the processing of these events, one after the other, from this question
/// on and up to the last, each with the sessions that the one before it leaves.
pub open spec fn are_processed_in_order(
    runs: Seq<EventRun>,
    events: Seq<(String, RoomEvent)>,
    on: bool,
    sessions: Sessions,
    calls: Seq<CallView>,
    replies: Seq<HostReply>,
    from: int,
) -> bool {
    &&& runs.len() == events.len()
    &&& calls.len() == replies.len()
    &&& calls.len() == (if runs.len() == 0 {
        from
    } else {
        runs.last().end
    })
    &&& forall|k: int| 0 <= k < runs.len() ==> is_processed(
        #[trigger] runs[k],
        events[k],
        on,
        if k == 0 {
            sessions
        } else {
            runs[k - 1].cache@
        },
        calls,
        replies,
        if k == 0 {
            from
        } else {
            runs[k - 1].end
        },
    )
}

/// Whether this is a whole run of the processing of an event in its room, from this question on.
pub open spec fn is_processed(
    run: EventRun,
    event: (String, RoomEvent),
    on: bool,
    sessions: Sessions,
    calls: Seq<CallView>,
    replies: Seq<HostReply>,
    from: int,
) -> bool {
    &&& run.start == from
    &&& 0 <= run.start <= run.end <= calls.len()
    &&& run.sessions == sessions
    &&& ProcessIncoming::begins(event.0@, event.1, on, sessions, run.txn, run.first)
    &&& host::runs(
        ProcessIncoming::rule(),
        run.first,
        calls.subrange(run.start, run.end),
        replies.subrange(run.start, run.end),
        Step::Done(run.cache),
    )
}

#[verifier::rlimit(40)]
proof fn events_left_are_processed(
    on: bool,
    left: Seq<(String, RoomEvent)>,
    txn: u64,
    sessions: Sessions,
    first: OnPollStep,
    calls: Seq<CallView>,
    replies: Seq<HostReply>,
    from: int,
) -> (runs: Seq<EventRun>)
    requires
        0 <= from <= calls.len(),
        calls.len() == replies.len(),
        OnPoll::proceeds(on, left, txn, sessions, first),
        host::runs(
            OnPoll::rule(),
            first,
            calls.skip(from),
            replies.skip(from),
            Step::Done(()),
        ),
    ensures
        are_processed_in_order(runs, left, on, sessions, calls, replies, from),
    decreases left.len(),
{
    let rule = OnPoll::rule();
    let last: OnPollStep = Step::Done(());
    let (cf, rf) = (calls.skip(from), replies.skip(from));
    if left.len() == 0 {
        host::run_is_over(rule, first, cf, rf, last);
        Seq::empty()
    } else {
        let next: u64 = txn.wrapping_add(1);
        let (inner, rest) = choose|inner: ProcessStep, rest: Vec<(String, RoomEvent)>|
            #![trigger ProcessIncoming::begins(left[0].0@, left[0].1, on, sessions, txn, inner), rest@]
            ProcessIncoming::begins(left[0].0@, left[0].1, on, sessions, txn, inner) && rest@
                == left.skip(1) && rest.len() < left.len() && OnPoll::processes(
                on,
                rest,
                txn.wrapping_add(1),
                inner,
                first,
            );
        let (k, cache, step) = event_is_processed(on, rest, next, inner, first, cf, rf);
        let end = from + k;
        assert(cf.take(k) =~= calls.subrange(from, end));
        assert(rf.take(k) =~= replies.subrange(from, end));
        assert(cf.skip(k) =~= calls.skip(end) && rf.skip(k) =~= replies.skip(end));
        let run = EventRun { start: from, end, first: inner, sessions, txn, cache };
        let later = events_left_are_processed(
            on,
            rest@,
            next,
            cache@,
            step,
            calls,
            replies,
            end,
        );
        assert(rest@ =~= left.skip(1));
        one_more_is_processed(run, later, left, on, sessions, calls, replies, from);
        seq![run] + later
    }
}

proof fn one_more_is_processed(
    run: EventRun,
    later: Seq<EventRun>,
    events: Seq<(String, RoomEvent)>,
    on: bool,
    sessions: Sessions,
    calls: Seq<CallView>,
    replies: Seq<HostReply>,
    from: int,
)
    requires
        events.len() > 0,
        is_processed(run, events[0], on, sessions, calls, replies, from),
        are_processed_in_order(
            later,
            events.skip(1),
            on,
            run.cache@,
            calls,
            replies,
            run.end,
        ),
    ensures
        are_processed_in_order(seq![run] + later, events, on, sessions, calls, replies, from),
{
    let runs = seq![run] + later;
    if later.len() > 0 {
        assert(runs.last() == later.last());
    } else {
        assert(runs.last() == run);
    }
    assert forall|i: int| 0 <= i < runs.len() implies is_processed(
        #[trigger] runs[i],
        events[i],
        on,
        if i == 0 {
            sessions
        } else {
            runs[i - 1].cache@
        },
        calls,
        replies,
        if i == 0 {
            from
        } else {
            runs[i - 1].end
        },
    ) by {
        if i > 0 {
            assert(later[i - 1] == runs[i]);
            assert(events.skip(1)[i - 1] == events[i]);
            if i > 1 {
                assert(later[i - 2] == runs[i - 1]);
            }
        }
    }
}

/// The processing of one event within a poll: how many questions it asks, the sessions that it leaves, and
/// the step after it.
proof fn event_is_processed(
    on: bool,
    rest: Vec<(String, RoomEvent)>,
    txn: u64,
    inner: ProcessStep,
    first: OnPollStep,
    calls: Seq<CallView>,
    replies: Seq<HostReply>,
) -> (r: (int, MegolmSessionCache, OnPollStep))
    requires
        OnPoll::processes(on, rest, txn, inner, first),
        host::runs(OnPoll::rule(), first, calls, replies, Step::Done(())),
    ensures
        0 <= r.0 <= calls.len(),
        calls.len() == replies.len(),
        host::runs(
            ProcessIncoming::rule(),
            inner,
            calls.take(r.0),
            replies.take(r.0),
            Step::Done(r.1),
        ),
        OnPoll::proceeds(on, rest@, txn, r.1@, r.2),
        host::runs(OnPoll::rule(), r.2, calls.skip(r.0), replies.skip(r.0), Step::Done(())),
{
    let rule = OnPoll::rule();
    let inner_rule = ProcessIncoming::rule();
    let last: OnPollStep = Step::Done(());
    let whole = |p: ProcessIncoming| OnPoll::Processing(on, rest, txn, p);
    let after = |cache: MegolmSessionCache, step: OnPollStep|
        OnPoll::proceeds(on, rest@, txn, cache@, step);
    match inner {
        Step::Ask(call, flow) => {
            assert forall|flow: ProcessIncoming, reply: HostReply, step: OnPollStep| #[trigger]
                host::goes(rule, whole(flow), reply, step) implies host::passes_on(
                inner_rule,
                whole,
                after,
                flow,
                reply,
                step,
            ) by {
                let within = choose|within: ProcessStep|
                    #![trigger flow.moves(reply, within)]
                    flow.moves(reply, within) && OnPoll::processes(on, rest, txn, within, step);
                assert(host::goes(inner_rule, flow, reply, within));
                assert(within matches Step::Done(cache) ==> after(cache, step));
            }
            host::inner_run_ends(
                inner_rule,
                rule,
                whole,
                after,
                call,
                flow,
                calls,
                replies,
                last,
            )
        },
        Step::Done(cache) => {
            assert(calls.take(0) =~= Seq::empty() && replies.take(0) =~= Seq::empty());
            assert(calls.skip(0) =~= calls && replies.skip(0) =~= replies);
            (0, cache, first)
        },
        Step::Stray(_) => {
            host::run_is_over(rule, first, calls, replies, last);
            arbitrary()
        },
    }
}

/// How a poll goes: where the polling of the server ends, and what it gives; and how each of its events is
/// processed.
pub struct PolledRun {
    pub poll_end: int,
    pub poll_call: HostCall,
    pub poll: PollSync,
    pub events: Vec<(String, RoomEvent)>,
    pub cache: MegolmSessionCache,
    pub runs: Seq<EventRun>,
}

/// Every message that a poll finds is processed. With the stored homeserver URL and user ID, the server is
/// polled once, as the stored settings tell; and then each event that this gives is processed, in order,
/// the first with the sessions of the room keys that came with them, and each with those that the one
/// before it leaves. Nothing else is done.
pub proof fn every_message_is_processed(
    call: HostCall,
    calls: Seq<CallView>,
    replies: Seq<HostReply>,
    url: String,
    user_id: String,
    flag: Option<String>,
    timeout: Option<String>,
) -> (r: PolledRun)
    requires
        call@ == CallView::Read("state/homeserver_url"@),
        host::runs(
            OnPoll::rule(),
            Step::Ask(call, OnPoll::Homeserver),
            calls,
            replies,
            Step::Done(()),
        ),
        replies[0] == HostReply::Text(Some(url)),
        url@.len() > 0,
        replies[1] == HostReply::Text(Some(user_id)),
        user_id@.len() > 0,
        replies[2] == HostReply::Text(flag),
        replies[3] == HostReply::Text(timeout),
    ensures
        calls.len() == replies.len(),
        4 < r.poll_end <= calls.len(),
        calls[1] == CallView::Read("state/user_id"@),
        calls[2] == CallView::Read("state/e2ee_enabled"@),
        calls[3] == CallView::Read("state/sync_timeout_ms"@),
        r.poll.begins(
            r.poll_call,
            url@,
            stored_timeout(timeout),
            user_id@,
            json::opt_text(flag) == Some("true"@),
        ),
        host::runs(
            PollSync::rule(),
            Step::Ask(r.poll_call, r.poll),
            calls.subrange(4, r.poll_end),
            replies.subrange(4, r.poll_end),
            Step::Done((r.events, r.cache)),
        ),
        if r.events@.len() == 0 {
            r.poll_end == calls.len()
        } else {
            r.poll_end + 2 <= calls.len() && calls[r.poll_end] == CallView::Read(
                "state/txn_counter"@,
            ) && are_processed_in_order(
                r.runs,
                r.events@,
                json::opt_text(flag) == Some("true"@),
                r.cache@,
                calls,
                replies,
                r.poll_end + 2,
            )
        },
{
    let rule = OnPoll::rule();
    let last: OnPollStep = Step::Done(());
    let s1 = host::run_goes_on(rule, Step::Ask(call, OnPoll::Homeserver), calls, replies, last);
    let (c1, r1) = (calls.skip(1), replies.skip(1));
    assert(s1.asks(CallView::Read("state/user_id"@), OnPoll::User(url)));
    let s2 = host::run_goes_on(rule, s1, c1, r1, last);
    let (c2, r2) = (c1.skip(1), r1.skip(1));
    assert(c1[0] == calls[1] && r1[0] == replies[1]);
    assert(s2.asks(CallView::Read("state/e2ee_enabled"@), OnPoll::E2ee(url, user_id)));
    let s3 = host::run_goes_on(rule, s2, c2, r2, last);
    let (c3, r3) = (c2.skip(1), r2.skip(1));
    assert(c2[0] == calls[2] && r2[0] == replies[2]);
    let on = incoming::flag_set(flag);
    assert(s3.asks(
        CallView::Read("state/sync_timeout_ms"@),
        OnPoll::Timeout(url, user_id, on),
    ));
    let s4 = host::run_goes_on(rule, s3, c3, r3, last);
    let (c4, r4) = (c3.skip(1), r3.skip(1));
    assert(c3[0] == calls[3] && r3[0] == replies[3]);
    assert(c4 =~= calls.skip(4) && r4 =~= replies.skip(4));
    let (poll_call, poll) = match s4 {
        Step::Ask(poll_call, OnPoll::Polling(_, poll)) => (poll_call, poll),
        _ => arbitrary(),
    };
    assert(s4 == Step::<OnPoll, ()>::Ask(poll_call, OnPoll::Polling(on, poll)));
    let (k, events, cache, s5) = server_is_polled(on, poll_call, poll, c4, r4);
    let poll_end = 4 + k;
    let (c5, r5) = (calls.skip(poll_end), replies.skip(poll_end));
    assert(c4.take(k) =~= calls.subrange(4, poll_end));
    assert(r4.take(k) =~= replies.subrange(4, poll_end));
    assert(c4.skip(k) =~= c5 && r4.skip(k) =~= r5);
    if events@.len() == 0 {
        host::run_is_over(rule, s5, c5, r5, last);
        PolledRun { poll_end, poll_call, poll, events, cache, runs: Seq::empty() }
    } else {
        let s6 = host::run_goes_on(rule, s5, c5, r5, last);
        let (c6, r6) = (c5.skip(1), r5.skip(1));
        assert(c5[0] == calls[poll_end]);
        if s6 is Stray {
            host::run_is_over(rule, s6, c6, r6, last);
        }
        let s7 = host::run_goes_on(rule, s6, c6, r6, last);
        let (c7, r7) = (c6.skip(1), r6.skip(1));
        assert(c7 =~= calls.skip(poll_end + 2) && r7 =~= replies.skip(poll_end + 2));
        let txn = match s6 {
            Step::Ask(_, OnPoll::Reserving(_, _, _, txn)) => txn,
            _ => arbitrary(),
        };
        if !(r6[0] is Finished) {
            host::run_is_over(rule, s7, c7, r7, last);
        }
        let runs = events_left_are_processed(
            on,
            events@,
            txn,
            cache@,
            s7,
            calls,
            replies,
            poll_end + 2,
        );
        PolledRun { poll_end, poll_call, poll, events, cache, runs }
    }
}

/// The polling of the server: how many questions it asks, what it gives, and the step after it.
proof fn server_is_polled(
    on: bool,
    call: HostCall,
    poll: PollSync,
    calls: Seq<CallView>,
    replies: Seq<HostReply>,
) -> (r: (int, Vec<(String, RoomEvent)>, MegolmSessionCache, OnPollStep))
    requires
        host::runs(
            OnPoll::rule(),
            Step::Ask(call, OnPoll::Polling(on, poll)),
            calls,
            replies,
            Step::Done(()),
        ),
    ensures
        0 < r.0 <= calls.len(),
        calls.len() == replies.len(),
        host::runs(
            PollSync::rule(),
            Step::Ask(call, poll),
            calls.take(r.0),
            replies.take(r.0),
            Step::Done((r.1, r.2)),
        ),
        if r.1@.len() == 0 {
            r.3.gives(())
        } else {
            r.3.asks(CallView::Read("state/txn_counter"@), OnPoll::Counting(on, r.1, r.2))
        },
        host::runs(OnPoll::rule(), r.3, calls.skip(r.0), replies.skip(r.0), Step::Done(())),
{
    let rule = OnPoll::rule();
    let inner_rule = PollSync::rule();
    let last: OnPollStep = Step::Done(());
    let whole = |p: PollSync| OnPoll::Polling(on, p);
    let after = |found: (Vec<(String, RoomEvent)>, MegolmSessionCache), step: OnPollStep|
        if found.0.len() == 0 {
            step.gives(())
        } else {
            step.asks(
                CallView::Read("state/txn_counter"@),
                OnPoll::Counting(on, found.0, found.1),
            )
        };
    assert forall|flow: PollSync, reply: HostReply, step: OnPollStep| #[trigger]
        host::goes(rule, whole(flow), reply, step) implies host::passes_on(
        inner_rule,
        whole,
        after,
        flow,
        reply,
        step,
    ) by {
        let inner = choose|inner: sync::PollStep|
            #![trigger flow.moves(reply, inner)]
            flow.moves(reply, inner) && inner.passes_to(step, |p: PollSync| OnPoll::Polling(on, p))
                && match inner {
                Step::Done((events, cache)) => if events.len() == 0 {
                    step.gives(())
                } else {
                    step.asks(
                        CallView::Read("state/txn_counter"@),
                        OnPoll::Counting(on, events, cache),
                    )
                },
                _ => true,
            };
        assert(host::goes(inner_rule, flow, reply, inner));
        assert(inner matches Step::Done(found) ==> after(found, step));
    }
    let (k, found, step) = host::inner_run_ends(
        inner_rule,
        rule,
        whole,
        after,
        call,
        poll,
        calls,
        replies,
        last,
    );
    (k, found.0, found.1, step)
}

/// Whether this is one of the settings that a start persists and nothing changes afterwards.
pub open spec fn is_lasting_setting(path: Seq<char>) -> bool {
    ||| path == "state/user_id"@
    ||| path == "state/dm_policy"@
    ||| path == "state/allow_from"@
    ||| path == "state/allowed_room_ids"@
    ||| path == "state/respond_to_all_room_messages"@
    ||| path == "state/sync_timeout_ms"@
    ||| path == "state/homeserver_url"@
}

/// The value that a start persists of a setting.
pub open spec fn lasting_value(
    config: MatrixConfig,
    url: Seq<char>,
    user_id: Seq<char>,
    path: Seq<char>,
) -> Seq<char> {
    if path == "state/user_id"@ {
        user_id
    } else if path == "state/dm_policy"@ {
        config.dm_policy@
    } else if path == "state/allow_from"@ {
        json::string_array_text(text::texts(config.allow_from@))
    } else if path == "state/allowed_room_ids"@ {
        json::string_array_text(text::texts(config.allowed_room_ids@))
    } else if path == "state/respond_to_all_room_messages"@ {
        if config.respond_to_all_room_messages {
            "true"@
        } else {
            "false"@
        }
    } else if path == "state/sync_timeout_ms"@ {
        text::decimal_text(config.sync_timeout_ms as nat)
    } else {
        url
    }
}

proof fn settings_differ()
    ensures
        "state/user_id"@.len() == 13,
        "state/dm_policy"@.len() == 15,
        "state/allow_from"@.len() == 16,
        "state/allowed_room_ids"@.len() == 22,
        "state/respond_to_all_room_messages"@.len() == 34,
        "state/sync_timeout_ms"@.len() == 21,
        "state/homeserver_url"@.len() == 20,
        "state/e2ee_enabled"@.len() == 18,
        "crypto/account.json"@.len() == 19,
        "state/device_id"@.len() == 15,
        "state/device_id"@[7] != "state/dm_policy"@[7],
{
    reveal_strlit("state/user_id");
    reveal_strlit("state/dm_policy");
    reveal_strlit("state/allow_from");
    reveal_strlit("state/allowed_room_ids");
    reveal_strlit("state/respond_to_all_room_messages");
    reveal_strlit("state/sync_timeout_ms");
    reveal_strlit("state/homeserver_url");
    reveal_strlit("state/e2ee_enabled");
    reveal_strlit("crypto/account.json");
    reveal_strlit("state/device_id");
}

/// Whether a question leaves the settings alone but for the flag of E2EE.
spec fn leaves_settings(call: CallView) -> bool {
    device::keeps_settings(call) || call == sync::quiet_write("state/e2ee_enabled"@, "false"@)
}

proof fn setting_is_left_alone(call: CallView, path: Seq<char>)
    requires
        leaves_settings(call),
        is_lasting_setting(path),
    ensures
        host::written_at(call, path) is None,
{
    settings_differ();
    if let CallView::WriteAll(writes) = call {
        assert(writes.len() == 1);
        assert(writes.last() == writes[0]);
        assert(writes[0].0 != path);
        assert(host::left_at(writes.drop_last(), path) is None);
    }
}

proof fn nothing_more_is_written(
    step: StartStep,
    calls: Seq<CallView>,
    replies: Seq<HostReply>,
    last: StartStep,
    path: Seq<char>,
)
    requires
        host::runs(OnStart::rule(), step, calls, replies, last),
        is_lasting_setting(path),
        step matches Step::Ask(call, flow) ==> leaves_settings(call@) && (flow is Inventing
            || flow is Initializing || flow is Complaining || flow is FallingBack),
    ensures
        host::last_written(calls, path) is None,
    decreases replies.len(),
{
    if replies.len() > 0 {
        let next = host::run_goes_on(OnStart::rule(), step, calls, replies, last);
        setting_is_left_alone(calls[0], path);
        if let OnStart::Initializing(timeout, init) = step->Ask_1 {
            let inner = choose|inner: InitStep|
                #![trigger init.moves(replies[0], inner)]
                init.moves(replies[0], inner) && OnStart::takes_init(timeout, inner, next);
            device::initialization_keeps_settings(init, replies[0], inner);
        }
        nothing_more_is_written(next, calls.skip(1), replies.skip(1), last, path);
    }
}

proof fn setting_is_among_the_written(
    config: MatrixConfig,
    user_id: Seq<char>,
    path: Seq<char>,
)
    requires
        is_lasting_setting(path),
    ensures
        host::left_at(settings(config, user_id), path) == (if path == "state/homeserver_url"@ {
            None
        } else {
            Some(lasting_value(config, Seq::empty(), user_id, path))
        }),
{
    settings_differ();
    let all = settings(config, user_id);
    let six = all.drop_last();
    let five = six.drop_last();
    let four = five.drop_last();
    let three = four.drop_last();
    let two = three.drop_last();
    let one = two.drop_last();
    assert(all.last() == all[6] && six.last() == all[5] && five.last() == all[4] && four.last()
        == all[3] && three.last() == all[2] && two.last() == all[1] && one.last() == all[0]);
    assert(one.drop_last().len() == 0);
    assert(host::left_at(one.drop_last(), path) is None);
    reveal_with_fuel(host::left_at, 8);
}

/// How a start persists the settings, from the point where it has a homeserver URL and a user ID.
proof fn settings_are_persisted(
    config: MatrixConfig,
    user_id: Seq<char>,
    step: StartStep,
    calls: Seq<CallView>,
    replies: Seq<HostReply>,
    last: StartStep,
    path: Seq<char>,
)
    requires
        OnStart::persists(config, user_id, step),
        host::runs(OnStart::rule(), step, calls, replies, last),
        last is Done,
        is_lasting_setting(path),
    ensures
        host::last_written(calls, path) == (if path == "state/homeserver_url"@ {
            None
        } else {
            Some(lasting_value(config, Seq::empty(), user_id, path))
        }),
{
    let rule = OnStart::rule();
    setting_is_among_the_written(config, user_id, path);
    let second = host::run_goes_on(rule, step, calls, replies, last);
    if second is Stray {
        host::run_is_over(rule, second, calls.skip(1), replies.skip(1), last);
    }
    nothing_more_is_written(second, calls.skip(1), replies.skip(1), last, path);
}

/// What a start leaves stored is what it was configured with. Where it succeeds, each setting that is
/// written last is the configured one: the whole list of allowed senders, the whole list of allowed rooms,
/// the policy, the flag to respond to all, and the sync timeout. The homeserver URL and the user ID are the
/// configured ones, or those that were stored, or for the user ID the one that /whoami tells.
pub proof fn start_persists_its_configuration(
    config: MatrixConfig,
    first: StartStep,
    calls: Seq<CallView>,
    replies: Seq<HostReply>,
    given: ChannelConfig,
) -> (r: (Seq<char>, Seq<char>))
    requires
        OnStart::begins(Ok(config), first),
        host::runs(OnStart::rule(), first, calls, replies, Step::Done(Ok(given))),
    ensures
        r.0.len() > 0,
        config.homeserver_url@.len() > 0 ==> r.0 == config.homeserver_url@,
        config.homeserver_url@.len() == 0 ==> calls.contains(
            CallView::Read("state/homeserver_url"@),
        ),
        config.user_id matches Some(user_id) ==> user_id@.len() > 0 ==> r.1 == user_id@,
        config.user_id is None ==> calls.contains(CallView::Read("state/user_id"@)),
        forall|path: Seq<char>| #[trigger]
            is_lasting_setting(path) ==> host::last_written(calls, path) == Some(
                lasting_value(config, r.0, r.1, path),
            ),
{
    let rule = OnStart::rule();
    let last: StartStep = Step::Done(Ok(given));
    let has_url = config.homeserver_url@.len() > 0;
    if has_url {
        start_with_url_persists(config, first, calls, replies, last)
    } else {
        let second = host::run_goes_on(rule, first, calls, replies, last);
        let (c1, r1) = (calls.skip(1), replies.skip(1));
        if second is Stray {
            host::run_is_over(rule, second, c1, r1, last);
        }
        assert(calls[0] == CallView::Read("state/homeserver_url"@));
        let stored = replies[0]->Text_0;
        let known = match sync::nonempty(stored) {
            Some(url) => MatrixConfig { homeserver_url: url, ..config },
            None => config,
        };
        let r = start_with_url_persists(known, second, c1, r1, last);
        if config.user_id is None {
            let asked = CallView::Read("state/user_id"@);
            let i = choose|i: int| 0 <= i < c1.len() && c1[i] == asked;
            assert(calls[i + 1] == asked);
        }
        assert forall|path: Seq<char>| #[trigger] is_lasting_setting(path) implies host::last_written(
            calls,
            path,
        ) == Some(lasting_value(config, r.0, r.1, path)) by {
            assert(host::last_written(c1, path) == Some(lasting_value(known, r.0, r.1, path)));
        }
        r
    }
}

proof fn start_with_url_persists(
    config: MatrixConfig,
    first: StartStep,
    calls: Seq<CallView>,
    replies: Seq<HostReply>,
    last: StartStep,
) -> (r: (Seq<char>, Seq<char>))
    requires
        OnStart::has_url(config, first),
        host::runs(OnStart::rule(), first, calls, replies, last),
        last is Done,
        last->Done_0 is Ok,
    ensures
        r.0.len() > 0,
        r.0 == config.homeserver_url@,
        config.user_id matches Some(user_id) ==> user_id@.len() > 0 ==> r.1 == user_id@,
        config.user_id is None ==> calls.contains(CallView::Read("state/user_id"@)),
        forall|path: Seq<char>| #[trigger]
            is_lasting_setting(path) ==> host::last_written(calls, path) == Some(
                lasting_value(config, r.0, r.1, path),
            ),
{
    let rule = OnStart::rule();
    if missing(config.user_id) {
        let second = host::run_goes_on(rule, first, calls, replies, last);
        let (c1, r1) = (calls.skip(1), replies.skip(1));
        if second is Stray {
            host::run_is_over(rule, second, c1, r1, last);
        }
        assert(calls[0] == CallView::Read("state/user_id"@));
        let known = match sync::nonempty(replies[0]->Text_0) {
            Some(user_id) => MatrixConfig { user_id: Some(user_id), ..config },
            None => config,
        };
        let r = recorded_start_persists(known, second, c1, r1, last);
        assert forall|path: Seq<char>| #[trigger] is_lasting_setting(path) implies host::last_written(
            calls,
            path,
        ) == Some(lasting_value(config, r.0, r.1, path)) by {
            assert(host::last_written(c1, path) == Some(lasting_value(known, r.0, r.1, path)));
        }
        r
    } else {
        recorded_start_persists(config, first, calls, replies, last)
    }
}

proof fn recorded_start_persists(
    config: MatrixConfig,
    first: StartStep,
    calls: Seq<CallView>,
    replies: Seq<HostReply>,
    last: StartStep,
) -> (r: (Seq<char>, Seq<char>))
    requires
        OnStart::records(config, first),
        host::runs(OnStart::rule(), first, calls, replies, last),
        last is Done,
        last->Done_0 is Ok,
    ensures
        r.0.len() > 0,
        r.0 == config.homeserver_url@,
        config.user_id matches Some(user_id) ==> user_id@.len() > 0 ==> r.1 == user_id@,
        forall|path: Seq<char>| #[trigger]
            is_lasting_setting(path) ==> host::last_written(calls, path) == Some(
                lasting_value(config, r.0, r.1, path),
            ),
{
    let rule = OnStart::rule();
    let url = config.homeserver_url@;
    if url.len() == 0 {
        host::run_is_over(rule, first, calls, replies, last);
    }
    let second = host::run_goes_on(rule, first, calls, replies, last);
    let (c1, r1) = (calls.skip(1), replies.skip(1));
    if second is Stray {
        host::run_is_over(rule, second, c1, r1, last);
    }
    let (user_id, step, n) = if second matches Step::Ask(_, OnStart::Detecting(_)) {
        let third = host::run_goes_on(rule, second, c1, r1, last);
        if !(third is Ask) {
            host::run_is_over(rule, third, c1.skip(1), r1.skip(1), last);
        }
        let response = r1[0]->Whoami_0;
        (
            client::accepted(response, "whoami"@, "whoami response"@)->Ok_0.user_id@,
            third,
            2int,
        )
    } else {
        (config.user_id->0@, second, 1int)
    };
    let (cn, rn) = if n == 2 {
        (c1.skip(1), r1.skip(1))
    } else {
        (c1, r1)
    };
    assert forall|path: Seq<char>| #[trigger] is_lasting_setting(path) implies host::last_written(
        calls,
        path,
    ) == Some(lasting_value(config, url, user_id, path)) by {
        settings_differ();
        settings_are_persisted(config, user_id, step, cn, rn, last, path);
        if n == 2 {
            assert(c1[0] is Whoami);
            assert(host::last_written(c1, path) == host::last_written(cn, path));
        }
        let write = seq![("state/homeserver_url"@, url)];
        assert(calls[0] == CallView::WriteAll(write));
        assert(write.last() == ("state/homeserver_url"@, url));
        assert(host::left_at(write.drop_last(), path) is None);
        assert(host::written_at(calls[0], path) == (if path == "state/homeserver_url"@ {
            Some(url)
        } else {
            None
        }));
    }
    (url, user_id)
}

/// A start fails only where no homeserver URL is configured or stored, or where no user ID is and the server does
/// not tell it.
pub proof fn start_fails_with_cause(flow: OnStart, reply: HostReply, e: String)
    requires
        flow.moves(reply, Step::Done(Err(e))),
    ensures
        match flow {
            OnStart::Url(_) => host::is_setback(reply),
            OnStart::User(config) => config.homeserver_url@.len() == 0,
            OnStart::Detecting(config) => host::is_setback(reply),
            _ => false,
        },
{
    if let OnStart::Initializing(timeout, init) = flow {
        let step: StartStep = Step::Done(Err(e));
        let inner = choose|inner: Step<InitCrypto, Result<(), String>>|
            #![trigger init.moves(reply, inner)]
            init.moves(reply, inner) && inner.passes_to(
                step,
                |i: InitCrypto| OnStart::Initializing(timeout, i),
            ) && match inner {
                Step::Done(Ok(_)) => OnStart::ends(timeout, step),
                Step::Done(Err(e)) => step.asks(
                    host::error_entry("E2EE initialization failed: "@, e@),
                    OnStart::Complaining(timeout),
                ),
                _ => true,
            };
        assert(inner is Done);
    }
}

/// With E2EE configured, it is initialized for the configured server and user, and for the configured device, or
/// for one that is named after the time where none is configured. Without, nothing is initialized.
pub proof fn start_initializes_its_device(
    config: MatrixConfig,
    user_id: String,
    step: StartStep,
    now: u64,
    later: StartStep,
)
    requires
        OnStart::Persisting(config, user_id).moves(HostReply::Finished, step),
        OnStart::Inventing(config, user_id).moves(HostReply::Time(now), later),
    ensures
        !config.enable_e2ee ==> step matches Step::Done(Ok(_)),
        config.enable_e2ee && (config.device_id is None || config.device_id->0@.len() == 0)
            ==> step == Step::<OnStart, Result<ChannelConfig, String>>::Ask(
            step->Ask_0,
            OnStart::Inventing(config, user_id),
        ) && step->Ask_0@ == CallView::Now,
        config.enable_e2ee && config.device_id is Some && config.device_id->0@.len() > 0 ==> (
        step matches Step::Ask(call, OnStart::Initializing(_, init)) && init.begins(
            call,
            config.homeserver_url@,
            user_id@,
            config.device_id->0@,
        )),
        later matches Step::Ask(call, OnStart::Initializing(_, init)) && init.begins(
            call,
            config.homeserver_url@,
            user_id@,
            "IRONCLAW_"@ + text::decimal_text(now as nat),
        ),
{
}

} // verus!
