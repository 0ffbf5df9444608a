//! What the channel asks of its host, and what the host answers.
//!
//! The channel does no input or output of its own. An operation that needs some is a flow: a value
//! that holds how far the operation has come. A step of a flow either asks the host for something,
//! and is resumed with the host's answer, or is done.

use vstd::prelude::*;

use crate::crypto_store::{
    StoredAccount, StoredInboundMegolmSession, StoredOlmSession, StoredOutboundMegolmSession,
};
use crate::text;
use crate::types::{
    KeysClaimResponse, KeysQueryResponse, KeysUploadResponse, SendEventResponse, SyncResponse,
    WhoamiResponse,
};

verus! {

// ---------------------------------------------------------------------------
// HTTP
// ---------------------------------------------------------------------------

/// The method of an HTTP request.
#[derive(Debug, Clone, Copy, PartialEq, Eq, Structural)]
pub enum Method {
    Get,
    Put,
    Post,
}

/// An HTTP request. The host puts the access token in its place in the headers.
#[derive(Debug)]
pub struct HttpRequest {
    pub method: Method,
    pub url: String,
    /// The headers as a JSON object.
    pub headers: String,
    pub body: Option<Vec<u8>>,
    pub timeout_ms: Option<u32>,
}

/// An HTTP request, with texts as sequences.
pub struct RequestView {
    pub method: Method,
    pub url: Seq<char>,
    pub headers: Seq<char>,
    pub body: Option<Seq<u8>>,
    pub timeout_ms: Option<u32>,
}

impl View for HttpRequest {
    type V = RequestView;

    open spec fn view(&self) -> RequestView {
        RequestView {
            method: self.method,
            url: self.url@,
            headers: self.headers@,
            body: match self.body {
                Some(b) => Some(b@),
                None => None,
            },
            timeout_ms: self.timeout_ms,
        }
    }
}

/// An HTTP response.
#[derive(Debug)]
pub struct HttpResponse {
    pub status: u16,
    pub body: Vec<u8>,
}

/// An HTTP response, and what its body is as a value of type `T`, or why it is none.
#[derive(Debug)]
pub struct ParsedResponse<T> {
    pub response: HttpResponse,
    pub parsed: Result<T, String>,
}

// ---------------------------------------------------------------------------
// Calls and answers
// ---------------------------------------------------------------------------

/// A message for the agent.
#[derive(Debug)]
pub struct EmittedMessage {
    pub user_id: String,
    pub user_name: Option<String>,
    pub content: String,
    pub thread_id: Option<String>,
    pub metadata_json: String,
}

/// A message for the agent, with texts as sequences.
pub struct EmittedView {
    pub user_id: Seq<char>,
    pub user_name: Option<Seq<char>>,
    pub content: Seq<char>,
    pub thread_id: Option<Seq<char>>,
    pub metadata_json: Seq<char>,
}

impl View for EmittedMessage {
    type V = EmittedView;

    open spec fn view(&self) -> EmittedView {
        EmittedView {
            user_id: self.user_id@,
            user_name: crate::json::opt_text(self.user_name),
            content: self.content@,
            thread_id: crate::json::opt_text(self.thread_id),
            metadata_json: self.metadata_json@,
        }
    }
}

/// The weight of a log entry.
#[derive(Debug, Clone, Copy, PartialEq, Eq, Structural)]
pub enum LogLevel {
    Warn,
    Error,
}

/// A request of the channel to its host.
#[derive(Debug)]
pub enum HostCall {
    /// Make an entry in the log.
    Log(LogLevel, String),
    /// The time in milliseconds.
    Now,
    /// Read a text of the workspace.
    Read(String),
    /// Write a text of the workspace: path and text.
    Write(String, String),
    /// Write texts of the workspace, one after the other, whatever comes of each.
    WriteAll(Vec<(String, String)>),
    /// Read the account at a path of the workspace, if there is one that can be read.
    ReadAccount(String),
    /// Read the Olm sessions at a path of the workspace: none where there are none that can be
    /// read.
    ReadOlmSessions(String),
    /// Read the inbound session at a path of the workspace, if there is one that can be read.
    ReadInbound(String),
    /// Read the outbound session at a path of the workspace, if there is one that can be read.
    ReadOutbound(String),
    /// Encrypt bytes with the key that the host holds.
    Encrypt(Vec<u8>),
    /// Decrypt bytes with the key that the host holds.
    Decrypt(Vec<u8>),
    /// An HTTP request whose response is not read as a value.
    Http(HttpRequest),
    /// An HTTP request for the user and device of the access token.
    Whoami(HttpRequest),
    /// An HTTP request for new events.
    Sync(HttpRequest),
    /// An HTTP request that sends an event to a room.
    SendEvent(HttpRequest),
    /// An HTTP request that uploads keys.
    KeysUpload(HttpRequest),
    /// An HTTP request for device keys.
    KeysQuery(HttpRequest),
    /// An HTTP request for one-time keys.
    KeysClaim(HttpRequest),
    /// Hand a message to the agent.
    Emit(EmittedMessage),
    /// The senders that the pairing store of a channel allows.
    PairingAllowFrom(String),
    /// Whether the pairing store of a channel allows a sender.
    PairingIsAllowed(String, String),
    /// Enter a pairing request into the store of a channel: channel, sender, metadata.
    PairingUpsert(String, String, String),
}

/// A request of the channel to its host, with texts as sequences.
pub enum CallView {
    Log(LogLevel, Seq<char>),
    Now,
    Read(Seq<char>),
    Write(Seq<char>, Seq<char>),
    WriteAll(Seq<(Seq<char>, Seq<char>)>),
    ReadAccount(Seq<char>),
    ReadOlmSessions(Seq<char>),
    ReadInbound(Seq<char>),
    ReadOutbound(Seq<char>),
    Encrypt(Seq<u8>),
    Decrypt(Seq<u8>),
    Http(RequestView),
    Whoami(RequestView),
    Sync(RequestView),
    SendEvent(RequestView),
    KeysUpload(RequestView),
    KeysQuery(RequestView),
    KeysClaim(RequestView),
    Emit(EmittedView),
    PairingAllowFrom(Seq<char>),
    PairingIsAllowed(Seq<char>, Seq<char>),
    PairingUpsert(Seq<char>, Seq<char>, Seq<char>),
}

impl View for HostCall {
    type V = CallView;

    open spec fn view(&self) -> CallView {
        match *self {
            HostCall::Log(level, message) => CallView::Log(level, message@),
            HostCall::Now => CallView::Now,
            HostCall::Read(path) => CallView::Read(path@),
            HostCall::Write(path, content) => CallView::Write(path@, content@),
            HostCall::WriteAll(writes) => CallView::WriteAll(
                crate::json::member_views(writes@),
            ),
            HostCall::ReadAccount(path) => CallView::ReadAccount(path@),
            HostCall::ReadOlmSessions(path) => CallView::ReadOlmSessions(path@),
            HostCall::ReadInbound(path) => CallView::ReadInbound(path@),
            HostCall::ReadOutbound(path) => CallView::ReadOutbound(path@),
            HostCall::Encrypt(bytes) => CallView::Encrypt(bytes@),
            HostCall::Decrypt(bytes) => CallView::Decrypt(bytes@),
            HostCall::Http(request) => CallView::Http(request@),
            HostCall::Whoami(request) => CallView::Whoami(request@),
            HostCall::Sync(request) => CallView::Sync(request@),
            HostCall::SendEvent(request) => CallView::SendEvent(request@),
            HostCall::KeysUpload(request) => CallView::KeysUpload(request@),
            HostCall::KeysQuery(request) => CallView::KeysQuery(request@),
            HostCall::KeysClaim(request) => CallView::KeysClaim(request@),
            HostCall::Emit(message) => CallView::Emit(message@),
            HostCall::PairingAllowFrom(channel) => CallView::PairingAllowFrom(channel@),
            HostCall::PairingIsAllowed(channel, sender) => CallView::PairingIsAllowed(
                channel@,
                sender@,
            ),
            HostCall::PairingUpsert(channel, sender, meta) => CallView::PairingUpsert(
                channel@,
                sender@,
                meta@,
            ),
        }
    }
}

/// A pairing request in the store.
#[derive(Debug)]
pub struct PairingRequest {
    /// The code with which the owner approves it.
    pub code: String,
    /// Whether it is new.
    pub created: bool,
}

/// An answer of the host.
pub enum HostReply {
    /// To `Now`.
    Time(u64),
    /// To `Read`: the text, if there is one.
    Text(Option<String>),
    /// To `Write`.
    Written(Result<(), String>),
    /// To `Log`, `WriteAll` and `Emit`.
    Finished,
    /// To `ReadAccount`.
    Account(Option<StoredAccount>),
    /// To `ReadOlmSessions`.
    OlmSessions(Vec<StoredOlmSession>),
    /// To `ReadInbound`.
    Inbound(Option<StoredInboundMegolmSession>),
    /// To `ReadOutbound`.
    Outbound(Option<StoredOutboundMegolmSession>),
    /// To `Encrypt` and `Decrypt`.
    Bytes(Result<Vec<u8>, String>),
    /// To `Http`.
    Http(Result<HttpResponse, String>),
    /// To `Whoami`.
    Whoami(Result<ParsedResponse<WhoamiResponse>, String>),
    /// To `Sync`.
    Sync(Result<ParsedResponse<SyncResponse>, String>),
    /// To `SendEvent`.
    SendEvent(Result<ParsedResponse<SendEventResponse>, String>),
    /// To `KeysUpload`.
    KeysUpload(Result<ParsedResponse<KeysUploadResponse>, String>),
    /// To `KeysQuery`.
    KeysQuery(Result<ParsedResponse<KeysQueryResponse>, String>),
    /// To `KeysClaim`.
    KeysClaim(Result<ParsedResponse<KeysClaimResponse>, String>),
    /// To `PairingAllowFrom`.
    PairingAllowFrom(Result<Vec<String>, String>),
    /// To `PairingIsAllowed`.
    PairingIsAllowed(Result<bool, String>),
    /// To `PairingUpsert`.
    PairingUpsert(Result<PairingRequest, String>),
}

// ---------------------------------------------------------------------------
// Steps
// ---------------------------------------------------------------------------

/// The question for a log entry that tells an error.
pub open spec fn error_entry(what: Seq<char>, e: Seq<char>) -> CallView {
    CallView::Log(LogLevel::Error, what + e)
}

/// The question for a log entry that tells a failure from which the channel goes on.
pub open spec fn warning_entry(what: Seq<char>, e: Seq<char>) -> CallView {
    CallView::Log(LogLevel::Warn, what + e)
}

/// Asks for a log entry that tells an error.
pub fn log_error(what: &str, e: &str) -> (call: HostCall)
    ensures
        call@ == error_entry(what@, e@),
{
    HostCall::Log(LogLevel::Error, text::concat2(what, e))
}

/// Asks for a log entry that tells a failure from which the channel goes on.
pub fn log_warning(what: &str, e: &str) -> (call: HostCall)
    ensures
        call@ == warning_entry(what@, e@),
{
    HostCall::Log(LogLevel::Warn, text::concat2(what, e))
}

/// A step of a flow of type `F` that gives a `T` in the end.
pub enum Step<F, T> {
    /// The flow asks the host, and goes on with the answer.
    Ask(HostCall, F),
    /// The flow is done.
    Done(T),
    /// The answer is none to what the flow has asked; the flow is where it was.
    Stray(F),
}

impl<F, T> Step<F, T> {
    /// Whether the step asks the host for `call` and goes on as `next`.
    pub open spec fn asks(self, call: CallView, next: F) -> bool {
        self matches Step::Ask(c, n) && c@ == call && n == next
    }

    /// Whether the flow is done with this result.
    pub open spec fn gives(self, result: T) -> bool {
        self == Step::<F, T>::Done(result)
    }

    /// Whether the step finds the answer stray, and leaves the flow as it was.
    pub open spec fn strays(self, flow: F) -> bool {
        self == Step::<F, T>::Stray(flow)
    }

    /// Whether a flow that holds this one passes its question on to the host, or its finding that
    /// an answer is stray: as `step`, where `whole` is the holding flow around this one.
    pub open spec fn passes_to<G, U>(self, step: Step<G, U>, whole: spec_fn(F) -> G) -> bool {
        match self {
            Step::Ask(call, next) => step == Step::<G, U>::Ask(call, whole(next)),
            Step::Stray(same) => step == Step::<G, U>::Stray(whole(same)),
            Step::Done(_) => true,
        }
    }
}

impl<F, T> Step<F, Result<T, String>> {
    /// Whether the flow fails with this message.
    pub open spec fn fails(self, message: Seq<char>) -> bool {
        self matches Step::Done(Err(m)) && m@ == message
    }
}

/// Whether a result is the one described: the same value, or an error with the same message.
pub open spec fn agrees<T>(result: Result<T, String>, described: Result<T, Seq<char>>) -> bool {
    match (result, described) {
        (Ok(a), Ok(b)) => a == b,
        (Err(m), Err(n)) => m@ == n,
        _ => false,
    }
}

/// Whether a result is the one described: a value with the same view, or an error with the same
/// message.
pub open spec fn agrees_in_view<T: View>(
    result: Result<T, String>,
    described: Result<T::V, Seq<char>>,
) -> bool {
    match (result, described) {
        (Ok(a), Ok(b)) => a@ == b,
        (Err(m), Err(n)) => m@ == n,
        _ => false,
    }
}

// ---------------------------------------------------------------------------
// Runs
// ---------------------------------------------------------------------------

/// What a flow does from an answer of the host: the flow, the answer and the step.
pub type Rule<F, T> = spec_fn(F, HostReply, Step<F, T>) -> bool;

/// Whether a flow goes on from an answer so, by a rule.
pub open spec fn goes<F, T>(
    rule: Rule<F, T>,
    flow: F,
    reply: HostReply,
    step: Step<F, T>,
) -> bool {
    rule(flow, reply, step)
}

/// Whether a flow comes from one step to another by a rule: it asks these questions, one after the
/// other, and is resumed with these answers.
pub open spec fn runs<F, T>(
    rule: Rule<F, T>,
    first: Step<F, T>,
    calls: Seq<CallView>,
    replies: Seq<HostReply>,
    last: Step<F, T>,
) -> bool
    decreases replies.len(),
{
    calls.len() == replies.len() && if replies.len() == 0 {
        first == last
    } else {
        match first {
            Step::Ask(call, flow) => call@ == calls[0] && exists|next: Step<F, T>|
                #![trigger goes(rule, flow, replies[0], next)]
                goes(rule, flow, replies[0], next) && runs(
                    rule,
                    next,
                    calls.skip(1),
                    replies.skip(1),
                    last,
                ),
            _ => false,
        }
    }
}

/// A run that is not over yet goes on from the first answer.
pub proof fn run_goes_on<F, T>(
    rule: Rule<F, T>,
    first: Step<F, T>,
    calls: Seq<CallView>,
    replies: Seq<HostReply>,
    last: Step<F, T>,
) -> (next: Step<F, T>)
    requires
        runs(rule, first, calls, replies, last),
        first != last || replies.len() > 0,
    ensures
        replies.len() > 0,
        calls.len() == replies.len(),
        first is Ask,
        first->Ask_0@ == calls[0],
        rule(first->Ask_1, replies[0], next),
        runs(rule, next, calls.skip(1), replies.skip(1), last),
{
    let flow = first->Ask_1;
    choose|next: Step<F, T>|
        #![trigger goes(rule, flow, replies[0], next)]
        goes(rule, flow, replies[0], next) && runs(rule, next, calls.skip(1), replies.skip(1), last)
}

/// A run that is over before it asks anything, has asked nothing.
pub proof fn run_is_over<F, T>(
    rule: Rule<F, T>,
    first: Step<F, T>,
    calls: Seq<CallView>,
    replies: Seq<HostReply>,
    last: Step<F, T>,
)
    requires
        runs(rule, first, calls, replies, last),
        !(first is Ask),
    ensures
        first == last,
        calls.len() == 0,
        replies.len() == 0,
{
}

/// A run with one more step before it.
pub proof fn run_is_led_to<F, T>(
    rule: Rule<F, T>,
    call: HostCall,
    flow: F,
    reply: HostReply,
    next: Step<F, T>,
    calls: Seq<CallView>,
    replies: Seq<HostReply>,
    last: Step<F, T>,
)
    requires
        rule(flow, reply, next),
        runs(rule, next, calls, replies, last),
    ensures
        runs(rule, Step::Ask(call, flow), seq![call@] + calls, seq![reply] + replies, last),
{
    let all_calls = seq![call@] + calls;
    let all_replies = seq![reply] + replies;
    assert(all_calls.skip(1) =~= calls);
    assert(all_replies.skip(1) =~= replies);
    assert(goes(rule, flow, all_replies[0], next));
    let first: Step<F, T> = Step::Ask(call, flow);
    assert(goes(rule, first->Ask_1, all_replies[0], next));
    assert(runs(rule, next, all_calls.skip(1), all_replies.skip(1), last));
    assert(exists|n: Step<F, T>|
        #![trigger goes(rule, first->Ask_1, all_replies[0], n)]
        goes(rule, first->Ask_1, all_replies[0], n) && runs(
            rule,
            n,
            all_calls.skip(1),
            all_replies.skip(1),
            last,
        ));
    assert(first->Ask_0@ == all_calls[0]);
    assert(runs(rule, first, all_calls, all_replies, last));
}

/// Whether a step of a flow that holds another is made by a step of the other: its question is passed
/// on, and what follows its result is this.
pub open spec fn passes_on<F, T, G, U>(
    inner_rule: Rule<F, T>,
    whole: spec_fn(F) -> G,
    after: spec_fn(T, Step<G, U>) -> bool,
    flow: F,
    reply: HostReply,
    step: Step<G, U>,
) -> bool {
    exists|inner: Step<F, T>| #[trigger]
        goes(inner_rule, flow, reply, inner) && inner.passes_to(step, whole) && (
        inner matches Step::Done(result) ==> after(result, step))
}

/// Whether a flow by one rule holds, as `whole`, a flow by another: each of its steps is made by one of
/// the other, and what follows the other's result is this.
pub open spec fn holds_flow<F, T, G, U>(
    inner_rule: Rule<F, T>,
    rule: Rule<G, U>,
    whole: spec_fn(F) -> G,
    after: spec_fn(T, Step<G, U>) -> bool,
) -> bool {
    forall|flow: F, reply: HostReply, step: Step<G, U>| #[trigger]
        goes(rule, whole(flow), reply, step) ==> passes_on(
            inner_rule,
            whole,
            after,
            flow,
            reply,
            step,
        )
}

/// A run of a flow that holds another, and that comes to a result, is a whole run of the other followed
/// by what follows its result: how many questions the other asks, its result, and the step after it.
pub proof fn inner_run_ends<F, T, G, U>(
    inner_rule: Rule<F, T>,
    rule: Rule<G, U>,
    whole: spec_fn(F) -> G,
    after: spec_fn(T, Step<G, U>) -> bool,
    call: HostCall,
    flow: F,
    calls: Seq<CallView>,
    replies: Seq<HostReply>,
    last: Step<G, U>,
) -> (r: (int, T, Step<G, U>))
    requires
        holds_flow(inner_rule, rule, whole, after),
        runs(rule, Step::Ask(call, whole(flow)), calls, replies, last),
        last is Done,
    ensures
        0 < r.0 <= calls.len(),
        calls.len() == replies.len(),
        runs(
            inner_rule,
            Step::Ask(call, flow),
            calls.take(r.0),
            replies.take(r.0),
            Step::Done(r.1),
        ),
        after(r.1, r.2),
        runs(rule, r.2, calls.skip(r.0), replies.skip(r.0), last),
    decreases replies.len(),
{
    let first: Step<G, U> = Step::Ask(call, whole(flow));
    let next = run_goes_on(rule, first, calls, replies, last);
    let (c1, r1) = (calls.skip(1), replies.skip(1));
    assert(goes(rule, whole(flow), replies[0], next));
    let inner = choose|inner: Step<F, T>| #[trigger]
        goes(inner_rule, flow, replies[0], inner) && inner.passes_to(next, whole) && (
        inner matches Step::Done(result) ==> after(result, next));
    match inner {
        Step::Ask(next_call, next_flow) => {
            let r = inner_run_ends(
                inner_rule,
                rule,
                whole,
                after,
                next_call,
                next_flow,
                c1,
                r1,
                last,
            );
            run_is_led_to(
                inner_rule,
                call,
                flow,
                replies[0],
                inner,
                c1.take(r.0),
                r1.take(r.0),
                Step::Done(r.1),
            );
            let n = r.0 + 1;
            assert(seq![call@] + c1.take(r.0) =~= calls.take(n));
            assert(seq![replies[0]] + r1.take(r.0) =~= replies.take(n));
            assert(c1.skip(r.0) =~= calls.skip(n));
            assert(r1.skip(r.0) =~= replies.skip(n));
            (n, r.1, r.2)
        },
        Step::Done(result) => {
            let none_asked: Seq<CallView> = Seq::empty();
            let none_answered: Seq<HostReply> = Seq::empty();
            run_is_led_to(
                inner_rule,
                call,
                flow,
                replies[0],
                inner,
                none_asked,
                none_answered,
                inner,
            );
            assert(seq![call@] + none_asked =~= calls.take(1));
            assert(seq![replies[0]] + none_answered =~= replies.take(1));
            (1, result, next)
        },
        Step::Stray(_) => {
            run_is_over(rule, next, c1, r1, last);
            arbitrary()
        },
    }
}

/// Whether the host gives back what it was given to encrypt: an answer to the question to decrypt what
/// it made of some bytes is these bytes.
pub open spec fn gives_back(
    calls: Seq<CallView>,
    replies: Seq<HostReply>,
    call: CallView,
    reply: HostReply,
) -> bool {
    forall|i: int|
        #![trigger calls[i]]
        0 <= i < calls.len() && calls[i] is Encrypt && (replies[i] matches HostReply::Bytes(
            Ok(sealed),
        ) && call == CallView::Decrypt(sealed@)) ==> (reply matches HostReply::Bytes(Ok(bytes))
            && bytes@ == calls[i]->Encrypt_0)
}

/// What a list of writes leaves at a path, if it writes there: its last text for the path.
pub open spec fn left_at(writes: Seq<(Seq<char>, Seq<char>)>, path: Seq<char>) -> Option<Seq<char>>
    decreases writes.len(),
{
    if writes.len() == 0 {
        None
    } else if writes.last().0 == path {
        Some(writes.last().1)
    } else {
        left_at(writes.drop_last(), path)
    }
}

/// What a question asks the host to leave at a path, if it asks for a write there.
pub open spec fn written_at(call: CallView, path: Seq<char>) -> Option<Seq<char>> {
    match call {
        CallView::Write(p, text) => if p == path {
            Some(text)
        } else {
            None
        },
        CallView::WriteAll(writes) => left_at(writes, path),
        _ => None,
    }
}

/// What questions, one after the other, ask the host to leave at a path in the end, if any asks for a
/// write there.
pub open spec fn last_written(calls: Seq<CallView>, path: Seq<char>) -> Option<Seq<char>>
    decreases calls.len(),
{
    if calls.len() == 0 {
        None
    } else {
        match last_written(calls.skip(1), path) {
            Some(text) => Some(text),
            None => written_at(calls[0], path),
        }
    }
}

/// Whether a request was turned down: it got no answer, one with another status than 200, or one that cannot be
/// read.
pub open spec fn is_turned_down<T>(answer: Result<ParsedResponse<T>, String>) -> bool {
    !(answer matches Ok(p) && p.response.status == 200 && p.parsed is Ok)
}

/// Whether an answer tells that the host or the server did not do what it was asked for, or did not have it.
pub open spec fn is_setback(reply: HostReply) -> bool {
    match reply {
        HostReply::Written(result) => result is Err,
        HostReply::Bytes(result) => result is Err,
        HostReply::Account(stored) => stored is None,
        HostReply::Text(stored) => stored is None || stored->0@.len() == 0,
        HostReply::Http(answer) => !(answer matches Ok(response) && response.status == 200),
        HostReply::Whoami(answer) => is_turned_down(answer),
        HostReply::SendEvent(answer) => is_turned_down(answer),
        HostReply::KeysUpload(answer) => is_turned_down(answer),
        HostReply::KeysQuery(answer) => is_turned_down(answer),
        HostReply::KeysClaim(answer) => is_turned_down(answer),
        _ => false,
    }
}

} // verus!
