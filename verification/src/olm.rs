//! Olm: accounts, and sessions between two devices.
//!
//! Accounts and sessions are held as their pickles, the JSON that vodozemac writes of them.

use vodozemac::olm::{
    Account, AccountPickle, Message, OlmMessage, PreKeyMessage, Session, SessionConfig,
    SessionPickle,
};
use vodozemac::Curve25519PublicKey;
use vstd::prelude::*;
use vstd::multiset::Multiset;
use vstd::string::*;
use vstd::utf8::*;

use crate::json::{self, read_number};

verus! {

// ---------------------------------------------------------------------------
// Curve25519 public keys
// ---------------------------------------------------------------------------

/// What `Curve25519PublicKey::from_base64` makes of a text, written with `to_base64`, or the
/// message of its error.
pub uninterp spec fn curve_key(s: Seq<char>) -> Result<Seq<char>, Seq<char>>;

/// Whether the text is a Curve25519 public key in vodozemac's own base64.
pub open spec fn is_curve_key(s: Seq<char>) -> bool {
    curve_key(s) is Ok && curve_key(s)->Ok_0 == s
}

/// `Curve25519PublicKey::from_base64` and `to_base64`: the key in vodozemac's own base64, which
/// reads back as the same key, or the error's message.
#[verifier::external_body]
fn curve_key_from_base64(s: &str) -> (r: Result<String, String>)
    ensures
        match r {
            Ok(key) => curve_key(s@) is Ok && curve_key(s@)->Ok_0 == key@ && is_curve_key(key@),
            Err(e) => curve_key(s@) is Err && curve_key(s@)->Err_0 == e@,
        },
{
    match Curve25519PublicKey::from_base64(s) {
        Ok(key) => Ok(key.to_base64()),
        Err(e) => Err(e.to_string()),
    }
}

/// A Curve25519 public key.
pub struct CurveKey {
    base64: String,
}

impl View for CurveKey {
    type V = Seq<char>;

    closed spec fn view(&self) -> Seq<char> {
        self.base64@
    }
}

impl CurveKey {
    #[verifier::type_invariant]
    spec fn valid(self) -> bool {
        is_curve_key(self.base64@)
    }

    /// Reads a key from base64.
    pub fn from_base64(s: &str) -> (r: Result<CurveKey, String>)
        ensures
            match r {
                Ok(key) => curve_key(s@) is Ok && curve_key(s@)->Ok_0 == key@,
                Err(e) => curve_key(s@) is Err && curve_key(s@)->Err_0 == e@,
            },
    {
        match curve_key_from_base64(s) {
            Ok(base64) => Ok(CurveKey { base64 }),
            Err(e) => Err(e),
        }
    }

    /// The key in base64.
    pub fn to_base64(&self) -> (s: String)
        ensures
            s@ == self@,
    {
        self.base64.clone()
    }
}

// ---------------------------------------------------------------------------
// Messages
// ---------------------------------------------------------------------------

/// Why `PreKeyMessage::from_base64` does not accept a text, if it does not.
pub uninterp spec fn prekey_error(body: Seq<char>) -> Option<Seq<char>>;

/// Why `Message::from_base64` does not accept a text, if it does not.
pub uninterp spec fn normal_error(body: Seq<char>) -> Option<Seq<char>>;

/// `PreKeyMessage::from_base64`: the message of its error, if it fails.
#[verifier::external_body]
fn prekey_problem(body: &str) -> (r: Option<String>)
    ensures
        match r {
            Some(e) => prekey_error(body@) == Some(e@),
            None => prekey_error(body@) is None,
        },
{
    match PreKeyMessage::from_base64(body) {
        Ok(_) => None,
        Err(e) => Some(e.to_string()),
    }
}

/// `Message::from_base64`: the message of its error, if it fails.
#[verifier::external_body]
fn normal_problem(body: &str) -> (r: Option<String>)
    ensures
        match r {
            Some(e) => normal_error(body@) == Some(e@),
            None => normal_error(body@) is None,
        },
{
    match Message::from_base64(body) {
        Ok(_) => None,
        Err(e) => Some(e.to_string()),
    }
}

/// A pre-key message: an encrypted message that can start a session.
pub struct PreKeyText {
    body: String,
}

impl View for PreKeyText {
    type V = Seq<char>;

    closed spec fn view(&self) -> Seq<char> {
        self.body@
    }
}

impl PreKeyText {
    #[verifier::type_invariant]
    spec fn valid(self) -> bool {
        prekey_error(self.body@) is None
    }

    /// Reads a pre-key message from base64.
    pub fn from_base64(body: &str) -> (r: Result<PreKeyText, String>)
        ensures
            match r {
                Ok(m) => prekey_error(body@) is None && m@ == body@,
                Err(e) => prekey_error(body@) == Some(e@),
            },
    {
        match prekey_problem(body) {
            Some(e) => Err(e),
            None => Ok(PreKeyText { body: body.to_owned() }),
        }
    }
}

/// An encrypted message of an established session.
pub struct NormalText {
    body: String,
}

impl View for NormalText {
    type V = Seq<char>;

    closed spec fn view(&self) -> Seq<char> {
        self.body@
    }
}

impl NormalText {
    #[verifier::type_invariant]
    spec fn valid(self) -> bool {
        normal_error(self.body@) is None
    }

    /// Reads a message from base64.
    pub fn from_base64(body: &str) -> (r: Result<NormalText, String>)
        ensures
            match r {
                Ok(m) => normal_error(body@) is None && m@ == body@,
                Err(e) => normal_error(body@) == Some(e@),
            },
    {
        match normal_problem(body) {
            Some(e) => Err(e),
            None => Ok(NormalText { body: body.to_owned() }),
        }
    }
}

/// An encrypted message between two devices.
pub enum OlmText {
    PreKey(PreKeyText),
    Normal(NormalText),
}

impl OlmText {
    /// Its ciphertext in base64.
    pub open spec fn text(self) -> Seq<char> {
        match self {
            OlmText::PreKey(m) => m@,
            OlmText::Normal(m) => m@,
        }
    }
}

// ---------------------------------------------------------------------------
// Sessions
// ---------------------------------------------------------------------------

/// What `serde_json` and vodozemac make of the pickle of an Olm session, pickled again, or the
/// message of the error.
pub uninterp spec fn olm_pickle(bytes: Seq<u8>) -> Result<Seq<u8>, Seq<char>>;

/// Whether the bytes are the pickle of an Olm session as vodozemac writes it.
pub open spec fn is_olm_session(bytes: Seq<u8>) -> bool {
    olm_pickle(bytes) is Ok && olm_pickle(bytes)->Ok_0 == bytes
}

/// Whether encrypting a text with a session can give this session and message: type and body. It
/// is a relation, since a session that has yet to send draws a key at random.
pub uninterp spec fn olm_encrypts(
    session: Seq<u8>,
    plaintext: Seq<char>,
    after: Seq<u8>,
    kind: u64,
    body: Seq<char>,
) -> bool;

/// Whether decrypting a message with a session can have this outcome: the session after it and the
/// plaintext, or nothing where the message does not belong to the session. It is a relation, since
/// a session that has yet to send draws a key at random on the way.
pub uninterp spec fn olm_decrypts(
    session: Seq<u8>,
    prekey: bool,
    body: Seq<char>,
    outcome: Option<(Seq<u8>, Seq<u8>)>,
) -> bool;

/// Whether the number at a place of a pickle, if one stands there, is below a bound.
pub open spec fn counts_below(session: Seq<u8>, pointer: Seq<char>, bound: int) -> bool {
    json::number_at(session, pointer) matches Some(n) ==> n < bound
}

/// How far beyond its last message a chain of a session may be asked to go by the next one.
pub const MESSAGE_GAP: u64 = 2000;

/// Whether the 64-bit counters of a pickled session have room for another message: the number of
/// turns of the conversation, of the messages sent in this turn, and of those received in each of
/// the last five turns of the other side.
pub open spec fn has_room(session: Seq<u8>) -> bool {
    &&& counts_below(session, "/sending_ratchet/ratchet_count/Known"@, u64::MAX - 1)
    &&& counts_below(session, "/sending_ratchet/symmetric_key_ratchet/index"@, u64::MAX as int)
    &&& counts_below(session, "/receiving_chains/inner/0/hkdf_ratchet/index"@, u64::MAX - MESSAGE_GAP)
    &&& counts_below(session, "/receiving_chains/inner/1/hkdf_ratchet/index"@, u64::MAX - MESSAGE_GAP)
    &&& counts_below(session, "/receiving_chains/inner/2/hkdf_ratchet/index"@, u64::MAX - MESSAGE_GAP)
    &&& counts_below(session, "/receiving_chains/inner/3/hkdf_ratchet/index"@, u64::MAX - MESSAGE_GAP)
    &&& counts_below(session, "/receiving_chains/inner/4/hkdf_ratchet/index"@, u64::MAX - MESSAGE_GAP)
}

fn is_below(session: &[u8], pointer: &str, bound: u64) -> (below: bool)
    ensures
        below == counts_below(session@, pointer@, bound as int),
{
    match read_number(session, pointer) {
        Some(n) => n < bound,
        None => true,
    }
}

/// Checks the counters of a pickled session.
fn check_room(session: &[u8]) -> (room: bool)
    ensures
        room == has_room(session@),
{
    let gap: u64 = u64::MAX - MESSAGE_GAP;
    is_below(session, "/sending_ratchet/ratchet_count/Known", u64::MAX - 1) && is_below(
        session,
        "/sending_ratchet/symmetric_key_ratchet/index",
        u64::MAX,
    ) && is_below(session, "/receiving_chains/inner/0/hkdf_ratchet/index", gap) && is_below(
        session,
        "/receiving_chains/inner/1/hkdf_ratchet/index",
        gap,
    ) && is_below(session, "/receiving_chains/inner/2/hkdf_ratchet/index", gap) && is_below(
        session,
        "/receiving_chains/inner/3/hkdf_ratchet/index",
        gap,
    ) && is_below(session, "/receiving_chains/inner/4/hkdf_ratchet/index", gap)
}

/// Whether a pickled session that has yet to send anything was started with a one-time key and the
/// identity key of a pickled account, by the device with this identity key: the account reads its
/// first message.
pub uninterp spec fn starts_with(session: Seq<u8>, account: Seq<u8>, sender_key: Seq<char>) -> bool;

/// Whether a pickled session has sent its first message, and the other was made of that message and has
/// yet to send: the session reads the first answer of the other.
pub uninterp spec fn awaits(session: Seq<u8>, other: Seq<u8>) -> bool;

/// Whether a message is the first answer to a pickled session, with this text.
pub uninterp spec fn is_answer(session: Seq<u8>, body: Seq<char>, plaintext: Seq<char>) -> bool;

/// The outcome of a decryption, with its parts as sequences.
pub open spec fn outcome_view(outcome: Option<(OlmSession, Vec<u8>)>) -> Option<
    (Seq<u8>, Seq<u8>),
> {
    match outcome {
        Some((session, plaintext)) => Some((session@, plaintext@)),
        None => None,
    }
}

/// `serde_json::from_slice` to a `SessionPickle`, and `Session::from_pickle`; what it gives is
/// pickled again with `Session::pickle`, and that pickle reads back as itself.
#[verifier::external_body]
fn olm_unpickle(bytes: &[u8]) -> (r: Result<Vec<u8>, String>)
    ensures
        match r {
            Ok(p) => olm_pickle(bytes@) is Ok && olm_pickle(bytes@)->Ok_0 == p@ && is_olm_session(
                p@,
            ),
            Err(e) => olm_pickle(bytes@) is Err && olm_pickle(bytes@)->Err_0 == e@,
        },
{
    match serde_json::from_slice::<SessionPickle>(bytes) {
        Ok(p) => serde_json::to_vec(&Session::from_pickle(p).pickle()).map_err(|e| e.to_string()),
        Err(e) => Err(e.to_string()),
    }
}

/// `Session::encrypt` on a pickled session: the session after it, the message's type (0 for a
/// pre-key message, 1 for another) and its body in base64. The ciphertext depends on chance where
/// the session has yet to send, so only that it is one of those possible is said of it, and who reads
/// it: from the first message of a session, the account that it was started with makes a session and
/// the text; and the first message of that session is an answer with its text. That the messages that
/// follow are read is not said. The session's counters must not run over.
#[verifier::external_body]
fn olm_encrypt(session: &[u8], plaintext: &str) -> (r: (Vec<u8>, u64, String))
    requires
        is_olm_session(session@),
        has_room(session@),
    ensures
        is_olm_session(r.0@),
        r.1 <= 1,
        olm_encrypts(session@, plaintext@, r.0@, r.1, r.2@),
        forall|account: Seq<u8>, sender_key: Seq<char>| #[trigger]
            starts_with(session@, account, sender_key) ==> r.1 == 0 && opens(
                account,
                sender_key,
                r.2@,
                plaintext@,
            ) && awaits(r.0@, inbound_creation(account, sender_key, r.2@)->Ok_0.1),
        forall|other: Seq<u8>| #[trigger]
            awaits(other, session@) ==> r.1 == 1 && normal_error(r.2@) is None && is_answer(
                other,
                r.2@,
                plaintext@,
            ),
{
    let pickle: SessionPickle = serde_json::from_slice(session).expect("a session's pickle");
    let mut session = Session::from_pickle(pickle);
    let (kind, body) = match session.encrypt(plaintext) {
        OlmMessage::PreKey(m) => (0, m.to_base64()),
        OlmMessage::Normal(m) => (1, m.to_base64()),
    };
    (serde_json::to_vec(&session.pickle()).expect("a pickle is JSON"), kind, body)
}

/// `Session::decrypt` on a pickled session: the session after it and the plaintext, or nothing
/// where it fails. A session that has yet to send draws a key at random on the way, so only that
/// the outcome is one of those possible is said of it, whether it fails or not, and that the first
/// answer to a session is decrypted to its text. The session's counters must not run over.
#[verifier::external_body]
fn olm_decrypt(session: &[u8], prekey: bool, body: &str) -> (r: Option<(Vec<u8>, Vec<u8>)>)
    requires
        is_olm_session(session@),
        has_room(session@),
        if prekey { prekey_error(body@) is None } else { normal_error(body@) is None },
    ensures
        match r {
            Some(d) => olm_decrypts(session@, prekey, body@, Some((d.0@, d.1@))) && is_olm_session(
                d.0@,
            ),
            None => olm_decrypts(session@, prekey, body@, None),
        },
        forall|plaintext: Seq<char>|
            !prekey && #[trigger] is_answer(session@, body@, plaintext) ==> r is Some && r->Some_0.1@
                == encode_utf8(plaintext),
{
    let pickle: SessionPickle = serde_json::from_slice(session).expect("a session's pickle");
    let mut session = Session::from_pickle(pickle);
    let message = match prekey {
        true => OlmMessage::PreKey(PreKeyMessage::from_base64(body).expect("a pre-key message")),
        false => OlmMessage::Normal(Message::from_base64(body).expect("a message")),
    };
    let plaintext = session.decrypt(&message).ok()?;
    Some((serde_json::to_vec(&session.pickle()).expect("a pickle is JSON"), plaintext))
}

/// An Olm session with another device.
pub struct OlmSession {
    pickle: Vec<u8>,
}

impl View for OlmSession {
    type V = Seq<u8>;

    closed spec fn view(&self) -> Seq<u8> {
        self.pickle@
    }
}

impl OlmSession {
    #[verifier::type_invariant]
    spec fn valid(self) -> bool {
        is_olm_session(self.pickle@)
    }

    /// Reads a session from its pickle.
    pub fn from_pickle(bytes: &[u8]) -> (r: Result<OlmSession, String>)
        ensures
            match r {
                Ok(s) => olm_pickle(bytes@) is Ok && olm_pickle(bytes@)->Ok_0 == s@,
                Err(e) => olm_pickle(bytes@) is Err && olm_pickle(bytes@)->Err_0 == e@,
            },
    {
        match olm_unpickle(bytes) {
            Ok(pickle) => Ok(OlmSession { pickle }),
            Err(e) => Err(e),
        }
    }

    /// The session's pickle.
    pub fn pickle(&self) -> (bytes: Vec<u8>)
        ensures
            bytes@ == self@,
    {
        self.pickle.clone()
    }

    /// Encrypts a text: the session after it, and the message's type and body, or nothing where the
    /// session's counters have no room left.
    pub fn encrypt(self, plaintext: &str) -> (r: Option<(OlmSession, u64, String)>)
        ensures
            match r {
                Some(e) => has_room(self@) && e.1 <= 1 && olm_encrypts(
                    self@,
                    plaintext@,
                    e.0@,
                    e.1,
                    e.2@,
                ) && (forall|account: Seq<u8>, sender_key: Seq<char>| #[trigger]
                    starts_with(self@, account, sender_key) ==> e.1 == 0 && opens(
                        account,
                        sender_key,
                        e.2@,
                        plaintext@,
                    ) && awaits(e.0@, inbound_creation(account, sender_key, e.2@)->Ok_0.1)) && (
                forall|other: Seq<u8>| #[trigger]
                    awaits(other, self@) ==> e.1 == 1 && normal_error(e.2@) is None && is_answer(
                        other,
                        e.2@,
                        plaintext@,
                    )),
                None => !has_room(self@),
            },
    {
        proof {
            use_type_invariant(&self);
        }
        if !check_room(self.pickle.as_slice()) {
            return None;
        }
        let (pickle, kind, body) = olm_encrypt(self.pickle.as_slice(), plaintext);
        Some((OlmSession { pickle }, kind, body))
    }

    /// Decrypts a message: the session after it and the plaintext, where the message belongs to
    /// the session, and the session's counters have room left.
    pub fn decrypt(self, message: &OlmText) -> (r: Option<(OlmSession, Vec<u8>)>)
        ensures
            can_come_out(self@, *message, r),
            forall|plaintext: Seq<char>|
                has_room(self@) && message is Normal && #[trigger] is_answer(
                    self@,
                    message.text(),
                    plaintext,
                ) ==> r is Some && r->Some_0.1@ == encode_utf8(plaintext),
    {
        proof {
            use_type_invariant(&self);
        }
        if !check_room(self.pickle.as_slice()) {
            return None;
        }
        let decrypted = match message {
            OlmText::PreKey(m) => {
                proof {
                    use_type_invariant(m);
                }
                olm_decrypt(self.pickle.as_slice(), true, m.body.as_str())
            },
            OlmText::Normal(m) => {
                proof {
                    use_type_invariant(m);
                }
                olm_decrypt(self.pickle.as_slice(), false, m.body.as_str())
            },
        };
        match decrypted {
            Some((pickle, plaintext)) => Some((OlmSession { pickle }, plaintext)),
            None => None,
        }
    }
}

/// Whether an attempt to decrypt a message with a session can have this outcome.
pub open spec fn can_come_out(
    session: Seq<u8>,
    message: OlmText,
    outcome: Option<(OlmSession, Vec<u8>)>,
) -> bool {
    if has_room(session) {
        olm_decrypts(session, message is PreKey, message.text(), outcome_view(outcome))
    } else {
        outcome is None
    }
}

// ---------------------------------------------------------------------------
// Accounts
// ---------------------------------------------------------------------------

/// What `serde_json` and vodozemac make of the pickle of an account, pickled again, or the message
/// of the error.
pub uninterp spec fn account_pickle(bytes: Seq<u8>) -> Result<Seq<u8>, Seq<char>>;

/// Whether the bytes are the pickle of an account as vodozemac writes it.
pub open spec fn is_account(bytes: Seq<u8>) -> bool {
    account_pickle(bytes) is Ok && account_pickle(bytes)->Ok_0 == bytes
}

/// The Ed25519 identity key of a pickled account, in base64.
pub uninterp spec fn ed25519_of(account: Seq<u8>) -> Seq<char>;

/// The Curve25519 identity key of a pickled account, in base64.
pub uninterp spec fn curve25519_of(account: Seq<u8>) -> Seq<char>;

/// The signature of a message by a pickled account, in base64.
pub uninterp spec fn signature_of(account: Seq<u8>, message: Seq<u8>) -> Seq<char>;

/// The one-time keys of a pickled account that were not published: key by its id, in base64.
pub uninterp spec fn unpublished_keys(account: Seq<u8>) -> Map<Seq<char>, Seq<char>>;

/// A pickled account once its keys are marked as published.
pub uninterp spec fn published_account(account: Seq<u8>) -> Seq<u8>;

/// What a pickled account makes of a pre-key message: the account after it, the new session and
/// the plaintext, or the message of the error.
pub uninterp spec fn inbound_creation(
    account: Seq<u8>,
    sender_key: Seq<char>,
    body: Seq<char>,
) -> Result<(Seq<u8>, Seq<u8>, Seq<u8>), Seq<char>>;

/// Whether a pickled account can start this session with the device that has this identity key
/// and one-time key. It is a relation, since the session's own keys are drawn at random.
pub uninterp spec fn outbound_creation(
    account: Seq<u8>,
    their_key: Seq<char>,
    one_time_key: Seq<char>,
    session: Seq<u8>,
) -> bool;

/// Whether a pickled account makes a session and this text of a pre-key message from the device with
/// this identity key.
pub open spec fn opens(
    account: Seq<u8>,
    sender_key: Seq<char>,
    body: Seq<char>,
    plaintext: Seq<char>,
) -> bool {
    &&& prekey_error(body) is None
    &&& inbound_creation(account, sender_key, body) is Ok
    &&& inbound_creation(account, sender_key, body)->Ok_0.2 == encode_utf8(plaintext)
}

/// Whether a session that a pickled account started with an identity key and a one-time key reaches who
/// holds these keys: the account with them reads its first message.
pub open spec fn reaches(
    account: Seq<u8>,
    their_key: Seq<char>,
    one_time_key: Seq<char>,
    session: Seq<u8>,
) -> bool {
    forall|other: Seq<u8>|
        is_account(other) && curve25519_of(other) == their_key && #[trigger] held_keys(other).count(
            one_time_key,
        ) > 0 ==> starts_with(session, other, curve25519_of(account))
}

/// Whether a message that a session made of a text is opened by whom the session reaches, where it is
/// the session's first.
pub open spec fn first_is_opened(
    session: Seq<u8>,
    plaintext: Seq<char>,
    kind: u64,
    body: Seq<char>,
) -> bool {
    forall|account: Seq<u8>, sender_key: Seq<char>| #[trigger]
        starts_with(session, account, sender_key) ==> kind == 0 && opens(
            account,
            sender_key,
            body,
            plaintext,
        )
}

/// The one-time keys of which a pickled account holds the secret half, published or not, in base64.
pub uninterp spec fn held_keys(account: Seq<u8>) -> Multiset<Seq<char>>;

/// The one-time key that a pre-key message names, in base64.
pub uninterp spec fn named_key(body: Seq<char>) -> Seq<char>;

/// Whether generating this many one-time keys for a pickled account can give this account. It is a
/// relation, since the keys are drawn at random.
pub uninterp spec fn keys_generated(account: Seq<u8>, count: usize, after: Seq<u8>) -> bool;

/// Whether two pickled accounts have the same identity keys.
pub open spec fn same_identity(a: Seq<u8>, b: Seq<u8>) -> bool {
    ed25519_of(a) == ed25519_of(b) && curve25519_of(a) == curve25519_of(b)
}

/// The ids of the unpublished keys that the second of two pickled accounts has and the first has not.
pub open spec fn added_keys(before: Seq<u8>, after: Seq<u8>) -> Set<Seq<char>> {
    unpublished_keys(after).dom().difference(unpublished_keys(before).dom())
}

/// Whether the pairs list the entries of the map, each once.
pub open spec fn lists_keys(pairs: Seq<(String, String)>, keys: Map<Seq<char>, Seq<char>>) -> bool {
    &&& forall|i: int|
        0 <= i < pairs.len() ==> keys.dom().contains(#[trigger] pairs[i].0@) && keys[pairs[i].0@]
            == pairs[i].1@
    &&& forall|i: int, j: int| 0 <= i < j < pairs.len() ==> pairs[i].0@ != pairs[j].0@
    &&& forall|id: Seq<char>| #[trigger]
        keys.dom().contains(id) ==> exists|i: int| 0 <= i < pairs.len() && pairs[i].0@ == id
}

/// `Account::new`, pickled: an account with identity keys drawn at random, and with no one-time keys
/// yet.
#[verifier::external_body]
fn account_new() -> (r: Vec<u8>)
    ensures
        is_account(r@),
        unpublished_keys(r@).dom().is_empty(),
{
    serde_json::to_vec(&Account::new().pickle()).expect("a pickle is JSON")
}

/// `serde_json::from_slice` to an `AccountPickle`, and `Account::from_pickle`; what it gives is
/// pickled again with `Account::pickle`, and that pickle reads back as itself.
#[verifier::external_body]
fn account_unpickle(bytes: &[u8]) -> (r: Result<Vec<u8>, String>)
    ensures
        match r {
            Ok(p) => account_pickle(bytes@) is Ok && account_pickle(bytes@)->Ok_0 == p@
                && is_account(p@),
            Err(e) => account_pickle(bytes@) is Err && account_pickle(bytes@)->Err_0 == e@,
        },
{
    match serde_json::from_slice::<AccountPickle>(bytes) {
        Ok(p) => serde_json::to_vec(&Account::from_pickle(p).pickle()).map_err(|e| e.to_string()),
        Err(e) => Err(e.to_string()),
    }
}

/// `Account::ed25519_key` of a pickled account, in base64.
#[verifier::external_body]
fn account_ed25519(account: &[u8]) -> (r: String)
    requires
        is_account(account@),
    ensures
        r@ == ed25519_of(account@),
{
    let pickle: AccountPickle = serde_json::from_slice(account).expect("an account's pickle");
    Account::from_pickle(pickle).ed25519_key().to_base64()
}

/// `Account::curve25519_key` of a pickled account, in base64.
#[verifier::external_body]
fn account_curve25519(account: &[u8]) -> (r: String)
    requires
        is_account(account@),
    ensures
        r@ == curve25519_of(account@),
        is_curve_key(r@),
{
    let pickle: AccountPickle = serde_json::from_slice(account).expect("an account's pickle");
    Account::from_pickle(pickle).curve25519_key().to_base64()
}

/// `Account::sign` of a pickled account, in base64. An Ed25519 signature is a function of the key
/// and the message.
#[verifier::external_body]
fn account_sign(account: &[u8], message: &[u8]) -> (r: String)
    requires
        is_account(account@),
    ensures
        r@ == signature_of(account@, message@),
{
    let pickle: AccountPickle = serde_json::from_slice(account).expect("an account's pickle");
    Account::from_pickle(pickle).sign(message).to_base64()
}

/// `Account::generate_one_time_keys` of a pickled account: the keys are drawn at random; the
/// identity keys stay, no more keys than asked for are new, the account holds the secret half of each
/// new one, and there are keys to publish where any were asked for. That exactly as many are new, which holds as long as the account has room and
/// counts its keys upwards, is not said.
#[verifier::external_body]
fn account_generate(account: &[u8], count: usize) -> (r: Vec<u8>)
    requires
        is_account(account@),
    ensures
        is_account(r@),
        keys_generated(account@, count, r@),
        same_identity(r@, account@),
        added_keys(account@, r@).finite(),
        added_keys(account@, r@).len() <= count,
        forall|id: Seq<char>| #[trigger]
            added_keys(account@, r@).contains(id) ==> held_keys(r@).count(unpublished_keys(r@)[id])
                > 0,
        count > 0 ==> !unpublished_keys(r@).dom().is_empty(),
{
    let pickle: AccountPickle = serde_json::from_slice(account).expect("an account's pickle");
    let mut account = Account::from_pickle(pickle);
    account.generate_one_time_keys(count);
    serde_json::to_vec(&account.pickle()).expect("a pickle is JSON")
}

/// `Account::one_time_keys` of a pickled account, in vodozemac's own base64: the keys that were not
/// published, each once, in the order in which a hash map is walked.
#[verifier::external_body]
fn account_one_time_keys(account: &[u8]) -> (r: Vec<(String, String)>)
    requires
        is_account(account@),
    ensures
        lists_keys(r@, unpublished_keys(account@)),
        forall|i: int| 0 <= i < r.len() ==> is_curve_key((#[trigger] r[i]).1@),
{
    let pickle: AccountPickle = serde_json::from_slice(account).expect("an account's pickle");
    let keys = Account::from_pickle(pickle).one_time_keys();
    keys.iter().map(|(id, key)| (id.to_base64(), key.to_base64())).collect()
}

/// `Account::mark_keys_as_published` of a pickled account: the identity keys and the secret halves
/// of the one-time keys stay, and no key is left to publish.
#[verifier::external_body]
fn account_mark_published(account: &[u8]) -> (r: Vec<u8>)
    requires
        is_account(account@),
    ensures
        r@ == published_account(account@),
        is_account(r@),
        same_identity(r@, account@),
        held_keys(r@) == held_keys(account@),
        unpublished_keys(r@).dom().is_empty(),
{
    let pickle: AccountPickle = serde_json::from_slice(account).expect("an account's pickle");
    let mut account = Account::from_pickle(pickle);
    account.mark_keys_as_published();
    serde_json::to_vec(&account.pickle()).expect("a pickle is JSON")
}

/// `Account::create_inbound_session` of a pickled account: the account after it, whose identity keys
/// stay, and which has lost the one-time key that the message names, where it held it as one; the
/// session and the plaintext, or the error's message.
#[verifier::external_body]
fn account_inbound(account: &[u8], sender_key: &str, body: &str) -> (r: Result<
    (Vec<u8>, Vec<u8>, Vec<u8>),
    String,
>)
    requires
        is_account(account@),
        is_curve_key(sender_key@),
        prekey_error(body@) is None,
    ensures
        match r {
            Ok(c) => inbound_creation(account@, sender_key@, body@) is Ok && inbound_creation(
                account@,
                sender_key@,
                body@,
            )->Ok_0 == (c.0@, c.1@, c.2@) && is_account(c.0@) && same_identity(c.0@, account@)
                && held_keys(c.0@) == held_keys(account@).remove(named_key(body@))
                && is_olm_session(c.1@),
            Err(e) => inbound_creation(account@, sender_key@, body@) is Err && inbound_creation(
                account@,
                sender_key@,
                body@,
            )->Err_0 == e@,
        },
{
    let pickle: AccountPickle = serde_json::from_slice(account).expect("an account's pickle");
    let mut account = Account::from_pickle(pickle);
    let key = Curve25519PublicKey::from_base64(sender_key).expect("a key");
    let message = PreKeyMessage::from_base64(body).expect("a pre-key message");
    let made = account.create_inbound_session(key, &message).map_err(|e| e.to_string())?;
    let session = serde_json::to_vec(&made.session.pickle()).expect("a pickle is JSON");
    let account = serde_json::to_vec(&account.pickle()).expect("a pickle is JSON");
    Ok((account, session, made.plaintext))
}

/// `Account::create_outbound_session` of a pickled account, with version 1 of the session's
/// configuration. The session depends on chance, so only that it is one of those possible is said
/// of it, and that the account which has the identity key and holds the one-time key reads its first
/// message.
#[verifier::external_body]
fn account_outbound(account: &[u8], their_key: &str, one_time_key: &str) -> (r: Vec<u8>)
    requires
        is_account(account@),
        is_curve_key(their_key@),
        is_curve_key(one_time_key@),
    ensures
        is_olm_session(r@),
        outbound_creation(account@, their_key@, one_time_key@, r@),
        forall|other: Seq<u8>|
            is_account(other) && curve25519_of(other) == their_key@ && #[trigger] held_keys(
                other,
            ).count(one_time_key@) > 0 ==> starts_with(r@, other, curve25519_of(account@)),
{
    let pickle: AccountPickle = serde_json::from_slice(account).expect("an account's pickle");
    let theirs = Curve25519PublicKey::from_base64(their_key).expect("a key");
    let once = Curve25519PublicKey::from_base64(one_time_key).expect("a key");
    let account = Account::from_pickle(pickle);
    let session = account.create_outbound_session(SessionConfig::version_1(), theirs, once);
    serde_json::to_vec(&session.pickle()).expect("a pickle is JSON")
}

/// An Olm account: the identity keys of a device and its one-time keys.
pub struct OlmAccount {
    pickle: Vec<u8>,
}

impl View for OlmAccount {
    type V = Seq<u8>;

    closed spec fn view(&self) -> Seq<u8> {
        self.pickle@
    }
}

impl OlmAccount {
    #[verifier::type_invariant]
    spec fn valid(self) -> bool {
        is_account(self.pickle@)
    }

    /// Makes an account with new keys.
    pub fn new() -> (account: OlmAccount)
        ensures
            is_account(account@),
            unpublished_keys(account@).dom().is_empty(),
    {
        OlmAccount { pickle: account_new() }
    }

    /// Reads an account from its pickle.
    pub fn from_pickle(bytes: &[u8]) -> (r: Result<OlmAccount, String>)
        ensures
            match r {
                Ok(a) => account_pickle(bytes@) is Ok && account_pickle(bytes@)->Ok_0 == a@,
                Err(e) => account_pickle(bytes@) is Err && account_pickle(bytes@)->Err_0 == e@,
            },
    {
        match account_unpickle(bytes) {
            Ok(pickle) => Ok(OlmAccount { pickle }),
            Err(e) => Err(e),
        }
    }

    /// The account's pickle.
    pub fn pickle(&self) -> (bytes: Vec<u8>)
        ensures
            bytes@ == self@,
    {
        self.pickle.clone()
    }

    /// The Ed25519 identity key, in base64.
    pub fn ed25519_key(&self) -> (key: String)
        ensures
            key@ == ed25519_of(self@),
    {
        proof {
            use_type_invariant(self);
        }
        account_ed25519(self.pickle.as_slice())
    }

    /// The Curve25519 identity key, in base64.
    pub fn curve25519_key(&self) -> (key: String)
        ensures
            key@ == curve25519_of(self@),
            is_curve_key(key@),
    {
        proof {
            use_type_invariant(self);
        }
        account_curve25519(self.pickle.as_slice())
    }

    /// Signs a message; the signature is in base64.
    pub fn sign(&self, message: &[u8]) -> (signature: String)
        ensures
            signature@ == signature_of(self@, message@),
    {
        proof {
            use_type_invariant(self);
        }
        account_sign(self.pickle.as_slice(), message)
    }

    /// The account with further one-time keys, not yet published.
    pub fn with_one_time_keys(self, count: usize) -> (account: OlmAccount)
        ensures
            is_account(account@),
            keys_generated(self@, count, account@),
            same_identity(account@, self@),
            added_keys(self@, account@).finite(),
            added_keys(self@, account@).len() <= count,
            forall|id: Seq<char>| #[trigger]
                added_keys(self@, account@).contains(id) ==> held_keys(account@).count(
                    unpublished_keys(account@)[id],
                ) > 0,
            count > 0 ==> !unpublished_keys(account@).dom().is_empty(),
    {
        proof {
            use_type_invariant(&self);
        }
        OlmAccount { pickle: account_generate(self.pickle.as_slice(), count) }
    }

    /// The one-time keys that were not published, with their ids, in base64.
    pub fn one_time_keys(&self) -> (keys: Vec<(String, String)>)
        ensures
            lists_keys(keys@, unpublished_keys(self@)),
            forall|i: int| 0 <= i < keys.len() ==> is_curve_key((#[trigger] keys[i]).1@),
    {
        proof {
            use_type_invariant(self);
        }
        account_one_time_keys(self.pickle.as_slice())
    }

    /// The account with its keys marked as published.
    pub fn with_keys_published(self) -> (account: OlmAccount)
        ensures
            is_account(account@),
            account@ == published_account(self@),
            same_identity(account@, self@),
            held_keys(account@) == held_keys(self@),
            unpublished_keys(account@).dom().is_empty(),
    {
        proof {
            use_type_invariant(&self);
        }
        OlmAccount { pickle: account_mark_published(self.pickle.as_slice()) }
    }

    /// Starts a session from a pre-key message: the account after it, the session and the
    /// plaintext.
    pub fn create_inbound_session(self, sender: &CurveKey, message: &PreKeyText) -> (r: Result<
        (OlmAccount, OlmSession, Vec<u8>),
        String,
    >)
        ensures
            match r {
                Ok(c) => inbound_creation(self@, sender@, message@) is Ok && inbound_creation(
                    self@,
                    sender@,
                    message@,
                )->Ok_0 == (c.0@, c.1@, c.2@) && same_identity(c.0@, self@) && held_keys(c.0@)
                    == held_keys(self@).remove(named_key(message@)),
                Err(e) => inbound_creation(self@, sender@, message@) is Err && inbound_creation(
                    self@,
                    sender@,
                    message@,
                )->Err_0 == e@,
            },
    {
        proof {
            use_type_invariant(&self);
            use_type_invariant(sender);
            use_type_invariant(message);
        }
        match account_inbound(
            self.pickle.as_slice(),
            sender.base64.as_str(),
            message.body.as_str(),
        ) {
            Ok((account, session, plaintext)) => Ok(
                (OlmAccount { pickle: account }, OlmSession { pickle: session }, plaintext),
            ),
            Err(e) => Err(e),
        }
    }

    /// Starts a session with another device, given its identity key and one of its one-time keys.
    pub fn create_outbound_session(&self, their_key: &CurveKey, one_time_key: &CurveKey) -> (session:
        OlmSession)
        ensures
            outbound_creation(self@, their_key@, one_time_key@, session@),
            forall|other: Seq<u8>|
                is_account(other) && curve25519_of(other) == their_key@ && #[trigger] held_keys(
                    other,
                ).count(one_time_key@) > 0 ==> starts_with(session@, other, curve25519_of(self@)),
    {
        proof {
            use_type_invariant(self);
            use_type_invariant(their_key);
            use_type_invariant(one_time_key);
        }
        OlmSession {
            pickle: account_outbound(
                self.pickle.as_slice(),
                their_key.base64.as_str(),
                one_time_key.base64.as_str(),
            ),
        }
    }
}

} // verus!
