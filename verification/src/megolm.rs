//! Megolm: sessions that encrypt the messages of a room.
//!
//! Sessions are held as their pickles, the JSON that vodozemac writes of them.

use vodozemac::megolm::{
    GroupSession, GroupSessionPickle, InboundGroupSession, InboundGroupSessionPickle,
    MegolmMessage, SessionConfig, SessionKey,
};
use vstd::prelude::*;
use vstd::string::*;
use vstd::utf8::*;

verus! {

// ---------------------------------------------------------------------------
// Inbound sessions
// ---------------------------------------------------------------------------

/// What `serde_json` and vodozemac make of the pickle of an inbound session, pickled again, or the
/// message of the error.
pub uninterp spec fn inbound_pickle(bytes: Seq<u8>) -> Result<Seq<u8>, Seq<char>>;

/// Whether the bytes are the pickle of an inbound session as vodozemac writes it.
pub open spec fn is_inbound(bytes: Seq<u8>) -> bool {
    inbound_pickle(bytes) is Ok && inbound_pickle(bytes)->Ok_0 == bytes
}

/// The pickle of the inbound session that a session key in base64 gives, or the message of the
/// error.
pub uninterp spec fn inbound_of_key(session_key: Seq<char>) -> Result<Seq<u8>, Seq<char>>;

/// The id of a pickled inbound session.
pub uninterp spec fn inbound_id(session: Seq<u8>) -> Seq<char>;

/// Why `MegolmMessage::from_base64` does not accept a text, if it does not.
pub uninterp spec fn ciphertext_error(ciphertext: Seq<char>) -> Option<Seq<char>>;

/// What a pickled inbound session makes of a ciphertext in base64: plaintext and message index, or
/// the message of the error.
pub uninterp spec fn inbound_decryption(session: Seq<u8>, ciphertext: Seq<char>) -> Result<
    (Seq<u8>, u32),
    Seq<char>,
>;

/// `serde_json::from_slice` to an `InboundGroupSessionPickle`, and
/// `InboundGroupSession::from_pickle`; what it gives is pickled again with
/// `InboundGroupSession::pickle`, and that pickle reads back as itself.
#[verifier::external_body]
fn inbound_unpickle(bytes: &[u8]) -> (r: Result<Vec<u8>, String>)
    ensures
        match r {
            Ok(p) => inbound_pickle(bytes@) is Ok && inbound_pickle(bytes@)->Ok_0 == p@
                && is_inbound(p@),
            Err(e) => inbound_pickle(bytes@) is Err && inbound_pickle(bytes@)->Err_0 == e@,
        },
{
    let pickle: InboundGroupSessionPickle = match serde_json::from_slice(bytes) {
        Ok(pickle) => pickle,
        Err(e) => return Err(e.to_string()),
    };
    let session = InboundGroupSession::from_pickle(pickle);
    serde_json::to_vec(&session.pickle()).map_err(|e| e.to_string())
}

/// `SessionKey::from_base64`, and `InboundGroupSession::new` with version 1 of the session's
/// configuration: the pickled session, or the error's message.
#[verifier::external_body]
fn inbound_new(session_key: &str) -> (r: Result<Vec<u8>, String>)
    ensures
        match r {
            Ok(p) => inbound_of_key(session_key@) is Ok && inbound_of_key(session_key@)->Ok_0 == p@
                && is_inbound(p@),
            Err(e) => inbound_of_key(session_key@) is Err && inbound_of_key(session_key@)->Err_0
                == e@,
        },
{
    let key = match SessionKey::from_base64(session_key) {
        Ok(key) => key,
        Err(e) => return Err(e.to_string()),
    };
    let session = InboundGroupSession::new(&key, SessionConfig::version_1());
    serde_json::to_vec(&session.pickle()).map_err(|e| e.to_string())
}

/// `InboundGroupSession::session_id` of a pickled session.
#[verifier::external_body]
fn inbound_session_id(session: &[u8]) -> (r: String)
    requires
        is_inbound(session@),
    ensures
        r@ == inbound_id(session@),
{
    let pickle: InboundGroupSessionPickle = serde_json::from_slice(session).expect("a pickle");
    InboundGroupSession::from_pickle(pickle).session_id()
}

/// `MegolmMessage::from_base64`: the message of its error, if it fails.
#[verifier::external_body]
fn ciphertext_problem(ciphertext: &str) -> (r: Option<String>)
    ensures
        match r {
            Some(e) => ciphertext_error(ciphertext@) == Some(e@),
            None => ciphertext_error(ciphertext@) is None,
        },
{
    match MegolmMessage::from_base64(ciphertext) {
        Ok(_) => None,
        Err(e) => Some(e.to_string()),
    }
}

/// `InboundGroupSession::decrypt` of a pickled session: the plaintext and the message's index, or
/// the error's message. The pickle of a session holds its first ratchet alone, which decrypting
/// does not change, so it is not given back.
#[verifier::external_body]
fn inbound_decrypt(session: &[u8], ciphertext: &str) -> (r: Result<(Vec<u8>, u32), String>)
    requires
        is_inbound(session@),
        ciphertext_error(ciphertext@) is None,
    ensures
        match r {
            Ok(d) => inbound_decryption(session@, ciphertext@) is Ok && inbound_decryption(
                session@,
                ciphertext@,
            )->Ok_0 == (d.0@, d.1),
            Err(e) => inbound_decryption(session@, ciphertext@) is Err && inbound_decryption(
                session@,
                ciphertext@,
            )->Err_0 == e@,
        },
{
    let pickle: InboundGroupSessionPickle = serde_json::from_slice(session).expect("a pickle");
    let message = MegolmMessage::from_base64(ciphertext).expect("a ciphertext");
    match InboundGroupSession::from_pickle(pickle).decrypt(&message) {
        Ok(d) => Ok((d.plaintext, d.message_index)),
        Err(e) => Err(e.to_string()),
    }
}

/// A ciphertext of a room message.
pub struct Ciphertext {
    base64: String,
}

impl View for Ciphertext {
    type V = Seq<char>;

    closed spec fn view(&self) -> Seq<char> {
        self.base64@
    }
}

impl Ciphertext {
    #[verifier::type_invariant]
    spec fn valid(self) -> bool {
        ciphertext_error(self.base64@) is None
    }

    /// Reads a ciphertext from base64.
    pub fn from_base64(ciphertext: &str) -> (r: Result<Ciphertext, String>)
        ensures
            match r {
                Ok(c) => ciphertext_error(ciphertext@) is None && c@ == ciphertext@,
                Err(e) => ciphertext_error(ciphertext@) == Some(e@),
            },
    {
        match ciphertext_problem(ciphertext) {
            Some(e) => Err(e),
            None => Ok(Ciphertext { base64: ciphertext.to_owned() }),
        }
    }
}

/// A session that decrypts room messages.
pub struct InboundSession {
    pickle: Vec<u8>,
}

impl View for InboundSession {
    type V = Seq<u8>;

    closed spec fn view(&self) -> Seq<u8> {
        self.pickle@
    }
}

impl InboundSession {
    #[verifier::type_invariant]
    spec fn valid(self) -> bool {
        is_inbound(self.pickle@)
    }

    /// Makes the session that a session key gives.
    pub fn from_session_key(session_key: &str) -> (r: Result<InboundSession, String>)
        ensures
            match r {
                Ok(s) => inbound_of_key(session_key@) is Ok && inbound_of_key(session_key@)->Ok_0
                    == s@ && is_inbound(s@),
                Err(e) => inbound_of_key(session_key@) is Err && inbound_of_key(session_key@)->Err_0
                    == e@,
            },
    {
        match inbound_new(session_key) {
            Ok(pickle) => Ok(InboundSession { pickle }),
            Err(e) => Err(e),
        }
    }

    /// Reads a session from its pickle.
    pub fn from_pickle(bytes: &[u8]) -> (r: Result<InboundSession, String>)
        ensures
            match r {
                Ok(s) => inbound_pickle(bytes@) is Ok && inbound_pickle(bytes@)->Ok_0 == s@
                    && is_inbound(s@),
                Err(e) => inbound_pickle(bytes@) is Err && inbound_pickle(bytes@)->Err_0 == e@,
            },
    {
        match inbound_unpickle(bytes) {
            Ok(pickle) => Ok(InboundSession { pickle }),
            Err(e) => Err(e),
        }
    }

    /// The session's pickle.
    pub fn pickle(&self) -> (bytes: Vec<u8>)
        ensures
            bytes@ == self@,
    {
        self.pickle.clone()
    }

    /// The session's id.
    pub fn session_id(&self) -> (id: String)
        ensures
            id@ == inbound_id(self@),
    {
        proof {
            use_type_invariant(self);
        }
        inbound_session_id(self.pickle.as_slice())
    }

    /// Decrypts a ciphertext: the plaintext and the message's index.
    pub fn decrypt(&self, ciphertext: &Ciphertext) -> (r: Result<(Vec<u8>, u32), String>)
        ensures
            match r {
                Ok(d) => inbound_decryption(self@, ciphertext@) is Ok && inbound_decryption(
                    self@,
                    ciphertext@,
                )->Ok_0 == (d.0@, d.1),
                Err(e) => inbound_decryption(self@, ciphertext@) is Err && inbound_decryption(
                    self@,
                    ciphertext@,
                )->Err_0 == e@,
            },
    {
        proof {
            use_type_invariant(self);
            use_type_invariant(ciphertext);
        }
        inbound_decrypt(self.pickle.as_slice(), ciphertext.base64.as_str())
    }
}

// ---------------------------------------------------------------------------
// Outbound sessions
// ---------------------------------------------------------------------------

/// What `serde_json` and vodozemac make of the pickle of an outbound session, pickled again, or
/// the message of the error.
pub uninterp spec fn outbound_pickle(bytes: Seq<u8>) -> Result<Seq<u8>, Seq<char>>;

/// Whether the bytes are the pickle of an outbound session as vodozemac writes it.
pub open spec fn is_outbound(bytes: Seq<u8>) -> bool {
    outbound_pickle(bytes) is Ok && outbound_pickle(bytes)->Ok_0 == bytes
}

/// The id of a pickled outbound session.
pub uninterp spec fn outbound_id(session: Seq<u8>) -> Seq<char>;

/// The session key of a pickled outbound session, in base64.
pub uninterp spec fn outbound_key(session: Seq<u8>) -> Seq<char>;

/// The index of the next message of a pickled outbound session.
pub uninterp spec fn outbound_index(session: Seq<u8>) -> u32;

/// What a pickled outbound session makes of a text: the session after it and the ciphertext in
/// base64.
pub uninterp spec fn outbound_encryption(session: Seq<u8>, plaintext: Seq<char>) -> (
    Seq<u8>,
    Seq<char>,
);

/// The version of the configuration of a pickled outbound session.
pub uninterp spec fn outbound_version(session: Seq<u8>) -> u8;

/// Whether a pickled inbound session reads what a pickled outbound session encrypts from now on: it
/// has the same configuration and signing key, and its ratchet is one that the other has passed or
/// stands at.
pub uninterp spec fn inbound_reads(inbound: Seq<u8>, outbound: Seq<u8>) -> bool;

/// Whether a pickled inbound session decrypts a ciphertext to a text, as the message of an index.
pub open spec fn decrypts_to(
    inbound: Seq<u8>,
    ciphertext: Seq<char>,
    plaintext: Seq<char>,
    index: u32,
) -> bool {
    &&& ciphertext_error(ciphertext) is None
    &&& inbound_decryption(inbound, ciphertext) is Ok
    &&& inbound_decryption(inbound, ciphertext)->Ok_0 == (encode_utf8(plaintext), index)
}

/// `GroupSession::new` with version 1 of the configuration, pickled: a session with keys drawn at
/// random, at index 0.
#[verifier::external_body]
fn outbound_new() -> (r: Vec<u8>)
    ensures
        is_outbound(r@),
        outbound_index(r@) == 0,
        outbound_version(r@) == 1,
{
    let session = GroupSession::new(SessionConfig::version_1());
    serde_json::to_vec(&session.pickle()).expect("a pickle is JSON")
}

/// `serde_json::from_slice` to a `GroupSessionPickle`, and `GroupSession::from_pickle`; what it
/// gives is pickled again with `GroupSession::pickle`, and that pickle reads back as itself.
#[verifier::external_body]
fn outbound_unpickle(bytes: &[u8]) -> (r: Result<Vec<u8>, String>)
    ensures
        match r {
            Ok(p) => outbound_pickle(bytes@) is Ok && outbound_pickle(bytes@)->Ok_0 == p@
                && is_outbound(p@),
            Err(e) => outbound_pickle(bytes@) is Err && outbound_pickle(bytes@)->Err_0 == e@,
        },
{
    let pickle: GroupSessionPickle = match serde_json::from_slice(bytes) {
        Ok(pickle) => pickle,
        Err(e) => return Err(e.to_string()),
    };
    let session = GroupSession::from_pickle(pickle);
    serde_json::to_vec(&session.pickle()).map_err(|e| e.to_string())
}

/// `GroupSession::session_id` of a pickled session.
#[verifier::external_body]
fn outbound_session_id(session: &[u8]) -> (r: String)
    requires
        is_outbound(session@),
    ensures
        r@ == outbound_id(session@),
{
    let pickle: GroupSessionPickle = serde_json::from_slice(session).expect("a pickle");
    GroupSession::from_pickle(pickle).session_id()
}

/// `GroupSession::session_key` of a pickled session, in base64: it gives an inbound session with
/// the same id. With version 1 of the configuration, as the inbound session has it, that reads what
/// the session encrypts from now on.
#[verifier::external_body]
fn outbound_session_key(session: &[u8]) -> (r: String)
    requires
        is_outbound(session@),
    ensures
        r@ == outbound_key(session@),
        inbound_of_key(r@) is Ok,
        inbound_id(inbound_of_key(r@)->Ok_0) == outbound_id(session@),
        outbound_version(session@) == 1 ==> inbound_reads(inbound_of_key(r@)->Ok_0, session@),
{
    let pickle: GroupSessionPickle = serde_json::from_slice(session).expect("a pickle");
    GroupSession::from_pickle(pickle).session_key().to_base64()
}

/// `GroupSession::message_index` of a pickled session.
#[verifier::external_body]
fn outbound_message_index(session: &[u8]) -> (r: u32)
    requires
        is_outbound(session@),
    ensures
        r == outbound_index(session@),
{
    let pickle: GroupSessionPickle = serde_json::from_slice(session).expect("a pickle");
    GroupSession::from_pickle(pickle).message_index()
}

/// `GroupSession::encrypt` of a pickled session: the session after it, one message further and
/// with the same id and configuration, and the ciphertext in base64. An inbound session that reads
/// what the session encrypts decrypts it to the text, and reads what follows. The 32-bit index must
/// not run over.
#[verifier::external_body]
fn outbound_encrypt(session: &[u8], plaintext: &str) -> (r: (Vec<u8>, String))
    requires
        is_outbound(session@),
        outbound_index(session@) < u32::MAX,
    ensures
        outbound_encryption(session@, plaintext@) == (r.0@, r.1@),
        is_outbound(r.0@),
        outbound_id(r.0@) == outbound_id(session@),
        outbound_index(r.0@) == outbound_index(session@) + 1,
        outbound_version(r.0@) == outbound_version(session@),
        forall|inbound: Seq<u8>| #[trigger]
            inbound_reads(inbound, session@) ==> inbound_reads(inbound, r.0@) && decrypts_to(
                inbound,
                r.1@,
                plaintext@,
                outbound_index(session@),
            ),
{
    let pickle: GroupSessionPickle = serde_json::from_slice(session).expect("a pickle");
    let mut session = GroupSession::from_pickle(pickle);
    let ciphertext = session.encrypt(plaintext).to_base64();
    (serde_json::to_vec(&session.pickle()).expect("a pickle is JSON"), ciphertext)
}

/// A session that encrypts room messages.
pub struct OutboundSession {
    pickle: Vec<u8>,
}

impl View for OutboundSession {
    type V = Seq<u8>;

    closed spec fn view(&self) -> Seq<u8> {
        self.pickle@
    }
}

impl OutboundSession {
    #[verifier::type_invariant]
    spec fn valid(self) -> bool {
        is_outbound(self.pickle@)
    }

    /// Makes a session with new keys.
    pub fn new() -> (session: OutboundSession)
        ensures
            is_outbound(session@),
            outbound_index(session@) == 0,
            outbound_version(session@) == 1,
    {
        OutboundSession { pickle: outbound_new() }
    }

    /// Reads a session from its pickle.
    pub fn from_pickle(bytes: &[u8]) -> (r: Result<OutboundSession, String>)
        ensures
            match r {
                Ok(s) => outbound_pickle(bytes@) is Ok && outbound_pickle(bytes@)->Ok_0 == s@,
                Err(e) => outbound_pickle(bytes@) is Err && outbound_pickle(bytes@)->Err_0 == e@,
            },
    {
        match outbound_unpickle(bytes) {
            Ok(pickle) => Ok(OutboundSession { pickle }),
            Err(e) => Err(e),
        }
    }

    /// The session's pickle.
    pub fn pickle(&self) -> (bytes: Vec<u8>)
        ensures
            bytes@ == self@,
    {
        self.pickle.clone()
    }

    /// The session's id.
    pub fn session_id(&self) -> (id: String)
        ensures
            id@ == outbound_id(self@),
    {
        proof {
            use_type_invariant(self);
        }
        outbound_session_id(self.pickle.as_slice())
    }

    /// The key with which others decrypt the messages from the next one on.
    pub fn session_key(&self) -> (key: String)
        ensures
            key@ == outbound_key(self@),
            inbound_of_key(key@) is Ok,
            inbound_id(inbound_of_key(key@)->Ok_0) == outbound_id(self@),
            outbound_version(self@) == 1 ==> inbound_reads(inbound_of_key(key@)->Ok_0, self@),
    {
        proof {
            use_type_invariant(self);
        }
        outbound_session_key(self.pickle.as_slice())
    }

    /// The index of the next message.
    pub fn message_index(&self) -> (index: u32)
        ensures
            index == outbound_index(self@),
    {
        proof {
            use_type_invariant(self);
        }
        outbound_message_index(self.pickle.as_slice())
    }

    /// Encrypts a text: the session after it and the ciphertext in base64, or nothing where the
    /// session has no index left.
    pub fn encrypt(self, plaintext: &str) -> (r: Option<(OutboundSession, String)>)
        ensures
            match r {
                Some(e) => outbound_index(self@) < u32::MAX && outbound_encryption(
                    self@,
                    plaintext@,
                ) == (e.0@, e.1@) && outbound_id(e.0@) == outbound_id(self@) && outbound_index(
                    e.0@,
                ) == outbound_index(self@) + 1 && outbound_version(e.0@) == outbound_version(self@)
                    && (forall|inbound: Seq<u8>| #[trigger]
                    inbound_reads(inbound, self@) ==> inbound_reads(inbound, e.0@) && decrypts_to(
                        inbound,
                        e.1@,
                        plaintext@,
                        outbound_index(self@),
                    )),
                None => outbound_index(self@) == u32::MAX,
            },
    {
        proof {
            use_type_invariant(&self);
        }
        if outbound_message_index(self.pickle.as_slice()) == u32::MAX {
            return None;
        }
        let (pickle, ciphertext) = outbound_encrypt(self.pickle.as_slice(), plaintext);
        Some((OutboundSession { pickle }, ciphertext))
    }
}

} // verus!
