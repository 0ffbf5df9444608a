//! Decryption: room keys that other devices deliver, and room events.

use vstd::prelude::*;
use vstd::string::*;
use vstd::utf8::*;

use crate::codec::{self, text_from_utf8};
use crate::crypto_store::{
    self, host_decrypt_pickle, host_encrypt_pickle, open_account, open_inbound_session,
    open_olm_session, read_account, read_inbound_megolm_session, read_olm_sessions,
    start_saving_olm, write_inbound_megolm_session, InboundView, SaveOlm, StoredAccount,
    StoredInboundMegolmSession, StoredOlmSession,
};
use crate::device::{save_account, SaveAccount};
use crate::encryption::{self, EncryptMessage};
use crate::host::{self, log_warning, CallView, HostCall, HostReply, Step};
use crate::json::{self, read_error, read_number, read_presence, read_string};
use crate::json_tree::{self, JsonTree};
use crate::megolm::{self, Ciphertext, InboundSession};
use crate::olm::{self, CurveKey, NormalText, OlmSession, OlmText, PreKeyText};
use crate::session_cache::MegolmSessionCache;
use crate::text::{self, concat2, concat4, concat5, decimal, same_text};
use crate::types::{self, find_entry, OlmEncryptedContent, RoomEvent, ToDeviceEvent};

verus! {

// ---------------------------------------------------------------------------
// Room keys
// ---------------------------------------------------------------------------

/// What an m.room_key event delivers.
pub struct RoomKeyView {
    pub room_id: Seq<char>,
    pub session_id: Seq<char>,
    pub sender_key: Seq<char>,
    /// The pickle of the inbound session.
    pub pickle: Seq<u8>,
}

/// The room key in the content of an m.room_key event, which stands at a place of a JSON text, or
/// why it holds none.
pub open spec fn room_key(json: Seq<u8>, at: Seq<char>) -> Result<RoomKeyView, Seq<char>> {
    let algorithm = json::string_at(json, at + "/algorithm"@);
    let room_id = json::string_at(json, at + "/room_id"@);
    let session_id = json::string_at(json, at + "/session_id"@);
    let session_key = json::string_at(json, at + "/session_key"@);
    let sender_key = match json::string_at(json, at + "/sender_key"@) {
        Some(key) => key,
        None => ""@,
    };
    if algorithm is None {
        Err("room_key missing algorithm"@)
    } else if algorithm->0 != "m.megolm.v1.aes-sha2"@ {
        Err("Unsupported room key algorithm: "@ + algorithm->0)
    } else if room_id is None {
        Err("room_key missing room_id"@)
    } else if session_id is None {
        Err("room_key missing session_id"@)
    } else if session_key is None {
        Err("room_key missing session_key"@)
    } else {
        match megolm::inbound_of_key(session_key->0) {
            Err(e) => Err("Invalid Megolm session key: "@ + e),
            Ok(pickle) => if megolm::inbound_id(pickle) != session_id->0 {
                Err(
                    "Session ID mismatch: expected "@ + session_id->0 + ", got "@
                        + megolm::inbound_id(pickle),
                )
            } else {
                Ok(
                    RoomKeyView {
                        room_id: room_id->0,
                        session_id: session_id->0,
                        sender_key,
                        pickle,
                    },
                )
            },
        }
    }
}

/// Stores the inbound session of a room key.
pub enum RoomKey {
    /// The host is to encrypt the pickle, which then goes into the record.
    Sealing(StoredInboundMegolmSession),
    /// The host is to write the record.
    Writing(StoredInboundMegolmSession),
}

impl RoomKey {
    /// The flow starts: the host is asked to encrypt the pickle of the session that the key gives.
    pub open spec fn begins(
        json: Seq<u8>,
        at: Seq<char>,
        step: Step<RoomKey, Result<StoredInboundMegolmSession, String>>,
    ) -> bool {
        match room_key(json, at) {
            Err(e) => step.fails(e),
            Ok(key) => step matches Step::Ask(call, RoomKey::Sealing(record)) && call@
                == CallView::Encrypt(key.pickle) && record@ == (InboundView {
                room_id: key.room_id,
                session_id: key.session_id,
                sender_key: key.sender_key,
                pickled_session: Seq::empty(),
                forwarded: false,
                seen_indices: Seq::empty(),
            }),
        }
    }

    /// The flow goes on from an answer: the record is written, and given.
    pub open spec fn moves(
        self,
        reply: HostReply,
        step: Step<RoomKey, Result<StoredInboundMegolmSession, String>>,
    ) -> bool {
        match (self, reply) {
            (RoomKey::Sealing(record), HostReply::Bytes(encrypted)) => {
                match crypto_store::sealed_pickle(encrypted) {
                    Ok(pickled_session) => step matches Step::Ask(call, RoomKey::Writing(sealed))
                        && sealed@ == (InboundView { pickled_session, ..record@ }) && call@
                        == CallView::Write(
                        crypto_store::inbound_path(record.room_id@, record.session_id@),
                        sealed@.json(),
                    ) && crypto_store::unsealed_bytes(pickled_session) == Ok::<Seq<u8>, Seq<char>>(
                        encrypted->Ok_0@,
                    ),
                    Err(e) => step.fails(e),
                }
            },
            (RoomKey::Writing(record), HostReply::Written(result)) => match result {
                Ok(_) => step.gives(Ok(record)),
                Err(e) => step.gives(Err(e)),
            },
            _ => step.strays(self),
        }
    }

    /// Goes on from an answer of the host.
    pub fn resume(self, reply: HostReply) -> (step: Step<
        RoomKey,
        Result<StoredInboundMegolmSession, String>,
    >)
        ensures
            self.moves(reply, step),
    {
        match (self, reply) {
            (RoomKey::Sealing(mut record), HostReply::Bytes(encrypted)) => {
                match host_encrypt_pickle(encrypted) {
                    Ok(pickled) => {
                        record.pickled_session = pickled;
                        Step::Ask(write_inbound_megolm_session(&record), RoomKey::Writing(record))
                    },
                    Err(e) => Step::Done(Err(e)),
                }
            },
            (RoomKey::Writing(record), HostReply::Written(result)) => match result {
                Ok(_) => Step::Done(Ok(record)),
                Err(e) => Step::Done(Err(e)),
            },
            (flow, _) => Step::Stray(flow),
        }
    }
}

/// Handle an m.room_key event content — store the inbound Megolm session.
///
/// The content stands at a place of a JSON text.
pub fn handle_room_key_event(json: &[u8], at: &str) -> (step: Step<
    RoomKey,
    Result<StoredInboundMegolmSession, String>,
>)
    ensures
        RoomKey::begins(json@, at@, step),
{
    let algorithm = match read_string(json, concat2(at, "/algorithm").as_str()) {
        Some(algorithm) => algorithm,
        None => return Step::Done(Err("room_key missing algorithm".to_owned())),
    };
    if !same_text(algorithm.as_str(), "m.megolm.v1.aes-sha2") {
        return Step::Done(
            Err(concat2("Unsupported room key algorithm: ", algorithm.as_str())),
        );
    }
    let room_id = match read_string(json, concat2(at, "/room_id").as_str()) {
        Some(room_id) => room_id,
        None => return Step::Done(Err("room_key missing room_id".to_owned())),
    };
    let session_id = match read_string(json, concat2(at, "/session_id").as_str()) {
        Some(session_id) => session_id,
        None => return Step::Done(Err("room_key missing session_id".to_owned())),
    };
    let session_key = match read_string(json, concat2(at, "/session_key").as_str()) {
        Some(session_key) => session_key,
        None => return Step::Done(Err("room_key missing session_key".to_owned())),
    };
    let sender_key = match read_string(json, concat2(at, "/sender_key").as_str()) {
        Some(sender_key) => sender_key,
        None => "".to_owned(),
    };
    let inbound = match InboundSession::from_session_key(session_key.as_str()) {
        Ok(inbound) => inbound,
        Err(e) => return Step::Done(Err(concat2("Invalid Megolm session key: ", e.as_str()))),
    };
    let inbound_id = inbound.session_id();
    if !same_text(inbound_id.as_str(), session_id.as_str()) {
        return Step::Done(
            Err(
                concat4(
                    "Session ID mismatch: expected ",
                    session_id.as_str(),
                    ", got ",
                    inbound_id.as_str(),
                ),
            ),
        );
    }
    let record = StoredInboundMegolmSession {
        room_id,
        session_id,
        sender_key,
        pickled_session: String::new(),
        forwarded: false,
        seen_indices: Vec::new(),
    };
    assert(record.pickled_session@ =~= Seq::empty());
    assert(record.seen_indices@ =~= Seq::empty());
    Step::Ask(HostCall::Encrypt(inbound.pickle()), RoomKey::Sealing(record))
}

// ---------------------------------------------------------------------------
// Olm messages
// ---------------------------------------------------------------------------

/// Decrypts an Olm message, trying existing sessions first, then creating a new inbound session for
/// pre-key messages.
pub enum DecryptOlm {
    /// The host is to read the sessions with the sender.
    Reading(CurveKey, OlmText),
    /// The host is to decrypt the pickle of a session. Holds the number of sessions in all, the
    /// session, and those that follow it.
    Trying(CurveKey, OlmText, usize, StoredOlmSession, Vec<StoredOlmSession>),
    /// The host is to encrypt the pickle of the session that decrypted the message, which then goes
    /// into the record. Holds the stored pickle that it replaces, if any, and the plaintext.
    Updating(CurveKey, StoredOlmSession, Option<String>, Vec<u8>),
    /// The host is to tell the time, which goes into the record.
    Stamping(CurveKey, StoredOlmSession, Option<String>, Vec<u8>),
    /// The record is to be saved.
    Saving(Vec<u8>, SaveOlm),
    /// No session decrypts the message: the host is to read the account.
    Starting(CurveKey, PreKeyText),
    /// The host is to decrypt the pickle of the account.
    Unsealing(CurveKey, PreKeyText, StoredAccount),
    /// The account, from which a one-time key is gone, is to be saved. Holds the new session and the
    /// plaintext.
    SavingAccount(CurveKey, OlmSession, Vec<u8>, SaveAccount),
}

/// A step of the decryption of an Olm message.
pub type OlmStep = Step<DecryptOlm, Result<Vec<u8>, String>>;

impl DecryptOlm {
    /// The flow starts: the host is asked for the sessions with the sender.
    pub open spec fn begins(self, call: HostCall, sender: Seq<char>, message: OlmText) -> bool {
        &&& call@ == CallView::ReadOlmSessions(crypto_store::olm_sessions_path(sender))
        &&& self matches DecryptOlm::Reading(k, m)
        &&& k@ == sender
        &&& m == message
    }

    /// The first of the sessions that are left is tried. Where none is left, a pre-key message
    /// starts a new session with the account, and another message fails.
    pub open spec fn tries(
        key: CurveKey,
        message: OlmText,
        total: usize,
        left: Seq<StoredOlmSession>,
        step: OlmStep,
    ) -> bool {
        if left.len() > 0 {
            match crypto_store::unsealed_bytes(left[0].pickled_session@) {
                Ok(bytes) => step matches Step::Ask(
                    call,
                    DecryptOlm::Trying(k, m, t, current, rest),
                ) && call@ == CallView::Decrypt(bytes) && k == key && m == message && t == total
                    && current == left[0] && rest@ == left.skip(1),
                Err(e) => step.fails(e),
            }
        } else {
            match message {
                OlmText::PreKey(prekey) => step.asks(
                    CallView::ReadAccount("crypto/account.json"@),
                    DecryptOlm::Starting(key, prekey),
                ),
                OlmText::Normal(_) => step.fails(
                    "No matching Olm session for sender_key="@ + key@
                        + " and message is not a PreKey message (stored_sessions_tried="@
                        + text::decimal_text(total as nat) + ")"@,
                ),
            }
        }
    }

    /// What follows the attempt with a session: where it decrypted the message, the session is
    /// stored again; else the next one is tried.
    pub open spec fn attempted(
        key: CurveKey,
        message: OlmText,
        total: usize,
        current: StoredOlmSession,
        rest: Vec<StoredOlmSession>,
        outcome: Option<(OlmSession, Vec<u8>)>,
        step: OlmStep,
    ) -> bool {
        match outcome {
            Some((session, plaintext)) => step matches Step::Ask(
                call,
                DecryptOlm::Updating(k, record, replaced, p),
            ) && call@ == CallView::Encrypt(session@) && k == key && record == current && replaced
                == Some(current.pickled_session) && p == plaintext,
            None => Self::tries(key, message, total, rest@, step),
        }
    }

    /// The flow goes on from an answer: the sessions with the sender are tried one after the other;
    /// the one that decrypts the message, or a new one, is saved with the others.
    pub open spec fn moves(self, reply: HostReply, step: OlmStep) -> bool {
        match (self, reply) {
            (DecryptOlm::Reading(key, message), HostReply::OlmSessions(sessions)) => Self::tries(
                key,
                message,
                sessions.len(),
                sessions@,
                step,
            ),
            (
                DecryptOlm::Trying(key, message, total, current, rest),
                HostReply::Bytes(decrypted),
            ) => {
                match crypto_store::opened_pickle(decrypted, olm::olm_pickle(decrypted->Ok_0@)) {
                    Ok(session) => exists|outcome|
                        #![trigger olm::can_come_out(session, message, outcome)]
                        olm::can_come_out(session, message, outcome) && Self::attempted(
                            key,
                            message,
                            total,
                            current,
                            rest,
                            outcome,
                            step,
                        ),
                    Err(e) => step.fails(e),
                }
            },
            (DecryptOlm::Updating(key, record, replaced, plaintext), HostReply::Bytes(encrypted)) => {
                match crypto_store::sealed_pickle(encrypted) {
                    Ok(pickled) => step matches Step::Ask(call, DecryptOlm::Stamping(k, r, o, p))
                        && call@ == CallView::Now && k == key && r.sender_key == record.sender_key
                        && r.pickled_session@ == pickled && o == replaced && p == plaintext
                        && crypto_store::unsealed_bytes(pickled) == Ok::<Seq<u8>, Seq<char>>(
                        encrypted->Ok_0@,
                    ),
                    Err(e) => step.fails(e),
                }
            },
            (DecryptOlm::Stamping(key, record, replaced, plaintext), HostReply::Time(now)) => {
                step matches Step::Ask(call, DecryptOlm::Saving(p, save)) && p == plaintext
                    && save.begins(
                    call,
                    key@,
                    json::opt_text(replaced),
                    record.sender_key@,
                    record.pickled_session@,
                    now,
                )
            },
            (DecryptOlm::Saving(plaintext, save), _) => exists|inner|
                #![trigger save.moves(reply, inner)]
                save.moves(reply, inner) && inner.passes_to(
                    step,
                    |s: SaveOlm| DecryptOlm::Saving(plaintext, s),
                ) && match inner {
                    Step::Done(Ok(_)) => step.gives(Ok(plaintext)),
                    Step::Done(Err(e)) => step.gives(Err(e)),
                    _ => true,
                },
            (DecryptOlm::Starting(key, message), HostReply::Account(stored)) => match stored {
                None => step.fails("No crypto account for inbound session"@),
                Some(account) => match crypto_store::unsealed_bytes(account.pickled_account@) {
                    Ok(bytes) => step.asks(
                        CallView::Decrypt(bytes),
                        DecryptOlm::Unsealing(key, message, account),
                    ),
                    Err(e) => step.fails(e),
                },
            },
            (DecryptOlm::Unsealing(key, message, stored), HostReply::Bytes(decrypted)) => {
                match crypto_store::opened_pickle(
                    decrypted,
                    olm::account_pickle(decrypted->Ok_0@),
                ) {
                    Ok(account) => match olm::inbound_creation(account, key@, message@) {
                        Ok((after, session, plaintext)) => step matches Step::Ask(
                            call,
                            DecryptOlm::SavingAccount(k, s, p, save),
                        ) && k == key && s@ == session && p@ == plaintext && save.begins(
                            call,
                            after,
                            stored.user_id@,
                            stored.device_id@,
                            stored.keys_uploaded,
                            stored.uploaded_key_count,
                        ),
                        Err(e) => step.fails("Failed to create inbound Olm session: "@ + e),
                    },
                    Err(e) => step.fails(e),
                }
            },
            (DecryptOlm::SavingAccount(key, session, plaintext, save), _) => exists|inner|
                #![trigger save.moves(reply, inner)]
                save.moves(reply, inner) && inner.passes_to(
                    step,
                    |s: SaveAccount| DecryptOlm::SavingAccount(key, session, plaintext, s),
                ) && match inner {
                    Step::Done(Ok(_)) => step matches Step::Ask(
                        call,
                        DecryptOlm::Updating(k, record, replaced, p),
                    ) && call@ == CallView::Encrypt(session@) && k == key && record.sender_key@
                        == key@ && replaced is None && p == plaintext,
                    Step::Done(Err(e)) => step.gives(Err(e)),
                    _ => true,
                },
            _ => step.strays(self),
        }
    }

    /// Tries the first of the sessions that are left.
    fn try_next(
        key: CurveKey,
        message: OlmText,
        total: usize,
        mut left: Vec<StoredOlmSession>,
    ) -> (step: OlmStep)
        ensures
            Self::tries(key, message, total, left@, step),
    {
        if left.len() > 0 {
            let ghost all = left@;
            let current = left.remove(0);
            assert(left@ =~= all.skip(1));
            match host_decrypt_pickle(current.pickled_session.as_str()) {
                Ok(bytes) => Step::Ask(
                    HostCall::Decrypt(bytes),
                    DecryptOlm::Trying(key, message, total, current, left),
                ),
                Err(e) => Step::Done(Err(e)),
            }
        } else {
            match message {
                OlmText::PreKey(prekey) => Step::Ask(
                    read_account(),
                    DecryptOlm::Starting(key, prekey),
                ),
                OlmText::Normal(_) => {
                    let tried = decimal(total as u64);
                    let sender = key.to_base64();
                    Step::Done(
                        Err(
                            concat5(
                                "No matching Olm session for sender_key=",
                                sender.as_str(),
                                " and message is not a PreKey message (stored_sessions_tried=",
                                tried.as_str(),
                                ")",
                            ),
                        ),
                    )
                },
            }
        }
    }

    /// Goes on from the outcome of the attempt to decrypt a message with a session.
    pub fn after_attempt(
        key: CurveKey,
        message: OlmText,
        total: usize,
        current: StoredOlmSession,
        rest: Vec<StoredOlmSession>,
        outcome: Option<(OlmSession, Vec<u8>)>,
    ) -> (step: OlmStep)
        ensures
            Self::attempted(key, message, total, current, rest, outcome, step),
    {
        match outcome {
            Some((session, plaintext)) => {
                let replaced = Some(current.pickled_session.clone());
                Step::Ask(
                    HostCall::Encrypt(session.pickle()),
                    DecryptOlm::Updating(key, current, replaced, plaintext),
                )
            },
            None => Self::try_next(key, message, total, rest),
        }
    }

    /// Goes on from an answer of the host.
    pub fn resume(self, reply: HostReply) -> (step: OlmStep)
        ensures
            self.moves(reply, step),
    {
        match (self, reply) {
            (DecryptOlm::Reading(key, message), HostReply::OlmSessions(sessions)) => {
                let total: usize = sessions.len();
                Self::try_next(key, message, total, sessions)
            },
            (
                DecryptOlm::Trying(key, message, total, current, rest),
                HostReply::Bytes(decrypted),
            ) => {
                match open_olm_session(decrypted) {
                    Ok(session) => {
                        let ghost pickle = session@;
                        let outcome = session.decrypt(&message);
                        assert(olm::can_come_out(pickle, message, outcome));
                        Self::after_attempt(key, message, total, current, rest, outcome)
                    },
                    Err(e) => Step::Done(Err(e)),
                }
            },
            (
                DecryptOlm::Updating(key, mut record, replaced, plaintext),
                HostReply::Bytes(encrypted),
            ) => {
                match host_encrypt_pickle(encrypted) {
                    Ok(pickled) => {
                        record.pickled_session = pickled;
                        Step::Ask(
                            HostCall::Now,
                            DecryptOlm::Stamping(key, record, replaced, plaintext),
                        )
                    },
                    Err(e) => Step::Done(Err(e)),
                }
            },
            (DecryptOlm::Stamping(key, mut record, replaced, plaintext), HostReply::Time(now)) => {
                record.last_use_ts = now;
                let (call, save) = start_saving_olm(key.to_base64(), replaced, record);
                Step::Ask(call, DecryptOlm::Saving(plaintext, save))
            },
            (DecryptOlm::Saving(plaintext, save), reply) => match save.resume(reply) {
                Step::Ask(call, save) => Step::Ask(call, DecryptOlm::Saving(plaintext, save)),
                Step::Stray(save) => Step::Stray(DecryptOlm::Saving(plaintext, save)),
                Step::Done(Ok(_)) => Step::Done(Ok(plaintext)),
                Step::Done(Err(e)) => Step::Done(Err(e)),
            },
            (DecryptOlm::Starting(key, message), HostReply::Account(stored)) => match stored {
                None => Step::Done(Err("No crypto account for inbound session".to_owned())),
                Some(account) => match host_decrypt_pickle(account.pickled_account.as_str()) {
                    Ok(bytes) => Step::Ask(
                        HostCall::Decrypt(bytes),
                        DecryptOlm::Unsealing(key, message, account),
                    ),
                    Err(e) => Step::Done(Err(e)),
                },
            },
            (DecryptOlm::Unsealing(key, message, stored), HostReply::Bytes(decrypted)) => {
                match open_account(decrypted) {
                    Ok(account) => match account.create_inbound_session(&key, &message) {
                        Ok((account, session, plaintext)) => {
                            let (call, save) = save_account(
                                &account,
                                stored.user_id.as_str(),
                                stored.device_id.as_str(),
                                stored.keys_uploaded,
                                stored.uploaded_key_count,
                            );
                            Step::Ask(
                                call,
                                DecryptOlm::SavingAccount(key, session, plaintext, save),
                            )
                        },
                        Err(e) => Step::Done(
                            Err(concat2("Failed to create inbound Olm session: ", e.as_str())),
                        ),
                    },
                    Err(e) => Step::Done(Err(e)),
                }
            },
            (DecryptOlm::SavingAccount(key, session, plaintext, save), reply) => {
                match save.resume(reply) {
                    Step::Ask(call, save) => Step::Ask(
                        call,
                        DecryptOlm::SavingAccount(key, session, plaintext, save),
                    ),
                    Step::Stray(save) => Step::Stray(
                        DecryptOlm::SavingAccount(key, session, plaintext, save),
                    ),
                    Step::Done(Ok(_)) => {
                        let record = StoredOlmSession {
                            sender_key: key.to_base64(),
                            pickled_session: String::new(),
                            last_use_ts: 0,
                        };
                        Step::Ask(
                            HostCall::Encrypt(session.pickle()),
                            DecryptOlm::Updating(key, record, None, plaintext),
                        )
                    },
                    Step::Done(Err(e)) => Step::Done(Err(e)),
                }
            },
            (flow, _) => Step::Stray(flow),
        }
    }
}

/// Decrypt an Olm message, trying existing sessions first, then creating a new inbound session for
/// pre-key messages.
pub fn decrypt_olm_message(sender_key: CurveKey, message: OlmText) -> (start: (
    HostCall,
    DecryptOlm,
))
    ensures
        start.1.begins(start.0, sender_key@, message),
{
    let sender = sender_key.to_base64();
    (read_olm_sessions(sender.as_str()), DecryptOlm::Reading(sender_key, message))
}

// ---------------------------------------------------------------------------
// Olm-encrypted to-device events
// ---------------------------------------------------------------------------

/// The Olm message for our device in the content of an event, or why there is none: given the
/// ciphertexts by recipient key, and our key.
pub open spec fn message_for(
    ciphertext: Seq<(String, Vec<u8>)>,
    our_key: Seq<char>,
) -> Result<(bool, Seq<char>), Seq<char>> {
    match types::lookup(ciphertext, our_key) {
        None => Err("No ciphertext for our device"@),
        Some(json) => match json::number_at(json@, "/type"@) {
            None => Err("Missing message type in Olm ciphertext"@),
            Some(kind) => match json::string_at(json@, "/body"@) {
                None => Err("Missing body in Olm ciphertext"@),
                Some(body) => if kind == 0 {
                    match olm::prekey_error(body) {
                        None => Ok((true, body)),
                        Some(e) => Err("Invalid Olm PreKey message: "@ + e),
                    }
                } else if kind == 1 {
                    match olm::normal_error(body) {
                        None => Ok((false, body)),
                        Some(e) => Err("Invalid Olm normal message: "@ + e),
                    }
                } else {
                    Err("Unknown Olm message type: "@ + text::decimal_text(kind as nat))
                },
            },
        },
    }
}

/// Finds the Olm message for our device.
pub fn find_message(content: &OlmEncryptedContent, our_key: &str) -> (r: Result<OlmText, String>)
    ensures
        match message_for(content.ciphertext@, our_key@) {
            Ok((prekey, body)) => r matches Ok(m) && (m is PreKey) == prekey && m.text() == body,
            Err(e) => r matches Err(m) && m@ == e,
        },
{
    let json = match find_entry(&content.ciphertext, our_key) {
        Some(i) => content.ciphertext[i].1.as_slice(),
        None => return Err("No ciphertext for our device".to_owned()),
    };
    let kind: u64 = match read_number(json, "/type") {
        Some(kind) => kind,
        None => return Err("Missing message type in Olm ciphertext".to_owned()),
    };
    let body = match read_string(json, "/body") {
        Some(body) => body,
        None => return Err("Missing body in Olm ciphertext".to_owned()),
    };
    if kind == 0 {
        match PreKeyText::from_base64(body.as_str()) {
            Ok(message) => Ok(OlmText::PreKey(message)),
            Err(e) => Err(concat2("Invalid Olm PreKey message: ", e.as_str())),
        }
    } else if kind == 1 {
        match NormalText::from_base64(body.as_str()) {
            Ok(message) => Ok(OlmText::Normal(message)),
            Err(e) => Err(concat2("Invalid Olm normal message: ", e.as_str())),
        }
    } else {
        Err(concat2("Unknown Olm message type: ", decimal(kind).as_str()))
    }
}

/// Decrypts an Olm-encrypted to-device event and processes the inner payload.
pub enum OlmToDevice {
    /// The host is to read our account, which tells our key.
    Addressing(CurveKey, OlmEncryptedContent),
    /// The message for our device is to be decrypted.
    Decrypting(DecryptOlm),
    /// The room key that it holds is to be stored.
    Storing(RoomKey),
}

/// A step of the processing of an Olm-encrypted event. It gives the session of a room key, where
/// the event holds one.
pub type OlmToDeviceStep = Step<OlmToDevice, Result<Option<StoredInboundMegolmSession>, String>>;

impl OlmToDevice {
    /// The flow starts: the event must be Olm-encrypted by the algorithm that is supported, with a
    /// sender key.
    pub open spec fn begins(event: ToDeviceEvent, step: OlmToDeviceStep) -> bool {
        match event.content.olm {
            Err(e) => step.fails("Failed to parse Olm encrypted content: "@ + e@),
            Ok(content) => if content.algorithm@ != "m.olm.v1.curve25519-aes-sha2"@ {
                step.fails("Unsupported to-device algorithm: "@ + content.algorithm@)
            } else {
                match olm::curve_key(content.sender_key@) {
                    Err(e) => step.fails("Invalid sender Curve25519 key: "@ + e),
                    Ok(sender) => step matches Step::Ask(call, OlmToDevice::Addressing(k, c))
                        && call@ == CallView::ReadAccount("crypto/account.json"@) && k@ == sender
                        && c == content,
                }
            },
        }
    }

    /// What follows the decryption: where the payload is a room key, it is stored.
    pub open spec fn reads(plaintext: Seq<u8>, step: OlmToDeviceStep) -> bool {
        match codec::utf8_text(plaintext) {
            Err(e) => step.fails("Olm plaintext not valid UTF-8: "@ + e),
            Ok(_) => match json::json_error(plaintext) {
                Some(e) => step.fails("Olm plaintext not valid JSON: "@ + e),
                None => if json::string_at(plaintext, "/type"@) != Some("m.room_key"@) {
                    step.gives(Ok(None))
                } else if !json::stands_in_json(plaintext, "/content"@) {
                    step.fails("m.room_key missing content"@)
                } else {
                    exists|inner|
                        #![trigger RoomKey::begins(plaintext, "/content"@, inner)]
                        RoomKey::begins(plaintext, "/content"@, inner) && Self::stores(inner, step)
                },
            },
        }
    }

    /// What a step of the storing of the room key is as a step of the whole.
    pub open spec fn stores(
        inner: Step<RoomKey, Result<StoredInboundMegolmSession, String>>,
        step: OlmToDeviceStep,
    ) -> bool {
        inner.passes_to(step, |k: RoomKey| OlmToDevice::Storing(k)) && match inner {
            Step::Done(Ok(stored)) => step.gives(Ok(Some(stored))),
            Step::Done(Err(e)) => step.gives(Err(e)),
            _ => true,
        }
    }

    /// The flow goes on from an answer.
    pub open spec fn moves(self, reply: HostReply, step: OlmToDeviceStep) -> bool {
        match (self, reply) {
            (OlmToDevice::Addressing(sender, content), HostReply::Account(stored)) => {
                match stored {
                    None => step.fails("No crypto account for Olm decryption"@),
                    Some(account) => match message_for(
                        content.ciphertext@,
                        account.curve25519_key@,
                    ) {
                        Err(e) => step.fails(e),
                        Ok((prekey, body)) => step matches Step::Ask(
                            call,
                            OlmToDevice::Decrypting(decrypt),
                        ) && exists|message: OlmText|
                            #![trigger decrypt.begins(call, sender@, message)]
                            (message is PreKey) == prekey && message.text() == body
                                && decrypt.begins(call, sender@, message),
                    },
                }
            },
            (OlmToDevice::Decrypting(decrypt), _) => exists|inner|
                #![trigger decrypt.moves(reply, inner)]
                decrypt.moves(reply, inner) && inner.passes_to(
                    step,
                    |d: DecryptOlm| OlmToDevice::Decrypting(d),
                ) && match inner {
                    Step::Done(Ok(plaintext)) => Self::reads(plaintext@, step),
                    Step::Done(Err(e)) => step.gives(Err(e)),
                    _ => true,
                },
            (OlmToDevice::Storing(key), _) => exists|inner|
                #![trigger key.moves(reply, inner)]
                key.moves(reply, inner) && Self::stores(inner, step),
            _ => step.strays(self),
        }
    }

    fn store(inner: Step<RoomKey, Result<StoredInboundMegolmSession, String>>) -> (step:
        OlmToDeviceStep)
        ensures
            Self::stores(inner, step),
    {
        match inner {
            Step::Ask(call, key) => Step::Ask(call, OlmToDevice::Storing(key)),
            Step::Stray(key) => Step::Stray(OlmToDevice::Storing(key)),
            Step::Done(Ok(stored)) => Step::Done(Ok(Some(stored))),
            Step::Done(Err(e)) => Step::Done(Err(e)),
        }
    }

    /// Goes on from the plaintext of the message.
    pub fn read(plaintext: Vec<u8>) -> (step: OlmToDeviceStep)
        ensures
            Self::reads(plaintext@, step),
    {
        proof {
            if vstd::utf8::valid_utf8(plaintext@) {
                vstd::utf8::decode_utf8_encode_utf8(plaintext@);
            }
        }
        let payload = match text_from_utf8(plaintext) {
            Ok(payload) => payload,
            Err(e) => return Step::Done(
                Err(concat2("Olm plaintext not valid UTF-8: ", e.as_str())),
            ),
        };
        let bytes = payload.as_str().as_bytes();
        if let Some(e) = read_error(bytes) {
            return Step::Done(Err(concat2("Olm plaintext not valid JSON: ", e.as_str())));
        }
        let is_room_key = match read_string(bytes, "/type") {
            Some(kind) => same_text(kind.as_str(), "m.room_key"),
            None => false,
        };
        if !is_room_key {
            return Step::Done(Ok(None));
        }
        if !read_presence(bytes, "/content") {
            return Step::Done(Err("m.room_key missing content".to_owned()));
        }
        Self::store(handle_room_key_event(bytes, "/content"))
    }

    /// Goes on from an answer of the host.
    pub fn resume(self, reply: HostReply) -> (step: OlmToDeviceStep)
        ensures
            self.moves(reply, step),
    {
        match (self, reply) {
            (OlmToDevice::Addressing(sender, content), HostReply::Account(stored)) => {
                match stored {
                    None => Step::Done(Err("No crypto account for Olm decryption".to_owned())),
                    Some(account) => match find_message(&content, account.curve25519_key.as_str()) {
                        Ok(message) => {
                            let (call, decrypt) = decrypt_olm_message(sender, message);
                            Step::Ask(call, OlmToDevice::Decrypting(decrypt))
                        },
                        Err(e) => Step::Done(Err(e)),
                    },
                }
            },
            (OlmToDevice::Decrypting(decrypt), reply) => match decrypt.resume(reply) {
                Step::Ask(call, decrypt) => Step::Ask(call, OlmToDevice::Decrypting(decrypt)),
                Step::Stray(decrypt) => Step::Stray(OlmToDevice::Decrypting(decrypt)),
                Step::Done(Ok(plaintext)) => Self::read(plaintext),
                Step::Done(Err(e)) => Step::Done(Err(e)),
            },
            (OlmToDevice::Storing(key), reply) => Self::store(key.resume(reply)),
            (flow, _) => Step::Stray(flow),
        }
    }
}

/// Decrypt an Olm-encrypted to-device event and process the inner payload.
pub fn handle_olm_encrypted_to_device(event: ToDeviceEvent) -> (step: OlmToDeviceStep)
    ensures
        OlmToDevice::begins(event, step),
{
    let content = match event.content.olm {
        Ok(content) => content,
        Err(e) => return Step::Done(
            Err(concat2("Failed to parse Olm encrypted content: ", e.as_str())),
        ),
    };
    if !same_text(content.algorithm.as_str(), "m.olm.v1.curve25519-aes-sha2") {
        return Step::Done(
            Err(concat2("Unsupported to-device algorithm: ", content.algorithm.as_str())),
        );
    }
    match CurveKey::from_base64(content.sender_key.as_str()) {
        Ok(sender) => Step::Ask(read_account(), OlmToDevice::Addressing(sender, content)),
        Err(e) => Step::Done(Err(concat2("Invalid sender Curve25519 key: ", e.as_str()))),
    }
}

// ---------------------------------------------------------------------------
// To-device events
// ---------------------------------------------------------------------------

/// Processes to-device events, one after the other.
pub enum ToDevice {
    /// An Olm-encrypted event is processed. Holds those that follow, and the sessions so far.
    Olm(Vec<ToDeviceEvent>, MegolmSessionCache, OlmToDevice),
    /// A room key that came as it is, is stored.
    Direct(Vec<ToDeviceEvent>, MegolmSessionCache, RoomKey),
    /// An event failed: the host is to log why.
    Complaining(Vec<ToDeviceEvent>, MegolmSessionCache),
}

/// A step of the processing of to-device events. It gives the sessions of the room keys.
pub type ToDeviceStep = Step<ToDevice, MegolmSessionCache>;

/// The sessions of a cache, by room and session.
pub type Sessions = Map<(Seq<char>, Seq<char>), StoredInboundMegolmSession>;

/// The sessions with that of a room key.
pub open spec fn with_session(sessions: Sessions, stored: StoredInboundMegolmSession) -> Sessions {
    sessions.insert((stored.room_id@, stored.session_id@), stored)
}

impl ToDevice {
    /// An event failed: the host is asked to log why.
    pub open spec fn complains(
        what: Seq<char>,
        e: Seq<char>,
        left: Seq<ToDeviceEvent>,
        sessions: Sessions,
        step: ToDeviceStep,
    ) -> bool {
        step matches Step::Ask(call, ToDevice::Complaining(rest, cache)) && call@
            == host::warning_entry(what, e) && rest@ == left && cache@ == sessions
    }

    /// What a step of an Olm-encrypted event is as a step of the whole: once it is processed, the
    /// session that it brought is added, and the events that follow are processed.
    pub open spec fn takes_olm(
        left: Seq<ToDeviceEvent>,
        sessions: Sessions,
        inner: OlmToDeviceStep,
        step: ToDeviceStep,
    ) -> bool
        decreases left.len(), 1int,
    {
        match inner {
            Step::Ask(call, flow) => step matches Step::Ask(c, ToDevice::Olm(rest, cache, f)) && c
                == call && f == flow && rest@ == left && cache@ == sessions,
            Step::Stray(flow) => step matches Step::Stray(ToDevice::Olm(rest, cache, f)) && f
                == flow && rest@ == left && cache@ == sessions,
            Step::Done(Ok(Some(stored))) => Self::proceeds(
                left,
                with_session(sessions, stored),
                step,
            ),
            Step::Done(Ok(None)) => Self::proceeds(left, sessions, step),
            Step::Done(Err(e)) => Self::complains(
                "Failed to handle Olm to-device event: "@,
                e@,
                left,
                sessions,
                step,
            ),
        }
    }

    /// What a step of a room key that came as it is, is as a step of the whole.
    pub open spec fn takes_key(
        left: Seq<ToDeviceEvent>,
        sessions: Sessions,
        inner: Step<RoomKey, Result<StoredInboundMegolmSession, String>>,
        step: ToDeviceStep,
    ) -> bool
        decreases left.len(), 1int,
    {
        match inner {
            Step::Ask(call, flow) => step matches Step::Ask(c, ToDevice::Direct(rest, cache, f))
                && c == call && f == flow && rest@ == left && cache@ == sessions,
            Step::Stray(flow) => step matches Step::Stray(ToDevice::Direct(rest, cache, f)) && f
                == flow && rest@ == left && cache@ == sessions,
            Step::Done(Ok(stored)) => Self::proceeds(left, with_session(sessions, stored), step),
            Step::Done(Err(e)) => Self::complains(
                "Failed to handle direct room_key: "@,
                e@,
                left,
                sessions,
                step,
            ),
        }
    }

    /// The events that are left are processed in order. An event that fails, or is of another type,
    /// is passed over.
    pub open spec fn proceeds(
        left: Seq<ToDeviceEvent>,
        sessions: Sessions,
        step: ToDeviceStep,
    ) -> bool
        decreases left.len(), 0int,
    {
        if left.len() == 0 {
            step matches Step::Done(cache) && cache@ == sessions
        } else if left[0].event_type@ == "m.room.encrypted"@ {
            exists|inner|
                #![trigger OlmToDevice::begins(left[0], inner)]
                OlmToDevice::begins(left[0], inner) && Self::takes_olm(
                    left.skip(1),
                    sessions,
                    inner,
                    step,
                )
        } else if left[0].event_type@ == "m.room_key"@ {
            exists|inner|
                #![trigger RoomKey::begins(left[0].content.json@, ""@, inner)]
                RoomKey::begins(left[0].content.json@, ""@, inner) && Self::takes_key(
                    left.skip(1),
                    sessions,
                    inner,
                    step,
                )
        } else {
            Self::proceeds(left.skip(1), sessions, step)
        }
    }

    /// The flow goes on from an answer.
    pub open spec fn moves(self, reply: HostReply, step: ToDeviceStep) -> bool {
        match self {
            ToDevice::Olm(rest, cache, flow) => exists|inner|
                #![trigger flow.moves(reply, inner)]
                flow.moves(reply, inner) && Self::takes_olm(rest@, cache@, inner, step),
            ToDevice::Direct(rest, cache, flow) => exists|inner|
                #![trigger flow.moves(reply, inner)]
                flow.moves(reply, inner) && Self::takes_key(rest@, cache@, inner, step),
            ToDevice::Complaining(rest, cache) => if reply is Finished {
                Self::proceeds(rest@, cache@, step)
            } else {
                step.strays(self)
            },
        }
    }

    fn take_olm(left: Vec<ToDeviceEvent>, cache: MegolmSessionCache, inner: OlmToDeviceStep) -> (step:
        ToDeviceStep)
        ensures
            Self::takes_olm(left@, cache@, inner, step),
        decreases left.len(), 1int,
    {
        match inner {
            Step::Ask(call, flow) => Step::Ask(call, ToDevice::Olm(left, cache, flow)),
            Step::Stray(flow) => Step::Stray(ToDevice::Olm(left, cache, flow)),
            Step::Done(Ok(Some(stored))) => {
                let room_id = stored.room_id.clone();
                let session_id = stored.session_id.clone();
                Self::proceed(left, cache.insert(room_id, session_id, stored))
            },
            Step::Done(Ok(None)) => Self::proceed(left, cache),
            Step::Done(Err(e)) => Step::Ask(
                log_warning("Failed to handle Olm to-device event: ", e.as_str()),
                ToDevice::Complaining(left, cache),
            ),
        }
    }

    fn take_key(
        left: Vec<ToDeviceEvent>,
        cache: MegolmSessionCache,
        inner: Step<RoomKey, Result<StoredInboundMegolmSession, String>>,
    ) -> (step: ToDeviceStep)
        ensures
            Self::takes_key(left@, cache@, inner, step),
        decreases left.len(), 1int,
    {
        match inner {
            Step::Ask(call, flow) => Step::Ask(call, ToDevice::Direct(left, cache, flow)),
            Step::Stray(flow) => Step::Stray(ToDevice::Direct(left, cache, flow)),
            Step::Done(Ok(stored)) => {
                let room_id = stored.room_id.clone();
                let session_id = stored.session_id.clone();
                Self::proceed(left, cache.insert(room_id, session_id, stored))
            },
            Step::Done(Err(e)) => Step::Ask(
                log_warning("Failed to handle direct room_key: ", e.as_str()),
                ToDevice::Complaining(left, cache),
            ),
        }
    }

    /// Processes the events that are left.
    fn proceed(events: Vec<ToDeviceEvent>, cache: MegolmSessionCache) -> (step: ToDeviceStep)
        ensures
            Self::proceeds(events@, cache@, step),
        decreases events.len(), 0int,
    {
        let mut left = events;
        if left.len() == 0 {
            return Step::Done(cache);
        }
        let ghost all = left@;
        let event = left.remove(0);
        assert(left@ =~= all.skip(1));
        if same_text(event.event_type.as_str(), "m.room.encrypted") {
            let inner = handle_olm_encrypted_to_device(event);
            assert(OlmToDevice::begins(all[0], inner));
            Self::take_olm(left, cache, inner)
        } else if same_text(event.event_type.as_str(), "m.room_key") {
            let inner = handle_room_key_event(event.content.json.as_slice(), "");
            assert(RoomKey::begins(all[0].content.json@, ""@, inner));
            Self::take_key(left, cache, inner)
        } else {
            Self::proceed(left, cache)
        }
    }

    /// Goes on from an answer of the host.
    pub fn resume(self, reply: HostReply) -> (step: ToDeviceStep)
        ensures
            self.moves(reply, step),
    {
        match self {
            ToDevice::Olm(rest, cache, flow) => {
                let inner = flow.resume(reply);
                Self::take_olm(rest, cache, inner)
            },
            ToDevice::Direct(rest, cache, flow) => {
                let inner = flow.resume(reply);
                Self::take_key(rest, cache, inner)
            },
            ToDevice::Complaining(rest, cache) => match reply {
                HostReply::Finished => Self::proceed(rest, cache),
                _ => Step::Stray(ToDevice::Complaining(rest, cache)),
            },
        }
    }
}

/// Process incoming to-device events from /sync.
///
/// Handles m.room.encrypted (Olm-encrypted payloads that hold m.room_key events) and m.room_key
/// (direct room key delivery, rare).
pub fn handle_to_device_events(events: Vec<ToDeviceEvent>) -> (step: ToDeviceStep)
    ensures
        ToDevice::proceeds(events@, Map::empty(), step),
{
    ToDevice::proceed(events, MegolmSessionCache::new())
}

// ---------------------------------------------------------------------------
// Room events
// ---------------------------------------------------------------------------

/// The text of a decrypted room event, or why it has none: `content.body` of a whole event, else
/// `body` of a bare content.
pub open spec fn decrypted_text(plaintext: Seq<u8>) -> Result<Seq<char>, Seq<char>> {
    match codec::utf8_text(plaintext) {
        Err(e) => Err("Decrypted plaintext not valid UTF-8: "@ + e),
        Ok(_) => match json::json_error(plaintext) {
            Some(e) => Err("Decrypted plaintext not valid JSON: "@ + e),
            None => match json::string_at(plaintext, "/content/body"@) {
                Some(body) => Ok(body),
                None => match json::string_at(plaintext, "/body"@) {
                    Some(body) => Ok(body),
                    None => Err("Decrypted event missing body field"@),
                },
            },
        },
    }
}

/// Whether a result is the text of an event, where the bytes are those of the event that is encrypted
/// for a text.
pub open spec fn is_text_of_event(plaintext: Seq<u8>, r: Result<String, String>) -> bool {
    forall|room_id: Seq<char>, text: Seq<char>|
        plaintext == encode_utf8(#[trigger] encryption::inner_event_text(room_id, text))
            ==> r is Ok && r->Ok_0@ == text
}

proof fn pointer_of_the_body()
    ensures
        json_tree::pointer_text(seq!["content"@, "body"@]) == "/content/body"@,
{
    reveal_strlit("/");
    reveal_strlit("content");
    reveal_strlit("body");
    reveal_strlit("/content/body");
    json_tree::plain_token("content"@);
    json_tree::plain_token("body"@);
    let path = seq!["content"@, "body"@];
    assert(path.skip(1) =~= seq!["body"@]);
    assert(path.skip(1).skip(1) =~= Seq::empty());
    assert(json_tree::pointer_text(path.skip(1).skip(1)) =~= Seq::empty());
    assert(json_tree::pointer_text(path.skip(1)) =~= "/"@ + "body"@);
    assert(json_tree::pointer_text(path) =~= "/content/body"@);
}

/// Reads the text of a decrypted room event.
pub fn decrypted_body(plaintext: Vec<u8>) -> (r: Result<String, String>)
    ensures
        host::agrees_in_view(r, decrypted_text(plaintext@)),
        is_text_of_event(plaintext@, r),
{
    let ghost all = plaintext@;
    proof {
        if valid_utf8(plaintext@) {
            decode_utf8_encode_utf8(plaintext@);
        }
        pointer_of_the_body();
        assert forall|room_id: Seq<char>, text: Seq<char>|
            plaintext@ == encode_utf8(
                #[trigger] encryption::inner_event_text(room_id, text),
            ) implies valid_utf8(plaintext@) by {
            encode_utf8_valid_utf8(encryption::inner_event_text(room_id, text));
        }
    }
    let payload = match text_from_utf8(plaintext) {
        Ok(payload) => payload,
        Err(e) => return Err(concat2("Decrypted plaintext not valid UTF-8: ", e.as_str())),
    };
    let bytes = payload.as_str().as_bytes();
    assert(bytes@ == all);
    if let Some(e) = read_error(bytes) {
        proof {
            assert forall|room_id: Seq<char>, text: Seq<char>|
                all == encode_utf8(
                    #[trigger] encryption::inner_event_text(room_id, text),
                ) implies false by {
                let tree = encryption::inner_event_reads_back(room_id, text);
                json_tree::shallow_fits(tree, 2, 127);
            }
        }
        return Err(concat2("Decrypted plaintext not valid JSON: ", e.as_str()));
    }
    let body = read_string(bytes, "/content/body");
    proof {
        assert forall|room_id: Seq<char>, text: Seq<char>|
            all == encode_utf8(
                #[trigger] encryption::inner_event_text(room_id, text),
            ) implies json::opt_text(body) == Some(text) by {
            let tree = encryption::inner_event_reads_back(room_id, text);
            json_tree::shallow_fits(tree, 2, 127);
            assert(json_tree::pointer_text(seq!["content"@, "body"@]) == "/content/body"@);
        }
    }
    if let Some(body) = body {
        return Ok(body);
    }
    match read_string(bytes, "/body") {
        Some(body) => Ok(body),
        None => Err("Decrypted event missing body field".to_owned()),
    }
}

/// What a ciphertext decrypts to with an inbound session, or why it does not: the plaintext and its
/// message index, which must not have been seen before.
pub open spec fn fresh_decryption(
    session: Seq<u8>,
    ciphertext: Seq<char>,
    seen: Seq<u32>,
    session_id: Seq<char>,
) -> Result<(Seq<u8>, u32), Seq<char>> {
    match megolm::ciphertext_error(ciphertext) {
        Some(e) => Err("Invalid Megolm ciphertext: "@ + e),
        None => match megolm::inbound_decryption(session, ciphertext) {
            Err(e) => Err("Megolm decryption failed: "@ + e),
            Ok((plaintext, index)) => if seen.contains(index) {
                Err(replay_error(index, session_id))
            } else {
                Ok((plaintext, index))
            },
        },
    }
}

/// The error for a message whose index was seen before.
pub open spec fn replay_error(index: u32, session_id: Seq<char>) -> Seq<char> {
    "Replay detected: message index "@ + text::decimal_text(index as nat)
        + " already seen for session "@ + session_id
}

/// Whether an index is among those seen.
fn has_index(seen: &Vec<u32>, index: u32) -> (found: bool)
    ensures
        found == seen@.contains(index),
{
    let mut i: usize = 0;
    while i < seen.len()
        invariant
            i <= seen.len(),
            forall|k: int| 0 <= k < i ==> seen[k] != index,
        decreases seen.len() - i,
    {
        if seen[i] == index {
            assert(seen@.contains(index));
            return true;
        }
        i += 1;
    }
    false
}

/// Decrypts a ciphertext and checks that its index is fresh.
pub fn decrypt_fresh(
    session: &InboundSession,
    ciphertext: &str,
    seen: &Vec<u32>,
    session_id: &str,
) -> (r: Result<(Vec<u8>, u32), String>)
    ensures
        match fresh_decryption(session@, ciphertext@, seen@, session_id@) {
            Ok((plaintext, index)) => r matches Ok(d) && d.0@ == plaintext && d.1 == index,
            Err(e) => r matches Err(m) && m@ == e,
        },
{
    let message = match Ciphertext::from_base64(ciphertext) {
        Ok(message) => message,
        Err(e) => return Err(concat2("Invalid Megolm ciphertext: ", e.as_str())),
    };
    let (plaintext, index) = match session.decrypt(&message) {
        Ok(decrypted) => decrypted,
        Err(e) => return Err(concat2("Megolm decryption failed: ", e.as_str())),
    };
    if has_index(seen, index) {
        let number = decimal(index as u64);
        return Err(
            concat4(
                "Replay detected: message index ",
                number.as_str(),
                " already seen for session ",
                session_id,
            ),
        );
    }
    Ok((plaintext, index))
}

/// What of an encrypted event the decryption needs: room, session and ciphertext.
pub struct Sealed {
    pub room_id: String,
    pub session_id: String,
    pub ciphertext: String,
}

/// Tries to decrypt an encrypted room event.
pub enum TryDecrypt {
    /// The host is to read the session.
    Reading(Sealed, MegolmSessionCache),
    /// The host is to decrypt the pickle of the session.
    Opening(Sealed, StoredInboundMegolmSession, MegolmSessionCache),
    /// The host is to encrypt the pickle again, which then goes into the record. Holds the
    /// plaintext.
    Sealing(Sealed, StoredInboundMegolmSession, Vec<u8>, MegolmSessionCache),
    /// The host is to write the record.
    Writing(Sealed, StoredInboundMegolmSession, Vec<u8>, MegolmSessionCache),
}

/// A step of the decryption of a room event. It gives the text, and the sessions of the cache.
pub type TryDecryptStep = Step<TryDecrypt, (Result<String, String>, MegolmSessionCache)>;

/// Whether the decryption fails with this message, and leaves these sessions in the cache.
pub open spec fn refuses(step: TryDecryptStep, e: Seq<char>, sessions: Sessions) -> bool {
    step matches Step::Done((Err(m), cache)) && m@ == e && cache@ == sessions
}

/// Why an event cannot be decrypted, if its content shows it: it must be a Megolm event with a
/// session, a sender key and a ciphertext.
pub open spec fn content_error(event: RoomEvent) -> Option<Seq<char>> {
    match event.content.encrypted {
        Err(e) => Some("Failed to parse encrypted content: "@ + e@),
        Ok(content) => if content.algorithm@ != "m.megolm.v1.aes-sha2"@ {
            Some("Unsupported algorithm: "@ + content.algorithm@)
        } else if content.session_id is None {
            Some("Missing session_id in encrypted event"@)
        } else if content.sender_key is None {
            Some("Missing sender_key in encrypted event"@)
        } else if content.ciphertext is None {
            Some("Missing ciphertext in encrypted event"@)
        } else {
            None
        },
    }
}

impl TryDecrypt {
    /// Whether what is held of the event is that of this event in this room.
    pub open spec fn holds(sealed: Sealed, room_id: Seq<char>, event: RoomEvent) -> bool {
        &&& event.content.encrypted matches Ok(content)
        &&& sealed.room_id@ == room_id
        &&& content.session_id == Some(sealed.session_id)
        &&& content.ciphertext == Some(sealed.ciphertext)
    }

    /// The session of a record is opened.
    pub open spec fn opens(
        sealed: Sealed,
        stored: InboundView,
        sessions: Sessions,
        step: TryDecryptStep,
    ) -> bool {
        match crypto_store::unsealed_bytes(stored.pickled_session) {
            Ok(bytes) => step matches Step::Ask(call, TryDecrypt::Opening(e, s, cache)) && call@
                == CallView::Decrypt(bytes) && e == sealed && s@ == stored && cache@ == sessions,
            Err(e) => refuses(step, e, sessions),
        }
    }

    /// The flow starts: the session is the one of the cache where it has it; else the host is asked
    /// for it.
    pub open spec fn begins(
        room_id: Seq<char>,
        event: RoomEvent,
        sessions: Sessions,
        step: TryDecryptStep,
    ) -> bool {
        match content_error(event) {
            Some(e) => refuses(step, e, sessions),
            None => exists|sealed: Sealed|
                #![trigger Self::holds(sealed, room_id, event)]
                Self::holds(sealed, room_id, event) && {
                    let key = (room_id, sealed.session_id@);
                    if sessions.dom().contains(key) {
                        Self::opens(sealed, sessions[key]@, sessions, step)
                    } else {
                        step matches Step::Ask(call, TryDecrypt::Reading(e, cache)) && call@
                            == CallView::ReadInbound(
                            crypto_store::inbound_path(room_id, sealed.session_id@),
                        ) && e == sealed && cache@ == sessions
                    }
                },
        }
    }

    /// The flow goes on from an answer: a message whose index was not seen before is decrypted, its
    /// index is recorded with the session, and the session goes into the cache. Where it is not
    /// decrypted, or the record is not written, the cache stays as it was.
    pub open spec fn moves(self, reply: HostReply, step: TryDecryptStep) -> bool {
        match (self, reply) {
            (TryDecrypt::Reading(sealed, cache), HostReply::Inbound(stored)) => match stored {
                None => refuses(step, "Missing Megolm session "@ + sealed.session_id@, cache@),
                Some(session) => Self::opens(sealed, session@, cache@, step),
            },
            (TryDecrypt::Opening(sealed, stored, cache), HostReply::Bytes(decrypted)) => {
                match crypto_store::opened_pickle(
                    decrypted,
                    megolm::inbound_pickle(decrypted->Ok_0@),
                ) {
                    Err(e) => refuses(step, e, cache@),
                    Ok(session) => match fresh_decryption(
                        session,
                        sealed.ciphertext@,
                        stored.seen_indices@,
                        sealed.session_id@,
                    ) {
                        Err(e) => refuses(step, e, cache@),
                        Ok((plaintext, index)) => megolm::is_inbound(session) && (step
                            matches Step::Ask(call, TryDecrypt::Sealing(e, s, p, c)) && call@ == CallView::Encrypt(session) && e == sealed && s@ == (
                        InboundView {
                            seen_indices: stored.seen_indices@.push(index),
                            ..stored@
                        }) && p@ == plaintext && c == cache),
                    },
                }
            },
            (TryDecrypt::Sealing(sealed, stored, plaintext, cache), HostReply::Bytes(encrypted)) => {
                match crypto_store::sealed_pickle(encrypted) {
                    Err(e) => refuses(step, e, cache@),
                    Ok(pickled_session) => step matches Step::Ask(
                        call,
                        TryDecrypt::Writing(e, s, p, c),
                    ) && call@ == CallView::Write(
                        crypto_store::inbound_path(stored.room_id@, stored.session_id@),
                        s@.json(),
                    ) && e == sealed && s@ == (InboundView { pickled_session, ..stored@ }) && p
                        == plaintext && c == cache && crypto_store::unsealed_bytes(pickled_session)
                        == Ok::<Seq<u8>, Seq<char>>(encrypted->Ok_0@),
                }
            },
            (TryDecrypt::Writing(sealed, stored, plaintext, cache), HostReply::Written(result)) => {
                match result {
                    Err(e) => refuses(step, e@, cache@),
                    Ok(_) => step matches Step::Done((text, c)) && host::agrees_in_view(
                        text,
                        decrypted_text(plaintext@),
                    ) && is_text_of_event(plaintext@, text) && c@ == cache@.insert((sealed.room_id@, sealed.session_id@), stored),
                }
            },
            _ => step.strays(self),
        }
    }

    fn open(sealed: Sealed, stored: StoredInboundMegolmSession, cache: MegolmSessionCache) -> (step:
        TryDecryptStep)
        ensures
            Self::opens(sealed, stored@, cache@, step),
    {
        match host_decrypt_pickle(stored.pickled_session.as_str()) {
            Ok(bytes) => Step::Ask(
                HostCall::Decrypt(bytes),
                TryDecrypt::Opening(sealed, stored, cache),
            ),
            Err(e) => Step::Done((Err(e), cache)),
        }
    }

    /// Goes on from an answer of the host.
    pub fn resume(self, reply: HostReply) -> (step: TryDecryptStep)
        ensures
            self.moves(reply, step),
    {
        match (self, reply) {
            (TryDecrypt::Reading(sealed, cache), HostReply::Inbound(stored)) => match stored {
                None => {
                    let e = concat2("Missing Megolm session ", sealed.session_id.as_str());
                    Step::Done((Err(e), cache))
                },
                Some(session) => Self::open(sealed, session, cache),
            },
            (TryDecrypt::Opening(sealed, mut stored, cache), HostReply::Bytes(decrypted)) => {
                let session = match open_inbound_session(decrypted) {
                    Ok(session) => session,
                    Err(e) => return Step::Done((Err(e), cache)),
                };
                match decrypt_fresh(
                    &session,
                    sealed.ciphertext.as_str(),
                    &stored.seen_indices,
                    sealed.session_id.as_str(),
                ) {
                    Ok((plaintext, index)) => {
                        stored.seen_indices.push(index);
                        Step::Ask(
                            HostCall::Encrypt(session.pickle()),
                            TryDecrypt::Sealing(sealed, stored, plaintext, cache),
                        )
                    },
                    Err(e) => Step::Done((Err(e), cache)),
                }
            },
            (
                TryDecrypt::Sealing(sealed, mut stored, plaintext, cache),
                HostReply::Bytes(encrypted),
            ) => match host_encrypt_pickle(encrypted) {
                Ok(pickled) => {
                    stored.pickled_session = pickled;
                    Step::Ask(
                        write_inbound_megolm_session(&stored),
                        TryDecrypt::Writing(sealed, stored, plaintext, cache),
                    )
                },
                Err(e) => Step::Done((Err(e), cache)),
            },
            (TryDecrypt::Writing(sealed, stored, plaintext, cache), HostReply::Written(result)) => {
                match result {
                    Ok(_) => {
                        let cache = cache.insert(sealed.room_id, sealed.session_id, stored);
                        Step::Done((decrypted_body(plaintext), cache))
                    },
                    Err(e) => Step::Done((Err(e), cache)),
                }
            },
            (flow, _) => Step::Stray(flow),
        }
    }
}

/// Try to decrypt an encrypted room event.
///
/// Gives the decrypted plaintext body if successful. Performs message index replay detection to
/// prevent replay attacks.
pub fn try_decrypt_event(room_id: &str, event: &RoomEvent, session_cache: MegolmSessionCache) -> (step:
    TryDecryptStep)
    ensures
        TryDecrypt::begins(room_id@, *event, session_cache@, step),
{
    let content = match &event.content.encrypted {
        Ok(content) => content,
        Err(e) => {
            let e = concat2("Failed to parse encrypted content: ", e.as_str());
            return Step::Done((Err(e), session_cache));
        },
    };
    if !same_text(content.algorithm.as_str(), "m.megolm.v1.aes-sha2") {
        let e = concat2("Unsupported algorithm: ", content.algorithm.as_str());
        return Step::Done((Err(e), session_cache));
    }
    let session_id = match &content.session_id {
        Some(session_id) => session_id.clone(),
        None => {
            return Step::Done(
                (Err("Missing session_id in encrypted event".to_owned()), session_cache),
            );
        },
    };
    if content.sender_key.is_none() {
        return Step::Done(
            (Err("Missing sender_key in encrypted event".to_owned()), session_cache),
        );
    }
    let ciphertext = match &content.ciphertext {
        Some(ciphertext) => ciphertext.clone(),
        None => {
            return Step::Done(
                (Err("Missing ciphertext in encrypted event".to_owned()), session_cache),
            );
        },
    };
    let sealed = Sealed { room_id: room_id.to_owned(), session_id, ciphertext };
    assert(TryDecrypt::holds(sealed, room_id@, *event));
    match session_cache.get(room_id, sealed.session_id.as_str()) {
        Some(stored) => TryDecrypt::open(sealed, stored, session_cache),
        None => {
            let call = read_inbound_megolm_session(room_id, sealed.session_id.as_str());
            Step::Ask(call, TryDecrypt::Reading(sealed, session_cache))
        },
    }
}

// ---------------------------------------------------------------------------
// Laws
// ---------------------------------------------------------------------------

/// A message that was decrypted once is refused as a replay when it comes again: its index is
/// recorded as seen. So is any other message of the session with the same index.
pub proof fn replays_are_refused(
    session: Seq<u8>,
    ciphertext: Seq<char>,
    again: Seq<char>,
    seen: Seq<u32>,
    later: Seq<u32>,
    session_id: Seq<char>,
)
    requires
        fresh_decryption(session, ciphertext, seen, session_id) is Ok,
        megolm::ciphertext_error(again) is None,
        megolm::inbound_decryption(session, again) is Ok,
        megolm::inbound_decryption(session, again)->Ok_0.1 == megolm::inbound_decryption(
            session,
            ciphertext,
        )->Ok_0.1,
    ensures
        fresh_decryption(
            session,
            again,
            seen.push(fresh_decryption(session, ciphertext, seen, session_id)->Ok_0.1) + later,
            session_id,
        ) == Err::<(Seq<u8>, u32), Seq<char>>(
            replay_error(
                fresh_decryption(session, ciphertext, seen, session_id)->Ok_0.1,
                session_id,
            ),
        ),
{
    let index = fresh_decryption(session, ciphertext, seen, session_id)->Ok_0.1;
    assert((seen.push(index) + later)[seen.len() as int] == index);
}

/// Decrypting a message records its index with the session, after those seen before, and keeps the
/// rest of the record: so the indices that a record holds only grow, and none is in it twice.
pub proof fn decrypted_index_is_recorded(
    sealed: Sealed,
    stored: StoredInboundMegolmSession,
    cache: MegolmSessionCache,
    reply: HostReply,
    call: HostCall,
    sealed_after: Sealed,
    stored_after: StoredInboundMegolmSession,
    plaintext: Vec<u8>,
    cache_after: MegolmSessionCache,
)
    requires
        TryDecrypt::Opening(sealed, stored, cache).moves(
            reply,
            Step::Ask(
                call,
                TryDecrypt::Sealing(sealed_after, stored_after, plaintext, cache_after),
            ),
        ),
    ensures
        stored_after.seen_indices@.len() == stored.seen_indices@.len() + 1,
        stored_after.seen_indices@.drop_last() == stored.seen_indices@,
        !stored.seen_indices@.contains(stored_after.seen_indices@.last()),
        stored_after.room_id@ == stored.room_id@,
        stored_after.session_id@ == stored.session_id@,
{
    assert(stored_after@.seen_indices == stored_after.seen_indices@);
    let index = stored_after.seen_indices@.last();
    assert(stored_after.seen_indices@ =~= stored.seen_indices@.push(index));
    assert(stored_after.seen_indices@.drop_last() =~= stored.seen_indices@);
}

/// A session that a message was decrypted with stays in the cache, with the index recorded, for the
/// next event of the same poll.
pub proof fn cache_keeps_the_session(
    sealed: Sealed,
    stored: StoredInboundMegolmSession,
    plaintext: Vec<u8>,
    cache: MegolmSessionCache,
    step: TryDecryptStep,
)
    requires
        TryDecrypt::Writing(sealed, stored, plaintext, cache).moves(
            HostReply::Written(Ok(())),
            step,
        ),
    ensures
        step matches Step::Done((_, after)) && after@.dom().contains(
            (sealed.room_id@, sealed.session_id@),
        ) && after@[(sealed.room_id@, sealed.session_id@)] == stored,
{
}

/// A room key is stored only for the session whose ID it claims.
pub proof fn room_key_matches_its_session(json: Seq<u8>, at: Seq<char>)
    requires
        room_key(json, at) is Ok,
    ensures
        megolm::inbound_id(room_key(json, at)->Ok_0.pickle) == room_key(json, at)->Ok_0.session_id,
{
}

/// The inbound session of a room key is stored only once the host has encrypted its pickle, and with
/// the encrypted pickle alone.
pub proof fn room_key_is_stored_sealed(
    flow: RoomKey,
    reply: HostReply,
    step: Step<RoomKey, Result<StoredInboundMegolmSession, String>>,
)
    requires
        flow.moves(reply, step),
        step matches Step::Ask(call, _) && call@ is Write,
    ensures
        flow matches RoomKey::Sealing(record) && reply matches HostReply::Bytes(Ok(encrypted))
            && step->Ask_0@ == CallView::Write(
            crypto_store::inbound_path(record.room_id@, record.session_id@),
            InboundView {
                pickled_session: codec::base64_text(encrypted@),
                ..record@
            }.json(),
        ),
{
}

impl TryDecrypt {
    /// What the flow does from an answer.
    pub open spec fn rule() -> host::Rule<TryDecrypt, (Result<String, String>, MegolmSessionCache)> {
        |flow: TryDecrypt, reply: HostReply, step: TryDecryptStep| flow.moves(reply, step)
    }
}

/// Whether an event has this content: what is read of it is what the text of the content says.
pub open spec fn carries(event: RoomEvent, content: Seq<char>) -> bool {
    &&& event.content.encrypted matches Ok(parsed)
    &&& forall|tree: JsonTree|
        content == #[trigger] json_tree::written(tree) && json_tree::fits(tree, 127) ==> {
            &&& json_tree::text_in(tree, seq!["algorithm"@]) == Some(parsed.algorithm@)
            &&& json_tree::text_in(tree, seq!["sender_key"@]) == json::opt_text(parsed.sender_key)
            &&& json_tree::text_in(tree, seq!["session_id"@]) == json::opt_text(parsed.session_id)
            &&& json_tree::text_in(tree, seq!["ciphertext"@]) == json::opt_text(parsed.ciphertext)
        }
}

/// Whether the host serves a decryption: it has this record, whose pickle is that of this inbound
/// session, and it encrypts and writes what it is asked to.
pub open spec fn serves(
    calls: Seq<CallView>,
    replies: Seq<HostReply>,
    stored: InboundView,
    inbound: Seq<u8>,
) -> bool {
    forall|i: int|
        #![trigger calls[i]]
        0 <= i < calls.len() ==> match calls[i] {
            CallView::ReadInbound(_) => replies[i] matches HostReply::Inbound(Some(record))
                && record@ == stored,
            CallView::Decrypt(_) => replies[i] matches HostReply::Bytes(Ok(bytes))
                && megolm::inbound_pickle(bytes@) == Ok::<Seq<u8>, Seq<char>>(inbound),
            CallView::Encrypt(_) => replies[i] matches HostReply::Bytes(Ok(_)),
            CallView::Write(_, _) => replies[i] == HostReply::Written(Ok(())),
            _ => true,
        }
}

proof fn service_goes_on(
    calls: Seq<CallView>,
    replies: Seq<HostReply>,
    stored: InboundView,
    inbound: Seq<u8>,
)
    requires
        serves(calls, replies, stored, inbound),
        calls.len() == replies.len(),
        calls.len() > 0,
    ensures
        serves(calls.skip(1), replies.skip(1), stored, inbound),
{
    assert forall|i: int| #![trigger calls.skip(1)[i]] 0 <= i < calls.skip(1).len() implies match calls.skip(
        1,
    )[i] {
        CallView::ReadInbound(_) => replies.skip(1)[i] matches HostReply::Inbound(Some(record))
            && record@ == stored,
        CallView::Decrypt(_) => replies.skip(1)[i] matches HostReply::Bytes(Ok(bytes))
            && megolm::inbound_pickle(bytes@) == Ok::<Seq<u8>, Seq<char>>(inbound),
        CallView::Encrypt(_) => replies.skip(1)[i] matches HostReply::Bytes(Ok(_)),
        CallView::Write(_, _) => replies.skip(1)[i] == HostReply::Written(Ok(())),
        _ => true,
    } by {
        assert(calls.skip(1)[i] == calls[i + 1]);
        assert(replies.skip(1)[i] == replies[i + 1]);
    }
}

proof fn fresh_message_is_read(
    call: HostCall,
    sealed: Sealed,
    record: StoredInboundMegolmSession,
    cache: MegolmSessionCache,
    calls: Seq<CallView>,
    replies: Seq<HostReply>,
    last: TryDecryptStep,
    inbound: Seq<u8>,
    room_id: Seq<char>,
    plaintext: Seq<char>,
    index: u32,
)
    requires
        host::runs(
            TryDecrypt::rule(),
            Step::Ask(call, TryDecrypt::Opening(sealed, record, cache)),
            calls,
            replies,
            last,
        ),
        last is Done,
        keeps(calls, replies),
        replies.len() > 0,
        replies[0] matches HostReply::Bytes(Ok(bytes)) && megolm::inbound_pickle(bytes@) == Ok::<
            Seq<u8>,
            Seq<char>,
        >(inbound),
        megolm::decrypts_to(
            inbound,
            sealed.ciphertext@,
            encryption::inner_event_text(room_id, plaintext),
            index,
        ),
        !record.seen_indices@.contains(index),
    ensures
        last matches Step::Done((Ok(text), _)) && text@ == plaintext,
{
    let rule = TryDecrypt::rule();
    let first: TryDecryptStep = Step::Ask(call, TryDecrypt::Opening(sealed, record, cache));
    let second = host::run_goes_on(rule, first, calls, replies, last);
    keeping_goes_on(calls, replies);
    assert(second matches Step::Ask(c, TryDecrypt::Sealing(_, _, p, _)) && c@ is Encrypt && p@
        == encode_utf8(encryption::inner_event_text(room_id, plaintext)));
    let calls = calls.skip(1);
    let replies = replies.skip(1);
    let third = host::run_goes_on(rule, second, calls, replies, last);
    keeping_goes_on(calls, replies);
    assert(third matches Step::Ask(c, TryDecrypt::Writing(_, _, p, _)) && c@ is Write && p@
        == encode_utf8(encryption::inner_event_text(room_id, plaintext)));
    let calls = calls.skip(1);
    let replies = replies.skip(1);
    let fourth = host::run_goes_on(rule, third, calls, replies, last);
    assert(fourth is Done);
    host::run_is_over(rule, fourth, calls.skip(1), replies.skip(1), last);
}

/// What is encrypted is read: where a text was encrypted for a room, and the event reaches a device
/// that has an inbound session that reads the session it was encrypted with, and has not seen its
/// index, the decryption gives the text.
pub proof fn sent_message_is_read(
    flow: EncryptMessage,
    call: HostCall,
    homeserver_url: Seq<char>,
    room_id: Seq<char>,
    plaintext: Seq<char>,
    txn: u64,
    calls: Seq<CallView>,
    replies: Seq<HostReply>,
    content: String,
    inbound: Seq<u8>,
    stored: InboundView,
    event: RoomEvent,
    sessions: Sessions,
    first: TryDecryptStep,
    their_calls: Seq<CallView>,
    their_replies: Seq<HostReply>,
    last: TryDecryptStep,
)
    requires
        flow.begins(call, homeserver_url, room_id, plaintext, txn),
        host::runs(
            EncryptMessage::rule(),
            Step::Ask(call, flow),
            calls,
            replies,
            Step::Done(Ok(content)),
        ),
        forall|session: Seq<u8>| #[trigger]
            encryption::is_used(session, calls, replies) ==> megolm::inbound_reads(
                inbound,
                session,
            ) && !stored.seen_indices.contains(megolm::outbound_index(session)),
        carries(event, content@),
        TryDecrypt::begins(room_id, event, sessions, first),
        event.content.encrypted matches Ok(parsed) && (parsed.session_id matches Some(id) ==> (
        sessions.dom().contains((room_id, id@)) ==> sessions[(room_id, id@)]@ == stored)),
        host::runs(TryDecrypt::rule(), first, their_calls, their_replies, last),
        last is Done,
        serves(their_calls, their_replies, stored, inbound),
        crypto_store::unsealed_bytes(stored.pickled_session) is Ok,
    ensures
        last matches Step::Done((Ok(text), _)) && text@ == plaintext,
{
    let session = encryption::encryption_can_be_read(
        flow,
        call,
        homeserver_url,
        room_id,
        plaintext,
        txn,
        calls,
        replies,
        content,
    );
    let index = megolm::outbound_index(session);
    let (sender_key, session_id, device_id, ciphertext) = choose|
        sender_key: Seq<char>,
        session_id: Seq<char>,
        device_id: Seq<char>,
        ciphertext: Seq<char>,
    |
        content@ == #[trigger] encryption::encrypted_event_text(
            sender_key,
            session_id,
            device_id,
            ciphertext,
        ) && (forall|inbound: Seq<u8>| #[trigger]
            megolm::inbound_reads(inbound, session) ==> megolm::decrypts_to(
                inbound,
                ciphertext,
                encryption::inner_event_text(room_id, plaintext),
                index,
            ));
    let tree = encryption::encrypted_event_reads_back(sender_key, session_id, device_id, ciphertext);
    json_tree::shallow_fits(tree, 1, 127);
    assert(content@ == json_tree::written(tree));
    assert(content_error(event) is None);
    match first {
        Step::Ask(c, TryDecrypt::Opening(sealed, record, cache)) => {
            assert(sealed.ciphertext@ == ciphertext);
            assert(record@ == stored);
            let _ = host::run_goes_on(TryDecrypt::rule(), first, their_calls, their_replies, last);
            assert(their_calls[0] is Decrypt);
            fresh_message_is_read(
                c,
                sealed,
                record,
                cache,
                their_calls,
                their_replies,
                last,
                inbound,
                room_id,
                plaintext,
                index,
            );
        },
        Step::Ask(c, TryDecrypt::Reading(sealed, cache)) => {
            assert(sealed.ciphertext@ == ciphertext);
            let next = host::run_goes_on(
                TryDecrypt::rule(),
                first,
                their_calls,
                their_replies,
                last,
            );
            assert(their_calls[0] is ReadInbound);
            assert(next matches Step::Ask(c, TryDecrypt::Opening(e, r, _)) && c@ is Decrypt && r@
                == stored && e == sealed);
            service_goes_on(their_calls, their_replies, stored, inbound);
            let (c, record, cache) = match next {
                Step::Ask(c, TryDecrypt::Opening(_, r, k)) => (c, r, k),
                _ => arbitrary(),
            };
            let _ = host::run_goes_on(
                TryDecrypt::rule(),
                next,
                their_calls.skip(1),
                their_replies.skip(1),
                last,
            );
            assert(their_calls.skip(1)[0] is Decrypt);
            fresh_message_is_read(
                c,
                sealed,
                record,
                cache,
                their_calls.skip(1),
                their_replies.skip(1),
                last,
                inbound,
                room_id,
                plaintext,
                index,
            );
        },
        _ => {
            assert(false);
        },
    }
}

proof fn decryption_leaves_its_mark(
    call: HostCall,
    sealed: Sealed,
    record: StoredInboundMegolmSession,
    before: MegolmSessionCache,
    calls: Seq<CallView>,
    replies: Seq<HostReply>,
    text: String,
    cache: MegolmSessionCache,
) -> (r: (Seq<u8>, u32))
    requires
        host::runs(
            TryDecrypt::rule(),
            Step::Ask(call, TryDecrypt::Opening(sealed, record, before)),
            calls,
            replies,
            Step::Done((Ok(text), cache)),
        ),
    ensures
        megolm::is_inbound(r.0),
        megolm::ciphertext_error(sealed.ciphertext@) is None,
        megolm::inbound_decryption(r.0, sealed.ciphertext@) is Ok,
        megolm::inbound_decryption(r.0, sealed.ciphertext@)->Ok_0.1 == r.1,
        cache@.dom().contains((sealed.room_id@, sealed.session_id@)),
        cache@[(sealed.room_id@, sealed.session_id@)]@.seen_indices.contains(r.1),
        calls.len() == replies.len() == 3,
        calls[1] == CallView::Encrypt(r.0),
        replies[1] matches HostReply::Bytes(Ok(bytes)) && crypto_store::unsealed_bytes(
            cache@[(sealed.room_id@, sealed.session_id@)]@.pickled_session,
        ) == Ok::<Seq<u8>, Seq<char>>(bytes@),
{
    let rule = TryDecrypt::rule();
    let last: TryDecryptStep = Step::Done((Ok(text), cache));
    let first: TryDecryptStep = Step::Ask(call, TryDecrypt::Opening(sealed, record, before));
    let second = host::run_goes_on(rule, first, calls, replies, last);
    if !(second is Ask) {
        host::run_is_over(rule, second, calls.skip(1), replies.skip(1), last);
    }
    assert(second matches Step::Ask(c, TryDecrypt::Sealing(_, _, _, _)) && c@ is Encrypt);
    let inbound = second->Ask_0@->Encrypt_0;
    let index = megolm::inbound_decryption(inbound, sealed.ciphertext@)->Ok_0.1;
    let third = host::run_goes_on(rule, second, calls.skip(1), replies.skip(1), last);
    if !(third is Ask) {
        host::run_is_over(rule, third, calls.skip(1).skip(1), replies.skip(1).skip(1), last);
    }
    assert(third matches Step::Ask(_, TryDecrypt::Writing(_, _, _, _)));
    let fourth = host::run_goes_on(
        rule,
        third,
        calls.skip(1).skip(1),
        replies.skip(1).skip(1),
        last,
    );
    assert(!(fourth is Ask));
    host::run_is_over(
        rule,
        fourth,
        calls.skip(1).skip(1).skip(1),
        replies.skip(1).skip(1).skip(1),
        last,
    );
    assert(calls.skip(1)[0] == calls[1]);
    assert(replies.skip(1)[0] == replies[1]);
    let stored = cache@[(sealed.room_id@, sealed.session_id@)];
    assert(stored@.seen_indices == record.seen_indices@.push(index));
    assert(stored@.seen_indices[record.seen_indices@.len() as int] == index);
    (inbound, index)
}

/// An event that was decrypted is refused when it comes again: the second call of the two fails as a
/// replay, asks for nothing to be written, and leaves the cache as it was.
pub proof fn decrypted_event_is_refused_again(
    room_id: Seq<char>,
    event: RoomEvent,
    sessions: Sessions,
    first: TryDecryptStep,
    calls: Seq<CallView>,
    replies: Seq<HostReply>,
    text: String,
    cache: MegolmSessionCache,
    second: TryDecryptStep,
    later_calls: Seq<CallView>,
    later_replies: Seq<HostReply>,
    last: TryDecryptStep,
) -> (index: u32)
    requires
        TryDecrypt::begins(room_id, event, sessions, first),
        host::runs(TryDecrypt::rule(), first, calls, replies, Step::Done((Ok(text), cache))),
        TryDecrypt::begins(room_id, event, cache@, second),
        host::runs(TryDecrypt::rule(), second, later_calls, later_replies, last),
        last is Done,
        forall|i: int|
            0 <= i < later_calls.len() ==> host::gives_back(
                calls,
                replies,
                #[trigger] later_calls[i],
                later_replies[i],
            ),
    ensures
        event.content.encrypted is Ok,
        event.content.encrypted->Ok_0.session_id is Some,
        refuses(
            last,
            replay_error(index, event.content.encrypted->Ok_0.session_id->0@),
            cache@,
        ),
        forall|i: int| 0 <= i < later_calls.len() ==> !((#[trigger] later_calls[i]) is Write),
{
    let rule = TryDecrypt::rule();
    let done: TryDecryptStep = Step::Done((Ok(text), cache));
    if !(first is Ask) {
        host::run_is_over(rule, first, calls, replies, done);
    }
    let mut at: int = 1;
    let (inbound, index, sealed) = match first {
        Step::Ask(c, TryDecrypt::Opening(sealed, record, before)) => {
            let (inbound, index) = decryption_leaves_its_mark(
                c,
                sealed,
                record,
                before,
                calls,
                replies,
                text,
                cache,
            );
            (inbound, index, sealed)
        },
        Step::Ask(_, TryDecrypt::Reading(sealed, _)) => {
            let next = host::run_goes_on(rule, first, calls, replies, done);
            if !(next is Ask) {
                host::run_is_over(rule, next, calls.skip(1), replies.skip(1), done);
            }
            assert(next matches Step::Ask(_, TryDecrypt::Opening(e, _, _)) && e == sealed);
            let (c, record, before) = match next {
                Step::Ask(c, TryDecrypt::Opening(_, r, k)) => (c, r, k),
                _ => arbitrary(),
            };
            let (inbound, index) = decryption_leaves_its_mark(
                c,
                sealed,
                record,
                before,
                calls.skip(1),
                replies.skip(1),
                text,
                cache,
            );
            at = 2;
            assert(calls.skip(1)[1] == calls[2]);
            assert(replies.skip(1)[1] == replies[2]);
            (inbound, index, sealed)
        },
        _ => arbitrary(),
    };
    assert(TryDecrypt::holds(sealed, room_id, event));
    assert(calls[at] == CallView::Encrypt(inbound));
    let key = (room_id, sealed.session_id@);
    assert(second matches Step::Ask(c, TryDecrypt::Opening(e, s, k)) && TryDecrypt::holds(
        e,
        room_id,
        event,
    ) && s@ == cache@[key]@ && k@ == cache@ && c@ == CallView::Decrypt(
        replies[at]->Bytes_0->Ok_0@,
    ));
    let end = host::run_goes_on(rule, second, later_calls, later_replies, last);
    assert(host::gives_back(calls, replies, later_calls[0], later_replies[0]));
    assert(later_replies[0] matches HostReply::Bytes(Ok(bytes)) && bytes@ == inbound);
    assert(refuses(end, replay_error(index, sealed.session_id@), cache@));
    host::run_is_over(rule, end, later_calls.skip(1), later_replies.skip(1), last);
    assert(later_calls.len() == 1);
    index
}

impl RoomKey {
    /// What the flow does from an answer.
    pub open spec fn rule() -> host::Rule<RoomKey, Result<StoredInboundMegolmSession, String>> {
        |
            flow: RoomKey,
            reply: HostReply,
            step: Step<RoomKey, Result<StoredInboundMegolmSession, String>>,
        | flow.moves(reply, step)
    }
}

impl OlmToDevice {
    /// What the flow does from an answer.
    pub open spec fn rule() -> host::Rule<
        OlmToDevice,
        Result<Option<StoredInboundMegolmSession>, String>,
    > {
        |flow: OlmToDevice, reply: HostReply, step: OlmToDeviceStep| flow.moves(reply, step)
    }
}

impl ToDevice {
    /// What the flow does from an answer.
    pub open spec fn rule() -> host::Rule<ToDevice, MegolmSessionCache> {
        |flow: ToDevice, reply: HostReply, step: ToDeviceStep| flow.moves(reply, step)
    }
}

/// Whether a record is that of the session of a room key, with no index seen yet.
pub open spec fn is_record_of(record: InboundView, key: RoomKeyView) -> bool {
    &&& record.room_id == key.room_id
    &&& record.session_id == key.session_id
    &&& record.sender_key == key.sender_key
    &&& !record.forwarded
    &&& record.seen_indices == Seq::<u32>::empty()
}

/// Whether the host encrypts and writes what it is asked to.
pub open spec fn keeps(calls: Seq<CallView>, replies: Seq<HostReply>) -> bool {
    forall|i: int|
        #![trigger calls[i]]
        0 <= i < calls.len() ==> match calls[i] {
            CallView::Encrypt(_) => replies[i] matches HostReply::Bytes(Ok(_)),
            CallView::Write(_, _) => replies[i] == HostReply::Written(Ok(())),
            _ => true,
        }
}

/// Whether this is the outcome of an event that is processed by itself: the session of the room key
/// that it brings, if it brings one that can be stored. Where it is kept, by a host that encrypts and
/// writes what it is asked to.
pub open spec fn is_outcome(
    event: ToDeviceEvent,
    kept: bool,
    outcome: Option<StoredInboundMegolmSession>,
) -> bool {
    if event.event_type@ == "m.room.encrypted"@ {
        exists|inner: OlmToDeviceStep, calls: Seq<CallView>, replies: Seq<HostReply>, end: OlmToDeviceStep|
            OlmToDevice::begins(event, inner) && #[trigger] host::runs(
                OlmToDevice::rule(),
                inner,
                calls,
                replies,
                end,
            ) && (kept ==> keeps(calls, replies)) && match end {
                Step::Done(Ok(stored)) => outcome == stored,
                Step::Done(Err(_)) => outcome is None,
                _ => false,
            }
    } else if event.event_type@ == "m.room_key"@ {
        exists|
            inner: Step<RoomKey, Result<StoredInboundMegolmSession, String>>,
            calls: Seq<CallView>,
            replies: Seq<HostReply>,
            end: Step<RoomKey, Result<StoredInboundMegolmSession, String>>,
        |
            RoomKey::begins(event.content.json@, ""@, inner) && #[trigger] host::runs(
                RoomKey::rule(),
                inner,
                calls,
                replies,
                end,
            ) && (kept ==> keeps(calls, replies)) && match end {
                Step::Done(Ok(stored)) => outcome == Some(stored),
                Step::Done(Err(_)) => outcome is None,
                _ => false,
            }
    } else {
        outcome is None
    }
}

/// The sessions with those of the outcomes, where a later one takes the place of an earlier one of the
/// same room and session.
pub open spec fn gathered(
    sessions: Sessions,
    outcomes: Seq<Option<StoredInboundMegolmSession>>,
) -> Sessions
    decreases outcomes.len(),
{
    if outcomes.len() == 0 {
        sessions
    } else {
        match outcomes[0] {
            Some(stored) => gathered(with_session(sessions, stored), outcomes.skip(1)),
            None => gathered(sessions, outcomes.skip(1)),
        }
    }
}

/// Whether these are the outcomes of the events, one for each.
pub open spec fn are_outcomes(
    events: Seq<ToDeviceEvent>,
    kept: bool,
    outcomes: Seq<Option<StoredInboundMegolmSession>>,
) -> bool {
    outcomes.len() == events.len() && forall|i: int|
        0 <= i < events.len() ==> #[trigger] is_outcome(events[i], kept, outcomes[i])
}

proof fn keeping_goes_on(calls: Seq<CallView>, replies: Seq<HostReply>)
    requires
        calls.len() == replies.len() > 0,
    ensures
        keeps(calls, replies) ==> keeps(calls.skip(1), replies.skip(1)),
{
    if keeps(calls, replies) {
        assert forall|i: int| #![trigger calls.skip(1)[i]] 0 <= i < calls.skip(1).len() implies match calls.skip(
            1,
        )[i] {
            CallView::Encrypt(_) => replies.skip(1)[i] matches HostReply::Bytes(Ok(_)),
            CallView::Write(_, _) => replies.skip(1)[i] == HostReply::Written(Ok(())),
            _ => true,
        } by {
            assert(calls.skip(1)[i] == calls[i + 1]);
            assert(replies.skip(1)[i] == replies[i + 1]);
        }
    }
}

proof fn keeping_starts(
    calls: Seq<CallView>,
    replies: Seq<HostReply>,
    rest_calls: Seq<CallView>,
    rest_replies: Seq<HostReply>,
)
    requires
        calls.len() == replies.len() > 0,
        keeps(calls, replies),
        rest_calls.len() == rest_replies.len(),
        keeps(rest_calls, rest_replies),
    ensures
        keeps(seq![calls[0]] + rest_calls, seq![replies[0]] + rest_replies),
{
    let all_calls = seq![calls[0]] + rest_calls;
    let all_replies = seq![replies[0]] + rest_replies;
    assert forall|i: int| #![trigger all_calls[i]] 0 <= i < all_calls.len() implies match all_calls[i] {
        CallView::Encrypt(_) => all_replies[i] matches HostReply::Bytes(Ok(_)),
        CallView::Write(_, _) => all_replies[i] == HostReply::Written(Ok(())),
        _ => true,
    } by {
        if i > 0 {
            assert(all_calls[i] == rest_calls[i - 1]);
            assert(all_replies[i] == rest_replies[i - 1]);
        } else {
            assert(all_calls[0] == calls[0]);
            assert(all_replies[0] == replies[0]);
        }
    }
}

proof fn outcomes_with_first(
    events: Seq<ToDeviceEvent>,
    kept: bool,
    outcome: Option<StoredInboundMegolmSession>,
    rest: Seq<Option<StoredInboundMegolmSession>>,
)
    requires
        events.len() > 0,
        is_outcome(events[0], kept, outcome),
        are_outcomes(events.skip(1), kept, rest),
    ensures
        are_outcomes(events, kept, seq![outcome] + rest),
        (seq![outcome] + rest).skip(1) == rest,
{
    let outcomes = seq![outcome] + rest;
    assert(outcomes.skip(1) =~= rest);
    assert forall|i: int| 0 <= i < events.len() implies #[trigger] is_outcome(
        events[i],
        kept,
        outcomes[i],
    ) by {
        if i > 0 {
            assert(is_outcome(events.skip(1)[i - 1], kept, rest[i - 1]));
        }
    }
}

proof fn olm_event_is_gathered(
    left: Seq<ToDeviceEvent>,
    sessions: Sessions,
    inner: OlmToDeviceStep,
    step: ToDeviceStep,
    calls: Seq<CallView>,
    replies: Seq<HostReply>,
    cache: MegolmSessionCache,
    kept: bool,
) -> (r: (
    OlmToDeviceStep,
    Seq<CallView>,
    Seq<HostReply>,
    Seq<Option<StoredInboundMegolmSession>>,
))
    requires
        ToDevice::takes_olm(left, sessions, inner, step),
        host::runs(ToDevice::rule(), step, calls, replies, Step::Done(cache)),
        kept ==> keeps(calls, replies),
    ensures
        host::runs(OlmToDevice::rule(), inner, r.1, r.2, r.0),
        kept ==> keeps(r.1, r.2),
        are_outcomes(left, kept, r.3),
        match r.0 {
            Step::Done(Ok(Some(stored))) => cache@ == gathered(
                with_session(sessions, stored),
                r.3,
            ),
            Step::Done(_) => cache@ == gathered(sessions, r.3),
            _ => false,
        },
    decreases replies.len(), left.len(), 1int,
{
    let rule = ToDevice::rule();
    let last: ToDeviceStep = Step::Done(cache);
    match inner {
        Step::Ask(call, flow) => {
            let next = host::run_goes_on(rule, step, calls, replies, last);
            keeping_goes_on(calls, replies);
            let held = match step {
                Step::Ask(_, ToDevice::Olm(rest, held, _)) => (rest, held),
                _ => arbitrary(),
            };
            assert(ToDevice::Olm(held.0, held.1, flow).moves(replies[0], next));
            let after = choose|after: OlmToDeviceStep|
                #![trigger flow.moves(replies[0], after)]
                flow.moves(replies[0], after) && ToDevice::takes_olm(left, sessions, after, next);
            let (end, sub_calls, sub_replies, outcomes) = olm_event_is_gathered(
                left,
                sessions,
                after,
                next,
                calls.skip(1),
                replies.skip(1),
                cache,
                kept,
            );
            assert(OlmToDevice::rule()(flow, replies[0], after));
            host::run_is_led_to(
                OlmToDevice::rule(),
                call,
                flow,
                replies[0],
                after,
                sub_calls,
                sub_replies,
                end,
            );
            if kept {
                keeping_starts(calls, replies, sub_calls, sub_replies);
            }
            (end, seq![call@] + sub_calls, seq![replies[0]] + sub_replies, outcomes)
        },
        Step::Stray(_) => {
            host::run_is_over(rule, step, calls, replies, last);
            arbitrary()
        },
        Step::Done(Ok(Some(stored))) => {
            let outcomes = events_are_gathered(
                left,
                with_session(sessions, stored),
                step,
                calls,
                replies,
                cache,
                kept,
            );
            (inner, Seq::empty(), Seq::empty(), outcomes)
        },
        Step::Done(Ok(None)) => {
            let outcomes = events_are_gathered(left, sessions, step, calls, replies, cache, kept);
            (inner, Seq::empty(), Seq::empty(), outcomes)
        },
        Step::Done(Err(_)) => {
            let next = host::run_goes_on(rule, step, calls, replies, last);
            keeping_goes_on(calls, replies);
            if !(replies[0] is Finished) {
                host::run_is_over(rule, next, calls.skip(1), replies.skip(1), last);
            }
            let outcomes = events_are_gathered(
                left,
                sessions,
                next,
                calls.skip(1),
                replies.skip(1),
                cache,
                kept,
            );
            (inner, Seq::empty(), Seq::empty(), outcomes)
        },
    }
}

proof fn key_event_is_gathered(
    left: Seq<ToDeviceEvent>,
    sessions: Sessions,
    inner: Step<RoomKey, Result<StoredInboundMegolmSession, String>>,
    step: ToDeviceStep,
    calls: Seq<CallView>,
    replies: Seq<HostReply>,
    cache: MegolmSessionCache,
    kept: bool,
) -> (r: (
    Step<RoomKey, Result<StoredInboundMegolmSession, String>>,
    Seq<CallView>,
    Seq<HostReply>,
    Seq<Option<StoredInboundMegolmSession>>,
))
    requires
        ToDevice::takes_key(left, sessions, inner, step),
        host::runs(ToDevice::rule(), step, calls, replies, Step::Done(cache)),
        kept ==> keeps(calls, replies),
    ensures
        host::runs(RoomKey::rule(), inner, r.1, r.2, r.0),
        kept ==> keeps(r.1, r.2),
        are_outcomes(left, kept, r.3),
        match r.0 {
            Step::Done(Ok(stored)) => cache@ == gathered(with_session(sessions, stored), r.3),
            Step::Done(Err(_)) => cache@ == gathered(sessions, r.3),
            _ => false,
        },
    decreases replies.len(), left.len(), 1int,
{
    let rule = ToDevice::rule();
    let last: ToDeviceStep = Step::Done(cache);
    match inner {
        Step::Ask(call, flow) => {
            let next = host::run_goes_on(rule, step, calls, replies, last);
            keeping_goes_on(calls, replies);
            let held = match step {
                Step::Ask(_, ToDevice::Direct(rest, held, _)) => (rest, held),
                _ => arbitrary(),
            };
            assert(ToDevice::Direct(held.0, held.1, flow).moves(replies[0], next));
            let after = choose|after: Step<RoomKey, Result<StoredInboundMegolmSession, String>>|
                #![trigger flow.moves(replies[0], after)]
                flow.moves(replies[0], after) && ToDevice::takes_key(left, sessions, after, next);
            let (end, sub_calls, sub_replies, outcomes) = key_event_is_gathered(
                left,
                sessions,
                after,
                next,
                calls.skip(1),
                replies.skip(1),
                cache,
                kept,
            );
            assert(RoomKey::rule()(flow, replies[0], after));
            host::run_is_led_to(
                RoomKey::rule(),
                call,
                flow,
                replies[0],
                after,
                sub_calls,
                sub_replies,
                end,
            );
            if kept {
                keeping_starts(calls, replies, sub_calls, sub_replies);
            }
            (end, seq![call@] + sub_calls, seq![replies[0]] + sub_replies, outcomes)
        },
        Step::Stray(_) => {
            host::run_is_over(rule, step, calls, replies, last);
            arbitrary()
        },
        Step::Done(Ok(stored)) => {
            let outcomes = events_are_gathered(
                left,
                with_session(sessions, stored),
                step,
                calls,
                replies,
                cache,
                kept,
            );
            (inner, Seq::empty(), Seq::empty(), outcomes)
        },
        Step::Done(Err(_)) => {
            let next = host::run_goes_on(rule, step, calls, replies, last);
            keeping_goes_on(calls, replies);
            if !(replies[0] is Finished) {
                host::run_is_over(rule, next, calls.skip(1), replies.skip(1), last);
            }
            let outcomes = events_are_gathered(
                left,
                sessions,
                next,
                calls.skip(1),
                replies.skip(1),
                cache,
                kept,
            );
            (inner, Seq::empty(), Seq::empty(), outcomes)
        },
    }
}

/// The sessions that the processing of events gives are those of the events' outcomes, each processed by
/// itself, and those that there were before.
pub proof fn events_are_gathered(
    left: Seq<ToDeviceEvent>,
    sessions: Sessions,
    step: ToDeviceStep,
    calls: Seq<CallView>,
    replies: Seq<HostReply>,
    cache: MegolmSessionCache,
    kept: bool,
) -> (outcomes: Seq<Option<StoredInboundMegolmSession>>)
    requires
        ToDevice::proceeds(left, sessions, step),
        host::runs(ToDevice::rule(), step, calls, replies, Step::Done(cache)),
        kept ==> keeps(calls, replies),
    ensures
        are_outcomes(left, kept, outcomes),
        cache@ == gathered(sessions, outcomes),
    decreases replies.len(), left.len(), 0int,
{
    let rule = ToDevice::rule();
    let last: ToDeviceStep = Step::Done(cache);
    if left.len() == 0 {
        host::run_is_over(rule, step, calls, replies, last);
        Seq::empty()
    } else if left[0].event_type@ == "m.room.encrypted"@ {
        let inner = choose|inner: OlmToDeviceStep|
            #![trigger OlmToDevice::begins(left[0], inner)]
            OlmToDevice::begins(left[0], inner) && ToDevice::takes_olm(
                left.skip(1),
                sessions,
                inner,
                step,
            );
        let (end, sub_calls, sub_replies, rest) = olm_event_is_gathered(
            left.skip(1),
            sessions,
            inner,
            step,
            calls,
            replies,
            cache,
            kept,
        );
        let outcome = match end {
            Step::Done(Ok(stored)) => stored,
            _ => None,
        };
        assert(is_outcome(left[0], kept, outcome));
        outcomes_with_first(left, kept, outcome, rest);
        seq![outcome] + rest
    } else if left[0].event_type@ == "m.room_key"@ {
        let inner = choose|inner: Step<RoomKey, Result<StoredInboundMegolmSession, String>>|
            #![trigger RoomKey::begins(left[0].content.json@, ""@, inner)]
            RoomKey::begins(left[0].content.json@, ""@, inner) && ToDevice::takes_key(
                left.skip(1),
                sessions,
                inner,
                step,
            );
        let (end, sub_calls, sub_replies, rest) = key_event_is_gathered(
            left.skip(1),
            sessions,
            inner,
            step,
            calls,
            replies,
            cache,
            kept,
        );
        let outcome = match end {
            Step::Done(Ok(stored)) => Some(stored),
            _ => None,
        };
        assert(is_outcome(left[0], kept, outcome));
        outcomes_with_first(left, kept, outcome, rest);
        seq![outcome] + rest
    } else {
        let rest = events_are_gathered(left.skip(1), sessions, step, calls, replies, cache, kept);
        assert(is_outcome(left[0], kept, None));
        outcomes_with_first(left, kept, None, rest);
        seq![None] + rest
    }
}

proof fn gathered_keys(
    sessions: Sessions,
    outcomes: Seq<Option<StoredInboundMegolmSession>>,
    key: (Seq<char>, Seq<char>),
)
    ensures
        gathered(sessions, outcomes).dom().contains(key) <==> sessions.dom().contains(key)
            || exists|i: int|
            0 <= i < outcomes.len() && (#[trigger] outcomes[i]) is Some && (
            outcomes[i]->0.room_id@,
            outcomes[i]->0.session_id@,
        ) == key,
    decreases outcomes.len(),
{
    if outcomes.len() > 0 {
        let rest = outcomes.skip(1);
        let with = match outcomes[0] {
            Some(stored) => with_session(sessions, stored),
            None => sessions,
        };
        gathered_keys(with, rest, key);
        if exists|i: int|
            0 <= i < rest.len() && (#[trigger] rest[i]) is Some && (
                rest[i]->0.room_id@,
                rest[i]->0.session_id@,
            ) == key {
            let i = choose|i: int|
                0 <= i < rest.len() && (#[trigger] rest[i]) is Some && (
                    rest[i]->0.room_id@,
                    rest[i]->0.session_id@,
                ) == key;
            assert(outcomes[i + 1] == rest[i]);
        }
        if exists|i: int|
            0 <= i < outcomes.len() && (#[trigger] outcomes[i]) is Some && (
                outcomes[i]->0.room_id@,
                outcomes[i]->0.session_id@,
            ) == key {
            let i = choose|i: int|
                0 <= i < outcomes.len() && (#[trigger] outcomes[i]) is Some && (
                    outcomes[i]->0.room_id@,
                    outcomes[i]->0.session_id@,
                ) == key;
            if i > 0 {
                assert(rest[i - 1] == outcomes[i]);
            }
        }
    }
}

/// The processing of to-device events gives the union of the sessions that the events bring, each
/// processed by itself: a room and session are in it exactly where an event brings a key of theirs. No
/// events give no sessions.
pub proof fn to_device_events_give_their_keys(
    events: Seq<ToDeviceEvent>,
    step: ToDeviceStep,
    calls: Seq<CallView>,
    replies: Seq<HostReply>,
    cache: MegolmSessionCache,
) -> (outcomes: Seq<Option<StoredInboundMegolmSession>>)
    requires
        ToDevice::proceeds(events, Map::empty(), step),
        host::runs(ToDevice::rule(), step, calls, replies, Step::Done(cache)),
    ensures
        are_outcomes(events, keeps(calls, replies), outcomes),
        cache@ == gathered(Map::empty(), outcomes),
        forall|key: (Seq<char>, Seq<char>)| #[trigger]
            cache@.dom().contains(key) <==> exists|i: int|
                0 <= i < outcomes.len() && (#[trigger] outcomes[i]) is Some && (
                    outcomes[i]->0.room_id@,
                    outcomes[i]->0.session_id@,
                ) == key,
        events.len() == 0 ==> cache@ == Map::<
            (Seq<char>, Seq<char>),
            StoredInboundMegolmSession,
        >::empty(),
{
    let outcomes = events_are_gathered(
        events,
        Map::empty(),
        step,
        calls,
        replies,
        cache,
        keeps(calls, replies),
    );
    assert forall|key: (Seq<char>, Seq<char>)| #[trigger]
        cache@.dom().contains(key) <==> exists|i: int|
            0 <= i < outcomes.len() && (#[trigger] outcomes[i]) is Some && (
                outcomes[i]->0.room_id@,
                outcomes[i]->0.session_id@,
            ) == key by {
        gathered_keys(Map::empty(), outcomes, key);
    }
    outcomes
}

/// A room key brings the session that it is the key of, with no index seen yet, and a host that
/// encrypts and writes always keeps it.
pub proof fn room_key_brings_its_session(
    json: Seq<u8>,
    at: Seq<char>,
    first: Step<RoomKey, Result<StoredInboundMegolmSession, String>>,
    calls: Seq<CallView>,
    replies: Seq<HostReply>,
    last: Step<RoomKey, Result<StoredInboundMegolmSession, String>>,
)
    requires
        RoomKey::begins(json, at, first),
        host::runs(RoomKey::rule(), first, calls, replies, last),
        last is Done,
    ensures
        last matches Step::Done(Ok(stored)) ==> room_key(json, at) is Ok && is_record_of(
            stored@,
            room_key(json, at)->Ok_0,
        ),
        room_key(json, at) is Ok && keeps(calls, replies) ==> last matches Step::Done(Ok(_)),
{
    let rule = RoomKey::rule();
    if room_key(json, at) is Ok {
        let second = host::run_goes_on(rule, first, calls, replies, last);
        assert(calls[0] is Encrypt);
        if !(second is Ask) {
            host::run_is_over(rule, second, calls.skip(1), replies.skip(1), last);
        } else {
            let third = host::run_goes_on(rule, second, calls.skip(1), replies.skip(1), last);
            assert(calls.skip(1)[0] == calls[1]);
            assert(replies.skip(1)[0] == replies[1]);
            assert(calls[1] is Write);
            host::run_is_over(
                rule,
                third,
                calls.skip(1).skip(1),
                replies.skip(1).skip(1),
                last,
            );
        }
    } else {
        host::run_is_over(rule, first, calls, replies, last);
    }
}

/// The room and session of the key that an event delivers as it is, if it is an m.room_key event with a
/// valid key.
pub open spec fn direct_key(event: ToDeviceEvent) -> Option<(Seq<char>, Seq<char>)> {
    if event.event_type@ == "m.room_key"@ {
        match room_key(event.content.json@, ""@) {
            Ok(key) => Some((key.room_id, key.session_id)),
            Err(_) => None,
        }
    } else {
        None
    }
}

proof fn entries_come_from_outcomes(
    sessions: Sessions,
    outcomes: Seq<Option<StoredInboundMegolmSession>>,
    key: (Seq<char>, Seq<char>),
)
    requires
        gathered(sessions, outcomes).dom().contains(key),
    ensures
        (sessions.dom().contains(key) && gathered(sessions, outcomes)[key] == sessions[key])
            || exists|i: int|
            0 <= i < outcomes.len() && (#[trigger] outcomes[i]) == Some(
                gathered(sessions, outcomes)[key],
            ) && (outcomes[i]->0.room_id@, outcomes[i]->0.session_id@) == key,
    decreases outcomes.len(),
{
    if outcomes.len() > 0 {
        let rest = outcomes.skip(1);
        let with = match outcomes[0] {
            Some(stored) => with_session(sessions, stored),
            None => sessions,
        };
        entries_come_from_outcomes(with, rest, key);
        if exists|i: int|
            0 <= i < rest.len() && (#[trigger] rest[i]) == Some(gathered(with, rest)[key]) && (
                rest[i]->0.room_id@,
                rest[i]->0.session_id@,
            ) == key {
            let i = choose|i: int|
                0 <= i < rest.len() && (#[trigger] rest[i]) == Some(gathered(with, rest)[key]) && (
                    rest[i]->0.room_id@,
                    rest[i]->0.session_id@,
                ) == key;
            assert(outcomes[i + 1] == rest[i]);
        } else if outcomes[0] is Some && (
            outcomes[0]->0.room_id@,
            outcomes[0]->0.session_id@,
        ) == key {
            assert(outcomes[0] == Some(gathered(sessions, outcomes)[key]));
        }
    }
}

proof fn direct_outcome_is_the_key(
    event: ToDeviceEvent,
    outcome: Option<StoredInboundMegolmSession>,
)
    requires
        is_outcome(event, true, outcome),
        event.event_type@ != "m.room.encrypted"@,
    ensures
        match outcome {
            Some(stored) => direct_key(event) == Some((stored.room_id@, stored.session_id@))
                && stored.seen_indices@ == Seq::<u32>::empty(),
            None => direct_key(event) is None,
        },
{
    if event.event_type@ == "m.room_key"@ {
        let (inner, calls, replies, end) = choose|
            inner: Step<RoomKey, Result<StoredInboundMegolmSession, String>>,
            calls: Seq<CallView>,
            replies: Seq<HostReply>,
            end: Step<RoomKey, Result<StoredInboundMegolmSession, String>>,
        |
            RoomKey::begins(event.content.json@, ""@, inner) && #[trigger] host::runs(
                RoomKey::rule(),
                inner,
                calls,
                replies,
                end,
            ) && (true ==> keeps(calls, replies)) && match end {
                Step::Done(Ok(stored)) => outcome == Some(stored),
                Step::Done(Err(_)) => outcome is None,
                _ => false,
            };
        room_key_brings_its_session(event.content.json@, ""@, inner, calls, replies, end);
        if let Some(stored) = outcome {
            assert(stored@.seen_indices == stored.seen_indices@);
        }
    }
}

/// Where no event is encrypted, and the host encrypts and writes, the sessions that the processing of
/// to-device events gives are exactly those of the valid room keys among the events: a bad event, or one
/// of another type, adds nothing and stops nothing. Each is entered under its own room and session, with
/// no index seen.
pub proof fn direct_keys_are_all_kept(
    events: Seq<ToDeviceEvent>,
    step: ToDeviceStep,
    calls: Seq<CallView>,
    replies: Seq<HostReply>,
    cache: MegolmSessionCache,
)
    requires
        ToDevice::proceeds(events, Map::empty(), step),
        host::runs(ToDevice::rule(), step, calls, replies, Step::Done(cache)),
        forall|i: int|
            0 <= i < events.len() ==> (#[trigger] events[i]).event_type@ != "m.room.encrypted"@,
        keeps(calls, replies),
    ensures
        forall|key: (Seq<char>, Seq<char>)| #[trigger]
            cache@.dom().contains(key) <==> exists|i: int|
                0 <= i < events.len() && direct_key(#[trigger] events[i]) == Some(key),
        forall|key: (Seq<char>, Seq<char>)| #[trigger]
            cache@.dom().contains(key) ==> (
            cache@[key].room_id@,
            cache@[key].session_id@,
        ) == key && cache@[key].seen_indices@ == Seq::<u32>::empty(),
{
    let outcomes = to_device_events_give_their_keys(events, step, calls, replies, cache);
    assert forall|i: int| 0 <= i < events.len() implies match #[trigger] outcomes[i] {
        Some(stored) => direct_key(events[i]) == Some((stored.room_id@, stored.session_id@))
            && stored.seen_indices@ == Seq::<u32>::empty(),
        None => direct_key(events[i]) is None,
    } by {
        assert(is_outcome(events[i], true, outcomes[i]));
        direct_outcome_is_the_key(events[i], outcomes[i]);
    }
    assert forall|key: (Seq<char>, Seq<char>)| #[trigger]
        cache@.dom().contains(key) <==> exists|i: int|
            0 <= i < events.len() && direct_key(#[trigger] events[i]) == Some(key) by {
        if cache@.dom().contains(key) {
            let i = choose|i: int|
                0 <= i < outcomes.len() && (#[trigger] outcomes[i]) is Some && (
                    outcomes[i]->0.room_id@,
                    outcomes[i]->0.session_id@,
                ) == key;
            assert(direct_key(events[i]) == Some(key));
        }
        if exists|i: int| 0 <= i < events.len() && direct_key(#[trigger] events[i]) == Some(key) {
            let i = choose|i: int|
                0 <= i < events.len() && direct_key(#[trigger] events[i]) == Some(key);
            assert(outcomes[i] is Some);
        }
    }
    assert forall|key: (Seq<char>, Seq<char>)| #[trigger]
        cache@.dom().contains(key) implies (cache@[key].room_id@, cache@[key].session_id@) == key
        && cache@[key].seen_indices@ == Seq::<u32>::empty() by {
        entries_come_from_outcomes(Map::empty(), outcomes, key);
        let i = choose|i: int|
            0 <= i < outcomes.len() && (#[trigger] outcomes[i]) == Some(cache@[key]) && (
                outcomes[i]->0.room_id@,
                outcomes[i]->0.session_id@,
            ) == key;
        assert(outcomes[i] == Some(cache@[key]));
    }
}

/// Whether the host reads back what was written of an inbound session.
pub open spec fn reads_back(calls: Seq<CallView>, call: CallView, reply: HostReply) -> bool {
    forall|i: int, record: InboundView|
        #![trigger calls[i], record.json()]
        0 <= i < calls.len() && (calls[i] matches CallView::Write(path, text) && text
            == record.json() && call == CallView::ReadInbound(path)) ==> (
        reply matches HostReply::Inbound(Some(stored)) && stored@ == record)
}

/// What we encrypt we read: where an encryption for a room made a session of its own and gave an event,
/// and the event comes back, with no session of the room cached for it, the decryption gives the text.
/// The host is one that encrypts and writes what it is asked to, decrypts what it encrypted, and reads
/// what was written.
pub proof fn own_message_is_read(
    flow: EncryptMessage,
    call: HostCall,
    homeserver_url: Seq<char>,
    room_id: Seq<char>,
    plaintext: Seq<char>,
    txn: u64,
    calls: Seq<CallView>,
    replies: Seq<HostReply>,
    content: String,
    event: RoomEvent,
    sessions: Sessions,
    first: TryDecryptStep,
    later_calls: Seq<CallView>,
    later_replies: Seq<HostReply>,
    last: TryDecryptStep,
)
    requires
        flow.begins(call, homeserver_url, room_id, plaintext, txn),
        host::runs(
            EncryptMessage::rule(),
            Step::Ask(call, flow),
            calls,
            replies,
            Step::Done(Ok(content)),
        ),
        calls.len() > 3,
        calls[3] is Encrypt,
        carries(event, content@),
        TryDecrypt::begins(room_id, event, sessions, first),
        event.content.encrypted matches Ok(parsed) && (parsed.session_id matches Some(id)
            ==> !sessions.dom().contains((room_id, id@))),
        host::runs(TryDecrypt::rule(), first, later_calls, later_replies, last),
        last is Done,
        keeps(later_calls, later_replies),
        forall|i: int|
            0 <= i < later_calls.len() ==> host::gives_back(
                calls,
                replies,
                #[trigger] later_calls[i],
                later_replies[i],
            ) && reads_back(calls, later_calls[i], later_replies[i]),
    ensures
        last matches Step::Done((Ok(text), _)) && text@ == plaintext,
{
    let rule = TryDecrypt::rule();
    let (session, kept) = encryption::new_session_is_kept(
        flow,
        call,
        homeserver_url,
        room_id,
        plaintext,
        txn,
        calls,
        replies,
        content,
    );
    let inbound = megolm::inbound_of_key(megolm::outbound_key(session))->Ok_0;
    let index = megolm::outbound_index(session);
    let (sender_key, device_id, ciphertext) = choose|
        sender_key: Seq<char>,
        device_id: Seq<char>,
        ciphertext: Seq<char>,
    |
        content@ == #[trigger] encryption::encrypted_event_text(
            sender_key,
            kept.session_id,
            device_id,
            ciphertext,
        ) && (forall|inbound: Seq<u8>| #[trigger]
            megolm::inbound_reads(inbound, session) ==> megolm::decrypts_to(
                inbound,
                ciphertext,
                encryption::inner_event_text(room_id, plaintext),
                index,
            ));
    let tree = encryption::encrypted_event_reads_back(
        sender_key,
        kept.session_id,
        device_id,
        ciphertext,
    );
    json_tree::shallow_fits(tree, 1, 127);
    assert(content@ == json_tree::written(tree));
    assert(content_error(event) is None);
    let (sealed, cache) = match first {
        Step::Ask(_, TryDecrypt::Reading(sealed, cache)) => (sealed, cache),
        _ => arbitrary(),
    };
    assert(sealed.ciphertext@ == ciphertext);
    assert(sealed.session_id@ == kept.session_id);
    let second = host::run_goes_on(rule, first, later_calls, later_replies, last);
    let path = crypto_store::inbound_path(room_id, kept.session_id);
    assert(later_calls[0] == CallView::ReadInbound(path));
    assert(reads_back(calls, later_calls[0], later_replies[0]));
    assert(calls[4] == CallView::Write(path, kept.json()));
    assert(later_replies[0] matches HostReply::Inbound(Some(stored)) && stored@ == kept);
    let (c, record, cache) = match second {
        Step::Ask(c, TryDecrypt::Opening(_, r, k)) => (c, r, k),
        _ => arbitrary(),
    };
    assert(record@ == kept);
    let _ = host::run_goes_on(rule, second, later_calls.skip(1), later_replies.skip(1), last);
    assert(later_calls.skip(1)[0] == later_calls[1]);
    assert(later_replies.skip(1)[0] == later_replies[1]);
    assert(host::gives_back(calls, replies, later_calls[1], later_replies[1]));
    assert(calls[3] is Encrypt);
    assert(later_replies[1] matches HostReply::Bytes(Ok(bytes)) && bytes@ == inbound);
    keeping_goes_on(later_calls, later_replies);
    assert(record.seen_indices@ == kept.seen_indices);
    fresh_message_is_read(
        c,
        sealed,
        record,
        cache,
        later_calls.skip(1),
        later_replies.skip(1),
        last,
        inbound,
        room_id,
        plaintext,
        index,
    );
}

impl DecryptOlm {
    /// What the flow does from an answer.
    pub open spec fn rule() -> host::Rule<DecryptOlm, Result<Vec<u8>, String>> {
        |flow: DecryptOlm, reply: HostReply, step: OlmStep| flow.moves(reply, step)
    }
}

/// Whether a stored session is tried on a message by a question and its answer, with this outcome: the
/// host is asked to decrypt its pickle, and does.
pub open spec fn is_tried(
    stored: StoredOlmSession,
    message: OlmText,
    outcome: Option<(OlmSession, Vec<u8>)>,
    call: CallView,
    reply: HostReply,
) -> bool {
    &&& call matches CallView::Decrypt(bytes)
    &&& crypto_store::unsealed_bytes(stored.pickled_session@) == Ok::<Seq<u8>, Seq<char>>(bytes)
    &&& reply matches HostReply::Bytes(Ok(opened))
    &&& olm::olm_pickle(opened@) matches Ok(session)
    &&& olm::can_come_out(session, message, outcome)
}

/// Whether a stored session decrypts a message, by a question and its answer, and is this afterwards.
pub open spec fn decrypted_by(
    stored: StoredOlmSession,
    message: OlmText,
    session: Seq<u8>,
    plaintext: Vec<u8>,
    call: CallView,
    reply: HostReply,
) -> bool {
    exists|after: OlmSession|
        after@ == session && #[trigger] is_tried(
            stored,
            message,
            Some((after, plaintext)),
            call,
            reply,
        )
}

/// Whether a stored session cannot be opened, by the question for it and its answer, if there are any.
pub open spec fn cannot_be_opened(
    stored: StoredOlmSession,
    calls: Seq<CallView>,
    replies: Seq<HostReply>,
    at: int,
) -> bool {
    ||| crypto_store::unsealed_bytes(stored.pickled_session@) is Err
    ||| at < calls.len() && calls[at] is Decrypt && (replies[at] matches HostReply::Bytes(opened) && (
    opened matches Ok(bytes) ==> olm::olm_pickle(bytes@) is Err))
}

/// How the attempts with stored sessions go: how many there are, what the one that decrypts the message
/// gives, whether one of the sessions cannot be opened, and the step after them.
pub struct Attempts {
    pub tried: int,
    pub found: Option<(OlmSession, Vec<u8>)>,
    pub stuck: bool,
    pub step: OlmStep,
}

/// The attempts with the sessions that are left, one after the other, until one decrypts the message.
proof fn sessions_are_tried(
    key: CurveKey,
    message: OlmText,
    total: usize,
    left: Seq<StoredOlmSession>,
    first: OlmStep,
    calls: Seq<CallView>,
    replies: Seq<HostReply>,
    last: OlmStep,
) -> (r: Attempts)
    requires
        DecryptOlm::tries(key, message, total, left, first),
        host::runs(DecryptOlm::rule(), first, calls, replies, last),
        last is Done,
    ensures
        0 <= r.tried <= left.len(),
        r.tried <= calls.len(),
        calls.len() == replies.len(),
        forall|k: int|
            0 <= k < r.tried && !(k == r.tried - 1 && r.found is Some) ==> is_tried(
                #[trigger] left[k],
                message,
                None,
                calls[k],
                replies[k],
            ),
        r.stuck ==> r.found is None && last is Done && last->Done_0 is Err && r.tried < left.len()
            && cannot_be_opened(left[r.tried], calls, replies, r.tried),
        !r.stuck ==> host::runs(
            DecryptOlm::rule(),
            r.step,
            calls.skip(r.tried),
            replies.skip(r.tried),
            last,
        ),
        !r.stuck && r.found is None ==> r.tried == left.len() && DecryptOlm::tries(
            key,
            message,
            total,
            Seq::empty(),
            r.step,
        ),
        r.found matches Some((session, plaintext)) ==> r.tried > 0 && is_tried(
            left[r.tried - 1],
            message,
            r.found,
            calls[r.tried - 1],
            replies[r.tried - 1],
        ) && (r.step matches Step::Ask(call, DecryptOlm::Updating(k, record, replaced, p)) && call@
            == CallView::Encrypt(session@) && k == key && replaced == Some(
            left[r.tried - 1].pickled_session,
        ) && p == plaintext),
    decreases left.len(),
{
    let rule = DecryptOlm::rule();
    if left.len() == 0 {
        assert(calls.skip(0) =~= calls && replies.skip(0) =~= replies);
        assert(left =~= Seq::empty());
        Attempts { tried: 0, found: None, stuck: false, step: first }
    } else if crypto_store::unsealed_bytes(left[0].pickled_session@) is Err {
        host::run_is_over(rule, first, calls, replies, last);
        Attempts { tried: 0, found: None, stuck: true, step: first }
    } else {
        let s1 = host::run_goes_on(rule, first, calls, replies, last);
        let (c1, r1) = (calls.skip(1), replies.skip(1));
        if s1 is Stray {
            host::run_is_over(rule, s1, c1, r1, last);
        }
        let rest = match first {
            Step::Ask(_, DecryptOlm::Trying(_, _, _, _, rest)) => rest,
            _ => arbitrary(),
        };
        assert(first matches Step::Ask(_, DecryptOlm::Trying(k, m, t, c, _)) && k == key && m
            == message && t == total && c == left[0]);
        let decrypted = replies[0]->Bytes_0;
        let opened = crypto_store::opened_pickle(decrypted, olm::olm_pickle(decrypted->Ok_0@));
        if opened is Err {
            host::run_is_over(rule, s1, c1, r1, last);
            Attempts { tried: 0, found: None, stuck: true, step: first }
        } else {
            let session = opened->Ok_0;
            let outcome = choose|outcome: Option<(OlmSession, Vec<u8>)>|
                #![trigger olm::can_come_out(session, message, outcome)]
                olm::can_come_out(session, message, outcome) && DecryptOlm::attempted(
                    key,
                    message,
                    total,
                    left[0],
                    rest,
                    outcome,
                    s1,
                );
            assert(is_tried(left[0], message, outcome, calls[0], replies[0]));
            if outcome is Some {
                Attempts { tried: 1, found: outcome, stuck: false, step: s1 }
            } else {
                let r = sessions_are_tried(
                    key,
                    message,
                    total,
                    left.skip(1),
                    s1,
                    c1,
                    r1,
                    last,
                );
                let tried = r.tried + 1;
                assert(c1.skip(r.tried) =~= calls.skip(tried));
                assert(r1.skip(r.tried) =~= replies.skip(tried));
                assert forall|k: int|
                    0 <= k < tried && !(k == tried - 1 && r.found is Some) implies is_tried(
                    #[trigger] left[k],
                    message,
                    None,
                    calls[k],
                    replies[k],
                ) by {
                    if k > 0 {
                        assert(left.skip(1)[k - 1] == left[k]);
                        assert(c1[k - 1] == calls[k] && r1[k - 1] == replies[k]);
                    }
                }
                if r.found is Some {
                    assert(left.skip(1)[r.tried - 1] == left[tried - 1]);
                    assert(c1[r.tried - 1] == calls[tried - 1]);
                    assert(r1[r.tried - 1] == replies[tried - 1]);
                }
                if r.stuck {
                    assert(left.skip(1)[r.tried] == left[tried]);
                    if r.tried < c1.len() {
                        assert(c1[r.tried] == calls[tried] && r1[r.tried] == replies[tried]);
                    }
                }
                Attempts { tried, found: r.found, stuck: r.stuck, step: r.step }
            }
        }
    }
}

/// A session that decrypted a message is saved before the plaintext is given.
proof fn updated_session_is_saved(
    key: CurveKey,
    record: StoredOlmSession,
    replaced: Option<String>,
    plaintext: Vec<u8>,
    call: HostCall,
    calls: Seq<CallView>,
    replies: Seq<HostReply>,
    given: Vec<u8>,
)
    requires
        host::runs(
            DecryptOlm::rule(),
            Step::Ask(call, DecryptOlm::Updating(key, record, replaced, plaintext)),
            calls,
            replies,
            Step::Done(Ok(given)),
        ),
        call@ is Encrypt,
    ensures
        given == plaintext,
        calls.len() == replies.len() == 4,
        crypto_store::session_is_saved(
            calls,
            replies,
            key@,
            call@->Encrypt_0,
            json::opt_text(replaced),
        ),
{
    let rule = DecryptOlm::rule();
    let last: OlmStep = Step::Done(Ok(given));
    let first: OlmStep = Step::Ask(
        call,
        DecryptOlm::Updating(key, record, replaced, plaintext),
    );
    let s1 = host::run_goes_on(rule, first, calls, replies, last);
    let (c1, r1) = (calls.skip(1), replies.skip(1));
    if !(s1 is Ask) {
        host::run_is_over(rule, s1, c1, r1, last);
    }
    let sealed = match s1 {
        Step::Ask(_, DecryptOlm::Stamping(_, sealed, _, _)) => sealed,
        _ => arbitrary(),
    };
    assert(s1 matches Step::Ask(_, DecryptOlm::Stamping(k, _, o, p)) && k == key && o == replaced
        && p == plaintext);
    let s2 = host::run_goes_on(rule, s1, c1, r1, last);
    let (c2, r2) = (c1.skip(1), r1.skip(1));
    if !(s2 is Ask) {
        host::run_is_over(rule, s2, c2, r2, last);
    }
    let now = r1[0]->Time_0;
    let (save_call, save) = match s2 {
        Step::Ask(save_call, DecryptOlm::Saving(_, save)) => (save_call, save),
        _ => arbitrary(),
    };
    assert(s2 == Step::<DecryptOlm, Result<Vec<u8>, String>>::Ask(
        save_call,
        DecryptOlm::Saving(plaintext, save),
    ));
    let inner_rule = SaveOlm::rule();
    let whole = |f: SaveOlm| DecryptOlm::Saving(plaintext, f);
    let after = |result: Result<(), String>, step: OlmStep|
        match result {
            Ok(_) => step.gives(Ok(plaintext)),
            Err(e) => step.gives(Err(e)),
        };
    assert forall|flow: SaveOlm, reply: HostReply, step: OlmStep| #[trigger]
        host::goes(rule, whole(flow), reply, step) implies host::passes_on(
        inner_rule,
        whole,
        after,
        flow,
        reply,
        step,
    ) by {
        let inner = choose|inner: crypto_store::SaveOlmStep|
            #![trigger flow.moves(reply, inner)]
            flow.moves(reply, inner) && inner.passes_to(
                step,
                |s: SaveOlm| DecryptOlm::Saving(plaintext, s),
            ) && match inner {
                Step::Done(Ok(_)) => step.gives(Ok(plaintext)),
                Step::Done(Err(e)) => step.gives(Err(e)),
                _ => true,
            };
        assert(host::goes(inner_rule, flow, reply, inner));
        assert(inner matches Step::Done(result) ==> after(result, step));
    }
    let (k, result, step) = host::inner_run_ends(
        inner_rule,
        rule,
        whole,
        after,
        save_call,
        save,
        c2,
        r2,
        last,
    );
    host::run_is_over(rule, step, c2.skip(k), r2.skip(k), last);
    assert(c2.take(k) =~= c2 && r2.take(k) =~= r2);
    assert(result is Ok);
    assert(result->Ok_0 == ());
    let (stored, saved) = crypto_store::saving_writes_the_sessions(
        save,
        save_call,
        key@,
        json::opt_text(replaced),
        sealed.sender_key@,
        sealed.pickled_session@,
        now,
        c2,
        r2,
    );
    assert(c2[0] == calls[2] && c2[1] == calls[3]);
    assert(r2[0] == replies[2] && r2[1] == replies[3]);
    assert(crypto_store::saves_record(
        calls,
        replies,
        key@,
        stored,
        saved,
        json::opt_text(replaced),
    ));
    assert(calls[0] == call@);
}

/// How a message comes to be decrypted: the session as it is afterwards, the stored pickle that it replaces
/// where it is not new, and how many stored sessions were tried.
pub struct OlmRun {
    pub session: Seq<u8>,
    pub replaced: Option<Seq<char>>,
    pub tried: int,
}

/// An Olm session stays usable: where a message is decrypted, the session as it is afterwards is saved for
/// its sender, before the others that are stored. It is the first of the stored ones that decrypts the
/// message, or, where none does, a new one that the account makes from it; then the account, from which
/// the one-time key is gone, is saved too.
pub proof fn decrypting_session_is_kept(
    flow: DecryptOlm,
    call: HostCall,
    sender: Seq<char>,
    message: OlmText,
    calls: Seq<CallView>,
    replies: Seq<HostReply>,
    plaintext: Vec<u8>,
) -> (r: OlmRun)
    requires
        flow.begins(call, sender, message),
        host::runs(
            DecryptOlm::rule(),
            Step::Ask(call, flow),
            calls,
            replies,
            Step::Done(Ok(plaintext)),
        ),
    ensures
        calls.len() == replies.len() > 0,
        calls[0] == CallView::ReadOlmSessions(crypto_store::olm_sessions_path(sender)),
        replies[0] is OlmSessions,
        0 <= r.tried <= replies[0]->OlmSessions_0@.len(),
        r.tried + 1 < calls.len(),
        crypto_store::session_is_saved(calls, replies, sender, r.session, r.replaced),
        forall|k: int|
            0 <= k < r.tried && !(k == r.tried - 1 && r.replaced is Some) ==> is_tried(
                #[trigger] replies[0]->OlmSessions_0@[k],
                message,
                None,
                calls[k + 1],
                replies[k + 1],
            ),
        match r.replaced {
            Some(pickled) => r.tried > 0 && replies[0]->OlmSessions_0@[r.tried
                - 1].pickled_session@ == pickled && decrypted_by(
                replies[0]->OlmSessions_0@[r.tried - 1],
                message,
                r.session,
                plaintext,
                calls[r.tried],
                replies[r.tried],
            ),
            None => r.tried == replies[0]->OlmSessions_0@.len() && is_new_from(
                sender,
                message,
                r.session,
                plaintext@,
                calls,
                replies,
                r.tried + 1,
            ),
        },
{
    let rule = DecryptOlm::rule();
    let last: OlmStep = Step::Done(Ok(plaintext));
    let s1 = host::run_goes_on(rule, Step::Ask(call, flow), calls, replies, last);
    let (c1, r1) = (calls.skip(1), replies.skip(1));
    if s1 is Stray {
        host::run_is_over(rule, s1, c1, r1, last);
    }
    let (key, sessions) = match (flow, replies[0]) {
        (DecryptOlm::Reading(key, _), HostReply::OlmSessions(sessions)) => (key, sessions),
        _ => arbitrary(),
    };
    assert(replies[0] is OlmSessions) by {
        if !(replies[0] is OlmSessions) {
            host::run_is_over(rule, s1, c1, r1, last);
        }
    }
    let a = sessions_are_tried(key, message, sessions.len(), sessions@, s1, c1, r1, last);
    let n = a.tried + 1;
    let (cn, rn) = (calls.skip(n), replies.skip(n));
    assert(c1.skip(a.tried) =~= cn && r1.skip(a.tried) =~= rn);
    assert forall|k: int| 0 <= k < a.tried implies (#[trigger] c1[k]) == calls[k + 1] && r1[k]
        == replies[k + 1] by {}
    assert forall|k: int| 0 <= k < a.tried && !(k == a.tried - 1 && a.found is Some) implies is_tried(
        #[trigger] sessions@[k],
        message,
        None,
        calls[k + 1],
        replies[k + 1],
    ) by {
        assert(c1[k] == calls[k + 1]);
    }
    match a.found {
        Some((session, found)) => {
            let (asked, record, replaced) = match a.step {
                Step::Ask(asked, DecryptOlm::Updating(_, record, replaced, _)) => (
                    asked,
                    record,
                    replaced,
                ),
                _ => arbitrary(),
            };
            assert(a.step == Step::<DecryptOlm, Result<Vec<u8>, String>>::Ask(
                asked,
                DecryptOlm::Updating(key, record, replaced, found),
            ));
            updated_session_is_saved(key, record, replaced, found, asked, cn, rn, plaintext);
            encryption::saved_in_more(
                calls,
                replies,
                n,
                sender,
                session@,
                json::opt_text(replaced),
            );
            assert(c1[a.tried - 1] == calls[a.tried]);
            assert(decrypted_by(
                sessions@[a.tried - 1],
                message,
                session@,
                plaintext,
                calls[a.tried],
                replies[a.tried],
            ));
            OlmRun {
                session: session@,
                replaced: Some(sessions@[a.tried - 1].pickled_session@),
                tried: a.tried,
            }
        },
        None => {
            let session = new_session_is_saved_for(
                key,
                message,
                sessions.len(),
                a.step,
                cn,
                rn,
                plaintext,
            );
            encryption::saved_in_more(calls, replies, n, sender, session, None);
            new_in_more(sender, message, session, plaintext@, calls, replies, n);
            OlmRun { session, replaced: None, tried: a.tried }
        },
    }
}

/// Whether a session is new, made from a message by our account, as it is stored, by the questions from
/// this one on; and the account as it is afterwards is saved, for the same device.
pub open spec fn is_new_from(
    sender: Seq<char>,
    message: OlmText,
    session: Seq<u8>,
    plaintext: Seq<u8>,
    calls: Seq<CallView>,
    replies: Seq<HostReply>,
    at: int,
) -> bool {
    &&& message matches OlmText::PreKey(prekey)
    &&& 0 <= at
    &&& at + 4 < calls.len()
    &&& calls.len() == replies.len()
    &&& calls[at] == CallView::ReadAccount("crypto/account.json"@)
    &&& replies[at] matches HostReply::Account(Some(stored))
    &&& calls[at + 1] matches CallView::Decrypt(bytes)
    &&& crypto_store::unsealed_bytes(stored.pickled_account@) == Ok::<Seq<u8>, Seq<char>>(bytes)
    &&& replies[at + 1] matches HostReply::Bytes(Ok(opened))
    &&& olm::account_pickle(opened@) matches Ok(account)
    &&& olm::inbound_creation(account, sender, prekey@) matches Ok((after, made, text))
    &&& made == session
    &&& text == plaintext
    &&& exists|record: crypto_store::AccountView|
        {
            &&& #[trigger] crate::device::saves_account(calls, replies, at + 2, after, record)
            &&& record.user_id == stored.user_id@
            &&& record.device_id == stored.device_id@
            &&& record.keys_uploaded == stored.keys_uploaded
            &&& record.uploaded_key_count == stored.uploaded_key_count
        }
}

proof fn new_in_more(
    sender: Seq<char>,
    message: OlmText,
    session: Seq<u8>,
    plaintext: Seq<u8>,
    calls: Seq<CallView>,
    replies: Seq<HostReply>,
    n: int,
)
    requires
        0 <= n <= calls.len(),
        calls.len() == replies.len(),
        is_new_from(sender, message, session, plaintext, calls.skip(n), replies.skip(n), 0),
    ensures
        is_new_from(sender, message, session, plaintext, calls, replies, n),
{
    let (cn, rn) = (calls.skip(n), replies.skip(n));
    assert forall|k: int| 0 <= k < cn.len() implies (#[trigger] cn[k]) == calls[n + k] && rn[k]
        == replies[n + k] by {}
    assert(cn[0] == calls[n] && cn[1] == calls[n + 1] && cn[2] == calls[n + 2] && cn[3] == calls[n
        + 3]);
    let stored = rn[0]->Account_0->0;
    let account = olm::account_pickle(rn[1]->Bytes_0->Ok_0@)->Ok_0;
    let (after, _, _) = olm::inbound_creation(account, sender, message->PreKey_0@)->Ok_0;
    let record = choose|record: crypto_store::AccountView|
        {
            &&& #[trigger] crate::device::saves_account(cn, rn, 2, after, record)
            &&& record.user_id == stored.user_id@
            &&& record.device_id == stored.device_id@
            &&& record.keys_uploaded == stored.keys_uploaded
            &&& record.uploaded_key_count == stored.uploaded_key_count
        };
    assert(crate::device::saves_account(calls, replies, n + 2, after, record));
}

proof fn new_session_is_saved_for(
    key: CurveKey,
    message: OlmText,
    total: usize,
    first: OlmStep,
    calls: Seq<CallView>,
    replies: Seq<HostReply>,
    plaintext: Vec<u8>,
) -> (session: Seq<u8>)
    requires
        DecryptOlm::tries(key, message, total, Seq::empty(), first),
        host::runs(DecryptOlm::rule(), first, calls, replies, Step::Done(Ok(plaintext))),
    ensures
        calls.len() == replies.len() > 0,
        crypto_store::session_is_saved(calls, replies, key@, session, None),
        is_new_from(key@, message, session, plaintext@, calls, replies, 0),
{
    let rule = DecryptOlm::rule();
    let last: OlmStep = Step::Done(Ok(plaintext));
    if message is Normal {
        host::run_is_over(rule, first, calls, replies, last);
    }
    let prekey = message->PreKey_0;
    let s1 = host::run_goes_on(rule, first, calls, replies, last);
    let (c1, r1) = (calls.skip(1), replies.skip(1));
    if !(s1 is Ask) {
        host::run_is_over(rule, s1, c1, r1, last);
    }
    let stored = match s1 {
        Step::Ask(_, DecryptOlm::Unsealing(_, _, stored)) => stored,
        _ => arbitrary(),
    };
    assert(s1 matches Step::Ask(_, DecryptOlm::Unsealing(k, m, _)) && k == key && m == prekey);
    let s2 = host::run_goes_on(rule, s1, c1, r1, last);
    let (c2, r2) = (c1.skip(1), r1.skip(1));
    assert(c1[0] == calls[1] && r1[0] == replies[1]);
    if !(s2 is Ask) {
        host::run_is_over(rule, s2, c2, r2, last);
    }
    let (save_call, session, found, save) = match s2 {
        Step::Ask(save_call, DecryptOlm::SavingAccount(_, session, found, save)) => (
            save_call,
            session,
            found,
            save,
        ),
        _ => arbitrary(),
    };
    assert(s2 == Step::<DecryptOlm, Result<Vec<u8>, String>>::Ask(
        save_call,
        DecryptOlm::SavingAccount(key, session, found, save),
    ));
    let account = olm::account_pickle(replies[1]->Bytes_0->Ok_0@)->Ok_0;
    let after_account = olm::inbound_creation(account, key@, prekey@)->Ok_0.0;
    let inner_rule = SaveAccount::rule();
    let whole = |f: SaveAccount| DecryptOlm::SavingAccount(key, session, found, f);
    let after = |result: Result<(), String>, step: OlmStep|
        match result {
            Ok(_) => step matches Step::Ask(
                call,
                DecryptOlm::Updating(k, record, replaced, p),
            ) && call@ == CallView::Encrypt(session@) && k == key && replaced is None && p == found,
            Err(e) => step.gives(Err(e)),
        };
    assert forall|flow: SaveAccount, reply: HostReply, step: OlmStep| #[trigger]
        host::goes(rule, whole(flow), reply, step) implies host::passes_on(
        inner_rule,
        whole,
        after,
        flow,
        reply,
        step,
    ) by {
        let inner = choose|inner: Step<SaveAccount, Result<(), String>>|
            #![trigger flow.moves(reply, inner)]
            flow.moves(reply, inner) && inner.passes_to(
                step,
                |s: SaveAccount| DecryptOlm::SavingAccount(key, session, found, s),
            ) && match inner {
                Step::Done(Ok(_)) => step matches Step::Ask(
                    call,
                    DecryptOlm::Updating(k, record, replaced, p),
                ) && call@ == CallView::Encrypt(session@) && k == key && record.sender_key@ == key@
                    && replaced is None && p == found,
                Step::Done(Err(e)) => step.gives(Err(e)),
                _ => true,
            };
        assert(host::goes(inner_rule, flow, reply, inner));
        assert(inner matches Step::Done(result) ==> after(result, step));
    }
    let (k, result, step) = host::inner_run_ends(
        inner_rule,
        rule,
        whole,
        after,
        save_call,
        save,
        c2,
        r2,
        last,
    );
    if result is Err {
        host::run_is_over(rule, step, c2.skip(k), r2.skip(k), last);
    }
    assert(result->Ok_0 == ());
    let record = crate::device::account_is_saved(
        save,
        save_call,
        after_account,
        stored.user_id@,
        stored.device_id@,
        stored.keys_uploaded,
        stored.uploaded_key_count,
        c2.take(k),
        r2.take(k),
    );
    let n = k + 2;
    let (cn, rn) = (calls.skip(n), replies.skip(n));
    assert(c2.skip(k) =~= cn && r2.skip(k) =~= rn);
    assert(c2.take(k)[0] == calls[2] && c2.take(k)[1] == calls[3]);
    assert(r2.take(k)[0] == replies[2] && r2.take(k)[1] == replies[3]);
    if let Step::Ask(asked, DecryptOlm::Updating(_, kept, replaced, p)) = step {
        updated_session_is_saved(key, kept, replaced, p, asked, cn, rn, plaintext);
        encryption::saved_in_more(calls, replies, n, key@, session@, None);
    }
    assert(crate::device::saves_account(calls, replies, 2, after_account, record));
    session@
}

/// A message is not given up before every stored session was tried. Where a decryption fails, a stored
/// session decrypted the message and could not be saved, or one of them cannot be opened, or all of them
/// were tried and none decrypts it; and then, where the message can start a session, the account is asked.
pub proof fn message_is_given_up_last(
    flow: DecryptOlm,
    call: HostCall,
    sender: Seq<char>,
    message: OlmText,
    stored: Vec<StoredOlmSession>,
    calls: Seq<CallView>,
    replies: Seq<HostReply>,
    e: String,
) -> (r: Attempts)
    requires
        flow.begins(call, sender, message),
        host::runs(
            DecryptOlm::rule(),
            Step::Ask(call, flow),
            calls,
            replies,
            Step::Done(Err(e)),
        ),
        replies[0] == HostReply::OlmSessions(stored),
    ensures
        calls.len() == replies.len() > r.tried >= 0,
        r.tried <= stored@.len(),
        forall|k: int|
            0 <= k < r.tried && !(k == r.tried - 1 && r.found is Some) ==> is_tried(
                #[trigger] stored@[k],
                message,
                None,
                calls[k + 1],
                replies[k + 1],
            ),
        r.found is Some ==> r.tried > 0 && is_tried(
            stored@[r.tried - 1],
            message,
            r.found,
            calls[r.tried],
            replies[r.tried],
        ),
        r.stuck ==> r.tried < stored@.len() && cannot_be_opened(
            stored@[r.tried],
            calls.skip(1),
            replies.skip(1),
            r.tried,
        ),
        r.found is None && !r.stuck ==> r.tried == stored@.len() && (message is PreKey ==> calls.len()
            > r.tried + 1 && calls[r.tried + 1] == CallView::ReadAccount("crypto/account.json"@)),
{
    let rule = DecryptOlm::rule();
    let last: OlmStep = Step::Done(Err(e));
    let s1 = host::run_goes_on(rule, Step::Ask(call, flow), calls, replies, last);
    let (c1, r1) = (calls.skip(1), replies.skip(1));
    let key = match flow {
        DecryptOlm::Reading(key, _) => key,
        _ => arbitrary(),
    };
    let a = sessions_are_tried(key, message, stored.len(), stored@, s1, c1, r1, last);
    assert forall|k: int| 0 <= k < a.tried implies (#[trigger] c1[k]) == calls[k + 1] && r1[k]
        == replies[k + 1] by {}
    assert forall|k: int| 0 <= k < a.tried && !(k == a.tried - 1 && a.found is Some) implies is_tried(
        #[trigger] stored@[k],
        message,
        None,
        calls[k + 1],
        replies[k + 1],
    ) by {
        assert(c1[k] == calls[k + 1]);
    }
    if a.found is Some {
        assert(c1[a.tried - 1] == calls[a.tried]);
    }
    if a.found is None && !a.stuck && message is PreKey {
        let (cn, rn) = (c1.skip(a.tried), r1.skip(a.tried));
        let _ = host::run_goes_on(rule, a.step, cn, rn, last);
        assert(cn[0] == calls[a.tried + 1]);
    }
    a
}

/// A session that was saved is the first that is tried on the next message of its sender: the host is asked
/// to decrypt what it made of the session's pickle.
pub proof fn saved_session_is_tried_first(
    flow: DecryptOlm,
    call: HostCall,
    sender: Seq<char>,
    message: OlmText,
    stored: Vec<StoredOlmSession>,
    sealed: Seq<u8>,
    calls: Seq<CallView>,
    replies: Seq<HostReply>,
    last: OlmStep,
)
    requires
        flow.begins(call, sender, message),
        host::runs(DecryptOlm::rule(), Step::Ask(call, flow), calls, replies, last),
        last is Done,
        replies[0] == HostReply::OlmSessions(stored),
        stored@.len() > 0,
        crypto_store::unsealed_bytes(stored@[0].pickled_session@) == Ok::<Seq<u8>, Seq<char>>(sealed),
    ensures
        calls.len() > 1,
        calls[0] == CallView::ReadOlmSessions(crypto_store::olm_sessions_path(sender)),
        calls[1] == CallView::Decrypt(sealed),
{
    let rule = DecryptOlm::rule();
    let s1 = host::run_goes_on(rule, Step::Ask(call, flow), calls, replies, last);
    let (c1, r1) = (calls.skip(1), replies.skip(1));
    let _ = host::run_goes_on(rule, s1, c1, r1, last);
    assert(c1[0] == calls[1]);
}

/// How an Olm-encrypted event is decrypted: up to which question, the first step, the message, and what it
/// is decrypted to.
pub struct OlmEventRun {
    pub end: int,
    pub call: HostCall,
    pub flow: DecryptOlm,
    pub message: OlmText,
    pub plaintext: Vec<u8>,
}

/// Whether two questions, one after the other, store the session of a room key: the host has encrypted its
/// pickle, and has written its record, with the encrypted pickle, for its room and session.
pub open spec fn stores_key(
    calls: Seq<CallView>,
    replies: Seq<HostReply>,
    at: int,
    key: RoomKeyView,
    record: InboundView,
) -> bool {
    &&& calls.len() == replies.len() == at + 2
    &&& calls[at] == CallView::Encrypt(key.pickle)
    &&& (replies[at] matches HostReply::Bytes(Ok(sealed)) && crypto_store::unsealed_bytes(
        record.pickled_session,
    ) == Ok::<Seq<u8>, Seq<char>>(sealed@))
    &&& calls[at + 1] == CallView::Write(
        crypto_store::inbound_path(key.room_id, key.session_id),
        record.json(),
    )
    &&& (replies[at + 1] matches HostReply::Written(Ok(_)))
    &&& record.room_id == key.room_id
    &&& record.session_id == key.session_id
    &&& record.sender_key == key.sender_key
    &&& record.seen_indices == Seq::<u32>::empty()
    &&& !record.forwarded
}

/// An Olm-encrypted event brings the room key in it. Where its processing succeeds, the message for our
/// device was decrypted as one of the sender whose key it names; and where what it was decrypted to is a
/// room key, the session of that key is stored, and given. Where it is anything else, nothing is.
pub proof fn olm_event_brings_its_key(
    event: ToDeviceEvent,
    first: OlmToDeviceStep,
    calls: Seq<CallView>,
    replies: Seq<HostReply>,
    found: Option<StoredInboundMegolmSession>,
    content: OlmEncryptedContent,
) -> (r: OlmEventRun)
    requires
        event.content.olm == Ok::<OlmEncryptedContent, String>(content),
        OlmToDevice::begins(event, first),
        host::runs(OlmToDevice::rule(), first, calls, replies, Step::Done(Ok(found))),
    ensures
        content.algorithm@ == "m.olm.v1.curve25519-aes-sha2"@,
        olm::curve_key(content.sender_key@) is Ok,
        calls.len() == replies.len() >= r.end > 1,
        calls[0] == CallView::ReadAccount("crypto/account.json"@),
        replies[0] matches HostReply::Account(Some(account)) && message_for(
            content.ciphertext@,
            account.curve25519_key@,
        ) == Ok::<(bool, Seq<char>), Seq<char>>((r.message is PreKey, r.message.text())),
        r.flow.begins(r.call, olm::curve_key(content.sender_key@)->Ok_0, r.message),
        host::runs(
            DecryptOlm::rule(),
            Step::Ask(r.call, r.flow),
            calls.subrange(1, r.end),
            replies.subrange(1, r.end),
            Step::Done(Ok(r.plaintext)),
        ),
        found is Some <==> json::string_at(r.plaintext@, "/type"@) == Some("m.room_key"@),
        found is None ==> calls.len() == r.end,
        found matches Some(record) ==> (room_key(r.plaintext@, "/content"@) matches Ok(key)
            && stores_key(calls, replies, r.end, key, record@)),
{
    let rule = OlmToDevice::rule();
    let last: OlmToDeviceStep = Step::Done(Ok(found));
    if !(first is Ask) {
        host::run_is_over(rule, first, calls, replies, last);
    }
    let sender = match first {
        Step::Ask(_, OlmToDevice::Addressing(sender, _)) => sender,
        _ => arbitrary(),
    };
    let s1 = host::run_goes_on(rule, first, calls, replies, last);
    let (c1, r1) = (calls.skip(1), replies.skip(1));
    if !(s1 is Ask) {
        host::run_is_over(rule, s1, c1, r1, last);
    }
    let (call, decrypt) = match s1 {
        Step::Ask(call, OlmToDevice::Decrypting(decrypt)) => (call, decrypt),
        _ => arbitrary(),
    };
    assert(s1 == Step::<OlmToDevice, Result<Option<StoredInboundMegolmSession>, String>>::Ask(
        call,
        OlmToDevice::Decrypting(decrypt),
    ));
    let account = replies[0]->Account_0->0;
    let (prekey, body) = message_for(content.ciphertext@, account.curve25519_key@)->Ok_0;
    let message = choose|message: OlmText|
        #![trigger decrypt.begins(call, sender@, message)]
        (message is PreKey) == prekey && message.text() == body && decrypt.begins(
            call,
            sender@,
            message,
        );
    let inner_rule = DecryptOlm::rule();
    let whole = |d: DecryptOlm| OlmToDevice::Decrypting(d);
    let after = |result: Result<Vec<u8>, String>, step: OlmToDeviceStep|
        match result {
            Ok(plaintext) => OlmToDevice::reads(plaintext@, step),
            Err(e) => step.gives(Err(e)),
        };
    assert forall|flow: DecryptOlm, reply: HostReply, step: OlmToDeviceStep| #[trigger]
        host::goes(rule, whole(flow), reply, step) implies host::passes_on(
        inner_rule,
        whole,
        after,
        flow,
        reply,
        step,
    ) by {
        let inner = choose|inner: OlmStep|
            #![trigger flow.moves(reply, inner)]
            flow.moves(reply, inner) && inner.passes_to(
                step,
                |d: DecryptOlm| OlmToDevice::Decrypting(d),
            ) && match inner {
                Step::Done(Ok(plaintext)) => OlmToDevice::reads(plaintext@, step),
                Step::Done(Err(e)) => step.gives(Err(e)),
                _ => true,
            };
        assert(host::goes(inner_rule, flow, reply, inner));
        assert(inner matches Step::Done(result) ==> after(result, step));
    }
    let (k, result, step) = host::inner_run_ends(
        inner_rule,
        rule,
        whole,
        after,
        call,
        decrypt,
        c1,
        r1,
        last,
    );
    let end = k + 1;
    let (ce, re) = (calls.skip(end), replies.skip(end));
    assert(c1.take(k) =~= calls.subrange(1, end) && r1.take(k) =~= replies.subrange(1, end));
    assert(c1.skip(k) =~= ce && r1.skip(k) =~= re);
    if result is Err {
        host::run_is_over(rule, step, ce, re, last);
    }
    let plaintext = result->Ok_0;
    read_key_is_stored(plaintext@, step, ce, re, found);
    if found is Some {
        assert(ce[0] == calls[end] && ce[1] == calls[end + 1]);
        assert(re[0] == replies[end] && re[1] == replies[end + 1]);
    }
    OlmEventRun { end, call, flow: decrypt, message, plaintext }
}

proof fn read_key_is_stored(
    plaintext: Seq<u8>,
    first: OlmToDeviceStep,
    calls: Seq<CallView>,
    replies: Seq<HostReply>,
    found: Option<StoredInboundMegolmSession>,
)
    requires
        OlmToDevice::reads(plaintext, first),
        host::runs(OlmToDevice::rule(), first, calls, replies, Step::Done(Ok(found))),
    ensures
        found is Some <==> json::string_at(plaintext, "/type"@) == Some("m.room_key"@),
        found is None ==> calls.len() == 0,
        found matches Some(record) ==> (room_key(plaintext, "/content"@) matches Ok(key)
            && stores_key(calls, replies, 0, key, record@)),
{
    let rule = OlmToDevice::rule();
    let last: OlmToDeviceStep = Step::Done(Ok(found));
    if !(first is Ask) {
        host::run_is_over(rule, first, calls, replies, last);
    } else {
        let inner = choose|inner: Step<RoomKey, Result<StoredInboundMegolmSession, String>>|
            #![trigger RoomKey::begins(plaintext, "/content"@, inner)]
            RoomKey::begins(plaintext, "/content"@, inner) && OlmToDevice::stores(inner, first);
        assert(inner is Ask);
        let s1 = host::run_goes_on(rule, first, calls, replies, last);
        let (c1, r1) = (calls.skip(1), replies.skip(1));
        let sealing = inner->Ask_1;
        let i1 = choose|i1: Step<RoomKey, Result<StoredInboundMegolmSession, String>>|
            #![trigger sealing.moves(replies[0], i1)]
            sealing.moves(replies[0], i1) && OlmToDevice::stores(i1, s1);
        if !(s1 is Ask) {
            host::run_is_over(rule, s1, c1, r1, last);
        }
        let s2 = host::run_goes_on(rule, s1, c1, r1, last);
        let writing = i1->Ask_1;
        let i2 = choose|i2: Step<RoomKey, Result<StoredInboundMegolmSession, String>>|
            #![trigger writing.moves(r1[0], i2)]
            writing.moves(r1[0], i2) && OlmToDevice::stores(i2, s2);
        host::run_is_over(rule, s2, c1.skip(1), r1.skip(1), last);
        assert(c1[0] == calls[1] && r1[0] == replies[1]);
    }
}

/// How an event was decrypted: the record of its session, what the host made of the pickle that the record
/// holds, the session, the plaintext and its index, and the record afterwards.
pub struct DecryptedEvent {
    pub stored: InboundView,
    pub bytes: Seq<u8>,
    pub session: Seq<u8>,
    pub plaintext: Seq<u8>,
    pub index: u32,
    pub record: InboundView,
}

/// Whether the last three questions of a decryption open the session, and keep it with the index of the
/// message added to those seen.
pub open spec fn is_opened_and_kept(
    run: DecryptedEvent,
    ciphertext: Seq<char>,
    calls: Seq<CallView>,
    replies: Seq<HostReply>,
    at: int,
) -> bool {
    &&& 0 <= at
    &&& calls.len() == replies.len() == at + 3
    &&& calls[at] matches CallView::Decrypt(sealed)
    &&& crypto_store::unsealed_bytes(run.stored.pickled_session) == Ok::<Seq<u8>, Seq<char>>(sealed)
    &&& replies[at] matches HostReply::Bytes(Ok(bytes))
    &&& bytes@ == run.bytes
    &&& megolm::inbound_pickle(run.bytes) == Ok::<Seq<u8>, Seq<char>>(run.session)
    &&& megolm::inbound_decryption(run.session, ciphertext) == Ok::<(Seq<u8>, u32), Seq<char>>(
        (run.plaintext, run.index),
    )
    &&& !run.stored.seen_indices.contains(run.index)
    &&& calls[at + 1] == CallView::Encrypt(run.session)
    &&& replies[at + 1] matches HostReply::Bytes(Ok(resealed))
    &&& crypto_store::unsealed_bytes(run.record.pickled_session) == Ok::<Seq<u8>, Seq<char>>(
        resealed@,
    )
    &&& run.record.seen_indices == run.stored.seen_indices.push(run.index)
    &&& run.record.room_id == run.stored.room_id
    &&& run.record.session_id == run.stored.session_id
    &&& run.record.sender_key == run.stored.sender_key
    &&& run.record.forwarded == run.stored.forwarded
    &&& calls[at + 2] == CallView::Write(
        crypto_store::inbound_path(run.stored.room_id, run.stored.session_id),
        run.record.json(),
    )
    &&& replies[at + 2] matches HostReply::Written(Ok(_))
}

/// A decryption that gives a text has opened the session of the event, the one of the cache or else the one that
/// is stored. The text is that of the plaintext, whose index was not seen before; and the session is kept with
/// the index, in the store and in the cache, which keeps all else.
pub proof fn decrypted_message_is_recorded(
    room_id: Seq<char>,
    event: RoomEvent,
    sessions: Sessions,
    first: TryDecryptStep,
    calls: Seq<CallView>,
    replies: Seq<HostReply>,
    text: String,
    cache: MegolmSessionCache,
) -> (run: DecryptedEvent)
    requires
        TryDecrypt::begins(room_id, event, sessions, first),
        host::runs(TryDecrypt::rule(), first, calls, replies, Step::Done((Ok(text), cache))),
    ensures
        event.content.encrypted is Ok,
        event.content.encrypted->Ok_0.algorithm@ == "m.megolm.v1.aes-sha2"@,
        event.content.encrypted->Ok_0.session_id is Some,
        event.content.encrypted->Ok_0.ciphertext is Some,
        ({
            let key = (room_id, event.content.encrypted->Ok_0.session_id->0@);
            let ciphertext = event.content.encrypted->Ok_0.ciphertext->0@;
            &&& if sessions.dom().contains(key) {
                run.stored == sessions[key]@ && is_opened_and_kept(run, ciphertext, calls, replies, 0)
            } else {
                &&& is_opened_and_kept(run, ciphertext, calls, replies, 1)
                &&& calls[0] == CallView::ReadInbound(crypto_store::inbound_path(key.0, key.1))
                &&& replies[0] matches HostReply::Inbound(Some(stored))
                &&& stored@ == run.stored
            }
            &&& cache@.dom() == sessions.dom().insert(key)
            &&& cache@[key]@ == run.record
            &&& forall|other: (Seq<char>, Seq<char>)|
                other != key && #[trigger] sessions.dom().contains(other) ==> cache@[other]
                    == sessions[other]
        }),
        json::string_at(run.plaintext, "/content/body"@) == Some(text@) || (json::string_at(
            run.plaintext,
            "/content/body"@,
        ) is None && json::string_at(run.plaintext, "/body"@) == Some(text@)),
{
    let rule = TryDecrypt::rule();
    let last: TryDecryptStep = Step::Done((Ok(text), cache));
    if !(first is Ask) {
        host::run_is_over(rule, first, calls, replies, last);
    }
    let sealed = choose|sealed: Sealed|
        #![trigger TryDecrypt::holds(sealed, room_id, event)]
        TryDecrypt::holds(sealed, room_id, event) && {
            let key = (room_id, sealed.session_id@);
            if sessions.dom().contains(key) {
                TryDecrypt::opens(sealed, sessions[key]@, sessions, first)
            } else {
                first matches Step::Ask(call, TryDecrypt::Reading(e, cache)) && call@
                    == CallView::ReadInbound(
                    crypto_store::inbound_path(room_id, sealed.session_id@),
                ) && e == sealed && cache@ == sessions
            }
        };
    let key = (room_id, sealed.session_id@);
    if sessions.dom().contains(key) {
        let stored = sessions[key]@;
        opened_session_is_kept(sealed, stored, sessions, first, calls, replies, text, cache)
    } else {
        let s1 = host::run_goes_on(rule, first, calls, replies, last);
        let (c1, r1) = (calls.skip(1), replies.skip(1));
        if !(s1 is Ask) {
            host::run_is_over(rule, s1, c1, r1, last);
        }
        let stored = match replies[0] {
            HostReply::Inbound(Some(stored)) => stored@,
            _ => arbitrary(),
        };
        let run = opened_session_is_kept(sealed, stored, sessions, s1, c1, r1, text, cache);
        assert(c1[0] == calls[1] && c1[1] == calls[2] && c1[2] == calls[3]);
        assert(r1[0] == replies[1] && r1[1] == replies[2] && r1[2] == replies[3]);
        run
    }
}

proof fn opened_session_is_kept(
    sealed: Sealed,
    stored: InboundView,
    sessions: Sessions,
    first: TryDecryptStep,
    calls: Seq<CallView>,
    replies: Seq<HostReply>,
    text: String,
    cache: MegolmSessionCache,
) -> (run: DecryptedEvent)
    requires
        TryDecrypt::opens(sealed, stored, sessions, first),
        host::runs(TryDecrypt::rule(), first, calls, replies, Step::Done((Ok(text), cache))),
    ensures
        run.stored == stored,
        is_opened_and_kept(run, sealed.ciphertext@, calls, replies, 0),
        cache@.dom() == sessions.dom().insert((sealed.room_id@, sealed.session_id@)),
        cache@[(sealed.room_id@, sealed.session_id@)]@ == run.record,
        forall|other: (Seq<char>, Seq<char>)|
            other != (sealed.room_id@, sealed.session_id@) && #[trigger] sessions.dom().contains(
                other,
            ) ==> cache@[other] == sessions[other],
        json::string_at(run.plaintext, "/content/body"@) == Some(text@) || (json::string_at(
            run.plaintext,
            "/content/body"@,
        ) is None && json::string_at(run.plaintext, "/body"@) == Some(text@)),
{
    let rule = TryDecrypt::rule();
    let last: TryDecryptStep = Step::Done((Ok(text), cache));
    if !(first is Ask) {
        host::run_is_over(rule, first, calls, replies, last);
    }
    let s1 = host::run_goes_on(rule, first, calls, replies, last);
    let (c1, r1) = (calls.skip(1), replies.skip(1));
    if !(s1 is Ask) {
        host::run_is_over(rule, s1, c1, r1, last);
    }
    let s2 = host::run_goes_on(rule, s1, c1, r1, last);
    let (c2, r2) = (c1.skip(1), r1.skip(1));
    if !(s2 is Ask) {
        host::run_is_over(rule, s2, c2, r2, last);
    }
    let s3 = host::run_goes_on(rule, s2, c2, r2, last);
    host::run_is_over(rule, s3, c2.skip(1), r2.skip(1), last);
    assert(c1[0] == calls[1] && r1[0] == replies[1]);
    assert(c2[0] == calls[2] && r2[0] == replies[2]);
    let bytes = replies[0]->Bytes_0->Ok_0@;
    let session = megolm::inbound_pickle(bytes)->Ok_0;
    let found = megolm::inbound_decryption(session, sealed.ciphertext@)->Ok_0;
    let record = match s2 {
        Step::Ask(_, TryDecrypt::Writing(_, s, _, _)) => s@,
        _ => arbitrary(),
    };
    DecryptedEvent {
        stored,
        bytes,
        session,
        plaintext: found.0,
        index: found.1,
        record,
    }
}

/// The message for our device is found: the body of the entry for our key, as a message that starts a session
/// where its type is 0, and as another where it is 1.
pub proof fn our_ciphertext_is_found(
    ciphertext: Seq<(String, Vec<u8>)>,
    i: int,
    kind: u64,
    body: Seq<char>,
)
    requires
        0 <= i < ciphertext.len(),
        forall|k: int|
            0 <= k < ciphertext.len() && k != i ==> (#[trigger] ciphertext[k]).0@
                != ciphertext[i].0@,
        json::number_at(ciphertext[i].1@, "/type"@) == Some(kind),
        json::string_at(ciphertext[i].1@, "/body"@) == Some(body),
    ensures
        kind == 0 && olm::prekey_error(body) is None ==> message_for(ciphertext, ciphertext[i].0@)
            == Ok::<(bool, Seq<char>), Seq<char>>((true, body)),
        kind == 1 && olm::normal_error(body) is None ==> message_for(ciphertext, ciphertext[i].0@)
            == Ok::<(bool, Seq<char>), Seq<char>>((false, body)),
        kind > 1 ==> message_for(ciphertext, ciphertext[i].0@) is Err,
{
    types::lookup_finds_every_entry(ciphertext, ciphertext[i].0@);
}

/// A message that is for other devices alone is not for us.
pub proof fn other_ciphertext_is_not_ours(ciphertext: Seq<(String, Vec<u8>)>, our_key: Seq<char>)
    requires
        forall|k: int|
            0 <= k < ciphertext.len() ==> (#[trigger] ciphertext[k]).0@ != our_key,
    ensures
        message_for(ciphertext, our_key) is Err,
{
    types::lookup_finds_every_entry(ciphertext, our_key);
}

/// A room key is read as it stands: a Megolm key with a room, a session and a key that is one of that session is
/// read, and anything that lacks one of these is not.
pub proof fn room_key_is_read(json: Seq<u8>, at: Seq<char>)
    ensures
        room_key(json, at) is Ok <==> {
            &&& json::string_at(json, at + "/algorithm"@) == Some("m.megolm.v1.aes-sha2"@)
            &&& json::string_at(json, at + "/room_id"@) is Some
            &&& json::string_at(json, at + "/session_key"@) matches Some(key)
            &&& megolm::inbound_of_key(key) matches Ok(pickle)
            &&& json::string_at(json, at + "/session_id"@) == Some(megolm::inbound_id(pickle))
        },
        room_key(json, at) matches Ok(key) ==> {
            &&& json::string_at(json, at + "/room_id"@) == Some(key.room_id)
            &&& json::string_at(json, at + "/session_id"@) == Some(key.session_id)
            &&& Ok::<Seq<u8>, Seq<char>>(key.pickle) == megolm::inbound_of_key(
                json::string_at(json, at + "/session_key"@)->0,
            )
            &&& json::string_at(json, at + "/sender_key"@) matches Some(sender)
                ==> key.sender_key == sender
        },
{
}

/// A decryption that is under way fails only where the session is not stored or cannot be opened, where it does
/// not decrypt the message or has done so before, where the host does not save it, or where the plaintext holds
/// no text.
pub proof fn decryption_fails_with_cause(
    flow: TryDecrypt,
    reply: HostReply,
    e: String,
    cache: MegolmSessionCache,
)
    requires
        flow.moves(reply, Step::Done((Err(e), cache))),
    ensures
        host::is_setback(reply) || match flow {
            TryDecrypt::Reading(_, _) => reply matches HostReply::Inbound(stored) && (stored is None
                || crypto_store::unsealed_bytes(stored->0.pickled_session@) is Err),
            TryDecrypt::Opening(sealed, stored, _) => reply matches HostReply::Bytes(Ok(bytes)) && (
            megolm::inbound_pickle(bytes@) matches Ok(session) ==> (megolm::ciphertext_error(
                sealed.ciphertext@,
            ) is Some || (megolm::inbound_decryption(session, sealed.ciphertext@) matches Ok(found)
                ==> stored.seen_indices@.contains(found.1)))),
            TryDecrypt::Writing(_, _, plaintext, _) => codec::utf8_text(plaintext@) is Err
                || json::json_error(plaintext@) is Some || (json::string_at(
                plaintext@,
                "/content/body"@,
            ) is None && json::string_at(plaintext@, "/body"@) is None),
            _ => false,
        },
{
}

/// The storing of a room key fails only where the host does not encrypt or write it.
pub proof fn storing_fails_with_the_host(flow: RoomKey, reply: HostReply, e: String)
    requires
        flow.moves(reply, Step::Done(Err(e))),
    ensures
        host::is_setback(reply),
{
}

/// Whether what an Olm message was decrypted to cannot be processed: it is no JSON, or a room key that cannot be
/// read.
pub open spec fn is_unusable(plaintext: Seq<u8>) -> bool {
    ||| codec::utf8_text(plaintext) is Err
    ||| json::json_error(plaintext) is Some
    ||| json::string_at(plaintext, "/type"@) == Some("m.room_key"@) && (!json::stands_in_json(
        plaintext,
        "/content"@,
    ) || room_key(plaintext, "/content"@) is Err)
}

/// The processing of an Olm-encrypted event that is under way fails only where there is no account or no message
/// for our device, where the message is not decrypted or what it was decrypted to is unusable, or where the host
/// does not store the room key.
pub proof fn olm_event_fails_with_cause(flow: OlmToDevice, reply: HostReply, e: String)
    requires
        flow.moves(reply, Step::Done(Err(e))),
    ensures
        match flow {
            OlmToDevice::Addressing(_, content) => reply matches HostReply::Account(Some(account))
                ==> message_for(content.ciphertext@, account.curve25519_key@) is Err,
            OlmToDevice::Decrypting(decrypt) => decrypt.moves(reply, Step::Done(Err(e))) || exists|
                plaintext: Vec<u8>,
            | #[trigger]
                decrypt.moves(reply, Step::Done(Ok(plaintext))) && is_unusable(plaintext@),
            OlmToDevice::Storing(_) => host::is_setback(reply),
        },
{
    let step: OlmToDeviceStep = Step::Done(Err(e));
    match flow {
        OlmToDevice::Decrypting(decrypt) => {
            let inner = choose|inner: OlmStep|
                #![trigger decrypt.moves(reply, inner)]
                decrypt.moves(reply, inner) && inner.passes_to(
                    step,
                    |d: DecryptOlm| OlmToDevice::Decrypting(d),
                ) && match inner {
                    Step::Done(Ok(plaintext)) => OlmToDevice::reads(plaintext@, step),
                    Step::Done(Err(e)) => step.gives(Err(e)),
                    _ => true,
                };
            if let Step::Done(Ok(plaintext)) = inner {
                assert(decrypt.moves(reply, Step::Done(Ok(plaintext))));
                assert(is_unusable(plaintext@));
            }
        },
        OlmToDevice::Storing(key) => {
            let inner = choose|inner: Step<RoomKey, Result<StoredInboundMegolmSession, String>>|
                #![trigger key.moves(reply, inner)]
                key.moves(reply, inner) && OlmToDevice::stores(inner, step);
            storing_fails_with_the_host(key, reply, e);
        },
        _ => {},
    }
}

/// Whether there is no way on with these sessions left to try: the first cannot be opened, or there is none, and
/// the message starts no session.
pub open spec fn is_stuck(left: Seq<StoredOlmSession>, message: OlmText) -> bool {
    if left.len() > 0 {
        crypto_store::unsealed_bytes(left[0].pickled_session@) is Err
    } else {
        message is Normal
    }
}

/// The decryption of an Olm message fails only where a stored session or the account cannot be opened, where no
/// session is left for a message that starts none, where the account makes no session of it, or where the host
/// does not save the session or the account. A session that does not decrypt the message is no failure while
/// others are left.
pub proof fn olm_decryption_fails_with_cause(flow: DecryptOlm, reply: HostReply, e: String)
    requires
        flow.moves(reply, Step::Done(Err(e))),
    ensures
        host::is_setback(reply) || match flow {
            DecryptOlm::Reading(_, message) => reply matches HostReply::OlmSessions(sessions)
                && is_stuck(sessions@, message),
            DecryptOlm::Trying(_, message, _, _, rest) => reply matches HostReply::Bytes(Ok(bytes)) && (
            olm::olm_pickle(bytes@) is Err || is_stuck(rest@, message)),
            DecryptOlm::Starting(_, _) => reply matches HostReply::Account(Some(account))
                && crypto_store::unsealed_bytes(account.pickled_account@) is Err,
            DecryptOlm::Unsealing(key, message, _) => reply matches HostReply::Bytes(Ok(bytes)) && (
            olm::account_pickle(bytes@) matches Ok(account) ==> olm::inbound_creation(
                account,
                key@,
                message@,
            ) is Err),
            _ => false,
        },
{
    let step: OlmStep = Step::Done(Err(e));
    match flow {
        DecryptOlm::Saving(plaintext, save) => {
            let inner = choose|inner: crypto_store::SaveOlmStep|
                #![trigger save.moves(reply, inner)]
                save.moves(reply, inner) && inner.passes_to(
                    step,
                    |s: SaveOlm| DecryptOlm::Saving(plaintext, s),
                ) && match inner {
                    Step::Done(Ok(_)) => step.gives(Ok(plaintext)),
                    Step::Done(Err(e)) => step.gives(Err(e)),
                    _ => true,
                };
            crypto_store::saving_fails_with_the_host(save, reply, e);
        },
        DecryptOlm::SavingAccount(key, session, plaintext, save) => {
            let inner = choose|inner: Step<SaveAccount, Result<(), String>>|
                #![trigger save.moves(reply, inner)]
                save.moves(reply, inner) && inner.passes_to(
                    step,
                    |s: SaveAccount| DecryptOlm::SavingAccount(key, session, plaintext, s),
                ) && match inner {
                    Step::Done(Ok(_)) => step matches Step::Ask(
                        call,
                        DecryptOlm::Updating(k, record, replaced, p),
                    ) && call@ == CallView::Encrypt(session@) && k == key && record.sender_key@
                        == key@ && replaced is None && p == plaintext,
                    Step::Done(Err(e)) => step.gives(Err(e)),
                    _ => true,
                };
            crate::device::saving_fails_with_the_host(save, reply, e);
        },
        _ => {},
    }
}

} // verus!
