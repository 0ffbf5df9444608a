//! The device: its account, the upload of its keys, and the start of E2EE.

use vstd::prelude::*;
use vstd::string::*;
use vstd::utf8::*;

use crate::client::{self, bytes_of, keys_upload, keys_upload_response, whoami, whoami_response};
use crate::codec;
use crate::crypto_store::{
    self, host_decrypt_pickle, host_encrypt_pickle, open_account, read_account, write_account,
    AccountView, StoredAccount, OTK_MIN_COUNT, OTK_UPLOAD_BATCH,
};
use crate::host::{self, log_warning, CallView, HostCall, HostReply, Step};
use crate::json::{self, signable_json, Json};
use crate::json_tree::{self, JsonTree};
use crate::olm::{self, OlmAccount};
use crate::text::{self, concat2, concat3, concat4, concat5, contains_text, same_text};
use crate::types::{
    self, find_entry, DeviceKeys, KeysUploadRequest, KeysUploadResponse, WhoamiResponse,
};

verus! {

// ---------------------------------------------------------------------------
// Signing
// ---------------------------------------------------------------------------

/// Sign a JSON object with the device's Ed25519 key.
///
/// The `signatures` and `unsigned` keys are left out, and the canonical JSON of the rest is signed.
pub fn sign_json(account: &OlmAccount, value: &Json) -> (signature: String)
    ensures
        signature@ == olm::signature_of(account@, encode_utf8(json::signable_text(*value))),
{
    let canonical = signable_json(value);
    account.sign(canonical.as_str().as_bytes())
}

// ---------------------------------------------------------------------------
// Saving the account
// ---------------------------------------------------------------------------

/// Pickles and persists an account.
pub enum SaveAccount {
    /// The host is to encrypt the pickle, which then goes into the record.
    Sealing(StoredAccount),
    /// The host is to write the record.
    Writing,
}

impl SaveAccount {
    /// The flow starts: the host is asked to encrypt the pickle of the account.
    pub open spec fn begins(
        self,
        call: HostCall,
        account: Seq<u8>,
        user_id: Seq<char>,
        device_id: Seq<char>,
        keys_uploaded: bool,
        uploaded_key_count: u32,
    ) -> bool {
        &&& call@ == CallView::Encrypt(account)
        &&& self matches SaveAccount::Sealing(record)
        &&& record@ == AccountView {
            user_id,
            device_id,
            pickled_account: Seq::empty(),
            ed25519_key: olm::ed25519_of(account),
            curve25519_key: olm::curve25519_of(account),
            keys_uploaded,
            uploaded_key_count,
        }
    }

    /// The flow goes on from an answer: what the host encrypted is written into the account's
    /// record.
    pub open spec fn moves(self, reply: HostReply, step: Step<SaveAccount, Result<(), String>>) -> bool {
        match (self, reply) {
            (SaveAccount::Sealing(record), HostReply::Bytes(encrypted)) => {
                match crypto_store::sealed_pickle(encrypted) {
                    Ok(pickled_account) => step.asks(
                        CallView::Write(
                            "crypto/account.json"@,
                            AccountView { pickled_account, ..record@ }.json(),
                        ),
                        SaveAccount::Writing,
                    ) && crypto_store::unsealed_bytes(pickled_account) == Ok::<Seq<u8>, Seq<char>>(
                        encrypted->Ok_0@,
                    ),
                    Err(e) => step.fails(e),
                }
            },
            (SaveAccount::Writing, HostReply::Written(result)) => step.gives(result),
            _ => step.strays(self),
        }
    }

    /// Goes on from an answer of the host.
    pub fn resume(self, reply: HostReply) -> (step: Step<SaveAccount, Result<(), String>>)
        ensures
            self.moves(reply, step),
    {
        match (self, reply) {
            (SaveAccount::Sealing(mut record), HostReply::Bytes(encrypted)) => {
                match host_encrypt_pickle(encrypted) {
                    Ok(pickled) => {
                        record.pickled_account = pickled;
                        Step::Ask(write_account(&record), SaveAccount::Writing)
                    },
                    Err(e) => Step::Done(Err(e)),
                }
            },
            (SaveAccount::Writing, HostReply::Written(result)) => Step::Done(result),
            (flow, _) => Step::Stray(flow),
        }
    }
}

/// Pickle and persist an account.
pub fn save_account(
    account: &OlmAccount,
    user_id: &str,
    device_id: &str,
    keys_uploaded: bool,
    uploaded_key_count: u32,
) -> (start: (HostCall, SaveAccount))
    ensures
        start.1.begins(
            start.0,
            account@,
            user_id@,
            device_id@,
            keys_uploaded,
            uploaded_key_count,
        ),
{
    let record = StoredAccount {
        user_id: user_id.to_owned(),
        device_id: device_id.to_owned(),
        pickled_account: String::new(),
        ed25519_key: account.ed25519_key(),
        curve25519_key: account.curve25519_key(),
        keys_uploaded,
        uploaded_key_count,
    };
    assert(record.pickled_account@ =~= Seq::empty());
    (HostCall::Encrypt(account.pickle()), SaveAccount::Sealing(record))
}

// ---------------------------------------------------------------------------
// Uploading device keys
// ---------------------------------------------------------------------------

/// A device of a user at a homeserver.
#[derive(Debug)]
pub struct Device {
    pub homeserver_url: String,
    pub user_id: String,
    pub device_id: String,
}

/// A device, with texts as sequences.
pub struct DeviceView {
    pub homeserver_url: Seq<char>,
    pub user_id: Seq<char>,
    pub device_id: Seq<char>,
}

impl View for Device {
    type V = DeviceView;

    open spec fn view(&self) -> DeviceView {
        DeviceView {
            homeserver_url: self.homeserver_url@,
            user_id: self.user_id@,
            device_id: self.device_id@,
        }
    }
}

impl Device {
    /// A device with the same texts.
    pub fn copied(&self) -> (device: Device)
        ensures
            device@ == self@,
    {
        Device {
            homeserver_url: self.homeserver_url.clone(),
            user_id: self.user_id.clone(),
            device_id: self.device_id.clone(),
        }
    }
}

/// The algorithms that the device supports.
pub open spec fn algorithms() -> Seq<Seq<char>> {
    seq!["m.olm.v1.curve25519-aes-sha2"@, "m.megolm.v1.aes-sha2"@]
}

/// The identity keys of a device: names and keys.
pub open spec fn identity_keys(account: Seq<u8>, device_id: Seq<char>) -> Seq<
    (Seq<char>, Seq<char>),
> {
    seq![
        ("curve25519:"@ + device_id, json::string_text(olm::curve25519_of(account))),
        ("ed25519:"@ + device_id, json::string_text(olm::ed25519_of(account))),
    ]
}

/// What the device signs of its keys: owner, device, algorithms and identity keys.
pub open spec fn signed_device_text(account: Seq<u8>, device: DeviceView) -> Seq<char> {
    json::sorted_object_text(
        seq![
            ("user_id"@, json::string_text(device.user_id)),
            ("device_id"@, json::string_text(device.device_id)),
            ("algorithms"@, json::string_array_text(algorithms())),
            ("keys"@, json::sorted_object_text(identity_keys(account, device.device_id))),
        ],
    )
}

/// A signature by the device, as the object that a signed value holds: by user and key.
pub open spec fn signatures_text(device: DeviceView, signature: Seq<char>) -> Seq<char> {
    json::object_text(
        seq![
            (
                device.user_id,
                json::object_text(
                    seq![("ed25519:"@ + device.device_id, json::string_text(signature))],
                ),
            ),
        ],
    )
}

/// The body of the upload of device keys, signed by the device.
pub open spec fn device_keys_upload(account: Seq<u8>, device: DeviceView) -> Seq<char> {
    let signature = olm::signature_of(account, encode_utf8(signed_device_text(account, device)));
    let keys = json::object_text(
        seq![
            ("user_id"@, json::string_text(device.user_id)),
            ("device_id"@, json::string_text(device.device_id)),
            ("algorithms"@, json::string_array_text(algorithms())),
            ("keys"@, json::object_text(identity_keys(account, device.device_id))),
            ("signatures"@, signatures_text(device, signature)),
        ],
    );
    json::object_text(seq![("device_keys"@, keys)])
}

/// The device keys as a value to sign.
fn device_value(account: &OlmAccount, device: &Device) -> (value: Json)
    ensures
        json::signable_text(value) == signed_device_text(account@, device@),
{
    let curve_name = concat2("curve25519:", device.device_id.as_str());
    let ed_name = concat2("ed25519:", device.device_id.as_str());
    let keys = vec![
        (curve_name, Json::Str(account.curve25519_key())),
        (ed_name, Json::Str(account.ed25519_key())),
    ];
    let algorithms = vec![
        Json::Str("m.olm.v1.curve25519-aes-sha2".to_owned()),
        Json::Str("m.megolm.v1.aes-sha2".to_owned()),
    ];
    proof {
        reveal_with_fuel(json::canonical_members, 3);
        reveal_with_fuel(json::canonical_items, 3);
        assert(json::canonical_members(keys@) =~= identity_keys(account@, device@.device_id));
        assert(json::canonical_items(algorithms@) =~= self::algorithms().map_values(
            |s: Seq<char>| json::string_text(s),
        ));
    }
    let members = vec![
        ("user_id".to_owned(), Json::Str(device.user_id.clone())),
        ("device_id".to_owned(), Json::Str(device.device_id.clone())),
        ("algorithms".to_owned(), Json::Array(algorithms)),
        ("keys".to_owned(), Json::Object(keys)),
    ];
    proof {
        let signed = |m: (Seq<char>, Seq<char>)| json::is_signed(m);
        let all = seq![
            ("user_id"@, json::string_text(device@.user_id)),
            ("device_id"@, json::string_text(device@.device_id)),
            ("algorithms"@, json::string_array_text(self::algorithms())),
            ("keys"@, json::sorted_object_text(identity_keys(account@, device@.device_id))),
        ];
        reveal_with_fuel(json::canonical_members, 5);
        assert(json::canonical_members(members@) =~= all);
        reveal_strlit("signatures");
        reveal_strlit("unsigned");
        reveal_strlit("user_id");
        reveal_strlit("device_id");
        reveal_strlit("algorithms");
        reveal_strlit("keys");
        assert("algorithms"@[0] != "signatures"@[0]);
        assert forall|i: int| 0 <= i < all.len() implies json::is_signed(#[trigger] all[i]) by {
            assert(all[0].0.len() == 7 && all[1].0.len() == 9 && all[2].0 == "algorithms"@);
            assert(all[3].0.len() == 4 && "signatures"@.len() == 10 && "unsigned"@.len() == 8);
            assert(i == 0 || i == 1 || i == 2 || i == 3);
        }
        json::all_signed_is_unfiltered(all);
        assert(all.filter(signed) == all);
    }
    Json::Object(members)
}

/// Uploads device identity keys to the homeserver with Ed25519 signatures.
pub enum UploadDeviceKeys {
    /// The host is to upload the keys.
    Uploading(Device, OlmAccount),
    /// The account is to be saved.
    Saving(OlmAccount, SaveAccount),
}

impl UploadDeviceKeys {
    /// The flow starts: the host is asked to upload the signed identity keys of the account.
    pub open spec fn begins(self, call: HostCall, device: DeviceView, account: OlmAccount) -> bool {
        &&& call@ == CallView::KeysUpload(
            client::keys_upload_request(
                device.homeserver_url,
                encode_utf8(device_keys_upload(account@, device)),
            ),
        )
        &&& self matches UploadDeviceKeys::Uploading(d, a)
        &&& d@ == device
        &&& a == account
    }

    /// The flow goes on from an answer: once the keys are uploaded, the account is saved as one
    /// with uploaded keys.
    pub open spec fn moves(
        self,
        reply: HostReply,
        step: Step<UploadDeviceKeys, Result<OlmAccount, String>>,
    ) -> bool {
        match (self, reply) {
            (UploadDeviceKeys::Uploading(device, account), HostReply::KeysUpload(response)) => {
                match client::accepted(response, "keys/upload"@, "keys/upload response"@) {
                    Ok(_) => step matches Step::Ask(call, UploadDeviceKeys::Saving(a, save)) && a
                        == account && save.begins(
                        call,
                        account@,
                        device.user_id@,
                        device.device_id@,
                        true,
                        0,
                    ),
                    Err(e) => step.fails(e),
                }
            },
            (UploadDeviceKeys::Saving(account, save), _) => exists|inner|
                #![trigger save.moves(reply, inner)]
                save.moves(reply, inner) && inner.passes_to(
                    step,
                    |s: SaveAccount| UploadDeviceKeys::Saving(account, s),
                ) && match inner {
                    Step::Done(Ok(_)) => step.gives(Ok(account)),
                    Step::Done(Err(e)) => step.gives(Err(e)),
                    _ => true,
                },
            _ => step.strays(self),
        }
    }

    /// Goes on from an answer of the host.
    pub fn resume(self, reply: HostReply) -> (step: Step<
        UploadDeviceKeys,
        Result<OlmAccount, String>,
    >)
        ensures
            self.moves(reply, step),
    {
        match (self, reply) {
            (UploadDeviceKeys::Uploading(device, account), HostReply::KeysUpload(response)) => {
                match keys_upload_response(response) {
                    Ok(_) => {
                        let (call, save) = save_account(
                            &account,
                            device.user_id.as_str(),
                            device.device_id.as_str(),
                            true,
                            0,
                        );
                        Step::Ask(call, UploadDeviceKeys::Saving(account, save))
                    },
                    Err(e) => Step::Done(Err(e)),
                }
            },
            (UploadDeviceKeys::Saving(account, save), reply) => match save.resume(reply) {
                Step::Ask(call, save) => Step::Ask(call, UploadDeviceKeys::Saving(account, save)),
                Step::Stray(save) => Step::Stray(UploadDeviceKeys::Saving(account, save)),
                Step::Done(Ok(_)) => Step::Done(Ok(account)),
                Step::Done(Err(e)) => Step::Done(Err(e)),
            },
            (flow, _) => Step::Stray(flow),
        }
    }
}

/// Upload device identity keys to the homeserver with Ed25519 signatures.
pub fn upload_device_keys(device: Device, account: OlmAccount) -> (start: (
    HostCall,
    UploadDeviceKeys,
))
    ensures
        start.1.begins(start.0, device@, account),
{
    let signature = sign_json(&account, &device_value(&account, &device));
    let key_name = concat2("ed25519:", device.device_id.as_str());
    let user_signatures = vec![(key_name.clone(), signature)];
    let signatures = vec![(device.user_id.clone(), user_signatures)];
    let keys = vec![
        (concat2("curve25519:", device.device_id.as_str()), account.curve25519_key()),
        (key_name, account.ed25519_key()),
    ];
    let algorithms = vec![
        "m.olm.v1.curve25519-aes-sha2".to_owned(),
        "m.megolm.v1.aes-sha2".to_owned(),
    ];
    proof {
        assert(text::texts(algorithms@) =~= self::algorithms());
        assert(keys@.map_values(|e: (String, String)| (e.0@, json::string_text(e.1@)))
            =~= identity_keys(account@, device@.device_id));
        let user_pairs = user_signatures@.map_values(
            |e: (String, String)| (e.0@, json::string_text(e.1@)),
        );
        assert(user_pairs =~= seq![
            ("ed25519:"@ + device@.device_id, json::string_text(signature@)),
        ]);
        assert(signatures@.map_values(
            |e: (String, Vec<(String, String)>)| (e.0@, types::text_map_json(e.1@)),
        ) =~= seq![(device@.user_id, types::text_map_json(user_signatures@))]);
    }
    let request = KeysUploadRequest {
        device_keys: Some(
            DeviceKeys {
                user_id: device.user_id.clone(),
                device_id: device.device_id.clone(),
                algorithms,
                keys,
                signatures,
            },
        ),
        one_time_keys: None,
    };
    let body = bytes_of(request.to_json().as_str());
    let call = HostCall::KeysUpload(keys_upload(device.homeserver_url.as_str(), body));
    (call, UploadDeviceKeys::Uploading(device, account))
}

// ---------------------------------------------------------------------------
// Uploading one-time keys
// ---------------------------------------------------------------------------

/// A one-time key as it is uploaded: signed by the device.
pub open spec fn signed_key_text(account: Seq<u8>, device: DeviceView, key: Seq<char>) -> Seq<char> {
    let signed = json::sorted_object_text(seq![("key"@, json::string_text(key))]);
    let signature = olm::signature_of(account, encode_utf8(signed));
    let by_key = json::sorted_object_text(
        seq![("ed25519:"@ + device.device_id, json::string_text(signature))],
    );
    let by_user = json::sorted_object_text(seq![(device.user_id, by_key)]);
    json::sorted_object_text(
        seq![("key"@, json::string_text(key)), ("signatures"@, by_user)],
    )
}

/// The body of the upload of one-time keys, given by their ids and keys.
pub open spec fn one_time_keys_upload(
    account: Seq<u8>,
    device: DeviceView,
    keys: Seq<(String, String)>,
) -> Seq<char> {
    let signed = keys.map_values(
        |k: (String, String)|
            ("signed_curve25519:"@ + k.0@, signed_key_text(account, device, k.1@)),
    );
    json::object_text(seq![("one_time_keys"@, json::object_text(signed))])
}

/// The number of one-time keys that the server has.
pub open spec fn server_key_count(response: KeysUploadResponse) -> u32 {
    match types::lookup(response.one_time_key_counts@, "signed_curve25519"@) {
        Some(count) => count,
        None => 0,
    }
}

fn server_count(response: &KeysUploadResponse) -> (count: u32)
    ensures
        count == server_key_count(*response),
{
    match find_entry(&response.one_time_key_counts, "signed_curve25519") {
        Some(i) => response.one_time_key_counts[i].1,
        None => 0,
    }
}

/// A one-time key as a value, signed by the device.
fn signed_key(account: &OlmAccount, device: &Device, key: &str) -> (value: Json)
    ensures
        json::canonical_text(value) == signed_key_text(account@, device@, key@),
{
    let bare_members = vec![("key".to_owned(), Json::Str(key.to_owned()))];
    proof {
        let all = seq![("key"@, json::string_text(key@))];
        reveal_with_fuel(json::canonical_members, 2);
        assert(json::canonical_members(bare_members@) =~= all);
        reveal_strlit("key");
        reveal_strlit("signatures");
        reveal_strlit("unsigned");
        assert("key"@.len() == 3 && "signatures"@.len() == 10 && "unsigned"@.len() == 8);
        assert(json::is_signed(all[0]));
        json::all_signed_is_unfiltered(all);
    }
    let signature = sign_json(account, &Json::Object(bare_members));
    let by_key = vec![(concat2("ed25519:", device.device_id.as_str()), Json::Str(signature))];
    let ghost by_key_text = seq![
        ("ed25519:"@ + device@.device_id, json::string_text(signature@)),
    ];
    proof {
        reveal_with_fuel(json::canonical_members, 2);
        assert(json::canonical_members(by_key@) =~= by_key_text);
    }
    let by_user = vec![(device.user_id.clone(), Json::Object(by_key))];
    let ghost by_user_text = seq![(device@.user_id, json::sorted_object_text(by_key_text))];
    proof {
        reveal_with_fuel(json::canonical_members, 2);
        assert(json::canonical_members(by_user@) =~= by_user_text);
    }
    let members = vec![
        ("key".to_owned(), Json::Str(key.to_owned())),
        ("signatures".to_owned(), Json::Object(by_user)),
    ];
    proof {
        reveal_with_fuel(json::canonical_members, 3);
        assert(json::canonical_members(members@) =~= seq![
            ("key"@, json::string_text(key@)),
            ("signatures"@, json::sorted_object_text(by_user_text)),
        ]);
    }
    Json::Object(members)
}

/// The body of the upload of one-time keys.
fn one_time_keys_body(
    account: &OlmAccount,
    device: &Device,
    keys: &Vec<(String, String)>,
) -> (body: Vec<u8>)
    ensures
        body@ == encode_utf8(one_time_keys_upload(account@, device@, keys@)),
{
    let mut signed: Vec<(String, Json)> = Vec::new();
    let mut i: usize = 0;
    while i < keys.len()
        invariant
            i == signed.len() <= keys.len(),
            forall|k: int|
                #![trigger signed[k]]
                0 <= k < i ==> signed[k].0@ == "signed_curve25519:"@ + keys[k].0@
                    && json::canonical_text(signed[k].1) == signed_key_text(
                    account@,
                    device@,
                    keys[k].1@,
                ),
        decreases keys.len() - i,
    {
        let name = concat2("signed_curve25519:", keys[i].0.as_str());
        signed.push((name, signed_key(account, device, keys[i].1.as_str())));
        i += 1;
    }
    assert(signed@.map_values(|e: (String, Json)| (e.0@, json::canonical_text(e.1)))
        =~= keys@.map_values(
        |k: (String, String)|
            ("signed_curve25519:"@ + k.0@, signed_key_text(account@, device@, k.1@)),
    ));
    let request = KeysUploadRequest { device_keys: None, one_time_keys: Some(signed) };
    assert(Seq::<(Seq<char>, Seq<char>)>::empty().push(
        ("one_time_keys"@, types::one_time_keys_json(signed@)),
    ) =~= seq![("one_time_keys"@, types::one_time_keys_json(signed@))]);
    bytes_of(request.to_json().as_str())
}

/// Generates and uploads one-time keys.
pub enum UploadOneTimeKeys {
    /// The host is to upload the keys.
    Uploading(Device, OlmAccount),
    /// The keys were refused as known: the host is to log it.
    Complaining(Device, OlmAccount),
    /// The account is to be saved.
    Saving(OlmAccount, SaveAccount),
}

impl UploadOneTimeKeys {
    /// The flow starts: the account gets a batch of further one-time keys, and the host is asked to
    /// upload those that were not published, each signed.
    pub open spec fn begins(self, call: HostCall, device: DeviceView, account: Seq<u8>) -> bool {
        &&& self matches UploadOneTimeKeys::Uploading(d, a)
        &&& d@ == device
        &&& olm::keys_generated(account, OTK_UPLOAD_BATCH, a@)
        &&& olm::same_identity(a@, account)
        &&& olm::added_keys(account, a@).finite()
        &&& olm::added_keys(account, a@).len() <= OTK_UPLOAD_BATCH
        &&& !olm::unpublished_keys(a@).dom().is_empty()
        &&& exists|keys: Seq<(String, String)>|
            #![trigger olm::lists_keys(keys, olm::unpublished_keys(a@))]
            olm::lists_keys(keys, olm::unpublished_keys(a@)) && call@ == CallView::KeysUpload(
                client::keys_upload_request(
                    device.homeserver_url,
                    encode_utf8(one_time_keys_upload(a@, device, keys)),
                ),
            )
    }

    /// The flow goes on from an answer: the keys are marked as published where the upload
    /// succeeded, or where it was refused as one of keys that the server has already, and the
    /// account is saved with the server's count of keys.
    pub open spec fn moves(
        self,
        reply: HostReply,
        step: Step<UploadOneTimeKeys, Result<OlmAccount, String>>,
    ) -> bool {
        match (self, reply) {
            (UploadOneTimeKeys::Uploading(device, account), HostReply::KeysUpload(response)) => {
                match client::accepted(response, "keys/upload"@, "keys/upload response"@) {
                    Ok(r) => Self::saves(step, device, account@, server_key_count(r)),
                    Err(e) => if text::has_text(e, "400"@) {
                        step.asks(
                            host::warning_entry(
                                "OTK upload got 400 (likely key collision with existing upload): "@,
                                e + ". Continuing with existing server OTKs."@,
                            ),
                            UploadOneTimeKeys::Complaining(device, account),
                        )
                    } else {
                        step.fails("OTK upload failed: "@ + e)
                    },
                }
            },
            (UploadOneTimeKeys::Complaining(device, account), HostReply::Finished) => Self::saves(
                step,
                device,
                account@,
                0,
            ),
            (UploadOneTimeKeys::Saving(account, save), _) => exists|inner|
                #![trigger save.moves(reply, inner)]
                save.moves(reply, inner) && inner.passes_to(
                    step,
                    |s: SaveAccount| UploadOneTimeKeys::Saving(account, s),
                ) && match inner {
                    Step::Done(Ok(_)) => step.gives(Ok(account)),
                    Step::Done(Err(e)) => step.gives(Err(e)),
                    _ => true,
                },
            _ => step.strays(self),
        }
    }

    /// Whether the step starts to save the account with its keys marked as published.
    pub open spec fn saves(
        step: Step<UploadOneTimeKeys, Result<OlmAccount, String>>,
        device: Device,
        account: Seq<u8>,
        count: u32,
    ) -> bool {
        &&& step matches Step::Ask(call, UploadOneTimeKeys::Saving(a, save))
        &&& a@ == olm::published_account(account)
        &&& olm::same_identity(a@, account)
        &&& olm::unpublished_keys(a@).dom().is_empty()
        &&& save.begins(call, a@, device.user_id@, device.device_id@, true, count)
    }

    /// Saves the account with its keys marked as published.
    fn save(device: Device, account: OlmAccount, count: u32) -> (step: Step<
        UploadOneTimeKeys,
        Result<OlmAccount, String>,
    >)
        ensures
            Self::saves(step, device, account@, count),
    {
        let account = account.with_keys_published();
        let (call, save) = save_account(
            &account,
            device.user_id.as_str(),
            device.device_id.as_str(),
            true,
            count,
        );
        Step::Ask(call, UploadOneTimeKeys::Saving(account, save))
    }

    /// Goes on from an answer of the host.
    pub fn resume(self, reply: HostReply) -> (step: Step<
        UploadOneTimeKeys,
        Result<OlmAccount, String>,
    >)
        ensures
            self.moves(reply, step),
    {
        match (self, reply) {
            (UploadOneTimeKeys::Uploading(device, account), HostReply::KeysUpload(response)) => {
                match keys_upload_response(response) {
                    Ok(r) => {
                        let count: u32 = server_count(&r);
                        Self::save(device, account, count)
                    },
                    Err(e) => {
                        if !contains_text(e.as_str(), "400") {
                            return Step::Done(Err(concat2("OTK upload failed: ", e.as_str())));
                        }
                        let why = concat2(
                            e.as_str(),
                            ". Continuing with existing server OTKs.",
                        );
                        let call = log_warning(
                            "OTK upload got 400 (likely key collision with existing upload): ",
                            why.as_str(),
                        );
                        Step::Ask(call, UploadOneTimeKeys::Complaining(device, account))
                    },
                }
            },
            (UploadOneTimeKeys::Complaining(device, account), HostReply::Finished) => {
                Self::save(device, account, 0)
            },
            (UploadOneTimeKeys::Saving(account, save), reply) => match save.resume(reply) {
                Step::Ask(call, save) => Step::Ask(call, UploadOneTimeKeys::Saving(account, save)),
                Step::Stray(save) => Step::Stray(UploadOneTimeKeys::Saving(account, save)),
                Step::Done(Ok(_)) => Step::Done(Ok(account)),
                Step::Done(Err(e)) => Step::Done(Err(e)),
            },
            (flow, _) => Step::Stray(flow),
        }
    }
}

/// Generate and upload one-time keys.
pub fn upload_one_time_keys(device: Device, account: OlmAccount) -> (start: (
    HostCall,
    UploadOneTimeKeys,
))
    ensures
        start.1.begins(start.0, device@, account@),
{
    let account = account.with_one_time_keys(OTK_UPLOAD_BATCH);
    let keys = account.one_time_keys();
    let body = one_time_keys_body(&account, &device, &keys);
    let call = HostCall::KeysUpload(keys_upload(device.homeserver_url.as_str(), body));
    (call, UploadOneTimeKeys::Uploading(device, account))
}

// ---------------------------------------------------------------------------
// Checking the number of one-time keys
// ---------------------------------------------------------------------------

/// Checks the one-time key count and uploads more if needed.
pub enum CheckOneTimeKeys {
    /// The device keys are to be uploaded first. Holds the stored count of one-time keys.
    DeviceKeys(Device, u32, UploadDeviceKeys),
    /// The host is to ask the server for its count.
    Counting(Device, u32, OlmAccount),
    /// The server did not tell: the host is to log it.
    Complaining(Device, u32, OlmAccount),
    /// One-time keys are to be uploaded.
    Uploading(UploadOneTimeKeys),
}

/// The body of an upload of no keys, which asks for the counts alone.
pub open spec fn no_keys_upload() -> Seq<char> {
    KeysUploadRequest { device_keys: None, one_time_keys: None }.json()
}

impl CheckOneTimeKeys {
    /// The flow starts: with the upload of the device keys where they were not uploaded yet, else
    /// with the question for the server's count.
    pub open spec fn begins(
        self,
        call: HostCall,
        device: DeviceView,
        account: OlmAccount,
        keys_uploaded: bool,
        stored_count: u32,
    ) -> bool {
        if keys_uploaded {
            self.counts(call, device, account, stored_count)
        } else {
            self matches CheckOneTimeKeys::DeviceKeys(d, count, upload) && d@ == device && count
                == stored_count && upload.begins(call, device, account)
        }
    }

    /// Whether the flow has come to the question for the server's count.
    pub open spec fn counts(
        self,
        call: HostCall,
        device: DeviceView,
        account: OlmAccount,
        stored_count: u32,
    ) -> bool {
        &&& call@ == CallView::KeysUpload(
            client::keys_upload_request(device.homeserver_url, encode_utf8(no_keys_upload())),
        )
        &&& self matches CheckOneTimeKeys::Counting(d, count, a)
        &&& d@ == device
        &&& count == stored_count
        &&& a == account
    }

    /// Where the count of keys is below the minimum, one-time keys are uploaded.
    pub open spec fn tops_up(
        device: Device,
        count: u32,
        account: OlmAccount,
        step: Step<CheckOneTimeKeys, Result<(), String>>,
    ) -> bool {
        if count < OTK_MIN_COUNT {
            step matches Step::Ask(call, CheckOneTimeKeys::Uploading(upload)) && upload.begins(
                call,
                device@,
                account@,
            )
        } else {
            step.gives(Ok(()))
        }
    }

    /// The flow goes on from an answer: where the server's count, or the stored one if the server
    /// does not tell, is below the minimum, one-time keys are uploaded.
    pub open spec fn moves(
        self,
        reply: HostReply,
        step: Step<CheckOneTimeKeys, Result<(), String>>,
    ) -> bool {
        match (self, reply) {
            (CheckOneTimeKeys::DeviceKeys(device, count, upload), _) => exists|inner|
                #![trigger upload.moves(reply, inner)]
                upload.moves(reply, inner) && inner.passes_to(
                    step,
                    |u: UploadDeviceKeys| CheckOneTimeKeys::DeviceKeys(device, count, u),
                ) && match inner {
                    Step::Done(Ok(account)) => step matches Step::Ask(call, next) && next.counts(
                        call,
                        device@,
                        account,
                        count,
                    ),
                    Step::Done(Err(e)) => step.gives(Err(e)),
                    _ => true,
                },
            (CheckOneTimeKeys::Counting(device, stored, account), HostReply::KeysUpload(response)) => {
                match client::accepted(response, "keys/upload"@, "keys/upload response"@) {
                    Ok(r) => Self::tops_up(device, server_key_count(r), account, step),
                    Err(e) => step.asks(
                        host::warning_entry(
                            "Failed to query server OTK count: "@,
                            e + "; using stored count"@,
                        ),
                        CheckOneTimeKeys::Complaining(device, stored, account),
                    ),
                }
            },
            (CheckOneTimeKeys::Complaining(device, stored, account), HostReply::Finished) => {
                Self::tops_up(device, stored, account, step)
            },
            (CheckOneTimeKeys::Uploading(upload), _) => exists|inner|
                #![trigger upload.moves(reply, inner)]
                upload.moves(reply, inner) && inner.passes_to(
                    step,
                    |u: UploadOneTimeKeys| CheckOneTimeKeys::Uploading(u),
                ) && match inner {
                    Step::Done(Ok(_)) => step.gives(Ok(())),
                    Step::Done(Err(e)) => step.gives(Err(e)),
                    _ => true,
                },
            _ => step.strays(self),
        }
    }

    fn top_up(device: Device, count: u32, account: OlmAccount) -> (step: Step<
        CheckOneTimeKeys,
        Result<(), String>,
    >)
        ensures
            Self::tops_up(device, count, account, step),
    {
        if (count as usize) < OTK_MIN_COUNT {
            let (call, upload) = upload_one_time_keys(device, account);
            Step::Ask(call, CheckOneTimeKeys::Uploading(upload))
        } else {
            Step::Done(Ok(()))
        }
    }

    /// Goes on from an answer of the host.
    pub fn resume(self, reply: HostReply) -> (step: Step<CheckOneTimeKeys, Result<(), String>>)
        ensures
            self.moves(reply, step),
    {
        match (self, reply) {
            (CheckOneTimeKeys::DeviceKeys(device, count, upload), reply) => {
                match upload.resume(reply) {
                    Step::Ask(call, upload) => Step::Ask(
                        call,
                        CheckOneTimeKeys::DeviceKeys(device, count, upload),
                    ),
                    Step::Stray(upload) => Step::Stray(
                        CheckOneTimeKeys::DeviceKeys(device, count, upload),
                    ),
                    Step::Done(Ok(account)) => {
                        let (call, next) = query_server_otk_count(device, count, account);
                        Step::Ask(call, next)
                    },
                    Step::Done(Err(e)) => Step::Done(Err(e)),
                }
            },
            (CheckOneTimeKeys::Counting(device, stored, account), HostReply::KeysUpload(response)) => {
                match keys_upload_response(response) {
                    Ok(r) => {
                        let count: u32 = server_count(&r);
                        Self::top_up(device, count, account)
                    },
                    Err(e) => {
                        let why = concat2(e.as_str(), "; using stored count");
                        Step::Ask(
                            log_warning("Failed to query server OTK count: ", why.as_str()),
                            CheckOneTimeKeys::Complaining(device, stored, account),
                        )
                    },
                }
            },
            (CheckOneTimeKeys::Complaining(device, stored, account), HostReply::Finished) => {
                Self::top_up(device, stored, account)
            },
            (CheckOneTimeKeys::Uploading(upload), reply) => match upload.resume(reply) {
                Step::Ask(call, upload) => Step::Ask(call, CheckOneTimeKeys::Uploading(upload)),
                Step::Stray(upload) => Step::Stray(CheckOneTimeKeys::Uploading(upload)),
                Step::Done(Ok(_)) => Step::Done(Ok(())),
                Step::Done(Err(e)) => Step::Done(Err(e)),
            },
            (flow, _) => Step::Stray(flow),
        }
    }
}

/// Query the server for current one-time key counts.
///
/// Sends an empty keys/upload request, which returns the server's counts without changing anything.
fn query_server_otk_count(device: Device, stored_count: u32, account: OlmAccount) -> (start: (
    HostCall,
    CheckOneTimeKeys,
))
    ensures
        start.1.counts(start.0, device@, account, stored_count),
{
    let request = KeysUploadRequest { device_keys: None, one_time_keys: None };
    let body = bytes_of(request.to_json().as_str());
    let call = HostCall::KeysUpload(keys_upload(device.homeserver_url.as_str(), body));
    (call, CheckOneTimeKeys::Counting(device, stored_count, account))
}

/// The device of a stored account.
pub open spec fn stored_device(homeserver_url: Seq<char>, stored: StoredAccount) -> DeviceView {
    DeviceView { homeserver_url, user_id: stored.user_id@, device_id: stored.device_id@ }
}

/// Check one-time key count and upload more if needed.
///
/// Queries the server for the actual count rather than relying on the locally stored one, which may
/// be stale after a restart.
pub fn check_and_upload_one_time_keys(
    homeserver_url: String,
    account: OlmAccount,
    stored: StoredAccount,
) -> (start: (HostCall, CheckOneTimeKeys))
    ensures
        start.1.begins(
            start.0,
            stored_device(homeserver_url@, stored),
            account,
            stored.keys_uploaded,
            stored.uploaded_key_count,
        ),
{
    let count: u32 = stored.uploaded_key_count;
    if stored.keys_uploaded {
        let device = Device { homeserver_url, user_id: stored.user_id, device_id: stored.device_id };
        query_server_otk_count(device, count, account)
    } else {
        let device = Device { homeserver_url, user_id: stored.user_id, device_id: stored.device_id };
        let kept = device.copied();
        let (call, upload) = upload_device_keys(device, account);
        (call, CheckOneTimeKeys::DeviceKeys(kept, count, upload))
    }
}

// ---------------------------------------------------------------------------
// Initialization
// ---------------------------------------------------------------------------

/// The device of the authenticated session: the one that /whoami tells, else the one of the
/// configuration, if either is there and not empty.
pub open spec fn resolved_device_id(
    whoami: Result<WhoamiResponse, Seq<char>>,
    config_hint: Seq<char>,
) -> Result<Seq<char>, Seq<char>> {
    match whoami {
        Ok(r) => if r.device_id is Some && r.device_id->0@.len() > 0 {
            Ok(r.device_id->0@)
        } else if config_hint.len() > 0 {
            Ok(config_hint)
        } else {
            Err(
                "Cannot initialize E2EE: whoami returned no device_id and no device_id configured. The access token may not be bound to a device."@,
            )
        },
        Err(e) => if config_hint.len() > 0 {
            Ok(config_hint)
        } else {
            Err(
                "Cannot initialize E2EE: whoami failed ("@ + e
                    + ") and no device_id configured"@,
            )
        },
    }
}

/// What is odd about the device of the authenticated session, if anything is: it is not the
/// configured one, or /whoami did not tell it.
pub open spec fn device_warning(
    whoami: Result<WhoamiResponse, Seq<char>>,
    config_hint: Seq<char>,
) -> Option<Seq<char>> {
    match whoami {
        Ok(r) => if r.device_id is Some && r.device_id->0@.len() > 0 {
            if config_hint.len() > 0 && config_hint != r.device_id->0@ {
                Some(
                    "Config device_id="@ + config_hint + " differs from authenticated device_id="@
                        + r.device_id->0@ + "; using authenticated value"@,
                )
            } else {
                None
            }
        } else if config_hint.len() > 0 {
            Some("whoami returned no device_id; using config hint"@)
        } else {
            None
        },
        Err(e) => Some("whoami failed: "@ + e + "; falling back to config device_id"@),
    }
}

/// Tells what is odd about the device of the authenticated session.
fn warn_of_device(whoami: &Result<WhoamiResponse, String>, config_hint: &str) -> (warning: Option<
    String,
>)
    ensures
        json::opt_text(warning) == device_warning(
            match *whoami {
                Ok(w) => Ok(w),
                Err(e) => Err(e@),
            },
            config_hint@,
        ),
{
    match whoami {
        Ok(w) => {
            if let Some(device_id) = &w.device_id {
                if !device_id.as_str().is_empty() {
                    if config_hint.is_empty() || same_text(config_hint, device_id.as_str()) {
                        return None;
                    }
                    return Some(
                        concat5(
                            "Config device_id=",
                            config_hint,
                            " differs from authenticated device_id=",
                            device_id.as_str(),
                            "; using authenticated value",
                        ),
                    );
                }
            }
            if config_hint.is_empty() {
                None
            } else {
                Some("whoami returned no device_id; using config hint".to_owned())
            }
        },
        Err(e) => Some(
            concat3("whoami failed: ", e.as_str(), "; falling back to config device_id"),
        ),
    }
}

/// A text or an error, as sequences.
pub open spec fn result_view(r: Result<String, String>) -> Result<Seq<char>, Seq<char>> {
    match r {
        Ok(s) => Ok(s@),
        Err(e) => Err(e@),
    }
}

/// Resolve the device_id for the authenticated session.
///
/// Takes the answer to /whoami; falls back to the config hint if /whoami failed or told no
/// device_id.
pub fn resolve_device_id(whoami: Result<WhoamiResponse, String>, config_hint: &str) -> (r: Result<
    String,
    String,
>)
    ensures
        host::agrees_in_view(
            r,
            resolved_device_id(
                match whoami {
                    Ok(w) => Ok(w),
                    Err(e) => Err(e@),
                },
                config_hint@,
            ),
        ),
{
    match whoami {
        Ok(w) => {
            if let Some(device_id) = w.device_id {
                if !device_id.as_str().is_empty() {
                    return Ok(device_id);
                }
            }
            if !config_hint.is_empty() {
                Ok(config_hint.to_owned())
            } else {
                Err(
                    "Cannot initialize E2EE: whoami returned no device_id and no device_id configured. The access token may not be bound to a device.".to_owned(),
                )
            }
        },
        Err(e) => if !config_hint.is_empty() {
            Ok(config_hint.to_owned())
        } else {
            Err(
                concat3(
                    "Cannot initialize E2EE: whoami failed (",
                    e.as_str(),
                    ") and no device_id configured",
                ),
            )
        },
    }
}

/// Initializes the E2EE subsystem.
pub enum InitCrypto {
    /// The host is to ask who the access token belongs to. The device ID is the configured one.
    Resolving(Device),
    /// The host is to log what is odd about the device of the session. Holds the device ID that
    /// counts, or why there is none.
    Warning(Device, Result<String, String>),
    /// The host is to persist the device ID.
    Recording(Device),
    /// The host is to read the stored account.
    Looking(Device),
    /// The account of this device is stored: the host is to read its pickle.
    Loading(Device, StoredAccount),
    /// The host is to decrypt the pickle.
    Unsealing(Device, StoredAccount),
    /// The one-time keys of the stored account are to be checked.
    Checking(CheckOneTimeKeys),
    /// The stored account is that of another device: the host is to log it.
    Replacing(Device),
    /// The device keys of a new account are to be uploaded.
    NewDevice(Device, UploadDeviceKeys),
    /// One-time keys of a new account are to be uploaded.
    NewKeys(Device, UploadOneTimeKeys),
    /// The new account is to be saved.
    Saving(SaveAccount),
}

impl InitCrypto {
    /// The flow starts: the host is asked who the access token belongs to.
    pub open spec fn begins(
        self,
        call: HostCall,
        homeserver_url: Seq<char>,
        user_id: Seq<char>,
        config_hint: Seq<char>,
    ) -> bool {
        &&& call@ == CallView::Whoami(client::whoami_request(homeserver_url))
        &&& self matches InitCrypto::Resolving(d)
        &&& d@ == DeviceView { homeserver_url, user_id, device_id: config_hint }
    }

    /// The device of the session is recorded, if there is one.
    pub open spec fn settles(
        device: Device,
        resolved: Result<Seq<char>, Seq<char>>,
        step: Step<InitCrypto, Result<(), String>>,
    ) -> bool {
        match resolved {
            Ok(device_id) => step matches Step::Ask(call, InitCrypto::Recording(d)) && call@
                == CallView::WriteAll(seq![("state/device_id"@, device_id)]) && d@ == (DeviceView {
                device_id,
                ..device@
            }),
            Err(e) => step.fails(e),
        }
    }

    /// A new account is made, whose device keys are uploaded first.
    pub open spec fn renews(device: Device, step: Step<InitCrypto, Result<(), String>>) -> bool {
        step matches Step::Ask(call, InitCrypto::NewDevice(d, upload)) && d@ == device@
            && exists|account: OlmAccount|
            #![trigger upload.begins(call, device@, account)]
            olm::is_account(account@) && upload.begins(call, device@, account)
    }

    /// The flow goes on from an answer. The device of the session is found and recorded. An account
    /// that is stored for this device is loaded, and its one-time keys are checked; otherwise a new
    /// account is made, its keys are uploaded, and it is saved.
    pub open spec fn moves(self, reply: HostReply, step: Step<InitCrypto, Result<(), String>>) -> bool {
        match (self, reply) {
            (InitCrypto::Resolving(device), HostReply::Whoami(response)) => {
                let whoami = client::accepted(response, "whoami"@, "whoami response"@);
                let resolved = resolved_device_id(whoami, device.device_id@);
                match device_warning(whoami, device.device_id@) {
                    Some(warning) => step matches Step::Ask(call, InitCrypto::Warning(d, r))
                        && call@ == host::warning_entry(warning, ""@) && d == device && result_view(
                        r,
                    ) == resolved,
                    None => Self::settles(device, resolved, step),
                }
            },
            (InitCrypto::Warning(device, resolved), HostReply::Finished) => Self::settles(
                device,
                result_view(resolved),
                step,
            ),
            (InitCrypto::Recording(device), HostReply::Finished) => step.asks(
                CallView::ReadAccount("crypto/account.json"@),
                InitCrypto::Looking(device),
            ),
            (InitCrypto::Looking(device), HostReply::Account(stored)) => match stored {
                Some(account) if account.device_id@ == device.device_id@ => step.asks(
                    CallView::ReadAccount("crypto/account.json"@),
                    InitCrypto::Loading(device, account),
                ),
                Some(account) => step.asks(
                    host::warning_entry(
                        "Stored device_id "@ + account.device_id@
                            + " does not match authenticated device_id "@ + device.device_id@,
                        ", re-initializing crypto account"@,
                    ),
                    InitCrypto::Replacing(device),
                ),
                None => Self::renews(device, step),
            },
            (InitCrypto::Replacing(device), HostReply::Finished) => Self::renews(device, step),
            (InitCrypto::Loading(device, stored), HostReply::Account(again)) => match again {
                None => step.fails("No crypto account in store"@),
                Some(account) => match crypto_store::unsealed_bytes(account.pickled_account@) {
                    Ok(bytes) => step.asks(
                        CallView::Decrypt(bytes),
                        InitCrypto::Unsealing(device, stored),
                    ),
                    Err(e) => step.fails(e),
                },
            },
            (InitCrypto::Unsealing(device, stored), HostReply::Bytes(decrypted)) => {
                match crypto_store::opened_pickle(
                    decrypted,
                    olm::account_pickle(decrypted->Ok_0@),
                ) {
                    Ok(pickle) => step matches Step::Ask(call, InitCrypto::Checking(check))
                        && exists|account: OlmAccount|
                        #![trigger check.begins(
                            call,
                            stored_device(device.homeserver_url@, stored),
                            account,
                            stored.keys_uploaded,
                            stored.uploaded_key_count,
                        )]
                        account@ == pickle && check.begins(
                            call,
                            stored_device(device.homeserver_url@, stored),
                            account,
                            stored.keys_uploaded,
                            stored.uploaded_key_count,
                        ),
                    Err(e) => step.fails(e),
                }
            },
            (InitCrypto::Checking(check), _) => exists|inner|
                #![trigger check.moves(reply, inner)]
                check.moves(reply, inner) && inner.passes_to(
                    step,
                    |c: CheckOneTimeKeys| InitCrypto::Checking(c),
                ) && (inner matches Step::Done(r) ==> step.gives(r)),
            (InitCrypto::NewDevice(device, upload), _) => exists|inner|
                #![trigger upload.moves(reply, inner)]
                upload.moves(reply, inner) && inner.passes_to(
                    step,
                    |u: UploadDeviceKeys| InitCrypto::NewDevice(device, u),
                ) && match inner {
                    Step::Done(Ok(account)) => step matches Step::Ask(
                        call,
                        InitCrypto::NewKeys(d, keys),
                    ) && d@ == device@ && keys.begins(call, device@, account@),
                    Step::Done(Err(e)) => step.gives(Err(e)),
                    _ => true,
                },
            (InitCrypto::NewKeys(device, upload), _) => exists|inner|
                #![trigger upload.moves(reply, inner)]
                upload.moves(reply, inner) && inner.passes_to(
                    step,
                    |u: UploadOneTimeKeys| InitCrypto::NewKeys(device, u),
                ) && match inner {
                    Step::Done(Ok(account)) => step matches Step::Ask(
                        call,
                        InitCrypto::Saving(save),
                    ) && save.begins(
                        call,
                        account@,
                        device.user_id@,
                        device.device_id@,
                        true,
                        0,
                    ),
                    Step::Done(Err(e)) => step.gives(Err(e)),
                    _ => true,
                },
            (InitCrypto::Saving(save), _) => exists|inner|
                #![trigger save.moves(reply, inner)]
                save.moves(reply, inner) && inner.passes_to(
                    step,
                    |s: SaveAccount| InitCrypto::Saving(s),
                ) && (inner matches Step::Done(r) ==> step.gives(r)),
            _ => step.strays(self),
        }
    }

    fn settle(device: Device, resolved: Result<String, String>) -> (step: Step<
        InitCrypto,
        Result<(), String>,
    >)
        ensures
            Self::settles(device, result_view(resolved), step),
    {
        match resolved {
            Ok(device_id) => {
                let writes = vec![("state/device_id".to_owned(), device_id.clone())];
                assert(json::member_views(writes@) =~= seq![("state/device_id"@, device_id@)]);
                let Device { homeserver_url, user_id, device_id: _ } = device;
                let device = Device { homeserver_url, user_id, device_id };
                Step::Ask(HostCall::WriteAll(writes), InitCrypto::Recording(device))
            },
            Err(e) => Step::Done(Err(e)),
        }
    }

    fn renew(device: Device) -> (step: Step<InitCrypto, Result<(), String>>)
        ensures
            Self::renews(device, step),
    {
        let kept = device.copied();
        let (call, upload) = upload_device_keys(device, OlmAccount::new());
        Step::Ask(call, InitCrypto::NewDevice(kept, upload))
    }

    /// Goes on from an answer of the host.
    pub fn resume(self, reply: HostReply) -> (step: Step<InitCrypto, Result<(), String>>)
        ensures
            self.moves(reply, step),
    {
        match (self, reply) {
            (InitCrypto::Resolving(device), HostReply::Whoami(response)) => {
                let told = whoami_response(response);
                let warning = warn_of_device(&told, device.device_id.as_str());
                let resolved = resolve_device_id(told, device.device_id.as_str());
                match warning {
                    Some(warning) => Step::Ask(
                        log_warning(warning.as_str(), ""),
                        InitCrypto::Warning(device, resolved),
                    ),
                    None => Self::settle(device, resolved),
                }
            },
            (InitCrypto::Warning(device, resolved), HostReply::Finished) => {
                Self::settle(device, resolved)
            },
            (InitCrypto::Recording(device), HostReply::Finished) => Step::Ask(
                read_account(),
                InitCrypto::Looking(device),
            ),
            (InitCrypto::Looking(device), HostReply::Account(stored)) => {
                if let Some(account) = stored {
                    if same_text(account.device_id.as_str(), device.device_id.as_str()) {
                        return Step::Ask(read_account(), InitCrypto::Loading(device, account));
                    }
                    let what = concat4(
                        "Stored device_id ",
                        account.device_id.as_str(),
                        " does not match authenticated device_id ",
                        device.device_id.as_str(),
                    );
                    let call = log_warning(what.as_str(), ", re-initializing crypto account");
                    return Step::Ask(call, InitCrypto::Replacing(device));
                }
                Self::renew(device)
            },
            (InitCrypto::Replacing(device), HostReply::Finished) => Self::renew(device),
            (InitCrypto::Loading(device, stored), HostReply::Account(again)) => match again {
                None => Step::Done(Err("No crypto account in store".to_owned())),
                Some(account) => match host_decrypt_pickle(account.pickled_account.as_str()) {
                    Ok(bytes) => Step::Ask(
                        HostCall::Decrypt(bytes),
                        InitCrypto::Unsealing(device, stored),
                    ),
                    Err(e) => Step::Done(Err(e)),
                },
            },
            (InitCrypto::Unsealing(device, stored), HostReply::Bytes(decrypted)) => {
                match open_account(decrypted) {
                    Ok(account) => {
                        let (call, check) = check_and_upload_one_time_keys(
                            device.homeserver_url,
                            account,
                            stored,
                        );
                        Step::Ask(call, InitCrypto::Checking(check))
                    },
                    Err(e) => Step::Done(Err(e)),
                }
            },
            (InitCrypto::Checking(check), reply) => match check.resume(reply) {
                Step::Ask(call, check) => Step::Ask(call, InitCrypto::Checking(check)),
                Step::Stray(check) => Step::Stray(InitCrypto::Checking(check)),
                Step::Done(r) => Step::Done(r),
            },
            (InitCrypto::NewDevice(device, upload), reply) => match upload.resume(reply) {
                Step::Ask(call, upload) => Step::Ask(call, InitCrypto::NewDevice(device, upload)),
                Step::Stray(upload) => Step::Stray(InitCrypto::NewDevice(device, upload)),
                Step::Done(Ok(account)) => {
                    let kept = device.copied();
                    let (call, keys) = upload_one_time_keys(device, account);
                    Step::Ask(call, InitCrypto::NewKeys(kept, keys))
                },
                Step::Done(Err(e)) => Step::Done(Err(e)),
            },
            (InitCrypto::NewKeys(device, upload), reply) => match upload.resume(reply) {
                Step::Ask(call, upload) => Step::Ask(call, InitCrypto::NewKeys(device, upload)),
                Step::Stray(upload) => Step::Stray(InitCrypto::NewKeys(device, upload)),
                Step::Done(Ok(account)) => {
                    let (call, save) = save_account(
                        &account,
                        device.user_id.as_str(),
                        device.device_id.as_str(),
                        true,
                        0,
                    );
                    Step::Ask(call, InitCrypto::Saving(save))
                },
                Step::Done(Err(e)) => Step::Done(Err(e)),
            },
            (InitCrypto::Saving(save), reply) => match save.resume(reply) {
                Step::Ask(call, save) => Step::Ask(call, InitCrypto::Saving(save)),
                Step::Stray(save) => Step::Stray(InitCrypto::Saving(save)),
                Step::Done(r) => Step::Done(r),
            },
            (flow, _) => Step::Stray(flow),
        }
    }
}

/// Initialize the E2EE subsystem.
///
/// On first run, makes a new Olm account with identity keys and uploads device keys to the
/// homeserver. On subsequent runs, loads the existing account from the crypto store and checks
/// one-time key counts. The device ID is a hint: that of the access token's session counts.
pub fn init_crypto(homeserver_url: &str, user_id: &str, device_id: &str) -> (start: (
    HostCall,
    InitCrypto,
))
    ensures
        start.1.begins(start.0, homeserver_url@, user_id@, device_id@),
{
    let device = Device {
        homeserver_url: homeserver_url.to_owned(),
        user_id: user_id.to_owned(),
        device_id: device_id.to_owned(),
    };
    (HostCall::Whoami(whoami(homeserver_url)), InitCrypto::Resolving(device))
}

// ---------------------------------------------------------------------------
// Laws
// ---------------------------------------------------------------------------

/// Where /whoami tells a device, that device counts, whatever is configured.
pub proof fn session_device_counts(whoami: WhoamiResponse, config_hint: Seq<char>)
    requires
        whoami.device_id is Some,
        whoami.device_id->0@.len() > 0,
    ensures
        resolved_device_id(Ok(whoami), config_hint) == Ok::<Seq<char>, Seq<char>>(
            whoami.device_id->0@,
        ),
{
}

/// What is stored of an account is its public keys and what the host made of its pickle: an account
/// is written only once the host has encrypted the pickle, and with the encrypted pickle alone.
pub proof fn account_is_stored_sealed(
    flow: SaveAccount,
    reply: HostReply,
    step: Step<SaveAccount, Result<(), String>>,
)
    requires
        flow.moves(reply, step),
        step matches Step::Ask(call, _) && call@ is Write,
    ensures
        flow matches SaveAccount::Sealing(record) && reply matches HostReply::Bytes(Ok(encrypted))
            && step->Ask_0@ == CallView::Write(
            "crypto/account.json"@,
            AccountView {
                pickled_account: codec::base64_text(encrypted@),
                ..record@
            }.json(),
        ),
{
}

/// A stored account of another device is not used: a new one takes its place, whose device keys are
/// uploaded first.
pub proof fn other_devices_account_is_not_used(
    device: Device,
    stored: StoredAccount,
    step: Step<InitCrypto, Result<(), String>>,
    next: Step<InitCrypto, Result<(), String>>,
)
    requires
        stored.device_id@ != device.device_id@,
        InitCrypto::Looking(device).moves(HostReply::Account(Some(stored)), step),
        InitCrypto::Replacing(device).moves(HostReply::Finished, next),
    ensures
        step matches Step::Ask(call, flow) && call@ is Log && flow == InitCrypto::Replacing(device),
        next matches Step::Ask(call, InitCrypto::NewDevice(_, _)) && call@ is KeysUpload,
{
}

/// One-time keys that were uploaded, or refused as known, are not uploaded again: the account that
/// is saved has none left to publish, and the identity keys of the one before.
pub proof fn published_keys_are_not_uploaded_again(
    device: Device,
    account: OlmAccount,
    flow: UploadOneTimeKeys,
    reply: HostReply,
    call: HostCall,
    after: OlmAccount,
    save: SaveAccount,
)
    requires
        flow == UploadOneTimeKeys::Uploading(device, account) || flow
            == UploadOneTimeKeys::Complaining(device, account),
        flow.moves(reply, Step::Ask(call, UploadOneTimeKeys::Saving(after, save))),
    ensures
        olm::unpublished_keys(after@).dom().is_empty(),
        olm::same_identity(after@, account@),
{
}

/// Whether a question asks for no write but that of the account and of the device ID.
pub open spec fn keeps_settings(call: CallView) -> bool {
    match call {
        CallView::Write(path, _) => path == "crypto/account.json"@,
        CallView::WriteAll(writes) => writes.len() == 1 && writes[0].0 == "state/device_id"@,
        _ => true,
    }
}

proof fn saving_keeps_settings(
    flow: SaveAccount,
    reply: HostReply,
    step: Step<SaveAccount, Result<(), String>>,
)
    requires
        flow.moves(reply, step),
    ensures
        step matches Step::Ask(call, _) ==> keeps_settings(call@),
{
}

proof fn device_keys_keep_settings(
    flow: UploadDeviceKeys,
    reply: HostReply,
    step: Step<UploadDeviceKeys, Result<OlmAccount, String>>,
)
    requires
        flow.moves(reply, step),
    ensures
        step matches Step::Ask(call, _) ==> keeps_settings(call@),
{
    match flow {
        UploadDeviceKeys::Saving(_, save) => {
            assert forall|inner: Step<SaveAccount, Result<(), String>>| save.moves(reply, inner) implies (
            inner matches Step::Ask(call, _) ==> keeps_settings(call@)) by {
                saving_keeps_settings(save, reply, inner);
            }
        },
        _ => {},
    }
}

proof fn one_time_keys_keep_settings(
    flow: UploadOneTimeKeys,
    reply: HostReply,
    step: Step<UploadOneTimeKeys, Result<OlmAccount, String>>,
)
    requires
        flow.moves(reply, step),
    ensures
        step matches Step::Ask(call, _) ==> keeps_settings(call@),
{
    match flow {
        UploadOneTimeKeys::Saving(_, save) => {
            assert forall|inner: Step<SaveAccount, Result<(), String>>| save.moves(reply, inner) implies (
            inner matches Step::Ask(call, _) ==> keeps_settings(call@)) by {
                saving_keeps_settings(save, reply, inner);
            }
        },
        _ => {},
    }
}

proof fn checking_keeps_settings(
    flow: CheckOneTimeKeys,
    reply: HostReply,
    step: Step<CheckOneTimeKeys, Result<(), String>>,
)
    requires
        flow.moves(reply, step),
    ensures
        step matches Step::Ask(call, _) ==> keeps_settings(call@),
{
    match flow {
        CheckOneTimeKeys::DeviceKeys(_, _, upload) => {
            assert forall|inner: Step<UploadDeviceKeys, Result<OlmAccount, String>>| upload.moves(reply, inner) implies (
            inner matches Step::Ask(call, _) ==> keeps_settings(call@)) by {
                device_keys_keep_settings(upload, reply, inner);
            }
        },
        CheckOneTimeKeys::Uploading(upload) => {
            assert forall|inner: Step<UploadOneTimeKeys, Result<OlmAccount, String>>| upload.moves(reply, inner) implies (
            inner matches Step::Ask(call, _) ==> keeps_settings(call@)) by {
                one_time_keys_keep_settings(upload, reply, inner);
            }
        },
        _ => {},
    }
}

/// The initialization of E2EE writes nothing but the account and the device ID.
pub proof fn initialization_keeps_settings(
    flow: InitCrypto,
    reply: HostReply,
    step: Step<InitCrypto, Result<(), String>>,
)
    requires
        flow.moves(reply, step),
    ensures
        step matches Step::Ask(call, _) ==> keeps_settings(call@),
{
    match flow {
        InitCrypto::Checking(check) => {
            assert forall|inner: Step<CheckOneTimeKeys, Result<(), String>>| check.moves(reply, inner) implies (
            inner matches Step::Ask(call, _) ==> keeps_settings(call@)) by {
                checking_keeps_settings(check, reply, inner);
            }
        },
        InitCrypto::NewDevice(_, upload) => {
            assert forall|inner: Step<UploadDeviceKeys, Result<OlmAccount, String>>| upload.moves(reply, inner) implies (
            inner matches Step::Ask(call, _) ==> keeps_settings(call@)) by {
                device_keys_keep_settings(upload, reply, inner);
            }
        },
        InitCrypto::NewKeys(_, upload) => {
            assert forall|inner: Step<UploadOneTimeKeys, Result<OlmAccount, String>>| upload.moves(reply, inner) implies (
            inner matches Step::Ask(call, _) ==> keeps_settings(call@)) by {
                one_time_keys_keep_settings(upload, reply, inner);
            }
        },
        InitCrypto::Saving(save) => {
            assert forall|inner: Step<SaveAccount, Result<(), String>>| save.moves(reply, inner) implies (
            inner matches Step::Ask(call, _) ==> keeps_settings(call@)) by {
                saving_keeps_settings(save, reply, inner);
            }
        },
        _ => {},
    }
}

impl InitCrypto {
    /// What the flow does from an answer.
    pub open spec fn rule() -> host::Rule<InitCrypto, Result<(), String>> {
        |flow: InitCrypto, reply: HostReply, step: Step<InitCrypto, Result<(), String>>|
            flow.moves(reply, step)
    }
}

impl SaveAccount {
    /// What the flow does from an answer.
    pub open spec fn rule() -> host::Rule<SaveAccount, Result<(), String>> {
        |flow: SaveAccount, reply: HostReply, step: Step<SaveAccount, Result<(), String>>|
            flow.moves(reply, step)
    }
}

/// Whether two questions, one after the other, save an account: the host has encrypted its pickle, and
/// then has written its record, with the encrypted pickle and its public keys.
pub open spec fn saves_account(
    calls: Seq<CallView>,
    replies: Seq<HostReply>,
    at: int,
    account: Seq<u8>,
    record: AccountView,
) -> bool {
    &&& 0 <= at
    &&& at + 1 < calls.len()
    &&& calls.len() == replies.len()
    &&& calls[at] == CallView::Encrypt(account)
    &&& (replies[at] matches HostReply::Bytes(Ok(sealed)) && crypto_store::unsealed_bytes(
        record.pickled_account,
    ) == Ok::<Seq<u8>, Seq<char>>(sealed@))
    &&& record.ed25519_key == olm::ed25519_of(account)
    &&& record.curve25519_key == olm::curve25519_of(account)
    &&& calls[at + 1] == CallView::Write("crypto/account.json"@, record.json())
    &&& (replies[at + 1] matches HostReply::Written(Ok(_)))
}

/// A saving of an account that succeeds has written the account as it is.
pub proof fn account_is_saved(
    flow: SaveAccount,
    call: HostCall,
    account: Seq<u8>,
    user_id: Seq<char>,
    device_id: Seq<char>,
    keys_uploaded: bool,
    uploaded_key_count: u32,
    calls: Seq<CallView>,
    replies: Seq<HostReply>,
) -> (record: AccountView)
    requires
        flow.begins(call, account, user_id, device_id, keys_uploaded, uploaded_key_count),
        host::runs(SaveAccount::rule(), Step::Ask(call, flow), calls, replies, Step::Done(Ok(()))),
    ensures
        calls.len() == 2,
        saves_account(calls, replies, 0, account, record),
        record.user_id == user_id,
        record.device_id == device_id,
        record.keys_uploaded == keys_uploaded,
        record.uploaded_key_count == uploaded_key_count,
{
    let rule = SaveAccount::rule();
    let last: Step<SaveAccount, Result<(), String>> = Step::Done(Ok(()));
    let s1 = host::run_goes_on(rule, Step::Ask(call, flow), calls, replies, last);
    let (c1, r1) = (calls.skip(1), replies.skip(1));
    if !(s1 is Ask) {
        host::run_is_over(rule, s1, c1, r1, last);
    }
    let s2 = host::run_goes_on(rule, s1, c1, r1, last);
    host::run_is_over(rule, s2, c1.skip(1), r1.skip(1), last);
    assert(c1[0] == calls[1] && r1[0] == replies[1]);
    match flow {
        SaveAccount::Sealing(record) => AccountView {
            pickled_account: crypto_store::sealed_pickle(replies[0]->Bytes_0)->Ok_0,
            ..record@
        },
        _ => arbitrary(),
    }
}

/// The value of a signed one-time key: the key, and the signature of our device over the canonical JSON of an
/// object that has the key alone.
pub open spec fn is_signed_key(
    tree: JsonTree,
    account: Seq<u8>,
    device: DeviceView,
    key: Seq<char>,
) -> bool {
    &&& json_tree::at(tree, seq!["key"@]) == Some(JsonTree::Str(key))
    &&& json_tree::at(
        tree,
        seq!["signatures"@, device.user_id, "ed25519:"@ + device.device_id],
    ) == Some(
        JsonTree::Str(
            olm::signature_of(
                account,
                encode_utf8(
                    json_tree::written(JsonTree::Object(seq![("key"@, JsonTree::Str(key))])),
                ),
            ),
        ),
    )
}

proof fn sorted_single(name: Seq<char>, value: JsonTree) -> (sorted: Seq<(Seq<char>, JsonTree)>)
    ensures
        sorted == seq![(name, value)],
        json::sorted_object_text(seq![(name, json_tree::written(value))]) == json_tree::written(
            JsonTree::Object(sorted),
        ),
{
    let members = seq![(name, value)];
    json_tree::written_members_are(members, seq![(name, json_tree::written(value))]);
    let sorted = json_tree::sorted_object_is_written(members);
    assert(sorted.contains(sorted[0]));
    assert(sorted =~= members);
    sorted
}

proof fn signed_key_reads_back(account: Seq<u8>, device: DeviceView, key: Seq<char>) -> (tree:
    JsonTree)
    ensures
        signed_key_text(account, device, key) == json_tree::written(tree),
        json_tree::fits(tree, 3),
        is_signed_key(tree, account, device, key),
{
    reveal_strlit("key");
    reveal_strlit("signatures");
    let bare = sorted_single("key"@, JsonTree::Str(key));
    let signature = olm::signature_of(
        account,
        encode_utf8(json_tree::written(JsonTree::Object(bare))),
    );
    let by_key = sorted_single("ed25519:"@ + device.device_id, JsonTree::Str(signature));
    let by_user = sorted_single(device.user_id, JsonTree::Object(by_key));
    let members = seq![
        ("key"@, JsonTree::Str(key)),
        ("signatures"@, JsonTree::Object(by_user)),
    ];
    json_tree::written_members_are(
        members,
        seq![
            ("key"@, json::string_text(key)),
            ("signatures"@, json_tree::written(JsonTree::Object(by_user))),
        ],
    );
    assert(members[0].0.len() == 3 && members[1].0.len() == 10);
    let sorted = json_tree::sorted_object_is_written(members);
    json_tree::members_all_fit(by_key, 0);
    json_tree::members_all_fit(by_user, 1);
    json_tree::reordered_members_fit(sorted, members, 2);
    json_tree::sorted_ways_go_on(sorted, members, 0, seq!["key"@]);
    assert(seq!["key"@].skip(1) =~= Seq::empty());
    let path = seq!["signatures"@, device.user_id, "ed25519:"@ + device.device_id];
    json_tree::sorted_ways_go_on(sorted, members, 1, path);
    json_tree::ways_go_on(by_user, 0, path.skip(1));
    json_tree::ways_go_on(by_key, 0, path.skip(1).skip(1));
    assert(path.skip(1).skip(1).skip(1) =~= Seq::empty());
    JsonTree::Object(sorted)
}

/// The body of an upload of one-time keys reads back: it has every one of the keys under its ID, signed by
/// the device.
pub proof fn one_time_keys_read_back(
    account: Seq<u8>,
    device: DeviceView,
    keys: Seq<(String, String)>,
    unpublished: Map<Seq<char>, Seq<char>>,
) -> (tree: JsonTree)
    requires
        olm::lists_keys(keys, unpublished),
    ensures
        one_time_keys_upload(account, device, keys) == json_tree::written(tree),
        json_tree::fits(tree, 5),
        forall|id: Seq<char>| #[trigger]
            unpublished.dom().contains(id) ==> (json_tree::at(
                tree,
                seq!["one_time_keys"@, "signed_curve25519:"@ + id],
            ) matches Some(value) && is_signed_key(value, account, device, unpublished[id])),
{
    let value_of = |i: int|
        choose|value: JsonTree| #[trigger] is_value_of(value, account, device, keys[i].1@);
    assert forall|i: int| 0 <= i < keys.len() implies is_value_of(
        #[trigger] value_of(i),
        account,
        device,
        keys[i].1@,
    ) by {
        let value = signed_key_reads_back(account, device, keys[i].1@);
        assert(is_value_of(value, account, device, keys[i].1@));
    }
    let members = Seq::new(
        keys.len(),
        |i: int| ("signed_curve25519:"@ + keys[i].0@, value_of(i)),
    );
    let texts = keys.map_values(
        |k: (String, String)|
            ("signed_curve25519:"@ + k.0@, signed_key_text(account, device, k.1@)),
    );
    assert forall|i: int| 0 <= i < members.len() implies (#[trigger] members[i]).0 == texts[i].0
        && json_tree::written(members[i].1) == texts[i].1 && json_tree::fits(members[i].1, 3) by {
        assert(is_value_of(value_of(i), account, device, keys[i].1@));
    }
    json_tree::written_members_are(members, texts);
    let prefix = "signed_curve25519:"@;
    assert forall|i: int, j: int| 0 <= i < j < members.len() implies members[i].0 != members[j].0 by {
        assert(keys[i].0@ != keys[j].0@);
        assert((prefix + keys[i].0@).skip(prefix.len() as int) =~= keys[i].0@);
        assert((prefix + keys[j].0@).skip(prefix.len() as int) =~= keys[j].0@);
    }
    json_tree::members_all_fit(members, 3);
    let outer = seq![("one_time_keys"@, JsonTree::Object(members))];
    json_tree::written_members_are(
        outer,
        seq![("one_time_keys"@, json_tree::written(JsonTree::Object(members)))],
    );
    json_tree::members_all_fit(outer, 4);
    assert forall|id: Seq<char>| #[trigger] unpublished.dom().contains(id) implies (json_tree::at(
        JsonTree::Object(outer),
        seq!["one_time_keys"@, "signed_curve25519:"@ + id],
    ) matches Some(value) && is_signed_key(value, account, device, unpublished[id])) by {
        let i = choose|i: int| 0 <= i < keys.len() && keys[i].0@ == id;
        assert(unpublished[keys[i].0@] == keys[i].1@);
        let path = seq!["one_time_keys"@, "signed_curve25519:"@ + id];
        json_tree::ways_go_on(outer, 0, path);
        json_tree::ways_go_on(members, i, path.skip(1));
        assert(path.skip(1).skip(1) =~= Seq::empty());
        assert(is_value_of(value_of(i), account, device, keys[i].1@));
    }
    JsonTree::Object(outer)
}

spec fn is_value_of(value: JsonTree, account: Seq<u8>, device: DeviceView, key: Seq<char>) -> bool {
    &&& signed_key_text(account, device, key) == json_tree::written(value)
    &&& json_tree::fits(value, 3)
    &&& is_signed_key(value, account, device, key)
}

/// The body of an upload of device keys reads back: it has the owner, the device, the algorithms and both
/// identity keys, and the signature of the device over what it signs of them.
pub proof fn device_keys_read_back(account: Seq<u8>, device: DeviceView) -> (tree: JsonTree)
    ensures
        device_keys_upload(account, device) == json_tree::written(tree),
        json_tree::fits(tree, 4),
        json_tree::at(tree, seq!["device_keys"@, "user_id"@]) == Some(
            JsonTree::Str(device.user_id),
        ),
        json_tree::at(tree, seq!["device_keys"@, "device_id"@]) == Some(
            JsonTree::Str(device.device_id),
        ),
        json_tree::at(tree, seq!["device_keys"@, "algorithms"@]) == Some(
            JsonTree::Array(
                seq![
                    JsonTree::Str("m.olm.v1.curve25519-aes-sha2"@),
                    JsonTree::Str("m.megolm.v1.aes-sha2"@),
                ],
            ),
        ),
        json_tree::at(
            tree,
            seq!["device_keys"@, "keys"@, "curve25519:"@ + device.device_id],
        ) == Some(JsonTree::Str(olm::curve25519_of(account))),
        json_tree::at(tree, seq!["device_keys"@, "keys"@, "ed25519:"@ + device.device_id]) == Some(
            JsonTree::Str(olm::ed25519_of(account)),
        ),
        json_tree::at(
            tree,
            seq![
                "device_keys"@,
                "signatures"@,
                device.user_id,
                "ed25519:"@ + device.device_id,
            ],
        ) == Some(
            JsonTree::Str(
                olm::signature_of(account, encode_utf8(signed_device_text(account, device))),
            ),
        ),
{
    reveal_strlit("user_id");
    reveal_strlit("device_id");
    reveal_strlit("algorithms");
    reveal_strlit("keys");
    reveal_strlit("signatures");
    reveal_strlit("curve25519:");
    reveal_strlit("ed25519:");
    let signature = olm::signature_of(account, encode_utf8(signed_device_text(account, device)));
    let ed_name = "ed25519:"@ + device.device_id;
    let identity = seq![
        ("curve25519:"@ + device.device_id, JsonTree::Str(olm::curve25519_of(account))),
        (ed_name, JsonTree::Str(olm::ed25519_of(account))),
    ];
    json_tree::written_members_are(identity, identity_keys(account, device.device_id));
    assert(identity[0].0[0] == 'c' && identity[1].0[0] == 'e');
    json_tree::members_all_fit(identity, 0);
    let by_key = seq![(ed_name, JsonTree::Str(signature))];
    json_tree::written_members_are(by_key, seq![(ed_name, json::string_text(signature))]);
    json_tree::members_all_fit(by_key, 0);
    let by_user = seq![(device.user_id, JsonTree::Object(by_key))];
    json_tree::written_members_are(
        by_user,
        seq![(device.user_id, json_tree::written(JsonTree::Object(by_key)))],
    );
    json_tree::members_all_fit(by_user, 1);
    let listed = json_tree::string_array_is_written(algorithms());
    assert(listed->Array_0 =~= seq![
        JsonTree::Str("m.olm.v1.curve25519-aes-sha2"@),
        JsonTree::Str("m.megolm.v1.aes-sha2"@),
    ]);
    let members = seq![
        ("user_id"@, JsonTree::Str(device.user_id)),
        ("device_id"@, JsonTree::Str(device.device_id)),
        ("algorithms"@, listed),
        ("keys"@, JsonTree::Object(identity)),
        ("signatures"@, JsonTree::Object(by_user)),
    ];
    json_tree::written_members_are(
        members,
        seq![
            ("user_id"@, json::string_text(device.user_id)),
            ("device_id"@, json::string_text(device.device_id)),
            ("algorithms"@, json::string_array_text(algorithms())),
            ("keys"@, json::object_text(identity_keys(account, device.device_id))),
            ("signatures"@, signatures_text(device, signature)),
        ],
    );
    assert(members[0].0[0] == 'u' && members[1].0[0] == 'd' && members[2].0[0] == 'a'
        && members[3].0[0] == 'k' && members[4].0[0] == 's');
    assert forall|i: int, j: int| 0 <= i < j < members.len() implies members[i].0 != members[j].0 by {
        assert(members[i].0[0] != members[j].0[0]);
    }
    json_tree::shallow_fits(listed, 1, 2);
    json_tree::shallow_fits(JsonTree::Object(identity), 1, 2);
    assert forall|i: int| 0 <= i < members.len() implies json_tree::fits(
        (#[trigger] members[i]).1,
        2,
    ) by {}
    json_tree::members_all_fit(members, 2);
    let outer = seq![("device_keys"@, JsonTree::Object(members))];
    json_tree::written_members_are(
        outer,
        seq![("device_keys"@, json_tree::written(JsonTree::Object(members)))],
    );
    json_tree::members_all_fit(outer, 3);
    let to_user = seq!["device_keys"@, "user_id"@];
    json_tree::ways_go_on(outer, 0, to_user);
    json_tree::ways_go_on(members, 0, to_user.skip(1));
    assert(to_user.skip(1).skip(1) =~= Seq::empty());
    let to_device = seq!["device_keys"@, "device_id"@];
    json_tree::ways_go_on(outer, 0, to_device);
    json_tree::ways_go_on(members, 1, to_device.skip(1));
    assert(to_device.skip(1).skip(1) =~= Seq::empty());
    let to_algorithms = seq!["device_keys"@, "algorithms"@];
    json_tree::ways_go_on(outer, 0, to_algorithms);
    json_tree::ways_go_on(members, 2, to_algorithms.skip(1));
    assert(to_algorithms.skip(1).skip(1) =~= Seq::empty());
    let to_curve = seq!["device_keys"@, "keys"@, "curve25519:"@ + device.device_id];
    json_tree::ways_go_on(outer, 0, to_curve);
    json_tree::ways_go_on(members, 3, to_curve.skip(1));
    json_tree::ways_go_on(identity, 0, to_curve.skip(1).skip(1));
    assert(to_curve.skip(1).skip(1).skip(1) =~= Seq::empty());
    let to_ed = seq!["device_keys"@, "keys"@, ed_name];
    json_tree::ways_go_on(outer, 0, to_ed);
    json_tree::ways_go_on(members, 3, to_ed.skip(1));
    json_tree::ways_go_on(identity, 1, to_ed.skip(1).skip(1));
    assert(to_ed.skip(1).skip(1).skip(1) =~= Seq::empty());
    let to_signature = seq!["device_keys"@, "signatures"@, device.user_id, ed_name];
    json_tree::ways_go_on(outer, 0, to_signature);
    json_tree::ways_go_on(members, 4, to_signature.skip(1));
    json_tree::ways_go_on(by_user, 0, to_signature.skip(1).skip(1));
    json_tree::ways_go_on(by_key, 0, to_signature.skip(1).skip(1).skip(1));
    assert(to_signature.skip(1).skip(1).skip(1).skip(1) =~= Seq::empty());
    JsonTree::Object(outer)
}

impl UploadDeviceKeys {
    /// What the flow does from an answer.
    pub open spec fn rule() -> host::Rule<UploadDeviceKeys, Result<OlmAccount, String>> {
        |
            flow: UploadDeviceKeys,
            reply: HostReply,
            step: Step<UploadDeviceKeys, Result<OlmAccount, String>>,
        |
            flow.moves(reply, step)
    }
}

impl UploadOneTimeKeys {
    /// What the flow does from an answer.
    pub open spec fn rule() -> host::Rule<UploadOneTimeKeys, Result<OlmAccount, String>> {
        |
            flow: UploadOneTimeKeys,
            reply: HostReply,
            step: Step<UploadOneTimeKeys, Result<OlmAccount, String>>,
        |
            flow.moves(reply, step)
    }
}

impl CheckOneTimeKeys {
    /// What the flow does from an answer.
    pub open spec fn rule() -> host::Rule<CheckOneTimeKeys, Result<(), String>> {
        |flow: CheckOneTimeKeys, reply: HostReply, step: Step<CheckOneTimeKeys, Result<(), String>>|
            flow.moves(reply, step)
    }
}

/// Whether the server takes keys that are uploaded.
pub open spec fn is_taken(reply: HostReply) -> bool {
    reply matches HostReply::KeysUpload(Ok(p)) && p.response.status == 200 && p.parsed is Ok
}

/// Whether a question uploads the identity keys of an account for a device, and the server takes them.
pub open spec fn publishes_device(
    calls: Seq<CallView>,
    replies: Seq<HostReply>,
    at: int,
    account: Seq<u8>,
    device: DeviceView,
) -> bool {
    &&& 0 <= at < calls.len()
    &&& calls[at] == CallView::KeysUpload(
        client::keys_upload_request(
            device.homeserver_url,
            encode_utf8(device_keys_upload(account, device)),
        ),
    )
    &&& is_taken(replies[at])
}

/// Whether a question uploads every unpublished one-time key of an account for a device.
pub open spec fn publishes_keys(
    calls: Seq<CallView>,
    at: int,
    account: Seq<u8>,
    device: DeviceView,
) -> bool {
    &&& 0 <= at < calls.len()
    &&& exists|keys: Seq<(String, String)>| #[trigger]
        olm::lists_keys(keys, olm::unpublished_keys(account)) && calls[at] == CallView::KeysUpload(
            client::keys_upload_request(
                device.homeserver_url,
                encode_utf8(one_time_keys_upload(account, device, keys)),
            ),
        )
}

/// Whether a record is that of an account of a device with uploaded keys.
pub open spec fn is_of_device(record: AccountView, device: DeviceView) -> bool {
    record.user_id == device.user_id && record.device_id == device.device_id
        && record.keys_uploaded
}

proof fn saving_in_more(
    some_calls: Seq<CallView>,
    some_replies: Seq<HostReply>,
    at: int,
    account: Seq<u8>,
    record: AccountView,
    calls: Seq<CallView>,
    replies: Seq<HostReply>,
    n: int,
)
    requires
        saves_account(some_calls, some_replies, at, account, record),
        0 <= n,
        calls.len() == replies.len(),
        n + some_calls.len() <= calls.len(),
        forall|i: int|
            0 <= i < some_calls.len() ==> #[trigger] some_calls[i] == calls[n + i],
        forall|i: int|
            0 <= i < some_calls.len() ==> #[trigger] some_replies[i] == replies[n + i],
    ensures
        saves_account(calls, replies, n + at, account, record),
{
    assert(some_calls[at] == calls[n + at]);
    assert(some_calls[at + 1] == calls[n + at + 1]);
    assert(some_replies[at] == replies[n + at]);
    assert(some_replies[at + 1] == replies[n + at + 1]);
}

/// An upload of device keys that succeeds has had the keys of the account taken by the server, and has then
/// saved the account as it is, as one of this device with uploaded keys.
pub proof fn device_keys_are_uploaded(
    flow: UploadDeviceKeys,
    call: HostCall,
    device: DeviceView,
    account: OlmAccount,
    calls: Seq<CallView>,
    replies: Seq<HostReply>,
    result: OlmAccount,
) -> (record: AccountView)
    requires
        flow.begins(call, device, account),
        host::runs(
            UploadDeviceKeys::rule(),
            Step::Ask(call, flow),
            calls,
            replies,
            Step::Done(Ok(result)),
        ),
    ensures
        calls.len() == 3,
        calls.len() == replies.len(),
        publishes_device(calls, replies, 0, account@, device),
        saves_account(calls, replies, 1, account@, record),
        is_of_device(record, device),
        record.uploaded_key_count == 0,
        result == account,
{
    let rule = UploadDeviceKeys::rule();
    let last: Step<UploadDeviceKeys, Result<OlmAccount, String>> = Step::Done(Ok(result));
    let s1 = host::run_goes_on(rule, Step::Ask(call, flow), calls, replies, last);
    let (c1, r1) = (calls.skip(1), replies.skip(1));
    if !(s1 is Ask) {
        host::run_is_over(rule, s1, c1, r1, last);
    }
    let (save_call, save) = match s1 {
        Step::Ask(save_call, UploadDeviceKeys::Saving(_, save)) => (save_call, save),
        _ => arbitrary(),
    };
    assert(s1 == Step::<UploadDeviceKeys, Result<OlmAccount, String>>::Ask(
        save_call,
        UploadDeviceKeys::Saving(account, save),
    ));
    let inner_rule = SaveAccount::rule();
    let whole = |s: SaveAccount| UploadDeviceKeys::Saving(account, s);
    let after = |r: Result<(), String>, step: Step<UploadDeviceKeys, Result<OlmAccount, String>>|
        match r {
            Ok(_) => step.gives(Ok(account)),
            Err(e) => step.gives(Err(e)),
        };
    assert forall|
        f: SaveAccount,
        reply: HostReply,
        step: Step<UploadDeviceKeys, Result<OlmAccount, String>>,
    | #[trigger]
        host::goes(rule, whole(f), reply, step) implies host::passes_on(
        inner_rule,
        whole,
        after,
        f,
        reply,
        step,
    ) by {
        let inner = choose|inner: Step<SaveAccount, Result<(), String>>|
            #![trigger f.moves(reply, inner)]
            f.moves(reply, inner) && inner.passes_to(
                step,
                |s: SaveAccount| UploadDeviceKeys::Saving(account, s),
            ) && match inner {
                Step::Done(Ok(_)) => step.gives(Ok(account)),
                Step::Done(Err(e)) => step.gives(Err(e)),
                _ => true,
            };
        assert(host::goes(inner_rule, f, reply, inner));
        assert(inner matches Step::Done(r) ==> after(r, step));
    }
    let (k, ended, step) = host::inner_run_ends(
        inner_rule,
        rule,
        whole,
        after,
        save_call,
        save,
        c1,
        r1,
        last,
    );
    host::run_is_over(rule, step, c1.skip(k), r1.skip(k), last);
    assert(c1.take(k) =~= c1 && r1.take(k) =~= r1);
    assert(ended->Ok_0 == ());
    let record = account_is_saved(
        save,
        save_call,
        account@,
        device.user_id,
        device.device_id,
        true,
        0,
        c1,
        r1,
    );
    saving_in_more(c1, r1, 0, account@, record, calls, replies, 1);
    record
}

/// An upload of one-time keys that succeeds has offered the server every unpublished key, fresh ones among
/// them. The server has taken them, or has refused them as a bad request, which is logged. Then the account is
/// saved as one of this device with the same identity, and with no key left to publish.
pub proof fn fresh_keys_are_uploaded(
    flow: UploadOneTimeKeys,
    call: HostCall,
    device: DeviceView,
    account: Seq<u8>,
    calls: Seq<CallView>,
    replies: Seq<HostReply>,
    result: OlmAccount,
) -> (r: (Seq<u8>, AccountView))
    requires
        flow.begins(call, device, account),
        host::runs(
            UploadOneTimeKeys::rule(),
            Step::Ask(call, flow),
            calls,
            replies,
            Step::Done(Ok(result)),
        ),
    ensures
        calls.len() == replies.len(),
        calls.len() == (if is_taken(replies[0]) {
            3int
        } else {
            4int
        }),
        olm::keys_generated(account, 10usize, r.0),
        olm::same_identity(r.0, account),
        publishes_keys(calls, 0, r.0, device),
        calls.len() == 4 ==> calls[1] is Log && (replies[0] matches HostReply::KeysUpload(response)
            && text::has_text(
            client::accepted(response, "keys/upload"@, "keys/upload response"@)->Err_0,
            "400"@,
        )),
        result@ == olm::published_account(r.0),
        olm::unpublished_keys(result@).dom().is_empty(),
        olm::same_identity(result@, account),
        saves_account(calls, replies, calls.len() - 2, result@, r.1),
        is_of_device(r.1, device),
        r.1.uploaded_key_count == told_count(replies[0], 0),
{
    let rule = UploadOneTimeKeys::rule();
    let last: Step<UploadOneTimeKeys, Result<OlmAccount, String>> = Step::Done(Ok(result));
    let s1 = host::run_goes_on(rule, Step::Ask(call, flow), calls, replies, last);
    let (c1, r1) = (calls.skip(1), replies.skip(1));
    if !(s1 is Ask) {
        host::run_is_over(rule, s1, c1, r1, last);
    }
    let fresh = match flow {
        UploadOneTimeKeys::Uploading(_, a) => a@,
        _ => arbitrary(),
    };
    let count = told_count(replies[0], 0);
    if is_taken(replies[0]) {
        let record = keys_are_saved(device, fresh, count, s1, c1, r1, result);
        saving_in_more(c1, r1, 0, result@, record, calls, replies, 1);
        (fresh, record)
    } else {
        let s2 = host::run_goes_on(rule, s1, c1, r1, last);
        if !(s2 is Ask) {
            host::run_is_over(rule, s2, c1.skip(1), r1.skip(1), last);
        }
        let (c2, r2) = (calls.skip(2), replies.skip(2));
        assert(c1.skip(1) =~= c2 && r1.skip(1) =~= r2);
        let record = keys_are_saved(device, fresh, 0, s2, c2, r2, result);
        saving_in_more(c2, r2, 0, result@, record, calls, replies, 2);
        (fresh, record)
    }
}

/// How many one-time keys the server has: what it tells, if it answers, or else what is stored.
pub open spec fn told_count(reply: HostReply, stored: u32) -> u32 {
    match reply {
        HostReply::KeysUpload(Ok(p)) if is_taken(reply) => match types::lookup(
            p.parsed->Ok_0.one_time_key_counts@,
            "signed_curve25519"@,
        ) {
            Some(count) => count,
            None => 0,
        },
        _ => stored,
    }
}

proof fn keys_are_saved(
    device: DeviceView,
    fresh: Seq<u8>,
    count: u32,
    first: Step<UploadOneTimeKeys, Result<OlmAccount, String>>,
    calls: Seq<CallView>,
    replies: Seq<HostReply>,
    result: OlmAccount,
) -> (record: AccountView)
    requires
        exists|d: Device| d@ == device && #[trigger]
            UploadOneTimeKeys::saves(first, d, fresh, count),
        host::runs(UploadOneTimeKeys::rule(), first, calls, replies, Step::Done(Ok(result))),
    ensures
        calls.len() == 2,
        calls.len() == replies.len(),
        result@ == olm::published_account(fresh),
        olm::same_identity(result@, fresh),
        olm::unpublished_keys(result@).dom().is_empty(),
        saves_account(calls, replies, 0, result@, record),
        is_of_device(record, device),
        record.uploaded_key_count == count,
{
    let rule = UploadOneTimeKeys::rule();
    let last: Step<UploadOneTimeKeys, Result<OlmAccount, String>> = Step::Done(Ok(result));
    let (save_call, account, save) = match first {
        Step::Ask(save_call, UploadOneTimeKeys::Saving(a, save)) => (save_call, a, save),
        _ => arbitrary(),
    };
    let inner_rule = SaveAccount::rule();
    let whole = |s: SaveAccount| UploadOneTimeKeys::Saving(account, s);
    let after = |r: Result<(), String>, step: Step<UploadOneTimeKeys, Result<OlmAccount, String>>|
        match r {
            Ok(_) => step.gives(Ok(account)),
            Err(e) => step.gives(Err(e)),
        };
    assert forall|
        f: SaveAccount,
        reply: HostReply,
        step: Step<UploadOneTimeKeys, Result<OlmAccount, String>>,
    | #[trigger]
        host::goes(rule, whole(f), reply, step) implies host::passes_on(
        inner_rule,
        whole,
        after,
        f,
        reply,
        step,
    ) by {
        let inner = choose|inner: Step<SaveAccount, Result<(), String>>|
            #![trigger f.moves(reply, inner)]
            f.moves(reply, inner) && inner.passes_to(
                step,
                |s: SaveAccount| UploadOneTimeKeys::Saving(account, s),
            ) && match inner {
                Step::Done(Ok(_)) => step.gives(Ok(account)),
                Step::Done(Err(e)) => step.gives(Err(e)),
                _ => true,
            };
        assert(host::goes(inner_rule, f, reply, inner));
        assert(inner matches Step::Done(r) ==> after(r, step));
    }
    let (k, ended, step) = host::inner_run_ends(
        inner_rule,
        rule,
        whole,
        after,
        save_call,
        save,
        calls,
        replies,
        last,
    );
    host::run_is_over(rule, step, calls.skip(k), replies.skip(k), last);
    assert(calls.take(k) =~= calls && replies.take(k) =~= replies);
    assert(ended->Ok_0 == ());
    account_is_saved(
        save,
        save_call,
        account@,
        device.user_id,
        device.device_id,
        true,
        count,
        calls,
        replies,
    )
}

/// Whether the account gets fresh one-time keys, by questions from the given one on: these are uploaded, and in
/// the end the account with them is saved, as one of this device with no key left to publish.
pub open spec fn gets_fresh_keys(
    calls: Seq<CallView>,
    replies: Seq<HostReply>,
    at: int,
    device: DeviceView,
    account: Seq<u8>,
    fresh: Seq<u8>,
    record: AccountView,
) -> bool {
    &&& olm::keys_generated(account, 10usize, fresh)
    &&& olm::same_identity(fresh, account)
    &&& publishes_keys(calls, at, fresh, device)
    &&& saves_account(calls, replies, calls.len() - 2, olm::published_account(fresh), record)
    &&& olm::unpublished_keys(olm::published_account(fresh)).dom().is_empty()
    &&& is_of_device(record, device)
}

/// Whether the account is saved by two questions, as one of this device with uploaded keys.
pub open spec fn is_saved(
    calls: Seq<CallView>,
    replies: Seq<HostReply>,
    at: int,
    device: DeviceView,
    account: Seq<u8>,
) -> bool {
    exists|record: AccountView| #[trigger]
        saves_account(calls, replies, at, account, record) && is_of_device(record, device)
}

/// The place of what follows the question for the server's count: where the server does not tell it, that is
/// logged first.
pub open spec fn after_count(replies: Seq<HostReply>, at: int) -> int {
    if is_taken(replies[at]) {
        at + 1
    } else {
        at + 2
    }
}

/// Whether the server is asked how many one-time keys it has, and where it has fewer than ten, gets fresh
/// ones, and else nothing more is done.
pub open spec fn is_topped_up(
    calls: Seq<CallView>,
    replies: Seq<HostReply>,
    at: int,
    device: DeviceView,
    account: Seq<u8>,
    stored_count: u32,
) -> bool {
    &&& 0 <= at < calls.len()
    &&& calls[at] == CallView::KeysUpload(
        client::keys_upload_request(device.homeserver_url, encode_utf8("{}"@)),
    )
    &&& told_count(replies[at], stored_count) < 10 ==> exists|
        fresh: Seq<u8>,
        record: AccountView,
    | #[trigger]
        gets_fresh_keys(
            calls,
            replies,
            after_count(replies, at),
            device,
            account,
            fresh,
            record,
        )
    &&& told_count(replies[at], stored_count) >= 10 ==> calls.len() == after_count(replies, at)
}

/// Whether the keys of an account are checked by the questions from the given one on: the device keys are
/// uploaded first where they were not, and then the one-time keys are topped up.
pub open spec fn keys_are_checked(
    calls: Seq<CallView>,
    replies: Seq<HostReply>,
    from: int,
    device: DeviceView,
    account: Seq<u8>,
    keys_uploaded: bool,
    stored_count: u32,
) -> bool {
    if keys_uploaded {
        is_topped_up(calls, replies, from, device, account, stored_count)
    } else {
        publishes_device(calls, replies, from, account, device) && is_saved(
            calls,
            replies,
            from + 1,
            device,
            account,
        ) && is_topped_up(calls, replies, from + 3, device, account, stored_count)
    }
}

proof fn no_keys_are_empty()
    ensures
        no_keys_upload() == "{}"@,
{
    reveal_strlit("{}");
    let none: Seq<(Seq<char>, Seq<char>)> = Seq::empty();
    assert(json::members_text(none) =~= Seq::empty());
    assert(json::object_text(none) =~= "{}"@);
}

proof fn fresh_keys_in_more(
    some_calls: Seq<CallView>,
    some_replies: Seq<HostReply>,
    device: DeviceView,
    account: Seq<u8>,
    fresh: Seq<u8>,
    record: AccountView,
    calls: Seq<CallView>,
    replies: Seq<HostReply>,
    n: int,
)
    requires
        gets_fresh_keys(some_calls, some_replies, 0, device, account, fresh, record),
        0 <= n <= calls.len() == replies.len(),
        some_calls == calls.skip(n),
        some_replies == replies.skip(n),
    ensures
        gets_fresh_keys(calls, replies, n, device, account, fresh, record),
{
    assert(some_calls[0] == calls[n]);
    saving_in_more(
        some_calls,
        some_replies,
        some_calls.len() - 2,
        olm::published_account(fresh),
        record,
        calls,
        replies,
        n,
    );
}

proof fn topping_up_gets_fresh_keys(
    call: HostCall,
    upload: UploadOneTimeKeys,
    device: DeviceView,
    account: Seq<u8>,
    calls: Seq<CallView>,
    replies: Seq<HostReply>,
) -> (r: (Seq<u8>, AccountView))
    requires
        upload.begins(call, device, account),
        host::runs(
            CheckOneTimeKeys::rule(),
            Step::Ask(call, CheckOneTimeKeys::Uploading(upload)),
            calls,
            replies,
            Step::Done(Ok(())),
        ),
    ensures
        calls.len() == replies.len(),
        gets_fresh_keys(calls, replies, 0, device, account, r.0, r.1),
{
    let rule = CheckOneTimeKeys::rule();
    let last: Step<CheckOneTimeKeys, Result<(), String>> = Step::Done(Ok(()));
    let inner_rule = UploadOneTimeKeys::rule();
    let whole = |u: UploadOneTimeKeys| CheckOneTimeKeys::Uploading(u);
    let after = |r: Result<OlmAccount, String>, step: Step<CheckOneTimeKeys, Result<(), String>>|
        match r {
            Ok(_) => step.gives(Ok(())),
            Err(e) => step.gives(Err(e)),
        };
    assert forall|
        f: UploadOneTimeKeys,
        reply: HostReply,
        step: Step<CheckOneTimeKeys, Result<(), String>>,
    | #[trigger]
        host::goes(rule, whole(f), reply, step) implies host::passes_on(
        inner_rule,
        whole,
        after,
        f,
        reply,
        step,
    ) by {
        let inner = choose|inner: Step<UploadOneTimeKeys, Result<OlmAccount, String>>|
            #![trigger f.moves(reply, inner)]
            f.moves(reply, inner) && inner.passes_to(
                step,
                |u: UploadOneTimeKeys| CheckOneTimeKeys::Uploading(u),
            ) && match inner {
                Step::Done(Ok(_)) => step.gives(Ok(())),
                Step::Done(Err(e)) => step.gives(Err(e)),
                _ => true,
            };
        assert(host::goes(inner_rule, f, reply, inner));
        assert(inner matches Step::Done(r) ==> after(r, step));
    }
    let (k, ended, step) = host::inner_run_ends(
        inner_rule,
        rule,
        whole,
        after,
        call,
        upload,
        calls,
        replies,
        last,
    );
    host::run_is_over(rule, step, calls.skip(k), replies.skip(k), last);
    assert(calls.take(k) =~= calls && replies.take(k) =~= replies);
    fresh_keys_are_uploaded(upload, call, device, account, calls, replies, ended->Ok_0)
}

proof fn counting_is_followed_up(
    flow: CheckOneTimeKeys,
    call: HostCall,
    device: DeviceView,
    account: OlmAccount,
    stored_count: u32,
    calls: Seq<CallView>,
    replies: Seq<HostReply>,
)
    requires
        flow.counts(call, device, account, stored_count),
        host::runs(
            CheckOneTimeKeys::rule(),
            Step::Ask(call, flow),
            calls,
            replies,
            Step::Done(Ok(())),
        ),
    ensures
        calls.len() == replies.len(),
        is_topped_up(calls, replies, 0, device, account@, stored_count),
{
    no_keys_are_empty();
    let rule = CheckOneTimeKeys::rule();
    let last: Step<CheckOneTimeKeys, Result<(), String>> = Step::Done(Ok(()));
    let s1 = host::run_goes_on(rule, Step::Ask(call, flow), calls, replies, last);
    let (c1, r1) = (calls.skip(1), replies.skip(1));
    if !(s1 is Ask) {
        host::run_is_over(rule, s1, c1, r1, last);
    }
    let (s, c, r, n) = if is_taken(replies[0]) {
        (s1, c1, r1, 1int)
    } else {
        let s2 = host::run_goes_on(rule, s1, c1, r1, last);
        assert(c1.skip(1) =~= calls.skip(2) && r1.skip(1) =~= replies.skip(2));
        (s2, calls.skip(2), replies.skip(2), 2int)
    };
    if !(s is Ask) {
        host::run_is_over(rule, s, c, r, last);
    }
    if told_count(replies[0], stored_count) < 10 {
        let (top_call, upload) = match s {
            Step::Ask(top_call, CheckOneTimeKeys::Uploading(upload)) => (top_call, upload),
            _ => arbitrary(),
        };
        let got = topping_up_gets_fresh_keys(top_call, upload, device, account@, c, r);
        fresh_keys_in_more(c, r, device, account@, got.0, got.1, calls, replies, n);
        assert(after_count(replies, 0) == n);
    }
}

/// A check of the keys of an account that succeeds leaves the server with enough: the device keys are uploaded
/// where they were not, and where the server has fewer than ten one-time keys, it gets fresh ones.
pub proof fn keys_are_topped_up(
    flow: CheckOneTimeKeys,
    call: HostCall,
    device: DeviceView,
    account: OlmAccount,
    keys_uploaded: bool,
    stored_count: u32,
    calls: Seq<CallView>,
    replies: Seq<HostReply>,
)
    requires
        flow.begins(call, device, account, keys_uploaded, stored_count),
        host::runs(
            CheckOneTimeKeys::rule(),
            Step::Ask(call, flow),
            calls,
            replies,
            Step::Done(Ok(())),
        ),
    ensures
        calls.len() == replies.len(),
        keys_are_checked(calls, replies, 0, device, account@, keys_uploaded, stored_count),
{
    if keys_uploaded {
        counting_is_followed_up(flow, call, device, account, stored_count, calls, replies);
    } else {
        device_keys_come_first(flow, call, device, account, stored_count, calls, replies);
    }
}

proof fn device_keys_come_first(
    flow: CheckOneTimeKeys,
    call: HostCall,
    device: DeviceView,
    account: OlmAccount,
    stored_count: u32,
    calls: Seq<CallView>,
    replies: Seq<HostReply>,
)
    requires
        flow.begins(call, device, account, false, stored_count),
        host::runs(
            CheckOneTimeKeys::rule(),
            Step::Ask(call, flow),
            calls,
            replies,
            Step::Done(Ok(())),
        ),
    ensures
        calls.len() == replies.len(),
        publishes_device(calls, replies, 0, account@, device),
        is_saved(calls, replies, 1, device, account@),
        is_topped_up(calls, replies, 3, device, account@, stored_count),
{
    let last: Step<CheckOneTimeKeys, Result<(), String>> = Step::Done(Ok(()));
    let (d, upload) = match flow {
        CheckOneTimeKeys::DeviceKeys(d, _, upload) => (d, upload),
        _ => arbitrary(),
    };
    let (k, ended, step) = device_keys_end(d, stored_count, upload, call, calls, replies);
    let (c, r) = (calls.skip(k), replies.skip(k));
    if ended is Err {
        host::run_is_over(CheckOneTimeKeys::rule(), step, c, r, last);
    }
    let (c0, r0) = (calls.take(k), replies.take(k));
    let record = device_keys_are_uploaded(upload, call, device, account, c0, r0, ended->Ok_0);
    assert(c0[0] == calls[0] && r0[0] == replies[0]);
    saving_in_more(c0, r0, 1, account@, record, calls, replies, 0);
    counting_is_followed_up(step->Ask_1, step->Ask_0, device, account, stored_count, c, r);
    topping_up_in_more(c, r, 0, device, account@, stored_count, calls, replies, 3);
}

proof fn device_keys_end(
    d: Device,
    stored_count: u32,
    upload: UploadDeviceKeys,
    call: HostCall,
    calls: Seq<CallView>,
    replies: Seq<HostReply>,
) -> (r: (int, Result<OlmAccount, String>, Step<CheckOneTimeKeys, Result<(), String>>))
    requires
        host::runs(
            CheckOneTimeKeys::rule(),
            Step::Ask(call, CheckOneTimeKeys::DeviceKeys(d, stored_count, upload)),
            calls,
            replies,
            Step::Done(Ok(())),
        ),
    ensures
        0 < r.0 <= calls.len(),
        calls.len() == replies.len(),
        host::runs(
            UploadDeviceKeys::rule(),
            Step::Ask(call, upload),
            calls.take(r.0),
            replies.take(r.0),
            Step::Done(r.1),
        ),
        match r.1 {
            Ok(a) => r.2 matches Step::Ask(c, next) && next.counts(c, d@, a, stored_count),
            Err(e) => r.2.gives(Err(e)),
        },
        host::runs(
            CheckOneTimeKeys::rule(),
            r.2,
            calls.skip(r.0),
            replies.skip(r.0),
            Step::Done(Ok(())),
        ),
{
    let rule = CheckOneTimeKeys::rule();
    let last: Step<CheckOneTimeKeys, Result<(), String>> = Step::Done(Ok(()));
    let inner_rule = UploadDeviceKeys::rule();
    let whole = |u: UploadDeviceKeys| CheckOneTimeKeys::DeviceKeys(d, stored_count, u);
    let after = |r: Result<OlmAccount, String>, step: Step<CheckOneTimeKeys, Result<(), String>>|
        match r {
            Ok(a) => step matches Step::Ask(c, next) && next.counts(c, d@, a, stored_count),
            Err(e) => step.gives(Err(e)),
        };
    assert forall|
        f: UploadDeviceKeys,
        reply: HostReply,
        step: Step<CheckOneTimeKeys, Result<(), String>>,
    | #[trigger]
        host::goes(rule, whole(f), reply, step) implies host::passes_on(
        inner_rule,
        whole,
        after,
        f,
        reply,
        step,
    ) by {
        let inner = choose|inner: Step<UploadDeviceKeys, Result<OlmAccount, String>>|
            #![trigger f.moves(reply, inner)]
            f.moves(reply, inner) && inner.passes_to(
                step,
                |u: UploadDeviceKeys| CheckOneTimeKeys::DeviceKeys(d, stored_count, u),
            ) && match inner {
                Step::Done(Ok(account)) => step matches Step::Ask(call, next) && next.counts(
                    call,
                    d@,
                    account,
                    stored_count,
                ),
                Step::Done(Err(e)) => step.gives(Err(e)),
                _ => true,
            };
        assert(host::goes(inner_rule, f, reply, inner));
        assert(inner matches Step::Done(r) ==> after(r, step));
    }
    host::inner_run_ends(inner_rule, rule, whole, after, call, upload, calls, replies, last)
}

proof fn topping_up_in_more(
    some_calls: Seq<CallView>,
    some_replies: Seq<HostReply>,
    at: int,
    device: DeviceView,
    account: Seq<u8>,
    stored_count: u32,
    calls: Seq<CallView>,
    replies: Seq<HostReply>,
    n: int,
)
    requires
        is_topped_up(some_calls, some_replies, at, device, account, stored_count),
        0 <= n <= calls.len() == replies.len(),
        some_calls == calls.skip(n),
        some_replies == replies.skip(n),
    ensures
        is_topped_up(calls, replies, n + at, device, account, stored_count),
{
    assert(some_calls[at] == calls[n + at]);
    assert(some_replies[at] == replies[n + at]);
    if told_count(replies[n + at], stored_count) < 10 {
        let next = after_count(some_replies, at);
        assert(after_count(replies, n + at) == n + next);
        let (fresh, record) = choose|fresh: Seq<u8>, record: AccountView| #[trigger]
            gets_fresh_keys(some_calls, some_replies, next, device, account, fresh, record);
        assert(some_calls[next] == calls[n + next]);
        saving_in_more(
            some_calls,
            some_replies,
            some_calls.len() - 2,
            olm::published_account(fresh),
            record,
            calls,
            replies,
            n,
        );
        assert(gets_fresh_keys(calls, replies, n + next, device, account, fresh, record));
    }
}

proof fn checking_ends(
    flow: CheckOneTimeKeys,
    call: HostCall,
    calls: Seq<CallView>,
    replies: Seq<HostReply>,
) -> (r: (int, Result<(), String>, Step<InitCrypto, Result<(), String>>))
    requires
        host::runs(
            InitCrypto::rule(),
            Step::Ask(call, InitCrypto::Checking(flow)),
            calls,
            replies,
            Step::Done(Ok(())),
        ),
    ensures
        0 < r.0 <= calls.len(),
        calls.len() == replies.len(),
        host::runs(
            CheckOneTimeKeys::rule(),
            Step::Ask(call, flow),
            calls.take(r.0),
            replies.take(r.0),
            Step::Done(r.1),
        ),
        r.2.gives(r.1),
        host::runs(
            InitCrypto::rule(),
            r.2,
            calls.skip(r.0),
            replies.skip(r.0),
            Step::Done(Ok(())),
        ),
{
    let rule = InitCrypto::rule();
    let last: Step<InitCrypto, Result<(), String>> = Step::Done(Ok(()));
    let inner_rule = CheckOneTimeKeys::rule();
    let whole = |u: CheckOneTimeKeys| InitCrypto::Checking(u);
    let after = |r: Result<(), String>, step: Step<InitCrypto, Result<(), String>>|
        step.gives(r);
    assert forall|f: CheckOneTimeKeys, reply: HostReply, step: Step<InitCrypto, Result<(), String>>| #[trigger]
        host::goes(rule, whole(f), reply, step) implies host::passes_on(
        inner_rule,
        whole,
        after,
        f,
        reply,
        step,
    ) by {
        let inner = choose|inner: Step<CheckOneTimeKeys, Result<(), String>>|
            #![trigger f.moves(reply, inner)]
            f.moves(reply, inner) && inner.passes_to(
                step,
                |u: CheckOneTimeKeys| InitCrypto::Checking(u),
            ) && (inner matches Step::Done(r) ==> step.gives(r));
        assert(host::goes(inner_rule, f, reply, inner));
        assert(inner matches Step::Done(r) ==> after(r, step));
    }
    host::inner_run_ends(inner_rule, rule, whole, after, call, flow, calls, replies, last)
}

proof fn last_saving_ends(
    flow: SaveAccount,
    call: HostCall,
    calls: Seq<CallView>,
    replies: Seq<HostReply>,
) -> (r: (int, Result<(), String>, Step<InitCrypto, Result<(), String>>))
    requires
        host::runs(
            InitCrypto::rule(),
            Step::Ask(call, InitCrypto::Saving(flow)),
            calls,
            replies,
            Step::Done(Ok(())),
        ),
    ensures
        0 < r.0 <= calls.len(),
        calls.len() == replies.len(),
        host::runs(
            SaveAccount::rule(),
            Step::Ask(call, flow),
            calls.take(r.0),
            replies.take(r.0),
            Step::Done(r.1),
        ),
        r.2.gives(r.1),
        host::runs(
            InitCrypto::rule(),
            r.2,
            calls.skip(r.0),
            replies.skip(r.0),
            Step::Done(Ok(())),
        ),
{
    let rule = InitCrypto::rule();
    let last: Step<InitCrypto, Result<(), String>> = Step::Done(Ok(()));
    let inner_rule = SaveAccount::rule();
    let whole = |u: SaveAccount| InitCrypto::Saving(u);
    let after = |r: Result<(), String>, step: Step<InitCrypto, Result<(), String>>|
        step.gives(r);
    assert forall|f: SaveAccount, reply: HostReply, step: Step<InitCrypto, Result<(), String>>| #[trigger]
        host::goes(rule, whole(f), reply, step) implies host::passes_on(
        inner_rule,
        whole,
        after,
        f,
        reply,
        step,
    ) by {
        let inner = choose|inner: Step<SaveAccount, Result<(), String>>|
            #![trigger f.moves(reply, inner)]
            f.moves(reply, inner) && inner.passes_to(
                step,
                |u: SaveAccount| InitCrypto::Saving(u),
            ) && (inner matches Step::Done(r) ==> step.gives(r));
        assert(host::goes(inner_rule, f, reply, inner));
        assert(inner matches Step::Done(r) ==> after(r, step));
    }
    host::inner_run_ends(inner_rule, rule, whole, after, call, flow, calls, replies, last)
}

proof fn new_device_ends(
    device: Device,
    flow: UploadDeviceKeys,
    call: HostCall,
    calls: Seq<CallView>,
    replies: Seq<HostReply>,
) -> (r: (int, Result<OlmAccount, String>, Step<InitCrypto, Result<(), String>>))
    requires
        host::runs(
            InitCrypto::rule(),
            Step::Ask(call, InitCrypto::NewDevice(device, flow)),
            calls,
            replies,
            Step::Done(Ok(())),
        ),
    ensures
        0 < r.0 <= calls.len(),
        calls.len() == replies.len(),
        host::runs(
            UploadDeviceKeys::rule(),
            Step::Ask(call, flow),
            calls.take(r.0),
            replies.take(r.0),
            Step::Done(r.1),
        ),
        match r.1 {
            Ok(account) => r.2 matches Step::Ask(c, InitCrypto::NewKeys(d, keys)) && d@ == device@
                && keys.begins(c, device@, account@),
            Err(e) => r.2.gives(Err(e)),
        },
        host::runs(
            InitCrypto::rule(),
            r.2,
            calls.skip(r.0),
            replies.skip(r.0),
            Step::Done(Ok(())),
        ),
{
    let rule = InitCrypto::rule();
    let last: Step<InitCrypto, Result<(), String>> = Step::Done(Ok(()));
    let inner_rule = UploadDeviceKeys::rule();
    let whole = |u: UploadDeviceKeys| InitCrypto::NewDevice(device, u);
    let after = |r: Result<OlmAccount, String>, step: Step<InitCrypto, Result<(), String>>|
        match r {
            Ok(account) => step matches Step::Ask(c, InitCrypto::NewKeys(d, keys)) && d@ == device@
                && keys.begins(c, device@, account@),
            Err(e) => step.gives(Err(e)),
        };
    assert forall|f: UploadDeviceKeys, reply: HostReply, step: Step<InitCrypto, Result<(), String>>| #[trigger]
        host::goes(rule, whole(f), reply, step) implies host::passes_on(
        inner_rule,
        whole,
        after,
        f,
        reply,
        step,
    ) by {
        let inner = choose|inner: Step<UploadDeviceKeys, Result<OlmAccount, String>>|
            #![trigger f.moves(reply, inner)]
            f.moves(reply, inner) && inner.passes_to(
                step,
                |u: UploadDeviceKeys| InitCrypto::NewDevice(device, u),
            ) && match inner {
                Step::Done(Ok(account)) => step matches Step::Ask(
                    call,
                    InitCrypto::NewKeys(d, keys),
                ) && d@ == device@ && keys.begins(call, device@, account@),
                Step::Done(Err(e)) => step.gives(Err(e)),
                _ => true,
            };
        assert(host::goes(inner_rule, f, reply, inner));
        assert(inner matches Step::Done(r) ==> after(r, step));
    }
    host::inner_run_ends(inner_rule, rule, whole, after, call, flow, calls, replies, last)
}

proof fn new_keys_end(
    device: Device,
    flow: UploadOneTimeKeys,
    call: HostCall,
    calls: Seq<CallView>,
    replies: Seq<HostReply>,
) -> (r: (int, Result<OlmAccount, String>, Step<InitCrypto, Result<(), String>>))
    requires
        host::runs(
            InitCrypto::rule(),
            Step::Ask(call, InitCrypto::NewKeys(device, flow)),
            calls,
            replies,
            Step::Done(Ok(())),
        ),
    ensures
        0 < r.0 <= calls.len(),
        calls.len() == replies.len(),
        host::runs(
            UploadOneTimeKeys::rule(),
            Step::Ask(call, flow),
            calls.take(r.0),
            replies.take(r.0),
            Step::Done(r.1),
        ),
        match r.1 {
            Ok(account) => r.2 matches Step::Ask(c, InitCrypto::Saving(save)) && save.begins(
                c,
                account@,
                device.user_id@,
                device.device_id@,
                true,
                0,
            ),
            Err(e) => r.2.gives(Err(e)),
        },
        host::runs(
            InitCrypto::rule(),
            r.2,
            calls.skip(r.0),
            replies.skip(r.0),
            Step::Done(Ok(())),
        ),
{
    let rule = InitCrypto::rule();
    let last: Step<InitCrypto, Result<(), String>> = Step::Done(Ok(()));
    let inner_rule = UploadOneTimeKeys::rule();
    let whole = |u: UploadOneTimeKeys| InitCrypto::NewKeys(device, u);
    let after = |r: Result<OlmAccount, String>, step: Step<InitCrypto, Result<(), String>>|
        match r {
            Ok(account) => step matches Step::Ask(c, InitCrypto::Saving(save)) && save.begins(
                c,
                account@,
                device.user_id@,
                device.device_id@,
                true,
                0,
            ),
            Err(e) => step.gives(Err(e)),
        };
    assert forall|f: UploadOneTimeKeys, reply: HostReply, step: Step<InitCrypto, Result<(), String>>| #[trigger]
        host::goes(rule, whole(f), reply, step) implies host::passes_on(
        inner_rule,
        whole,
        after,
        f,
        reply,
        step,
    ) by {
        let inner = choose|inner: Step<UploadOneTimeKeys, Result<OlmAccount, String>>|
            #![trigger f.moves(reply, inner)]
            f.moves(reply, inner) && inner.passes_to(
                step,
                |u: UploadOneTimeKeys| InitCrypto::NewKeys(device, u),
            ) && match inner {
                Step::Done(Ok(account)) => step matches Step::Ask(
                    call,
                    InitCrypto::Saving(save),
                ) && save.begins(
                    call,
                    account@,
                    device.user_id@,
                    device.device_id@,
                    true,
                    0,
                ),
                Step::Done(Err(e)) => step.gives(Err(e)),
                _ => true,
            };
        assert(host::goes(inner_rule, f, reply, inner));
        assert(inner matches Step::Done(r) ==> after(r, step));
    }
    host::inner_run_ends(inner_rule, rule, whole, after, call, flow, calls, replies, last)
}

/// The device that /whoami tells, if it tells one.
pub open spec fn told_device(reply: HostReply) -> Option<Seq<char>> {
    match reply {
        HostReply::Whoami(Ok(p)) => match p.parsed {
            Ok(who) => match who.device_id {
                Some(id) => if p.response.status == 200 && id@.len() > 0 {
                    Some(id@)
                } else {
                    None
                },
                None => None,
            },
            Err(_) => None,
        },
        _ => None,
    }
}

/// Whether a new account is set up for a device by the questions from the given one on: its device keys are
/// uploaded and it is saved, and then it gets its first one-time keys.
pub open spec fn is_set_up(
    calls: Seq<CallView>,
    replies: Seq<HostReply>,
    at: int,
    device: DeviceView,
    account: Seq<u8>,
) -> bool {
    &&& olm::is_account(account)
    &&& publishes_device(calls, replies, at, account, device)
    &&& is_saved(calls, replies, at + 1, device, account)
    &&& exists|fresh: Seq<u8>, record: AccountView, from: int|
        from == at + 3 && #[trigger] gets_fresh_keys(
            calls,
            replies,
            from,
            device,
            account,
            fresh,
            record,
        )
}

/// Whether a stored account is used by the questions from the given one on: it is read and opened, and its keys
/// are checked.
pub open spec fn is_reused(
    calls: Seq<CallView>,
    replies: Seq<HostReply>,
    at: int,
    homeserver_url: Seq<char>,
    stored: StoredAccount,
) -> bool {
    &&& 0 <= at
    &&& at + 1 < calls.len()
    &&& calls[at] == CallView::ReadAccount("crypto/account.json"@)
    &&& replies[at] matches HostReply::Account(Some(again))
    &&& calls[at + 1] matches CallView::Decrypt(sealed)
    &&& crypto_store::unsealed_bytes(again.pickled_account@) == Ok::<Seq<u8>, Seq<char>>(sealed)
    &&& replies[at + 1] matches HostReply::Bytes(Ok(bytes))
    &&& olm::account_pickle(bytes@) matches Ok(account)
    &&& keys_are_checked(
        calls,
        replies,
        at + 2,
        DeviceView { homeserver_url, user_id: stored.user_id@, device_id: stored.device_id@ },
        account,
        stored.keys_uploaded,
        stored.uploaded_key_count,
    )
}

proof fn checking_in_more(
    some_calls: Seq<CallView>,
    some_replies: Seq<HostReply>,
    device: DeviceView,
    account: Seq<u8>,
    keys_uploaded: bool,
    stored_count: u32,
    calls: Seq<CallView>,
    replies: Seq<HostReply>,
    n: int,
)
    requires
        keys_are_checked(
            some_calls,
            some_replies,
            0,
            device,
            account,
            keys_uploaded,
            stored_count,
        ),
        0 <= n <= calls.len() == replies.len(),
        some_calls == calls.skip(n),
        some_replies == replies.skip(n),
    ensures
        keys_are_checked(calls, replies, n, device, account, keys_uploaded, stored_count),
{
    if keys_uploaded {
        topping_up_in_more(
            some_calls,
            some_replies,
            0,
            device,
            account,
            stored_count,
            calls,
            replies,
            n,
        );
    } else {
        assert(some_calls[0] == calls[n] && some_replies[0] == replies[n]);
        let record = choose|record: AccountView| #[trigger]
            saves_account(some_calls, some_replies, 1, account, record) && is_of_device(
                record,
                device,
            );
        saving_in_more(some_calls, some_replies, 1, account, record, calls, replies, n);
        topping_up_in_more(
            some_calls,
            some_replies,
            3,
            device,
            account,
            stored_count,
            calls,
            replies,
            n,
        );
    }
}

proof fn new_account_is_set_up(
    device: Device,
    first: Step<InitCrypto, Result<(), String>>,
    calls: Seq<CallView>,
    replies: Seq<HostReply>,
) -> (account: Seq<u8>)
    requires
        InitCrypto::renews(device, first),
        host::runs(InitCrypto::rule(), first, calls, replies, Step::Done(Ok(()))),
    ensures
        calls.len() == replies.len(),
        is_set_up(calls, replies, 0, device@, account),
{
    let rule = InitCrypto::rule();
    let last: Step<InitCrypto, Result<(), String>> = Step::Done(Ok(()));
    let (call, d, upload) = match first {
        Step::Ask(call, InitCrypto::NewDevice(d, upload)) => (call, d, upload),
        _ => arbitrary(),
    };
    let account = choose|account: OlmAccount|
        #![trigger upload.begins(call, device@, account)]
        olm::is_account(account@) && upload.begins(call, device@, account);
    let (k, ended, s1) = new_device_ends(d, upload, call, calls, replies);
    let (c1, r1) = (calls.skip(k), replies.skip(k));
    if ended is Err {
        host::run_is_over(rule, s1, c1, r1, last);
    }
    let (c0, r0) = (calls.take(k), replies.take(k));
    let first_record = device_keys_are_uploaded(
        upload,
        call,
        device@,
        account,
        c0,
        r0,
        ended->Ok_0,
    );
    assert(c0[0] == calls[0] && r0[0] == replies[0]);
    saving_in_more(c0, r0, 1, account@, first_record, calls, replies, 0);
    assert(saves_account(calls, replies, 0int + 1, account@, first_record));
    let (keys_call, d1, keys) = match s1 {
        Step::Ask(keys_call, InitCrypto::NewKeys(d1, keys)) => (keys_call, d1, keys),
        _ => arbitrary(),
    };
    let (m, uploaded, s2) = new_keys_end(d1, keys, keys_call, c1, r1);
    let (c2, r2) = (c1.skip(m), r1.skip(m));
    if uploaded is Err {
        host::run_is_over(rule, s2, c2, r2, last);
    }
    let result = uploaded->Ok_0;
    let (ck, rk) = (c1.take(m), r1.take(m));
    let (fresh, _) = fresh_keys_are_uploaded(keys, keys_call, device@, account@, ck, rk, result);
    assert(ck[0] == calls[3]);
    let (save_call, save) = match s2 {
        Step::Ask(save_call, InitCrypto::Saving(save)) => (save_call, save),
        _ => arbitrary(),
    };
    let (l, saved, s3) = last_saving_ends(save, save_call, c2, r2);
    host::run_is_over(rule, s3, c2.skip(l), r2.skip(l), last);
    assert(c2.take(l) =~= c2 && r2.take(l) =~= r2);
    assert(saved->Ok_0 == ());
    let record = account_is_saved(
        save,
        save_call,
        result@,
        device.user_id@,
        device.device_id@,
        true,
        0,
        c2,
        r2,
    );
    saving_in_more(c2, r2, 0, result@, record, calls, replies, 3 + m);
    assert(gets_fresh_keys(calls, replies, 3, device@, account@, fresh, record));
    account@
}

proof fn set_up_in_more(
    some_calls: Seq<CallView>,
    some_replies: Seq<HostReply>,
    device: DeviceView,
    account: Seq<u8>,
    calls: Seq<CallView>,
    replies: Seq<HostReply>,
    n: int,
)
    requires
        is_set_up(some_calls, some_replies, 0, device, account),
        0 <= n <= calls.len() == replies.len(),
        some_calls == calls.skip(n),
        some_replies == replies.skip(n),
    ensures
        is_set_up(calls, replies, n, device, account),
{
    assert(some_calls[0] == calls[n] && some_replies[0] == replies[n]);
    let first = choose|record: AccountView| #[trigger]
        saves_account(some_calls, some_replies, 0int + 1, account, record) && is_of_device(
            record,
            device,
        );
    saving_in_more(some_calls, some_replies, 1, account, first, calls, replies, n);
    assert(is_saved(calls, replies, n + 1, device, account));
    let (fresh, record, from) = choose|fresh: Seq<u8>, record: AccountView, from: int|
        from == 0int + 3 && #[trigger] gets_fresh_keys(
            some_calls,
            some_replies,
            from,
            device,
            account,
            fresh,
            record,
        );
    assert(some_calls[from] == calls[n + from]);
    saving_in_more(
        some_calls,
        some_replies,
        some_calls.len() - 2,
        olm::published_account(fresh),
        record,
        calls,
        replies,
        n,
    );
    assert(gets_fresh_keys(calls, replies, n + from, device, account, fresh, record));
}

/// An initialization of E2EE that succeeds has recorded the device of the session, the one that /whoami tells or
/// else the configured one. The stored account, if it is one of this device, is then used on; in any other case
/// a new account is set up for the device. The result tells where the device is recorded, and the new account.
pub proof fn initialization_readies_the_device(
    flow: InitCrypto,
    call: HostCall,
    homeserver_url: Seq<char>,
    user_id: Seq<char>,
    config_hint: Seq<char>,
    calls: Seq<CallView>,
    replies: Seq<HostReply>,
) -> (r: (int, Seq<u8>))
    requires
        flow.begins(call, homeserver_url, user_id, config_hint),
        host::runs(InitCrypto::rule(), Step::Ask(call, flow), calls, replies, Step::Done(Ok(()))),
    ensures
        calls.len() == replies.len(),
        calls[0] == CallView::Whoami(client::whoami_request(homeserver_url)),
        1 <= r.0 <= 2,
        r.0 + 2 < calls.len(),
        ({
            let id = match told_device(replies[0]) {
                Some(id) => id,
                None => config_hint,
            };
            let device = DeviceView { homeserver_url, user_id, device_id: id };
            &&& id.len() > 0
            &&& calls[r.0] == CallView::WriteAll(seq![("state/device_id"@, id)])
            &&& calls[r.0 + 1] == CallView::ReadAccount("crypto/account.json"@)
            &&& replies[r.0 + 1] matches HostReply::Account(stored)
            &&& match stored {
                Some(account) => if account.device_id@ == id {
                    is_reused(calls, replies, r.0 + 2, homeserver_url, account)
                } else {
                    calls[r.0 + 2] is Log && is_set_up(calls, replies, r.0 + 3, device, r.1)
                },
                None => is_set_up(calls, replies, r.0 + 2, device, r.1),
            }
        }),
{
    let rule = InitCrypto::rule();
    let last: Step<InitCrypto, Result<(), String>> = Step::Done(Ok(()));
    let s1 = host::run_goes_on(rule, Step::Ask(call, flow), calls, replies, last);
    let (c1, r1) = (calls.skip(1), replies.skip(1));
    if !(s1 is Ask) {
        host::run_is_over(rule, s1, c1, r1, last);
    }
    if s1->Ask_1 is Warning {
        let s2 = host::run_goes_on(rule, s1, c1, r1, last);
        let (c2, r2) = (calls.skip(2), replies.skip(2));
        assert(c1.skip(1) =~= c2 && r1.skip(1) =~= r2);
        if !(s2 is Ask) {
            host::run_is_over(rule, s2, c2, r2, last);
        }
        let account = recorded_device_is_readied(s2, calls, replies, 2);
        (2, account)
    } else {
        let account = recorded_device_is_readied(s1, calls, replies, 1);
        (1, account)
    }
}

proof fn recorded_device_is_readied(
    first: Step<InitCrypto, Result<(), String>>,
    calls: Seq<CallView>,
    replies: Seq<HostReply>,
    at: int,
) -> (account: Seq<u8>)
    requires
        first matches Step::Ask(_, InitCrypto::Recording(_)),
        0 <= at <= calls.len() == replies.len(),
        host::runs(
            InitCrypto::rule(),
            first,
            calls.skip(at),
            replies.skip(at),
            Step::Done(Ok(())),
        ),
    ensures
        at + 2 < calls.len(),
        calls[at] == first->Ask_0@,
        first matches Step::Ask(_, InitCrypto::Recording(d)) && calls[at + 1]
            == CallView::ReadAccount("crypto/account.json"@) && (replies[at + 1] matches HostReply::Account(
            stored,
        ) && match stored {
            Some(old) => if old.device_id@ == d.device_id@ {
                is_reused(calls, replies, at + 2, d.homeserver_url@, old)
            } else {
                calls[at + 2] is Log && is_set_up(calls, replies, at + 3, d@, account)
            },
            None => is_set_up(calls, replies, at + 2, d@, account),
        }),
{
    let rule = InitCrypto::rule();
    let last: Step<InitCrypto, Result<(), String>> = Step::Done(Ok(()));
    let (c0, r0) = (calls.skip(at), replies.skip(at));
    let s1 = host::run_goes_on(rule, first, c0, r0, last);
    let (c1, r1) = (calls.skip(at + 1), replies.skip(at + 1));
    assert(c0.skip(1) =~= c1 && r0.skip(1) =~= r1);
    if !(s1 is Ask) {
        host::run_is_over(rule, s1, c1, r1, last);
    }
    let s2 = host::run_goes_on(rule, s1, c1, r1, last);
    let (c2, r2) = (calls.skip(at + 2), replies.skip(at + 2));
    assert(c1.skip(1) =~= c2 && r1.skip(1) =~= r2);
    if !(s2 is Ask) {
        host::run_is_over(rule, s2, c2, r2, last);
    }
    if s2 is Stray {
        host::run_is_over(rule, s2, c2, r2, last);
    }
    let d = match first {
        Step::Ask(_, InitCrypto::Recording(d)) => d,
        _ => arbitrary(),
    };
    let stored = r1[0]->Account_0;
    if stored is None {
        let account = new_account_is_set_up(d, s2, c2, r2);
        set_up_in_more(c2, r2, d@, account, calls, replies, at + 2);
        account
    } else {
        let s3 = host::run_goes_on(rule, s2, c2, r2, last);
        let (c3, r3) = (calls.skip(at + 3), replies.skip(at + 3));
        assert(c2.skip(1) =~= c3 && r2.skip(1) =~= r3);
        if !(s3 is Ask) {
            host::run_is_over(rule, s3, c3, r3, last);
        }
        if stored->0.device_id@ != d.device_id@ {
            let account = new_account_is_set_up(d, s3, c3, r3);
            set_up_in_more(c3, r3, d@, account, calls, replies, at + 3);
            account
        } else {
            let s4 = host::run_goes_on(rule, s3, c3, r3, last);
            let (c4, r4) = (calls.skip(at + 4), replies.skip(at + 4));
            assert(c3.skip(1) =~= c4 && r3.skip(1) =~= r4);
            if !(s4 is Ask) {
                host::run_is_over(rule, s4, c4, r4, last);
            }
            stored_account_is_reused(d, stored->0, s4, r3[0]->Bytes_0, calls, replies, at + 4);
            Seq::empty()
        }
    }
}

proof fn stored_account_is_reused(
    d: Device,
    stored: StoredAccount,
    first: Step<InitCrypto, Result<(), String>>,
    decrypted: Result<Vec<u8>, String>,
    calls: Seq<CallView>,
    replies: Seq<HostReply>,
    at: int,
)
    requires
        first is Ask,
        InitCrypto::Unsealing(d, stored).moves(HostReply::Bytes(decrypted), first),
        0 <= at <= calls.len() == replies.len(),
        host::runs(
            InitCrypto::rule(),
            first,
            calls.skip(at),
            replies.skip(at),
            Step::Done(Ok(())),
        ),
    ensures
        decrypted matches Ok(bytes) && (olm::account_pickle(bytes@) matches Ok(account)
            && keys_are_checked(
            calls,
            replies,
            at,
            stored_device(d.homeserver_url@, stored),
            account,
            stored.keys_uploaded,
            stored.uploaded_key_count,
        )),
{
    let rule = InitCrypto::rule();
    let last: Step<InitCrypto, Result<(), String>> = Step::Done(Ok(()));
    let (call, check) = match first {
        Step::Ask(call, InitCrypto::Checking(check)) => (call, check),
        _ => arbitrary(),
    };
    let device = stored_device(d.homeserver_url@, stored);
    let account = choose|account: OlmAccount|
        #![trigger check.begins(
            call,
            device,
            account,
            stored.keys_uploaded,
            stored.uploaded_key_count,
        )]
        account@ == olm::account_pickle(decrypted->Ok_0@)->Ok_0 && check.begins(
            call,
            device,
            account,
            stored.keys_uploaded,
            stored.uploaded_key_count,
        );
    let (c, r) = (calls.skip(at), replies.skip(at));
    let (k, ended, step) = checking_ends(check, call, c, r);
    host::run_is_over(rule, step, c.skip(k), r.skip(k), last);
    assert(c.take(k) =~= c && r.take(k) =~= r);
    assert(ended->Ok_0 == ());
    keys_are_topped_up(
        check,
        call,
        device,
        account,
        stored.keys_uploaded,
        stored.uploaded_key_count,
        c,
        r,
    );
    checking_in_more(
        c,
        r,
        device,
        account@,
        stored.keys_uploaded,
        stored.uploaded_key_count,
        calls,
        replies,
        at,
    );
}

/// The saving of an account fails only where the host does not encrypt or write it.
pub proof fn saving_fails_with_the_host(flow: SaveAccount, reply: HostReply, e: String)
    requires
        flow.moves(reply, Step::Done(Err(e))),
    ensures
        host::is_setback(reply),
{
}

/// The upload of device keys fails only where the server does not take them, or the host does not save the
/// account.
pub proof fn device_keys_fail_with_cause(flow: UploadDeviceKeys, reply: HostReply, e: String)
    requires
        flow.moves(reply, Step::Done(Err(e))),
    ensures
        host::is_setback(reply),
{
    if let UploadDeviceKeys::Saving(account, save) = flow {
        let step: Step<UploadDeviceKeys, Result<OlmAccount, String>> = Step::Done(Err(e));
        let inner = choose|inner: Step<SaveAccount, Result<(), String>>|
            #![trigger save.moves(reply, inner)]
            save.moves(reply, inner) && inner.passes_to(
                step,
                |s: SaveAccount| UploadDeviceKeys::Saving(account, s),
            ) && match inner {
                Step::Done(Ok(_)) => step.gives(Ok(account)),
                Step::Done(Err(e)) => step.gives(Err(e)),
                _ => true,
            };
        saving_fails_with_the_host(save, reply, e);
    }
}

/// The upload of one-time keys fails only where the server does not take them, or the host does not save the
/// account.
pub proof fn one_time_keys_fail_with_cause(flow: UploadOneTimeKeys, reply: HostReply, e: String)
    requires
        flow.moves(reply, Step::Done(Err(e))),
    ensures
        host::is_setback(reply),
{
    if let UploadOneTimeKeys::Saving(account, save) = flow {
        let step: Step<UploadOneTimeKeys, Result<OlmAccount, String>> = Step::Done(Err(e));
        let inner = choose|inner: Step<SaveAccount, Result<(), String>>|
            #![trigger save.moves(reply, inner)]
            save.moves(reply, inner) && inner.passes_to(
                step,
                |s: SaveAccount| UploadOneTimeKeys::Saving(account, s),
            ) && match inner {
                Step::Done(Ok(_)) => step.gives(Ok(account)),
                Step::Done(Err(e)) => step.gives(Err(e)),
                _ => true,
            };
        saving_fails_with_the_host(save, reply, e);
    }
}

/// The check of the keys fails only where the server does not take keys, or the host does not save the account;
/// that the server does not tell its count is no failure.
pub proof fn checking_fails_with_cause(flow: CheckOneTimeKeys, reply: HostReply, e: String)
    requires
        flow.moves(reply, Step::Done(Err(e))),
    ensures
        host::is_setback(reply),
        !(flow is Counting),
{
    let step: Step<CheckOneTimeKeys, Result<(), String>> = Step::Done(Err(e));
    match flow {
        CheckOneTimeKeys::DeviceKeys(device, count, upload) => {
            let inner = choose|inner: Step<UploadDeviceKeys, Result<OlmAccount, String>>|
                #![trigger upload.moves(reply, inner)]
                upload.moves(reply, inner) && inner.passes_to(
                    step,
                    |u: UploadDeviceKeys| CheckOneTimeKeys::DeviceKeys(device, count, u),
                ) && match inner {
                    Step::Done(Ok(account)) => step matches Step::Ask(call, next) && next.counts(
                        call,
                        device@,
                        account,
                        count,
                    ),
                    Step::Done(Err(e)) => step.gives(Err(e)),
                    _ => true,
                };
            device_keys_fail_with_cause(upload, reply, e);
        },
        CheckOneTimeKeys::Uploading(upload) => {
            let inner = choose|inner: Step<UploadOneTimeKeys, Result<OlmAccount, String>>|
                #![trigger upload.moves(reply, inner)]
                upload.moves(reply, inner) && inner.passes_to(
                    step,
                    |u: UploadOneTimeKeys| CheckOneTimeKeys::Uploading(u),
                ) && match inner {
                    Step::Done(Ok(_)) => step.gives(Ok(())),
                    Step::Done(Err(e)) => step.gives(Err(e)),
                    _ => true,
                };
            one_time_keys_fail_with_cause(upload, reply, e);
        },
        _ => {},
    }
}

/// The initialization of E2EE fails only where no device is told and none is configured, where the stored account
/// cannot be opened, where the server does not take keys, or where the host does not save the account.
pub proof fn initialization_fails_with_cause(flow: InitCrypto, reply: HostReply, e: String)
    requires
        flow.moves(reply, Step::Done(Err(e))),
    ensures
        match flow {
            InitCrypto::Resolving(device) => told_device(reply) is None && device.device_id@.len()
                == 0,
            InitCrypto::Warning(_, resolved) => resolved is Err,
            InitCrypto::Loading(_, _) => reply matches HostReply::Account(Some(account))
                ==> crypto_store::unsealed_bytes(account.pickled_account@) is Err,
            InitCrypto::Unsealing(_, _) => reply matches HostReply::Bytes(Ok(bytes))
                ==> olm::account_pickle(bytes@) is Err,
            _ => host::is_setback(reply),
        },
{
    let step: Step<InitCrypto, Result<(), String>> = Step::Done(Err(e));
    match flow {
        InitCrypto::Checking(check) => {
            let inner = choose|inner: Step<CheckOneTimeKeys, Result<(), String>>|
                #![trigger check.moves(reply, inner)]
                check.moves(reply, inner) && inner.passes_to(
                    step,
                    |c: CheckOneTimeKeys| InitCrypto::Checking(c),
                ) && (inner matches Step::Done(r) ==> step.gives(r));
            checking_fails_with_cause(check, reply, e);
        },
        InitCrypto::NewDevice(device, upload) => {
            let inner = choose|inner: Step<UploadDeviceKeys, Result<OlmAccount, String>>|
                #![trigger upload.moves(reply, inner)]
                upload.moves(reply, inner) && inner.passes_to(
                    step,
                    |u: UploadDeviceKeys| InitCrypto::NewDevice(device, u),
                ) && match inner {
                    Step::Done(Ok(account)) => step matches Step::Ask(
                        call,
                        InitCrypto::NewKeys(d, keys),
                    ) && d@ == device@ && keys.begins(call, device@, account@),
                    Step::Done(Err(e)) => step.gives(Err(e)),
                    _ => true,
                };
            device_keys_fail_with_cause(upload, reply, e);
        },
        InitCrypto::NewKeys(device, upload) => {
            let inner = choose|inner: Step<UploadOneTimeKeys, Result<OlmAccount, String>>|
                #![trigger upload.moves(reply, inner)]
                upload.moves(reply, inner) && inner.passes_to(
                    step,
                    |u: UploadOneTimeKeys| InitCrypto::NewKeys(device, u),
                ) && match inner {
                    Step::Done(Ok(account)) => step matches Step::Ask(
                        call,
                        InitCrypto::Saving(save),
                    ) && save.begins(
                        call,
                        account@,
                        device.user_id@,
                        device.device_id@,
                        true,
                        0,
                    ),
                    Step::Done(Err(e)) => step.gives(Err(e)),
                    _ => true,
                };
            one_time_keys_fail_with_cause(upload, reply, e);
        },
        InitCrypto::Saving(save) => {
            let inner = choose|inner: Step<SaveAccount, Result<(), String>>|
                #![trigger save.moves(reply, inner)]
                save.moves(reply, inner) && inner.passes_to(
                    step,
                    |s: SaveAccount| InitCrypto::Saving(s),
                ) && (inner matches Step::Done(r) ==> step.gives(r));
            saving_fails_with_the_host(save, reply, e);
        },
        _ => {},
    }
}

} // verus!
