//! Matrix channel configuration.

use vstd::prelude::*;
use vstd::string::*;

verus! {

/// Channel configuration from the capabilities file.
#[derive(Debug)]
pub struct MatrixConfig {
    /// Matrix homeserver URL (e.g. "https://matrix.example.com").
    /// Used to construct API endpoint URLs.
    pub homeserver_url: String,
    /// Matrix user ID (e.g. "@bot:example.com").
    /// If empty, auto-detected from /whoami at startup.
    pub user_id: Option<String>,
    /// Device ID for E2EE. If empty, auto-generated.
    pub device_id: Option<String>,
    /// DM policy: "pairing" (default), "allowlist", or "open".
    pub dm_policy: String,
    /// Allowed sender user IDs (merged with pairing-approved store).
    pub allow_from: Vec<String>,
    /// Whether to respond to all messages in rooms (not just DMs).
    pub respond_to_all_room_messages: bool,
    /// Restrict to these room IDs. Empty means all rooms (subject to DM policy).
    pub allowed_room_ids: Vec<String>,
    /// Sync long-poll timeout in milliseconds.
    pub sync_timeout_ms: u32,
    /// Whether E2EE is enabled.
    pub enable_e2ee: bool,
}

/// The DM policy where none is configured.
pub fn default_dm_policy() -> (policy: String)
    ensures
        policy@ == "pairing"@,
{
    "pairing".to_owned()
}

/// The sync timeout where none is configured, in milliseconds.
pub fn default_sync_timeout() -> (timeout_ms: u32)
    ensures
        timeout_ms == 30_000,
{
    30_000
}

impl Default for MatrixConfig {
    fn default() -> (config: MatrixConfig)
        ensures
            config.homeserver_url@ == Seq::<char>::empty(),
            config.user_id is None,
            config.device_id is None,
            config.dm_policy@ == "pairing"@,
            config.allow_from@ == Seq::<String>::empty(),
            !config.respond_to_all_room_messages,
            config.allowed_room_ids@ == Seq::<String>::empty(),
            config.sync_timeout_ms == 30_000,
            !config.enable_e2ee,
    {
        MatrixConfig {
            homeserver_url: String::new(),
            user_id: None,
            device_id: None,
            dm_policy: default_dm_policy(),
            allow_from: Vec::new(),
            respond_to_all_room_messages: false,
            allowed_room_ids: Vec::new(),
            sync_timeout_ms: default_sync_timeout(),
            enable_e2ee: false,
        }
    }
}

} // verus!
