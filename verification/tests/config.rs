use matrix_channel::config::{default_dm_policy, default_sync_timeout, MatrixConfig};

#[test]
fn test_default_config() {
    let config = MatrixConfig::default();
    assert_eq!(config.dm_policy, "pairing");
    assert_eq!(config.sync_timeout_ms, 30_000);
    assert!(!config.enable_e2ee);
    assert!(!config.respond_to_all_room_messages);
}

#[test]
fn defaults_leave_the_rest_open() {
    let config = MatrixConfig::default();
    assert_eq!(config.homeserver_url, "");
    assert!(config.user_id.is_none());
    assert!(config.device_id.is_none());
    assert!(config.allow_from.is_empty());
    assert!(config.allowed_room_ids.is_empty());
    assert_eq!(default_dm_policy(), "pairing");
    assert_eq!(default_sync_timeout(), 30_000);
}
