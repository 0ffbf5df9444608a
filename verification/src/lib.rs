//! A Matrix messaging channel.

pub mod text;
pub mod chunking;
pub mod json;
pub mod json_tree;
pub mod codec;
pub mod olm;
pub mod megolm;
pub mod types;
pub mod host;
pub mod crypto_store;
pub mod client;
pub mod device;
pub mod session_cache;
pub mod decryption;
pub mod encryption;
pub mod sync;
pub mod config;
pub mod incoming;
pub mod delivery;
pub mod channel;
