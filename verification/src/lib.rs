//! A versioned store for named text artifacts ("prompts").
//!
//! Every write to a key creates a new immutable version; versions form a
//! linear history per key, and named tags point at specific versions. The
//! reserved tag `"dev"` always follows the latest version. The whole store
//! can be exported to a single blob, optionally encrypted, and imported back.

pub mod codec;
pub mod crypto;
pub mod errors;
pub mod laws;
pub mod model;
pub mod rawkeys;
pub mod storage;
pub mod sync_api;
pub mod store;
pub mod types;

pub use codec::{decode_pairs, encode_pairs};
pub use errors::VaultError;
pub use storage::PromptVault;
pub use sync_api::SyncPromptManager;
pub use types::{calculate_hash, VersionMeta, VersionSelector};
