//! The error taxonomy of the vault.

use vstd::prelude::*;

verus! {

/// Every failure an operation of the store can report.
#[derive(Debug, Clone, Copy, PartialEq, Eq, Structural)]
pub enum VaultError {
    /// The key (or the version it should resolve through) does not exist.
    NotFound,
    /// A create was attempted for a key that already has a version.
    AlreadyExists,
    /// An update carried content identical to the current latest version.
    NoChange,
    /// The requested version number does not exist for the key.
    VersionNotFound,
    /// The requested tag is not set for the key.
    TagNotFound,
    /// No version of the key has a timestamp at or before the requested time.
    NoVersionAtTime,
    /// A manual attempt to point the reserved `"dev"` tag anywhere but the
    /// current latest version.
    InvalidDevTag,
    /// A backup blob does not start with a recognized marker.
    CorruptHeader,
    /// A backup blob is encrypted but no password was supplied.
    PasswordRequired,
    /// Decryption of a backup blob failed: wrong password or tampered data.
    DecryptionFailed,
    /// The backing store failed, or handed back bytes that do not decode.
    StorageIO,
}

impl VaultError {
    /// A short human-readable description of the error.
    pub fn describe(&self) -> (r: &'static str)
        ensures
            r@.len() > 0,
    {
        proof {
            reveal_strlit("key not found");
            reveal_strlit("key already exists");
            reveal_strlit("no changes detected in content");
            reveal_strlit("version does not exist for key");
            reveal_strlit("tag not found for key");
            reveal_strlit("no version found at the requested time");
            reveal_strlit("'dev' tag can only be set to the latest version");
            reveal_strlit("invalid vault file header");
            reveal_strlit("vault encrypted but no password provided");
            reveal_strlit("decryption failed");
            reveal_strlit("backing store failure");
        }
        match self {
            VaultError::NotFound => "key not found",
            VaultError::AlreadyExists => "key already exists",
            VaultError::NoChange => "no changes detected in content",
            VaultError::VersionNotFound => "version does not exist for key",
            VaultError::TagNotFound => "tag not found for key",
            VaultError::NoVersionAtTime => "no version found at the requested time",
            VaultError::InvalidDevTag => "'dev' tag can only be set to the latest version",
            VaultError::CorruptHeader => "invalid vault file header",
            VaultError::PasswordRequired => "vault encrypted but no password provided",
            VaultError::DecryptionFailed => "decryption failed",
            VaultError::StorageIO => "backing store failure",
        }
    }
}

} // verus!
