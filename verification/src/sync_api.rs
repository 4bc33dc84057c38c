//! A concurrency-safe facade over the vault: a single reader/writer lock
//! serializes access to one shared handle. Operations that only read take
//! the shared lock; operations that mutate take the exclusive lock, so at
//! most one mutation runs at a time store-wide. The facade adds no logic of
//! its own: every contract lives on [`PromptVault`].

use vstd::prelude::*;
use vstd::rwlock::{RwLock, RwLockPredicate};
use std::sync::Arc;
use crate::errors::VaultError;
use crate::storage::PromptVault;
use crate::types::{VersionMeta, VersionSelector};

verus! {

/// The lock's invariant: any vault value may be stored.
pub struct AnyVault {}

impl RwLockPredicate<PromptVault> for AnyVault {
    open spec fn inv(self, v: PromptVault) -> bool {
        true
    }
}

/// A shared, cloneable handle on one locked vault.
pub struct SyncPromptManager {
    vault: Arc<RwLock<PromptVault, AnyVault>>,
}

impl Clone for SyncPromptManager {
    /// Another handle on the same locked vault.
    fn clone(&self) -> SyncPromptManager {
        SyncPromptManager { vault: self.vault.clone() }
    }
}

impl SyncPromptManager {
    /// Wraps an already opened vault in a fresh lock.
    pub fn with_vault(vault: PromptVault) -> SyncPromptManager {
        SyncPromptManager {
            vault: Arc::new(RwLock::new(vault, Ghost(AnyVault {  }))),
        }
    }

    /// Opens the vault kept under `path` and wraps it in a fresh lock.
    pub fn with_path(path: &str) -> (r: Result<SyncPromptManager, VaultError>) {
        match PromptVault::open(path) {
            Ok(v) => Ok(SyncPromptManager::with_vault(v)),
            Err(e) => Err(e),
        }
    }

    /// Creates a key (exclusive lock).
    pub fn add(&self, key: &str, content: &str) -> (r: Result<u64, VaultError>) {
        let (mut v, handle) = self.vault.acquire_write();
        let r = v.add(key, content);
        handle.release_write(v);
        r
    }

    /// Writes a new version of a key (exclusive lock).
    pub fn update(&self, key: &str, content: &str, message: Option<&str>) -> (r: Result<
        u64,
        VaultError,
    >) {
        let (mut v, handle) = self.vault.acquire_write();
        let msg = match message {
            Some(s) => Some(s.to_owned()),
            None => None,
        };
        let r = v.update(key, content, msg);
        handle.release_write(v);
        r
    }

    /// Points a tag at a version (exclusive lock).
    pub fn tag(&self, key: &str, tag: &str, version: u64) -> (r: Result<(), VaultError>) {
        let (mut v, handle) = self.vault.acquire_write();
        let r = v.tag(key, tag, version);
        handle.release_write(v);
        r
    }

    /// Points a tag at the latest version (exclusive lock).
    pub fn promote(&self, key: &str, tag: &str) -> (r: Result<(), VaultError>) {
        let (mut v, handle) = self.vault.acquire_write();
        let r = v.promote(key, tag);
        handle.release_write(v);
        r
    }

    /// Removes a key and its whole history (exclusive lock).
    pub fn delete_prompt(&self, key: &str) -> (r: Result<(), VaultError>) {
        let (mut v, handle) = self.vault.acquire_write();
        let r = v.delete_prompt_key(key);
        handle.release_write(v);
        r
    }

    /// Reads a prompt through a selector (shared lock).
    pub fn get_prompt(&self, key: &str, selector: VersionSelector<'_>) -> (r: Result<
        String,
        VaultError,
    >) {
        let handle = self.vault.acquire_read();
        let r = handle.borrow().get(key, selector);
        handle.release_read();
        r
    }

    /// Reads the latest version of a prompt (shared lock).
    pub fn latest(&self, key: &str) -> (r: Result<String, VaultError>) {
        self.get_prompt(key, VersionSelector::Latest)
    }

    /// Lists the history of a key (shared lock).
    pub fn history(&self, key: &str) -> (r: Result<Vec<VersionMeta>, VaultError>) {
        let handle = self.vault.acquire_read();
        let r = handle.borrow().history(key);
        handle.release_read();
        r
    }

    /// Serializes the whole store to a backup blob (shared lock).
    pub fn backup(&self, password: Option<&str>) -> (r: Result<Vec<u8>, VaultError>) {
        let handle = self.vault.acquire_read();
        let r = handle.borrow().dump(password);
        handle.release_read();
        r
    }

    /// Replaces the held vault with one rebuilt from a backup blob, in the
    /// store kept under `path` (exclusive lock).
    pub fn restore(&self, path: &str, data: &[u8], password: Option<&str>) -> (r: Result<
        (),
        VaultError,
    >) {
        let restored = match PromptVault::restore(path, data, password) {
            Ok(v) => v,
            Err(e) => {
                return Err(e);
            },
        };
        let (_old, handle) = self.vault.acquire_write();
        handle.release_write(restored);
        Ok(())
    }
}

} // verus!
