//! The version and tag engine: a vault of named, linearly versioned text
//! artifacts kept in the backing store.
//!
//! Every public operation states its effect over the store's raw contents
//! (`self@`, a map from raw keys to raw values) through the transition
//! functions of [`crate::model`], under the well-formedness invariant
//! [`vault_wf`]. A backing-store failure can surface as
//! [`VaultError::StorageIO`] at any point; every other outcome is pinned
//! exactly.

use vstd::prelude::*;
use vstd::bytes::{u64_from_le_bytes, u64_to_le_bytes};
use vstd::utf8::encode_utf8;
use crate::errors::VaultError;
use crate::model::{
    content_at, content_chars, deleted_keys, key_wf, latest_of, lemma_append_wf, lemma_create_wf,
    lemma_delete_wf, lemma_tag_wf, meta_at, remove_name, spec_append_version, spec_create,
    spec_delete, spec_read, spec_resolve, spec_tag, spec_write, tag_added_meta, tag_at,
    tag_removed_meta, vault_wf, version_at_time, version_wf, RawMap,
};
use crate::rawkeys::{
    content_key, content_key_exec, latest_key, latest_key_exec, lemma_utf8_injective, tag_key,
    tag_key_exec, version_key, version_key_exec,
};
use crate::codec::dec_pair_blob;
use crate::store::{db_export, db_get, db_insert, db_open, db_remove, db_view, pairs_match_view, pairs_to_map};
use crate::types::{decode_meta, encode_meta, string_from_utf8, VersionMeta, VersionSelector};

verus! {

/// Two byte slices hold the same bytes.
pub(crate) fn bytes_eq(a: &[u8], b: &[u8]) -> (r: bool)
    ensures
        r == (a@ == b@),
{
    if a.len() != b.len() {
        proof {
            assert(a@.len() != b@.len());
        }
        return false;
    }
    let mut i: usize = 0;
    while i < a.len()
        invariant
            i <= a@.len(),
            a@.len() == b@.len(),
            forall|j: int| 0 <= j < i ==> a@[j] == b@[j],
        decreases a@.len() - i,
    {
        if a[i] != b[i] {
            proof {
                assert(a@[i as int] != b@[i as int]);
            }
            return false;
        }
        i += 1;
    }
    proof {
        assert(a@ =~= b@);
    }
    true
}

/// Two string slices hold the same characters.
pub(crate) fn str_eq(a: &str, b: &str) -> (r: bool)
    ensures
        r == (a@ == b@),
{
    let r = bytes_eq(a.as_bytes(), b.as_bytes());
    proof {
        if r {
            lemma_utf8_injective(a@, b@);
        }
    }
    r
}

/// Whether the tag list holds the name `t`.
fn tags_contain(tags: &Vec<String>, t: &str) -> (r: bool)
    ensures
        r == tags.deep_view().contains(t@),
{
    let ghost tv = tags.deep_view();
    let mut i: usize = 0;
    while i < tags.len()
        invariant
            i <= tags@.len(),
            tv == tags.deep_view(),
            tv.len() == tags@.len(),
            forall|j: int| 0 <= j < tv.len() ==> #[trigger] tv[j] == tags@[j]@,
            forall|j: int| 0 <= j < i ==> #[trigger] tv[j] != t@,
        decreases tags@.len() - i,
    {
        if str_eq(tags[i].as_str(), t) {
            proof {
                assert(tv[i as int] == t@);
                assert(tv.contains(t@));
            }
            return true;
        }
        i += 1;
    }
    proof {
        if tv.contains(t@) {
            let j = choose|j: int| 0 <= j < tv.len() && tv[j] == t@;
        }
    }
    false
}

/// The tag list with every occurrence of the name `t` removed.
fn tags_without(tags: &Vec<String>, t: &str) -> (r: Vec<String>)
    ensures
        r.deep_view() == remove_name(tags.deep_view(), t@),
{
    let ghost tv = tags.deep_view();
    let mut out: Vec<String> = Vec::new();
    let mut i: usize = 0;
    while i < tags.len()
        invariant
            i <= tags@.len(),
            tv == tags.deep_view(),
            tv.len() == tags@.len(),
            forall|j: int| 0 <= j < tv.len() ==> #[trigger] tv[j] == tags@[j]@,
            out.deep_view() == remove_name(tv.take(i as int), t@),
        decreases tags@.len() - i,
    {
        let ghost pre = out.deep_view();
        let keep = !str_eq(tags[i].as_str(), t);
        if keep {
            out.push(tags[i].clone());
        }
        proof {
            crate::model::lemma_remove_name_snoc(tv.take(i as int), t@, tv[i as int]);
            assert(tv.take(i + 1) =~= tv.take(i as int).push(tv[i as int]));
            if keep {
                assert(out.deep_view() =~= pre.push(tv[i as int]));
            }
        }
        i += 1;
    }
    proof {
        assert(tv.take(tv.len() as int) =~= tv);
    }
    out
}

/// A vault: a handle on the backing store that holds every version, content
/// blob and tag pointer.
pub struct PromptVault {
    db: sled::Db,
}

impl View for PromptVault {
    type V = RawMap;

    closed spec fn view(&self) -> RawMap {
        db_view(self.db)
    }
}

impl PromptVault {
    /// Opens the vault kept under `path`, creating it if absent. Nothing is
    /// known of the contents found there.
    pub fn open(path: &str) -> (r: Result<PromptVault, VaultError>) {
        match db_open(path) {
            Ok(db) => Ok(PromptVault { db }),
            Err(_) => Err(VaultError::StorageIO),
        }
    }

    /// The underlying backing-store handle.
    pub fn db(&self) -> (r: &sled::Db)
        ensures
            db_view(*r) == self@,
    {
        &self.db
    }

    /// The latest version number of `key`, or `None` if the key has no
    /// versions.
    pub fn get_latest_version_number(&self, key: &str) -> (r: Result<Option<u64>, VaultError>)
        ensures
            vault_wf(self@) ==> (r == Ok::<Option<u64>, VaultError>(latest_of(self@, key@)) || r
                == Err::<Option<u64>, VaultError>(VaultError::StorageIO)),
            r is Ok ==> r->Ok_0 == latest_of(self@, key@),
            crate::model::real_key(key@),
    {
        let lk = latest_key_exec(key);
        match db_get(&self.db, lk.as_slice()) {
            Err(_) => Err(VaultError::StorageIO),
            Ok(None) => Ok(None),
            Ok(Some(v)) => {
                if v.len() != 8 {
                    return Err(VaultError::StorageIO);
                }
                let n = u64_from_le_bytes(v.as_slice());
                Ok(Some(n))
            },
        }
    }

    /// Creates `key` with `content` as its version 1. Fails with
    /// `AlreadyExists` when the key already has a version.
    pub fn add(&mut self, key: &str, content: &str) -> (r: Result<u64, VaultError>)
        ensures
            vault_wf(old(self)@) ==> match r {
                Ok(v) => {
                    &&& v == 1u64
                    &&& latest_of(old(self)@, key@) is None
                    &&& exists|ts: i64|
                        final(self)@ == #[trigger] spec_create(old(self)@, key@, content@, ts)
                    &&& vault_wf(final(self)@)
                },
                Err(VaultError::AlreadyExists) => latest_of(old(self)@, key@) is Some
                    && final(self)@ == old(self)@,
                Err(VaultError::StorageIO) => true,
                _ => false,
            },
    {
        let ghost m = self@;
        let lk = latest_key_exec(key);
        match db_get(&self.db, lk.as_slice()) {
            Err(_) => {
                return Err(VaultError::StorageIO);
            },
            Ok(Some(_)) => {
                proof {
                    if vault_wf(m) {
                        assert(crate::model::key_wf(m, key@));
                    }
                }
                return Err(VaultError::AlreadyExists);
            },
            Ok(None) => {},
        }
        let meta = VersionMeta::new(key.to_owned(), 1, content, None, None);
        let mbytes = encode_meta(&meta);
        let vk = version_key_exec(key, 1);
        let ck = content_key_exec(key, 1);
        if db_insert(&mut self.db, vk.as_slice(), mbytes.as_slice()).is_err() {
            return Err(VaultError::StorageIO);
        }
        if db_insert(&mut self.db, ck.as_slice(), content.as_bytes()).is_err() {
            return Err(VaultError::StorageIO);
        }
        let one = u64_to_le_bytes(1);
        if db_insert(&mut self.db, lk.as_slice(), one.as_slice()).is_err() {
            return Err(VaultError::StorageIO);
        }
        proof {
            let fm = crate::model::fresh_meta(key@, 1, content@, None, None, meta.timestamp);
            assert(meta@ == fm);
            assert(self@ == spec_create(m, key@, content@, meta.timestamp));
            if vault_wf(m) {
                lemma_create_wf(m, key@, content@, meta.timestamp);
            }
        }
        Ok(1)
    }

    /// Points tag `tag` of `key` at `version`: the name leaves whatever
    /// version held it and lands on `version`. The reserved `"dev"` tag may
    /// only be pointed at the current latest version.
    pub fn tag(&mut self, key: &str, tag: &str, version: u64) -> (r: Result<(), VaultError>)
        ensures
            vault_wf(old(self)@) ==> match r {
                Ok(()) => {
                    &&& meta_at(old(self)@, key@, version) is Some
                    &&& latest_of(old(self)@, key@) is Some
                    &&& 1 <= version <= latest_of(old(self)@, key@)->0
                    &&& (tag@ == "dev"@ ==> latest_of(old(self)@, key@) == Some(version))
                    &&& final(self)@ == spec_tag(old(self)@, key@, tag@, version)
                    &&& vault_wf(final(self)@)
                },
                Err(VaultError::VersionNotFound) => !old(self)@.contains_key(
                    version_key(key@, version),
                ) && final(self)@ == old(self)@,
                Err(VaultError::InvalidDevTag) => {
                    &&& tag@ == "dev"@
                    &&& meta_at(old(self)@, key@, version) is Some
                    &&& latest_of(old(self)@, key@) != Some(version)
                    &&& final(self)@ == old(self)@
                },
                Err(VaultError::StorageIO) => true,
                _ => false,
            },
    {
        let ghost m = self@;
        let vk = version_key_exec(key, version);
        let here = match db_get(&self.db, vk.as_slice()) {
            Err(_) => {
                return Err(VaultError::StorageIO);
            },
            Ok(o) => o,
        };
        let target_bytes = match here {
            None => {
                return Err(VaultError::VersionNotFound);
            },
            Some(b) => b,
        };
        proof {
            if vault_wf(m) {
                assert(crate::model::key_wf(m, key@));
                if latest_of(m, key@) is None {
                    assert(!m.contains_key(version_key(key@, version)));
                    assert(false);
                }
                let l = latest_of(m, key@)->0;
                if version == 0 || version > l {
                    assert(!m.contains_key(version_key(key@, version)));
                    assert(false);
                }
                assert(version_wf(m, key@, version));
            }
        }
        if str_eq(tag, "dev") {
            let latest = match self.get_latest_version_number(key) {
                Err(_) => {
                    return Err(VaultError::StorageIO);
                },
                Ok(o) => o,
            };
            match latest {
                None => {
                    return Err(VaultError::NotFound);
                },
                Some(l) => {
                    if version != l {
                        return Err(VaultError::InvalidDevTag);
                    }
                },
            }
        }
        // Take the name away from its current holder, if that is someone else.
        let tk = tag_key_exec(key, tag);
        let old_ptr = match db_get(&self.db, tk.as_slice()) {
            Err(_) => {
                return Err(VaultError::StorageIO);
            },
            Ok(o) => o,
        };
        let ghost moved = tag_at(m, key@, tag@) is Some && tag_at(m, key@, tag@)->0 != version
            && meta_at(m, key@, tag_at(m, key@, tag@)->0) is Some;
        match old_ptr {
            None => {},
            Some(pb) => {
                if pb.len() != 8 {
                    return Err(VaultError::StorageIO);
                }
                let o = u64_from_le_bytes(pb.as_slice());
                if o != version {
                    let ovk = version_key_exec(key, o);
                    let ob = match db_get(&self.db, ovk.as_slice()) {
                        Err(_) => {
                            return Err(VaultError::StorageIO);
                        },
                        Ok(None) => {
                            return Err(VaultError::StorageIO);
                        },
                        Ok(Some(b)) => b,
                    };
                    let ometa = match decode_meta(ob.as_slice()) {
                        None => {
                            return Err(VaultError::StorageIO);
                        },
                        Some(x) => x,
                    };
                    let new_tags = tags_without(&ometa.tags, tag);
                    let ometa2 = VersionMeta {
                        key: ometa.key,
                        version: ometa.version,
                        timestamp: ometa.timestamp,
                        parent: ometa.parent,
                        message: ometa.message,
                        object_hash: ometa.object_hash,
                        tags: new_tags,
                    };
                    proof {
                        assert(ometa2@ == tag_removed_meta(meta_at(m, key@, o)->0, tag@));
                    }
                    let obytes = encode_meta(&ometa2);
                    if db_insert(&mut self.db, ovk.as_slice(), obytes.as_slice()).is_err() {
                        return Err(VaultError::StorageIO);
                    }
                }
            },
        }
        let ghost m1 = self@;
        proof {
            if moved {
                assert(m1 == m.insert(
                    version_key(key@, tag_at(m, key@, tag@)->0),
                    crate::types::enc_meta(
                        tag_removed_meta(meta_at(m, key@, tag_at(m, key@, tag@)->0)->0, tag@),
                    ),
                ));
            } else {
                assert(m1 == m);
            }
        }
        // Set the pointer.
        let vbytes = u64_to_le_bytes(version);
        if db_insert(&mut self.db, tk.as_slice(), vbytes.as_slice()).is_err() {
            return Err(VaultError::StorageIO);
        }
        let ghost m2 = self@;
        // Put the name on the target's record if it lacks it.
        let nb = match db_get(&self.db, vk.as_slice()) {
            Err(_) => {
                return Err(VaultError::StorageIO);
            },
            Ok(None) => {
                return Err(VaultError::StorageIO);
            },
            Ok(Some(b)) => b,
        };
        let nmeta = match decode_meta(nb.as_slice()) {
            None => {
                return Err(VaultError::StorageIO);
            },
            Some(x) => x,
        };
        proof {
            assert(tag_key(key@, tag@) != version_key(key@, version)) by {
                crate::rawkeys::lemma_version_tag_distinct(key@, version, key@, tag@);
            }
            assert(meta_at(m2, key@, version) == meta_at(m1, key@, version));
            assert(meta_at(m1, key@, version) == Some(nmeta@));
        }
        if !tags_contain(&nmeta.tags, tag) {
            let mut tags2 = nmeta.tags;
            tags2.push(tag.to_owned());
            let nmeta2 = VersionMeta {
                key: nmeta.key,
                version: nmeta.version,
                timestamp: nmeta.timestamp,
                parent: nmeta.parent,
                message: nmeta.message,
                object_hash: nmeta.object_hash,
                tags: tags2,
            };
            proof {
                assert(nmeta2@.tags =~= meta_at(m1, key@, version)->0.tags.push(tag@));
                assert(nmeta2@ == tag_added_meta(meta_at(m1, key@, version)->0, tag@));
            }
            let nbytes = encode_meta(&nmeta2);
            if db_insert(&mut self.db, vk.as_slice(), nbytes.as_slice()).is_err() {
                return Err(VaultError::StorageIO);
            }
            proof {
                assert(self@ == spec_tag(m, key@, tag@, version));
                if vault_wf(m) {
                    lemma_tag_wf(m, key@, tag@, version);
                }
            }
        } else {
            proof {
                assert(self@ == spec_tag(m, key@, tag@, version));
                if vault_wf(m) {
                    lemma_tag_wf(m, key@, tag@, version);
                }
            }
        }
        Ok(())
    }

    /// Points `tag` of `key` at the current latest version.
    pub fn promote(&mut self, key: &str, tag: &str) -> (r: Result<(), VaultError>)
        ensures
            vault_wf(old(self)@) ==> match r {
                Ok(()) => {
                    &&& latest_of(old(self)@, key@) is Some
                    &&& final(self)@ == spec_tag(
                        old(self)@,
                        key@,
                        tag@,
                        latest_of(old(self)@, key@)->0,
                    )
                    &&& vault_wf(final(self)@)
                },
                Err(VaultError::NotFound) => latest_of(old(self)@, key@) is None && final(self)@
                    == old(self)@,
                Err(VaultError::StorageIO) => true,
                _ => false,
            },
    {
        let ghost m = self@;
        let latest = match self.get_latest_version_number(key) {
            Err(_) => {
                return Err(VaultError::StorageIO);
            },
            Ok(o) => o,
        };
        let l = match latest {
            None => {
                return Err(VaultError::NotFound);
            },
            Some(l) => l,
        };
        proof {
            if vault_wf(m) {
                assert(crate::model::key_wf(m, key@));
                assert(version_wf(m, key@, l));
            }
        }
        let r = self.tag(key, tag, l);
        proof {
            if vault_wf(m) {
                match r {
                    Ok(()) => {},
                    Err(VaultError::VersionNotFound) => {
                        assert(meta_at(m, key@, l) is Some);
                        assert(false);
                    },
                    Err(VaultError::InvalidDevTag) => {
                        assert(false);
                    },
                    Err(VaultError::StorageIO) => {},
                    _ => {
                        assert(false);
                    },
                }
            }
        }
        match r {
            Ok(()) => Ok(()),
            Err(e) => Err(e),
        }
    }

    /// Writes `content` as a new version of `key`. Fails with `NotFound`
    /// when the key has no versions, and with `NoChange` when `content`
    /// matches the current latest content. On success the new version's
    /// number is returned and the `"dev"` tag has moved onto it.
    pub fn update(&mut self, key: &str, content: &str, message: Option<String>) -> (r: Result<
        u64,
        VaultError,
    >)
        ensures
            vault_wf(old(self)@) ==> match r {
                Ok(n) => {
                    &&& n >= 2
                    &&& latest_of(old(self)@, key@) == Some((n - 1) as u64)
                    &&& encode_utf8(content@) != content_at(old(self)@, key@, (n - 1) as u64)->0
                    &&& exists|ts: i64|
                        final(self)@ == #[trigger] spec_write(
                            old(self)@,
                            key@,
                            n,
                            content@,
                            crate::types::opt_str_view(message),
                            ts,
                        )
                    &&& vault_wf(final(self)@)
                },
                Err(VaultError::NotFound) => latest_of(old(self)@, key@) is None && final(self)@
                    == old(self)@,
                Err(VaultError::NoChange) => {
                    &&& latest_of(old(self)@, key@) is Some
                    &&& content_at(old(self)@, key@, latest_of(old(self)@, key@)->0) == Some(
                        encode_utf8(content@),
                    )
                    &&& final(self)@ == old(self)@
                },
                Err(VaultError::StorageIO) => true,
                _ => false,
            },
    {
        let ghost m = self@;
        let latest = match self.get_latest_version_number(key) {
            Err(_) => {
                return Err(VaultError::StorageIO);
            },
            Ok(o) => o,
        };
        let l = match latest {
            None => {
                return Err(VaultError::NotFound);
            },
            Some(l) => l,
        };
        proof {
            if vault_wf(m) {
                assert(key_wf(m, key@));
            }
        }
        let ck_l = content_key_exec(key, l);
        let cb = match db_get(&self.db, ck_l.as_slice()) {
            Err(_) => {
                return Err(VaultError::StorageIO);
            },
            Ok(None) => {
                return Err(VaultError::StorageIO);
            },
            Ok(Some(b)) => b,
        };
        if bytes_eq(cb.as_slice(), content.as_bytes()) {
            return Err(VaultError::NoChange);
        }
        if l == u64::MAX {
            return Err(VaultError::StorageIO);
        }
        let n = l + 1;
        let ghost msgv = match message {
            Some(ref s) => Some(s@),
            None => None::<Seq<char>>,
        };
        let meta = VersionMeta::new(key.to_owned(), n, content, Some(l), message);
        let mbytes = encode_meta(&meta);
        let vk = version_key_exec(key, n);
        let ck = content_key_exec(key, n);
        let lk = latest_key_exec(key);
        if db_insert(&mut self.db, vk.as_slice(), mbytes.as_slice()).is_err() {
            return Err(VaultError::StorageIO);
        }
        if db_insert(&mut self.db, ck.as_slice(), content.as_bytes()).is_err() {
            return Err(VaultError::StorageIO);
        }
        let nb = u64_to_le_bytes(n);
        if db_insert(&mut self.db, lk.as_slice(), nb.as_slice()).is_err() {
            return Err(VaultError::StorageIO);
        }
        proof {
            let fm = crate::model::fresh_meta(
                key@,
                n,
                content@,
                Some((n - 1) as u64),
                msgv,
                meta.timestamp,
            );
            assert(meta@ == fm);
            assert(self@ == spec_append_version(m, key@, n, content@, msgv, meta.timestamp));
            if vault_wf(m) {
                lemma_append_wf(m, key@, n, content@, msgv, meta.timestamp);
            }
        }
        let ghost m_app = self@;
        let tr = self.tag(key, "dev", n);
        match tr {
            Err(_) => Err(VaultError::StorageIO),
            Ok(()) => {
                proof {
                    if vault_wf(m) {
                        assert(vault_wf(m_app));
                        assert(self@ == spec_tag(m_app, key@, "dev"@, n));
                        assert(self@ == spec_write(m, key@, n, content@, msgv, meta.timestamp));
                    }
                }
                Ok(n)
            },
        }
    }

    /// Reads the content of the version of `key` that `selector` resolves
    /// to, exactly as it was stored.
    #[verifier::loop_isolation(false)]
    pub fn get(&self, key: &str, selector: VersionSelector<'_>) -> (r: Result<String, VaultError>)
        ensures
            vault_wf(self@) ==> match r {
                Ok(s) => spec_read(self@, key@, selector@) == Ok::<Seq<char>, VaultError>(s@),
                Err(e) => e == VaultError::StorageIO || spec_read(self@, key@, selector@)
                    == Err::<Seq<char>, VaultError>(e),
            },
    {
        let ghost m = self@;
        let n: u64 = match selector {
            VersionSelector::Latest => {
                match self.get_latest_version_number(key) {
                    Err(_) => {
                        return Err(VaultError::StorageIO);
                    },
                    Ok(None) => {
                        return Err(VaultError::NotFound);
                    },
                    Ok(Some(l)) => l,
                }
            },
            VersionSelector::Version(v) => v,
            VersionSelector::Tag(t) => {
                let tk = tag_key_exec(key, t);
                match db_get(&self.db, tk.as_slice()) {
                    Err(_) => {
                        return Err(VaultError::StorageIO);
                    },
                    Ok(None) => {
                        return Err(VaultError::TagNotFound);
                    },
                    Ok(Some(b)) => {
                        if b.len() != 8 {
                            return Err(VaultError::StorageIO);
                        }
                        u64_from_le_bytes(b.as_slice())
                    },
                }
            },
            VersionSelector::Time(ts) => {
                let l = match self.get_latest_version_number(key) {
                    Err(_) => {
                        return Err(VaultError::StorageIO);
                    },
                    Ok(None) => {
                        return Err(VaultError::NoVersionAtTime);
                    },
                    Ok(Some(l)) => l,
                };
                let mut i: u64 = l;
                let mut found: u64 = 0;
                while i >= 1 && found == 0
                    invariant
                        i <= l,
                        found == 0 ==> version_at_time(m, key@, l, ts) == version_at_time(
                            m,
                            key@,
                            i,
                            ts,
                        ),
                        found != 0 ==> version_at_time(m, key@, l, ts) == Some(found),
                    decreases i, (if found == 0 { 1int } else { 0int }),
                {
                    let vki = version_key_exec(key, i);
                    match db_get(&self.db, vki.as_slice()) {
                        Err(_) => {
                            return Err(VaultError::StorageIO);
                        },
                        Ok(None) => {
                            i -= 1;
                        },
                        Ok(Some(b)) => {
                            match decode_meta(b.as_slice()) {
                                None => {
                                    i -= 1;
                                },
                                Some(mv) => {
                                    if mv.timestamp <= ts {
                                        found = i;
                                    } else {
                                        i -= 1;
                                    }
                                },
                            }
                        },
                    }
                }
                if found == 0 {
                    proof {
                        assert(version_at_time(m, key@, 0, ts) is None);
                    }
                    return Err(VaultError::NoVersionAtTime);
                }
                found
            },
        };
        proof {
            if vault_wf(m) {
                assert(spec_resolve(m, key@, selector@) == Ok::<u64, VaultError>(n));
            }
        }
        let vk = version_key_exec(key, n);
        let mb = match db_get(&self.db, vk.as_slice()) {
            Err(_) => {
                return Err(VaultError::StorageIO);
            },
            Ok(None) => {
                return Err(VaultError::VersionNotFound);
            },
            Ok(Some(b)) => b,
        };
        match decode_meta(mb.as_slice()) {
            None => {
                return Err(VaultError::VersionNotFound);
            },
            Some(_) => {},
        }
        let ckn = content_key_exec(key, n);
        let cb = match db_get(&self.db, ckn.as_slice()) {
            Err(_) => {
                return Err(VaultError::StorageIO);
            },
            Ok(None) => {
                return Err(VaultError::StorageIO);
            },
            Ok(Some(b)) => b,
        };
        match string_from_utf8(cb) {
            None => Err(VaultError::StorageIO),
            Some(s) => {
                proof {
                    assert(s@ == content_chars(m, key@, n));
                }
                Ok(s)
            },
        }
    }

    /// The metadata of every version of `key`, ascending by version number;
    /// empty when the key is unknown.
    #[verifier::loop_isolation(false)]
    pub fn history(&self, key: &str) -> (r: Result<Vec<VersionMeta>, VaultError>)
        ensures
            vault_wf(self@) ==> match r {
                Ok(h) => match latest_of(self@, key@) {
                    None => h@.len() == 0,
                    Some(l) => {
                        &&& h@.len() == l
                        &&& forall|i: int|
                            0 <= i < h@.len() ==> meta_at(self@, key@, (i + 1) as u64) == Some(
                                #[trigger] h.deep_view()[i],
                            )
                    },
                },
                Err(VaultError::StorageIO) => true,
                _ => false,
            },
    {
        let ghost m = self@;
        let latest = match self.get_latest_version_number(key) {
            Err(_) => {
                return Err(VaultError::StorageIO);
            },
            Ok(o) => o,
        };
        let mut out: Vec<VersionMeta> = Vec::new();
        let l = match latest {
            None => {
                return Ok(out);
            },
            Some(l) => l,
        };
        let mut i: u64 = 0;
        while i < l
            invariant
                i <= l,
                out@.len() == i,
                forall|j: int|
                    0 <= j < i ==> meta_at(m, key@, (j + 1) as u64) == Some(
                        #[trigger] out.deep_view()[j],
                    ),
            decreases l - i,
        {
            let n = i + 1;
            let vk = version_key_exec(key, n);
            let mb = match db_get(&self.db, vk.as_slice()) {
                Err(_) => {
                    return Err(VaultError::StorageIO);
                },
                Ok(None) => {
                    return Err(VaultError::StorageIO);
                },
                Ok(Some(b)) => b,
            };
            let meta = match decode_meta(mb.as_slice()) {
                None => {
                    return Err(VaultError::StorageIO);
                },
                Some(x) => x,
            };
            let ghost pre = out.deep_view();
            out.push(meta);
            proof {
                assert(out.deep_view() =~~= pre.push(meta@));
            }
            i += 1;
        }
        Ok(out)
    }

    /// Removes every version, content blob and tag pointer of `key`.
    /// Deleting an absent key succeeds and changes nothing.
    #[verifier::loop_isolation(false)]
    pub fn delete_prompt_key(&mut self, key: &str) -> (r: Result<(), VaultError>)
        ensures
            vault_wf(old(self)@) ==> match r {
                Ok(()) => {
                    &&& final(self)@ == spec_delete(old(self)@, key@)
                    &&& vault_wf(final(self)@)
                    &&& latest_of(final(self)@, key@) is None
                },
                Err(VaultError::StorageIO) => true,
                _ => false,
            },
    {
        broadcast use crate::rawkeys::group_raw_keys;

        let ghost m = self@;
        let latest = match self.get_latest_version_number(key) {
            Err(_) => {
                return Err(VaultError::StorageIO);
            },
            Ok(o) => o,
        };
        let l = match latest {
            None => {
                proof {
                    if vault_wf(m) {
                        assert(key_wf(m, key@));
                    }
                }
                return Ok(());
            },
            Some(l) => l,
        };
        let ghost dk = deleted_keys(m, key@, l);
        let ghost mut removed: Set<Seq<u8>> = Set::empty();
        proof {
            assert(self@ =~= m.remove_keys(removed));
        }
        let mut i: u64 = 0;
        while i < l
            invariant
                i <= l,
                self@ == m.remove_keys(removed),
                vault_wf(m) && latest_of(m, key@) == Some(l) ==> {
                    &&& removed.subset_of(dk)
                    &&& forall|j: u64| j > i ==> !removed.contains(#[trigger] version_key(key@, j))
                    &&& forall|j: u64|
                        1 <= j <= i ==> removed.contains(#[trigger] version_key(key@, j))
                            && removed.contains(content_key(key@, j))
                    &&& forall|t: Seq<char>|
                        (exists|j: u64| 1 <= j <= i && tag_at(m, key@, t) == Some(j))
                            ==> removed.contains(#[trigger] tag_key(key@, t))
                },
            decreases l - i,
        {
            let n = i + 1;
            let vkn = version_key_exec(key, n);
            let mb = match db_get(&self.db, vkn.as_slice()) {
                Err(_) => {
                    return Err(VaultError::StorageIO);
                },
                Ok(None) => {
                    return Err(VaultError::StorageIO);
                },
                Ok(Some(b)) => b,
            };
            let meta = match decode_meta(mb.as_slice()) {
                None => {
                    return Err(VaultError::StorageIO);
                },
                Some(x) => x,
            };
            proof {
                if vault_wf(m) {
                    assert(key_wf(m, key@));
                    assert(version_wf(m, key@, n));
                    assert(!removed.contains(version_key(key@, n)));
                    assert(mb@ == m[version_key(key@, n)]);
                    assert(meta_at(m, key@, n) == Some(meta@));
                }
            }
            // Drop every tag pointer that this version holds.
            let ghost tv = meta.tags.deep_view();
            let mut ti: usize = 0;
            while ti < meta.tags.len()
                invariant
                    ti <= meta.tags@.len(),
                    tv == meta.tags.deep_view(),
                    tv.len() == meta.tags@.len(),
                    forall|x: int| 0 <= x < tv.len() ==> #[trigger] tv[x] == meta.tags@[x]@,
                    self@ == m.remove_keys(removed),
                    vault_wf(m) && latest_of(m, key@) == Some(l) ==> {
                        &&& removed.subset_of(dk)
                        &&& forall|j: u64|
                            j > i ==> !removed.contains(#[trigger] version_key(key@, j))
                        &&& forall|j: u64|
                            1 <= j <= i ==> removed.contains(#[trigger] version_key(key@, j))
                                && removed.contains(content_key(key@, j))
                        &&& forall|t: Seq<char>|
                            (exists|j: u64| 1 <= j <= i && tag_at(m, key@, t) == Some(j))
                                ==> removed.contains(#[trigger] tag_key(key@, t))
                        &&& forall|x: int|
                            0 <= x < ti ==> removed.contains(tag_key(key@, #[trigger] tv[x]))
                    },
                decreases meta.tags@.len() - ti,
            {
                let tk = tag_key_exec(key, meta.tags[ti].as_str());
                if db_remove(&mut self.db, tk.as_slice()).is_err() {
                    return Err(VaultError::StorageIO);
                }
                proof {
                    let tkv = tag_key(key@, tv[ti as int]);
                    assert(self@ =~= m.remove_keys(removed.insert(tkv)));
                    if vault_wf(m) && latest_of(m, key@) == Some(l) {
                        assert(meta_at(m, key@, n)->0.tags.contains(tv[ti as int])) by {
                            assert(meta.tags.deep_view()[ti as int] == tv[ti as int]);
                        }
                        assert(tag_at(m, key@, tv[ti as int]) == Some(n));
                        assert(m.contains_key(tkv));
                        assert(dk.contains(tkv));
                    }
                    removed = removed.insert(tkv);
                }
                ti += 1;
            }
            // Drop the version record and its content.
            if db_remove(&mut self.db, vkn.as_slice()).is_err() {
                return Err(VaultError::StorageIO);
            }
            proof {
                assert(self@ =~= m.remove_keys(removed.insert(version_key(key@, n))));
                if vault_wf(m) && latest_of(m, key@) == Some(l) {
                    assert(dk.contains(version_key(key@, n)));
                }
                removed = removed.insert(version_key(key@, n));
            }
            let ckn = content_key_exec(key, n);
            if db_remove(&mut self.db, ckn.as_slice()).is_err() {
                return Err(VaultError::StorageIO);
            }
            proof {
                assert(self@ =~= m.remove_keys(removed.insert(content_key(key@, n))));
                if vault_wf(m) && latest_of(m, key@) == Some(l) {
                    assert(dk.contains(content_key(key@, n)));
                }
                removed = removed.insert(content_key(key@, n));
            }
            proof {
                if vault_wf(m) && latest_of(m, key@) == Some(l) {
                    assert forall|t: Seq<char>|
                        (exists|j: u64| 1 <= j <= n && tag_at(m, key@, t) == Some(j)) implies
                        removed.contains(#[trigger] tag_key(key@, t)) by {
                        let j = choose|j: u64| 1 <= j <= n && tag_at(m, key@, t) == Some(j);
                        if j == n {
                            assert(m.contains_key(tag_key(key@, t)));
                            assert(meta_at(m, key@, n)->0.tags.contains(t));
                            let x = choose|x: int| 0 <= x < tv.len() && tv[x] == t;
                            assert(removed.contains(tag_key(key@, tv[x])));
                        }
                    }
                }
            }
            i += 1;
        }
        let lkk = latest_key_exec(key);
        if db_remove(&mut self.db, lkk.as_slice()).is_err() {
            return Err(VaultError::StorageIO);
        }
        proof {
            assert(self@ =~= m.remove_keys(removed.insert(latest_key(key@))));
            removed = removed.insert(latest_key(key@));
            if vault_wf(m) {
                assert(key_wf(m, key@));
                assert(dk.contains(latest_key(key@)));
                assert forall|rk: Seq<u8>| #[trigger] dk.contains(rk) implies removed.contains(
                    rk,
                ) by {
                    if rk == latest_key(key@) {
                        assert(removed.contains(latest_key(key@)));
                    } else if exists|j: u64| 1 <= j <= l && rk == #[trigger] version_key(key@, j) {
                        let j = choose|j: u64| 1 <= j <= l && rk == #[trigger] version_key(key@, j);
                        assert(removed.contains(version_key(key@, j)));
                    } else if exists|j: u64| 1 <= j <= l && rk == #[trigger] content_key(key@, j) {
                        let j = choose|j: u64| 1 <= j <= l && rk == #[trigger] content_key(key@, j);
                        assert(removed.contains(version_key(key@, j)));
                        assert(removed.contains(content_key(key@, j)));
                    } else {
                        let t = choose|t: Seq<char>|
                            m.contains_key(#[trigger] tag_key(key@, t)) && rk == tag_key(key@, t);
                        let h = vstd::bytes::spec_u64_from_le_bytes(m[tag_key(key@, t)]);
                        assert(key_wf(m, key@));
                        assert(1 <= h <= l);
                        assert(tag_at(m, key@, t) == Some(h));
                        assert(exists|j: u64| 1 <= j <= l && tag_at(m, key@, t) == Some(j)) by {
                            assert(1 <= h <= l && tag_at(m, key@, t) == Some(h));
                        }
                        assert(removed.contains(tag_key(key@, t)));
                    }
                }
                assert(removed =~= dk);
                assert(self@ == spec_delete(m, key@));
                lemma_delete_wf(m, key@);
            }
        }
        Ok(())
    }


    /// Serializes the whole store into one backup blob: a 9-byte marker,
    /// then the record pairs, encrypted exactly when a password is given.
    pub fn dump(&self, password: Option<&str>) -> (r: Result<Vec<u8>, VaultError>)
        ensures
            match r {
                Ok(blob) => {
                    &&& blob@.len() >= 9
                    &&& (password is Some ==> blob@.subrange(0, 9) == magic_enc())
                    &&& (password is None ==> blob@.subrange(0, 9) == magic_raw())
                    &&& exists|ps: Seq<(Seq<u8>, Seq<u8>)>|
                        {
                            &&& #[trigger] pairs_match_view(ps, self@)
                            &&& spec_parse_backup(blob@, opt_pw_view(password)) == Ok::<
                                Seq<(Seq<u8>, Seq<u8>)>,
                                VaultError,
                            >(ps)
                        }
                },
                Err(e) => e == VaultError::StorageIO,
            },
    {
        let pairs = match db_export(&self.db) {
            Err(_) => {
                return Err(VaultError::StorageIO);
            },
            Ok(p) => p,
        };
        let payload = crate::codec::encode_pairs(&pairs);
        proof {
            crate::codec::lemma_pair_blob_round_trip(pairs.deep_view());
        }
        match password {
            None => {
                let mut out = magic_raw_exec();
                out.extend_from_slice(payload.as_slice());
                proof {
                    lemma_magics_differ();
                    assert(out@.len() >= 9);
                    assert(out@.subrange(0, 9) =~= magic_raw());
                    assert(out@.subrange(9, out@.len() as int) =~= payload@);
                    assert(pairs_match_view(pairs.deep_view(), self@));
                    assert(spec_parse_backup(out@, opt_pw_view(password)) == Ok::<
                        Seq<(Seq<u8>, Seq<u8>)>,
                        VaultError,
                    >(pairs.deep_view()));
                }
                Ok(out)
            },
            Some(pw) => {
                let enc = match crate::crypto::encrypt_data(payload.as_slice(), pw) {
                    Err(e) => {
                        return Err(e);
                    },
                    Ok(c) => c,
                };
                let mut out = magic_enc_exec();
                out.extend_from_slice(enc.as_slice());
                proof {
                    assert(out@.len() >= 9);
                    assert(out@.subrange(0, 9) =~= magic_enc());
                    assert(out@.subrange(9, out@.len() as int) =~= enc@);
                    assert(pairs_match_view(pairs.deep_view(), self@));
                    assert(spec_parse_backup(out@, opt_pw_view(password)) == Ok::<
                        Seq<(Seq<u8>, Seq<u8>)>,
                        VaultError,
                    >(pairs.deep_view()));
                }
                Ok(out)
            },
        }
    }

    /// Rebuilds a vault from a backup blob, in the store kept under `path`:
    /// whatever that store held is replaced by the records of the backup,
    /// which are flushed to disk before the vault is handed back. A blob the
    /// parse rejects is rejected here with exactly the parse's error; the
    /// backing store is touched only after the parse succeeds.
    #[verifier::loop_isolation(false)]
    pub fn restore(path: &str, data: &[u8], password: Option<&str>) -> (r: Result<
        PromptVault,
        VaultError,
    >)
        ensures
            match r {
                Ok(v) => {
                    &&& spec_parse_backup(data@, opt_pw_view(password)) is Ok
                    &&& v@ == pairs_to_map(
                        spec_parse_backup(data@, opt_pw_view(password))->Ok_0,
                    )
                },
                Err(e) => e == VaultError::StorageIO || spec_parse_backup(
                    data@,
                    opt_pw_view(password),
                ) == Err::<Seq<(Seq<u8>, Seq<u8>)>, VaultError>(e),
            },
            spec_parse_backup(data@, opt_pw_view(password)) is Err ==> r == Err::<
                PromptVault,
                VaultError,
            >(spec_parse_backup(data@, opt_pw_view(password))->Err_0),
    {
        if data.len() < 9 {
            return Err(VaultError::CorruptHeader);
        }
        let hdr = &data[0..9];
        let payload = &data[9..data.len()];
        proof {
            assert(hdr@ =~= data@.subrange(0, 9));
            assert(payload@ =~= data@.subrange(9, data@.len() as int));
        }
        let menc = magic_enc_exec();
        let mraw = magic_raw_exec();
        let raw: Vec<u8> = if bytes_eq(hdr, menc.as_slice()) {
            match password {
                None => {
                    return Err(VaultError::PasswordRequired);
                },
                Some(pw) => match crate::crypto::decrypt_data(payload, pw) {
                    Err(e) => {
                        return Err(e);
                    },
                    Ok(p) => p,
                },
            }
        } else if bytes_eq(hdr, mraw.as_slice()) {
            vstd::slice::slice_to_vec(payload)
        } else {
            return Err(VaultError::CorruptHeader);
        };
        let pairs = match crate::codec::decode_pairs(raw.as_slice()) {
            None => {
                return Err(VaultError::StorageIO);
            },
            Some(p) => p,
        };
        let ghost ps = pairs.deep_view();
        proof {
            assert(spec_parse_backup(data@, opt_pw_view(password)) == Ok::<
                Seq<(Seq<u8>, Seq<u8>)>,
                VaultError,
            >(ps));
        }
        let mut vault = match Self::open(path) {
            Err(_) => {
                return Err(VaultError::StorageIO);
            },
            Ok(v) => v,
        };
        if crate::store::db_clear(&mut vault.db).is_err() {
            return Err(VaultError::StorageIO);
        }
        proof {
            assert(vault@ =~= pairs_to_map(ps.take(0)));
        }
        let mut i: usize = 0;
        while i < pairs.len()
            invariant
                i <= pairs@.len(),
                ps == pairs.deep_view(),
                ps.len() == pairs@.len(),
                forall|j: int| 0 <= j < ps.len() ==> #[trigger] ps[j] == (
                    pairs@[j].0@,
                    pairs@[j].1@,
                ),
                vault@ == pairs_to_map(ps.take(i as int)),
            decreases pairs@.len() - i,
        {
            let pair = &pairs[i];
            if db_insert(&mut vault.db, pair.0.as_slice(), pair.1.as_slice()).is_err() {
                return Err(VaultError::StorageIO);
            }
            proof {
                crate::store::lemma_pairs_to_map_take_snoc(ps, i as int);
            }
            i += 1;
        }
        if crate::store::db_flush(&vault.db).is_err() {
            return Err(VaultError::StorageIO);
        }
        proof {
            assert(ps.take(ps.len() as int) =~= ps);
        }
        Ok(vault)
    }
}

/// Delta reconstruction is not supported: every version is stored as a
/// full snapshot, so rebuilding content from a stored delta always yields
/// the empty string.
pub fn apply_diff(_old_content: &str, _diff_str: &str) -> (r: Result<String, VaultError>)
    ensures
        r is Ok,
        r->Ok_0@ == Seq::<char>::empty(),
{
    Ok(String::new())
}

/// The 9-byte marker of an encrypted backup: the bytes of `"VAULT_ENC"`.
pub open spec fn magic_enc() -> Seq<u8> {
    seq![86u8, 65u8, 85u8, 76u8, 84u8, 95u8, 69u8, 78u8, 67u8]
}

/// The 9-byte marker of a plain backup: the bytes of `"VAULT_RAW"`.
pub open spec fn magic_raw() -> Seq<u8> {
    seq![86u8, 65u8, 85u8, 76u8, 84u8, 95u8, 82u8, 65u8, 87u8]
}

/// The two markers differ.
pub proof fn lemma_magics_differ()
    ensures
        magic_enc() != magic_raw(),
{
    assert(magic_enc()[6] != magic_raw()[6]);
}

fn magic_enc_exec() -> (r: Vec<u8>)
    ensures
        r@ == magic_enc(),
{
    let mut v: Vec<u8> = Vec::new();
    v.push(86);
    v.push(65);
    v.push(85);
    v.push(76);
    v.push(84);
    v.push(95);
    v.push(69);
    v.push(78);
    v.push(67);
    proof {
        assert(v@ =~= magic_enc());
    }
    v
}

fn magic_raw_exec() -> (r: Vec<u8>)
    ensures
        r@ == magic_raw(),
{
    let mut v: Vec<u8> = Vec::new();
    v.push(86);
    v.push(65);
    v.push(85);
    v.push(76);
    v.push(84);
    v.push(95);
    v.push(82);
    v.push(65);
    v.push(87);
    proof {
        assert(v@ =~= magic_raw());
    }
    v
}

/// The view of an optional password.
pub open spec fn opt_pw_view(o: Option<&str>) -> Option<Seq<char>> {
    match o {
        Some(s) => Some(s@),
        None => None,
    }
}

/// What importing a backup blob yields: the marker decides between the
/// plain and the encrypted payload, and the payload decodes into the
/// record pairs.
pub open spec fn spec_parse_backup(data: Seq<u8>, password: Option<Seq<char>>) -> Result<
    Seq<(Seq<u8>, Seq<u8>)>,
    VaultError,
> {
    if data.len() < 9 {
        Err(VaultError::CorruptHeader)
    } else {
        let hdr = data.subrange(0, 9);
        let payload = data.subrange(9, data.len() as int);
        if hdr == magic_enc() {
            match password {
                None => Err(VaultError::PasswordRequired),
                Some(pw) => match crate::crypto::spec_decrypt(payload, pw) {
                    None => Err(VaultError::DecryptionFailed),
                    Some(pt) => match dec_pair_blob(pt) {
                        None => Err(VaultError::StorageIO),
                        Some(ps) => Ok(ps),
                    },
                },
            }
        } else if hdr == magic_raw() {
            match dec_pair_blob(payload) {
                None => Err(VaultError::StorageIO),
                Some(ps) => Ok(ps),
            }
        } else {
            Err(VaultError::CorruptHeader)
        }
    }
}

} // verus!
