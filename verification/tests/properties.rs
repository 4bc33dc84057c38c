use promptpro::{decode_pairs, encode_pairs, PromptVault, SyncPromptManager, VaultError,
    VersionSelector};
use promptpro::calculate_hash;
use tempfile::tempdir;

#[test]
fn scenario_greet() {
    // create("greet","hello") -> version 1, content "hello"
    let dir = tempdir().unwrap();
    let mut vault = PromptVault::open(dir.path().to_str().unwrap()).unwrap();
    let v1 = vault.add("greet", "hello").unwrap();
    assert_eq!(v1, 1);
    assert_eq!(vault.get("greet", VersionSelector::Version(1)).unwrap(), "hello");

    // write("greet","hi",msg="update") -> version 2, dev -> 2
    let v2 = vault.update("greet", "hi", Some("update".to_string())).unwrap();
    assert_eq!(v2, 2);
    assert_eq!(vault.get("greet", VersionSelector::Tag("dev")).unwrap(), "hi");

    // tag("greet","stable",1); read by tag and latest; history length 2
    vault.tag("greet", "stable", 1).unwrap();
    assert_eq!(vault.get("greet", VersionSelector::Tag("stable")).unwrap(), "hello");
    assert_eq!(vault.get("greet", VersionSelector::Latest).unwrap(), "hi");
    assert_eq!(vault.history("greet").unwrap().len(), 2);
}

#[test]
fn create_duplicate_fails() {
    let dir = tempdir().unwrap();
    let mut vault = PromptVault::open(dir.path().to_str().unwrap()).unwrap();
    vault.add("k", "a").unwrap();
    assert_eq!(vault.add("k", "b"), Err(VaultError::AlreadyExists));
    // The duplicate create must not have touched the stored content.
    assert_eq!(vault.get("k", VersionSelector::Latest).unwrap(), "a");
}

#[test]
fn update_missing_key_fails() {
    let dir = tempdir().unwrap();
    let mut vault = PromptVault::open(dir.path().to_str().unwrap()).unwrap();
    assert_eq!(vault.update("absent", "x", None), Err(VaultError::NotFound));
}

#[test]
fn update_identical_content_is_nochange() {
    let dir = tempdir().unwrap();
    let mut vault = PromptVault::open(dir.path().to_str().unwrap()).unwrap();
    vault.add("k", "same").unwrap();
    assert_eq!(vault.update("k", "same", None), Err(VaultError::NoChange));
    // No new version was created.
    assert_eq!(vault.history("k").unwrap().len(), 1);
    assert_eq!(vault.get_latest_version_number("k").unwrap(), Some(1));
}

#[test]
fn write_versions_are_sequential() {
    let dir = tempdir().unwrap();
    let mut vault = PromptVault::open(dir.path().to_str().unwrap()).unwrap();
    vault.add("k", "c1").unwrap();
    assert_eq!(vault.update("k", "c2", None).unwrap(), 2);
    assert_eq!(vault.update("k", "c3", None).unwrap(), 3);
    assert_eq!(vault.update("k", "c4", None).unwrap(), 4);
    let history = vault.history("k").unwrap();
    assert_eq!(history.len(), 4);
    for (i, meta) in history.iter().enumerate() {
        assert_eq!(meta.version, i as u64 + 1);
        if i == 0 {
            assert_eq!(meta.parent, None);
        } else {
            assert_eq!(meta.parent, Some(i as u64));
        }
        assert_eq!(meta.key, "k");
    }
}

#[test]
fn dev_tag_rejects_non_latest() {
    let dir = tempdir().unwrap();
    let mut vault = PromptVault::open(dir.path().to_str().unwrap()).unwrap();
    vault.add("k", "c1").unwrap();
    vault.update("k", "c2", None).unwrap();
    vault.update("k", "c3", None).unwrap();
    assert_eq!(vault.tag("k", "dev", 1), Err(VaultError::InvalidDevTag));
    assert_eq!(vault.tag("k", "dev", 2), Err(VaultError::InvalidDevTag));
    // Pointing dev at the latest version is fine and idempotent.
    vault.tag("k", "dev", 3).unwrap();
    assert_eq!(vault.get("k", VersionSelector::Tag("dev")).unwrap(), "c3");
}

#[test]
fn stable_tag_has_single_owner() {
    let dir = tempdir().unwrap();
    let mut vault = PromptVault::open(dir.path().to_str().unwrap()).unwrap();
    vault.add("k", "c1").unwrap();
    vault.update("k", "c2", None).unwrap();
    vault.tag("k", "stable", 1).unwrap();
    vault.tag("k", "stable", 2).unwrap();
    let history = vault.history("k").unwrap();
    assert!(!history[0].tags.contains(&"stable".to_string()));
    assert!(history[1].tags.contains(&"stable".to_string()));
    assert_eq!(vault.get("k", VersionSelector::Tag("stable")).unwrap(), "c2");
}

#[test]
fn retagging_same_version_is_idempotent() {
    let dir = tempdir().unwrap();
    let mut vault = PromptVault::open(dir.path().to_str().unwrap()).unwrap();
    vault.add("k", "c1").unwrap();
    vault.tag("k", "pin", 1).unwrap();
    vault.tag("k", "pin", 1).unwrap();
    let history = vault.history("k").unwrap();
    let pins = history[0].tags.iter().filter(|t| t.as_str() == "pin").count();
    assert_eq!(pins, 1);
}

#[test]
fn tag_missing_version_fails() {
    let dir = tempdir().unwrap();
    let mut vault = PromptVault::open(dir.path().to_str().unwrap()).unwrap();
    vault.add("k", "c1").unwrap();
    assert_eq!(vault.tag("k", "stable", 7), Err(VaultError::VersionNotFound));
}

#[test]
fn selector_errors() {
    let dir = tempdir().unwrap();
    let mut vault = PromptVault::open(dir.path().to_str().unwrap()).unwrap();
    assert_eq!(vault.get("nope", VersionSelector::Latest), Err(VaultError::NotFound));
    vault.add("k", "c1").unwrap();
    assert_eq!(vault.get("k", VersionSelector::Tag("missing")), Err(VaultError::TagNotFound));
    assert_eq!(vault.get("k", VersionSelector::Version(9)), Err(VaultError::VersionNotFound));
    assert_eq!(vault.get("k", VersionSelector::Time(0)), Err(VaultError::NoVersionAtTime));
    assert_eq!(vault.get("nope", VersionSelector::Time(i64::MAX)), Err(VaultError::NoVersionAtTime));
}

#[test]
fn as_of_resolves_highest_qualifying_version() {
    let dir = tempdir().unwrap();
    let mut vault = PromptVault::open(dir.path().to_str().unwrap()).unwrap();
    vault.add("k", "c1").unwrap();
    vault.update("k", "c2", None).unwrap();
    // Far in the future every version qualifies; ties on identical
    // timestamps resolve to the highest version number.
    assert_eq!(vault.get("k", VersionSelector::Time(i64::MAX)).unwrap(), "c2");
}

#[test]
fn delete_clears_history() {
    let dir = tempdir().unwrap();
    let mut vault = PromptVault::open(dir.path().to_str().unwrap()).unwrap();
    vault.add("k", "c1").unwrap();
    vault.update("k", "c2", None).unwrap();
    vault.tag("k", "stable", 1).unwrap();
    vault.delete_prompt_key("k").unwrap();
    assert_eq!(vault.history("k").unwrap().len(), 0);
    assert_eq!(vault.get("k", VersionSelector::Latest), Err(VaultError::NotFound));
    assert_eq!(vault.get("k", VersionSelector::Tag("stable")), Err(VaultError::TagNotFound));
    // Deleting an absent key succeeds.
    vault.delete_prompt_key("k").unwrap();
    // The key can be created again from scratch.
    assert_eq!(vault.add("k", "fresh").unwrap(), 1);
    assert_eq!(vault.get("k", VersionSelector::Latest).unwrap(), "fresh");
}

#[test]
fn delete_leaves_other_keys_alone() {
    let dir = tempdir().unwrap();
    let mut vault = PromptVault::open(dir.path().to_str().unwrap()).unwrap();
    vault.add("gone", "x").unwrap();
    vault.add("kept", "y").unwrap();
    vault.delete_prompt_key("gone").unwrap();
    assert_eq!(vault.get("kept", VersionSelector::Latest).unwrap(), "y");
    assert_eq!(vault.history("kept").unwrap().len(), 1);
}

#[test]
fn backup_markers() {
    let dir = tempdir().unwrap();
    let mut vault = PromptVault::open(dir.path().to_str().unwrap()).unwrap();
    vault.add("k", "c1").unwrap();
    let raw = vault.dump(None).unwrap();
    assert_eq!(&raw[0..9], b"VAULT_RAW");
    let enc = vault.dump(Some("pw")).unwrap();
    assert_eq!(&enc[0..9], b"VAULT_ENC");
    // The encrypted payload is salt + nonce + ciphertext with its tag.
    assert!(enc.len() >= 9 + 32 + 12 + 16);
}

#[test]
fn restore_header_errors() {
    let target = tempdir().unwrap();
    let p1 = target.path().join("a");
    assert_eq!(
        PromptVault::restore(p1.to_str().unwrap(), b"short", None).err(),
        Some(VaultError::CorruptHeader)
    );
    let p2 = target.path().join("b");
    assert_eq!(
        PromptVault::restore(p2.to_str().unwrap(), b"NOT_A_VAULT_FILE", None).err(),
        Some(VaultError::CorruptHeader)
    );
}

#[test]
fn restore_encrypted_needs_password() {
    let dir = tempdir().unwrap();
    let target = tempdir().unwrap();
    let mut vault = PromptVault::open(dir.path().to_str().unwrap()).unwrap();
    vault.add("k", "secret").unwrap();
    let enc = vault.dump(Some("pw")).unwrap();
    let p = target.path().join("restored");
    assert_eq!(
        PromptVault::restore(p.to_str().unwrap(), &enc, None).err(),
        Some(VaultError::PasswordRequired)
    );
}

#[test]
fn restore_tampered_payload_fails() {
    let dir = tempdir().unwrap();
    let target = tempdir().unwrap();
    let mut vault = PromptVault::open(dir.path().to_str().unwrap()).unwrap();
    vault.add("k", "secret").unwrap();
    let mut enc = vault.dump(Some("pw")).unwrap();
    // Flip one ciphertext bit: the integrity tag must catch it.
    let last = enc.len() - 1;
    enc[last] ^= 1;
    let p = target.path().join("restored");
    assert_eq!(
        PromptVault::restore(p.to_str().unwrap(), &enc, Some("pw")).err(),
        Some(VaultError::DecryptionFailed)
    );
}

#[test]
fn pair_codec_round_trip() {
    let pairs: Vec<(Vec<u8>, Vec<u8>)> = vec![
        (vec![], vec![]),
        (vec![1, 2, 3], vec![4, 5]),
        (b"a key".to_vec(), b"a value".to_vec()),
    ];
    let blob = encode_pairs(&pairs);
    let back = decode_pairs(&blob).unwrap();
    assert_eq!(back, pairs);
    // A truncated blob must be rejected.
    assert!(decode_pairs(&blob[0..blob.len() - 1]).is_none());
    // Trailing garbage must be rejected.
    let mut longer = blob.clone();
    longer.push(0);
    assert!(decode_pairs(&longer).is_none());
}

#[test]
fn hash_is_hex_digest() {
    let h = calculate_hash("hello world");
    assert_eq!(h.len(), 64);
    assert_ne!(h, "hello world");
    assert!(h.chars().all(|c| c.is_ascii_hexdigit()));
}

#[test]
fn stored_hash_matches_content_digest() {
    let dir = tempdir().unwrap();
    let mut vault = PromptVault::open(dir.path().to_str().unwrap()).unwrap();
    vault.add("k", "abc").unwrap();
    vault.update("k", "def", None).unwrap();
    let history = vault.history("k").unwrap();
    assert_eq!(history[0].object_hash, calculate_hash("abc"));
    assert_eq!(history[1].object_hash, calculate_hash("def"));
}

#[test]
fn unicode_content_round_trips() {
    let dir = tempdir().unwrap();
    let mut vault = PromptVault::open(dir.path().to_str().unwrap()).unwrap();
    let content = "prompt: \u{00e9}\u{0442}\u{4e16}\u{1F600} end";
    vault.add("unicode", content).unwrap();
    assert_eq!(vault.get("unicode", VersionSelector::Latest).unwrap(), content);
    vault.update("unicode", "plain", None).unwrap();
    assert_eq!(vault.get("unicode", VersionSelector::Version(1)).unwrap(), content);
}

#[test]
fn sync_manager_facade() {
    let dir = tempdir().unwrap();
    let manager = SyncPromptManager::with_path(dir.path().to_str().unwrap()).unwrap();
    let handle = manager.clone();
    assert_eq!(manager.add("k", "c1").unwrap(), 1);
    assert_eq!(handle.update("k", "c2", Some("msg")).unwrap(), 2);
    assert_eq!(manager.latest("k").unwrap(), "c2");
    manager.tag("k", "stable", 1).unwrap();
    assert_eq!(handle.get_prompt("k", VersionSelector::Tag("stable")).unwrap(), "c1");
    manager.promote("k", "stable").unwrap();
    assert_eq!(manager.get_prompt("k", VersionSelector::Tag("stable")).unwrap(), "c2");
    assert_eq!(manager.history("k").unwrap().len(), 2);

    let blob = manager.backup(Some("pw")).unwrap();
    let target = tempdir().unwrap();
    let p = target.path().join("restored");
    manager.restore(p.to_str().unwrap(), &blob, Some("pw")).unwrap();
    assert_eq!(manager.latest("k").unwrap(), "c2");

    manager.delete_prompt("k").unwrap();
    assert_eq!(manager.history("k").unwrap().len(), 0);
}

#[test]
fn backup_round_trips_all_keys() {
    let dir = tempdir().unwrap();
    let target = tempdir().unwrap();
    let mut vault = PromptVault::open(dir.path().to_str().unwrap()).unwrap();
    vault.add("alpha", "a1").unwrap();
    vault.update("alpha", "a2", None).unwrap();
    vault.add("beta", "b1").unwrap();
    vault.tag("alpha", "stable", 1).unwrap();
    let blob = vault.dump(None).unwrap();
    let p = target.path().join("restored");
    let restored = PromptVault::restore(p.to_str().unwrap(), &blob, None).unwrap();
    assert_eq!(restored.get("alpha", VersionSelector::Latest).unwrap(), "a2");
    assert_eq!(restored.get("alpha", VersionSelector::Tag("stable")).unwrap(), "a1");
    assert_eq!(restored.get("beta", VersionSelector::Latest).unwrap(), "b1");
    assert_eq!(restored.history("alpha").unwrap().len(), 2);
    assert_eq!(restored.history("beta").unwrap().len(), 1);
}
