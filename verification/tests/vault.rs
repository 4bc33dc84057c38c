use promptpro::{PromptVault, VersionMeta, VersionSelector};
use promptpro::calculate_hash;
use tempfile::tempdir;

#[test]
fn test_library_api() {
    let dir = tempdir().unwrap();
    let mut vault = PromptVault::open(dir.path().to_str().unwrap()).unwrap();

    // Test adding a prompt
    vault.add("greet", "hello world").unwrap();

    // Test getting the prompt
    let text = vault.get("greet", VersionSelector::Latest).unwrap();
    assert_eq!(text, "hello world");

    // Test updating the prompt
    vault.update("greet", "hi there", Some("test update".to_string())).unwrap();
    let text = vault.get("greet", VersionSelector::Latest).unwrap();
    assert_eq!(text, "hi there");

    // Test tagging
    vault.tag("greet", "stable", 1).unwrap(); // Tag version 1 as stable
    let text = vault.get("greet", VersionSelector::Tag("stable")).unwrap();
    assert_eq!(text, "hello world");

    // Test history
    let history = vault.history("greet").unwrap();
    assert_eq!(history.len(), 2);
}

#[test]
fn test_vault_operations() {
    let dir = tempdir().unwrap();
    let mut vault = PromptVault::open(dir.path().to_str().unwrap()).unwrap();

    // Test adding a prompt
    vault.add("test_key", "initial content").unwrap();

    // Test getting the prompt
    let content = vault.get("test_key", VersionSelector::Latest).unwrap();
    assert_eq!(content, "initial content");

    // Test updating the prompt
    vault.update("test_key", "updated content", Some("test message".to_string())).unwrap();

    // Test getting the updated prompt
    let content = vault.get("test_key", VersionSelector::Latest).unwrap();
    assert_eq!(content, "updated content");

    // Test history
    let history = vault.history("test_key").unwrap();
    assert_eq!(history.len(), 2);
    assert_eq!(history[0].version, 1);
    assert_eq!(history[1].version, 2);
    assert_eq!(history[1].message, Some("test message".to_string()));
}

#[test]
fn test_tagging() {
    let dir = tempdir().unwrap();
    let mut vault = PromptVault::open(dir.path().to_str().unwrap()).unwrap();

    vault.add("test_key", "content v1").unwrap();
    vault.update("test_key", "content v2", None).unwrap();

    // Tag version 1 as "stable"
    vault.tag("test_key", "stable", 1).unwrap();

    // Get content by tag
    let content = vault.get("test_key", VersionSelector::Tag("stable")).unwrap();
    assert_eq!(content, "content v1");

    // Promote tag to latest
    vault.promote("test_key", "stable").unwrap();
    let content = vault.get("test_key", VersionSelector::Tag("stable")).unwrap();
    assert_eq!(content, "content v2");
}

#[test]
fn test_dev_tag_logic() {
    let dir = tempdir().unwrap();
    let mut vault = PromptVault::open(dir.path().to_str().unwrap()).unwrap();

    // Add initial version
    vault.add("test_key", "content v1").unwrap();

    // Update to create a second version - dev should automatically be on latest (v2)
    vault.update("test_key", "content v2", None).unwrap();

    // Check that dev tag points to latest version (should be v2)
    let history = vault.history("test_key").unwrap();
    assert_eq!(history.len(), 2);

    // v2 should have the dev tag
    let latest_version = history.last().unwrap();
    assert_eq!(latest_version.version, 2);
    assert!(latest_version.tags.contains(&"dev".to_string()));

    // v1 should not have the dev tag
    let first_version = &history[0];
    assert_eq!(first_version.version, 1);
    assert!(!first_version.tags.contains(&"dev".to_string()));

    // Try to manually tag v1 as dev - this should fail
    let result = vault.tag("test_key", "dev", 1);
    assert!(result.is_err());
    assert!(result.unwrap_err().describe().contains("'dev' tag can only be set to the latest version"));

    // Now update again to create v3 - dev should automatically move to v3
    vault.update("test_key", "content v3", None).unwrap();

    let new_history = vault.history("test_key").unwrap();
    assert_eq!(new_history.len(), 3);

    // v3 should have the dev tag now
    let latest_version = new_history.last().unwrap();
    assert_eq!(latest_version.version, 3);
    assert!(latest_version.tags.contains(&"dev".to_string()));

    // v2 should no longer have the dev tag
    let second_version = &new_history[1]; // v2
    assert_eq!(second_version.version, 2);
    assert!(!second_version.tags.contains(&"dev".to_string()));
}

#[test]
fn test_dump_restore_unencrypted() {
    let source_dir = tempdir().unwrap();
    let target_dir = tempdir().unwrap();

    let mut source_vault = PromptVault::open(source_dir.path().to_str().unwrap()).unwrap();

    // Add some data to the source vault
    source_vault.add("test_key", "test content").unwrap();
    source_vault.update("test_key", "updated content", Some("test update".to_string())).unwrap();
    source_vault.tag("test_key", "stable", 1).unwrap();

    // Check original content
    let original_content = source_vault.get("test_key", VersionSelector::Latest).unwrap();
    assert_eq!(original_content, "updated content");

    // Dump the vault to a blob
    let dump = source_vault.dump(None).unwrap();

    // Restore to a new vault location
    let target_path = target_dir.path().join("test_dump.vault");
    let restored_vault = PromptVault::restore(target_path.to_str().unwrap(), &dump, None).unwrap();

    // Check that the restored data is the same
    let content = restored_vault.get("test_key", VersionSelector::Latest).unwrap();
    assert_eq!(content, "updated content");

    // Check history
    let history = restored_vault.history("test_key").unwrap();
    assert_eq!(history.len(), 2);
    // Check the first version (v1) - it should carry the tag set from the source
    assert_eq!(history[0].version, 1);
    assert!(history[0].tags.contains(&"stable".to_string()));
}

#[test]
fn test_dump_restore_encrypted() {
    let source_dir = tempdir().unwrap();
    let target_dir = tempdir().unwrap();

    let mut source_vault = PromptVault::open(source_dir.path().to_str().unwrap()).unwrap();

    // Add some data to the source vault
    source_vault.add("encrypted_key", "secret content").unwrap();
    source_vault.update("encrypted_key", "updated secret content", Some("update message".to_string())).unwrap();
    source_vault.tag("encrypted_key", "secret", 1).unwrap();

    // Dump the vault to a blob with password
    let dump = source_vault.dump(Some("mypassword")).unwrap();

    // Restore the vault from the blob with correct password
    let target_path = target_dir.path().join("encrypted_dump.vault");
    let restored_vault =
        PromptVault::restore(target_path.to_str().unwrap(), &dump, Some("mypassword")).unwrap();

    // Check that the restored data is the same
    let content = restored_vault.get("encrypted_key", VersionSelector::Latest).unwrap();
    assert_eq!(content, "updated secret content");

    // Check history
    let history = restored_vault.history("encrypted_key").unwrap();
    assert_eq!(history.len(), 2);
    assert!(history[0].tags.contains(&"secret".to_string()));

    // Try to restore with wrong password - should fail
    let other_path = target_dir.path().join("wrong_password.vault");
    let result = PromptVault::restore(other_path.to_str().unwrap(), &dump, Some("wrongpassword"));
    assert!(result.is_err());
}

#[test]
fn test_version_meta_creation() {
    let meta = VersionMeta::new(
        "test_key".to_string(),
        1,
        "test content",
        None,
        Some("initial version".to_string()),
    );

    assert_eq!(meta.key, "test_key");
    assert_eq!(meta.version, 1);
    assert_eq!(meta.message, Some("initial version".to_string()));
    assert!(!meta.object_hash.is_empty());
    assert_eq!(meta.tags.len(), 0);
}

#[test]
fn test_hash_calculation() {
    let content1 = "hello world";
    let content2 = "hello world";
    let content3 = "different content";

    assert_eq!(calculate_hash(content1), calculate_hash(content2));
    assert_ne!(calculate_hash(content1), calculate_hash(content3));
}
