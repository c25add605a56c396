use unf_encryption::key_authority::KeyAuthorityError;
use unf_encryption::storage::{check_storage_entries, temporary_path, StorageEntry, FileNodeKeyStateStore};

fn directory(mode: u32) -> StorageEntry {
    StorageEntry {
        is_dir: true,
        is_file: false,
        is_symlink: false,
        link_count: 2,
        mode: 0o040000 | mode,
        owner_uid: 1000,
    }
}

fn file(mode: u32, link_count: u64, owner_uid: u32) -> StorageEntry {
    StorageEntry {
        is_dir: false,
        is_file: true,
        is_symlink: false,
        link_count,
        mode: 0o100000 | mode,
        owner_uid,
    }
}

#[test]
fn owner_only_directory_and_file_are_accepted() {
    assert!(check_storage_entries(&directory(0o700), &None).is_ok());
    assert!(check_storage_entries(&directory(0o700), &Some(file(0o600, 1, 1000))).is_ok());
}

#[test]
fn permissive_directory_hardlink_symlink_and_foreign_owner_are_rejected() {
    assert!(matches!(
        check_storage_entries(&directory(0o755), &None),
        Err(KeyAuthorityError::UnsafeStoragePath)
    ));
    assert!(matches!(
        check_storage_entries(&directory(0o700), &Some(file(0o600, 2, 1000))),
        Err(KeyAuthorityError::UnsafeStoragePath)
    ));
    assert!(matches!(
        check_storage_entries(&directory(0o700), &Some(file(0o644, 1, 1000))),
        Err(KeyAuthorityError::UnsafeStoragePath)
    ));
    assert!(matches!(
        check_storage_entries(&directory(0o700), &Some(file(0o600, 1, 0))),
        Err(KeyAuthorityError::UnsafeStoragePath)
    ));
    let mut link = file(0o600, 1, 1000);
    link.is_symlink = true;
    link.is_file = false;
    assert!(matches!(
        check_storage_entries(&directory(0o700), &Some(link)),
        Err(KeyAuthorityError::UnsafeStoragePath)
    ));
    let mut not_dir = directory(0o700);
    not_dir.is_dir = false;
    assert!(matches!(
        check_storage_entries(&not_dir, &None),
        Err(KeyAuthorityError::UnsafeStoragePath)
    ));
}

#[test]
fn temporary_checkpoint_is_a_hidden_sibling() {
    assert_eq!(
        temporary_path("/var/lib/unf/keys/authority.json").unwrap(),
        "/var/lib/unf/keys/.authority.json.tmp"
    );
    assert!(matches!(temporary_path("/"), Err(KeyAuthorityError::UnsafeStoragePath)));
    let store = FileNodeKeyStateStore::new("/var/lib/unf/keys/authority.json".to_owned());
    assert_eq!(store.path(), "/var/lib/unf/keys/authority.json");
}

#[test]
fn storage_rejects_permissive_directory_symlink_and_hardlink() {
    assert!(matches!(
        check_storage_entries(&directory(0o755), &None),
        Err(KeyAuthorityError::UnsafeStoragePath)
    ));
    assert!(check_storage_entries(&directory(0o700), &Some(file(0o600, 1, 1000))).is_ok());
    assert!(matches!(
        check_storage_entries(&directory(0o700), &Some(file(0o600, 2, 1000))),
        Err(KeyAuthorityError::UnsafeStoragePath)
    ));
    let mut link = file(0o600, 1, 1000);
    link.is_symlink = true;
    link.is_file = false;
    assert!(matches!(
        check_storage_entries(&directory(0o700), &Some(link)),
        Err(KeyAuthorityError::UnsafeStoragePath)
    ));
}
