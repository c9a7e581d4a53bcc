use clpd::backend::ClipboardBackend;
use clpd::crypto::MasterKey;
use clpd::models::ClipboardContentType;
use clpd::store::ClipboardDatabase;
use clpd::watcher::LocalClipboardWatcher;
use tempfile::TempDir;

fn backend() -> (TempDir, LocalClipboardWatcher) {
    let temp_dir = TempDir::new().unwrap();
    let db = ClipboardDatabase::open(temp_dir.path().join("k.db")).unwrap();
    (temp_dir, LocalClipboardWatcher::new(db, MasterKey::from_bytes([2u8; 32]), None))
}

fn use_backend<B: ClipboardBackend>(b: &mut B) -> (bool, bool, usize, bool, bool) {
    let first = b.hash_and_store(b"content", ClipboardContentType::Text).unwrap();
    let second = b.hash_and_store(b"content", ClipboardContentType::Text).unwrap();
    let list = b.list_entries().unwrap();
    let n = list.len();
    let deleted = b.delete_entry(&list[0].id).unwrap();
    let initialized = b.is_initialized().unwrap();
    (first, second, n, deleted, initialized)
}

#[test]
fn local_backend_capabilities() {
    let (_d, mut w) = backend();
    assert_eq!(use_backend(&mut w), (true, false, 1, true, false));
    assert!(w.get_salt().is_err());
    assert!(w.verify_password(&MasterKey::from_bytes([2u8; 32])).is_err());
    assert_eq!(w.list_entries().unwrap().len(), 0);
}

#[test]
fn derive_key_succeeds_for_generated_salt() {
    let salt = clpd::crypto::generate_salt();
    let key = clpd::crypto::derive_key("", &salt).unwrap();
    assert_eq!(key.as_bytes().len(), 32);
}
