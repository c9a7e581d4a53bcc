use clpd::crypto::{decrypt, MasterKey};
use clpd::models::{ClipboardContentType, ImageData};
use clpd::store::ClipboardDatabase;
use clpd::watcher::LocalClipboardWatcher;
use tempfile::TempDir;

fn watcher(max: Option<usize>) -> (TempDir, LocalClipboardWatcher) {
    let temp_dir = TempDir::new().unwrap();
    let db = ClipboardDatabase::open(temp_dir.path().join("w.db")).unwrap();
    let w = LocalClipboardWatcher::new(db, MasterKey::from_bytes([8u8; 32]), max);
    (temp_dir, w)
}

#[test]
fn test_hash_data() {
    let data = b"test data";
    let hash = LocalClipboardWatcher::hash_data(data);

    assert_eq!(hash.len(), 64);

    let hash2 = LocalClipboardWatcher::hash_data(data);
    assert_eq!(hash, hash2);

    let hash3 = LocalClipboardWatcher::hash_data(b"different data");
    assert_ne!(hash, hash3);
}

#[test]
fn hash_data_of_test_data() {
    assert_eq!(
        LocalClipboardWatcher::hash_data(b"test data"),
        "916f0027a575074ce72a331777c3478d6513f786a591bd892da1a577bf2335f9"
    );
}

#[test]
fn same_content_twice_stores_once() {
    let (_d, mut w) = watcher(None);
    assert!(w.process_text("hello").unwrap());
    assert!(!w.process_text("hello").unwrap());
    assert_eq!(w.db().count_entries(), 1);
}

#[test]
fn stored_entry_decrypts_to_the_text() {
    let (_d, mut w) = watcher(None);
    assert!(w.process_text("secret").unwrap());
    let list = w.db().list_entries().unwrap();
    assert_eq!(list.len(), 1);
    let e = &list[0];
    assert_eq!(e.content_type, ClipboardContentType::Text);
    assert_eq!(e.hash, LocalClipboardWatcher::hash_data(b"secret"));
    let key = MasterKey::from_bytes([8u8; 32]);
    assert_eq!(decrypt(&key, &e.payload).unwrap(), b"secret".to_vec());
}

#[test]
fn history_dedup_after_forgetting_last_hash() {
    let (_d, mut w) = watcher(None);
    assert!(w.process_text("one").unwrap());
    let db = w.into_db();
    let mut fresh = LocalClipboardWatcher::new(db, MasterKey::from_bytes([8u8; 32]), None);
    assert!(!fresh.process_text("one").unwrap());
    assert_eq!(fresh.db().count_entries(), 1);
}

#[test]
fn alternating_content_is_deduplicated_against_history() {
    let (_d, mut w) = watcher(None);
    assert!(w.process_text("a").unwrap());
    assert!(w.process_text("b").unwrap());
    assert!(!w.process_text("a").unwrap());
    assert_eq!(w.db().count_entries(), 2);
}

#[test]
fn retention_bound_prunes_after_insert() {
    let (_d, mut w) = watcher(Some(2));
    for t in ["1", "2", "3", "4"] {
        assert!(w.process_text(t).unwrap());
    }
    assert_eq!(w.db().count_entries(), 2);
}

#[test]
fn images_are_hashed_over_canonical_form() {
    let (_d, mut w) = watcher(None);
    let img = ImageData::new(1, 1, vec![1, 2, 3, 4]);
    assert!(w.process_image(&img).unwrap());
    assert!(!w.process_image(&img).unwrap());
    let e = &w.db().list_entries().unwrap()[0];
    assert_eq!(e.content_type, ClipboardContentType::Image);
    assert_eq!(e.hash, LocalClipboardWatcher::hash_data(&img.to_bytes()));
}

#[test]
fn check_clipboard_prefers_text_and_ignores_empty() {
    let (_d, mut w) = watcher(None);
    assert!(!w.check_clipboard(None, None).unwrap());
    assert!(!w.check_clipboard(Some(String::new()), None).unwrap());
    let img = ImageData::new(1, 1, vec![0, 0, 0, 0]);
    assert!(w.check_clipboard(Some("t".to_string()), Some(img.clone())).unwrap());
    assert_eq!(w.db().list_entries().unwrap()[0].content_type, ClipboardContentType::Text);
    assert!(w.check_clipboard(Some(String::new()), Some(img)).unwrap());
    assert_eq!(w.db().count_entries(), 2);
    assert_eq!(w.poll_interval_ms(), 500);
}
