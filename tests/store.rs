use clpd::crypto::{derive_key, encrypt, MasterKey};
use clpd::error::ClipError;
use clpd::models::{ClipboardContentType, ClipboardEntry};
use clpd::store::{entry_stats, verification_plaintext, ClipboardDatabase};
use tempfile::TempDir;

fn open_temp() -> (TempDir, ClipboardDatabase) {
    let temp_dir = TempDir::new().unwrap();
    let db_path = temp_dir.path().join("test.db");
    let db = ClipboardDatabase::open(db_path).unwrap();
    (temp_dir, db)
}

fn entry_at(ts: i64, n: u32, hash: &str) -> ClipboardEntry {
    ClipboardEntry::new_at(ClipboardContentType::Text, vec![n as u8], hash.to_string(), ts, n)
}

#[test]
fn test_database_creation() {
    let temp_dir = TempDir::new().unwrap();
    let db_path = temp_dir.path().join("test.db");

    let db = ClipboardDatabase::open(db_path).unwrap();
    assert!(!db.is_initialized().unwrap());
}

#[test]
fn test_initialization() {
    let temp_dir = TempDir::new().unwrap();
    let db_path = temp_dir.path().join("test.db");

    let mut db = ClipboardDatabase::open(db_path).unwrap();
    let salt = vec![1, 2, 3, 4, 5, 6, 7, 8, 9, 10, 11, 12, 13, 14, 15, 16];
    let payload = vec![1, 2, 3];

    db.initialize(&salt, &payload).unwrap();
    assert!(db.is_initialized().unwrap());
    assert_eq!(db.get_salt().unwrap(), salt);
}

#[test]
fn uninitialized_store_reports_missing_metadata() {
    let (_d, db) = open_temp();
    assert_eq!(db.get_salt(), Err(ClipError::NotInitialized));
    assert_eq!(db.get_payload(), Err(ClipError::NotFound));
    assert_eq!(db.verify_password(&MasterKey::from_bytes([0u8; 32])), Err(ClipError::NotFound));
    assert_eq!(db.unlock("pw").err(), Some(ClipError::NotInitialized));
}

#[test]
fn initialize_records_version_and_payload() {
    let (_d, mut db) = open_temp();
    db.initialize(&[9u8; 16], &[4, 5]).unwrap();
    assert_eq!(db.get_payload().unwrap(), vec![4, 5]);
}

#[test]
fn verify_password_end_to_end() {
    let (_d, mut db) = open_temp();
    let salt = [7u8; 16];
    let key = derive_key("correcthorse1", &salt).unwrap();
    let payload = encrypt(&key, &verification_plaintext()).unwrap();
    db.initialize(&salt, &payload).unwrap();
    assert!(db.verify_password(&key).unwrap());
    let wrong = derive_key("wrong-password", &salt).unwrap();
    assert!(!db.verify_password(&wrong).unwrap());
}

#[test]
fn init_with_password_then_unlock() {
    let (_d, mut db) = open_temp();
    let key = db.init_with_password("correcthorse1", &[3u8; 16]).unwrap();
    assert!(db.verify_password(&key).unwrap());
    let again = db.unlock("correcthorse1").unwrap();
    assert_eq!(again.as_bytes(), key.as_bytes());
    assert_eq!(db.unlock("wrong-password").err(), Some(ClipError::Decryption));
}

#[test]
fn verification_plaintext_is_clpd_test() {
    assert_eq!(verification_plaintext(), b"clpd_test".to_vec());
}

#[test]
fn insert_get_delete_entry() {
    let (_d, mut db) = open_temp();
    let e = entry_at(10, 1, "h1");
    db.insert_entry(&e).unwrap();
    assert_eq!(db.count_entries(), 1);
    let got = db.get_entry(&e.id).unwrap().unwrap();
    assert_eq!(got.id, e.id);
    assert_eq!(got.timestamp, 10);
    assert_eq!(got.payload, e.payload);
    assert_eq!(got.hash, "h1");
    assert!(db.get_entry("missing").unwrap().is_none());
    assert!(db.delete_entry(&e.id).unwrap());
    assert!(!db.delete_entry(&e.id).unwrap());
    assert_eq!(db.count_entries(), 0);
}

#[test]
fn hash_exists_scans_all_entries() {
    let (_d, mut db) = open_temp();
    assert!(!db.hash_exists("aa").unwrap());
    db.insert_entry(&entry_at(1, 1, "aa")).unwrap();
    db.insert_entry(&entry_at(2, 2, "bb")).unwrap();
    assert!(db.hash_exists("aa").unwrap());
    assert!(db.hash_exists("bb").unwrap());
    assert!(!db.hash_exists("cc").unwrap());
}

#[test]
fn list_entries_newest_first() {
    let (_d, mut db) = open_temp();
    db.insert_entry(&entry_at(100, 1, "a")).unwrap();
    db.insert_entry(&entry_at(300, 3, "c")).unwrap();
    db.insert_entry(&entry_at(200, 2, "b")).unwrap();
    let list = db.list_entries().unwrap();
    let stamps: Vec<i64> = list.iter().map(|e| e.timestamp).collect();
    assert_eq!(stamps, vec![300, 200, 100]);
    let hashes: Vec<&str> = list.iter().map(|e| e.hash.as_str()).collect();
    assert_eq!(hashes, vec!["c", "b", "a"]);
}

#[test]
fn list_entries_of_empty_store() {
    let (_d, db) = open_temp();
    assert!(db.list_entries().unwrap().is_empty());
}

#[test]
fn prune_five_to_three() {
    let (_d, mut db) = open_temp();
    for i in 1..=5u32 {
        db.insert_entry(&entry_at(i as i64 * 1000, i, &format!("h{}", i))).unwrap();
    }
    assert_eq!(db.prune_to_limit(3).unwrap(), 2);
    assert_eq!(db.count_entries(), 3);
    let stamps: Vec<i64> = db.list_entries().unwrap().iter().map(|e| e.timestamp).collect();
    assert_eq!(stamps, vec![5000, 4000, 3000]);
}

#[test]
fn prune_within_bound_is_noop() {
    let (_d, mut db) = open_temp();
    db.insert_entry(&entry_at(1, 1, "x")).unwrap();
    db.insert_entry(&entry_at(2, 2, "y")).unwrap();
    assert_eq!(db.prune_to_limit(2).unwrap(), 0);
    assert_eq!(db.prune_to_limit(10).unwrap(), 0);
    assert_eq!(db.count_entries(), 2);
}

#[test]
fn prune_to_zero_empties_store() {
    let (_d, mut db) = open_temp();
    db.insert_entry(&entry_at(1, 1, "x")).unwrap();
    db.insert_entry(&entry_at(2, 2, "y")).unwrap();
    assert_eq!(db.prune_to_limit(0).unwrap(), 2);
    assert_eq!(db.count_entries(), 0);
}

#[test]
fn reinitializing_keeps_entries() {
    let (_d, mut db) = open_temp();
    db.initialize(&[1u8; 16], &[1]).unwrap();
    db.insert_entry(&entry_at(5, 5, "keep")).unwrap();
    db.initialize(&[2u8; 16], &[2]).unwrap();
    assert_eq!(db.count_entries(), 1);
    assert_eq!(db.get_salt().unwrap(), vec![2u8; 16]);
    db.flush().unwrap();
}

#[test]
fn entry_stats_counts_kinds_and_bytes() {
    let entries = vec![
        ClipboardEntry::new_at(ClipboardContentType::Text, vec![0; 10], "a".to_string(), 1, 1),
        ClipboardEntry::new_at(ClipboardContentType::Image, vec![0; 30], "b".to_string(), 2, 2),
        ClipboardEntry::new_at(ClipboardContentType::Text, vec![], "c".to_string(), 3, 3),
    ];
    let s = entry_stats(&entries);
    assert_eq!((s.total, s.text, s.image, s.payload_bytes), (3, 2, 1, 40));
    let empty = entry_stats(&Vec::new());
    assert_eq!((empty.total, empty.text, empty.image, empty.payload_bytes), (0, 0, 0, 0));
}

#[test]
fn equal_timestamps_list_in_increasing_id_order() {
    let (_d, mut db) = open_temp();
    db.insert_entry(&entry_at(5, 2, "b")).unwrap();
    db.insert_entry(&entry_at(5, 1, "a")).unwrap();
    db.insert_entry(&entry_at(9, 3, "c")).unwrap();
    let ids: Vec<String> = db.list_entries().unwrap().iter().map(|e| e.id.clone()).collect();
    assert_eq!(ids, vec!["9-3".to_string(), "5-1".to_string(), "5-2".to_string()]);
    assert_eq!(db.prune_to_limit(2).unwrap(), 1);
    assert!(db.get_entry("5-2").unwrap().is_none());
    assert!(db.get_entry("5-1").unwrap().is_some());
}

#[test]
fn prune_keeps_the_three_newest_by_id() {
    let (_d, mut db) = open_temp();
    for i in 1..=5u32 {
        db.insert_entry(&entry_at(i as i64, i, "h")).unwrap();
    }
    assert_eq!(db.prune_to_limit(3).unwrap(), 2);
    assert!(db.get_entry("1-1").unwrap().is_none());
    assert!(db.get_entry("2-2").unwrap().is_none());
    for id in ["3-3", "4-4", "5-5"] {
        assert!(db.get_entry(id).unwrap().is_some());
    }
}
