use clpd::crypto::{decrypt, MasterKey};
use clpd::error::ClipError;
use clpd::models::{ClipboardContentType, ClipboardEntry};
use clpd::remote::{
    decode_listing, decode_string_list, delete_result, encode_listing, encode_string_list, hash_check_body,
    hash_check_result, upload_result, NetworkClipboardDatabase,
};

fn client() -> NetworkClipboardDatabase {
    NetworkClipboardDatabase::new(MasterKey::from_bytes([4u8; 32]), Some(10))
}

#[test]
fn request_addresses() {
    let c = client();
    assert_eq!(c.list_url(), "http://localhost:2573/clipboard/list");
    assert_eq!(c.salt_url(), "http://localhost:2573/clipboard/salt");
    assert_eq!(c.insert_url(), "http://localhost:2573/clipboard/insert");
    assert_eq!(c.delete_url("12-34"), "http://localhost:2573/clipboard/delete/12-34");
    assert_eq!(c.check_hash_url("abcd"), "http://localhost:2573/clipboard/check_hash/abcd");
    assert_eq!(c.max_entries(), Some(10));
    assert_eq!(c.poll_interval_ms(), 500);
}

#[test]
fn hash_check_answers() {
    assert_eq!(hash_check_result(true, "1"), Ok(true));
    assert_eq!(hash_check_result(true, " 1\n"), Ok(true));
    assert_eq!(hash_check_result(true, "0"), Ok(false));
    assert_eq!(hash_check_result(true, "11"), Ok(false));
    assert_eq!(hash_check_result(false, "1"), Err(ClipError::Transport));
    assert_eq!(hash_check_body(true), "1");
    assert_eq!(hash_check_body(false), "0");
}

#[test]
fn delete_and_upload_answers() {
    assert_eq!(delete_result(200), Ok(true));
    assert_eq!(delete_result(204), Ok(true));
    assert_eq!(delete_result(404), Ok(false));
    assert_eq!(delete_result(500), Err(ClipError::Transport));
    assert_eq!(upload_result(true), Ok(true));
    assert_eq!(upload_result(false), Err(ClipError::Transport));
}

#[test]
fn upload_body_carries_sealed_entry() {
    let c = client();
    let body = c.prepare_upload(b"remote text", ClipboardContentType::Text).unwrap();
    let e = ClipboardEntry::from_compressed_string(&body).unwrap();
    assert_eq!(e.hash, NetworkClipboardDatabase::hash_data(b"remote text"));
    assert_eq!(e.content_type, ClipboardContentType::Text);
    let key = MasterKey::from_bytes([4u8; 32]);
    assert_eq!(decrypt(&key, &e.payload).unwrap(), b"remote text".to_vec());
}

#[test]
fn string_list_framing_matches_bincode() {
    let items = vec!["ab".to_string(), "".to_string(), "c".to_string()];
    let framed = encode_string_list(&items);
    assert_eq!(framed, bincode::serialize(&items).unwrap());
    assert_eq!(decode_string_list(&framed).unwrap(), items);
    assert!(decode_string_list(&framed[..framed.len() - 1]).is_none());
    assert!(decode_string_list(&[]).is_none());
    assert_eq!(decode_string_list(&[0, 0, 0, 0, 0, 0, 0, 0]).unwrap(), Vec::<String>::new());
}

#[test]
fn listing_body_round_trip() {
    let entries = vec![
        ClipboardEntry::new_at(ClipboardContentType::Text, vec![1, 2], "h1".to_string(), 20, 1),
        ClipboardEntry::new_at(ClipboardContentType::Image, vec![3], "h2".to_string(), 10, 2),
    ];
    let body = encode_listing(&entries);
    let back = decode_listing(&body).unwrap();
    assert_eq!(back.len(), 2);
    assert_eq!(back[0].id, "20-1");
    assert_eq!(back[1].payload, vec![3]);
    assert!(decode_listing("@@").is_none());
    assert!(decode_listing(&encode_listing(&Vec::new())).unwrap().is_empty());
}
