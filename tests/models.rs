use clpd::digest::hash_data;
use clpd::models::{signed_decimal_string, make_entry_id, ClipboardContentType, ClipboardEntry, ImageData};

#[test]
fn test_entry_creation() {
    let entry = ClipboardEntry::new(ClipboardContentType::Text, vec![1, 2, 3, 4], "abc123".to_string());

    assert!(entry.id.contains("-"));
    assert_eq!(entry.content_type, ClipboardContentType::Text);
    assert_eq!(entry.payload, vec![1, 2, 3, 4]);
    assert_eq!(entry.hash, "abc123");
}

#[test]
fn entry_id_is_millis_dash_nonce() {
    assert_eq!(make_entry_id(1700000000123, 42), "1700000000123-42");
    assert_eq!(make_entry_id(0, 0), "0-0");
    assert_eq!(make_entry_id(-5, 4294967295), "-5-4294967295");
    assert_eq!(signed_decimal_string(i64::MIN), "-9223372036854775808");
}

#[test]
fn new_entry_id_starts_with_its_timestamp() {
    let e = ClipboardEntry::new(ClipboardContentType::Image, vec![], "h".to_string());
    assert!(e.id.starts_with(&format!("{}-", e.timestamp)));
}

#[test]
fn entry_record_round_trip() {
    let e = ClipboardEntry::new_at(ClipboardContentType::Image, vec![9, 8, 7], "ff00".to_string(), -1234, 77);
    let b = e.to_bytes();
    let d = ClipboardEntry::from_bytes(&b).unwrap();
    assert_eq!(d.id, "-1234-77");
    assert_eq!(d.timestamp, -1234);
    assert_eq!(d.content_type, ClipboardContentType::Image);
    assert_eq!(d.payload, vec![9, 8, 7]);
    assert_eq!(d.hash, "ff00");
}

#[test]
fn entry_record_layout() {
    let e = ClipboardEntry::new_at(ClipboardContentType::Text, vec![5], "h".to_string(), 1, 2);
    let b = e.to_bytes();
    let mut expected = vec![3, 0, 0, 0, 0, 0, 0, 0, b'1', b'-', b'2'];
    expected.extend_from_slice(&[1, 0, 0, 0, 0, 0, 0, 0]);
    expected.extend_from_slice(&[0, 0, 0, 0]);
    expected.extend_from_slice(&[1, 0, 0, 0, 0, 0, 0, 0, 5]);
    expected.extend_from_slice(&[1, 0, 0, 0, 0, 0, 0, 0, b'h']);
    assert_eq!(b, expected);
}

#[test]
fn entry_record_rejects_damage() {
    let e = ClipboardEntry::new_at(ClipboardContentType::Text, vec![5], "h".to_string(), 1, 2);
    let b = e.to_bytes();
    assert!(ClipboardEntry::from_bytes(&b[..b.len() - 1]).is_none());
    let mut longer = b.clone();
    longer.push(0);
    assert!(ClipboardEntry::from_bytes(&longer).is_none());
    let mut bad_tag = b.clone();
    bad_tag[19] = 2;
    assert!(ClipboardEntry::from_bytes(&bad_tag).is_none());
    let mut bad_utf8 = b.clone();
    bad_utf8[8] = 0xff;
    assert!(ClipboardEntry::from_bytes(&bad_utf8).is_none());
    assert!(ClipboardEntry::from_bytes(&[]).is_none());
}

#[test]
fn compressed_string_round_trip() {
    let e = ClipboardEntry::new_at(ClipboardContentType::Text, vec![0, 255], "abc".to_string(), 99, 1);
    let s = e.to_compressed_string();
    assert_ne!(s.as_bytes(), e.to_bytes().as_slice());
    let d = ClipboardEntry::from_compressed_string(&s).unwrap();
    assert_eq!(d.id, e.id);
    assert_eq!(d.payload, e.payload);
    assert!(ClipboardEntry::from_compressed_string("not base64!").is_none());
}

#[test]
fn compressed_string_is_standard_base64_of_record() {
    let e = ClipboardEntry::new_at(ClipboardContentType::Text, vec![], "".to_string(), 0, 0);
    // record: 8-byte length 3, "0-0", 8 zero bytes, 4 zero bytes, two empty fields
    assert_eq!(e.to_compressed_string(), "AwAAAAAAAAAwLTAAAAAAAAAAAAAAAAAAAAAAAAAAAAAAAAAAAAAA");
}

#[test]
fn preview_shows_time_id_and_kind() {
    let e = ClipboardEntry::new_at(ClipboardContentType::Text, vec![], "".to_string(), 0, 7);
    assert_eq!(e.preview(), "[1970-01-01 00:00:00] 0-7 - Text");
    let i = ClipboardEntry::new_at(ClipboardContentType::Image, vec![], "".to_string(), 86_400_000, 1);
    assert_eq!(i.preview(), "[1970-01-02 00:00:00] 86400000-1 - Image");
}

#[test]
fn image_bytes_round_trip_and_layout() {
    let img = ImageData::new(2, 1, vec![1, 2, 3, 4, 5, 6, 7, 8]);
    let b = img.to_bytes();
    assert_eq!(&b[..8], &[2, 0, 0, 0, 0, 0, 0, 0]);
    assert_eq!(&b[8..16], &[1, 0, 0, 0, 0, 0, 0, 0]);
    assert_eq!(&b[16..24], &[8, 0, 0, 0, 0, 0, 0, 0]);
    assert_eq!(&b[24..], &[1, 2, 3, 4, 5, 6, 7, 8]);
    let back = ImageData::from_bytes(&b).unwrap();
    assert_eq!((back.width, back.height, back.bytes), (2, 1, vec![1, 2, 3, 4, 5, 6, 7, 8]));
    assert!(ImageData::from_bytes(&b[..20]).is_none());
}

#[test]
fn hash_data_known_digest() {
    assert_eq!(hash_data(b"abc"), "ba7816bf8f01cfea414140de5dae2223b00361a396177a9cb410ff61f20015ad");
    assert_eq!(hash_data(b""), "e3b0c44298fc1c149afbf4c8996fb92427ae41e4649b934ca495991b7852b855");
}
