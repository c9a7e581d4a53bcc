use clpd::browse::{Action, App, Key};
use clpd::crypto::{encrypt, MasterKey};
use clpd::models::{ClipboardContentType, ClipboardEntry};
use clpd::store::ClipboardDatabase;
use tempfile::TempDir;

fn key() -> MasterKey {
    MasterKey::from_bytes([6u8; 32])
}

fn app_with(n: u32) -> (TempDir, App) {
    let temp_dir = TempDir::new().unwrap();
    let mut db = ClipboardDatabase::open(temp_dir.path().join("b.db")).unwrap();
    for i in 1..=n {
        let payload = encrypt(&key(), format!("text {}", i).as_bytes()).unwrap();
        let e = ClipboardEntry::new_at(ClipboardContentType::Text, payload, format!("h{}", i), i as i64, i);
        db.insert_entry(&e).unwrap();
    }
    let app = App::new(db, key()).unwrap();
    (temp_dir, app)
}

#[test]
fn browser_starts_on_newest_entry() {
    let (_d, app) = app_with(3);
    assert_eq!(app.selected(), Some(0));
    assert_eq!(app.entries()[0].timestamp, 3);
    assert_eq!(app.get_selected_entry().unwrap().hash, "h3");
    let (_e, empty) = app_with(0);
    assert_eq!(empty.selected(), None);
    assert!(empty.get_selected_entry().is_none());
}

#[test]
fn browser_wraps_up_and_down() {
    let (_d, mut app) = app_with(3);
    app.previous();
    assert_eq!(app.selected(), Some(2));
    app.next();
    assert_eq!(app.selected(), Some(0));
    app.next();
    app.next();
    assert_eq!(app.selected(), Some(2));
    app.select_first();
    assert_eq!(app.selected(), Some(0));
    app.select_last();
    assert_eq!(app.selected(), Some(2));
}

#[test]
fn browser_pages_stop_at_the_ends() {
    let (_d, mut app) = app_with(25);
    app.page_down();
    assert_eq!(app.selected(), Some(10));
    app.page_down();
    app.page_down();
    assert_eq!(app.selected(), Some(24));
    app.page_up();
    assert_eq!(app.selected(), Some(14));
    app.page_up();
    app.page_up();
    assert_eq!(app.selected(), Some(0));
}

#[test]
fn browser_delete_keeps_selection_valid() {
    let (_d, mut app) = app_with(2);
    app.select_last();
    assert!(app.delete_selected().unwrap());
    assert_eq!(app.entries().len(), 1);
    assert_eq!(app.selected(), Some(0));
    assert!(app.delete_selected().unwrap());
    assert_eq!(app.selected(), None);
    assert!(!app.delete_selected().unwrap());
}

#[test]
fn browser_keys_and_plaintext() {
    let (_d, mut app) = app_with(2);
    assert_eq!(app.handle_key(Key::Down).unwrap(), Action::Nothing);
    assert_eq!(app.selected(), Some(1));
    let (kind, text) = app.selected_plaintext().unwrap().unwrap();
    assert_eq!(kind, ClipboardContentType::Text);
    assert_eq!(text, b"text 1".to_vec());
    assert_eq!(app.handle_key(Key::Copy).unwrap(), Action::Copy);
    assert_eq!(app.handle_key(Key::Refresh).unwrap(), Action::Refreshed);
    assert_eq!(app.handle_key(Key::Delete).unwrap(), Action::Deleted);
    assert_eq!(app.entries().len(), 1);
    assert!(!app.should_quit());
    assert_eq!(app.handle_key(Key::Quit).unwrap(), Action::Nothing);
    assert!(app.should_quit());
}
