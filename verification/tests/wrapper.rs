use msiviewer::bindings::DbFlags;
use msiviewer::wrapper::{fits_c_bytes, fits_c_string, Database};

#[test]
fn nul_in_query_is_refused_before_the_native_call() {
    let db = Database::from_handle(7u32);
    let mut called = false;
    let it = db.query_iter("select \0 from x", |_: &u32, _: &str| {
        called = true;
        Some(1u8)
    });
    assert!(it.is_none());
    assert!(!called);
}

#[test]
fn query_iter_hands_query_to_native_call() {
    let db = Database::from_handle(7u32);
    let it = db.query_iter("select `File` from `File`", |h: &u32, q: &str| Some((*h, q.len())));
    let it = it.unwrap();
    assert_eq!(*it.query(), (7, 25));
}

#[test]
fn failed_native_query_gives_none() {
    let db = Database::from_handle(());
    assert!(db.query_iter("bad query", |_: &(), _: &str| None::<u8>).is_none());
}

#[test]
fn fetch_iter_yields_until_native_end() {
    let db = Database::from_handle(0u8);
    let mut it = db.query_iter("q", |_: &u8, _: &str| Some(3u32)).unwrap();
    assert_eq!(it.next(|q: &u32| Some(*q * 2)), Some(6));
    assert_eq!(it.next(|_: &u32| None::<u32>), None);
    assert_eq!(*it.query(), 3);
}

#[test]
fn database_path_with_zero_byte_is_refused() {
    let r = Database::new(b"a\0b.msi", DbFlags::readonly(), |_: &[u8], _: DbFlags| Some(1u8));
    assert!(r.is_none());
}

#[test]
fn database_opens_through_native_call() {
    let r = Database::new(b"setup.msi", DbFlags::readonly(), |p: &[u8], f: DbFlags| Some((p.len(), f)));
    assert_eq!(*r.unwrap().handle(), (9, DbFlags::readonly()));
    let none = Database::new(b"missing.msi", DbFlags::readonly(), |_: &[u8], _: DbFlags| None::<u8>);
    assert!(none.is_none());
}

#[test]
fn c_string_checks() {
    assert!(fits_c_string("plain"));
    assert!(!fits_c_string("a\0"));
    assert!(fits_c_bytes(b""));
    assert!(!fits_c_bytes(&[1, 0, 2]));
}
