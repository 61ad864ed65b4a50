use std::collections::HashMap;
use std::io::{Read, Write};

use inventory_core::db::{
    byte_counts, contain, container_parts, convert_plaintext_to_encrypted, finish_conversion,
    is_plaintext_sqlite, judge, looks_encrypted, open, parse_key, read_header, seal_to, seal_with,
    unseal, Conversion, Found, Opened, Opening, MAGIC, SQLITE_HEADER,
};
use inventory_core::error::Error;
use inventory_core::path::Platform;
use inventory_core::steps::Step;
use rusqlite::Connection;

/// Files held in memory.
type Files = HashMap<String, Vec<u8>>;

fn perform(files: &mut Files, steps: &[Step]) {
    for step in steps {
        match step {
            Step::Write { path, bytes } => {
                files.insert(path.clone(), bytes.clone());
            }
            Step::Rename { from, to } => {
                let bytes = files.remove(from).expect("rename of a file that is not there");
                files.insert(to.clone(), bytes);
            }
        }
    }
}

/// Opens an index as far as it goes, with a keychain that holds `key`; an empty
/// one holds none and would make `minted`.
fn open_with(files: &Files, path: &str, key: &str, minted: &str) -> Result<Opened, Error> {
    let mut found = Found { existed: files.contains_key(path), key_held: None, key: None, sealed: None };
    loop {
        match open(path, "the test keychain", &found)? {
            Opening::AskForKey => found.key_held = Some(!key.is_empty()),
            Opening::FetchKey => {
                found.key = Some(if key.is_empty() { minted.to_string() } else { key.to_string() })
            }
            Opening::ReadIndex => found.sealed = files.get(path).cloned(),
            Opening::Ready(opened) => return Ok(opened),
        }
    }
}

/// The bytes of a database file that `sql` has built.
fn sqlite_bytes(sql: &str) -> Vec<u8> {
    let file = tempfile::NamedTempFile::new().unwrap();
    let conn = Connection::open(file.path()).unwrap();
    conn.execute_batch(sql).unwrap();
    drop(conn);
    let mut bytes = Vec::new();
    file.reopen().unwrap().read_to_end(&mut bytes).unwrap();
    bytes
}

fn setting(bytes: &[u8], key: &str) -> String {
    let mut file = tempfile::NamedTempFile::new().unwrap();
    file.write_all(bytes).unwrap();
    file.flush().unwrap();
    let conn = Connection::open(file.path()).unwrap();
    conn.query_row("SELECT value FROM settings WHERE key = ?1", [key], |r| r.get(0)).unwrap()
}

fn entropy(bytes: &[u8]) -> f64 {
    let len = bytes.len() as f64;
    let mut h = 0.0;
    for c in byte_counts(bytes) {
        if c > 0 {
            let p = c as f64 / len;
            h -= p * p.log2();
        }
    }
    h
}

fn sealed_at(path: &str, plaintext: &[u8], key: &str) -> Files {
    let mut files = Files::new();
    let steps = seal_to(Platform::Unix, path, plaintext, &parse_key(key).unwrap()).unwrap();
    perform(&mut files, &steps);
    files
}

#[test]
fn round_trips_through_encryption() {
    let path = "/data/inventory.sqlite3";
    let key = "a".repeat(64);
    let fresh = open_with(&Files::new(), path, &key, "").unwrap();
    assert_eq!(fresh.plaintext, None);

    let db = sqlite_bytes(
        "CREATE TABLE settings(key TEXT PRIMARY KEY, value TEXT NOT NULL);
         INSERT INTO settings(key,value) VALUES ('hello','world')",
    );
    let mut files = Files::new();
    perform(&mut files, &seal_to(Platform::Unix, path, &db, &fresh.key).unwrap());

    assert!(looks_encrypted(files.get(path).map(|v| v.as_slice())), "index should be encrypted at rest");
    assert!(entropy(&files[path]) > 7.5, "encrypted file should look random");
    assert_eq!(files.len(), 1);

    let opened = open_with(&files, path, &key, "").unwrap();
    assert_eq!(opened.key, fresh.key);
    assert_eq!(setting(&opened.plaintext.unwrap(), "hello"), "world");
}

#[test]
fn wrong_key_is_an_error_not_a_fresh_index() {
    let path = "/data/inventory.sqlite3";
    let files = sealed_at(path, b"contents", &"a".repeat(64));
    let err = open_with(&files, path, &"b".repeat(64), "").unwrap_err();
    assert!(matches!(err, Error::KeyMismatch(_)), "got {err:?}");
    assert_eq!(err.message(), "/data/inventory.sqlite3 exists but the key does not open it");
}

#[test]
fn an_index_written_with_one_key_will_not_open_with_another() {
    let files = sealed_at("/i", b"x", &"1".repeat(64));
    match open_with(&files, "/i", &"2".repeat(64), "") {
        Err(Error::KeyMismatch(_)) => {}
        Err(other) => panic!("expected a key mismatch, got {other:?}"),
        Ok(_) => panic!("a wrong key opened the index"),
    }
}

/// The Linux reboot case: an index with no key must say so, not mint a fresh key
/// and then fail to decrypt with what reads like a corruption error.
#[test]
fn an_index_with_no_key_reports_the_lost_key_rather_than_minting_one() {
    let path = "/data/inventory.sqlite3";
    let files = sealed_at(path, b"contents", &"d".repeat(64));
    match open_with(&files, path, "", &"d".repeat(64)) {
        Err(Error::KeyUnavailable(msg)) => {
            assert!(msg.contains("holds no key"), "unhelpful message: {msg}");
            assert!(msg.contains("rebuilt"), "no recovery advice: {msg}");
            assert!(msg.starts_with("/data/inventory.sqlite3 exists but the test keychain holds no key for it.\n"));
        }
        Err(other) => panic!("expected a lost-key error, got {other:?}"),
        Ok(_) => panic!("opened an encrypted index with no key"),
    }
    // A first run may make one.
    assert!(open_with(&Files::new(), path, "", &"d".repeat(64)).is_ok());
}

fn converted(files: &mut Files, path: &str, key: &str) -> Result<Option<Conversion>, Error> {
    let original = files.get(path).cloned();
    let conversion = match convert_plaintext_to_encrypted(Platform::Unix, path, original.as_deref(), key)? {
        None => return Ok(None),
        Some(c) => c,
    };
    perform(files, &conversion.steps);
    let steps = finish_conversion(path, &conversion, &original.unwrap(), &files[&conversion.staging])?;
    perform(files, &steps);
    Ok(Some(conversion))
}

#[test]
fn plaintext_index_converts_and_keeps_a_backup() {
    let path = "/data/inventory.sqlite3";
    let db = sqlite_bytes(
        "CREATE TABLE settings(key TEXT PRIMARY KEY, value TEXT NOT NULL);
         INSERT INTO settings VALUES ('kept','yes');",
    );
    let mut files = Files::new();
    files.insert(path.to_string(), db.clone());
    assert!(!looks_encrypted(Some(&db)));
    assert!(is_plaintext_sqlite(Some(&db)));

    let key = "c".repeat(64);
    let backup = converted(&mut files, path, &key).unwrap().unwrap().backup;

    assert_eq!(backup, "/data/inventory.plaintext.bak");
    assert_eq!(files.get(&backup), Some(&db), "original should be preserved");
    assert!(looks_encrypted(Some(&files[path])));
    assert_eq!(files.len(), 2);
    let opened = open_with(&files, path, &key, "").unwrap();
    assert_eq!(setting(&opened.plaintext.unwrap(), "kept"), "yes");
    // There is nothing left to convert.
    assert!(converted(&mut files, path, &key).unwrap().is_none());
    assert!(converted(&mut Files::new(), path, "no key").unwrap().is_none());
}

/// A version of this app that used SQLCipher wrote pages that can no longer be
/// decrypted. That must fail clearly, not be silently treated as a fresh index.
#[test]
fn a_legacy_sqlcipher_style_file_is_a_clear_error_not_a_fresh_index() {
    let path = "/data/inventory.sqlite3";
    let mut files = Files::new();
    files.insert(path.to_string(), vec![0x42u8; 4096]);
    match open_with(&files, path, &"e".repeat(64), "") {
        Err(Error::LegacyIndexFormat { path: p }) => assert_eq!(p, path),
        other => panic!("expected LegacyIndexFormat, got {other:?}"),
    }
}

#[test]
fn opening_leaves_the_sealed_file_alone_and_every_seal_differs() {
    let key = "f".repeat(64);
    let files = sealed_at("/i", b"same", &key);
    let before = files.clone();
    assert_eq!(open_with(&files, "/i", &key, "").unwrap().plaintext, Some(b"same".to_vec()));
    assert_eq!(files, before);
    // A fresh nonce each time.
    assert_ne!(files["/i"], sealed_at("/i", b"same", &key)["/i"]);
}

#[test]
fn the_cipher_is_aes_256_gcm() {
    let key = [0u8; 32];
    let sealed = seal_with(&[0u8; 16], &key, &[0u8; 12]).unwrap();
    let expected: [u8; 32] = [
        0xce, 0xa7, 0x40, 0x3d, 0x4d, 0x60, 0x6b, 0x6e, 0x07, 0x4e, 0xc5, 0xd3, 0xba, 0xf3, 0x9d, 0x18, 0xd0, 0xd1,
        0xc8, 0xa7, 0x99, 0x99, 0x6b, 0xf0, 0x26, 0x5b, 0x98, 0xb5, 0xd4, 0x8a, 0xb9, 0x19,
    ];
    assert_eq!(&sealed[..8], b"INVSEAL1");
    assert_eq!(&sealed[8..20], &[0u8; 12]);
    assert_eq!(&sealed[20..], &expected);
    assert_eq!(unseal(&sealed, &key, "/i").unwrap(), vec![0u8; 16]);
}

#[test]
fn a_damaged_file_does_not_open() {
    let key = parse_key(&"a".repeat(64)).unwrap();
    let sealed = seal_with(b"hello", &key, &[7u8; 12]).unwrap();
    assert_eq!(unseal(&sealed, &key, "/i").unwrap(), b"hello".to_vec());
    for i in 8..sealed.len() {
        let mut bad = sealed.clone();
        bad[i] ^= 1;
        assert!(matches!(unseal(&bad, &key, "/i"), Err(Error::KeyMismatch(_))), "byte {i}");
    }
    for i in 0..8 {
        let mut bad = sealed.clone();
        bad[i] ^= 1;
        assert!(matches!(unseal(&bad, &key, "/i"), Err(Error::LegacyIndexFormat { .. })), "byte {i}");
    }
    assert!(matches!(unseal(&sealed[..19], &key, "/i"), Err(Error::LegacyIndexFormat { .. })));
    assert!(matches!(unseal(&sealed[..20], &key, "/i"), Err(Error::KeyMismatch(_))));
}

#[test]
fn containers_are_laid_out_and_taken_apart() {
    let c = contain(&[1; 12], &[2, 3]);
    assert_eq!(c.len(), 22);
    let (nonce, text) = container_parts(&c).unwrap();
    assert_eq!(nonce, &[1; 12]);
    assert_eq!(text, &[2, 3]);
    assert!(container_parts(&c[..19]).is_none());
    assert_eq!(judge(Some(vec![1]), "/i"), Ok(vec![1]));
    assert!(matches!(judge(None, "/i"), Err(Error::KeyMismatch(_))));
}

#[test]
fn sealing_goes_through_a_staging_file() {
    let steps = seal_to(Platform::Unix, "/data/inventory.sqlite3", b"x", &[9; 32]).unwrap();
    assert_eq!(steps.len(), 2);
    match (&steps[0], &steps[1]) {
        (Step::Write { path, bytes }, Step::Rename { from, to }) => {
            assert_eq!(path, "/data/inventory.sealing");
            assert_eq!(from, path);
            assert_eq!(to, "/data/inventory.sqlite3");
            assert_eq!(unseal(bytes, &[9; 32], "").unwrap(), b"x".to_vec());
        }
        other => panic!("unexpected steps {other:?}"),
    }
}

#[test]
fn staging_files_on_windows_stand_beside_the_index() {
    let steps = seal_to(Platform::Windows, "C:\\da.ta\\inventory", b"x", &[9; 32]).unwrap();
    match &steps[0] {
        Step::Write { path, .. } => assert_eq!(path, "C:\\da.ta\\inventory.sealing"),
        other => panic!("unexpected {other:?}"),
    }
    let c = convert_plaintext_to_encrypted(
        Platform::Windows,
        "C:\\data\\i.plaintext.bak",
        Some(&SQLITE_HEADER),
        &"3".repeat(64),
    )
    .unwrap()
    .unwrap();
    assert_eq!(c.backup, "C:\\data\\i.plaintext.plaintext.bak");
}

#[test]
fn an_interrupted_seal_leaves_the_index_whole() {
    let steps = seal_to(Platform::Unix, "/d/i.sqlite3", b"new", &[1; 32]).unwrap();
    for n in 0..=steps.len() {
        let mut files = Files::new();
        files.insert("/d/i.sqlite3".to_string(), b"old".to_vec());
        files.insert("/d/other".to_string(), b"other".to_vec());
        perform(&mut files, &steps[..n]);
        let now = &files["/d/i.sqlite3"];
        assert!(now == b"old" || unseal(now, &[1; 32], "").unwrap() == b"new".to_vec());
        assert_eq!(n == steps.len(), now != b"old");
        assert_eq!(files["/d/other"], b"other".to_vec());
    }
}

#[test]
fn an_interrupted_conversion_leaves_the_original() {
    let path = "/d/i.sqlite3";
    let mut original = SQLITE_HEADER.to_vec();
    original.extend_from_slice(b"rows");
    let key = "3".repeat(64);
    let mut files = Files::new();
    files.insert(path.to_string(), original.clone());
    let conversion = convert_plaintext_to_encrypted(Platform::Unix, path, Some(&original), &key).unwrap().unwrap();
    let mut steps = conversion.steps.clone();
    perform(&mut files, &conversion.steps);
    let staged = files[&conversion.staging].clone();
    steps.extend(finish_conversion(path, &conversion, &original, &staged).unwrap());
    assert_eq!(steps.len(), 4);
    for n in 0..=steps.len() {
        let mut files = Files::new();
        files.insert(path.to_string(), original.clone());
        perform(&mut files, &steps[..n]);
        assert!(
            files.get(path) == Some(&original) || files.get(&conversion.backup) == Some(&original),
            "lost after {n} steps"
        );
    }
}

#[test]
fn a_conversion_that_does_not_prove_itself_is_called_off() {
    let path = "/d/i.sqlite3";
    let original = SQLITE_HEADER.to_vec();
    let key = "3".repeat(64);
    let c = convert_plaintext_to_encrypted(Platform::Unix, path, Some(&original), &key).unwrap().unwrap();
    let other = seal_with(b"other", &c.key, &[0; 12]).unwrap();
    let err = finish_conversion(path, &c, &original, &other).unwrap_err();
    assert_eq!(err.message(), "converted index does not match the original; original left untouched");
    let err = finish_conversion(path, &c, &original, b"short").unwrap_err();
    assert!(err.message().starts_with("converted index failed verification: /d/i.converting"), "{err:?}");
    let err = finish_conversion(path, &c, &original, &contain(&[0; 12], &[0; 40])).unwrap_err();
    assert_eq!(
        err.message(),
        "converted index failed verification: /d/i.converting exists but the key does not open it"
    );
    let err = convert_plaintext_to_encrypted(Platform::Unix, path, Some(&original), "zz").unwrap_err();
    assert!(matches!(err, Error::KeyUnavailable(_)));
}

#[test]
fn headers_need_all_their_bytes() {
    assert_eq!(read_header(None, 4), None);
    assert_eq!(read_header(Some(&[1, 2, 3]), 4), None);
    assert_eq!(read_header(Some(&[1, 2, 3, 4, 5]), 4), Some(vec![1, 2, 3, 4]));
    assert!(!looks_encrypted(None));
    assert!(!looks_encrypted(Some(&MAGIC[..7])));
    assert!(looks_encrypted(Some(&MAGIC)));
    assert!(!is_plaintext_sqlite(None));
    assert!(!is_plaintext_sqlite(Some(&SQLITE_HEADER[..15])));
    assert!(is_plaintext_sqlite(Some(b"SQLite format 3\0and more")));
}

#[test]
fn keys_are_256_bits_in_hexadecimal() {
    let key = parse_key(&"0Af9".repeat(16)).unwrap();
    assert_eq!(&key[..4], &[0x0a, 0xf9, 0x0a, 0xf9]);
    assert_eq!(parse_key(&"0aF9".repeat(16)).unwrap(), key);
    for bad in ["", &"a".repeat(63), &"a".repeat(65), &"g".repeat(64), &"é".repeat(32)] {
        match parse_key(bad) {
            Err(Error::KeyUnavailable(m)) => {
                assert_eq!(m, "the stored index key is not a 256-bit hex value")
            }
            other => panic!("{bad:?} gave {other:?}"),
        }
    }
}

#[test]
fn every_byte_is_counted_once() {
    let counts = byte_counts(b"abca\xff");
    assert_eq!(counts.len(), 256);
    assert_eq!(counts[b'a' as usize], 2);
    assert_eq!(counts[0xff], 1);
    assert_eq!(counts.iter().sum::<u64>(), 5);
    assert_eq!(byte_counts(b"").iter().sum::<u64>(), 0);
}
