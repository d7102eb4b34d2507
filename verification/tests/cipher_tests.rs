use tirra::crypto::cipher::{is_decryptable, Cipher, CipherError};
use tirra::storage::tirracrypto::{is_file_decryptable, is_file_encryptable, is_file_not_too_long, TirraCrypto, TirraCryptoError};

fn sqlite_page(fill: u8) -> Vec<u8> {
    let mut page = vec![fill; 4096];
    page[0..16].copy_from_slice(b"SQLite format 3\0");
    page
}

#[test]
fn page_round_trip_with_passphrase() {
    let page = sqlite_page(7);
    let mut writer = Cipher::with_pwd("correct horse".to_string());
    let enc = writer.encrypt_page(&page, 0).expect("encryption");
    assert_eq!(enc.len(), 4096);
    assert_ne!(&enc[24..4064], &page[24..4064]);
    let mut reader = Cipher::with_pwd("correct horse".to_string());
    assert!(is_decryptable(&enc, 0, true));
    let dec = reader.decrypt_page(&enc, 0).expect("decryption");
    assert_eq!(&dec[0..4064], &page[0..4064]);
}

#[test]
fn page_round_trip_with_key() {
    let key = [9u8; 32];
    let page: Vec<u8> = (0..4096u32).map(|i| (i % 251) as u8).collect();
    let mut writer = Cipher::with_key(key);
    let enc = writer.encrypt_page(&page, 3).expect("encryption");
    let mut reader = Cipher::with_key(key);
    let dec = reader.decrypt_page(&enc, 3).expect("decryption");
    assert_eq!(&dec[0..4064], &page[0..4064]);
}

#[test]
fn first_page_keeps_header_and_carries_salt() {
    let page = sqlite_page(1);
    let mut writer = Cipher::with_pwd("pw".to_string());
    let enc = writer.encrypt_page(&page, 0).expect("encryption");
    assert_eq!(&enc[16..24], &page[16..24]);
    assert_ne!(&enc[0..16], b"SQLite format 3\0");
}

#[test]
fn wrong_passphrase_is_refused() {
    let page = sqlite_page(3);
    let mut writer = Cipher::with_pwd("right".to_string());
    let enc = writer.encrypt_page(&page, 0).expect("encryption");
    let mut reader = Cipher::with_pwd("wrong".to_string());
    assert_eq!(reader.decrypt_page(&enc, 0).unwrap_err(), CipherError::MacIncorrect);
}

#[test]
fn tampered_page_is_refused() {
    let key = [1u8; 32];
    let page = vec![5u8; 4096];
    let mut writer = Cipher::with_key(key);
    let mut enc = writer.encrypt_page(&page, 2).expect("encryption");
    enc[100] ^= 1;
    let mut reader = Cipher::with_key(key);
    assert_eq!(reader.decrypt_page(&enc, 2).unwrap_err(), CipherError::MacIncorrect);
}

#[test]
fn encrypt_with_nonce_is_deterministic() {
    let mut c = Cipher::with_key([2u8; 32]);
    let _ = c.encrypt_page(&vec![0u8; 4096], 0);
    let nonce = [3u8; 16];
    let a = c.encrypt_with_nonce(&vec![8u8; 4064], 2, true, &nonce);
    let b = c.encrypt_with_nonce(&vec![8u8; 4064], 2, true, &nonce);
    assert_eq!(a, b);
    assert_eq!(a.len(), 4096);
    assert_eq!(&a[4064..4080], &nonce);
}

#[test]
fn short_pages_are_not_decryptable() {
    assert!(!is_decryptable(&[0u8; 31], 2, true));
    assert!(!is_decryptable(&[0u8; 40], 0, true));
    assert!(is_decryptable(&[0u8; 40], 1, true));
    assert!(is_decryptable(&[0u8; 64], 2, true));
}

#[test]
fn database_round_trip() {
    let mut plain = sqlite_page(11);
    plain.extend_from_slice(&vec![12u8; 4096]);
    plain.extend_from_slice(&vec![13u8; 100]);
    let mut writer = TirraCrypto::new("db.tirra", "db.plain", "secret".to_string());
    let enc = writer.encrypt_db(&plain).expect("encryption");
    assert_eq!(enc.len(), plain.len());
    assert!(is_file_decryptable(&enc));
    let mut reader = TirraCrypto::new("db.tirra", "db.plain", "secret".to_string());
    let dec = reader.decrypt_db(&enc).expect("decryption");
    assert_eq!(&dec[0..4064], &plain[0..4064]);
    assert_eq!(&dec[4096..8160], &plain[4096..8160]);
    assert_eq!(&dec[8192..8260], &plain[8192..8260]);
}

#[test]
fn probe_checks_the_passphrase() {
    let plain = sqlite_page(4);
    let mut writer = TirraCrypto::new("a", "b", "pw1".to_string());
    let enc = writer.encrypt_db(&plain).expect("encryption");
    let mut good = TirraCrypto::new("a", "b", "pw1".to_string());
    assert_eq!(good.probe_db(&enc[0..4096]), Ok(()));
    assert_eq!(good.probe_db(&enc[0..4096]), Err(()));
    let mut bad = TirraCrypto::new("a", "b", "pw2".to_string());
    assert_eq!(bad.probe_db(&enc[0..4096]), Err(()));
    assert_eq!(bad.new_secrets(), Ok(()));
    assert_eq!(bad.new_secrets(), Err(()));
}

#[test]
fn locations_are_kept() {
    let t = TirraCrypto::new("enc.db", "plain.db", "x".to_string());
    assert_eq!(t.get_db_location(), "enc.db");
    assert_eq!(t.plaintext_db_location(), "plain.db");
    let d = TirraCrypto::default();
    assert_eq!(d.get_db_location(), "");
}

#[test]
fn first_chunk_error() {
    let plain = sqlite_page(4);
    let mut writer = TirraCrypto::new("a", "b", "pw1".to_string());
    let enc = writer.encrypt_db(&plain).expect("encryption");
    let t = TirraCrypto::new("a", "b", "pw1".to_string());
    let mut c = Cipher::with_pwd("nope".to_string());
    assert!(matches!(t.decrypt_first_chunk(&enc, &mut c), Err(TirraCryptoError::Decrypt)));
}

#[test]
fn empty_database_encrypts_to_nothing() {
    let mut fresh = TirraCrypto::new("a", "b", "pw".to_string());
    assert_eq!(fresh.encrypt_db(&[]), Ok(vec![]));
    let mut with_cipher = TirraCrypto::new("a", "b", "pw".to_string());
    assert_eq!(with_cipher.new_secrets(), Ok(()));
    assert_eq!(with_cipher.encrypt_db(&[]), Ok(vec![]));
}

#[test]
fn encrypt_appends_nonce_and_tag() {
    let mut c = Cipher::with_key([4u8; 32]);
    let _ = c.encrypt_page(&vec![0u8; 4096], 0);
    let data: Vec<u8> = (0..100u8).collect();
    let ct = c.encrypt(&data, 5, false).expect("encryption");
    assert_eq!(ct.len(), data.len() + 32);
    assert_ne!(&ct[0..100], &data[..]);
    assert_eq!(c.decrypt(&ct, 5, false), Ok(data.clone()));
    let mut bad = ct.clone();
    bad[ct.len() - 1] ^= 1;
    assert_eq!(c.decrypt(&bad, 5, false), Err(CipherError::MacIncorrect));
    let head = c.encrypt(&data, 0, true).expect("encryption");
    assert_eq!(&head[0..24], &data[0..24]);
    assert_eq!(c.decrypt(&head, 0, true), Ok(data));
}

#[test]
fn first_page_is_number_zero() {
    let page = sqlite_page(2);
    let mut writer = Cipher::with_pwd("pw".to_string());
    let enc = writer.encrypt_page(&page, 0).expect("encryption");
    // the salt takes the place of the magic string on page 0
    assert_ne!(&enc[0..16], &page[0..16]);
    assert_eq!(&enc[16..24], &page[16..24]);
    let mut reader = Cipher::with_pwd("pw".to_string());
    let dec = reader.decrypt_page(&enc, 0).expect("decryption");
    assert_eq!(&dec[0..4064], &page[0..4064]);
}

#[test]
fn drawn_nonce_matches_given_nonce() {
    let mut c = Cipher::with_key([2u8; 32]);
    let _ = c.encrypt_page(&vec![0u8; 4096], 0);
    let nonce = [3u8; 16];
    let a = c.encrypt_with_drawn_nonce(&vec![8u8; 4064], 2, true, &nonce);
    let b = c.encrypt_with_nonce(&vec![8u8; 4064], 2, true, &nonce);
    assert_eq!(a, Ok(b));
}

#[test]
fn drawn_nonce_at_counter_end_is_refused() {
    let c = Cipher::with_key([2u8; 32]);
    let mut nonce = [3u8; 16];
    nonce[12..16].copy_from_slice(&[0xff, 0xff, 0xff, 0xff]);
    assert_eq!(c.encrypt_with_drawn_nonce(&vec![8u8; 4064], 2, true, &nonce), Err(CipherError::Format));
    assert_eq!(c.encrypt_with_drawn_nonce(&[], 0, false, &nonce), Err(CipherError::Format));
    // 0xfffffffd ^ 2 == u32::MAX, and one block more than the counter allows.
    nonce[12..16].copy_from_slice(&[0xfd, 0xff, 0xff, 0xff]);
    assert_eq!(c.encrypt_with_drawn_nonce(&[], 2, false, &nonce), Err(CipherError::Format));
    // Counter 0xfffffffd leaves room for the one-time block and one body block.
    nonce[12..16].copy_from_slice(&[0xfd, 0xff, 0xff, 0xff]);
    let ok = c.encrypt_with_drawn_nonce(&[1u8; 64], 0, false, &nonce).expect("encryption");
    assert_eq!(ok.len(), 96);
    assert_eq!(&ok[64..80], &nonce);
    assert_eq!(c.encrypt_with_drawn_nonce(&[1u8; 65], 0, false, &nonce), Err(CipherError::Format));
}

#[test]
fn encryptable_sizes() {
    assert!(is_file_encryptable(0));
    assert!(!is_file_encryptable(55));
    assert!(is_file_encryptable(56));
    assert!(is_file_encryptable(8192));
    assert!(!is_file_encryptable(4096 + 31));
    assert!(is_file_encryptable(4096 + 32));
    assert!(is_file_not_too_long(0));
    assert!(is_file_not_too_long(4096 * 10 + 1));
}
