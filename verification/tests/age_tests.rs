use chacha20poly1305::aead::{Aead, KeyInit};
use chacha20poly1305::ChaCha20Poly1305;
use hkdf::Hkdf;
use sha2::Sha256;
use tirra::storage::age::{chunk_nonce, parse_header, parse_u8, AgeChunkNonce, AgeCrypto, AgeCryptoError};

fn header(password: &[u8], file_key: [u8; 16]) -> Vec<u8> {
    AgeCrypto::internal_construct_header(password, &[1u8; 16], 10, file_key).expect("header")
}

/// An age file made with the `hkdf` and `chacha20poly1305` crates directly,
/// around a header made by the library.
fn age_file(password: &[u8], plain: &[u8]) -> Vec<u8> {
    let file_key = [7u8; 16];
    let nonce = [5u8; 16];
    let mut out = header(password, file_key);
    out.extend_from_slice(&nonce);
    let mut key = [0u8; 32];
    Hkdf::<Sha256>::new(Some(&nonce), &file_key).expand(b"payload", &mut key).unwrap();
    let cipher = ChaCha20Poly1305::new(&key.into());
    let chunks: Vec<&[u8]> = if plain.is_empty() { vec![plain] } else { plain.chunks(65536).collect() };
    let count = chunks.len();
    for (i, chunk) in chunks.into_iter().enumerate() {
        let mut n = [0u8; 12];
        n[3..11].copy_from_slice(&(i as u64).to_be_bytes());
        n[11] = if i + 1 == count { 1 } else { 0 };
        out.extend_from_slice(&cipher.encrypt(&n.into(), chunk).unwrap());
    }
    out
}

#[test]
fn chunk_nonces() {
    assert_eq!(chunk_nonce(0, false), [0u8; 12]);
    assert_eq!(chunk_nonce(0, true), [0, 0, 0, 0, 0, 0, 0, 0, 0, 0, 0, 1]);
    assert_eq!(chunk_nonce(258, true), [0, 0, 0, 0, 0, 0, 0, 0, 0, 1, 2, 1]);
    let mut n = AgeChunkNonce::default();
    n.set_counter(u64::MAX);
    assert_eq!(n.to_bytes(), [0, 0, 0, 255, 255, 255, 255, 255, 255, 255, 255, 0]);
    assert!(!n.is_last());
    assert_eq!(n.set_last(true), Ok(()));
    assert!(n.is_last());
    assert_eq!(n.set_last(false), Err(()));
    n.set_counter(3);
    assert!(!n.is_last());
    assert_eq!(n.set_last(false), Ok(()));
    assert!(!n.is_last());
}

#[test]
fn work_factors() {
    assert_eq!(parse_u8(b"18"), Some(18));
    assert_eq!(parse_u8(b"+7"), Some(7));
    assert_eq!(parse_u8(b"255"), Some(255));
    assert_eq!(parse_u8(b"256"), None);
    assert_eq!(parse_u8(b""), None);
    assert_eq!(parse_u8(b"1a"), None);
}

#[test]
fn header_text() {
    let h = header(b"pw", [7u8; 16]);
    let text = String::from_utf8(h.clone()).expect("utf8");
    let lines: Vec<&str> = text.split('\n').collect();
    assert_eq!(lines[0], "age-encryption.org/v1");
    assert_eq!(lines[1], "-> scrypt AQEBAQEBAQEBAQEBAQEBAQ 10");
    assert_eq!(lines[2].len(), 43);
    assert!(lines[3].starts_with("--- "));
    assert_eq!(lines[3].len(), 47);
    assert_eq!(lines[4], "");
}

#[test]
fn header_round_trip() {
    let h = header(b"pw", [7u8; 16]);
    let (parsed, pos) = parse_header(&h);
    let parsed = parsed.expect("parsed");
    assert_eq!(pos, h.len());
    assert_eq!(parsed.salt, vec![1u8; 16]);
    assert_eq!(parsed.work_factor, 10);
    assert_eq!(parsed.body.len(), 32);
    assert_eq!(parsed.mac.len(), 32);
}

#[test]
fn header_refusals() {
    assert_eq!(parse_header(b"not age\n").0.err(), Some(AgeCryptoError::AgeFormat));
    assert_eq!(parse_header(&[0xff, 0xfe, b'\n']).0.err(), Some(AgeCryptoError::FileOpen));
    let h = header(b"pw", [7u8; 16]);
    let text = String::from_utf8(h).unwrap().replace("scrypt", "X25519");
    assert_eq!(parse_header(text.as_bytes()).0.err(), Some(AgeCryptoError::AgeFormat));
}

#[test]
fn extract_key_checks_the_password() {
    let file = age_file(b"pw", b"hello");
    let mut good = AgeCrypto::new("notes.age");
    assert_eq!(good.extract_key(&file, b"pw"), Ok(()));
    let mut bad = AgeCrypto::new("notes.age");
    assert_eq!(bad.extract_key(&file, b"other"), Err(AgeCryptoError::ComputeFileKey));
}

#[test]
fn tampered_header_fails_its_mac() {
    let h = header(b"pw", [7u8; 16]);
    let mut text = String::from_utf8(h).unwrap();
    text = text.replacen(" 10\n", " 010\n", 1);
    let mut a = AgeCrypto::new("f");
    assert_eq!(a.extract_key(text.as_bytes(), b"pw"), Err(AgeCryptoError::MacIncorrect));
}

#[test]
fn decrypts_files_of_the_age_format() {
    let plain: Vec<u8> = (0..150_000u32).map(|i| (i % 253) as u8).collect();
    let file = age_file(b"pw", &plain);
    let mut a = AgeCrypto::new("notes.age");
    assert_eq!(a.extract_key(&file, b"pw"), Ok(()));
    assert_eq!(a.decrypt(&file), Ok(plain));
}

#[test]
fn decrypts_an_empty_payload() {
    let file = age_file(b"pw", b"");
    let mut a = AgeCrypto::new("notes.age");
    assert_eq!(a.extract_key(&file, b"pw"), Ok(()));
    assert_eq!(a.decrypt(&file), Ok(vec![]));
}

#[test]
fn decrypt_needs_an_open_file() {
    let mut a = AgeCrypto::new("notes.age");
    assert_eq!(a.decrypt(b"anything"), Err(AgeCryptoError::FileOpen));
}

#[test]
fn truncated_payload_is_refused() {
    let file = age_file(b"pw", b"some text");
    let mut a = AgeCrypto::new("notes.age");
    assert_eq!(a.extract_key(&file, b"pw"), Ok(()));
    assert_eq!(a.decrypt(&file[0..file.len() - 1]), Err(AgeCryptoError::Decrypt));
    let mut b = AgeCrypto::new("notes.age");
    let h = header(b"pw", [7u8; 16]);
    assert_eq!(b.extract_key(&h, b"pw"), Ok(()));
    assert_eq!(b.decrypt(&h), Err(AgeCryptoError::FileRead));
}

