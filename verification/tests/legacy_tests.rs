use tirra::crypto::age::{fill_random, AgeCrypto, AgeCryptoError};
use tirra::db::{tirra_db_default_read_req, tirra_db_time_now, tirra_db_try_access};
use tirra::gui::pages::login::LoginPage;
use tirra::gui_iced::pages::login::{LoginPage as IcedLoginPage, Message};
use tirra::tirracrypto::{tirra_decrypt_db, tirra_encrypt_db, tirra_init_crypto, TirraSecrets};
use tirra::ui::ui::{LoginAction, LoginUi};

fn sqlite_file(pages: usize) -> Vec<u8> {
    let mut data: Vec<u8> = (0..pages * 4096).map(|i| (i % 241) as u8).collect();
    data[0..16].copy_from_slice(b"SQLite format 3\0");
    data
}

#[test]
fn fixed_seed_generator_repeats() {
    let mut a = [0u8; 16];
    let mut b = [0u8; 16];
    fill_random(&mut a);
    fill_random(&mut b);
    assert_eq!(a, b);
    assert_ne!(a, [0u8; 16]);
}

#[test]
fn secrets_are_packed_key_then_salt() {
    let mut a = AgeCrypto::new();
    assert_eq!(a.pack_secrets(), [0u8; 48]);
    let mut salt = [0u8; 16];
    fill_random(&mut salt);
    assert_eq!(a.new_secrets(b"pw"), Ok(()));
    let packed = a.pack_secrets();
    assert_eq!(&packed[32..48], &salt);
    assert_ne!(&packed[0..32], &[0u8; 32]);
}

#[test]
fn short_file_cannot_be_opened() {
    let mut a = AgeCrypto::new();
    assert_eq!(a.extract_secrets(&[0u8; 15], b"pw"), Err(AgeCryptoError::FileRead));
    assert_eq!(a.decrypt(&[0u8; 4096]), Err(AgeCryptoError::FileOpen));
    assert_eq!(a.decrypt_first_chunk(&[0u8; 4096]), Err(AgeCryptoError::FileOpen));
}

#[test]
fn page_file_round_trip() {
    let plain = sqlite_file(3);
    let w = AgeCrypto::new();
    let ct = w.encrypt_file(&plain, b"pw").expect("encrypt");
    assert_eq!(ct.len(), plain.len());
    let mut salt = [0u8; 16];
    fill_random(&mut salt);
    assert_eq!(&ct[0..16], &salt);
    let mut r = AgeCrypto::new();
    assert_eq!(r.extract_secrets(&ct, b"pw"), Ok(()));
    assert_eq!(r.decrypt_first_chunk(&ct), Ok(true));
    let pt = r.decrypt(&ct).expect("decrypt");
    for page in 0..3 {
        let s = page * 4096;
        assert_eq!(&pt[s..s + 4064], &plain[s..s + 4064]);
    }
    let again = r.encrypt_with_same(&plain).expect("encrypt again");
    assert_eq!(again, ct);
}

#[test]
fn page_file_wrong_password() {
    let plain = sqlite_file(1);
    let ct = AgeCrypto::new().encrypt_file(&plain, b"pw").expect("encrypt");
    let mut r = AgeCrypto::new();
    assert_eq!(r.extract_secrets(&ct, b"nope"), Ok(()));
    assert_eq!(r.decrypt_first_chunk(&ct), Err(AgeCryptoError::Decrypt));
    assert_eq!(r.decrypt(&ct), Err(AgeCryptoError::Decrypt));
}

#[test]
fn sealed_database_round_trip() {
    let secrets = tirra_init_crypto();
    let data = b"some database bytes".to_vec();
    let enc = tirra_encrypt_db(&secrets, &data);
    assert_eq!(enc.len(), data.len() + 16);
    assert_eq!(tirra_decrypt_db(&secrets, &enc), Ok(data));
    let other = TirraSecrets { key: [0u8; 32], nonce: secrets.nonce };
    assert_eq!(tirra_decrypt_db(&other, &enc), Err(()));
}

#[test]
fn first_database_helpers() {
    assert!(tirra_db_try_access(Ok(())));
    assert!(!tirra_db_try_access(Err(())));
    assert_eq!(tirra_db_default_read_req(), "WHERE id > 0 ORDER BY date DESC LIMIT 200");
    assert!(tirra_db_time_now() > 1_577_836_800);
}

#[test]
fn login_pages() {
    let p = LoginPage::new("db", false);
    assert_eq!(p.title(), "Tirra - Open");
    assert_eq!(LoginPage::text_input_id_to_focus(), "pwdinput-id");
    assert_eq!(p.db_location, "db");
    let mut q = IcedLoginPage::new(LoginUi::new("db", true, false, false));
    assert_eq!(q.update(Message::PwdInputChanged("pw".to_string())), None);
    assert_eq!(q.login_ui.password, "pw");
    assert_eq!(q.update(Message::LoginButtonPressed), Some(LoginAction::CheckAccess));
    assert_eq!(q.update(Message::LoginSuccess), None);
    assert_eq!(IcedLoginPage::text_input_id_to_focus(), "pwdinput-id");
    assert!(q.title().starts_with("Tirra - open \t"));
}

#[test]
fn secrets_have_their_lengths_after_opening() {
    let mut a = AgeCrypto::new();
    assert_eq!(a.extract_secrets(&[7u8; 32], b"pw"), Ok(()));
    let packed = a.pack_secrets();
    assert_eq!(&packed[32..48], &[7u8; 16]);
}

#[test]
fn seal_size_limit() {
    assert!(tirra::tirracrypto::tirra_seal_fits(0));
    assert!(tirra::tirracrypto::tirra_seal_fits(1 << 20));
    assert_eq!(tirra::tirracrypto::tirra_seal_fits(usize::MAX), usize::BITS < 39);
}
