//! The first encryption of the database: the whole file sealed at once
//! with ChaCha20-Poly1305 under a key and a nonce kept beside it.
use vstd::prelude::*;

use crate::crypto::primitives::thread_random;
use crate::storage::age::{aead_decrypt, aead_encrypt, aead_max_len, aead_max_len_exec, aead_seal, bounded_open};

verus! {

/// The key and the nonce that seal the database.
pub struct TirraSecrets {
    pub key: [u8; 32],
    pub nonce: [u8; 12],
}

/// New secrets: a random key and a random nonce.
pub fn tirra_init_crypto() -> (s: TirraSecrets) {
    let mut key = [0u8; 32];
    let mut nonce = [0u8; 12];
    thread_random(&mut key);
    thread_random(&mut nonce);
    TirraSecrets { key, nonce }
}

/// Seals the database `data` under the secrets.
pub fn tirra_encrypt_db(secrets: &TirraSecrets, data: &[u8]) -> (enc: Vec<u8>)
    requires
        data@.len() <= aead_max_len(),
    ensures
        enc@ == aead_seal(secrets.key@, secrets.nonce@, data@),
        enc@.len() == data@.len() + 16,
{
    match aead_encrypt(secrets.key.as_slice(), &secrets.nonce, data) {
        Ok(enc) => enc,
        Err(_) => Vec::new(),
    }
}

/// Tells whether a database of `len` bytes can be sealed by
/// `tirra_encrypt_db`.
pub fn tirra_seal_fits(len: usize) -> (b: bool)
    ensures
        b == (len as int <= aead_max_len()),
{
    (len as u64) <= aead_max_len_exec()
}

/// Opens the sealed database `enc` with the secrets: the database, or an
/// error when the seal does not verify or holds more than the cipher
/// handles (see `bounded_open`).
pub fn tirra_decrypt_db(secrets: &TirraSecrets, enc: &[u8]) -> (res: Result<Vec<u8>, ()>)
    ensures
        match res {
            Ok(d) => bounded_open(secrets.key@, secrets.nonce@, enc@) == Some(d@),
            Err(_) => bounded_open(secrets.key@, secrets.nonce@, enc@) is None,
        },
        forall|m: Seq<u8>|
            m.len() <= aead_max_len() && enc@.len() <= aead_max_len() + 16 && #[trigger] aead_seal(
                secrets.key@,
                secrets.nonce@,
                m,
            ) == enc@ ==> (res matches Ok(d) && d@ == m),
{
    if enc.len() as u64 > aead_max_len_exec() + 16 {
        return Err(());
    }
    aead_decrypt(secrets.key.as_slice(), &secrets.nonce, enc)
}

} // verus!
