//! Encryption of a whole database file, page by page.
//!
//! The file is cut into pages of `Cipher::PAGE_SIZE` bytes (the last one may
//! be shorter); page `i` (from 0) is handled by the page cipher as page
//! number `i`, so that the first page, number 0, carries the salt. Reading and
//! writing the files is left to the caller: these functions go from bytes to
//! bytes.
use vstd::prelude::*;

use crate::crypto::cipher::{
    decrypt_page_spec, decrypt_setup, decryptable, draw_may_fail, encrypt_setup, encrypt_spec, is_decryptable, lemma_page_round_trip, lemma_salt_carried,
    page_fits, page_nonce, skip_len, sqlite_magic, Cipher, CipherError, Secret, KEY_DERIVATION_ITER,
};
use crate::crypto::primitives::pbkdf2_hmac_sha256;
use vstd::slice::slice_to_vec;
use vstd::utf8::encode_utf8;

verus! {

#[derive(Debug, PartialEq, Eq, Structural)]
pub enum TirraCryptoError {
    SaltExtract,
    FileOpen,
    FileRead,
    FileWrite,
    Encrypt,
    Decrypt,
}

pub struct TirraCrypto {
    db_location: String,
    db_location_pt: String,
    password: String,
    cipher: Option<Cipher>,
}

/// Number of pages of a file of `len` bytes.
pub open spec fn page_count(len: int) -> int {
    (len + 4095) / 4096
}

/// Page `i` (from 0) of `data`: 4096 bytes, fewer for the last one.
pub open spec fn page_of(data: Seq<u8>, i: int) -> Seq<u8> {
    let end = if (i + 1) * 4096 <= data.len() { (i + 1) * 4096 } else { data.len() as int };
    data.subrange(i * 4096, end)
}

/// Every page of a file of `len` bytes can be encrypted: the first page can
/// hold the clear header and the reserved area, the last one the reserved
/// area.
pub open spec fn file_fits(len: int) -> bool {
    len == 0 || (len >= 56 && (len % 4096 == 0 || len % 4096 >= 32))
}

/// The page numbers of a file of `len` bytes fit in 32 bits.
pub open spec fn file_not_too_long(len: int) -> bool {
    page_count(len) < u32::MAX
}

/// Every page of `enc` can be decrypted.
pub open spec fn file_decryptable(enc: Seq<u8>) -> bool {
    forall|i: int| 0 <= i < page_count(enc.len() as int) ==> #[trigger] decryptable(page_of(enc, i), i as u32, Some(0u32))
}

/// `ct` is `plain` encrypted page by page under `key` and `salt`, each page
/// with the nonce it carries.
pub open spec fn encrypted_file(key: Seq<u8>, salt: Option<Seq<u8>>, plain: Seq<u8>, ct: Seq<u8>) -> bool {
    &&& ct.len() == plain.len()
    &&& forall|i: int|
        0 <= i < page_count(plain.len() as int) ==> {
            &&& #[trigger] page_of(ct, i) == encrypt_spec(
                key,
                salt,
                page_of(plain, i),
                i as u32,
                Some(0u32),
                page_nonce(page_of(ct, i)),
            )
            &&& decryptable(page_of(ct, i), i as u32, Some(0u32))
        }
}

/// `pt` is `enc` decrypted page by page under `key`.
pub open spec fn decrypted_file(key: Seq<u8>, enc: Seq<u8>, pt: Seq<u8>) -> bool {
    &&& pt.len() == enc.len()
    &&& forall|i: int|
        0 <= i < page_count(enc.len() as int) ==> decrypt_page_spec(key, #[trigger] page_of(enc, i), i as u32)
            == Ok::<Seq<u8>, CipherError>(page_of(pt, i))
}

/// Some page of `enc` fails to decrypt under `key`.
pub open spec fn some_page_fails(key: Seq<u8>, enc: Seq<u8>) -> bool {
    exists|i: int|
        0 <= i < page_count(enc.len() as int) && decrypt_page_spec(key, #[trigger] page_of(enc, i), i as u32) is Err
}

/// Payload key and salt of a cipher once it has decrypted `enc`.
pub open spec fn file_decrypt_setup(secret: Secret, key: Seq<u8>, salt: Option<Seq<u8>>, enc: Seq<u8>) -> (
    Seq<u8>,
    Option<Seq<u8>>,
) {
    if enc.len() > 0 {
        decrypt_setup(secret, key, salt, page_of(enc, 0), 0)
    } else {
        (key, salt)
    }
}

/// Appending a page to a file made of whole pages leaves the earlier pages
/// as they were and makes it the next page.
pub(crate) proof fn lemma_page_of_append(a: Seq<u8>, b: Seq<u8>, k: int)
    requires
        0 <= k,
        a.len() == k * 4096,
        b.len() <= 4096,
    ensures
        forall|i: int| 0 <= i < k ==> #[trigger] page_of(a + b, i) == page_of(a, i),
        page_of(a + b, k) == b,
{
    assert forall|i: int| 0 <= i < k implies #[trigger] page_of(a + b, i) == page_of(a, i) by {
        assert((i + 1) * 4096 <= k * 4096);
        assert(page_of(a + b, i) =~= page_of(a, i));
    }
    assert(page_of(a + b, k) =~= b);
}

/// Where the page that starts at `off` ends.
proof fn lemma_page_bounds(n: int, c: int, off: int)
    requires
        0 <= c,
        off == c * 4096,
        off < n,
    ensures
        c < page_count(n),
        (c + 1) * 4096 <= n ==> page_of_len(n, c) == 4096,
        n < (c + 1) * 4096 ==> page_of_len(n, c) == n - off && c + 1 == page_count(n),
{
    assert(c < page_count(n)) by (nonlinear_arith)
        requires
            off == c * 4096,
            off < n,
    ;
    if n < (c + 1) * 4096 {
        assert(c + 1 == page_count(n)) by (nonlinear_arith)
            requires
                off == c * 4096,
                off < n,
                n < (c + 1) * 4096,
        ;
    }
}

/// Length of page `c` of a file of `n` bytes.
pub open spec fn page_of_len(n: int, c: int) -> int {
    if (c + 1) * 4096 <= n { 4096 } else { n - c * 4096 }
}

/// When the file fits, so does each of its pages.
proof fn lemma_page_fits(n: int, c: int, off: int)
    requires
        file_fits(n),
        0 <= c,
        off == c * 4096,
        off < n,
    ensures
        page_fits(page_of_len(n, c), c as u32, Some(0u32)) || c > u32::MAX,
{
    lemma_page_bounds(n, c, off);
    if n < (c + 1) * 4096 {
        if c == 0 {
        } else {
            assert(n % 4096 == n - off) by (nonlinear_arith)
                requires
                    off == c * 4096,
                    off < n,
                    n < (c + 1) * 4096,
                    c >= 1,
            ;
        }
    }
}

/// Offset reached once `c` pages of a file of `n` bytes have been handled.
pub open spec fn pages_end(n: int, c: int) -> int {
    if c * 4096 <= n { c * 4096 } else { n }
}

/// The last page of a file of `n` bytes is page `c - 1`.
proof fn lemma_page_count_exact(n: int, c: int)
    requires
        0 < c,
        (c - 1) * 4096 < n <= c * 4096,
    ensures
        page_count(n) == c,
{
    assert(page_count(n) == c) by (nonlinear_arith)
        requires
            0 < c,
            (c - 1) * 4096 < n <= c * 4096,
    ;
}

/// One more page handled: the offset moves to the end of page `c`.
pub(crate) proof fn lemma_pages_end_step(n: int, c: int)
    requires
        0 <= c,
        c * 4096 < n,
    ensures
        pages_end(n, c) == c * 4096,
        pages_end(n, c + 1) == c * 4096 + page_of_len(n, c),
        c < page_count(n),
{
    lemma_page_bounds(n, c, c * 4096);
}

/// Once the offset reaches the end, every page has been handled.
pub(crate) proof fn lemma_pages_done(n: int, c: int)
    requires
        0 <= c,
        pages_end(n, c) >= n,
        c == 0 || (c - 1) * 4096 < n,
        n >= 0,
    ensures
        c == page_count(n),
{
    if c == 0 {
        assert(n == 0);
    } else {
        lemma_page_count_exact(n, c);
    }
}

/// Tells whether the pages of a file of `len` bytes can be numbered (see
/// `file_not_too_long`).
pub fn is_file_not_too_long(len: usize) -> (b: bool)
    ensures
        b == file_not_too_long(len as int),
{
    let l: u64 = len as u64;
    let pages: u64 = l / 4096 + if l % 4096 == 0 { 0 } else { 1 };
    assert(pages as int == (len as int + 4095) / 4096);
    pages < u32::MAX as u64
}

/// Tells whether a plaintext database of `len` bytes can be encrypted page
/// by page (see `file_fits` and `file_not_too_long`).
pub fn is_file_encryptable(len: usize) -> (b: bool)
    ensures
        b == (file_fits(len as int) && file_not_too_long(len as int)),
{
    let fits = len == 0 || (len >= 56 && (len % 4096 == 0 || len % 4096 >= 32));
    fits && is_file_not_too_long(len)
}

/// Tells whether every page of `enc` can be decrypted (see `file_decryptable`).
pub fn is_file_decryptable(enc: &[u8]) -> (b: bool)
    requires
        file_not_too_long(enc@.len() as int),
    ensures
        b == file_decryptable(enc@),
{
    let n = enc.len();
    let mut off: usize = 0;
    let mut chunk_n: u32 = 0;
    while off < n
        invariant
            n == enc@.len(),
            file_not_too_long(n as int),
            off as int == pages_end(n as int, chunk_n as int),
            chunk_n == 0 || (chunk_n - 1) * 4096 < n,
            forall|i: int| 0 <= i < chunk_n ==> #[trigger] decryptable(page_of(enc@, i), i as u32, Some(0u32)),
        decreases n - off,
    {
        proof { lemma_pages_end_step(n as int, chunk_n as int); }
        let end = if n - off > 4096 { off + 4096 } else { n };
        let page = &enc[off..end];
        assert(page@ =~= page_of(enc@, chunk_n as int));
        if !is_decryptable(page, chunk_n, true) {
            assert(!decryptable(page_of(enc@, chunk_n as int), (chunk_n as int) as u32, Some(0u32)));
            return false;
        }
        off = end;
        chunk_n = chunk_n + 1;
    }
    proof { lemma_pages_done(n as int, chunk_n as int); }
    true
}

/// A database file encrypted under the key derived from a passphrase and a
/// salt is decrypted by a cipher built from the same passphrase: the salt
/// is read back from the first page, the same key is derived, and the first
/// `N - 32` bytes of every page come back, provided the file is a SQLite
/// database (its first page opens with the SQLite magic string).
pub proof fn lemma_file_round_trip(password: String, salt: Seq<u8>, plain: Seq<u8>, ct: Seq<u8>)
    requires
        salt.len() == 16,
        file_fits(plain.len() as int),
        file_not_too_long(plain.len() as int),
        plain.len() > 0 ==> plain.subrange(0, 16) == sqlite_magic(),
        encrypted_file(
            pbkdf2_hmac_sha256(encode_utf8(password@), salt, KEY_DERIVATION_ITER),
            Some(salt),
            plain,
            ct,
        ),
    ensures
        ({
            let key = pbkdf2_hmac_sha256(encode_utf8(password@), salt, KEY_DERIVATION_ITER);
            &&& plain.len() > 0 ==> file_decrypt_setup(Secret::Passphrase(password), Seq::new(32, |i: int| 0u8), None, ct)
                == (key, Some(salt))
            &&& file_decryptable(ct)
            &&& forall|i: int|
                0 <= i < page_count(plain.len() as int) ==> (decrypt_page_spec(key, #[trigger] page_of(ct, i), i as u32)
                    matches Ok(pt) && pt.len() == page_of(plain, i).len() && pt.subrange(0, pt.len() - 32) == page_of(
                    plain,
                    i,
                ).subrange(0, pt.len() - 32))
        }),
{
    let key = pbkdf2_hmac_sha256(encode_utf8(password@), salt, KEY_DERIVATION_ITER);
    let n = plain.len() as int;
    assert forall|i: int| 0 <= i < page_count(n) implies (decrypt_page_spec(key, #[trigger] page_of(ct, i), i as u32)
        matches Ok(pt) && pt.len() == page_of(plain, i).len() && pt.subrange(0, pt.len() - 32) == page_of(
        plain,
        i,
    ).subrange(0, pt.len() - 32)) by {
        let c = i * 4096;
        assert(c < n) by (nonlinear_arith)
            requires
                0 <= i < page_count(n),
                c == i * 4096,
        ;
        lemma_page_fits(n, i, c);
        assert(page_of(plain, i).len() == page_of_len(n, i));
        if i == 0 {
            assert(page_of(plain, 0).subrange(0, 16) =~= plain.subrange(0, 16));
        }
        lemma_page_round_trip(key, Some(salt), page_of(plain, i), i as u32, 0, page_nonce(page_of(ct, i)));
    }
    if n > 0 {
        lemma_page_fits(n, 0, 0);
        assert(page_of(plain, 0).subrange(0, 16) =~= plain.subrange(0, 16));
        lemma_page_round_trip(key, Some(salt), page_of(plain, 0), 0, 0, page_nonce(page_of(ct, 0)));
        assert(page_of(ct, 0).subrange(0, 16) == salt);
    }
    assert forall|i: int| 0 <= i < page_count(ct.len() as int) implies #[trigger] decryptable(
        page_of(ct, i),
        i as u32,
        Some(0u32),
    ) by {
        assert(page_of(ct, i) == encrypt_spec(key, Some(salt), page_of(plain, i), i as u32, Some(0u32), page_nonce(page_of(ct, i))));
    }
}

/// `after` is the cipher `before` once it has encrypted `plain` into `ct`.
pub open spec fn file_encrypted_by(before: Cipher, after: Cipher, plain: Seq<u8>, ct: Seq<u8>) -> bool {
    &&& after.secret_view() == before.secret_view()
    &&& if plain.len() > 0 {
        encrypt_setup(
            before.secret_view(),
            before.key_view(),
            before.salt_view(),
            0,
            after.key_view(),
            after.salt_view(),
        )
    } else {
        after.key_view() == before.key_view() && after.salt_view() == before.salt_view()
    }
    &&& encrypted_file(after.key_view(), after.salt_view(), plain, ct)
}

/// `after` is a cipher with secret `secret`, key `key` and salt `salt` once
/// it has decrypted `enc`, with the result `res`: every page decrypts, or
/// some page does not.
pub open spec fn file_decrypted_from(
    secret: Secret,
    key: Seq<u8>,
    salt: Option<Seq<u8>>,
    after: Cipher,
    enc: Seq<u8>,
    res: Result<Seq<u8>, TirraCryptoError>,
) -> bool {
    &&& after.secret_view() == secret
    &&& (after.key_view(), after.salt_view()) == file_decrypt_setup(secret, key, salt, enc)
    &&& match res {
        Ok(pt) => decrypted_file(after.key_view(), enc, pt),
        Err(e) => e == TirraCryptoError::Decrypt && some_page_fails(after.key_view(), enc),
    }
}

/// `after` is the cipher `before` once it has decrypted `enc`, with the
/// result `res`.
pub open spec fn file_decrypted_by(before: Cipher, after: Cipher, enc: Seq<u8>, res: Result<Seq<u8>, TirraCryptoError>) -> bool {
    file_decrypted_from(before.secret_view(), before.key_view(), before.salt_view(), after, enc, res)
}

/// A decryption result whose only error is a failed decryption.
pub open spec fn unit_err_result(res: Result<Vec<u8>, ()>) -> Result<Seq<u8>, TirraCryptoError> {
    match res {
        Ok(v) => Ok(v@),
        Err(_) => Err(TirraCryptoError::Decrypt),
    }
}

/// `secret` is the passphrase `password`.
pub open spec fn is_passphrase(secret: Secret, password: Seq<char>) -> bool {
    match secret {
        Secret::Passphrase(p) => p@ == password,
        Secret::Key(_) => false,
    }
}

/// `c` is a cipher built from the passphrase `password`, with key `key` and
/// salt `salt`.
pub open spec fn passphrase_cipher(c: Cipher, password: Seq<char>, key: Seq<u8>, salt: Option<Seq<u8>>) -> bool {
    &&& is_passphrase(c.secret_view(), password)
    &&& c.key_view() == key
    &&& c.salt_view() == salt
}

/// Result of a decryption as a sequence of bytes.
pub open spec fn bytes_result(res: Result<Vec<u8>, TirraCryptoError>) -> Result<Seq<u8>, TirraCryptoError> {
    match res {
        Ok(v) => Ok(v@),
        Err(e) => Err(e),
    }
}

/// Encrypting a file of `len` bytes can be refused by the nonce drawn for
/// one of its pages, which would run the block counter out.
pub open spec fn file_draw_may_fail(len: int) -> bool {
    exists|i: int|
        0 <= i < page_count(len) && #[trigger] draw_may_fail(
            i as u32,
            page_of_len(len, i) - 32 - skip_len(i as u32, Some(0u32)),
        )
}

/// Encrypts a file page by page with `cipher`, page 0 first. It is refused
/// only when the nonce drawn for some page would run the block counter out.
pub fn encrypt_with_cipher(cipher: &mut Cipher, plain: &[u8]) -> (res: Result<Vec<u8>, TirraCryptoError>)
    requires
        file_fits(plain@.len() as int),
        file_not_too_long(plain@.len() as int),
    ensures
        final(cipher).secret_view() == old(cipher).secret_view(),
        match res {
            Ok(ct) => file_encrypted_by(*old(cipher), *final(cipher), plain@, ct@),
            Err(e) => e == TirraCryptoError::Encrypt && file_draw_may_fail(plain@.len() as int),
        },
        plain@.len() == 0 ==> res is Ok && *final(cipher) == *old(cipher),
{
    let ghost before = *cipher;
    let n = plain.len();
    let mut ct: Vec<u8> = Vec::new();
    let mut off: usize = 0;
    let mut chunk_n: u32 = 0;
    while off < n
        invariant
            n == plain@.len(),
            file_fits(n as int),
            file_not_too_long(n as int),
            off as int == pages_end(n as int, chunk_n as int),
            chunk_n == 0 || (chunk_n - 1) * 4096 < n,
            ct@.len() == off,
            before == *old(cipher),
            cipher.secret_view() == before.secret_view(),
            chunk_n == 0 ==> cipher.key_view() == before.key_view() && cipher.salt_view() == before.salt_view(),
            chunk_n == 0 ==> *cipher == before,
            chunk_n > 0 ==> encrypt_setup(
                before.secret_view(),
                before.key_view(),
                before.salt_view(),
                0,
                cipher.key_view(),
                cipher.salt_view(),
            ),
            forall|i: int|
                0 <= i < chunk_n ==> {
                    &&& #[trigger] page_of(ct@, i) == encrypt_spec(
                        cipher.key_view(),
                        cipher.salt_view(),
                        page_of(plain@, i),
                        i as u32,
                        Some(0u32),
                        page_nonce(page_of(ct@, i)),
                    )
                    &&& decryptable(page_of(ct@, i), i as u32, Some(0u32))
                },
        decreases n - off,
    {
        proof {
            lemma_pages_end_step(n as int, chunk_n as int);
            lemma_page_fits(n as int, chunk_n as int, off as int);
        }
        let end = if n - off > 4096 { off + 4096 } else { n };
        let page = &plain[off..end];
        assert(page@ =~= page_of(plain@, chunk_n as int));
        let ghost prev = ct@;
        let ghost k0 = cipher.key_view();
        let ghost s0 = cipher.salt_view();
        match cipher.encrypt_page(page, chunk_n) {
            Ok(e) => {
                ct.extend_from_slice(e.as_slice());
                proof {
                    lemma_page_of_append(prev, e@, chunk_n as int);
                    assert(ct@ == prev + e@);
                    assert forall|i: int| 0 <= i < chunk_n + 1 implies {
                        &&& #[trigger] page_of(ct@, i) == encrypt_spec(
                            cipher.key_view(),
                            cipher.salt_view(),
                            page_of(plain@, i),
                            i as u32,
                            Some(0u32),
                            page_nonce(page_of(ct@, i)),
                        )
                        &&& decryptable(page_of(ct@, i), i as u32, Some(0u32))
                    } by {
                        if i < chunk_n {
                            assert(page_of(prev, i) == encrypt_spec(k0, s0, page_of(plain@, i), i as u32, Some(0u32), page_nonce(page_of(prev, i))));
                        }
                    }
                }
            },
            Err(_) => {
                proof {
                    lemma_page_bounds(n as int, chunk_n as int, off as int);
                    assert(draw_may_fail(
                        chunk_n,
                        page_of_len(n as int, chunk_n as int) - 32 - skip_len(chunk_n, Some(0u32)),
                    ));
                }
                return Err(TirraCryptoError::Encrypt);
            },
        }
        off = end;
        chunk_n = chunk_n + 1;
    }
    proof { lemma_pages_done(n as int, chunk_n as int); }
    Ok(ct)
}

/// Decrypts a file page by page with `cipher`.
pub fn decrypt_with_cipher(cipher: &mut Cipher, enc: &[u8]) -> (res: Result<Vec<u8>, TirraCryptoError>)
    requires
        file_decryptable(enc@),
        file_not_too_long(enc@.len() as int),
    ensures
        file_decrypted_by(*old(cipher), *final(cipher), enc@, bytes_result(res)),
{
    let ghost before = *cipher;
    let n = enc.len();
    let mut pt: Vec<u8> = Vec::new();
    let mut off: usize = 0;
    let mut chunk_n: u32 = 0;
    while off < n
        invariant
            n == enc@.len(),
            file_decryptable(enc@),
            file_not_too_long(n as int),
            off as int == pages_end(n as int, chunk_n as int),
            chunk_n == 0 || (chunk_n - 1) * 4096 < n,
            pt@.len() == off,
            before == *old(cipher),
            cipher.secret_view() == before.secret_view(),
            chunk_n == 0 ==> *cipher == before,
            chunk_n > 0 ==> (cipher.key_view(), cipher.salt_view()) == file_decrypt_setup(
                before.secret_view(),
                before.key_view(),
                before.salt_view(),
                enc@,
            ),
            forall|i: int|
                0 <= i < chunk_n ==> decrypt_page_spec(cipher.key_view(), #[trigger] page_of(enc@, i), i as u32)
                    == Ok::<Seq<u8>, CipherError>(page_of(pt@, i)),
        decreases n - off,
    {
        proof { lemma_pages_end_step(n as int, chunk_n as int); }
        let end = if n - off > 4096 { off + 4096 } else { n };
        let page = &enc[off..end];
        assert(page@ =~= page_of(enc@, chunk_n as int));
        assert(decryptable(page_of(enc@, chunk_n as int), chunk_n, Some(0u32)));
        let ghost prev = pt@;
        let ghost k0 = cipher.key_view();
        match cipher.decrypt_page(page, chunk_n) {
            Ok(d) => {
                pt.extend_from_slice(d.as_slice());
                proof {
                    lemma_page_of_append(prev, d@, chunk_n as int);
                    assert(pt@ == prev + d@);
                    assert forall|i: int| 0 <= i < chunk_n + 1 implies decrypt_page_spec(
                        cipher.key_view(),
                        #[trigger] page_of(enc@, i),
                        i as u32,
                    ) == Ok::<Seq<u8>, CipherError>(page_of(pt@, i)) by {
                        if i < chunk_n {
                            assert(decrypt_page_spec(k0, page_of(enc@, i), i as u32) == Ok::<Seq<u8>, CipherError>(page_of(prev, i)));
                        }
                    }
                }
            },
            Err(_) => {
                return Err(TirraCryptoError::Decrypt);
            },
        }
        off = end;
        chunk_n = chunk_n + 1;
    }
    proof { lemma_pages_done(n as int, chunk_n as int); }
    Ok(pt)
}

/// An encrypted database written by `TirraCrypto::encrypt_db` with no cipher
/// in use is read back by `TirraCrypto::decrypt_db` on a `TirraCrypto` built
/// with the same passphrase: every page decrypts and gives back its first
/// `N - 32` bytes (the last 32 bytes of a page are the reserved area that
/// carries its nonce and tag), provided the file is a SQLite database.
pub proof fn lemma_db_round_trip(
    password: Seq<char>,
    plain: Seq<u8>,
    ct: Seq<u8>,
    after: Cipher,
    res: Result<Seq<u8>, TirraCryptoError>,
)
    requires
        file_fits(plain.len() as int),
        file_not_too_long(plain.len() as int),
        plain.len() > 0 ==> plain.subrange(0, 16) == sqlite_magic(),
        plain.len() > 0 ==> encrypted_file(
            pbkdf2_hmac_sha256(encode_utf8(password), ct.subrange(0, 16), KEY_DERIVATION_ITER),
            Some(ct.subrange(0, 16)),
            plain,
            ct,
        ),
        plain.len() == 0 ==> ct.len() == 0,
        is_passphrase(after.secret_view(), password),
        file_decrypted_from(after.secret_view(), Seq::new(32, |i: int| 0u8), None, after, ct, res),
    ensures
        file_decryptable(ct),
        res matches Ok(pt) && pt.len() == plain.len() && forall|i: int|
            0 <= i < page_count(plain.len() as int) ==> #[trigger] page_of(pt, i).subrange(0, page_of(pt, i).len() - 32)
                == page_of(plain, i).subrange(0, page_of(pt, i).len() - 32),
{
    let n = plain.len() as int;
    if n == 0 {
        assert(page_count(0) == 0);
        return;
    }
    let s = ct.subrange(0, 16);
    let secret = after.secret_view();
    let p = secret->Passphrase_0;
    let key = pbkdf2_hmac_sha256(encode_utf8(password), s, KEY_DERIVATION_ITER);
    assert(p@ == password);
    lemma_file_round_trip(p, s, plain, ct);
    assert(after.key_view() == key);
    if res is Err {
        let i = choose|i: int|
            0 <= i < page_count(ct.len() as int) && decrypt_page_spec(key, #[trigger] page_of(ct, i), i as u32) is Err;
        assert(decrypt_page_spec(key, page_of(ct, i), i as u32) is Ok);
    } else {
        let pt = res->Ok_0;
        assert forall|i: int| 0 <= i < page_count(n) implies #[trigger] page_of(pt, i).subrange(0, page_of(pt, i).len() - 32)
            == page_of(plain, i).subrange(0, page_of(pt, i).len() - 32) by {
            assert(decrypt_page_spec(key, page_of(ct, i), i as u32) == Ok::<Seq<u8>, CipherError>(page_of(pt, i)));
        }
    }
}

impl Default for TirraCrypto {
    fn default() -> (t: Self)
        ensures
            t.location_view() == Seq::<char>::empty(),
            t.plain_location_view() == Seq::<char>::empty(),
            t.password_view() == Seq::<char>::empty(),
            t.cipher_view() is None,
    {
        Self { db_location: String::new(), db_location_pt: String::new(), password: String::new(), cipher: None }
    }
}

impl TirraCrypto {
    /// The location of the encrypted database.
    pub closed spec fn location_view(&self) -> Seq<char> {
        self.db_location@
    }

    /// The location of the plaintext database.
    pub closed spec fn plain_location_view(&self) -> Seq<char> {
        self.db_location_pt@
    }

    /// The passphrase.
    pub closed spec fn password_view(&self) -> Seq<char> {
        self.password@
    }

    /// The cipher kept once the database has been opened.
    pub closed spec fn cipher_view(&self) -> Option<Cipher> {
        self.cipher
    }

    pub fn new(location_encrypted: &str, location_plain: &str, password: String) -> (t: Self)
        ensures
            t.location_view() == location_encrypted@,
            t.plain_location_view() == location_plain@,
            t.password_view() == password@,
            t.cipher_view() is None,
    {
        Self {
            db_location: location_encrypted.to_owned(),
            db_location_pt: location_plain.to_owned(),
            password: password,
            cipher: None,
        }
    }

    /// Checks the passphrase against the first page of the encrypted
    /// database (at most `Cipher::PAGE_SIZE` bytes from the start of the
    /// file) and keeps the cipher it yields. Refused when a cipher is already
    /// there.
    pub fn probe_db(&mut self, first_page: &[u8]) -> (res: Result<(), ()>)
        requires
            old(self).cipher_view() is None ==> decryptable(first_page@, 0, Some(0u32)),
        ensures
            final(self).location_view() == old(self).location_view(),
            final(self).plain_location_view() == old(self).plain_location_view(),
            final(self).password_view() == old(self).password_view(),
            old(self).cipher_view() is Some ==> res is Err && final(self).cipher_view() == old(self).cipher_view(),
            old(self).cipher_view() is None ==> ({
                let s = first_page@.subrange(0, 16);
                let key = pbkdf2_hmac_sha256(encode_utf8(old(self).password_view()), s, KEY_DERIVATION_ITER);
                &&& (res is Ok <==> decrypt_page_spec(key, first_page@, 0) is Ok)
                &&& res is Ok ==> final(self).cipher_view() is Some && passphrase_cipher(
                    final(self).cipher_view()->0,
                    old(self).password_view(),
                    key,
                    Some(s),
                )
                &&& res is Err ==> final(self).cipher_view() is None
            }),
    {
        match &self.cipher {
            Some(_) => Err(()),
            None => {
                let mut cipher = Cipher::with_pwd(self.password.clone());
                match self.decrypt_first_chunk(first_page, &mut cipher) {
                    Ok(_) => {
                        self.cipher = Some(cipher);
                        Ok(())
                    },
                    Err(_) => Err(()),
                }
            },
        }
    }

    /// A fresh cipher for a new database. Refused when a cipher is already
    /// there.
    pub fn new_secrets(&mut self) -> (res: Result<(), ()>)
        ensures
            final(self).location_view() == old(self).location_view(),
            final(self).plain_location_view() == old(self).plain_location_view(),
            final(self).password_view() == old(self).password_view(),
            old(self).cipher_view() is Some ==> res is Err && final(self).cipher_view() == old(self).cipher_view(),
            old(self).cipher_view() is None ==> res is Ok && final(self).cipher_view() is Some && passphrase_cipher(
                final(self).cipher_view()->0,
                old(self).password_view(),
                Seq::new(32, |i: int| 0u8),
                None,
            ),
    {
        match &self.cipher {
            Some(_) => Err(()),
            None => {
                self.cipher = Some(Cipher::with_pwd(self.password.clone()));
                Ok(())
            },
        }
    }

    /// Encrypts the plaintext database `plain` with the cipher in use, or,
    /// when there is none, with a cipher built from the passphrase and
    /// dropped afterwards. The encrypted file is returned.
    pub fn encrypt_db(&mut self, plain: &[u8]) -> (res: Result<Vec<u8>, ()>)
        requires
            file_fits(plain@.len() as int),
            file_not_too_long(plain@.len() as int),
        ensures
            final(self).location_view() == old(self).location_view(),
            final(self).plain_location_view() == old(self).plain_location_view(),
            final(self).password_view() == old(self).password_view(),
            old(self).cipher_view() is None ==> final(self).cipher_view() is None,
            old(self).cipher_view() is Some ==> final(self).cipher_view() is Some,
            plain@.len() == 0 ==> (res matches Ok(ct) && ct@.len() == 0 && *final(self) == *old(self)),
            res is Err ==> file_draw_may_fail(plain@.len() as int),
            res matches Ok(ct) ==> match old(self).cipher_view() {
                Some(c) => file_encrypted_by(c, final(self).cipher_view()->0, plain@, ct@),
                None => if plain@.len() > 0 {
                    let s = ct@.subrange(0, 16);
                    encrypted_file(
                        pbkdf2_hmac_sha256(encode_utf8(old(self).password_view()), s, KEY_DERIVATION_ITER),
                        Some(s),
                        plain@,
                        ct@,
                    )
                } else {
                    ct@.len() == 0
                },
            },
    {
        match &mut self.cipher {
            Some(cipher) => match encrypt_with_cipher(cipher, plain) {
                Ok(ct) => Ok(ct),
                Err(_) => Err(()),
            },
            None => {
                let mut temp_cipher = Cipher::with_pwd(self.password.clone());
                match encrypt_with_cipher(&mut temp_cipher, plain) {
                    Ok(ct) => {
                        proof {
                            let n = plain@.len() as int;
                            if n > 0 {
                                let s = temp_cipher.salt_view()->0;
                                let key = temp_cipher.key_view();
                                lemma_page_fits(n, 0, 0);
                                assert(page_of(plain@, 0).len() == page_of_len(n, 0));
                                assert(0 < page_count(n));
                                lemma_salt_carried(key, s, page_of(plain@, 0), 0, page_nonce(page_of(ct@, 0)));
                                assert(page_of(ct@, 0) == encrypt_spec(key, Some(s), page_of(plain@, 0), 0, Some(0u32), page_nonce(page_of(ct@, 0))));
                                assert(ct@.subrange(0, 16) =~= page_of(ct@, 0).subrange(0, 16));
                            }
                        }
                        Ok(ct)
                    },
                    Err(_) => Err(()),
                }
            },
        }
    }

    /// Decrypts the encrypted database `enc`, building the cipher from the
    /// passphrase on first use. The plaintext database is returned.
    pub fn decrypt_db(&mut self, enc: &[u8]) -> (res: Result<Vec<u8>, ()>)
        requires
            file_decryptable(enc@),
            file_not_too_long(enc@.len() as int),
        ensures
            final(self).location_view() == old(self).location_view(),
            final(self).plain_location_view() == old(self).plain_location_view(),
            final(self).password_view() == old(self).password_view(),
            final(self).cipher_view() is Some,
            match old(self).cipher_view() {
                Some(c) => file_decrypted_by(c, final(self).cipher_view()->0, enc@, unit_err_result(res)),
                None => {
                    let after = final(self).cipher_view()->0;
                    &&& is_passphrase(after.secret_view(), old(self).password_view())
                    &&& file_decrypted_from(
                        after.secret_view(),
                        Seq::new(32, |i: int| 0u8),
                        None,
                        after,
                        enc@,
                        unit_err_result(res),
                    )
                },
            },
    {
        if self.cipher.is_none() {
            let cipher = Cipher::with_pwd(self.password.clone());
            self.cipher = Some(cipher);
        }
        match &mut self.cipher {
            Some(cipher) => match decrypt_with_cipher(cipher, enc) {
                Ok(pt) => Ok(pt),
                Err(_) => Err(()),
            },
            None => Err(()),
        }
    }

    /// Decrypts the first page of the database with `cipher`, which sets up
    /// its key, to check the passphrase.
    pub fn decrypt_first_chunk(&self, chunk: &[u8], cipher: &mut Cipher) -> (res: Result<bool, TirraCryptoError>)
        requires
            decryptable(chunk@, 0, Some(0u32)),
        ensures
            final(cipher).secret_view() == old(cipher).secret_view(),
            (final(cipher).key_view(), final(cipher).salt_view()) == decrypt_setup(
                old(cipher).secret_view(),
                old(cipher).key_view(),
                old(cipher).salt_view(),
                chunk@,
                0,
            ),
            match res {
                Ok(b) => b && decrypt_page_spec(final(cipher).key_view(), chunk@, 0) is Ok,
                Err(e) => e == TirraCryptoError::Decrypt && decrypt_page_spec(final(cipher).key_view(), chunk@, 0) is Err,
            },
    {
        match cipher.decrypt_page(chunk, 0) {
            Ok(_) => Ok(true),
            Err(_) => Err(TirraCryptoError::Decrypt),
        }
    }

    pub fn get_db_location(&self) -> (s: String)
        ensures
            s@ == self.location_view(),
    {
        self.db_location.clone()
    }

    pub fn plaintext_db_location(&self) -> (s: &str)
        ensures
            s@ == self.plain_location_view(),
    {
        self.db_location_pt.as_str()
    }
}

} // verus!
