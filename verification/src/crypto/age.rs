//! The earlier cipher of the database file: pages of 4096 bytes, each made
//! of 4064 bytes of payload encrypted as by the page cipher, then its nonce
//! and its tag. The key comes from the passphrase and a salt kept in clear
//! at the start of the file. Its pages are numbered from 1: page 1 keeps its
//! header in clear.
use vstd::prelude::*;

use chacha20::rand_core::{Rng, SeedableRng};
use chacha20::ChaCha20Rng;

use crate::crypto::cipher::{
    counter_fits, decrypt_first_spec, decrypt_spec, decrypt_with_key, encrypt_spec, encrypt_with_key, lemma_page_round_trip,
    lemma_salt_carried, overwrite_prefix, page_counter, page_fits, salt_seq, skip_len, sqlite_magic, CipherError,
    KEY_DERIVATION_ITER,
};
use crate::crypto::primitives::{pbkdf2_hmac_sha256, pbkdf2_sha256, xor_range};
use crate::storage::tirracrypto::{
    file_not_too_long, lemma_page_of_append, lemma_pages_done, lemma_pages_end_step, page_count, page_of, pages_end,
};
use vstd::slice::slice_to_vec;

verus! {

#[derive(Debug, PartialEq, Eq, Structural)]
pub enum AgeCryptoError {
    FileOpen,
    FileRead,
    FileWrite,
    AgeFormat,
    HeaderParse,
    ComputeFileKey,
    ComputePayloadKey,
    ComputeWarpKey,
    ComputeMacKey,
    Encrypt,
    Decrypt,
    MacIncorrect,
    Other,
}

/// The first `len` bytes produced by a ChaCha20 random number generator
/// seeded with thirty-two bytes of value 42.
pub uninterp spec fn fixed_seed_rng_bytes(len: nat) -> Seq<u8>;

/// Fills `buffer` from a ChaCha20 random number generator seeded with
/// thirty-two bytes of value 42 (`ChaCha20Rng::from_seed` and
/// `Rng::fill_bytes` of the `chacha20` crate). The generator is seeded anew
/// at each call, so the bytes depend on the buffer length alone; the contract
/// names them.
#[verifier::external_body]
pub fn fill_random(buffer: &mut [u8])
    ensures
        final(buffer)@ == fixed_seed_rng_bytes(old(buffer)@.len()),
{
    let seed = [42u8; 32];
    let mut rng = ChaCha20Rng::from_seed(seed);
    rng.fill_bytes(buffer);
}

/// A page of the file can be handed to the page decryption: it holds at
/// least its payload and its nonce, and its nonce leaves room in the
/// ChaCha20 block counter.
pub open spec fn chunk_ok(chunk: Seq<u8>, page_no: u32) -> bool {
    &&& chunk.len() >= 4080
    &&& counter_fits(page_counter(chunk.subrange(4064, 4080), page_no), 4064 - skip_len(page_no, Some(1u32)))
}

/// Decryption of a page of the file: a page of exactly 4096 bytes is
/// decrypted as by the page cipher, with the SQLite magic string in place of
/// the salt on the first page; any other page fails its tag.
pub open spec fn chunk_decrypt_spec(key: Seq<u8>, chunk: Seq<u8>, page_no: u32) -> Result<Seq<u8>, ()> {
    if chunk.len() == 4096 {
        match decrypt_first_spec(key, chunk, page_no, 1) {
            Ok(p) => Ok(p),
            Err(_) => Err(()),
        }
    } else {
        Err(())
    }
}

/// Encryption of the payload of a page: as by the page cipher, on the
/// payload followed by its reserved area, with the salt on the first page.
pub open spec fn chunk_encrypt_spec(key: Seq<u8>, salt: Seq<u8>, chunk: Seq<u8>, page_no: u32, nonce: Seq<u8>) -> Seq<u8> {
    encrypt_spec(key, Some(salt), chunk + Seq::new(32, |i: int| 0u8), page_no, Some(1u32), nonce)
}

/// The nonce of every page written by `encrypt_with`.
pub open spec fn fixed_nonce() -> Seq<u8> {
    fixed_seed_rng_bytes(16)
}

/// `nonce` leaves room in the ChaCha20 block counter for the pages of a
/// file of `len` bytes.
pub open spec fn nonce_fits(nonce: Seq<u8>, len: int) -> bool {
    forall|i: int|
        0 <= i < page_count(len) ==> #[trigger] counter_fits(
            page_counter(nonce, (i + 1) as u32),
            4064 - skip_len((i + 1) as u32, Some(1u32)),
        )
}

/// The fixed nonce leaves room in the ChaCha20 block counter for the pages
/// of a file of `len` bytes.
pub open spec fn fixed_nonce_fits(len: int) -> bool {
    nonce_fits(fixed_nonce(), len)
}

/// Every page of a file of `len` bytes holds a whole payload.
pub open spec fn pages_hold_payload(len: int) -> bool {
    len % 4096 == 0 || len % 4096 >= 4064
}

/// `ct` is `plain` encrypted page by page under `key` and `salt` with the
/// fixed nonce: the payload of each page (its first 4064 bytes) gives a page
/// of 4096 bytes.
pub open spec fn chunks_encrypted(key: Seq<u8>, salt: Seq<u8>, plain: Seq<u8>, ct: Seq<u8>) -> bool {
    &&& ct.len() == 4096 * page_count(plain.len() as int)
    &&& forall|i: int|
        0 <= i < page_count(plain.len() as int) ==> #[trigger] page_of(ct, i) == chunk_encrypt_spec(
            key,
            salt,
            page_of(plain, i).subrange(0, 4064),
            (i + 1) as u32,
            fixed_nonce(),
        )
}

/// `pt` is `enc` decrypted page by page under `key`.
pub open spec fn chunks_decrypted(key: Seq<u8>, enc: Seq<u8>, pt: Seq<u8>) -> bool {
    &&& pt.len() == enc.len()
    &&& forall|i: int|
        0 <= i < page_count(enc.len() as int) ==> chunk_decrypt_spec(key, #[trigger] page_of(enc, i), (i + 1) as u32)
            == Ok::<Seq<u8>, ()>(page_of(pt, i))
}

/// Some page of `enc` fails to decrypt under `key`.
pub open spec fn some_chunk_fails(key: Seq<u8>, enc: Seq<u8>) -> bool {
    exists|i: int|
        0 <= i < page_count(enc.len() as int) && chunk_decrypt_spec(key, #[trigger] page_of(enc, i), (i + 1) as u32)
            is Err
}

/// Every page of `enc` can be handed to the page decryption.
pub open spec fn chunks_ok(enc: Seq<u8>) -> bool {
    forall|i: int| 0 <= i < page_count(enc.len() as int) ==> #[trigger] chunk_ok(page_of(enc, i), (i + 1) as u32)
}

pub struct AgeCrypto {
    reader_open: bool,
    payload_salt: [u8; 16],
    payload_key: [u8; 32],
}

impl AgeCrypto {
    /// Whether a file has been opened.
    pub closed spec fn open_view(&self) -> bool {
        self.reader_open
    }

    /// The salt of the key.
    pub closed spec fn salt_view(&self) -> Seq<u8> {
        self.payload_salt@
    }

    /// The payload key.
    pub closed spec fn key_view(&self) -> Seq<u8> {
        self.payload_key@
    }

    pub fn new() -> (a: Self)
        ensures
            !a.open_view(),
            a.salt_view() == Seq::new(16, |i: int| 0u8),
            a.key_view() == Seq::new(32, |i: int| 0u8),
    {
        let a = Self { reader_open: false, payload_salt: [0u8; 16], payload_key: [0u8; 32] };
        assert(a.salt_view() =~= Seq::new(16, |i: int| 0u8));
        assert(a.key_view() =~= Seq::new(32, |i: int| 0u8));
        a
    }

    /// The key derived from `password` and `salt` (PBKDF2-HMAC-SHA256).
    fn derive_key_with_constants(&self, password: &[u8], salt: [u8; 16]) -> (res: Result<[u8; 32], ()>)
        ensures
            res matches Ok(k) && k@ == pbkdf2_hmac_sha256(password@, salt@, KEY_DERIVATION_ITER),
    {
        let warp_key_arr = pbkdf2_sha256(password, &salt, KEY_DERIVATION_ITER);
        Ok(warp_key_arr)
    }

    /// Opens the file `data`: its first 16 bytes are the salt, from which
    /// the key is derived with `password`.
    pub fn extract_secrets(&mut self, data: &[u8], password: &[u8]) -> (res: Result<(), AgeCryptoError>)
        ensures
            data@.len() < 16 ==> res == Err::<(), AgeCryptoError>(AgeCryptoError::FileRead) && *final(self)
                == *old(self),
            final(self).key_view().len() == 32,
            final(self).salt_view().len() == 16,
            data@.len() >= 16 ==> {
                &&& res is Ok
                &&& final(self).open_view()
                &&& final(self).salt_view() == data@.subrange(0, 16)
                &&& final(self).key_view() == pbkdf2_hmac_sha256(password@, data@.subrange(0, 16), KEY_DERIVATION_ITER)
            },
    {
        if data.len() < 16 {
            return Err(AgeCryptoError::FileRead);
        }
        let mut salt = [0u8; 16];
        let mut i: usize = 0;
        while i < 16
            invariant
                i <= 16,
                data@.len() >= 16,
                forall|j: int| 0 <= j < i ==> salt@[j] == data@[j],
            decreases 16 - i,
        {
            salt[i] = data[i];
            i = i + 1;
        }
        assert(salt@ =~= data@.subrange(0, 16));
        let payload_key = match self.derive_key_with_constants(password, salt) {
            Ok(key) => key,
            Err(_) => return Err(AgeCryptoError::ComputePayloadKey),
        };
        self.payload_key = payload_key;
        self.payload_salt = salt;
        self.reader_open = true;
        Ok(())
    }

    /// New secrets: a salt from the fixed-seed generator, and the key derived
    /// from it with `password`.
    pub fn new_secrets(&mut self, password: &[u8]) -> (res: Result<(), AgeCryptoError>)
        ensures
            res is Ok,
            final(self).key_view().len() == 32,
            final(self).salt_view().len() == 16,
            final(self).open_view() == old(self).open_view(),
            final(self).salt_view() == fixed_seed_rng_bytes(16),
            final(self).key_view() == pbkdf2_hmac_sha256(password@, fixed_seed_rng_bytes(16), KEY_DERIVATION_ITER),
    {
        let mut salt: [u8; 16] = [0u8; 16];
        fill_random(&mut salt);
        let payload_key = match self.derive_key_with_constants(password, salt) {
            Ok(key) => key,
            Err(_) => return Err(AgeCryptoError::ComputePayloadKey),
        };
        self.payload_key = payload_key;
        self.payload_salt = salt;
        Ok(())
    }

    /// The key followed by the salt.
    pub fn pack_secrets(&self) -> (s: [u8; 48])
        ensures
            s@ == self.key_view() + self.salt_view(),
    {
        let mut secrets = [0u8; 48];
        let mut i: usize = 0;
        while i < 48
            invariant
                i <= 48,
                forall|j: int| 0 <= j < i ==> secrets@[j] == (self.key_view() + self.salt_view())[j],
            decreases 48 - i,
        {
            if i < 32 {
                secrets[i] = self.payload_key[i];
            } else {
                secrets[i] = self.payload_salt[i - 32];
            }
            i = i + 1;
        }
        assert(secrets@ =~= self.key_view() + self.salt_view());
        secrets
    }

    /// Encrypts the payload of a page (see `chunk_encrypt_spec`).
    fn internal_encrypt_chunk(payload_key: &[u8; 32], chunk: &[u8], nonce: &[u8; 16], page_no: u32, salt: &[u8; 16]) -> (res:
        Result<Vec<u8>, ()>)
        requires
            page_no == 1 ==> chunk@.len() >= 24,
            counter_fits(page_counter(nonce@, page_no), chunk@.len() - skip_len(page_no, Some(1u32))),
        ensures
            res matches Ok(c) && c@ == chunk_encrypt_spec(payload_key@, salt@, chunk@, page_no, nonce@) && c@.len()
                == chunk@.len() + 32,
    {
        let mut padded = slice_to_vec(chunk);
        let mut k: usize = 0;
        let ghost start = padded@;
        while k < 32
            invariant
                k <= 32,
                padded@ == start + Seq::new(k as nat, |i: int| 0u8),
            decreases 32 - k,
        {
            padded.push(0u8);
            assert(padded@ =~= start + Seq::new((k + 1) as nat, |i: int| 0u8));
            k = k + 1;
        }
        let ct = encrypt_with_key(payload_key, &Some(*salt), padded.as_slice(), page_no, Some(1u32), nonce);
        proof {
            assert(salt_seq(Some(*salt)) == Some(salt@));
            crate::crypto::cipher::lemma_encrypt_decrypt(payload_key@, Some(salt@), padded@, page_no, Some(1u32), nonce@);
        }
        Ok(ct)
    }

    /// Decrypts a page (see `chunk_decrypt_spec`).
    fn internal_decrypt_chunk(payload_key: &[u8; 32], chunk: &[u8], page_no: u32) -> (res: Result<Vec<u8>, ()>)
        requires
            chunk_ok(chunk@, page_no),
        ensures
            match res {
                Ok(p) => chunk_decrypt_spec(payload_key@, chunk@, page_no) == Ok::<Seq<u8>, ()>(p@),
                Err(_) => chunk_decrypt_spec(payload_key@, chunk@, page_no) is Err,
            },
    {
        if chunk.len() != 4096 {
            return Err(());
        }
        assert(chunk@.subrange(4064, 4080) == crate::crypto::cipher::page_nonce(chunk@));
        match decrypt_with_key(payload_key, chunk, page_no, Some(1u32)) {
            Ok(mut plain) => {
                if page_no == 1 {
                    let magic: [u8; 16] = [83u8, 81u8, 76u8, 105u8, 116u8, 101u8, 32u8, 102u8, 111u8, 114u8, 109u8, 97u8, 116u8, 32u8, 51u8, 0u8];
                    assert(magic@ =~= sqlite_magic());
                    proof { lemma_decrypt_len(payload_key@, chunk@, page_no); }
                    overwrite_prefix(&mut plain, &magic);
                }
                Ok(plain)
            },
            Err(_) => Err(()),
        }
    }
}

impl AgeCrypto {
    /// Checks the key against the first page of the opened file `data`
    /// (at most 4096 bytes from its start).
    pub fn decrypt_first_chunk(&mut self, data: &[u8]) -> (res: Result<bool, AgeCryptoError>)
        requires
            old(self).open_view() ==> chunk_ok(page_of(data@, 0), 1),
        ensures
            *final(self) == *old(self),
            !old(self).open_view() ==> res == Err::<bool, AgeCryptoError>(AgeCryptoError::FileOpen),
            old(self).open_view() ==> match chunk_decrypt_spec(old(self).key_view(), page_of(data@, 0), 1) {
                Ok(_) => res == Ok::<bool, AgeCryptoError>(true),
                Err(_) => res == Err::<bool, AgeCryptoError>(AgeCryptoError::Decrypt),
            },
    {
        if !self.reader_open {
            return Err(AgeCryptoError::FileOpen);
        }
        let end = if data.len() > 4096 { 4096 } else { data.len() };
        let chunk = &data[0..end];
        assert(chunk@ =~= page_of(data@, 0));
        match Self::internal_decrypt_chunk(&self.payload_key, chunk, 1) {
            Ok(_) => Ok(true),
            Err(_) => Err(AgeCryptoError::Decrypt),
        }
    }

    /// Decrypts the opened file `data`, page by page.
    pub fn decrypt(&mut self, data: &[u8]) -> (res: Result<Vec<u8>, AgeCryptoError>)
        requires
            old(self).open_view() ==> chunks_ok(data@) && file_not_too_long(data@.len() as int),
        ensures
            *final(self) == *old(self),
            !old(self).open_view() ==> res == Err::<Vec<u8>, AgeCryptoError>(AgeCryptoError::FileOpen),
            old(self).open_view() ==> match res {
                Ok(pt) => chunks_decrypted(old(self).key_view(), data@, pt@),
                Err(e) => e == AgeCryptoError::Decrypt && some_chunk_fails(old(self).key_view(), data@),
            },
    {
        if !self.reader_open {
            return Err(AgeCryptoError::FileOpen);
        }
        let n = data.len();
        let mut pt: Vec<u8> = Vec::new();
        let mut off: usize = 0;
        let mut chunk_n: u32 = 0;
        while off < n
            invariant
                n == data@.len(),
                self.open_view(),
                *self == *old(self),
                chunks_ok(data@),
                file_not_too_long(n as int),
                off as int == pages_end(n as int, chunk_n as int),
                chunk_n == 0 || (chunk_n - 1) * 4096 < n,
                pt@.len() == off,
                forall|i: int|
                    0 <= i < chunk_n ==> chunk_decrypt_spec(self.key_view(), #[trigger] page_of(data@, i), (i + 1) as u32)
                        == Ok::<Seq<u8>, ()>(page_of(pt@, i)),
            decreases n - off,
        {
            proof { lemma_pages_end_step(n as int, chunk_n as int); }
            let end = if n - off > 4096 { off + 4096 } else { n };
            let page = &data[off..end];
            assert(page@ =~= page_of(data@, chunk_n as int));
            assert(chunk_ok(page_of(data@, chunk_n as int), (chunk_n + 1) as u32));
            let ghost prev = pt@;
            match Self::internal_decrypt_chunk(&self.payload_key, page, chunk_n + 1) {
                Ok(d) => {
                    proof {
                        lemma_decrypt_len(self.key_view(), page@, (chunk_n + 1) as u32);
                        assert(d@.len() == page@.len());
                    }
                    pt.extend_from_slice(d.as_slice());
                    proof {
                        lemma_page_of_append(prev, d@, chunk_n as int);
                        assert(pt@ == prev + d@);
                        assert forall|i: int| 0 <= i < chunk_n + 1 implies chunk_decrypt_spec(
                            self.key_view(),
                            #[trigger] page_of(data@, i),
                            (i + 1) as u32,
                        ) == Ok::<Seq<u8>, ()>(page_of(pt@, i)) by {
                            if i < chunk_n {
                                assert(chunk_decrypt_spec(self.key_view(), page_of(data@, i), (i + 1) as u32) == Ok::<
                                    Seq<u8>,
                                    (),
                                >(page_of(prev, i)));
                            }
                        }
                    }
                },
                Err(_) => {
                    return Err(AgeCryptoError::Decrypt);
                },
            }
            off = end;
            chunk_n = chunk_n + 1;
        }
        proof { lemma_pages_done(n as int, chunk_n as int); }
        Ok(pt)
    }
}

/// A page of a file whose pages hold a whole payload holds one.
proof fn lemma_page_holds_payload(n: int, c: int)
    requires
        pages_hold_payload(n),
        0 <= c,
        c * 4096 < n,
    ensures
        crate::storage::tirracrypto::page_of_len(n, c) >= 4064,
{
    if n < (c + 1) * 4096 {
        if c == 0 {
            assert(n % 4096 == n);
        } else {
            assert(n % 4096 == n - c * 4096) by (nonlinear_arith)
                requires
                    c * 4096 < n,
                    n < (c + 1) * 4096,
                    c >= 1,
            ;
        }
    }
}

/// Tells whether `nonce` leaves room for the pages of a file of `len`
/// bytes (see `nonce_fits`).
fn nonce_fits_pages(nonce: &[u8; 16], len: usize) -> (b: bool)
    requires
        file_not_too_long(len as int),
    ensures
        b == nonce_fits(nonce@, len as int),
{
    let count: u64 = (len as u64 + 4095) / 4096;
    assert(count == page_count(len as int));
    let ns = nonce.as_slice();
    let c0 = crate::crypto::cipher::le_u32_exec(&ns[12..16]);
    assert(ns@.subrange(12, 16) == nonce@.subrange(12, 16));
    let mut i: u64 = 0;
    while i < count
        invariant
            count == page_count(len as int),
            count < u32::MAX,
            c0 == crate::crypto::cipher::le_u32(nonce@.subrange(12, 16)),
            i <= count,
            forall|j: int| 0 <= j < i ==> #[trigger] counter_fits(
                page_counter(nonce@, (j + 1) as u32),
                4064 - skip_len((j + 1) as u32, Some(1u32)),
            ),
        decreases count - i,
    {
        let page_no: u32 = (i + 1) as u32;
        let counter = c0 ^ page_no;
        let skip: u64 = if page_no == 1 { 24 } else { 0 };
        let body: u64 = 4064 - skip;
        let blocks: u64 = body / 64 + if body % 64 == 0 { 0 } else { 1 };
        assert((body + 63) / 64 == blocks);
        if counter as u64 + 1 + blocks > u32::MAX as u64 {
            assert(!counter_fits(page_counter(nonce@, (i + 1) as u32), 4064 - skip_len((i + 1) as u32, Some(1u32))));
            return false;
        }
        i = i + 1;
    }
    true
}

impl AgeCrypto {
    /// Encrypts `plain` page by page under `payload_key` and `salt`, each
    /// page with the fixed nonce (see `chunks_encrypted`).
    fn encrypt_with(&self, plain: &[u8], salt: &[u8; 16], payload_key: &[u8; 32]) -> (res: Result<Vec<u8>, AgeCryptoError>)
        requires
            pages_hold_payload(plain@.len() as int),
            file_not_too_long(plain@.len() as int),
            fixed_nonce_fits(plain@.len() as int),
        ensures
            res matches Ok(ct) && chunks_encrypted(payload_key@, salt@, plain@, ct@),
    {
        let n = plain.len();
        let mut out: Vec<u8> = Vec::new();
        let mut off: usize = 0;
        let mut chunk_n: u32 = 0;
        while off < n
            invariant
                n == plain@.len(),
                pages_hold_payload(n as int),
                file_not_too_long(n as int),
                fixed_nonce_fits(n as int),
                off as int == pages_end(n as int, chunk_n as int),
                chunk_n == 0 || (chunk_n - 1) * 4096 < n,
                out@.len() == 4096 * chunk_n,
                forall|i: int|
                    0 <= i < chunk_n ==> #[trigger] page_of(out@, i) == chunk_encrypt_spec(
                        payload_key@,
                        salt@,
                        page_of(plain@, i).subrange(0, 4064),
                        (i + 1) as u32,
                        fixed_nonce(),
                    ),
            decreases n - off,
        {
            proof {
                lemma_pages_end_step(n as int, chunk_n as int);
                lemma_page_holds_payload(n as int, chunk_n as int);
            }
            let end = if n - off > 4096 { off + 4096 } else { n };
            let page = &plain[off..end];
            assert(page@ =~= page_of(plain@, chunk_n as int));
            let mut chunk_nonce: [u8; 16] = [0u8; 16];
            fill_random(&mut chunk_nonce);
            let chunk = &page[0..4064];
            assert(chunk@ =~= page_of(plain@, chunk_n as int).subrange(0, 4064));
            assert(counter_fits(
                page_counter(fixed_nonce(), (chunk_n + 1) as u32),
                4064 - skip_len((chunk_n + 1) as u32, Some(1u32)),
            ));
            let ghost prev = out@;
            let enc = match Self::internal_encrypt_chunk(payload_key, chunk, &chunk_nonce, chunk_n + 1, salt) {
                Ok(e) => e,
                Err(_) => return Err(AgeCryptoError::Decrypt),
            };
            out.extend_from_slice(enc.as_slice());
            proof {
                lemma_page_of_append(prev, enc@, chunk_n as int);
                assert(out@ == prev + enc@);
                assert forall|i: int| 0 <= i < chunk_n + 1 implies #[trigger] page_of(out@, i) == chunk_encrypt_spec(
                    payload_key@,
                    salt@,
                    page_of(plain@, i).subrange(0, 4064),
                    (i + 1) as u32,
                    fixed_nonce(),
                ) by {
                    if i < chunk_n {
                        assert(page_of(prev, i) == chunk_encrypt_spec(
                            payload_key@,
                            salt@,
                            page_of(plain@, i).subrange(0, 4064),
                            (i + 1) as u32,
                            fixed_nonce(),
                        ));
                    }
                }
            }
            off = end;
            chunk_n = chunk_n + 1;
        }
        proof { lemma_pages_done(n as int, chunk_n as int); }
        Ok(out)
    }

    /// Encrypts `plain` with the secrets in use. Refused with `Other` when
    /// the fixed nonce would run the ChaCha20 block counter out.
    pub fn encrypt_with_same(&self, plain: &[u8]) -> (res: Result<Vec<u8>, AgeCryptoError>)
        requires
            pages_hold_payload(plain@.len() as int),
            file_not_too_long(plain@.len() as int),
        ensures
            fixed_nonce_fits(plain@.len() as int) ==> (res matches Ok(ct) && chunks_encrypted(
                self.key_view(),
                self.salt_view(),
                plain@,
                ct@,
            )),
            !fixed_nonce_fits(plain@.len() as int) ==> res == Err::<Vec<u8>, AgeCryptoError>(AgeCryptoError::Other),
    {
        let mut nonce: [u8; 16] = [0u8; 16];
        fill_random(&mut nonce);
        if !nonce_fits_pages(&nonce, plain.len()) {
            return Err(AgeCryptoError::Other);
        }
        self.encrypt_with(plain, &self.payload_salt, &self.payload_key)
    }

    /// Encrypts `plain` under a key derived from `password` and a salt from
    /// the fixed-seed generator. Refused with `Other` when the fixed nonce
    /// would run the ChaCha20 block counter out.
    pub fn encrypt_file(&self, plain: &[u8], password: &[u8]) -> (res: Result<Vec<u8>, AgeCryptoError>)
        requires
            pages_hold_payload(plain@.len() as int),
            file_not_too_long(plain@.len() as int),
        ensures
            fixed_nonce_fits(plain@.len() as int) ==> (res matches Ok(ct) && chunks_encrypted(
                pbkdf2_hmac_sha256(password@, fixed_seed_rng_bytes(16), KEY_DERIVATION_ITER),
                fixed_seed_rng_bytes(16),
                plain@,
                ct@,
            )),
            !fixed_nonce_fits(plain@.len() as int) ==> res == Err::<Vec<u8>, AgeCryptoError>(AgeCryptoError::Other),
            fixed_seed_rng_bytes(16).len() == 16,
    {
        let mut salt = [12u8; 16];
        fill_random(&mut salt);
        let payload_key = match self.derive_key_with_constants(password, salt) {
            Ok(key) => key,
            Err(_) => return Err(AgeCryptoError::ComputePayloadKey),
        };
        if !nonce_fits_pages(&salt, plain.len()) {
            return Err(AgeCryptoError::Other);
        }
        self.encrypt_with(plain, &salt, &payload_key)
    }
}

/// A file encrypted by `AgeCrypto::encrypt_file` is read back by
/// `AgeCrypto::extract_secrets` and `AgeCrypto::decrypt` with the same
/// password: the salt is found at the start of the file, the same key is
/// derived, every page can be decrypted, and each gives back the payload of
/// the plaintext page (its first 4064 bytes), provided the file is a SQLite
/// database.
pub proof fn lemma_chunks_round_trip(password: Seq<u8>, plain: Seq<u8>, ct: Seq<u8>)
    requires
        fixed_seed_rng_bytes(16).len() == 16,
        pages_hold_payload(plain.len() as int),
        file_not_too_long(plain.len() as int),
        fixed_nonce_fits(plain.len() as int),
        plain.len() > 0 ==> plain.subrange(0, 16) == sqlite_magic(),
        chunks_encrypted(
            pbkdf2_hmac_sha256(password, fixed_seed_rng_bytes(16), KEY_DERIVATION_ITER),
            fixed_seed_rng_bytes(16),
            plain,
            ct,
        ),
    ensures
        ct.len() >= 16 ==> ct.subrange(0, 16) == fixed_seed_rng_bytes(16),
        chunks_ok(ct),
        forall|i: int|
            0 <= i < page_count(plain.len() as int) ==> (chunk_decrypt_spec(
                pbkdf2_hmac_sha256(password, fixed_seed_rng_bytes(16), KEY_DERIVATION_ITER),
                #[trigger] page_of(ct, i),
                (i + 1) as u32,
            ) matches Ok(p) && p.subrange(0, 4064) == page_of(plain, i).subrange(0, 4064)),
{
    let key = pbkdf2_hmac_sha256(password, fixed_seed_rng_bytes(16), KEY_DERIVATION_ITER);
    let salt = fixed_seed_rng_bytes(16);
    let n = plain.len() as int;
    let cc = page_count(n);
    assert(page_count(ct.len() as int) == cc) by (nonlinear_arith)
        requires
            ct.len() == 4096 * cc,
            cc >= 0,
    ;
    assert forall|i: int| 0 <= i < cc implies {
        &&& page_of(ct, i).len() == 4096
        &&& chunk_ok(#[trigger] page_of(ct, i), (i + 1) as u32)
        &&& (chunk_decrypt_spec(key, page_of(ct, i), (i + 1) as u32) matches Ok(p) && p.subrange(0, 4064) == page_of(
            plain,
            i,
        ).subrange(0, 4064))
    } by {
        assert((i + 1) * 4096 <= ct.len()) by (nonlinear_arith)
            requires
                0 <= i < cc,
                ct.len() == 4096 * cc,
        ;
        let c = i * 4096;
        assert(c < n) by (nonlinear_arith)
            requires
                0 <= i < cc,
                cc == (n + 4095) / 4096,
                c == i * 4096,
        ;
        lemma_page_holds_payload(n, i);
        let payload = page_of(plain, i).subrange(0, 4064);
        let padded = payload + Seq::new(32, |k: int| 0u8);
        assert(padded.len() == 4096);
        assert(padded.subrange(0, 4064) =~= payload);
        if i == 0 {
            assert(padded.subrange(0, 16) =~= plain.subrange(0, 16));
        }
        assert(counter_fits(page_counter(fixed_nonce(), (i + 1) as u32), 4064 - skip_len((i + 1) as u32, Some(1u32))));
        lemma_page_round_trip(key, Some(salt), padded, (i + 1) as u32, 1, fixed_nonce());
        crate::crypto::cipher::lemma_encrypt_decrypt(key, Some(salt), padded, (i + 1) as u32, Some(1u32), fixed_nonce());
        assert(page_of(ct, i) == chunk_encrypt_spec(key, salt, payload, (i + 1) as u32, fixed_nonce()));
        assert(page_of(ct, i).subrange(4064, 4080) == crate::crypto::cipher::page_nonce(page_of(ct, i)));
    }
    if ct.len() >= 16 {
        assert(cc > 0);
        lemma_page_holds_payload(n, 0);
        let payload = page_of(plain, 0).subrange(0, 4064);
        let padded = payload + Seq::new(32, |k: int| 0u8);
        lemma_salt_carried(key, salt, padded, 1, fixed_nonce());
        assert(ct.subrange(0, 16) =~= page_of(ct, 0).subrange(0, 16));
    }
}

/// A decrypted page has the length of the encrypted page.
proof fn lemma_decrypt_len(key: Seq<u8>, chunk: Seq<u8>, page_no: u32)
    requires
        page_fits(chunk.len() as int, page_no, Some(1u32)),
    ensures
        decrypt_spec(key, chunk, page_no, Some(1u32)) matches Ok(p) ==> p.len() == chunk.len(),
{
    let n = chunk.len() as int;
    let r = n - 32;
    let skip = skip_len(page_no, Some(1u32));
    let nonce = crate::crypto::cipher::page_nonce(chunk);
    let nonce12 = nonce.subrange(0, 12);
    let c = page_counter(nonce, page_no);
    let otb = crate::crypto::cipher::one_time_block(key, nonce12, c);
    crate::crypto::primitives::lemma_xor_range_twice(chunk, skip, r, otb.subrange(32, 64), nonce12, (c as int + 1) * 64);
}

} // verus!
