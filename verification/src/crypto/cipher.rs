//! Page cipher of the encrypted database file.
//!
//! A page of `N` bytes keeps its size once encrypted: its last 32 bytes (the
//! SQLite reserved area) receive a 16-byte nonce and a 16-byte Poly1305 tag.
//! The nonce's first 12 bytes are the ChaCha20 nonce; its last 4 bytes, read
//! little-endian and combined with the page number by exclusive or, give the
//! block at which a one-time block is drawn from the payload key. The first
//! half of that block is the Poly1305 key, the second half the key of the
//! ChaCha20 stream that encrypts the page body from the next block on.
//! The first page of the database keeps its first 24 bytes in clear, the
//! first 16 of which carry the salt of the key derivation.
//!
//! Pages are numbered from 0. Since the page number enters the block
//! counter, a file decrypts only under the numbering it was encrypted with.
use vstd::prelude::*;
use vstd::slice::slice_to_vec;
use vstd::utf8::encode_utf8;

use crate::crypto::primitives::{
    chacha20_keystream_byte, chacha20_xor_in_place, keystream, keystream_fits, lemma_xor_range_twice,
    lemma_xor_range_ext, lemma_xor_twice, pbkdf2_hmac_sha256, pbkdf2_sha256, poly1305_padded_tag, poly1305_tag, xor_bytes,
    thread_random, xor_range,
};

verus! {

#[derive(Debug, PartialEq, Eq, Structural)]
pub enum CipherError {
    Format,
    MacIncorrect,
}

#[derive(Debug)]
pub enum Secret {
    Passphrase(String),
    Key([u8; 32]),
}

#[derive(Debug)]
pub struct Cipher {
    secret: Secret,
    payload_key: [u8; 32],
    payload_salt: Option<[u8; 16]>,
}

/// Number of PBKDF2 iterations that derive the payload key from a passphrase.
pub const KEY_DERIVATION_ITER: u32 = 64007;

/// The 16 bytes that open every SQLite database file.
pub open spec fn sqlite_magic() -> Seq<u8> {
    seq![83u8, 81u8, 76u8, 105u8, 116u8, 101u8, 32u8, 102u8, 111u8, 114u8, 109u8, 97u8, 116u8, 32u8, 51u8, 0u8]
}

/// Unsigned 32-bit integer encoded little-endian by four bytes.
pub open spec fn le_u32(b: Seq<u8>) -> u32 {
    (b[0] as int + b[1] as int * 256 + b[2] as int * 65536 + b[3] as int * 16777216) as u32
}

/// Block of the one-time keys of a page: the last four nonce bytes combined
/// with the page number.
pub open spec fn page_counter(nonce: Seq<u8>, page_no: u32) -> u32 {
    le_u32(nonce.subrange(12, 16)) ^ page_no
}

/// Number of leading bytes that stay in clear: the 24-byte header of the
/// page whose header is kept in clear, if any.
pub open spec fn skip_len(page_no: u32, header_page: Option<u32>) -> int {
    if header_page == Some(page_no) { 24 } else { 0 }
}

/// Sizes for which `encrypt` and `decrypt` can address the reserved area
/// and the clear header of a page.
pub open spec fn page_fits(n: int, page_no: u32, header_page: Option<u32>) -> bool {
    &&& n >= 32
    &&& (header_page == Some(page_no) ==> n >= 56)
}

/// The one-time block and the body keystream of a page stay inside the
/// 32-bit block counter of ChaCha20.
pub open spec fn counter_fits(counter: u32, body_len: int) -> bool {
    counter as int + 1 + (body_len + 63) / 64 <= u32::MAX
}

/// The 64-byte one-time block drawn at block `counter` of the payload key.
pub open spec fn one_time_block(key: Seq<u8>, nonce12: Seq<u8>, counter: u32) -> Seq<u8> {
    keystream(key, nonce12, counter as int * 64, 64)
}

/// Encryption of a page with the nonce `nonce`.
pub open spec fn encrypt_spec(
    key: Seq<u8>,
    salt: Option<Seq<u8>>,
    chunk: Seq<u8>,
    page_no: u32,
    header_page: Option<u32>,
    nonce: Seq<u8>,
) -> Seq<u8> {
    let r = chunk.len() - 32;
    let skip = skip_len(page_no, header_page);
    let nonce12 = nonce.subrange(0, 12);
    let c = page_counter(nonce, page_no);
    let otb = one_time_block(key, nonce12, c);
    let body = xor_range(chunk.subrange(0, r), skip, r, otb.subrange(32, 64), nonce12, (c as int + 1) * 64);
    let salted = if header_page == Some(page_no) && salt is Some {
        salt.unwrap() + body.subrange(16, r)
    } else {
        body
    };
    let authed = salted + nonce;
    authed + poly1305_padded_tag(otb.subrange(0, 32), authed)@
}

/// The nonce that an encrypted page carries.
pub open spec fn page_nonce(chunk: Seq<u8>) -> Seq<u8> {
    chunk.subrange(chunk.len() - 32, chunk.len() - 16)
}

/// A page can be decrypted without leaving the ChaCha20 block counter.
pub open spec fn decryptable(chunk: Seq<u8>, page_no: u32, header_page: Option<u32>) -> bool {
    &&& page_fits(chunk.len() as int, page_no, header_page)
    &&& counter_fits(
        page_counter(page_nonce(chunk), page_no),
        chunk.len() - 32 - skip_len(page_no, header_page),
    )
}

/// The last 16 bytes of an encrypted page are the Poly1305 tag, under the
/// one-time key of the page, of the bytes before them.
pub open spec fn tag_matches(key: Seq<u8>, chunk: Seq<u8>, page_no: u32) -> bool {
    let n = chunk.len() as int;
    let nonce = page_nonce(chunk);
    let otb = one_time_block(key, nonce.subrange(0, 12), page_counter(nonce, page_no));
    poly1305_padded_tag(otb.subrange(0, 32), chunk.subrange(0, n - 16))@ == chunk.subrange(n - 16, n)
}

/// `N` bytes followed by the 32 bytes of the reserved area, zeroed.
pub open spec fn padded(chunk: Seq<u8>) -> Seq<u8> {
    chunk + Seq::new(32, |i: int| 0u8)
}

/// A 16-byte nonce whose one-time block, drawn for page `page_no`, would
/// leave no room in the ChaCha20 block counter for a body of `body_len`
/// bytes.
pub open spec fn nonce_exhausts(nonce: Seq<u8>, page_no: u32, body_len: int) -> bool {
    nonce.len() == 16 && !counter_fits(page_counter(nonce, page_no), body_len)
}

/// Some nonce that a random draw can give would run the block counter out
/// on page `page_no` for a body of `body_len` bytes.
pub open spec fn draw_may_fail(page_no: u32, body_len: int) -> bool {
    exists|n: Seq<u8>| #[trigger] nonce_exhausts(n, page_no, body_len)
}

/// Encryption of `N` bytes into `N + 32` with the drawn nonce `nonce`:
/// refused with `Format` when the nonce would run the block counter out.
pub open spec fn drawn_encrypt_spec(
    key: Seq<u8>,
    salt: Option<Seq<u8>>,
    chunk: Seq<u8>,
    page_no: u32,
    header_page: Option<u32>,
    nonce: Seq<u8>,
) -> Result<Seq<u8>, CipherError> {
    if counter_fits(page_counter(nonce, page_no), chunk.len() - skip_len(page_no, header_page)) {
        Ok(encrypt_spec(key, salt, padded(chunk), page_no, header_page, nonce))
    } else {
        Err(CipherError::Format)
    }
}

/// An encryption result as a sequence of bytes.
pub open spec fn cipher_result(res: Result<Vec<u8>, CipherError>) -> Result<Seq<u8>, CipherError> {
    match res {
        Ok(v) => Ok(v@),
        Err(e) => Err(e),
    }
}

/// Encryption reads only the first `N - 32` bytes of a page: the reserved
/// area is written over.
pub proof fn lemma_reserved_ignored(key: Seq<u8>, salt: Option<Seq<u8>>, chunk: Seq<u8>, page_no: u32, header_page: Option<u32>, nonce: Seq<u8>)
    requires
        chunk.len() >= 32,
    ensures
        encrypt_spec(key, salt, chunk, page_no, header_page, nonce) == encrypt_spec(
            key,
            salt,
            padded(chunk.subrange(0, chunk.len() - 32)),
            page_no,
            header_page,
            nonce,
        ),
{
    let r = chunk.len() - 32;
    let p = padded(chunk.subrange(0, r));
    assert(p.subrange(0, r) =~= chunk.subrange(0, r));
}

/// Decryption of a page: the tag is checked, then the body is decrypted.
/// The reserved area is returned as it was.
pub open spec fn decrypt_spec(key: Seq<u8>, chunk: Seq<u8>, page_no: u32, header_page: Option<u32>) -> Result<
    Seq<u8>,
    CipherError,
> {
    let n = chunk.len() as int;
    let r = n - 32;
    let skip = skip_len(page_no, header_page);
    let nonce = page_nonce(chunk);
    let nonce12 = nonce.subrange(0, 12);
    let c = page_counter(nonce, page_no);
    let otb = one_time_block(key, nonce12, c);
    if !tag_matches(key, chunk, page_no) {
        Err(CipherError::MacIncorrect)
    } else {
        Ok(xor_range(chunk, skip, r, otb.subrange(32, 64), nonce12, (c as int + 1) * 64))
    }
}

/// Decryption of a page of a file whose header page is `first`: on that
/// page the SQLite magic string replaces the salt.
pub open spec fn decrypt_first_spec(key: Seq<u8>, chunk: Seq<u8>, page_no: u32, first: u32) -> Result<Seq<u8>, CipherError> {
    match decrypt_spec(key, chunk, page_no, Some(first)) {
        Ok(pt) => if page_no == first {
            Ok(sqlite_magic() + pt.subrange(16, pt.len() as int))
        } else {
            Ok(pt)
        },
        Err(e) => Err(e),
    }
}

/// Decryption of a database page; the first page is number 0.
pub open spec fn decrypt_page_spec(key: Seq<u8>, chunk: Seq<u8>, page_no: u32) -> Result<Seq<u8>, CipherError> {
    decrypt_first_spec(key, chunk, page_no, 0)
}

/// The page whose header stays in clear: page 0 when the option is set.
pub open spec fn db_header(skip_option: bool) -> Option<u32> {
    if skip_option { Some(0u32) } else { None }
}

pub open spec fn salt_seq(salt: Option<[u8; 16]>) -> Option<Seq<u8>> {
    match salt {
        Some(s) => Some(s@),
        None => None,
    }
}

/// What a round trip through `encrypt_spec` and `decrypt_spec` gives back of
/// the first `N - 32` bytes of a page: the page itself, where a salt is
/// written over its first 16 bytes on the first page.
pub open spec fn recovered_prefix(salt: Option<Seq<u8>>, chunk: Seq<u8>, page_no: u32, header_page: Option<u32>) -> Seq<u8> {
    let r = chunk.len() - 32;
    if header_page == Some(page_no) && salt is Some {
        salt.unwrap() + chunk.subrange(16, r)
    } else {
        chunk.subrange(0, r)
    }
}

/// Round trip of a page through encryption and decryption under one key:
/// the tag verifies and the body comes back.
pub proof fn lemma_encrypt_decrypt(
    key: Seq<u8>,
    salt: Option<Seq<u8>>,
    chunk: Seq<u8>,
    page_no: u32,
    header_page: Option<u32>,
    nonce: Seq<u8>,
)
    requires
        page_fits(chunk.len() as int, page_no, header_page),
        nonce.len() == 16,
        salt matches Some(s) ==> s.len() == 16,
    ensures
        ({
            let ct = encrypt_spec(key, salt, chunk, page_no, header_page, nonce);
            &&& ct.len() == chunk.len()
            &&& page_nonce(ct) == nonce
            &&& decrypt_spec(key, ct, page_no, header_page) matches Ok(pt) && pt.subrange(
                0,
                chunk.len() - 32,
            ) == recovered_prefix(salt, chunk, page_no, header_page) && pt.len() == chunk.len()
        }),
{
    let n = chunk.len() as int;
    let r = n - 32;
    let skip = skip_len(page_no, header_page);
    let nonce12 = nonce.subrange(0, 12);
    let c = page_counter(nonce, page_no);
    let otb = one_time_block(key, nonce12, c);
    let ek = otb.subrange(32, 64);
    let pos = (c as int + 1) * 64;
    let body = xor_range(chunk.subrange(0, r), skip, r, ek, nonce12, pos);
    let salted = if header_page == Some(page_no) && salt is Some {
        salt.unwrap() + body.subrange(16, r)
    } else {
        body
    };
    let authed = salted + nonce;
    let ct = authed + poly1305_padded_tag(otb.subrange(0, 32), authed)@;
    assert(ct == encrypt_spec(key, salt, chunk, page_no, header_page, nonce));
    lemma_xor_range_twice(chunk.subrange(0, r), skip, r, ek, nonce12, pos);
    assert(body.len() == r);
    assert(salted.len() == r);
    assert(ct.len() == n);
    assert(ct.subrange(r, r + 16) =~= nonce);
    assert(page_nonce(ct) =~= nonce);
    assert(ct.subrange(0, r + 16) =~= authed);
    assert(ct.subrange(r + 16, n) =~= poly1305_padded_tag(otb.subrange(0, 32), authed)@);
    let pt = xor_range(ct, skip, r, ek, nonce12, pos);
    assert(decrypt_spec(key, ct, page_no, header_page) == Ok::<Seq<u8>, CipherError>(pt));
    let twice = xor_range(body, skip, r, ek, nonce12, pos);
    assert(twice =~= chunk.subrange(0, r));
    assert forall|i: int| 0 <= i < r implies #[trigger] pt[i] == recovered_prefix(
        salt,
        chunk,
        page_no,
        header_page,
    )[i] by {
        if skip <= i {
            assert(pt[i] == ct[i] ^ chacha20_keystream_byte(ek, nonce12, pos + (i - skip)));
            assert(ct[i] == body[i]);
            assert(twice[i] == body[i] ^ chacha20_keystream_byte(ek, nonce12, pos + (i - skip)));
        } else {
            assert(pt[i] == ct[i]);
            if header_page == Some(page_no) && salt is Some && i < 16 {
            } else {
                assert(ct[i] == body[i]);
                assert(twice[i] == body[i]);
            }
        }
    }
    assert(pt.subrange(0, r) =~= recovered_prefix(salt, chunk, page_no, header_page));
}

/// Payload key and salt after a page has been encrypted. On the first
/// page, a cipher built from a passphrase that has no salt yet takes a fresh
/// 16-byte salt and derives its key from it; a cipher built from a key
/// takes that key. Nothing changes otherwise.
pub open spec fn encrypt_setup(
    secret: Secret,
    key: Seq<u8>,
    salt: Option<Seq<u8>>,
    page_no: u32,
    new_key: Seq<u8>,
    new_salt: Option<Seq<u8>>,
) -> bool {
    if page_no == 0 {
        match secret {
            Secret::Passphrase(p) => if salt is None {
                &&& new_salt matches Some(s)
                &&& new_salt->0.len() == 16
                &&& new_key == pbkdf2_hmac_sha256(encode_utf8(p@), new_salt->0, KEY_DERIVATION_ITER)
            } else {
                new_key == key && new_salt == salt
            },
            Secret::Key(k) => new_key == k@ && new_salt == salt,
        }
    } else {
        new_key == key && new_salt == salt
    }
}

/// Payload key and salt after a page has been decrypted. On the first page,
/// a cipher built from a passphrase that has no salt yet reads the salt from
/// the first 16 bytes of the page and derives its key from it; a cipher
/// built from a key takes that key and forgets any salt.
pub open spec fn decrypt_setup(secret: Secret, key: Seq<u8>, salt: Option<Seq<u8>>, chunk: Seq<u8>, page_no: u32) -> (
    Seq<u8>,
    Option<Seq<u8>>,
) {
    if page_no == 0 {
        match secret {
            Secret::Passphrase(p) => if salt is None {
                let s = chunk.subrange(0, 16);
                (pbkdf2_hmac_sha256(encode_utf8(p@), s, KEY_DERIVATION_ITER), Some(s))
            } else {
                (key, salt)
            },
            Secret::Key(k) => (k@, None),
        }
    } else {
        (key, salt)
    }
}

/// A database page comes back from `decrypt_first_spec` after
/// `encrypt_spec`, in a file whose header page is `first`: its first
/// `N - 32` bytes are restored, provided the header page opens with the
/// SQLite magic string, which the salt replaces in the encrypted file.
pub proof fn lemma_page_round_trip(key: Seq<u8>, salt: Option<Seq<u8>>, chunk: Seq<u8>, page_no: u32, first: u32, nonce: Seq<u8>)
    requires
        page_fits(chunk.len() as int, page_no, Some(first)),
        nonce.len() == 16,
        salt matches Some(s) ==> s.len() == 16,
        page_no == first ==> chunk.subrange(0, 16) == sqlite_magic(),
    ensures
        ({
            let ct = encrypt_spec(key, salt, chunk, page_no, Some(first), nonce);
            &&& ct.len() == chunk.len()
            &&& (page_no == first && salt is Some ==> ct.subrange(0, 16) == salt->0)
            &&& decrypt_first_spec(key, ct, page_no, first) matches Ok(pt) && pt.len() == chunk.len() && pt.subrange(
                0,
                chunk.len() - 32,
            ) == chunk.subrange(0, chunk.len() - 32)
        }),
{
    let n = chunk.len() as int;
    let r = n - 32;
    let ct = encrypt_spec(key, salt, chunk, page_no, Some(first), nonce);
    lemma_encrypt_decrypt(key, salt, chunk, page_no, Some(first), nonce);
    let pt = decrypt_spec(key, ct, page_no, Some(first))->Ok_0;
    assert(pt.subrange(0, r) == recovered_prefix(salt, chunk, page_no, Some(first)));
    if page_no == first {
        if salt is Some {
            assert(ct.subrange(0, 16) =~= pt.subrange(0, r).subrange(0, 16));
            assert(ct.subrange(0, 16) =~= salt->0);
        }
        let out = sqlite_magic() + pt.subrange(16, pt.len() as int);
        assert(out.subrange(0, r) =~= chunk.subrange(0, r)) by {
            assert forall|i: int| 0 <= i < r implies out[i] == chunk[i] by {
                if i < 16 {
                    assert(chunk.subrange(0, 16)[i] == chunk[i]);
                } else {
                    assert(pt.subrange(0, r)[i] == pt[i]);
                    assert(recovered_prefix(salt, chunk, page_no, Some(first))[i] == chunk[i]);
                }
            }
        }
    } else {
        assert(pt.subrange(0, r) =~= chunk.subrange(0, r));
    }
}

/// The header page `first` of a file carries the salt in its first 16
/// bytes.
pub proof fn lemma_salt_carried(key: Seq<u8>, salt: Seq<u8>, chunk: Seq<u8>, first: u32, nonce: Seq<u8>)
    requires
        page_fits(chunk.len() as int, first, Some(first)),
        salt.len() == 16,
        nonce.len() == 16,
    ensures
        encrypt_spec(key, Some(salt), chunk, first, Some(first), nonce).subrange(0, 16) == salt,
{
    let r = chunk.len() - 32;
    let nonce12 = nonce.subrange(0, 12);
    let c = page_counter(nonce, first);
    let otb = one_time_block(key, nonce12, c);
    let body = xor_range(chunk.subrange(0, r), 24, r, otb.subrange(32, 64), nonce12, (c as int + 1) * 64);
    assert(body.len() == r);
    assert(encrypt_spec(key, Some(salt), chunk, first, Some(first), nonce).subrange(0, 16) =~= salt);
}

/// Decryption gives back as many bytes as it reads.
pub proof fn lemma_decrypt_spec_len(key: Seq<u8>, chunk: Seq<u8>, page_no: u32, header_page: Option<u32>)
    requires
        page_fits(chunk.len() as int, page_no, header_page),
    ensures
        decrypt_spec(key, chunk, page_no, header_page) matches Ok(p) ==> p.len() == chunk.len(),
{
    let n = chunk.len() as int;
    let r = n - 32;
    let skip = skip_len(page_no, header_page);
    let nonce = page_nonce(chunk);
    let nonce12 = nonce.subrange(0, 12);
    let c = page_counter(nonce, page_no);
    let otb = one_time_block(key, nonce12, c);
    lemma_xor_range_twice(chunk, skip, r, otb.subrange(32, 64), nonce12, (c as int + 1) * 64);
}

/// Four little-endian bytes as an unsigned integer.
pub(crate) fn le_u32_exec(b: &[u8]) -> (v: u32)
    requires
        b@.len() == 4,
    ensures
        v == le_u32(b@),
{
    b[0] as u32 + (b[1] as u32) * 256 + (b[2] as u32) * 65536 + (b[3] as u32) * 16777216
}

/// Tells whether `decrypt` can be called on `chunk` (see `decryptable`);
/// with `skip_option`, page 0 keeps its header in clear.
pub fn is_decryptable(chunk: &[u8], page_no: u32, skip_option: bool) -> (b: bool)
    ensures
        b == decryptable(chunk@, page_no, db_header(skip_option)),
{
    let n = chunk.len();
    if n < 32 || (skip_option && page_no == 0 && n < 56) {
        return false;
    }
    let nonce = &chunk[n - 32..n - 16];
    let counter = le_u32_exec(&nonce[12..16]) ^ page_no;
    assert(nonce@.subrange(12, 16) =~= page_nonce(chunk@).subrange(12, 16));
    let skip: usize = if skip_option && page_no == 0 { 24 } else { 0 };
    let body_len = n - 32 - skip;
    let blocks: u64 = body_len as u64 / 64 + if body_len as u64 % 64 == 0 { 0 } else { 1 };
    assert((body_len + 63) / 64 == blocks);
    counter as u64 + 1 + blocks <= u32::MAX as u64
}

/// Whether `page_no` is the page whose header stays in clear.
fn is_header_page(header_page: Option<u32>, page_no: u32) -> (b: bool)
    ensures
        b == (header_page == Some(page_no)),
{
    match header_page {
        Some(h) => h == page_no,
        None => false,
    }
}

/// Equality of two byte strings.
pub fn bytes_equal(a: &[u8], b: &[u8]) -> (eq: bool)
    ensures
        eq == (a@ == b@),
{
    if a.len() != b.len() {
        return false;
    }
    let mut i: usize = 0;
    while i < a.len()
        invariant
            a@.len() == b@.len(),
            i <= a@.len(),
            forall|j: int| 0 <= j < i ==> a@[j] == b@[j],
        decreases a@.len() - i,
    {
        if a[i] != b[i] {
            return false;
        }
        i = i + 1;
    }
    assert(a@ =~= b@);
    true
}

/// Writes `src` over the first bytes of `v`.
pub fn overwrite_prefix(v: &mut Vec<u8>, src: &[u8])
    requires
        src@.len() <= old(v)@.len(),
    ensures
        final(v)@ == src@ + old(v)@.subrange(src@.len() as int, old(v)@.len() as int),
{
    let ghost orig = v@;
    let mut i: usize = 0;
    while i < src.len()
        invariant
            i <= src@.len(),
            src@.len() <= orig.len(),
            v@.len() == orig.len(),
            forall|j: int| 0 <= j < i ==> v@[j] == src@[j],
            forall|j: int| i <= j < orig.len() ==> v@[j] == orig[j],
        decreases src@.len() - i,
    {
        v[i] = src[i];
        i = i + 1;
    }
    assert(v@ =~= src@ + orig.subrange(src@.len() as int, orig.len() as int));
}

/// The SQLite magic string as an array.
fn sqlite_magic_array() -> (m: [u8; 16])
    ensures
        m@ == sqlite_magic(),
{
    let m: [u8; 16] = [83u8, 81u8, 76u8, 105u8, 116u8, 101u8, 32u8, 102u8, 111u8, 114u8, 109u8, 97u8, 116u8, 32u8, 51u8, 0u8];
    assert(m@ =~= sqlite_magic());
    m
}

/// Copies 16 bytes of `v`, from `start` on, into an array.
fn array16(v: &[u8], start: usize) -> (a: [u8; 16])
    requires
        start + 16 <= v@.len(),
    ensures
        a@ == v@.subrange(start as int, start + 16),
{
    let mut a = [0u8; 16];
    let mut i: usize = 0;
    while i < 16
        invariant
            i <= 16,
            start + 16 <= v.len(),
            forall|j: int| 0 <= j < i ==> a@[j] == v@[start + j],
        decreases 16 - i,
    {
        a[i] = v[start + i];
        i = i + 1;
    }
    assert(a@ =~= v@.subrange(start as int, start + 16));
    a
}

/// The Poly1305 key and the ChaCha20 key drawn at block `counter`.
fn one_time_keys(key: &[u8], nonce12: &[u8], counter: u32) -> (keys: (Vec<u8>, Vec<u8>))
    requires
        key@.len() == 32,
        nonce12@.len() == 12,
        counter < u32::MAX,
    ensures
        keys.0@ == one_time_block(key@, nonce12@, counter).subrange(0, 32),
        keys.1@ == one_time_block(key@, nonce12@, counter).subrange(32, 64),
{
    let mut block: Vec<u8> = vec![0u8; 64];
    let ghost zeros = block@;
    let pos: u64 = counter as u64 * 64;
    chacha20_xor_in_place(key, nonce12, pos, &mut block, 0, 64);
    proof { lemma_xor_range_ext(zeros, block@, 0, 64, key@, nonce12@, pos as int); }
    let ghost otb = one_time_block(key@, nonce12@, counter);
    assert forall|i: int| 0 <= i < 64 implies #[trigger] block@[i] == otb[i] by {
        lemma_xor_twice(0u8, chacha20_keystream_byte(key@, nonce12@, pos as int + i));
        assert(zeros[i] == 0u8);
    }
    let poly_key = slice_to_vec(&block.as_slice()[0..32]);
    let enc_key = slice_to_vec(&block.as_slice()[32..64]);
    assert(poly_key@ =~= otb.subrange(0, 32));
    assert(enc_key@ =~= otb.subrange(32, 64));
    (poly_key, enc_key)
}

/// Encryption of a page under `key` and `salt` with the nonce `nonce`.
pub(crate) fn encrypt_with_key(
key: &[u8; 32],
salt: &Option<[u8; 16]>,
chunk: &[u8],
page_no: u32,
header_page: Option<u32>,
nonce: &[u8; 16],
) -> (ct: Vec<u8>)
    requires
        page_fits(chunk@.len() as int, page_no, header_page),
        counter_fits(page_counter(nonce@, page_no), chunk@.len() - 32 - skip_len(page_no, header_page)),
    ensures
        ct@ == encrypt_spec(key@, salt_seq(*salt), chunk@, page_no, header_page, nonce@),
{
    let n = chunk.len();
    let r = n - 32;
    let header = is_header_page(header_page, page_no);
    let skip: usize = if header { 24 } else { 0 };
    let nonce_s = nonce.as_slice();
    let nonce12 = &nonce_s[0..12];
    let counter = le_u32_exec(&nonce_s[12..16]) ^ page_no;
    assert(nonce@.subrange(12, 16) == nonce_s@.subrange(12, 16));
    let (poly_key, enc_key) = one_time_keys(key.as_slice(), nonce12, counter);
    let ghost otb = one_time_block(key@, nonce12@, counter);
    // body
    let mut ct = slice_to_vec(&chunk[0..r]);
    let ghost clear = ct@;
    let pos: u64 = (counter as u64 + 1) * 64;
    chacha20_xor_in_place(enc_key.as_slice(), nonce12, pos, &mut ct, skip, r);
    proof { lemma_xor_range_ext(clear, ct@, skip as int, r as int, enc_key@, nonce12@, pos as int); }
    let ghost body = ct@;
    // salt
    if header {
        if let Some(s) = salt {
            overwrite_prefix(&mut ct, s.as_slice());
        }
    }
    // nonce
    ct.extend_from_slice(nonce_s);
    let ghost authed = ct@;
    // tag
    let tag = poly1305_tag(poly_key.as_slice(), ct.as_slice(), r + 16);
    assert(ct@.subrange(0, r + 16) =~= authed);
    ct.extend_from_slice(&tag);
    proof {
        let salt = salt_seq(*salt);
        let salted = if header_page == Some(page_no) && salt is Some {
            salt.unwrap() + body.subrange(16, r as int)
        } else {
            body
        };
        assert(salted + nonce@ =~= authed);
    }
    ct
}


/// Decryption of a page under `key`.
pub(crate) fn decrypt_with_key(key: &[u8; 32], chunk: &[u8], page_no: u32, header_page: Option<u32>) -> (res: Result<Vec<u8>, CipherError>)
    requires
        decryptable(chunk@, page_no, header_page),
    ensures
        match res {
            Ok(pt) => decrypt_spec(key@, chunk@, page_no, header_page) == Ok::<
                Seq<u8>,
                CipherError,
            >(pt@),
            Err(e) => decrypt_spec(key@, chunk@, page_no, header_page) == Err::<
                Seq<u8>,
                CipherError,
            >(e),
        },
{
    let n = chunk.len();
    let reserved_off = n - (16 + 16);
    let skip: usize = if is_header_page(header_page, page_no) { 24 } else { 0 };
    let arg_nonce = &chunk[reserved_off..reserved_off + 16];
    let chacha20_nonce = &arg_nonce[0..12];
    let counter = le_u32_exec(&arg_nonce[12..16]) ^ page_no;
    let expected_tag = &chunk[reserved_off + 16..n];
    let (poly_key, enc_key) = one_time_keys(key.as_slice(), chacha20_nonce, counter);
    let tag = poly1305_tag(poly_key.as_slice(), chunk, reserved_off + 16);
    if !bytes_equal(&tag, expected_tag) {
        return Err(CipherError::MacIncorrect);
    }
    let mut plain = slice_to_vec(chunk);
    let pos: u64 = (counter as u64 + 1) * 64;
    chacha20_xor_in_place(enc_key.as_slice(), chacha20_nonce, pos, &mut plain, skip, reserved_off);
    proof { lemma_xor_range_ext(chunk@, plain@, skip as int, reserved_off as int, enc_key@, chacha20_nonce@, pos as int); }
    Ok(plain)
}

impl Cipher {
    pub const FILE_PLAIN_HEADER_SIZE: usize = 24;
    pub const PAGE_SIZE: usize = 4096;
    pub const PAGE_TAG_SIZE: usize = 16;
    pub const PAGE_NONCE_SIZE: usize = 16;
    pub const RESERVED_BYTES_SIZE: usize = 32;

    /// The payload key in use.
    pub closed spec fn key_view(&self) -> Seq<u8> {
        self.payload_key@
    }

    /// The salt of the key derivation, once it is known.
    pub closed spec fn salt_view(&self) -> Option<Seq<u8>> {
        salt_seq(self.payload_salt)
    }

    /// The secret the cipher was built with.
    pub closed spec fn secret_view(&self) -> Secret {
        self.secret
    }

    /// New cipher from a passphrase; the key is derived at the first page.
    pub fn with_pwd(password: String) -> (c: Self)
        ensures
            c.secret_view() == Secret::Passphrase(password),
            c.key_view() == Seq::new(32, |i: int| 0u8),
            c.salt_view() is None,
    {
        let c = Self { secret: Secret::Passphrase(password), payload_key: [0u8; 32], payload_salt: None };
        assert(c.key_view() =~= Seq::new(32, |i: int| 0u8));
        c
    }

    /// New cipher from a key.
    pub fn with_key(key: [u8; 32]) -> (c: Self)
        ensures
            c.secret_view() == Secret::Key(key),
            c.key_view() == Seq::new(32, |i: int| 0u8),
            c.salt_view() is None,
    {
        let c = Self { secret: Secret::Key(key), payload_key: [0u8; 32], payload_salt: None };
        assert(c.key_view() =~= Seq::new(32, |i: int| 0u8));
        c
    }

    /// Encrypts a database page; the first page is number 0. On the first
    /// page the payload key is set up (see `encrypt_setup`). The last 32
    /// bytes of the page are ignored: its first `N - 32` bytes are encrypted
    /// by `encrypt`, and the header of page 0 stays in clear with the salt
    /// over its first 16 bytes. The page is refused with `Format` only when
    /// the nonce drawn for it would run the block counter out.
    pub fn encrypt_page(&mut self, chunk: &[u8], page_no: u32) -> (res: Result<Vec<u8>, CipherError>)
        requires
            page_fits(chunk@.len() as int, page_no, Some(0u32)),
        ensures
            final(self).secret_view() == old(self).secret_view(),
            encrypt_setup(
                old(self).secret_view(),
                old(self).key_view(),
                old(self).salt_view(),
                page_no,
                final(self).key_view(),
                final(self).salt_view(),
            ),
            match res {
                Ok(ct) => {
                    &&& ct@.len() == chunk@.len()
                    &&& ct@ == encrypt_spec(
                        final(self).key_view(),
                        final(self).salt_view(),
                        chunk@,
                        page_no,
                        Some(0u32),
                        page_nonce(ct@),
                    )
                    &&& decryptable(ct@, page_no, Some(0u32))
                },
                Err(e) => {
                    &&& e == CipherError::Format
                    &&& draw_may_fail(page_no, chunk@.len() - 32 - skip_len(page_no, Some(0u32)))
                },
            },
            exists|n: Seq<u8>|
                n.len() == 16 && cipher_result(res) == #[trigger] drawn_encrypt_spec(
                    final(self).key_view(),
                    final(self).salt_view(),
                    chunk@.subrange(0, chunk@.len() - 32),
                    page_no,
                    Some(0u32),
                    n,
                ),
    {
        if page_no == 0 {
            match &self.secret {
                Secret::Passphrase(pwd) => {
                    if self.payload_salt.is_none() {
                        let mut salt: [u8; 16] = [0u8; 16];
                        thread_random(&mut salt);
                        self.payload_salt = Some(salt);
                        let key = pbkdf2_sha256(pwd.as_str().as_bytes(), &salt, KEY_DERIVATION_ITER);
                        self.payload_key = key;
                    }
                },
                Secret::Key(key) => {
                    self.payload_key = *key;
                },
            }
        }
        let r = chunk.len() - Self::RESERVED_BYTES_SIZE;
        let data = &chunk[0..r];
        assert(data@ == chunk@.subrange(0, r as int));
        let res = self.encrypt(data, page_no, true);
        proof {
            if res is Ok {
                lemma_reserved_ignored(self.key_view(), self.salt_view(), chunk@, page_no, Some(0u32), page_nonce(res->Ok_0@));
            }
        }
        res
    }

    /// Decrypts a database page of `N` bytes whose last 32 carry the nonce
    /// and the tag; the first page is number 0. On the first page the
    /// payload key is set up (see `decrypt_setup`) and, once the page is
    /// decrypted, the SQLite magic string takes the place of the salt. The
    /// page comes back whole, its reserved area as it was.
    pub fn decrypt_page(&mut self, chunk: &[u8], page_no: u32) -> (res: Result<Vec<u8>, CipherError>)
        requires
            decryptable(chunk@, page_no, Some(0u32)),
        ensures
            final(self).secret_view() == old(self).secret_view(),
            (final(self).key_view(), final(self).salt_view()) == decrypt_setup(
                old(self).secret_view(),
                old(self).key_view(),
                old(self).salt_view(),
                chunk@,
                page_no,
            ),
            match res {
                Ok(pt) => decrypt_page_spec(final(self).key_view(), chunk@, page_no) == Ok::<Seq<u8>, CipherError>(
                    pt@,
                ),
                Err(e) => decrypt_page_spec(final(self).key_view(), chunk@, page_no) == Err::<Seq<u8>, CipherError>(
                    e,
                ),
            },
    {
        if page_no == 0 {
            match &self.secret {
                Secret::Passphrase(pwd) => {
                    if self.payload_salt.is_none() {
                        let salt = array16(chunk, 0);
                        let key = pbkdf2_sha256(pwd.as_str().as_bytes(), &salt, KEY_DERIVATION_ITER);
                        self.payload_key = key;
                        self.payload_salt = Some(salt);
                    }
                },
                Secret::Key(key) => {
                    self.payload_key = *key;
                    self.payload_salt = None;
                },
            }
        }
        let mut plain = decrypt_with_key(&self.payload_key, chunk, page_no, Some(0u32))?;
        if page_no == 0 {
            let magic = sqlite_magic_array();
            overwrite_prefix(&mut plain, &magic);
        }
        Ok(plain)
    }

    /// Encrypts `N` bytes into `N + 32` bytes with a given nonce: the
    /// encrypted bytes, then the nonce, then the Poly1305 tag. With
    /// `skip_option`, the header of page 0 stays in clear.
    pub fn encrypt_with_nonce(&self, chunk: &[u8], page_no: u32, skip_option: bool, nonce: &[u8; 16]) -> (ct: Vec<u8>)
        requires
            page_fits(chunk@.len() as int + 32, page_no, db_header(skip_option)),
            counter_fits(page_counter(nonce@, page_no), chunk@.len() - skip_len(page_no, db_header(skip_option))),
        ensures
            ct@ == encrypt_spec(self.key_view(), self.salt_view(), padded(chunk@), page_no, db_header(skip_option), nonce@),
    {
        let mut buf = slice_to_vec(chunk);
        let mut k: usize = 0;
        while k < 32
            invariant
                k <= 32,
                buf@ == chunk@ + Seq::new(k as nat, |i: int| 0u8),
            decreases 32 - k,
        {
            buf.push(0u8);
            k = k + 1;
            assert(buf@ =~= chunk@ + Seq::new(k as nat, |i: int| 0u8));
        }
        let header: Option<u32> = if skip_option { Some(0u32) } else { None };
        encrypt_with_key(&self.payload_key, &self.payload_salt, buf.as_slice(), page_no, header, nonce)
    }

    /// Encrypts `N` bytes into `N + 32` bytes with the nonce `nonce`, as
    /// drawn for the page: the encrypted bytes, then the nonce, then the
    /// Poly1305 tag of everything before it. A nonce that would run the
    /// ChaCha20 block counter out is refused with `Format`.
    pub fn encrypt_with_drawn_nonce(&self, chunk: &[u8], page_no: u32, skip_option: bool, nonce: &[u8; 16]) -> (res: Result<Vec<u8>, CipherError>)
        requires
            page_fits(chunk@.len() as int + 32, page_no, db_header(skip_option)),
        ensures
            cipher_result(res) == drawn_encrypt_spec(
                self.key_view(),
                self.salt_view(),
                chunk@,
                page_no,
                db_header(skip_option),
                nonce@,
            ),
            res is Err <==> nonce_exhausts(nonce@, page_no, chunk@.len() - skip_len(page_no, db_header(skip_option))),
            res matches Ok(ct) ==> {
                &&& ct@.len() == chunk@.len() + 32
                &&& page_nonce(ct@) == nonce@
                &&& page_nonce(ct@) == ct@.subrange(chunk@.len() as int, chunk@.len() as int + 16)
                &&& tag_matches(self.key_view(), ct@, page_no)
                &&& decryptable(ct@, page_no, db_header(skip_option))
            },
    {
        let skip: usize = if skip_option && page_no == 0 { Self::FILE_PLAIN_HEADER_SIZE } else { 0 };
        let nonce_s = nonce.as_slice();
        let counter = le_u32_exec(&nonce_s[12..16]) ^ page_no;
        assert(nonce@.subrange(12, 16) == nonce_s@.subrange(12, 16));
        let body_len = chunk.len() - skip;
        let blocks: u64 = body_len as u64 / 64 + if body_len as u64 % 64 == 0 { 0 } else { 1 };
        assert(blocks as int == (body_len as int + 63) / 64);
        if counter as u64 + 1 + blocks > u32::MAX as u64 {
            return Err(CipherError::Format);
        }
        let ct = self.encrypt_with_nonce(chunk, page_no, skip_option, nonce);
        proof {
            lemma_encrypt_decrypt(self.key_view(), self.salt_view(), padded(chunk@), page_no, db_header(skip_option), nonce@);
        }
        Ok(ct)
    }

    /// Encrypts `N` bytes into `N + 32` bytes: the encrypted bytes, then the
    /// 16-byte nonce, then the Poly1305 tag of everything before it. With
    /// `skip_option`, the 24-byte header of page 0 stays in clear and the
    /// salt, once known, takes its first 16 bytes. The payload key must be
    /// set. The nonce is drawn at random and handed to
    /// `encrypt_with_drawn_nonce`: in the rare event that it would run the
    /// ChaCha20 block counter out, the data is refused with `Format`.
    pub fn encrypt(&mut self, chunk: &[u8], page_no: u32, skip_option: bool) -> (res: Result<Vec<u8>, CipherError>)
        requires
            page_fits(chunk@.len() as int + 32, page_no, db_header(skip_option)),
        ensures
            *final(self) == *old(self),
            exists|n: Seq<u8>|
                n.len() == 16 && cipher_result(res) == #[trigger] drawn_encrypt_spec(
                    old(self).key_view(),
                    old(self).salt_view(),
                    chunk@,
                    page_no,
                    db_header(skip_option),
                    n,
                ),
            match res {
                Ok(ct) => {
                    &&& ct@.len() == chunk@.len() + 32
                    &&& ct@ == encrypt_spec(
                        old(self).key_view(),
                        old(self).salt_view(),
                        padded(chunk@),
                        page_no,
                        db_header(skip_option),
                        page_nonce(ct@),
                    )
                    &&& page_nonce(ct@) == ct@.subrange(chunk@.len() as int, chunk@.len() as int + 16)
                    &&& tag_matches(old(self).key_view(), ct@, page_no)
                    &&& decryptable(ct@, page_no, db_header(skip_option))
                },
                Err(e) => {
                    &&& e == CipherError::Format
                    &&& draw_may_fail(page_no, chunk@.len() - skip_len(page_no, db_header(skip_option)))
                },
            },
    {
        let mut nonce: [u8; 16] = [0u8; 16];
        thread_random(&mut nonce);
        let res = self.encrypt_with_drawn_nonce(chunk, page_no, skip_option, &nonce);
        proof {
            assert(nonce@.len() == 16);
            if res is Err {
                assert(nonce_exhausts(nonce@, page_no, chunk@.len() - skip_len(page_no, db_header(skip_option))));
            }
        }
        res
    }

    /// Decrypts `N + 32` bytes, whose last 32 carry the nonce and the tag,
    /// into the `N` bytes they hold, once the tag is checked. The payload key
    /// must be set.
    pub fn decrypt(&mut self, chunk: &[u8], page_no: u32, skip_option: bool) -> (res: Result<Vec<u8>, CipherError>)
        requires
            decryptable(chunk@, page_no, db_header(skip_option)),
        ensures
            *final(self) == *old(self),
            match decrypt_spec(old(self).key_view(), chunk@, page_no, db_header(skip_option)) {
                Ok(p) => res matches Ok(pt) && pt@ == p.subrange(0, chunk@.len() - 32),
                Err(e) => res == Err::<Vec<u8>, CipherError>(e),
            },
    {
        let header: Option<u32> = if skip_option { Some(0u32) } else { None };
        match decrypt_with_key(&self.payload_key, chunk, page_no, header) {
            Ok(plain) => {
                let n = chunk.len() - Self::RESERVED_BYTES_SIZE;
                proof { crate::crypto::cipher::lemma_decrypt_spec_len(self.key_view(), chunk@, page_no, header); }
                let out = slice_to_vec(&plain.as_slice()[0..n]);
                assert(out@ =~= plain@.subrange(0, n as int));
                Ok(out)
            },
            Err(e) => Err(e),
        }
    }
}

} // verus!
