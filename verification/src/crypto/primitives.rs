//! Cryptographic primitives used by the page ciphers: the ChaCha20 stream,
//! the Poly1305 one-time authenticator and PBKDF2 key derivation. Each
//! primitive is called through one function whose contract is taken on
//! trust from the crate that implements it; what the library builds on top
//! of them is verified.
use vstd::prelude::*;

use chacha20::cipher::{KeyIvInit, StreamCipher, StreamCipherSeek};
use chacha20::ChaCha20;
use poly1305::universal_hash::{KeyInit, UniversalHash};
use poly1305::Poly1305;
use sha2::Sha256;

verus! {

/// Byte number `pos` of the ChaCha20 (IETF variant, 32-bit block counter)
/// keystream produced for `key` (32 bytes) and `nonce` (12 bytes).
pub uninterp spec fn chacha20_keystream_byte(key: Seq<u8>, nonce: Seq<u8>, pos: int) -> u8;

/// `len` keystream bytes starting at byte position `pos`.
pub open spec fn keystream(key: Seq<u8>, nonce: Seq<u8>, pos: int, len: nat) -> Seq<u8> {
    Seq::new(len, |i: int| chacha20_keystream_byte(key, nonce, pos + i))
}

/// Byte-wise exclusive or of two sequences (the length is that of `a`).
pub open spec fn xor_bytes(a: Seq<u8>, b: Seq<u8>) -> Seq<u8> {
    Seq::new(a.len(), |i: int| a[i] ^ b[i])
}

/// `data` with the bytes of `[from, to)` combined with the keystream that
/// starts at byte position `pos`.
pub open spec fn xor_range(data: Seq<u8>, from: int, to: int, key: Seq<u8>, nonce: Seq<u8>, pos: int) -> Seq<u8> {
    data.subrange(0, from) + xor_bytes(data.subrange(from, to), keystream(key, nonce, pos, (to - from) as nat))
        + data.subrange(to, data.len() as int)
}

/// The cipher can seek to the block-aligned position `pos` and then produce
/// `len` keystream bytes without running out of 32-bit block counter.
pub open spec fn keystream_fits(pos: int, len: int) -> bool {
    &&& 0 <= pos
    &&& 0 <= len
    &&& pos % 64 == 0
    &&& pos / 64 + (len + 63) / 64 <= u32::MAX
}

/// The 16-byte Poly1305 tag of `msg` under the one-time key `key`, where the
/// message is fed to the authenticator zero-padded to whole 16-byte blocks.
pub uninterp spec fn poly1305_padded_tag(key: Seq<u8>, msg: Seq<u8>) -> [u8; 16];

/// PBKDF2 with HMAC-SHA256 producing a 32-byte key.
pub uninterp spec fn pbkdf2_hmac_sha256(password: Seq<u8>, salt: Seq<u8>, rounds: u32) -> Seq<u8>;

/// Exclusive or with the same byte twice gives the byte back.
pub proof fn lemma_xor_twice(a: u8, b: u8)
    ensures
        (a ^ b) ^ b == a,
        0u8 ^ b == b,
{
    assert((a ^ b) ^ b == a) by (bit_vector);
    assert(0u8 ^ b == b) by (bit_vector);
}

/// Applying the keystream twice at the same position restores the data.
pub proof fn lemma_xor_range_twice(data: Seq<u8>, from: int, to: int, key: Seq<u8>, nonce: Seq<u8>, pos: int)
    requires
        0 <= from <= to <= data.len(),
    ensures
        xor_range(xor_range(data, from, to, key, nonce, pos), from, to, key, nonce, pos) == data,
        xor_range(data, from, to, key, nonce, pos).len() == data.len(),
{
    let once = xor_range(data, from, to, key, nonce, pos);
    let twice = xor_range(once, from, to, key, nonce, pos);
    assert(once.len() == data.len());
    assert forall|i: int| 0 <= i < data.len() implies twice[i] == data[i] by {
        if from <= i < to {
            lemma_xor_twice(data[i], chacha20_keystream_byte(key, nonce, pos + (i - from)));
        }
    }
    assert(twice =~= data);
}

/// A sequence that agrees byte by byte with `xor_range` equals it.
pub proof fn lemma_xor_range_ext(
    before: Seq<u8>,
    after: Seq<u8>,
    from: int,
    to: int,
    key: Seq<u8>,
    nonce: Seq<u8>,
    pos: int,
)
    requires
        0 <= from <= to <= before.len(),
        after.len() == before.len(),
        forall|i: int| from <= i < to ==> #[trigger] after[i] == before[i] ^ chacha20_keystream_byte(key, nonce, pos + (i - from)),
        forall|i: int| 0 <= i < from || to <= i < before.len() ==> #[trigger] after[i] == before[i],
    ensures
        after == xor_range(before, from, to, key, nonce, pos),
{
    let x = xor_range(before, from, to, key, nonce, pos);
    assert forall|i: int| 0 <= i < before.len() implies after[i] == x[i] by {
        if from <= i < to {
        } else {
        }
    }
    assert(after =~= x);
}

/// ChaCha20 keystream applied in place to `buf[from..to]`, the cipher being
/// positioned at byte `pos`. Calls `ChaCha20::new`, `StreamCipherSeek::seek`
/// and `StreamCipher::apply_keystream` of the `chacha20` crate. The contract
/// claims that applying the keystream is a byte-wise exclusive or with the
/// keystream bytes at positions `pos, pos + 1, ...`, and that neither the seek
/// nor the application panics when the 32-bit block counter suffices.
#[verifier::external_body]
pub(crate) fn chacha20_xor_in_place(key: &[u8], nonce: &[u8], pos: u64, buf: &mut Vec<u8>, from: usize, to: usize)
    requires
        key@.len() == 32,
        nonce@.len() == 12,
        from <= to <= old(buf)@.len(),
        keystream_fits(pos as int, to - from),
    ensures
        final(buf)@.len() == old(buf)@.len(),
        forall|i: int|
            from <= i < to ==> #[trigger] final(buf)@[i] == old(buf)@[i] ^ chacha20_keystream_byte(
                key@,
                nonce@,
                pos + (i - from),
            ),
        forall|i: int| 0 <= i < from || to <= i < old(buf)@.len() ==> #[trigger] final(buf)@[i] == old(buf)@[i],
{
    let key: &[u8; 32] = key.try_into().unwrap();
    let nonce: &[u8; 12] = nonce.try_into().unwrap();
    let mut cipher = ChaCha20::new(key.into(), nonce.into());
    cipher.seek(pos);
    cipher.apply_keystream(&mut buf[from..to]);
}

/// Poly1305 tag of `msg[..len]` under the 32-byte one-time key `key`, with
/// the message zero-padded to whole blocks. Calls `Poly1305::new`,
/// `UniversalHash::update_padded` and `UniversalHash::finalize` of the
/// `poly1305` crate; the contract names the tag.
#[verifier::external_body]
pub(crate) fn poly1305_tag(key: &[u8], msg: &[u8], len: usize) -> (tag: [u8; 16])
    requires
        key@.len() == 32,
        len <= msg@.len(),
    ensures
        tag == poly1305_padded_tag(key@, msg@.subrange(0, len as int)),
{
    let key: &[u8; 32] = key.try_into().unwrap();
    let mut mac = Poly1305::new(key.into());
    mac.update_padded(&msg[..len]);
    let mut tag = [0u8; 16];
    tag.copy_from_slice(&mac.finalize());
    tag
}

/// PBKDF2-HMAC-SHA256 of `password` with a 16-byte `salt`, 32 bytes of
/// output. Calls `pbkdf2::pbkdf2_hmac_array::<Sha256, 32>`; the contract
/// names the result.
#[verifier::external_body]
pub(crate) fn pbkdf2_sha256(password: &[u8], salt: &[u8; 16], rounds: u32) -> (key: [u8; 32])
    ensures
        key@ == pbkdf2_hmac_sha256(password@, salt@, rounds),
{
    pbkdf2::pbkdf2_hmac_array::<Sha256, 32>(password, salt, rounds)
}

/// Random bytes from the thread-local generator of the `rand` crate
/// (`rand::rng` and `Rng::fill_bytes`). Nothing is promised of the bytes.
#[verifier::external_body]
pub(crate) fn thread_random(buffer: &mut [u8]) {
    let mut rng = rand::rng();
    rand::Rng::fill_bytes(&mut rng, buffer);
}

} // verus!
