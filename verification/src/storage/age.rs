//! The age v1 file format with a scrypt recipient.
//!
//! A file is a text header followed by a binary payload:
//!
//! ```text
//! age-encryption.org/v1
//! -> scrypt <salt, base64> <work factor>
//! <file key wrapped with the scrypt key, base64>
//! --- <HMAC of the header up to "---", base64>
//! <16-byte nonce><chunks>
//! ```
//!
//! The payload is cut into chunks of 64 KiB, each sealed with
//! ChaCha20-Poly1305 under the payload key, with a nonce made of the chunk
//! counter and a flag on the last chunk. Reading and writing files is left
//! to the caller: these functions go from bytes to bytes.
use vstd::prelude::*;

use chacha20poly1305::aead::{Aead, KeyInit};
use chacha20poly1305::ChaCha20Poly1305;
use hkdf::Hkdf;
use hmac::{Hmac, Mac};
use sha2::Sha256;
use vstd::slice::slice_to_vec;
use vstd::utf8::{is_continuation_byte, length_of_last_scalar, valid_utf8};

use crate::common::utils::{base64_decode, base64_decode_spec, base64_encode, base64_spec, prepend_some};
use crate::crypto::cipher::bytes_equal;

verus! {

#[derive(Debug, PartialEq, Eq, Structural)]
pub enum AgeCryptoError {
    FileOpen,
    FileRead,
    FileWrite,
    AgeFormat,
    HeaderParse,
    ComputeFileKey,
    ComputePayloadKey,
    ComputeWarpKey,
    ComputeMacKey,
    Encrypt,
    Decrypt,
    MacIncorrect,
}

/// The 32-byte key that scrypt derives from `password` and `salt` with
/// `N = 2^log_n`, `r = 8` and `p = 1`.
pub uninterp spec fn scrypt_key(password: Seq<u8>, salt: Seq<u8>, log_n: u8) -> [u8; 32];

/// ChaCha20-Poly1305 sealing of `msg` under `key` and `nonce`, with no
/// associated data: the ciphertext followed by the 16-byte tag.
pub uninterp spec fn aead_seal(key: Seq<u8>, nonce: Seq<u8>, msg: Seq<u8>) -> Seq<u8>;

/// ChaCha20-Poly1305 opening of `ct` under `key` and `nonce`: the plaintext
/// when the tag verifies.
pub uninterp spec fn aead_open(key: Seq<u8>, nonce: Seq<u8>, ct: Seq<u8>) -> Option<Seq<u8>>;

/// HKDF-SHA256 (extract with `salt`, or none, then expand with `info`),
/// 32 bytes of output.
pub uninterp spec fn hkdf_sha256(salt: Option<Seq<u8>>, ikm: Seq<u8>, info: Seq<u8>) -> [u8; 32];

/// HMAC-SHA256 of `msg` under `key`.
pub uninterp spec fn hmac_sha256(key: Seq<u8>, msg: Seq<u8>) -> [u8; 32];

/// The bytes of an optional slice.
pub open spec fn opt_bytes(s: Option<&[u8]>) -> Option<Seq<u8>> {
    match s {
        Some(b) => Some(b@),
        None => None,
    }
}

/// Largest message that ChaCha20-Poly1305 handles: once the block of the
/// Poly1305 key is drawn, the 32-bit block counter leaves `2^32 - 2` blocks
/// of 64 bytes for the message.
pub open spec fn aead_max_len() -> int {
    (u32::MAX as int - 1) * 64
}

/// `aead_max_len` as an executable value.
pub(crate) fn aead_max_len_exec() -> (m: u64)
    ensures
        m == aead_max_len(),
{
    274877906816
}

/// The opening of a ciphertext that the library hands to the cipher: one
/// longer than a sealed message of `aead_max_len` bytes is refused.
pub open spec fn bounded_open(key: Seq<u8>, nonce: Seq<u8>, ct: Seq<u8>) -> Option<Seq<u8>> {
    if ct.len() <= aead_max_len() + 16 {
        aead_open(key, nonce, ct)
    } else {
        None
    }
}

/// scrypt with `r = 8`, `p = 1` and a 32-byte output (`Params::new` and
/// `scrypt` of the `scrypt` crate). `Params::new` accepts `log_n` when
/// `128 * r * 2^log_n` fits in a `usize`, and `scrypt` succeeds for a 32-byte
/// output: the contract names the key in that case and states an error
/// otherwise. For `log_n + 10 == usize::BITS - 1` the working buffer exceeds
/// `isize::MAX` bytes and the allocation panics, so that input is left out.
/// The buffer takes `2^(log_n + 10)` bytes, which the machine must provide;
/// nothing is stated of that.
#[verifier::external_body]
fn scrypt_32(password: &[u8], salt: &[u8], log_n: u8) -> (res: Result<[u8; 32], ()>)
    requires
        log_n + 11 != usize::BITS,
    ensures
        log_n + 10 < usize::BITS ==> res is Ok && res->Ok_0 == scrypt_key(password@, salt@, log_n),
        log_n + 10 >= usize::BITS ==> res is Err,
{
    let params = match scrypt::Params::new(log_n, 8, 1) {
        Ok(params) => params,
        Err(_) => return Err(()),
    };
    let mut key = [0u8; 32];
    match scrypt::scrypt(password, salt, &params, &mut key) {
        Ok(()) => Ok(key),
        Err(_) => Err(()),
    }
}

/// ChaCha20-Poly1305 encryption (`ChaCha20Poly1305::new` and `Aead::encrypt`
/// of the `chacha20poly1305` crate). A message longer than `aead_max_len`
/// runs the block counter out, which the crate refuses or answers with a
/// panic: the contract leaves those out. It names the sealed message and
/// states its length, that of the message and a 16-byte tag.
#[verifier::external_body]
pub(crate) fn aead_encrypt(key: &[u8], nonce: &[u8; 12], msg: &[u8]) -> (res: Result<Vec<u8>, ()>)
    requires
        key@.len() == 32,
        msg@.len() <= aead_max_len(),
    ensures
        res is Ok,
        res->Ok_0@ == aead_seal(key@, nonce@, msg@),
        res->Ok_0@.len() == msg@.len() + 16,
{
    let key: &[u8; 32] = key.try_into().unwrap();
    let cipher = ChaCha20Poly1305::new(key.into());
    match cipher.encrypt(nonce.into(), msg) {
        Ok(ct) => Ok(ct),
        Err(_) => Err(()),
    }
}

/// ChaCha20-Poly1305 decryption (`ChaCha20Poly1305::new` and `Aead::decrypt`
/// of the `chacha20poly1305` crate). The contract names the outcome and
/// states that a message that `aead_encrypt` can seal, sealed under the same
/// key and nonce, opens to itself. A ciphertext shorter than the tag is
/// refused by the crate with an error; one whose message would be longer
/// than `aead_max_len` can run the block counter out once its tag checks,
/// and the crate then panics: the contract leaves those out.
#[verifier::external_body]
pub(crate) fn aead_decrypt(key: &[u8], nonce: &[u8; 12], ct: &[u8]) -> (res: Result<Vec<u8>, ()>)
    requires
        key@.len() == 32,
        ct@.len() <= aead_max_len() + 16,
    ensures
        res is Ok ==> aead_open(key@, nonce@, ct@) == Some(res->Ok_0@),
        res is Err ==> aead_open(key@, nonce@, ct@) is None,
        forall|m: Seq<u8>|
            m.len() <= aead_max_len() && #[trigger] aead_seal(key@, nonce@, m) == ct@ ==> res is Ok && res->Ok_0@ == m,
{
    let key: &[u8; 32] = key.try_into().unwrap();
    let cipher = ChaCha20Poly1305::new(key.into());
    match cipher.decrypt(nonce.into(), ct) {
        Ok(pt) => Ok(pt),
        Err(_) => Err(()),
    }
}

/// HKDF-SHA256 with 32 bytes of output (`Hkdf::<Sha256>::new` and
/// `Hkdf::expand` of the `hkdf` crate). The expansion fails only past
/// `255 * 32` bytes of output, so the contract names the key.
#[verifier::external_body]
fn hkdf_expand_32(salt: Option<&[u8]>, ikm: &[u8], info: &[u8]) -> (res: Result<[u8; 32], ()>)
    ensures
        res is Ok,
        res->Ok_0 == hkdf_sha256(opt_bytes(salt), ikm@, info@),
{
    let mut okm = [0u8; 32];
    match Hkdf::<Sha256>::new(salt, ikm).expand(info, &mut okm) {
        Ok(()) => Ok(okm),
        Err(_) => Err(()),
    }
}

/// HMAC-SHA256 (`Mac::new_from_slice`, `Mac::update` and `Mac::finalize`
/// of the `hmac` crate). HMAC accepts keys of any length, so the contract
/// names the code.
#[verifier::external_body]
fn hmac_sha256_code(key: &[u8], msg: &[u8]) -> (res: Result<[u8; 32], ()>)
    ensures
        res is Ok,
        res->Ok_0 == hmac_sha256(key@, msg@),
{
    let mut mac = match <Hmac<Sha256> as hmac::KeyInit>::new_from_slice(key) {
        Ok(mac) => mac,
        Err(_) => return Err(()),
    };
    mac.update(msg);
    let mut code = [0u8; 32];
    code.copy_from_slice(&mac.finalize().into_bytes());
    Ok(code)
}

/// Whether `bytes` is UTF-8 (`std::str::from_utf8`).
#[verifier::external_body]
fn is_utf8(bytes: &[u8]) -> (b: bool)
    ensures
        b == valid_utf8(bytes@),
{
    std::str::from_utf8(bytes).is_ok()
}

/// The version line of an age file. ("age-encryption.org/v1")
pub open spec fn version() -> Seq<u8> {
    seq![97u8, 103u8, 101u8, 45u8, 101u8, 110u8, 99u8, 114u8, 121u8, 112u8, 116u8, 105u8, 111u8, 110u8, 46u8, 111u8, 114u8, 103u8, 47u8, 118u8, 49u8]
}

fn version_bytes() -> (b: [u8; 21])
    ensures
        b@ == version(),
{
    let b: [u8; 21] = [97u8, 103u8, 101u8, 45u8, 101u8, 110u8, 99u8, 114u8, 121u8, 112u8, 116u8, 105u8, 111u8, 110u8, 46u8, 111u8, 114u8, 103u8, 47u8, 118u8, 49u8];
    assert(b@ =~= version());
    b
}

/// The first field of a stanza line. ("->")
pub open spec fn arrow() -> Seq<u8> {
    seq![45u8, 62u8]
}

fn arrow_bytes() -> (b: [u8; 2])
    ensures
        b@ == arrow(),
{
    let b: [u8; 2] = [45u8, 62u8];
    assert(b@ =~= arrow());
    b
}

/// The type of the scrypt stanza. ("scrypt")
pub open spec fn scrypt_word() -> Seq<u8> {
    seq![115u8, 99u8, 114u8, 121u8, 112u8, 116u8]
}

fn scrypt_word_bytes() -> (b: [u8; 6])
    ensures
        b@ == scrypt_word(),
{
    let b: [u8; 6] = [115u8, 99u8, 114u8, 121u8, 112u8, 116u8];
    assert(b@ =~= scrypt_word());
    b
}

/// The first field of the MAC line. ("---")
pub open spec fn dashes() -> Seq<u8> {
    seq![45u8, 45u8, 45u8]
}

fn dashes_bytes() -> (b: [u8; 3])
    ensures
        b@ == dashes(),
{
    let b: [u8; 3] = [45u8, 45u8, 45u8];
    assert(b@ =~= dashes());
    b
}

/// The HKDF label of the payload key. ("payload")
pub open spec fn payload_label() -> Seq<u8> {
    seq![112u8, 97u8, 121u8, 108u8, 111u8, 97u8, 100u8]
}

fn payload_label_bytes() -> (b: [u8; 7])
    ensures
        b@ == payload_label(),
{
    let b: [u8; 7] = [112u8, 97u8, 121u8, 108u8, 111u8, 97u8, 100u8];
    assert(b@ =~= payload_label());
    b
}

/// The HKDF label of the header MAC key. ("header")
pub open spec fn header_label() -> Seq<u8> {
    seq![104u8, 101u8, 97u8, 100u8, 101u8, 114u8]
}

fn header_label_bytes() -> (b: [u8; 6])
    ensures
        b@ == header_label(),
{
    let b: [u8; 6] = [104u8, 101u8, 97u8, 100u8, 101u8, 114u8];
    assert(b@ =~= header_label());
    b
}

/// What goes before the salt given to scrypt. ("age-encryption.org/v1/scrypt")
pub open spec fn salt_label() -> Seq<u8> {
    seq![97u8, 103u8, 101u8, 45u8, 101u8, 110u8, 99u8, 114u8, 121u8, 112u8, 116u8, 105u8, 111u8, 110u8, 46u8, 111u8, 114u8, 103u8, 47u8, 118u8, 49u8, 47u8, 115u8, 99u8, 114u8, 121u8, 112u8, 116u8]
}

fn salt_label_bytes() -> (b: [u8; 28])
    ensures
        b@ == salt_label(),
{
    let b: [u8; 28] = [97u8, 103u8, 101u8, 45u8, 101u8, 110u8, 99u8, 114u8, 121u8, 112u8, 116u8, 105u8, 111u8, 110u8, 46u8, 111u8, 114u8, 103u8, 47u8, 118u8, 49u8, 47u8, 115u8, 99u8, 114u8, 121u8, 112u8, 116u8];
    assert(b@ =~= salt_label());
    b
}

/// End of the line that starts at `pos`: just past the next line feed, or
/// the end of the data.
pub open spec fn line_end(data: Seq<u8>, pos: int) -> int
    decreases data.len() - pos,
{
    if pos >= data.len() {
        data.len() as int
    } else if data[pos] == 10 {
        pos + 1
    } else {
        line_end(data, pos + 1)
    }
}

/// A line as it is read: without its line feed, or, at the end of the data,
/// without its last character.
pub open spec fn line_text(raw: Seq<u8>) -> Seq<u8> {
    if raw.len() == 0 {
        raw
    } else if raw.last() == 10 {
        raw.drop_last()
    } else {
        raw.subrange(0, raw.len() - length_of_last_scalar(raw))
    }
}

/// End of the field of `s` that starts at `from`: the next space, or the end.
pub open spec fn field_end(s: Seq<u8>, from: int) -> int
    decreases s.len() - from,
{
    if from >= s.len() {
        s.len() as int
    } else if s[from] == 32 {
        from
    } else {
        field_end(s, from + 1)
    }
}

/// The field of `s` that starts at `from`.
pub open spec fn field(s: Seq<u8>, from: int) -> Seq<u8> {
    s.subrange(from, field_end(s, from))
}

/// There is a field after the one that starts at `from`.
pub open spec fn has_next_field(s: Seq<u8>, from: int) -> bool {
    field_end(s, from) < s.len()
}

/// Where the field after the one that starts at `from` starts.
pub open spec fn next_field(s: Seq<u8>, from: int) -> int {
    field_end(s, from) + 1
}

/// `line_end` moves forward and stays in the data.
proof fn lemma_line_end_bounds(data: Seq<u8>, pos: int)
    requires
        0 <= pos <= data.len(),
    ensures
        pos <= line_end(data, pos) <= data.len(),
        pos < data.len() ==> pos < line_end(data, pos),
    decreases data.len() - pos,
{
    if pos < data.len() && data[pos] != 10 {
        lemma_line_end_bounds(data, pos + 1);
    }
}

/// `field_end` moves forward and stays in the line.
proof fn lemma_field_end_bounds(s: Seq<u8>, from: int)
    requires
        0 <= from <= s.len(),
    ensures
        from <= field_end(s, from) <= s.len(),
        field_end(s, from) < s.len() ==> s[field_end(s, from)] == 32,
    decreases s.len() - from,
{
    if from < s.len() && s[from] != 32 {
        lemma_field_end_bounds(s, from + 1);
    }
}

/// Finds the end of the line that starts at `pos`.
fn find_line_end(data: &[u8], pos: usize) -> (end: usize)
    requires
        pos <= data@.len(),
    ensures
        end == line_end(data@, pos as int),
        pos <= end <= data@.len(),
{
    let mut i = pos;
    while i < data.len() && data[i] != 10
        invariant
            pos <= i <= data@.len(),
            line_end(data@, pos as int) == line_end(data@, i as int),
        decreases data@.len() - i,
    {
        i = i + 1;
    }
    proof { lemma_line_end_bounds(data@, pos as int); }
    if i < data.len() {
        i + 1
    } else {
        i
    }
}

/// Finds the end of the field that starts at `from`.
fn find_field_end(s: &[u8], from: usize) -> (end: usize)
    requires
        from <= s@.len(),
    ensures
        end == field_end(s@, from as int),
        from <= end <= s@.len(),
{
    let mut i = from;
    while i < s.len() && s[i] != 32
        invariant
            from <= i <= s@.len(),
            field_end(s@, from as int) == field_end(s@, i as int),
        decreases s@.len() - i,
    {
        i = i + 1;
    }
    i
}

/// The first byte of UTF-8 text is not a continuation byte.
proof fn lemma_utf8_first_byte(b: Seq<u8>)
    requires
        valid_utf8(b),
        b.len() > 0,
    ensures
        !is_continuation_byte(b[0]),
{
}

/// Length of the text of a line read from UTF-8 bytes (see `line_text`).
fn line_text_len(raw: &[u8]) -> (len: usize)
    requires
        valid_utf8(raw@),
    ensures
        len == line_text(raw@).len(),
        line_text(raw@) == raw@.subrange(0, len as int),
{
    let n = raw.len();
    if n == 0 {
        assert(line_text(raw@) =~= raw@.subrange(0, 0));
        return 0;
    }
    if raw[n - 1] == 10 {
        assert(line_text(raw@) =~= raw@.subrange(0, n - 1));
        return n - 1;
    }
    proof { lemma_utf8_first_byte(raw@); }
    let cont = |b: u8| -> (c: bool)
        ensures
            c == is_continuation_byte(b),
        { 0x80 <= b && b <= 0xbf };
    let last: usize = if !cont(raw[n - 1]) {
        1
    } else if !cont(raw[n - 2]) {
        2
    } else if !cont(raw[n - 3]) {
        3
    } else {
        4
    };
    assert(last == length_of_last_scalar(raw@));
    assert(line_text(raw@) =~= raw@.subrange(0, n - last));
    n - last
}


/// The nonce of a payload chunk: an 11-byte big-endian counter followed by a
/// byte that flags the last chunk (`0x00` / `0x01`), kept in the low 12
/// bytes of a `u128`.
#[derive(Clone, Copy, Debug)]
pub struct AgeChunkNonce(u128);

/// The 12 bytes of a nonce value, big-endian.
pub open spec fn nonce_bytes(v: u128) -> Seq<u8> {
    Seq::new(12, |j: int| (v >> ((8 * (11 - j)) as u128)) as u8)
}

/// The nonce value of chunk `n`.
pub open spec fn chunk_nonce_value(n: u64, last: bool) -> u128 {
    ((n as u128) << 8u128) | (if last { 1u128 } else { 0u128 })
}

impl Default for AgeChunkNonce {
    fn default() -> (n: Self)
        ensures
            n@ == 0,
    {
        AgeChunkNonce(0)
    }
}

impl AgeChunkNonce {
    /// The value of the nonce.
    pub closed spec fn view(&self) -> u128 {
        self.0
    }

    /// Sets the counter; unsets the last-chunk flag.
    pub fn set_counter(&mut self, val: u64)
        ensures
            final(self)@ == (val as u128) << 8u128,
            final(self)@ == chunk_nonce_value(val, false),
    {
        self.0 = (val as u128) << 8u32;
        assert(((val as u128) << 8u128) | 0u128 == (val as u128) << 8u128) by (bit_vector);
    }

    /// Whether the last-chunk flag is set.
    pub fn is_last(&self) -> (b: bool)
        ensures
            b == (self@ & 1 != 0),
    {
        self.0 & 1 != 0
    }

    /// Sets the last-chunk flag to `last`, unless it is already set.
    pub fn set_last(&mut self, last: bool) -> (res: Result<(), ()>)
        ensures
            old(self)@ & 1 == 0 ==> res is Ok && final(self)@ == old(self)@ | (if last { 1u128 } else { 0u128 }),
            old(self)@ & 1 != 0 ==> res is Err && final(self)@ == old(self)@,
    {
        if !self.is_last() {
            self.0 = self.0 | (if last { 1u128 } else { 0u128 });
            Ok(())
        } else {
            Err(())
        }
    }

    /// The low 12 bytes of the nonce, big-endian.
    pub fn to_bytes(self) -> (b: [u8; 12])
        ensures
            b@ == nonce_bytes(self@),
    {
        let mut b = [0u8; 12];
        let mut j: usize = 0;
        while j < 12
            invariant
                j <= 12,
                forall|k: int| 0 <= k < j ==> b@[k] == nonce_bytes(self@)[k],
            decreases 12 - j,
        {
            let shift: u32 = (8 * (11 - j)) as u32;
            b[j] = (self.0 >> shift) as u8;
            assert(((8 * (11 - j)) as u128) == shift as u128);
            j = j + 1;
        }
        assert(b@ =~= nonce_bytes(self@));
        b
    }
}

/// The nonce of chunk `n`: counter `n`, flagged when the chunk is the last.
pub fn chunk_nonce(n: u64, last: bool) -> (b: [u8; 12])
    ensures
        b@ == nonce_bytes(chunk_nonce_value(n, last)),
{
    let mut nonce = AgeChunkNonce(0);
    nonce.set_counter(n);
    assert(((n as u128) << 8u128) & 1 == 0) by (bit_vector);
    if last {
        let _ = nonce.set_last(true);
    }
    nonce.to_bytes()
}

/// An ASCII decimal digit.
pub open spec fn is_digit(c: u8) -> bool {
    48 <= c <= 57
}

/// Value of a string of decimal digits.
pub open spec fn decimal_value(d: Seq<u8>) -> int
    decreases d.len(),
{
    if d.len() == 0 {
        0
    } else {
        decimal_value(d.drop_last()) * 10 + (d.last() - 48)
    }
}

/// The digits of an unsigned number: without a leading `+`.
pub open spec fn unsigned_digits(s: Seq<u8>) -> Seq<u8> {
    if s.len() > 0 && s[0] == 43 { s.subrange(1, s.len() as int) } else { s }
}

/// Every byte is a decimal digit.
pub open spec fn all_digits(d: Seq<u8>) -> bool {
    forall|i: int| 0 <= i < d.len() ==> #[trigger] is_digit(d[i])
}

/// `u8::from_str`: an optional `+`, then at least one decimal digit, for a
/// value of at most 255.
pub open spec fn parse_u8_spec(s: Seq<u8>) -> Option<u8> {
    let d = unsigned_digits(s);
    if d.len() == 0 || !all_digits(d) {
        None
    } else if decimal_value(d) > 255 {
        None
    } else {
        Some(decimal_value(d) as u8)
    }
}

/// Decimal writing of a byte, without leading zeros.
pub open spec fn u8_decimal(v: u8) -> Seq<u8> {
    if v < 10 {
        seq![(48 + v) as u8]
    } else if v < 100 {
        seq![(48 + v / 10) as u8, (48 + v % 10) as u8]
    } else {
        seq![(48 + v / 100) as u8, (48 + (v / 10) % 10) as u8, (48 + v % 10) as u8]
    }
}

/// A byte written in decimal is read back.
pub proof fn lemma_u8_decimal_round_trip(v: u8)
    ensures
        parse_u8_spec(u8_decimal(v)) == Some(v),
        forall|i: int| 0 <= i < u8_decimal(v).len() ==> #[trigger] is_digit(u8_decimal(v)[i]),
{
    let d = u8_decimal(v);
    if v < 10 {
        assert(d.drop_last() =~= Seq::<u8>::empty());
        assert(decimal_value(Seq::<u8>::empty()) == 0);
        assert(decimal_value(d) == v);
    } else if v < 100 {
        let a = (48 + v / 10) as u8;
        let b = (48 + v % 10) as u8;
        assert(d.drop_last() =~= seq![a]);
        assert(d.drop_last().drop_last() =~= seq![]);
        assert(seq![a].drop_last() =~= Seq::<u8>::empty());
        assert(decimal_value(Seq::<u8>::empty()) == 0);
        assert(decimal_value(seq![a]) == v / 10);
        assert(decimal_value(d) == (v / 10) * 10 + v % 10);
    } else {
        let a = (48 + v / 100) as u8;
        let b = (48 + (v / 10) % 10) as u8;
        let c = (48 + v % 10) as u8;
        assert(d.drop_last() =~= seq![a, b]);
        assert(d.drop_last().drop_last() =~= seq![a]);
        assert(d.drop_last().drop_last().drop_last() =~= seq![]);
        assert(seq![a].drop_last() =~= Seq::<u8>::empty());
        assert(seq![a, b].drop_last() =~= seq![a]);
        assert(decimal_value(Seq::<u8>::empty()) == 0);
        assert(decimal_value(seq![a]) == v / 100);
        assert(decimal_value(seq![a, b]) == (v / 100) * 10 + (v / 10) % 10);
        assert(decimal_value(d) == ((v / 100) * 10 + (v / 10) % 10) * 10 + v % 10);
    }
    assert(forall|i: int| 0 <= i < d.len() ==> #[trigger] is_digit(d[i]));
}

/// The value of a prefix of digits is at most that of the whole string.
proof fn lemma_decimal_prefix(d: Seq<u8>, i: int)
    requires
        0 <= i <= d.len(),
        forall|j: int| 0 <= j < d.len() ==> #[trigger] is_digit(d[j]),
    ensures
        decimal_value(d.subrange(0, i)) <= decimal_value(d),
    decreases d.len() - i,
{
    if i < d.len() {
        lemma_decimal_prefix(d, i + 1);
        assert(d.subrange(0, i + 1).drop_last() =~= d.subrange(0, i));
        assert(is_digit(d[i]));
        assert(decimal_value(d.subrange(0, i)) >= 0) by {
            lemma_decimal_nonneg(d.subrange(0, i));
        }
    } else {
        assert(d.subrange(0, i) =~= d);
    }
}

/// Digits have a non-negative value.
proof fn lemma_decimal_nonneg(d: Seq<u8>)
    requires
        forall|j: int| 0 <= j < d.len() ==> #[trigger] is_digit(d[j]),
    ensures
        decimal_value(d) >= 0,
    decreases d.len(),
{
    if d.len() > 0 {
        assert(forall|j: int| 0 <= j < d.drop_last().len() ==> d.drop_last()[j] == d[j]);
        lemma_decimal_nonneg(d.drop_last());
        assert(is_digit(d[d.len() - 1]));
    }
}

/// Reads a byte written in decimal (see `parse_u8_spec`).
pub fn parse_u8(s: &[u8]) -> (v: Option<u8>)
    ensures
        v == parse_u8_spec(s@),
{
    let start: usize = if s.len() > 0 && s[0] == 43 { 1 } else { 0 };
    let ghost d = unsigned_digits(s@);
    assert(d =~= s@.subrange(start as int, s@.len() as int));
    if start == s.len() {
        return None;
    }
    let mut acc: u32 = 0;
    let mut i: usize = start;
    while i < s.len()
        invariant
            start <= i <= s@.len(),
            d == s@.subrange(start as int, s@.len() as int),
            d == unsigned_digits(s@),
            d.len() > 0,
            acc <= 255,
            acc == decimal_value(d.subrange(0, i - start)),
            forall|j: int| 0 <= j < i - start ==> #[trigger] is_digit(d[j]),
        decreases s@.len() - i,
    {
        let c = s[i];
        if c < 48 || c > 57 {
            assert(d[i - start] == c);
            assert(!is_digit(d[i - start]));
            assert(!all_digits(d));
            assert(parse_u8_spec(s@) is None);
            return None;
        }
        assert(d.subrange(0, i + 1 - start).drop_last() =~= d.subrange(0, i - start));
        let next = acc * 10 + (c - 48) as u32;
        if next > 255 {
            proof {
                assert(d[i - start] == c);
                assert(decimal_value(d.subrange(0, i + 1 - start)) == next);
                if all_digits(d) {
                    lemma_decimal_prefix(d, i + 1 - start);
                }
            }
            assert(parse_u8_spec(s@) is None);
            return None;
        }
        acc = next;
        i = i + 1;
    }
    assert(d.subrange(0, d.len() as int) =~= d);
    Some(acc as u8)
}

/// Writes a byte in decimal (see `u8_decimal`).
fn u8_to_decimal(v: u8) -> (d: Vec<u8>)
    ensures
        d@ == u8_decimal(v),
{
    let mut d: Vec<u8> = Vec::new();
    if v < 10 {
        d.push(48 + v);
    } else if v < 100 {
        d.push(48 + v / 10);
        d.push(48 + v % 10);
    } else {
        d.push(48 + v / 100);
        d.push(48 + (v / 10) % 10);
        d.push(48 + v % 10);
    }
    assert(d@ =~= u8_decimal(v));
    d
}

pub struct AgeCrypto {
    db_location: String,
    db_location_pt: String,
    reader_pos: Option<usize>,
    file_key: Vec<u8>,
}

/// What a header holds: the scrypt salt and work factor, the wrapped file
/// key, the MAC, and the text that the MAC covers.
pub struct HeaderFields {
    pub salt: Seq<u8>,
    pub work_factor: u8,
    pub body: Seq<u8>,
    pub mac: Seq<u8>,
    pub for_mac: Seq<u8>,
}

pub struct AgeScryptHeader {
    pub salt: Vec<u8>,
    pub work_factor: u8,
    pub body: Vec<u8>,
    pub mac: Vec<u8>,
    for_mac: Vec<u8>,
}

impl AgeScryptHeader {
    /// The fields of the header.
    pub closed spec fn fields(&self) -> HeaderFields {
        HeaderFields {
            salt: self.salt@,
            work_factor: self.work_factor,
            body: self.body@,
            mac: self.mac@,
            for_mac: self.for_mac@,
        }
    }
}

/// The stanza line reads `-> scrypt <salt> <work factor>` (further fields
/// are ignored).
pub open spec fn stanza_ok(l: Seq<u8>) -> bool {
    let f1 = next_field(l, 0);
    let f2 = next_field(l, f1);
    &&& field(l, 0) == arrow()
    &&& has_next_field(l, 0)
    &&& field(l, f1) == scrypt_word()
    &&& has_next_field(l, f1)
    &&& has_next_field(l, f2)
}

/// The salt field of the stanza line.
pub open spec fn salt_field(l: Seq<u8>) -> Seq<u8> {
    field(l, next_field(l, next_field(l, 0)))
}

/// The work factor field of the stanza line.
pub open spec fn work_factor_field(l: Seq<u8>) -> Seq<u8> {
    field(l, next_field(l, next_field(l, next_field(l, 0))))
}

/// The MAC line reads `--- <mac>`.
pub open spec fn mac_line_ok(l: Seq<u8>) -> bool {
    field(l, 0) == dashes() && has_next_field(l, 0)
}

/// The MAC field of the MAC line.
pub open spec fn mac_field(l: Seq<u8>) -> Seq<u8> {
    field(l, next_field(l, 0))
}

/// The text of the header that the MAC covers.
pub open spec fn mac_text(l1: Seq<u8>, l2: Seq<u8>, l3: Seq<u8>) -> Seq<u8> {
    l1 + seq![10u8] + l2 + seq![10u8] + l3 + seq![10u8] + dashes()
}

/// The fields decoded from the lines of a header.
pub open spec fn decode_fields(l1: Seq<u8>, l2: Seq<u8>, l3: Seq<u8>, l4: Seq<u8>) -> Result<HeaderFields, AgeCryptoError> {
    match (
        base64_decode_spec(salt_field(l2)),
        base64_decode_spec(l3),
        base64_decode_spec(mac_field(l4)),
        parse_u8_spec(work_factor_field(l2)),
    ) {
        (Some(salt), Some(body), Some(mac), Some(wf)) => Ok(
            HeaderFields { salt, work_factor: wf, body, mac, for_mac: mac_text(l1, l2, l3) },
        ),
        _ => Err(AgeCryptoError::AgeFormat),
    }
}

/// Reading of an age header from the start of `data`, line by line: the
/// outcome and the position reached. A line that is not UTF-8 is refused
/// with `FileOpen`, a line out of format with `AgeFormat`.
pub open spec fn parse_header_spec(data: Seq<u8>) -> (Result<HeaderFields, AgeCryptoError>, int) {
    let p1 = line_end(data, 0);
    let r1 = data.subrange(0, p1);
    let p2 = line_end(data, p1);
    let r2 = data.subrange(p1, p2);
    let p3 = line_end(data, p2);
    let r3 = data.subrange(p2, p3);
    let p4 = line_end(data, p3);
    let r4 = data.subrange(p3, p4);
    if !valid_utf8(r1) {
        (Err(AgeCryptoError::FileOpen), p1)
    } else if line_text(r1) != version() {
        (Err(AgeCryptoError::AgeFormat), p1)
    } else if !valid_utf8(r2) {
        (Err(AgeCryptoError::FileOpen), p2)
    } else if !stanza_ok(line_text(r2)) {
        (Err(AgeCryptoError::AgeFormat), p2)
    } else if !valid_utf8(r3) {
        (Err(AgeCryptoError::FileOpen), p3)
    } else if !valid_utf8(r4) {
        (Err(AgeCryptoError::FileOpen), p4)
    } else if !mac_line_ok(line_text(r4)) {
        (Err(AgeCryptoError::AgeFormat), p4)
    } else {
        (decode_fields(line_text(r1), line_text(r2), line_text(r3), line_text(r4)), p4)
    }
}

/// Reads the line that starts at `pos`: its end, and the length of its text
/// when it is UTF-8.
fn read_line(data: &[u8], pos: usize) -> (res: (usize, Option<usize>))
    requires
        pos <= data@.len(),
    ensures
        res.0 == line_end(data@, pos as int),
        pos <= res.0 <= data@.len(),
        res.1 is Some <==> valid_utf8(data@.subrange(pos as int, res.0 as int)),
        res.1 matches Some(n) ==> pos + n <= res.0 && line_text(data@.subrange(pos as int, res.0 as int))
            == data@.subrange(pos as int, pos + n),
{
    let end = find_line_end(data, pos);
    let raw = &data[pos..end];
    if !is_utf8(raw) {
        return (end, None);
    }
    let n = line_text_len(raw);
    assert(raw@.subrange(0, n as int) =~= data@.subrange(pos as int, pos + n));
    (end, Some(n))
}

/// The field of `l` that starts at `from`: its end, and whether another
/// field follows.
fn read_field(l: &[u8], from: usize) -> (end: usize)
    requires
        from <= l@.len(),
    ensures
        end == field_end(l@, from as int),
        from <= end <= l@.len(),
        end < l@.len() ==> l@[end as int] == 32,
{
    proof { lemma_field_end_bounds(l@, from as int); }
    find_field_end(l, from)
}

/// The parsed header as a result over its fields.
pub open spec fn header_result(res: Result<AgeScryptHeader, AgeCryptoError>) -> Result<HeaderFields, AgeCryptoError> {
    match res {
        Ok(h) => Ok(h.fields()),
        Err(e) => Err(e),
    }
}

/// Reads an age header from the start of `data` (see `parse_header_spec`):
/// the header, or the error, and the position reached.
#[verifier::spinoff_prover]
#[verifier::rlimit(60)]
pub fn parse_header(data: &[u8]) -> (res: (Result<AgeScryptHeader, AgeCryptoError>, usize))
    ensures
        (header_result(res.0), res.1 as int) == parse_header_spec(data@),
{
    let ghost d = data@;
    // version line
    let (p1, t1) = read_line(data, 0);
    let n1 = match t1 {
        Some(n) => n,
        None => return (Err(AgeCryptoError::FileOpen), p1),
    };
    let l1 = &data[0..n1];
    assert(l1@ == line_text(d.subrange(0, p1 as int)));
    let version = version_bytes();
    if !bytes_equal(l1, &version) {
        return (Err(AgeCryptoError::AgeFormat), p1);
    }
    // stanza line
    let (p2, t2) = read_line(data, p1);
    let n2 = match t2 {
        Some(n) => n,
        None => return (Err(AgeCryptoError::FileOpen), p2),
    };
    let l2 = &data[p1..p1 + n2];
    assert(l2@ == line_text(d.subrange(p1 as int, p2 as int)));
    let e0 = read_field(l2, 0);
    let arrow = arrow_bytes();
    if !bytes_equal(&l2[0..e0], &arrow) || e0 == l2.len() {
        assert(field(l2@, 0) == l2@.subrange(0, e0 as int));
        return (Err(AgeCryptoError::AgeFormat), p2);
    }
    let e1 = read_field(l2, e0 + 1);
    let word = scrypt_word_bytes();
    if !bytes_equal(&l2[e0 + 1..e1], &word) || e1 == l2.len() {
        return (Err(AgeCryptoError::AgeFormat), p2);
    }
    let e2 = read_field(l2, e1 + 1);
    if e2 == l2.len() {
        return (Err(AgeCryptoError::AgeFormat), p2);
    }
    let e3 = read_field(l2, e2 + 1);
    let salt_b64 = &l2[e1 + 1..e2];
    let wf_str = &l2[e2 + 1..e3];
    assert(stanza_ok(l2@));
    assert(salt_b64@ == salt_field(l2@));
    assert(wf_str@ == work_factor_field(l2@));
    // wrapped key line
    let (p3, t3) = read_line(data, p2);
    let n3 = match t3 {
        Some(n) => n,
        None => return (Err(AgeCryptoError::FileOpen), p3),
    };
    let l3 = &data[p2..p2 + n3];
    assert(l3@ == line_text(d.subrange(p2 as int, p3 as int)));
    // MAC line
    let (p4, t4) = read_line(data, p3);
    let n4 = match t4 {
        Some(n) => n,
        None => return (Err(AgeCryptoError::FileOpen), p4),
    };
    let l4 = &data[p3..p3 + n4];
    assert(l4@ == line_text(d.subrange(p3 as int, p4 as int)));
    let m0 = read_field(l4, 0);
    let dashes = dashes_bytes();
    if !bytes_equal(&l4[0..m0], &dashes) || m0 == l4.len() {
        return (Err(AgeCryptoError::AgeFormat), p4);
    }
    let m1 = read_field(l4, m0 + 1);
    let mac_b64 = &l4[m0 + 1..m1];
    assert(mac_line_ok(l4@));
    assert(mac_b64@ == mac_field(l4@));
    // text covered by the MAC
    let mut for_mac: Vec<u8> = Vec::new();
    for_mac.extend_from_slice(l1);
    for_mac.push(10);
    for_mac.extend_from_slice(l2);
    for_mac.push(10);
    for_mac.extend_from_slice(l3);
    for_mac.push(10);
    for_mac.extend_from_slice(&dashes);
    assert(for_mac@ =~= mac_text(l1@, l2@, l3@));
    // decoding
    let salt = match base64_decode(salt_b64) {
        Some(v) => v,
        None => return (Err(AgeCryptoError::AgeFormat), p4),
    };
    let body = match base64_decode(l3) {
        Some(v) => v,
        None => return (Err(AgeCryptoError::AgeFormat), p4),
    };
    let mac = match base64_decode(mac_b64) {
        Some(v) => v,
        None => return (Err(AgeCryptoError::AgeFormat), p4),
    };
    let work_factor = match parse_u8(wf_str) {
        Some(v) => v,
        None => return (Err(AgeCryptoError::AgeFormat), p4),
    };
    (Ok(AgeScryptHeader { salt, work_factor, body, mac, for_mac }), p4)
}

/// The 12-byte nonce, all zeros, under which the file key is wrapped.
pub open spec fn zero_nonce() -> Seq<u8> {
    Seq::new(12, |i: int| 0u8)
}

/// The scrypt key that wraps the file key.
pub open spec fn warp_key_spec(password: Seq<u8>, salt: Seq<u8>, work_factor: u8) -> [u8; 32] {
    scrypt_key(password, salt_label() + salt, work_factor)
}

/// The key of the header MAC: HKDF-SHA256 of the file key, unsalted, under
/// the label "header".
pub open spec fn mac_key_spec(file_key: Seq<u8>) -> [u8; 32] {
    hkdf_sha256(None, file_key, header_label())
}

/// The header text that the MAC covers: the version line, the stanza line,
/// the wrapped file key and the three dashes that open the MAC line.
pub open spec fn header_for_mac_spec(salt: Seq<u8>, work_factor: u8, wrapped: Seq<u8>) -> Seq<u8> {
    version() + seq![10u8] + arrow() + seq![32u8] + scrypt_word() + seq![32u8] + base64_spec(salt) + seq![32u8]
        + u8_decimal(work_factor) + seq![10u8] + base64_spec(wrapped) + seq![10u8] + dashes()
}

/// A header with its salt, work factor, wrapped file key and MAC.
pub open spec fn header_spec(salt: Seq<u8>, work_factor: u8, wrapped: Seq<u8>, mac: Seq<u8>) -> Seq<u8> {
    header_for_mac_spec(salt, work_factor, wrapped) + seq![32u8] + base64_spec(mac) + seq![10u8]
}

/// The header that wraps `file_key` for `password`, with the scrypt `salt`
/// and `work_factor`: the file key sealed under the scrypt key, and the MAC
/// of the header text under the key derived from the file key.
pub open spec fn header_for(password: Seq<u8>, salt: Seq<u8>, work_factor: u8, file_key: Seq<u8>) -> Seq<u8> {
    let wrapped = aead_seal(warp_key_spec(password, salt, work_factor)@, zero_nonce(), file_key);
    let mac = hmac_sha256(mac_key_spec(file_key)@, header_for_mac_spec(salt, work_factor, wrapped));
    header_spec(salt, work_factor, wrapped, mac@)
}

impl AgeCrypto {
    /// The scrypt key: `scrypt(N = 2^work_factor, r = 8, p = 1, dkLen = 32,
    /// S = "age-encryption.org/v1/scrypt" || salt, P = password)`.
    fn internal_compute_warp_key(password: &[u8], scrypt_salt: &[u8], work_factor: u8) -> (res: Result<[u8; 32], ()>)
        requires
            work_factor + 11 != usize::BITS,
        ensures
            work_factor + 10 < usize::BITS ==> res == Ok::<[u8; 32], ()>(
                warp_key_spec(password@, scrypt_salt@, work_factor),
            ),
            work_factor + 10 >= usize::BITS ==> res is Err,
    {
        let label = salt_label_bytes();
        let mut salt: Vec<u8> = Vec::new();
        salt.extend_from_slice(&label);
        salt.extend_from_slice(scrypt_salt);
        assert(salt@ =~= salt_label() + scrypt_salt@);
        scrypt_32(password, salt.as_slice(), work_factor)
    }

    /// Wraps the file key under the scrypt key.
    fn internal_wrap_file_key(file_key: &[u8; 16], warp_key: [u8; 32]) -> (res: Result<Vec<u8>, ()>)
        ensures
            res matches Ok(w) && w@ == aead_seal(warp_key@, zero_nonce(), file_key@) && w@.len() == 32,
    {
        let fixed_nonce: [u8; 12] = [0u8; 12];
        assert(fixed_nonce@ =~= zero_nonce());
        aead_encrypt(warp_key.as_slice(), &fixed_nonce, file_key.as_slice())
    }

    /// Unwraps the file key with the scrypt key.
    fn internal_unwrap_file_key(body: &Vec<u8>, warp_key_arr: [u8; 32]) -> (res: Result<Vec<u8>, ()>)
        ensures
            match res {
                Ok(k) => bounded_open(warp_key_arr@, zero_nonce(), body@) == Some(k@),
                Err(_) => bounded_open(warp_key_arr@, zero_nonce(), body@) is None,
            },
            forall|m: Seq<u8>|
                m.len() <= aead_max_len() && body@.len() <= aead_max_len() + 16 && #[trigger] aead_seal(
                    warp_key_arr@,
                    zero_nonce(),
                    m,
                ) == body@ ==> (res matches Ok(k) && k@ == m),
    {
        if body.len() as u64 > aead_max_len_exec() + 16 {
            return Err(());
        }
        let fixed_nonce: [u8; 12] = [0u8; 12];
        assert(fixed_nonce@ =~= zero_nonce());
        aead_decrypt(warp_key_arr.as_slice(), &fixed_nonce, body.as_slice())
    }

    /// The file key unwrapped from the header.
    fn internal_compute_file_key(header: &AgeScryptHeader, warp_key_arr: [u8; 32]) -> (res: Result<Vec<u8>, ()>)
        ensures
            match res {
                Ok(k) => bounded_open(warp_key_arr@, zero_nonce(), header.fields().body) == Some(k@),
                Err(_) => bounded_open(warp_key_arr@, zero_nonce(), header.fields().body) is None,
            },
            forall|m: Seq<u8>|
                m.len() <= aead_max_len() && header.fields().body.len() <= aead_max_len() + 16 && #[trigger] aead_seal(
                    warp_key_arr@,
                    zero_nonce(),
                    m,
                ) == header.fields().body ==> (res matches Ok(k) && k@ == m),
    {
        match Self::internal_unwrap_file_key(&header.body, warp_key_arr) {
            Ok(file_key) => Ok(file_key),
            Err(_) => Err(()),
        }
    }

    /// The payload key: HKDF-SHA256 of the file key, salted with the payload
    /// nonce, under the label "payload".
    fn internal_compute_payload_key(file_key: &Vec<u8>, nonce: &Vec<u8>) -> (res: Result<Vec<u8>, ()>)
        ensures
            res matches Ok(k) && k@ == hkdf_sha256(Some(nonce@), file_key@, payload_label())@,
    {
        let label = payload_label_bytes();
        match hkdf_expand_32(Some(nonce.as_slice()), file_key.as_slice(), &label) {
            Ok(okm) => {
                let v = slice_to_vec(okm.as_slice());
                Ok(v)
            },
            Err(_) => Err(()),
        }
    }

    /// The key of the header MAC: HKDF-SHA256 of the file key, unsalted,
    /// under the label "header".
    fn internal_compute_mac_key(file_key: &[u8]) -> (res: Result<[u8; 32], ()>)
        ensures
            res == Ok::<[u8; 32], ()>(mac_key_spec(file_key@)),
    {
        let label = header_label_bytes();
        hkdf_expand_32(None, file_key, &label)
    }

    /// HMAC-SHA256 of the header text.
    fn internal_compute_hmac(header_str: &[u8], mac_key: &[u8; 32]) -> (res: Result<[u8; 32], ()>)
        ensures
            res == Ok::<[u8; 32], ()>(hmac_sha256(mac_key@, header_str@)),
    {
        hmac_sha256_code(mac_key.as_slice(), header_str)
    }

    /// Builds the header that wraps `file_key` for `password`.
    pub fn internal_construct_header(password: &[u8], scrypt_salt: &[u8], work_factor: u8, file_key: [u8; 16]) -> (res: Result<
        Vec<u8>,
        AgeCryptoError,
    >)
        requires
            work_factor + 11 != usize::BITS,
        ensures
            work_factor + 10 < usize::BITS ==> (res matches Ok(h) && h@ == header_for(
                password@,
                scrypt_salt@,
                work_factor,
                file_key@,
            )),
            work_factor + 10 >= usize::BITS ==> res == Err::<Vec<u8>, AgeCryptoError>(AgeCryptoError::ComputeWarpKey),
            work_factor + 10 < usize::BITS ==> wraps_sealable(password@, scrypt_salt@, work_factor, file_key@),
    {
        let warp_key = match Self::internal_compute_warp_key(password, scrypt_salt, work_factor) {
            Ok(key) => key,
            Err(_) => return Err(AgeCryptoError::ComputeWarpKey),
        };
        let wrapped_file_key = match Self::internal_wrap_file_key(&file_key, warp_key) {
            Ok(key) => key,
            Err(_) => return Err(AgeCryptoError::Encrypt),
        };
        let mut header: Vec<u8> = Vec::new();
        header.extend_from_slice(&version_bytes());
        header.push(10);
        header.extend_from_slice(&arrow_bytes());
        header.push(32);
        header.extend_from_slice(&scrypt_word_bytes());
        header.push(32);
        header.extend_from_slice(base64_encode(scrypt_salt).as_slice());
        header.push(32);
        header.extend_from_slice(u8_to_decimal(work_factor).as_slice());
        header.push(10);
        header.extend_from_slice(base64_encode(wrapped_file_key.as_slice()).as_slice());
        header.push(10);
        header.extend_from_slice(&dashes_bytes());
        assert(header@ =~= header_for_mac_spec(scrypt_salt@, work_factor, wrapped_file_key@));
        let mac_key = match Self::internal_compute_mac_key(&file_key) {
            Ok(key) => key,
            Err(_) => return Err(AgeCryptoError::ComputeMacKey),
        };
        let mac = match Self::internal_compute_hmac(header.as_slice(), &mac_key) {
            Ok(code) => code,
            Err(_) => return Err(AgeCryptoError::ComputeMacKey),
        };
        header.push(32);
        header.extend_from_slice(base64_encode(&mac).as_slice());
        header.push(10);
        assert(header@ =~= header_for(password@, scrypt_salt@, work_factor, file_key@));
        Ok(header)
    }
}

/// Every byte is below 128.
pub open spec fn is_ascii_bytes(b: Seq<u8>) -> bool {
    forall|i: int| 0 <= i < b.len() ==> #[trigger] b[i] < 128
}

/// No byte is `c`.
pub open spec fn free_of(b: Seq<u8>, c: u8) -> bool {
    forall|i: int| 0 <= i < b.len() ==> #[trigger] b[i] != c
}

/// ASCII bytes are UTF-8.
proof fn lemma_ascii_utf8(b: Seq<u8>)
    requires
        is_ascii_bytes(b),
    ensures
        valid_utf8(b),
    decreases b.len(),
{
    if b.len() > 0 {
        let rest = b.subrange(1, b.len() as int);
        assert(is_ascii_bytes(rest)) by {
            assert forall|i: int| 0 <= i < rest.len() implies #[trigger] rest[i] < 128 by {
                assert(rest[i] == b[i + 1]);
            }
        }
        lemma_ascii_utf8(rest);
        assert(b[0] < 128);
        assert(vstd::utf8::pop_first_scalar(b) =~= rest);
    }
}

/// A line that ends with a line feed at `q` ends just past it.
proof fn lemma_line_end_scan(data: Seq<u8>, pos: int, q: int)
    requires
        0 <= pos <= q < data.len(),
        data[q] == 10,
        forall|j: int| pos <= j < q ==> #[trigger] data[j] != 10,
    ensures
        line_end(data, pos) == q + 1,
    decreases q - pos,
{
    if pos < q {
        lemma_line_end_scan(data, pos + 1, q);
    }
}

/// A field that ends with a space at `q`, or at the end of the line, ends
/// there.
proof fn lemma_field_end_scan(s: Seq<u8>, from: int, q: int)
    requires
        0 <= from <= q <= s.len(),
        q == s.len() || s[q] == 32,
        forall|j: int| from <= j < q ==> #[trigger] s[j] != 32,
    ensures
        field_end(s, from) == q,
    decreases q - from,
{
    if from < q {
        lemma_field_end_scan(s, from + 1, q);
    }
}

/// The text `t` of a line followed by a line feed, at `pos` in `data`, is
/// read as a line of text `t`.
proof fn lemma_read_line_of(data: Seq<u8>, pos: int, t: Seq<u8>)
    requires
        0 <= pos,
        pos + t.len() < data.len(),
        data.subrange(pos, pos + t.len()) == t,
        data[pos + t.len()] == 10,
        free_of(t, 10),
        is_ascii_bytes(t),
    ensures
        line_end(data, pos) == pos + t.len() + 1,
        valid_utf8(data.subrange(pos, pos + t.len() + 1)),
        line_text(data.subrange(pos, pos + t.len() + 1)) == t,
{
    let q = pos + t.len();
    assert forall|j: int| pos <= j < q implies #[trigger] data[j] != 10 by {
        assert(data[j] == t[j - pos]);
    }
    lemma_line_end_scan(data, pos, q);
    let raw = data.subrange(pos, q + 1);
    assert(raw =~= t + seq![10u8]);
    assert(is_ascii_bytes(raw)) by {
        assert forall|i: int| 0 <= i < raw.len() implies #[trigger] raw[i] < 128 by {
            if i < t.len() {
                assert(raw[i] == t[i]);
            }
        }
    }
    lemma_ascii_utf8(raw);
    assert(raw.drop_last() =~= t);
}

/// The literal words of the header are ASCII, with no space and no line
/// feed.
proof fn lemma_header_words()
    ensures
        is_ascii_bytes(version()) && free_of(version(), 10) && free_of(version(), 32),
        is_ascii_bytes(arrow()) && free_of(arrow(), 10) && free_of(arrow(), 32),
        is_ascii_bytes(scrypt_word()) && free_of(scrypt_word(), 10) && free_of(scrypt_word(), 32),
        is_ascii_bytes(dashes()) && free_of(dashes(), 10) && free_of(dashes(), 32),
{
    assert(forall|i: int| 0 <= i < version().len() ==> 45 <= #[trigger] version()[i] < 128);
    assert(forall|i: int| 0 <= i < arrow().len() ==> 45 <= #[trigger] arrow()[i] < 128);
    assert(forall|i: int| 0 <= i < scrypt_word().len() ==> 45 <= #[trigger] scrypt_word()[i] < 128);
    assert(forall|i: int| 0 <= i < dashes().len() ==> 45 <= #[trigger] dashes()[i] < 128);
}

/// Base64 text and decimal digits are ASCII, with no space and no line feed.
proof fn lemma_encoded_words(b: Seq<u8>, v: u8)
    ensures
        is_ascii_bytes(base64_spec(b)) && free_of(base64_spec(b), 10) && free_of(base64_spec(b), 32),
        is_ascii_bytes(u8_decimal(v)) && free_of(u8_decimal(v), 10) && free_of(u8_decimal(v), 32),
{
    crate::common::utils::lemma_base64_ascii(b);
    lemma_u8_decimal_round_trip(v);
}

/// The stanza line of a header.
pub open spec fn stanza_line(salt: Seq<u8>, work_factor: u8) -> Seq<u8> {
    arrow() + seq![32u8] + scrypt_word() + seq![32u8] + base64_spec(salt) + seq![32u8] + u8_decimal(work_factor)
}

/// The MAC line of a header.
pub open spec fn mac_line(mac: Seq<u8>) -> Seq<u8> {
    dashes() + seq![32u8] + base64_spec(mac)
}

/// The stanza line is read back into its salt and work factor.
proof fn lemma_stanza_line(salt: Seq<u8>, work_factor: u8)
    ensures
        stanza_ok(stanza_line(salt, work_factor)),
        salt_field(stanza_line(salt, work_factor)) == base64_spec(salt),
        work_factor_field(stanza_line(salt, work_factor)) == u8_decimal(work_factor),
        is_ascii_bytes(stanza_line(salt, work_factor)),
        free_of(stanza_line(salt, work_factor), 10),
{
    lemma_header_words();
    lemma_encoded_words(salt, work_factor);
    let l = stanza_line(salt, work_factor);
    let b = base64_spec(salt);
    let d = u8_decimal(work_factor);
    let e1: int = 10 + b.len() as int;
    assert(l.len() == e1 + 1 + d.len());
    assert(l[2] == 32u8);
    assert(l[9] == 32u8);
    assert(l[e1] == 32u8);
    assert forall|j: int| 0 <= j < 2 implies #[trigger] l[j] != 32 by {
        assert(l[j] == arrow()[j]);
    }
    lemma_field_end_scan(l, 0, 2);
    assert forall|j: int| 3 <= j < 9 implies #[trigger] l[j] != 32 by {
        assert(l[j] == scrypt_word()[j - 3]);
    }
    lemma_field_end_scan(l, 3, 9);
    assert forall|j: int| 10 <= j < e1 implies #[trigger] l[j] != 32 by {
        assert(l[j] == b[j - 10]);
    }
    lemma_field_end_scan(l, 10, e1);
    assert forall|j: int| e1 + 1 <= j < l.len() implies #[trigger] l[j] != 32 by {
        assert(l[j] == d[j - e1 - 1]);
    }
    lemma_field_end_scan(l, e1 + 1, l.len() as int);
    assert(field(l, 0) =~= arrow());
    assert(field(l, 3) =~= scrypt_word());
    assert(field(l, 10) =~= b);
    assert(field(l, e1 + 1) =~= d);
    assert forall|i: int| 0 <= i < l.len() implies #[trigger] l[i] < 128 && l[i] != 10 by {
        if i < 2 {
            assert(l[i] == arrow()[i]);
        } else if 3 <= i < 9 {
            assert(l[i] == scrypt_word()[i - 3]);
        } else if 10 <= i < e1 {
            assert(l[i] == b[i - 10]);
        } else if e1 < i {
            assert(l[i] == d[i - e1 - 1]);
        }
    }
}

/// The MAC line is read back into its MAC.
proof fn lemma_mac_line(mac: Seq<u8>)
    ensures
        mac_line_ok(mac_line(mac)),
        mac_field(mac_line(mac)) == base64_spec(mac),
        is_ascii_bytes(mac_line(mac)),
        free_of(mac_line(mac), 10),
{
    lemma_header_words();
    lemma_encoded_words(mac, 0);
    let l = mac_line(mac);
    let b = base64_spec(mac);
    assert(l[3] == 32u8);
    assert forall|j: int| 0 <= j < 3 implies #[trigger] l[j] != 32 by {
        assert(l[j] == dashes()[j]);
    }
    lemma_field_end_scan(l, 0, 3);
    assert forall|j: int| 4 <= j < l.len() implies #[trigger] l[j] != 32 by {
        assert(l[j] == b[j - 4]);
    }
    lemma_field_end_scan(l, 4, l.len() as int);
    assert(field(l, 0) =~= dashes());
    assert(field(l, 4) =~= b);
    assert forall|i: int| 0 <= i < l.len() implies #[trigger] l[i] < 128 && l[i] != 10 by {
        if i < 3 {
            assert(l[i] == dashes()[i]);
        } else if 4 <= i {
            assert(l[i] == b[i - 4]);
        }
    }
}

/// The four lines of a header, read from the start of `data`: where each
/// ends and what its text is.
pub open spec fn header_lines_read(data: Seq<u8>, l1: Seq<u8>, l2: Seq<u8>, l3: Seq<u8>, l4: Seq<u8>) -> bool {
    let p1 = l1.len() as int + 1;
    let p2 = p1 + l2.len() as int + 1;
    let p3 = p2 + l3.len() as int + 1;
    let p4 = p3 + l4.len() as int + 1;
    &&& line_end(data, 0) == p1
    &&& valid_utf8(data.subrange(0, p1)) && line_text(data.subrange(0, p1)) == l1
    &&& line_end(data, p1) == p2
    &&& valid_utf8(data.subrange(p1, p2)) && line_text(data.subrange(p1, p2)) == l2
    &&& line_end(data, p2) == p3
    &&& valid_utf8(data.subrange(p2, p3)) && line_text(data.subrange(p2, p3)) == l3
    &&& line_end(data, p3) == p4
    &&& valid_utf8(data.subrange(p3, p4)) && line_text(data.subrange(p3, p4)) == l4
}

/// The lines of a header are read one by one.
#[verifier::spinoff_prover]
#[verifier::rlimit(50)]
proof fn lemma_header_layout(salt: Seq<u8>, work_factor: u8, wrapped: Seq<u8>, mac: Seq<u8>, rest: Seq<u8>)
    ensures
        header_lines_read(
            header_spec(salt, work_factor, wrapped, mac) + rest,
            version(),
            stanza_line(salt, work_factor),
            base64_spec(wrapped),
            mac_line(mac),
        ),
        header_spec(salt, work_factor, wrapped, mac).len() == version().len() + stanza_line(salt, work_factor).len()
            + base64_spec(wrapped).len() + mac_line(mac).len() + 4,
{
    lemma_header_words();
    lemma_encoded_words(wrapped, work_factor);
    lemma_stanza_line(salt, work_factor);
    lemma_mac_line(mac);
    let l1 = version();
    let l2 = stanza_line(salt, work_factor);
    let l3 = base64_spec(wrapped);
    let l4 = mac_line(mac);
    let h = header_spec(salt, work_factor, wrapped, mac);
    assert(h =~= l1 + seq![10u8] + l2 + seq![10u8] + l3 + seq![10u8] + l4 + seq![10u8]);
    let data = h + rest;
    let p1: int = l1.len() as int + 1;
    let p2: int = p1 + l2.len() + 1;
    let p3: int = p2 + l3.len() + 1;
    assert(data.subrange(0, l1.len() as int) =~= l1);
    assert(data.subrange(p1, p1 + l2.len()) =~= l2);
    assert(data.subrange(p2, p2 + l3.len()) =~= l3);
    assert(data.subrange(p3, p3 + l4.len()) =~= l4);
    lemma_read_line_of(data, 0, l1);
    lemma_read_line_of(data, p1, l2);
    lemma_read_line_of(data, p2, l3);
    lemma_read_line_of(data, p3, l4);
}

/// A header is read back with the salt, work factor, wrapped key and MAC it
/// was built with, and the reading stops at its end, whatever follows.
#[verifier::spinoff_prover]
#[verifier::rlimit(50)]
pub proof fn lemma_header_round_trip(salt: Seq<u8>, work_factor: u8, wrapped: Seq<u8>, mac: Seq<u8>, rest: Seq<u8>)
    ensures
        parse_header_spec(header_spec(salt, work_factor, wrapped, mac) + rest) == (
            Ok::<HeaderFields, AgeCryptoError>(
                HeaderFields {
                    salt,
                    work_factor,
                    body: wrapped,
                    mac,
                    for_mac: header_for_mac_spec(salt, work_factor, wrapped),
                },
            ),
            header_spec(salt, work_factor, wrapped, mac).len() as int,
        ),
{
    lemma_header_layout(salt, work_factor, wrapped, mac, rest);
    lemma_stanza_line(salt, work_factor);
    lemma_mac_line(mac);
    let l1 = version();
    let l2 = stanza_line(salt, work_factor);
    let l3 = base64_spec(wrapped);
    let l4 = mac_line(mac);
    crate::common::utils::lemma_base64_round_trip(salt);
    crate::common::utils::lemma_base64_round_trip(wrapped);
    crate::common::utils::lemma_base64_round_trip(mac);
    lemma_u8_decimal_round_trip(work_factor);
    assert(mac_text(l1, l2, l3) =~= header_for_mac_spec(salt, work_factor, wrapped));
    assert(decode_fields(l1, l2, l3, l4) == Ok::<HeaderFields, AgeCryptoError>(
        HeaderFields { salt, work_factor, body: wrapped, mac, for_mac: header_for_mac_spec(salt, work_factor, wrapped) },
    ));
}

/// Number of chunks of a payload of `len` bytes.
pub open spec fn chunk_count(len: int) -> int {
    (len + 65535) / 65536
}

/// Chunk `i` of a payload of `len` bytes is the last one: it reaches the
/// end of the payload.
pub open spec fn is_last_chunk(len: int, i: int) -> bool {
    (i + 1) * 65536 >= len
}

/// Chunk `i` (from 0) of a payload: 65536 bytes, fewer for the last one.
pub open spec fn plain_chunk(p: Seq<u8>, i: int) -> Seq<u8> {
    p.subrange(i * 65536, if (i + 1) * 65536 <= p.len() { (i + 1) * 65536 } else { p.len() as int })
}

/// Sealed chunk `i` (from 0) of a sealed payload: 65552 bytes, fewer for the
/// last one.
pub open spec fn sealed_chunk(c: Seq<u8>, i: int) -> Seq<u8> {
    c.subrange(i * 65552, if (i + 1) * 65552 <= c.len() { (i + 1) * 65552 } else { c.len() as int })
}

/// The nonce of chunk `i` of a payload of `len` bytes: its counter, flagged
/// on the last chunk.
pub open spec fn payload_nonce(len: int, i: int) -> Seq<u8> {
    nonce_bytes(chunk_nonce_value(i as u64, is_last_chunk(len, i)))
}

/// `c` is the payload `p` sealed chunk by chunk under `key`.
pub open spec fn payload_sealed(key: Seq<u8>, p: Seq<u8>, c: Seq<u8>) -> bool {
    &&& c.len() == p.len() + 16 * chunk_count(p.len() as int)
    &&& forall|i: int|
        0 <= i < chunk_count(p.len() as int) ==> #[trigger] sealed_chunk(c, i) == aead_seal(
            key,
            payload_nonce(p.len() as int, i),
            plain_chunk(p, i),
        )
}

/// The payload key: HKDF-SHA256 of the file key, salted with the payload
/// nonce, under the label "payload".
pub open spec fn payload_key_spec(file_key: Seq<u8>, nonce: Seq<u8>) -> Seq<u8> {
    hkdf_sha256(Some(nonce), file_key, payload_label())@
}

/// A chunk that starts before the end of a payload of `n` bytes is one of
/// its chunks, and the last one when it reaches the end.
proof fn lemma_chunk_step(n: int, c: int)
    requires
        0 <= c,
        c * 65536 < n,
    ensures
        c < chunk_count(n),
        (c + 1) * 65536 >= n ==> chunk_count(n) == c + 1,
{
    let cc = chunk_count(n);
    assert(c < cc) by (nonlinear_arith)
        requires
            cc == (n + 65535) / 65536,
            c * 65536 < n,
            0 <= c,
    ;
    if (c + 1) * 65536 >= n {
        assert(cc == c + 1) by (nonlinear_arith)
            requires
                cc == (n + 65535) / 65536,
                c * 65536 < n,
                (c + 1) * 65536 >= n,
                0 <= c,
        ;
    }
}

/// An empty payload has no chunk.
proof fn lemma_chunk_count_zero()
    ensures
        chunk_count(0) == 0,
{
}

/// Appending a sealed chunk after `k` whole sealed chunks keeps them and
/// makes it chunk `k`.
proof fn lemma_sealed_chunk_append(a: Seq<u8>, b: Seq<u8>, k: int)
    requires
        0 <= k,
        a.len() == k * 65552,
        b.len() <= 65552,
    ensures
        forall|i: int| 0 <= i < k ==> #[trigger] sealed_chunk(a + b, i) == sealed_chunk(a, i),
        sealed_chunk(a + b, k) == b,
{
    assert forall|i: int| 0 <= i < k implies #[trigger] sealed_chunk(a + b, i) == sealed_chunk(a, i) by {
        assert((i + 1) * 65552 <= k * 65552);
        assert(sealed_chunk(a + b, i) =~= sealed_chunk(a, i));
    }
    assert(sealed_chunk(a + b, k) =~= b);
}

impl AgeCrypto {
    /// Seals chunk `n` of a payload.
    fn internal_encrypt_chunk(payload_key: &Vec<u8>, chunk: &[u8], n: u64, last: bool) -> (res: Result<Vec<u8>, ()>)
        requires
            payload_key@.len() == 32,
            chunk@.len() <= 65536,
        ensures
            res matches Ok(c) && c@ == aead_seal(payload_key@, nonce_bytes(chunk_nonce_value(n, last)), chunk@)
                && c@.len() == chunk@.len() + 16,
    {
        let nonce = chunk_nonce(n, last);
        aead_encrypt(payload_key.as_slice(), &nonce, chunk)
    }

    /// Opens chunk `n` of a payload.
    fn internal_decrypt_chunk(payload_key: &Vec<u8>, chunk: &[u8], n: u64, last: bool) -> (res: Result<Vec<u8>, ()>)
        requires
            payload_key@.len() == 32,
            chunk@.len() <= 65552,
        ensures
            match res {
                Ok(p) => aead_open(payload_key@, nonce_bytes(chunk_nonce_value(n, last)), chunk@) == Some(p@),
                Err(_) => aead_open(payload_key@, nonce_bytes(chunk_nonce_value(n, last)), chunk@) is None,
            },
            forall|m: Seq<u8>|
                m.len() <= 65536 && #[trigger] aead_seal(payload_key@, nonce_bytes(chunk_nonce_value(n, last)), m) == chunk@
                    ==> (res matches Ok(p) && p@ == m),
    {
        let nonce = chunk_nonce(n, last);
        aead_decrypt(payload_key.as_slice(), &nonce, chunk)
    }

    /// Seals a payload chunk by chunk under `payload_key`.
    fn seal_payload(payload_key: &Vec<u8>, plain: &[u8]) -> (res: Result<Vec<u8>, AgeCryptoError>)
        requires
            payload_key@.len() == 32,
        ensures
            res matches Ok(c) && payload_sealed(payload_key@, plain@, c@),
    {
        let n = plain.len();
        let mut out: Vec<u8> = Vec::new();
        let mut off: usize = 0;
        let mut chunk_n: u64 = 0;
        while off < n
            invariant
                n == plain@.len(),
                payload_key@.len() == 32,
                off as int == if chunk_n * 65536 <= n { chunk_n * 65536 } else { n as int },
                chunk_n == 0 || (chunk_n - 1) * 65536 < n,
                out@.len() == off + 16 * chunk_n,
                off < n ==> out@.len() == chunk_n * 65552,
                forall|i: int|
                    0 <= i < chunk_n ==> #[trigger] sealed_chunk(out@, i) == aead_seal(
                        payload_key@,
                        payload_nonce(n as int, i),
                        plain_chunk(plain@, i),
                    ),
            decreases n - off,
        {
            proof { lemma_chunk_step(n as int, chunk_n as int); }
            let last = n - off <= 65536;
            let end = if last { n } else { off + 65536 };
            let chunk = &plain[off..end];
            assert(chunk@ =~= plain_chunk(plain@, chunk_n as int));
            let ghost prev = out@;
            let sealed = match Self::internal_encrypt_chunk(payload_key, chunk, chunk_n, last) {
                Ok(c) => c,
                Err(_) => return Err(AgeCryptoError::Decrypt),
            };
            out.extend_from_slice(sealed.as_slice());
            proof {
                lemma_sealed_chunk_append(prev, sealed@, chunk_n as int);
                assert(out@ == prev + sealed@);
                assert(payload_nonce(n as int, chunk_n as int) == nonce_bytes(chunk_nonce_value(chunk_n, last)));
                assert forall|i: int| 0 <= i < chunk_n + 1 implies #[trigger] sealed_chunk(out@, i) == aead_seal(
                    payload_key@,
                    payload_nonce(n as int, i),
                    plain_chunk(plain@, i),
                ) by {
                    if i < chunk_n {
                        assert(sealed_chunk(prev, i) == aead_seal(payload_key@, payload_nonce(n as int, i), plain_chunk(plain@, i)));
                    }
                }
            }
            off = end;
            chunk_n = chunk_n + 1;
        }
        proof {
            if n == 0 {
                lemma_chunk_count_zero();
            } else {
                lemma_chunk_step(n as int, chunk_n - 1);
            }
        }
        Ok(out)
    }
}

/// Opening of a sealed payload from chunk number `n` on: cut into chunks of
/// `65536 + 16` bytes, the last one flagged.
pub open spec fn open_payload(key: Seq<u8>, c: Seq<u8>, n: u64) -> Option<Seq<u8>>
    decreases c.len(),
{
    if c.len() == 0 {
        Some(seq![])
    } else {
        let last = c.len() <= 65552;
        let size: int = if last { c.len() as int } else { 65552 };
        match aead_open(key, nonce_bytes(chunk_nonce_value(n, last)), c.subrange(0, size)) {
            Some(p) => prepend_some(p, open_payload(key, c.subrange(size, c.len() as int), (n + 1) as u64)),
            None => None,
        }
    }
}

/// Number of bytes of a sealed payload read by `open_payload`: all of them,
/// or up to the end of the first chunk that does not open.
pub open spec fn open_consumed(key: Seq<u8>, c: Seq<u8>, n: u64) -> int
    decreases c.len(),
{
    if c.len() == 0 {
        0
    } else {
        let last = c.len() <= 65552;
        let size: int = if last { c.len() as int } else { 65552 };
        match aead_open(key, nonce_bytes(chunk_nonce_value(n, last)), c.subrange(0, size)) {
            Some(p) => size + open_consumed(key, c.subrange(size, c.len() as int), (n + 1) as u64),
            None => size,
        }
    }
}

/// Sealed chunk `i` of a payload of `len` plaintext bytes: it exists while
/// it starts before the end, and it is the last one when it reaches the end.
proof fn lemma_sealed_chunk_bounds(len: int, i: int)
    requires
        0 <= len,
        0 <= i,
        i * 65552 < len + 16 * chunk_count(len),
    ensures
        i < chunk_count(len),
        (len + 16 * chunk_count(len) - i * 65552 <= 65552) <==> is_last_chunk(len, i),
{
    let cc = chunk_count(len);
    assert(len <= cc * 65536 && (cc == 0 || (cc - 1) * 65536 < len)) by (nonlinear_arith)
        requires
            cc == (len + 65535) / 65536,
            0 <= len,
    ;
    assert(i < cc) by (nonlinear_arith)
        requires
            i * 65552 < len + 16 * cc,
            len <= cc * 65536,
            0 <= i,
    ;
    if i + 1 == cc {
        assert(len + 16 * cc - i * 65552 <= 65552) by (nonlinear_arith)
            requires
                i + 1 == cc,
                len <= cc * 65536,
        ;
        assert(is_last_chunk(len, i));
    } else {
        assert(i + 1 < cc);
        assert(len + 16 * cc - i * 65552 > 65552) by (nonlinear_arith)
            requires
                i + 1 < cc,
                (cc - 1) * 65536 < len,
                0 <= i,
        ;
        assert((i + 1) * 65536 < len) by (nonlinear_arith)
            requires
                i + 1 < cc,
                (cc - 1) * 65536 < len,
                0 <= i,
        ;
    }
}

/// Once every sealed byte has been read, every chunk has been opened.
proof fn lemma_sealed_done(len: int, k: int)
    requires
        0 <= len,
        0 <= k,
        k * 65552 >= len + 16 * chunk_count(len),
    ensures
        k * 65536 >= len,
{
    let cc = chunk_count(len);
    assert(len <= cc * 65536) by (nonlinear_arith)
        requires
            cc == (len + 65535) / 65536,
            0 <= len,
    ;
    assert(k * 65536 >= len) by (nonlinear_arith)
        requires
            k * 65552 >= len + 16 * cc,
            len <= cc * 65536,
            0 <= k,
            0 <= cc,
    ;
}

impl AgeCrypto {
    /// Opens a sealed payload chunk by chunk under `payload_key`: the
    /// outcome and the number of bytes read.
    fn open_payload_chunks(payload_key: &Vec<u8>, c: &[u8]) -> (res: (Result<Vec<u8>, AgeCryptoError>, usize))
        requires
            payload_key@.len() == 32,
        ensures
            match res.0 {
                Ok(p) => open_payload(payload_key@, c@, 0) == Some(p@),
                Err(e) => e == AgeCryptoError::Decrypt && open_payload(payload_key@, c@, 0) is None,
            },
            res.1 == open_consumed(payload_key@, c@, 0),
            forall|p: Seq<u8>| #[trigger] payload_sealed(payload_key@, p, c@) ==> (res.0 matches Ok(v) && v@ == p),
    {
        let n = c.len();
        let ghost k = payload_key@;
        let mut out: Vec<u8> = Vec::new();
        let mut off: usize = 0;
        let mut chunk_n: u64 = 0;
        assert(c@.subrange(0, n as int) =~= c@);
        proof {
            match open_payload(k, c@, 0) {
                Some(r) => {
                    assert(out@ + r =~= r);
                },
                None => {},
            }
        }
        while off < n
            invariant
                n == c@.len(),
                k == payload_key@,
                payload_key@.len() == 32,
                off as int == if chunk_n * 65552 <= n { chunk_n * 65552 } else { n as int },
                chunk_n == 0 || (chunk_n - 1) * 65552 < n,
                open_payload(k, c@, 0) == prepend_some(out@, open_payload(k, c@.subrange(off as int, n as int), chunk_n)),
                open_consumed(k, c@, 0) == off + open_consumed(k, c@.subrange(off as int, n as int), chunk_n),
                forall|p: Seq<u8>| #[trigger]
                    payload_sealed(k, p, c@) ==> out@ == p.subrange(
                        0,
                        if chunk_n * 65536 <= p.len() { chunk_n * 65536 } else { p.len() as int },
                    ),
            decreases n - off,
        {
            let last = n - off <= 65552;
            let end = if last { n } else { off + 65552 };
            let chunk = &c[off..end];
            let ghost tail = c@.subrange(off as int, n as int);
            assert(tail.subrange(0, end - off) =~= chunk@);
            assert(tail.subrange(end - off, tail.len() as int) =~= c@.subrange(end as int, n as int));
            assert(chunk@ =~= sealed_chunk(c@, chunk_n as int));
            let ghost prev = out@;
            match Self::internal_decrypt_chunk(payload_key, chunk, chunk_n, last) {
                Ok(plain) => {
                    out.extend_from_slice(plain.as_slice());
                    proof {
                        let rest = open_payload(k, c@.subrange(end as int, n as int), (chunk_n + 1) as u64);
                        match rest {
                            Some(r) => {
                                assert(prev + (plain@ + r) =~= out@ + r);
                            },
                            None => {},
                        }
                        assert forall|p: Seq<u8>| #[trigger] payload_sealed(k, p, c@) implies out@ == p.subrange(
                            0,
                            if (chunk_n + 1) * 65536 <= p.len() { (chunk_n + 1) * 65536 } else { p.len() as int },
                        ) by {
                            lemma_sealed_chunk_bounds(p.len() as int, chunk_n as int);
                            assert(sealed_chunk(c@, chunk_n as int) == aead_seal(
                                k,
                                payload_nonce(p.len() as int, chunk_n as int),
                                plain_chunk(p, chunk_n as int),
                            ));
                            assert(plain@ == plain_chunk(p, chunk_n as int));
                            assert(out@ =~= p.subrange(
                                0,
                                if (chunk_n + 1) * 65536 <= p.len() { (chunk_n + 1) * 65536 } else { p.len() as int },
                            ));
                        }
                    }
                },
                Err(_) => {
                    proof {
                        assert forall|p: Seq<u8>| #[trigger] payload_sealed(k, p, c@) implies false by {
                            lemma_sealed_chunk_bounds(p.len() as int, chunk_n as int);
                            assert(sealed_chunk(c@, chunk_n as int) == aead_seal(
                                k,
                                payload_nonce(p.len() as int, chunk_n as int),
                                plain_chunk(p, chunk_n as int),
                            ));
                        }
                    }
                    return (Err(AgeCryptoError::Decrypt), end);
                },
            }
            off = end;
            chunk_n = chunk_n + 1;
        }
        proof {
            assert(c@.subrange(n as int, n as int) =~= Seq::<u8>::empty());
            assert(out@ + Seq::<u8>::empty() =~= out@);
            assert forall|p: Seq<u8>| #[trigger] payload_sealed(k, p, c@) implies out@ == p by {
                if p.len() > 0 {
                    lemma_sealed_done(p.len() as int, chunk_n as int);
                } else {
                    lemma_chunk_count_zero();
                }
                assert(p.subrange(0, p.len() as int) =~= p);
            }
        }
        (Ok(out), n)
    }
}

/// What extracting the file key from `data` with `password` gives: the
/// outcome, the position reached in the data, and the file key when it was
/// unwrapped (it is kept even when the MAC then does not match).
pub open spec fn extract_spec(data: Seq<u8>, password: Seq<u8>) -> (Result<(), AgeCryptoError>, int, Option<Seq<u8>>) {
    let (h, pos) = parse_header_spec(data);
    match h {
        Err(e) => (Err(e), pos, None),
        Ok(f) => if f.work_factor + 10 >= usize::BITS {
            (Err(AgeCryptoError::ComputeWarpKey), pos, None)
        } else {
            match bounded_open(warp_key_spec(password, f.salt, f.work_factor)@, zero_nonce(), f.body) {
                None => (Err(AgeCryptoError::ComputeFileKey), pos, None),
                Some(fk) => if hmac_sha256(mac_key_spec(fk)@, f.for_mac)@ == f.mac {
                    (Ok(()), pos, Some(fk))
                } else {
                    (Err(AgeCryptoError::MacIncorrect), pos, Some(fk))
                },
            }
        },
    }
}

/// `data` opens with the header that wraps `file_key` for `password`.
pub open spec fn made_with(data: Seq<u8>, password: Seq<u8>, salt: Seq<u8>, work_factor: u8, file_key: Seq<u8>) -> bool {
    let h = header_for(password, salt, work_factor, file_key);
    h.len() <= data.len() && data.subrange(0, h.len() as int) == h
}

/// A header built for a password is read back with its fields.
proof fn lemma_made_with_parses(data: Seq<u8>, password: Seq<u8>, salt: Seq<u8>, work_factor: u8, file_key: Seq<u8>)
    requires
        made_with(data, password, salt, work_factor, file_key),
    ensures
        ({
            let wrapped = aead_seal(warp_key_spec(password, salt, work_factor)@, zero_nonce(), file_key);
            let for_mac = header_for_mac_spec(salt, work_factor, wrapped);
            let mac = hmac_sha256(mac_key_spec(file_key)@, for_mac)@;
            parse_header_spec(data) == (
                Ok::<HeaderFields, AgeCryptoError>(HeaderFields { salt, work_factor, body: wrapped, mac, for_mac }),
                header_for(password, salt, work_factor, file_key).len() as int,
            )
        }),
{
    let wrapped = aead_seal(warp_key_spec(password, salt, work_factor)@, zero_nonce(), file_key);
    let for_mac = header_for_mac_spec(salt, work_factor, wrapped);
    let mac = hmac_sha256(mac_key_spec(file_key)@, for_mac)@;
    let h = header_for(password, salt, work_factor, file_key);
    let rest = data.subrange(h.len() as int, data.len() as int);
    assert(data =~= h + rest);
    lemma_header_round_trip(salt, work_factor, wrapped, mac, rest);
}

/// The file key and its wrapped form stay within what the cipher handles, as
/// they do for every header that `internal_construct_header` builds.
pub open spec fn wraps_sealable(password: Seq<u8>, salt: Seq<u8>, work_factor: u8, file_key: Seq<u8>) -> bool {
    &&& file_key.len() <= aead_max_len()
    &&& aead_seal(warp_key_spec(password, salt, work_factor)@, zero_nonce(), file_key).len() <= aead_max_len() + 16
}

/// When `data` opens with a header made for `password`, the file key is
/// unwrapped: the outcome `res` is a success, `file_key` is the key that the
/// header wraps, and the reading stopped at the end of the header.
pub open spec fn unwraps_made_header(
    data: Seq<u8>,
    password: Seq<u8>,
    res: Result<(), AgeCryptoError>,
    file_key: Seq<u8>,
    reader_pos: Option<usize>,
) -> bool {
    forall|salt: Seq<u8>, wf: u8, fk: Seq<u8>|
        #[trigger] made_with(data, password, salt, wf, fk) && wf + 10 < usize::BITS && wraps_sealable(
            password,
            salt,
            wf,
            fk,
        ) ==> res is Ok && file_key == fk
            && reader_pos == Some(header_for(password, salt, wf, fk).len() as usize)
}

/// What decrypting the payload of `data` at `pos` with `file_key` gives:
/// the outcome and the position reached.
pub open spec fn decrypt_spec(data: Seq<u8>, pos: int, file_key: Seq<u8>) -> (Result<Seq<u8>, AgeCryptoError>, int) {
    if pos > data.len() {
        (Err(AgeCryptoError::FileRead), pos)
    } else if data.len() - pos < 16 {
        (Err(AgeCryptoError::FileRead), data.len() as int)
    } else {
        let key = payload_key_spec(file_key, data.subrange(pos, pos + 16));
        let c = data.subrange(pos + 16, data.len() as int);
        match open_payload(key, c, 0) {
            Some(p) => (Ok(p), pos + 16 + open_consumed(key, c, 0)),
            None => (Err(AgeCryptoError::Decrypt), pos + 16 + open_consumed(key, c, 0)),
        }
    }
}

/// When the payload of `data` at `pos` is a plaintext sealed under the
/// payload key of `file_key`, the outcome `res` is that plaintext.
pub open spec fn opens_sealed_payload(data: Seq<u8>, pos: int, file_key: Seq<u8>, res: Result<Seq<u8>, AgeCryptoError>) -> bool {
    forall|p: Seq<u8>|
        pos + 16 <= data.len() && #[trigger] payload_sealed(
            payload_key_spec(file_key, data.subrange(pos, pos + 16)),
            p,
            data.subrange(pos + 16, data.len() as int),
        ) ==> res == Ok::<Seq<u8>, AgeCryptoError>(p)
}

/// The salt, payload nonce and file key with which `encrypt` writes a file.
pub open spec fn encrypt_salt() -> Seq<u8> {
    Seq::new(16, |i: int| 12u8)
}

pub open spec fn encrypt_nonce() -> Seq<u8> {
    Seq::new(16, |i: int| 12u8)
}

pub open spec fn encrypt_file_key() -> Seq<u8> {
    Seq::new(16, |i: int| 15u8)
}

/// The scrypt work factor with which `encrypt` writes a file.
pub open spec fn encrypt_work_factor() -> u8 {
    18
}

/// `out` is `plain` written as an age file for `password`: the header that
/// wraps the file key, the payload nonce, and the payload sealed chunk by
/// chunk under the payload key.
pub open spec fn age_encrypted(password: Seq<u8>, plain: Seq<u8>, out: Seq<u8>) -> bool {
    let h = header_for(password, encrypt_salt(), encrypt_work_factor(), encrypt_file_key());
    let hl = h.len() as int;
    &&& hl + 16 <= out.len()
    &&& wraps_sealable(password, encrypt_salt(), encrypt_work_factor(), encrypt_file_key())
    &&& out.subrange(0, hl) == h
    &&& out.subrange(hl, hl + 16) == encrypt_nonce()
    &&& payload_sealed(
        payload_key_spec(encrypt_file_key(), encrypt_nonce()),
        plain,
        out.subrange(hl + 16, out.len() as int),
    )
}

/// The outcome of a decryption as a sequence of bytes.
pub open spec fn age_bytes_result(res: Result<Vec<u8>, AgeCryptoError>) -> Result<Seq<u8>, AgeCryptoError> {
    match res {
        Ok(v) => Ok(v@),
        Err(e) => Err(e),
    }
}

impl AgeCrypto {
    /// The location of the age file.
    pub closed spec fn location_view(&self) -> Seq<char> {
        self.db_location@
    }

    /// The location of the decrypted file.
    pub closed spec fn plain_location_view(&self) -> Seq<char> {
        self.db_location_pt@
    }

    /// Where reading the file has got to, once it is open.
    pub closed spec fn reader_pos_view(&self) -> Option<usize> {
        self.reader_pos
    }

    /// The file key.
    pub closed spec fn file_key_view(&self) -> Seq<u8> {
        self.file_key@
    }

    pub fn new(location: &str) -> (a: Self)
        ensures
            a.location_view() == location@,
            a.plain_location_view() == location@ + ".agept"@,
            a.reader_pos_view() is None,
            a.file_key_view() == Seq::<u8>::empty(),
    {
        let mut pt = location.to_owned();
        pt.append(".agept");
        Self { db_location: location.to_owned(), db_location_pt: pt, reader_pos: None, file_key: Vec::new() }
    }

    /// Reads the header of the age file `data`, unwraps the file key with
    /// `password` and checks the header MAC. The file stays open, positioned
    /// where the header reading stopped.
    pub fn extract_key(&mut self, data: &[u8], password: &[u8]) -> (res: Result<(), AgeCryptoError>)
        requires
            parse_header_spec(data@).0 matches Ok(f) ==> f.work_factor + 11 != usize::BITS,
        ensures
            final(self).location_view() == old(self).location_view(),
            final(self).plain_location_view() == old(self).plain_location_view(),
            res == extract_spec(data@, password@).0,
            final(self).reader_pos_view() matches Some(p) && p == extract_spec(data@, password@).1,
            final(self).file_key_view() == match extract_spec(data@, password@).2 {
                Some(k) => k,
                None => old(self).file_key_view(),
            },
            unwraps_made_header(data@, password@, res, final(self).file_key_view(), final(self).reader_pos_view()),
    {
        let (parsed, pos) = parse_header(data);
        self.reader_pos = Some(pos);
        let header = match parsed {
            Ok(h) => h,
            Err(error) => {
                proof {
                    assert forall|salt: Seq<u8>, wf: u8, fk: Seq<u8>| #[trigger]
                        made_with(data@, password@, salt, wf, fk) && wf + 10 < usize::BITS && wraps_sealable(password@, salt, wf, fk) implies false by {
                        lemma_made_with_parses(data@, password@, salt, wf, fk);
                    }
                }
                return Err(error);
            },
        };
        let warp_key_arr = match Self::internal_compute_warp_key(password, &header.salt, header.work_factor) {
            Ok(key) => key,
            Err(_) => {
                proof {
                    assert forall|salt: Seq<u8>, wf: u8, fk: Seq<u8>| #[trigger]
                        made_with(data@, password@, salt, wf, fk) && wf + 10 < usize::BITS && wraps_sealable(password@, salt, wf, fk) implies false by {
                        lemma_made_with_parses(data@, password@, salt, wf, fk);
                    }
                }
                return Err(AgeCryptoError::ComputeWarpKey);
            },
        };
        let file_key = match Self::internal_compute_file_key(&header, warp_key_arr) {
            Ok(key) => key,
            Err(_) => {
                proof {
                    assert forall|salt: Seq<u8>, wf: u8, fk: Seq<u8>| #[trigger]
                        made_with(data@, password@, salt, wf, fk) && wf + 10 < usize::BITS && wraps_sealable(password@, salt, wf, fk) implies false by {
                        lemma_made_with_parses(data@, password@, salt, wf, fk);
                        assert(header.fields().body == aead_seal(warp_key_arr@, zero_nonce(), fk));
                    }
                }
                return Err(AgeCryptoError::ComputeFileKey);
            },
        };
        self.file_key = file_key;
        let mac_key = match Self::internal_compute_mac_key(&self.file_key) {
            Ok(key) => key,
            Err(()) => return Err(AgeCryptoError::ComputeMacKey),
        };
        let computed_mac = match Self::internal_compute_hmac(&header.for_mac, &mac_key) {
            Ok(mac) => mac,
            Err(()) => return Err(AgeCryptoError::ComputeMacKey),
        };
        proof {
            assert forall|salt: Seq<u8>, wf: u8, fk: Seq<u8>| #[trigger]
                made_with(data@, password@, salt, wf, fk) && wf + 10 < usize::BITS && wraps_sealable(password@, salt, wf, fk) implies self.file_key@ == fk
                && computed_mac@ == header.mac@ && pos == header_for(password@, salt, wf, fk).len() by {
                lemma_made_with_parses(data@, password@, salt, wf, fk);
                assert(header.fields().body == aead_seal(warp_key_arr@, zero_nonce(), fk));
            }
        }
        if !bytes_equal(&computed_mac, header.mac.as_slice()) {
            return Err(AgeCryptoError::MacIncorrect);
        }
        Ok(())
    }
}

impl AgeCrypto {
    /// Decrypts the payload of the age file `data`, read from where the
    /// header reading stopped, with the extracted file key. Refused with
    /// `FileOpen` when no file was opened.
    pub fn decrypt(&mut self, data: &[u8]) -> (res: Result<Vec<u8>, AgeCryptoError>)
        ensures
            final(self).location_view() == old(self).location_view(),
            final(self).plain_location_view() == old(self).plain_location_view(),
            final(self).file_key_view() == old(self).file_key_view(),
            old(self).reader_pos_view() is None ==> res == Err::<Vec<u8>, AgeCryptoError>(AgeCryptoError::FileOpen)
                && final(self).reader_pos_view() is None,
            old(self).reader_pos_view() matches Some(pos) ==> ({
                let (r, q) = decrypt_spec(data@, pos as int, old(self).file_key_view());
                &&& age_bytes_result(res) == r
                &&& final(self).reader_pos_view() == Some(q as usize)
                &&& opens_sealed_payload(data@, pos as int, old(self).file_key_view(), age_bytes_result(res))
            }),
    {
        let pos = match self.reader_pos {
            Some(p) => p,
            None => return Err(AgeCryptoError::FileOpen),
        };
        if pos > data.len() {
            return Err(AgeCryptoError::FileRead);
        }
        if data.len() - pos < 16 {
            self.reader_pos = Some(data.len());
            return Err(AgeCryptoError::FileRead);
        }
        let nonce = slice_to_vec(&data[pos..pos + 16]);
        self.reader_pos = Some(pos + 16);
        let payload_key = match Self::internal_compute_payload_key(&self.file_key, &nonce) {
            Ok(key) => key,
            Err(_) => return Err(AgeCryptoError::ComputePayloadKey),
        };
        let sealed = &data[pos + 16..data.len()];
        assert(sealed@ == data@.subrange(pos + 16, data@.len() as int));
        let (res, consumed) = Self::open_payload_chunks(&payload_key, sealed);
        proof {
            let c = data@.subrange(pos + 16, data@.len() as int);
            assert(consumed <= c.len()) by {
                lemma_open_consumed_bounds(payload_key@, c, 0);
            }
        }
        self.reader_pos = Some(pos + 16 + consumed);
        res
    }

    /// Writes `plain` as an age file for `password` (see `age_encrypted`):
    /// the header, the payload nonce and the sealed payload.
    pub fn encrypt(&mut self, plain: &[u8], password: &[u8]) -> (res: Result<Vec<u8>, AgeCryptoError>)
        ensures
            final(self).location_view() == old(self).location_view(),
            final(self).plain_location_view() == old(self).plain_location_view(),
            final(self).file_key_view() == old(self).file_key_view(),
            final(self).reader_pos_view() == old(self).reader_pos_view(),
            res matches Ok(out) && age_encrypted(password@, plain@, out@),
    {
        let test_salt = [12u8; 16];
        let test_nonce = [12u8; 16];
        let file_key: [u8; 16] = [15u8; 16];
        assert(test_salt@ =~= encrypt_salt());
        assert(test_nonce@ =~= encrypt_nonce());
        assert(file_key@ =~= encrypt_file_key());
        let header = match Self::internal_construct_header(password, &test_salt, 18, file_key) {
            Ok(header) => header,
            Err(err) => return Err(err),
        };
        let payload_key = match Self::internal_compute_payload_key(&slice_to_vec(&file_key), &slice_to_vec(&test_nonce)) {
            Ok(key) => key,
            Err(_) => return Err(AgeCryptoError::ComputePayloadKey),
        };
        let sealed = match Self::seal_payload(&payload_key, plain) {
            Ok(c) => c,
            Err(e) => return Err(e),
        };
        let mut out = header;
        let ghost hl = out@.len() as int;
        out.extend_from_slice(&test_nonce);
        out.extend_from_slice(sealed.as_slice());
        assert(out@.subrange(0, hl) =~= header@);
        assert(out@.subrange(hl, hl + 16) =~= encrypt_nonce());
        assert(out@.subrange(hl + 16, out@.len() as int) =~= sealed@);
        Ok(out)
    }
}

/// The bytes read while opening a payload are at most all of them.
proof fn lemma_open_consumed_bounds(key: Seq<u8>, c: Seq<u8>, n: u64)
    ensures
        0 <= open_consumed(key, c, n) <= c.len(),
    decreases c.len(),
{
    if c.len() > 0 {
        let last = c.len() <= 65552;
        let size: int = if last { c.len() as int } else { 65552 };
        lemma_open_consumed_bounds(key, c.subrange(size, c.len() as int), (n + 1) as u64);
    }
}

/// An age file written by `encrypt` for a password is read back by
/// `extract_key` and `decrypt` with the same password: the header is
/// accepted, and the payload decrypts to the plaintext. Stated over the
/// outcomes as the contracts of the three functions give them.
pub proof fn lemma_age_round_trip(
    password: Seq<u8>,
    plain: Seq<u8>,
    out: Seq<u8>,
    extracted: Result<(), AgeCryptoError>,
    file_key: Seq<u8>,
    reader_pos: Option<usize>,
    decrypted: Result<Seq<u8>, AgeCryptoError>,
)
    requires
        out.len() <= usize::MAX,
        age_encrypted(password, plain, out),
        unwraps_made_header(out, password, extracted, file_key, reader_pos),
        reader_pos matches Some(pos) && opens_sealed_payload(out, pos as int, file_key, decrypted),
    ensures
        extracted is Ok,
        decrypted == Ok::<Seq<u8>, AgeCryptoError>(plain),
{
    let h = header_for(password, encrypt_salt(), encrypt_work_factor(), encrypt_file_key());
    assert(made_with(out, password, encrypt_salt(), encrypt_work_factor(), encrypt_file_key()));
    assert(18 + 10 < usize::BITS);
    let hl = h.len() as int;
    assert(reader_pos == Some(hl as usize));
    assert(file_key == encrypt_file_key());
    let pos = reader_pos->0 as int;
    assert(pos == hl);
    assert(payload_sealed(
        payload_key_spec(file_key, out.subrange(pos, pos + 16)),
        plain,
        out.subrange(pos + 16, out.len() as int),
    ));
}

} // verus!
