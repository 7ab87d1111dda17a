//! The cryptographic and system primitives this library builds on, each
//! reached through one small trusted function whose contract states what the
//! providing crate documents or its source shows.
use chacha20poly1305::aead::{Aead, KeyInit};
use chacha20poly1305::{ChaCha20Poly1305, Key, Nonce};
use hkdf::Hkdf;
use ml_kem::{Decapsulate, Encapsulate, Kem, KeyExport, KeyInit as KemKeyInit, MlKem768};
use rand::Rng;
use sha2::{Digest, Sha256};
use subtle::ConstantTimeEq;
use vstd::prelude::*;
use vstd::utf8::*;
use x25519_dalek::{PublicKey, StaticSecret};

verus! {

// ── Names for results that only the providing crate can compute ──────────────

/// The ChaCha20-Poly1305 ciphertext (with its 16-byte tag appended) of
/// `plaintext` under `key` and `nonce`, with empty associated data.
pub uninterp spec fn chacha20poly1305_seal(key: Seq<u8>, nonce: Seq<u8>, plaintext: Seq<u8>) -> Seq<u8>;

/// The outcome of opening `ciphertext` (tag appended) under `key` and `nonce`,
/// with empty associated data: the plaintext, or `None` when it does not authenticate.
pub uninterp spec fn chacha20poly1305_open(key: Seq<u8>, nonce: Seq<u8>, ciphertext: Seq<u8>) -> Option<Seq<u8>>;

/// The 32-byte output of HKDF-SHA256 with no salt over `ikm` and `info`.
pub uninterp spec fn hkdf_sha256_okm32(ikm: Seq<u8>, info: Seq<u8>) -> Seq<u8>;

/// The SHA-256 digest of `data`.
pub uninterp spec fn sha256_digest(data: Seq<u8>) -> Seq<u8>;

/// The X25519 public key of the 32-byte secret scalar `secret`.
pub uninterp spec fn x25519_public(secret: Seq<u8>) -> Seq<u8>;

/// The X25519 shared secret of the 32-byte secret `secret` with the peer public key `peer`.
pub uninterp spec fn x25519_shared(secret: Seq<u8>, peer: Seq<u8>) -> Seq<u8>;

/// The 1184-byte ML-KEM-768 encapsulation key of the key pair grown from the
/// 64-byte `seed` (`ml_kem::FromSeed::from_seed`, then `KeyExport::to_bytes`).
pub uninterp spec fn mlkem768_ek_of_seed(seed: Seq<u8>) -> Seq<u8>;

/// The ciphertext and 32-byte shared key of ML-KEM-768 encapsulation to the
/// encapsulation key `ek` with the 32-byte message `m`
/// (`EncapsulationKey::encapsulate_deterministic`).
pub uninterp spec fn mlkem768_encapsulated(ek: Seq<u8>, m: Seq<u8>) -> (Seq<u8>, Seq<u8>);

/// The ML-KEM-768 shared key that the decapsulation key grown from the 64-byte
/// `seed` recovers from the 1088-byte ciphertext `ct` (implicit rejection included).
pub uninterp spec fn mlkem768_decapsulated(seed: Seq<u8>, ct: Seq<u8>) -> Seq<u8>;

// ── Facts stated in a few lines ──────────────────────────────────────────────

/// ChaCha20-Poly1305 refuses a message of this many bytes or more
/// (`u32::MAX` blocks of 64 bytes).
pub open spec fn chacha20poly1305_max_plaintext() -> int {
    64int * 0xffff_ffffint
}

/// Length in bytes of an ML-KEM-768 encapsulation key.
pub open spec fn mlkem768_ek_len() -> int {
    1184
}

/// Length in bytes of an ML-KEM-768 ciphertext.
pub open spec fn mlkem768_ct_len() -> int {
    1088
}

/// Length in bytes of an ML-KEM decapsulation-key seed.
pub open spec fn mlkem_seed_len() -> int {
    64
}

/// Whether the two 12-bit coefficients packed little-endian in three bytes are
/// both reduced modulo q = 3329.
pub open spec fn mlkem_coefficients_reduced(b0: u8, b1: u8, b2: u8) -> bool {
    &&& b0 as int + (b1 as int % 16) * 256 < 3329
    &&& b1 as int / 16 + (b2 as int) * 16 < 3329
}

/// The FIPS 203 encapsulation-key check for ML-KEM-768: 1184 bytes whose first
/// 1152 bytes encode 768 coefficients each below q (the modulus check).
pub open spec fn mlkem768_ek_well_formed(ek: Seq<u8>) -> bool {
    &&& ek.len() == mlkem768_ek_len()
    &&& forall|j: int|
        0 <= j < 384 ==> #[trigger] mlkem_coefficients_reduced(ek[3 * j], ek[3 * j + 1], ek[3 * j + 2])
}

/// Whether `ct` and `ss` are the encapsulation to `ek` of some 32-byte message.
pub open spec fn mlkem768_is_encapsulation(ek: Seq<u8>, ct: Seq<u8>, ss: Seq<u8>) -> bool {
    exists|m: Seq<u8>|
        #![trigger mlkem768_encapsulated(ek, m)]
        m.len() == 32 && mlkem768_encapsulated(ek, m) == (ct, ss)
}

// ── ChaCha20-Poly1305 (chacha20poly1305) ─────────────────────────────────────

/// Calls `Aead::encrypt` of `chacha20poly1305::ChaCha20Poly1305` (a cipher made
/// from `key`) on `plaintext` with empty associated data. Trusted: it fails
/// exactly on messages of `u32::MAX` blocks or more, and otherwise returns the
/// named ciphertext, 16 bytes longer than the plaintext.
#[verifier::external_body]
pub(crate) fn chacha20poly1305_encrypt(key: &[u8; 32], nonce: &[u8; 12], plaintext: &[u8]) -> (r: Option<Vec<u8>>)
    ensures
        r is None <==> plaintext@.len() >= chacha20poly1305_max_plaintext(),
        r matches Some(ct) ==> ct@ == chacha20poly1305_seal(key@, nonce@, plaintext@)
            && ct@.len() == plaintext@.len() + 16,
{
    ChaCha20Poly1305::new(Key::from_slice(key)).encrypt(Nonce::from_slice(nonce), plaintext).ok()
}

/// Calls `Aead::decrypt` of `chacha20poly1305::ChaCha20Poly1305` (a cipher made
/// from `key`) on `ciphertext` with empty associated data. Trusted: the result
/// is the named opening; anything shorter than a tag is refused; an opened
/// plaintext is 16 bytes shorter; and, as the AEAD's documented correctness, a
/// ciphertext produced by encryption under the same key and nonce opens to the
/// plaintext that was encrypted.
#[verifier::external_body]
pub(crate) fn chacha20poly1305_decrypt(key: &[u8; 32], nonce: &[u8; 12], ciphertext: &[u8]) -> (r: Option<Vec<u8>>)
    ensures
        r matches Some(p) ==> chacha20poly1305_open(key@, nonce@, ciphertext@) == Some(p@)
            && p@.len() + 16 == ciphertext@.len(),
        r is None ==> chacha20poly1305_open(key@, nonce@, ciphertext@) is None,
        ciphertext@.len() < 16 ==> r is None,
        forall|pt: Seq<u8>|
            pt.len() < chacha20poly1305_max_plaintext() && ciphertext@
                == #[trigger] chacha20poly1305_seal(key@, nonce@, pt) ==> r is Some && r->0@ == pt,
{
    ChaCha20Poly1305::new(Key::from_slice(key)).decrypt(Nonce::from_slice(nonce), ciphertext).ok()
}

// ── HKDF-SHA256 (hkdf, sha2) ─────────────────────────────────────────────────

/// Calls `hkdf::Hkdf::<sha2::Sha256>::new(None, ikm)` and `expand(info, ..)`
/// into 32 bytes. Trusted: the result is the named output; expansion to 32
/// bytes never fails (the limit is 255 * 32 bytes).
#[verifier::external_body]
pub(crate) fn hkdf_sha256_expand32(ikm: &[u8], info: &[u8]) -> (okm: [u8; 32])
    ensures
        okm@ == hkdf_sha256_okm32(ikm@, info@),
{
    let hk = Hkdf::<Sha256>::new(None, ikm);
    let mut okm = [0u8; 32];
    hk.expand(info, &mut okm).expect("32 bytes is a valid HKDF-SHA256 output length");
    okm
}

// ── SHA-256 (sha2) ───────────────────────────────────────────────────────────

/// Calls `sha2::Sha256::digest`. Trusted: the result is the named 32-byte digest.
#[verifier::external_body]
pub(crate) fn sha256(data: &[u8]) -> (d: Vec<u8>)
    ensures
        d@ == sha256_digest(data@),
        d@.len() == 32,
{
    Sha256::digest(data).to_vec()
}

// ── X25519 (x25519_dalek, rand) ──────────────────────────────────────────────

/// Calls `x25519_dalek::StaticSecret::random_from_rng(rand::rngs::OsRng)`.
/// Nothing is stated of the random secret.
#[verifier::external_body]
pub(crate) fn x25519_random_secret() -> [u8; 32] {
    StaticSecret::random_from_rng(rand::rngs::OsRng).to_bytes()
}

/// Calls `x25519_dalek::PublicKey::from(&StaticSecret)`. Trusted: the result is
/// the named public key of `secret`.
#[verifier::external_body]
pub(crate) fn x25519_public_key(secret: &[u8; 32]) -> (pk: [u8; 32])
    ensures
        pk@ == x25519_public(secret@),
{
    PublicKey::from(&StaticSecret::from(*secret)).to_bytes()
}

/// Calls `x25519_dalek::StaticSecret::diffie_hellman`. Trusted: the result is
/// the named shared secret, and, as the crate documents for key agreement, a
/// peer whose public key is that of `other` computes the same secret from
/// `other` and the public key of `secret`.
#[verifier::external_body]
pub(crate) fn x25519_diffie_hellman(secret: &[u8; 32], peer: &[u8; 32]) -> (ss: [u8; 32])
    ensures
        ss@ == x25519_shared(secret@, peer@),
        forall|other: Seq<u8>|
            other.len() == 32 && peer@ == x25519_public(other) ==> #[trigger] x25519_shared(
                other,
                x25519_public(secret@),
            ) == ss@,
{
    StaticSecret::from(*secret).diffie_hellman(&PublicKey::from(*peer)).to_bytes()
}

// ── ML-KEM-768 (ml_kem) ──────────────────────────────────────────────────────

/// Calls `ml_kem::MlKem768::generate_keypair` (system RNG) and exports both keys.
/// Trusted: the encapsulation key is 1184 bytes that pass the FIPS 203 check
/// (it is `ByteEncode12` of reduced coefficients), the decapsulation key is
/// exported as its 64-byte seed `d || z`, and the encapsulation key is the one
/// that seed grows (both go through `generate_deterministic(d, z)`). The seed
/// itself is random.
#[verifier::external_body]
pub(crate) fn mlkem768_generate() -> (keys: (Vec<u8>, Vec<u8>))
    ensures
        mlkem768_ek_well_formed(keys.0@),
        keys.1@.len() == mlkem_seed_len(),
        keys.0@ == mlkem768_ek_of_seed(keys.1@),
{
    let (dk, ek) = MlKem768::generate_keypair();
    (ek.to_bytes().to_vec(), dk.to_bytes().to_vec())
}

/// Calls `ml_kem::EncapsulationKey::<MlKem768>::new` on the 1184 bytes, then
/// `Encapsulate::encapsulate` (system RNG). Trusted: key construction fails
/// exactly when the FIPS 203 check fails; otherwise a 1088-byte ciphertext and a
/// 32-byte shared key come back, the encapsulation to `ek` of a random 32-byte
/// message (`encapsulate_with_rng` draws it and calls `encapsulate_deterministic`).
/// Which message was drawn is not stated.
#[verifier::external_body]
pub(crate) fn mlkem768_encapsulate(ek: &[u8]) -> (r: Option<(Vec<u8>, Vec<u8>)>)
    requires
        ek@.len() == mlkem768_ek_len(),
    ensures
        r is Some <==> mlkem768_ek_well_formed(ek@),
        r matches Some((ct, ss)) ==> ct@.len() == mlkem768_ct_len() && ss@.len() == 32
            && exists|m: Seq<u8>|
            #![trigger mlkem768_encapsulated(ek@, m)]
            m.len() == 32 && mlkem768_encapsulated(ek@, m) == (ct@, ss@),
{
    let key = ml_kem::Key::<ml_kem::ml_kem_768::EncapsulationKey>::try_from(ek).ok()?;
    let ek = ml_kem::ml_kem_768::EncapsulationKey::new(&key).ok()?;
    let (ct, ss) = ek.encapsulate();
    Some((ct.to_vec(), ss.to_vec()))
}

/// Calls `KeyInit::new` of `ml_kem::DecapsulationKey::<MlKem768>` on the 64-byte
/// seed, then `Decapsulate::decapsulate_slice`. Trusted: it fails exactly when
/// the ciphertext is not 1088 bytes; otherwise it returns the named 32-byte key.
#[verifier::external_body]
pub(crate) fn mlkem768_decapsulate(seed: &[u8], ct: &[u8]) -> (r: Option<Vec<u8>>)
    requires
        seed@.len() == mlkem_seed_len(),
    ensures
        r is Some <==> ct@.len() == mlkem768_ct_len(),
        r matches Some(ss) ==> ss@ == mlkem768_decapsulated(seed@, ct@) && ss@.len() == 32,
{
    let key = ml_kem::Key::<ml_kem::ml_kem_768::DecapsulationKey>::try_from(seed).ok()?;
    let dk = ml_kem::ml_kem_768::DecapsulationKey::new(&key);
    dk.decapsulate_slice(ct).ok().map(|ss| ss.to_vec())
}

// ── Constant-time comparison (subtle) ────────────────────────────────────────

/// Calls `subtle::ConstantTimeEq::ct_eq` on two byte slices and unwraps the
/// `Choice`. Trusted: 1 when the slices are equal (same length, same bytes), else 0.
#[verifier::external_body]
pub(crate) fn ct_eq_bytes(a: &[u8], b: &[u8]) -> (c: u8)
    ensures
        c == (if a@ == b@ { 1u8 } else { 0u8 }),
{
    a.ct_eq(b).unwrap_u8()
}

// ── Randomness (rand) ────────────────────────────────────────────────────────

/// Calls `rand::Rng::gen_range(0..bound)` on `rand::thread_rng()`. Trusted: the
/// result is below `bound` (which must be positive, else the call panics).
#[verifier::external_body]
pub(crate) fn random_below(bound: usize) -> (r: usize)
    requires
        bound > 0,
    ensures
        r < bound,
{
    rand::thread_rng().gen_range(0..bound)
}

// ── std items that vstd leaves unspecified ───────────────────────────────────

/// Calls `core::str::from_utf8`. Trusted: it succeeds exactly on valid UTF-8,
/// and then the string holds the decoded characters.
#[verifier::external_body]
pub(crate) fn str_from_utf8(bytes: &[u8]) -> (r: Option<&str>)
    ensures
        r is Some <==> valid_utf8(bytes@),
        r matches Some(s) ==> s@ == decode_utf8(bytes@),
{
    core::str::from_utf8(bytes).ok()
}

/// `String::push` appends one character.
pub assume_specification[ String::push ](s: &mut String, ch: char)
    ensures
        final(s)@ == old(s)@.push(ch),
;

} // verus!
