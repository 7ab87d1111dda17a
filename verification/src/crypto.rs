//! The hybrid key exchange (X25519 + ML-KEM-768), its handshake messages and
//! the ChaCha20-Poly1305 session cipher with counter nonces.
use crate::encoding;
use crate::primitives;
use crate::text;
use vstd::prelude::*;
use vstd::string::*;

verus! {

/// What can go wrong in the handshake or in session encryption.
#[derive(Debug, Clone, Copy, PartialEq, Eq, Structural)]
pub enum CryptoError {
    /// An ML-KEM encapsulation key that is not 1184 bytes long.
    InvalidEkLength(usize),
    /// An ML-KEM encapsulation key that fails the FIPS 203 modulus check.
    InvalidEk,
    /// An ML-KEM decapsulation-key seed that is not 64 bytes long.
    InvalidDkSeedLength(usize),
    /// An ML-KEM ciphertext that is not 1088 bytes long.
    CiphertextLength(usize),
    /// A handshake message shorter than its 35-byte header.
    MessageTooShort,
    /// A handshake message of another type than expected.
    WrongMessageType(u8),
    /// A handshake message whose payload is shorter than its length field says.
    TruncatedMessage,
    /// An encrypted packet shorter than its 8-byte counter.
    PacketTooShort(usize),
    /// The AEAD refused to encrypt (message too long).
    Encrypt,
    /// The packet did not authenticate.
    Decrypt,
}

/// The text of an error, as the handshake and session code reports it.
pub open spec fn crypto_error_text(e: CryptoError) -> Seq<char> {
    match e {
        CryptoError::InvalidEkLength(n) => "invalid EK length: "@ + text::dec_text(n as nat)
            + " bytes"@,
        CryptoError::InvalidEk => "invalid EK: InvalidKey"@,
        CryptoError::InvalidDkSeedLength(n) => "invalid DK seed length: "@ + text::dec_text(
            n as nat,
        ) + " bytes"@,
        CryptoError::CiphertextLength(n) => "ML-KEM ciphertext has wrong length: "@
            + text::dec_text(n as nat) + " bytes"@,
        CryptoError::MessageTooShort => "message too short"@,
        CryptoError::WrongMessageType(t) => "wrong msg type: got 0x"@ + text::byte_hex_lower(t),
        CryptoError::TruncatedMessage => "truncated message"@,
        CryptoError::PacketTooShort(n) => "packet too short ("@ + text::dec_text(n as nat)
            + " bytes)"@,
        CryptoError::Encrypt => "encrypt: aead::Error"@,
        CryptoError::Decrypt => "decrypt: aead::Error"@,
    }
}

impl CryptoError {
    /// The text of this error.
    pub fn message(&self) -> (s: String)
        ensures
            s@ == crypto_error_text(*self),
    {
        match *self {
            CryptoError::InvalidEkLength(n) => {
                let mut s = String::from_str("invalid EK length: ");
                text::push_dec_usize(&mut s, n);
                s.append(" bytes");
                s
            },
            CryptoError::InvalidEk => String::from_str("invalid EK: InvalidKey"),
            CryptoError::InvalidDkSeedLength(n) => {
                let mut s = String::from_str("invalid DK seed length: ");
                text::push_dec_usize(&mut s, n);
                s.append(" bytes");
                s
            },
            CryptoError::CiphertextLength(n) => {
                let mut s = String::from_str("ML-KEM ciphertext has wrong length: ");
                text::push_dec_usize(&mut s, n);
                s.append(" bytes");
                s
            },
            CryptoError::MessageTooShort => String::from_str("message too short"),
            CryptoError::WrongMessageType(t) => {
                let mut s = String::from_str("wrong msg type: got 0x");
                text::push_byte_hex_lower(&mut s, t);
                s
            },
            CryptoError::TruncatedMessage => String::from_str("truncated message"),
            CryptoError::PacketTooShort(n) => {
                let mut s = String::from_str("packet too short (");
                text::push_dec_usize(&mut s, n);
                s.append(" bytes)");
                s
            },
            CryptoError::Encrypt => String::from_str("encrypt: aead::Error"),
            CryptoError::Decrypt => String::from_str("decrypt: aead::Error"),
        }
    }
}

/// The ML-KEM-768 key encapsulation mechanism.
pub struct PqKem;

impl PqKem {
    pub fn new() -> (k: Self) {
        PqKem
    }

    /// A fresh key pair: the 1184-byte encapsulation key and the 64-byte
    /// decapsulation-key seed it is grown from.
    pub fn keypair(&self) -> (keys: (Vec<u8>, Vec<u8>))
        ensures
            primitives::mlkem768_ek_well_formed(keys.0@),
            keys.1@.len() == primitives::mlkem_seed_len(),
            keys.0@ == primitives::mlkem768_ek_of_seed(keys.1@),
    {
        primitives::mlkem768_generate()
    }

    /// Encapsulates a fresh shared secret to `ek_bytes`: the ciphertext and the
    /// 32-byte shared secret.
    pub fn encapsulate(&self, ek_bytes: &[u8]) -> (r: Result<(Vec<u8>, Vec<u8>), CryptoError>)
        ensures
            ek_bytes@.len() != primitives::mlkem768_ek_len() ==> r == Err::<(Vec<u8>, Vec<u8>), CryptoError>(
                CryptoError::InvalidEkLength(ek_bytes@.len() as usize),
            ),
            ek_bytes@.len() == primitives::mlkem768_ek_len() && !primitives::mlkem768_ek_well_formed(ek_bytes@) ==> r
                == Err::<(Vec<u8>, Vec<u8>), CryptoError>(CryptoError::InvalidEk),
            r is Ok <==> primitives::mlkem768_ek_well_formed(ek_bytes@),
            r matches Ok((ct, ss)) ==> ct@.len() == primitives::mlkem768_ct_len() && ss@.len() == 32
                && primitives::mlkem768_is_encapsulation(ek_bytes@, ct@, ss@),
    {
        if ek_bytes.len() != 1184 {
            return Err(CryptoError::InvalidEkLength(ek_bytes.len()));
        }
        match primitives::mlkem768_encapsulate(ek_bytes) {
            Some(pair) => Ok(pair),
            None => Err(CryptoError::InvalidEk),
        }
    }

    /// Recovers the 32-byte shared secret from `ct_bytes` with the
    /// decapsulation-key seed `dk_bytes`.
    pub fn decapsulate(&self, dk_bytes: &[u8], ct_bytes: &[u8]) -> (r: Result<Vec<u8>, CryptoError>)
        ensures
            dk_bytes@.len() != primitives::mlkem_seed_len() ==> r == Err::<Vec<u8>, CryptoError>(
                CryptoError::InvalidDkSeedLength(dk_bytes@.len() as usize),
            ),
            dk_bytes@.len() == primitives::mlkem_seed_len() && ct_bytes@.len() != primitives::mlkem768_ct_len() ==> r
                == Err::<Vec<u8>, CryptoError>(CryptoError::CiphertextLength(ct_bytes@.len() as usize)),
            r is Ok <==> dk_bytes@.len() == primitives::mlkem_seed_len() && ct_bytes@.len() == primitives::mlkem768_ct_len(),
            r matches Ok(ss) ==> ss@ == primitives::mlkem768_decapsulated(dk_bytes@, ct_bytes@) && ss@.len() == 32,
    {
        if dk_bytes.len() != 64 {
            return Err(CryptoError::InvalidDkSeedLength(dk_bytes.len()));
        }
        match primitives::mlkem768_decapsulate(dk_bytes, ct_bytes) {
            Some(ss) => Ok(ss),
            None => Err(CryptoError::CiphertextLength(ct_bytes.len())),
        }
    }
}


// ── Hybrid key derivation ────────────────────────────────────────────────────

/// The HKDF `info` string binding derived keys to this protocol version:
/// the bytes of "dvion-vpn-v1-session-key".
pub open spec fn session_key_info() -> Seq<u8> {
    seq![
        100u8, 118, 105, 111, 110, 45, 118, 112, 110, 45, 118, 49, 45,
        115, 101, 115, 115, 105, 111, 110, 45, 107, 101, 121,
    ]
}

/// The session key for an X25519 shared secret and an ML-KEM shared secret:
/// HKDF-SHA256 over their concatenation.
pub open spec fn hybrid_key(x25519_ss: Seq<u8>, mlkem_ss: Seq<u8>) -> Seq<u8> {
    primitives::hkdf_sha256_okm32(x25519_ss + mlkem_ss, session_key_info())
}

/// HKDF-SHA256 over X25519 || ML-KEM shared secrets.
/// Security holds as long as either primitive remains unbroken.
pub fn hybrid_shared_secret(x25519_ss: &[u8; 32], mlkem_ss: &[u8]) -> (k: [u8; 32])
    ensures
        k@ == hybrid_key(x25519_ss@, mlkem_ss@),
{
    let mut ikm: Vec<u8> = Vec::new();
    let mut i: usize = 0;
    while i < 32
        invariant
            i <= 32,
            ikm@ == x25519_ss@.take(i as int),
        decreases 32 - i,
    {
        ikm.push(x25519_ss[i]);
        assert(x25519_ss@.take(i + 1) =~= x25519_ss@.take(i as int).push(x25519_ss@[i as int]));
        i = i + 1;
    }
    let mut j: usize = 0;
    while j < mlkem_ss.len()
        invariant
            j <= mlkem_ss@.len(),
            ikm@ == x25519_ss@ + mlkem_ss@.take(j as int),
        decreases mlkem_ss@.len() - j,
    {
        ikm.push(mlkem_ss[j]);
        assert(mlkem_ss@.take(j + 1) =~= mlkem_ss@.take(j as int).push(mlkem_ss@[j as int]));
        assert(x25519_ss@ + mlkem_ss@.take(j + 1) =~= (x25519_ss@ + mlkem_ss@.take(j as int)).push(
            mlkem_ss@[j as int],
        ));
        j = j + 1;
    }
    assert(mlkem_ss@.take(mlkem_ss@.len() as int) =~= mlkem_ss@);
    let info: [u8; 24] = [
        100u8, 118, 105, 111, 110, 45, 118, 112, 110, 45, 118, 49, 45, 115, 101, 115, 115, 105,
        111, 110, 45, 107, 101, 121,
    ];
    assert(info@ =~= session_key_info());
    primitives::hkdf_sha256_expand32(ikm.as_slice(), &info)
}


// ── Session cipher ───────────────────────────────────────────────────────────

/// The counter that follows `c` (wrapping around, as an atomic `fetch_add` does).
pub open spec fn next_counter(c: u64) -> u64 {
    if c == u64::MAX {
        0
    } else {
        (c + 1) as u64
    }
}

/// The 12-byte nonce for a counter: four zero bytes, then the counter big-endian.
pub open spec fn counter_nonce(c: u64) -> Seq<u8> {
    seq![0u8, 0u8, 0u8, 0u8] + encoding::u64_be(c)
}

/// An encrypted packet: the counter big-endian, then the AEAD ciphertext of
/// the plaintext under the counter's nonce.
pub open spec fn sealed_packet(key: Seq<u8>, c: u64, plaintext: Seq<u8>) -> Seq<u8> {
    encoding::u64_be(c) + primitives::chacha20poly1305_seal(key, counter_nonce(c), plaintext)
}

/// What opening a packet gives: `None` for a packet shorter than its counter
/// or one that does not authenticate under the counter's nonce.
pub open spec fn opened_packet(key: Seq<u8>, data: Seq<u8>) -> Option<Seq<u8>> {
    if data.len() < 8 {
        None
    } else {
        primitives::chacha20poly1305_open(
            key,
            counter_nonce(encoding::u64_from_be(data)),
            data.subrange(8, data.len() as int),
        )
    }
}

/// The 12-byte nonce: 4 zero bytes, then the 8-byte big-endian counter.
pub fn nonce_from_counter(counter: u64) -> (n: [u8; 12])
    ensures
        n@ == counter_nonce(counter),
{
    let n: [u8; 12] = [
        0u8,
        0u8,
        0u8,
        0u8,
        (counter >> 56u64) as u8,
        ((counter >> 48u64) & 0xffu64) as u8,
        ((counter >> 40u64) & 0xffu64) as u8,
        ((counter >> 32u64) & 0xffu64) as u8,
        ((counter >> 24u64) & 0xffu64) as u8,
        ((counter >> 16u64) & 0xffu64) as u8,
        ((counter >> 8u64) & 0xffu64) as u8,
        (counter & 0xffu64) as u8,
    ];
    assert(n@ =~= counter_nonce(counter));
    n
}

/// ChaCha20-Poly1305 with a monotonic counter nonce.
/// The 8-byte counter is prepended to every ciphertext so the receiver can
/// reconstruct the nonce without keeping per-stream state.
pub struct SessionCipher {
    key: [u8; 32],
    send_counter: u64,
}

impl SessionCipher {
    /// The session key.
    pub closed spec fn key(&self) -> Seq<u8> {
        self.key@
    }

    /// The counter the next encryption will use.
    pub closed spec fn counter(&self) -> u64 {
        self.send_counter
    }

    pub fn new(key: &[u8; 32]) -> (c: Self)
        ensures
            c.key() == key@,
            c.counter() == 0,
    {
        SessionCipher { key: *key, send_counter: 0 }
    }

    /// Encrypt → `counter(8) ‖ ciphertext`. The counter advances on every call.
    pub fn encrypt(&mut self, plaintext: &[u8]) -> (r: Result<Vec<u8>, CryptoError>)
        ensures
            final(self).key() == old(self).key(),
            final(self).counter() == next_counter(old(self).counter()),
            r is Ok <==> plaintext@.len() < primitives::chacha20poly1305_max_plaintext(),
            r matches Ok(out) ==> out@ == sealed_packet(old(self).key(), old(self).counter(), plaintext@)
                && out@.len() == 8 + plaintext@.len() + 16,
            r is Err ==> r == Err::<Vec<u8>, CryptoError>(CryptoError::Encrypt),
    {
        let counter = self.send_counter;
        self.send_counter = if counter == u64::MAX {
            0
        } else {
            counter + 1
        };
        let nonce = nonce_from_counter(counter);
        match primitives::chacha20poly1305_encrypt(&self.key, &nonce, plaintext) {
            None => Err(CryptoError::Encrypt),
            Some(ct) => {
                let mut out: Vec<u8> = Vec::new();
                encoding::push_u64_be(&mut out, counter);
                let mut i: usize = 0;
                while i < ct.len()
                    invariant
                        i <= ct@.len(),
                        out@ == encoding::u64_be(counter) + ct@.take(i as int),
                    decreases ct@.len() - i,
                {
                    out.push(ct[i]);
                    assert(ct@.take(i + 1) =~= ct@.take(i as int).push(ct@[i as int]));
                    assert(encoding::u64_be(counter) + ct@.take(i + 1) =~= (encoding::u64_be(
                        counter,
                    ) + ct@.take(i as int)).push(ct@[i as int]));
                    i = i + 1;
                }
                assert(ct@.take(ct@.len() as int) =~= ct@);
                Ok(out)
            },
        }
    }

    /// Decrypt `counter(8) ‖ ciphertext`. A packet that this cipher's key
    /// sealed opens to the plaintext that was sealed.
    pub fn decrypt(&self, data: &[u8]) -> (r: Result<Vec<u8>, CryptoError>)
        ensures
            data@.len() < 8 ==> r == Err::<Vec<u8>, CryptoError>(
                CryptoError::PacketTooShort(data@.len() as usize),
            ),
            data@.len() >= 8 ==> (r is Ok <==> opened_packet(self.key(), data@) is Some),
            r matches Ok(p) ==> opened_packet(self.key(), data@) == Some(p@),
            data@.len() >= 8 && r is Err ==> r == Err::<Vec<u8>, CryptoError>(CryptoError::Decrypt),
            8 <= data@.len() < 24 ==> r == Err::<Vec<u8>, CryptoError>(CryptoError::Decrypt),
            forall|c: u64, p: Seq<u8>|
                p.len() < primitives::chacha20poly1305_max_plaintext() && data@ == #[trigger] sealed_packet(
                    self.key(),
                    c,
                    p,
                ) ==> (r is Ok && r->Ok_0@ == p),
    {
        if data.len() < 8 {
            return Err(CryptoError::PacketTooShort(data.len()));
        }
        let counter = encoding::read_u64_be(data);
        let nonce = nonce_from_counter(counter);
        let body = vstd::slice::slice_subrange(data, 8, data.len());
        let r = primitives::chacha20poly1305_decrypt(&self.key, &nonce, body);
        assert forall|c: u64, p: Seq<u8>|
            p.len() < primitives::chacha20poly1305_max_plaintext() && data@ == #[trigger] sealed_packet(
                self.key(),
                c,
                p,
            ) implies (r is Some && r->0@ == p) by {
            let s = primitives::chacha20poly1305_seal(self.key(), counter_nonce(c), p);
            assert((encoding::u64_be(c) + s).subrange(0, 8) =~= encoding::u64_be(c));
            assert(data@.subrange(0, 8) == encoding::u64_be(c));
            assert(encoding::u64_from_be(data@) == encoding::u64_from_be(data@.subrange(0, 8)));
            encoding::lemma_u64_be_roundtrip(c);
            assert(counter == c);
            assert(body@ =~= s);
        }
        match r {
            Some(p) => Ok(p),
            None => Err(CryptoError::Decrypt),
        }
    }
}


/// Every packet is sealed under its own counter: its first eight bytes are the
/// counter big-endian, and the rest is the ChaCha20-Poly1305 sealing of the
/// plaintext under the nonce made of four zero bytes and those eight bytes.
/// So packets with different counters are sealed under different nonces.
pub proof fn lemma_packet_sealed_under_its_counter(key: Seq<u8>, c1: u64, c2: u64, p1: Seq<u8>, p2: Seq<u8>)
    ensures
        ({
            let pkt = sealed_packet(key, c1, p1);
            &&& pkt.len() >= 8
            &&& encoding::u64_from_be(pkt) == c1
            &&& pkt.subrange(8, pkt.len() as int) == primitives::chacha20poly1305_seal(
                key,
                seq![0u8, 0u8, 0u8, 0u8] + pkt.subrange(0, 8),
                p1,
            )
        }),
        c1 != c2 ==> seq![0u8, 0u8, 0u8, 0u8] + sealed_packet(key, c1, p1).subrange(0, 8)
            != seq![0u8, 0u8, 0u8, 0u8] + sealed_packet(key, c2, p2).subrange(0, 8),
{
    let pkt = sealed_packet(key, c1, p1);
    let s1 = primitives::chacha20poly1305_seal(key, counter_nonce(c1), p1);
    assert(pkt.subrange(0, 8) =~= encoding::u64_be(c1));
    assert(pkt.subrange(8, pkt.len() as int) =~= s1);
    assert(seq![0u8, 0u8, 0u8, 0u8] + pkt.subrange(0, 8) =~= counter_nonce(c1));
    encoding::lemma_u64_be_roundtrip(c1);
    assert(encoding::u64_from_be(pkt) == encoding::u64_from_be(encoding::u64_be(c1)));
    let q = sealed_packet(key, c2, p2);
    assert(q.subrange(0, 8) =~= encoding::u64_be(c2));
    if c1 != c2 {
        encoding::lemma_u64_be_injective(c1, c2);
        let n1 = seq![0u8, 0u8, 0u8, 0u8] + pkt.subrange(0, 8);
        let n2 = seq![0u8, 0u8, 0u8, 0u8] + q.subrange(0, 8);
        if n1 == n2 {
            assert(n1.subrange(4, 12) =~= encoding::u64_be(c1));
            assert(n2.subrange(4, 12) =~= encoding::u64_be(c2));
        }
    }
}

/// Opening a packet of at least eight bytes is opening the rest of it with
/// ChaCha20-Poly1305 under the nonce made of four zero bytes and its first
/// eight bytes.
pub proof fn lemma_packet_opened_under_its_counter(key: Seq<u8>, data: Seq<u8>)
    requires
        data.len() >= 8,
    ensures
        opened_packet(key, data) == primitives::chacha20poly1305_open(
            key,
            seq![0u8, 0u8, 0u8, 0u8] + data.subrange(0, 8),
            data.subrange(8, data.len() as int),
        ),
{
    encoding::lemma_u64_from_be_bytes(data);
    assert(counter_nonce(encoding::u64_from_be(data)) =~= seq![0u8, 0u8, 0u8, 0u8] + data.subrange(
        0,
        8,
    ));
}

/// Distinct counters give distinct nonces, so no nonce repeats until the
/// counter wraps around.
pub proof fn lemma_counter_nonce_injective(c1: u64, c2: u64)
    ensures
        counter_nonce(c1) == counter_nonce(c2) ==> c1 == c2,
{
    if counter_nonce(c1) == counter_nonce(c2) {
        assert(counter_nonce(c1).subrange(4, 12) =~= encoding::u64_be(c1));
        assert(counter_nonce(c2).subrange(4, 12) =~= encoding::u64_be(c2));
        encoding::lemma_u64_be_injective(c1, c2);
    }
}

/// Two successive encryptions never produce the same packet, whatever their
/// plaintexts: their counters, and so their first eight bytes, differ.
pub proof fn lemma_successive_packets_differ(key: Seq<u8>, c: u64, p1: Seq<u8>, p2: Seq<u8>)
    ensures
        sealed_packet(key, c, p1) != sealed_packet(key, next_counter(c), p2),
{
    let a = sealed_packet(key, c, p1);
    let b = sealed_packet(key, next_counter(c), p2);
    assert(a.subrange(0, 8) =~= encoding::u64_be(c));
    assert(b.subrange(0, 8) =~= encoding::u64_be(next_counter(c)));
    encoding::lemma_u64_be_injective(c, next_counter(c));
}

// ── Handshake messages ───────────────────────────────────────────────────────
// Wire format (both directions):
//   [1]  msg_type
//   [32] X25519 public key
//   [2]  payload_len (big-endian)
//   [N]  payload (ML-KEM public key or ciphertext)

/// Message type of a ClientHello.
pub const CLIENT_HELLO_TYPE: u8 = 0x01;

/// Message type of a ServerHello.
pub const SERVER_HELLO_TYPE: u8 = 0x02;

/// The wire form of a handshake message.
pub open spec fn encoded_message(msg_type: u8, x25519_pk: Seq<u8>, payload: Seq<u8>) -> Seq<u8> {
    seq![msg_type] + x25519_pk + encoding::u16_be(payload.len() as u16) + payload
}

/// What reading a handshake message of type `expected` from `data` gives: the
/// X25519 key and the payload, or the reason it is refused. Bytes after the
/// payload are ignored.
pub open spec fn decoded_message(expected: u8, data: Seq<u8>) -> Result<(Seq<u8>, Seq<u8>), CryptoError> {
    if data.len() < 35 {
        Err(CryptoError::MessageTooShort)
    } else if data[0] != expected {
        Err(CryptoError::WrongMessageType(data[0]))
    } else {
        let n = encoding::u16_from_be(data[33], data[34]) as int;
        if data.len() < 35 + n {
            Err(CryptoError::TruncatedMessage)
        } else {
            Ok((data.subrange(1, 33), data.subrange(35, 35 + n)))
        }
    }
}

/// Sent by client: ephemeral X25519 pk + ML-KEM pk
pub struct ClientHello {
    pub x25519_pk: [u8; 32],
    pub mlkem_pk: Vec<u8>,
}

/// Sent by server: ephemeral X25519 pk + ML-KEM ciphertext
pub struct ServerHello {
    pub x25519_pk: [u8; 32],
    pub mlkem_ct: Vec<u8>,
}

/// What the client keeps from its hello: the X25519 secret and the ML-KEM
/// decapsulation-key seed.
pub struct ClientSecrets {
    pub x25519_secret: [u8; 32],
    pub mlkem_sk: Vec<u8>,
}

/// Appends the bytes of `src` to `out`.
fn extend_bytes(out: &mut Vec<u8>, src: &[u8])
    ensures
        final(out)@ == old(out)@ + src@,
{
    let mut i: usize = 0;
    while i < src.len()
        invariant
            i <= src@.len(),
            out@ == old(out)@ + src@.take(i as int),
        decreases src@.len() - i,
    {
        out.push(src[i]);
        assert(old(out)@ + src@.take(i + 1) =~= (old(out)@ + src@.take(i as int)).push(
            src@[i as int],
        ));
        i = i + 1;
    }
    assert(src@.take(src@.len() as int) =~= src@);
}

/// The 32 bytes of `src` starting at `at`.
fn copy_32(src: &[u8], at: usize) -> (a: [u8; 32])
    requires
        at + 32 <= src@.len(),
    ensures
        a@ == src@.subrange(at as int, at + 32),
{
    let mut a = [0u8; 32];
    let mut k: usize = 0;
    while k < 32
        invariant
            k <= 32,
            at + 32 <= src.len(),
            forall|j: int| 0 <= j < k ==> a@[j] == src@[at + j],
        decreases 32 - k,
    {
        a[k] = src[at + k];
        k = k + 1;
    }
    assert(a@ =~= src@.subrange(at as int, at + 32));
    a
}

fn encode_msg(msg_type: u8, x25519_pk: &[u8; 32], payload: &[u8]) -> (out: Vec<u8>)
    requires
        payload@.len() <= 65535,
    ensures
        out@ == encoded_message(msg_type, x25519_pk@, payload@),
{
    let mut out: Vec<u8> = Vec::new();
    out.push(msg_type);
    extend_bytes(&mut out, x25519_pk);
    encoding::push_u16_be(&mut out, payload.len() as u16);
    extend_bytes(&mut out, payload);
    assert(out@ =~= encoded_message(msg_type, x25519_pk@, payload@));
    out
}

fn decode_msg(expected_type: u8, data: &[u8]) -> (r: Result<([u8; 32], Vec<u8>), CryptoError>)
    ensures
        r matches Ok((pk, payload)) ==> decoded_message(expected_type, data@) == Ok::<
            (Seq<u8>, Seq<u8>),
            CryptoError,
        >((pk@, payload@)),
        r matches Err(e) ==> decoded_message(expected_type, data@) == Err::<
            (Seq<u8>, Seq<u8>),
            CryptoError,
        >(e),
{
    if data.len() < 35 {
        return Err(CryptoError::MessageTooShort);
    }
    if data[0] != expected_type {
        return Err(CryptoError::WrongMessageType(data[0]));
    }
    let x25519_pk = copy_32(data, 1);
    let payload_len = (((data[33] as u16) << 8u16) | (data[34] as u16)) as usize;
    if data.len() < 35 + payload_len {
        return Err(CryptoError::TruncatedMessage);
    }
    let payload = vstd::slice::slice_to_vec(vstd::slice::slice_subrange(data, 35, 35 + payload_len));
    Ok((x25519_pk, payload))
}

/// Reading back a written handshake message gives its key and payload, and
/// anything after the message is ignored.
pub proof fn lemma_message_roundtrip(msg_type: u8, x25519_pk: Seq<u8>, payload: Seq<u8>, rest: Seq<u8>)
    requires
        x25519_pk.len() == 32,
        payload.len() <= 65535,
    ensures
        decoded_message(msg_type, encoded_message(msg_type, x25519_pk, payload) + rest) == Ok::<
            (Seq<u8>, Seq<u8>),
            CryptoError,
        >((x25519_pk, payload)),
{
    let len16 = payload.len() as u16;
    let data = encoded_message(msg_type, x25519_pk, payload) + rest;
    encoding::lemma_u16_be_roundtrip(len16);
    assert(data[33] == encoding::u16_be(len16)[0]);
    assert(data[34] == encoding::u16_be(len16)[1]);
    assert(data.subrange(1, 33) =~= x25519_pk);
    assert(data.subrange(35, 35 + payload.len() as int) =~= payload);
}

impl ClientHello {
    /// The wire form of this hello.
    pub open spec fn wire(&self) -> Seq<u8> {
        encoded_message(CLIENT_HELLO_TYPE, self.x25519_pk@, self.mlkem_pk@)
    }

    /// Generate a fresh ClientHello plus the secrets the client must keep.
    pub fn generate() -> (r: (Self, ClientSecrets))
        ensures
            r.0.x25519_pk@ == primitives::x25519_public(r.1.x25519_secret@),
            primitives::mlkem768_ek_well_formed(r.0.mlkem_pk@),
            r.1.mlkem_sk@.len() == primitives::mlkem_seed_len(),
            r.0.mlkem_pk@ == primitives::mlkem768_ek_of_seed(r.1.mlkem_sk@),
    {
        let x25519_secret = primitives::x25519_random_secret();
        let x25519_pk = primitives::x25519_public_key(&x25519_secret);
        let kem = PqKem::new();
        let (mlkem_pk, mlkem_sk) = kem.keypair();
        (ClientHello { x25519_pk, mlkem_pk }, ClientSecrets { x25519_secret, mlkem_sk })
    }

    pub fn to_bytes(&self) -> (out: Vec<u8>)
        requires
            self.mlkem_pk@.len() <= 65535,
        ensures
            out@ == self.wire(),
    {
        encode_msg(CLIENT_HELLO_TYPE, &self.x25519_pk, self.mlkem_pk.as_slice())
    }

    pub fn from_bytes(data: &[u8]) -> (r: Result<Self, CryptoError>)
        ensures
            r matches Ok(h) ==> decoded_message(CLIENT_HELLO_TYPE, data@) == Ok::<
                (Seq<u8>, Seq<u8>),
                CryptoError,
            >((h.x25519_pk@, h.mlkem_pk@)),
            r matches Err(e) ==> decoded_message(CLIENT_HELLO_TYPE, data@) == Err::<
                (Seq<u8>, Seq<u8>),
                CryptoError,
            >(e),
    {
        match decode_msg(CLIENT_HELLO_TYPE, data) {
            Ok((x25519_pk, mlkem_pk)) => Ok(ClientHello { x25519_pk, mlkem_pk }),
            Err(e) => Err(e),
        }
    }
}

impl ServerHello {
    /// The wire form of this hello.
    pub open spec fn wire(&self) -> Seq<u8> {
        encoded_message(SERVER_HELLO_TYPE, self.x25519_pk@, self.mlkem_ct@)
    }

    pub fn to_bytes(&self) -> (out: Vec<u8>)
        requires
            self.mlkem_ct@.len() <= 65535,
        ensures
            out@ == self.wire(),
    {
        encode_msg(SERVER_HELLO_TYPE, &self.x25519_pk, self.mlkem_ct.as_slice())
    }

    pub fn from_bytes(data: &[u8]) -> (r: Result<Self, CryptoError>)
        ensures
            r matches Ok(h) ==> decoded_message(SERVER_HELLO_TYPE, data@) == Ok::<
                (Seq<u8>, Seq<u8>),
                CryptoError,
            >((h.x25519_pk@, h.mlkem_ct@)),
            r matches Err(e) ==> decoded_message(SERVER_HELLO_TYPE, data@) == Err::<
                (Seq<u8>, Seq<u8>),
                CryptoError,
            >(e),
    {
        match decode_msg(SERVER_HELLO_TYPE, data) {
            Ok((x25519_pk, mlkem_ct)) => Ok(ServerHello { x25519_pk, mlkem_ct }),
            Err(e) => Err(e),
        }
    }
}


// ── Completing the handshake from each side ──────────────────────────────────

/// The session key the server derives: from its X25519 secret and the
/// client's public key, and the ML-KEM secret it encapsulated.
pub open spec fn server_session_key(client_pk: Seq<u8>, server_secret: Seq<u8>, mlkem_ss: Seq<u8>) -> Seq<u8> {
    hybrid_key(primitives::x25519_shared(server_secret, client_pk), mlkem_ss)
}

/// The session key the client derives: from its X25519 secret and the
/// server's public key, and the ML-KEM secret its seed recovers from the ciphertext.
pub open spec fn client_session_key(client_secret: Seq<u8>, server_pk: Seq<u8>, seed: Seq<u8>, ct: Seq<u8>) -> Seq<u8> {
    hybrid_key(
        primitives::x25519_shared(client_secret, server_pk),
        primitives::mlkem768_decapsulated(seed, ct),
    )
}

/// Whether a server answered a client whose X25519 public key is `client_pk`
/// and whose ML-KEM encapsulation key is `ek` with the X25519 public key
/// `server_pk` and the ML-KEM ciphertext `ct`, and derived `key`: for some
/// 32-byte X25519 secret `s` and some 32-byte message `m`, `server_pk` is the
/// public key of `s`, `ct` is the encapsulation of `m` to `ek`, and `key` is
/// the session key of `s` and the secret encapsulated with `ct`.
pub open spec fn server_answer(client_pk: Seq<u8>, ek: Seq<u8>, server_pk: Seq<u8>, ct: Seq<u8>, key: Seq<u8>) -> bool {
    exists|s: Seq<u8>, m: Seq<u8>|
        #![trigger server_session_key(client_pk, s, primitives::mlkem768_encapsulated(ek, m).1)]
        s.len() == 32 && m.len() == 32 && server_pk == primitives::x25519_public(s) && ct
            == primitives::mlkem768_encapsulated(ek, m).0 && key == server_session_key(
            client_pk,
            s,
            primitives::mlkem768_encapsulated(ek, m).1,
        )
}

/// Whether `key` is what a client with X25519 secret `client_secret` and
/// ML-KEM seed `seed` derives from a server X25519 public key `server_pk` and
/// ciphertext `ct`, seen from the server's side: a server whose public key is
/// that of `s` has the same X25519 secret, so `key` is the server's session key
/// of `s` and the secret the seed recovers from `ct`.
pub open spec fn client_key_matches(client_secret: Seq<u8>, seed: Seq<u8>, server_pk: Seq<u8>, ct: Seq<u8>, key: Seq<u8>) -> bool {
    forall|s: Seq<u8>|
        s.len() == 32 && server_pk == primitives::x25519_public(s) ==> key == #[trigger] server_session_key(
            primitives::x25519_public(client_secret),
            s,
            primitives::mlkem768_decapsulated(seed, ct),
        )
}

/// Whether decapsulating `ct` with the key grown from `seed` recovers the
/// secret that `ct` was encapsulated with (ML-KEM's correctness, which fails
/// for a vanishing fraction of seeds and messages).
pub open spec fn mlkem768_recovers(seed: Seq<u8>, ct: Seq<u8>) -> bool {
    forall|m: Seq<u8>|
        m.len() == 32 && #[trigger] primitives::mlkem768_encapsulated(
            primitives::mlkem768_ek_of_seed(seed),
            m,
        ).0 == ct ==> primitives::mlkem768_decapsulated(seed, ct)
            == primitives::mlkem768_encapsulated(primitives::mlkem768_ek_of_seed(seed), m).1
}

/// The server's reply and session key for `hello`, given the server's X25519
/// secret and the ML-KEM ciphertext and shared secret it encapsulated.
pub fn server_reply(hello: &ClientHello, server_secret: &[u8; 32], mlkem_ct: Vec<u8>, mlkem_ss: &[u8]) -> (r: (ServerHello, [u8; 32]))
    ensures
        r.0.x25519_pk@ == primitives::x25519_public(server_secret@),
        r.0.mlkem_ct@ == mlkem_ct@,
        r.1@ == server_session_key(hello.x25519_pk@, server_secret@, mlkem_ss@),
{
    let x25519_server_pk = primitives::x25519_public_key(server_secret);
    let x25519_ss = primitives::x25519_diffie_hellman(server_secret, &hello.x25519_pk);
    let session_key = hybrid_shared_secret(&x25519_ss, mlkem_ss);
    (ServerHello { x25519_pk: x25519_server_pk, mlkem_ct }, session_key)
}

/// Server-side: receive ClientHello, derive session key, return ServerHello + key.
pub fn server_derive_key(hello: &ClientHello) -> (r: Result<(ServerHello, [u8; 32]), CryptoError>)
    ensures
        hello.mlkem_pk@.len() != primitives::mlkem768_ek_len() ==> r == Err::<
            (ServerHello, [u8; 32]),
            CryptoError,
        >(CryptoError::InvalidEkLength(hello.mlkem_pk@.len() as usize)),
        hello.mlkem_pk@.len() == primitives::mlkem768_ek_len() && !primitives::mlkem768_ek_well_formed(
            hello.mlkem_pk@,
        ) ==> r == Err::<(ServerHello, [u8; 32]), CryptoError>(CryptoError::InvalidEk),
        r is Ok <==> primitives::mlkem768_ek_well_formed(hello.mlkem_pk@),
        r matches Ok((sh, key)) ==> {
            &&& sh.mlkem_ct@.len() == primitives::mlkem768_ct_len()
            &&& server_answer(hello.x25519_pk@, hello.mlkem_pk@, sh.x25519_pk@, sh.mlkem_ct@, key@)
        },
{
    let x25519_secret = primitives::x25519_random_secret();
    let kem = PqKem::new();
    let (ct_bytes, mlkem_ss_bytes) = match kem.encapsulate(hello.mlkem_pk.as_slice()) {
        Ok(pair) => pair,
        Err(e) => return Err(e),
    };
    let ghost ct = ct_bytes@;
    let (sh, key) = server_reply(hello, &x25519_secret, ct_bytes, mlkem_ss_bytes.as_slice());
    proof {
        let m = choose|m: Seq<u8>|
            #![trigger primitives::mlkem768_encapsulated(hello.mlkem_pk@, m)]
            m.len() == 32 && primitives::mlkem768_encapsulated(hello.mlkem_pk@, m) == (
                ct,
                mlkem_ss_bytes@,
            );
        assert(key@ == server_session_key(
            hello.x25519_pk@,
            x25519_secret@,
            primitives::mlkem768_encapsulated(hello.mlkem_pk@, m).1,
        ));
    }
    Ok((sh, key))
}

/// Client-side: receive ServerHello, derive session key. A server whose
/// X25519 public key is that of `s` derives the same X25519 secret, so the
/// keys agree whenever the ML-KEM secrets do.
pub fn client_derive_key(secrets: ClientSecrets, hello: &ServerHello) -> (r: Result<[u8; 32], CryptoError>)
    ensures
        secrets.mlkem_sk@.len() != primitives::mlkem_seed_len() ==> r == Err::<[u8; 32], CryptoError>(
            CryptoError::InvalidDkSeedLength(secrets.mlkem_sk@.len() as usize),
        ),
        secrets.mlkem_sk@.len() == primitives::mlkem_seed_len() && hello.mlkem_ct@.len()
            != primitives::mlkem768_ct_len() ==> r == Err::<[u8; 32], CryptoError>(
            CryptoError::CiphertextLength(hello.mlkem_ct@.len() as usize),
        ),
        r is Ok <==> secrets.mlkem_sk@.len() == primitives::mlkem_seed_len() && hello.mlkem_ct@.len()
            == primitives::mlkem768_ct_len(),
        r matches Ok(key) ==> key@ == client_session_key(
            secrets.x25519_secret@,
            hello.x25519_pk@,
            secrets.mlkem_sk@,
            hello.mlkem_ct@,
        ),
        r matches Ok(key) ==> client_key_matches(
            secrets.x25519_secret@,
            secrets.mlkem_sk@,
            hello.x25519_pk@,
            hello.mlkem_ct@,
            key@,
        ),
{
    let x25519_ss = primitives::x25519_diffie_hellman(&secrets.x25519_secret, &hello.x25519_pk);
    let kem = PqKem::new();
    let mlkem_ss_bytes = match kem.decapsulate(secrets.mlkem_sk.as_slice(), hello.mlkem_ct.as_slice()) {
        Ok(ss) => ss,
        Err(e) => return Err(e),
    };
    Ok(hybrid_shared_secret(&x25519_ss, mlkem_ss_bytes.as_slice()))
}

/// Both session keys come from the X25519 Diffie-Hellman shared secret, not
/// from any public key: the server's key is HKDF-SHA256 over the shared secret
/// of its X25519 secret with the client's public key followed by the ML-KEM
/// secret it encapsulated, and the client's key is HKDF-SHA256 over the shared
/// secret of its X25519 secret with the server's public key followed by the
/// ML-KEM secret its seed recovers from the ciphertext.
pub proof fn lemma_session_keys_from_shared_secrets(
    client_pk: Seq<u8>,
    server_secret: Seq<u8>,
    mlkem_ss: Seq<u8>,
    client_secret: Seq<u8>,
    server_pk: Seq<u8>,
    seed: Seq<u8>,
    ct: Seq<u8>,
)
    ensures
        server_session_key(client_pk, server_secret, mlkem_ss) == primitives::hkdf_sha256_okm32(
            primitives::x25519_shared(server_secret, client_pk) + mlkem_ss,
            session_key_info(),
        ),
        client_session_key(client_secret, server_pk, seed, ct) == primitives::hkdf_sha256_okm32(
            primitives::x25519_shared(client_secret, server_pk) + primitives::mlkem768_decapsulated(
                seed,
                ct,
            ),
            session_key_info(),
        ),
{
}

/// Both sides arrive at the same session key. A client whose hello carries
/// the X25519 public key of `client_secret` and the encapsulation key grown
/// from `seed` (as `ClientHello::generate` makes it), a server that answered it
/// (as `server_derive_key` does) with `server_pk`, `ct` and `server_key`, and a
/// client key that matches the server's reply (as `client_derive_key` derives
/// it) agree, whenever decapsulating `ct` recovers the secret it carries.
pub proof fn lemma_handshake_keys_agree(
    client_secret: Seq<u8>,
    seed: Seq<u8>,
    server_pk: Seq<u8>,
    ct: Seq<u8>,
    server_key: Seq<u8>,
    client_key: Seq<u8>,
)
    requires
        server_answer(
            primitives::x25519_public(client_secret),
            primitives::mlkem768_ek_of_seed(seed),
            server_pk,
            ct,
            server_key,
        ),
        client_key_matches(client_secret, seed, server_pk, ct, client_key),
        mlkem768_recovers(seed, ct),
    ensures
        server_key == client_key,
{
    let ek = primitives::mlkem768_ek_of_seed(seed);
    let client_pk = primitives::x25519_public(client_secret);
    let (s, m) = choose|s: Seq<u8>, m: Seq<u8>|
        #![trigger server_session_key(client_pk, s, primitives::mlkem768_encapsulated(ek, m).1)]
        s.len() == 32 && m.len() == 32 && server_pk == primitives::x25519_public(s) && ct
            == primitives::mlkem768_encapsulated(ek, m).0 && server_key == server_session_key(
            client_pk,
            s,
            primitives::mlkem768_encapsulated(ek, m).1,
        );
    assert(primitives::mlkem768_decapsulated(seed, ct) == primitives::mlkem768_encapsulated(ek, m).1);
    assert(client_key == server_session_key(client_pk, s, primitives::mlkem768_decapsulated(seed, ct)));
}

/// The holder of the seed recovers the secret encapsulated to the key grown
/// from it: a ciphertext and secret that are an encapsulation to that key (as
/// `PqKem::encapsulate` returns them for the key `PqKem::keypair` returns)
/// decapsulate (as `PqKem::decapsulate` does) to that secret, whenever ML-KEM's
/// correctness holds for the ciphertext.
pub proof fn lemma_decapsulation_recovers(seed: Seq<u8>, ct: Seq<u8>, ss: Seq<u8>)
    requires
        primitives::mlkem768_is_encapsulation(primitives::mlkem768_ek_of_seed(seed), ct, ss),
        mlkem768_recovers(seed, ct),
    ensures
        primitives::mlkem768_decapsulated(seed, ct) == ss,
{
    let ek = primitives::mlkem768_ek_of_seed(seed);
    let m = choose|m: Seq<u8>|
        #![trigger primitives::mlkem768_encapsulated(ek, m)]
        m.len() == 32 && primitives::mlkem768_encapsulated(ek, m) == (ct, ss);
    assert(primitives::mlkem768_encapsulated(ek, m).0 == ct);
}

} // verus!
