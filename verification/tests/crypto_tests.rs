use dvion_vpn::crypto::{
    client_derive_key, hybrid_shared_secret, nonce_from_counter, server_derive_key, server_reply,
    ClientHello, ClientSecrets, CryptoError, PqKem, ServerHello, SessionCipher,
};

/// Both sides must arrive at the same session key.
#[test]
fn handshake_key_agreement() {
    let (client_hello, client_secrets) = ClientHello::generate();

    let (server_hello, server_key) =
        server_derive_key(&client_hello).expect("server_derive_key failed");

    let client_key =
        client_derive_key(client_secrets, &server_hello).expect("client_derive_key failed");

    assert_eq!(server_key, client_key, "session keys differ — handshake broken");
}

/// Encrypt then decrypt must round-trip.
#[test]
fn cipher_round_trip() {
    let key = [0x42u8; 32];
    let mut cipher = SessionCipher::new(&key);
    let plaintext = b"hello dvion vpn";

    let encrypted = cipher.encrypt(plaintext).unwrap();
    let decrypted = cipher.decrypt(&encrypted).unwrap();

    assert_eq!(decrypted, plaintext);
}

/// Two different packets must produce different ciphertexts (counter advances).
#[test]
fn cipher_nonce_is_unique() {
    let mut cipher = SessionCipher::new(&[0u8; 32]);
    let ct1 = cipher.encrypt(b"packet one").unwrap();
    let ct2 = cipher.encrypt(b"packet one").unwrap();
    assert_ne!(ct1, ct2, "same nonce used twice — counter not advancing");
}

/// Tampered ciphertext must fail authentication.
#[test]
fn cipher_rejects_tamper() {
    let mut cipher = SessionCipher::new(&[0u8; 32]);
    let mut ct = cipher.encrypt(b"important packet").unwrap();
    ct[10] ^= 0xff; // flip a byte
    assert!(cipher.decrypt(&ct).is_err(), "tamper not detected");
}

#[test]
fn packet_layout_is_counter_then_sealed_text() {
    let mut cipher = SessionCipher::new(&[7u8; 32]);
    let first = cipher.encrypt(b"abc").unwrap();
    let second = cipher.encrypt(b"abc").unwrap();
    assert_eq!(&first[..8], &[0, 0, 0, 0, 0, 0, 0, 0]);
    assert_eq!(&second[..8], &[0, 0, 0, 0, 0, 0, 0, 1]);
    assert_eq!(first.len(), 8 + 3 + 16);
}

#[test]
fn decrypt_with_other_key_fails() {
    let mut a = SessionCipher::new(&[1u8; 32]);
    let b = SessionCipher::new(&[2u8; 32]);
    let ct = a.encrypt(b"secret").unwrap();
    assert_eq!(b.decrypt(&ct), Err(CryptoError::Decrypt));
}

#[test]
fn decrypt_short_packet() {
    let cipher = SessionCipher::new(&[0u8; 32]);
    assert_eq!(cipher.decrypt(&[1, 2, 3]), Err(CryptoError::PacketTooShort(3)));
    assert_eq!(cipher.decrypt(&[0u8; 8]), Err(CryptoError::Decrypt));
}

#[test]
fn nonce_layout() {
    let n = nonce_from_counter(0x0102_0304_0506_0708);
    assert_eq!(n, [0, 0, 0, 0, 1, 2, 3, 4, 5, 6, 7, 8]);
}

#[test]
fn hello_round_trip_and_trailing_bytes() {
    let hello = ClientHello { x25519_pk: [9u8; 32], mlkem_pk: vec![1, 2, 3] };
    let mut bytes = hello.to_bytes();
    assert_eq!(bytes.len(), 1 + 32 + 2 + 3);
    assert_eq!(bytes[0], 0x01);
    assert_eq!(&bytes[33..35], &[0, 3]);
    bytes.extend_from_slice(&[0xaa, 0xbb]);
    let back = ClientHello::from_bytes(&bytes).unwrap();
    assert_eq!(back.x25519_pk, [9u8; 32]);
    assert_eq!(back.mlkem_pk, vec![1, 2, 3]);
}

#[test]
fn hello_decoding_errors() {
    let sh = ServerHello { x25519_pk: [3u8; 32], mlkem_ct: vec![5; 10] };
    let bytes = sh.to_bytes();
    assert_eq!(bytes[0], 0x02);
    assert!(matches!(ClientHello::from_bytes(&bytes), Err(CryptoError::WrongMessageType(2))));
    assert!(matches!(ServerHello::from_bytes(&bytes[..34]), Err(CryptoError::MessageTooShort)));
    assert!(matches!(
        ServerHello::from_bytes(&bytes[..bytes.len() - 1]),
        Err(CryptoError::TruncatedMessage)
    ));
    let back = ServerHello::from_bytes(&bytes).unwrap();
    assert_eq!(back.mlkem_ct, vec![5; 10]);
}

#[test]
fn kem_errors() {
    let kem = PqKem::new();
    assert!(matches!(kem.encapsulate(&[0u8; 10]), Err(CryptoError::InvalidEkLength(10))));
    // A coefficient of 0xfff is not reduced modulo q.
    assert!(matches!(kem.encapsulate(&[0xffu8; 1184]), Err(CryptoError::InvalidEk)));
    assert!(matches!(kem.decapsulate(&[0u8; 63], &[0u8; 1088]), Err(CryptoError::InvalidDkSeedLength(63))));
    assert!(matches!(kem.decapsulate(&[0u8; 64], &[0u8; 1087]), Err(CryptoError::CiphertextLength(1087))));
}

#[test]
fn kem_round_trip() {
    let kem = PqKem::new();
    let (ek, dk) = kem.keypair();
    assert_eq!(ek.len(), 1184);
    assert_eq!(dk.len(), 64);
    let (ct, ss) = kem.encapsulate(&ek).unwrap();
    assert_eq!(ct.len(), 1088);
    assert_eq!(ss.len(), 32);
    assert_eq!(kem.decapsulate(&dk, &ct).unwrap(), ss);
}

#[test]
fn hybrid_secret_depends_on_both_inputs() {
    let a = hybrid_shared_secret(&[1u8; 32], &[2u8; 32]);
    let b = hybrid_shared_secret(&[1u8; 32], &[3u8; 32]);
    let c = hybrid_shared_secret(&[4u8; 32], &[2u8; 32]);
    assert_ne!(a, b);
    assert_ne!(a, c);
    assert_eq!(a, hybrid_shared_secret(&[1u8; 32], &[2u8; 32]));
}

#[test]
fn hybrid_secret_known_answer() {
    // HKDF-SHA256, no salt, ikm = 32 x 0x01 || 32 x 0x02, info "dvion-vpn-v1-session-key".
    let expected: [u8; 32] = [
        1, 27, 118, 124, 38, 255, 43, 33, 232, 195, 60, 90, 218, 229, 125, 28, 114, 97, 133, 202,
        134, 121, 74, 229, 123, 55, 188, 137, 73, 105, 254, 243,
    ];
    assert_eq!(hybrid_shared_secret(&[1u8; 32], &[2u8; 32]), expected);
}

#[test]
fn server_reply_is_deterministic_in_its_inputs() {
    let hello = ClientHello { x25519_pk: [9u8; 32], mlkem_pk: vec![] };
    let (sh1, k1) = server_reply(&hello, &[5u8; 32], vec![1, 2], &[7u8; 32]);
    let (sh2, k2) = server_reply(&hello, &[5u8; 32], vec![1, 2], &[7u8; 32]);
    assert_eq!(k1, k2);
    assert_eq!(sh1.x25519_pk, sh2.x25519_pk);
    assert_eq!(sh1.mlkem_ct, vec![1, 2]);
    assert_ne!(sh1.x25519_pk, [5u8; 32]);
}

#[test]
fn client_derive_key_errors() {
    let secrets = ClientSecrets { x25519_secret: [1u8; 32], mlkem_sk: vec![0; 10] };
    let sh = ServerHello { x25519_pk: [2u8; 32], mlkem_ct: vec![0; 1088] };
    assert!(matches!(client_derive_key(secrets, &sh), Err(CryptoError::InvalidDkSeedLength(10))));
    let secrets = ClientSecrets { x25519_secret: [1u8; 32], mlkem_sk: vec![0; 64] };
    let sh = ServerHello { x25519_pk: [2u8; 32], mlkem_ct: vec![0; 5] };
    assert!(matches!(client_derive_key(secrets, &sh), Err(CryptoError::CiphertextLength(5))));
}

#[test]
fn error_messages() {
    assert_eq!(CryptoError::InvalidEkLength(10).message(), "invalid EK length: 10 bytes");
    assert_eq!(CryptoError::InvalidEk.message(), "invalid EK: InvalidKey");
    assert_eq!(CryptoError::InvalidDkSeedLength(0).message(), "invalid DK seed length: 0 bytes");
    assert_eq!(
        CryptoError::CiphertextLength(1087).message(),
        "ML-KEM ciphertext has wrong length: 1087 bytes"
    );
    assert_eq!(CryptoError::MessageTooShort.message(), "message too short");
    assert_eq!(CryptoError::WrongMessageType(0x0a).message(), "wrong msg type: got 0x0a");
    assert_eq!(CryptoError::WrongMessageType(0xff).message(), "wrong msg type: got 0xff");
    assert_eq!(CryptoError::TruncatedMessage.message(), "truncated message");
    assert_eq!(CryptoError::PacketTooShort(7).message(), "packet too short (7 bytes)");
    assert_eq!(CryptoError::Encrypt.message(), "encrypt: aead::Error");
    assert_eq!(CryptoError::Decrypt.message(), "decrypt: aead::Error");
}

#[test]
fn packets_shorter_than_counter_and_tag_are_refused() {
    let cipher = SessionCipher::new(&[0u8; 32]);
    for n in 8..24 {
        assert_eq!(cipher.decrypt(&vec![0u8; n]), Err(CryptoError::Decrypt));
    }
}

#[test]
fn encrypted_length_is_counter_plus_plaintext_plus_tag() {
    let mut cipher = SessionCipher::new(&[3u8; 32]);
    for n in [0usize, 1, 100] {
        assert_eq!(cipher.encrypt(&vec![9u8; n]).unwrap().len(), 8 + n + 16);
    }
}
