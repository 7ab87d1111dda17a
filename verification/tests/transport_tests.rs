use dvion_vpn::crypto::SessionCipher;
use dvion_vpn::transport::{
    cert_fingerprint, client_auth_request, client_auth_response, client_handshake_finish,
    client_handshake_start, fmt_fingerprint, format_ipv4, frame_header, frame_len, key_is_valid,
    open_text, optional_fingerprint, parse_fingerprint, parse_ipv4, server_auth_reply,
    server_handshake, verify_cert_fingerprint, AuthError, AuthReply, FingerprintError, FrameError,
    ServerState, MAX_FRAME_LEN,
};

#[test]
fn frame_header_round_trip() {
    assert_eq!(frame_header(0x0102), [0, 0, 1, 2]);
    for n in [0usize, 1, 255, 256, 1500, MAX_FRAME_LEN] {
        assert_eq!(frame_len(&frame_header(n)), Ok(n));
    }
    assert_eq!(frame_len(&[0, 1, 0, 1]), Err(FrameError::TooLarge(65_537)));
}

#[test]
fn fingerprint_format() {
    assert_eq!(fmt_fingerprint(&[0xab, 0x01, 0xff]), "AB:01:FF");
    assert_eq!(fmt_fingerprint(&[]), "");
}

#[test]
fn fingerprint_round_trip() {
    let bytes: Vec<u8> = (0u8..32).map(|i| i.wrapping_mul(37)).collect();
    let text = fmt_fingerprint(&bytes);
    assert_eq!(parse_fingerprint(&text).unwrap(), bytes);
}

#[test]
fn fingerprint_parse_is_lenient_like_from_str_radix() {
    let mut segs: Vec<String> = vec!["aa".to_string(); 32];
    segs[0] = " +f ".to_string();
    segs[1] = "0ff".to_string();
    let text = segs.join(":");
    let b = parse_fingerprint(&text).unwrap();
    assert_eq!(b[0], 0x0f);
    assert_eq!(b[1], 0xff);
    assert_eq!(b[2], 0xaa);
}

#[test]
fn fingerprint_errors() {
    match parse_fingerprint("AA:BB") {
        Err(FingerprintError::WrongLength(2)) => {}
        other => panic!("unexpected {:?}", other),
    }
    match parse_fingerprint("AA:G1:BB") {
        Err(FingerprintError::InvalidSegment(s)) => assert_eq!(s, "G1"),
        other => panic!("unexpected {:?}", other),
    }
    match parse_fingerprint("AA:100") {
        Err(FingerprintError::InvalidSegment(s)) => assert_eq!(s, "100"),
        other => panic!("unexpected {:?}", other),
    }
    match parse_fingerprint("") {
        Err(FingerprintError::InvalidSegment(s)) => assert_eq!(s, ""),
        other => panic!("unexpected {:?}", other),
    }
    assert!(optional_fingerprint("").is_none());
    assert!(optional_fingerprint("zz").is_none());
    let good = fmt_fingerprint(&[7u8; 32]);
    assert_eq!(optional_fingerprint(&good), Some(vec![7u8; 32]));
}

#[test]
fn ipv4_text() {
    assert_eq!(format_ipv4(0x0a00_00fe), "10.0.0.254");
    assert_eq!(format_ipv4(0xc0a8_0001), "192.168.0.1");
    assert_eq!(parse_ipv4("10.0.0.2"), Some(0x0a00_0002));
    assert_eq!(parse_ipv4("255.255.255.255"), Some(u32::MAX));
    assert_eq!(parse_ipv4("0.0.0.0"), Some(0));
    for bad in ["10.0.0", "10.0.0.256", "10.0.0.01", "1.2.3.4.5", "a.b.c.d", " 1.2.3.4", "", "FAIL"] {
        assert_eq!(parse_ipv4(bad), None, "{bad}");
    }
    for ip in [0u32, 1, 0x0a00_0002, 0x7f00_0001, 0xffff_ffff, 0x0102_0304] {
        assert_eq!(parse_ipv4(&format_ipv4(ip)), Some(ip));
        let o = ip.to_be_bytes();
        assert_eq!(format_ipv4(ip), format!("{}.{}.{}.{}", o[0], o[1], o[2], o[3]));
    }
}

#[test]
fn keys_file_matching() {
    let keys = "dvion-aaa\r\n  dvion-bbb  \n\ndvion-ccc";
    assert!(key_is_valid(keys, "dvion-aaa"));
    assert!(key_is_valid(keys, "dvion-bbb"));
    assert!(key_is_valid(keys, "dvion-ccc"));
    assert!(!key_is_valid(keys, "dvion-ddd"));
    assert!(!key_is_valid(keys, "dvion-aa"));
    assert!(key_is_valid(keys, ""));
    assert!(!key_is_valid("dvion-aaa\n", ""));
    assert!(!key_is_valid("", ""));
    assert!(!key_is_valid("", "dvion-aaa"));
}

#[test]
fn server_state_pool_and_routes() {
    let mut st: ServerState<u8> = ServerState::new();
    assert_eq!(st.assign_ip(), Some(0x0a00_00fe));
    assert_eq!(st.assign_ip(), Some(0x0a00_00fd));
    st.release_ip(0x0a00_00fd);
    assert_eq!(st.assign_ip(), Some(0x0a00_00fd));
    let mut count = 2;
    while st.assign_ip().is_some() {
        count += 1;
    }
    assert_eq!(count, 253);

    let mut pkt = vec![0u8; 20];
    pkt[16..20].copy_from_slice(&[10, 0, 0, 7]);
    assert_eq!(st.route(&pkt), None);
    st.register(0x0a00_0007, 42);
    assert_eq!(st.route(&pkt), Some(&42));
    assert_eq!(st.route(&pkt[..19]), None);
    st.unregister(0x0a00_0007);
    assert_eq!(st.route(&pkt), None);
}

#[test]
fn handshake_over_frames() {
    let (hello, secrets) = client_handshake_start();
    let (reply, mut server_cipher) = server_handshake(&hello).unwrap();
    let mut client_cipher = client_handshake_finish(secrets, &reply).unwrap();
    let ct = client_cipher.encrypt(b"ping").unwrap();
    assert_eq!(server_cipher.decrypt(&ct).unwrap(), b"ping");
    let ct = server_cipher.encrypt(b"pong").unwrap();
    assert_eq!(client_cipher.decrypt(&ct).unwrap(), b"pong");
}

#[test]
fn handshake_refuses_bad_frames() {
    assert!(server_handshake(&[1, 2, 3]).is_err());
    let (_hello, secrets) = client_handshake_start();
    assert!(client_handshake_finish(secrets, &[0u8; 40]).is_err());
}

#[test]
fn auth_accepts_listed_key() {
    let key = [5u8; 32];
    let mut client = SessionCipher::new(&key);
    let mut server = SessionCipher::new(&key);
    let mut st: ServerState<()> = ServerState::new();
    let req = client_auth_request(&mut client, "dvion-abc").unwrap();
    let token = open_text(&server, &req).unwrap();
    assert_eq!(token, "dvion-abc");
    match server_auth_reply(&mut server, &mut st, "dvion-xyz\ndvion-abc\n", &token) {
        AuthReply::Accepted { ip, reply } => {
            assert_eq!(ip, 0x0a00_00fe);
            assert_eq!(client_auth_response(&client, &reply), Ok(0x0a00_00fe));
        }
        _ => panic!("expected acceptance"),
    }
}

#[test]
fn auth_rejects_unlisted_key() {
    let key = [6u8; 32];
    let client = SessionCipher::new(&key);
    let mut server = SessionCipher::new(&key);
    let mut st: ServerState<()> = ServerState::new();
    match server_auth_reply(&mut server, &mut st, "dvion-xyz\n", "dvion-abc") {
        AuthReply::Rejected { reply } => {
            assert_eq!(client_auth_response(&client, &reply), Err(AuthError::Rejected));
        }
        _ => panic!("expected rejection"),
    }
    assert_eq!(st.assign_ip(), Some(0x0a00_00fe));
}

#[test]
fn auth_pool_exhausted() {
    let mut server = SessionCipher::new(&[1u8; 32]);
    let mut st: ServerState<()> = ServerState::new();
    while st.assign_ip().is_some() {}
    assert!(matches!(
        server_auth_reply(&mut server, &mut st, "k\n", "k"),
        AuthReply::PoolExhausted
    ));
}

#[test]
fn auth_response_errors() {
    let key = [8u8; 32];
    let mut server = SessionCipher::new(&key);
    let client = SessionCipher::new(&key);
    let reply = server.encrypt(b"not an ip").unwrap();
    assert_eq!(client_auth_response(&client, &reply), Err(AuthError::InvalidAddress));
    let reply = server.encrypt(&[0xff, 0xfe]).unwrap();
    assert_eq!(client_auth_response(&client, &reply), Err(AuthError::NotUtf8));
    assert!(matches!(client_auth_response(&client, &[1, 2]), Err(AuthError::Crypto(_))));
}

#[test]
fn cert_pinning() {
    let cert = b"not really a certificate";
    let fp = cert_fingerprint(cert);
    assert_eq!(fp.len(), 32);
    assert_ne!(fp, cert.to_vec());
    assert_eq!(
        fmt_fingerprint(&cert_fingerprint(b"abc")),
        "BA:78:16:BF:8F:01:CF:EA:41:41:40:DE:5D:AE:22:23:B0:03:61:A3:96:17:7A:9C:B4:10:FF:61:F2:00:15:AD"
    );
    assert!(verify_cert_fingerprint(&fp, cert).is_ok());
    let msg = verify_cert_fingerprint(&[0u8; 32], cert).unwrap_err();
    assert!(msg.starts_with("cert fingerprint mismatch\n  expected: 00:00"));
    assert!(msg.contains(&format!("\n  got:      {}", fmt_fingerprint(&fp))));
}
