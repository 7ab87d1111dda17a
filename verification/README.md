# dvion_vpn

A post-quantum hybrid VPN: X25519 + ML-KEM-768 key exchange, ChaCha20-Poly1305
session encryption with counter nonces, over QUIC.

The library in `src/` is written in Verus; every function in it carries a
contract that Verus proves:

- `encoding` — big-endian integer encodings used on the wire.
- `text` — whitespace trimming, splitting, tokens and number parsing on text,
  specified character by character.
- `primitives` — the cryptographic primitives (ChaCha20-Poly1305, HKDF-SHA256,
  SHA-256, X25519, ML-KEM-768, constant-time comparison, randomness), each
  behind one small trusted function whose contract states what its crate
  documents.
- `crypto` — the KEM wrapper, hybrid key derivation, the session cipher and
  the handshake messages.
- `transport` — frame headers, certificate fingerprints, auth-key checking,
  the server's address pool and routing table, the authentication exchange
  and the computing steps of both handshakes.
- `routing` — reading the default route, and the `ip` / `iptables` commands
  for full-tunnel mode and NAT, with their rollbacks.
- `keygen` — auth-key generation.

`app/` holds the program around the library: the command line, QUIC endpoints
and streams, TUN devices, running `ip` and `iptables`, and the JNI bridge.
