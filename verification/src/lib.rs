//! Post-quantum hybrid VPN core: handshake messages, session encryption,
//! framing, authentication, address pool and route planning.

pub mod encoding;
pub mod text;
pub mod primitives;
pub mod crypto;
pub mod transport;
pub mod routing;
pub mod keygen;
