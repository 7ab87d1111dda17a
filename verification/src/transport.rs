//! Framing, certificate fingerprints, authentication, the server's address
//! pool and routing table, and the computing steps of both handshakes.
use crate::crypto;
use crate::encoding;
use crate::primitives;
use crate::text;
use vstd::prelude::*;
use std::collections::HashMap;
use vstd::string::*;

verus! {

// ── Framing ──────────────────────────────────────────────────────────────────

/// The largest frame payload a reader accepts.
pub const MAX_FRAME_LEN: usize = 65_536;

/// A frame's header: the payload length as a big-endian `u32`.
pub open spec fn frame_header_bytes(len: usize) -> Seq<u8> {
    encoding::u32_be(len as u32)
}

/// Why a frame is refused.
#[derive(Debug, Clone, Copy, PartialEq, Eq, Structural)]
pub enum FrameError {
    /// The header announces more than `MAX_FRAME_LEN` bytes.
    TooLarge(usize),
}

/// The 4-byte header written before a frame of `len` bytes.
pub fn frame_header(len: usize) -> (h: [u8; 4])
    ensures
        h@ == frame_header_bytes(len),
{
    let v = len as u32;
    let h: [u8; 4] = [
        (v >> 24u32) as u8,
        ((v >> 16u32) & 0xffu32) as u8,
        ((v >> 8u32) & 0xffu32) as u8,
        (v & 0xffu32) as u8,
    ];
    assert(h@ =~= frame_header_bytes(len));
    h
}

/// The payload length announced by a frame header, refused above `MAX_FRAME_LEN`.
pub fn frame_len(header: &[u8; 4]) -> (r: Result<usize, FrameError>)
    ensures
        ({
            let n = encoding::u32_from_be(header@[0], header@[1], header@[2], header@[3]);
            &&& n <= MAX_FRAME_LEN ==> r == Ok::<usize, FrameError>(n as usize)
            &&& n > MAX_FRAME_LEN ==> r == Err::<usize, FrameError>(FrameError::TooLarge(n as usize))
        }),
{
    let n = ((header[0] as u32) << 24u32) | ((header[1] as u32) << 16u32) | ((header[2] as u32)
        << 8u32) | (header[3] as u32);
    if n as usize > MAX_FRAME_LEN {
        Err(FrameError::TooLarge(n as usize))
    } else {
        Ok(n as usize)
    }
}

/// A frame header written for an acceptable length reads back as that length.
pub proof fn lemma_frame_header_roundtrip(len: usize)
    requires
        len <= MAX_FRAME_LEN,
    ensures
        ({
            let h = frame_header_bytes(len);
            encoding::u32_from_be(h[0], h[1], h[2], h[3]) == len
        }),
{
    assert((len as u32) as int == len as int);
    encoding::lemma_u32_be_roundtrip(len as u32);
}


// ── Certificate fingerprints ─────────────────────────────────────────────────

/// A fingerprint as text: each byte as two upper-case hex digits, joined by `:`.
pub open spec fn fingerprint_text(bytes: Seq<u8>) -> Seq<char>
    decreases bytes.len(),
{
    if bytes.len() == 0 {
        Seq::<char>::empty()
    } else if bytes.len() == 1 {
        text::byte_hex(bytes[0])
    } else {
        fingerprint_text(bytes.drop_last()) + seq![':'] + text::byte_hex(bytes.last())
    }
}

/// Appends the two hex digits of `b`.
fn push_byte_hex(out: &mut String, b: u8)
    ensures
        final(out)@ == old(out)@ + text::byte_hex(b),
{
    out.push(text::hex_upper_char(b / 16));
    out.push(text::hex_upper_char(b % 16));
    assert(out@ =~= old(out)@ + text::byte_hex(b));
}

/// Format a raw fingerprint as `AA:BB:CC:...` uppercase hex.
pub fn fmt_fingerprint(bytes: &[u8]) -> (s: String)
    ensures
        s@ == fingerprint_text(bytes@),
{
    let mut s = String::new();
    let mut i: usize = 0;
    while i < bytes.len()
        invariant
            i <= bytes@.len(),
            s@ == fingerprint_text(bytes@.take(i as int)),
        decreases bytes@.len() - i,
    {
        let ghost prev = bytes@.take(i as int);
        assert(bytes@.take(i + 1).drop_last() =~= prev);
        assert(bytes@.take(i + 1).last() == bytes@[i as int]);
        if i > 0 {
            s.push(':');
        } else {
            assert(bytes@.take(1) =~= seq![bytes@[0]]);
            assert(s@ =~= Seq::<char>::empty());
        }
        push_byte_hex(&mut s, bytes[i]);
        i = i + 1;
    }
    assert(bytes@.take(bytes@.len() as int) =~= bytes@);
    s
}

/// Why a fingerprint string is refused.
#[derive(Debug)]
pub enum FingerprintError {
    /// A `:`-separated segment (shown as written) that is not a hex byte.
    InvalidSegment(String),
    /// The number of segments, when it is not 32.
    WrongLength(usize),
}

/// The byte a fingerprint segment stands for, if any: the segment trimmed and
/// read as hexadecimal.
pub open spec fn segment_byte(seg: Seq<char>) -> Option<u8> {
    text::parse_hex_u8(text::trim(seg))
}

/// Whether every segment stands for a byte.
pub open spec fn all_segments_valid(segs: Seq<Seq<char>>) -> bool {
    forall|i: int| 0 <= i < segs.len() ==> #[trigger] segment_byte(segs[i]) is Some
}

/// Parse a `AA:BB:CC:...` fingerprint string into raw bytes.
pub fn parse_fingerprint(s: &str) -> (r: Result<Vec<u8>, FingerprintError>)
    ensures
        ({
            let segs = text::split_on(s@, ':');
            &&& r is Ok <==> all_segments_valid(segs) && segs.len() == 32
            &&& r matches Ok(b) ==> b@.len() == segs.len() && forall|i: int|
                0 <= i < segs.len() ==> segment_byte(segs[i]) == Some(#[trigger] b@[i])
            &&& r matches Err(FingerprintError::InvalidSegment(t)) ==> exists|i: int|
                0 <= i < segs.len() && segs[i] == t@ && segment_byte(segs[i]) is None && forall|j: int|
                    0 <= j < i ==> #[trigger] segment_byte(segs[j]) is Some
            &&& r matches Err(FingerprintError::WrongLength(n)) ==> all_segments_valid(segs) && n
                == segs.len() && n != 32
        }),
{
    let cs = text::chars_of(s);
    let bounds = text::split_bounds(cs.as_slice(), ':');
    let ghost segs = text::split_on(s@, ':');
    let mut out: Vec<u8> = Vec::new();
    let mut j: usize = 0;
    while j < bounds.len()
        invariant
            cs@ == s@,
            segs == text::split_on(s@, ':'),
            text::windows(cs@, bounds@) == segs,
            text::bounds_within(bounds@, cs@.len() as int),
            j <= bounds@.len(),
            out@.len() == j,
            forall|i: int| 0 <= i < j ==> segment_byte(segs[i]) == Some(#[trigger] out@[i]),
        decreases bounds@.len() - j,
    {
        let (lo, hi) = bounds[j];
        assert(segs[j as int] == cs@.subrange(lo as int, hi as int));
        assert(lo <= hi <= cs@.len()) by {
            assert(bounds@[j as int].0 <= bounds@[j as int].1 <= cs@.len());
        }
        let (a, b) = text::trim_bounds(cs.as_slice(), lo, hi);
        let parsed = text::parse_hex_u8_in(cs.as_slice(), a, b);
        assert(parsed == segment_byte(segs[j as int]));
        match parsed {
            Some(v) => {
                out.push(v);
                assert(forall|i: int|
                    0 <= i < j + 1 ==> segment_byte(segs[i]) == Some(#[trigger] out@[i]));
            },
            None => {
                let seg = s.substring_char(lo, hi);
                let t = seg.to_owned();
                assert forall|i: int| 0 <= i < j implies #[trigger] segment_byte(segs[i]) is Some by {
                    assert(segment_byte(segs[i]) == Some(out@[i]));
                }
                return Err(FingerprintError::InvalidSegment(t));
            },
        }
        j = j + 1;
    }
    assert(segs.len() == bounds@.len());
    assert forall|i: int| 0 <= i < segs.len() implies #[trigger] segment_byte(segs[i]) is Some by {
        assert(segment_byte(segs[i]) == Some(out@[i]));
    }
    assert(all_segments_valid(segs));
    if out.len() != 32 {
        return Err(FingerprintError::WrongLength(out.len()));
    }
    Ok(out)
}


/// The segments of a formatted fingerprint are the hex forms of its bytes.
proof fn lemma_fingerprint_segments(b: Seq<u8>)
    requires
        b.len() >= 1,
    ensures
        text::split_on(fingerprint_text(b), ':') == b.map_values(|x: u8| text::byte_hex(x)),
    decreases b.len(),
{
    text::lemma_byte_hex_parses(b.last());
    if b.len() == 1 {
        text::lemma_split_on_no_sep(text::byte_hex(b[0]), ':');
        assert(b.map_values(|x: u8| text::byte_hex(x)) =~= seq![text::byte_hex(b[0])]);
    } else {
        let d = b.drop_last();
        lemma_fingerprint_segments(d);
        text::lemma_split_on_join(fingerprint_text(d), text::byte_hex(b.last()), ':');
        text::lemma_split_on_no_sep(text::byte_hex(b.last()), ':');
        assert(b.map_values(|x: u8| text::byte_hex(x)) =~= d.map_values(|x: u8| text::byte_hex(x))
            + seq![text::byte_hex(b.last())]);
    }
}

/// A fingerprint formatted by `fmt_fingerprint` parses back to the same bytes:
/// every segment is valid, there is one per byte, and each stands for its byte.
pub proof fn lemma_fingerprint_roundtrip(b: Seq<u8>)
    requires
        b.len() >= 1,
    ensures
        ({
            let segs = text::split_on(fingerprint_text(b), ':');
            &&& segs.len() == b.len()
            &&& all_segments_valid(segs)
            &&& forall|i: int| 0 <= i < b.len() ==> #[trigger] segment_byte(segs[i]) == Some(b[i])
        }),
{
    lemma_fingerprint_segments(b);
    let segs = text::split_on(fingerprint_text(b), ':');
    assert forall|i: int| 0 <= i < b.len() implies #[trigger] segment_byte(segs[i]) == Some(b[i]) by {
        text::lemma_byte_hex_parses(b[i]);
    }
    assert forall|i: int| 0 <= i < segs.len() implies #[trigger] segment_byte(segs[i]) is Some by {
        text::lemma_byte_hex_parses(b[i]);
    }
}


// ── IPv4 addresses as text ───────────────────────────────────────────────────

/// An IPv4 address, held as a `u32` whose big-endian bytes are its octets.
pub open spec fn ipv4_text(ip: u32) -> Seq<char> {
    let o = encoding::u32_be(ip);
    text::dec_u8_text(o[0]) + seq!['.'] + text::dec_u8_text(o[1]) + seq!['.'] + text::dec_u8_text(
        o[2],
    ) + seq!['.'] + text::dec_u8_text(o[3])
}

/// The address dotted-quad text stands for, as `Ipv4Addr::from_str` reads it:
/// exactly four `.`-separated octets.
pub open spec fn parsed_ipv4(s: Seq<char>) -> Option<u32> {
    let p = text::split_on(s, '.');
    if p.len() == 4 && text::parse_octet(p[0]) is Some && text::parse_octet(p[1]) is Some
        && text::parse_octet(p[2]) is Some && text::parse_octet(p[3]) is Some {
        Some(
            encoding::u32_from_be(
                text::parse_octet(p[0])->0,
                text::parse_octet(p[1])->0,
                text::parse_octet(p[2])->0,
                text::parse_octet(p[3])->0,
            ),
        )
    } else {
        None
    }
}

/// The dotted-quad text of an address, as `Ipv4Addr`'s `Display` writes it.
pub fn format_ipv4(ip: u32) -> (s: String)
    ensures
        s@ == ipv4_text(ip),
{
    let mut s = String::new();
    text::push_dec_u8(&mut s, (ip >> 24u32) as u8);
    s.push('.');
    text::push_dec_u8(&mut s, ((ip >> 16u32) & 0xffu32) as u8);
    s.push('.');
    text::push_dec_u8(&mut s, ((ip >> 8u32) & 0xffu32) as u8);
    s.push('.');
    text::push_dec_u8(&mut s, (ip & 0xffu32) as u8);
    assert(s@ =~= ipv4_text(ip));
    s
}

/// Reads dotted-quad text as an address.
pub fn parse_ipv4(s: &str) -> (r: Option<u32>)
    ensures
        r == parsed_ipv4(s@),
{
    let cs = text::chars_of(s);
    let bounds = text::split_bounds(cs.as_slice(), '.');
    let ghost p = text::split_on(s@, '.');
    assert(p.len() == bounds@.len());
    if bounds.len() != 4 {
        return None;
    }
    let mut octets = [0u8; 4];
    let mut j: usize = 0;
    while j < 4
        invariant
            cs@ == s@,
            p == text::split_on(s@, '.'),
            text::windows(cs@, bounds@) == p,
            text::bounds_within(bounds@, cs@.len() as int),
            bounds@.len() == 4,
            j <= 4,
            forall|i: int| 0 <= i < j ==> text::parse_octet(p[i]) == Some(#[trigger] octets@[i]),
        decreases 4 - j,
    {
        let (lo, hi) = bounds[j];
        assert(lo <= hi <= cs@.len()) by {
            assert(bounds@[j as int].0 <= bounds@[j as int].1 <= cs@.len());
        }
        match text::parse_octet_in(cs.as_slice(), lo, hi) {
            Some(v) => {
                octets[j] = v;
            },
            None => {
                return None;
            },
        }
        j = j + 1;
    }
    assert(text::parse_octet(p[0]) == Some(octets@[0]));
    assert(text::parse_octet(p[1]) == Some(octets@[1]));
    assert(text::parse_octet(p[2]) == Some(octets@[2]));
    assert(text::parse_octet(p[3]) == Some(octets@[3]));
    Some(((octets[0] as u32) << 24u32) | ((octets[1] as u32) << 16u32) | ((octets[2] as u32)
        << 8u32) | (octets[3] as u32))
}

/// The text of an address reads back as that address.
pub proof fn lemma_ipv4_roundtrip(ip: u32)
    ensures
        parsed_ipv4(ipv4_text(ip)) == Some(ip),
{
    let o = encoding::u32_be(ip);
    let t0 = text::dec_u8_text(o[0]);
    let t1 = text::dec_u8_text(o[1]);
    let t2 = text::dec_u8_text(o[2]);
    let t3 = text::dec_u8_text(o[3]);
    text::lemma_dec_u8_parses(o[0]);
    text::lemma_dec_u8_parses(o[1]);
    text::lemma_dec_u8_parses(o[2]);
    text::lemma_dec_u8_parses(o[3]);
    text::lemma_split_on_no_sep(t0, '.');
    text::lemma_split_on_no_sep(t1, '.');
    text::lemma_split_on_no_sep(t2, '.');
    text::lemma_split_on_no_sep(t3, '.');
    let a = t0 + seq!['.'] + t1;
    let b = a + seq!['.'] + t2;
    text::lemma_split_on_join(t0, t1, '.');
    text::lemma_split_on_join(a, t2, '.');
    text::lemma_split_on_join(b, t3, '.');
    assert(ipv4_text(ip) == b + seq!['.'] + t3);
    let p = text::split_on(ipv4_text(ip), '.');
    assert(p =~= seq![t0, t1, t2, t3]);
    encoding::lemma_u32_be_roundtrip(ip);
}

// ── Auth keys ────────────────────────────────────────────────────────────────

/// Whether `token` is one of the keys listed in `keys`, one per line, each
/// line trimmed of surrounding whitespace.
pub open spec fn token_listed(keys: Seq<char>, token: Seq<char>) -> bool {
    exists|i: int|
        0 <= i < text::lines_of(keys).len() && #[trigger] text::trim(text::lines_of(keys)[i]) == token
}

/// Checks `token` against every listed key. Every line is compared (no early
/// exit) in constant time, so the time taken does not tell which key matched,
/// or whether any did.
pub fn key_is_valid(keys: &str, token: &str) -> (valid: bool)
    ensures
        valid == token_listed(keys@, token@),
{
    let cs = text::chars_of(keys);
    let bounds = text::split_bounds(cs.as_slice(), '\n');
    let ghost pieces = text::split_on(keys@, '\n');
    proof {
        text::lemma_split_on_nonempty(keys@, '\n');
        text::lemma_lines_trimmed(keys@);
    }
    let n = bounds.len();
    let (last_lo, last_hi) = bounds[n - 1];
    let count = if last_lo == last_hi {
        n - 1
    } else {
        n
    };
    assert(pieces[n - 1] == cs@.subrange(last_lo as int, last_hi as int));
    assert(count == text::line_count(keys@));
    let token_bytes = token.as_bytes();
    let mut matched: u8 = 0;
    let mut j: usize = 0;
    while j < count
        invariant
            cs@ == keys@,
            pieces == text::split_on(keys@, '\n'),
            text::windows(cs@, bounds@) == pieces,
            text::bounds_within(bounds@, cs@.len() as int),
            count <= bounds@.len(),
            count == text::line_count(keys@),
            token_bytes@ == token.spec_bytes(),
            j <= count,
            matched <= 1,
            matched == 1 <==> exists|i: int|
                0 <= i < j && #[trigger] text::trim(pieces[i]) == token@,
        decreases count - j,
    {
        let (lo, hi) = bounds[j];
        assert(lo <= hi <= cs@.len()) by {
            assert(bounds@[j as int].0 <= bounds@[j as int].1 <= cs@.len());
        }
        let (a, b) = text::trim_bounds(cs.as_slice(), lo, hi);
        let candidate = keys.substring_char(a, b);
        assert(candidate@ == text::trim(pieces[j as int]));
        let candidate_bytes = candidate.as_bytes();
        let mut c: u8 = 0;
        if candidate_bytes.len() == token_bytes.len() {
            c = primitives::ct_eq_bytes(candidate_bytes, token_bytes);
        }
        proof {
            vstd::utf8::encode_utf8_decode_utf8(candidate@);
            vstd::utf8::encode_utf8_decode_utf8(token@);
        }
        assert(c == 1 <==> candidate@ == token@);
        let old_matched = matched;
        matched = matched | c;
        assert(old_matched <= 1 && c <= 1 ==> (old_matched | c) <= 1 && ((old_matched | c) == 1
            <==> (old_matched == 1 || c == 1))) by (bit_vector);
        j = j + 1;
    }
    proof {
        if matched == 1 {
            let i = choose|i: int| 0 <= i < count && #[trigger] text::trim(pieces[i]) == token@;
            assert(text::trim(text::lines_of(keys@)[i]) == token@);
        }
        if token_listed(keys@, token@) {
            let i = choose|i: int|
                0 <= i < text::lines_of(keys@).len() && #[trigger] text::trim(
                    text::lines_of(keys@)[i],
                ) == token@;
            assert(text::trim(pieces[i]) == token@);
        }
    }
    matched == 1
}


// ── Server state: address pool and routing table ─────────────────────────────

/// The addresses handed to clients at start: 10.0.0.2 through 10.0.0.254,
/// in ascending order (the last is handed out first).
pub open spec fn initial_pool() -> Seq<u32> {
    Seq::new(253, |i: int| (0x0a00_0002 + i) as u32)
}

/// The destination address of an IPv4 packet: bytes 16 to 19 of its header.
pub open spec fn packet_destination(pkt: Seq<u8>) -> u32 {
    encoding::u32_from_be(pkt[16], pkt[17], pkt[18], pkt[19])
}

/// The server's pool of client addresses and its routing table from a
/// client's address to the handle `T` that reaches that client.
pub struct ServerState<T> {
    ip_pool: Vec<u32>,
    routing_table: HashMap<u32, T>,
}

impl<T> ServerState<T> {
    /// The free addresses; the last one is handed out next.
    pub closed spec fn pool(&self) -> Seq<u32> {
        self.ip_pool@
    }

    /// The registered clients.
    pub closed spec fn routes(&self) -> Map<u32, T> {
        self.routing_table@
    }

    pub fn new() -> (s: Self)
        ensures
            s.pool() == initial_pool(),
            s.routes() == Map::<u32, T>::empty(),
    {
        let mut pool: Vec<u32> = Vec::new();
        let mut i: u32 = 2;
        while i <= 254
            invariant
                2 <= i <= 255,
                pool@ == initial_pool().take(i - 2),
            decreases 255 - i,
        {
            pool.push(0x0a00_0000u32 | i);
            assert((0x0a00_0000u32 | i) == 0x0a00_0000u32 + i) by (bit_vector)
                requires
                    2 <= i <= 254,
            ;
            assert(initial_pool().take(i - 1) =~= initial_pool().take(i - 2).push(
                (0x0a00_0002 + (i - 2)) as u32,
            ));
            i = i + 1;
        }
        assert(initial_pool().take(253) =~= initial_pool());
        ServerState { ip_pool: pool, routing_table: HashMap::new() }
    }

    /// Takes the next free address, if any is left.
    pub fn assign_ip(&mut self) -> (ip: Option<u32>)
        ensures
            old(self).pool().len() == 0 ==> ip is None && final(self).pool() == old(self).pool(),
            old(self).pool().len() > 0 ==> ip == Some(old(self).pool().last()) && final(self).pool()
                == old(self).pool().drop_last(),
            final(self).routes() == old(self).routes(),
    {
        self.ip_pool.pop()
    }

    /// Returns an address to the pool.
    pub fn release_ip(&mut self, ip: u32)
        ensures
            final(self).pool() == old(self).pool().push(ip),
            final(self).routes() == old(self).routes(),
    {
        self.ip_pool.push(ip);
    }

    /// Routes packets for `ip` to `tx`.
    pub fn register(&mut self, ip: u32, tx: T)
        ensures
            final(self).routes() == old(self).routes().insert(ip, tx),
            final(self).pool() == old(self).pool(),
    {
        broadcast use vstd::std_specs::hash::group_hash_axioms;

        self.routing_table.insert(ip, tx);
    }

    /// Stops routing packets for `ip`.
    pub fn unregister(&mut self, ip: u32)
        ensures
            final(self).routes() == old(self).routes().remove(ip),
            final(self).pool() == old(self).pool(),
    {
        broadcast use vstd::std_specs::hash::group_hash_axioms;

        self.routing_table.remove(&ip);
    }

    /// The handle of the client a packet is addressed to: none for a packet
    /// shorter than an IPv4 header or for an unknown destination.
    pub fn route(&self, pkt: &[u8]) -> (r: Option<&T>)
        ensures
            pkt@.len() < 20 ==> r is None,
            pkt@.len() >= 20 ==> (r is Some <==> self.routes().contains_key(
                packet_destination(pkt@),
            )),
            r matches Some(tx) ==> pkt@.len() >= 20 && *tx == self.routes()[packet_destination(
                pkt@,
            )],
    {
        broadcast use vstd::std_specs::hash::group_hash_axioms;

        if pkt.len() < 20 {
            return None;
        }
        let dst = ((pkt[16] as u32) << 24u32) | ((pkt[17] as u32) << 16u32) | ((pkt[18] as u32)
            << 8u32) | (pkt[19] as u32);
        self.routing_table.get(&dst)
    }
}

/// Handing out an address and then releasing it leaves the pool as it was.
pub proof fn lemma_release_undoes_assign(pool: Seq<u32>)
    requires
        pool.len() > 0,
    ensures
        pool.drop_last().push(pool.last()) == pool,
{
    assert(pool.drop_last().push(pool.last()) =~= pool);
}

/// Registering a new client and then unregistering it leaves the routing table as it was.
pub proof fn lemma_unregister_undoes_register<T>(routes: Map<u32, T>, ip: u32, tx: T)
    requires
        !routes.contains_key(ip),
    ensures
        routes.insert(ip, tx).remove(ip) == routes,
{
    assert(routes.insert(ip, tx).remove(ip) =~= routes);
}

/// The initial pool holds every address from 10.0.0.2 to 10.0.0.254 once.
pub proof fn lemma_initial_pool_distinct()
    ensures
        initial_pool().len() == 253,
        forall|i: int, j: int|
            0 <= i < j < 253 ==> #[trigger] initial_pool()[i] != #[trigger] initial_pool()[j],
        forall|i: int| 0 <= i < 253 ==> 0x0a00_0002 <= #[trigger] initial_pool()[i] <= 0x0a00_00fe,
{
}


// ── Authentication ───────────────────────────────────────────────────────────

/// Why authentication fails.
#[derive(Debug, Clone, Copy, PartialEq, Eq, Structural)]
pub enum AuthError {
    /// The message did not decrypt.
    Crypto(crypto::CryptoError),
    /// The decrypted message is not UTF-8 text.
    NotUtf8,
    /// The server rejected the auth key.
    Rejected,
    /// The server has no free address left.
    PoolExhausted,
    /// The server's reply is not an IPv4 address.
    InvalidAddress,
}

/// The text the server sends to refuse a key.
pub open spec fn fail_text() -> Seq<char> {
    seq!['F', 'A', 'I', 'L']
}

/// What the server answers an auth attempt with.
pub enum AuthReply {
    /// The key is listed: the client gets `ip`; `reply` is the encrypted address.
    Accepted { ip: u32, reply: Vec<u8> },
    /// The key is not listed; `reply` is the encrypted refusal.
    Rejected { reply: Vec<u8> },
    /// The key is listed but no address is free; nothing is sent.
    PoolExhausted,
}

/// Decrypts and reads the UTF-8 text of an encrypted message: the token a
/// client sends, or the server's answer.
pub fn open_text(cipher: &crypto::SessionCipher, raw: &[u8]) -> (r: Result<String, AuthError>)
    ensures
        raw@.len() < 8 ==> r == Err::<String, AuthError>(
            AuthError::Crypto(crypto::CryptoError::PacketTooShort(raw@.len() as usize)),
        ),
        raw@.len() >= 8 && crypto::opened_packet(cipher.key(), raw@) is None ==> r == Err::<
            String,
            AuthError,
        >(AuthError::Crypto(crypto::CryptoError::Decrypt)),
        crypto::opened_packet(cipher.key(), raw@) matches Some(p) ==> {
            &&& vstd::utf8::valid_utf8(p) ==> r is Ok && r->Ok_0@ == vstd::utf8::decode_utf8(p)
            &&& !vstd::utf8::valid_utf8(p) ==> r == Err::<String, AuthError>(AuthError::NotUtf8)
        },
        forall|c: u64, t: Seq<char>|
            vstd::utf8::encode_utf8(t).len() < primitives::chacha20poly1305_max_plaintext() && raw@
                == #[trigger] crypto::sealed_packet(cipher.key(), c, vstd::utf8::encode_utf8(t))
                ==> r is Ok && r->Ok_0@ == t,
{
    let bytes = match cipher.decrypt(raw) {
        Ok(p) => p,
        Err(e) => return Err(AuthError::Crypto(e)),
    };
    assert forall|c: u64, t: Seq<char>|
        vstd::utf8::encode_utf8(t).len() < primitives::chacha20poly1305_max_plaintext() && raw@
            == #[trigger] crypto::sealed_packet(cipher.key(), c, vstd::utf8::encode_utf8(t))
            implies vstd::utf8::valid_utf8(bytes@) && vstd::utf8::decode_utf8(bytes@) == t by {
        vstd::utf8::encode_utf8_valid_utf8(t);
        vstd::utf8::encode_utf8_decode_utf8(t);
    }
    match primitives::str_from_utf8(bytes.as_slice()) {
        Some(t) => Ok(t.to_owned()),
        None => Err(AuthError::NotUtf8),
    }
}

/// The server's answer to a client presenting `token`: a listed token gets the
/// next free address (encrypted as dotted-quad text), an unlisted one gets the
/// encrypted refusal `FAIL`.
pub fn server_auth_reply<T>(
    cipher: &mut crypto::SessionCipher,
    state: &mut ServerState<T>,
    keys: &str,
    token: &str,
) -> (r: AuthReply)
    ensures
        final(cipher).key() == old(cipher).key(),
        final(state).routes() == old(state).routes(),
        !token_listed(keys@, token@) ==> {
            &&& r matches AuthReply::Rejected { reply } && reply@ == crypto::sealed_packet(
                old(cipher).key(),
                old(cipher).counter(),
                vstd::utf8::encode_utf8(fail_text()),
            )
            &&& final(cipher).counter() == crypto::next_counter(old(cipher).counter())
            &&& final(state).pool() == old(state).pool()
        },
        token_listed(keys@, token@) && old(state).pool().len() == 0 ==> {
            &&& r is PoolExhausted
            &&& final(cipher).counter() == old(cipher).counter()
            &&& final(state).pool() == old(state).pool()
        },
        token_listed(keys@, token@) && old(state).pool().len() > 0 ==> {
            &&& r matches AuthReply::Accepted { ip, reply } && ip == old(state).pool().last()
                && reply@ == crypto::sealed_packet(
                old(cipher).key(),
                old(cipher).counter(),
                vstd::utf8::encode_utf8(ipv4_text(ip)),
            )
            &&& final(cipher).counter() == crypto::next_counter(old(cipher).counter())
            &&& final(state).pool() == old(state).pool().drop_last()
        },
{
    if !key_is_valid(keys, token) {
        let fail = "FAIL";
        proof {
            reveal_strlit("FAIL");
        }
        assert(fail@ =~= fail_text());
        proof {
            lemma_fail_text_short();
        }
        let reply = match cipher.encrypt(fail.as_bytes()) {
            Ok(v) => v,
            Err(_) => Vec::new(),
        };
        return AuthReply::Rejected { reply };
    }
    match state.assign_ip() {
        None => AuthReply::PoolExhausted,
        Some(ip) => {
            let text = format_ipv4(ip);
            proof {
                lemma_ipv4_text_short(ip);
            }
            let reply = match cipher.encrypt(text.as_str().as_bytes()) {
                Ok(v) => v,
                Err(_) => Vec::new(),
            };
            AuthReply::Accepted { ip, reply }
        },
    }
}

/// The client's first auth message: its auth key, encrypted.
pub fn client_auth_request(cipher: &mut crypto::SessionCipher, auth_key: &str) -> (r: Result<
    Vec<u8>,
    crypto::CryptoError,
>)
    ensures
        final(cipher).key() == old(cipher).key(),
        final(cipher).counter() == crypto::next_counter(old(cipher).counter()),
        r is Ok <==> auth_key.spec_bytes().len() < primitives::chacha20poly1305_max_plaintext(),
        r matches Ok(out) ==> out@ == crypto::sealed_packet(
            old(cipher).key(),
            old(cipher).counter(),
            auth_key.spec_bytes(),
        ),
        r is Err ==> r == Err::<Vec<u8>, crypto::CryptoError>(crypto::CryptoError::Encrypt),
{
    cipher.encrypt(auth_key.as_bytes())
}

/// The address the server assigned, read from its encrypted answer.
pub fn client_auth_response(cipher: &crypto::SessionCipher, raw: &[u8]) -> (r: Result<u32, AuthError>)
    ensures
        raw@.len() < 8 ==> r == Err::<u32, AuthError>(
            AuthError::Crypto(crypto::CryptoError::PacketTooShort(raw@.len() as usize)),
        ),
        raw@.len() >= 8 && crypto::opened_packet(cipher.key(), raw@) is None ==> r == Err::<
            u32,
            AuthError,
        >(AuthError::Crypto(crypto::CryptoError::Decrypt)),
        crypto::opened_packet(cipher.key(), raw@) matches Some(p) ==> {
            let t = vstd::utf8::decode_utf8(p);
            &&& !vstd::utf8::valid_utf8(p) ==> r == Err::<u32, AuthError>(AuthError::NotUtf8)
            &&& vstd::utf8::valid_utf8(p) && t == fail_text() ==> r == Err::<u32, AuthError>(
                AuthError::Rejected,
            )
            &&& vstd::utf8::valid_utf8(p) && t != fail_text() && parsed_ipv4(t) is None ==> r
                == Err::<u32, AuthError>(AuthError::InvalidAddress)
            &&& vstd::utf8::valid_utf8(p) && t != fail_text() && parsed_ipv4(t) is Some ==> r
                == Ok::<u32, AuthError>(parsed_ipv4(t)->0)
        },
        forall|c: u64, ip: u32|
            raw@ == #[trigger] crypto::sealed_packet(
                cipher.key(),
                c,
                vstd::utf8::encode_utf8(ipv4_text(ip)),
            ) ==> r == Ok::<u32, AuthError>(ip),
        forall|c: u64|
            raw@ == #[trigger] crypto::sealed_packet(
                cipher.key(),
                c,
                vstd::utf8::encode_utf8(fail_text()),
            ) ==> r == Err::<u32, AuthError>(AuthError::Rejected),
{
    let opened = open_text(cipher, raw);
    assert forall|c: u64, ip: u32|
        raw@ == #[trigger] crypto::sealed_packet(
            cipher.key(),
            c,
            vstd::utf8::encode_utf8(ipv4_text(ip)),
        ) implies opened is Ok && opened->Ok_0@ == ipv4_text(ip) by {
        lemma_ipv4_text_short(ip);
    }
    assert forall|c: u64|
        raw@ == #[trigger] crypto::sealed_packet(
            cipher.key(),
            c,
            vstd::utf8::encode_utf8(fail_text()),
        ) implies opened is Ok && opened->Ok_0@ == fail_text() by {
        lemma_fail_text_short();
    }
    let resp = match opened {
        Ok(t) => t,
        Err(e) => return Err(e),
    };
    let cs = text::chars_of(resp.as_str());
    let is_fail = cs.len() == 4 && cs[0] == 'F' && cs[1] == 'A' && cs[2] == 'I' && cs[3] == 'L';
    assert(is_fail <==> resp@ == fail_text()) by {
        if resp@ == fail_text() {
            assert(cs@ == fail_text());
        }
        if is_fail {
            assert(cs@ =~= fail_text());
        }
    }
    assert forall|c: u64, ip: u32|
        raw@ == #[trigger] crypto::sealed_packet(
            cipher.key(),
            c,
            vstd::utf8::encode_utf8(ipv4_text(ip)),
        ) implies resp@ == ipv4_text(ip) && resp@ != fail_text() && parsed_ipv4(resp@) == Some(ip) by {
        lemma_ipv4_text_short(ip);
        lemma_ipv4_roundtrip(ip);
        let t = ipv4_text(ip);
        assert(t[0] != fail_text()[0]);
    }
    assert forall|c: u64|
        raw@ == #[trigger] crypto::sealed_packet(
            cipher.key(),
            c,
            vstd::utf8::encode_utf8(fail_text()),
        ) implies resp@ == fail_text() by {
        lemma_fail_text_short();
    }
    if is_fail {
        return Err(AuthError::Rejected);
    }
    match parse_ipv4(resp.as_str()) {
        Some(ip) => Ok(ip),
        None => Err(AuthError::InvalidAddress),
    }
}

/// The text of an address is ASCII, at most 15 characters, and starts with a digit.
proof fn lemma_ipv4_text_short(ip: u32)
    ensures
        vstd::utf8::encode_utf8(ipv4_text(ip)).len() == ipv4_text(ip).len() <= 15,
        48 <= ipv4_text(ip)[0] as u32 <= 57,
{
    let o = encoding::u32_be(ip);
    text::lemma_dec_u8_ascii(o[0]);
    text::lemma_dec_u8_ascii(o[1]);
    text::lemma_dec_u8_ascii(o[2]);
    text::lemma_dec_u8_ascii(o[3]);
    let t = ipv4_text(ip);
    assert(vstd::utf8::is_ascii_chars(t));
    vstd::utf8::is_ascii_chars_encode_utf8(t);
}

/// The refusal text is four ASCII characters.
proof fn lemma_fail_text_short()
    ensures
        vstd::utf8::encode_utf8(fail_text()).len() == 4,
{
    assert(vstd::utf8::is_ascii_chars(fail_text()));
    vstd::utf8::is_ascii_chars_encode_utf8(fail_text());
}


/// Whether `reply` and `key` are a server's answer to a client whose X25519
/// public key is `client_pk` and whose ML-KEM encapsulation key is `ek`: the
/// reply is the ServerHello carrying the server's X25519 public key and a
/// 1088-byte ciphertext encapsulated to `ek`, and the key is the session key
/// of the server's secret and the secret that ciphertext carries.
pub open spec fn answers_hello(client_pk: Seq<u8>, ek: Seq<u8>, reply: Seq<u8>, key: Seq<u8>) -> bool {
    exists|server_pk: Seq<u8>, ct: Seq<u8>|
        #![trigger crypto::encoded_message(crypto::SERVER_HELLO_TYPE, server_pk, ct)]
        server_pk.len() == 32 && ct.len() == primitives::mlkem768_ct_len() && reply
            == crypto::encoded_message(crypto::SERVER_HELLO_TYPE, server_pk, ct)
            && crypto::server_answer(client_pk, ek, server_pk, ct, key)
}

// ── Handshake steps ──────────────────────────────────────────────────────────

/// The server's side of the handshake, between reading the client's frame and
/// writing its own: the ServerHello to send and the session cipher.
pub fn server_handshake(raw: &[u8]) -> (r: Result<(Vec<u8>, crypto::SessionCipher), crypto::CryptoError>)
    ensures
        crypto::decoded_message(crypto::CLIENT_HELLO_TYPE, raw@) matches Err(e) ==> r == Err::<
            (Vec<u8>, crypto::SessionCipher),
            crypto::CryptoError,
        >(e),
        crypto::decoded_message(crypto::CLIENT_HELLO_TYPE, raw@) matches Ok((pk, ek)) ==> {
            &&& ek.len() != primitives::mlkem768_ek_len() ==> r == Err::<
                (Vec<u8>, crypto::SessionCipher),
                crypto::CryptoError,
            >(crypto::CryptoError::InvalidEkLength(ek.len() as usize))
            &&& ek.len() == primitives::mlkem768_ek_len() && !primitives::mlkem768_ek_well_formed(
                ek,
            ) ==> r == Err::<(Vec<u8>, crypto::SessionCipher), crypto::CryptoError>(
                crypto::CryptoError::InvalidEk,
            )
            &&& r is Ok <==> primitives::mlkem768_ek_well_formed(ek)
            &&& r matches Ok((reply, cipher)) ==> cipher.counter() == 0 && answers_hello(
                pk,
                ek,
                reply@,
                cipher.key(),
            )
        },
{
    let client_hello = match crypto::ClientHello::from_bytes(raw) {
        Ok(h) => h,
        Err(e) => return Err(e),
    };
    let (server_hello, session_key) = match crypto::server_derive_key(&client_hello) {
        Ok(pair) => pair,
        Err(e) => return Err(e),
    };
    let reply = server_hello.to_bytes();
    let cipher = crypto::SessionCipher::new(&session_key);
    assert(answers_hello(client_hello.x25519_pk@, client_hello.mlkem_pk@, reply@, cipher.key()));
    Ok((reply, cipher))
}

/// The client's opening of the handshake: the ClientHello to send and the
/// secrets to keep for its completion.
pub fn client_handshake_start() -> (r: (Vec<u8>, crypto::ClientSecrets))
    ensures
        r.1.mlkem_sk@.len() == primitives::mlkem_seed_len(),
        primitives::mlkem768_ek_well_formed(primitives::mlkem768_ek_of_seed(r.1.mlkem_sk@)),
        r.0@ == crypto::encoded_message(
            crypto::CLIENT_HELLO_TYPE,
            primitives::x25519_public(r.1.x25519_secret@),
            primitives::mlkem768_ek_of_seed(r.1.mlkem_sk@),
        ),
{
    let (hello, secrets) = crypto::ClientHello::generate();
    let bytes = hello.to_bytes();
    assert(bytes@ == crypto::encoded_message(
        crypto::CLIENT_HELLO_TYPE,
        primitives::x25519_public(secrets.x25519_secret@),
        hello.mlkem_pk@,
    ));
    assert(primitives::mlkem768_ek_well_formed(hello.mlkem_pk@));
    (bytes, secrets)
}

/// The client's completion of the handshake from the server's frame.
pub fn client_handshake_finish(secrets: crypto::ClientSecrets, raw: &[u8]) -> (r: Result<
    crypto::SessionCipher,
    crypto::CryptoError,
>)
    ensures
        crypto::decoded_message(crypto::SERVER_HELLO_TYPE, raw@) matches Err(e) ==> r == Err::<
            crypto::SessionCipher,
            crypto::CryptoError,
        >(e),
        crypto::decoded_message(crypto::SERVER_HELLO_TYPE, raw@) matches Ok((pk, ct)) ==> {
            &&& secrets.mlkem_sk@.len() != primitives::mlkem_seed_len() ==> r == Err::<
                crypto::SessionCipher,
                crypto::CryptoError,
            >(crypto::CryptoError::InvalidDkSeedLength(secrets.mlkem_sk@.len() as usize))
            &&& secrets.mlkem_sk@.len() == primitives::mlkem_seed_len() && ct.len()
                != primitives::mlkem768_ct_len() ==> r == Err::<
                crypto::SessionCipher,
                crypto::CryptoError,
            >(crypto::CryptoError::CiphertextLength(ct.len() as usize))
            &&& r is Ok <==> secrets.mlkem_sk@.len() == primitives::mlkem_seed_len() && ct.len()
                == primitives::mlkem768_ct_len()
            &&& r matches Ok(cipher) ==> cipher.counter() == 0 && cipher.key()
                == crypto::client_session_key(secrets.x25519_secret@, pk, secrets.mlkem_sk@, ct)
                && crypto::client_key_matches(
                secrets.x25519_secret@,
                secrets.mlkem_sk@,
                pk,
                ct,
                cipher.key(),
            )
        },
{
    let server_hello = match crypto::ServerHello::from_bytes(raw) {
        Ok(h) => h,
        Err(e) => return Err(e),
    };
    match crypto::client_derive_key(secrets, &server_hello) {
        Ok(key) => Ok(crypto::SessionCipher::new(&key)),
        Err(e) => Err(e),
    }
}

/// Both ends of the handshake over frames hold the same session key. The
/// client sent the hello of its X25519 secret and ML-KEM seed (as
/// `client_handshake_start` writes it); the server answered it with `reply`
/// and `server_key` (as `server_handshake` does); the client read `reply` into
/// `client_key` (as `client_handshake_finish` does). The keys agree whenever
/// decapsulating the ciphertext in `reply` recovers the secret it carries.
pub proof fn lemma_handshake_frames_agree(
    client_secret: Seq<u8>,
    seed: Seq<u8>,
    reply: Seq<u8>,
    server_key: Seq<u8>,
    client_key: Seq<u8>,
)
    requires
        answers_hello(
            primitives::x25519_public(client_secret),
            primitives::mlkem768_ek_of_seed(seed),
            reply,
            server_key,
        ),
        crypto::decoded_message(crypto::SERVER_HELLO_TYPE, reply) matches Ok((pk, ct))
            && crypto::client_key_matches(client_secret, seed, pk, ct, client_key)
            && crypto::mlkem768_recovers(seed, ct),
    ensures
        crypto::decoded_message(crypto::SERVER_HELLO_TYPE, reply) is Ok,
        server_key == client_key,
{
    let client_pk = primitives::x25519_public(client_secret);
    let ek = primitives::mlkem768_ek_of_seed(seed);
    let (server_pk, ct) = choose|server_pk: Seq<u8>, ct: Seq<u8>|
        #![trigger crypto::encoded_message(crypto::SERVER_HELLO_TYPE, server_pk, ct)]
        server_pk.len() == 32 && ct.len() == primitives::mlkem768_ct_len() && reply
            == crypto::encoded_message(crypto::SERVER_HELLO_TYPE, server_pk, ct)
            && crypto::server_answer(client_pk, ek, server_pk, ct, server_key);
    crypto::lemma_message_roundtrip(crypto::SERVER_HELLO_TYPE, server_pk, ct, Seq::<u8>::empty());
    assert(crypto::encoded_message(crypto::SERVER_HELLO_TYPE, server_pk, ct) + Seq::<u8>::empty()
        =~= reply);
    crypto::lemma_handshake_keys_agree(client_secret, seed, server_pk, ct, server_key, client_key);
}

// ── Certificate pinning ──────────────────────────────────────────────────────

/// The SHA-256 fingerprint of a DER certificate.
pub fn cert_fingerprint(cert_der: &[u8]) -> (fp: Vec<u8>)
    ensures
        fp@ == primitives::sha256_digest(cert_der@),
        fp@.len() == 32,
{
    primitives::sha256(cert_der)
}

/// The message for a certificate whose fingerprint is `got` instead of `expected`.
pub open spec fn mismatch_message(expected: Seq<u8>, got: Seq<u8>) -> Seq<char> {
    "cert fingerprint mismatch\n  expected: "@ + fingerprint_text(expected) + "\n  got:      "@
        + fingerprint_text(got)
}

/// Whether two byte strings are equal.
fn bytes_equal(a: &[u8], b: &[u8]) -> (eq: bool)
    ensures
        eq == (a@ == b@),
{
    if a.len() != b.len() {
        return false;
    }
    let mut i: usize = 0;
    while i < a.len()
        invariant
            a@.len() == b@.len(),
            i <= a@.len(),
            forall|j: int| 0 <= j < i ==> a@[j] == b@[j],
        decreases a@.len() - i,
    {
        if a[i] != b[i] {
            return false;
        }
        i = i + 1;
    }
    assert(a@ =~= b@);
    true
}

/// Accepts the server certificate exactly when its SHA-256 fingerprint is
/// the pinned one.
pub fn verify_cert_fingerprint(expected: &[u8], cert_der: &[u8]) -> (r: Result<(), String>)
    ensures
        r is Ok <==> primitives::sha256_digest(cert_der@) == expected@,
        r matches Err(msg) ==> msg@ == mismatch_message(expected@, primitives::sha256_digest(cert_der@)),
{
    let got = cert_fingerprint(cert_der);
    if bytes_equal(got.as_slice(), expected) {
        return Ok(());
    }
    let mut msg = String::from_str("cert fingerprint mismatch\n  expected: ");
    msg.append(fmt_fingerprint(expected).as_str());
    msg.append("\n  got:      ");
    msg.append(fmt_fingerprint(got.as_slice()).as_str());
    Err(msg)
}

/// The pinned fingerprint from an optional setting: none when it is empty or
/// does not parse.
pub fn optional_fingerprint(s: &str) -> (r: Option<Vec<u8>>)
    ensures
        s@.len() == 0 ==> r is None,
        s@.len() > 0 ==> (r is Some <==> ({
            let segs = text::split_on(s@, ':');
            all_segments_valid(segs) && segs.len() == 32
        })),
        r matches Some(b) ==> b@.len() == 32 && forall|i: int|
            0 <= i < 32 ==> segment_byte(text::split_on(s@, ':')[i]) == Some(#[trigger] b@[i]),
{
    if s.is_empty() {
        return None;
    }
    match parse_fingerprint(s) {
        Ok(b) => Some(b),
        Err(_) => None,
    }
}

} // verus!
