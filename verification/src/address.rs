//! Socket endpoints and their raw form in a message header.
//!
//! A message operation names its peer through a fixed-size block of bytes:
//! a two-byte address family in host order, followed by the fields of that
//! family. The layout here is the one Linux uses on little-endian machines.
//! The block is sized for the largest family, so a receiver can hand the
//! kernel one block without knowing which family will arrive.

use vstd::prelude::*;

verus! {

/// Bytes in a raw address block: room for any address family.
pub const STORAGE_CAPACITY: usize = 128;

/// Bytes that an IPv4 endpoint occupies in a raw address block.
pub const INET_LENGTH: usize = 16;

/// Bytes that an IPv6 endpoint occupies in a raw address block.
pub const INET6_LENGTH: usize = 28;

/// Address family code of IPv4.
pub const FAMILY_INET: u16 = 2;

/// Address family code of IPv6.
pub const FAMILY_INET6: u16 = 10;

/// A UDP endpoint: host address and port, with the two IPv6 extras.
#[derive(Clone, Copy, Debug, PartialEq, Eq)]
pub enum Endpoint {
    V4 { ip: [u8; 4], port: u16 },
    V6 { ip6: [u8; 16], port: u16, flow: u32, scope: u32 },
}

/// Why a raw address block names no endpoint.
#[derive(Clone, Copy, Debug, PartialEq, Eq, Structural)]
pub enum DecodeError {
    /// The block ends before the fields of its family do.
    Truncated,
    /// The family code is neither IPv4 nor IPv6.
    UnsupportedFamily(u16),
}

/// The four bytes of `x`, least significant first.
pub open spec fn le32(x: u32) -> Seq<u8> {
    seq![
        (x % 256) as u8,
        ((x / 256) % 256) as u8,
        ((x / 65536) % 256) as u8,
        (x / 16777216) as u8,
    ]
}

/// The number that four bytes starting at `at` hold, least significant first.
pub open spec fn le32_at(raw: Seq<u8>, at: int) -> int {
    raw[at] + 256 * raw[at + 1] + 65536 * raw[at + 2] + 16777216 * raw[at + 3]
}

/// The number that two bytes starting at `at` hold, least significant first.
pub open spec fn le16_at(raw: Seq<u8>, at: int) -> int {
    raw[at] + 256 * raw[at + 1]
}

/// The number that two bytes starting at `at` hold, most significant first.
pub open spec fn be16_at(raw: Seq<u8>, at: int) -> int {
    256 * raw[at] + raw[at + 1]
}

/// The four address bytes of an IPv4 block.
pub open spec fn ip_at(raw: Seq<u8>) -> [u8; 4] {
    [raw[4], raw[5], raw[6], raw[7]]
}

/// The sixteen address bytes of an IPv6 block.
pub open spec fn ip6_at(raw: Seq<u8>) -> [u8; 16] {
    [
        raw[8],
        raw[9],
        raw[10],
        raw[11],
        raw[12],
        raw[13],
        raw[14],
        raw[15],
        raw[16],
        raw[17],
        raw[18],
        raw[19],
        raw[20],
        raw[21],
        raw[22],
        raw[23],
    ]
}

/// The bytes that `endpoint` occupies at the start of a raw address block.
pub open spec fn wire(endpoint: Endpoint) -> Seq<u8> {
    match endpoint {
        Endpoint::V4 { ip, port } => seq![2u8, 0u8, (port / 256) as u8, (port % 256) as u8] + ip@
            + Seq::new(8, |i: int| 0u8),
        Endpoint::V6 { ip6, port, flow, scope } => seq![
            10u8,
            0u8,
            (port / 256) as u8,
            (port % 256) as u8,
        ] + le32(flow) + ip6@ + le32(scope),
    }
}

/// A whole raw address block that holds `endpoint`: its wire bytes, then zeros.
pub open spec fn storage_image(endpoint: Endpoint) -> Seq<u8> {
    Seq::new(
        STORAGE_CAPACITY as nat,
        |i: int|
            if i < wire(endpoint).len() {
                wire(endpoint)[i]
            } else {
                0u8
            },
    )
}

/// What a raw address block names. Bytes after the family's fields, and the
/// padding of an IPv4 block, do not count.
pub open spec fn parse(raw: Seq<u8>) -> Result<Endpoint, DecodeError> {
    if raw.len() < 2 {
        Err(DecodeError::Truncated)
    } else if le16_at(raw, 0) == FAMILY_INET {
        if raw.len() < INET_LENGTH {
            Err(DecodeError::Truncated)
        } else {
            Ok(Endpoint::V4 { ip: ip_at(raw), port: be16_at(raw, 2) as u16 })
        }
    } else if le16_at(raw, 0) == FAMILY_INET6 {
        if raw.len() < INET6_LENGTH {
            Err(DecodeError::Truncated)
        } else {
            Ok(
                Endpoint::V6 {
                    ip6: ip6_at(raw),
                    port: be16_at(raw, 2) as u16,
                    flow: le32_at(raw, 4) as u32,
                    scope: le32_at(raw, 24) as u32,
                },
            )
        }
    } else {
        Err(DecodeError::UnsupportedFamily(le16_at(raw, 0) as u16))
    }
}

impl Endpoint {
    /// An IPv4 endpoint from its four address bytes and port.
    pub fn v4(a: u8, b: u8, c: u8, d: u8, port: u16) -> (endpoint: Endpoint)
        ensures
            endpoint == (Endpoint::V4 { ip: [a, b, c, d], port }),
    {
        Endpoint::V4 { ip: [a, b, c, d], port }
    }

    /// An IPv6 endpoint with no flow label and no scope.
    pub fn v6(ip6: [u8; 16], port: u16) -> (endpoint: Endpoint)
        ensures
            endpoint == (Endpoint::V6 { ip6, port, flow: 0, scope: 0 }),
    {
        Endpoint::V6 { ip6, port, flow: 0, scope: 0 }
    }

    /// The port, whatever the family.
    pub open spec fn spec_port(self) -> u16 {
        match self {
            Endpoint::V4 { port, .. } => port,
            Endpoint::V6 { port, .. } => port,
        }
    }

    /// The port, whatever the family.
    #[verifier::when_used_as_spec(spec_port)]
    pub fn port(self) -> (port: u16)
        ensures
            port == self.spec_port(),
    {
        match self {
            Endpoint::V4 { port, .. } => port,
            Endpoint::V6 { port, .. } => port,
        }
    }

    /// How many bytes of a raw address block this endpoint occupies.
    pub fn wire_length(self) -> (length: usize)
        ensures
            length == wire(self).len(),
            length == INET_LENGTH || length == INET6_LENGTH,
            self is V4 <==> length == INET_LENGTH,
    {
        match self {
            Endpoint::V4 { .. } => INET_LENGTH,
            Endpoint::V6 { .. } => INET6_LENGTH,
        }
    }
}

fn put_le32(raw: &mut Vec<u8>, at: usize, x: u32)
    requires
        at + 4 <= old(raw).len(),
    ensures
        final(raw)@.len() == old(raw)@.len(),
        forall|i: int|
            0 <= i < old(raw)@.len() ==> final(raw)@[i] == if at <= i < at + 4 {
                le32(x)[i - at]
            } else {
                old(raw)@[i]
            },
{
    raw[at] = (x % 256) as u8;
    raw[at + 1] = ((x / 256) % 256) as u8;
    raw[at + 2] = ((x / 65536) % 256) as u8;
    raw[at + 3] = (x / 16777216) as u8;
}

fn get_le32(raw: &[u8], at: usize) -> (x: u32)
    requires
        at + 4 <= raw@.len(),
    ensures
        x == le32_at(raw@, at as int),
{
    let b0: u32 = raw[at] as u32;
    let b1: u32 = raw[at + 1] as u32;
    let b2: u32 = raw[at + 2] as u32;
    let b3: u32 = raw[at + 3] as u32;
    b0 + 256 * b1 + 65536 * b2 + 16777216 * b3
}

/// Writes `endpoint` into a fresh raw address block and says how many of its
/// bytes the endpoint occupies.
pub fn encode(endpoint: Endpoint) -> (out: (Vec<u8>, usize))
    ensures
        out.0@ == storage_image(endpoint),
        out.1 == wire(endpoint).len(),
{
    let mut raw: Vec<u8> = vec![0u8; STORAGE_CAPACITY];
    match endpoint {
        Endpoint::V4 { ip, port } => {
            raw[0] = 2;
            raw[2] = (port / 256) as u8;
            raw[3] = (port % 256) as u8;
            raw[4] = ip[0];
            raw[5] = ip[1];
            raw[6] = ip[2];
            raw[7] = ip[3];
            assert(raw@ =~= storage_image(endpoint));
            (raw, INET_LENGTH)
        },
        Endpoint::V6 { ip6, port, flow, scope } => {
            raw[0] = 10;
            raw[2] = (port / 256) as u8;
            raw[3] = (port % 256) as u8;
            put_le32(&mut raw, 4, flow);
            let mut i: usize = 0;
            while i < 16
                invariant
                    i <= 16,
                    raw@.len() == STORAGE_CAPACITY,
                    raw@[0] == 10 && raw@[1] == 0,
                    raw@[2] == (port / 256) as u8 && raw@[3] == (port % 256) as u8,
                    forall|j: int| 4 <= j < 8 ==> raw@[j] == le32(flow)[j - 4],
                    forall|j: int| 0 <= j < i ==> raw@[8 + j] == ip6@[j],
                    forall|j: int| 24 <= j < STORAGE_CAPACITY ==> raw@[j] == 0,
                decreases 16 - i,
            {
                raw[8 + i] = ip6[i];
                i += 1;
            }
            put_le32(&mut raw, 24, scope);
            assert(raw@ =~= storage_image(endpoint));
            (raw, INET6_LENGTH)
        },
    }
}

/// Reads the endpoint that a raw address block names.
pub fn decode(raw: &[u8]) -> (result: Result<Endpoint, DecodeError>)
    ensures
        result == parse(raw@),
{
    if raw.len() < 2 {
        return Err(DecodeError::Truncated);
    }
    let family: u16 = raw[0] as u16 + 256 * (raw[1] as u16);
    if family == FAMILY_INET {
        if raw.len() < INET_LENGTH {
            return Err(DecodeError::Truncated);
        }
        let port: u16 = 256 * (raw[2] as u16) + raw[3] as u16;
        let ip = [raw[4], raw[5], raw[6], raw[7]];
        assert(ip =~= ip_at(raw@));
        Ok(Endpoint::V4 { ip, port })
    } else if family == FAMILY_INET6 {
        if raw.len() < INET6_LENGTH {
            return Err(DecodeError::Truncated);
        }
        let port: u16 = 256 * (raw[2] as u16) + raw[3] as u16;
        let flow = get_le32(raw, 4);
        let scope = get_le32(raw, 24);
        let ip6 = [
            raw[8],
            raw[9],
            raw[10],
            raw[11],
            raw[12],
            raw[13],
            raw[14],
            raw[15],
            raw[16],
            raw[17],
            raw[18],
            raw[19],
            raw[20],
            raw[21],
            raw[22],
            raw[23],
        ];
        assert(ip6 =~= ip6_at(raw@));
        Ok(Endpoint::V6 { ip6, port, flow, scope })
    } else {
        Err(DecodeError::UnsupportedFamily(family))
    }
}

/// Four bytes written least significant first hold the number they were
/// written from.
proof fn lemma_le32_inverse(x: u32, raw: Seq<u8>, at: int)
    requires
        0 <= at,
        at + 4 <= raw.len(),
        raw[at] == le32(x)[0],
        raw[at + 1] == le32(x)[1],
        raw[at + 2] == le32(x)[2],
        raw[at + 3] == le32(x)[3],
    ensures
        le32_at(raw, at) == x,
{
    let a = x % 256;
    let b = (x / 256) % 256;
    let c = (x / 65536) % 256;
    let d = x / 16777216;
    assert(x == a + 256 * b + 65536 * c + 16777216 * d);
}

/// The wire bytes of an IPv4 endpoint, one by one.
proof fn lemma_wire_v4(ip: [u8; 4], port: u16)
    ensures
        ({
            let w = wire(Endpoint::V4 { ip, port });
            &&& w.len() == 16
            &&& w[0] == 2 && w[1] == 0
            &&& w[2] == port / 256 && w[3] == port % 256
            &&& w[4] == ip[0] && w[5] == ip[1] && w[6] == ip[2] && w[7] == ip[3]
        }),
{
}

/// The wire bytes of an IPv6 endpoint, one by one.
proof fn lemma_wire_v6(ip6: [u8; 16], port: u16, flow: u32, scope: u32)
    ensures
        ({
            let w = wire(Endpoint::V6 { ip6, port, flow, scope });
            &&& w.len() == 28
            &&& w[0] == 10 && w[1] == 0
            &&& w[2] == port / 256 && w[3] == port % 256
            &&& forall|i: int| 0 <= i < 4 ==> w[4 + i] == le32(flow)[i]
            &&& forall|i: int| 0 <= i < 16 ==> w[8 + i] == ip6[i]
            &&& forall|i: int| 0 <= i < 4 ==> w[24 + i] == le32(scope)[i]
        }),
{
}

/// Decoding undoes encoding. Any block that begins with the wire bytes of
/// `endpoint` names that endpoint, whatever follows them: family, host,
/// port, flow label and scope all come back.
pub proof fn lemma_round_trip(endpoint: Endpoint, raw: Seq<u8>)
    requires
        raw.len() >= wire(endpoint).len(),
        raw.subrange(0, wire(endpoint).len() as int) == wire(endpoint),
    ensures
        parse(raw) == Ok::<Endpoint, DecodeError>(endpoint),
{
    let w = wire(endpoint);
    assert forall|i: int| 0 <= i < w.len() implies raw[i] == w[i] by {
        assert(raw.subrange(0, w.len() as int)[i] == raw[i]);
    }
    match endpoint {
        Endpoint::V4 { ip, port } => {
            lemma_wire_v4(ip, port);
            assert(raw[0] == w[0] && raw[1] == w[1] && raw[2] == w[2] && raw[3] == w[3]);
            assert(raw[4] == w[4] && raw[5] == w[5] && raw[6] == w[6] && raw[7] == w[7]);
            assert(le16_at(raw, 0) == 2);
            assert(be16_at(raw, 2) == port);
            assert(ip_at(raw) =~= ip);
        },
        Endpoint::V6 { ip6, port, flow, scope } => {
            lemma_wire_v6(ip6, port, flow, scope);
            assert(raw[0] == w[0] && raw[1] == w[1] && raw[2] == w[2] && raw[3] == w[3]);
            assert(le16_at(raw, 0) == 10);
            assert(be16_at(raw, 2) == port);
            assert(raw[4] == w[4] && raw[5] == w[5] && raw[6] == w[6] && raw[7] == w[7]);
            assert(w[4] == w[4 + 0int] && w[5] == w[4 + 1int] && w[6] == w[4 + 2int] && w[7] == w[4
                + 3int]);
            lemma_le32_inverse(flow, raw, 4);
            assert(raw[24] == w[24] && raw[25] == w[25] && raw[26] == w[26] && raw[27] == w[27]);
            assert(w[24] == w[24 + 0int] && w[25] == w[24 + 1int] && w[26] == w[24 + 2int] && w[27]
                == w[24 + 3int]);
            lemma_le32_inverse(scope, raw, 24);
            assert forall|i: int| 0 <= i < 16 implies ip6_at(raw)[i] == ip6[i] by {
                assert(raw[8 + i] == w[8 + i]);
            }
            assert(ip6_at(raw) =~= ip6);
        },
    }
}

/// The block that `encode` writes decodes to the endpoint it was given.
pub proof fn lemma_encode_then_decode(endpoint: Endpoint)
    ensures
        parse(storage_image(endpoint)) == Ok::<Endpoint, DecodeError>(endpoint),
{
    let raw = storage_image(endpoint);
    assert(raw.subrange(0, wire(endpoint).len() as int) =~= wire(endpoint));
    lemma_round_trip(endpoint, raw);
}

} // verus!
