use nix::sys::socket::{InetAddr, IpAddr};
use udp_ring::address::{
    decode, encode, DecodeError, Endpoint, FAMILY_INET, FAMILY_INET6, INET6_LENGTH, INET_LENGTH,
    STORAGE_CAPACITY,
};

fn sample_v6() -> Endpoint {
    Endpoint::V6 {
        ip6: [0x20, 0x01, 0x0d, 0xb8, 0, 0, 0, 0, 0, 0, 0, 0, 0, 0, 0, 1],
        port: 7200,
        flow: 0x0102_0304,
        scope: 7,
    }
}

#[test]
fn encode_v4_layout() {
    let (raw, length) = encode(Endpoint::v4(127, 0, 0, 1, 7200));
    assert_eq!(length, 16);
    assert_eq!(raw.len(), 128);
    // 7200 is 0x1c20: the port travels most significant byte first.
    assert_eq!(&raw[..8], &[2u8, 0, 0x1c, 0x20, 127, 0, 0, 1][..]);
    assert!(raw[8..].iter().all(|byte| *byte == 0));
}

#[test]
fn encode_v6_layout() {
    let (raw, length) = encode(sample_v6());
    assert_eq!(length, 28);
    assert_eq!(raw.len(), STORAGE_CAPACITY);
    assert_eq!(&raw[..4], &[10u8, 0, 0x1c, 0x20][..]);
    assert_eq!(&raw[4..8], &[4u8, 3, 2, 1][..]);
    assert_eq!(&raw[8..24], &[0x20u8, 0x01, 0x0d, 0xb8, 0, 0, 0, 0, 0, 0, 0, 0, 0, 0, 0, 1][..]);
    assert_eq!(&raw[24..28], &[7u8, 0, 0, 0][..]);
    assert!(raw[28..].iter().all(|byte| *byte == 0));
}

#[test]
fn wire_length_by_family() {
    assert_eq!(Endpoint::v4(10, 0, 0, 1, 1).wire_length(), INET_LENGTH);
    assert_eq!(sample_v6().wire_length(), INET6_LENGTH);
    assert_eq!(FAMILY_INET, 2);
    assert_eq!(FAMILY_INET6, 10);
}

#[test]
fn constructors_and_port() {
    assert_eq!(Endpoint::v4(1, 2, 3, 4, 5), Endpoint::V4 { ip: [1, 2, 3, 4], port: 5 });
    assert_eq!(
        Endpoint::v6([9; 16], 65535),
        Endpoint::V6 { ip6: [9; 16], port: 65535, flow: 0, scope: 0 }
    );
    assert_eq!(Endpoint::v4(1, 2, 3, 4, 5).port(), 5);
    assert_eq!(sample_v6().port(), 7200);
}

#[test]
fn round_trip_v4() {
    let endpoint = Endpoint::v4(192, 168, 1, 77, 65535);
    let (raw, _) = encode(endpoint);
    assert_eq!(decode(&raw), Ok(endpoint));
}

#[test]
fn round_trip_v6() {
    let endpoint = sample_v6();
    let (raw, _) = encode(endpoint);
    assert_eq!(decode(&raw), Ok(endpoint));
}

#[test]
fn round_trip_ignores_what_follows_the_address() {
    let endpoint = Endpoint::v4(127, 0, 0, 1, 40000);
    let (mut raw, length) = encode(endpoint);
    for byte in raw[length..].iter_mut() {
        *byte = 0xa5;
    }
    assert_eq!(decode(&raw), Ok(endpoint));
    // The wire bytes alone are enough.
    assert_eq!(decode(&raw[..length]), Ok(endpoint));
    // So is the padding of an IPv4 block: it does not count.
    raw[12] = 1;
    assert_eq!(decode(&raw), Ok(endpoint));
}

#[test]
fn round_trip_every_port_byte() {
    let ports: [u16; 6] = [0, 1, 255, 256, 0x1234, 0xffff];
    for port in ports {
        let endpoint = Endpoint::v4(8, 8, 4, 4, port);
        let (raw, _) = encode(endpoint);
        assert_eq!(raw[2], (port >> 8) as u8);
        assert_eq!(raw[3], (port & 0xff) as u8);
        assert_eq!(decode(&raw), Ok(endpoint));
    }
}

#[test]
fn round_trip_flow_and_scope_extremes() {
    let values: [u32; 5] = [0, 1, 0xff, 0x0100_0000, 0xffff_ffff];
    for value in values {
        let endpoint = Endpoint::V6 { ip6: [0xfe; 16], port: 9, flow: value, scope: !value };
        let (raw, _) = encode(endpoint);
        assert_eq!(&raw[4..8], &value.to_le_bytes()[..]);
        assert_eq!(&raw[24..28], &(!value).to_le_bytes()[..]);
        assert_eq!(decode(&raw), Ok(endpoint));
    }
}

#[test]
fn decode_rejects_short_storage() {
    assert_eq!(decode(&[]), Err(DecodeError::Truncated));
    assert_eq!(decode(&[2]), Err(DecodeError::Truncated));
    let (v4, _) = encode(Endpoint::v4(1, 1, 1, 1, 1));
    assert_eq!(decode(&v4[..15]), Err(DecodeError::Truncated));
    let (v6, _) = encode(sample_v6());
    assert_eq!(decode(&v6[..27]), Err(DecodeError::Truncated));
    assert_eq!(decode(&v6[..28]), Ok(sample_v6()));
}

#[test]
fn decode_rejects_unknown_family() {
    // Storage that the kernel never filled names no family.
    assert_eq!(decode(&[0u8; 128]), Err(DecodeError::UnsupportedFamily(0)));
    let mut raw = [0u8; 128];
    raw[0] = 1;
    assert_eq!(decode(&raw), Err(DecodeError::UnsupportedFamily(1)));
    // The family is read in host order: 2 in the high byte is 512, not IPv4.
    raw[0] = 0;
    raw[1] = 2;
    assert_eq!(decode(&raw), Err(DecodeError::UnsupportedFamily(512)));
    assert_eq!(decode(&[0xff, 0xff]), Err(DecodeError::UnsupportedFamily(0xffff)));
}

#[test]
fn encode_agrees_with_nix_v4() {
    let (raw, length) = encode(Endpoint::v4(127, 0, 0, 1, 7200));
    match InetAddr::new(IpAddr::new_v4(127, 0, 0, 1), 7200) {
        InetAddr::V4(address) => {
            assert_eq!(length, std::mem::size_of_val(&address));
            assert_eq!(&raw[0..2], &address.sin_family.to_ne_bytes()[..]);
            assert_eq!(&raw[2..4], &address.sin_port.to_ne_bytes()[..]);
            assert_eq!(&raw[4..8], &address.sin_addr.s_addr.to_ne_bytes()[..]);
        }
        InetAddr::V6(_) => panic!("an IPv4 address was asked for"),
    }
}

#[test]
fn encode_agrees_with_nix_v6() {
    let (raw, length) = encode(sample_v6());
    match InetAddr::new(IpAddr::new_v6(0x2001, 0x0db8, 0, 0, 0, 0, 0, 1), 7200) {
        InetAddr::V6(address) => {
            assert_eq!(length, std::mem::size_of_val(&address));
            assert_eq!(&raw[0..2], &address.sin6_family.to_ne_bytes()[..]);
            assert_eq!(&raw[2..4], &address.sin6_port.to_ne_bytes()[..]);
            assert_eq!(&raw[8..24], &address.sin6_addr.s6_addr[..]);
        }
        InetAddr::V4(_) => panic!("an IPv6 address was asked for"),
    }
}
