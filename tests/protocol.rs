use netcanv::protocol::{
    decode, encode, encoded_size, Address, DecodeError, EncodeError, IpAddress, Packet,
    MAX_PACKET_SIZE,
};

fn v4(a: u8, b: u8, c: u8, d: u8, port: u16) -> Address {
    Address { ip: IpAddress::V4(a, b, c, d), port }
}

fn v6(port: u16) -> Address {
    Address { ip: IpAddress::V6(0x2001, 0x0db8, 0, 0, 0, 0, 0xff00, 0x0042), port }
}

fn all_packets() -> Vec<Packet> {
    vec![
        Packet::Host,
        Packet::GetHost(1234),
        Packet::RequestRelay(None),
        Packet::RequestRelay(Some(v4(10, 0, 0, 7, 62137))),
        Packet::Relay(None, b"stroke".to_vec()),
        Packet::Relay(Some(v6(443)), vec![]),
        Packet::RoomId(9999),
        Packet::ClientAddress(v4(192, 168, 1, 20, 5000)),
        Packet::HostAddress(v6(62137)),
        Packet::Relayed(v4(127, 0, 0, 1, 1), vec![0, 255, 7]),
        Packet::Disconnected(v6(0)),
        Packet::Error("Zażółć gęślą jaźń".to_string()),
    ]
}

#[test]
fn round_trip_every_variant() {
    for p in all_packets() {
        let bytes = encode(&p).unwrap();
        assert_eq!(encoded_size(&p), Some(bytes.len()));
        assert_eq!(decode(&bytes), Ok(p));
    }
}

#[test]
fn get_host_layout() {
    assert_eq!(encode(&Packet::GetHost(1234)).unwrap(), vec![1, 0, 0, 0, 0xd2, 0x04, 0, 0]);
}

#[test]
fn host_layout() {
    assert_eq!(encode(&Packet::Host).unwrap(), vec![0, 0, 0, 0]);
}

#[test]
fn client_address_v4_layout() {
    let bytes = encode(&Packet::ClientAddress(v4(192, 168, 1, 20, 5000))).unwrap();
    assert_eq!(bytes, vec![5, 0, 0, 0, 0, 0, 0, 0, 192, 168, 1, 20, 0x88, 0x13]);
}

#[test]
fn host_address_v6_layout() {
    let bytes = encode(&Packet::HostAddress(v6(1))).unwrap();
    assert_eq!(
        bytes,
        vec![
            6, 0, 0, 0, 1, 0, 0, 0, 0x20, 0x01, 0x0d, 0xb8, 0, 0, 0, 0, 0, 0, 0, 0, 0xff, 0x00,
            0x00, 0x42, 1, 0
        ]
    );
}

#[test]
fn relay_layout() {
    let bytes = encode(&Packet::Relay(None, vec![9, 8])).unwrap();
    assert_eq!(bytes, vec![3, 0, 0, 0, 0, 2, 0, 0, 0, 0, 0, 0, 0, 9, 8]);
}

#[test]
fn error_layout_is_utf8() {
    let bytes = encode(&Packet::Error("é".to_string())).unwrap();
    assert_eq!(bytes, vec![9, 0, 0, 0, 2, 0, 0, 0, 0, 0, 0, 0, 0xc3, 0xa9]);
}

#[test]
fn oversized_payload_is_refused() {
    let data = vec![0u8; MAX_PACKET_SIZE];
    let p = Packet::Relay(None, data);
    assert_eq!(encode(&p), Err(EncodeError::PacketTooLarge));
    assert_eq!(encoded_size(&p), None);
}

#[test]
fn largest_payload_fits() {
    // tag, no target, length
    let data = vec![1u8; MAX_PACKET_SIZE - 4 - 1 - 8];
    let p = Packet::Relay(None, data);
    let bytes = encode(&p).unwrap();
    assert_eq!(bytes.len(), MAX_PACKET_SIZE);
    assert_eq!(decode(&bytes), Ok(p));
}

#[test]
fn oversized_bytes_are_refused() {
    let bytes = vec![0u8; MAX_PACKET_SIZE + 1];
    assert_eq!(decode(&bytes), Err(DecodeError::PacketTooLarge));
}

#[test]
fn trailing_bytes_are_malformed() {
    let mut bytes = encode(&Packet::Host).unwrap();
    bytes.push(0);
    assert_eq!(decode(&bytes), Err(DecodeError::Malformed));
}

#[test]
fn unknown_tag_is_malformed() {
    assert_eq!(decode(&vec![10, 0, 0, 0]), Err(DecodeError::Malformed));
    assert_eq!(decode(&vec![0, 1, 0, 0]), Err(DecodeError::Malformed));
}

#[test]
fn empty_and_truncated_are_malformed() {
    assert_eq!(decode(&vec![]), Err(DecodeError::Malformed));
    let bytes = encode(&Packet::Relayed(v4(1, 2, 3, 4, 5), vec![1, 2, 3])).unwrap();
    assert_eq!(decode(&bytes[..bytes.len() - 1].to_vec()), Err(DecodeError::Malformed));
}

#[test]
fn length_past_end_is_malformed() {
    let bytes = vec![3, 0, 0, 0, 0, 0xff, 0xff, 0xff, 0xff, 0xff, 0xff, 0xff, 0xff];
    assert_eq!(decode(&bytes), Err(DecodeError::Malformed));
}

#[test]
fn invalid_utf8_is_malformed() {
    let bytes = vec![9, 0, 0, 0, 1, 0, 0, 0, 0, 0, 0, 0, 0xff];
    assert_eq!(decode(&bytes), Err(DecodeError::Malformed));
}

#[test]
fn error_text_is_decoded() {
    let bytes = vec![9, 0, 0, 0, 2, 0, 0, 0, 0, 0, 0, 0, b'h', b'i'];
    assert_eq!(decode(&bytes), Ok(Packet::Error("hi".to_string())));
}

#[test]
fn bad_option_flag_is_malformed() {
    let bytes = vec![2, 0, 0, 0, 2];
    assert_eq!(decode(&bytes), Err(DecodeError::Malformed));
}

// The layout of each field is the one bincode gives the same values.

fn v4_fields(a: Address) -> (u32, [u8; 4], u16) {
    match a.ip {
        IpAddress::V4(w, x, y, z) => (0, [w, x, y, z], a.port),
        IpAddress::V6(..) => panic!("not a version 4 address"),
    }
}

#[test]
fn address_layout_matches_bincode() {
    let a = v4(192, 168, 1, 20, 5000);
    let bytes = encode(&Packet::HostAddress(a)).unwrap();
    assert_eq!(bytes[4..].to_vec(), bincode::serialize(&v4_fields(a)).unwrap());
}

#[test]
fn v6_address_layout_matches_bincode() {
    let a = v6(8080);
    let bytes = encode(&Packet::Disconnected(a)).unwrap();
    let octets: [u8; 16] = [0x20, 0x01, 0x0d, 0xb8, 0, 0, 0, 0, 0, 0, 0, 0, 0xff, 0x00, 0x00, 0x42];
    assert_eq!(bytes[4..].to_vec(), bincode::serialize(&(1u32, octets, 8080u16)).unwrap());
}

#[test]
fn relay_layout_matches_bincode() {
    let a = v4(10, 0, 0, 7, 62137);
    let data = b"chunk".to_vec();
    let bytes = encode(&Packet::Relay(Some(a), data.clone())).unwrap();
    let expected = bincode::serialize(&(3u32, Some(v4_fields(a)), data.clone())).unwrap();
    assert_eq!(bytes, expected);
    let none = encode(&Packet::Relay(None, data.clone())).unwrap();
    let expected_none = bincode::serialize(&(3u32, None::<(u32, [u8; 4], u16)>, data)).unwrap();
    assert_eq!(none, expected_none);
}

#[test]
fn error_layout_matches_bincode() {
    let text = "No room found".to_string();
    let bytes = encode(&Packet::Error(text.clone())).unwrap();
    assert_eq!(bytes, bincode::serialize(&(9u32, text)).unwrap());
}

#[test]
fn room_id_layout_matches_bincode() {
    let bytes = encode(&Packet::RoomId(1234)).unwrap();
    assert_eq!(bytes, bincode::serialize(&(4u32, 1234u32)).unwrap());
}
