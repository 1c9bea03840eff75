//! Round trips and exact wire bytes for the packet codec.

use controller::codec::{decode_packet, encode_packet, frame_packet, frame_payload_len};
use controller::packet::{Kind, Packet};

fn round_trip(p: Packet) -> Packet {
    let bytes = encode_packet(&p).expect("encodable");
    decode_packet(bytes.as_slice()).expect("decodable")
}

#[test]
fn round_trip_authentication() {
    let p = Packet::Authentication {
        name: "m-0".to_string(),
        kind: Kind::Minigame { kind: "bedwars".to_string() },
        ip: "/127.0.0.1:25565".to_string(),
    };
    let q = round_trip(Packet::Authentication {
        name: "m-0".to_string(),
        kind: Kind::Minigame { kind: "bedwars".to_string() },
        ip: "/127.0.0.1:25565".to_string(),
    });
    assert_eq!(q, p);
}

#[test]
fn round_trip_authentication_unit_kinds() {
    for kind in [Kind::Limbo, Kind::Proxy, Kind::Lobby] {
        let p = Packet::Authentication {
            name: "proxy".to_string(),
            kind,
            ip: "10.0.0.1:80".to_string(),
        };
        let bytes = encode_packet(&p).unwrap();
        assert_eq!(decode_packet(bytes.as_slice()).unwrap(), p);
    }
}

#[test]
fn round_trip_empty_and_unicode_names() {
    let p = Packet::UnlinkServer { name: String::new() };
    let bytes = encode_packet(&p).unwrap();
    assert_eq!(decode_packet(bytes.as_slice()).unwrap(), p);

    let p = Packet::UnlinkServer { name: "sm\u{f6}rg\u{e5}sbord-\u{4e16}\u{754c}".to_string() };
    let bytes = encode_packet(&p).unwrap();
    assert_eq!(decode_packet(bytes.as_slice()).unwrap(), p);
}

#[test]
fn round_trip_long_name() {
    // a name long enough for the two-byte string header
    let long: String = std::iter::repeat('x').take(300).collect();
    let p = Packet::UnlinkServer { name: long };
    let bytes = encode_packet(&p).unwrap();
    assert_eq!(decode_packet(bytes.as_slice()).unwrap(), p);
}

#[test]
fn round_trip_request_player_none_and_some() {
    let p = Packet::Request { kind: Kind::Minigame { kind: "bedwars".to_string() }, player: None };
    let bytes = encode_packet(&p).unwrap();
    assert_eq!(decode_packet(bytes.as_slice()).unwrap(), p);

    let p = Packet::Request {
        kind: Kind::Minigame { kind: "bedwars".to_string() },
        player: Some("p1".to_string()),
    };
    let bytes = encode_packet(&p).unwrap();
    assert_eq!(decode_packet(bytes.as_slice()).unwrap(), p);
}

#[test]
fn round_trip_link_server_large_port() {
    let p = Packet::LinkServer {
        name: "m-0".to_string(),
        address: "172.18.0.5".to_string(),
        port: 65535,
        priority: 2,
    };
    let bytes = encode_packet(&p).unwrap();
    assert_eq!(decode_packet(bytes.as_slice()).unwrap(), p);
}

#[test]
fn round_trip_ping_pong_timers() {
    for timer in [0, 1, -1, -32, -33, 127, 128, 255, 256, -128, -129, -32768, -32769, 65535, 65536,
        i32::MAX, i32::MIN] {
        let p = Packet::Ping { timer };
        let bytes = encode_packet(&p).unwrap();
        assert_eq!(decode_packet(bytes.as_slice()).unwrap(), p);
        let p = Packet::Pong { timer };
        let bytes = encode_packet(&p).unwrap();
        assert_eq!(decode_packet(bytes.as_slice()).unwrap(), p);
    }
}

#[test]
fn round_trip_transport_and_update_active() {
    let p = Packet::TransportPlayer { player: "p1".to_string(), to: "m-0".to_string() };
    let bytes = encode_packet(&p).unwrap();
    assert_eq!(decode_packet(bytes.as_slice()).unwrap(), p);

    for active in [true, false] {
        let p = Packet::UpdateActive { active };
        let bytes = encode_packet(&p).unwrap();
        assert_eq!(decode_packet(bytes.as_slice()).unwrap(), p);
    }
}

#[test]
fn exact_bytes_ping_zero() {
    // {"Ping": {"timer": 0}} in the compact self-describing form
    let p = Packet::Ping { timer: 0 };
    let bytes = encode_packet(&p).unwrap();
    let expected: Vec<u8> = vec![
        0x81, 0xa4, b'P', b'i', b'n', b'g', 0x81, 0xa5, b't', b'i', b'm', b'e', b'r', 0x00,
    ];
    assert_eq!(bytes, expected);
}

#[test]
fn exact_bytes_pong_negative_timer() {
    // -1 is a single-byte negative integer on the wire
    let p = Packet::Pong { timer: -1 };
    let bytes = encode_packet(&p).unwrap();
    let expected: Vec<u8> = vec![
        0x81, 0xa4, b'P', b'o', b'n', b'g', 0x81, 0xa5, b't', b'i', b'm', b'e', b'r', 0xff,
    ];
    assert_eq!(bytes, expected);
}

#[test]
fn exact_bytes_update_active() {
    let p = Packet::UpdateActive { active: true };
    let bytes = encode_packet(&p).unwrap();
    let mut expected: Vec<u8> = vec![0x81, 0xac];
    expected.extend_from_slice(b"UpdateActive");
    expected.push(0x81);
    expected.push(0xa6);
    expected.extend_from_slice(b"active");
    expected.push(0xc3);
    assert_eq!(bytes, expected);
}

#[test]
fn exact_bytes_authentication_lobby() {
    // the kind is adjacently tagged: {"tag": "Lobby"}
    let p = Packet::Authentication {
        name: "lobby-0".to_string(),
        kind: Kind::Lobby,
        ip: "1.2.3.4:80".to_string(),
    };
    let bytes = encode_packet(&p).unwrap();
    let mut expected: Vec<u8> = vec![0x81, 0xae];
    expected.extend_from_slice(b"Authentication");
    expected.push(0x83);
    expected.push(0xa4);
    expected.extend_from_slice(b"name");
    expected.push(0xa7);
    expected.extend_from_slice(b"lobby-0");
    expected.push(0xa4);
    expected.extend_from_slice(b"kind");
    expected.push(0x81);
    expected.push(0xa3);
    expected.extend_from_slice(b"tag");
    expected.push(0xa5);
    expected.extend_from_slice(b"Lobby");
    expected.push(0xa2);
    expected.extend_from_slice(b"ip");
    expected.push(0xaa);
    expected.extend_from_slice(b"1.2.3.4:80");
    assert_eq!(bytes, expected);
}

#[test]
fn exact_bytes_minigame_kind() {
    // {"tag": "Minigame", "payload": {"kind": "bedwars"}}
    let p = Packet::Request { kind: Kind::Minigame { kind: "bedwars".to_string() }, player: None };
    let bytes = encode_packet(&p).unwrap();
    let mut expected: Vec<u8> = vec![0x81, 0xa7];
    expected.extend_from_slice(b"Request");
    expected.push(0x82);
    expected.push(0xa4);
    expected.extend_from_slice(b"kind");
    expected.push(0x82);
    expected.push(0xa3);
    expected.extend_from_slice(b"tag");
    expected.push(0xa8);
    expected.extend_from_slice(b"Minigame");
    expected.push(0xa7);
    expected.extend_from_slice(b"payload");
    expected.push(0x81);
    expected.push(0xa4);
    expected.extend_from_slice(b"kind");
    expected.push(0xa7);
    expected.extend_from_slice(b"bedwars");
    expected.push(0xa6);
    expected.extend_from_slice(b"player");
    expected.push(0xc0);
    assert_eq!(bytes, expected);
}

#[test]
fn decode_rejects_malformed() {
    // empty input
    assert!(decode_packet(&[]).is_err());
    // unknown variant
    let mut unknown: Vec<u8> = vec![0x81, 0xa4];
    unknown.extend_from_slice(b"Oops");
    unknown.push(0xc0);
    assert!(decode_packet(unknown.as_slice()).is_err());
    // truncated Ping
    let good = encode_packet(&Packet::Ping { timer: 300 }).unwrap();
    assert!(decode_packet(&good[..good.len() - 1]).is_err());
    // trailing garbage
    let mut noisy = good.clone();
    noisy.push(0x00);
    assert!(decode_packet(noisy.as_slice()).is_err());
}

#[test]
fn decode_rejects_non_compact_integer() {
    // Ping{0} with the timer written as a two-byte unsigned integer instead
    // of the single-byte form
    let bytes: Vec<u8> = vec![
        0x81, 0xa4, b'P', b'i', b'n', b'g', 0x81, 0xa5, b't', b'i', b'm', b'e', b'r', 0xcc, 0x00,
    ];
    assert!(decode_packet(bytes.as_slice()).is_err());
}

#[test]
fn frame_carries_length_then_payload() {
    let p = Packet::UnlinkServer { name: "m-0".to_string() };
    let frame = frame_packet(&p).unwrap();
    let payload = encode_packet(&p).unwrap();
    assert_eq!(frame.len(), payload.len() + 4);
    let n = frame_payload_len(&frame[..4]);
    assert_eq!(n as usize, payload.len());
    assert_eq!(&frame[4..], payload.as_slice());
    assert_eq!(decode_packet(&frame[4..]).unwrap(), p);
}

#[test]
fn packet_methods_match_the_free_functions() {
    let p = Packet::Ping { timer: 42 };
    let bytes = p.to_bytes().unwrap();
    assert_eq!(bytes, encode_packet(&p).unwrap());
    assert_eq!(Packet::from_bytes(bytes.as_slice()).unwrap(), p);
}
