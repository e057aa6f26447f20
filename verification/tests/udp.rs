use tunnel_inserter::udp::{checksum, create_ipv4_udp_packet, parse_ipv4_udp_packet, Ipv4Addr};

#[test]
fn example_raw_decode() {
    // Example raw UDP packet (in hex)
    let raw_packet: Vec<u8> = vec![
        0x45, 0x00, 0x00, 0x22, 0x00, 0x00, 0x40, 0x00, 0x40, 0x11, 0xB7,
        0x15, // IPv4 Header (example)
        192, 168, 1, 100, // Source IP
        192, 168, 1, 1, // Destination IP
        0x30, 0x39, 0x00, 0x50, 0x00, 0x0E, 0x00, 0x00, // UDP Header (example)
        72, 101, 108, 108, 111, 33, // "Hello!"
    ];

    match parse_ipv4_udp_packet(&raw_packet) {
        Some((src_ip, dst_ip, src_port, dst_port, payload)) => {
            assert_eq!(src_ip, Ipv4Addr::new(192, 168, 1, 100));
            assert_eq!(dst_ip, Ipv4Addr::new(192, 168, 1, 1));
            assert_eq!(src_port, 12345);
            assert_eq!(dst_port, 80);
            assert_eq!(payload, &[72, 101, 108, 108, 111, 33]);
        }
        None => {
            panic!("Invalid packet.");
        }
    }
}

#[test]
fn example_encapsulate_decapsulate() {
    // other way.
    let payload = b"Hello, UDP!";
    let src_ip = Ipv4Addr::new(192, 168, 1, 100);
    let dst_ip = Ipv4Addr::new(192, 168, 1, 1);
    let src_port = 12345;
    let dst_port = 80;

    let packet = create_ipv4_udp_packet(payload, src_ip, dst_ip, src_port, dst_port);
    println!("Generated IPv4 UDP Packet: {:02X?}", packet);

    match parse_ipv4_udp_packet(&packet) {
        Some((s, d, sp, dp, data)) => {
            assert_eq!(s, src_ip);
            assert_eq!(d, dst_ip);
            assert_eq!(sp, src_port);
            assert_eq!(dp, dst_port);
            assert_eq!(data, payload);
        }
        None => {
            panic!("Invalid packet.");
        }
    }
}

#[test]
fn checksum_empty_buffer() {
    assert_eq!(checksum(&[]), 0xFFFF);
}

#[test]
fn checksum_exact_values() {
    // One word, no carry.
    assert_eq!(checksum(&[0x00, 0x01]), 0xFFFE);
    // Carry folding: 0xFFFF + 0x0001 = 0x10000 folds to 0x0001.
    assert_eq!(checksum(&[0xFF, 0xFF, 0x00, 0x01]), 0xFFFE);
    // An odd trailing byte is the high byte of a zero-padded word.
    assert_eq!(checksum(&[0x12]), 0xEDFF);
    assert_eq!(checksum(&[0x12, 0x34, 0x56]), !0x6834u16);
}

#[test]
fn encode_layout_fields() {
    let packet = create_ipv4_udp_packet(
        b"ping",
        Ipv4Addr::new(10, 0, 0, 1),
        Ipv4Addr::new(10, 0, 0, 2),
        9000,
        9001,
    );
    assert_eq!(packet.len(), 32);
    assert_eq!(packet[0], 0x45);
    assert_eq!(packet[1], 0x00);
    assert_eq!(&packet[2..4], &[0x00, 32]); // total length
    assert_eq!(&packet[4..6], &[0x00, 0x00]); // identification
    assert_eq!(&packet[6..8], &[0x40, 0x00]); // don't-fragment
    assert_eq!(packet[8], 64); // TTL
    assert_eq!(packet[9], 17); // protocol
    assert_eq!(&packet[12..16], &[10, 0, 0, 1]);
    assert_eq!(&packet[16..20], &[10, 0, 0, 2]);
    assert_eq!(&packet[20..22], &9000u16.to_be_bytes());
    assert_eq!(&packet[22..24], &9001u16.to_be_bytes());
    assert_eq!(&packet[24..26], &12u16.to_be_bytes()); // UDP length
    assert_eq!(&packet[26..28], &[0x00, 0x00]); // UDP checksum unset
    assert_eq!(&packet[28..], b"ping");
    // The header checksum folds the first 20 bytes to zero.
    assert_eq!(checksum(&packet[..20]), 0);
}

#[test]
fn round_trip_empty_payload() {
    let src = Ipv4Addr::new(172, 16, 5, 5);
    let dst = Ipv4Addr::new(172, 16, 5, 6);
    let packet = create_ipv4_udp_packet(b"", src, dst, 1, 65535);
    assert_eq!(packet.len(), 28);
    let (s, d, sp, dp, data) = parse_ipv4_udp_packet(&packet).expect("valid packet");
    assert_eq!(s, src);
    assert_eq!(d, dst);
    assert_eq!(sp, 1);
    assert_eq!(dp, 65535);
    assert!(data.is_empty());
}

#[test]
fn round_trip_longest_payload() {
    // The largest payload the 16-bit total-length field can carry.
    let payload: Vec<u8> = (0..65507u32).map(|i| (i % 251) as u8).collect();
    let src = Ipv4Addr::new(1, 2, 3, 4);
    let dst = Ipv4Addr::new(5, 6, 7, 8);
    let packet = create_ipv4_udp_packet(&payload, src, dst, 7, 9);
    assert_eq!(packet.len(), 65535);
    let (_, _, _, _, data) = parse_ipv4_udp_packet(&packet).expect("valid packet");
    assert_eq!(data, &payload[..]);
}

#[test]
fn truncation_rejected() {
    let packet = create_ipv4_udp_packet(
        b"some payload bytes",
        Ipv4Addr::new(192, 168, 0, 1),
        Ipv4Addr::new(192, 168, 0, 2),
        4000,
        5000,
    );
    for k in 0..packet.len() {
        assert!(parse_ipv4_udp_packet(&packet[..k]).is_none(), "truncated to {k} bytes");
    }
}

#[test]
fn single_bit_flip_rejected() {
    let packet = create_ipv4_udp_packet(
        b"integrity",
        Ipv4Addr::new(10, 1, 1, 1),
        Ipv4Addr::new(10, 1, 1, 2),
        1111,
        2222,
    );
    // Any bit of bytes 1..20, and any bit of the first byte's high nibble
    // (the version field), breaks the decode.
    for i in 0..20 {
        for b in 0..8 {
            if i == 0 && b < 4 {
                // Flips of the declared header length are covered below.
                continue;
            }
            let mut tampered = packet.clone();
            tampered[i] ^= 1 << b;
            assert!(
                parse_ipv4_udp_packet(&tampered).is_none(),
                "bit {b} of byte {i} flipped but the packet was accepted"
            );
        }
    }
    // Flipping the low nibble of byte 0 changes the declared header length;
    // the decoder must reject unless the new declared header also sums to
    // zero, which it does not for this packet.
    for b in 0..4 {
        let mut tampered = packet.clone();
        tampered[0] ^= 1 << b;
        assert!(parse_ipv4_udp_packet(&tampered).is_none());
    }
}

#[test]
fn wrong_protocol_rejected() {
    let packet = create_ipv4_udp_packet(
        b"x",
        Ipv4Addr::new(8, 8, 8, 8),
        Ipv4Addr::new(9, 9, 9, 9),
        53,
        53,
    );
    for proto in [0u8, 1, 6, 16, 18, 255] {
        // A buffer identical to the valid encoding except for the protocol
        // byte is rejected.
        let mut tampered = packet.clone();
        tampered[9] = proto;
        assert!(parse_ipv4_udp_packet(&tampered).is_none(), "protocol {proto} accepted");
        // Still rejected when the header checksum is recomputed, so the
        // protocol check itself does the rejecting.
        tampered[10] = 0;
        tampered[11] = 0;
        let c = checksum(&tampered[..20]);
        tampered[10..12].copy_from_slice(&c.to_be_bytes());
        assert!(parse_ipv4_udp_packet(&tampered).is_none(), "protocol {proto} accepted");
    }
}

#[test]
fn nonzero_udp_checksum_validated() {
    let src = Ipv4Addr::new(192, 0, 2, 1);
    let dst = Ipv4Addr::new(192, 0, 2, 2);
    let mut packet = create_ipv4_udp_packet(b"payload", src, dst, 1234, 5678);
    // Fill in a correct UDP checksum over the pseudo-header; the decoder
    // must then accept the packet through the validation path.
    let udp_len = (packet.len() - 20) as u16;
    let mut pseudo: Vec<u8> = Vec::new();
    pseudo.extend_from_slice(&packet[12..20]);
    pseudo.push(0);
    pseudo.push(17);
    pseudo.extend_from_slice(&udp_len.to_be_bytes());
    pseudo.extend_from_slice(&packet[20..]);
    let c = checksum(&pseudo);
    packet[26..28].copy_from_slice(&c.to_be_bytes());
    let (_, _, _, _, data) = parse_ipv4_udp_packet(&packet).expect("valid checksum accepted");
    assert_eq!(data, b"payload");

    // A wrong non-zero UDP checksum is rejected.
    packet[26..28].copy_from_slice(&c.wrapping_add(1).to_be_bytes());
    assert!(parse_ipv4_udp_packet(&packet).is_none());
}

#[test]
fn header_length_past_buffer_rejected() {
    let mut packet = create_ipv4_udp_packet(
        b"",
        Ipv4Addr::new(10, 0, 0, 1),
        Ipv4Addr::new(10, 0, 0, 2),
        1,
        2,
    );
    // Declare a 40-byte header in a 28-byte buffer.
    packet[0] = 0x4A;
    assert!(parse_ipv4_udp_packet(&packet).is_none());
}
