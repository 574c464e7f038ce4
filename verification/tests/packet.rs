use quantum_lt::device::is_quantum_lt;
use quantum_lt::{Packet, PacketBuilder, CMD, SUBCMD};

#[test]
fn test_packet() {
    let payload = [0u8; 12].to_vec();
    let pkt = PacketBuilder::new()
        .id(0x0101)
        .seq(2)
        .cmd(CMD::ApplSetP)
        .bank(3)
        .subcmd(SUBCMD::Pari)
        .payload(payload)
        .build()
        .unwrap();
    let bytes = pkt.to_bytes();
    Packet::parse(&bytes, bytes.len()).unwrap();
}

#[test]
fn cmd_names_and_wire_forms() {
    assert_eq!(CMD::ApplGetP.as_str(), "ApplGetP");
    assert_eq!(CMD::ApplSetP.as_str(), "ApplSetP");
    assert_eq!(CMD::ApplRply.as_str(), "ApplRply");
    assert_eq!(CMD::SetP.as_str(), "SetP");
    assert_eq!(CMD::Rply.as_str(), "Rply");
    assert_eq!(CMD::ApplGetP.as_bytes(), *b"PteGlppA");
    assert_eq!(CMD::SetP.as_bytes(), [b'P', b't', b'e', b'S', 0, 0, 0, 0]);
    assert_eq!(CMD::Rply.as_bytes(), [b'y', b'l', b'p', b'R', 0, 0, 0, 0]);
}

#[test]
fn cmd_from_bytes_reads_back_every_command() {
    for c in [CMD::ApplGetP, CMD::ApplSetP, CMD::ApplRply, CMD::SetP, CMD::Rply] {
        let mut b = c.as_bytes().to_vec();
        b.extend_from_slice(&[1, 2, 3]);
        assert_eq!(CMD::from_bytes(&b), Some(c));
    }
    assert_eq!(CMD::from_bytes(b"PteS"), None);
    assert_eq!(CMD::from_bytes(b"PteS\0\0\0\x01"), None);
    assert_eq!(CMD::from_bytes(b"ApplGetP"), None);
}

#[test]
fn subcmd_names_and_wire_forms() {
    assert_eq!(SUBCMD::QUSt.as_str(), "QUst");
    assert_eq!(SUBCMD::Pari.as_str(), "Pari");
    assert_eq!(SUBCMD::Mprm.as_str(), "mprm");
    assert_eq!(SUBCMD::QUSt.as_bytes(), *b"tsUQ");
    assert_eq!(SUBCMD::Pari.as_bytes(), *b"iraP");
    assert_eq!(SUBCMD::Mprm.as_bytes(), *b"mrpm");
    for c in [SUBCMD::QUSt, SUBCMD::Pari, SUBCMD::Mprm] {
        assert_eq!(SUBCMD::from_bytes(&c.as_bytes()), Some(c));
    }
    assert_eq!(SUBCMD::from_bytes(b"Pari"), None);
    assert_eq!(SUBCMD::from_bytes(b"ira"), None);
}

#[test]
fn to_bytes_of_a_parameter_packet() {
    let pkt = PacketBuilder::pari(7, 2, vec![1, 2, 3, 4, 5, 6, 7, 8, 9, 10, 11, 12])
        .build()
        .unwrap();
    let mut expected = vec![32, 0, 0x01, 0x01, 7, 0, 0, 0];
    expected.extend_from_slice(b"PteSlppA");
    expected.extend_from_slice(&[2, 0, 0, 0]);
    expected.extend_from_slice(b"iraP");
    expected.extend_from_slice(&[24, 0, 0, 0]);
    expected.extend_from_slice(&[1, 2, 3, 4, 5, 6, 7, 8, 9, 10, 11, 12]);
    assert_eq!(pkt.to_bytes(), expected);
    assert_eq!(u16::from_le_bytes([expected[0], expected[1]]) as usize, expected.len() - 8);
}

#[test]
fn to_bytes_of_a_bare_header_announces_no_body() {
    let pkt = PacketBuilder::new().id(0x1234).seq(0x0a0b0c0d).build().unwrap();
    assert_eq!(pkt.to_bytes(), vec![0, 0, 0x34, 0x12, 0x0d, 0x0c, 0x0b, 0x0a]);
}

#[test]
fn build_needs_id_and_seq() {
    assert_eq!(PacketBuilder::new().seq(1).build().err().unwrap(), "id");
    assert_eq!(PacketBuilder::new().build().err().unwrap(), "id");
    assert_eq!(PacketBuilder::new().id(1).build().err().unwrap(), "seq");
    assert!(PacketBuilder::new().id(1).seq(1).build().is_ok());
}

#[test]
fn parse_rejects_short_sizes() {
    let bytes = [8u8, 0, 1, 1, 5, 0, 0, 0];
    for size in 0..8 {
        assert_eq!(Packet::parse(&bytes, size).err().unwrap(), "Invalid format.");
    }
}

#[test]
fn parse_of_a_bare_header() {
    let bytes = [8u8, 0, 0x34, 0x12, 5, 0, 0, 0];
    let pkt = Packet::parse(&bytes, 8).unwrap();
    assert_eq!(pkt.to_bytes(), vec![0, 0, 0x34, 0x12, 5, 0, 0, 0]);
}

#[test]
fn parameter_packet_round_trip() {
    let pkt = PacketBuilder::pari(9, 1, vec![5; 12]).build().unwrap();
    let bytes = pkt.to_bytes();
    assert!(Packet::can_parse(&bytes, bytes.len()));
    let back = Packet::parse(&bytes, bytes.len()).unwrap();
    assert_eq!(back.to_bytes(), bytes);
}

#[test]
fn parse_keeps_only_the_payload_format() {
    // A 14-byte parameter payload is read back as its first 12 bytes.
    let pkt = PacketBuilder::pari(9, 1, (1..=14).collect()).build().unwrap();
    let bytes = pkt.to_bytes();
    let back = Packet::parse(&bytes, bytes.len()).unwrap();
    let expected = PacketBuilder::pari(9, 1, (1..=12).collect()).build().unwrap();
    assert_eq!(back.to_bytes(), expected.to_bytes());
}

#[test]
fn status_request_round_trip() {
    let pkt = PacketBuilder::qust(3).build().unwrap();
    let bytes = pkt.to_bytes();
    assert_eq!(bytes.len(), 8 + 8 + 4 + 4 + 4 + 162);
    assert_eq!(&bytes[0..2], &[182u8, 0]);
    let back = Packet::parse(&bytes, bytes.len()).unwrap();
    assert_eq!(back.to_bytes(), bytes);
}

#[test]
fn mixer_batch_packet_is_read_from_offset_zero() {
    let mut payload = vec![0u8; 488];
    payload[4] = 7; // channel of the first mixer, as written
    payload[484] = 1;
    let pkt = PacketBuilder::mprm(1, payload.clone()).build().unwrap();
    let bytes = pkt.to_bytes();
    let back = Packet::parse(&bytes, bytes.len()).unwrap().to_bytes();
    let mut expected_payload = vec![0u8; 488];
    expected_payload[8] = 7;
    expected_payload[484] = 60;
    let expected = PacketBuilder::mprm(1, expected_payload).build().unwrap().to_bytes();
    assert_eq!(back, expected);
}

#[test]
fn can_parse_cases() {
    assert!(Packet::can_parse(&[], 3));
    assert!(!Packet::can_parse(&[8, 0, 0], 8));
    assert!(Packet::can_parse(&[8, 0, 0, 0, 0, 0, 0, 0], 8));
    assert!(!Packet::can_parse(&[9, 0, 0, 0, 0, 0, 0, 0], 8));
    let good = PacketBuilder::pari(1, 0, vec![0; 12]).build().unwrap().to_bytes();
    assert!(Packet::can_parse(&good, good.len()));
    let mut bad_cmd = good.clone();
    bad_cmd[8] = b'X';
    assert!(!Packet::can_parse(&bad_cmd, bad_cmd.len()));
    let mut bad_sub = good.clone();
    bad_sub[20] = b'X';
    assert!(!Packet::can_parse(&bad_sub, bad_sub.len()));
    let short = PacketBuilder::pari(1, 0, vec![0; 11]).build().unwrap().to_bytes();
    assert!(!Packet::can_parse(&short, short.len()));
    let mut bad_len = good.clone();
    bad_len[24] = 7;
    assert!(!Packet::can_parse(&bad_len, bad_len.len()));
}

#[test]
fn can_parse_rejects_a_status_with_a_bad_version() {
    let mut payload = vec![0u8; 162];
    payload[146] = 0xff;
    let bytes = PacketBuilder::new()
        .id(1)
        .seq(1)
        .cmd(CMD::ApplRply)
        .bank(0)
        .subcmd(SUBCMD::QUSt)
        .payload(payload)
        .build()
        .unwrap()
        .to_bytes();
    assert!(!Packet::can_parse(&bytes, bytes.len()));
}

#[test]
fn device_ids() {
    assert!(is_quantum_lt(0x1ed8, 0x0206));
    assert!(!is_quantum_lt(0x1ed8, 0x0207));
    assert!(!is_quantum_lt(0x1ed9, 0x0206));
}
