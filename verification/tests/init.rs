use quantum_lt::{init_packets, Mixer, Mprm, Pari, PacketBuilder};

#[test]
fn init_sends_nineteen_numbered_packets() {
    let mut seq = 0u32;
    let pkts = init_packets(&mut seq);
    assert_eq!(seq, 19);
    assert_eq!(pkts.len(), 19);
    for (i, p) in pkts.iter().enumerate() {
        let b = p.to_bytes();
        assert_eq!(u32::from_le_bytes([b[4], b[5], b[6], b[7]]), i as u32 + 1);
    }
}

#[test]
fn init_first_and_last_packets() {
    let mut seq = 10u32;
    let pkts = init_packets(&mut seq);
    assert_eq!(seq, 29);
    let first = PacketBuilder::pari(11, 0, Pari::new(0, 0, 4).to_bytes().to_vec()).build().unwrap();
    assert_eq!(pkts[0].to_bytes(), first.to_bytes());
    let disable = PacketBuilder::pari(14, 0, Pari::new(0, 1, 0).to_bytes().to_vec()).build().unwrap();
    assert_eq!(pkts[3].to_bytes(), disable.to_bytes());
    let last = PacketBuilder::pari(29, 1, Pari::new(14, 0, 0).to_bytes().to_vec()).build().unwrap();
    assert_eq!(pkts[18].to_bytes(), last.to_bytes());
}

#[test]
fn init_mixer_batches() {
    let mute = (-145f32).to_bits();
    let mut expected: Vec<Mixer> = Vec::new();
    for bus in 0..4u8 {
        for ch in 0..25u8 {
            let routed = ch >= 16 && bus == (ch - 16) / 2 && ch % 2 == 0;
            expected.push(Mixer::new(ch as u16, bus, 0, if routed { 0 } else { mute }));
        }
    }
    let mut seq = 0u32;
    let pkts = init_packets(&mut seq);
    let first = PacketBuilder::mprm(2, Mprm::new(expected[0..60].to_vec()).to_bytes().to_vec())
        .build()
        .unwrap();
    let second = PacketBuilder::mprm(3, Mprm::new(expected[60..100].to_vec()).to_bytes().to_vec())
        .build()
        .unwrap();
    assert_eq!(pkts[1].to_bytes(), first.to_bytes());
    assert_eq!(pkts[2].to_bytes(), second.to_bytes());
    // Channel 16 on bus 0 and channel 18 on bus 1 are routed; the level 0 is
    // written for them.
    let b = pkts[1].to_bytes();
    let payload = &b[28..];
    let at = 4 + 16 * 8;
    assert_eq!(&payload[at..at + 8], &[16, 0, 0, 0, 0, 0, 0, 0]);
    assert_eq!(&payload[4..12], &[0, 0, 0, 0, 0, 0, 0x11, 0xc3]);
}
