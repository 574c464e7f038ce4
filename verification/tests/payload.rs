use quantum_lt::{Mixer, Mprm, Pari, QUSt};

#[test]
fn test_pari() {
    let bytes = Pari::new(0, 0, 0).to_bytes();
    Pari::parse(&bytes, bytes.len() as u32).unwrap();
}

#[test]
fn test_mprm() {
    let mut mixers: Vec<Mixer> = vec![];
    mixers.push(Mixer::new(0, 0, 0, (-145f32).to_bits()));
    let mprm = Mprm::new(mixers);
    let bytes = mprm.to_bytes();
    Mprm::parse(&bytes, bytes.len() as u32).unwrap();
}

#[test]
fn test_qust() {
    let bytes = QUSt::new(
        [0f32; 16].iter().map(|f| f.to_bits()).collect(),
        [0f32; 10].iter().map(|f| f.to_bits()).collect(),
        [0f32; 10].iter().map(|f| f.to_bits()).collect(),
        0,
        0,
        "this.is.test".to_string(),
    )
    .to_bytes();
    QUSt::parse(&bytes, bytes.len() as u32).unwrap();
}

#[test]
fn pari_encoding_and_round_trip() {
    let p = Pari::new(0x01020304, 5, 0xffffffff);
    let bytes = p.to_bytes();
    assert_eq!(bytes, [4, 3, 2, 1, 5, 0, 0, 0, 0xff, 0xff, 0xff, 0xff]);
    let back = Pari::parse(&bytes, 12).unwrap();
    assert_eq!(back.to_bytes(), bytes);
    assert!(Pari::parse(&bytes, 11).is_none());
}

#[test]
fn mixer_parse() {
    let m = Mixer::parse(&[0x34, 0x12, 3, 1, 0, 0, 0x11, 0xc3], 8).unwrap();
    let bytes = Mprm::new(vec![m]).to_bytes();
    assert_eq!(&bytes[0..4], &[0, 0, 0, 0]);
    assert_eq!(&bytes[4..12], &[0x34, 0x12, 3, 1, 0, 0, 0x11, 0xc3]);
    assert!(Mixer::parse(&[0; 8], 7).is_none());
}

#[test]
fn mprm_encoding() {
    let mixers = vec![
        Mixer::new(1, 2, 3, 0.5f32.to_bits()),
        Mixer::new(0x0102, 0, 1, (-145f32).to_bits()),
    ];
    let bytes = Mprm::new(mixers).to_bytes();
    assert_eq!(bytes.len(), 488);
    let mut expected = [0u8; 488];
    expected[4..12].copy_from_slice(&[1, 0, 2, 3, 0, 0, 0, 0x3f]);
    expected[12..20].copy_from_slice(&[2, 1, 0, 1, 0, 0, 0x11, 0xc3]);
    expected[484] = 2;
    assert_eq!(bytes, expected);
}

#[test]
fn mprm_parse_reads_sixty_settings_from_offset_zero() {
    let mut data = [0u8; 488];
    data[0..8].copy_from_slice(&[9, 0, 1, 0, 1, 2, 3, 4]);
    let m = Mprm::parse(&data, 488).unwrap();
    let bytes = m.to_bytes();
    assert_eq!(&bytes[4..12], &[9, 0, 1, 0, 1, 2, 3, 4]);
    assert_eq!(&bytes[484..488], &[60, 0, 0, 0]);
    assert!(Mprm::parse(&data, 487).is_none());
}

#[test]
fn qust_layout_and_round_trip() {
    let inch: Vec<u32> = (0..16).collect();
    let auxch: Vec<u32> = (100..110).collect();
    let outch: Vec<u32> = (200..210).collect();
    let bytes = QUSt::new(inch, auxch, outch, 7, 8, "v1.2.3-abcde".to_string()).to_bytes();
    assert_eq!(&bytes[0..8], &[0, 0, 0, 0, 1, 0, 0, 0]);
    assert_eq!(&bytes[64..68], &[100, 0, 0, 0]);
    assert_eq!(&bytes[140..144], &[209, 0, 0, 0]);
    assert_eq!(bytes[144], 7);
    assert_eq!(bytes[145], 8);
    assert_eq!(&bytes[146..158], b"v1.2.3-abcde");
    assert_eq!(&bytes[158..162], &[0, 0, 0, 0]);
    let back = QUSt::parse(&bytes, 162).unwrap();
    assert_eq!(back.to_bytes(), bytes);
    assert!(QUSt::parse(&bytes, 161).is_none());
}

#[test]
fn qust_parse_decodes_a_multibyte_version() {
    let mut data = vec![0u8; 158];
    let version = "\u{e9}t\u{e9}.2024.1";
    assert_eq!(version.len(), 12);
    data[146..158].copy_from_slice(version.as_bytes());
    let q = QUSt::parse(&data, 162).unwrap();
    let bytes = q.to_bytes();
    assert_eq!(&bytes[146..158], version.as_bytes());
}

#[test]
fn placeholder_is_zeroed() {
    assert_eq!(QUSt::placeholder(), vec![0u8; 162]);
}
