use ppoprf::prg::{copy_bytes, sample_secret, GGMPseudorandomGenerator};

#[test]
fn generator_is_hmac_sha256() {
    let prg = GGMPseudorandomGenerator::from_secret(b"Jefe");
    let mut out = [0u8; 32];
    prg.eval(b"what do ya want for nothing?", &mut out);
    let expected: [u8; 32] = [
        0x5b, 0xdc, 0xc1, 0x46, 0xbf, 0x60, 0x75, 0x4e, 0x6a, 0x04, 0x24, 0x26, 0x08, 0x95, 0x75,
        0xc7, 0x5a, 0x00, 0x3f, 0x08, 0x9d, 0x27, 0x39, 0x83, 0x9d, 0xec, 0x58, 0xb9, 0x64, 0xec,
        0x38, 0x43,
    ];
    assert_eq!(out, expected);
}

#[test]
fn root_value_of_known_secrets() {
    let prg = GGMPseudorandomGenerator::from_secret(&[2u8; 32]);
    let mut out = [0u8; 32];
    prg.eval(&[1u8; 32], &mut out);
    let expected: [u8; 32] = [
        0xa5, 0x80, 0xc1, 0xf2, 0x9e, 0xc1, 0x82, 0x8e, 0xf7, 0xe5, 0x15, 0x68, 0x78, 0xfe, 0x2a,
        0x33, 0xb7, 0x21, 0x25, 0xaf, 0x66, 0x7d, 0x11, 0xe4, 0x47, 0x08, 0x0f, 0xa4, 0x14, 0xdd,
        0x3a, 0xce,
    ];
    assert_eq!(out, expected);
}

#[test]
fn generator_accepts_any_input_length() {
    let prg = GGMPseudorandomGenerator::from_secret(&[7u8; 32]);
    let mut empty = [0u8; 32];
    prg.eval(&[], &mut empty);
    let mut long = [0u8; 32];
    prg.eval(&[0u8; 1000], &mut long);
    assert_ne!(empty, [0u8; 32]);
    assert_ne!(empty, long);
}

#[test]
fn generator_is_deterministic() {
    let prg = GGMPseudorandomGenerator::setup().unwrap();
    let mut first = [0u8; 32];
    let mut second = [0u8; 32];
    prg.eval(b"input", &mut first);
    prg.eval(b"input", &mut second);
    assert_eq!(first, second);
}

#[test]
fn fresh_generators_differ() {
    let a = GGMPseudorandomGenerator::setup().unwrap();
    let b = GGMPseudorandomGenerator::setup().unwrap();
    let mut out_a = [0u8; 32];
    let mut out_b = [0u8; 32];
    a.eval(b"input", &mut out_a);
    b.eval(b"input", &mut out_b);
    assert_ne!(out_a, out_b);
}

#[test]
fn secrets_are_fresh() {
    let a = sample_secret().unwrap();
    let b = sample_secret().unwrap();
    assert_eq!(a.len(), 32);
    assert_eq!(b.len(), 32);
    assert_ne!(a, vec![0u8; 32]);
    assert_ne!(a, b);
}

#[test]
fn copy_bytes_overwrites() {
    let mut dst = [0u8; 4];
    copy_bytes(&mut dst, &[1, 2, 3, 4]);
    assert_eq!(dst, [1, 2, 3, 4]);
    let mut nothing: [u8; 0] = [];
    copy_bytes(&mut nothing, &[]);
}

#[test]
fn a_failed_fill_gives_no_secret() {
    assert_eq!(ppoprf::prg::secret_of_fill(true, vec![5u8; 32]), Some(vec![5u8; 32]));
    assert_eq!(ppoprf::prg::secret_of_fill(false, vec![5u8; 32]), None);
    assert_eq!(ppoprf::prg::secret_of_fill(true, Vec::new()), Some(Vec::new()));
}

#[test]
fn generator_follows_its_sample() {
    assert!(GGMPseudorandomGenerator::from_sample(None).is_none());
    let prg = GGMPseudorandomGenerator::from_sample(Some(b"Jefe".to_vec())).unwrap();
    let same = GGMPseudorandomGenerator::from_secret(b"Jefe");
    let mut out = [0u8; 32];
    let mut expected = [0u8; 32];
    prg.eval(b"what do ya want for nothing?", &mut out);
    same.eval(b"what do ya want for nothing?", &mut expected);
    assert_eq!(out, expected);
    assert_eq!(out[0], 0x5b);
}

#[test]
fn a_cloned_generator_gives_the_same_outputs() {
    let prg = GGMPseudorandomGenerator::from_secret(b"Jefe");
    let copy = prg.clone();
    let mut out = [0u8; 32];
    let mut expected = [0u8; 32];
    copy.eval(b"what do ya want for nothing?", &mut out);
    prg.eval(b"what do ya want for nothing?", &mut expected);
    assert_eq!(out, expected);
    assert_eq!(out[31], 0x43);
}
