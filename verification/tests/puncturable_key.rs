use ppoprf::bits::Bits;
use ppoprf::key::{GGMError, GGMPuncturableKey, Prefix};

fn path(bools: &[bool]) -> Prefix {
    Prefix::new(Bits::from_bools(bools).unwrap())
}

fn bits(bools: &[bool]) -> Bits {
    Bits::from_bools(bools).unwrap()
}

fn known_key() -> GGMPuncturableKey {
    GGMPuncturableKey::from_secrets(&[1u8; 32], &[2u8; 32], &[3u8; 32])
}

const ROOT0: [u8; 32] = [
    0xa5, 0x80, 0xc1, 0xf2, 0x9e, 0xc1, 0x82, 0x8e, 0xf7, 0xe5, 0x15, 0x68, 0x78, 0xfe, 0x2a, 0x33,
    0xb7, 0x21, 0x25, 0xaf, 0x66, 0x7d, 0x11, 0xe4, 0x47, 0x08, 0x0f, 0xa4, 0x14, 0xdd, 0x3a, 0xce,
];

#[test]
fn prefix_knows_its_length_and_bits() {
    let p = path(&[true, false, true]);
    assert_eq!(p.len(), 3);
    assert_eq!(p.bits().to_bools(), vec![true, false, true]);
    assert_eq!(p.clone().bits().to_bools(), vec![true, false, true]);
    assert!(p.same_path(&p.clone()));
    assert!(!p.same_path(&path(&[true, false])));
    assert!(!p.same_path(&path(&[true, false, false])));
    assert!(p.is_prefix_of(&bits(&[true, false, true, true])));
    assert!(!p.is_prefix_of(&bits(&[true, false])));
}

#[test]
fn fresh_key_covers_both_halves() {
    let key = GGMPuncturableKey::new().unwrap();
    assert_eq!(key.frontier_len(), 2);
    let (left, v0) = key.find_prefix(&bits(&[false, true, true])).unwrap();
    let (right, v1) = key.find_prefix(&bits(&[true, true, false])).unwrap();
    assert_eq!(left.bits().to_bools(), vec![false]);
    assert_eq!(right.bits().to_bools(), vec![true]);
    assert_eq!(v0.len(), 32);
    assert_eq!(v1.len(), 32);
    assert_ne!(v0, v1);
}

#[test]
fn known_key_has_known_roots() {
    let key = known_key();
    let (left, v0) = key.find_prefix(&bits(&[false])).unwrap();
    assert_eq!(left.len(), 1);
    assert_eq!(v0, ROOT0.to_vec());
}

#[test]
fn nothing_covers_the_empty_path() {
    let key = known_key();
    assert_eq!(key.find_prefix(&Bits::new()).err(), Some(GGMError::NoPrefixFound));
}

#[test]
fn key_puncture_replaces_the_entry() {
    let mut key = known_key();
    let replacement = vec![(path(&[false, true]), vec![9u8; 32])];
    assert_eq!(key.puncture(&path(&[false]), &path(&[false, false]), replacement), Ok(()));
    assert_eq!(key.frontier_len(), 2);
    assert_eq!(key.find_prefix(&bits(&[false, false])).err(), Some(GGMError::NoPrefixFound));
    let (p, v) = key.find_prefix(&bits(&[false, true, true])).unwrap();
    assert_eq!(p.bits().to_bools(), vec![false, true]);
    assert_eq!(v, vec![9u8; 32]);
    assert!(key.find_prefix(&bits(&[true, false])).is_ok());
}

#[test]
fn key_puncture_without_replacement_removes_the_entry() {
    let mut key = known_key();
    assert_eq!(key.puncture(&path(&[true]), &path(&[true]), Vec::new()), Ok(()));
    assert_eq!(key.frontier_len(), 1);
    assert_eq!(key.find_prefix(&bits(&[true])).err(), Some(GGMError::NoPrefixFound));
    assert!(key.find_prefix(&bits(&[false])).is_ok());
}

#[test]
fn recorded_prefix_is_already_punctured() {
    let mut key = known_key();
    assert_eq!(key.puncture(&path(&[true]), &path(&[true]), Vec::new()), Ok(()));
    assert_eq!(
        key.puncture(&path(&[true]), &path(&[true]), Vec::new()),
        Err(GGMError::AlreadyPunctured)
    );
    assert_eq!(key.frontier_len(), 1);
}

#[test]
fn a_recorded_path_is_refused_before_the_frontier_is_searched() {
    let mut key = known_key();
    // records the path of the other entry, which stays in the frontier
    assert_eq!(key.puncture(&path(&[true]), &path(&[false]), Vec::new()), Ok(()));
    assert_eq!(
        key.puncture(&path(&[false]), &path(&[false]), Vec::new()),
        Err(GGMError::AlreadyPunctured)
    );
    assert_eq!(key.frontier_len(), 1);
    assert!(key.find_prefix(&bits(&[false])).is_ok());
}

#[test]
fn missing_prefix_is_not_found() {
    let mut key = known_key();
    assert_eq!(
        key.puncture(&path(&[false, true]), &path(&[false, true]), Vec::new()),
        Err(GGMError::NoPrefixFound)
    );
    assert_eq!(key.frontier_len(), 2);
    // a partial-match puncture records the leaf, not the covering prefix
    assert_eq!(key.puncture(&path(&[false]), &path(&[false, false]), Vec::new()), Ok(()));
    assert_eq!(
        key.puncture(&path(&[false]), &path(&[false, false]), Vec::new()),
        Err(GGMError::NoPrefixFound)
    );
    assert_eq!(key.frontier_len(), 1);
}

#[test]
fn generators_are_per_direction() {
    let key = known_key();
    let mut out0 = [0u8; 32];
    let mut out1 = [0u8; 32];
    key.prg(false).eval(&[1u8; 32], &mut out0);
    key.prg(true).eval(&[1u8; 32], &mut out1);
    assert_eq!(out0, ROOT0);
    assert_ne!(out0, out1);
}

#[test]
fn errors_compare_and_print() {
    assert_eq!(GGMError::NoPrefixFound, GGMError::NoPrefixFound);
    assert_ne!(GGMError::NoPrefixFound, GGMError::AlreadyPunctured);
    assert_ne!(GGMError::LengthMismatch, GGMError::AlreadyPunctured);
    assert_eq!(format!("{:?}", GGMError::LengthMismatch), "LengthMismatch");
    assert_eq!(format!("{:?}", GGMError::NoPrefixFound), "NoPrefixFound");
    assert_eq!(format!("{:?}", GGMError::AlreadyPunctured), "AlreadyPunctured");
}

#[test]
fn key_needs_all_three_samples() {
    let s = || Some(vec![1u8; 32]);
    assert!(GGMPuncturableKey::from_samples(None, s(), s()).is_none());
    assert!(GGMPuncturableKey::from_samples(s(), None, s()).is_none());
    assert!(GGMPuncturableKey::from_samples(s(), s(), None).is_none());
    assert!(GGMPuncturableKey::from_samples(None, None, None).is_none());
}

#[test]
fn key_from_samples_is_key_from_secrets() {
    let key = GGMPuncturableKey::from_samples(
        Some(vec![1u8; 32]),
        Some(vec![2u8; 32]),
        Some(vec![3u8; 32]),
    )
    .unwrap();
    assert_eq!(key.frontier_len(), 2);
    let (left, v0) = key.find_prefix(&bits(&[false, true])).unwrap();
    assert_eq!(left.bits().to_bools(), vec![false]);
    assert_eq!(v0, ROOT0.to_vec());
    let (_, known) = known_key().find_prefix(&bits(&[true])).unwrap();
    let (_, v1) = key.find_prefix(&bits(&[true])).unwrap();
    assert_eq!(v1, known);
}

#[test]
fn a_cloned_key_has_the_same_frontier_and_record() {
    let mut key = known_key();
    assert_eq!(key.puncture(&path(&[true]), &path(&[true]), Vec::new()), Ok(()));
    let mut copy = key.clone();
    assert_eq!(copy.frontier_len(), 1);
    let (left, v0) = copy.find_prefix(&bits(&[false])).unwrap();
    assert_eq!(left.len(), 1);
    assert_eq!(v0, ROOT0.to_vec());
    assert_eq!(copy.find_prefix(&bits(&[true])).err(), Some(GGMError::NoPrefixFound));
    assert_eq!(
        copy.puncture(&path(&[true]), &path(&[true]), Vec::new()),
        Err(GGMError::AlreadyPunctured)
    );
    let mut out = [0u8; 32];
    copy.prg(false).eval(&[1u8; 32], &mut out);
    assert_eq!(out, ROOT0);
    assert_eq!(copy.puncture(&path(&[false]), &path(&[false]), Vec::new()), Ok(()));
    assert_eq!(key.frontier_len(), 1);
}
