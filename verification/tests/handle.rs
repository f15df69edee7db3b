use ppoprf::key::GGMError;
use ppoprf::server::RandomnessServer;

#[test]
fn unused_instance() {
    let server = RandomnessServer::new();
    assert!(server.is_some());
    drop(server);
}

#[test]
fn simple_eval() {
    let server = RandomnessServer::new();
    assert!(server.is_some());
    let server = server.unwrap();

    let mut result = vec![0u8; 32];
    assert_eq!(server.eval(0, &mut result), Ok(()));
    assert_ne!(result, vec![0u8; 32]);
    drop(server);
}

#[test]
fn server_retires_tags() {
    let mut server = RandomnessServer::from_secrets(&[1u8; 32], &[2u8; 32], &[3u8; 32]);
    let mut before = [0u8; 32];
    let mut other = [0u8; 32];
    assert_eq!(server.eval(8, &mut before), Ok(()));
    assert_eq!(server.eval(7, &mut other), Ok(()));
    assert_eq!(before[0], 0x1c);
    assert_eq!(other[0], 0x05);
    assert_eq!(server.puncture(8), Ok(()));
    let mut after = [0u8; 32];
    assert_eq!(server.eval(8, &mut after), Err(GGMError::NoPrefixFound));
    assert_eq!(after, [0u8; 32]);
    assert_eq!(server.eval(7, &mut after), Ok(()));
    assert_eq!(after, other);
    assert_eq!(server.puncture(8), Err(GGMError::NoPrefixFound));
}

#[test]
fn server_follows_its_tree() {
    assert!(RandomnessServer::from_tree(None).is_none());
    let tree = ppoprf::ggm::GGM::from_secrets(&[1u8; 32], &[2u8; 32], &[3u8; 32]);
    let server = RandomnessServer::from_tree(Some(tree)).unwrap();
    let mut out = [0u8; 32];
    assert_eq!(server.eval(8, &mut out), Ok(()));
    assert_eq!(out[0], 0x1c);
    assert_eq!(out[31], 0xe2);
}

#[test]
fn a_retired_tag_is_refused_with_any_buffer() {
    let mut server = RandomnessServer::from_secrets(&[1u8; 32], &[2u8; 32], &[3u8; 32]);
    assert_eq!(server.puncture(8), Ok(()));
    let mut short = [7u8; 3];
    assert_eq!(server.eval(8, &mut short), Err(GGMError::NoPrefixFound));
    assert_eq!(short, [7u8; 3]);
}
