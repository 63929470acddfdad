use forkd::digest::{hex_encode, ContentHash};

#[test]
fn known_digests() {
    assert_eq!(
        ContentHash::new().finish(),
        "e3b0c44298fc1c149afbf4c8996fb92427ae41e4649b934ca495991b7852b855"
    );
    let mut h = ContentHash::new();
    h.chunk(b"abc");
    assert_eq!(h.finish(), "ba7816bf8f01cfea414140de5dae2223b00361a396177a9cb410ff61f20015ad");
}

#[test]
fn pieces_do_not_matter() {
    let content: Vec<u8> = (0..100_000u32).map(|i| (i % 251) as u8).collect();
    let mut whole = ContentHash::new();
    whole.chunk(&content);
    let mut pieces = ContentHash::new();
    for piece in content.chunks(977) {
        pieces.chunk(piece);
    }
    assert_eq!(whole.finish(), pieces.finish());
}

#[test]
fn hexadecimal() {
    assert_eq!(hex_encode(&[]), "");
    assert_eq!(hex_encode(&[0x00, 0x0f, 0xa5, 0xff]), "000fa5ff");
    for b in 0..=255u8 {
        assert_eq!(hex_encode(&[b]), format!("{b:02x}"));
    }
}
