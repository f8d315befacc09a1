use yaoki::random::RandomBytes;

#[test]
fn random_bytes_as_bytes_returns_constructed_value() {
    let mut drawn = [0u8; 32];
    drawn[0] = 0x7a;
    drawn[31] = 0x01;

    let random = RandomBytes::new(drawn);

    assert_eq!(random.as_bytes(), &drawn);
}
