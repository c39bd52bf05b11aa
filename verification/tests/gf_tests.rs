use bip39_shard::gf256::{add, inverse, mul};

#[test]
fn add_is_xor() {
    assert_eq!(add(0x53, 0xCA), 0x99);
    assert_eq!(add(0xFF, 0xFF), 0x00);
    assert_eq!(add(0x00, 0x7B), 0x7B);
}

#[test]
fn mul_known_values() {
    assert_eq!(mul(2, 3), 6);
    assert_eq!(mul(0x80, 2), 0x1B);
    assert_eq!(mul(0x53, 0xCA), 0x01);
    for a in 0..=255u8 {
        assert_eq!(mul(a, 0), 0);
        assert_eq!(mul(0, a), 0);
        assert_eq!(mul(a, 1), a);
    }
}

#[test]
fn mul_commutes() {
    for a in 0..=255u8 {
        for b in 0..=255u8 {
            assert_eq!(mul(a, b), mul(b, a));
        }
    }
}

#[test]
fn inverse_of_every_nonzero_element() {
    assert_eq!(inverse(0x53), 0xCA);
    for a in 1..=255u8 {
        let inv = inverse(a);
        assert_ne!(inv, 0);
        assert_eq!(mul(a, inv), 1);
    }
    assert_eq!(inverse(0), 0);
}
