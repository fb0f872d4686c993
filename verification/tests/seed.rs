use srflp::seed::expand_seed;

fn both_byte_orders(seed: u128) -> [u8; 32] {
    let mut key = [0u8; 32];
    for (k, byte) in seed.to_be_bytes().iter().enumerate() {
        key[k] = *byte;
    }
    for (k, byte) in seed.to_le_bytes().iter().enumerate() {
        key[31 - k] = *byte;
    }
    key
}

#[test]
fn zero_seed_gives_zero_key() {
    assert_eq!(expand_seed(0), [0u8; 32]);
}

#[test]
fn seed_one() {
    let mut expected = [0u8; 32];
    expected[15] = 1;
    expected[31] = 1;
    assert_eq!(expand_seed(1), expected);
}

#[test]
fn seed_forty_two() {
    let mut expected = [0u8; 32];
    expected[15] = 42;
    expected[31] = 42;
    assert_eq!(expand_seed(42), expected);
}

#[test]
fn seed_with_sixteen_different_bytes() {
    let seed: u128 = 0x0102_0304_0506_0708_090a_0b0c_0d0e_0f10;
    let expected: [u8; 32] = [
        1, 2, 3, 4, 5, 6, 7, 8, 9, 10, 11, 12, 13, 14, 15, 16, 1, 2, 3, 4, 5, 6, 7, 8, 9, 10, 11,
        12, 13, 14, 15, 16,
    ];
    assert_eq!(expand_seed(seed), expected);
}

#[test]
fn largest_seed() {
    assert_eq!(expand_seed(u128::MAX), [255u8; 32]);
}

#[test]
fn highest_byte_only() {
    let mut expected = [0u8; 32];
    expected[0] = 0x80;
    expected[16] = 0x80;
    assert_eq!(expand_seed(1u128 << 127), expected);
}

#[test]
fn front_is_big_endian_and_back_is_little_endian_reversed() {
    let seeds: [u128; 6] = [
        0,
        7,
        256,
        0xdead_beef,
        0x0123_4567_89ab_cdef_fedc_ba98_7654_3210,
        u128::MAX - 1,
    ];
    for seed in seeds {
        let key = expand_seed(seed);
        assert_eq!(key, both_byte_orders(seed));
        assert_eq!(key[..16], seed.to_be_bytes());
        let mut back: Vec<u8> = key[16..].to_vec();
        back.reverse();
        assert_eq!(back, seed.to_le_bytes().to_vec());
    }
}

#[test]
fn no_half_of_the_key_is_left_at_zero() {
    let key = expand_seed(0x1234_5678);
    assert!(key[..16].iter().any(|byte| *byte != 0));
    assert!(key[16..].iter().any(|byte| *byte != 0));
    assert_eq!(key[..16], key[16..]);
}
