use lib::hacks::{make_bit_lut, x128, x256, Aligner, X128, X256};

#[test]
fn x128_lanes_are_little_endian() {
    let v: u128 = 0x1111_2222_3333_4444_5555_6666_7777_8888;
    let lanes: [u64; 2] = x128(v);
    assert_eq!(lanes, [0x5555_6666_7777_8888, 0x1111_2222_3333_4444]);
    let back: u128 = x128(lanes);
    assert_eq!(back, v);
}

#[test]
fn x128_identity() {
    let v: u128 = 42;
    let w: u128 = x128(v);
    assert_eq!(w, 42);
    let x = X128::from(7u128);
    assert_eq!(u128::from(x), 7);
}

#[test]
fn x256_lanes_and_halves() {
    let halves: [u128; 2] = [(2u128 << 64) | 1, (4u128 << 64) | 3];
    let lanes: [u64; 4] = x256(halves);
    assert_eq!(lanes, [1, 2, 3, 4]);
    let back: [u128; 2] = x256(lanes);
    assert_eq!(back, halves);
    let v = X256::from([5u64, 6, 7, 8]);
    assert_eq!(v.0, (6u128 << 64) | 5);
    assert_eq!(v.1, (8u128 << 64) | 7);
}

#[test]
fn bit_lut_is_one_hot() {
    let lut = make_bit_lut();
    for i in 0..128usize {
        let v: u128 = x128(lut[i]);
        assert_eq!(v, 1u128 << i);
    }
    assert_eq!(lut[0], [1, 0]);
    assert_eq!(lut[64], [0, 1]);
    assert_eq!(lut[127], [0, 1 << 63]);
}

#[test]
fn aligner_holds_its_thing() {
    let a = Aligner { thing: [1u8, 2, 3] };
    assert_eq!(a.thing, [1, 2, 3]);
}

#[test]
fn aligned_bit_lut_matches_table() {
    assert_eq!(lib::hacks::bit_lut_aligned().thing, make_bit_lut());
}

#[test]
fn bit_lut_is_the_table() {
    let lut = lib::hacks::bit_lut();
    assert_eq!(lut, make_bit_lut());
    assert_eq!(lut[63], [1 << 63, 0]);
}
