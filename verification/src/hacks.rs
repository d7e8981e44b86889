//! Bit-level views of 128-bit and 256-bit values.
//!
//! An `X128` is a 128-bit pattern that can be read as one `u128` or as two
//! little-endian `u64` lanes; an `X256` likewise as two `u128` halves or four
//! `u64` lanes.

use vstd::prelude::*;
use vstd::std_specs::convert::{FromSpec, FromSpecImpl, IntoSpec};

verus! {

/// A 128-bit value.
#[derive(Clone, Copy)]
pub struct X128(pub u128);

impl From<u128> for X128 {
    fn from(value: u128) -> (r: Self) {
        X128(value)
    }
}

impl FromSpecImpl<u128> for X128 {
    open spec fn obeys_from_spec() -> bool {
        true
    }

    open spec fn from_spec(v: u128) -> X128 {
        X128(v)
    }
}

impl From<X128> for u128 {
    fn from(value: X128) -> (r: u128) {
        value.0
    }
}

impl FromSpecImpl<X128> for u128 {
    open spec fn obeys_from_spec() -> bool {
        true
    }

    open spec fn from_spec(v: X128) -> u128 {
        v.0
    }
}

impl From<[u64; 2]> for X128 {
    fn from(value: [u64; 2]) -> (r: Self) {
        X128((value[0] as u128) | ((value[1] as u128) << 64u128))
    }
}

impl FromSpecImpl<[u64; 2]> for X128 {
    open spec fn obeys_from_spec() -> bool {
        true
    }

    open spec fn from_spec(v: [u64; 2]) -> X128 {
        X128((v[0] as u128) | ((v[1] as u128) << 64u128))
    }
}

impl From<X128> for [u64; 2] {
    fn from(value: X128) -> (r: [u64; 2]) {
        [value.0 as u64, (value.0 >> 64u128) as u64]
    }
}

impl FromSpecImpl<X128> for [u64; 2] {
    open spec fn obeys_from_spec() -> bool {
        true
    }

    open spec fn from_spec(v: X128) -> [u64; 2] {
        [v.0 as u64, (v.0 >> 64u128) as u64]
    }
}

/// Reinterprets `x` as an `X128` and then as an `I`.
pub fn x128<F, I>(x: F) -> (r: I) where X128: From<F> + Into<I>
    ensures
        <X128 as FromSpec<F>>::obeys_from_spec() && <X128 as IntoSpec<I>>::obeys_into_spec()
            ==> r == <X128 as IntoSpec<I>>::into_spec(<X128 as FromSpec<F>>::from_spec(x)),
{
    let v: X128 = X128::from(x);
    v.into()
}

/// A 256-bit value, held as its low and high 128-bit halves.
#[derive(Clone, Copy)]
pub struct X256(pub u128, pub u128);

impl From<[u128; 2]> for X256 {
    fn from(value: [u128; 2]) -> (r: Self) {
        X256(value[0], value[1])
    }
}

impl FromSpecImpl<[u128; 2]> for X256 {
    open spec fn obeys_from_spec() -> bool {
        true
    }

    open spec fn from_spec(v: [u128; 2]) -> X256 {
        X256(v[0], v[1])
    }
}

impl From<X256> for [u128; 2] {
    fn from(value: X256) -> (r: [u128; 2]) {
        [value.0, value.1]
    }
}

impl FromSpecImpl<X256> for [u128; 2] {
    open spec fn obeys_from_spec() -> bool {
        true
    }

    open spec fn from_spec(v: X256) -> [u128; 2] {
        [v.0, v.1]
    }
}

impl From<[u64; 4]> for X256 {
    fn from(value: [u64; 4]) -> (r: Self) {
        X256(
            (value[0] as u128) | ((value[1] as u128) << 64u128),
            (value[2] as u128) | ((value[3] as u128) << 64u128),
        )
    }
}

impl FromSpecImpl<[u64; 4]> for X256 {
    open spec fn obeys_from_spec() -> bool {
        true
    }

    open spec fn from_spec(v: [u64; 4]) -> X256 {
        X256(
            (v[0] as u128) | ((v[1] as u128) << 64u128),
            (v[2] as u128) | ((v[3] as u128) << 64u128),
        )
    }
}

impl From<X256> for [u64; 4] {
    fn from(value: X256) -> (r: [u64; 4]) {
        [value.0 as u64, (value.0 >> 64u128) as u64, value.1 as u64, (value.1 >> 64u128) as u64]
    }
}

impl FromSpecImpl<X256> for [u64; 4] {
    open spec fn obeys_from_spec() -> bool {
        true
    }

    open spec fn from_spec(v: X256) -> [u64; 4] {
        [v.0 as u64, (v.0 >> 64u128) as u64, v.1 as u64, (v.1 >> 64u128) as u64]
    }
}

/// Reinterprets `x` as an `X256` and then as an `I`.
pub fn x256<F, I>(x: F) -> (r: I) where X256: From<F> + Into<I>
    ensures
        <X256 as FromSpec<F>>::obeys_from_spec() && <X256 as IntoSpec<I>>::obeys_into_spec()
            ==> r == <X256 as IntoSpec<I>>::into_spec(<X256 as FromSpec<F>>::from_spec(x)),
{
    let v: X256 = X256::from(x);
    v.into()
}

/// The two little-endian `u64` lanes of the 128-bit value with only bit `i` set.
pub open spec fn one_hot_lanes(i: int) -> [u64; 2] {
    if i < 64 {
        [1u64 << (i as u64), 0u64]
    } else {
        [0u64, 1u64 << ((i - 64) as u64)]
    }
}

/// The table whose entry `i` holds, as two `u64` lanes, the 128-bit value
/// with only bit `i` set.
pub fn make_bit_lut() -> (lut: [[u64; 2]; 128])
    ensures
        forall|i: int| 0 <= i < 128 ==> #[trigger] lut[i] == one_hot_lanes(i),
{
    let mut lut: [[u64; 2]; 128] = [[0u64; 2]; 128];
    let mut i: usize = 0;
    while i < 128
        invariant
            i <= 128,
            forall|k: int| 0 <= k < i ==> #[trigger] lut[k] == one_hot_lanes(k),
            forall|k: int| i <= k < 128 ==> #[trigger] lut[k] == [0u64, 0u64],
        decreases 128 - i,
    {
        let bit: u64 = 1u64 << ((i % 64) as u64);
        let row: [u64; 2] = if i < 64 { [bit, 0u64] } else { [0u64, bit] };
        lut[i] = row;
        i = i + 1;
    }
    lut
}

/// Reading a 128-bit value as two `u64` lanes and reading those lanes back
/// as a 128-bit value gives the value unchanged.
pub proof fn law_x128_lanes_roundtrip(v: u128)
    ensures
        <X128 as IntoSpec<u128>>::into_spec(
            <X128 as FromSpec<[u64; 2]>>::from_spec(
                <X128 as IntoSpec<[u64; 2]>>::into_spec(<X128 as FromSpec<u128>>::from_spec(v)),
            ),
        ) == v,
{
    let lo: u64 = v as u64;
    let hi: u64 = (v >> 64u128) as u64;
    assert(((lo as u128) | ((hi as u128) << 64u128)) == v) by (bit_vector)
        requires
            lo == v as u64,
            hi == (v >> 64u128) as u64,
    ;
}

/// Two `u64` lanes read as a 128-bit value and split again give back the
/// same lanes: the low lane is the low half, the high lane the high half.
pub proof fn law_x128_value_roundtrip(lo: u64, hi: u64)
    ensures
        <X128 as IntoSpec<[u64; 2]>>::into_spec(
            <X128 as FromSpec<[u64; 2]>>::from_spec([lo, hi]),
        ) == [lo, hi],
{
    let v: u128 = (lo as u128) | ((hi as u128) << 64u128);
    assert(v as u64 == lo && (v >> 64u128) as u64 == hi) by (bit_vector)
        requires
            v == (lo as u128) | ((hi as u128) << 64u128),
    ;
}

/// Entry `i` of the bit table, read as a 128-bit value, is the value with
/// only bit `i` set.
pub proof fn law_bit_lut_one_hot(i: u64)
    requires
        i < 128,
    ensures
        <X128 as FromSpec<[u64; 2]>>::from_spec(one_hot_lanes(i as int)).0 == 1u128 << (i as u128),
{
    if i < 64 {
        assert((((1u64 << i) as u128) | ((0u64 as u128) << 64u128)) == 1u128 << (i as u128))
            by (bit_vector)
            requires
                i < 64,
        ;
    } else {
        let j: u64 = (i - 64) as u64;
        assert((((0u64) as u128) | (((1u64 << j) as u128) << 64u128)) == 1u128 << (i as u128))
            by (bit_vector)
            requires
                64 <= i < 128,
                j == i - 64,
        ;
    }
}

/// Reading a 256-bit value as four `u64` lanes and reading those lanes back
/// gives the value unchanged; so does the detour through two `u128` halves.
pub proof fn law_x256_lanes_roundtrip(lo: u128, hi: u128)
    ensures
        ({
            let v = X256(lo, hi);
            let w = <X256 as FromSpec<[u64; 4]>>::from_spec(<X256 as IntoSpec<[u64; 4]>>::into_spec(v));
            w.0 == lo && w.1 == hi
        }),
        ({
            let v = X256(lo, hi);
            let w = <X256 as FromSpec<[u128; 2]>>::from_spec(<X256 as IntoSpec<[u128; 2]>>::into_spec(v));
            w.0 == lo && w.1 == hi
        }),
{
    law_x128_lanes_roundtrip(lo);
    law_x128_lanes_roundtrip(hi);
}

/// A value in a one-field wrapper, the shape in which the bit table is
/// handed out; the wrapper itself asks for no particular alignment.
pub struct Aligner<T> {
    pub thing: T,
}

/// The bit table of `make_bit_lut`, wrapped in an `Aligner`.
pub fn bit_lut_aligned() -> (a: Aligner<[[u64; 2]; 128]>)
    ensures
        forall|i: int| 0 <= i < 128 ==> #[trigger] a.thing[i] == one_hot_lanes(i),
{
    Aligner { thing: make_bit_lut() }
}

/// The bit table, taken out of its `Aligner`.
pub fn bit_lut() -> (lut: [[u64; 2]; 128])
    ensures
        forall|i: int| 0 <= i < 128 ==> #[trigger] lut[i] == one_hot_lanes(i),
{
    bit_lut_aligned().thing
}

} // verus!
