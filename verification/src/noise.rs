//! Discrete noise for LWE encryption. Each sample approximates a Gaussian
//! of standard deviation 3.2 rounded to the nearest integer: one uniform
//! 64-bit word supplies a sign bit and a 63-bit draw that is inverted
//! through the distribution's cumulative table. The table entry for
//! magnitude `i` is the integer part of `2^63 * (2 * phi((i + 1/2) / 3.2) - 1)`,
//! where `phi` is the standard normal distribution function; past magnitude
//! 27 the table saturates, so no sample can exceed it. The sampler is a
//! pure function of the word it is given, and its contract pins that
//! function exactly; only the word itself is random.
use vstd::prelude::*;

verus! {

/// The largest magnitude `sample_noise` can return.
pub const NOISE_BOUND: i64 = 27;

/// The magnitude a 63-bit draw selects: the least table index whose
/// cumulative weight exceeds the draw.
pub open spec fn noise_magnitude_spec(draw: u64) -> int {
    if draw < 0x0fe49b67dc815980 {
        0
    } else if draw < 0x2e2d1c3c52a89800 {
        1
    } else if draw < 0x485d35a2bfb73c00 {
        2
    } else if draw < 0x5ceb732e1722d400 {
        3
    } else if draw < 0x6b90978ed137b400 {
        4
    } else if draw < 0x750918a6261b9c00 {
        5
    } else if draw < 0x7a98381946456800 {
        6
    } else if draw < 0x7d8e6d64fa05b400 {
        7
    } else if draw < 0x7efd15671e083c00 {
        8
    } else if draw < 0x7f9e04e86b303400 {
        9
    } else if draw < 0x7fde2288855d8800 {
        10
    } else if draw < 0x7ff551b61e437800 {
        11
    } else if draw < 0x7ffceda7e45f9000 {
        12
    } else if draw < 0x7fff31ecd05c4800 {
        13
    } else if draw < 0x7fffced014618800 {
        14
    } else if draw < 0x7ffff54fdd5bdc00 {
        15
    } else if draw < 0x7ffffde2f40fc400 {
        16
    } else if draw < 0x7fffff9eabf0ec00 {
        17
    } else if draw < 0x7ffffff013b13800 {
        18
    } else if draw < 0x7ffffffda1a46000 {
        19
    } else if draw < 0x7fffffffae021400 {
        20
    } else if draw < 0x7ffffffff5ec6c00 {
        21
    } else if draw < 0x7ffffffffedfec00 {
        22
    } else if draw < 0x7fffffffffe2c400 {
        23
    } else if draw < 0x7ffffffffffd5000 {
        24
    } else if draw < 0x7fffffffffffc800 {
        25
    } else if draw < 0x7ffffffffffffc00 {
        26
    } else {
        27
    }
}

/// The noise value one uniform word selects: the low bit picks the sign,
/// the remaining bits the magnitude.
pub open spec fn sample_noise_spec(u: u64) -> int {
    if u & 1 == 1 {
        -noise_magnitude_spec(u >> 1)
    } else {
        noise_magnitude_spec(u >> 1)
    }
}

/// The magnitude selected by a 63-bit draw.
fn noise_magnitude(draw: u64) -> (mag: i64)
    requires
        draw < 0x8000_0000_0000_0000,
    ensures
        mag == noise_magnitude_spec(draw),
        0 <= mag <= NOISE_BOUND,
{
    if draw < 0x0fe49b67dc815980 {
        0
    } else if draw < 0x2e2d1c3c52a89800 {
        1
    } else if draw < 0x485d35a2bfb73c00 {
        2
    } else if draw < 0x5ceb732e1722d400 {
        3
    } else if draw < 0x6b90978ed137b400 {
        4
    } else if draw < 0x750918a6261b9c00 {
        5
    } else if draw < 0x7a98381946456800 {
        6
    } else if draw < 0x7d8e6d64fa05b400 {
        7
    } else if draw < 0x7efd15671e083c00 {
        8
    } else if draw < 0x7f9e04e86b303400 {
        9
    } else if draw < 0x7fde2288855d8800 {
        10
    } else if draw < 0x7ff551b61e437800 {
        11
    } else if draw < 0x7ffceda7e45f9000 {
        12
    } else if draw < 0x7fff31ecd05c4800 {
        13
    } else if draw < 0x7fffced014618800 {
        14
    } else if draw < 0x7ffff54fdd5bdc00 {
        15
    } else if draw < 0x7ffffde2f40fc400 {
        16
    } else if draw < 0x7fffff9eabf0ec00 {
        17
    } else if draw < 0x7ffffff013b13800 {
        18
    } else if draw < 0x7ffffffda1a46000 {
        19
    } else if draw < 0x7fffffffae021400 {
        20
    } else if draw < 0x7ffffffff5ec6c00 {
        21
    } else if draw < 0x7ffffffffedfec00 {
        22
    } else if draw < 0x7fffffffffe2c400 {
        23
    } else if draw < 0x7ffffffffffd5000 {
        24
    } else if draw < 0x7fffffffffffc800 {
        25
    } else if draw < 0x7ffffffffffffc00 {
        26
    } else {
        27
    }
}

/// Maps one uniform 64-bit word to a signed noise sample: the low bit picks
/// the sign, the remaining bits the magnitude. Exactly the table inversion
/// that `sample_noise_spec` states.
pub fn sample_noise(u: u64) -> (eta: i64)
    ensures
        eta == sample_noise_spec(u),
        -NOISE_BOUND <= eta <= NOISE_BOUND,
{
    let draw: u64 = u >> 1;
    proof {
        assert(u >> 1 < 0x8000_0000_0000_0000) by (bit_vector);
    }
    let mag = noise_magnitude(draw);
    if u & 1 == 1 {
        -mag
    } else {
        mag
    }
}

} // verus!
