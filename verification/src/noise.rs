//! Integer part of Ken Perlin's improved 3-D gradient noise: the lattice
//! permutation hash and the choice of gradient for each corner.

use vstd::prelude::*;

verus! {

/// Ken Perlin's 256-entry permutation of 0..=255.
pub const PERM: [u8; 256] = [
    151, 160, 137,  91,  90,  15, 131,  13, 201,  95,  96,  53, 194, 233,   7, 225,
    140,  36, 103,  30,  69, 142,   8,  99,  37, 240,  21,  10,  23, 190,   6, 148,
    247, 120, 234,  75,   0,  26, 197,  62,  94, 252, 219, 203, 117,  35,  11,  32,
     57, 177,  33,  88, 237, 149,  56,  87, 174,  20, 125, 136, 171, 168,  68, 175,
     74, 165,  71, 134, 139,  48,  27, 166,  77, 146, 158, 231,  83, 111, 229, 122,
     60, 211, 133, 230, 220, 105,  92,  41,  55,  46, 245,  40, 244, 102, 143,  54,
     65,  25,  63, 161,   1, 216,  80,  73, 209,  76, 132, 187, 208,  89,  18, 169,
    200, 196, 135, 130, 116, 188, 159,  86, 164, 100, 109, 198, 173, 186,   3,  64,
     52, 217, 226, 250, 124, 123,   5, 202,  38, 147, 118, 126, 255,  82,  85, 212,
    207, 206,  59, 227,  47,  16,  58,  17, 182, 189,  28,  42, 223, 183, 170, 213,
    119, 248, 152,   2,  44, 154, 163,  70, 221, 153, 101, 155, 167,  43, 172,   9,
    129,  22,  39, 253,  19,  98, 108, 110,  79, 113, 224, 232, 178, 185, 112, 104,
    218, 246,  97, 228, 251,  34, 242, 193, 238, 210, 144,  12, 191, 179, 162, 241,
     81,  51, 145, 235, 249,  14, 239, 107,  49, 192, 214,  31, 181, 199, 106, 157,
    184,  84, 204, 176, 115, 121,  50,  45, 127,   4, 150, 254, 138, 236, 205,  93,
    222, 114,  67,  29,  24,  72, 243, 141, 128, 195,  78,  66, 215,  61, 156, 180,
];

/// Entry `i` of the permutation, read cyclically (the table repeated twice
/// lets sums of two entries index it without wrapping).
#[verifier::opaque]
pub open spec fn perm(i: int) -> int {
    PERM@[i % 256] as int
}

/// The hash of lattice cell (x, y, z), coordinates taken modulo 256.
pub open spec fn lattice_hash_spec(x: int, y: int, z: int) -> int {
    perm(perm(perm(x % 256) + y % 256) + z % 256)
}

#[verifier::spinoff_prover]
#[verifier::rlimit(100)]
proof fn lemma_perm_cyclic(i: int)
    ensures
        perm(i) == perm(i % 256),
        0 <= perm(i) < 256,
{
    reveal(perm);
}

/// Entry `i` of the permutation.
#[verifier::spinoff_prover]
#[verifier::rlimit(100)]
fn perm_at(i: usize) -> (v: u8)
    requires
        i < 256,
    ensures
        v as int == perm(i as int),
{
    proof {
        reveal(perm);
    }
    PERM[i]
}

/// Hash of the lattice corner (x0, y0, z0), each in 0..=255.
pub fn lattice_hash(x0: usize, y0: usize, z0: usize) -> (h: u8)
    requires
        x0 < 256,
        y0 < 256,
        z0 < 256,
    ensures
        h as int == lattice_hash_spec(x0 as int, y0 as int, z0 as int),
{
    let a = perm_at(x0) as usize + y0;
    let b = perm_at(a % 256) as usize + z0;
    proof {
        lemma_perm_cyclic(a as int);
        lemma_perm_cyclic(b as int);
        assert(x0 as int % 256 == x0 && y0 as int % 256 == y0 && z0 as int % 256 == z0);
    }
    perm_at(b % 256)
}

/// A coordinate axis of the noise domain.
#[derive(Clone, Copy, PartialEq, Eq, Structural, Debug)]
pub enum Axis {
    X,
    Y,
    Z,
}

/// The gradient dot product chosen by a corner hash, written as the sum of
/// two signed coordinates: (±first) + (±second).
#[derive(Clone, Copy, PartialEq, Eq, Structural, Debug)]
pub struct Gradient {
    pub first: Axis,
    pub first_negated: bool,
    pub second: Axis,
    pub second_negated: bool,
}

/// The gradient of each of the 16 hash classes: x+y, −x+y, x−y, −x−y,
/// x+z, −x+z, x−z, −x−z, y+z, −y+z, y−z, −y−z, y+x, −y+z, y−x, −y−z.
pub open spec fn gradient_spec(k: int) -> Gradient {
    let g = |a: Axis, na: bool, b: Axis, nb: bool|
        Gradient { first: a, first_negated: na, second: b, second_negated: nb };
    if k == 0 {
        g(Axis::X, false, Axis::Y, false)
    } else if k == 1 {
        g(Axis::X, true, Axis::Y, false)
    } else if k == 2 {
        g(Axis::X, false, Axis::Y, true)
    } else if k == 3 {
        g(Axis::X, true, Axis::Y, true)
    } else if k == 4 {
        g(Axis::X, false, Axis::Z, false)
    } else if k == 5 {
        g(Axis::X, true, Axis::Z, false)
    } else if k == 6 {
        g(Axis::X, false, Axis::Z, true)
    } else if k == 7 {
        g(Axis::X, true, Axis::Z, true)
    } else if k == 8 {
        g(Axis::Y, false, Axis::Z, false)
    } else if k == 9 {
        g(Axis::Y, true, Axis::Z, false)
    } else if k == 10 {
        g(Axis::Y, false, Axis::Z, true)
    } else if k == 11 {
        g(Axis::Y, true, Axis::Z, true)
    } else if k == 12 {
        g(Axis::Y, false, Axis::X, false)
    } else if k == 13 {
        g(Axis::Y, true, Axis::Z, false)
    } else if k == 14 {
        g(Axis::Y, false, Axis::X, true)
    } else {
        g(Axis::Y, true, Axis::Z, true)
    }
}

fn grad(first: Axis, first_negated: bool, second: Axis, second_negated: bool) -> (g: Gradient)
    ensures
        g == (Gradient { first, first_negated, second, second_negated }),
{
    Gradient { first, first_negated, second, second_negated }
}

/// The gradient selected by the low four bits of a corner hash.
pub fn gradient(hash: u8) -> (g: Gradient)
    ensures
        g == gradient_spec((hash % 16) as int),
{
    let k = hash % 16;
    if k == 0 {
        grad(Axis::X, false, Axis::Y, false)
    } else if k == 1 {
        grad(Axis::X, true, Axis::Y, false)
    } else if k == 2 {
        grad(Axis::X, false, Axis::Y, true)
    } else if k == 3 {
        grad(Axis::X, true, Axis::Y, true)
    } else if k == 4 {
        grad(Axis::X, false, Axis::Z, false)
    } else if k == 5 {
        grad(Axis::X, true, Axis::Z, false)
    } else if k == 6 {
        grad(Axis::X, false, Axis::Z, true)
    } else if k == 7 {
        grad(Axis::X, true, Axis::Z, true)
    } else if k == 8 {
        grad(Axis::Y, false, Axis::Z, false)
    } else if k == 9 {
        grad(Axis::Y, true, Axis::Z, false)
    } else if k == 10 {
        grad(Axis::Y, false, Axis::Z, true)
    } else if k == 11 {
        grad(Axis::Y, true, Axis::Z, true)
    } else if k == 12 {
        grad(Axis::Y, false, Axis::X, false)
    } else if k == 13 {
        grad(Axis::Y, true, Axis::Z, false)
    } else if k == 14 {
        grad(Axis::Y, false, Axis::X, true)
    } else {
        grad(Axis::Y, true, Axis::Z, true)
    }
}

/// The eight corner hashes of the lattice cell whose lowest corner is
/// (x0, y0, z0), in the order aaa, aba, aab, abb, baa, bba, bab, bbb
/// (a = the coordinate, b = the next one, modulo 256).
pub fn corner_hashes(x0: usize, y0: usize, z0: usize) -> (h: [u8; 8])
    requires
        x0 < 256,
        y0 < 256,
        z0 < 256,
    ensures
        h[0] as int == lattice_hash_spec(x0 as int, y0 as int, z0 as int),
        h[1] as int == lattice_hash_spec(x0 as int, (y0 + 1) % 256, z0 as int),
        h[2] as int == lattice_hash_spec(x0 as int, y0 as int, (z0 + 1) % 256),
        h[3] as int == lattice_hash_spec(x0 as int, (y0 + 1) % 256, (z0 + 1) % 256),
        h[4] as int == lattice_hash_spec((x0 + 1) % 256, y0 as int, z0 as int),
        h[5] as int == lattice_hash_spec((x0 + 1) % 256, (y0 + 1) % 256, z0 as int),
        h[6] as int == lattice_hash_spec((x0 + 1) % 256, y0 as int, (z0 + 1) % 256),
        h[7] as int == lattice_hash_spec((x0 + 1) % 256, (y0 + 1) % 256, (z0 + 1) % 256),
{
    let x1 = (x0 + 1) % 256;
    let y1 = (y0 + 1) % 256;
    let z1 = (z0 + 1) % 256;
    [
        lattice_hash(x0, y0, z0),
        lattice_hash(x0, y1, z0),
        lattice_hash(x0, y0, z1),
        lattice_hash(x0, y1, z1),
        lattice_hash(x1, y0, z0),
        lattice_hash(x1, y1, z0),
        lattice_hash(x1, y0, z1),
        lattice_hash(x1, y1, z1),
    ]
}

/// The lattice cell coordinate of the integer part `xi` of a noise
/// coordinate: `xi` modulo 256, as the two's-complement low byte.
pub fn lattice_cell(xi: i32) -> (c: usize)
    ensures
        c as int == xi as int % 256,
        c < 256,
{
    let b = xi & 0xFF;
    assert(b as int == xi as int % 256 && 0 <= b < 256) by (bit_vector)
        requires
            b == xi & 0xFF,
    ;
    b as usize
}

/// The gradient table follows Perlin's improved-noise layout: for every hash
/// (only its low four bits count, `k = hash % 16`), bit 0 of `k` negates the
/// first coordinate and bit 1 negates the second; classes 0–3 pair x with y,
/// 4–7 pair x with z, 8–11 pair y with z, and the padding classes 12–15 take
/// y first, paired with x when `k` is even and with z when it is odd.
pub proof fn law_gradient_table(hash: u8)
    ensures
        gradient_spec((hash % 16) as int).first_negated == ((hash % 16) % 2 == 1),
        gradient_spec((hash % 16) as int).second_negated == ((hash % 16) / 2 % 2 == 1),
        (hash % 16) < 4 ==> gradient_spec((hash % 16) as int).first == Axis::X
            && gradient_spec((hash % 16) as int).second == Axis::Y,
        4 <= (hash % 16) < 8 ==> gradient_spec((hash % 16) as int).first == Axis::X
            && gradient_spec((hash % 16) as int).second == Axis::Z,
        8 <= (hash % 16) < 12 ==> gradient_spec((hash % 16) as int).first == Axis::Y
            && gradient_spec((hash % 16) as int).second == Axis::Z,
        12 <= (hash % 16) ==> gradient_spec((hash % 16) as int).first == Axis::Y
            && gradient_spec((hash % 16) as int).second == (if (hash % 16) % 2 == 0 {
                Axis::X
            } else {
                Axis::Z
            }),
{
}

/// The twelve classes 0–11 give twelve different gradients.
pub proof fn law_gradients_distinct(a: int, b: int)
    requires
        0 <= a < 12,
        0 <= b < 12,
        a != b,
    ensures
        gradient_spec(a) != gradient_spec(b),
{
}

} // verus!
