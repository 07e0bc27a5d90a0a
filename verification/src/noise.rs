use vstd::prelude::*;

verus! {

/// The number of values of a hash: 2 to the power 32.
pub const HASH_RANGE: u64 = 0x1_0000_0000;

/// The hash of the lattice cell `(x, y)`: each coordinate times a large prime
/// of its own, added up, and reduced to 32 bits.
pub open spec fn lattice_hash_2d(x: int, y: int) -> int {
    (x * 374761393 + y * 668265263) % (HASH_RANGE as int)
}

/// The hash of the lattice cell `(x, y, z)`, built like the one in two
/// dimensions with a third prime.
pub open spec fn lattice_hash_3d(x: int, y: int, z: int) -> int {
    (x * 374761393 + y * 668265263 + z * 1274126177) % (HASH_RANGE as int)
}

/// Whether two numbers leave the same remainder in the hash range.
spec fn congruent(a: int, b: int) -> bool {
    a % (HASH_RANGE as int) == b % (HASH_RANGE as int)
}

/// A wrapped product is congruent to the product.
proof fn lemma_wrapped_product(x: i32, y: i32)
    ensures
        congruent(vstd::wrapping::i32_specs::wrapping_mul(x, y) as int, x * y),
{
}

/// A wrapped sum is congruent to the sum of what its terms are congruent to.
proof fn lemma_wrapped_sum(a: i32, b: i32, pa: int, pb: int)
    requires
        congruent(a as int, pa),
        congruent(b as int, pb),
    ensures
        congruent(vstd::wrapping::i32_specs::wrapping_add(a, b) as int, pa + pb),
{
}

/// Reinterpreting a signed word as an unsigned one gives its remainder in
/// the hash range.
proof fn lemma_reinterpreted(sum: i32, h: u32, total: int)
    requires
        h == sum as u32,
        congruent(sum as int, total),
    ensures
        h == total % (HASH_RANGE as int),
{
    assert(h == (if sum < 0 { sum + 0x1_0000_0000 } else { sum as int })) by (bit_vector)
        requires
            h == sum as u32,
    ;
}

/// Hashes the cell `(x, y)` of the integer lattice.
///
/// The result depends on the two coordinates alone: there is no seed and no
/// state, so a surface looks the same in every frame.
pub fn hash_2d(x: i32, y: i32) -> (h: u32)
    ensures
        h == lattice_hash_2d(x as int, y as int),
{
    let a: i32 = x.wrapping_mul(374761393);
    let b: i32 = y.wrapping_mul(668265263);
    let sum: i32 = a.wrapping_add(b);
    let h: u32 = sum as u32;
    proof {
        lemma_wrapped_product(x, 374761393);
        lemma_wrapped_product(y, 668265263);
        lemma_wrapped_sum(a, b, x * 374761393, y * 668265263);
        lemma_reinterpreted(sum, h, x * 374761393 + y * 668265263);
    }
    h
}

/// Hashes the cell `(x, y, z)` of the integer lattice.
///
/// The result depends on the three coordinates alone.
pub fn hash_3d(x: i32, y: i32, z: i32) -> (h: u32)
    ensures
        h == lattice_hash_3d(x as int, y as int, z as int),
{
    let a: i32 = x.wrapping_mul(374761393);
    let b: i32 = y.wrapping_mul(668265263);
    let c: i32 = z.wrapping_mul(1274126177);
    let ab: i32 = a.wrapping_add(b);
    let sum: i32 = ab.wrapping_add(c);
    let h: u32 = sum as u32;
    proof {
        lemma_wrapped_product(x, 374761393);
        lemma_wrapped_product(y, 668265263);
        lemma_wrapped_product(z, 1274126177);
        lemma_wrapped_sum(a, b, x * 374761393, y * 668265263);
        lemma_wrapped_sum(ab, c, x * 374761393 + y * 668265263, z * 1274126177);
        lemma_reinterpreted(sum, h, x * 374761393 + y * 668265263 + z * 1274126177);
    }
    h
}

} // verus!
