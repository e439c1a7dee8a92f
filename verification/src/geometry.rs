use vstd::arithmetic::power2::{lemma2_to64, lemma_pow2_unfold, pow2};
use vstd::prelude::*;

verus! {

/// Size of a machine word in bytes.
pub const WORD_SIZE: usize = 4;

/// Width of a memory address in bits.
pub const ADDR_LEN: usize = 32;

/// Whether `n` is one of 1, 2, 4, 8, ...
pub open spec fn is_power_of_two(n: nat) -> bool
    decreases n,
{
    if n == 0 {
        false
    } else if n == 1 {
        true
    } else {
        n % 2 == 0 && is_power_of_two(n / 2)
    }
}

/// The binary logarithm, rounded down; 0 for 0.
pub open spec fn log2(n: nat) -> nat
    decreases n,
{
    if n <= 1 {
        0
    } else {
        1 + log2(n / 2)
    }
}

/// A power of two is two to the power of its logarithm.
pub proof fn lemma_power_of_two_log2(n: nat)
    requires
        is_power_of_two(n),
    ensures
        pow2(log2(n)) == n,
    decreases n,
{
    if n == 1 {
        lemma2_to64();
    } else {
        lemma_power_of_two_log2(n / 2);
        lemma_pow2_unfold(log2(n));
    }
}

/// The quotient of two powers of two, the smaller one dividing, is a power of two,
/// and the logarithms subtract.
pub proof fn lemma_power_of_two_div(a: nat, b: nat)
    requires
        is_power_of_two(a),
        is_power_of_two(b),
        b <= a,
    ensures
        is_power_of_two(a / b),
        a % b == 0,
        (a / b) * b == a,
        log2(a / b) + log2(b) == log2(a),
    decreases b,
{
    if b == 1 {
    } else {
        let a2 = a / 2;
        let b2 = b / 2;
        assert(a != 1);
        lemma_power_of_two_div(a2, b2);
        assert(a == 2 * a2);
        assert(b == 2 * b2);
        assert(a / b == a2 / b2 && a % b == 0) by (nonlinear_arith)
            requires
                a == 2 * a2,
                b == 2 * b2,
                b2 > 0,
                a2 % b2 == 0,
        ;
        assert((a / b) * b == a) by (nonlinear_arith)
            requires
                a % b == 0,
                b > 0,
        ;
    }
}

/// The product of two powers of two is a power of two.
pub proof fn lemma_power_of_two_mul(a: nat, b: nat)
    requires
        is_power_of_two(a),
        is_power_of_two(b),
    ensures
        is_power_of_two(a * b),
    decreases a,
{
    if a == 1 {
        assert(a * b == b) by (nonlinear_arith)
            requires
                a == 1,
        ;
    } else {
        let a2 = a / 2;
        lemma_power_of_two_mul(a2, b);
        assert(a * b == 2 * (a2 * b)) by (nonlinear_arith)
            requires
                a == 2 * a2,
        ;
        assert(a2 * b > 0) by (nonlinear_arith)
            requires
                a2 > 0,
                b > 0,
        ;
    }
}

proof fn lemma_power_of_two_bits(x: usize)
    requires
        x != 0,
    ensures
        (x & ((x - 1) as usize) == 0) == is_power_of_two(x as nat),
    decreases x,
{
    if x == 1 {
        assert(1usize & ((1usize - 1) as usize) == 0) by (bit_vector);
    } else {
        let h: usize = x / 2;
        lemma_power_of_two_bits(h);
        assert((x & ((x - 1) as usize) == 0) == (x % 2 == 0 && h & ((h - 1) as usize) == 0))
            by (bit_vector)
            requires
                x >= 2,
                h == x / 2,
        ;
    }
}

/// Tells whether `x` is a power of two.
pub fn power_of_two(x: usize) -> (b: bool)
    ensures
        b == is_power_of_two(x as nat),
{
    if x == 0 {
        return false;
    }
    proof {
        lemma_power_of_two_bits(x);
    }
    (x & (x - 1)) == 0
}

/// Computes the binary logarithm of `n`, rounded down; 0 for 0.
pub fn floor_log2(n: usize) -> (e: usize)
    ensures
        e == log2(n as nat),
{
    let mut e: usize = 0;
    let mut m: usize = n;
    while m > 1
        invariant
            e + log2(m as nat) == log2(n as nat),
            e + m <= n || m == n,
            e <= n,
        decreases m,
    {
        m = m / 2;
        e = e + 1;
    }
    e
}

/// Number of address bits that select a word inside a block.
pub open spec fn offset_bits(block_size: nat) -> nat {
    log2(block_size / (WORD_SIZE as nat))
}

/// Number of sets of a cache.
pub open spec fn num_sets(cache_size: nat, associativity: nat, block_size: nat) -> nat {
    cache_size / (associativity * block_size)
}

/// Number of address bits that select a set.
pub open spec fn index_bits(cache_size: nat, associativity: nat, block_size: nat) -> nat {
    log2(num_sets(cache_size, associativity, block_size))
}

/// The cache shapes that can be simulated: the three sizes are powers of two, a set holds
/// a whole number of blocks and at least one, and the offset and index fields fit in an address.
pub open spec fn valid_geometry(cache_size: nat, associativity: nat, block_size: nat) -> bool {
    &&& is_power_of_two(cache_size)
    &&& is_power_of_two(associativity)
    &&& is_power_of_two(block_size)
    &&& cache_size / associativity >= block_size
    &&& (cache_size / associativity) % block_size == 0
    &&& offset_bits(block_size) + index_bits(cache_size, associativity, block_size) <= ADDR_LEN
}

/// Why a cache shape is refused.
#[derive(Clone, Copy, Debug, PartialEq, Eq, Structural)]
pub enum GeometryError {
    /// The cache size is not a power of two.
    CacheSize,
    /// The associativity is not a power of two.
    Associativity,
    /// The block size is not a power of two.
    BlockSize,
    /// A set is too small to hold one block.
    SetTooSmall,
    /// The size of a set is not a multiple of the block size.
    SetNotMultiple,
    /// The offset and index fields together are wider than an address.
    AddressTooNarrow,
}

/// The first reason, in the order of `GeometryError`, for which a shape is refused.
pub open spec fn geometry_verdict(cache_size: nat, associativity: nat, block_size: nat) -> Result<
    (),
    GeometryError,
> {
    if !is_power_of_two(cache_size) {
        Err(GeometryError::CacheSize)
    } else if !is_power_of_two(associativity) {
        Err(GeometryError::Associativity)
    } else if !is_power_of_two(block_size) {
        Err(GeometryError::BlockSize)
    } else if cache_size / associativity < block_size {
        Err(GeometryError::SetTooSmall)
    } else if (cache_size / associativity) % block_size != 0 {
        Err(GeometryError::SetNotMultiple)
    } else if offset_bits(block_size) + index_bits(cache_size, associativity, block_size)
        > ADDR_LEN {
        Err(GeometryError::AddressTooNarrow)
    } else {
        Ok(())
    }
}

proof fn lemma_way_fits(cache_size: nat, associativity: nat, block_size: nat)
    requires
        associativity > 0,
        block_size > 0,
        cache_size / associativity >= block_size,
    ensures
        associativity <= cache_size,
{
    assert(associativity <= cache_size) by (nonlinear_arith)
        requires
            associativity > 0,
            cache_size / associativity >= 1,
    ;
}

/// In a valid shape the sizes multiply out: the sets times the ways times the block size
/// give the cache size, and the number of sets is a power of two.
pub proof fn lemma_geometry(cache_size: nat, associativity: nat, block_size: nat)
    requires
        valid_geometry(cache_size, associativity, block_size),
    ensures
        associativity * block_size <= cache_size,
        num_sets(cache_size, associativity, block_size) >= 1,
        is_power_of_two(num_sets(cache_size, associativity, block_size)),
        num_sets(cache_size, associativity, block_size) * associativity * block_size
            == cache_size,
        cache_size / block_size == num_sets(cache_size, associativity, block_size)
            * associativity,
        (associativity * block_size) / block_size == associativity,
        pow2(index_bits(cache_size, associativity, block_size)) == num_sets(
            cache_size,
            associativity,
            block_size,
        ),
{
    let n = num_sets(cache_size, associativity, block_size);
    let set_size = associativity * block_size;
    lemma_way_fits(cache_size, associativity, block_size);
    lemma_power_of_two_div(cache_size, associativity);
    let per_way = cache_size / associativity;
    lemma_power_of_two_div(per_way, block_size);
    lemma_power_of_two_mul(associativity, block_size);
    assert(set_size <= cache_size) by (nonlinear_arith)
        requires
            per_way * associativity == cache_size,
            block_size <= per_way,
            set_size == associativity * block_size,
    ;
    lemma_power_of_two_div(cache_size, set_size);
    lemma_power_of_two_log2(n);
    assert(n * associativity * block_size == cache_size) by (nonlinear_arith)
        requires
            n * set_size == cache_size,
            set_size == associativity * block_size,
    ;
    lemma_power_of_two_div(cache_size, block_size);
    assert(cache_size / block_size == n * associativity) by (nonlinear_arith)
        requires
            n * associativity * block_size == cache_size,
            block_size > 0,
    ;
    assert(set_size / block_size == associativity) by (nonlinear_arith)
        requires
            set_size == associativity * block_size,
            block_size > 0,
    ;
}

/// Validates a cache shape.
pub fn check_args(cache_size: usize, associativity: usize, block_size: usize) -> (r: Result<
    (),
    GeometryError,
>)
    ensures
        r == geometry_verdict(cache_size as nat, associativity as nat, block_size as nat),
        r.is_ok() == valid_geometry(cache_size as nat, associativity as nat, block_size as nat),
{
    if !power_of_two(cache_size) {
        return Err(GeometryError::CacheSize);
    }
    if !power_of_two(associativity) {
        return Err(GeometryError::Associativity);
    }
    if !power_of_two(block_size) {
        return Err(GeometryError::BlockSize);
    }
    if cache_size / associativity < block_size {
        return Err(GeometryError::SetTooSmall);
    }
    if (cache_size / associativity) % block_size != 0 {
        return Err(GeometryError::SetNotMultiple);
    }
    proof {
        lemma_way_fits(cache_size as nat, associativity as nat, block_size as nat);
        lemma_power_of_two_div(cache_size as nat, associativity as nat);
        let per_way = cache_size as nat / associativity as nat;
        assert(0 < associativity as nat * block_size as nat <= cache_size) by (nonlinear_arith)
            requires
                per_way * associativity == cache_size,
                0 < block_size <= per_way,
                0 < associativity,
        ;
    }
    let sets: usize = cache_size / (associativity * block_size);
    let offset: usize = floor_log2(block_size / WORD_SIZE);
    let index: usize = floor_log2(sets);
    if offset > ADDR_LEN || index > ADDR_LEN - offset {
        return Err(GeometryError::AddressTooNarrow);
    }
    Ok(())
}

} // verus!
