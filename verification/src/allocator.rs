//! Shared pieces of the two heap allocators: the alignment arithmetic both
//! use, the size of the default heap window, and the placeholder allocator
//! that refuses every request.

use vstd::arithmetic::div_mod::{
    lemma_fundamental_div_mod, lemma_mod_bound, lemma_mod_multiples_basic,
};
use vstd::prelude::*;

pub mod bump;
pub mod linked_list;

verus! {

/// Size in bytes of the heap window the kernel sets aside at boot.
pub const HEAP_SIZE: usize = 100 * 1024;

/// Whether `n` is a power of two (1, 2, 4, 8, ...).
pub open spec fn is_power_of_two(n: int) -> bool
    decreases n,
{
    if n <= 0 {
        false
    } else if n == 1 {
        true
    } else {
        n % 2 == 0 && is_power_of_two(n / 2)
    }
}

/// The smallest multiple of `align` that is at least `addr`.
pub open spec fn spec_align_up(addr: int, align: int) -> int {
    if addr % align == 0 {
        addr
    } else {
        addr + align - addr % align
    }
}

/// A power of two is positive.
pub proof fn lemma_power_of_two_pos(n: int)
    requires
        is_power_of_two(n),
    ensures
        n >= 1,
{
}

/// A smaller power of two divides a larger one.
pub proof fn lemma_power_of_two_divides(a: int, b: int)
    requires
        is_power_of_two(a),
        is_power_of_two(b),
        a <= b,
    ensures
        b % a == 0,
    decreases b,
{
    lemma_power_of_two_pos(a);
    if a == b {
        lemma_mod_multiples_basic(1, a);
        assert(1 * a == b);
    } else if a == 1 {
        lemma_mod_multiples_basic(b, 1);
        assert(b * 1 == b);
    } else {
        // Both are even; divide both by two and recurse.
        let a2 = a / 2;
        let b2 = b / 2;
        lemma_fundamental_div_mod(a, 2);
        lemma_fundamental_div_mod(b, 2);
        lemma_power_of_two_divides(a2, b2);
        let k = b2 / a2;
        lemma_fundamental_div_mod(b2, a2);
        assert(b2 == a2 * k);
        assert(b == a * k) by (nonlinear_arith)
            requires
                a == 2 * a2,
                b == 2 * b2,
                b2 == a2 * k,
        ;
        lemma_mod_multiples_basic(k, a);
        assert(k * a == b) by (nonlinear_arith)
            requires
                b == a * k,
        ;
    }
}

/// Rounding up lands on a multiple of `align` within one alignment of `addr`.
pub proof fn lemma_align_up(addr: int, align: int)
    requires
        addr >= 0,
        align >= 1,
    ensures
        spec_align_up(addr, align) % align == 0,
        addr <= spec_align_up(addr, align) < addr + align,
{
    let r = addr % align;
    lemma_mod_bound(addr, align);
    if r != 0 {
        let q = addr / align;
        lemma_fundamental_div_mod(addr, align);
        assert(spec_align_up(addr, align) == align * (q + 1)) by (nonlinear_arith)
            requires
                addr == align * q + r,
                spec_align_up(addr, align) == addr + align - r,
        ;
        lemma_mod_multiples_basic(q + 1, align);
        assert((q + 1) * align == align * (q + 1)) by (nonlinear_arith);
    }
}

/// A multiple of a multiple of `c` is itself a multiple of `c`.
pub proof fn lemma_mod_transitive(a: int, b: int, c: int)
    requires
        b >= 1,
        c >= 1,
        a % b == 0,
        b % c == 0,
    ensures
        a % c == 0,
{
    let k = a / b;
    let m = b / c;
    lemma_fundamental_div_mod(a, b);
    lemma_fundamental_div_mod(b, c);
    assert(a == (k * m) * c) by (nonlinear_arith)
        requires
            a == b * k,
            b == c * m,
    ;
    lemma_mod_multiples_basic(k * m, c);
}

/// The sum of two multiples of `m` is a multiple of `m`.
pub proof fn lemma_mod_add_zero(a: int, b: int, m: int)
    requires
        m >= 1,
        a % m == 0,
        b % m == 0,
    ensures
        (a + b) % m == 0,
{
    let qa = a / m;
    let qb = b / m;
    lemma_fundamental_div_mod(a, m);
    lemma_fundamental_div_mod(b, m);
    assert(a + b == (qa + qb) * m) by (nonlinear_arith)
        requires
            a == m * qa,
            b == m * qb,
    ;
    lemma_mod_multiples_basic(qa + qb, m);
}

/// Align `addr` upwards to the next multiple of `align`.
///
/// `align` must be a power of two, and the rounded address must still fit
/// in a `usize`.
pub fn align_up(addr: usize, align: usize) -> (r: usize)
    requires
        is_power_of_two(align as int),
        spec_align_up(addr as int, align as int) <= usize::MAX,
    ensures
        r as int == spec_align_up(addr as int, align as int),
{
    proof {
        lemma_power_of_two_pos(align as int);
    }
    let rem = addr % align;
    if rem == 0 {
        addr
    } else {
        addr + (align - rem)
    }
}

/// Align `addr` upwards to the next multiple of `align`, reporting `None`
/// when the rounded address would not fit in a `usize`.
pub fn align_up_checked(addr: usize, align: usize) -> (r: Option<usize>)
    requires
        is_power_of_two(align as int),
    ensures
        match r {
            Some(v) => v as int == spec_align_up(addr as int, align as int),
            None => spec_align_up(addr as int, align as int) > usize::MAX,
        },
{
    proof {
        lemma_power_of_two_pos(align as int);
    }
    let rem = addr % align;
    if rem == 0 {
        Some(addr)
    } else {
        addr.checked_add(align - rem)
    }
}

/// Allocator that refuses every request; stands in before a real heap
/// exists.  Deallocating through it is a contract violation, which the
/// kernel treats as fatal.
pub struct DummyAlloc;

impl DummyAlloc {
    /// Always fails: there is no heap behind this allocator.
    pub fn allocate(&self, _size: usize, _align: usize) -> (r: Option<usize>)
        ensures
            r is None,
    {
        None
    }
}

} // verus!
