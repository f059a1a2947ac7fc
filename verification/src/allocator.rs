//! Shared pieces of the allocator family, chiefly the address-alignment
//! helper every backend rounds with.
use vstd::prelude::*;

pub mod bump_allocator;
pub mod fixed_size_block;
pub mod linked_list;

verus! {

/// The smallest multiple of `align` that is at least `addr`: `addr` itself
/// when it is already a multiple, otherwise the next multiple above it.
pub open spec fn spec_align_up(addr: int, align: int) -> int {
    if addr % align == 0 {
        addr
    } else {
        addr - addr % align + align
    }
}

/// Basic facts about `spec_align_up`: the result is a multiple of `align`
/// lying in the window `[addr, addr + align)`.
pub proof fn lemma_align_up(addr: int, align: int)
    requires
        0 <= addr,
        1 <= align,
    ensures
        addr <= spec_align_up(addr, align) < addr + align,
        spec_align_up(addr, align) % align == 0,
{
    let rem = addr % align;
    vstd::arithmetic::div_mod::lemma_mod_bound(addr, align);
    if rem != 0 {
        vstd::arithmetic::div_mod::lemma_fundamental_div_mod(addr, align);
        assert(addr - rem == align * (addr / align));
        assert((align * (addr / align)) % align == 0) by {
            vstd::arithmetic::div_mod::lemma_mod_multiples_basic(addr / align, align);
            assert(align * (addr / align) == (addr / align) * align) by (nonlinear_arith);
        }
        assert((addr - rem + align) % align == (addr - rem) % align) by {
            vstd::arithmetic::div_mod::lemma_mod_add_multiples_vanish(addr - rem, align);
        }
    }
}

/// A power of two divides every power of two at least as large.
pub proof fn lemma_pow2_le_divides(a: int, b: int)
    requires
        vstd::arithmetic::power2::is_pow2(a),
        vstd::arithmetic::power2::is_pow2(b),
        a <= b,
    ensures
        b % a == 0,
    decreases a,
{
    reveal(vstd::arithmetic::power2::is_pow2);
    if a == 1 {
        assert(b % 1 == 0);
    } else {
        assert(a % 2 == 0 && vstd::arithmetic::power2::is_pow2(a / 2));
        assert(b % 2 == 0 && vstd::arithmetic::power2::is_pow2(b / 2));
        lemma_pow2_le_divides(a / 2, b / 2);
        vstd::arithmetic::div_mod::lemma_breakdown(b, 2, a / 2);
        vstd::arithmetic::div_mod::lemma_fundamental_div_mod(a, 2);
        assert(2 * (a / 2) == a);
        assert(b % a == 2 * ((b / 2) % (a / 2)) + b % 2);
    }
}

/// Divisibility is transitive: if `b` divides `x` and `c` divides `b`, then
/// `c` divides `x`.
pub proof fn lemma_mod_trans(x: int, b: int, c: int)
    requires
        0 <= x,
        0 < b,
        0 < c,
        x % b == 0,
        b % c == 0,
    ensures
        x % c == 0,
{
    let k = x / b;
    let m = b / c;
    vstd::arithmetic::div_mod::lemma_fundamental_div_mod(x, b);
    vstd::arithmetic::div_mod::lemma_fundamental_div_mod(b, c);
    assert(x == b * k && b == c * m);
    assert(x == (m * k) * c) by (nonlinear_arith)
        requires
            x == b * k,
            b == c * m,
    ;
    vstd::arithmetic::div_mod::lemma_mod_multiples_basic(m * k, c);
}

/// The sum of two multiples of `m` is a multiple of `m`.
pub proof fn lemma_mod_add_zero(x: int, y: int, m: int)
    requires
        0 < m,
        x % m == 0,
        y % m == 0,
    ensures
        (x + y) % m == 0,
{
    vstd::arithmetic::div_mod::lemma_add_mod_noop(x, y, m);
    vstd::arithmetic::div_mod::lemma_small_mod(0, m as nat);
}

/// Align the given address upwards to alignment `align`.
pub fn align_up(addr: usize, align: usize) -> (r: usize)
    requires
        1 <= align,
        spec_align_up(addr as int, align as int) <= usize::MAX,
    ensures
        r == spec_align_up(addr as int, align as int),
{
    match align_up_checked(addr, align) {
        Some(r) => r,
        None => {
            proof {
                assert(false);
            }
            0
        },
    }
}

/// Overflow-checked variant of [`align_up`]: `None` exactly when the rounded
/// address would not fit in the address space.
pub fn align_up_checked(addr: usize, align: usize) -> (r: Option<usize>)
    requires
        1 <= align,
    ensures
        match r {
            Some(v) => v == spec_align_up(addr as int, align as int),
            None => spec_align_up(addr as int, align as int) > usize::MAX,
        },
{
    proof {
        lemma_align_up(addr as int, align as int);
        vstd::arithmetic::div_mod::lemma_mod_bound(addr as int, align as int);
        vstd::arithmetic::div_mod::lemma_mod_decreases(addr as nat, align as nat);
    }
    let rem = addr % align;
    if rem == 0 {
        Some(addr)
    } else {
        (addr - rem).checked_add(align)
    }
}

} // verus!
