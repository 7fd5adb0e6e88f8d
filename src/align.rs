//! Alignment arithmetic on addresses: the mathematical meaning of rounding,
//! and the bit-level formulas that compute it for power-of-two alignments.
use vstd::arithmetic::div_mod::{
    lemma_fundamental_div_mod, lemma_mod_breakdown, lemma_mod_multiples_basic, lemma_small_mod,
};
use vstd::arithmetic::power2::is_pow2;
use vstd::prelude::*;

verus! {

/// `a` is a power of two.
pub open spec fn is_power_of_two(a: usize) -> bool {
    a != 0 && a & ((a - 1) as usize) == 0
}

/// Number of bytes needed to move `x` up to the next multiple of `a`.
pub open spec fn pad(x: int, a: int) -> int {
    (a - x % a) % a
}

/// `x` rounded up to a multiple of `a`.
pub open spec fn align_up(x: int, a: int) -> int {
    x + pad(x, a)
}

/// `x` rounded down to a multiple of `a`.
pub open spec fn align_down(x: int, a: int) -> int {
    x - x % a
}

/// Rounding up lands on the first multiple of `a` at or above `x`.
pub proof fn lemma_align_up(x: int, a: int)
    requires
        x >= 0,
        a > 0,
    ensures
        align_up(x, a) % a == 0,
        x <= align_up(x, a) < x + a,
        x % a == 0 ==> align_up(x, a) == x,
{
    let k = x / a;
    let r = x % a;
    lemma_fundamental_div_mod(x, a);
    if r == 0 {
        assert(a % a == 0) by {
            lemma_mod_multiples_basic(1, a);
        }
    } else {
        lemma_small_mod((a - r) as nat, a as nat);
        assert(a * k + a == a * (k + 1)) by (nonlinear_arith);
        lemma_mod_multiples_basic(k + 1, a);
    }
}

/// Rounding down lands on the last multiple of `a` at or below `x`.
pub proof fn lemma_align_down(x: int, a: int)
    requires
        x >= 0,
        a > 0,
    ensures
        align_down(x, a) % a == 0,
        x - a < align_down(x, a) <= x,
        0 <= align_down(x, a),
        x % a == 0 ==> align_down(x, a) == x,
{
    lemma_fundamental_div_mod(x, a);
    lemma_mod_multiples_basic(x / a, a);
    assert((x / a) * a == a * (x / a)) by (nonlinear_arith);
}

/// The sum of two multiples of `m` is a multiple of `m`.
pub proof fn lemma_sum_of_multiples(x: int, y: int, m: int)
    requires
        x >= 0,
        y >= 0,
        m > 0,
        x % m == 0,
        y % m == 0,
    ensures
        (x + y) % m == 0,
{
    lemma_fundamental_div_mod(x, m);
    lemma_fundamental_div_mod(y, m);
    assert(x + y == (x / m + y / m) * m) by (nonlinear_arith)
        requires
            x == m * (x / m),
            y == m * (y / m),
    ;
    lemma_mod_multiples_basic(x / m + y / m, m);
}

/// The difference of two multiples of `m` is a multiple of `m`.
pub proof fn lemma_difference_of_multiples(x: int, y: int, m: int)
    requires
        m > 0,
        x % m == 0,
        y % m == 0,
    ensures
        (x - y) % m == 0,
{
    lemma_fundamental_div_mod(x, m);
    lemma_fundamental_div_mod(y, m);
    assert(x - y == (x / m - y / m) * m) by (nonlinear_arith)
        requires
            x == m * (x / m),
            y == m * (y / m),
    ;
    lemma_mod_multiples_basic(x / m - y / m, m);
}

/// A multiple of a multiple of `a` is a multiple of `a`.
pub proof fn lemma_mod_of_multiple(x: int, m: int, a: int)
    requires
        a > 0,
        m > 0,
        x % m == 0,
        m % a == 0,
    ensures
        x % a == 0,
{
    lemma_fundamental_div_mod(x, m);
    lemma_fundamental_div_mod(m, a);
    assert(x == ((x / m) * (m / a)) * a) by (nonlinear_arith)
        requires
            x == m * (x / m),
            m == a * (m / a),
    ;
    lemma_mod_multiples_basic((x / m) * (m / a), a);
}

/// A power of two divides every power of two that is not smaller.
pub proof fn lemma_power_of_two_divides(a: usize, m: usize)
    requires
        is_power_of_two(a),
        is_power_of_two(m),
        a <= m,
    ensures
        m % a == 0,
{
    lemma_mod_multiples_basic(1, m as int);
    lemma_multiple_of_smaller(m, a, m);
}

/// Where `x` and `a` are multiples of `m`, the remainder of `x` modulo `a`
/// and the distance from `x` up to a multiple of `a` are multiples of `m`
/// of at most `a - m`.
pub proof fn lemma_rem_of_multiple(x: int, m: int, a: int)
    requires
        x >= 0,
        m > 0,
        a >= m,
        a % m == 0,
        x % m == 0,
    ensures
        x % a <= a - m,
        (x % a) % m == 0,
        pad(x, a) <= a - m,
{
    let r = x % a;
    let k = x / a;
    lemma_fundamental_div_mod(x, a);
    lemma_mod_multiples_basic(k, a);
    assert(k * a == a * k) by (nonlinear_arith);
    lemma_mod_of_multiple(a * k, a, m);
    lemma_difference_of_multiples(x, a * k, m);
    assert(r == x - a * k);
    lemma_fundamental_div_mod(r, m);
    lemma_fundamental_div_mod(a, m);
    assert(r <= a - m) by (nonlinear_arith)
        requires
            r == m * (r / m),
            a == m * (a / m),
            0 <= r < a,
            m > 0,
    ;
    if r == 0 {
        lemma_mod_multiples_basic(1, a);
    } else {
        assert(r >= m) by (nonlinear_arith)
            requires
                r == m * (r / m),
                r > 0,
                m > 0,
        ;
        lemma_small_mod((a - r) as nat, a as nat);
    }
}

/// A multiple of `m` that is at most `y` is at most `y` rounded down to `m`.
pub proof fn lemma_multiple_below(k: int, y: int, m: int)
    requires
        0 <= k <= y,
        m > 0,
        k % m == 0,
    ensures
        k <= align_down(y, m),
{
    lemma_fundamental_div_mod(k, m);
    lemma_fundamental_div_mod(y, m);
    let a = k / m;
    let b = y / m;
    assert(a <= b) by (nonlinear_arith)
        requires
            k == m * a,
            y == m * b + y % m,
            0 <= y % m < m,
            k <= y,
            m > 0,
    ;
    assert(m * a <= m * b) by (nonlinear_arith)
        requires
            a <= b,
            m > 0,
    ;
}

/// The low bits below a power of two are the remainder modulo it.
pub proof fn lemma_low_mask_is_mod(x: usize, a: usize)
    requires
        is_power_of_two(a),
    ensures
        x & ((a - 1) as usize) == x % a,
    decreases a,
{
    if a == 1 {
        assert(x & 0usize == 0) by (bit_vector);
    } else {
        let b = a >> 1;
        assert(b == a / 2 && b != 0 && b & ((b - 1) as usize) == 0 && a == 2 * b) by (bit_vector)
            requires
                a != 0 && a & ((a - 1) as usize) == 0,
                a != 1,
                b == a >> 1,
        ;
        assert(x & ((a - 1) as usize) == 2 * ((x >> 1) & ((b - 1) as usize)) + (x & 1)) by (bit_vector)
            requires
                a != 0 && a & ((a - 1) as usize) == 0,
                a != 1,
                b == a >> 1,
        ;
        assert(x >> 1 == x / 2 && x & 1 == x % 2) by (bit_vector);
        lemma_low_mask_is_mod(x / 2, b);
        lemma_mod_breakdown(x as int, 2, b as int);
    }
}

/// The masked formula for the distance to the next multiple.
pub proof fn lemma_pad_formula(x: usize, a: usize)
    requires
        is_power_of_two(a),
    ensures
        x & ((a - 1) as usize) < a,
        ((a - (x & ((a - 1) as usize))) as usize) & ((a - 1) as usize) == pad(x as int, a as int),
{
    let m = x & ((a - 1) as usize);
    assert(m < a) by (bit_vector)
        requires
            a != 0,
            m == x & ((a - 1) as usize),
    ;
    lemma_low_mask_is_mod(x, a);
    lemma_low_mask_is_mod((a - m) as usize, a);
}

/// A power of two is at most one more than the largest signed size.
pub proof fn lemma_power_of_two_bound(a: usize)
    requires
        is_power_of_two(a),
    ensures
        a - 1 <= isize::MAX,
{
    let mx = usize::MAX;
    assert(a - 1 <= mx >> 1) by (bit_vector)
        requires
            a != 0 && a & ((a - 1) as usize) == 0,
            a <= mx,
            mx == 0xffff_ffffusize || mx as u64 == 0xffff_ffff_ffff_ffffu64,
    ;
    assert(mx >> 1 == mx / 2) by (bit_vector);
}

/// The recursive definition of a power of two agrees with the bit test.
pub proof fn lemma_is_pow2_bits(a: usize)
    requires
        is_pow2(a as int),
    ensures
        is_power_of_two(a),
    decreases a,
{
    reveal(is_pow2);
    if a == 1 {
        assert(1usize & 0usize == 0) by (bit_vector);
    } else {
        let b = (a / 2) as usize;
        lemma_is_pow2_bits(b);
        assert(a & ((a - 1) as usize) == 0) by (bit_vector)
            requires
                b != 0 && b & ((b - 1) as usize) == 0,
                a == 2 * b,
        ;
    }
}

/// The largest signed size is one less than a multiple of every power of two
/// that exceeds it by at most one.
pub proof fn lemma_isize_max_mod(a: usize)
    requires
        is_power_of_two(a),
    ensures
        isize::MAX as int % a as int == a - 1,
{
    lemma_power_of_two_bound(a);
    let mx = usize::MAX;
    let half = mx >> 1;
    assert(mx >> 1 == mx / 2) by (bit_vector);
    assert(half & ((a - 1) as usize) == (a - 1) as usize) by (bit_vector)
        requires
            a != 0 && a & ((a - 1) as usize) == 0,
            a - 1 <= half,
            half == mx >> 1,
            mx == 0xffff_ffffusize || mx as u64 == 0xffff_ffff_ffff_ffffu64,
    ;
    lemma_low_mask_is_mod(half, a);
}

/// Rounding up by adding `a - 1` and masking, when the sum fits.
pub proof fn lemma_add_mask_rounds_up(x: usize, a: usize)
    requires
        is_power_of_two(a),
        x + a - 1 <= usize::MAX,
    ensures
        ((x + a - 1) as usize) & !((a - 1) as usize) == align_up(x as int, a as int),
{
    let m = x & ((a - 1) as usize);
    assert(((x + a - 1) as usize) & !((a - 1) as usize) == (x + (((a - m) as usize) & ((a - 1) as usize))) as usize
        && ((a - m) as usize) & ((a - 1) as usize) < a)
        by (bit_vector)
        requires
            a != 0 && a & ((a - 1) as usize) == 0,
            m == x & ((a - 1) as usize),
    ;
    lemma_pad_formula(x, a);
}

/// The largest address is one less than a multiple of every power of two.
pub proof fn lemma_max_mod(a: usize)
    requires
        is_power_of_two(a),
    ensures
        usize::MAX % a == a - 1,
{
    lemma_low_mask_is_mod(usize::MAX, a);
    let mx = usize::MAX;
    assert(mx & ((a - 1) as usize) == (a - 1) as usize) by (bit_vector)
        requires
            a != 0 && a & ((a - 1) as usize) == 0,
            a <= mx,
            mx == 0xffff_ffffusize || mx as u64 == 0xffff_ffff_ffff_ffffu64,
    ;
}

/// When `x + a - 1` overflows, `x` rounded up lies past the largest address.
pub proof fn lemma_round_up_overflow(x: usize, a: usize)
    requires
        is_power_of_two(a),
        x + a - 1 > usize::MAX,
    ensures
        align_up(x as int, a as int) > usize::MAX,
{
    lemma_max_mod(a);
    let mx = usize::MAX as int;
    let ai = a as int;
    let xi = x as int;
    let q = mx / ai;
    assert(mx == ai * q + (ai - 1)) by {
        lemma_fundamental_div_mod(mx, ai);
    }
    let k = xi / ai;
    let r = xi % ai;
    assert(xi == ai * k + r) by {
        lemma_fundamental_div_mod(xi, ai);
    }
    if r == 0 {
        assert(xi + ai - 1 <= mx) by {
            assert(k <= q) by (nonlinear_arith)
            requires
                xi == ai * k,
                xi <= mx,
                mx == ai * q + (ai - 1),
                ai > 0,
        ;
            assert(ai * k + ai - 1 <= mx) by (nonlinear_arith)
                requires
                    k <= q,
                    mx == ai * q + (ai - 1),
                    ai > 0,
            ;
        }
    } else {
        assert(q < k + 1) by (nonlinear_arith)
            requires
                xi == ai * k + r,
                0 < r < ai,
                xi + ai - 1 > mx,
                mx == ai * q + (ai - 1),
        ;
        assert(ai * (k + 1) > mx && ai * (k + 1) == ai * k + ai) by (nonlinear_arith)
            requires
                q < k + 1,
                mx == ai * q + (ai - 1),
                ai > 0,
        ;
        lemma_small_mod((ai - r) as nat, ai as nat);
    }
}

/// A multiple of a power of two is a multiple of every smaller power of two.
pub proof fn lemma_multiple_of_smaller(x: usize, a: usize, m: usize)
    requires
        is_power_of_two(a),
        is_power_of_two(m),
        a <= m,
        x % m == 0,
    ensures
        x % a == 0,
{
    lemma_low_mask_is_mod(x, a);
    lemma_low_mask_is_mod(x, m);
    assert(x & ((a - 1) as usize) == 0) by (bit_vector)
        requires
            a != 0 && a & ((a - 1) as usize) == 0,
            m != 0 && m & ((m - 1) as usize) == 0,
            a <= m,
            x & ((m - 1) as usize) == 0,
    ;
}

/// Rounds `ptr` down to a multiple of the power of two `divisor`.
pub fn round_mut_ptr_down_to(ptr: usize, divisor: usize) -> (r: usize)
    requires
        is_power_of_two(divisor),
    ensures
        r == align_down(ptr as int, divisor as int),
{
    proof {
        lemma_low_mask_is_mod(ptr, divisor);
        lemma_align_down(ptr as int, divisor as int);
    }
    ptr - (ptr & (divisor - 1))
}

/// The distance from `addr` up to the next multiple of 8, by remainder.
pub fn align_std(addr: usize) -> (r: usize)
    ensures
        r == pad(addr as int, 8),
{
    (8 - addr % 8) % 8
}

/// The distance from `addr` up to the next multiple of 8, by bit masks.
pub fn align_manual(addr: usize) -> (r: usize)
    ensures
        r == pad(addr as int, 8),
{
    proof {
        assert(8usize & 7usize == 0) by (bit_vector);
        lemma_pad_formula(addr, 8);
    }
    (8 - (addr & 7)) & 7
}

} // verus!
