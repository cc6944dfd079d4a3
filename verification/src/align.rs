//! Power-of-two alignment arithmetic shared by the segment and region logic.

use vstd::prelude::*;
use vstd::arithmetic::div_mod::{
    lemma_add_mod_noop, lemma_fundamental_div_mod, lemma_mod_division_less_than_divisor,
    lemma_mod_multiples_basic, lemma_mod_self_0, lemma_mod_twice,
};

verus! {

/// `n` is a positive power of two.
pub open spec fn is_pow2(n: int) -> bool
    decreases n,
{
    if n <= 0 {
        false
    } else if n == 1 {
        true
    } else {
        n % 2 == 0 && is_pow2(n / 2)
    }
}

/// The least multiple of `align` that is at least `x`.
pub open spec fn spec_align_up(x: int, align: int) -> int {
    if x % align == 0 {
        x
    } else {
        x + align - x % align
    }
}

pub proof fn lemma_align_up_props(x: int, align: int)
    requires
        0 <= x,
        1 <= align,
    ensures
        spec_align_up(x, align) % align == 0,
        x <= spec_align_up(x, align) < x + align,
{
    lemma_mod_division_less_than_divisor(x, align);
    let rem = x % align;
    if rem != 0 {
        lemma_fundamental_div_mod(x, align);
        assert(x - rem == align * (x / align));
        assert(spec_align_up(x, align) == align * (x / align) + align);
        assert(align * (x / align) + align == (x / align + 1) * align) by (nonlinear_arith);
        lemma_mod_multiples_basic(x / align + 1, align);
    }
}

/// A multiple of `align` that is at least `x` is at least `spec_align_up(x, align)`.
pub proof fn lemma_align_up_le(x: int, align: int, m: int)
    requires
        0 <= x <= m,
        1 <= align,
        m % align == 0,
    ensures
        spec_align_up(x, align) <= m,
{
    lemma_align_up_props(x, align);
    let r = spec_align_up(x, align);
    lemma_fundamental_div_mod(r, align);
    lemma_fundamental_div_mod(m, align);
    let p = r / align;
    let q = m / align;
    assert(r == align * p);
    assert(m == align * q);
    assert(r < m + align);
    assert(align * p < align * (q + 1)) by (nonlinear_arith)
        requires
            align * p < align * q + align,
    ;
    assert(p < q + 1) by (nonlinear_arith)
        requires
            align * p < align * (q + 1),
            align >= 1,
    ;
    assert(align * p <= align * q) by (nonlinear_arith)
        requires
            p <= q,
            align >= 1,
    ;
}

/// Divisibility is transitive: if `a` divides `b` and `b` divides `x`,
/// then `a` divides `x`.
pub proof fn lemma_divides_transitive(x: int, b: int, a: int)
    requires
        1 <= a,
        1 <= b,
        b % a == 0,
        x % b == 0,
    ensures
        x % a == 0,
{
    lemma_fundamental_div_mod(x, b);
    lemma_fundamental_div_mod(b, a);
    assert(x == b * (x / b));
    assert(b == a * (b / a));
    assert((a * (b / a)) * (x / b) == ((b / a) * (x / b)) * a) by (nonlinear_arith);
    assert(x == ((b / a) * (x / b)) * a);
    lemma_mod_multiples_basic((b / a) * (x / b), a);
}

/// Adding a multiple of `m` does not change a value's remainder mod `m`.
pub proof fn lemma_mod_sum_zero_left(a: int, b: int, m: int)
    requires
        1 <= m,
        b % m == 0,
    ensures
        (a + b) % m == a % m,
{
    lemma_add_mod_noop(a, b, m);
    lemma_mod_twice(a, m);
}

/// Of two powers of two, the smaller divides the larger.
pub proof fn lemma_pow2_le_divides(a: int, b: int)
    requires
        is_pow2(a),
        is_pow2(b),
        a <= b,
    ensures
        b % a == 0,
    decreases b,
{
    if a == b {
        lemma_mod_self_0(a);
    } else {
        // a < b, so b >= 2 and b is even.
        assert(b % 2 == 0 && is_pow2(b / 2));
        if a == 1 {
            lemma_fundamental_div_mod(b, 1);
            lemma_mod_multiples_basic(b, 1);
            assert(b == b * 1) by (nonlinear_arith);
        } else {
            assert(a % 2 == 0 && is_pow2(a / 2));
            lemma_fundamental_div_mod(a, 2);
            lemma_fundamental_div_mod(b, 2);
            assert(a / 2 <= b / 2) by (nonlinear_arith)
                requires
                    a <= b,
                    a == 2 * (a / 2),
                    b == 2 * (b / 2),
            ;
            lemma_pow2_le_divides(a / 2, b / 2);
            let k = (b / 2) / (a / 2);
            lemma_fundamental_div_mod(b / 2, a / 2);
            assert(b / 2 == (a / 2) * k);
            assert(2 * ((a / 2) * k) == k * (2 * (a / 2))) by (nonlinear_arith);
            assert(b == k * a);
            lemma_mod_multiples_basic(k, a);
        }
    }
}

/// Rounds `addr` up to the next multiple of `align`.
///
/// `align` must be a power of two and the rounded value must fit in `usize`.
pub fn align_up(addr: usize, align: usize) -> (r: usize)
    requires
        is_pow2(align as int),
        spec_align_up(addr as int, align as int) <= usize::MAX,
    ensures
        r as int == spec_align_up(addr as int, align as int),
{
    proof {
        lemma_align_up_props(addr as int, align as int);
    }
    let rem = addr % align;
    if rem == 0 {
        addr
    } else {
        addr + (align - rem)
    }
}

/// Rounds `addr` up to the next multiple of `align`, reporting `None` when
/// the rounded value does not fit in `usize`.
pub fn checked_align_up(addr: usize, align: usize) -> (r: Option<usize>)
    requires
        is_pow2(align as int),
    ensures
        match r {
            Some(v) => v as int == spec_align_up(addr as int, align as int),
            None => spec_align_up(addr as int, align as int) > usize::MAX,
        },
{
    proof {
        lemma_align_up_props(addr as int, align as int);
    }
    let rem = addr % align;
    if rem == 0 {
        Some(addr)
    } else {
        addr.checked_add(align - rem)
    }
}

/// Decides whether `n` is a positive power of two.
pub fn is_power_of_two(n: usize) -> (r: bool)
    ensures
        r == is_pow2(n as int),
{
    if n == 0 {
        return false;
    }
    let mut m: usize = n;
    while m % 2 == 0
        invariant
            1 <= m <= n,
            is_pow2(n as int) == is_pow2(m as int),
        decreases m,
    {
        m = m / 2;
    }
    m == 1
}

} // verus!
