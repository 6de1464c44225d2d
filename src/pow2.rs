use vstd::prelude::*;

verus! {

/// `n` is a power of two: 1, 2, 4, 8, ...
pub open spec fn is_pow2(n: int) -> bool
    decreases n,
{
    if n <= 0 {
        false
    } else if n == 1 {
        true
    } else {
        n % 2 == 0 && is_pow2(n / 2)
    }
}

/// `r` is the smallest power of two that is at least `n` (`1` for `n == 0`).
pub open spec fn is_next_pow2(n: int, r: int) -> bool {
    &&& is_pow2(r)
    &&& n <= r
    &&& forall|p: int| is_pow2(p) && n <= p ==> r <= p
}

/// The largest input for which the next power of two fits in a `usize`.
pub open spec fn max_padded_input() -> int {
    usize::MAX as int / 2 + 1
}

/// Two powers of two are either equal, or the smaller one divides the larger
/// one evenly and is at most half of it.
pub proof fn lemma_pow2_order(p: int, r: int)
    requires
        is_pow2(p),
        is_pow2(r),
        p < r,
    ensures
        2 * p <= r,
        r % (2 * p) == 0,
    decreases r,
{
    assert(r >= 2);
    if p == r / 2 {
        assert(r == 2 * p);
        vstd::arithmetic::div_mod::lemma_mod_self_0(r);
    } else {
        assert(p < r / 2) by {
            if p > r / 2 {
                // p lies strictly between r / 2 and r, which no power of two does
                lemma_pow2_between(p, r / 2);
            }
        }
        lemma_pow2_order(p, r / 2);
        assert(r % (2 * p) == 0) by {
            let q = (r / 2) / (2 * p);
            vstd::arithmetic::div_mod::lemma_fundamental_div_mod(r / 2, 2 * p);
            assert(r / 2 == q * (2 * p));
            assert(r == (2 * q) * (2 * p)) by (nonlinear_arith)
                requires r / 2 == q * (2 * p), r % 2 == 0, r >= 2;
            vstd::arithmetic::div_mod::lemma_mod_multiples_basic(2 * q, 2 * p);
        }
    }
}

/// No power of two lies strictly between `h` and `2 * h` when `h` is one.
proof fn lemma_pow2_between(p: int, h: int)
    requires
        is_pow2(p),
        is_pow2(h),
    ensures
        !(h < p && p < 2 * h),
    decreases h,
{
    if h < p && p < 2 * h && h > 1 {
        lemma_pow2_between(p / 2, h / 2);
    }
}

/// Whether `n` is a power of two.
pub fn is_power_of_two(n: usize) -> (r: bool)
    ensures
        r == is_pow2(n as int),
{
    if n == 0 {
        return false;
    }
    let mut m: usize = n;
    while m > 1 && m % 2 == 0
        invariant
            m >= 1,
            is_pow2(n as int) == is_pow2(m as int),
        decreases m,
    {
        m = m / 2;
    }
    m == 1
}

/// The smallest power of two that is at least `n`; `1` when `n` is `0`.
pub fn next_power_of_two(n: usize) -> (r: usize)
    requires
        n <= max_padded_input(),
    ensures
        is_next_pow2(n as int, r as int),
        r == 1 || r / 2 < n,
        is_pow2(n as int) ==> r == n,
{
    let mut r: usize = 1;
    while r < n
        invariant
            n <= max_padded_input(),
            is_pow2(r as int),
            r >= 1,
            r == 1 || r / 2 < n,
        decreases 2 * n - r,
    {
        r = r * 2;
        assert((r as int) / 2 == r / 2);
    }
    assert forall|p: int| is_pow2(p) && n <= p implies r <= p by {
        if p < r {
            lemma_pow2_order(p, r as int);
        }
    }
    r
}

} // verus!
