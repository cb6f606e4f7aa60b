//! The vertical magnitude scaler.
//!
//! `find_scaler` picks a single multiplicative factor, a rational number
//! `num / den`, that shrinks a series so that its maximum fits strictly below
//! a target span. When the maximum already fits, the factor is one and the
//! series is left untouched.

use vstd::prelude::*;

verus! {

/// A multiplicative shrink factor, the rational number `num / den`.
#[derive(Clone, Copy, Debug)]
pub struct Scale {
    pub num: u64,
    pub den: u128,
}

/// The factor that `find_scaler` returns for a series maximum `max_value`
/// and a target span `size`.
pub open spec fn spec_find_scaler(max_value: int, size: int) -> (int, int) {
    if size == 0 {
        (0, 1)
    } else if max_value < size {
        (1, 1)
    } else if size == 1 {
        (1, max_value + 1)
    } else {
        (size - 1, max_value)
    }
}

/// A value scaled by a factor: `x * num / den`, rounded down.
pub open spec fn spec_scale_value(x: int, num: int, den: int) -> int
    recommends
        den > 0,
{
    x * num / den
}

/// Find the factor that fits a series whose maximum is `max_value` into a
/// span of `size` cells: one when the series already fits, and otherwise the
/// largest factor of the form `(size - 1) / max_value` — except for a span of
/// a single cell, where that form would vanish and the positive factor
/// `1 / (max_value + 1)` takes its place. For any span of at least one cell
/// the factor is positive and at most one, and every scaled value lands
/// strictly below the span.
pub fn find_scaler(max_value: u64, size: u16) -> (s: Scale)
    ensures
        (s.num as int, s.den as int) == spec_find_scaler(max_value as int, size as int),
        s.den > 0,
        s.num as int <= s.den as int,
        size >= 1 ==> s.num >= 1,
        max_value < size ==> s.num as int == s.den as int,
{
    if size == 0 {
        Scale { num: 0, den: 1 }
    } else if max_value < size as u64 {
        Scale { num: 1, den: 1 }
    } else if size == 1 {
        Scale { num: 1, den: max_value as u128 + 1 }
    } else {
        Scale { num: size as u64 - 1, den: max_value as u128 }
    }
}

/// For any span of at least one cell the factor of `find_scaler` is a
/// positive rational no greater than one; after scaling by it, the maximum of
/// the series, and with it every value of the series, lies strictly below the
/// target span; and a series that already fits is not altered at all.
pub proof fn lemma_scaler_fits(max_value: int, size: int, x: int)
    requires
        0 <= x <= max_value,
        1 <= size,
    ensures
        ({
            let (num, den) = spec_find_scaler(max_value, size);
            1 <= num <= den
        }),
        ({
            let (num, den) = spec_find_scaler(max_value, size);
            spec_scale_value(x, num, den) < size
        }),
        max_value < size ==> ({
            let (num, den) = spec_find_scaler(max_value, size);
            spec_scale_value(x, num, den) == x
        }),
{
    let (num, den) = spec_find_scaler(max_value, size);
    if max_value < size {
        assert(x * 1 == x);
        assert(x / 1 == x);
    } else if size == 1 {
        assert(x * 1 == x);
        vstd::arithmetic::div_mod::lemma_basic_div(x, max_value + 1);
    } else {
        // x * (size - 1) <= max_value * (size - 1) < max_value * size,
        // so the quotient by max_value is below size.
        assert(x * (size - 1) <= max_value * (size - 1)) by (nonlinear_arith)
            requires 0 <= x <= max_value, 1 <= size;
        assert(max_value * (size - 1) < max_value * size) by (nonlinear_arith)
            requires 1 <= max_value;
        assert(x * (size - 1) / max_value < size) by (nonlinear_arith)
            requires
                1 <= max_value,
                1 <= size,
                x * (size - 1) < max_value * size;
    }
}

/// A scaled value never grows: `x * num / den <= x` whenever `num <= den`.
pub proof fn lemma_scale_value_le(x: int, num: int, den: int)
    requires
        0 <= x,
        0 <= num <= den,
        0 < den,
    ensures
        0 <= spec_scale_value(x, num, den) <= x,
{
    assert(x * num <= x * den) by (nonlinear_arith)
        requires 0 <= x, num <= den;
    assert(0 <= x * num) by (nonlinear_arith)
        requires 0 <= x, 0 <= num;
    assert(x * num / den <= x * den / den) by (nonlinear_arith)
        requires 0 < den, x * num <= x * den;
    assert(x * den / den == x) by (nonlinear_arith)
        requires 0 < den;
    assert(0 <= x * num / den) by (nonlinear_arith)
        requires 0 < den, 0 <= x * num;
}

/// Scale one value by the factor `s`, rounding down.
pub fn scale_value(x: usize, s: Scale) -> (r: usize)
    requires
        s.den > 0,
        s.num as int <= s.den as int,
    ensures
        r == spec_scale_value(x as int, s.num as int, s.den as int),
        r <= x,
{
    proof {
        assert((x as int) * (s.num as int) < 0x1_0000_0000_0000_0000_0000_0000_0000_0000)
            by (nonlinear_arith)
            requires
                0 <= x < 0x1_0000_0000_0000_0000,
                0 <= s.num < 0x1_0000_0000_0000_0000;
        lemma_scale_value_le(x as int, s.num as int, s.den as int);
    }
    ((x as u128) * (s.num as u128) / s.den) as usize
}

/// Scale every value of a series by the factor `s`, rounding down.
pub fn scale_series(nums: &Vec<usize>, s: Scale) -> (r: Vec<usize>)
    requires
        s.den > 0,
        s.num as int <= s.den as int,
    ensures
        r@.len() == nums@.len(),
        forall|i: int| 0 <= i < nums@.len()
            ==> #[trigger] r@[i] == spec_scale_value(nums@[i] as int, s.num as int, s.den as int),
{
    let mut out: Vec<usize> = Vec::new();
    let mut i: usize = 0;
    while i < nums.len()
        invariant
            i <= nums@.len(),
            out@.len() == i,
            s.den > 0,
            s.num as int <= s.den as int,
            forall|j: int| 0 <= j < i
                ==> #[trigger] out@[j]
                    == spec_scale_value(nums@[j] as int, s.num as int, s.den as int),
        decreases nums@.len() - i,
    {
        let scaled = scale_value(nums[i], s);
        out.push(scaled);
        i += 1;
    }
    out
}

} // verus!
