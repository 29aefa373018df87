//! Arithmetic on terminal cells.
//!
//! A stylesheet is untrusted input and may ask for a gap or a margin that no
//! screen can hold, so every sum of cells saturates at the ends of `i32`
//! rather than overflowing. Inside that range these are plain `+`, `-` and `*`.

use vstd::prelude::*;

verus! {

/// The cell count nearest to `v`.
pub open spec fn fit(v: int) -> i32 {
    if v > i32::MAX {
        i32::MAX
    } else if v < i32::MIN {
        i32::MIN
    } else {
        v as i32
    }
}

/// [`fit`] on a machine integer.
pub fn fit_wide(v: i128) -> (r: i32)
    ensures
        r == fit(v as int),
{
    if v > i32::MAX as i128 {
        i32::MAX
    } else if v < i32::MIN as i128 {
        i32::MIN
    } else {
        v as i32
    }
}

/// `a + b`, saturating.
#[verifier::allow_in_spec]
pub fn plus(a: i32, b: i32) -> (r: i32)
    returns
        fit(a + b),
{
    fit_wide(a as i128 + b as i128)
}

/// `a - b`, saturating.
#[verifier::allow_in_spec]
pub fn minus(a: i32, b: i32) -> (r: i32)
    returns
        fit(a - b),
{
    fit_wide(a as i128 - b as i128)
}

/// `a * b`, saturating.
#[verifier::allow_in_spec]
pub fn times(a: i32, b: i32) -> (r: i32)
    returns
        fit(a * b),
{
    assert(-0x8000_0000 * 0x8000_0000 <= a * b <= 0x8000_0000 * 0x8000_0000) by (nonlinear_arith)
        requires
            -0x8000_0000 <= a <= 0x7fff_ffff,
            -0x8000_0000 <= b <= 0x7fff_ffff,
    ;
    fit_wide(a as i128 * b as i128)
}

/// The larger of two cell counts.
#[verifier::allow_in_spec]
pub fn larger(a: i32, b: i32) -> (r: i32)
    returns
        (if a >= b {
            a
        } else {
            b
        }),
{
    if a >= b {
        a
    } else {
        b
    }
}

/// The smaller of two cell counts.
#[verifier::allow_in_spec]
pub fn smaller(a: i32, b: i32) -> (r: i32)
    returns
        (if a <= b {
            a
        } else {
            b
        }),
{
    if a <= b {
        a
    } else {
        b
    }
}

/// `-a`, saturating.
#[verifier::allow_in_spec]
pub fn negated(a: i32) -> (r: i32)
    returns
        fit(-a),
{
    minus(0, a)
}

/// Half of `a`, rounded towards zero.
#[verifier::allow_in_spec]
pub fn half(a: i32) -> (r: i32)
    returns
        (if a >= 0 {
            (a / 2) as i32
        } else {
            (-(-a / 2)) as i32
        }),
{
    if a >= 0 {
        a / 2
    } else {
        let m: i64 = -(a as i64);
        (-(m / 2)) as i32
    }
}

/// A count of things as a number of cells.
#[verifier::allow_in_spec]
pub fn count(n: usize) -> (r: i32)
    returns
        fit(n as int),
{
    if n > 0x7fff_ffff {
        i32::MAX
    } else {
        n as i32
    }
}

/// The fold behind every "add these up" in layout: cells summed from the left,
/// saturating at each step.
pub open spec fn total(cells: Seq<i32>) -> i32
    decreases cells.len(),
{
    if cells.len() == 0 {
        0
    } else {
        plus(total(cells.drop_last()), cells.last())
    }
}

/// Tracks that are not negative do not add up to less than nothing.
pub proof fn total_is_not_negative(cells: Seq<i32>)
    requires
        forall|k: int| 0 <= k < cells.len() ==> #[trigger] cells[k] >= 0,
    ensures
        total(cells) >= 0,
    decreases cells.len(),
{
    if cells.len() > 0 {
        let rest = cells.drop_last();
        assert forall|k: int| 0 <= k < rest.len() implies #[trigger] rest[k] >= 0 by {
            assert(cells[k] >= 0);
        }
        total_is_not_negative(rest);
        assert(cells[cells.len() - 1] >= 0);
    }
}

/// [`total`] of the tracks `from..to`.
pub fn total_of(cells: &Vec<i32>, from: usize, to: usize) -> (r: i32)
    requires
        from <= to <= cells@.len(),
    ensures
        r == total(cells@.subrange(from as int, to as int)),
{
    let mut sum: i32 = 0;
    let mut i: usize = from;
    while i < to
        invariant
            from <= i <= to <= cells@.len(),
            sum == total(cells@.subrange(from as int, i as int)),
        decreases to - i,
    {
        proof {
            assert(cells@.subrange(from as int, i + 1).drop_last() =~= cells@.subrange(
                from as int,
                i as int,
            ));
        }
        sum = plus(sum, cells[i]);
        i += 1;
    }
    sum
}

} // verus!
