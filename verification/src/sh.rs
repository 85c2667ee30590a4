//! Counts and order of spherical-harmonics coefficients.
use vstd::prelude::*;

verus! {

/// Coefficients per colour channel at a degree.
pub open spec fn coeffs_of(degree: int) -> int {
    (degree + 1) * (degree + 1)
}

/// Coefficients per colour channel beyond the first, over the three channels.
pub open spec fn rest_of(degree: int) -> int {
    3 * (coeffs_of(degree) - 1)
}

pub fn num_coeffs(degree: u8) -> (n: usize)
    ensures
        n == coeffs_of(degree as int),
{
    let side: usize = degree as usize + 1;
    assert(side * side <= 256 * 256) by (nonlinear_arith)
        requires
            side <= 256,
    ;
    side * side
}

/// Values of harmonics data per splat, all three channels.
pub fn sh_floats_per_splat(degree: u8) -> (n: usize)
    ensures
        n == 3 * coeffs_of(degree as int),
{
    let coeffs: usize = num_coeffs(degree);
    assert((degree + 1) * (degree + 1) <= 256 * 256) by (nonlinear_arith)
        requires
            0 <= degree <= 255,
    ;
    3 * coeffs
}

/// The degree whose coefficients beyond the first number `rest` over the three
/// channels.
pub open spec fn degree_of_rest(rest: int) -> Option<u8> {
    if rest == 0 {
        Some(0)
    } else if rest == 9 {
        Some(1)
    } else if rest == 24 {
        Some(2)
    } else if rest == 45 {
        Some(3)
    } else {
        None
    }
}

pub fn degree_from_rest_count(rest: usize) -> (d: Option<u8>)
    ensures
        d == degree_of_rest(rest as int),
{
    if rest == 0 {
        Some(0)
    } else if rest == 9 {
        Some(1)
    } else if rest == 24 {
        Some(2)
    } else if rest == 45 {
        Some(3)
    } else {
        None
    }
}

/// A degree is found again from its count, and only the degrees up to three
/// are.
pub proof fn degree_is_found_from_its_count(degree: u8, rest: int)
    ensures
        degree <= 3 ==> degree_of_rest(rest_of(degree as int)) == Some(degree),
        degree_of_rest(rest) matches Some(d) ==> d <= 3 && rest_of(d as int) == rest,
{
    assert(rest_of(0) == 0 && rest_of(1) == 9 && rest_of(2) == 24 && rest_of(3) == 45)
        by (nonlinear_arith);
}

/// Coefficient-major order of one splat's harmonics: coefficient `k` of
/// channel `ch` stands at `3 * k + ch`. The first coefficients come from `dc`;
/// the others from `rest`, which holds channel after channel.
pub open spec fn interleaved<T>(dc: Seq<T>, rest: Seq<T>, coeffs: int) -> Seq<T> {
    Seq::new(
        (3 * coeffs) as nat,
        |i: int|
            if i < 3 {
                dc[i]
            } else {
                rest[i % 3 * (coeffs - 1) + (i / 3 - 1)]
            },
    )
}

/// Brings one splat's harmonics into coefficient-major order.
pub fn interleave<T: Copy>(dc: &[T], rest: &[T], coeffs: usize) -> (out: Vec<T>)
    requires
        1 <= coeffs,
        3 * coeffs <= usize::MAX,
        dc@.len() == 3,
        rest@.len() == 3 * (coeffs - 1),
    ensures
        out@ == interleaved(dc@, rest@, coeffs as int),
{
    let mut out: Vec<T> = Vec::new();
    let mut i: usize = 0;
    let n: usize = 3 * coeffs;
    while i < n
        invariant
            i <= n,
            n == 3 * coeffs,
            1 <= coeffs,
            dc@.len() == 3,
            rest@.len() == 3 * (coeffs - 1),
            out@.len() == i,
            forall|k: int|
                0 <= k < i ==> (#[trigger] out@[k]) == interleaved(dc@, rest@, coeffs as int)[k],
        decreases n - i,
    {
        if i < 3 {
            out.push(dc[i]);
        } else {
            let ch: usize = i % 3;
            let k: usize = i / 3 - 1;
            assert(0 <= ch * (coeffs - 1) && ch * (coeffs - 1) + k < 3 * (coeffs - 1))
                by (nonlinear_arith)
                requires
                    ch <= 2,
                    0 <= k < coeffs - 1,
                    coeffs >= 1,
            ;
            out.push(rest[ch * (coeffs - 1) + k]);
        }
        i = i + 1;
    }
    assert(out@ =~= interleaved(dc@, rest@, coeffs as int));
    out
}

/// Every coefficient keeps its channel and its place: coefficient `k` of
/// channel `ch` is the one that the channel-major data holds.
pub proof fn interleaving_keeps_coefficients<T>(
    dc: Seq<T>,
    rest: Seq<T>,
    coeffs: int,
    k: int,
    ch: int,
)
    requires
        0 <= k < coeffs,
        0 <= ch < 3,
        dc.len() == 3,
        rest.len() == 3 * (coeffs - 1),
    ensures
        interleaved(dc, rest, coeffs)[3 * k + ch] == (if k == 0 {
            dc[ch]
        } else {
            rest[ch * (coeffs - 1) + (k - 1)]
        }),
{
}

} // verus!
