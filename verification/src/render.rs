//! Layout of a splat scene on the GPU, dispatch sizes of the renderer, and the
//! sums behind image comparison.
use vstd::prelude::*;

verus! {

/// Harmonics values per splat on the GPU: always those of degree three, so
/// that the layout is fixed.
pub const SH_FLOATS_PER_SPLAT: usize = 48;

/// Size of the reference images.
pub const GOLDEN_WIDTH: u32 = 800;

pub const GOLDEN_HEIGHT: u32 = 600;

/// `n` splats' harmonics of `coeffs` values each, each padded with `zero` to
/// the fixed size.
pub open spec fn padded_sh<T>(sh: Seq<T>, coeffs: int, zero: T, n: int) -> Seq<T> {
    Seq::new(
        (n * 48) as nat,
        |k: int|
            if k % 48 < coeffs {
                sh[k / 48 * coeffs + k % 48]
            } else {
                zero
            },
    )
}

/// Pads the harmonics of a scene to the fixed size.
pub fn pad_sh<T: Copy>(sh: &[T], coeffs: usize, zero: T, n: usize) -> (out: Vec<T>)
    requires
        coeffs <= 48,
        n * coeffs <= sh@.len(),
        n * 48 <= usize::MAX,
    ensures
        out@ == padded_sh(sh@, coeffs as int, zero, n as int),
{
    let len: usize = sh.len();
    let mut out: Vec<T> = Vec::new();
    let mut i: usize = 0;
    while i < n
        invariant
            i <= n,
            coeffs <= 48,
            len == sh@.len(),
            n * coeffs <= sh@.len(),
            n * 48 <= usize::MAX,
            out@.len() == i * 48,
            forall|k: int|
                0 <= k < out@.len() ==> (#[trigger] out@[k]) == padded_sh(
                    sh@,
                    coeffs as int,
                    zero,
                    n as int,
                )[k],
        decreases n - i,
    {
        proof {
            assert(0 <= i * coeffs && i * coeffs + coeffs <= n * coeffs) by (nonlinear_arith)
                requires
                    0 <= i < n,
                    0 <= coeffs,
            ;
        }
        let src: usize = i * coeffs;
        let mut c: usize = 0;
        while c < 48
            invariant
                c <= 48,
                i < n,
                coeffs <= 48,
                src == i * coeffs,
                src + coeffs <= sh@.len(),
                len == sh@.len(),
                out@.len() == i * 48 + c,
                forall|k: int|
                    0 <= k < out@.len() ==> (#[trigger] out@[k]) == padded_sh(
                        sh@,
                        coeffs as int,
                        zero,
                        n as int,
                    )[k],
            decreases 48 - c,
        {
            assert((i * 48 + c) / 48 == i && (i * 48 + c) % 48 == c);
            if c < coeffs {
                out.push(sh[src + c]);
            } else {
                out.push(zero);
            }
            c = c + 1;
        }
        i = i + 1;
    }
    assert(out@ =~= padded_sh(sh@, coeffs as int, zero, n as int));
    out
}

/// Triples as quadruples with a fixed last value, one after the other.
pub open spec fn quads<T>(triples: Seq<[T; 3]>, last: T) -> Seq<T> {
    Seq::new(
        4 * triples.len(),
        |k: int|
            if k % 4 < 3 {
                triples[k / 4]@[k % 4]
            } else {
                last
            },
    )
}

/// Positions or scales as the GPU takes them: with a fourth value each.
pub fn to_quads<T: Copy>(triples: &[[T; 3]], last: T) -> (out: Vec<T>)
    ensures
        out@ == quads(triples@, last),
{
    let mut out: Vec<T> = Vec::new();
    let mut i: usize = 0;
    while i < triples.len()
        invariant
            i <= triples@.len(),
            out@.len() == 4 * i,
            forall|k: int| 0 <= k < 4 * i ==> (#[trigger] out@[k]) == quads(triples@, last)[k],
        decreases triples@.len() - i,
    {
        let t: [T; 3] = triples[i];
        out.push(t[0]);
        out.push(t[1]);
        out.push(t[2]);
        out.push(last);
        i = i + 1;
    }
    assert(out@ =~= quads(triples@, last));
    out
}

/// Sizes of a renderer for a scene.
#[derive(Clone, Copy, Debug, PartialEq, Eq, Structural)]
pub struct RendererPlan {
    /// Capacity of the depth sorter.
    pub sort_capacity: u32,
    /// Bytes of the projected splats: three vectors of four floats each.
    pub splats_2d: u64,
    /// Workgroups of the projection.
    pub preprocess_groups: u32,
}

/// Plans the renderer of `n` splats; an empty scene is refused.
pub fn plan_renderer(n: u32) -> (p: RendererPlan)
    requires
        n > 0,
    ensures
        p.sort_capacity == n,
        p.splats_2d == 48 * n,
        p.preprocess_groups == (n + 255) / 256,
{
    RendererPlan {
        sort_capacity: n,
        splats_2d: n as u64 * 48,
        preprocess_groups: n / 256 + (if n % 256 == 0 {
            0
        } else {
            1
        }),
    }
}

/// Harmonics degree of a frame: the one asked for, at most the scene's.
pub fn active_degree(asked: u8, scene: u8) -> (d: u8)
    ensures
        d == (if asked <= scene {
            asked
        } else {
            scene
        }),
{
    if asked <= scene {
        asked
    } else {
        scene
    }
}

// ---- comparison of images ----

/// Square of the difference of two bytes.
pub open spec fn squared_difference(a: u8, b: u8) -> int {
    (a - b) * (a - b)
}

/// Squared differences of the colours of the first `n` pixels.
pub open spec fn squared_error(a: Seq<u8>, b: Seq<u8>, n: int) -> int
    decreases n,
{
    if n <= 0 {
        0
    } else {
        let k = 4 * (n - 1);
        squared_error(a, b, n - 1) + squared_difference(a[k], b[k]) + squared_difference(
            a[k + 1],
            b[k + 1],
        ) + squared_difference(a[k + 2], b[k + 2])
    }
}

fn square_of(a: u8, b: u8) -> (d: u128)
    ensures
        d == squared_difference(a, b),
        d <= 65025,
{
    let d: u128 = if a >= b {
        (a - b) as u128
    } else {
        (b - a) as u128
    };
    assert(d * d <= 65025) by (nonlinear_arith)
        requires
            d <= 255,
    ;
    assert(d * d == (a - b) * (a - b)) by (nonlinear_arith)
        requires
            d == a - b || d == b - a,
    ;
    d * d
}

/// Sum of squared colour differences of two images of four bytes a pixel,
/// alpha left out, and how many values it runs over.
pub fn psnr_sums(a: &[u8], b: &[u8]) -> (s: (u128, u64))
    requires
        a@.len() == b@.len(),
    ensures
        s.0 == squared_error(a@, b@, a@.len() as int / 4),
        s.1 == 3 * (a@.len() / 4),
{
    let len: usize = a.len();
    let n: usize = len / 4;
    let mut se: u128 = 0;
    let mut i: usize = 0;
    while i < n
        invariant
            i <= n,
            n == len / 4,
            a@.len() == len,
            b@.len() == len,
            se == squared_error(a@, b@, i as int),
            se <= 195075 * i,
        decreases n - i,
    {
        let k: usize = 4 * i;
        se = se + square_of(a[k], b[k]) + square_of(a[k + 1], b[k + 1]) + square_of(
            a[k + 2],
            b[k + 2],
        );
        i = i + 1;
    }
    (se, 3 * (n as u64))
}

/// Images without a difference are those whose colours are equal: only they
/// compare as identical.
pub proof fn zero_error_means_equal_colours(a: Seq<u8>, b: Seq<u8>, n: int)
    requires
        0 <= n,
        4 * n <= a.len(),
        a.len() == b.len(),
    ensures
        squared_error(a, b, n) >= 0,
        squared_error(a, b, n) == 0 <==> forall|k: int|
            0 <= k < 4 * n && k % 4 != 3 ==> (#[trigger] a[k]) == b[k],
    decreases n,
{
    if n > 0 {
        zero_error_means_equal_colours(a, b, n - 1);
        let k = 4 * (n - 1);
        lemma_square(a[k], b[k]);
        lemma_square(a[k + 1], b[k + 1]);
        lemma_square(a[k + 2], b[k + 2]);
        if squared_error(a, b, n) == 0 {
            assert forall|j: int| 0 <= j < 4 * n && j % 4 != 3 implies (#[trigger] a[j])
                == b[j] by {
                if j >= k {
                    assert(j == k || j == k + 1 || j == k + 2);
                }
            }
        }
    }
}

proof fn lemma_square(a: u8, b: u8)
    ensures
        squared_difference(a, b) >= 0,
        squared_difference(a, b) == 0 <==> a == b,
{
    assert((a - b) * (a - b) >= 0 && ((a - b) * (a - b) == 0 <==> a == b)) by (nonlinear_arith);
}

/// Padding keeps every value at its splat and its place: value `c` of splat
/// `i` stands at `48 * i + c`, and zeros fill up to the next splat.
pub proof fn padding_keeps_the_values<T>(sh: Seq<T>, coeffs: int, zero: T, n: int, i: int, c: int)
    requires
        0 <= coeffs <= 48,
        0 <= i < n,
        0 <= c < 48,
    ensures
        padded_sh(sh, coeffs, zero, n).len() == 48 * n,
        c < coeffs ==> padded_sh(sh, coeffs, zero, n)[48 * i + c] == sh[coeffs * i + c],
        c >= coeffs ==> padded_sh(sh, coeffs, zero, n)[48 * i + c] == zero,
{
    assert((48 * i + c) / 48 == i && (48 * i + c) % 48 == c);
    assert(coeffs * i == i * coeffs) by (nonlinear_arith);
}

/// The three values of a triple keep their order, and the fixed value comes
/// fourth.
pub proof fn quads_hold_the_triples<T>(triples: Seq<[T; 3]>, last: T, i: int)
    requires
        0 <= i < triples.len(),
    ensures
        quads(triples, last).len() == 4 * triples.len(),
        quads(triples, last).subrange(4 * i, 4 * i + 4) == triples[i]@.push(last),
{
    let q = quads(triples, last).subrange(4 * i, 4 * i + 4);
    assert((4 * i) / 4 == i && (4 * i + 1) / 4 == i && (4 * i + 2) / 4 == i && (4 * i + 3) / 4
        == i);
    assert(q =~= triples[i]@.push(last));
}

/// Errors add up over the pixels, do not depend on which image comes first,
/// and where two images differ in one colour of one pixel the error is the
/// square of that difference.
pub proof fn one_difference_counts_its_square(a: Seq<u8>, b: Seq<u8>, n: int, at: int)
    requires
        0 <= n,
        4 * n <= a.len(),
        a.len() == b.len(),
        0 <= at < 4 * n,
        at % 4 != 3,
        forall|k: int| 0 <= k < 4 * n && k % 4 != 3 && k != at ==> (#[trigger] a[k]) == b[k],
    ensures
        squared_error(a, b, n) == (a[at] - b[at]) * (a[at] - b[at]),
        squared_error(a, b, n) == squared_error(b, a, n),
    decreases n,
{
    errors_add_up(a, b, n - 1, n);
    let k = 4 * (n - 1);
    assert(forall|x: u8| #[trigger] squared_difference(x, x) == 0) by {
        assert forall|x: u8| #[trigger] squared_difference(x, x) == 0 by {
            lemma_square(x, x);
        }
    }
    if at < k {
        one_difference_counts_its_square(a, b, n - 1, at);
        assert(a[k] == b[k] && a[k + 1] == b[k + 1] && a[k + 2] == b[k + 2]);
    } else {
        assert forall|j: int| 0 <= j < k && j % 4 != 3 implies (#[trigger] a[j]) == b[j] by {}
        zero_error_means_equal_colours(a, b, n - 1);
        zero_error_means_equal_colours(b, a, n - 1);
        assert(at == k || at == k + 1 || at == k + 2);
        assert((a[at] - b[at]) * (a[at] - b[at]) == (b[at] - a[at]) * (b[at] - a[at]))
            by (nonlinear_arith);
        assert(at == k || a[k] == b[k]);
        assert(at == k + 1 || a[k + 1] == b[k + 1]);
        assert(at == k + 2 || a[k + 2] == b[k + 2]);
    }
}

/// The error over some pixels and over those behind them add up.
pub proof fn errors_add_up(a: Seq<u8>, b: Seq<u8>, m: int, n: int)
    requires
        0 <= m <= n,
        4 * n <= a.len(),
        a.len() == b.len(),
    ensures
        squared_error(a, b, n) == squared_error(a, b, m) + squared_error(
            a.skip(4 * m),
            b.skip(4 * m),
            n - m,
        ),
    decreases n,
{
    if m < n {
        errors_add_up(a, b, m, n - 1);
        let k = 4 * (n - 1);
        let j = 4 * (n - m - 1);
        assert(a.skip(4 * m)[j] == a[k] && b.skip(4 * m)[j] == b[k]);
        assert(a.skip(4 * m)[j + 1] == a[k + 1] && b.skip(4 * m)[j + 1] == b[k + 1]);
        assert(a.skip(4 * m)[j + 2] == a[k + 2] && b.skip(4 * m)[j + 2] == b[k + 2]);
    }
}

} // verus!
