//! Sizes of image pyramids, and the pixels that a downsampled pixel is made
//! of.
use vstd::prelude::*;

verus! {

/// Half of a length, never zero.
pub open spec fn halved(n: int) -> int {
    if n / 2 < 1 {
        1
    } else {
        n / 2
    }
}

fn half(n: usize) -> (h: usize)
    ensures
        h == halved(n as int),
{
    let h: usize = n / 2;
    if h < 1 {
        1
    } else {
        h
    }
}

/// Smallest side of a level beyond the first.
pub const MIN_SIDE: usize = 16;

/// Sizes of the levels: each half of the one before, until `n` levels are
/// there or a side would be too small.
pub open spec fn level_sizes(width: int, height: int, n: int) -> Seq<(int, int)>
    decreases n,
{
    if n > 1 && halved(width) >= 16 && halved(height) >= 16 {
        seq![(width, height)] + level_sizes(halved(width), halved(height), n - 1)
    } else {
        seq![(width, height)]
    }
}

pub struct Level {
    pub width: usize,
    pub height: usize,
}

/// The sizes of a list of levels.
pub open spec fn sizes_of(levels: Seq<Level>) -> Seq<(int, int)> {
    levels.map_values(|l: Level| (l.width as int, l.height as int))
}

/// Coarse-to-fine pyramid; the first level is full resolution.
pub struct Pyramid {
    pub levels: Vec<Level>,
}

impl Pyramid {
    pub fn build(width: usize, height: usize, n_levels: usize) -> (p: Pyramid)
        ensures
            sizes_of(p.levels@) == level_sizes(width as int, height as int, n_levels as int),
    {
        let mut levels: Vec<Level> = Vec::new();
        let mut w: usize = width;
        let mut h: usize = height;
        let mut left: usize = n_levels;
        let ghost want = level_sizes(width as int, height as int, n_levels as int);
        assert(sizes_of(levels@) + want =~= want);
        while left > 1 && half(w) >= MIN_SIDE && half(h) >= MIN_SIDE
            invariant
                sizes_of(levels@) + level_sizes(w as int, h as int, left as int) == want,
            decreases left,
        {
            let ghost before = sizes_of(levels@);
            let ghost rest = level_sizes(halved(w as int), halved(h as int), left - 1);
            levels.push(Level { width: w, height: h });
            proof {
                assert(sizes_of(levels@) =~= before.push((w as int, h as int)));
                assert(before.push((w as int, h as int)) + rest =~= before + (seq![
                    (w as int, h as int),
                ] + rest));
            }
            w = half(w);
            h = half(h);
            left = left - 1;
        }
        let ghost before = sizes_of(levels@);
        levels.push(Level { width: w, height: h });
        proof {
            assert(sizes_of(levels@) =~= before + seq![(w as int, h as int)]);
        }
        Pyramid { levels }
    }
}

/// Every level beyond the first has sides of at least 16, and there are never
/// more than `n` levels but for the first.
pub proof fn levels_stay_large(width: int, height: int, n: int, k: int)
    requires
        0 <= k < level_sizes(width, height, n).len(),
    ensures
        k > 0 ==> level_sizes(width, height, n)[k].0 >= 16 && level_sizes(width, height, n)[k].1
            >= 16,
        k == 0 ==> level_sizes(width, height, n)[k] == (width, height),
        k > 0 ==> k < n,
    decreases n,
{
    if n > 1 && halved(width) >= 16 && halved(height) >= 16 && k > 0 {
        let rest = level_sizes(halved(width), halved(height), n - 1);
        levels_stay_large(halved(width), halved(height), n - 1, k - 1);
        assert(level_sizes(width, height, n)[k] == rest[k - 1]);
    }
}

/// The pixels around the centre of a downsampled pixel.
#[derive(Clone, Copy, Debug, PartialEq, Eq, Structural)]
pub struct Taps {
    pub cx: usize,
    pub cy: usize,
    /// The columns left and right, and the rows above and below, brought into
    /// the image.
    pub xm: usize,
    pub xp: usize,
    pub ym: usize,
    pub yp: usize,
}

/// The pixels that pixel `(ox, oy)` of the next level is made of.
pub fn downsample_taps(ox: usize, oy: usize, width: usize, height: usize) -> (t: Taps)
    requires
        1 <= width,
        1 <= height,
        ox < halved(width as int),
        oy < halved(height as int),
    ensures
        t.cx == 2 * ox,
        t.cy == 2 * oy,
        t.xm == (if t.cx == 0 {
            0
        } else {
            t.cx - 1
        }),
        t.xp == (if t.cx + 1 < width {
            t.cx + 1
        } else {
            width - 1
        }),
        t.ym == (if t.cy == 0 {
            0
        } else {
            t.cy - 1
        }),
        t.yp == (if t.cy + 1 < height {
            t.cy + 1
        } else {
            height - 1
        }),
        t.cx < width && t.xm < width && t.xp < width,
        t.cy < height && t.ym < height && t.yp < height,
{
    let cx: usize = 2 * ox;
    let cy: usize = 2 * oy;
    Taps {
        cx,
        cy,
        xm: if cx == 0 {
            0
        } else {
            cx - 1
        },
        xp: if cx < width - 1 {
            cx + 1
        } else {
            width - 1
        },
        ym: if cy == 0 {
            0
        } else {
            cy - 1
        },
        yp: if cy < height - 1 {
            cy + 1
        } else {
            height - 1
        },
    }
}

/// Each level has half the sides of the one before, an odd pixel left out, and
/// the list ends only where `n` levels are there or half of a side would be
/// below 16.
pub proof fn levels_halve_until_small(width: int, height: int, n: int, k: int)
    requires
        0 <= width,
        0 <= height,
        0 <= k < level_sizes(width, height, n).len(),
    ensures
        ({
            let s = level_sizes(width, height, n);
            &&& k + 1 < s.len() ==> 0 <= s[k].0 - 2 * s[k + 1].0 <= 1 && 0 <= s[k].1 - 2 * s[k
                + 1].1 <= 1
            &&& k + 1 == s.len() ==> k + 1 >= n || s[k].0 < 32 || s[k].1 < 32
        }),
    decreases n,
{
    if n > 1 && halved(width) >= 16 && halved(height) >= 16 {
        let rest = level_sizes(halved(width), halved(height), n - 1);
        let s = level_sizes(width, height, n);
        levels_stay_large(halved(width), halved(height), n - 1, 0);
        if k > 0 {
            levels_halve_until_small(halved(width), halved(height), n - 1, k - 1);
            assert(s[k] == rest[k - 1]);
            assert(k + 1 < s.len() ==> s[k + 1] == rest[k]);
        } else {
            assert(s[1] == rest[0]);
        }
    }
}

} // verus!
