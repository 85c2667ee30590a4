//! Integer side of the plane sweep: grid sizes, parameters, the pixels that
//! may spawn surfels, and the windows that their planes are fitted to.
use vstd::prelude::*;

use crate::ordering::take_least;

verus! {

pub open spec fn at_least_one(n: int) -> int {
    if n < 1 {
        1
    } else {
        n
    }
}

pub open spec fn clamped(v: int, lo: int, hi: int) -> int {
    if v < lo {
        lo
    } else if v > hi {
        hi
    } else {
        v
    }
}

/// Grid of the sweep: the image scaled down, never empty.
pub fn sweep_grid(full: (u32, u32), downscale: u32) -> (g: (u32, u32))
    ensures
        g.0 == at_least_one(full.0 as int / at_least_one(downscale as int)),
        g.1 == at_least_one(full.1 as int / at_least_one(downscale as int)),
{
    let ds: u32 = if downscale < 1 {
        1
    } else {
        downscale
    };
    proof {
        vstd::arithmetic::div_mod::lemma_div_is_ordered_by_denominator(full.0 as int, 1, ds as int);
        vstd::arithmetic::div_mod::lemma_div_is_ordered_by_denominator(full.1 as int, 1, ds as int);
    }
    let w: u32 = full.0 / ds;
    let h: u32 = full.1 / ds;
    (
        if w < 1 {
            1
        } else {
            w
        },
        if h < 1 {
            1
        } else {
            h
        },
    )
}

/// Hypotheses per pixel that the sweep takes.
pub fn hypothesis_count(asked: u32) -> (n: u32)
    ensures
        n == clamped(asked as int, 2, 128),
{
    if asked < 2 {
        2
    } else if asked > 128 {
        128
    } else {
        asked
    }
}

/// Half-width of the compared patches.
pub fn patch_half_width(asked: i32) -> (n: i32)
    ensures
        n == clamped(asked as int, 1, 3),
{
    if asked < 1 {
        1
    } else if asked > 3 {
        3
    } else {
        asked
    }
}

/// Workgroups that cover a grid, eight pixels wide and high each.
pub fn sweep_groups(grid: (u32, u32)) -> (g: (u32, u32))
    ensures
        g.0 == (grid.0 + 7) / 8,
        g.1 == (grid.1 + 7) / 8,
{
    (
        grid.0 / 8 + (if grid.0 % 8 == 0 {
            0
        } else {
            1
        }),
        grid.1 / 8 + (if grid.1 % 8 == 0 {
            0
        } else {
            1
        }),
    )
}

/// Alignment of the sweep's atlas: at least a whole pixel.
pub fn sweep_alignment(device: u64) -> (a: u64)
    ensures
        a == (if device < 16 {
            16
        } else {
            device
        }),
{
    if device < 16 {
        16
    } else {
        device
    }
}

/// With a power of two of at least a pixel as alignment, slots are whole
/// numbers of pixels apart.
pub proof fn slots_are_whole_pixels(bytes: int, align: int)
    requires
        0 <= bytes,
        16 <= align,
        align % 16 == 0,
    ensures
        crate::atlas::aligned_up(bytes, align) % 16 == 0,
{
    let q = (bytes + align - 1) / align;
    let k = align / 16;
    assert(q * align == (q * k) * 16) by (nonlinear_arith)
        requires
            align == 16 * k,
    ;
    vstd::arithmetic::div_mod::lemma_mod_multiples_basic(q * k, 16);
}

/// The atlas slots of a sweep: the reference view, then its neighbours.
pub fn sweep_slots(reference: u32, neighbours: &[u32]) -> (slots: Vec<u32>)
    ensures
        slots@ == seq![reference] + neighbours@,
{
    let mut slots: Vec<u32> = Vec::new();
    slots.push(reference);
    let mut i: usize = 0;
    assert(slots@ =~= seq![reference] + neighbours@.take(0));
    while i < neighbours.len()
        invariant
            i <= neighbours@.len(),
            slots@ == seq![reference] + neighbours@.take(i as int),
        decreases neighbours@.len() - i,
    {
        slots.push(neighbours[i]);
        assert(slots@ =~= seq![reference] + neighbours@.take(i + 1));
        i = i + 1;
    }
    assert(neighbours@.take(i as int) =~= neighbours@);
    slots
}

/// A view that may serve as a neighbour: its number, and the key of how far
/// its parallax is from the wanted one.
#[derive(Clone, Copy, Debug, PartialEq, Eq, Structural)]
pub struct Scored {
    pub view: usize,
    pub key: u64,
}

/// Keys of the candidates.
pub open spec fn keys_of(scored: Seq<Scored>) -> Seq<u64> {
    scored.map_values(|s: Scored| s.key)
}

/// `picked` are the views of the `want` best candidates, best first.
pub open spec fn is_best(scored: Seq<Scored>, want: int, picked: Seq<usize>) -> bool {
    exists|places: Seq<usize>| #[trigger] is_best_via(scored, want, picked, places)
}

pub open spec fn is_best_via(
    scored: Seq<Scored>,
    want: int,
    picked: Seq<usize>,
    places: Seq<usize>,
) -> bool {
    let keys = keys_of(scored);
    &&& places.len() == vstd::math::min(want, scored.len() as int)
    &&& picked.len() == places.len()
    &&& crate::ordering::is_ranked(keys, places)
    &&& forall|i: int|
        0 <= i < picked.len() ==> (#[trigger] picked[i]) == scored[places[i] as int].view
    &&& forall|p: usize, i: int|
        p < scored.len() && 0 <= i < places.len() && !#[trigger] places.contains(p)
            ==> crate::ordering::ranks_before(keys, #[trigger] places[i] as int, p as int)
}

/// Picks the neighbours of a view among its candidates: those whose parallax
/// is nearest to the wanted one, in that order.
pub fn pick_neighbours(scored: &[Scored], want: usize) -> (picked: Vec<usize>)
    ensures
        is_best(scored@, want as int, picked@),
{
    let mut keys: Vec<u64> = Vec::new();
    let mut i: usize = 0;
    while i < scored.len()
        invariant
            i <= scored@.len(),
            keys@.len() == i,
            forall|k: int| 0 <= k < i ==> (#[trigger] keys@[k]) == scored@[k].key,
        decreases scored@.len() - i,
    {
        keys.push(scored[i].key);
        i = i + 1;
    }
    assert(keys@ =~= keys_of(scored@));
    let places = take_least(keys.as_slice(), want);
    let mut picked: Vec<usize> = Vec::new();
    let mut j: usize = 0;
    while j < places.len()
        invariant
            j <= places@.len(),
            keys@ == keys_of(scored@),
            crate::ordering::is_ranked(keys@, places@),
            picked@.len() == j,
            forall|k: int|
                0 <= k < j ==> (#[trigger] picked@[k]) == scored@[places@[k] as int].view,
        decreases places@.len() - j,
    {
        assert(places@[j as int] < keys@.len());
        picked.push(scored[places[j]].view);
        j = j + 1;
    }
    assert(is_best_via(scored@, want as int, picked@, places@));
    picked
}

/// Step by which `n` items are sampled about `parts` times.
pub fn sample_step(n: usize, parts: usize) -> (s: usize)
    requires
        parts > 0,
    ensures
        s == at_least_one(n as int / parts as int),
{
    let s: usize = n / parts;
    if s < 1 {
        1
    } else {
        s
    }
}

/// Places that start at 1 and go on by `stride`, before the last of `n`.
pub open spec fn inner_places(n: int, stride: int) -> Seq<usize>
    recommends
        stride >= 1,
{
    Seq::new(
        if n <= 2 {
            0
        } else {
            ((n - 3) / stride + 1) as nat
        },
        |i: int| (1 + i * stride) as usize,
    )
}

proof fn lemma_last_place(n: int, stride: int, i: int)
    requires
        3 <= n,
        1 <= stride,
        0 <= i,
    ensures
        i <= (n - 3) / stride <==> 1 + i * stride <= n - 2,
{
    vstd::arithmetic::div_mod::lemma_fundamental_div_mod(n - 3, stride);
    let q = (n - 3) / stride;
    let r = (n - 3) % stride;
    assert(i <= q <==> 1 + i * stride <= n - 2) by (nonlinear_arith)
        requires
            n - 3 == stride * q + r,
            0 <= r < stride,
            0 <= i,
    ;
}

/// The rows or columns of the grid in which surfels may spawn: every
/// `stride`th, the border left out.
pub fn spawn_places(n: usize, stride: usize) -> (list: Vec<usize>)
    requires
        1 <= stride,
        n + stride <= usize::MAX,
    ensures
        list@ == inner_places(n as int, stride as int),
{
    let mut list: Vec<usize> = Vec::new();
    if n <= 2 {
        assert(list@ =~= inner_places(n as int, stride as int));
        return list;
    }
    let mut at: usize = 1;
    assert(0 * stride == 0) by {
        vstd::arithmetic::mul::lemma_mul_basics(stride as int);
    }
    while at < n - 1
        invariant
            3 <= n,
            1 <= stride,
            n + stride <= usize::MAX,
            at == 1 + list@.len() * stride,
            at <= n + stride,
            list@.len() <= (n - 3) as int / stride as int + 1,
            forall|k: int|
                0 <= k < list@.len() ==> (#[trigger] list@[k]) == (1 + k * stride) as usize,
        decreases n + stride - at,
    {
        proof {
            lemma_last_place(n as int, stride as int, list@.len() as int);
            vstd::arithmetic::mul::lemma_mul_is_distributive_add_other_way(
                stride as int,
                list@.len() as int,
                1,
            );
        }
        list.push(at);
        at = at + stride;
    }
    proof {
        lemma_last_place(n as int, stride as int, list@.len() as int);
        assert(list@ =~= inner_places(n as int, stride as int));
    }
    list
}

/// Every spawn place has a neighbour on either side.
pub proof fn spawn_places_are_inside(n: int, stride: int, i: int)
    requires
        1 <= stride,
        n <= usize::MAX,
        0 <= i < inner_places(n, stride).len(),
    ensures
        1 <= inner_places(n, stride)[i] < n - 1,
{
    lemma_last_place(n, stride, i);
    vstd::arithmetic::mul::lemma_mul_nonnegative(i, stride);
}

/// The three by three window around a pixel, clipped to the grid, row by row.
pub open spec fn window_of(x: int, y: int, width: int, height: int) -> Seq<(int, int)> {
    clipped(
        seq![
            (x - 1, y - 1),
            (x, y - 1),
            (x + 1, y - 1),
            (x - 1, y),
            (x, y),
            (x + 1, y),
            (x - 1, y + 1),
            (x, y + 1),
            (x + 1, y + 1),
        ],
        width,
        height,
    )
}

/// The places that lie in the grid, in order.
pub open spec fn clipped(places: Seq<(int, int)>, width: int, height: int) -> Seq<(int, int)>
    decreases places.len(),
{
    if places.len() == 0 {
        Seq::empty()
    } else {
        let before = clipped(places.drop_last(), width, height);
        let (x, y) = places.last();
        if 0 <= x < width && 0 <= y < height {
            before.push((x, y))
        } else {
            before
        }
    }
}

/// The window's places as integers.
pub open spec fn places_of(list: Seq<(usize, usize)>) -> Seq<(int, int)> {
    list.map_values(|p: (usize, usize)| (p.0 as int, p.1 as int))
}

/// The pixels that a surfel's plane is fitted to.
pub fn fit_window(x: usize, y: usize, width: usize, height: usize) -> (list: Vec<(usize, usize)>)
    requires
        x < width,
        y < height,
    ensures
        places_of(list@) == window_of(x as int, y as int, width as int, height as int),
{
    let ghost all: Seq<(int, int)> = seq![
        (x - 1, y - 1),
        (x as int, y - 1),
        (x + 1, y - 1),
        (x - 1, y as int),
        (x as int, y as int),
        (x + 1, y as int),
        (x - 1, y + 1),
        (x as int, y + 1),
        (x + 1, y + 1),
    ];
    let mut list: Vec<(usize, usize)> = Vec::new();
    let mut k: usize = 0;
    assert(all.take(0) =~= Seq::<(int, int)>::empty());
    assert(places_of(list@) =~= Seq::<(int, int)>::empty());
    while k < 9
        invariant
            k <= 9,
            x < width,
            y < height,
            all.len() == 9,
            forall|j: int|
                0 <= j < 9 ==> (#[trigger] all[j]) == (x + j % 3 - 1, y + j / 3 - 1),
            places_of(list@) == clipped(all.take(k as int), width as int, height as int),
        decreases 9 - k,
    {
        let dx: usize = k % 3;
        let dy: usize = k / 3;
        let ghost before = places_of(list@);
        proof {
            assert(all.take(k + 1).drop_last() =~= all.take(k as int));
            assert(all.take(k + 1).last() == all[k as int]);
        }
        let in_x: bool = if dx == 0 {
            x >= 1
        } else {
            dx == 1 || x < width - 1
        };
        let in_y: bool = if dy == 0 {
            y >= 1
        } else {
            dy == 1 || y < height - 1
        };
        if in_x && in_y {
            let px: usize = if dx == 0 {
                x - 1
            } else if dx == 1 {
                x
            } else {
                x + 1
            };
            let py: usize = if dy == 0 {
                y - 1
            } else if dy == 1 {
                y
            } else {
                y + 1
            };
            list.push((px, py));
            assert(places_of(list@) =~= before.push((px as int, py as int)));
        }
        k = k + 1;
    }
    assert(all.take(9) =~= all);
    list
}

/// The pixel of the full image that a surfel takes its colour from: the given
/// place, brought into the image.
pub fn colour_pixel(px: usize, py: usize, full: (u32, u32)) -> (i: usize)
    requires
        full.0 >= 1,
        full.1 >= 1,
        full.0 * full.1 <= usize::MAX,
    ensures
        i == clamped(py as int, 0, full.1 - 1) * full.0 + clamped(px as int, 0, full.0 - 1),
        i < full.0 * full.1,
{
    let x: usize = if px < full.0 as usize {
        px
    } else {
        (full.0 - 1) as usize
    };
    let y: usize = if py < full.1 as usize {
        py
    } else {
        (full.1 - 1) as usize
    };
    proof {
        assert(0 <= y * full.0 && y * full.0 + x < full.0 * full.1) by (nonlinear_arith)
            requires
                0 <= x < full.0,
                0 <= y < full.1,
        ;
    }
    y * (full.0 as usize) + x
}

/// The window holds the pixels that lie at most one step away in either
/// direction and in the grid.
pub proof fn window_holds_the_neighbours(x: int, y: int, width: int, height: int, p: (int, int))
    ensures
        window_of(x, y, width, height).contains(p) <==> -1 <= p.0 - x <= 1 && -1 <= p.1 - y <= 1
            && 0 <= p.0 < width && 0 <= p.1 < height,
{
    let nine = seq![
        (x - 1, y - 1),
        (x, y - 1),
        (x + 1, y - 1),
        (x - 1, y),
        (x, y),
        (x + 1, y),
        (x - 1, y + 1),
        (x, y + 1),
        (x + 1, y + 1),
    ];
    lemma_clipped(nine, width, height, p);
    assert(nine[0] == (x - 1, y - 1) && nine[1] == (x, y - 1) && nine[2] == (x + 1, y - 1));
    assert(nine[3] == (x - 1, y) && nine[4] == (x, y) && nine[5] == (x + 1, y));
    assert(nine[6] == (x - 1, y + 1) && nine[7] == (x, y + 1) && nine[8] == (x + 1, y + 1));
    if -1 <= p.0 - x <= 1 && -1 <= p.1 - y <= 1 {
        let k = 3 * (p.1 - y + 1) + (p.0 - x + 1);
        assert(nine[k] == p);
    }
}

proof fn lemma_clipped(places: Seq<(int, int)>, width: int, height: int, p: (int, int))
    ensures
        clipped(places, width, height).contains(p) <==> places.contains(p) && 0 <= p.0 < width && 0
            <= p.1 < height,
    decreases places.len(),
{
    if places.len() > 0 {
        let front = places.drop_last();
        let before = clipped(front, width, height);
        let all = clipped(places, width, height);
        lemma_clipped(front, width, height, p);
        let last = places.last();
        assert(places[places.len() - 1] == last);
        if places.contains(p) {
            let k = choose|k: int| 0 <= k < places.len() && places[k] == p;
            if k < front.len() {
                assert(front[k] == p);
            }
        }
        if front.contains(p) {
            let k = choose|k: int| 0 <= k < front.len() && front[k] == p;
            assert(places[k] == p);
        }
        if before.contains(p) {
            let k = choose|k: int| 0 <= k < before.len() && before[k] == p;
            assert(all[k] == p);
        }
        if 0 <= last.0 < width && 0 <= last.1 < height {
            assert(all[before.len() as int] == last);
            if all.contains(p) {
                let k = choose|k: int| 0 <= k < all.len() && all[k] == p;
                if k < before.len() {
                    assert(before[k] == p);
                }
            }
        }
    }
}

/// The window is listed row by row, each row from the left, and no pixel
/// twice.
pub proof fn window_runs_row_by_row(x: int, y: int, width: int, height: int, i: int, j: int)
    requires
        0 <= i < j < window_of(x, y, width, height).len(),
    ensures
        ({
            let (a, b) = (
                window_of(x, y, width, height)[i],
                window_of(x, y, width, height)[j],
            );
            a.1 < b.1 || a.1 == b.1 && a.0 < b.0
        }),
{
    let nine = seq![
        (x - 1, y - 1),
        (x, y - 1),
        (x + 1, y - 1),
        (x - 1, y),
        (x, y),
        (x + 1, y),
        (x - 1, y + 1),
        (x, y + 1),
        (x + 1, y + 1),
    ];
    assert forall|s: int, t: int| 0 <= s < t < nine.len() implies (#[trigger] nine[s]).1 < (
    #[trigger] nine[t]).1 || nine[s].1 == nine[t].1 && nine[s].0 < nine[t].0 by {}
    lemma_clipped_order(nine, width, height);
}

proof fn lemma_clipped_order(places: Seq<(int, int)>, width: int, height: int)
    requires
        forall|s: int, t: int|
            0 <= s < t < places.len() ==> (#[trigger] places[s]).1 < (#[trigger] places[t]).1
                || places[s].1 == places[t].1 && places[s].0 < places[t].0,
    ensures
        ({
            let c = clipped(places, width, height);
            forall|s: int, t: int|
                0 <= s < t < c.len() ==> (#[trigger] c[s]).1 < (#[trigger] c[t]).1 || c[s].1
                    == c[t].1 && c[s].0 < c[t].0
        }),
    decreases places.len(),
{
    if places.len() > 0 {
        let front = places.drop_last();
        lemma_clipped_order(front, width, height);
        let before = clipped(front, width, height);
        let c = clipped(places, width, height);
        assert forall|s: int, t: int| 0 <= s < t < c.len() implies (#[trigger] c[s]).1 < (
        #[trigger] c[t]).1 || c[s].1 == c[t].1 && c[s].0 < c[t].0 by {
            if t < before.len() {
                assert(c[s] == before[s] && c[t] == before[t]);
            } else {
                assert(c[s] == before[s]);
                lemma_clipped(front, width, height, c[s]);
                assert(before.contains(c[s]));
                let k = choose|k: int| 0 <= k < front.len() && front[k] == c[s];
                assert(places[k] == c[s] && places[places.len() - 1] == c[t]);
            }
        }
    }
}

/// The spawn places are every `stride`th place from the second on that has a
/// place behind it, all of them and in order.
pub proof fn spawn_places_are_all_the_steps(n: int, stride: int, p: usize)
    requires
        1 <= stride,
        n <= usize::MAX,
    ensures
        inner_places(n, stride).contains(p) <==> 1 <= p < n - 1 && (p - 1) % stride == 0,
        forall|i: int, j: int|
            0 <= i < j < inner_places(n, stride).len() ==> (#[trigger] inner_places(n, stride)[i])
                < (#[trigger] inner_places(n, stride)[j]),
{
    let list = inner_places(n, stride);
    assert forall|i: int| 0 <= i < list.len() implies 1 <= 1 + i * stride < n - 1 && (
    #[trigger] list[i]) == 1 + i * stride && (list[i] - 1) % stride == 0 by {
        spawn_places_are_inside(n, stride, i);
        lemma_inner_step(n, stride, i);
        vstd::arithmetic::div_mod::lemma_mod_multiples_basic(i, stride);
    }
    if list.contains(p) {
        let i = choose|i: int| 0 <= i < list.len() && list[i] == p;
        assert(list[i] == 1 + i * stride);
    }
    if 1 <= p < n - 1 && (p - 1) % stride == 0 {
        let i = (p - 1) / stride;
        vstd::arithmetic::div_mod::lemma_fundamental_div_mod(p - 1, stride);
        vstd::arithmetic::mul::lemma_mul_is_commutative(stride, i);
        vstd::arithmetic::div_mod::lemma_div_is_ordered(p - 1, n - 3, stride);
        vstd::arithmetic::div_mod::lemma_div_pos_is_pos(p - 1, stride);
        assert(list[i] == p);
    }
    assert forall|i: int, j: int| 0 <= i < j < list.len() implies (#[trigger] list[i]) < (
    #[trigger] list[j]) by {
        assert(list[i] == 1 + i * stride && list[j] == 1 + j * stride);
        assert(i * stride < j * stride) by (nonlinear_arith)
            requires
                i < j,
                1 <= stride,
        ;
    }
}

proof fn lemma_inner_step(n: int, stride: int, i: int)
    requires
        1 <= stride,
        n > 2,
        n <= usize::MAX,
        0 <= i < (n - 3) / stride + 1,
    ensures
        0 <= i * stride <= n - 3,
{
    let q = (n - 3) / stride;
    vstd::arithmetic::div_mod::lemma_fundamental_div_mod(n - 3, stride);
    assert(0 <= i * stride <= stride * q) by (nonlinear_arith)
        requires
            0 <= i <= q,
            1 <= stride,
    ;
}

/// A number brought into a range lies in it, and is left alone where it does.
pub proof fn clamping_stays_in_range(v: int, lo: int, hi: int)
    requires
        lo <= hi,
    ensures
        lo <= clamped(v, lo, hi) <= hi,
        lo <= v <= hi ==> clamped(v, lo, hi) == v,
        v < lo ==> clamped(v, lo, hi) == lo,
        hi < v ==> clamped(v, lo, hi) == hi,
        at_least_one(v) == clamped(v, 1, if v < 1 { 1 } else { v }),
{
}

} // verus!
