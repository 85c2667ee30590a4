//! Grid of the corner detector: which cells are free, in which runs they lie,
//! which pixels each run covers, and which corner of a cell is kept.
use vstd::prelude::*;

verus! {

/// Number of cells that cover `n` pixels.
pub open spec fn cells_over(n: int, cell: int) -> int {
    (n + cell - 1) / cell
}

pub fn cell_count(n: usize, cell: usize) -> (c: usize)
    requires
        1 <= cell,
    ensures
        c == cells_over(n as int, cell as int),
{
    proof {
        vstd::arithmetic::div_mod::lemma_fundamental_div_mod(n as int, cell as int);
        let q = n as int / cell as int;
        let r = n as int % cell as int;
        if r == 0 {
            assert(n + cell - 1 == q * cell + (cell - 1)) by (nonlinear_arith)
                requires
                    n == cell * q + r,
                    r == 0,
            ;
            vstd::arithmetic::div_mod::lemma_fundamental_div_mod_converse(
                n + cell - 1,
                cell as int,
                q,
                cell - 1,
            );
        } else {
            assert(n + cell - 1 == (q + 1) * cell + (r - 1)) by (nonlinear_arith)
                requires
                    n == cell * q + r,
            ;
            vstd::arithmetic::div_mod::lemma_fundamental_div_mod_converse(
                n + cell - 1,
                cell as int,
                q + 1,
                r - 1,
            );
        }
        assert(r != 0 ==> q + 1 <= n) by (nonlinear_arith)
            requires
                n == cell * q + r,
                r >= 0,
                cell >= 1,
                q >= 0,
        ;
        vstd::arithmetic::div_mod::lemma_div_pos_is_pos(n as int, cell as int);
    }
    n / cell + (if n % cell == 0 {
        0
    } else {
        1
    })
}

/// The pixels within the minimum distance of a tracked feature.
#[derive(Clone, Copy, Debug, PartialEq, Eq, Structural)]
pub struct PixelBox {
    pub x0: usize,
    pub x1: usize,
    pub y0: usize,
    pub y1: usize,
}

/// The cell of a pixel; pixels beyond the last cell count to it.
pub open spec fn cell_of(p: int, cell: int, cells: int) -> int {
    if p / cell < cells {
        p / cell
    } else {
        cells - 1
    }
}

/// Whether cell `(cx, cy)` touches a box.
pub open spec fn touches(b: PixelBox, cell: int, cells: (int, int), cx: int, cy: int) -> bool {
    &&& cell_of(b.x0 as int, cell, cells.0) <= cx <= cell_of(b.x1 as int, cell, cells.0)
    &&& cell_of(b.y0 as int, cell, cells.1) <= cy <= cell_of(b.y1 as int, cell, cells.1)
}

/// Whether cell `(cx, cy)` is taken by one of the features.
pub open spec fn is_taken(
    boxes: Seq<PixelBox>,
    cell: int,
    cells: (int, int),
    cx: int,
    cy: int,
) -> bool {
    exists|k: int| 0 <= k < boxes.len() && #[trigger] touches(boxes[k], cell, cells, cx, cy)
}

/// The cells of an image, row by row: whether each is taken.
pub open spec fn taken_cells(boxes: Seq<PixelBox>, cell: int, cells: (int, int)) -> Seq<bool> {
    Seq::new(
        (cells.0 * cells.1) as nat,
        |i: int| is_taken(boxes, cell, cells, i % cells.0, i / cells.0),
    )
}

fn cell_at(p: usize, cell: usize, cells: usize) -> (c: usize)
    requires
        1 <= cell,
        1 <= cells,
    ensures
        c == cell_of(p as int, cell as int, cells as int),
{
    let c: usize = p / cell;
    if c < cells {
        c
    } else {
        cells - 1
    }
}

fn cell_taken(boxes: &[PixelBox], cell: usize, cells: (usize, usize), cx: usize, cy: usize) -> (b:
    bool)
    requires
        1 <= cell,
        1 <= cells.0,
        1 <= cells.1,
    ensures
        b == is_taken(
            boxes@,
            cell as int,
            (cells.0 as int, cells.1 as int),
            cx as int,
            cy as int,
        ),
{
    let ghost grid = (cells.0 as int, cells.1 as int);
    let mut k: usize = 0;
    while k < boxes.len()
        invariant
            k <= boxes@.len(),
            1 <= cell,
            1 <= cells.0,
            1 <= cells.1,
            grid == (cells.0 as int, cells.1 as int),
            forall|j: int|
                0 <= j < k ==> !#[trigger] touches(
                    boxes@[j],
                    cell as int,
                    grid,
                    cx as int,
                    cy as int,
                ),
        decreases boxes@.len() - k,
    {
        let b = boxes[k];
        if cell_at(b.x0, cell, cells.0) <= cx && cx <= cell_at(b.x1, cell, cells.0) && cell_at(
            b.y0,
            cell,
            cells.1,
        ) <= cy && cy <= cell_at(b.y1, cell, cells.1) {
            assert(touches(boxes@[k as int], cell as int, grid, cx as int, cy as int));
            return true;
        }
        k = k + 1;
    }
    false
}

/// Marks the cells that already hold a feature, or are too near to one.
pub fn mark_taken(boxes: &[PixelBox], cell: usize, cells: (usize, usize)) -> (taken: Vec<bool>)
    requires
        1 <= cell,
        1 <= cells.0,
        1 <= cells.1,
        cells.0 * cells.1 <= usize::MAX,
    ensures
        taken@ == taken_cells(boxes@, cell as int, (cells.0 as int, cells.1 as int)),
{
    let ghost grid = (cells.0 as int, cells.1 as int);
    let mut taken: Vec<bool> = Vec::new();
    let mut cy: usize = 0;
    while cy < cells.1
        invariant
            cy <= cells.1,
            1 <= cell,
            1 <= cells.0,
            1 <= cells.1,
            grid == (cells.0 as int, cells.1 as int),
            taken@.len() == cy * cells.0,
            forall|i: int|
                0 <= i < taken@.len() ==> (#[trigger] taken@[i]) == is_taken(
                    boxes@,
                    cell as int,
                    grid,
                    i % grid.0,
                    i / grid.0,
                ),
        decreases cells.1 - cy,
    {
        let mut cx: usize = 0;
        while cx < cells.0
            invariant
                cx <= cells.0,
                cy < cells.1,
                1 <= cell,
                1 <= cells.0,
                1 <= cells.1,
                grid == (cells.0 as int, cells.1 as int),
                taken@.len() == cy * cells.0 + cx,
                forall|i: int|
                    0 <= i < taken@.len() ==> (#[trigger] taken@[i]) == is_taken(
                        boxes@,
                        cell as int,
                        grid,
                        i % grid.0,
                        i / grid.0,
                    ),
            decreases cells.0 - cx,
        {
            proof {
                vstd::arithmetic::div_mod::lemma_fundamental_div_mod_converse(
                    cy * cells.0 + cx,
                    cells.0 as int,
                    cy as int,
                    cx as int,
                );
            }
            taken.push(cell_taken(boxes, cell, cells, cx, cy));
            cx = cx + 1;
        }
        proof {
            vstd::arithmetic::mul::lemma_mul_is_distributive_add_other_way(
                cells.0 as int,
                cy as int,
                1,
            );
        }
        cy = cy + 1;
    }
    proof {
        vstd::arithmetic::mul::lemma_mul_is_commutative(cells.0 as int, cells.1 as int);
        assert(taken@ =~= taken_cells(boxes@, cell as int, grid));
    }
    taken
}

// ---- runs of free cells ----

/// First free cell at or after `i`, or the length.
pub open spec fn next_free(row: Seq<bool>, i: int) -> int
    decreases row.len() - i,
{
    if i >= row.len() || !row[i] {
        i
    } else {
        next_free(row, i + 1)
    }
}

/// First taken cell at or after `i`, or the length.
pub open spec fn next_taken(row: Seq<bool>, i: int) -> int
    decreases row.len() - i,
{
    if i >= row.len() || row[i] {
        i
    } else {
        next_taken(row, i + 1)
    }
}

pub proof fn lemma_next_bounds(row: Seq<bool>, i: int)
    requires
        0 <= i <= row.len(),
    ensures
        i <= next_free(row, i) <= row.len(),
        next_free(row, i) < row.len() ==> !row[next_free(row, i)],
        forall|k: int| i <= k < next_free(row, i) ==> #[trigger] row[k],
        i <= next_taken(row, i) <= row.len(),
        next_taken(row, i) < row.len() ==> row[next_taken(row, i)],
        forall|k: int| i <= k < next_taken(row, i) ==> !#[trigger] row[k],
        i < row.len() && !row[i] ==> i < next_taken(row, i),
    decreases row.len() - i,
{
    if i < row.len() {
        lemma_next_bounds(row, i + 1);
    }
}

/// The runs of free cells from `i` on, each with its first cell and the cell
/// behind its last.
pub open spec fn runs_from(row: Seq<bool>, i: int) -> Seq<(int, int)>
    decreases row.len() - i,
{
    if i < 0 || i > row.len() {
        Seq::empty()
    } else {
        let a = next_free(row, i);
        if a >= row.len() {
            Seq::empty()
        } else {
            let b = next_taken(row, a);
            proof {
                lemma_next_bounds(row, i);
                lemma_next_bounds(row, a);
            }
            seq![(a, b)] + runs_from(row, b)
        }
    }
}

/// A run of free cells of a row.
#[derive(Clone, Copy, Debug, PartialEq, Eq, Structural)]
pub struct Run {
    pub first: usize,
    pub end: usize,
}

pub open spec fn bounds_of(runs: Seq<Run>) -> Seq<(int, int)> {
    runs.map_values(|r: Run| (r.first as int, r.end as int))
}

/// The runs of free cells of a row, left to right.
pub fn free_runs(row: &[bool]) -> (runs: Vec<Run>)
    ensures
        bounds_of(runs@) == runs_from(row@, 0),
{
    let n: usize = row.len();
    let mut runs: Vec<Run> = Vec::new();
    let mut i: usize = 0;
    let mut scanning: bool = true;
    assert(bounds_of(runs@) + runs_from(row@, 0) =~= runs_from(row@, 0));
    while scanning
        invariant
            i <= n,
            n == row@.len(),
            scanning ==> bounds_of(runs@) + runs_from(row@, i as int) == runs_from(row@, 0),
            !scanning ==> bounds_of(runs@) == runs_from(row@, 0),
        decreases (n - i) + (if scanning {
            1int
        } else {
            0
        }),
    {
        let ghost from = i as int;
        let mut a: usize = i;
        while a < n && row[a]
            invariant
                from <= a <= n,
                n == row@.len(),
                next_free(row@, from) == next_free(row@, a as int),
            decreases n - a,
        {
            a = a + 1;
        }
        if a >= n {
            assert(bounds_of(runs@) + Seq::<(int, int)>::empty() =~= bounds_of(runs@));
            scanning = false;
        } else {
            let mut b: usize = a;
            while b < n && !row[b]
                invariant
                    a <= b <= n,
                    n == row@.len(),
                    next_taken(row@, a as int) == next_taken(row@, b as int),
                decreases n - b,
            {
                b = b + 1;
            }
            let ghost before = bounds_of(runs@);
            let ghost rest = runs_from(row@, b as int);
            proof {
                lemma_next_bounds(row@, a as int);
            }
            runs.push(Run { first: a, end: b });
            proof {
                let r = (a as int, b as int);
                assert(bounds_of(runs@) =~= before.push(r));
                assert(before.push(r) + rest =~= before + (seq![r] + rest));
            }
            i = b;
        }
    }
    runs
}

/// Whether cell `c` lies in one of the runs.
pub open spec fn in_runs(runs: Seq<(int, int)>, c: int) -> bool {
    exists|k: int| 0 <= k < runs.len() && (#[trigger] runs[k]).0 <= c < runs[k].1
}

/// The runs hold exactly the free cells, and a run is never cut short: before
/// it and behind it stands a taken cell or the border.
pub proof fn runs_are_the_free_cells(row: Seq<bool>, i: int)
    requires
        0 <= i <= row.len(),
    ensures
        forall|c: int| i <= c < row.len() ==> (#[trigger] in_runs(runs_from(row, i), c) <==> !row[c]),
        forall|k: int|
            0 <= k < runs_from(row, i).len() ==> {
                let r = #[trigger] runs_from(row, i)[k];
                &&& i <= r.0 < r.1 <= row.len()
                &&& r.1 == row.len() || row[r.1]
                &&& r.0 == i || row[r.0 - 1]
            },
    decreases row.len() - i,
{
    let runs = runs_from(row, i);
    lemma_next_bounds(row, i);
    let a = next_free(row, i);
    if a < row.len() {
        lemma_next_bounds(row, a);
        let b = next_taken(row, a);
        let rest = runs_from(row, b);
        runs_are_the_free_cells(row, b);
        assert(runs[0] == (a, b));
        assert(forall|k: int| 1 <= k < runs.len() ==> (#[trigger] runs[k]) == rest[k - 1]);
        assert forall|c: int| i <= c < row.len() implies (#[trigger] in_runs(runs, c)
            <==> !row[c]) by {
            if in_runs(runs, c) {
                let k = choose|k: int|
                    0 <= k < runs.len() && (#[trigger] runs[k]).0 <= c < runs[k].1;
                if k > 0 {
                    assert(rest[k - 1].0 <= c < rest[k - 1].1);
                    assert(in_runs(rest, c));
                }
            }
            if !row[c] {
                if c >= b {
                    assert(in_runs(rest, c));
                    let k = choose|k: int|
                        0 <= k < rest.len() && (#[trigger] rest[k]).0 <= c < rest[k].1;
                    assert(runs[k + 1] == rest[k]);
                } else {
                    assert(runs[0].0 <= c < runs[0].1);
                }
            }
        }
        assert forall|k: int| 0 <= k < runs.len() implies ({
            let r = #[trigger] runs[k];
            &&& i <= r.0 < r.1 <= row.len()
            &&& r.1 == row.len() || row[r.1]
            &&& r.0 == i || row[r.0 - 1]
        }) by {
            if k == 0 {
                if a > i {
                    assert(row[a - 1]);
                }
            } else {
                let r = rest[k - 1];
                assert(runs[k] == r);
                if r.0 == b {
                    assert(b < row.len());
                    assert(row[b]);
                    assert(in_runs(rest, b));
                }
            }
        }
    } else {
        assert forall|c: int| i <= c < row.len() implies (#[trigger] in_runs(runs, c)
            <==> !row[c]) by {
            assert(runs.len() == 0);
        }
    }
}

/// The pixels of the cells from `first` to before `end` that keep `margin`
/// pixels from the border; None where no pixel is left.
pub open spec fn pixel_span(first: int, end: int, cell: int, margin: int, n: int) -> Option<
    (int, int),
> {
    let a = if first * cell < margin {
        margin
    } else {
        first * cell
    };
    let b = if end * cell > n - margin {
        n - margin
    } else {
        end * cell
    };
    if a < b {
        Some((a, b))
    } else {
        None
    }
}

/// The pixels that a run of cells or a row of cells is searched in.
pub fn search_span(first: usize, end: usize, cell: usize, margin: usize, n: usize) -> (s: Option<
    (usize, usize),
>)
    requires
        first * cell <= usize::MAX,
        end * cell <= usize::MAX,
        margin <= n,
    ensures
        match pixel_span(first as int, end as int, cell as int, margin as int, n as int) {
            Some((a, b)) => s == Some((a as usize, b as usize)),
            None => s is None,
        },
{
    let start: usize = first * cell;
    let stop: usize = end * cell;
    proof {
        vstd::arithmetic::mul::lemma_mul_nonnegative(first as int, cell as int);
        vstd::arithmetic::mul::lemma_mul_nonnegative(end as int, cell as int);
    }
    let a: usize = if start < margin {
        margin
    } else {
        start
    };
    let b: usize = if stop > n - margin {
        n - margin
    } else {
        stop
    };
    if a < b {
        Some((a, b))
    } else {
        None
    }
}

/// Whether an image is too small to be searched with this window.
pub fn is_too_small(width: usize, height: usize, half_win: usize) -> (b: bool)
    requires
        2 * (half_win + 1) <= usize::MAX,
    ensures
        b == (height <= 2 * (half_win + 1) || width <= 2 * (half_win + 1)),
{
    let margin: usize = half_win + 1;
    height <= 2 * margin || width <= 2 * margin
}

/// The window of every searched pixel lies in the image, and so do the pixels
/// next to it that gradients are taken from.
pub proof fn windows_stay_in_the_image(
    first: int,
    end: int,
    cell: int,
    half_win: int,
    n: int,
    p: int,
)
    requires
        0 <= half_win,
        pixel_span(first, end, cell, half_win + 1, n) matches Some((a, b)) && a <= p < b,
    ensures
        1 <= p - half_win,
        p + half_win + 1 < n,
{
}

// ---- the corner of a cell ----

/// The corner of a cell after another one, each with the key of its score and
/// its place: the stronger of the two, the earlier where they are equal.
pub open spec fn stronger(best: Option<(u32, usize, usize)>, x: (u32, usize, usize)) -> Option<
    (u32, usize, usize),
> {
    match best {
        Some(p) if x.0 <= p.0 => best,
        _ => Some(x),
    }
}

/// Keeps the stronger of two corners of a cell.
pub fn keep_best(best: Option<(u32, usize, usize)>, key: u32, x: usize, y: usize) -> (b: Option<
    (u32, usize, usize),
>)
    ensures
        b == stronger(best, (key, x, y)),
{
    match best {
        Some(p) if key <= p.0 => best,
        _ => Some((key, x, y)),
    }
}

/// The corner that is kept of the first `n` of a cell.
pub open spec fn strongest_of(corners: Seq<(u32, usize, usize)>, n: nat) -> Option<
    (u32, usize, usize),
>
    decreases n,
{
    if n == 0 {
        None
    } else {
        stronger(strongest_of(corners, (n - 1) as nat), corners[n - 1])
    }
}

/// Whether corner `i` is the strongest of the first `n`, and the first of
/// those that are equally strong.
pub open spec fn is_strongest(corners: Seq<(u32, usize, usize)>, n: nat, i: int) -> bool {
    &&& 0 <= i < n
    &&& forall|j: int|
        0 <= j < n ==> (#[trigger] corners[j]).0 <= corners[i].0 && (j < i ==> corners[j].0
            < corners[i].0)
}

/// A cell that was offered corners keeps its strongest one.
pub proof fn cell_keeps_the_strongest(corners: Seq<(u32, usize, usize)>, n: nat)
    requires
        1 <= n <= corners.len(),
    ensures
        exists|i: int| #[trigger]
            is_strongest(corners, n, i) && strongest_of(corners, n) == Some(corners[i]),
    decreases n,
{
    if n == 1 {
        reveal_with_fuel(strongest_of, 2);
        assert(is_strongest(corners, 1, 0));
    } else {
        cell_keeps_the_strongest(corners, (n - 1) as nat);
        let i = choose|i: int| #[trigger]
            is_strongest(corners, (n - 1) as nat, i) && strongest_of(corners, (n - 1) as nat)
                == Some(corners[i]);
        if corners[n - 1].0 <= corners[i].0 {
            assert(is_strongest(corners, n, i));
        } else {
            assert(is_strongest(corners, n, n - 1));
        }
    }
}

/// The cells cover the pixels, and one fewer would not.
pub proof fn cells_cover_the_pixels(n: int, cell: int)
    requires
        0 <= n,
        1 <= cell,
    ensures
        n <= cells_over(n, cell) * cell < n + cell,
{
    let x = n + cell - 1;
    let c = cells_over(n, cell);
    vstd::arithmetic::div_mod::lemma_fundamental_div_mod(x, cell);
    assert(cell * c == c * cell) by (nonlinear_arith);
}

/// A pixel lies in its cell; pixels beyond the last cell count to it.
pub proof fn pixel_lies_in_its_cell(p: int, cell: int, cells: int)
    requires
        0 <= p,
        1 <= cell,
        1 <= cells,
    ensures
        ({
            let c = cell_of(p, cell, cells);
            &&& 0 <= c < cells
            &&& c * cell <= p
            &&& c < cells - 1 ==> p < (c + 1) * cell
            &&& p < cells * cell ==> p < (c + 1) * cell
        }),
{
    let q = p / cell;
    vstd::arithmetic::div_mod::lemma_fundamental_div_mod(p, cell);
    assert(cell * q == q * cell && (q + 1) * cell == q * cell + cell) by (nonlinear_arith);
    vstd::arithmetic::div_mod::lemma_div_pos_is_pos(p, cell);
    if q >= cells {
        assert((cells - 1) * cell <= q * cell) by (nonlinear_arith)
            requires
                cells - 1 <= q,
                1 <= cell,
        ;
        assert(cells * cell <= q * cell) by (nonlinear_arith)
            requires
                cells <= q,
                1 <= cell,
        ;
    }
}

proof fn lemma_cell_meets(x0: int, x1: int, cell: int, cells: int, c: int)
    requires
        0 <= x0 <= x1 < cells * cell,
        1 <= cell,
        1 <= cells,
        0 <= c < cells,
    ensures
        cell_of(x0, cell, cells) <= c <= cell_of(x1, cell, cells) <==> c * cell <= x1 && x0 < (c
            + 1) * cell,
{
    pixel_lies_in_its_cell(x0, cell, cells);
    pixel_lies_in_its_cell(x1, cell, cells);
    let a = cell_of(x0, cell, cells);
    let b = cell_of(x1, cell, cells);
    if a <= c {
        assert(x0 < (c + 1) * cell) by (nonlinear_arith)
            requires
                x0 < (a + 1) * cell,
                a <= c,
                1 <= cell,
        ;
    } else {
        assert((c + 1) * cell <= x0) by (nonlinear_arith)
            requires
                a * cell <= x0,
                c + 1 <= a,
                1 <= cell,
        ;
    }
    if c <= b {
        assert(c * cell <= x1) by (nonlinear_arith)
            requires
                b * cell <= x1,
                c <= b,
                1 <= cell,
        ;
    } else {
        assert(x1 < c * cell) by (nonlinear_arith)
            requires
                x1 < (b + 1) * cell,
                b + 1 <= c,
                1 <= cell,
        ;
    }
}

/// A cell is taken where a box has a pixel in it: the cell at column `cx` and
/// row `cy` of the list is marked exactly if the pixels of some box and those
/// of the cell meet.
pub proof fn cells_that_meet_a_box_are_taken(
    boxes: Seq<PixelBox>,
    cell: int,
    cells: (int, int),
    cx: int,
    cy: int,
)
    requires
        1 <= cell,
        0 <= cx < cells.0,
        0 <= cy < cells.1,
        forall|k: int|
            0 <= k < boxes.len() ==> (#[trigger] boxes[k]).x0 <= boxes[k].x1 < cells.0 * cell
                && boxes[k].y0 <= boxes[k].y1 < cells.1 * cell,
    ensures
        taken_cells(boxes, cell, cells).len() == cells.0 * cells.1,
        taken_cells(boxes, cell, cells)[cy * cells.0 + cx] <==> exists|k: int|
            0 <= k < boxes.len() && cx * cell <= (#[trigger] boxes[k]).x1 && boxes[k].x0 < (cx + 1)
                * cell && cy * cell <= boxes[k].y1 && boxes[k].y0 < (cy + 1) * cell,
{
    let i = cy * cells.0 + cx;
    vstd::arithmetic::div_mod::lemma_fundamental_div_mod_converse(i, cells.0, cy, cx);
    assert(0 <= cy * cells.0 && i < cells.0 * cells.1) by (nonlinear_arith)
        requires
            i == cy * cells.0 + cx,
            0 <= cx < cells.0,
            0 <= cy < cells.1,
    ;
    assert forall|k: int| 0 <= k < boxes.len() implies #[trigger] touches(
        boxes[k],
        cell,
        cells,
        cx,
        cy,
    ) == (cx * cell <= boxes[k].x1 && boxes[k].x0 < (cx + 1) * cell && cy * cell <= boxes[k].y1
        && boxes[k].y0 < (cy + 1) * cell) by {
        let b = boxes[k];
        lemma_cell_meets(b.x0 as int, b.x1 as int, cell, cells.0, cx);
        lemma_cell_meets(b.y0 as int, b.y1 as int, cell, cells.1, cy);
    }
    if exists|k: int|
        0 <= k < boxes.len() && cx * cell <= (#[trigger] boxes[k]).x1 && boxes[k].x0 < (cx + 1)
            * cell && cy * cell <= boxes[k].y1 && boxes[k].y0 < (cy + 1) * cell {
        let k = choose|k: int|
            0 <= k < boxes.len() && cx * cell <= (#[trigger] boxes[k]).x1 && boxes[k].x0 < (cx + 1)
                * cell && cy * cell <= boxes[k].y1 && boxes[k].y0 < (cy + 1) * cell;
        assert(touches(boxes[k], cell, cells, cx, cy));
    }
}

/// The searched pixels of a run of cells are those of its cells that keep the
/// margin from both borders, all of them and no others.
pub proof fn searched_pixels_keep_the_margin(
    first: int,
    end: int,
    cell: int,
    margin: int,
    n: int,
    p: int,
)
    ensures
        (pixel_span(first, end, cell, margin, n) matches Some((a, b)) && a <= p < b) <==> (first
            * cell <= p < end * cell && margin <= p < n - margin),
{
}

} // verus!
