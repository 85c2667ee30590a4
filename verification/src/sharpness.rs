//! Sharpness scoring: sums of a 3x3 Laplacian over the luma plane, on a
//! subsampled grid (every 2nd pixel). The variance is a quotient of these
//! sums.
use vstd::prelude::*;

verus! {

/// The Laplacian at row `py` and column `px` of a plane of the given width.
pub open spec fn laplacian(y: Seq<u8>, width: int, py: int, px: int) -> int {
    4 * y[py * width + px] - y[py * width + px - 1] - y[py * width + px + 1] - y[(py - 1) * width
        + px] - y[(py + 1) * width + px]
}

/// Number of grid points along a side: 2, 4, ... below the side less two.
pub open spec fn grid_points(side: int) -> int {
    if side < 4 {
        0
    } else {
        (side - 3) / 2
    }
}

/// Sum of the Laplacians, or of their squares, over the first `n` grid points
/// of a row.
pub open spec fn row_sum(y: Seq<u8>, width: int, py: int, n: nat, square: bool) -> int
    decreases n,
{
    if n == 0 {
        0
    } else {
        let v = laplacian(y, width, py, 2 + 2 * (n - 1));
        row_sum(y, width, py, (n - 1) as nat, square) + if square {
            v * v
        } else {
            v
        }
    }
}

/// The same over the first `rows` grid rows.
pub open spec fn grid_sum(y: Seq<u8>, width: int, rows: nat, square: bool) -> int
    decreases rows,
{
    if rows == 0 {
        0
    } else {
        grid_sum(y, width, (rows - 1) as nat, square) + row_sum(
            y,
            width,
            2 + 2 * (rows - 1),
            grid_points(width) as nat,
            square,
        )
    }
}

/// Sums of the Laplacian over the grid.
#[derive(Debug, Clone, Copy, PartialEq, Eq, Structural)]
pub struct LaplacianSums {
    pub count: u64,
    pub sum: i64,
    pub sum_of_squares: i64,
}

proof fn lemma_row_in_plane(row: int, last: int, width: int)
    requires
        0 <= row <= last,
        0 <= width,
    ensures
        0 <= row * width <= last * width,
        (row + 1) * width == row * width + width,
        row >= 1 ==> (row - 1) * width == row * width - width,
{
    vstd::arithmetic::mul::lemma_mul_inequality(row, last, width);
    vstd::arithmetic::mul::lemma_mul_nonnegative(row, width);
    vstd::arithmetic::mul::lemma_mul_is_distributive_add_other_way(width, row, 1);
    vstd::arithmetic::mul::lemma_mul_is_distributive_sub_other_way(width, row, 1);
}

/// Computes the sums; None for planes too small for the grid's margin.
pub fn laplacian_sums(y: &[u8], width: usize, height: usize) -> (res: Option<LaplacianSums>)
    requires
        width >= 4 && height >= 4 ==> (height - 1) * width <= y@.len(),
        width * height <= 0x100_0000_0000,
    ensures
        match res {
            None => width < 4 || height < 4,
            Some(s) => {
                let rows = grid_points(height as int);
                &&& width >= 4 && height >= 4
                &&& s.count == rows * grid_points(width as int)
                &&& s.sum == grid_sum(y@, width as int, rows as nat, false)
                &&& s.sum_of_squares == grid_sum(y@, width as int, rows as nat, true)
            },
        },
{
    if width < 4 || height < 4 {
        return None;
    }
    let len: usize = y.len();
    let cols: usize = (width - 3) / 2;
    let rows: usize = (height - 3) / 2;
    let mut sum: i64 = 0;
    let mut sum2: i64 = 0;
    let mut count: u64 = 0;
    let mut r: usize = 0;
    proof {
        vstd::arithmetic::mul::lemma_mul_upper_bound(
            rows as int,
            height as int,
            cols as int,
            width as int,
        );
        vstd::arithmetic::mul::lemma_mul_is_commutative(width as int, height as int);
    }
    while r < rows
        invariant
            4 <= width,
            4 <= height,
            len == y@.len(),
            (height - 1) * width <= y@.len(),
            cols == (width - 3) / 2,
            rows == (height - 3) / 2,
            cols == grid_points(width as int),
            rows * cols <= 0x100_0000_0000,
            r <= rows,
            count == r * cols,
            sum == grid_sum(y@, width as int, r as nat, false),
            sum2 == grid_sum(y@, width as int, r as nat, true),
            -1020 * count <= sum <= 1020 * count,
            0 <= sum2 <= 1040400 * count,
        decreases rows - r,
    {
        let py: usize = 2 + 2 * r;
        proof {
            lemma_row_in_plane(py as int, height - 3, width as int);
            lemma_row_in_plane(height - 3, height - 3, width as int);
            lemma_row_in_plane(height - 2, height - 2, width as int);
            vstd::arithmetic::mul::lemma_mul_inequality(r + 1, rows as int, cols as int);
            vstd::arithmetic::mul::lemma_mul_is_distributive_add_other_way(cols as int, r as int, 1);
        }
        let base: usize = py * width;
        let ghost (sum0, sum20, count0) = (sum, sum2, count);
        let mut c: usize = 0;
        while c < cols
            invariant
                4 <= width,
                len == y@.len(),
                cols == (width - 3) / 2,
                c <= cols,
                base == py * width,
                (py - 1) * width == base - width,
                (py + 1) * width == base + width,
                width <= base,
                base + 2 * width <= len,
                count0 + cols <= 0x100_0000_0000,
                count == count0 + c,
                sum == sum0 + row_sum(y@, width as int, py as int, c as nat, false),
                sum2 == sum20 + row_sum(y@, width as int, py as int, c as nat, true),
                -1020 * count <= sum <= 1020 * count,
                0 <= sum2 <= 1040400 * count,
            decreases cols - c,
        {
            let px: usize = 2 + 2 * c;
            let lap: i64 = 4 * y[base + px] as i64 - y[base + px - 1] as i64 - y[base + px + 1] as i64
                - y[base - width + px] as i64 - y[base + width + px] as i64;
            assert(lap == laplacian(y@, width as int, py as int, px as int));
            assert(0 <= lap * lap <= 1040400) by (nonlinear_arith)
                requires
                    -1020 <= lap <= 1020,
            ;
            sum = sum + lap;
            sum2 = sum2 + lap * lap;
            count = count + 1;
            c = c + 1;
        }
        r = r + 1;
    }
    Some(LaplacianSums { count, sum, sum_of_squares: sum2 })
}

/// `f(0) + f(1) + ... + f(n - 1)`.
pub open spec fn total(f: spec_fn(int) -> int, n: nat) -> int
    decreases n,
{
    if n == 0 {
        0
    } else {
        total(f, (n - 1) as nat) + f(n - 1)
    }
}

/// Equal terms have equal totals.
proof fn lemma_total_same(f: spec_fn(int) -> int, g: spec_fn(int) -> int, n: nat)
    requires
        forall|i: int| 0 <= i < n ==> #[trigger] f(i) == g(i),
    ensures
        total(f, n) == total(g, n),
    decreases n,
{
    if n > 0 {
        lemma_total_same(f, g, (n - 1) as nat);
        assert(f(n - 1) == g(n - 1));
    }
}

/// The total of sums is the sum of the totals.
proof fn lemma_total_plus(f: spec_fn(int) -> int, g: spec_fn(int) -> int, n: nat)
    ensures
        total(|i: int| f(i) + g(i), n) == total(f, n) + total(g, n),
    decreases n,
{
    if n > 0 {
        lemma_total_plus(f, g, (n - 1) as nat);
    }
}

/// Summing a table by rows or by columns gives the same total.
proof fn lemma_total_swaps(f: spec_fn(int, int) -> int, m: nat, n: nat)
    ensures
        total(|r: int| total(|c: int| f(r, c), n), m) == total(
            |c: int| total(|r: int| f(r, c), m),
            n,
        ),
    decreases m,
{
    let by_column = |c: int| total(|r: int| f(r, c), m);
    if m == 0 {
        lemma_total_same(by_column, |c: int| 0, n);
        lemma_total_zero(n);
    } else {
        let less = (m - 1) as nat;
        lemma_total_swaps(f, less, n);
        let shorter = |c: int| total(|r: int| f(r, c), less);
        let last = |c: int| f(less as int, c);
        lemma_total_plus(shorter, last, n);
        lemma_total_same(by_column, |c: int| shorter(c) + last(c), n);
        lemma_total_same(last, |c: int| f(m - 1, c), n);
    }
}

proof fn lemma_total_zero(n: nat)
    ensures
        total(|i: int| 0, n) == 0,
    decreases n,
{
    if n > 0 {
        lemma_total_zero((n - 1) as nat);
    }
}

/// A grid point's term of a sum.
spec fn term(y: Seq<u8>, width: int, py: int, px: int, square: bool) -> int {
    let v = laplacian(y, width, py, px);
    if square {
        v * v
    } else {
        v
    }
}

proof fn lemma_row_sum_total(y: Seq<u8>, width: int, py: int, n: nat, square: bool)
    ensures
        row_sum(y, width, py, n, square) == total(
            |c: int| term(y, width, py, 2 + 2 * c, square),
            n,
        ),
    decreases n,
{
    if n > 0 {
        lemma_row_sum_total(y, width, py, (n - 1) as nat, square);
    }
}

proof fn lemma_grid_sum_total(y: Seq<u8>, width: int, rows: nat, square: bool)
    ensures
        grid_sum(y, width, rows, square) == total(
            |r: int|
                total(
                    |c: int| term(y, width, 2 + 2 * r, 2 + 2 * c, square),
                    grid_points(width) as nat,
                ),
            rows,
        ),
    decreases rows,
{
    if rows > 0 {
        lemma_grid_sum_total(y, width, (rows - 1) as nat, square);
        lemma_row_sum_total(y, width, 2 + 2 * (rows - 1), grid_points(width) as nat, square);
    }
}

/// Pixels of a plane are told apart by their index.
proof fn lemma_pixel_index(width: int, row: int, col: int, r: int, c: int)
    requires
        0 <= col < width,
        0 <= c < width,
        row * width + col == r * width + c,
    ensures
        row == r,
        col == c,
{
    vstd::arithmetic::div_mod::lemma_fundamental_div_mod_converse(
        row * width + col,
        width,
        row,
        col,
    );
    vstd::arithmetic::div_mod::lemma_fundamental_div_mod_converse(r * width + c, width, r, c);
}

/// The weight of one pixel in the value at a grid point: raising the pixel at
/// `(row, col)` by one, and no other, raises the value at `(py, px)` by four
/// where it is that point, lowers it by one where it is one of the four
/// pixels beside, above or below it, and leaves it alone elsewhere. On a
/// plane of a single value it is zero.
pub proof fn laplacian_weighs_the_cross(
    y: Seq<u8>,
    raised: Seq<u8>,
    width: int,
    py: int,
    px: int,
    row: int,
    col: int,
)
    requires
        1 <= py,
        1 <= px < width - 1,
        (py + 2) * width <= y.len(),
        0 <= row,
        0 <= col < width,
        row * width + col < y.len(),
        y[row * width + col] < 255,
        raised == y.update(row * width + col, (y[row * width + col] + 1) as u8),
    ensures
        laplacian(raised, width, py, px) - laplacian(y, width, py, px) == if row == py && col == px {
            4int
        } else if row == py && (col == px - 1 || col == px + 1) || col == px && (row == py - 1
            || row == py + 1) {
            -1
        } else {
            0
        },
        (forall|i: int| 0 <= i < y.len() ==> #[trigger] y[i] == y[0]) ==> laplacian(y, width, py, px) == 0,
{
    lemma_row_in_plane(py, py, width);
    lemma_row_in_plane(py + 1, py + 1, width);
    lemma_row_in_plane(py - 1, py, width);
    let at = row * width + col;
    if at == py * width + px {
        lemma_pixel_index(width, row, col, py, px);
    }
    if at == py * width + (px - 1) {
        lemma_pixel_index(width, row, col, py, px - 1);
    }
    if at == py * width + (px + 1) {
        lemma_pixel_index(width, row, col, py, px + 1);
    }
    if at == (py - 1) * width + px {
        lemma_pixel_index(width, row, col, py - 1, px);
    }
    if at == (py + 1) * width + px {
        lemma_pixel_index(width, row, col, py + 1, px);
    }
}

/// The grid is every second pixel from the third on, up to the third last:
/// the sums add up the even rows and columns that keep two pixels from each
/// edge, and the count is their number.
pub proof fn sums_run_over_the_even_pixels(y: Seq<u8>, width: nat, height: nat, square: bool)
    requires
        width >= 4,
        height >= 4,
    ensures
        grid_sum(y, width as int, grid_points(height as int) as nat, square) == total(
            |py: int|
                total(
                    |px: int|
                        if py % 2 == 0 && 2 <= py < height - 2 && px % 2 == 0 && 2 <= px < width
                            - 2 {
                            let v = laplacian(y, width as int, py, px);
                            if square {
                                v * v
                            } else {
                                v
                            }
                        } else {
                            0
                        },
                    width,
                ),
            height,
        ),
        grid_points(height as int) * grid_points(width as int) == total(
            |py: int|
                total(
                    |px: int|
                        if py % 2 == 0 && 2 <= py < height - 2 && px % 2 == 0 && 2 <= px < width
                            - 2 {
                            1
                        } else {
                            0
                        },
                    width,
                ),
            height,
        ),
{
    let f = |py: int, px: int| term(y, width as int, py, px, square);
    lemma_grid_sum_total(y, width as int, grid_points(height as int) as nat, square);
    lemma_even_table(f, width, height);
    let rows = grid_points(height as int) as nat;
    let cols = grid_points(width as int) as nat;
    assert(rows <= height && cols <= width);
    let stated = |r: int|
        total(|c: int| term(y, width as int, 2 + 2 * r, 2 + 2 * c, square), cols);
    let tabled = |r: int| total(|c: int| f(2 + 2 * r, 2 + 2 * c), cols);
    assert forall|r: int| 0 <= r < rows implies #[trigger] stated(r) == tabled(r) by {
        lemma_total_same(
            |c: int| term(y, width as int, 2 + 2 * r, 2 + 2 * c, square),
            |c: int| f(2 + 2 * r, 2 + 2 * c),
            cols,
        );
    }
    lemma_total_same(stated, tabled, rows);
    let masked = |py: int|
        total(
            |px: int|
                if py % 2 == 0 && 2 <= py < height - 2 && px % 2 == 0 && 2 <= px < width - 2 {
                    let v = laplacian(y, width as int, py, px);
                    if square {
                        v * v
                    } else {
                        v
                    }
                } else {
                    0
                },
            width,
        );
    let same = |py: int|
        total(
            |px: int|
                if py % 2 == 0 && 2 <= py < height - 2 && px % 2 == 0 && 2 <= px < width - 2 {
                    f(py, px)
                } else {
                    0
                },
            width,
        );
    assert forall|py: int| 0 <= py < height implies #[trigger] masked(py) == same(py) by {
        lemma_total_same(
            |px: int|
                if py % 2 == 0 && 2 <= py < height - 2 && px % 2 == 0 && 2 <= px < width - 2 {
                    let v = laplacian(y, width as int, py, px);
                    if square {
                        v * v
                    } else {
                        v
                    }
                } else {
                    0
                },
            |px: int|
                if py % 2 == 0 && 2 <= py < height - 2 && px % 2 == 0 && 2 <= px < width - 2 {
                    f(py, px)
                } else {
                    0
                },
            width,
        );
    }
    lemma_total_same(masked, same, height);
    let one = |py: int, px: int| 1int;
    lemma_even_table(one, width, height);
    let row_of_ones = |r: int| total(|c: int| one(2 + 2 * r, 2 + 2 * c), cols);
    assert forall|r: int| 0 <= r < rows implies #[trigger] row_of_ones(r) == cols as int by {
        lemma_total_same(|c: int| one(2 + 2 * r, 2 + 2 * c), |c: int| 1, cols);
        lemma_total_constant(1, cols);
    }
    lemma_total_same(row_of_ones, |r: int| cols as int, rows);
    lemma_total_constant(cols as int, rows);
    let counted = |py: int|
        total(
            |px: int|
                if py % 2 == 0 && 2 <= py < height - 2 && px % 2 == 0 && 2 <= px < width - 2 {
                    1
                } else {
                    0
                },
            width,
        );
    let counted_same = |py: int|
        total(
            |px: int|
                if py % 2 == 0 && 2 <= py < height - 2 && px % 2 == 0 && 2 <= px < width - 2 {
                    one(py, px)
                } else {
                    0
                },
            width,
        );
    assert forall|py: int| 0 <= py < height implies #[trigger] counted(py) == counted_same(py) by {
        lemma_total_same(
            |px: int|
                if py % 2 == 0 && 2 <= py < height - 2 && px % 2 == 0 && 2 <= px < width - 2 {
                    1
                } else {
                    0
                },
            |px: int|
                if py % 2 == 0 && 2 <= py < height - 2 && px % 2 == 0 && 2 <= px < width - 2 {
                    one(py, px)
                } else {
                    0
                },
            width,
        );
    }
    lemma_total_same(counted, counted_same, height);
}

proof fn lemma_total_constant(k: int, n: nat)
    ensures
        total(|i: int| k, n) == k * n,
        total(|i: int| k, n) == n * k,
    decreases n,
{
    let f = |i: int| k;
    if n > 0 {
        let less = (n - 1) as nat;
        lemma_total_constant(k, less);
        assert(total(f, n) == total(f, less) + f(n - 1));
        assert(k * n == k * less + k) by (nonlinear_arith)
            requires
                n == less + 1,
        ;
    } else {
        assert(total(f, n) == 0);
    }
    assert(k * n == n * k) by (nonlinear_arith);
}

/// The even entries of a line that keep two from each end.
proof fn lemma_even_line(f: spec_fn(int) -> int, side: nat, n: nat)
    requires
        4 <= side,
        n <= side,
    ensures
        total(
            |p: int|
                if p % 2 == 0 && 2 <= p < side - 2 {
                    f(p)
                } else {
                    0
                },
            n,
        ) == total(
            |k: int| f(2 + 2 * k),
            (if n < 3 {
                0
            } else if n < side - 2 {
                (n - 1) / 2
            } else {
                (side - 3) / 2
            }) as nat,
        ),
    decreases n,
{
    if n > 0 {
        lemma_even_line(f, side, (n - 1) as nat);
        let p = n - 1;
        if p % 2 == 0 && 2 <= p < side - 2 {
            let k = (p - 2) / 2;
            assert(2 + 2 * k == p);
        }
    }
}

/// The even entries of a table that keep two from each edge.
proof fn lemma_even_table(f: spec_fn(int, int) -> int, width: nat, height: nat)
    requires
        4 <= width,
        4 <= height,
    ensures
        total(
            |r: int| total(|c: int| f(2 + 2 * r, 2 + 2 * c), ((width - 3) / 2) as nat),
            ((height - 3) / 2) as nat,
        ) == total(
            |py: int|
                total(
                    |px: int|
                        if py % 2 == 0 && 2 <= py < height - 2 && px % 2 == 0 && 2 <= px < width
                            - 2 {
                            f(py, px)
                        } else {
                            0
                        },
                    width,
                ),
            height,
        ),
{
    let cols = ((width - 3) / 2) as nat;
    let rows = ((height - 3) / 2) as nat;
    let line = |py: int| total(|c: int| f(py, 2 + 2 * c), cols);
    lemma_even_line(line, height, height);
    lemma_total_same(
        |r: int| total(|c: int| f(2 + 2 * r, 2 + 2 * c), cols),
        |r: int| line(2 + 2 * r),
        rows,
    );
    let masked = |py: int|
        total(
            |px: int|
                if py % 2 == 0 && 2 <= py < height - 2 && px % 2 == 0 && 2 <= px < width - 2 {
                    f(py, px)
                } else {
                    0
                },
            width,
        );
    let lines = |py: int|
        if py % 2 == 0 && 2 <= py < height - 2 {
            line(py)
        } else {
            0
        };
    assert forall|py: int| 0 <= py < height implies #[trigger] masked(py) == lines(py) by {
        let entry = |px: int|
            if py % 2 == 0 && 2 <= py < height - 2 && px % 2 == 0 && 2 <= px < width - 2 {
                f(py, px)
            } else {
                0
            };
        if py % 2 == 0 && 2 <= py < height - 2 {
            let at = |px: int| f(py, px);
            lemma_even_line(at, width, width);
            lemma_total_same(
                entry,
                |px: int|
                    if px % 2 == 0 && 2 <= px < width - 2 {
                        at(px)
                    } else {
                        0
                    },
                width,
            );
            lemma_total_same(|k: int| at(2 + 2 * k), |c: int| f(py, 2 + 2 * c), cols);
        } else {
            lemma_total_same(entry, |px: int| 0, width);
            lemma_total_zero(width);
        }
    }
    lemma_total_same(masked, lines, height);
}

/// Rows and columns count alike: of a plane and its transpose, whose pixel
/// `(col, row)` is the plane's pixel `(row, col)`, the number of grid points,
/// the sum and the sum of squares are the same.
pub proof fn transposing_keeps_the_sums(
    y: Seq<u8>,
    transposed: Seq<u8>,
    width: nat,
    height: nat,
    square: bool,
)
    requires
        width >= 4,
        height >= 4,
        forall|row: int, col: int|
            0 <= row < height && 0 <= col < width ==> #[trigger] transposed[col * height + row]
                == y[row * width + col],
    ensures
        grid_points(height as int) * grid_points(width as int) == grid_points(width as int)
            * grid_points(height as int),
        grid_sum(y, width as int, grid_points(height as int) as nat, square) == grid_sum(
            transposed,
            height as int,
            grid_points(width as int) as nat,
            square,
        ),
{
    let rows = grid_points(height as int) as nat;
    let cols = grid_points(width as int) as nat;
    let w = width as int;
    let h = height as int;
    let f = |r: int, c: int| term(y, w, 2 + 2 * r, 2 + 2 * c, square);
    lemma_grid_sum_total(y, w, rows, square);
    lemma_grid_sum_total(transposed, h, cols, square);
    let stated = |r: int| total(|c: int| term(y, w, 2 + 2 * r, 2 + 2 * c, square), cols);
    let tabled = |r: int| total(|c: int| f(r, c), cols);
    assert forall|r: int| 0 <= r < rows implies #[trigger] stated(r) == tabled(r) by {
        lemma_total_same(
            |c: int| term(y, w, 2 + 2 * r, 2 + 2 * c, square),
            |c: int| f(r, c),
            cols,
        );
    }
    lemma_total_same(stated, tabled, rows);
    lemma_total_swaps(f, rows, cols);
    let here = |c: int| total(|r: int| f(r, c), rows);
    let there = |r: int| total(|c: int| term(transposed, h, 2 + 2 * r, 2 + 2 * c, square), rows);
    assert forall|c: int| 0 <= c < cols implies #[trigger] here(c) == there(c) by {
        let a = |r: int| f(r, c);
        let b = |r: int| term(transposed, h, 2 + 2 * c, 2 + 2 * r, square);
        assert forall|r: int| 0 <= r < rows implies #[trigger] a(r) == b(r) by {
            let py = 2 + 2 * r;
            let px = 2 + 2 * c;
            assert(transposed[px * h + py] == y[py * w + px]);
            assert(transposed[px * h + (py - 1)] == y[(py - 1) * w + px]);
            assert(transposed[px * h + (py + 1)] == y[(py + 1) * w + px]);
            assert(transposed[(px - 1) * h + py] == y[py * w + (px - 1)]);
            assert(transposed[(px + 1) * h + py] == y[py * w + (px + 1)]);
        }
        lemma_total_same(a, b, rows);
    }
    lemma_total_same(here, there, cols);
    vstd::arithmetic::mul::lemma_mul_is_commutative(rows as int, cols as int);
}

} // verus!
