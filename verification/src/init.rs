//! Integer side of the surfel initialisation: its random numbers, and the
//! nearby points by which each surfel is sized.
use std::collections::HashMap;
use vstd::prelude::*;

verus! {

/// A shift-register random generator. Its state is never zero.
pub struct XorShift {
    state: u64,
}

/// The state after `x`.
pub open spec fn next_state(x: u64) -> u64 {
    let a = x ^ (x << 13);
    let b = a ^ (a >> 7);
    b ^ (b << 17)
}

impl XorShift {
    pub closed spec fn state(&self) -> u64 {
        self.state
    }

    /// A generator for a seed; an even seed counts as the next odd one.
    pub fn new(seed: u64) -> (r: Self)
        ensures
            r.state() == seed | 1,
    {
        XorShift { state: seed | 1 }
    }

    /// Draws a number of 53 bits.
    pub fn draw(&mut self) -> (v: u64)
        ensures
            final(self).state() == next_state(old(self).state()),
            v == next_state(old(self).state()) >> 11,
            v < 0x20_0000_0000_0000,
    {
        let x: u64 = self.state;
        let a: u64 = x ^ (x << 13);
        let b: u64 = a ^ (a >> 7);
        let c: u64 = b ^ (b << 17);
        self.state = c;
        assert(c >> 11 < 0x20_0000_0000_0000) by (bit_vector);
        c >> 11
    }
}

/// The generator never gets stuck: from a seed no state is zero.
pub proof fn generator_never_reaches_zero(seed: u64, x: u64)
    ensures
        seed | 1 != 0,
        x != 0 ==> next_state(x) != 0,
{
    assert(seed | 1 != 0) by (bit_vector);
    assert(x != 0 ==> ({
        let a = x ^ (x << 13);
        let b = a ^ (a >> 7);
        b ^ (b << 17)
    }) != 0) by (bit_vector);
}

// ---- nearby points ----

/// Most points that are looked at per point.
pub const MAX_CANDIDATES: usize = 64;

/// A cell of the grid that the points are sorted into.
#[derive(Clone, Copy, Debug, PartialEq, Eq, Structural)]
pub struct Cell {
    pub x: i32,
    pub y: i32,
    pub z: i32,
}

/// The points among the first `n` that lie in a cell, in order.
pub open spec fn members(cells: Seq<Cell>, n: int, x: int, y: int, z: int) -> Seq<u32>
    decreases n,
{
    if n <= 0 {
        Seq::empty()
    } else {
        let before = members(cells, n - 1, x, y, z);
        let c = cells[n - 1];
        if c.x == x && c.y == y && c.z == z {
            before.push((n - 1) as u32)
        } else {
            before
        }
    }
}

/// `ids` without `skip`.
pub open spec fn without(ids: Seq<u32>, skip: u32) -> Seq<u32>
    decreases ids.len(),
{
    if ids.len() == 0 {
        Seq::empty()
    } else if ids.last() == skip {
        without(ids.drop_last(), skip)
    } else {
        without(ids.drop_last(), skip).push(ids.last())
    }
}

/// The other points in the first `m` of the 27 cells around point `i`.
pub open spec fn around(cells: Seq<Cell>, i: int, m: int) -> Seq<u32>
    decreases m,
{
    if m <= 0 {
        Seq::empty()
    } else {
        let c = cells[i];
        let k = m - 1;
        around(cells, i, m - 1) + without(
            members(
                cells,
                cells.len() as int,
                c.x + k / 9 - 1,
                c.y + k / 3 % 3 - 1,
                c.z + k % 3 - 1,
            ),
            i as u32,
        )
    }
}

/// The first 64 of `s`, or all of it.
pub open spec fn first_few(s: Seq<u32>) -> Seq<u32> {
    if s.len() <= 64 {
        s
    } else {
        s.take(64)
    }
}

/// The points that are looked at for point `i`.
pub open spec fn candidates_of(cells: Seq<Cell>, i: int) -> Seq<u32> {
    first_few(around(cells, i, 27))
}

/// Whether a coordinate is a cell's or next to one.
pub open spec fn near_range(v: int) -> bool {
    -0x8000_0001 <= v <= 0x8000_0000
}

/// One number for a cell or a neighbour of one.
pub open spec fn packed(x: int, y: int, z: int) -> u128 {
    ((x + 0x8000_0001) * 0x1_0000_0000_0000_0000_0000 + (y + 0x8000_0001) * 0x100_0000_0000 + (z
        + 0x8000_0001)) as u128
}

proof fn lemma_packed(x: int, y: int, z: int, a: int, b: int, c: int)
    requires
        near_range(x),
        near_range(y),
        near_range(z),
        near_range(a),
        near_range(b),
        near_range(c),
        packed(x, y, z) == packed(a, b, c),
    ensures
        x == a && y == b && z == c,
{
}

fn pack(x: i64, y: i64, z: i64) -> (k: u128)
    requires
        near_range(x as int),
        near_range(y as int),
        near_range(z as int),
    ensures
        k == packed(x as int, y as int, z as int),
{
    let px: u128 = (x + 0x8000_0001) as u128;
    let py: u128 = (y + 0x8000_0001) as u128;
    let pz: u128 = (z + 0x8000_0001) as u128;
    px * 0x1_0000_0000_0000_0000_0000 + py * 0x100_0000_0000 + pz
}

/// What a map holds for a key: nothing where it has none.
pub open spec fn held(m: Map<u128, Vec<u32>>, key: u128) -> Seq<u32> {
    if m.contains_key(key) {
        m[key]@
    } else {
        Seq::empty()
    }
}

/// Points sorted into cells.
pub struct VoxelGrid {
    cells: Vec<Cell>,
    grid: HashMap<u128, Vec<u32>>,
}

impl VoxelGrid {
    /// The cells of the points.
    pub closed spec fn cells(&self) -> Seq<Cell> {
        self.cells@
    }

    pub closed spec fn wf(&self) -> bool {
        &&& self.cells@.len() <= u32::MAX
        &&& forall|x: int, y: int, z: int|
            near_range(x) && near_range(y) && near_range(z) ==> held(
                self.grid@,
                #[trigger] packed(x, y, z),
            ) == members(self.cells@, self.cells@.len() as int, x, y, z)
    }

    /// Sorts points into cells.
    pub fn new(cells: Vec<Cell>) -> (g: Self)
        requires
            cells@.len() <= u32::MAX,
        ensures
            g.wf(),
            g.cells() == cells@,
    {
        broadcast use vstd::std_specs::hash::group_hash_axioms;

        let mut grid: HashMap<u128, Vec<u32>> = HashMap::new();
        let mut i: usize = 0;
        while i < cells.len()
            invariant
                i <= cells@.len() <= u32::MAX,
                forall|x: int, y: int, z: int|
                    near_range(x) && near_range(y) && near_range(z) ==> held(
                        grid@,
                        #[trigger] packed(x, y, z),
                    ) == members(cells@, i as int, x, y, z),
            decreases cells@.len() - i,
        {
            broadcast use vstd::std_specs::hash::group_hash_axioms;

            let c = cells[i];
            let key: u128 = pack(c.x as i64, c.y as i64, c.z as i64);
            let ghost before = grid@;
            let mut ids: Vec<u32> = match grid.remove(&key) {
                Some(v) => v,
                None => Vec::new(),
            };
            assert(ids@ == held(before, key));
            ids.push(i as u32);
            let ghost now = ids@;
            grid.insert(key, ids);
            proof {
                assert forall|x: int, y: int, z: int|
                    near_range(x) && near_range(y) && near_range(z) implies held(
                    grid@,
                    #[trigger] packed(x, y, z),
                ) == members(cells@, i + 1, x, y, z) by {
                    let k = packed(x, y, z);
                    if k == key {
                        lemma_packed(x, y, z, c.x as int, c.y as int, c.z as int);
                        assert(held(grid@, k) == now);
                    } else {
                        assert(held(grid@, k) == held(before, k));
                    }
                }
            }
            i = i + 1;
        }
        VoxelGrid { cells, grid }
    }

    /// The points to look at for point `i`: those in its own and the 26 cells
    /// around, cell by cell, up to the limit.
    pub fn candidates(&self, i: usize) -> (out: Vec<u32>)
        requires
            self.wf(),
            i < self.cells().len(),
        ensures
            out@ == candidates_of(self.cells(), i as int),
    {
        let c = self.cells[i];
        let mut out: Vec<u32> = Vec::new();
        let mut m: usize = 0;
        while m < 27
            invariant
                m <= 27,
                self.wf(),
                i < self.cells@.len(),
                c == self.cells@[i as int],
                out@ == first_few(around(self.cells@, i as int, m as int)),
            decreases 27 - m,
        {
            broadcast use vstd::std_specs::hash::group_hash_axioms;

            let x: i64 = c.x as i64 + (m / 9) as i64 - 1;
            let y: i64 = c.y as i64 + (m / 3 % 3) as i64 - 1;
            let z: i64 = c.z as i64 + (m % 3) as i64 - 1;
            let key: u128 = pack(x, y, z);
            let ghost so_far = around(self.cells@, i as int, m as int);
            let ghost ids = members(
                self.cells@,
                self.cells@.len() as int,
                x as int,
                y as int,
                z as int,
            );
            assert(held(self.grid@, packed(x as int, y as int, z as int)) == ids);
            match self.grid.get(&key) {
                Some(v) => {
                    assert(v@ == ids);
                    extend(&mut out, v, i as u32, Ghost(so_far));
                },
                None => {
                    assert(so_far + without(ids, i as u32) =~= so_far);
                },
            }
            m = m + 1;
        }
        out
    }
}

fn extend(out: &mut Vec<u32>, ids: &Vec<u32>, skip: u32, Ghost(so_far): Ghost<Seq<u32>>)
    requires
        old(out)@ == first_few(so_far),
    ensures
        final(out)@ == first_few(so_far + without(ids@, skip)),
{
    let mut k: usize = 0;
    assert(ids@.take(0) =~= Seq::<u32>::empty());
    assert(so_far + Seq::<u32>::empty() =~= so_far);
    while k < ids.len()
        invariant
            k <= ids@.len(),
            out@ == first_few(so_far + without(ids@.take(k as int), skip)),
        decreases ids@.len() - k,
    {
        let ghost all = so_far + without(ids@.take(k as int), skip);
        assert(ids@.take(k + 1).drop_last() =~= ids@.take(k as int));
        if ids[k] != skip {
            let ghost v = ids@[k as int];
            assert(so_far + without(ids@.take(k as int), skip).push(v) =~= all.push(v));
            if out.len() < MAX_CANDIDATES {
                out.push(ids[k]);
            }
            proof {
                if all.len() >= 64 {
                    assert(all.push(v).take(64) =~= all.take(64));
                    assert(all.len() == 64 ==> all.take(64) =~= all);
                }
                assert(out@ =~= first_few(all.push(v)));
            }
        }
        k = k + 1;
    }
    assert(ids@.take(k as int) =~= ids@);
}

/// A point is never its own neighbour.
pub proof fn no_point_is_its_own_candidate(cells: Seq<Cell>, i: int)
    ensures
        !candidates_of(cells, i).contains(i as u32),
{
    lemma_around_skips(cells, i, 27);
    let s = around(cells, i, 27);
    assert(lacks(s, i as u32));
    assert forall|k: int| 0 <= k < first_few(s).len() implies first_few(s)[k] != i as u32 by {
        assert(first_few(s)[k] == s[k]);
    }
}

/// Whether `v` does not occur in `s`.
spec fn lacks(s: Seq<u32>, v: u32) -> bool {
    forall|k: int| 0 <= k < s.len() ==> (#[trigger] s[k]) != v
}

proof fn lemma_without_skips(ids: Seq<u32>, skip: u32)
    ensures
        lacks(without(ids, skip), skip),
    decreases ids.len(),
{
    if ids.len() > 0 {
        lemma_without_skips(ids.drop_last(), skip);
        let before = without(ids.drop_last(), skip);
        assert(lacks(before, skip));
        if ids.last() != skip {
            assert(lacks(before.push(ids.last()), skip));
        }
    }
}

proof fn lemma_around_skips(cells: Seq<Cell>, i: int, m: int)
    ensures
        lacks(around(cells, i, m), i as u32),
    decreases m,
{
    if m > 0 {
        lemma_around_skips(cells, i, m - 1);
        let c = cells[i];
        let k = m - 1;
        let near = members(
            cells,
            cells.len() as int,
            c.x + k / 9 - 1,
            c.y + k / 3 % 3 - 1,
            c.z + k % 3 - 1,
        );
        lemma_without_skips(near, i as u32);
        let before = around(cells, i, m - 1);
        let added = without(near, i as u32);
        assert(lacks(before, i as u32) && lacks(added, i as u32));
        assert(lacks(before + added, i as u32));
    }
}

/// How many surfels have to be added to reach a budget.
pub fn missing_surfels(base: usize, budget: usize) -> (n: usize)
    ensures
        n == (if base >= budget {
            0
        } else {
            budget - base
        }),
{
    if base >= budget {
        0
    } else {
        budget - base
    }
}

/// Whether two points lie in the same or in adjoining cells.
pub open spec fn adjoin(a: Cell, b: Cell) -> bool {
    &&& -1 <= a.x - b.x <= 1
    &&& -1 <= a.y - b.y <= 1
    &&& -1 <= a.z - b.z <= 1
}

proof fn lemma_members(cells: Seq<Cell>, n: int, x: int, y: int, z: int, j: u32)
    requires
        0 <= n <= cells.len() <= u32::MAX,
    ensures
        members(cells, n, x, y, z).contains(j) <==> j < n && cells[j as int].x == x
            && cells[j as int].y == y && cells[j as int].z == z,
    decreases n,
{
    if n > 0 {
        lemma_members(cells, n - 1, x, y, z, j);
        let before = members(cells, n - 1, x, y, z);
        let all = members(cells, n, x, y, z);
        if before.contains(j) {
            let k = choose|k: int| 0 <= k < before.len() && before[k] == j;
            assert(all[k] == j);
        }
        let c = cells[n - 1];
        if c.x == x && c.y == y && c.z == z {
            assert(all[before.len() as int] == (n - 1) as u32);
            if all.contains(j) {
                let k = choose|k: int| 0 <= k < all.len() && all[k] == j;
                if k < before.len() {
                    assert(before[k] == j);
                }
            }
        }
    }
}

proof fn lemma_without(ids: Seq<u32>, skip: u32, j: u32)
    ensures
        without(ids, skip).contains(j) <==> ids.contains(j) && j != skip,
    decreases ids.len(),
{
    if ids.len() > 0 {
        let front = ids.drop_last();
        lemma_without(front, skip, j);
        let before = without(front, skip);
        let all = without(ids, skip);
        if ids.contains(j) {
            let k = choose|k: int| 0 <= k < ids.len() && ids[k] == j;
            if k < front.len() {
                assert(front[k] == j);
            }
        }
        if front.contains(j) {
            let k = choose|k: int| 0 <= k < front.len() && front[k] == j;
            assert(ids[k] == j);
        }
        assert(ids[ids.len() - 1] == ids.last());
        if before.contains(j) {
            let k = choose|k: int| 0 <= k < before.len() && before[k] == j;
            assert(all[k] == j);
        }
        if ids.last() != skip {
            assert(all[before.len() as int] == ids.last());
            if all.contains(j) {
                let k = choose|k: int| 0 <= k < all.len() && all[k] == j;
                if k < before.len() {
                    assert(before[k] == j);
                }
            }
        }
    }
}

/// Where the cell of a neighbour comes among the 27.
spec fn place_of(c: Cell, d: Cell) -> int {
    9 * (d.x - c.x + 1) + 3 * (d.y - c.y + 1) + (d.z - c.z + 1)
}

proof fn lemma_around(cells: Seq<Cell>, i: int, m: int, j: u32)
    requires
        0 <= i < cells.len() <= u32::MAX,
        0 <= m <= 27,
    ensures
        around(cells, i, m).contains(j) <==> j < cells.len() && j != i && adjoin(
            cells[j as int],
            cells[i],
        ) && place_of(cells[i], cells[j as int]) < m,
    decreases m,
{
    if m > 0 {
        lemma_around(cells, i, m - 1, j);
        let c = cells[i];
        let k = m - 1;
        let before = around(cells, i, m - 1);
        let ids = members(
            cells,
            cells.len() as int,
            c.x + k / 9 - 1,
            c.y + k / 3 % 3 - 1,
            c.z + k % 3 - 1,
        );
        let more = without(ids, i as u32);
        lemma_members(
            cells,
            cells.len() as int,
            c.x + k / 9 - 1,
            c.y + k / 3 % 3 - 1,
            c.z + k % 3 - 1,
            j,
        );
        lemma_without(ids, i as u32, j);
        let all = before + more;
        assert(all.contains(j) <==> before.contains(j) || more.contains(j)) by {
            if before.contains(j) {
                let p = choose|p: int| 0 <= p < before.len() && before[p] == j;
                assert(all[p] == j);
            }
            if more.contains(j) {
                let p = choose|p: int| 0 <= p < more.len() && more[p] == j;
                assert(all[before.len() + p] == j);
            }
            if all.contains(j) {
                let p = choose|p: int| 0 <= p < all.len() && all[p] == j;
                if p < before.len() {
                    assert(before[p] == j);
                } else {
                    assert(more[p - before.len()] == j);
                }
            }
        }
    } else if j < cells.len() && adjoin(cells[j as int], cells[i]) {
        assert(place_of(cells[i], cells[j as int]) >= 0);
    }
}

/// The candidates of a point are the other points in its own and the
/// adjoining cells: no others, at most 64 of them, and all of them where there
/// are no more.
pub proof fn candidates_lie_in_adjoining_cells(cells: Seq<Cell>, i: int, j: u32)
    requires
        0 <= i < cells.len() <= u32::MAX,
    ensures
        candidates_of(cells, i).len() <= 64,
        candidates_of(cells, i).contains(j) ==> j < cells.len() && j != i && adjoin(
            cells[j as int],
            cells[i],
        ),
        candidates_of(cells, i).len() < 64 && j < cells.len() && j != i && adjoin(
            cells[j as int],
            cells[i],
        ) ==> candidates_of(cells, i).contains(j),
{
    lemma_around(cells, i, 27, j);
    let all = around(cells, i, 27);
    let few = candidates_of(cells, i);
    if few.contains(j) {
        let k = choose|k: int| 0 <= k < few.len() && few[k] == j;
        assert(all[k] == j);
    }
    if j < cells.len() && adjoin(cells[j as int], cells[i]) {
        assert(place_of(cells[i], cells[j as int]) < 27);
    }
}

/// The next state is the state with copies of it mixed in: shifted up by 13
/// bits, down by 7 and up by 17, one after another, each copy of all that was
/// mixed before it.
pub proof fn draws_mix_shifted_states(x: u64)
    ensures
        next_state(x) == x ^ (x << 13) ^ (x >> 7) ^ ((x << 13) >> 7) ^ (x << 17) ^ (x << 30) ^ ((x
            >> 7) << 17) ^ (((x << 13) >> 7) << 17),
{
    assert(({
        let a = x ^ (x << 13);
        let b = a ^ (a >> 7);
        b ^ (b << 17)
    }) == x ^ (x << 13) ^ (x >> 7) ^ ((x << 13) >> 7) ^ (x << 17) ^ (x << 30) ^ ((x >> 7) << 17) ^ (
    ((x << 13) >> 7) << 17)) by (bit_vector);
}

/// The cells around a point are searched by rising x, then y, then z, from the
/// cell one below on each axis to the cell one above, and the points of a cell
/// by rising number.
pub proof fn cells_are_searched_in_order(cells: Seq<Cell>, i: int, dx: int, dy: int, dz: int)
    requires
        0 <= i < cells.len(),
        -1 <= dx <= 1,
        -1 <= dy <= 1,
        -1 <= dz <= 1,
    ensures
        around(cells, i, 9 * (dx + 1) + 3 * (dy + 1) + (dz + 1) + 1) == around(
            cells,
            i,
            9 * (dx + 1) + 3 * (dy + 1) + (dz + 1),
        ) + without(
            members(
                cells,
                cells.len() as int,
                cells[i].x + dx,
                cells[i].y + dy,
                cells[i].z + dz,
            ),
            i as u32,
        ),
        around(cells, i, 0).len() == 0,
        candidates_of(cells, i).is_prefix_of(around(cells, i, 27)),
{
}

} // verus!
