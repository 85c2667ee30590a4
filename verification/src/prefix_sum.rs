//! Plan of a multi-level exclusive prefix sum over `u32`: each level scans
//! blocks of its data and hands the block sums to the next level, until one
//! block is left. Three levels cover about a billion elements.
use vstd::prelude::*;

verus! {

/// Elements that one workgroup scans.
pub const BLOCK: u64 = 1024;

/// Number of blocks that hold `n` elements.
pub open spec fn blocks_of(n: int) -> int {
    (n + 1023) / 1024
}

/// Elements scanned at each level, for `cap` elements at the first.
pub open spec fn level_sizes(cap: int) -> Seq<int>
    decreases cap,
{
    if blocks_of(cap) <= 1 {
        seq![cap]
    } else {
        seq![cap] + level_sizes(blocks_of(cap))
    }
}

/// Elements scanned at level `k` when `n` are scanned at the first.
pub open spec fn level_count(n: int, k: nat) -> int
    decreases k,
{
    if k == 0 {
        n
    } else {
        blocks_of(level_count(n, (k - 1) as nat))
    }
}

/// The four bytes of `v`, lowest first.
pub open spec fn bytes_low_first(v: u32) -> Seq<u8> {
    seq![
        (v % 256) as u8,
        (v / 256 % 256) as u8,
        (v / 65536 % 256) as u8,
        (v / 16777216) as u8,
    ]
}

/// The four bytes of `v`, highest first.
pub open spec fn bytes_high_first(v: u32) -> Seq<u8> {
    bytes_low_first(v).reverse()
}

/// Calls `bytemuck::bytes_of` on a `u32`: its four bytes as the machine holds
/// them, lowest first or highest first. Which of the two is the machine's.
#[verifier::external_body]
pub(crate) fn bytes_of_u32(v: &u32) -> (out: Vec<u8>)
    ensures
        out@ == bytes_low_first(*v) || out@ == bytes_high_first(*v),
{
    bytemuck::bytes_of(v).to_vec()
}

/// One dispatch: the level whose buffers are bound, and its workgroups.
#[derive(Clone, Copy, Debug, PartialEq, Eq, Structural)]
pub struct LevelDispatch {
    pub level: usize,
    pub groups: u32,
}

/// What one scan records.
pub struct ScanPlan {
    /// Contents of each level's parameter buffer: its element count.
    pub params: Vec<Vec<u8>>,
    /// Downward: scan each level, producing the next level's input.
    pub scans: Vec<LevelDispatch>,
    /// Upward: add scanned block sums back into each level below the top.
    pub adds: Vec<LevelDispatch>,
}

pub struct PrefixSum {
    levels: Vec<u64>,
}

/// Workgroups that scan `count` elements: one even for none.
pub open spec fn scan_groups(count: int) -> int {
    if count <= 0 {
        1
    } else {
        blocks_of(count)
    }
}

fn block_count(n: u64) -> (r: u64)
    requires
        n <= u32::MAX,
    ensures
        r == blocks_of(n as int),
{
    (n + 1023) / BLOCK
}

impl PrefixSum {
    /// Element capacity of each level.
    pub closed spec fn capacities(&self) -> Seq<int> {
        self.levels@.map_values(|c: u64| c as int)
    }

    /// The levels are those of the first level's capacity, which fits 32 bits.
    pub open spec fn wf(&self) -> bool {
        &&& self.capacities().len() >= 1
        &&& 1 <= self.capacities()[0] <= u32::MAX
        &&& self.capacities() == level_sizes(self.capacities()[0])
    }

    /// Plans the levels for up to `capacity` elements.
    pub fn new(capacity: u32) -> (r: Self)
        ensures
            r.wf(),
            r.capacities() == level_sizes(
                if capacity == 0 {
                    1
                } else {
                    capacity as int
                },
            ),
    {
        let first: u64 = if capacity == 0 {
            1
        } else {
            capacity as u64
        };
        let mut levels: Vec<u64> = Vec::new();
        let mut cap: u64 = first;
        assert(levels@.map_values(|c: u64| c as int) + level_sizes(cap as int) =~= level_sizes(
            first as int,
        ));
        while block_count(cap) > 1
            invariant
                1 <= first <= u32::MAX,
                1 <= cap <= u32::MAX,
                levels@.len() > 0 ==> levels@[0] == first,
                levels@.len() == 0 ==> cap == first,
                levels@.map_values(|c: u64| c as int) + level_sizes(cap as int) == level_sizes(
                    first as int,
                ),
            decreases cap,
        {
            let ghost so_far = levels@.map_values(|c: u64| c as int);
            let ghost rest = level_sizes(blocks_of(cap as int));
            levels.push(cap);
            proof {
                assert(levels@.map_values(|c: u64| c as int) =~= so_far.push(cap as int));
                assert(so_far.push(cap as int) + rest =~= so_far + (seq![cap as int] + rest));
            }
            cap = block_count(cap);
        }
        let ghost so_far = levels@.map_values(|c: u64| c as int);
        levels.push(cap);
        let r = PrefixSum { levels };
        assert(r.capacities() =~= so_far + seq![cap as int]);
        r
    }

    /// Bytes of the buffer whose elements level `k` scans.
    pub fn data_bytes(&self, k: usize) -> (b: u64)
        requires
            self.wf(),
            k < self.capacities().len(),
        ensures
            b == self.capacities()[k as int] * 4,
    {
        proof {
            lemma_level_sizes(self.capacities()[0], k as int);
            lemma_count_range(self.capacities()[0], k as nat);
            assert(self.capacities()[k as int] == self.levels@[k as int]);
        }
        self.levels[k] * 4
    }

    /// Bytes of the buffer that takes the block sums of level `k`.
    pub fn sums_bytes(&self, k: usize) -> (b: u64)
        requires
            self.wf(),
            k < self.capacities().len(),
        ensures
            b == blocks_of(self.capacities()[k as int]) * 4,
    {
        proof {
            lemma_level_sizes(self.capacities()[0], k as int);
            lemma_count_range(self.capacities()[0], k as nat);
            assert(self.capacities()[k as int] == self.levels@[k as int]);
        }
        block_count(self.levels[k]) * 4
    }

    /// Number of levels.
    pub fn level_count(&self) -> (n: usize)
        ensures
            n == self.capacities().len(),
    {
        self.levels.len()
    }

    /// Plans an exclusive scan of the first `n` elements.
    pub fn encode(&self, n: u32) -> (plan: ScanPlan)
        requires
            self.wf(),
            n <= self.capacities()[0],
        ensures
            ({
                let levels = self.capacities().len() as int;
                &&& plan.params@.len() == levels
                &&& plan.scans@.len() == levels
                &&& plan.adds@.len() == levels - 1
                &&& forall|k: int|
                    #![trigger plan.params@[k]]
                    0 <= k < levels ==> {
                        let count = level_count(n as int, k as nat) as u32;
                        plan.params@[k]@ == bytes_low_first(count) || plan.params@[k]@
                            == bytes_high_first(count)
                    }
                &&& forall|k: int|
                    #![trigger plan.scans@[k]]
                    0 <= k < levels ==> plan.scans@[k].level == k && plan.scans@[k].groups
                        == scan_groups(level_count(n as int, k as nat))
                &&& forall|k: int|
                    #![trigger plan.adds@[k]]
                    0 <= k < levels - 1 ==> plan.adds@[k].level == levels - 2 - k
                        && plan.adds@[k].groups == scan_groups(
                        level_count(n as int, (levels - 2 - k) as nat),
                    )
            }),
    {
        let mut params: Vec<Vec<u8>> = Vec::new();
        let mut scans: Vec<LevelDispatch> = Vec::new();
        let mut cur: u64 = n as u64;
        let mut k: usize = 0;
        while k < self.levels.len()
            invariant
                k <= self.levels@.len(),
                cur <= u32::MAX,
                cur == level_count(n as int, k as nat),
                params@.len() == k,
                scans@.len() == k,
                forall|j: int|
                    #![trigger params@[j]]
                    0 <= j < k ==> {
                        let count = level_count(n as int, j as nat) as u32;
                        params@[j]@ == bytes_low_first(count) || params@[j]@ == bytes_high_first(
                            count,
                        )
                    },
                forall|j: int|
                    #![trigger scans@[j]]
                    0 <= j < k ==> scans@[j].level == j && scans@[j].groups == scan_groups(
                        level_count(n as int, j as nat),
                    ),
            decreases self.levels@.len() - k,
        {
            let count: u32 = cur as u32;
            params.push(bytes_of_u32(&count));
            let blocks: u64 = block_count(cur);
            let groups: u32 = if blocks == 0 {
                1
            } else {
                blocks as u32
            };
            scans.push(LevelDispatch { level: k, groups });
            cur = blocks;
            k = k + 1;
        }
        let levels: usize = self.levels.len();
        let mut adds: Vec<LevelDispatch> = Vec::new();
        let mut left: usize = levels - 1;
        while left > 0
            invariant
                left < levels,
                levels == scans@.len(),
                adds@.len() == levels - 1 - left,
                forall|j: int|
                    #![trigger adds@[j]]
                    0 <= j < levels - 1 - left ==> adds@[j] == scans@[levels - 2 - j],
            decreases left,
        {
            left = left - 1;
            adds.push(scans[left]);
        }
        ScanPlan { params, scans, adds }
    }
}

proof fn lemma_level_sizes(cap: int, k: int)
    requires
        cap >= 1,
        0 <= k < level_sizes(cap).len(),
    ensures
        level_sizes(cap)[k] == level_count(cap, k as nat),
    decreases cap,
{
    if k > 0 {
        lemma_level_sizes(blocks_of(cap), k - 1);
        lemma_count_shifts(cap, (k - 1) as nat);
    }
}

proof fn lemma_count_shifts(n: int, k: nat)
    ensures
        level_count(n, k + 1) == level_count(blocks_of(n), k),
    decreases k,
{
    if k > 0 {
        lemma_count_shifts(n, (k - 1) as nat);
    } else {
        assert(level_count(n, 0) == n);
        assert(level_count(n, 1) == blocks_of(level_count(n, 0)));
    }
}

proof fn lemma_count_range(n: int, k: nat)
    requires
        0 <= n,
    ensures
        0 <= level_count(n, k) <= n,
        n >= 1 ==> level_count(n, k) >= 1,
    decreases k,
{
    if k > 0 {
        lemma_count_range(n, (k - 1) as nat);
    }
}

/// A scan of fewer elements fits the buffers of every level, and its last
/// level is a single block: one total comes out.
pub proof fn every_level_fits(cap: int, n: int, k: int)
    requires
        1 <= cap,
        0 <= n <= cap,
        0 <= k < level_sizes(cap).len(),
    ensures
        level_count(n, k as nat) <= level_sizes(cap)[k],
        k == level_sizes(cap).len() - 1 ==> blocks_of(level_sizes(cap)[k]) == 1,
        k < level_sizes(cap).len() - 1 ==> level_sizes(cap)[k + 1] == blocks_of(
            level_sizes(cap)[k],
        ),
    decreases cap,
{
    if k > 0 {
        every_level_fits(blocks_of(cap), blocks_of(n), k - 1);
        lemma_count_shifts(n, (k - 1) as nat);
    } else if blocks_of(cap) > 1 {
        assert(level_sizes(blocks_of(cap))[0] == blocks_of(cap));
        assert(level_sizes(cap)[1] == level_sizes(blocks_of(cap))[0]);
    }
}

/// Three levels are enough for every capacity below 1024 cubed.
pub proof fn three_levels_cover(cap: int)
    requires
        1 <= cap <= 1024 * 1024 * 1024,
    ensures
        level_sizes(cap).len() <= 3,
{
    reveal_with_fuel(level_sizes, 3);
}

// ---- what the levels compute ----

/// Sum of `data[from..to]`.
pub open spec fn sum_range(data: Seq<int>, from: int, to: int) -> int
    decreases to - from,
{
    if from >= to {
        0
    } else {
        sum_range(data, from, to - 1) + data[to - 1]
    }
}

/// Each element replaced by the sum of those before it.
pub open spec fn exclusive_scan(data: Seq<int>) -> Seq<int> {
    Seq::new(data.len(), |i: int| sum_range(data, 0, i))
}

/// Each element replaced by the sum of those before it in its block.
pub open spec fn scan_blocks(data: Seq<int>) -> Seq<int> {
    Seq::new(data.len(), |i: int| sum_range(data, i / 1024 * 1024, i))
}

/// Where block `b` of `data` ends.
pub open spec fn block_end(data: Seq<int>, b: int) -> int {
    if (b + 1) * 1024 <= data.len() {
        (b + 1) * 1024
    } else {
        data.len() as int
    }
}

/// Sum of each block.
pub open spec fn block_sums(data: Seq<int>) -> Seq<int> {
    Seq::new(
        blocks_of(data.len() as int) as nat,
        |b: int| sum_range(data, b * 1024, block_end(data, b)),
    )
}

/// Each element with the value of its block added.
pub open spec fn add_back(data: Seq<int>, per_block: Seq<int>) -> Seq<int> {
    Seq::new(data.len(), |i: int| data[i] + per_block[i / 1024])
}

/// What the levels leave in the first level's data: scan the blocks, then add
/// back what the next levels make of the block sums.
pub open spec fn multi_level_scan(data: Seq<int>) -> Seq<int>
    decreases data.len(),
{
    if data.len() <= 1024 {
        scan_blocks(data)
    } else {
        add_back(scan_blocks(data), multi_level_scan(block_sums(data)))
    }
}

proof fn lemma_sum_splits(data: Seq<int>, a: int, b: int, c: int)
    requires
        a <= b <= c,
    ensures
        sum_range(data, a, c) == sum_range(data, a, b) + sum_range(data, b, c),
    decreases c - b,
{
    if b < c {
        lemma_sum_splits(data, a, b, c - 1);
    }
}

proof fn lemma_block_sums(data: Seq<int>, b: int)
    requires
        0 <= b <= blocks_of(data.len() as int),
    ensures
        sum_range(block_sums(data), 0, b) == sum_range(
            data,
            0,
            if b * 1024 <= data.len() {
                b * 1024
            } else {
                data.len() as int
            },
        ),
    decreases b,
{
    if b > 0 {
        lemma_block_sums(data, b - 1);
        lemma_sum_splits(data, 0, (b - 1) * 1024, block_end(data, b - 1));
    }
}

/// The levels together compute the exclusive scan of the whole data, however
/// many levels there are.
pub proof fn levels_compute_exclusive_scan(data: Seq<int>)
    ensures
        multi_level_scan(data) == exclusive_scan(data),
    decreases data.len(),
{
    if data.len() > 1024 {
        let sums = block_sums(data);
        levels_compute_exclusive_scan(sums);
        assert forall|i: int| 0 <= i < data.len() implies multi_level_scan(data)[i]
            == exclusive_scan(data)[i] by {
            let b = i / 1024;
            lemma_block_sums(data, b);
            lemma_sum_splits(data, 0, b * 1024, i);
        }
    }
    assert(multi_level_scan(data) =~= exclusive_scan(data));
}

/// The sum of the block sums is the grand total, so the last level's only
/// block sum is it.
pub proof fn block_sums_keep_the_total(data: Seq<int>)
    ensures
        sum_range(block_sums(data), 0, block_sums(data).len() as int) == sum_range(
            data,
            0,
            data.len() as int,
        ),
{
    lemma_block_sums(data, blocks_of(data.len() as int));
}

/// The blocks hold the elements, and one fewer would not; a scan runs over
/// every block, and over one even where there is nothing.
pub proof fn blocks_hold_the_elements(n: int)
    requires
        0 <= n,
    ensures
        n <= 1024 * blocks_of(n) < n + 1024,
        scan_groups(n) >= 1,
        n > 0 ==> n <= 1024 * scan_groups(n) < n + 1024,
        n == 0 ==> scan_groups(n) == 1,
{
}

/// The four bytes of a number are those that a writer lays down, from either
/// end.
pub proof fn bytes_are_those_of_the_number(v: u32)
    ensures
        bytes_low_first(v) == crate::wire::low_first(v as nat, 4),
        bytes_high_first(v) == crate::wire::high_first(v as nat, 4),
{
    reveal_with_fuel(crate::wire::low_first, 5);
    reveal_with_fuel(crate::wire::high_first, 5);
    let n = v as nat;
    assert(n / 256 / 256 == n / 65536 && n / 256 / 256 / 256 == n / 16777216);
    assert(bytes_low_first(v) =~= crate::wire::low_first(n, 4));
    assert(bytes_high_first(v) =~= crate::wire::high_first(n, 4));
}

} // verus!
