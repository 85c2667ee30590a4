//! Plan of a radix sort of 32-bit keys with 32-bit payloads: 4-bit digits,
//! eight passes that ping-pong between two buffers.
use vstd::prelude::*;

verus! {

/// Elements that one workgroup takes.
pub const BLOCK: u32 = 1024;

/// Values of a digit.
pub const DIGITS: u64 = 16;

pub const PASSES: u32 = 8;

/// Distance of two passes' shift values in the parameter buffer.
pub const UNIFORM_STRIDE: u64 = 256;

/// Buffer sizes of the sorter, in bytes.
#[derive(Clone, Copy, Debug, PartialEq, Eq, Structural)]
pub struct SortSizes {
    /// Each of the two key and two payload buffers.
    pub elements: u64,
    /// The element count.
    pub counts: u64,
    /// Digit histogram of every block.
    pub block_hists: u64,
    pub digit_offsets: u64,
    pub digit_totals: u64,
    /// Arguments of the indirect dispatch.
    pub dispatch_args: u64,
}

/// What a stage of a pass dispatches.
#[derive(Clone, Copy, Debug, PartialEq, Eq, Structural)]
pub enum Dispatch {
    /// A fixed number of workgroups.
    Groups(u32),
    /// As many as the prepared arguments say.
    Indirect,
}

#[derive(Clone, Copy, Debug, PartialEq, Eq, Structural)]
pub enum Stage {
    Histogram,
    ScanColumns,
    ScanTotals,
    Scatter,
}

/// One pass: where its shift value lies, and which of the two buffers it
/// reads and writes.
#[derive(Clone, Copy, Debug, PartialEq, Eq, Structural)]
pub struct SortPass {
    pub uniform_offset: u32,
    pub input: usize,
    pub output: usize,
}

pub struct RadixSorter {
    capacity: u32,
}

impl RadixSorter {
    pub closed spec fn spec_capacity(&self) -> u32 {
        self.capacity
    }

    pub fn new(capacity: u32) -> (r: Self)
        ensures
            r.spec_capacity() == capacity,
    {
        RadixSorter { capacity }
    }

    pub fn capacity(&self) -> (c: u32)
        ensures
            c == self.spec_capacity(),
    {
        self.capacity
    }

    /// Sizes of the buffers: no buffer is empty, even without capacity.
    pub fn sizes(&self) -> (s: SortSizes)
        ensures
            ({
                let cap = if self.spec_capacity() == 0 {
                    1
                } else {
                    self.spec_capacity() as int
                };
                s == (SortSizes {
                    elements: (cap * 4) as u64,
                    counts: 4,
                    block_hists: ((cap + 1023) / 1024 * 16 * 4) as u64,
                    digit_offsets: 64,
                    digit_totals: 64,
                    dispatch_args: 12,
                })
            }),
    {
        let cap: u64 = if self.capacity == 0 {
            1
        } else {
            self.capacity as u64
        };
        let max_blocks: u64 = (cap + 1023) / (BLOCK as u64);
        SortSizes {
            elements: cap * 4,
            counts: 4,
            block_hists: max_blocks * DIGITS * 4,
            digit_offsets: DIGITS * 4,
            digit_totals: DIGITS * 4,
            dispatch_args: 12,
        }
    }

    /// The passes in order.
    pub fn encode(&self) -> (passes: Vec<SortPass>)
        ensures
            passes@ == schedule(),
    {
        let mut passes: Vec<SortPass> = Vec::new();
        let mut p: u32 = 0;
        while p < PASSES
            invariant
                p <= PASSES,
                passes@.len() == p,
                forall|k: int| 0 <= k < p ==> (#[trigger] passes@[k]) == schedule()[k],
            decreases PASSES - p,
        {
            let input: usize = (p % 2) as usize;
            passes.push(SortPass { uniform_offset: p * 256, input, output: 1 - input });
            p = p + 1;
        }
        assert(passes@ =~= schedule());
        passes
    }
}

/// The passes of a sort.
pub open spec fn schedule() -> Seq<SortPass> {
    Seq::new(
        8,
        |p: int|
            SortPass {
                uniform_offset: (p * 256) as u32,
                input: (p % 2) as usize,
                output: (1 - p % 2) as usize,
            },
    )
}

/// What a stage dispatches.
pub fn stage_dispatch(stage: Stage) -> (d: Dispatch)
    ensures
        d == match stage {
            Stage::ScanColumns => Dispatch::Groups(16),
            Stage::ScanTotals => Dispatch::Groups(1),
            Stage::Histogram | Stage::Scatter => Dispatch::Indirect,
        },
{
    match stage {
        Stage::ScanColumns => Dispatch::Groups(DIGITS as u32),
        Stage::ScanTotals => Dispatch::Groups(1),
        Stage::Histogram => Dispatch::Indirect,
        Stage::Scatter => Dispatch::Indirect,
    }
}

/// The parameter buffer: the shift of pass `p`, four times `p`, as a 32-bit
/// little-endian number at `256 * p`, and zeros between.
pub open spec fn shift_table_bytes() -> Seq<u8> {
    Seq::new(
        2048,
        |k: int|
            if k % 256 == 0 {
                (k / 256 * 4) as u8
            } else {
                0
            },
    )
}

/// Builds the parameter buffer of the passes' shifts.
pub fn shift_table() -> (t: Vec<u8>)
    ensures
        t@ == shift_table_bytes(),
{
    let mut t: Vec<u8> = Vec::new();
    let mut k: u64 = 0;
    while k < 2048
        invariant
            k <= 2048,
            t@.len() == k,
            forall|j: int| 0 <= j < k ==> (#[trigger] t@[j]) == shift_table_bytes()[j],
        decreases 2048 - k,
    {
        if k % UNIFORM_STRIDE == 0 {
            t.push((k / UNIFORM_STRIDE * 4) as u8);
        } else {
            t.push(0);
        }
        k = k + 1;
    }
    assert(t@ =~= shift_table_bytes());
    t
}

// ---- what the passes compute ----

/// Each pass reads what the one before it wrote, and the sorted elements end
/// in the buffer that held the input.
pub proof fn result_returns_to_input_buffer()
    ensures
        schedule()[0].input == 0,
        schedule()[7].output == 0,
        forall|p: int|
            0 <= p < 7 ==> (#[trigger] schedule()[p]).output == schedule()[p + 1].input,
        forall|p: int|
            0 <= p < 8 ==> shift_table_bytes()[(#[trigger] schedule()[p]).uniform_offset as int]
                == 4 * p,
{
}

/// An element: its key, and where it stood before the first pass.
pub struct Element {
    pub key: int,
    pub place: int,
}

/// Sixteen to the power of `p`.
pub open spec fn weight(p: nat) -> int
    decreases p,
{
    if p == 0 {
        1
    } else {
        16 * weight((p - 1) as nat)
    }
}

/// Digit `p` of a key.
pub open spec fn digit(key: int, p: nat) -> int {
    key / weight(p) % 16
}

/// `b` is `a` in the order of digit `p`, elements with the same digit staying
/// in their order: `from` says where in `a` each element of `b` stood.
pub open spec fn is_pass_via(a: Seq<Element>, b: Seq<Element>, p: nat, from: Seq<int>) -> bool {
    &&& b.len() == a.len()
    &&& from.len() == a.len()
    &&& from.no_duplicates()
    &&& forall|i: int|
        0 <= i < b.len() ==> 0 <= #[trigger] from[i] < a.len() && b[i] == a[from[i]]
    &&& forall|i: int, j: int|
        #![trigger b[i], b[j]]
        0 <= i < j < b.len() ==> digit(b[i].key, p) < digit(b[j].key, p) || (digit(b[i].key, p)
            == digit(b[j].key, p) && from[i] < from[j])
}

pub open spec fn is_pass(a: Seq<Element>, b: Seq<Element>, p: nat) -> bool {
    exists|from: Seq<int>| is_pass_via(a, b, p, from)
}

/// Ordered by the lowest `p` digits, and by place where those agree.
pub open spec fn ordered_by_low(a: Seq<Element>, p: nat) -> bool {
    forall|i: int, j: int|
        #![trigger a[i], a[j]]
        0 <= i < j < a.len() ==> a[i].key % weight(p) < a[j].key % weight(p) || (a[i].key
            % weight(p) == a[j].key % weight(p) && a[i].place < a[j].place)
}

proof fn lemma_weight_positive(p: nat)
    ensures
        weight(p) >= 1,
    decreases p,
{
    if p > 0 {
        lemma_weight_positive((p - 1) as nat);
    }
}

proof fn lemma_low_digits(key: int, p: nat)
    requires
        key >= 0,
    ensures
        key % weight(p + 1) == digit(key, p) * weight(p) + key % weight(p),
        0 <= key % weight(p) < weight(p),
{
    let w = weight(p);
    lemma_weight_positive(p);
    let q = key / w;
    let low = key % w;
    let d = q % 16;
    let h = q / 16;
    vstd::arithmetic::div_mod::lemma_fundamental_div_mod(key, w);
    vstd::arithmetic::div_mod::lemma_fundamental_div_mod(q, 16);
    assert(weight(p + 1) == 16 * w);
    assert(key == h * (16 * w) + (d * w + low)) by (nonlinear_arith)
        requires
            key == w * q + low,
            q == 16 * h + d,
    ;
    assert(0 <= d * w + low < 16 * w) by (nonlinear_arith)
        requires
            0 <= d <= 15,
            0 <= low < w,
    ;
    vstd::arithmetic::div_mod::lemma_fundamental_div_mod_converse(key, 16 * w, h, d * w + low);
}

/// A pass over digit `p` extends the order of the lower digits by it.
pub proof fn pass_extends_order(a: Seq<Element>, b: Seq<Element>, p: nat)
    requires
        ordered_by_low(a, p),
        is_pass(a, b, p),
        forall|i: int| 0 <= i < a.len() ==> (#[trigger] a[i]).key >= 0,
    ensures
        ordered_by_low(b, p + 1),
        forall|i: int| 0 <= i < b.len() ==> (#[trigger] b[i]).key >= 0,
        b.len() == a.len(),
{
    let from = choose|from: Seq<int>| is_pass_via(a, b, p, from);
    assert forall|i: int| 0 <= i < b.len() implies (#[trigger] b[i]).key >= 0 by {
        assert(b[i] == a[from[i]]);
    }
    assert forall|i: int, j: int|
        #![trigger b[i], b[j]]
        0 <= i < j < b.len() implies b[i].key % weight(p + 1) < b[j].key % weight(p + 1) || (
    b[i].key % weight(p + 1) == b[j].key % weight(p + 1) && b[i].place < b[j].place) by {
        let x = b[i];
        let y = b[j];
        let w = weight(p);
        assert(x == a[from[i]] && y == a[from[j]]);
        lemma_low_digits(x.key, p);
        lemma_low_digits(y.key, p);
        let dx = digit(x.key, p);
        let dy = digit(y.key, p);
        if dx < dy {
            assert(dx * w + x.key % w < dy * w + y.key % w) by (nonlinear_arith)
                requires
                    dx < dy,
                    0 <= x.key % w < w,
                    0 <= y.key % w,
            ;
        } else {
            assert(from[i] < from[j]);
        }
    }
}

/// Eight passes, lowest digit first, leave 32-bit keys in order, elements with
/// equal keys in the order in which they came.
pub proof fn eight_passes_sort_stably(states: Seq<Seq<Element>>)
    requires
        states.len() == 9,
        forall|p: int| 0 <= p < 8 ==> is_pass(#[trigger] states[p], states[p + 1], p as nat),
        forall|i: int|
            0 <= i < states[0].len() ==> 0 <= (#[trigger] states[0][i]).key < 0x1_0000_0000
                && states[0][i].place == i,
    ensures
        states[8].len() == states[0].len(),
        forall|i: int, j: int|
            #![trigger states[8][i], states[8][j]]
            0 <= i < j < states[8].len() ==> states[8][i].key < states[8][j].key || (
            states[8][i].key == states[8][j].key && states[8][i].place < states[8][j].place),
{
    assert(ordered_by_low(states[0], 0));
    lemma_states_ordered(states, 8);
    lemma_keys_stay_small(states, 8);
    assert(weight(8) == 0x1_0000_0000) by {
        reveal_with_fuel(weight, 9);
    }
    let out = states[8];
    assert forall|i: int, j: int|
        #![trigger out[i], out[j]]
        0 <= i < j < out.len() implies out[i].key < out[j].key || (out[i].key == out[j].key
        && out[i].place < out[j].place) by {
        vstd::arithmetic::div_mod::lemma_small_mod(out[i].key as nat, 0x1_0000_0000);
        vstd::arithmetic::div_mod::lemma_small_mod(out[j].key as nat, 0x1_0000_0000);
    }
}

proof fn lemma_states_ordered(states: Seq<Seq<Element>>, p: nat)
    requires
        states.len() == 9,
        p <= 8,
        forall|p: int| 0 <= p < 8 ==> is_pass(#[trigger] states[p], states[p + 1], p as nat),
        ordered_by_low(states[0], 0),
        forall|i: int| 0 <= i < states[0].len() ==> (#[trigger] states[0][i]).key >= 0,
    ensures
        ordered_by_low(states[p as int], p),
        states[p as int].len() == states[0].len(),
        forall|i: int|
            0 <= i < states[p as int].len() ==> (#[trigger] states[p as int][i]).key >= 0,
    decreases p,
{
    if p > 0 {
        lemma_states_ordered(states, (p - 1) as nat);
        assert(is_pass(states[p - 1], states[p - 1 + 1], (p - 1) as nat));
        pass_extends_order(states[p - 1], states[p as int], (p - 1) as nat);
    }
}

proof fn lemma_keys_stay_small(states: Seq<Seq<Element>>, p: nat)
    requires
        states.len() == 9,
        p <= 8,
        forall|p: int| 0 <= p < 8 ==> is_pass(#[trigger] states[p], states[p + 1], p as nat),
        forall|i: int|
            0 <= i < states[0].len() ==> 0 <= (#[trigger] states[0][i]).key < 0x1_0000_0000,
    ensures
        forall|i: int|
            0 <= i < states[p as int].len() ==> 0 <= (#[trigger] states[p as int][i]).key
                < 0x1_0000_0000,
    decreases p,
{
    if p > 0 {
        lemma_keys_stay_small(states, (p - 1) as nat);
        let a = states[p - 1];
        let b = states[p as int];
        let q = (p - 1) as nat;
        assert(is_pass(states[p - 1], states[p - 1 + 1], q));
        let from = choose|from: Seq<int>| is_pass_via(a, b, q, from);
        assert forall|i: int| 0 <= i < b.len() implies 0 <= (#[trigger] b[i]).key
            < 0x1_0000_0000 by {
            assert(b[i] == a[from[i]]);
        }
    }
}

/// Each pass finds its shift at its own offset: four bits further than the
/// pass before it, written as a 32-bit number with its lowest byte first.
pub proof fn passes_find_their_shift(p: int)
    requires
        0 <= p < 8,
    ensures
        schedule().len() == 8,
        schedule()[p].uniform_offset % 256 == 0,
        crate::wire::stands_at(
            shift_table_bytes(),
            schedule()[p].uniform_offset as int,
            crate::wire::low_first((4 * p) as nat, 4),
        ),
        schedule()[p].input != schedule()[p].output,
{
    let n = (4 * p) as nat;
    let t = shift_table_bytes();
    let at = schedule()[p].uniform_offset as int;
    reveal_with_fuel(crate::wire::low_first, 5);
    assert(crate::wire::low_first(n, 4) =~= seq![n as u8, 0u8, 0u8, 0u8]);
    assert(at == 256 * p);
    assert forall|i: int| 0 <= i < 4 implies #[trigger] t[at + i] == crate::wire::low_first(
        n,
        4,
    )[i] by {}
}

} // verus!
