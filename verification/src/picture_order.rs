//! Picture order counts over a run of pictures: the counts that successive
//! headers give are the ones that the encoder meant.
use crate::h264::SliceHeader;
use crate::h265::H265SliceHeader;
use crate::nvdec::{poc_msb, poc_step, H264Dpb, PocStep};
use crate::nvdec_h265::H265Dpb;
use vstd::arithmetic::power2::pow2;
use vstd::prelude::*;

verus! {

/// One step: from the count `prev` of the previous reference picture, low and
/// high part apart, the count of a picture within half a cycle of it is
/// rebuilt from its low bits.
proof fn lemma_step(log2: nat, prev: int, count: int, keeps: bool)
    requires
        1 <= log2 <= 30,
        -(pow2(log2) as int / 2) < count - prev <= pow2(log2) as int / 2,
        i32::MIN <= count - count % pow2(log2) as int,
        count <= i32::MAX,
    ensures
        ({
            let cycle = pow2(log2) as int;
            poc_step(
                prev % cycle,
                prev - prev % cycle,
                (count % cycle) as nat,
                log2,
                keeps,
            ) == Some(
                if keeps {
                    PocStep { poc: count, prev_lsb: count % cycle, prev_msb: count - count % cycle }
                } else {
                    PocStep { poc: count, prev_lsb: prev % cycle, prev_msb: prev - prev % cycle }
                },
            )
        }),
{
    let cycle = pow2(log2) as int;
    vstd::arithmetic::power2::lemma_pow2_pos(log2);
    vstd::arithmetic::power2::lemma_pow2_unfold(log2);
    vstd::arithmetic::power2::lemma_pow2_pos((log2 - 1) as nat);
    vstd::arithmetic::power2::lemma2_to64();
    if log2 < 30 {
        vstd::arithmetic::power2::lemma_pow2_strictly_increases(log2, 30);
    }
    assert(2 <= cycle <= 0x4000_0000);
    assert(cycle % 2 == 0);
    let lsb = count % cycle;
    vstd::arithmetic::div_mod::lemma_mod_bound(count, cycle);
    vstd::arithmetic::div_mod::lemma_mod_bound(prev, cycle);
    vstd::arithmetic::div_mod::lemma_fundamental_div_mod(prev, cycle);
    vstd::arithmetic::div_mod::lemma_mod_multiples_basic(prev / cycle, cycle);
    vstd::arithmetic::mul::lemma_mul_is_commutative(cycle, prev / cycle);
    assert((prev - prev % cycle) % cycle == 0);
    crate::nvdec::poc_is_rebuilt_from_low_bits(
        prev % cycle,
        prev - prev % cycle,
        lsb,
        cycle,
        count,
    );
    assert(poc_msb(prev % cycle, prev - prev % cycle, lsb, cycle) == count - lsb);
}

/// A picture that later counts are told from: it may be referenced (its NAL
/// type is odd or at least 16) and it is not a leading picture (types 6 to 9).
pub open spec fn is_anchor(t: u8) -> bool {
    (t % 2 == 1 || t >= 16) && (t < 6 || t > 9)
}

/// The last picture before `i` that later counts are told from.
pub open spec fn last_anchor(headers: Seq<H265SliceHeader>, i: int) -> int
    decreases i,
{
    if i <= 1 || is_anchor(headers[i - 1].nal_type) {
        i - 1
    } else {
        last_anchor(headers, i - 1)
    }
}

/// The headers of a run of H.265 pictures with these counts: it begins with
/// an IDR picture (NAL type 19 or 20), every IDR picture has count zero, each
/// header holds the low bits of its picture's count, and each other count
/// lies within half a cycle of that of the last anchor before it.
pub open spec fn run_of_counts(headers: Seq<H265SliceHeader>, counts: Seq<int>, log2: nat) -> bool {
    let cycle = pow2(log2) as int;
    &&& counts.len() == headers.len()
    &&& headers.len() > 0 ==> headers[0].nal_type == 19 || headers[0].nal_type == 20
    &&& forall|i: int| #![trigger counts[i]] #![trigger headers[i]]
        0 <= i < headers.len() ==> if headers[i].nal_type == 19 || headers[i].nal_type == 20 {
            counts[i] == 0
        } else {
            &&& headers[i].poc_lsb == counts[i] % cycle
            &&& -(cycle / 2) < counts[i] - counts[last_anchor(headers, i)] <= cycle / 2
            &&& i32::MIN <= counts[i] - counts[i] % cycle
            &&& counts[i] <= i32::MAX
        }
}

/// States that successive calls of `compute_poc` leave.
pub open spec fn counted(states: Seq<H265Dpb>, headers: Seq<H265SliceHeader>, log2: nat) -> bool {
    &&& states.len() == headers.len() + 1
    &&& forall|i: int| 0 <= i < states.len() ==> (#[trigger] states[i]).log2_max_poc_lsb == log2
    &&& forall|i: int| #![trigger headers[i]]
        0 <= i < headers.len() ==> match states[i].poc_of(headers[i]) {
            Some(step) => states[i + 1].prev_poc_lsb == step.prev_lsb && states[i + 1].prev_poc_msb
                == step.prev_msb,
            None => true,
        }
}

proof fn lemma_last_anchor(headers: Seq<H265SliceHeader>, i: int)
    requires
        i >= 1,
    ensures
        0 <= last_anchor(headers, i) < i,
    decreases i,
{
    if !(i <= 1 || is_anchor(headers[i - 1].nal_type)) {
        lemma_last_anchor(headers, i - 1);
    }
}

proof fn lemma_run(
    states: Seq<H265Dpb>,
    headers: Seq<H265SliceHeader>,
    counts: Seq<int>,
    log2: nat,
    i: int,
)
    requires
        1 <= log2 <= 30,
        run_of_counts(headers, counts, log2),
        counted(states, headers, log2),
        0 <= i < headers.len(),
    ensures
        states[i].poc_of(headers[i]) matches Some(step) && step.poc == counts[i],
        ({
            let cycle = pow2(log2) as int;
            let told = counts[last_anchor(headers, i + 1)];
            &&& states[i + 1].prev_poc_lsb == told % cycle
            &&& states[i + 1].prev_poc_msb == told - told % cycle
        }),
    decreases i,
{
    let cycle = pow2(log2) as int;
    vstd::arithmetic::power2::lemma_pow2_pos(log2);
    vstd::arithmetic::div_mod::lemma_small_mod(0, cycle as nat);
    let t = headers[i].nal_type;
    assert(states[i].log2_max_poc_lsb == log2);
    if t == 19 || t == 20 {
        assert(counts[i] == 0);
        assert(last_anchor(headers, i + 1) == i);
    } else {
        assert(i > 0);
        lemma_run(states, headers, counts, log2, i - 1);
        lemma_last_anchor(headers, i);
        let prev = counts[last_anchor(headers, i)];
        assert(headers[i].poc_lsb == counts[i] % cycle);
        lemma_step(log2, prev, counts[i], is_anchor(t));
    }
}

/// Counts are rebuilt over a whole run: where each picture's count lies
/// within half a cycle of the count of the last reference picture that is not
/// a leading picture, successive calls from an IDR picture on give every
/// picture its count, from the low bits in its header alone.
pub proof fn run_gives_the_counts(
    states: Seq<H265Dpb>,
    headers: Seq<H265SliceHeader>,
    counts: Seq<int>,
    log2: nat,
)
    requires
        1 <= log2 <= 30,
        run_of_counts(headers, counts, log2),
        counted(states, headers, log2),
    ensures
        forall|i: int| #![trigger headers[i]]
            0 <= i < headers.len() ==> (states[i].poc_of(headers[i]) matches Some(step) && step.poc
                == counts[i]),
{
    assert forall|i: int| #![trigger headers[i]] 0 <= i < headers.len() implies (
    states[i].poc_of(headers[i]) matches Some(step) && step.poc == counts[i]) by {
        lemma_run(states, headers, counts, log2, i);
    }
}

/// What a picture leaves behind: an IDR picture (types 19, 20) has count zero
/// and resets the state; another reference picture that is not leading leaves
/// its own low bits, with which the high part adds up to its count; leading
/// pictures (types 6 to 9) and pictures that are not referenced (even types
/// below 16) leave the state alone.
pub proof fn only_anchors_move_the_state(dpb: H265Dpb, h: H265SliceHeader)
    requires
        dpb.poc_of(h) is Some,
    ensures
        ({
            let t = h.nal_type;
            let step = dpb.poc_of(h)->Some_0;
            &&& t == 19 || t == 20 ==> step == (PocStep { poc: 0, prev_lsb: 0, prev_msb: 0 })
            &&& t != 19 && t != 20 && (t % 2 == 1 || t >= 16) && (t < 6 || t > 9) ==> step.prev_lsb
                == h.poc_lsb && step.prev_msb + step.prev_lsb == step.poc
            &&& (6 <= t <= 9) || (t < 16 && t % 2 == 0) ==> step.prev_lsb == dpb.prev_poc_lsb
                && step.prev_msb == dpb.prev_poc_msb
        }),
{
}

/// The last picture before `i` that was a reference, in H.264.
pub open spec fn last_reference(headers: Seq<SliceHeader>, i: int) -> int
    decreases i,
{
    if i <= 1 || headers[i - 1].nal_ref_idc > 0 {
        i - 1
    } else {
        last_reference(headers, i - 1)
    }
}

/// The headers of a run of H.264 pictures with these counts: it begins with
/// an IDR picture, IDR pictures are references, each header holds the low
/// bits of its count, an IDR picture's count lies within half a cycle of
/// zero, and each other count within half a cycle of that of the last
/// reference before it.
pub open spec fn h264_run_of_counts(
    headers: Seq<SliceHeader>,
    counts: Seq<int>,
    log2: nat,
) -> bool {
    let cycle = pow2(log2) as int;
    &&& counts.len() == headers.len()
    &&& headers.len() > 0 ==> headers[0].idr
    &&& forall|i: int| #![trigger counts[i]] #![trigger headers[i]]
        0 <= i < headers.len() ==> {
            let near = if headers[i].idr {
                0
            } else {
                counts[last_reference(headers, i)]
            };
            &&& headers[i].idr ==> headers[i].nal_ref_idc > 0
            &&& headers[i].poc_lsb == counts[i] % cycle
            &&& -(cycle / 2) < counts[i] - near <= cycle / 2
            &&& i32::MIN <= counts[i] - counts[i] % cycle
            &&& counts[i] <= i32::MAX
        }
}

/// States that successive calls of `compute_poc` leave, with counts of type
/// zero.
pub open spec fn h264_counted(
    states: Seq<H264Dpb>,
    headers: Seq<SliceHeader>,
    log2: nat,
) -> bool {
    &&& states.len() == headers.len() + 1
    &&& forall|i: int|
        0 <= i < states.len() ==> (#[trigger] states[i]).log2_max_poc_lsb == log2
            && states[i].poc_type == 0
    &&& forall|i: int| #![trigger headers[i]]
        0 <= i < headers.len() ==> match states[i].poc_of(headers[i]) {
            Some(step) => states[i + 1].prev_poc_lsb == step.prev_lsb && states[i + 1].prev_poc_msb
                == step.prev_msb,
            None => true,
        }
}

proof fn lemma_last_reference(headers: Seq<SliceHeader>, i: int)
    requires
        i >= 1,
    ensures
        0 <= last_reference(headers, i) < i,
    decreases i,
{
    if !(i <= 1 || headers[i - 1].nal_ref_idc > 0) {
        lemma_last_reference(headers, i - 1);
    }
}

proof fn lemma_h264_run(
    states: Seq<H264Dpb>,
    headers: Seq<SliceHeader>,
    counts: Seq<int>,
    log2: nat,
    i: int,
)
    requires
        1 <= log2 <= 30,
        h264_run_of_counts(headers, counts, log2),
        h264_counted(states, headers, log2),
        0 <= i < headers.len(),
    ensures
        states[i].poc_of(headers[i]) matches Some(step) && step.poc == counts[i],
        ({
            let cycle = pow2(log2) as int;
            let told = counts[last_reference(headers, i + 1)];
            &&& states[i + 1].prev_poc_lsb == told % cycle
            &&& states[i + 1].prev_poc_msb == told - told % cycle
        }),
    decreases i,
{
    let cycle = pow2(log2) as int;
    vstd::arithmetic::power2::lemma_pow2_pos(log2);
    vstd::arithmetic::div_mod::lemma_small_mod(0, cycle as nat);
    assert(states[i].log2_max_poc_lsb == log2);
    assert(headers[i].poc_lsb == counts[i] % cycle);
    if headers[i].idr {
        lemma_step(log2, 0, counts[i], true);
    } else {
        assert(i > 0);
        lemma_h264_run(states, headers, counts, log2, i - 1);
        lemma_last_reference(headers, i);
        let prev = counts[last_reference(headers, i)];
        lemma_step(log2, prev, counts[i], headers[i].nal_ref_idc > 0);
    }
}

/// Counts of type zero are rebuilt over a whole run: where each picture's
/// count lies within half a cycle of that of the last reference before it,
/// successive calls from an IDR picture on give every picture its count.
pub proof fn h264_run_gives_the_counts(
    states: Seq<H264Dpb>,
    headers: Seq<SliceHeader>,
    counts: Seq<int>,
    log2: nat,
)
    requires
        1 <= log2 <= 30,
        h264_run_of_counts(headers, counts, log2),
        h264_counted(states, headers, log2),
    ensures
        forall|i: int| #![trigger headers[i]]
            0 <= i < headers.len() ==> (states[i].poc_of(headers[i]) matches Some(step) && step.poc
                == counts[i]),
{
    assert forall|i: int| #![trigger headers[i]] 0 <= i < headers.len() implies (
    states[i].poc_of(headers[i]) matches Some(step) && step.poc == counts[i]) by {
        lemma_h264_run(states, headers, counts, log2, i);
    }
}

/// Counts of type two need no low bits: they grow by two with each frame
/// number, from zero on, and no picture moves the state.
pub proof fn frame_numbers_count_by_two(dpb: H264Dpb, a: SliceHeader, b: SliceHeader)
    requires
        dpb.poc_type == 2,
        b.frame_num == a.frame_num + 1,
        b.frame_num <= 0x3fff_ffff,
    ensures
        a.frame_num == 0 ==> (dpb.poc_of(a) matches Some(s) && s.poc == 0),
        dpb.poc_of(a) matches Some(s) && dpb.poc_of(b) matches Some(t) && t.poc - s.poc == 2
            && s.prev_lsb == dpb.prev_poc_lsb && s.prev_msb == dpb.prev_poc_msb,
{
}

} // verus!
