//! Reference management and session setup for hardware H.264 decode.
//!
//! The decoder drives a Vulkan Video session; what it hands to the driver is
//! decided here from plain values. Scope: progressive 4:2:0 8-bit, I/P
//! slices, sliding-window references, POC type 0/2. DPB strategy: "coincide"
//! mode when available (a picture is decoded straight into its DPB slot, and
//! copied out of it), else a distinct output image.
use crate::h264::{Pps, SliceHeader, SliceType, Sps};
use vstd::prelude::*;
use vstd::string::StringExecFns;

verus! {

/// A decoded frame: luma, and interleaved chroma at half resolution.
pub struct Nv12Frame {
    pub width: u32,
    pub height: u32,
    /// Luma plane, stride = padded width.
    pub y: Vec<u8>,
    /// Interleaved UV plane at half resolution, stride = padded width.
    pub uv: Vec<u8>,
    pub stride: u32,
}

/// Why a stream cannot be decoded.
#[derive(Debug)]
pub enum NvDecError {
    NoDecodeQueue,
    Missing(String),
    Unsupported(String),
}

/// An [`NvDecError`] with its message as characters.
pub enum NvDecErrorView {
    NoDecodeQueue,
    Missing(Seq<char>),
    Unsupported(Seq<char>),
}

impl NvDecErrorView {
    /// The message a user sees.
    pub open spec fn text(self) -> Seq<char> {
        match self {
            NvDecErrorView::NoDecodeQueue => "no video-decode-capable device/queue found"@,
            NvDecErrorView::Missing(m) => "driver lacks "@ + m,
            NvDecErrorView::Unsupported(m) => "unsupported stream: "@ + m,
        }
    }
}

impl View for NvDecError {
    type V = NvDecErrorView;

    open spec fn view(&self) -> NvDecErrorView {
        match *self {
            NvDecError::NoDecodeQueue => NvDecErrorView::NoDecodeQueue,
            NvDecError::Missing(s) => NvDecErrorView::Missing(s@),
            NvDecError::Unsupported(s) => NvDecErrorView::Unsupported(s@),
        }
    }
}

impl NvDecError {
    /// The message a user sees.
    pub fn message(&self) -> (s: String)
        ensures
            s@ == self@.text(),
    {
        match self {
            NvDecError::NoDecodeQueue => {
                String::from_str("no video-decode-capable device/queue found")
            },
            NvDecError::Missing(m) => {
                let mut s = String::from_str("driver lacks ");
                s.append(m.as_str());
                s
            },
            NvDecError::Unsupported(m) => {
                let mut s = String::from_str("unsupported stream: ");
                s.append(m.as_str());
                s
            },
        }
    }
}

/// An `Unsupported` error with a fixed message.
pub fn unsupported_stream(message: &str) -> (e: NvDecError)
    ensures
        e@ == NvDecErrorView::Unsupported(message@),
{
    NvDecError::Unsupported(String::from_str(message))
}

/// A `Missing` error with a fixed message.
pub fn missing(message: &str) -> (e: NvDecError)
    ensures
        e@ == NvDecErrorView::Missing(message@),
{
    NvDecError::Missing(String::from_str(message))
}

// ---- picture order count ----

/// The most significant part of a picture order count: the multiple of
/// `max_lsb` that brings the count nearest to the previous one.
pub open spec fn poc_msb(prev_lsb: int, prev_msb: int, lsb: int, max_lsb: int) -> int {
    if lsb < prev_lsb && prev_lsb - lsb >= max_lsb / 2 {
        prev_msb + max_lsb
    } else if lsb > prev_lsb && lsb - prev_lsb > max_lsb / 2 {
        prev_msb - max_lsb
    } else {
        prev_msb
    }
}

/// The picture order count is rebuilt from its low bits: it is congruent to
/// them, and it lies within half a cycle of the previous count, so that it is
/// the only such number.
pub proof fn poc_is_rebuilt_from_low_bits(
    prev_lsb: int,
    prev_msb: int,
    lsb: int,
    max_lsb: int,
    poc: int,
)
    requires
        2 <= max_lsb,
        max_lsb % 2 == 0,
        0 <= prev_lsb < max_lsb,
        0 <= lsb < max_lsb,
        prev_msb % max_lsb == 0,
        poc % max_lsb == lsb,
        -(max_lsb / 2) < poc - (prev_msb + prev_lsb) <= max_lsb / 2,
    ensures
        poc == poc_msb(prev_lsb, prev_msb, lsb, max_lsb) + lsb,
        poc_msb(prev_lsb, prev_msb, lsb, max_lsb) % max_lsb == 0,
{
    let q = poc / max_lsb;
    let p = prev_msb / max_lsb;
    vstd::arithmetic::div_mod::lemma_fundamental_div_mod(poc, max_lsb);
    vstd::arithmetic::div_mod::lemma_fundamental_div_mod(prev_msb, max_lsb);
    let d = q - p;
    assert(max_lsb * q - max_lsb * p == max_lsb * d) by (nonlinear_arith)
        requires
            d == q - p,
    ;
    assert(-1 <= d <= 1) by (nonlinear_arith)
        requires
            -(max_lsb / 2) < max_lsb * d + lsb - prev_lsb <= max_lsb / 2,
            0 <= lsb < max_lsb,
            0 <= prev_lsb < max_lsb,
            2 <= max_lsb,
    ;
    assert(max_lsb * 1 == max_lsb && max_lsb * (-1) == -max_lsb && max_lsb * 0 == 0);
    assert(d == -1 || d == 0 || d == 1);
    vstd::arithmetic::div_mod::lemma_mod_add_multiples_vanish(prev_msb, max_lsb);
    vstd::arithmetic::div_mod::lemma_mod_sub_multiples_vanish(prev_msb, max_lsb);
}

/// The rebuilt picture order count has the given low bits and lies within
/// half a cycle of the previous count.
pub proof fn poc_stays_near_previous(prev_lsb: int, prev_msb: int, lsb: int, max_lsb: int)
    requires
        2 <= max_lsb,
        max_lsb % 2 == 0,
        0 <= prev_lsb < max_lsb,
        0 <= lsb < max_lsb,
        prev_msb % max_lsb == 0,
    ensures
        ({
            let poc = poc_msb(prev_lsb, prev_msb, lsb, max_lsb) + lsb;
            &&& poc % max_lsb == lsb
            &&& -(max_lsb / 2) < poc - (prev_msb + prev_lsb) <= max_lsb / 2
        }),
{
    let msb = poc_msb(prev_lsb, prev_msb, lsb, max_lsb);
    vstd::arithmetic::div_mod::lemma_mod_add_multiples_vanish(prev_msb, max_lsb);
    vstd::arithmetic::div_mod::lemma_mod_sub_multiples_vanish(prev_msb, max_lsb);
    assert(msb % max_lsb == 0);
    vstd::arithmetic::div_mod::lemma_fundamental_div_mod(msb, max_lsb);
    vstd::arithmetic::div_mod::lemma_mod_multiples_vanish(msb / max_lsb, lsb, max_lsb);
    vstd::arithmetic::div_mod::lemma_small_mod(lsb as nat, max_lsb as nat);
}

// ---- decoded picture buffer ----

/// One slot of the decoded picture buffer.
#[derive(Debug, Clone, Copy, PartialEq, Eq, Structural)]
pub struct DpbSlot {
    /// Currently holds a reference picture?
    pub active: bool,
    pub frame_num: u32,
    pub poc: i32,
    /// Monotonic age for sliding-window eviction.
    pub age: u64,
}

/// Number of active slots among the first `n`.
pub open spec fn active_count(slots: Seq<DpbSlot>, n: nat) -> nat
    decreases n,
{
    if n == 0 {
        0
    } else {
        active_count(slots, (n - 1) as nat) + if slots[n - 1].active {
            1nat
        } else {
            0
        }
    }
}

/// The slots with every reference dropped.
pub open spec fn all_inactive(slots: Seq<DpbSlot>) -> Seq<DpbSlot> {
    Seq::new(slots.len(), |i: int| DpbSlot { active: false, ..slots[i] })
}

/// `i` is a slot, and an active one where only those count.
pub open spec fn is_eligible(slots: Seq<DpbSlot>, i: int, active_only: bool) -> bool {
    0 <= i < slots.len() && (active_only ==> slots[i].active)
}

/// `i` is the oldest slot, the first where ages are equal, among those that
/// are eligible: all of them, or the active ones.
pub open spec fn is_oldest(slots: Seq<DpbSlot>, i: int, active_only: bool) -> bool {
    &&& 0 <= i < slots.len()
    &&& active_only ==> slots[i].active
    &&& forall|j: int|
        0 <= j < slots.len() && (active_only ==> (#[trigger] slots[j]).active) ==> slots[i].age
            <= slots[j].age && (j < i ==> slots[i].age < slots[j].age)
}

/// `i` is the slot to decode into: the first free one, else the oldest.
pub open spec fn is_setup_slot(slots: Seq<DpbSlot>, i: int) -> bool {
    if exists|j: int| 0 <= j < slots.len() && !(#[trigger] slots[j]).active {
        &&& 0 <= i < slots.len()
        &&& !slots[i].active
        &&& forall|j: int| 0 <= j < i ==> (#[trigger] slots[j]).active
    } else {
        is_oldest(slots, i, false)
    }
}

/// `refs` lists the active slots other than `setup`, each once, most recent
/// first.
pub open spec fn is_ref_list(slots: Seq<DpbSlot>, setup: int, refs: Seq<usize>) -> bool {
    &&& forall|k: int|
        0 <= k < refs.len() ==> (#[trigger] refs[k]) < slots.len() && refs[k] != setup
            && slots[refs[k] as int].active
    &&& forall|a: int, b: int|
        0 <= a < b < refs.len() ==> slots[#[trigger] refs[a] as int].age
            > slots[#[trigger] refs[b] as int].age
    &&& forall|i: int|
        0 <= i < slots.len() && i != setup && (#[trigger] slots[i]).active ==> refs.contains(
            i as usize,
        )
}

/// Annex-B form of the first `n` NALs: a start code before each.
pub open spec fn annex_b(nals: Seq<&[u8]>, n: nat) -> Seq<u8>
    decreases n,
{
    if n == 0 {
        Seq::empty()
    } else {
        annex_b(nals, (n - 1) as nat) + seq![0u8, 0u8, 1u8] + nals[n - 1]@
    }
}

proof fn lemma_annex_b_monotone(nals: Seq<&[u8]>, m: nat, n: nat)
    requires
        m <= n,
    ensures
        annex_b(nals, m).len() <= annex_b(nals, n).len(),
        annex_b(nals, n).take(annex_b(nals, m).len() as int) == annex_b(nals, m),
    decreases n,
{
    if m < n {
        lemma_annex_b_monotone(nals, m, (n - 1) as nat);
        let k = annex_b(nals, m).len() as int;
        assert(annex_b(nals, n).take(k) =~= annex_b(nals, (n - 1) as nat).take(k));
    } else {
        assert(annex_b(nals, n).take(annex_b(nals, n).len() as int) =~= annex_b(nals, n));
    }
}

/// At the offset of each slice stand a start code and the slice's NAL.
pub proof fn annex_b_slices_are_found(nals: Seq<&[u8]>, n: nat, i: int)
    requires
        0 <= i < n,
    ensures
        ({
            let off = annex_b(nals, i as nat).len() as int;
            &&& off + 3 + nals[i]@.len() <= annex_b(nals, n).len()
            &&& annex_b(nals, n).subrange(off, off + 3) == seq![0u8, 0u8, 1u8]
            &&& annex_b(nals, n).subrange(off + 3, off + 3 + nals[i]@.len()) == nals[i]@
        }),
{
    let off = annex_b(nals, i as nat).len() as int;
    let whole = annex_b(nals, n);
    let part = annex_b(nals, (i + 1) as nat);
    lemma_annex_b_monotone(nals, (i + 1) as nat, n);
    assert(part == whole.take(part.len() as int));
    assert(whole.subrange(off, off + 3) =~= part.subrange(off, off + 3));
    assert(part.subrange(off, off + 3) =~= seq![0u8, 0u8, 1u8]);
    assert(whole.subrange(off + 3, off + 3 + nals[i]@.len()) =~= part.subrange(
        off + 3,
        off + 3 + nals[i]@.len(),
    ));
    assert(part.subrange(off + 3, off + 3 + nals[i]@.len()) =~= nals[i]@);
}

/// The bytes of an access unit in Annex-B form, with the offset of each NAL.
pub struct Bitstream {
    pub bytes: Vec<u8>,
    pub offsets: Vec<u32>,
    /// Length of the buffer range: the bytes, rounded up to the alignment.
    pub range: u64,
}

/// What [`write_bitstream`] gives.
pub open spec fn bitstream_ok(b: Bitstream, nals: Seq<&[u8]>, align: u64) -> bool {
    let a = if align == 0 {
        1
    } else {
        align as int
    };
    &&& b.bytes@ == annex_b(nals, nals.len())
    &&& b.offsets@.len() == nals.len()
    &&& forall|i: int|
        0 <= i < nals.len() ==> (#[trigger] b.offsets@[i]) == annex_b(nals, i as nat).len()
    &&& b.range as int % a == 0
    &&& b.bytes@.len() <= b.range < b.bytes@.len() + a
}

/// Writes slice NALs with start codes into a buffer of `cap` bytes.
pub fn write_bitstream(nals: &[&[u8]], cap: usize, align: u64) -> (res: Result<
    Bitstream,
    NvDecError,
>)
    requires
        cap <= u32::MAX,
        align <= u64::MAX - cap,
    ensures
        match res {
            Ok(b) => annex_b(nals@, nals@.len()).len() <= cap && bitstream_ok(b, nals@, align),
            Err(e) => annex_b(nals@, nals@.len()).len() > cap && e@ == NvDecErrorView::Unsupported(
                "bitstream buffer overflow"@,
            ),
        },
{
    let mut bytes: Vec<u8> = Vec::new();
    let mut offsets: Vec<u32> = Vec::new();
    let mut i: usize = 0;
    while i < nals.len()
        invariant
            i <= nals@.len(),
            cap <= u32::MAX,
            bytes@ == annex_b(nals@, i as nat),
            bytes@.len() <= cap,
            offsets@.len() == i,
            forall|k: int|
                0 <= k < i ==> (#[trigger] offsets@[k]) == annex_b(nals@, k as nat).len(),
        decreases nals@.len() - i,
    {
        let nal: &[u8] = nals[i];
        proof {
            lemma_annex_b_monotone(nals@, (i + 1) as nat, nals@.len());
        }
        let left: usize = cap - bytes.len();
        if left < 3 || nal.len() > left - 3 {
            return Err(unsupported_stream("bitstream buffer overflow"));
        }
        offsets.push(bytes.len() as u32);
        bytes.push(0);
        bytes.push(0);
        bytes.push(1);
        bytes.extend_from_slice(nal);
        assert(bytes@ =~= annex_b(nals@, (i + 1) as nat));
        i = i + 1;
    }
    let a: u64 = if align == 0 {
        1
    } else {
        align
    };
    let len: u64 = bytes.len() as u64;
    let rest: u64 = len % a;
    let range: u64 = if rest == 0 {
        len
    } else {
        len + (a - rest)
    };
    proof {
        let q = len as int / (a as int);
        vstd::arithmetic::div_mod::lemma_fundamental_div_mod(len as int, a as int);
        if rest != 0 {
            assert(range == a * (q + 1)) by (nonlinear_arith)
                requires
                    len == a * q + rest,
                    range == len + (a - rest),
            ;
            vstd::arithmetic::div_mod::lemma_mod_multiples_basic(q + 1, a as int);
            vstd::arithmetic::mul::lemma_mul_is_commutative(a as int, q + 1);
        }
    }
    Ok(Bitstream { bytes, offsets, range })
}

/// Reference state of an H.264 decode session.
pub struct H264Dpb {
    pub slots: Vec<DpbSlot>,
    pub age_counter: u64,
    pub prev_poc_lsb: i32,
    pub prev_poc_msb: i32,
    pub max_refs: u32,
    pub poc_type: u32,
    pub log2_max_poc_lsb: u32,
}

/// What one picture needs to be decoded.
pub struct H264Plan {
    pub poc: i32,
    /// Slot to decode into.
    pub setup_idx: usize,
    /// Reference slots, most recent first.
    pub refs: Vec<usize>,
    pub bitstream: Bitstream,
    /// Whether the picture will be referenced.
    pub is_ref: bool,
    pub frame_num: u32,
}

/// The POC of a picture and the state that it leaves: (POC, previous low
/// bits, previous high bits).
pub struct PocStep {
    pub poc: int,
    pub prev_lsb: int,
    pub prev_msb: int,
}

/// Whether a number fits 32 signed bits.
pub open spec fn fits_i32(v: int) -> bool {
    i32::MIN <= v <= i32::MAX
}

/// POC type 0: rebuilt from `lsb` and the previous reference picture. None
/// where it does not fit.
pub open spec fn poc_step(
    prev_lsb: int,
    prev_msb: int,
    lsb: nat,
    log2_max_lsb: nat,
    keeps: bool,
) -> Option<PocStep> {
    let max_lsb = vstd::arithmetic::power2::pow2(log2_max_lsb) as int;
    let msb = poc_msb(prev_lsb, prev_msb, lsb as int, max_lsb);
    if log2_max_lsb > 30 || lsb > i32::MAX || !fits_i32(msb) || !fits_i32(msb + lsb) {
        None
    } else if keeps {
        Some(PocStep { poc: msb + lsb, prev_lsb: lsb as int, prev_msb: msb })
    } else {
        Some(PocStep { poc: msb + lsb, prev_lsb, prev_msb })
    }
}

/// Computes [`poc_step`]: (POC, previous low bits, previous high bits).
pub fn next_poc(prev_lsb: i32, prev_msb: i32, lsb: u32, log2_max_lsb: u32, keeps: bool) -> (res:
    Option<(i32, i32, i32)>)
    ensures
        match res {
            Some(x) => poc_step(
                prev_lsb as int,
                prev_msb as int,
                lsb as nat,
                log2_max_lsb as nat,
                keeps,
            ) == Some(PocStep { poc: x.0 as int, prev_lsb: x.1 as int, prev_msb: x.2 as int }),
            None => poc_step(
                prev_lsb as int,
                prev_msb as int,
                lsb as nat,
                log2_max_lsb as nat,
                keeps,
            ) is None,
        },
{
    if log2_max_lsb > 30 || lsb > 0x7fff_ffff {
        return None;
    }
    proof {
        vstd::bits::lemma_u64_pow2_no_overflow(log2_max_lsb as nat);
        vstd::bits::lemma_u64_shl_is_mul(1, log2_max_lsb as u64);
        vstd::arithmetic::power2::lemma2_to64();
        if log2_max_lsb < 30 {
            vstd::arithmetic::power2::lemma_pow2_strictly_increases(log2_max_lsb as nat, 30);
        }
    }
    let max_lsb: i64 = (1u64 << log2_max_lsb as u64) as i64;
    let p: i64 = prev_lsb as i64;
    let m: i64 = prev_msb as i64;
    let l: i64 = lsb as i64;
    let msb: i64 = if l < p && p - l >= max_lsb / 2 {
        m + max_lsb
    } else if l > p && l - p > max_lsb / 2 {
        m - max_lsb
    } else {
        m
    };
    let poc: i64 = msb + l;
    if msb < i32::MIN as i64 || msb > i32::MAX as i64 || poc < i32::MIN as i64 || poc
        > i32::MAX as i64 {
        return None;
    }
    if keeps {
        Some((poc as i32, lsb as i32, msb as i32))
    } else {
        Some((poc as i32, prev_lsb, prev_msb))
    }
}

/// Changing one slot changes the count by that slot.
proof fn lemma_active_count_update(a: Seq<DpbSlot>, b: Seq<DpbSlot>, i: int, n: nat)
    requires
        0 <= i < a.len(),
        n <= a.len(),
        b.len() == a.len(),
        forall|j: int| 0 <= j < a.len() && j != i ==> (#[trigger] a[j]).active == b[j].active,
    ensures
        active_count(b, n) == active_count(a, n) + (if i < n {
            (if b[i].active {
                1int
            } else {
                0
            }) - (if a[i].active {
                1int
            } else {
                0
            })
        } else {
            0
        }),
    decreases n,
{
    if n > 0 {
        lemma_active_count_update(a, b, i, (n - 1) as nat);
        assert(n - 1 != i ==> a[n - 1].active == b[n - 1].active);
    }
}

/// No slot is active in a dropped buffer.
proof fn lemma_all_inactive_count(slots: Seq<DpbSlot>, n: nat)
    requires
        n <= slots.len(),
    ensures
        active_count(all_inactive(slots), n) == 0,
    decreases n,
{
    if n > 0 {
        lemma_all_inactive_count(slots, (n - 1) as nat);
    }
}

/// Ages of the active slots are distinct and none is ahead of the counter.
pub open spec fn ages_wf(slots: Seq<DpbSlot>, counter: u64) -> bool {
    &&& forall|i: int| 0 <= i < slots.len() ==> (#[trigger] slots[i]).age <= counter
    &&& forall|i: int, j: int|
        0 <= i < j < slots.len() && (#[trigger] slots[i]).active && (#[trigger] slots[j]).active
            ==> slots[i].age != slots[j].age
}

impl H264Dpb {
    /// The buffer has a slot, holds at most `max_refs` references, and their
    /// ages tell them apart.
    pub open spec fn wf(&self) -> bool {
        &&& self.slots@.len() >= 1
        &&& self.max_refs >= 1
        &&& active_count(self.slots@, self.slots@.len()) <= self.max_refs
        &&& ages_wf(self.slots@, self.age_counter)
    }

    /// The POC of a picture with this header, and the state that it leaves.
    pub open spec fn poc_of(&self, h: SliceHeader) -> Option<PocStep> {
        if self.poc_type == 0 {
            poc_step(
                if h.idr {
                    0
                } else {
                    self.prev_poc_lsb as int
                },
                if h.idr {
                    0
                } else {
                    self.prev_poc_msb as int
                },
                h.poc_lsb as nat,
                self.log2_max_poc_lsb as nat,
                h.nal_ref_idc != 0,
            )
        } else if 2 * h.frame_num <= i32::MAX {
            Some(
                PocStep {
                    poc: 2 * h.frame_num,
                    prev_lsb: self.prev_poc_lsb as int,
                    prev_msb: self.prev_poc_msb as int,
                },
            )
        } else {
            None
        }
    }

    /// An empty buffer of `max_slots` slots.
    pub fn new(sps: &Sps, max_slots: usize, max_refs: u32) -> (dpb: Self)
        requires
            max_slots >= 1,
            max_refs >= 1,
        ensures
            dpb.wf(),
            dpb.slots@ == Seq::new(
                max_slots as nat,
                |i: int| DpbSlot { active: false, frame_num: 0, poc: 0, age: 0 },
            ),
            dpb.age_counter == 0,
            dpb.prev_poc_lsb == 0,
            dpb.prev_poc_msb == 0,
            dpb.max_refs == max_refs,
            dpb.poc_type == sps.poc_type,
            dpb.log2_max_poc_lsb == sps.log2_max_poc_lsb,
    {
        let mut slots: Vec<DpbSlot> = Vec::new();
        let mut i: usize = 0;
        while i < max_slots
            invariant
                i <= max_slots,
                slots@ == Seq::new(
                    i as nat,
                    |k: int| DpbSlot { active: false, frame_num: 0, poc: 0, age: 0 },
                ),
            decreases max_slots - i,
        {
            slots.push(DpbSlot { active: false, frame_num: 0, poc: 0, age: 0 });
            i = i + 1;
        }
        proof {
            lemma_all_inactive_count(slots@, slots@.len());
            assert(all_inactive(slots@) =~= slots@);
        }
        H264Dpb {
            slots,
            age_counter: 0,
            prev_poc_lsb: 0,
            prev_poc_msb: 0,
            max_refs,
            poc_type: sps.poc_type,
            log2_max_poc_lsb: sps.log2_max_poc_lsb,
        }
    }

    /// The picture order count of the next picture; a POC that does not fit
    /// 32 bits is an error and leaves the state as it was.
    pub fn compute_poc(&mut self, header: &SliceHeader) -> (res: Result<i32, NvDecError>)
        ensures
            final(self).slots@ == old(self).slots@,
            final(self).age_counter == old(self).age_counter,
            final(self).max_refs == old(self).max_refs,
            final(self).poc_type == old(self).poc_type,
            final(self).log2_max_poc_lsb == old(self).log2_max_poc_lsb,
            match res {
                Ok(poc) => old(self).poc_of(*header) == Some(
                    PocStep {
                        poc: poc as int,
                        prev_lsb: final(self).prev_poc_lsb as int,
                        prev_msb: final(self).prev_poc_msb as int,
                    },
                ),
                Err(e) => old(self).poc_of(*header) is None && e@ == NvDecErrorView::Unsupported(
                    "picture order count out of range"@,
                ) && final(self).prev_poc_lsb == old(self).prev_poc_lsb
                    && final(self).prev_poc_msb == old(self).prev_poc_msb,
            },
    {
        if self.poc_type == 0 {
            let (lsb, msb): (i32, i32) = if header.idr {
                (0, 0)
            } else {
                (self.prev_poc_lsb, self.prev_poc_msb)
            };
            match next_poc(
                lsb,
                msb,
                header.poc_lsb,
                self.log2_max_poc_lsb,
                header.nal_ref_idc != 0,
            ) {
                Some((poc, l, m)) => {
                    self.prev_poc_lsb = l;
                    self.prev_poc_msb = m;
                    Ok(poc)
                },
                None => Err(unsupported_stream("picture order count out of range")),
            }
        } else if header.frame_num <= 0x3fff_ffff {
            Ok(2 * header.frame_num as i32)
        } else {
            Err(unsupported_stream("picture order count out of range"))
        }
    }
}

/// Drops every reference.
fn drop_all(slots: &mut Vec<DpbSlot>)
    ensures
        final(slots)@ == all_inactive(old(slots)@),
{
    let ghost before = slots@;
    let mut i: usize = 0;
    while i < slots.len()
        invariant
            i <= slots@.len(),
            slots@.len() == before.len(),
            forall|k: int| 0 <= k < i ==> (#[trigger] slots@[k]) == all_inactive(before)[k],
            forall|k: int| i <= k < before.len() ==> (#[trigger] slots@[k]) == before[k],
        decreases before.len() - i,
    {
        let old_slot: DpbSlot = slots[i];
        slots.set(i, DpbSlot { active: false, ..old_slot });
        i = i + 1;
    }
    assert(slots@ =~= all_inactive(before));
}

/// Finds the oldest slot, or the oldest active one.
fn find_oldest(slots: &Vec<DpbSlot>, active_only: bool) -> (found: usize)
    requires
        exists|i: int| #[trigger] is_eligible(slots@, i, active_only),
    ensures
        is_oldest(slots@, found as int, active_only),
{
    let mut best: Option<usize> = None;
    let mut i: usize = 0;
    while i < slots.len()
        invariant
            i <= slots@.len(),
            match best {
                None => forall|j: int|
                    0 <= j < i ==> active_only && !(#[trigger] slots@[j]).active,
                Some(b) => {
                    &&& b < i
                    &&& active_only ==> slots@[b as int].active
                    &&& forall|j: int|
                        0 <= j < i && (active_only ==> (#[trigger] slots@[j]).active)
                            ==> slots@[b as int].age <= slots@[j].age && (j < b
                            ==> slots@[b as int].age < slots@[j].age)
                },
            },
        decreases slots@.len() - i,
    {
        let s: DpbSlot = slots[i];
        if !active_only || s.active {
            match best {
                None => {
                    best = Some(i);
                },
                Some(b) => {
                    if s.age < slots[b].age {
                        best = Some(i);
                    }
                },
            }
        }
        i = i + 1;
    }
    proof {
        let w = choose|i: int| #[trigger] is_eligible(slots@, i, active_only);
        let slot = slots@[w];
        assert(best is None ==> active_only && !slot.active);
    }
    match best {
        Some(b) => b,
        None => 0,
    }
}

/// Chooses the slot to decode into: the first free one, else the oldest.
fn find_setup(slots: &Vec<DpbSlot>) -> (found: usize)
    requires
        slots@.len() >= 1,
    ensures
        is_setup_slot(slots@, found as int),
        found < slots@.len(),
{
    let mut i: usize = 0;
    while i < slots.len()
        invariant
            i <= slots@.len(),
            slots@.len() >= 1,
            forall|j: int| 0 <= j < i ==> (#[trigger] slots@[j]).active,
        decreases slots@.len() - i,
    {
        if !slots[i].active {
            assert(!slots@[i as int].active);
            return i;
        }
        i = i + 1;
    }
    assert(slots@[0].active);
    assert(is_eligible(slots@, 0, false));
    find_oldest(slots, false)
}

/// Where a new element of age `age` stands in a list sorted by falling age.
fn insert_position(slots: &Vec<DpbSlot>, refs: &Vec<usize>, age: u64) -> (pos: usize)
    requires
        forall|k: int| 0 <= k < refs@.len() ==> (#[trigger] refs@[k]) < slots@.len(),
        forall|a: int, b: int|
            0 <= a < b < refs@.len() ==> slots@[#[trigger] refs@[a] as int].age
                > slots@[#[trigger] refs@[b] as int].age,
        forall|k: int| 0 <= k < refs@.len() ==> slots@[#[trigger] refs@[k] as int].age != age,
    ensures
        pos <= refs@.len(),
        forall|k: int| 0 <= k < pos ==> slots@[#[trigger] refs@[k] as int].age > age,
        forall|k: int| pos <= k < refs@.len() ==> slots@[#[trigger] refs@[k] as int].age < age,
{
    let mut pos: usize = 0;
    while pos < refs.len() && slots[refs[pos]].age > age
        invariant
            pos <= refs@.len(),
            forall|k: int| 0 <= k < refs@.len() ==> (#[trigger] refs@[k]) < slots@.len(),
            forall|k: int| 0 <= k < pos ==> slots@[#[trigger] refs@[k] as int].age > age,
        decreases refs@.len() - pos,
    {
        pos = pos + 1;
    }
    assert forall|k: int| pos <= k < refs@.len() implies slots@[#[trigger] refs@[k] as int].age
        < age by {
        assert(slots@[refs@[pos as int] as int].age != age);
        if k > pos {
            assert(slots@[refs@[pos as int] as int].age > slots@[refs@[k] as int].age);
        }
    }
    pos
}

/// Lists the active slots other than `setup`, most recent first.
fn list_refs(slots: &Vec<DpbSlot>, setup: usize, Ghost(counter): Ghost<u64>) -> (refs: Vec<usize>)
    requires
        ages_wf(slots@, counter),
    ensures
        is_ref_list(slots@, setup as int, refs@),
{
    let mut refs: Vec<usize> = Vec::new();
    let mut i: usize = 0;
    while i < slots.len()
        invariant
            i <= slots@.len(),
            ages_wf(slots@, counter),
            forall|k: int|
                0 <= k < refs@.len() ==> (#[trigger] refs@[k]) < i && refs@[k] != setup
                    && slots@[refs@[k] as int].active,
            forall|a: int, b: int|
                0 <= a < b < refs@.len() ==> slots@[#[trigger] refs@[a] as int].age
                    > slots@[#[trigger] refs@[b] as int].age,
            forall|j: int|
                0 <= j < i && j != setup && (#[trigger] slots@[j]).active ==> refs@.contains(
                    j as usize,
                ),
        decreases slots@.len() - i,
    {
        if i != setup && slots[i].active {
            let age: u64 = slots[i].age;
            assert forall|k: int| 0 <= k < refs@.len() implies slots@[#[trigger] refs@[k] as int].age
                != age by {
                assert(slots@[refs@[k] as int].active && slots@[i as int].active);
            }
            let pos: usize = insert_position(slots, &refs, age);
            let ghost before = refs@;
            refs.insert(pos, i);
            proof {
                assert(refs@ == before.insert(pos as int, i));
                assert forall|k: int| 0 <= k < refs@.len() implies (#[trigger] refs@[k]) < i + 1
                    && refs@[k] != setup && slots@[refs@[k] as int].active by {
                    if k < pos {
                        assert(refs@[k] == before[k]);
                    } else if k > pos {
                        assert(refs@[k] == before[k - 1]);
                    }
                }
                assert forall|a: int, b: int| 0 <= a < b < refs@.len() implies slots@[
                #[trigger] refs@[a] as int].age > slots@[#[trigger] refs@[b] as int].age by {
                    let x = if a < pos {
                        before[a]
                    } else if a == pos {
                        i
                    } else {
                        before[a - 1]
                    };
                    let y = if b < pos {
                        before[b]
                    } else if b == pos {
                        i
                    } else {
                        before[b - 1]
                    };
                    assert(refs@[a] == x && refs@[b] == y);
                }
                assert forall|j: int|
                    0 <= j < i + 1 && j != setup && (
                    #[trigger] slots@[j]).active implies refs@.contains(j as usize) by {
                    if j == i {
                        assert(refs@[pos as int] == i);
                    } else {
                        let k = choose|k: int| 0 <= k < before.len() && before[k] == j as usize;
                        assert(before.contains(j as usize));
                        if k < pos {
                            assert(refs@[k] == j as usize);
                        } else {
                            assert(refs@[k + 1] == j as usize);
                        }
                    }
                }
            }
        }
        i = i + 1;
    }
    refs
}

/// The only active slot, if any, is the one to decode into.
pub open spec fn lacks_reference(slots: Seq<DpbSlot>) -> bool {
    forall|j: int| 0 <= j < slots.len() && (#[trigger] slots[j]).active ==> is_setup_slot(slots, j)
}

/// There is one slot to decode into.
proof fn lemma_setup_unique(slots: Seq<DpbSlot>, i: int, j: int)
    requires
        is_setup_slot(slots, i),
        is_setup_slot(slots, j),
    ensures
        i == j,
{
    let a = slots[i];
    let b = slots[j];
    if exists|k: int| 0 <= k < slots.len() && !(#[trigger] slots[k]).active {
        assert(!a.active && !b.active);
    } else {
        assert(a.age <= b.age && b.age <= a.age);
    }
}

impl H264Dpb {
    /// The slots in force when a picture with this header is decoded: an IDR
    /// picture drops every reference.
    pub open spec fn slots_for(&self, h: SliceHeader) -> Seq<DpbSlot> {
        if h.idr {
            all_inactive(self.slots@)
        } else {
            self.slots@
        }
    }

    /// Everything that decoding a picture needs: its POC, the slot to decode
    /// into, the references, and the bitstream. A POC out of range changes
    /// nothing; the later errors keep the new POC state and what an IDR
    /// picture drops.
    pub fn prepare(
        &mut self,
        nals: &[&[u8]],
        header: &SliceHeader,
        cap: usize,
        align: u64,
    ) -> (res: Result<H264Plan, NvDecError>)
        requires
            old(self).wf(),
            cap <= u32::MAX,
            align <= u64::MAX - cap,
        ensures
            final(self).wf(),
            final(self).age_counter == old(self).age_counter,
            final(self).max_refs == old(self).max_refs,
            final(self).poc_type == old(self).poc_type,
            final(self).log2_max_poc_lsb == old(self).log2_max_poc_lsb,
            match old(self).poc_of(*header) {
                None => {
                    &&& final(self).slots@ == old(self).slots@
                    &&& final(self).prev_poc_lsb == old(self).prev_poc_lsb
                    &&& final(self).prev_poc_msb == old(self).prev_poc_msb
                    &&& res matches Err(e) && e@ == NvDecErrorView::Unsupported(
                        "picture order count out of range"@,
                    )
                },
                Some(step) => {
                    let slots = old(self).slots_for(*header);
                    let fits = annex_b(nals@, nals@.len()).len() <= cap;
                    let stuck = header.slice_type is P && lacks_reference(slots);
                    &&& final(self).slots@ == slots
                    &&& final(self).prev_poc_lsb == step.prev_lsb
                    &&& final(self).prev_poc_msb == step.prev_msb
                    &&& match res {
                        Ok(plan) => {
                            &&& fits && !stuck
                            &&& plan.poc == step.poc
                            &&& plan.setup_idx < slots.len()
                            &&& is_setup_slot(slots, plan.setup_idx as int)
                            &&& is_ref_list(slots, plan.setup_idx as int, plan.refs@)
                            &&& bitstream_ok(plan.bitstream, nals@, align)
                            &&& plan.is_ref == (header.nal_ref_idc != 0)
                            &&& plan.frame_num == header.frame_num
                        },
                        Err(e) => {
                            &&& !fits || stuck
                            &&& e@ == NvDecErrorView::Unsupported(
                                if !fits {
                                    "bitstream buffer overflow"@
                                } else {
                                    "P slice without any reference in the DPB"@
                                },
                            )
                        },
                    }
                },
            },
    {
        let poc: i32 = match self.compute_poc(header) {
            Ok(p) => p,
            Err(e) => {
                return Err(e);
            },
        };
        if header.idr {
            drop_all(&mut self.slots);
            proof {
                lemma_all_inactive_count(old(self).slots@, old(self).slots@.len());
            }
        }
        let bitstream = match write_bitstream(nals, cap, align) {
            Ok(b) => b,
            Err(e) => {
                return Err(e);
            },
        };
        let setup_idx: usize = find_setup(&self.slots);
        let refs = list_refs(&self.slots, setup_idx, Ghost(self.age_counter));
        proof {
            let slots = self.slots@;
            if refs@.len() == 0 {
                assert forall|j: int| 0 <= j < slots.len() && (
                #[trigger] slots[j]).active implies is_setup_slot(slots, j) by {
                    if j != setup_idx {
                        assert(refs@.contains(j as usize));
                    }
                }
            } else {
                let j = refs@[0] as int;
                assert(slots[j].active && j != setup_idx);
                if lacks_reference(slots) {
                    lemma_setup_unique(slots, j, setup_idx as int);
                }
            }
        }
        if header.slice_type == SliceType::P && refs.len() == 0 {
            return Err(unsupported_stream("P slice without any reference in the DPB"));
        }
        Ok(
            H264Plan {
                poc,
                setup_idx,
                refs,
                bitstream,
                is_ref: header.nal_ref_idc != 0,
                frame_num: header.frame_num,
            },
        )
    }

    /// The slots with the decoded picture in place.
    pub open spec fn slots_with(&self, plan: H264Plan) -> Seq<DpbSlot> {
        self.slots@.update(
            plan.setup_idx as int,
            DpbSlot {
                active: plan.is_ref,
                frame_num: plan.frame_num,
                poc: plan.poc,
                age: (self.age_counter + 1) as u64,
            },
        )
    }

    /// Bookkeeping after a decode: the picture enters its slot, and with more
    /// than `max_refs` references the oldest one leaves (sliding window).
    pub fn finish(&mut self, plan: &H264Plan)
        requires
            old(self).wf(),
            plan.setup_idx < old(self).slots@.len(),
            old(self).age_counter < u64::MAX,
        ensures
            final(self).wf(),
            final(self).age_counter == old(self).age_counter + 1,
            final(self).prev_poc_lsb == old(self).prev_poc_lsb,
            final(self).prev_poc_msb == old(self).prev_poc_msb,
            final(self).max_refs == old(self).max_refs,
            final(self).poc_type == old(self).poc_type,
            final(self).log2_max_poc_lsb == old(self).log2_max_poc_lsb,
            ({
                let placed = old(self).slots_with(*plan);
                if active_count(placed, placed.len()) > old(self).max_refs {
                    exists|i: int|
                        #[trigger] is_oldest(placed, i, true) && final(self).slots@
                            == placed.update(i, DpbSlot { active: false, ..placed[i] })
                } else {
                    final(self).slots@ == placed
                }
            }),
    {
        self.age_counter = self.age_counter + 1;
        let age: u64 = self.age_counter;
        self.slots.set(
            plan.setup_idx,
            DpbSlot { active: plan.is_ref, frame_num: plan.frame_num, poc: plan.poc, age },
        );
        let ghost placed = self.slots@;
        proof {
            assert(placed == old(self).slots_with(*plan));
            lemma_active_count_update(
                old(self).slots@,
                placed,
                plan.setup_idx as int,
                placed.len(),
            );
        }
        let mut active: usize = 0;
        let mut i: usize = 0;
        while i < self.slots.len()
            invariant
                i <= self.slots@.len(),
                active == active_count(self.slots@, i as nat),
                active <= i,
                self.slots@ == placed,
                self.age_counter == age,
                self.max_refs == old(self).max_refs,
                self.prev_poc_lsb == old(self).prev_poc_lsb,
                self.prev_poc_msb == old(self).prev_poc_msb,
                self.poc_type == old(self).poc_type,
                self.log2_max_poc_lsb == old(self).log2_max_poc_lsb,
            decreases self.slots@.len() - i,
        {
            if self.slots[i].active {
                active = active + 1;
            }
            i = i + 1;
        }
        if active as u64 > self.max_refs as u64 {
            proof {
                lemma_some_active(placed, placed.len());
                let w = choose|i: int| 0 <= i < placed.len() && (#[trigger] placed[i]).active;
                assert(is_eligible(placed, w, true));
            }
            let oldest: usize = find_oldest(&self.slots, true);
            let slot: DpbSlot = self.slots[oldest];
            self.slots.set(oldest, DpbSlot { active: false, ..slot });
            proof {
                lemma_active_count_update(placed, self.slots@, oldest as int, placed.len());
                assert(is_oldest(placed, oldest as int, true));
            }
        }
    }
}

/// A positive count comes from an active slot.
proof fn lemma_some_active(slots: Seq<DpbSlot>, n: nat)
    requires
        n <= slots.len(),
        active_count(slots, n) > 0,
    ensures
        exists|i: int| 0 <= i < n && (#[trigger] slots[i]).active,
    decreases n,
{
    if !slots[n - 1].active {
        lemma_some_active(slots, (n - 1) as nat);
    }
}

// ---- session setup ----

/// What a queue family of a device offers.
#[derive(Debug, Clone, Copy, PartialEq, Eq, Structural)]
pub struct QueueFamily {
    /// Video decode operations.
    pub decode: bool,
    /// The codec of the stream.
    pub codec: bool,
    /// Transfer operations.
    pub transfer: bool,
}

impl QueueFamily {
    /// Whether the family can decode the stream.
    pub open spec fn can_decode(self) -> bool {
        self.decode && self.codec
    }
}

/// Index of the first family that can decode, or the number of families.
pub open spec fn first_family(families: Seq<QueueFamily>) -> nat
    decreases families.len(),
{
    if families.len() == 0 || families[0].can_decode() {
        0
    } else {
        1 + first_family(families.skip(1))
    }
}

/// `d` and `f` name the first device with a family that can decode, and that
/// family.
pub open spec fn is_decode_queue(devices: Seq<Vec<QueueFamily>>, d: int, f: int) -> bool {
    &&& 0 <= d < devices.len()
    &&& f == first_family(devices[d]@)
    &&& f < devices[d]@.len()
    &&& forall|e: int|
        0 <= e < d ==> first_family((#[trigger] devices[e])@) == devices[e]@.len()
}

proof fn lemma_first_family(families: Seq<QueueFamily>, i: int)
    requires
        0 <= i <= families.len(),
        forall|j: int| 0 <= j < i ==> !(#[trigger] families[j]).can_decode(),
        i < families.len() ==> families[i].can_decode(),
    ensures
        first_family(families) == i,
    decreases families.len(),
{
    if i > 0 {
        assert(!families[0].can_decode());
        let t = families.skip(1);
        assert forall|j: int| 0 <= j < i - 1 implies !(#[trigger] t[j]).can_decode() by {
            assert(t[j] == families[j + 1]);
        }
        lemma_first_family(t, i - 1);
    }
}

fn find_family(families: &Vec<QueueFamily>) -> (i: usize)
    ensures
        i == first_family(families@),
        i <= families@.len(),
{
    let mut i: usize = 0;
    while i < families.len()
        invariant
            i <= families@.len(),
            forall|j: int| 0 <= j < i ==> !(#[trigger] families@[j]).can_decode(),
        decreases families@.len() - i,
    {
        if families[i].decode && families[i].codec {
            proof {
                lemma_first_family(families@, i as int);
            }
            return i;
        }
        i = i + 1;
    }
    proof {
        lemma_first_family(families@, i as int);
    }
    i
}

/// Chooses the device and queue family that decode: the first of each. The
/// family must also do transfers, because frames are copied out on it.
pub fn choose_decode_queue(devices: &Vec<Vec<QueueFamily>>) -> (res: Result<
    (usize, usize),
    NvDecError,
>)
    ensures
        match res {
            Ok(x) => is_decode_queue(devices@, x.0 as int, x.1 as int)
                && devices@[x.0 as int]@[x.1 as int].transfer,
            Err(e) => if e@ is NoDecodeQueue {
                forall|d: int|
                    0 <= d < devices@.len() ==> first_family((#[trigger] devices@[d])@)
                        == devices@[d]@.len()
            } else {
                &&& e@ == NvDecErrorView::Missing("transfer ops on the decode queue"@)
                &&& exists|d: int, f: int|
                    #[trigger] is_decode_queue(devices@, d, f) && !devices@[d]@[f].transfer
            },
        },
{
    let mut d: usize = 0;
    while d < devices.len()
        invariant
            d <= devices@.len(),
            forall|e: int|
                0 <= e < d ==> first_family((#[trigger] devices@[e])@) == devices@[e]@.len(),
        decreases devices@.len() - d,
    {
        let families = &devices[d];
        let f: usize = find_family(families);
        if f < families.len() {
            assert(is_decode_queue(devices@, d as int, f as int));
            if families[f].transfer {
                return Ok((d, f));
            }
            return Err(missing("transfer ops on the decode queue"));
        }
        d = d + 1;
    }
    Err(NvDecError::NoDecodeQueue)
}

/// Whether memory type `i` is allowed and has the required properties.
pub open spec fn memory_type_fits(
    type_bits: u32,
    flags: Seq<u32>,
    required: u32,
    i: int,
) -> bool {
    0 <= i < flags.len() && type_bits & (1u32 << i as u32) != 0 && flags[i] & required == required
}

/// The first allowed memory type with the required properties.
pub fn find_memory_type(type_bits: u32, flags: &[u32], required: u32) -> (res: Option<u32>)
    requires
        flags@.len() <= 32,
    ensures
        match res {
            Some(i) => memory_type_fits(type_bits, flags@, required, i as int) && forall|j: int|
                0 <= j < i ==> !#[trigger] memory_type_fits(type_bits, flags@, required, j),
            None => forall|j: int| !#[trigger] memory_type_fits(type_bits, flags@, required, j),
        },
{
    let n: u32 = flags.len() as u32;
    let mut i: u32 = 0;
    while i < n
        invariant
            i <= n <= 32,
            n == flags@.len(),
            forall|j: int|
                0 <= j < i ==> !#[trigger] memory_type_fits(type_bits, flags@, required, j),
        decreases n - i,
    {
        if type_bits & (1u32 << i) != 0 && flags[i as usize] & required == required {
            return Some(i);
        }
        i = i + 1;
    }
    None
}

/// Property bit of memory local to the device.
pub const MEMORY_DEVICE_LOCAL: u32 = 1;

/// Memory for the session: device-local where allowed, else any allowed type.
pub fn find_session_memory(type_bits: u32, flags: &[u32]) -> (res: Result<u32, NvDecError>)
    requires
        flags@.len() <= 32,
    ensures
        ({
            let local = |i: int| memory_type_fits(type_bits, flags@, MEMORY_DEVICE_LOCAL, i);
            let any = |i: int| memory_type_fits(type_bits, flags@, 0, i);
            match res {
                Ok(i) => if exists|j: int| #[trigger] local(j) {
                    local(i as int) && forall|j: int| 0 <= j < i ==> !#[trigger] local(j)
                } else {
                    any(i as int) && forall|j: int| 0 <= j < i ==> !#[trigger] any(j)
                },
                Err(e) => {
                    &&& forall|j: int| !#[trigger] local(j) && !#[trigger] any(j)
                    &&& e@ == NvDecErrorView::Missing("session memory type"@)
                },
            }
        }),
{
    let ghost local = |i: int| memory_type_fits(type_bits, flags@, MEMORY_DEVICE_LOCAL, i);
    let ghost any = |i: int| memory_type_fits(type_bits, flags@, 0, i);
    match find_memory_type(type_bits, flags, MEMORY_DEVICE_LOCAL) {
        Some(i) => {
            assert(local(i as int));
            Ok(i)
        },
        None => match find_memory_type(type_bits, flags, 0) {
            Some(i) => {
                assert(any(i as int));
                Ok(i)
            },
            None => Err(missing("session memory type")),
        },
    }
}

/// Sizes of a decode session.
#[derive(Debug, Clone, Copy, PartialEq, Eq, Structural)]
pub struct SessionSize {
    pub coded_w: u32,
    pub coded_h: u32,
    pub max_refs: u32,
    pub max_slots: u32,
    pub bitstream_cap: usize,
    pub readback_size: usize,
    /// Whether pictures are decoded into an image of their own, and not into
    /// their DPB slot.
    pub distinct_output: bool,
}

/// What an image of a session is used for.
#[derive(Debug, Clone, Copy, PartialEq, Eq, Structural)]
pub struct ImageUsage {
    /// Holds reference pictures.
    pub reference: bool,
    /// Is decoded into.
    pub output: bool,
    /// Is copied out of.
    pub transfer: bool,
}

/// The use of the DPB slots' images, and of the output image where it is
/// distinct.
pub fn image_usages(distinct_output: bool) -> (u: (ImageUsage, Option<ImageUsage>))
    ensures
        u.0 == (ImageUsage {
            reference: true,
            output: !distinct_output,
            transfer: !distinct_output,
        }),
        u.1 == (if distinct_output {
            Some(ImageUsage { reference: false, output: true, transfer: true })
        } else {
            None
        }),
{
    if distinct_output {
        (
            ImageUsage { reference: true, output: false, transfer: false },
            Some(ImageUsage { reference: false, output: true, transfer: true }),
        )
    } else {
        (ImageUsage { reference: true, output: true, transfer: true }, None)
    }
}

/// Bytes of the bitstream buffer.
pub const H264_BITSTREAM_CAP: usize = 0x40_0000;

/// The number of DPB slots: one for each reference and one for the picture
/// being decoded, as far as the driver goes.
pub open spec fn slots_for_refs(max_refs: int, caps_max_dpb_slots: u32) -> int {
    if max_refs + 1 <= caps_max_dpb_slots {
        max_refs + 1
    } else {
        caps_max_dpb_slots as int
    }
}

/// Sizes the session for a stream: whole macroblocks, at least one
/// reference, an NV12 readback. A driver in which the DPB and the output do
/// not coincide needs a distinct output image.
pub fn session_size(sps: &Sps, coincide: bool, caps_max_dpb_slots: u32) -> (s: SessionSize)
    requires
        16 * sps.mb_width <= u32::MAX,
        16 * sps.mb_height <= u32::MAX,
        (16 * sps.mb_width) * (16 * sps.mb_height) * 3 <= u32::MAX,
        sps.max_num_ref_frames < u32::MAX,
    ensures
        ({
            let max_refs = if sps.max_num_ref_frames == 0 {
                1
            } else {
                sps.max_num_ref_frames as int
            };
            &&& s.coded_w == 16 * sps.mb_width
            &&& s.coded_h == 16 * sps.mb_height
            &&& s.max_refs == max_refs
            &&& s.max_slots == slots_for_refs(max_refs, caps_max_dpb_slots)
            &&& s.bitstream_cap == H264_BITSTREAM_CAP
            &&& s.bitstream_cap == 4 * 1024 * 1024
            &&& s.readback_size == (16 * sps.mb_width) * (16 * sps.mb_height) * 3 / 2
            &&& s.distinct_output == !coincide
        }),
{
    let coded_w: u32 = sps.mb_width * 16;
    let coded_h: u32 = sps.mb_height * 16;
    proof {
        vstd::arithmetic::mul::lemma_mul_nonnegative(coded_w as int, coded_h as int);
    }
    let max_refs: u32 = if sps.max_num_ref_frames == 0 {
        1
    } else {
        sps.max_num_ref_frames
    };
    let max_slots: u32 = if max_refs + 1 <= caps_max_dpb_slots {
        max_refs + 1
    } else {
        caps_max_dpb_slots
    };
    SessionSize {
        coded_w,
        coded_h,
        max_refs,
        max_slots,
        bitstream_cap: H264_BITSTREAM_CAP,
        readback_size: (coded_w * coded_h * 3 / 2) as usize,
        distinct_output: !coincide,
    }
}

/// Display size of a stream: the coded size without the cropped margins,
/// which are counted in units of two pixels.
pub fn cropped_size(coded_w: u32, coded_h: u32, crop: &[u32; 4]) -> (size: (u32, u32))
    requires
        2 * (crop@[0] + crop@[1]) <= coded_w,
        2 * (crop@[2] + crop@[3]) <= coded_h,
    ensures
        size.0 == coded_w - 2 * (crop@[0] + crop@[1]),
        size.1 == coded_h - 2 * (crop@[2] + crop@[3]),
{
    (coded_w - 2 * (crop[0] + crop[1]), coded_h - 2 * (crop[2] + crop[3]))
}

/// Offset of the display window in the coded picture.
pub fn crop_offsets(crop: &[u32; 4]) -> (offsets: (u32, u32))
    requires
        2 * crop@[0] <= u32::MAX,
        2 * crop@[2] <= u32::MAX,
    ensures
        offsets.0 == 2 * crop@[0],
        offsets.1 == 2 * crop@[2],
{
    (2 * crop[0], 2 * crop[2])
}

/// A parsed SPS states its display size: what cropping the coded size gives.
pub proof fn parsed_size_is_cropped_size(rbsp: Seq<u8>)
    requires
        crate::h264::sps_syntax(rbsp).1.err is None,
    ensures
        ({
            let s = crate::h264::sps_syntax(rbsp).0;
            &&& s.width == 16 * s.mb_width - 2 * (s.frame_cropping.0 + s.frame_cropping.1)
            &&& s.height == 16 * s.mb_height - 2 * (s.frame_cropping.2 + s.frame_cropping.3)
            &&& 0 <= s.width
            &&& 0 <= s.height
        }),
{
}

/// Splits a readback buffer into its luma plane and its chroma plane of half
/// the size.
pub fn split_planes(data: &[u8], luma_bytes: usize) -> (planes: (Vec<u8>, Vec<u8>))
    requires
        luma_bytes + luma_bytes / 2 <= data@.len(),
    ensures
        planes.0@ == data@.take(luma_bytes as int),
        planes.1@ == data@.subrange(luma_bytes as int, luma_bytes + luma_bytes / 2),
{
    let total: usize = data.len();
    let y = vstd::slice::slice_to_vec(vstd::slice::slice_subrange(data, 0, luma_bytes));
    let uv = vstd::slice::slice_to_vec(
        vstd::slice::slice_subrange(data, luma_bytes, luma_bytes + luma_bytes / 2),
    );
    assert(data@.subrange(0, luma_bytes as int) =~= data@.take(luma_bytes as int));
    (y, uv)
}

/// Where one plane of a picture lies in the readback buffer, and its size in
/// pixels.
#[derive(Debug, Clone, Copy, PartialEq, Eq, Structural)]
pub struct PlaneCopy {
    pub offset: u64,
    pub width: u32,
    pub height: u32,
}

/// The copies of a decoded picture: luma first, then the interleaved chroma
/// at half the resolution.
pub open spec fn copies_of(width: u32, height: u32, bytes_per_sample: u32) -> (
    PlaneCopy,
    PlaneCopy,
) {
    (
        PlaneCopy { offset: 0, width, height },
        PlaneCopy {
            offset: (width * height * bytes_per_sample) as u64,
            width: (width / 2) as u32,
            height: (height / 2) as u32,
        },
    )
}

pub fn plane_copies(width: u32, height: u32, bytes_per_sample: u32) -> (c: (PlaneCopy, PlaneCopy))
    requires
        width * height * bytes_per_sample <= u32::MAX,
    ensures
        c == copies_of(width, height, bytes_per_sample),
{
    proof {
        lemma_area_is_small(width as int, height as int, bytes_per_sample as int);
    }
    let area: u64 = width as u64 * height as u64;
    let luma: u64 = if bytes_per_sample == 0 {
        0
    } else {
        area * bytes_per_sample as u64
    };
    (
        PlaneCopy { offset: 0, width, height },
        PlaneCopy { offset: luma, width: width / 2, height: height / 2 },
    )
}

proof fn lemma_area_is_small(w: int, h: int, b: int)
    requires
        0 <= w <= u32::MAX,
        0 <= h <= u32::MAX,
        0 <= b,
        w * h * b <= u32::MAX,
    ensures
        0 <= w * h <= u64::MAX,
        b >= 1 ==> w * h <= u32::MAX,
        b == 0 ==> w * h * b == 0,
{
    assert(0 <= w * h <= u32::MAX * u32::MAX) by (nonlinear_arith)
        requires
            0 <= w <= u32::MAX,
            0 <= h <= u32::MAX,
    ;
    if b >= 1 {
        assert(w * h <= w * h * b) by (nonlinear_arith)
            requires
                b >= 1,
                w * h >= 0,
        ;
    }
}

/// The two copies of a picture of even size fill a readback buffer of one and
/// a half times its luma, one behind the other.
pub proof fn copies_fill_the_readback(width: u32, height: u32, bytes_per_sample: u32)
    requires
        width % 2 == 0,
        height % 2 == 0,
        width * height * bytes_per_sample <= u32::MAX,
    ensures
        ({
            let (luma, chroma) = copies_of(width, height, bytes_per_sample);
            &&& luma.offset + luma.width * luma.height * bytes_per_sample == chroma.offset
            &&& chroma.offset + 2 * (chroma.width * chroma.height) * bytes_per_sample == width
                * height * 3 / 2 * bytes_per_sample
        }),
{
    let w = width as int / 2;
    let h = height as int / 2;
    let b = bytes_per_sample as int;
    lemma_area_is_small(width as int, height as int, b);
    assert(width * height == 4 * (w * h)) by (nonlinear_arith)
        requires
            width == 2 * w,
            height == 2 * h,
    ;
    let a = w * h;
    assert(4 * a * 3 / 2 == 6 * a);
    assert(4 * a * b + 2 * a * b == 6 * a * b) by (nonlinear_arith);
}

// ---- the picture to decode ----

/// The low 16 bits of a number.
pub open spec fn low16(v: int) -> u16 {
    (v % 0x1_0000) as u16
}

/// The low two bytes of a value.
pub fn word_of(v: u32) -> (w: u16)
    ensures
        w == low16(v as int),
{
    (v % 0x1_0000) as u16
}

/// A picture as the driver takes it.
#[derive(Debug, Clone, Copy, PartialEq, Eq, Structural)]
pub struct StdPicture {
    pub is_intra: bool,
    pub idr: bool,
    pub is_reference: bool,
    pub seq_parameter_set_id: u8,
    pub pic_parameter_set_id: u8,
    pub frame_num: u16,
    pub idr_pic_id: u16,
    pub poc: i32,
}

/// Describes the picture of a slice header with its picture order count.
pub fn picture_info(sps: &Sps, header: &SliceHeader, poc: i32) -> (p: StdPicture)
    ensures
        p == (StdPicture {
            is_intra: header.slice_type is I,
            idr: header.idr,
            is_reference: header.nal_ref_idc != 0,
            seq_parameter_set_id: low8(sps.sps_id as int),
            pic_parameter_set_id: low8(header.pps_id as int),
            frame_num: low16(header.frame_num as int),
            idr_pic_id: low16(header.idr_pic_id as int),
            poc,
        }),
{
    StdPicture {
        is_intra: matches!(header.slice_type, SliceType::I),
        idr: header.idr,
        is_reference: header.nal_ref_idc != 0,
        seq_parameter_set_id: byte_of(sps.sps_id),
        pic_parameter_set_id: byte_of(header.pps_id),
        frame_num: word_of(header.frame_num),
        idr_pic_id: word_of(header.idr_pic_id),
        poc,
    }
}

// ---- driver parameter sets ----

/// Position of a level in the driver's list of levels, 1.0 to 6.2; levels
/// that are not in the list count as the last.
pub open spec fn level_rank(level_idc: u8) -> u32 {
    let levels: Seq<u8> = seq![
        10, 11, 12, 13, 20, 21, 22, 30, 31, 32, 40, 41, 42, 50, 51, 52, 60, 61,
    ];
    if levels.contains(level_idc) {
        levels.index_of(level_idc) as u32
    } else {
        18
    }
}

proof fn lemma_level_rank(level_idc: u8, i: int)
    requires
        0 <= i < 18,
        level_idc == seq![
            10u8, 11, 12, 13, 20, 21, 22, 30, 31, 32, 40, 41, 42, 50, 51, 52, 60, 61,
        ][i],
    ensures
        level_rank(level_idc) == i,
{
    let levels: Seq<u8> = seq![
        10, 11, 12, 13, 20, 21, 22, 30, 31, 32, 40, 41, 42, 50, 51, 52, 60, 61,
    ];
    assert(levels.contains(level_idc));
    let k = levels.index_of(level_idc);
    assert(levels[k] == level_idc);
}

/// The driver's level enumerator of a level_idc.
pub fn level_to_std(level_idc: u8) -> (r: u32)
    ensures
        r == level_rank(level_idc),
{
    let levels: [u8; 18] = [
        10, 11, 12, 13, 20, 21, 22, 30, 31, 32, 40, 41, 42, 50, 51, 52, 60, 61,
    ];
    let ghost list: Seq<u8> = seq![
        10, 11, 12, 13, 20, 21, 22, 30, 31, 32, 40, 41, 42, 50, 51, 52, 60, 61,
    ];
    assert(levels@ =~= list);
    let mut i: usize = 0;
    while i < 18
        invariant
            i <= 18,
            levels@ == list,
            list == seq![
                10u8, 11, 12, 13, 20, 21, 22, 30, 31, 32, 40, 41, 42, 50, 51, 52, 60, 61,
            ],
            forall|j: int| 0 <= j < i ==> list[j] != level_idc,
        decreases 18 - i,
    {
        if levels[i] == level_idc {
            proof {
                lemma_level_rank(level_idc, i as int);
            }
            return i as u32;
        }
        i = i + 1;
    }
    assert(!list.contains(level_idc));
    18
}

/// The low 8 bits of a number.
pub open spec fn low8(v: int) -> u8 {
    (v % 256) as u8
}

/// The low 8 bits of a number, as a signed number.
pub open spec fn low8_signed(v: int) -> i8 {
    if v % 256 < 128 {
        (v % 256) as i8
    } else {
        (v % 256 - 256) as i8
    }
}

/// The low byte of a value.
pub fn byte_of(v: u32) -> (b: u8)
    ensures
        b == low8(v as int),
{
    (v % 256) as u8
}

/// The low byte of a signed value, as a signed number.
pub fn signed_byte_of(v: i32) -> (b: i8)
    ensures
        b == low8_signed(v as int),
{
    let m: i64 = ((v as i64 % 256) + 256) % 256;
    if m < 128 {
        m as i8
    } else {
        (m - 256) as i8
    }
}

/// Sequence parameter set values as the driver takes them.
#[derive(Debug, Clone, Copy, PartialEq, Eq, Structural)]
pub struct StdSps {
    pub constraint_set0: bool,
    pub constraint_set1: bool,
    pub constraint_set2: bool,
    pub constraint_set3: bool,
    pub constraint_set4: bool,
    pub constraint_set5: bool,
    pub direct_8x8_inference: bool,
    pub frame_mbs_only: bool,
    pub gaps_in_frame_num_allowed: bool,
    pub qpprime_y_zero_transform_bypass: bool,
    pub frame_cropping: bool,
    pub seq_scaling_matrix_present: bool,
    pub profile_idc: u32,
    pub level_idc: u32,
    pub chroma_format_idc: u32,
    pub seq_parameter_set_id: u8,
    pub log2_max_frame_num_minus4: u8,
    pub pic_order_cnt_type: u32,
    pub log2_max_pic_order_cnt_lsb_minus4: u8,
    pub max_num_ref_frames: u8,
    pub pic_width_in_mbs_minus1: u32,
    pub pic_height_in_map_units_minus1: u32,
    pub crop_left: u32,
    pub crop_right: u32,
    pub crop_top: u32,
    pub crop_bottom: u32,
}

/// Bit `7 - k` of the constraint flags, k being the number of the set.
pub open spec fn constraint_flag(flags: u8, k: u8) -> bool {
    (flags >> ((7 - k) as u8)) & 1 == 1
}

/// The values of an SPS in the form that the driver takes.
pub fn build_std_sps(sps: &Sps) -> (s: StdSps)
    requires
        sps.log2_max_frame_num >= 4,
        sps.mb_width >= 1,
        sps.mb_height >= 1,
    ensures
        s == (StdSps {
            constraint_set0: constraint_flag(sps.constraint_flags, 0),
            constraint_set1: constraint_flag(sps.constraint_flags, 1),
            constraint_set2: constraint_flag(sps.constraint_flags, 2),
            constraint_set3: constraint_flag(sps.constraint_flags, 3),
            constraint_set4: constraint_flag(sps.constraint_flags, 4),
            constraint_set5: constraint_flag(sps.constraint_flags, 5),
            direct_8x8_inference: sps.direct_8x8,
            frame_mbs_only: true,
            gaps_in_frame_num_allowed: sps.gaps_allowed,
            qpprime_y_zero_transform_bypass: sps.qpprime_y_zero,
            frame_cropping: sps.frame_cropping_flag,
            seq_scaling_matrix_present: sps.scaling is Some,
            profile_idc: sps.profile_idc as u32,
            level_idc: level_rank(sps.level_idc),
            chroma_format_idc: sps.chroma_format_idc,
            seq_parameter_set_id: low8(sps.sps_id as int),
            log2_max_frame_num_minus4: low8(sps.log2_max_frame_num - 4),
            pic_order_cnt_type: sps.poc_type,
            log2_max_pic_order_cnt_lsb_minus4: if sps.log2_max_poc_lsb < 4 {
                0
            } else {
                low8(sps.log2_max_poc_lsb - 4)
            },
            max_num_ref_frames: low8(sps.max_num_ref_frames as int),
            pic_width_in_mbs_minus1: (sps.mb_width - 1) as u32,
            pic_height_in_map_units_minus1: (sps.mb_height - 1) as u32,
            crop_left: sps.frame_cropping@[0],
            crop_right: sps.frame_cropping@[1],
            crop_top: sps.frame_cropping@[2],
            crop_bottom: sps.frame_cropping@[3],
        }),
{
    let c: u8 = sps.constraint_flags;
    StdSps {
        constraint_set0: (c >> 7) & 1 == 1,
        constraint_set1: (c >> 6) & 1 == 1,
        constraint_set2: (c >> 5) & 1 == 1,
        constraint_set3: (c >> 4) & 1 == 1,
        constraint_set4: (c >> 3) & 1 == 1,
        constraint_set5: (c >> 2) & 1 == 1,
        direct_8x8_inference: sps.direct_8x8,
        frame_mbs_only: true,
        gaps_in_frame_num_allowed: sps.gaps_allowed,
        qpprime_y_zero_transform_bypass: sps.qpprime_y_zero,
        frame_cropping: sps.frame_cropping_flag,
        seq_scaling_matrix_present: sps.scaling.is_some(),
        profile_idc: sps.profile_idc as u32,
        level_idc: level_to_std(sps.level_idc),
        chroma_format_idc: sps.chroma_format_idc,
        seq_parameter_set_id: byte_of(sps.sps_id),
        log2_max_frame_num_minus4: byte_of(sps.log2_max_frame_num - 4),
        pic_order_cnt_type: sps.poc_type,
        log2_max_pic_order_cnt_lsb_minus4: if sps.log2_max_poc_lsb < 4 {
            0
        } else {
            byte_of(sps.log2_max_poc_lsb - 4)
        },
        max_num_ref_frames: byte_of(sps.max_num_ref_frames),
        pic_width_in_mbs_minus1: sps.mb_width - 1,
        pic_height_in_map_units_minus1: sps.mb_height - 1,
        crop_left: sps.frame_cropping[0],
        crop_right: sps.frame_cropping[1],
        crop_top: sps.frame_cropping[2],
        crop_bottom: sps.frame_cropping[3],
    }
}

/// Picture parameter set values as the driver takes them.
#[derive(Debug, Clone, Copy, PartialEq, Eq, Structural)]
pub struct StdPps {
    pub transform_8x8_mode: bool,
    pub redundant_pic_cnt_present: bool,
    pub constrained_intra_pred: bool,
    pub deblocking_filter_control_present: bool,
    pub weighted_pred: bool,
    pub bottom_field_pic_order_in_frame_present: bool,
    pub entropy_coding_mode: bool,
    pub pic_scaling_matrix_present: bool,
    pub seq_parameter_set_id: u8,
    pub pic_parameter_set_id: u8,
    pub num_ref_idx_l0_default_active_minus1: u8,
    pub num_ref_idx_l1_default_active_minus1: u8,
    pub weighted_bipred_idc: u32,
    pub pic_init_qp_minus26: i8,
    pub pic_init_qs_minus26: i8,
    pub chroma_qp_index_offset: i8,
    pub second_chroma_qp_index_offset: i8,
}

/// The values of a PPS in the form that the driver takes. The SPS named is
/// the active one.
pub fn build_std_pps(sps: &Sps, pps: &Pps) -> (p: StdPps)
    requires
        pps.num_ref_idx_l0_default >= 1,
        pps.num_ref_idx_l1_default >= 1,
    ensures
        p == (StdPps {
            transform_8x8_mode: pps.transform_8x8,
            redundant_pic_cnt_present: pps.redundant_pic_cnt_present,
            constrained_intra_pred: pps.constrained_intra,
            deblocking_filter_control_present: pps.deblocking_control_present,
            weighted_pred: pps.weighted_pred,
            bottom_field_pic_order_in_frame_present: pps.pic_order_present,
            entropy_coding_mode: pps.entropy_cabac,
            pic_scaling_matrix_present: pps.scaling is Some,
            seq_parameter_set_id: low8(sps.sps_id as int),
            pic_parameter_set_id: low8(pps.pps_id as int),
            num_ref_idx_l0_default_active_minus1: low8(pps.num_ref_idx_l0_default - 1),
            num_ref_idx_l1_default_active_minus1: low8(pps.num_ref_idx_l1_default - 1),
            weighted_bipred_idc: pps.weighted_bipred_idc,
            pic_init_qp_minus26: low8_signed(pps.pic_init_qp_minus26 as int),
            pic_init_qs_minus26: low8_signed(pps.pic_init_qs_minus26 as int),
            chroma_qp_index_offset: low8_signed(pps.chroma_qp_index_offset as int),
            second_chroma_qp_index_offset: low8_signed(pps.second_chroma_qp_index_offset as int),
        }),
{
    StdPps {
        transform_8x8_mode: pps.transform_8x8,
        redundant_pic_cnt_present: pps.redundant_pic_cnt_present,
        constrained_intra_pred: pps.constrained_intra,
        deblocking_filter_control_present: pps.deblocking_control_present,
        weighted_pred: pps.weighted_pred,
        bottom_field_pic_order_in_frame_present: pps.pic_order_present,
        entropy_coding_mode: pps.entropy_cabac,
        pic_scaling_matrix_present: pps.scaling.is_some(),
        seq_parameter_set_id: byte_of(sps.sps_id),
        pic_parameter_set_id: byte_of(pps.pps_id),
        num_ref_idx_l0_default_active_minus1: byte_of(pps.num_ref_idx_l0_default - 1),
        num_ref_idx_l1_default_active_minus1: byte_of(pps.num_ref_idx_l1_default - 1),
        weighted_bipred_idc: pps.weighted_bipred_idc,
        pic_init_qp_minus26: signed_byte_of(pps.pic_init_qp_minus26),
        pic_init_qs_minus26: signed_byte_of(pps.pic_init_qs_minus26),
        chroma_qp_index_offset: signed_byte_of(pps.chroma_qp_index_offset),
        second_chroma_qp_index_offset: signed_byte_of(pps.second_chroma_qp_index_offset),
    }
}

/// The scaling lists that the driver is given: those of the parameter set, or
/// flat ones.
pub fn std_scaling(lists: Option<&crate::h264::ScalingLists>) -> (s: crate::h264::ScalingLists)
    ensures
        s@ == (match lists {
            Some(l) => l@,
            None => crate::h264::ScalingListsView::flat(),
        }),
{
    match lists {
        Some(l) => crate::h264::ScalingLists {
            present_mask: l.present_mask,
            use_default_mask: l.use_default_mask,
            list_4x4: l.list_4x4,
            list_8x8: l.list_8x8,
        },
        None => crate::h264::ScalingLists::default(),
    }
}

/// The luma is copied at its own size from the start of the readback, the
/// chroma at half the width and half the height, right behind the luma.
pub proof fn chroma_is_copied_at_half_the_size(half_w: u32, half_h: u32, bytes_per_sample: u32)
    requires
        2 * half_w <= u32::MAX,
        2 * half_h <= u32::MAX,
        (2 * half_w) * (2 * half_h) * bytes_per_sample <= u32::MAX,
    ensures
        ({
            let (luma, chroma) = copies_of(
                (2 * half_w) as u32,
                (2 * half_h) as u32,
                bytes_per_sample,
            );
            &&& luma == PlaneCopy { offset: 0, width: (2 * half_w) as u32, height: (2 * half_h) as u32 }
            &&& chroma.width == half_w && chroma.height == half_h
            &&& chroma.offset == (2 * half_w) * (2 * half_h) * bytes_per_sample
        }),
{
}

/// The range of a bitstream is the least multiple of the alignment that holds
/// its bytes, and each slice starts where the one before it ends.
pub proof fn bitstream_range_is_the_least_multiple(
    b: Bitstream,
    nals: Seq<&[u8]>,
    align: u64,
    m: int,
    i: int,
)
    requires
        bitstream_ok(b, nals, align),
        align > 0,
        b.bytes@.len() <= m * align,
    ensures
        b.bytes@.len() <= b.range <= m * align,
        b.range as int % align as int == 0,
        nals.len() > 0 ==> b.offsets@[0] == 0,
        0 <= i < nals.len() - 1 ==> b.offsets@[i + 1] == b.offsets@[i] + 3 + nals[i]@.len(),
        nals.len() > 0 ==> b.bytes@.len() == b.offsets@[nals.len() - 1] + 3 + nals[nals.len()
            - 1]@.len(),
{
    let a = align as int;
    let r = b.range as int;
    vstd::arithmetic::div_mod::lemma_fundamental_div_mod(r, a);
    let q = r / a;
    assert(q <= m) by (nonlinear_arith)
        requires
            r == a * q,
            a > 0,
            r < m * a + a,
    ;
    assert(a * q <= m * a) by (nonlinear_arith)
        requires
            a > 0,
            q <= m,
    ;
    if nals.len() > 0 {
        assert(b.offsets@[0] == annex_b(nals, 0).len());
        assert(b.offsets@[nals.len() - 1] == annex_b(nals, (nals.len() - 1) as nat).len());
    }
    if 0 <= i < nals.len() - 1 {
        assert(b.offsets@[i] == annex_b(nals, i as nat).len());
        assert(b.offsets@[i + 1] == annex_b(nals, (i + 1) as nat).len());
    }
}

} // verus!
