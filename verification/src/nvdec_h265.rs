//! Reference management and session setup for hardware H.265 decode: Main and
//! Main 10 profiles, references driven by the reference picture set (HEVC has
//! no sliding window), two bytes per sample for 10-bit streams.
use crate::h265::{is_idr, is_irap, is_reference, H265Pps, H265SliceHeader, H265Sps, StRps, StRpsView};
use crate::nvdec::{
    byte_of, next_poc, signed_byte_of, unsupported_stream, write_bitstream, Bitstream, NvDecError,
    NvDecErrorView, PocStep,
};
use crate::text::{dec_signed_string, with_number};
use vstd::prelude::*;
use vstd::string::StringExecFns;

verus! {

/// Decoded coded-size frame. 8-bit: 1 byte/sample. 10-bit: 2 bytes/sample,
/// little-endian, value in the top 10 bits.
pub struct H265Frame {
    pub width: u32,
    pub height: u32,
    /// Stride in samples (multiply by bytes/sample for byte offsets).
    pub stride: u32,
    pub bit_depth: u8,
    pub y: Vec<u8>,
    pub uv: Vec<u8>,
}

/// One slot of the decoded picture buffer.
#[derive(Debug, Clone, Copy, PartialEq, Eq, Structural)]
pub struct H265Slot {
    pub active: bool,
    pub poc: i32,
    pub age: u64,
}

/// Reference state of an H.265 decode session.
pub struct H265Dpb {
    pub slots: Vec<H265Slot>,
    pub age_counter: u64,
    pub prev_poc_lsb: i32,
    pub prev_poc_msb: i32,
    pub log2_max_poc_lsb: u32,
}

/// Whether a NAL type is an IDR picture.
pub open spec fn idr_type(t: u8) -> bool {
    t == crate::h265::NAL_IDR_W_RADL || t == crate::h265::NAL_IDR_N_LP
}

/// Whether pictures of a NAL type set the POC state: reference pictures that
/// are not leading pictures.
pub open spec fn anchors_poc(t: u8) -> bool {
    (t >= 16 || t % 2 == 1) && !(6 <= t <= 9)
}

/// Whether a set names the picture with count `p`, for a current picture with
/// count `poc`.
pub open spec fn set_names(rps: StRpsView, poc: int, p: int) -> bool {
    ||| exists|k: int| 0 <= k < rps.neg.len() && poc + (#[trigger] rps.neg[k]).0 == p
    ||| exists|k: int| 0 <= k < rps.pos.len() && poc + (#[trigger] rps.pos[k]).0 == p
}

/// The slots in force for a picture: an IDR picture drops every reference,
/// another one those that its set does not name.
pub open spec fn slots_kept(slots: Seq<H265Slot>, idr: bool, rps: StRpsView, poc: int) -> Seq<
    H265Slot,
> {
    Seq::new(
        slots.len(),
        |i: int|
            H265Slot {
                active: slots[i].active && !idr && set_names(rps, poc, slots[i].poc as int),
                ..slots[i]
            },
    )
}

/// The counts of the used pictures among the first `n` of a half, nearest
/// first.
pub open spec fn used_pocs(half: Seq<(i32, bool)>, poc: int, n: nat) -> Seq<int>
    decreases n,
{
    if n == 0 {
        Seq::empty()
    } else {
        let s = used_pocs(half, poc, (n - 1) as nat);
        if half[n - 1].1 {
            s.push(poc + half[n - 1].0)
        } else {
            s
        }
    }
}

/// The first eight elements.
pub open spec fn first8(s: Seq<int>) -> Seq<int> {
    if s.len() <= 8 {
        s
    } else {
        s.take(8)
    }
}

/// Index of the first active slot with count `p`, or the number of slots.
pub open spec fn slot_of_poc(slots: Seq<H265Slot>, p: int) -> nat
    decreases slots.len(),
{
    if slots.len() == 0 || (slots[0].active && slots[0].poc == p) {
        0
    } else {
        1 + slot_of_poc(slots.skip(1), p)
    }
}

/// The slots of the pictures `pocs`.
pub open spec fn slots_of(slots: Seq<H265Slot>, pocs: Seq<int>) -> Seq<usize> {
    Seq::new(pocs.len(), |i: int| slot_of_poc(slots, pocs[i]) as usize)
}

/// Whether every picture of `pocs` has a slot.
pub open spec fn all_present(slots: Seq<H265Slot>, pocs: Seq<int>) -> bool {
    forall|i: int| 0 <= i < pocs.len() ==> slot_of_poc(slots, #[trigger] pocs[i]) < slots.len()
}

/// The driver's table of eight slots, filled up with 0xff.
pub open spec fn slot_table(list: Seq<usize>) -> Seq<u8> {
    Seq::new(
        8,
        |i: int|
            if i < list.len() {
                list[i] as u8
            } else {
                0xff
            },
    )
}

/// The first `n` elements, each once, in the order of their first occurrence.
pub open spec fn distinct(s: Seq<usize>, n: nat) -> Seq<usize>
    decreases n,
{
    if n == 0 {
        Seq::empty()
    } else {
        let d = distinct(s, (n - 1) as nat);
        if d.contains(s[n - 1]) {
            d
        } else {
            d.push(s[n - 1])
        }
    }
}

/// `i` is the slot to decode into: the first free one, else the oldest that
/// is not referenced, the first where ages are equal.
pub open spec fn is_setup_slot(slots: Seq<H265Slot>, refs: Seq<usize>, i: int) -> bool {
    &&& 0 <= i < slots.len()
    &&& !refs.contains(i as usize)
    &&& if exists|j: int| 0 <= j < slots.len() && !(#[trigger] slots[j]).active {
        &&& !slots[i].active
        &&& forall|j: int| 0 <= j < i ==> (#[trigger] slots[j]).active
    } else {
        forall|j: int|
            0 <= j < slots.len() && !refs.contains(j as usize) ==> slots[i].age <= (
            #[trigger] slots[j]).age && (j < i ==> slots[i].age < slots[j].age)
    }
}

/// What one picture needs to be decoded.
pub struct H265Plan {
    pub poc: i32,
    /// Slot to decode into.
    pub setup_idx: usize,
    /// Reference slots, each once.
    pub refs: Vec<usize>,
    /// Slots of the references before the picture, then 0xff.
    pub before_slots: [u8; 8],
    /// Slots of the references after the picture, then 0xff.
    pub after_slots: [u8; 8],
    /// Active slots other than the one to decode into.
    pub active: Vec<usize>,
    pub bitstream: Bitstream,
    /// Whether the picture may be referenced.
    pub is_ref: bool,
}

proof fn lemma_slot_of_poc(slots: Seq<H265Slot>, p: int, i: int)
    requires
        0 <= i <= slots.len(),
        forall|j: int| 0 <= j < i ==> !((#[trigger] slots[j]).active && slots[j].poc == p),
        i < slots.len() ==> slots[i].active && slots[i].poc == p,
    ensures
        slot_of_poc(slots, p) == i,
    decreases slots.len(),
{
    if i > 0 {
        assert(!(slots[0].active && slots[0].poc == p));
        let t = slots.skip(1);
        assert forall|j: int| 0 <= j < i - 1 implies !((#[trigger] t[j]).active && t[j].poc
            == p) by {
            assert(t[j] == slots[j + 1]);
        }
        lemma_slot_of_poc(t, p, i - 1);
    }
}

/// A slot found for a count is active and holds it.
proof fn lemma_slot_found(slots: Seq<H265Slot>, p: int)
    ensures
        slot_of_poc(slots, p) <= slots.len(),
        slot_of_poc(slots, p) < slots.len() ==> slots[slot_of_poc(slots, p) as int].active
            && slots[slot_of_poc(slots, p) as int].poc == p,
    decreases slots.len(),
{
    if slots.len() > 0 && !(slots[0].active && slots[0].poc == p) {
        lemma_slot_found(slots.skip(1), p);
    }
}

fn find_slot(slots: &Vec<H265Slot>, p: i64) -> (i: usize)
    ensures
        i == slot_of_poc(slots@, p as int),
        i <= slots@.len(),
{
    let mut i: usize = 0;
    while i < slots.len()
        invariant
            i <= slots@.len(),
            forall|j: int|
                0 <= j < i ==> !((#[trigger] slots@[j]).active && slots@[j].poc == p as int),
        decreases slots@.len() - i,
    {
        if slots[i].active && slots[i].poc as i64 == p {
            proof {
                lemma_slot_of_poc(slots@, p as int, i as int);
            }
            return i;
        }
        i = i + 1;
    }
    proof {
        lemma_slot_of_poc(slots@, p as int, i as int);
    }
    i
}

spec fn as_ints(v: Seq<i64>) -> Seq<int> {
    v.map_values(|x: i64| x as int)
}

fn list_used(half: &Vec<(i32, bool)>, poc: i32) -> (out: Vec<i64>)
    ensures
        as_ints(out@) == first8(used_pocs(half@, poc as int, half@.len())),
        out@.len() <= 8,
{
    let mut out: Vec<i64> = Vec::new();
    let mut i: usize = 0;
    let ghost mut all: Seq<int> = Seq::empty();
    assert(as_ints(out@) =~= Seq::empty());
    while i < half.len()
        invariant
            i <= half@.len(),
            all == used_pocs(half@, poc as int, i as nat),
            as_ints(out@) == first8(all),
            out@.len() <= 8,
            out@.len() < 8 ==> out@.len() == all.len(),
        decreases half@.len() - i,
    {
        if half[i].1 {
            let p: i64 = poc as i64 + half[i].0 as i64;
            let ghost before = out@;
            let ghost all0 = all;
            proof {
                all = all.push(p as int);
            }
            if out.len() < 8 {
                out.push(p);
                assert(as_ints(out@) =~= as_ints(before).push(p as int));
                assert(first8(all) =~= all);
            } else {
                assert(first8(all) =~= first8(all0));
            }
        }
        i = i + 1;
    }
    out
}

/// The error for a reference that is not in the buffer.
pub open spec fn missing_reference(p: int) -> NvDecErrorView {
    NvDecErrorView::Unsupported(
        "reference POC "@ + crate::text::dec_signed(p) + " not in DPB"@,
    )
}

fn missing_reference_error(p: i64) -> (e: NvDecError)
    requires
        p > i64::MIN,
    ensures
        e@ == missing_reference(p as int),
{
    let mut s = String::from_str("reference POC ");
    let n = dec_signed_string(p);
    s.append(n.as_str());
    s.append(" not in DPB");
    NvDecError::Unsupported(s)
}

/// The first picture of `pocs` without a slot.
pub open spec fn first_missing(slots: Seq<H265Slot>, pocs: Seq<int>) -> int
    decreases pocs.len(),
{
    if pocs.len() == 0 || slot_of_poc(slots, pocs[0]) == slots.len() {
        pocs[0]
    } else {
        first_missing(slots, pocs.skip(1))
    }
}

proof fn lemma_first_missing(slots: Seq<H265Slot>, pocs: Seq<int>, i: int)
    requires
        0 <= i < pocs.len(),
        forall|j: int|
            0 <= j < i ==> slot_of_poc(slots, #[trigger] pocs[j]) != slots.len(),
        slot_of_poc(slots, pocs[i]) == slots.len(),
    ensures
        first_missing(slots, pocs) == pocs[i],
    decreases pocs.len(),
{
    if i > 0 {
        assert(slot_of_poc(slots, pocs[0]) != slots.len());
        let t = pocs.skip(1);
        assert forall|j: int| 0 <= j < i - 1 implies slot_of_poc(slots, #[trigger] t[j])
            != slots.len() by {
            assert(t[j] == pocs[j + 1]);
        }
        lemma_first_missing(slots, t, i - 1);
        assert(t[i - 1] == pocs[i]);
    }
}

/// The slots of a list of pictures.
fn find_slots(slots: &Vec<H265Slot>, pocs: &Vec<i64>) -> (res: Result<Vec<usize>, NvDecError>)
    requires
        forall|i: int| 0 <= i < pocs@.len() ==> (#[trigger] pocs@[i]) > i64::MIN,
    ensures
        match res {
            Ok(v) => all_present(slots@, as_ints(pocs@)) && v@ == slots_of(slots@, as_ints(pocs@)),
            Err(e) => !all_present(slots@, as_ints(pocs@)) && e@ == missing_reference(
                first_missing(slots@, as_ints(pocs@)),
            ),
        },
{
    let ghost list = as_ints(pocs@);
    let mut out: Vec<usize> = Vec::new();
    let mut i: usize = 0;
    while i < pocs.len()
        invariant
            i <= pocs@.len(),
            list == as_ints(pocs@),
            forall|k: int| 0 <= k < pocs@.len() ==> (#[trigger] pocs@[k]) > i64::MIN,
            out@.len() == i,
            forall|k: int|
                0 <= k < i ==> slot_of_poc(slots@, #[trigger] list[k]) < slots@.len(),
            forall|k: int| 0 <= k < i ==> (#[trigger] out@[k]) == slot_of_poc(slots@, list[k]),
        decreases pocs@.len() - i,
    {
        let p: i64 = pocs[i];
        assert(list[i as int] == p as int);
        let s: usize = find_slot(slots, p);
        if s >= slots.len() {
            proof {
                lemma_first_missing(slots@, list, i as int);
            }
            return Err(missing_reference_error(p));
        }
        out.push(s);
        i = i + 1;
    }
    assert(out@ =~= slots_of(slots@, list));
    Ok(out)
}

fn table_of(list: &Vec<usize>) -> (t: [u8; 8])
    requires
        forall|i: int| 0 <= i < list@.len() ==> (#[trigger] list@[i]) < 256,
    ensures
        t@ == slot_table(list@),
{
    let mut t: [u8; 8] = [0xff; 8];
    let mut i: usize = 0;
    while i < 8 && i < list.len()
        invariant
            i <= 8,
            i <= list@.len(),
            forall|k: int| 0 <= k < list@.len() ==> (#[trigger] list@[k]) < 256,
            forall|k: int| 0 <= k < i ==> t@[k] == list@[k] as u8,
            forall|k: int| i <= k < 8 ==> t@[k] == 0xff,
        decreases 8 - i,
    {
        t[i] = list[i] as u8;
        i = i + 1;
    }
    assert(t@ =~= slot_table(list@));
    t
}

fn contains(v: &Vec<usize>, x: usize) -> (b: bool)
    ensures
        b == v@.contains(x),
{
    let mut i: usize = 0;
    while i < v.len()
        invariant
            i <= v@.len(),
            forall|k: int| 0 <= k < i ==> v@[k] != x,
        decreases v@.len() - i,
    {
        if v[i] == x {
            return true;
        }
        i = i + 1;
    }
    false
}

fn distinct_of(a: &Vec<usize>, b: &Vec<usize>) -> (d: Vec<usize>)
    requires
        a@.len() + b@.len() <= usize::MAX,
    ensures
        d@ == distinct(a@ + b@, (a@ + b@).len()),
{
    let ghost all = a@ + b@;
    let mut d: Vec<usize> = Vec::new();
    let n: usize = a.len() + b.len();
    let mut i: usize = 0;
    while i < n
        invariant
            i <= n,
            n == a@.len() + b@.len(),
            all == a@ + b@,
            d@ == distinct(all, i as nat),
        decreases n - i,
    {
        let x: usize = if i < a.len() {
            a[i]
        } else {
            b[i - a.len()]
        };
        assert(all[i as int] == x);
        if !contains(&d, x) {
            d.push(x);
        }
        i = i + 1;
    }
    d
}

/// The distinct elements are those of the list.
proof fn lemma_distinct(s: Seq<usize>, n: nat)
    requires
        n <= s.len(),
    ensures
        forall|x: usize|
            #[trigger] distinct(s, n).contains(x) <==> s.take(n as int).contains(x),
        distinct(s, n).no_duplicates(),
    decreases n,
{
    if n > 0 {
        lemma_distinct(s, (n - 1) as nat);
        let d0 = distinct(s, (n - 1) as nat);
        let d = distinct(s, n);
        let t0 = s.take(n - 1);
        let t = s.take(n as int);
        assert(t =~= t0.push(s[n - 1]));
        assert forall|x: usize| #[trigger] d.contains(x) <==> t.contains(x) by {
            if d.contains(x) {
                if d0.contains(x) {
                    let k = choose|k: int| 0 <= k < t0.len() && t0[k] == x;
                    assert(t[k] == x);
                } else {
                    assert(x == s[n - 1]);
                    assert(t[n - 1] == x);
                }
            }
            if t.contains(x) {
                let k = choose|k: int| 0 <= k < t.len() && t[k] == x;
                if k < n - 1 {
                    assert(t0[k] == x);
                    assert(d0.contains(x));
                    let j = choose|j: int| 0 <= j < d0.len() && d0[j] == x;
                    assert(d[j] == x);
                } else {
                    if d0.contains(x) {
                        let j = choose|j: int| 0 <= j < d0.len() && d0[j] == x;
                        assert(d[j] == x);
                    } else {
                        assert(d[d0.len() as int] == x);
                    }
                }
            }
        }
    } else {
        assert(s.take(0) =~= Seq::empty());
    }
}

/// Whether a set names the picture with count `p`.
fn names(rps: &StRps, poc: i32, p: i32) -> (b: bool)
    ensures
        b == set_names(rps@, poc as int, p as int),
{
    let mut k: usize = 0;
    while k < rps.neg.len()
        invariant
            k <= rps.neg@.len(),
            forall|j: int| 0 <= j < k ==> poc + (#[trigger] rps.neg@[j]).0 != p,
        decreases rps.neg@.len() - k,
    {
        if poc as i64 + rps.neg[k].0 as i64 == p as i64 {
            assert(poc + rps@.neg[k as int].0 == p);
            return true;
        }
        k = k + 1;
    }
    let mut k: usize = 0;
    while k < rps.pos.len()
        invariant
            k <= rps.pos@.len(),
            forall|j: int| 0 <= j < k ==> poc + (#[trigger] rps.pos@[j]).0 != p,
        decreases rps.pos@.len() - k,
    {
        if poc as i64 + rps.pos[k].0 as i64 == p as i64 {
            assert(poc + rps@.pos[k as int].0 == p);
            return true;
        }
        k = k + 1;
    }
    false
}

/// Drops the references that are not kept.
fn keep_named(slots: &mut Vec<H265Slot>, idr: bool, rps: &StRps, poc: i32)
    ensures
        final(slots)@ == slots_kept(old(slots)@, idr, rps@, poc as int),
{
    let ghost before = slots@;
    let ghost after = slots_kept(before, idr, rps@, poc as int);
    let mut i: usize = 0;
    while i < slots.len()
        invariant
            i <= slots@.len(),
            slots@.len() == before.len(),
            after == slots_kept(before, idr, rps@, poc as int),
            forall|k: int| 0 <= k < i ==> (#[trigger] slots@[k]) == after[k],
            forall|k: int| i <= k < before.len() ==> (#[trigger] slots@[k]) == before[k],
        decreases before.len() - i,
    {
        let s: H265Slot = slots[i];
        let keep = s.active && !idr && names(rps, poc, s.poc);
        slots.set(i, H265Slot { active: keep, ..s });
        assert(slots@[i as int] == after[i as int]);
        i = i + 1;
    }
    assert(slots@ =~= after);
}

/// Finds the slot to decode into, unless every slot is referenced.
fn find_setup(slots: &Vec<H265Slot>, refs: &Vec<usize>) -> (res: Option<usize>)
    requires
        forall|k: int|
            0 <= k < refs@.len() ==> (#[trigger] refs@[k]) < slots@.len()
                && slots@[refs@[k] as int].active,
    ensures
        match res {
            Some(i) => is_setup_slot(slots@, refs@, i as int),
            None => forall|i: int|
                0 <= i < slots@.len() ==> refs@.contains(#[trigger] (i as usize)),
        },
{
    let mut i: usize = 0;
    while i < slots.len()
        invariant
            i <= slots@.len(),
            forall|k: int|
                0 <= k < refs@.len() ==> (#[trigger] refs@[k]) < slots@.len()
                    && slots@[refs@[k] as int].active,
            forall|j: int| 0 <= j < i ==> (#[trigger] slots@[j]).active,
        decreases slots@.len() - i,
    {
        if !slots[i].active {
            assert(!slots@[i as int].active);
            assert(!refs@.contains(i));
            return Some(i);
        }
        i = i + 1;
    }
    let mut best: Option<usize> = None;
    let mut i: usize = 0;
    while i < slots.len()
        invariant
            i <= slots@.len(),
            match best {
                None => forall|j: int| 0 <= j < i ==> refs@.contains(#[trigger] (j as usize)),
                Some(b) => {
                    &&& b < i
                    &&& !refs@.contains(b)
                    &&& forall|j: int|
                        0 <= j < i && !refs@.contains(j as usize) ==> slots@[b as int].age <= (
                        #[trigger] slots@[j]).age && (j < b ==> slots@[b as int].age
                            < slots@[j].age)
                },
            },
        decreases slots@.len() - i,
    {
        if !contains(refs, i) {
            match best {
                None => {
                    proof {
                        assert forall|j: int| 0 <= j < i implies refs@.contains(
                            #[trigger] (j as usize),
                        ) by {}
                    }
                    best = Some(i);
                },
                Some(b) => {
                    if slots[i].age < slots[b].age {
                        best = Some(i);
                    }
                },
            }
        }
        i = i + 1;
    }
    best
}

/// `list` holds the active slots other than `setup`, in order.
pub open spec fn is_active_list(slots: Seq<H265Slot>, setup: int, list: Seq<usize>) -> bool {
    &&& forall|a: int, b: int| 0 <= a < b < list.len() ==> (#[trigger] list[a]) < (
    #[trigger] list[b])
    &&& forall|k: int|
        0 <= k < list.len() ==> (#[trigger] list[k]) < slots.len() && list[k] != setup
            && slots[list[k] as int].active
    &&& forall|i: int|
        0 <= i < slots.len() && i != setup && (#[trigger] slots[i]).active ==> list.contains(
            i as usize,
        )
}

fn list_active(slots: &Vec<H265Slot>, setup: usize) -> (list: Vec<usize>)
    ensures
        is_active_list(slots@, setup as int, list@),
{
    let mut list: Vec<usize> = Vec::new();
    let mut i: usize = 0;
    while i < slots.len()
        invariant
            i <= slots@.len(),
            forall|a: int, b: int|
                0 <= a < b < list@.len() ==> (#[trigger] list@[a]) < (#[trigger] list@[b]),
            forall|k: int|
                0 <= k < list@.len() ==> (#[trigger] list@[k]) < i && list@[k] != setup
                    && slots@[list@[k] as int].active,
            forall|j: int|
                0 <= j < i && j != setup && (#[trigger] slots@[j]).active ==> list@.contains(
                    j as usize,
                ),
        decreases slots@.len() - i,
    {
        if i != setup && slots[i].active {
            let ghost before = list@;
            list.push(i);
            proof {
                assert(list@[before.len() as int] == i);
                assert forall|j: int|
                    0 <= j < i + 1 && j != setup && (
                    #[trigger] slots@[j]).active implies list@.contains(j as usize) by {
                    if j < i {
                        assert(before.contains(j as usize));
                        let k = choose|k: int| 0 <= k < before.len() && before[k] == j as usize;
                        assert(list@[k] == j as usize);
                    }
                }
            }
        }
        i = i + 1;
    }
    list
}

impl H265Dpb {
    /// The buffer has a slot, its slots can be numbered in a byte, and no age
    /// is ahead of the counter.
    pub open spec fn wf(&self) -> bool {
        &&& 1 <= self.slots@.len() <= 255
        &&& forall|i: int|
            0 <= i < self.slots@.len() ==> (#[trigger] self.slots@[i]).age <= self.age_counter
    }

    /// The POC of a picture with this header, and the state that it leaves.
    pub open spec fn poc_of(&self, h: H265SliceHeader) -> Option<PocStep> {
        if idr_type(h.nal_type) {
            Some(PocStep { poc: 0, prev_lsb: 0, prev_msb: 0 })
        } else {
            crate::nvdec::poc_step(
                self.prev_poc_lsb as int,
                self.prev_poc_msb as int,
                h.poc_lsb as nat,
                self.log2_max_poc_lsb as nat,
                anchors_poc(h.nal_type),
            )
        }
    }

    /// An empty buffer of `max_slots` slots.
    pub fn new(sps: &H265Sps, max_slots: usize) -> (dpb: Self)
        requires
            1 <= max_slots <= 255,
        ensures
            dpb.wf(),
            dpb.slots@ == Seq::new(
                max_slots as nat,
                |i: int| H265Slot { active: false, poc: 0, age: 0 },
            ),
            dpb.age_counter == 0,
            dpb.prev_poc_lsb == 0,
            dpb.prev_poc_msb == 0,
            dpb.log2_max_poc_lsb == sps.log2_max_poc_lsb,
    {
        let mut slots: Vec<H265Slot> = Vec::new();
        let mut i: usize = 0;
        while i < max_slots
            invariant
                i <= max_slots,
                slots@ == Seq::new(
                    i as nat,
                    |k: int| H265Slot { active: false, poc: 0, age: 0 },
                ),
            decreases max_slots - i,
        {
            slots.push(H265Slot { active: false, poc: 0, age: 0 });
            i = i + 1;
        }
        H265Dpb {
            slots,
            age_counter: 0,
            prev_poc_lsb: 0,
            prev_poc_msb: 0,
            log2_max_poc_lsb: sps.log2_max_poc_lsb,
        }
    }

    /// PicOrderCntVal: msb wrap over poc_lsb; IDR resets to 0. A count that
    /// does not fit 32 bits is an error and leaves the state as it was.
    pub fn compute_poc(&mut self, header: &H265SliceHeader) -> (res: Result<i32, NvDecError>)
        ensures
            final(self).slots@ == old(self).slots@,
            final(self).age_counter == old(self).age_counter,
            final(self).log2_max_poc_lsb == old(self).log2_max_poc_lsb,
            match res {
                Ok(poc) => old(self).poc_of(*header) == Some(
                    PocStep {
                        poc: poc as int,
                        prev_lsb: final(self).prev_poc_lsb as int,
                        prev_msb: final(self).prev_poc_msb as int,
                    },
                ),
                Err(e) => old(self).poc_of(*header) is None && e@ == NvDecErrorView::Unsupported(
                    "picture order count out of range"@,
                ) && final(self).prev_poc_lsb == old(self).prev_poc_lsb
                    && final(self).prev_poc_msb == old(self).prev_poc_msb,
            },
            header.nal_type == 19 || header.nal_type == 20 ==> (res matches Ok(poc) && poc == 0
                && final(self).prev_poc_lsb == 0 && final(self).prev_poc_msb == 0),
            (header.nal_type % 2 == 1 || header.nal_type >= 16) && (header.nal_type < 6
                || header.nal_type > 9) ==> (res matches Ok(poc) ==> final(self).prev_poc_msb
                + final(self).prev_poc_lsb == poc),
            6 <= header.nal_type <= 9 || (header.nal_type < 16 && header.nal_type % 2 == 0)
                ==> final(self).prev_poc_lsb == old(self).prev_poc_lsb && final(self).prev_poc_msb
                == old(self).prev_poc_msb,
    {
        if is_idr(header.nal_type) {
            self.prev_poc_lsb = 0;
            self.prev_poc_msb = 0;
            return Ok(0);
        }
        let leading = 6 <= header.nal_type && header.nal_type <= 9;
        match next_poc(
            self.prev_poc_lsb,
            self.prev_poc_msb,
            header.poc_lsb,
            self.log2_max_poc_lsb,
            is_reference(header.nal_type) && !leading,
        ) {
            Some((poc, l, m)) => {
                self.prev_poc_lsb = l;
                self.prev_poc_msb = m;
                Ok(poc)
            },
            None => Err(unsupported_stream("picture order count out of range")),
        }
    }

    /// Everything that decoding a picture needs: its POC, the slot to decode
    /// into, the references on both sides, and the bitstream. The errors, in
    /// the order in which they are found: a POC out of range (nothing
    /// changes), a used reference that is not in the buffer, a bitstream that
    /// does not fit, no slot to decode into; the later three keep the new POC
    /// state and the dropped references.
    pub fn prepare(
        &mut self,
        nals: &[&[u8]],
        header: &H265SliceHeader,
        cap: usize,
        align: u64,
    ) -> (res: Result<H265Plan, NvDecError>)
        requires
            old(self).wf(),
            cap <= u32::MAX,
            align <= u64::MAX - cap,
        ensures
            final(self).wf(),
            final(self).age_counter == old(self).age_counter,
            final(self).log2_max_poc_lsb == old(self).log2_max_poc_lsb,
            match old(self).poc_of(*header) {
                None => {
                    &&& final(self).slots@ == old(self).slots@
                    &&& final(self).prev_poc_lsb == old(self).prev_poc_lsb
                    &&& final(self).prev_poc_msb == old(self).prev_poc_msb
                    &&& res matches Err(e) && e@ == NvDecErrorView::Unsupported(
                        "picture order count out of range"@,
                    )
                },
                Some(step) => {
                    let rps = header.rps@;
                    let slots = slots_kept(
                        old(self).slots@,
                        idr_type(header.nal_type),
                        rps,
                        step.poc,
                    );
                    let before = first8(used_pocs(rps.neg, step.poc, rps.neg.len()));
                    let after = first8(used_pocs(rps.pos, step.poc, rps.pos.len()));
                    let list = slots_of(slots, before) + slots_of(slots, after);
                    let refs = distinct(list, list.len());
                    let fits = crate::nvdec::annex_b(nals@, nals@.len()).len() <= cap;
                    &&& final(self).slots@ == slots
                    &&& final(self).prev_poc_lsb == step.prev_lsb
                    &&& final(self).prev_poc_msb == step.prev_msb
                    &&& match res {
                        Ok(plan) => {
                            &&& all_present(slots, before) && all_present(slots, after) && fits
                            &&& plan.poc == step.poc
                            &&& plan.refs@ == refs
                            &&& plan.before_slots@ == slot_table(slots_of(slots, before))
                            &&& plan.after_slots@ == slot_table(slots_of(slots, after))
                            &&& is_setup_slot(slots, refs, plan.setup_idx as int)
                            &&& is_active_list(slots, plan.setup_idx as int, plan.active@)
                            &&& crate::nvdec::bitstream_ok(plan.bitstream, nals@, align)
                            &&& plan.is_ref == (header.nal_type >= 16 || header.nal_type % 2 == 1)
                        },
                        Err(e) => if !all_present(slots, before) {
                            e@ == missing_reference(first_missing(slots, before))
                        } else if !all_present(slots, after) {
                            e@ == missing_reference(first_missing(slots, after))
                        } else if !fits {
                            e@ == NvDecErrorView::Unsupported("bitstream buffer overflow"@)
                        } else {
                            &&& forall|i: int|
                                0 <= i < slots.len() ==> refs.contains(#[trigger] (i as usize))
                            &&& e@ == NvDecErrorView::Unsupported("no free DPB slot"@)
                        },
                    }
                },
            },
    {
        let poc: i32 = match self.compute_poc(header) {
            Ok(p) => p,
            Err(e) => {
                return Err(e);
            },
        };
        keep_named(&mut self.slots, is_idr(header.nal_type), &header.rps, poc);
        let before = list_used(&header.rps.neg, poc);
        let after = list_used(&header.rps.pos, poc);
        proof {
            lemma_used_range(header.rps@.neg, poc as int, header.rps@.neg.len());
            lemma_used_range(header.rps@.pos, poc as int, header.rps@.pos.len());
            assert forall|i: int| 0 <= i < before@.len() implies (#[trigger] before@[i])
                > i64::MIN by {
                assert(as_ints(before@)[i] == before@[i] as int);
            }
            assert forall|i: int| 0 <= i < after@.len() implies (#[trigger] after@[i])
                > i64::MIN by {
                assert(as_ints(after@)[i] == after@[i] as int);
            }
        }
        let before_list = match find_slots(&self.slots, &before) {
            Ok(v) => v,
            Err(e) => {
                return Err(e);
            },
        };
        let after_list = match find_slots(&self.slots, &after) {
            Ok(v) => v,
            Err(e) => {
                return Err(e);
            },
        };
        let bitstream = match write_bitstream(nals, cap, align) {
            Ok(b) => b,
            Err(e) => {
                return Err(e);
            },
        };
        let refs = distinct_of(&before_list, &after_list);
        proof {
            let slots = self.slots@;
            let list = before_list@ + after_list@;
            lemma_distinct(list, list.len());
            assert(list.take(list.len() as int) =~= list);
            assert forall|k: int| 0 <= k < list.len() implies (#[trigger] list[k]) < slots.len()
                && slots[list[k] as int].active by {
                if k < before_list@.len() {
                    lemma_slot_found(slots, as_ints(before@)[k]);
                } else {
                    lemma_slot_found(slots, as_ints(after@)[k - before_list@.len()]);
                }
            }
            assert forall|k: int| 0 <= k < refs@.len() implies (#[trigger] refs@[k]) < slots.len()
                && slots[refs@[k] as int].active by {
                assert(refs@.contains(refs@[k]));
                let j = choose|j: int| 0 <= j < list.len() && list[j] == refs@[k];
                assert(list[j] < slots.len());
            }
            assert forall|k: int| 0 <= k < before_list@.len() implies (#[trigger] before_list@[k])
                < 256 by {
                assert(list[k] == before_list@[k]);
            }
            assert forall|k: int| 0 <= k < after_list@.len() implies (#[trigger] after_list@[k])
                < 256 by {
                assert(list[k + before_list@.len()] == after_list@[k]);
            }
        }
        let setup_idx: usize = match find_setup(&self.slots, &refs) {
            Some(i) => i,
            None => {
                return Err(unsupported_stream("no free DPB slot"));
            },
        };
        let active = list_active(&self.slots, setup_idx);
        Ok(
            H265Plan {
                poc,
                setup_idx,
                refs,
                before_slots: table_of(&before_list),
                after_slots: table_of(&after_list),
                active,
                bitstream,
                is_ref: is_reference(header.nal_type),
            },
        )
    }

    /// Bookkeeping after a decode: the picture enters its slot.
    pub fn finish(&mut self, plan: &H265Plan)
        requires
            old(self).wf(),
            plan.setup_idx < old(self).slots@.len(),
            old(self).age_counter < u64::MAX,
        ensures
            final(self).wf(),
            final(self).age_counter == old(self).age_counter + 1,
            final(self).prev_poc_lsb == old(self).prev_poc_lsb,
            final(self).prev_poc_msb == old(self).prev_poc_msb,
            final(self).log2_max_poc_lsb == old(self).log2_max_poc_lsb,
            final(self).slots@ == old(self).slots@.update(
                plan.setup_idx as int,
                H265Slot {
                    active: plan.is_ref,
                    poc: plan.poc,
                    age: (old(self).age_counter + 1) as u64,
                },
            ),
    {
        self.age_counter = self.age_counter + 1;
        let age: u64 = self.age_counter;
        self.slots.set(plan.setup_idx, H265Slot { active: plan.is_ref, poc: plan.poc, age });
    }
}

/// The counts of a set fit 33 bits.
proof fn lemma_used_range(half: Seq<(i32, bool)>, poc: int, n: nat)
    requires
        n <= half.len(),
        i32::MIN <= poc <= i32::MAX,
    ensures
        forall|i: int|
            0 <= i < used_pocs(half, poc, n).len() ==> -0x1_0000_0000 <= #[trigger] used_pocs(
                half,
                poc,
                n,
            )[i] <= 0x1_0000_0000,
    decreases n,
{
    if n > 0 {
        lemma_used_range(half, poc, (n - 1) as nat);
        let short = used_pocs(half, poc, (n - 1) as nat);
        let long = used_pocs(half, poc, n);
        assert forall|i: int| 0 <= i < long.len() implies -0x1_0000_0000 <= #[trigger] long[i]
            <= 0x1_0000_0000 by {
            if i < short.len() {
                assert(long[i] == short[i]);
            }
        }
    }
}

/// A picture is never decoded over one that it references: the references of
/// a plan are active slots, each listed once, and the slot to decode into is
/// not among them.
pub proof fn references_survive_the_decode(
    slots: Seq<H265Slot>,
    before: Seq<int>,
    after: Seq<int>,
    setup: int,
)
    requires
        all_present(slots, before),
        all_present(slots, after),
        slots.len() <= usize::MAX,
        ({
            let list = slots_of(slots, before) + slots_of(slots, after);
            is_setup_slot(slots, distinct(list, list.len()), setup)
        }),
    ensures
        ({
            let list = slots_of(slots, before) + slots_of(slots, after);
            let refs = distinct(list, list.len());
            &&& refs.no_duplicates()
            &&& forall|k: int|
                0 <= k < refs.len() ==> (#[trigger] refs[k]) < slots.len() && refs[k] != setup
                    && slots[refs[k] as int].active
        }),
{
    let list = slots_of(slots, before) + slots_of(slots, after);
    let refs = distinct(list, list.len());
    lemma_distinct(list, list.len());
    assert(list.take(list.len() as int) =~= list);
    assert forall|k: int| 0 <= k < list.len() implies (#[trigger] list[k]) < slots.len()
        && slots[list[k] as int].active by {
        if k < before.len() {
            lemma_slot_found(slots, before[k]);
        } else {
            lemma_slot_found(slots, after[k - before.len()]);
        }
    }
    assert forall|k: int| 0 <= k < refs.len() implies (#[trigger] refs[k]) < slots.len() && refs[k]
        != setup && slots[refs[k] as int].active by {
        assert(refs.contains(refs[k]));
        let j = choose|j: int| 0 <= j < list.len() && list[j] == refs[k];
        assert(list[j] < slots.len());
    }
}

// ---- session setup ----

/// Whether the driver's profile list has this profile: Main or Main 10, whose
/// enumerators are their own numbers.
pub open spec fn profile_supported(idc: u8) -> bool {
    idc == 1 || idc == 2
}

/// The driver's profile enumerator of a profile_idc.
pub fn profile_to_std(idc: u8) -> (res: Result<u32, NvDecError>)
    ensures
        match res {
            Ok(p) => profile_supported(idc) && p == idc && 1 <= idc <= 2,
            Err(e) => !profile_supported(idc) && idc != 1 && idc != 2 && e@ == NvDecErrorView::Unsupported(
                "HEVC profile_idc "@ + crate::text::dec(idc as nat) + " (Main/Main10 only)"@,
            ),
        },
{
    if idc == 1 || idc == 2 {
        Ok(idc as u32)
    } else {
        Err(
            NvDecError::Unsupported(
                with_number("HEVC profile_idc ", idc as u64, " (Main/Main10 only)"),
            ),
        )
    }
}

/// Position in the driver's list of levels, 1.0 to 6.2, of the first level
/// that is not below `level_idc` (thirty times the level).
pub open spec fn level_rank(level_idc: u8) -> u32 {
    if level_idc <= 30 {
        0
    } else if level_idc <= 60 {
        1
    } else if level_idc <= 63 {
        2
    } else if level_idc <= 90 {
        3
    } else if level_idc <= 93 {
        4
    } else if level_idc <= 120 {
        5
    } else if level_idc <= 123 {
        6
    } else if level_idc <= 150 {
        7
    } else if level_idc <= 153 {
        8
    } else if level_idc <= 156 {
        9
    } else if level_idc <= 180 {
        10
    } else if level_idc <= 183 {
        11
    } else {
        12
    }
}

/// The driver's level enumerator of a level_idc.
pub fn level_to_std(level_idc: u8) -> (r: u32)
    ensures
        r == level_rank(level_idc),
{
    let bounds: [u8; 12] = [30, 60, 63, 90, 93, 120, 123, 150, 153, 156, 180, 183];
    let ghost list: Seq<u8> = seq![30, 60, 63, 90, 93, 120, 123, 150, 153, 156, 180, 183];
    assert(bounds@ =~= list);
    let mut i: usize = 0;
    while i < 12
        invariant
            i <= 12,
            bounds@ == list,
            list == seq![30u8, 60, 63, 90, 93, 120, 123, 150, 153, 156, 180, 183],
            i > 0 ==> level_idc > list[i - 1],
        decreases 12 - i,
    {
        if level_idc <= bounds[i] {
            assert(i == 0 || i == 1 || i == 2 || i == 3 || i == 4 || i == 5 || i == 6 || i == 7 || i
                == 8 || i == 9 || i == 10 || i == 11);
            return i as u32;
        }
        i = i + 1;
    }
    12
}

/// A higher level has no lower place in the driver's list.
pub proof fn levels_keep_their_order(a: u8, b: u8)
    requires
        a <= b,
    ensures
        level_rank(a) <= level_rank(b),
{
}

/// A reference picture set in the explicit form that the driver takes.
#[derive(Debug, Clone, Copy)]
pub struct StdRps {
    pub num_negative: u8,
    pub num_positive: u8,
    pub delta_s0_minus1: [u16; 16],
    pub delta_s1_minus1: [u16; 16],
    pub used_s0: u16,
    pub used_s1: u16,
}

/// The coded step from the delta before entry `j` of a half to that entry.
pub open spec fn step_of(half: Seq<(i32, bool)>, j: int, negative: bool) -> int {
    let before = if j == 0 {
        0
    } else {
        half[j - 1].0 as int
    };
    if negative {
        before - half[j].0 - 1
    } else {
        half[j].0 - before - 1
    }
}

/// The steps of a half in the driver's table of 16, each in 16 bits.
pub open spec fn steps_of(half: Seq<(i32, bool)>, negative: bool) -> Seq<u16> {
    Seq::new(
        16,
        |j: int|
            if j < half.len() {
                (step_of(half, j, negative) % 0x1_0000) as u16
            } else {
                0
            },
    )
}

/// The used flags of the first `n` entries of a half, as bits.
pub open spec fn used_mask(half: Seq<(i32, bool)>, n: nat) -> u16
    decreases n,
{
    if n == 0 {
        0
    } else if half[n - 1].1 {
        used_mask(half, (n - 1) as nat) | (1u16 << ((n - 1) as u16))
    } else {
        used_mask(half, (n - 1) as nat)
    }
}

/// Bit `j` of the mask is the used flag of entry `j`.
pub proof fn used_mask_holds_the_flags(half: Seq<(i32, bool)>, n: nat, j: nat)
    requires
        n <= half.len(),
        n <= 16,
        j < 16,
    ensures
        (used_mask(half, n) & (1u16 << (j as u16)) != 0) <==> (j < n && half[j as int].1),
    decreases n,
{
    let b = 1u16 << (j as u16);
    if n == 0 {
        assert(0u16 & b == 0) by (bit_vector);
    } else {
        used_mask_holds_the_flags(half, (n - 1) as nat, j);
        let m = used_mask(half, (n - 1) as nat);
        let k = (n - 1) as u16;
        let i = j as u16;
        if half[n - 1].1 {
            assert((m | (1u16 << k)) & (1u16 << i) != 0 <==> (m & (1u16 << i) != 0 || i == k))
                by (bit_vector)
                requires
                    k < 16,
                    i < 16,
            ;
        }
    }
}

fn steps(half: &Vec<(i32, bool)>, negative: bool) -> (t: ([u16; 16], u16))
    requires
        half@.len() <= 16,
    ensures
        t.0@ == steps_of(half@, negative),
        t.1 == used_mask(half@, half@.len()),
{
    let mut deltas: [u16; 16] = [0; 16];
    let mut mask: u16 = 0;
    let mut prev: i64 = 0;
    let mut j: usize = 0;
    while j < half.len()
        invariant
            j <= half@.len() <= 16,
            prev == (if j == 0 {
                0
            } else {
                half@[j - 1].0 as int
            }),
            mask == used_mask(half@, j as nat),
            forall|k: int|
                0 <= k < j ==> deltas@[k] == (step_of(half@, k, negative) % 0x1_0000) as u16,
            forall|k: int| j <= k < 16 ==> deltas@[k] == 0,
        decreases half@.len() - j,
    {
        let d: i64 = half[j].0 as i64;
        let step: i64 = if negative {
            prev - d - 1
        } else {
            d - prev - 1
        };
        let low: i64 = ((step % 0x1_0000) + 0x1_0000) % 0x1_0000;
        assert(low == step as int % 0x1_0000);
        deltas[j] = low as u16;
        if half[j].1 {
            mask = mask | (1u16 << j as u16);
        }
        prev = d;
        j = j + 1;
    }
    assert(deltas@ =~= steps_of(half@, negative));
    (deltas, mask)
}

/// A resolved set in explicit (not predicted) form.
pub fn std_st_rps(s: &StRps) -> (r: StdRps)
    requires
        s.neg@.len() <= 16,
        s.pos@.len() <= 16,
    ensures
        r.num_negative == s.neg@.len(),
        r.num_positive == s.pos@.len(),
        r.delta_s0_minus1@ == steps_of(s.neg@, true),
        r.delta_s1_minus1@ == steps_of(s.pos@, false),
        r.used_s0 == used_mask(s.neg@, s.neg@.len()),
        r.used_s1 == used_mask(s.pos@, s.pos@.len()),
{
    let (delta_s0_minus1, used_s0) = steps(&s.neg, true);
    let (delta_s1_minus1, used_s1) = steps(&s.pos, false);
    StdRps {
        num_negative: s.neg.len() as u8,
        num_positive: s.pos.len() as u8,
        delta_s0_minus1,
        delta_s1_minus1,
        used_s0,
        used_s1,
    }
}

/// The explicit form loses nothing: in a set that names its nearest pictures
/// first, with steps of at most 16 bits, each delta is the one before it moved
/// outward by the coded step plus one.
pub proof fn explicit_form_keeps_the_deltas(s: StRpsView, j: int)
    requires
        s.nearest_first(),
        s.neg.len() <= 16,
        s.pos.len() <= 16,
        forall|k: int| 0 <= k < s.neg.len() ==> #[trigger] step_of(s.neg, k, true) < 0x1_0000,
        forall|k: int| 0 <= k < s.pos.len() ==> #[trigger] step_of(s.pos, k, false) < 0x1_0000,
    ensures
        0 <= j < s.neg.len() ==> s.neg[j].0 == (if j == 0 {
            0
        } else {
            s.neg[j - 1].0 as int
        }) - (steps_of(s.neg, true)[j] + 1),
        0 <= j < s.pos.len() ==> s.pos[j].0 == (if j == 0 {
            0
        } else {
            s.pos[j - 1].0 as int
        }) + (steps_of(s.pos, false)[j] + 1),
{
    if 0 <= j < s.neg.len() {
        assert(step_of(s.neg, j, true) < 0x1_0000);
        assert(s.neg[j].0 < 0);
        if j > 0 {
            assert(s.neg[j - 1].0 > s.neg[j].0);
        }
    }
    if 0 <= j < s.pos.len() {
        assert(step_of(s.pos, j, false) < 0x1_0000);
        assert(s.pos[j].0 > 0);
        if j > 0 {
            assert(s.pos[j - 1].0 < s.pos[j].0);
        }
    }
}

/// Bytes of the bitstream buffer.
pub const H265_BITSTREAM_CAP: usize = 0x80_0000;

/// The number of references a stream may hold: its DPB size, from 1 to 8.
pub open spec fn max_refs_of(max_dec_pic_buffering: u8) -> int {
    if max_dec_pic_buffering < 1 {
        1
    } else if max_dec_pic_buffering > 8 {
        8
    } else {
        max_dec_pic_buffering as int
    }
}

/// Bytes per sample at a bit depth.
pub open spec fn bytes_per_sample(bit_depth: u8) -> int {
    if bit_depth == 10 {
        2
    } else {
        1
    }
}

/// Sizes the session for a stream. A driver in which the DPB and the output do
/// not coincide needs a distinct output image.
pub fn session_size(sps: &H265Sps, coincide: bool, caps_max_dpb_slots: u32) -> (s:
    crate::nvdec::SessionSize)
    requires
        sps.width * sps.height * 3 <= usize::MAX,
    ensures
        s.coded_w == sps.width,
        s.coded_h == sps.height,
        s.max_refs == max_refs_of(sps.max_dec_pic_buffering),
        s.max_slots == crate::nvdec::slots_for_refs(
            max_refs_of(sps.max_dec_pic_buffering),
            caps_max_dpb_slots,
        ),
        s.bitstream_cap == H265_BITSTREAM_CAP,
        s.bitstream_cap == 8 * 1024 * 1024,
        1 <= s.max_refs <= 8,
        1 <= sps.max_dec_pic_buffering <= 8 ==> s.max_refs == sps.max_dec_pic_buffering,
        sps.max_dec_pic_buffering > 8 ==> s.max_refs == 8,
        sps.bit_depth_luma == 10 ==> s.readback_size == 2 * (sps.width * sps.height * 3 / 2),
        sps.bit_depth_luma != 10 ==> s.readback_size == sps.width * sps.height * 3 / 2,
        s.readback_size == sps.width * sps.height * 3 / 2 * bytes_per_sample(sps.bit_depth_luma),
        s.distinct_output == !coincide,
{
    proof {
        vstd::arithmetic::mul::lemma_mul_nonnegative(sps.width as int, sps.height as int);
    }
    let max_refs: u32 = if sps.max_dec_pic_buffering < 1 {
        1
    } else if sps.max_dec_pic_buffering > 8 {
        8
    } else {
        sps.max_dec_pic_buffering as u32
    };
    let max_slots: u32 = if max_refs + 1 <= caps_max_dpb_slots {
        max_refs + 1
    } else {
        caps_max_dpb_slots
    };
    let pixels: usize = sps.width as usize * sps.height as usize;
    let bps: usize = if sps.bit_depth_luma == 10 {
        2
    } else {
        1
    };
    crate::nvdec::SessionSize {
        coded_w: sps.width,
        coded_h: sps.height,
        max_refs,
        max_slots,
        bitstream_cap: H265_BITSTREAM_CAP,
        readback_size: pixels * 3 / 2 * bps,
        distinct_output: !coincide,
    }
}

/// Display size after the conformance window (luma pixels).
pub fn cropped_size(coded_w: u32, coded_h: u32, crop: &[u32; 4]) -> (size: (u32, u32))
    requires
        crop@[0] + crop@[1] <= coded_w,
        crop@[2] + crop@[3] <= coded_h,
    ensures
        size.0 == coded_w - crop@[0] - crop@[1],
        size.1 == coded_h - crop@[2] - crop@[3],
{
    (coded_w - crop[0] - crop[1], coded_h - crop[2] - crop[3])
}

/// Offset of the display window in the coded picture.
pub fn crop_offsets(crop: &[u32; 4]) -> (offsets: (u32, u32))
    ensures
        offsets == (crop@[0], crop@[2]),
{
    (crop[0], crop[2])
}

/// A picture as the driver takes it. The slot tables end in 0xff.
#[derive(Debug, Clone, Copy)]
pub struct StdPictureH265 {
    pub irap: bool,
    pub idr: bool,
    pub is_reference: bool,
    /// Whether the reference picture set is one of the SPS.
    pub set_from_sps: bool,
    pub vps_id: u8,
    pub sps_id: u8,
    pub pps_id: u8,
    pub num_delta_pocs_of_ref: u8,
    pub poc: i32,
    pub num_bits_st_rps: u16,
    pub before_slots: [u8; 8],
    pub after_slots: [u8; 8],
    /// Long-term references are not decoded: no slot.
    pub long_term_slots: [u8; 8],
}

/// Describes the picture of a slice header, as it was planned.
pub fn picture_info(
    sps: &H265Sps,
    pps: &H265Pps,
    header: &H265SliceHeader,
    plan: &H265Plan,
) -> (p: StdPictureH265)
    ensures
        p.irap == (16 <= header.nal_type <= 23),
        p.idr == idr_type(header.nal_type),
        p.is_reference == plan.is_ref,
        p.set_from_sps == (header.num_bits_st_rps == 0),
        p.vps_id == sps.vps_id,
        p.sps_id == sps.sps_id,
        p.pps_id == pps.pps_id,
        p.num_delta_pocs_of_ref == header.num_delta_pocs_of_ref,
        p.poc == plan.poc,
        p.num_bits_st_rps == header.num_bits_st_rps,
        p.before_slots@ == plan.before_slots@,
        p.after_slots@ == plan.after_slots@,
        p.long_term_slots@ == Seq::new(8, |i: int| 0xffu8),
{
    let long_term_slots: [u8; 8] = [0xff; 8];
    assert(long_term_slots@ =~= Seq::new(8, |i: int| 0xffu8));
    StdPictureH265 {
        irap: is_irap(header.nal_type),
        idr: is_idr(header.nal_type),
        is_reference: plan.is_ref,
        set_from_sps: header.num_bits_st_rps == 0,
        vps_id: sps.vps_id,
        sps_id: sps.sps_id,
        pps_id: pps.pps_id,
        num_delta_pocs_of_ref: header.num_delta_pocs_of_ref,
        poc: plan.poc,
        num_bits_st_rps: header.num_bits_st_rps,
        before_slots: plan.before_slots,
        after_slots: plan.after_slots,
        long_term_slots,
    }
}

/// Sequence parameter set values as the driver takes them, where they differ
/// from the parsed ones.
#[derive(Debug, Clone, Copy, PartialEq, Eq, Structural)]
pub struct StdSpsH265 {
    pub conformance_window: bool,
    pub bit_depth_luma_minus8: u8,
    pub bit_depth_chroma_minus8: u8,
    pub log2_max_pic_order_cnt_lsb_minus4: u8,
    pub num_short_term_ref_pic_sets: u8,
    pub conf_win_left: u32,
    pub conf_win_right: u32,
    pub conf_win_top: u32,
    pub conf_win_bottom: u32,
    pub max_dec_pic_buffering_minus1: u8,
    pub max_num_reorder_pics: u8,
    pub general_profile_idc: u32,
    pub general_level_idc: u32,
}

/// The values of an SPS in the form that the driver takes: the window in
/// chroma units, depths and sizes relative to their least values.
pub fn build_std_sps(sps: &H265Sps) -> (res: Result<StdSpsH265, NvDecError>)
    requires
        sps.bit_depth_luma >= 8,
        sps.bit_depth_chroma >= 8,
        sps.log2_max_poc_lsb >= 4,
        sps.max_dec_pic_buffering >= 1,
    ensures
        match res {
            Ok(s) => profile_supported(sps.ptl.profile_idc) && s == (StdSpsH265 {
                conformance_window: exists|i: int| 0 <= i < 4 && (#[trigger] sps.crop@[i]) > 0,
                bit_depth_luma_minus8: (sps.bit_depth_luma - 8) as u8,
                bit_depth_chroma_minus8: (sps.bit_depth_chroma - 8) as u8,
                log2_max_pic_order_cnt_lsb_minus4: crate::nvdec::low8(sps.log2_max_poc_lsb - 4),
                num_short_term_ref_pic_sets: crate::nvdec::low8(sps.st_rps@.len() as int),
                conf_win_left: sps.crop@[0] / 2,
                conf_win_right: sps.crop@[1] / 2,
                conf_win_top: sps.crop@[2] / 2,
                conf_win_bottom: sps.crop@[3] / 2,
                max_dec_pic_buffering_minus1: (sps.max_dec_pic_buffering - 1) as u8,
                max_num_reorder_pics: sps.max_num_reorder_pics,
                general_profile_idc: sps.ptl.profile_idc as u32,
                general_level_idc: level_rank(sps.ptl.level_idc),
            }),
            Err(e) => !profile_supported(sps.ptl.profile_idc) && e@ == NvDecErrorView::Unsupported(
                "HEVC profile_idc "@ + crate::text::dec(sps.ptl.profile_idc as nat)
                    + " (Main/Main10 only)"@,
            ),
        },
{
    let general_profile_idc: u32 = match profile_to_std(sps.ptl.profile_idc) {
        Ok(p) => p,
        Err(e) => {
            return Err(e);
        },
    };
    let window = sps.crop[0] > 0 || sps.crop[1] > 0 || sps.crop[2] > 0 || sps.crop[3] > 0;
    proof {
        if window {
            let i = if sps.crop@[0] > 0 {
                0int
            } else if sps.crop@[1] > 0 {
                1
            } else if sps.crop@[2] > 0 {
                2
            } else {
                3
            };
            assert(sps.crop@[i] > 0);
        }
    }
    Ok(
        StdSpsH265 {
            conformance_window: window,
            bit_depth_luma_minus8: sps.bit_depth_luma - 8,
            bit_depth_chroma_minus8: sps.bit_depth_chroma - 8,
            log2_max_pic_order_cnt_lsb_minus4: byte_of(sps.log2_max_poc_lsb - 4),
            num_short_term_ref_pic_sets: (sps.st_rps.len() % 256) as u8,
            conf_win_left: sps.crop[0] / 2,
            conf_win_right: sps.crop[1] / 2,
            conf_win_top: sps.crop[2] / 2,
            conf_win_bottom: sps.crop[3] / 2,
            max_dec_pic_buffering_minus1: sps.max_dec_pic_buffering - 1,
            max_num_reorder_pics: sps.max_num_reorder_pics,
            general_profile_idc,
            general_level_idc: level_to_std(sps.ptl.level_idc),
        },
    )
}

/// Picture parameter set values as the driver takes them, where they differ
/// from the parsed ones.
#[derive(Debug, Clone, Copy, PartialEq, Eq, Structural)]
pub struct StdPpsH265 {
    pub num_ref_idx_l0_default_active_minus1: u8,
    pub num_ref_idx_l1_default_active_minus1: u8,
    pub init_qp_minus26: i8,
    pub diff_cu_qp_delta_depth: u8,
    pub cb_qp_offset: i8,
    pub cr_qp_offset: i8,
    pub beta_offset_div2: i8,
    pub tc_offset_div2: i8,
    pub log2_parallel_merge_level_minus2: u8,
}

/// The values of a PPS in the form that the driver takes.
pub fn build_std_pps(pps: &H265Pps) -> (p: StdPpsH265)
    requires
        pps.num_ref_idx_l0_default >= 1,
        pps.num_ref_idx_l1_default >= 1,
    ensures
        p == (StdPpsH265 {
            num_ref_idx_l0_default_active_minus1: crate::nvdec::low8(
                pps.num_ref_idx_l0_default - 1,
            ),
            num_ref_idx_l1_default_active_minus1: crate::nvdec::low8(
                pps.num_ref_idx_l1_default - 1,
            ),
            init_qp_minus26: crate::nvdec::low8_signed(pps.init_qp_minus26 as int),
            diff_cu_qp_delta_depth: crate::nvdec::low8(pps.diff_cu_qp_delta_depth as int),
            cb_qp_offset: crate::nvdec::low8_signed(pps.cb_qp_offset as int),
            cr_qp_offset: crate::nvdec::low8_signed(pps.cr_qp_offset as int),
            beta_offset_div2: crate::nvdec::low8_signed(pps.beta_offset_div2 as int),
            tc_offset_div2: crate::nvdec::low8_signed(pps.tc_offset_div2 as int),
            log2_parallel_merge_level_minus2: crate::nvdec::low8(
                pps.log2_parallel_merge_level_minus2 as int,
            ),
        }),
{
    StdPpsH265 {
        num_ref_idx_l0_default_active_minus1: byte_of(pps.num_ref_idx_l0_default - 1),
        num_ref_idx_l1_default_active_minus1: byte_of(pps.num_ref_idx_l1_default - 1),
        init_qp_minus26: signed_byte_of(pps.init_qp_minus26),
        diff_cu_qp_delta_depth: byte_of(pps.diff_cu_qp_delta_depth),
        cb_qp_offset: signed_byte_of(pps.cb_qp_offset),
        cr_qp_offset: signed_byte_of(pps.cr_qp_offset),
        beta_offset_div2: signed_byte_of(pps.beta_offset_div2),
        tc_offset_div2: signed_byte_of(pps.tc_offset_div2),
        log2_parallel_merge_level_minus2: byte_of(pps.log2_parallel_merge_level_minus2),
    }
}

/// Each element is kept once, at the place of its first occurrence: none is
/// lost, none is new, and an element behind others stands behind them.
pub proof fn each_reference_is_listed_once(s: Seq<usize>, n: nat, x: usize)
    requires
        n < s.len(),
    ensures
        distinct(s, 0).len() == 0,
        s.take(n as int).contains(s[n as int]) ==> distinct(s, n + 1) == distinct(s, n),
        !s.take(n as int).contains(s[n as int]) ==> distinct(s, n + 1) == distinct(s, n).push(
            s[n as int],
        ),
        distinct(s, n).contains(x) <==> s.take(n as int).contains(x),
{
    lemma_distinct_members(s, n, x);
    lemma_distinct_members(s, n, s[n as int]);
}

proof fn lemma_distinct_members(s: Seq<usize>, n: nat, x: usize)
    requires
        n <= s.len(),
    ensures
        distinct(s, n).contains(x) <==> s.take(n as int).contains(x),
    decreases n,
{
    if n > 0 {
        let m = (n - 1) as nat;
        lemma_distinct_members(s, m, x);
        let d = distinct(s, m);
        let y = s[n - 1];
        let shorter = s.take(m as int);
        let longer = s.take(n as int);
        assert(longer =~= shorter.push(y));
        assert(longer.contains(x) <==> shorter.contains(x) || x == y) by {
            if shorter.contains(x) {
                let k = choose|k: int| 0 <= k < shorter.len() && shorter[k] == x;
                assert(longer[k] == x);
            }
            if x == y {
                assert(longer[m as int] == x);
            }
        }
        assert(d.push(y).contains(x) <==> d.contains(x) || x == y) by {
            if d.contains(x) {
                let k = choose|k: int| 0 <= k < d.len() && d[k] == x;
                assert(d.push(y)[k] == x);
            }
            if x == y {
                assert(d.push(y)[d.len() as int] == x);
            }
        }
    }
}

/// The reference that is reported as missing is the first without a picture in
/// the buffer.
pub proof fn first_missing_reference_is_reported(
    slots: Seq<H265Slot>,
    pocs: Seq<int>,
    i: int,
)
    requires
        0 <= i < pocs.len(),
        forall|k: int|
            0 <= k < slots.len() ==> !((#[trigger] slots[k]).active && slots[k].poc == pocs[i]),
        forall|j: int|
            0 <= j < i ==> exists|k: int|
                0 <= k < slots.len() && (#[trigger] slots[k]).active && slots[k].poc
                    == #[trigger] pocs[j],
    ensures
        first_missing(slots, pocs) == pocs[i],
        !all_present(slots, pocs),
    decreases i,
{
    lemma_slot_is_missing(slots, pocs[i]);
    if i > 0 {
        let k = choose|k: int|
            0 <= k < slots.len() && (#[trigger] slots[k]).active && slots[k].poc == pocs[0];
        lemma_slot_is_there(slots, pocs[0], k);
        let rest = pocs.skip(1);
        assert(rest[i - 1] == pocs[i]);
        assert forall|j: int| 0 <= j < i - 1 implies exists|k: int|
            0 <= k < slots.len() && (#[trigger] slots[k]).active && slots[k].poc
                == #[trigger] rest[j] by {
            assert(rest[j] == pocs[j + 1]);
        }
        first_missing_reference_is_reported(slots, rest, i - 1);
    }
}

proof fn lemma_slot_is_missing(slots: Seq<H265Slot>, p: int)
    requires
        forall|k: int|
            0 <= k < slots.len() ==> !((#[trigger] slots[k]).active && slots[k].poc == p),
    ensures
        slot_of_poc(slots, p) == slots.len(),
    decreases slots.len(),
{
    if slots.len() > 0 {
        let rest = slots.skip(1);
        assert forall|k: int| 0 <= k < rest.len() implies !((#[trigger] rest[k]).active
            && rest[k].poc == p) by {
            assert(rest[k] == slots[k + 1]);
        }
        lemma_slot_is_missing(rest, p);
    }
}

proof fn lemma_slot_is_there(slots: Seq<H265Slot>, p: int, k: int)
    requires
        0 <= k < slots.len(),
        slots[k].active,
        slots[k].poc == p,
    ensures
        slot_of_poc(slots, p) < slots.len(),
    decreases slots.len(),
{
    if k > 0 {
        assert(slots.skip(1)[k - 1] == slots[k]);
        lemma_slot_is_there(slots.skip(1), p, k - 1);
    }
}

} // verus!
