//! H.265/HEVC bitstream header parsing: just enough to drive a hardware decode
//! session, that is VPS/SPS/PPS from the container's hvcC record and the first
//! slice-segment header per access unit.
//!
//! Scope: 4:2:0, 8/10-bit, I/P/B slices, short-term RPS reference management.
//! Rejected explicitly: separate colour planes, scaling-list data, long-term
//! reference pictures, dependent slice segments, tiled streams.
//!
//! The RBSP and Exp-Golomb coding are those of H.264, so the reader and the
//! error type are shared.
use crate::bitstream::{malformed, to_rbsp, unsupported, BitReader, Cursor, ErrorView, H264Error};
use crate::text::with_number;
use vstd::prelude::*;

verus! {

broadcast use crate::bitstream::group_sticky;

pub type H265Error = H264Error;

// NAL unit types (Table 7-1). VCL types are 0..=31.
pub const NAL_BLA_W_LP: u8 = 16;

pub const NAL_IDR_W_RADL: u8 = 19;

pub const NAL_IDR_N_LP: u8 = 20;

pub const NAL_CRA: u8 = 21;

pub const NAL_RSV_IRAP_VCL23: u8 = 23;

pub const NAL_VPS: u8 = 32;

pub const NAL_SPS: u8 = 33;

pub const NAL_PPS: u8 = 34;

/// NAL type from the first byte of the 2-byte HEVC NAL header.
pub open spec fn nal_type_of(nal: Seq<u8>) -> u8 {
    if nal.len() == 0 {
        0
    } else {
        (nal[0] >> 1) & 0x3f
    }
}

/// NAL type from the 2-byte HEVC NAL header; an empty NAL has type 0.
pub fn nal_type(nal: &[u8]) -> (t: u8)
    ensures
        t == nal_type_of(nal@),
        t < 64,
{
    let b: u8 = if nal.len() > 0 {
        nal[0]
    } else {
        0
    };
    assert((b >> 1) & 0x3f < 64 && (0u8 >> 1) & 0x3f == 0) by (bit_vector);
    (b >> 1) & 0x3f
}

/// Whether a NAL type carries coded slice data.
pub fn is_vcl(t: u8) -> (b: bool)
    ensures
        b == (t <= 31),
{
    t <= 31
}

/// Whether a NAL type is an intra random access point.
pub fn is_irap(t: u8) -> (b: bool)
    ensures
        b == (NAL_BLA_W_LP <= t <= NAL_RSV_IRAP_VCL23),
        b <==> 16 <= t <= 23,
{
    NAL_BLA_W_LP <= t && t <= NAL_RSV_IRAP_VCL23
}

/// Whether a NAL type is an instantaneous decoder refresh.
pub fn is_idr(t: u8) -> (b: bool)
    ensures
        b == (t == NAL_IDR_W_RADL || t == NAL_IDR_N_LP),
        b <==> 19 <= t <= 20,
{
    t == NAL_IDR_W_RADL || t == NAL_IDR_N_LP
}

/// Whether pictures of a NAL type may be referenced. Sub-layer non-reference
/// pictures have even NAL types below 16.
pub fn is_reference(t: u8) -> (b: bool)
    ensures
        b == (t >= 16 || t % 2 == 1),
{
    t >= 16 || t % 2 == 1
}

/// An IDR picture is a random access point, every random access point is
/// coded slice data, and all of them may be referenced.
pub proof fn idr_is_irap_is_vcl(t: u8)
    ensures
        t == NAL_IDR_W_RADL || t == NAL_IDR_N_LP ==> NAL_BLA_W_LP <= t <= NAL_RSV_IRAP_VCL23,
        NAL_BLA_W_LP <= t <= NAL_RSV_IRAP_VCL23 ==> t <= 31 && t >= 16,
{
}

/// The low byte of a value.
fn low_byte(v: u32) -> (b: u8)
    ensures
        b == v % 256,
{
    let b: u8 = (v % 256) as u8;
    b
}

/// profile_tier_level(): the general layer only; the sub-layers are skipped.
#[derive(Debug, Clone, Copy, PartialEq, Eq, Structural)]
pub struct Ptl {
    pub tier_flag: bool,
    pub profile_idc: u8,
    pub level_idc: u8,
    pub progressive_source: bool,
    pub interlaced_source: bool,
    pub non_packed: bool,
    pub frame_only: bool,
    pub compat_flags: u32,
}

impl Default for Ptl {
    fn default() -> (p: Self)
        ensures
            p == (Ptl {
                tier_flag: false,
                profile_idc: 0,
                level_idc: 0,
                progressive_source: false,
                interlaced_source: false,
                non_packed: false,
                frame_only: false,
                compat_flags: 0,
            }),
    {
        Ptl {
            tier_flag: false,
            profile_idc: 0,
            level_idc: 0,
            progressive_source: false,
            interlaced_source: false,
            non_packed: false,
            frame_only: false,
            compat_flags: 0,
        }
    }
}

/// The presence flags (profile, level) of the first `n` sub-layers.
pub open spec fn sub_layer_flags(c: Cursor, n: nat) -> (Seq<(bool, bool)>, Cursor)
    decreases n,
{
    if n == 0 {
        (Seq::empty(), c)
    } else {
        let (s, c) = sub_layer_flags(c, (n - 1) as nat);
        let (profile, c) = c.flag();
        let (level, c) = c.flag();
        (s.push((profile, level)), c)
    }
}

/// `n` reserved two-bit fields.
pub open spec fn reserved_pairs(c: Cursor, n: nat) -> Cursor
    decreases n,
{
    if n == 0 {
        c
    } else {
        reserved_pairs(c, (n - 1) as nat).u(2).1
    }
}

/// The data of the first `n` sub-layers: 88 bits of profile and 8 bits of
/// level, each where its flag is set.
pub open spec fn sub_layer_data(c: Cursor, flags: Seq<(bool, bool)>, n: nat) -> Cursor
    decreases n,
{
    if n == 0 {
        c
    } else {
        let c = sub_layer_data(c, flags, (n - 1) as nat);
        let c = if flags[n - 1].0 {
            c.u(32).1.u(32).1.u(24).1
        } else {
            c
        };
        if flags[n - 1].1 {
            c.u(8).1
        } else {
            c
        }
    }
}

/// profile_tier_level() for `n` sub-layers besides the first.
#[verifier::opaque]
pub open spec fn ptl_syntax(c: Cursor, n: nat) -> (Ptl, Cursor) {
    let (_, c) = c.u(2);
    let (tier_flag, c) = c.flag();
    let (profile_idc, c) = c.u(5);
    let (compat_flags, c) = c.u(32);
    let (progressive_source, c) = c.flag();
    let (interlaced_source, c) = c.flag();
    let (non_packed, c) = c.flag();
    let (frame_only, c) = c.flag();
    let (_, c) = c.u(22);
    let (_, c) = c.u(22);
    let (level_idc, c) = c.u(8);
    let (flags, c) = sub_layer_flags(c, n);
    let c = if n > 0 {
        reserved_pairs(c, (8 - n) as nat)
    } else {
        c
    };
    let c = sub_layer_data(c, flags, n);
    (
        Ptl {
            tier_flag,
            profile_idc: profile_idc as u8,
            level_idc: level_idc as u8,
            progressive_source,
            interlaced_source,
            non_packed,
            frame_only,
            compat_flags: compat_flags as u32,
        },
        c,
    )
}

proof fn lemma_sub_layer_sticky(c: Cursor, flags: Seq<(bool, bool)>, m: nat, n: nat)
    requires
        m <= n,
    ensures
        sub_layer_flags(c, m).1.err is Some ==> sub_layer_flags(c, n).1 == sub_layer_flags(c, m).1,
        reserved_pairs(c, m).err is Some ==> reserved_pairs(c, n) == reserved_pairs(c, m),
        sub_layer_data(c, flags, m).err is Some ==> sub_layer_data(c, flags, n) == sub_layer_data(
            c,
            flags,
            m,
        ),
    decreases n,
{
    if m < n {
        lemma_sub_layer_sticky(c, flags, m, (n - 1) as nat);
    }
}

proof fn lemma_sub_layer_error()
    ensures
        forall|c: Cursor, n: nat| c.err is Some ==> (#[trigger] sub_layer_flags(c, n)).1 == c,
        forall|c: Cursor, n: nat| c.err is Some ==> #[trigger] reserved_pairs(c, n) == c,
        forall|c: Cursor, f: Seq<(bool, bool)>, n: nat|
            c.err is Some ==> #[trigger] sub_layer_data(c, f, n) == c,
{
    assert forall|c: Cursor, n: nat| c.err is Some implies (#[trigger] sub_layer_flags(c, n)).1
        == c by {
        lemma_sub_layer_sticky(c, seq![], 0, n);
    }
    assert forall|c: Cursor, n: nat| c.err is Some implies #[trigger] reserved_pairs(c, n) == c by {
        lemma_sub_layer_sticky(c, seq![], 0, n);
    }
    assert forall|c: Cursor, f: Seq<(bool, bool)>, n: nat| c.err is Some implies
        #[trigger] sub_layer_data(c, f, n) == c by {
        lemma_sub_layer_sticky(c, f, 0, n);
    }
}

/// `ptl_syntax` leaves a failed cursor as it is.
proof fn lemma_ptl_error()
    ensures
        forall|c: Cursor, n: nat| c.err is Some ==> (#[trigger] ptl_syntax(c, n)).1 == c,
{
    lemma_sub_layer_error();
    reveal(ptl_syntax);
}

fn skip_sub_layers(r: &mut BitReader<'_>, n: u8) -> (res: Result<(), H265Error>)
    requires
        old(r).wf(),
        n <= 8,
    ensures
        final(r).wf(),
        ({
            let (flags, c) = sub_layer_flags(old(r)@, n as nat);
            let c = if n > 0 {
                reserved_pairs(c, (8 - n) as nat)
            } else {
                c
            };
            let end = sub_layer_data(c, flags, n as nat);
            match res {
                Ok(_) => end.err is None && final(r)@ == end,
                Err(e) => end.err == Some(e@),
            }
        }),
{
    proof {
        lemma_sub_layer_error();
    }
    let mut flags: Vec<(bool, bool)> = Vec::new();
    let ghost c0 = r@;
    let mut i: u8 = 0;
    while i < n
        invariant
            r.wf(),
            i <= n <= 8,
            old(r)@ == c0,
            sub_layer_flags(c0, i as nat) == (flags@, r@),
            flags@.len() == i,
            forall|c: Cursor, k: nat| c.err is Some ==> #[trigger] reserved_pairs(c, k) == c,
            forall|c: Cursor, f: Seq<(bool, bool)>, k: nat|
                c.err is Some ==> #[trigger] sub_layer_data(c, f, k) == c,
        decreases n - i,
    {
        proof {
            lemma_sub_layer_sticky(c0, seq![], (i + 1) as nat, n as nat);
        }
        let profile = r.flag()?;
        let level = r.flag()?;
        flags.push((profile, level));
        i = i + 1;
    }
    let ghost c1 = r@;
    if n > 0 {
        let mut k: u8 = 0;
        let m: u8 = 8 - n;
        while k < m
            invariant
                r.wf(),
                k <= m,
                m + n == 8,
                n > 0,
                old(r)@ == c0,
                sub_layer_flags(c0, n as nat) == (flags@, c1),
                reserved_pairs(c1, k as nat) == r@,
                forall|c: Cursor, f: Seq<(bool, bool)>, k: nat|
                    c.err is Some ==> #[trigger] sub_layer_data(c, f, k) == c,
            decreases m - k,
        {
            proof {
                lemma_sub_layer_sticky(c1, seq![], (k + 1) as nat, m as nat);
            }
            let _reserved: u32 = r.u(2)?;
            k = k + 1;
        }
    }
    let ghost c2 = r@;
    let mut i: u8 = 0;
    while i < n
        invariant
            r.wf(),
            i <= n <= 8,
            old(r)@ == c0,
            flags@.len() == n,
            sub_layer_flags(c0, n as nat) == (flags@, c1),
            c2 == (if n > 0 {
                reserved_pairs(c1, (8 - n) as nat)
            } else {
                c1
            }),
            sub_layer_data(c2, flags@, i as nat) == r@,
        decreases n - i,
    {
        proof {
            lemma_sub_layer_sticky(c2, flags@, (i + 1) as nat, n as nat);
        }
        if flags[i as usize].0 {
            let _a: u32 = r.u(32)?;
            let _b: u32 = r.u(32)?;
            let _c: u32 = r.u(24)?;
        }
        if flags[i as usize].1 {
            let _level: u32 = r.u(8)?;
        }
        i = i + 1;
    }
    Ok(())
}

/// Parses profile_tier_level() with `max_sub_layers_minus1` sub-layers.
fn parse_ptl(r: &mut BitReader<'_>, max_sub_layers_minus1: u8) -> (res: Result<Ptl, H265Error>)
    requires
        old(r).wf(),
        max_sub_layers_minus1 <= 8,
    ensures
        final(r).wf(),
        ({
            let (v, end) = ptl_syntax(old(r)@, max_sub_layers_minus1 as nat);
            match res {
                Ok(p) => end.err is None && final(r)@ == end && p == v,
                Err(e) => end.err == Some(e@),
            }
        }),
{
    proof {
        reveal(ptl_syntax);
        lemma_sub_layer_error();
        crate::bitstream::lemma_u_bound(8);
        crate::bitstream::lemma_u_bound(5);
    }
    let _profile_space: u32 = r.u(2)?;
    let tier_flag = r.flag()?;
    let profile_idc: u8 = r.u(5)? as u8;
    let compat_flags: u32 = r.u(32)?;
    let progressive_source = r.flag()?;
    let interlaced_source = r.flag()?;
    let non_packed = r.flag()?;
    let frame_only = r.flag()?;
    // 43 reserved/constraint bits + 1 inbld/reserved bit.
    let _reserved: u32 = r.u(22)?;
    let _reserved: u32 = r.u(22)?;
    let level_idc: u8 = r.u(8)? as u8;
    skip_sub_layers(r, max_sub_layers_minus1)?;
    Ok(
        Ptl {
            tier_flag,
            profile_idc,
            level_idc,
            progressive_source,
            interlaced_source,
            non_packed,
            frame_only,
            compat_flags,
        },
    )
}

/// A short-term reference picture set, resolved to explicit deltas
/// (inter-set prediction is decompressed at parse time).
#[derive(Debug, Clone)]
pub struct StRps {
    /// (cumulative delta POC < 0, used_by_curr_pic), nearest first.
    pub neg: Vec<(i32, bool)>,
    /// (cumulative delta POC > 0, used_by_curr_pic), nearest first.
    pub pos: Vec<(i32, bool)>,
}

/// The deltas of a reference picture set.
#[verifier::ext_equal]
pub struct StRpsView {
    pub neg: Seq<(i32, bool)>,
    pub pos: Seq<(i32, bool)>,
}

impl View for StRps {
    type V = StRpsView;

    open spec fn view(&self) -> StRpsView {
        StRpsView { neg: self.neg@, pos: self.pos@ }
    }
}

impl StRpsView {
    /// The empty set.
    pub open spec fn empty() -> StRpsView {
        StRpsView { neg: Seq::empty(), pos: Seq::empty() }
    }

    /// Number of pictures in the set.
    pub open spec fn count(self) -> nat {
        self.neg.len() + self.pos.len()
    }

    /// Negative deltas decrease from -1 on, positive deltas increase from 1
    /// on, so that each half names its nearest picture first.
    pub open spec fn nearest_first(self) -> bool {
        &&& forall|i: int| 0 <= i < self.neg.len() ==> (#[trigger] self.neg[i]).0 < 0
        &&& forall|i: int| 0 <= i < self.pos.len() ==> (#[trigger] self.pos[i]).0 > 0
        &&& forall|i: int, j: int|
            0 <= i < j < self.neg.len() ==> (#[trigger] self.neg[i]).0 > (
            #[trigger] self.neg[j]).0
        &&& forall|i: int, j: int|
            0 <= i < j < self.pos.len() ==> (#[trigger] self.pos[i]).0 < (
            #[trigger] self.pos[j]).0
    }
}

/// The views of a list of sets.
pub open spec fn rps_views(sets: Seq<StRps>) -> Seq<StRpsView> {
    sets.map_values(|s: StRps| s@)
}

impl Default for StRps {
    fn default() -> (s: Self)
        ensures
            s@ == StRpsView::empty(),
    {
        StRps { neg: Vec::new(), pos: Vec::new() }
    }
}

fn clone_deltas(v: &Vec<(i32, bool)>) -> (c: Vec<(i32, bool)>)
    ensures
        c@ == v@,
{
    let mut c: Vec<(i32, bool)> = Vec::new();
    let mut i: usize = 0;
    while i < v.len()
        invariant
            i <= v@.len(),
            c@ == v@.take(i as int),
        decreases v@.len() - i,
    {
        let x: (i32, bool) = v[i];
        c.push(x);
        i = i + 1;
        assert(v@.take(i as int) =~= v@.take(i - 1).push(x));
    }
    assert(v@.take(v@.len() as int) =~= v@);
    c
}

impl StRps {
    /// The two halves together can be counted.
    pub open spec fn countable(&self) -> bool {
        self@.count() < usize::MAX
    }

    /// NumDeltaPocs: the number of pictures in the set.
    pub fn num_delta_pocs(&self) -> (n: usize)
        requires
            self.countable(),
        ensures
            n == self@.count(),
    {
        self.neg.len() + self.pos.len()
    }

    /// A copy with the same deltas.
    pub fn duplicate(&self) -> (c: StRps)
        ensures
            c@ == self@,
    {
        StRps { neg: clone_deltas(&self.neg), pos: clone_deltas(&self.pos) }
    }
}

/// Whether a delta fits the 32 bits that deltas are kept in.
pub open spec fn delta_in_range(d: int) -> bool {
    i32::MIN <= d <= i32::MAX
}

/// The error for a delta out of that range.
pub open spec fn delta_range_error() -> ErrorView {
    ErrorView::Malformed("RPS delta out of range"@)
}

/// The first `n` entries of an explicit half: each code adds its value plus
/// one, in direction `sign`, to the delta before it.
pub open spec fn explicit_half(c: Cursor, n: nat, sign: int) -> (Seq<(i32, bool)>, Cursor)
    decreases n,
{
    if n == 0 {
        (Seq::empty(), c)
    } else {
        let (s, c) = explicit_half(c, (n - 1) as nat, sign);
        let before = if s.len() == 0 {
            0
        } else {
            s.last().0 as int
        };
        let (v, c) = c.ue();
        let d = before + sign * (v + 1);
        let c = c.reject_if(!delta_in_range(d), delta_range_error());
        let (used, c) = c.flag();
        (s.push((d as i32, used)), c)
    }
}

/// A set that is written out: two counts of at most 16, then the halves.
#[verifier::opaque]
pub open spec fn explicit_rps(c: Cursor) -> (StRpsView, Cursor) {
    let (num_neg, c) = c.ue();
    let (num_pos, c) = c.ue();
    let c = c.reject_if(
        num_neg > 16 || num_pos > 16,
        ErrorView::Malformed("RPS with >16 pics"@),
    );
    let (neg, c) = explicit_half(c, num_neg, -1);
    let (pos, c) = explicit_half(c, num_pos, 1);
    (StRpsView { neg, pos }, c)
}

/// The flags (used_by_curr_pic, use_delta) of the first `n` candidates of a
/// predicted set; a used candidate is always kept.
pub open spec fn candidate_flags(c: Cursor, n: nat) -> (Seq<(bool, bool)>, Cursor)
    decreases n,
{
    if n == 0 {
        (Seq::empty(), c)
    } else {
        let (s, c) = candidate_flags(c, (n - 1) as nat);
        let (used, c) = c.flag();
        let (use_delta, c) = if used {
            (true, c)
        } else {
            c.flag()
        };
        (s.push((used, use_delta)), c)
    }
}

/// A candidate of a predicted set: its delta, whether it is used by the
/// current picture, whether it is kept.
pub struct Candidate {
    pub delta: int,
    pub used: bool,
    pub keep: bool,
}

/// The candidates of a set predicted from `base` with offset `delta`, from
/// the largest delta to the smallest: the positive half backwards, the
/// reference picture itself, the negative half.
pub open spec fn candidates(base: StRpsView, delta: int, flags: Seq<(bool, bool)>) -> Seq<
    Candidate,
> {
    let np = base.pos.len();
    let nn = base.neg.len();
    Seq::new(
        np + 1 + nn,
        |k: int|
            if k < np {
                Candidate {
                    delta: base.pos[np - 1 - k].0 + delta,
                    used: flags[nn + np - 1 - k].0,
                    keep: flags[nn + np - 1 - k].1,
                }
            } else if k == np {
                Candidate { delta, used: flags[(nn + np) as int].0, keep: flags[(nn + np) as int].1 }
            } else {
                Candidate {
                    delta: base.neg[k - np - 1].0 + delta,
                    used: flags[k - np - 1].0,
                    keep: flags[k - np - 1].1,
                }
            },
    )
}

/// The kept candidates on one side of zero among the first `n`.
pub open spec fn kept(cands: Seq<Candidate>, n: nat, negative: bool) -> Seq<(i32, bool)>
    decreases n,
{
    if n == 0 {
        Seq::empty()
    } else {
        let s = kept(cands, (n - 1) as nat, negative);
        let c = cands[n - 1];
        if c.keep && (if negative {
            c.delta < 0
        } else {
            c.delta > 0
        }) {
            s.push((c.delta as i32, c.used))
        } else {
            s
        }
    }
}

/// Whether every candidate's delta is in range.
pub open spec fn candidates_in_range(cands: Seq<Candidate>) -> bool {
    forall|k: int| 0 <= k < cands.len() ==> delta_in_range((#[trigger] cands[k]).delta)
}

/// A set predicted from `base`.
#[verifier::opaque]
pub open spec fn predicted_rps(c: Cursor, base: StRpsView) -> (StRpsView, Cursor) {
    let (sign, c) = c.flag();
    let (abs_minus1, c) = c.ue();
    let delta = if sign {
        -(abs_minus1 + 1)
    } else {
        abs_minus1 as int + 1
    };
    let c = c.reject_if(!delta_in_range(delta), delta_range_error());
    let (flags, c) = candidate_flags(c, base.count() + 1);
    let cands = candidates(base, delta, flags);
    let c = c.reject_if(!candidates_in_range(cands), delta_range_error());
    (
        StRpsView {
            neg: kept(cands, cands.len(), true),
            pos: kept(cands.reverse(), cands.len(), false),
        },
        c,
    )
}

/// st_ref_pic_set(idx) with `sets` parsed before it: the set, and the index
/// of the set that it was predicted from, if any.
#[verifier::opaque]
pub open spec fn st_rps_syntax(
    c: Cursor,
    idx: nat,
    sets: Seq<StRpsView>,
    slice_context: bool,
) -> ((StRpsView, Option<nat>), Cursor) {
    let (inter, c) = if idx != 0 {
        c.flag()
    } else {
        (false, c)
    };
    if inter {
        let (delta_idx_minus1, c) = if slice_context {
            c.ue()
        } else {
            (0, c)
        };
        let c = c.reject_if(
            idx < delta_idx_minus1 + 1,
            ErrorView::Malformed("RPS delta_idx out of range"@),
        );
        let ref_idx = idx - delta_idx_minus1 - 1;
        let c = c.reject_if(
            ref_idx >= sets.len(),
            ErrorView::Malformed("RPS reference index out of range"@),
        );
        let (set, c) = predicted_rps(c, sets[ref_idx]);
        ((set, Some(ref_idx as nat)), c)
    } else {
        let (set, c) = explicit_rps(c);
        ((set, None), c)
    }
}

proof fn lemma_rps_loops_sticky(c: Cursor, m: nat, n: nat, sign: int)
    requires
        m <= n,
    ensures
        explicit_half(c, m, sign).1.err is Some ==> explicit_half(c, n, sign).1 == explicit_half(
            c,
            m,
            sign,
        ).1,
        candidate_flags(c, m).1.err is Some ==> candidate_flags(c, n).1 == candidate_flags(c, m).1,
    decreases n,
{
    if m < n {
        lemma_rps_loops_sticky(c, m, (n - 1) as nat, sign);
    }
}

pub proof fn lemma_rps_loops_error()
    ensures
        forall|c: Cursor, n: nat, s: int|
            c.err is Some ==> (#[trigger] explicit_half(c, n, s)).1 == c,
        forall|c: Cursor, n: nat| c.err is Some ==> (#[trigger] candidate_flags(c, n)).1 == c,
{
    assert forall|c: Cursor, n: nat, s: int| c.err is Some implies (#[trigger] explicit_half(
        c,
        n,
        s,
    )).1 == c by {
        lemma_rps_loops_sticky(c, 0, n, s);
    }
    assert forall|c: Cursor, n: nat| c.err is Some implies (#[trigger] candidate_flags(c, n)).1
        == c by {
        lemma_rps_loops_sticky(c, 0, n, 1);
    }
}

/// The forms of a reference picture set leave a failed cursor as it is.
pub proof fn lemma_rps_error()
    ensures
        forall|c: Cursor| c.err is Some ==> (#[trigger] explicit_rps(c)).1 == c,
        forall|c: Cursor, b: StRpsView| c.err is Some ==> (#[trigger] predicted_rps(c, b)).1 == c,
        forall|c: Cursor, i: nat, s: Seq<StRpsView>, x: bool|
            c.err is Some ==> (#[trigger] st_rps_syntax(c, i, s, x)).1 == c,
{
    lemma_rps_loops_error();
    reveal(explicit_rps);
    reveal(predicted_rps);
    reveal(st_rps_syntax);
}

/// What `kept` takes from the first `n` candidates does not depend on the
/// others.
proof fn lemma_kept_local(a: Seq<Candidate>, b: Seq<Candidate>, n: nat, negative: bool)
    requires
        forall|i: int| 0 <= i < n ==> a[i] == b[i],
    ensures
        kept(a, n, negative) == kept(b, n, negative),
    decreases n,
{
    if n > 0 {
        lemma_kept_local(a, b, (n - 1) as nat, negative);
    }
}

/// Peels the first candidate off.
proof fn lemma_kept_first(a: Seq<Candidate>, n: nat, negative: bool)
    requires
        1 <= n <= a.len(),
    ensures
        kept(a, n, negative).len() == kept(a.take(1), 1, negative).len() + kept(
            a.skip(1),
            (n - 1) as nat,
            negative,
        ).len(),
    decreases n,
{
    if n == 1 {
        lemma_kept_local(a, a.take(1), 1, negative);
    } else {
        lemma_kept_first(a, (n - 1) as nat, negative);
        assert(a.skip(1)[n - 2] == a[n - 1]);
    }
}

/// As many candidates are kept from the back as from the front.
proof fn lemma_kept_reverse(a: Seq<Candidate>, negative: bool)
    ensures
        kept(a.reverse(), a.len(), negative).len() == kept(a, a.len(), negative).len(),
    decreases a.len(),
{
    if a.len() > 0 {
        let t = a.skip(1);
        let n = a.len();
        lemma_kept_reverse(t, negative);
        lemma_kept_first(a, n, negative);
        lemma_kept_local(a.reverse(), t.reverse(), (n - 1) as nat, negative);
        reveal_with_fuel(kept, 2);
        assert(a.reverse()[n - 1] == a[0]);
        assert(a.take(1)[0] == a[0]);
    }
}

/// The two sides are disjoint.
proof fn lemma_kept_sides(a: Seq<Candidate>, n: nat)
    ensures
        kept(a, n, true).len() + kept(a, n, false).len() <= n,
    decreases n,
{
    if n > 0 {
        lemma_kept_sides(a, (n - 1) as nat);
    }
}

/// A predicted set has at most one picture more than the set it was
/// predicted from.
pub proof fn predicted_set_grows_by_at_most_one(c: Cursor, base: StRpsView)
    ensures
        predicted_rps(c, base).0.count() <= base.count() + 1,
{
    reveal(predicted_rps);
    let (sign, c1) = c.flag();
    let (abs_minus1, c1) = c1.ue();
    let delta = if sign {
        -(abs_minus1 + 1)
    } else {
        abs_minus1 as int + 1
    };
    let c1 = c1.reject_if(!delta_in_range(delta), delta_range_error());
    let (flags, _) = candidate_flags(c1, base.count() + 1);
    let cands = candidates(base, delta, flags);
    lemma_kept_reverse(cands, false);
    lemma_kept_sides(cands, cands.len());
}

/// A half whose deltas run away from zero, downwards or upwards.
pub open spec fn runs_outward(s: Seq<(i32, bool)>, negative: bool) -> bool {
    &&& forall|i: int| 0 <= i < s.len() ==> (negative <==> (#[trigger] s[i]).0 < 0) && s[i].0 != 0
    &&& forall|i: int, j: int|
        0 <= i < j < s.len() ==> (negative <==> (#[trigger] s[i]).0 > (#[trigger] s[j]).0)
            && s[i].0 != s[j].0
}

/// Candidates that are in order are kept in order.
proof fn lemma_kept_sorted(a: Seq<Candidate>, n: nat, negative: bool)
    requires
        n <= a.len(),
        candidates_in_range(a),
        forall|i: int, j: int|
            0 <= i < j < n ==> (negative <==> (#[trigger] a[i]).delta > (#[trigger] a[j]).delta)
                && a[i].delta != a[j].delta,
    ensures
        runs_outward(kept(a, n, negative), negative),
        forall|i: int|
            0 <= i < kept(a, n, negative).len() ==> {
                let d = (#[trigger] kept(a, n, negative)[i]).0;
                (negative ==> d >= a[n - 1].delta) && (!negative ==> d <= a[n - 1].delta)
            },
    decreases n,
{
    if n > 0 {
        let before = kept(a, (n - 1) as nat, negative);
        let k = kept(a, n, negative);
        lemma_kept_sorted(a, (n - 1) as nat, negative);
        let y = a[n - 1].delta;
        assert(delta_in_range(y));
        assert forall|i: int| 0 <= i < before.len() implies (negative ==> (#[trigger] before[i]).0
            > y) && (!negative ==> before[i].0 < y) by {
            assert(n > 1);
            let x = a[n - 2].delta;
            assert((negative <==> x > y) && x != y);
        }
        if k.len() > before.len() {
            assert(k.last().0 == y);
            assert forall|i: int| 0 <= i < before.len() implies k[i] == before[i] by {}
        }
    }
}

/// An explicit half runs away from zero.
proof fn lemma_explicit_half_sorted(c: Cursor, n: nat, sign: int)
    requires
        sign == -1 || sign == 1,
        explicit_half(c, n, sign).1.err is None,
    ensures
        explicit_half(c, n, sign).0.len() == n,
        runs_outward(explicit_half(c, n, sign).0, sign == -1),
    decreases n,
{
    if n > 0 {
        let (s, c1) = explicit_half(c, (n - 1) as nat, sign);
        lemma_rps_loops_sticky(c, (n - 1) as nat, n, sign);
        lemma_explicit_half_sorted(c, (n - 1) as nat, sign);
        let (v, _) = c1.ue();
        assert(-1 * (v + 1) == -(v + 1) && 1 * (v + 1) == v + 1);
        let t = explicit_half(c, n, sign).0;
        assert forall|i: int| 0 <= i < s.len() implies t[i] == s[i] by {}
        if s.len() > 0 {
            assert forall|i: int| 0 <= i < s.len() implies (sign == -1 ==> (#[trigger] s[i]).0
                >= s.last().0) && (sign == 1 ==> s[i].0 <= s.last().0) by {
                if i < s.len() - 1 {
                    assert((sign == -1 <==> s[i].0 > s[s.len() - 1].0));
                }
            }
        }
    }
}

/// Every reference picture set that parses names its nearest pictures first,
/// on both sides, given that the sets before it do.
pub proof fn parsed_sets_are_nearest_first(
    c: Cursor,
    idx: nat,
    sets: Seq<StRpsView>,
    slice_context: bool,
)
    requires
        forall|i: int| 0 <= i < sets.len() ==> (#[trigger] sets[i]).nearest_first(),
        st_rps_syntax(c, idx, sets, slice_context).1.err is None,
    ensures
        st_rps_syntax(c, idx, sets, slice_context).0.0.nearest_first(),
{
    reveal(st_rps_syntax);
    lemma_rps_error();
    lemma_rps_loops_error();
    let (inter, c1) = if idx != 0 {
        c.flag()
    } else {
        (false, c)
    };
    if inter {
        reveal(predicted_rps);
        let (delta_idx_minus1, c2) = if slice_context {
            c1.ue()
        } else {
            (0, c1)
        };
        let ref_idx = idx - delta_idx_minus1 - 1;
        let c2 = c2.reject_if(
            idx < delta_idx_minus1 + 1,
            ErrorView::Malformed("RPS delta_idx out of range"@),
        );
        let c2 = c2.reject_if(
            ref_idx >= sets.len(),
            ErrorView::Malformed("RPS reference index out of range"@),
        );
        let base = sets[ref_idx];
        assert(base.nearest_first());
        let (sign, c3) = c2.flag();
        let (abs_minus1, c3) = c3.ue();
        let delta = if sign {
            -(abs_minus1 + 1)
        } else {
            abs_minus1 as int + 1
        };
        let c3 = c3.reject_if(!delta_in_range(delta), delta_range_error());
        let (flags, c4) = candidate_flags(c3, base.count() + 1);
        let cands = candidates(base, delta, flags);
        assert(candidates_in_range(cands));
        assert(forall|i: int, j: int|
            0 <= i < j < cands.len() ==> (#[trigger] cands[i]).delta > (
            #[trigger] cands[j]).delta);
        lemma_kept_sorted(cands, cands.len(), true);
        assert forall|k: int| 0 <= k < cands.reverse().len() implies delta_in_range(
            (#[trigger] cands.reverse()[k]).delta,
        ) by {
            assert(delta_in_range(cands[cands.len() - 1 - k].delta));
        }
        lemma_kept_sorted(cands.reverse(), cands.len(), false);
    } else {
        reveal(explicit_rps);
        let (num_neg, c2) = c1.ue();
        let (num_pos, c2) = c2.ue();
        let c2 = c2.reject_if(
            num_neg > 16 || num_pos > 16,
            ErrorView::Malformed("RPS with >16 pics"@),
        );
        lemma_explicit_half_sorted(c2, num_neg, -1);
        lemma_explicit_half_sorted(explicit_half(c2, num_neg, -1).1, num_pos, 1);
    }
}

fn parse_explicit_half(r: &mut BitReader<'_>, n: u32, negative: bool) -> (res: Result<
    Vec<(i32, bool)>,
    H265Error,
>)
    requires
        old(r).wf(),
    ensures
        final(r).wf(),
        ({
            let (v, end) = explicit_half(
                old(r)@,
                n as nat,
                if negative {
                    -1
                } else {
                    1
                },
            );
            match res {
                Ok(x) => end.err is None && final(r)@ == end && x@ == v && x@.len() == n,
                Err(e) => end.err == Some(e@),
            }
        }),
{
    let ghost c0 = r@;
    let ghost sign: int = if negative {
        -1
    } else {
        1
    };
    let mut out: Vec<(i32, bool)> = Vec::new();
    let mut d: i64 = 0;
    let mut i: u32 = 0;
    while i < n
        invariant
            r.wf(),
            i <= n,
            old(r)@ == c0,
            sign == (if negative {
                -1int
            } else {
                1int
            }),
            explicit_half(c0, i as nat, sign) == (out@, r@),
            out@.len() == i,
            d == (if i == 0 {
                0
            } else {
                out@.last().0 as int
            }),
            delta_in_range(d as int),
        decreases n - i,
    {
        proof {
            lemma_rps_loops_sticky(c0, (i + 1) as nat, n as nat, sign);
        }
        let step: i64 = r.ue()? as i64 + 1;
        assert(-1 * step == -step && 1 * step == step);
        d = if negative {
            d - step
        } else {
            d + step
        };
        if d < -0x8000_0000 || d > 0x7fff_ffff {
            return Err(malformed("RPS delta out of range"));
        }
        let used = r.flag()?;
        out.push((d as i32, used));
        i = i + 1;
    }
    Ok(out)
}

fn parse_explicit_rps(r: &mut BitReader<'_>) -> (res: Result<StRps, H265Error>)
    requires
        old(r).wf(),
    ensures
        final(r).wf(),
        ({
            let (v, end) = explicit_rps(old(r)@);
            match res {
                Ok(x) => end.err is None && final(r)@ == end && x@ == v && x@.count() <= 32,
                Err(e) => end.err == Some(e@),
            }
        }),
{
    proof {
        reveal(explicit_rps);
        lemma_rps_loops_error();
    }
    let num_neg: u32 = r.ue()?;
    let num_pos: u32 = r.ue()?;
    if num_neg > 16 || num_pos > 16 {
        return Err(malformed("RPS with >16 pics"));
    }
    let neg = parse_explicit_half(r, num_neg, true)?;
    let pos = parse_explicit_half(r, num_pos, false)?;
    Ok(StRps { neg, pos })
}

fn parse_candidate_flags(r: &mut BitReader<'_>, n: usize) -> (res: Result<
    Vec<(bool, bool)>,
    H265Error,
>)
    requires
        old(r).wf(),
    ensures
        final(r).wf(),
        ({
            let (v, end) = candidate_flags(old(r)@, n as nat);
            match res {
                Ok(x) => end.err is None && final(r)@ == end && x@ == v && x@.len() == n,
                Err(e) => end.err == Some(e@),
            }
        }),
{
    let ghost c0 = r@;
    let mut out: Vec<(bool, bool)> = Vec::new();
    let mut i: usize = 0;
    while i < n
        invariant
            r.wf(),
            i <= n,
            old(r)@ == c0,
            candidate_flags(c0, i as nat) == (out@, r@),
            out@.len() == i,
        decreases n - i,
    {
        proof {
            lemma_rps_loops_sticky(c0, (i + 1) as nat, n as nat, 1);
        }
        let used = r.flag()?;
        let use_delta = if used {
            true
        } else {
            r.flag()?
        };
        out.push((used, use_delta));
        i = i + 1;
    }
    Ok(out)
}

/// An executable candidate of a predicted set.
#[derive(Clone, Copy)]
struct Cand {
    delta: i64,
    used: bool,
    keep: bool,
}

spec fn cand_views(v: Seq<Cand>) -> Seq<Candidate> {
    v.map_values(|c: Cand| Candidate { delta: c.delta as int, used: c.used, keep: c.keep })
}

fn build_candidates(base: &StRps, delta: i64, flags: &Vec<(bool, bool)>) -> (v: Vec<Cand>)
    requires
        base.countable(),
        flags@.len() == base@.count() + 1,
        delta_in_range(delta as int),
    ensures
        cand_views(v@) == candidates(base@, delta as int, flags@),
        v@.len() == base@.count() + 1,
{
    let np: usize = base.pos.len();
    let nn: usize = base.neg.len();
    let mut v: Vec<Cand> = Vec::new();
    let ghost all = candidates(base@, delta as int, flags@);
    let mut k: usize = 0;
    while k < np + 1 + nn
        invariant
            base.countable(),
            np == base@.pos.len(),
            nn == base@.neg.len(),
            flags@.len() == base@.count() + 1,
            delta_in_range(delta as int),
            k <= np + 1 + nn,
            all == candidates(base@, delta as int, flags@),
            v@.len() == k,
            forall|i: int|
                0 <= i < k ==> (#[trigger] v@[i]).delta == all[i].delta && v@[i].used
                    == all[i].used && v@[i].keep == all[i].keep,
        decreases np + 1 + nn - k,
    {
        let (d, f): (i64, (bool, bool)) = if k < np {
            (base.pos[np - 1 - k].0 as i64 + delta, flags[nn + (np - 1 - k)])
        } else if k == np {
            (delta, flags[nn + np])
        } else {
            (base.neg[k - np - 1].0 as i64 + delta, flags[k - np - 1])
        };
        v.push(Cand { delta: d, used: f.0, keep: f.1 });
        k = k + 1;
    }
    assert(cand_views(v@) =~= all);
    v
}

/// The kept candidates on one side of zero; positive deltas from the end.
fn keep_side(cands: &Vec<Cand>, negative: bool) -> (out: Vec<(i32, bool)>)
    requires
        candidates_in_range(cand_views(cands@)),
    ensures
        negative ==> out@ == kept(cand_views(cands@), cands@.len(), true),
        !negative ==> out@ == kept(cand_views(cands@).reverse(), cands@.len(), false),
        out@.len() <= cands@.len(),
{
    let ghost views = cand_views(cands@);
    let ghost list = if negative {
        views
    } else {
        views.reverse()
    };
    let mut out: Vec<(i32, bool)> = Vec::new();
    let mut k: usize = 0;
    while k < cands.len()
        invariant
            k <= cands@.len(),
            candidates_in_range(views),
            views == cand_views(cands@),
            list == (if negative {
                views
            } else {
                views.reverse()
            }),
            out@ == kept(list, k as nat, negative),
            out@.len() <= k,
        decreases cands@.len() - k,
    {
        let at: usize = if negative {
            k
        } else {
            cands.len() - 1 - k
        };
        let c: Cand = cands[at];
        assert(list[k as int] == views[at as int]);
        assert(delta_in_range(views[at as int].delta));
        if c.keep && (if negative {
            c.delta < 0
        } else {
            c.delta > 0
        }) {
            out.push((c.delta as i32, c.used));
        }
        k = k + 1;
    }
    out
}

fn parse_predicted_rps(r: &mut BitReader<'_>, base: &StRps) -> (res: Result<StRps, H265Error>)
    requires
        old(r).wf(),
        base.countable(),
    ensures
        final(r).wf(),
        ({
            let (v, end) = predicted_rps(old(r)@, base@);
            match res {
                Ok(x) => end.err is None && final(r)@ == end && x@ == v && x@.count()
                    <= base@.count() + 1,
                Err(e) => end.err == Some(e@),
            }
        }),
{
    proof {
        reveal(predicted_rps);
        lemma_rps_loops_error();
        predicted_set_grows_by_at_most_one(old(r)@, base@);
    }
    let sign = r.flag()?;
    let step: i64 = r.ue()? as i64 + 1;
    let delta: i64 = if sign {
        -step
    } else {
        step
    };
    if delta < -0x8000_0000 || delta > 0x7fff_ffff {
        return Err(malformed("RPS delta out of range"));
    }
    let n: usize = base.num_delta_pocs();
    let flags = parse_candidate_flags(r, n + 1)?;
    let cands = build_candidates(base, delta, &flags);
    let ghost views = cand_views(cands@);
    let mut k: usize = 0;
    while k < cands.len()
        invariant
            k <= cands@.len(),
            views == cand_views(cands@),
            views == candidates(base@, delta as int, flags@),
            old(r).wf(),
            r.wf(),
            forall|i: int| 0 <= i < k ==> delta_in_range((#[trigger] views[i]).delta),
            ({
                let (_, end) = predicted_rps(old(r)@, base@);
                !candidates_in_range(views) ==> end.err == Some(delta_range_error())
            }),
        decreases cands@.len() - k,
    {
        let d: i64 = cands[k].delta;
        assert(views[k as int].delta == d);
        if d < -0x8000_0000 || d > 0x7fff_ffff {
            return Err(malformed("RPS delta out of range"));
        }
        k = k + 1;
    }
    let neg = keep_side(&cands, true);
    let pos = keep_side(&cands, false);
    Ok(StRps { neg, pos })
}

/// Parses st_ref_pic_set(idx). `sets` are the sets parsed before it, and
/// `slice_context` says that the set stands in a slice header, where the
/// reference set is named by its distance. Returns the resolved set and the
/// index of the reference set when it was predicted.
pub fn parse_st_rps(
    r: &mut BitReader<'_>,
    idx: usize,
    sets: &[StRps],
    slice_context: bool,
) -> (res: Result<(StRps, Option<usize>), H265Error>)
    requires
        old(r).wf(),
        forall|i: int| 0 <= i < sets@.len() ==> (#[trigger] sets@[i]).countable(),
    ensures
        final(r).wf(),
        ({
            let (v, end) = st_rps_syntax(old(r)@, idx as nat, rps_views(sets@), slice_context);
            match res {
                Ok(x) => {
                    &&& end.err is None
                    &&& final(r)@ == end
                    &&& x.0@ == v.0
                    &&& match x.1 {
                        Some(i) => v.1 == Some(i as nat) && i < sets@.len() && x.0@.count()
                            <= sets@[i as int]@.count() + 1,
                        None => v.1 is None && x.0@.count() <= 32,
                    }
                },
                Err(e) => end.err == Some(e@),
            }
        }),
{
    proof {
        reveal(st_rps_syntax);
        lemma_rps_error();
    }
    let inter = if idx != 0 {
        r.flag()?
    } else {
        false
    };
    if inter {
        let delta_idx_minus1: usize = if slice_context {
            r.ue()? as usize
        } else {
            0
        };
        if idx < delta_idx_minus1 + 1 {
            return Err(malformed("RPS delta_idx out of range"));
        }
        let ref_idx: usize = idx - (delta_idx_minus1 + 1);
        if ref_idx >= sets.len() {
            return Err(malformed("RPS reference index out of range"));
        }
        assert(rps_views(sets@)[ref_idx as int] == sets@[ref_idx as int]@);
        let set = parse_predicted_rps(r, &sets[ref_idx])?;
        Ok((set, Some(ref_idx)))
    } else {
        let set = parse_explicit_rps(r)?;
        Ok((set, None))
    }
}

/// Sequence parameter set.
#[derive(Debug, Clone)]
pub struct H265Sps {
    pub vps_id: u8,
    pub sps_id: u8,
    pub max_sub_layers_minus1: u8,
    pub temporal_id_nesting: bool,
    pub ptl: Ptl,
    pub chroma_format_idc: u32,
    /// Coded luma size (already MinCbSize-aligned by the encoder).
    pub width: u32,
    pub height: u32,
    /// Conformance window in luma pixels: left, right, top, bottom.
    pub crop: [u32; 4],
    pub bit_depth_luma: u8,
    pub bit_depth_chroma: u8,
    pub log2_max_poc_lsb: u32,
    pub max_dec_pic_buffering: u8,
    pub max_num_reorder_pics: u8,
    pub log2_min_cb_minus3: u8,
    pub log2_diff_cb: u8,
    pub log2_min_tb_minus2: u8,
    pub log2_diff_tb: u8,
    pub max_th_depth_inter: u8,
    pub max_th_depth_intra: u8,
    pub scaling_list_enabled: bool,
    pub amp_enabled: bool,
    pub sao_enabled: bool,
    pub pcm_enabled: bool,
    pub st_rps: Vec<StRps>,
    pub temporal_mvp: bool,
    pub strong_intra_smoothing: bool,
}

/// The coding block and transform sizes of a sequence parameter set.
pub struct BlockSizes {
    pub log2_min_cb_minus3: u8,
    pub log2_diff_cb: u8,
    pub log2_min_tb_minus2: u8,
    pub log2_diff_tb: u8,
    pub max_th_depth_inter: u8,
    pub max_th_depth_intra: u8,
}

/// The syntax elements of a sequence parameter set.
pub struct H265SpsView {
    pub vps_id: u8,
    pub sps_id: u8,
    pub max_sub_layers_minus1: u8,
    pub temporal_id_nesting: bool,
    pub ptl: Ptl,
    pub chroma_format_idc: u32,
    pub width: u32,
    pub height: u32,
    pub crop: Seq<u32>,
    pub bit_depth: (u8, u8),
    pub log2_max_poc_lsb: u32,
    pub max_dec_pic_buffering: u8,
    pub max_num_reorder_pics: u8,
    pub blocks: BlockSizes,
    pub scaling_list_enabled: bool,
    pub amp_enabled: bool,
    pub sao_enabled: bool,
    pub pcm_enabled: bool,
    pub st_rps: Seq<StRpsView>,
    pub temporal_mvp: bool,
    pub strong_intra_smoothing: bool,
}

impl View for H265Sps {
    type V = H265SpsView;

    open spec fn view(&self) -> H265SpsView {
        H265SpsView {
            vps_id: self.vps_id,
            sps_id: self.sps_id,
            max_sub_layers_minus1: self.max_sub_layers_minus1,
            temporal_id_nesting: self.temporal_id_nesting,
            ptl: self.ptl,
            chroma_format_idc: self.chroma_format_idc,
            width: self.width,
            height: self.height,
            crop: self.crop@,
            bit_depth: (self.bit_depth_luma, self.bit_depth_chroma),
            log2_max_poc_lsb: self.log2_max_poc_lsb,
            max_dec_pic_buffering: self.max_dec_pic_buffering,
            max_num_reorder_pics: self.max_num_reorder_pics,
            blocks: BlockSizes {
                log2_min_cb_minus3: self.log2_min_cb_minus3,
                log2_diff_cb: self.log2_diff_cb,
                log2_min_tb_minus2: self.log2_min_tb_minus2,
                log2_diff_tb: self.log2_diff_tb,
                max_th_depth_inter: self.max_th_depth_inter,
                max_th_depth_intra: self.max_th_depth_intra,
            },
            scaling_list_enabled: self.scaling_list_enabled,
            amp_enabled: self.amp_enabled,
            sao_enabled: self.sao_enabled,
            pcm_enabled: self.pcm_enabled,
            st_rps: rps_views(self.st_rps@),
            temporal_mvp: self.temporal_mvp,
            strong_intra_smoothing: self.strong_intra_smoothing,
        }
    }
}

/// The first `n` offsets of the conformance window, in luma pixels: twice
/// the coded chroma offsets.
pub open spec fn window_syntax(c: Cursor, n: nat) -> (Seq<u32>, Cursor)
    decreases n,
{
    if n == 0 {
        (Seq::empty(), c)
    } else {
        let (s, c) = window_syntax(c, (n - 1) as nat);
        let (v, c) = c.ue();
        let c = c.reject_if(
            2 * v > u32::MAX,
            ErrorView::Malformed("conformance window out of range"@),
        );
        (s.push((2 * v) as u32), c)
    }
}

/// The conformance window, zero where it is absent.
#[verifier::opaque]
pub open spec fn crop_syntax(c: Cursor) -> (Seq<u32>, Cursor) {
    let (present, c) = c.flag();
    if present {
        window_syntax(c, 4)
    } else {
        (seq![0u32, 0u32, 0u32, 0u32], c)
    }
}

/// The bit depths of luma and chroma, coded from 8 up: both 8 or both 10.
#[verifier::opaque]
pub open spec fn depth_syntax(c: Cursor) -> ((u8, u8), Cursor) {
    let (luma, c) = c.ue();
    let (chroma, c) = c.ue();
    let c = c.reject_if(
        !(luma == 0 || luma == 2) || chroma != luma,
        ErrorView::Unsupported(
            "bit depth "@ + crate::text::dec(luma + 8) + "/"@ + crate::text::dec(chroma + 8)
                + " (8- or 10-bit only)"@,
        ),
    );
    (((luma + 8) as u8, (chroma + 8) as u8), c)
}

/// The DPB size and reorder depth of the last of `n` sub-layers.
pub open spec fn ordering_syntax(c: Cursor, n: nat) -> ((u8, u8), Cursor)
    decreases n,
{
    if n == 0 {
        ((1, 0), c)
    } else {
        let (_, c) = ordering_syntax(c, (n - 1) as nat);
        let (buffering, c) = c.ue();
        let c = c.reject_if(
            buffering % 256 == 255,
            ErrorView::Malformed("max_dec_pic_buffering out of range"@),
        );
        let (reorder, c) = c.ue();
        let (_, c) = c.ue();
        (((buffering % 256 + 1) as u8, (reorder % 256) as u8), c)
    }
}

/// The coding block and transform sizes.
#[verifier::opaque]
pub open spec fn blocks_syntax(c: Cursor) -> (BlockSizes, Cursor) {
    let (min_cb, c) = c.ue();
    let (diff_cb, c) = c.ue();
    let (min_tb, c) = c.ue();
    let (diff_tb, c) = c.ue();
    let (inter, c) = c.ue();
    let (intra, c) = c.ue();
    (
        BlockSizes {
            log2_min_cb_minus3: (min_cb % 256) as u8,
            log2_diff_cb: (diff_cb % 256) as u8,
            log2_min_tb_minus2: (min_tb % 256) as u8,
            log2_diff_tb: (diff_tb % 256) as u8,
            max_th_depth_inter: (inter % 256) as u8,
            max_th_depth_intra: (intra % 256) as u8,
        },
        c,
    )
}

/// The coding tool flags: scaling lists (without data), asymmetric motion
/// partitions, sample adaptive offset, PCM (whose parameters are skipped).
#[verifier::opaque]
pub open spec fn tools_syntax(c: Cursor) -> ((bool, bool, bool, bool), Cursor) {
    let (scaling, c) = c.flag();
    let (data, c) = if scaling {
        c.flag()
    } else {
        (false, c)
    };
    let c = c.reject_if(scaling && data, ErrorView::Unsupported("SPS scaling list data"@));
    let (amp, c) = c.flag();
    let (sao, c) = c.flag();
    let (pcm, c) = c.flag();
    let c = if pcm {
        c.u(4).1.u(4).1.ue().1.ue().1.flag().1
    } else {
        c
    };
    ((scaling, amp, sao, pcm), c)
}

/// The first `n` short-term reference picture sets.
pub open spec fn sets_syntax(c: Cursor, n: nat) -> (Seq<StRpsView>, Cursor)
    decreases n,
{
    if n == 0 {
        (Seq::empty(), c)
    } else {
        let (sets, c) = sets_syntax(c, (n - 1) as nat);
        let ((set, _), c) = st_rps_syntax(c, (n - 1) as nat, sets, false);
        (sets.push(set), c)
    }
}

/// The list of short-term reference picture sets, behind its length.
#[verifier::opaque]
pub open spec fn set_list_syntax(c: Cursor) -> (Seq<StRpsView>, Cursor) {
    let (n, c) = c.ue();
    let c = c.reject_if(n > 64, ErrorView::Malformed("num_short_term_ref_pic_sets > 64"@));
    if c.err is Some {
        (Seq::empty(), c)
    } else {
        sets_syntax(c, n)
    }
}

/// The long-term reference pictures: none may be present.
#[verifier::opaque]
pub open spec fn long_term_syntax(c: Cursor) -> Cursor {
    let (present, c) = c.flag();
    c.reject_if(present, ErrorView::Unsupported("long-term reference pictures"@))
}

/// A sequence parameter set, without the trailing VUI and extensions.
pub open spec fn sps_syntax(rbsp: Seq<u8>) -> (H265SpsView, Cursor) {
    let c = Cursor::start(rbsp);
    let (vps_id, c) = c.u(4);
    let (max_sub_layers_minus1, c) = c.u(3);
    let (temporal_id_nesting, c) = c.flag();
    let (ptl, c) = ptl_syntax(c, max_sub_layers_minus1);
    let (sps_id, c) = c.ue();
    let (chroma, c) = c.ue();
    let c = c.reject_if(
        chroma != 1,
        ErrorView::Unsupported(
            "chroma_format_idc "@ + crate::text::dec(chroma) + " (only 4:2:0)"@,
        ),
    );
    let (width, c) = c.ue();
    let (height, c) = c.ue();
    let (crop, c) = crop_syntax(c);
    let (bit_depth, c) = depth_syntax(c);
    let (log2_lsb, c) = c.ue();
    let c = c.reject_if(
        log2_lsb + 4 > u32::MAX,
        ErrorView::Malformed("log2_max_pic_order_cnt_lsb out of range"@),
    );
    let (per_sub_layer, c) = c.flag();
    let ((max_dec_pic_buffering, max_num_reorder_pics), c) = ordering_syntax(
        c,
        if per_sub_layer {
            max_sub_layers_minus1 + 1
        } else {
            1
        },
    );
    let (blocks, c) = blocks_syntax(c);
    let ((scaling_list_enabled, amp_enabled, sao_enabled, pcm_enabled), c) = tools_syntax(c);
    let (st_rps, c) = set_list_syntax(c);
    let c = long_term_syntax(c);
    let (temporal_mvp, c) = c.flag();
    let (strong_intra_smoothing, c) = c.flag();
    (
        H265SpsView {
            vps_id: vps_id as u8,
            sps_id: (sps_id % 256) as u8,
            max_sub_layers_minus1: max_sub_layers_minus1 as u8,
            temporal_id_nesting,
            ptl,
            chroma_format_idc: 1,
            width: width as u32,
            height: height as u32,
            crop,
            bit_depth,
            log2_max_poc_lsb: (log2_lsb + 4) as u32,
            max_dec_pic_buffering,
            max_num_reorder_pics,
            blocks,
            scaling_list_enabled,
            amp_enabled,
            sao_enabled,
            pcm_enabled,
            st_rps,
            temporal_mvp,
            strong_intra_smoothing,
        },
        c,
    )
}

proof fn lemma_sps_loops_sticky(c: Cursor, m: nat, n: nat)
    requires
        m <= n,
    ensures
        window_syntax(c, m).1.err is Some ==> window_syntax(c, n).1 == window_syntax(c, m).1,
        ordering_syntax(c, m).1.err is Some ==> ordering_syntax(c, n).1 == ordering_syntax(
            c,
            m,
        ).1,
        sets_syntax(c, m).1.err is Some ==> sets_syntax(c, n).1 == sets_syntax(c, m).1,
    decreases n,
{
    if m < n {
        lemma_sps_loops_sticky(c, m, (n - 1) as nat);
        lemma_rps_error();
    }
}

/// The parts of a sequence parameter set leave a failed cursor as it is.
pub proof fn lemma_sps_parts_error()
    ensures
        forall|c: Cursor| c.err is Some ==> (#[trigger] crop_syntax(c)).1 == c,
        forall|c: Cursor| c.err is Some ==> (#[trigger] depth_syntax(c)).1 == c,
        forall|c: Cursor, n: nat| c.err is Some ==> (#[trigger] ordering_syntax(c, n)).1 == c,
        forall|c: Cursor| c.err is Some ==> (#[trigger] blocks_syntax(c)).1 == c,
        forall|c: Cursor| c.err is Some ==> (#[trigger] tools_syntax(c)).1 == c,
        forall|c: Cursor| c.err is Some ==> (#[trigger] set_list_syntax(c)).1 == c,
        forall|c: Cursor| c.err is Some ==> #[trigger] long_term_syntax(c) == c,
        forall|c: Cursor, n: nat| c.err is Some ==> (#[trigger] ptl_syntax(c, n)).1 == c,
{
    lemma_ptl_error();
    reveal(crop_syntax);
    reveal(depth_syntax);
    reveal(blocks_syntax);
    reveal(tools_syntax);
    reveal(set_list_syntax);
    reveal(long_term_syntax);
    assert forall|c: Cursor, n: nat| c.err is Some implies (#[trigger] ordering_syntax(c, n)).1
        == c by {
        lemma_sps_loops_sticky(c, 0, n);
    }
}

fn parse_crop(r: &mut BitReader<'_>) -> (res: Result<[u32; 4], H265Error>)
    requires
        old(r).wf(),
    ensures
        final(r).wf(),
        ({
            let (v, end) = crop_syntax(old(r)@);
            match res {
                Ok(x) => end.err is None && final(r)@ == end && x@ == v,
                Err(e) => end.err == Some(e@),
            }
        }),
{
    proof {
        reveal(crop_syntax);
        lemma_sps_loops_sticky(old(r)@.flag().1, 0, 4);
    }
    let mut crop: [u32; 4] = [0; 4];
    assert(crop@ =~= seq![0u32, 0u32, 0u32, 0u32]);
    if r.flag()? {
        let ghost c0 = r@;
        let mut i: usize = 0;
        while i < 4
            invariant
                r.wf(),
                i <= 4,
                window_syntax(c0, i as nat).1 == r@,
                window_syntax(c0, i as nat).0 == crop@.take(i as int),
                crop_syntax(old(r)@) == window_syntax(c0, 4),
            decreases 4 - i,
        {
            proof {
                lemma_sps_loops_sticky(c0, (i + 1) as nat, 4);
            }
            let v: u32 = r.ue()?;
            if v > u32::MAX / 2 {
                return Err(malformed("conformance window out of range"));
            }
            let ghost before = crop@;
            crop[i] = v * 2;
            i = i + 1;
            assert(crop@.take(i as int) =~= before.take(i - 1).push((2 * v) as u32));
        }
        assert(crop@.take(4) =~= crop@);
    }
    Ok(crop)
}

fn depth_message(l: u64, h: u64) -> (e: H265Error)
    ensures
        e@ == ErrorView::Unsupported(
            "bit depth "@ + crate::text::dec(l as nat) + "/"@ + crate::text::dec(h as nat)
                + " (8- or 10-bit only)"@,
        ),
{
    let a = with_number("bit depth ", l, "/");
    let b = with_number(a.as_str(), h, " (8- or 10-bit only)");
    H264Error::Unsupported(b)
}

fn parse_depth(r: &mut BitReader<'_>) -> (res: Result<(u8, u8), H265Error>)
    requires
        old(r).wf(),
    ensures
        final(r).wf(),
        ({
            let (v, end) = depth_syntax(old(r)@);
            match res {
                Ok(x) => end.err is None && final(r)@ == end && x == v,
                Err(e) => end.err == Some(e@),
            }
        }),
{
    proof {
        reveal(depth_syntax);
    }
    let luma: u32 = r.ue()?;
    let chroma: u32 = r.ue()?;
    if !(luma == 0 || luma == 2) || chroma != luma {
        return Err(depth_message(luma as u64 + 8, chroma as u64 + 8));
    }
    Ok((luma as u8 + 8, chroma as u8 + 8))
}

fn parse_ordering(r: &mut BitReader<'_>, n: u8) -> (res: Result<(u8, u8), H265Error>)
    requires
        old(r).wf(),
    ensures
        final(r).wf(),
        ({
            let (v, end) = ordering_syntax(old(r)@, n as nat);
            match res {
                Ok(x) => end.err is None && final(r)@ == end && x == v,
                Err(e) => end.err == Some(e@),
            }
        }),
{
    let ghost c0 = r@;
    let mut buffering: u8 = 1;
    let mut reorder: u8 = 0;
    let mut i: u8 = 0;
    while i < n
        invariant
            r.wf(),
            i <= n,
            old(r)@ == c0,
            ordering_syntax(c0, i as nat) == ((buffering, reorder), r@),
        decreases n - i,
    {
        proof {
            lemma_sps_loops_sticky(c0, (i + 1) as nat, n as nat);
        }
        let b: u8 = low_byte(r.ue()?);
        if b == 255 {
            return Err(malformed("max_dec_pic_buffering out of range"));
        }
        buffering = b + 1;
        reorder = low_byte(r.ue()?);
        let _latency: u32 = r.ue()?;
        i = i + 1;
    }
    Ok((buffering, reorder))
}

fn parse_blocks(r: &mut BitReader<'_>) -> (res: Result<BlockSizes, H265Error>)
    requires
        old(r).wf(),
    ensures
        final(r).wf(),
        ({
            let (v, end) = blocks_syntax(old(r)@);
            match res {
                Ok(x) => end.err is None && final(r)@ == end && x == v,
                Err(e) => end.err == Some(e@),
            }
        }),
{
    proof {
        reveal(blocks_syntax);
    }
    let log2_min_cb_minus3: u8 = low_byte(r.ue()?);
    let log2_diff_cb: u8 = low_byte(r.ue()?);
    let log2_min_tb_minus2: u8 = low_byte(r.ue()?);
    let log2_diff_tb: u8 = low_byte(r.ue()?);
    let max_th_depth_inter: u8 = low_byte(r.ue()?);
    let max_th_depth_intra: u8 = low_byte(r.ue()?);
    Ok(
        BlockSizes {
            log2_min_cb_minus3,
            log2_diff_cb,
            log2_min_tb_minus2,
            log2_diff_tb,
            max_th_depth_inter,
            max_th_depth_intra,
        },
    )
}

fn parse_tools(r: &mut BitReader<'_>) -> (res: Result<(bool, bool, bool, bool), H265Error>)
    requires
        old(r).wf(),
    ensures
        final(r).wf(),
        ({
            let (v, end) = tools_syntax(old(r)@);
            match res {
                Ok(x) => end.err is None && final(r)@ == end && x == v,
                Err(e) => end.err == Some(e@),
            }
        }),
{
    proof {
        reveal(tools_syntax);
    }
    let scaling = r.flag()?;
    if scaling {
        if r.flag()? {
            return Err(unsupported("SPS scaling list data"));
        }
    }
    let amp = r.flag()?;
    let sao = r.flag()?;
    let pcm = r.flag()?;
    if pcm {
        let _depth_luma: u32 = r.u(4)?;
        let _depth_chroma: u32 = r.u(4)?;
        let _log2_min: u32 = r.ue()?;
        let _log2_diff: u32 = r.ue()?;
        let _loop_filter_disabled = r.flag()?;
    }
    Ok((scaling, amp, sao, pcm))
}

/// What a list of parsed sets satisfies: nearest pictures first, and at most
/// 32 pictures plus one for each set before.
pub open spec fn sets_wf(sets: Seq<StRps>) -> bool {
    forall|i: int|
        0 <= i < sets.len() ==> (#[trigger] sets[i])@.nearest_first() && sets[i]@.count() <= 32 + i
}

fn parse_set_list(r: &mut BitReader<'_>) -> (res: Result<Vec<StRps>, H265Error>)
    requires
        old(r).wf(),
    ensures
        final(r).wf(),
        ({
            let (v, end) = set_list_syntax(old(r)@);
            match res {
                Ok(x) => end.err is None && final(r)@ == end && rps_views(x@) == v && sets_wf(x@)
                    && x@.len() <= 64,
                Err(e) => end.err == Some(e@),
            }
        }),
{
    proof {
        reveal(set_list_syntax);
    }
    let n: u32 = r.ue()?;
    if n > 64 {
        return Err(malformed("num_short_term_ref_pic_sets > 64"));
    }
    let ghost c0 = r@;
    let mut sets: Vec<StRps> = Vec::new();
    assert(rps_views(sets@) =~= Seq::empty());
    let mut i: usize = 0;
    while i < n as usize
        invariant
            r.wf(),
            i <= n <= 64,
            sets@.len() == i,
            sets_syntax(c0, i as nat) == (rps_views(sets@), r@),
            sets_wf(sets@),
            set_list_syntax(old(r)@) == sets_syntax(c0, n as nat),
        decreases n - i,
    {
        let ghost c1 = r@;
        let ghost before = sets@;
        proof {
            lemma_sps_loops_sticky(c0, (i + 1) as nat, n as nat);
            assert forall|k: int| 0 <= k < sets@.len() implies (
            #[trigger] sets@[k]).countable() by {
                assert(sets@[k]@.count() <= 32 + k);
            }
        }
        let (set, from) = parse_st_rps(r, i, sets.as_slice(), false)?;
        proof {
            assert forall|k: int| 0 <= k < rps_views(before).len() implies (
            #[trigger] rps_views(before)[k]).nearest_first() by {
                assert(before[k]@.nearest_first());
            }
            parsed_sets_are_nearest_first(c1, i as nat, rps_views(before), false);
            if from is Some {
                assert(before[from->0 as int]@.count() <= 32 + from->0);
            }
        }
        sets.push(set);
        assert(rps_views(sets@) =~= rps_views(before).push(set@));
        assert forall|k: int| 0 <= k < sets@.len() implies (
        #[trigger] sets@[k])@.nearest_first() && sets@[k]@.count() <= 32 + k by {
            if k < before.len() {
                assert(sets@[k] == before[k]);
            }
        }
        i = i + 1;
    }
    Ok(sets)
}

fn parse_long_term(r: &mut BitReader<'_>) -> (res: Result<(), H265Error>)
    requires
        old(r).wf(),
    ensures
        final(r).wf(),
        ({
            let end = long_term_syntax(old(r)@);
            match res {
                Ok(_) => end.err is None && final(r)@ == end,
                Err(e) => end.err == Some(e@),
            }
        }),
{
    proof {
        reveal(long_term_syntax);
    }
    if r.flag()? {
        return Err(unsupported("long-term reference pictures"));
    }
    Ok(())
}

/// Parses a sequence parameter set NAL, header bytes included.
pub fn parse_sps(nal: &[u8]) -> (res: Result<H265Sps, H265Error>)
    requires
        8 * nal@.len() <= usize::MAX,
    ensures
        nal@.len() < 4 ==> (res matches Err(e) && e@ == ErrorView::Malformed("SPS too short"@)),
        nal@.len() >= 4 ==> ({
            let (v, end) = sps_syntax(crate::bitstream::rbsp_of(nal@.skip(2)));
            match res {
                Ok(s) => end.err is None && s@ == v,
                Err(e) => end.err == Some(e@),
            }
        }),
        res matches Ok(s) ==> sets_wf(s.st_rps@) && s.st_rps@.len() <= 64,
{
    if nal.len() < 4 {
        return Err(malformed("SPS too short"));
    }
    let rbsp = to_rbsp(vstd::slice::slice_subrange(nal, 2, nal.len()));
    assert(nal@.subrange(2, nal@.len() as int) =~= nal@.skip(2));
    let mut reader = BitReader::new(rbsp.as_slice());
    let r = &mut reader;
    proof {
        crate::bitstream::lemma_u_bound(4);
        crate::bitstream::lemma_u_bound(3);
        lemma_sps_parts_error();
    }
    let vps_id: u8 = r.u(4)? as u8;
    let max_sub_layers_minus1: u8 = r.u(3)? as u8;
    let temporal_id_nesting = r.flag()?;
    let ptl = parse_ptl(r, max_sub_layers_minus1)?;
    let sps_id: u8 = low_byte(r.ue()?);
    let chroma_format_idc: u32 = r.ue()?;
    if chroma_format_idc != 1 {
        return Err(
            H264Error::Unsupported(
                with_number("chroma_format_idc ", chroma_format_idc as u64, " (only 4:2:0)"),
            ),
        );
    }
    let width: u32 = r.ue()?;
    let height: u32 = r.ue()?;
    let crop: [u32; 4] = parse_crop(r)?;
    let (bit_depth_luma, bit_depth_chroma) = parse_depth(r)?;
    let log2_lsb: u32 = r.ue()?;
    if log2_lsb > u32::MAX - 4 {
        return Err(malformed("log2_max_pic_order_cnt_lsb out of range"));
    }
    let per_sub_layer = r.flag()?;
    let layers: u8 = if per_sub_layer {
        max_sub_layers_minus1 + 1
    } else {
        1
    };
    let (max_dec_pic_buffering, max_num_reorder_pics) = parse_ordering(r, layers)?;
    let blocks = parse_blocks(r)?;
    let (scaling_list_enabled, amp_enabled, sao_enabled, pcm_enabled) = parse_tools(r)?;
    let st_rps = parse_set_list(r)?;
    parse_long_term(r)?;
    let temporal_mvp = r.flag()?;
    let strong_intra_smoothing = r.flag()?;
    Ok(
        H265Sps {
            vps_id,
            sps_id,
            max_sub_layers_minus1,
            temporal_id_nesting,
            ptl,
            chroma_format_idc,
            width,
            height,
            crop,
            bit_depth_luma,
            bit_depth_chroma,
            log2_max_poc_lsb: log2_lsb + 4,
            max_dec_pic_buffering,
            max_num_reorder_pics,
            log2_min_cb_minus3: blocks.log2_min_cb_minus3,
            log2_diff_cb: blocks.log2_diff_cb,
            log2_min_tb_minus2: blocks.log2_min_tb_minus2,
            log2_diff_tb: blocks.log2_diff_tb,
            max_th_depth_inter: blocks.max_th_depth_inter,
            max_th_depth_intra: blocks.max_th_depth_intra,
            scaling_list_enabled,
            amp_enabled,
            sao_enabled,
            pcm_enabled,
            st_rps,
            temporal_mvp,
            strong_intra_smoothing,
        },
    )
}

/// Picture parameter set.
#[derive(Debug, Clone, Copy, PartialEq, Eq, Structural)]
pub struct H265Pps {
    pub pps_id: u8,
    pub sps_id: u8,
    pub dependent_slice_segments: bool,
    pub output_flag_present: bool,
    pub num_extra_slice_header_bits: u8,
    pub sign_data_hiding: bool,
    pub cabac_init_present: bool,
    pub num_ref_idx_l0_default: u32,
    pub num_ref_idx_l1_default: u32,
    pub init_qp_minus26: i32,
    pub constrained_intra: bool,
    pub transform_skip: bool,
    pub cu_qp_delta_enabled: bool,
    pub diff_cu_qp_delta_depth: u32,
    pub cb_qp_offset: i32,
    pub cr_qp_offset: i32,
    pub slice_chroma_qp_offsets_present: bool,
    pub weighted_pred: bool,
    pub weighted_bipred: bool,
    pub transquant_bypass: bool,
    pub tiles_enabled: bool,
    pub entropy_coding_sync: bool,
    pub loop_filter_across_tiles: bool,
    pub loop_filter_across_slices: bool,
    pub deblocking_control_present: bool,
    pub deblocking_override_enabled: bool,
    pub deblocking_disabled: bool,
    pub beta_offset_div2: i32,
    pub tc_offset_div2: i32,
    pub lists_modification_present: bool,
    pub log2_parallel_merge_level_minus2: u32,
    pub slice_header_extension: bool,
}

/// Tile structure: a single uniform tile at most. Gives the loop filter flag,
/// which is set where tiles are off.
#[verifier::opaque]
pub open spec fn tiles_syntax(c: Cursor, tiles_enabled: bool) -> (bool, Cursor) {
    if tiles_enabled {
        let (cols, c) = c.ue();
        let (rows, c) = c.ue();
        let c = c.reject_if(cols > 0 || rows > 0, ErrorView::Unsupported("tiled streams"@));
        let (uniform, c) = c.flag();
        let c = c.reject_if(!uniform, ErrorView::Unsupported("non-uniform tiles"@));
        c.flag()
    } else {
        (true, c)
    }
}

/// Deblocking control: (override enabled, disabled, beta, tc).
#[verifier::opaque]
pub open spec fn deblocking_syntax(c: Cursor, present: bool) -> ((bool, bool, int, int), Cursor) {
    if present {
        let (over, c) = c.flag();
        let (disabled, c) = c.flag();
        if disabled {
            ((over, disabled, 0, 0), c)
        } else {
            let (beta, c) = c.se();
            let (tc, c) = c.se();
            ((over, disabled, beta, tc), c)
        }
    } else {
        ((false, false, 0, 0), c)
    }
}

/// The identifiers and slice-level switches of a picture parameter set. What
/// the later parts fill in is off or zero.
#[verifier::opaque]
pub open spec fn pps_head_syntax(c: Cursor) -> (H265Pps, Cursor) {
    let (pps_id, c) = c.ue();
    let (sps_id, c) = c.ue();
    let (dependent_slice_segments, c) = c.flag();
    let (output_flag_present, c) = c.flag();
    let (num_extra_slice_header_bits, c) = c.u(3);
    let (sign_data_hiding, c) = c.flag();
    let (cabac_init_present, c) = c.flag();
    let (l0, c) = c.ue();
    let (l1, c) = c.ue();
    let (init_qp_minus26, c) = c.se();
    let (constrained_intra, c) = c.flag();
    let (transform_skip, c) = c.flag();
    (
        H265Pps {
            pps_id: (pps_id % 256) as u8,
            sps_id: (sps_id % 256) as u8,
            dependent_slice_segments,
            output_flag_present,
            num_extra_slice_header_bits: num_extra_slice_header_bits as u8,
            sign_data_hiding,
            cabac_init_present,
            num_ref_idx_l0_default: (l0 + 1) as u32,
            num_ref_idx_l1_default: (l1 + 1) as u32,
            init_qp_minus26: init_qp_minus26 as i32,
            constrained_intra,
            transform_skip,
            cu_qp_delta_enabled: false,
            diff_cu_qp_delta_depth: 0,
            cb_qp_offset: 0,
            cr_qp_offset: 0,
            slice_chroma_qp_offsets_present: false,
            weighted_pred: false,
            weighted_bipred: false,
            transquant_bypass: false,
            tiles_enabled: false,
            entropy_coding_sync: false,
            loop_filter_across_tiles: true,
            loop_filter_across_slices: false,
            deblocking_control_present: false,
            deblocking_override_enabled: false,
            deblocking_disabled: false,
            beta_offset_div2: 0,
            tc_offset_div2: 0,
            lists_modification_present: false,
            log2_parallel_merge_level_minus2: 0,
            slice_header_extension: false,
        },
        c,
    )
}

/// The quantisation and prediction part of a picture parameter set `p`.
#[verifier::opaque]
pub open spec fn pps_quant_syntax(c: Cursor, p: H265Pps) -> (H265Pps, Cursor) {
    let (cu_qp_delta_enabled, c) = c.flag();
    let (diff_cu_qp_delta_depth, c) = if cu_qp_delta_enabled {
        c.ue()
    } else {
        (0, c)
    };
    let (cb_qp_offset, c) = c.se();
    let (cr_qp_offset, c) = c.se();
    let (slice_chroma_qp_offsets_present, c) = c.flag();
    let (weighted_pred, c) = c.flag();
    let (weighted_bipred, c) = c.flag();
    let (transquant_bypass, c) = c.flag();
    let (tiles_enabled, c) = c.flag();
    let (entropy_coding_sync, c) = c.flag();
    (
        H265Pps {
            cu_qp_delta_enabled,
            diff_cu_qp_delta_depth: diff_cu_qp_delta_depth as u32,
            cb_qp_offset: cb_qp_offset as i32,
            cr_qp_offset: cr_qp_offset as i32,
            slice_chroma_qp_offsets_present,
            weighted_pred,
            weighted_bipred,
            transquant_bypass,
            tiles_enabled,
            entropy_coding_sync,
            ..p
        },
        c,
    )
}

/// The tile and filter part of a picture parameter set `p`.
#[verifier::opaque]
pub open spec fn pps_filter_syntax(c: Cursor, p: H265Pps) -> (H265Pps, Cursor) {
    let (loop_filter_across_tiles, c) = tiles_syntax(c, p.tiles_enabled);
    let (loop_filter_across_slices, c) = c.flag();
    let (deblocking_control_present, c) = c.flag();
    let ((over, disabled, beta, tc), c) = deblocking_syntax(c, deblocking_control_present);
    let (scaling_data, c) = c.flag();
    let c = c.reject_if(scaling_data, ErrorView::Unsupported("PPS scaling list data"@));
    let (lists_modification_present, c) = c.flag();
    let (log2_parallel_merge_level_minus2, c) = c.ue();
    let (slice_header_extension, c) = c.flag();
    (
        H265Pps {
            loop_filter_across_tiles,
            loop_filter_across_slices,
            deblocking_control_present,
            deblocking_override_enabled: over,
            deblocking_disabled: disabled,
            beta_offset_div2: beta as i32,
            tc_offset_div2: tc as i32,
            lists_modification_present,
            log2_parallel_merge_level_minus2: log2_parallel_merge_level_minus2 as u32,
            slice_header_extension,
            ..p
        },
        c,
    )
}

/// A picture parameter set, without its extensions.
pub open spec fn pps_syntax(rbsp: Seq<u8>) -> (H265Pps, Cursor) {
    let (p, c) = pps_head_syntax(Cursor::start(rbsp));
    let (p, c) = pps_quant_syntax(c, p);
    pps_filter_syntax(c, p)
}

proof fn lemma_pps_parts_error()
    ensures
        forall|c: Cursor, t: bool| c.err is Some ==> (#[trigger] tiles_syntax(c, t)).1 == c,
        forall|c: Cursor, t: bool| c.err is Some ==> (#[trigger] deblocking_syntax(c, t)).1 == c,
        forall|c: Cursor, p: H265Pps| c.err is Some ==> (#[trigger] pps_quant_syntax(c, p)).1 == c,
        forall|c: Cursor, p: H265Pps|
            c.err is Some ==> (#[trigger] pps_filter_syntax(c, p)).1 == c,
{
    reveal(tiles_syntax);
    reveal(deblocking_syntax);
    reveal(pps_quant_syntax);
    reveal(pps_filter_syntax);
}

fn parse_tiles(r: &mut BitReader<'_>, tiles_enabled: bool) -> (res: Result<bool, H265Error>)
    requires
        old(r).wf(),
    ensures
        final(r).wf(),
        ({
            let (v, end) = tiles_syntax(old(r)@, tiles_enabled);
            match res {
                Ok(x) => end.err is None && final(r)@ == end && x == v,
                Err(e) => end.err == Some(e@),
            }
        }),
{
    proof {
        reveal(tiles_syntax);
    }
    if tiles_enabled {
        let cols: u32 = r.ue()?;
        let rows: u32 = r.ue()?;
        if cols > 0 || rows > 0 {
            return Err(unsupported("tiled streams"));
        }
        if !r.flag()? {
            return Err(unsupported("non-uniform tiles"));
        }
        Ok(r.flag()?)
    } else {
        Ok(true)
    }
}

fn parse_deblocking(r: &mut BitReader<'_>, present: bool) -> (res: Result<
    (bool, bool, i32, i32),
    H265Error,
>)
    requires
        old(r).wf(),
    ensures
        final(r).wf(),
        ({
            let (v, end) = deblocking_syntax(old(r)@, present);
            match res {
                Ok(x) => end.err is None && final(r)@ == end && x.0 == v.0 && x.1 == v.1 && x.2
                    == v.2 && x.3 == v.3,
                Err(e) => end.err == Some(e@),
            }
        }),
{
    proof {
        reveal(deblocking_syntax);
    }
    if !present {
        return Ok((false, false, 0, 0));
    }
    let over = r.flag()?;
    let disabled = r.flag()?;
    if disabled {
        return Ok((over, disabled, 0, 0));
    }
    let beta: i32 = r.se()?;
    let tc: i32 = r.se()?;
    Ok((over, disabled, beta, tc))
}

fn parse_pps_head(r: &mut BitReader<'_>) -> (res: Result<H265Pps, H265Error>)
    requires
        old(r).wf(),
    ensures
        final(r).wf(),
        ({
            let (v, end) = pps_head_syntax(old(r)@);
            match res {
                Ok(x) => end.err is None && final(r)@ == end && x == v,
                Err(e) => end.err == Some(e@),
            }
        }),
{
    proof {
        reveal(pps_head_syntax);
        crate::bitstream::lemma_u_bound(3);
    }
    let pps_id: u8 = low_byte(r.ue()?);
    let sps_id: u8 = low_byte(r.ue()?);
    let dependent_slice_segments = r.flag()?;
    let output_flag_present = r.flag()?;
    let num_extra_slice_header_bits: u8 = r.u(3)? as u8;
    let sign_data_hiding = r.flag()?;
    let cabac_init_present = r.flag()?;
    let num_ref_idx_l0_default: u32 = r.ue()? + 1;
    let num_ref_idx_l1_default: u32 = r.ue()? + 1;
    let init_qp_minus26: i32 = r.se()?;
    let constrained_intra = r.flag()?;
    let transform_skip = r.flag()?;
    Ok(
        H265Pps {
            pps_id,
            sps_id,
            dependent_slice_segments,
            output_flag_present,
            num_extra_slice_header_bits,
            sign_data_hiding,
            cabac_init_present,
            num_ref_idx_l0_default,
            num_ref_idx_l1_default,
            init_qp_minus26,
            constrained_intra,
            transform_skip,
            cu_qp_delta_enabled: false,
            diff_cu_qp_delta_depth: 0,
            cb_qp_offset: 0,
            cr_qp_offset: 0,
            slice_chroma_qp_offsets_present: false,
            weighted_pred: false,
            weighted_bipred: false,
            transquant_bypass: false,
            tiles_enabled: false,
            entropy_coding_sync: false,
            loop_filter_across_tiles: true,
            loop_filter_across_slices: false,
            deblocking_control_present: false,
            deblocking_override_enabled: false,
            deblocking_disabled: false,
            beta_offset_div2: 0,
            tc_offset_div2: 0,
            lists_modification_present: false,
            log2_parallel_merge_level_minus2: 0,
            slice_header_extension: false,
        },
    )
}

fn parse_pps_quant(r: &mut BitReader<'_>, p: H265Pps) -> (res: Result<H265Pps, H265Error>)
    requires
        old(r).wf(),
    ensures
        final(r).wf(),
        ({
            let (v, end) = pps_quant_syntax(old(r)@, p);
            match res {
                Ok(x) => end.err is None && final(r)@ == end && x == v,
                Err(e) => end.err == Some(e@),
            }
        }),
{
    proof {
        reveal(pps_quant_syntax);
    }
    let cu_qp_delta_enabled = r.flag()?;
    let diff_cu_qp_delta_depth: u32 = if cu_qp_delta_enabled {
        r.ue()?
    } else {
        0
    };
    let cb_qp_offset: i32 = r.se()?;
    let cr_qp_offset: i32 = r.se()?;
    let slice_chroma_qp_offsets_present = r.flag()?;
    let weighted_pred = r.flag()?;
    let weighted_bipred = r.flag()?;
    let transquant_bypass = r.flag()?;
    let tiles_enabled = r.flag()?;
    let entropy_coding_sync = r.flag()?;
    Ok(
        H265Pps {
            cu_qp_delta_enabled,
            diff_cu_qp_delta_depth,
            cb_qp_offset,
            cr_qp_offset,
            slice_chroma_qp_offsets_present,
            weighted_pred,
            weighted_bipred,
            transquant_bypass,
            tiles_enabled,
            entropy_coding_sync,
            ..p
        },
    )
}

fn parse_pps_filter(r: &mut BitReader<'_>, p: H265Pps) -> (res: Result<H265Pps, H265Error>)
    requires
        old(r).wf(),
    ensures
        final(r).wf(),
        ({
            let (v, end) = pps_filter_syntax(old(r)@, p);
            match res {
                Ok(x) => end.err is None && final(r)@ == end && x == v,
                Err(e) => end.err == Some(e@),
            }
        }),
{
    proof {
        lemma_pps_parts_error();
        reveal(pps_filter_syntax);
    }
    let loop_filter_across_tiles = parse_tiles(r, p.tiles_enabled)?;
    let loop_filter_across_slices = r.flag()?;
    let deblocking_control_present = r.flag()?;
    let (over, disabled, beta_offset_div2, tc_offset_div2) = parse_deblocking(
        r,
        deblocking_control_present,
    )?;
    if r.flag()? {
        return Err(unsupported("PPS scaling list data"));
    }
    let lists_modification_present = r.flag()?;
    let log2_parallel_merge_level_minus2: u32 = r.ue()?;
    let slice_header_extension = r.flag()?;
    Ok(
        H265Pps {
            loop_filter_across_tiles,
            loop_filter_across_slices,
            deblocking_control_present,
            deblocking_override_enabled: over,
            deblocking_disabled: disabled,
            beta_offset_div2,
            tc_offset_div2,
            lists_modification_present,
            log2_parallel_merge_level_minus2,
            slice_header_extension,
            ..p
        },
    )
}

/// Parses a picture parameter set NAL, header bytes included.
pub fn parse_pps(nal: &[u8]) -> (res: Result<H265Pps, H265Error>)
    requires
        8 * nal@.len() <= usize::MAX,
    ensures
        nal@.len() < 3 ==> (res matches Err(e) && e@ == ErrorView::Malformed("PPS too short"@)),
        nal@.len() >= 3 ==> ({
            let (v, end) = pps_syntax(crate::bitstream::rbsp_of(nal@.skip(2)));
            match res {
                Ok(p) => end.err is None && p == v,
                Err(e) => end.err == Some(e@),
            }
        }),
{
    if nal.len() < 3 {
        return Err(malformed("PPS too short"));
    }
    let rbsp = to_rbsp(vstd::slice::slice_subrange(nal, 2, nal.len()));
    assert(nal@.subrange(2, nal@.len() as int) =~= nal@.skip(2));
    let mut reader = BitReader::new(rbsp.as_slice());
    let r = &mut reader;
    proof {
        lemma_pps_parts_error();
    }
    let head = parse_pps_head(r)?;
    let quant = parse_pps_quant(r, head)?;
    let pps = parse_pps_filter(r, quant)?;
    Ok(pps)
}

/// Minimal VPS: the decode session only needs its id and sub-layer count.
#[derive(Debug, Clone, Copy, PartialEq, Eq, Structural)]
pub struct H265Vps {
    pub vps_id: u8,
    pub max_sub_layers_minus1: u8,
    pub temporal_id_nesting: bool,
    pub ptl: Ptl,
}

/// The head of a video parameter set.
pub open spec fn vps_syntax(rbsp: Seq<u8>) -> (H265Vps, Cursor) {
    let c = Cursor::start(rbsp);
    let (vps_id, c) = c.u(4);
    let (_, c) = c.u(2);
    let (_, c) = c.u(6);
    let (max_sub_layers_minus1, c) = c.u(3);
    let (temporal_id_nesting, c) = c.flag();
    let (_, c) = c.u(16);
    let (ptl, c) = ptl_syntax(c, max_sub_layers_minus1);
    (
        H265Vps {
            vps_id: vps_id as u8,
            max_sub_layers_minus1: max_sub_layers_minus1 as u8,
            temporal_id_nesting,
            ptl,
        },
        c,
    )
}

/// Parses the head of a video parameter set NAL, header bytes included.
pub fn parse_vps(nal: &[u8]) -> (res: Result<H265Vps, H265Error>)
    requires
        8 * nal@.len() <= usize::MAX,
    ensures
        nal@.len() < 4 ==> (res matches Err(e) && e@ == ErrorView::Malformed("VPS too short"@)),
        nal@.len() >= 4 ==> ({
            let (v, end) = vps_syntax(crate::bitstream::rbsp_of(nal@.skip(2)));
            match res {
                Ok(p) => end.err is None && p == v,
                Err(e) => end.err == Some(e@),
            }
        }),
{
    if nal.len() < 4 {
        return Err(malformed("VPS too short"));
    }
    let rbsp = to_rbsp(vstd::slice::slice_subrange(nal, 2, nal.len()));
    assert(nal@.subrange(2, nal@.len() as int) =~= nal@.skip(2));
    let mut reader = BitReader::new(rbsp.as_slice());
    let r = &mut reader;
    proof {
        crate::bitstream::lemma_u_bound(4);
        crate::bitstream::lemma_u_bound(3);
        lemma_ptl_error();
    }
    let vps_id: u8 = r.u(4)? as u8;
    let _base_layer: u32 = r.u(2)?;
    let _max_layers_minus1: u32 = r.u(6)?;
    let max_sub_layers_minus1: u8 = r.u(3)? as u8;
    let temporal_id_nesting = r.flag()?;
    let _reserved: u32 = r.u(16)?;
    let ptl = parse_ptl(r, max_sub_layers_minus1)?;
    Ok(H265Vps { vps_id, max_sub_layers_minus1, temporal_id_nesting, ptl })
}

/// Slice coding type.
#[derive(Debug, Clone, Copy, PartialEq, Eq, Structural)]
pub enum H265SliceType {
    B,
    P,
    I,
}

/// The part of a slice-segment header that reference management needs.
#[derive(Debug, Clone)]
pub struct H265SliceHeader {
    pub nal_type: u8,
    pub first_slice: bool,
    pub pps_id: u8,
    pub slice_type: H265SliceType,
    pub poc_lsb: u32,
    /// The RPS in effect for this picture (resolved), empty for IDR.
    pub rps: StRps,
    /// Bits consumed by an inline st_ref_pic_set (0 when taken from the SPS);
    /// the driver parses it again from the bitstream.
    pub num_bits_st_rps: u16,
    /// NumDeltaPocs of the reference set when the inline RPS was predicted
    /// from an SPS set (0 otherwise).
    pub num_delta_pocs_of_ref: u8,
}

/// The syntax elements of a slice-segment header.
#[verifier::ext_equal]
pub struct H265SliceHeaderView {
    pub nal_type: u8,
    pub first_slice: bool,
    pub pps_id: u8,
    pub slice_type: H265SliceType,
    pub poc_lsb: u32,
    pub refs: SliceRefs,
}

/// The reference fields of a slice-segment header.
#[verifier::ext_equal]
pub struct SliceRefs {
    pub rps: StRpsView,
    pub num_bits_st_rps: u16,
    pub num_delta_pocs_of_ref: u8,
}

impl View for H265SliceHeader {
    type V = H265SliceHeaderView;

    open spec fn view(&self) -> H265SliceHeaderView {
        H265SliceHeaderView {
            nal_type: self.nal_type,
            first_slice: self.first_slice,
            pps_id: self.pps_id,
            slice_type: self.slice_type,
            poc_lsb: self.poc_lsb,
            refs: SliceRefs {
                rps: self.rps@,
                num_bits_st_rps: self.num_bits_st_rps,
                num_delta_pocs_of_ref: self.num_delta_pocs_of_ref,
            },
        }
    }
}

/// Number of binary digits of `n`; zero has none.
pub open spec fn bit_length(n: nat) -> nat
    decreases n,
{
    if n == 0 {
        0
    } else {
        1 + bit_length(n / 2)
    }
}

/// Number of binary digits of `n`.
fn bit_length_of(n: u32) -> (b: u32)
    ensures
        b == bit_length(n as nat),
        b <= 32,
{
    let mut v: u32 = n;
    let mut b: u32 = 0;
    proof {
        vstd::arithmetic::power2::lemma2_to64();
    }
    while v > 0
        invariant
            b + bit_length(v as nat) == bit_length(n as nat),
            b <= 32,
            v < vstd::arithmetic::power2::pow2((32 - b) as nat),
        decreases v,
    {
        proof {
            if b == 32 {
                vstd::arithmetic::power2::lemma2_to64();
            } else {
                vstd::arithmetic::power2::lemma_pow2_unfold((32 - b) as nat);
            }
        }
        v = v / 2;
        b = b + 1;
    }
    b
}

/// Coding tree blocks needed to cover `pixels`, at `2^log2_ctb` pixels each.
pub open spec fn ctbs(pixels: nat, log2_ctb: nat) -> nat {
    let side = vstd::arithmetic::power2::pow2(log2_ctb);
    ((pixels + side - 1) as nat) / side
}

/// log2 of the coding tree block size.
pub open spec fn log2_ctb(sps: H265Sps) -> nat {
    (sps.log2_min_cb_minus3 + 3 + sps.log2_diff_cb) as nat
}

/// Number of coding tree blocks of a picture.
pub open spec fn pic_size_in_ctbs(sps: H265Sps) -> nat {
    ctbs(sps.width as nat, log2_ctb(sps)) * ctbs(sps.height as nat, log2_ctb(sps))
}

/// The slice address of a slice that is not the picture's first: the bits
/// that number the picture's coding tree blocks, at least one.
#[verifier::opaque]
pub open spec fn address_syntax(c: Cursor, sps: H265Sps, pps: H265Pps) -> Cursor {
    let c = c.reject_if(
        pps.dependent_slice_segments,
        ErrorView::Unsupported("dependent slice segments"@),
    );
    let c = c.reject_if(
        log2_ctb(sps) > 31,
        ErrorView::Malformed("coding tree block size out of range"@),
    );
    let c = c.reject_if(
        pic_size_in_ctbs(sps) > u32::MAX,
        ErrorView::Malformed("picture size out of range"@),
    );
    let last = if pic_size_in_ctbs(sps) == 0 {
        0
    } else {
        (pic_size_in_ctbs(sps) - 1) as nat
    };
    let bits = bit_length(last);
    c.u(if bits == 0 {
        1
    } else {
        bits
    }).1
}

/// `n` single bits.
pub open spec fn skip_flags(c: Cursor, n: nat) -> Cursor
    decreases n,
{
    if n == 0 {
        c
    } else {
        skip_flags(c, (n - 1) as nat).flag().1
    }
}

/// The reference picture set of a slice: written inline, or chosen from the
/// `sets` of the SPS by an index of just enough bits, or empty where the SPS
/// has none.
#[verifier::opaque]
pub open spec fn slice_refs_syntax(c: Cursor, sets: Seq<StRpsView>) -> (SliceRefs, Cursor) {
    let (from_sps, c) = c.flag();
    if !from_sps {
        let start = c.pos;
        let ((set, from), c) = st_rps_syntax(c, sets.len(), sets, true);
        (
            SliceRefs {
                rps: set,
                num_bits_st_rps: (c.pos - start) as u16,
                num_delta_pocs_of_ref: match from {
                    Some(i) => (sets[i as int].count() % 256) as u8,
                    None => 0,
                },
            },
            c,
        )
    } else if sets.len() == 0 {
        (
            SliceRefs {
                rps: StRpsView::empty(),
                num_bits_st_rps: 0,
                num_delta_pocs_of_ref: 0,
            },
            c,
        )
    } else {
        let (idx, c) = if sets.len() > 1 {
            c.u(bit_length((sets.len() - 1) as nat))
        } else {
            (0, c)
        };
        let c = c.reject_if(
            idx >= sets.len(),
            ErrorView::Malformed("st_rps idx out of range"@),
        );
        (
            SliceRefs {
                rps: sets[idx as int],
                num_bits_st_rps: 0,
                num_delta_pocs_of_ref: 0,
            },
            c,
        )
    }
}

/// The reference picture set of a slice names its nearest pictures first, on
/// both sides, whether the slice brings it or takes it from the SPS.
pub proof fn slice_sets_are_nearest_first(c: Cursor, sets: Seq<StRpsView>)
    requires
        forall|i: int| 0 <= i < sets.len() ==> (#[trigger] sets[i]).nearest_first(),
        slice_refs_syntax(c, sets).1.err is None,
    ensures
        slice_refs_syntax(c, sets).0.rps.nearest_first(),
{
    reveal(slice_refs_syntax);
    let (from_sps, c1) = c.flag();
    if !from_sps {
        parsed_sets_are_nearest_first(c1, sets.len(), sets, true);
    } else if sets.len() > 0 {
        let (idx, c2) = if sets.len() > 1 {
            c1.u(bit_length((sets.len() - 1) as nat))
        } else {
            (0, c1)
        };
        assert(sets[idx as int].nearest_first());
    }
}

/// A slice-segment header through its reference picture set, for a NAL of
/// type `t` with payload `rbsp`.
pub open spec fn slice_header_syntax(t: u8, rbsp: Seq<u8>, sps: H265Sps, pps: H265Pps) -> (
    H265SliceHeaderView,
    Cursor,
) {
    let c = Cursor::start(rbsp);
    let (first_slice, c) = c.flag();
    let c = if NAL_BLA_W_LP <= t <= NAL_RSV_IRAP_VCL23 {
        c.flag().1
    } else {
        c
    };
    let (pps_id, c) = c.ue();
    let c = if !first_slice {
        address_syntax(c, sps, pps)
    } else {
        c
    };
    let c = skip_flags(c, pps.num_extra_slice_header_bits as nat);
    let (v, c) = c.ue();
    let c = c.reject_if(v > 2, ErrorView::Malformed("slice_type "@ + crate::text::dec(v)));
    let slice_type = if v == 0 {
        H265SliceType::B
    } else if v == 1 {
        H265SliceType::P
    } else {
        H265SliceType::I
    };
    let c = if pps.output_flag_present {
        c.flag().1
    } else {
        c
    };
    let idr = t == NAL_IDR_W_RADL || t == NAL_IDR_N_LP;
    let (poc_lsb, c) = if idr {
        (0, c)
    } else {
        c.u(sps.log2_max_poc_lsb as nat)
    };
    let (refs, c) = if idr {
        (
            SliceRefs {
                rps: StRpsView::empty(),
                num_bits_st_rps: 0,
                num_delta_pocs_of_ref: 0,
            },
            c,
        )
    } else {
        slice_refs_syntax(c, rps_views(sps.st_rps@))
    };
    (
        H265SliceHeaderView {
            nal_type: t,
            first_slice,
            pps_id: (pps_id % 256) as u8,
            slice_type,
            poc_lsb: poc_lsb as u32,
            refs,
        },
        c,
    )
}

proof fn lemma_skip_flags_sticky(c: Cursor, m: nat, n: nat)
    requires
        m <= n,
        skip_flags(c, m).err is Some,
    ensures
        skip_flags(c, n) == skip_flags(c, m),
    decreases n,
{
    if m < n {
        lemma_skip_flags_sticky(c, m, (n - 1) as nat);
    }
}

pub proof fn lemma_slice_parts_error()
    ensures
        forall|c: Cursor, s: H265Sps, p: H265Pps|
            c.err is Some ==> #[trigger] address_syntax(c, s, p) == c,
        forall|c: Cursor, n: nat| c.err is Some ==> #[trigger] skip_flags(c, n) == c,
        forall|c: Cursor, s: Seq<StRpsView>|
            c.err is Some ==> (#[trigger] slice_refs_syntax(c, s)).1 == c,
{
    reveal(address_syntax);
    reveal(slice_refs_syntax);
    lemma_rps_error();
    assert forall|c: Cursor, n: nat| c.err is Some implies #[trigger] skip_flags(c, n) == c by {
        lemma_skip_flags_sticky(c, 0, n);
    }
}

/// The loops of a reference picture set only move forward.
proof fn lemma_rps_loops_forward(c: Cursor, n: nat, sign: int)
    requires
        c.pos <= c.total(),
    ensures
        c.pos <= explicit_half(c, n, sign).1.pos <= c.total(),
        explicit_half(c, n, sign).1.data == c.data,
        c.pos <= candidate_flags(c, n).1.pos <= c.total(),
        candidate_flags(c, n).1.data == c.data,
    decreases n,
{
    crate::bitstream::lemma_reads_move_forward();
    if n > 0 {
        lemma_rps_loops_forward(c, (n - 1) as nat, sign);
    }
}

/// A reference picture set only moves the cursor forward.
proof fn lemma_st_rps_forward(c: Cursor, idx: nat, sets: Seq<StRpsView>, slice_context: bool)
    requires
        c.pos <= c.total(),
    ensures
        c.pos <= st_rps_syntax(c, idx, sets, slice_context).1.pos <= c.total(),
{
    crate::bitstream::lemma_reads_move_forward();
    reveal(st_rps_syntax);
    reveal(explicit_rps);
    reveal(predicted_rps);
    assert forall|d: Cursor, n: nat, s: int| d.pos <= d.total() implies d.pos <= (
    #[trigger] explicit_half(d, n, s)).1.pos <= d.total() && explicit_half(d, n, s).1.data
        == d.data by {
        lemma_rps_loops_forward(d, n, s);
    }
    assert forall|d: Cursor, n: nat| d.pos <= d.total() implies d.pos <= (
    #[trigger] candidate_flags(d, n)).1.pos <= d.total() && candidate_flags(d, n).1.data
        == d.data by {
        lemma_rps_loops_forward(d, n, 1);
    }
}

fn ctbs_of(pixels: u32, log2_ctb: u32) -> (n: u64)
    requires
        log2_ctb <= 31,
    ensures
        n == ctbs(pixels as nat, log2_ctb as nat),
        n <= u32::MAX,
{
    proof {
        vstd::bits::lemma_u64_pow2_no_overflow(log2_ctb as nat);
        vstd::bits::lemma_u64_shl_is_mul(1, log2_ctb as u64);
        vstd::arithmetic::power2::lemma2_to64();
        vstd::arithmetic::power2::lemma_pow2_pos(log2_ctb as nat);
        if log2_ctb < 31 {
            vstd::arithmetic::power2::lemma_pow2_strictly_increases(log2_ctb as nat, 31);
        }
    }
    let side: u64 = 1u64 << log2_ctb as u64;
    let sum: u64 = pixels as u64 + (side - 1);
    proof {
        let x = sum as int;
        let d = side as int;
        assert(x / d <= u32::MAX) by (nonlinear_arith)
            requires
                1 <= d,
                0 <= x <= u32::MAX + d - 1,
        {
            if x / d >= u32::MAX + 1 {
                assert(d * (x / d) <= x);
                assert(d * (u32::MAX + 1) <= d * (x / d));
            }
        }
    }
    sum / side
}

fn parse_address(r: &mut BitReader<'_>, sps: &H265Sps, pps: &H265Pps) -> (res: Result<
    (),
    H265Error,
>)
    requires
        old(r).wf(),
    ensures
        final(r).wf(),
        final(r)@.data == old(r)@.data,
        ({
            let end = address_syntax(old(r)@, *sps, *pps);
            match res {
                Ok(_) => end.err is None && final(r)@ == end,
                Err(e) => end.err == Some(e@),
            }
        }),
{
    proof {
        reveal(address_syntax);
        crate::bitstream::lemma_reads_move_forward();
    }
    if pps.dependent_slice_segments {
        return Err(unsupported("dependent slice segments"));
    }
    let log2_ctb: u32 = sps.log2_min_cb_minus3 as u32 + 3 + sps.log2_diff_cb as u32;
    if log2_ctb > 31 {
        return Err(malformed("coding tree block size out of range"));
    }
    let x: u64 = ctbs_of(sps.width, log2_ctb);
    let y: u64 = ctbs_of(sps.height, log2_ctb);
    assert(x * y <= 0xffff_ffff * 0xffff_ffff) by (nonlinear_arith)
        requires
            x <= 0xffff_ffff,
            y <= 0xffff_ffff,
    ;
    let size: u64 = x * y;
    if size > u32::MAX as u64 {
        return Err(malformed("picture size out of range"));
    }
    let last: u32 = if size == 0 {
        0
    } else {
        (size - 1) as u32
    };
    let bits: u32 = bit_length_of(last);
    let _address: u32 = r.u(
        if bits == 0 {
            1
        } else {
            bits
        },
    )?;
    Ok(())
}

fn parse_skip_flags(r: &mut BitReader<'_>, n: u8) -> (res: Result<(), H265Error>)
    requires
        old(r).wf(),
    ensures
        final(r).wf(),
        final(r)@.data == old(r)@.data,
        ({
            let end = skip_flags(old(r)@, n as nat);
            match res {
                Ok(_) => end.err is None && final(r)@ == end,
                Err(e) => end.err == Some(e@),
            }
        }),
{
    let ghost c0 = r@;
    let mut i: u8 = 0;
    while i < n
        invariant
            r.wf(),
            i <= n,
            old(r)@ == c0,
            skip_flags(c0, i as nat) == r@,
            r@.data == c0.data,
        decreases n - i,
    {
        proof {
            crate::bitstream::lemma_reads_move_forward();
            if skip_flags(c0, (i + 1) as nat).err is Some {
                lemma_skip_flags_sticky(c0, (i + 1) as nat, n as nat);
            }
        }
        let _bit = r.flag()?;
        i = i + 1;
    }
    Ok(())
}

/// The sets of an SPS can be counted and numbered.
pub open spec fn sets_countable(sets: Seq<StRps>) -> bool {
    &&& sets.len() <= u32::MAX
    &&& forall|i: int| 0 <= i < sets.len() ==> (#[trigger] sets[i]).countable()
}

fn parse_slice_refs(r: &mut BitReader<'_>, sets: &Vec<StRps>) -> (res: Result<
    (StRps, u16, u8),
    H265Error,
>)
    requires
        old(r).wf(),
        old(r)@.total() <= 0xffff,
        sets_countable(sets@),
    ensures
        final(r).wf(),
        ({
            let (v, end) = slice_refs_syntax(old(r)@, rps_views(sets@));
            match res {
                Ok(x) => end.err is None && final(r)@ == end && x.0@ == v.rps && x.1
                    == v.num_bits_st_rps && x.2 == v.num_delta_pocs_of_ref,
                Err(e) => end.err == Some(e@),
            }
        }),
{
    proof {
        reveal(slice_refs_syntax);
        lemma_rps_error();
        crate::bitstream::lemma_reads_move_forward();
    }
    let from_sps = r.flag()?;
    if !from_sps {
        let start: usize = r.bit_pos();
        proof {
            lemma_st_rps_forward(r@, sets@.len(), rps_views(sets@), true);
        }
        let (set, from) = parse_st_rps(r, sets.len(), sets.as_slice(), true)?;
        let used: usize = r.bit_pos() - start;
        let of_ref: u8 = match from {
            Some(i) => {
                assert(sets@[i as int].countable());
                (sets[i].num_delta_pocs() % 256) as u8
            },
            None => 0,
        };
        Ok((set, used as u16, of_ref))
    } else if sets.len() == 0 {
        Ok((StRps::default(), 0, 0))
    } else {
        let idx: u32 = if sets.len() > 1 {
            r.u(bit_length_of((sets.len() - 1) as u32))?
        } else {
            0
        };
        if idx as usize >= sets.len() {
            return Err(malformed("st_rps idx out of range"));
        }
        let set = sets[idx as usize].duplicate();
        Ok((set, 0, 0))
    }
}

/// Number of leading NAL bytes that a slice header is read from.
pub const SLICE_HEADER_BYTES: usize = 320;

/// The leading part of a slice NAL, without its header bytes.
pub open spec fn slice_header_bytes(nal: Seq<u8>) -> Seq<u8> {
    nal.subrange(
        2,
        if nal.len() < SLICE_HEADER_BYTES {
            nal.len() as int
        } else {
            SLICE_HEADER_BYTES as int
        },
    )
}

/// Parses a slice-segment header through its reference picture set, with the
/// active SPS and PPS.
pub fn parse_slice_header(nal: &[u8], sps: &H265Sps, pps: &H265Pps) -> (res: Result<
    H265SliceHeader,
    H265Error,
>)
    requires
        sets_countable(sps.st_rps@),
    ensures
        nal@.len() < 4 ==> (res matches Err(e) && e@ == ErrorView::Malformed(
            "slice NAL too short"@,
        )),
        nal@.len() >= 4 ==> ({
            let (v, end) = slice_header_syntax(
                nal_type_of(nal@),
                crate::bitstream::rbsp_of(slice_header_bytes(nal@)),
                *sps,
                *pps,
            );
            match res {
                Ok(h) => end.err is None && h@ == v,
                Err(e) => end.err == Some(e@),
            }
        }),
{
    if nal.len() < 4 {
        return Err(malformed("slice NAL too short"));
    }
    let t: u8 = nal_type(nal);
    let take: usize = if nal.len() < SLICE_HEADER_BYTES {
        nal.len()
    } else {
        SLICE_HEADER_BYTES
    };
    let rbsp = to_rbsp(vstd::slice::slice_subrange(nal, 2, take));
    let mut reader = BitReader::new(rbsp.as_slice());
    let r = &mut reader;
    proof {
        lemma_slice_parts_error();
        crate::bitstream::lemma_reads_move_forward();
    }
    let first_slice = r.flag()?;
    if is_irap(t) {
        let _no_output_of_prior_pics = r.flag()?;
    }
    let pps_id: u8 = low_byte(r.ue()?);
    if !first_slice {
        parse_address(r, sps, pps)?;
    }
    parse_skip_flags(r, pps.num_extra_slice_header_bits)?;
    let v: u32 = r.ue()?;
    let slice_type: H265SliceType = if v == 0 {
        H265SliceType::B
    } else if v == 1 {
        H265SliceType::P
    } else if v == 2 {
        H265SliceType::I
    } else {
        let message = with_number("slice_type ", v as u64, "");
        proof {
            reveal_strlit("");
            assert(message@ =~= "slice_type "@ + crate::text::dec(v as nat));
        }
        return Err(H264Error::Malformed(message));
    };
    if pps.output_flag_present {
        let _output = r.flag()?;
    }
    let mut poc_lsb: u32 = 0;
    let mut rps = StRps::default();
    let mut num_bits_st_rps: u16 = 0;
    let mut num_delta_pocs_of_ref: u8 = 0;
    if !is_idr(t) {
        poc_lsb = r.u(sps.log2_max_poc_lsb)?;
        let refs = parse_slice_refs(r, &sps.st_rps)?;
        rps = refs.0;
        num_bits_st_rps = refs.1;
        num_delta_pocs_of_ref = refs.2;
    }
    Ok(
        H265SliceHeader {
            nal_type: t,
            first_slice,
            pps_id,
            slice_type,
            poc_lsb,
            rps,
            num_bits_st_rps,
            num_delta_pocs_of_ref,
        },
    )
}

} // verus!
