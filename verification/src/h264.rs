//! H.264 bitstream parsing for hardware decode: SPS/PPS and the slice-header
//! prefix needed for DPB management. The hardware consumes raw slice NALs, so
//! only what reference management and picture parameters require is parsed,
//! and anything outside the phone-footage subset is an error (progressive,
//! 4:2:0 8-bit, sliding-window references, no MMCO, POC type 0 or 2).
use crate::bitstream::{malformed, unsupported, Cursor, ErrorView};
use crate::text::with_number;
use vstd::prelude::*;

pub use crate::bitstream::{to_rbsp, BitReader, H264Error};

verus! {

broadcast use crate::bitstream::group_sticky;

/// Scaling lists in the layout the Vulkan Video Std structs expect.
#[derive(Debug, Clone)]
pub struct ScalingLists {
    pub present_mask: u16,
    pub use_default_mask: u16,
    pub list_4x4: [[u8; 16]; 6],
    pub list_8x8: [[u8; 64]; 6],
}

/// [`ScalingLists`] with the lists as sequences.
#[verifier::ext_equal]
pub struct ScalingListsView {
    pub present_mask: u16,
    pub use_default_mask: u16,
    pub list_4x4: Seq<Seq<u8>>,
    pub list_8x8: Seq<Seq<u8>>,
}

impl View for ScalingLists {
    type V = ScalingListsView;

    open spec fn view(&self) -> ScalingListsView {
        ScalingListsView {
            present_mask: self.present_mask,
            use_default_mask: self.use_default_mask,
            list_4x4: self.list_4x4@.map_values(|l: [u8; 16]| l@),
            list_8x8: self.list_8x8@.map_values(|l: [u8; 64]| l@),
        }
    }
}

impl ScalingListsView {
    /// No list present, every entry 16.
    pub open spec fn flat() -> ScalingListsView {
        ScalingListsView {
            present_mask: 0,
            use_default_mask: 0,
            list_4x4: Seq::new(6, |i: int| Seq::new(16, |j: int| 16u8)),
            list_8x8: Seq::new(6, |i: int| Seq::new(64, |j: int| 16u8)),
        }
    }
}

impl Default for ScalingLists {
    fn default() -> (s: Self)
        ensures
            s@ == ScalingListsView::flat(),
    {
        let s = ScalingLists {
            present_mask: 0,
            use_default_mask: 0,
            list_4x4: [[16; 16]; 6],
            list_8x8: [[16; 64]; 6],
        };
        assert(s@.list_4x4 =~~= ScalingListsView::flat().list_4x4);
        assert(s@.list_8x8 =~~= ScalingListsView::flat().list_8x8);
        s
    }
}

/// A scaling list after some of its entries have been read.
pub struct ScalingListState {
    pub last: int,
    pub next: int,
    pub values: Seq<u8>,
    pub use_default: bool,
    pub cursor: Cursor,
}

/// The first `n` entries of the scaling list at `c`: each entry adds a signed
/// delta to the one before, modulo 256; a sum of zero ends the deltas, and
/// the last value repeats.
pub open spec fn scaling_list(c: Cursor, n: nat) -> ScalingListState
    decreases n,
{
    if n == 0 {
        ScalingListState {
            last: 8,
            next: 8,
            values: Seq::empty(),
            use_default: false,
            cursor: c,
        }
    } else {
        let s = scaling_list(c, (n - 1) as nat);
        let (delta, cursor) = if s.next != 0 {
            s.cursor.se()
        } else {
            (0, s.cursor)
        };
        let next = if s.next != 0 {
            (s.last + delta) % 256
        } else {
            0
        };
        let last = if next == 0 {
            s.last
        } else {
            next
        };
        ScalingListState {
            last,
            next,
            values: s.values.push(last as u8),
            use_default: s.use_default || (n == 1 && next == 0),
            cursor,
        }
    }
}

/// A failed read in a scaling list stays.
proof fn lemma_scaling_list_sticky(c: Cursor, m: nat, n: nat)
    requires
        m <= n,
        scaling_list(c, m).cursor.err is Some,
    ensures
        scaling_list(c, n).cursor == scaling_list(c, m).cursor,
    decreases n,
{
    if m < n {
        lemma_scaling_list_sticky(c, m, (n - 1) as nat);
    }
}

/// Parses one scaling list of `n` entries; returns its values and whether the
/// default matrix is to be used.
fn parse_scaling_list(r: &mut BitReader<'_>, n: usize) -> (res: Result<
    (Vec<u8>, bool),
    H264Error,
>)
    requires
        old(r).wf(),
    ensures
        final(r).wf(),
        ({
            let s = scaling_list(old(r)@, n as nat);
            &&& final(r)@ == (Cursor { err: None, ..s.cursor })
            &&& match res {
                Ok(v) => s.cursor.err is None && v.0@ == s.values && v.0@.len() == n && v.1
                    == s.use_default,
                Err(e) => s.cursor.err == Some(e@),
            }
        }),
{
    let ghost start = r@;
    let mut values: Vec<u8> = Vec::new();
    let mut last: i64 = 8;
    let mut next: i64 = 8;
    let mut use_default = false;
    let mut j: usize = 0;
    while j < n
        invariant
            r.wf(),
            old(r)@ == start,
            j <= n,
            0 < last < 256,
            0 <= next < 256,
            ({
                let s = scaling_list(start, j as nat);
                &&& s.cursor == r@
                &&& s.last == last
                &&& s.next == next
                &&& s.values == values@
                &&& s.use_default == use_default
            }),
            values@.len() == j,
        decreases n - j,
    {
        proof {
            let s1 = scaling_list(start, (j + 1) as nat);
            if s1.cursor.err is Some {
                lemma_scaling_list_sticky(start, (j + 1) as nat, n as nat);
            }
        }
        if next != 0 {
            let delta: i64 = r.se()? as i64;
            let sum: i64 = last + delta;
            next = ((sum % 256) + 256) % 256;
            assert(next == (last + delta) % 256);
            if j == 0 && next == 0 {
                use_default = true;
            }
        }
        if next != 0 {
            last = next;
        }
        values.push(last as u8);
        j = j + 1;
    }
    Ok((values, use_default))
}

/// The first `count` entries of the scaling matrix at `c`: six 4x4 lists, then
/// 8x8 lists, each behind a flag that says whether it is present.
pub open spec fn scaling_matrix(c: Cursor, count: nat) -> (ScalingListsView, Cursor)
    decreases count,
{
    if count == 0 {
        (ScalingListsView::flat(), c)
    } else {
        let i = count - 1;
        let (m, c) = scaling_matrix(c, i as nat);
        let (present, c) = c.flag();
        if !present {
            (m, c)
        } else {
            let s = scaling_list(c, if i < 6 { 16 } else { 64 });
            (
                ScalingListsView {
                    present_mask: m.present_mask | (1u16 << i as u16),
                    use_default_mask: if s.use_default {
                        m.use_default_mask | (1u16 << i as u16)
                    } else {
                        m.use_default_mask
                    },
                    list_4x4: if i < 6 {
                        m.list_4x4.update(i, s.values)
                    } else {
                        m.list_4x4
                    },
                    list_8x8: if i < 6 {
                        m.list_8x8
                    } else {
                        m.list_8x8.update(i - 6, s.values)
                    },
                },
                s.cursor,
            )
        }
    }
}

proof fn lemma_scaling_matrix_sticky(c: Cursor, m: nat, n: nat)
    requires
        m <= n,
        scaling_matrix(c, m).1.err is Some,
    ensures
        scaling_matrix(c, n).1 == scaling_matrix(c, m).1,
    decreases n,
{
    if m < n {
        lemma_scaling_matrix_sticky(c, m, (n - 1) as nat);
    }
}

fn array_16(v: &Vec<u8>) -> (a: [u8; 16])
    requires
        v@.len() == 16,
    ensures
        a@ == v@,
{
    let mut a: [u8; 16] = [0; 16];
    let mut i: usize = 0;
    while i < 16
        invariant
            i <= 16,
            v@.len() == 16,
            forall|j: int| 0 <= j < i ==> a@[j] == v@[j],
        decreases 16 - i,
    {
        a[i] = v[i];
        i = i + 1;
    }
    a
}

fn array_64(v: &Vec<u8>) -> (a: [u8; 64])
    requires
        v@.len() == 64,
    ensures
        a@ == v@,
{
    let mut a: [u8; 64] = [0; 64];
    let mut i: usize = 0;
    while i < 64
        invariant
            i <= 64,
            v@.len() == 64,
            forall|j: int| 0 <= j < i ==> a@[j] == v@[j],
        decreases 64 - i,
    {
        a[i] = v[i];
        i = i + 1;
    }
    a
}

/// Parses a scaling matrix of `count` lists.
fn parse_scaling_matrix(r: &mut BitReader<'_>, count: usize) -> (res: Result<
    ScalingLists,
    H264Error,
>)
    requires
        old(r).wf(),
        count <= 12,
    ensures
        final(r).wf(),
        ({
            let (m, end) = scaling_matrix(old(r)@, count as nat);
            &&& final(r)@ == (Cursor { err: None, ..end })
            &&& match res {
                Ok(l) => end.err is None && l@ == m,
                Err(e) => end.err == Some(e@),
            }
        }),
{
    let ghost start = r@;
    let mut lists = ScalingLists::default();
    let mut i: usize = 0;
    while i < count
        invariant
            r.wf(),
            old(r)@ == start,
            i <= count <= 12,
            scaling_matrix(start, i as nat) == (lists@, r@),
        decreases count - i,
    {
        let ghost before = lists@;
        proof {
            let m1 = scaling_matrix(start, (i + 1) as nat);
            if m1.1.err is Some {
                lemma_scaling_matrix_sticky(start, (i + 1) as nat, count as nat);
            }
            let c1 = r@.flag().1;
            let s1 = scaling_list(c1, if i < 6 { 16 } else { 64 });
            if c1.err is Some {
                lemma_scaling_list_sticky(c1, 0, if i < 6 { 16 } else { 64 });
            }
        }
        if r.flag()? {
            lists.present_mask = lists.present_mask | (1u16 << i as u16);
            let use_default: bool = if i < 6 {
                let (values, d) = parse_scaling_list(r, 16)?;
                lists.list_4x4[i] = array_16(&values);
                assert(lists@.list_4x4 =~~= before.list_4x4.update(i as int, values@));
                d
            } else {
                let (values, d) = parse_scaling_list(r, 64)?;
                lists.list_8x8[i - 6] = array_64(&values);
                assert(lists@.list_8x8 =~~= before.list_8x8.update(i - 6, values@));
                d
            };
            if use_default {
                lists.use_default_mask = lists.use_default_mask | (1u16 << i as u16);
            }
        }
        i = i + 1;
    }
    Ok(lists)
}

/// Sequence parameter set.
#[derive(Debug, Clone)]
pub struct Sps {
    pub profile_idc: u8,
    pub constraint_flags: u8,
    pub level_idc: u8,
    pub sps_id: u32,
    pub chroma_format_idc: u32,
    pub log2_max_frame_num: u32,
    pub poc_type: u32,
    pub log2_max_poc_lsb: u32,
    pub max_num_ref_frames: u32,
    pub gaps_allowed: bool,
    pub mb_width: u32,
    pub mb_height: u32,
    pub width: u32,
    pub height: u32,
    pub direct_8x8: bool,
    pub qpprime_y_zero: bool,
    pub frame_cropping_flag: bool,
    pub frame_cropping: [u32; 4],
    pub scaling: Option<ScalingLists>,
}

/// The syntax elements of a sequence parameter set.
pub struct SpsView {
    pub profile_idc: nat,
    pub constraint_flags: nat,
    pub level_idc: nat,
    pub sps_id: nat,
    pub chroma_format_idc: nat,
    pub log2_max_frame_num: nat,
    pub poc_type: nat,
    pub log2_max_poc_lsb: nat,
    pub max_num_ref_frames: nat,
    pub gaps_allowed: bool,
    pub mb_width: nat,
    pub mb_height: nat,
    pub width: int,
    pub height: int,
    pub direct_8x8: bool,
    pub qpprime_y_zero: bool,
    pub frame_cropping_flag: bool,
    pub frame_cropping: (nat, nat, nat, nat),
    pub scaling: Option<ScalingListsView>,
}

/// The lists of an optional scaling matrix.
pub open spec fn scaling_view(s: Option<ScalingLists>) -> Option<ScalingListsView> {
    match s {
        Some(l) => Some(l@),
        None => None,
    }
}

impl View for Sps {
    type V = SpsView;

    open spec fn view(&self) -> SpsView {
        SpsView {
            profile_idc: self.profile_idc as nat,
            constraint_flags: self.constraint_flags as nat,
            level_idc: self.level_idc as nat,
            sps_id: self.sps_id as nat,
            chroma_format_idc: self.chroma_format_idc as nat,
            log2_max_frame_num: self.log2_max_frame_num as nat,
            poc_type: self.poc_type as nat,
            log2_max_poc_lsb: self.log2_max_poc_lsb as nat,
            max_num_ref_frames: self.max_num_ref_frames as nat,
            gaps_allowed: self.gaps_allowed,
            mb_width: self.mb_width as nat,
            mb_height: self.mb_height as nat,
            width: self.width as int,
            height: self.height as int,
            direct_8x8: self.direct_8x8,
            qpprime_y_zero: self.qpprime_y_zero,
            frame_cropping_flag: self.frame_cropping_flag,
            frame_cropping: (
                self.frame_cropping@[0] as nat,
                self.frame_cropping@[1] as nat,
                self.frame_cropping@[2] as nat,
                self.frame_cropping@[3] as nat,
            ),
            scaling: scaling_view(self.scaling),
        }
    }
}

/// Profiles whose parameter sets carry the chroma format, bit depth and
/// scaling matrix.
pub open spec fn is_high_profile(profile_idc: nat) -> bool {
    profile_idc == 100 || profile_idc == 110 || profile_idc == 122 || profile_idc == 244
        || profile_idc == 44 || profile_idc == 83 || profile_idc == 86 || profile_idc == 118
        || profile_idc == 128
}

/// The part of a sequence parameter set that only high profiles carry: the
/// lossless flag and the scaling matrix.
#[verifier::opaque]
pub open spec fn high_profile_syntax(c: Cursor) -> ((bool, Option<ScalingListsView>), Cursor) {
    let (chroma, c) = c.ue();
    let c = c.reject_if(
        chroma != 1,
        ErrorView::Unsupported(
            "chroma_format_idc "@ + crate::text::dec(chroma) + " (only 4:2:0)"@,
        ),
    );
    let (bd_luma, c) = c.ue();
    let (bd_chroma, c) = c.ue();
    let c = c.reject_if(
        bd_luma != 0 || bd_chroma != 0,
        ErrorView::Unsupported("bit depth > 8"@),
    );
    let (qpprime, c) = c.flag();
    let (present, c) = c.flag();
    if present {
        let (m, c) = scaling_matrix(c, 8);
        ((qpprime, Some(m)), c)
    } else {
        ((qpprime, None), c)
    }
}

/// Picture order count type (0 or 2) and, for type 0, the number of bits of
/// its least significant part.
#[verifier::opaque]
pub open spec fn poc_syntax(c: Cursor) -> ((nat, nat), Cursor) {
    let (poc_type, c) = c.ue();
    let c = c.reject_if(
        poc_type != 0 && poc_type != 2,
        ErrorView::Unsupported("poc type "@ + crate::text::dec(poc_type)),
    );
    if poc_type == 0 {
        let (lsb, c) = c.ue();
        let c = c.reject_if(
            lsb + 4 > u32::MAX,
            ErrorView::Malformed("log2_max_pic_order_cnt_lsb out of range"@),
        );
        ((poc_type, lsb + 4), c)
    } else {
        ((poc_type, 0), c)
    }
}

/// The four cropping offsets, zero where they are absent.
#[verifier::opaque]
pub open spec fn crop_syntax(c: Cursor, present: bool) -> ((nat, nat, nat, nat), Cursor) {
    if present {
        let (left, c) = c.ue();
        let (right, c) = c.ue();
        let (top, c) = c.ue();
        let (bottom, c) = c.ue();
        ((left, right, top, bottom), c)
    } else {
        ((0, 0, 0, 0), c)
    }
}

/// The parts of a parameter set leave a failed cursor as it is.
pub proof fn lemma_sps_parts_error()
    ensures
        forall|c: Cursor| c.err is Some ==> (#[trigger] high_profile_syntax(c)).1 == c,
        forall|c: Cursor| c.err is Some ==> (#[trigger] poc_syntax(c)).1 == c,
        forall|c: Cursor, p: bool| c.err is Some ==> (#[trigger] crop_syntax(c, p)).1 == c,
{
    assert forall|c: Cursor| c.err is Some implies (#[trigger] high_profile_syntax(c)).1 == c by {
        lemma_sps_parts_sticky(c, true);
    }
    assert forall|c: Cursor| c.err is Some implies (#[trigger] poc_syntax(c)).1 == c by {
        lemma_sps_parts_sticky(c, true);
    }
    assert forall|c: Cursor, p: bool| c.err is Some implies (#[trigger] crop_syntax(c, p)).1
        == c by {
        lemma_sps_parts_sticky(c, p);
    }
}

proof fn lemma_sps_parts_sticky(c: Cursor, present: bool)
    requires
        c.err is Some,
    ensures
        high_profile_syntax(c).1 == c,
        poc_syntax(c).1 == c,
        crop_syntax(c, present).1 == c,
{
    reveal(high_profile_syntax);
    reveal(poc_syntax);
    reveal(crop_syntax);
    lemma_scaling_matrix_sticky(c, 0, 8);
}

/// A sequence parameter set, without the trailing VUI.
pub open spec fn sps_syntax(rbsp: Seq<u8>) -> (SpsView, Cursor) {
    let c = Cursor::start(rbsp);
    let (profile_idc, c) = c.u(8);
    let (constraint_flags, c) = c.u(8);
    let (level_idc, c) = c.u(8);
    let (sps_id, c) = c.ue();
    let ((qpprime_y_zero, scaling), c) = if is_high_profile(profile_idc) {
        high_profile_syntax(c)
    } else {
        ((false, None), c)
    };
    let (log2_frame_num, c) = c.ue();
    let c = c.reject_if(
        log2_frame_num + 4 > u32::MAX,
        ErrorView::Malformed("log2_max_frame_num out of range"@),
    );
    let ((poc_type, log2_max_poc_lsb), c) = poc_syntax(c);
    let (max_num_ref_frames, c) = c.ue();
    let (gaps_allowed, c) = c.flag();
    let (mb_width, c) = c.ue();
    let (mb_height, c) = c.ue();
    let (frame_mbs_only, c) = c.flag();
    let c = c.reject_if(
        !frame_mbs_only,
        ErrorView::Unsupported("interlaced (frame_mbs_only=0)"@),
    );
    let (direct_8x8, c) = c.flag();
    let (frame_cropping_flag, c) = c.flag();
    let (crop, c) = crop_syntax(c, frame_cropping_flag);
    let width = 16 * (mb_width + 1) - 2 * (crop.0 + crop.1);
    let height = 16 * (mb_height + 1) - 2 * (crop.2 + crop.3);
    let c = c.reject_if(
        16 * (mb_width + 1) > u32::MAX || 16 * (mb_height + 1) > u32::MAX || width < 0 || height
            < 0,
        ErrorView::Malformed("picture size out of range"@),
    );
    (
        SpsView {
            profile_idc,
            constraint_flags,
            level_idc,
            sps_id,
            chroma_format_idc: 1,
            log2_max_frame_num: log2_frame_num + 4,
            poc_type,
            log2_max_poc_lsb,
            max_num_ref_frames,
            gaps_allowed,
            mb_width: mb_width + 1,
            mb_height: mb_height + 1,
            width,
            height,
            direct_8x8,
            qpprime_y_zero,
            frame_cropping_flag,
            frame_cropping: crop,
            scaling,
        },
        c,
    )
}

fn parse_high_profile(r: &mut BitReader<'_>) -> (res: Result<
    (bool, Option<ScalingLists>),
    H264Error,
>)
    requires
        old(r).wf(),
    ensures
        final(r).wf(),
        ({
            let (v, end) = high_profile_syntax(old(r)@);
            match res {
                Ok(x) => end.err is None && final(r)@ == end && x.0 == v.0 && scaling_view(x.1)
                    == v.1,
                Err(e) => end.err == Some(e@),
            }
        }),
{
    proof {
        reveal(high_profile_syntax);
        lemma_scaling_matrix_error(8);
    }
    let chroma_format_idc: u32 = r.ue()?;
    if chroma_format_idc != 1 {
        return Err(
            H264Error::Unsupported(
                with_number("chroma_format_idc ", chroma_format_idc as u64, " (only 4:2:0)"),
            ),
        );
    }
    let bd_luma: u32 = r.ue()?;
    let bd_chroma: u32 = r.ue()?;
    if bd_luma != 0 || bd_chroma != 0 {
        return Err(unsupported("bit depth > 8"));
    }
    let qpprime = r.flag()?;
    if r.flag()? {
        let m = parse_scaling_matrix(r, 8)?;
        Ok((qpprime, Some(m)))
    } else {
        Ok((qpprime, None))
    }
}

/// A matrix read with a failed cursor leaves the cursor as it is.
proof fn lemma_scaling_matrix_error(n: nat)
    ensures
        forall|c: Cursor| #![trigger scaling_matrix(c, n)]
            c.err is Some ==> scaling_matrix(c, n).1 == c,
{
    assert forall|c: Cursor| #![trigger scaling_matrix(c, n)] c.err is Some implies scaling_matrix(
        c,
        n,
    ).1 == c by {
        lemma_scaling_matrix_sticky(c, 0, n);
    }
}

fn parse_poc(r: &mut BitReader<'_>) -> (res: Result<(u32, u32), H264Error>)
    requires
        old(r).wf(),
    ensures
        final(r).wf(),
        ({
            let (v, end) = poc_syntax(old(r)@);
            match res {
                Ok(x) => end.err is None && final(r)@ == end && x.0 == v.0 && x.1 == v.1,
                Err(e) => end.err == Some(e@),
            }
        }),
{
    proof {
        reveal(poc_syntax);
    }
    let poc_type: u32 = r.ue()?;
    if poc_type == 0 {
        let lsb: u32 = r.ue()?;
        if lsb > u32::MAX - 4 {
            return Err(malformed("log2_max_pic_order_cnt_lsb out of range"));
        }
        Ok((poc_type, lsb + 4))
    } else if poc_type == 2 {
        Ok((poc_type, 0))
    } else {
        let message = with_number("poc type ", poc_type as u64, "");
        proof {
            reveal_strlit("");
            assert(message@ =~= "poc type "@ + crate::text::dec(poc_type as nat));
        }
        Err(H264Error::Unsupported(message))
    }
}

fn parse_crop(r: &mut BitReader<'_>, present: bool) -> (res: Result<[u32; 4], H264Error>)
    requires
        old(r).wf(),
    ensures
        final(r).wf(),
        ({
            let (v, end) = crop_syntax(old(r)@, present);
            match res {
                Ok(x) => end.err is None && final(r)@ == end && x@ == seq![
                    v.0 as u32,
                    v.1 as u32,
                    v.2 as u32,
                    v.3 as u32,
                ] && v.0 <= u32::MAX && v.1 <= u32::MAX && v.2 <= u32::MAX && v.3 <= u32::MAX,
                Err(e) => end.err == Some(e@),
            }
        }),
{
    proof {
        reveal(crop_syntax);
    }
    let mut crop: [u32; 4] = [0; 4];
    if present {
        let left: u32 = r.ue()?;
        let right: u32 = r.ue()?;
        let top: u32 = r.ue()?;
        let bottom: u32 = r.ue()?;
        crop = [left, right, top, bottom];
    }
    Ok(crop)
}

/// Parses a sequence parameter set NAL, header byte included.
pub fn parse_sps(nal_payload: &[u8]) -> (res: Result<Sps, H264Error>)
    requires
        1 <= nal_payload@.len(),
        8 * nal_payload@.len() <= usize::MAX,
    ensures
        ({
            let (v, end) = sps_syntax(
                crate::bitstream::rbsp_of(nal_payload@.skip(1)),
            );
            match res {
                Ok(s) => end.err is None && s@ == v,
                Err(e) => end.err == Some(e@),
            }
        }),
{
    let rbsp = to_rbsp(vstd::slice::slice_subrange(nal_payload, 1, nal_payload.len()));
    assert(nal_payload@.subrange(1, nal_payload@.len() as int) =~= nal_payload@.skip(1));
    let mut reader = BitReader::new(rbsp.as_slice());
    let r = &mut reader;
    proof {
        crate::bitstream::lemma_u_bound(8);
        lemma_sps_parts_error();
    }
    let profile_idc: u8 = r.u(8)? as u8;
    let constraint_flags: u8 = r.u(8)? as u8;
    let level_idc: u8 = r.u(8)? as u8;
    let sps_id: u32 = r.ue()?;
    let high = matches!(profile_idc, 100 | 110 | 122 | 244 | 44 | 83 | 86 | 118 | 128);
    let (qpprime_y_zero, scaling) = if high {
        parse_high_profile(r)?
    } else {
        (false, None)
    };
    let log2_frame_num: u32 = r.ue()?;
    if log2_frame_num > u32::MAX - 4 {
        return Err(malformed("log2_max_frame_num out of range"));
    }
    let (poc_type, log2_max_poc_lsb) = parse_poc(r)?;
    let max_num_ref_frames: u32 = r.ue()?;
    let gaps_allowed = r.flag()?;
    let mb_width: u32 = r.ue()? + 1;
    let mb_height: u32 = r.ue()? + 1;
    if !r.flag()? {
        return Err(unsupported("interlaced (frame_mbs_only=0)"));
    }
    let direct_8x8 = r.flag()?;
    let frame_cropping_flag = r.flag()?;
    let crop: [u32; 4] = parse_crop(r, frame_cropping_flag)?;
    let width: i64 = mb_width as i64 * 16 - 2 * (crop[0] as i64 + crop[1] as i64);
    let height: i64 = mb_height as i64 * 16 - 2 * (crop[2] as i64 + crop[3] as i64);
    if mb_width as i64 * 16 > u32::MAX as i64 || mb_height as i64 * 16 > u32::MAX as i64 || width
        < 0 || height < 0 {
        return Err(malformed("picture size out of range"));
    }
    Ok(
        Sps {
            profile_idc,
            constraint_flags,
            level_idc,
            sps_id,
            chroma_format_idc: 1,
            log2_max_frame_num: log2_frame_num + 4,
            poc_type,
            log2_max_poc_lsb,
            max_num_ref_frames,
            gaps_allowed,
            mb_width,
            mb_height,
            width: width as u32,
            height: height as u32,
            direct_8x8,
            qpprime_y_zero,
            frame_cropping_flag,
            frame_cropping: crop,
            scaling,
        },
    )
}

/// Picture parameter set.
#[derive(Debug, Clone)]
pub struct Pps {
    pub pps_id: u32,
    pub sps_id: u32,
    pub entropy_cabac: bool,
    pub pic_order_present: bool,
    pub num_ref_idx_l0_default: u32,
    pub num_ref_idx_l1_default: u32,
    pub weighted_pred: bool,
    pub weighted_bipred_idc: u32,
    pub pic_init_qp_minus26: i32,
    pub pic_init_qs_minus26: i32,
    pub chroma_qp_index_offset: i32,
    pub second_chroma_qp_index_offset: i32,
    pub deblocking_control_present: bool,
    pub constrained_intra: bool,
    pub redundant_pic_cnt_present: bool,
    pub transform_8x8: bool,
    pub scaling: Option<ScalingLists>,
}

/// The syntax elements of a picture parameter set.
pub struct PpsView {
    pub pps_id: nat,
    pub sps_id: nat,
    pub entropy_cabac: bool,
    pub pic_order_present: bool,
    pub num_ref_idx_l0_default: nat,
    pub num_ref_idx_l1_default: nat,
    pub weighted_pred: bool,
    pub weighted_bipred_idc: nat,
    pub pic_init_qp_minus26: int,
    pub pic_init_qs_minus26: int,
    pub chroma_qp_index_offset: int,
    pub second_chroma_qp_index_offset: int,
    pub deblocking_control_present: bool,
    pub constrained_intra: bool,
    pub redundant_pic_cnt_present: bool,
    pub transform_8x8: bool,
    pub scaling: Option<ScalingListsView>,
}

impl View for Pps {
    type V = PpsView;

    open spec fn view(&self) -> PpsView {
        PpsView {
            pps_id: self.pps_id as nat,
            sps_id: self.sps_id as nat,
            entropy_cabac: self.entropy_cabac,
            pic_order_present: self.pic_order_present,
            num_ref_idx_l0_default: self.num_ref_idx_l0_default as nat,
            num_ref_idx_l1_default: self.num_ref_idx_l1_default as nat,
            weighted_pred: self.weighted_pred,
            weighted_bipred_idc: self.weighted_bipred_idc as nat,
            pic_init_qp_minus26: self.pic_init_qp_minus26 as int,
            pic_init_qs_minus26: self.pic_init_qs_minus26 as int,
            chroma_qp_index_offset: self.chroma_qp_index_offset as int,
            second_chroma_qp_index_offset: self.second_chroma_qp_index_offset as int,
            deblocking_control_present: self.deblocking_control_present,
            constrained_intra: self.constrained_intra,
            redundant_pic_cnt_present: self.redundant_pic_cnt_present,
            transform_8x8: self.transform_8x8,
            scaling: scaling_view(self.scaling),
        }
    }
}

/// The tail that high-profile picture parameter sets carry: 8x8 transform,
/// scaling matrix, second chroma offset. Without it the second chroma offset
/// is the first.
#[verifier::opaque]
pub open spec fn pps_tail_syntax(c: Cursor, chroma_offset: int) -> (
    (bool, Option<ScalingListsView>, int),
    Cursor,
) {
    if c.err is None && c.more_rbsp_data() {
        let (transform_8x8, c) = c.flag();
        let (present, c) = c.flag();
        let (scaling, c) = if present {
            let (m, c) = scaling_matrix(c, if transform_8x8 { 8 } else { 6 });
            (Some(m), c)
        } else {
            (None, c)
        };
        let (second, c) = c.se();
        ((transform_8x8, scaling, second), c)
    } else {
        ((false, None, chroma_offset), c)
    }
}

/// A picture parameter set.
pub open spec fn pps_syntax(rbsp: Seq<u8>) -> (PpsView, Cursor) {
    let c = Cursor::start(rbsp);
    let (pps_id, c) = c.ue();
    let (sps_id, c) = c.ue();
    let (entropy_cabac, c) = c.flag();
    let (pic_order_present, c) = c.flag();
    let (num_slice_groups_minus1, c) = c.ue();
    let c = c.reject_if(
        num_slice_groups_minus1 != 0,
        ErrorView::Unsupported("slice groups (FMO)"@),
    );
    let (l0, c) = c.ue();
    let (l1, c) = c.ue();
    let (weighted_pred, c) = c.flag();
    let (weighted_bipred_idc, c) = c.u(2);
    let (pic_init_qp_minus26, c) = c.se();
    let (pic_init_qs_minus26, c) = c.se();
    let (chroma_qp_index_offset, c) = c.se();
    let (deblocking_control_present, c) = c.flag();
    let (constrained_intra, c) = c.flag();
    let (redundant_pic_cnt_present, c) = c.flag();
    let ((transform_8x8, scaling, second), c) = pps_tail_syntax(c, chroma_qp_index_offset);
    (
        PpsView {
            pps_id,
            sps_id,
            entropy_cabac,
            pic_order_present,
            num_ref_idx_l0_default: l0 + 1,
            num_ref_idx_l1_default: l1 + 1,
            weighted_pred,
            weighted_bipred_idc,
            pic_init_qp_minus26,
            pic_init_qs_minus26,
            chroma_qp_index_offset,
            second_chroma_qp_index_offset: second,
            deblocking_control_present,
            constrained_intra,
            redundant_pic_cnt_present,
            transform_8x8,
            scaling,
        },
        c,
    )
}

fn parse_pps_tail(r: &mut BitReader<'_>, chroma_offset: i32) -> (res: Result<
    (bool, Option<ScalingLists>, i32),
    H264Error,
>)
    requires
        old(r).wf(),
    ensures
        final(r).wf(),
        ({
            let (v, end) = pps_tail_syntax(old(r)@, chroma_offset as int);
            match res {
                Ok(x) => end.err is None && final(r)@ == end && x.0 == v.0 && scaling_view(x.1)
                    == v.1 && x.2 == v.2,
                Err(e) => end.err == Some(e@),
            }
        }),
{
    proof {
        reveal(pps_tail_syntax);
        lemma_scaling_matrix_error(8);
        lemma_scaling_matrix_error(6);
    }
    if r.has_more_rbsp_data() {
        let transform_8x8 = r.flag()?;
        let mut scaling: Option<ScalingLists> = None;
        if r.flag()? {
            let count: usize = if transform_8x8 {
                8
            } else {
                6
            };
            scaling = Some(parse_scaling_matrix(r, count)?);
        }
        let second: i32 = r.se()?;
        Ok((transform_8x8, scaling, second))
    } else {
        Ok((false, None, chroma_offset))
    }
}

/// Parses a picture parameter set NAL, header byte included.
pub fn parse_pps(nal_payload: &[u8]) -> (res: Result<Pps, H264Error>)
    requires
        1 <= nal_payload@.len(),
        8 * nal_payload@.len() <= usize::MAX,
    ensures
        ({
            let (v, end) = pps_syntax(crate::bitstream::rbsp_of(nal_payload@.skip(1)));
            match res {
                Ok(p) => end.err is None && p@ == v,
                Err(e) => end.err == Some(e@),
            }
        }),
{
    let rbsp = to_rbsp(vstd::slice::slice_subrange(nal_payload, 1, nal_payload.len()));
    assert(nal_payload@.subrange(1, nal_payload@.len() as int) =~= nal_payload@.skip(1));
    let mut reader = BitReader::new(rbsp.as_slice());
    let r = &mut reader;
    proof {
        assert forall|c: Cursor, o: int| c.err is Some implies (#[trigger] pps_tail_syntax(
            c,
            o,
        )).1 == c by {
            reveal(pps_tail_syntax);
        }
    }
    let pps_id: u32 = r.ue()?;
    let sps_id: u32 = r.ue()?;
    let entropy_cabac = r.flag()?;
    let pic_order_present = r.flag()?;
    if r.ue()? != 0 {
        return Err(unsupported("slice groups (FMO)"));
    }
    let num_ref_idx_l0_default: u32 = r.ue()? + 1;
    let num_ref_idx_l1_default: u32 = r.ue()? + 1;
    let weighted_pred = r.flag()?;
    let weighted_bipred_idc: u32 = r.u(2)?;
    let pic_init_qp_minus26: i32 = r.se()?;
    let pic_init_qs_minus26: i32 = r.se()?;
    let chroma_qp_index_offset: i32 = r.se()?;
    let deblocking_control_present = r.flag()?;
    let constrained_intra = r.flag()?;
    let redundant_pic_cnt_present = r.flag()?;
    let (transform_8x8, scaling, second_chroma_qp_index_offset) = parse_pps_tail(
        r,
        chroma_qp_index_offset,
    )?;
    Ok(
        Pps {
            pps_id,
            sps_id,
            entropy_cabac,
            pic_order_present,
            num_ref_idx_l0_default,
            num_ref_idx_l1_default,
            weighted_pred,
            weighted_bipred_idc,
            pic_init_qp_minus26,
            pic_init_qs_minus26,
            chroma_qp_index_offset,
            second_chroma_qp_index_offset,
            deblocking_control_present,
            constrained_intra,
            redundant_pic_cnt_present,
            transform_8x8,
            scaling,
        },
    )
}

/// Slice coding type.
#[derive(Debug, Clone, Copy, PartialEq, Eq, Structural)]
pub enum SliceType {
    P,
    B,
    I,
    Sp,
    Si,
}

impl SliceType {
    /// The type that a slice_type value stands for; values from 5 on repeat
    /// the first five.
    pub open spec fn of_value(v: nat) -> SliceType {
        if v % 5 == 0 {
            SliceType::P
        } else if v % 5 == 1 {
            SliceType::B
        } else if v % 5 == 2 {
            SliceType::I
        } else if v % 5 == 3 {
            SliceType::Sp
        } else {
            SliceType::Si
        }
    }

    /// The type that a slice_type value stands for.
    pub fn from_value(v: u32) -> (t: SliceType)
        ensures
            t == SliceType::of_value(v as nat),
            t is P <==> v % 5 == 0,
            t is B <==> v % 5 == 1,
            t is I <==> v % 5 == 2,
            t is Sp <==> v % 5 == 3,
            t is Si <==> v % 5 == 4,
    {
        let m: u32 = v % 5;
        if m == 0 {
            SliceType::P
        } else if m == 1 {
            SliceType::B
        } else if m == 2 {
            SliceType::I
        } else if m == 3 {
            SliceType::Sp
        } else {
            SliceType::Si
        }
    }
}

/// The part of a slice header that reference management needs.
#[derive(Debug, Clone, Copy, PartialEq, Eq, Structural)]
pub struct SliceHeader {
    pub first_mb: u32,
    pub slice_type: SliceType,
    pub pps_id: u32,
    pub frame_num: u32,
    pub idr: bool,
    pub idr_pic_id: u32,
    pub poc_lsb: u32,
    pub num_ref_idx_l0: u32,
    pub nal_ref_idc: u8,
}

/// nal_unit_type of a NAL header byte.
pub open spec fn nal_unit_type(header: u8) -> u8 {
    header & 0x1f
}

/// nal_ref_idc of a NAL header byte.
pub open spec fn nal_ref_idc(header: u8) -> u8 {
    (header >> 5) & 0x3
}

/// Reference list modifications: pairs of an operation below 3 and its
/// argument, ended by the operation 3.
pub open spec fn ref_list_modification(c: Cursor) -> Cursor
    decreases c.total() - c.pos,
{
    if c.err is Some {
        c
    } else {
        let (op, c1) = c.ue();
        let c1 = c1.reject_if(op > 3, ErrorView::Malformed("bad ref list modification op"@));
        if c1.err is Some || op == 3 {
            c1
        } else {
            let (_, c2) = c1.ue();
            if c2.err is Some {
                c2
            } else {
                proof {
                    crate::bitstream::lemma_ue_progress(c);
                    crate::bitstream::lemma_ue_progress(c1);
                }
                ref_list_modification(c2)
            }
        }
    }
}

/// The reference fields of a P slice: the number of active references and
/// the list modification.
#[verifier::opaque]
pub open spec fn p_slice_syntax(c: Cursor, default_l0: u32, weighted_pred: bool) -> (
    u32,
    Cursor,
) {
    let (over, c) = c.flag();
    let (l0, c) = if over {
        let (v, c) = c.ue();
        ((v + 1) as u32, c)
    } else {
        (default_l0, c)
    };
    let (modified, c) = c.flag();
    let c = if modified {
        ref_list_modification(c)
    } else {
        c
    };
    let c = c.reject_if(weighted_pred, ErrorView::Unsupported("weighted prediction"@));
    (l0, c)
}

/// Decoded reference picture marking of a reference picture.
#[verifier::opaque]
pub open spec fn ref_marking_syntax(c: Cursor, idr: bool) -> Cursor {
    if idr {
        let (_, c) = c.flag();
        let (long_term, c) = c.flag();
        c.reject_if(long_term, ErrorView::Unsupported("long-term references"@))
    } else {
        let (adaptive, c) = c.flag();
        c.reject_if(adaptive, ErrorView::Unsupported("adaptive ref pic marking (MMCO)"@))
    }
}

/// A slice header from its first macroblock through reference marking, for
/// the NAL header byte `nal0` and the payload `rbsp` behind it.
pub open spec fn slice_header_syntax(nal0: u8, rbsp: Seq<u8>, sps: Sps, pps: Pps) -> (
    SliceHeader,
    Cursor,
) {
    let idr = nal_unit_type(nal0) == 5;
    let c = Cursor::start(rbsp);
    let (first_mb, c) = c.ue();
    let (slice_type_value, c) = c.ue();
    let slice_type = SliceType::of_value(slice_type_value);
    let c = c.reject_if(
        slice_type is B,
        ErrorView::Unsupported("B slices (add DPB support when a device produces them)"@),
    );
    let c = c.reject_if(
        slice_type is Sp || slice_type is Si,
        ErrorView::Unsupported("SP/SI slices"@),
    );
    let (pps_id, c) = c.ue();
    let (frame_num, c) = c.u(sps.log2_max_frame_num as nat);
    let (idr_pic_id, c) = if idr {
        c.ue()
    } else {
        (0, c)
    };
    let (poc_lsb, c) = if sps.poc_type == 0 {
        c.u(sps.log2_max_poc_lsb as nat)
    } else {
        (0, c)
    };
    let c = if sps.poc_type == 0 && pps.pic_order_present {
        c.se().1
    } else {
        c
    };
    let c = if pps.redundant_pic_cnt_present {
        c.ue().1
    } else {
        c
    };
    let (num_ref_idx_l0, c) = if slice_type is P {
        p_slice_syntax(c, pps.num_ref_idx_l0_default, pps.weighted_pred)
    } else {
        (pps.num_ref_idx_l0_default, c)
    };
    let c = if nal_ref_idc(nal0) != 0 {
        ref_marking_syntax(c, idr)
    } else {
        c
    };
    (
        SliceHeader {
            first_mb: first_mb as u32,
            slice_type,
            pps_id: pps_id as u32,
            frame_num: frame_num as u32,
            idr,
            idr_pic_id: idr_pic_id as u32,
            poc_lsb: poc_lsb as u32,
            num_ref_idx_l0,
            nal_ref_idc: nal_ref_idc(nal0),
        },
        c,
    )
}

fn skip_ref_list_modification(r: &mut BitReader<'_>) -> (res: Result<(), H264Error>)
    requires
        old(r).wf(),
    ensures
        final(r).wf(),
        match res {
            Ok(_) => ref_list_modification(old(r)@) == final(r)@,
            Err(e) => ref_list_modification(old(r)@).err == Some(e@),
        },
{
    loop
        invariant
            r.wf(),
            ref_list_modification(r@) == ref_list_modification(old(r)@),
        decreases r@.total() - r@.pos,
    {
        let ghost c = r@;
        let op: u32 = r.ue()?;
        if op == 3 {
            return Ok(());
        }
        if op > 3 {
            return Err(malformed("bad ref list modification op"));
        }
        let ghost c1 = r@;
        let _value: u32 = r.ue()?;
        proof {
            crate::bitstream::lemma_ue_progress(c);
            crate::bitstream::lemma_ue_progress(c1);
        }
    }
}

fn parse_p_slice(r: &mut BitReader<'_>, pps: &Pps) -> (res: Result<u32, H264Error>)
    requires
        old(r).wf(),
    ensures
        final(r).wf(),
        ({
            let (v, end) = p_slice_syntax(old(r)@, pps.num_ref_idx_l0_default, pps.weighted_pred);
            match res {
                Ok(x) => end.err is None && final(r)@ == end && x == v,
                Err(e) => end.err == Some(e@),
            }
        }),
{
    proof {
        reveal(p_slice_syntax);
    }
    let mut num_ref_idx_l0: u32 = pps.num_ref_idx_l0_default;
    if r.flag()? {
        num_ref_idx_l0 = r.ue()? + 1;
    }
    if r.flag()? {
        skip_ref_list_modification(r)?;
    }
    if pps.weighted_pred {
        return Err(unsupported("weighted prediction"));
    }
    Ok(num_ref_idx_l0)
}

fn parse_ref_marking(r: &mut BitReader<'_>, idr: bool) -> (res: Result<(), H264Error>)
    requires
        old(r).wf(),
    ensures
        final(r).wf(),
        ({
            let end = ref_marking_syntax(old(r)@, idr);
            match res {
                Ok(_) => end.err is None && final(r)@ == end,
                Err(e) => end.err == Some(e@),
            }
        }),
{
    proof {
        reveal(ref_marking_syntax);
    }
    if idr {
        let _no_output = r.flag()?;
        let long_term = r.flag()?;
        if long_term {
            return Err(unsupported("long-term references"));
        }
    } else if r.flag()? {
        return Err(unsupported("adaptive ref pic marking (MMCO)"));
    }
    Ok(())
}

proof fn lemma_slice_parts_error()
    ensures
        forall|c: Cursor, d: u32, w: bool|
            c.err is Some ==> (#[trigger] p_slice_syntax(c, d, w)).1 == c,
        forall|c: Cursor, i: bool| c.err is Some ==> #[trigger] ref_marking_syntax(c, i) == c,
{
    reveal(p_slice_syntax);
    reveal(ref_marking_syntax);
}

/// Number of leading NAL bytes that a slice header is read from.
pub const SLICE_HEADER_BYTES: usize = 320;

/// The leading part of a slice NAL, without its header byte.
pub open spec fn slice_header_bytes(nal: Seq<u8>) -> Seq<u8> {
    nal.subrange(
        1,
        if nal.len() < SLICE_HEADER_BYTES {
            nal.len() as int
        } else {
            SLICE_HEADER_BYTES as int
        },
    )
}

/// Parses the slice-header prefix through dec_ref_pic_marking, with the
/// active SPS and PPS.
pub fn parse_slice_header(nal: &[u8], sps: &Sps, pps: &Pps) -> (res: Result<
    SliceHeader,
    H264Error,
>)
    requires
        1 <= nal@.len(),
    ensures
        ({
            let (v, end) = slice_header_syntax(
                nal@[0],
                crate::bitstream::rbsp_of(slice_header_bytes(nal@)),
                *sps,
                *pps,
            );
            match res {
                Ok(h) => end.err is None && h == v,
                Err(e) => end.err == Some(e@),
            }
        }),
{
    let nal_unit_type: u8 = nal[0] & 0x1f;
    let nal_ref_idc: u8 = (nal[0] >> 5) & 0x3;
    let idr = nal_unit_type == 5;
    let take: usize = if nal.len() < SLICE_HEADER_BYTES {
        nal.len()
    } else {
        SLICE_HEADER_BYTES
    };
    let rbsp = to_rbsp(vstd::slice::slice_subrange(nal, 1, take));
    let mut reader = BitReader::new(rbsp.as_slice());
    let r = &mut reader;
    proof {
        lemma_slice_parts_error();
    }
    let first_mb: u32 = r.ue()?;
    let slice_type = SliceType::from_value(r.ue()?);
    if slice_type == SliceType::B {
        return Err(unsupported("B slices (add DPB support when a device produces them)"));
    }
    if slice_type == SliceType::Sp || slice_type == SliceType::Si {
        return Err(unsupported("SP/SI slices"));
    }
    let pps_id: u32 = r.ue()?;
    let frame_num: u32 = r.u(sps.log2_max_frame_num)?;
    let mut idr_pic_id: u32 = 0;
    if idr {
        idr_pic_id = r.ue()?;
    }
    let mut poc_lsb: u32 = 0;
    if sps.poc_type == 0 {
        poc_lsb = r.u(sps.log2_max_poc_lsb)?;
        if pps.pic_order_present {
            let _delta_bottom: i32 = r.se()?;
        }
    }
    if pps.redundant_pic_cnt_present {
        let _redundant: u32 = r.ue()?;
    }
    let mut num_ref_idx_l0: u32 = pps.num_ref_idx_l0_default;
    if slice_type == SliceType::P {
        num_ref_idx_l0 = parse_p_slice(r, pps)?;
    }
    if nal_ref_idc != 0 {
        parse_ref_marking(r, idr)?;
    }
    Ok(
        SliceHeader {
            first_mb,
            slice_type,
            pps_id,
            frame_num,
            idr,
            idr_pic_id,
            poc_lsb,
            num_ref_idx_l0,
            nal_ref_idc,
        },
    )
}

} // verus!
