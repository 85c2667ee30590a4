//! Two values that read alike agree field by field: the view of a parsed type
//! holds each of its fields, under the field's own name.
use vstd::prelude::*;

use crate::colmap::{RawImage, SfmPoint};
use crate::h264::{Pps, ScalingLists, Sps};
use crate::h265::{H265SliceHeader, H265Sps, StRps};
use crate::hevc_demux::{BoxRef, HevcTrackInfo, HvccRecord};
use crate::ply::header::{Element, Property};
use crate::ply::layout::{GaussianLayout, PointsLayout};
use crate::ply::reader::{RawColor, RawColorView, RawPoint, RawSplat};

verus! {

/// The size and the coding of an H.264 sequence are those that were read.
pub proof fn sequence_holds_what_was_read(s: Sps)
    ensures
        s.profile_idc == s@.profile_idc,
        s.constraint_flags == s@.constraint_flags,
        s.level_idc == s@.level_idc,
        s.sps_id == s@.sps_id,
        s.chroma_format_idc == s@.chroma_format_idc,
        s.log2_max_frame_num == s@.log2_max_frame_num,
        s.poc_type == s@.poc_type,
        s.log2_max_poc_lsb == s@.log2_max_poc_lsb,
        s.max_num_ref_frames == s@.max_num_ref_frames,
        s.gaps_allowed == s@.gaps_allowed,
        s.mb_width == s@.mb_width,
        s.mb_height == s@.mb_height,
        s.width == s@.width,
        s.height == s@.height,
        s.direct_8x8 == s@.direct_8x8,
        s.qpprime_y_zero == s@.qpprime_y_zero,
        s.frame_cropping_flag == s@.frame_cropping_flag,
        s.frame_cropping@[0] == s@.frame_cropping.0,
        s.frame_cropping@[1] == s@.frame_cropping.1,
        s.frame_cropping@[2] == s@.frame_cropping.2,
        s.frame_cropping@[3] == s@.frame_cropping.3,
        s.scaling is Some <==> s@.scaling is Some,
        s.scaling matches Some(m) ==> s@.scaling == Some(m@),
{
}

/// The coding of H.264 pictures is the one that was read.
pub proof fn picture_set_holds_what_was_read(p: Pps)
    ensures
        p.pps_id == p@.pps_id,
        p.sps_id == p@.sps_id,
        p.entropy_cabac == p@.entropy_cabac,
        p.pic_order_present == p@.pic_order_present,
        p.num_ref_idx_l0_default == p@.num_ref_idx_l0_default,
        p.num_ref_idx_l1_default == p@.num_ref_idx_l1_default,
        p.weighted_pred == p@.weighted_pred,
        p.weighted_bipred_idc == p@.weighted_bipred_idc,
        p.pic_init_qp_minus26 == p@.pic_init_qp_minus26,
        p.pic_init_qs_minus26 == p@.pic_init_qs_minus26,
        p.chroma_qp_index_offset == p@.chroma_qp_index_offset,
        p.second_chroma_qp_index_offset == p@.second_chroma_qp_index_offset,
        p.deblocking_control_present == p@.deblocking_control_present,
        p.constrained_intra == p@.constrained_intra,
        p.redundant_pic_cnt_present == p@.redundant_pic_cnt_present,
        p.transform_8x8 == p@.transform_8x8,
        p.scaling is Some <==> p@.scaling is Some,
        p.scaling matches Some(m) ==> p@.scaling == Some(m@),
{
}

/// Scaling lists are told by their size and their number.
pub proof fn lists_hold_what_was_read(m: ScalingLists, i: int, j: int)
    requires
        0 <= i < 6,
    ensures
        m.present_mask == m@.present_mask,
        m.use_default_mask == m@.use_default_mask,
        0 <= j < 16 ==> m.list_4x4@[i]@[j] == m@.list_4x4[i][j],
        0 <= j < 64 ==> m.list_8x8@[i]@[j] == m@.list_8x8[i][j],
{
}

/// The size and the coding of an H.265 sequence are those that were read.
pub proof fn h265_sequence_holds_what_was_read(s: H265Sps)
    ensures
        s.vps_id == s@.vps_id,
        s.sps_id == s@.sps_id,
        s.max_sub_layers_minus1 == s@.max_sub_layers_minus1,
        s.temporal_id_nesting == s@.temporal_id_nesting,
        s.ptl == s@.ptl,
        s.chroma_format_idc == s@.chroma_format_idc,
        s.width == s@.width,
        s.height == s@.height,
        s.crop@ == s@.crop,
        s.bit_depth_luma == s@.bit_depth.0,
        s.bit_depth_chroma == s@.bit_depth.1,
        s.log2_max_poc_lsb == s@.log2_max_poc_lsb,
        s.max_dec_pic_buffering == s@.max_dec_pic_buffering,
        s.max_num_reorder_pics == s@.max_num_reorder_pics,
        s.log2_min_cb_minus3 == s@.blocks.log2_min_cb_minus3,
        s.log2_diff_cb == s@.blocks.log2_diff_cb,
        s.log2_min_tb_minus2 == s@.blocks.log2_min_tb_minus2,
        s.log2_diff_tb == s@.blocks.log2_diff_tb,
        s.max_th_depth_inter == s@.blocks.max_th_depth_inter,
        s.max_th_depth_intra == s@.blocks.max_th_depth_intra,
        s.scaling_list_enabled == s@.scaling_list_enabled,
        s.amp_enabled == s@.amp_enabled,
        s.sao_enabled == s@.sao_enabled,
        s.pcm_enabled == s@.pcm_enabled,
        s.temporal_mvp == s@.temporal_mvp,
        s.strong_intra_smoothing == s@.strong_intra_smoothing,
        s.st_rps@.len() == s@.st_rps.len(),
        forall|i: int| 0 <= i < s.st_rps@.len() ==> (#[trigger] s.st_rps@[i])@ == s@.st_rps[i],
{
}

/// A reference picture set and an H.265 slice hold what was read of them.
pub proof fn slice_holds_what_was_read(h: H265SliceHeader, r: StRps)
    ensures
        r.neg@ == r@.neg,
        r.pos@ == r@.pos,
        h.nal_type == h@.nal_type,
        h.first_slice == h@.first_slice,
        h.pps_id == h@.pps_id,
        h.slice_type == h@.slice_type,
        h.poc_lsb == h@.poc_lsb,
        h.rps@ == h@.refs.rps,
        h.num_bits_st_rps == h@.refs.num_bits_st_rps,
        h.num_delta_pocs_of_ref == h@.refs.num_delta_pocs_of_ref,
{
}

/// A track, its configuration and the boxes around them hold what was read.
pub proof fn track_holds_what_was_read(t: HevcTrackInfo, r: HvccRecord, b: BoxRef, i: int)
    ensures
        t.track_id == t@.track_id,
        t.fourcc@ == t@.fourcc,
        t.length_size == t@.config.length_size,
        t.vps@.len() == t@.config.vps.len(),
        t.sps@.len() == t@.config.sps.len(),
        t.pps@.len() == t@.config.pps.len(),
        0 <= i < t.vps@.len() ==> t.vps@[i]@ == t@.config.vps[i],
        0 <= i < t.sps@.len() ==> t.sps@[i]@ == t@.config.sps[i],
        0 <= i < t.pps@.len() ==> t.pps@[i]@ == t@.config.pps[i],
        t.colr == t@.colr,
        t.rotation == t@.rotation,
        r.0 == crate::hevc_demux::hvcc_view(r).length_size,
        0 <= i < r.1@.len() ==> r.1@[i]@ == crate::hevc_demux::hvcc_view(r).vps[i],
        0 <= i < r.2@.len() ==> r.2@[i]@ == crate::hevc_demux::hvcc_view(r).sps[i],
        0 <= i < r.3@.len() ==> r.3@[i]@ == crate::hevc_demux::hvcc_view(r).pps[i],
        r.1@.len() == crate::hevc_demux::hvcc_view(r).vps.len(),
        r.2@.len() == crate::hevc_demux::hvcc_view(r).sps.len(),
        r.3@.len() == crate::hevc_demux::hvcc_view(r).pps.len(),
        b.fourcc@ == b@.fourcc,
        b.start == b@.start,
        b.end == b@.end,
{
}

/// An image and a point of a reconstruction hold what was read of them.
pub proof fn reconstruction_holds_what_was_read(i: RawImage, p: SfmPoint)
    ensures
        i.name@ == i@.name,
        i.quat_wxyz@ == i@.quat_wxyz,
        i.t@ == i@.t,
        i.camera_id == i@.camera_id,
        p.position@ == p@.position,
        p.rgb@ == p@.rgb,
{
}

/// An element and its columns hold what was read of them.
pub proof fn element_holds_what_was_read(e: Element, p: Property, i: int)
    ensures
        p.name@ == p@.name,
        p.ty == p@.ty,
        e.name@ == e@.name,
        e.count == e@.count,
        e.has_list_property == e@.has_list_property,
        e.properties@.len() == e@.properties.len(),
        0 <= i < e.properties@.len() ==> e.properties@[i]@ == e@.properties[i],
{
}

/// A splat and a point hold what was read of them.
pub proof fn row_holds_what_was_read(s: RawSplat, p: RawPoint, bytes: [u8; 3], words: [u32; 3])
    ensures
        s.position@ == s@.position,
        s.sh@ == s@.sh,
        s.opacity == s@.opacity,
        s.scale@ == s@.scale,
        s.rotation@ == s@.rotation,
        p.position@ == p@.position,
        p.color@ == p@.color,
        RawColor::Absent@ == RawColorView::Absent,
        RawColor::Bytes(bytes)@ == RawColorView::Bytes(bytes@),
        RawColor::Floats(words)@ == RawColorView::Floats(words@),
{
}

/// The offsets of a splat's values are listed as position, first harmonics,
/// further harmonics, opacity, scale and rotation.
pub proof fn offsets_are_listed_in_order(g: GaussianLayout, k: int)
    requires
        g.pos@.len() == 3,
        g.f_dc@.len() == 3,
        g.scale@.len() == 3,
        g.rot@.len() == 4,
    ensures
        ({
            let n = g.f_rest@.len() as int;
            &&& g@.offsets.len() == 14 + n
            &&& 0 <= k < 3 ==> g@.offsets[k] == g.pos@[k]
            &&& 0 <= k < 3 ==> g@.offsets[3 + k] == g.f_dc@[k]
            &&& 0 <= k < n ==> g@.offsets[6 + k] == g.f_rest@[k]
            &&& g@.offsets[6 + n] == g.opacity
            &&& 0 <= k < 3 ==> g@.offsets[7 + n + k] == g.scale@[k]
            &&& 0 <= k < 4 ==> g@.offsets[10 + n + k] == g.rot@[k]
        }),
        g@.count == g.count,
        g@.stride == g.stride,
        g@.sh_degree == g.sh_degree,
        g@.fast_path == g.fast_path,
{
}

/// The offsets of a point's position and colour are listed in order.
pub proof fn point_offsets_are_listed_in_order(p: PointsLayout, k: int)
    requires
        0 <= k < 3,
        p.pos@.len() == 3,
    ensures
        p@.count == p.count,
        p@.stride == p.stride,
        p@.pos[k] == p.pos@[k],
        match (p.color, p@.color) {
            (Some((at, ty)), Some((listed, listed_ty))) => listed[k] == at@[k] && listed_ty == ty,
            (None, None) => true,
            _ => false,
        },
{
}

} // verus!
