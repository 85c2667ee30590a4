//! H.265 parameter sets and slice headers as an encoder writes them, field by
//! field, and the laws that reading gives back what was written.
use crate::bitstream::{escaped, rbsp_of, Cursor, ErrorView};
use crate::coding::{at, begins_with, codable, part_at, step_part, Field};
use crate::h265::{
    deblocking_syntax, pps_filter_syntax, pps_head_syntax, pps_quant_syntax, pps_syntax, ptl_syntax,
    reserved_pairs, sub_layer_data, sub_layer_flags, tiles_syntax, vps_syntax, H265Pps, Ptl,
};
use vstd::prelude::*;

verus! {

/// A sub-layer's own profile, of 88 bits, and level, where they are given.
pub struct SubLayer {
    pub profile: Option<(nat, nat, nat)>,
    pub level: Option<nat>,
}

/// profile_tier_level() as it is written.
pub struct WrittenPtl {
    pub profile_space: nat,
    pub tier_flag: bool,
    pub profile_idc: nat,
    pub compat_flags: nat,
    pub progressive_source: bool,
    pub interlaced_source: bool,
    pub non_packed: bool,
    pub frame_only: bool,
    /// 44 reserved bits.
    pub reserved: (nat, nat),
    pub level_idc: nat,
    pub layers: Seq<SubLayer>,
    /// Two bits for each of the sub-layers that there are not.
    pub padding: nat,
}

pub open spec fn ptl_head(w: WrittenPtl) -> Seq<Field> {
    seq![
        Field::Bits(w.profile_space, 2),
        Field::Flag(w.tier_flag),
        Field::Bits(w.profile_idc, 5),
        Field::Bits(w.compat_flags, 32),
        Field::Flag(w.progressive_source),
        Field::Flag(w.interlaced_source),
        Field::Flag(w.non_packed),
        Field::Flag(w.frame_only),
        Field::Bits(w.reserved.0, 22),
        Field::Bits(w.reserved.1, 22),
        Field::Bits(w.level_idc, 8),
    ]
}

/// What each of the first `n` sub-layers holds.
pub open spec fn layer_flags(layers: Seq<SubLayer>, n: nat) -> Seq<Field>
    decreases n,
{
    if n == 0 {
        Seq::empty()
    } else {
        layer_flags(layers, (n - 1) as nat) + seq![
            Field::Flag(layers[n - 1].profile is Some),
            Field::Flag(layers[n - 1].level is Some),
        ]
    }
}

pub open spec fn profile_fields(l: SubLayer) -> Seq<Field> {
    match l.profile {
        Some((a, b, c)) => seq![Field::Bits(a, 32), Field::Bits(b, 32), Field::Bits(c, 24)],
        None => Seq::empty(),
    }
}

pub open spec fn level_fields(l: SubLayer) -> Seq<Field> {
    match l.level {
        Some(v) => seq![Field::Bits(v, 8)],
        None => Seq::empty(),
    }
}

/// The data of the first `n` sub-layers.
pub open spec fn layer_data(layers: Seq<SubLayer>, n: nat) -> Seq<Field>
    decreases n,
{
    if n == 0 {
        Seq::empty()
    } else {
        layer_data(layers, (n - 1) as nat) + (profile_fields(layers[n - 1]) + level_fields(
            layers[n - 1],
        ))
    }
}

/// Padding up to eight sub-layers, where there are any.
pub open spec fn layer_padding(w: WrittenPtl) -> Seq<Field> {
    if w.layers.len() > 0 {
        Seq::new((8 - w.layers.len()) as nat, |i: int| Field::Bits(w.padding, 2))
    } else {
        Seq::empty()
    }
}

pub open spec fn ptl_fields(w: WrittenPtl) -> Seq<Field> {
    ptl_head(w) + (layer_flags(w.layers, w.layers.len()) + (layer_padding(w) + layer_data(
        w.layers,
        w.layers.len(),
    )))
}

/// What a profile, tier and level that were read owe to the written ones.
pub open spec fn ptl_agrees(p: Ptl, w: WrittenPtl) -> bool {
    &&& p.tier_flag == w.tier_flag
    &&& p.profile_idc == w.profile_idc
    &&& p.level_idc == w.level_idc
    &&& p.progressive_source == w.progressive_source
    &&& p.interlaced_source == w.interlaced_source
    &&& p.non_packed == w.non_packed
    &&& p.frame_only == w.frame_only
    &&& p.compat_flags == w.compat_flags
}

proof fn lemma_layer_flags(c: Cursor, fs: Seq<Field>, k: int, layers: Seq<SubLayer>, n: nat) -> (next:
    Cursor)
    requires
        at(c, fs, k),
        part_at(fs, k, layer_flags(layers, n)),
        n <= layers.len(),
    ensures
        at(next, fs, k + layer_flags(layers, n).len()),
        sub_layer_flags(c, n).1 == next,
        sub_layer_flags(c, n).0 == Seq::new(
            n,
            |i: int| (layers[i].profile is Some, layers[i].level is Some),
        ),
    decreases n,
{
    let all = Seq::new(n, |i: int| (layers[i].profile is Some, layers[i].level is Some));
    if n == 0 {
        assert(all =~= Seq::empty());
        c
    } else {
        let front = layer_flags(layers, (n - 1) as nat);
        let pair = seq![
            Field::Flag(layers[n - 1].profile is Some),
            Field::Flag(layers[n - 1].level is Some),
        ];
        crate::coding::lemma_part_split(fs, k, front, pair);
        let c1 = lemma_layer_flags(c, fs, k, layers, (n - 1) as nat);
        let c2 = step_part(c1, fs, k + front.len(), pair, 0);
        let c3 = step_part(c2, fs, k + front.len(), pair, 1);
        assert(sub_layer_flags(c, n).0 =~= all);
        c3
    }
}

proof fn lemma_layer_padding(c: Cursor, fs: Seq<Field>, k: int, v: nat, m: nat, n: nat) -> (next:
    Cursor)
    requires
        at(c, fs, k),
        part_at(fs, k, Seq::new(m, |i: int| Field::Bits(v, 2))),
        n <= m,
    ensures
        at(next, fs, k + n),
        reserved_pairs(c, n) == next,
    decreases n,
{
    if n == 0 {
        c
    } else {
        let c1 = lemma_layer_padding(c, fs, k, v, m, (n - 1) as nat);
        step_part(c1, fs, k, Seq::new(m, |i: int| Field::Bits(v, 2)), n - 1)
    }
}

proof fn lemma_layer_data(
    c: Cursor,
    fs: Seq<Field>,
    k: int,
    layers: Seq<SubLayer>,
    flags: Seq<(bool, bool)>,
    n: nat,
) -> (next: Cursor)
    requires
        at(c, fs, k),
        part_at(fs, k, layer_data(layers, n)),
        n <= layers.len(),
        n <= flags.len(),
        forall|i: int|
            0 <= i < n ==> #[trigger] flags[i] == (
                layers[i].profile is Some,
                layers[i].level is Some,
            ),
    ensures
        at(next, fs, k + layer_data(layers, n).len()),
        sub_layer_data(c, flags, n) == next,
    decreases n,
{
    if n == 0 {
        c
    } else {
        let l = layers[n - 1];
        let front = layer_data(layers, (n - 1) as nat);
        crate::coding::lemma_part_split(fs, k, front, profile_fields(l) + level_fields(l));
        let c1 = lemma_layer_data(c, fs, k, layers, flags, (n - 1) as nat);
        assert(flags[n - 1] == (l.profile is Some, l.level is Some));
        let k1 = k + front.len();
        crate::coding::lemma_part_split(fs, k1, profile_fields(l), level_fields(l));
        let c2 = match l.profile {
            Some(_) => {
                let d1 = step_part(c1, fs, k1, profile_fields(l), 0);
                let d2 = step_part(d1, fs, k1, profile_fields(l), 1);
                step_part(d2, fs, k1, profile_fields(l), 2)
            },
            None => c1,
        };
        match l.level {
            Some(_) => step_part(c2, fs, k1 + profile_fields(l).len(), level_fields(l), 0),
            None => c2,
        }
    }
}

/// The bounds of a field that can be coded.
pub proof fn lemma_small(c: Cursor, fs: Seq<Field>, k: int, part: Seq<Field>, i: int)
    requires
        at(c, fs, k),
        part_at(fs, k, part),
        0 <= i < part.len(),
    ensures
        codable(part[i]),
        part[i] matches Field::Bits(v, n) ==> (n == 8 ==> v < 256) && (n == 5 ==> v < 32) && (n
            == 4 ==> v < 16) && (n == 3 ==> v < 8) && (n == 32 ==> v < 0x1_0000_0000) && v
            < 0x1_0000_0000,
        part[i] matches Field::Ue(v) ==> v < 0xffff_ffff,
        part[i] matches Field::Se(v) ==> -0x7fff_ffff <= v <= 0x7fff_ffff,
{
    reveal(at);
    reveal(part_at);
    assert(fs[k + i] == part[i]);
    vstd::arithmetic::power2::lemma2_to64();
    match part[i] {
        Field::Bits(v, n) => {
            if n < 32 {
                vstd::arithmetic::power2::lemma_pow2_strictly_increases(n, 32);
            }
        },
        _ => {},
    }
}

/// Reading undoes writing for profile, tier and level.
pub proof fn lemma_ptl(c: Cursor, fs: Seq<Field>, k: int, w: WrittenPtl) -> (next: Cursor)
    requires
        at(c, fs, k),
        part_at(fs, k, ptl_fields(w)),
        w.layers.len() <= 7,
    ensures
        at(next, fs, k + ptl_fields(w).len()),
        ptl_syntax(c, w.layers.len()).1 == next,
        ptl_agrees(ptl_syntax(c, w.layers.len()).0, w),
{
    reveal(ptl_syntax);
    let n = w.layers.len();
    let h = ptl_head(w);
    let flags = layer_flags(w.layers, n);
    let data = layer_data(w.layers, n);
    crate::coding::lemma_part_split(fs, k, h, flags + (layer_padding(w) + data));
    crate::coding::lemma_part_split(fs, k + 11, flags, layer_padding(w) + data);
    let k1 = k + 11 + flags.len();
    crate::coding::lemma_part_split(fs, k1, layer_padding(w), data);
    lemma_small(c, fs, k, h, 2);
    lemma_small(c, fs, k, h, 3);
    lemma_small(c, fs, k, h, 10);
    let c1 = step_part(c, fs, k, h, 0);
    let c2 = step_part(c1, fs, k, h, 1);
    let c3 = step_part(c2, fs, k, h, 2);
    let c4 = step_part(c3, fs, k, h, 3);
    let c5 = step_part(c4, fs, k, h, 4);
    let c6 = step_part(c5, fs, k, h, 5);
    let c7 = step_part(c6, fs, k, h, 6);
    let c8 = step_part(c7, fs, k, h, 7);
    let c9 = step_part(c8, fs, k, h, 8);
    let d1 = step_part(c9, fs, k, h, 9);
    let d2 = step_part(d1, fs, k, h, 10);
    let d3 = lemma_layer_flags(d2, fs, k + 11, w.layers, n);
    let d4 = if n > 0 {
        lemma_layer_padding(d3, fs, k1, w.padding, (8 - n) as nat, (8 - n) as nat)
    } else {
        d3
    };
    lemma_layer_data(d4, fs, k1 + layer_padding(w).len(), w.layers, sub_layer_flags(d2, n).0, n)
}

/// A video parameter set as it is written, up to its profile, tier and level.
pub struct WrittenVps {
    pub vps_id: nat,
    pub base_layer: nat,
    pub max_layers_minus1: nat,
    pub temporal_id_nesting: bool,
    pub reserved: nat,
    pub ptl: WrittenPtl,
}

pub open spec fn vps_head(w: WrittenVps) -> Seq<Field> {
    seq![
        Field::Bits(w.vps_id, 4),
        Field::Bits(w.base_layer, 2),
        Field::Bits(w.max_layers_minus1, 6),
        Field::Bits(w.ptl.layers.len(), 3),
        Field::Flag(w.temporal_id_nesting),
        Field::Bits(w.reserved, 16),
    ]
}

/// The fields of a video parameter set, in order.
pub open spec fn vps_fields(w: WrittenVps) -> Seq<Field> {
    vps_head(w) + ptl_fields(w.ptl)
}

/// Reading undoes writing: a video parameter set whose fields stand in the
/// order of the standard, behind two header bytes, gives back its number,
/// the number of its sub-layers, their nesting, and profile, tier and level.
pub proof fn reading_a_vps_undoes_writing(
    w: WrittenVps,
    head: Seq<u8>,
    payload: Seq<u8>,
    behind: Seq<u8>,
    nal: Seq<u8>,
)
    requires
        head.len() == 2,
        w.ptl.layers.len() <= 7,
        begins_with(payload, vps_fields(w)),
        nal == head + (escaped(payload) + behind),
    ensures
        ({
            let (v, end) = vps_syntax(rbsp_of(nal.skip(2)));
            &&& end.err is None
            &&& v.vps_id == w.vps_id
            &&& v.max_sub_layers_minus1 == w.ptl.layers.len()
            &&& v.temporal_id_nesting == w.temporal_id_nesting
            &&& ptl_agrees(v.ptl, w.ptl)
        }),
{
    crate::coding::lemma_nal_begins(head, payload, behind, nal, vps_fields(w));
    lemma_vps(w, rbsp_of(nal.skip(2)));
}

proof fn lemma_vps(w: WrittenVps, rbsp: Seq<u8>)
    requires
        w.ptl.layers.len() <= 7,
        begins_with(rbsp, vps_fields(w)),
    ensures
        ({
            let (v, end) = vps_syntax(rbsp);
            &&& end.err is None
            &&& v.vps_id == w.vps_id
            &&& v.max_sub_layers_minus1 == w.ptl.layers.len()
            &&& v.temporal_id_nesting == w.temporal_id_nesting
            &&& ptl_agrees(v.ptl, w.ptl)
        }),
{
    let fs = vps_fields(w);
    let h = vps_head(w);
    crate::coding::lemma_part_whole(fs);
    crate::coding::lemma_part_split(fs, 0, h, ptl_fields(w.ptl));
    let c0 = Cursor::start(rbsp);
    lemma_small(c0, fs, 0, h, 0);
    let c1 = step_part(c0, fs, 0, h, 0);
    let c2 = step_part(c1, fs, 0, h, 1);
    let c3 = step_part(c2, fs, 0, h, 2);
    let c4 = step_part(c3, fs, 0, h, 3);
    let c5 = step_part(c4, fs, 0, h, 4);
    let c6 = step_part(c5, fs, 0, h, 5);
    let c7 = lemma_ptl(c6, fs, 6, w.ptl);
    crate::coding::lemma_no_error(c7, fs, 6int + ptl_fields(w.ptl).len());
}

/// A picture parameter set as it is written, up to its extensions. The tile
/// fields are there where tiles are on, the deblocking fields where the
/// control is on, the offsets where the filter is not off.
pub struct WrittenPps {
    pub pps_id: nat,
    pub sps_id: nat,
    pub dependent_slice_segments: bool,
    pub output_flag_present: bool,
    pub num_extra_slice_header_bits: nat,
    pub sign_data_hiding: bool,
    pub cabac_init_present: bool,
    pub l0_default_minus1: nat,
    pub l1_default_minus1: nat,
    pub init_qp_minus26: int,
    pub constrained_intra: bool,
    pub transform_skip: bool,
    pub diff_cu_qp_delta_depth: Option<nat>,
    pub cb_qp_offset: int,
    pub cr_qp_offset: int,
    pub slice_chroma_qp_offsets_present: bool,
    pub weighted_pred: bool,
    pub weighted_bipred: bool,
    pub transquant_bypass: bool,
    pub entropy_coding_sync: bool,
    /// Columns and rows less one, uniform spacing, filtering across tiles.
    pub tiles: Option<(nat, nat, bool, bool)>,
    pub loop_filter_across_slices: bool,
    /// Override enabled, and the offsets unless the filter is off.
    pub deblocking: Option<(bool, Option<(int, int)>)>,
    pub scaling_data: bool,
    pub lists_modification_present: bool,
    pub log2_parallel_merge_level_minus2: nat,
    pub slice_header_extension: bool,
}

pub open spec fn pps_head(w: WrittenPps) -> Seq<Field> {
    seq![
        Field::Ue(w.pps_id),
        Field::Ue(w.sps_id),
        Field::Flag(w.dependent_slice_segments),
        Field::Flag(w.output_flag_present),
        Field::Bits(w.num_extra_slice_header_bits, 3),
        Field::Flag(w.sign_data_hiding),
        Field::Flag(w.cabac_init_present),
        Field::Ue(w.l0_default_minus1),
        Field::Ue(w.l1_default_minus1),
        Field::Se(w.init_qp_minus26),
        Field::Flag(w.constrained_intra),
        Field::Flag(w.transform_skip),
    ]
}

pub open spec fn depth_fields(w: WrittenPps) -> Seq<Field> {
    match w.diff_cu_qp_delta_depth {
        Some(d) => seq![Field::Flag(true), Field::Ue(d)],
        None => seq![Field::Flag(false)],
    }
}

pub open spec fn pps_middle(w: WrittenPps) -> Seq<Field> {
    seq![
        Field::Se(w.cb_qp_offset),
        Field::Se(w.cr_qp_offset),
        Field::Flag(w.slice_chroma_qp_offsets_present),
        Field::Flag(w.weighted_pred),
        Field::Flag(w.weighted_bipred),
        Field::Flag(w.transquant_bypass),
        Field::Flag(w.tiles is Some),
        Field::Flag(w.entropy_coding_sync),
    ]
}

pub open spec fn tile_fields(w: WrittenPps) -> Seq<Field> {
    match w.tiles {
        Some((cols, rows, uniform, across)) => seq![
            Field::Ue(cols),
            Field::Ue(rows),
            Field::Flag(uniform),
            Field::Flag(across),
        ],
        None => Seq::empty(),
    }
}

pub open spec fn deblocking_fields(w: WrittenPps) -> Seq<Field> {
    match w.deblocking {
        Some((over, Some((beta, tc)))) => seq![
            Field::Flag(over),
            Field::Flag(false),
            Field::Se(beta),
            Field::Se(tc),
        ],
        Some((over, None)) => seq![Field::Flag(over), Field::Flag(true)],
        None => Seq::empty(),
    }
}

pub open spec fn pps_filters(w: WrittenPps) -> Seq<Field> {
    seq![Field::Flag(w.loop_filter_across_slices), Field::Flag(w.deblocking is Some)]
}

pub open spec fn pps_end(w: WrittenPps) -> Seq<Field> {
    seq![
        Field::Flag(w.scaling_data),
        Field::Flag(w.lists_modification_present),
        Field::Ue(w.log2_parallel_merge_level_minus2),
        Field::Flag(w.slice_header_extension),
    ]
}

/// The fields of a picture parameter set, in order.
pub open spec fn pps_fields(w: WrittenPps) -> Seq<Field> {
    pps_head(w) + (depth_fields(w) + (pps_middle(w) + (tile_fields(w) + (pps_filters(w) + (
    deblocking_fields(w) + pps_end(w))))))
}

/// What a picture parameter set that was read owes to the written one.
pub open spec fn pps_agrees(p: H265Pps, w: WrittenPps) -> bool {
    &&& p.pps_id == w.pps_id % 256
    &&& p.sps_id == w.sps_id % 256
    &&& p.dependent_slice_segments == w.dependent_slice_segments
    &&& p.output_flag_present == w.output_flag_present
    &&& p.num_extra_slice_header_bits == w.num_extra_slice_header_bits
    &&& p.sign_data_hiding == w.sign_data_hiding
    &&& p.cabac_init_present == w.cabac_init_present
    &&& p.num_ref_idx_l0_default == w.l0_default_minus1 + 1
    &&& p.num_ref_idx_l1_default == w.l1_default_minus1 + 1
    &&& p.init_qp_minus26 == w.init_qp_minus26
    &&& p.constrained_intra == w.constrained_intra
    &&& p.transform_skip == w.transform_skip
    &&& p.cu_qp_delta_enabled == (w.diff_cu_qp_delta_depth is Some)
    &&& p.diff_cu_qp_delta_depth == match w.diff_cu_qp_delta_depth {
        Some(d) => d,
        None => 0,
    }
    &&& p.cb_qp_offset == w.cb_qp_offset
    &&& p.cr_qp_offset == w.cr_qp_offset
    &&& p.slice_chroma_qp_offsets_present == w.slice_chroma_qp_offsets_present
    &&& p.weighted_pred == w.weighted_pred
    &&& p.weighted_bipred == w.weighted_bipred
    &&& p.transquant_bypass == w.transquant_bypass
    &&& p.tiles_enabled == (w.tiles is Some)
    &&& p.entropy_coding_sync == w.entropy_coding_sync
    &&& p.loop_filter_across_tiles == match w.tiles {
        Some((_, _, _, across)) => across,
        None => true,
    }
    &&& p.loop_filter_across_slices == w.loop_filter_across_slices
    &&& p.deblocking_control_present == (w.deblocking is Some)
    &&& match w.deblocking {
        Some((over, Some((beta, tc)))) => p.deblocking_override_enabled == over
            && !p.deblocking_disabled && p.beta_offset_div2 == beta && p.tc_offset_div2 == tc,
        Some((over, None)) => p.deblocking_override_enabled == over && p.deblocking_disabled
            && p.beta_offset_div2 == 0 && p.tc_offset_div2 == 0,
        None => !p.deblocking_override_enabled && !p.deblocking_disabled && p.beta_offset_div2 == 0
            && p.tc_offset_div2 == 0,
    }
    &&& p.lists_modification_present == w.lists_modification_present
    &&& p.log2_parallel_merge_level_minus2 == w.log2_parallel_merge_level_minus2
    &&& p.slice_header_extension == w.slice_header_extension
}

/// A set that can be decoded: one uniform tile at most, no scaling lists.
pub open spec fn pps_supported(w: WrittenPps) -> bool {
    &&& w.tiles matches Some((cols, rows, uniform, _)) ==> cols == 0 && rows == 0 && uniform
    &&& !w.scaling_data
}

/// Reading undoes writing: a picture parameter set whose fields stand in the
/// order of the standard gives back every field, the numbers of the two sets
/// by their low eight bits.
pub proof fn reading_a_pps_undoes_writing(
    w: WrittenPps,
    head: Seq<u8>,
    payload: Seq<u8>,
    behind: Seq<u8>,
    nal: Seq<u8>,
)
    requires
        head.len() == 2,
        begins_with(payload, pps_fields(w)),
        nal == head + (escaped(payload) + behind),
    ensures
        pps_supported(w) ==> pps_syntax(rbsp_of(nal.skip(2))).1.err is None && pps_agrees(
            pps_syntax(rbsp_of(nal.skip(2))).0,
            w,
        ),
        !pps_supported(w) ==> pps_syntax(rbsp_of(nal.skip(2))).1.err matches Some(
            ErrorView::Unsupported(_),
        ),
{
    crate::coding::lemma_nal_begins(head, payload, behind, nal, pps_fields(w));
    lemma_pps(w, rbsp_of(nal.skip(2)));
}

#[verifier::rlimit(40)]
proof fn lemma_pps(w: WrittenPps, rbsp: Seq<u8>)
    requires
        begins_with(rbsp, pps_fields(w)),
    ensures
        pps_supported(w) ==> pps_syntax(rbsp).1.err is None && pps_agrees(pps_syntax(rbsp).0, w),
        !pps_supported(w) ==> pps_syntax(rbsp).1.err matches Some(ErrorView::Unsupported(_)),
{
    let fs = pps_fields(w);
    let h = pps_head(w);
    let r5 = deblocking_fields(w) + pps_end(w);
    let r4 = pps_filters(w) + r5;
    let r3 = tile_fields(w) + r4;
    let r2 = pps_middle(w) + r3;
    let r1 = depth_fields(w) + r2;
    crate::coding::lemma_part_whole(fs);
    crate::coding::lemma_part_split(fs, 0, h, r1);
    crate::coding::lemma_part_split(fs, 12, depth_fields(w), r2);
    let k2 = 12 + depth_fields(w).len() as int;
    crate::coding::lemma_part_split(fs, k2, pps_middle(w), r3);
    let k3 = k2 + 8;
    crate::coding::lemma_part_split(fs, k3, tile_fields(w), r4);
    let c0 = Cursor::start(rbsp);
    let c1 = lemma_pps_head(c0, fs, w);
    let p1 = pps_head_syntax(c0).0;
    let c2 = lemma_pps_quant(c1, fs, w, p1);
    let p2 = pps_quant_syntax(c1, p1).0;
    if pps_supported(w) {
        lemma_pps_filter(c2, fs, k3, w, p2);
    } else {
        lemma_pps_filter_refused(c2, fs, k3, w, p2);
    }
}

proof fn lemma_pps_head(c: Cursor, fs: Seq<Field>, w: WrittenPps) -> (next: Cursor)
    requires
        at(c, fs, 0),
        part_at(fs, 0, pps_head(w)),
    ensures
        at(next, fs, 12),
        pps_head_syntax(c).1 == next,
        ({
            let p = pps_head_syntax(c).0;
            &&& p.pps_id == w.pps_id % 256
            &&& p.sps_id == w.sps_id % 256
            &&& p.dependent_slice_segments == w.dependent_slice_segments
            &&& p.output_flag_present == w.output_flag_present
            &&& p.num_extra_slice_header_bits == w.num_extra_slice_header_bits
            &&& p.sign_data_hiding == w.sign_data_hiding
            &&& p.cabac_init_present == w.cabac_init_present
            &&& p.num_ref_idx_l0_default == w.l0_default_minus1 + 1
            &&& p.num_ref_idx_l1_default == w.l1_default_minus1 + 1
            &&& p.init_qp_minus26 == w.init_qp_minus26
            &&& p.constrained_intra == w.constrained_intra
            &&& p.transform_skip == w.transform_skip
        }),
{
    reveal(pps_head_syntax);
    let h = pps_head(w);
    lemma_small(c, fs, 0, h, 4);
    lemma_small(c, fs, 0, h, 7);
    lemma_small(c, fs, 0, h, 8);
    lemma_small(c, fs, 0, h, 9);
    let c1 = step_part(c, fs, 0, h, 0);
    let c2 = step_part(c1, fs, 0, h, 1);
    let c3 = step_part(c2, fs, 0, h, 2);
    let c4 = step_part(c3, fs, 0, h, 3);
    let c5 = step_part(c4, fs, 0, h, 4);
    let c6 = step_part(c5, fs, 0, h, 5);
    let c7 = step_part(c6, fs, 0, h, 6);
    let c8 = step_part(c7, fs, 0, h, 7);
    let c9 = step_part(c8, fs, 0, h, 8);
    let d1 = step_part(c9, fs, 0, h, 9);
    let d2 = step_part(d1, fs, 0, h, 10);
    step_part(d2, fs, 0, h, 11)
}

proof fn lemma_pps_quant(c: Cursor, fs: Seq<Field>, w: WrittenPps, p: H265Pps) -> (next: Cursor)
    requires
        at(c, fs, 12),
        part_at(fs, 12, depth_fields(w)),
        part_at(fs, 12 + depth_fields(w).len() as int, pps_middle(w)),
    ensures
        at(next, fs, 20 + depth_fields(w).len() as int),
        pps_quant_syntax(c, p).1 == next,
        pps_quant_syntax(c, p).0 == (H265Pps {
            cu_qp_delta_enabled: w.diff_cu_qp_delta_depth is Some,
            diff_cu_qp_delta_depth: match w.diff_cu_qp_delta_depth {
                Some(d) => d as u32,
                None => 0,
            },
            cb_qp_offset: w.cb_qp_offset as i32,
            cr_qp_offset: w.cr_qp_offset as i32,
            slice_chroma_qp_offsets_present: w.slice_chroma_qp_offsets_present,
            weighted_pred: w.weighted_pred,
            weighted_bipred: w.weighted_bipred,
            transquant_bypass: w.transquant_bypass,
            tiles_enabled: w.tiles is Some,
            entropy_coding_sync: w.entropy_coding_sync,
            ..p
        }),
        -0x7fff_ffff <= w.cb_qp_offset <= 0x7fff_ffff,
        -0x7fff_ffff <= w.cr_qp_offset <= 0x7fff_ffff,
        w.diff_cu_qp_delta_depth matches Some(d) ==> d < 0xffff_ffff,
{
    reveal(pps_quant_syntax);
    let a = depth_fields(w);
    let m = pps_middle(w);
    let k = 12 + a.len() as int;
    let c1 = step_part(c, fs, 12, a, 0);
    let c2 = match w.diff_cu_qp_delta_depth {
        Some(d) => {
            lemma_small(c, fs, 12, a, 1);
            step_part(c1, fs, 12, a, 1)
        },
        None => c1,
    };
    lemma_small(c2, fs, k, m, 0);
    lemma_small(c2, fs, k, m, 1);
    let c3 = step_part(c2, fs, k, m, 0);
    let c4 = step_part(c3, fs, k, m, 1);
    let c5 = step_part(c4, fs, k, m, 2);
    let c6 = step_part(c5, fs, k, m, 3);
    let c7 = step_part(c6, fs, k, m, 4);
    let c8 = step_part(c7, fs, k, m, 5);
    let c9 = step_part(c8, fs, k, m, 6);
    step_part(c9, fs, k, m, 7)
}

proof fn lemma_tiles(c: Cursor, fs: Seq<Field>, k: int, w: WrittenPps) -> (next: Cursor)
    requires
        at(c, fs, k),
        part_at(fs, k, tile_fields(w)),
        w.tiles matches Some((cols, rows, uniform, _)) ==> cols == 0 && rows == 0 && uniform,
    ensures
        at(next, fs, k + tile_fields(w).len()),
        tiles_syntax(c, w.tiles is Some).1 == next,
        tiles_syntax(c, w.tiles is Some).0 == match w.tiles {
            Some((_, _, _, across)) => across,
            None => true,
        },
{
    reveal(tiles_syntax);
    let t = tile_fields(w);
    match w.tiles {
        Some(_) => {
            let c1 = step_part(c, fs, k, t, 0);
            let c2 = step_part(c1, fs, k, t, 1);
            let c3 = step_part(c2, fs, k, t, 2);
            step_part(c3, fs, k, t, 3)
        },
        None => c,
    }
}

proof fn lemma_deblocking(c: Cursor, fs: Seq<Field>, k: int, w: WrittenPps) -> (next: Cursor)
    requires
        at(c, fs, k),
        part_at(fs, k, deblocking_fields(w)),
    ensures
        at(next, fs, k + deblocking_fields(w).len()),
        deblocking_syntax(c, w.deblocking is Some).1 == next,
        deblocking_syntax(c, w.deblocking is Some).0 == match w.deblocking {
            Some((over, Some((beta, tc)))) => (over, false, beta, tc),
            Some((over, None)) => (over, true, 0, 0),
            None => (false, false, 0, 0),
        },
        w.deblocking matches Some((_, Some((beta, tc)))) ==> -0x7fff_ffff <= beta <= 0x7fff_ffff
            && -0x7fff_ffff <= tc <= 0x7fff_ffff,
{
    reveal(deblocking_syntax);
    let t = deblocking_fields(w);
    match w.deblocking {
        Some((over, offsets)) => {
            let c1 = step_part(c, fs, k, t, 0);
            let c2 = step_part(c1, fs, k, t, 1);
            match offsets {
                Some(_) => {
                    lemma_small(c, fs, k, t, 2);
                    lemma_small(c, fs, k, t, 3);
                    let c3 = step_part(c2, fs, k, t, 2);
                    step_part(c3, fs, k, t, 3)
                },
                None => c2,
            }
        },
        None => c,
    }
}

proof fn lemma_pps_filter_refused(c: Cursor, fs: Seq<Field>, k: int, w: WrittenPps, p: H265Pps)
    requires
        at(c, fs, k),
        part_at(
            fs,
            k,
            tile_fields(w) + (pps_filters(w) + (deblocking_fields(w) + pps_end(w))),
        ),
        p.tiles_enabled == (w.tiles is Some),
        !pps_supported(w),
    ensures
        pps_filter_syntax(c, p).1.err matches Some(ErrorView::Unsupported(_)),
{
    broadcast use crate::bitstream::group_sticky;

    reveal(pps_filter_syntax);
    let t = tile_fields(w);
    let f = pps_filters(w);
    let b = deblocking_fields(w);
    let e = pps_end(w);
    crate::coding::lemma_part_split(fs, k, t, f + (b + e));
    let k1 = k + t.len();
    crate::coding::lemma_part_split(fs, k1, f, b + e);
    crate::coding::lemma_part_split(fs, k1 + 2, b, e);
    let k3 = k1 + 2 + b.len();
    if w.tiles matches Some((cols, rows, uniform, _)) && !(cols == 0 && rows == 0 && uniform) {
        reveal(tiles_syntax);
        let c1 = step_part(c, fs, k, t, 0);
        let c2 = step_part(c1, fs, k, t, 1);
        if w.tiles->Some_0.0 == 0 && w.tiles->Some_0.1 == 0 {
            let c3 = step_part(c2, fs, k, t, 2);
        }
        assert forall|d: Cursor, x: bool| d.err is Some implies (#[trigger] deblocking_syntax(
            d,
            x,
        )).1 == d by {
            reveal(deblocking_syntax);
        }
        assert(tiles_syntax(c, p.tiles_enabled).1.err matches Some(ErrorView::Unsupported(_)));
    } else {
        let c1 = lemma_tiles(c, fs, k, w);
        let c2 = step_part(c1, fs, k1, f, 0);
        let c3 = step_part(c2, fs, k1, f, 1);
        let c4 = lemma_deblocking(c3, fs, k1 + 2, w);
        let c5 = step_part(c4, fs, k3, e, 0);
    }
}

/// The filter part of a set.
spec fn with_filters(p: H265Pps, w: WrittenPps) -> H265Pps {
    H265Pps {
        loop_filter_across_tiles: match w.tiles {
            Some((_, _, _, across)) => across,
            None => true,
        },
        loop_filter_across_slices: w.loop_filter_across_slices,
        deblocking_control_present: w.deblocking is Some,
        deblocking_override_enabled: match w.deblocking {
            Some((over, _)) => over,
            None => false,
        },
        deblocking_disabled: match w.deblocking {
            Some((_, None)) => true,
            _ => false,
        },
        beta_offset_div2: match w.deblocking {
            Some((_, Some((beta, _)))) => beta as i32,
            _ => 0,
        },
        tc_offset_div2: match w.deblocking {
            Some((_, Some((_, tc)))) => tc as i32,
            _ => 0,
        },
        lists_modification_present: w.lists_modification_present,
        log2_parallel_merge_level_minus2: w.log2_parallel_merge_level_minus2 as u32,
        slice_header_extension: w.slice_header_extension,
        ..p
    }
}

#[verifier::rlimit(40)]
proof fn lemma_pps_filter(c: Cursor, fs: Seq<Field>, k: int, w: WrittenPps, p: H265Pps)
    requires
        at(c, fs, k),
        part_at(
            fs,
            k,
            tile_fields(w) + (pps_filters(w) + (deblocking_fields(w) + pps_end(w))),
        ),
        p.tiles_enabled == (w.tiles is Some),
        pps_supported(w),
    ensures
        pps_filter_syntax(c, p).1.err is None,
        pps_filter_syntax(c, p).0 == with_filters(p, w),
        w.log2_parallel_merge_level_minus2 < 0xffff_ffff,
        w.deblocking matches Some((_, Some((beta, tc)))) ==> -0x7fff_ffff <= beta <= 0x7fff_ffff
            && -0x7fff_ffff <= tc <= 0x7fff_ffff,
{
    reveal(pps_filter_syntax);
    let t = tile_fields(w);
    let f = pps_filters(w);
    let b = deblocking_fields(w);
    let e = pps_end(w);
    crate::coding::lemma_part_split(fs, k, t, f + (b + e));
    let k1 = k + t.len();
    crate::coding::lemma_part_split(fs, k1, f, b + e);
    crate::coding::lemma_part_split(fs, k1 + 2, b, e);
    let k3 = k1 + 2 + b.len();
    let c1 = lemma_tiles(c, fs, k, w);
    let c2 = step_part(c1, fs, k1, f, 0);
    let c3 = step_part(c2, fs, k1, f, 1);
    let c4 = lemma_deblocking(c3, fs, k1 + 2, w);
    let c5 = step_part(c4, fs, k3, e, 0);
    lemma_small(c4, fs, k3, e, 2);
    let c6 = step_part(c5, fs, k3, e, 1);
    let c7 = step_part(c6, fs, k3, e, 2);
    let c8 = step_part(c7, fs, k3, e, 3);
}

} // verus!
