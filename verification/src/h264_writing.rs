//! H.264 parameter sets and slice headers as an encoder writes them, field by
//! field, and the laws that reading gives back what was written.
use crate::bitstream::{escaped, rbsp_of, Cursor, ErrorView};
use crate::coding::{
    at, begins_with, codable, lemma_optional, or_none, part_at, step_part, Field,
};
use crate::h264::{
    crop_syntax, high_profile_syntax, p_slice_syntax, poc_syntax, pps_syntax, pps_tail_syntax,
    ref_list_modification, ref_marking_syntax, scaling_list, scaling_matrix, slice_header_bytes,
    slice_header_syntax, sps_syntax, Pps, PpsView, ScalingListState, ScalingListsView, SliceHeader,
    SliceType, Sps, SpsView,
};
use vstd::prelude::*;

verus! {

/// One scaling list as it is coded: left out, left to the default matrix, or
/// the values up to where the last one repeats.
pub enum ListCode {
    Absent,
    Fallback,
    Values(Seq<u8>),
}

/// A difference of two values in the range of a byte's differences.
pub open spec fn wrapped(d: int) -> int {
    if d > 127 {
        d - 256
    } else if d < -128 {
        d + 256
    } else {
        d
    }
}

/// The differences of the values, from 8 on.
pub open spec fn deltas(vs: Seq<u8>) -> Seq<Field> {
    Seq::new(
        vs.len(),
        |j: int|
            Field::Se(
                wrapped(
                    vs[j] - if j == 0 {
                        8
                    } else {
                        vs[j - 1] as int
                    },
                ),
            ),
    )
}

/// The codes of a list of `n` entries, behind its flag. A value of zero,
/// which no list holds, ends the differences.
pub open spec fn list_body(l: ListCode, n: nat) -> Seq<Field> {
    match l {
        ListCode::Absent => Seq::empty(),
        ListCode::Fallback => seq![Field::Se(-8)],
        ListCode::Values(vs) => deltas(vs) + if vs.len() < n {
            seq![Field::Se(wrapped(0 - vs.last()))]
        } else {
            Seq::empty()
        },
    }
}

pub open spec fn list_fields(l: ListCode, n: nat) -> Seq<Field> {
    seq![Field::Flag(!(l is Absent))] + list_body(l, n)
}

/// Number of entries of list `i`: six lists of 4x4, then lists of 8x8.
pub open spec fn list_size(i: int) -> nat {
    if i < 6 {
        4 * 4
    } else {
        8 * 8
    }
}

/// The first `count` lists of a matrix.
pub open spec fn matrix_fields(lists: Seq<ListCode>, count: nat) -> Seq<Field>
    decreases count,
{
    if count == 0 {
        Seq::empty()
    } else {
        matrix_fields(lists, (count - 1) as nat) + list_fields(lists[count - 1], list_size(count - 1))
    }
}

/// A list whose values can be coded.
pub open spec fn list_complete(l: ListCode, n: nat) -> bool {
    l matches ListCode::Values(vs) ==> 1 <= vs.len() <= n && forall|j: int|
        0 <= j < vs.len() ==> #[trigger] vs[j] >= 1
}

pub open spec fn lists_complete(lists: Seq<ListCode>, count: nat) -> bool {
    &&& lists.len() >= count
    &&& forall|i: int| 0 <= i < count ==> list_complete(#[trigger] lists[i], list_size(i))
}

/// The entries of a list: the last coded value repeats, and a list that is
/// left to the default holds eights.
pub open spec fn list_values(l: ListCode, n: nat) -> Seq<u8> {
    Seq::new(
        n,
        |j: int|
            match l {
                ListCode::Absent => 16,
                ListCode::Fallback => 8,
                ListCode::Values(vs) => if j < vs.len() {
                    vs[j]
                } else {
                    vs.last()
                },
            },
    )
}

/// Bit `i` of a mask.
pub open spec fn in_mask(mask: u16, i: u16) -> bool {
    (mask >> i) & 1 == 1
}

/// What a matrix that was read owes to the first `count` lists it was written
/// from; lists that were not coded are flat.
pub open spec fn matrix_agrees(m: ScalingListsView, lists: Seq<ListCode>, count: nat) -> bool {
    &&& m.list_4x4.len() == 6
    &&& m.list_8x8.len() == 6
    &&& forall|i: u16| i < 16 ==> #[trigger] in_mask(m.present_mask, i) == (i < count && !(
    lists[i as int] is Absent))
    &&& forall|i: u16| i < 16 ==> #[trigger] in_mask(m.use_default_mask, i) == (i < count
        && lists[i as int] is Fallback)
    &&& forall|i: int|
        0 <= i < 6 ==> #[trigger] m.list_4x4[i] == if i < count {
            list_values(lists[i], 16)
        } else {
            Seq::new(16, |j: int| 16u8)
        }
    &&& forall|i: int|
        0 <= i < 6 ==> #[trigger] m.list_8x8[i] == if i + 6 < count {
            list_values(lists[i + 6], 64)
        } else {
            Seq::new(64, |j: int| 16u8)
        }
}

proof fn lemma_list_step(last: int, v: int)
    requires
        0 <= last <= 255,
        0 <= v <= 255,
    ensures
        (last + wrapped(v - last)) % 256 == v,
{
}

/// The coded values of a list, one by one.
proof fn lemma_list_coded(
    c: Cursor,
    fs: Seq<Field>,
    k: int,
    vs: Seq<u8>,
    m: nat,
) -> (next: Cursor)
    requires
        at(c, fs, k),
        part_at(fs, k, deltas(vs)),
        m <= vs.len(),
        forall|j: int| 0 <= j < vs.len() ==> #[trigger] vs[j] >= 1,
    ensures
        at(next, fs, k + m),
        ({
            let last = if m == 0 {
                8
            } else {
                vs[m - 1] as int
            };
            scaling_list(c, m) == (ScalingListState {
                last,
                next: last,
                values: vs.take(m as int),
                use_default: false,
                cursor: next,
            })
        }),
    decreases m,
{
    if m == 0 {
        assert(vs.take(0) =~= Seq::empty());
        c
    } else {
        let before = lemma_list_coded(c, fs, k, vs, (m - 1) as nat);
        let next = step_part(before, fs, k, deltas(vs), m - 1);
        let last = if m == 1 {
            8
        } else {
            vs[m - 2] as int
        };
        assert(vs[m - 1] >= 1);
        lemma_list_step(last, vs[m - 1] as int);
        assert(vs.take(m as int) =~= vs.take(m - 1).push(vs[m - 1]));
        next
    }
}

/// Entries behind the last coded one repeat it.
proof fn lemma_list_repeats(c: Cursor, m: nat, n: nat)
    requires
        m <= n,
        scaling_list(c, m).next == 0,
        m >= 1,
        0 <= scaling_list(c, m).last <= 255,
        scaling_list(c, m).values.len() == m,
    ensures
        ({
            let s = scaling_list(c, m);
            scaling_list(c, n) == (ScalingListState {
                values: Seq::new(
                    n,
                    |j: int|
                        if j < m {
                            s.values[j]
                        } else {
                            s.last as u8
                        },
                ),
                ..s
            })
        }),
    decreases n,
{
    let s = scaling_list(c, m);
    let all = Seq::new(
        n,
        |j: int|
            if j < m {
                s.values[j]
            } else {
                s.last as u8
            },
    );
    if m == n {
        assert(all =~= s.values);
    } else {
        lemma_list_repeats(c, m, (n - 1) as nat);
        let t = scaling_list(c, (n - 1) as nat);
        assert(t.values.push(s.last as u8) =~= all);
    }
}

proof fn lemma_list(c: Cursor, fs: Seq<Field>, k: int, l: ListCode, n: nat) -> (next: Cursor)
    requires
        at(c, fs, k),
        part_at(fs, k, list_body(l, n)),
        !(l is Absent),
        list_complete(l, n),
        n >= 1,
    ensures
        at(next, fs, k + list_body(l, n).len()),
        scaling_list(c, n).cursor == next,
        scaling_list(c, n).values == list_values(l, n),
        scaling_list(c, n).use_default == (l is Fallback),
{
    match l {
        ListCode::Absent => c,
        ListCode::Fallback => {
            let next = step_part(c, fs, k, list_body(l, n), 0);
            assert(scaling_list(c, 0).next == 8);
            let one = scaling_list(c, 1);
            assert(one.next == 0 && one.last == 8 && one.values == seq![8u8]);
            lemma_list_repeats(c, 1, n);
            assert(scaling_list(c, n).values =~= list_values(l, n));
            next
        },
        ListCode::Values(vs) => {
            let tail = if vs.len() < n {
                seq![Field::Se(wrapped(0 - vs.last()))]
            } else {
                Seq::empty()
            };
            crate::coding::lemma_part_split(fs, k, deltas(vs), tail);
            let m = vs.len();
            let mid = lemma_list_coded(c, fs, k, vs, m);
            assert(vs.take(m as int) =~= vs);
            if m < n {
                let next = step_part(mid, fs, k + m, tail, 0);
                lemma_list_step(vs.last() as int, 0);
                let s = scaling_list(c, m + 1);
                assert(s.next == 0 && s.last == vs.last());
                assert(s.values =~= vs.push(vs.last()));
                lemma_list_repeats(c, m + 1, n);
                assert(scaling_list(c, n).values =~= list_values(l, n));
                next
            } else {
                assert(scaling_list(c, n).values =~= list_values(l, n));
                mid
            }
        },
    }
}

proof fn lemma_mask(mask: u16, i: u16)
    requires
        i < 16,
    ensures
        forall|j: u16| j < 16 ==> #[trigger] in_mask(mask | (1u16 << i), j) == (j == i || in_mask(
            mask,
            j,
        )),
{
    assert(forall|j: u16| j < 16 ==> (#[trigger] ((mask | (1u16 << i)) >> j) & 1 == 1) == (j == i
        || (mask >> j) & 1 == 1)) by (bit_vector)
        requires
            i < 16,
    ;
    assert forall|j: u16| j < 16 implies #[trigger] in_mask(mask | (1u16 << i), j) == (j == i
        || in_mask(mask, j)) by {
        assert((((mask | (1u16 << i)) >> j) & 1 == 1) == (j == i || (mask >> j) & 1 == 1));
    }
}

proof fn lemma_no_mask()
    ensures
        forall|j: u16| j < 16 ==> !(#[trigger] in_mask(0, j)),
{
    assert(forall|j: u16| j < 16 ==> #[trigger] (0u16 >> j) & 1 == 0) by (bit_vector);
    assert forall|j: u16| j < 16 implies !(#[trigger] in_mask(0, j)) by {
        assert((0u16 >> j) & 1 == 0);
    }
}

/// Reading undoes writing for a scaling matrix: each list has the values that
/// were coded for it, and the masks tell which lists were coded and which are
/// left to the default.
pub proof fn reading_a_matrix_undoes_writing(
    c: Cursor,
    fs: Seq<Field>,
    k: int,
    lists: Seq<ListCode>,
    count: nat,
) -> (next: Cursor)
    requires
        at(c, fs, k),
        part_at(fs, k, matrix_fields(lists, count)),
        lists_complete(lists, count),
        count <= 8,
    ensures
        at(next, fs, k + matrix_fields(lists, count).len()),
        scaling_matrix(c, count).1 == next,
        matrix_agrees(scaling_matrix(c, count).0, lists, count),
    decreases count,
{
    if count == 0 {
        lemma_no_mask();
        c
    } else {
        let i = count - 1;
        let front = matrix_fields(lists, i as nat);
        let fields = list_fields(lists[i], list_size(i));
        crate::coding::lemma_part_split(fs, k, front, fields);
        let c1 = reading_a_matrix_undoes_writing(c, fs, k, lists, i as nat);
        let m = scaling_matrix(c, i as nat).0;
        let k1 = k + front.len();
        let body = list_body(lists[i], list_size(i));
        let c2 = step_part(c1, fs, k1, fields, 0);
        crate::coding::lemma_part_split(
            fs,
            k1,
            seq![Field::Flag(!(lists[i] is Absent))],
            body,
        );
        if lists[i] is Absent {
            assert(list_values(lists[i], 16) =~= Seq::new(16, |j: int| 16u8));
            assert(list_values(lists[i], 64) =~= Seq::new(64, |j: int| 16u8));
            c2
        } else {
            assert(list_complete(lists[i], list_size(i)));
            let c3 = lemma_list(c2, fs, k1 + 1, lists[i], list_size(i));
            lemma_mask(m.present_mask, i as u16);
            lemma_mask(m.use_default_mask, i as u16);
            c3
        }
    }
}

/// A sequence parameter set as it is written, up to the usability
/// information.
pub struct WrittenSps {
    pub profile_idc: nat,
    pub constraint_flags: nat,
    pub level_idc: nat,
    pub sps_id: nat,
    pub chroma_format_idc: nat,
    pub bit_depth_luma_minus8: nat,
    pub bit_depth_chroma_minus8: nat,
    pub lossless: bool,
    pub scaling: Option<Seq<ListCode>>,
    pub log2_max_frame_num_minus4: nat,
    pub poc_type: nat,
    pub log2_max_poc_lsb_minus4: nat,
    pub max_num_ref_frames: nat,
    pub gaps_allowed: bool,
    pub mb_width_minus1: nat,
    pub mb_height_minus1: nat,
    pub frame_mbs_only: bool,
    pub direct_8x8: bool,
    /// Left, right, top, bottom.
    pub cropping: Option<(nat, nat, nat, nat)>,
}

/// The profiles whose sets hold the chroma format, the bit depths, the
/// lossless flag and the scaling matrix.
pub open spec fn holds_format(profile_idc: nat) -> bool {
    seq![100nat, 110, 122, 244, 44, 83, 86, 118, 128].contains(profile_idc)
}

/// The fields that only some profiles hold.
pub open spec fn format_fields(w: WrittenSps) -> Seq<Field> {
    seq![
        Field::Ue(w.chroma_format_idc),
        Field::Ue(w.bit_depth_luma_minus8),
        Field::Ue(w.bit_depth_chroma_minus8),
        Field::Flag(w.lossless),
        Field::Flag(w.scaling is Some),
    ] + match w.scaling {
        Some(lists) => matrix_fields(lists, 8),
        None => Seq::empty(),
    }
}

pub open spec fn count_fields(w: WrittenSps) -> Seq<Field> {
    seq![Field::Ue(w.poc_type)] + if w.poc_type == 0 {
        seq![Field::Ue(w.log2_max_poc_lsb_minus4)]
    } else {
        Seq::empty()
    }
}

pub open spec fn cropping_fields(w: WrittenSps) -> Seq<Field> {
    match w.cropping {
        Some((l, r, t, b)) => seq![Field::Ue(l), Field::Ue(r), Field::Ue(t), Field::Ue(b)],
        None => Seq::empty(),
    }
}

pub open spec fn sps_head(w: WrittenSps) -> Seq<Field> {
    seq![
        Field::Bits(w.profile_idc, 8),
        Field::Bits(w.constraint_flags, 8),
        Field::Bits(w.level_idc, 8),
        Field::Ue(w.sps_id),
    ]
}

pub open spec fn sps_size_fields(w: WrittenSps) -> Seq<Field> {
    seq![
        Field::Ue(w.max_num_ref_frames),
        Field::Flag(w.gaps_allowed),
        Field::Ue(w.mb_width_minus1),
        Field::Ue(w.mb_height_minus1),
        Field::Flag(w.frame_mbs_only),
        Field::Flag(w.direct_8x8),
        Field::Flag(w.cropping is Some),
    ]
}

/// The fields of a sequence parameter set, in order.
pub open spec fn sps_fields(w: WrittenSps) -> Seq<Field> {
    sps_head(w) + ((if holds_format(w.profile_idc) {
        format_fields(w)
    } else {
        Seq::empty()
    }) + (seq![Field::Ue(w.log2_max_frame_num_minus4)] + (count_fields(w) + (sps_size_fields(w)
        + cropping_fields(w)))))
}

/// The sets that can be decoded: 4:2:0 at 8 bits, counts of type 0 or 2, and
/// frames only.
pub open spec fn supported(w: WrittenSps) -> bool {
    &&& holds_format(w.profile_idc) ==> w.chroma_format_idc == 1 && w.bit_depth_luma_minus8 == 0
        && w.bit_depth_chroma_minus8 == 0
    &&& w.poc_type == 0 || w.poc_type == 2
    &&& w.frame_mbs_only
}

/// Sizes that can be counted: the cropping leaves a picture, and nothing
/// passes 32 bits.
pub open spec fn sized(w: WrittenSps) -> bool {
    let (l, r, t, b) = match w.cropping {
        Some(c) => c,
        None => (0, 0, 0, 0),
    };
    &&& w.log2_max_frame_num_minus4 + 4 <= u32::MAX
    &&& w.log2_max_poc_lsb_minus4 + 4 <= u32::MAX
    &&& 16 * (w.mb_width_minus1 + 1) <= u32::MAX
    &&& 16 * (w.mb_height_minus1 + 1) <= u32::MAX
    &&& 2 * (l + r) <= 16 * (w.mb_width_minus1 + 1)
    &&& 2 * (t + b) <= 16 * (w.mb_height_minus1 + 1)
}

/// A set whose numbers can be written.
pub open spec fn sps_complete(w: WrittenSps) -> bool {
    &&& forall|i: int| 0 <= i < sps_fields(w).len() ==> codable(#[trigger] sps_fields(w)[i])
    &&& w.scaling matches Some(lists) ==> lists_complete(lists, 8)
}

proof fn lemma_format(c: Cursor, fs: Seq<Field>, k: int, w: WrittenSps) -> (next: Cursor)
    requires
        at(c, fs, k),
        part_at(fs, k, format_fields(w)),
        w.scaling matches Some(lists) ==> lists_complete(lists, 8),
        w.chroma_format_idc == 1,
        w.bit_depth_luma_minus8 == 0,
        w.bit_depth_chroma_minus8 == 0,
    ensures
        at(next, fs, k + format_fields(w).len()),
        high_profile_syntax(c).1 == next,
        high_profile_syntax(c).0.0 == w.lossless,
        match w.scaling {
            Some(lists) => high_profile_syntax(c).0.1 matches Some(m) && matrix_agrees(m, lists, 8),
            None => high_profile_syntax(c).0.1 is None,
        },
{
    reveal(high_profile_syntax);
    let head = seq![
        Field::Ue(w.chroma_format_idc),
        Field::Ue(w.bit_depth_luma_minus8),
        Field::Ue(w.bit_depth_chroma_minus8),
        Field::Flag(w.lossless),
        Field::Flag(w.scaling is Some),
    ];
    let tail = match w.scaling {
        Some(lists) => matrix_fields(lists, 8),
        None => Seq::empty(),
    };
    crate::coding::lemma_part_split(fs, k, head, tail);
    let c1 = step_part(c, fs, k, head, 0);
    let c2 = step_part(c1, fs, k, head, 1);
    let c3 = step_part(c2, fs, k, head, 2);
    let c4 = step_part(c3, fs, k, head, 3);
    let c5 = step_part(c4, fs, k, head, 4);
    match w.scaling {
        Some(lists) => reading_a_matrix_undoes_writing(c5, fs, k + 5, lists, 8),
        None => c5,
    }
}

proof fn lemma_counts(c: Cursor, fs: Seq<Field>, k: int, w: WrittenSps) -> (next: Cursor)
    requires
        at(c, fs, k),
        part_at(fs, k, count_fields(w)),
        w.poc_type == 0 || w.poc_type == 2,
        w.log2_max_poc_lsb_minus4 + 4 <= u32::MAX,
    ensures
        at(next, fs, k + count_fields(w).len()),
        poc_syntax(c).1 == next,
        poc_syntax(c).0 == (
            w.poc_type,
            if w.poc_type == 0 {
                w.log2_max_poc_lsb_minus4 + 4
            } else {
                0
            },
        ),
{
    reveal(poc_syntax);
    let c1 = step_part(c, fs, k, count_fields(w), 0);
    if w.poc_type == 0 {
        step_part(c1, fs, k, count_fields(w), 1)
    } else {
        c1
    }
}

proof fn lemma_cropping(c: Cursor, fs: Seq<Field>, k: int, w: WrittenSps) -> (next: Cursor)
    requires
        at(c, fs, k),
        part_at(fs, k, cropping_fields(w)),
    ensures
        crop_syntax(c, w.cropping is Some).1 == next,
        next.err is None,
        crop_syntax(c, w.cropping is Some).0 == match w.cropping {
            Some(x) => x,
            None => (0, 0, 0, 0),
        },
{
    reveal(crop_syntax);
    crate::coding::lemma_no_error(c, fs, k);
    match w.cropping {
        Some(x) => {
            let p = cropping_fields(w);
            let c1 = step_part(c, fs, k, p, 0);
            let c2 = step_part(c1, fs, k, p, 1);
            let c3 = step_part(c2, fs, k, p, 2);
            step_part(c3, fs, k, p, 3)
        },
        None => c,
    }
}

/// What a set that was read owes to the one that was written.
pub open spec fn sps_agrees(s: SpsView, w: WrittenSps) -> bool {
    let high = holds_format(w.profile_idc);
    let (l, r, t, b) = match w.cropping {
        Some(x) => x,
        None => (0, 0, 0, 0),
    };
    &&& s.profile_idc == w.profile_idc
    &&& s.constraint_flags == w.constraint_flags
    &&& s.level_idc == w.level_idc
    &&& s.sps_id == w.sps_id
    &&& s.chroma_format_idc == 1
    &&& s.qpprime_y_zero == (high && w.lossless)
    &&& match w.scaling {
        Some(lists) if high => s.scaling matches Some(m) && matrix_agrees(m, lists, 8),
        _ => s.scaling is None,
    }
    &&& s.log2_max_frame_num == w.log2_max_frame_num_minus4 + 4
    &&& s.poc_type == w.poc_type
    &&& w.poc_type == 0 ==> s.log2_max_poc_lsb == w.log2_max_poc_lsb_minus4 + 4
    &&& s.max_num_ref_frames == w.max_num_ref_frames
    &&& s.gaps_allowed == w.gaps_allowed
    &&& s.mb_width == w.mb_width_minus1 + 1
    &&& s.mb_height == w.mb_height_minus1 + 1
    &&& s.direct_8x8 == w.direct_8x8
    &&& s.frame_cropping_flag == (w.cropping is Some)
    &&& s.frame_cropping == (l, r, t, b)
    &&& s.width + 2 * l + 2 * r == 16 * (w.mb_width_minus1 + 1)
    &&& s.height + 2 * t + 2 * b == 16 * (w.mb_height_minus1 + 1)
}

/// Reading undoes writing: a sequence parameter set whose fields stand in the
/// order of the standard, with the chroma format, bit depths, lossless flag
/// and scaling matrix exactly in the profiles 100, 110, 122, 244, 44, 83, 86,
/// 118 and 128, gives back every field. The size is that of the macroblocks
/// less two samples for each step of cropping.
pub proof fn reading_an_sps_undoes_writing(
    w: WrittenSps,
    header: u8,
    payload: Seq<u8>,
    behind: Seq<u8>,
    nal: Seq<u8>,
)
    requires
        sps_complete(w),
        supported(w),
        sized(w),
        begins_with(payload, sps_fields(w)),
        nal == seq![header] + (escaped(payload) + behind),
    ensures
        sps_syntax(rbsp_of(nal.skip(1))).1.err is None,
        sps_agrees(sps_syntax(rbsp_of(nal.skip(1))).0, w),
{
    crate::coding::lemma_nal_begins(seq![header], payload, behind, nal, sps_fields(w));
    lemma_sps(w, rbsp_of(nal.skip(1)));
}

proof fn lemma_sps(w: WrittenSps, rbsp: Seq<u8>)
    requires
        sps_complete(w),
        supported(w),
        sized(w),
        begins_with(rbsp, sps_fields(w)),
    ensures
        sps_syntax(rbsp).1.err is None,
        sps_agrees(sps_syntax(rbsp).0, w),
{
    let fs = sps_fields(w);
    let high = holds_format(w.profile_idc);
    let format = if high {
        format_fields(w)
    } else {
        Seq::empty()
    };
    let frame = seq![Field::Ue(w.log2_max_frame_num_minus4)];
    let rest4 = sps_size_fields(w) + cropping_fields(w);
    let rest3 = count_fields(w) + rest4;
    let rest2 = frame + rest3;
    let rest1 = format + rest2;
    crate::coding::lemma_part_whole(fs);
    crate::coding::lemma_part_split(fs, 0, sps_head(w), rest1);
    crate::coding::lemma_part_split(fs, 4, format, rest2);
    let k2 = 4 + format.len() as int;
    crate::coding::lemma_part_split(fs, k2, frame, rest3);
    crate::coding::lemma_part_split(fs, k2 + 1, count_fields(w), rest4);
    let k4 = k2 + 1 + count_fields(w).len();
    crate::coding::lemma_part_split(fs, k4, sps_size_fields(w), cropping_fields(w));
    let c0 = Cursor::start(rbsp);
    let h = sps_head(w);
    let c1 = step_part(c0, fs, 0, h, 0);
    let c2 = step_part(c1, fs, 0, h, 1);
    let c3 = step_part(c2, fs, 0, h, 2);
    let c4 = step_part(c3, fs, 0, h, 3);
    lemma_profiles(w.profile_idc);
    let c5 = if high {
        lemma_format(c4, fs, 4, w)
    } else {
        c4
    };
    let c6 = step_part(c5, fs, k2, frame, 0);
    let c7 = lemma_counts(c6, fs, k2 + 1, w);
    let z = sps_size_fields(w);
    let d1 = step_part(c7, fs, k4, z, 0);
    let d2 = step_part(d1, fs, k4, z, 1);
    let d3 = step_part(d2, fs, k4, z, 2);
    let d4 = step_part(d3, fs, k4, z, 3);
    let d5 = step_part(d4, fs, k4, z, 4);
    let d6 = step_part(d5, fs, k4, z, 5);
    let d7 = step_part(d6, fs, k4, z, 6);
    let d8 = lemma_cropping(d7, fs, k4 + 7, w);
}

proof fn lemma_profiles(p: nat)
    ensures
        crate::h264::is_high_profile(p) == holds_format(p),
{
    let s = seq![100nat, 110, 122, 244, 44, 83, 86, 118, 128];
    assert(s[0] == 100 && s[1] == 110 && s[2] == 122 && s[3] == 244 && s[4] == 44 && s[5] == 83
        && s[6] == 86 && s[7] == 118 && s[8] == 128);
}

/// Sets that cannot be decoded are refused: another chroma format or bit
/// depth, another type of counts, and interlaced pictures as unsupported,
/// sizes that cannot be counted as malformed.
pub proof fn other_sets_are_refused(
    w: WrittenSps,
    header: u8,
    payload: Seq<u8>,
    behind: Seq<u8>,
    nal: Seq<u8>,
)
    requires
        sps_complete(w),
        begins_with(payload, sps_fields(w)),
        nal == seq![header] + (escaped(payload) + behind),
    ensures
        sized(w) && !supported(w) ==> sps_syntax(rbsp_of(nal.skip(1))).1.err matches Some(
            ErrorView::Unsupported(_),
        ),
        supported(w) && !sized(w) && w.log2_max_poc_lsb_minus4 + 4 <= u32::MAX ==> sps_syntax(
            rbsp_of(nal.skip(1)),
        ).1.err matches Some(ErrorView::Malformed(_)),
{
    crate::coding::lemma_nal_begins(seq![header], payload, behind, nal, sps_fields(w));
    lemma_sps_refused(w, rbsp_of(nal.skip(1)));
}

proof fn lemma_format_refused(c: Cursor, fs: Seq<Field>, k: int, w: WrittenSps)
    requires
        at(c, fs, k),
        part_at(fs, k, format_fields(w)),
        w.chroma_format_idc != 1 || w.bit_depth_luma_minus8 != 0 || w.bit_depth_chroma_minus8 != 0,
    ensures
        high_profile_syntax(c).1.err matches Some(ErrorView::Unsupported(_)),
{
    broadcast use crate::bitstream::group_sticky;

    reveal(high_profile_syntax);
    let p = format_fields(w);
    let c1 = step_part(c, fs, k, p, 0);
    if w.chroma_format_idc == 1 {
        let c2 = step_part(c1, fs, k, p, 1);
        let c3 = step_part(c2, fs, k, p, 2);
    }
}

proof fn lemma_sps_refused(w: WrittenSps, rbsp: Seq<u8>)
    requires
        sps_complete(w),
        begins_with(rbsp, sps_fields(w)),
    ensures
        sized(w) && !supported(w) ==> sps_syntax(rbsp).1.err matches Some(
            ErrorView::Unsupported(_),
        ),
        supported(w) && !sized(w) && w.log2_max_poc_lsb_minus4 + 4 <= u32::MAX ==> sps_syntax(
            rbsp,
        ).1.err matches Some(ErrorView::Malformed(_)),
{
    broadcast use crate::bitstream::group_sticky;

    crate::h264::lemma_sps_parts_error();
    let fs = sps_fields(w);
    let high = holds_format(w.profile_idc);
    let format = if high {
        format_fields(w)
    } else {
        Seq::empty()
    };
    let frame = seq![Field::Ue(w.log2_max_frame_num_minus4)];
    let rest4 = sps_size_fields(w) + cropping_fields(w);
    let rest3 = count_fields(w) + rest4;
    let rest2 = frame + rest3;
    let rest1 = format + rest2;
    crate::coding::lemma_part_whole(fs);
    crate::coding::lemma_part_split(fs, 0, sps_head(w), rest1);
    crate::coding::lemma_part_split(fs, 4, format, rest2);
    let k2 = 4 + format.len() as int;
    crate::coding::lemma_part_split(fs, k2, frame, rest3);
    crate::coding::lemma_part_split(fs, k2 + 1, count_fields(w), rest4);
    let k4 = k2 + 1 + count_fields(w).len();
    crate::coding::lemma_part_split(fs, k4, sps_size_fields(w), cropping_fields(w));
    let c0 = Cursor::start(rbsp);
    let h = sps_head(w);
    let c1 = step_part(c0, fs, 0, h, 0);
    let c2 = step_part(c1, fs, 0, h, 1);
    let c3 = step_part(c2, fs, 0, h, 2);
    let c4 = step_part(c3, fs, 0, h, 3);
    lemma_profiles(w.profile_idc);
    if high && (w.chroma_format_idc != 1 || w.bit_depth_luma_minus8 != 0
        || w.bit_depth_chroma_minus8 != 0) {
        lemma_format_refused(c4, fs, 4, w);
    } else {
        let c5 = if high {
            lemma_format(c4, fs, 4, w)
        } else {
            c4
        };
        let c6 = step_part(c5, fs, k2, frame, 0);
        if w.log2_max_frame_num_minus4 + 4 > u32::MAX {
        } else if w.poc_type != 0 && w.poc_type != 2 {
            reveal(poc_syntax);
            let c7 = step_part(c6, fs, k2 + 1, count_fields(w), 0);
        } else if w.log2_max_poc_lsb_minus4 + 4 <= u32::MAX {
            let c7 = lemma_counts(c6, fs, k2 + 1, w);
            let z = sps_size_fields(w);
            let d1 = step_part(c7, fs, k4, z, 0);
            let d2 = step_part(d1, fs, k4, z, 1);
            let d3 = step_part(d2, fs, k4, z, 2);
            let d4 = step_part(d3, fs, k4, z, 3);
            let d5 = step_part(d4, fs, k4, z, 4);
            if w.frame_mbs_only {
                let d6 = step_part(d5, fs, k4, z, 5);
                let d7 = step_part(d6, fs, k4, z, 6);
                let d8 = lemma_cropping(d7, fs, k4 + 7, w);
            }
        }
    }
}

/// A picture parameter set as it is written. The tail is there in high
/// profiles: 8x8 transforms, the scaling matrix, the second chroma offset.
pub struct WrittenPps {
    pub pps_id: nat,
    pub sps_id: nat,
    pub entropy_cabac: bool,
    pub pic_order_present: bool,
    pub num_slice_groups_minus1: nat,
    pub l0_default_minus1: nat,
    pub l1_default_minus1: nat,
    pub weighted_pred: bool,
    pub weighted_bipred_idc: nat,
    pub pic_init_qp_minus26: int,
    pub pic_init_qs_minus26: int,
    pub chroma_qp_index_offset: int,
    pub deblocking_control_present: bool,
    pub constrained_intra: bool,
    pub redundant_pic_cnt_present: bool,
    pub tail: Option<(bool, Option<Seq<ListCode>>, int)>,
}

pub open spec fn pps_head(w: WrittenPps) -> Seq<Field> {
    seq![
        Field::Ue(w.pps_id),
        Field::Ue(w.sps_id),
        Field::Flag(w.entropy_cabac),
        Field::Flag(w.pic_order_present),
        Field::Ue(w.num_slice_groups_minus1),
        Field::Ue(w.l0_default_minus1),
        Field::Ue(w.l1_default_minus1),
        Field::Flag(w.weighted_pred),
        Field::Bits(w.weighted_bipred_idc, 2),
        Field::Se(w.pic_init_qp_minus26),
        Field::Se(w.pic_init_qs_minus26),
        Field::Se(w.chroma_qp_index_offset),
        Field::Flag(w.deblocking_control_present),
        Field::Flag(w.constrained_intra),
        Field::Flag(w.redundant_pic_cnt_present),
    ]
}

/// Six lists, and two of 8x8 where 8x8 transforms are on.
pub open spec fn lists_of(transform_8x8: bool) -> nat {
    if transform_8x8 {
        6 + 2
    } else {
        6
    }
}

pub open spec fn pps_tail(w: WrittenPps) -> Seq<Field> {
    match w.tail {
        Some((transform_8x8, scaling, second)) => seq![
            Field::Flag(transform_8x8),
            Field::Flag(scaling is Some),
        ] + ((match scaling {
            Some(lists) => matrix_fields(lists, lists_of(transform_8x8)),
            None => Seq::empty(),
        }) + seq![Field::Se(second)]),
        None => Seq::empty(),
    }
}

/// The fields of a picture parameter set and the stop bit behind them.
pub open spec fn pps_fields(w: WrittenPps) -> Seq<Field> {
    pps_head(w) + (pps_tail(w) + seq![Field::Flag(true)])
}

/// A payload of these fields, the last of which is the stop bit: only zeros
/// follow.
pub open spec fn ends_with(payload: Seq<u8>, fields: Seq<Field>) -> bool {
    &&& begins_with(payload, fields)
    &&& forall|i: int|
        crate::coding::coded(fields, 0).len() <= i < 8 * payload.len()
            ==> !(#[trigger] crate::coding::is_set(payload, i))
}

/// What a picture parameter set that was read owes to the one that was
/// written.
pub open spec fn pps_agrees(p: PpsView, w: WrittenPps) -> bool {
    &&& p.pps_id == w.pps_id
    &&& p.sps_id == w.sps_id
    &&& p.entropy_cabac == w.entropy_cabac
    &&& p.pic_order_present == w.pic_order_present
    &&& p.num_ref_idx_l0_default == w.l0_default_minus1 + 1
    &&& p.num_ref_idx_l1_default == w.l1_default_minus1 + 1
    &&& p.weighted_pred == w.weighted_pred
    &&& p.weighted_bipred_idc == w.weighted_bipred_idc
    &&& p.pic_init_qp_minus26 == w.pic_init_qp_minus26
    &&& p.pic_init_qs_minus26 == w.pic_init_qs_minus26
    &&& p.chroma_qp_index_offset == w.chroma_qp_index_offset
    &&& p.deblocking_control_present == w.deblocking_control_present
    &&& p.constrained_intra == w.constrained_intra
    &&& p.redundant_pic_cnt_present == w.redundant_pic_cnt_present
    &&& match w.tail {
        Some((transform_8x8, scaling, second)) => {
            &&& p.transform_8x8 == transform_8x8
            &&& p.second_chroma_qp_index_offset == second
            &&& match scaling {
                Some(lists) => p.scaling matches Some(m) && matrix_agrees(
                    m,
                    lists,
                    lists_of(transform_8x8),
                ),
                None => p.scaling is None,
            }
        },
        None => !p.transform_8x8 && p.second_chroma_qp_index_offset == w.chroma_qp_index_offset
            && p.scaling is None,
    }
}

/// A set whose scaling lists can be coded.
pub open spec fn pps_complete(w: WrittenPps) -> bool {
    w.tail matches Some((t, Some(lists), _)) ==> lists_complete(lists, lists_of(t))
}

/// Reading undoes writing: a picture parameter set whose fields stand in the
/// order of the standard, with or without the tail, and the stop bit behind
/// them, gives back every field; without the tail the second chroma offset is
/// the first. More than one slice group is refused.
pub proof fn reading_a_pps_undoes_writing(w: WrittenPps, header: u8, payload: Seq<u8>, nal: Seq<u8>)
    requires
        pps_complete(w),
        ends_with(payload, pps_fields(w)),
        nal == seq![header] + escaped(payload),
    ensures
        w.num_slice_groups_minus1 == 0 ==> pps_syntax(rbsp_of(nal.skip(1))).1.err is None
            && pps_agrees(pps_syntax(rbsp_of(nal.skip(1))).0, w),
        w.num_slice_groups_minus1 != 0 ==> pps_syntax(rbsp_of(nal.skip(1))).1.err matches Some(
            ErrorView::Unsupported(_),
        ),
{
    assert(nal.skip(1) =~= escaped(payload));
    crate::bitstream::rbsp_undoes_escaping(payload);
    if w.num_slice_groups_minus1 == 0 {
        lemma_pps(w, payload);
    } else {
        lemma_pps_refused(w, payload);
    }
}

proof fn lemma_pps_refused(w: WrittenPps, payload: Seq<u8>)
    requires
        begins_with(payload, pps_fields(w)),
        w.num_slice_groups_minus1 != 0,
    ensures
        pps_syntax(payload).1.err matches Some(ErrorView::Unsupported(_)),
{
    broadcast use crate::bitstream::group_sticky;

    let fs = pps_fields(w);
    let h = pps_head(w);
    crate::coding::lemma_part_whole(fs);
    crate::coding::lemma_part_split(fs, 0, h, pps_tail(w) + seq![Field::Flag(true)]);
    let c0 = Cursor::start(payload);
    let c1 = step_part(c0, fs, 0, h, 0);
    let c2 = step_part(c1, fs, 0, h, 1);
    let c3 = step_part(c2, fs, 0, h, 2);
    let c4 = step_part(c3, fs, 0, h, 3);
    let c5 = step_part(c4, fs, 0, h, 4);
    reveal(pps_tail_syntax);
}

proof fn lemma_pps(w: WrittenPps, payload: Seq<u8>)
    requires
        pps_complete(w),
        ends_with(payload, pps_fields(w)),
        w.num_slice_groups_minus1 == 0,
    ensures
        pps_syntax(payload).1.err is None,
        pps_agrees(pps_syntax(payload).0, w),
{
    let fs = pps_fields(w);
    let h = pps_head(w);
    let stop = seq![Field::Flag(true)];
    crate::coding::lemma_part_whole(fs);
    crate::coding::lemma_part_split(fs, 0, h, pps_tail(w) + stop);
    crate::coding::lemma_part_split(fs, 15, pps_tail(w), stop);
    let c0 = Cursor::start(payload);
    let c1 = step_part(c0, fs, 0, h, 0);
    let c2 = step_part(c1, fs, 0, h, 1);
    let c3 = step_part(c2, fs, 0, h, 2);
    let c4 = step_part(c3, fs, 0, h, 3);
    let c5 = step_part(c4, fs, 0, h, 4);
    let c6 = step_part(c5, fs, 0, h, 5);
    let c7 = step_part(c6, fs, 0, h, 6);
    let c8 = step_part(c7, fs, 0, h, 7);
    let c9 = step_part(c8, fs, 0, h, 8);
    let d0 = step_part(c9, fs, 0, h, 9);
    let d1 = step_part(d0, fs, 0, h, 10);
    let d2 = step_part(d1, fs, 0, h, 11);
    let d3 = step_part(d2, fs, 0, h, 12);
    let d4 = step_part(d3, fs, 0, h, 13);
    let d5 = step_part(d4, fs, 0, h, 14);
    lemma_pps_tail(d5, fs, w, payload);
}

/// A bit that is read as set is set.
proof fn lemma_flag_is_bit(c: Cursor)
    requires
        c.err is None,
        c.flag().0,
        0 <= c.pos,
    ensures
        crate::bitstream::bit_at(c.data, c.pos) == 1,
        c.pos < c.total(),
{
    reveal(Cursor::u);
    reveal_with_fuel(crate::bitstream::bits_value, 2);
    crate::bitstream::lemma_bit_at_most_one(c.data, c.pos);
}

proof fn lemma_pps_tail(c: Cursor, fs: Seq<Field>, w: WrittenPps, payload: Seq<u8>)
    requires
        pps_complete(w),
        fs == pps_fields(w),
        ends_with(payload, fs),
        at(c, fs, 15),
        c.data == payload,
        crate::coding::end_of(c, fs, 15) == crate::coding::coded(fs, 0).len(),
        part_at(fs, 15, pps_tail(w)),
        part_at(fs, 15int + pps_tail(w).len(), seq![Field::Flag(true)]),
    ensures
        ({
            let ((transform_8x8, scaling, second), end) = pps_tail_syntax(
                c,
                w.chroma_qp_index_offset,
            );
            &&& end.err is None
            &&& match w.tail {
                Some((t, lists, s)) => {
                    &&& transform_8x8 == t
                    &&& second == s
                    &&& match lists {
                        Some(lists) => scaling matches Some(m) && matrix_agrees(
                            m,
                            lists,
                            lists_of(t),
                        ),
                        None => scaling is None,
                    }
                },
                None => !transform_8x8 && second == w.chroma_qp_index_offset && scaling is None,
            }
        }),
{
    reveal(pps_tail_syntax);
    let stop = seq![Field::Flag(true)];
    crate::coding::lemma_no_error(c, fs, 15);
    match w.tail {
        None => {
            let end = step_part(c, fs, 15, stop, 0);
            assert(crate::coding::coded(fs, 16).len() == 0);
            assert(!c.more_rbsp_data()) by {
                assert forall|i: int| c.pos < i < c.total() implies #[trigger]
                crate::bitstream::bit_at(c.data, i) != 1 by {
                    assert(!crate::coding::is_set(payload, i));
                    crate::coding::lemma_bit(payload, i);
                }
            }
        },
        Some((t, scaling, second)) => {
            let head = seq![Field::Flag(t), Field::Flag(scaling is Some)];
            let lists = match scaling {
                Some(lists) => matrix_fields(lists, lists_of(t)),
                None => Seq::empty(),
            };
            let last = seq![Field::Se(second)];
            crate::coding::lemma_part_split(fs, 15, head, lists + last);
            crate::coding::lemma_part_split(fs, 17, lists, last);
            let c1 = step_part(c, fs, 15, head, 0);
            let c2 = step_part(c1, fs, 15, head, 1);
            let c3 = match scaling {
                Some(l) => reading_a_matrix_undoes_writing(c2, fs, 17, l, lists_of(t)),
                None => c2,
            };
            let c4 = step_part(c3, fs, 17int + lists.len(), last, 0);
            let c5 = step_part(c4, fs, 15int + pps_tail(w).len(), stop, 0);
            crate::coding::lemma_no_error(c4, fs, 15int + pps_tail(w).len());
            crate::coding::lemma_no_error(c2, fs, 17);
            lemma_flag_is_bit(c4);
            lemma_matrix_moves(c2, match scaling {
                Some(l) => lists_of(t),
                None => 0,
            });
            assert(c4.pos >= c3.pos);
            assert(c3.pos >= c2.pos);
            assert(c.pos < c1.pos);
            assert(c.more_rbsp_data()) by {
                assert(crate::bitstream::bit_at(c.data, c4.pos) == 1);
            }
        },
    }
}

/// Reading a matrix does not go back.
proof fn lemma_matrix_moves(c: Cursor, count: nat)
    requires
        0 <= c.pos <= c.total(),
    ensures
        c.pos <= scaling_matrix(c, count).1.pos <= c.total(),
        scaling_matrix(c, count).1.data == c.data,
    decreases count,
{
    if count > 0 {
        lemma_matrix_moves(c, (count - 1) as nat);
        crate::bitstream::lemma_reads_move_forward();
        let c1 = scaling_matrix(c, (count - 1) as nat).1;
        let c2 = c1.flag().1;
        lemma_list_moves(c2, if count - 1 < 6 { 16 } else { 64 });
    }
}

proof fn lemma_list_moves(c: Cursor, n: nat)
    requires
        0 <= c.pos <= c.total(),
    ensures
        c.pos <= scaling_list(c, n).cursor.pos <= c.total(),
        scaling_list(c, n).cursor.data == c.data,
    decreases n,
{
    if n > 0 {
        lemma_list_moves(c, (n - 1) as nat);
        crate::bitstream::lemma_reads_move_forward();
    }
}

/// A slice header as it is written, for a NAL of type `nal_type` and
/// reference number `ref_idc`.
pub struct WrittenSlice {
    pub ref_idc: u8,
    pub nal_type: u8,
    pub first_mb: nat,
    pub slice_type: nat,
    pub pps_id: nat,
    pub frame_num: nat,
    pub idr_pic_id: nat,
    pub poc_lsb: nat,
    pub delta_bottom: int,
    pub redundant_pic_cnt: nat,
    /// Number of active references less one, where it is not the default.
    pub l0_minus1: Option<nat>,
    /// Changes of the reference list: operations below 3 and their values.
    pub changes: Option<Seq<(nat, nat)>>,
    pub no_output_of_prior: bool,
    pub long_term: bool,
    pub adaptive_marking: bool,
}

pub open spec fn change_fields(list: Seq<(nat, nat)>) -> Seq<Field>
    decreases list.len(),
{
    if list.len() == 0 {
        seq![Field::Ue(3)]
    } else {
        seq![Field::Ue(list[0].0), Field::Ue(list[0].1)] + change_fields(list.skip(1))
    }
}

/// The fields of a P slice: the number of references where it is given, and
/// the changes of the list.
pub open spec fn p_fields(w: WrittenSlice) -> Seq<Field> {
    (match w.l0_minus1 {
        Some(n) => seq![Field::Flag(true), Field::Ue(n)],
        None => seq![Field::Flag(false)],
    }) + match w.changes {
        Some(list) => seq![Field::Flag(true)] + change_fields(list),
        None => seq![Field::Flag(false)],
    }
}

pub open spec fn marking_fields(w: WrittenSlice) -> Seq<Field> {
    if w.nal_type == 5 {
        seq![Field::Flag(w.no_output_of_prior), Field::Flag(w.long_term)]
    } else {
        seq![Field::Flag(w.adaptive_marking)]
    }
}

pub open spec fn slice_head(w: WrittenSlice, sps: Sps) -> Seq<Field> {
    seq![
        Field::Ue(w.first_mb),
        Field::Ue(w.slice_type),
        Field::Ue(w.pps_id),
        Field::Bits(w.frame_num, sps.log2_max_frame_num as nat),
    ]
}

/// The fields of a slice header, in order. The picture number of an IDR
/// picture is there in NALs of type 5; the low bits of the count where counts
/// are of type 0; the marking in reference pictures.
pub open spec fn slice_fields(w: WrittenSlice, sps: Sps, pps: Pps) -> Seq<Field> {
    slice_head(w, sps) + (or_none(w.nal_type == 5, seq![Field::Ue(w.idr_pic_id)]) + (or_none(
        sps.poc_type == 0,
        seq![Field::Bits(w.poc_lsb, sps.log2_max_poc_lsb as nat)],
    ) + (or_none(
        sps.poc_type == 0 && pps.pic_order_present,
        seq![Field::Se(w.delta_bottom)],
    ) + (or_none(pps.redundant_pic_cnt_present, seq![Field::Ue(w.redundant_pic_cnt)]) + (or_none(
        w.slice_type % 5 == 0,
        p_fields(w),
    ) + or_none(w.ref_idc != 0, marking_fields(w)))))))
}

/// Slices that can be decoded: P and I slices without weighted prediction,
/// long-term references or adaptive marking.
pub open spec fn slice_supported(w: WrittenSlice, pps: Pps) -> bool {
    &&& w.slice_type % 5 == 0 || w.slice_type % 5 == 2
    &&& w.slice_type % 5 == 0 ==> !pps.weighted_pred
    &&& w.ref_idc != 0 && w.nal_type == 5 ==> !w.long_term
    &&& w.ref_idc != 0 && w.nal_type != 5 ==> !w.adaptive_marking
}

pub open spec fn slice_complete(w: WrittenSlice) -> bool {
    &&& w.ref_idc < 4
    &&& w.nal_type < 32
    &&& w.changes matches Some(list) ==> forall|i: int|
        0 <= i < list.len() ==> (#[trigger] list[i]).0 < 3
}

/// What a slice header that was read owes to the one that was written.
pub open spec fn slice_agrees(h: SliceHeader, w: WrittenSlice, sps: Sps, pps: Pps) -> bool {
    &&& h.first_mb == w.first_mb
    &&& h.slice_type == if w.slice_type % 5 == 0 {
        SliceType::P
    } else {
        SliceType::I
    }
    &&& h.pps_id == w.pps_id
    &&& h.frame_num == w.frame_num
    &&& h.idr == (w.nal_type == 5)
    &&& h.idr ==> h.idr_pic_id == w.idr_pic_id
    &&& sps.poc_type == 0 ==> h.poc_lsb == w.poc_lsb
    &&& h.nal_ref_idc == w.ref_idc
    &&& h.num_ref_idx_l0 == match w.l0_minus1 {
        Some(n) if w.slice_type % 5 == 0 => n + 1,
        _ => pps.num_ref_idx_l0_default as nat,
    }
}

proof fn lemma_changes(c: Cursor, fs: Seq<Field>, k: int, list: Seq<(nat, nat)>) -> (next: Cursor)
    requires
        at(c, fs, k),
        part_at(fs, k, change_fields(list)),
        forall|i: int| 0 <= i < list.len() ==> (#[trigger] list[i]).0 < 3,
    ensures
        at(next, fs, k + change_fields(list).len()),
        ref_list_modification(c) == next,
    decreases list.len(),
{
    let p = change_fields(list);
    if list.len() == 0 {
        step_part(c, fs, k, p, 0)
    } else {
        let pair = seq![Field::Ue(list[0].0), Field::Ue(list[0].1)];
        crate::coding::lemma_part_split(fs, k, pair, change_fields(list.skip(1)));
        assert(list[0].0 < 3);
        let c1 = step_part(c, fs, k, pair, 0);
        let c2 = step_part(c1, fs, k, pair, 1);
        assert forall|i: int| 0 <= i < list.skip(1).len() implies (
        #[trigger] list.skip(1)[i]).0 < 3 by {
            assert(list[i + 1].0 < 3);
        }
        lemma_changes(c2, fs, k + 2, list.skip(1))
    }
}

proof fn lemma_p_slice(c: Cursor, fs: Seq<Field>, k: int, w: WrittenSlice, pps: Pps) -> (next:
    Cursor)
    requires
        at(c, fs, k),
        part_at(fs, k, p_fields(w)),
        slice_complete(w),
        !pps.weighted_pred,
        forall|i: int| 0 <= i < p_fields(w).len() ==> codable(#[trigger] p_fields(w)[i]),
    ensures
        at(next, fs, k + p_fields(w).len()),
        p_slice_syntax(c, pps.num_ref_idx_l0_default, pps.weighted_pred).1 == next,
        p_slice_syntax(c, pps.num_ref_idx_l0_default, pps.weighted_pred).0 == match w.l0_minus1 {
            Some(n) => n + 1,
            None => pps.num_ref_idx_l0_default as nat,
        },
{
    reveal(p_slice_syntax);
    let a = match w.l0_minus1 {
        Some(n) => seq![Field::Flag(true), Field::Ue(n)],
        None => seq![Field::Flag(false)],
    };
    let b = match w.changes {
        Some(list) => seq![Field::Flag(true)] + change_fields(list),
        None => seq![Field::Flag(false)],
    };
    crate::coding::lemma_part_split(fs, k, a, b);
    let c1 = step_part(c, fs, k, a, 0);
    let c2 = match w.l0_minus1 {
        Some(n) => {
            assert(p_fields(w)[1] == Field::Ue(n));
            assert(codable(p_fields(w)[1]));
            step_part(c1, fs, k, a, 1)
        },
        None => c1,
    };
    let k2 = k + a.len();
    let c3 = step_part(c2, fs, k2, b, 0);
    match w.changes {
        Some(list) => {
            crate::coding::lemma_part_split(fs, k2, seq![Field::Flag(true)], change_fields(list));
            lemma_changes(c3, fs, k2 + 1, list)
        },
        None => c3,
    }
}

proof fn lemma_marking(c: Cursor, fs: Seq<Field>, k: int, w: WrittenSlice)
    requires
        at(c, fs, k),
        part_at(fs, k, marking_fields(w)),
        w.nal_type == 5 ==> !w.long_term,
        w.nal_type != 5 ==> !w.adaptive_marking,
    ensures
        ref_marking_syntax(c, w.nal_type == 5).err is None,
{
    reveal(ref_marking_syntax);
    let p = marking_fields(w);
    let c1 = step_part(c, fs, k, p, 0);
    if w.nal_type == 5 {
        let c2 = step_part(c1, fs, k, p, 1);
    }
}

/// The header byte of a NAL: its reference number above its type.
pub open spec fn header_byte(w: WrittenSlice) -> u8 {
    (32 * w.ref_idc + w.nal_type) as u8
}

proof fn lemma_header_byte(w: WrittenSlice)
    requires
        w.ref_idc < 4,
        w.nal_type < 32,
    ensures
        crate::h264::nal_unit_type(header_byte(w)) == w.nal_type,
        crate::h264::nal_ref_idc(header_byte(w)) == w.ref_idc,
{
    let r = w.ref_idc;
    let t = w.nal_type;
    assert(((32 * r + t) as u8) & 0x1f == t && (((32 * r + t) as u8) >> 5) & 0x3 == r)
        by (bit_vector)
        requires
            r < 4,
            t < 32,
    ;
}

/// Reading undoes writing: a slice header whose fields stand in the order of
/// the standard, in the first 320 bytes of its NAL, gives back every field
/// that is kept. NALs of type 5 are IDR pictures, and the reference number
/// stands above the type in the first byte.
pub proof fn reading_a_slice_header_undoes_writing(
    w: WrittenSlice,
    sps: Sps,
    pps: Pps,
    payload: Seq<u8>,
    behind: Seq<u8>,
    nal: Seq<u8>,
)
    requires
        slice_complete(w),
        slice_supported(w, pps),
        forall|i: int|
            0 <= i < slice_fields(w, sps, pps).len() ==> codable(
                #[trigger] slice_fields(w, sps, pps)[i],
            ),
        begins_with(payload, slice_fields(w, sps, pps)),
        nal == seq![header_byte(w)] + (escaped(payload) + behind),
        1 + escaped(payload).len() <= 320,
    ensures
        ({
            let (h, end) = slice_header_syntax(
                nal[0],
                rbsp_of(slice_header_bytes(nal)),
                sps,
                pps,
            );
            &&& end.err is None
            &&& slice_agrees(h, w, sps, pps)
        }),
{
    let end = if nal.len() < 320 {
        nal.len() as int
    } else {
        320
    };
    crate::coding::lemma_cut_nal_begins(
        seq![header_byte(w)],
        payload,
        behind,
        nal,
        end,
        slice_fields(w, sps, pps),
    );
    assert(nal[0] == header_byte(w));
    lemma_slice(w, sps, pps, rbsp_of(slice_header_bytes(nal)));
}

proof fn lemma_slice(w: WrittenSlice, sps: Sps, pps: Pps, rbsp: Seq<u8>)
    requires
        slice_complete(w),
        slice_supported(w, pps),
        forall|i: int|
            0 <= i < slice_fields(w, sps, pps).len() ==> codable(
                #[trigger] slice_fields(w, sps, pps)[i],
            ),
        begins_with(rbsp, slice_fields(w, sps, pps)),
    ensures
        slice_header_syntax(header_byte(w), rbsp, sps, pps).1.err is None,
        slice_agrees(slice_header_syntax(header_byte(w), rbsp, sps, pps).0, w, sps, pps),
{
    lemma_header_byte(w);
    let fs = slice_fields(w, sps, pps);
    let idr = w.nal_type == 5;
    let is_p = w.slice_type % 5 == 0;
    let e1 = seq![Field::Ue(w.idr_pic_id)];
    let e2 = seq![Field::Bits(w.poc_lsb, sps.log2_max_poc_lsb as nat)];
    let e3 = seq![Field::Se(w.delta_bottom)];
    let e4 = seq![Field::Ue(w.redundant_pic_cnt)];
    let o1 = or_none(idr, e1);
    let o2 = or_none(sps.poc_type == 0, e2);
    let o3 = or_none(sps.poc_type == 0 && pps.pic_order_present, e3);
    let o4 = or_none(pps.redundant_pic_cnt_present, e4);
    let o5 = or_none(is_p, p_fields(w));
    let o6 = or_none(w.ref_idc != 0, marking_fields(w));
    let h = slice_head(w, sps);
    crate::coding::lemma_part_whole(fs);
    crate::coding::lemma_part_split(fs, 0, h, o1 + (o2 + (o3 + (o4 + (o5 + o6)))));
    let k1 = 4int;
    crate::coding::lemma_part_split(fs, k1, o1, o2 + (o3 + (o4 + (o5 + o6))));
    let k2 = k1 + o1.len();
    crate::coding::lemma_part_split(fs, k2, o2, o3 + (o4 + (o5 + o6)));
    let k3 = k2 + o2.len();
    crate::coding::lemma_part_split(fs, k3, o3, o4 + (o5 + o6));
    let k4 = k3 + o3.len();
    crate::coding::lemma_part_split(fs, k4, o4, o5 + o6);
    let k5 = k4 + o4.len();
    crate::coding::lemma_part_split(fs, k5, o5, o6);
    let k6 = k5 + o5.len();
    let c0 = Cursor::start(rbsp);
    let c1 = step_part(c0, fs, 0, h, 0);
    let c2 = step_part(c1, fs, 0, h, 1);
    let c3 = step_part(c2, fs, 0, h, 2);
    let c4 = step_part(c3, fs, 0, h, 3);
    let d1 = lemma_optional(c4, fs, k1, idr, e1);
    let d2 = lemma_optional(d1, fs, k2, sps.poc_type == 0, e2);
    let d3 = lemma_optional(d2, fs, k3, sps.poc_type == 0 && pps.pic_order_present, e3);
    let d4 = lemma_optional(d3, fs, k4, pps.redundant_pic_cnt_present, e4);
    assert(fs[0] == h[0] && fs[1] == h[1] && fs[2] == h[2] && fs[3] == h[3]);
    lemma_values_fit(w, sps, pps);
    let d5 = if is_p {
        assert forall|i: int| 0 <= i < p_fields(w).len() implies codable(
            #[trigger] p_fields(w)[i],
        ) by {
            reveal(part_at);
            assert(fs[k5 + i] == o5[i]);
        }
        lemma_p_slice(d4, fs, k5, w, pps)
    } else {
        d4
    };
    if w.ref_idc != 0 {
        lemma_marking(d5, fs, k6, w);
    }
    crate::coding::lemma_no_error(d5, fs, k6);
}

/// The numbers of a header that can be coded fit 32 bits.
proof fn lemma_values_fit(w: WrittenSlice, sps: Sps, pps: Pps)
    requires
        forall|i: int|
            0 <= i < slice_fields(w, sps, pps).len() ==> codable(
                #[trigger] slice_fields(w, sps, pps)[i],
            ),
    ensures
        w.first_mb < 0x1_0000_0000,
        w.pps_id < 0x1_0000_0000,
        w.frame_num < 0x1_0000_0000,
        w.nal_type == 5 ==> w.idr_pic_id < 0x1_0000_0000,
        sps.poc_type == 0 ==> w.poc_lsb < 0x1_0000_0000,
{
    let fs = slice_fields(w, sps, pps);
    let h = slice_head(w, sps);
    assert(fs[0] == h[0] && fs[1] == h[1] && fs[2] == h[2] && fs[3] == h[3]);
    assert(codable(fs[0]) && codable(fs[1]) && codable(fs[2]) && codable(fs[3]));
    lemma_bits_fit(sps.log2_max_frame_num as nat);
    lemma_bits_fit(sps.log2_max_poc_lsb as nat);
    let e1 = seq![Field::Ue(w.idr_pic_id)];
    let e2 = seq![Field::Bits(w.poc_lsb, sps.log2_max_poc_lsb as nat)];
    if w.nal_type == 5 {
        assert(fs[4] == e1[0]);
        assert(codable(fs[4]));
        if sps.poc_type == 0 {
            assert(fs[5] == e2[0]);
            assert(codable(fs[5]));
        }
    } else if sps.poc_type == 0 {
        assert(fs[4] == e2[0]);
        assert(codable(fs[4]));
    }
}

proof fn lemma_bits_fit(n: nat)
    ensures
        n <= 32 ==> vstd::arithmetic::power2::pow2(n) <= 0x1_0000_0000,
{
    vstd::arithmetic::power2::lemma2_to64();
    if n < 32 {
        vstd::arithmetic::power2::lemma_pow2_strictly_increases(n, 32);
    }
}

/// Slices that cannot be decoded are refused as unsupported: B, SP and SI
/// slices, weighted prediction, long-term references and adaptive marking.
pub proof fn other_slices_are_refused(
    w: WrittenSlice,
    sps: Sps,
    pps: Pps,
    payload: Seq<u8>,
    behind: Seq<u8>,
    nal: Seq<u8>,
)
    requires
        slice_complete(w),
        !slice_supported(w, pps),
        begins_with(payload, slice_fields(w, sps, pps)),
        nal == seq![header_byte(w)] + (escaped(payload) + behind),
        1 + escaped(payload).len() <= 320,
    ensures
        slice_header_syntax(
            nal[0],
            rbsp_of(slice_header_bytes(nal)),
            sps,
            pps,
        ).1.err matches Some(ErrorView::Unsupported(_)),
{
    let end = if nal.len() < 320 {
        nal.len() as int
    } else {
        320
    };
    crate::coding::lemma_cut_nal_begins(
        seq![header_byte(w)],
        payload,
        behind,
        nal,
        end,
        slice_fields(w, sps, pps),
    );
    assert(nal[0] == header_byte(w));
    lemma_slice_refused(w, sps, pps, rbsp_of(slice_header_bytes(nal)));
}

proof fn lemma_p_slice_weighted(c: Cursor, fs: Seq<Field>, k: int, w: WrittenSlice, pps: Pps)
    requires
        at(c, fs, k),
        part_at(fs, k, p_fields(w)),
        slice_complete(w),
        pps.weighted_pred,
    ensures
        p_slice_syntax(c, pps.num_ref_idx_l0_default, pps.weighted_pred).1.err matches Some(
            ErrorView::Unsupported(_),
        ),
{
    reveal(p_slice_syntax);
    let a = match w.l0_minus1 {
        Some(n) => seq![Field::Flag(true), Field::Ue(n)],
        None => seq![Field::Flag(false)],
    };
    let b = match w.changes {
        Some(list) => seq![Field::Flag(true)] + change_fields(list),
        None => seq![Field::Flag(false)],
    };
    crate::coding::lemma_part_split(fs, k, a, b);
    let c1 = step_part(c, fs, k, a, 0);
    let c2 = match w.l0_minus1 {
        Some(n) => step_part(c1, fs, k, a, 1),
        None => c1,
    };
    let k2 = k + a.len();
    let c3 = step_part(c2, fs, k2, b, 0);
    match w.changes {
        Some(list) => {
            crate::coding::lemma_part_split(fs, k2, seq![Field::Flag(true)], change_fields(list));
            let c4 = lemma_changes(c3, fs, k2 + 1, list);
            crate::coding::lemma_no_error(c4, fs, k2 + 1 + change_fields(list).len());
        },
        None => {},
    }
}

proof fn lemma_marking_refused(c: Cursor, fs: Seq<Field>, k: int, w: WrittenSlice)
    requires
        at(c, fs, k),
        part_at(fs, k, marking_fields(w)),
        if w.nal_type == 5 {
            w.long_term
        } else {
            w.adaptive_marking
        },
    ensures
        ref_marking_syntax(c, w.nal_type == 5).err matches Some(ErrorView::Unsupported(_)),
{
    reveal(ref_marking_syntax);
    let p = marking_fields(w);
    let c1 = step_part(c, fs, k, p, 0);
    if w.nal_type == 5 {
        let c2 = step_part(c1, fs, k, p, 1);
    }
}

proof fn lemma_slice_refused(w: WrittenSlice, sps: Sps, pps: Pps, rbsp: Seq<u8>)
    requires
        slice_complete(w),
        !slice_supported(w, pps),
        begins_with(rbsp, slice_fields(w, sps, pps)),
    ensures
        slice_header_syntax(header_byte(w), rbsp, sps, pps).1.err matches Some(
            ErrorView::Unsupported(_),
        ),
{
    broadcast use crate::bitstream::group_sticky;

    lemma_header_byte(w);
    assert forall|c: Cursor, idr: bool| c.err is Some implies #[trigger] ref_marking_syntax(c, idr)
        == c by {
        reveal(ref_marking_syntax);
    }
    let fs = slice_fields(w, sps, pps);
    let idr = w.nal_type == 5;
    let is_p = w.slice_type % 5 == 0;
    let e1 = seq![Field::Ue(w.idr_pic_id)];
    let e2 = seq![Field::Bits(w.poc_lsb, sps.log2_max_poc_lsb as nat)];
    let e3 = seq![Field::Se(w.delta_bottom)];
    let e4 = seq![Field::Ue(w.redundant_pic_cnt)];
    let o1 = or_none(idr, e1);
    let o2 = or_none(sps.poc_type == 0, e2);
    let o3 = or_none(sps.poc_type == 0 && pps.pic_order_present, e3);
    let o4 = or_none(pps.redundant_pic_cnt_present, e4);
    let o5 = or_none(is_p, p_fields(w));
    let o6 = or_none(w.ref_idc != 0, marking_fields(w));
    let h = slice_head(w, sps);
    crate::coding::lemma_part_whole(fs);
    crate::coding::lemma_part_split(fs, 0, h, o1 + (o2 + (o3 + (o4 + (o5 + o6)))));
    let c0 = Cursor::start(rbsp);
    let c1 = step_part(c0, fs, 0, h, 0);
    let c2 = step_part(c1, fs, 0, h, 1);
    if is_p || w.slice_type % 5 == 2 {
        let k1 = 4int;
        crate::coding::lemma_part_split(fs, k1, o1, o2 + (o3 + (o4 + (o5 + o6))));
        let k2 = k1 + o1.len();
        crate::coding::lemma_part_split(fs, k2, o2, o3 + (o4 + (o5 + o6)));
        let k3 = k2 + o2.len();
        crate::coding::lemma_part_split(fs, k3, o3, o4 + (o5 + o6));
        let k4 = k3 + o3.len();
        crate::coding::lemma_part_split(fs, k4, o4, o5 + o6);
        let k5 = k4 + o4.len();
        crate::coding::lemma_part_split(fs, k5, o5, o6);
        let k6 = k5 + o5.len();
        let c3 = step_part(c2, fs, 0, h, 2);
        let c4 = step_part(c3, fs, 0, h, 3);
        let d1 = lemma_optional(c4, fs, k1, idr, e1);
        let d2 = lemma_optional(d1, fs, k2, sps.poc_type == 0, e2);
        let d3 = lemma_optional(d2, fs, k3, sps.poc_type == 0 && pps.pic_order_present, e3);
        let d4 = lemma_optional(d3, fs, k4, pps.redundant_pic_cnt_present, e4);
        if is_p && pps.weighted_pred {
            lemma_p_slice_weighted(d4, fs, k5, w, pps);
        } else if is_p {
            lemma_p_codable(d4, fs, k5, w);
            let d5 = lemma_p_slice(d4, fs, k5, w, pps);
            lemma_marking_refused(d5, fs, k6, w);
        } else {
            lemma_marking_refused(d4, fs, k6, w);
        }
    }
}

proof fn lemma_p_codable(c: Cursor, fs: Seq<Field>, k: int, w: WrittenSlice)
    requires
        at(c, fs, k),
        part_at(fs, k, p_fields(w)),
    ensures
        forall|i: int| 0 <= i < p_fields(w).len() ==> codable(#[trigger] p_fields(w)[i]),
{
    reveal(at);
    reveal(part_at);
    assert forall|i: int| 0 <= i < p_fields(w).len() implies codable(#[trigger] p_fields(w)[i]) by {
        assert(fs[k + i] == p_fields(w)[i]);
    }
}

/// A change of the reference list by an operation above the last one is
/// refused, wherever it stands.
pub proof fn other_changes_are_refused(c: Cursor, fs: Seq<Field>, k: int, op: nat)
    requires
        at(c, fs, k),
        part_at(fs, k, seq![Field::Ue(op)]),
        op > 3,
    ensures
        ref_list_modification(c).err == Some(
            ErrorView::Malformed("bad ref list modification op"@),
        ),
{
    let next = step_part(c, fs, k, seq![Field::Ue(op)], 0);
}

} // verus!
