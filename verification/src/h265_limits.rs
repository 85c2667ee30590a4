//! What the reader of H.265 streams refuses: sets and lists that are too long,
//! and slices of kinds that are not decoded.
use crate::bitstream::{Cursor, ErrorView};
use crate::coding::{at, begins_with, lemma_optional, or_none, part_at, step_part, Field};
use crate::h265::{
    address_syntax, explicit_rps, long_term_syntax, set_list_syntax, slice_header_syntax,
    slice_refs_syntax, H265Pps, H265Sps, StRpsView,
};
use crate::h265_sets_writing::{flags_of, lemma_extra};
use vstd::prelude::*;

verus! {

/// A written set with more than sixteen pictures on a side is refused.
pub proof fn large_sets_are_refused(c: Cursor, fs: Seq<Field>, k: int, neg: nat, pos: nat)
    requires
        at(c, fs, k),
        part_at(fs, k, seq![Field::Ue(neg), Field::Ue(pos)]),
        neg > 16 || pos > 16,
    ensures
        explicit_rps(c).1.err == Some(ErrorView::Malformed("RPS with >16 pics"@)),
{
    let p = seq![Field::Ue(neg), Field::Ue(pos)];
    let c1 = step_part(c, fs, k, p, 0);
    let c2 = step_part(c1, fs, k, p, 1);
    crate::h265::lemma_rps_loops_error();
    reveal(explicit_rps);
}

/// A list of more than sixty-four sets is refused.
pub proof fn long_lists_of_sets_are_refused(c: Cursor, fs: Seq<Field>, k: int, n: nat)
    requires
        at(c, fs, k),
        part_at(fs, k, seq![Field::Ue(n)]),
        n > 64,
    ensures
        set_list_syntax(c).1.err == Some(
            ErrorView::Malformed("num_short_term_ref_pic_sets > 64"@),
        ),
{
    let c1 = step_part(c, fs, k, seq![Field::Ue(n)], 0);
    reveal(set_list_syntax);
}

/// Long-term reference pictures are refused where they are present, and only
/// there.
pub proof fn long_term_pictures_are_refused(c: Cursor, fs: Seq<Field>, k: int, present: bool)
    requires
        at(c, fs, k),
        part_at(fs, k, seq![Field::Flag(present)]),
    ensures
        long_term_syntax(c).err == (if present {
            Some(ErrorView::Unsupported("long-term reference pictures"@))
        } else {
            None
        }),
{
    let c1 = step_part(c, fs, k, seq![Field::Flag(present)], 0);
    reveal(long_term_syntax);
}

/// A set that is chosen by a number behind the last one is refused.
pub proof fn sets_behind_the_last_are_refused(
    c: Cursor,
    fs: Seq<Field>,
    k: int,
    sets: Seq<StRpsView>,
    idx: nat,
    bits: nat,
)
    requires
        at(c, fs, k),
        sets.len() > 1,
        bits == crate::h265::bit_length((sets.len() - 1) as nat),
        part_at(fs, k, seq![Field::Flag(true), Field::Bits(idx, bits)]),
        idx >= sets.len(),
    ensures
        slice_refs_syntax(c, sets).1.err == Some(
            ErrorView::Malformed("st_rps idx out of range"@),
        ),
{
    let p = seq![Field::Flag(true), Field::Bits(idx, bits)];
    let c1 = step_part(c, fs, k, p, 0);
    let c2 = step_part(c1, fs, k, p, 1);
    reveal(slice_refs_syntax);
}

/// The fields of a slice header up to its type, for the first slice of a
/// picture or for another one.
pub open spec fn lead_fields(t: u8, first: bool, no_output: bool, pps_id: nat) -> Seq<Field> {
    seq![Field::Flag(first)] + (or_none(16 <= t <= 23, seq![Field::Flag(no_output)]) + seq![
        Field::Ue(pps_id),
    ])
}

/// A slice that is not the first of its picture is refused where slices may
/// depend on one another.
pub proof fn dependent_slices_are_refused(
    t: u8,
    rbsp: Seq<u8>,
    sps: H265Sps,
    pps: H265Pps,
    no_output: bool,
    pps_id: nat,
)
    requires
        pps.dependent_slice_segments,
        begins_with(rbsp, lead_fields(t, false, no_output, pps_id)),
    ensures
        slice_header_syntax(t, rbsp, sps, pps).1.err == Some(
            ErrorView::Unsupported("dependent slice segments"@),
        ),
{
    broadcast use crate::bitstream::group_sticky;

    let fs = lead_fields(t, false, no_output, pps_id);
    crate::coding::lemma_part_whole(fs);
    let c = lemma_lead(t, rbsp, fs, false, no_output, pps_id);
    crate::h265::lemma_slice_parts_error();
    reveal(address_syntax);
}

proof fn lemma_lead(
    t: u8,
    rbsp: Seq<u8>,
    fs: Seq<Field>,
    first: bool,
    no_output: bool,
    pps_id: nat,
) -> (c: Cursor)
    requires
        begins_with(rbsp, fs),
        part_at(fs, 0, lead_fields(t, first, no_output, pps_id)),
    ensures
        at(c, fs, lead_fields(t, first, no_output, pps_id).len() as int),
        ({
            let c0 = Cursor::start(rbsp);
            let c1 = c0.flag().1;
            let c2 = if 16 <= t <= 23 {
                c1.flag().1
            } else {
                c1
            };
            &&& c0.flag().0 == first
            &&& c2.ue() == (pps_id, c)
        }),
        c.err is None,
{
    let f0 = seq![Field::Flag(first)];
    let f1 = seq![Field::Flag(no_output)];
    let f2 = seq![Field::Ue(pps_id)];
    let o1 = or_none(16 <= t <= 23, f1);
    crate::coding::lemma_part_split(fs, 0, f0, o1 + f2);
    crate::coding::lemma_part_split(fs, 1, o1, f2);
    let c1 = step_part(Cursor::start(rbsp), fs, 0, f0, 0);
    let c2 = lemma_optional(c1, fs, 1, 16 <= t <= 23, f1);
    step_part(c2, fs, 1 + o1.len() as int, f2, 0)
}

/// A slice of a type above the last one is refused with its number.
pub proof fn other_slice_types_are_refused(
    t: u8,
    rbsp: Seq<u8>,
    sps: H265Sps,
    pps: H265Pps,
    no_output: bool,
    pps_id: nat,
    extra: Seq<bool>,
    v: nat,
)
    requires
        extra.len() == pps.num_extra_slice_header_bits,
        v > 2,
        begins_with(
            rbsp,
            lead_fields(t, true, no_output, pps_id) + (flags_of(extra) + seq![Field::Ue(v)]),
        ),
    ensures
        slice_header_syntax(t, rbsp, sps, pps).1.err == Some(
            ErrorView::Malformed("slice_type "@ + crate::text::dec(v)),
        ),
{
    broadcast use crate::bitstream::group_sticky;

    let lead = lead_fields(t, true, no_output, pps_id);
    let f4 = flags_of(extra);
    let f5 = seq![Field::Ue(v)];
    let fs = lead + (f4 + f5);
    crate::coding::lemma_part_whole(fs);
    crate::coding::lemma_part_split(fs, 0, lead, f4 + f5);
    crate::coding::lemma_part_split(fs, lead.len() as int, f4, f5);
    let c4 = lemma_lead(t, rbsp, fs, true, no_output, pps_id);
    let c5 = lemma_extra(c4, fs, lead.len() as int, extra, extra.len());
    let c6 = step_part(c5, fs, lead.len() as int + f4.len(), f5, 0);
    crate::h265::lemma_slice_parts_error();
}

} // verus!
