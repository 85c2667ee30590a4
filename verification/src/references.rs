//! Laws of the reference management: which pictures stay, where they are
//! found, and the numbers that the driver is given for them.
use crate::h265::StRpsView;
use crate::nvdec::{is_oldest, DpbSlot};
use crate::nvdec_h265::{
    all_present, first8, slot_of_poc, slot_table, slots_kept, slots_of, used_pocs, H265Slot,
};
use vstd::prelude::*;

verus! {

/// A picture stays exactly if it was a reference and the set of a picture
/// that is no IDR picture names it by its distance; nothing else of a slot
/// changes.
pub proof fn named_references_stay(
    slots: Seq<H265Slot>,
    idr: bool,
    rps: StRpsView,
    poc: int,
    i: int,
)
    requires
        0 <= i < slots.len(),
    ensures
        ({
            let s = slots_kept(slots, idr, rps, poc)[i];
            let distance = slots[i].poc - poc;
            &&& s.active <==> slots[i].active && !idr && ((exists|k: int|
                0 <= k < rps.neg.len() && (#[trigger] rps.neg[k]).0 == distance) || (exists|k: int|
                0 <= k < rps.pos.len() && (#[trigger] rps.pos[k]).0 == distance))
            &&& s.poc == slots[i].poc && s.age == slots[i].age
            &&& slots_kept(slots, idr, rps, poc).len() == slots.len()
        }),
{
    let distance = slots[i].poc - poc;
    if exists|k: int| 0 <= k < rps.neg.len() && (#[trigger] rps.neg[k]).0 == distance {
        let k = choose|k: int| 0 <= k < rps.neg.len() && (#[trigger] rps.neg[k]).0 == distance;
        assert(poc + rps.neg[k].0 == slots[i].poc);
    }
    if exists|k: int| 0 <= k < rps.pos.len() && (#[trigger] rps.pos[k]).0 == distance {
        let k = choose|k: int| 0 <= k < rps.pos.len() && (#[trigger] rps.pos[k]).0 == distance;
        assert(poc + rps.pos[k].0 == slots[i].poc);
    }
}

/// The pictures that are used are those of the set with their flag set, in
/// its order, each at its distance from the current picture.
pub proof fn used_pictures_keep_their_order(half: Seq<(i32, bool)>, poc: int)
    ensures
        used_pocs(half, poc, half.len()) == half.filter(|e: (i32, bool)| e.1).map_values(
            |e: (i32, bool)| poc + e.0,
        ),
{
    lemma_used(half, poc, half.len());
    assert(half.take(half.len() as int) =~= half);
}

proof fn lemma_used(half: Seq<(i32, bool)>, poc: int, n: nat)
    requires
        n <= half.len(),
    ensures
        used_pocs(half, poc, n) == half.take(n as int).filter(|e: (i32, bool)| e.1).map_values(
            |e: (i32, bool)| poc + e.0,
        ),
    decreases n,
{
    reveal(Seq::filter);
    let used = |e: (i32, bool)| e.1;
    let count = |e: (i32, bool)| poc + e.0;
    let t = half.take(n as int);
    if n > 0 {
        lemma_used(half, poc, (n - 1) as nat);
        assert(t.drop_last() =~= half.take(n - 1));
        let front = t.drop_last().filter(used);
        if half[n - 1].1 {
            assert(t.filter(used) == front.push(t.last()));
            assert(front.push(t.last()).map_values(count) =~= front.map_values(count).push(
                count(t.last()),
            ));
        }
    }
    assert(used_pocs(half, poc, n) =~= t.filter(used).map_values(count));
}

/// A picture is found by its count: in the first slot that holds a reference
/// with it, or in none.
pub proof fn pictures_are_found_by_their_count(slots: Seq<H265Slot>, p: int)
    ensures
        ({
            let i = slot_of_poc(slots, p) as int;
            &&& 0 <= i <= slots.len()
            &&& i < slots.len() ==> slots[i].active && slots[i].poc == p
            &&& forall|j: int| 0 <= j < i ==> !(#[trigger] slots[j]).active || slots[j].poc != p
        }),
    decreases slots.len(),
{
    if slots.len() > 0 && !(slots[0].active && slots[0].poc == p) {
        let t = slots.skip(1);
        pictures_are_found_by_their_count(t, p);
        let i = slot_of_poc(slots, p) as int;
        assert(i < slots.len() ==> t[i - 1] == slots[i]);
        assert forall|j: int| 0 <= j < i implies !(#[trigger] slots[j]).active || slots[j].poc
            != p by {
            if j > 0 {
                assert(t[j - 1] == slots[j]);
            }
        }
    }
}

/// The driver's table of one side names, for each of the first eight used
/// pictures of the set, the slot of a reference at that picture's distance,
/// nearest first as in the set; the rest of the table is empty.
pub proof fn table_names_the_used_pictures(
    slots: Seq<H265Slot>,
    half: Seq<(i32, bool)>,
    poc: int,
    i: int,
)
    requires
        slots.len() <= 255,
        0 <= i < 8,
        all_present(slots, first8(used_pocs(half, poc, half.len()))),
    ensures
        ({
            let used = half.filter(|e: (i32, bool)| e.1);
            let table = slot_table(slots_of(slots, first8(used_pocs(half, poc, half.len()))));
            &&& table.len() == 8
            &&& i < used.len() ==> {
                let s = slots[table[i] as int];
                table[i] < slots.len() && s.active && s.poc - poc == used[i].0
            }
            &&& i >= used.len() ==> table[i] == 255
        }),
{
    let used = half.filter(|e: (i32, bool)| e.1);
    let all = used_pocs(half, poc, half.len());
    let pocs = first8(all);
    used_pictures_keep_their_order(half, poc);
    assert(all.len() == used.len());
    if i < used.len() {
        assert(pocs[i] == all[i]);
        assert(all[i] == poc + used[i].0);
        assert(slot_of_poc(slots, pocs[i]) < slots.len());
        pictures_are_found_by_their_count(slots, pocs[i]);
    }
}

/// With a free slot no reference is overwritten; without one, no slot that is
/// not referenced is older than the one taken.
pub proof fn references_are_overwritten_last(
    slots: Seq<H265Slot>,
    refs: Seq<usize>,
    i: int,
    j: int,
)
    requires
        crate::nvdec_h265::is_setup_slot(slots, refs, i),
        0 <= j < slots.len(),
    ensures
        !slots[j].active ==> !slots[i].active && i <= j,
        slots[i].active && !refs.contains(j as usize) ==> slots[i].age <= slots[j].age,
{
}

/// The same of the sliding window: with a free slot no reference is
/// overwritten, and without one none is older than the one that is.
pub proof fn oldest_reference_is_overwritten_last(slots: Seq<DpbSlot>, i: int, j: int)
    requires
        crate::nvdec::is_setup_slot(slots, i),
        0 <= j < slots.len(),
    ensures
        !slots[j].active ==> !slots[i].active && i <= j,
        slots[i].active ==> slots[i].age <= slots[j].age,
{
}

/// The sliding window drops the reference that came first: every other one
/// came later, and a picture that has just been decoded is never dropped
/// while another reference is there.
pub proof fn window_drops_the_first_to_come(
    slots: Seq<DpbSlot>,
    counter: u64,
    setup: int,
    new: DpbSlot,
    i: int,
    j: int,
)
    requires
        crate::nvdec::ages_wf(slots, counter),
        counter < u64::MAX,
        0 <= setup < slots.len(),
        new.age == counter + 1,
        is_oldest(slots.update(setup, new), i, true),
        0 <= j < slots.len(),
        j != i,
        slots.update(setup, new)[j].active,
    ensures
        slots.update(setup, new)[i].age < slots.update(setup, new)[j].age,
        i != setup,
{
    let placed = slots.update(setup, new);
    assert(placed[i].age <= placed[j].age);
    assert(slots[j].age <= counter);
    assert(slots[i].age <= counter);
}

/// The references of a picture are listed from the latest to the earliest.
pub proof fn latest_reference_comes_first(
    slots: Seq<DpbSlot>,
    setup: int,
    refs: Seq<usize>,
    j: int,
)
    requires
        crate::nvdec::is_ref_list(slots, setup, refs),
        slots.len() <= usize::MAX,
        0 <= j < slots.len(),
        j != setup,
        slots[j].active,
    ensures
        refs.len() > 0,
        slots[refs[0] as int].age >= slots[j].age >= slots[refs.last() as int].age,
{
    assert(refs.contains(j as usize));
    let k = choose|k: int| 0 <= k < refs.len() && refs[k] == j as usize;
    assert(slots[refs[k] as int].age == slots[j].age);
    if k > 0 {
        assert(slots[refs[0] as int].age > slots[refs[k] as int].age);
    }
    if k < refs.len() - 1 {
        assert(slots[refs[k] as int].age > slots[refs[refs.len() - 1] as int].age);
    }
}

/// Dropping every reference leaves nothing active and all else as it was.
pub proof fn dropping_all_leaves_none(slots: Seq<DpbSlot>, i: int)
    requires
        0 <= i < slots.len(),
    ensures
        crate::nvdec::all_inactive(slots).len() == slots.len(),
        crate::nvdec::all_inactive(slots)[i] == (DpbSlot { active: false, ..slots[i] }),
{
}

/// H.264 levels stand in the driver's list one behind the other: 1.0 to 1.3,
/// then x.0 to x.2 for each x from 2 to 6; any other number counts as 6.2.
pub proof fn levels_are_numbered_in_order(level_idc: u8)
    ensures
        ({
            let (major, minor) = (level_idc as int / 10, level_idc as int % 10);
            crate::nvdec::level_rank(level_idc) == if major == 1 && minor <= 3 {
                minor
            } else if 2 <= major <= 6 && minor <= 2 {
                4 + 3 * (major - 2) + minor
            } else {
                18
            }
        }),
{
    let levels: Seq<u8> = seq![
        10, 11, 12, 13, 20, 21, 22, 30, 31, 32, 40, 41, 42, 50, 51, 52, 60, 61,
    ];
    if levels.contains(level_idc) {
        let i = levels.index_of(level_idc);
        assert(levels[i] == level_idc);
    } else {
        assert(levels[0] == 10 && levels[1] == 11 && levels[2] == 12 && levels[3] == 13 && levels[4]
            == 20 && levels[5] == 21);
        assert(levels[6] == 22 && levels[7] == 30 && levels[8] == 31 && levels[9] == 32
            && levels[10] == 40 && levels[11] == 41);
        assert(levels[12] == 42 && levels[13] == 50 && levels[14] == 51 && levels[15] == 52
            && levels[16] == 60 && levels[17] == 61);
    }
}

/// The levels of H.265, in tenths.
pub open spec fn h265_levels() -> Seq<int> {
    seq![10, 20, 21, 30, 31, 40, 41, 50, 51, 52, 60, 61, 62]
}

/// H.265 levels count thirty to the level: the place that is found is the
/// first in the list that is not below, or the last.
pub proof fn h265_level_is_the_first_not_below(level_idc: u8)
    ensures
        ({
            let r = crate::nvdec_h265::level_rank(level_idc) as int;
            &&& 0 <= r < h265_levels().len()
            &&& r < 12 ==> level_idc <= 3 * h265_levels()[r]
            &&& r > 0 ==> level_idc > 3 * h265_levels()[r - 1]
        }),
{
}

/// The constraint flags count from the highest bit of their byte.
pub proof fn constraint_flags_count_from_the_top(flags: u8, k: u8)
    requires
        k < 8,
    ensures
        crate::nvdec::constraint_flag(flags, k) == crate::coding::is_set(seq![flags], k as int),
{
    crate::coding::lemma_bit(seq![flags], k as int);
    assert((7 - k as int % 8) as u8 == (7 - k) as u8);
}

/// Numbers that fit the driver's fields are handed over as they are.
pub proof fn fitting_numbers_are_kept(v: int)
    ensures
        0 <= v < 256 ==> crate::nvdec::low8(v) == v,
        0 <= v < 0x1_0000 ==> crate::nvdec::low16(v) == v,
        -128 <= v < 128 ==> crate::nvdec::low8_signed(v) == v,
        (v - crate::nvdec::low8(v)) % 256 == 0,
        (v - crate::nvdec::low8_signed(v)) % 256 == 0,
        (v - crate::nvdec::low16(v)) % 0x1_0000 == 0,
{
}

/// A memory type fits if its bit in the mask is set and the properties asked
/// for add nothing to its own.
pub proof fn fitting_memory_has_every_property(
    type_bits: u32,
    flags: Seq<u32>,
    required: u32,
    i: int,
)
    requires
        0 <= i < flags.len() <= 32,
    ensures
        crate::nvdec::memory_type_fits(type_bits, flags, required, i) <==> (type_bits >> (
        i as u32)) & 1 == 1 && flags[i] | required == flags[i],
{
    let n = i as u32;
    let f = flags[i];
    assert(type_bits & (1u32 << n) != 0 <==> (type_bits >> n) & 1 == 1) by (bit_vector)
        requires
            n < 32,
    ;
    assert(f & required == required <==> f | required == f) by (bit_vector);
}

/// One slot for each reference and one for the picture being decoded, but no
/// more than the driver has.
pub proof fn slots_are_one_more_than_references(max_refs: int, driver: u32)
    ensures
        crate::nvdec::slots_for_refs(max_refs, driver) <= driver,
        crate::nvdec::slots_for_refs(max_refs, driver) <= max_refs + 1,
        crate::nvdec::slots_for_refs(max_refs, driver) == driver
            || crate::nvdec::slots_for_refs(max_refs, driver) == max_refs + 1,
{
}

/// The family that is found decodes the stream's codec, and none before it
/// does.
pub proof fn first_family_decodes(families: Seq<crate::nvdec::QueueFamily>)
    ensures
        ({
            let i = crate::nvdec::first_family(families) as int;
            &&& i <= families.len()
            &&& i < families.len() ==> families[i].decode && families[i].codec
            &&& forall|j: int| 0 <= j < i ==> !((#[trigger] families[j]).decode
                && families[j].codec)
        }),
    decreases families.len(),
{
    if families.len() > 0 && !families[0].can_decode() {
        let t = families.skip(1);
        first_family_decodes(t);
        let i = crate::nvdec::first_family(families) as int;
        assert(i < families.len() ==> t[i - 1] == families[i]);
        assert forall|j: int| 0 <= j < i implies !((#[trigger] families[j]).decode
            && families[j].codec) by {
            if j > 0 {
                assert(t[j - 1] == families[j]);
            }
        }
    }
}

/// A decoded picture enters its slot as the latest of all, with its own count
/// and number, and leaves the other slots as they are.
pub proof fn decoded_picture_is_the_latest(
    dpb: crate::nvdec::H264Dpb,
    plan: crate::nvdec::H264Plan,
    i: int,
)
    requires
        dpb.wf(),
        plan.setup_idx < dpb.slots@.len(),
        dpb.age_counter < u64::MAX,
        0 <= i < dpb.slots@.len(),
    ensures
        ({
            let placed = dpb.slots_with(plan);
            let new = placed[plan.setup_idx as int];
            &&& placed.len() == dpb.slots@.len()
            &&& dpb.slots@[i].age < new.age <= dpb.age_counter + 1
            &&& new.active == plan.is_ref
            &&& new.poc == plan.poc
            &&& new.frame_num == plan.frame_num
            &&& i != plan.setup_idx ==> placed[i] == dpb.slots@[i]
        }),
{
    assert(dpb.slots@[i].age <= dpb.age_counter);
}

/// The oldest slot is no younger than any other, and of slots of one age it is
/// the first.
pub proof fn oldest_slot_comes_first(
    slots: Seq<crate::nvdec::DpbSlot>,
    active_only: bool,
    i: int,
    j: int,
)
    requires
        crate::nvdec::is_oldest(slots, i, active_only),
        0 <= j < slots.len(),
        slots[j].active || !active_only,
    ensures
        slots[i].age <= slots[j].age,
        slots[i].age == slots[j].age ==> i <= j,
        active_only ==> slots[i].active,
{
}

/// A picture has nothing to refer to where no slot holds a reference, and where
/// there is one slot only; a free slot beside a reference, or a second
/// reference, is enough.
pub proof fn second_slot_holds_a_reference(slots: Seq<crate::nvdec::DpbSlot>, i: int, j: int)
    ensures
        (forall|k: int| 0 <= k < slots.len() ==> !(#[trigger] slots[k]).active)
            ==> crate::nvdec::lacks_reference(slots),
        slots.len() == 1 ==> crate::nvdec::lacks_reference(slots),
        0 <= i < slots.len() && 0 <= j < slots.len() && i != j && slots[i].active
            ==> !crate::nvdec::lacks_reference(slots),
{
    if 0 <= i < slots.len() && 0 <= j < slots.len() && i != j && slots[i].active
        && crate::nvdec::lacks_reference(slots) {
        assert(crate::nvdec::is_setup_slot(slots, i));
        if exists|k: int| 0 <= k < slots.len() && !(#[trigger] slots[k]).active {
            assert(false);
        } else {
            assert(slots[j].active);
            assert(crate::nvdec::is_setup_slot(slots, j));
            assert(slots[i].age <= slots[j].age && slots[j].age <= slots[i].age);
        }
    }
    if slots.len() == 1 {
        assert forall|k: int| 0 <= k < slots.len() && (
        #[trigger] slots[k]).active implies crate::nvdec::is_setup_slot(slots, k) by {
            assert(k == 0);
        }
    }
}

/// The active slots that a decode names are listed by rising number, every one
/// but the slot to decode into, and no free one.
pub proof fn active_slots_are_listed(
    slots: Seq<crate::nvdec_h265::H265Slot>,
    setup: int,
    list: Seq<usize>,
    i: int,
)
    requires
        crate::nvdec_h265::is_active_list(slots, setup, list),
        0 <= i < slots.len() <= usize::MAX,
    ensures
        list.contains(i as usize) <==> slots[i].active && i != setup,
        forall|a: int, b: int| 0 <= a < b < list.len() ==> list[a] < list[b],
{
    if list.contains(i as usize) {
        let k = choose|k: int| 0 <= k < list.len() && list[k] == i as usize;
        assert(slots[list[k] as int].active && list[k] != setup);
    }
}

} // verus!
