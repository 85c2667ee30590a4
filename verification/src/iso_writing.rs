//! ISO media files as they are written: boxes, track headers, sample entries
//! and decoder configurations, and the laws that reading finds them.
use crate::hevc_demux::{
    be_value, boxes, boxes_from, child, first_entry, first_track, hvcc, nal_list, nclx, rotation_of,
    sample_entry, signed32, track_header, track_of, BoxView, HvccView, TrackView,
};
use crate::wire::{high_first, stands_at};
use vstd::prelude::*;

verus! {

broadcast use crate::wire::lemma_high_first_len;

/// A number written highest byte first is read back.
pub proof fn reading_undoes_writing(data: Seq<u8>, pos: int, v: nat, n: nat)
    requires
        stands_at(data, pos, high_first(v, n)),
        crate::wire::fits(v, n),
    ensures
        be_value(data, pos, n) == v,
    decreases n,
{
    if n > 0 {
        let front = high_first(v / 256, (n - 1) as nat);
        assert(high_first(v, n) =~= front + seq![(v % 256) as u8]);
        crate::wire::lemma_stands_in_pieces(data, pos, front, seq![(v % 256) as u8]);
        reading_undoes_writing(data, pos, v / 256, (n - 1) as nat);
        assert(data[(pos + n - 1) + 0] == seq![(v % 256) as u8][0]);
    }
}

/// A box as it is written. A `wide` box holds its size in eight bytes behind
/// the name.
#[verifier::ext_equal]
pub struct WrittenBox {
    pub name: Seq<u8>,
    pub payload: Seq<u8>,
    pub wide: bool,
}

/// A box with a name of four bytes whose size can be written.
pub open spec fn writable(b: WrittenBox) -> bool {
    &&& b.name.len() == 4
    &&& if b.wide {
        b.payload.len() + 16 <= u64::MAX
    } else {
        b.payload.len() + 8 <= u32::MAX
    }
}

/// Size, name and payload; the size counts all three.
pub open spec fn box_bytes(b: WrittenBox) -> Seq<u8> {
    if b.wide {
        high_first(1, 4) + (b.name + (high_first(b.payload.len() + 16, 8) + b.payload))
    } else {
        high_first(b.payload.len() + 8, 4) + (b.name + b.payload)
    }
}

pub open spec fn all_box_bytes(list: Seq<WrittenBox>) -> Seq<u8>
    decreases list.len(),
{
    if list.len() == 0 {
        Seq::empty()
    } else {
        box_bytes(list[0]) + all_box_bytes(list.skip(1))
    }
}

proof fn lemma_piece(data: Seq<u8>, pos: int, piece: Seq<u8>)
    requires
        stands_at(data, pos, piece),
    ensures
        data.subrange(pos, pos + piece.len()) == piece,
{
    assert forall|i: int| 0 <= i < piece.len() implies data.subrange(pos, pos + piece.len())[i]
        == piece[i] by {
        assert(data[pos + i] == piece[i]);
    }
    assert(data.subrange(pos, pos + piece.len()) =~= piece);
}

/// The box that stands at `pos` is the first that is found there.
proof fn lemma_box_at(data: Seq<u8>, pos: int, b: WrittenBox)
    requires
        stands_at(data, pos, box_bytes(b)),
        writable(b),
    ensures
        ({
            let found = boxes_from(data, pos);
            let end = pos + box_bytes(b).len();
            &&& found.len() > 0
            &&& found == seq![found[0]] + boxes_from(data, end)
            &&& found[0].fourcc == b.name
            &&& pos <= found[0].start <= found[0].end == end <= data.len()
            &&& data.subrange(found[0].start, found[0].end) == b.payload
        }),
{
    let n = b.payload.len();
    if b.wide {
        let rest2 = high_first(n + 16, 8) + b.payload;
        let rest1 = b.name + rest2;
        crate::wire::lemma_stands_in_pieces(data, pos, high_first(1, 4), rest1);
        crate::wire::lemma_fits(1);
        reading_undoes_writing(data, pos, 1, 4);
        crate::wire::lemma_stands_in_pieces(data, pos + 4, b.name, rest2);
        lemma_piece(data, pos + 4, b.name);
        crate::wire::lemma_stands_in_pieces(data, pos + 8, high_first(n + 16, 8), b.payload);
        crate::wire::lemma_fits(n + 16);
        reading_undoes_writing(data, pos + 8, n + 16, 8);
        lemma_piece(data, pos + 16, b.payload);
    } else {
        let rest1 = b.name + b.payload;
        crate::wire::lemma_stands_in_pieces(data, pos, high_first(n + 8, 4), rest1);
        crate::wire::lemma_fits(n + 8);
        reading_undoes_writing(data, pos, n + 8, 4);
        crate::wire::lemma_stands_in_pieces(data, pos + 4, b.name, b.payload);
        lemma_piece(data, pos + 4, b.name);
        lemma_piece(data, pos + 8, b.payload);
    }
}

proof fn lemma_boxes_at(data: Seq<u8>, pos: int, list: Seq<WrittenBox>)
    requires
        stands_at(data, pos, all_box_bytes(list)),
        forall|i: int| 0 <= i < list.len() ==> writable(#[trigger] list[i]),
    ensures
        ({
            let found = boxes_from(data, pos);
            &&& found.len() == list.len() + boxes_from(
                data,
                pos + all_box_bytes(list).len(),
            ).len()
            &&& forall|i: int|
                0 <= i < list.len() ==> (#[trigger] found[i]).fourcc == list[i].name
                    && data.subrange(found[i].start, found[i].end) == list[i].payload
        }),
    decreases list.len(),
{
    if list.len() > 0 {
        crate::wire::lemma_stands_in_pieces(
            data,
            pos,
            box_bytes(list[0]),
            all_box_bytes(list.skip(1)),
        );
        lemma_box_at(data, pos, list[0]);
        assert forall|i: int| 0 <= i < list.skip(1).len() implies writable(
            #[trigger] list.skip(1)[i],
        ) by {
            assert(writable(list[i + 1]));
        }
        let next = pos + box_bytes(list[0]).len();
        lemma_boxes_at(data, next, list.skip(1));
        let found = boxes_from(data, pos);
        let rest = boxes_from(data, next);
        assert forall|i: int| 0 <= i < list.len() implies (#[trigger] found[i]).fourcc
            == list[i].name && data.subrange(found[i].start, found[i].end) == list[i].payload by {
            if i > 0 {
                assert(found[i] == rest[i - 1]);
                assert(list[i] == list.skip(1)[i - 1]);
            }
        }
    }
}

/// Walking undoes writing: of boxes written one behind the other, in either
/// form of size, and at most seven bytes behind them, exactly those boxes are
/// found, in order, with their names and payloads.
pub proof fn walking_undoes_writing(list: Seq<WrittenBox>, behind: Seq<u8>)
    requires
        forall|i: int| 0 <= i < list.len() ==> writable(#[trigger] list[i]),
        behind.len() < 8,
    ensures
        ({
            let data = all_box_bytes(list) + behind;
            let found = boxes(data);
            &&& found.len() == list.len()
            &&& forall|i: int|
                0 <= i < list.len() ==> (#[trigger] found[i]).fourcc == list[i].name
                    && data.subrange(found[i].start, found[i].end) == list[i].payload
        }),
{
    let data = all_box_bytes(list) + behind;
    assert(stands_at(data, 0, all_box_bytes(list)));
    lemma_boxes_at(data, 0, list);
}

/// A payload that begins with written boxes, of which box `i` is the first
/// with its name.
pub open spec fn has_child(data: Seq<u8>, list: Seq<WrittenBox>, i: int) -> bool {
    &&& stands_at(data, 0, all_box_bytes(list))
    &&& forall|k: int| 0 <= k < list.len() ==> writable(#[trigger] list[k])
    &&& 0 <= i < list.len()
    &&& forall|k: int| 0 <= k < i ==> (#[trigger] list[k]).name != list[i].name
}

proof fn lemma_first_named_is(b: Seq<BoxView>, name: Seq<u8>, i: int)
    requires
        0 <= i < b.len(),
        forall|j: int| 0 <= j < i ==> (#[trigger] b[j]).fourcc != name,
        b[i].fourcc == name,
    ensures
        crate::hevc_demux::first_named(b, name) == i,
    decreases b.len(),
{
    if i > 0 {
        assert(b[0].fourcc != name);
        let t = b.skip(1);
        assert forall|j: int| 0 <= j < i - 1 implies (#[trigger] t[j]).fourcc != name by {
            assert(t[j] == b[j + 1]);
        }
        lemma_first_named_is(t, name, i - 1);
    }
}

/// A child is found by its name: the payload of the first box that was
/// written with it.
pub proof fn child_is_found(data: Seq<u8>, list: Seq<WrittenBox>, i: int)
    requires
        has_child(data, list, i),
    ensures
        child(data, list[i].name) == Some(list[i].payload),
{
    lemma_boxes_at(data, 0, list);
    let b = boxes(data);
    assert forall|j: int| 0 <= j < i implies (#[trigger] b[j]).fourcc != list[i].name by {
        assert(b[j].fourcc == list[j].name);
    }
    assert(b[i].fourcc == list[i].name);
    lemma_first_named_is(b, list[i].name, i);
}

/// An array of a decoder configuration: the type of its NALs, in the low six
/// bits of a byte, and the NALs.
pub struct NalArray {
    pub kind: u8,
    pub nals: Seq<Seq<u8>>,
}

/// NALs behind their 16-bit lengths.
pub open spec fn nal_bytes(nals: Seq<Seq<u8>>) -> Seq<u8>
    decreases nals.len(),
{
    if nals.len() == 0 {
        Seq::empty()
    } else {
        nal_bytes(nals.drop_last()) + (high_first(nals.last().len(), 2) + nals.last())
    }
}

/// Arrays one behind the other: type, number of NALs, NALs.
pub open spec fn array_bytes(arrays: Seq<NalArray>) -> Seq<u8>
    decreases arrays.len(),
{
    if arrays.len() == 0 {
        Seq::empty()
    } else {
        let a = arrays.last();
        array_bytes(arrays.drop_last()) + (seq![a.kind] + (high_first(a.nals.len(), 2) + nal_bytes(
            a.nals,
        )))
    }
}

/// The NALs of the arrays of one type, in order.
pub open spec fn nals_of_type(arrays: Seq<NalArray>, t: int) -> Seq<Seq<u8>>
    decreases arrays.len(),
{
    if arrays.len() == 0 {
        Seq::empty()
    } else if arrays.last().kind as int % 64 == t {
        nals_of_type(arrays.drop_last(), t) + arrays.last().nals
    } else {
        nals_of_type(arrays.drop_last(), t)
    }
}

/// Arrays whose numbers fit their fields.
pub open spec fn arrays_writable(arrays: Seq<NalArray>) -> bool {
    &&& arrays.len() <= 255
    &&& forall|i: int| 0 <= i < arrays.len() ==> (#[trigger] arrays[i]).nals.len() < 0x1_0000
    &&& forall|i: int, j: int|
        0 <= i < arrays.len() && 0 <= j < arrays[i].nals.len()
            ==> (#[trigger] arrays[i].nals[j]).len() < 0x1_0000
}

/// A configuration record: 21 bytes of settings, a byte whose low two bits
/// are the size of a NAL length less one, the number of arrays, the arrays.
pub open spec fn record_bytes(settings: Seq<u8>, arrays: Seq<NalArray>) -> Seq<u8> {
    settings + (seq![arrays.len() as u8] + array_bytes(arrays))
}

proof fn lemma_nal_list(data: Seq<u8>, pos: int, nals: Seq<Seq<u8>>)
    requires
        stands_at(data, pos, nal_bytes(nals)),
        forall|j: int| 0 <= j < nals.len() ==> (#[trigger] nals[j]).len() < 0x1_0000,
    ensures
        nal_list(data, pos, nals.len()) == Some((nals, pos + nal_bytes(nals).len())),
    decreases nals.len(),
{
    if nals.len() == 0 {
        assert(nals =~= Seq::empty());
    } else {
        let last = nals.last();
        let front = nals.drop_last();
        let tail = high_first(last.len(), 2) + last;
        crate::wire::lemma_stands_in_pieces(data, pos, nal_bytes(front), tail);
        assert forall|j: int| 0 <= j < front.len() implies (#[trigger] front[j]).len()
            < 0x1_0000 by {
            assert(front[j] == nals[j]);
        }
        lemma_nal_list(data, pos, front);
        let o = pos + nal_bytes(front).len();
        crate::wire::lemma_stands_in_pieces(data, o, high_first(last.len(), 2), last);
        crate::wire::lemma_fits(last.len());
        reading_undoes_writing(data, o, last.len(), 2);
        lemma_piece(data, o + 2, last);
        assert(front.push(last) =~= nals);
    }
}

proof fn lemma_arrays(data: Seq<u8>, settings: Seq<u8>, arrays: Seq<NalArray>)
    requires
        settings.len() == 22,
        stands_at(data, 0, settings),
        stands_at(data, 23, array_bytes(arrays)),
        arrays_writable(arrays),
    ensures
        crate::hevc_demux::hvcc_arrays(data, arrays.len()) matches Some((v, end)) && end == 23
            + array_bytes(arrays).len() && v.length_size == settings[21] % 4 + 1 && v.vps
            == nals_of_type(arrays, 32) && v.sps == nals_of_type(arrays, 33) && v.pps
            == nals_of_type(arrays, 34),
    decreases arrays.len(),
{
    if arrays.len() == 0 {
        assert(data[0int + 21] == settings[21]);
    } else {
        let a = arrays.last();
        let front = arrays.drop_last();
        let rest2 = high_first(a.nals.len(), 2) + nal_bytes(a.nals);
        let rest1 = seq![a.kind] + rest2;
        crate::wire::lemma_stands_in_pieces(data, 23, array_bytes(front), rest1);
        assert(arrays_writable(front)) by {
            assert forall|i: int| 0 <= i < front.len() implies (#[trigger] front[i]).nals.len()
                < 0x1_0000 by {
                assert(front[i] == arrays[i]);
            }
            assert forall|i: int, j: int|
                0 <= i < front.len() && 0 <= j < front[i].nals.len() implies (
            #[trigger] front[i].nals[j]).len() < 0x1_0000 by {
                assert(front[i].nals[j] == arrays[i].nals[j]);
            }
        }
        lemma_arrays(data, settings, front);
        let o = 23int + array_bytes(front).len();
        crate::wire::lemma_stands_in_pieces(data, o, seq![a.kind], rest2);
        assert(data[o + 0] == seq![a.kind][0]);
        crate::wire::lemma_stands_in_pieces(
            data,
            o + 1,
            high_first(a.nals.len(), 2),
            nal_bytes(a.nals),
        );
        assert(arrays[arrays.len() - 1] == a);
        crate::wire::lemma_fits(a.nals.len());
        reading_undoes_writing(data, o + 1, a.nals.len(), 2);
        assert forall|j: int| 0 <= j < a.nals.len() implies (#[trigger] a.nals[j]).len()
            < 0x1_0000 by {
            assert(arrays[arrays.len() - 1].nals[j] == a.nals[j]);
        }
        lemma_nal_list(data, o + 3, a.nals);
        let kind = a.kind;
        assert(kind & 0x3f == kind % 64) by (bit_vector);
    }
}

/// Reading undoes writing: a record written from arrays of NALs gives back as
/// video, sequence and picture parameter sets the NALs of the arrays of type
/// 32, 33 and 34, each list in order and nothing else in it, and as the size
/// of a NAL length one more than the low two bits of the last setting. A
/// length of three bytes is refused.
pub proof fn reading_a_record_undoes_writing(
    settings: Seq<u8>,
    arrays: Seq<NalArray>,
    behind: Seq<u8>,
)
    requires
        settings.len() == 22,
        arrays_writable(arrays),
    ensures
        settings[21] % 4 == 2 ==> hvcc(record_bytes(settings, arrays) + behind) is None,
        settings[21] % 4 != 2 ==> (hvcc(record_bytes(settings, arrays) + behind) matches Some(v)
            && v.length_size == settings[21] % 4 + 1 && v.vps == nals_of_type(arrays, 32) && v.sps
            == nals_of_type(arrays, 33) && v.pps == nals_of_type(arrays, 34)),
{
    let data = record_bytes(settings, arrays) + behind;
    let rest = seq![arrays.len() as u8] + array_bytes(arrays);
    assert(stands_at(data, 0, settings + rest));
    crate::wire::lemma_stands_in_pieces(data, 0, settings, rest);
    crate::wire::lemma_stands_in_pieces(data, 22, seq![arrays.len() as u8], array_bytes(arrays));
    assert(data[22int + 0] == seq![arrays.len() as u8][0]);
    assert(data[0int + 21] == settings[21]);
    lemma_arrays(data, settings, arrays);
}

/// A record of the three lists, in any order of their arrays, gives back the
/// three lists.
pub proof fn three_lists_are_told_apart(
    settings: Seq<u8>,
    vps: Seq<Seq<u8>>,
    sps: Seq<Seq<u8>>,
    pps: Seq<Seq<u8>>,
    arrays: Seq<NalArray>,
)
    requires
        settings.len() == 22,
        settings[21] % 4 != 2,
        arrays_writable(arrays),
        arrays.len() == 3,
        exists|i: int, j: int, k: int|
            #![trigger arrays[i], arrays[j], arrays[k]]
            0 <= i < 3 && 0 <= j < 3 && 0 <= k < 3 && i != j && j != k && i != k && arrays[i]
                == (NalArray { kind: 32, nals: vps }) && arrays[j] == (NalArray {
                kind: 33,
                nals: sps,
            }) && arrays[k] == (NalArray { kind: 34, nals: pps }),
    ensures
        hvcc(record_bytes(settings, arrays)) matches Some(v) && v.vps == vps && v.sps == sps
            && v.pps == pps,
{
    assert(record_bytes(settings, arrays) + Seq::<u8>::empty() =~= record_bytes(settings, arrays));
    reading_a_record_undoes_writing(settings, arrays, Seq::<u8>::empty());
    let two = arrays.drop_last();
    let one = two.drop_last();
    let none = one.drop_last();
    assert(none.len() == 0);
    assert(two[1] == arrays[1] && two[0] == arrays[0] && one[0] == arrays[0]);
    lemma_three(arrays, 32);
    lemma_three(arrays, 33);
    lemma_three(arrays, 34);
    let empty = Seq::<Seq<u8>>::empty();
    assert(vps + empty =~= vps && empty + vps =~= vps);
    assert(sps + empty =~= sps && empty + sps =~= sps);
    assert(pps + empty =~= pps && empty + pps =~= pps);
}

proof fn lemma_three(arrays: Seq<NalArray>, t: int)
    requires
        arrays.len() == 3,
    ensures
        nals_of_type(arrays, t) == pick(arrays[0], t) + pick(arrays[1], t) + pick(arrays[2], t),
{
    let two = arrays.drop_last();
    let one = two.drop_last();
    let none = one.drop_last();
    assert(two[1] == arrays[1] && two[0] == arrays[0] && one[0] == arrays[0]);
    assert(nals_of_type(none, t) =~= Seq::empty());
    assert(nals_of_type(one, t) =~= pick(arrays[0], t));
    assert(nals_of_type(two, t) =~= pick(arrays[0], t) + pick(arrays[1], t));
    assert(nals_of_type(arrays, t) =~= pick(arrays[0], t) + pick(arrays[1], t) + pick(
        arrays[2],
        t,
    ));
}

spec fn pick(a: NalArray, t: int) -> Seq<Seq<u8>> {
    if a.kind as int % 64 == t {
        a.nals
    } else {
        Seq::empty()
    }
}

/// A name of four characters.
pub open spec fn name_of(a: char, b: char, c: char, d: char) -> Seq<u8> {
    seq![a as u8, b as u8, c as u8, d as u8]
}

/// A signed number in 32 bits.
pub open spec fn bits32(v: int) -> nat {
    (if v < 0 {
        v + 0x1_0000_0000
    } else {
        v
    }) as nat
}

/// A track header of version 0 or 1, in the order of its fields: the times
/// and the duration are wider in version 1. The display matrix is nine
/// signed numbers, row by row.
pub struct TrackHeader {
    pub version: u8,
    pub flags: Seq<u8>,
    pub times: Seq<u8>,
    pub track_id: u32,
    pub duration_to_volume: Seq<u8>,
    pub matrix: Seq<i32>,
    pub size: Seq<u8>,
}

pub open spec fn matrix_bytes(m: Seq<i32>) -> Seq<u8>
    decreases m.len(),
{
    if m.len() == 0 {
        Seq::empty()
    } else {
        high_first(bits32(m[0] as int), 4) + matrix_bytes(m.skip(1))
    }
}

pub open spec fn header_bytes(h: TrackHeader) -> Seq<u8> {
    seq![h.version] + (h.flags + (h.times + (high_first(h.track_id as nat, 4) + (
    h.duration_to_volume + (matrix_bytes(h.matrix) + h.size)))))
}

/// The fields have the widths of their version.
pub open spec fn header_complete(h: TrackHeader) -> bool {
    &&& h.flags.len() == 3
    &&& h.matrix.len() == 9
    &&& h.size.len() == 8
    &&& h.version == 0 && h.times.len() == 4 + 4 && h.duration_to_volume.len() == 4 + 4 + 8 + 2 + 2
        + 2 + 2 || h.version == 1 && h.times.len() == 8 + 8 && h.duration_to_volume.len() == 4 + 8
        + 8 + 2 + 2 + 2 + 2
}

proof fn lemma_matrix_entry(data: Seq<u8>, pos: int, m: Seq<i32>, k: int)
    requires
        stands_at(data, pos, matrix_bytes(m)),
        0 <= k < m.len(),
    ensures
        signed32(be_value(data, pos + 4 * k, 4)) == m[k],
        pos + 4 * k + 4 <= data.len(),
    decreases m.len(),
{
    let first = bits32(m[0] as int);
    crate::wire::lemma_stands_in_pieces(data, pos, high_first(first, 4), matrix_bytes(m.skip(1)));
    if k == 0 {
        crate::wire::lemma_fits(first);
        reading_undoes_writing(data, pos, first, 4);
    } else {
        lemma_matrix_entry(data, pos + 4, m.skip(1), k - 1);
    }
}

proof fn lemma_matrix_len(m: Seq<i32>)
    ensures
        matrix_bytes(m).len() == 4 * m.len(),
    decreases m.len(),
{
    if m.len() > 0 {
        lemma_matrix_len(m.skip(1));
    }
}

/// A quarter turn clockwise, `k` times: its cosine and sine.
pub open spec fn turn(k: int) -> (int, int) {
    if k == 0 {
        (1, 0)
    } else if k == 1 {
        (0, 1)
    } else if k == 2 {
        (-1, 0)
    } else {
        (0, -1)
    }
}

/// The matrix of `k` quarter turns, at any positive scale of its four
/// entries, reads as `90 * k` degrees; where another angle than zero is read,
/// the matrix is one of that many quarter turns.
pub proof fn quarter_turns_are_read(k: int, s: int, t: int, u: int, v: int, a: int, b: int, c: int, d: int)
    requires
        0 <= k < 4,
        s > 0,
        t > 0,
        u > 0,
        v > 0,
    ensures
        rotation_of(s * turn(k).0, t * turn(k).1, -(u * turn(k).1), v * turn(k).0) == 90 * k,
        rotation_of(a, b, c, d) != 0 ==> ({
            let n = rotation_of(a, b, c, d) as int / 90;
            let (cosine, sine) = turn(n);
            &&& 1 <= n < 4
            &&& (a > 0 <==> cosine > 0) && (a < 0 <==> cosine < 0)
            &&& (d > 0 <==> cosine > 0) && (d < 0 <==> cosine < 0)
            &&& (b > 0 <==> sine > 0) && (b < 0 <==> sine < 0)
            &&& (c > 0 <==> sine < 0) && (c < 0 <==> sine > 0)
        }),
{
    assert(s * 1 == s && s * 0 == 0 && s * (-1) == -s);
    assert(t * 1 == t && t * 0 == 0 && t * (-1) == -t);
    assert(u * 1 == u && u * 0 == 0 && u * (-1) == -u);
    assert(v * 1 == v && v * 0 == 0 && v * (-1) == -v);
}

/// Reading undoes writing: a track header of either version gives back the
/// track's number, and the rotation of the four entries of the matrix's first
/// two rows and columns.
pub proof fn reading_a_header_undoes_writing(h: TrackHeader, behind: Seq<u8>)
    requires
        header_complete(h),
    ensures
        track_header(header_bytes(h) + behind) == Some(
            (
                h.track_id,
                rotation_of(
                    h.matrix[0] as int,
                    h.matrix[1] as int,
                    h.matrix[3] as int,
                    h.matrix[4] as int,
                ),
            ),
        ),
{
    let data = header_bytes(h) + behind;
    let rest5 = matrix_bytes(h.matrix) + h.size;
    let rest4 = h.duration_to_volume + rest5;
    let rest3 = high_first(h.track_id as nat, 4) + rest4;
    let rest2 = h.times + rest3;
    let rest1 = h.flags + rest2;
    lemma_matrix_len(h.matrix);
    assert(stands_at(data, 0, seq![h.version] + rest1));
    crate::wire::lemma_stands_in_pieces(data, 0, seq![h.version], rest1);
    assert(data[0int + 0] == seq![h.version][0]);
    crate::wire::lemma_stands_in_pieces(data, 1, h.flags, rest2);
    crate::wire::lemma_stands_in_pieces(data, 4, h.times, rest3);
    let at = 4 + h.times.len() as int;
    crate::wire::lemma_stands_in_pieces(data, at, high_first(h.track_id as nat, 4), rest4);
    crate::wire::lemma_fits(h.track_id as nat);
    reading_undoes_writing(data, at, h.track_id as nat, 4);
    crate::wire::lemma_stands_in_pieces(data, at + 4, h.duration_to_volume, rest5);
    let m = at + 4 + h.duration_to_volume.len();
    crate::wire::lemma_stands_in_pieces(data, m, matrix_bytes(h.matrix), h.size);
    lemma_matrix_entry(data, m, h.matrix, 0);
    lemma_matrix_entry(data, m, h.matrix, 1);
    lemma_matrix_entry(data, m, h.matrix, 3);
    lemma_matrix_entry(data, m, h.matrix, 4);
}

/// Reading undoes writing: a colour description of the type nclx gives back
/// its primaries, transfer and matrix; one of another type gives none.
pub proof fn reading_colours_undoes_writing(
    primaries: u16,
    transfer: u16,
    matrix: u16,
    kind: Seq<u8>,
    behind: Seq<u8>,
)
    requires
        kind.len() == 4,
    ensures
        nclx(
            kind + (high_first(primaries as nat, 2) + (high_first(transfer as nat, 2) + (high_first(
                matrix as nat,
                2,
            ) + behind))),
        ) == if kind == name_of('n', 'c', 'l', 'x') {
            Some((primaries, transfer, matrix))
        } else {
            None
        },
{
    let rest3 = high_first(matrix as nat, 2) + behind;
    let rest2 = high_first(transfer as nat, 2) + rest3;
    let rest1 = high_first(primaries as nat, 2) + rest2;
    let data = kind + rest1;
    assert(stands_at(data, 0, kind + rest1));
    crate::wire::lemma_stands_in_pieces(data, 0, kind, rest1);
    lemma_piece(data, 0, kind);
    crate::wire::lemma_stands_in_pieces(data, 4, high_first(primaries as nat, 2), rest2);
    crate::wire::lemma_stands_in_pieces(data, 6, high_first(transfer as nat, 2), rest3);
    crate::wire::lemma_stands_in_pieces(data, 8, high_first(matrix as nat, 2), behind);
    crate::wire::lemma_fits(primaries as nat);
    crate::wire::lemma_fits(transfer as nat);
    crate::wire::lemma_fits(matrix as nat);
    reading_undoes_writing(data, 4, primaries as nat, 2);
    reading_undoes_writing(data, 6, transfer as nat, 2);
    reading_undoes_writing(data, 8, matrix as nat, 2);
}

proof fn lemma_first_entry(data: Seq<u8>, b: Seq<BoxView>, i: int)
    requires
        0 <= i < b.len(),
        forall|j: int|
            0 <= j < i ==> (#[trigger] b[j]).fourcc != name_of('h', 'v', 'c', '1') && b[j].fourcc
                != name_of('h', 'e', 'v', '1'),
        b[i].fourcc == name_of('h', 'v', 'c', '1') || b[i].fourcc == name_of('h', 'e', 'v', '1'),
        sample_entry(data.subrange(b[i].start, b[i].end)) is Some,
    ensures
        first_entry(data, b) == Some(
            (
                b[i].fourcc,
                sample_entry(data.subrange(b[i].start, b[i].end))->Some_0.0,
                sample_entry(data.subrange(b[i].start, b[i].end))->Some_0.1,
            ),
        ),
    decreases b.len(),
{
    if i > 0 {
        assert(b[0].fourcc != name_of('h', 'v', 'c', '1'));
        let t = b.skip(1);
        assert forall|j: int| 0 <= j < i - 1 implies (#[trigger] t[j]).fourcc != name_of(
            'h',
            'v',
            'c',
            '1',
        ) && t[j].fourcc != name_of('h', 'e', 'v', '1') by {
            assert(t[j] == b[j + 1]);
        }
        lemma_first_entry(data, t, i - 1);
    }
}

/// A sample entry is 78 bytes of fields and then boxes. Its configuration is
/// that of the first `hvcC` box, and its colour that of the first `colr` box,
/// or none where no box has that name.
pub proof fn entry_holds_configuration_and_colour(
    fields: Seq<u8>,
    list: Seq<WrittenBox>,
    i: int,
    j: Option<int>,
    entry: Seq<u8>,
)
    requires
        fields.len() == 78,
        entry == fields + all_box_bytes(list),
        has_child(all_box_bytes(list), list, i),
        list[i].name == name_of('h', 'v', 'c', 'C'),
        match j {
            Some(k) => has_child(all_box_bytes(list), list, k) && list[k].name == name_of(
                'c',
                'o',
                'l',
                'r',
            ),
            None => forall|k: int|
                0 <= k < list.len() ==> (#[trigger] list[k]).name != name_of('c', 'o', 'l', 'r'),
        },
    ensures
        match (hvcc(list[i].payload), j) {
            (None, _) => sample_entry(entry) is None,
            (Some(config), Some(k)) => sample_entry(entry) == Some((config, nclx(list[k].payload))),
            (Some(config), None) => sample_entry(entry) == Some(
                (config, None::<(u16, u16, u16)>),
            ),
        },
{
    let data = all_box_bytes(list);
    assert(entry.skip(78) =~= data);
    child_is_found(data, list, i);
    match j {
        Some(k) => child_is_found(data, list, k),
        None => {
            walking_undoes_writing(list, Seq::empty());
            assert(data + Seq::<u8>::empty() =~= data);
            let b = boxes(data);
            assert forall|k: int| 0 <= k < b.len() implies (#[trigger] b[k]).fourcc != name_of(
                'c',
                'o',
                'l',
                'r',
            ) by {
                assert(list[k].name == b[k].fourcc);
            }
            lemma_no_name(b, name_of('c', 'o', 'l', 'r'));
        },
    }
}

proof fn lemma_no_name(b: Seq<BoxView>, name: Seq<u8>)
    requires
        forall|j: int| 0 <= j < b.len() ==> (#[trigger] b[j]).fourcc != name,
    ensures
        crate::hevc_demux::first_named(b, name) == b.len(),
    decreases b.len(),
{
    if b.len() > 0 {
        let t = b.skip(1);
        assert(b[0].fourcc != name);
        assert forall|j: int| 0 <= j < t.len() implies (#[trigger] t[j]).fourcc != name by {
            assert(t[j] == b[j + 1]);
        }
        lemma_no_name(t, name);
    }
}

/// Where the boxes of a track stand.
pub struct TrackParts {
    pub trak: Seq<WrittenBox>,
    pub tkhd: int,
    pub mdia: int,
    pub in_mdia: Seq<WrittenBox>,
    pub minf: int,
    pub in_minf: Seq<WrittenBox>,
    pub stbl: int,
    pub in_stbl: Seq<WrittenBox>,
    pub stsd: int,
    /// Version, flags and number of entries.
    pub head: Seq<u8>,
    pub entries: Seq<WrittenBox>,
    pub entry: int,
}

/// A track written as nested boxes: the header beside trak/mdia/minf/stbl/stsd,
/// in which entry `entry` is the first of HEVC.
pub open spec fn track_written(data: Seq<u8>, p: TrackParts) -> bool {
    &&& has_child(data, p.trak, p.tkhd)
    &&& p.trak[p.tkhd].name == name_of('t', 'k', 'h', 'd')
    &&& has_child(data, p.trak, p.mdia)
    &&& p.trak[p.mdia].name == name_of('m', 'd', 'i', 'a')
    &&& has_child(p.trak[p.mdia].payload, p.in_mdia, p.minf)
    &&& p.in_mdia[p.minf].name == name_of('m', 'i', 'n', 'f')
    &&& has_child(p.in_mdia[p.minf].payload, p.in_minf, p.stbl)
    &&& p.in_minf[p.stbl].name == name_of('s', 't', 'b', 'l')
    &&& has_child(p.in_minf[p.stbl].payload, p.in_stbl, p.stsd)
    &&& p.in_stbl[p.stsd].name == name_of('s', 't', 's', 'd')
    &&& p.head.len() == 8
    &&& p.in_stbl[p.stsd].payload == p.head + all_box_bytes(p.entries)
    &&& forall|k: int| 0 <= k < p.entries.len() ==> writable(#[trigger] p.entries[k])
    &&& 0 <= p.entry < p.entries.len()
    &&& p.entries[p.entry].name == name_of('h', 'v', 'c', '1') || p.entries[p.entry].name
        == name_of('h', 'e', 'v', '1')
    &&& forall|k: int|
        0 <= k < p.entry ==> (#[trigger] p.entries[k]).name != name_of('h', 'v', 'c', '1')
            && p.entries[k].name != name_of('h', 'e', 'v', '1')
}

/// Reading undoes writing: a track written as nested boxes gives back the
/// number and the rotation of its header, and the name, configuration and
/// colour of its first HEVC entry.
pub proof fn reading_a_track_undoes_writing(
    data: Seq<u8>,
    p: TrackParts,
    h: TrackHeader,
    config: HvccView,
    colr: Option<(u16, u16, u16)>,
)
    requires
        track_written(data, p),
        header_complete(h),
        p.trak[p.tkhd].payload == header_bytes(h),
        sample_entry(p.entries[p.entry].payload) == Some((config, colr)),
    ensures
        track_of(data) == Some(
            TrackView {
                track_id: h.track_id,
                fourcc: p.entries[p.entry].name,
                config,
                colr,
                rotation: rotation_of(
                    h.matrix[0] as int,
                    h.matrix[1] as int,
                    h.matrix[3] as int,
                    h.matrix[4] as int,
                ),
            },
        ),
{
    child_is_found(data, p.trak, p.tkhd);
    child_is_found(data, p.trak, p.mdia);
    child_is_found(p.trak[p.mdia].payload, p.in_mdia, p.minf);
    child_is_found(p.in_mdia[p.minf].payload, p.in_minf, p.stbl);
    child_is_found(p.in_minf[p.stbl].payload, p.in_stbl, p.stsd);
    reading_a_header_undoes_writing(h, Seq::empty());
    assert(header_bytes(h) + Seq::<u8>::empty() =~= header_bytes(h));
    let stsd = p.in_stbl[p.stsd].payload;
    let inner = all_box_bytes(p.entries);
    assert(stsd.skip(8) =~= inner);
    walking_undoes_writing(p.entries, Seq::empty());
    assert(inner + Seq::<u8>::empty() =~= inner);
    let b = boxes(inner);
    assert forall|j: int| 0 <= j < p.entry implies (#[trigger] b[j]).fourcc != name_of(
        'h',
        'v',
        'c',
        '1',
    ) && b[j].fourcc != name_of('h', 'e', 'v', '1') by {
        assert(b[j].fourcc == p.entries[j].name);
    }
    assert(b[p.entry].fourcc == p.entries[p.entry].name);
    lemma_first_entry(inner, b, p.entry);
}

/// The track of a movie is its first `trak` box that is an HEVC track.
pub proof fn first_track_is_found(list: Seq<WrittenBox>, i: int)
    requires
        forall|k: int| 0 <= k < list.len() ==> writable(#[trigger] list[k]),
        0 <= i < list.len(),
        list[i].name == name_of('t', 'r', 'a', 'k'),
        track_of(list[i].payload) is Some,
        forall|k: int|
            0 <= k < i && (#[trigger] list[k]).name == name_of('t', 'r', 'a', 'k') ==> track_of(
                list[k].payload,
            ) is None,
    ensures
        first_track(all_box_bytes(list), boxes(all_box_bytes(list))) == track_of(list[i].payload),
{
    let moov = all_box_bytes(list);
    walking_undoes_writing(list, Seq::empty());
    assert(moov + Seq::<u8>::empty() =~= moov);
    let b = boxes(moov);
    assert forall|j: int| 0 <= j < i && (#[trigger] b[j]).fourcc == name_of('t', 'r', 'a', 'k')
        implies track_of(moov.subrange(b[j].start, b[j].end)) is None by {
        assert(list[j].name == b[j].fourcc);
    }
    assert(b[i].fourcc == list[i].name);
    lemma_first_track(moov, b, i);
}

proof fn lemma_first_track(moov: Seq<u8>, b: Seq<BoxView>, i: int)
    requires
        0 <= i < b.len(),
        b[i].fourcc == name_of('t', 'r', 'a', 'k'),
        track_of(moov.subrange(b[i].start, b[i].end)) is Some,
        forall|j: int|
            0 <= j < i && (#[trigger] b[j]).fourcc == name_of('t', 'r', 'a', 'k') ==> track_of(
                moov.subrange(b[j].start, b[j].end),
            ) is None,
    ensures
        first_track(moov, b) == track_of(moov.subrange(b[i].start, b[i].end)),
    decreases b.len(),
{
    if i > 0 {
        let t = b.skip(1);
        assert(b[0].fourcc == name_of('t', 'r', 'a', 'k') ==> track_of(
            moov.subrange(b[0].start, b[0].end),
        ) is None);
        assert forall|j: int|
            0 <= j < i - 1 && (#[trigger] t[j]).fourcc == name_of('t', 'r', 'a', 'k') implies track_of(
            moov.subrange(t[j].start, t[j].end),
        ) is None by {
            assert(t[j] == b[j + 1]);
        }
        lemma_first_track(moov, t, i - 1);
    }
}

/// A box of size zero reaches to the end, so that it is the last.
pub proof fn box_without_a_size_is_the_last(data: Seq<u8>, pos: int, name: Seq<u8>)
    requires
        0 <= pos,
        pos + 8 <= data.len(),
        name.len() == 4,
        stands_at(data, pos, high_first(0, 4)),
        stands_at(data, pos + 4, name),
    ensures
        boxes_from(data, pos) == seq![
            BoxView { fourcc: name, start: pos + 8, end: data.len() as int },
        ],
{
    assert(crate::wire::fits(0, 4)) by {
        reveal_with_fuel(crate::wire::fits, 5);
    }
    reading_undoes_writing(data, pos, 0, 4);
    lemma_piece(data, pos + 4, name);
    let n = data.len() as int;
    assert(boxes_from(data, n) =~= Seq::empty());
    assert(data.subrange(pos + 4, pos + 8) =~= name);
    assert(boxes_from(data, pos) =~= seq![
        BoxView { fourcc: name, start: pos + 8, end: n },
    ]);
}

/// A box that states more bytes than there are, or fewer than its own header
/// has, ends the walk.
pub proof fn box_that_does_not_fit_ends_the_walk(data: Seq<u8>, pos: int, size: nat)
    requires
        0 <= pos,
        crate::wire::fits(size, 4),
        stands_at(data, pos, high_first(size, 4)),
        2 <= size < 8 || pos + size > data.len(),
        size != 0,
        size != 1,
    ensures
        boxes_from(data, pos).len() == 0,
{
    reading_undoes_writing(data, pos, size, 4);
}

/// A track header is read where it holds its whole matrix, in the short form
/// or in the long one, and no other form is.
pub proof fn track_headers_end_with_their_matrix(tkhd: Seq<u8>)
    requires
        tkhd.len() > 0,
    ensures
        tkhd[0] == 0 ==> (track_header(tkhd) is Some <==> tkhd.len() >= 40 + 36),
        tkhd[0] == 1 ==> (track_header(tkhd) is Some <==> tkhd.len() >= 52 + 36),
        tkhd[0] > 1 ==> track_header(tkhd) is None,
{
}

} // verus!
