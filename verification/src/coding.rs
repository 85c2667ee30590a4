//! Headers as an encoder writes them: fields of fixed width and Exp-Golomb
//! codes laid down bit by bit, and the reads that give them back.
use crate::bitstream::{
    bit_at, bits_value, escaped, rbsp_of, rbsp_prefix, zero_run, Cursor, ErrorView,
};
use vstd::arithmetic::power2::pow2;
use vstd::prelude::*;

verus! {

/// One field of a header.
pub enum Field {
    /// A number in this many bits, highest bit first.
    Bits(nat, nat),
    /// A single bit.
    Flag(bool),
    /// An unsigned Exp-Golomb code.
    Ue(nat),
    /// A signed Exp-Golomb code.
    Se(int),
}

/// `v` in `n` bits, highest bit first.
pub open spec fn number(v: nat, n: nat) -> Seq<bool>
    decreases n,
{
    if n == 0 {
        Seq::empty()
    } else {
        number(v / 2, (n - 1) as nat).push(v % 2 == 1)
    }
}

/// Number of bits of `v` without leading zeros.
pub open spec fn width(v: nat) -> nat
    decreases v,
{
    if v == 0 {
        0
    } else {
        1 + width(v / 2)
    }
}

/// The Exp-Golomb code of `v`: `v + 1` without leading zeros, behind one zero
/// less than it has bits.
pub open spec fn golomb(v: nat) -> Seq<bool> {
    Seq::new((width(v + 1) - 1) as nat, |i: int| false) + number(v + 1, width(v + 1))
}

/// The bits of a field. A signed number is coded as its place in the order
/// 0, 1, -1, 2, -2, ...
pub open spec fn code(f: Field) -> Seq<bool> {
    match f {
        Field::Bits(v, n) => number(v, n),
        Field::Flag(b) => seq![b],
        Field::Ue(v) => golomb(v),
        Field::Se(v) => golomb(
            if v > 0 {
                (2 * v - 1) as nat
            } else {
                (-2 * v) as nat
            },
        ),
    }
}

/// Whether a field can be written and read: fixed widths hold their number
/// and at most 32 bits, codes have at most 31 leading zeros.
pub open spec fn codable(f: Field) -> bool {
    match f {
        Field::Bits(v, n) => n <= 32 && v < pow2(n),
        Field::Flag(b) => true,
        Field::Ue(v) => v < 0xffff_ffff,
        Field::Se(v) => -0x7fff_ffff <= v <= 0x7fff_ffff,
    }
}

/// The bits of the fields from number `k` on.
pub open spec fn coded(fields: Seq<Field>, k: int) -> Seq<bool>
    decreases fields.len() - k,
{
    if k >= fields.len() {
        Seq::empty()
    } else {
        code(fields[k]) + coded(fields, k + 1)
    }
}

/// Whether bit `i` of `data` is set; the bits of a byte count from the
/// highest.
pub open spec fn is_set(data: Seq<u8>, i: int) -> bool {
    (data[i / 8] as nat / pow2((7 - i % 8) as nat)) % 2 == 1
}

/// `bits` stand at the cursor.
pub open spec fn holds(c: Cursor, bits: Seq<bool>) -> bool {
    &&& c.err is None
    &&& 0 <= c.pos
    &&& c.pos + bits.len() <= c.total()
    &&& forall|i: int| 0 <= i < bits.len() ==> is_set(c.data, #[trigger] (c.pos + i)) == bits[i]
}

/// The fields from number `k` on stand at the cursor.
#[verifier::opaque]
pub open spec fn at(c: Cursor, fields: Seq<Field>, k: int) -> bool {
    &&& 0 <= k <= fields.len()
    &&& holds(c, coded(fields, k))
    &&& forall|i: int| k <= i < fields.len() ==> codable(#[trigger] fields[i])
}

/// Where the fields from number `k` on end, where they stand at the cursor.
pub open spec fn end_of(c: Cursor, fields: Seq<Field>, k: int) -> int {
    c.pos + coded(fields, k).len()
}

/// Bytes that begin with the fields.
pub open spec fn begins_with(data: Seq<u8>, fields: Seq<Field>) -> bool {
    at(Cursor::start(data), fields, 0)
}

/// A bit that is set reads as one.
pub proof fn lemma_bit(data: Seq<u8>, i: int)
    requires
        0 <= i < 8 * data.len(),
    ensures
        bit_at(data, i) == if is_set(data, i) {
            1nat
        } else {
            0
        },
{
    let b = data[i / 8];
    let s = (7 - i % 8) as u8;
    vstd::bits::lemma_u8_shr_is_div(b, s);
    vstd::arithmetic::power2::lemma_pow2_pos(s as nat);
    let x = b >> s;
    assert(x & 1 == x % 2) by (bit_vector);
}

proof fn lemma_holds_split(c: Cursor, a: Seq<bool>, b: Seq<bool>)
    requires
        holds(c, a + b),
    ensures
        holds(c, a),
        holds(Cursor { pos: c.pos + a.len(), ..c }, b),
{
    let d = Cursor { pos: c.pos + a.len(), ..c };
    assert forall|i: int| 0 <= i < a.len() implies is_set(c.data, #[trigger] (c.pos + i))
        == a[i] by {
        assert(is_set(c.data, c.pos + i) == (a + b)[i]);
    }
    assert forall|i: int| 0 <= i < b.len() implies is_set(d.data, #[trigger] (d.pos + i))
        == b[i] by {
        assert(is_set(c.data, c.pos + (a.len() + i)) == (a + b)[a.len() + i]);
    }
}

proof fn lemma_number_len(v: nat, n: nat)
    ensures
        number(v, n).len() == n,
    decreases n,
{
    if n > 0 {
        lemma_number_len(v / 2, (n - 1) as nat);
    }
}

proof fn lemma_number(c: Cursor, v: nat, n: nat)
    requires
        holds(c, number(v, n)),
        v < pow2(n),
    ensures
        bits_value(c.data, c.pos, n) == v,
    decreases n,
{
    vstd::arithmetic::power2::lemma2_to64();
    if n > 0 {
        vstd::arithmetic::power2::lemma_pow2_unfold(n);
        lemma_number_len(v / 2, (n - 1) as nat);
        let front = number(v / 2, (n - 1) as nat);
        assert(number(v, n) =~= front + seq![v % 2 == 1]);
        lemma_holds_split(c, front, seq![v % 2 == 1]);
        lemma_number(c, v / 2, (n - 1) as nat);
        let last = Cursor { pos: c.pos + n - 1, ..c };
        assert(is_set(last.data, last.pos + 0) == seq![v % 2 == 1][0]);
        lemma_bit(c.data, c.pos + n - 1);
    }
}

proof fn lemma_width(v: nat)
    requires
        v >= 1,
    ensures
        width(v) >= 1,
        pow2((width(v) - 1) as nat) <= v < pow2(width(v)),
    decreases v,
{
    vstd::arithmetic::power2::lemma2_to64();
    if v > 1 {
        lemma_width(v / 2);
        vstd::arithmetic::power2::lemma_pow2_unfold(width(v));
        vstd::arithmetic::power2::lemma_pow2_unfold(width(v / 2));
    } else {
        assert(width(0) == 0);
        assert(width(1) == 1);
    }
}

proof fn lemma_width_bound(v: nat)
    requires
        1 <= v < 0x1_0000_0000,
    ensures
        width(v) <= 32,
{
    lemma_width(v);
    if width(v) > 32 {
        vstd::arithmetic::power2::lemma2_to64();
        if width(v) > 33 {
            vstd::arithmetic::power2::lemma_pow2_strictly_increases(32, (width(v) - 1) as nat);
        }
    }
}

/// The highest bit of a number without leading zeros is set.
proof fn lemma_number_first(v: nat, n: nat)
    requires
        n >= 1,
        pow2((n - 1) as nat) <= v < pow2(n),
    ensures
        number(v, n)[0],
        number(v, n).len() == n,
    decreases n,
{
    lemma_number_len(v, n);
    vstd::arithmetic::power2::lemma2_to64();
    vstd::arithmetic::power2::lemma_pow2_unfold(n);
    if n > 1 {
        vstd::arithmetic::power2::lemma_pow2_unfold((n - 1) as nat);
        lemma_number_first(v / 2, (n - 1) as nat);
    } else {
        assert(v == 1);
        assert(number(0, 0).len() == 0);
        assert(number(v, 1) =~= seq![true]);
    }
}

proof fn lemma_zero_run(data: Seq<u8>, pos: int, z: nat)
    requires
        0 <= pos,
        pos + z < 8 * data.len(),
        forall|i: int| 0 <= i < z ==> !is_set(data, #[trigger] (pos + i)),
        is_set(data, pos + z),
    ensures
        zero_run(data, pos) == z,
    decreases z,
{
    lemma_bit(data, pos);
    if z > 0 {
        assert(!is_set(data, pos + 0));
        assert forall|i: int| 0 <= i < z - 1 implies !is_set(data, #[trigger] (pos + 1 + i)) by {
            assert(!is_set(data, pos + (i + 1)));
        }
        lemma_zero_run(data, pos + 1, (z - 1) as nat);
    }
}

proof fn lemma_golomb(c: Cursor, v: nat)
    requires
        holds(c, golomb(v)),
        v < 0xffff_ffff,
    ensures
        c.ue() == (v, Cursor { pos: c.pos + golomb(v).len(), ..c }),
{
    let w = width(v + 1);
    lemma_width(v + 1);
    lemma_width_bound(v + 1);
    let z = (w - 1) as nat;
    let zeros = Seq::new(z, |i: int| false);
    lemma_number_len(v + 1, w);
    lemma_number_first(v + 1, w);
    lemma_holds_split(c, zeros, number(v + 1, w));
    let d = Cursor { pos: c.pos + z, ..c };
    lemma_number(d, v + 1, w);
    assert forall|i: int| 0 <= i < z implies !is_set(c.data, #[trigger] (c.pos + i)) by {
        assert(!zeros[i]);
    }
    assert(is_set(d.data, d.pos + 0) == number(v + 1, w)[0]);
    lemma_zero_run(c.data, c.pos, z);
    crate::bitstream::ue_reads_exp_golomb_code(c, z, v);
}

/// Reading the next field gives what was written, and the fields behind it
/// stand at the cursor that is left.
pub proof fn step(c: Cursor, fields: Seq<Field>, k: int) -> (next: Cursor)
    requires
        at(c, fields, k),
        0 <= k < fields.len(),
    ensures
        at(next, fields, k + 1),
        c.err is None,
        next.err is None,
        next.data == c.data,
        next.pos == c.pos + code(fields[k]).len(),
        end_of(next, fields, k + 1) == end_of(c, fields, k),
        match fields[k] {
            Field::Bits(v, n) => c.u(n) == (v, next),
            Field::Flag(b) => c.flag() == (b, next),
            Field::Ue(v) => c.ue() == (v, next),
            Field::Se(v) => c.se() == (v, next),
        },
{
    reveal(at);
    let f = fields[k];
    let next = Cursor { pos: c.pos + code(f).len(), ..c };
    lemma_holds_split(c, code(f), coded(fields, k + 1));
    match f {
        Field::Bits(v, n) => {
            lemma_number_len(v, n);
            lemma_number(c, v, n);
            reveal(Cursor::u);
            vstd::arithmetic::power2::lemma2_to64();
            if n < 32 {
                vstd::arithmetic::power2::lemma_pow2_strictly_increases(n, 32);
            }
            vstd::arithmetic::div_mod::lemma_small_mod(v, 0x1_0000_0000);
        },
        Field::Flag(b) => {
            reveal(Cursor::u);
            reveal_with_fuel(bits_value, 2);
            assert(is_set(c.data, c.pos + 0) == seq![b][0]);
            lemma_bit(c.data, c.pos);
        },
        Field::Ue(v) => {
            lemma_golomb(c, v);
        },
        Field::Se(v) => {
            let k = if v > 0 {
                (2 * v - 1) as nat
            } else {
                (-2 * v) as nat
            };
            lemma_golomb(c, k);
        },
    }
    next
}

/// The fields `part` stand in `fields` from number `k` on.
#[verifier::opaque]
pub open spec fn part_at(fields: Seq<Field>, k: int, part: Seq<Field>) -> bool {
    &&& 0 <= k
    &&& k + part.len() <= fields.len()
    &&& forall|i: int| 0 <= i < part.len() ==> #[trigger] fields[k + i] == part[i]
}

/// Where fields stand, no read has failed.
pub proof fn lemma_no_error(c: Cursor, fields: Seq<Field>, k: int)
    requires
        at(c, fields, k),
    ensures
        c.err is None,
        0 <= c.pos <= c.total(),
{
    reveal(at);
}

/// A part of two pieces stands piece by piece.
pub proof fn lemma_part_split(fields: Seq<Field>, k: int, a: Seq<Field>, b: Seq<Field>)
    requires
        part_at(fields, k, a + b),
    ensures
        part_at(fields, k, a),
        part_at(fields, k + a.len(), b),
{
    reveal(part_at);
    assert forall|i: int| 0 <= i < a.len() implies #[trigger] fields[k + i] == a[i] by {
        assert(fields[k + i] == (a + b)[i]);
    }
    assert forall|i: int| 0 <= i < b.len() implies #[trigger] fields[k + a.len() + i] == b[i] by {
        assert(fields[k + (a.len() + i)] == (a + b)[a.len() + i]);
    }
}

/// The whole stands from the start.
pub proof fn lemma_part_whole(fields: Seq<Field>)
    ensures
        part_at(fields, 0, fields),
{
    reveal(part_at);
}

/// Reading the field that a part holds at its place `i`.
pub proof fn step_part(c: Cursor, fields: Seq<Field>, k: int, part: Seq<Field>, i: int) -> (next:
    Cursor)
    requires
        at(c, fields, k + i),
        part_at(fields, k, part),
        0 <= i < part.len(),
    ensures
        at(next, fields, k + i + 1),
        c.err is None,
        next.err is None,
        next.data == c.data,
        next.pos == c.pos + code(part[i]).len(),
        end_of(next, fields, k + i + 1) == end_of(c, fields, k + i),
        match part[i] {
            Field::Bits(v, n) => c.u(n) == (v, next),
            Field::Flag(b) => c.flag() == (b, next),
            Field::Ue(v) => c.ue() == (v, next),
            Field::Se(v) => c.se() == (v, next),
        },
{
    reveal(part_at);
    reveal(at);
    assert(fields[k + i] == part[i]);
    step(c, fields, k + i)
}

/// Fields that bytes begin with stay when more bytes follow.
proof fn lemma_begins_longer(a: Seq<u8>, b: Seq<u8>, fields: Seq<Field>)
    requires
        begins_with(a, fields),
        a.is_prefix_of(b),
    ensures
        begins_with(b, fields),
{
    reveal(at);
    let c = Cursor::start(b);
    let bits = coded(fields, 0);
    assert forall|i: int| 0 <= i < bits.len() implies is_set(b, #[trigger] (c.pos + i))
        == bits[i] by {
        assert(is_set(a, Cursor::start(a).pos + i) == bits[i]);
        assert(a[i / 8] == b[i / 8]);
    }
}

proof fn lemma_rbsp_prefix_grows(s: Seq<u8>, m: nat, n: nat)
    requires
        m <= n,
    ensures
        rbsp_prefix(s, m).is_prefix_of(rbsp_prefix(s, n)),
    decreases n,
{
    if m < n {
        lemma_rbsp_prefix_grows(s, m, (n - 1) as nat);
    }
}

/// A payload that was escaped for transport comes first in what stripping
/// gives, whatever follows it.
pub proof fn stripped_payload_comes_first(payload: Seq<u8>, behind: Seq<u8>)
    ensures
        payload.is_prefix_of(rbsp_of(escaped(payload) + behind)),
        rbsp_of(escaped(payload) + Seq::<u8>::empty()) == payload,
{
    let e = escaped(payload);
    let all = e + behind;
    crate::bitstream::rbsp_undoes_escaping(payload);
    crate::bitstream::lemma_rbsp_prefix_local(e, all, e.len());
    lemma_rbsp_prefix_grows(all, e.len(), all.len());
    assert(e + Seq::<u8>::empty() =~= e);
}

/// Fields that a payload begins with are found behind the header bytes of its
/// NAL.
pub proof fn lemma_nal_begins(
    head: Seq<u8>,
    payload: Seq<u8>,
    behind: Seq<u8>,
    nal: Seq<u8>,
    fields: Seq<Field>,
)
    requires
        begins_with(payload, fields),
        nal == head + (escaped(payload) + behind),
    ensures
        begins_with(rbsp_of(nal.skip(head.len() as int)), fields),
{
    assert(nal.skip(head.len() as int) =~= escaped(payload) + behind);
    stripped_payload_comes_first(payload, behind);
    lemma_begins_longer(payload, rbsp_of(escaped(payload) + behind), fields);
}

/// The same where the NAL is cut off behind the payload.
pub proof fn lemma_cut_nal_begins(
    head: Seq<u8>,
    payload: Seq<u8>,
    behind: Seq<u8>,
    nal: Seq<u8>,
    end: int,
    fields: Seq<Field>,
)
    requires
        begins_with(payload, fields),
        nal == head + (escaped(payload) + behind),
        head.len() + escaped(payload).len() <= end <= nal.len(),
    ensures
        begins_with(rbsp_of(nal.subrange(head.len() as int, end)), fields),
{
    let kept = behind.take(end - head.len() - escaped(payload).len());
    assert(nal.subrange(head.len() as int, end) =~= escaped(payload) + kept);
    stripped_payload_comes_first(payload, kept);
    lemma_begins_longer(payload, rbsp_of(escaped(payload) + kept), fields);
}

/// Fields that are there where a condition holds.
pub open spec fn or_none(cond: bool, fields: Seq<Field>) -> Seq<Field> {
    if cond {
        fields
    } else {
        Seq::empty()
    }
}

/// A field that is read where it was written.
pub proof fn lemma_optional(c: Cursor, fs: Seq<Field>, k: int, cond: bool, part: Seq<Field>) -> (next:
    Cursor)
    requires
        at(c, fs, k),
        part_at(fs, k, or_none(cond, part)),
        part.len() == 1,
    ensures
        at(next, fs, k + or_none(cond, part).len()),
        end_of(next, fs, k + or_none(cond, part).len()) == end_of(
            c,
            fs,
            k,
        ),
        next.data == c.data,
        !cond ==> next == c,
        cond ==> match part[0] {
            Field::Bits(v, n) => c.u(n) == (v, next),
            Field::Flag(b) => c.flag() == (b, next),
            Field::Ue(v) => c.ue() == (v, next),
            Field::Se(v) => c.se() == (v, next),
        },
{
    if cond {
        step_part(c, fs, k, part, 0)
    } else {
        c
    }
}

/// A part of a header takes the bits of its fields.
pub proof fn lemma_part_len(fields: Seq<Field>, k: int, part: Seq<Field>, i: int)
    requires
        part_at(fields, k, part),
        0 <= i <= part.len(),
    ensures
        coded(fields, k + i).len() == coded(part, i).len() + coded(fields, k + part.len()).len(),
    decreases part.len() - i,
{
    reveal(part_at);
    if i < part.len() {
        lemma_part_len(fields, k, part, i + 1);
        assert(fields[k + i] == part[i]);
    }
}

/// A field that reaches behind the last bit is not read: the reader fails and
/// stands at the end. An Exp-Golomb code behind thirty-two bits that are not
/// set fails as malformed, and one whose bits that are not set reach to the
/// end fails there.
pub proof fn reading_behind_the_end_fails(c: Cursor, n: nat)
    requires
        c.err is None,
        0 <= c.pos <= 8 * c.data.len(),
    ensures
        c.pos + n > 8 * c.data.len() ==> c.u(n).1 == (Cursor {
            data: c.data,
            pos: 8 * c.data.len() as int,
            err: Some(ErrorView::Eof),
        }),
        c.pos + 32 <= 8 * c.data.len() && (forall|i: int|
            c.pos <= i < c.pos + 32 ==> !#[trigger] is_set(c.data, i)) ==> c.ue().1.err == Some(
            ErrorView::Malformed("ue > 31 leading zeros"@),
        ),
        8 * c.data.len() < c.pos + 32 && (forall|i: int|
            c.pos <= i < 8 * c.data.len() ==> !#[trigger] is_set(c.data, i)) ==> c.ue().1.err
            == Some(ErrorView::Eof),
{
    reveal(Cursor::u);
    reveal(Cursor::ue);
    if c.pos + 32 <= 8 * c.data.len() && (forall|i: int|
        c.pos <= i < c.pos + 32 ==> !#[trigger] is_set(c.data, i)) {
        lemma_run_of_zeros(c.data, c.pos, c.pos + 32);
    }
    if 8 * c.data.len() < c.pos + 32 && (forall|i: int|
        c.pos <= i < 8 * c.data.len() ==> !#[trigger] is_set(c.data, i)) {
        lemma_run_of_zeros(c.data, c.pos, 8 * c.data.len() as int);
        lemma_run_ends(c.data, c.pos);
    }
}

proof fn lemma_run_of_zeros(data: Seq<u8>, pos: int, end: int)
    requires
        0 <= pos <= end <= 8 * data.len(),
        forall|i: int| pos <= i < end ==> !#[trigger] is_set(data, i),
    ensures
        zero_run(data, pos) >= end - pos,
    decreases end - pos,
{
    if pos < end {
        lemma_bit(data, pos);
        assert(!is_set(data, pos));
        lemma_run_of_zeros(data, pos + 1, end);
    }
}

proof fn lemma_run_ends(data: Seq<u8>, pos: int)
    requires
        0 <= pos <= 8 * data.len(),
    ensures
        pos + zero_run(data, pos) <= 8 * data.len(),
    decreases 8 * data.len() - pos,
{
    if pos < 8 * data.len() {
        lemma_run_ends(data, pos + 1);
    }
}

/// More data follows where a bit behind the next one is set, and only there:
/// the last bit that is set ends the data.
pub proof fn last_set_bit_ends_the_data(c: Cursor, i: int)
    requires
        0 <= c.pos,
    ensures
        c.pos < i < 8 * c.data.len() && is_set(c.data, i) ==> c.more_rbsp_data(),
        (forall|k: int| c.pos < k < 8 * c.data.len() ==> !#[trigger] is_set(c.data, k))
            ==> !c.more_rbsp_data(),
{
    if c.pos < i < 8 * c.data.len() {
        lemma_bit(c.data, i);
    }
    if c.more_rbsp_data() {
        let k = choose|k: int|
            c.pos < k < c.total() && #[trigger] bit_at(c.data, k) == 1;
        lemma_bit(c.data, k);
        assert(is_set(c.data, k));
    }
}

} // verus!
