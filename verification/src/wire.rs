//! Numbers as a writer lays them down in bytes, and what it means for a file
//! to hold such bytes at a place. The laws that reading undoes writing are
//! stated over these.
use vstd::prelude::*;

verus! {

/// `v` in `n` bytes, lowest first.
pub open spec fn low_first(v: nat, n: nat) -> Seq<u8>
    decreases n,
{
    if n == 0 {
        Seq::empty()
    } else {
        seq![(v % 256) as u8] + low_first(v / 256, (n - 1) as nat)
    }
}

/// `v` in `n` bytes, highest first.
pub open spec fn high_first(v: nat, n: nat) -> Seq<u8>
    decreases n,
{
    if n == 0 {
        Seq::empty()
    } else {
        high_first(v / 256, (n - 1) as nat).push((v % 256) as u8)
    }
}

/// `bytes` stand in `data` from `pos` on.
pub open spec fn stands_at(data: Seq<u8>, pos: int, bytes: Seq<u8>) -> bool {
    &&& 0 <= pos
    &&& pos + bytes.len() <= data.len()
    &&& forall|i: int| 0 <= i < bytes.len() ==> #[trigger] data[pos + i] == bytes[i]
}

/// What stands somewhere stands there piece by piece.
pub proof fn lemma_stands_in_pieces(data: Seq<u8>, pos: int, a: Seq<u8>, b: Seq<u8>)
    requires
        stands_at(data, pos, a + b),
    ensures
        stands_at(data, pos, a),
        stands_at(data, pos + a.len(), b),
{
    assert forall|i: int| 0 <= i < a.len() implies #[trigger] data[pos + i] == a[i] by {
        assert(data[pos + i] == (a + b)[i]);
    }
    assert forall|i: int| 0 <= i < b.len() implies #[trigger] data[pos + a.len() + i] == b[i] by {
        assert(data[pos + (a.len() + i)] == (a + b)[a.len() + i]);
    }
}

/// A number has as many bytes as it is written in.
pub broadcast proof fn lemma_low_first_len(v: nat, n: nat)
    ensures
        #[trigger] low_first(v, n).len() == n,
    decreases n,
{
    if n > 0 {
        lemma_low_first_len(v / 256, (n - 1) as nat);
    }
}

/// A number has as many bytes as it is written in.
pub broadcast proof fn lemma_high_first_len(v: nat, n: nat)
    ensures
        #[trigger] high_first(v, n).len() == n,
    decreases n,
{
    if n > 0 {
        lemma_high_first_len(v / 256, (n - 1) as nat);
    }
}

/// The bytes of a number whose low byte is split off.
proof fn lemma_low_first_byte(data: Seq<u8>, pos: int, v: nat, n: nat)
    requires
        n > 0,
        stands_at(data, pos, low_first(v, n)),
    ensures
        data[pos] == v % 256,
        stands_at(data, pos + 1, low_first(v / 256, (n - 1) as nat)),
{
    lemma_stands_in_pieces(
        data,
        pos,
        seq![(v % 256) as u8],
        low_first(v / 256, (n - 1) as nat),
    );
    assert(data[pos + 0] == seq![(v % 256) as u8][0]);
}

/// Four bytes, lowest first.
pub proof fn lemma_four_low_first(data: Seq<u8>, pos: int, v: u32)
    requires
        stands_at(data, pos, low_first(v as nat, 4)),
    ensures
        data[pos] + 0x100 * data[pos + 1] + 0x1_0000 * data[pos + 2] + 0x100_0000 * data[pos + 3]
            == v,
{
    let v0 = v as nat;
    let v1 = v0 / 256;
    let v2 = v1 / 256;
    let v3 = v2 / 256;
    lemma_low_first_byte(data, pos, v0, 4);
    lemma_low_first_byte(data, pos + 1, v1, 3);
    lemma_low_first_byte(data, pos + 2, v2, 2);
    lemma_low_first_byte(data, pos + 3, v3, 1);
}

/// Eight bytes, lowest first.
pub proof fn lemma_eight_low_first(data: Seq<u8>, pos: int, v: u64)
    requires
        stands_at(data, pos, low_first(v as nat, 8)),
    ensures
        data[pos] + 0x100 * data[pos + 1] + 0x1_0000 * data[pos + 2] + 0x100_0000 * data[pos + 3]
            + 0x1_0000_0000 * data[pos + 4] + 0x100_0000_0000 * data[pos + 5] + 0x1_0000_0000_0000
            * data[pos + 6] + 0x100_0000_0000_0000 * data[pos + 7] == v,
{
    let v0 = v as nat;
    let v1 = v0 / 256;
    let v2 = v1 / 256;
    let v3 = v2 / 256;
    let v4 = v3 / 256;
    let v5 = v4 / 256;
    let v6 = v5 / 256;
    let v7 = v6 / 256;
    lemma_low_first_byte(data, pos, v0, 8);
    lemma_low_first_byte(data, pos + 1, v1, 7);
    lemma_low_first_byte(data, pos + 2, v2, 6);
    lemma_low_first_byte(data, pos + 3, v3, 5);
    lemma_low_first_byte(data, pos + 4, v4, 4);
    lemma_low_first_byte(data, pos + 5, v5, 3);
    lemma_low_first_byte(data, pos + 6, v6, 2);
    lemma_low_first_byte(data, pos + 7, v7, 1);
}

/// Whether `n` bytes are enough for `v`.
pub open spec fn fits(v: nat, n: nat) -> bool
    decreases n,
{
    if n == 0 {
        v == 0
    } else {
        fits(v / 256, (n - 1) as nat)
    }
}

/// One, two, four and eight bytes hold the numbers one expects.
pub proof fn lemma_fits(v: nat)
    ensures
        v < 0x1_0000 ==> fits(v, 2),
        v < 0x1_0000_0000 ==> fits(v, 4),
        v < 0x1_0000_0000_0000_0000 ==> fits(v, 8),
{
    reveal_with_fuel(fits, 9);
}

/// Eight bytes, highest first.
pub proof fn lemma_eight_high_first(data: Seq<u8>, pos: int, v: u64)
    requires
        stands_at(data, pos, high_first(v as nat, 8)),
    ensures
        data[pos + 7] + 0x100 * data[pos + 6] + 0x1_0000 * data[pos + 5] + 0x100_0000 * data[pos + 4]
            + 0x1_0000_0000 * data[pos + 3] + 0x100_0000_0000 * data[pos + 2] + 0x1_0000_0000_0000
            * data[pos + 1] + 0x100_0000_0000_0000 * data[pos] == v,
{
    let v0 = v as nat;
    let v1 = v0 / 256;
    let v2 = v1 / 256;
    let v3 = v2 / 256;
    let v4 = v3 / 256;
    let v5 = v4 / 256;
    let v6 = v5 / 256;
    let v7 = v6 / 256;
    lemma_high_first_byte(data, pos, v0, 8);
    lemma_high_first_byte(data, pos, v1, 7);
    lemma_high_first_byte(data, pos, v2, 6);
    lemma_high_first_byte(data, pos, v3, 5);
    lemma_high_first_byte(data, pos, v4, 4);
    lemma_high_first_byte(data, pos, v5, 3);
    lemma_high_first_byte(data, pos, v6, 2);
    lemma_high_first_byte(data, pos, v7, 1);
}

proof fn lemma_high_first_byte(data: Seq<u8>, pos: int, v: nat, n: nat)
    requires
        n > 0,
        stands_at(data, pos, high_first(v, n)),
    ensures
        data[pos + n - 1] == v % 256,
        stands_at(data, pos, high_first(v / 256, (n - 1) as nat)),
{
    let front = high_first(v / 256, (n - 1) as nat);
    let last = seq![(v % 256) as u8];
    lemma_high_first_len(v / 256, (n - 1) as nat);
    assert(high_first(v, n) =~= front + last);
    lemma_stands_in_pieces(data, pos, front, last);
    assert(data[(pos + n - 1) + 0] == last[0]);
}

} // verus!
