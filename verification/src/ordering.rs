//! Ranking by key, medians, and order-preserving selection. A float is ranked
//! by its bits as a key.
use vstd::prelude::*;

verus! {

/// Key of a 32-bit float's bits: keys order as the floats do, negative before
/// positive, and from the most negative up.
pub open spec fn float_key(bits: u32) -> u32 {
    if bits >= 0x8000_0000 {
        (0xffff_ffff - bits) as u32
    } else {
        (bits + 0x8000_0000) as u32
    }
}

pub fn total_key(bits: u32) -> (k: u32)
    ensures
        k == float_key(bits),
{
    if bits >= 0x8000_0000 {
        0xffff_ffff - bits
    } else {
        bits + 0x8000_0000
    }
}

/// The bits whose key this is.
pub fn bits_of_key(k: u32) -> (bits: u32)
    ensures
        float_key(bits) == k,
{
    if k < 0x8000_0000 {
        0xffff_ffff - k
    } else {
        k - 0x8000_0000
    }
}

/// Distinct bits have distinct keys.
pub proof fn keys_tell_bits_apart(a: u32, b: u32)
    ensures
        float_key(a) == float_key(b) ==> a == b,
{
}

/// Whether place `a` ranks before place `b`: by key, and by place where the
/// keys agree.
pub open spec fn ranks_before(keys: Seq<u64>, a: int, b: int) -> bool {
    keys[a] < keys[b] || (keys[a] == keys[b] && a < b)
}

/// `order` lists distinct places of `keys`, each before the next in rank.
pub open spec fn is_ranked(keys: Seq<u64>, order: Seq<usize>) -> bool {
    &&& forall|i: int| 0 <= i < order.len() ==> (#[trigger] order[i]) < keys.len()
    &&& forall|i: int, j: int|
        0 <= i < j < order.len() ==> ranks_before(
            keys,
            #[trigger] order[i] as int,
            #[trigger] order[j] as int,
        )
}

/// Whether every entry of `a` ranks before the entries of `b` from the `i`-th
/// on.
spec fn all_before(keys: Seq<u64>, a: Seq<usize>, b: Seq<usize>, i: int) -> bool {
    forall|k: int, l: int|
        0 <= k < a.len() && i <= l < b.len() ==> ranks_before(
            keys,
            #[trigger] a[k] as int,
            #[trigger] b[l] as int,
        )
}

/// Puts two ranked lists together. Where the keys agree the first list goes
/// first, so its places lie before those of the second.
fn merge(keys: &[u64], a: &Vec<usize>, b: &Vec<usize>) -> (order: Vec<usize>)
    requires
        is_ranked(keys@, a@),
        is_ranked(keys@, b@),
        a@.len() + b@.len() <= usize::MAX,
        forall|i: int, j: int|
            0 <= i < a@.len() && 0 <= j < b@.len() ==> (#[trigger] a@[i]) < (#[trigger] b@[j]),
    ensures
        is_ranked(keys@, order@),
        order@.len() == a@.len() + b@.len(),
        forall|k: int|
            0 <= k < order@.len() ==> a@.contains(#[trigger] order@[k]) || b@.contains(order@[k]),
        forall|p: usize| a@.contains(p) || b@.contains(p) ==> #[trigger] order@.contains(p),
{
    let mut order: Vec<usize> = Vec::new();
    let mut i: usize = 0;
    let mut j: usize = 0;
    while i < a.len() || j < b.len()
        invariant
            i <= a@.len(),
            j <= b@.len(),
            a@.len() + b@.len() <= usize::MAX,
            order@.len() == i + j,
            is_ranked(keys@, a@),
            is_ranked(keys@, b@),
            is_ranked(keys@, order@),
            all_before(keys@, order@, a@, i as int),
            all_before(keys@, order@, b@, j as int),
            forall|i: int, j: int|
                0 <= i < a@.len() && 0 <= j < b@.len() ==> (#[trigger] a@[i]) < (#[trigger] b@[j]),
            forall|k: int|
                0 <= k < order@.len() ==> a@.contains(#[trigger] order@[k]) || b@.contains(
                    order@[k],
                ),
            forall|l: int| 0 <= l < i ==> order@.contains(#[trigger] a@[l]),
            forall|l: int| 0 <= l < j ==> order@.contains(#[trigger] b@[l]),
        decreases a@.len() + b@.len() - i - j,
    {
        let ghost before = order@;
        let first: bool = i < a.len() && (j >= b.len() || keys[a[i]] <= keys[b[j]]);
        if first {
            assert(a@.contains(a@[i as int]));
            order.push(a[i]);
            i = i + 1;
        } else {
            assert(b@.contains(b@[j as int]));
            order.push(b[j]);
            j = j + 1;
        }
        proof {
            let last = order@.len() - 1;
            assert forall|p: usize| before.contains(p) implies order@.contains(p) by {
                let k = choose|k: int| 0 <= k < before.len() && before[k] == p;
                assert(order@[k] == p);
            }
            assert(order@.contains(order@[last]));
            assert(forall|k: int| 0 <= k < last ==> order@[k] == before[k]);
        }
    }
    order
}

/// The places from `lo` to below `hi` in rank order.
fn rank_range(keys: &[u64], lo: usize, hi: usize) -> (order: Vec<usize>)
    requires
        lo <= hi <= keys@.len(),
    ensures
        is_ranked(keys@, order@),
        order@.len() == hi - lo,
        forall|i: int| 0 <= i < order@.len() ==> lo <= (#[trigger] order@[i]) < hi,
        forall|p: usize| lo <= p < hi ==> #[trigger] order@.contains(p),
    decreases hi - lo,
{
    let mut order: Vec<usize> = Vec::new();
    if hi - lo == 1 {
        order.push(lo);
        assert(order@[0] == lo);
    } else if hi - lo > 1 {
        let mid: usize = lo + (hi - lo) / 2;
        let a = rank_range(keys, lo, mid);
        let b = rank_range(keys, mid, hi);
        order = merge(keys, &a, &b);
        proof {
            assert forall|i: int| 0 <= i < order@.len() implies lo <= (#[trigger] order@[i])
                < hi by {
                assert(a@.contains(order@[i]) || b@.contains(order@[i]));
            }
            assert forall|p: usize| lo <= p < hi implies #[trigger] order@.contains(p) by {
                assert(a@.contains(p) || b@.contains(p));
            }
        }
    }
    order
}

/// All places in rank order.
pub fn rank(keys: &[u64]) -> (order: Vec<usize>)
    ensures
        is_ranked(keys@, order@),
        order@.len() == keys@.len(),
        forall|p: usize| p < keys@.len() ==> #[trigger] order@.contains(p),
{
    rank_range(keys, 0, keys.len())
}

/// The `want` places of least key, least first; places with the same key in
/// their order.
pub fn take_least(keys: &[u64], want: usize) -> (picked: Vec<usize>)
    ensures
        picked@.len() == vstd::math::min(want as int, keys@.len() as int),
        is_ranked(keys@, picked@),
        forall|p: usize, i: int|
            p < keys@.len() && 0 <= i < picked@.len() && !#[trigger] picked@.contains(p)
                ==> ranks_before(keys@, #[trigger] picked@[i] as int, p as int),
{
    let order = rank(keys);
    let mut picked: Vec<usize> = Vec::new();
    let mut i: usize = 0;
    while i < order.len() && i < want
        invariant
            i <= order@.len(),
            i <= want,
            picked@ == order@.take(i as int),
        decreases order@.len() - i,
    {
        picked.push(order[i]);
        assert(order@.take(i + 1) =~= order@.take(i as int).push(order@[i as int]));
        i = i + 1;
    }
    proof {
        assert forall|p: usize, i: int|
            p < keys@.len() && 0 <= i < picked@.len() && !#[trigger] picked@.contains(
                p,
            ) implies ranks_before(keys@, #[trigger] picked@[i] as int, p as int) by {
            assert(order@.contains(p));
            let j = choose|j: int| 0 <= j < order@.len() && order@[j] == p;
            if j < picked@.len() {
                assert(picked@[j] == p);
            }
            assert(picked@[i] == order@[i]);
            assert(order@[j] == p);
        }
    }
    picked
}

/// `order` lists all places of `keys` in rank order.
pub open spec fn is_ranking(keys: Seq<u64>, order: Seq<usize>) -> bool {
    is_ranked(keys, order) && order.len() == keys.len()
}

/// The middle key: of the keys in order, the one at half the length.
pub fn median_key(keys: &[u64]) -> (m: u64)
    requires
        keys@.len() > 0,
    ensures
        exists|order: Seq<usize>|
            #[trigger] is_ranking(keys@, order) && m == keys@[order[keys@.len() as int
                / 2] as int],
{
    let order = rank(keys);
    let mid: usize = order[keys.len() / 2];
    assert(is_ranking(keys@, order@));
    keys[mid]
}

/// The numbers whose key is at most `cut`, in order.
pub open spec fn kept(errs: Seq<(usize, u64)>, cut: u64) -> Seq<usize>
    decreases errs.len(),
{
    if errs.len() == 0 {
        Seq::empty()
    } else if errs.last().1 <= cut {
        kept(errs.drop_last(), cut).push(errs.last().0)
    } else {
        kept(errs.drop_last(), cut)
    }
}

/// Drops the entries whose key is beyond `cut`.
pub fn keep_within(errs: &[(usize, u64)], cut: u64) -> (out: Vec<usize>)
    ensures
        out@ == kept(errs@, cut),
{
    let mut out: Vec<usize> = Vec::new();
    let mut i: usize = 0;
    assert(errs@.take(0) =~= Seq::<(usize, u64)>::empty());
    while i < errs.len()
        invariant
            i <= errs@.len(),
            out@ == kept(errs@.take(i as int), cut),
        decreases errs@.len() - i,
    {
        assert(errs@.take(i + 1).drop_last() =~= errs@.take(i as int));
        if errs[i].1 <= cut {
            out.push(errs[i].0);
        }
        i = i + 1;
    }
    assert(errs@.take(i as int) =~= errs@);
    out
}

/// Where a float stands among all floats, from its bits: the sign bit counts
/// the rest downward.
pub open spec fn float_place(bits: u32) -> int {
    if bits as int / 0x8000_0000 == 1 {
        -1 - bits as int % 0x8000_0000
    } else {
        bits as int % 0x8000_0000
    }
}

/// Keys order as the floats do: every negative before every positive one,
/// larger magnitudes further out.
pub proof fn keys_order_as_the_floats(a: u32, b: u32)
    ensures
        float_key(a) < float_key(b) <==> float_place(a) < float_place(b),
{
}

/// The entries that are kept are those within the cut, in order and each
/// once.
pub proof fn entries_within_the_cut_are_kept(errs: Seq<(usize, u64)>, cut: u64)
    ensures
        kept(errs, cut) == errs.filter(|e: (usize, u64)| e.1 <= cut).map_values(
            |e: (usize, u64)| e.0,
        ),
    decreases errs.len(),
{
    reveal(Seq::filter);
    let within = |e: (usize, u64)| e.1 <= cut;
    let number = |e: (usize, u64)| e.0;
    if errs.len() > 0 {
        entries_within_the_cut_are_kept(errs.drop_last(), cut);
        let front = errs.drop_last().filter(within);
        if errs.last().1 <= cut {
            assert(errs.filter(within) == front.push(errs.last()));
            assert(front.push(errs.last()).map_values(number) =~= front.map_values(number).push(
                errs.last().0,
            ));
        }
    }
    assert(kept(errs, cut) =~= errs.filter(within).map_values(number));
}

/// Keys rise along a ranking, and places of one key rise too; a place that
/// ranks behind another has no lower key.
pub proof fn keys_rise_along_a_ranking(keys: Seq<u64>, order: Seq<usize>, i: int, j: int, p: int)
    requires
        is_ranked(keys, order),
        0 <= i < j < order.len(),
    ensures
        keys[order[i] as int] <= keys[order[j] as int],
        keys[order[i] as int] == keys[order[j] as int] ==> order[i] < order[j],
        ranks_before(keys, order[i] as int, p) ==> keys[order[i] as int] <= keys[p],
{
}

} // verus!
