//! H.265 reference picture sets as an encoder writes them, and the sequence
//! parameter sets and slice headers that hold them, with the laws that
//! reading gives back what was written.
use crate::bitstream::{escaped, rbsp_of, Cursor, ErrorView};
use crate::coding::{
    at, begins_with, coded, end_of, lemma_optional, or_none, part_at, step_part, Field,
};
use crate::h265::{
    address_syntax, blocks_syntax, candidate_flags, candidates, crop_syntax, depth_syntax,
    explicit_half, explicit_rps, kept, long_term_syntax, ordering_syntax, predicted_rps, rps_views,
    set_list_syntax, sets_syntax, skip_flags, slice_header_bytes, slice_header_syntax,
    slice_refs_syntax, sps_syntax, st_rps_syntax, tools_syntax, window_syntax, Candidate, H265Pps,
    H265SliceHeaderView, H265SliceType, H265Sps, H265SpsView, StRpsView,
};
use crate::h265_writing::{lemma_small, ptl_agrees, ptl_fields, WrittenPtl};
use vstd::arithmetic::power2::pow2;
use vstd::prelude::*;

verus! {

/// The first `n` pictures of one half: how many counts lie between a picture
/// and the one before it, and whether it is used.
pub open spec fn half_fields(half: Seq<(i32, bool)>, n: nat) -> Seq<Field>
    decreases n,
{
    if n == 0 {
        Seq::empty()
    } else {
        let before = if n == 1 {
            0
        } else {
            half[n - 2].0 as int
        };
        let gap = half[n - 1].0 - before;
        half_fields(half, (n - 1) as nat) + seq![
            Field::Ue(
                (if gap < 0 {
                    -gap - 1
                } else {
                    gap - 1
                }) as nat,
            ),
            Field::Flag(half[n - 1].1),
        ]
    }
}

/// A set that is written out.
pub open spec fn explicit_fields(set: StRpsView) -> Seq<Field> {
    seq![Field::Ue(set.neg.len()), Field::Ue(set.pos.len())] + (half_fields(
        set.neg,
        set.neg.len(),
    ) + half_fields(set.pos, set.pos.len()))
}

proof fn lemma_half(
    c: Cursor,
    fs: Seq<Field>,
    k: int,
    half: Seq<(i32, bool)>,
    n: nat,
    sign: int,
) -> (next: Cursor)
    requires
        at(c, fs, k),
        part_at(fs, k, half_fields(half, n)),
        n <= half.len(),
        sign == 1 || sign == -1,
        half.len() > 0 ==> if sign == 1 {
            half[0].0 > 0
        } else {
            half[0].0 < 0
        },
        forall|i: int, j: int|
            0 <= i < j < half.len() ==> if sign == 1 {
                (#[trigger] half[i]).0 < (#[trigger] half[j]).0
            } else {
                half[i].0 > half[j].0
            },
    ensures
        at(next, fs, k + half_fields(half, n).len()),
        end_of(next, fs, k + half_fields(half, n).len()) == end_of(c, fs, k),
        explicit_half(c, n, sign).1 == next,
        explicit_half(c, n, sign).0 == half.take(n as int),
        next.data == c.data,
    decreases n,
{
    if n == 0 {
        assert(half.take(0) =~= Seq::empty());
        c
    } else {
        let before = if n == 1 {
            0
        } else {
            half[n - 2].0 as int
        };
        let d = half[n - 1].0;
        let gap = d - before;
        let v = (if gap < 0 {
            -gap - 1
        } else {
            gap - 1
        }) as nat;
        let front = half_fields(half, (n - 1) as nat);
        let pair = seq![Field::Ue(v), Field::Flag(half[n - 1].1)];
        crate::coding::lemma_part_split(fs, k, front, pair);
        let c1 = lemma_half(c, fs, k, half, (n - 1) as nat, sign);
        let k1 = k + front.len();
        let c2 = step_part(c1, fs, k1, pair, 0);
        let c3 = step_part(c2, fs, k1, pair, 1);
        if n > 1 {
            assert(sign == 1 ==> half[n - 2].0 < half[n - 1].0);
            assert(half.take(n - 1).last() == half[n - 2]);
        }
        assert(sign * (v + 1) == gap) by (nonlinear_arith)
            requires
                sign == 1 && gap == v + 1 || sign == -1 && gap == -(v + 1),
        ;
        assert(half.take(n as int) =~= half.take(n - 1).push(half[n - 1]));
        c3
    }
}

proof fn lemma_explicit(c: Cursor, fs: Seq<Field>, k: int, set: StRpsView) -> (next: Cursor)
    requires
        at(c, fs, k),
        part_at(fs, k, explicit_fields(set)),
        set.nearest_first(),
        set.neg.len() <= 16,
        set.pos.len() <= 16,
    ensures
        at(next, fs, k + explicit_fields(set).len()),
        end_of(next, fs, k + explicit_fields(set).len()) == end_of(c, fs, k),
        explicit_rps(c) == (set, next),
        next.data == c.data,
{
    reveal(explicit_rps);
    let h = seq![Field::Ue(set.neg.len()), Field::Ue(set.pos.len())];
    let a = half_fields(set.neg, set.neg.len());
    let b = half_fields(set.pos, set.pos.len());
    crate::coding::lemma_part_split(fs, k, h, a + b);
    crate::coding::lemma_part_split(fs, k + 2, a, b);
    let c1 = step_part(c, fs, k, h, 0);
    let c2 = step_part(c1, fs, k, h, 1);
    let c3 = lemma_half(c2, fs, k + 2, set.neg, set.neg.len(), -1);
    let c4 = lemma_half(c3, fs, k + 2 + a.len(), set.pos, set.pos.len(), 1);
    assert(set.neg.take(set.neg.len() as int) =~= set.neg);
    assert(set.pos.take(set.pos.len() as int) =~= set.pos);
    c4
}

/// The flags of the first `n` candidates of a predicted set: whether the
/// current picture uses it, and, where it does not, whether it is kept.
pub open spec fn flag_fields(flags: Seq<(bool, bool)>, n: nat) -> Seq<Field>
    decreases n,
{
    if n == 0 {
        Seq::empty()
    } else {
        flag_fields(flags, (n - 1) as nat) + if flags[n - 1].0 {
            seq![Field::Flag(true)]
        } else {
            seq![Field::Flag(false), Field::Flag(flags[n - 1].1)]
        }
    }
}

/// A set that is predicted: the offset from the set it is predicted from, and
/// the flags.
pub open spec fn predicted_fields(delta: int, flags: Seq<(bool, bool)>) -> Seq<Field> {
    seq![
        Field::Flag(delta < 0),
        Field::Ue(
            (if delta < 0 {
                -delta - 1
            } else {
                delta - 1
            }) as nat,
        ),
    ] + flag_fields(flags, flags.len())
}

/// The count of candidate `j` relative to the picture of the set that is
/// predicted from: its pictures before, its pictures after, and itself.
pub open spec fn base_delta(base: StRpsView, j: int) -> int {
    if j < base.neg.len() {
        base.neg[j].0 as int
    } else if j < base.neg.len() + base.pos.len() {
        base.pos[j - base.neg.len()].0 as int
    } else {
        0
    }
}

/// A candidate is carried over with its offset and its use.
pub open spec fn carried(
    base: StRpsView,
    delta: int,
    flags: Seq<(bool, bool)>,
    j: int,
    d: int,
    used: bool,
) -> bool {
    &&& 0 <= j < flags.len()
    &&& flags[j].1
    &&& flags[j].0 == used
    &&& base_delta(base, j) + delta == d
}

/// What a predicted set holds: before the picture exactly the candidates that
/// are kept and lie before it, after the picture those that lie after it.
pub open spec fn predicts(
    set: StRpsView,
    base: StRpsView,
    delta: int,
    flags: Seq<(bool, bool)>,
) -> bool {
    &&& forall|d: i32, used: bool| #[trigger]
        set.neg.contains((d, used)) <==> d < 0 && exists|j: int|
            carried(base, delta, flags, j, d as int, used)
    &&& forall|d: i32, used: bool| #[trigger]
        set.pos.contains((d, used)) <==> d > 0 && exists|j: int|
            carried(base, delta, flags, j, d as int, used)
}

/// Flags for each candidate, a used one being kept, and counts that fit.
pub open spec fn predictable(base: StRpsView, delta: int, flags: Seq<(bool, bool)>) -> bool {
    &&& delta != 0
    &&& i32::MIN <= delta <= i32::MAX
    &&& flags.len() == base.neg.len() + base.pos.len() + 1
    &&& forall|j: int| 0 <= j < flags.len() ==> ((#[trigger] flags[j]).0 ==> flags[j].1)
    &&& forall|j: int|
        0 <= j < flags.len() ==> i32::MIN <= #[trigger] base_delta(base, j) + delta <= i32::MAX
}

proof fn lemma_flags(
    c: Cursor,
    fs: Seq<Field>,
    k: int,
    flags: Seq<(bool, bool)>,
    n: nat,
) -> (next: Cursor)
    requires
        at(c, fs, k),
        part_at(fs, k, flag_fields(flags, n)),
        n <= flags.len(),
        forall|j: int| 0 <= j < flags.len() ==> ((#[trigger] flags[j]).0 ==> flags[j].1),
    ensures
        at(next, fs, k + flag_fields(flags, n).len()),
        end_of(next, fs, k + flag_fields(flags, n).len()) == end_of(c, fs, k),
        candidate_flags(c, n) == (flags.take(n as int), next),
        next.data == c.data,
    decreases n,
{
    if n == 0 {
        assert(flags.take(0) =~= Seq::empty());
        c
    } else {
        let f = flags[n - 1];
        let front = flag_fields(flags, (n - 1) as nat);
        let last = if f.0 {
            seq![Field::Flag(true)]
        } else {
            seq![Field::Flag(false), Field::Flag(f.1)]
        };
        crate::coding::lemma_part_split(fs, k, front, last);
        let c1 = lemma_flags(c, fs, k, flags, (n - 1) as nat);
        let k1 = k + front.len();
        let c2 = step_part(c1, fs, k1, last, 0);
        assert(flags.take(n as int) =~= flags.take(n - 1).push(f));
        if f.0 {
            c2
        } else {
            step_part(c2, fs, k1, last, 1)
        }
    }
}

proof fn lemma_kept(cands: Seq<Candidate>, n: nat, negative: bool, d: i32, used: bool)
    requires
        n <= cands.len(),
        forall|k: int|
            0 <= k < cands.len() ==> i32::MIN <= (#[trigger] cands[k]).delta <= i32::MAX,
    ensures
        kept(cands, n, negative).contains((d, used)) <==> exists|k: int|
            0 <= k < n && (#[trigger] cands[k]).keep && cands[k].delta == d && cands[k].used == used
                && (if negative {
                d < 0
            } else {
                d > 0
            }),
    decreases n,
{
    let s = kept(cands, n, negative);
    if n > 0 {
        let m = (n - 1) as nat;
        lemma_kept(cands, m, negative, d, used);
        let before = kept(cands, m, negative);
        let c = cands[n - 1];
        let on_side = if negative {
            c.delta < 0
        } else {
            c.delta > 0
        };
        if c.keep && on_side {
            assert(s == before.push((c.delta as i32, c.used)));
            if before.contains((d, used)) {
                let i = choose|i: int| 0 <= i < before.len() && before[i] == (d, used);
                assert(s[i] == (d, used));
            }
            if c.delta == d && c.used == used {
                assert(s[before.len() as int] == (d, used));
            }
            if s.contains((d, used)) {
                let i = choose|i: int| 0 <= i < s.len() && s[i] == (d, used);
                if i < before.len() {
                    assert(before[i] == (d, used));
                } else {
                    assert(cands[n - 1].keep);
                }
            }
        } else {
            assert(s == before);
        }
    }
}

proof fn lemma_predicted(
    c: Cursor,
    fs: Seq<Field>,
    k: int,
    base: StRpsView,
    delta: int,
    flags: Seq<(bool, bool)>,
) -> (next: Cursor)
    requires
        at(c, fs, k),
        part_at(fs, k, predicted_fields(delta, flags)),
        predictable(base, delta, flags),
    ensures
        at(next, fs, k + predicted_fields(delta, flags).len()),
        end_of(next, fs, k + predicted_fields(delta, flags).len()) == end_of(c, fs, k),
        predicted_rps(c, base).1 == next,
        predicts(predicted_rps(c, base).0, base, delta, flags),
        next.data == c.data,
{
    reveal(predicted_rps);
    let h = seq![
        Field::Flag(delta < 0),
        Field::Ue(
            (if delta < 0 {
                -delta - 1
            } else {
                delta - 1
            }) as nat,
        ),
    ];
    crate::coding::lemma_part_split(fs, k, h, flag_fields(flags, flags.len()));
    let c1 = step_part(c, fs, k, h, 0);
    let c2 = step_part(c1, fs, k, h, 1);
    let c3 = lemma_flags(c2, fs, k + 2, flags, flags.len());
    assert(flags.take(flags.len() as int) =~= flags);
    let cands = candidates(base, delta, flags);
    lemma_candidates(base, delta, flags);
    let set = predicted_rps(c, base).0;
    assert forall|d: i32, used: bool| #[trigger] set.neg.contains((d, used)) <==> d < 0 && exists|
        j: int,
    |
        carried(base, delta, flags, j, d as int, used) by {
        lemma_kept(cands, cands.len(), true, d, used);
        lemma_carried(base, delta, flags, d as int, used);
    }
    let back = cands.reverse();
    assert forall|x: int| 0 <= x < back.len() implies i32::MIN <= (#[trigger] back[x]).delta
        <= i32::MAX by {
        assert(back[x] == cands[cands.len() - 1 - x]);
    }
    assert forall|d: i32, used: bool| #[trigger] set.pos.contains((d, used)) <==> d > 0 && exists|
        j: int,
    |
        carried(base, delta, flags, j, d as int, used) by {
        lemma_kept(back, back.len(), false, d, used);
        lemma_carried(base, delta, flags, d as int, used);
        if exists|x: int|
            0 <= x < back.len() && (#[trigger] back[x]).keep && back[x].delta == d && back[x].used
                == used {
            let x = choose|x: int|
                0 <= x < back.len() && (#[trigger] back[x]).keep && back[x].delta == d
                    && back[x].used == used;
            assert(back[x] == cands[cands.len() - 1 - x]);
        }
        if exists|x: int|
            0 <= x < cands.len() && (#[trigger] cands[x]).keep && cands[x].delta == d
                && cands[x].used == used {
            let x = choose|x: int|
                0 <= x < cands.len() && (#[trigger] cands[x]).keep && cands[x].delta == d
                    && cands[x].used == used;
            assert(back[cands.len() - 1 - x] == cands[x]);
        }
    }
    c3
}

/// Where candidate `j` stands among the candidates, from the latest picture
/// to the earliest.
spec fn place(base: StRpsView, j: int) -> int {
    let nn = base.neg.len() as int;
    let np = base.pos.len() as int;
    if j < nn {
        np + 1 + j
    } else if j < nn + np {
        nn + np - 1 - j
    } else {
        np
    }
}

proof fn lemma_candidates(base: StRpsView, delta: int, flags: Seq<(bool, bool)>)
    requires
        predictable(base, delta, flags),
    ensures
        ({
            let cands = candidates(base, delta, flags);
            &&& cands.len() == flags.len()
            &&& forall|k: int|
                0 <= k < cands.len() ==> i32::MIN <= (#[trigger] cands[k]).delta <= i32::MAX
        }),
{
    let cands = candidates(base, delta, flags);
    let nn = base.neg.len() as int;
    let np = base.pos.len() as int;
    assert forall|k: int| 0 <= k < cands.len() implies i32::MIN <= (#[trigger] cands[k]).delta
        <= i32::MAX by {
        let j = if k < np {
            nn + np - 1 - k
        } else if k == np {
            nn + np
        } else {
            k - np - 1
        };
        assert(i32::MIN <= base_delta(base, j) + delta <= i32::MAX);
    }
}

proof fn lemma_carried(
    base: StRpsView,
    delta: int,
    flags: Seq<(bool, bool)>,
    d: int,
    used: bool,
)
    requires
        predictable(base, delta, flags),
    ensures
        ({
            let cands = candidates(base, delta, flags);
            (exists|j: int| carried(base, delta, flags, j, d, used)) <==> (exists|k: int|
                0 <= k < cands.len() && (#[trigger] cands[k]).keep && cands[k].delta == d
                    && cands[k].used == used)
        }),
{
    let cands = candidates(base, delta, flags);
    let nn = base.neg.len() as int;
    let np = base.pos.len() as int;
    if exists|j: int| carried(base, delta, flags, j, d, used) {
        let j = choose|j: int| carried(base, delta, flags, j, d, used);
        let k = place(base, j);
        assert(cands[k].keep && cands[k].delta == d && cands[k].used == used);
    }
    if exists|k: int|
        0 <= k < cands.len() && (#[trigger] cands[k]).keep && cands[k].delta == d && cands[k].used
            == used {
        let k = choose|k: int|
            0 <= k < cands.len() && (#[trigger] cands[k]).keep && cands[k].delta == d
                && cands[k].used == used;
        let j = if k < np {
            nn + np - 1 - k
        } else if k == np {
            nn + np
        } else {
            k - np - 1
        };
        assert(carried(base, delta, flags, j, d, used));
    }
}

/// A reference picture set as it is coded: written out, or predicted from the
/// set `back` places before.
pub enum SetCode {
    Explicit(StRpsView),
    Predicted { back: nat, delta: int, flags: Seq<(bool, bool)> },
}

/// The fields of set number `idx`. The first set cannot be predicted, and
/// only a slice says how far back its base lies.
pub open spec fn set_fields(s: SetCode, idx: nat, in_slice: bool) -> Seq<Field> {
    match s {
        SetCode::Explicit(set) => or_none(idx > 0, seq![Field::Flag(false)]) + explicit_fields(set),
        SetCode::Predicted { back, delta, flags } => seq![Field::Flag(true)] + (or_none(
            in_slice,
            seq![Field::Ue((back - 1) as nat)],
        ) + predicted_fields(delta, flags)),
    }
}

/// A set that can be coded as number `idx` behind the sets `before`.
pub open spec fn set_complete(s: SetCode, idx: nat, before: Seq<StRpsView>, in_slice: bool) -> bool {
    match s {
        SetCode::Explicit(set) => set.nearest_first() && set.neg.len() <= 16 && set.pos.len() <= 16,
        SetCode::Predicted { back, delta, flags } => 1 <= back <= idx && (!in_slice ==> back == 1)
            && idx - back < before.len() && predictable(before[idx - back], delta, flags),
    }
}

/// What a set that was read owes to its code.
pub open spec fn set_agrees(
    set: StRpsView,
    from: Option<nat>,
    s: SetCode,
    idx: nat,
    before: Seq<StRpsView>,
) -> bool {
    match s {
        SetCode::Explicit(x) => set == x && from is None,
        SetCode::Predicted { back, delta, flags } => from == Some((idx - back) as nat) && predicts(
            set,
            before[idx - back],
            delta,
            flags,
        ),
    }
}

/// Reading undoes writing for a reference picture set: one that is written
/// out is given back; one that is predicted holds exactly the pictures of its
/// base that are kept, moved by the offset, and the base's own picture. With
/// the law that sets name their nearest pictures first, that fixes the set.
pub proof fn reading_a_set_undoes_writing(
    c: Cursor,
    fs: Seq<Field>,
    k: int,
    s: SetCode,
    idx: nat,
    before: Seq<StRpsView>,
    in_slice: bool,
) -> (next: Cursor)
    requires
        at(c, fs, k),
        part_at(fs, k, set_fields(s, idx, in_slice)),
        set_complete(s, idx, before, in_slice),
    ensures
        at(next, fs, k + set_fields(s, idx, in_slice).len()),
        end_of(next, fs, k + set_fields(s, idx, in_slice).len()) == end_of(c, fs, k),
        next.data == c.data,
        st_rps_syntax(c, idx, before, in_slice).1 == next,
        set_agrees(
            st_rps_syntax(c, idx, before, in_slice).0.0,
            st_rps_syntax(c, idx, before, in_slice).0.1,
            s,
            idx,
            before,
        ),
{
    reveal(st_rps_syntax);
    crate::coding::lemma_no_error(c, fs, k);
    match s {
        SetCode::Explicit(set) => {
            let flag = seq![Field::Flag(false)];
            let o = or_none(idx > 0, flag);
            crate::coding::lemma_part_split(fs, k, o, explicit_fields(set));
            let c1 = lemma_optional(c, fs, k, idx > 0, flag);
            lemma_explicit(c1, fs, k + o.len(), set)
        },
        SetCode::Predicted { back, delta, flags } => {
            let flag = seq![Field::Flag(true)];
            let far = seq![Field::Ue((back - 1) as nat)];
            let o = or_none(in_slice, far);
            crate::coding::lemma_part_split(fs, k, flag, o + predicted_fields(delta, flags));
            crate::coding::lemma_part_split(fs, k + 1, o, predicted_fields(delta, flags));
            let c1 = step_part(c, fs, k, flag, 0);
            let c2 = lemma_optional(c1, fs, k + 1, in_slice, far);
            crate::coding::lemma_no_error(c2, fs, k + 1 + o.len());
            lemma_predicted(c2, fs, k + 1 + o.len(), before[idx - back], delta, flags)
        },
    }
}

/// Two lists that run in one direction and hold the same pictures are equal.
proof fn lemma_same_pictures(s: Seq<(i32, bool)>, t: Seq<(i32, bool)>, up: bool)
    requires
        forall|i: int, j: int|
            0 <= i < j < s.len() ==> if up {
                (#[trigger] s[i]).0 < (#[trigger] s[j]).0
            } else {
                s[i].0 > s[j].0
            },
        forall|i: int, j: int|
            0 <= i < j < t.len() ==> if up {
                (#[trigger] t[i]).0 < (#[trigger] t[j]).0
            } else {
                t[i].0 > t[j].0
            },
        forall|d: i32, used: bool| #[trigger] s.contains((d, used)) <==> t.contains((d, used)),
    ensures
        s == t,
    decreases s.len(),
{
    if s.len() == 0 {
        if t.len() > 0 {
            assert(t.contains((t[0].0, t[0].1)));
            assert(s.contains((t[0].0, t[0].1)));
        }
        assert(s =~= t);
    } else {
        assert(s.contains((s[0].0, s[0].1)));
        let j = choose|j: int| 0 <= j < t.len() && t[j] == s[0];
        assert(t.contains((t[0].0, t[0].1)));
        assert(s.contains((t[0].0, t[0].1)));
        let i = choose|i: int| 0 <= i < s.len() && s[i] == t[0];
        assert(i == 0 || j == 0) by {
            if i > 0 && j > 0 {
                assert(up ==> s[0].0 < s[i].0);
                assert(up ==> t[0].0 < t[j].0);
            }
        }
        assert(s[0] == t[0]);
        let a = s.skip(1);
        let b = t.skip(1);
        assert forall|d: i32, used: bool| #[trigger] a.contains((d, used)) <==> b.contains(
            (d, used),
        ) by {
            if a.contains((d, used)) {
                let x = choose|x: int| 0 <= x < a.len() && a[x] == (d, used);
                assert(s[x + 1] == (d, used));
                assert(s.contains((d, used)));
                let y = choose|y: int| 0 <= y < t.len() && t[y] == (d, used);
                assert(s[0].0 != s[x + 1].0);
                assert(b[y - 1] == (d, used));
            }
            if b.contains((d, used)) {
                let x = choose|x: int| 0 <= x < b.len() && b[x] == (d, used);
                assert(t[x + 1] == (d, used));
                assert(t.contains((d, used)));
                assert(s.contains((d, used)));
                let y = choose|y: int| 0 <= y < s.len() && s[y] == (d, used);
                assert(t[0].0 != t[x + 1].0);
                assert(a[y - 1] == (d, used));
            }
        }
        assert forall|x: int, y: int| 0 <= x < y < a.len() implies if up {
            (#[trigger] a[x]).0 < (#[trigger] a[y]).0
        } else {
            a[x].0 > a[y].0
        } by {
            assert(a[x] == s[x + 1] && a[y] == s[y + 1]);
        }
        assert forall|x: int, y: int| 0 <= x < y < b.len() implies if up {
            (#[trigger] b[x]).0 < (#[trigger] b[y]).0
        } else {
            b[x].0 > b[y].0
        } by {
            assert(b[x] == t[x + 1] && b[y] == t[y + 1]);
        }
        lemma_same_pictures(a, b, up);
        assert(s =~= seq![s[0]] + a);
        assert(t =~= seq![t[0]] + b);
    }
}

/// A prediction has one result that names its nearest pictures first.
proof fn lemma_one_prediction(
    a: StRpsView,
    b: StRpsView,
    base: StRpsView,
    delta: int,
    flags: Seq<(bool, bool)>,
)
    requires
        a.nearest_first(),
        b.nearest_first(),
        predicts(a, base, delta, flags),
        predicts(b, base, delta, flags),
    ensures
        a == b,
{
    lemma_same_pictures(a.neg, b.neg, false);
    lemma_same_pictures(a.pos, b.pos, true);
}

/// `set` is what the code `s` stands for, as number `idx` behind the sets
/// `before`.
pub open spec fn stands_for(
    set: StRpsView,
    s: SetCode,
    idx: nat,
    before: Seq<StRpsView>,
    in_slice: bool,
) -> bool {
    &&& set.nearest_first()
    &&& set_complete(s, idx, before, in_slice)
    &&& match s {
        SetCode::Explicit(x) => set == x,
        SetCode::Predicted { back, delta, flags } => predicts(
            set,
            before[idx - back],
            delta,
            flags,
        ),
    }
}

/// A set that is read is the one its code stands for.
proof fn lemma_set(
    c: Cursor,
    fs: Seq<Field>,
    k: int,
    s: SetCode,
    idx: nat,
    before: Seq<StRpsView>,
    in_slice: bool,
    set: StRpsView,
) -> (next: Cursor)
    requires
        at(c, fs, k),
        part_at(fs, k, set_fields(s, idx, in_slice)),
        forall|i: int| 0 <= i < before.len() ==> (#[trigger] before[i]).nearest_first(),
        stands_for(set, s, idx, before, in_slice),
    ensures
        at(next, fs, k + set_fields(s, idx, in_slice).len()),
        end_of(next, fs, k + set_fields(s, idx, in_slice).len()) == end_of(c, fs, k),
        next.data == c.data,
        st_rps_syntax(c, idx, before, in_slice) == (
            (
                set,
                match s {
                    SetCode::Explicit(_) => None,
                    SetCode::Predicted { back, .. } => Some((idx - back) as nat),
                },
            ),
            next,
        ),
{
    let next = reading_a_set_undoes_writing(c, fs, k, s, idx, before, in_slice);
    crate::coding::lemma_no_error(next, fs, k + set_fields(s, idx, in_slice).len());
    crate::h265::parsed_sets_are_nearest_first(c, idx, before, in_slice);
    let found = st_rps_syntax(c, idx, before, in_slice).0.0;
    match s {
        SetCode::Explicit(_) => {},
        SetCode::Predicted { back, delta, flags } => {
            lemma_one_prediction(found, set, before[idx - back], delta, flags);
        },
    }
    next
}

/// The first `n` sets of a list.
pub open spec fn list_fields(codes: Seq<SetCode>, n: nat) -> Seq<Field>
    decreases n,
{
    if n == 0 {
        Seq::empty()
    } else {
        list_fields(codes, (n - 1) as nat) + set_fields(codes[n - 1], (n - 1) as nat, false)
    }
}

/// `sets` are what the codes stand for, each behind the ones before it.
pub open spec fn list_stands_for(sets: Seq<StRpsView>, codes: Seq<SetCode>) -> bool {
    &&& sets.len() == codes.len()
    &&& forall|i: int|
        0 <= i < sets.len() ==> stands_for(
            #[trigger] sets[i],
            codes[i],
            i as nat,
            sets.take(i),
            false,
        )
}

proof fn lemma_list(
    c: Cursor,
    fs: Seq<Field>,
    k: int,
    codes: Seq<SetCode>,
    sets: Seq<StRpsView>,
    n: nat,
) -> (next: Cursor)
    requires
        at(c, fs, k),
        part_at(fs, k, list_fields(codes, n)),
        list_stands_for(sets, codes),
        n <= sets.len(),
    ensures
        at(next, fs, k + list_fields(codes, n).len()),
        sets_syntax(c, n) == (sets.take(n as int), next),
    decreases n,
{
    if n == 0 {
        assert(sets.take(0) =~= Seq::empty());
        c
    } else {
        let front = list_fields(codes, (n - 1) as nat);
        let last = set_fields(codes[n - 1], (n - 1) as nat, false);
        crate::coding::lemma_part_split(fs, k, front, last);
        let c1 = lemma_list(c, fs, k, codes, sets, (n - 1) as nat);
        let before = sets.take(n - 1);
        assert forall|i: int| 0 <= i < before.len() implies (
        #[trigger] before[i]).nearest_first() by {
            assert(before[i] == sets[i]);
        }
        assert(stands_for(sets[n - 1], codes[n - 1], (n - 1) as nat, before, false));
        let c2 = lemma_set(
            c1,
            fs,
            k + front.len(),
            codes[n - 1],
            (n - 1) as nat,
            before,
            false,
            sets[n - 1],
        );
        assert(sets.take(n as int) =~= before.push(sets[n - 1]));
        c2
    }
}

/// A sequence parameter set as it is written, up to the usability
/// information.
pub struct WrittenSps {
    pub vps_id: nat,
    pub temporal_id_nesting: bool,
    pub ptl: WrittenPtl,
    pub sps_id: nat,
    pub chroma_format_idc: nat,
    pub width: nat,
    pub height: nat,
    /// Left, right, top, bottom, in chroma samples.
    pub window: Option<Seq<nat>>,
    pub bit_depth_luma_minus8: nat,
    pub bit_depth_chroma_minus8: nat,
    pub log2_max_poc_lsb_minus4: nat,
    pub per_sub_layer: bool,
    /// Buffer size less one, reordering and latency of each sub-layer given.
    pub ordering: Seq<(nat, nat, nat)>,
    pub log2_min_cb_minus3: nat,
    pub log2_diff_cb: nat,
    pub log2_min_tb_minus2: nat,
    pub log2_diff_tb: nat,
    pub max_th_depth_inter: nat,
    pub max_th_depth_intra: nat,
    /// Scaling lists, and whether they are given here.
    pub scaling: Option<bool>,
    pub amp_enabled: bool,
    pub sao_enabled: bool,
    /// Bit depths less one, block sizes, filter flag.
    pub pcm: Option<(nat, nat, nat, nat, bool)>,
    pub sets: Seq<SetCode>,
    pub long_term: bool,
    pub temporal_mvp: bool,
    pub strong_intra_smoothing: bool,
}

pub open spec fn window_fields(l: Seq<nat>, n: nat) -> Seq<Field>
    decreases n,
{
    if n == 0 {
        Seq::empty()
    } else {
        window_fields(l, (n - 1) as nat).push(Field::Ue(l[n - 1]))
    }
}

pub open spec fn crop_fields(w: WrittenSps) -> Seq<Field> {
    match w.window {
        Some(l) => seq![Field::Flag(true)] + window_fields(l, 4),
        None => seq![Field::Flag(false)],
    }
}

pub open spec fn ordering_fields(l: Seq<(nat, nat, nat)>, n: nat) -> Seq<Field>
    decreases n,
{
    if n == 0 {
        Seq::empty()
    } else {
        ordering_fields(l, (n - 1) as nat) + seq![
            Field::Ue(l[n - 1].0),
            Field::Ue(l[n - 1].1),
            Field::Ue(l[n - 1].2),
        ]
    }
}

pub open spec fn block_fields(w: WrittenSps) -> Seq<Field> {
    seq![
        Field::Ue(w.log2_min_cb_minus3),
        Field::Ue(w.log2_diff_cb),
        Field::Ue(w.log2_min_tb_minus2),
        Field::Ue(w.log2_diff_tb),
        Field::Ue(w.max_th_depth_inter),
        Field::Ue(w.max_th_depth_intra),
    ]
}

pub open spec fn scaling_fields(w: WrittenSps) -> Seq<Field> {
    match w.scaling {
        Some(given) => seq![Field::Flag(true), Field::Flag(given)],
        None => seq![Field::Flag(false)],
    }
}

pub open spec fn tool_fields(w: WrittenSps) -> Seq<Field> {
    seq![Field::Flag(w.amp_enabled), Field::Flag(w.sao_enabled), Field::Flag(w.pcm is Some)]
}

pub open spec fn pcm_fields(w: WrittenSps) -> Seq<Field> {
    match w.pcm {
        Some((a, b, x, y, f)) => seq![
            Field::Bits(a, 4),
            Field::Bits(b, 4),
            Field::Ue(x),
            Field::Ue(y),
            Field::Flag(f),
        ],
        None => Seq::empty(),
    }
}

pub open spec fn sps_head(w: WrittenSps) -> Seq<Field> {
    seq![
        Field::Bits(w.vps_id, 4),
        Field::Bits(w.ptl.layers.len(), 3),
        Field::Flag(w.temporal_id_nesting),
    ]
}

pub open spec fn size_fields(w: WrittenSps) -> Seq<Field> {
    seq![
        Field::Ue(w.sps_id),
        Field::Ue(w.chroma_format_idc),
        Field::Ue(w.width),
        Field::Ue(w.height),
    ]
}

pub open spec fn depth_fields(w: WrittenSps) -> Seq<Field> {
    seq![
        Field::Ue(w.bit_depth_luma_minus8),
        Field::Ue(w.bit_depth_chroma_minus8),
        Field::Ue(w.log2_max_poc_lsb_minus4),
        Field::Flag(w.per_sub_layer),
    ]
}

pub open spec fn sps_end(w: WrittenSps) -> Seq<Field> {
    seq![
        Field::Flag(w.long_term),
        Field::Flag(w.temporal_mvp),
        Field::Flag(w.strong_intra_smoothing),
    ]
}

/// The fields of a sequence parameter set, in order.
pub open spec fn sps_fields(w: WrittenSps) -> Seq<Field> {
    sps_head(w) + (ptl_fields(w.ptl) + (size_fields(w) + (crop_fields(w) + (depth_fields(w) + (
    ordering_fields(w.ordering, w.ordering.len()) + (block_fields(w) + (scaling_fields(w) + (
    tool_fields(w) + (pcm_fields(w) + (seq![Field::Ue(w.sets.len())] + (list_fields(
        w.sets,
        w.sets.len(),
    ) + sps_end(w))))))))))))
}

/// A set with the parts it says it has.
pub open spec fn sps_complete(w: WrittenSps) -> bool {
    &&& w.ptl.layers.len() <= 7
    &&& w.ordering.len() == if w.per_sub_layer {
        w.ptl.layers.len() + 1
    } else {
        1
    }
    &&& forall|i: int| 0 <= i < w.ordering.len() ==> (#[trigger] w.ordering[i]).0 < 255
    &&& w.window matches Some(l) ==> l.len() == 4 && forall|i: int|
        0 <= i < 4 ==> 2 * #[trigger] l[i] <= u32::MAX
    &&& w.log2_max_poc_lsb_minus4 + 4 <= u32::MAX
    &&& w.sets.len() <= 64
}

/// Sets that can be decoded: 4:2:0, eight or ten bits alike in luma and
/// chroma, no scaling lists given, no long-term references.
pub open spec fn sps_supported(w: WrittenSps) -> bool {
    &&& w.chroma_format_idc == 1
    &&& w.bit_depth_luma_minus8 == w.bit_depth_chroma_minus8
    &&& w.bit_depth_luma_minus8 == 0 || w.bit_depth_luma_minus8 == 2
    &&& w.scaling != Some(true)
    &&& !w.long_term
}

/// What a sequence parameter set that was read owes to the written one. The
/// window is in luma samples, two to each chroma sample; buffer size and
/// reordering are those of the last sub-layer.
pub open spec fn sps_agrees(s: H265SpsView, w: WrittenSps, sets: Seq<StRpsView>) -> bool {
    let last = w.ordering.last();
    &&& s.vps_id == w.vps_id
    &&& s.sps_id == w.sps_id % 256
    &&& s.max_sub_layers_minus1 == w.ptl.layers.len()
    &&& s.temporal_id_nesting == w.temporal_id_nesting
    &&& ptl_agrees(s.ptl, w.ptl)
    &&& s.chroma_format_idc == 1
    &&& s.width == w.width
    &&& s.height == w.height
    &&& s.crop.len() == 4
    &&& forall|i: int|
        0 <= i < 4 ==> #[trigger] s.crop[i] == match w.window {
            Some(l) => 2 * l[i],
            None => 0,
        }
    &&& s.bit_depth.0 == 8 + w.bit_depth_luma_minus8
    &&& s.bit_depth.1 == 8 + w.bit_depth_chroma_minus8
    &&& s.log2_max_poc_lsb == w.log2_max_poc_lsb_minus4 + 4
    &&& s.max_dec_pic_buffering == last.0 + 1
    &&& s.max_num_reorder_pics == last.1 % 256
    &&& s.blocks.log2_min_cb_minus3 == w.log2_min_cb_minus3 % 256
    &&& s.blocks.log2_diff_cb == w.log2_diff_cb % 256
    &&& s.blocks.log2_min_tb_minus2 == w.log2_min_tb_minus2 % 256
    &&& s.blocks.log2_diff_tb == w.log2_diff_tb % 256
    &&& s.blocks.max_th_depth_inter == w.max_th_depth_inter % 256
    &&& s.blocks.max_th_depth_intra == w.max_th_depth_intra % 256
    &&& s.scaling_list_enabled == (w.scaling is Some)
    &&& s.amp_enabled == w.amp_enabled
    &&& s.sao_enabled == w.sao_enabled
    &&& s.pcm_enabled == (w.pcm is Some)
    &&& s.st_rps == sets
    &&& s.temporal_mvp == w.temporal_mvp
    &&& s.strong_intra_smoothing == w.strong_intra_smoothing
}

proof fn lemma_window(c: Cursor, fs: Seq<Field>, k: int, l: Seq<nat>, n: nat) -> (next: Cursor)
    requires
        at(c, fs, k),
        part_at(fs, k, window_fields(l, n)),
        n <= l.len(),
        forall|i: int| 0 <= i < n ==> 2 * #[trigger] l[i] <= u32::MAX,
    ensures
        at(next, fs, k + n),
        window_fields(l, n).len() == n,
        window_syntax(c, n).1 == next,
        window_syntax(c, n).0 == Seq::new(n, |i: int| (2 * l[i]) as u32),
    decreases n,
{
    let all = Seq::new(n, |i: int| (2 * l[i]) as u32);
    if n == 0 {
        assert(all =~= Seq::empty());
        c
    } else {
        let front = window_fields(l, (n - 1) as nat);
        let last = seq![Field::Ue(l[n - 1])];
        assert(window_fields(l, n) =~= front + last);
        crate::coding::lemma_part_split(fs, k, front, last);
        let c1 = lemma_window(c, fs, k, l, (n - 1) as nat);
        let c2 = step_part(c1, fs, k + front.len(), last, 0);
        assert(2 * l[n - 1] <= u32::MAX);
        assert(window_syntax(c, n).0 =~= all);
        c2
    }
}

proof fn lemma_crop(c: Cursor, fs: Seq<Field>, k: int, w: WrittenSps) -> (next: Cursor)
    requires
        at(c, fs, k),
        part_at(fs, k, crop_fields(w)),
        w.window matches Some(l) ==> l.len() == 4 && forall|i: int|
            0 <= i < 4 ==> 2 * #[trigger] l[i] <= u32::MAX,
    ensures
        at(next, fs, k + crop_fields(w).len()),
        crop_syntax(c).1 == next,
        crop_syntax(c).0 == Seq::new(
            4,
            |i: int|
                match w.window {
                    Some(l) => (2 * l[i]) as u32,
                    None => 0,
                },
        ),
{
    reveal(crop_syntax);
    let c1 = step_part(c, fs, k, crop_fields(w), 0);
    match w.window {
        Some(l) => {
            crate::coding::lemma_part_split(fs, k, seq![Field::Flag(true)], window_fields(l, 4));
            let c2 = lemma_window(c1, fs, k + 1, l, 4);
            assert(crop_syntax(c).0 =~= Seq::new(
                4,
                |i: int|
                    match w.window {
                        Some(l) => (2 * l[i]) as u32,
                        None => 0,
                    },
            ));
            c2
        },
        None => {
            assert(crop_syntax(c).0 =~= Seq::new(
                4,
                |i: int|
                    match w.window {
                        Some(l) => (2 * l[i]) as u32,
                        None => 0,
                    },
            ));
            c1
        },
    }
}

proof fn lemma_ordering(
    c: Cursor,
    fs: Seq<Field>,
    k: int,
    l: Seq<(nat, nat, nat)>,
    n: nat,
) -> (next: Cursor)
    requires
        at(c, fs, k),
        part_at(fs, k, ordering_fields(l, n)),
        n <= l.len(),
        forall|i: int| 0 <= i < n ==> (#[trigger] l[i]).0 < 255,
    ensures
        at(next, fs, k + ordering_fields(l, n).len()),
        ordering_syntax(c, n).1 == next,
        n > 0 ==> ordering_syntax(c, n).0.0 == l[n - 1].0 + 1,
        n > 0 ==> ordering_syntax(c, n).0.1 == l[n - 1].1 % 256,
    decreases n,
{
    if n == 0 {
        c
    } else {
        let front = ordering_fields(l, (n - 1) as nat);
        let last = seq![Field::Ue(l[n - 1].0), Field::Ue(l[n - 1].1), Field::Ue(l[n - 1].2)];
        crate::coding::lemma_part_split(fs, k, front, last);
        let c1 = lemma_ordering(c, fs, k, l, (n - 1) as nat);
        let k1 = k + front.len();
        assert(l[n - 1].0 < 255);
        let c2 = step_part(c1, fs, k1, last, 0);
        let c3 = step_part(c2, fs, k1, last, 1);
        step_part(c3, fs, k1, last, 2)
    }
}

proof fn lemma_blocks(c: Cursor, fs: Seq<Field>, k: int, w: WrittenSps) -> (next: Cursor)
    requires
        at(c, fs, k),
        part_at(fs, k, block_fields(w)),
    ensures
        at(next, fs, k + 6),
        blocks_syntax(c).1 == next,
        ({
            let b = blocks_syntax(c).0;
            &&& b.log2_min_cb_minus3 == w.log2_min_cb_minus3 % 256
            &&& b.log2_diff_cb == w.log2_diff_cb % 256
            &&& b.log2_min_tb_minus2 == w.log2_min_tb_minus2 % 256
            &&& b.log2_diff_tb == w.log2_diff_tb % 256
            &&& b.max_th_depth_inter == w.max_th_depth_inter % 256
            &&& b.max_th_depth_intra == w.max_th_depth_intra % 256
        }),
{
    reveal(blocks_syntax);
    let p = block_fields(w);
    let c1 = step_part(c, fs, k, p, 0);
    let c2 = step_part(c1, fs, k, p, 1);
    let c3 = step_part(c2, fs, k, p, 2);
    let c4 = step_part(c3, fs, k, p, 3);
    let c5 = step_part(c4, fs, k, p, 4);
    step_part(c5, fs, k, p, 5)
}

proof fn lemma_tools(c: Cursor, fs: Seq<Field>, k: int, w: WrittenSps) -> (next: Cursor)
    requires
        at(c, fs, k),
        part_at(fs, k, scaling_fields(w)),
        part_at(fs, k + scaling_fields(w).len(), tool_fields(w)),
        part_at(fs, k + scaling_fields(w).len() + 3, pcm_fields(w)),
        w.scaling != Some(true),
    ensures
        at(next, fs, k + scaling_fields(w).len() + 3 + pcm_fields(w).len()),
        tools_syntax(c).1 == next,
        tools_syntax(c).0 == (w.scaling is Some, w.amp_enabled, w.sao_enabled, w.pcm is Some),
{
    reveal(tools_syntax);
    let a = scaling_fields(w);
    let c1 = step_part(c, fs, k, a, 0);
    let c2 = match w.scaling {
        Some(_) => step_part(c1, fs, k, a, 1),
        None => c1,
    };
    let k1 = k + a.len();
    let t = tool_fields(w);
    let c3 = step_part(c2, fs, k1, t, 0);
    let c4 = step_part(c3, fs, k1, t, 1);
    let c5 = step_part(c4, fs, k1, t, 2);
    match w.pcm {
        Some(_) => {
            let p = pcm_fields(w);
            let d1 = step_part(c5, fs, k1 + 3, p, 0);
            let d2 = step_part(d1, fs, k1 + 3, p, 1);
            let d3 = step_part(d2, fs, k1 + 3, p, 2);
            let d4 = step_part(d3, fs, k1 + 3, p, 3);
            step_part(d4, fs, k1 + 3, p, 4)
        },
        None => c5,
    }
}

/// Reading undoes writing: a sequence parameter set whose fields stand in the
/// order of the standard, behind two header bytes, gives back every field,
/// and the reference picture sets that its codes stand for.
pub proof fn reading_an_sps_undoes_writing(
    w: WrittenSps,
    sets: Seq<StRpsView>,
    head: Seq<u8>,
    payload: Seq<u8>,
    behind: Seq<u8>,
    nal: Seq<u8>,
)
    requires
        head.len() == 2,
        sps_complete(w),
        sps_supported(w),
        list_stands_for(sets, w.sets),
        begins_with(payload, sps_fields(w)),
        nal == head + (escaped(payload) + behind),
    ensures
        sps_syntax(rbsp_of(nal.skip(2))).1.err is None,
        sps_agrees(sps_syntax(rbsp_of(nal.skip(2))).0, w, sets),
{
    crate::coding::lemma_nal_begins(head, payload, behind, nal, sps_fields(w));
    lemma_sps(w, sets, rbsp_of(nal.skip(2)));
}

proof fn lemma_set_list(
    c: Cursor,
    fs: Seq<Field>,
    k: int,
    w: WrittenSps,
    sets: Seq<StRpsView>,
) -> (next: Cursor)
    requires
        at(c, fs, k),
        part_at(fs, k, seq![Field::Ue(w.sets.len())]),
        part_at(fs, k + 1, list_fields(w.sets, w.sets.len())),
        list_stands_for(sets, w.sets),
        w.sets.len() <= 64,
    ensures
        at(next, fs, k + 1 + list_fields(w.sets, w.sets.len()).len()),
        set_list_syntax(c) == (sets, next),
{
    reveal(set_list_syntax);
    let c1 = step_part(c, fs, k, seq![Field::Ue(w.sets.len())], 0);
    let c2 = lemma_list(c1, fs, k + 1, w.sets, sets, w.sets.len());
    assert(sets.take(sets.len() as int) =~= sets);
    c2
}

#[verifier::rlimit(40)]
proof fn lemma_sps(w: WrittenSps, sets: Seq<StRpsView>, rbsp: Seq<u8>)
    requires
        sps_complete(w),
        sps_supported(w),
        list_stands_for(sets, w.sets),
        begins_with(rbsp, sps_fields(w)),
    ensures
        sps_syntax(rbsp).1.err is None,
        sps_agrees(sps_syntax(rbsp).0, w, sets),
{
    let fs = sps_fields(w);
    let s0 = sps_head(w);
    let s1 = ptl_fields(w.ptl);
    let s2 = size_fields(w);
    let s3 = crop_fields(w);
    let s4 = depth_fields(w);
    let s5 = ordering_fields(w.ordering, w.ordering.len());
    let s6 = block_fields(w);
    let s7 = scaling_fields(w);
    let s8 = tool_fields(w);
    let s9 = pcm_fields(w);
    let t0 = seq![Field::Ue(w.sets.len())];
    let t1 = list_fields(w.sets, w.sets.len());
    let t2 = sps_end(w);
    let r1 = t1 + t2;
    let r0 = t0 + r1;
    let q9 = s9 + r0;
    let q8 = s8 + q9;
    let q7 = s7 + q8;
    let q6 = s6 + q7;
    let q5 = s5 + q6;
    let q4 = s4 + q5;
    let q3 = s3 + q4;
    let q2 = s2 + q3;
    let q1 = s1 + q2;
    crate::coding::lemma_part_whole(fs);
    crate::coding::lemma_part_split(fs, 0, s0, q1);
    crate::coding::lemma_part_split(fs, 3, s1, q2);
    let k2 = 3 + s1.len() as int;
    crate::coding::lemma_part_split(fs, k2, s2, q3);
    let k3 = k2 + 4;
    crate::coding::lemma_part_split(fs, k3, s3, q4);
    let k4 = k3 + s3.len();
    crate::coding::lemma_part_split(fs, k4, s4, q5);
    let k5 = k4 + 4;
    crate::coding::lemma_part_split(fs, k5, s5, q6);
    let k6 = k5 + s5.len();
    crate::coding::lemma_part_split(fs, k6, s6, q7);
    let k7 = k6 + 6;
    crate::coding::lemma_part_split(fs, k7, s7, q8);
    let k8 = k7 + s7.len();
    crate::coding::lemma_part_split(fs, k8, s8, q9);
    let k9 = k8 + 3;
    crate::coding::lemma_part_split(fs, k9, s9, r0);
    let j0 = k9 + s9.len();
    crate::coding::lemma_part_split(fs, j0, t0, r1);
    crate::coding::lemma_part_split(fs, j0 + 1, t1, t2);
    let j2 = j0 + 1 + t1.len();
    let c0 = Cursor::start(rbsp);
    lemma_small(c0, fs, 0, s0, 0);
    let c1 = step_part(c0, fs, 0, s0, 0);
    let c2 = step_part(c1, fs, 0, s0, 1);
    let c3 = step_part(c2, fs, 0, s0, 2);
    let c4 = crate::h265_writing::lemma_ptl(c3, fs, 3, w.ptl);
    lemma_small(c4, fs, k2, s2, 2);
    lemma_small(c4, fs, k2, s2, 3);
    let c5 = step_part(c4, fs, k2, s2, 0);
    let c6 = step_part(c5, fs, k2, s2, 1);
    let c7 = step_part(c6, fs, k2, s2, 2);
    let c8 = step_part(c7, fs, k2, s2, 3);
    let c9 = lemma_crop(c8, fs, k3, w);
    let d1 = step_part(c9, fs, k4, s4, 0);
    let d2 = step_part(d1, fs, k4, s4, 1);
    assert(depth_syntax(c9).1 == d2 && depth_syntax(c9).0 == (
        (8 + w.bit_depth_luma_minus8) as u8,
        (8 + w.bit_depth_chroma_minus8) as u8,
    )) by {
        reveal(depth_syntax);
    }
    let d3 = step_part(d2, fs, k4, s4, 2);
    let d4 = step_part(d3, fs, k4, s4, 3);
    let d5 = lemma_ordering(d4, fs, k5, w.ordering, w.ordering.len());
    let d6 = lemma_blocks(d5, fs, k6, w);
    let d7 = lemma_tools(d6, fs, k7, w);
    let d8 = lemma_set_list(d7, fs, j0, w, sets);
    let d9 = step_part(d8, fs, j2, t2, 0);
    assert(long_term_syntax(d8) == d9) by {
        reveal(long_term_syntax);
    }
    let e1 = step_part(d9, fs, j2, t2, 1);
    let e2 = step_part(e1, fs, j2, t2, 2);
}

/// The references of a slice: a set of its own, or the number of one of the
/// sets of the sequence.
pub enum RefCode {
    Own(SetCode),
    Chosen(nat),
}

/// A slice-segment header as it is written, for a NAL of type `nal_type`.
pub struct WrittenSlice {
    pub nal_type: u8,
    pub first_slice: bool,
    pub no_output_of_prior: bool,
    pub pps_id: nat,
    pub address: nat,
    pub extra: Seq<bool>,
    pub slice_type: nat,
    pub output_flag: bool,
    pub poc_lsb: nat,
    pub refs: RefCode,
}

/// `bits` is the least width that tells `n` things apart.
pub open spec fn is_width_for(bits: nat, n: nat) -> bool {
    &&& n <= pow2(bits)
    &&& bits > 0 ==> pow2((bits - 1) as nat) < n
}

/// `cols` blocks of `side` cover `pixels`, and no fewer do.
pub open spec fn covers(cols: nat, side: nat, pixels: nat) -> bool {
    &&& pixels <= cols * side
    &&& cols > 0 ==> (cols - 1) * side < pixels
}

/// The coding tree blocks of a picture: `cols` by `rows` of them, told apart
/// by `bits` bits.
pub open spec fn block_grid(sps: H265Sps, cols: nat, rows: nat, bits: nat) -> bool {
    let side = pow2((3 + sps.log2_min_cb_minus3 + sps.log2_diff_cb) as nat);
    &&& 3 + sps.log2_min_cb_minus3 + sps.log2_diff_cb <= 31
    &&& covers(cols, side, sps.width as nat)
    &&& covers(rows, side, sps.height as nat)
    &&& 2 <= cols * rows <= u32::MAX
    &&& is_width_for(bits, cols * rows)
}

pub open spec fn flags_of(list: Seq<bool>) -> Seq<Field> {
    Seq::new(list.len(), |i: int| Field::Flag(list[i]))
}

/// The fields of the references, where the sequence has `n` sets and
/// `index_bits` bits tell them apart.
pub open spec fn ref_fields(r: RefCode, n: nat, index_bits: nat) -> Seq<Field> {
    match r {
        RefCode::Own(s) => seq![Field::Flag(false)] + set_fields(s, n, true),
        RefCode::Chosen(i) => seq![Field::Flag(true)] + or_none(
            n > 1,
            seq![Field::Bits(i, index_bits)],
        ),
    }
}

/// An IDR picture has no count and no references.
pub open spec fn is_idr_type(t: u8) -> bool {
    t == 19 || t == 20
}

/// The fields of a slice-segment header, in order. Random access pictures
/// (NAL types 16 to 23) say whether earlier pictures are put out; slices that
/// are not the first of their picture say where they start.
pub open spec fn slice_fields(
    w: WrittenSlice,
    sps: H265Sps,
    pps: H265Pps,
    address_bits: nat,
    index_bits: nat,
) -> Seq<Field> {
    seq![Field::Flag(w.first_slice)] + (or_none(
        16 <= w.nal_type <= 23,
        seq![Field::Flag(w.no_output_of_prior)],
    ) + (seq![Field::Ue(w.pps_id)] + (or_none(
        !w.first_slice,
        seq![Field::Bits(w.address, address_bits)],
    ) + (flags_of(w.extra) + (seq![Field::Ue(w.slice_type)] + (or_none(
        pps.output_flag_present,
        seq![Field::Flag(w.output_flag)],
    ) + (or_none(
        !is_idr_type(w.nal_type),
        seq![Field::Bits(w.poc_lsb, sps.log2_max_poc_lsb as nat)],
    ) + or_none(
        !is_idr_type(w.nal_type),
        ref_fields(w.refs, sps.st_rps@.len(), index_bits),
    ))))))))
}

/// The set that a slice's references stand for.
pub open spec fn refs_stand_for(set: StRpsView, r: RefCode, sets: Seq<StRpsView>) -> bool {
    match r {
        RefCode::Own(s) => stands_for(set, s, sets.len(), sets, true),
        RefCode::Chosen(i) => if sets.len() == 0 {
            set == StRpsView::empty()
        } else {
            i < sets.len() && set == sets[i as int] && (sets.len() == 1 ==> i == 0)
        },
    }
}

/// What a slice-segment header that was read owes to the written one: the
/// set, and for a set of its own the bits that it takes and the size of the
/// set it was predicted from.
pub open spec fn slice_agrees(
    h: H265SliceHeaderView,
    w: WrittenSlice,
    set: StRpsView,
    sets: Seq<StRpsView>,
) -> bool {
    &&& h.nal_type == w.nal_type
    &&& h.first_slice == w.first_slice
    &&& h.pps_id == w.pps_id % 256
    &&& h.slice_type == if w.slice_type == 0 {
        H265SliceType::B
    } else if w.slice_type == 1 {
        H265SliceType::P
    } else {
        H265SliceType::I
    }
    &&& if is_idr_type(w.nal_type) {
        h.poc_lsb == 0 && h.refs.rps == StRpsView::empty() && h.refs.num_bits_st_rps == 0
            && h.refs.num_delta_pocs_of_ref == 0
    } else {
        &&& h.poc_lsb == w.poc_lsb
        &&& h.refs.rps == set
        &&& match w.refs {
            RefCode::Own(s) => {
                &&& coded(set_fields(s, sets.len(), true), 0).len() < 0x1_0000
                    ==> h.refs.num_bits_st_rps == coded(set_fields(s, sets.len(), true), 0).len()
                &&& h.refs.num_delta_pocs_of_ref == match s {
                    SetCode::Explicit(_) => 0,
                    SetCode::Predicted { back, .. } => (sets[sets.len() - back].neg.len()
                        + sets[sets.len() - back].pos.len()) % 256,
                }
            },
            RefCode::Chosen(_) => h.refs.num_bits_st_rps == 0 && h.refs.num_delta_pocs_of_ref
                == 0,
        }
    }
}

proof fn lemma_bit_length(n: nat)
    requires
        n >= 1,
    ensures
        crate::h265::bit_length(n) >= 1,
        pow2((crate::h265::bit_length(n) - 1) as nat) <= n < pow2(crate::h265::bit_length(n)),
    decreases n,
{
    vstd::arithmetic::power2::lemma2_to64();
    if n > 1 {
        lemma_bit_length(n / 2);
        vstd::arithmetic::power2::lemma_pow2_unfold(crate::h265::bit_length(n));
        vstd::arithmetic::power2::lemma_pow2_unfold(crate::h265::bit_length(n / 2));
    } else {
        assert(crate::h265::bit_length(0) == 0);
        assert(crate::h265::bit_length(1) == 1);
    }
}

/// The digits of the last of `n` things are the width for them.
proof fn lemma_width_for(bits: nat, n: nat)
    requires
        n >= 2,
        is_width_for(bits, n),
    ensures
        crate::h265::bit_length((n - 1) as nat) == bits,
        bits >= 1,
{
    vstd::arithmetic::power2::lemma2_to64();
    let b = crate::h265::bit_length((n - 1) as nat);
    lemma_bit_length((n - 1) as nat);
    if bits < b {
        if bits < b - 1 {
            vstd::arithmetic::power2::lemma_pow2_strictly_increases(bits, (b - 1) as nat);
        }
    } else if b < bits {
        if b < bits - 1 {
            vstd::arithmetic::power2::lemma_pow2_strictly_increases(b, (bits - 1) as nat);
        }
    }
}

proof fn lemma_covers(cols: nat, log2: nat, pixels: nat)
    requires
        covers(cols, pow2(log2), pixels),
    ensures
        crate::h265::ctbs(pixels, log2) == cols,
{
    let side = pow2(log2) as int;
    vstd::arithmetic::power2::lemma_pow2_pos(log2);
    let x = pixels + side - 1;
    if cols > 0 {
        let r = x - cols * side;
        assert((cols - 1) * side == cols * side - side) by (nonlinear_arith);
        assert(0 <= r < side);
        vstd::arithmetic::div_mod::lemma_fundamental_div_mod_converse(x, side, cols as int, r);
    } else {
        assert(pixels == 0) by (nonlinear_arith)
            requires
                pixels <= cols * side,
                cols == 0,
        ;
        assert(0 * side == 0) by (nonlinear_arith);
        vstd::arithmetic::div_mod::lemma_fundamental_div_mod_converse(x, side, 0, x);
    }
}

proof fn lemma_address(
    c: Cursor,
    fs: Seq<Field>,
    k: int,
    sps: H265Sps,
    pps: H265Pps,
    address: nat,
    cols: nat,
    rows: nat,
    bits: nat,
) -> (next: Cursor)
    requires
        at(c, fs, k),
        part_at(fs, k, seq![Field::Bits(address, bits)]),
        block_grid(sps, cols, rows, bits),
        !pps.dependent_slice_segments,
    ensures
        at(next, fs, k + 1),
        address_syntax(c, sps, pps) == next,
{
    reveal(address_syntax);
    let log2 = crate::h265::log2_ctb(sps);
    assert(log2 == (3 + sps.log2_min_cb_minus3 + sps.log2_diff_cb) as nat);
    lemma_covers(cols, log2, sps.width as nat);
    lemma_covers(rows, log2, sps.height as nat);
    assert(crate::h265::pic_size_in_ctbs(sps) == cols * rows);
    lemma_width_for(bits, cols * rows);
    step_part(c, fs, k, seq![Field::Bits(address, bits)], 0)
}

pub proof fn lemma_extra(c: Cursor, fs: Seq<Field>, k: int, list: Seq<bool>, n: nat) -> (next: Cursor)
    requires
        at(c, fs, k),
        part_at(fs, k, flags_of(list)),
        n <= list.len(),
    ensures
        at(next, fs, k + n),
        skip_flags(c, n) == next,
    decreases n,
{
    if n == 0 {
        c
    } else {
        let c1 = lemma_extra(c, fs, k, list, (n - 1) as nat);
        step_part(c1, fs, k, flags_of(list), n - 1)
    }
}

proof fn lemma_refs(
    c: Cursor,
    fs: Seq<Field>,
    k: int,
    r: RefCode,
    sets: Seq<StRpsView>,
    set: StRpsView,
    index_bits: nat,
)
    requires
        at(c, fs, k),
        part_at(fs, k, ref_fields(r, sets.len(), index_bits)),
        refs_stand_for(set, r, sets),
        sets.len() > 1 ==> is_width_for(index_bits, sets.len()),
        forall|i: int| 0 <= i < sets.len() ==> (#[trigger] sets[i]).nearest_first(),
    ensures
        ({
            let (refs, end) = slice_refs_syntax(c, sets);
            &&& end.err is None
            &&& refs.rps == set
            &&& match r {
                RefCode::Own(s) => {
                    &&& coded(set_fields(s, sets.len(), true), 0).len() < 0x1_0000
                        ==> refs.num_bits_st_rps == coded(set_fields(s, sets.len(), true), 0).len()
                    &&& refs.num_delta_pocs_of_ref == match s {
                        SetCode::Explicit(_) => 0,
                        SetCode::Predicted { back, .. } => (sets[sets.len() - back].neg.len()
                            + sets[sets.len() - back].pos.len()) % 256,
                    }
                },
                RefCode::Chosen(_) => refs.num_bits_st_rps == 0 && refs.num_delta_pocs_of_ref == 0,
            }
        }),
{
    reveal(slice_refs_syntax);
    let n = sets.len();
    match r {
        RefCode::Own(s) => {
            let flag = seq![Field::Flag(false)];
            let own = set_fields(s, n, true);
            crate::coding::lemma_part_split(fs, k, flag, own);
            let c1 = step_part(c, fs, k, flag, 0);
            let c2 = lemma_set(c1, fs, k + 1, s, n, sets, true, set);
            crate::coding::lemma_no_error(c2, fs, k + 1 + own.len());
            crate::coding::lemma_part_len(fs, k + 1, own, 0);
            assert(c2.pos - c1.pos == coded(own, 0).len());
        },
        RefCode::Chosen(i) => {
            let flag = seq![Field::Flag(true)];
            let index = seq![Field::Bits(i, index_bits)];
            crate::coding::lemma_part_split(fs, k, flag, or_none(n > 1, index));
            let c1 = step_part(c, fs, k, flag, 0);
            let c2 = lemma_optional(c1, fs, k + 1, n > 1, index);
            crate::coding::lemma_no_error(c2, fs, k + 1 + or_none(n > 1, index).len());
            if n > 1 {
                lemma_width_for(index_bits, n);
            }
        },
    }
}

/// The first of the two header bytes of a NAL: its type behind a zero bit,
/// and the highest bit of its layer.
pub open spec fn header_byte(nal_type: u8, layer_bit: u8) -> u8 {
    (2 * nal_type + layer_bit) as u8
}

proof fn lemma_header_byte(t: u8, b: u8)
    requires
        t < 64,
        b < 2,
    ensures
        (header_byte(t, b) >> 1) & 0x3f == t,
{
    assert((((2 * t + b) as u8) >> 1) & 0x3f == t) by (bit_vector)
        requires
            t < 64,
            b < 2,
    ;
}

/// Reading undoes writing: a slice-segment header whose fields stand in the
/// order of the standard, in the first 320 bytes of its NAL, gives back every
/// field that is kept, and the reference picture set that its code stands
/// for. NALs of type 19 and 20 are IDR pictures; the type stands above the
/// lowest bit of the first byte.
pub proof fn reading_a_slice_header_undoes_writing(
    w: WrittenSlice,
    sps: H265Sps,
    pps: H265Pps,
    set: StRpsView,
    grid: (nat, nat, nat),
    index_bits: nat,
    head: Seq<u8>,
    payload: Seq<u8>,
    behind: Seq<u8>,
    nal: Seq<u8>,
)
    requires
        w.nal_type < 64,
        w.slice_type <= 2,
        w.extra.len() == pps.num_extra_slice_header_bits,
        !w.first_slice ==> !pps.dependent_slice_segments && block_grid(
            sps,
            grid.0,
            grid.1,
            grid.2,
        ),
        sps.st_rps@.len() > 1 ==> is_width_for(index_bits, sps.st_rps@.len()),
        forall|i: int| 0 <= i < sps.st_rps@.len() ==> (#[trigger] sps.st_rps@[i])@.nearest_first(),
        !is_idr_type(w.nal_type) ==> refs_stand_for(set, w.refs, rps_views(sps.st_rps@)),
        begins_with(payload, slice_fields(w, sps, pps, grid.2, index_bits)),
        head.len() == 2,
        head[0] == header_byte(w.nal_type, 0) || head[0] == header_byte(w.nal_type, 1),
        nal == head + (escaped(payload) + behind),
        2 + escaped(payload).len() <= 320,
    ensures
        slice_header_syntax(
            crate::h265::nal_type_of(nal),
            rbsp_of(slice_header_bytes(nal)),
            sps,
            pps,
        ).1.err is None,
        slice_agrees(
            slice_header_syntax(
                crate::h265::nal_type_of(nal),
                rbsp_of(slice_header_bytes(nal)),
                sps,
                pps,
            ).0,
            w,
            set,
            rps_views(sps.st_rps@),
        ),
{
    let fs = slice_fields(w, sps, pps, grid.2, index_bits);
    let end = if nal.len() < 320 {
        nal.len() as int
    } else {
        320
    };
    crate::coding::lemma_cut_nal_begins(head, payload, behind, nal, end, fs);
    assert(nal[0] == head[0]);
    lemma_header_byte(w.nal_type, 0);
    lemma_header_byte(w.nal_type, 1);
    lemma_slice(w, sps, pps, set, grid, index_bits, rbsp_of(slice_header_bytes(nal)));
}

#[verifier::rlimit(30)]
proof fn lemma_slice(
    w: WrittenSlice,
    sps: H265Sps,
    pps: H265Pps,
    set: StRpsView,
    grid: (nat, nat, nat),
    index_bits: nat,
    rbsp: Seq<u8>,
)
    requires
        w.slice_type <= 2,
        w.extra.len() == pps.num_extra_slice_header_bits,
        !w.first_slice ==> !pps.dependent_slice_segments && block_grid(
            sps,
            grid.0,
            grid.1,
            grid.2,
        ),
        sps.st_rps@.len() > 1 ==> is_width_for(index_bits, sps.st_rps@.len()),
        forall|i: int| 0 <= i < sps.st_rps@.len() ==> (#[trigger] sps.st_rps@[i])@.nearest_first(),
        !is_idr_type(w.nal_type) ==> refs_stand_for(set, w.refs, rps_views(sps.st_rps@)),
        begins_with(rbsp, slice_fields(w, sps, pps, grid.2, index_bits)),
    ensures
        slice_header_syntax(w.nal_type, rbsp, sps, pps).1.err is None,
        slice_agrees(
            slice_header_syntax(w.nal_type, rbsp, sps, pps).0,
            w,
            set,
            rps_views(sps.st_rps@),
        ),
{
    let fs = slice_fields(w, sps, pps, grid.2, index_bits);
    let sets = rps_views(sps.st_rps@);
    let idr = is_idr_type(w.nal_type);
    let irap = 16 <= w.nal_type <= 23;
    let f0 = seq![Field::Flag(w.first_slice)];
    let f1 = seq![Field::Flag(w.no_output_of_prior)];
    let f2 = seq![Field::Ue(w.pps_id)];
    let f3 = seq![Field::Bits(w.address, grid.2)];
    let f4 = flags_of(w.extra);
    let f5 = seq![Field::Ue(w.slice_type)];
    let f6 = seq![Field::Flag(w.output_flag)];
    let f7 = seq![Field::Bits(w.poc_lsb, sps.log2_max_poc_lsb as nat)];
    let o1 = or_none(irap, f1);
    let o3 = or_none(!w.first_slice, f3);
    let o6 = or_none(pps.output_flag_present, f6);
    let o7 = or_none(!idr, f7);
    let o8 = or_none(!idr, ref_fields(w.refs, sps.st_rps@.len(), index_bits));
    let q7 = o7 + o8;
    let q6 = o6 + q7;
    let q5 = f5 + q6;
    let q4 = f4 + q5;
    let q3 = o3 + q4;
    let q2 = f2 + q3;
    let q1 = o1 + q2;
    crate::coding::lemma_part_whole(fs);
    crate::coding::lemma_part_split(fs, 0, f0, q1);
    crate::coding::lemma_part_split(fs, 1, o1, q2);
    let k2 = 1 + o1.len() as int;
    crate::coding::lemma_part_split(fs, k2, f2, q3);
    crate::coding::lemma_part_split(fs, k2 + 1, o3, q4);
    let k4 = k2 + 1 + o3.len();
    crate::coding::lemma_part_split(fs, k4, f4, q5);
    let k5 = k4 + w.extra.len();
    crate::coding::lemma_part_split(fs, k5, f5, q6);
    crate::coding::lemma_part_split(fs, k5 + 1, o6, q7);
    let k7 = k5 + 1 + o6.len();
    crate::coding::lemma_part_split(fs, k7, o7, o8);
    let k8 = k7 + o7.len();
    let c0 = Cursor::start(rbsp);
    let c1 = step_part(c0, fs, 0, f0, 0);
    let c2 = lemma_optional(c1, fs, 1, irap, f1);
    let c3 = step_part(c2, fs, k2, f2, 0);
    let c4 = if !w.first_slice {
        lemma_address(c3, fs, k2 + 1, sps, pps, w.address, grid.0, grid.1, grid.2)
    } else {
        c3
    };
    let c5 = lemma_extra(c4, fs, k4, w.extra, w.extra.len());
    let c6 = step_part(c5, fs, k5, f5, 0);
    let c7 = lemma_optional(c6, fs, k5 + 1, pps.output_flag_present, f6);
    let c8 = lemma_optional(c7, fs, k7, !idr, f7);
    crate::coding::lemma_no_error(c8, fs, k8);
    if !idr {
        lemma_small(c7, fs, k7, f7, 0);
        assert forall|i: int| 0 <= i < sets.len() implies (#[trigger] sets[i]).nearest_first() by {
            assert(sets[i] == sps.st_rps@[i]@);
        }
        lemma_refs(c8, fs, k8, w.refs, sets, set, index_bits);
    }
}

/// Sequences that cannot be decoded are refused as unsupported: another
/// chroma format, other bit depths, scaling lists that are given, long-term
/// references.
pub proof fn other_sequences_are_refused(
    w: WrittenSps,
    sets: Seq<StRpsView>,
    head: Seq<u8>,
    payload: Seq<u8>,
    behind: Seq<u8>,
    nal: Seq<u8>,
)
    requires
        head.len() == 2,
        sps_complete(w),
        !sps_supported(w),
        list_stands_for(sets, w.sets),
        begins_with(payload, sps_fields(w)),
        nal == head + (escaped(payload) + behind),
    ensures
        sps_syntax(rbsp_of(nal.skip(2))).1.err matches Some(ErrorView::Unsupported(_)),
{
    crate::coding::lemma_nal_begins(head, payload, behind, nal, sps_fields(w));
    lemma_sps_refused(w, sets, rbsp_of(nal.skip(2)));
}

#[verifier::rlimit(60)]
proof fn lemma_sps_refused(w: WrittenSps, sets: Seq<StRpsView>, rbsp: Seq<u8>)
    requires
        sps_complete(w),
        !sps_supported(w),
        list_stands_for(sets, w.sets),
        begins_with(rbsp, sps_fields(w)),
    ensures
        sps_syntax(rbsp).1.err matches Some(ErrorView::Unsupported(_)),
{
    broadcast use crate::bitstream::group_sticky;

    crate::h265::lemma_sps_parts_error();
    let fs = sps_fields(w);
    let s0 = sps_head(w);
    let s1 = ptl_fields(w.ptl);
    let s2 = size_fields(w);
    let s3 = crop_fields(w);
    let s4 = depth_fields(w);
    let s5 = ordering_fields(w.ordering, w.ordering.len());
    let s6 = block_fields(w);
    let s7 = scaling_fields(w);
    let s8 = tool_fields(w);
    let s9 = pcm_fields(w);
    let t0 = seq![Field::Ue(w.sets.len())];
    let t1 = list_fields(w.sets, w.sets.len());
    let t2 = sps_end(w);
    let r1 = t1 + t2;
    let r0 = t0 + r1;
    let q9 = s9 + r0;
    let q8 = s8 + q9;
    let q7 = s7 + q8;
    let q6 = s6 + q7;
    let q5 = s5 + q6;
    let q4 = s4 + q5;
    let q3 = s3 + q4;
    let q2 = s2 + q3;
    let q1 = s1 + q2;
    crate::coding::lemma_part_whole(fs);
    crate::coding::lemma_part_split(fs, 0, s0, q1);
    crate::coding::lemma_part_split(fs, 3, s1, q2);
    let k2 = 3 + s1.len() as int;
    crate::coding::lemma_part_split(fs, k2, s2, q3);
    let k3 = k2 + 4;
    crate::coding::lemma_part_split(fs, k3, s3, q4);
    let k4 = k3 + s3.len();
    crate::coding::lemma_part_split(fs, k4, s4, q5);
    let k5 = k4 + 4;
    crate::coding::lemma_part_split(fs, k5, s5, q6);
    let k6 = k5 + s5.len();
    crate::coding::lemma_part_split(fs, k6, s6, q7);
    let k7 = k6 + 6;
    crate::coding::lemma_part_split(fs, k7, s7, q8);
    let k8 = k7 + s7.len();
    crate::coding::lemma_part_split(fs, k8, s8, q9);
    let k9 = k8 + 3;
    crate::coding::lemma_part_split(fs, k9, s9, r0);
    let j0 = k9 + s9.len();
    crate::coding::lemma_part_split(fs, j0, t0, r1);
    crate::coding::lemma_part_split(fs, j0 + 1, t1, t2);
    let j2 = j0 + 1 + t1.len();
    let c0 = Cursor::start(rbsp);
    let c1 = step_part(c0, fs, 0, s0, 0);
    let c2 = step_part(c1, fs, 0, s0, 1);
    let c3 = step_part(c2, fs, 0, s0, 2);
    let c4 = crate::h265_writing::lemma_ptl(c3, fs, 3, w.ptl);
    let c5 = step_part(c4, fs, k2, s2, 0);
    let c6 = step_part(c5, fs, k2, s2, 1);
    if w.chroma_format_idc == 1 {
        let c7 = step_part(c6, fs, k2, s2, 2);
        let c8 = step_part(c7, fs, k2, s2, 3);
        let c9 = lemma_crop(c8, fs, k3, w);
        let d1 = step_part(c9, fs, k4, s4, 0);
        let d2 = step_part(d1, fs, k4, s4, 1);
        let same = w.bit_depth_luma_minus8 == w.bit_depth_chroma_minus8 && (
        w.bit_depth_luma_minus8 == 0 || w.bit_depth_luma_minus8 == 2);
        assert(if same {
            depth_syntax(c9).1 == d2
        } else {
            depth_syntax(c9).1.err matches Some(ErrorView::Unsupported(_))
        }) by {
            reveal(depth_syntax);
        }
        if same {
            let d3 = step_part(d2, fs, k4, s4, 2);
            let d4 = step_part(d3, fs, k4, s4, 3);
            let d5 = lemma_ordering(d4, fs, k5, w.ordering, w.ordering.len());
            let d6 = lemma_blocks(d5, fs, k6, w);
            if w.scaling == Some(true) {
                let d7 = step_part(d6, fs, k7, s7, 0);
                let d8 = step_part(d7, fs, k7, s7, 1);
                assert(tools_syntax(d6).1.err matches Some(ErrorView::Unsupported(_))) by {
                    reveal(tools_syntax);
                }
            } else {
                let d7 = lemma_tools(d6, fs, k7, w);
                let d8 = lemma_set_list(d7, fs, j0, w, sets);
                let d9 = step_part(d8, fs, j2, t2, 0);
                assert(long_term_syntax(d8).err matches Some(ErrorView::Unsupported(_))) by {
                    reveal(long_term_syntax);
                }
            }
        }
    }
}

} // verus!
