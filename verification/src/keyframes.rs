//! Sharpest-in-window keyframe promotion. Times and sharpness scores are
//! numbers that order like them; the caller decides where a window ends.
use vstd::prelude::*;

verus! {

/// A frame that may become a keyframe.
#[derive(Debug, Clone)]
pub struct Candidate<F> {
    /// Presentation time, as a number that orders like it.
    pub time: i64,
    /// Sharpness, as a number that orders like it.
    pub sharpness: i64,
    pub frame: F,
}

/// `s` with `x` behind the elements that are not later than it.
pub open spec fn insert_by_time<F>(s: Seq<Candidate<F>>, x: Candidate<F>) -> Seq<Candidate<F>>
    decreases s.len(),
{
    if s.len() == 0 || s.last().time <= x.time {
        s.push(x)
    } else {
        insert_by_time(s.drop_last(), x).push(s.last())
    }
}

/// `s` in order of time; frames of one time keep their order.
pub open spec fn by_time<F>(s: Seq<Candidate<F>>) -> Seq<Candidate<F>>
    decreases s.len(),
{
    if s.len() == 0 {
        s
    } else {
        insert_by_time(by_time(s.drop_last()), s.last())
    }
}

/// Whether times do not decrease.
pub open spec fn in_time_order<F>(s: Seq<Candidate<F>>) -> bool {
    forall|i: int, j: int| 0 <= i < j < s.len() ==> (#[trigger] s[i]).time <= (
    #[trigger] s[j]).time
}

proof fn lemma_insert_by_time<F>(s: Seq<Candidate<F>>, x: Candidate<F>)
    requires
        in_time_order(s),
    ensures
        in_time_order(insert_by_time(s, x)),
        insert_by_time(s, x).len() == s.len() + 1,
        insert_by_time(s, x).to_multiset() == s.to_multiset().insert(x),
        forall|i: int|
            0 <= i < insert_by_time(s, x).len() ==> (#[trigger] insert_by_time(s, x)[i]).time
                <= x.time || (s.len() > 0 && insert_by_time(s, x)[i].time <= s.last().time),
    decreases s.len(),
{
    broadcast use vstd::seq_lib::group_to_multiset_ensures;

    if !(s.len() == 0 || s.last().time <= x.time) {
        let t = s.drop_last();
        assert forall|i: int, j: int| 0 <= i < j < t.len() implies (#[trigger] t[i]).time <= (
        #[trigger] t[j]).time by {
            assert(s[i].time <= s[j].time);
        }
        lemma_insert_by_time(t, x);
        let r = insert_by_time(t, x);
        assert forall|i: int| 0 <= i < r.len() implies (#[trigger] r[i]).time <= s.last().time by {
            if t.len() > 0 {
                assert(s[t.len() - 1].time <= s[s.len() - 1].time);
            }
        }
        assert(s =~= t.push(s.last()));
        assert(s.to_multiset() =~= t.to_multiset().insert(s.last()));
        assert(r.push(s.last()).to_multiset() =~= r.to_multiset().insert(s.last()));
        assert(t.to_multiset().insert(x).insert(s.last()) =~= t.to_multiset().insert(
            s.last(),
        ).insert(x));
    } else {
        let r = insert_by_time(s, x);
        assert forall|i: int, j: int| 0 <= i < j < r.len() implies (#[trigger] r[i]).time <= (
        #[trigger] r[j]).time by {
            if j == s.len() {
                assert(s[i].time <= s[s.len() - 1].time || i == s.len() - 1);
            } else {
                assert(s[i].time <= s[j].time);
            }
        }
    }
}

/// Keyframes come out in order of time, and they are the ones that were
/// promoted.
pub proof fn keyframes_are_in_time_order<F>(s: Seq<Candidate<F>>)
    ensures
        in_time_order(by_time(s)),
        by_time(s).len() == s.len(),
        by_time(s).to_multiset() == s.to_multiset(),
    decreases s.len(),
{
    broadcast use vstd::seq_lib::group_to_multiset_ensures;

    if s.len() > 0 {
        keyframes_are_in_time_order(s.drop_last());
        lemma_insert_by_time(by_time(s.drop_last()), s.last());
        assert(s =~= s.drop_last().push(s.last()));
        assert(s.to_multiset() =~= s.drop_last().to_multiset().insert(s.last()));
    }
}

/// The best candidate after another one of the same window: the sharper of
/// the two, the earlier where they are equal.
pub open spec fn sharper<F>(best: Option<Candidate<F>>, x: Candidate<F>) -> Candidate<F> {
    match best {
        Some(b) if x.sharpness <= b.sharpness => b,
        _ => x,
    }
}

/// The candidate of a window of `n` frames.
pub open spec fn best_of<F>(window: Seq<Candidate<F>>, n: nat) -> Option<Candidate<F>>
    decreases n,
{
    if n == 0 {
        None
    } else {
        Some(sharper(best_of(window, (n - 1) as nat), window[n - 1]))
    }
}

/// The sharpest frame of a window is promoted, the first where several are
/// equally sharp.
pub proof fn window_promotes_the_sharpest<F>(window: Seq<Candidate<F>>, n: nat)
    requires
        1 <= n <= window.len(),
    ensures
        exists|i: int|
            0 <= i < n && best_of(window, n) == Some(#[trigger] window[i]) && forall|j: int|
                0 <= j < n ==> (#[trigger] window[j]).sharpness <= window[i].sharpness && (j < i
                    ==> window[j].sharpness < window[i].sharpness),
    decreases n,
{
    if n == 1 {
        reveal_with_fuel(best_of, 2);
        assert(best_of(window, 1) == Some(window[0]));
    } else {
        window_promotes_the_sharpest(window, (n - 1) as nat);
        let i = choose|i: int|
            0 <= i < n - 1 && best_of(window, (n - 1) as nat) == Some(#[trigger] window[i])
                && forall|j: int|
                0 <= j < n - 1 ==> (#[trigger] window[j]).sharpness <= window[i].sharpness && (j
                    < i ==> window[j].sharpness < window[i].sharpness);
        if window[n - 1].sharpness <= window[i].sharpness {
            assert(best_of(window, n) == Some(window[i]));
        } else {
            assert(best_of(window, n) == Some(window[n - 1]));
        }
    }
}

/// What a selection holds: the promoted frames, the sharpest frame of the
/// current window, and whether more frames are wanted.
#[verifier::ext_equal]
pub struct Selection<F> {
    pub promoted: Seq<Candidate<F>>,
    pub best: Option<Candidate<F>>,
    pub more: bool,
}

impl<F> Selection<F> {
    /// The promoted frames once the current window is over.
    pub open spec fn flushed(self) -> Seq<Candidate<F>> {
        match self.best {
            Some(b) => self.promoted.push(b),
            None => self.promoted,
        }
    }

    /// The selection after the next frame, which may start a window. With a
    /// cap, which is not 0 then, a window past it ends the selection.
    pub open spec fn offered(self, cap: nat, x: Candidate<F>, new_window: bool) -> Selection<F> {
        let promoted = if new_window {
            self.flushed()
        } else {
            self.promoted
        };
        let best = if new_window {
            None
        } else {
            self.best
        };
        if new_window && cap > 0 && promoted.len() >= cap {
            Selection { promoted, best: None, more: false }
        } else {
            Selection { promoted, best: Some(sharper(best, x)), more: true }
        }
    }
}

/// Chooses keyframes from a stream of frames.
pub struct KeyframeSelector<F> {
    promoted: Vec<Candidate<F>>,
    best: Option<Candidate<F>>,
    max_keyframes: usize,
}

impl<F> KeyframeSelector<F> {
    /// The frames promoted so far, in the order of their windows.
    pub closed spec fn promoted(&self) -> Seq<Candidate<F>> {
        self.promoted@
    }

    /// The sharpest frame of the current window.
    pub closed spec fn best(&self) -> Option<Candidate<F>> {
        self.best
    }

    /// Cap on the number of keyframes; 0 for none.
    pub closed spec fn max_keyframes(&self) -> nat {
        self.max_keyframes as nat
    }

    /// What has been selected so far.
    pub open spec fn selected(&self) -> Selection<F> {
        Selection { promoted: self.promoted(), best: self.best(), more: true }
    }

    /// The promoted frames once the current window is over.
    pub open spec fn flushed(&self) -> Seq<Candidate<F>> {
        self.selected().flushed()
    }

    /// The cap is kept.
    pub open spec fn within_cap(&self) -> bool {
        self.max_keyframes() > 0 ==> self.flushed().len() <= self.max_keyframes()
    }

    /// The cap is kept, and the next frame may still become a keyframe.
    pub open spec fn accepting(&self) -> bool {
        &&& self.within_cap()
        &&& self.max_keyframes() > 0 && self.best() is None ==> self.promoted().len()
            < self.max_keyframes()
    }

    /// No frames yet.
    pub fn new(max_keyframes: usize) -> (s: Self)
        ensures
            s.promoted() == Seq::<Candidate<F>>::empty(),
            s.best() is None,
            s.max_keyframes() == max_keyframes,
            s.accepting(),
    {
        KeyframeSelector { promoted: Vec::new(), best: None, max_keyframes }
    }

    fn flush(&mut self)
        ensures
            final(self).promoted() == old(self).flushed(),
            final(self).best() is None,
            final(self).max_keyframes() == old(self).max_keyframes(),
    {
        match self.best.take() {
            Some(b) => {
                self.promoted.push(b);
            },
            None => {},
        }
    }

    /// Takes the next frame in decode order. `new_window` says that it lies
    /// past the current window. Returns false when the cap was reached; the
    /// frame is then left out, and no more may be offered. So the cap is never
    /// exceeded.
    pub fn offer(&mut self, x: Candidate<F>, new_window: bool) -> (more: bool)
        ensures
            final(self).max_keyframes() == old(self).max_keyframes(),
            old(self).accepting() ==> final(self).within_cap() && (more ==> final(self).accepting()),
            ({
                let next = old(self).selected().offered(old(self).max_keyframes(), x, new_window);
                &&& more == next.more
                &&& final(self).promoted() == next.promoted
                &&& final(self).best() == next.best
            }),
    {
        if new_window {
            self.flush();
            if self.max_keyframes > 0 && self.promoted.len() >= self.max_keyframes {
                return false;
            }
        }
        let replace: bool = match &self.best {
            Some(b) => x.sharpness > b.sharpness,
            None => true,
        };
        if replace {
            self.best = Some(x);
        }
        true
    }

    /// Ends the stream: the keyframes in order of time.
    pub fn finish(self) -> (out: Vec<Candidate<F>>)
        ensures
            out@ == by_time(self.flushed()),
            self.within_cap() && self.max_keyframes() > 0 ==> out@.len() <= self.max_keyframes(),
    {
        let ghost all = self.flushed();
        let mut selector = self;
        selector.flush();
        let mut rest: Vec<Candidate<F>> = selector.promoted;
        let mut out: Vec<Candidate<F>> = Vec::new();
        let mut done: usize = 0;
        // Taken from the front one by one, each goes behind those that are
        // not later.
        let n: usize = rest.len();
        assert(all.skip(0) =~= all);
        assert(all.take(0) =~= Seq::empty());
        while done < n
            invariant
                done <= n,
                n == all.len(),
                rest@ == all.skip(done as int),
                out@ == by_time(all.take(done as int)),
                out@.len() == done,
            decreases n - done,
        {
            let x = rest.remove(0);
            let ghost before = out@;
            let mut at: usize = out.len();
            assert(before.take(at as int) =~= before);
            assert(before.skip(at as int) =~= Seq::empty());
            assert(insert_by_time(before, x) + Seq::<Candidate<F>>::empty() =~= insert_by_time(
                before,
                x,
            ));
            while at > 0 && out[at - 1].time > x.time
                invariant
                    at <= out@.len(),
                    out@ == before,
                    insert_by_time(before.take(at as int), x) + before.skip(at as int)
                        == insert_by_time(before, x),
                decreases at,
            {
                proof {
                    let s = before.take(at as int);
                    let shorter = before.take(at - 1);
                    assert(s.drop_last() =~= shorter);
                    assert(s.last() == before[at - 1]);
                    assert(insert_by_time(shorter, x) + before.skip(at - 1) =~= insert_by_time(
                        shorter,
                        x,
                    ).push(s.last()) + before.skip(at as int));
                }
                at = at - 1;
            }
            let ghost item = x;
            out.insert(at, x);
            proof {
                let s = before.take(at as int);
                assert(insert_by_time(s, item) == s.push(item));
                assert(out@ =~= s.push(item) + before.skip(at as int));
                let t = all.take(done + 1);
                assert(t.drop_last() =~= all.take(done as int));
                assert(t.last() == item);
                assert(rest@ =~= all.skip(done + 1));
            }
            done = done + 1;
        }
        assert(all.take(n as int) =~= all);
        out
    }
}

// ---- a whole stream ----

/// The selection after the first `n` frames of a stream, each with whether it
/// starts a window. Once no more are wanted, none is offered.
pub open spec fn selection<F>(offers: Seq<(Candidate<F>, bool)>, cap: nat, n: nat) -> Selection<F>
    decreases n,
{
    if n == 0 {
        Selection { promoted: Seq::empty(), best: None, more: true }
    } else {
        let s = selection(offers, cap, (n - 1) as nat);
        if s.more {
            s.offered(cap, offers[n - 1].0, offers[n - 1].1)
        } else {
            s
        }
    }
}

/// The keyframes of a stream.
pub open spec fn keyframes_of<F>(offers: Seq<(Candidate<F>, bool)>, cap: nat) -> Seq<Candidate<F>> {
    by_time(selection(offers, cap, offers.len()).flushed())
}

/// The windows of the first `n` frames of a stream. The first frame is in the
/// first window, whether it starts one or not.
pub open spec fn windows<F>(offers: Seq<(Candidate<F>, bool)>, n: nat) -> Seq<Seq<Candidate<F>>>
    decreases n,
{
    if n == 0 {
        Seq::empty()
    } else {
        let w = windows(offers, (n - 1) as nat);
        let x = offers[n - 1].0;
        if w.len() == 0 || offers[n - 1].1 {
            w.push(seq![x])
        } else {
            w.update(w.len() - 1, w.last().push(x))
        }
    }
}

/// Whether `x` is the sharpest frame of a window, the first where several are
/// equally sharp.
pub open spec fn is_first_sharpest<F>(window: Seq<Candidate<F>>, x: Candidate<F>) -> bool {
    exists|i: int|
        0 <= i < window.len() && x == #[trigger] window[i] && forall|j: int|
            0 <= j < window.len() ==> (#[trigger] window[j]).sharpness <= window[i].sharpness && (j
                < i ==> window[j].sharpness < window[i].sharpness)
}

/// The frames that the first `k` windows promote.
pub open spec fn winners<F>(w: Seq<Seq<Candidate<F>>>, k: nat) -> Seq<Candidate<F>> {
    Seq::new(k, |i: int| best_of(w[i], w[i].len())->0)
}

/// How many windows promote a frame: all, or the first `cap` where there is a
/// cap.
pub open spec fn promoting<F>(w: Seq<Seq<Candidate<F>>>, cap: nat) -> nat {
    if cap > 0 && cap < w.len() {
        cap
    } else {
        w.len()
    }
}

proof fn lemma_best_of_longer<F>(window: Seq<Candidate<F>>, x: Candidate<F>, n: nat)
    requires
        n <= window.len(),
    ensures
        best_of(window.push(x), n) == best_of(window, n),
    decreases n,
{
    if n > 0 {
        lemma_best_of_longer(window, x, (n - 1) as nat);
    }
}

/// What holds of the selection after the first `n` frames.
spec fn stream_inv<F>(w: Seq<Seq<Candidate<F>>>, s: Selection<F>, cap: nat) -> bool {
    &&& forall|i: int| 0 <= i < w.len() ==> (#[trigger] w[i]).len() >= 1
    &&& if !s.more {
        0 < cap < w.len() && s.best is None && s.promoted == winners(w, cap)
    } else if w.len() == 0 {
        s.best is None && s.promoted.len() == 0
    } else {
        &&& s.best is Some
        &&& s.best == best_of(w.last(), w.last().len())
        &&& s.promoted == winners(w, (w.len() - 1) as nat)
        &&& cap > 0 ==> w.len() <= cap
    }
}

proof fn lemma_stream_inv<F>(offers: Seq<(Candidate<F>, bool)>, cap: nat, n: nat)
    requires
        n <= offers.len(),
    ensures
        stream_inv(windows(offers, n), selection(offers, cap, n), cap),
    decreases n,
{
    if n > 0 {
        lemma_stream_inv(offers, cap, (n - 1) as nat);
        let w = windows(offers, (n - 1) as nat);
        let s = selection(offers, cap, (n - 1) as nat);
        let (x, new) = offers[n - 1];
        let next = windows(offers, n);
        let last = next.len() - 1;
        assert forall|i: int| 0 <= i < next.len() implies (#[trigger] next[i]).len() >= 1 by {
            if i < last {
                assert(next[i] == w[i]);
            }
        }
        if !s.more {
            assert(winners(next, cap) =~= winners(w, cap));
        } else if w.len() == 0 || new {
            assert(next[last] =~= seq![x]);
            reveal_with_fuel(best_of, 2);
            assert(best_of(next[last], 1) == Some(x));
            if w.len() > 0 {
                assert(s.flushed() =~= winners(w, w.len()));
            } else {
                assert(s.flushed() =~= winners(w, 0));
            }
            assert(winners(next, w.len()) =~= winners(w, w.len()));
        } else {
            lemma_best_of_longer(w.last(), x, w.last().len());
            assert(next[last] == w.last().push(x));
            assert(next[last][w.last().len() as int] == x);
            assert(winners(next, last as nat) =~= winners(w, last as nat));
        }
    }
}

/// The keyframes of a stream are the frames that its windows promote, one of
/// each, ordered by time: the first sharpest frame of every window, or of the
/// first `cap` windows where there is a cap.
pub proof fn stream_keeps_one_frame_of_each_window<F>(
    offers: Seq<(Candidate<F>, bool)>,
    cap: nat,
)
    ensures
        ({
            let w = windows(offers, offers.len());
            let k = promoting(w, cap);
            let out = keyframes_of(offers, cap);
            &&& out == by_time(winners(w, k))
            &&& out.len() == k
            &&& in_time_order(out)
            &&& out.to_multiset() == winners(w, k).to_multiset()
            &&& forall|i: int|
                0 <= i < k ==> is_first_sharpest(w[i], #[trigger] winners(w, k)[i])
        }),
{
    let n = offers.len();
    lemma_stream_inv(offers, cap, n);
    let w = windows(offers, n);
    let s = selection(offers, cap, n);
    let k = promoting(w, cap);
    assert forall|i: int| 0 <= i < k implies is_first_sharpest(
        w[i],
        #[trigger] winners(w, k)[i],
    ) by {
        window_promotes_the_sharpest(w[i], w[i].len());
    }
    assert(s.flushed() =~= winners(w, k));
    keyframes_are_in_time_order(s.flushed());
}

/// Whether [`KeyframeSelector::offer`] goes from `before` to `after` on a frame
/// and answers `more`.
pub open spec fn offers_to<F>(
    before: KeyframeSelector<F>,
    offer: (Candidate<F>, bool),
    after: KeyframeSelector<F>,
    more: bool,
) -> bool {
    let next = before.selected().offered(before.max_keyframes(), offer.0, offer.1);
    &&& after.max_keyframes() == before.max_keyframes()
    &&& more == next.more
    &&& after.promoted() == next.promoted
    &&& after.best() == next.best
}

proof fn lemma_selection_stays<F>(offers: Seq<(Candidate<F>, bool)>, cap: nat, m: nat, n: nat)
    requires
        m <= n,
        !selection(offers, cap, m).more,
    ensures
        selection(offers, cap, n) == selection(offers, cap, m),
    decreases n,
{
    if m < n {
        lemma_selection_stays(offers, cap, m, (n - 1) as nat);
    }
}

proof fn lemma_selector_follows<F>(
    states: Seq<KeyframeSelector<F>>,
    answers: Seq<bool>,
    offers: Seq<(Candidate<F>, bool)>,
    n: nat,
)
    requires
        n <= offers.len(),
        n <= answers.len(),
        n < states.len(),
        states[0].promoted() == Seq::<Candidate<F>>::empty(),
        states[0].best() is None,
        forall|k: int|
            0 <= k < n ==> offers_to(
                states[k],
                #[trigger] offers[k],
                states[k + 1],
                answers[k],
            ),
        forall|k: int| 0 <= k < n - 1 ==> #[trigger] answers[k],
    ensures
        states[n as int].max_keyframes() == states[0].max_keyframes(),
        ({
            let s = selection(offers, states[0].max_keyframes(), n);
            &&& states[n as int].promoted() == s.promoted
            &&& states[n as int].best() == s.best
            &&& s.more == (n == 0 || answers[n - 1])
        }),
    decreases n,
{
    if n > 0 {
        lemma_selector_follows(states, answers, offers, (n - 1) as nat);
        assert(offers_to(states[n - 1], offers[n - 1], states[n as int], answers[n - 1]));
        let s = selection(offers, states[0].max_keyframes(), (n - 1) as nat);
        assert(n - 1 > 0 ==> answers[n - 2]);
        assert(states[n - 1].selected() =~= s);
    }
}

/// A new selector that is offered the frames of a stream, until it wants no
/// more or the stream ends, finishes with the keyframes of the stream:
/// `states` holds it before the first frame and after each of `n`, `answers`
/// what it answered.
pub proof fn selector_gives_the_keyframes<F>(
    states: Seq<KeyframeSelector<F>>,
    answers: Seq<bool>,
    offers: Seq<(Candidate<F>, bool)>,
    n: nat,
)
    requires
        n <= offers.len(),
        answers.len() == n,
        states.len() == n + 1,
        states[0].promoted() == Seq::<Candidate<F>>::empty(),
        states[0].best() is None,
        forall|k: int|
            0 <= k < n ==> offers_to(
                states[k],
                #[trigger] offers[k],
                states[k + 1],
                answers[k],
            ),
        forall|k: int| 0 <= k < n - 1 ==> #[trigger] answers[k],
        n == offers.len() || (n > 0 && !answers[n - 1]),
    ensures
        by_time(states[n as int].flushed()) == keyframes_of(offers, states[0].max_keyframes()),
{
    let cap = states[0].max_keyframes();
    lemma_selector_follows(states, answers, offers, n);
    let s = selection(offers, cap, n);
    if n < offers.len() {
        lemma_selection_stays(offers, cap, n, offers.len());
    }
    assert(states[n as int].flushed() == s.flushed());
}

/// Frames that are in the order of their times stay as they are, and frames of
/// one time keep their order.
pub proof fn ordered_frames_stay<F>(s: Seq<Candidate<F>>)
    requires
        in_time_order(s),
    ensures
        by_time(s) == s,
    decreases s.len(),
{
    if s.len() > 0 {
        let shorter = s.drop_last();
        assert forall|i: int, j: int| 0 <= i < j < shorter.len() implies (
        #[trigger] shorter[i]).time <= (#[trigger] shorter[j]).time by {
            assert(s[i].time <= s[j].time);
        }
        ordered_frames_stay(shorter);
        if shorter.len() > 0 {
            assert(s[s.len() - 2].time <= s[s.len() - 1].time);
        }
        assert(shorter.push(s.last()) =~= s);
    }
}

} // verus!
