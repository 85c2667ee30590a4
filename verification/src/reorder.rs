//! Presentation order: decoded frames are held until enough newer ones exist,
//! then handed out by presentation time.
use vstd::prelude::*;

verus! {

/// Index of the earliest element of a queue, the first where times are equal.
pub open spec fn is_earliest<T>(q: Seq<(i128, T)>, i: int) -> bool {
    &&& 0 <= i < q.len()
    &&& forall|j: int|
        0 <= j < q.len() ==> q[i].0 <= (#[trigger] q[j]).0 && (j < i ==> q[i].0 < q[j].0)
}

/// The earliest element of a queue that is not empty.
pub open spec fn earliest<T>(q: Seq<(i128, T)>) -> int {
    choose|i: int| is_earliest(q, i)
}

/// The queue without element `i`, whose place the last one takes.
pub open spec fn without<T>(q: Seq<(i128, T)>, i: int) -> Seq<(i128, T)> {
    q.update(i, q.last()).drop_last()
}

/// What the next sample of a track holds.
pub enum Event<T> {
    /// No coded picture.
    Skipped,
    /// A picture, decoded, with its presentation time.
    Decoded(i128, T),
    /// The track has ended.
    Ended,
}

/// What to do next.
pub enum Action<T> {
    /// Read the next sample.
    ReadOn,
    /// Hand this frame out.
    Present(T),
    /// All frames have been handed out.
    Finished,
}

/// A queue after its earliest frame was taken out, and that frame.
pub open spec fn popped<T>(q: Seq<(i128, T)>) -> (Seq<(i128, T)>, Option<(i128, T)>) {
    if q.len() == 0 {
        (q, None)
    } else {
        (without(q, earliest(q)), Some(q[earliest(q)]))
    }
}

/// A queue after a frame was added, and the frame that leaves it: the earliest
/// when more than `depth` are waiting.
pub open spec fn pushed<T>(q: Seq<(i128, T)>, depth: nat, x: (i128, T)) -> (
    Seq<(i128, T)>,
    Option<(i128, T)>,
) {
    if q.len() + 1 > depth {
        popped(q.push(x))
    } else {
        (q.push(x), None)
    }
}

/// The waiting frames after an event, and the frame handed out.
pub open spec fn after_event<T>(q: Seq<(i128, T)>, depth: nat, e: Event<T>) -> (
    Seq<(i128, T)>,
    Option<(i128, T)>,
) {
    match e {
        Event::Skipped => (q, None),
        Event::Decoded(time, frame) => pushed(q, depth, (time, frame)),
        Event::Ended => popped(q),
    }
}

/// The frame without its time.
pub open spec fn frame_of<T>(x: Option<(i128, T)>) -> Option<T> {
    match x {
        Some(f) => Some(f.1),
        None => None,
    }
}

/// Frames waiting to be presented, each with its presentation time.
pub struct ReorderQueue<T> {
    pending: Vec<(i128, T)>,
    depth: usize,
}

impl<T> ReorderQueue<T> {
    /// The waiting frames.
    pub closed spec fn pending(&self) -> Seq<(i128, T)> {
        self.pending@
    }

    /// How many frames are held back.
    pub closed spec fn depth(&self) -> nat {
        self.depth as nat
    }

    /// An empty queue that holds back `depth` frames.
    pub fn new(depth: usize) -> (q: Self)
        ensures
            q.pending() == Seq::<(i128, T)>::empty(),
            q.depth() == depth,
    {
        ReorderQueue { pending: Vec::new(), depth }
    }

    /// Takes the earliest waiting frame out.
    pub fn pop_earliest(&mut self) -> (res: Option<T>)
        ensures
            final(self).depth() == old(self).depth(),
            final(self).pending() == popped(old(self).pending()).0,
            res == frame_of(popped(old(self).pending()).1),
            res is None <==> old(self).pending().len() == 0,
            res is Some ==> is_earliest(old(self).pending(), earliest(old(self).pending())),
    {
        if self.pending.len() == 0 {
            return None;
        }
        let mut best: usize = 0;
        let mut i: usize = 1;
        while i < self.pending.len()
            invariant
                1 <= i <= self.pending@.len(),
                best < i,
                self.pending@ == old(self).pending@,
                self.depth == old(self).depth,
                forall|j: int|
                    0 <= j < i ==> self.pending@[best as int].0 <= (#[trigger] self.pending@[j]).0
                        && (j < best ==> self.pending@[best as int].0 < self.pending@[j].0),
            decreases self.pending@.len() - i,
        {
            if self.pending[i].0 < self.pending[best].0 {
                best = i;
            }
            i = i + 1;
        }
        proof {
            let q = old(self).pending();
            assert(is_earliest(q, best as int));
            lemma_earliest_is_unique(q, best as int, earliest(q));
        }
        let (_, x) = self.pending.swap_remove(best);
        Some(x)
    }

    /// Adds a decoded frame; hands out the earliest one when more than
    /// `depth` are waiting.
    pub fn push(&mut self, time: i128, frame: T) -> (res: Option<T>)
        ensures
            final(self).depth() == old(self).depth(),
            final(self).pending() == pushed(
                old(self).pending(),
                old(self).depth(),
                (time, frame),
            ).0,
            res == frame_of(pushed(old(self).pending(), old(self).depth(), (time, frame)).1),
            res is Some <==> old(self).pending().len() + 1 > old(self).depth(),
    {
        self.pending.push((time, frame));
        if self.pending.len() > self.depth {
            self.pop_earliest()
        } else {
            None
        }
    }

    /// Takes in what the next sample holds, and says what to do next.
    pub fn step(&mut self, e: Event<T>) -> (a: Action<T>)
        ensures
            final(self).depth() == old(self).depth(),
            final(self).pending() == after_event(old(self).pending(), old(self).depth(), e).0,
            a == answer(*old(self), e),
    {
        match e {
            Event::Skipped => Action::ReadOn,
            Event::Decoded(time, frame) => match self.push(time, frame) {
                Some(x) => Action::Present(x),
                None => Action::ReadOn,
            },
            Event::Ended => match self.pop_earliest() {
                Some(x) => Action::Present(x),
                None => Action::Finished,
            },
        }
    }
}

proof fn lemma_earliest_is_unique<T>(q: Seq<(i128, T)>, i: int, j: int)
    requires
        is_earliest(q, i),
        is_earliest(q, j),
    ensures
        i == j,
{
    assert(q[i].0 <= q[j].0 && q[j].0 <= q[i].0);
}

proof fn lemma_prefix_has_earliest<T>(q: Seq<(i128, T)>, n: nat)
    requires
        1 <= n <= q.len(),
    ensures
        exists|i: int| #[trigger] is_earliest(q.take(n as int), i),
    decreases n,
{
    let t = q.take(n as int);
    if n == 1 {
        assert(is_earliest(t, 0));
    } else {
        lemma_prefix_has_earliest(q, (n - 1) as nat);
        let s = q.take(n - 1);
        let i = choose|i: int| is_earliest(s, i);
        assert forall|j: int| 0 <= j < n - 1 implies t[j] == s[j] by {}
        if t[n - 1].0 < t[i].0 {
            assert(is_earliest(t, n - 1)) by {
                assert forall|j: int| 0 <= j < t.len() implies t[n - 1].0 <= (#[trigger] t[j]).0
                    && (j < n - 1 ==> t[n - 1].0 < t[j].0) by {
                    if j < n - 1 {
                        assert(s[i].0 <= s[j].0);
                    }
                }
            }
        } else {
            assert(is_earliest(t, i)) by {
                assert forall|j: int| 0 <= j < t.len() implies t[i].0 <= (#[trigger] t[j]).0 && (j
                    < i ==> t[i].0 < t[j].0) by {
                    if j < n - 1 {
                        assert(s[i].0 <= s[j].0);
                    }
                }
            }
        }
    }
}

/// Popping hands out one frame, an earliest one.
pub proof fn popping_removes_one<T>(q: Seq<(i128, T)>)
    requires
        q.len() > 0,
    ensures
        is_earliest(q, earliest(q)),
        popped(q).0.len() == q.len() - 1,
        popped(q).0.to_multiset() == q.to_multiset().remove(q[earliest(q)]),
{
    lemma_prefix_has_earliest(q, q.len());
    assert(q.take(q.len() as int) =~= q);
    let i = earliest(q);
    let d = q.drop_last();
    let x = q.last();
    broadcast use vstd::seq_lib::group_to_multiset_ensures;

    assert(q =~= d.push(x));
    if i == q.len() - 1 {
        assert(without(q, i) =~= d);
        assert(q.to_multiset().remove(x) =~= d.to_multiset());
    } else {
        let e = d.remove(i);
        assert(without(q, i) =~= e.insert(i, x));
        assert(e.to_multiset() == d.to_multiset().remove(d[i]));
        assert(d.contains(d[i]));
        assert(d.to_multiset().count(d[i]) > 0);
        assert(e.to_multiset().insert(x) =~= d.to_multiset().insert(x).remove(d[i]));
    }
}

/// A run of the queue: the waiting frames, and the frames handed out.
#[verifier::ext_equal]
pub struct Run<T> {
    pub pending: Seq<(i128, T)>,
    pub out: Seq<(i128, T)>,
}

impl<T> Run<T> {
    /// The run after one more event.
    pub open spec fn after(self, depth: nat, e: Event<T>) -> Run<T> {
        let (pending, given) = after_event(self.pending, depth, e);
        Run {
            pending,
            out: match given {
                Some(x) => self.out.push(x),
                None => self.out,
            },
        }
    }

    /// The run after the end of the track has been met until nothing waits.
    pub open spec fn drained(self) -> Run<T>
        decreases self.pending.len(),
    {
        if self.pending.len() == 0 {
            self
        } else {
            proof {
                popping_removes_one(self.pending);
            }
            self.after(0, Event::Ended).drained()
        }
    }
}

/// What a sample holds: no picture, or a frame with its time.
pub open spec fn event_of<T>(sample: Option<(i128, T)>) -> Event<T> {
    match sample {
        None => Event::Skipped,
        Some(x) => Event::Decoded(x.0, x.1),
    }
}

/// The run over the first `n` samples of a track, in decode order.
pub open spec fn run_of<T>(samples: Seq<Option<(i128, T)>>, depth: nat, n: nat) -> Run<T>
    decreases n,
{
    if n == 0 {
        Run { pending: Seq::empty(), out: Seq::empty() }
    } else {
        run_of(samples, depth, (n - 1) as nat).after(depth, event_of(samples[n - 1]))
    }
}

/// All frames that are handed out for a track.
pub open spec fn presented<T>(samples: Seq<Option<(i128, T)>>, depth: nat) -> Seq<(i128, T)> {
    run_of(samples, depth, samples.len()).drained().out
}

/// The frames of the first `n` samples.
pub open spec fn frames_in<T>(samples: Seq<Option<(i128, T)>>, n: nat) -> Seq<(i128, T)>
    decreases n,
{
    if n == 0 {
        Seq::empty()
    } else {
        match samples[n - 1] {
            None => frames_in(samples, (n - 1) as nat),
            Some(x) => frames_in(samples, (n - 1) as nat).push(x),
        }
    }
}

/// How many frames of a list are presented after `time`.
pub open spec fn later_count<T>(q: Seq<(i128, T)>, time: i128) -> nat
    decreases q.len(),
{
    if q.len() == 0 {
        0
    } else {
        later_count(q.drop_last(), time) + if q.last().0 > time {
            1nat
        } else {
            0nat
        }
    }
}

/// Whether no frame is preceded in decode order by more than `depth` frames
/// that are presented after it.
pub open spec fn reorder_is_bounded<T>(samples: Seq<Option<(i128, T)>>, depth: nat) -> bool {
    forall|i: int|
        0 <= i < samples.len() ==> ((#[trigger] samples[i]) matches Some(x) ==> later_count(
            frames_in(samples, i as nat),
            x.0,
        ) <= depth)
}

proof fn lemma_later_push<T>(q: Seq<(i128, T)>, x: (i128, T), time: i128)
    ensures
        later_count(q.push(x), time) == later_count(q, time) + if x.0 > time {
            1nat
        } else {
            0nat
        },
{
    assert(q.push(x).drop_last() =~= q);
}

proof fn lemma_later_update<T>(q: Seq<(i128, T)>, i: int, x: (i128, T), time: i128)
    requires
        0 <= i < q.len(),
    ensures
        later_count(q.update(i, x), time) + (if q[i].0 > time {
            1nat
        } else {
            0nat
        }) == later_count(q, time) + if x.0 > time {
            1nat
        } else {
            0nat
        },
    decreases q.len(),
{
    if i == q.len() - 1 {
        assert(q.update(i, x).drop_last() =~= q.drop_last());
    } else {
        assert(q.update(i, x).drop_last() =~= q.drop_last().update(i, x));
        lemma_later_update(q.drop_last(), i, x, time);
    }
}

proof fn lemma_later_popped<T>(q: Seq<(i128, T)>, time: i128)
    requires
        q.len() > 0,
    ensures
        later_count(popped(q).0, time) + (if q[earliest(q)].0 > time {
            1nat
        } else {
            0nat
        }) == later_count(q, time),
{
    popping_removes_one(q);
    let i = earliest(q);
    lemma_later_update(q, i, q.last(), time);
    if i == q.len() - 1 {
        assert(q.update(i, q.last()) =~= q);
    }
}

proof fn lemma_all_later<T>(q: Seq<(i128, T)>, time: i128)
    requires
        forall|k: int| 0 <= k < q.len() ==> (#[trigger] q[k]).0 > time,
    ensures
        later_count(q, time) == q.len(),
    decreases q.len(),
{
    if q.len() > 0 {
        lemma_all_later(q.drop_last(), time);
    }
}

proof fn lemma_later_grows<T>(samples: Seq<Option<(i128, T)>>, m: nat, n: nat, time: i128)
    requires
        m <= n <= samples.len(),
    ensures
        later_count(frames_in(samples, m), time) <= later_count(frames_in(samples, n), time),
    decreases n,
{
    if m < n {
        lemma_later_grows(samples, m, (n - 1) as nat, time);
        if let Some(x) = samples[n - 1] {
            lemma_later_push(frames_in(samples, (n - 1) as nat), x, time);
        }
    }
}

/// What holds at every point of a run over the first `n` samples.
spec fn run_inv<T>(samples: Seq<Option<(i128, T)>>, n: nat, r: Run<T>) -> bool {
    &&& r.out.to_multiset().add(r.pending.to_multiset()) == frames_in(samples, n).to_multiset()
    &&& forall|time: i128| #[trigger]
        later_count(r.out, time) + later_count(r.pending, time) == later_count(
            frames_in(samples, n),
            time,
        )
    &&& forall|a: int, b: int| 0 <= a < b < r.out.len() ==> r.out[a].0 <= r.out[b].0
    &&& forall|a: int, k: int|
        0 <= a < r.out.len() && 0 <= k < r.pending.len() ==> (#[trigger] r.out[a]).0 <= (
        #[trigger] r.pending[k]).0
    &&& forall|a: int, i: int|
        0 <= a < r.out.len() && n <= i < samples.len() ==> not_after(
            (#[trigger] r.out[a]).0,
            #[trigger] samples[i],
        )
}

/// Whether the frame of a sample, if it has one, is not before `time`.
spec fn not_after<T>(time: i128, sample: Option<(i128, T)>) -> bool {
    sample matches Some(x) ==> time <= x.0
}

proof fn lemma_pop_inv<T>(samples: Seq<Option<(i128, T)>>, n: nat, r: Run<T>, depth: nat)
    requires
        n <= samples.len(),
        run_inv(samples, n, r),
        r.pending.len() > 0,
        forall|i: int|
            n <= i < samples.len() ==> not_after(
                r.pending[earliest(r.pending)].0,
                #[trigger] samples[i],
            ),
    ensures
        run_inv(samples, n, r.after(depth, Event::Ended)),
{
    broadcast use vstd::seq_lib::group_to_multiset_ensures;

    popping_removes_one(r.pending);
    let i = earliest(r.pending);
    let p = r.after(depth, Event::Ended);
    let last = r.pending.len() - 1;
    let x = r.pending[i];
    assert(p.pending == without(r.pending, i));
    assert(p.out == r.out.push(x));
    assert forall|k: int| 0 <= k < p.pending.len() implies p.pending[k] == (if k == i {
        r.pending[last]
    } else {
        r.pending[k]
    }) by {}
    assert(r.pending.contains(x));
    assert(r.pending.to_multiset().count(x) > 0);
    assert(p.out.to_multiset().add(p.pending.to_multiset()) =~= r.out.to_multiset().add(
        r.pending.to_multiset(),
    ));
    assert forall|time: i128| #[trigger]
        later_count(p.out, time) + later_count(p.pending, time) == later_count(
            frames_in(samples, n),
            time,
        ) by {
        lemma_later_push(r.out, x, time);
        lemma_later_popped(r.pending, time);
        assert(later_count(r.out, time) + later_count(r.pending, time) == later_count(
            frames_in(samples, n),
            time,
        ));
    }
    assert forall|a: int, b: int| 0 <= a < b < p.out.len() implies p.out[a].0 <= p.out[b].0 by {
        if b == r.out.len() {
            assert(r.out[a].0 <= r.pending[i].0);
        }
    }
    assert forall|a: int, k: int| 0 <= a < p.out.len() && 0 <= k < p.pending.len() implies (
    #[trigger] p.out[a]).0 <= (#[trigger] p.pending[k]).0 by {
        let e = if k == i {
            last
        } else {
            k
        };
        assert(p.pending[k] == r.pending[e]);
        if a < r.out.len() {
            assert(r.out[a].0 <= r.pending[e].0);
        } else {
            assert(x.0 <= r.pending[e].0);
        }
    }
    assert forall|a: int, j: int| 0 <= a < p.out.len() && n <= j < samples.len() implies not_after(
        (#[trigger] p.out[a]).0,
        #[trigger] samples[j],
    ) by {
        if a < r.out.len() {
            assert(not_after(r.out[a].0, samples[j]));
        }
    }
}

/// With more than `depth` frames waiting, none still to come is earlier than
/// all of them.
proof fn lemma_front_is_safe<T>(
    samples: Seq<Option<(i128, T)>>,
    depth: nat,
    n: nat,
    r: Run<T>,
    i: int,
)
    requires
        n <= i < samples.len(),
        run_inv(samples, n, r),
        r.pending.len() > depth,
        reorder_is_bounded(samples, depth),
    ensures
        not_after(r.pending[earliest(r.pending)].0, samples[i]),
{
    popping_removes_one(r.pending);
    let e = earliest(r.pending);
    if let Some(x) = samples[i] {
        if r.pending[e].0 > x.0 {
            assert forall|k: int| 0 <= k < r.pending.len() implies (#[trigger] r.pending[k]).0
                > x.0 by {
                assert(r.pending[e].0 <= r.pending[k].0);
            }
            lemma_all_later(r.pending, x.0);
            assert(later_count(r.out, x.0) + later_count(r.pending, x.0) == later_count(
                frames_in(samples, n),
                x.0,
            ));
            lemma_later_grows(samples, n, i as nat, x.0);
        }
    }
}

proof fn lemma_run_inv<T>(samples: Seq<Option<(i128, T)>>, depth: nat, n: nat)
    requires
        n <= samples.len(),
        reorder_is_bounded(samples, depth),
    ensures
        run_inv(samples, n, run_of(samples, depth, n)),
    decreases n,
{
    broadcast use vstd::seq_lib::group_to_multiset_ensures;

    if n == 0 {
        let e = Seq::<(i128, T)>::empty();
        assert(e.to_multiset().add(e.to_multiset()) =~= e.to_multiset());
    } else {
        lemma_run_inv(samples, depth, (n - 1) as nat);
        let r0 = run_of(samples, depth, (n - 1) as nat);
        match samples[n - 1] {
            None => {},
            Some(x) => {
                let f0 = frames_in(samples, (n - 1) as nat);
                let r = Run { pending: r0.pending.push(x), ..r0 };
                assert(run_inv(samples, n, r)) by {
                    assert(r.out.to_multiset().add(r.pending.to_multiset())
                        =~= f0.to_multiset().insert(x));
                    assert forall|time: i128| #[trigger]
                        later_count(r.out, time) + later_count(r.pending, time) == later_count(
                            frames_in(samples, n),
                            time,
                        ) by {
                        lemma_later_push(r0.pending, x, time);
                        lemma_later_push(f0, x, time);
                        assert(later_count(r0.out, time) + later_count(r0.pending, time)
                            == later_count(f0, time));
                    }
                    assert forall|a: int, k: int|
                        0 <= a < r.out.len() && 0 <= k < r.pending.len() implies (
                    #[trigger] r.out[a]).0 <= (#[trigger] r.pending[k]).0 by {
                        if k < r0.pending.len() {
                            assert(r0.out[a].0 <= r0.pending[k].0);
                        } else {
                            assert(not_after(r0.out[a].0, samples[n - 1]));
                        }
                    }
                }
                if r.pending.len() > depth {
                    assert forall|i: int| n <= i < samples.len() implies not_after(
                        r.pending[earliest(r.pending)].0,
                        #[trigger] samples[i],
                    ) by {
                        lemma_front_is_safe(samples, depth, n, r, i);
                    }
                    lemma_pop_inv(samples, n, r, depth);
                    assert(run_of(samples, depth, n) =~= r.after(depth, Event::Ended));
                } else {
                    assert(run_of(samples, depth, n) =~= r);
                }
            },
        }
    }
}

proof fn lemma_drained_inv<T>(samples: Seq<Option<(i128, T)>>, r: Run<T>)
    requires
        run_inv(samples, samples.len(), r),
    ensures
        run_inv(samples, samples.len(), r.drained()),
        r.drained().pending.len() == 0,
    decreases r.pending.len(),
{
    if r.pending.len() > 0 {
        popping_removes_one(r.pending);
        lemma_pop_inv(samples, samples.len(), r, 0);
        lemma_drained_inv(samples, r.after(0, Event::Ended));
    }
}

/// A queue of depth `depth` restores presentation order: when no frame is
/// preceded in decode order by more than `depth` frames that are presented
/// after it, the frames handed out are exactly those of the samples, each
/// once, and their times never decrease. Nothing waits in the end, so the end
/// of the track gives no frame from then on.
pub proof fn reorder_restores_presentation_order<T>(samples: Seq<Option<(i128, T)>>, depth: nat)
    requires
        reorder_is_bounded(samples, depth),
    ensures
        ({
            let out = presented(samples, depth);
            let end = run_of(samples, depth, samples.len()).drained();
            &&& out.to_multiset() == frames_in(samples, samples.len()).to_multiset()
            &&& out.len() == frames_in(samples, samples.len()).len()
            &&& forall|a: int, b: int| 0 <= a < b < out.len() ==> out[a].0 <= out[b].0
            &&& after_event(end.pending, depth, Event::Ended) == (end.pending, None::<(i128, T)>)
        }),
{
    broadcast use vstd::seq_lib::group_to_multiset_ensures;

    lemma_run_inv(samples, depth, samples.len());
    let r = run_of(samples, depth, samples.len());
    lemma_drained_inv(samples, r);
    let out = r.drained().out;
    assert(r.drained().pending =~= Seq::empty());
    assert(Seq::<(i128, T)>::empty().to_multiset() =~= vstd::multiset::Multiset::empty());
    let all = frames_in(samples, samples.len());
    assert(out.to_multiset() =~= out.to_multiset().add(r.drained().pending.to_multiset()));
    assert(out.len() == out.to_multiset().len() && all.len() == all.to_multiset().len());
}

// ---- the queue at work ----

/// The events of a track: those of its samples, then `m` times its end.
pub open spec fn track_events<T>(samples: Seq<Option<(i128, T)>>, m: nat) -> Seq<Event<T>> {
    Seq::new(
        samples.len() + m,
        |k: int|
            if k < samples.len() {
                event_of(samples[k])
            } else {
                Event::Ended
            },
    )
}

/// What a queue in state `before` answers to an event.
pub open spec fn answer<T>(before: ReorderQueue<T>, e: Event<T>) -> Action<T> {
    match after_event(before.pending(), before.depth(), e).1 {
        Some(x) => Action::Present(x.1),
        None => if e is Ended {
            Action::Finished
        } else {
            Action::ReadOn
        },
    }
}

/// Whether [`ReorderQueue::step`] on an event goes from `before` to `after`
/// with action `a`.
pub open spec fn steps_to<T>(
    before: ReorderQueue<T>,
    e: Event<T>,
    after: ReorderQueue<T>,
    a: Action<T>,
) -> bool {
    &&& after.depth() == before.depth()
    &&& after.pending() == after_event(before.pending(), before.depth(), e).0
    &&& a == answer(before, e)
}

/// The frames that the first `n` actions present.
pub open spec fn handed_out<T>(actions: Seq<Action<T>>, n: nat) -> Seq<T>
    decreases n,
{
    if n == 0 {
        Seq::empty()
    } else {
        match actions[n - 1] {
            Action::Present(x) => handed_out(actions, (n - 1) as nat).push(x),
            _ => handed_out(actions, (n - 1) as nat),
        }
    }
}

/// The frames of a list without their times.
pub open spec fn without_times<T>(q: Seq<(i128, T)>) -> Seq<T> {
    q.map_values(|x: (i128, T)| x.1)
}

/// A run after the end of the track was met `m` times.
spec fn ended<T>(r: Run<T>, depth: nat, m: nat) -> Run<T>
    decreases m,
{
    if m == 0 {
        r
    } else {
        ended(r, depth, (m - 1) as nat).after(depth, Event::Ended)
    }
}

proof fn lemma_ended_first<T>(r: Run<T>, depth: nat, m: nat)
    requires
        m > 0,
    ensures
        ended(r, depth, m) == ended(r.after(depth, Event::Ended), depth, (m - 1) as nat),
    decreases m,
{
    if m > 1 {
        lemma_ended_first(r, depth, (m - 1) as nat);
    } else {
        assert(ended(r, depth, 0) == r);
        assert(ended(r, depth, 1) == ended(r, depth, 0).after(depth, Event::Ended));
    }
}

proof fn lemma_ended_is_drained<T>(r: Run<T>, depth: nat, m: nat)
    requires
        m >= r.pending.len(),
    ensures
        ended(r, depth, m) == r.drained(),
    decreases m,
{
    if m > 0 {
        lemma_ended_first(r, depth, m);
        let next = r.after(depth, Event::Ended);
        if r.pending.len() == 0 {
            assert(next =~= r);
        } else {
            popping_removes_one(r.pending);
            assert(next == r.after(0, Event::Ended));
        }
        lemma_ended_is_drained(next, depth, (m - 1) as nat);
    }
}

proof fn lemma_run_is_short<T>(samples: Seq<Option<(i128, T)>>, depth: nat, n: nat)
    ensures
        run_of(samples, depth, n).pending.len() <= n,
    decreases n,
{
    if n > 0 {
        lemma_run_is_short(samples, depth, (n - 1) as nat);
        let r = run_of(samples, depth, (n - 1) as nat);
        if let Some(x) = samples[n - 1] {
            popping_removes_one(r.pending.push(x));
        }
    }
}

/// The run over the first `n` events of a track.
spec fn run_at<T>(samples: Seq<Option<(i128, T)>>, depth: nat, n: nat) -> Run<T> {
    if n <= samples.len() {
        run_of(samples, depth, n)
    } else {
        ended(run_of(samples, depth, samples.len()), depth, (n - samples.len()) as nat)
    }
}

proof fn lemma_queue_follows<T>(
    states: Seq<ReorderQueue<T>>,
    actions: Seq<Action<T>>,
    samples: Seq<Option<(i128, T)>>,
    m: nat,
    n: nat,
)
    requires
        n <= samples.len() + m,
        states[0].pending() == Seq::<(i128, T)>::empty(),
        forall|k: int|
            0 <= k < samples.len() + m ==> steps_to(
                states[k],
                #[trigger] track_events(samples, m)[k],
                states[k + 1],
                actions[k],
            ),
    ensures
        states[n as int].depth() == states[0].depth(),
        states[n as int].pending() == run_at(samples, states[0].depth(), n).pending,
        handed_out(actions, n) == without_times(run_at(samples, states[0].depth(), n).out),
    decreases n,
{
    let depth = states[0].depth();
    if n == 0 {
        assert(without_times(run_at(samples, depth, 0).out) =~= Seq::<T>::empty());
    } else {
        lemma_queue_follows(states, actions, samples, m, (n - 1) as nat);
        let e = track_events(samples, m)[n - 1];
        assert(steps_to(states[n - 1], e, states[n as int], actions[n - 1]));
        let r = run_at(samples, depth, (n - 1) as nat);
        if n > samples.len() {
            let all = run_of(samples, depth, samples.len());
            let k = (n - samples.len()) as nat;
            assert(ended(all, depth, 0) == all);
            assert(ended(all, depth, k) == ended(all, depth, (k - 1) as nat).after(
                depth,
                Event::Ended,
            ));
        }
        assert(run_at(samples, depth, n) == r.after(depth, e));
        if let Some(x) = after_event(r.pending, depth, e).1 {
            assert(without_times(r.out.push(x)) =~= without_times(r.out).push(x.1));
        }
    }
}

/// A new queue that takes a step on each sample of a track, and then on its
/// end as often as there were samples or more, presents the frames of the run:
/// `states` holds it before the first event and after each, `actions` its
/// answers. With [`reorder_restores_presentation_order`] these are all frames,
/// each once, by presentation time.
pub proof fn queue_presents_the_run<T>(
    states: Seq<ReorderQueue<T>>,
    actions: Seq<Action<T>>,
    samples: Seq<Option<(i128, T)>>,
    m: nat,
)
    requires
        m >= samples.len(),
        states.len() == samples.len() + m + 1,
        actions.len() == samples.len() + m,
        states[0].pending() == Seq::<(i128, T)>::empty(),
        forall|k: int|
            0 <= k < samples.len() + m ==> steps_to(
                states[k],
                #[trigger] track_events(samples, m)[k],
                states[k + 1],
                actions[k],
            ),
    ensures
        handed_out(actions, samples.len() + m) == without_times(
            presented(samples, states[0].depth()),
        ),
{
    let depth = states[0].depth();
    let n = samples.len() + m;
    lemma_queue_follows(states, actions, samples, m, n);
    let r = run_of(samples, depth, samples.len());
    lemma_run_is_short(samples, depth, samples.len());
    lemma_ended_is_drained(r, depth, m);
    assert(run_at(samples, depth, n) == ended(r, depth, m));
}

} // verus!
