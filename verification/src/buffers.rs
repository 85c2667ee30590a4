//! Bookkeeping of an asynchronous readback ring, and the row padding of
//! texture copies.
use vstd::prelude::*;

verus! {

/// A readback that was issued and not yet delivered.
pub struct InFlight<T> {
    /// Staging buffer that it occupies.
    pub slot: usize,
    pub tag: T,
    /// Whether mapping has been started; before that the copy is only
    /// recorded.
    pub mapped: bool,
}

/// A fixed set of reusable staging buffers with tagged, first-in first-out
/// completion: a copy is recorded into a free slot, mapped after submit, and
/// delivered when the mapping is done.
pub struct ReadbackRing<T> {
    queue: Vec<InFlight<T>>,
    depth: usize,
}

/// Whether no readback occupies slot `i`.
pub open spec fn is_free<T>(queue: Seq<InFlight<T>>, i: int) -> bool {
    forall|k: int| 0 <= k < queue.len() ==> (#[trigger] queue[k]).slot != i
}

/// `queue` with every recorded copy mapped.
pub open spec fn all_mapped<T>(queue: Seq<InFlight<T>>) -> Seq<InFlight<T>> {
    Seq::new(queue.len(), |k: int| InFlight { mapped: true, ..queue[k] })
}

/// Slots of the copies that are recorded and not yet mapped, in issue order.
pub open spec fn unmapped_slots<T>(queue: Seq<InFlight<T>>) -> Seq<usize>
    decreases queue.len(),
{
    if queue.len() == 0 {
        Seq::empty()
    } else if queue.last().mapped {
        unmapped_slots(queue.drop_last())
    } else {
        unmapped_slots(queue.drop_last()).push(queue.last().slot)
    }
}

/// Whether the readback is complete.
pub open spec fn is_complete<T>(e: InFlight<T>, done: Seq<bool>) -> bool {
    e.mapped && done[e.slot as int]
}

/// Number of readbacks at the front that are complete.
pub open spec fn ready_count<T>(queue: Seq<InFlight<T>>, done: Seq<bool>) -> nat
    decreases queue.len(),
{
    if queue.len() == 0 || !is_complete(queue[0], done) {
        0
    } else {
        1 + ready_count(queue.skip(1), done)
    }
}

impl<T> ReadbackRing<T> {
    /// The readbacks in flight, in issue order.
    pub closed spec fn queue(&self) -> Seq<InFlight<T>> {
        self.queue@
    }

    /// Number of staging buffers.
    pub closed spec fn depth(&self) -> nat {
        self.depth as nat
    }

    /// No two readbacks share a staging buffer, and every one has a buffer.
    pub open spec fn wf(&self) -> bool {
        &&& self.depth() >= 1
        &&& forall|k: int|
            0 <= k < self.queue().len() ==> (#[trigger] self.queue()[k]).slot < self.depth()
        &&& forall|a: int, b: int|
            0 <= a < b < self.queue().len() ==> (#[trigger] self.queue()[a]).slot != (
            #[trigger] self.queue()[b]).slot
    }

    /// An idle ring.
    pub fn new(depth: usize) -> (r: Self)
        requires
            depth > 0,
        ensures
            r.wf(),
            r.queue() == Seq::<InFlight<T>>::empty(),
            r.depth() == depth,
    {
        ReadbackRing { queue: Vec::new(), depth }
    }

    /// Number of readbacks issued but not yet delivered.
    pub fn in_flight(&self) -> (n: usize)
        ensures
            n == self.queue().len(),
    {
        self.queue.len()
    }

    /// Whether any pending tag satisfies `pred`.
    pub fn any_pending<P: Fn(&T) -> bool>(&self, pred: P) -> (b: bool)
        requires
            forall|t: &T| call_requires(pred, (t,)),
        ensures
            b ==> exists|k: int|
                0 <= k < self.queue().len() && call_ensures(
                    pred,
                    (&(#[trigger] self.queue()[k]).tag,),
                    true,
                ),
            !b ==> forall|k: int|
                0 <= k < self.queue().len() ==> call_ensures(
                    pred,
                    (&(#[trigger] self.queue()[k]).tag,),
                    false,
                ),
    {
        let mut k: usize = 0;
        while k < self.queue.len()
            invariant
                k <= self.queue@.len(),
                forall|t: &T| call_requires(pred, (t,)),
                forall|j: int|
                    0 <= j < k ==> call_ensures(pred, (&(#[trigger] self.queue@[j]).tag,), false),
            decreases self.queue@.len() - k,
        {
            if pred(&self.queue[k].tag) {
                assert(call_ensures(pred, (&self.queue()[k as int].tag,), true));
                return true;
            }
            k = k + 1;
        }
        false
    }

    fn slot_free(&self, i: usize) -> (b: bool)
        ensures
            b == is_free(self.queue(), i as int),
    {
        let mut k: usize = 0;
        while k < self.queue.len()
            invariant
                k <= self.queue@.len(),
                forall|j: int| 0 <= j < k ==> (#[trigger] self.queue@[j]).slot != i,
            decreases self.queue@.len() - k,
        {
            if self.queue[k].slot == i {
                assert(self.queue()[k as int].slot == i);
                return false;
            }
            k = k + 1;
        }
        true
    }

    /// Claims the first free slot for a copy; the caller records the copy into
    /// it. None, and nothing changes, when every slot is in flight.
    pub fn encode_copy(&mut self, tag: T) -> (res: Option<usize>)
        requires
            old(self).wf(),
        ensures
            final(self).wf(),
            final(self).depth() == old(self).depth(),
            match res {
                Some(i) => {
                    &&& i < old(self).depth()
                    &&& is_free(old(self).queue(), i as int)
                    &&& forall|j: int| 0 <= j < i ==> !#[trigger] is_free(old(self).queue(), j)
                    &&& final(self).queue() == old(self).queue().push(
                        InFlight { slot: i, tag, mapped: false },
                    )
                },
                None => {
                    &&& forall|j: int|
                        0 <= j < old(self).depth() ==> !#[trigger] is_free(old(self).queue(), j)
                    &&& final(self).queue() == old(self).queue()
                },
            },
    {
        let mut i: usize = 0;
        while i < self.depth
            invariant
                i <= self.depth,
                self.queue@ == old(self).queue@,
                self.depth == old(self).depth,
                self.wf(),
                forall|j: int| 0 <= j < i ==> !#[trigger] is_free(self.queue@, j),
            decreases self.depth - i,
        {
            if self.slot_free(i) {
                assert(is_free(self.queue@, i as int));
                let ghost before = self.queue();
                self.queue.push(InFlight { slot: i, tag, mapped: false });
                proof {
                    assert forall|a: int, b: int| 0 <= a < b < self.queue().len() implies (
                    #[trigger] self.queue()[a]).slot != (#[trigger] self.queue()[b]).slot by {
                        assert(self.queue()[a] == before[a]);
                        if b < before.len() {
                            assert(self.queue()[b] == before[b]);
                        }
                    }
                    assert forall|a: int| 0 <= a < self.queue().len() implies (
                    #[trigger] self.queue()[a]).slot < self.depth() by {
                        if a < before.len() {
                            assert(self.queue()[a] == before[a]);
                        }
                    }
                }
                return Some(i);
            }
            i = i + 1;
        }
        None
    }

    /// Marks every recorded copy as mapping, and returns their slots: the
    /// caller starts the mapping of each. Must run after the copies have been
    /// submitted.
    pub fn map_pending(&mut self) -> (slots: Vec<usize>)
        requires
            old(self).wf(),
        ensures
            final(self).wf(),
            final(self).depth() == old(self).depth(),
            final(self).queue() == all_mapped(old(self).queue()),
            slots@ == unmapped_slots(old(self).queue()),
    {
        let ghost before = self.queue@;
        let ghost after = all_mapped(before);
        let mut slots: Vec<usize> = Vec::new();
        let mut k: usize = 0;
        assert(before.take(0) =~= Seq::<InFlight<T>>::empty());
        while k < self.queue.len()
            invariant
                k <= self.queue@.len(),
                self.depth == old(self).depth,
                before == old(self).queue@,
                self.queue@.len() == before.len(),
                after == all_mapped(before),
                forall|j: int| 0 <= j < k ==> (#[trigger] self.queue@[j]) == after[j],
                forall|j: int| k <= j < before.len() ==> (#[trigger] self.queue@[j]) == before[j],
                slots@ == unmapped_slots(before.take(k as int)),
            decreases before.len() - k,
        {
            assert(before.take(k + 1).drop_last() =~= before.take(k as int));
            assert(self.queue@[k as int] == before[k as int]);
            if !self.queue[k].mapped {
                slots.push(self.queue[k].slot);
                self.queue[k].mapped = true;
            }
            assert(self.queue@[k as int] == after[k as int]);
            k = k + 1;
        }
        assert(self.queue@ =~= after);
        assert(before.take(k as int) =~= before);
        proof {
            assert forall|a: int, b: int| 0 <= a < b < self.queue().len() implies (
            #[trigger] self.queue()[a]).slot != (#[trigger] self.queue()[b]).slot by {
                assert(old(self).queue()[a].slot != old(self).queue()[b].slot);
            }
            assert forall|a: int| 0 <= a < self.queue().len() implies (
            #[trigger] self.queue()[a]).slot < self.depth() by {
                assert(old(self).queue()[a].slot < old(self).depth());
            }
        }
        slots
    }

    /// Delivers completed readbacks in issue order, after the device was
    /// advanced. `done` says for each slot
    /// whether its mapping is complete. Stops at the first one that is still
    /// in flight.
    pub fn poll_ready(&mut self, done: &[bool]) -> (out: Vec<InFlight<T>>)
        requires
            old(self).wf(),
            done@.len() == old(self).depth(),
        ensures
            final(self).wf(),
            final(self).depth() == old(self).depth(),
            ({
                let n = ready_count(old(self).queue(), done@) as int;
                &&& out@ == old(self).queue().take(n)
                &&& final(self).queue() == old(self).queue().skip(n)
            }),
    {
        let ghost all = self.queue@;
        let ghost total = ready_count(all, done@);
        let mut out: Vec<InFlight<T>> = Vec::new();
        assert(all.skip(0) =~= all);
        assert(all.take(0) =~= out@);
        proof {
            assert forall|k: int| 0 <= k < self.queue@.len() implies (
            #[trigger] self.queue@[k]).slot < self.depth by {
                assert(self.queue()[k].slot < self.depth());
            }
        }
        while self.queue.len() > 0 && self.queue[0].mapped && done[self.queue[0].slot]
            invariant
                self.depth == old(self).depth,
                all == old(self).queue@,
                old(self).wf(),
                done@.len() == self.depth,
                out@.len() <= all.len(),
                out@ == all.take(out@.len() as int),
                self.queue@ == all.skip(out@.len() as int),
                total == out@.len() + ready_count(self.queue@, done@),
                forall|k: int|
                    0 <= k < self.queue@.len() ==> (#[trigger] self.queue@[k]).slot < self.depth,
            decreases self.queue@.len(),
        {
            let ghost n = out@.len() as int;
            let e = self.queue.remove(0);
            proof {
                assert(self.queue@ =~= all.skip(n).skip(1));
                assert(all.skip(n).skip(1) =~= all.skip(n + 1));
                assert(all.take(n + 1) =~= all.take(n).push(all[n]));
                assert(e == all[n]);
            }
            out.push(e);
        }
        proof {
            let n = out@.len() as int;
            assert forall|a: int, b: int| 0 <= a < b < self.queue().len() implies (
            #[trigger] self.queue()[a]).slot != (#[trigger] self.queue()[b]).slot by {
                assert(old(self).queue()[a + n].slot != old(self).queue()[b + n].slot);
            }
        }
        out
    }

    /// Delivers every readback in issue order, after the device completed
    /// every mapping. Copies that were never mapped are a caller bug.
    pub fn drain_blocking(&mut self) -> (out: Vec<InFlight<T>>)
        requires
            old(self).wf(),
            forall|k: int| 0 <= k < old(self).queue().len() ==> (#[trigger] old(self).queue()[k]).mapped,
        ensures
            final(self).wf(),
            final(self).depth() == old(self).depth(),
            out@ == old(self).queue(),
            final(self).queue() == Seq::<InFlight<T>>::empty(),
    {
        let mut out: Vec<InFlight<T>> = Vec::new();
        out.append(&mut self.queue);
        out
    }

    /// Whether every recorded copy is mapped, so that a drain may wait for it.
    pub fn is_fully_mapped(&self) -> (b: bool)
        ensures
            b <==> forall|k: int| 0 <= k < self.queue().len() ==> (#[trigger] self.queue()[k]).mapped,
    {
        let mut k: usize = 0;
        while k < self.queue.len()
            invariant
                k <= self.queue@.len(),
                forall|j: int| 0 <= j < k ==> (#[trigger] self.queue@[j]).mapped,
            decreases self.queue@.len() - k,
        {
            if !self.queue[k].mapped {
                assert(!self.queue()[k as int].mapped);
                return false;
            }
            k = k + 1;
        }
        true
    }
}

/// At most as many readbacks are in flight as there are staging buffers.
pub proof fn ring_never_overcommits<T>(r: ReadbackRing<T>)
    requires
        r.wf(),
    ensures
        r.queue().len() <= r.depth(),
{
    let slots = Seq::new(r.queue().len(), |k: int| r.queue()[k].slot as int);
    assert(slots.no_duplicates()) by {
        assert forall|a: int, b: int| 0 <= a < slots.len() && 0 <= b < slots.len() && a
            != b implies slots[a] != slots[b] by {
            if a < b {
                assert(r.queue()[a].slot != r.queue()[b].slot);
            } else {
                assert(r.queue()[b].slot != r.queue()[a].slot);
            }
        }
    }
    slots.unique_seq_to_set();
    let range = vstd::set_lib::set_int_range(0, r.depth() as int);
    vstd::set_lib::lemma_int_range(0, r.depth() as int);
    assert forall|x: int| slots.to_set().contains(x) implies range.contains(x) by {
        let k = choose|k: int| 0 <= k < slots.len() && slots[k] == x;
        assert(r.queue()[k].slot == x);
    }
    vstd::set_lib::lemma_len_subset(slots.to_set(), range);
}

/// Once every mapping is complete and nothing waits for one, a collection
/// delivers everything.
pub proof fn drained_ring_delivers_all<T>(queue: Seq<InFlight<T>>, done: Seq<bool>)
    requires
        forall|k: int| 0 <= k < queue.len() ==> is_complete(#[trigger] queue[k], done),
    ensures
        ready_count(queue, done) == queue.len(),
    decreases queue.len(),
{
    if queue.len() > 0 {
        assert(is_complete(queue[0], done));
        let rest = queue.skip(1);
        assert forall|k: int| 0 <= k < rest.len() implies is_complete(
            #[trigger] rest[k],
            done,
        ) by {
            assert(rest[k] == queue[k + 1]);
        }
        drained_ring_delivers_all(rest, done);
    }
}

// ---- row padding ----

/// Alignment of the rows of a texture copy.
pub const ROW_ALIGN: usize = 256;

/// Bytes of a row once padded.
pub open spec fn padded_row(row: int) -> int {
    (row + 255) / 256 * 256
}

/// Bytes of a row of a texture copy: the next multiple of the alignment.
pub fn pad_row_bytes(row: usize) -> (padded: usize)
    requires
        row + 255 <= usize::MAX,
    ensures
        padded == padded_row(row as int),
        row <= padded < row + 256,
        padded % ROW_ALIGN == 0,
{
    (row + 255) / ROW_ALIGN * ROW_ALIGN
}

/// `data` in rows of `row` bytes, each padded with zeros to `padded` bytes.
pub open spec fn padded_rows(data: Seq<u8>, row: int, padded: int, n: int) -> Seq<u8> {
    Seq::new(
        (n * padded) as nat,
        |k: int|
            if k % padded < row {
                data[k / padded * row + k % padded]
            } else {
                0
            },
    )
}

/// The rows of `data` without their padding.
pub open spec fn unpadded_rows(data: Seq<u8>, row: int, padded: int, n: int) -> Seq<u8> {
    Seq::new((n * row) as nat, |k: int| data[k / row * padded + k % row])
}

proof fn lemma_row_col(r: int, c: int, w: int)
    requires
        0 <= r,
        0 <= c < w,
    ensures
        (r * w + c) / w == r,
        (r * w + c) % w == c,
{
    vstd::arithmetic::div_mod::lemma_fundamental_div_mod_converse(r * w + c, w, r, c);
}

proof fn lemma_rows(r: int, n: int, w: int)
    requires
        0 <= r < n,
        0 <= w,
    ensures
        0 <= r * w,
        (r + 1) * w == r * w + w,
        (r + 1) * w <= n * w,
{
    vstd::arithmetic::mul::lemma_mul_inequality(r + 1, n, w);
    vstd::arithmetic::mul::lemma_mul_nonnegative(r, w);
    vstd::arithmetic::mul::lemma_mul_is_distributive_add_other_way(w, r, 1);
}

/// Pads the rows of an image for upload.
pub fn pad_rows(data: &[u8], row: usize, n: usize) -> (out: Vec<u8>)
    requires
        row + 255 <= usize::MAX,
        n * row <= data@.len(),
        n * padded_row(row as int) <= usize::MAX,
    ensures
        out@ == padded_rows(data@, row as int, padded_row(row as int), n as int),
{
    let padded: usize = pad_row_bytes(row);
    let len: usize = data.len();
    let mut out: Vec<u8> = Vec::new();
    let mut r: usize = 0;
    while r < n
        invariant
            r <= n,
            row <= padded,
            padded == padded_row(row as int),
            len == data@.len(),
            n * row <= data@.len(),
            out@.len() == r * padded,
            forall|k: int|
                0 <= k < out@.len() ==> (#[trigger] out@[k]) == padded_rows(
                    data@,
                    row as int,
                    padded as int,
                    n as int,
                )[k],
        decreases n - r,
    {
        proof {
            lemma_rows(r as int, n as int, row as int);
            lemma_rows(r as int, n as int, padded as int);
        }
        let src: usize = r * row;
        let mut c: usize = 0;
        while c < padded
            invariant
                c <= padded,
                r < n,
                row <= padded,
                src == r * row,
                src + row <= data@.len(),
                len == data@.len(),
                (r + 1) * padded == r * padded + padded,
                (r + 1) * padded <= n * padded,
                out@.len() == r * padded + c,
                forall|k: int|
                    0 <= k < out@.len() ==> (#[trigger] out@[k]) == padded_rows(
                        data@,
                        row as int,
                        padded as int,
                        n as int,
                    )[k],
            decreases padded - c,
        {
            proof {
                lemma_row_col(r as int, c as int, padded as int);
            }
            if c < row {
                out.push(data[src + c]);
            } else {
                out.push(0);
            }
            c = c + 1;
        }
        r = r + 1;
    }
    assert(out@ =~= padded_rows(data@, row as int, padded as int, n as int));
    out
}

/// Takes the padding out of the rows of a downloaded image.
pub fn unpad_rows(data: &[u8], row: usize, n: usize) -> (out: Vec<u8>)
    requires
        row + 255 <= usize::MAX,
        n * padded_row(row as int) <= data@.len(),
    ensures
        out@ == unpadded_rows(data@, row as int, padded_row(row as int), n as int),
{
    let padded: usize = pad_row_bytes(row);
    let len: usize = data.len();
    let mut out: Vec<u8> = Vec::new();
    let mut r: usize = 0;
    while r < n
        invariant
            r <= n,
            row <= padded,
            padded == padded_row(row as int),
            len == data@.len(),
            n * padded <= data@.len(),
            out@.len() == r * row,
            forall|k: int|
                0 <= k < out@.len() ==> (#[trigger] out@[k]) == unpadded_rows(
                    data@,
                    row as int,
                    padded as int,
                    n as int,
                )[k],
        decreases n - r,
    {
        proof {
            lemma_rows(r as int, n as int, row as int);
            lemma_rows(r as int, n as int, padded as int);
        }
        let src: usize = r * padded;
        let mut c: usize = 0;
        while c < row
            invariant
                c <= row,
                r < n,
                row <= padded,
                src == r * padded,
                src + padded <= data@.len(),
                len == data@.len(),
                (r + 1) * row == r * row + row,
                (r + 1) * row <= n * row,
                out@.len() == r * row + c,
                forall|k: int|
                    0 <= k < out@.len() ==> (#[trigger] out@[k]) == unpadded_rows(
                        data@,
                        row as int,
                        padded as int,
                        n as int,
                    )[k],
            decreases row - c,
        {
            proof {
                lemma_row_col(r as int, c as int, row as int);
            }
            out.push(data[src + c]);
            c = c + 1;
        }
        r = r + 1;
    }
    assert(out@ =~= unpadded_rows(data@, row as int, padded as int, n as int));
    out
}

/// Padding and unpadding an image gives it back.
pub proof fn unpadding_undoes_padding(data: Seq<u8>, row: int, padded: int, n: int)
    requires
        0 < row <= padded,
        0 <= n,
        data.len() == n * row,
    ensures
        unpadded_rows(padded_rows(data, row, padded, n), row, padded, n) == data,
{
    let p = padded_rows(data, row, padded, n);
    let u = unpadded_rows(p, row, padded, n);
    vstd::arithmetic::mul::lemma_mul_nonnegative(n, row);
    vstd::arithmetic::mul::lemma_mul_nonnegative(n, padded);
    assert forall|k: int| 0 <= k < data.len() implies u[k] == data[k] by {
        let r = k / row;
        let c = k % row;
        vstd::arithmetic::div_mod::lemma_fundamental_div_mod(k, row);
        assert(0 <= r < n) by (nonlinear_arith)
            requires
                0 <= k < n * row,
                k == row * r + c,
                0 <= c < row,
                0 < row,
        ;
        lemma_row_col(r, c, padded);
        lemma_rows(r, n, padded);
        vstd::arithmetic::mul::lemma_mul_is_commutative(row, r);
        assert(p[r * padded + c] == data[r * row + c]);
    }
    assert(u =~= data);
}

/// A collection stops at the first readback that is not complete: all before
/// it are, and it is recorded as not mapped or its slot is not done.
pub proof fn collection_stops_at_the_first_incomplete<T>(
    queue: Seq<InFlight<T>>,
    done: Seq<bool>,
)
    ensures
        ({
            let n = ready_count(queue, done) as int;
            &&& n <= queue.len()
            &&& forall|k: int|
                0 <= k < n ==> (#[trigger] queue[k]).mapped && done[queue[k].slot as int]
            &&& n < queue.len() ==> !queue[n].mapped || !done[queue[n].slot as int]
        }),
    decreases queue.len(),
{
    if queue.len() > 0 && is_complete(queue[0], done) {
        let t = queue.skip(1);
        collection_stops_at_the_first_incomplete(t, done);
        let n = ready_count(queue, done) as int;
        assert forall|k: int| 0 <= k < n implies (#[trigger] queue[k]).mapped
            && done[queue[k].slot as int] by {
            if k > 0 {
                assert(t[k - 1] == queue[k]);
            }
        }
        assert(n < queue.len() ==> t[n - 1] == queue[n]);
    }
}

/// Mapping starts for the recorded copies that wait for it, each once and in
/// issue order, and changes nothing else of them.
pub proof fn waiting_copies_are_mapped<T>(queue: Seq<InFlight<T>>)
    ensures
        unmapped_slots(queue) == queue.filter(|e: InFlight<T>| !e.mapped).map_values(
            |e: InFlight<T>| e.slot,
        ),
        all_mapped(queue).len() == queue.len(),
        forall|k: int|
            0 <= k < queue.len() ==> (#[trigger] all_mapped(queue)[k]).mapped && all_mapped(
                queue,
            )[k].slot == queue[k].slot && all_mapped(queue)[k].tag == queue[k].tag,
    decreases queue.len(),
{
    reveal(Seq::filter);
    let waits = |e: InFlight<T>| !e.mapped;
    let slot = |e: InFlight<T>| e.slot;
    if queue.len() > 0 {
        waiting_copies_are_mapped(queue.drop_last());
        let front = queue.drop_last().filter(waits);
        if !queue.last().mapped {
            assert(queue.filter(waits) == front.push(queue.last()));
            assert(front.push(queue.last()).map_values(slot) =~= front.map_values(slot).push(
                queue.last().slot,
            ));
        }
    }
    assert(unmapped_slots(queue) =~= queue.filter(waits).map_values(slot));
}

/// Rows start at multiples of their padded length: byte `c` of row `r` stands
/// at `r * padded + c`, with zeros behind the row.
pub proof fn rows_start_at_multiples(
    data: Seq<u8>,
    row: int,
    padded: int,
    n: int,
    r: int,
    c: int,
)
    requires
        0 < row <= padded,
        0 <= r < n,
        0 <= c < padded,
    ensures
        padded_rows(data, row, padded, n).len() == n * padded,
        padded_rows(data, row, padded, n)[r * padded + c] == if c < row {
            data[r * row + c]
        } else {
            0
        },
        c < row ==> unpadded_rows(data, row, padded, n)[r * row + c] == data[r * padded + c],
{
    vstd::arithmetic::div_mod::lemma_fundamental_div_mod_converse(
        r * padded + c,
        padded,
        r,
        c,
    );
    assert(0 <= r * padded && r * padded + c < n * padded) by (nonlinear_arith)
        requires
            0 <= r < n,
            0 <= c < padded,
    ;
    if c < row {
        vstd::arithmetic::div_mod::lemma_fundamental_div_mod_converse(r * row + c, row, r, c);
        assert(0 <= r * row && r * row + c < n * row) by (nonlinear_arith)
            requires
                0 <= r < n,
                0 <= c < row,
        ;
    }
}

/// A padded row is the least multiple of 256 bytes that holds the row.
pub proof fn padded_row_is_the_least(row: int, k: int)
    requires
        0 <= row,
        row <= 256 * k,
    ensures
        row <= padded_row(row) <= 256 * k,
        padded_row(row) % 256 == 0,
{
}

} // verus!
