//! Bookkeeping of timestamp queries: labelled scopes of two queries each, and
//! the ticks that each took.
use vstd::prelude::*;
use vstd::string::StringExecFns;

verus! {

/// The 64-bit number at `at`, lowest byte first.
pub open spec fn tick_low_first(bytes: Seq<u8>, at: int) -> int {
    bytes[at] + 0x100 * bytes[at + 1] + 0x1_0000 * bytes[at + 2] + 0x100_0000 * bytes[at + 3]
        + 0x1_0000_0000 * bytes[at + 4] + 0x100_0000_0000 * bytes[at + 5] + 0x1_0000_0000_0000
        * bytes[at + 6] + 0x100_0000_0000_0000 * bytes[at + 7]
}

/// The 64-bit number at `at`, highest byte first.
pub open spec fn tick_high_first(bytes: Seq<u8>, at: int) -> int {
    tick_low_first(
        seq![
            bytes[at + 7],
            bytes[at + 6],
            bytes[at + 5],
            bytes[at + 4],
            bytes[at + 3],
            bytes[at + 2],
            bytes[at + 1],
            bytes[at],
        ],
        0,
    )
}

/// `ticks` are the 64-bit numbers in `bytes`, all of them in one byte order.
pub open spec fn are_ticks_of(ticks: Seq<u64>, bytes: Seq<u8>) -> bool {
    &&& ticks.len() == bytes.len() / 8
    &&& (forall|i: int| 0 <= i < ticks.len() ==> (#[trigger] ticks[i]) == tick_low_first(bytes, 8 * i))
        || (forall|i: int|
        0 <= i < ticks.len() ==> (#[trigger] ticks[i]) == tick_high_first(bytes, 8 * i))
}

/// Calls `bytemuck::pod_collect_to_vec` from bytes to `u64`: consecutive
/// groups of eight bytes, each read as one number in the machine's byte order.
#[verifier::external_body]
fn collect_ticks(bytes: &[u8]) -> (ticks: Vec<u64>)
    requires
        bytes@.len() % 8 == 0,
    ensures
        are_ticks_of(ticks@, bytes@),
{
    bytemuck::pod_collect_to_vec::<u8, u64>(bytes)
}

/// A scope with the ticks between its two queries.
pub struct Timing {
    pub label: String,
    pub ticks: u64,
}

/// Ticks of scope `i`: zero where the clock ran backwards.
pub open spec fn scope_ticks(ticks: Seq<u64>, i: int) -> int {
    if ticks[2 * i + 1] >= ticks[2 * i] {
        ticks[2 * i + 1] - ticks[2 * i]
    } else {
        0
    }
}

/// The queries that a timed pass writes at its two ends.
#[derive(Clone, Copy, Debug, PartialEq, Eq, Structural)]
pub struct ScopeQueries {
    pub begin: u32,
    pub end: u32,
}

/// `after` is `before` with a scope of this label, where there was room.
pub open spec fn scope_opened(before: GpuTimer, after: GpuTimer, label: Seq<char>) -> bool {
    &&& after.wf()
    &&& after.spec_enabled() == before.spec_enabled()
    &&& after.max_scopes() == before.max_scopes()
    &&& after.labels() == (if before.has_room() {
        before.labels().push(label)
    } else {
        before.labels()
    })
}

pub struct GpuTimer {
    enabled: bool,
    labels: Vec<String>,
    max_scopes: u32,
}

impl GpuTimer {
    /// Whether the adapter has timestamp queries.
    pub closed spec fn spec_enabled(&self) -> bool {
        self.enabled
    }

    /// Labels of the scopes since the last read, in order.
    pub closed spec fn labels(&self) -> Seq<Seq<char>> {
        self.labels@.map_values(|l: String| l@)
    }

    pub closed spec fn max_scopes(&self) -> nat {
        self.max_scopes as nat
    }

    /// Every query index fits 32 bits, and no more scopes are open than fit;
    /// without timestamp queries there are none.
    pub open spec fn wf(&self) -> bool {
        &&& 2 * self.max_scopes() <= u32::MAX
        &&& self.labels().len() <= self.max_scopes()
        &&& !self.spec_enabled() ==> self.labels().len() == 0
    }

    /// Whether another scope can be opened.
    pub open spec fn has_room(&self) -> bool {
        self.spec_enabled() && self.labels().len() < self.max_scopes()
    }

    /// The queries of the next scope.
    pub open spec fn next_queries(&self) -> Option<ScopeQueries> {
        if self.has_room() {
            let n = self.labels().len();
            Some(ScopeQueries { begin: (2 * n) as u32, end: (2 * n + 1) as u32 })
        } else {
            None
        }
    }

    pub fn new(enabled: bool, max_scopes: u32) -> (t: Self)
        requires
            2 * max_scopes <= u32::MAX,
        ensures
            t.wf(),
            t.spec_enabled() == enabled,
            t.max_scopes() == max_scopes,
            t.labels() == Seq::<Seq<char>>::empty(),
    {
        let t = GpuTimer { enabled, labels: Vec::new(), max_scopes };
        assert(t.labels() =~= Seq::<Seq<char>>::empty());
        t
    }

    /// Number of queries to create.
    pub fn query_count(&self) -> (n: u32)
        requires
            self.wf(),
        ensures
            n == 2 * self.max_scopes(),
    {
        self.max_scopes * 2
    }

    /// Bytes of the buffers that take the resolved queries.
    pub fn buffer_bytes(&self) -> (n: u64)
        requires
            self.wf(),
        ensures
            n == 16 * self.max_scopes(),
    {
        (self.max_scopes as u64) * 2 * 8
    }

    /// Opens a scope: the index of its first query; its second is the next
    /// one. None, and nothing changes, without timestamp queries or when the
    /// scopes are used up.
    fn open_scope(&mut self, label: &str) -> (base: Option<u32>)
        requires
            old(self).wf(),
        ensures
            scope_opened(*old(self), *final(self), label@),
            base == (if old(self).has_room() {
                Some((2 * old(self).labels().len()) as u32)
            } else {
                None
            }),
    {
        let used: usize = self.labels.len();
        assert(self.labels().len() == used);
        if !self.enabled || used >= self.max_scopes as usize {
            return None;
        }
        let ghost before = self.labels();
        self.labels.push(String::from_str(label));
        assert(self.labels() =~= before.push(label@));
        Some((used as u32) * 2)
    }

    /// Begins a labelled compute scope: the two queries that its pass writes.
    pub fn compute_scope(&mut self, label: &str) -> (q: Option<ScopeQueries>)
        requires
            old(self).wf(),
        ensures
            scope_opened(*old(self), *final(self), label@),
            q == old(self).next_queries(),
    {
        let begin: u32 = self.open_scope(label)?;
        Some(ScopeQueries { begin, end: begin + 1 })
    }

    /// Begins a labelled render scope: the two queries that its pass writes.
    pub fn render_scope(&mut self, label: &str) -> (q: Option<ScopeQueries>)
        requires
            old(self).wf(),
        ensures
            scope_opened(*old(self), *final(self), label@),
            q == old(self).next_queries(),
    {
        let begin: u32 = self.open_scope(label)?;
        Some(ScopeQueries { begin, end: begin + 1 })
    }

    /// Number of queries to resolve and copy, eight bytes each; None where
    /// there is nothing to resolve.
    pub fn resolve(&self) -> (n: Option<u32>)
        requires
            self.wf(),
        ensures
            n == (if self.labels().len() == 0 {
                None
            } else {
                Some((2 * self.labels().len()) as u32)
            }),
    {
        let used: usize = self.labels.len();
        assert(self.labels().len() == used);
        if used == 0 {
            return None;
        }
        Some((used as u32) * 2)
    }

    /// The scopes recorded since the last read, in order, with the ticks that
    /// the resolved queries give them. Clears the scope list.
    pub fn read_ticks(&mut self, ticks: &[u64]) -> (out: Vec<Timing>)
        requires
            old(self).wf(),
            ticks@.len() == 2 * old(self).labels().len(),
        ensures
            final(self).wf(),
            final(self).spec_enabled() == old(self).spec_enabled(),
            final(self).max_scopes() == old(self).max_scopes(),
            final(self).labels() == Seq::<Seq<char>>::empty(),
            out@.len() == old(self).labels().len(),
            forall|i: int|
                0 <= i < out@.len() ==> (#[trigger] out@[i]).label@ == old(self).labels()[i]
                    && out@[i].ticks == scope_ticks(ticks@, i),
    {
        let mut labels: Vec<String> = Vec::new();
        labels.append(&mut self.labels);
        let ghost all = labels@;
        assert(self.labels() =~= Seq::<Seq<char>>::empty());
        let n: usize = labels.len();
        let mut out: Vec<Timing> = Vec::new();
        let mut i: usize = 0;
        while i < n
            invariant
                i <= n,
                n == all.len(),
                ticks@.len() == 2 * n,
                2 * n <= u32::MAX,
                labels@ == all.skip(i as int),
                out@.len() == i,
                forall|k: int|
                    0 <= k < i ==> (#[trigger] out@[k]).label@ == all[k]@ && out@[k].ticks
                        == scope_ticks(ticks@, k),
            decreases n - i,
        {
            let label = labels.remove(0);
            assert(labels@ =~= all.skip(i + 1));
            let begin: u64 = ticks[2 * i];
            let end: u64 = ticks[2 * i + 1];
            out.push(Timing { label, ticks: if end >= begin { end - begin } else { 0 } });
            i = i + 1;
        }
        proof {
            assert forall|k: int| 0 <= k < out@.len() implies (#[trigger] out@[k]).label@ == old(
                self,
            ).labels()[k] by {
                assert(old(self).labels()[k] == all[k]@);
            }
        }
        out
    }

    /// Reads the resolved queries out of the mapped buffer.
    pub fn read(&mut self, bytes: &[u8]) -> (out: Vec<Timing>)
        requires
            old(self).wf(),
            bytes@.len() == 16 * old(self).labels().len(),
        ensures
            final(self).wf(),
            final(self).spec_enabled() == old(self).spec_enabled(),
            final(self).max_scopes() == old(self).max_scopes(),
            final(self).labels() == Seq::<Seq<char>>::empty(),
            out@.len() == old(self).labels().len(),
            exists|ticks: Seq<u64>|
                #[trigger] are_ticks_of(ticks, bytes@) && forall|i: int|
                    0 <= i < out@.len() ==> (#[trigger] out@[i]).label@ == old(self).labels()[i]
                        && out@[i].ticks == scope_ticks(ticks, i),
    {
        let ticks = collect_ticks(bytes);
        let out = self.read_ticks(ticks.as_slice());
        assert(are_ticks_of(ticks@, bytes@));
        out
    }
}

/// A scope is timed by the queries that it was given: the ticks that are read
/// for scope `i` run from its first query to its second, and are none where
/// the clock ran backwards.
pub proof fn scopes_are_timed_by_their_queries(t: GpuTimer, q: ScopeQueries, ticks: Seq<u64>)
    requires
        t.wf(),
        t.next_queries() == Some(q),
        q.end < ticks.len(),
    ensures
        ({
            let i = t.labels().len() as int;
            &&& q.begin != q.end
            &&& ticks[q.begin as int] <= ticks[q.end as int] ==> ticks[q.begin as int]
                + scope_ticks(ticks, i) == ticks[q.end as int]
            &&& ticks[q.begin as int] > ticks[q.end as int] ==> scope_ticks(ticks, i) == 0
        }),
{
}

/// No two scopes share a query.
pub proof fn queries_are_not_shared(a: GpuTimer, b: GpuTimer, p: ScopeQueries, q: ScopeQueries)
    requires
        a.wf(),
        b.wf(),
        a.next_queries() == Some(p),
        b.next_queries() == Some(q),
        a.labels().len() != b.labels().len(),
    ensures
        p.begin != q.begin && p.begin != q.end && p.end != q.begin && p.end != q.end,
        p.end < 2 * a.max_scopes(),
{
}

/// Reading undoes writing: a number written in eight bytes is read back in
/// the order it was written in.
pub proof fn reading_ticks_undoes_writing(bytes: Seq<u8>, at: int, v: u64)
    ensures
        crate::wire::stands_at(bytes, at, crate::wire::low_first(v as nat, 8)) ==> tick_low_first(
            bytes,
            at,
        ) == v,
        crate::wire::stands_at(bytes, at, crate::wire::high_first(v as nat, 8)) ==> tick_high_first(
            bytes,
            at,
        ) == v,
{
    if crate::wire::stands_at(bytes, at, crate::wire::low_first(v as nat, 8)) {
        crate::wire::lemma_eight_low_first(bytes, at, v);
    }
    if crate::wire::stands_at(bytes, at, crate::wire::high_first(v as nat, 8)) {
        crate::wire::lemma_eight_high_first(bytes, at, v);
    }
}

} // verus!
