use crate::progress::FindState;
use vstd::prelude::*;

verus! {

/// A notification sent to the client while a search runs.
#[derive(Debug, Clone, PartialEq, Eq)]
pub enum OutgoingMessage {
    /// The world of `seed` matched the rule at these positions.
    Result { seed: i32, indexes: Vec<usize> },
    /// Every seed of `[start, end)` is processed.
    Progress { start: i32, end: i32 },
    /// All workers have exited; `[start, end)` is the last processed range.
    Done { start: i32, end: i32 },
}

/// Hands out the seeds of `[start, end)` one at a time, in increasing order.
/// Workers share one cursor; every claim is one indivisible step.
pub struct SeedCursor {
    /// The next seed to hand out.
    pub next: i32,
    /// One past the last seed of the range.
    pub end: i32,
    /// The first seed of the range.
    pub start: Ghost<i32>,
    /// Every seed handed out so far, in order.
    pub claimed: Ghost<Seq<i32>>,
}

/// The seeds `start, start + 1, ...` up to but not including `next`.
pub open spec fn seeds_between(start: i32, next: i32) -> Seq<i32> {
    Seq::new((next - start) as nat, |i: int| (start + i) as i32)
}

impl SeedCursor {
    /// The cursor lies in the range (or at its start when the range is empty)
    /// and the seeds handed out are those below it.
    pub open spec fn wf(&self) -> bool {
        &&& self.start@ <= self.next
        &&& (self.next <= self.end || self.next == self.start@)
        &&& self.claimed@ == seeds_between(self.start@, self.next)
    }

    /// Whether every seed of the range has been handed out.
    pub open spec fn exhausted(&self) -> bool {
        self.next >= self.end
    }

    /// A cursor over `[start, end)`; empty when `end <= start`.
    pub fn new(start: i32, end: i32) -> (r: Self)
        ensures
            r.wf(),
            r.next == start,
            r.end == end,
            r.start@ == start,
            r.claimed@.len() == 0,
    {
        let r = SeedCursor { next: start, end, start: Ghost(start), claimed: Ghost(Seq::empty()) };
        assert(r.claimed@ =~= seeds_between(start, start));
        r
    }

    /// Claims the next seed, or `None` once the range is exhausted; a worker
    /// that gets `None` stops claiming.
    pub fn claim(&mut self) -> (r: Option<i32>)
        requires
            old(self).wf(),
        ensures
            final(self).wf(),
            final(self).end == old(self).end,
            final(self).start@ == old(self).start@,
            old(self).next < old(self).end ==> {
                &&& r == Some(old(self).next)
                &&& final(self).next == old(self).next + 1
                &&& final(self).claimed@ == old(self).claimed@.push(old(self).next)
            },
            old(self).next >= old(self).end ==> r is None && *final(self) == *old(self),
    {
        if self.next < self.end {
            let seed = self.next;
            self.next = self.next + 1;
            self.claimed = Ghost(self.claimed@.push(seed));
            assert(self.claimed@ =~= seeds_between(self.start@, self.next));
            Some(seed)
        } else {
            None
        }
    }
}

/// Every seed is claimed once: when the cursor is exhausted, the seeds handed
/// out, to however many workers, are exactly those of `[start, end)`, each
/// once and in increasing order.
pub proof fn lemma_claims_cover_range(c: SeedCursor)
    requires
        c.wf(),
        c.exhausted(),
    ensures
        c.claimed@.no_duplicates(),
        forall|i: int, j: int| 0 <= i < j < c.claimed@.len() ==> c.claimed@[i] < c.claimed@[j],
        forall|s: i32| c.claimed@.contains(s) <==> c.start@ <= s < c.end,
{
    assert forall|s: i32| c.start@ <= s < c.end implies c.claimed@.contains(s) by {
        assert(c.claimed@[s - c.start@] == s);
    }
}

/// The number of workers for a search: the requested concurrency, at most
/// the size of the range, and not below zero.
pub fn worker_count(concurrency: i32, start: i32, end: i32) -> (r: i32)
    ensures
        r == if concurrency <= end - start {
            if concurrency < 0 { 0 } else { concurrency as int }
        } else {
            if end - start < 0 { 0 } else { end - start }
        },
{
    let size: i64 = end as i64 - start as i64;
    let w: i64 = if (concurrency as i64) <= size {
        concurrency as i64
    } else {
        size
    };
    if w < 0 {
        0
    } else {
        w as i32
    }
}

/// The notifications owed for one processed seed: a match report when the rule
/// matched somewhere, then the checkpoint the tracker handed out, if any.
pub open spec fn messages_for(seed: i32, indexes: Vec<usize>, checkpoint: Option<(i32, i32)>) -> Seq<OutgoingMessage> {
    (if indexes@.len() > 0 {
        seq![OutgoingMessage::Result { seed, indexes }]
    } else {
        Seq::empty()
    }) + match checkpoint {
        Some(range) => seq![OutgoingMessage::Progress { start: range.0, end: range.1 }],
        None => Seq::empty(),
    }
}

/// Builds the notifications owed for one processed seed.
pub fn seed_messages(seed: i32, indexes: Vec<usize>, checkpoint: Option<(i32, i32)>) -> (r: Vec<OutgoingMessage>)
    ensures
        r@ == messages_for(seed, indexes, checkpoint),
{
    let mut r: Vec<OutgoingMessage> = Vec::new();
    let found = indexes.len() > 0;
    if found {
        r.push(OutgoingMessage::Result { seed, indexes });
    }
    match checkpoint {
        Some((start, end)) => {
            r.push(OutgoingMessage::Progress { start, end });
        },
        None => {},
    }
    assert(r@ =~= (if found {
        seq![OutgoingMessage::Result { seed, indexes }]
    } else {
        Seq::empty()
    }) + match checkpoint {
        Some(range) => seq![OutgoingMessage::Progress { start: range.0, end: range.1 }],
        None => Seq::empty(),
    });
    r
}

/// One worker's handling of a seed it claimed: reports the seed to the job's
/// tracker, builds the notifications owed for it, and says whether to claim
/// another seed, which it does not once a stop was asked for. The seed in
/// progress is always finished first.
pub fn process_seed(state: &mut FindState, seed: i32, indexes: Vec<usize>, stop: bool) -> (r: (Vec<OutgoingMessage>, bool))
    requires
        old(state).wf(),
        old(state).progress_end <= seed < i32::MAX,
        !old(state).reported@.contains(seed),
    ensures
        final(state).wf(),
        FindState::absorbs(*old(state), *final(state), seed),
        FindState::hands_out(*old(state), *final(state), FindState::checkpoint_taken(*old(state), *final(state))),
        r.0@ == messages_for(seed, indexes, FindState::checkpoint_taken(*old(state), *final(state))),
        r.1 == !stop,
{
    let checkpoint = state.add(seed);
    let messages = seed_messages(seed, indexes, checkpoint);
    (messages, !stop)
}

/// However a job ends, stopped early or not, its watermark, and so the range
/// of its terminal notification, stays within the seeds the cursor handed
/// out, and so within the requested range.
pub proof fn lemma_done_within_claims(st: FindState, c: SeedCursor)
    requires
        st.wf(),
        c.wf(),
        st.origin@ == c.start@,
        forall|s: i32| #[trigger] st.reported@.contains(s) ==> c.claimed@.contains(s),
    ensures
        st.progress_end <= c.next,
        c.start@ <= c.end ==> st.progress_end <= c.end,
{
    if st.progress_end > c.next {
        assert(st.reported@.contains(c.next));
        let i = c.claimed@.index_of(c.next);
        assert(c.claimed@[i] == c.next);
    }
}

} // verus!
