use std::collections::HashSet;
use vstd::prelude::*;

verus! {

broadcast use vstd::std_specs::hash::group_hash_axioms;

/// Milliseconds in one second.
pub const MILLIS_PER_SEC: u64 = 1000;

/// Whether `parts` are consecutive ranges that together cover `[lo, hi)`:
/// each starts where the previous ended, none runs backwards.
pub open spec fn tiles(parts: Seq<(i32, i32)>, lo: i32, hi: i32) -> bool {
    &&& parts.len() == 0 ==> lo == hi
    &&& parts.len() > 0 ==> parts[0].0 == lo && parts.last().1 == hi
    &&& forall|i: int| 0 <= i < parts.len() ==> #[trigger] parts[i].0 <= parts[i].1
    &&& forall|i: int| 0 <= i < parts.len() - 1 ==> #[trigger] parts[i].1 == parts[i + 1].0
}

/// Relies on `SystemTime::elapsed` of `UNIX_EPOCH`: the wall-clock time in
/// milliseconds since the Unix epoch, 0 for a clock set before it. Nothing is
/// promised of the value.
#[verifier::external_body]
fn clock_millis() -> (r: u64) {
    match std::time::UNIX_EPOCH.elapsed() {
        Ok(d) => d.as_millis() as u64,
        Err(_) => 0,
    }
}

/// Tiling `[lo, mid)` and then `[mid, hi)` tiles `[lo, hi)`.
pub proof fn lemma_tiles_push(parts: Seq<(i32, i32)>, lo: i32, mid: i32, hi: i32)
    requires
        tiles(parts, lo, mid),
        mid <= hi,
    ensures
        tiles(parts.push((mid, hi)), lo, hi),
{
    let q = parts.push((mid, hi));
    assert forall|i: int| 0 <= i < q.len() - 1 implies #[trigger] q[i].1 == q[i + 1].0 by {
        if i == parts.len() - 1 {
            assert(q[i] == parts.last());
        } else {
            assert(q[i] == parts[i] && q[i + 1] == parts[i + 1]);
        }
    }
    assert forall|i: int| 0 <= i < q.len() implies #[trigger] q[i].0 <= q[i].1 by {
        if i < parts.len() {
            assert(q[i] == parts[i]);
        }
    }
}

/// Whole seconds elapsed from `last` to `now` (both in milliseconds); a clock
/// that went backwards counts as no time.
pub open spec fn elapsed_secs(last: u64, now: u64) -> int {
    if now >= last {
        (now - last) as int / MILLIS_PER_SEC as int
    } else {
        0
    }
}

/// Whether a checkpoint is due at `now`.
pub open spec fn checkpoint_due(last: u64, now: u64, autosave: u64) -> bool {
    elapsed_secs(last, now) >= autosave
}

/// Progress of one search job: the contiguous watermark, the seeds that
/// completed ahead of it, the workers still running and the checkpoint clock.
pub struct FindState {
    /// Where the next checkpoint range starts.
    pub progress_start: i32,
    /// Every seed of the job below this one has been reported.
    pub progress_end: i32,
    /// Seeds above the watermark that were reported out of order.
    pub pending_seeds: HashSet<i32>,
    /// Workers that have not exited yet.
    pub running: i32,
    /// Minimum whole seconds between two checkpoints.
    pub autosave: u64,
    /// Time of the last checkpoint, in milliseconds since the Unix epoch.
    pub last_notify: u64,
    /// The first seed of the job.
    pub origin: Ghost<i32>,
    /// Every seed reported so far.
    pub reported: Ghost<Set<i32>>,
    /// Every checkpoint range handed out so far, in order.
    pub checkpoints: Ghost<Seq<(i32, i32)>>,
}

impl FindState {
    /// The watermark is the first seed from `origin` on that was not reported,
    /// the pending seeds are exactly the reported ones above it, and the
    /// checkpoints so far tile `[origin, progress_start)`.
    pub open spec fn wf(&self) -> bool {
        &&& self.origin@ <= self.progress_start <= self.progress_end
        &&& self.reported@.finite()
        &&& forall|x: i32| self.origin@ <= x < self.progress_end ==> #[trigger] self.reported@.contains(x)
        &&& !self.reported@.contains(self.progress_end)
        &&& forall|x: i32| #[trigger] self.reported@.contains(x) ==> self.origin@ <= x < i32::MAX
        &&& self.pending_seeds@ == self.reported@.filter(|x: i32| x > self.progress_end)
        &&& tiles(self.checkpoints@, self.origin@, self.progress_start)
    }

    /// The watermark part of reporting `seed`: `new` is `old` with `seed`
    /// recorded, the watermark moved over every contiguous reported seed.
    pub open spec fn absorbs(old: FindState, new: FindState, seed: i32) -> bool {
        &&& new.reported@ == old.reported@.insert(seed)
        &&& new.origin@ == old.origin@
        &&& new.running == old.running
        &&& new.autosave == old.autosave
        &&& seed != old.progress_end ==> {
            &&& new.progress_end == old.progress_end
            &&& new.pending_seeds@ == old.pending_seeds@.insert(seed)
        }
        &&& seed == old.progress_end ==> {
            &&& old.progress_end < new.progress_end
            &&& forall|x: i32| old.progress_end < x < new.progress_end ==> #[trigger] old.pending_seeds@.contains(x)
            &&& !old.pending_seeds@.contains(new.progress_end)
            &&& new.pending_seeds@ == old.pending_seeds@.filter(|x: i32| x > new.progress_end)
        }
    }

    /// The checkpoint that took `old` to `new`, if one was handed out.
    pub open spec fn checkpoint_taken(old: FindState, new: FindState) -> Option<(i32, i32)> {
        if new.checkpoints@.len() > old.checkpoints@.len() {
            Some(new.checkpoints@.last())
        } else {
            None
        }
    }

    /// The checkpoint part of reporting a seed: either the range from the last
    /// checkpoint to the new watermark is handed out and recorded, or nothing
    /// is and the checkpoint fields stay.
    pub open spec fn hands_out(old: FindState, new: FindState, r: Option<(i32, i32)>) -> bool {
        match r {
            Some(range) => {
                &&& range == (old.progress_start, new.progress_end)
                &&& new.progress_start == new.progress_end
                &&& new.checkpoints@ == old.checkpoints@.push(range)
            },
            None => {
                &&& new.progress_start == old.progress_start
                &&& new.last_notify == old.last_notify
                &&& new.checkpoints@ == old.checkpoints@
            },
        }
    }

    /// A fresh job starting at `start` with `running` workers, its checkpoint
    /// clock set to `now`.
    pub fn new_at(start: i32, running: i32, autosave: u64, now: u64) -> (r: Self)
        ensures
            r.wf(),
            r.progress_start == start,
            r.progress_end == start,
            r.pending_seeds@.is_empty(),
            r.running == running,
            r.autosave == autosave,
            r.last_notify == now,
            r.origin@ == start,
            r.reported@.is_empty(),
            r.checkpoints@.len() == 0,
    {
        let r = FindState {
            progress_start: start,
            progress_end: start,
            pending_seeds: HashSet::new(),
            running,
            autosave,
            last_notify: now,
            origin: Ghost(start),
            reported: Ghost(Set::empty()),
            checkpoints: Ghost(Seq::empty()),
        };
        assert(r.pending_seeds@ =~= r.reported@.filter(|x: i32| x > r.progress_end));
        r
    }

    /// A fresh job starting at `start` with `running` workers, its checkpoint
    /// clock set to the current time.
    pub fn new(start: i32, running: i32, autosave: u64) -> (r: Self)
        ensures
            r.wf(),
            r.progress_start == start,
            r.progress_end == start,
            r.pending_seeds@.is_empty(),
            r.running == running,
            r.autosave == autosave,
            r.origin@ == start,
            r.reported@.is_empty(),
            r.checkpoints@.len() == 0,
    {
        let now = clock_millis();
        Self::new_at(start, running, autosave, now)
    }

    /// Records that `seed` is processed, reading the checkpoint clock. The
    /// watermark moves as in `add_at`; a checkpoint, when one comes, is the
    /// range from the last one to the new watermark, and with `autosave == 0`
    /// every advance of the watermark gives one.
    pub fn add(&mut self, seed: i32) -> (r: Option<(i32, i32)>)
        requires
            old(self).wf(),
            old(self).progress_end <= seed < i32::MAX,
            !old(self).reported@.contains(seed),
        ensures
            final(self).wf(),
            old(self).progress_end <= final(self).progress_end,
            Self::absorbs(*old(self), *final(self), seed),
            Self::hands_out(*old(self), *final(self), r),
            r is Some ==> seed == old(self).progress_end,
            r is Some ==> checkpoint_due(old(self).last_notify, final(self).last_notify, old(self).autosave),
            seed == old(self).progress_end && old(self).autosave == 0 ==> r is Some,
    {
        let now = clock_millis();
        self.add_at(seed, now)
    }

    /// Marks one worker as exited. The last one to exit gets the final range
    /// `(progress_start, progress_end)` for the terminal notification.
    pub fn finish_worker(&mut self) -> (r: Option<(i32, i32)>)
        requires
            old(self).running > 0,
        ensures
            *final(self) == (FindState { running: (old(self).running - 1) as i32, ..*old(self) }),
            r == if final(self).running == 0 {
                Some((old(self).progress_start, old(self).progress_end))
            } else {
                None::<(i32, i32)>
            },
    {
        self.running = self.running - 1;
        if self.running == 0 {
            Some((self.progress_start, self.progress_end))
        } else {
            None
        }
    }

    /// Records that `seed` is processed at time `now` (milliseconds). When the
    /// watermark advances and `autosave` seconds have passed since the last
    /// checkpoint, returns the newly covered range as a checkpoint.
    pub fn add_at(&mut self, seed: i32, now: u64) -> (r: Option<(i32, i32)>)
        requires
            old(self).wf(),
            old(self).progress_end <= seed < i32::MAX,
            !old(self).reported@.contains(seed),
        ensures
            final(self).wf(),
            old(self).progress_end <= final(self).progress_end,
            Self::absorbs(*old(self), *final(self), seed),
            Self::hands_out(*old(self), *final(self), r),
            r is Some ==> final(self).last_notify == now,
            r is Some ==> checkpoint_due(old(self).last_notify, final(self).last_notify, old(self).autosave),
            r is Some <==> seed == old(self).progress_end && checkpoint_due(old(self).last_notify, now, old(self).autosave),
    {
        if self.progress_end == seed {
            let ghost pending0 = self.pending_seeds@;
            assert(forall|x: i32| #[trigger] pending0.contains(x) ==> old(self).reported@.contains(x));
            let mut e: i32 = seed + 1;
            loop
                invariant_except_break
                    pending0 == old(self).pending_seeds@,
                    forall|x: i32| #[trigger] pending0.contains(x) ==> x < i32::MAX,
                    seed < e <= i32::MAX,
                    forall|x: i32| seed < x < e ==> #[trigger] pending0.contains(x),
                    self.pending_seeds@ == pending0.filter(|x: i32| x >= e),
                    self.progress_start == old(self).progress_start,
                    self.progress_end == old(self).progress_end,
                    self.running == old(self).running,
                    self.autosave == old(self).autosave,
                    self.last_notify == old(self).last_notify,
                    self.origin == old(self).origin,
                    self.reported == old(self).reported,
                    self.checkpoints == old(self).checkpoints,
                ensures
                    seed < e <= i32::MAX,
                    forall|x: i32| seed < x < e ==> #[trigger] pending0.contains(x),
                    !pending0.contains(e),
                    self.pending_seeds@ == pending0.filter(|x: i32| x > e),
                    self.progress_start == old(self).progress_start,
                    self.progress_end == old(self).progress_end,
                    self.running == old(self).running,
                    self.autosave == old(self).autosave,
                    self.last_notify == old(self).last_notify,
                    self.origin == old(self).origin,
                    self.reported == old(self).reported,
                    self.checkpoints == old(self).checkpoints,
                decreases i32::MAX - e,
            {
                let present = self.pending_seeds.remove(&e);
                if !present {
                    assert(self.pending_seeds@ =~= pending0.filter(|x: i32| x > e));
                    break;
                }
                assert(self.pending_seeds@ =~= pending0.filter(|x: i32| x >= e + 1));
                e = e + 1;
            }
            self.progress_end = e;
            self.reported = Ghost(self.reported@.insert(seed));
            assert forall|x: i32| self.origin@ <= x < self.progress_end implies #[trigger] self.reported@.contains(x) by {
                if seed < x {
                    assert(pending0.contains(x));
                }
            }
            assert(!self.reported@.contains(self.progress_end)) by {
                if old(self).reported@.contains(e) {
                    assert(pending0.contains(e));
                }
            }
            assert(self.pending_seeds@ =~= self.reported@.filter(|x: i32| x > self.progress_end));
            let elapsed: u64 = if now >= self.last_notify {
                (now - self.last_notify) / MILLIS_PER_SEC
            } else {
                0
            };
            if elapsed >= self.autosave {
                self.last_notify = now;
                let start = self.progress_start;
                self.progress_start = self.progress_end;
                proof {
                    lemma_tiles_push(self.checkpoints@, self.origin@, start, self.progress_end);
                }
                self.checkpoints = Ghost(self.checkpoints@.push((start, self.progress_end)));
                Some((start, self.progress_end))
            } else {
                None
            }
        } else {
            self.pending_seeds.insert(seed);
            self.reported = Ghost(self.reported@.insert(seed));
            assert(self.pending_seeds@ =~= self.reported@.filter(|x: i32| x > self.progress_end));
            None
        }
    }
}

/// The seeds `lo..hi` as a set: finite, with `hi - lo` members.
proof fn lemma_range_len(lo: i32, hi: i32)
    requires
        lo <= hi,
    ensures
        Set::new(|x: i32| lo <= x < hi).finite(),
        Set::new(|x: i32| lo <= x < hi).len() == hi - lo,
    decreases hi - lo,
{
    if lo == hi {
        assert(Set::new(|x: i32| lo <= x < hi) =~= Set::<i32>::empty());
    } else {
        let h = (hi - 1) as i32;
        lemma_range_len(lo, h);
        assert(Set::new(|x: i32| lo <= x < hi) =~= Set::new(|x: i32| lo <= x < h).insert(h));
    }
}

/// The watermark does not depend on the order of the reports: two states of
/// one job that have seen the same seeds have the same watermark and the same
/// pending seeds.
pub proof fn lemma_watermark_order_free(a: FindState, b: FindState)
    requires
        a.wf(),
        b.wf(),
        a.origin@ == b.origin@,
        a.reported@ == b.reported@,
    ensures
        a.progress_end == b.progress_end,
        a.pending_seeds@ == b.pending_seeds@,
{
    if a.progress_end < b.progress_end {
        assert(b.reported@.contains(a.progress_end));
    } else if b.progress_end < a.progress_end {
        assert(a.reported@.contains(b.progress_end));
    }
}

/// Once exactly the seeds of `[origin, end)` are reported, in whatever order,
/// the watermark is `end`.
pub proof fn lemma_watermark_complete(st: FindState, end: i32)
    requires
        st.wf(),
        st.origin@ <= end,
        forall|x: i32| st.reported@.contains(x) <==> st.origin@ <= x < end,
    ensures
        st.progress_end == end,
{
    if st.progress_end > end {
        assert(st.reported@.contains(end));
    }
}

/// The watermark never runs ahead of the reports: it is at most the job's
/// first seed plus the number of seeds reported.
pub proof fn lemma_watermark_bounded(st: FindState)
    requires
        st.wf(),
    ensures
        st.progress_end - st.origin@ <= st.reported@.len(),
{
    let below = Set::new(|x: i32| st.origin@ <= x < st.progress_end);
    lemma_range_len(st.origin@, st.progress_end);
    assert(below.subset_of(st.reported@));
    vstd::set_lib::lemma_len_subset(below, st.reported@);
}

/// The checkpoints handed out so far, followed by the final range that
/// `finish_worker` reports, tile `[origin, progress_end)` with no gap and no
/// overlap.
pub proof fn lemma_checkpoints_tile(st: FindState)
    requires
        st.wf(),
    ensures
        tiles(st.checkpoints@.push((st.progress_start, st.progress_end)), st.origin@, st.progress_end),
{
    lemma_tiles_push(st.checkpoints@, st.origin@, st.progress_start, st.progress_end);
}

} // verus!
