//! The bookkeeping of a worker pool: which jobs exist, where each one is, and what a worker or a
//! caller may do with it next.
//!
//! The threads, the lock and the queue's condition variable belong to the caller; every decision
//! they act on is made here, by a [`JobTable`] the caller keeps behind its lock:
//!
//! - [`JobTable::enqueue`] hands out a job id. Ids are monotonic and NEVER reused, so a stale id
//!   from a freed volume answers [`JobState::Unknown`] rather than another job's result.
//! - [`JobTable::pickup`] is what a worker does when it wakes: take the newest queued job, and run
//!   it only if it is still pending.
//! - [`JobTable::finish`] files a worker's result, unless the job was cancelled or forgotten while
//!   it ran: a cancel that lands during a run wins.
//! - [`JobTable::poll`], [`JobTable::take`], [`JobTable::cancel`] and [`JobTable::drop_volume`]
//!   are the caller's side.
//!
//! # Volumes are snapshots, so invalidation cannot race
//!
//! A job records the generation of the volume it was submitted under. A finished job about an
//! older generation reports [`JobState::Stale`] rather than being handed back, so the caller
//! re-requests instead of steering by an answer about geometry that is gone.
use vstd::prelude::*;

verus! {

/// A handle to submitted work.
pub type JobId = u64;

/// Which volume a job is about, and which publication of it.
#[derive(Clone, Copy, Debug, PartialEq, Eq, Structural)]
pub struct VolumeStamp {
    /// Which volume.
    pub id: u64,
    /// Which publication of that volume.
    pub generation: u64,
}

/// Where a job is.
#[derive(Clone, Copy, Debug, PartialEq, Eq, Structural)]
pub enum JobState {
    /// No such job, or its result has already been taken.
    Unknown,
    /// Queued, not started.
    Pending,
    /// A worker is on it.
    Running,
    /// Finished; the result is waiting to be taken.
    Ready,
    /// The worker failed.
    Failed,
    /// Cancelled before or during the run.
    Cancelled,
    /// Finished, but against a volume that has since been replaced.
    Stale,
}

/// The number each job state is reported under, `Unknown` = 0 through `Stale` = 6.
pub open spec fn state_code(state: JobState) -> i64 {
    match state {
        JobState::Unknown => 0,
        JobState::Pending => 1,
        JobState::Running => 2,
        JobState::Ready => 3,
        JobState::Failed => 4,
        JobState::Cancelled => 5,
        JobState::Stale => 6,
    }
}

/// The number `state` is reported under.
pub fn job_state_code(state: JobState) -> (c: i64)
    ensures
        c == state_code(state),
{
    match state {
        JobState::Unknown => 0,
        JobState::Pending => 1,
        JobState::Running => 2,
        JobState::Ready => 3,
        JobState::Failed => 4,
        JobState::Cancelled => 5,
        JobState::Stale => 6,
    }
}

/// Every job state has its own number.
pub proof fn lemma_state_codes_distinct(a: JobState, b: JobState)
    ensures
        state_code(a) == state_code(b) <==> a == b,
        0 <= state_code(a) <= 6,
{
}

/// How many workers a pool sized for a machine reporting `cores` cores holds: one fewer than the
/// cores, so the caller keeps one, and at least one and at most four, so a renderer and a
/// simulation beside it keep theirs.
pub fn default_threads_for(cores: usize) -> (n: usize)
    ensures
        n == (if cores <= 2 {
            1
        } else if cores >= 5 {
            4
        } else {
            cores - 1
        }),
        1 <= n <= 4,
{
    let spare = cores.saturating_sub(1);
    if spare < 1 {
        1
    } else if spare > 4 {
        4
    } else {
        spare
    }
}

/// What the table holds about a job: where it is, and its result once there is one.
#[derive(Debug)]
pub enum Slot<O> {
    /// Queued, not started.
    Pending,
    /// A worker is on it.
    Running,
    /// Finished, with this result.
    Ready(O),
    /// The worker failed.
    Failed,
    /// Cancelled.
    Cancelled,
}

/// A queued job: its id, the volume publication it is about, and the work itself.
#[derive(Debug)]
pub struct QueuedJob<W> {
    /// The job.
    pub id: JobId,
    /// The volume publication it is about.
    pub stamp: VolumeStamp,
    /// What to do.
    pub work: W,
}

/// One job the table knows.
struct JobEntry<O> {
    id: JobId,
    slot: Slot<O>,
    stamp: Option<VolumeStamp>,
}

/// The table's contents as values: the slot and the stamp of every known job, the queue, and the
/// next id to hand out.
pub struct JobModel<W, O> {
    /// Where each known job is.
    pub slots: Map<JobId, Slot<O>>,
    /// Which volume publication each job is about, while that is still recorded.
    pub stamps: Map<JobId, VolumeStamp>,
    /// Queued jobs, oldest first.
    pub queue: Seq<QueuedJob<W>>,
    /// The id the next job gets.
    pub next_id: u64,
}

/// The state [`JobTable::poll`] reports for a slot, given the caller's current volume stamp.
pub open spec fn state_of<O>(slot: Slot<O>, stamp: Option<VolumeStamp>, current: Option<VolumeStamp>) -> JobState {
    match slot {
        Slot::Pending => JobState::Pending,
        Slot::Running => JobState::Running,
        Slot::Failed => JobState::Failed,
        Slot::Cancelled => JobState::Cancelled,
        Slot::Ready(_) => match current {
            Some(cur) => if stamp == Some(cur) {
                JobState::Ready
            } else {
                JobState::Stale
            },
            None => JobState::Ready,
        },
    }
}

impl<W, O> JobModel<W, O> {
    /// Every known id was handed out, and every stamp belongs to a known job.
    pub open spec fn inv(self) -> bool {
        &&& self.next_id >= 1
        &&& forall|k: JobId| #[trigger] self.slots.contains_key(k) ==> 1 <= k < self.next_id
        &&& forall|k: JobId| #[trigger] self.stamps.contains_key(k) ==> self.slots.contains_key(k)
    }

    /// What polling `job` reports, given the generation the caller believes in.
    pub open spec fn poll(self, job: JobId, current: Option<VolumeStamp>) -> JobState {
        if !self.slots.contains_key(job) {
            JobState::Unknown
        } else {
            let stamp = if self.stamps.contains_key(job) {
                Some(self.stamps[job])
            } else {
                None
            };
            state_of(self.slots[job], stamp, current)
        }
    }

    /// After queueing `work` about `stamp`: the new job is pending under the next id.
    pub open spec fn enqueued(self, stamp: VolumeStamp, work: W) -> Self {
        JobModel {
            slots: self.slots.insert(self.next_id, Slot::Pending),
            stamps: self.stamps.insert(self.next_id, stamp),
            queue: self.queue.push(QueuedJob { id: self.next_id, stamp, work }),
            next_id: (self.next_id + 1) as u64,
        }
    }

    /// Whether `job` has a result waiting.
    pub open spec fn is_ready(self, job: JobId) -> bool {
        self.slots.contains_key(job) && self.slots[job] is Ready
    }

    /// The jobs that are ready (`true`) or running (`false`).
    pub open spec fn with_slot(self, ready: bool) -> Set<JobId> {
        self.slots.dom().filter(
            |k: JobId|
                if ready {
                    self.slots[k] is Ready
                } else {
                    self.slots[k] is Running
                },
        )
    }

    /// After taking `job`'s result: a ready job is forgotten, anything else is left as it was.
    pub open spec fn taken(self, job: JobId) -> Self {
        if self.is_ready(job) {
            JobModel {
                slots: self.slots.remove(job),
                stamps: self.stamps.remove(job),
                queue: self.queue,
                next_id: self.next_id,
            }
        } else {
            self
        }
    }

    /// After cancelling `job`: it leaves the queue, a known job reads cancelled, and its stamp is
    /// forgotten.
    pub open spec fn cancelled(self, job: JobId) -> Self {
        JobModel {
            slots: if self.slots.contains_key(job) {
                self.slots.insert(job, Slot::Cancelled)
            } else {
                self.slots
            },
            stamps: self.stamps.remove(job),
            queue: self.queue.filter(|q: QueuedJob<W>| q.id != job),
            next_id: self.next_id,
        }
    }

    /// Whether `job` is recorded as being about volume `id`.
    pub open spec fn about(self, job: JobId, id: u64) -> bool {
        self.stamps.contains_key(job) && self.stamps[job].id == id
    }

    /// After dropping volume `id`: every job recorded as about it is forgotten, and no queued job
    /// about it remains.
    pub open spec fn dropped(self, id: u64) -> Self {
        JobModel {
            slots: self.slots.restrict(self.slots.dom().filter(|k: JobId| !self.about(k, id))),
            stamps: self.stamps.restrict(self.stamps.dom().filter(|k: JobId| !self.about(k, id))),
            queue: self.queue.filter(|q: QueuedJob<W>| q.stamp.id != id),
            next_id: self.next_id,
        }
    }

    /// After a worker picks up the newest queued job: it leaves the queue, and starts running if it
    /// was still pending.
    pub open spec fn picked(self) -> Self {
        if self.queue.len() == 0 {
            self
        } else {
            let job = self.queue.last().id;
            JobModel {
                slots: if self.slots.contains_key(job) && self.slots[job] is Pending {
                    self.slots.insert(job, Slot::Running)
                } else {
                    self.slots
                },
                stamps: self.stamps,
                queue: self.queue.drop_last(),
                next_id: self.next_id,
            }
        }
    }

    /// After a worker files `result` for `job` (`None` for a failed run): a running job becomes
    /// ready or failed; a job that was cancelled or forgotten meanwhile is left as it is.
    pub open spec fn finished(self, job: JobId, result: Option<O>) -> Self {
        if self.slots.contains_key(job) && self.slots[job] is Running {
            JobModel {
                slots: self.slots.insert(
                    job,
                    match result {
                        Some(o) => Slot::Ready(o),
                        None => Slot::Failed,
                    },
                ),
                stamps: self.stamps,
                queue: self.queue,
                next_id: self.next_id,
            }
        } else {
            self
        }
    }
}

/// Every operation keeps the table's invariant.
pub proof fn lemma_ops_keep_inv<W, O>(
    m: JobModel<W, O>,
    stamp: VolumeStamp,
    work: W,
    job: JobId,
    id: u64,
    result: Option<O>,
)
    requires
        m.inv(),
        m.next_id < u64::MAX,
    ensures
        m.enqueued(stamp, work).inv(),
        m.taken(job).inv(),
        m.cancelled(job).inv(),
        m.dropped(id).inv(),
        m.picked().inv(),
        m.finished(job, result).inv(),
{
}

/// Ids are never reused: the id a new job gets is unknown to the table, and every later id is
/// larger.
pub proof fn lemma_ids_never_reused<W, O>(m: JobModel<W, O>, stamp: VolumeStamp, work: W)
    requires
        m.inv(),
        m.next_id < u64::MAX,
    ensures
        !m.slots.contains_key(m.next_id),
        !m.stamps.contains_key(m.next_id),
        m.poll(m.next_id, None) == JobState::Unknown,
        m.enqueued(stamp, work).next_id > m.next_id,
        m.enqueued(stamp, work).poll(m.next_id, None) == JobState::Pending,
{
}

/// A result filed for a running job is what taking it gives back: after a successful run the job
/// reads `Ready` and holds exactly that result; after a failed one it reads `Failed` and has
/// nothing to take.
pub proof fn lemma_take_gives_back_what_was_filed<W, O>(m: JobModel<W, O>, job: JobId, result: O)
    requires
        m.slots.contains_key(job),
        m.slots[job] is Running,
    ensures
        m.finished(job, Some(result)).is_ready(job),
        m.finished(job, Some(result)).slots[job] == Slot::<O>::Ready(result),
        m.finished(job, Some(result)).poll(job, None) == JobState::Ready,
        m.finished(job, None::<O>).poll(job, None) == JobState::Failed,
        !m.finished(job, None::<O>).is_ready(job),
{
}

/// Taking a ready job's result forgets the job: polling it answers `Unknown`, and a second take
/// finds nothing.
pub proof fn lemma_take_forgets<W, O>(m: JobModel<W, O>, job: JobId, current: Option<VolumeStamp>)
    requires
        m.is_ready(job),
    ensures
        m.taken(job).poll(job, current) == JobState::Unknown,
        !m.taken(job).is_ready(job),
        m.taken(job).taken(job) == m.taken(job),
{
}

/// A finished job reads `Stale` exactly when the caller names a volume publication other than
/// the one the job was submitted under, and `Ready` otherwise.
pub proof fn lemma_stale_iff_other_generation<W, O>(
    m: JobModel<W, O>,
    job: JobId,
    current: VolumeStamp,
)
    requires
        m.is_ready(job),
        m.stamps.contains_key(job),
    ensures
        m.poll(job, Some(current)) == JobState::Stale <==> m.stamps[job] != current,
        m.poll(job, Some(current)) == JobState::Ready <==> m.stamps[job] == current,
        m.poll(job, None) == JobState::Ready,
{
}

/// A cancelled job is out of the queue, so no worker ever picks it up, and a result filed for it
/// afterwards is dropped: it stays cancelled.
pub proof fn lemma_cancelled_never_runs<W, O>(m: JobModel<W, O>, job: JobId, result: Option<O>)
    requires
        m.slots.contains_key(job),
    ensures
        forall|q: int|
            0 <= q < m.cancelled(job).queue.len() ==> #[trigger] m.cancelled(job).queue[q].id != job,
        m.cancelled(job).poll(job, None) == JobState::Cancelled,
        m.cancelled(job).finished(job, result) == m.cancelled(job),
        m.cancelled(job).picked().poll(job, None) == JobState::Cancelled,
{
    let c = m.cancelled(job);
    assert forall|q: int| 0 <= q < c.queue.len() implies #[trigger] c.queue[q].id != job by {
        m.queue.lemma_filter_pred(|x: QueuedJob<W>| x.id != job, q);
    }
}

/// Dropping a volume forgets every job recorded as about it.
pub proof fn lemma_drop_forgets<W, O>(m: JobModel<W, O>, id: u64, job: JobId, current: Option<VolumeStamp>)
    requires
        m.about(job, id),
    ensures
        m.dropped(id).poll(job, current) == JobState::Unknown,
        forall|q: int|
            0 <= q < m.dropped(id).queue.len() ==> #[trigger] m.dropped(id).queue[q].stamp.id != id,
{
    let d = m.dropped(id);
    assert forall|q: int| 0 <= q < d.queue.len() implies #[trigger] d.queue[q].stamp.id != id by {
        m.queue.lemma_filter_pred(|x: QueuedJob<W>| x.stamp.id != id, q);
    }
}

/// The job bookkeeping of a pool: slots, stamps and the queue, behind whatever lock the caller
/// keeps.
pub struct JobTable<W, O> {
    entries: Vec<JobEntry<O>>,
    queue: Vec<QueuedJob<W>>,
    next_id: u64,
}

impl<W, O> JobTable<W, O> {
    /// Entry `i` exists, and its id is `k`.
    spec fn has_entry(&self, k: JobId, i: int) -> bool {
        0 <= i < self.entries.len() && self.entries@[i].id == k
    }

    /// The table's contents as values.
    pub closed spec fn model(&self) -> JobModel<W, O> {
        JobModel {
            slots: Map::new(
                |k: JobId| exists|i: int| self.has_entry(k, i),
                |k: JobId| self.entries@[choose|i: int| self.has_entry(k, i)].slot,
            ),
            stamps: Map::new(
                |k: JobId|
                    exists|i: int| self.has_entry(k, i) && (#[trigger] self.entries@[i]).stamp is Some,
                |k: JobId| self.entries@[choose|i: int| self.has_entry(k, i)].stamp->Some_0,
            ),
            queue: self.queue@,
            next_id: self.next_id,
        }
    }

    /// Entry ids are distinct, and the model keeps its invariant.
    pub closed spec fn wf(&self) -> bool {
        &&& forall|i: int, j: int|
            #![trigger self.entries@[i], self.entries@[j]]
            0 <= i < j < self.entries.len() ==> self.entries@[i].id != self.entries@[j].id
        &&& forall|i: int|
            #![trigger self.entries@[i]]
            0 <= i < self.entries.len() ==> 1 <= self.entries@[i].id < self.next_id
        &&& self.next_id >= 1
    }

    /// What the model says about the id of entry `i`.
    proof fn lemma_entry(&self, i: int)
        requires
            self.wf(),
            0 <= i < self.entries.len(),
        ensures
            self.model().slots.contains_key(self.entries@[i].id),
            self.model().slots[self.entries@[i].id] == self.entries@[i].slot,
            self.model().stamps.contains_key(self.entries@[i].id) <==> self.entries@[i].stamp is Some,
            self.entries@[i].stamp is Some ==> self.model().stamps[self.entries@[i].id]
                == self.entries@[i].stamp->Some_0,
    {
        let k = self.entries@[i].id;
        assert(self.has_entry(k, i));
        let c = choose|j: int| self.has_entry(k, j);
        assert(self.entries@[c].id == self.entries@[i].id);
        assert(c == i);
    }

    /// An id no entry carries is unknown to the model.
    proof fn lemma_no_entry(&self, k: JobId)
        requires
            forall|i: int| 0 <= i < self.entries.len() ==> (#[trigger] self.entries@[i]).id != k,
        ensures
            !self.model().slots.contains_key(k),
            !self.model().stamps.contains_key(k),
    {
    }

    /// The model of a well-formed table keeps its invariant.
    proof fn lemma_model_inv(&self)
        requires
            self.wf(),
        ensures
            self.model().inv(),
    {
        let m = self.model();
        assert forall|k: JobId| #[trigger] m.slots.contains_key(k) implies 1 <= k < m.next_id by {
            let i = choose|i: int| self.has_entry(k, i);
            assert(self.entries@[i].id == k);
        }
    }

    /// The index of the entry for `job`, if there is one.
    fn find(&self, job: JobId) -> (r: Option<usize>)
        requires
            self.wf(),
        ensures
            r matches Some(i) ==> i < self.entries.len() && self.entries@[i as int].id == job,
            r is None ==> !self.model().slots.contains_key(job) && !self.model().stamps.contains_key(
                job,
            ),
    {
        let mut i: usize = 0;
        while i < self.entries.len()
            invariant
                self.wf(),
                i <= self.entries.len(),
                forall|j: int| 0 <= j < i ==> (#[trigger] self.entries@[j]).id != job,
            decreases self.entries.len() - i,
        {
            if self.entries[i].id == job {
                return Some(i);
            }
            i += 1;
        }
        proof {
            self.lemma_no_entry(job);
        }
        None
    }

    /// An empty table; the first job gets id 1.
    pub fn new() -> (t: Self)
        ensures
            t.wf(),
            t.model().slots == Map::<JobId, Slot<O>>::empty(),
            t.model().stamps == Map::<JobId, VolumeStamp>::empty(),
            t.model().queue == Seq::<QueuedJob<W>>::empty(),
            t.model().next_id == 1,
    {
        let t = JobTable { entries: Vec::new(), queue: Vec::new(), next_id: 1 };
        proof {
            assert(t.model().slots =~= Map::<JobId, Slot<O>>::empty());
            assert(t.model().stamps =~= Map::<JobId, VolumeStamp>::empty());
        }
        t
    }

    /// The id the next job gets.
    pub fn next_job_id(&self) -> (n: u64)
        ensures
            n == self.model().next_id,
    {
        self.next_id
    }

    /// How many jobs are queued.
    pub fn queued(&self) -> (n: usize)
        ensures
            n == self.model().queue.len(),
    {
        self.queue.len()
    }

    /// Queue `work` about `stamp` and return its id.
    pub fn enqueue(&mut self, stamp: VolumeStamp, work: W) -> (id: JobId)
        requires
            old(self).wf(),
            old(self).model().next_id < u64::MAX,
        ensures
            final(self).wf(),
            id == old(self).model().next_id,
            final(self).model() == old(self).model().enqueued(stamp, work),
    {
        let ghost old_t = *self;
        let id = self.next_id;
        self.next_id = id + 1;
        self.entries.push(JobEntry { id, slot: Slot::Pending, stamp: Some(stamp) });
        self.queue.push(QueuedJob { id, stamp, work });
        proof {
            let e = old_t.model().enqueued(stamp, work);
            let last = old_t.entries.len() as int;
            assert forall|i: int, j: int|
                #![trigger self.entries@[i], self.entries@[j]]
                0 <= i < j < self.entries.len() implies self.entries@[i].id != self.entries@[j].id by {
                if j < last {
                    assert(old_t.entries@[i] == self.entries@[i]);
                    assert(old_t.entries@[j] == self.entries@[j]);
                } else {
                    assert(old_t.entries@[i] == self.entries@[i]);
                }
            }
            assert forall|i: int|
                #![trigger self.entries@[i]]
                0 <= i < self.entries.len() implies 1 <= self.entries@[i].id < self.next_id by {
                if i < last {
                    assert(old_t.entries@[i] == self.entries@[i]);
                }
            }
            assert forall|k: JobId| #[trigger] agrees(self.model(), e, k) by {
                if k == id {
                    self.lemma_entry(last);
                    assert forall|i: int| 0 <= i < old_t.entries.len() implies (
                    #[trigger] old_t.entries@[i]).id != k by {}
                    old_t.lemma_no_entry(k);
                } else if exists|i: int| 0 <= i < last && old_t.entries@[i].id == k {
                    let i = choose|i: int| 0 <= i < last && old_t.entries@[i].id == k;
                    old_t.lemma_entry(i);
                    assert(self.entries@[i] == old_t.entries@[i]);
                    self.lemma_entry(i);
                } else {
                    assert forall|i: int| 0 <= i < old_t.entries.len() implies (
                    #[trigger] old_t.entries@[i]).id != k by {}
                    old_t.lemma_no_entry(k);
                    assert forall|i: int| 0 <= i < self.entries.len() implies (
                    #[trigger] self.entries@[i]).id != k by {
                        if i < last {
                            assert(self.entries@[i] == old_t.entries@[i]);
                        }
                    }
                    self.lemma_no_entry(k);
                }
            }
            lemma_model_eq(self.model(), e);
        }
        id
    }

    /// Where `job` is. `current` is the volume publication the caller believes in; a finished job
    /// about any other publication reports [`JobState::Stale`].
    pub fn poll(&self, job: JobId, current: Option<VolumeStamp>) -> (st: JobState)
        requires
            self.wf(),
        ensures
            st == self.model().poll(job, current),
    {
        match self.find(job) {
            None => JobState::Unknown,
            Some(i) => {
                proof {
                    self.lemma_entry(i as int);
                }
                let e = &self.entries[i];
                match &e.slot {
                    Slot::Pending => JobState::Pending,
                    Slot::Running => JobState::Running,
                    Slot::Failed => JobState::Failed,
                    Slot::Cancelled => JobState::Cancelled,
                    Slot::Ready(_) => match current {
                        Some(cur) => {
                            let same = match e.stamp {
                                Some(st) => st == cur,
                                None => false,
                            };
                            if same {
                                JobState::Ready
                            } else {
                                JobState::Stale
                            }
                        },
                        None => JobState::Ready,
                    },
                }
            },
        }
    }

    /// Removing entry `i` leaves every other job as it was and forgets job `entries[i].id`.
    proof fn lemma_removed_entry(old_t: Self, new_t: Self, i: int)
        requires
            old_t.wf(),
            0 <= i < old_t.entries.len(),
            new_t.entries@ == old_t.entries@.remove(i),
            new_t.next_id == old_t.next_id,
        ensures
            new_t.wf(),
            forall|k: JobId| #[trigger] agrees(
                new_t.model(),
                JobModel {
                    slots: old_t.model().slots.remove(old_t.entries@[i].id),
                    stamps: old_t.model().stamps.remove(old_t.entries@[i].id),
                    queue: new_t.model().queue,
                    next_id: old_t.next_id,
                },
                k,
            ),
    {
        let job = old_t.entries@[i].id;
        let target = JobModel {
            slots: old_t.model().slots.remove(job),
            stamps: old_t.model().stamps.remove(job),
            queue: new_t.model().queue,
            next_id: old_t.next_id,
        };
        assert forall|a: int, b: int|
            #![trigger new_t.entries@[a], new_t.entries@[b]]
            0 <= a < b < new_t.entries.len() implies new_t.entries@[a].id != new_t.entries@[b].id by {
            let a0 = if a < i { a } else { a + 1 };
            let b0 = if b < i { b } else { b + 1 };
            assert(new_t.entries@[a] == old_t.entries@[a0]);
            assert(new_t.entries@[b] == old_t.entries@[b0]);
            assert(old_t.entries@[a0].id != old_t.entries@[b0].id);
        }
        assert forall|a: int|
            #![trigger new_t.entries@[a]]
            0 <= a < new_t.entries.len() implies 1 <= new_t.entries@[a].id < new_t.next_id by {
            let a0 = if a < i { a } else { a + 1 };
            assert(new_t.entries@[a] == old_t.entries@[a0]);
        }
        assert forall|k: JobId| #[trigger] agrees(new_t.model(), target, k) by {
            if k == job {
                assert forall|a: int| 0 <= a < new_t.entries.len() implies (
                #[trigger] new_t.entries@[a]).id != k by {
                    let a0 = if a < i { a } else { a + 1 };
                    assert(new_t.entries@[a] == old_t.entries@[a0]);
                    assert(old_t.entries@[a0].id != old_t.entries@[i].id);
                }
                new_t.lemma_no_entry(k);
            } else if exists|a: int| 0 <= a < old_t.entries.len() && old_t.entries@[a].id == k {
                let a0 = choose|a: int| 0 <= a < old_t.entries.len() && old_t.entries@[a].id == k;
                old_t.lemma_entry(a0);
                let a = if a0 < i { a0 } else { a0 - 1 };
                assert(new_t.entries@[a] == old_t.entries@[a0]);
                new_t.lemma_entry(a);
            } else {
                assert forall|a: int| 0 <= a < old_t.entries.len() implies (
                #[trigger] old_t.entries@[a]).id != k by {}
                old_t.lemma_no_entry(k);
                assert forall|a: int| 0 <= a < new_t.entries.len() implies (
                #[trigger] new_t.entries@[a]).id != k by {
                    let a0 = if a < i { a } else { a + 1 };
                    assert(new_t.entries@[a] == old_t.entries@[a0]);
                }
                new_t.lemma_no_entry(k);
            }
        }
    }

    /// Replacing entry `i` by one with the same id and `slot` and `stamp` changes only that job.
    proof fn lemma_replaced_entry(
        old_t: Self,
        new_t: Self,
        i: int,
        slot: Slot<O>,
        stamp: Option<VolumeStamp>,
    )
        requires
            old_t.wf(),
            0 <= i < old_t.entries.len(),
            new_t.entries@ == old_t.entries@.update(
                i,
                JobEntry { id: old_t.entries@[i].id, slot, stamp },
            ),
            new_t.next_id == old_t.next_id,
        ensures
            new_t.wf(),
            forall|k: JobId| #[trigger] agrees(
                new_t.model(),
                replaced(old_t.model(), old_t.entries@[i].id, slot, stamp, new_t.model().queue),
                k,
            ),
    {
        let job = old_t.entries@[i].id;
        let target = replaced(old_t.model(), job, slot, stamp, new_t.model().queue);
        assert forall|a: int, b: int|
            #![trigger new_t.entries@[a], new_t.entries@[b]]
            0 <= a < b < new_t.entries.len() implies new_t.entries@[a].id != new_t.entries@[b].id by {
            assert(new_t.entries@[a].id == old_t.entries@[a].id);
            assert(new_t.entries@[b].id == old_t.entries@[b].id);
        }
        assert forall|a: int|
            #![trigger new_t.entries@[a]]
            0 <= a < new_t.entries.len() implies 1 <= new_t.entries@[a].id < new_t.next_id by {
            assert(new_t.entries@[a].id == old_t.entries@[a].id);
        }
        assert forall|k: JobId| #[trigger] agrees(new_t.model(), target, k) by {
            if k == job {
                new_t.lemma_entry(i);
            } else if exists|a: int| 0 <= a < old_t.entries.len() && old_t.entries@[a].id == k {
                let a = choose|a: int| 0 <= a < old_t.entries.len() && old_t.entries@[a].id == k;
                old_t.lemma_entry(a);
                assert(new_t.entries@[a] == old_t.entries@[a]);
                new_t.lemma_entry(a);
            } else {
                assert forall|a: int| 0 <= a < old_t.entries.len() implies (
                #[trigger] old_t.entries@[a]).id != k by {}
                old_t.lemma_no_entry(k);
                assert forall|a: int| 0 <= a < new_t.entries.len() implies (
                #[trigger] new_t.entries@[a]).id != k by {
                    assert(new_t.entries@[a].id == old_t.entries@[a].id);
                }
                new_t.lemma_no_entry(k);
            }
        }
    }

    /// Take `job`'s result. The id then answers [`JobState::Unknown`]. Nothing changes, and
    /// nothing is returned, unless the job is ready.
    pub fn take(&mut self, job: JobId) -> (r: Option<O>)
        requires
            old(self).wf(),
        ensures
            final(self).wf(),
            final(self).model() == old(self).model().taken(job),
            r is Some <==> old(self).model().is_ready(job),
            r matches Some(o) ==> old(self).model().slots[job] == Slot::Ready(o),
    {
        let ghost old_t = *self;
        match self.find(job) {
            None => {
                proof {
                    assert(self.model() == old_t.model().taken(job));
                }
                None
            },
            Some(i) => {
                proof {
                    self.lemma_entry(i as int);
                }
                let ready = match &self.entries[i].slot {
                    Slot::Ready(_) => true,
                    _ => false,
                };
                if !ready {
                    return None;
                }
                let e = self.entries.remove(i);
                proof {
                    Self::lemma_removed_entry(old_t, *self, i as int);
                    lemma_model_eq(self.model(), old_t.model().taken(job));
                }
                match e.slot {
                    Slot::Ready(o) => Some(o),
                    _ => None,
                }
            },
        }
    }

    /// Record that a worker finished `job` with `result` (`None` when the run failed). Filed only
    /// if the job is still running: a cancel that landed while it ran wins, and the result is
    /// dropped. Returns whether it was filed.
    pub fn finish(&mut self, job: JobId, result: Option<O>) -> (filed: bool)
        requires
            old(self).wf(),
        ensures
            final(self).wf(),
            final(self).model() == old(self).model().finished(job, result),
            filed == (old(self).model().slots.contains_key(job) && old(self).model().slots[job] is Running),
    {
        let ghost old_t = *self;
        match self.find(job) {
            None => false,
            Some(i) => {
                proof {
                    self.lemma_entry(i as int);
                }
                let running = match &self.entries[i].slot {
                    Slot::Running => true,
                    _ => false,
                };
                if !running {
                    return false;
                }
                let stamp = self.entries[i].stamp;
                let slot = match result {
                    Some(o) => Slot::Ready(o),
                    None => Slot::Failed,
                };
                let ghost new_slot = slot;
                self.entries.set(i, JobEntry { id: job, slot, stamp });
                proof {
                    Self::lemma_replaced_entry(old_t, *self, i as int, new_slot, stamp);
                    let om = old_t.model();
                    match stamp {
                        Some(st) => {
                            assert(om.stamps.insert(job, st) =~= om.stamps);
                        },
                        None => {
                            assert(om.stamps.remove(job) =~= om.stamps);
                        },
                    }
                    assert(replaced(om, job, new_slot, stamp, self.model().queue) == om.finished(
                        job,
                        result,
                    ));
                    lemma_model_eq(self.model(), old_t.model().finished(job, result));
                }
                true
            },
        }
    }
}


impl<W, O> JobTable<W, O> {
    /// Two tables with the same entries and next id record the same slots and stamps.
    proof fn lemma_same_entries(a: Self, b: Self)
        requires
            a.wf(),
            a.entries@ == b.entries@,
            a.next_id == b.next_id,
        ensures
            b.wf(),
            b.model().slots == a.model().slots,
            b.model().stamps == a.model().stamps,
    {
        assert forall|k: JobId| #[trigger] agrees(b.model(), a.model(), k) by {
            if exists|i: int| a.has_entry(k, i) {
                let i = choose|i: int| a.has_entry(k, i);
                a.lemma_entry(i);
                b.lemma_entry(i);
            } else {
                assert forall|i: int| 0 <= i < a.entries.len() implies (
                #[trigger] a.entries@[i]).id != k by {
                    assert(!a.has_entry(k, i));
                }
                a.lemma_no_entry(k);
                assert forall|i: int| 0 <= i < b.entries.len() implies (
                #[trigger] b.entries@[i]).id != k by {
                    assert(b.entries@[i] == a.entries@[i]);
                    assert(!a.has_entry(k, i));
                }
                b.lemma_no_entry(k);
            }
        }
        assert(b.model().slots =~= a.model().slots) by {
            assert forall|k: JobId| #[trigger] b.model().slots.contains_key(k) == a.model().slots.contains_key(k) by {
                assert(agrees(b.model(), a.model(), k));
            }
            assert forall|k: JobId| #[trigger] b.model().slots.contains_key(k) implies b.model().slots[k] == a.model().slots[k] by {
                assert(agrees(b.model(), a.model(), k));
            }
        }
        assert(b.model().stamps =~= a.model().stamps) by {
            assert forall|k: JobId| #[trigger] b.model().stamps.contains_key(k) == a.model().stamps.contains_key(k) by {
                assert(agrees(b.model(), a.model(), k));
            }
            assert forall|k: JobId| #[trigger] b.model().stamps.contains_key(k) implies b.model().stamps[k] == a.model().stamps[k] by {
                assert(agrees(b.model(), a.model(), k));
            }
        }
    }

    /// What a worker does when it wakes: take the newest queued job. It is to run (`true`) only if
    /// it was still pending, and it is then marked running; a job cancelled or forgotten since it
    /// was queued comes back with `false` and must not run. `None` when the queue is empty.
    pub fn pickup(&mut self) -> (r: Option<(QueuedJob<W>, bool)>)
        requires
            old(self).wf(),
        ensures
            final(self).wf(),
            final(self).model() == old(self).model().picked(),
            r is None <==> old(self).model().queue.len() == 0,
            r matches Some((q, run)) ==> q == old(self).model().queue.last() && run == (old(
                self,
            ).model().slots.contains_key(q.id) && old(self).model().slots[q.id] is Pending),
    {
        let ghost old_t = *self;
        let popped = self.queue.pop();
        let ghost mid = *self;
        proof {
            Self::lemma_same_entries(old_t, mid);
        }
        match popped {
            None => None,
            Some(q) => {
                let job = q.id;
                match self.find(job) {
                    None => Some((q, false)),
                    Some(i) => {
                        proof {
                            self.lemma_entry(i as int);
                        }
                        let pending = match &self.entries[i].slot {
                            Slot::Pending => true,
                            _ => false,
                        };
                        if !pending {
                            return Some((q, false));
                        }
                        let stamp = self.entries[i].stamp;
                        self.entries.set(i, JobEntry { id: job, slot: Slot::Running, stamp });
                        proof {
                            Self::lemma_replaced_entry(mid, *self, i as int, Slot::Running, stamp);
                            let om = mid.model();
                            match stamp {
                                Some(st) => {
                                    assert(om.stamps.insert(job, st) =~= om.stamps);
                                },
                                None => {
                                    assert(om.stamps.remove(job) =~= om.stamps);
                                },
                            }
                            assert(replaced(om, job, Slot::Running, stamp, self.model().queue)
                                == old_t.model().picked());
                            lemma_model_eq(self.model(), old_t.model().picked());
                        }
                        Some((q, true))
                    },
                }
            },
        }
    }

    /// Abandon `job`. A queued job never runs; a running one finishes and its result is dropped.
    pub fn cancel(&mut self, job: JobId)
        requires
            old(self).wf(),
        ensures
            final(self).wf(),
            final(self).model() == old(self).model().cancelled(job),
    {
        let ghost old_t = *self;
        unqueue(&mut self.queue, false, job);
        let ghost mid = *self;
        proof {
            Self::lemma_same_entries(old_t, mid);
            let p1 = |q: QueuedJob<W>| !queued_hit(q, false, job);
            let p2 = |q: QueuedJob<W>| q.id != job;
            assert(p1 =~= p2);
        }
        match self.find(job) {
            None => {
                proof {
                    let om = old_t.model();
                    assert(om.stamps.remove(job) =~= om.stamps);
                }
            },
            Some(i) => {
                self.entries.set(i, JobEntry { id: job, slot: Slot::Cancelled, stamp: None });
                proof {
                    Self::lemma_replaced_entry(mid, *self, i as int, Slot::Cancelled, None);
                    mid.lemma_entry(i as int);
                    assert(replaced(mid.model(), job, Slot::Cancelled, None, self.model().queue)
                        == old_t.model().cancelled(job));
                    lemma_model_eq(self.model(), old_t.model().cancelled(job));
                }
            },
        }
    }
}

impl<W, O> JobTable<W, O> {
    /// Forget every job recorded as about volume `id`, whatever state it is in, and unqueue every
    /// queued job about it.
    pub fn drop_volume(&mut self, id: u64)
        requires
            old(self).wf(),
        ensures
            final(self).wf(),
            final(self).model() == old(self).model().dropped(id),
    {
        let ghost orig = *self;
        proof {
            orig.lemma_model_inv();
            assert forall|k: JobId| #[trigger] kept(orig.model(), orig.model(), k, id) by {}
        }
        let mut i: usize = 0;
        while i < self.entries.len()
            invariant
                self.wf(),
                orig.wf(),
                orig.model().inv(),
                self.next_id == orig.next_id,
                self.queue@ == orig.queue@,
                i <= self.entries.len(),
                forall|a: int| 0 <= a < i ==> !entry_about(#[trigger] self.entries@[a], id),
                forall|k: JobId| #[trigger] kept(self.model(), orig.model(), k, id),
            decreases self.entries.len() - i,
        {
            let about = match self.entries[i].stamp {
                Some(st) => st.id == id,
                None => false,
            };
            if about {
                let ghost before = *self;
                let ghost job = self.entries@[i as int].id;
                let _gone = self.entries.remove(i);
                proof {
                    before.lemma_entry(i as int);
                    Self::lemma_removed_entry(before, *self, i as int);
                    assert(kept(before.model(), orig.model(), job, id));
                    assert forall|k: JobId| #[trigger] kept(self.model(), orig.model(), k, id) by {
                        assert(kept(before.model(), orig.model(), k, id));
                        assert(agrees(
                            self.model(),
                            JobModel {
                                slots: before.model().slots.remove(job),
                                stamps: before.model().stamps.remove(job),
                                queue: self.model().queue,
                                next_id: before.next_id,
                            },
                            k,
                        ));
                    }
                    assert forall|a: int| 0 <= a < i implies !entry_about(
                        #[trigger] self.entries@[a],
                        id,
                    ) by {
                        assert(self.entries@[a] == before.entries@[a]);
                    }
                }
            } else {
                i += 1;
            }
        }
        let ghost mid = *self;
        unqueue(&mut self.queue, true, id);
        proof {
            Self::lemma_same_entries(mid, *self);
            let target = orig.model().dropped(id);
            assert forall|k: JobId| #[trigger] agrees(self.model(), target, k) by {
                assert(kept(mid.model(), orig.model(), k, id));
                if mid.model().slots.contains_key(k) {
                    let a = choose|a: int| mid.has_entry(k, a);
                    mid.lemma_entry(a);
                    assert(!entry_about(mid.entries@[a], id));
                }
            }
            let p1 = |q: QueuedJob<W>| !queued_hit(q, true, id);
            let p2 = |q: QueuedJob<W>| q.stamp.id != id;
            assert(p1 =~= p2);
            lemma_model_eq(self.model(), target);
        }
    }

    /// `[threads, queued, running, ready]`, for diagnostics: the pool's size as given, how many
    /// jobs are queued, and how many are running and ready.
    pub fn stats(&self, threads: usize) -> (s: [i64; 4])
        requires
            self.wf(),
        ensures
            s[0] == threads as i64,
            s[1] == self.model().queue.len() as i64,
            s[2] == self.model().with_slot(false).len() as i64,
            s[3] == self.model().with_slot(true).len() as i64,
    {
        let ghost m = self.model();
        let mut running: usize = 0;
        let mut ready: usize = 0;
        let ghost mut run_set: Set<JobId> = Set::empty();
        let ghost mut ready_set: Set<JobId> = Set::empty();
        let mut i: usize = 0;
        while i < self.entries.len()
            invariant
                self.wf(),
                m == self.model(),
                i <= self.entries.len(),
                running <= i,
                ready <= i,
                run_set.finite(),
                ready_set.finite(),
                run_set.len() == running,
                ready_set.len() == ready,
                forall|k: JobId| #[trigger] run_set.contains(k) <==> exists|a: int|
                    0 <= a < i && self.entries@[a].id == k && self.entries@[a].slot is Running,
                forall|k: JobId| #[trigger] ready_set.contains(k) <==> exists|a: int|
                    0 <= a < i && self.entries@[a].id == k && self.entries@[a].slot is Ready,
            decreases self.entries.len() - i,
        {
            let ghost k = self.entries@[i as int].id;
            proof {
                assert forall|a: int| 0 <= a < i implies self.entries@[a].id != k by {
                    assert(self.entries@[a].id != self.entries@[i as int].id);
                }
            }
            match &self.entries[i].slot {
                Slot::Running => {
                    running += 1;
                    proof {
                        assert(!run_set.contains(k));
                        run_set = run_set.insert(k);
                    }
                },
                Slot::Ready(_) => {
                    ready += 1;
                    proof {
                        assert(!ready_set.contains(k));
                        ready_set = ready_set.insert(k);
                    }
                },
                _ => {},
            }
            i += 1;
        }
        proof {
            assert forall|k: JobId| #[trigger] run_set.contains(k) == m.with_slot(false).contains(k) by {
                if run_set.contains(k) {
                    let a = choose|a: int|
                        0 <= a < i && self.entries@[a].id == k && self.entries@[a].slot is Running;
                    self.lemma_entry(a);
                }
                if m.slots.contains_key(k) {
                    let a = choose|a: int| self.has_entry(k, a);
                    self.lemma_entry(a);
                    assert(0 <= a < i && self.entries@[a].id == k);
                }
            }
            assert forall|k: JobId| #[trigger] ready_set.contains(k) == m.with_slot(true).contains(k) by {
                if ready_set.contains(k) {
                    let a = choose|a: int|
                        0 <= a < i && self.entries@[a].id == k && self.entries@[a].slot is Ready;
                    self.lemma_entry(a);
                }
                if m.slots.contains_key(k) {
                    let a = choose|a: int| self.has_entry(k, a);
                    self.lemma_entry(a);
                    assert(0 <= a < i && self.entries@[a].id == k);
                }
            }
            assert(run_set =~= m.with_slot(false));
            assert(ready_set =~= m.with_slot(true));
        }
        [threads as i64, self.queue.len() as i64, running as i64, ready as i64]
    }
}

/// Whether `e` is recorded as being about volume `id`.
spec fn entry_about<O>(e: JobEntry<O>, id: u64) -> bool {
    e.stamp matches Some(st) && st.id == id
}

/// What `a` records about job `k` is what `b` records, less the job if it is about volume `id`;
/// every job of `b` that is not about `id` is still in `a`.
spec fn kept<W, O>(a: JobModel<W, O>, b: JobModel<W, O>, k: JobId, id: u64) -> bool {
    &&& a.slots.contains_key(k) ==> b.slots.contains_key(k) && a.slots[k] == b.slots[k]
    &&& a.stamps.contains_key(k) <==> (a.slots.contains_key(k) && b.stamps.contains_key(k))
    &&& a.stamps.contains_key(k) ==> a.stamps[k] == b.stamps[k]
    &&& (b.slots.contains_key(k) && !b.about(k, id)) ==> a.slots.contains_key(k)
}

/// Whether queued job `q` is the one `key` names: by the volume it is about when `by_volume`,
/// else by its id.
pub open spec fn queued_hit<W>(q: QueuedJob<W>, by_volume: bool, key: u64) -> bool {
    if by_volume {
        q.stamp.id == key
    } else {
        q.id == key
    }
}

/// One more element of `s` filtered: the filtered prefix grows by `s[j]` exactly when it passes.
proof fn lemma_filter_step<A>(s: Seq<A>, j: int, p: spec_fn(A) -> bool)
    requires
        0 <= j < s.len(),
    ensures
        s.subrange(0, j + 1).filter(p) == if p(s[j]) {
            s.subrange(0, j).filter(p).push(s[j])
        } else {
            s.subrange(0, j).filter(p)
        },
{
    reveal(Seq::filter);
    assert(s.subrange(0, j + 1).drop_last() =~= s.subrange(0, j));
}

/// Remove from `queue` every job that `key` names, keeping the others in their order.
fn unqueue<W>(queue: &mut Vec<QueuedJob<W>>, by_volume: bool, key: u64)
    ensures
        final(queue)@ == old(queue)@.filter(|q: QueuedJob<W>| !queued_hit(q, by_volume, key)),
{
    let ghost orig = queue@;
    let ghost p = |q: QueuedJob<W>| !queued_hit(q, by_volume, key);
    let mut i: usize = 0;
    let ghost mut j: int = 0;
    proof {
        reveal(Seq::filter);
        assert(orig.subrange(0, 0) =~= Seq::<QueuedJob<W>>::empty());
        assert(queue@.subrange(0, 0) =~= Seq::<QueuedJob<W>>::empty());
        assert(queue@.subrange(0, queue@.len() as int) =~= orig.subrange(0, orig.len() as int));
    }
    while i < queue.len()
        invariant
            i <= queue.len(),
            0 <= j <= orig.len(),
            p == (|q: QueuedJob<W>| !queued_hit(q, by_volume, key)),
            queue@.subrange(0, i as int) == orig.subrange(0, j).filter(p),
            queue@.subrange(i as int, queue@.len() as int) == orig.subrange(j, orig.len() as int),
        decreases queue.len() - i,
    {
        let ghost before = queue@;
        proof {
            let tail = before.subrange(i as int, before.len() as int);
            assert(tail.len() == orig.subrange(j, orig.len() as int).len());
            assert(before[i as int] == tail[0]);
            assert(orig[j] == orig.subrange(j, orig.len() as int)[0]);
            assert(before.subrange(i + 1, before.len() as int) =~= tail.subrange(1, tail.len() as int));
            assert(orig.subrange(j + 1, orig.len() as int) =~= orig.subrange(j, orig.len() as int).subrange(1, tail.len() as int));
            lemma_filter_step(orig, j, p);
        }
        let hit = if by_volume {
            queue[i].stamp.id == key
        } else {
            queue[i].id == key
        };
        if hit {
            let _gone = queue.remove(i);
            proof {
                assert(queue@.subrange(0, i as int) =~= before.subrange(0, i as int));
                assert(queue@.subrange(i as int, queue@.len() as int) =~= orig.subrange(
                    j + 1,
                    orig.len() as int,
                ));
            }
        } else {
            i += 1;
            proof {
                assert(queue@.subrange(0, i as int) =~= before.subrange(0, i - 1).push(
                    before[i - 1],
                ));
                assert(queue@.subrange(i as int, queue@.len() as int) =~= orig.subrange(
                    j + 1,
                    orig.len() as int,
                ));
            }
        }
        proof {
            j = j + 1;
        }
    }
    proof {
        assert(orig.subrange(j, orig.len() as int).len() == 0);
        assert(orig.subrange(0, j) =~= orig);
        assert(queue@.subrange(0, i as int) =~= queue@);
    }
}

/// `m` with job `job`'s slot and stamp replaced, and with `queue` as its queue.
pub open spec fn replaced<W, O>(
    m: JobModel<W, O>,
    job: JobId,
    slot: Slot<O>,
    stamp: Option<VolumeStamp>,
    queue: Seq<QueuedJob<W>>,
) -> JobModel<W, O> {
    JobModel {
        slots: m.slots.insert(job, slot),
        stamps: match stamp {
            Some(st) => m.stamps.insert(job, st),
            None => m.stamps.remove(job),
        },
        queue,
        next_id: m.next_id,
    }
}

/// The two models record the same thing about job `k`.
pub open spec fn agrees<W, O>(a: JobModel<W, O>, b: JobModel<W, O>, k: JobId) -> bool {
    &&& a.slots.contains_key(k) <==> b.slots.contains_key(k)
    &&& a.slots.contains_key(k) ==> a.slots[k] == b.slots[k]
    &&& a.stamps.contains_key(k) <==> b.stamps.contains_key(k)
    &&& a.stamps.contains_key(k) ==> a.stamps[k] == b.stamps[k]
}

/// Models that agree on every job, the queue and the next id are the same model.
proof fn lemma_model_eq<W, O>(a: JobModel<W, O>, b: JobModel<W, O>)
    requires
        forall|k: JobId| #[trigger] agrees(a, b, k),
        a.queue == b.queue,
        a.next_id == b.next_id,
    ensures
        a == b,
{
    assert forall|k: JobId| a.slots.contains_key(k) <==> #[trigger] b.slots.contains_key(k) by {
        assert(agrees(a, b, k));
    }
    assert forall|k: JobId| a.stamps.contains_key(k) <==> #[trigger] b.stamps.contains_key(k) by {
        assert(agrees(a, b, k));
    }
    assert forall|k: JobId| #[trigger] a.slots.contains_key(k) implies a.slots[k] == b.slots[k] by {
        assert(agrees(a, b, k));
    }
    assert forall|k: JobId| #[trigger] a.stamps.contains_key(k) implies a.stamps[k] == b.stamps[k] by {
        assert(agrees(a, b, k));
    }
    assert(a.slots =~= b.slots);
    assert(a.stamps =~= b.stamps);
}

} // verus!
