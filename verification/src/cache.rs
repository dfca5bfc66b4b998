//! The cache's scheduler: which chunks are wanted, which sources they wait
//! for, and what the workers do next.
//!
//! Chunks are what painting asks for; sources are what a volume's backfiller
//! fetches. A source may serve many chunks and is fetched once. A chunk that
//! is missed gets a plan, is parked with a count of open sources, and goes to
//! extraction when the count reaches zero. The host performs the disk, network
//! and decoding work and hands its results back.
use crate::backfiller;
use crate::backfiller::{
    copy_outcome, BackfillError, BackfillPlan, Reason, SourceOutcome, SourcePayload, SourceSpec,
};
use crate::chunk;
use crate::chunk::{ChunkKey, ChunkState};
use crate::disk::LoadOutcome;
use crate::lifo;
use crate::lifo::{LifoQueue, Popped, QueueEntry};
use crate::slots;
use crate::slots::{ChunkProgress, ProgressModel, SlotModel, SlotTable};
use std::collections::HashMap;
use vstd::prelude::*;
use vstd::std_specs::hash::*;

verus! {

/// How long a chunk rests after a failure that may pass, in milliseconds.
pub const COOLDOWN_MS: u64 = 10_000;

/// How long a chunk rests when there was only no room for its work.
pub const SHORT_COOLDOWN_MS: u64 = 150;

/// How long a chunk rests that cannot be had at all: a year.
pub const PERMANENT_COOLDOWN_MS: u64 = 31_536_000_000;

/// The state of a chunk that rests for `wait` from `now`.
pub open spec fn resting(now: u64, wait: u64) -> ChunkState {
    ChunkState::CooldownMiss { until: chunk::time_after(now, wait) }
}

fn rest(now: u64, wait: u64) -> (s: ChunkState)
    ensures
        s == resting(now, wait),
{
    ChunkState::CooldownMiss { until: now.saturating_add(wait) }
}

/// The state of a chunk that cannot be had at all.
pub fn long_cooldown(now: u64) -> (s: ChunkState)
    ensures
        s == resting(now, PERMANENT_COOLDOWN_MS),
{
    rest(now, PERMANENT_COOLDOWN_MS)
}

/// The state of a chunk after a failure that may pass.
pub fn cooldown(now: u64) -> (s: ChunkState)
    ensures
        s == resting(now, COOLDOWN_MS),
{
    rest(now, COOLDOWN_MS)
}

/// The state of a chunk for whose work there was no room.
pub fn short_cooldown(now: u64) -> (s: ChunkState)
    ensures
        s == resting(now, SHORT_COOLDOWN_MS),
{
    rest(now, SHORT_COOLDOWN_MS)
}

/// A piece of work for the cache's workers.
#[derive(Debug, Clone, Copy, PartialEq, Eq, Structural)]
pub enum Task {
    /// Run the computation behind a source.
    FetchSource(u64),
    /// Turn a chunk's gathered sources into its voxels.
    Extract,
}

/// A download that a worker is to perform for a source.
#[derive(Debug)]
pub struct Download {
    pub source: u64,
    pub url: String,
    pub range: Option<(u64, u64)>,
}

/// A source that some chunk asked for.
pub enum SourceState {
    /// Being fetched for these chunks.
    Pending { waiters: Vec<ChunkKey> },
    /// Fetched. The number counts the chunks that claimed the outcome and have
    /// not yet been extracted.
    Done { outcome: SourceOutcome, remaining_consumers: u64 },
}

/// `SourceState` as mathematics.
#[verifier::ext_equal]
pub enum SourceModel {
    Pending { waiters: Seq<ChunkKey> },
    Done { outcome: SourceOutcome, remaining_consumers: u64 },
}

impl SourceState {
    pub open spec fn model(&self) -> SourceModel {
        match self {
            SourceState::Pending { waiters } => SourceModel::Pending { waiters: waiters@ },
            SourceState::Done { outcome, remaining_consumers } => SourceModel::Done {
                outcome: *outcome,
                remaining_consumers: *remaining_consumers,
            },
        }
    }
}

/// The workers' queue. It is unbounded, and takes work until it is closed.
pub struct TaskQueue {
    pub queue: LifoQueue<Task>,
    pub closed: bool,
}

impl TaskQueue {
    /// An empty queue whose entries go stale after `max_age` milliseconds.
    pub fn new(max_age: u64) -> (q: TaskQueue)
        ensures
            q.queue.entries@ == Seq::<QueueEntry<Task>>::empty(),
            q.queue.max_age == max_age,
            q.queue.cull_enabled,
            !q.closed,
    {
        TaskQueue { queue: LifoQueue::new(max_age, true), closed: false }
    }

    /// Queues a task at the head, unless the queue is closed.
    pub fn try_submit(&mut self, chunk: ChunkKey, task: Task, now: u64) -> (r: Result<(), Task>)
        ensures
            r is Ok <==> !old(self).closed,
            r is Err ==> r->Err_0 == task && *final(self) == *old(self),
            r is Ok ==> final(self).queue.entries@ == old(self).queue.entries@.push(
                task_entry(chunk, task, now),
            ),
            final(self).closed == old(self).closed,
            final(self).queue.max_age == old(self).queue.max_age,
            final(self).queue.cull_enabled == old(self).queue.cull_enabled,
    {
        if self.closed {
            return Err(task);
        }
        self.queue.submit(chunk, task, now);
        Ok(())
    }

    /// Moves every task for `chunk` to the head and restarts its age.
    pub fn touch(&mut self, chunk: ChunkKey, now: u64)
        ensures
            final(self).queue.entries@ == lifo::touched(old(self).queue.entries@, chunk, now),
            final(self).closed == old(self).closed,
            final(self).queue.max_age == old(self).queue.max_age,
            final(self).queue.cull_enabled == old(self).queue.cull_enabled,
    {
        self.queue.touch(chunk, now);
    }

    /// Takes the newest task that is not stale, and the stale ones above it.
    pub fn pop(&mut self, now: u64) -> (r: Popped<Task>)
        ensures
            ({
                let (s, limit, cull) = (
                    old(self).queue.entries@,
                    old(self).queue.max_age,
                    old(self).queue.cull_enabled,
                );
                &&& r.entry == lifo::head(s, limit, cull, now)
                &&& r.dropped@ == lifo::culled(s, limit, cull, now)
                &&& final(self).queue.entries@ == s.take(
                    lifo::keep_len(s, limit, cull, now) as int,
                )
            }),
            final(self).closed == old(self).closed,
            final(self).queue.max_age == old(self).queue.max_age,
            final(self).queue.cull_enabled == old(self).queue.cull_enabled,
    {
        self.queue.pop(now)
    }
}

/// A freshly queued task.
pub open spec fn task_entry(chunk: ChunkKey, task: Task, now: u64) -> QueueEntry<Task> {
    QueueEntry {
        chunk,
        added_at: now,
        submitted_at: now,
        touch_count: 0,
        durable: false,
        item: task,
    }
}

/// The scheduler's state.
pub struct Scheduler {
    pub chunks: SlotTable,
    pub sources: HashMap<u64, SourceState>,
    pub tasks: TaskQueue,
    pub downloads: LifoQueue<Download>,
    /// Counts painted frames; a pending chunk's work is moved to the head at
    /// most once in each.
    pub frame: u64,
}

/// `Scheduler` as mathematics.
#[verifier::ext_equal]
pub struct CacheModel {
    pub chunks: Map<ChunkKey, SlotModel>,
    pub sources: Map<u64, SourceModel>,
    pub tasks: Seq<QueueEntry<Task>>,
    pub closed: bool,
    pub downloads: Seq<QueueEntry<Download>>,
    pub frame: u64,
}

impl CacheModel {
    /// The same state with another record for one chunk.
    pub open spec fn with_slot(self, key: ChunkKey, slot: SlotModel) -> CacheModel {
        CacheModel { chunks: self.chunks.insert(key, slot), ..self }
    }

    /// The same state with another state for one chunk.
    pub open spec fn with_state(self, key: ChunkKey, state: ChunkState) -> CacheModel {
        self.with_slot(key, SlotModel { state: Some(state), ..self.chunks[key] })
    }

    /// The same state with other gathered sources for one chunk.
    pub open spec fn with_progress(self, key: ChunkKey, progress: Option<ProgressModel>) -> CacheModel {
        self.with_slot(key, SlotModel { progress, ..self.chunks[key] })
    }

    /// The same state with other waiting sources for one chunk.
    pub open spec fn with_waiting(self, key: ChunkKey, waiting: Seq<u64>) -> CacheModel {
        self.with_slot(key, SlotModel { waiting, ..self.chunks[key] })
    }

    /// The same state with another state for one source.
    pub open spec fn with_source(self, source: u64, state: SourceModel) -> CacheModel {
        CacheModel { sources: self.sources.insert(source, state), ..self }
    }

    /// The same state without one source.
    pub open spec fn without_source(self, source: u64) -> CacheModel {
        CacheModel { sources: self.sources.remove(source), ..self }
    }

    /// The same state with one more task at the head.
    pub open spec fn with_task(self, chunk: ChunkKey, task: Task, now: u64) -> CacheModel {
        CacheModel { tasks: self.tasks.push(task_entry(chunk, task, now)), ..self }
    }
}

/// Whether an outcome for `source` has been recorded.
pub open spec fn has_result(results: Seq<(u64, SourceOutcome)>, source: u64) -> bool {
    exists|i: int| 0 <= i < results.len() && (#[trigger] results[i]).0 == source
}

/// Progress after one more outcome: recorded, and one source fewer is open.
pub open spec fn progressed(p: ProgressModel, source: u64, outcome: SourceOutcome) -> ProgressModel {
    ProgressModel {
        results: p.results.push((source, outcome)),
        remaining: if p.remaining == 0 {
            0
        } else {
            (p.remaining - 1) as nat
        },
        ..p
    }
}

/// A chunk hears of a source's outcome. An outcome that the chunk has already
/// heard, and a chunk that gathers nothing, change nothing. When the last open
/// source is in, the chunk goes to extraction; if the queue is closed its
/// progress is given up instead, and the second result is false.
pub open spec fn satisfied(
    m: CacheModel,
    key: ChunkKey,
    source: u64,
    outcome: SourceOutcome,
    now: u64,
) -> (CacheModel, bool) {
    match m.chunks[key].progress {
        None => (m, true),
        Some(p) => if has_result(p.results, source) {
            (m, true)
        } else {
            let q = progressed(p, source, outcome);
            if q.remaining > 0 {
                (m.with_progress(key, Some(q)), true)
            } else if m.closed {
                (m.with_progress(key, None), false)
            } else {
                (m.with_progress(key, Some(q)).with_task(key, Task::Extract, now), true)
            }
        },
    }
}

/// A waiter hears of a source's outcome; if there was no room for its
/// extraction it rests for a short while.
pub open spec fn notified(
    m: CacheModel,
    key: ChunkKey,
    source: u64,
    outcome: SourceOutcome,
    now: u64,
) -> CacheModel {
    let (n, ok) = satisfied(m, key, source, outcome, now);
    if ok {
        n
    } else {
        n.with_state(key, resting(now, SHORT_COOLDOWN_MS))
    }
}

/// Every waiter hears of a source's outcome, in order.
pub open spec fn all_notified(
    m: CacheModel,
    waiters: Seq<ChunkKey>,
    source: u64,
    outcome: SourceOutcome,
    now: u64,
) -> CacheModel
    decreases waiters.len(),
{
    if waiters.len() == 0 {
        m
    } else {
        notified(
            all_notified(m, waiters.drop_last(), source, outcome, now),
            waiters.last(),
            source,
            outcome,
            now,
        )
    }
}

/// A source is resolved. Only a pending source can be: one that is done, or
/// that was given up, stays as it is. A failed source is forgotten, so that a
/// later plan tries it again; otherwise every waiter becomes a consumer of the
/// outcome. Then the waiters hear of it.
pub open spec fn source_completed(
    m: CacheModel,
    source: u64,
    outcome: SourceOutcome,
    now: u64,
) -> CacheModel {
    if !m.sources.contains_key(source) {
        m
    } else {
        match m.sources[source] {
            SourceModel::Done { .. } => m,
            SourceModel::Pending { waiters } => {
                let n = if outcome is Err {
                    m.without_source(source)
                } else {
                    m.with_source(
                        source,
                        SourceModel::Done { outcome, remaining_consumers: waiters.len() as u64 },
                    )
                };
                all_notified(n, waiters, source, outcome, now)
            },
        }
    }
}

/// A list of sources is resolved with one outcome, in order.
pub open spec fn sources_completed(
    m: CacheModel,
    sources: Seq<u64>,
    outcome: SourceOutcome,
    now: u64,
) -> CacheModel
    decreases sources.len(),
{
    if sources.len() == 0 {
        m
    } else {
        source_completed(
            sources_completed(m, sources.drop_last(), outcome, now),
            sources.last(),
            outcome,
            now,
        )
    }
}

/// What a chunk's fate means to the sources that stand for it.
pub open spec fn fate(key: ChunkKey, state: ChunkState) -> SourceOutcome {
    if state is Resident {
        Ok(Some(SourcePayload::Chunk(key)))
    } else {
        Ok(None)
    }
}

/// A chunk's fate is made known: the sources that waited for it are resolved,
/// a resident chunk as their payload, an empty one as their absence. A state
/// that settles nothing is not passed on.
pub open spec fn published(m: CacheModel, key: ChunkKey, state: ChunkState, now: u64) -> CacheModel {
    if state.terminal() {
        sources_completed(
            m.with_waiting(key, Seq::empty()),
            m.chunks[key].waiting,
            fate(key, state),
            now,
        )
    } else {
        m
    }
}

impl Scheduler {
    /// The scheduler's state as mathematics.
    pub open spec fn model(&self) -> CacheModel {
        CacheModel {
            chunks: self.chunks@,
            sources: Map::new(
                |s: u64| self.sources@.contains_key(s),
                |s: u64| self.sources@[s].model(),
            ),
            tasks: self.tasks.queue.entries@,
            closed: self.tasks.closed,
            downloads: self.downloads.entries@,
            frame: self.frame,
        }
    }

    pub open spec fn wf(&self) -> bool {
        self.chunks.wf()
    }

    /// The queues' age limits and culling, which scheduling never changes.
    pub open spec fn same_limits(&self, other: &Scheduler) -> bool {
        &&& self.tasks.queue.max_age == other.tasks.queue.max_age
        &&& self.tasks.queue.cull_enabled == other.tasks.queue.cull_enabled
        &&& self.downloads.max_age == other.downloads.max_age
        &&& self.downloads.cull_enabled == other.downloads.cull_enabled
    }

    /// A scheduler that knows of nothing. Frames count from one, so that the
    /// first look at a pending chunk always moves its work to the head.
    pub fn new(max_age: u64) -> (s: Scheduler)
        ensures
            s.wf(),
            forall|k: ChunkKey| #[trigger] s.model().chunks[k] == SlotModel::vacant(),
            s.model().sources.dom().is_empty(),
            s.model().tasks.len() == 0,
            s.model().downloads.len() == 0,
            !s.model().closed,
            s.model().frame == 1,
            s.tasks.queue.max_age == max_age,
            s.tasks.queue.cull_enabled,
            s.downloads.max_age == max_age,
            s.downloads.cull_enabled,
    {
        broadcast use vstd::std_specs::hash::group_hash_axioms;

        Scheduler {
            chunks: SlotTable::new(),
            sources: HashMap::new(),
            tasks: TaskQueue::new(max_age),
            downloads: LifoQueue::new(max_age, true),
            frame: 1,
        }
    }

    /// Begins another frame.
    pub fn advance_frame(&mut self)
        ensures
            final(self).model() == (CacheModel {
                frame: old(self).frame.wrapping_add(1),
                ..old(self).model()
            }),
            final(self).same_limits(old(self)),
            final(self).chunks == old(self).chunks,
    {
        self.frame = self.frame.wrapping_add(1);
    }

    /// What is known about a chunk, without asking for it.
    pub fn peek(&self, key: ChunkKey) -> (s: Option<ChunkState>)
        requires
            self.wf(),
        ensures
            s == self.model().chunks[key].state,
    {
        self.chunks.state(key)
    }

    /// Whether the chunk's fate is known.
    pub fn is_chunk_done(&self, key: ChunkKey) -> (r: bool)
        requires
            self.wf(),
        ensures
            r == (match self.model().chunks[key].state {
                Some(s) => s.terminal(),
                None => false,
            }),
    {
        match self.chunks.state(key) {
            Some(s) => s.is_terminal(),
            None => false,
        }
    }

    /// Whether the source has been resolved and is still kept.
    pub fn is_source_done(&self, source: u64) -> (r: bool)
        ensures
            r == (self.model().sources.contains_key(source) && self.model().sources[source] is Done),
    {
        broadcast use vstd::std_specs::hash::group_hash_axioms;

        match self.sources.get(&source) {
            Some(SourceState::Done { .. }) => true,
            _ => false,
        }
    }

    fn satisfy(&mut self, key: ChunkKey, source: u64, outcome: SourceOutcome, now: u64) -> (ok: bool)
        requires
            old(self).wf(),
        ensures
            final(self).wf(),
            (final(self).model(), ok) == satisfied(old(self).model(), key, source, outcome, now),
            final(self).same_limits(old(self)),
            final(self).sources == old(self).sources,
    {
        let ghost before = self.model();
        proof {
            self.chunks.lemma_total();
        }
        let mut slot = self.chunks.take(key);
        let progress = slot.progress.take();
        match progress {
            None => {
                self.chunks.put(key, slot);
                assert(self.model().chunks =~= before.chunks);
                assert(self.model() =~= before);
                true
            },
            Some(mut p) => {
                let ghost pm = p.model();
                let mut known = false;
                let mut i: usize = 0;
                while i < p.results.len()
                    invariant
                        i <= p.results@.len(),
                        pm == p.model(),
                        known == (exists|j: int|
                            0 <= j < i && (#[trigger] p.results@[j]).0 == source),
                    decreases p.results.len() - i,
                {
                    if p.results[i].0 == source {
                        known = true;
                        assert(p.results@[i as int].0 == source);
                    }
                    i = i + 1;
                }
                if known {
                    slot.progress = Some(p);
                    self.chunks.put(key, slot);
                    assert(self.model().chunks =~= before.chunks);
                    assert(self.model() =~= before);
                    return true;
                }
                p.results.push((source, outcome));
                if p.remaining > 0 {
                    p.remaining = p.remaining - 1;
                }
                assert(p.model() =~= progressed(pm, source, outcome));
                if p.remaining > 0 {
                    slot.progress = Some(p);
                    self.chunks.put(key, slot);
                    assert(self.model() =~= before.with_progress(
                        key,
                        Some(progressed(pm, source, outcome)),
                    ));
                    return true;
                }
                match self.tasks.try_submit(key, Task::Extract, now) {
                    Ok(()) => {
                        slot.progress = Some(p);
                        self.chunks.put(key, slot);
                        assert(self.model() =~= before.with_progress(
                            key,
                            Some(progressed(pm, source, outcome)),
                        ).with_task(key, Task::Extract, now));
                        true
                    },
                    Err(_) => {
                        self.chunks.put(key, slot);
                        assert(self.model() =~= before.with_progress(key, None));
                        false
                    },
                }
            },
        }
    }

    /// Resolves a source and lets its waiters hear of it.
    pub fn complete_source(&mut self, source: u64, outcome: SourceOutcome, now: u64)
        requires
            old(self).wf(),
        ensures
            final(self).wf(),
            final(self).model() == source_completed(old(self).model(), source, outcome, now),
            final(self).same_limits(old(self)),
    {
        broadcast use vstd::std_specs::hash::group_hash_axioms;

        let ghost before = self.model();
        let found = self.sources.remove(&source);
        let waiters: Vec<ChunkKey> = match found {
            None => {
                assert(self.model() =~= before);
                return ;
            },
            Some(SourceState::Done { outcome: kept, remaining_consumers }) => {
                self.sources.insert(source, SourceState::Done { outcome: kept, remaining_consumers });
                assert(self.model().sources =~= before.sources);
                assert(self.model() =~= before);
                return ;
            },
            Some(SourceState::Pending { waiters }) => waiters,
        };
        assert(before.sources[source] == SourceModel::Pending { waiters: waiters@ });
        let failed = outcome.is_err();
        if !failed {
            let kept = copy_outcome(&outcome);
            self.sources.insert(
                source,
                SourceState::Done { outcome: kept, remaining_consumers: waiters.len() as u64 },
            );
        }
        let ghost start = self.model();
        proof {
            if failed {
                assert(start.sources =~= before.without_source(source).sources);
                assert(start =~= before.without_source(source));
            } else {
                let done = SourceModel::Done {
                    outcome,
                    remaining_consumers: waiters@.len() as u64,
                };
                assert(start.sources =~= before.with_source(source, done).sources);
                assert(start =~= before.with_source(source, done));
            }
        }
        let mut i: usize = 0;
        while i < waiters.len()
            invariant
                i <= waiters@.len(),
                self.wf(),
                self.same_limits(old(self)),
                self.model() == all_notified(
                    start,
                    waiters@.take(i as int),
                    source,
                    outcome,
                    now,
                ),
            decreases waiters.len() - i,
        {
            let w = waiters[i];
            let ghost here = self.model();
            let ok = self.satisfy(w, source, copy_outcome(&outcome), now);
            if !ok {
                let ghost mid = self.model();
                self.chunks.set_state(w, Some(short_cooldown(now)));
                assert(self.model() =~= mid.with_state(w, resting(now, SHORT_COOLDOWN_MS)));
            }
            assert(self.model() == notified(here, w, source, outcome, now));
            assert(waiters@.take(i + 1).drop_last() =~= waiters@.take(i as int));
            i = i + 1;
        }
        assert(waiters@.take(waiters@.len() as int) =~= waiters@);
    }

    fn publish_terminal(&mut self, key: ChunkKey, state: ChunkState, now: u64)
        requires
            old(self).wf(),
        ensures
            final(self).wf(),
            final(self).model() == published(old(self).model(), key, state, now),
            final(self).same_limits(old(self)),
    {
        if !state.is_terminal() {
            return ;
        }
        let ghost before = self.model();
        let outcome: SourceOutcome = match state {
            ChunkState::Resident { .. } => Ok(Some(SourcePayload::Chunk(key))),
            _ => Ok(None),
        };
        assert(outcome == fate(key, state));
        let mut slot = self.chunks.take(key);
        let mut waiting: Vec<u64> = Vec::new();
        std::mem::swap(&mut waiting, &mut slot.waiting);
        self.chunks.put(key, slot);
        let ghost start = self.model();
        assert(start =~= before.with_waiting(key, Seq::empty()));
        let mut i: usize = 0;
        while i < waiting.len()
            invariant
                i <= waiting@.len(),
                self.wf(),
                self.same_limits(old(self)),
                self.model() == sources_completed(start, waiting@.take(i as int), outcome, now),
            decreases waiting.len() - i,
        {
            self.complete_source(waiting[i], copy_outcome(&outcome), now);
            assert(waiting@.take(i + 1).drop_last() =~= waiting@.take(i as int));
            i = i + 1;
        }
        assert(waiting@.take(waiting@.len() as int) =~= waiting@);
    }
}


/// What a look at a chunk gives: its state, or `None` when the caller is to
/// dispatch it. A pending chunk's queued work moves to the head, at most once
/// a frame. A chunk whose rest is over counts as unknown. Of two dispatches of
/// one chunk the second is told that the first is under way.
pub open spec fn looked_up(m: CacheModel, key: ChunkKey, now: u64) -> (CacheModel, Option<ChunkState>) {
    let slot = m.chunks[key];
    let expired = match slot.state {
        None => true,
        Some(ChunkState::CooldownMiss { until }) => now >= until,
        _ => false,
    };
    if expired {
        if slot.dispatching {
            (
                m,
                Some(
                    match slot.state {
                        Some(s) => s,
                        None => ChunkState::fresh_pending(),
                    },
                ),
            )
        } else {
            (m.with_slot(key, SlotModel { dispatching: true, ..slot }), None)
        }
    } else {
        match slot.state {
            Some(ChunkState::Pending { last_touched_frame }) if last_touched_frame != m.frame => {
                let s = ChunkState::Pending { last_touched_frame: m.frame };
                let n = CacheModel {
                    tasks: lifo::touched(m.tasks, key, now),
                    downloads: lifo::touched(m.downloads, key, now),
                    ..m.with_state(key, s)
                };
                (n, Some(s))
            },
            other => (m, other),
        }
    }
}

/// A dispatch ends: the chunk gets its state, whoever waited for its fate
/// hears of it, and the chunk may be dispatched again.
pub open spec fn dispatch_ended(m: CacheModel, key: ChunkKey, state: ChunkState, now: u64) -> CacheModel {
    let n = published(m.with_state(key, state), key, state, now);
    n.with_slot(key, SlotModel { dispatching: false, ..n.chunks[key] })
}

/// A chunk that another chunk's fill will cover is claimed as pending if it is
/// free: nothing is known of it, or its rest is over.
pub open spec fn sibling_claimed(m: CacheModel, key: ChunkKey, sibling: ChunkKey, now: u64) -> CacheModel {
    let free = match m.chunks[sibling].state {
        None => true,
        Some(ChunkState::CooldownMiss { until }) => now >= until,
        _ => false,
    };
    if sibling != key && free {
        m.with_state(sibling, ChunkState::fresh_pending())
    } else {
        m
    }
}

/// Every covered chunk is claimed, in order.
pub open spec fn siblings_claimed(m: CacheModel, key: ChunkKey, covered: Seq<ChunkKey>, now: u64) -> CacheModel
    decreases covered.len(),
{
    if covered.len() == 0 {
        m
    } else {
        sibling_claimed(siblings_claimed(m, key, covered.drop_last(), now), key, covered.last(), now)
    }
}

/// What asking for a source came to.
pub enum Registered {
    /// This chunk is the first to ask; the fetch has been queued.
    Queued,
    /// The first to ask; the source is another chunk, to be looked up now.
    AwaitsChunk(ChunkKey),
    /// The source is being fetched for another chunk already.
    Attached,
    /// The source is there.
    AlreadyDone(SourceOutcome),
    /// There is no room for the fetch.
    QueueFull,
}

/// A freshly queued download.
pub open spec fn download_entry(chunk: ChunkKey, job: Download, now: u64) -> QueueEntry<Download> {
    QueueEntry {
        chunk,
        added_at: now,
        submitted_at: now,
        touch_count: 0,
        durable: false,
        item: job,
    }
}

/// One more consumer, counted up to the largest number there is.
pub open spec fn one_more(n: u64) -> u64 {
    if n == u64::MAX {
        n
    } else {
        (n + 1) as u64
    }
}

/// A chunk asks for a source. The first to ask starts the fetch; later ones
/// wait with it, or consume what it gave.
pub open spec fn registered(m: CacheModel, key: ChunkKey, spec_: SourceSpec, now: u64) -> (
    CacheModel,
    Registered,
) {
    let id = spec_.id();
    if m.sources.contains_key(id) {
        match m.sources[id] {
            SourceModel::Pending { waiters } => (
                m.with_source(id, SourceModel::Pending { waiters: waiters.push(key) }),
                Registered::Attached,
            ),
            SourceModel::Done { outcome, remaining_consumers } => (
                m.with_source(
                    id,
                    SourceModel::Done {
                        outcome,
                        remaining_consumers: one_more(remaining_consumers),
                    },
                ),
                Registered::AlreadyDone(outcome),
            ),
        }
    } else {
        let n = m.with_source(id, SourceModel::Pending { waiters: seq![key] });
        match spec_ {
            SourceSpec::Compute { source } => if m.closed {
                (
                    source_completed(
                        n,
                        source,
                        Err(BackfillError::Transient(Reason::CacheQueueFull)),
                        now,
                    ),
                    Registered::QueueFull,
                )
            } else {
                (n.with_task(key, Task::FetchSource(source), now), Registered::Queued)
            },
            SourceSpec::Chunk { source, child } => (
                n.with_waiting(child, n.chunks[child].waiting.push(source)),
                Registered::AwaitsChunk(child),
            ),
            SourceSpec::Download { source, url, range } => (
                CacheModel {
                    downloads: n.downloads.push(
                        download_entry(key, Download { source, url, range }, now),
                    ),
                    ..n
                },
                Registered::Queued,
            ),
        }
    }
}

/// How far the registration of a plan's sources has come.
#[verifier::ext_equal]
pub struct Registration {
    pub m: CacheModel,
    /// The sources that were there already, with their outcomes.
    pub immediates: Seq<(u64, SourceOutcome)>,
    /// The chunks that now have to be looked up, with the sources they are.
    pub children: Seq<(u64, ChunkKey)>,
    /// There was no room for a fetch; the rest was not registered.
    pub full: bool,
}

/// A chunk asks for its sources in order, and stops where there is no room.
pub open spec fn all_registered(m: CacheModel, key: ChunkKey, specs: Seq<SourceSpec>, now: u64) -> Registration
    decreases specs.len(),
{
    if specs.len() == 0 {
        Registration { m, immediates: Seq::empty(), children: Seq::empty(), full: false }
    } else {
        let r = all_registered(m, key, specs.drop_last(), now);
        registered_next(r, key, specs.last(), now)
    }
}

/// One step of `all_registered`.
pub open spec fn registered_next(r: Registration, key: ChunkKey, spec_: SourceSpec, now: u64) -> Registration {
    if r.full {
        r
    } else {
        let (n, got) = registered(r.m, key, spec_, now);
        match got {
            Registered::QueueFull => Registration { m: n, full: true, ..r },
            Registered::AlreadyDone(outcome) => Registration {
                m: n,
                immediates: r.immediates.push((spec_.id(), outcome)),
                ..r
            },
            Registered::AwaitsChunk(child) => Registration {
                m: n,
                children: r.children.push((spec_.id(), child)),
                ..r
            },
            _ => Registration { m: n, ..r },
        }
    }
}

/// A chunk hears of the sources that were there already, in order, and stops
/// where there is no room for its extraction.
pub open spec fn immediates_applied(
    m: CacheModel,
    key: ChunkKey,
    immediates: Seq<(u64, SourceOutcome)>,
    now: u64,
) -> (CacheModel, bool)
    decreases immediates.len(),
{
    if immediates.len() == 0 {
        (m, true)
    } else {
        let (n, ok) = immediates_applied(m, key, immediates.drop_last(), now);
        if ok {
            satisfied(n, key, immediates.last().0, immediates.last().1, now)
        } else {
            (n, false)
        }
    }
}

/// The numbers of a plan's sources, in order.
pub open spec fn source_ids(specs: Seq<SourceSpec>) -> Seq<u64> {
    Seq::new(specs.len(), |i: int| specs[i].id())
}

/// A plan is put to work. The covered chunks are claimed, the chunk is parked
/// with its open sources, and the sources are asked for. A plan without
/// sources goes straight to extraction. Where there is no room the chunk rests
/// for a short while.
pub open spec fn plan_started(
    m: CacheModel,
    key: ChunkKey,
    covered: Seq<ChunkKey>,
    specs: Seq<SourceSpec>,
    now: u64,
) -> (CacheModel, ChunkState, Seq<(u64, ChunkKey)>) {
    let parked = siblings_claimed(m, key, covered, now).with_progress(
        key,
        Some(
            ProgressModel {
                order: source_ids(specs),
                remaining: specs.len(),
                results: Seq::empty(),
                covered,
            },
        ),
    );
    if specs.len() == 0 {
        if m.closed {
            (parked.with_progress(key, None), resting(now, SHORT_COOLDOWN_MS), Seq::empty())
        } else {
            (
                parked.with_task(key, Task::Extract, now),
                ChunkState::fresh_pending(),
                Seq::empty(),
            )
        }
    } else {
        let r = all_registered(parked, key, specs, now);
        if r.full {
            (r.m.with_progress(key, None), resting(now, SHORT_COOLDOWN_MS), r.children)
        } else {
            let (n, ok) = immediates_applied(r.m, key, r.immediates, now);
            (
                n,
                if ok {
                    ChunkState::fresh_pending()
                } else {
                    resting(now, SHORT_COOLDOWN_MS)
                },
                r.children,
            )
        }
    }
}

/// The state of a chunk that a failure leaves behind.
pub open spec fn failure_state(e: BackfillError, now: u64) -> ChunkState {
    match e {
        BackfillError::OutOfBounds => resting(now, PERMANENT_COOLDOWN_MS),
        BackfillError::Permanent(_) => resting(now, PERMANENT_COOLDOWN_MS),
        BackfillError::Transient(_) => resting(now, COOLDOWN_MS),
    }
}

/// What a dispatch that got as far as a plan leaves to do: the chunk's state,
/// and the chunks to look up with the sources they are.
pub struct Planned {
    pub state: ChunkState,
    pub children: Vec<(u64, ChunkKey)>,
}

impl Scheduler {
    /// Looks a chunk up. `None` asks the caller to dispatch it, and to end the
    /// dispatch with `end_dispatch`.
    pub fn state_or_fetch(&mut self, key: ChunkKey, now: u64) -> (r: Option<ChunkState>)
        requires
            old(self).wf(),
        ensures
            final(self).wf(),
            (final(self).model(), r) == looked_up(old(self).model(), key, now),
            final(self).same_limits(old(self)),
    {
        let ghost before = self.model();
        proof {
            self.chunks.lemma_total();
        }
        let state = self.chunks.state(key);
        match state {
            Some(ChunkState::Pending { last_touched_frame }) => {
                if self.claim_touch(last_touched_frame) {
                    let s = ChunkState::Pending { last_touched_frame: self.frame };
                    self.chunks.set_state(key, Some(s));
                    self.tasks.touch(key, now);
                    self.downloads.touch(key, now);
                    assert(self.model() =~= looked_up(before, key, now).0);
                    return Some(s);
                }
                return state;
            },
            Some(ChunkState::CooldownMiss { until }) => {
                if now < until {
                    return state;
                }
            },
            Some(_) => {
                return state;
            },
            None => {},
        }
        let mut slot = self.chunks.take(key);
        if slot.dispatching {
            self.chunks.put(key, slot);
            assert(self.model().chunks =~= before.chunks);
            assert(self.model() =~= before);
            return match state {
                Some(s) => Some(s),
                None => Some(ChunkState::pending()),
            };
        }
        slot.dispatching = true;
        self.chunks.put(key, slot);
        assert(self.model() =~= before.with_slot(
            key,
            SlotModel { dispatching: true, ..before.chunks[key] },
        ));
        None
    }

    fn claim_touch(&self, last_touched_frame: u64) -> (r: bool)
        ensures
            r == (last_touched_frame != self.frame),
    {
        last_touched_frame != self.frame
    }

    /// Ends a dispatch with the state it came to.
    pub fn end_dispatch(&mut self, key: ChunkKey, state: ChunkState, now: u64)
        requires
            old(self).wf(),
        ensures
            final(self).wf(),
            final(self).model() == dispatch_ended(old(self).model(), key, state, now),
            final(self).same_limits(old(self)),
    {
        let ghost before = self.model();
        self.chunks.set_state(key, Some(state));
        assert(self.model() =~= before.with_state(key, state));
        self.publish_terminal(key, state, now);
        let ghost n = self.model();
        let mut slot = self.chunks.take(key);
        slot.dispatching = false;
        self.chunks.put(key, slot);
        assert(self.model() =~= n.with_slot(
            key,
            SlotModel { dispatching: false, ..n.chunks[key] },
        ));
    }

    fn register_source(&mut self, key: ChunkKey, spec_: SourceSpec, now: u64) -> (r: Registered)
        requires
            old(self).wf(),
        ensures
            final(self).wf(),
            (final(self).model(), r) == registered(old(self).model(), key, spec_, now),
            final(self).same_limits(old(self)),
    {
        broadcast use vstd::std_specs::hash::group_hash_axioms;

        let ghost before = self.model();
        let id = spec_.key();
        let found = self.sources.remove(&id);
        match found {
            Some(SourceState::Pending { waiters }) => {
                let mut waiters = waiters;
                let ghost was = waiters@;
                waiters.push(key);
                self.sources.insert(id, SourceState::Pending { waiters });
                let ghost now_pending = SourceModel::Pending { waiters: was.push(key) };
                assert(self.model().sources =~= before.with_source(id, now_pending).sources);
                assert(self.model() =~= before.with_source(id, now_pending));
                return Registered::Attached;
            },
            Some(SourceState::Done { outcome, remaining_consumers }) => {
                let given = copy_outcome(&outcome);
                let consumers = remaining_consumers.saturating_add(1);
                self.sources.insert(
                    id,
                    SourceState::Done { outcome, remaining_consumers: consumers },
                );
                let ghost kept = SourceModel::Done { outcome, remaining_consumers: consumers };
                assert(self.model().sources =~= before.with_source(id, kept).sources);
                assert(self.model() =~= before.with_source(id, kept));
                return Registered::AlreadyDone(given);
            },
            None => {},
        }
        let mut waiters: Vec<ChunkKey> = Vec::new();
        waiters.push(key);
        assert(waiters@ =~= seq![key]);
        self.sources.insert(id, SourceState::Pending { waiters });
        let ghost n = before.with_source(id, SourceModel::Pending { waiters: seq![key] });
        assert(self.model().sources =~= n.sources);
        assert(self.model() =~= n);
        match spec_ {
            SourceSpec::Compute { source } => {
                match self.tasks.try_submit(key, Task::FetchSource(source), now) {
                    Ok(()) => {
                        assert(self.model() =~= n.with_task(key, Task::FetchSource(source), now));
                        Registered::Queued
                    },
                    Err(_) => {
                        assert(self.model() =~= n);
                        self.complete_source(
                            source,
                            Err(BackfillError::Transient(Reason::CacheQueueFull)),
                            now,
                        );
                        Registered::QueueFull
                    },
                }
            },
            SourceSpec::Chunk { source, child } => {
                let mut slot = self.chunks.take(child);
                slot.waiting.push(source);
                self.chunks.put(child, slot);
                assert(self.model() =~= n.with_waiting(
                    child,
                    n.chunks[child].waiting.push(source),
                ));
                Registered::AwaitsChunk(child)
            },
            SourceSpec::Download { source, url, range } => {
                self.downloads.submit(key, Download { source, url, range }, now);
                assert(self.model() =~= CacheModel {
                    downloads: n.downloads.push(
                        download_entry(key, Download { source, url, range }, now),
                    ),
                    ..n
                });
                Registered::Queued
            },
        }
    }

    fn claim_siblings(&mut self, key: ChunkKey, covered: &Vec<ChunkKey>, now: u64)
        requires
            old(self).wf(),
        ensures
            final(self).wf(),
            final(self).model() == siblings_claimed(old(self).model(), key, covered@, now),
            final(self).same_limits(old(self)),
    {
        let ghost before = self.model();
        let mut i: usize = 0;
        while i < covered.len()
            invariant
                i <= covered@.len(),
                self.wf(),
                self.same_limits(old(self)),
                self.model() == siblings_claimed(before, key, covered@.take(i as int), now),
            decreases covered.len() - i,
        {
            let sibling = covered[i];
            let ghost here = self.model();
            let free = match self.chunks.state(sibling) {
                None => true,
                Some(ChunkState::CooldownMiss { until }) => now >= until,
                Some(_) => false,
            };
            if sibling != key && free {
                self.chunks.set_state(sibling, Some(ChunkState::pending()));
                assert(self.model() =~= here.with_state(sibling, ChunkState::fresh_pending()));
            }
            assert(self.model() == sibling_claimed(here, key, sibling, now));
            assert(covered@.take(i + 1).drop_last() =~= covered@.take(i as int));
            i = i + 1;
        }
        assert(covered@.take(covered@.len() as int) =~= covered@);
    }

    /// Puts a plan to work, or gives the chunk the rest that the planning
    /// error calls for.
    pub fn start_plan(
        &mut self,
        key: ChunkKey,
        plan: Result<BackfillPlan, BackfillError>,
        now: u64,
    ) -> (r: Planned)
        requires
            old(self).wf(),
        ensures
            final(self).wf(),
            final(self).same_limits(old(self)),
            match plan {
                Err(e) => {
                    &&& final(self).model() == old(self).model()
                    &&& r.state == failure_state(e, now)
                    &&& r.children@.len() == 0
                },
                Ok(p) => (final(self).model(), r.state, r.children@) == plan_started(
                    old(self).model(),
                    key,
                    p.covered@,
                    p.sources@,
                    now,
                ),
            },
    {
        let mut children: Vec<(u64, ChunkKey)> = Vec::new();
        let p = match plan {
            Err(e) => {
                let state = match e {
                    BackfillError::OutOfBounds => long_cooldown(now),
                    BackfillError::Permanent(_) => long_cooldown(now),
                    BackfillError::Transient(_) => cooldown(now),
                };
                return Planned { state, children };
            },
            Ok(p) => p,
        };
        let ghost before = self.model();
        let covered = p.covered;
        let specs = p.sources;
        let n_sources = specs.len();
        self.claim_siblings(key, &covered, now);
        let ghost claimed = self.model();
        let mut order: Vec<u64> = Vec::new();
        let mut i: usize = 0;
        while i < n_sources
            invariant
                i <= n_sources == specs@.len(),
                order@ == source_ids(specs@).take(i as int),
            decreases n_sources - i,
        {
            order.push(specs[i].key());
            i = i + 1;
            assert(order@ =~= source_ids(specs@).take(i as int));
        }
        assert(order@ =~= source_ids(specs@));
        let ghost parked = claimed.with_progress(
            key,
            Some(
                ProgressModel {
                    order: source_ids(specs@),
                    remaining: specs@.len(),
                    results: Seq::empty(),
                    covered: covered@,
                },
            ),
        );
        let mut slot = self.chunks.take(key);
        slot.progress = Some(
            ChunkProgress { order, remaining: n_sources, results: Vec::new(), covered },
        );
        self.chunks.put(key, slot);
        assert(self.model() =~= parked);
        proof {
            lemma_claims_keep_closed(before, key, covered@, now);
        }
        if n_sources == 0 {
            return match self.tasks.try_submit(key, Task::Extract, now) {
                Ok(()) => {
                    assert(self.model() =~= parked.with_task(key, Task::Extract, now));
                    assert(children@ =~= Seq::empty());
                    Planned { state: ChunkState::pending(), children }
                },
                Err(_) => {
                    self.drop_progress(key);
                    assert(children@ =~= Seq::empty());
                    Planned { state: short_cooldown(now), children }
                },
            };
        }
        let ghost all = specs@;
        let mut immediates: Vec<(u64, SourceOutcome)> = Vec::new();
        let mut full = false;
        assert(all.take(0) =~= Seq::empty());
        assert(all_registered(parked, key, all.take(0), now) =~= (Registration {
            m: parked,
            immediates: immediates@,
            children: children@,
            full,
        }));
        for spec_ in it: specs
            invariant
                it.seq() == all,
                self.wf(),
                self.same_limits(old(self)),
                all_registered(parked, key, all.take(it.index() as int), now) == (Registration {
                    m: self.model(),
                    immediates: immediates@,
                    children: children@,
                    full,
                }),
        {
            let ghost k = it.index() as int;
            let ghost r = all_registered(parked, key, all.take(k), now);
            assert(all.take(k + 1).drop_last() =~= all.take(k));
            assert(all.take(k + 1).last() == spec_);
            if !full {
                let id = spec_.key();
                match self.register_source(key, spec_, now) {
                    Registered::QueueFull => {
                        full = true;
                    },
                    Registered::AlreadyDone(outcome) => {
                        immediates.push((id, outcome));
                    },
                    Registered::AwaitsChunk(child) => {
                        children.push((id, child));
                    },
                    _ => {},
                }
            }
            assert(registered_next(r, key, spec_, now) =~= (Registration {
                m: self.model(),
                immediates: immediates@,
                children: children@,
                full,
            }));
        }
        assert(all.take(all.len() as int) =~= all);
        if full {
            self.drop_progress(key);
            return Planned { state: short_cooldown(now), children };
        }
        let ghost after = self.model();
        let ghost list = immediates@;
        let mut ok = true;
        assert(list.take(0) =~= Seq::empty());
        for entry in it: immediates
            invariant
                it.seq() == list,
                self.wf(),
                self.same_limits(old(self)),
                immediates_applied(after, key, list.take(it.index() as int), now) == (
                    self.model(),
                    ok,
                ),
        {
            let ghost k = it.index() as int;
            assert(list.take(k + 1).drop_last() =~= list.take(k));
            assert(list.take(k + 1).last() == entry);
            if ok {
                ok = self.satisfy(key, entry.0, entry.1, now);
            }
        }
        assert(list.take(list.len() as int) =~= list);
        if ok {
            Planned { state: ChunkState::pending(), children }
        } else {
            Planned { state: short_cooldown(now), children }
        }
    }

    fn drop_progress(&mut self, key: ChunkKey)
        requires
            old(self).wf(),
        ensures
            final(self).wf(),
            final(self).model() == old(self).model().with_progress(key, None),
            final(self).same_limits(old(self)),
    {
        let ghost before = self.model();
        let mut slot = self.chunks.take(key);
        slot.progress = None;
        self.chunks.put(key, slot);
        assert(self.model() =~= before.with_progress(key, None));
    }
}

proof fn lemma_claims_keep_closed(m: CacheModel, key: ChunkKey, covered: Seq<ChunkKey>, now: u64)
    ensures
        siblings_claimed(m, key, covered, now).closed == m.closed,
    decreases covered.len(),
{
    if covered.len() > 0 {
        lemma_claims_keep_closed(m, key, covered.drop_last(), now);
    }
}


/// One consumer of a source is finished. A resolved source that has none left
/// is given up; one still being fetched, or given up already, stays as it is.
pub open spec fn source_released(m: CacheModel, source: u64) -> CacheModel {
    if !m.sources.contains_key(source) {
        m
    } else {
        match m.sources[source] {
            SourceModel::Pending { .. } => m,
            SourceModel::Done { outcome, remaining_consumers } => if remaining_consumers <= 1 {
                m.without_source(source)
            } else {
                m.with_source(
                    source,
                    SourceModel::Done {
                        outcome,
                        remaining_consumers: (remaining_consumers - 1) as u64,
                    },
                )
            },
        }
    }
}

/// One consumer of each of a list of sources is finished, in order.
pub open spec fn sources_released(m: CacheModel, order: Seq<u64>) -> CacheModel
    decreases order.len(),
{
    if order.len() == 0 {
        m
    } else {
        source_released(sources_released(m, order.drop_last()), order.last())
    }
}

/// The outcome first recorded for `source`, or its absence.
pub open spec fn recorded(results: Seq<(u64, SourceOutcome)>, source: u64) -> SourceOutcome
    decreases results.len(),
{
    if results.len() == 0 {
        Ok(None)
    } else if results[0].0 == source {
        results[0].1
    } else {
        recorded(results.skip(1), source)
    }
}

/// The outcomes in the order in which the fill wants them. A source listed
/// twice gives its outcome once, and absence after that.
pub open spec fn gathered(order: Seq<u64>, results: Seq<(u64, SourceOutcome)>) -> Seq<SourceOutcome> {
    Seq::new(
        order.len(),
        |i: int|
            if exists|j: int| 0 <= j < i && (#[trigger] order[j]) == order[i] {
                Ok(None)
            } else {
                recorded(results, order[i])
            },
    )
}

/// What a fill came to: the states of the chunks that it filled, or an error.
pub type Filled = Result<Vec<(ChunkKey, ChunkState)>, BackfillError>;

/// The last state that `fills` gives for `key`.
pub open spec fn fill_of(fills: Seq<(ChunkKey, ChunkState)>, key: ChunkKey) -> Option<ChunkState>
    decreases fills.len(),
{
    if fills.len() == 0 {
        None
    } else if fills.last().0 == key {
        Some(fills.last().1)
    } else {
        fill_of(fills.drop_last(), key)
    }
}

/// Whether `fills` gives a state for `key`.
pub open spec fn filled(fills: Seq<(ChunkKey, ChunkState)>, key: ChunkKey) -> bool {
    exists|i: int| 0 <= i < fills.len() && (#[trigger] fills[i]).0 == key
}

/// A chunk gets its state and whoever waited for its fate hears of it.
pub open spec fn settled(m: CacheModel, key: ChunkKey, state: ChunkState, now: u64) -> CacheModel {
    published(m.with_state(key, state), key, state, now)
}

/// The fills of the chunks other than `key` are put in place, in order.
pub open spec fn siblings_settled(
    m: CacheModel,
    key: ChunkKey,
    fills: Seq<(ChunkKey, ChunkState)>,
    now: u64,
) -> CacheModel
    decreases fills.len(),
{
    if fills.len() == 0 {
        m
    } else {
        let n = siblings_settled(m, key, fills.drop_last(), now);
        if fills.last().0 == key {
            n
        } else {
            settled(n, fills.last().0, fills.last().1, now)
        }
    }
}

/// Every covered chunk that got no fill gives up its claim and rests.
pub open spec fn gaps_rested(
    m: CacheModel,
    key: ChunkKey,
    covered: Seq<ChunkKey>,
    fills: Seq<(ChunkKey, ChunkState)>,
    rest_state: ChunkState,
) -> CacheModel
    decreases covered.len(),
{
    if covered.len() == 0 {
        m
    } else {
        let n = gaps_rested(m, key, covered.drop_last(), fills, rest_state);
        let c = covered.last();
        if c == key || filled(fills, c) {
            n
        } else {
            n.with_state(c, rest_state)
        }
    }
}

/// The chunk's own state after a fill.
pub open spec fn primary_outcome(key: ChunkKey, result: Filled, now: u64) -> ChunkState {
    match result {
        Err(e) => failure_state(e, now),
        Ok(fills) => match fill_of(fills@, key) {
            Some(s) => s,
            None => resting(now, COOLDOWN_MS),
        },
    }
}

/// The state of a covered chunk that got no fill.
pub open spec fn gap_outcome(key: ChunkKey, result: Filled, now: u64) -> ChunkState {
    match result {
        Err(e) => failure_state(e, now),
        Ok(fills) => if fill_of(fills@, key) is Some {
            resting(now, SHORT_COOLDOWN_MS)
        } else {
            resting(now, COOLDOWN_MS)
        },
    }
}

/// What a fill gave, as a sequence; nothing if it failed.
pub open spec fn fills_of(result: Filled) -> Seq<(ChunkKey, ChunkState)> {
    match result {
        Err(_) => Seq::empty(),
        Ok(fills) => fills@,
    }
}

/// An extraction ends: its sources are released, the chunk and every filled
/// sibling get their states, and no covered chunk keeps a claim that nothing
/// will fulfil.
pub open spec fn extraction_ended(
    m: CacheModel,
    key: ChunkKey,
    order: Seq<u64>,
    covered: Seq<ChunkKey>,
    result: Filled,
    now: u64,
) -> CacheModel {
    let fills = fills_of(result);
    gaps_rested(
        siblings_settled(
            settled(sources_released(m, order), key, primary_outcome(key, result, now), now),
            key,
            fills,
            now,
        ),
        key,
        covered,
        fills,
        gap_outcome(key, result, now),
    )
}

/// A task was given up unrun, as if it had failed for now. A fetch resolves
/// its source with the reason; an extraction gives up its chunk's progress,
/// and the chunk rests for a short while.
pub open spec fn task_cancelled(m: CacheModel, e: QueueEntry<Task>, reason: Reason, now: u64) -> CacheModel {
    match e.item {
        Task::FetchSource(source) => source_completed(
            m,
            source,
            Err(BackfillError::Transient(reason)),
            now,
        ),
        Task::Extract => m.with_progress(e.chunk, None).with_state(
            e.chunk,
            resting(now, SHORT_COOLDOWN_MS),
        ),
    }
}

/// A list of tasks was given up, in order.
pub open spec fn tasks_cancelled(
    m: CacheModel,
    list: Seq<QueueEntry<Task>>,
    reason: Reason,
    now: u64,
) -> CacheModel
    decreases list.len(),
{
    if list.len() == 0 {
        m
    } else {
        task_cancelled(tasks_cancelled(m, list.drop_last(), reason, now), list.last(), reason, now)
    }
}

/// What a worker is to do next.
#[derive(Debug, Clone, Copy, PartialEq, Eq, Structural)]
pub enum WorkerStep {
    /// Run the computation behind this source and complete it.
    Fetch(u64),
    /// Extract this chunk.
    Extract(ChunkKey),
    /// The task had been overtaken; ask again.
    Skipped,
    /// Nothing to do for now.
    Idle,
    /// Nothing to do ever again.
    Closed,
}

/// A worker's turn. Stale tasks are cancelled on the way to the newest one
/// that is not. An extraction of a chunk whose fate is known and a fetch of a
/// source that is there are skipped.
pub open spec fn worker_turn(m: CacheModel, max_age: u64, cull: bool, now: u64) -> (
    CacheModel,
    WorkerStep,
) {
    let rest_ = CacheModel {
        tasks: m.tasks.take(lifo::keep_len(m.tasks, max_age, cull, now) as int),
        ..m
    };
    let dropped = lifo::culled(m.tasks, max_age, cull, now);
    match lifo::head(m.tasks, max_age, cull, now) {
        None => if m.closed {
            (tasks_cancelled(rest_, dropped, Reason::QueueClosed, now), WorkerStep::Closed)
        } else {
            (tasks_cancelled(rest_, dropped, Reason::StaleOnPop, now), WorkerStep::Idle)
        },
        Some(e) => {
            let n = tasks_cancelled(rest_, dropped, Reason::StaleOnPop, now);
            match e.item {
                Task::Extract => {
                    let done = match n.chunks[e.chunk].state {
                        Some(s) => s.terminal(),
                        None => false,
                    };
                    if done {
                        (n.with_progress(e.chunk, None), WorkerStep::Skipped)
                    } else {
                        (n, WorkerStep::Extract(e.chunk))
                    }
                },
                Task::FetchSource(source) => if n.sources.contains_key(source)
                    && n.sources[source] is Done {
                    (n, WorkerStep::Skipped)
                } else {
                    (n, WorkerStep::Fetch(source))
                },
            }
        },
    }
}

/// What an extraction works on.
pub struct ExtractWork {
    pub inputs: Vec<SourceOutcome>,
    pub order: Vec<u64>,
    pub covered: Vec<ChunkKey>,
}

/// Whether a chunk lies outside the volume: it begins at or beyond the extent
/// on some axis, or its level does not exist.
pub open spec fn out_of_bounds(key: ChunkKey, extent: [u32; 3], max_lod: u8) -> bool {
    let span = 64 * chunk::pow2(key.lod as nat);
    ||| key.x * span >= extent[0]
    ||| key.y * span >= extent[1]
    ||| key.z * span >= extent[2]
    ||| key.lod > max_lod
}

fn begins_beyond(c: u32, lod: u8, extent: u32) -> (r: bool)
    ensures
        r == (c * (64 * chunk::pow2(lod as nat)) >= extent),
{
    if lod >= 26 {
        proof {
            chunk::lemma_pow2_mono(26, lod as nat);
            chunk::lemma_pow2_add(24, 2);
            chunk::lemma_pow2_table();
            let span = 64 * chunk::pow2(lod as nat);
            assert(span >= 0x1_0000_0000);
            if c > 0 {
                assert(c * span >= span) by (nonlinear_arith)
                    requires
                        c >= 1,
                        span >= 0,
                ;
            } else {
                assert(c * span == 0) by (nonlinear_arith)
                    requires
                        c == 0,
                ;
            }
        }
        c > 0 || extent == 0
    } else {
        proof {
            chunk::lemma_pow2_bounds(lod as nat);
            chunk::lemma_pow2_mono(lod as nat, 25);
            chunk::lemma_pow2_add(24, 1);
            chunk::lemma_pow2_table();
            let span = 64 * chunk::pow2(lod as nat);
            assert(span <= 0x8000_0000);
            assert(c * span <= 0xffff_ffff * 0x8000_0000) by (nonlinear_arith)
                requires
                    0 <= c <= 0xffff_ffff,
                    0 <= span <= 0x8000_0000,
            ;
        }
        let span: u64 = 64 * chunk::pow2_u64(lod);
        c as u64 * span >= extent as u64
    }
}

/// Whether a chunk lies outside the volume.
pub fn is_out_of_bounds(key: ChunkKey, extent: [u32; 3], max_lod: u8) -> (r: bool)
    ensures
        r == out_of_bounds(key, extent, max_lod),
{
    begins_beyond(key.x, key.lod, extent[0]) || begins_beyond(key.y, key.lod, extent[1])
        || begins_beyond(key.z, key.lod, extent[2]) || key.lod > max_lod
}

/// How a dispatch begins: a chunk that the store holds, or holds as empty, is
/// settled by that; one outside the volume rests for good; any other is to be
/// marked and planned (`None`).
pub open spec fn dispatch_begun(
    key: ChunkKey,
    stored: LoadOutcome,
    extent: [u32; 3],
    max_lod: u8,
    now: u64,
) -> Option<ChunkState> {
    match stored {
        LoadOutcome::Resident { shard, offset } => Some(ChunkState::Resident { shard, offset }),
        LoadOutcome::Empty => Some(ChunkState::Empty),
        LoadOutcome::Missing => if out_of_bounds(key, extent, max_lod) {
            Some(resting(now, PERMANENT_COOLDOWN_MS))
        } else {
            None
        },
    }
}

/// How a dispatch begins (see `dispatch_begun`).
pub fn dispatch_chunk(
    key: ChunkKey,
    stored: LoadOutcome,
    extent: [u32; 3],
    max_lod: u8,
    now: u64,
) -> (r: Option<ChunkState>)
    ensures
        r == dispatch_begun(key, stored, extent, max_lod, now),
{
    match stored {
        LoadOutcome::Resident { shard, offset } => Some(ChunkState::Resident { shard, offset }),
        LoadOutcome::Empty => Some(ChunkState::Empty),
        LoadOutcome::Missing => if is_out_of_bounds(key, extent, max_lod) {
            Some(long_cooldown(now))
        } else {
            None
        },
    }
}

impl Scheduler {
    fn release_sources(&mut self, order: &Vec<u64>)
        requires
            old(self).wf(),
        ensures
            final(self).wf(),
            final(self).model() == sources_released(old(self).model(), order@),
            final(self).same_limits(old(self)),
    {
        broadcast use vstd::std_specs::hash::group_hash_axioms;

        let ghost before = self.model();
        let mut i: usize = 0;
        while i < order.len()
            invariant
                i <= order@.len(),
                self.wf(),
                self.same_limits(old(self)),
                self.model() == sources_released(before, order@.take(i as int)),
            decreases order.len() - i,
        {
            let source = order[i];
            let ghost here = self.model();
            match self.sources.remove(&source) {
                None => {
                    assert(self.model().sources =~= here.sources);
                },
                Some(SourceState::Pending { waiters }) => {
                    self.sources.insert(source, SourceState::Pending { waiters });
                    assert(self.model().sources =~= here.sources);
                },
                Some(SourceState::Done { outcome, remaining_consumers }) => {
                    if remaining_consumers > 1 {
                        self.sources.insert(
                            source,
                            SourceState::Done {
                                outcome,
                                remaining_consumers: remaining_consumers - 1,
                            },
                        );
                    }
                    assert(self.model().sources =~= source_released(here, source).sources);
                },
            }
            assert(self.model() =~= source_released(here, source));
            assert(order@.take(i + 1).drop_last() =~= order@.take(i as int));
            i = i + 1;
        }
        assert(order@.take(order@.len() as int) =~= order@);
    }

    /// Takes up a chunk's extraction: its progress is handed out, with the
    /// outcomes in the order in which the fill wants them. `None` if the chunk
    /// gathers nothing.
    pub fn begin_extract(&mut self, key: ChunkKey) -> (r: Option<ExtractWork>)
        requires
            old(self).wf(),
        ensures
            final(self).wf(),
            final(self).same_limits(old(self)),
            match old(self).model().chunks[key].progress {
                None => r is None && final(self).model() == old(self).model(),
                Some(p) => {
                    &&& final(self).model() == old(self).model().with_progress(key, None)
                    &&& r matches Some(w)
                    &&& w.inputs@ == gathered(p.order, p.results)
                    &&& w.order@ == p.order
                    &&& w.covered@ == p.covered
                },
            },
    {
        let ghost before = self.model();
        proof {
            self.chunks.lemma_total();
        }
        let mut slot = self.chunks.take(key);
        let progress = slot.progress.take();
        self.chunks.put(key, slot);
        let p = match progress {
            None => {
                assert(self.model().chunks =~= before.chunks);
                assert(self.model() =~= before);
                return None;
            },
            Some(p) => p,
        };
        assert(self.model() =~= before.with_progress(key, None));
        let order = p.order;
        let results = p.results;
        let mut inputs: Vec<SourceOutcome> = Vec::new();
        let mut i: usize = 0;
        while i < order.len()
            invariant
                i <= order@.len(),
                inputs@ == gathered(order@, results@).take(i as int),
            decreases order.len() - i,
        {
            let source = order[i];
            let repeated = listed_before(&order, i);
            if repeated {
                inputs.push(Ok(None));
            } else {
                inputs.push(recorded_outcome(&results, source));
            }
            assert(inputs@.last() == gathered(order@, results@)[i as int]);
            i = i + 1;
            assert(inputs@ =~= gathered(order@, results@).take(i as int));
        }
        assert(inputs@ =~= gathered(order@, results@));
        Some(ExtractWork { inputs, order, covered: p.covered })
    }

    /// Ends an extraction with what the fill gave.
    pub fn end_extract(
        &mut self,
        key: ChunkKey,
        order: Vec<u64>,
        covered: Vec<ChunkKey>,
        result: Filled,
        now: u64,
    )
        requires
            old(self).wf(),
        ensures
            final(self).wf(),
            final(self).model() == extraction_ended(
                old(self).model(),
                key,
                order@,
                covered@,
                result,
                now,
            ),
            final(self).same_limits(old(self)),
    {
        self.release_sources(&order);
        let mut primary: Option<ChunkState> = None;
        let mut failure: Option<ChunkState> = None;
        let fills: Vec<(ChunkKey, ChunkState)> = match result {
            Err(e) => {
                failure = Some(
                    match e {
                        BackfillError::OutOfBounds => long_cooldown(now),
                        BackfillError::Permanent(_) => long_cooldown(now),
                        BackfillError::Transient(_) => cooldown(now),
                    },
                );
                Vec::new()
            },
            Ok(fills) => {
                primary = last_fill(&fills, key);
                if primary.is_none() {
                    failure = Some(cooldown(now));
                }
                fills
            },
        };
        assert(fills@ =~= fills_of(result));
        let state = match primary {
            Some(s) => s,
            None => match failure {
                Some(f) => f,
                None => cooldown(now),
            },
        };
        assert(state == primary_outcome(key, result, now));
        self.settle(key, state, now);
        let ghost start = self.model();
        let mut i: usize = 0;
        while i < fills.len()
            invariant
                i <= fills@.len(),
                self.wf(),
                self.same_limits(old(self)),
                self.model() == siblings_settled(start, key, fills@.take(i as int), now),
            decreases fills.len() - i,
        {
            let (k, s) = fills[i];
            assert(fills@.take(i + 1).drop_last() =~= fills@.take(i as int));
            if k != key {
                self.settle(k, s, now);
            }
            i = i + 1;
        }
        assert(fills@.take(fills@.len() as int) =~= fills@);
        let ghost mid = self.model();
        let gap = match failure {
            Some(f) => f,
            None => short_cooldown(now),
        };
        assert(gap == gap_outcome(key, result, now));
        let mut j: usize = 0;
        while j < covered.len()
            invariant
                j <= covered@.len(),
                self.wf(),
                self.same_limits(old(self)),
                self.model() == gaps_rested(mid, key, covered@.take(j as int), fills@, gap),
            decreases covered.len() - j,
        {
            let c = covered[j];
            let ghost here = self.model();
            assert(covered@.take(j + 1).drop_last() =~= covered@.take(j as int));
            if c != key && !is_filled(&fills, c) {
                self.chunks.set_state(c, Some(gap));
                assert(self.model() =~= here.with_state(c, gap));
            }
            j = j + 1;
        }
        assert(covered@.take(covered@.len() as int) =~= covered@);
    }

    fn settle(&mut self, key: ChunkKey, state: ChunkState, now: u64)
        requires
            old(self).wf(),
        ensures
            final(self).wf(),
            final(self).model() == settled(old(self).model(), key, state, now),
            final(self).same_limits(old(self)),
    {
        let ghost before = self.model();
        self.chunks.set_state(key, Some(state));
        assert(self.model() =~= before.with_state(key, state));
        self.publish_terminal(key, state, now);
    }

    /// Reports the fate of a chunk that stands for a source, as the lookup that
    /// `start_plan` asked for gave it. A chunk that is resident, empty or not
    /// to be had resolves the source; one still under way does so later.
    pub fn child_looked_up(&mut self, source: u64, child: ChunkKey, state: ChunkState, now: u64)
        requires
            old(self).wf(),
        ensures
            final(self).wf(),
            final(self).same_limits(old(self)),
            final(self).model() == (match state {
                ChunkState::Resident { .. } => source_completed(
                    old(self).model(),
                    source,
                    Ok(Some(SourcePayload::Chunk(child))),
                    now,
                ),
                ChunkState::Empty => source_completed(old(self).model(), source, Ok(None), now),
                ChunkState::CooldownMiss { .. } => source_completed(
                    old(self).model(),
                    source,
                    Ok(None),
                    now,
                ),
                _ => old(self).model(),
            }),
    {
        match state {
            ChunkState::Resident { .. } => {
                self.complete_source(source, Ok(Some(SourcePayload::Chunk(child))), now);
            },
            ChunkState::Empty => {
                self.complete_source(source, Ok(None), now);
            },
            ChunkState::CooldownMiss { .. } => {
                self.complete_source(source, Ok(None), now);
            },
            _ => {},
        }
    }

    fn cancel_dropped_task(&mut self, e: &QueueEntry<Task>, reason: &Reason, now: u64)
        requires
            old(self).wf(),
        ensures
            final(self).wf(),
            final(self).model() == task_cancelled(old(self).model(), *e, *reason, now),
            final(self).same_limits(old(self)),
    {
        match e.item {
            Task::FetchSource(source) => {
                self.complete_source(
                    source,
                    Err(BackfillError::Transient(backfiller::copy_reason(reason))),
                    now,
                );
            },
            Task::Extract => {
                self.drop_progress(e.chunk);
                let ghost mid = self.model();
                self.chunks.set_state(e.chunk, Some(short_cooldown(now)));
                assert(self.model() =~= mid.with_state(e.chunk, resting(now, SHORT_COOLDOWN_MS)));
            },
        }
    }

    fn cancel_all(&mut self, list: &Vec<QueueEntry<Task>>, reason: Reason, now: u64)
        requires
            old(self).wf(),
        ensures
            final(self).wf(),
            final(self).model() == tasks_cancelled(old(self).model(), list@, reason, now),
            final(self).same_limits(old(self)),
    {
        let ghost before = self.model();
        let mut i: usize = 0;
        while i < list.len()
            invariant
                i <= list@.len(),
                self.wf(),
                self.same_limits(old(self)),
                self.model() == tasks_cancelled(before, list@.take(i as int), reason, now),
            decreases list.len() - i,
        {
            assert(list@.take(i + 1).drop_last() =~= list@.take(i as int));
            self.cancel_dropped_task(&list[i], &reason, now);
            i = i + 1;
        }
        assert(list@.take(list@.len() as int) =~= list@);
    }

    /// One turn of a worker.
    pub fn worker_step(&mut self, now: u64) -> (r: WorkerStep)
        requires
            old(self).wf(),
        ensures
            final(self).wf(),
            (final(self).model(), r) == worker_turn(
                old(self).model(),
                old(self).tasks.queue.max_age,
                old(self).tasks.queue.cull_enabled,
                now,
            ),
            final(self).same_limits(old(self)),
    {
        let ghost before = self.model();
        let Popped { entry, dropped } = self.tasks.pop(now);
        assert(self.model() =~= CacheModel {
            tasks: before.tasks.take(
                lifo::keep_len(
                    before.tasks,
                    old(self).tasks.queue.max_age,
                    old(self).tasks.queue.cull_enabled,
                    now,
                ) as int,
            ),
            ..before
        });
        match entry {
            None => {
                if self.tasks.closed {
                    self.cancel_all(&dropped, Reason::QueueClosed, now);
                    WorkerStep::Closed
                } else {
                    self.cancel_all(&dropped, Reason::StaleOnPop, now);
                    WorkerStep::Idle
                }
            },
            Some(e) => {
                self.cancel_all(&dropped, Reason::StaleOnPop, now);
                match e.item {
                    Task::Extract => {
                        if self.is_chunk_done(e.chunk) {
                            self.drop_progress(e.chunk);
                            WorkerStep::Skipped
                        } else {
                            WorkerStep::Extract(e.chunk)
                        }
                    },
                    Task::FetchSource(source) => {
                        if self.is_source_done(source) {
                            WorkerStep::Skipped
                        } else {
                            WorkerStep::Fetch(source)
                        }
                    },
                }
            },
        }
    }

    /// Takes no more work.
    pub fn close(&mut self)
        ensures
            final(self).model() == (CacheModel { closed: true, ..old(self).model() }),
            final(self).chunks == old(self).chunks,
            final(self).same_limits(old(self)),
    {
        self.tasks.closed = true;
    }

    /// Turns the queues' age limits on or off.
    pub fn set_culling(&mut self, on: bool)
        ensures
            final(self).model() == old(self).model(),
            final(self).chunks == old(self).chunks,
            final(self).tasks.queue.cull_enabled == on,
            final(self).downloads.cull_enabled == on,
            final(self).tasks.queue.max_age == old(self).tasks.queue.max_age,
            final(self).downloads.max_age == old(self).downloads.max_age,
    {
        self.tasks.queue.set_culling(on);
        self.downloads.set_culling(on);
    }

    /// Takes the next download, with the stale ones above it. A stale download
    /// is not performed: its source fails for now.
    pub fn next_download(&mut self, now: u64) -> (r: Option<QueueEntry<Download>>)
        requires
            old(self).wf(),
        ensures
            final(self).wf(),
            final(self).same_limits(old(self)),
            ({
                let (s, limit, cull) = (
                    old(self).model().downloads,
                    old(self).downloads.max_age,
                    old(self).downloads.cull_enabled,
                );
                let left = CacheModel {
                    downloads: s.take(lifo::keep_len(s, limit, cull, now) as int),
                    ..old(self).model()
                };
                &&& r == lifo::head(s, limit, cull, now)
                &&& final(self).model() == downloads_aged_out(
                    left,
                    lifo::culled(s, limit, cull, now),
                    now,
                )
            }),
    {
        let ghost before = self.model();
        let Popped { entry, dropped } = self.downloads.pop(now);
        let ghost left = self.model();
        assert(left =~= CacheModel {
            downloads: before.downloads.take(
                lifo::keep_len(
                    before.downloads,
                    old(self).downloads.max_age,
                    old(self).downloads.cull_enabled,
                    now,
                ) as int,
            ),
            ..before
        });
        let mut i: usize = 0;
        while i < dropped.len()
            invariant
                i <= dropped@.len(),
                self.wf(),
                self.same_limits(old(self)),
                self.model() == downloads_aged_out(left, dropped@.take(i as int), now),
            decreases dropped.len() - i,
        {
            assert(dropped@.take(i + 1).drop_last() =~= dropped@.take(i as int));
            self.complete_source(
                dropped[i].item.source,
                Err(BackfillError::Transient(Reason::AgedOut)),
                now,
            );
            i = i + 1;
        }
        assert(dropped@.take(dropped@.len() as int) =~= dropped@);
        entry
    }
}

/// The sources behind a list of stale downloads fail for now, in order.
pub open spec fn downloads_aged_out(
    m: CacheModel,
    list: Seq<QueueEntry<Download>>,
    now: u64,
) -> CacheModel
    decreases list.len(),
{
    if list.len() == 0 {
        m
    } else {
        source_completed(
            downloads_aged_out(m, list.drop_last(), now),
            list.last().item.source,
            Err(BackfillError::Transient(Reason::AgedOut)),
            now,
        )
    }
}

fn listed_before(order: &Vec<u64>, i: usize) -> (r: bool)
    requires
        i < order@.len(),
    ensures
        r == (exists|j: int| 0 <= j < i && (#[trigger] order@[j]) == order@[i as int]),
{
    let mut j: usize = 0;
    while j < i
        invariant
            j <= i < order@.len(),
            forall|k: int| 0 <= k < j ==> (#[trigger] order@[k]) != order@[i as int],
        decreases i - j,
    {
        if order[j] == order[i] {
            return true;
        }
        j = j + 1;
    }
    false
}

fn recorded_outcome(results: &Vec<(u64, SourceOutcome)>, source: u64) -> (r: SourceOutcome)
    ensures
        r == recorded(results@, source),
{
    let mut i: usize = 0;
    assert(results@.skip(0) =~= results@);
    while i < results.len()
        invariant
            i <= results@.len(),
            recorded(results@, source) == recorded(results@.skip(i as int), source),
        decreases results.len() - i,
    {
        assert(results@.skip(i as int)[0] == results@[i as int]);
        if results[i].0 == source {
            return copy_outcome(&results[i].1);
        }
        assert(results@.skip(i as int).skip(1) =~= results@.skip(i + 1));
        i = i + 1;
    }
    Ok(None)
}

fn last_fill(fills: &Vec<(ChunkKey, ChunkState)>, key: ChunkKey) -> (r: Option<ChunkState>)
    ensures
        r == fill_of(fills@, key),
{
    let mut i: usize = 0;
    let mut found: Option<ChunkState> = None;
    while i < fills.len()
        invariant
            i <= fills@.len(),
            found == fill_of(fills@.take(i as int), key),
        decreases fills.len() - i,
    {
        assert(fills@.take(i + 1).drop_last() =~= fills@.take(i as int));
        if fills[i].0 == key {
            found = Some(fills[i].1);
        }
        i = i + 1;
    }
    assert(fills@.take(fills@.len() as int) =~= fills@);
    found
}

fn is_filled(fills: &Vec<(ChunkKey, ChunkState)>, key: ChunkKey) -> (r: bool)
    ensures
        r == filled(fills@, key),
{
    let mut i: usize = 0;
    while i < fills.len()
        invariant
            i <= fills@.len(),
            forall|j: int| 0 <= j < i ==> (#[trigger] fills@[j]).0 != key,
        decreases fills.len() - i,
    {
        if fills[i].0 == key {
            return true;
        }
        i = i + 1;
    }
    false
}


proof fn lemma_notified_keeps(
    m: CacheModel,
    waiters: Seq<ChunkKey>,
    source: u64,
    outcome: SourceOutcome,
    now: u64,
)
    ensures
        all_notified(m, waiters, source, outcome, now).sources == m.sources,
        all_notified(m, waiters, source, outcome, now).closed == m.closed,
        all_notified(m, waiters, source, outcome, now).downloads == m.downloads,
        all_notified(m, waiters, source, outcome, now).frame == m.frame,
    decreases waiters.len(),
{
    if waiters.len() > 0 {
        lemma_notified_keeps(m, waiters.drop_last(), source, outcome, now);
    }
}

/// A source is resolved once: whatever is reported of it after that, as long
/// as nobody asks for it anew, changes nothing.
pub proof fn law_completion_is_final(
    m: CacheModel,
    source: u64,
    first: SourceOutcome,
    second: SourceOutcome,
    now: u64,
    later: u64,
)
    ensures
        source_completed(source_completed(m, source, first, now), source, second, later)
            == source_completed(m, source, first, now),
{
    if m.sources.contains_key(source) {
        if let SourceModel::Pending { waiters } = m.sources[source] {
            let n = if first is Err {
                m.without_source(source)
            } else {
                m.with_source(
                    source,
                    SourceModel::Done { outcome: first, remaining_consumers: waiters.len() as u64 },
                )
            };
            lemma_notified_keeps(n, waiters, source, first, now);
        }
    }
}

/// A source that failed is forgotten, so the next plan that wants it fetches
/// it anew.
pub proof fn law_failure_is_not_kept(m: CacheModel, source: u64, e: BackfillError, now: u64)
    requires
        m.sources.contains_key(source),
        m.sources[source] is Pending,
    ensures
        !source_completed(m, source, Err(e), now).sources.contains_key(source),
{
    if let SourceModel::Pending { waiters } = m.sources[source] {
        lemma_notified_keeps(m.without_source(source), waiters, source, Err(e), now);
    }
}

/// A source is fetched once: asking for one that is being fetched or is there
/// queues nothing.
pub proof fn law_one_fetch_per_source(m: CacheModel, key: ChunkKey, spec_: SourceSpec, now: u64)
    requires
        m.sources.contains_key(spec_.id()),
    ensures
        registered(m, key, spec_, now).0.tasks == m.tasks,
        registered(m, key, spec_, now).0.downloads == m.downloads,
        registered(m, key, spec_, now).0.chunks == m.chunks,
{
}

/// A chunk hears of a source once: hearing of it again changes nothing, so a
/// chunk goes to extraction at most once.
pub proof fn law_outcome_counts_once(
    m: CacheModel,
    key: ChunkKey,
    source: u64,
    first: SourceOutcome,
    second: SourceOutcome,
    now: u64,
)
    ensures
        satisfied(satisfied(m, key, source, first, now).0, key, source, second, now).0 == satisfied(
            m,
            key,
            source,
            first,
            now,
        ).0,
{
    if let Some(p) = m.chunks[key].progress {
        if !has_result(p.results, source) {
            let q = progressed(p, source, first);
            assert(q.results[p.results.len() as int].0 == source);
            assert(has_result(q.results, source));
        }
    }
}

/// The count of open sources is right: what is open and what is recorded make
/// up the plan, and nothing is recorded twice.
pub open spec fn counts_agree(p: ProgressModel) -> bool {
    &&& p.remaining + p.results.len() == p.order.len()
    &&& forall|i: int, j: int|
        0 <= i < j < p.results.len() ==> (#[trigger] p.results[i]).0 != (#[trigger] p.results[j]).0
}

/// Hearing of a source keeps the count right while sources are open, and the
/// chunk goes to extraction exactly when the last open one is in.
pub proof fn law_extracts_when_all_sources_are_in(
    m: CacheModel,
    key: ChunkKey,
    source: u64,
    outcome: SourceOutcome,
    now: u64,
)
    requires
        m.chunks[key].progress is Some,
        counts_agree(m.chunks[key].progress->0),
        m.chunks[key].progress->0.remaining > 0,
        !has_result(m.chunks[key].progress->0.results, source),
        !m.closed,
    ensures
        ({
            let n = satisfied(m, key, source, outcome, now).0;
            &&& n.chunks[key].progress is Some
            &&& counts_agree(n.chunks[key].progress->0)
            &&& n.tasks == (if m.chunks[key].progress->0.remaining == 1 {
                m.tasks.push(task_entry(key, Task::Extract, now))
            } else {
                m.tasks
            })
            &&& n.chunks[key].progress->0.remaining == 0 ==> n.chunks[key].progress->0.results.len()
                == n.chunks[key].progress->0.order.len()
        }),
{
    let p = m.chunks[key].progress->0;
    let q = progressed(p, source, outcome);
    assert forall|i: int, j: int| 0 <= i < j < q.results.len() implies (#[trigger] q.results[i]).0 != (
    #[trigger] q.results[j]).0 by {
        if j == p.results.len() {
            assert(q.results[i] == p.results[i]);
        }
    }
}

/// A plan that is put to work starts with every source open.
pub proof fn law_plan_starts_open(specs: Seq<SourceSpec>, covered: Seq<ChunkKey>)
    ensures
        counts_agree(
            ProgressModel {
                order: source_ids(specs),
                remaining: specs.len(),
                results: Seq::empty(),
                covered,
            },
        ),
{
}

/// One lookup of an unknown chunk dispatches it; the next is told that the
/// dispatch is under way.
pub proof fn law_one_dispatch_at_a_time(m: CacheModel, key: ChunkKey, now: u64, later: u64)
    requires
        looked_up(m, key, now).1 is None,
    ensures
        looked_up(looked_up(m, key, now).0, key, later).1 is Some,
{
}

/// A pending chunk's work moves to the head once a frame: another look within
/// the frame changes nothing.
pub proof fn law_touched_once_a_frame(m: CacheModel, key: ChunkKey, now: u64, later: u64)
    requires
        m.chunks[key].state matches Some(ChunkState::Pending { .. }),
    ensures
        looked_up(looked_up(m, key, now).0, key, later).0 == looked_up(m, key, now).0,
{
}

/// A chunk whose fate is known is served as it is, and asking for it starts
/// nothing.
pub proof fn law_known_fate_is_served(m: CacheModel, key: ChunkKey, now: u64)
    requires
        m.chunks[key].state is Some,
        m.chunks[key].state->0.terminal(),
    ensures
        looked_up(m, key, now) == (m, m.chunks[key].state),
{
}

/// When its last consumer is finished, a resolved source is given up.
pub proof fn law_last_consumer_frees_source(m: CacheModel, source: u64, n: nat)
    requires
        m.sources.contains_key(source),
        m.sources[source] is Done,
        m.sources[source]->remaining_consumers == n,
        n > 0,
    ensures
        !sources_released(m, Seq::new(n, |i: int| source)).sources.contains_key(source),
{
    lemma_releases(m, source, n, n);
}

proof fn lemma_releases(m: CacheModel, source: u64, n: nat, k: nat)
    requires
        m.sources.contains_key(source),
        m.sources[source] is Done,
        m.sources[source]->remaining_consumers == n,
        0 < n,
        k <= n,
    ensures
        ({
            let r = sources_released(m, Seq::new(k, |i: int| source));
            if k < n {
                &&& r.sources.contains_key(source)
                &&& r.sources[source] is Done
                &&& r.sources[source]->remaining_consumers == n - k
            } else {
                !r.sources.contains_key(source)
            }
        }),
    decreases k,
{
    let s = Seq::new(k, |i: int| source);
    if k > 0 {
        lemma_releases(m, source, n, (k - 1) as nat);
        assert(s.drop_last() =~= Seq::new((k - 1) as nat, |i: int| source));
        assert(s.last() == source);
    }
}

/// The chunk's state is there and is no claim.
pub open spec fn unclaimed(m: CacheModel, key: ChunkKey) -> bool {
    m.chunks[key].state matches Some(s) && !(s is Pending)
}

proof fn lemma_all_notified_unclaimed(
    m: CacheModel,
    waiters: Seq<ChunkKey>,
    source: u64,
    outcome: SourceOutcome,
    now: u64,
    c: ChunkKey,
)
    requires
        unclaimed(m, c),
    ensures
        unclaimed(all_notified(m, waiters, source, outcome, now), c),
    decreases waiters.len(),
{
    if waiters.len() > 0 {
        lemma_all_notified_unclaimed(m, waiters.drop_last(), source, outcome, now, c);
    }
}

proof fn lemma_completed_unclaimed(
    m: CacheModel,
    sources: Seq<u64>,
    outcome: SourceOutcome,
    now: u64,
    c: ChunkKey,
)
    requires
        unclaimed(m, c),
    ensures
        unclaimed(sources_completed(m, sources, outcome, now), c),
    decreases sources.len(),
{
    if sources.len() > 0 {
        lemma_completed_unclaimed(m, sources.drop_last(), outcome, now, c);
        let n = sources_completed(m, sources.drop_last(), outcome, now);
        let s = sources.last();
        if n.sources.contains_key(s) {
            if let SourceModel::Pending { waiters } = n.sources[s] {
                let start = if outcome is Err {
                    n.without_source(s)
                } else {
                    n.with_source(
                        s,
                        SourceModel::Done { outcome, remaining_consumers: waiters.len() as u64 },
                    )
                };
                lemma_all_notified_unclaimed(start, waiters, s, outcome, now, c);
            }
        }
    }
}

proof fn lemma_settled_unclaimed(m: CacheModel, k: ChunkKey, s: ChunkState, now: u64, c: ChunkKey)
    requires
        !(s is Pending),
        unclaimed(m, c) || c == k,
    ensures
        unclaimed(settled(m, k, s, now), c),
{
    let n = m.with_state(k, s);
    assert(unclaimed(n, c));
    if s.terminal() {
        let w = n.with_waiting(k, Seq::empty());
        assert(unclaimed(w, c));
        lemma_completed_unclaimed(w, n.chunks[k].waiting, fate(k, s), now, c);
    }
}

proof fn lemma_siblings_settled_unclaimed(
    m: CacheModel,
    key: ChunkKey,
    fills: Seq<(ChunkKey, ChunkState)>,
    now: u64,
    c: ChunkKey,
)
    requires
        forall|i: int| 0 <= i < fills.len() ==> !((#[trigger] fills[i]).1 is Pending),
        unclaimed(m, c) || (c != key && filled(fills, c)),
    ensures
        unclaimed(siblings_settled(m, key, fills, now), c),
    decreases fills.len(),
{
    if fills.len() > 0 {
        let init = fills.drop_last();
        let n = siblings_settled(m, key, init, now);
        assert forall|i: int| 0 <= i < init.len() implies !((#[trigger] init[i]).1 is Pending) by {
            assert(init[i] == fills[i]);
        }
        assert(!(fills[fills.len() - 1].1 is Pending));
        if unclaimed(m, c) || (c != key && filled(init, c)) {
            lemma_siblings_settled_unclaimed(m, key, init, now, c);
        } else {
            let i = choose|i: int| 0 <= i < fills.len() && (#[trigger] fills[i]).0 == c;
            if i < fills.len() - 1 {
                assert(init[i].0 == c);
            }
            assert(fills.last().0 == c);
        }
        if fills.last().0 != key {
            lemma_settled_unclaimed(n, fills.last().0, fills.last().1, now, c);
        }
    }
}

proof fn lemma_gaps_rested_unclaimed(
    m: CacheModel,
    key: ChunkKey,
    covered: Seq<ChunkKey>,
    fills: Seq<(ChunkKey, ChunkState)>,
    rest_state: ChunkState,
    c: ChunkKey,
)
    requires
        !(rest_state is Pending),
        unclaimed(m, c) || (covered.contains(c) && c != key && !filled(fills, c)),
    ensures
        unclaimed(gaps_rested(m, key, covered, fills, rest_state), c),
    decreases covered.len(),
{
    if covered.len() > 0 {
        let init = covered.drop_last();
        if unclaimed(m, c) || init.contains(c) {
            lemma_gaps_rested_unclaimed(m, key, init, fills, rest_state, c);
        } else {
            let i = choose|i: int| 0 <= i < covered.len() && covered[i] == c;
            if i < covered.len() - 1 {
                assert(init[i] == c);
            }
            assert(covered.last() == c);
        }
    }
}

proof fn lemma_fill_of_in(fills: Seq<(ChunkKey, ChunkState)>, key: ChunkKey)
    ensures
        fill_of(fills, key) is Some ==> exists|i: int|
            0 <= i < fills.len() && (#[trigger] fills[i]).1 == fill_of(fills, key)->0,
    decreases fills.len(),
{
    if fills.len() > 0 {
        lemma_fill_of_in(fills.drop_last(), key);
        if fills.last().0 == key {
            assert(fills[fills.len() - 1].1 == fill_of(fills, key)->0);
        } else if fill_of(fills, key) is Some {
            let i = choose|i: int|
                0 <= i < fills.drop_last().len() && (#[trigger] fills.drop_last()[i]).1 == fill_of(
                    fills,
                    key,
                )->0;
            assert(fills[i].1 == fill_of(fills, key)->0);
        }
    }
}

/// An extraction leaves no claim behind: the chunk and every chunk that its
/// fill covers end in a state that is not pending, whether the fill worked or
/// failed, so each can be asked for again or is served.
pub proof fn law_extraction_leaves_no_claims(
    m: CacheModel,
    key: ChunkKey,
    order: Seq<u64>,
    covered: Seq<ChunkKey>,
    result: Filled,
    now: u64,
    c: ChunkKey,
)
    requires
        forall|i: int|
            0 <= i < fills_of(result).len() ==> !((#[trigger] fills_of(result)[i]).1 is Pending),
        c == key || covered.contains(c),
    ensures
        unclaimed(extraction_ended(m, key, order, covered, result, now), c),
{
    let fills = fills_of(result);
    let st = primary_outcome(key, result, now);
    lemma_fill_of_in(fills, key);
    assert(!(st is Pending));
    let a = settled(sources_released(m, order), key, st, now);
    let b = siblings_settled(a, key, fills, now);
    if c == key {
        lemma_settled_unclaimed(sources_released(m, order), key, st, now, c);
        lemma_siblings_settled_unclaimed(a, key, fills, now, c);
    } else if filled(fills, c) {
        lemma_siblings_settled_unclaimed(a, key, fills, now, c);
    }
    lemma_gaps_rested_unclaimed(b, key, covered, fills, gap_outcome(key, result, now), c);
}

/// A fill gets the outcomes in the order in which its plan names the sources,
/// whatever the order in which they came: each source's own, the first that was
/// recorded.
pub proof fn law_outcomes_come_in_plan_order(
    order: Seq<u64>,
    results: Seq<(u64, SourceOutcome)>,
    i: int,
    j: int,
)
    requires
        0 <= i < order.len(),
        forall|k: int| 0 <= k < i ==> #[trigger] order[k] != order[i],
        0 <= j < results.len(),
        results[j].0 == order[i],
        forall|k: int| 0 <= k < j ==> (#[trigger] results[k]).0 != order[i],
    ensures
        gathered(order, results).len() == order.len(),
        gathered(order, results)[i] == results[j].1,
{
    lemma_recorded(results, order[i], j);
}

proof fn lemma_recorded(results: Seq<(u64, SourceOutcome)>, source: u64, j: int)
    requires
        0 <= j < results.len(),
        results[j].0 == source,
        forall|k: int| 0 <= k < j ==> (#[trigger] results[k]).0 != source,
    ensures
        recorded(results, source) == results[j].1,
    decreases j,
{
    if j > 0 {
        assert(results[0].0 != source);
        let rest = results.skip(1);
        assert(rest[j - 1] == results[j]);
        assert forall|k: int| 0 <= k < j - 1 implies (#[trigger] rest[k]).0 != source by {
            assert(rest[k] == results[k + 1]);
        }
        lemma_recorded(rest, source, j - 1);
    }
}

/// A source of which nothing was heard counts as absent.
pub proof fn law_unheard_source_is_absent(order: Seq<u64>, results: Seq<(u64, SourceOutcome)>, i: int)
    requires
        0 <= i < order.len(),
        forall|k: int| 0 <= k < results.len() ==> (#[trigger] results[k]).0 != order[i],
    ensures
        gathered(order, results)[i] matches Ok(None),
{
    lemma_unrecorded(results, order[i]);
}

proof fn lemma_unrecorded(results: Seq<(u64, SourceOutcome)>, source: u64)
    requires
        forall|k: int| 0 <= k < results.len() ==> (#[trigger] results[k]).0 != source,
    ensures
        recorded(results, source) matches Ok(None),
    decreases results.len(),
{
    if results.len() > 0 {
        assert(results[0].0 != source);
        let rest = results.skip(1);
        assert forall|k: int| 0 <= k < rest.len() implies (#[trigger] rest[k]).0 != source by {
            assert(rest[k] == results[k + 1]);
        }
        lemma_unrecorded(rest, source);
    }
}

/// A chunk that rests is served as resting until its rest is over, and is then
/// dispatched again.
pub proof fn law_rest_lasts_until_its_end(m: CacheModel, key: ChunkKey, until: u64, now: u64)
    requires
        m.chunks[key].state == Some(ChunkState::CooldownMiss { until }),
        !m.chunks[key].dispatching,
    ensures
        now < until ==> looked_up(m, key, now) == (m, m.chunks[key].state),
        now >= until ==> looked_up(m, key, now).1 is None,
{
}

/// A chunk of which nothing is known is dispatched when it is first looked at.
pub proof fn law_unknown_chunk_is_dispatched(m: CacheModel, key: ChunkKey, now: u64)
    requires
        m.chunks[key].state is None,
        !m.chunks[key].dispatching,
    ensures
        looked_up(m, key, now).1 is None,
        looked_up(m, key, now).0.chunks[key].dispatching,
{
}

proof fn lemma_notified_states(
    m: CacheModel,
    waiters: Seq<ChunkKey>,
    source: u64,
    outcome: SourceOutcome,
    now: u64,
    c: ChunkKey,
)
    requires
        !m.closed,
    ensures
        all_notified(m, waiters, source, outcome, now).chunks[c].state == m.chunks[c].state,
        all_notified(m, waiters, source, outcome, now).chunks[c].waiting == m.chunks[c].waiting,
        !all_notified(m, waiters, source, outcome, now).closed,
    decreases waiters.len(),
{
    if waiters.len() > 0 {
        lemma_notified_states(m, waiters.drop_last(), source, outcome, now, c);
    }
}

proof fn lemma_completed_states(
    m: CacheModel,
    sources: Seq<u64>,
    outcome: SourceOutcome,
    now: u64,
    c: ChunkKey,
)
    requires
        !m.closed,
    ensures
        sources_completed(m, sources, outcome, now).chunks[c].state == m.chunks[c].state,
        !sources_completed(m, sources, outcome, now).closed,
    decreases sources.len(),
{
    if sources.len() > 0 {
        lemma_completed_states(m, sources.drop_last(), outcome, now, c);
        let n = sources_completed(m, sources.drop_last(), outcome, now);
        let s = sources.last();
        if n.sources.contains_key(s) {
            if let SourceModel::Pending { waiters } = n.sources[s] {
                let start = if outcome is Err {
                    n.without_source(s)
                } else {
                    n.with_source(
                        s,
                        SourceModel::Done { outcome, remaining_consumers: waiters.len() as u64 },
                    )
                };
                lemma_notified_states(start, waiters, s, outcome, now, c);
            }
        }
    }
}

proof fn lemma_settled_states(m: CacheModel, k: ChunkKey, s: ChunkState, now: u64, c: ChunkKey)
    requires
        !m.closed,
    ensures
        settled(m, k, s, now).chunks[c].state == (if c == k {
            Some(s)
        } else {
            m.chunks[c].state
        }),
        !settled(m, k, s, now).closed,
{
    let n = m.with_state(k, s);
    if s.terminal() {
        lemma_completed_states(n.with_waiting(k, Seq::empty()), n.chunks[k].waiting, fate(k, s), now, c);
    }
}

proof fn lemma_siblings_states(
    m: CacheModel,
    key: ChunkKey,
    fills: Seq<(ChunkKey, ChunkState)>,
    now: u64,
    c: ChunkKey,
)
    requires
        !m.closed,
    ensures
        siblings_settled(m, key, fills, now).chunks[c].state == (if c != key && fill_of(fills, c) is Some {
            fill_of(fills, c)
        } else {
            m.chunks[c].state
        }),
        !siblings_settled(m, key, fills, now).closed,
    decreases fills.len(),
{
    if fills.len() > 0 {
        lemma_siblings_states(m, key, fills.drop_last(), now, c);
        if fills.last().0 != key {
            lemma_settled_states(
                siblings_settled(m, key, fills.drop_last(), now),
                fills.last().0,
                fills.last().1,
                now,
                c,
            );
        }
    }
}

proof fn lemma_released_states(m: CacheModel, order: Seq<u64>)
    ensures
        sources_released(m, order).chunks == m.chunks,
        sources_released(m, order).closed == m.closed,
    decreases order.len(),
{
    if order.len() > 0 {
        lemma_released_states(m, order.drop_last());
    }
}

proof fn lemma_gaps_states(
    m: CacheModel,
    key: ChunkKey,
    covered: Seq<ChunkKey>,
    fills: Seq<(ChunkKey, ChunkState)>,
    rest_state: ChunkState,
    c: ChunkKey,
)
    ensures
        gaps_rested(m, key, covered, fills, rest_state).chunks[c].state == (if c != key
            && covered.contains(c) && !filled(fills, c) {
            Some(rest_state)
        } else {
            m.chunks[c].state
        }),
    decreases covered.len(),
{
    if covered.len() > 0 {
        let init = covered.drop_last();
        lemma_gaps_states(m, key, init, fills, rest_state, c);
        if init.contains(c) {
            let i = init.index_of(c);
            assert(covered[i] == c);
        } else if covered.contains(c) {
            let i = covered.index_of(c);
            if i < covered.len() - 1 {
                assert(init[i] == c);
            }
            assert(covered.last() == c);
        }
        if covered.last() == c {
            assert(covered[covered.len() - 1] == c);
        }
    }
}

proof fn lemma_only_fill(fills: Seq<(ChunkKey, ChunkState)>, i: int)
    requires
        0 <= i < fills.len(),
        forall|j: int| i < j < fills.len() ==> (#[trigger] fills[j]).0 != fills[i].0,
    ensures
        fill_of(fills, fills[i].0) == Some(fills[i].1),
    decreases fills.len(),
{
    if i < fills.len() - 1 {
        assert(fills[fills.len() - 1].0 != fills[i].0);
        let init = fills.drop_last();
        assert forall|j: int| i < j < init.len() implies (#[trigger] init[j]).0 != init[i].0 by {
            assert(init[j] == fills[j]);
        }
        lemma_only_fill(init, i);
    }
}

/// Every chunk that a fill gives a state ends in that state: the chunk it was
/// for and its siblings alike, the last word on each counting.
pub proof fn law_filled_chunks_get_their_states(
    m: CacheModel,
    key: ChunkKey,
    order: Seq<u64>,
    covered: Seq<ChunkKey>,
    fills: Vec<(ChunkKey, ChunkState)>,
    now: u64,
    i: int,
)
    requires
        !m.closed,
        0 <= i < fills@.len(),
        forall|j: int| i < j < fills@.len() ==> (#[trigger] fills@[j]).0 != fills@[i].0,
    ensures
        extraction_ended(m, key, order, covered, Ok(fills), now).chunks[fills@[i].0].state == Some(
            fills@[i].1,
        ),
{
    let result: Filled = Ok(fills);
    let c = fills@[i].0;
    lemma_only_fill(fills@, i);
    lemma_released_states(m, order);
    let r = sources_released(m, order);
    let st = primary_outcome(key, result, now);
    let a = settled(r, key, st, now);
    lemma_settled_states(r, key, st, now, c);
    lemma_siblings_states(a, key, fills@, now, c);
    assert(filled(fills@, c));
    lemma_gaps_states(
        siblings_settled(a, key, fills@, now),
        key,
        covered,
        fills@,
        gap_outcome(key, result, now),
        c,
    );
}

/// A failed fill leaves every chunk that it was to cover resting: for ten
/// seconds after a failure that may pass, and for a year after one that will
/// not.
pub proof fn law_failed_fill_rests_what_it_covers(
    m: CacheModel,
    key: ChunkKey,
    order: Seq<u64>,
    covered: Seq<ChunkKey>,
    e: BackfillError,
    now: u64,
    c: ChunkKey,
)
    requires
        !m.closed,
        c == key || covered.contains(c),
    ensures
        extraction_ended(m, key, order, covered, Err(e), now).chunks[c].state == Some(failure_state(e, now)),
        failure_state(e, now) == (ChunkState::CooldownMiss {
            until: chunk::time_after(now, if e is Transient {
                10_000
            } else {
                31_536_000_000
            }),
        }),
{
    let result: Filled = Err(e);
    let none = Seq::<(ChunkKey, ChunkState)>::empty();
    lemma_released_states(m, order);
    let r = sources_released(m, order);
    let st = primary_outcome(key, result, now);
    let a = settled(r, key, st, now);
    lemma_settled_states(r, key, st, now, c);
    lemma_siblings_states(a, key, none, now, c);
    lemma_gaps_states(
        siblings_settled(a, key, none, now),
        key,
        covered,
        none,
        gap_outcome(key, result, now),
        c,
    );
}

/// Once a source is there, every chunk that waited for it and gathers has its
/// outcome; the source is kept for as many consumers as waited.
pub proof fn law_every_waiter_hears_of_its_source(
    m: CacheModel,
    source: u64,
    outcome: SourceOutcome,
    now: u64,
    w: ChunkKey,
)
    requires
        !m.closed,
        m.sources.contains_key(source),
        m.sources[source] matches SourceModel::Pending { waiters } && waiters.contains(w) && waiters.len()
            <= u64::MAX,
        m.chunks[w].progress is Some,
        !has_result(m.chunks[w].progress->0.results, source),
    ensures
        ({
            let n = source_completed(m, source, outcome, now);
            &&& n.chunks[w].progress matches Some(q) && q.results.contains((source, outcome)) && q.order
                == m.chunks[w].progress->0.order
            &&& outcome is Ok ==> n.sources.contains_key(source) && (n.sources[source]
                matches SourceModel::Done { outcome: o, remaining_consumers: k } && o == outcome && k
                == (m.sources[source]->waiters).len())
        }),
{
    if let SourceModel::Pending { waiters } = m.sources[source] {
        let n = if outcome is Err {
            m.without_source(source)
        } else {
            m.with_source(
                source,
                SourceModel::Done { outcome, remaining_consumers: waiters.len() as u64 },
            )
        };
        lemma_notified_keeps(n, waiters, source, outcome, now);
        lemma_waiter_hears(n, waiters, source, outcome, now, w);
    }
}

proof fn lemma_waiter_hears(
    m: CacheModel,
    waiters: Seq<ChunkKey>,
    source: u64,
    outcome: SourceOutcome,
    now: u64,
    w: ChunkKey,
)
    requires
        !m.closed,
        m.chunks[w].progress is Some,
        !has_result(m.chunks[w].progress->0.results, source),
    ensures
        ({
            let n = all_notified(m, waiters, source, outcome, now);
            &&& !n.closed
            &&& n.chunks[w].progress matches Some(q) && q.order == m.chunks[w].progress->0.order && (
            if waiters.contains(w) {
                q.results.contains((source, outcome)) && has_result(q.results, source)
            } else {
                q.results == m.chunks[w].progress->0.results
            })
        }),
    decreases waiters.len(),
{
    if waiters.len() > 0 {
        let init = waiters.drop_last();
        lemma_waiter_hears(m, init, source, outcome, now, w);
        let before = all_notified(m, init, source, outcome, now);
        let p = before.chunks[w].progress->0;
        if init.contains(w) {
            let i = init.index_of(w);
            assert(waiters[i] == w);
        } else if waiters.last() == w {
            assert(waiters[waiters.len() - 1] == w);
            let q = progressed(p, source, outcome);
            assert(q.results[q.results.len() - 1] == (source, outcome));
            assert(q.results[q.results.len() - 1].0 == source);
        } else if waiters.contains(w) {
            let i = waiters.index_of(w);
            assert(init[i] == w);
        }
    }
}

/// A worker takes up what was queued last, unless it has waited too long: the
/// extraction of a chunk whose fate is open, or the fetch of a source that is
/// not there.
pub proof fn law_worker_takes_what_came_last(m: CacheModel, chunk: ChunkKey, task: Task, max_age: u64, cull: bool, now: u64)
    ensures
        ({
            let n = m.with_task(chunk, task, now);
            let (after, step) = worker_turn(n, max_age, cull, now);
            match task {
                Task::Extract => if m.chunks[chunk].state matches Some(s) && s.terminal() {
                    step == WorkerStep::Skipped
                } else {
                    step == WorkerStep::Extract(chunk) && after.tasks == m.tasks
                },
                Task::FetchSource(s) => if m.sources.contains_key(s) && m.sources[s] is Done {
                    step == WorkerStep::Skipped
                } else {
                    step == WorkerStep::Fetch(s) && after.tasks == m.tasks
                },
            }
        }),
{
    let e = task_entry(chunk, task, now);
    lifo::law_last_in_first_out(m.tasks, e, max_age, cull, now);
    let n = m.with_task(chunk, task, now);
    assert(lifo::culled(n.tasks, max_age, cull, now) =~= Seq::empty());
    assert(tasks_cancelled(
        CacheModel {
            tasks: n.tasks.take(lifo::keep_len(n.tasks, max_age, cull, now) as int),
            ..n
        },
        lifo::culled(n.tasks, max_age, cull, now),
        Reason::StaleOnPop,
        now,
    ) == CacheModel { tasks: m.tasks, ..n });
}

/// A chunk whose fate is known tells it to the sources that stand for it: one
/// that arrived as their payload, one that is absent as their absence.
pub proof fn law_fate_is_passed_on(m: CacheModel, key: ChunkKey, state: ChunkState, now: u64, source: u64)
    requires
        m.chunks[key].waiting == seq![source],
        m.sources.contains_key(source),
        m.sources[source] is Pending,
        state is Resident || state is Empty,
    ensures
        ({
            let n = published(m, key, state, now);
            &&& n.sources.contains_key(source)
            &&& n.sources[source] is Done
            &&& n.sources[source]->outcome == (if state is Resident {
                Ok::<Option<SourcePayload>, BackfillError>(Some(SourcePayload::Chunk(key)))
            } else {
                Ok(None)
            })
        }),
{
    let n = m.with_waiting(key, Seq::empty());
    let o = fate(key, state);
    let w = m.chunks[key].waiting;
    assert(w.drop_last() =~= Seq::empty());
    assert(sources_completed(n, w.drop_last(), o, now) == n);
    if let SourceModel::Pending { waiters } = m.sources[source] {
        lemma_notified_keeps(
            n.with_source(
                source,
                SourceModel::Done { outcome: o, remaining_consumers: waiters.len() as u64 },
            ),
            waiters,
            source,
            o,
            now,
        );
    }
}

/// A chunk that a plan will cover is claimed where nothing is known of it or its
/// rest is over. The plan's own chunk, chunks with another state and chunks that
/// are not covered stay as they are.
pub proof fn law_free_chunks_are_claimed(m: CacheModel, key: ChunkKey, covered: Seq<ChunkKey>, now: u64, c: ChunkKey)
    ensures
        ({
            let n = siblings_claimed(m, key, covered, now);
            let free = match m.chunks[c].state {
                None => true,
                Some(ChunkState::CooldownMiss { until }) => until <= now,
                _ => false,
            };
            n.chunks[c].state == if covered.contains(c) && c != key && free {
                Some(ChunkState::Pending { last_touched_frame: 0 })
            } else {
                m.chunks[c].state
            }
        }),
    decreases covered.len(),
{
    if covered.len() > 0 {
        let front = covered.drop_last();
        law_free_chunks_are_claimed(m, key, front, now, c);
        if front.contains(c) {
            assert(covered[front.index_of(c)] == c);
        }
        if covered.last() == c {
            assert(covered[covered.len() - 1] == c);
        }
        if covered.contains(c) && covered.last() != c {
            assert(front[covered.index_of(c)] == c);
        }
    }
}

/// The first chunk to ask for a source waits for it alone, and starts what gets
/// it: a task, a download of its URL and range, or the wait for another chunk.
pub proof fn law_first_to_ask_starts_the_fetch(m: CacheModel, key: ChunkKey, wanted: SourceSpec, now: u64)
    requires
        !m.closed,
        !m.sources.contains_key(wanted.id()),
    ensures
        ({
            let (n, got) = registered(m, key, wanted, now);
            &&& n.sources.contains_key(wanted.id())
            &&& n.sources[wanted.id()] == (SourceModel::Pending { waiters: seq![key] })
            &&& match wanted {
                SourceSpec::Compute { source } => {
                    &&& got is Queued
                    &&& n.tasks.len() == m.tasks.len() + 1
                    &&& n.tasks.drop_last() == m.tasks
                    &&& n.tasks.last().chunk == key
                    &&& n.tasks.last().item == Task::FetchSource(source)
                    &&& n.downloads == m.downloads
                },
                SourceSpec::Chunk { source, child } => {
                    &&& got == Registered::AwaitsChunk(child)
                    &&& n.chunks[child].waiting == m.chunks[child].waiting.push(source)
                    &&& n.tasks == m.tasks
                    &&& n.downloads == m.downloads
                },
                SourceSpec::Download { source, url, range } => {
                    &&& got is Queued
                    &&& n.downloads.len() == m.downloads.len() + 1
                    &&& n.downloads.drop_last() == m.downloads
                    &&& n.downloads.last().chunk == key
                    &&& n.downloads.last().item == (Download { source, url, range })
                    &&& n.tasks == m.tasks
                },
            }
        }),
{
    let n = registered(m, key, wanted, now).0;
    match wanted {
        SourceSpec::Compute { .. } => {
            assert(n.tasks.drop_last() =~= m.tasks);
        },
        SourceSpec::Download { .. } => {
            assert(n.downloads.drop_last() =~= m.downloads);
        },
        SourceSpec::Chunk { .. } => {},
    }
}

/// Whoever asks for a source later waits with the others, or has what is there
/// and is counted among its consumers.
pub proof fn law_later_ones_share_the_fetch(m: CacheModel, key: ChunkKey, wanted: SourceSpec, now: u64)
    requires
        m.sources.contains_key(wanted.id()),
    ensures
        ({
            let (n, got) = registered(m, key, wanted, now);
            match m.sources[wanted.id()] {
                SourceModel::Pending { waiters } => got is Attached && n.sources[wanted.id()]
                    == (SourceModel::Pending { waiters: waiters.push(key) }),
                SourceModel::Done { outcome, remaining_consumers } => {
                    &&& got == Registered::AlreadyDone(outcome)
                    &&& remaining_consumers < u64::MAX ==> n.sources[wanted.id()] == (SourceModel::Done {
                        outcome,
                        remaining_consumers: (remaining_consumers + 1) as u64,
                    })
                },
            }
        }),
{
}

/// A plan that needs no sources goes straight to extraction.
pub proof fn law_plan_without_sources_is_extracted(m: CacheModel, key: ChunkKey, covered: Seq<ChunkKey>, now: u64)
    requires
        !m.closed,
    ensures
        ({
            let (n, state, children) = plan_started(m, key, covered, Seq::empty(), now);
            &&& state is Pending
            &&& children.len() == 0
            &&& n.tasks.len() == m.tasks.len() + 1
            &&& n.tasks.last().chunk == key
            &&& n.tasks.last().item == Task::Extract
            &&& n.chunks[key].progress matches Some(p) && p.remaining == 0 && p.covered == covered
        }),
{
    lemma_claims_keep_tasks(m, key, covered, now);
}

proof fn lemma_claims_keep_tasks(m: CacheModel, key: ChunkKey, covered: Seq<ChunkKey>, now: u64)
    ensures
        siblings_claimed(m, key, covered, now).tasks == m.tasks,
    decreases covered.len(),
{
    if covered.len() > 0 {
        lemma_claims_keep_tasks(m, key, covered.drop_last(), now);
    }
}

/// An extraction that is given up leaves its chunk resting for a short while,
/// with nothing gathered; a fetch that is given up fails its source for now.
pub proof fn law_given_up_work_can_be_tried_again(m: CacheModel, e: QueueEntry<Task>, reason: Reason, now: u64)
    ensures
        ({
            let n = task_cancelled(m, e, reason, now);
            match e.item {
                Task::Extract => {
                    &&& n.chunks[e.chunk].state == Some(
                        ChunkState::CooldownMiss { until: chunk::time_after(now, 150) },
                    )
                    &&& n.chunks[e.chunk].progress is None
                    &&& forall|c: ChunkKey| c != e.chunk && m.chunks.contains_key(c) ==> #[trigger] n.chunks[c] == m.chunks[c]
                },
                Task::FetchSource(s) => m.sources.contains_key(s) && m.sources[s] is Pending
                    ==> !n.sources.contains_key(s),
            }
        }),
{
    match e.item {
        Task::FetchSource(s) => {
            if m.sources.contains_key(s) && m.sources[s] is Pending {
                law_failure_is_not_kept(m, s, BackfillError::Transient(reason), now);
            }
        },
        Task::Extract => {},
    }
}

/// A covered chunk that a fill left out rests: for a short while where the
/// fill's own chunk came, and for ten seconds where that did not come either.
pub proof fn law_chunk_that_was_left_out_rests(
    m: CacheModel,
    key: ChunkKey,
    order: Seq<u64>,
    covered: Seq<ChunkKey>,
    fills: Vec<(ChunkKey, ChunkState)>,
    now: u64,
    c: ChunkKey,
)
    requires
        c != key,
        covered.contains(c),
        forall|i: int| 0 <= i < fills@.len() ==> (#[trigger] fills@[i]).0 != c,
    ensures
        extraction_ended(m, key, order, covered, Ok(fills), now).chunks[c].state == Some(
            ChunkState::CooldownMiss {
                until: chunk::time_after(
                    now,
                    if exists|i: int| 0 <= i < fills@.len() && (#[trigger] fills@[i]).0 == key {
                        150
                    } else {
                        10_000
                    },
                ),
            },
        ),
{
    let result: Filled = Ok(fills);
    let st = primary_outcome(key, result, now);
    let a = settled(sources_released(m, order), key, st, now);
    lemma_fill_found(fills@, key);
    lemma_gaps_states(
        siblings_settled(a, key, fills@, now),
        key,
        covered,
        fills@,
        gap_outcome(key, result, now),
        c,
    );
}

proof fn lemma_fill_found(fills: Seq<(ChunkKey, ChunkState)>, key: ChunkKey)
    ensures
        fill_of(fills, key) is Some <==> exists|i: int| 0 <= i < fills.len() && (#[trigger] fills[i]).0 == key,
    decreases fills.len(),
{
    if fills.len() > 0 {
        let init = fills.drop_last();
        lemma_fill_found(init, key);
        if fills.last().0 == key {
            assert(fills[fills.len() - 1].0 == key);
        }
        if exists|i: int| 0 <= i < init.len() && (#[trigger] init[i]).0 == key {
            let i = choose|i: int| 0 <= i < init.len() && (#[trigger] init[i]).0 == key;
            assert(fills[i].0 == key);
        }
        if exists|i: int| 0 <= i < fills.len() && (#[trigger] fills[i]).0 == key {
            let i = choose|i: int| 0 <= i < fills.len() && (#[trigger] fills[i]).0 == key;
            if i < init.len() {
                assert(init[i].0 == key);
            }
        }
    }
}

} // verus!
