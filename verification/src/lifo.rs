//! The last-in, first-out work queue that the cache and the downloader share.
//!
//! What was submitted or touched most recently is taken first. Work that
//! nobody touched for longer than the queue's age limit is given up when it is
//! reached, unless it was submitted as durable or culling is off.
use crate::chunk::ChunkKey;
use vstd::prelude::*;

verus! {

/// One queued piece of work. Times are in milliseconds.
pub struct QueueEntry<T> {
    /// The chunk that the work is for.
    pub chunk: ChunkKey,
    /// When the entry was submitted or last touched.
    pub added_at: u64,
    /// When the entry was first submitted.
    pub submitted_at: u64,
    /// How often the entry was touched while it waited.
    pub touch_count: u32,
    /// Never given up for its age.
    pub durable: bool,
    pub item: T,
}

/// The queue, oldest entry first: work is taken from the end.
pub struct LifoQueue<T> {
    pub entries: Vec<QueueEntry<T>>,
    pub max_age: u64,
    pub cull_enabled: bool,
}

/// What one `pop` took out: the entry to work on, if one is left that is not
/// stale, and the stale entries that were passed on the way, newest first.
pub struct Popped<T> {
    pub entry: Option<QueueEntry<T>>,
    pub dropped: Vec<QueueEntry<T>>,
}

/// An entry after a touch at `now`.
pub open spec fn refreshed<T>(e: QueueEntry<T>, now: u64) -> QueueEntry<T> {
    QueueEntry { added_at: now, touch_count: e.touch_count.wrapping_add(1), ..e }
}

/// The entries that are not for `chunk`, in order.
pub open spec fn others<T>(s: Seq<QueueEntry<T>>, chunk: ChunkKey) -> Seq<QueueEntry<T>>
    decreases s.len(),
{
    if s.len() == 0 {
        s
    } else if s.last().chunk == chunk {
        others(s.drop_last(), chunk)
    } else {
        others(s.drop_last(), chunk).push(s.last())
    }
}

/// The entries for `chunk`, each touched at `now`, in order.
pub open spec fn touched_ones<T>(
    s: Seq<QueueEntry<T>>,
    chunk: ChunkKey,
    now: u64,
) -> Seq<QueueEntry<T>>
    decreases s.len(),
{
    if s.len() == 0 {
        s
    } else if s.last().chunk == chunk {
        touched_ones(s.drop_last(), chunk, now).push(refreshed(s.last(), now))
    } else {
        touched_ones(s.drop_last(), chunk, now)
    }
}

/// The queue after a touch of `chunk`: its entries move to the head, in the
/// order they had among themselves; the others keep theirs.
pub open spec fn touched<T>(s: Seq<QueueEntry<T>>, chunk: ChunkKey, now: u64) -> Seq<QueueEntry<T>> {
    others(s, chunk) + touched_ones(s, chunk, now)
}

/// How long ago the entry was submitted or touched.
pub open spec fn age(added_at: u64, now: u64) -> int {
    if now >= added_at {
        now - added_at
    } else {
        0
    }
}

/// Whether an entry is given up when it is reached at `now`.
pub open spec fn stale<T>(e: QueueEntry<T>, max_age: u64, cull: bool, now: u64) -> bool {
    !e.durable && cull && age(e.added_at, now) > max_age
}

/// How many entries stay in the queue after a `pop` at `now`: those below the
/// newest entry that is not stale.
pub open spec fn keep_len<T>(s: Seq<QueueEntry<T>>, max_age: u64, cull: bool, now: u64) -> nat
    decreases s.len(),
{
    if s.len() == 0 {
        0
    } else if stale(s.last(), max_age, cull, now) {
        keep_len(s.drop_last(), max_age, cull, now)
    } else {
        (s.len() - 1) as nat
    }
}

/// The entry that a `pop` at `now` hands out.
pub open spec fn head<T>(s: Seq<QueueEntry<T>>, max_age: u64, cull: bool, now: u64) -> Option<QueueEntry<T>>
    decreases s.len(),
{
    if s.len() == 0 {
        None
    } else if stale(s.last(), max_age, cull, now) {
        head(s.drop_last(), max_age, cull, now)
    } else {
        Some(s.last())
    }
}

/// The entries that a `pop` at `now` gives up, newest first.
pub open spec fn culled<T>(s: Seq<QueueEntry<T>>, max_age: u64, cull: bool, now: u64) -> Seq<QueueEntry<T>>
    decreases s.len(),
{
    if s.len() > 0 && stale(s.last(), max_age, cull, now) {
        seq![s.last()] + culled(s.drop_last(), max_age, cull, now)
    } else {
        Seq::empty()
    }
}

impl<T> LifoQueue<T> {
    /// An empty queue whose entries go stale after `max_age` milliseconds,
    /// provided that culling is on.
    pub fn new(max_age: u64, cull_enabled: bool) -> (q: LifoQueue<T>)
        ensures
            q.entries@ == Seq::<QueueEntry<T>>::empty(),
            q.max_age == max_age,
            q.cull_enabled == cull_enabled,
    {
        LifoQueue { entries: Vec::new(), max_age, cull_enabled }
    }

    /// Turns the age limit on or off.
    pub fn set_culling(&mut self, on: bool)
        ensures
            final(self).entries == old(self).entries,
            final(self).max_age == old(self).max_age,
            final(self).cull_enabled == on,
    {
        self.cull_enabled = on;
    }

    fn submit_inner(&mut self, chunk: ChunkKey, item: T, durable: bool, now: u64)
        ensures
            final(self).entries@ == old(self).entries@.push(
                QueueEntry { chunk, added_at: now, submitted_at: now, touch_count: 0, durable, item },
            ),
            final(self).max_age == old(self).max_age,
            final(self).cull_enabled == old(self).cull_enabled,
    {
        self.entries.push(
            QueueEntry { chunk, added_at: now, submitted_at: now, touch_count: 0, durable, item },
        );
    }

    /// Puts one piece of work at the head of the queue.
    pub fn submit(&mut self, chunk: ChunkKey, item: T, now: u64)
        ensures
            final(self).entries@ == old(self).entries@.push(
                QueueEntry {
                    chunk,
                    added_at: now,
                    submitted_at: now,
                    touch_count: 0,
                    durable: false,
                    item,
                },
            ),
            final(self).max_age == old(self).max_age,
            final(self).cull_enabled == old(self).cull_enabled,
    {
        self.submit_inner(chunk, item, false, now);
    }

    /// Like `submit`, but the entry is never given up for its age.
    pub fn submit_durable(&mut self, chunk: ChunkKey, item: T, now: u64)
        ensures
            final(self).entries@ == old(self).entries@.push(
                QueueEntry {
                    chunk,
                    added_at: now,
                    submitted_at: now,
                    touch_count: 0,
                    durable: true,
                    item,
                },
            ),
            final(self).max_age == old(self).max_age,
            final(self).cull_enabled == old(self).cull_enabled,
    {
        self.submit_inner(chunk, item, true, now);
    }

    /// Moves every entry for `chunk` to the head and restarts its age.
    pub fn touch(&mut self, chunk: ChunkKey, now: u64)
        ensures
            final(self).entries@ == touched(old(self).entries@, chunk, now),
            final(self).max_age == old(self).max_age,
            final(self).cull_enabled == old(self).cull_enabled,
    {
        let mut all: Vec<QueueEntry<T>> = Vec::new();
        std::mem::swap(&mut all, &mut self.entries);
        let ghost before = all@;
        let mut keep: Vec<QueueEntry<T>> = Vec::new();
        let mut hit: Vec<QueueEntry<T>> = Vec::new();
        for e in it: all
            invariant
                it.seq() == before,
                keep@ == others(before.take(it.index() as int), chunk),
                hit@ == touched_ones(before.take(it.index() as int), chunk, now),
        {
            let ghost k = it.index() as int;
            assert(before.take(k + 1).drop_last() =~= before.take(k));
            assert(before.take(k + 1).last() == e);
            if e.chunk == chunk {
                let mut e = e;
                e.added_at = now;
                e.touch_count = e.touch_count.wrapping_add(1);
                hit.push(e);
            } else {
                keep.push(e);
            }
        }
        assert(before.take(before.len() as int) =~= before);
        keep.append(&mut hit);
        self.entries = keep;
    }

    /// How many entries wait.
    pub fn len(&self) -> (n: usize)
        ensures
            n == self.entries@.len(),
    {
        self.entries.len()
    }

    /// Takes the newest entry that is not stale, and every stale entry above
    /// it. With no such entry the queue is left empty.
    pub fn pop(&mut self, now: u64) -> (r: Popped<T>)
        ensures
            r.entry == head(old(self).entries@, old(self).max_age, old(self).cull_enabled, now),
            r.dropped@ == culled(old(self).entries@, old(self).max_age, old(self).cull_enabled, now),
            final(self).entries@ == old(self).entries@.take(
                keep_len(old(self).entries@, old(self).max_age, old(self).cull_enabled, now) as int,
            ),
            final(self).max_age == old(self).max_age,
            final(self).cull_enabled == old(self).cull_enabled,
    {
        let ghost all = self.entries@;
        let ghost limit = self.max_age;
        let ghost cull = self.cull_enabled;
        let mut dropped: Vec<QueueEntry<T>> = Vec::new();
        while self.entries.len() > 0
            invariant
                all == old(self).entries@,
                limit == old(self).max_age,
                cull == old(self).cull_enabled,
                self.max_age == limit,
                self.cull_enabled == cull,
                self.entries@.len() <= all.len(),
                self.entries@ == all.take(self.entries@.len() as int),
                dropped@ + culled(self.entries@, limit, cull, now) == culled(all, limit, cull, now),
                keep_len(self.entries@, limit, cull, now) == keep_len(all, limit, cull, now),
                head(self.entries@, limit, cull, now) == head(all, limit, cull, now),
            decreases self.entries.len(),
        {
            let ghost s = self.entries@;
            let last = self.entries.pop();
            match last {
                Some(e) => {
                    assert(e == s.last());
                    assert(self.entries@ =~= s.drop_last());
                    assert(self.entries@ =~= all.take(s.len() - 1));
                    let waited: u64 = if now >= e.added_at { now - e.added_at } else { 0 };
                    if !e.durable && self.cull_enabled && waited > self.max_age {
                        let ghost d = dropped@;
                        dropped.push(e);
                        assert(d + (seq![s.last()] + culled(s.drop_last(), limit, cull, now))
                            =~= dropped@ + culled(s.drop_last(), limit, cull, now));
                    } else {
                        assert(dropped@ + culled(s, limit, cull, now) =~= dropped@);
                        return Popped { entry: Some(e), dropped };
                    }
                },
                None => {
                    assert(false);
                },
            }
        }
        assert(dropped@ + culled(self.entries@, limit, cull, now) =~= dropped@);
        assert(self.entries@ =~= all.take(0));
        Popped { entry: None, dropped }
    }
}

proof fn lemma_others_touched<T>(s: Seq<QueueEntry<T>>, chunk: ChunkKey, now: u64)
    ensures
        others(s, chunk).len() + touched_ones(s, chunk, now).len() == s.len(),
        forall|i: int| 0 <= i < others(s, chunk).len() ==> (#[trigger] others(s, chunk)[i]).chunk != chunk,
        forall|i: int|
            0 <= i < touched_ones(s, chunk, now).len() ==> {
                &&& (#[trigger] touched_ones(s, chunk, now)[i]).chunk == chunk
                &&& touched_ones(s, chunk, now)[i].added_at == now
            },
    decreases s.len(),
{
    if s.len() > 0 {
        lemma_others_touched(s.drop_last(), chunk, now);
    }
}

/// Touching a chunk keeps every entry, and puts the chunk's own entries above
/// all others with their age restarted.
pub proof fn law_touch_moves_to_head<T>(s: Seq<QueueEntry<T>>, chunk: ChunkKey, now: u64)
    ensures
        touched(s, chunk, now).len() == s.len(),
        forall|i: int, j: int|
            0 <= i <= j < s.len() && (#[trigger] touched(s, chunk, now)[i]).chunk == chunk ==> {
                &&& (#[trigger] touched(s, chunk, now)[j]).chunk == chunk
                &&& touched(s, chunk, now)[j].added_at == now
            },
{
    lemma_others_touched(s, chunk, now);
    let m = others(s, chunk).len() as int;
    let t = touched(s, chunk, now);
    assert forall|i: int, j: int|
        0 <= i <= j < s.len() && (#[trigger] t[i]).chunk == chunk implies (#[trigger] t[j]).chunk
        == chunk && t[j].added_at == now by {
        if i < m {
            assert(t[i] == others(s, chunk)[i]);
        }
        assert(t[j] == touched_ones(s, chunk, now)[j - m]);
    }
}

/// A queue without entries for a chunk is not changed by touching it.
pub proof fn law_touch_absent_is_noop<T>(s: Seq<QueueEntry<T>>, chunk: ChunkKey, now: u64)
    requires
        forall|i: int| 0 <= i < s.len() ==> (#[trigger] s[i]).chunk != chunk,
    ensures
        touched(s, chunk, now) == s,
    decreases s.len(),
{
    if s.len() > 0 {
        assert forall|i: int| 0 <= i < s.drop_last().len() implies (#[trigger] s.drop_last()[i]).chunk
            != chunk by {
            assert(s.drop_last()[i] == s[i]);
        }
        law_touch_absent_is_noop(s.drop_last(), chunk, now);
        lemma_absent(s.drop_last(), chunk, now);
        lemma_absent(s, chunk, now);
        assert(others(s, chunk) =~= s);
    }
    assert(touched(s, chunk, now) =~= s) by {
        lemma_absent(s, chunk, now);
    }
}

proof fn lemma_absent<T>(s: Seq<QueueEntry<T>>, chunk: ChunkKey, now: u64)
    requires
        forall|i: int| 0 <= i < s.len() ==> (#[trigger] s[i]).chunk != chunk,
    ensures
        others(s, chunk) == s,
        touched_ones(s, chunk, now).len() == 0,
    decreases s.len(),
{
    if s.len() > 0 {
        assert forall|i: int| 0 <= i < s.drop_last().len() implies (#[trigger] s.drop_last()[i]).chunk
            != chunk by {
            assert(s.drop_last()[i] == s[i]);
        }
        lemma_absent(s.drop_last(), chunk, now);
        assert(s.drop_last().push(s.last()) =~= s);
        assert(s.last() == s[s.len() - 1]);
    }
}

/// What was submitted last is taken first, if it is not stale when it is
/// reached.
pub proof fn law_last_in_first_out<T>(
    s: Seq<QueueEntry<T>>,
    e: QueueEntry<T>,
    max_age: u64,
    cull: bool,
    now: u64,
)
    requires
        !stale(e, max_age, cull, now),
    ensures
        head(s.push(e), max_age, cull, now) == Some(e),
        culled(s.push(e), max_age, cull, now).len() == 0,
        s.push(e).take(keep_len(s.push(e), max_age, cull, now) as int) == s,
{
    assert(s.push(e).last() == e);
    assert(s.push(e).take(s.len() as int) =~= s);
}

/// Only stale entries are given up: never a durable one, none while culling is
/// off, and none within the age limit. Together with the entry handed out and
/// those that stay, they are all that was queued.
pub proof fn law_culls_only_stale<T>(s: Seq<QueueEntry<T>>, max_age: u64, cull: bool, now: u64)
    ensures
        forall|i: int|
            0 <= i < culled(s, max_age, cull, now).len() ==> {
                let e = #[trigger] culled(s, max_age, cull, now)[i];
                !e.durable && cull && age(e.added_at, now) > max_age
            },
        s.len() == keep_len(s, max_age, cull, now) + culled(s, max_age, cull, now).len() + (if head(
            s,
            max_age,
            cull,
            now,
        ) is Some {
            1int
        } else {
            0int
        }),
    decreases s.len(),
{
    if s.len() > 0 && stale(s.last(), max_age, cull, now) {
        law_culls_only_stale(s.drop_last(), max_age, cull, now);
        let rest = culled(s.drop_last(), max_age, cull, now);
        assert(culled(s, max_age, cull, now) == seq![s.last()] + rest);
        assert forall|i: int| 0 <= i < culled(s, max_age, cull, now).len() implies ({
            let e = #[trigger] culled(s, max_age, cull, now)[i];
            !e.durable && cull && age(e.added_at, now) > max_age
        }) by {
            if i > 0 {
                assert(culled(s, max_age, cull, now)[i] == rest[i - 1]);
            }
        }
    }
}

/// A `pop` takes from the end: the entries that stay are those submitted before
/// the one handed out, and all that were submitted after it are given up, the
/// last first. The one handed out has not waited too long, or may wait.
pub proof fn law_pop_takes_from_the_end<T>(s: Seq<QueueEntry<T>>, max_age: u64, cull: bool, now: u64, i: int)
    requires
        0 <= i < s.len(),
    ensures
        ({
            let k = keep_len(s, max_age, cull, now) as int;
            let gone = culled(s, max_age, cull, now);
            &&& head(s, max_age, cull, now) is None ==> k == 0 && gone.len() == s.len() && gone[s.len() - 1
                - i] == s[i]
            &&& head(s, max_age, cull, now) matches Some(e) ==> {
                &&& k < s.len()
                &&& e == s[k]
                &&& e.durable || !cull || now <= e.added_at + max_age
                &&& gone.len() == s.len() - 1 - k
                &&& i > k ==> gone[s.len() - 1 - i] == s[i]
            }
        }),
        i >= keep_len(s, max_age, cull, now) + (if head(s, max_age, cull, now) is Some {
            1int
        } else {
            0
        }) ==> !s[i].durable && cull && now > s[i].added_at + max_age,
    decreases s.len(),
{
    if stale(s.last(), max_age, cull, now) {
        let rest = culled(s.drop_last(), max_age, cull, now);
        assert(culled(s, max_age, cull, now) == seq![s.last()] + rest);
        if i < s.len() - 1 {
            law_pop_takes_from_the_end(s.drop_last(), max_age, cull, now, i);
        } else if s.len() > 1 {
            law_pop_takes_from_the_end(s.drop_last(), max_age, cull, now, 0);
        }
    }
}

/// Touching a chunk loses nothing: an entry for another chunk stays as it is,
/// and one for the chunk stays but for the time and the count of touches.
pub proof fn law_touch_keeps_the_work<T>(s: Seq<QueueEntry<T>>, chunk: ChunkKey, now: u64, i: int)
    requires
        0 <= i < s.len(),
    ensures
        touched(s, chunk, now).contains(
            if s[i].chunk == chunk {
                QueueEntry {
                    chunk,
                    added_at: now,
                    submitted_at: s[i].submitted_at,
                    touch_count: s[i].touch_count.wrapping_add(1),
                    durable: s[i].durable,
                    item: s[i].item,
                }
            } else {
                s[i]
            },
        ),
{
    lemma_touch_has(s, chunk, now, i);
    let (a, b) = (others(s, chunk), touched_ones(s, chunk, now));
    if s[i].chunk == chunk {
        let j = b.index_of(refreshed(s[i], now));
        assert(touched(s, chunk, now)[a.len() + j] == refreshed(s[i], now));
    } else {
        let j = a.index_of(s[i]);
        assert(touched(s, chunk, now)[j] == s[i]);
    }
}

proof fn lemma_touch_has<T>(s: Seq<QueueEntry<T>>, chunk: ChunkKey, now: u64, i: int)
    requires
        0 <= i < s.len(),
    ensures
        s[i].chunk == chunk ==> touched_ones(s, chunk, now).contains(refreshed(s[i], now)),
        s[i].chunk != chunk ==> others(s, chunk).contains(s[i]),
    decreases s.len(),
{
    let (a, b) = (others(s, chunk), touched_ones(s, chunk, now));
    if i < s.len() - 1 {
        lemma_touch_has(s.drop_last(), chunk, now, i);
        assert(s.drop_last()[i] == s[i]);
        if s[i].chunk == chunk {
            let j = touched_ones(s.drop_last(), chunk, now).index_of(refreshed(s[i], now));
            assert(b[j] == refreshed(s[i], now));
        } else {
            let j = others(s.drop_last(), chunk).index_of(s[i]);
            assert(a[j] == s[i]);
        }
    } else if s[i].chunk == chunk {
        assert(b[b.len() - 1] == refreshed(s[i], now));
    } else {
        assert(a[a.len() - 1] == s[i]);
    }
}

/// The entries for other chunks keep their order, and so do those for the chunk
/// that is touched, behind them.
pub proof fn law_touch_keeps_the_order<T>(s: Seq<QueueEntry<T>>, e: QueueEntry<T>, chunk: ChunkKey, now: u64)
    ensures
        e.chunk == chunk ==> touched(s.push(e), chunk, now).len() == s.len() + 1 && touched(
            s.push(e),
            chunk,
            now,
        ).drop_last() == touched(s, chunk, now) && touched(s.push(e), chunk, now).last().item == e.item,
        e.chunk != chunk ==> others(s.push(e), chunk) == others(s, chunk).push(e) && touched_ones(
            s.push(e),
            chunk,
            now,
        ) == touched_ones(s, chunk, now),
{
    assert(s.push(e).drop_last() =~= s);
    lemma_others_touched(s, chunk, now);
    if e.chunk == chunk {
        assert(touched(s.push(e), chunk, now) =~= touched(s, chunk, now).push(refreshed(e, now)));
        assert(touched(s.push(e), chunk, now).drop_last() =~= touched(s, chunk, now));
    }
}

} // verus!
