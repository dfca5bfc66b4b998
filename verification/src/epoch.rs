//! The cache's sense of time: epochs that advance with what is written, and a
//! count of the stored chunks by the epoch in which they were last used.
use crate::chunk::CHUNK_VOXELS;
use crate::disk;
use crate::le;
use crate::purge;
use crate::purge::{plan_from_histogram, PurgePlan, PurgeTarget, Victim};
use crate::sidecar;
use crate::sidecar::{Sidecar, STATE_MISSING, STATE_RESIDENT};
use crate::text;
use vstd::prelude::*;
use vstd::string::*;

verus! {

/// At or above this share of the cap, in percent, chunks are given up.
pub const HIGH_WATER_PCT: u64 = 95;

/// How full the cache is left then, in percent of the cap.
pub const LOW_WATER_PCT: u64 = 80;

/// How much of the disk must stay free whatever the cap says.
pub const MIN_FREE_BYTES: u64 = 5_368_709_120;

/// The cap of a cache for which none is configured.
pub const DEFAULT_CAP_BYTES: u64 = 214_748_364_800;

/// One unit of the configured cap.
pub const GIB: u64 = 1_073_741_824;

/// The cache's epoch bookkeeping. Times are in seconds.
pub struct EpochState {
    /// The epoch that is running.
    pub current: u8,
    /// What was written since the epoch began.
    pub bytes_since_advance: u64,
    /// After how much written the next epoch begins.
    pub bytes_per_epoch: u64,
    pub cap_bytes: u64,
    /// How many chunks are stored.
    pub total_chunks: u64,
    /// When each epoch was last entered.
    pub epoch_times: [Option<u64>; 256],
    /// How many chunks were last used in each epoch.
    pub epoch_chunks: [u32; 256],
    /// The volumes whose chunks have been counted.
    pub accumulated: Vec<String>,
}

/// `EpochState` as mathematics, without the list of counted volumes.
#[verifier::ext_equal]
pub struct EpochModel {
    pub current: u8,
    pub bytes_since_advance: u64,
    pub bytes_per_epoch: u64,
    pub cap_bytes: u64,
    pub total_chunks: u64,
    pub epoch_times: Seq<Option<u64>>,
    pub epoch_chunks: Seq<u32>,
}

/// How much is written in one epoch: the 256 epochs cover the cap and a tenth
/// more.
pub open spec fn epoch_bytes(cap_bytes: u64) -> int {
    let n = (cap_bytes * 11) / 2560;
    if n < 1 {
        1
    } else {
        n
    }
}

/// How much is written in one epoch.
pub fn derive_bytes_per_epoch(cap_bytes: u64) -> (n: u64)
    ensures
        n == epoch_bytes(cap_bytes),
{
    let n: u128 = (cap_bytes as u128 * 11) / 2560;
    if n < 1 {
        1
    } else {
        n as u64
    }
}

/// How many epochs begin when `bytes` have been written: one for each full
/// measure, and never more than there are.
pub open spec fn advances(bytes: u64, per_epoch: u64) -> int {
    if per_epoch == 0 || bytes as int / per_epoch as int > 256 {
        256
    } else {
        bytes as int / per_epoch as int
    }
}

/// The state after the epochs that are due have begun at `now`. After a full
/// round of all epochs what is left over is dropped.
pub open spec fn advanced(m: EpochModel, now: u64) -> EpochModel {
    let k = advances(m.bytes_since_advance, m.bytes_per_epoch);
    let current = ((m.current + k) % 256) as u8;
    EpochModel {
        current,
        bytes_since_advance: if k == 256 {
            0
        } else {
            (m.bytes_since_advance - k * m.bytes_per_epoch) as u64
        },
        epoch_times: Seq::new(
            256,
            |e: int|
                if (current - e) % 256 < k {
                    Some(now)
                } else {
                    m.epoch_times[e]
                },
        ),
        ..m
    }
}

/// `n + 1`, held at the largest number.
pub open spec fn plus_one_u32(n: u32) -> u32 {
    if n == u32::MAX {
        n
    } else {
        (n + 1) as u32
    }
}

/// `n + 1`, held at the largest number.
pub open spec fn plus_one_u64(n: u64) -> u64 {
    if n == u64::MAX {
        n
    } else {
        (n + 1) as u64
    }
}

/// `n - 1`, held at zero.
pub open spec fn minus_one_u32(n: u32) -> u32 {
    if n == 0 {
        n
    } else {
        (n - 1) as u32
    }
}

/// A chunk of `bytes` was written at `now`: epochs advance as due, and the
/// chunk counts for the epoch that runs then.
pub open spec fn filled(m: EpochModel, bytes: u64, now: u64) -> EpochModel {
    let a = advanced(
        EpochModel {
            bytes_since_advance: if m.bytes_since_advance + bytes > u64::MAX {
                u64::MAX
            } else {
                (m.bytes_since_advance + bytes) as u64
            },
            ..m
        },
        now,
    );
    EpochModel {
        total_chunks: plus_one_u64(a.total_chunks),
        epoch_chunks: a.epoch_chunks.update(
            a.current as int,
            plus_one_u32(a.epoch_chunks[a.current as int]),
        ),
        ..a
    }
}

/// A chunk moves from the count of one epoch to that of another.
pub open spec fn moved(m: EpochModel, old_epoch: u8, new_epoch: u8) -> EpochModel {
    let less = m.epoch_chunks.update(
        old_epoch as int,
        minus_one_u32(m.epoch_chunks[old_epoch as int]),
    );
    EpochModel {
        epoch_chunks: less.update(new_epoch as int, plus_one_u32(less[new_epoch as int])),
        ..m
    }
}

/// A chunk last used in `epoch` was given up.
pub open spec fn evicted(m: EpochModel, epoch: u8) -> EpochModel {
    EpochModel {
        epoch_chunks: m.epoch_chunks.update(
            epoch as int,
            minus_one_u32(m.epoch_chunks[epoch as int]),
        ),
        total_chunks: if m.total_chunks == 0 {
            0
        } else {
            (m.total_chunks - 1) as u64
        },
        ..m
    }
}

/// A stored chunk last used in `epoch` is counted.
pub open spec fn one_counted(m: EpochModel, epoch: u8) -> EpochModel {
    EpochModel {
        epoch_chunks: m.epoch_chunks.update(
            epoch as int,
            plus_one_u32(m.epoch_chunks[epoch as int]),
        ),
        total_chunks: plus_one_u64(m.total_chunks),
        ..m
    }
}

/// The resident chunks among the first `n` of a level are counted.
pub open spec fn level_counted(m: EpochModel, states: Seq<u8>, epochs: Seq<u8>, n: int) -> EpochModel
    decreases n,
{
    if n <= 0 {
        m
    } else {
        let front = level_counted(m, states, epochs, n - 1);
        if states[n - 1] == STATE_RESIDENT {
            one_counted(front, epochs[n - 1])
        } else {
            front
        }
    }
}

/// The resident chunks of the first `k` levels are counted.
pub open spec fn levels_counted(m: EpochModel, states: Seq<Seq<u8>>, epochs: Seq<Seq<u8>>, k: int) -> EpochModel
    decreases k,
{
    if k <= 0 {
        m
    } else {
        level_counted(
            levels_counted(m, states, epochs, k - 1),
            states[k - 1],
            epochs[k - 1],
            states[k - 1].len() as int,
        )
    }
}

/// The bookkeeping of an empty cache: epoch 1 runs since `now`.
pub open spec fn fresh(cap_bytes: u64, now: u64) -> EpochModel {
    EpochModel {
        current: 1,
        bytes_since_advance: 0,
        bytes_per_epoch: epoch_bytes(cap_bytes) as u64,
        cap_bytes,
        total_chunks: 0,
        epoch_times: Seq::new(256, |e: int| None::<u64>).update(1, Some(now)),
        epoch_chunks: Seq::new(256, |e: int| 0u32),
    }
}

impl EpochState {
    pub open spec fn model(&self) -> EpochModel {
        EpochModel {
            current: self.current,
            bytes_since_advance: self.bytes_since_advance,
            bytes_per_epoch: self.bytes_per_epoch,
            cap_bytes: self.cap_bytes,
            total_chunks: self.total_chunks,
            epoch_times: self.epoch_times@,
            epoch_chunks: self.epoch_chunks@,
        }
    }

    /// Whether the volume's chunks have been counted.
    pub open spec fn has_counted(&self, volume_id: Seq<char>) -> bool {
        exists|i: int|
            0 <= i < self.accumulated@.len() && (#[trigger] self.accumulated@[i])@ == volume_id
    }

    /// The bookkeeping of an empty cache. Epoch 0 stands for chunks of whose
    /// use nothing is known, so the first epoch is 1.
    pub fn new(cap_bytes: u64, now: u64) -> (s: EpochState)
        ensures
            s.model() == fresh(cap_bytes, now),
            s.accumulated@.len() == 0,
    {
        let mut epoch_times: [Option<u64>; 256] = [None; 256];
        epoch_times[1] = Some(now);
        let epoch_chunks: [u32; 256] = [0; 256];
        assert(epoch_times@ =~= Seq::new(256, |e: int| None::<u64>).update(1, Some(now)));
        assert(epoch_chunks@ =~= Seq::new(256, |e: int| 0u32));
        EpochState {
            current: 1,
            bytes_since_advance: 0,
            bytes_per_epoch: derive_bytes_per_epoch(cap_bytes),
            cap_bytes,
            total_chunks: 0,
            epoch_times,
            epoch_chunks,
            accumulated: Vec::new(),
        }
    }

    /// The epoch that is running.
    pub fn current(&self) -> (e: u8)
        ensures
            e == self.current,
    {
        self.current
    }

    /// How many chunks are stored.
    pub fn total_chunks(&self) -> (n: u64)
        ensures
            n == self.total_chunks,
    {
        self.total_chunks
    }

    /// How much may be stored.
    pub fn cap_bytes(&self) -> (n: u64)
        ensures
            n == self.cap_bytes,
    {
        self.cap_bytes
    }

    /// After how much written the next epoch begins.
    pub fn bytes_per_epoch(&self) -> (n: u64)
        ensures
            n == self.bytes_per_epoch,
    {
        self.bytes_per_epoch
    }

    /// How many chunks were last used in each epoch.
    pub fn epoch_chunks(&self) -> (h: [u32; 256])
        ensures
            h == self.epoch_chunks,
    {
        self.epoch_chunks
    }

    /// When each epoch was last entered.
    pub fn epoch_times(&self) -> (t: [Option<u64>; 256])
        ensures
            t == self.epoch_times,
    {
        self.epoch_times
    }

    fn maybe_advance(&mut self, now: u64)
        ensures
            final(self).model() == advanced(old(self).model(), now),
            final(self).accumulated == old(self).accumulated,
    {
        let ghost m = self.model();
        let ghost k = advances(m.bytes_since_advance, m.bytes_per_epoch);
        let mut n: u32 = 0;
        while self.bytes_since_advance >= self.bytes_per_epoch && n < 256
            invariant
                n <= 256,
                m == old(self).model(),
                self.accumulated == old(self).accumulated,
                self.bytes_per_epoch == m.bytes_per_epoch,
                self.cap_bytes == m.cap_bytes,
                self.total_chunks == m.total_chunks,
                self.epoch_chunks@ == m.epoch_chunks,
                self.bytes_since_advance == m.bytes_since_advance - n * m.bytes_per_epoch,
                self.current == (m.current + n) % 256,
                forall|e: int|
                    0 <= e < 256 ==> #[trigger] self.epoch_times@[e] == (if (self.current - e) % 256
                        < n {
                        Some(now)
                    } else {
                        m.epoch_times[e]
                    }),
            decreases 256 - n,
        {
            let ghost before = self.epoch_times@;
            let ghost was = self.current;
            proof {
                assert((n + 1) * m.bytes_per_epoch == n * m.bytes_per_epoch + m.bytes_per_epoch)
                    by (nonlinear_arith);
            }
            self.bytes_since_advance = self.bytes_since_advance - self.bytes_per_epoch;
            n = n + 1;
            let next = self.current.wrapping_add(1);
            self.current = next;
            self.epoch_times[next as usize] = Some(now);
            assert forall|e: int| 0 <= e < 256 implies #[trigger] self.epoch_times@[e] == (if (
            self.current - e) % 256 < n {
                Some(now)
            } else {
                m.epoch_times[e]
            }) by {
                if e == next {
                    assert((self.current - e) % 256 == 0);
                } else {
                    assert(self.epoch_times@[e] == before[e]);
                    assert((self.current - e) % 256 == (was - e) % 256 + 1);
                }
            }
        }
        proof {
            let b = m.bytes_since_advance as int;
            let p = m.bytes_per_epoch as int;
            if p == 0 {
                assert(n * p == 0) by (nonlinear_arith)
                    requires
                        p == 0,
                ;
                assert(n == 256);
            } else if n < 256 {
                assert(b / p == n) by {
                    vstd::arithmetic::div_mod::lemma_fundamental_div_mod_converse(
                        b,
                        p,
                        n as int,
                        b - n * p,
                    );
                }
            } else {
                assert(b / p >= 256) by (nonlinear_arith)
                    requires
                        b >= 256 * p,
                        p > 0,
                ;
                assert(256 * p == n * p);
            }
            assert(k == n);
        }
        if n == 256 {
            self.bytes_since_advance = 0;
        }
        assert(self.model() =~= advanced(m, now));
    }

    /// Counts a chunk of `bytes_written` that was written at `now`, and
    /// returns the epoch to stamp it with.
    pub fn record_fill(&mut self, bytes_written: u64, now: u64) -> (e: u8)
        ensures
            final(self).model() == filled(old(self).model(), bytes_written, now),
            e == final(self).current,
            final(self).accumulated == old(self).accumulated,
    {
        let ghost m = self.model();
        self.bytes_since_advance = self.bytes_since_advance.saturating_add(bytes_written);
        self.maybe_advance(now);
        self.total_chunks = self.total_chunks.saturating_add(1);
        let cur = self.current;
        let n = self.epoch_chunks[cur as usize];
        self.epoch_chunks[cur as usize] = n.saturating_add(1);
        assert(self.model() =~= filled(m, bytes_written, now));
        cur
    }

    /// Moves a chunk from the count of one epoch to that of another.
    pub fn record_access_transition(&mut self, old_epoch: u8, new_epoch: u8)
        ensures
            final(self).model() == moved(old(self).model(), old_epoch, new_epoch),
            final(self).accumulated == old(self).accumulated,
    {
        let ghost m = self.model();
        let n = self.epoch_chunks[old_epoch as usize];
        if n > 0 {
            self.epoch_chunks[old_epoch as usize] = n - 1;
        }
        let c = self.epoch_chunks[new_epoch as usize];
        self.epoch_chunks[new_epoch as usize] = c.saturating_add(1);
        assert(self.model() =~= moved(m, old_epoch, new_epoch));
    }

    /// Counts a use of a chunk that was last used in `old_epoch`, and returns
    /// the running epoch, which the chunk is to be stamped with if it differs.
    pub fn record_access(&mut self, old_epoch: u8) -> (e: u8)
        ensures
            e == old(self).current,
            final(self).model() == (if old_epoch == old(self).current {
                old(self).model()
            } else {
                moved(old(self).model(), old_epoch, old(self).current)
            }),
            final(self).accumulated == old(self).accumulated,
    {
        let cur = self.current;
        if old_epoch != cur {
            self.record_access_transition(old_epoch, cur);
        }
        cur
    }

    /// Counts a chunk last used in `victim_epoch` as given up.
    pub fn record_evict(&mut self, victim_epoch: u8)
        ensures
            final(self).model() == evicted(old(self).model(), victim_epoch),
            final(self).accumulated == old(self).accumulated,
    {
        let ghost m = self.model();
        let n = self.epoch_chunks[victim_epoch as usize];
        if n > 0 {
            self.epoch_chunks[victim_epoch as usize] = n - 1;
        }
        if self.total_chunks > 0 {
            self.total_chunks = self.total_chunks - 1;
        }
        assert(self.model() =~= evicted(m, victim_epoch));
    }

    fn count_one(&mut self, epoch: u8)
        ensures
            final(self).model() == one_counted(old(self).model(), epoch),
            final(self).accumulated == old(self).accumulated,
    {
        let ghost m = self.model();
        let n = self.epoch_chunks[epoch as usize];
        self.epoch_chunks[epoch as usize] = n.saturating_add(1);
        self.total_chunks = self.total_chunks.saturating_add(1);
        assert(self.model() =~= one_counted(m, epoch));
    }

    /// Counts a volume's resident chunks. A volume is counted once: later calls
    /// for it change nothing.
    pub fn add_from_sidecar(&mut self, sidecar: &Sidecar)
        requires
            sidecar.wf(),
            sidecar.header.lods@.len() <= 256,
        ensures
            final(self).has_counted(sidecar.header.volume_id@),
            old(self).has_counted(sidecar.header.volume_id@) ==> *final(self) == *old(self),
            !old(self).has_counted(sidecar.header.volume_id@) ==> {
                &&& final(self).accumulated@ == old(self).accumulated@.push(
                    sidecar.header.volume_id,
                )
                &&& final(self).model() == levels_counted(
                    old(self).model(),
                    sidecar.model().states,
                    sidecar.model().access_epochs,
                    sidecar.header.lods@.len() as int,
                )
            },
    {
        if contains_text(&self.accumulated, sidecar.header.volume_id.as_str()) {
            return ;
        }
        let ghost m = self.model();
        self.accumulated.push(sidecar.header.volume_id.clone());
        assert(self.accumulated@[self.accumulated@.len() - 1]@ == sidecar.header.volume_id@);
        assert(self.model() =~= m);
        let mut l: usize = 0;
        while l < sidecar.header.lods.len()
            invariant
                l <= sidecar.header.lods@.len() <= 256,
                sidecar.wf(),
                self.accumulated@ == old(self).accumulated@.push(sidecar.header.volume_id),
                self.model() == levels_counted(
                    m,
                    sidecar.model().states,
                    sidecar.model().access_epochs,
                    l as int,
                ),
            decreases sidecar.header.lods.len() - l,
        {
            let lod = l as u8;
            let n: u64 = sidecar.states[l].len() as u64;
            let ghost start = self.model();
            let ghost st = sidecar.model().states[l as int];
            let ghost ep = sidecar.model().access_epochs[l as int];
            assert(sidecar.states@[l as int]@.len() == n);
            let mut idx: u64 = 0;
            while idx < n
                invariant
                    idx <= n,
                    l < sidecar.header.lods@.len() <= 256,
                    lod == l,
                    n == sidecar.states@[l as int]@.len(),
                    sidecar.wf(),
                    st == sidecar.model().states[l as int],
                    ep == sidecar.model().access_epochs[l as int],
                    self.accumulated@ == old(self).accumulated@.push(sidecar.header.volume_id),
                    self.model() == level_counted(start, st, ep, idx as int),
                decreases n - idx,
            {
                if sidecar.get_state(lod, idx) == STATE_RESIDENT {
                    let ae = sidecar.get_access_epoch(lod, idx);
                    assert(ae == ep[idx as int]);
                    self.count_one(ae);
                }
                idx = idx + 1;
            }
            l = l + 1;
        }
        assert(self.accumulated@[self.accumulated@.len() - 1]@ == sidecar.header.volume_id@);
    }

    /// Forgets what was counted; the volumes on disk are counted anew.
    pub fn reset_counts(&mut self)
        ensures
            final(self).model() == (EpochModel {
                total_chunks: 0,
                epoch_chunks: Seq::new(256, |e: int| 0u32),
                ..old(self).model()
            }),
            final(self).accumulated == old(self).accumulated,
    {
        let zeros: [u32; 256] = [0; 256];
        self.epoch_chunks = zeros;
        self.total_chunks = 0;
        assert(self.epoch_chunks@ =~= Seq::new(256, |e: int| 0u32));
    }

    /// Begins `n` epochs at `now`, whatever was written.
    pub fn force_advance(&mut self, n: u8, now: u64)
        ensures
            final(self).current == (old(self).current + n) % 256,
            forall|e: int|
                0 <= e < 256 ==> #[trigger] final(self).epoch_times@[e] == (if (
                final(self).current - e) % 256 < n {
                    Some(now)
                } else {
                    old(self).epoch_times@[e]
                }),
            final(self).epoch_chunks == old(self).epoch_chunks,
            final(self).total_chunks == old(self).total_chunks,
            final(self).bytes_since_advance == old(self).bytes_since_advance,
            final(self).bytes_per_epoch == old(self).bytes_per_epoch,
            final(self).cap_bytes == old(self).cap_bytes,
            final(self).accumulated == old(self).accumulated,
    {
        let mut i: u8 = 0;
        while i < n
            invariant
                i <= n,
                self.current == (old(self).current + i) % 256,
                forall|e: int|
                    0 <= e < 256 ==> #[trigger] self.epoch_times@[e] == (if (self.current - e) % 256
                        < i {
                        Some(now)
                    } else {
                        old(self).epoch_times@[e]
                    }),
                self.epoch_chunks == old(self).epoch_chunks,
                self.total_chunks == old(self).total_chunks,
                self.bytes_since_advance == old(self).bytes_since_advance,
                self.bytes_per_epoch == old(self).bytes_per_epoch,
                self.cap_bytes == old(self).cap_bytes,
                self.accumulated == old(self).accumulated,
            decreases n - i,
        {
            let ghost before = self.epoch_times@;
            let ghost was = self.current;
            let next = self.current.wrapping_add(1);
            self.current = next;
            self.epoch_times[next as usize] = Some(now);
            i = i + 1;
            assert forall|e: int| 0 <= e < 256 implies #[trigger] self.epoch_times@[e] == (if (
            self.current - e) % 256 < i {
                Some(now)
            } else {
                old(self).epoch_times@[e]
            }) by {
                if e == next {
                    assert((self.current - e) % 256 == 0);
                } else {
                    assert(self.epoch_times@[e] == before[e]);
                    assert((self.current - e) % 256 == (was - e) % 256 + 1);
                }
            }
        }
    }

    /// The volumes that have been counted.
    pub fn accumulated_volume_ids(&self) -> (r: &Vec<String>)
        ensures
            *r == self.accumulated,
    {
        &self.accumulated
    }
}

/// Whether one of the texts is `t`.
pub fn contains_text(list: &Vec<String>, t: &str) -> (r: bool)
    ensures
        r == (exists|i: int| 0 <= i < list@.len() && (#[trigger] list@[i])@ == t@),
{
    let mut i: usize = 0;
    while i < list.len()
        invariant
            i <= list@.len(),
            forall|j: int| 0 <= j < i ==> (#[trigger] list@[j])@ != t@,
        decreases list.len() - i,
    {
        if text::same_text(list[i].as_str(), t) {
            return true;
        }
        i = i + 1;
    }
    false
}

impl PurgePlan {
    /// Plans a purge of `target_chunks` against what the cache holds.
    pub fn build(epoch: &EpochState, target_chunks: u64) -> (r: Option<PurgePlan>)
        ensures
            r is None <==> purge::freed_at(epoch.epoch_chunks@, epoch.current, 1) < target_chunks,
            r matches Some(p) ==> {
                &&& 1 <= p.age_threshold <= 255
                &&& p.target_chunks == target_chunks
                &&& p.freed_chunks == purge::freed_at(
                    epoch.epoch_chunks@,
                    epoch.current,
                    p.age_threshold as int,
                )
                &&& p.freed_chunks >= target_chunks
                &&& forall|age: int|
                    p.age_threshold < age <= 255 ==> #[trigger] purge::freed_at(
                        epoch.epoch_chunks@,
                        epoch.current,
                        age,
                    ) < target_chunks
            },
    {
        plan_from_histogram(&epoch.epoch_chunks, epoch.current, target_chunks)
    }
}

/// How many chunks are to be given up now, for a cache of `total` chunks with
/// this cap on a disk with `free` bytes left, if that is known. At or above
/// the high-water mark the cache is brought down to the low-water mark, and at
/// least as much is given up as the disk lacks. A cap of zero turns this off.
pub open spec fn purge_goal(total: u64, cap: u64, free: Option<u64>) -> int {
    let capacity = cap as int / CHUNK_VOXELS as int;
    let high = (capacity * HIGH_WATER_PCT) / 100;
    let low = (capacity * LOW_WATER_PCT) / 100;
    let over = if total >= high {
        total - low
    } else {
        0
    };
    let lacking = match free {
        Some(f) if f < MIN_FREE_BYTES => sidecar::ceil_div(
            MIN_FREE_BYTES - f,
            CHUNK_VOXELS as int,
        ),
        _ => 0,
    };
    if cap == 0 {
        0
    } else if over >= lacking {
        over
    } else {
        lacking
    }
}

/// How many chunks are to be given up now; see `purge_goal`.
pub fn purge_target(total: u64, cap: u64, free: Option<u64>) -> (n: u64)
    ensures
        n == purge_goal(total, cap, free),
{
    if cap == 0 {
        return 0;
    }
    let capacity: u64 = cap / CHUNK_VOXELS as u64;
    assert(CHUNK_VOXELS as u64 == 262144);
    assert(capacity == cap / 262144);
    assert(capacity <= 0x3fff_ffff_ffff) by (nonlinear_arith)
        requires
            capacity == cap / 262144,
            cap <= 0xffff_ffff_ffff_ffff,
    ;
    assert(capacity * HIGH_WATER_PCT <= u64::MAX && capacity * LOW_WATER_PCT <= u64::MAX)
        by (nonlinear_arith)
        requires
            0 <= capacity <= 0x3fff_ffff_ffff,
            HIGH_WATER_PCT == 95,
            LOW_WATER_PCT == 80,
    ;
    assert((capacity * LOW_WATER_PCT) / 100 <= (capacity * HIGH_WATER_PCT) / 100)
        by (nonlinear_arith)
        requires
            0 <= capacity,
            HIGH_WATER_PCT == 95,
            LOW_WATER_PCT == 80,
    ;
    let high: u64 = (capacity * HIGH_WATER_PCT) / 100;
    let low: u64 = (capacity * LOW_WATER_PCT) / 100;
    let over: u64 = if total >= high { total - low } else { 0 };
    let lacking: u64 = match free {
        Some(f) => if f < MIN_FREE_BYTES {
            (MIN_FREE_BYTES - f + CHUNK_VOXELS as u64 - 1) / CHUNK_VOXELS as u64
        } else {
            0
        },
        None => 0,
    };
    if over >= lacking {
        over
    } else {
        lacking
    }
}

/// The cap that a configured value in gibibytes calls for: a positive decimal
/// number, with white space around it, and otherwise the default.
pub open spec fn configured_cap(raw: Option<Seq<char>>) -> int {
    match raw {
        None => DEFAULT_CAP_BYTES as int,
        Some(s) => match text::parsed_unsigned(text::trimmed(s), u64::MAX as nat) {
            Some(n) => if n == 0 {
                DEFAULT_CAP_BYTES as int
            } else if n * GIB > u64::MAX {
                u64::MAX as int
            } else {
                (n * GIB) as int
            },
            None => DEFAULT_CAP_BYTES as int,
        },
    }
}

/// The cap that a configured value calls for; see `configured_cap`.
pub fn cap_bytes_from_env(raw: Option<&str>) -> (cap: u64)
    ensures
        cap == configured_cap(
            match raw {
                Some(s) => Some(s@),
                None => None,
            },
        ),
{
    let s = match raw {
        None => {
            return DEFAULT_CAP_BYTES;
        },
        Some(s) => text::to_chars(s),
    };
    let t = text::trim(&s);
    match text::parse_unsigned(&t, u64::MAX) {
        None => DEFAULT_CAP_BYTES,
        Some(n) => if n == 0 {
            DEFAULT_CAP_BYTES
        } else {
            proof {
                assert(n * GIB > u64::MAX <==> n > u64::MAX / GIB);
            }
            if n > u64::MAX / GIB {
                u64::MAX
            } else {
                n * GIB
            }
        },
    }
}

/// Where the epoch bookkeeping stands below the cache's root.
pub fn epoch_state_path(unified_root: &str) -> (p: String)
    ensures
        p@ == text::joined_path(unified_root@, "epoch.idx"@),
{
    text::join_path(unified_root, "epoch.idx")
}

/// What became of the bytes of a chunk that was given up.
#[derive(Debug, Clone, Copy, PartialEq, Eq, Structural)]
pub enum Reclaimed {
    /// They were punched out of the shard's file.
    Punched,
    /// There is no such file, so there was nothing to reclaim.
    NoFile,
    /// The file could not be used, or the punching failed.
    Failed,
}

/// Whether the chunk counts as given up.
pub open spec fn counts_as_freed(r: Reclaimed) -> bool {
    r != Reclaimed::Failed
}

/// The bookkeeping after the first `n` victims were dealt with.
pub open spec fn victims_recorded(m: EpochModel, victims: Seq<Victim>, done: Seq<Reclaimed>, n: int) -> EpochModel
    decreases n,
{
    if n <= 0 {
        m
    } else {
        let front = victims_recorded(m, victims, done, n - 1);
        if counts_as_freed(done[n - 1]) {
            evicted(front, victims[n - 1].access_epoch)
        } else {
            front
        }
    }
}

/// How many of the first `n` victims were given up.
pub open spec fn freed_count(done: Seq<Reclaimed>, n: int) -> int
    decreases n,
{
    if n <= 0 {
        0
    } else {
        freed_count(done, n - 1) + (if counts_as_freed(done[n - 1]) {
            1int
        } else {
            0int
        })
    }
}

/// Whether a volume is swept as one that nobody has open.
pub fn is_offline(volume_id: &str, live: &Vec<String>) -> (r: bool)
    ensures
        r == !(exists|i: int| 0 <= i < live@.len() && (#[trigger] live@[i])@ == volume_id@),
{
    !contains_text(live, volume_id)
}

/// The state bytes of a level after the plan's victims have been demoted.
pub open spec fn demoted(plan: PurgePlan, current: u8, states: Seq<Seq<u8>>, epochs: Seq<Seq<u8>>) -> Seq<
    Seq<u8>,
> {
    Seq::new(
        states.len(),
        |l: int|
            Seq::new(
                states[l].len(),
                |i: int|
                    if purge::slot_taken(plan, current, states[l][i], epochs[l][i]) {
                        STATE_MISSING
                    } else {
                        states[l][i]
                    },
            ),
    )
}

/// Begins the sweep of a volume that nobody has open: every resident chunk
/// that the plan takes is demoted to missing, before anything is done to its
/// bytes, and listed. The host then reclaims the bytes and reports to
/// `end_offline_sweep`.
pub fn begin_offline_sweep(s: &mut Sidecar, plan: &PurgePlan, current: u8) -> (victims: Vec<Victim>)
    requires
        old(s).wf(),
        old(s).header.lods@.len() <= 256,
    ensures
        final(s).wf(),
        final(s).header == old(s).header,
        victims@ == purge::all_victims(
            *plan,
            current,
            old(s).header.lods@,
            old(s).model().states,
            old(s).model().access_epochs,
            old(s).header.lods@.len() as int,
        ),
        final(s).model().states == demoted(
            *plan,
            current,
            old(s).model().states,
            old(s).model().access_epochs,
        ),
        final(s).model().access_epochs == old(s).model().access_epochs,
{
    let victims = purge::find_victims(s, plan, current);
    let ghost was = s.model();
    let levels = s.header.lods.len();
    let mut l: usize = 0;
    while l < levels
        invariant
            l <= levels <= 256,
            levels == s.header.lods@.len(),
            s.wf(),
            s.header == old(s).header,
            was == old(s).model(),
            was.states.len() == levels,
            was.access_epochs.len() == levels,
            s.model().access_epochs == was.access_epochs,
            forall|k: int|
                0 <= k < l ==> #[trigger] s.model().states[k] == demoted(
                    *plan,
                    current,
                    was.states,
                    was.access_epochs,
                )[k],
            forall|k: int| l <= k < levels ==> #[trigger] s.model().states[k] == was.states[k],
            forall|k: int|
                0 <= k < levels ==> #[trigger] was.states[k].len() == s.header.lods@[k].size(),
        decreases levels - l,
    {
        let lod = l as u8;
        let n: u64 = s.states[l].len() as u64;
        assert(s.states@[l as int]@.len() == n);
        let ghost d = demoted(*plan, current, was.states, was.access_epochs)[l as int];
        let mut i: u64 = 0;
        while i < n
            invariant
                i <= n,
                l < levels <= 256,
                lod == l,
                levels == s.header.lods@.len(),
                n == was.states[l as int].len(),
                d == demoted(*plan, current, was.states, was.access_epochs)[l as int],
                s.wf(),
                s.header == old(s).header,
                was == old(s).model(),
                was.states.len() == levels,
                was.access_epochs.len() == levels,
                s.model().access_epochs == was.access_epochs,
                forall|k: int|
                    0 <= k < l ==> #[trigger] s.model().states[k] == demoted(
                        *plan,
                        current,
                        was.states,
                        was.access_epochs,
                    )[k],
                forall|k: int| l < k < levels ==> #[trigger] s.model().states[k] == was.states[k],
                s.model().states[l as int].len() == n,
                forall|j: int| 0 <= j < i ==> #[trigger] s.model().states[l as int][j] == d[j],
                forall|j: int|
                    i <= j < n ==> #[trigger] s.model().states[l as int][j] == was.states[l as int][j],
                forall|k: int|
                    0 <= k < levels ==> #[trigger] was.states[k].len() == s.header.lods@[k].size(),
            decreases n - i,
        {
            let ghost mid = s.model();
            let st = s.get_state(lod, i);
            let ae = s.get_access_epoch(lod, i);
            assert(st == mid.states[l as int][i as int]);
            assert(ae == mid.access_epochs[l as int][i as int]);
            if st == STATE_RESIDENT && plan.is_victim(ae, current) {
                s.set_state(lod, i, STATE_MISSING);
            }
            i = i + 1;
        }
        assert(s.model().states[l as int] =~= d);
        l = l + 1;
    }
    assert(s.model().states =~= demoted(*plan, current, was.states, was.access_epochs));
    victims
}

/// Ends the sweep of a volume that nobody has open: every victim whose bytes
/// are gone is counted as given up. Returns how many those are; the index is
/// to be written back if there are any.
pub fn end_offline_sweep(epoch: &mut EpochState, victims: &Vec<Victim>, done: &Vec<Reclaimed>) -> (n:
    u64)
    requires
        victims@.len() == done@.len(),
    ensures
        final(epoch).model() == victims_recorded(
            old(epoch).model(),
            victims@,
            done@,
            victims@.len() as int,
        ),
        final(epoch).accumulated == old(epoch).accumulated,
        n == freed_count(done@, done@.len() as int),
{
    let ghost m = epoch.model();
    let mut n: u64 = 0;
    let mut i: usize = 0;
    while i < victims.len()
        invariant
            i <= victims@.len() == done@.len(),
            n <= i,
            n == freed_count(done@, i as int),
            epoch.model() == victims_recorded(m, victims@, done@, i as int),
            epoch.accumulated == old(epoch).accumulated,
        decreases victims.len() - i,
    {
        if done[i] != Reclaimed::Failed {
            epoch.record_evict(victims[i].access_epoch);
            n = n + 1;
        }
        i = i + 1;
    }
    n
}

/// The sum of what the targets gave up, held at the largest number.
pub open spec fn capped_sum(counts: Seq<u64>) -> int
    decreases counts.len(),
{
    if counts.len() == 0 {
        0
    } else {
        let s = capped_sum(counts.drop_last()) + counts.last();
        if s > u64::MAX {
            u64::MAX as int
        } else {
            s
        }
    }
}

/// The sum of what the targets gave up, held at the largest number.
pub fn total_evicted(counts: &Vec<u64>) -> (n: u64)
    ensures
        n == capped_sum(counts@),
{
    let mut n: u64 = 0;
    let mut i: usize = 0;
    while i < counts.len()
        invariant
            i <= counts@.len(),
            n == capped_sum(counts@.take(i as int)),
        decreases counts.len() - i,
    {
        assert(counts@.take(i + 1).drop_last() =~= counts@.take(i as int));
        n = n.saturating_add(counts[i]);
        i = i + 1;
    }
    assert(counts@.take(counts@.len() as int) =~= counts@);
    n
}

impl EpochState {
    /// Plans a purge of `target_chunks` and lets every target carry it out.
    /// Without a plan no target is asked. Returns the plan, for the volumes
    /// that nobody has open, and what each target gave up.
    pub fn purge_all_to_target<T: PurgeTarget>(
        &self,
        targets: &mut Vec<T>,
        target_chunks: u64,
    ) -> (r: Option<(PurgePlan, Vec<u64>)>)
        ensures
            r is None <==> purge::freed_at(self.epoch_chunks@, self.current, 1) < target_chunks,
            r is None ==> final(targets)@ == old(targets)@,
            r matches Some((p, counts)) ==> {
                &&& counts@.len() == old(targets)@.len()
                &&& p.target_chunks == target_chunks
                &&& 1 <= p.age_threshold <= 255
                &&& p.freed_chunks == purge::freed_at(
                    self.epoch_chunks@,
                    self.current,
                    p.age_threshold as int,
                )
                &&& forall|age: int|
                    p.age_threshold < age <= 255 ==> #[trigger] purge::freed_at(
                        self.epoch_chunks@,
                        self.current,
                        age,
                    ) < target_chunks
                &&& forall|j: int|
                    0 <= j < counts@.len() ==> T::purged(
                        &old(targets)@[j],
                        p,
                        &final(targets)@[j],
                        #[trigger] counts@[j],
                    )
            },
            final(targets)@.len() == old(targets)@.len(),
    {
        let plan = match PurgePlan::build(self, target_chunks) {
            None => {
                return None;
            },
            Some(p) => p,
        };
        let mut counts: Vec<u64> = Vec::new();
        let mut i: usize = 0;
        while i < targets.len()
            invariant
                i <= targets@.len(),
                targets@.len() == old(targets)@.len(),
                counts@.len() == i,
                forall|j: int| i <= j < targets@.len() ==> #[trigger] targets@[j] == old(targets)@[j],
                forall|j: int|
                    0 <= j < i ==> T::purged(
                        &old(targets)@[j],
                        plan,
                        &targets@[j],
                        #[trigger] counts@[j],
                    ),
            decreases targets.len() - i,
        {
            let n = targets[i].run_purge(plan);
            counts.push(n);
            i = i + 1;
        }
        Some((plan, counts))
    }
}


/// What a stored epoch bookkeeping begins with.
pub open spec fn epoch_magic() -> Seq<u8> {
    seq![86u8, 67, 69, 80, 79, 48, 48, 49]
}

/// How long a stored epoch bookkeeping is.
pub const EPOCH_BYTES: usize = 3113;

/// A time as it is stored: the seconds, zero for none.
pub open spec fn stored_time(t: Option<u64>) -> u64 {
    match t {
        Some(s) => s,
        None => 0,
    }
}

/// The bytes of the first `n` times.
pub open spec fn times_bytes(times: Seq<Option<u64>>, n: int) -> Seq<u8>
    decreases n,
{
    if n <= 0 {
        Seq::empty()
    } else {
        times_bytes(times, n - 1) + le::le(stored_time(times[n - 1]) as nat, 8)
    }
}

/// The bytes of the first `n` counts.
pub open spec fn counts_bytes(counts: Seq<u32>, n: int) -> Seq<u8>
    decreases n,
{
    if n <= 0 {
        Seq::empty()
    } else {
        counts_bytes(counts, n - 1) + le::le(counts[n - 1] as nat, 4)
    }
}

/// The fields in front of the tables.
pub open spec fn front_bytes(m: EpochModel) -> Seq<u8> {
    epoch_magic() + seq![m.current] + le::le(m.bytes_since_advance as nat, 8) + le::le(
        m.bytes_per_epoch as nat,
        8,
    ) + le::le(m.cap_bytes as nat, 8) + le::le(m.total_chunks as nat, 8)
}

/// The bookkeeping as it is stored.
pub open spec fn stored(m: EpochModel) -> Seq<u8> {
    front_bytes(m) + times_bytes(m.epoch_times, 256) + counts_bytes(m.epoch_chunks, 256)
}

/// The number that the eight bytes at `at` say.
pub open spec fn u64_at(bytes: Seq<u8>, at: int) -> u64 {
    le::from_le(bytes.subrange(at, at + 8)) as u64
}

/// What reading stored bookkeeping gives; `None` if the bytes are too few or do
/// not begin as they should.
pub open spec fn parsed(bytes: Seq<u8>) -> Option<EpochModel> {
    if bytes.len() < 3113 || bytes.take(8) != epoch_magic() {
        None
    } else {
        Some(
            EpochModel {
                current: bytes[8],
                bytes_since_advance: u64_at(bytes, 9),
                bytes_per_epoch: u64_at(bytes, 17),
                cap_bytes: u64_at(bytes, 25),
                total_chunks: u64_at(bytes, 33),
                epoch_times: Seq::new(
                    256,
                    |e: int|
                        {
                            let s = u64_at(bytes, 41 + 8 * e);
                            if s == 0 {
                                None
                            } else {
                                Some(s)
                            }
                        },
                ),
                epoch_chunks: Seq::new(256, |e: int| sidecar::u32_at(bytes, 2089 + 4 * e)),
            },
        )
    }
}

/// The number that the eight bytes at `*p` say; the position moves past them.
pub fn read_u64(buf: &[u8], p: &mut usize) -> (n: u64)
    requires
        *old(p) + 8 <= buf.len(),
    ensures
        n == u64_at(buf@, *old(p) as int),
        *final(p) == *old(p) + 8,
{
    proof {
        le::lemma_pow256_table();
    }
    let n = le::read_le(buf, *p, 8);
    *p = *p + 8;
    n
}

/// The number that the four bytes at `*p` say; the position moves past them.
pub fn read_u32(buf: &[u8], p: &mut usize) -> (n: u32)
    requires
        *old(p) + 4 <= buf.len(),
    ensures
        n == sidecar::u32_at(buf@, *old(p) as int),
        *final(p) == *old(p) + 4,
{
    proof {
        le::lemma_pow256_table();
    }
    let n = le::read_le(buf, *p, 4);
    *p = *p + 4;
    n as u32
}

impl EpochState {
    /// The bookkeeping as it is to be stored.
    pub fn save(&self) -> (out: Vec<u8>)
        ensures
            out@ == stored(self.model()),
    {
        let mut out: Vec<u8> = Vec::new();
        let m: [u8; 8] = [86, 67, 69, 80, 79, 48, 48, 49];
        assert(m@ =~= epoch_magic());
        le::push_bytes(&mut out, &m);
        out.push(self.current);
        le::push_le(&mut out, self.bytes_since_advance, 8);
        le::push_le(&mut out, self.bytes_per_epoch, 8);
        le::push_le(&mut out, self.cap_bytes, 8);
        le::push_le(&mut out, self.total_chunks, 8);
        assert(out@ =~= front_bytes(self.model()));
        let ghost front = out@;
        let mut i: usize = 0;
        while i < 256
            invariant
                i <= 256,
                out@ == front + times_bytes(self.epoch_times@, i as int),
            decreases 256 - i,
        {
            let secs: u64 = match self.epoch_times[i] {
                Some(s) => s,
                None => 0,
            };
            le::push_le(&mut out, secs, 8);
            i = i + 1;
            assert(out@ =~= front + times_bytes(self.epoch_times@, i as int));
        }
        let ghost mid = out@;
        let mut j: usize = 0;
        while j < 256
            invariant
                j <= 256,
                out@ == mid + counts_bytes(self.epoch_chunks@, j as int),
            decreases 256 - j,
        {
            le::push_le(&mut out, self.epoch_chunks[j] as u64, 4);
            j = j + 1;
            assert(out@ =~= mid + counts_bytes(self.epoch_chunks@, j as int));
        }
        out
    }

    /// Takes up stored bookkeeping. No volume counts as counted.
    pub fn load(bytes: &[u8]) -> (r: Option<EpochState>)
        ensures
            match r {
                Some(s) => parsed(bytes@) == Some(s.model()) && s.accumulated@.len() == 0,
                None => parsed(bytes@) is None,
            },
    {
        if bytes.len() < EPOCH_BYTES {
            return None;
        }
        let m: [u8; 8] = [86, 67, 69, 80, 79, 48, 48, 49];
        assert(m@ =~= epoch_magic());
        let mut i: usize = 0;
        while i < 8
            invariant
                i <= 8,
                bytes.len() >= 3113,
                m@ == epoch_magic(),
                forall|j: int| 0 <= j < i ==> bytes@[j] == epoch_magic()[j],
            decreases 8 - i,
        {
            if bytes[i] != m[i] {
                assert(bytes@.take(8)[i as int] != epoch_magic()[i as int]);
                return None;
            }
            i = i + 1;
        }
        assert(bytes@.take(8) =~= epoch_magic());
        let current = bytes[8];
        let mut p: usize = 9;
        let bytes_since_advance = read_u64(bytes, &mut p);
        let bytes_per_epoch = read_u64(bytes, &mut p);
        let cap_bytes = read_u64(bytes, &mut p);
        let total_chunks = read_u64(bytes, &mut p);
        let mut epoch_times: [Option<u64>; 256] = [None; 256];
        let mut e: usize = 0;
        while e < 256
            invariant
                e <= 256,
                p == 41 + 8 * e,
                bytes.len() >= 3113,
                forall|k: int|
                    0 <= k < e ==> #[trigger] epoch_times@[k] == (if u64_at(bytes@, 41 + 8 * k) == 0 {
                        None
                    } else {
                        Some(u64_at(bytes@, 41 + 8 * k))
                    }),
            decreases 256 - e,
        {
            let secs = read_u64(bytes, &mut p);
            epoch_times[e] = if secs == 0 { None } else { Some(secs) };
            e = e + 1;
        }
        let mut epoch_chunks: [u32; 256] = [0; 256];
        let mut c: usize = 0;
        while c < 256
            invariant
                c <= 256,
                p == 2089 + 4 * c,
                bytes.len() >= 3113,
                forall|k: int|
                    0 <= k < c ==> #[trigger] epoch_chunks@[k] == sidecar::u32_at(
                        bytes@,
                        2089 + 4 * k,
                    ),
            decreases 256 - c,
        {
            let n = read_u32(bytes, &mut p);
            epoch_chunks[c] = n;
            c = c + 1;
        }
        let s = EpochState {
            current,
            bytes_since_advance,
            bytes_per_epoch,
            cap_bytes,
            total_chunks,
            epoch_times,
            epoch_chunks,
            accumulated: Vec::new(),
        };
        assert(s.model() =~= parsed(bytes@)->0);
        Some(s)
    }
}

proof fn lemma_times_len(times: Seq<Option<u64>>, n: int)
    requires
        0 <= n,
    ensures
        times_bytes(times, n).len() == 8 * n,
    decreases n,
{
    if n > 0 {
        lemma_times_len(times, n - 1);
        le::lemma_le_len(stored_time(times[n - 1]) as nat, 8);
    }
}

proof fn lemma_counts_len(counts: Seq<u32>, n: int)
    requires
        0 <= n,
    ensures
        counts_bytes(counts, n).len() == 4 * n,
    decreases n,
{
    if n > 0 {
        lemma_counts_len(counts, n - 1);
        le::lemma_le_len(counts[n - 1] as nat, 4);
    }
}

proof fn lemma_u64_at(front: Seq<u8>, v: u64, tail: Seq<u8>)
    ensures
        u64_at(front + le::le(v as nat, 8) + tail, front.len() as int) == v,
{
    let b = front + le::le(v as nat, 8) + tail;
    le::lemma_le_len(v as nat, 8);
    le::lemma_pow256_table();
    le::lemma_le_round_trip(v as nat, 8);
    assert(b.subrange(front.len() as int, front.len() as int + 8) =~= le::le(v as nat, 8));
}

proof fn lemma_u32_found(front: Seq<u8>, v: u32, tail: Seq<u8>)
    ensures
        sidecar::u32_at(front + le::le(v as nat, 4) + tail, front.len() as int) == v,
{
    let b = front + le::le(v as nat, 4) + tail;
    le::lemma_le_len(v as nat, 4);
    le::lemma_pow256_table();
    le::lemma_le_round_trip(v as nat, 4);
    assert(b.subrange(front.len() as int, front.len() as int + 4) =~= le::le(v as nat, 4));
}

proof fn lemma_time_at(front: Seq<u8>, times: Seq<Option<u64>>, n: int, tail: Seq<u8>, k: int)
    requires
        0 <= k < n,
    ensures
        u64_at(front + times_bytes(times, n) + tail, front.len() as int + 8 * k) == stored_time(
            times[k],
        ),
    decreases n,
{
    lemma_times_len(times, n - 1);
    let b = front + times_bytes(times, n) + tail;
    let last = le::le(stored_time(times[n - 1]) as nat, 8);
    if k == n - 1 {
        lemma_u64_at(front + times_bytes(times, n - 1), stored_time(times[k]), tail);
        assert(front + times_bytes(times, n - 1) + last + tail =~= b);
    } else {
        lemma_time_at(front, times, n - 1, last + tail, k);
        assert(front + times_bytes(times, n - 1) + (last + tail) =~= b);
    }
}

proof fn lemma_count_at(front: Seq<u8>, counts: Seq<u32>, n: int, tail: Seq<u8>, k: int)
    requires
        0 <= k < n,
    ensures
        sidecar::u32_at(front + counts_bytes(counts, n) + tail, front.len() as int + 4 * k)
            == counts[k],
    decreases n,
{
    lemma_counts_len(counts, n - 1);
    let b = front + counts_bytes(counts, n) + tail;
    let last = le::le(counts[n - 1] as nat, 4);
    if k == n - 1 {
        lemma_u32_found(front + counts_bytes(counts, n - 1), counts[k], tail);
        assert(front + counts_bytes(counts, n - 1) + last + tail =~= b);
    } else {
        lemma_count_at(front, counts, n - 1, last + tail, k);
        assert(front + counts_bytes(counts, n - 1) + (last + tail) =~= b);
    }
}

proof fn lemma_front(m: EpochModel, tail: Seq<u8>)
    ensures
        front_bytes(m).len() == 41,
        ({
            let b = front_bytes(m) + tail;
            &&& b.take(8) == epoch_magic()
            &&& b[8] == m.current
            &&& u64_at(b, 9) == m.bytes_since_advance
            &&& u64_at(b, 17) == m.bytes_per_epoch
            &&& u64_at(b, 25) == m.cap_bytes
            &&& u64_at(b, 33) == m.total_chunks
        }),
{
    let b = front_bytes(m) + tail;
    le::lemma_le_len(m.bytes_since_advance as nat, 8);
    le::lemma_le_len(m.bytes_per_epoch as nat, 8);
    le::lemma_le_len(m.cap_bytes as nat, 8);
    le::lemma_le_len(m.total_chunks as nat, 8);
    let (a1, a2, a3, a4) = (
        le::le(m.bytes_since_advance as nat, 8),
        le::le(m.bytes_per_epoch as nat, 8),
        le::le(m.cap_bytes as nat, 8),
        le::le(m.total_chunks as nat, 8),
    );
    let f = epoch_magic() + seq![m.current];
    assert(b.take(8) =~= epoch_magic());
    lemma_u64_at(f, m.bytes_since_advance, a2 + a3 + a4 + tail);
    assert(f + a1 + (a2 + a3 + a4 + tail) =~= b);
    lemma_u64_at(f + a1, m.bytes_per_epoch, a3 + a4 + tail);
    assert(f + a1 + a2 + (a3 + a4 + tail) =~= b);
    lemma_u64_at(f + a1 + a2, m.cap_bytes, a4 + tail);
    assert(f + a1 + a2 + a3 + (a4 + tail) =~= b);
    lemma_u64_at(f + a1 + a2 + a3, m.total_chunks, tail);
    assert(f + a1 + a2 + a3 + a4 + tail =~= b);
}

/// Bookkeeping that is stored and taken up again is the same, provided that no
/// epoch was entered in second zero, which stands for "never".
pub proof fn law_epoch_round_trip(m: EpochModel)
    requires
        m.epoch_times.len() == 256,
        m.epoch_chunks.len() == 256,
        forall|e: int| 0 <= e < 256 ==> #[trigger] m.epoch_times[e] != Some(0u64),
    ensures
        stored(m).len() == EPOCH_BYTES,
        parsed(stored(m)) == Some(m),
{
    let tb = times_bytes(m.epoch_times, 256);
    let cb = counts_bytes(m.epoch_chunks, 256);
    let b = stored(m);
    lemma_times_len(m.epoch_times, 256);
    lemma_counts_len(m.epoch_chunks, 256);
    lemma_front(m, tb + cb);
    assert(front_bytes(m) + (tb + cb) =~= b);
    assert(b.len() == 3113);
    let p = parsed(b)->0;
    assert forall|e: int| 0 <= e < 256 implies #[trigger] p.epoch_times[e] == m.epoch_times[e] by {
        lemma_time_at(front_bytes(m), m.epoch_times, 256, cb, e);
        assert(m.epoch_times[e] != Some(0u64));
    }
    assert forall|e: int| 0 <= e < 256 implies #[trigger] p.epoch_chunks[e] == m.epoch_chunks[e] by {
        lemma_count_at(front_bytes(m) + tb, m.epoch_chunks, 256, Seq::empty(), e);
        assert(front_bytes(m) + tb + cb + Seq::<u8>::empty() =~= b);
    }
    assert(p.epoch_times =~= m.epoch_times);
    assert(p.epoch_chunks =~= m.epoch_chunks);
    assert(p =~= m);
}

/// The counts by epoch add up to the number of chunks.
pub open spec fn balanced(m: EpochModel) -> bool {
    &&& m.epoch_chunks.len() == 256
    &&& purge::counted(m.epoch_chunks, 256) == m.total_chunks
}

proof fn lemma_counted_update(h: Seq<u32>, e: int, v: u32, n: int)
    requires
        0 <= e < h.len(),
        0 <= n <= h.len(),
    ensures
        purge::counted(h.update(e, v), n) == purge::counted(h, n) + (if e < n {
            v - h[e]
        } else {
            0
        }),
    decreases n,
{
    if n > 0 {
        lemma_counted_update(h, e, v, n - 1);
    }
}

/// Writing a chunk keeps the counts in balance, while no count is at its
/// largest.
pub proof fn law_balance_kept_by_fill(m: EpochModel, bytes: u64, now: u64)
    requires
        balanced(m),
        m.total_chunks < u64::MAX,
        forall|e: int| 0 <= e < 256 ==> #[trigger] m.epoch_chunks[e] < u32::MAX,
    ensures
        balanced(filled(m, bytes, now)),
        filled(m, bytes, now).total_chunks == m.total_chunks + 1,
{
    let c = filled(m, bytes, now).current as int;
    assert(m.epoch_chunks[c] < u32::MAX);
    lemma_counted_update(m.epoch_chunks, c, plus_one_u32(m.epoch_chunks[c]), 256);
}

/// Using a chunk keeps the counts in balance and the number of chunks as it
/// is, while no count is at its largest.
pub proof fn law_balance_kept_by_access(m: EpochModel, old_epoch: u8, new_epoch: u8)
    requires
        balanced(m),
        m.epoch_chunks[old_epoch as int] > 0,
        forall|e: int| 0 <= e < 256 ==> #[trigger] m.epoch_chunks[e] < u32::MAX,
    ensures
        balanced(moved(m, old_epoch, new_epoch)),
        moved(m, old_epoch, new_epoch).total_chunks == m.total_chunks,
{
    let o = old_epoch as int;
    let n = new_epoch as int;
    let less = m.epoch_chunks.update(o, minus_one_u32(m.epoch_chunks[o]));
    lemma_counted_update(m.epoch_chunks, o, minus_one_u32(m.epoch_chunks[o]), 256);
    assert(m.epoch_chunks[n] < u32::MAX);
    lemma_counted_update(less, n, plus_one_u32(less[n]), 256);
}

/// Giving a chunk up keeps the counts in balance, and undoes its counting.
pub proof fn law_evict_undoes_count(m: EpochModel, epoch: u8)
    requires
        balanced(m),
        m.total_chunks < u64::MAX,
        m.epoch_chunks[epoch as int] < u32::MAX,
    ensures
        balanced(one_counted(m, epoch)),
        evicted(one_counted(m, epoch), epoch) == m,
{
    let e = epoch as int;
    lemma_counted_update(m.epoch_chunks, e, plus_one_u32(m.epoch_chunks[e]), 256);
    let back = evicted(one_counted(m, epoch), epoch);
    assert(back.epoch_chunks =~= m.epoch_chunks);
    assert(back =~= m);
}

/// Giving a counted chunk up keeps the counts in balance.
pub proof fn law_balance_kept_by_evict(m: EpochModel, epoch: u8)
    requires
        balanced(m),
        m.epoch_chunks[epoch as int] > 0,
    ensures
        balanced(evicted(m, epoch)),
        evicted(m, epoch).total_chunks == m.total_chunks - 1,
{
    let e = epoch as int;
    lemma_counted_update(m.epoch_chunks, e, minus_one_u32(m.epoch_chunks[e]), 256);
    lemma_counted_at_least(m.epoch_chunks, e, 256);
}

proof fn lemma_counted_at_least(h: Seq<u32>, e: int, n: int)
    requires
        0 <= e < n <= h.len(),
    ensures
        purge::counted(h, n) >= h[e],
        purge::counted(h, n) >= 0,
    decreases n,
{
    lemma_counted_nonneg(h, n - 1);
    if e < n - 1 {
        lemma_counted_at_least(h, e, n - 1);
    }
}

proof fn lemma_counted_nonneg(h: Seq<u32>, n: int)
    ensures
        purge::counted(h, n) >= 0,
    decreases n,
{
    if n > 0 {
        lemma_counted_nonneg(h, n - 1);
    }
}

/// What is written moves the epochs on: each time the bytes of an epoch are
/// full another begins, and the rest counts for the next. So after a chunk was
/// written, the epochs begun and the bytes left over account for all that was
/// written since the last began. The chunk counts for the epoch that runs then,
/// and the epochs that began carry the time.
pub proof fn law_writing_moves_the_epochs_on(m: EpochModel, bytes: u64, now: u64) -> (k: int)
    requires
        m.epoch_times.len() == 256,
        m.epoch_chunks.len() == 256,
        m.bytes_per_epoch > 0,
        m.bytes_since_advance + bytes <= u64::MAX,
        m.bytes_since_advance + bytes < 256 * m.bytes_per_epoch,
    ensures
        ({
            let after = filled(m, bytes, now);
            let e = after.current as int;
            &&& 0 <= k < 256
            &&& e == m.current + k || e == m.current + k - 256
            &&& k * m.bytes_per_epoch + after.bytes_since_advance == m.bytes_since_advance + bytes
            &&& after.bytes_since_advance < m.bytes_per_epoch
            &&& m.epoch_chunks[e] < u32::MAX ==> after.epoch_chunks[e] == m.epoch_chunks[e] + 1
            &&& forall|i: int|
                0 <= i < 256 && i != e ==> #[trigger] after.epoch_chunks[i] == m.epoch_chunks[i]
            &&& forall|j: int|
                1 <= j <= k ==> after.epoch_times[#[trigger] epoch_after(m.current, j)] == Some(now)
            &&& forall|j: int|
                k < j <= 256 ==> after.epoch_times[#[trigger] epoch_after(m.current, j)]
                    == m.epoch_times[epoch_after(m.current, j)]
            &&& after.bytes_per_epoch == m.bytes_per_epoch
            &&& after.cap_bytes == m.cap_bytes
        }),
{
    let sum = (m.bytes_since_advance + bytes) as u64;
    let p = m.bytes_per_epoch as int;
    let k = sum as int / p;
    vstd::arithmetic::div_mod::lemma_fundamental_div_mod(sum as int, p);
    assert(p * k == k * p) by (nonlinear_arith);
    assert(0 <= k < 256) by (nonlinear_arith)
        requires
            k == sum as int / p,
            0 <= sum < 256 * p,
            p > 0,
    ;
    assert(advances(sum, m.bytes_per_epoch) == k);
    k
}

/// The epoch `j` after one, the numbers of epochs going round.
pub open spec fn epoch_after(e: u8, j: int) -> int {
    if e + j < 256 {
        e + j
    } else {
        e + j - 256
    }
}

/// A chunk that is used again leaves the count of the epoch it was last used in
/// and enters that of the running one; a chunk that is given up leaves its
/// count. No other epoch's count changes.
pub proof fn law_use_and_loss_change_their_own_counts(m: EpochModel, from: u8, to: u8)
    requires
        m.epoch_chunks.len() == 256,
        from != to,
        m.epoch_chunks[from as int] > 0,
        m.epoch_chunks[to as int] < u32::MAX,
        m.total_chunks > 0,
    ensures
        ({
            let used = moved(m, from, to);
            let gone = evicted(m, from);
            &&& used.epoch_chunks[from as int] == m.epoch_chunks[from as int] - 1
            &&& used.epoch_chunks[to as int] == m.epoch_chunks[to as int] + 1
            &&& used.total_chunks == m.total_chunks
            &&& gone.epoch_chunks[from as int] == m.epoch_chunks[from as int] - 1
            &&& gone.epoch_chunks[to as int] == m.epoch_chunks[to as int]
            &&& gone.total_chunks == m.total_chunks - 1
            &&& forall|i: int|
                0 <= i < 256 && i != from && i != to ==> #[trigger] used.epoch_chunks[i]
                    == m.epoch_chunks[i] && gone.epoch_chunks[i] == m.epoch_chunks[i]
        }),
{
}

/// How many of the first `n` chunks of a level are resident and were last used
/// in an epoch.
pub open spec fn residents_of(states: Seq<u8>, epochs: Seq<u8>, e: u8, n: int) -> int
    decreases n,
{
    if n <= 0 {
        0
    } else {
        residents_of(states, epochs, e, n - 1) + (if states[n - 1] == 1 && epochs[n - 1] == e {
            1int
        } else {
            0
        })
    }
}

/// How many of the first `n` chunks of a level are resident.
pub open spec fn residents(states: Seq<u8>, n: int) -> int
    decreases n,
{
    if n <= 0 {
        0
    } else {
        residents(states, n - 1) + (if states[n - 1] == 1 {
            1int
        } else {
            0
        })
    }
}

/// Counting a level adds to each epoch the resident chunks last used in it, and
/// all of them to the number of chunks.
pub proof fn law_counting_adds_the_residents(m: EpochModel, states: Seq<u8>, epochs: Seq<u8>, n: int, e: u8)
    requires
        0 <= n <= states.len(),
        states.len() == epochs.len(),
        m.epoch_chunks.len() == 256,
        m.epoch_chunks[e as int] + n <= u32::MAX,
        m.total_chunks + n <= u64::MAX,
    ensures
        ({
            let after = level_counted(m, states, epochs, n);
            &&& after.epoch_chunks.len() == 256
            &&& after.epoch_chunks[e as int] == m.epoch_chunks[e as int] + residents_of(states, epochs, e, n)
            &&& after.total_chunks == m.total_chunks + residents(states, n)
            &&& 0 <= residents_of(states, epochs, e, n) <= n
            &&& 0 <= residents(states, n) <= n
            &&& after.current == m.current
        }),
    decreases n,
{
    if n > 0 {
        law_counting_adds_the_residents(m, states, epochs, n - 1, e);
    }
}

/// Counting the levels counts one after the other.
pub proof fn law_every_level_is_counted(
    m: EpochModel,
    states: Seq<Seq<u8>>,
    epochs: Seq<Seq<u8>>,
    k: int,
)
    requires
        0 <= k < states.len(),
        states.len() == epochs.len(),
    ensures
        levels_counted(m, states, epochs, 0) == m,
        levels_counted(m, states, epochs, k + 1) == level_counted(
            levels_counted(m, states, epochs, k),
            states[k],
            epochs[k],
            states[k].len() as int,
        ),
{
}

/// How much is to be given up: once a cache holds nineteen twentieths of the
/// chunks that its cap has room for, so many that four fifths are left; on a
/// disk with less than five gibibytes free, at least so many that these are; and
/// otherwise nothing.
pub proof fn law_purge_brings_the_cache_down(total: u64, cap: u64, free: Option<u64>)
    requires
        cap > 0,
    ensures
        ({
            let room = cap as int / 262144;
            let goal = purge_goal(total, cap, free);
            let short = free matches Some(f) && f < 5 * 1024 * 1024 * 1024;
            &&& total >= (95 * room) / 100 ==> total - goal <= (80 * room) / 100
            &&& total >= (95 * room) / 100 && !short ==> total - goal == (80 * room) / 100
            &&& free matches Some(f) ==> f + 262144 * goal >= 5 * 1024 * 1024 * 1024
            &&& total < (95 * room) / 100 && !short ==> goal == 0
            &&& total < (95 * room) / 100 && (free matches Some(f) && f < 5 * 1024 * 1024 * 1024) ==> free->0
                + 262144 * (goal - 1) < 5 * 1024 * 1024 * 1024
            &&& goal >= 0
        }),
{
    let room = cap as int / 262144;
    assert(room >= 0);
    assert((80 * room) / 100 <= (95 * room) / 100);
    assert(room * HIGH_WATER_PCT == 95 * room && room * LOW_WATER_PCT == 80 * room);
}

/// A cap of nothing turns giving up off.
pub proof fn law_no_cap_no_purge(total: u64, free: Option<u64>)
    ensures
        purge_goal(total, 0, free) == 0,
{
}

/// Where the fields stand in what is stored: eight bytes that tell the format,
/// the running epoch, four numbers of eight bytes, the times of all epochs in
/// eight bytes each and their counts in four, the least significant byte first.
pub proof fn law_stored_layout(m: EpochModel, e: int)
    requires
        m.epoch_times.len() == 256,
        m.epoch_chunks.len() == 256,
        forall|e: int| 0 <= e < 256 ==> #[trigger] m.epoch_times[e] != Some(0u64),
        0 <= e < 256,
    ensures
        ({
            let b = stored(m);
            &&& b.len() == 41 + 256 * 8 + 256 * 4
            &&& b.take(8) == seq![86u8, 67, 69, 80, 79, 48, 48, 49]
            &&& b[8] == m.current
            &&& le::from_le(b.subrange(9, 17)) == m.bytes_since_advance
            &&& le::from_le(b.subrange(17, 25)) == m.bytes_per_epoch
            &&& le::from_le(b.subrange(25, 33)) == m.cap_bytes
            &&& le::from_le(b.subrange(33, 41)) == m.total_chunks
            &&& le::from_le(b.subrange(41 + 8 * e, 49 + 8 * e)) == (match m.epoch_times[e] {
                Some(t) => t,
                None => 0,
            })
            &&& le::from_le(b.subrange(2089 + 4 * e, 2093 + 4 * e)) == m.epoch_chunks[e]
        }),
{
    law_epoch_round_trip(m);
    let b = stored(m);
    let p = parsed(b)->0;
    assert(p == m);
    assert(p.epoch_times[e] == m.epoch_times[e] && p.epoch_chunks[e] == m.epoch_chunks[e]);
    assert(b.take(8) == epoch_magic());
    lemma_eight_bytes(b, 9);
    lemma_eight_bytes(b, 17);
    lemma_eight_bytes(b, 25);
    lemma_eight_bytes(b, 33);
    lemma_eight_bytes(b, 41 + 8 * e);
    le::lemma_from_le_bound(b.subrange(2089 + 4 * e, 2093 + 4 * e));
    le::lemma_pow256_table();
}

proof fn lemma_eight_bytes(b: Seq<u8>, at: int)
    requires
        0 <= at,
        at + 8 <= b.len(),
    ensures
        u64_at(b, at) == le::from_le(b.subrange(at, at + 8)),
{
    le::lemma_from_le_bound(b.subrange(at, at + 8));
    le::lemma_pow256_table();
}

/// A configured cap counts in gibibytes, with or without white space around it,
/// as far as numbers go.
pub proof fn law_cap_counts_in_gibibytes(before: Seq<char>, n: u64, after: Seq<char>)
    requires
        forall|i: int| 0 <= i < before.len() ==> text::is_white_space(#[trigger] before[i]),
        forall|i: int| 0 <= i < after.len() ==> text::is_white_space(#[trigger] after[i]),
        n > 0,
    ensures
        ({
            let cap = configured_cap(Some(before + text::decimal(n as nat) + after));
            &&& n < 0x4_0000_0000 ==> cap == 1_073_741_824 * n
            &&& n >= 0x4_0000_0000 ==> cap == 0xFFFF_FFFF_FFFF_FFFF
        }),
{
    text::law_numeral_needs_no_trimming(before, n as nat, after);
    text::law_numeral_reads_back(n as nat, 0, u64::MAX as nat);
}

/// Every victim whose bytes were reclaimed, or had no file, is taken off the
/// cache's count; one that failed is not.
pub proof fn law_victims_are_taken_off_the_count(m: EpochModel, victims: Seq<Victim>, done: Seq<Reclaimed>, n: int)
    requires
        0 <= n <= done.len(),
        m.total_chunks >= n,
    ensures
        victims_recorded(m, victims, done, n).total_chunks == m.total_chunks - freed_count(done, n),
        0 <= freed_count(done, n) <= n,
        n > 0 ==> freed_count(done, n) - freed_count(done, n - 1) == (if done[n - 1] == Reclaimed::Failed {
            0int
        } else {
            1int
        }),
    decreases n,
{
    if n > 0 {
        law_victims_are_taken_off_the_count(m, victims, done, n - 1);
    }
}

/// The sum of some numbers.
pub open spec fn plain_sum(counts: Seq<u64>) -> int
    decreases counts.len(),
{
    if counts.len() == 0 {
        0
    } else {
        counts[0] + plain_sum(counts.skip(1))
    }
}

/// What the targets gave up is added up, as far as numbers go.
pub proof fn law_given_up_chunks_add_up(counts: Seq<u64>)
    ensures
        plain_sum(counts) <= u64::MAX ==> capped_sum(counts) == plain_sum(counts),
        plain_sum(counts) > u64::MAX ==> capped_sum(counts) == u64::MAX,
        plain_sum(counts) >= 0,
    decreases counts.len(),
{
    if counts.len() > 0 {
        let front = counts.drop_last();
        law_given_up_chunks_add_up(front);
        lemma_sum_from_the_end(counts);
    }
}

proof fn lemma_sum_from_the_end(counts: Seq<u64>)
    requires
        counts.len() > 0,
    ensures
        plain_sum(counts) == plain_sum(counts.drop_last()) + counts.last(),
    decreases counts.len(),
{
    if counts.len() > 1 {
        lemma_sum_from_the_end(counts.skip(1));
        assert(counts.skip(1).drop_last() =~= counts.drop_last().skip(1));
        assert(counts.skip(1).last() == counts.last());
    } else {
        assert(plain_sum(counts.skip(1)) == 0);
        assert(plain_sum(counts.drop_last()) == 0);
    }
}

/// All epochs together last for a tenth more than the cap, but for what rounding
/// takes away; each lasts for a byte at least.
pub proof fn law_epochs_cover_the_cap(cap_bytes: u64)
    ensures
        epoch_bytes(cap_bytes) >= 1,
        cap_bytes >= 233 ==> 10 * (256 * epoch_bytes(cap_bytes)) <= 11 * cap_bytes < 10 * (256 * (epoch_bytes(
            cap_bytes,
        ) + 1)),
        cap_bytes < 233 ==> epoch_bytes(cap_bytes) == 1,
{
}

} // verus!
