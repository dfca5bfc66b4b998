//! The cache's upkeep: what ties the store, the epochs and the scheduler
//! together when chunks arrive, are used, are previewed and are given up.
use crate::cache;
use crate::cache::{cooldown, Scheduler};
use crate::chunk;
use crate::chunk::{pow2_u64, ChunkKey, ChunkState, ShardCoord, CHUNK_VOXELS};
use crate::disk;
use crate::disk::{DiskStore, LoadOutcome, WriteOutcome};
use crate::epoch;
use crate::epoch::EpochState;
use crate::purge::Victim;
use crate::sidecar::{STATE_LOCKED, STATE_MISSING, STATE_RESIDENT};
use crate::slots::SlotModel;
use crate::volume;
use crate::volume::{ancestor_of, voxel_offset, ShardRequest};
use vstd::prelude::*;

verus! {

/// How many levels up a preview is looked for at most: further up a chunk is
/// smaller than a voxel.
pub const MAX_PREVIEW_SHIFT: u8 = 6;

/// Whether the store holds a chunk's voxels.
pub open spec fn stored(store: &DiskStore, key: ChunkKey) -> bool {
    store.has(key) && store.slot_state(key) == STATE_RESIDENT
}

/// Whether a chunk's voxels are stored in a file that can be opened; `refused`
/// names the shards whose files cannot be.
pub open spec fn usable(store: &DiskStore, refused: Seq<ShardRequest>, key: ChunkKey) -> bool {
    stored(store, key) && !refused.contains(
        ShardRequest { lod: key.lod, shard: store.place(key).shard },
    )
}

fn is_refused(refused: &Vec<ShardRequest>, lod: u8, shard: ShardCoord) -> (r: bool)
    ensures
        r == refused@.contains(ShardRequest { lod, shard }),
{
    let mut i: usize = 0;
    while i < refused.len()
        invariant
            i <= refused@.len(),
            forall|j: int| 0 <= j < i ==> #[trigger] refused@[j] != (ShardRequest { lod, shard }),
        decreases refused.len() - i,
    {
        if refused[i].lod == lod && refused[i].shard == shard {
            assert(refused@[i as int] == (ShardRequest { lod, shard }));
            return true;
        }
        i = i + 1;
    }
    false
}

/// How many levels up a preview is looked for.
pub open spec fn preview_top(lod: u8, max_lod: u8) -> int {
    if lod >= max_lod {
        0
    } else if max_lod - lod < MAX_PREVIEW_SHIFT {
        max_lod - lod
    } else {
        MAX_PREVIEW_SHIFT as int
    }
}

/// The fewest levels up, from `shift` to `top`, at which a chunk's voxels are
/// stored and can be read.
pub open spec fn finest_stored(
    store: &DiskStore,
    refused: Seq<ShardRequest>,
    key: ChunkKey,
    shift: int,
    top: int,
) -> Option<int>
    decreases top + 1 - shift,
{
    if shift > top {
        None
    } else if usable(store, refused, volume::ancestor(key, shift)) {
        Some(shift)
    } else {
        finest_stored(store, refused, key, shift + 1, top)
    }
}

/// What a preview of a chunk is made from.
#[derive(Debug, Clone, Copy, PartialEq, Eq, Structural)]
pub struct PreviewSource {
    pub parent: ChunkKey,
    /// How many levels up it is.
    pub shift: u8,
    pub shard: ShardCoord,
    pub offset: u64,
}

/// Whether this is the chunk `shift` levels above another, where it is stored.
pub open spec fn is_preview_source(
    store: &DiskStore,
    key: ChunkKey,
    shift: int,
    p: PreviewSource,
) -> bool {
    let parent = volume::ancestor(key, shift);
    &&& p.parent == parent
    &&& p.shift == shift
    &&& p.shard == store.place(parent).shard
    &&& p.offset == store.slot_offset(parent)
}

/// What a preview of a chunk is made from: the finest coarser chunk over it
/// whose voxels are stored, six levels up at most. Chunks in shards that the
/// host could not open, which `refused` names, are passed over.
pub fn try_upscale_from_parent(
    store: &DiskStore,
    refused: &Vec<ShardRequest>,
    key: ChunkKey,
    max_lod: u8,
) -> (r: Option<PreviewSource>)
    requires
        store.wf(),
    ensures
        match finest_stored(store, refused@, key, 1, preview_top(key.lod, max_lod)) {
            None => r is None,
            Some(shift) => r matches Some(p) && is_preview_source(store, key, shift, p),
        },
{
    if key.lod >= max_lod {
        return None;
    }
    let top: u8 = if max_lod - key.lod < MAX_PREVIEW_SHIFT {
        max_lod - key.lod
    } else {
        MAX_PREVIEW_SHIFT
    };
    let mut shift: u8 = 1;
    while shift <= top
        invariant
            store.wf(),
            1 <= shift <= top + 1,
            top <= MAX_PREVIEW_SHIFT,
            key.lod + top <= max_lod,
            top == preview_top(key.lod, max_lod),
            finest_stored(store, refused@, key, 1, top as int) == finest_stored(
                store,
                refused@,
                key,
                shift as int,
                top as int,
            ),
        decreases top + 1 - shift,
    {
        let parent = ancestor_of(key, shift);
        let shard = store.shard_of_chunk(parent);
        match store.load(parent, !is_refused(refused, parent.lod, shard)) {
            LoadOutcome::Resident { shard, offset } => {
                return Some(PreviewSource { parent, shift, shard, offset });
            },
            _ => {},
        }
        shift = shift + 1;
    }
    None
}

/// Whether a use of a chunk counts: the store has it, and it was last used in
/// another epoch than the running one.
pub open spec fn use_counts(store: &DiskStore, current: u8, key: ChunkKey) -> bool {
    store.has(key) && store.sidecar.epoch(key.lod, store.place(key).sidecar_idx) != current
}

/// Whether the store is the same but for the stamp of a chunk that was used.
pub open spec fn access_noted(before: &DiskStore, after: &DiskStore, current: u8, key: ChunkKey) -> bool {
    &&& after.wf()
    &&& after.shard_chunks_per_axis == before.shard_chunks_per_axis
    &&& after.shards == before.shards
    &&& after.sidecar.header == before.sidecar.header
    &&& after.sidecar.model() == (if use_counts(before, current, key) {
        before.sidecar.model().with_epoch(
            key.lod as int,
            before.place(key).sidecar_idx as int,
            current,
        ).one_more_pending(key.lod as int)
    } else {
        before.sidecar.model()
    })
}

/// The epochs' counts after a chunk was used.
pub open spec fn access_counted(
    store: &DiskStore,
    m: epoch::EpochModel,
    key: ChunkKey,
) -> epoch::EpochModel {
    if use_counts(store, m.current, key) {
        epoch::moved(
            m,
            store.sidecar.epoch(key.lod, store.place(key).sidecar_idx),
            m.current,
        )
    } else {
        m
    }
}

/// Notes that a chunk was used in the running epoch: its stamp and the epochs'
/// counts follow.
pub fn touch_access(store: &mut DiskStore, epochs: &mut EpochState, key: ChunkKey)
    requires
        old(store).wf(),
    ensures
        access_noted(old(store), final(store), old(epochs).current, key),
        final(epochs).model() == access_counted(old(store), old(epochs).model(), key),
        final(epochs).accumulated == old(epochs).accumulated,
{
    let current = epochs.current();
    let was = match store.get_access_epoch(key) {
        Some(e) => e,
        None => {
            return ;
        },
    };
    if was == current {
        return ;
    }
    match store.cas_access_epoch(key, was, current) {
        Some(Ok(_)) => {
            epochs.record_access_transition(was, current);
        },
        _ => {},
    }
}

/// Ends a preview that was made from `parent`: `wrote` says whether its bytes
/// were written, or the slot was no longer missing, or the write failed
/// (`None`). The parent counts as used unless the write failed, and a chunk
/// that got its preview is stamped with the running epoch.
pub fn preview_ended(
    store: &mut DiskStore,
    epochs: &mut EpochState,
    key: ChunkKey,
    parent: ChunkKey,
    wrote: Option<bool>,
)
    requires
        old(store).wf(),
    ensures
        final(store).wf(),
        final(store).shard_chunks_per_axis == old(store).shard_chunks_per_axis,
        final(store).shards == old(store).shards,
        final(store).sidecar.header == old(store).sidecar.header,
        final(epochs).accumulated == old(epochs).accumulated,
        wrote is None ==> *final(store) == *old(store) && *final(epochs) == *old(epochs),
        wrote == Some(false) ==> access_noted(
            old(store),
            final(store),
            old(epochs).current,
            parent,
        ),
        wrote is Some ==> final(epochs).model() == access_counted(
            old(store),
            old(epochs).model(),
            parent,
        ),
        wrote == Some(true) ==> ({
            let current = old(epochs).current;
            let used = if use_counts(old(store), current, parent) {
                old(store).sidecar.model().with_epoch(
                    parent.lod as int,
                    old(store).place(parent).sidecar_idx as int,
                    current,
                ).one_more_pending(parent.lod as int)
            } else {
                old(store).sidecar.model()
            };
            final(store).sidecar.model() == (if old(store).has(key) {
                used.with_epoch(key.lod as int, old(store).place(key).sidecar_idx as int, current)
            } else {
                used
            })
        }),
{
    match wrote {
        None => {},
        Some(true) => {
            touch_access(store, epochs, parent);
            let current = epochs.current();
            store.set_access_epoch(key, current);
        },
        Some(false) => {
            touch_access(store, epochs, parent);
        },
    }
}

/// What became of a chunk's voxels.
#[derive(Debug, Clone, Copy, PartialEq, Eq, Structural)]
pub enum Primary {
    /// They were written to the store, or not needed there.
    Stored(WriteOutcome),
    /// They could not be written.
    Failed,
    /// There are none.
    Empty,
}

/// The state to publish for a chunk whose voxels have come. A chunk that was
/// written is counted and stamped; one without voxels is noted as empty; a
/// failure is tried again after a rest, and so is a chunk whose shard cannot be
/// opened to read it back, which `opened` tells. Times are in milliseconds and
/// seconds.
pub fn primary_state(
    store: &mut DiskStore,
    epochs: &mut EpochState,
    key: ChunkKey,
    primary: Primary,
    opened: bool,
    now_ms: u64,
    now_s: u64,
) -> (s: ChunkState)
    requires
        old(store).wf(),
    ensures
        final(store).wf(),
        final(store).shard_chunks_per_axis == old(store).shard_chunks_per_axis,
        final(epochs).accumulated == old(epochs).accumulated,
        s == (match primary {
            Primary::Stored(WriteOutcome::AlreadyEmpty) => ChunkState::Empty,
            Primary::Stored(_) => if opened && stored(old(store), key) {
                ChunkState::Resident {
                    shard: old(store).place(key).shard,
                    offset: old(store).slot_offset(key),
                }
            } else {
                cache::resting(now_ms, cache::COOLDOWN_MS)
            },
            Primary::Failed => cache::resting(now_ms, cache::COOLDOWN_MS),
            Primary::Empty => ChunkState::Empty,
        }),
        match primary {
            Primary::Stored(WriteOutcome::Wrote) => {
                &&& final(epochs).model() == epoch::filled(
                    old(epochs).model(),
                    CHUNK_VOXELS as u64,
                    now_s,
                )
                &&& final(store).shards == old(store).shards
                &&& final(store).sidecar.header == old(store).sidecar.header
                &&& final(store).sidecar.model() == (if old(store).has(key) {
                    old(store).sidecar.model().with_epoch(
                        key.lod as int,
                        old(store).place(key).sidecar_idx as int,
                        final(epochs).current,
                    )
                } else {
                    old(store).sidecar.model()
                })
            },
            Primary::Empty => {
                &&& *final(epochs) == *old(epochs)
                &&& !(opened && old(store).has(key)) ==> *final(store) == *old(store)
                &&& opened && old(store).has(key) ==> {
                    &&& final(store).slot_changed(old(store), key, crate::sidecar::STATE_EMPTY)
                    &&& final(store).bits_updated(
                        old(store),
                        key.lod,
                        old(store).place(key).shard,
                        old(store).place(key).in_shard_idx as int,
                        crate::bits::ChunkBitState::Empty,
                    )
                }
            },
            _ => *final(epochs) == *old(epochs) && *final(store) == *old(store),
        },
{
    match primary {
        Primary::Empty => {
            let _ = store.mark_empty(key, opened);
            ChunkState::Empty
        },
        Primary::Failed => cooldown(now_ms),
        Primary::Stored(WriteOutcome::AlreadyEmpty) => ChunkState::Empty,
        Primary::Stored(outcome) => {
            let found = store.try_load(key, opened);
            match outcome {
                WriteOutcome::Wrote => {
                    let e = epochs.record_fill(CHUNK_VOXELS as u64, now_s);
                    store.set_access_epoch(key, e);
                },
                _ => {},
            }
            match found {
                Some((shard, offset)) => ChunkState::Resident { shard, offset },
                None => cooldown(now_ms),
            }
        },
    }
}

impl Scheduler {
    /// Forgets what is known of a chunk's state.
    pub fn forget(&mut self, key: ChunkKey)
        requires
            old(self).wf(),
        ensures
            final(self).wf(),
            final(self).model() == old(self).model().with_slot(
                key,
                SlotModel { state: None, ..old(self).model().chunks[key] },
            ),
            final(self).same_limits(old(self)),
    {
        let ghost before = self.model();
        self.chunks.set_state(key, None);
        assert(self.model() =~= before.with_slot(
            key,
            SlotModel { state: None, ..before.chunks[key] },
        ));
    }
}

/// Begins to give up a chunk: its slot is locked if its voxels are stored, and
/// it is then forgotten. The caller punches its bytes out and ends with
/// `end_purge`. False if the slot is not resident.
pub fn begin_purge(scheduler: &mut Scheduler, store: &mut DiskStore, victim: Victim) -> (r: bool)
    requires
        old(scheduler).wf(),
        old(store).wf(),
    ensures
        final(scheduler).wf(),
        final(store).wf(),
        r == stored(old(store), victim.key),
        !r ==> *final(store) == *old(store) && final(scheduler).model() == old(scheduler).model(),
        r ==> {
            &&& final(store).slot_changed(old(store), victim.key, STATE_LOCKED)
            &&& final(store).slot_state(victim.key) == STATE_LOCKED
            &&& final(store).bits_updated(
                old(store),
                victim.key.lod,
                old(store).place(victim.key).shard,
                old(store).place(victim.key).in_shard_idx as int,
                crate::bits::ChunkBitState::Unknown,
            )
            &&& final(scheduler).model() == old(scheduler).model().with_slot(
                victim.key,
                SlotModel { state: None, ..old(scheduler).model().chunks[victim.key] },
            )
        },
        final(store).shard_chunks_per_axis == old(store).shard_chunks_per_axis,
{
    if !store.begin_evict(victim.key) {
        return false;
    }
    scheduler.forget(victim.key);
    true
}

/// Ends giving up a chunk: its slot is missing, and the epochs' counts follow.
pub fn end_purge(store: &mut DiskStore, epochs: &mut EpochState, victim: Victim)
    requires
        old(store).wf(),
        old(store).has(victim.key),
        old(store).slot_state(victim.key) == STATE_LOCKED,
    ensures
        final(store).wf(),
        final(store).shard_chunks_per_axis == old(store).shard_chunks_per_axis,
        final(store).shards == old(store).shards,
        final(store).slot_changed(old(store), victim.key, STATE_MISSING),
        final(epochs).model() == epoch::evicted(old(epochs).model(), victim.access_epoch),
        final(epochs).accumulated == old(epochs).accumulated,
{
    store.end_evict(victim.key);
    epochs.record_evict(victim.access_epoch);
}

/// Whether to go on waiting for a chunk: it is pending, and the time is not
/// up.
pub fn keeps_waiting(state: ChunkState, elapsed: u64, timeout: u64) -> (r: bool)
    ensures
        r == (state is Pending && elapsed < timeout),
{
    match state {
        ChunkState::Pending { .. } => elapsed < timeout,
        _ => false,
    }
}

/// The voxel of a chunk that stands at a position; zero where the chunk has not
/// come.
pub fn voxel(bytes: Option<&[u8]>, x: u32, y: u32, z: u32) -> (v: u8)
    requires
        bytes matches Some(b) ==> b@.len() == CHUNK_VOXELS,
    ensures
        v == (match bytes {
            Some(b) => b@[volume::voxel_place(x as int, y as int, z as int)],
            None => 0,
        }),
{
    match bytes {
        Some(b) => b[voxel_offset(x as u64, y as u64, z as u64)],
        None => 0,
    }
}

/// The last chunk of a level along an axis; the first if there is none.
pub open spec fn last_chunk(extent: u32, lod: u8) -> int {
    let span = 64 * (chunk::pow2(lod as nat) as int);
    let n = (extent + span - 1) / span;
    if n < 1 {
        0
    } else {
        n - 1
    }
}

/// The first and last chunk of a level between two voxels of it on an axis.
/// Chunks that do not exist do not count.
pub open spec fn chunk_span(min: i64, max: i64, extent: u32, lod: u8) -> (int, int) {
    let lo = if min < 0 {
        0
    } else {
        min as int / 64
    };
    let hi = if max < 0 {
        0
    } else {
        max as int / 64
    };
    let last = last_chunk(extent, lod);
    (lo, if hi < last {
        hi
    } else {
        last
    })
}

/// The chunks of a row, `n` of them from `lo`.
pub open spec fn row_keys(lod: u8, lo: int, n: nat, y: int, z: int) -> Seq<ChunkKey> {
    Seq::new(n, |i: int| ChunkKey { lod, x: (lo + i) as u32, y: y as u32, z: z as u32 })
}

/// The chunks of `n` rows from `lo_y`.
pub open spec fn plane_keys(lod: u8, lo_x: int, nx: nat, lo_y: int, n: nat, z: int) -> Seq<ChunkKey>
    decreases n,
{
    if n == 0 {
        Seq::empty()
    } else {
        plane_keys(lod, lo_x, nx, lo_y, (n - 1) as nat, z) + row_keys(
            lod,
            lo_x,
            nx,
            lo_y + n - 1,
            z,
        )
    }
}

/// The chunks of `n` planes from `lo_z`.
pub open spec fn box_keys(
    lod: u8,
    lo_x: int,
    nx: nat,
    lo_y: int,
    ny: nat,
    lo_z: int,
    n: nat,
) -> Seq<ChunkKey>
    decreases n,
{
    if n == 0 {
        Seq::empty()
    } else {
        box_keys(lod, lo_x, nx, lo_y, ny, lo_z, (n - 1) as nat) + plane_keys(
            lod,
            lo_x,
            nx,
            lo_y,
            ny,
            lo_z + n - 1,
        )
    }
}

/// The chunks of a level between two of them on each axis, the ends included.
pub open spec fn keys_between(lod: u8, x: (int, int), y: (int, int), z: (int, int)) -> Seq<ChunkKey> {
    box_keys(
        lod,
        x.0,
        (x.1 - x.0 + 1) as nat,
        y.0,
        (y.1 - y.0 + 1) as nat,
        z.0,
        (z.1 - z.0 + 1) as nat,
    )
}

/// The level from which a box's previews are taken.
pub open spec fn preview_lod(target_lod: u8, max_lod: u8) -> int {
    if target_lod + MAX_PREVIEW_SHIFT < max_lod {
        target_lod + MAX_PREVIEW_SHIFT
    } else {
        max_lod as int
    }
}

/// The chunks to ask the cache for before a box of voxels is sampled: those of
/// the coarsest level that can serve for a preview, then those of the level
/// itself.
pub open spec fn box_requests(
    min: [i64; 3],
    max: [i64; 3],
    target_lod: u8,
    max_lod: u8,
    extent: [u32; 3],
) -> Seq<ChunkKey> {
    let x = chunk_span(min@[0], max@[0], extent@[0], target_lod);
    let y = chunk_span(min@[1], max@[1], extent@[1], target_lod);
    let z = chunk_span(min@[2], max@[2], extent@[2], target_lod);
    if target_lod > max_lod || x.1 < x.0 || y.1 < y.0 || z.1 < z.0 {
        Seq::empty()
    } else {
        let p = preview_lod(target_lod, max_lod);
        let target = keys_between(target_lod, x, y, z);
        if p > target_lod {
            let s = chunk::pow2((p - target_lod) as nat) as int;
            keys_between(p as u8, (x.0 / s, x.1 / s), (y.0 / s, y.1 / s), (z.0 / s, z.1 / s))
                + target
        } else {
            target
        }
    }
}

fn push_row(out: &mut Vec<ChunkKey>, lod: u8, lo: u32, hi: u32, y: u32, z: u32)
    requires
        lo <= hi < u32::MAX,
    ensures
        final(out)@ == old(out)@ + row_keys(lod, lo as int, (hi - lo + 1) as nat, y as int, z as int),
{
    let ghost head = out@;
    let mut x: u32 = lo;
    assert(head + row_keys(lod, lo as int, 0, y as int, z as int) =~= head);
    while x <= hi
        invariant
            lo <= x <= hi + 1,
            hi < u32::MAX,
            out@ == head + row_keys(lod, lo as int, (x - lo) as nat, y as int, z as int),
        decreases hi + 1 - x,
    {
        out.push(ChunkKey::new(lod, x, y, z));
        assert(out@ =~= head + row_keys(lod, lo as int, (x + 1 - lo) as nat, y as int, z as int));
        x = x + 1;
    }
}

fn push_plane(out: &mut Vec<ChunkKey>, lod: u8, x: (u32, u32), y: (u32, u32), z: u32)
    requires
        x.0 <= x.1 < u32::MAX,
        y.0 <= y.1 < u32::MAX,
    ensures
        final(out)@ == old(out)@ + plane_keys(
            lod,
            x.0 as int,
            (x.1 - x.0 + 1) as nat,
            y.0 as int,
            (y.1 - y.0 + 1) as nat,
            z as int,
        ),
{
    let ghost head = out@;
    let ghost nx = (x.1 - x.0 + 1) as nat;
    let mut b: u32 = y.0;
    assert(head + Seq::<ChunkKey>::empty() =~= head);
    while b <= y.1
        invariant
            x.0 <= x.1 < u32::MAX,
            nx == x.1 - x.0 + 1,
            y.0 <= b <= y.1 + 1,
            y.1 < u32::MAX,
            out@ == head + plane_keys(
                lod,
                x.0 as int,
                nx,
                y.0 as int,
                (b - y.0) as nat,
                z as int,
            ),
        decreases y.1 + 1 - b,
    {
        push_row(out, lod, x.0, x.1, b, z);
        assert(out@ =~= head + plane_keys(
            lod,
            x.0 as int,
            nx,
            y.0 as int,
            (b + 1 - y.0) as nat,
            z as int,
        ));
        b = b + 1;
    }
}

fn push_box(out: &mut Vec<ChunkKey>, lod: u8, x: (u32, u32), y: (u32, u32), z: (u32, u32))
    requires
        x.0 <= x.1 < u32::MAX,
        y.0 <= y.1 < u32::MAX,
        z.0 <= z.1 < u32::MAX,
    ensures
        final(out)@ == old(out)@ + keys_between(
            lod,
            (x.0 as int, x.1 as int),
            (y.0 as int, y.1 as int),
            (z.0 as int, z.1 as int),
        ),
{
    let ghost head = out@;
    let ghost nx = (x.1 - x.0 + 1) as nat;
    let ghost ny = (y.1 - y.0 + 1) as nat;
    let mut c: u32 = z.0;
    assert(head + Seq::<ChunkKey>::empty() =~= head);
    while c <= z.1
        invariant
            x.0 <= x.1 < u32::MAX,
            y.0 <= y.1 < u32::MAX,
            nx == x.1 - x.0 + 1,
            ny == y.1 - y.0 + 1,
            z.0 <= c <= z.1 + 1,
            z.1 < u32::MAX,
            out@ == head + box_keys(
                lod,
                x.0 as int,
                nx,
                y.0 as int,
                ny,
                z.0 as int,
                (c - z.0) as nat,
            ),
        decreases z.1 + 1 - c,
    {
        push_plane(out, lod, x, y, c);
        assert(out@ =~= head + box_keys(
            lod,
            x.0 as int,
            nx,
            y.0 as int,
            ny,
            z.0 as int,
            (c + 1 - z.0) as nat,
        ));
        c = c + 1;
    }
}

fn span_on_axis(min: i64, max: i64, extent: u32, lod: u8) -> (r: Option<(u32, u32)>)
    requires
        lod <= 31,
    ensures
        ({
            let s = chunk_span(min, max, extent, lod);
            match r {
                Some(p) => s.0 <= s.1 && p.0 == s.0 && p.1 == s.1 && 0 <= s.0 && s.1 < u32::MAX,
                None => s.1 < s.0,
            }
        }),
{
    proof {
        chunk::lemma_pow2_bounds(lod as nat);
        chunk::lemma_pow2_mono(lod as nat, 32);
        chunk::lemma_pow2_table();
    }
    let span: u64 = 64 * pow2_u64(lod);
    let n: u64 = (extent as u64 + span - 1) / span;
    proof {
        let e = extent as int;
        let s = span as int;
        assert((e + s - 1) / s <= e) by (nonlinear_arith)
            requires
                e >= 0,
                s >= 64,
        ;
    }
    let last: u64 = if n < 1 {
        0
    } else {
        n - 1
    };
    let lo: u64 = if min < 0 {
        0
    } else {
        min as u64 / 64
    };
    let hi: u64 = if max < 0 {
        0
    } else {
        max as u64 / 64
    };
    let hi: u64 = if hi < last {
        hi
    } else {
        last
    };
    if hi < lo {
        None
    } else {
        Some((lo as u32, hi as u32))
    }
}

/// The chunks to ask the cache for before a box of voxels of a level is
/// sampled (see `box_requests`).
pub fn touch_aabb(
    min: [i64; 3],
    max: [i64; 3],
    target_lod: u8,
    max_lod: u8,
    extent: [u32; 3],
) -> (out: Vec<ChunkKey>)
    requires
        max_lod <= 31,
    ensures
        out@ == box_requests(min, max, target_lod, max_lod, extent),
{
    let mut out: Vec<ChunkKey> = Vec::new();
    if target_lod > max_lod {
        return out;
    }
    let spans = (
        span_on_axis(min[0], max[0], extent[0], target_lod),
        span_on_axis(min[1], max[1], extent[1], target_lod),
        span_on_axis(min[2], max[2], extent[2], target_lod),
    );
    let (x, y, z) = match spans {
        (Some(x), Some(y), Some(z)) => (x, y, z),
        _ => {
            return out;
        },
    };
    let p: u8 = if target_lod + MAX_PREVIEW_SHIFT < max_lod {
        target_lod + MAX_PREVIEW_SHIFT
    } else {
        max_lod
    };
    if p > target_lod {
        proof {
            chunk::lemma_pow2_bounds((p - target_lod) as nat);
            let s = chunk::pow2((p - target_lod) as nat) as int;
            lemma_ends_scaled(x.0 as int, x.1 as int, s);
            lemma_ends_scaled(y.0 as int, y.1 as int, s);
            lemma_ends_scaled(z.0 as int, z.1 as int, s);
        }
        let s: u64 = pow2_u64(p - target_lod);
        push_box(
            &mut out,
            p,
            ((x.0 as u64 / s) as u32, (x.1 as u64 / s) as u32),
            ((y.0 as u64 / s) as u32, (y.1 as u64 / s) as u32),
            ((z.0 as u64 / s) as u32, (z.1 as u64 / s) as u32),
        );
    }
    let ghost coarse = out@;
    push_box(&mut out, target_lod, x, y, z);
    assert(Seq::<ChunkKey>::empty() + coarse =~= coarse);
    assert(out@ =~= box_requests(min, max, target_lod, max_lod, extent));
    out
}

proof fn lemma_ends_scaled(lo: int, hi: int, s: int)
    requires
        0 <= lo <= hi < u32::MAX,
        s >= 1,
    ensures
        0 <= lo / s <= hi / s <= hi,
{
    assert(0 <= lo / s <= hi / s <= hi) by (nonlinear_arith)
        requires
            0 <= lo <= hi,
            s >= 1,
    ;
}

proof fn lemma_finest_stored(
    store: &DiskStore,
    refused: Seq<ShardRequest>,
    key: ChunkKey,
    from: int,
    top: int,
)
    ensures
        match finest_stored(store, refused, key, from, top) {
            Some(s) => from <= s <= top && usable(store, refused, volume::ancestor(key, s))
                && forall|t: int|
                from <= t < s ==> !usable(store, refused, #[trigger] volume::ancestor(key, t)),
            None => forall|t: int|
                from <= t <= top ==> !usable(store, refused, #[trigger] volume::ancestor(key, t)),
        },
    decreases top + 1 - from,
{
    if from <= top && !usable(store, refused, volume::ancestor(key, from)) {
        lemma_finest_stored(store, refused, key, from + 1, top);
    }
}

/// A preview is made from the finest coarser chunk that is stored and can be
/// read: where one is found, none between it and the chunk is, and where none
/// is found, none is within reach.
pub proof fn law_preview_from_the_finest(
    store: &DiskStore,
    refused: Seq<ShardRequest>,
    key: ChunkKey,
    max_lod: u8,
)
    ensures
        match finest_stored(store, refused, key, 1, preview_top(key.lod, max_lod)) {
            Some(s) => 1 <= s <= MAX_PREVIEW_SHIFT && usable(
                store,
                refused,
                volume::ancestor(key, s),
            ) && forall|t: int|
                1 <= t < s ==> !usable(store, refused, #[trigger] volume::ancestor(key, t)),
            None => forall|t: int|
                1 <= t <= preview_top(key.lod, max_lod) ==> !usable(
                    store,
                    refused,
                    #[trigger] volume::ancestor(key, t),
                ),
        },
{
    lemma_finest_stored(store, refused, key, 1, preview_top(key.lod, max_lod));
}

proof fn lemma_plane_has(lod: u8, lo_x: int, nx: nat, lo_y: int, n: nat, z: int, i: int, j: int)
    requires
        0 <= i < nx,
        0 <= j < n,
    ensures
        plane_keys(lod, lo_x, nx, lo_y, n, z).contains(
            ChunkKey { lod, x: (lo_x + i) as u32, y: (lo_y + j) as u32, z: z as u32 },
        ),
    decreases n,
{
    let key = ChunkKey { lod, x: (lo_x + i) as u32, y: (lo_y + j) as u32, z: z as u32 };
    let front = plane_keys(lod, lo_x, nx, lo_y, (n - 1) as nat, z);
    let row = row_keys(lod, lo_x, nx, lo_y + n - 1, z);
    let whole = plane_keys(lod, lo_x, nx, lo_y, n, z);
    if j == n - 1 {
        assert(row[i] == key);
        assert(whole[front.len() + i] == key);
    } else {
        lemma_plane_has(lod, lo_x, nx, lo_y, (n - 1) as nat, z, i, j);
        let k = front.index_of(key);
        assert(whole[k] == key);
    }
}

proof fn lemma_box_has(
    lod: u8,
    lo_x: int,
    nx: nat,
    lo_y: int,
    ny: nat,
    lo_z: int,
    n: nat,
    i: int,
    j: int,
    k: int,
)
    requires
        0 <= i < nx,
        0 <= j < ny,
        0 <= k < n,
    ensures
        box_keys(lod, lo_x, nx, lo_y, ny, lo_z, n).contains(
            ChunkKey { lod, x: (lo_x + i) as u32, y: (lo_y + j) as u32, z: (lo_z + k) as u32 },
        ),
    decreases n,
{
    let key = ChunkKey {
        lod,
        x: (lo_x + i) as u32,
        y: (lo_y + j) as u32,
        z: (lo_z + k) as u32,
    };
    let front = box_keys(lod, lo_x, nx, lo_y, ny, lo_z, (n - 1) as nat);
    let plane = plane_keys(lod, lo_x, nx, lo_y, ny, lo_z + n - 1);
    let whole = box_keys(lod, lo_x, nx, lo_y, ny, lo_z, n);
    if k == n - 1 {
        lemma_plane_has(lod, lo_x, nx, lo_y, ny, lo_z + n - 1, i, j);
        let q = plane.index_of(key);
        assert(whole[front.len() + q] == key);
    } else {
        lemma_box_has(lod, lo_x, nx, lo_y, ny, lo_z, (n - 1) as nat, i, j, k);
        let q = front.index_of(key);
        assert(whole[q] == key);
    }
}

/// Every chunk of a box within the volume is asked for, and so is the chunk
/// over it at the level of the previews.
pub proof fn law_box_is_covered(
    min: [i64; 3],
    max: [i64; 3],
    target_lod: u8,
    max_lod: u8,
    extent: [u32; 3],
    key: ChunkKey,
)
    requires
        key.lod == target_lod <= max_lod <= 31,
        ({
            let x = chunk_span(min@[0], max@[0], extent@[0], target_lod);
            let y = chunk_span(min@[1], max@[1], extent@[1], target_lod);
            let z = chunk_span(min@[2], max@[2], extent@[2], target_lod);
            x.0 <= key.x <= x.1 && y.0 <= key.y <= y.1 && z.0 <= key.z <= z.1
        }),
    ensures
        ({
            let asked = box_requests(min, max, target_lod, max_lod, extent);
            &&& asked.contains(key)
            &&& preview_lod(target_lod, max_lod) > target_lod ==> asked.contains(
                volume::ancestor(key, preview_lod(target_lod, max_lod) - target_lod),
            )
        }),
{
    let x = chunk_span(min@[0], max@[0], extent@[0], target_lod);
    let y = chunk_span(min@[1], max@[1], extent@[1], target_lod);
    let z = chunk_span(min@[2], max@[2], extent@[2], target_lod);
    let p = preview_lod(target_lod, max_lod);
    let target = keys_between(target_lod, x, y, z);
    let asked = box_requests(min, max, target_lod, max_lod, extent);
    lemma_box_has(
        target_lod,
        x.0,
        (x.1 - x.0 + 1) as nat,
        y.0,
        (y.1 - y.0 + 1) as nat,
        z.0,
        (z.1 - z.0 + 1) as nat,
        key.x - x.0,
        key.y - y.0,
        key.z - z.0,
    );
    let q = target.index_of(key);
    if p > target_lod {
        let s = chunk::pow2((p - target_lod) as nat) as int;
        chunk::lemma_pow2_bounds((p - target_lod) as nat);
        lemma_between_scaled(x.0, key.x as int, x.1, s);
        lemma_between_scaled(y.0, key.y as int, y.1, s);
        lemma_between_scaled(z.0, key.z as int, z.1, s);
        let coarse = keys_between(
            p as u8,
            (x.0 / s, x.1 / s),
            (y.0 / s, y.1 / s),
            (z.0 / s, z.1 / s),
        );
        let over = volume::ancestor(key, p - target_lod);
        lemma_box_has(
            p as u8,
            x.0 / s,
            (x.1 / s - x.0 / s + 1) as nat,
            y.0 / s,
            (y.1 / s - y.0 / s + 1) as nat,
            z.0 / s,
            (z.1 / s - z.0 / s + 1) as nat,
            key.x as int / s - x.0 / s,
            key.y as int / s - y.0 / s,
            key.z as int / s - z.0 / s,
        );
        let c = coarse.index_of(over);
        assert(asked[c] == over);
        assert(asked[coarse.len() + q] == key);
    } else {
        assert(asked[q] == key);
    }
}

proof fn lemma_between_scaled(lo: int, v: int, hi: int, s: int)
    requires
        0 <= lo <= v <= hi,
        s >= 1,
    ensures
        0 <= lo / s <= v / s <= hi / s,
{
    assert(0 <= lo / s <= v / s <= hi / s) by (nonlinear_arith)
        requires
            0 <= lo <= v <= hi,
            s >= 1,
    ;
}

/// Before a box of voxels is sampled, the chunk of every voxel of the box that
/// lies in the volume is asked for, and the coarser chunk over it that previews
/// are taken from.
pub proof fn law_every_voxel_of_the_box_is_asked_for(
    min: [i64; 3],
    max: [i64; 3],
    target_lod: u8,
    max_lod: u8,
    extent: [u32; 3],
    s: Seq<int>,
)
    requires
        target_lod <= max_lod <= 31,
        s.len() == 3,
        forall|a: int|
            0 <= a < 3 ==> 0 <= #[trigger] s[a] && min@[a] <= s[a] <= max@[a] && s[a] * chunk::pow2(
                target_lod as nat,
            ) < extent@[a],
    ensures
        ({
            let asked = box_requests(min, max, target_lod, max_lod, extent);
            let up = if max_lod - target_lod < 6 {
                max_lod - target_lod
            } else {
                6
            };
            let k = 64 * (chunk::pow2(up as nat) as int);
            &&& asked.contains(
                ChunkKey {
                    lod: target_lod,
                    x: (s[0] / 64) as u32,
                    y: (s[1] / 64) as u32,
                    z: (s[2] / 64) as u32,
                },
            )
            &&& up > 0 ==> asked.contains(
                ChunkKey {
                    lod: (target_lod + up) as u8,
                    x: (s[0] / k) as u32,
                    y: (s[1] / k) as u32,
                    z: (s[2] / k) as u32,
                },
            )
        }),
{
    assert(0 <= s[0] && 0 <= s[1] && 0 <= s[2]);
    lemma_voxel_in_span(min@[0], max@[0], extent@[0], target_lod, s[0]);
    lemma_voxel_in_span(min@[1], max@[1], extent@[1], target_lod, s[1]);
    lemma_voxel_in_span(min@[2], max@[2], extent@[2], target_lod, s[2]);
    let key = ChunkKey {
        lod: target_lod,
        x: (s[0] / 64) as u32,
        y: (s[1] / 64) as u32,
        z: (s[2] / 64) as u32,
    };
    law_box_is_covered(min, max, target_lod, max_lod, extent, key);
    let up = preview_lod(target_lod, max_lod) - target_lod;
    chunk::lemma_pow2_bounds(up as nat);
    let p = chunk::pow2(up as nat) as int;
    vstd::arithmetic::div_mod::lemma_div_denominator(s[0], 64, p);
    vstd::arithmetic::div_mod::lemma_div_denominator(s[1], 64, p);
    vstd::arithmetic::div_mod::lemma_div_denominator(s[2], 64, p);
}

proof fn lemma_voxel_in_span(min: i64, max: i64, extent: u32, lod: u8, s: int)
    requires
        lod <= 31,
        0 <= s,
        min <= s <= max,
        s * chunk::pow2(lod as nat) < extent,
    ensures
        0 <= chunk_span(min, max, extent, lod).0 <= s / 64 <= chunk_span(min, max, extent, lod).1,
        s / 64 <= u32::MAX,
{
    chunk::lemma_pow2_bounds(lod as nat);
    let k = chunk::pow2(lod as nat) as int;
    let e = extent as int;
    let span = 64 * k;
    let n = (e + span - 1) / span;
    let c = s / 64;
    assert(c * span <= s * k) by (nonlinear_arith)
        requires
            c == s / 64,
            span == 64 * k,
            k >= 1,
            s >= 0,
    ;
    assert(s <= s * k) by (nonlinear_arith)
        requires
            s >= 0,
            k >= 1,
    ;
    assert(c < n) by (nonlinear_arith)
        requires
            c * span < e,
            n == (e + span - 1) / span,
            span >= 1,
            c >= 0,
    ;
}

/// Nothing outside the box is asked for, nor outside the volume: what is asked
/// for of the level lies between the ends of the box, a box below the volume's
/// corner counting as one at the corner.
pub proof fn law_nothing_beside_the_box_is_asked_for(
    min: [i64; 3],
    max: [i64; 3],
    target_lod: u8,
    max_lod: u8,
    extent: [u32; 3],
    key: ChunkKey,
)
    requires
        target_lod <= max_lod <= 31,
        box_requests(min, max, target_lod, max_lod, extent).contains(key),
        key.lod == target_lod,
    ensures
        64 * key.x + 63 >= min@[0] && (64 * key.x <= max@[0] || key.x == 0),
        64 * key.y + 63 >= min@[1] && (64 * key.y <= max@[1] || key.y == 0),
        64 * key.z + 63 >= min@[2] && (64 * key.z <= max@[2] || key.z == 0),
        64 * key.x * chunk::pow2(target_lod as nat) < extent@[0] || key.x == 0,
        64 * key.y * chunk::pow2(target_lod as nat) < extent@[1] || key.y == 0,
        64 * key.z * chunk::pow2(target_lod as nat) < extent@[2] || key.z == 0,
{
    let x = chunk_span(min@[0], max@[0], extent@[0], target_lod);
    let y = chunk_span(min@[1], max@[1], extent@[1], target_lod);
    let z = chunk_span(min@[2], max@[2], extent@[2], target_lod);
    let asked = box_requests(min, max, target_lod, max_lod, extent);
    let p = preview_lod(target_lod, max_lod);
    let target = keys_between(target_lod, x, y, z);
    lemma_span_in_volume(min@[0], max@[0], extent@[0], target_lod);
    lemma_span_in_volume(min@[1], max@[1], extent@[1], target_lod);
    lemma_span_in_volume(min@[2], max@[2], extent@[2], target_lod);
    let i = asked.index_of(key);
    if p > target_lod {
        let s = chunk::pow2((p - target_lod) as nat) as int;
        let coarse = keys_between(
            p as u8,
            (x.0 / s, x.1 / s),
            (y.0 / s, y.1 / s),
            (z.0 / s, z.1 / s),
        );
        if i < coarse.len() {
            lemma_box_at(
                p as u8,
                x.0 / s,
                (x.1 / s - x.0 / s + 1) as nat,
                y.0 / s,
                (y.1 / s - y.0 / s + 1) as nat,
                z.0 / s,
                (z.1 / s - z.0 / s + 1) as nat,
                i,
            );
            assert(coarse[i].lod == p);
        } else {
            assert(target[i - coarse.len()] == key);
            lemma_box_at(
                target_lod,
                x.0,
                (x.1 - x.0 + 1) as nat,
                y.0,
                (y.1 - y.0 + 1) as nat,
                z.0,
                (z.1 - z.0 + 1) as nat,
                i - coarse.len(),
            );
        }
    } else {
        lemma_box_at(
            target_lod,
            x.0,
            (x.1 - x.0 + 1) as nat,
            y.0,
            (y.1 - y.0 + 1) as nat,
            z.0,
            (z.1 - z.0 + 1) as nat,
            i,
        );
    }
}

proof fn lemma_span_in_volume(min: i64, max: i64, extent: u32, lod: u8)
    requires
        lod <= 31,
    ensures
        ({
            let s = chunk_span(min, max, extent, lod);
            &&& s.1 <= u32::MAX
            &&& forall|c: int|
                s.0 <= c <= s.1 ==> #[trigger] (64 * c) + 63 >= min && (64 * c <= max || c == 0) && (64 * c
                    * chunk::pow2(lod as nat) < extent || c == 0)
        }),
{
    chunk::lemma_pow2_bounds(lod as nat);
    let s = chunk_span(min, max, extent, lod);
    let k = chunk::pow2(lod as nat) as int;
    let e = extent as int;
    let span = 64 * k;
    let n = (e + span - 1) / span;
    assert(n <= e) by (nonlinear_arith)
        requires
            n == (e + span - 1) / span,
            span >= 64,
            e >= 0,
    ;
    assert forall|c: int| s.0 <= c <= s.1 implies #[trigger] (64 * c) + 63 >= min && (64 * c <= max || c
        == 0) && (64 * c * k < e || c == 0) by {
        if c > 0 {
            assert(c * span < e) by (nonlinear_arith)
                requires
                    c <= n - 1,
                    n == (e + span - 1) / span,
                    span >= 1,
            ;
            assert(64 * c * k == c * span) by (nonlinear_arith)
                requires
                    span == 64 * k,
            ;
        }
    }
}

proof fn lemma_plane_at(lod: u8, lo_x: int, nx: nat, lo_y: int, n: nat, z: int, i: int)
    requires
        0 <= i < plane_keys(lod, lo_x, nx, lo_y, n, z).len(),
    ensures
        exists|a: int, b: int|
            0 <= a < nx && 0 <= b < n && plane_keys(lod, lo_x, nx, lo_y, n, z)[i] == #[trigger] key_at(
                lod,
                lo_x + a,
                lo_y + b,
                z,
            ),
    decreases n,
{
    let front = plane_keys(lod, lo_x, nx, lo_y, (n - 1) as nat, z);
    if i < front.len() {
        lemma_plane_at(lod, lo_x, nx, lo_y, (n - 1) as nat, z, i);
        let (a, b) = choose|a: int, b: int|
            0 <= a < nx && 0 <= b < n - 1 && front[i] == #[trigger] key_at(lod, lo_x + a, lo_y + b, z);
        assert(key_at(lod, lo_x + a, lo_y + b, z) == plane_keys(lod, lo_x, nx, lo_y, n, z)[i]);
    } else {
        let a = i - front.len();
        assert(key_at(lod, lo_x + a, lo_y + (n - 1), z) == plane_keys(lod, lo_x, nx, lo_y, n, z)[i]);
    }
}

/// A chunk by its coordinates.
spec fn key_at(lod: u8, x: int, y: int, z: int) -> ChunkKey {
    ChunkKey { lod, x: x as u32, y: y as u32, z: z as u32 }
}

proof fn lemma_box_at(
    lod: u8,
    lo_x: int,
    nx: nat,
    lo_y: int,
    ny: nat,
    lo_z: int,
    n: nat,
    i: int,
)
    requires
        0 <= i < box_keys(lod, lo_x, nx, lo_y, ny, lo_z, n).len(),
    ensures
        exists|a: int, b: int, c: int|
            0 <= a < nx && 0 <= b < ny && 0 <= c < n && box_keys(lod, lo_x, nx, lo_y, ny, lo_z, n)[i]
                == #[trigger] key_at(lod, lo_x + a, lo_y + b, lo_z + c),
    decreases n,
{
    let whole = box_keys(lod, lo_x, nx, lo_y, ny, lo_z, n);
    let front = box_keys(lod, lo_x, nx, lo_y, ny, lo_z, (n - 1) as nat);
    if i < front.len() {
        lemma_box_at(lod, lo_x, nx, lo_y, ny, lo_z, (n - 1) as nat, i);
        let (a, b, c) = choose|a: int, b: int, c: int|
            0 <= a < nx && 0 <= b < ny && 0 <= c < n - 1 && front[i] == #[trigger] key_at(
                lod,
                lo_x + a,
                lo_y + b,
                lo_z + c,
            );
        assert(key_at(lod, lo_x + a, lo_y + b, lo_z + c) == whole[i]);
    } else {
        lemma_plane_at(lod, lo_x, nx, lo_y, ny, lo_z + n - 1, i - front.len());
        let (a, b) = choose|a: int, b: int|
            0 <= a < nx && 0 <= b < ny && plane_keys(lod, lo_x, nx, lo_y, ny, lo_z + n - 1)[i
                - front.len()] == #[trigger] key_at(lod, lo_x + a, lo_y + b, lo_z + n - 1);
        assert(lo_z + (n - 1) == lo_z + n - 1);
        assert(key_at(lod, lo_x + a, lo_y + b, lo_z + (n - 1)) == whole[i]);
    }
}

/// A chunk that was used bears the running epoch's stamp. No other chunk's stamp
/// changes, and no chunk's state.
pub proof fn law_used_chunk_is_stamped(before: DiskStore, after: DiskStore, current: u8, key: ChunkKey, other: ChunkKey)
    requires
        before.wf(),
        access_noted(&before, &after, current, key),
        before.has(key),
        before.has(other),
    ensures
        after.sidecar.epoch(key.lod, before.place(key).sidecar_idx) == current,
        other != key ==> after.sidecar.epoch(other.lod, before.place(other).sidecar_idx)
            == before.sidecar.epoch(other.lod, before.place(other).sidecar_idx),
        after.slot_state(other) == before.slot_state(other),
{
    let d = before.sidecar.header.lods@[key.lod as int];
    disk::lemma_place_known(before, key);
    disk::lemma_place_known(before, other);
    let (l, m) = (key.lod as int, other.lod as int);
    assert(after.sidecar.model().access_epochs[l] == after.sidecar.access_epochs@[l]@);
    assert(before.sidecar.model().access_epochs[l] == before.sidecar.access_epochs@[l]@);
    assert(after.sidecar.model().access_epochs[m] == after.sidecar.access_epochs@[m]@);
    assert(before.sidecar.model().access_epochs[m] == before.sidecar.access_epochs@[m]@);
    assert(after.sidecar.model().states[m] == after.sidecar.states@[m]@);
    assert(before.sidecar.model().states[m] == before.sidecar.states@[m]@);
    if key.lod == other.lod && before.place(key).sidecar_idx == before.place(other).sidecar_idx {
        crate::sidecar::law_index_unflattens(d, key.x, key.y, key.z);
        crate::sidecar::law_index_unflattens(d, other.x, other.y, other.z);
        assert(key == other);
    }
}

/// A use in another epoch takes the chunk from that epoch's count to the running
/// one's; a second use in the same epoch changes nothing.
pub proof fn law_use_counts_once_an_epoch(store: DiskStore, m: epoch::EpochModel, key: ChunkKey)
    requires
        store.wf(),
        store.has(key),
        m.epoch_chunks.len() == 256,
        ({
            let was = store.sidecar.epoch(key.lod, store.place(key).sidecar_idx);
            m.epoch_chunks[was as int] > 0 && m.epoch_chunks[m.current as int] < u32::MAX
        }),
    ensures
        ({
            let was = store.sidecar.epoch(key.lod, store.place(key).sidecar_idx);
            let after = access_counted(&store, m, key);
            &&& was == m.current ==> after == m
            &&& was != m.current ==> {
                &&& after.epoch_chunks[was as int] == m.epoch_chunks[was as int] - 1
                &&& after.epoch_chunks[m.current as int] == m.epoch_chunks[m.current as int] + 1
            }
            &&& after.total_chunks == m.total_chunks
            &&& after.current == m.current
        }),
{
}

} // verus!
