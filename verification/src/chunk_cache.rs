//! The cache of one volume's chunks: the store, the scheduler and the downloads
//! under way, behind one set of questions.
use crate::backfiller::{BackfillError, BackfillPlan};
use crate::bits::ChunkBitState;
use crate::cache;
use crate::cache::{dispatch_chunk, CacheModel, Planned, Scheduler};
use crate::chunk::{ChunkKey, ChunkState, ShardCoord};
use crate::disk;
use crate::disk::{DiskStore, LoadOutcome};
use crate::downloader::Downloader;
use crate::epoch;
use crate::epoch::EpochState;
use crate::purge;
use crate::purge::{find_victims, PurgePlan, Victim};
use crate::sidecar::LodDims;
use crate::slots::SlotModel;
use crate::upkeep;
use crate::upkeep::{touch_access, try_upscale_from_parent, PreviewSource};
use crate::volume;
use crate::volume::{read_chunk, ShardMap, ShardRequest};
use vstd::prelude::*;

verus! {

/// The cache of one volume's chunks.
pub struct ChunkCache {
    pub scheduler: Scheduler,
    pub store: DiskStore,
    pub downloader: Downloader,
    /// The volume's voxels along each axis.
    pub extent: [u32; 3],
    pub max_lod: u8,
}

/// A cache as it was opened.
pub struct OpenedCache {
    pub cache: ChunkCache,
    /// What was there is of another layout, or cannot be read: its files are
    /// to be renamed aside first.
    pub stale: bool,
    /// The slots that an interrupted operation left locked. They count as
    /// missing; their bytes are to be reclaimed.
    pub interrupted: Vec<(u8, u64)>,
}

/// A question for a chunk's state. What is known and not expired is the answer;
/// otherwise a chunk that the store settles, or that lies outside the volume,
/// gets its state at once; any other is claimed for a fetch (`None`).
pub open spec fn answered(
    m: CacheModel,
    stored: LoadOutcome,
    key: ChunkKey,
    extent: [u32; 3],
    max_lod: u8,
    now: u64,
) -> (CacheModel, Option<ChunkState>) {
    let (n, known) = cache::looked_up(m, key, now);
    match known {
        Some(s) => (n, Some(s)),
        None => match cache::dispatch_begun(key, stored, extent, max_lod, now) {
            Some(s) => (cache::dispatch_ended(n, key, s, now), Some(s)),
            None => (n, None),
        },
    }
}

/// Whether this is the cache of a volume as it is opened, between the epochs
/// `before` and `after`. `image` is what its index file holds, if there is one:
/// one of this volume and layout is taken up, but for slots that an interrupted
/// operation left locked, which count as missing; with any other the cache
/// starts empty.
pub open spec fn is_opened(
    volume_id: Seq<char>,
    extent: [u32; 3],
    max_lod: u8,
    shard_chunks_per_axis: u32,
    image: Option<Vec<u8>>,
    max_age: u64,
    before: EpochState,
    after: EpochState,
    c: ChunkCache,
    stale: bool,
) -> bool {
    let s = c.store.sidecar;
    &&& c.extent == extent
    &&& c.max_lod == max_lod
    &&& c.store.shard_chunks_per_axis == shard_chunks_per_axis
    &&& c.store.shards@.len() == 0
    &&& forall|k: ChunkKey| #[trigger] c.scheduler.model().chunks[k] == SlotModel::vacant()
    &&& c.scheduler.model().sources.dom().is_empty()
    &&& c.scheduler.model().tasks.len() == 0
    &&& c.scheduler.model().downloads.len() == 0
    &&& !c.scheduler.model().closed
    &&& c.scheduler.model().frame == 1
    &&& c.scheduler.tasks.queue.max_age == max_age
    &&& c.scheduler.tasks.queue.cull_enabled
    &&& c.scheduler.downloads.max_age == max_age
    &&& c.scheduler.downloads.cull_enabled
    &&& c.downloader.count() == 0
    &&& stale == (match image {
        None => false,
        Some(bytes) => !disk::reusable(bytes@, volume_id, extent, max_lod),
    })
    &&& s.header.volume_id@ == volume_id
    &&& image is Some && !stale ==> disk::is_taken_up(s, image->0@)
    &&& image is None || stale ==> disk::is_fresh(s, volume_id, extent, max_lod)
    &&& after.has_counted(volume_id)
    &&& before.has_counted(volume_id) ==> after == before
    &&& !before.has_counted(volume_id) ==> {
        &&& after.accumulated@ == before.accumulated@.push(s.header.volume_id)
        &&& after.model() == epoch::levels_counted(
            before.model(),
            s.model().states,
            s.model().access_epochs,
            s.header.lods@.len() as int,
        )
    }
}

/// Whether these are the slots that an interrupted operation left locked in an
/// index file that was taken up.
pub open spec fn lists_interrupted(image: Option<Vec<u8>>, stale: bool, slots: Seq<(u8, u64)>) -> bool {
    &&& image is Some && !stale ==> disk::lists_locked(image->0@, slots)
    &&& image is None || stale ==> slots.len() == 0
}

impl ChunkCache {
    pub open spec fn wf(&self) -> bool {
        &&& self.scheduler.wf()
        &&& self.store.wf()
        &&& self.downloader.wf()
        &&& self.max_lod <= 25
    }

    /// Whether a fetch of the chunk is the first since nothing is known of it:
    /// the shard's map, which starts with what the index says, knows nothing.
    pub open spec fn first_fetch(&self, key: ChunkKey) -> bool {
        let p = self.store.place(key);
        if self.store.is_open(key.lod, p.shard) {
            self.store.bit(key.lod, p.shard, p.in_shard_idx as int) == Some(ChunkBitState::Unknown)
        } else {
            self.store.seed(key.lod, p.shard, p.in_shard_idx as int) == ChunkBitState::Unknown
        }
    }

    /// Opens the cache of a volume (see `DiskStore`), and counts its chunks in
    /// the epochs if they were not counted before. Requests wait for `max_age`
    /// milliseconds at most.
    pub fn open(
        volume_id: String,
        extent: [u32; 3],
        max_lod: u8,
        shard_chunks_per_axis: u32,
        image: Option<Vec<u8>>,
        max_age: u64,
        epochs: &mut EpochState,
    ) -> (r: OpenedCache)
        requires
            max_lod <= 25,
            disk::side_fits(shard_chunks_per_axis),
            forall|l: int|
                0 <= l <= max_lod ==> (#[trigger] LodDims::of(extent, l as u8)).size() <= usize::MAX,
        ensures
            r.cache.wf(),
            is_opened(
                volume_id@,
                extent,
                max_lod,
                shard_chunks_per_axis,
                image,
                max_age,
                *old(epochs),
                *final(epochs),
                r.cache,
                r.stale,
            ),
            lists_interrupted(image, r.stale, r.interrupted@),
    {
        let opened = DiskStore::new_with_shard_chunks_per_axis(
            volume_id,
            extent,
            max_lod,
            shard_chunks_per_axis,
            image,
        );
        epochs.add_from_sidecar(&opened.store.sidecar);
        OpenedCache {
            cache: ChunkCache {
                scheduler: Scheduler::new(max_age),
                store: opened.store,
                downloader: Downloader::new(),
                extent,
                max_lod,
            },
            stale: opened.stale,
            interrupted: opened.interrupted,
        }
    }

    /// The state of a chunk (see `answered`). `opened` says whether the host
    /// could open the chunk's shard; it matters only where the index has the
    /// chunk's voxels, which then count as missing behind a file that cannot be
    /// opened. `None` asks for a fetch: the host goes on with `begin_fetch`,
    /// plans, and ends with `start_plan` and `end_fetch`. A resident chunk counts
    /// as used.
    pub fn state_or_fetch(
        &mut self,
        epochs: &mut EpochState,
        key: ChunkKey,
        opened: bool,
        now: u64,
    ) -> (r: Option<ChunkState>)
        requires
            old(self).wf(),
        ensures
            final(self).wf(),
            final(self).extent == old(self).extent,
            final(self).max_lod == old(self).max_lod,
            final(self).downloader == old(self).downloader,
            (final(self).scheduler.model(), r) == answered(
                old(self).scheduler.model(),
                old(self).store.loaded_from(key, opened),
                key,
                old(self).extent,
                old(self).max_lod,
                now,
            ),
            final(self).scheduler.same_limits(&old(self).scheduler),
            r matches Some(ChunkState::Resident { .. }) ==> {
                &&& upkeep::access_noted(
                    &old(self).store,
                    &final(self).store,
                    old(epochs).current,
                    key,
                )
                &&& final(epochs).model() == upkeep::access_counted(
                    &old(self).store,
                    old(epochs).model(),
                    key,
                )
                &&& final(epochs).accumulated == old(epochs).accumulated
            },
            !(r matches Some(ChunkState::Resident { .. })) ==> {
                &&& final(self).store == old(self).store
                &&& *final(epochs) == *old(epochs)
            },
    {
        let state = match self.scheduler.state_or_fetch(key, now) {
            Some(s) => s,
            None => {
                let stored = self.store.load(key, opened);
                match dispatch_chunk(key, stored, self.extent, self.max_lod, now) {
                    None => {
                        return None;
                    },
                    Some(s) => {
                        self.scheduler.end_dispatch(key, s, now);
                        s
                    },
                }
            },
        };
        match state {
            ChunkState::Resident { .. } => {
                touch_access(&mut self.store, epochs, key);
            },
            _ => {},
        }
        Some(state)
    }

    /// The voxel at a position of a level, and whether its chunk is to be fetched
    /// (see `state_or_fetch`). It is zero where the chunk has not come. `maps`
    /// holds the mapped shards.
    pub fn voxel(
        &mut self,
        epochs: &mut EpochState,
        maps: &Vec<ShardMap>,
        x: u32,
        y: u32,
        z: u32,
        lod: u8,
        opened: bool,
        now: u64,
    ) -> (r: (u8, bool))
        requires
            old(self).wf(),
            volume::maps_ok(maps@, &old(self).store),
        ensures
            final(self).wf(),
            final(self).extent == old(self).extent,
            final(self).max_lod == old(self).max_lod,
            final(self).downloader == old(self).downloader,
            final(self).scheduler.same_limits(&old(self).scheduler),
            final(epochs).accumulated == old(epochs).accumulated,
            ({
                let key = ChunkKey { lod, x: x / 64, y: y / 64, z: z / 64 };
                let a = answered(
                    old(self).scheduler.model(),
                    old(self).store.loaded_from(key, opened),
                    key,
                    old(self).extent,
                    old(self).max_lod,
                    now,
                );
                let shard = volume::mapped(maps@, lod, old(self).store.place(key).shard);
                &&& final(self).scheduler.model() == a.0
                &&& if a.1 matches Some(ChunkState::Resident { .. }) {
                    &&& upkeep::access_noted(
                        &old(self).store,
                        &final(self).store,
                        old(epochs).current,
                        key,
                    )
                    &&& final(epochs).model() == upkeep::access_counted(
                        &old(self).store,
                        old(epochs).model(),
                        key,
                    )
                } else {
                    final(self).store == old(self).store && *final(epochs) == *old(epochs)
                }
                &&& r.1 == (a.1 is None)
                &&& r.0 == (if a.1 matches Some(ChunkState::Resident { .. }) && old(self).store.has(key)
                    && shard matches Some(Some(_)) {
                    volume::chunk_in(shard->0->0, old(self).store.place(key).in_shard_idx as int)[
                        volume::voxel_place(x as int, y as int, z as int)]
                } else {
                    0
                })
            }),
    {
        let key = ChunkKey::new(lod, x / 64, y / 64, z / 64);
        let bytes = read_chunk(&self.store, maps, key);
        match self.state_or_fetch(epochs, key, opened, now) {
            None => (0, true),
            Some(ChunkState::Resident { .. }) => (upkeep::voxel(bytes, x, y, z), false),
            Some(_) => (0, false),
        }
    }

    /// The chunks to ask for before a box of voxels of a level is sampled (see
    /// `upkeep::box_requests`).
    pub fn touch_aabb(&self, min: [i64; 3], max: [i64; 3], target_lod: u8) -> (out: Vec<ChunkKey>)
        requires
            self.wf(),
        ensures
            out@ == upkeep::box_requests(min, max, target_lod, self.max_lod, self.extent),
    {
        upkeep::touch_aabb(min, max, target_lod, self.max_lod, self.extent)
    }

    /// Begins the fetch of a chunk that was claimed. `opened` says whether the
    /// host could open its shard; the shard's map then notes that the chunk is
    /// under way. The first time, what a preview can be made from is handed out;
    /// `refused` names the shards that the host could not open for one.
    pub fn begin_fetch(&mut self, key: ChunkKey, opened: bool, refused: &Vec<ShardRequest>) -> (r:
        Option<PreviewSource>)
        requires
            old(self).wf(),
        ensures
            final(self).wf(),
            final(self).scheduler == old(self).scheduler,
            final(self).downloader == old(self).downloader,
            final(self).extent == old(self).extent,
            final(self).max_lod == old(self).max_lod,
            final(self).store.sidecar == old(self).store.sidecar,
            final(self).store.shard_chunks_per_axis == old(self).store.shard_chunks_per_axis,
            !(opened && old(self).store.has(key)) ==> r is None && final(self).store == old(self).store,
            opened && old(self).store.has(key) ==> ({
                let p = old(self).store.place(key);
                forall|l: u8, s: ShardCoord, i: int|
                    0 <= i < old(self).store.chunks_per_shard() ==> #[trigger] final(self).store.bit(
                        l,
                        s,
                        i,
                    ) == (if l == key.lod && s == p.shard && i == p.in_shard_idx
                        && old(self).first_fetch(key) {
                        Some(ChunkBitState::Dispatched)
                    } else if l == key.lod && s == p.shard && !old(self).store.is_open(
                        key.lod,
                        p.shard,
                    ) {
                        Some(old(self).store.seed(key.lod, p.shard, i))
                    } else {
                        old(self).store.bit(l, s, i)
                    })
            }),
            opened && old(self).store.has(key) && !old(self).first_fetch(key) ==> r is None,
            opened && old(self).store.has(key) && old(self).first_fetch(key) ==> (
            match upkeep::finest_stored(
                &final(self).store,
                refused@,
                key,
                1,
                upkeep::preview_top(key.lod, old(self).max_lod),
            ) {
                None => r is None,
                Some(shift) => r matches Some(p) && upkeep::is_preview_source(
                    &final(self).store,
                    key,
                    shift,
                    p,
                ),
            }),
    {
        if !opened {
            return None;
        }
        let p = match self.store.resolve(key) {
            None => {
                return None;
            },
            Some(p) => p,
        };
        self.store.ensure_open(key.lod, p.shard);
        let ghost mid = self.store;
        assert(mid.place(key) == p);
        assert(mid.bit(key.lod, p.shard, p.in_shard_idx as int) == Some(
            if old(self).store.is_open(key.lod, p.shard) {
                old(self).store.bit(key.lod, p.shard, p.in_shard_idx as int)->0
            } else {
                old(self).store.seed(key.lod, p.shard, p.in_shard_idx as int)
            },
        ));
        match self.store.mark_dispatched(key) {
            Some(true) => try_upscale_from_parent(&self.store, refused, key, self.max_lod),
            _ => None,
        }
    }

    /// Puts a claimed chunk's plan to work (see `Scheduler::start_plan`).
    pub fn start_plan(
        &mut self,
        key: ChunkKey,
        plan: Result<BackfillPlan, BackfillError>,
        now: u64,
    ) -> (r: Planned)
        requires
            old(self).wf(),
        ensures
            final(self).wf(),
            final(self).store == old(self).store,
            final(self).downloader == old(self).downloader,
            final(self).extent == old(self).extent,
            final(self).max_lod == old(self).max_lod,
            final(self).scheduler.same_limits(&old(self).scheduler),
            match plan {
                Err(e) => {
                    &&& final(self).scheduler.model() == old(self).scheduler.model()
                    &&& r.state == cache::failure_state(e, now)
                    &&& r.children@.len() == 0
                },
                Ok(p) => (final(self).scheduler.model(), r.state, r.children@)
                    == cache::plan_started(
                    old(self).scheduler.model(),
                    key,
                    p.covered@,
                    p.sources@,
                    now,
                ),
            },
    {
        self.scheduler.start_plan(key, plan, now)
    }

    /// Ends the fetch of a claimed chunk with the state it came to.
    pub fn end_fetch(&mut self, key: ChunkKey, state: ChunkState, now: u64)
        requires
            old(self).wf(),
        ensures
            final(self).wf(),
            final(self).store == old(self).store,
            final(self).downloader == old(self).downloader,
            final(self).extent == old(self).extent,
            final(self).max_lod == old(self).max_lod,
            final(self).scheduler.same_limits(&old(self).scheduler),
            final(self).scheduler.model() == cache::dispatch_ended(
                old(self).scheduler.model(),
                key,
                state,
                now,
            ),
    {
        self.scheduler.end_dispatch(key, state, now);
    }

    /// What is known about a chunk, without asking for it.
    pub fn peek(&self, key: ChunkKey) -> (s: Option<ChunkState>)
        requires
            self.wf(),
        ensures
            s == self.scheduler.model().chunks[key].state,
    {
        self.scheduler.peek(key)
    }

    /// Whether a download for the chunk is on the wire.
    pub fn is_downloading(&self, key: ChunkKey) -> (r: bool)
        requires
            self.wf(),
        ensures
            r == (self.downloader.count_of(key) > 0),
    {
        self.downloader.is_active_chunk(key)
    }

    /// The volume's voxels along each axis.
    pub fn voxel_extent(&self) -> (e: [u32; 3])
        ensures
            e == self.extent,
    {
        self.extent
    }

    /// The coarsest level.
    pub fn max_lod(&self) -> (l: u8)
        ensures
            l == self.max_lod,
    {
        self.max_lod
    }

    /// Chunks along one edge of a shard.
    pub fn shard_chunks_per_axis(&self) -> (n: u32)
        ensures
            n == self.store.shard_chunks_per_axis,
    {
        self.store.shard_chunks_per_axis()
    }

    /// A chunk's shard and its place there.
    pub fn locate(&self, key: ChunkKey) -> (r: Option<(ShardCoord, u64)>)
        requires
            self.wf(),
        ensures
            r == self.store.located(key),
    {
        self.store.locate(key)
    }

    /// What a shard's map says of one of its chunks, if the shard is open.
    pub fn peek_shard(&self, lod: u8, shard: ShardCoord, in_shard_idx: u64) -> (r: Option<
        ChunkBitState,
    >)
        requires
            self.wf(),
            in_shard_idx < self.store.chunks_per_shard(),
        ensures
            r == self.store.bit(lod, shard, in_shard_idx as int),
    {
        self.store.peek_shard(lod, shard, in_shard_idx)
    }

    /// Notes that the host has opened a shard's file (see `DiskStore`). Nothing
    /// happens beyond the volume's levels.
    pub fn ensure_shard_open(&mut self, lod: u8, shard: ShardCoord)
        requires
            old(self).wf(),
        ensures
            final(self).wf(),
            final(self).scheduler == old(self).scheduler,
            final(self).downloader == old(self).downloader,
            final(self).extent == old(self).extent,
            final(self).max_lod == old(self).max_lod,
            final(self).store.sidecar == old(self).store.sidecar,
            final(self).store.shard_chunks_per_axis == old(self).store.shard_chunks_per_axis,
            lod >= old(self).store.sidecar.header.lods@.len() ==> final(self).store == old(self).store,
            lod < old(self).store.sidecar.header.lods@.len() ==> final(self).store.is_open(lod, shard),
            lod < old(self).store.sidecar.header.lods@.len() ==> forall|
                l: u8,
                s: ShardCoord,
                p: int,
            |
                0 <= p < old(self).store.chunks_per_shard() ==> #[trigger] final(self).store.bit(
                    l,
                    s,
                    p,
                ) == (if l == lod && s == shard && !old(self).store.is_open(lod, shard) {
                    Some(old(self).store.seed(lod, shard, p))
                } else {
                    old(self).store.bit(l, s, p)
                }),
    {
        if (lod as usize) < self.store.sidecar.header.lods.len() {
            self.store.ensure_open(lod, shard);
        }
    }

    /// Begins another frame.
    pub fn advance_frame(&mut self)
        requires
            old(self).wf(),
        ensures
            final(self).wf(),
            final(self).store == old(self).store,
            final(self).downloader == old(self).downloader,
            final(self).extent == old(self).extent,
            final(self).max_lod == old(self).max_lod,
            final(self).scheduler.model() == (CacheModel {
                frame: old(self).scheduler.frame.wrapping_add(1),
                ..old(self).scheduler.model()
            }),
            final(self).scheduler.same_limits(&old(self).scheduler),
    {
        self.scheduler.advance_frame();
    }

    /// The chunks to give up so that at least `target_chunks` go, oldest epochs
    /// first, each to be given up with `begin_purge` and `end_purge`; none if the
    /// epochs have not so many.
    pub fn purge_to_target(&self, epochs: &EpochState, target_chunks: u64) -> (r: Vec<Victim>)
        requires
            self.wf(),
        ensures
            purge::freed_at(epochs.epoch_chunks@, epochs.current, 1) < target_chunks
                ==> r@.len() == 0,
            purge::freed_at(epochs.epoch_chunks@, epochs.current, 1) >= target_chunks ==> exists|
                plan: PurgePlan,
            | #[trigger]
                is_plan(epochs, target_chunks, plan) && r@ == purge::all_victims(
                    plan,
                    epochs.current,
                    self.store.sidecar.header.lods@,
                    self.store.sidecar.model().states,
                    self.store.sidecar.model().access_epochs,
                    self.store.sidecar.header.lods@.len() as int,
                ),
    {
        match PurgePlan::build(epochs, target_chunks) {
            None => Vec::new(),
            Some(plan) => {
                assert(is_plan(epochs, target_chunks, plan));
                find_victims(&self.store.sidecar, &plan, epochs.current())
            },
        }
    }
}

/// Whether this is the plan for a purge: the largest age from which on enough
/// chunks go.
pub open spec fn is_plan(epochs: &EpochState, target_chunks: u64, p: PurgePlan) -> bool {
    &&& 1 <= p.age_threshold <= 255
    &&& p.target_chunks == target_chunks
    &&& p.freed_chunks == purge::freed_at(epochs.epoch_chunks@, epochs.current, p.age_threshold as int)
    &&& p.freed_chunks >= target_chunks
    &&& forall|age: int|
        p.age_threshold < age <= 255 ==> #[trigger] purge::freed_at(
            epochs.epoch_chunks@,
            epochs.current,
            age,
        ) < target_chunks
}

/// A chunk that the store holds is answered without a fetch, unless it rests
/// or is being dispatched; and so is one that the store knows to be empty.
pub proof fn law_stored_chunk_needs_no_fetch(
    m: CacheModel,
    stored: LoadOutcome,
    key: ChunkKey,
    extent: [u32; 3],
    max_lod: u8,
    now: u64,
)
    requires
        m.chunks[key].state is None,
        !m.chunks[key].dispatching,
        !(stored is Missing),
    ensures
        answered(m, stored, key, extent, max_lod, now).1 == Some(
            match stored {
                LoadOutcome::Resident { shard, offset } => ChunkState::Resident { shard, offset },
                _ => ChunkState::Empty,
            },
        ),
{
}

/// A chunk of the volume whose voxels stand behind a file that cannot be opened
/// is fetched anew, unless something is known of it already.
pub proof fn law_refused_file_is_fetched_anew(
    m: CacheModel,
    store: DiskStore,
    key: ChunkKey,
    extent: [u32; 3],
    max_lod: u8,
    now: u64,
)
    requires
        m.chunks[key].state is None,
        !m.chunks[key].dispatching,
        store.loaded(key) is Resident,
        !cache::out_of_bounds(key, extent, max_lod),
    ensures
        answered(m, store.loaded_from(key, false), key, extent, max_lod, now).1 is None,
{
}

/// A chunk outside the volume is never fetched: it rests.
pub proof fn law_outside_is_never_fetched(
    m: CacheModel,
    key: ChunkKey,
    extent: [u32; 3],
    max_lod: u8,
    now: u64,
)
    requires
        cache::out_of_bounds(key, extent, max_lod),
    ensures
        answered(m, LoadOutcome::Missing, key, extent, max_lod, now).1 is Some,
{
}

/// A chunk that is claimed for a fetch is claimed once: whoever asks until the
/// fetch ends is told what is known, and nothing changes.
pub proof fn law_claimed_once(
    m: CacheModel,
    stored: LoadOutcome,
    key: ChunkKey,
    extent: [u32; 3],
    max_lod: u8,
    now: u64,
    later: u64,
)
    requires
        answered(m, stored, key, extent, max_lod, now).1 is None,
        now <= later,
    ensures
        ({
            let n = answered(m, stored, key, extent, max_lod, now).0;
            let again = answered(n, stored, key, extent, max_lod, later);
            again.1 is Some && again.0 == n
        }),
{
}

} // verus!
