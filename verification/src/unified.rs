//! The caches of all volumes under one directory, and the epochs they share.
use crate::chunk::{ChunkKey, ShardCoord, CHUNK_VOXELS};
use crate::chunk_cache;
use crate::chunk_cache::{ChunkCache, OpenedCache};
use crate::disk;
use crate::disk::{SyncPlan, SHARD_CHUNKS_PER_AXIS};
use crate::epoch;
use crate::epoch::{
    begin_offline_sweep, end_offline_sweep, is_offline, purge_target, EpochModel, EpochState, Reclaimed,
};
use crate::purge;
use crate::purge::{PurgePlan, Victim};
use crate::sidecar;
use crate::sidecar::{LodDims, Sidecar};
use crate::text;
use vstd::prelude::*;

verus! {

/// Epochs with the volumes counted in them.
pub struct Counted {
    pub epochs: EpochModel,
    pub volumes: Seq<Seq<char>>,
}

/// What epochs count, and which volumes.
pub open spec fn counted(e: &EpochState) -> Counted {
    Counted { epochs: e.model(), volumes: e.accumulated@.map_values(|s: String| s@) }
}

/// Whether an index file can be taken up: its header can be read and its
/// columns fit in memory.
pub open spec fn loadable(image: Seq<u8>) -> bool {
    sidecar::parsed_header(image) matches Ok(h) && sidecar::header_len(h) + 2
        * sidecar::chunks_before(h.lods, h.lods.len() as int) <= usize::MAX
}

/// The counts with one more volume's index file. A file that cannot be taken up
/// and a volume that was counted before change nothing.
pub open spec fn volume_seeded(c: Counted, image: Seq<u8>) -> Counted {
    if !loadable(image) {
        c
    } else {
        let h = sidecar::parsed_header(image)->Ok_0;
        if c.volumes.contains(h.volume_id) {
            c
        } else {
            Counted {
                epochs: epoch::levels_counted(
                    c.epochs,
                    sidecar::loaded_columns(image, h, sidecar::header_len(h)),
                    sidecar::loaded_columns(
                        image,
                        h,
                        sidecar::header_len(h) + sidecar::chunks_before(h.lods, h.lods.len() as int),
                    ),
                    h.lods.len() as int,
                ),
                volumes: c.volumes.push(h.volume_id),
            }
        }
    }
}

/// The counts with the first `n` index files.
pub open spec fn volumes_seeded(c: Counted, images: Seq<Vec<u8>>, n: int) -> Counted
    decreases n,
{
    if n <= 0 {
        c
    } else {
        volume_seeded(volumes_seeded(c, images, n - 1), images[n - 1]@)
    }
}

/// How many of the first `n` index files can be taken up.
pub open spec fn loadable_files(images: Seq<Vec<u8>>, n: int) -> nat
    decreases n,
{
    if n <= 0 {
        0
    } else {
        loadable_files(images, n - 1) + (if loadable(images[n - 1]@) {
            1nat
        } else {
            0
        })
    }
}

proof fn lemma_loadable_files(images: Seq<Vec<u8>>, n: int)
    requires
        0 <= n,
    ensures
        loadable_files(images, n) <= n,
    decreases n,
{
    if n > 0 {
        lemma_loadable_files(images, n - 1);
    }
}

proof fn lemma_counted_volume(e: &EpochState, id: Seq<char>)
    ensures
        e.has_counted(id) == counted(e).volumes.contains(id),
{
    let v = counted(e).volumes;
    if e.has_counted(id) {
        let i = choose|i: int|
            0 <= i < e.accumulated@.len() && (#[trigger] e.accumulated@[i])@ == id;
        assert(v[i] == id);
    }
    if v.contains(id) {
        let i = v.index_of(id);
        assert(e.accumulated@[i]@ == id);
    }
}

/// Counts the chunks of every volume that has an index file. Returns how many
/// files could be taken up.
pub fn seed_from_disk(epochs: &mut EpochState, images: &Vec<Vec<u8>>) -> (seeded: usize)
    ensures
        counted(final(epochs)) == volumes_seeded(
            counted(old(epochs)),
            images@,
            images@.len() as int,
        ),
        seeded == loadable_files(images@, images@.len() as int),
{
    let mut seeded: usize = 0;
    let mut i: usize = 0;
    while i < images.len()
        invariant
            i <= images@.len(),
            counted(epochs) == volumes_seeded(counted(old(epochs)), images@, i as int),
            seeded == loadable_files(images@, i as int),
            seeded <= i,
        decreases images.len() - i,
    {
        let ghost before = counted(epochs);
        let ghost image = images@[i as int]@;
        proof {
            lemma_loadable_files(images@, i + 1);
        }
        match Sidecar::load(&images[i]) {
            Ok(s) => {
                let ghost h = s.header.model();
                proof {
                    lemma_counted_volume(epochs, h.volume_id);
                }
                assert(s.header.lods@.len() == h.lods.len() && h.lods.len() <= 256);
                assert(s.header.volume_id@ == h.volume_id);
                epochs.add_from_sidecar(&s);
                assert(counted(epochs).volumes =~= volume_seeded(before, image).volumes);
                assert(counted(epochs) == volume_seeded(before, image));
                seeded = seeded + 1;
            },
            Err(_) => {},
        }
        i = i + 1;
    }
    seeded
}

/// The epochs of a directory before its volumes are counted: as they were
/// stored, but for the counts, or fresh ones if nothing usable was stored.
pub open spec fn uncounted(stored: Option<Seq<u8>>, cap_bytes: u64, now: u64) -> EpochModel {
    let taken = match stored {
        Some(bytes) => epoch::parsed(bytes),
        None => None,
    };
    let m = match taken {
        Some(m) => m,
        None => epoch::fresh(cap_bytes, now),
    };
    EpochModel { total_chunks: 0, epoch_chunks: Seq::new(256, |e: int| 0u32), ..m }
}

/// The epochs of a directory. `stored` is what its epoch file holds, if there
/// is one, and `images` what its volumes' index files hold. The stored counts
/// are not trusted: the index files say what is there.
pub fn shared_for_unified_root(
    stored: Option<Vec<u8>>,
    cap_bytes: u64,
    now: u64,
    images: &Vec<Vec<u8>>,
) -> (e: EpochState)
    ensures
        counted(&e) == volumes_seeded(
            Counted {
                epochs: uncounted(
                    match stored {
                        Some(b) => Some(b@),
                        None => None,
                    },
                    cap_bytes,
                    now,
                ),
                volumes: Seq::empty(),
            },
            images@,
            images@.len() as int,
        ),
{
    let taken = match stored {
        Some(b) => EpochState::load(&b),
        None => None,
    };
    let mut e = match taken {
        Some(s) => s,
        None => EpochState::new(cap_bytes, now),
    };
    e.reset_counts();
    assert(counted(&e).volumes =~= Seq::empty());
    let _ = seed_from_disk(&mut e, images);
    e
}

/// The directory of the caches of all volumes, in a cache directory.
pub fn unified_dir(cache_root: &str) -> (p: String)
    ensures
        p@ == text::joined_path(cache_root@, "unified"@),
{
    text::join_path(cache_root, "unified")
}

/// The caches of all volumes under one directory.
pub struct UnifiedCache {
    pub unified_root: String,
    pub epochs: EpochState,
    pub volumes: Vec<ChunkCache>,
}

/// A volume that was opened.
pub struct OpenedVolume {
    /// Its place among the open volumes.
    pub place: usize,
    /// Whether it was open before.
    pub reused: bool,
    /// As with `OpenedCache`; nothing of the kind if the volume was open.
    pub stale: bool,
    pub interrupted: Vec<(u8, u64)>,
}

/// The volume that a cache is for.
pub open spec fn volume_of(c: ChunkCache) -> Seq<char> {
    c.store.sidecar.header.volume_id@
}

/// Whether a volume is open.
pub open spec fn is_open(volumes: Seq<ChunkCache>, id: Seq<char>) -> bool {
    exists|i: int| 0 <= i < volumes.len() && volume_of(#[trigger] volumes[i]) == id
}

impl UnifiedCache {
    /// No volume is open twice.
    pub open spec fn wf(&self) -> bool {
        &&& forall|i: int| 0 <= i < self.volumes@.len() ==> (#[trigger] self.volumes@[i]).wf()
        &&& forall|i: int, j: int|
            0 <= i < j < self.volumes@.len() ==> volume_of(#[trigger] self.volumes@[i])
                != volume_of(#[trigger] self.volumes@[j])
    }

    /// No volume is open yet.
    pub fn for_unified_root(unified_root: String, epochs: EpochState) -> (c: UnifiedCache)
        ensures
            c.wf(),
            c.unified_root == unified_root,
            c.epochs == epochs,
            c.volumes@.len() == 0,
    {
        UnifiedCache { unified_root, epochs, volumes: Vec::new() }
    }

    /// The directory of the caches.
    pub fn unified_root(&self) -> (r: &str)
        ensures
            r@ == self.unified_root@,
    {
        self.unified_root.as_str()
    }

    /// The epochs that the caches share.
    pub fn epoch_state(&self) -> (r: &EpochState)
        ensures
            *r == self.epochs,
    {
        &self.epochs
    }

    /// The directory of a volume.
    pub fn volume_dir(&self, volume_id: &str) -> (p: String)
        ensures
            p@ == text::joined_path(self.unified_root@, volume_id@),
    {
        text::join_path(self.unified_root.as_str(), volume_id)
    }

    fn find(&self, volume_id: &str) -> (r: Option<usize>)
        ensures
            match r {
                Some(i) => i < self.volumes@.len() && volume_of(self.volumes@[i as int]) == volume_id@,
                None => !is_open(self.volumes@, volume_id@),
            },
    {
        let mut i: usize = 0;
        while i < self.volumes.len()
            invariant
                i <= self.volumes@.len(),
                forall|j: int|
                    0 <= j < i ==> volume_of(#[trigger] self.volumes@[j]) != volume_id@,
            decreases self.volumes.len() - i,
        {
            if text::same_text(
                self.volumes[i].store.sidecar.header.volume_id.as_str(),
                volume_id,
            ) {
                return Some(i);
            }
            i = i + 1;
        }
        None
    }

    /// Opens a volume's cache (see `ChunkCache::open`), unless it is open: then
    /// the open one is meant, and nothing changes.
    pub fn open_volume(
        &mut self,
        volume_id: String,
        extent: [u32; 3],
        max_lod: u8,
        shard_chunks_per_axis: u32,
        image: Option<Vec<u8>>,
        max_age: u64,
    ) -> (r: OpenedVolume)
        requires
            old(self).wf(),
            max_lod <= 25,
            disk::side_fits(shard_chunks_per_axis),
            forall|l: int|
                0 <= l <= max_lod ==> (#[trigger] LodDims::of(extent, l as u8)).size() <= usize::MAX,
        ensures
            final(self).wf(),
            final(self).unified_root == old(self).unified_root,
            r.reused == is_open(old(self).volumes@, volume_id@),
            r.place < final(self).volumes@.len(),
            volume_of(final(self).volumes@[r.place as int]) == volume_id@,
            r.reused ==> *final(self) == *old(self) && !r.stale && r.interrupted@.len() == 0,
            !r.reused ==> {
                &&& r.place == old(self).volumes@.len()
                &&& final(self).volumes@.drop_last() == old(self).volumes@
                &&& chunk_cache::is_opened(
                    volume_id@,
                    extent,
                    max_lod,
                    shard_chunks_per_axis,
                    image,
                    max_age,
                    old(self).epochs,
                    final(self).epochs,
                    final(self).volumes@.last(),
                    r.stale,
                )
                &&& chunk_cache::lists_interrupted(image, r.stale, r.interrupted@)
            },
    {
        match self.find(volume_id.as_str()) {
            Some(place) => {
                assert(volume_of(self.volumes@[place as int]) == volume_id@);
                return OpenedVolume { place, reused: true, stale: false, interrupted: Vec::new() };
            },
            None => {},
        }
        let place = self.volumes.len();
        let OpenedCache { cache, stale, interrupted } = ChunkCache::open(
            volume_id,
            extent,
            max_lod,
            shard_chunks_per_axis,
            image,
            max_age,
            &mut self.epochs,
        );
        self.volumes.push(cache);
        proof {
            assert(self.volumes@.drop_last() =~= old(self).volumes@);
            assert forall|i: int| 0 <= i < self.volumes@.len() implies (
            #[trigger] self.volumes@[i]).wf() by {
                if i < place {
                    assert(self.volumes@[i] == old(self).volumes@[i]);
                }
            }
            assert forall|i: int, j: int| 0 <= i < j < self.volumes@.len() implies volume_of(
                #[trigger] self.volumes@[i],
            ) != volume_of(#[trigger] self.volumes@[j]) by {
                assert(self.volumes@[i] == old(self).volumes@[i]);
                if j < place {
                    assert(self.volumes@[j] == old(self).volumes@[j]);
                }
            }
        }
        OpenedVolume { place, reused: false, stale, interrupted }
    }

    /// What is to be given up now, with `free` bytes left on the disk if that
    /// is known: nothing while the cache is below its high-water mark and the
    /// disk has room, or when the epochs have not so much. Every open volume
    /// and every index file of the others then gives up what the plan takes.
    pub fn maintenance_plan(&self, free: Option<u64>) -> (r: Option<PurgePlan>)
        ensures
            ({
                let goal = epoch::purge_goal(self.epochs.total_chunks, self.epochs.cap_bytes, free);
                match r {
                    None => goal == 0 || purge::freed_at(
                        self.epochs.epoch_chunks@,
                        self.epochs.current,
                        1,
                    ) < goal,
                    Some(p) => goal > 0 && chunk_cache::is_plan(&self.epochs, goal as u64, p),
                }
            }),
    {
        let goal = purge_target(self.epochs.total_chunks(), self.epochs.cap_bytes(), free);
        if goal == 0 {
            return None;
        }
        PurgePlan::build(&self.epochs, goal)
    }

    /// What is to be made durable when the caches are left: for every volume
    /// what `DiskStore::begin_sync` says, and the contents of the epoch file.
    pub fn shutdown(&mut self) -> (r: (Vec<Option<SyncPlan>>, Vec<u8>))
        requires
            old(self).wf(),
        ensures
            final(self).wf(),
            final(self).unified_root == old(self).unified_root,
            final(self).epochs == old(self).epochs,
            final(self).volumes@.len() == old(self).volumes@.len(),
            r.0@.len() == old(self).volumes@.len(),
            forall|i: int|
                0 <= i < old(self).volumes@.len() ==> is_synced(
                    old(self).volumes@[i],
                    final(self).volumes@[i],
                    #[trigger] r.0@[i],
                ),
            r.1@ == epoch::stored(old(self).epochs.model()),
    {
        let mut plans: Vec<Option<SyncPlan>> = Vec::new();
        let mut i: usize = 0;
        while i < self.volumes.len()
            invariant
                i <= self.volumes@.len(),
                self.wf(),
                self.unified_root == old(self).unified_root,
                self.epochs == old(self).epochs,
                self.volumes@.len() == old(self).volumes@.len(),
                plans@.len() == i,
                forall|j: int|
                    0 <= j < i ==> is_synced(
                        old(self).volumes@[j],
                        self.volumes@[j],
                        #[trigger] plans@[j],
                    ),
                forall|j: int|
                    i <= j < self.volumes@.len() ==> #[trigger] self.volumes@[j]
                        == old(self).volumes@[j],
            decreases self.volumes.len() - i,
        {
            let ghost before = self.volumes@;
            assert(before[i as int].wf());
            let plan = self.volumes[i].store.begin_sync();
            proof {
                assert(self.volumes@[i as int].store.sidecar.header
                    == before[i as int].store.sidecar.header);
                assert forall|j: int| 0 <= j < self.volumes@.len() implies (
                #[trigger] self.volumes@[j]).wf() && volume_of(self.volumes@[j]) == volume_of(
                    before[j],
                ) by {
                    assert(before[j].wf());
                    if j != i {
                        assert(self.volumes@[j] == before[j]);
                    }
                }
                assert(is_synced(old(self).volumes@[i as int], self.volumes@[i as int], plan));
            }
            plans.push(plan);
            i = i + 1;
        }
        (plans, self.epochs.save())
    }
}

/// Whether a volume's changes were handed out to be made durable, once.
pub open spec fn is_synced(before: ChunkCache, after: ChunkCache, plan: Option<SyncPlan>) -> bool {
    let clean = forall|l: int|
        0 <= l < before.store.sidecar.pending@.len() ==> (
        #[trigger] before.store.sidecar.pending@[l]) == 0;
    &&& after.scheduler == before.scheduler
    &&& after.downloader == before.downloader
    &&& after.extent == before.extent
    &&& after.max_lod == before.max_lod
    &&& after.store.shards == before.store.shards
    &&& after.store.shard_chunks_per_axis == before.store.shard_chunks_per_axis
    &&& after.store.sidecar.header == before.store.sidecar.header
    &&& after.store.sidecar.states == before.store.sidecar.states
    &&& after.store.sidecar.access_epochs == before.store.sidecar.access_epochs
    &&& forall|l: int|
        0 <= l < after.store.sidecar.pending@.len() ==> (
        #[trigger] after.store.sidecar.pending@[l]) == 0
    &&& plan is None <==> clean
    &&& plan matches Some(p) ==> p.image@ == before.store.sidecar.image() && p.files@
        == disk::files_to_flush(
        before.store.shards@,
        before.store.sidecar.pending@,
        before.store.sidecar.pending@.len() as int,
    )
}

/// The sweep of a volume that is not open: what a plan takes of it is missing
/// in the index from the beginning on, and its bytes are then reclaimed.
pub struct OfflineSweep {
    pub sidecar: Sidecar,
    pub victims: Vec<Victim>,
}

/// Where the bytes of a chunk stand in a volume's files: the shard, and the
/// first byte in its file.
pub open spec fn bytes_at(key: ChunkKey) -> (ShardCoord, u64) {
    (
        disk::shard_of(key, SHARD_CHUNKS_PER_AXIS),
        (disk::place_in_shard(key, SHARD_CHUNKS_PER_AXIS) * CHUNK_VOXELS) as u64,
    )
}

impl OfflineSweep {
    /// Begins the sweep of a volume by its index file. None if the file cannot
    /// be taken up or the volume is open.
    pub fn begin(image: &[u8], live: &Vec<String>, plan: &PurgePlan, current: u8) -> (r: Option<
        OfflineSweep,
    >)
        ensures
            r is Some <==> loadable(image@) && !(exists|i: int|
                0 <= i < live@.len() && (#[trigger] live@[i])@ == sidecar::parsed_header(
                    image@,
                )->Ok_0.volume_id),
            r matches Some(w) ==> {
                let h = sidecar::parsed_header(image@)->Ok_0;
                let states = sidecar::loaded_columns(image@, h, sidecar::header_len(h));
                let epochs = sidecar::loaded_columns(
                    image@,
                    h,
                    sidecar::header_len(h) + sidecar::chunks_before(h.lods, h.lods.len() as int),
                );
                &&& w.sidecar.wf()
                &&& w.sidecar.header.model() == h
                &&& w.victims@ == purge::all_victims(
                    *plan,
                    current,
                    h.lods,
                    states,
                    epochs,
                    h.lods.len() as int,
                )
                &&& w.sidecar.model().states == epoch::demoted(*plan, current, states, epochs)
                &&& w.sidecar.model().access_epochs == epochs
            },
    {
        let mut sidecar = match Sidecar::load(image) {
            Ok(s) => s,
            Err(_) => {
                return None;
            },
        };
        let ghost h = sidecar.header.model();
        assert(sidecar.header.volume_id@ == h.volume_id);
        assert(sidecar.header.lods@ == h.lods && h.lods.len() <= 256);
        if !is_offline(sidecar.header.volume_id.as_str(), live) {
            return None;
        }
        let victims = begin_offline_sweep(&mut sidecar, plan, current);
        Some(OfflineSweep { sidecar, victims })
    }

    /// Where the bytes of victim number `i` stand (see `bytes_at`).
    pub fn place(&self, i: usize) -> (r: (ShardCoord, u64))
        requires
            i < self.victims@.len(),
        ensures
            r == bytes_at(self.victims@[i as int].key),
    {
        let key = self.victims[i].key;
        let side = SHARD_CHUNKS_PER_AXIS;
        let s: u64 = side as u64;
        let (wx, wy, wz) = ((key.x % side) as u64, (key.y % side) as u64, (key.z % side) as u64);
        proof {
            disk::lemma_place_in_shard(key, side);
            assert(side * side * side == 2097152);
            assert(wz * s + wy <= 127 * 128 + 127);
            assert((wz * s + wy) * s + wx <= 2097151);
        }
        let at: u64 = (wz * s + wy) * s + wx;
        let chunk: u64 = CHUNK_VOXELS as u64;
        assert(at == disk::place_in_shard(key, side));
        assert(at * chunk < 2097152 * 262144) by (nonlinear_arith)
            requires
                at <= 2097151,
                chunk == 262144,
        ;
        (
            ShardCoord { x: key.x / side, y: key.y / side, z: key.z / side },
            at * chunk,
        )
    }

    /// What is settled of a victim's bytes before they are punched out, by the
    /// length of the shard's file if there is one: without a file there is
    /// nothing to reclaim, and a file of another length is left alone.
    pub fn settled(len: Option<u64>) -> (r: Option<Reclaimed>)
        ensures
            r == (match len {
                None => Some(Reclaimed::NoFile),
                Some(n) => if n == SHARD_CHUNKS_PER_AXIS * SHARD_CHUNKS_PER_AXIS * SHARD_CHUNKS_PER_AXIS
                    * CHUNK_VOXELS {
                    None
                } else {
                    Some(Reclaimed::Failed)
                },
            }),
    {
        let s: u64 = SHARD_CHUNKS_PER_AXIS as u64;
        let chunk: u64 = CHUNK_VOXELS as u64;
        assert(s * s * s == 2097152 && chunk == 262144);
        match len {
            None => Some(Reclaimed::NoFile),
            Some(n) => if n == s * s * s * chunk {
                None
            } else {
                Some(Reclaimed::Failed)
            },
        }
    }

    /// Ends the sweep, `done` saying what became of each victim's bytes. Returns
    /// how many chunks were given up, and what the index file is to hold if
    /// there are any.
    pub fn end(&self, epochs: &mut EpochState, done: &Vec<Reclaimed>) -> (r: (u64, Option<Vec<u8>>))
        requires
            self.sidecar.wf(),
            done@.len() == self.victims@.len(),
        ensures
            final(epochs).model() == epoch::victims_recorded(
                old(epochs).model(),
                self.victims@,
                done@,
                self.victims@.len() as int,
            ),
            final(epochs).accumulated == old(epochs).accumulated,
            r.0 == epoch::freed_count(done@, done@.len() as int),
            r.0 == 0 ==> r.1 is None,
            r.0 > 0 ==> r.1 is Some && r.1->0@ == self.sidecar.image(),
    {
        let n = end_offline_sweep(epochs, &self.victims, done);
        if n == 0 {
            (0, None)
        } else {
            (n, Some(self.sidecar.to_bytes()))
        }
    }
}

/// A volume whose index file was counted is not counted again: neither when the
/// file is seen once more nor when the volume is opened.
pub proof fn law_volume_counts_once(c: Counted, image: Seq<u8>)
    ensures
        volume_seeded(volume_seeded(c, image), image) == volume_seeded(c, image),
{
    if loadable(image) {
        let id = sidecar::parsed_header(image)->Ok_0.volume_id;
        let v = volume_seeded(c, image).volumes;
        if !c.volumes.contains(id) {
            assert(v.last() == id);
        }
        assert(v.contains(id));
    }
}

/// The bytes of a chunk of a volume that is not open are where its store has
/// them when it is: shards are cubes of a hundred and twenty-eight chunks, in
/// which chunks stand x first, each with its voxels.
pub proof fn law_closed_volume_has_its_bytes_in_place(d: disk::DiskStore, key: ChunkKey)
    requires
        d.wf(),
        d.shard_chunks_per_axis == 128,
    ensures
        bytes_at(key).0 == d.place(key).shard,
        bytes_at(key).1 == d.slot_offset(key),
        bytes_at(key).0 == (ShardCoord { x: key.x / 128, y: key.y / 128, z: key.z / 128 }),
        bytes_at(key).1 == 262144 * (16384 * (key.z as int % 128) + 128 * (key.y as int % 128) + key.x as int
            % 128),
{
    d.lemma_place_fits(key);
    disk::lemma_place_in_shard(key, 128);
    let (x, y, z) = (key.x as int % 128, key.y as int % 128, key.z as int % 128);
    assert(disk::place_in_shard(key, 128) == (z * 128 + y) * 128 + x);
    assert((z * 128 + y) * 128 + x == 16384 * z + 128 * y + x);
}

} // verus!
