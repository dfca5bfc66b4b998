//! The on-disk store: where a chunk's voxels stand, which of them are there,
//! and how a slot changes hands.
//!
//! A level's chunks are laid out in shards, cubes of chunks that share one
//! sparse data file. The index has one state byte for every chunk; the byte
//! doubles as the slot's lock. The host opens files, writes and reclaims bytes
//! while a slot is held, and reports back.
use crate::bits::{ChunkBitState, ChunkStateBits};
use crate::chunk::{ChunkKey, ShardCoord, CHUNK_VOXELS};
use crate::sidecar;
use crate::sidecar::{
    Header, LodDims, Sidecar, SidecarModel, STATE_EMPTY, STATE_LOCKED, STATE_MISSING, STATE_RESIDENT,
};
use crate::text;
use vstd::prelude::*;
use vstd::string::*;

verus! {

/// What the store holds for a chunk.
#[derive(Debug, Clone, Copy, PartialEq, Eq, Structural)]
pub enum LoadOutcome {
    /// The voxels stand at this byte of the shard's file.
    Resident { shard: ShardCoord, offset: u64 },
    /// The source holds no data for the chunk.
    Empty,
    /// Nothing usable is stored.
    Missing,
}

/// What a write came to.
#[derive(Copy, Clone, Debug, PartialEq, Eq, Structural)]
pub enum WriteOutcome {
    /// The slot went from missing to resident.
    Wrote,
    /// Another writer was first; its bytes stand.
    AlreadyResident,
    /// The chunk is known to be empty.
    AlreadyEmpty,
}

/// Chunks along one edge of a shard.
pub const SHARD_CHUNKS_PER_AXIS: u32 = 128;

/// After this long the index is written out if it changed, in milliseconds.
pub const SYNC_INTERVAL_MS: u64 = 10_000;

/// After this many changes the index is written out at once.
pub const SYNC_COUNT_THRESHOLD: u64 = 256;

/// Where a chunk stands.
#[derive(Debug, Clone, Copy, PartialEq, Eq, Structural)]
pub struct ResolvedKey {
    /// Its place in the index.
    pub sidecar_idx: u64,
    /// Its shard.
    pub shard: ShardCoord,
    /// Its place in the shard, x fastest.
    pub in_shard_idx: u64,
}

/// The shard that a chunk belongs to.
pub open spec fn shard_of(key: ChunkKey, side: u32) -> ShardCoord {
    ShardCoord { x: key.x / side, y: key.y / side, z: key.z / side }
}

/// A chunk's place in its shard, x fastest.
pub open spec fn place_in_shard(key: ChunkKey, side: u32) -> int {
    ((key.z % side) * side + (key.y % side)) * side + (key.x % side)
}

/// A chunk's place lies in its shard.
pub proof fn lemma_place_in_shard(key: ChunkKey, side: u32)
    requires
        side > 0,
    ensures
        0 <= place_in_shard(key, side) < side * side * side,
{
    let d = LodDims { nx: side, ny: side, nz: side };
    sidecar::lemma_index_in_range(d, key.x % side, key.y % side, key.z % side);
}

/// Two chunks of one level never share a place: shard and place within it
/// determine the chunk.
pub proof fn law_places_are_distinct(a: ChunkKey, b: ChunkKey, side: u32)
    requires
        side > 0,
        a.lod == b.lod,
        shard_of(a, side) == shard_of(b, side),
        place_in_shard(a, side) == place_in_shard(b, side),
    ensures
        a == b,
{
    let d = LodDims { nx: side, ny: side, nz: side };
    sidecar::law_index_unflattens(d, a.x % side, a.y % side, a.z % side);
    sidecar::law_index_unflattens(d, b.x % side, b.y % side, b.z % side);
    lemma_div_mod_determine(a.x, b.x, side);
    lemma_div_mod_determine(a.y, b.y, side);
    lemma_div_mod_determine(a.z, b.z, side);
}

proof fn lemma_div_mod_determine(a: u32, b: u32, side: u32)
    requires
        side > 0,
        a / side == b / side,
        a % side == b % side,
    ensures
        a == b,
{
    vstd::arithmetic::div_mod::lemma_fundamental_div_mod(a as int, side as int);
    vstd::arithmetic::div_mod::lemma_fundamental_div_mod(b as int, side as int);
}

/// Whether shards of that many chunks along an edge can be: each has a chunk,
/// its chunks can be counted, and its file's bytes too.
pub open spec fn side_fits(side: u32) -> bool {
    &&& 0 < side
    &&& side * side * side <= usize::MAX
    &&& side * side * side * CHUNK_VOXELS <= u64::MAX
}

/// The bounds that follow for a shard's side.
pub proof fn lemma_side_fits(side: u32)
    requires
        side_fits(side),
    ensures
        0 < side <= side * side <= side * side * side <= u64::MAX / 262144,
{
    assert(side <= side * side <= side * side * side) by (nonlinear_arith)
        requires
            0 < side,
    ;
}

/// An open shard: its file is mapped by the host, its states are here.
pub struct OpenShard {
    pub lod: u8,
    pub shard: ShardCoord,
    pub state_bits: ChunkStateBits,
}

/// What a request for a slot came to.
#[derive(Debug, Clone, Copy, PartialEq, Eq, Structural)]
pub enum Claim {
    /// The slot is held; the bytes go to this byte of the shard's file.
    Held { shard: ShardCoord, offset: u64 },
    /// Another operation holds the slot; ask again.
    Busy,
    /// Nothing is to be written.
    Settled(WriteOutcome),
    /// The level has no such chunk.
    OutOfBounds,
    /// The state byte has a value that no operation stores.
    Unexpected(u8),
}

/// Whether one of the open shards is this one.
pub open spec fn open_in(shards: Seq<OpenShard>, lod: u8, shard: ShardCoord) -> bool {
    exists|i: int|
        0 <= i < shards.len() && (#[trigger] shards[i]).lod == lod && shards[i].shard == shard
}

/// Whether open shard `i` is this one.
pub open spec fn shard_at(shards: Seq<OpenShard>, i: int, lod: u8, shard: ShardCoord) -> bool {
    0 <= i < shards.len() && shards[i].lod == lod && shards[i].shard == shard
}

/// What the shard's map says of the chunk at a place; `None` if the shard is
/// not open.
pub open spec fn bit_in(shards: Seq<OpenShard>, lod: u8, shard: ShardCoord, place: int) -> Option<
    ChunkBitState,
> {
    if open_in(shards, lod, shard) {
        let i = choose|i: int| shard_at(shards, i, lod, shard);
        Some(shards[i].state_bits.at(place))
    } else {
        None
    }
}

/// The store's state.
pub struct DiskStore {
    pub sidecar: Sidecar,
    pub shard_chunks_per_axis: u32,
    pub shards: Vec<OpenShard>,
}

/// A store as it was taken up.
pub struct OpenedStore {
    pub store: DiskStore,
    /// What was there is of another layout, or cannot be read: its files are
    /// to be renamed aside first.
    pub stale: bool,
    /// The slots that an interrupted operation left locked. They count as
    /// missing; their bytes are to be reclaimed.
    pub interrupted: Vec<(u8, u64)>,
}

impl DiskStore {
    /// The index is whole and has every level up to the coarsest, the shards are
    /// of a size that a file can have, no shard is open twice, and every open
    /// shard's map has room for its chunks.
    pub open spec fn wf(&self) -> bool {
        &&& self.sidecar.wf()
        &&& self.sidecar.header.lods@.len() == self.sidecar.header.max_lod + 1
        &&& self.side_ok()
        &&& forall|i: int| 0 <= i < self.shards@.len() ==> self.shard_ok(#[trigger] self.shards@[i])
        &&& forall|i: int, j: int|
            0 <= i < self.shards@.len() && 0 <= j < self.shards@.len() && (
            #[trigger] self.shards@[i]).lod == (#[trigger] self.shards@[j]).lod
                && self.shards@[i].shard == self.shards@[j].shard ==> i == j
    }

    pub open spec fn side_ok(&self) -> bool {
        &&& side_fits(self.shard_chunks_per_axis)
    }

    /// Chunks in one shard.
    pub open spec fn chunks_per_shard(&self) -> int {
        self.shard_chunks_per_axis * self.shard_chunks_per_axis * self.shard_chunks_per_axis
    }

    pub open spec fn shard_ok(&self, s: OpenShard) -> bool {
        s.state_bits.room() >= self.chunks_per_shard()
    }

    /// Whether the store has a slot for the chunk.
    pub open spec fn has(&self, key: ChunkKey) -> bool {
        key.lod < self.sidecar.header.lods@.len() && self.sidecar.header.lods@[key.lod as int].has(
            key.x,
            key.y,
            key.z,
        )
    }

    /// Where a chunk stands.
    pub open spec fn place(&self, key: ChunkKey) -> ResolvedKey {
        ResolvedKey {
            sidecar_idx: self.sidecar.header.lods@[key.lod as int].index_of(
                key.x,
                key.y,
                key.z,
            ) as u64,
            shard: shard_of(key, self.shard_chunks_per_axis),
            in_shard_idx: place_in_shard(key, self.shard_chunks_per_axis) as u64,
        }
    }

    /// A chunk's place fits a machine word.
    pub proof fn lemma_place_fits(&self, key: ChunkKey)
        requires
            self.wf(),
        ensures
            self.place(key).in_shard_idx == place_in_shard(key, self.shard_chunks_per_axis),
            self.place(key).in_shard_idx < self.chunks_per_shard(),
    {
        let s = self.shard_chunks_per_axis;
        lemma_place_in_shard(key, s);
        lemma_side_fits(s);
    }

    /// The chunk's state byte.
    pub open spec fn slot_state(&self, key: ChunkKey) -> u8 {
        self.sidecar.state(key.lod, self.place(key).sidecar_idx)
    }

    /// The first byte of the chunk's slot in its shard's file.
    pub open spec fn slot_offset(&self, key: ChunkKey) -> u64 {
        (place_in_shard(key, self.shard_chunks_per_axis) * CHUNK_VOXELS) as u64
    }

    /// Whether the shard is open.
    pub open spec fn is_open(&self, lod: u8, shard: ShardCoord) -> bool {
        open_in(self.shards@, lod, shard)
    }

    /// Whether open shard `i` is this one.
    pub open spec fn is_shard(&self, i: int, lod: u8, shard: ShardCoord) -> bool {
        shard_at(self.shards@, i, lod, shard)
    }

    /// What the shard's map says of the chunk at a place; `None` if the shard
    /// is not open.
    pub open spec fn bit(&self, lod: u8, shard: ShardCoord, place: int) -> Option<ChunkBitState> {
        bit_in(self.shards@, lod, shard, place)
    }

    /// Nothing but one chunk's state in one shard's map has changed; that one,
    /// if the shard is open, is now `b`.
    pub open spec fn bits_updated(
        &self,
        before: &DiskStore,
        lod: u8,
        shard: ShardCoord,
        place: int,
        b: ChunkBitState,
    ) -> bool {
        forall|l: u8, s: ShardCoord, p: int|
            0 <= p < before.chunks_per_shard() ==> #[trigger] self.bit(l, s, p) == (if l == lod && s
                == shard && p == place && before.is_open(lod, shard) {
                Some(b)
            } else {
                before.bit(l, s, p)
            })
    }

    proof fn lemma_bit(&self, i: int, lod: u8, shard: ShardCoord, place: int)
        requires
            self.wf(),
            self.is_shard(i, lod, shard),
        ensures
            self.is_open(lod, shard),
            self.bit(lod, shard, place) == Some(self.shards@[i].state_bits.at(place)),
    {
        assert(self.shards@[i].lod == lod);
        assert(self.is_open(lod, shard));
        let c = choose|c: int| shard_at(self.shards@, c, lod, shard);
        assert(shard_at(self.shards@, i, lod, shard));
        assert(shard_at(self.shards@, c, lod, shard));
        assert(self.shards@[c].lod == self.shards@[i].lod);
        assert(c == i);
    }

    /// Takes up the store of a volume. `image` is the index file's contents,
    /// if there is one. An index of the expected layout is used as it is, but
    /// for slots that an interrupted operation left locked: these count as
    /// missing. Any other calls for a fresh start.
    pub fn new_with_shard_chunks_per_axis(
        volume_id: String,
        extent: [u32; 3],
        max_lod: u8,
        shard_chunks_per_axis: u32,
        image: Option<Vec<u8>>,
    ) -> (r: OpenedStore)
        requires
            max_lod <= 25,
            side_fits(shard_chunks_per_axis),
            forall|l: int|
                0 <= l <= max_lod ==> (#[trigger] LodDims::of(extent, l as u8)).size() <= usize::MAX,
        ensures
            r.store.wf(),
            r.store.shard_chunks_per_axis == shard_chunks_per_axis,
            r.store.shards@.len() == 0,
            r.stale == (match image {
                None => false,
                Some(bytes) => !reusable(bytes@, volume_id@, extent, max_lod),
            }),
            image is Some && !r.stale ==> is_taken_up(r.store.sidecar, image->0@)
                && lists_locked(image->0@, r.interrupted@),
            image is None || r.stale ==> is_fresh(r.store.sidecar, volume_id@, extent, max_lod)
                && r.interrupted@.len() == 0,
    {
        let expected = Header::new(volume_id, extent, max_lod);
        let mut stale = false;
        if let Some(bytes) = image {
            match Sidecar::load(&bytes) {
                Ok(s) => {
                    if s.header.matches(&expected) {
                        let mut s = s;
                        proof {
                            lemma_level_count(bytes@);
                        }
                        let interrupted = sweep_locked(&mut s);
                        let store = DiskStore {
                            sidecar: s,
                            shard_chunks_per_axis,
                            shards: Vec::new(),
                        };
                        assert(is_taken_up(store.sidecar, bytes@));
                        return OpenedStore { store, stale: false, interrupted };
                    }
                },
                Err(_) => {},
            }
            stale = true;
        }
        let store = DiskStore {
            sidecar: Sidecar::empty(expected),
            shard_chunks_per_axis,
            shards: Vec::new(),
        };
        assert(store.sidecar.model() =~~= fresh_model(store.sidecar.header.lods@));
        OpenedStore { store, stale, interrupted: Vec::new() }
    }

    /// Where a chunk stands, or `None` if its level has no such chunk.
    pub fn resolve(&self, key: ChunkKey) -> (r: Option<ResolvedKey>)
        requires
            self.wf(),
        ensures
            r == (if self.has(key) {
                Some(self.place(key))
            } else {
                None
            }),
            self.has(key) ==> {
                &&& self.sidecar.has_slot(key.lod, self.place(key).sidecar_idx)
                &&& self.place(key).sidecar_idx == self.sidecar.header.lods@[key.lod as int].index_of(
                    key.x,
                    key.y,
                    key.z,
                )
                &&& self.place(key).in_shard_idx == place_in_shard(key, self.shard_chunks_per_axis)
                &&& self.place(key).in_shard_idx < self.chunks_per_shard()
                &&& self.slot_offset(key) == self.place(key).in_shard_idx * CHUNK_VOXELS
            },
    {
        if key.lod as usize >= self.sidecar.header.lods.len() {
            return None;
        }
        let dims = self.sidecar.header.lods[key.lod as usize];
        proof {
            assert(self.sidecar.states@[key.lod as int]@.len() == dims.size());
            assert(self.sidecar.states@[key.lod as int]@.len()
                == self.sidecar.states@[key.lod as int].len());
        }
        let sidecar_idx = match dims.linear_index(key.x, key.y, key.z) {
            Some(i) => i,
            None => {
                return None;
            },
        };
        let side = self.shard_chunks_per_axis;
        let s: u64 = side as u64;
        let wx: u64 = (key.x % side) as u64;
        let wy: u64 = (key.y % side) as u64;
        let wz: u64 = (key.z % side) as u64;
        proof {
            lemma_place_in_shard(key, side);
            lemma_side_fits(side);
            assert(0 <= wz * s + wy <= (wz * s + wy) * s <= (wz * s + wy) * s + wx) by (nonlinear_arith)
                requires
                    0 <= wz,
                    0 <= wy,
                    0 <= wx,
                    0 < s,
            ;
        }
        let in_shard_idx: u64 = (wz * s + wy) * s + wx;
        Some(
            ResolvedKey {
                sidecar_idx,
                shard: ShardCoord { x: key.x / side, y: key.y / side, z: key.z / side },
                in_shard_idx,
            },
        )
    }

    /// A chunk's shard and its place there, if its level has it.
    pub open spec fn located(&self, key: ChunkKey) -> Option<(ShardCoord, u64)> {
        if self.has(key) {
            Some((self.place(key).shard, self.place(key).in_shard_idx))
        } else {
            None
        }
    }

    /// A chunk's shard and its place there.
    pub fn locate(&self, key: ChunkKey) -> (r: Option<(ShardCoord, u64)>)
        requires
            self.wf(),
        ensures
            r == self.located(key),
    {
        match self.resolve(key) {
            Some(p) => Some((p.shard, p.in_shard_idx)),
            None => None,
        }
    }

    /// What the index says of a chunk. A slot under an operation, like one of
    /// a state that no operation stores, has nothing usable.
    pub open spec fn loaded(&self, key: ChunkKey) -> LoadOutcome {
        if !self.has(key) {
            LoadOutcome::Missing
        } else if self.slot_state(key) == STATE_EMPTY {
            LoadOutcome::Empty
        } else if self.slot_state(key) == STATE_RESIDENT {
            LoadOutcome::Resident { shard: self.place(key).shard, offset: self.slot_offset(key) }
        } else {
            LoadOutcome::Missing
        }
    }

    /// What the store holds for a chunk, `opened` saying whether its shard's
    /// file can be opened: voxels behind a file that cannot be count as missing.
    pub open spec fn loaded_from(&self, key: ChunkKey, opened: bool) -> LoadOutcome {
        if !opened && self.loaded(key) is Resident {
            LoadOutcome::Missing
        } else {
            self.loaded(key)
        }
    }

    /// What the store holds for a chunk (see `loaded_from`). `opened` says
    /// whether the host could open the chunk's shard; it matters only where the
    /// index has voxels.
    pub fn load(&self, key: ChunkKey, opened: bool) -> (r: LoadOutcome)
        requires
            self.wf(),
        ensures
            r == self.loaded_from(key, opened),
    {
        let p = match self.resolve(key) {
            Some(p) => p,
            None => {
                return LoadOutcome::Missing;
            },
        };
        let state = self.sidecar.get_state(key.lod, p.sidecar_idx);
        if state == STATE_EMPTY {
            LoadOutcome::Empty
        } else if state == STATE_RESIDENT && opened {
            proof {
                self.lemma_offset(key);
            }
            LoadOutcome::Resident { shard: p.shard, offset: p.in_shard_idx * CHUNK_VOXELS as u64 }
        } else {
            LoadOutcome::Missing
        }
    }

    proof fn lemma_offset(&self, key: ChunkKey)
        requires
            self.wf(),
        ensures
            0 <= place_in_shard(key, self.shard_chunks_per_axis) * CHUNK_VOXELS <= u64::MAX,
            0 <= place_in_shard(key, self.shard_chunks_per_axis) < self.chunks_per_shard(),
    {
        let s = self.shard_chunks_per_axis;
        lemma_place_in_shard(key, s);
        lemma_side_fits(s);
    }

    /// A chunk's shard and byte there, if its voxels are stored and its shard
    /// could be opened.
    pub fn try_load(&self, key: ChunkKey, opened: bool) -> (r: Option<(ShardCoord, u64)>)
        requires
            self.wf(),
        ensures
            r == (if opened && self.has(key) && self.slot_state(key) == STATE_RESIDENT {
                Some((self.place(key).shard, self.slot_offset(key)))
            } else {
                None
            }),
    {
        match self.load(key, opened) {
            LoadOutcome::Resident { shard, offset } => Some((shard, offset)),
            _ => None,
        }
    }

    fn find_shard(&self, lod: u8, shard: ShardCoord) -> (r: Option<usize>)
        ensures
            match r {
                Some(i) => self.is_shard(i as int, lod, shard),
                None => !self.is_open(lod, shard),
            },
    {
        let mut i: usize = 0;
        while i < self.shards.len()
            invariant
                i <= self.shards@.len(),
                forall|j: int|
                    0 <= j < i ==> !((#[trigger] self.shards@[j]).lod == lod && self.shards@[j].shard
                        == shard),
            decreases self.shards.len() - i,
        {
            if self.shards[i].lod == lod && self.shards[i].shard == shard {
                return Some(i);
            }
            i = i + 1;
        }
        None
    }

    /// What the index says of the chunk at `place` of a shard: what a fresh
    /// map of the shard starts with.
    pub open spec fn seed(&self, lod: u8, shard: ShardCoord, place: int) -> ChunkBitState {
        let s = self.shard_chunks_per_axis as int;
        let x = shard.x * s + place % s;
        let y = shard.y * s + (place / s) % s;
        let z = shard.z * s + place / (s * s);
        let d = self.sidecar.header.lods@[lod as int];
        if x < d.nx && y < d.ny && z < d.nz {
            let st = self.sidecar.state(lod, d.index_of(x as u32, y as u32, z as u32) as u64);
            if st == STATE_RESIDENT {
                ChunkBitState::Resident
            } else if st == STATE_EMPTY {
                ChunkBitState::Empty
            } else {
                ChunkBitState::Unknown
            }
        } else {
            ChunkBitState::Unknown
        }
    }

    fn seed_shard_state_bits(&self, lod: u8, shard: ShardCoord) -> (bits: ChunkStateBits)
        requires
            self.wf(),
            lod < self.sidecar.header.lods@.len(),
        ensures
            bits.room() >= self.chunks_per_shard(),
            forall|p: int|
                0 <= p < self.chunks_per_shard() ==> #[trigger] bits.at(p) == self.seed(
                    lod,
                    shard,
                    p,
                ),
    {
        let s: u64 = self.shard_chunks_per_axis as u64;
        proof {
            lemma_side_fits(self.shard_chunks_per_axis);
        }
        let area: u64 = s * s;
        let n: u64 = area * s;
        let dims = self.sidecar.header.lods[lod as usize];
        proof {
            assert(self.sidecar.states@[lod as int]@.len() == dims.size());
            assert(self.sidecar.states@[lod as int]@.len()
                == self.sidecar.states@[lod as int].len());
        }
        let mut bits = ChunkStateBits::new(n);
        let mut p: u64 = 0;
        while p < n
            invariant
                p <= n,
                self.wf(),
                lod < self.sidecar.header.lods@.len(),
                dims == self.sidecar.header.lods@[lod as int],
                dims.size() <= u64::MAX,
                s == self.shard_chunks_per_axis,
                0 < s <= u32::MAX,
                area == s * s,
                0 < area,
                n == self.chunks_per_shard(),
                n == area * s,
                bits.room() >= n,
                forall|q: int| 0 <= q < p ==> #[trigger] bits.at(q) == self.seed(lod, shard, q),
                forall|q: int| p <= q < n ==> #[trigger] bits.at(q) == ChunkBitState::Unknown,
            decreases n - p,
        {
            proof {
                assert(shard.x * s <= 0xffff_ffff * 0xffff_ffff) by (nonlinear_arith)
                    requires
                        0 <= shard.x <= 0xffff_ffff,
                        0 < s <= 0xffff_ffff,
                ;
                assert(shard.y * s <= 0xffff_ffff * 0xffff_ffff) by (nonlinear_arith)
                    requires
                        0 <= shard.y <= 0xffff_ffff,
                        0 < s <= 0xffff_ffff,
                ;
                assert(shard.z * s <= 0xffff_ffff * 0xffff_ffff) by (nonlinear_arith)
                    requires
                        0 <= shard.z <= 0xffff_ffff,
                        0 < s <= 0xffff_ffff,
                ;
                assert(p / area < s) by (nonlinear_arith)
                    requires
                        0 <= p < area * s,
                        area > 0,
                ;
            }
            let x: u64 = shard.x as u64 * s + p % s;
            let y: u64 = shard.y as u64 * s + (p / s) % s;
            let z: u64 = shard.z as u64 * s + p / area;
            if x < dims.nx as u64 && y < dims.ny as u64 && z < dims.nz as u64 {
                if let Some(idx) = dims.linear_index(x as u32, y as u32, z as u32) {
                    let st = self.sidecar.get_state(lod, idx);
                    if st == STATE_RESIDENT {
                        bits.store(p, ChunkBitState::Resident);
                    } else if st == STATE_EMPTY {
                        bits.store(p, ChunkBitState::Empty);
                    }
                }
            }
            assert(bits.at(p as int) == self.seed(lod, shard, p as int));
            p = p + 1;
        }
        bits
    }

    /// Notes that the host has opened a shard's file. Its map starts with what
    /// the index says. A shard that is open already stays as it is.
    pub fn ensure_open(&mut self, lod: u8, shard: ShardCoord)
        requires
            old(self).wf(),
            lod < old(self).sidecar.header.lods@.len(),
        ensures
            final(self).wf(),
            final(self).sidecar == old(self).sidecar,
            final(self).shard_chunks_per_axis == old(self).shard_chunks_per_axis,
            final(self).is_open(lod, shard),
            old(self).is_open(lod, shard) ==> *final(self) == *old(self),
            forall|l: u8, s: ShardCoord, p: int|
                0 <= p < old(self).chunks_per_shard() ==> #[trigger] final(self).bit(l, s, p) == (
                if l == lod && s == shard && !old(self).is_open(lod, shard) {
                    Some(old(self).seed(lod, shard, p))
                } else {
                    old(self).bit(l, s, p)
                }),
    {
        if self.find_shard(lod, shard).is_some() {
            return ;
        }
        let ghost n = self.shards@.len() as int;
        let state_bits = self.seed_shard_state_bits(lod, shard);
        self.shards.push(OpenShard { lod, shard, state_bits });
        proof {
            let before = old(self).shards@;
            assert forall|i: int| 0 <= i < self.shards@.len() implies self.shard_ok(
                #[trigger] self.shards@[i],
            ) by {
                if i < n {
                    assert(self.shards@[i] == before[i]);
                    assert(old(self).shard_ok(before[i]));
                }
            }
            assert forall|i: int, j: int|
                0 <= i < self.shards@.len() && 0 <= j < self.shards@.len() && (
                #[trigger] self.shards@[i]).lod == (#[trigger] self.shards@[j]).lod
                    && self.shards@[i].shard == self.shards@[j].shard implies i == j by {
                if i < n {
                    assert(self.shards@[i] == before[i]);
                }
                if j < n {
                    assert(self.shards@[j] == before[j]);
                }
            }
            assert(self.is_shard(n, lod, shard));
            self.lemma_bit(n, lod, shard, 0);
            assert forall|l: u8, s: ShardCoord, p: int|
                0 <= p < old(self).chunks_per_shard() implies #[trigger] self.bit(l, s, p) == (if l
                == lod && s == shard {
                Some(old(self).seed(lod, shard, p))
            } else {
                old(self).bit(l, s, p)
            }) by {
                if l == lod && s == shard {
                    self.lemma_bit(n, lod, shard, p);
                } else if self.is_open(l, s) {
                    let i = choose|i: int|
                        0 <= i < self.shards@.len() && (#[trigger] self.shards@[i]).lod == l
                            && self.shards@[i].shard == s;
                    assert(i < n);
                    assert(before[i] == self.shards@[i]);
                    self.lemma_bit(i, l, s, p);
                    old(self).lemma_bit(i, l, s, p);
                } else {
                    if old(self).is_open(l, s) {
                        let i = choose|i: int|
                            0 <= i < before.len() && (#[trigger] before[i]).lod == l && before[i].shard
                                == s;
                        assert(self.shards@[i] == before[i]);
                    }
                }
            }
        }
    }

    /// The shard that a chunk belongs to.
    pub fn shard_of_chunk(&self, key: ChunkKey) -> (r: ShardCoord)
        requires
            self.wf(),
        ensures
            r == shard_of(key, self.shard_chunks_per_axis),
    {
        let side = self.shard_chunks_per_axis;
        ShardCoord { x: key.x / side, y: key.y / side, z: key.z / side }
    }

    /// What a shard's map says of one of its chunks, if the shard is open.
    pub fn peek_shard(&self, lod: u8, shard: ShardCoord, in_shard_idx: u64) -> (r: Option<
        ChunkBitState,
    >)
        requires
            self.wf(),
            in_shard_idx < self.chunks_per_shard(),
        ensures
            r == self.bit(lod, shard, in_shard_idx as int),
    {
        match self.find_shard(lod, shard) {
            Some(i) => {
                assert(self.shard_ok(self.shards@[i as int]));
                proof {
                    self.lemma_bit(i as int, lod, shard, in_shard_idx as int);
                }
                Some(self.shards[i].state_bits.load(in_shard_idx))
            },
            None => None,
        }
    }

    fn put_bit(&mut self, lod: u8, shard: ShardCoord, place: u64, b: ChunkBitState)
        requires
            old(self).wf(),
            place < old(self).chunks_per_shard(),
        ensures
            final(self).wf(),
            final(self).sidecar == old(self).sidecar,
            final(self).shard_chunks_per_axis == old(self).shard_chunks_per_axis,
            final(self).bits_updated(old(self), lod, shard, place as int, b),
            forall|l: u8, s: ShardCoord|
                #[trigger] final(self).is_open(l, s) == old(self).is_open(l, s),
    {
        match self.find_shard(lod, shard) {
            None => {},
            Some(i) => {
                assert(self.shard_ok(self.shards@[i as int]));
                self.shards[i].state_bits.store(place, b);
                proof {
                    let before = old(self).shards@;
                    assert forall|k: int| 0 <= k < self.shards@.len() implies {
                        &&& (#[trigger] self.shards@[k]).lod == before[k].lod
                        &&& self.shards@[k].shard == before[k].shard
                        &&& self.shard_ok(self.shards@[k])
                    } by {
                        assert(old(self).shard_ok(before[k]));
                    }
                    assert forall|l: u8, s: ShardCoord|
                        #[trigger] self.is_open(l, s) == old(self).is_open(l, s) by {
                        if self.is_open(l, s) {
                            let k = choose|k: int|
                                0 <= k < self.shards@.len() && (#[trigger] self.shards@[k]).lod == l
                                    && self.shards@[k].shard == s;
                            assert(before[k].lod == l);
                        }
                        if old(self).is_open(l, s) {
                            let k = choose|k: int|
                                0 <= k < before.len() && (#[trigger] before[k]).lod == l
                                    && before[k].shard == s;
                            assert(self.shards@[k].lod == l);
                        }
                    }
                    assert(self.wf());
                    old(self).lemma_bit(i as int, lod, shard, place as int);
                    assert forall|l: u8, s: ShardCoord, p: int|
                        0 <= p < old(self).chunks_per_shard() implies #[trigger] self.bit(l, s, p)
                        == (if l == lod && s == shard && p == place {
                        Some(b)
                    } else {
                        old(self).bit(l, s, p)
                    }) by {
                        if old(self).is_open(l, s) {
                            let k = choose|k: int|
                                0 <= k < before.len() && (#[trigger] before[k]).lod == l
                                    && before[k].shard == s;
                            assert(old(self).is_shard(k, l, s));
                            assert(self.shards@[k].lod == l);
                            assert(self.is_shard(k, l, s));
                            old(self).lemma_bit(k, l, s, p);
                            self.lemma_bit(k, l, s, p);
                        }
                    }
                }
            },
        }
    }

    /// Claims a chunk for dispatch in its shard's map, if nothing is known of
    /// it there. The shard has to be open. `None` if the level has no such
    /// chunk.
    pub fn mark_dispatched(&mut self, key: ChunkKey) -> (r: Option<bool>)
        requires
            old(self).wf(),
            old(self).has(key) ==> old(self).is_open(key.lod, old(self).place(key).shard),
        ensures
            final(self).wf(),
            final(self).sidecar == old(self).sidecar,
            final(self).shard_chunks_per_axis == old(self).shard_chunks_per_axis,
            r == (if old(self).has(key) {
                Some(
                    old(self).bit(
                        key.lod,
                        old(self).place(key).shard,
                        old(self).place(key).in_shard_idx as int,
                    ) == Some(ChunkBitState::Unknown),
                )
            } else {
                None
            }),
            r == Some(true) ==> final(self).bits_updated(
                old(self),
                key.lod,
                old(self).place(key).shard,
                old(self).place(key).in_shard_idx as int,
                ChunkBitState::Dispatched,
            ),
            r != Some(true) ==> *final(self) == *old(self),
    {
        let p = match self.resolve(key) {
            Some(p) => p,
            None => {
                return None;
            },
        };
        let known = self.peek_shard(key.lod, p.shard, p.in_shard_idx);
        if known == Some(ChunkBitState::Unknown) {
            self.put_bit(key.lod, p.shard, p.in_shard_idx, ChunkBitState::Dispatched);
            Some(true)
        } else {
            Some(false)
        }
    }

    /// The index with one slot's state replaced, and the change counted.
    pub open spec fn slot_changed(&self, before: &DiskStore, key: ChunkKey, state: u8) -> bool {
        let at = before.place(key).sidecar_idx as int;
        &&& self.sidecar.header == before.sidecar.header
        &&& self.sidecar.model() == (if before.slot_state(key) == state {
            before.sidecar.model()
        } else {
            before.sidecar.model().with_state(key.lod as int, at, state).one_more_pending(
                key.lod as int,
            )
        })
    }

    fn put_slot(&mut self, key: ChunkKey, p: ResolvedKey, state: u8)
        requires
            old(self).wf(),
            old(self).has(key),
            p == old(self).place(key),
            old(self).sidecar.has_slot(key.lod, p.sidecar_idx),
        ensures
            final(self).wf(),
            final(self).shard_chunks_per_axis == old(self).shard_chunks_per_axis,
            final(self).shards == old(self).shards,
            final(self).slot_changed(old(self), key, state),
            final(self).slot_state(key) == state,
    {
        let _ = self.sidecar.set_state(key.lod, p.sidecar_idx, state);
        proof {
            let l = key.lod as int;
            let i = p.sidecar_idx as int;
            assert(self.sidecar.model().states[l] == self.sidecar.states@[l]@);
            assert(old(self).sidecar.model().states[l] == old(self).sidecar.states@[l]@);
            assert(self.sidecar.states@[l]@[i] == state);
        }
    }

    /// Asks for a chunk's slot to write its voxels. A missing slot is locked
    /// and handed over; the host then writes, and ends with `end_write`. A
    /// slot that holds something, or that another operation holds, is left.
    pub fn begin_write(&mut self, key: ChunkKey) -> (r: Claim)
        requires
            old(self).wf(),
        ensures
            final(self).wf(),
            final(self).shard_chunks_per_axis == old(self).shard_chunks_per_axis,
            final(self).shards == old(self).shards,
            r == old(self).claim(key),
            r is Held ==> final(self).slot_changed(old(self), key, STATE_LOCKED)
                && final(self).slot_state(key) == STATE_LOCKED,
            !(r is Held) ==> *final(self) == *old(self),
    {
        let p = match self.resolve(key) {
            Some(p) => p,
            None => {
                return Claim::OutOfBounds;
            },
        };
        proof {
            self.lemma_offset(key);
        }
        let state = self.sidecar.get_state(key.lod, p.sidecar_idx);
        if state == STATE_MISSING {
            self.put_slot(key, p, STATE_LOCKED);
            Claim::Held { shard: p.shard, offset: p.in_shard_idx * CHUNK_VOXELS as u64 }
        } else if state == STATE_LOCKED {
            Claim::Busy
        } else if state == STATE_RESIDENT {
            Claim::Settled(WriteOutcome::AlreadyResident)
        } else if state == STATE_EMPTY {
            Claim::Settled(WriteOutcome::AlreadyEmpty)
        } else {
            Claim::Unexpected(state)
        }
    }

    /// What a request to write a chunk comes to.
    pub open spec fn claim(&self, key: ChunkKey) -> Claim {
        if !self.has(key) {
            Claim::OutOfBounds
        } else if self.slot_state(key) == STATE_MISSING {
            Claim::Held { shard: self.place(key).shard, offset: self.slot_offset(key) }
        } else if self.slot_state(key) == STATE_LOCKED {
            Claim::Busy
        } else if self.slot_state(key) == STATE_RESIDENT {
            Claim::Settled(WriteOutcome::AlreadyResident)
        } else if self.slot_state(key) == STATE_EMPTY {
            Claim::Settled(WriteOutcome::AlreadyEmpty)
        } else {
            Claim::Unexpected(self.slot_state(key))
        }
    }

    /// Ends a write. If the bytes are in place the slot becomes resident, in
    /// the index and in the shard's map; if the write failed it is given back
    /// as missing.
    pub fn end_write(&mut self, key: ChunkKey, written: bool)
        requires
            old(self).wf(),
            old(self).has(key),
            old(self).slot_state(key) == STATE_LOCKED,
        ensures
            final(self).wf(),
            final(self).shard_chunks_per_axis == old(self).shard_chunks_per_axis,
            final(self).slot_changed(
                old(self),
                key,
                if written {
                    STATE_RESIDENT
                } else {
                    STATE_MISSING
                },
            ),
            written ==> final(self).bits_updated(
                old(self),
                key.lod,
                old(self).place(key).shard,
                old(self).place(key).in_shard_idx as int,
                ChunkBitState::Resident,
            ),
            !written ==> final(self).shards == old(self).shards,
    {
        if let Some(p) = self.resolve(key) {
            if written {
                self.put_slot(key, p, STATE_RESIDENT);
                self.put_bit(key.lod, p.shard, p.in_shard_idx, ChunkBitState::Resident);
            } else {
                self.put_slot(key, p, STATE_MISSING);
            }
        }
    }

    /// Asks for a chunk's slot to put preview bytes there. Only a missing slot
    /// is handed over: a preview never competes with anything definite. The
    /// host writes and ends with `end_preview`. `None` if the level has no
    /// such chunk.
    pub fn begin_preview(&mut self, key: ChunkKey) -> (r: Option<bool>)
        requires
            old(self).wf(),
        ensures
            final(self).wf(),
            final(self).shard_chunks_per_axis == old(self).shard_chunks_per_axis,
            final(self).shards == old(self).shards,
            r == (if old(self).has(key) {
                Some(old(self).slot_state(key) == STATE_MISSING)
            } else {
                None
            }),
            r == Some(true) ==> final(self).slot_changed(old(self), key, STATE_LOCKED)
                && final(self).slot_state(key) == STATE_LOCKED,
            r != Some(true) ==> *final(self) == *old(self),
    {
        match self.begin_write(key) {
            Claim::OutOfBounds => None,
            Claim::Held { .. } => Some(true),
            _ => Some(false),
        }
    }

    /// Ends a preview, written or not: the slot is given back as missing.
    pub fn end_preview(&mut self, key: ChunkKey)
        requires
            old(self).wf(),
            old(self).has(key),
            old(self).slot_state(key) == STATE_LOCKED,
        ensures
            final(self).wf(),
            final(self).shard_chunks_per_axis == old(self).shard_chunks_per_axis,
            final(self).shards == old(self).shards,
            final(self).slot_changed(old(self), key, STATE_MISSING),
    {
        self.end_write(key, false);
    }

    /// Notes that the source has no data for a chunk, in the index and, if the
    /// shard is open, in its map. False if the level has no such chunk or the
    /// host could not open its shard; then nothing is noted.
    pub fn mark_empty(&mut self, key: ChunkKey, opened: bool) -> (r: bool)
        requires
            old(self).wf(),
        ensures
            final(self).wf(),
            final(self).shard_chunks_per_axis == old(self).shard_chunks_per_axis,
            r == (opened && old(self).has(key)),
            !r ==> *final(self) == *old(self),
            r ==> {
                &&& final(self).slot_changed(old(self), key, STATE_EMPTY)
                &&& final(self).bits_updated(
                    old(self),
                    key.lod,
                    old(self).place(key).shard,
                    old(self).place(key).in_shard_idx as int,
                    ChunkBitState::Empty,
                )
            },
    {
        if !opened {
            return false;
        }
        match self.resolve(key) {
            None => false,
            Some(p) => {
                self.put_slot(key, p, STATE_EMPTY);
                self.put_bit(key.lod, p.shard, p.in_shard_idx, ChunkBitState::Empty);
                true
            },
        }
    }

    /// Asks for a resident chunk's slot to reclaim its bytes. The slot is
    /// locked and the shard's map forgets the chunk before the host punches
    /// its bytes out; `end_evict` ends it. False if the slot is not resident.
    pub fn begin_evict(&mut self, key: ChunkKey) -> (r: bool)
        requires
            old(self).wf(),
        ensures
            final(self).wf(),
            final(self).shard_chunks_per_axis == old(self).shard_chunks_per_axis,
            r == (old(self).has(key) && old(self).slot_state(key) == STATE_RESIDENT),
            !r ==> *final(self) == *old(self),
            r ==> {
                &&& final(self).slot_changed(old(self), key, STATE_LOCKED)
                &&& final(self).slot_state(key) == STATE_LOCKED
                &&& final(self).bits_updated(
                    old(self),
                    key.lod,
                    old(self).place(key).shard,
                    old(self).place(key).in_shard_idx as int,
                    ChunkBitState::Unknown,
                )
            },
    {
        match self.resolve(key) {
            None => false,
            Some(p) => {
                if self.sidecar.get_state(key.lod, p.sidecar_idx) != STATE_RESIDENT {
                    return false;
                }
                self.put_slot(key, p, STATE_LOCKED);
                self.put_bit(key.lod, p.shard, p.in_shard_idx, ChunkBitState::Unknown);
                true
            },
        }
    }

    /// Ends an eviction: the slot is missing.
    pub fn end_evict(&mut self, key: ChunkKey)
        requires
            old(self).wf(),
            old(self).has(key),
            old(self).slot_state(key) == STATE_LOCKED,
        ensures
            final(self).wf(),
            final(self).shard_chunks_per_axis == old(self).shard_chunks_per_axis,
            final(self).shards == old(self).shards,
            final(self).slot_changed(old(self), key, STATE_MISSING),
    {
        self.end_write(key, false);
    }

    /// The bytes to punch out of the chunk's shard file; `None` if the shard
    /// is not open, so that nothing was ever written.
    pub fn punch_hole(&self, key: ChunkKey) -> (r: Option<(ShardCoord, u64, u64)>)
        requires
            self.wf(),
            self.has(key),
        ensures
            r == (if self.is_open(key.lod, self.place(key).shard) {
                Some((self.place(key).shard, self.slot_offset(key), CHUNK_VOXELS as u64))
            } else {
                None
            }),
    {
        match self.resolve(key) {
            None => None,
            Some(p) => {
                proof {
                    self.lemma_offset(key);
                }
                match self.find_shard(key.lod, p.shard) {
                    Some(i) => {
                        proof {
                            self.lemma_bit(i as int, key.lod, p.shard, 0);
                        }
                        Some((p.shard, p.in_shard_idx * CHUNK_VOXELS as u64, CHUNK_VOXELS as u64))
                    },
                    None => None,
                }
            },
        }
    }

    /// The epoch in which a chunk was last used.
    pub fn get_access_epoch(&self, key: ChunkKey) -> (r: Option<u8>)
        requires
            self.wf(),
        ensures
            r == (if self.has(key) {
                Some(self.sidecar.epoch(key.lod, self.place(key).sidecar_idx))
            } else {
                None
            }),
    {
        match self.resolve(key) {
            None => None,
            Some(p) => Some(self.sidecar.get_access_epoch(key.lod, p.sidecar_idx)),
        }
    }

    /// Stamps a chunk with an epoch; nothing happens beyond the level's chunks.
    pub fn set_access_epoch(&mut self, key: ChunkKey, epoch: u8)
        requires
            old(self).wf(),
        ensures
            final(self).wf(),
            final(self).shard_chunks_per_axis == old(self).shard_chunks_per_axis,
            final(self).shards == old(self).shards,
            final(self).sidecar.header == old(self).sidecar.header,
            final(self).sidecar.model() == (if old(self).has(key) {
                old(self).sidecar.model().with_epoch(
                    key.lod as int,
                    old(self).place(key).sidecar_idx as int,
                    epoch,
                )
            } else {
                old(self).sidecar.model()
            }),
    {
        if let Some(p) = self.resolve(key) {
            self.sidecar.set_access_epoch(key.lod, p.sidecar_idx, epoch);
        }
    }

    /// Replaces a chunk's epoch if it is `current`; otherwise reports what it
    /// is. `None` beyond the level's chunks.
    pub fn cas_access_epoch(&mut self, key: ChunkKey, current: u8, new: u8) -> (r: Option<
        Result<u8, u8>,
    >)
        requires
            old(self).wf(),
        ensures
            final(self).wf(),
            final(self).shard_chunks_per_axis == old(self).shard_chunks_per_axis,
            final(self).shards == old(self).shards,
            final(self).sidecar.header == old(self).sidecar.header,
            ({
                let at = old(self).place(key).sidecar_idx;
                let found = old(self).sidecar.epoch(key.lod, at);
                &&& r == (if !old(self).has(key) {
                    None
                } else if found == current {
                    Some(Ok(current))
                } else {
                    Some(Err(found))
                })
                &&& final(self).sidecar.model() == (if old(self).has(key) && found == current
                    && current != new {
                    old(self).sidecar.model().with_epoch(
                        key.lod as int,
                        at as int,
                        new,
                    ).one_more_pending(key.lod as int)
                } else {
                    old(self).sidecar.model()
                })
            }),
    {
        match self.resolve(key) {
            None => None,
            Some(p) => Some(
                self.sidecar.compare_exchange_access_epoch(key.lod, p.sidecar_idx, current, new),
            ),
        }
    }

    /// Chunks along one edge of a shard.
    pub fn shard_chunks_per_axis(&self) -> (n: u32)
        ensures
            n == self.shard_chunks_per_axis,
    {
        self.shard_chunks_per_axis
    }

    /// Whether so much has changed that the index should be written out now.
    pub fn wants_sync(&self) -> (r: bool)
        ensures
            r == (Sidecar::pending_sum(self.sidecar.pending@) >= SYNC_COUNT_THRESHOLD),
    {
        self.sidecar.total_pending() >= SYNC_COUNT_THRESHOLD
    }
}

/// Whether an index image can be used for this volume: its header can be read,
/// it fits in memory, and it describes the same layout.
pub open spec fn reusable(bytes: Seq<u8>, volume_id: Seq<char>, extent: [u32; 3], max_lod: u8) -> bool {
    match sidecar::parsed_header(bytes) {
        Err(_) => false,
        Ok(h) => {
            &&& sidecar::header_len(h) + 2 * sidecar::chunks_before(h.lods, h.lods.len() as int)
                <= usize::MAX
            &&& h.volume_id == volume_id
            &&& h.chunk_side == 64
            &&& h.max_lod == max_lod
            &&& h.extent == extent@
        },
    }
}

proof fn lemma_level_count(bytes: Seq<u8>)
    ensures
        sidecar::parsed_header(bytes) matches Ok(h) ==> h.lods.len() <= 256,
{
}

/// State bytes after the slots that an interrupted operation left locked have
/// been given back as missing.
pub open spec fn swept(states: Seq<Seq<u8>>) -> Seq<Seq<u8>> {
    Seq::new(
        states.len(),
        |l: int|
            Seq::new(
                states[l].len(),
                |i: int|
                    if states[l][i] == STATE_LOCKED {
                        STATE_MISSING
                    } else {
                        states[l][i]
                    },
            ),
    )
}

/// How many of the first `n` slots of a level an interrupted operation left
/// locked.
pub open spec fn locked_count(states: Seq<u8>, n: nat) -> nat
    decreases n,
{
    if n == 0 {
        0
    } else {
        locked_count(states, (n - 1) as nat) + (if states[n - 1] == STATE_LOCKED {
            1nat
        } else {
            0
        })
    }
}

proof fn lemma_locked_count(states: Seq<u8>, n: nat)
    ensures
        locked_count(states, n) <= n,
    decreases n,
{
    if n > 0 {
        lemma_locked_count(states, (n - 1) as nat);
    }
}

/// The changes that giving back locked slots makes in each level.
pub open spec fn sweeps(states: Seq<Seq<u8>>) -> Seq<u64> {
    Seq::new(states.len(), |l: int| locked_count(states[l], states[l].len()) as u64)
}

/// Whether this is the index that an image is taken up as: as it is, but for
/// the slots that an interrupted operation left locked.
pub open spec fn is_taken_up(s: Sidecar, image: Seq<u8>) -> bool {
    let h = sidecar::parsed_header(image)->Ok_0;
    let stored = sidecar::loaded_columns(image, h, sidecar::header_len(h));
    &&& s.header.model() == h
    &&& s.model() == (SidecarModel {
        states: swept(stored),
        access_epochs: sidecar::loaded_columns(
            image,
            h,
            sidecar::header_len(h) + sidecar::chunks_before(h.lods, h.lods.len() as int),
        ),
        pending: sweeps(stored),
    })
}

/// Whether these are the slots that an interrupted operation left locked in an
/// image.
pub open spec fn lists_locked(image: Seq<u8>, slots: Seq<(u8, u64)>) -> bool {
    let h = sidecar::parsed_header(image)->Ok_0;
    let stored = sidecar::loaded_columns(image, h, sidecar::header_len(h));
    forall|l: int, i: int|
        0 <= l < stored.len() && 0 <= i < stored[l].len() ==> (#[trigger] stored[l][i]
            == STATE_LOCKED <==> slots.contains((l as u8, i as u64)))
}

/// The grids of a volume's levels.
pub open spec fn grids(extent: [u32; 3], max_lod: u8) -> Seq<LodDims> {
    Seq::new((max_lod + 1) as nat, |l: int| LodDims::of(extent, l as u8))
}

/// An index over these grids in which every chunk is missing and nothing has
/// happened.
pub open spec fn fresh_model(lods: Seq<LodDims>) -> SidecarModel {
    SidecarModel {
        states: Seq::new(lods.len(), |l: int| Seq::new(lods[l].size() as nat, |i: int| STATE_MISSING)),
        access_epochs: Seq::new(lods.len(), |l: int| Seq::new(lods[l].size() as nat, |i: int| 0u8)),
        pending: Seq::new(lods.len(), |l: int| 0u64),
    }
}

/// Whether this is a fresh index for a volume.
pub open spec fn is_fresh(s: Sidecar, volume_id: Seq<char>, extent: [u32; 3], max_lod: u8) -> bool {
    &&& s.header.volume_id@ == volume_id
    &&& s.header.chunk_side == 64
    &&& s.header.max_lod == max_lod
    &&& s.header.extent == extent
    &&& s.header.lods@ == grids(extent, max_lod)
    &&& s.model() == fresh_model(grids(extent, max_lod))
}

/// Gives back every locked slot as missing, and lists those slots.
fn sweep_locked(s: &mut Sidecar) -> (found: Vec<(u8, u64)>)
    requires
        old(s).wf(),
        old(s).header.lods@.len() <= 256,
        forall|l: int| 0 <= l < old(s).pending@.len() ==> (#[trigger] old(s).pending@[l]) == 0,
    ensures
        final(s).wf(),
        final(s).header == old(s).header,
        final(s).model().states == swept(old(s).model().states),
        final(s).model().pending == sweeps(old(s).model().states),
        final(s).model().access_epochs == old(s).model().access_epochs,
        forall|l: int, i: int|
            0 <= l < old(s).states@.len() && 0 <= i < old(s).states@[l]@.len() ==> (
            #[trigger] old(s).model().states[l][i] == STATE_LOCKED <==> found@.contains(
                (l as u8, i as u64),
            )),
{
    let ghost was = s.model().states;
    let mut found: Vec<(u8, u64)> = Vec::new();
    let levels = s.header.lods.len();
    let mut l: usize = 0;
    while l < levels
        invariant
            l <= levels <= 256,
            levels == s.header.lods@.len(),
            s.wf(),
            s.header == old(s).header,
            was == old(s).model().states,
            was.len() == levels,
            s.model().access_epochs == old(s).model().access_epochs,
            forall|k: int| 0 <= k < l ==> #[trigger] s.model().states[k] == swept(was)[k],
            forall|k: int| l <= k < levels ==> #[trigger] s.model().states[k] == was[k],
            forall|k: int| 0 <= k < l ==> #[trigger] s.model().pending[k] == sweeps(was)[k],
            forall|k: int| l <= k < levels ==> #[trigger] s.model().pending[k] == 0,
            forall|k: int, j: int|
                0 <= k < l && 0 <= j < was[k].len() ==> (#[trigger] was[k][j] == STATE_LOCKED
                    <==> found@.contains((k as u8, j as u64))),
            forall|e: int| 0 <= e < found@.len() ==> (#[trigger] found@[e]).0 < l,
            forall|k: int|
                0 <= k < levels ==> #[trigger] was[k].len() == s.header.lods@[k].size(),
        decreases levels - l,
    {
        let lod = l as u8;
        let n: u64 = s.states[l].len() as u64;
        assert(s.states@[l as int]@.len() == n);
        let mut i: u64 = 0;
        while i < n
            invariant
                i <= n,
                l < levels <= 256,
                lod == l,
                levels == s.header.lods@.len(),
                n == was[l as int].len(),
                s.wf(),
                s.header == old(s).header,
                was == old(s).model().states,
                was.len() == levels,
                s.model().access_epochs == old(s).model().access_epochs,
                forall|k: int| 0 <= k < l ==> #[trigger] s.model().states[k] == swept(was)[k],
                forall|k: int| l < k < levels ==> #[trigger] s.model().states[k] == was[k],
                forall|k: int| 0 <= k < l ==> #[trigger] s.model().pending[k] == sweeps(was)[k],
                forall|k: int| l < k < levels ==> #[trigger] s.model().pending[k] == 0,
                s.model().pending[l as int] == locked_count(was[l as int], i as nat),
                s.model().states[l as int].len() == n,
                forall|j: int|
                    0 <= j < i ==> #[trigger] s.model().states[l as int][j] == swept(
                        was,
                    )[l as int][j],
                forall|j: int|
                    i <= j < n ==> #[trigger] s.model().states[l as int][j] == was[l as int][j],
                forall|k: int, j: int|
                    0 <= k < l && 0 <= j < was[k].len() ==> (#[trigger] was[k][j] == STATE_LOCKED
                        <==> found@.contains((k as u8, j as u64))),
                forall|j: int|
                    0 <= j < i ==> (#[trigger] was[l as int][j] == STATE_LOCKED
                        <==> found@.contains((lod, j as u64))),
                forall|e: int|
                    0 <= e < found@.len() ==> (#[trigger] found@[e]).0 < l || (found@[e].0 == lod
                        && found@[e].1 < i),
                forall|k: int|
                    0 <= k < levels ==> #[trigger] was[k].len() == s.header.lods@[k].size(),
            decreases n - i,
        {
            let ghost mid = s.model();
            let ghost list = found@;
            let st = s.get_state(lod, i);
            assert(st == mid.states[l as int][i as int]);
            assert(st == was[l as int][i as int]);
            proof {
                lemma_locked_count(was[l as int], i as nat);
            }
            if st == STATE_LOCKED {
                s.set_state(lod, i, STATE_MISSING);
                found.push((lod, i));
                assert(found@[list.len() as int] == (lod, i));
                assert forall|k: int, j: int|
                    0 <= k < l && 0 <= j < was[k].len() implies (#[trigger] was[k][j]
                    == STATE_LOCKED <==> found@.contains((k as u8, j as u64))) by {
                    lemma_push_contains(list, (lod, i), (k as u8, j as u64));
                }
                assert forall|j: int| 0 <= j < i implies (#[trigger] was[l as int][j]
                    == STATE_LOCKED <==> found@.contains((lod, j as u64))) by {
                    lemma_push_contains(list, (lod, i), (lod, j as u64));
                }
            } else {
                assert(!found@.contains((lod, i))) by {
                    if found@.contains((lod, i)) {
                        let e = choose|e: int| 0 <= e < found@.len() && found@[e] == (lod, i);
                        assert(found@[e].0 == lod);
                    }
                }
            }
            i = i + 1;
        }
        assert(s.model().states[l as int] =~= swept(was)[l as int]);
        l = l + 1;
    }
    assert(s.model().states =~= swept(was));
    assert(s.model().pending =~= sweeps(was));
    found
}

proof fn lemma_push_contains(s: Seq<(u8, u64)>, e: (u8, u64), x: (u8, u64))
    ensures
        s.push(e).contains(x) <==> s.contains(x) || x == e,
{
    if s.contains(x) {
        let k = choose|k: int| 0 <= k < s.len() && s[k] == x;
        assert(s.push(e)[k] == x);
    }
    if x == e {
        assert(s.push(e)[s.len() as int] == x);
    }
    if s.push(e).contains(x) && x != e {
        let k = choose|k: int| 0 <= k < s.push(e).len() && s.push(e)[k] == x;
        assert(s[k] == x);
    }
}


/// What is to be made durable: the data files to flush, and then the index
/// image to put in place. In this order a resident slot of the stored index
/// always has its bytes on disk.
pub struct SyncPlan {
    pub files: Vec<(u8, ShardCoord)>,
    pub image: Vec<u8>,
}

/// The open shards of level `lod`, in order.
pub open spec fn open_of_level(shards: Seq<OpenShard>, lod: u8) -> Seq<(u8, ShardCoord)>
    decreases shards.len(),
{
    if shards.len() == 0 {
        Seq::empty()
    } else if shards.last().lod == lod {
        open_of_level(shards.drop_last(), lod).push((lod, shards.last().shard))
    } else {
        open_of_level(shards.drop_last(), lod)
    }
}

/// The open shards of the first `n` levels that have changes.
pub open spec fn files_to_flush(shards: Seq<OpenShard>, pending: Seq<u64>, n: int) -> Seq<(u8, ShardCoord)>
    decreases n,
{
    if n <= 0 {
        Seq::empty()
    } else if pending[n - 1] == 0 {
        files_to_flush(shards, pending, n - 1)
    } else {
        files_to_flush(shards, pending, n - 1) + open_of_level(shards, (n - 1) as u8)
    }
}

impl DiskStore {
    /// Takes up the store of a volume with shards of the usual size; see
    /// `new_with_shard_chunks_per_axis`.
    pub fn new(volume_id: String, extent: [u32; 3], max_lod: u8, image: Option<Vec<u8>>) -> (r:
        OpenedStore)
        requires
            max_lod <= 25,
            forall|l: int|
                0 <= l <= max_lod ==> (#[trigger] LodDims::of(extent, l as u8)).size() <= usize::MAX,
        ensures
            r.store.wf(),
            r.store.shard_chunks_per_axis == SHARD_CHUNKS_PER_AXIS,
            r.store.shards@.len() == 0,
            r.stale == (match image {
                None => false,
                Some(bytes) => !reusable(bytes@, volume_id@, extent, max_lod),
            }),
            image is Some && !r.stale ==> is_taken_up(r.store.sidecar, image->0@)
                && lists_locked(image->0@, r.interrupted@),
            image is None || r.stale ==> is_fresh(r.store.sidecar, volume_id@, extent, max_lod)
                && r.interrupted@.len() == 0,
    {
        assert(128int * 128int * 128int == 2097152int);
        Self::new_with_shard_chunks_per_axis(
            volume_id,
            extent,
            max_lod,
            SHARD_CHUNKS_PER_AXIS,
            image,
        )
    }

    /// How long a shard's file is.
    pub fn shard_bytes(&self) -> (n: u64)
        requires
            self.wf(),
        ensures
            n == self.chunks_per_shard() * CHUNK_VOXELS,
    {
        let s: u64 = self.shard_chunks_per_axis as u64;
        proof {
            lemma_side_fits(self.shard_chunks_per_axis);
        }
        s * s * s * CHUNK_VOXELS as u64
    }

    /// What is to be made durable now; `None` if nothing changed since the
    /// last time. The changes count as taken care of.
    pub fn begin_sync(&mut self) -> (r: Option<SyncPlan>)
        requires
            old(self).wf(),
        ensures
            final(self).wf(),
            final(self).shard_chunks_per_axis == old(self).shard_chunks_per_axis,
            final(self).shards == old(self).shards,
            final(self).sidecar.header == old(self).sidecar.header,
            final(self).sidecar.states == old(self).sidecar.states,
            final(self).sidecar.access_epochs == old(self).sidecar.access_epochs,
            forall|l: int|
                0 <= l < final(self).sidecar.pending@.len() ==> (
                #[trigger] final(self).sidecar.pending@[l]) == 0,
            r is None <==> forall|l: int|
                0 <= l < old(self).sidecar.pending@.len() ==> (
                #[trigger] old(self).sidecar.pending@[l]) == 0,
            r matches Some(plan) ==> {
                &&& plan.image@ == old(self).sidecar.image()
                &&& plan.files@ == files_to_flush(
                    old(self).shards@,
                    old(self).sidecar.pending@,
                    old(self).sidecar.pending@.len() as int,
                )
            },
    {
        let pending = self.sidecar.take_pending();
        let mut files: Vec<(u8, ShardCoord)> = Vec::new();
        let mut changed = false;
        let mut l: usize = 0;
        while l < pending.len()
            invariant
                l <= pending@.len() <= 256,
                files@ == files_to_flush(self.shards@, pending@, l as int),
                changed == !(forall|k: int| 0 <= k < l ==> (#[trigger] pending@[k]) == 0),
            decreases pending.len() - l,
        {
            if pending[l] != 0 {
                changed = true;
                let ghost front = files@;
                let lod = l as u8;
                let mut i: usize = 0;
                while i < self.shards.len()
                    invariant
                        i <= self.shards@.len(),
                        files@ == front + open_of_level(self.shards@.take(i as int), lod),
                    decreases self.shards.len() - i,
                {
                    let ghost here = self.shards@.take(i + 1);
                    assert(here.drop_last() =~= self.shards@.take(i as int));
                    if self.shards[i].lod == lod {
                        files.push((lod, self.shards[i].shard));
                    }
                    assert(files@ =~= front + open_of_level(here, lod));
                    i = i + 1;
                }
                assert(self.shards@.take(self.shards@.len() as int) =~= self.shards@);
                assert(pending@[l as int] != 0);
            }
            l = l + 1;
        }
        if !changed {
            return None;
        }
        Some(SyncPlan { files, image: self.sidecar.to_bytes() })
    }
}

/// How much longer the writing out of the index can wait, in milliseconds.
pub fn sync_timeout(since_last: u64) -> (t: u64)
    ensures
        t == (if since_last >= SYNC_INTERVAL_MS {
            0
        } else {
            SYNC_INTERVAL_MS - since_last
        }),
{
    if since_last >= SYNC_INTERVAL_MS {
        0
    } else {
        SYNC_INTERVAL_MS - since_last
    }
}

/// What to do with a shard's file of this length.
#[derive(Debug, Clone, Copy, PartialEq, Eq, Structural)]
pub enum ShardFile {
    /// It is new: give it its length.
    Extend,
    /// It is as it should be.
    Use,
    /// It is of another length; it must not be used.
    Refuse,
}

/// What to do with a shard's file of length `len` that should have `expected`.
pub fn check_shard_file(len: u64, expected: u64) -> (r: ShardFile)
    ensures
        r == (if len == 0 {
            ShardFile::Extend
        } else if len == expected {
            ShardFile::Use
        } else {
            ShardFile::Refuse
        }),
{
    if len == 0 {
        ShardFile::Extend
    } else if len == expected {
        ShardFile::Use
    } else {
        ShardFile::Refuse
    }
}

/// The name of a shard's file.
pub open spec fn shard_file(lod: u8, shard: ShardCoord) -> Seq<char> {
    "chunks-L"@ + text::padded(lod as nat, 2) + "-X"@ + text::padded(shard.x as nat, 3) + "-Y"@
        + text::padded(shard.y as nat, 3) + "-Z"@ + text::padded(shard.z as nat, 3) + ".dat"@
}

/// The name of a shard's file.
pub fn shard_filename(lod: u8, shard: ShardCoord) -> (s: String)
    ensures
        s@ == shard_file(lod, shard),
{
    let mut out: Vec<char> = Vec::new();
    text::push_text(&mut out, "chunks-L");
    text::push_padded(&mut out, lod as u64, 2);
    text::push_text(&mut out, "-X");
    text::push_padded(&mut out, shard.x as u64, 3);
    text::push_text(&mut out, "-Y");
    text::push_padded(&mut out, shard.y as u64, 3);
    text::push_text(&mut out, "-Z");
    text::push_padded(&mut out, shard.z as u64, 3);
    text::push_text(&mut out, ".dat");
    assert(out@ =~= shard_file(lod, shard));
    text::from_chars(&out)
}

/// Whether a file in a volume's directory belongs to the store.
pub open spec fn is_store_file(name: Seq<char>) -> bool {
    ||| text::occurs_at(name, "chunks-L"@, 0) && text::occurs_at(
        name,
        ".dat"@,
        name.len() - ".dat"@.len(),
    )
    ||| name == "chunks.idx"@
}

/// The name that a file of the store gets when it is put aside at `ts` seconds;
/// `None` if the file does not belong to the store.
pub fn stale_name(name: &str, ts: u64) -> (r: Option<String>)
    ensures
        r is Some <==> is_store_file(name@),
        r matches Some(s) ==> s@ == name@ + ".stale."@ + text::decimal(ts as nat),
{
    let chars = text::to_chars(name);
    let head = text::to_chars("chunks-L");
    let tail = text::to_chars(".dat");
    let is_data = text::starts_with(&chars, &head) && chars.len() >= tail.len()
        && text::matches_at(&chars, &tail, chars.len() - tail.len());
    let is_index = text::same_text(name, "chunks.idx");
    if !is_data && !is_index {
        return None;
    }
    let mut out = chars;
    text::push_text(&mut out, ".stale.");
    text::push_decimal(&mut out, ts);
    assert(out@ =~= name@ + ".stale."@ + text::decimal(ts as nat));
    Some(text::from_chars(&out))
}

/// A slot that an operation holds is handed to no other: a writer is told to
/// wait, a preview and an eviction are turned away.
pub proof fn law_held_slot_is_exclusive(d: DiskStore, key: ChunkKey)
    requires
        d.has(key),
        d.slot_state(key) == STATE_LOCKED,
    ensures
        d.claim(key) == Claim::Busy,
        d.slot_state(key) != STATE_MISSING,
        d.slot_state(key) != STATE_RESIDENT,
        !(d.claim(key) is Held),
{
}

/// A change of one slot leaves every other chunk's state as it was.
pub proof fn law_slots_are_independent(
    before: DiskStore,
    after: DiskStore,
    key: ChunkKey,
    state: u8,
    other: ChunkKey,
)
    requires
        before.wf(),
        after.wf(),
        before.shard_chunks_per_axis == after.shard_chunks_per_axis,
        before.has(key),
        before.has(other),
        after.slot_changed(&before, key, state),
    ensures
        after.has(other),
        after.slot_state(key) == state,
        other != key ==> after.slot_state(other) == before.slot_state(other),
{
    let d = before.sidecar.header.lods@[key.lod as int];
    lemma_place_known(before, key);
    lemma_place_known(before, other);
    let (l, m) = (key.lod as int, other.lod as int);
    assert(after.sidecar.model().states[l] == after.sidecar.states@[l]@);
    assert(before.sidecar.model().states[l] == before.sidecar.states@[l]@);
    assert(after.sidecar.model().states[m] == after.sidecar.states@[m]@);
    assert(before.sidecar.model().states[m] == before.sidecar.states@[m]@);
    if key.lod == other.lod && before.place(key).sidecar_idx == before.place(other).sidecar_idx {
        sidecar::law_index_unflattens(d, key.x, key.y, key.z);
        sidecar::law_index_unflattens(d, other.x, other.y, other.z);
        assert(key == other);
    }
}

pub(crate) proof fn lemma_place_known(d: DiskStore, key: ChunkKey)
    requires
        d.wf(),
        d.has(key),
    ensures
        d.place(key).sidecar_idx == d.sidecar.header.lods@[key.lod as int].index_of(
            key.x,
            key.y,
            key.z,
        ),
        d.sidecar.has_slot(key.lod, d.place(key).sidecar_idx),
        d.place(key).in_shard_idx == place_in_shard(key, d.shard_chunks_per_axis),
        0 <= place_in_shard(key, d.shard_chunks_per_axis) < d.chunks_per_shard(),
{
    let dims = d.sidecar.header.lods@[key.lod as int];
    sidecar::lemma_index_in_range(dims, key.x, key.y, key.z);
    assert(d.sidecar.states@[key.lod as int]@.len() == dims.size());
    assert(d.sidecar.states@[key.lod as int]@.len() == d.sidecar.states@[key.lod as int].len());
    d.lemma_offset(key);
}

/// The bytes of a chunk's slot in its shard's file.
pub open spec fn slot_bytes(file: Seq<u8>, offset: int) -> Seq<u8> {
    file.subrange(offset, offset + CHUNK_VOXELS)
}

/// A shard's file after `bytes` were written at an offset.
pub open spec fn file_written(file: Seq<u8>, offset: int, bytes: Seq<u8>) -> Seq<u8> {
    file.take(offset) + bytes + file.skip(offset + bytes.len())
}

/// What was written to a chunk's slot is read back from it, and every other
/// chunk of the shard reads as before.
pub proof fn law_write_reads_back(
    d: DiskStore,
    key: ChunkKey,
    other: ChunkKey,
    file: Seq<u8>,
    bytes: Seq<u8>,
)
    requires
        d.wf(),
        bytes.len() == CHUNK_VOXELS,
        file.len() == d.chunks_per_shard() * CHUNK_VOXELS,
        other.lod == key.lod,
        other != key,
        d.place(other).shard == d.place(key).shard,
    ensures
        file_written(file, d.slot_offset(key) as int, bytes).len() == file.len(),
        slot_bytes(file_written(file, d.slot_offset(key) as int, bytes), d.slot_offset(key) as int)
            == bytes,
        slot_bytes(file_written(file, d.slot_offset(key) as int, bytes), d.slot_offset(other) as int)
            == slot_bytes(file, d.slot_offset(other) as int),
{
    d.lemma_offset(key);
    d.lemma_offset(other);
    let side = d.shard_chunks_per_axis;
    let (a, b) = (place_in_shard(key, side), place_in_shard(other, side));
    if a == b {
        law_places_are_distinct(key, other, side);
    }
    let n = d.chunks_per_shard();
    let (x, y) = (d.slot_offset(key) as int, d.slot_offset(other) as int);
    assert(x == a * CHUNK_VOXELS && y == b * CHUNK_VOXELS);
    assert(x + CHUNK_VOXELS <= n * CHUNK_VOXELS && y + CHUNK_VOXELS <= n * CHUNK_VOXELS);
    assert(x + CHUNK_VOXELS <= y || y + CHUNK_VOXELS <= x);
    let w = file_written(file, x, bytes);
    assert(slot_bytes(w, x) =~= bytes);
    assert(slot_bytes(w, y) =~= slot_bytes(file, y));
}

/// A chunk whose voxels were written is found at the place that was handed out
/// for them: between the request for its slot and the end of the write, no
/// matter what else changed in other slots.
pub proof fn law_written_chunk_is_found(
    before: DiskStore,
    held: DiskStore,
    after: DiskStore,
    key: ChunkKey,
)
    requires
        before.wf(),
        held.wf(),
        after.wf(),
        before.claim(key) is Held,
        held.shard_chunks_per_axis == before.shard_chunks_per_axis,
        after.shard_chunks_per_axis == before.shard_chunks_per_axis,
        held.sidecar.header == before.sidecar.header,
        held.slot_state(key) == STATE_LOCKED,
        after.slot_changed(&held, key, STATE_RESIDENT),
    ensures
        ({
            let (shard, offset) = (before.claim(key)->Held_shard, before.claim(key)->Held_offset);
            &&& after.loaded(key) == (LoadOutcome::Resident { shard, offset })
            &&& after.claim(key) == Claim::Settled(WriteOutcome::AlreadyResident)
        }),
{
    law_slots_are_independent(held, after, key, STATE_RESIDENT, key);
}

/// A chunk has a place exactly if its level is one of the volume's and its
/// grid has it; the place lies in its shard; and no two chunks of a level share
/// one.
pub proof fn law_every_chunk_has_its_place(d: DiskStore, a: ChunkKey, b: ChunkKey)
    requires
        d.wf(),
        a.lod == b.lod,
    ensures
        d.located(a) is None <==> a.lod > d.sidecar.header.max_lod
            || !d.sidecar.header.lods@[a.lod as int].has(a.x, a.y, a.z),
        d.located(a) matches Some((_, i)) ==> i < d.chunks_per_shard(),
        d.located(a) is Some && d.located(a) == d.located(b) ==> a == b,
{
    d.lemma_place_fits(a);
    d.lemma_place_fits(b);
    if d.located(a) is Some && d.located(a) == d.located(b) {
        law_places_are_distinct(a, b, d.shard_chunks_per_axis);
    }
}

/// Voxels behind a file that cannot be opened count as missing, whatever the
/// index says; nothing else hangs on the file.
pub proof fn law_refused_file_counts_as_missing(d: DiskStore, key: ChunkKey)
    ensures
        !(d.loaded_from(key, false) is Resident),
        d.loaded(key) is Resident ==> d.loaded_from(key, false) is Missing,
        !(d.loaded(key) is Resident) ==> d.loaded_from(key, false) == d.loaded_from(key, true),
{
}

/// A store that is written out and opened again for the same volume finds
/// every chunk as it was, but for those under an operation, which are missing:
/// what was written is there, and what was marked empty is empty.
pub proof fn law_reopening_finds_every_chunk(d: DiskStore, again: DiskStore, key: ChunkKey, opened: bool)
    requires
        d.wf(),
        d.sidecar.header.chunk_side == 64,
        vstd::utf8::encode_utf8(d.sidecar.header.volume_id@).len() < 0x1_0000,
        d.sidecar.image().len() <= usize::MAX,
        again.shard_chunks_per_axis == d.shard_chunks_per_axis,
        is_taken_up(again.sidecar, d.sidecar.image()),
    ensures
        reusable(
            d.sidecar.image(),
            d.sidecar.header.volume_id@,
            d.sidecar.header.extent,
            d.sidecar.header.max_lod,
        ),
        again.has(key) == d.has(key),
        d.has(key) && d.slot_state(key) != STATE_LOCKED ==> again.slot_state(key) == d.slot_state(key),
        again.loaded_from(key, opened) == d.loaded_from(key, opened),
{
    sidecar::law_image_round_trip(d.sidecar);
    sidecar::lemma_image_len(d.sidecar);
    let h = d.sidecar.header.model();
    assert(again.sidecar.header.model() == h);
    assert(again.sidecar.header.lods@ == d.sidecar.header.lods@);
    assert(again.sidecar.model().states == swept(d.sidecar.model().states));
    if d.has(key) {
        let dims = d.sidecar.header.lods@[key.lod as int];
        sidecar::lemma_index_in_range(dims, key.x, key.y, key.z);
        let (l, i) = (key.lod as int, d.place(key).sidecar_idx as int);
        assert(d.sidecar.model().states[l] == d.sidecar.states@[l]@);
        assert(again.sidecar.model().states[l] == again.sidecar.states@[l]@);
        assert(d.sidecar.states@[l]@.len() == dims.size());
        assert(d.sidecar.states@[l]@.len() == d.sidecar.states@[l].len());
        assert(i == dims.index_of(key.x, key.y, key.z));
        assert(again.slot_state(key) == swept(d.sidecar.model().states)[l][i]);
    }
}

/// What the shards' maps and the index say agrees: an open shard's map has a
/// chunk as resident exactly if the index does, and as empty exactly if the
/// index does.
pub open spec fn maps_agree(d: DiskStore) -> bool {
    forall|key: ChunkKey|
        #[trigger] d.has(key) && d.is_open(key.lod, d.place(key).shard) ==> {
            let b = d.bit(key.lod, d.place(key).shard, d.place(key).in_shard_idx as int);
            &&& b == Some(ChunkBitState::Resident) <==> d.slot_state(key) == STATE_RESIDENT
            &&& b == Some(ChunkBitState::Empty) <==> d.slot_state(key) == STATE_EMPTY
        }
}

/// A change of one chunk in both the index and its shard's map, to states that
/// mean the same, keeps the two in agreement. This covers the end of a write,
/// the marking of an empty chunk, and the start of an eviction.
pub proof fn law_agreement_kept_by_joint_change(
    before: DiskStore,
    after: DiskStore,
    key: ChunkKey,
    state: u8,
    b: ChunkBitState,
)
    requires
        before.wf(),
        after.wf(),
        before.shard_chunks_per_axis == after.shard_chunks_per_axis,
        before.has(key),
        maps_agree(before),
        after.slot_changed(&before, key, state),
        after.bits_updated(
            &before,
            key.lod,
            before.place(key).shard,
            before.place(key).in_shard_idx as int,
            b,
        ),
        state == STATE_RESIDENT <==> b == ChunkBitState::Resident,
        state == STATE_EMPTY <==> b == ChunkBitState::Empty,
    ensures
        maps_agree(after),
{
    lemma_place_known(before, key);
    assert forall|k: ChunkKey|
        #[trigger] after.has(k) && after.is_open(k.lod, after.place(k).shard) implies ({
        let c = after.bit(k.lod, after.place(k).shard, after.place(k).in_shard_idx as int);
        &&& c == Some(ChunkBitState::Resident) <==> after.slot_state(k) == STATE_RESIDENT
        &&& c == Some(ChunkBitState::Empty) <==> after.slot_state(k) == STATE_EMPTY
    }) by {
        assert(before.has(k));
        lemma_place_known(before, k);
        law_slots_are_independent(before, after, key, state, k);
        assert(before.place(k) == after.place(k));
        let p = before.place(k);
        let c = after.bit(k.lod, p.shard, p.in_shard_idx as int);
        assert(c is Some);
        if k.lod == key.lod && p.shard == before.place(key).shard && p.in_shard_idx == before.place(
            key,
        ).in_shard_idx {
            law_places_are_distinct(k, key, before.shard_chunks_per_axis);
        } else {
            assert(c == before.bit(k.lod, p.shard, p.in_shard_idx as int));
        }
    }
}

/// Taking a missing slot's lock, and giving it back as missing, keeps the maps
/// and the index in agreement.
pub proof fn law_agreement_kept_by_lock(before: DiskStore, after: DiskStore, key: ChunkKey, state: u8)
    requires
        before.wf(),
        after.wf(),
        before.shard_chunks_per_axis == after.shard_chunks_per_axis,
        before.has(key),
        maps_agree(before),
        after.slot_changed(&before, key, state),
        after.shards == before.shards,
        before.slot_state(key) != STATE_RESIDENT && before.slot_state(key) != STATE_EMPTY,
        state != STATE_RESIDENT && state != STATE_EMPTY,
    ensures
        maps_agree(after),
{
    assert forall|k: ChunkKey|
        #[trigger] after.has(k) && after.is_open(k.lod, after.place(k).shard) implies ({
        let c = after.bit(k.lod, after.place(k).shard, after.place(k).in_shard_idx as int);
        &&& c == Some(ChunkBitState::Resident) <==> after.slot_state(k) == STATE_RESIDENT
        &&& c == Some(ChunkBitState::Empty) <==> after.slot_state(k) == STATE_EMPTY
    }) by {
        assert(before.has(k));
        law_slots_are_independent(before, after, key, state, k);
        assert(before.place(k) == after.place(k));
    }
}

/// Opening a shard keeps the maps and the index in agreement: a fresh map
/// starts with what the index says.
pub proof fn law_agreement_kept_by_open(before: DiskStore, after: DiskStore, lod: u8, shard: ShardCoord)
    requires
        before.wf(),
        after.wf(),
        maps_agree(before),
        after.sidecar == before.sidecar,
        after.shard_chunks_per_axis == before.shard_chunks_per_axis,
        !before.is_open(lod, shard),
        forall|l: u8, s: ShardCoord, p: int|
            0 <= p < before.chunks_per_shard() ==> #[trigger] after.bit(l, s, p) == (if l == lod && s
                == shard {
                Some(before.seed(lod, shard, p))
            } else {
                before.bit(l, s, p)
            }),
    ensures
        maps_agree(after),
{
    assert forall|k: ChunkKey|
        #[trigger] after.has(k) && after.is_open(k.lod, after.place(k).shard) implies ({
        let c = after.bit(k.lod, after.place(k).shard, after.place(k).in_shard_idx as int);
        &&& c == Some(ChunkBitState::Resident) <==> after.slot_state(k) == STATE_RESIDENT
        &&& c == Some(ChunkBitState::Empty) <==> after.slot_state(k) == STATE_EMPTY
    }) by {
        assert(before.has(k));
        lemma_place_known(before, k);
        let p = before.place(k);
        assert(after.place(k) == p);
        let c = after.bit(k.lod, p.shard, p.in_shard_idx as int);
        if k.lod == lod && p.shard == shard {
            lemma_seed_of(before, k);
        } else {
            assert(c == before.bit(k.lod, p.shard, p.in_shard_idx as int));
            assert(c is Some);
            assert(before.is_open(k.lod, p.shard));
        }
    }
}

proof fn lemma_seed_of(d: DiskStore, key: ChunkKey)
    requires
        d.wf(),
        d.has(key),
    ensures
        d.seed(key.lod, d.place(key).shard, d.place(key).in_shard_idx as int) == (if d.slot_state(key)
            == STATE_RESIDENT {
            ChunkBitState::Resident
        } else if d.slot_state(key) == STATE_EMPTY {
            ChunkBitState::Empty
        } else {
            ChunkBitState::Unknown
        }),
{
    let side = d.shard_chunks_per_axis;
    let s = side as int;
    lemma_place_known(d, key);
    let dims = LodDims { nx: side, ny: side, nz: side };
    sidecar::law_index_unflattens(dims, key.x % side, key.y % side, key.z % side);
    let place = place_in_shard(key, side);
    assert(place == dims.index_of(key.x % side, key.y % side, key.z % side));
    vstd::arithmetic::div_mod::lemma_fundamental_div_mod(key.x as int, s);
    vstd::arithmetic::div_mod::lemma_fundamental_div_mod(key.y as int, s);
    vstd::arithmetic::div_mod::lemma_fundamental_div_mod(key.z as int, s);
    assert(s * (key.x as int / s) == (key.x as int / s) * s) by (nonlinear_arith);
    assert(s * (key.y as int / s) == (key.y as int / s) * s) by (nonlinear_arith);
    assert(s * (key.z as int / s) == (key.z as int / s) * s) by (nonlinear_arith);
}

/// Chunk `(a, b, c)` of a shard belongs to that shard, and stands in its file
/// behind those with smaller coordinates, x counting first and z last, each
/// taking a byte for every voxel of its sixty-four along every edge.
pub proof fn law_chunks_stand_x_first_in_their_shard(
    d: DiskStore,
    key: ChunkKey,
    shard: ShardCoord,
    a: int,
    b: int,
    c: int,
)
    requires
        d.wf(),
        0 <= a < d.shard_chunks_per_axis,
        0 <= b < d.shard_chunks_per_axis,
        0 <= c < d.shard_chunks_per_axis,
        key.x == shard.x * d.shard_chunks_per_axis + a,
        key.y == shard.y * d.shard_chunks_per_axis + b,
        key.z == shard.z * d.shard_chunks_per_axis + c,
    ensures
        d.place(key).shard == shard,
        d.place(key).in_shard_idx == (c * d.shard_chunks_per_axis + b) * d.shard_chunks_per_axis + a,
        d.slot_offset(key) == 262144 * ((c * d.shard_chunks_per_axis + b) * d.shard_chunks_per_axis
            + a),
{
    let side = d.shard_chunks_per_axis as int;
    vstd::arithmetic::div_mod::lemma_fundamental_div_mod_converse(key.x as int, side, shard.x as int, a);
    vstd::arithmetic::div_mod::lemma_fundamental_div_mod_converse(key.y as int, side, shard.y as int, b);
    vstd::arithmetic::div_mod::lemma_fundamental_div_mod_converse(key.z as int, side, shard.z as int, c);
    d.lemma_place_fits(key);
    d.lemma_offset(key);
    lemma_side_fits(d.shard_chunks_per_axis);
    let p = place_in_shard(key, d.shard_chunks_per_axis);
    assert(p * CHUNK_VOXELS == 262144 * p);
}

/// A shard's file is named after its level and its place on the x, y and z axes,
/// with two digits and three at least.
pub proof fn law_shard_file_names_its_shard(lod: u8, shard: ShardCoord) -> (parts: (
    Seq<char>,
    Seq<char>,
    Seq<char>,
    Seq<char>,
))
    ensures
        shard_file(lod, shard) == "chunks-L"@ + parts.0 + "-X"@ + parts.1 + "-Y"@ + parts.2 + "-Z"@ + parts.3
            + ".dat"@,
        text::parsed_unsigned(parts.0, u32::MAX as nat) == Some(lod as nat),
        text::parsed_unsigned(parts.1, u32::MAX as nat) == Some(shard.x as nat),
        text::parsed_unsigned(parts.2, u32::MAX as nat) == Some(shard.y as nat),
        text::parsed_unsigned(parts.3, u32::MAX as nat) == Some(shard.z as nat),
        parts.0.len() == 2 || parts.0.len() > 2 && parts.0[0] != '0',
        parts.1.len() == 3 || parts.1.len() > 3 && parts.1[0] != '0',
        parts.2.len() == 3 || parts.2.len() > 3 && parts.2[0] != '0',
        parts.3.len() == 3 || parts.3.len() > 3 && parts.3[0] != '0',
{
    let max = u32::MAX as nat;
    text::law_numeral_reads_back(lod as nat, 2, max);
    text::law_numeral_reads_back(shard.x as nat, 3, max);
    text::law_numeral_reads_back(shard.y as nat, 3, max);
    text::law_numeral_reads_back(shard.z as nat, 3, max);
    (
        text::padded(lod as nat, 2),
        text::padded(shard.x as nat, 3),
        text::padded(shard.y as nat, 3),
        text::padded(shard.z as nat, 3),
    )
}

/// The files that are flushed are those of the open shards of the levels that
/// have changes.
pub proof fn law_open_shards_of_changed_levels_are_flushed(
    shards: Seq<OpenShard>,
    pending: Seq<u64>,
    n: int,
    lod: u8,
    shard: ShardCoord,
)
    requires
        0 <= n <= pending.len(),
        n <= 256,
    ensures
        files_to_flush(shards, pending, n).contains((lod, shard)) <==> lod < n && pending[lod as int] > 0
            && exists|i: int|
            0 <= i < shards.len() && (#[trigger] shards[i]).lod == lod && shards[i].shard == shard,
    decreases n,
{
    if n > 0 {
        law_open_shards_of_changed_levels_are_flushed(shards, pending, n - 1, lod, shard);
        lemma_open_of_level_has(shards, (n - 1) as u8, lod, shard);
        let before = files_to_flush(shards, pending, n - 1);
        let more = open_of_level(shards, (n - 1) as u8);
        let all = before + more;
        let f = (lod, shard);
        if before.contains(f) {
            assert(all[before.index_of(f)] == f);
        }
        if more.contains(f) {
            assert(all[before.len() + more.index_of(f)] == f);
        }
        if all.contains(f) && !before.contains(f) {
            let j = all.index_of(f);
            if j < before.len() {
                assert(before[j] == f);
            }
            assert(more[j - before.len()] == f);
        }
    }
}

proof fn lemma_open_of_level_has(shards: Seq<OpenShard>, level: u8, lod: u8, shard: ShardCoord)
    ensures
        open_of_level(shards, level).contains((lod, shard)) <==> lod == level && exists|i: int|
            0 <= i < shards.len() && (#[trigger] shards[i]).lod == lod && shards[i].shard == shard,
    decreases shards.len(),
{
    if shards.len() > 0 {
        let front = shards.drop_last();
        lemma_open_of_level_has(front, level, lod, shard);
        let before = open_of_level(front, level);
        let all = open_of_level(shards, level);
        let f = (lod, shard);
        if exists|i: int| 0 <= i < front.len() && (#[trigger] front[i]).lod == lod && front[i].shard == shard {
            let i = choose|i: int|
                0 <= i < front.len() && (#[trigger] front[i]).lod == lod && front[i].shard == shard;
            assert(shards[i] == front[i]);
        }
        if exists|i: int| 0 <= i < shards.len() && (#[trigger] shards[i]).lod == lod && shards[i].shard == shard {
            let i = choose|i: int|
                0 <= i < shards.len() && (#[trigger] shards[i]).lod == lod && shards[i].shard == shard;
            if i < front.len() {
                assert(front[i] == shards[i]);
            }
        }
        if shards.last().lod == level {
            assert(all[before.len() as int] == (level, shards.last().shard));
            assert(shards[shards.len() - 1] == shards.last());
            if before.contains(f) {
                assert(all[before.index_of(f)] == f);
            }
            if all.contains(f) && f != (level, shards.last().shard) {
                assert(before[all.index_of(f)] == f);
            }
        }
    }
}

/// A chunk is handed to a writer where it is missing and nowhere else, together
/// with where its bytes go: x first in its shard, one chunk after the other.
pub proof fn law_missing_chunks_are_written(d: DiskStore, key: ChunkKey)
    requires
        d.wf(),
        d.has(key),
    ensures
        d.claim(key) is Held <==> d.slot_state(key) == STATE_MISSING,
        d.claim(key) matches Claim::Held { shard, offset } ==> {
            let n = d.shard_chunks_per_axis;
            &&& shard.x == key.x / n && shard.y == key.y / n && shard.z == key.z / n
            &&& offset == 262144 * (((key.z % n) * n + key.y % n) * n + key.x % n)
        },
        d.slot_state(key) == STATE_RESIDENT ==> d.claim(key) == Claim::Settled(WriteOutcome::AlreadyResident),
        d.slot_state(key) == STATE_EMPTY ==> d.claim(key) == Claim::Settled(WriteOutcome::AlreadyEmpty),
{
    lemma_place_known(d, key);
    d.lemma_offset(key);
}

/// What is loaded of a chunk is where a write has put it.
pub proof fn law_resident_chunks_are_loaded(d: DiskStore, key: ChunkKey)
    requires
        d.wf(),
        d.has(key),
    ensures
        d.loaded(key) is Resident <==> d.slot_state(key) == STATE_RESIDENT,
        d.loaded(key) is Empty <==> d.slot_state(key) == STATE_EMPTY,
        d.loaded(key) matches LoadOutcome::Resident { shard, offset } ==> {
            let n = d.shard_chunks_per_axis;
            &&& shard.x == key.x / n && shard.y == key.y / n && shard.z == key.z / n
            &&& offset == 262144 * (((key.z % n) * n + key.y % n) * n + key.x % n)
        },
{
    lemma_place_known(d, key);
    d.lemma_offset(key);
}

/// What a store wrote out is taken up again for its own volume, extent and
/// number of levels, and for no other.
pub proof fn law_store_is_taken_up_for_its_own_layout(d: DiskStore, volume_id: Seq<char>, extent: [u32; 3], max_lod: u8)
    requires
        d.wf(),
        vstd::utf8::encode_utf8(d.sidecar.header.volume_id@).len() < 0x1_0000,
        d.sidecar.image().len() <= usize::MAX,
    ensures
        reusable(d.sidecar.image(), volume_id, extent, max_lod) <==> {
            &&& d.sidecar.header.chunk_side == 64
            &&& d.sidecar.header.volume_id@ == volume_id
            &&& d.sidecar.header.max_lod == max_lod
            &&& d.sidecar.header.extent@[0] == extent@[0]
            &&& d.sidecar.header.extent@[1] == extent@[1]
            &&& d.sidecar.header.extent@[2] == extent@[2]
        },
{
    sidecar::law_image_round_trip(d.sidecar);
    sidecar::lemma_image_len(d.sidecar);
    let e = d.sidecar.header.extent@;
    if e[0] == extent@[0] && e[1] == extent@[1] && e[2] == extent@[2] {
        assert(e =~= extent@);
    }
}

} // verus!
