//! Sampling a chunked volume: nearest voxels, trilinear blends and rays, with
//! coarser levels standing in where the wanted one has not arrived.
//!
//! Voxel coordinates are those of the level asked for, not of the finest one.
//! Positions are fixed-point numbers with thirty-two bits after the point.
use crate::bits::ChunkBitState;
use crate::chunk;
use crate::chunk::{pow2_u64, ChunkKey, ChunkState, ShardCoord, CHUNK_VOXELS};
use crate::disk;
use crate::disk::DiskStore;
use crate::sidecar::{STATE_EMPTY, STATE_LOCKED, STATE_RESIDENT};
use vstd::prelude::*;

verus! {

/// Levels from this one on are never read through a mapped shard.
pub const SHARD_SLOTS_PER_LOD: u8 = 16;

/// How often two divides `n`.
pub open spec fn twos(n: int) -> nat
    decreases n,
{
    if n > 0 && n % 2 == 0 {
        1 + twos(n / 2)
    } else {
        0
    }
}

/// The level of a sampling factor: the power of two in it. Zero counts as one.
pub fn lod_for(sfactor: u8) -> (lod: u8)
    ensures
        lod == twos(sfactor as int),
        lod <= 7,
{
    let mut n: u8 = sfactor;
    let mut lod: u8 = 0;
    while n > 0 && n % 2 == 0
        invariant
            lod + twos(n as int) == twos(sfactor as int),
            lod <= 7,
            lod > 0 ==> n <= 127,
            lod > 1 ==> n <= 63,
            lod > 2 ==> n <= 31,
            lod > 3 ==> n <= 15,
            lod > 4 ==> n <= 7,
            lod > 5 ==> n <= 3,
            lod > 6 ==> n <= 1,
        decreases n,
    {
        n = n / 2;
        lod = lod + 1;
    }
    lod
}

/// Each power of two has its own level.
pub proof fn law_level_of_power(k: nat)
    ensures
        twos(chunk::pow2(k) as int) == k,
    decreases k,
{
    if k > 0 {
        law_level_of_power((k - 1) as nat);
        lemma_pow2_positive((k - 1) as nat);
        let half = chunk::pow2((k - 1) as nat) as int;
        assert(chunk::pow2(k) as int == 2 * half);
        lemma_twos_doubled(half);
    }
}

proof fn lemma_twos_doubled(n: int)
    requires
        n > 0,
    ensures
        twos(2 * n) == 1 + twos(n),
{
    assert((2 * n) % 2 == 0 && (2 * n) / 2 == n);
}

proof fn lemma_pow2_positive(k: nat)
    ensures
        chunk::pow2(k) >= 1,
    decreases k,
{
    if k > 0 {
        lemma_pow2_positive((k - 1) as nat);
    }
}

/// The level of a downsampling: that of its low eight bits, and the finest for
/// one below one.
pub open spec fn level_of(downsampling: i32) -> nat {
    if downsampling < 1 {
        0
    } else {
        twos(downsampling as int % 256)
    }
}

/// The level that a downsampling stands for.
pub fn level_for(downsampling: i32) -> (lod: u8)
    ensures
        lod == level_of(downsampling),
        lod <= 7,
{
    if downsampling < 1 {
        0
    } else {
        lod_for((downsampling % 256) as u8)
    }
}

/// A voxel coordinate of one level taken to another: rounded down where the
/// other is coarser, scaled up (in the width of a machine word) where finer.
pub open spec fn at_level(s: int, from_lod: u8, to_lod: u8) -> int {
    if to_lod >= from_lod {
        s / (chunk::pow2((to_lod - from_lod) as nat) as int)
    } else {
        (s * chunk::pow2((from_lod - to_lod) as nat)) % 0x1_0000_0000_0000_0000
    }
}

/// The voxel of level `to_lod` that covers a voxel of level `from_lod`.
pub fn coord_at_lod(sx: u64, sy: u64, sz: u64, from_lod: u8, to_lod: u8) -> (r: (u64, u64, u64))
    requires
        from_lod < to_lod + 64,
        to_lod < from_lod + 64,
    ensures
        r.0 == at_level(sx as int, from_lod, to_lod),
        r.1 == at_level(sy as int, from_lod, to_lod),
        r.2 == at_level(sz as int, from_lod, to_lod),
{
    if to_lod >= from_lod {
        proof {
            chunk::lemma_pow2_bounds((to_lod - from_lod) as nat);
        }
        let scale = pow2_u64(to_lod - from_lod);
        (sx / scale, sy / scale, sz / scale)
    } else {
        proof {
            chunk::lemma_pow2_bounds((from_lod - to_lod) as nat);
        }
        let scale = pow2_u64(from_lod - to_lod);
        (sx.wrapping_mul(scale), sy.wrapping_mul(scale), sz.wrapping_mul(scale))
    }
}

/// `a` and `b` with weight `f` of 256 on `b`, not yet divided.
pub open spec fn mix(a: int, b: int, f: int) -> int {
    a * (256 - f) + b * f
}

/// The trilinear blend of eight corners, rounded down. Corner `4 * z + 2 * y +
/// x` stands at offset `(x, y, z)`; weights are in 256ths.
pub open spec fn trilerp(fx: int, fy: int, fz: int, p: Seq<u8>) -> int {
    mix(
        mix(mix(p[0] as int, p[1] as int, fx), mix(p[2] as int, p[3] as int, fx), fy),
        mix(mix(p[4] as int, p[5] as int, fx), mix(p[6] as int, p[7] as int, fx), fy),
        fz,
    ) / 0x100_0000
}

proof fn lemma_mix_between(a: int, b: int, f: int, lo: int, hi: int)
    requires
        lo <= a <= hi,
        lo <= b <= hi,
        0 <= f <= 256,
    ensures
        lo * 256 <= mix(a, b, f) <= hi * 256,
{
    assert(lo * 256 <= a * (256 - f) + b * f <= hi * 256) by (nonlinear_arith)
        requires
            lo <= a <= hi,
            lo <= b <= hi,
            0 <= f <= 256,
    ;
}

/// A blend lies between any bounds on its corners; equal corners come out
/// unchanged.
pub proof fn law_trilerp_between(fx: int, fy: int, fz: int, p: Seq<u8>, lo: int, hi: int)
    requires
        p.len() == 8,
        forall|i: int| 0 <= i < 8 ==> lo <= #[trigger] p[i] <= hi,
        0 <= fx <= 256,
        0 <= fy <= 256,
        0 <= fz <= 256,
    ensures
        lo <= trilerp(fx, fy, fz, p) <= hi,
{
    let c00 = mix(p[0] as int, p[1] as int, fx);
    let c10 = mix(p[2] as int, p[3] as int, fx);
    let c01 = mix(p[4] as int, p[5] as int, fx);
    let c11 = mix(p[6] as int, p[7] as int, fx);
    lemma_mix_between(p[0] as int, p[1] as int, fx, lo, hi);
    lemma_mix_between(p[2] as int, p[3] as int, fx, lo, hi);
    lemma_mix_between(p[4] as int, p[5] as int, fx, lo, hi);
    lemma_mix_between(p[6] as int, p[7] as int, fx, lo, hi);
    lemma_mix_between(c00, c10, fy, lo * 256, hi * 256);
    lemma_mix_between(c01, c11, fy, lo * 256, hi * 256);
    lemma_mix_between(mix(c00, c10, fy), mix(c01, c11, fy), fz, lo * 65536, hi * 65536);
}

/// At a voxel's own place a blend is that voxel.
pub proof fn law_trilerp_at_corner(p: Seq<u8>)
    requires
        p.len() == 8,
    ensures
        trilerp(0, 0, 0, p) == p[0],
{
}

/// At the place of any of its corners a blend is that corner: corner
/// `4 * z + 2 * y + x` where the weights are whole on the axes on which it lies
/// ahead and nothing on the others.
pub proof fn law_trilerp_at_every_corner(p: Seq<u8>, x: int, y: int, z: int)
    requires
        p.len() == 8,
        0 <= x <= 1,
        0 <= y <= 1,
        0 <= z <= 1,
    ensures
        trilerp(256 * x, 256 * y, 256 * z, p) == p[4 * z + 2 * y + x],
{
    assert(trilerp(0, 0, 0, p) == p[0] && trilerp(256, 0, 0, p) == p[1]);
    assert(trilerp(0, 256, 0, p) == p[2] && trilerp(256, 256, 0, p) == p[3]);
    assert(trilerp(0, 0, 256, p) == p[4] && trilerp(256, 0, 256, p) == p[5]);
    assert(trilerp(0, 256, 256, p) == p[6] && trilerp(256, 256, 256, p) == p[7]);
}

/// A blend is the sum of its corners, each with the product of its own weights
/// on the three axes, in parts of 256 * 256 * 256, rounded down.
pub proof fn law_trilerp_weighs_every_corner(fx: int, fy: int, fz: int, p: Seq<u8>)
    requires
        p.len() == 8,
    ensures
        ({
            let (gx, gy, gz) = (256 - fx, 256 - fy, 256 - fz);
            trilerp(fx, fy, fz, p) == (p[0] * (gx * gy * gz) + p[1] * (fx * gy * gz) + p[2] * (gx * fy
                * gz) + p[3] * (fx * fy * gz) + p[4] * (gx * gy * fz) + p[5] * (fx * gy * fz) + p[6] * (
            gx * fy * fz) + p[7] * (fx * fy * fz)) / 0x100_0000
        }),
{
    let (gx, gy, gz) = (256 - fx, 256 - fy, 256 - fz);
    lemma_mix_of_mixes(
        mix(p[0] as int, p[1] as int, fx),
        mix(p[2] as int, p[3] as int, fx),
        mix(p[4] as int, p[5] as int, fx),
        mix(p[6] as int, p[7] as int, fx),
        fy,
        fz,
    );
    lemma_mix_scaled(p[0] as int, p[1] as int, fx, gy * gz);
    lemma_mix_scaled(p[2] as int, p[3] as int, fx, fy * gz);
    lemma_mix_scaled(p[4] as int, p[5] as int, fx, gy * fz);
    lemma_mix_scaled(p[6] as int, p[7] as int, fx, fy * fz);
    assert(gx * gy * gz == gx * (gy * gz) && fx * gy * gz == fx * (gy * gz)) by (nonlinear_arith);
    assert(gx * fy * gz == gx * (fy * gz) && fx * fy * gz == fx * (fy * gz)) by (nonlinear_arith);
    assert(gx * gy * fz == gx * (gy * fz) && fx * gy * fz == fx * (gy * fz)) by (nonlinear_arith);
    assert(gx * fy * fz == gx * (fy * fz) && fx * fy * fz == fx * (fy * fz)) by (nonlinear_arith);
}

proof fn lemma_mix_scaled(a: int, b: int, f: int, k: int)
    ensures
        mix(a, b, f) * k == a * ((256 - f) * k) + b * (f * k),
{
    let g = 256 - f;
    assert((a * g + b * f) * k == a * (g * k) + b * (f * k)) by (nonlinear_arith);
}

proof fn lemma_mix_of_mixes(a: int, b: int, c: int, d: int, fy: int, fz: int)
    ensures
        mix(mix(a, b, fy), mix(c, d, fy), fz) == a * ((256 - fy) * (256 - fz)) + b * (fy * (256 - fz))
            + c * ((256 - fy) * fz) + d * (fy * fz),
{
    let (gy, gz) = (256 - fy, 256 - fz);
    lemma_mix_scaled(a, b, fy, gz);
    lemma_mix_scaled(c, d, fy, fz);
}

/// `mix` on machine integers.
fn mix_exec(a: u32, b: u32, f: u32, Ghost(hi): Ghost<int>) -> (c: u32)
    requires
        a <= hi,
        b <= hi,
        0 <= hi <= 0xFF_0000,
        f <= 256,
    ensures
        c == mix(a as int, b as int, f as int),
        c <= hi * 256,
{
    proof {
        lemma_mix_between(a as int, b as int, f as int, 0, hi);
        assert(0 <= a * (256 - f) <= hi * 256) by (nonlinear_arith)
            requires
                0 <= a <= hi,
                f <= 256,
        ;
        assert(0 <= b * f <= hi * 256) by (nonlinear_arith)
            requires
                0 <= b <= hi,
                f <= 256,
        ;
    }
    a * (256 - f) + b * f
}

/// The trilinear blend of eight corners (see `trilerp`).
pub fn trilerp_q8(fx: u32, fy: u32, fz: u32, p: [u8; 8]) -> (v: u8)
    requires
        fx <= 256,
        fy <= 256,
        fz <= 256,
    ensures
        v == trilerp(fx as int, fy as int, fz as int, p@),
{
    proof {
        law_trilerp_between(fx as int, fy as int, fz as int, p@, 0, 255);
    }
    let c00 = mix_exec(p[0] as u32, p[1] as u32, fx, Ghost(255));
    let c10 = mix_exec(p[2] as u32, p[3] as u32, fx, Ghost(255));
    let c01 = mix_exec(p[4] as u32, p[5] as u32, fx, Ghost(255));
    let c11 = mix_exec(p[6] as u32, p[7] as u32, fx, Ghost(255));
    let c0 = mix_exec(c00, c10, fy, Ghost(65280));
    let c1 = mix_exec(c01, c11, fy, Ghost(65280));
    let c = mix_exec(c0, c1, fz, Ghost(16711680));
    (c / 0x100_0000) as u8
}

/// Where voxel `(x, y, z)` stands in its chunk, x fastest.
pub open spec fn voxel_place(x: int, y: int, z: int) -> int {
    (z % 64) * 4096 + (y % 64) * 64 + x % 64
}

/// Where voxel `(x, y, z)` stands in its chunk.
pub fn voxel_offset(x: u64, y: u64, z: u64) -> (off: usize)
    ensures
        off == voxel_place(x as int, y as int, z as int),
        off < CHUNK_VOXELS,
{
    ((z % 64) * 4096 + (y % 64) * 64 + x % 64) as usize
}

/// The voxel of a coarser chunk that covers voxel `(sx, sy, sz)` of level
/// `from_lod`.
pub fn sample_at(sx: u64, sy: u64, sz: u64, from_lod: u8, to_lod: u8, chunk: &[u8]) -> (v: u8)
    requires
        chunk.len() == CHUNK_VOXELS,
        from_lod < to_lod + 64,
        to_lod < from_lod + 64,
    ensures
        v == chunk@[voxel_place(
            at_level(sx as int, from_lod, to_lod),
            at_level(sy as int, from_lod, to_lod),
            at_level(sz as int, from_lod, to_lod),
        )],
{
    let (lx, ly, lz) = coord_at_lod(sx, sy, sz, from_lod, to_lod);
    chunk[voxel_offset(lx, ly, lz)]
}

/// A shard's file as the host has mapped it; no bytes where it could not be
/// opened.
pub struct ShardMap<'a> {
    pub lod: u8,
    pub shard: ShardCoord,
    pub bytes: Option<&'a [u8]>,
}

impl<'a> ShardMap<'a> {
    /// Whether this is the map of that shard.
    pub open spec fn is_of(&self, lod: u8, shard: ShardCoord) -> bool {
        self.lod == lod && self.shard == shard
    }

    /// What was mapped.
    pub open spec fn contents(&self) -> Option<Seq<u8>> {
        match self.bytes {
            Some(b) => Some(b@),
            None => None,
        }
    }
}

/// What the host has mapped of a shard: nothing so far, or the outcome of
/// opening its file.
pub open spec fn mapped(maps: Seq<ShardMap>, lod: u8, shard: ShardCoord) -> Option<Option<Seq<u8>>>
    decreases maps.len(),
{
    if maps.len() == 0 {
        None
    } else if maps[0].is_of(lod, shard) {
        Some(maps[0].contents())
    } else {
        mapped(maps.drop_first(), lod, shard)
    }
}

/// Every map is as long as a shard's file.
pub open spec fn maps_ok(maps: Seq<ShardMap>, store: &DiskStore) -> bool {
    forall|i: int|
        0 <= i < maps.len() && (#[trigger] maps[i]).contents() is Some ==> maps[i].contents()->0.len()
            == store.chunks_per_shard() * CHUNK_VOXELS
}

/// Looks a shard's map up.
fn find_map<'a>(maps: &Vec<ShardMap<'a>>, store: &DiskStore, lod: u8, shard: ShardCoord) -> (r: Option<
    Option<&'a [u8]>,
>)
    requires
        maps_ok(maps@, store),
    ensures
        match r {
            None => mapped(maps@, lod, shard) is None,
            Some(None) => mapped(maps@, lod, shard) == Some(None::<Seq<u8>>),
            Some(Some(b)) => mapped(maps@, lod, shard) == Some(Some(b@)) && b@.len()
                == store.chunks_per_shard() * CHUNK_VOXELS,
        },
{
    let mut i: usize = 0;
    assert(maps@.skip(0) =~= maps@);
    while i < maps.len()
        invariant
            i <= maps.len(),
            maps_ok(maps@, store),
            mapped(maps@, lod, shard) == mapped(maps@.skip(i as int), lod, shard),
        decreases maps.len() - i,
    {
        let m = &maps[i];
        assert(maps@.skip(i as int)[0] == *m);
        assert(maps@.skip(i as int).drop_first() =~= maps@.skip(i + 1));
        if m.lod == lod && m.shard == shard {
            assert(maps@[i as int].contents() is Some ==> maps@[i as int].contents()->0.len()
                == store.chunks_per_shard() * CHUNK_VOXELS);
            return Some(m.bytes);
        }
        i = i + 1;
    }
    None
}

/// The voxels of the chunk at `place` of a shard.
pub open spec fn chunk_in(shard_bytes: Seq<u8>, place: int) -> Seq<u8> {
    shard_bytes.subrange(place * CHUNK_VOXELS, place * CHUNK_VOXELS + CHUNK_VOXELS)
}

fn chunk_slice<'a>(shard_bytes: &'a [u8], place: u64, Ghost(chunks): Ghost<int>) -> (r: &'a [u8])
    requires
        place < chunks,
        shard_bytes@.len() == chunks * CHUNK_VOXELS,
    ensures
        r@ == chunk_in(shard_bytes@, place as int),
        r@.len() == CHUNK_VOXELS,
{
    proof {
        assert(shard_bytes@.len() == shard_bytes.len());
        assert(place * CHUNK_VOXELS + CHUNK_VOXELS <= chunks * CHUNK_VOXELS) by (nonlinear_arith)
            requires
                place + 1 <= chunks,
        ;
    }
    let start: usize = place as usize * CHUNK_VOXELS;
    vstd::slice::slice_subrange(shard_bytes, start, start + CHUNK_VOXELS)
}

/// A shard that has to be opened before a question can be answered.
#[derive(Debug, Clone, Copy, PartialEq, Eq, Structural)]
pub struct ShardRequest {
    pub lod: u8,
    pub shard: ShardCoord,
}

/// What a level of the climb has for a reader.
#[derive(Debug, Clone, Copy, PartialEq, Eq, Structural)]
pub enum Verdict {
    /// The chunk's voxels can be read.
    Take,
    /// There is no data, at this level and so at any.
    Stop,
    /// Nothing here; look at the next coarser level.
    Pass,
    /// As `Pass`, and the chunk has never been asked for.
    Fetch,
    /// Its shard has to be opened first.
    Open,
}

/// What the chunk's slot and shard say to a reader.
pub open spec fn verdict(store: &DiskStore, maps: Seq<ShardMap>, key: ChunkKey) -> Verdict {
    let at = store.place(key);
    let state = store.slot_state(key);
    if key.lod >= SHARD_SLOTS_PER_LOD || !store.has(key) || state == STATE_LOCKED {
        Verdict::Pass
    } else if state == STATE_EMPTY {
        Verdict::Stop
    } else {
        match mapped(maps, key.lod, at.shard) {
            None => Verdict::Open,
            Some(None) => Verdict::Pass,
            Some(Some(_)) => if state == STATE_RESIDENT {
                Verdict::Take
            } else if store.bit(key.lod, at.shard, at.in_shard_idx as int) == Some(
                ChunkBitState::Unknown,
            ) {
                Verdict::Fetch
            } else {
                Verdict::Pass
            },
        }
    }
}

/// The chunk `shift` levels up that covers this one.
pub open spec fn ancestor(key: ChunkKey, shift: int) -> ChunkKey {
    let s = chunk::pow2(shift as nat) as int;
    ChunkKey {
        lod: (key.lod + shift) as u8,
        x: (key.x as int / s) as u32,
        y: (key.y as int / s) as u32,
        z: (key.z as int / s) as u32,
    }
}

/// How a climb through the levels ended.
#[derive(Debug, Clone, Copy, PartialEq, Eq, Structural)]
pub enum Climb {
    /// At the chunk this many levels up.
    At(u8),
    /// With no data.
    Nothing,
    /// At a shard that has to be opened first.
    Open(ShardRequest),
}

/// The climb from level `shift` above the target up to level `top` above it.
pub open spec fn climbed(
    store: &DiskStore,
    maps: Seq<ShardMap>,
    target: ChunkKey,
    shift: int,
    top: int,
) -> Climb
    decreases top + 1 - shift,
{
    if shift > top {
        Climb::Nothing
    } else {
        let key = ancestor(target, shift);
        match verdict(store, maps, key) {
            Verdict::Take => Climb::At(shift as u8),
            Verdict::Stop => Climb::Nothing,
            Verdict::Open => Climb::Open(
                ShardRequest { lod: key.lod, shard: store.place(key).shard },
            ),
            _ => climbed(store, maps, target, shift + 1, top),
        }
    }
}

/// The chunks that the climb finds never asked for, finest first.
pub open spec fn unasked(
    store: &DiskStore,
    maps: Seq<ShardMap>,
    target: ChunkKey,
    shift: int,
    top: int,
) -> Seq<ChunkKey>
    decreases top + 1 - shift,
{
    if shift > top {
        Seq::empty()
    } else {
        let key = ancestor(target, shift);
        match verdict(store, maps, key) {
            Verdict::Fetch => seq![key] + unasked(store, maps, target, shift + 1, top),
            Verdict::Pass => unasked(store, maps, target, shift + 1, top),
            _ => Seq::empty(),
        }
    }
}

fn probe(store: &DiskStore, maps: &Vec<ShardMap>, key: ChunkKey) -> (r: Verdict)
    requires
        store.wf(),
        maps_ok(maps@, store),
    ensures
        r == verdict(store, maps@, key),
{
    if key.lod >= SHARD_SLOTS_PER_LOD {
        return Verdict::Pass;
    }
    let at = match store.resolve(key) {
        Some(at) => at,
        None => {
            return Verdict::Pass;
        },
    };
    let state = store.sidecar.get_state(key.lod, at.sidecar_idx);
    if state == STATE_LOCKED {
        return Verdict::Pass;
    }
    if state == STATE_EMPTY {
        return Verdict::Stop;
    }
    match find_map(maps, store, key.lod, at.shard) {
        None => Verdict::Open,
        Some(None) => Verdict::Pass,
        Some(Some(_)) => {
            if state == STATE_RESIDENT {
                Verdict::Take
            } else {
                match store.peek_shard(key.lod, at.shard, at.in_shard_idx) {
                    Some(ChunkBitState::Unknown) => Verdict::Fetch,
                    _ => Verdict::Pass,
                }
            }
        },
    }
}

/// The chunk `shift` levels up that covers this one.
pub fn ancestor_of(key: ChunkKey, shift: u8) -> (r: ChunkKey)
    requires
        key.lod + shift <= 255,
        shift < 64,
    ensures
        r == ancestor(key, shift as int),
        shift == 0 ==> r == key,
{
    proof {
        chunk::lemma_pow2_bounds(shift as nat);
        chunk::lemma_pow2_table();
        let s = chunk::pow2(shift as nat) as int;
        lemma_quotient_small(key.x as int, s);
        lemma_quotient_small(key.y as int, s);
        lemma_quotient_small(key.z as int, s);
    }
    let scale = pow2_u64(shift);
    ChunkKey {
        lod: key.lod + shift,
        x: (key.x as u64 / scale) as u32,
        y: (key.y as u64 / scale) as u32,
        z: (key.z as u64 / scale) as u32,
    }
}

proof fn lemma_quotient_small(a: int, s: int)
    requires
        0 <= a,
        s >= 1,
    ensures
        0 <= a / s <= a,
        s == 1 ==> a / s == a,
{
    assert(0 <= a / s <= a) by (nonlinear_arith)
        requires
            0 <= a,
            s >= 1,
    ;
}

/// A volume as its readers see it.
pub struct UnifiedVolume {
    pub max_lod: u8,
    /// In voxels of the finest level.
    pub extent: [u32; 3],
    /// Chunks along one edge of a shard.
    pub side: u32,
    /// Whether a coarser level stands in for one that is missing.
    pub lod_climb: bool,
    /// Whether every chunk that is read is known to have arrived.
    pub assume_resident: bool,
    /// The chunk last interpolated in, with the level and the state that were
    /// chosen for it.
    pub bound: Option<(ChunkKey, u8, ChunkState)>,
}

/// Whether a voxel of level `lod` lies inside the volume.
pub open spec fn inside(extent: [u32; 3], s: Seq<int>, lod: u8) -> bool {
    &&& s[0] * chunk::pow2(lod as nat) < extent@[0]
    &&& s[1] * chunk::pow2(lod as nat) < extent@[1]
    &&& s[2] * chunk::pow2(lod as nat) < extent@[2]
}

/// The chunk that holds a voxel.
pub open spec fn chunk_of(lod: u8, s: Seq<int>) -> ChunkKey {
    ChunkKey { lod, x: (s[0] / 64) as u32, y: (s[1] / 64) as u32, z: (s[2] / 64) as u32 }
}

/// What reading a voxel came to.
#[derive(Debug, Clone, Copy, PartialEq, Eq, Structural)]
pub enum Sampled {
    /// Its value.
    Value(u8),
    /// A shard has to be opened first.
    Open(ShardRequest),
}

/// What reading voxel `s` of level `lod` comes to: zero outside the volume and
/// where there is no data, and else the voxel that covers it at the finest
/// level that can be read.
pub open spec fn sampled(
    v: &UnifiedVolume,
    store: &DiskStore,
    maps: Seq<ShardMap>,
    s: Seq<int>,
    lod: u8,
) -> Sampled {
    if !inside(v.extent, s, lod) {
        Sampled::Value(0)
    } else {
        let target = chunk_of(lod, s);
        match climbed(store, maps, target, 0, v.top(lod)) {
            Climb::Nothing => Sampled::Value(0),
            Climb::Open(r) => Sampled::Open(r),
            Climb::At(shift) => {
                let at = ancestor(target, shift as int);
                let k = chunk::pow2(shift as nat) as int;
                Sampled::Value(
                    chunk_in(
                        mapped(maps, at.lod, store.place(at).shard)->0->0,
                        store.place(at).in_shard_idx as int,
                    )[voxel_place(s[0] / k, s[1] / k, s[2] / k)],
                )
            },
        }
    }
}

/// The chunks that reading the voxel finds never asked for.
pub open spec fn sample_misses(
    v: &UnifiedVolume,
    store: &DiskStore,
    maps: Seq<ShardMap>,
    s: Seq<int>,
    lod: u8,
) -> Seq<ChunkKey> {
    if !inside(v.extent, s, lod) {
        Seq::empty()
    } else {
        unasked(store, maps, chunk_of(lod, s), 0, v.top(lod))
    }
}

impl UnifiedVolume {
    /// How many levels above `lod` a climb may go.
    pub open spec fn top(&self, lod: u8) -> int {
        if self.lod_climb {
            self.max_lod - lod
        } else {
            0
        }
    }

    /// A volume with shards of `side` chunks along an edge.
    pub fn new(side: u32, extent: [u32; 3], max_lod: u8, lod_climb: bool, assume_resident: bool) -> (v:
        UnifiedVolume)
        requires
            exists|k: nat| side == #[trigger] chunk::pow2(k),
        ensures
            v.extent == extent,
            v.side == side,
            v.max_lod == max_lod,
            v.lod_climb == lod_climb,
            v.assume_resident == assume_resident,
            v.bound is None,
    {
        UnifiedVolume { max_lod, extent, side, lod_climb, assume_resident, bound: None }
    }

    /// The shard that a chunk belongs to, and its place there.
    pub fn shard_decompose(&self, cx: u32, cy: u32, cz: u32) -> (r: (ShardCoord, u64))
        requires
            0 < self.side,
            self.side * self.side * self.side <= u64::MAX,
        ensures
            r.0 == disk::shard_of((ChunkKey { lod: 0, x: cx, y: cy, z: cz }), self.side),
            r.1 == disk::place_in_shard((ChunkKey { lod: 0, x: cx, y: cy, z: cz }), self.side),
            r.1 < self.side * self.side * self.side,
    {
        let side: u64 = self.side as u64;
        let shard = ShardCoord { x: cx / self.side, y: cy / self.side, z: cz / self.side };
        let x: u64 = (cx % self.side) as u64;
        let y: u64 = (cy % self.side) as u64;
        let z: u64 = (cz % self.side) as u64;
        proof {
            disk::lemma_place_in_shard((ChunkKey { lod: 0, x: cx, y: cy, z: cz }), self.side);
            assert(0 <= z * side <= z * side + y <= (z * side + y) * side) by (nonlinear_arith)
                requires
                    0 <= z,
                    0 <= y,
                    0 < side,
            ;
        }
        (shard, (z * side + y) * side + x)
    }

    /// Whether a voxel of level `lod` lies inside the volume.
    pub fn sample_in_bounds(&self, sx: u64, sy: u64, sz: u64, lod: u8) -> (r: bool)
        requires
            lod <= 31,
        ensures
            r == inside(self.extent, seq![sx as int, sy as int, sz as int], lod),
    {
        let a = within(sx, lod, self.extent[0]);
        let b = within(sy, lod, self.extent[1]);
        let c = within(sz, lod, self.extent[2]);
        a && b && c
    }

    /// Climbs from a chunk to the finest level that has its data. The chunks
    /// that nobody has asked for yet are added to `fetch`.
    pub fn resolve_chunk(
        &self,
        store: &DiskStore,
        maps: &Vec<ShardMap>,
        target: ChunkKey,
        fetch: &mut Vec<ChunkKey>,
    ) -> (r: Climb)
        requires
            store.wf(),
            maps_ok(maps@, store),
            target.lod <= self.max_lod <= 31,
        ensures
            r == climbed(store, maps@, target, 0, self.top(target.lod)),
            final(fetch)@ == old(fetch)@ + unasked(store, maps@, target, 0, self.top(target.lod)),
    {
        let top: u8 = if self.lod_climb { self.max_lod - target.lod } else { 0 };
        let mut shift: u8 = 0;
        while shift <= top
            invariant
                store.wf(),
                maps_ok(maps@, store),
                target.lod + top <= 31,
                top == self.top(target.lod),
                shift <= top + 1,
                climbed(store, maps@, target, 0, top as int) == climbed(
                    store,
                    maps@,
                    target,
                    shift as int,
                    top as int,
                ),
                old(fetch)@ + unasked(store, maps@, target, 0, top as int) =~= fetch@ + unasked(
                    store,
                    maps@,
                    target,
                    shift as int,
                    top as int,
                ),
            decreases top + 1 - shift,
        {
            let key = ancestor_of(target, shift);
            match probe(store, maps, key) {
                Verdict::Take => {
                    return Climb::At(shift);
                },
                Verdict::Stop => {
                    return Climb::Nothing;
                },
                Verdict::Open => {
                    let at = match store.resolve(key) {
                        Some(at) => at,
                        None => {
                            assert(false);
                            return Climb::Nothing;
                        },
                    };
                    return Climb::Open(ShardRequest { lod: key.lod, shard: at.shard });
                },
                Verdict::Fetch => {
                    fetch.push(key);
                },
                Verdict::Pass => {},
            }
            shift = shift + 1;
        }
        Climb::Nothing
    }
}

fn within(s: u64, lod: u8, extent: u32) -> (r: bool)
    requires
        lod <= 31,
    ensures
        r == (s * chunk::pow2(lod as nat) < extent),
        r ==> s < extent,
{
    proof {
        chunk::lemma_pow2_bounds(lod as nat);
    }
    let scale = pow2_u64(lod);
    if s >= 0x1_0000_0000 {
        assert(s * scale >= s) by (nonlinear_arith)
            requires
                scale >= 1,
                s >= 0,
        ;
        return false;
    }
    assert(s * scale <= 0x1_0000_0000 * 0x8000_0000) by (nonlinear_arith)
        requires
            0 <= s <= 0x1_0000_0000,
            0 <= scale <= 0x8000_0000,
    ;
    assert(s * scale >= s) by (nonlinear_arith)
        requires
            scale >= 1,
            s >= 0,
    ;
    s * scale < extent as u64
}

/// A coordinate with negative values taken as zero.
pub open spec fn clamped(c: i64) -> int {
    if c < 0 {
        0
    } else {
        c as int
    }
}

fn clamp_low(c: i64) -> (r: u64)
    ensures
        r == clamped(c),
{
    if c < 0 {
        0
    } else {
        c as u64
    }
}

impl UnifiedVolume {
    /// Whether this volume, its store and its maps belong together.
    pub open spec fn ok(&self, store: &DiskStore, maps: Seq<ShardMap>) -> bool {
        &&& store.wf()
        &&& maps_ok(maps, store)
        &&& self.side == store.shard_chunks_per_axis
        &&& self.max_lod <= 31
    }

    /// Reads one voxel of a level (see `sampled`). The chunks that nobody has
    /// asked for yet are added to `fetch`.
    pub fn get_at(
        &self,
        store: &DiskStore,
        maps: &Vec<ShardMap>,
        sx: u64,
        sy: u64,
        sz: u64,
        lod: u8,
        fetch: &mut Vec<ChunkKey>,
    ) -> (r: Sampled)
        requires
            self.ok(store, maps@),
            lod <= self.max_lod,
        ensures
            r == sampled(self, store, maps@, seq![sx as int, sy as int, sz as int], lod),
            final(fetch)@ == old(fetch)@ + sample_misses(
                self,
                store,
                maps@,
                seq![sx as int, sy as int, sz as int],
                lod,
            ),
    {
        let ghost s = seq![sx as int, sy as int, sz as int];
        if !self.sample_in_bounds(sx, sy, sz, lod) {
            assert(fetch@ =~= old(fetch)@ + Seq::empty());
            return Sampled::Value(0);
        }
        proof {
            self.lemma_inside_small(s, lod);
        }
        let target = ChunkKey::new(lod, (sx / 64) as u32, (sy / 64) as u32, (sz / 64) as u32);
        match self.resolve_chunk(store, maps, target, fetch) {
            Climb::Nothing => Sampled::Value(0),
            Climb::Open(q) => Sampled::Open(q),
            Climb::At(shift) => {
                proof {
                    lemma_climb_takes(store, maps@, target, 0, self.top(lod));
                    chunk::lemma_pow2_bounds(shift as nat);
                }
                let at = ancestor_of(target, shift);
                let chunk = match read_chunk(store, maps, at) {
                    Some(c) => c,
                    None => {
                        return Sampled::Value(0);
                    },
                };
                Sampled::Value(sample_at(sx, sy, sz, lod, lod + shift, chunk))
            },
        }
    }

    /// Reads one voxel at a downsampling, in voxels of that downsampling.
    /// Negative coordinates count as zero.
    pub fn get(
        &self,
        store: &DiskStore,
        maps: &Vec<ShardMap>,
        xyz: [i64; 3],
        downsampling: i32,
        fetch: &mut Vec<ChunkKey>,
    ) -> (r: Sampled)
        requires
            self.ok(store, maps@),
            level_of(downsampling) <= self.max_lod,
        ensures
            r == sampled(
                self,
                store,
                maps@,
                seq![clamped(xyz@[0]), clamped(xyz@[1]), clamped(xyz@[2])],
                level_of(downsampling) as u8,
            ),
            final(fetch)@ == old(fetch)@ + sample_misses(
                self,
                store,
                maps@,
                seq![clamped(xyz@[0]), clamped(xyz@[1]), clamped(xyz@[2])],
                level_of(downsampling) as u8,
            ),
    {
        let lod = level_for(downsampling);
        self.get_at(
            store,
            maps,
            clamp_low(xyz[0]),
            clamp_low(xyz[1]),
            clamp_low(xyz[2]),
            lod,
            fetch,
        )
    }

    proof fn lemma_inside_small(&self, s: Seq<int>, lod: u8)
        requires
            s.len() == 3,
            lod <= 31,
            s[0] >= 0,
            s[1] >= 0,
            s[2] >= 0,
            inside(self.extent, s, lod),
        ensures
            s[0] < self.extent@[0],
            s[1] < self.extent@[1],
            s[2] < self.extent@[2],
    {
        chunk::lemma_pow2_bounds(lod as nat);
        let k = chunk::pow2(lod as nat) as int;
        assert(s[0] <= s[0] * k) by (nonlinear_arith)
            requires
                s[0] >= 0,
                k >= 1,
        ;
        assert(s[1] <= s[1] * k) by (nonlinear_arith)
            requires
                s[1] >= 0,
                k >= 1,
        ;
        assert(s[2] <= s[2] * k) by (nonlinear_arith)
            requires
                s[2] >= 0,
                k >= 1,
        ;
    }
}

/// A climb ends at a chunk that can be read, of a level within its range.
proof fn lemma_climb_takes(
    store: &DiskStore,
    maps: Seq<ShardMap>,
    target: ChunkKey,
    shift: int,
    top: int,
)
    requires
        climbed(store, maps, target, shift, top) is At,
        0 <= shift,
        target.lod + top <= 255,
    ensures
        ({
            let s = climbed(store, maps, target, shift, top)->At_0;
            &&& shift <= s <= top
            &&& verdict(store, maps, ancestor(target, s as int)) == Verdict::Take
        }),
    decreases top + 1 - shift,
{
    if shift <= top && (verdict(store, maps, ancestor(target, shift)) == Verdict::Pass || verdict(
        store,
        maps,
        ancestor(target, shift),
    ) == Verdict::Fetch) {
        lemma_climb_takes(store, maps, target, shift + 1, top);
    }
}

/// The voxels of a chunk whose shard is mapped.
pub fn read_chunk<'a>(store: &DiskStore, maps: &Vec<ShardMap<'a>>, key: ChunkKey) -> (r: Option<&'a [u8]>)
    requires
        store.wf(),
        maps_ok(maps@, store),
    ensures
        r is Some <==> store.has(key) && mapped(maps@, key.lod, store.place(key).shard) matches Some(
            Some(_),
        ),
        r is Some ==> r->0@ == chunk_in(
            mapped(maps@, key.lod, store.place(key).shard)->0->0,
            store.place(key).in_shard_idx as int,
        ) && r->0@.len() == CHUNK_VOXELS,
{
    let at = match store.resolve(key) {
        Some(at) => at,
        None => {
            return None;
        },
    };
    match find_map(maps, store, key.lod, at.shard) {
        Some(Some(b)) => Some(chunk_slice(b, at.in_shard_idx, Ghost(store.chunks_per_shard()))),
        _ => None,
    }
}

/// The voxel, of the level `shift` above a position's own, that the position
/// falls in.
pub open spec fn cell(pos: int, shift: int) -> int {
    pos / (chunk::pow2((32 + shift) as nat) as int)
}

/// How far into that voxel it lies, in 256ths.
pub open spec fn weight(pos: int, shift: int) -> int {
    (pos / (chunk::pow2((24 + shift) as nat) as int)) % 256
}

/// The voxel that a position falls in, on every axis.
pub open spec fn cells(pos: [u64; 3], shift: int) -> Seq<int> {
    seq![
        cell(pos@[0] as int, shift),
        cell(pos@[1] as int, shift),
        cell(pos@[2] as int, shift),
    ]
}

/// The blend of eight corners at a position.
pub open spec fn blended(pos: [u64; 3], shift: int, corners: Seq<u8>) -> int {
    trilerp(
        weight(pos@[0] as int, shift),
        weight(pos@[1] as int, shift),
        weight(pos@[2] as int, shift),
        corners,
    )
}

/// Corner `i` of the block whose first voxel is `c`.
pub open spec fn corner(c: Seq<int>, i: int) -> Seq<int> {
    seq![c[0] + i % 2, c[1] + (i / 2) % 2, c[2] + i / 4]
}

/// Whether the block whose first voxel is `c` reaches into another chunk.
pub open spec fn straddles(c: Seq<int>) -> bool {
    c[0] % 64 == 63 || c[1] % 64 == 63 || c[2] % 64 == 63
}

/// The eight voxels of a block inside one chunk.
pub open spec fn block(chunk: Seq<u8>, c: Seq<int>) -> Seq<u8> {
    Seq::new(
        8,
        |i: int| chunk[voxel_place(corner(c, i)[0], corner(c, i)[1], corner(c, i)[2])],
    )
}

/// Reads `n` corners in order; the first that needs a shard ends it.
pub open spec fn corners_read(read: spec_fn(int) -> Sampled, n: nat) -> Result<Seq<u8>, ShardRequest>
    decreases n,
{
    if n == 0 {
        Ok(Seq::empty())
    } else {
        match corners_read(read, (n - 1) as nat) {
            Err(q) => Err(q),
            Ok(vs) => match read(n - 1) {
                Sampled::Value(b) => Ok(vs.push(b)),
                Sampled::Open(q) => Err(q),
            },
        }
    }
}

/// What reading `n` corners in order finds never asked for.
pub open spec fn corners_missed(
    read: spec_fn(int) -> Sampled,
    miss: spec_fn(int) -> Seq<ChunkKey>,
    n: nat,
) -> Seq<ChunkKey>
    decreases n,
{
    if n == 0 {
        Seq::empty()
    } else {
        let before = corners_missed(read, miss, (n - 1) as nat);
        if corners_read(read, (n - 1) as nat) is Err {
            before
        } else {
            before + miss(n - 1)
        }
    }
}

/// Reads the corners of a block one by one, each at its own finest level.
pub open spec fn corner_reader(
    v: &UnifiedVolume,
    store: &DiskStore,
    maps: Seq<ShardMap>,
    c: Seq<int>,
    lod: u8,
) -> spec_fn(int) -> Sampled {
    |i: int| sampled(v, store, maps, corner(c, i), lod)
}

/// What each of those reads finds never asked for.
pub open spec fn corner_misser(
    v: &UnifiedVolume,
    store: &DiskStore,
    maps: Seq<ShardMap>,
    c: Seq<int>,
    lod: u8,
) -> spec_fn(int) -> Seq<ChunkKey> {
    |i: int| sample_misses(v, store, maps, corner(c, i), lod)
}

/// What a shard's map holds for a reader that trusts it; levels past the
/// readable ones count as unopenable.
pub open spec fn trusted_map(maps: Seq<ShardMap>, lod: u8, shard: ShardCoord) -> Option<Option<Seq<u8>>> {
    if lod >= SHARD_SLOTS_PER_LOD {
        Some(None)
    } else {
        mapped(maps, lod, shard)
    }
}

/// Reads a voxel without asking whether it has arrived; what has not is zero.
pub open spec fn trusted(
    v: &UnifiedVolume,
    maps: Seq<ShardMap>,
    s: Seq<int>,
    lod: u8,
) -> Sampled {
    let key = chunk_of(lod, s);
    let shard = disk::shard_of(key, v.side);
    if !inside(v.extent, s, lod) {
        Sampled::Value(0)
    } else {
        match trusted_map(maps, lod, shard) {
            None => Sampled::Open(ShardRequest { lod, shard }),
            Some(None) => Sampled::Value(0),
            Some(Some(b)) => Sampled::Value(
                chunk_in(b, disk::place_in_shard(key, v.side))[voxel_place(s[0], s[1], s[2])],
            ),
        }
    }
}

/// Reads the corners of a block one by one, trusting that they have arrived.
pub open spec fn trusting_reader(
    v: &UnifiedVolume,
    maps: Seq<ShardMap>,
    c: Seq<int>,
    lod: u8,
) -> spec_fn(int) -> Sampled {
    |i: int| trusted(v, maps, corner(c, i), lod)
}

/// The blend at a position, trusting that its voxels have arrived.
pub open spec fn trusted_blend(
    v: &UnifiedVolume,
    maps: Seq<ShardMap>,
    pos: [u64; 3],
    lod: u8,
) -> Sampled {
    let c = cells(pos, 0);
    let key = chunk_of(lod, c);
    let shard = disk::shard_of(key, v.side);
    if straddles(c) {
        match corners_read(trusting_reader(v, maps, c, lod), 8) {
            Err(q) => Sampled::Open(q),
            Ok(vs) => Sampled::Value(blended(pos, 0, vs) as u8),
        }
    } else {
        match trusted_map(maps, lod, shard) {
            None => Sampled::Open(ShardRequest { lod, shard }),
            Some(None) => Sampled::Value(0),
            Some(Some(b)) => Sampled::Value(
                blended(pos, 0, block(chunk_in(b, disk::place_in_shard(key, v.side)), c)) as u8,
            ),
        }
    }
}

fn cell_of(pos: u64, shift: u8) -> (r: u64)
    requires
        shift <= 31,
    ensures
        r == cell(pos as int, shift as int),
        r < 0x1_0000_0000,
{
    proof {
        chunk::lemma_pow2_bounds((32 + shift) as nat);
        chunk::lemma_pow2_mono(32, (32 + shift) as nat);
        chunk::lemma_pow2_table();
        let k = chunk::pow2((32 + shift) as nat) as int;
        assert(pos as int / k < 0x1_0000_0000) by (nonlinear_arith)
            requires
                0 <= pos < 0x1_0000_0000_0000_0000,
                k >= 0x1_0000_0000,
        ;
    }
    pos / pow2_u64(32 + shift)
}

fn weight_of(pos: u64, shift: u8) -> (r: u32)
    requires
        shift <= 31,
    ensures
        r == weight(pos as int, shift as int),
        r <= 255,
{
    proof {
        chunk::lemma_pow2_bounds((24 + shift) as nat);
    }
    ((pos / pow2_u64(24 + shift)) % 256) as u32
}

fn blend_at(pos: [u64; 3], shift: u8, corners: [u8; 8]) -> (v: u8)
    requires
        shift <= 31,
    ensures
        v == blended(pos, shift as int, corners@),
{
    trilerp_q8(
        weight_of(pos[0], shift),
        weight_of(pos[1], shift),
        weight_of(pos[2], shift),
        corners,
    )
}

fn read_block(chunk: &[u8], x: u64, y: u64, z: u64) -> (corners: [u8; 8])
    requires
        chunk.len() == CHUNK_VOXELS,
        !straddles(seq![x as int, y as int, z as int]),
    ensures
        corners@ =~= block(chunk@, seq![x as int, y as int, z as int]),
{
    let at = voxel_offset(x, y, z);
    assert((x + 1) % 64 == x % 64 + 1);
    assert((y + 1) % 64 == y % 64 + 1);
    assert((z + 1) % 64 == z % 64 + 1);
    [
        chunk[at],
        chunk[at + 1],
        chunk[at + 64],
        chunk[at + 65],
        chunk[at + 4096],
        chunk[at + 4097],
        chunk[at + 4160],
        chunk[at + 4161],
    ]
}

impl UnifiedVolume {
    /// Reads a voxel without asking whether it has arrived (see `trusted`).
    pub fn read_voxel_trusting(
        &self,
        store: &DiskStore,
        maps: &Vec<ShardMap>,
        sx: u64,
        sy: u64,
        sz: u64,
        lod: u8,
    ) -> (r: Sampled)
        requires
            self.ok(store, maps@),
            lod <= 31,
        ensures
            r == trusted(self, maps@, seq![sx as int, sy as int, sz as int], lod),
    {
        let ghost s = seq![sx as int, sy as int, sz as int];
        if !self.sample_in_bounds(sx, sy, sz, lod) {
            return Sampled::Value(0);
        }
        proof {
            self.lemma_inside_small(s, lod);
        }
        let key = ChunkKey::new(lod, (sx / 64) as u32, (sy / 64) as u32, (sz / 64) as u32);
        let (shard, place) = self.shard_decompose(key.x, key.y, key.z);
        if lod >= SHARD_SLOTS_PER_LOD {
            return Sampled::Value(0);
        }
        match find_map(maps, store, lod, shard) {
            None => Sampled::Open(ShardRequest { lod, shard }),
            Some(None) => Sampled::Value(0),
            Some(Some(b)) => {
                let chunk = chunk_slice(b, place, Ghost(store.chunks_per_shard()));
                Sampled::Value(chunk[voxel_offset(sx, sy, sz)])
            },
        }
    }

    /// The blend at a position, trusting that its voxels have arrived: the
    /// variant for rendering offline, after everything was made resident.
    pub fn interpolate_u8_trusting(
        &self,
        store: &DiskStore,
        maps: &Vec<ShardMap>,
        pos: [u64; 3],
        lod: u8,
    ) -> (r: Sampled)
        requires
            self.ok(store, maps@),
            lod <= 31,
        ensures
            r == trusted_blend(self, maps@, pos, lod),
    {
        let x = cell_of(pos[0], 0);
        let y = cell_of(pos[1], 0);
        let z = cell_of(pos[2], 0);
        let ghost c = cells(pos, 0);
        assert(c =~= seq![x as int, y as int, z as int]);
        if x % 64 != 63 && y % 64 != 63 && z % 64 != 63 {
            let key = ChunkKey::new(lod, (x / 64) as u32, (y / 64) as u32, (z / 64) as u32);
            let (shard, place) = self.shard_decompose(key.x, key.y, key.z);
            if lod >= SHARD_SLOTS_PER_LOD {
                return Sampled::Value(0);
            }
            return match find_map(maps, store, lod, shard) {
                None => Sampled::Open(ShardRequest { lod, shard }),
                Some(None) => Sampled::Value(0),
                Some(Some(b)) => {
                    let chunk = chunk_slice(b, place, Ghost(store.chunks_per_shard()));
                    let corners = read_block(chunk, x, y, z);
                    Sampled::Value(blend_at(pos, 0, corners))
                },
            };
        }
        let ghost read = trusting_reader(self, maps@, c, lod);
        let mut corners: [u8; 8] = [0; 8];
        let mut i: usize = 0;
        while i < 8
            invariant
                i <= 8,
                self.ok(store, maps@),
                lod <= 31,
                straddles(c),
                c == cells(pos, 0),
                c =~= seq![x as int, y as int, z as int],
                x < 0x1_0000_0000,
                y < 0x1_0000_0000,
                z < 0x1_0000_0000,
                read == trusting_reader(self, maps@, c, lod),
                corners_read(read, i as nat) matches Ok(vs) && vs.len() == i && forall|j: int|
                    0 <= j < i ==> #[trigger] vs[j] == corners@[j],
            decreases 8 - i,
        {
            let k: u64 = i as u64;
            let sx = x + k % 2;
            let sy = y + (k / 2) % 2;
            let sz = z + k / 4;
            assert(corner(c, i as int) =~= seq![sx as int, sy as int, sz as int]);
            match self.read_voxel_trusting(store, maps, sx, sy, sz, lod) {
                Sampled::Value(b) => {
                    corners[i] = b;
                    assert(corners_read(read, (i + 1) as nat) matches Ok(vs) && vs.len() == i + 1);
                },
                Sampled::Open(q) => {
                    proof {
                        lemma_read_stops(read, (i + 1) as nat, 8);
                    }
                    return Sampled::Open(q);
                },
            }
            i = i + 1;
        }
        assert(corners_read(read, 8)->Ok_0 =~= corners@);
        Sampled::Value(blend_at(pos, 0, corners))
    }
}

/// Once a read has ended early, more corners change nothing.
proof fn lemma_read_stops(read: spec_fn(int) -> Sampled, n: nat, m: nat)
    requires
        n <= m,
        corners_read(read, n) is Err,
    ensures
        corners_read(read, m) == corners_read(read, n),
    decreases m - n,
{
    if n < m {
        lemma_read_stops(read, n, (m - 1) as nat);
    }
}

proof fn lemma_missed_stops(
    read: spec_fn(int) -> Sampled,
    miss: spec_fn(int) -> Seq<ChunkKey>,
    n: nat,
    m: nat,
)
    requires
        n <= m,
        corners_read(read, n) is Err,
    ensures
        corners_missed(read, miss, m) == corners_missed(read, miss, n),
    decreases m - n,
{
    if n < m {
        lemma_read_stops(read, n, (m - 1) as nat);
        lemma_missed_stops(read, miss, n, (m - 1) as nat);
    }
}

/// What looking for a level to interpolate at came to.
#[derive(Debug, Clone, Copy, PartialEq, Eq, Structural)]
pub enum Walk {
    /// The cache has to be asked for this chunk's state.
    Ask(ChunkKey),
    /// The chunk this many levels up; its fate is known.
    Found(u8, ChunkState),
    /// No level's fate is known.
    Nowhere,
}

/// The finest level from `shift` to `top` above the target whose fate is known.
/// `answers` holds what the cache has said so far, finest level first.
pub open spec fn walked(answers: Seq<ChunkState>, target: ChunkKey, shift: int, top: int) -> Walk
    decreases top + 1 - shift,
{
    if shift > top {
        Walk::Nowhere
    } else if shift >= answers.len() {
        Walk::Ask(ancestor(target, shift))
    } else if answers[shift].terminal() {
        Walk::Found(shift as u8, answers[shift])
    } else {
        walked(answers, target, shift + 1, top)
    }
}

/// What interpolating came to.
#[derive(Debug, Clone, Copy, PartialEq, Eq, Structural)]
pub enum Interpolated {
    /// The value.
    Value(u8),
    /// A shard has to be opened first.
    Open(ShardRequest),
    /// The cache has to be asked for this chunk's state first.
    Ask(ChunkKey),
}

/// Whether the chunk's voxels can be read where they stand.
pub open spec fn readable(store: &DiskStore, maps: Seq<ShardMap>, key: ChunkKey) -> bool {
    store.has(key) && mapped(maps, key.lod, store.place(key).shard) matches Some(Some(_))
}

/// The voxels of a readable chunk.
pub open spec fn contents_of(store: &DiskStore, maps: Seq<ShardMap>, key: ChunkKey) -> Seq<u8> {
    chunk_in(
        mapped(maps, key.lod, store.place(key).shard)->0->0,
        store.place(key).in_shard_idx as int,
    )
}

/// Whether the chunk's slot says resident and its shard is mapped.
pub open spec fn at_hand(store: &DiskStore, maps: Seq<ShardMap>, key: ChunkKey) -> bool {
    key.lod < SHARD_SLOTS_PER_LOD && readable(store, maps, key) && store.slot_state(key)
        == STATE_RESIDENT
}

/// The level chosen for a chunk: the one it is bound to, if it is the chunk
/// last interpolated in, and else the finest whose fate is known.
pub open spec fn chosen(v: &UnifiedVolume, target: ChunkKey, answers: Seq<ChunkState>) -> Walk {
    match v.bound {
        Some((key, lod, state)) if key == target => Walk::Found((lod - target.lod) as u8, state),
        _ => walked(answers, target, 0, v.top(target.lod)),
    }
}

/// The blend at a position on the lattice of the level `shift` above.
pub open spec fn blend_found(
    v: &UnifiedVolume,
    store: &DiskStore,
    maps: Seq<ShardMap>,
    pos: [u64; 3],
    target: ChunkKey,
    shift: u8,
) -> Interpolated {
    let c = cells(pos, shift as int);
    let key = ancestor(target, shift as int);
    if straddles(c) {
        match corners_read(corner_reader(v, store, maps, c, key.lod), 8) {
            Err(q) => Interpolated::Open(q),
            Ok(vs) => Interpolated::Value(blended(pos, shift as int, vs) as u8),
        }
    } else if readable(store, maps, key) {
        Interpolated::Value(
            blended(pos, shift as int, block(contents_of(store, maps, key), c)) as u8,
        )
    } else {
        Interpolated::Open(ShardRequest { lod: key.lod, shard: store.place(key).shard })
    }
}

/// What interpolating at a position of level `lod` comes to. Where a coarser
/// level stands in, the lattice is that level's own.
pub open spec fn interpolated(
    v: &UnifiedVolume,
    store: &DiskStore,
    maps: Seq<ShardMap>,
    pos: [u64; 3],
    lod: u8,
    answers: Seq<ChunkState>,
) -> Interpolated {
    let c = cells(pos, 0);
    let target = chunk_of(lod, c);
    if !inside(v.extent, c, lod) {
        Interpolated::Value(0)
    } else if v.assume_resident {
        match trusted_blend(v, maps, pos, lod) {
            Sampled::Value(b) => Interpolated::Value(b),
            Sampled::Open(q) => Interpolated::Open(q),
        }
    } else if at_hand(store, maps, target) && !straddles(c) {
        Interpolated::Value(blended(pos, 0, block(contents_of(store, maps, target), c)) as u8)
    } else {
        match chosen(v, target, answers) {
            Walk::Ask(key) => Interpolated::Ask(key),
            Walk::Nowhere => Interpolated::Value(0),
            Walk::Found(shift, state) => if state is Resident {
                blend_found(v, store, maps, pos, target, shift)
            } else {
                Interpolated::Value(0)
            },
        }
    }
}

/// Whether interpolating goes by a chosen level.
pub open spec fn goes_by_level(
    v: &UnifiedVolume,
    store: &DiskStore,
    maps: Seq<ShardMap>,
    pos: [u64; 3],
    lod: u8,
) -> bool {
    let c = cells(pos, 0);
    inside(v.extent, c, lod) && !v.assume_resident && !(at_hand(store, maps, chunk_of(lod, c))
        && !straddles(c))
}

/// What interpolating finds never asked for.
pub open spec fn interpolation_misses(
    v: &UnifiedVolume,
    store: &DiskStore,
    maps: Seq<ShardMap>,
    pos: [u64; 3],
    lod: u8,
    answers: Seq<ChunkState>,
) -> Seq<ChunkKey> {
    let target = chunk_of(lod, cells(pos, 0));
    if !goes_by_level(v, store, maps, pos, lod) {
        Seq::empty()
    } else {
        match chosen(v, target, answers) {
            Walk::Found(shift, state) => {
                let c = cells(pos, shift as int);
                let level = (lod + shift) as u8;
                if state is Resident && straddles(c) {
                    corners_missed(
                        corner_reader(v, store, maps, c, level),
                        corner_misser(v, store, maps, c, level),
                        8,
                    )
                } else {
                    Seq::empty()
                }
            },
            _ => Seq::empty(),
        }
    }
}

/// The binding that interpolating leaves: a level that was found and used is
/// kept for the chunk.
pub open spec fn binding_after(
    v: &UnifiedVolume,
    store: &DiskStore,
    maps: Seq<ShardMap>,
    pos: [u64; 3],
    lod: u8,
    answers: Seq<ChunkState>,
) -> Option<(ChunkKey, u8, ChunkState)> {
    let target = chunk_of(lod, cells(pos, 0));
    if goes_by_level(v, store, maps, pos, lod) && interpolated(
        v,
        store,
        maps,
        pos,
        lod,
        answers,
    ) is Value {
        match chosen(v, target, answers) {
            Walk::Found(shift, state) => Some((target, (lod + shift) as u8, state)),
            _ => v.bound,
        }
    } else {
        v.bound
    }
}

impl UnifiedVolume {
    /// The level that the last chunk is bound to is one of the volume's, and
    /// not finer than the chunk's own.
    pub open spec fn bound_ok(&self) -> bool {
        self.bound matches Some((key, lod, _)) ==> key.lod <= lod <= self.max_lod
    }

    /// Nothing but the binding differs.
    pub open spec fn same_volume(&self, other: &UnifiedVolume) -> bool {
        &&& self.max_lod == other.max_lod
        &&& self.extent == other.extent
        &&& self.side == other.side
        &&& self.lod_climb == other.lod_climb
        &&& self.assume_resident == other.assume_resident
    }

    fn walk(&self, answers: &Vec<ChunkState>, target: ChunkKey) -> (r: Walk)
        requires
            target.lod <= self.max_lod <= 31,
        ensures
            r == walked(answers@, target, 0, self.top(target.lod)),
            r matches Walk::Found(shift, _) ==> shift <= self.top(target.lod),
    {
        let top: u8 = if self.lod_climb { self.max_lod - target.lod } else { 0 };
        let mut shift: u8 = 0;
        while shift <= top
            invariant
                top == self.top(target.lod),
                target.lod + top <= 31,
                shift <= top + 1,
                walked(answers@, target, 0, top as int) == walked(
                    answers@,
                    target,
                    shift as int,
                    top as int,
                ),
            decreases top + 1 - shift,
        {
            if shift as usize >= answers.len() {
                return Walk::Ask(ancestor_of(target, shift));
            }
            let state = answers[shift as usize];
            if state.is_terminal() {
                return Walk::Found(shift, state);
            }
            shift = shift + 1;
        }
        Walk::Nowhere
    }

    fn read_corners(
        &self,
        store: &DiskStore,
        maps: &Vec<ShardMap>,
        x: u64,
        y: u64,
        z: u64,
        lod: u8,
        fetch: &mut Vec<ChunkKey>,
    ) -> (r: Result<[u8; 8], ShardRequest>)
        requires
            self.ok(store, maps@),
            lod <= self.max_lod,
            x < 0x1_0000_0000,
            y < 0x1_0000_0000,
            z < 0x1_0000_0000,
        ensures
            ({
                let c = seq![x as int, y as int, z as int];
                let read = corner_reader(self, store, maps@, c, lod);
                &&& match corners_read(read, 8) {
                    Ok(vs) => r matches Ok(a) && a@ == vs,
                    Err(q) => r matches Err(p) && p == q,
                }
                &&& final(fetch)@ == old(fetch)@ + corners_missed(
                    read,
                    corner_misser(self, store, maps@, c, lod),
                    8,
                )
            }),
    {
        let ghost c = seq![x as int, y as int, z as int];
        let ghost read = corner_reader(self, store, maps@, c, lod);
        let ghost miss = corner_misser(self, store, maps@, c, lod);
        let mut corners: [u8; 8] = [0; 8];
        let mut i: usize = 0;
        assert(fetch@ =~= old(fetch)@ + corners_missed(read, miss, 0));
        while i < 8
            invariant
                i <= 8,
                self.ok(store, maps@),
                lod <= self.max_lod,
                c == seq![x as int, y as int, z as int],
                x < 0x1_0000_0000,
                y < 0x1_0000_0000,
                z < 0x1_0000_0000,
                read == corner_reader(self, store, maps@, c, lod),
                miss == corner_misser(self, store, maps@, c, lod),
                corners_read(read, i as nat) matches Ok(vs) && vs.len() == i && forall|j: int|
                    0 <= j < i ==> #[trigger] vs[j] == corners@[j],
                fetch@ == old(fetch)@ + corners_missed(read, miss, i as nat),
            decreases 8 - i,
        {
            let k: u64 = i as u64;
            let sx = x + k % 2;
            let sy = y + (k / 2) % 2;
            let sz = z + k / 4;
            assert(corner(c, i as int) =~= seq![sx as int, sy as int, sz as int]);
            let got = self.get_at(store, maps, sx, sy, sz, lod, fetch);
            assert(fetch@ =~= old(fetch)@ + corners_missed(read, miss, (i + 1) as nat));
            match got {
                Sampled::Value(b) => {
                    corners[i] = b;
                    assert(corners_read(read, (i + 1) as nat) matches Ok(vs) && vs.len() == i + 1);
                },
                Sampled::Open(q) => {
                    proof {
                        lemma_read_stops(read, (i + 1) as nat, 8);
                        lemma_missed_stops(read, miss, (i + 1) as nat, 8);
                    }
                    return Err(q);
                },
            }
            i = i + 1;
        }
        assert(corners_read(read, 8)->Ok_0 =~= corners@);
        Ok(corners)
    }

    /// The blend at a position of a level (see `interpolated`). `answers` holds
    /// what the cache has said of the chunk and its ancestors in this call,
    /// finest first. The chunks that nobody has asked for yet are added to
    /// `fetch`.
    pub fn interpolate_u8(
        &mut self,
        store: &DiskStore,
        maps: &Vec<ShardMap>,
        pos: [u64; 3],
        lod: u8,
        answers: &Vec<ChunkState>,
        fetch: &mut Vec<ChunkKey>,
    ) -> (r: Interpolated)
        requires
            old(self).ok(store, maps@),
            old(self).bound_ok(),
            lod <= old(self).max_lod,
        ensures
            r == interpolated(old(self), store, maps@, pos, lod, answers@),
            final(self).same_volume(old(self)),
            final(self).bound_ok(),
            final(self).bound == binding_after(old(self), store, maps@, pos, lod, answers@),
            final(fetch)@ == old(fetch)@ + interpolation_misses(
                old(self),
                store,
                maps@,
                pos,
                lod,
                answers@,
            ),
    {
        let x = cell_of(pos[0], 0);
        let y = cell_of(pos[1], 0);
        let z = cell_of(pos[2], 0);
        let ghost c0 = cells(pos, 0);
        assert(c0 =~= seq![x as int, y as int, z as int]);
        assert(fetch@ + Seq::empty() =~= fetch@);
        if !self.sample_in_bounds(x, y, z, lod) {
            return Interpolated::Value(0);
        }
        if self.assume_resident {
            return match self.interpolate_u8_trusting(store, maps, pos, lod) {
                Sampled::Value(b) => Interpolated::Value(b),
                Sampled::Open(q) => Interpolated::Open(q),
            };
        }
        let target = ChunkKey::new(lod, (x / 64) as u32, (y / 64) as u32, (z / 64) as u32);
        assert(target == chunk_of(lod, c0));
        if lod < SHARD_SLOTS_PER_LOD && x % 64 != 63 && y % 64 != 63 && z % 64 != 63 {
            match read_chunk(store, maps, target) {
                Some(chunk) => {
                    if slot_byte(store, target) == STATE_RESIDENT {
                        let corners = read_block(chunk, x, y, z);
                        return Interpolated::Value(blend_at(pos, 0, corners));
                    }
                },
                None => {},
            }
        }
        assert(goes_by_level(old(self), store, maps@, pos, lod));
        let walk = match self.bound {
            Some((key, level, state)) => {
                if key == target {
                    Walk::Found(level - lod, state)
                } else {
                    self.walk(answers, target)
                }
            },
            None => self.walk(answers, target),
        };
        assert(walk == chosen(old(self), target, answers@));
        let (shift, state) = match walk {
            Walk::Ask(key) => {
                return Interpolated::Ask(key);
            },
            Walk::Nowhere => {
                return Interpolated::Value(0);
            },
            Walk::Found(shift, state) => (shift, state),
        };
        assert(lod + shift <= self.max_lod);
        let resident = match state {
            ChunkState::Resident { .. } => true,
            _ => false,
        };
        if !resident {
            self.bound = Some((target, lod + shift, state));
            return Interpolated::Value(0);
        }
        let key = ancestor_of(target, shift);
        let cx = cell_of(pos[0], shift);
        let cy = cell_of(pos[1], shift);
        let cz = cell_of(pos[2], shift);
        let ghost c = cells(pos, shift as int);
        assert(c =~= seq![cx as int, cy as int, cz as int]);
        if cx % 64 != 63 && cy % 64 != 63 && cz % 64 != 63 {
            match read_chunk(store, maps, key) {
                Some(chunk) => {
                    let corners = read_block(chunk, cx, cy, cz);
                    let v = blend_at(pos, shift, corners);
                    self.bound = Some((target, lod + shift, state));
                    Interpolated::Value(v)
                },
                None => {
                    let (shard, _) = self.shard_decompose(key.x, key.y, key.z);
                    Interpolated::Open(ShardRequest { lod: key.lod, shard })
                },
            }
        } else {
            match self.read_corners(store, maps, cx, cy, cz, lod + shift, fetch) {
                Ok(corners) => {
                    let v = blend_at(pos, shift, corners);
                    self.bound = Some((target, lod + shift, state));
                    Interpolated::Value(v)
                },
                Err(q) => Interpolated::Open(q),
            }
        }
    }

    /// Forgets the chunk last interpolated in, as before painting.
    pub fn drop_hot_slot(&mut self)
        ensures
            final(self).same_volume(old(self)),
            final(self).bound is None,
    {
        self.bound = None;
    }
}

fn slot_byte(store: &DiskStore, key: ChunkKey) -> (r: u8)
    requires
        store.wf(),
        store.has(key),
    ensures
        r == store.slot_state(key),
{
    match store.resolve(key) {
        Some(at) => store.sidecar.get_state(key.lod, at.sidecar_idx),
        None => 0,
    }
}

/// Whether corner `i` of a block lies beyond its first chunk on a crossed axis.
pub open spec fn corner_crosses(bx: bool, by: bool, bz: bool, i: int) -> bool {
    (bx && i % 2 == 1) || (by && (i / 2) % 2 == 1) || (bz && i / 4 == 1)
}

/// The eight voxels of a block that reaches from one chunk into a neighbor on
/// the marked axis; zeros where there is no neighbor.
pub open spec fn boundary_block(
    home: Seq<u8>,
    neigh: Option<Seq<u8>>,
    bx: bool,
    by: bool,
    bz: bool,
    c: Seq<int>,
) -> Seq<u8> {
    Seq::new(
        8,
        |i: int|
            {
                let at = voxel_place(corner(c, i)[0], corner(c, i)[1], corner(c, i)[2]);
                if corner_crosses(bx, by, bz, i) {
                    match neigh {
                        Some(n) => n[at],
                        None => 0u8,
                    }
                } else {
                    home[at]
                }
            },
    )
}

/// The blend at a position whose block reaches into one neighboring chunk:
/// the corners on the far side of the marked axis come from the neighbor, and
/// are zero if there is none.
pub fn sample_boundary_1axis(
    home: &[u8],
    neigh: Option<&[u8]>,
    bx: bool,
    by: bool,
    bz: bool,
    pos: [u64; 3],
) -> (v: u8)
    requires
        home.len() == CHUNK_VOXELS,
        neigh matches Some(n) ==> n.len() == CHUNK_VOXELS,
    ensures
        v == blended(
            pos,
            0,
            boundary_block(
                home@,
                match neigh {
                    Some(n) => Some(n@),
                    None => None,
                },
                bx,
                by,
                bz,
                cells(pos, 0),
            ),
        ),
{
    let x = cell_of(pos[0], 0);
    let y = cell_of(pos[1], 0);
    let z = cell_of(pos[2], 0);
    let ghost far = match neigh {
        Some(n) => Some(n@),
        None => None,
    };
    let ghost whole = boundary_block(home@, far, bx, by, bz, cells(pos, 0));
    let mut corners: [u8; 8] = [0; 8];
    let mut i: usize = 0;
    while i < 8
        invariant
            i <= 8,
            home.len() == CHUNK_VOXELS,
            neigh matches Some(n) ==> n.len() == CHUNK_VOXELS,
            x == cells(pos, 0)[0],
            y == cells(pos, 0)[1],
            z == cells(pos, 0)[2],
            x < 0x1_0000_0000,
            y < 0x1_0000_0000,
            z < 0x1_0000_0000,
            far == match neigh {
                Some(n) => Some(n@),
                None => None,
            },
            whole == boundary_block(home@, far, bx, by, bz, cells(pos, 0)),
            forall|j: int| 0 <= j < i ==> corners@[j] == #[trigger] whole[j],
        decreases 8 - i,
    {
        let k: u64 = i as u64;
        let dx = k % 2;
        let dy = (k / 2) % 2;
        let dz = k / 4;
        let at = voxel_offset(x + dx, y + dy, z + dz);
        let crossed = (bx && dx == 1) || (by && dy == 1) || (bz && dz == 1);
        let b: u8 = if crossed {
            match neigh {
                Some(n) => n[at],
                None => 0,
            }
        } else {
            home[at]
        };
        assert(whole[i as int] == b);
        corners[i] = b;
        i = i + 1;
    }
    assert(corners@ =~= whole);
    blend_at(pos, 0, corners)
}

/// Where a ray goes next.
pub enum RayStep {
    /// One sample; the ray goes on by one step.
    One(u8),
    /// Samples along consecutive fixed-point steps.
    Run(Vec<u8>),
    /// A shard has to be opened first.
    Open(ShardRequest),
    /// The cache has to be asked for this chunk's state first.
    Ask(ChunkKey),
}

/// `RayStep`, with what its samples are.
pub enum RayModel {
    One(u8),
    Run(Seq<u8>),
    Open(ShardRequest),
    Ask(ChunkKey),
}

impl RayStep {
    pub open spec fn model(self) -> RayModel {
        match self {
            RayStep::One(b) => RayModel::One(b),
            RayStep::Run(vs) => RayModel::Run(vs@),
            RayStep::Open(q) => RayModel::Open(q),
            RayStep::Ask(k) => RayModel::Ask(k),
        }
    }
}

/// Whether a position of level `lod` lies inside the volume.
pub open spec fn ray_inside(extent: [u32; 3], pos: [i64; 3], lod: u8) -> bool {
    forall|a: int|
        #![trigger pos@[a]]
        0 <= a < 3 ==> pos@[a] >= 0 && pos@[a] * chunk::pow2(lod as nat) < extent@[a] * 0x1_0000_0000
}

/// A position that is not negative, as an unsigned one.
pub open spec fn unsigned(pos: [i64; 3]) -> [u64; 3] {
    [pos@[0] as u64, pos@[1] as u64, pos@[2] as u64]
}

/// Whether the position's whole block lies in the chunk at `(cx, cy, cz)`.
pub open spec fn in_interior(pos: [i64; 3], key: ChunkKey) -> bool {
    let c = cells(unsigned(pos), 0);
    &&& pos@[0] >= 0 && pos@[1] >= 0 && pos@[2] >= 0
    &&& !straddles(c)
    &&& c[0] / 64 == key.x
    &&& c[1] / 64 == key.y
    &&& c[2] / 64 == key.z
}

/// The position one step on, in the width of a machine word.
pub open spec fn stepped(pos: [i64; 3], step: [i64; 3]) -> [i64; 3] {
    [
        i64::wrapping_add(pos@[0], step@[0]),
        i64::wrapping_add(pos@[1], step@[1]),
        i64::wrapping_add(pos@[2], step@[2]),
    ]
}

/// The blends along a ray while it stays in a chunk's interior, `limit` at
/// most.
pub open spec fn run_along(
    chunk: Seq<u8>,
    key: ChunkKey,
    pos: [i64; 3],
    step: [i64; 3],
    limit: nat,
) -> Seq<u8>
    decreases limit,
{
    if limit == 0 || !in_interior(pos, key) {
        Seq::empty()
    } else {
        let u = unsigned(pos);
        seq![blended(u, 0, block(chunk, cells(u, 0))) as u8] + run_along(
            chunk,
            key,
            stepped(pos, step),
            step,
            (limit - 1) as nat,
        )
    }
}

/// The chunk next to this one on the axis that the block crosses.
pub open spec fn neighbor(key: ChunkKey, c: Seq<int>) -> ChunkKey {
    if c[0] % 64 == 63 {
        ChunkKey { x: (key.x + 1) as u32, ..key }
    } else if c[1] % 64 == 63 {
        ChunkKey { y: (key.y + 1) as u32, ..key }
    } else {
        ChunkKey { z: (key.z + 1) as u32, ..key }
    }
}

/// On how many axes the block reaches into another chunk.
pub open spec fn crossings(c: Seq<int>) -> int {
    (if c[0] % 64 == 63 { 1int } else { 0 }) + (if c[1] % 64 == 63 { 1int } else { 0 }) + (if c[2]
        % 64 == 63 { 1int } else { 0 })
}

/// What the next stretch of a ray comes to: zero outside the volume and where
/// the shard cannot be opened; a run of blends through a chunk's interior; one
/// blend where the block reaches into a neighbor, whose voxels count as zero if
/// it belongs to another shard; and an ordinary interpolation where it reaches
/// into more than one.
pub open spec fn ray_stretch(
    v: &UnifiedVolume,
    store: &DiskStore,
    maps: Seq<ShardMap>,
    pos: [i64; 3],
    step: [i64; 3],
    limit: nat,
    lod: u8,
    answers: Seq<ChunkState>,
) -> RayModel {
    let u = unsigned(pos);
    let c = cells(u, 0);
    let key = chunk_of(lod, c);
    let shard = disk::shard_of(key, v.side);
    if !ray_inside(v.extent, pos, lod) {
        RayModel::One(0)
    } else {
        match trusted_map(maps, lod, shard) {
            None => RayModel::Open(ShardRequest { lod, shard }),
            Some(None) => RayModel::One(0),
            Some(Some(b)) => {
                let home = chunk_in(b, disk::place_in_shard(key, v.side));
                if crossings(c) >= 2 {
                    match interpolated(v, store, maps, u, lod, answers) {
                        Interpolated::Value(x) => RayModel::One(x),
                        Interpolated::Open(q) => RayModel::Open(q),
                        Interpolated::Ask(k) => RayModel::Ask(k),
                    }
                } else if crossings(c) == 1 {
                    let next = neighbor(key, c);
                    let far = if disk::shard_of(next, v.side) == shard {
                        Some(chunk_in(b, disk::place_in_shard(next, v.side)))
                    } else {
                        None
                    };
                    RayModel::One(
                        blended(
                            u,
                            0,
                            boundary_block(
                                home,
                                far,
                                c[0] % 64 == 63,
                                c[1] % 64 == 63,
                                c[2] % 64 == 63,
                                c,
                            ),
                        ) as u8,
                    )
                } else {
                    RayModel::Run(run_along(home, key, pos, step, limit))
                }
            },
        }
    }
}

/// Whether the next stretch of a ray is an ordinary interpolation.
pub open spec fn ray_interpolates(
    v: &UnifiedVolume,
    maps: Seq<ShardMap>,
    pos: [i64; 3],
    lod: u8,
) -> bool {
    let c = cells(unsigned(pos), 0);
    &&& ray_inside(v.extent, pos, lod)
    &&& trusted_map(maps, lod, disk::shard_of(chunk_of(lod, c), v.side)) matches Some(Some(_))
    &&& crossings(c) >= 2
}

fn ray_within(p: i64, lod: u8, extent: u32) -> (r: bool)
    requires
        lod <= 31,
    ensures
        r == (p >= 0 && p * chunk::pow2(lod as nat) < extent * 0x1_0000_0000),
{
    if p < 0 {
        return false;
    }
    proof {
        chunk::lemma_pow2_bounds(lod as nat);
    }
    let scale: u128 = pow2_u64(lod) as u128;
    assert(p * scale <= 0x7fff_ffff_ffff_ffff * 0x8000_0000) by (nonlinear_arith)
        requires
            0 <= p <= 0x7fff_ffff_ffff_ffff,
            0 <= scale <= 0x8000_0000,
    ;
    (p as u128) * scale < (extent as u128) * 0x1_0000_0000
}

fn run_samples(chunk: &[u8], key: ChunkKey, pos: [i64; 3], step: [i64; 3], limit: usize) -> (out: Vec<
    u8,
>)
    requires
        chunk.len() == CHUNK_VOXELS,
    ensures
        out@ == run_along(chunk@, key, pos, step, limit as nat),
{
    let mut out: Vec<u8> = Vec::new();
    let mut p: [i64; 3] = pos;
    let mut left: usize = limit;
    let ghost whole = run_along(chunk@, key, pos, step, limit as nat);
    assert(out@ + whole =~= whole);
    while left > 0
        invariant
            chunk.len() == CHUNK_VOXELS,
            whole == out@ + run_along(chunk@, key, p, step, left as nat),
        ensures
            out@ == whole,
        decreases left,
    {
        if p[0] < 0 || p[1] < 0 || p[2] < 0 {
            assert(out@ + Seq::empty() =~= out@);
            break;
        }
        let u: [u64; 3] = [p[0] as u64, p[1] as u64, p[2] as u64];
        assert(u =~= unsigned(p));
        let x = cell_of(u[0], 0);
        let y = cell_of(u[1], 0);
        let z = cell_of(u[2], 0);
        assert(cells(u, 0) =~= seq![x as int, y as int, z as int]);
        if x % 64 == 63 || y % 64 == 63 || z % 64 == 63 || x / 64 != key.x as u64 || y / 64
            != key.y as u64 || z / 64 != key.z as u64 {
            assert(out@ + Seq::empty() =~= out@);
            break;
        }
        let v = blend_at(u, 0, read_block(chunk, x, y, z));
        let next: [i64; 3] = [
            p[0].wrapping_add(step[0]),
            p[1].wrapping_add(step[1]),
            p[2].wrapping_add(step[2]),
        ];
        assert(next =~= stepped(p, step));
        let ghost rest = run_along(chunk@, key, next, step, (left - 1) as nat);
        assert(out@ + (seq![v] + rest) =~= out@.push(v) + rest);
        out.push(v);
        p = next;
        left = left - 1;
    }
    proof {
        if left == 0 {
            assert(out@ + Seq::empty() =~= out@);
        }
    }
    out
}

impl UnifiedVolume {
    /// The next stretch of a ray from `pos` (see `ray_stretch`): `step` is what
    /// one sample advances it by, `limit` how many samples a run may have.
    pub fn composite_step(
        &mut self,
        store: &DiskStore,
        maps: &Vec<ShardMap>,
        pos: [i64; 3],
        step: [i64; 3],
        limit: usize,
        lod: u8,
        answers: &Vec<ChunkState>,
        fetch: &mut Vec<ChunkKey>,
    ) -> (r: RayStep)
        requires
            old(self).ok(store, maps@),
            old(self).bound_ok(),
            lod <= old(self).max_lod,
        ensures
            r.model() == ray_stretch(
                old(self),
                store,
                maps@,
                pos,
                step,
                limit as nat,
                lod,
                answers@,
            ),
            final(self).same_volume(old(self)),
            final(self).bound_ok(),
            final(self).bound == (if ray_interpolates(old(self), maps@, pos, lod) {
                binding_after(old(self), store, maps@, unsigned(pos), lod, answers@)
            } else {
                old(self).bound
            }),
            final(fetch)@ == (if ray_interpolates(old(self), maps@, pos, lod) {
                old(fetch)@ + interpolation_misses(
                    old(self),
                    store,
                    maps@,
                    unsigned(pos),
                    lod,
                    answers@,
                )
            } else {
                old(fetch)@
            }),
    {
        let a = ray_within(pos[0], lod, self.extent[0]);
        let b = ray_within(pos[1], lod, self.extent[1]);
        let c = ray_within(pos[2], lod, self.extent[2]);
        assert(ray_inside(self.extent, pos, lod) == (a && b && c)) by {
            if ray_inside(self.extent, pos, lod) {
                assert(pos@[0] >= 0 && pos@[1] >= 0 && pos@[2] >= 0);
            }
        }
        if !a || !b || !c {
            return RayStep::One(0);
        }
        let u: [u64; 3] = [pos[0] as u64, pos[1] as u64, pos[2] as u64];
        assert(u =~= unsigned(pos));
        let x = cell_of(u[0], 0);
        let y = cell_of(u[1], 0);
        let z = cell_of(u[2], 0);
        let ghost at = cells(u, 0);
        assert(at =~= seq![x as int, y as int, z as int]);
        let key = ChunkKey::new(lod, (x / 64) as u32, (y / 64) as u32, (z / 64) as u32);
        let (shard, place) = self.shard_decompose(key.x, key.y, key.z);
        if lod >= SHARD_SLOTS_PER_LOD {
            return RayStep::One(0);
        }
        let bytes = match find_map(maps, store, lod, shard) {
            None => {
                return RayStep::Open(ShardRequest { lod, shard });
            },
            Some(None) => {
                return RayStep::One(0);
            },
            Some(Some(bytes)) => bytes,
        };
        let home = chunk_slice(bytes, place, Ghost(store.chunks_per_shard()));
        let bx = x % 64 == 63;
        let by = y % 64 == 63;
        let bz = z % 64 == 63;
        if (bx && by) || (bx && bz) || (by && bz) {
            return match self.interpolate_u8(store, maps, u, lod, answers, fetch) {
                Interpolated::Value(v) => RayStep::One(v),
                Interpolated::Open(q) => RayStep::Open(q),
                Interpolated::Ask(k) => RayStep::Ask(k),
            };
        }
        if bx || by || bz {
            let next = if bx {
                ChunkKey::new(lod, key.x + 1, key.y, key.z)
            } else if by {
                ChunkKey::new(lod, key.x, key.y + 1, key.z)
            } else {
                ChunkKey::new(lod, key.x, key.y, key.z + 1)
            };
            let (next_shard, next_place) = self.shard_decompose(next.x, next.y, next.z);
            let far = if next_shard == shard {
                Some(chunk_slice(bytes, next_place, Ghost(store.chunks_per_shard())))
            } else {
                None
            };
            return RayStep::One(sample_boundary_1axis(home, far, bx, by, bz, u));
        }
        RayStep::Run(run_samples(home, key, pos, step, limit))
    }
}

/// A walk along a ray: where it stands, what one sample advances it by, how
/// many samples are left and which have been taken.
#[derive(Debug)]
pub struct Ray {
    pub pos: [i64; 3],
    pub step: [i64; 3],
    pub left: usize,
    pub samples: Vec<u8>,
}

/// What a walk along a ray waits for.
#[derive(Debug, Clone, Copy, PartialEq, Eq, Structural)]
pub enum RayNeed {
    /// Nothing: all samples have been taken.
    Nothing,
    /// A shard has to be opened first.
    Open(ShardRequest),
    /// The cache has to be asked for this chunk's state first.
    Ask(ChunkKey),
}

/// What a walk along a ray comes to.
pub struct RayTrace {
    pub samples: Seq<u8>,
    pub pos: [i64; 3],
    pub left: nat,
    pub need: RayNeed,
    pub bound: Option<(ChunkKey, u8, ChunkState)>,
    pub misses: Seq<ChunkKey>,
}

/// The position `n` steps on.
pub open spec fn advanced(pos: [i64; 3], step: [i64; 3], n: nat) -> [i64; 3]
    decreases n,
{
    if n == 0 {
        pos
    } else {
        advanced(stepped(pos, step), step, (n - 1) as nat)
    }
}

/// The volume after a stretch of a ray: an ordinary interpolation may bind
/// another chunk.
pub open spec fn after_stretch(
    v: UnifiedVolume,
    store: &DiskStore,
    maps: Seq<ShardMap>,
    pos: [i64; 3],
    lod: u8,
    answers: Seq<ChunkState>,
) -> UnifiedVolume {
    if ray_interpolates(&v, maps, pos, lod) {
        UnifiedVolume {
            bound: binding_after(&v, store, maps, unsigned(pos), lod, answers),
            ..v
        }
    } else {
        v
    }
}

/// The chunks that a stretch of a ray asks to be fetched.
pub open spec fn stretch_misses(
    v: UnifiedVolume,
    store: &DiskStore,
    maps: Seq<ShardMap>,
    pos: [i64; 3],
    lod: u8,
    answers: Seq<ChunkState>,
) -> Seq<ChunkKey> {
    if ray_interpolates(&v, maps, pos, lod) {
        interpolation_misses(&v, store, maps, unsigned(pos), lod, answers)
    } else {
        Seq::empty()
    }
}

/// A walk along a ray, stretch by stretch, until `n` samples are taken or
/// something is needed first. The answers are for the first stretch.
#[verifier::opaque]
pub open spec fn ray_trace(
    v: UnifiedVolume,
    store: &DiskStore,
    maps: Seq<ShardMap>,
    pos: [i64; 3],
    step: [i64; 3],
    n: nat,
    lod: u8,
    answers: Seq<ChunkState>,
) -> RayTrace
    decreases n,
{
    let stays = RayTrace {
        samples: Seq::empty(),
        pos,
        left: n,
        need: RayNeed::Nothing,
        bound: v.bound,
        misses: Seq::empty(),
    };
    if n == 0 {
        stays
    } else {
        let next = after_stretch(v, store, maps, pos, lod, answers);
        let misses = stretch_misses(v, store, maps, pos, lod, answers);
        match ray_stretch(&v, store, maps, pos, step, n, lod, answers) {
            RayModel::Open(q) => RayTrace {
                need: RayNeed::Open(q),
                bound: next.bound,
                misses,
                ..stays
            },
            RayModel::Ask(k) => RayTrace {
                need: RayNeed::Ask(k),
                bound: next.bound,
                misses,
                ..stays
            },
            RayModel::One(x) => {
                let rest = ray_trace(
                    next,
                    store,
                    maps,
                    stepped(pos, step),
                    step,
                    (n - 1) as nat,
                    lod,
                    Seq::empty(),
                );
                RayTrace {
                    samples: seq![x] + rest.samples,
                    misses: misses + rest.misses,
                    ..rest
                }
            },
            RayModel::Run(vs) => if 0 < vs.len() <= n {
                let rest = ray_trace(
                    next,
                    store,
                    maps,
                    advanced(pos, step, vs.len()),
                    step,
                    (n - vs.len()) as nat,
                    lod,
                    Seq::empty(),
                );
                RayTrace {
                    samples: vs + rest.samples,
                    misses: misses + rest.misses,
                    ..rest
                }
            } else {
                stays
            },
        }
    }
}

proof fn lemma_run_length(chunk: Seq<u8>, key: ChunkKey, pos: [i64; 3], step: [i64; 3], limit: nat)
    ensures
        run_along(chunk, key, pos, step, limit).len() <= limit,
        limit > 0 && in_interior(pos, key) ==> run_along(chunk, key, pos, step, limit).len() > 0,
    decreases limit,
{
    if limit > 0 && in_interior(pos, key) {
        lemma_run_length(chunk, key, stepped(pos, step), step, (limit - 1) as nat);
    }
}

proof fn lemma_stretch_moves(
    v: &UnifiedVolume,
    store: &DiskStore,
    maps: Seq<ShardMap>,
    pos: [i64; 3],
    step: [i64; 3],
    limit: nat,
    lod: u8,
    answers: Seq<ChunkState>,
)
    requires
        limit > 0,
    ensures
        ray_stretch(v, store, maps, pos, step, limit, lod, answers) matches RayModel::Run(vs) ==> 0
            < vs.len() <= limit,
{
    let u = unsigned(pos);
    let c = cells(u, 0);
    let key = chunk_of(lod, c);
    match ray_stretch(v, store, maps, pos, step, limit, lod, answers) {
        RayModel::Run(vs) => {
            assert(pos@[0] >= 0 && pos@[1] >= 0 && pos@[2] >= 0);
            lemma_cell_small(u@[0] as int);
            lemma_cell_small(u@[1] as int);
            lemma_cell_small(u@[2] as int);
            assert(in_interior(pos, key));
            let shard = disk::shard_of(key, v.side);
            match trusted_map(maps, lod, shard) {
                Some(Some(b)) => {
                    let home = chunk_in(b, disk::place_in_shard(key, v.side));
                    lemma_run_length(home, key, pos, step, limit);
                },
                _ => {},
            }
        },
        _ => {},
    }
}

fn step_on(pos: [i64; 3], step: [i64; 3], n: usize) -> (r: [i64; 3])
    ensures
        r == advanced(pos, step, n as nat),
{
    let mut p: [i64; 3] = pos;
    let mut left: usize = n;
    while left > 0
        invariant
            advanced(pos, step, n as nat) == advanced(p, step, left as nat),
        decreases left,
    {
        let next: [i64; 3] = [
            p[0].wrapping_add(step[0]),
            p[1].wrapping_add(step[1]),
            p[2].wrapping_add(step[2]),
        ];
        assert(next =~= stepped(p, step));
        p = next;
        left = left - 1;
    }
    p
}

/// How a walk along a ray `t` follows from one stretch, which took `got` and
/// missed `missed`, and the walk `rest` behind it.
pub open spec fn continues(t: RayTrace, got: Seq<u8>, missed: Seq<ChunkKey>, rest: RayTrace) -> bool {
    &&& t.samples == got + rest.samples
    &&& t.misses == missed + rest.misses
    &&& t.need == rest.need
    &&& t.pos == rest.pos
    &&& t.left == rest.left
    &&& t.bound == rest.bound
}

proof fn lemma_trace_of_none(
    v: UnifiedVolume,
    store: &DiskStore,
    maps: Seq<ShardMap>,
    pos: [i64; 3],
    step: [i64; 3],
    lod: u8,
    answers: Seq<ChunkState>,
)
    ensures
        ray_trace(v, store, maps, pos, step, 0, lod, answers) == (RayTrace {
            samples: Seq::empty(),
            pos,
            left: 0,
            need: RayNeed::Nothing,
            bound: v.bound,
            misses: Seq::empty(),
        }),
{
    reveal_with_fuel(ray_trace, 1);
}

proof fn lemma_trace_stops(
    v: UnifiedVolume,
    store: &DiskStore,
    maps: Seq<ShardMap>,
    pos: [i64; 3],
    step: [i64; 3],
    n: nat,
    lod: u8,
    answers: Seq<ChunkState>,
    need: RayNeed,
)
    requires
        n > 0,
        match ray_stretch(&v, store, maps, pos, step, n, lod, answers) {
            RayModel::Open(q) => need == RayNeed::Open(q),
            RayModel::Ask(k) => need == RayNeed::Ask(k),
            _ => false,
        },
    ensures
        ray_trace(v, store, maps, pos, step, n, lod, answers) == (RayTrace {
            samples: Seq::empty(),
            pos,
            left: n,
            need,
            bound: after_stretch(v, store, maps, pos, lod, answers).bound,
            misses: stretch_misses(v, store, maps, pos, lod, answers),
        }),
{
    reveal_with_fuel(ray_trace, 1);
}

proof fn lemma_trace_goes_on(
    v: UnifiedVolume,
    store: &DiskStore,
    maps: Seq<ShardMap>,
    pos: [i64; 3],
    step: [i64; 3],
    n: nat,
    lod: u8,
    answers: Seq<ChunkState>,
    got: Seq<u8>,
)
    requires
        n > 0,
        match ray_stretch(&v, store, maps, pos, step, n, lod, answers) {
            RayModel::One(x) => got == seq![x],
            RayModel::Run(vs) => got == vs && 0 < vs.len() <= n,
            _ => false,
        },
    ensures
        continues(
            ray_trace(v, store, maps, pos, step, n, lod, answers),
            got,
            stretch_misses(v, store, maps, pos, lod, answers),
            ray_trace(
                after_stretch(v, store, maps, pos, lod, answers),
                store,
                maps,
                advanced(pos, step, got.len()),
                step,
                (n - got.len()) as nat,
                lod,
                Seq::empty(),
            ),
        ),
{
    reveal_with_fuel(ray_trace, 1);
    reveal_with_fuel(advanced, 2);
}

fn push_samples(out: &mut Vec<u8>, vs: &Vec<u8>)
    ensures
        final(out)@ == old(out)@ + vs@,
{
    let mut i: usize = 0;
    let ghost head = out@;
    assert(head + vs@.take(0) =~= head);
    while i < vs.len()
        invariant
            i <= vs@.len(),
            out@ == head + vs@.take(i as int),
        decreases vs.len() - i,
    {
        out.push(vs[i]);
        assert(head + vs@.take(i + 1) =~= (head + vs@.take(i as int)).push(vs@[i as int]));
        i = i + 1;
    }
    assert(vs@.take(vs@.len() as int) =~= vs@);
}

impl UnifiedVolume {
    /// Takes the samples of the next stretch of a ray. Returns what is needed
    /// first, if anything is.
    fn take_stretch(
        &mut self,
        store: &DiskStore,
        maps: &Vec<ShardMap>,
        ray: &mut Ray,
        lod: u8,
        answers: &Vec<ChunkState>,
        fetch: &mut Vec<ChunkKey>,
    ) -> (need: Option<RayNeed>)
        requires
            old(self).ok(store, maps@),
            old(self).bound_ok(),
            lod <= old(self).max_lod,
            old(ray).left > 0,
        ensures
            final(self).same_volume(old(self)),
            final(self).bound_ok(),
            final(ray).step == old(ray).step,
            ({
                let t = ray_trace(
                    *old(self),
                    store,
                    maps@,
                    old(ray).pos,
                    old(ray).step,
                    old(ray).left as nat,
                    lod,
                    answers@,
                );
                let missed = stretch_misses(
                    *old(self),
                    store,
                    maps@,
                    old(ray).pos,
                    lod,
                    answers@,
                );
                &&& final(fetch)@ == old(fetch)@ + missed
                &&& match need {
                    Some(q) => {
                        &&& t.need == q
                        &&& t.samples == Seq::<u8>::empty()
                        &&& t.misses == missed
                        &&& t.bound == final(self).bound
                        &&& t.pos == old(ray).pos
                        &&& t.left == old(ray).left
                        &&& final(ray).pos == old(ray).pos
                        &&& final(ray).left == old(ray).left
                        &&& final(ray).samples@ == old(ray).samples@
                    },
                    None => {
                        &&& final(ray).left < old(ray).left
                        &&& final(ray).samples@.len() >= old(ray).samples@.len()
                        &&& final(ray).samples@.take(old(ray).samples@.len() as int) == old(
                            ray,
                        ).samples@
                        &&& continues(
                            t,
                            final(ray).samples@.skip(old(ray).samples@.len() as int),
                            missed,
                            ray_trace(
                                *final(self),
                                store,
                                maps@,
                                final(ray).pos,
                                old(ray).step,
                                final(ray).left as nat,
                                lod,
                                Seq::empty(),
                            ),
                        )
                    },
                }
            }),
    {
        let ghost v = *self;
        let ghost pos = ray.pos;
        let ghost n = ray.left as nat;
        let ghost taken = ray.samples@;
        proof {
            lemma_stretch_moves(&v, store, maps@, pos, ray.step, n, lod, answers@);
        }
        let r = self.composite_step(store, maps, ray.pos, ray.step, ray.left, lod, answers, fetch);
        assert(*self == after_stretch(v, store, maps@, pos, lod, answers@));
        assert(fetch@ =~= old(fetch)@ + stretch_misses(v, store, maps@, pos, lod, answers@));
        match r {
            RayStep::Open(q) => {
                proof {
                    lemma_trace_stops(
                        v,
                        store,
                        maps@,
                        pos,
                        ray.step,
                        n,
                        lod,
                        answers@,
                        RayNeed::Open(q),
                    );
                }
                Some(RayNeed::Open(q))
            },
            RayStep::Ask(k) => {
                proof {
                    lemma_trace_stops(
                        v,
                        store,
                        maps@,
                        pos,
                        ray.step,
                        n,
                        lod,
                        answers@,
                        RayNeed::Ask(k),
                    );
                }
                Some(RayNeed::Ask(k))
            },
            RayStep::One(x) => {
                proof {
                    lemma_trace_goes_on(v, store, maps@, pos, ray.step, n, lod, answers@, seq![x]);
                }
                ray.samples.push(x);
                ray.pos = step_on(ray.pos, ray.step, 1);
                ray.left = ray.left - 1;
                assert(ray.samples@.take(taken.len() as int) =~= taken);
                assert(ray.samples@.skip(taken.len() as int) =~= seq![x]);
                None
            },
            RayStep::Run(vs) => {
                proof {
                    lemma_trace_goes_on(v, store, maps@, pos, ray.step, n, lod, answers@, vs@);
                }
                push_samples(&mut ray.samples, &vs);
                ray.pos = step_on(ray.pos, ray.step, vs.len());
                ray.left = ray.left - vs.len();
                assert(ray.samples@.take(taken.len() as int) =~= taken);
                assert(ray.samples@.skip(taken.len() as int) =~= vs@);
                None
            },
        }
    }

    /// Takes the samples along a ray (see `ray_trace`) until all are taken or
    /// something is needed first; the walk then goes on from where it stands.
    /// `answers` is what the cache has answered for the chunk that was last
    /// asked for.
    pub fn gather_along_normal(
        &mut self,
        store: &DiskStore,
        maps: &Vec<ShardMap>,
        ray: &mut Ray,
        lod: u8,
        answers: &Vec<ChunkState>,
        fetch: &mut Vec<ChunkKey>,
    ) -> (need: RayNeed)
        requires
            old(self).ok(store, maps@),
            old(self).bound_ok(),
            lod <= old(self).max_lod,
        ensures
            ({
                let t = ray_trace(
                    *old(self),
                    store,
                    maps@,
                    old(ray).pos,
                    old(ray).step,
                    old(ray).left as nat,
                    lod,
                    answers@,
                );
                &&& need == t.need
                &&& final(ray).samples@ == old(ray).samples@ + t.samples
                &&& final(ray).pos == t.pos
                &&& final(ray).left == t.left
                &&& final(ray).step == old(ray).step
                &&& final(self).bound == t.bound
                &&& final(fetch)@ == old(fetch)@ + t.misses
            }),
            final(self).same_volume(old(self)),
            final(self).bound_ok(),
    {
        let none: Vec<ChunkState> = Vec::new();
        let mut first = true;
        let ghost step = ray.step;
        let ghost whole = ray_trace(
            *self,
            store,
            maps@,
            ray.pos,
            step,
            ray.left as nat,
            lod,
            answers@,
        );
        let ghost taken = ray.samples@;
        let ghost asked = fetch@;
        let ghost mut got: Seq<u8> = Seq::empty();
        let ghost mut missed: Seq<ChunkKey> = Seq::empty();
        let ghost mut known: Seq<ChunkState> = answers@;
        let ghost mut rest: RayTrace = whole;
        assert(taken + got =~= taken);
        assert(asked + missed =~= asked);
        assert(got + whole.samples =~= whole.samples);
        assert(missed + whole.misses =~= whole.misses);
        while ray.left > 0
            invariant
                none@ == Seq::<ChunkState>::empty(),
                known == (if first { answers@ } else { Seq::<ChunkState>::empty() }),
                self.ok(store, maps@),
                self.bound_ok(),
                lod <= self.max_lod,
                self.same_volume(old(self)),
                ray.step == step,
                ray.samples@ == taken + got,
                fetch@ == asked + missed,
                rest == ray_trace(
                    *self,
                    store,
                    maps@,
                    ray.pos,
                    step,
                    ray.left as nat,
                    lod,
                    known,
                ),
                continues(whole, got, missed, rest),
                taken == old(ray).samples@,
                asked == old(fetch)@,
                step == old(ray).step,
                whole == ray_trace(
                    *old(self),
                    store,
                    maps@,
                    old(ray).pos,
                    old(ray).step,
                    old(ray).left as nat,
                    lod,
                    answers@,
                ),
            decreases ray.left,
        {
            let known_now = if first {
                answers
            } else {
                &none
            };
            assert(known_now@ == known);
            let ghost head = ray.samples@;
            let ghost misses = stretch_misses(*self, store, maps@, ray.pos, lod, known);
            match self.take_stretch(store, maps, ray, lod, known_now, fetch) {
                Some(need) => {
                    assert(got + rest.samples =~= got);
                    assert(asked + (missed + misses) =~= (asked + missed) + misses);
                    return need;
                },
                None => {},
            }
            proof {
                let more = ray.samples@.skip(head.len() as int);
                assert(ray.samples@ =~= head + more);
                assert(head + more =~= taken + (got + more));
                assert((asked + missed) + misses =~= asked + (missed + misses));
                let next = ray_trace(
                    *self,
                    store,
                    maps@,
                    ray.pos,
                    step,
                    ray.left as nat,
                    lod,
                    Seq::empty(),
                );
                assert(got + (more + next.samples) =~= (got + more) + next.samples);
                assert(missed + (misses + next.misses) =~= (missed + misses) + next.misses);
                got = got + more;
                missed = missed + misses;
                rest = next;
                known = Seq::empty();
            }
            first = false;
        }
        proof {
            lemma_trace_of_none(*self, store, maps@, ray.pos, step, lod, known);
            assert(got + rest.samples =~= got);
            assert(missed + rest.misses =~= missed);
        }
        RayNeed::Nothing
    }
}

/// The largest of some samples, zero if there are none.
pub open spec fn largest(samples: Seq<u8>) -> u8
    decreases samples.len(),
{
    if samples.len() == 0 {
        0
    } else if samples.last() > largest(samples.drop_last()) {
        samples.last()
    } else {
        largest(samples.drop_last())
    }
}

fn largest_of(samples: &Vec<u8>) -> (v: u8)
    ensures
        v == largest(samples@),
{
    let mut v: u8 = 0;
    let mut i: usize = 0;
    assert(samples@.take(0) =~= Seq::<u8>::empty());
    while i < samples.len()
        invariant
            i <= samples@.len(),
            v == largest(samples@.take(i as int)),
        decreases samples.len() - i,
    {
        assert(samples@.take(i + 1).drop_last() =~= samples@.take(i as int));
        if samples[i] > v {
            v = samples[i];
        }
        i = i + 1;
    }
    assert(samples@.take(samples@.len() as int) =~= samples@);
    v
}

/// The largest of some samples bounds each of them and, unless it is zero, is
/// one of them.
pub proof fn law_largest_is_one_of_them(samples: Seq<u8>)
    ensures
        forall|i: int| 0 <= i < samples.len() ==> #[trigger] samples[i] <= largest(samples),
        largest(samples) > 0 ==> samples.contains(largest(samples)),
    decreases samples.len(),
{
    if samples.len() > 0 {
        let front = samples.drop_last();
        law_largest_is_one_of_them(front);
        assert forall|i: int| 0 <= i < samples.len() implies #[trigger] samples[i] <= largest(
            samples,
        ) by {
            if i < front.len() {
                assert(front[i] == samples[i]);
            }
        }
        if largest(samples) > 0 {
            if samples.last() > largest(front) {
                assert(samples[samples.len() - 1] == largest(samples));
            } else {
                let j = choose|j: int| 0 <= j < front.len() && front[j] == largest(front);
                assert(samples[j] == largest(samples));
            }
        }
    }
}

/// How many samples a stretch of a walk takes that `left` are left of and
/// `wanted` are wanted of.
pub open spec fn next_samples(left: usize, wanted: usize) -> nat {
    if wanted < left {
        wanted as nat
    } else {
        left as nat
    }
}

impl UnifiedVolume {
    /// Takes the next `wanted` samples along a ray, or those that are left of
    /// it, as `gather_along_normal` takes all of them. Whoever has enough stops
    /// here: what lies further on is not asked for.
    pub fn gather_some_along_normal(
        &mut self,
        store: &DiskStore,
        maps: &Vec<ShardMap>,
        ray: &mut Ray,
        wanted: usize,
        lod: u8,
        answers: &Vec<ChunkState>,
        fetch: &mut Vec<ChunkKey>,
    ) -> (need: RayNeed)
        requires
            old(self).ok(store, maps@),
            old(self).bound_ok(),
            lod <= old(self).max_lod,
        ensures
            ({
                let n = next_samples(old(ray).left, wanted);
                let t = ray_trace(
                    *old(self),
                    store,
                    maps@,
                    old(ray).pos,
                    old(ray).step,
                    n,
                    lod,
                    answers@,
                );
                &&& need == t.need
                &&& final(ray).samples@ == old(ray).samples@ + t.samples
                &&& final(ray).pos == t.pos
                &&& final(ray).left == old(ray).left - n + t.left
                &&& final(ray).step == old(ray).step
                &&& final(self).bound == t.bound
                &&& final(fetch)@ == old(fetch)@ + t.misses
            }),
            final(self).same_volume(old(self)),
            final(self).bound_ok(),
    {
        let n: usize = if wanted < ray.left {
            wanted
        } else {
            ray.left
        };
        let beyond: usize = ray.left - n;
        ray.left = n;
        proof {
            law_ray_takes_every_sample(
                *self,
                store,
                maps@,
                ray.pos,
                ray.step,
                n as nat,
                lod,
                answers@,
            );
        }
        let need = self.gather_along_normal(store, maps, ray, lod, answers, fetch);
        ray.left = beyond + ray.left;
        need
    }

    /// The largest sample of a ray, of those taken before too, once all are
    /// taken; what is needed first otherwise.
    pub fn max_along_normal(
        &mut self,
        store: &DiskStore,
        maps: &Vec<ShardMap>,
        ray: &mut Ray,
        lod: u8,
        answers: &Vec<ChunkState>,
        fetch: &mut Vec<ChunkKey>,
    ) -> (r: Result<u8, RayNeed>)
        requires
            old(self).ok(store, maps@),
            old(self).bound_ok(),
            lod <= old(self).max_lod,
        ensures
            ({
                let t = ray_trace(
                    *old(self),
                    store,
                    maps@,
                    old(ray).pos,
                    old(ray).step,
                    old(ray).left as nat,
                    lod,
                    answers@,
                );
                &&& r == (if t.need is Nothing {
                    Ok::<u8, RayNeed>(largest(old(ray).samples@ + t.samples))
                } else {
                    Err(t.need)
                })
                &&& final(ray).samples@ == old(ray).samples@ + t.samples
                &&& final(ray).pos == t.pos
                &&& final(ray).left == t.left
                &&& final(ray).step == old(ray).step
                &&& final(self).bound == t.bound
                &&& final(fetch)@ == old(fetch)@ + t.misses
            }),
            final(self).same_volume(old(self)),
            final(self).bound_ok(),
    {
        match self.gather_along_normal(store, maps, ray, lod, answers, fetch) {
            RayNeed::Nothing => Ok(largest_of(&ray.samples)),
            need => Err(need),
        }
    }
}

proof fn lemma_run_prefix(chunk: Seq<u8>, key: ChunkKey, pos: [i64; 3], step: [i64; 3], n: nat, m: nat)
    requires
        n <= m,
    ensures
        run_along(chunk, key, pos, step, n).len() <= n,
        run_along(chunk, key, pos, step, n).is_prefix_of(run_along(chunk, key, pos, step, m)),
        run_along(chunk, key, pos, step, n).len() < n ==> run_along(chunk, key, pos, step, n)
            == run_along(chunk, key, pos, step, m),
    decreases n,
{
    let (a, b) = (run_along(chunk, key, pos, step, n), run_along(chunk, key, pos, step, m));
    if n > 0 && in_interior(pos, key) {
        let next = stepped(pos, step);
        lemma_run_prefix(chunk, key, next, step, (n - 1) as nat, (m - 1) as nat);
        let x = blended(unsigned(pos), 0, block(chunk, cells(unsigned(pos), 0))) as u8;
        let (c, d) = (
            run_along(chunk, key, next, step, (n - 1) as nat),
            run_along(chunk, key, next, step, (m - 1) as nat),
        );
        assert(a == seq![x] + c && b == seq![x] + d);
        assert(a =~= b.subrange(0, a.len() as int)) by {
            assert forall|i: int| 0 <= i < a.len() implies a[i] == b[i] by {
                if i > 0 {
                    assert(c[i - 1] == d.subrange(0, c.len() as int)[i - 1]);
                }
            }
        }
    } else {
        assert(a =~= Seq::<u8>::empty());
        assert(a =~= b.subrange(0, 0));
    }
}

/// A shorter walk along a ray is the start of a longer one: it takes its first
/// samples, and asks for nothing that the longer one does not ask for on the
/// way there.
pub proof fn law_shorter_walk_is_a_start(
    v: UnifiedVolume,
    store: &DiskStore,
    maps: Seq<ShardMap>,
    pos: [i64; 3],
    step: [i64; 3],
    n: nat,
    m: nat,
    lod: u8,
    answers: Seq<ChunkState>,
)
    requires
        n <= m,
    ensures
        ({
            let a = ray_trace(v, store, maps, pos, step, n, lod, answers);
            let b = ray_trace(v, store, maps, pos, step, m, lod, answers);
            &&& a.samples.is_prefix_of(b.samples)
            &&& a.misses.is_prefix_of(b.misses)
        }),
    decreases n,
{
    reveal(ray_trace);
    let a = ray_trace(v, store, maps, pos, step, n, lod, answers);
    let b = ray_trace(v, store, maps, pos, step, m, lod, answers);
    let next = after_stretch(v, store, maps, pos, lod, answers);
    let misses = stretch_misses(v, store, maps, pos, lod, answers);
    if n == 0 {
        assert(a.samples =~= b.samples.subrange(0, 0));
        assert(a.misses =~= b.misses.subrange(0, 0));
    } else {
        let c = cells(unsigned(pos), 0);
        let key = chunk_of(lod, c);
        let shard = disk::shard_of(key, v.side);
        match ray_stretch(&v, store, maps, pos, step, m, lod, answers) {
            RayModel::One(x) => {
                law_shorter_walk_is_a_start(
                    next,
                    store,
                    maps,
                    stepped(pos, step),
                    step,
                    (n - 1) as nat,
                    (m - 1) as nat,
                    lod,
                    Seq::empty(),
                );
                let none = Seq::<ChunkState>::empty();
                let ra = ray_trace(next, store, maps, stepped(pos, step), step, (n - 1) as nat, lod, none);
                let rb = ray_trace(next, store, maps, stepped(pos, step), step, (m - 1) as nat, lod, none);
                lemma_front_prefix(seq![x], ra.samples, rb.samples);
                lemma_front_prefix(misses, ra.misses, rb.misses);
            },
            RayModel::Run(vm) => {
                let home = chunk_in(
                    trusted_map(maps, lod, shard)->0->0,
                    disk::place_in_shard(key, v.side),
                );
                lemma_run_prefix(home, key, pos, step, n, m);
                lemma_run_prefix(home, key, pos, step, m, m);
                let vn = run_along(home, key, pos, step, n);
                assert(vm == run_along(home, key, pos, step, m));
                if vm.len() > 0 {
                    let none = Seq::<ChunkState>::empty();
                    let rb = ray_trace(
                        next,
                        store,
                        maps,
                        advanced(pos, step, vm.len()),
                        step,
                        (m - vm.len()) as nat,
                        lod,
                        none,
                    );
                    assert(b.samples == vm + rb.samples && b.misses == misses + rb.misses);
                    assert(vn.len() > 0);
                    let ra = ray_trace(
                        next,
                        store,
                        maps,
                        advanced(pos, step, vn.len()),
                        step,
                        (n - vn.len()) as nat,
                        lod,
                        none,
                    );
                    assert(a.samples == vn + ra.samples && a.misses == misses + ra.misses);
                    if vn.len() < n {
                        law_shorter_walk_is_a_start(
                            next,
                            store,
                            maps,
                            advanced(pos, step, vn.len()),
                            step,
                            (n - vn.len()) as nat,
                            (m - vn.len()) as nat,
                            lod,
                            none,
                        );
                        lemma_front_prefix(vn, ra.samples, rb.samples);
                        lemma_front_prefix(misses, ra.misses, rb.misses);
                    } else {
                        assert(ra.samples =~= Seq::<u8>::empty() && ra.misses =~= Seq::<ChunkKey>::empty());
                        assert(a.samples =~= vn);
                        assert(a.samples =~= b.samples.subrange(0, vn.len() as int)) by {
                            assert forall|i: int| 0 <= i < vn.len() implies vn[i] == b.samples[i] by {
                                assert(vn[i] == vm.subrange(0, vn.len() as int)[i]);
                            }
                        }
                        assert(a.misses =~= b.misses.subrange(0, misses.len() as int));
                    }
                } else {
                    assert(vn =~= Seq::<u8>::empty());
                    assert(a.samples =~= b.samples.subrange(0, 0));
                    assert(a.misses =~= b.misses.subrange(0, 0));
                }
            },
            _ => {
                assert(a.samples =~= b.samples.subrange(0, 0));
                assert(a.misses =~= b.misses.subrange(0, a.misses.len() as int));
            },
        }
    }
}

proof fn lemma_front_prefix<A>(front: Seq<A>, a: Seq<A>, b: Seq<A>)
    requires
        a.is_prefix_of(b),
    ensures
        (front + a).is_prefix_of(front + b),
{
    assert forall|i: int| 0 <= i < (front + a).len() implies (front + a)[i] == (front + b)[i] by {
        if i >= front.len() {
            assert(a[i - front.len()] == b.subrange(0, a.len() as int)[i - front.len()]);
        }
    }
    assert((front + a) =~= (front + b).subrange(0, (front + a).len() as int));
}

/// A walk along a ray takes every sample it was asked for, unless something is
/// needed first; then the rest is left.
pub proof fn law_ray_takes_every_sample(
    v: UnifiedVolume,
    store: &DiskStore,
    maps: Seq<ShardMap>,
    pos: [i64; 3],
    step: [i64; 3],
    n: nat,
    lod: u8,
    answers: Seq<ChunkState>,
)
    ensures
        ({
            let t = ray_trace(v, store, maps, pos, step, n, lod, answers);
            &&& t.samples.len() + t.left == n
            &&& t.need is Nothing == (t.left == 0)
        }),
    decreases n,
{
    reveal_with_fuel(ray_trace, 1);
    if n > 0 {
        lemma_stretch_moves(&v, store, maps, pos, step, n, lod, answers);
        let next = after_stretch(v, store, maps, pos, lod, answers);
        match ray_stretch(&v, store, maps, pos, step, n, lod, answers) {
            RayModel::One(_) => {
                law_ray_takes_every_sample(
                    next,
                    store,
                    maps,
                    stepped(pos, step),
                    step,
                    (n - 1) as nat,
                    lod,
                    Seq::empty(),
                );
            },
            RayModel::Run(vs) => {
                law_ray_takes_every_sample(
                    next,
                    store,
                    maps,
                    advanced(pos, step, vs.len()),
                    step,
                    (n - vs.len()) as nat,
                    lod,
                    Seq::empty(),
                );
            },
            _ => {},
        }
    }
}

/// A level at which the chunk is known to be absent ends a climb: absence
/// there overrides whatever coarser levels hold.
pub proof fn law_absence_overrides_coarser_data(
    store: &DiskStore,
    maps: Seq<ShardMap>,
    target: ChunkKey,
    top: int,
)
    requires
        0 <= top,
        target.lod < SHARD_SLOTS_PER_LOD,
        store.has(target),
        store.slot_state(target) == STATE_EMPTY,
    ensures
        climbed(store, maps, target, 0, top) == Climb::Nothing,
        unasked(store, maps, target, 0, top) == Seq::<ChunkKey>::empty(),
{
    lemma_own_ancestor(target);
}

/// Where the wanted chunk itself can be read, no other level is looked at.
pub proof fn law_finest_level_wins(
    store: &DiskStore,
    maps: Seq<ShardMap>,
    target: ChunkKey,
    top: int,
)
    requires
        0 <= top,
        at_hand(store, maps, target),
    ensures
        climbed(store, maps, target, 0, top) == Climb::At(0),
        unasked(store, maps, target, 0, top) == Seq::<ChunkKey>::empty(),
{
    lemma_own_ancestor(target);
}

/// A chunk whose fetch is noted in its shard's map is not asked for again.
pub proof fn law_asked_for_once(store: &DiskStore, maps: Seq<ShardMap>, key: ChunkKey)
    requires
        store.bit(key.lod, store.place(key).shard, store.place(key).in_shard_idx as int) != Some(
            ChunkBitState::Unknown,
        ),
    ensures
        verdict(store, maps, key) != Verdict::Fetch,
{
}

/// Inside a chunk that has arrived, trusting that it has gives the same blend
/// as asking.
pub proof fn law_trusting_agrees_with_asking(
    asking: UnifiedVolume,
    trusting: UnifiedVolume,
    store: &DiskStore,
    maps: Seq<ShardMap>,
    pos: [u64; 3],
    lod: u8,
    answers: Seq<ChunkState>,
)
    requires
        asking.ok(store, maps),
        trusting.ok(store, maps),
        asking.extent == trusting.extent,
        !asking.assume_resident,
        trusting.assume_resident,
        !straddles(cells(pos, 0)),
        at_hand(store, maps, chunk_of(lod, cells(pos, 0))),
    ensures
        interpolated(&asking, store, maps, pos, lod, answers) == interpolated(
            &trusting,
            store,
            maps,
            pos,
            lod,
            answers,
        ),
{
    let key = chunk_of(lod, cells(pos, 0));
    store.lemma_place_fits(key);
    assert(disk::place_in_shard(key, asking.side) == store.place(key).in_shard_idx);
}

/// Inside a chunk that has arrived, a ray takes the same blend as
/// interpolating there.
pub proof fn law_ray_agrees_with_asking(
    v: UnifiedVolume,
    store: &DiskStore,
    maps: Seq<ShardMap>,
    pos: [i64; 3],
    step: [i64; 3],
    lod: u8,
    answers: Seq<ChunkState>,
)
    requires
        v.ok(store, maps),
        !v.assume_resident,
        ray_inside(v.extent, pos, lod),
        inside(v.extent, cells(unsigned(pos), 0), lod),
        !straddles(cells(unsigned(pos), 0)),
        at_hand(store, maps, chunk_of(lod, cells(unsigned(pos), 0))),
    ensures
        ray_stretch(&v, store, maps, pos, step, 1, lod, answers) matches RayModel::Run(vs)
            && vs.len() == 1 && interpolated(&v, store, maps, unsigned(pos), lod, answers)
            == Interpolated::Value(vs[0]),
{
    let u = unsigned(pos);
    let c = cells(u, 0);
    let key = chunk_of(lod, c);
    store.lemma_place_fits(key);
    assert(pos@[0] >= 0 && pos@[1] >= 0 && pos@[2] >= 0);
    lemma_cell_small(u@[0] as int);
    lemma_cell_small(u@[1] as int);
    lemma_cell_small(u@[2] as int);
    let home = contents_of(store, maps, key);
    assert(in_interior(pos, key));
    lemma_single_run(home, key, pos, step);
    assert(crossings(c) == 0);
    assert(ray_stretch(&v, store, maps, pos, step, 1, lod, answers) == RayModel::Run(
        run_along(home, key, pos, step, 1),
    ));
}

proof fn lemma_single_run(home: Seq<u8>, key: ChunkKey, pos: [i64; 3], step: [i64; 3])
    requires
        in_interior(pos, key),
    ensures
        run_along(home, key, pos, step, 1) == seq![
            blended(unsigned(pos), 0, block(home, cells(unsigned(pos), 0))) as u8,
        ],
{
    assert(run_along(home, key, stepped(pos, step), step, 0) =~= Seq::empty());
    assert(run_along(home, key, pos, step, 1) =~= seq![
        blended(unsigned(pos), 0, block(home, cells(unsigned(pos), 0))) as u8,
    ]);
}

proof fn lemma_cell_small(pos: int)
    requires
        0 <= pos < 0x1_0000_0000_0000_0000,
    ensures
        0 <= cell(pos, 0) < 0x1_0000_0000,
{
    chunk::lemma_pow2_table();
    assert(chunk::pow2(32) == 0x1_0000_0000);
    assert(cell(pos, 0) == pos / 0x1_0000_0000);
}

proof fn lemma_own_ancestor(key: ChunkKey)
    ensures
        ancestor(key, 0) == key,
{
    lemma_quotient_small(key.x as int, 1);
    lemma_quotient_small(key.y as int, 1);
    lemma_quotient_small(key.z as int, 1);
    assert(chunk::pow2(0) == 1);
}

/// Reading a voxel whose chunk is at hand gives the chunk's byte for it, x
/// running fastest and z slowest, and so does reading it on trust. Nothing has to
/// be asked for.
pub proof fn law_voxel_is_read_from_its_chunk(
    v: UnifiedVolume,
    store: &DiskStore,
    maps: Seq<ShardMap>,
    key: ChunkKey,
    x: int,
    y: int,
    z: int,
)
    requires
        v.ok(store, maps),
        key.lod <= v.max_lod,
        at_hand(store, maps, key),
        0 <= x < 64,
        0 <= y < 64,
        0 <= z < 64,
        (64 * key.x + x) * chunk::pow2(key.lod as nat) < v.extent@[0],
        (64 * key.y + y) * chunk::pow2(key.lod as nat) < v.extent@[1],
        (64 * key.z + z) * chunk::pow2(key.lod as nat) < v.extent@[2],
    ensures
        ({
            let s = seq![64 * key.x + x, 64 * key.y + y, 64 * key.z + z];
            let b = contents_of(store, maps, key)[4096 * z + 64 * y + x];
            &&& sampled(&v, store, maps, s, key.lod) == Sampled::Value(b)
            &&& trusted(&v, maps, s, key.lod) == Sampled::Value(b)
            &&& sample_misses(&v, store, maps, s, key.lod) == Seq::<ChunkKey>::empty()
        }),
{
    let s = seq![64 * key.x + x, 64 * key.y + y, 64 * key.z + z];
    assert(chunk_of(key.lod, s) == key);
    assert(inside(v.extent, s, key.lod));
    law_finest_level_wins(store, maps, key, v.top(key.lod));
    lemma_own_ancestor(key);
    store.lemma_place_fits(key);
    let k = chunk::pow2(0) as int;
    assert(k == 1);
    assert(s[0] / k == s[0] && s[1] / k == s[1] && s[2] / k == s[2]);
    assert(voxel_place(s[0], s[1], s[2]) == 4096 * z + 64 * y + x);
}

/// A voxel that lies beyond the volume on some axis is zero, however it is
/// read.
pub proof fn law_beyond_the_volume_is_zero(
    v: UnifiedVolume,
    store: &DiskStore,
    maps: Seq<ShardMap>,
    s: Seq<int>,
    lod: u8,
    axis: int,
)
    requires
        s.len() == 3,
        0 <= axis < 3,
        s[axis] * chunk::pow2(lod as nat) >= v.extent@[axis],
    ensures
        sampled(&v, store, maps, s, lod) == Sampled::Value(0),
        trusted(&v, maps, s, lod) == Sampled::Value(0),
        sample_misses(&v, store, maps, s, lod) == Seq::<ChunkKey>::empty(),
{
}

/// The bytes of a chunk are those of its shard's file from the byte on that the
/// store hands out for them when the chunk is written and names when it is
/// loaded.
pub proof fn law_chunk_is_read_where_it_is_written(store: &DiskStore, maps: Seq<ShardMap>, key: ChunkKey, i: int)
    requires
        store.wf(),
        maps_ok(maps, store),
        readable(store, maps, key),
        0 <= i < CHUNK_VOXELS,
    ensures
        contents_of(store, maps, key).len() == 64 * 64 * 64,
        store.claim(key) matches disk::Claim::Held { shard, offset } ==> {
            mapped(maps, key.lod, shard) matches Some(Some(file)) && offset + i < file.len()
                && contents_of(store, maps, key)[i] == file[offset + i]
        },
        store.loaded(key) matches disk::LoadOutcome::Resident { shard, offset } ==> {
            mapped(maps, key.lod, shard) matches Some(Some(file)) && offset + i < file.len()
                && contents_of(store, maps, key)[i] == file[offset + i]
        },
{
    store.lemma_place_fits(key);
    disk::lemma_side_fits(store.shard_chunks_per_axis);
    let place = store.place(key).in_shard_idx as int;
    let n = store.chunks_per_shard();
    let file = mapped(maps, key.lod, store.place(key).shard)->0->0;
    lemma_mapped_whole(store, maps, key.lod, store.place(key).shard);
    assert(place * CHUNK_VOXELS + CHUNK_VOXELS <= n * CHUNK_VOXELS) by (nonlinear_arith)
        requires
            place + 1 <= n,
    ;
    assert(n * CHUNK_VOXELS <= u64::MAX) by (nonlinear_arith)
        requires
            n <= u64::MAX / 262144,
            CHUNK_VOXELS == 262144,
    ;
}

proof fn lemma_mapped_whole(store: &DiskStore, maps: Seq<ShardMap>, lod: u8, shard: ShardCoord)
    requires
        maps_ok(maps, store),
        mapped(maps, lod, shard) matches Some(Some(_)),
    ensures
        mapped(maps, lod, shard)->0->0.len() == store.chunks_per_shard() * CHUNK_VOXELS,
    decreases maps.len(),
{
    if maps[0].is_of(lod, shard) {
        assert(maps[0].contents() is Some);
    } else {
        let rest = maps.drop_first();
        assert forall|i: int| 0 <= i < rest.len() && (#[trigger] rest[i]).contents() is Some implies rest[i].contents()->0.len()
            == store.chunks_per_shard() * CHUNK_VOXELS by {
            assert(rest[i] == maps[i + 1]);
        }
        lemma_mapped_whole(store, rest, lod, shard);
    }
}

/// A climb that ends at a chunk has found nothing to read at any finer level,
/// and no finer level that says there is no data or whose shard is yet to be
/// opened.
pub proof fn law_climb_passes_finer_levels(
    store: &DiskStore,
    maps: Seq<ShardMap>,
    target: ChunkKey,
    top: int,
    shift: int,
)
    requires
        target.lod + top <= 255,
        climbed(store, maps, target, 0, top) matches Climb::At(k) && 0 <= shift <= k,
    ensures
        climbed(store, maps, target, 0, top)->At_0 <= top,
        at_hand(store, maps, ancestor(target, shift)) <==> shift == climbed(store, maps, target, 0, top)->At_0,
        shift < climbed(store, maps, target, 0, top)->At_0 ==> {
            let key = ancestor(target, shift);
            store.has(key) && key.lod < SHARD_SLOTS_PER_LOD && store.slot_state(key) != STATE_LOCKED ==> {
                &&& store.slot_state(key) != STATE_EMPTY
                &&& mapped(maps, key.lod, store.place(key).shard) is Some
            }
        },
{
    lemma_climb_takes(store, maps, target, 0, top);
    if shift < climbed(store, maps, target, 0, top)->At_0 {
        lemma_climb_passes(store, maps, target, 0, top, shift);
    }
}

proof fn lemma_climb_passes(
    store: &DiskStore,
    maps: Seq<ShardMap>,
    target: ChunkKey,
    from: int,
    top: int,
    shift: int,
)
    requires
        0 <= from <= shift,
        target.lod + top <= 255,
        climbed(store, maps, target, from, top) is At,
        shift < climbed(store, maps, target, from, top)->At_0,
    ensures
        verdict(store, maps, ancestor(target, shift)) == Verdict::Pass || verdict(
            store,
            maps,
            ancestor(target, shift),
        ) == Verdict::Fetch,
    decreases shift - from,
{
    if from < shift {
        lemma_climb_passes(store, maps, target, from + 1, top, shift);
    }
}

/// `a` divided by one number and then by another, in either order.
proof fn lemma_divided_twice(a: int, b: int, c: int)
    requires
        0 <= a,
        b > 0,
        c > 0,
    ensures
        b * c > 0,
        (a / b) / c == a / (b * c),
        (a / c) / b == a / (b * c),
        0 <= a / b <= a,
{
    vstd::arithmetic::div_mod::lemma_div_denominator(a, b, c);
    vstd::arithmetic::div_mod::lemma_div_denominator(a, c, b);
    assert(b * c == c * b) by (nonlinear_arith);
    lemma_quotient_small(a, b);
}

/// The chunk that covers the chunk of a voxel, levels up, is that of the voxel
/// that covers it there.
proof fn lemma_ancestor_of_voxel(lod: u8, s: Seq<int>, shift: int)
    requires
        s.len() == 3,
        0 <= s[0] < 0x40_0000_0000,
        0 <= s[1] < 0x40_0000_0000,
        0 <= s[2] < 0x40_0000_0000,
        0 <= shift <= 63,
        lod + shift <= 255,
    ensures
        ({
            let k = chunk::pow2(shift as nat) as int;
            k > 0 && ancestor(chunk_of(lod, s), shift) == chunk_of(
                (lod + shift) as u8,
                seq![s[0] / k, s[1] / k, s[2] / k],
            )
        }),
{
    chunk::lemma_pow2_bounds(shift as nat);
    let k = chunk::pow2(shift as nat) as int;
    lemma_divided_twice(s[0], k, 64);
    lemma_divided_twice(s[1], k, 64);
    lemma_divided_twice(s[2], k, 64);
    lemma_quotient_small(s[0] / 64, k);
    lemma_quotient_small(s[1] / 64, k);
    lemma_quotient_small(s[2] / 64, k);
}

/// Where a coarser level stands in for a voxel, what is read is what reading
/// the coarser voxel that covers it gives.
pub proof fn law_coarser_voxel_stands_in(
    v: UnifiedVolume,
    store: &DiskStore,
    maps: Seq<ShardMap>,
    s: Seq<int>,
    lod: u8,
)
    requires
        v.ok(store, maps),
        lod <= v.max_lod,
        s.len() == 3,
        s[0] >= 0,
        s[1] >= 0,
        s[2] >= 0,
        inside(v.extent, s, lod),
        climbed(store, maps, chunk_of(lod, s), 0, v.top(lod)) is At,
    ensures
        ({
            let shift = climbed(store, maps, chunk_of(lod, s), 0, v.top(lod))->At_0;
            let k = chunk::pow2(shift as nat) as int;
            sampled(&v, store, maps, s, lod) == sampled(
                &v,
                store,
                maps,
                seq![s[0] / k, s[1] / k, s[2] / k],
                (lod + shift) as u8,
            )
        }),
{
    let target = chunk_of(lod, s);
    lemma_climb_takes(store, maps, target, 0, v.top(lod));
    let shift = climbed(store, maps, target, 0, v.top(lod))->At_0;
    let k = chunk::pow2(shift as nat) as int;
    let level = (lod + shift) as u8;
    let t = seq![s[0] / k, s[1] / k, s[2] / k];
    v.lemma_inside_small(s, lod);
    lemma_ancestor_of_voxel(lod, s, shift as int);
    let at = ancestor(target, shift as int);
    assert(at == chunk_of(level, t));
    chunk::lemma_pow2_add(lod as nat, shift as nat);
    lemma_coarser_inside(s[0], k, chunk::pow2(lod as nat) as int);
    lemma_coarser_inside(s[1], k, chunk::pow2(lod as nat) as int);
    lemma_coarser_inside(s[2], k, chunk::pow2(lod as nat) as int);
    chunk::lemma_pow2_bounds(lod as nat);
    assert(inside(v.extent, t, level));
    law_finest_level_wins(store, maps, at, v.top(level));
    lemma_own_ancestor(at);
    let one = chunk::pow2(0) as int;
    assert(one == 1);
    assert(t[0] / one == t[0] && t[1] / one == t[1] && t[2] / one == t[2]);
}

proof fn lemma_coarser_inside(a: int, k: int, m: int)
    requires
        0 <= a,
        k > 0,
        m >= 0,
    ensures
        (a / k) * (m * k) <= a * m,
{
    let q = a / k;
    assert(q * k <= a) by (nonlinear_arith)
        requires
            q == a / k,
            k > 0,
    ;
    assert(q * (m * k) == (q * k) * m) by (nonlinear_arith);
    assert((q * k) * m <= a * m) by (nonlinear_arith)
        requires
            q * k <= a,
            m >= 0,
    ;
}

/// Reading corners one by one, each of which has its value, gives the values.
proof fn lemma_corners_known(read: spec_fn(int) -> Sampled, p: Seq<u8>, n: nat)
    requires
        n <= p.len(),
        forall|i: int| 0 <= i < n ==> read(i) == Sampled::Value(#[trigger] p[i]),
    ensures
        corners_read(read, n) == Ok::<Seq<u8>, ShardRequest>(p.take(n as int)),
    decreases n,
{
    if n == 0 {
        assert(p.take(0) =~= Seq::empty());
    } else {
        lemma_corners_known(read, p, (n - 1) as nat);
        assert(read(n - 1) == Sampled::Value(p[n - 1]));
        assert(p.take(n as int) =~= p.take(n - 1).push(p[n - 1]));
    }
}

/// The chunk of a voxel next to one that is not at its chunk's end.
proof fn lemma_same_chunk(a: int, d: int)
    requires
        0 <= a,
        a % 64 != 63,
        0 <= d <= 1,
    ensures
        (a + d) / 64 == a / 64,
        (a + d) % 64 == a % 64 + d,
        a == 64 * (a / 64) + a % 64,
{
}

/// The eight voxels of a block inside a chunk that is at hand, read one by one.
proof fn lemma_block_is_read(
    v: UnifiedVolume,
    store: &DiskStore,
    maps: Seq<ShardMap>,
    c: Seq<int>,
    lod: u8,
    i: int,
)
    requires
        v.ok(store, maps),
        lod <= v.max_lod,
        c.len() == 3,
        0 <= c[0] < 0x1_0000_0000,
        0 <= c[1] < 0x1_0000_0000,
        0 <= c[2] < 0x1_0000_0000,
        !straddles(c),
        at_hand(store, maps, chunk_of(lod, c)),
        inside(v.extent, seq![c[0] + 1, c[1] + 1, c[2] + 1], lod),
        0 <= i < 8,
    ensures
        sampled(&v, store, maps, corner(c, i), lod) == Sampled::Value(
            block(contents_of(store, maps, chunk_of(lod, c)), c)[i],
        ),
        trusted(&v, maps, corner(c, i), lod) == Sampled::Value(
            block(contents_of(store, maps, chunk_of(lod, c)), c)[i],
        ),
{
    let key = chunk_of(lod, c);
    let t = corner(c, i);
    lemma_same_chunk(c[0], i % 2);
    lemma_same_chunk(c[1], (i / 2) % 2);
    lemma_same_chunk(c[2], i / 4);
    let (x, y, z) = (t[0] % 64, t[1] % 64, t[2] % 64);
    chunk::lemma_pow2_bounds(lod as nat);
    let k = chunk::pow2(lod as nat) as int;
    lemma_up_to(t[0], c[0] + 1, k);
    lemma_up_to(t[1], c[1] + 1, k);
    lemma_up_to(t[2], c[2] + 1, k);
    assert(t =~= seq![64 * key.x + x, 64 * key.y + y, 64 * key.z + z]);
    law_voxel_is_read_from_its_chunk(v, store, maps, key, x, y, z);
}

proof fn lemma_up_to(a: int, b: int, k: int)
    requires
        a <= b,
        k >= 0,
    ensures
        a * k <= b * k,
{
    assert(a * k <= b * k) by (nonlinear_arith)
        requires
            a <= b,
            k >= 0,
    ;
}

/// Interpolating at a position blends the eight voxels around it, as reading
/// them one by one gives them: the voxel that the position falls in and the next
/// on each axis, with the first eight binary places of what is left over as
/// weights. So it is inside a chunk that is at hand, and across chunks where the
/// cache says that the position's own has arrived.
pub proof fn law_interpolating_blends_the_voxels_around(
    v: UnifiedVolume,
    store: &DiskStore,
    maps: Seq<ShardMap>,
    pos: [u64; 3],
    lod: u8,
    answers: Seq<ChunkState>,
    p: Seq<u8>,
)
    requires
        v.ok(store, maps),
        lod <= v.max_lod,
        !v.assume_resident,
        v.bound is None,
        answers.len() > 0,
        answers[0] is Resident,
        at_hand(store, maps, chunk_of(lod, cells(pos, 0))),
        p.len() == 8,
        ({
            let x = pos@[0] as int / 0x1_0000_0000;
            let y = pos@[1] as int / 0x1_0000_0000;
            let z = pos@[2] as int / 0x1_0000_0000;
            &&& inside(v.extent, seq![x + 1, y + 1, z + 1], lod)
            &&& forall|i: int|
                0 <= i < 8 ==> sampled(
                    &v,
                    store,
                    maps,
                    seq![x + i % 2, y + (i / 2) % 2, z + i / 4],
                    lod,
                ) == Sampled::Value(#[trigger] p[i])
        }),
    ensures
        interpolated(&v, store, maps, pos, lod, answers) == Interpolated::Value(
            trilerp(
                (pos@[0] as int / 0x100_0000) % 256,
                (pos@[1] as int / 0x100_0000) % 256,
                (pos@[2] as int / 0x100_0000) % 256,
                p,
            ) as u8,
        ),
{
    chunk::lemma_pow2_table();
    let c = cells(pos, 0);
    let target = chunk_of(lod, c);
    lemma_cell_small(pos@[0] as int);
    lemma_cell_small(pos@[1] as int);
    lemma_cell_small(pos@[2] as int);
    chunk::lemma_pow2_bounds(lod as nat);
    let k = chunk::pow2(lod as nat) as int;
    lemma_up_to(c[0], c[0] + 1, k);
    lemma_up_to(c[1], c[1] + 1, k);
    lemma_up_to(c[2], c[2] + 1, k);
    assert(inside(v.extent, c, lod));
    let read = corner_reader(&v, store, maps, c, lod);
    assert forall|i: int| 0 <= i < 8 implies read(i) == Sampled::Value(#[trigger] p[i]) by {
        assert(corner(c, i) =~= seq![c[0] + i % 2, c[1] + (i / 2) % 2, c[2] + i / 4]);
    }
    if straddles(c) {
        lemma_corners_known(read, p, 8);
        assert(p.take(8) =~= p);
        lemma_own_ancestor(target);
        assert(chosen(&v, target, answers) == Walk::Found(0, answers[0]));
    } else {
        let b = block(contents_of(store, maps, target), c);
        assert forall|i: int| 0 <= i < 8 implies p[i] == b[i] by {
            lemma_block_is_read(v, store, maps, c, lod, i);
            assert(read(i) == Sampled::Value(p[i]));
        }
        assert(p =~= b);
    }
}

/// Interpolating on trust blends the eight voxels around a position, as reading
/// them one by one on trust gives them.
pub proof fn law_trusting_blends_the_voxels_around(
    v: UnifiedVolume,
    store: &DiskStore,
    maps: Seq<ShardMap>,
    pos: [u64; 3],
    lod: u8,
    p: Seq<u8>,
)
    requires
        v.ok(store, maps),
        lod <= v.max_lod,
        at_hand(store, maps, chunk_of(lod, cells(pos, 0))),
        p.len() == 8,
        ({
            let x = pos@[0] as int / 0x1_0000_0000;
            let y = pos@[1] as int / 0x1_0000_0000;
            let z = pos@[2] as int / 0x1_0000_0000;
            &&& inside(v.extent, seq![x + 1, y + 1, z + 1], lod)
            &&& forall|i: int|
                0 <= i < 8 ==> trusted(&v, maps, seq![x + i % 2, y + (i / 2) % 2, z + i / 4], lod)
                    == Sampled::Value(#[trigger] p[i])
        }),
    ensures
        trusted_blend(&v, maps, pos, lod) == Sampled::Value(
            trilerp(
                (pos@[0] as int / 0x100_0000) % 256,
                (pos@[1] as int / 0x100_0000) % 256,
                (pos@[2] as int / 0x100_0000) % 256,
                p,
            ) as u8,
        ),
{
    chunk::lemma_pow2_table();
    let c = cells(pos, 0);
    let key = chunk_of(lod, c);
    lemma_cell_small(pos@[0] as int);
    lemma_cell_small(pos@[1] as int);
    lemma_cell_small(pos@[2] as int);
    let read = trusting_reader(&v, maps, c, lod);
    assert forall|i: int| 0 <= i < 8 implies read(i) == Sampled::Value(#[trigger] p[i]) by {
        assert(corner(c, i) =~= seq![c[0] + i % 2, c[1] + (i / 2) % 2, c[2] + i / 4]);
    }
    if straddles(c) {
        lemma_corners_known(read, p, 8);
        assert(p.take(8) =~= p);
    } else {
        store.lemma_place_fits(key);
        let b = block(contents_of(store, maps, key), c);
        assert forall|i: int| 0 <= i < 8 implies p[i] == b[i] by {
            lemma_block_is_read(v, store, maps, c, lod, i);
            assert(read(i) == Sampled::Value(p[i]));
        }
        assert(p =~= b);
    }
}

/// Corners read in the same way give the same.
proof fn lemma_same_corners(a: spec_fn(int) -> Sampled, b: spec_fn(int) -> Sampled, n: nat)
    requires
        forall|i: int| 0 <= i < n ==> #[trigger] a(i) == b(i),
    ensures
        corners_read(a, n) == corners_read(b, n),
    decreases n,
{
    if n > 0 {
        lemma_same_corners(a, b, (n - 1) as nat);
        assert(a(n - 1) == b(n - 1));
    }
}

/// Where a coarser level stands in, interpolating goes by that level's own
/// lattice: it gives what interpolating there gives at the position scaled to
/// that level.
pub proof fn law_coarser_lattice_stands_in(
    v: UnifiedVolume,
    w: UnifiedVolume,
    store: &DiskStore,
    maps: Seq<ShardMap>,
    pos: [u64; 3],
    coarse: [u64; 3],
    lod: u8,
    shift: u8,
    answers: Seq<ChunkState>,
    resident: ChunkState,
)
    requires
        v.ok(store, maps),
        w.same_volume(&v),
        w.bound is None,
        resident is Resident,
        lod + shift <= v.max_lod,
        goes_by_level(&v, store, maps, pos, lod),
        chosen(&v, chunk_of(lod, cells(pos, 0)), answers) matches Walk::Found(k, st) && k == shift
            && st is Resident,
        coarse@[0] == pos@[0] as int / chunk::pow2(shift as nat) as int,
        coarse@[1] == pos@[1] as int / chunk::pow2(shift as nat) as int,
        coarse@[2] == pos@[2] as int / chunk::pow2(shift as nat) as int,
    ensures
        interpolated(&v, store, maps, pos, lod, answers) == interpolated(
            &w,
            store,
            maps,
            coarse,
            (lod + shift) as u8,
            seq![resident],
        ),
{
    let level = (lod + shift) as u8;
    let c = cells(pos, 0);
    let target = chunk_of(lod, c);
    let d = cells(pos, shift as int);
    let m = chunk::pow2(shift as nat) as int;
    chunk::lemma_pow2_table();
    chunk::lemma_pow2_bounds(shift as nat);
    chunk::lemma_pow2_add(32, shift as nat);
    chunk::lemma_pow2_add(24, shift as nat);
    lemma_divided_twice(pos@[0] as int, m, 0x1_0000_0000);
    lemma_divided_twice(pos@[1] as int, m, 0x1_0000_0000);
    lemma_divided_twice(pos@[2] as int, m, 0x1_0000_0000);
    lemma_divided_twice(pos@[0] as int, m, 0x100_0000);
    lemma_divided_twice(pos@[1] as int, m, 0x100_0000);
    lemma_divided_twice(pos@[2] as int, m, 0x100_0000);
    assert(0x1_0000_0000 * m == m * 0x1_0000_0000 && 0x100_0000 * m == m * 0x100_0000);
    assert(cells(coarse, 0) =~= d);
    assert(d =~= seq![c[0] / m, c[1] / m, c[2] / m]);
    lemma_cell_small(pos@[0] as int);
    lemma_cell_small(pos@[1] as int);
    lemma_cell_small(pos@[2] as int);
    lemma_ancestor_of_voxel(lod, c, shift as int);
    let key = ancestor(target, shift as int);
    assert(key == chunk_of(level, d));
    chunk::lemma_pow2_bounds(lod as nat);
    chunk::lemma_pow2_add(lod as nat, shift as nat);
    lemma_coarser_inside(c[0], m, chunk::pow2(lod as nat) as int);
    lemma_coarser_inside(c[1], m, chunk::pow2(lod as nat) as int);
    lemma_coarser_inside(c[2], m, chunk::pow2(lod as nat) as int);
    assert(inside(w.extent, d, level));
    let ra = corner_reader(&v, store, maps, d, level);
    let rb = corner_reader(&w, store, maps, d, level);
    lemma_same_corners(ra, rb, 8);
    lemma_own_ancestor(key);
    assert(chosen(&w, key, seq![resident]) == Walk::Found(0, resident));
    assert forall|corners: Seq<u8>| #[trigger] blended(pos, shift as int, corners) == blended(
        coarse,
        0,
        corners,
    ) by {}
    assert(blend_found(&v, store, maps, pos, target, shift) == blend_found(
        &w,
        store,
        maps,
        coarse,
        key,
        0,
    ));
}

/// A corner of a block that reaches into one neighboring chunk of its shard,
/// read on trust.
proof fn lemma_boundary_is_read(
    v: UnifiedVolume,
    store: &DiskStore,
    maps: Seq<ShardMap>,
    c: Seq<int>,
    lod: u8,
    i: int,
)
    requires
        v.ok(store, maps),
        lod < SHARD_SLOTS_PER_LOD,
        c.len() == 3,
        0 <= c[0] < 0x1_0000_0000,
        0 <= c[1] < 0x1_0000_0000,
        0 <= c[2] < 0x1_0000_0000,
        crossings(c) == 1,
        disk::shard_of(neighbor(chunk_of(lod, c), c), v.side) == disk::shard_of(chunk_of(lod, c), v.side),
        mapped(maps, lod, disk::shard_of(chunk_of(lod, c), v.side)) matches Some(Some(_)),
        inside(v.extent, corner(c, i), lod),
        0 <= i < 8,
    ensures
        ({
            let key = chunk_of(lod, c);
            let file = mapped(maps, lod, disk::shard_of(key, v.side))->0->0;
            trusted(&v, maps, corner(c, i), lod) == Sampled::Value(
                boundary_block(
                    chunk_in(file, disk::place_in_shard(key, v.side)),
                    Some(chunk_in(file, disk::place_in_shard(neighbor(key, c), v.side))),
                    c[0] % 64 == 63,
                    c[1] % 64 == 63,
                    c[2] % 64 == 63,
                    c,
                )[i],
            )
        }),
{
    let key = chunk_of(lod, c);
    let t = corner(c, i);
    lemma_next_chunk(c[0], i % 2);
    lemma_next_chunk(c[1], (i / 2) % 2);
    lemma_next_chunk(c[2], i / 4);
    if corner_crosses(c[0] % 64 == 63, c[1] % 64 == 63, c[2] % 64 == 63, i) {
        assert(chunk_of(lod, t) == neighbor(key, c));
    } else {
        assert(chunk_of(lod, t) == key);
    }
}

proof fn lemma_next_chunk(a: int, d: int)
    requires
        0 <= a,
        0 <= d <= 1,
    ensures
        (a + d) / 64 == if a % 64 == 63 && d == 1 {
            a / 64 + 1
        } else {
            a / 64
        },
{
}

/// The next sample of a ray blends the eight voxels around its position, as
/// reading them one by one on trust gives them. So it is where they are of one
/// chunk or of two neighbors in one shard, and, where the volume is trusted,
/// across more chunks.
pub proof fn law_ray_blends_the_voxels_around(
    v: UnifiedVolume,
    store: &DiskStore,
    maps: Seq<ShardMap>,
    pos: [i64; 3],
    step: [i64; 3],
    limit: nat,
    lod: u8,
    answers: Seq<ChunkState>,
    p: Seq<u8>,
)
    requires
        v.ok(store, maps),
        lod <= v.max_lod,
        limit >= 1,
        pos@[0] >= 0,
        pos@[1] >= 0,
        pos@[2] >= 0,
        at_hand(store, maps, chunk_of(lod, cells(unsigned(pos), 0))),
        p.len() == 8,
        ({
            let x = pos@[0] as int / 0x1_0000_0000;
            let y = pos@[1] as int / 0x1_0000_0000;
            let z = pos@[2] as int / 0x1_0000_0000;
            let c = seq![x, y, z];
            &&& inside(v.extent, seq![x + 1, y + 1, z + 1], lod)
            &&& forall|i: int|
                0 <= i < 8 ==> trusted(&v, maps, seq![x + i % 2, y + (i / 2) % 2, z + i / 4], lod)
                    == Sampled::Value(#[trigger] p[i])
            &&& crossings(c) >= 2 ==> v.assume_resident
            &&& crossings(c) == 1 ==> disk::shard_of(neighbor(chunk_of(lod, c), c), v.side)
                == disk::shard_of(chunk_of(lod, c), v.side)
        }),
    ensures
        ({
            let b = trilerp(
                (pos@[0] as int / 0x100_0000) % 256,
                (pos@[1] as int / 0x100_0000) % 256,
                (pos@[2] as int / 0x100_0000) % 256,
                p,
            ) as u8;
            match ray_stretch(&v, store, maps, pos, step, limit, lod, answers) {
                RayModel::One(s) => s == b,
                RayModel::Run(vs) => vs.len() >= 1 && vs[0] == b,
                _ => false,
            }
        }),
{
    chunk::lemma_pow2_table();
    let u = unsigned(pos);
    let c = cells(u, 0);
    let key = chunk_of(lod, c);
    lemma_cell_small(u@[0] as int);
    lemma_cell_small(u@[1] as int);
    lemma_cell_small(u@[2] as int);
    let x = pos@[0] as int / 0x1_0000_0000;
    let y = pos@[1] as int / 0x1_0000_0000;
    let z = pos@[2] as int / 0x1_0000_0000;
    assert(c =~= seq![x, y, z]);
    store.lemma_place_fits(key);
    let read = trusting_reader(&v, maps, c, lod);
    assert forall|i: int| 0 <= i < 8 implies read(i) == Sampled::Value(#[trigger] p[i]) by {
        assert(corner(c, i) =~= seq![x + i % 2, y + (i / 2) % 2, z + i / 4]);
    }
    chunk::lemma_pow2_bounds(lod as nat);
    let k = chunk::pow2(lod as nat) as int;
    lemma_before_next_voxel(pos@[0] as int, k, v.extent@[0] as int);
    lemma_before_next_voxel(pos@[1] as int, k, v.extent@[1] as int);
    lemma_before_next_voxel(pos@[2] as int, k, v.extent@[2] as int);
    assert(ray_inside(v.extent, pos, lod));
    assert forall|i: int| 0 <= i < 8 implies inside(v.extent, #[trigger] corner(c, i), lod) by {
        lemma_up_to(corner(c, i)[0], x + 1, k);
        lemma_up_to(corner(c, i)[1], y + 1, k);
        lemma_up_to(corner(c, i)[2], z + 1, k);
    }
    if crossings(c) >= 2 {
        law_trusting_blends_the_voxels_around(v, store, maps, u, lod, p);
        assert(inside(v.extent, corner(c, 0), lod));
        assert(corner(c, 0) =~= c);
    } else if crossings(c) == 1 {
        lemma_ray_at_boundary(v, store, maps, pos, step, limit, lod, answers, p);
    } else {
        let home = contents_of(store, maps, key);
        assert(in_interior(pos, key));
        let b = block(home, c);
        assert forall|i: int| 0 <= i < 8 implies p[i] == b[i] by {
            lemma_block_is_read(v, store, maps, c, lod, i);
            assert(read(i) == Sampled::Value(p[i]));
        }
        assert(p =~= b);
        let vs = run_along(home, key, pos, step, limit);
        assert(vs[0] == blended(u, 0, b) as u8);
        assert(ray_stretch(&v, store, maps, pos, step, limit, lod, answers) == RayModel::Run(vs));
    }
}

proof fn lemma_before_next_voxel(a: int, k: int, end: int)
    requires
        a >= 0,
        k > 0,
        (a / 0x1_0000_0000 + 1) * k < end,
    ensures
        a * k < end * 0x1_0000_0000,
{
    let x = a / 0x1_0000_0000;
    assert(a < (x + 1) * 0x1_0000_0000);
    assert(a * k <= ((x + 1) * k) * 0x1_0000_0000) by (nonlinear_arith)
        requires
            0 <= a < (x + 1) * 0x1_0000_0000,
            k > 0,
    ;
}

proof fn lemma_ray_at_boundary(
    v: UnifiedVolume,
    store: &DiskStore,
    maps: Seq<ShardMap>,
    pos: [i64; 3],
    step: [i64; 3],
    limit: nat,
    lod: u8,
    answers: Seq<ChunkState>,
    p: Seq<u8>,
)
    requires
        v.ok(store, maps),
        ray_inside(v.extent, pos, lod),
        at_hand(store, maps, chunk_of(lod, cells(unsigned(pos), 0))),
        p.len() == 8,
        ({
            let c = cells(unsigned(pos), 0);
            &&& crossings(c) == 1
            &&& disk::shard_of(neighbor(chunk_of(lod, c), c), v.side) == disk::shard_of(
                chunk_of(lod, c),
                v.side,
            )
            &&& forall|i: int| 0 <= i < 8 ==> inside(v.extent, #[trigger] corner(c, i), lod)
            &&& forall|i: int|
                0 <= i < 8 ==> trusted(&v, maps, corner(c, i), lod) == Sampled::Value(#[trigger] p[i])
        }),
    ensures
        ray_stretch(&v, store, maps, pos, step, limit, lod, answers) == RayModel::One(
            blended(unsigned(pos), 0, p) as u8,
        ),
{
    let u = unsigned(pos);
    let c = cells(u, 0);
    let key = chunk_of(lod, c);
    assert(pos@[0] >= 0 && pos@[1] >= 0 && pos@[2] >= 0);
    lemma_cell_small(u@[0] as int);
    lemma_cell_small(u@[1] as int);
    lemma_cell_small(u@[2] as int);
    let file = mapped(maps, lod, disk::shard_of(key, v.side))->0->0;
    let b = boundary_block(
        chunk_in(file, disk::place_in_shard(key, v.side)),
        Some(chunk_in(file, disk::place_in_shard(neighbor(key, c), v.side))),
        c[0] % 64 == 63,
        c[1] % 64 == 63,
        c[2] % 64 == 63,
        c,
    );
    assert forall|i: int| 0 <= i < 8 implies p[i] == b[i] by {
        assert(inside(v.extent, corner(c, i), lod));
        lemma_boundary_is_read(v, store, maps, c, lod, i);
    }
    assert(p =~= b);
}

/// A ray takes its samples one step after the other: the first where it stands,
/// and the rest as a ray that starts one step further on takes them.
pub proof fn law_ray_goes_step_by_step(
    v: UnifiedVolume,
    store: &DiskStore,
    maps: Seq<ShardMap>,
    pos: [i64; 3],
    step: [i64; 3],
    next: [i64; 3],
    n: nat,
    lod: u8,
    answers: Seq<ChunkState>,
)
    requires
        n >= 1,
        next@[0] == pos@[0] + step@[0],
        next@[1] == pos@[1] + step@[1],
        next@[2] == pos@[2] + step@[2],
        ray_inside(v.extent, next, lod),
        ray_trace(v, store, maps, pos, step, 1, lod, answers).need is Nothing,
    ensures
        ({
            let one = ray_trace(v, store, maps, pos, step, 1, lod, answers);
            let rest = ray_trace(
                UnifiedVolume { bound: one.bound, ..v },
                store,
                maps,
                next,
                step,
                (n - 1) as nat,
                lod,
                Seq::empty(),
            );
            let all = ray_trace(v, store, maps, pos, step, n, lod, answers);
            &&& one.samples.len() == 1
            &&& all.samples == one.samples + rest.samples
            &&& all.misses == one.misses + rest.misses
            &&& all.need == rest.need
            &&& all.pos == rest.pos
        }),
{
    reveal(ray_trace);
    let one = ray_trace(v, store, maps, pos, step, 1, lod, answers);
    let all = ray_trace(v, store, maps, pos, step, n, lod, answers);
    let misses = stretch_misses(v, store, maps, pos, lod, answers);
    let w = after_stretch(v, store, maps, pos, lod, answers);
    let none = Seq::<ChunkState>::empty();
    assert(stepped(pos, step) =~= next);
    law_ray_takes_every_sample(v, store, maps, pos, step, 1, lod, answers);
    let end = ray_trace(w, store, maps, next, step, 0, lod, none);
    assert(misses + end.misses =~= misses);
    match ray_stretch(&v, store, maps, pos, step, n, lod, answers) {
        RayModel::One(x) => {
            assert(seq![x] + end.samples =~= seq![x]);
            assert(UnifiedVolume { bound: one.bound, ..v } == w);
        },
        RayModel::Run(vs) => {
            let c = cells(unsigned(pos), 0);
            let key = chunk_of(lod, c);
            let shard = disk::shard_of(key, v.side);
            let home = chunk_in(trusted_map(maps, lod, shard)->0->0, disk::place_in_shard(key, v.side));
            lemma_stretch_moves(&v, store, maps, pos, step, n, lod, answers);
            lemma_stretch_moves(&v, store, maps, pos, step, 1, lod, answers);
            assert(w == v);
            assert(in_interior(pos, key));
            lemma_single_run(home, key, pos, step);
            let first = run_along(home, key, pos, step, 1);
            assert(ray_stretch(&v, store, maps, pos, step, 1, lod, answers) == RayModel::Run(first));
            assert(advanced(pos, step, 1) == next) by {
                reveal_with_fuel(advanced, 2);
            }
            assert(one.samples =~= first);
            assert(one.misses =~= misses);
            assert(UnifiedVolume { bound: one.bound, ..v } == v);
            let more = run_along(home, key, next, step, (n - 1) as nat);
            assert(vs =~= first + more);
            let rest = ray_trace(v, store, maps, next, step, (n - 1) as nat, lod, none);
            let after = ray_trace(
                v,
                store,
                maps,
                advanced(pos, step, vs.len()),
                step,
                (n - vs.len()) as nat,
                lod,
                none,
            );
            assert(advanced(pos, step, vs.len()) == advanced(next, step, more.len()));
            if more.len() == 0 {
                assert(all.samples =~= first + rest.samples);
                assert(all.misses =~= misses + rest.misses);
            } else {
                assert(in_interior(next, key) && n - 1 > 0);
                let d = cells(unsigned(next), 0);
                assert(next@[0] >= 0 && next@[1] >= 0 && next@[2] >= 0);
                assert(chunk_of(lod, d) == key);
                assert(crossings(d) == 0);
                assert(!ray_interpolates(&v, maps, next, lod));
                assert(ray_stretch(&v, store, maps, next, step, (n - 1) as nat, lod, none)
                    == RayModel::Run(more));
                lemma_run_length(home, key, next, step, (n - 1) as nat);
                assert(rest.samples == more + after.samples);
                assert(all.samples =~= first + rest.samples);
                assert(all.misses =~= misses + rest.misses);
            }
        },
        _ => {},
    }
}

/// A downsampling by a power of two has the level of that power, and one below
/// one has the finest.
pub proof fn law_downsampling_has_its_level(k: nat, d: i32)
    requires
        k < 8,
        d < 1,
    ensures
        level_of(chunk::pow2(k) as i32) == k,
        level_of(d) == 0,
{
    chunk::lemma_pow2_table();
    law_level_of_power(k);
    reveal_with_fuel(chunk::pow2, 9);
    assert(1 <= chunk::pow2(k) < 256);
    assert((chunk::pow2(k) as i32) as int % 256 == chunk::pow2(k));
}

/// A voxel of a coarser level covers the voxels that its edge reaches over, and
/// the first of them, taken up again, is the coarser voxel.
pub proof fn law_coarser_voxel_covers_the_finer(s: int, lod: u8, levels: nat)
    requires
        0 <= s,
        levels <= 63,
        lod + levels <= 255,
    ensures
        ({
            let up = (lod + levels) as u8;
            let e = chunk::pow2(levels) as int;
            &&& at_level(s, lod, up) * e <= s < (at_level(s, lod, up) + 1) * e
            &&& s * e < 0x1_0000_0000_0000_0000 ==> at_level(s, up, lod) == s * e && at_level(
                at_level(s, up, lod),
                lod,
                up,
            ) == s
        }),
{
    let up = (lod + levels) as u8;
    let e = chunk::pow2(levels) as int;
    chunk::lemma_pow2_bounds(levels);
    assert((s / e) * e <= s < (s / e + 1) * e) by (nonlinear_arith)
        requires
            e > 0,
    ;
    if levels == 0 {
        assert(e == 1);
        assert(s / 1 == s);
    }
    assert(s * e >= 0) by (nonlinear_arith)
        requires
            s >= 0,
            e > 0,
    ;
    assert((s * e) / e == s) by (nonlinear_arith)
        requires
            e > 0,
    ;
}

/// Reading a voxel asks for the chunks that cover it, from its own level up, of
/// which nobody has asked yet, as far as the climb goes.
pub proof fn law_reading_asks_for_what_covers_the_voxel(
    v: UnifiedVolume,
    store: &DiskStore,
    maps: Seq<ShardMap>,
    s: Seq<int>,
    lod: u8,
    key: ChunkKey,
)
    requires
        v.ok(store, maps),
        lod <= v.max_lod,
        s.len() == 3,
        s[0] >= 0,
        s[1] >= 0,
        s[2] >= 0,
        inside(v.extent, s, lod),
    ensures
        sample_misses(&v, store, maps, s, lod).contains(key) <==> {
            let up = key.lod - lod;
            let e = 64 * (chunk::pow2(up as nat) as int);
            &&& lod <= key.lod <= (if v.lod_climb {
                v.max_lod
            } else {
                lod
            })
            &&& key.x == s[0] / e
            &&& key.y == s[1] / e
            &&& key.z == s[2] / e
            &&& verdict(store, maps, key) == Verdict::Fetch
            &&& forall|t: int|
                0 <= t < up ==> {
                    let below = verdict(store, maps, #[trigger] ancestor(chunk_of(lod, s), t));
                    below == Verdict::Fetch || below == Verdict::Pass
                }
        },
{
    let target = chunk_of(lod, s);
    let up = key.lod - lod;
    v.lemma_inside_small(s, lod);
    lemma_unasked_has(store, maps, target, 0, v.top(lod), key);
    if lod <= key.lod <= lod + v.top(lod) {
        lemma_ancestor_of_voxel(lod, s, up);
        let k = chunk::pow2(up as nat) as int;
        lemma_divided_twice(s[0], k, 64);
        lemma_divided_twice(s[1], k, 64);
        lemma_divided_twice(s[2], k, 64);
        assert(k * 64 == 64 * k);
        lemma_quotient_small(s[0], 64 * k);
        lemma_quotient_small(s[1], 64 * k);
        lemma_quotient_small(s[2], 64 * k);
        lemma_quotient_small(s[0] / 64, k);
        lemma_quotient_small(s[1] / 64, k);
        lemma_quotient_small(s[2] / 64, k);
        let at = ancestor(target, up);
        assert(at.x == s[0] / (64 * k) && at.y == s[1] / (64 * k) && at.z == s[2] / (64 * k));
    }
}

proof fn lemma_unasked_has(
    store: &DiskStore,
    maps: Seq<ShardMap>,
    target: ChunkKey,
    from: int,
    top: int,
    key: ChunkKey,
)
    requires
        0 <= from,
        target.lod + top <= 255,
    ensures
        unasked(store, maps, target, from, top).contains(key) <==> {
            let up = key.lod - target.lod;
            &&& from <= up <= top
            &&& key == ancestor(target, up)
            &&& verdict(store, maps, key) == Verdict::Fetch
            &&& forall|t: int|
                from <= t < up ==> {
                    let below = verdict(store, maps, #[trigger] ancestor(target, t));
                    below == Verdict::Fetch || below == Verdict::Pass
                }
        },
    decreases top + 1 - from,
{
    let all = unasked(store, maps, target, from, top);
    if from <= top {
        lemma_unasked_has(store, maps, target, from + 1, top, key);
        let here = ancestor(target, from);
        let rest = unasked(store, maps, target, from + 1, top);
        if verdict(store, maps, here) == Verdict::Fetch {
            assert(all[0] == here);
            if rest.contains(key) {
                assert(all[1 + rest.index_of(key)] == key);
            }
            if all.contains(key) && key != here {
                assert(rest[all.index_of(key) - 1] == key);
            }
        }
    }
}

/// The walk through the levels asks the cache for one level after the other,
/// finest first, and takes the first whose fate is known.
pub proof fn law_walk_takes_the_finest_known_fate(answers: Seq<ChunkState>, target: ChunkKey, top: int, shift: int)
    requires
        target.lod + top <= 255,
        0 <= shift <= top,
        forall|t: int|
            0 <= t < shift && t < answers.len() ==> !(#[trigger] answers[t] is Resident || answers[t] is Empty),
        shift <= answers.len(),
    ensures
        shift == answers.len() ==> walked(answers, target, 0, top) == Walk::Ask(ancestor(target, shift)),
        shift < answers.len() && (answers[shift] is Resident || answers[shift] is Empty) ==> walked(
            answers,
            target,
            0,
            top,
        ) == Walk::Found(shift as u8, answers[shift]),
        shift == top && shift < answers.len() && !(answers[shift] is Resident || answers[shift] is Empty)
            ==> walked(answers, target, 0, top) == Walk::Nowhere,
{
    lemma_walk_passes(answers, target, 0, top, shift);
}

proof fn lemma_walk_passes(answers: Seq<ChunkState>, target: ChunkKey, from: int, top: int, shift: int)
    requires
        0 <= from <= shift <= top,
        shift <= answers.len(),
        forall|t: int|
            from <= t < shift && t < answers.len() ==> !(#[trigger] answers[t] is Resident || answers[t] is Empty),
    ensures
        walked(answers, target, from, top) == walked(answers, target, shift, top),
        shift < answers.len() && !answers[shift].terminal() && shift == top ==> walked(
            answers,
            target,
            shift,
            top,
        ) == Walk::Nowhere,
    decreases shift - from,
{
    if from < shift {
        assert(!answers[from].terminal());
        lemma_walk_passes(answers, target, from + 1, top, shift);
    } else {
        assert(walked(answers, target, top + 1, top) == Walk::Nowhere);
    }
}

/// The voxel so many ahead of another on each axis.
pub open spec fn voxel_ahead(c: Seq<int>, x: int, y: int, z: int) -> Seq<int> {
    seq![c[0] + x, c[1] + y, c[2] + z]
}

/// Interpolating across chunks asks for whatever reading one of the eight voxels
/// around asks for, and for nothing else.
pub proof fn law_interpolating_asks_for_what_its_voxels_need(
    v: UnifiedVolume,
    store: &DiskStore,
    maps: Seq<ShardMap>,
    pos: [u64; 3],
    lod: u8,
    answers: Seq<ChunkState>,
    key: ChunkKey,
)
    requires
        goes_by_level(&v, store, maps, pos, lod),
        interpolated(&v, store, maps, pos, lod, answers) is Value,
        chosen(&v, chunk_of(lod, cells(pos, 0)), answers) matches Walk::Found(shift, state) && state is Resident
            && straddles(cells(pos, shift as int)) && lod + shift <= 255,
    ensures
        ({
            let shift = chosen(&v, chunk_of(lod, cells(pos, 0)), answers)->Found_0;
            let c = cells(pos, shift as int);
            interpolation_misses(&v, store, maps, pos, lod, answers).contains(key) <==> exists|x: int, y: int, z: int|
                0 <= x <= 1 && 0 <= y <= 1 && 0 <= z <= 1 && sample_misses(
                    &v,
                    store,
                    maps,
                    #[trigger] voxel_ahead(c, x, y, z),
                    (lod + shift) as u8,
                ).contains(key)
        }),
{
    let target = chunk_of(lod, cells(pos, 0));
    let shift = chosen(&v, target, answers)->Found_0;
    let c = cells(pos, shift as int);
    let level = (lod + shift) as u8;
    let read = corner_reader(&v, store, maps, c, level);
    let miss = corner_misser(&v, store, maps, c, level);
    assert(ancestor(target, shift as int).lod == level);
    assert(corners_read(read, 8) is Ok);
    lemma_corners_missed(read, miss, 8, key);
    if corners_missed(read, miss, 8).contains(key) {
        let i = choose|i: int| 0 <= i < 8 && (#[trigger] miss(i)).contains(key);
        assert(corner(c, i) == voxel_ahead(c, i % 2, (i / 2) % 2, i / 4));
        assert(sample_misses(&v, store, maps, voxel_ahead(c, i % 2, (i / 2) % 2, i / 4), level).contains(
            key,
        ));
    }
    if exists|x: int, y: int, z: int|
        0 <= x <= 1 && 0 <= y <= 1 && 0 <= z <= 1 && sample_misses(
            &v,
            store,
            maps,
            #[trigger] voxel_ahead(c, x, y, z),
            level,
        ).contains(key) {
        let (x, y, z) = choose|x: int, y: int, z: int|
            0 <= x <= 1 && 0 <= y <= 1 && 0 <= z <= 1 && sample_misses(
                &v,
                store,
                maps,
                #[trigger] voxel_ahead(c, x, y, z),
                level,
            ).contains(key);
        let i = 4 * z + 2 * y + x;
        assert(i % 2 == x && (i / 2) % 2 == y && i / 4 == z);
        assert(miss(i).contains(key));
    }
}

proof fn lemma_corners_missed(
    read: spec_fn(int) -> Sampled,
    miss: spec_fn(int) -> Seq<ChunkKey>,
    n: nat,
    key: ChunkKey,
)
    requires
        corners_read(read, n) is Ok,
    ensures
        corners_missed(read, miss, n).contains(key) <==> exists|i: int|
            0 <= i < n && (#[trigger] miss(i)).contains(key),
    decreases n,
{
    if n > 0 {
        lemma_corners_missed(read, miss, (n - 1) as nat, key);
        let before = corners_missed(read, miss, (n - 1) as nat);
        let more = miss(n - 1);
        let all = before + more;
        if before.contains(key) {
            assert(all[before.index_of(key)] == key);
        }
        if more.contains(key) {
            assert(all[before.len() + more.index_of(key)] == key);
        }
        if all.contains(key) && !before.contains(key) {
            let j = all.index_of(key);
            if j < before.len() {
                assert(before[j] == key);
            }
            assert(more[j - before.len()] == key);
        }
    }
}

/// A chunk is in bounds where its level exists and its first voxel lies inside
/// the volume.
pub proof fn law_chunk_in_bounds_begins_inside(key: ChunkKey, extent: [u32; 3], max_lod: u8)
    ensures
        crate::cache::out_of_bounds(key, extent, max_lod) <==> key.lod > max_lod || !inside(
            extent,
            seq![64 * key.x, 64 * key.y, 64 * key.z],
            key.lod,
        ),
{
    let p = chunk::pow2(key.lod as nat) as int;
    assert((64 * key.x) * p == key.x * (64 * p)) by (nonlinear_arith);
    assert((64 * key.y) * p == key.y * (64 * p)) by (nonlinear_arith);
    assert((64 * key.z) * p == key.z * (64 * p)) by (nonlinear_arith);
    assert(extent@[0] == extent[0] && extent@[1] == extent[1] && extent@[2] == extent[2]);
}

/// A ray takes zero wherever it stands outside the volume: below zero or at or
/// beyond the end on some axis.
pub proof fn law_ray_beyond_the_volume_takes_zero(
    v: UnifiedVolume,
    store: &DiskStore,
    maps: Seq<ShardMap>,
    pos: [i64; 3],
    step: [i64; 3],
    limit: nat,
    lod: u8,
    answers: Seq<ChunkState>,
    axis: int,
)
    requires
        0 <= axis < 3,
        pos@[axis] < 0 || pos@[axis] * chunk::pow2(lod as nat) >= v.extent@[axis] * 0x1_0000_0000,
    ensures
        ray_stretch(&v, store, maps, pos, step, limit, lod, answers) == RayModel::One(0),
{
}

/// Where the block that a ray blends reaches into one neighboring chunk, and that
/// belongs to another shard, the voxels there count as zero.
pub proof fn law_ray_sees_nothing_across_shards(
    v: UnifiedVolume,
    store: &DiskStore,
    maps: Seq<ShardMap>,
    pos: [i64; 3],
    step: [i64; 3],
    limit: nat,
    lod: u8,
    answers: Seq<ChunkState>,
    p: Seq<u8>,
)
    requires
        v.ok(store, maps),
        lod <= v.max_lod,
        pos@[0] >= 0,
        pos@[1] >= 0,
        pos@[2] >= 0,
        at_hand(store, maps, chunk_of(lod, cells(unsigned(pos), 0))),
        p.len() == 8,
        ({
            let x = pos@[0] as int / 0x1_0000_0000;
            let y = pos@[1] as int / 0x1_0000_0000;
            let z = pos@[2] as int / 0x1_0000_0000;
            let c = seq![x, y, z];
            &&& inside(v.extent, seq![x + 1, y + 1, z + 1], lod)
            &&& crossings(c) == 1
            &&& disk::shard_of(neighbor(chunk_of(lod, c), c), v.side) != disk::shard_of(chunk_of(lod, c), v.side)
            &&& forall|i: int|
                0 <= i < 8 ==> {
                    let near = (x + i % 2) / 64 == x / 64 && (y + (i / 2) % 2) / 64 == y / 64 && (z + i / 4) / 64
                        == z / 64;
                    Sampled::Value(#[trigger] p[i]) == if near {
                        trusted(&v, maps, seq![x + i % 2, y + (i / 2) % 2, z + i / 4], lod)
                    } else {
                        Sampled::Value(0)
                    }
                }
        }),
    ensures
        ray_stretch(&v, store, maps, pos, step, limit, lod, answers) == RayModel::One(
            trilerp(
                (pos@[0] as int / 0x100_0000) % 256,
                (pos@[1] as int / 0x100_0000) % 256,
                (pos@[2] as int / 0x100_0000) % 256,
                p,
            ) as u8,
        ),
{
    chunk::lemma_pow2_table();
    let u = unsigned(pos);
    let c = cells(u, 0);
    let key = chunk_of(lod, c);
    lemma_cell_small(u@[0] as int);
    lemma_cell_small(u@[1] as int);
    lemma_cell_small(u@[2] as int);
    let x = pos@[0] as int / 0x1_0000_0000;
    let y = pos@[1] as int / 0x1_0000_0000;
    let z = pos@[2] as int / 0x1_0000_0000;
    assert(c =~= seq![x, y, z]);
    chunk::lemma_pow2_bounds(lod as nat);
    let k = chunk::pow2(lod as nat) as int;
    lemma_before_next_voxel(pos@[0] as int, k, v.extent@[0] as int);
    lemma_before_next_voxel(pos@[1] as int, k, v.extent@[1] as int);
    lemma_before_next_voxel(pos@[2] as int, k, v.extent@[2] as int);
    assert(ray_inside(v.extent, pos, lod));
    store.lemma_place_fits(key);
    let home = contents_of(store, maps, key);
    let b = boundary_block(home, None, c[0] % 64 == 63, c[1] % 64 == 63, c[2] % 64 == 63, c);
    assert forall|i: int| 0 <= i < 8 implies p[i] == b[i] by {
        lemma_corner_is_near(v, store, maps, c, lod, i);
        lemma_up_to(corner(c, i)[0], x + 1, k);
        lemma_up_to(corner(c, i)[1], y + 1, k);
        lemma_up_to(corner(c, i)[2], z + 1, k);
        assert(corner(c, i) =~= seq![x + i % 2, y + (i / 2) % 2, z + i / 4]);
    }
    assert(p =~= b);
}

proof fn lemma_corner_is_near(v: UnifiedVolume, store: &DiskStore, maps: Seq<ShardMap>, c: Seq<int>, lod: u8, i: int)
    requires
        v.ok(store, maps),
        at_hand(store, maps, chunk_of(lod, c)),
        c.len() == 3,
        0 <= c[0] < 0x1_0000_0000,
        0 <= c[1] < 0x1_0000_0000,
        0 <= c[2] < 0x1_0000_0000,
        0 <= i < 8,
    ensures
        ({
            let q = corner(c, i);
            let near = q[0] / 64 == c[0] / 64 && q[1] / 64 == c[1] / 64 && q[2] / 64 == c[2] / 64;
            &&& corner_crosses(c[0] % 64 == 63, c[1] % 64 == 63, c[2] % 64 == 63, i) == !near
            &&& near && inside(v.extent, q, lod) ==> trusted(&v, maps, q, lod) == Sampled::Value(
                contents_of(store, maps, chunk_of(lod, c))[voxel_place(q[0], q[1], q[2])],
            )
        }),
{
    let key = chunk_of(lod, c);
    store.lemma_place_fits(key);
    let q = corner(c, i);
    assert(0 <= i % 2 <= 1 && 0 <= (i / 2) % 2 <= 1 && 0 <= i / 4 <= 1);
    assert((c[0] + i % 2) / 64 == c[0] / 64 <==> !(c[0] % 64 == 63 && i % 2 == 1));
    assert((c[1] + (i / 2) % 2) / 64 == c[1] / 64 <==> !(c[1] % 64 == 63 && (i / 2) % 2 == 1));
    assert((c[2] + i / 4) / 64 == c[2] / 64 <==> !(c[2] % 64 == 63 && i / 4 == 1));
    if q[0] / 64 == c[0] / 64 && q[1] / 64 == c[1] / 64 && q[2] / 64 == c[2] / 64 {
        assert(chunk_of(lod, q) == key);
    }
}

/// Interpolating beyond the volume's end gives zero, and so does interpolating
/// in a chunk that is known to be absent.
pub proof fn law_interpolating_without_data_gives_zero(
    v: UnifiedVolume,
    store: &DiskStore,
    maps: Seq<ShardMap>,
    pos: [u64; 3],
    lod: u8,
    answers: Seq<ChunkState>,
    axis: int,
)
    requires
        0 <= axis < 3,
        lod <= v.max_lod,
    ensures
        (pos@[axis] as int / 0x1_0000_0000) * chunk::pow2(lod as nat) >= v.extent@[axis] ==> interpolated(
            &v,
            store,
            maps,
            pos,
            lod,
            answers,
        ) == Interpolated::Value(0),
        goes_by_level(&v, store, maps, pos, lod) && v.bound is None && answers.len() > 0 && answers[0] is Empty
            ==> interpolated(&v, store, maps, pos, lod, answers) == Interpolated::Value(0),
{
    chunk::lemma_pow2_table();
    assert(cells(pos, 0)[axis] == pos@[axis] as int / 0x1_0000_0000);
}

/// The level that was chosen for a chunk stays chosen while the chunk is read in:
/// whatever the cache says later, the same is read.
pub proof fn law_chosen_level_stays(
    v: UnifiedVolume,
    w: UnifiedVolume,
    store: &DiskStore,
    maps: Seq<ShardMap>,
    pos: [u64; 3],
    lod: u8,
    answers: Seq<ChunkState>,
    later: Seq<ChunkState>,
)
    requires
        v.bound is None,
        lod <= v.max_lod <= 31,
        goes_by_level(&v, store, maps, pos, lod),
        interpolated(&v, store, maps, pos, lod, answers) is Value,
        !(chosen(&v, chunk_of(lod, cells(pos, 0)), answers) is Nowhere),
        w == (UnifiedVolume { bound: binding_after(&v, store, maps, pos, lod, answers), ..v }),
    ensures
        interpolated(&w, store, maps, pos, lod, later) == interpolated(&v, store, maps, pos, lod, answers),
        w.bound is Some,
{
    let c = cells(pos, 0);
    let target = chunk_of(lod, c);
    lemma_walk_within(answers, target, 0, v.top(lod));
    match chosen(&v, target, answers) {
        Walk::Found(shift, state) => {
            assert(chosen(&w, target, later) == Walk::Found(shift, state));
            if state is Resident {
                let d = cells(pos, shift as int);
                let level = ancestor(target, shift as int).lod;
                let a = corner_reader(&v, store, maps, d, level);
                let b = corner_reader(&w, store, maps, d, level);
                assert forall|i: int| 0 <= i < 8 implies #[trigger] a(i) == b(i) by {}
                lemma_same_corners(a, b, 8);
            }
        },
        _ => {},
    }
}

proof fn lemma_walk_within(answers: Seq<ChunkState>, target: ChunkKey, from: int, top: int)
    requires
        0 <= from,
        top <= 31,
    ensures
        walked(answers, target, from, top) matches Walk::Found(shift, _) ==> from <= shift <= top,
    decreases top + 1 - from,
{
    if from <= top {
        lemma_walk_within(answers, target, from + 1, top);
    }
}

} // verus!
