//! Chunk addresses and the vocabulary that the cache layers share.
use vstd::prelude::*;

verus! {

/// Voxels along one edge of a cache chunk.
pub const CHUNK_SIDE: usize = 64;

/// Voxels in one cache chunk, one byte each.
pub const CHUNK_VOXELS: usize = 262144;

/// The address of one cache chunk: its level of detail and its chunk
/// coordinates at that level.
#[derive(Debug, Clone, Copy, PartialEq, Eq, Structural, PartialOrd, Ord, Hash)]
pub struct ChunkKey {
    pub lod: u8,
    pub x: u32,
    pub y: u32,
    pub z: u32,
}

impl ChunkKey {
    /// The chunk at `(x, y, z)` of level `lod`.
    pub fn new(lod: u8, x: u32, y: u32, z: u32) -> (key: ChunkKey)
        ensures
            key == (ChunkKey { lod, x, y, z }),
    {
        ChunkKey { lod, x, y, z }
    }
}

/// The coordinates of a shard: a cube of chunks that share one data file.
#[derive(Debug, Clone, Copy, PartialEq, Eq, Structural, PartialOrd, Ord, Hash)]
pub struct ShardCoord {
    pub x: u32,
    pub y: u32,
    pub z: u32,
}

/// What the cache knows about one chunk. Times are in milliseconds.
#[derive(Debug, Clone, Copy, PartialEq, Eq, Structural)]
pub enum ChunkState {
    /// Nothing was tried yet.
    Missing,
    /// A fetch is under way. The number is the frame in which the chunk's
    /// queued work was last moved to the head.
    Pending { last_touched_frame: u64 },
    /// The chunk's voxels stand in a shard file, at this byte.
    Resident { shard: ShardCoord, offset: u64 },
    /// The source holds no data for the chunk.
    Empty,
    /// Not to be tried again before this time.
    CooldownMiss { until: u64 },
}

impl ChunkState {
    /// A fetch that has just begun.
    pub open spec fn fresh_pending() -> ChunkState {
        ChunkState::Pending { last_touched_frame: 0 }
    }

    /// A fetch that has just begun.
    pub fn pending() -> (s: ChunkState)
        ensures
            s == ChunkState::fresh_pending(),
    {
        ChunkState::Pending { last_touched_frame: 0 }
    }

    /// Whether the chunk's fate is known: it is resident or empty.
    pub open spec fn terminal(self) -> bool {
        self is Resident || self is Empty
    }

    /// Whether the chunk's fate is known: it is resident or empty.
    pub fn is_terminal(&self) -> (r: bool)
        ensures
            r == self.terminal(),
    {
        match self {
            ChunkState::Resident { .. } => true,
            ChunkState::Empty => true,
            _ => false,
        }
    }
}

/// `now + wait`, held at the largest time there is.
pub open spec fn time_after(now: u64, wait: u64) -> u64 {
    if now + wait > u64::MAX {
        u64::MAX
    } else {
        (now + wait) as u64
    }
}

/// `2^n`.
pub open spec fn pow2(n: nat) -> nat
    decreases n,
{
    if n == 0 {
        1
    } else {
        2 * pow2((n - 1) as nat)
    }
}

/// `pow2` at the sizes that fit a machine word, and its bounds there.
pub proof fn lemma_pow2_bounds(n: nat)
    requires
        n <= 63,
    ensures
        0 < pow2(n) <= 0x8000_0000_0000_0000,
        n <= 31 ==> pow2(n) <= 0x8000_0000,
        n <= 24 ==> pow2(n) <= 0x100_0000,
        n <= 6 ==> pow2(n) <= 64,
    decreases n,
{
    if n > 0 {
        lemma_pow2_bounds((n - 1) as nat);
        lemma_pow2_step(n);
    }
}

proof fn lemma_pow2_step(n: nat)
    requires
        0 < n <= 63,
    ensures
        pow2(n) == 2 * pow2((n - 1) as nat),
        pow2(n) <= 0x8000_0000_0000_0000,
        n <= 31 ==> pow2(n) <= 0x8000_0000,
        n <= 24 ==> pow2(n) <= 0x100_0000,
        n <= 6 ==> pow2(n) <= 64,
    decreases n,
{
    reveal_with_fuel(pow2, 7);
    if n > 1 {
        lemma_pow2_step((n - 1) as nat);
    }
    lemma_pow2_table();
    lemma_pow2_mono(n, 63);
    if n <= 31 {
        lemma_pow2_mono(n, 31);
    }
    if n <= 24 {
        lemma_pow2_mono(n, 24);
    }
    if n <= 6 {
        lemma_pow2_mono(n, 6);
    }
}

/// A few exact powers.
pub proof fn lemma_pow2_table()
    ensures
        pow2(0) == 1,
        pow2(1) == 2,
        pow2(2) == 4,
        pow2(3) == 8,
        pow2(4) == 16,
        pow2(5) == 32,
        pow2(6) == 64,
        pow2(7) == 128,
        pow2(8) == 256,
        pow2(24) == 0x100_0000,
        pow2(31) == 0x8000_0000,
        pow2(32) == 0x1_0000_0000,
        pow2(63) == 0x8000_0000_0000_0000,
{
    reveal_with_fuel(pow2, 9);
    lemma_pow2_add(8, 8);
    lemma_pow2_add(16, 8);
    lemma_pow2_add(16, 16);
    lemma_pow2_add(24, 7);
    lemma_pow2_add(31, 32);
    assert(pow2(32) == 0x1_0000_0000);
    assert(pow2(31) == 0x8000_0000);
    assert(0x8000_0000int * 0x1_0000_0000int == 0x8000_0000_0000_0000int);
    assert(pow2(31 + 32) == 0x8000_0000_0000_0000);
}

/// Larger exponents give larger powers.
pub proof fn lemma_pow2_mono(a: nat, b: nat)
    requires
        a <= b,
    ensures
        0 < pow2(a) <= pow2(b),
    decreases b,
{
    if b > 0 {
        if a < b {
            lemma_pow2_mono(a, (b - 1) as nat);
        } else {
            lemma_pow2_mono((a - 1) as nat, (b - 1) as nat);
        }
    }
}

/// Exponents add.
pub proof fn lemma_pow2_add(a: nat, b: nat)
    ensures
        pow2(a + b) == pow2(a) * pow2(b),
    decreases a,
{
    if a > 0 {
        lemma_pow2_add((a - 1) as nat, b);
        let p = pow2((a - 1) as nat);
        let q = pow2(b);
        assert(2 * (p * q) == (2 * p) * q) by (nonlinear_arith);
        assert(a + b - 1 == (a - 1) + b);
    } else {
        assert(pow2(0) * pow2(b) == pow2(b)) by {
            assert(pow2(0) == 1);
        }
    }
}

/// `2^n` as a machine word.
pub fn pow2_u64(n: u8) -> (p: u64)
    requires
        n <= 63,
    ensures
        p == pow2(n as nat),
{
    let mut p: u64 = 1;
    let mut i: u8 = 0;
    while i < n
        invariant
            i <= n <= 63,
            p == pow2(i as nat),
        decreases n - i,
    {
        proof {
            lemma_pow2_bounds((i + 1) as nat);
        }
        p = p * 2;
        i = i + 1;
    }
    p
}

/// A time is as much later as is asked for, as far as times go.
pub proof fn law_time_after_is_so_much_later(now: u64, wait: u64)
    ensures
        now + wait <= u64::MAX ==> time_after(now, wait) - now == wait,
        now + wait > u64::MAX ==> time_after(now, wait) == u64::MAX,
{
}

} // verus!
