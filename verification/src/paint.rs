//! Painting a slice of the volume: which tiles the view covers, what to ask
//! the cache for, and the pixels of each tile.
//!
//! Positions are in voxels of the finest level.
use crate::cache::Scheduler;
use crate::chunk;
use crate::chunk::{pow2_u64, ChunkKey, ChunkState, CHUNK_VOXELS};
use crate::disk::DiskStore;
use crate::slots::SlotModel;
use crate::volume;
use crate::volume::{ShardMap, ShardRequest};
use vstd::prelude::*;

verus! {

/// `a / d`, rounded down.
pub fn floor_div(a: i64, d: i64) -> (q: i64)
    requires
        d > 0,
    ensures
        q == a as int / d as int,
        a >= 0 ==> 0 <= q <= a,
        a < 0 ==> a <= q < 0,
{
    if a >= 0 {
        proof {
            assert(0 <= a as int / d as int <= a) by (nonlinear_arith)
                requires
                    a >= 0,
                    d > 0,
            ;
        }
        a / d
    } else {
        let b: i64 = -1 - a;
        proof {
            assert(a as int / d as int == -1 - (b as int / d as int)) by (nonlinear_arith)
                requires
                    b == -1 - a,
                    d > 0,
            ;
            assert(0 <= b as int / d as int <= b) by (nonlinear_arith)
                requires
                    b >= 0,
                    d > 0,
            ;
        }
        -1 - b / d
    }
}

/// `a / d`, rounded up.
pub open spec fn ceiling(a: int, d: int) -> int {
    (a + d - 1) / d
}

/// A view of a slice: a canvas around a position, spanned by two axes, at a
/// number of voxels to a pixel.
#[derive(Debug, Clone, Copy)]
pub struct SliceView {
    pub center: [i32; 3],
    pub u_axis: usize,
    pub v_axis: usize,
    pub plane_axis: usize,
    pub width: usize,
    pub height: usize,
    pub zoom: u8,
}

/// The tiles of one level that a view covers.
#[derive(Debug, Clone, Copy)]
pub struct ViewportTiles {
    /// A tile's edge in voxels of the finest level.
    pub chunk_world: i64,
    pub tile_u_lo: i64,
    pub tile_u_hi: i64,
    pub tile_v_lo: i64,
    pub tile_v_hi: i64,
    pub tile_pc: i64,
}

/// A tile's edge, in voxels of the finest level.
pub open spec fn tile_edge(lod: u8) -> int {
    64 * (chunk::pow2(lod as nat) as int)
}

/// The first tile that a range from `min` reaches; none is below zero.
pub open spec fn first_tile(min: int, lod: u8) -> int {
    if min / tile_edge(lod) < 0 {
        0
    } else {
        min / tile_edge(lod)
    }
}

/// The tiles of level `lod` that a window covers; none if the slice lies below
/// zero.
pub fn viewport_tiles(min_uc: i64, max_uc: i64, min_vc: i64, max_vc: i64, pc: i64, lod: u8) -> (r:
    Option<ViewportTiles>)
    requires
        lod <= 24,
    ensures
        r is None <==> pc < 0,
        r matches Some(t) ==> {
            &&& t.chunk_world == tile_edge(lod)
            &&& t.tile_u_lo == first_tile(min_uc as int, lod)
            &&& t.tile_u_hi == max_uc as int / tile_edge(lod)
            &&& t.tile_v_lo == first_tile(min_vc as int, lod)
            &&& t.tile_v_hi == max_vc as int / tile_edge(lod)
            &&& t.tile_pc == pc as int / tile_edge(lod)
            &&& 0 <= t.tile_pc <= pc
            &&& t.tile_u_hi <= max_uc || t.tile_u_hi < 0
            &&& t.tile_v_hi <= max_vc || t.tile_v_hi < 0
        },
{
    proof {
        chunk::lemma_pow2_bounds(lod as nat);
    }
    let chunk_world: i64 = 64 * (pow2_u64(lod) as i64);
    let tile_pc = floor_div(pc, chunk_world);
    if tile_pc < 0 {
        return None;
    }
    let u = floor_div(min_uc, chunk_world);
    let v = floor_div(min_vc, chunk_world);
    Some(
        ViewportTiles {
            chunk_world,
            tile_u_lo: if u < 0 { 0 } else { u },
            tile_u_hi: floor_div(max_uc, chunk_world),
            tile_v_lo: if v < 0 { 0 } else { v },
            tile_v_hi: floor_div(max_vc, chunk_world),
            tile_pc,
        },
    )
}

impl SliceView {
    /// The axes are the three of them, a pixel has voxels, and the canvas is
    /// of a size that signed numbers hold.
    pub open spec fn ok(&self) -> bool {
        &&& self.u_axis < 3
        &&& self.v_axis < 3
        &&& self.plane_axis < 3
        &&& self.u_axis != self.v_axis
        &&& self.u_axis != self.plane_axis
        &&& self.v_axis != self.plane_axis
        &&& self.zoom >= 1
        &&& self.zoom * self.width <= i32::MAX
        &&& self.zoom * self.height <= i32::MAX
    }

    /// Half the canvas, in voxels.
    pub open spec fn half(&self, pixels: usize) -> int {
        (self.zoom * pixels) / 2
    }

    pub open spec fn min_u(&self) -> int {
        self.center@[self.u_axis as int] - self.half(self.width)
    }

    pub open spec fn max_u(&self) -> int {
        self.center@[self.u_axis as int] + self.half(self.width)
    }

    pub open spec fn min_v(&self) -> int {
        self.center@[self.v_axis as int] - self.half(self.height)
    }

    pub open spec fn max_v(&self) -> int {
        self.center@[self.v_axis as int] + self.half(self.height)
    }

    /// The slice's position.
    pub open spec fn depth(&self) -> int {
        self.center@[self.plane_axis as int] as int
    }

    /// The coordinate on one axis of a point `a` along the canvas, `b` down it
    /// and `c` deep.
    pub open spec fn on_axis(&self, axis: int, a: int, b: int, c: int) -> int {
        if axis == self.plane_axis {
            c
        } else if axis == self.v_axis {
            b
        } else {
            a
        }
    }

    /// The chunk at tile `(a, b)` of a level, `c` tiles deep.
    pub open spec fn key(&self, lod: u8, a: int, b: int, c: int) -> ChunkKey {
        ChunkKey {
            lod,
            x: self.on_axis(0, a, b, c) as u32,
            y: self.on_axis(1, a, b, c) as u32,
            z: self.on_axis(2, a, b, c) as u32,
        }
    }

    /// The chunk that the slice cuts at tile `(tu, tv)` of a level.
    pub open spec fn tile_key(&self, lod: u8, tu: int, tv: int) -> ChunkKey {
        self.key(lod, tu, tv, self.depth() / tile_edge(lod))
    }

    /// The canvas is of a size that signed numbers hold.
    pub proof fn lemma_canvas_fits(&self)
        requires
            self.ok(),
        ensures
            0 <= self.width <= self.zoom * self.width <= i32::MAX,
            0 <= self.height <= self.zoom * self.height <= i32::MAX,
    {
        assert(self.width <= self.zoom * self.width) by (nonlinear_arith)
            requires
                self.zoom >= 1,
                0 <= self.width,
        ;
        assert(self.height <= self.zoom * self.height) by (nonlinear_arith)
            requires
                self.zoom >= 1,
                0 <= self.height,
        ;
    }

    fn spans(&self) -> (r: (i64, i64, i64, i64))
        requires
            self.ok(),
        ensures
            r.0 == self.min_u(),
            r.1 == self.max_u(),
            r.2 == self.min_v(),
            r.3 == self.max_v(),
            -0x1_0000_0000 <= r.0 <= r.1 <= 0x1_0000_0000,
            -0x1_0000_0000 <= r.2 <= r.3 <= 0x1_0000_0000,
    {
        proof {
            self.lemma_canvas_fits();
        }
        let hu: i64 = ((self.zoom as i64) * (self.width as i64)) / 2;
        let hv: i64 = ((self.zoom as i64) * (self.height as i64)) / 2;
        let cu: i64 = self.center[self.u_axis] as i64;
        let cv: i64 = self.center[self.v_axis] as i64;
        (cu - hu, cu + hu, cv - hv, cv + hv)
    }

    fn key_at(&self, lod: u8, a: i64, b: i64, c: i64) -> (key: ChunkKey)
        requires
            self.ok(),
            0 <= a <= u32::MAX,
            0 <= b <= u32::MAX,
            0 <= c <= u32::MAX,
        ensures
            key == self.key(lod, a as int, b as int, c as int),
    {
        let mut at: [u32; 3] = [0; 3];
        at[self.u_axis] = a as u32;
        at[self.v_axis] = b as u32;
        at[self.plane_axis] = c as u32;
        ChunkKey::new(lod, at[0], at[1], at[2])
    }

    /// The tiles of a level that the view covers.
    pub fn tiles(&self, lod: u8) -> (r: Option<ViewportTiles>)
        requires
            self.ok(),
            lod <= 24,
        ensures
            r is None <==> self.depth() < 0,
            r matches Some(t) ==> {
                &&& t.chunk_world == tile_edge(lod)
                &&& t.tile_u_lo == first_tile(self.min_u(), lod)
                &&& t.tile_u_hi == self.max_u() / tile_edge(lod)
                &&& t.tile_v_lo == first_tile(self.min_v(), lod)
                &&& t.tile_v_hi == self.max_v() / tile_edge(lod)
                &&& t.tile_pc == self.depth() / tile_edge(lod)
                &&& 0 <= t.tile_pc <= i32::MAX
                &&& 0 <= t.tile_u_lo
                &&& 0 <= t.tile_v_lo
                &&& t.tile_u_hi <= u32::MAX
                &&& t.tile_v_hi <= u32::MAX
            },
    {
        let (min_u, max_u, min_v, max_v) = self.spans();
        let pc: i64 = self.center[self.plane_axis] as i64;
        let r = viewport_tiles(min_u, max_u, min_v, max_v, pc, lod);
        proof {
            chunk::lemma_pow2_bounds(lod as nat);
            let e = tile_edge(lod);
            assert(max_u as int / e <= max_u || max_u < 0) by (nonlinear_arith)
                requires
                    e >= 64,
            ;
            assert(max_u as int / e < 0x1_0000_0000 && max_v as int / e < 0x1_0000_0000) by (nonlinear_arith)
                requires
                    max_u <= 0x1_0000_0000,
                    max_v <= 0x1_0000_0000,
                    e >= 64,
            ;
        }
        r
    }
}

/// Whether the chunk's fate is known.
pub open spec fn settled(chunks: Map<ChunkKey, SlotModel>, key: ChunkKey) -> bool {
    chunks[key].state matches Some(st) && st.terminal()
}

/// How many tiles there are from `lo` to `hi`.
pub open spec fn span(lo: int, hi: int) -> nat {
    if hi < lo {
        0
    } else {
        (hi - lo + 1) as nat
    }
}

/// The tiles of column `tu` whose chunks' fates are open, among the first `n`
/// from `lo`.
pub open spec fn open_in_column(
    view: &SliceView,
    chunks: Map<ChunkKey, SlotModel>,
    lod: u8,
    tu: int,
    lo: int,
    n: nat,
) -> Seq<(i64, i64)>
    decreases n,
{
    if n == 0 {
        Seq::empty()
    } else {
        let before = open_in_column(view, chunks, lod, tu, lo, (n - 1) as nat);
        if settled(chunks, view.tile_key(lod, tu, lo + n - 1)) {
            before
        } else {
            before.push((tu as i64, (lo + n - 1) as i64))
        }
    }
}

/// The tiles whose chunks' fates are open, in the first `n` columns from
/// `lo_u`.
pub open spec fn open_in_columns(
    view: &SliceView,
    chunks: Map<ChunkKey, SlotModel>,
    lod: u8,
    lo_u: int,
    n: nat,
    lo_v: int,
    m: nat,
) -> Seq<(i64, i64)>
    decreases n,
{
    if n == 0 {
        Seq::empty()
    } else {
        open_in_columns(view, chunks, lod, lo_u, (n - 1) as nat, lo_v, m) + open_in_column(
            view,
            chunks,
            lod,
            lo_u + n - 1,
            lo_v,
            m,
        )
    }
}

/// The tiles of a view whose chunks' fates are open, column by column.
pub open spec fn open_tiles(view: &SliceView, chunks: Map<ChunkKey, SlotModel>, lod: u8) -> Seq<
    (i64, i64),
> {
    if view.depth() < 0 {
        Seq::empty()
    } else {
        open_in_columns(
            view,
            chunks,
            lod,
            first_tile(view.min_u(), lod),
            span(first_tile(view.min_u(), lod), view.max_u() / tile_edge(lod)),
            first_tile(view.min_v(), lod),
            span(first_tile(view.min_v(), lod), view.max_v() / tile_edge(lod)),
        )
    }
}

/// Every tile has coordinates that a chunk's address can hold.
pub open spec fn tiles_ok(tiles: Seq<(i64, i64)>) -> bool {
    forall|i: int|
        0 <= i < tiles.len() ==> 0 <= (#[trigger] tiles[i]).0 <= u32::MAX && 0 <= tiles[i].1
            <= u32::MAX
}

/// The distinct coarser tiles, `scale` times as long, over the first `n` of
/// `tiles`, each where it first occurs.
pub open spec fn parents(tiles: Seq<(i64, i64)>, scale: int, n: nat) -> Seq<(i64, i64)>
    decreases n,
{
    if n == 0 {
        Seq::empty()
    } else {
        let before = parents(tiles, scale, (n - 1) as nat);
        let p = ((tiles[n - 1].0 as int / scale) as i64, (tiles[n - 1].1 as int / scale) as i64);
        if before.contains(p) {
            before
        } else {
            before.push(p)
        }
    }
}

/// The chunks of level `lod` over the tiles, in order.
pub open spec fn level_requests(view: &SliceView, tiles: Seq<(i64, i64)>, target_lod: u8, lod: u8) -> Seq<
    ChunkKey,
> {
    parents(tiles, chunk::pow2((lod - target_lod) as nat) as int, tiles.len()).map_values(
        |p: (i64, i64)| view.tile_key(lod, p.0 as int, p.1 as int),
    )
}

/// The chunks over the tiles at the levels above the target up to `lod`,
/// coarsest first.
pub open spec fn coarse_first(view: &SliceView, tiles: Seq<(i64, i64)>, target_lod: u8, lod: u8) -> Seq<
    ChunkKey,
>
    decreases lod,
{
    if lod <= target_lod {
        Seq::empty()
    } else {
        level_requests(view, tiles, target_lod, lod) + coarse_first(
            view,
            tiles,
            target_lod,
            (lod - 1) as u8,
        )
    }
}

fn contains_tile(tiles: &Vec<(i64, i64)>, a: i64, b: i64) -> (r: bool)
    ensures
        r == tiles@.contains((a, b)),
{
    let mut i: usize = 0;
    while i < tiles.len()
        invariant
            i <= tiles.len(),
            forall|j: int| 0 <= j < i ==> #[trigger] tiles@[j] != (a, b),
        decreases tiles.len() - i,
    {
        if tiles[i].0 == a && tiles[i].1 == b {
            assert(tiles@[i as int] == (a, b));
            return true;
        }
        i = i + 1;
    }
    false
}

impl SliceView {
    /// The tiles of a level whose chunks still have to arrive.
    pub fn pending_tiles(&self, cache: &Scheduler, lod: u8) -> (r: Vec<(i64, i64)>)
        requires
            self.ok(),
            lod <= 24,
            cache.wf(),
        ensures
            r@ == open_tiles(self, cache.model().chunks, lod),
            tiles_ok(r@),
    {
        let mut out: Vec<(i64, i64)> = Vec::new();
        let t = match self.tiles(lod) {
            Some(t) => t,
            None => {
                return out;
            },
        };
        let ghost chunks = cache.model().chunks;
        let ghost m = span(t.tile_v_lo as int, t.tile_v_hi as int);
        let mut tu: i64 = t.tile_u_lo;
        while tu <= t.tile_u_hi
            invariant
                self.ok(),
                lod <= 24,
                cache.wf(),
                chunks == cache.model().chunks,
                self.depth() >= 0,
                t.tile_pc == self.depth() / tile_edge(lod),
                0 <= t.tile_pc <= i32::MAX,
                0 <= t.tile_u_lo <= tu,
                0 <= t.tile_v_lo,
                t.tile_u_hi <= u32::MAX,
                t.tile_v_hi <= u32::MAX,
                m == span(t.tile_v_lo as int, t.tile_v_hi as int),
                tu - t.tile_u_lo <= span(t.tile_u_lo as int, t.tile_u_hi as int),
                out@ == open_in_columns(
                    self,
                    chunks,
                    lod,
                    t.tile_u_lo as int,
                    (tu - t.tile_u_lo) as nat,
                    t.tile_v_lo as int,
                    m,
                ),
                tiles_ok(out@),
            decreases t.tile_u_hi + 1 - tu,
        {
            let ghost whole = out@;
            let mut tv: i64 = t.tile_v_lo;
            while tv <= t.tile_v_hi
                invariant
                    self.ok(),
                    lod <= 24,
                    cache.wf(),
                    chunks == cache.model().chunks,
                    t.tile_pc == self.depth() / tile_edge(lod),
                    0 <= t.tile_pc <= i32::MAX,
                    0 <= tu <= u32::MAX,
                    0 <= t.tile_v_lo <= tv,
                    t.tile_v_hi <= u32::MAX,
                    m == span(t.tile_v_lo as int, t.tile_v_hi as int),
                    tv - t.tile_v_lo <= m,
                    out@ == whole + open_in_column(
                        self,
                        chunks,
                        lod,
                        tu as int,
                        t.tile_v_lo as int,
                        (tv - t.tile_v_lo) as nat,
                    ),
                    tiles_ok(out@),
                decreases t.tile_v_hi + 1 - tv,
            {
                let key = self.key_at(lod, tu, tv, t.tile_pc);
                let done = match cache.peek(key) {
                    Some(state) => state.is_terminal(),
                    None => false,
                };
                assert(done == settled(chunks, self.tile_key(lod, tu as int, tv as int)));
                if !done {
                    out.push((tu, tv));
                }
                assert(out@ =~= whole + open_in_column(
                    self,
                    chunks,
                    lod,
                    tu as int,
                    t.tile_v_lo as int,
                    (tv + 1 - t.tile_v_lo) as nat,
                ));
                tv = tv + 1;
            }
            assert(tv - t.tile_v_lo == m);
            tu = tu + 1;
        }
        assert(tu - t.tile_u_lo == span(t.tile_u_lo as int, t.tile_u_hi as int));
        out
    }

    fn requests_at(&self, tiles: &Vec<(i64, i64)>, target_lod: u8, lod: u8, out: &mut Vec<ChunkKey>)
        requires
            self.ok(),
            target_lod < lod <= 24,
            tiles_ok(tiles@),
            self.depth() >= 0,
        ensures
            final(out)@ == old(out)@ + level_requests(self, tiles@, target_lod, lod),
    {
        let t = match self.tiles(lod) {
            Some(t) => t,
            None => {
                return ;
            },
        };
        proof {
            chunk::lemma_pow2_bounds((lod - target_lod) as nat);
        }
        let scale: i64 = pow2_u64(lod - target_lod) as i64;
        let ghost to_key = |p: (i64, i64)| self.tile_key(lod, p.0 as int, p.1 as int);
        let mut seen: Vec<(i64, i64)> = Vec::new();
        let mut i: usize = 0;
        assert(out@ =~= old(out)@ + seen@.map_values(to_key));
        while i < tiles.len()
            invariant
                self.ok(),
                i <= tiles.len(),
                tiles_ok(tiles@),
                scale == chunk::pow2((lod - target_lod) as nat),
                scale >= 1,
                t.tile_pc == self.depth() / tile_edge(lod),
                0 <= t.tile_pc <= i32::MAX,
                to_key == (|p: (i64, i64)| self.tile_key(lod, p.0 as int, p.1 as int)),
                seen@ == parents(tiles@, scale as int, i as nat),
                out@ == old(out)@ + seen@.map_values(to_key),
            decreases tiles.len() - i,
        {
            let tile = tiles[i];
            assert(0 <= tiles@[i as int].0 <= u32::MAX && 0 <= tiles@[i as int].1 <= u32::MAX);
            proof {
                assert(0 <= tile.0 as int / scale as int <= tile.0) by (nonlinear_arith)
                    requires
                        0 <= tile.0,
                        scale >= 1,
                ;
                assert(0 <= tile.1 as int / scale as int <= tile.1) by (nonlinear_arith)
                    requires
                        0 <= tile.1,
                        scale >= 1,
                ;
            }
            let a = tile.0 / scale;
            let b = tile.1 / scale;
            if !contains_tile(&seen, a, b) {
                let ghost before = seen@;
                seen.push((a, b));
                let key = self.key_at(lod, a, b, t.tile_pc);
                out.push(key);
                assert(seen@.map_values(to_key) =~= before.map_values(to_key).push(key));
            }
            i = i + 1;
        }
    }

    /// What to ask the cache for so that the pending tiles have something to
    /// show soon: the chunks over them at every coarser level, coarsest first,
    /// none twice.
    pub fn coarse_requests(&self, pending: &Vec<(i64, i64)>, target_lod: u8, max_lod: u8) -> (r: Vec<
        ChunkKey,
    >)
        requires
            self.ok(),
            max_lod <= 24,
            tiles_ok(pending@),
            self.depth() >= 0,
        ensures
            r@ == coarse_first(self, pending@, target_lod, max_lod),
    {
        let mut out: Vec<ChunkKey> = Vec::new();
        let mut lod: u8 = max_lod;
        let ghost whole = coarse_first(self, pending@, target_lod, max_lod);
        assert(out@ + whole =~= whole);
        while lod > target_lod
            invariant
                self.ok(),
                lod <= 24,
                tiles_ok(pending@),
                self.depth() >= 0,
                out@ + coarse_first(self, pending@, target_lod, lod) == whole,
            decreases lod,
        {
            let ghost before = out@;
            self.requests_at(pending, target_lod, lod, &mut out);
            assert(out@ + coarse_first(self, pending@, target_lod, (lod - 1) as u8) =~= before
                + coarse_first(self, pending@, target_lod, lod));
            lod = lod - 1;
        }
        assert(out@ + Seq::empty() =~= out@);
        out
    }
}

/// The pixels that a tile owns: columns `u_lo` to `u_hi` and rows `v_lo` to
/// `v_hi`, the upper ends excluded.
#[derive(Debug, Clone, Copy, PartialEq, Eq, Structural)]
pub struct Rect {
    pub u_lo: usize,
    pub u_hi: usize,
    pub v_lo: usize,
    pub v_hi: usize,
}

/// The first pixel of tile `t` along an axis on which the canvas starts at
/// `min`.
pub open spec fn first_pixel(min: int, zoom: int, edge: int, t: int) -> int {
    let p = ceiling(t * edge - min, zoom);
    if p < 0 {
        0
    } else {
        p
    }
}

/// The end of the pixels of tile `t` along an axis of `size` pixels.
pub open spec fn end_pixel(min: int, zoom: int, edge: int, t: int, size: int) -> int {
    let p = ceiling((t + 1) * edge - min, zoom);
    if p > size {
        size
    } else {
        p
    }
}

/// A pixel belongs to the tile that the point it shows lies in, and to no
/// other: no pixel is painted twice.
pub proof fn law_pixel_belongs_to_one_tile(min: int, zoom: int, lod: u8, t: int, size: int, px: int)
    requires
        zoom >= 1,
        lod <= 24,
        0 <= px < size,
    ensures
        first_pixel(min, zoom, tile_edge(lod), t) <= px < end_pixel(
            min,
            zoom,
            tile_edge(lod),
            t,
            size,
        ) <==> (min + px * zoom) / tile_edge(lod) == t,
{
    chunk::lemma_pow2_bounds(lod as nat);
    let edge = tile_edge(lod);
    lemma_ceiling_bound(t * edge - min, zoom, px);
    lemma_ceiling_bound((t + 1) * edge - min, zoom, px);
    let w = min + px * zoom;
    assert(w / edge == t <==> t * edge <= w < (t + 1) * edge) by (nonlinear_arith)
        requires
            edge >= 1,
    ;
}

proof fn lemma_ceiling_bound(a: int, d: int, p: int)
    requires
        d >= 1,
    ensures
        ceiling(a, d) <= p <==> a <= p * d,
{
    assert((a + d - 1) / d <= p <==> a <= p * d) by (nonlinear_arith)
        requires
            d >= 1,
    ;
}

fn pixel_bound(t: i64, edge: i64, min: i64, zoom: i64) -> (p: i64)
    requires
        0 <= t <= 0x1_0000_0000,
        64 <= edge <= 0x4000_0000,
        -0x1_0000_0000 <= min <= 0x1_0000_0000,
        1 <= zoom <= 255,
    ensures
        p == ceiling(t * edge - min, zoom as int),
{
    assert(0 <= t * edge <= 0x1_0000_0000 * 0x4000_0000) by (nonlinear_arith)
        requires
            0 <= t <= 0x1_0000_0000,
            0 <= edge <= 0x4000_0000,
    ;
    floor_div(t * edge - min + zoom - 1, zoom)
}

/// A gray picture, row by row.
pub struct Image {
    pub width: usize,
    pub height: usize,
    pub pixels: Vec<u8>,
}

impl Image {
    pub open spec fn wf(&self) -> bool {
        self.pixels@.len() == self.width * self.height
    }
}

/// The picture with a rectangle's pixels replaced by what `value` gives for
/// their column and row.
pub open spec fn rect_painted(pixels: Seq<u8>, width: int, r: Rect, value: spec_fn(int, int) -> u8) -> Seq<
    u8,
> {
    Seq::new(
        pixels.len(),
        |i: int|
            if r.u_lo <= i % width < r.u_hi && r.v_lo <= i / width < r.v_hi {
                value(i % width, i / width)
            } else {
                pixels[i]
            },
    )
}

/// An opaque colour.
#[derive(Debug, Clone, Copy, PartialEq, Eq, Structural)]
pub struct Rgb {
    pub r: u8,
    pub g: u8,
    pub b: u8,
}

pub open spec fn rgb(r: u8, g: u8, b: u8) -> Rgb {
    Rgb { r, g, b }
}

/// The tint that shows where a tile's data stands: green for data known to be
/// absent, cyan and blue for a coarser stand-in whose own data is being
/// downloaded or waits, orange and yellow for nothing yet to show, likewise,
/// red for a failed fetch, magenta for a chunk never asked for, and none where
/// the wanted level is shown.
pub open spec fn overlay(
    target_lod: u8,
    chosen_lod: Option<u8>,
    target_state: Option<ChunkState>,
    is_downloading: bool,
) -> Option<Rgb> {
    if target_state == Some(ChunkState::Empty) {
        Some(rgb(60, 200, 110))
    } else {
        match chosen_lod {
            Some(l) => if l == target_lod {
                None
            } else if is_downloading {
                Some(rgb(40, 200, 220))
            } else {
                Some(rgb(60, 130, 230))
            },
            None => match target_state {
                Some(ChunkState::Pending { .. }) => if is_downloading {
                    Some(rgb(230, 140, 40))
                } else {
                    Some(rgb(230, 200, 40))
                },
                Some(ChunkState::CooldownMiss { .. }) => Some(rgb(220, 60, 60)),
                Some(ChunkState::Resident { .. }) => None,
                Some(ChunkState::Empty) => None,
                Some(ChunkState::Missing) => Some(rgb(220, 60, 220)),
                None => Some(rgb(220, 60, 220)),
            },
        }
    }
}

/// The tint of a tile (see `overlay`).
pub fn overlay_color_for(
    target_lod: u8,
    chosen_lod: Option<u8>,
    target_state: Option<ChunkState>,
    is_downloading: bool,
) -> (c: Option<Rgb>)
    ensures
        c == overlay(target_lod, chosen_lod, target_state, is_downloading),
{
    match target_state {
        Some(ChunkState::Empty) => {
            return Some(Rgb { r: 60, g: 200, b: 110 });
        },
        _ => {},
    }
    match chosen_lod {
        Some(l) => {
            if l == target_lod {
                None
            } else if is_downloading {
                Some(Rgb { r: 40, g: 200, b: 220 })
            } else {
                Some(Rgb { r: 60, g: 130, b: 230 })
            }
        },
        None => match target_state {
            Some(ChunkState::Pending { .. }) => {
                if is_downloading {
                    Some(Rgb { r: 230, g: 140, b: 40 })
                } else {
                    Some(Rgb { r: 230, g: 200, b: 40 })
                }
            },
            Some(ChunkState::CooldownMiss { .. }) => Some(Rgb { r: 220, g: 60, b: 60 }),
            Some(ChunkState::Resident { .. }) => None,
            Some(ChunkState::Empty) => None,
            Some(ChunkState::Missing) => Some(Rgb { r: 220, g: 60, b: 220 }),
            None => Some(Rgb { r: 220, g: 60, b: 220 }),
        },
    }
}

/// The finest level, from `shift` to `top` above the target, whose chunk over
/// the tile has a known fate. The target's own state is what the cache has just
/// answered; the coarser ones are only looked at.
pub open spec fn shown_level(
    chunks: Map<ChunkKey, SlotModel>,
    target: ChunkKey,
    target_state: ChunkState,
    shift: int,
    top: int,
) -> Option<(u8, ChunkState)>
    decreases top + 1 - shift,
{
    if shift > top {
        None
    } else {
        let state = if shift == 0 {
            Some(target_state)
        } else {
            chunks[volume::ancestor(target, shift)].state
        };
        match state {
            Some(st) if st.terminal() => Some(((target.lod + shift) as u8, st)),
            _ => shown_level(chunks, target, target_state, shift + 1, top),
        }
    }
}

fn level_to_show(cache: &Scheduler, target: ChunkKey, target_state: ChunkState, max_lod: u8) -> (r: Option<
    (u8, ChunkState),
>)
    requires
        cache.wf(),
        max_lod <= 24,
    ensures
        r == shown_level(
            cache.model().chunks,
            target,
            target_state,
            0,
            max_lod - target.lod,
        ),
        r matches Some((l, st)) ==> target.lod <= l <= max_lod && st.terminal(),
{
    let mut shift: u8 = 0;
    while target.lod as u16 + shift as u16 <= max_lod as u16
        invariant
            cache.wf(),
            max_lod <= 24,
            shift <= 25,
            shown_level(cache.model().chunks, target, target_state, 0, max_lod - target.lod)
                == shown_level(
                cache.model().chunks,
                target,
                target_state,
                shift as int,
                max_lod - target.lod,
            ),
        decreases 25 - shift,
    {
        let state = if shift == 0 {
            Some(target_state)
        } else {
            cache.peek(volume::ancestor_of(target, shift))
        };
        match state {
            Some(st) => {
                if st.is_terminal() {
                    return Some((target.lod + shift, st));
                }
            },
            None => {},
        }
        shift = shift + 1;
    }
    None
}

/// How a tile was shown.
#[derive(Debug, Clone, Copy, PartialEq, Eq, Structural)]
pub enum TilePaint {
    /// The canvas shows none of it.
    Offscreen,
    /// A shard has to be opened first.
    Open(ShardRequest),
    /// Painted from this level, and to be tinted thus.
    Painted { rect: Rect, lod: u8, tint: Option<Rgb> },
    /// No level has anything to show; the pixels stay as they are but for the
    /// tint.
    Left { rect: Rect, tint: Option<Rgb> },
}

impl SliceView {
    /// The pixels that tile `(tu, tv)` of a level owns.
    pub open spec fn rect(&self, lod: u8, tu: int, tv: int) -> Rect {
        let e = tile_edge(lod);
        let z = self.zoom as int;
        Rect {
            u_lo: first_pixel(self.min_u(), z, e, tu) as usize,
            u_hi: end_pixel(self.min_u(), z, e, tu, self.width as int) as usize,
            v_lo: first_pixel(self.min_v(), z, e, tv) as usize,
            v_hi: end_pixel(self.min_v(), z, e, tv, self.height as int) as usize,
        }
    }

    /// Whether the canvas shows a part of the tile.
    pub open spec fn shows(&self, lod: u8, tu: int, tv: int) -> bool {
        let e = tile_edge(lod);
        let z = self.zoom as int;
        &&& first_pixel(self.min_u(), z, e, tu) < end_pixel(
            self.min_u(),
            z,
            e,
            tu,
            self.width as int,
        )
        &&& first_pixel(self.min_v(), z, e, tv) < end_pixel(
            self.min_v(),
            z,
            e,
            tv,
            self.height as int,
        )
    }

    /// The voxel of a level, in its chunk, that a pixel shows.
    pub open spec fn voxel_shown(&self, lod: u8, u: int, v: int) -> int {
        let s = chunk::pow2(lod as nat) as int;
        let a = (self.min_u() + u * self.zoom) / s;
        let b = (self.min_v() + v * self.zoom) / s;
        let c = self.depth() / s;
        volume::voxel_place(
            self.on_axis(0, a, b, c),
            self.on_axis(1, a, b, c),
            self.on_axis(2, a, b, c),
        )
    }

    /// What each pixel of a tile gets: the filtered voxel it shows, and the
    /// filtered zero where there is no data.
    pub open spec fn pixel_values(&self, lod: u8, chunk: Option<Seq<u8>>, filter: [u8; 256]) -> spec_fn(
        int,
        int,
    ) -> u8 {
        |u: int, v: int|
            match chunk {
                Some(c) => filter@[c[self.voxel_shown(lod, u, v)] as int],
                None => filter@[0],
            }
    }

    fn tile_rect(&self, lod: u8, tu: i64, tv: i64) -> (r: Option<Rect>)
        requires
            self.ok(),
            lod <= 24,
            0 <= tu <= u32::MAX,
            0 <= tv <= u32::MAX,
        ensures
            r is Some == self.shows(lod, tu as int, tv as int),
            r matches Some(q) ==> {
                &&& q == self.rect(lod, tu as int, tv as int)
                &&& q.u_lo < q.u_hi <= self.width
                &&& q.v_lo < q.v_hi <= self.height
                &&& q.u_lo == first_pixel(self.min_u(), self.zoom as int, tile_edge(lod), tu as int)
                &&& q.u_hi == end_pixel(
                    self.min_u(),
                    self.zoom as int,
                    tile_edge(lod),
                    tu as int,
                    self.width as int,
                )
                &&& q.v_lo == first_pixel(self.min_v(), self.zoom as int, tile_edge(lod), tv as int)
                &&& q.v_hi == end_pixel(
                    self.min_v(),
                    self.zoom as int,
                    tile_edge(lod),
                    tv as int,
                    self.height as int,
                )
            },
    {
        proof {
            chunk::lemma_pow2_bounds(lod as nat);
            self.lemma_canvas_fits();
        }
        let edge: i64 = 64 * (pow2_u64(lod) as i64);
        let zoom: i64 = self.zoom as i64;
        let (min_u, _, min_v, _) = self.spans();
        let a = pixel_bound(tu, edge, min_u, zoom);
        let b = pixel_bound(tu + 1, edge, min_u, zoom);
        let c = pixel_bound(tv, edge, min_v, zoom);
        let d = pixel_bound(tv + 1, edge, min_v, zoom);
        let u_lo: i64 = if a < 0 { 0 } else { a };
        let u_hi: i64 = if b > self.width as i64 { self.width as i64 } else { b };
        let v_lo: i64 = if c < 0 { 0 } else { c };
        let v_hi: i64 = if d > self.height as i64 { self.height as i64 } else { d };
        if u_lo >= u_hi || v_lo >= v_hi {
            return None;
        }
        Some(
            Rect {
                u_lo: u_lo as usize,
                u_hi: u_hi as usize,
                v_lo: v_lo as usize,
                v_hi: v_hi as usize,
            },
        )
    }
}

/// A rectangle painted as far as row `v`, and in it as far as column `u`.
pub open spec fn partly_painted(
    pixels: Seq<u8>,
    width: int,
    r: Rect,
    value: spec_fn(int, int) -> u8,
    v: int,
    u: int,
) -> Seq<u8> {
    Seq::new(
        pixels.len(),
        |i: int|
            if r.u_lo <= i % width < r.u_hi && r.v_lo <= i / width && (i / width < v || (i / width
                == v && i % width < u)) {
                value(i % width, i / width)
            } else {
                pixels[i]
            },
    )
}

/// A pixel's row and column determine its place.
pub proof fn lemma_row_and_column(width: int, u: int, v: int, height: int)
    requires
        0 <= u < width,
        0 <= v < height,
    ensures
        0 <= v * width + u < width * height,
        (v * width + u) / width == v,
        (v * width + u) % width == u,
{
    vstd::arithmetic::div_mod::lemma_fundamental_div_mod_converse(v * width + u, width, v, u);
    assert(0 <= v * width + u < width * height) by (nonlinear_arith)
        requires
            0 <= u < width,
            0 <= v < height,
    ;
}

/// A pixel's place determines its row and column.
pub proof fn lemma_same_place(width: int, i: int, u: int, v: int)
    requires
        width > 0,
        0 <= i,
        i % width == u,
        i / width == v,
    ensures
        i == v * width + u,
{
    vstd::arithmetic::div_mod::lemma_fundamental_div_mod(i, width);
    assert(width * v == v * width) by (nonlinear_arith);
}

impl SliceView {
    fn voxel_at(&self, lod: u8, world_u: i64, world_v: i64) -> (off: usize)
        requires
            self.ok(),
            lod <= 24,
            self.depth() >= 0,
            0 <= world_u,
            0 <= world_v,
        ensures
            off < CHUNK_VOXELS,
            forall|u: int, v: int|
                world_u == self.min_u() + u * self.zoom && world_v == self.min_v() + v * self.zoom
                    ==> off == #[trigger] self.voxel_shown(lod, u, v),
    {
        proof {
            chunk::lemma_pow2_bounds(lod as nat);
        }
        let s: i64 = pow2_u64(lod) as i64;
        let a = floor_div(world_u, s);
        let b = floor_div(world_v, s);
        let c = floor_div(self.center[self.plane_axis] as i64, s);
        let mut at: [u64; 3] = [0; 3];
        at[self.u_axis] = a as u64;
        at[self.v_axis] = b as u64;
        at[self.plane_axis] = c as u64;
        volume::voxel_offset(at[0], at[1], at[2])
    }

    /// Paints a tile's pixels from a chunk of level `lod`, or as empty.
    fn fill_rect(
        &self,
        image: &mut Image,
        rect: Rect,
        target_lod: u8,
        tu: i64,
        tv: i64,
        lod: u8,
        chunk: Option<&[u8]>,
        filter: &[u8; 256],
    )
        requires
            self.ok(),
            self.depth() >= 0,
            target_lod <= 24,
            lod <= 24,
            0 <= tu,
            0 <= tv,
            old(image).wf(),
            old(image).width == self.width,
            old(image).height == self.height,
            rect.u_lo < rect.u_hi <= self.width,
            rect.v_lo < rect.v_hi <= self.height,
            rect.u_lo == first_pixel(self.min_u(), self.zoom as int, tile_edge(target_lod), tu as int),
            rect.u_hi == end_pixel(
                self.min_u(),
                self.zoom as int,
                tile_edge(target_lod),
                tu as int,
                self.width as int,
            ),
            rect.v_lo == first_pixel(self.min_v(), self.zoom as int, tile_edge(target_lod), tv as int),
            rect.v_hi == end_pixel(
                self.min_v(),
                self.zoom as int,
                tile_edge(target_lod),
                tv as int,
                self.height as int,
            ),
            chunk matches Some(c) ==> c.len() == CHUNK_VOXELS,
        ensures
            final(image).width == old(image).width,
            final(image).height == old(image).height,
            final(image).pixels@ == rect_painted(
                old(image).pixels@,
                self.width as int,
                rect,
                self.pixel_values(
                    lod,
                    match chunk {
                        Some(c) => Some(c@),
                        None => None,
                    },
                    *filter,
                ),
            ),
    {
        let (min_u, _, min_v, _) = self.spans();
        let zoom: i64 = self.zoom as i64;
        let w: usize = self.width;
        let ghost from = match chunk {
            Some(c) => Some(c@),
            None => None,
        };
        let ghost value = self.pixel_values(lod, from, *filter);
        let ghost before = image.pixels@;
        proof {
            self.lemma_canvas_fits();
        }
        let mut v: usize = rect.v_lo;
        assert(image.pixels@ =~= partly_painted(
            before,
            w as int,
            rect,
            value,
            v as int,
            rect.u_lo as int,
        ));
        while v < rect.v_hi
            invariant
                self.ok(),
                self.depth() >= 0,
                target_lod <= 24,
                lod <= 24,
                0 <= tu,
                0 <= tv,
                w == self.width,
                zoom == self.zoom,
                min_u == self.min_u(),
                min_v == self.min_v(),
                -0x1_0000_0000 <= min_u <= 0x1_0000_0000,
                -0x1_0000_0000 <= min_v <= 0x1_0000_0000,
                self.width <= i32::MAX,
                self.height <= i32::MAX,
                image.width == self.width,
                image.height == self.height,
                before.len() == self.width * self.height,
                rect.u_lo < rect.u_hi <= self.width,
                rect.v_lo < rect.v_hi <= self.height,
                rect.v_lo <= v <= rect.v_hi,
                rect.u_lo == first_pixel(
                    self.min_u(),
                    self.zoom as int,
                    tile_edge(target_lod),
                    tu as int,
                ),
                rect.u_hi == end_pixel(
                    self.min_u(),
                    self.zoom as int,
                    tile_edge(target_lod),
                    tu as int,
                    self.width as int,
                ),
                rect.v_lo == first_pixel(
                    self.min_v(),
                    self.zoom as int,
                    tile_edge(target_lod),
                    tv as int,
                ),
                rect.v_hi == end_pixel(
                    self.min_v(),
                    self.zoom as int,
                    tile_edge(target_lod),
                    tv as int,
                    self.height as int,
                ),
                chunk matches Some(c) ==> c.len() == CHUNK_VOXELS,
                from == match chunk {
                    Some(c) => Some(c@),
                    None => None,
                },
                value == self.pixel_values(lod, from, *filter),
                image.pixels@ == partly_painted(
                    before,
                    w as int,
                    rect,
                    value,
                    v as int,
                    rect.u_lo as int,
                ),
            decreases rect.v_hi - v,
        {
            proof {
                law_pixel_belongs_to_one_tile(
                    self.min_v(),
                    self.zoom as int,
                    target_lod,
                    tv as int,
                    self.height as int,
                    v as int,
                );
                lemma_in_tile_is_positive(self.min_v() + v * self.zoom, target_lod, tv as int);
                assert(0 <= v * self.zoom <= 0x7fff_ffff * 255) by (nonlinear_arith)
                    requires
                        0 <= v <= 0x7fff_ffff,
                        0 <= self.zoom <= 255,
                ;
            }
            let world_v: i64 = min_v + (v as i64) * zoom;
            let mut u: usize = rect.u_lo;
            while u < rect.u_hi
                invariant
                    self.ok(),
                    self.depth() >= 0,
                    target_lod <= 24,
                    lod <= 24,
                    0 <= tu,
                    w == self.width,
                    zoom == self.zoom,
                    min_u == self.min_u(),
                    min_v == self.min_v(),
                    -0x1_0000_0000 <= min_u <= 0x1_0000_0000,
                    self.width <= i32::MAX,
                    self.height <= i32::MAX,
                    image.width == self.width,
                    image.height == self.height,
                    before.len() == self.width * self.height,
                    rect.u_lo < rect.u_hi <= self.width,
                    rect.v_lo <= v < rect.v_hi <= self.height,
                    rect.u_lo <= u <= rect.u_hi,
                    rect.u_lo == first_pixel(
                        self.min_u(),
                        self.zoom as int,
                        tile_edge(target_lod),
                        tu as int,
                    ),
                    rect.u_hi == end_pixel(
                        self.min_u(),
                        self.zoom as int,
                        tile_edge(target_lod),
                        tu as int,
                        self.width as int,
                    ),
                    world_v == self.min_v() + v * self.zoom,
                    world_v >= 0,
                    chunk matches Some(c) ==> c.len() == CHUNK_VOXELS,
                    from == match chunk {
                        Some(c) => Some(c@),
                        None => None,
                    },
                    value == self.pixel_values(lod, from, *filter),
                    image.pixels@ == partly_painted(
                        before,
                        w as int,
                        rect,
                        value,
                        v as int,
                        u as int,
                    ),
                decreases rect.u_hi - u,
            {
                proof {
                    law_pixel_belongs_to_one_tile(
                        self.min_u(),
                        self.zoom as int,
                        target_lod,
                        tu as int,
                        self.width as int,
                        u as int,
                    );
                    lemma_in_tile_is_positive(self.min_u() + u * self.zoom, target_lod, tu as int);
                    assert(0 <= u * self.zoom <= 0x7fff_ffff * 255) by (nonlinear_arith)
                        requires
                            0 <= u <= 0x7fff_ffff,
                            0 <= self.zoom <= 255,
                    ;
                    lemma_row_and_column(w as int, u as int, v as int, self.height as int);
                }
                let world_u: i64 = min_u + (u as i64) * zoom;
                let b: u8 = match chunk {
                    Some(c) => filter[c[self.voxel_at(lod, world_u, world_v)] as usize],
                    None => filter[0],
                };
                assert(b == value(u as int, v as int));
                let ghost was = image.pixels@;
                assert(image.pixels.len() == image.pixels@.len());
                proof {
                    assert(0 <= v * w <= v * w + u);
                }
                image.pixels[v * w + u] = b;
                proof {
                    let at = v * w + u;
                    assert forall|i: int| 0 <= i < before.len() implies #[trigger] image.pixels@[i]
                        == partly_painted(before, w as int, rect, value, v as int, u + 1)[i] by {
                        if i % (w as int) == u && i / (w as int) == v {
                            lemma_same_place(w as int, i, u as int, v as int);
                        } else {
                            assert(i != at);
                            assert(image.pixels@[i] == was[i]);
                        }
                    }
                    assert(image.pixels@ =~= partly_painted(
                        before,
                        w as int,
                        rect,
                        value,
                        v as int,
                        u + 1,
                    ));
                }
                u = u + 1;
            }
            assert(image.pixels@ =~= partly_painted(
                before,
                w as int,
                rect,
                value,
                v + 1,
                rect.u_lo as int,
            ));
            v = v + 1;
        }
        assert(image.pixels@ =~= rect_painted(before, w as int, rect, value));
    }
}

proof fn lemma_in_tile_is_positive(w: int, lod: u8, t: int)
    requires
        lod <= 24,
        t >= 0,
        w / tile_edge(lod) == t,
    ensures
        w >= 0,
{
    chunk::lemma_pow2_bounds(lod as nat);
    let e = tile_edge(lod);
    assert(w >= 0) by (nonlinear_arith)
        requires
            e >= 1,
            w / e >= 0,
    ;
}

/// What painting a tile comes to (see `TilePaint`). A chunk known to be absent
/// at a finer level is painted as empty, whatever coarser levels hold.
pub open spec fn tile_painted(
    view: &SliceView,
    chunks: Map<ChunkKey, SlotModel>,
    store: &DiskStore,
    maps: Seq<ShardMap>,
    lod: u8,
    max_lod: u8,
    tu: int,
    tv: int,
    target_state: ChunkState,
    is_downloading: bool,
    debug_overlay: bool,
) -> TilePaint {
    let target = view.tile_key(lod, tu, tv);
    let shown = shown_level(chunks, target, target_state, 0, max_lod - lod);
    let shown_lod = match shown {
        Some((l, _)) => Some(l),
        None => None,
    };
    let tint = if debug_overlay {
        overlay(lod, shown_lod, chunks[target].state, is_downloading)
    } else {
        None
    };
    let rect = view.rect(lod, tu, tv);
    if view.depth() < 0 || !view.shows(lod, tu, tv) {
        TilePaint::Offscreen
    } else {
        match shown {
            None => TilePaint::Left { rect, tint },
            Some((l, st)) => {
                let key = volume::ancestor(target, l - lod);
                if st is Resident && !volume::readable(store, maps, key) {
                    TilePaint::Open(ShardRequest { lod: l, shard: store.place(key).shard })
                } else {
                    TilePaint::Painted { rect, lod: l, tint }
                }
            },
        }
    }
}

/// The picture after painting a tile.
pub open spec fn tile_pixels(
    view: &SliceView,
    chunks: Map<ChunkKey, SlotModel>,
    store: &DiskStore,
    maps: Seq<ShardMap>,
    lod: u8,
    max_lod: u8,
    tu: int,
    tv: int,
    target_state: ChunkState,
    filter: [u8; 256],
    pixels: Seq<u8>,
) -> Seq<u8> {
    let target = view.tile_key(lod, tu, tv);
    match tile_painted(
        view,
        chunks,
        store,
        maps,
        lod,
        max_lod,
        tu,
        tv,
        target_state,
        false,
        false,
    ) {
        TilePaint::Painted { rect, lod: l, .. } => {
            let key = volume::ancestor(target, l - lod);
            let chunk = match shown_level(chunks, target, target_state, 0, max_lod - lod) {
                Some((_, ChunkState::Resident { .. })) => Some(
                    volume::contents_of(store, maps, key),
                ),
                _ => None,
            };
            rect_painted(pixels, view.width as int, rect, view.pixel_values(l, chunk, filter))
        },
        _ => pixels,
    }
}

impl SliceView {
    /// Paints one tile of a level from the finest level that has its data.
    /// `target_state` is what the cache has just answered for the tile's own
    /// chunk. `filter` maps voxel values to gray values.
    pub fn paint_tile(
        &self,
        cache: &Scheduler,
        store: &DiskStore,
        maps: &Vec<ShardMap>,
        lod: u8,
        max_lod: u8,
        tu: i64,
        tv: i64,
        target_state: ChunkState,
        is_downloading: bool,
        debug_overlay: bool,
        filter: &[u8; 256],
        image: &mut Image,
    ) -> (r: TilePaint)
        requires
            self.ok(),
            lod <= 24,
            max_lod <= 24,
            0 <= tu <= u32::MAX,
            0 <= tv <= u32::MAX,
            cache.wf(),
            store.wf(),
            volume::maps_ok(maps@, store),
            old(image).wf(),
            old(image).width == self.width,
            old(image).height == self.height,
        ensures
            r == tile_painted(
                self,
                cache.model().chunks,
                store,
                maps@,
                lod,
                max_lod,
                tu as int,
                tv as int,
                target_state,
                is_downloading,
                debug_overlay,
            ),
            final(image).wf(),
            final(image).width == old(image).width,
            final(image).height == old(image).height,
            final(image).pixels@ == tile_pixels(
                self,
                cache.model().chunks,
                store,
                maps@,
                lod,
                max_lod,
                tu as int,
                tv as int,
                target_state,
                *filter,
                old(image).pixels@,
            ),
    {
        let t = match self.tiles(lod) {
            Some(t) => t,
            None => {
                return TilePaint::Offscreen;
            },
        };
        let rect = match self.tile_rect(lod, tu, tv) {
            Some(rect) => rect,
            None => {
                return TilePaint::Offscreen;
            },
        };
        let target = self.key_at(lod, tu, tv, t.tile_pc);
        let shown = level_to_show(cache, target, target_state, max_lod);
        let shown_lod = match shown {
            Some((l, _)) => Some(l),
            None => None,
        };
        let tint = if debug_overlay {
            overlay_color_for(lod, shown_lod, cache.peek(target), is_downloading)
        } else {
            None
        };
        let (l, state) = match shown {
            Some(s) => s,
            None => {
                return TilePaint::Left { rect, tint };
            },
        };
        let resident = match state {
            ChunkState::Resident { .. } => true,
            _ => false,
        };
        if !resident {
            self.fill_rect(image, rect, lod, tu, tv, l, None, filter);
            return TilePaint::Painted { rect, lod: l, tint };
        }
        let key = volume::ancestor_of(target, l - lod);
        match volume::read_chunk(store, maps, key) {
            Some(chunk) => {
                self.fill_rect(image, rect, lod, tu, tv, l, Some(chunk), filter);
                TilePaint::Painted { rect, lod: l, tint }
            },
            None => TilePaint::Open(ShardRequest { lod: l, shard: store.shard_of_chunk(key) }),
        }
    }
}

/// The tiles of column `tu`, `n` of them from `lo`.
pub open spec fn column(tu: int, lo: int, n: nat) -> Seq<(i64, i64)> {
    Seq::new(n, |i: int| (tu as i64, (lo + i) as i64))
}

/// The tiles of `n` columns from `lo_u`, `m` of each from `lo_v`.
pub open spec fn columns(lo_u: int, n: nat, lo_v: int, m: nat) -> Seq<(i64, i64)>
    decreases n,
{
    if n == 0 {
        Seq::empty()
    } else {
        columns(lo_u, (n - 1) as nat, lo_v, m) + column(lo_u + n - 1, lo_v, m)
    }
}

/// All tiles of a level that a view covers, column by column.
pub open spec fn all_tiles(view: &SliceView, lod: u8) -> Seq<(i64, i64)> {
    if view.depth() < 0 {
        Seq::empty()
    } else {
        columns(
            first_tile(view.min_u(), lod),
            span(first_tile(view.min_u(), lod), view.max_u() / tile_edge(lod)),
            first_tile(view.min_v(), lod),
            span(first_tile(view.min_v(), lod), view.max_v() / tile_edge(lod)),
        )
    }
}

/// Whether tile number `i` waits for a shard to be opened, and for which.
pub open spec fn tile_blocked(
    view: &SliceView,
    chunks: Map<ChunkKey, SlotModel>,
    store: &DiskStore,
    maps: Seq<ShardMap>,
    lod: u8,
    max_lod: u8,
    states: Seq<ChunkState>,
    i: int,
) -> Option<ShardRequest> {
    let tile = all_tiles(view, lod)[i];
    match tile_painted(
        view,
        chunks,
        store,
        maps,
        lod,
        max_lod,
        tile.0 as int,
        tile.1 as int,
        states[i],
        false,
        false,
    ) {
        TilePaint::Open(q) => Some(q),
        _ => None,
    }
}

/// The picture after the first `n` tiles were painted, one after the other.
pub open spec fn tiles_painted(
    view: &SliceView,
    chunks: Map<ChunkKey, SlotModel>,
    store: &DiskStore,
    maps: Seq<ShardMap>,
    lod: u8,
    max_lod: u8,
    states: Seq<ChunkState>,
    filter: [u8; 256],
    pixels: Seq<u8>,
    n: int,
) -> Seq<u8>
    decreases n,
{
    if n <= 0 {
        pixels
    } else {
        let tile = all_tiles(view, lod)[n - 1];
        tile_pixels(
            view,
            chunks,
            store,
            maps,
            lod,
            max_lod,
            tile.0 as int,
            tile.1 as int,
            states[n - 1],
            filter,
            tiles_painted(view, chunks, store, maps, lod, max_lod, states, filter, pixels, n - 1),
        )
    }
}

impl SliceView {
    /// All tiles of a level that the view covers, column by column.
    pub fn tile_list(&self, lod: u8) -> (out: Vec<(i64, i64)>)
        requires
            self.ok(),
            lod <= 24,
        ensures
            out@ == all_tiles(self, lod),
            tiles_ok(out@),
    {
        let mut out: Vec<(i64, i64)> = Vec::new();
        let t = match self.tiles(lod) {
            Some(t) => t,
            None => {
                return out;
            },
        };
        let ghost m = span(t.tile_v_lo as int, t.tile_v_hi as int);
        let mut tu: i64 = t.tile_u_lo;
        while tu <= t.tile_u_hi
            invariant
                0 <= t.tile_u_lo <= tu,
                0 <= t.tile_v_lo,
                t.tile_u_hi <= u32::MAX,
                t.tile_v_hi <= u32::MAX,
                m == span(t.tile_v_lo as int, t.tile_v_hi as int),
                tu - t.tile_u_lo <= span(t.tile_u_lo as int, t.tile_u_hi as int),
                out@ == columns(
                    t.tile_u_lo as int,
                    (tu - t.tile_u_lo) as nat,
                    t.tile_v_lo as int,
                    m,
                ),
                tiles_ok(out@),
            decreases t.tile_u_hi + 1 - tu,
        {
            let ghost whole = out@;
            let mut tv: i64 = t.tile_v_lo;
            assert(whole + column(tu as int, t.tile_v_lo as int, 0) =~= whole);
            while tv <= t.tile_v_hi
                invariant
                    0 <= tu <= u32::MAX,
                    0 <= t.tile_v_lo <= tv,
                    t.tile_v_hi <= u32::MAX,
                    m == span(t.tile_v_lo as int, t.tile_v_hi as int),
                    tv - t.tile_v_lo <= m,
                    out@ == whole + column(
                        tu as int,
                        t.tile_v_lo as int,
                        (tv - t.tile_v_lo) as nat,
                    ),
                    tiles_ok(out@),
                decreases t.tile_v_hi + 1 - tv,
            {
                let ghost before = out@;
                out.push((tu, tv));
                assert(out@ =~= whole + column(
                    tu as int,
                    t.tile_v_lo as int,
                    (tv + 1 - t.tile_v_lo) as nat,
                ));
                assert(tiles_ok(out@)) by {
                    assert forall|i: int| 0 <= i < out@.len() implies 0 <= (#[trigger] out@[i]).0
                        <= u32::MAX && 0 <= out@[i].1 <= u32::MAX by {
                        if i < before.len() {
                            assert(out@[i] == before[i]);
                        }
                    }
                }
                tv = tv + 1;
            }
            assert(tv - t.tile_v_lo == m);
            tu = tu + 1;
        }
        assert(tu - t.tile_u_lo == span(t.tile_u_lo as int, t.tile_u_hi as int));
        out
    }

    /// The chunks of the tiles of a level, which painting asks the cache for.
    pub fn tile_chunks(&self, lod: u8) -> (out: Vec<ChunkKey>)
        requires
            self.ok(),
            lod <= 24,
        ensures
            out@ == all_tiles(self, lod).map_values(
                |t: (i64, i64)| self.tile_key(lod, t.0 as int, t.1 as int),
            ),
    {
        let mut out: Vec<ChunkKey> = Vec::new();
        let tiles = self.tile_list(lod);
        let t = match self.tiles(lod) {
            Some(t) => t,
            None => {
                assert(out@ =~= all_tiles(self, lod).map_values(
                    |t: (i64, i64)| self.tile_key(lod, t.0 as int, t.1 as int),
                ));
                return out;
            },
        };
        let mut i: usize = 0;
        while i < tiles.len()
            invariant
                self.ok(),
                i <= tiles@.len(),
                tiles_ok(tiles@),
                t.tile_pc == self.depth() / tile_edge(lod),
                0 <= t.tile_pc <= i32::MAX,
                out@.len() == i,
                forall|k: int|
                    0 <= k < i ==> #[trigger] out@[k] == self.tile_key(
                        lod,
                        tiles@[k].0 as int,
                        tiles@[k].1 as int,
                    ),
            decreases tiles.len() - i,
        {
            let tile = tiles[i];
            assert(0 <= tiles@[i as int].0 <= u32::MAX && 0 <= tiles@[i as int].1 <= u32::MAX);
            out.push(self.key_at(lod, tile.0, tile.1, t.tile_pc));
            i = i + 1;
        }
        assert(out@ =~= all_tiles(self, lod).map_values(
            |t: (i64, i64)| self.tile_key(lod, t.0 as int, t.1 as int),
        ));
        out
    }

    /// Paints the tiles of a level, one after the other, until a shard has to
    /// be opened first. `states` is what the cache has just answered for each
    /// tile's chunk, `downloading` whether it is on the wire. Returns how each
    /// tile was shown.
    pub fn paint(
        &self,
        cache: &Scheduler,
        store: &DiskStore,
        maps: &Vec<ShardMap>,
        lod: u8,
        max_lod: u8,
        states: &Vec<ChunkState>,
        downloading: &Vec<bool>,
        debug_overlay: bool,
        filter: &[u8; 256],
        image: &mut Image,
    ) -> (r: Result<Vec<TilePaint>, ShardRequest>)
        requires
            self.ok(),
            lod <= 24,
            max_lod <= 24,
            cache.wf(),
            store.wf(),
            volume::maps_ok(maps@, store),
            old(image).wf(),
            old(image).width == self.width,
            old(image).height == self.height,
            states@.len() == all_tiles(self, lod).len(),
            downloading@.len() == all_tiles(self, lod).len(),
        ensures
            final(image).wf(),
            final(image).width == old(image).width,
            final(image).height == old(image).height,
            match r {
                Ok(paints) => {
                    &&& paints@.len() == all_tiles(self, lod).len()
                    &&& forall|i: int|
                        0 <= i < paints@.len() ==> {
                            &&& #[trigger] paints@[i] == tile_painted(
                                self,
                                cache.model().chunks,
                                store,
                                maps@,
                                lod,
                                max_lod,
                                all_tiles(self, lod)[i].0 as int,
                                all_tiles(self, lod)[i].1 as int,
                                states@[i],
                                downloading@[i],
                                debug_overlay,
                            )
                            &&& !(paints@[i] is Open)
                        }
                    &&& final(image).pixels@ == tiles_painted(
                        self,
                        cache.model().chunks,
                        store,
                        maps@,
                        lod,
                        max_lod,
                        states@,
                        *filter,
                        old(image).pixels@,
                        all_tiles(self, lod).len() as int,
                    )
                },
                Err(q) => exists|k: int|
                    {
                        &&& 0 <= k < all_tiles(self, lod).len()
                        &&& #[trigger] tile_blocked(
                            self,
                            cache.model().chunks,
                            store,
                            maps@,
                            lod,
                            max_lod,
                            states@,
                            k,
                        ) == Some(q)
                        &&& forall|i: int|
                            0 <= i < k ==> #[trigger] tile_blocked(
                                self,
                                cache.model().chunks,
                                store,
                                maps@,
                                lod,
                                max_lod,
                                states@,
                                i,
                            ) is None
                        &&& final(image).pixels@ == tiles_painted(
                            self,
                            cache.model().chunks,
                            store,
                            maps@,
                            lod,
                            max_lod,
                            states@,
                            *filter,
                            old(image).pixels@,
                            k,
                        )
                    },
            },
    {
        let tiles = self.tile_list(lod);
        let mut paints: Vec<TilePaint> = Vec::new();
        let ghost chunks = cache.model().chunks;
        let ghost before = image.pixels@;
        let mut i: usize = 0;
        while i < tiles.len()
            invariant
                self.ok(),
                lod <= 24,
                max_lod <= 24,
                cache.wf(),
                chunks == cache.model().chunks,
                store.wf(),
                volume::maps_ok(maps@, store),
                image.wf(),
                image.width == self.width,
                image.height == self.height,
                image.width == old(image).width,
                image.height == old(image).height,
                before == old(image).pixels@,
                tiles@ == all_tiles(self, lod),
                tiles_ok(tiles@),
                states@.len() == tiles@.len(),
                downloading@.len() == tiles@.len(),
                i <= tiles@.len(),
                paints@.len() == i,
                forall|k: int|
                    0 <= k < i ==> {
                        &&& #[trigger] paints@[k] == tile_painted(
                            self,
                            chunks,
                            store,
                            maps@,
                            lod,
                            max_lod,
                            tiles@[k].0 as int,
                            tiles@[k].1 as int,
                            states@[k],
                            downloading@[k],
                            debug_overlay,
                        )
                        &&& !(paints@[k] is Open)
                    },
                forall|k: int|
                    0 <= k < i ==> #[trigger] tile_blocked(
                        self,
                        chunks,
                        store,
                        maps@,
                        lod,
                        max_lod,
                        states@,
                        k,
                    ) is None,
                image.pixels@ == tiles_painted(
                    self,
                    chunks,
                    store,
                    maps@,
                    lod,
                    max_lod,
                    states@,
                    *filter,
                    before,
                    i as int,
                ),
            decreases tiles.len() - i,
        {
            let tile = tiles[i];
            assert(0 <= tiles@[i as int].0 <= u32::MAX && 0 <= tiles@[i as int].1 <= u32::MAX);
            let ghost blocked = tile_blocked(
                self,
                chunks,
                store,
                maps@,
                lod,
                max_lod,
                states@,
                i as int,
            );
            let shown = self.paint_tile(
                cache,
                store,
                maps,
                lod,
                max_lod,
                tile.0,
                tile.1,
                states[i],
                downloading[i],
                debug_overlay,
                filter,
                image,
            );
            match shown {
                TilePaint::Open(q) => {
                    assert(blocked == Some(q));
                    return Err(q);
                },
                _ => {
                    assert(blocked is None);
                    paints.push(shown);
                },
            }
            i = i + 1;
        }
        Ok(paints)
    }
}

/// Painting a tile changes no pixel outside its rectangle.
pub proof fn law_tile_keeps_to_its_pixels(
    view: SliceView,
    chunks: Map<ChunkKey, SlotModel>,
    store: DiskStore,
    maps: Seq<ShardMap>,
    lod: u8,
    max_lod: u8,
    tu: int,
    tv: int,
    target_state: ChunkState,
    filter: [u8; 256],
    pixels: Seq<u8>,
    i: int,
)
    requires
        0 <= i < pixels.len(),
        ({
            let r = view.rect(lod, tu, tv);
            let w = view.width as int;
            !(r.u_lo <= i % w < r.u_hi && r.v_lo <= i / w < r.v_hi)
        }),
    ensures
        tile_pixels(
            &view,
            chunks,
            &store,
            maps,
            lod,
            max_lod,
            tu,
            tv,
            target_state,
            filter,
            pixels,
        )[i] == pixels[i],
{
}

/// The point of the volume, in voxels of the finest level, that a pixel shows:
/// the view's own position, moved along the canvas from its middle.
pub open spec fn point_of(view: &SliceView, u: int, v: int) -> Seq<int> {
    Seq::new(
        3,
        |a: int|
            if a == view.u_axis {
                view.center@[a] - (view.zoom * view.width) / 2 + u * view.zoom
            } else if a == view.v_axis {
                view.center@[a] - (view.zoom * view.height) / 2 + v * view.zoom
            } else {
                view.center@[a] as int
            },
    )
}

/// Whether a point has no coordinate below zero.
pub open spec fn not_below_zero(w: Seq<int>) -> bool {
    w[0] >= 0 && w[1] >= 0 && w[2] >= 0
}

/// The voxel of a level that a point lies in.
pub open spec fn voxel_of(w: Seq<int>, lod: u8) -> Seq<int> {
    let s = chunk::pow2(lod as nat) as int;
    seq![w[0] / s, w[1] / s, w[2] / s]
}

/// The chunk of a level that a point lies in.
pub open spec fn chunk_of_point(w: Seq<int>, lod: u8) -> ChunkKey {
    let s = voxel_of(w, lod);
    ChunkKey { lod, x: (s[0] / 64) as u32, y: (s[1] / 64) as u32, z: (s[2] / 64) as u32 }
}

/// What a pixel is to be that shows a point: the filtered voxel that the point
/// lies in, at the finest level whose chunk over it has a known fate; the
/// filtered zero if that chunk is known to be absent; and what it was before
/// where no level has anything to show.
pub open spec fn pixel_of_point(
    chunks: Map<ChunkKey, SlotModel>,
    store: &DiskStore,
    maps: Seq<ShardMap>,
    lod: u8,
    max_lod: u8,
    w: Seq<int>,
    state: ChunkState,
    filter: [u8; 256],
    was: u8,
) -> u8 {
    match shown_level(chunks, chunk_of_point(w, lod), state, 0, max_lod - lod) {
        None => was,
        Some((l, st)) => if !(st is Resident) {
            filter@[0]
        } else if volume::readable(store, maps, chunk_of_point(w, l)) {
            let s = voxel_of(w, l);
            filter@[volume::contents_of(store, maps, chunk_of_point(w, l))[4096 * (s[2] % 64) + 64 * (s[1]
                % 64) + s[0] % 64] as int]
        } else {
            was
        },
    }
}

proof fn lemma_divide_twice(a: int, b: int, c: int)
    requires
        0 <= a,
        b > 0,
        c > 0,
    ensures
        b * c > 0,
        (a / b) / c == a / (b * c),
        0 <= a / b <= a,
{
    vstd::arithmetic::div_mod::lemma_div_denominator(a, b, c);
    assert(b * c > 0) by (nonlinear_arith)
        requires
            b > 0,
            c > 0,
    ;
    assert(0 <= a / b <= a) by (nonlinear_arith)
        requires
            0 <= a,
            b > 0,
    ;
}

/// The bounds of a point that a pixel shows.
proof fn lemma_point_fits(view: SliceView, u: int, v: int)
    requires
        view.ok(),
        0 <= u < view.width,
        0 <= v < view.height,
    ensures
        ({
            let w = point_of(&view, u, v);
            &&& w[view.u_axis as int] == view.min_u() + u * view.zoom
            &&& w[view.v_axis as int] == view.min_v() + v * view.zoom
            &&& w[view.plane_axis as int] == view.depth()
            &&& view.min_u() <= w[view.u_axis as int] <= view.max_u()
            &&& view.min_v() <= w[view.v_axis as int] <= view.max_v()
            &&& w[0] <= 0x1_0000_0000
            &&& w[1] <= 0x1_0000_0000
            &&& w[2] <= 0x1_0000_0000
            &&& view.max_u() <= 0x1_0000_0000
            &&& view.max_v() <= 0x1_0000_0000
        }),
{
    view.lemma_canvas_fits();
    let z = view.zoom as int;
    assert(0 <= u * z <= z * view.width - z) by (nonlinear_arith)
        requires
            0 <= u < view.width,
            z >= 1,
    ;
    assert(0 <= v * z <= z * view.height - z) by (nonlinear_arith)
        requires
            0 <= v < view.height,
            z >= 1,
    ;
}

/// The chunk over a pixel's point, levels up from the tile's own.
proof fn lemma_chunk_over_point(view: SliceView, lod: u8, l: u8, u: int, v: int)
    requires
        view.ok(),
        lod <= l <= 24,
        0 <= u < view.width,
        0 <= v < view.height,
        not_below_zero(point_of(&view, u, v)),
    ensures
        ({
            let w = point_of(&view, u, v);
            let tu = w[view.u_axis as int] / tile_edge(lod);
            let tv = w[view.v_axis as int] / tile_edge(lod);
            let s = voxel_of(w, l);
            &&& view.tile_key(lod, tu, tv) == chunk_of_point(w, lod)
            &&& volume::ancestor(chunk_of_point(w, lod), l - lod) == chunk_of_point(w, l)
            &&& view.voxel_shown(l, u, v) == 4096 * (s[2] % 64) + 64 * (s[1] % 64) + s[0] % 64
        }),
{
    let w = point_of(&view, u, v);
    lemma_point_fits(view, u, v);
    let e = tile_edge(lod);
    let p = chunk::pow2(lod as nat) as int;
    let q = chunk::pow2((l - lod) as nat) as int;
    let r = chunk::pow2(l as nat) as int;
    chunk::lemma_pow2_bounds(lod as nat);
    chunk::lemma_pow2_bounds((l - lod) as nat);
    chunk::lemma_pow2_bounds(l as nat);
    chunk::lemma_pow2_add(lod as nat, (l - lod) as nat);
    assert(r == p * q);
    assert(p * 64 == e);
    assert(e * q == r * 64) by (nonlinear_arith)
        requires
            e == 64 * p,
            r == p * q,
    ;
    assert forall|a: int| 0 <= a < 3 implies {
        &&& #[trigger] w[a] / e == (w[a] / p) / 64
        &&& (w[a] / e) / q == (w[a] / r) / 64
        &&& 0 <= w[a] / e <= 0x400_0000
    } by {
        assert(w[a] >= 0);
        lemma_divide_twice(w[a], p, 64);
        lemma_divide_twice(w[a], e, q);
        lemma_divide_twice(w[a], r, 64);
        assert(w[a] / e <= 0x400_0000) by (nonlinear_arith)
            requires
                0 <= w[a] <= 0x1_0000_0000,
                e >= 64,
        ;
    }
    assert(w[0] / e == (w[0] / p) / 64 && w[1] / e == (w[1] / p) / 64 && w[2] / e == (w[2] / p) / 64);
}

/// The pixel of a tile that a pixel's point lies in is what the point has to
/// show.
proof fn lemma_tile_pixel(
    view: SliceView,
    chunks: Map<ChunkKey, SlotModel>,
    store: &DiskStore,
    maps: Seq<ShardMap>,
    lod: u8,
    max_lod: u8,
    tu: int,
    tv: int,
    state: ChunkState,
    filter: [u8; 256],
    pixels: Seq<u8>,
    u: int,
    v: int,
)
    requires
        view.ok(),
        lod <= 24,
        max_lod <= 24,
        0 <= u < view.width,
        0 <= v < view.height,
        pixels.len() == view.width * view.height,
        not_below_zero(point_of(&view, u, v)),
        tu == point_of(&view, u, v)[view.u_axis as int] / tile_edge(lod),
        tv == point_of(&view, u, v)[view.v_axis as int] / tile_edge(lod),
    ensures
        tile_pixels(&view, chunks, store, maps, lod, max_lod, tu, tv, state, filter, pixels)[v
            * view.width + u] == pixel_of_point(
            chunks,
            store,
            maps,
            lod,
            max_lod,
            point_of(&view, u, v),
            state,
            filter,
            pixels[v * view.width + u],
        ),
{
    let w = point_of(&view, u, v);
    let z = view.zoom as int;
    lemma_point_fits(view, u, v);
    lemma_row_and_column(view.width as int, u, v, view.height as int);
    law_pixel_belongs_to_one_tile(view.min_u(), z, lod, tu, view.width as int, u);
    law_pixel_belongs_to_one_tile(view.min_v(), z, lod, tv, view.height as int, v);
    assert(view.shows(lod, tu, tv));
    lemma_chunk_over_point(view, lod, lod, u, v);
    let target = chunk_of_point(w, lod);
    assert(view.tile_key(lod, tu, tv) == target);
    match shown_level(chunks, target, state, 0, max_lod - lod) {
        None => {},
        Some((l, st)) => {
            lemma_shown_within(chunks, target, state, 0, max_lod - lod);
            lemma_chunk_over_point(view, lod, l, u, v);
        },
    }
}

/// The level shown is one of those looked at, and its chunk's fate is known.
proof fn lemma_shown_within(
    chunks: Map<ChunkKey, SlotModel>,
    target: ChunkKey,
    state: ChunkState,
    shift: int,
    top: int,
)
    requires
        0 <= shift,
        target.lod + top <= 255,
        shown_level(chunks, target, state, shift, top) is Some,
    ensures
        ({
            let (l, st) = shown_level(chunks, target, state, shift, top)->0;
            &&& target.lod + shift <= l <= target.lod + top
            &&& st.terminal()
        }),
    decreases top + 1 - shift,
{
    if shift <= top {
        let at = if shift == 0 {
            Some(state)
        } else {
            chunks[volume::ancestor(target, shift)].state
        };
        if !(at matches Some(st) && st.terminal()) {
            lemma_shown_within(chunks, target, state, shift + 1, top);
        }
    }
}

/// Painting a tile leaves the pixels whose points lie in other tiles.
proof fn lemma_other_tile(
    view: SliceView,
    chunks: Map<ChunkKey, SlotModel>,
    store: &DiskStore,
    maps: Seq<ShardMap>,
    lod: u8,
    max_lod: u8,
    tu: int,
    tv: int,
    state: ChunkState,
    filter: [u8; 256],
    pixels: Seq<u8>,
    u: int,
    v: int,
)
    requires
        view.ok(),
        lod <= 24,
        0 <= u < view.width,
        0 <= v < view.height,
        pixels.len() == view.width * view.height,
        tu != (view.min_u() + u * view.zoom) / tile_edge(lod) || tv != (view.min_v() + v * view.zoom)
            / tile_edge(lod),
    ensures
        tile_pixels(&view, chunks, store, maps, lod, max_lod, tu, tv, state, filter, pixels)[v
            * view.width + u] == pixels[v * view.width + u],
        tile_pixels(&view, chunks, store, maps, lod, max_lod, tu, tv, state, filter, pixels).len()
            == pixels.len(),
{
    let z = view.zoom as int;
    lemma_row_and_column(view.width as int, u, v, view.height as int);
    law_pixel_belongs_to_one_tile(view.min_u(), z, lod, tu, view.width as int, u);
    law_pixel_belongs_to_one_tile(view.min_v(), z, lod, tv, view.height as int, v);
}

/// Where tile `k` of columns of `m` stands.
proof fn lemma_columns_at(lo_u: int, n: nat, lo_v: int, m: nat, k: int)
    requires
        0 <= k < n * m,
    ensures
        columns(lo_u, n, lo_v, m).len() == n * m,
        m > 0,
        0 <= k / (m as int) < n,
        0 <= k % (m as int) < m,
        columns(lo_u, n, lo_v, m)[k] == ((lo_u + k / (m as int)) as i64, (lo_v + k % (m as int)) as i64),
    decreases n,
{
    let w = m as int;
    assert(n > 0 && w > 0) by (nonlinear_arith)
        requires
            0 <= k < n * w,
            n >= 0,
            w >= 0,
    ;
    let before = columns(lo_u, (n - 1) as nat, lo_v, m);
    assert(n * m == (n - 1) * m + m) by (nonlinear_arith);
    lemma_columns_len(lo_u, (n - 1) as nat, lo_v, m);
    if k < (n - 1) * m {
        lemma_columns_at(lo_u, (n - 1) as nat, lo_v, m, k);
    } else {
        let j = k - (n - 1) * m;
        vstd::arithmetic::div_mod::lemma_fundamental_div_mod_converse(k, w, n - 1, j);
    }
}

proof fn lemma_columns_len(lo_u: int, n: nat, lo_v: int, m: nat)
    ensures
        columns(lo_u, n, lo_v, m).len() == n * m,
    decreases n,
{
    if n > 0 {
        lemma_columns_len(lo_u, (n - 1) as nat, lo_v, m);
        assert(n * m == (n - 1) * m + m) by (nonlinear_arith);
    } else {
        assert(n * m == 0) by (nonlinear_arith)
            requires
                n == 0,
        ;
    }
}

/// Tile `k` of a view, by its column and row.
proof fn lemma_tile_at(view: SliceView, lod: u8, k: int)
    requires
        view.ok(),
        lod <= 24,
        0 <= k < all_tiles(&view, lod).len(),
    ensures
        ({
            let lo_u = first_tile(view.min_u(), lod);
            let lo_v = first_tile(view.min_v(), lod);
            let m = span(lo_v, view.max_v() / tile_edge(lod)) as int;
            let t = all_tiles(&view, lod)[k];
            &&& view.depth() >= 0
            &&& m > 0
            &&& t.0 == lo_u + k / m
            &&& t.1 == lo_v + k % m
            &&& t.0 >= 0
            &&& t.1 >= 0
        }),
{
    let e = tile_edge(lod);
    chunk::lemma_pow2_bounds(lod as nat);
    view.lemma_canvas_fits();
    let lo_u = first_tile(view.min_u(), lod);
    let lo_v = first_tile(view.min_v(), lod);
    let n = span(lo_u, view.max_u() / e);
    let m = span(lo_v, view.max_v() / e);
    lemma_columns_len(lo_u, n, lo_v, m);
    lemma_columns_at(lo_u, n, lo_v, m, k);
    assert(view.max_u() / e < 0x1_0000_0000 && view.max_v() / e < 0x1_0000_0000) by (nonlinear_arith)
        requires
            view.max_u() <= 0x1_0000_0000,
            view.max_v() <= 0x1_0000_0000,
            e >= 64,
    ;
}

/// Every pixel whose point lies in the volume's octant is in one of the tiles
/// that are painted, and the chunk that is asked for there is the one that the
/// point lies in. No other tile has it.
pub proof fn law_every_point_has_its_tile(view: SliceView, lod: u8, u: int, v: int) -> (i: int)
    requires
        view.ok(),
        lod <= 24,
        0 <= u < view.width,
        0 <= v < view.height,
        not_below_zero(point_of(&view, u, v)),
    ensures
        ({
            let w = point_of(&view, u, v);
            let t = all_tiles(&view, lod)[i];
            &&& 0 <= i < all_tiles(&view, lod).len()
            &&& t.0 == w[view.u_axis as int] / (64 * (chunk::pow2(lod as nat) as int))
            &&& t.1 == w[view.v_axis as int] / (64 * (chunk::pow2(lod as nat) as int))
            &&& view.tile_key(lod, t.0 as int, t.1 as int) == chunk_of_point(w, lod)
            &&& forall|k: int|
                0 <= k < all_tiles(&view, lod).len() && k != i ==> #[trigger] all_tiles(&view, lod)[k] != t
        }),
{
    let w = point_of(&view, u, v);
    let e = tile_edge(lod);
    chunk::lemma_pow2_bounds(lod as nat);
    lemma_point_fits(view, u, v);
    lemma_chunk_over_point(view, lod, lod, u, v);
    let tu = w[view.u_axis as int] / e;
    let tv = w[view.v_axis as int] / e;
    lemma_quotient_order(view.min_u(), w[view.u_axis as int], e);
    lemma_quotient_order(w[view.u_axis as int], view.max_u(), e);
    lemma_quotient_order(view.min_v(), w[view.v_axis as int], e);
    lemma_quotient_order(w[view.v_axis as int], view.max_v(), e);
    lemma_quotient_order(0, w[view.u_axis as int], e);
    lemma_quotient_order(0, w[view.v_axis as int], e);
    assert(0int / e == 0) by (nonlinear_arith)
        requires
            e > 0,
    ;
    let lo_u = first_tile(view.min_u(), lod);
    let lo_v = first_tile(view.min_v(), lod);
    let n = span(lo_u, view.max_u() / e) as int;
    let m = span(lo_v, view.max_v() / e) as int;
    let (a, b) = (tu - lo_u, tv - lo_v);
    let i = a * m + b;
    lemma_row_and_column(m, b, a, n);
    lemma_columns_len(lo_u, n as nat, lo_v, m as nat);
    assert(m * n == n * m) by (nonlinear_arith);
    lemma_tile_at(view, lod, i);
    assert forall|k: int| 0 <= k < all_tiles(&view, lod).len() && k != i implies #[trigger] all_tiles(
        &view,
        lod,
    )[k] != all_tiles(&view, lod)[i] by {
        lemma_tile_at(view, lod, k);
        if all_tiles(&view, lod)[k] == all_tiles(&view, lod)[i] {
            lemma_same_place(m, k, b, a);
        }
    }
    i
}

proof fn lemma_quotient_order(a: int, b: int, d: int)
    requires
        a <= b,
        d > 0,
    ensures
        a / d <= b / d,
{
    assert(a / d <= b / d) by (nonlinear_arith)
        requires
            a <= b,
            d > 0,
    ;
}

proof fn lemma_pixel_after_tiles(
    view: SliceView,
    chunks: Map<ChunkKey, SlotModel>,
    store: &DiskStore,
    maps: Seq<ShardMap>,
    lod: u8,
    max_lod: u8,
    states: Seq<ChunkState>,
    filter: [u8; 256],
    pixels: Seq<u8>,
    u: int,
    v: int,
    i: int,
    n: int,
)
    requires
        view.ok(),
        lod <= 24,
        max_lod <= 24,
        0 <= u < view.width,
        0 <= v < view.height,
        pixels.len() == view.width * view.height,
        not_below_zero(point_of(&view, u, v)),
        0 <= n <= all_tiles(&view, lod).len(),
        ({
            let w = point_of(&view, u, v);
            let t = all_tiles(&view, lod)[i];
            &&& 0 <= i < all_tiles(&view, lod).len()
            &&& t.0 == w[view.u_axis as int] / tile_edge(lod)
            &&& t.1 == w[view.v_axis as int] / tile_edge(lod)
            &&& forall|k: int|
                0 <= k < all_tiles(&view, lod).len() && k != i ==> #[trigger] all_tiles(&view, lod)[k] != t
        }),
    ensures
        ({
            let after = tiles_painted(
                &view,
                chunks,
                store,
                maps,
                lod,
                max_lod,
                states,
                filter,
                pixels,
                n,
            );
            let at = v * view.width + u;
            &&& after.len() == pixels.len()
            &&& after[at] == if i < n {
                pixel_of_point(
                    chunks,
                    store,
                    maps,
                    lod,
                    max_lod,
                    point_of(&view, u, v),
                    states[i],
                    filter,
                    pixels[at],
                )
            } else {
                pixels[at]
            }
        }),
    decreases n,
{
    if n > 0 {
        lemma_pixel_after_tiles(
            view,
            chunks,
            store,
            maps,
            lod,
            max_lod,
            states,
            filter,
            pixels,
            u,
            v,
            i,
            n - 1,
        );
        let before = tiles_painted(
            &view,
            chunks,
            store,
            maps,
            lod,
            max_lod,
            states,
            filter,
            pixels,
            n - 1,
        );
        let t = all_tiles(&view, lod)[n - 1];
        lemma_point_fits(view, u, v);
        if n - 1 == i {
            lemma_tile_pixel(
                view,
                chunks,
                store,
                maps,
                lod,
                max_lod,
                t.0 as int,
                t.1 as int,
                states[i],
                filter,
                before,
                u,
                v,
            );
        } else {
            assert(all_tiles(&view, lod)[n - 1] != all_tiles(&view, lod)[i]);
            lemma_other_tile(
                view,
                chunks,
                store,
                maps,
                lod,
                max_lod,
                t.0 as int,
                t.1 as int,
                states[n - 1],
                filter,
                before,
                u,
                v,
            );
        }
    }
}

/// A painted picture shows the slice: every pixel whose point lies in the
/// volume's octant is what that point has to show (see `pixel_of_point`), by
/// what the cache answered for the chunk that the point lies in.
pub proof fn law_picture_shows_the_slice(
    view: SliceView,
    chunks: Map<ChunkKey, SlotModel>,
    store: &DiskStore,
    maps: Seq<ShardMap>,
    lod: u8,
    max_lod: u8,
    states: Seq<ChunkState>,
    filter: [u8; 256],
    pixels: Seq<u8>,
    u: int,
    v: int,
    i: int,
)
    requires
        view.ok(),
        lod <= 24,
        max_lod <= 24,
        0 <= u < view.width,
        0 <= v < view.height,
        pixels.len() == view.width * view.height,
        not_below_zero(point_of(&view, u, v)),
        0 <= i < all_tiles(&view, lod).len(),
        view.tile_key(lod, all_tiles(&view, lod)[i].0 as int, all_tiles(&view, lod)[i].1 as int)
            == chunk_of_point(point_of(&view, u, v), lod),
    ensures
        tiles_painted(
            &view,
            chunks,
            store,
            maps,
            lod,
            max_lod,
            states,
            filter,
            pixels,
            all_tiles(&view, lod).len() as int,
        )[v * view.width + u] == pixel_of_point(
            chunks,
            store,
            maps,
            lod,
            max_lod,
            point_of(&view, u, v),
            states[i],
            filter,
            pixels[v * view.width + u],
        ),
{
    let j = law_every_point_has_its_tile(view, lod, u, v);
    let (s, t) = (all_tiles(&view, lod)[i], all_tiles(&view, lod)[j]);
    lemma_tile_small(view, lod, i);
    lemma_tile_small(view, lod, j);
    assert(view.tile_key(lod, s.0 as int, s.1 as int) == view.tile_key(lod, t.0 as int, t.1 as int));
    assert(s == t);
    assert(i == j);
    lemma_pixel_after_tiles(
        view,
        chunks,
        store,
        maps,
        lod,
        max_lod,
        states,
        filter,
        pixels,
        u,
        v,
        j,
        all_tiles(&view, lod).len() as int,
    );
}

proof fn lemma_tile_small(view: SliceView, lod: u8, k: int)
    requires
        view.ok(),
        lod <= 24,
        0 <= k < all_tiles(&view, lod).len(),
    ensures
        0 <= all_tiles(&view, lod)[k].0 <= u32::MAX,
        0 <= all_tiles(&view, lod)[k].1 <= u32::MAX,
        0 <= view.depth() / tile_edge(lod) <= u32::MAX,
{
    let e = tile_edge(lod);
    chunk::lemma_pow2_bounds(lod as nat);
    view.lemma_canvas_fits();
    lemma_tile_at(view, lod, k);
    let lo_u = first_tile(view.min_u(), lod);
    let lo_v = first_tile(view.min_v(), lod);
    let n = span(lo_u, view.max_u() / e);
    let m = span(lo_v, view.max_v() / e);
    lemma_columns_len(lo_u, n, lo_v, m);
    lemma_columns_at(lo_u, n, lo_v, m, k);
    assert(view.max_u() / e < 0x1_0000_0000 && view.max_v() / e < 0x1_0000_0000) by (nonlinear_arith)
        requires
            view.max_u() <= 0x1_0000_0000,
            view.max_v() <= 0x1_0000_0000,
            e >= 64,
    ;
    assert(0 <= view.depth() / e <= view.depth()) by (nonlinear_arith)
        requires
            view.depth() >= 0,
            e >= 64,
    ;
}

/// A pixel painted from a chunk at hand is the filter of what reading the voxel
/// gives that its point lies in: painting and reading agree.
pub proof fn law_painting_agrees_with_reading(
    view: SliceView,
    vol: volume::UnifiedVolume,
    chunks: Map<ChunkKey, SlotModel>,
    store: &DiskStore,
    maps: Seq<ShardMap>,
    lod: u8,
    max_lod: u8,
    states: Seq<ChunkState>,
    filter: [u8; 256],
    pixels: Seq<u8>,
    u: int,
    v: int,
    i: int,
)
    requires
        view.ok(),
        vol.ok(store, maps),
        lod <= 24,
        max_lod <= 24,
        max_lod <= vol.max_lod,
        0 <= u < view.width,
        0 <= v < view.height,
        pixels.len() == view.width * view.height,
        0 <= i < all_tiles(&view, lod).len(),
        ({
            let w = point_of(&view, u, v);
            &&& not_below_zero(w)
            &&& w[0] < vol.extent@[0]
            &&& w[1] < vol.extent@[1]
            &&& w[2] < vol.extent@[2]
            &&& view.tile_key(lod, all_tiles(&view, lod)[i].0 as int, all_tiles(&view, lod)[i].1 as int)
                == chunk_of_point(w, lod)
            &&& shown_level(chunks, chunk_of_point(w, lod), states[i], 0, max_lod - lod) matches Some(
                (l, st),
            ) && st is Resident && volume::at_hand(store, maps, chunk_of_point(w, l))
        }),
    ensures
        ({
            let w = point_of(&view, u, v);
            let l = (shown_level(chunks, chunk_of_point(w, lod), states[i], 0, max_lod - lod)->0).0;
            volume::sampled(&vol, store, maps, voxel_of(w, l), l) == volume::Sampled::Value(
                volume::contents_of(store, maps, chunk_of_point(w, l))[4096 * (voxel_of(w, l)[2] % 64)
                    + 64 * (voxel_of(w, l)[1] % 64) + voxel_of(w, l)[0] % 64],
            )
        }),
        ({
            let w = point_of(&view, u, v);
            let l = (shown_level(chunks, chunk_of_point(w, lod), states[i], 0, max_lod - lod)->0).0;
            volume::sampled(&vol, store, maps, voxel_of(w, l), l) matches volume::Sampled::Value(b)
                && tiles_painted(
                &view,
                chunks,
                store,
                maps,
                lod,
                max_lod,
                states,
                filter,
                pixels,
                all_tiles(&view, lod).len() as int,
            )[v * view.width + u] == filter@[b as int]
        }),
{
    let w = point_of(&view, u, v);
    law_picture_shows_the_slice(
        view,
        chunks,
        store,
        maps,
        lod,
        max_lod,
        states,
        filter,
        pixels,
        u,
        v,
        i,
    );
    lemma_shown_within(chunks, chunk_of_point(w, lod), states[i], 0, max_lod - lod);
    let l = (shown_level(chunks, chunk_of_point(w, lod), states[i], 0, max_lod - lod)->0).0;
    let s = voxel_of(w, l);
    let k = chunk::pow2(l as nat) as int;
    chunk::lemma_pow2_bounds(l as nat);
    lemma_point_fits(view, u, v);
    lemma_scaled_back(w[0], k);
    lemma_scaled_back(w[1], k);
    lemma_scaled_back(w[2], k);
    let key = chunk_of_point(w, l);
    let (x, y, z) = (s[0] % 64, s[1] % 64, s[2] % 64);
    assert(s =~= seq![64 * key.x + x, 64 * key.y + y, 64 * key.z + z]);
    volume::law_voxel_is_read_from_its_chunk(vol, store, maps, key, x, y, z);
}

proof fn lemma_scaled_back(a: int, k: int)
    requires
        a >= 0,
        k > 0,
    ensures
        0 <= a / k <= a,
        (a / k) * k <= a,
{
    assert(0 <= a / k <= a && (a / k) * k <= a) by (nonlinear_arith)
        requires
            a >= 0,
            k > 0,
    ;
}

/// The level shown over a point is the finest whose chunk has a known fate: that
/// of every finer level is open.
pub proof fn law_finest_known_level_is_shown(
    chunks: Map<ChunkKey, SlotModel>,
    target: ChunkKey,
    state: ChunkState,
    top: int,
    shift: int,
)
    requires
        target.lod + top <= 255,
        0 <= shift <= top,
    ensures
        ({
            let at = if shift == 0 {
                Some(state)
            } else {
                chunks[volume::ancestor(target, shift)].state
            };
            match shown_level(chunks, target, state, 0, top) {
                Some((l, st)) => {
                    &&& target.lod + shift < l ==> !(at matches Some(a) && a.terminal())
                    &&& target.lod + shift == l ==> at == Some(st) && st.terminal()
                    &&& target.lod <= l <= target.lod + top
                },
                None => !(at matches Some(a) && a.terminal()),
            }
        }),
{
    lemma_finest_known(chunks, target, state, 0, top, shift);
    if shown_level(chunks, target, state, 0, top) is Some {
        lemma_shown_within(chunks, target, state, 0, top);
    }
}

proof fn lemma_finest_known(
    chunks: Map<ChunkKey, SlotModel>,
    target: ChunkKey,
    state: ChunkState,
    from: int,
    top: int,
    shift: int,
)
    requires
        target.lod + top <= 255,
        0 <= from <= shift <= top,
    ensures
        ({
            let at = if shift == 0 {
                Some(state)
            } else {
                chunks[volume::ancestor(target, shift)].state
            };
            match shown_level(chunks, target, state, from, top) {
                Some((l, st)) => {
                    &&& target.lod + shift < l ==> !(at matches Some(a) && a.terminal())
                    &&& target.lod + shift == l ==> at == Some(st)
                },
                None => !(at matches Some(a) && a.terminal()),
            }
        }),
    decreases shift - from,
{
    let here = if from == 0 {
        Some(state)
    } else {
        chunks[volume::ancestor(target, from)].state
    };
    if here matches Some(a) && a.terminal() {
    } else if from < shift {
        lemma_finest_known(chunks, target, state, from + 1, top, shift);
    } else if shown_level(chunks, target, state, from + 1, top) is Some {
        lemma_shown_within(chunks, target, state, from + 1, top);
    }
}

/// The tiles that are still waited for are those of the view whose chunks are
/// neither resident nor empty.
pub proof fn law_open_tiles_are_the_unsettled_ones(view: SliceView, chunks: Map<ChunkKey, SlotModel>, lod: u8, t: (i64, i64))
    requires
        view.ok(),
        lod <= 24,
    ensures
        open_tiles(&view, chunks, lod).contains(t) <==> {
            &&& all_tiles(&view, lod).contains(t)
            &&& match chunks[view.tile_key(lod, t.0 as int, t.1 as int)].state {
                Some(ChunkState::Resident { .. }) => false,
                Some(ChunkState::Empty) => false,
                _ => true,
            }
        },
{
    let e = tile_edge(lod);
    chunk::lemma_pow2_bounds(lod as nat);
    view.lemma_canvas_fits();
    let lo_u = first_tile(view.min_u(), lod);
    let lo_v = first_tile(view.min_v(), lod);
    let n = span(lo_u, view.max_u() / e);
    let m = span(lo_v, view.max_v() / e);
    assert(view.max_u() / e < 0x1_0000_0000 && view.max_v() / e < 0x1_0000_0000) by (nonlinear_arith)
        requires
            view.max_u() <= 0x1_0000_0000,
            view.max_v() <= 0x1_0000_0000,
            e >= 64,
    ;
    assert(view.min_u() / e < 0x1_0000_0000 && view.min_v() / e < 0x1_0000_0000) by (nonlinear_arith)
        requires
            view.min_u() <= 0x1_0000_0000,
            view.min_v() <= 0x1_0000_0000,
            e >= 64,
    ;
    if view.depth() >= 0 {
        lemma_columns_have(lo_u, n, lo_v, m, t);
        lemma_open_columns_have(view, chunks, lod, lo_u, n, lo_v, m, t);
    }
}

proof fn lemma_columns_have(lo_u: int, n: nat, lo_v: int, m: nat, t: (i64, i64))
    requires
        0 <= lo_u <= 0x1_0000_0000,
        0 <= lo_v <= 0x1_0000_0000,
        lo_u + n <= 0x2_0000_0000,
        lo_v + m <= 0x2_0000_0000,
    ensures
        columns(lo_u, n, lo_v, m).contains(t) <==> lo_u <= t.0 < lo_u + n && lo_v <= t.1 < lo_v + m,
    decreases n,
{
    if n > 0 {
        lemma_columns_have(lo_u, (n - 1) as nat, lo_v, m, t);
        let before = columns(lo_u, (n - 1) as nat, lo_v, m);
        let last = column(lo_u + n - 1, lo_v, m);
        let all = before + last;
        if t.0 == lo_u + n - 1 && lo_v <= t.1 < lo_v + m {
            assert(last[t.1 - lo_v] == t);
            assert(all[before.len() + (t.1 - lo_v)] == t);
        }
        if before.contains(t) {
            assert(all[before.index_of(t)] == t);
        }
        if all.contains(t) && !before.contains(t) {
            let k = all.index_of(t);
            if k < before.len() {
                assert(before[k] == t);
            }
            assert(last[k - before.len()] == t);
        }
    }
}

proof fn lemma_open_column_has(
    view: SliceView,
    chunks: Map<ChunkKey, SlotModel>,
    lod: u8,
    tu: int,
    lo: int,
    n: nat,
    t: (i64, i64),
)
    requires
        0 <= tu <= 0x2_0000_0000,
        0 <= lo <= 0x1_0000_0000,
        lo + n <= 0x2_0000_0000,
    ensures
        open_in_column(&view, chunks, lod, tu, lo, n).contains(t) <==> t.0 == tu && lo <= t.1 < lo + n
            && !settled(chunks, view.tile_key(lod, t.0 as int, t.1 as int)),
    decreases n,
{
    if n > 0 {
        lemma_open_column_has(view, chunks, lod, tu, lo, (n - 1) as nat, t);
        let before = open_in_column(&view, chunks, lod, tu, lo, (n - 1) as nat);
        let all = open_in_column(&view, chunks, lod, tu, lo, n);
        if all.len() > before.len() {
            let last = (tu as i64, (lo + n - 1) as i64);
            assert(all[before.len() as int] == last);
            if before.contains(t) {
                assert(all[before.index_of(t)] == t);
            }
            if all.contains(t) && t != last {
                assert(before[all.index_of(t)] == t);
            }
        }
    }
}

proof fn lemma_open_columns_have(
    view: SliceView,
    chunks: Map<ChunkKey, SlotModel>,
    lod: u8,
    lo_u: int,
    n: nat,
    lo_v: int,
    m: nat,
    t: (i64, i64),
)
    requires
        0 <= lo_u <= 0x1_0000_0000,
        0 <= lo_v <= 0x1_0000_0000,
        lo_u + n <= 0x2_0000_0000,
        lo_v + m <= 0x2_0000_0000,
    ensures
        open_in_columns(&view, chunks, lod, lo_u, n, lo_v, m).contains(t) <==> lo_u <= t.0 < lo_u + n
            && lo_v <= t.1 < lo_v + m && !settled(
            chunks,
            view.tile_key(lod, t.0 as int, t.1 as int),
        ),
    decreases n,
{
    if n > 0 {
        lemma_open_columns_have(view, chunks, lod, lo_u, (n - 1) as nat, lo_v, m, t);
        lemma_open_column_has(view, chunks, lod, lo_u + n - 1, lo_v, m, t);
        let before = open_in_columns(&view, chunks, lod, lo_u, (n - 1) as nat, lo_v, m);
        let last = open_in_column(&view, chunks, lod, lo_u + n - 1, lo_v, m);
        let all = before + last;
        if last.contains(t) {
            assert(all[before.len() + last.index_of(t)] == t);
        }
        if before.contains(t) {
            assert(all[before.index_of(t)] == t);
        }
        if all.contains(t) && !before.contains(t) {
            let k = all.index_of(t);
            if k < before.len() {
                assert(before[k] == t);
            }
            assert(last[k - before.len()] == t);
        }
    }
}

/// Over every tile that is waited for, the chunk of each coarser level that
/// covers the tile's own is asked for, and none but these.
pub proof fn law_coarser_chunks_are_asked_for(
    view: SliceView,
    tiles: Seq<(i64, i64)>,
    target: u8,
    top: u8,
    key: ChunkKey,
)
    requires
        view.ok(),
        view.depth() >= 0,
        top <= 24,
        tiles_ok(tiles),
    ensures
        coarse_first(&view, tiles, target, top).contains(key) <==> exists|i: int, k: int|
            0 <= i < tiles.len() && 0 < k && target + k <= top && key == #[trigger] covering(
                view.tile_key(target, tiles[i].0 as int, tiles[i].1 as int),
                k,
            ),
    decreases top,
{
    if top > target {
        law_coarser_chunks_are_asked_for(view, tiles, target, (top - 1) as u8, key);
        let here = level_requests(&view, tiles, target, top);
        let rest = coarse_first(&view, tiles, target, (top - 1) as u8);
        let all = here + rest;
        let shift = top - target;
        lemma_level_has(view, tiles, target, top, key);
        if here.contains(key) {
            assert(all[here.index_of(key)] == key);
        }
        if rest.contains(key) {
            assert(all[here.len() + rest.index_of(key)] == key);
        }
        if all.contains(key) && !here.contains(key) {
            let j = all.index_of(key);
            if j < here.len() {
                assert(here[j] == key);
            }
            assert(rest[j - here.len()] == key);
        }
    }
}

/// The chunk so many levels up that covers a chunk: each level halves the
/// coordinates.
pub open spec fn covering(key: ChunkKey, levels: int) -> ChunkKey
    decreases levels,
{
    if levels <= 0 {
        key
    } else {
        let below = covering(key, levels - 1);
        ChunkKey { lod: (below.lod + 1) as u8, x: below.x / 2, y: below.y / 2, z: below.z / 2 }
    }
}

proof fn lemma_covering(key: ChunkKey, levels: int)
    requires
        0 <= levels <= 24,
        key.lod + levels <= 255,
    ensures
        covering(key, levels) == volume::ancestor(key, levels),
    decreases levels,
{
    if levels > 0 {
        lemma_covering(key, levels - 1);
        let s = chunk::pow2((levels - 1) as nat) as int;
        chunk::lemma_pow2_bounds((levels - 1) as nat);
        assert(chunk::pow2(levels as nat) == 2 * s);
        lemma_divide_twice(key.x as int, s, 2);
        lemma_divide_twice(key.y as int, s, 2);
        lemma_divide_twice(key.z as int, s, 2);
        lemma_scaled_back(key.x as int, s);
        lemma_scaled_back(key.y as int, s);
        lemma_scaled_back(key.z as int, s);
        let below = covering(key, levels - 1);
        assert(below.x == key.x as int / s && below.y == key.y as int / s && below.z == key.z as int / s);
    } else {
        assert(chunk::pow2(0) == 1);
        assert(key.x as int / 1 == key.x && key.y as int / 1 == key.y && key.z as int / 1 == key.z);
    }
}

proof fn lemma_parents_have(tiles: Seq<(i64, i64)>, scale: int, n: nat, p: (i64, i64))
    requires
        n <= tiles.len(),
    ensures
        parents(tiles, scale, n).contains(p) <==> exists|i: int|
            0 <= i < n && p == ((#[trigger] tiles[i].0 as int / scale) as i64, (tiles[i].1 as int
                / scale) as i64),
    decreases n,
{
    if n > 0 {
        lemma_parents_have(tiles, scale, (n - 1) as nat, p);
        let before = parents(tiles, scale, (n - 1) as nat);
        let all = parents(tiles, scale, n);
        let q = ((tiles[n - 1].0 as int / scale) as i64, (tiles[n - 1].1 as int / scale) as i64);
        if !before.contains(q) {
            assert(all[before.len() as int] == q);
            if before.contains(p) {
                assert(all[before.index_of(p)] == p);
            }
            if all.contains(p) && p != q {
                assert(before[all.index_of(p)] == p);
            }
        }
    }
}

proof fn lemma_level_has(view: SliceView, tiles: Seq<(i64, i64)>, target: u8, lod: u8, key: ChunkKey)
    requires
        view.ok(),
        view.depth() >= 0,
        target < lod <= 24,
        tiles_ok(tiles),
    ensures
        level_requests(&view, tiles, target, lod).contains(key) <==> exists|i: int|
            0 <= i < tiles.len() && key == covering(
                view.tile_key(target, #[trigger] tiles[i].0 as int, tiles[i].1 as int),
                lod - target,
            ),
{
    let scale = chunk::pow2((lod - target) as nat) as int;
    chunk::lemma_pow2_bounds((lod - target) as nat);
    let over = parents(tiles, scale, tiles.len());
    let asked = level_requests(&view, tiles, target, lod);
    assert forall|i: int| 0 <= i < tiles.len() implies covering(
        view.tile_key(target, #[trigger] tiles[i].0 as int, tiles[i].1 as int),
        lod - target,
    ) == view.tile_key(lod, tiles[i].0 as int / scale, tiles[i].1 as int / scale) by {
        lemma_parent_key(view, target, lod, tiles[i].0 as int, tiles[i].1 as int);
    }
    if asked.contains(key) {
        let j = asked.index_of(key);
        let p = over[j];
        lemma_parents_have(tiles, scale, tiles.len(), p);
        let i = choose|i: int|
            0 <= i < tiles.len() && p == ((#[trigger] tiles[i].0 as int / scale) as i64, (tiles[i].1 as int
                / scale) as i64);
        lemma_scaled_back(tiles[i].0 as int, scale);
        lemma_scaled_back(tiles[i].1 as int, scale);
        assert(key == view.tile_key(lod, p.0 as int, p.1 as int));
    }
    if exists|i: int|
        0 <= i < tiles.len() && key == covering(
            view.tile_key(target, #[trigger] tiles[i].0 as int, tiles[i].1 as int),
            lod - target,
        ) {
        let i = choose|i: int|
            0 <= i < tiles.len() && key == covering(
                view.tile_key(target, #[trigger] tiles[i].0 as int, tiles[i].1 as int),
                lod - target,
            );
        lemma_scaled_back(tiles[i].0 as int, scale);
        lemma_scaled_back(tiles[i].1 as int, scale);
        let p = ((tiles[i].0 as int / scale) as i64, (tiles[i].1 as int / scale) as i64);
        lemma_parents_have(tiles, scale, tiles.len(), p);
        assert(over.contains(p));
        assert(asked[over.index_of(p)] == key);
    }
}

proof fn lemma_parent_key(view: SliceView, target: u8, lod: u8, a: int, b: int)
    requires
        view.ok(),
        view.depth() >= 0,
        target < lod <= 24,
        0 <= a <= u32::MAX,
        0 <= b <= u32::MAX,
    ensures
        covering(view.tile_key(target, a, b), lod - target) == view.tile_key(
            lod,
            a / (chunk::pow2((lod - target) as nat) as int),
            b / (chunk::pow2((lod - target) as nat) as int),
        ),
{
    let scale = chunk::pow2((lod - target) as nat) as int;
    chunk::lemma_pow2_bounds((lod - target) as nat);
    let e = tile_edge(target);
    chunk::lemma_pow2_bounds(target as nat);
    chunk::lemma_pow2_add(target as nat, (lod - target) as nat);
    assert(tile_edge(lod) == e * scale) by (nonlinear_arith)
        requires
            tile_edge(lod) == 64 * (chunk::pow2(lod as nat) as int),
            e == 64 * (chunk::pow2(target as nat) as int),
            chunk::pow2(lod as nat) as int == chunk::pow2(target as nat) as int * scale,
    ;
    lemma_divide_twice(view.depth(), e, scale);
    lemma_scaled_back(view.depth(), e);
    lemma_covering(view.tile_key(target, a, b), lod - target);
}

/// The coarser levels come first, one after the other.
pub proof fn law_coarser_chunks_come_first(
    view: SliceView,
    tiles: Seq<(i64, i64)>,
    target: u8,
    top: u8,
    i: int,
    j: int,
)
    requires
        0 <= i < j < coarse_first(&view, tiles, target, top).len(),
    ensures
        target < coarse_first(&view, tiles, target, top)[j].lod <= coarse_first(
            &view,
            tiles,
            target,
            top,
        )[i].lod <= top,
{
    lemma_levels_fall(view, tiles, target, top);
}

proof fn lemma_levels_fall(view: SliceView, tiles: Seq<(i64, i64)>, target: u8, top: u8)
    ensures
        ({
            let all = coarse_first(&view, tiles, target, top);
            &&& forall|i: int| 0 <= i < all.len() ==> target < (#[trigger] all[i]).lod <= top
            &&& forall|i: int, j: int|
                0 <= i < j < all.len() ==> (#[trigger] all[j]).lod <= (#[trigger] all[i]).lod
        }),
    decreases top,
{
    if top > target {
        lemma_levels_fall(view, tiles, target, (top - 1) as u8);
        let here = level_requests(&view, tiles, target, top);
        let rest = coarse_first(&view, tiles, target, (top - 1) as u8);
        let all = here + rest;
        assert forall|i: int| 0 <= i < all.len() implies (#[trigger] all[i]).lod == (if i < here.len() {
            top
        } else {
            rest[i - here.len()].lod
        }) by {}
    }
}

/// The tints tell by their colors what they stand for: green that there is no
/// data, colors between green and blue that a coarser level stands in, colors
/// between red and green that nothing has come yet, red that a fetch failed and
/// magenta that none was begun. A download under way shifts the color towards
/// green for a stand-in, and towards red where there is nothing.
pub proof fn law_tints_have_their_colors(target: u8, coarser: u8, state: Option<ChunkState>, downloading: bool)
    requires
        coarser != target,
    ensures
        overlay(target, Some(coarser), Some(ChunkState::Empty), downloading) matches Some(t) && t.g > t.r && t.g
            > t.b,
        overlay(target, None, Some(ChunkState::Empty), downloading) matches Some(t) && t.g > t.r && t.g > t.b,
        state != Some(ChunkState::Empty) ==> {
            &&& overlay(target, Some(target), state, downloading) is None
            &&& overlay(target, Some(coarser), state, downloading) matches Some(t) && t.b > t.g && t.g > t.r
            &&& overlay(target, Some(coarser), state, true)->0.g > overlay(target, Some(coarser), state, false)->0.g
        },
        state is None || state == Some(ChunkState::Missing) ==> (overlay(target, None, state, downloading)
            matches Some(t) && t.r == t.b && t.b > t.g),
        state matches Some(ChunkState::CooldownMiss { .. }) ==> (overlay(target, None, state, downloading)
            matches Some(t) && t.r > t.g && t.g == t.b),
        state matches Some(ChunkState::Resident { .. }) ==> overlay(target, None, state, downloading) is None,
        state matches Some(ChunkState::Pending { .. }) ==> {
            &&& overlay(target, None, state, downloading) matches Some(t) && t.r > t.g && t.g > t.b
            &&& overlay(target, None, state, true)->0.g < overlay(target, None, state, false)->0.g
        },
{
}

} // verus!
