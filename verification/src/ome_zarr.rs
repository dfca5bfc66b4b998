//! Filling cache chunks from an OME-Zarr volume: which native chunks a cache
//! chunk needs, which cache chunks they fill, and cutting them out.
//!
//! Triples of the volume's own axes are in the order z, y, x.
use crate::backfiller::{
    copy_reason, BackfillError, ExtractedChunk, Reason, SourceOutcome, SourcePayload, SourceSpec,
};
use crate::chunk::{ChunkKey, CHUNK_VOXELS};
use crate::text;
use vstd::prelude::*;

verus! {

/// The longest axis whose chunks have addresses.
pub const AXIS_LIMIT: u64 = 0x40_0000_0000;

/// A level's shape and the shape of its native chunks, in voxels.
#[derive(Debug, Clone, Copy)]
pub struct NativeGrid {
    pub shape: [u64; 3],
    pub chunk: [u64; 3],
}

/// A box of native chunks, both ends included.
#[derive(Debug, Clone, Copy)]
pub struct NativeBox {
    pub lo: [u64; 3],
    pub hi: [u64; 3],
}

impl NativeGrid {
    /// Native chunks have voxels, and every axis can be addressed.
    pub open spec fn ok(&self) -> bool {
        forall|a: int|
            0 <= a < 3 ==> 0 < #[trigger] self.chunk@[a] <= AXIS_LIMIT && self.shape@[a]
                <= AXIS_LIMIT
    }
}

/// A chunk's coordinate on axis `a`.
pub open spec fn on_axis(key: ChunkKey, a: int) -> int {
    if a == 0 {
        key.z as int
    } else if a == 1 {
        key.y as int
    } else {
        key.x as int
    }
}

/// The end of cache chunk `k` along an axis of `shape` voxels.
pub open spec fn chunk_end(k: int, shape: int) -> int {
    if k * 64 + 64 < shape {
        k * 64 + 64
    } else {
        shape
    }
}

/// Whether the cache chunk begins inside the volume.
pub open spec fn in_volume(key: ChunkKey, shape: [u64; 3]) -> bool {
    forall|a: int| 0 <= a < 3 ==> #[trigger] on_axis(key, a) * 64 < shape@[a]
}

/// The first native chunk, `n` voxels long, that cache chunk `k` overlaps.
pub open spec fn first_native(k: int, n: int) -> int {
    k * 64 / n
}

/// The last one.
pub open spec fn last_native(k: int, n: int, shape: int) -> int {
    (chunk_end(k, shape) - 1) / n
}

/// The box of native chunks that a cache chunk overlaps.
pub open spec fn overlap(key: ChunkKey, g: NativeGrid) -> NativeBox {
    NativeBox {
        lo: [
            first_native(key.z as int, g.chunk@[0] as int) as u64,
            first_native(key.y as int, g.chunk@[1] as int) as u64,
            first_native(key.x as int, g.chunk@[2] as int) as u64,
        ],
        hi: [
            last_native(key.z as int, g.chunk@[0] as int, g.shape@[0] as int) as u64,
            last_native(key.y as int, g.chunk@[1] as int, g.shape@[1] as int) as u64,
            last_native(key.x as int, g.chunk@[2] as int, g.shape@[2] as int) as u64,
        ],
    }
}

/// Whether cache chunk `k` lies, along one axis, in the voxels of native chunks
/// `lo` to `hi`, each `n` voxels long.
pub open spec fn covers(k: int, lo: int, hi: int, n: int, shape: int) -> bool {
    k * 64 < shape && lo * n <= k * 64 && chunk_end(k, shape) <= (hi + 1) * n
}

/// The cache chunks below `k` that lie in those native chunks, along one axis.
pub open spec fn covered_below(lo: int, hi: int, n: int, shape: int, k: nat) -> Seq<u32>
    decreases k,
{
    if k == 0 {
        Seq::empty()
    } else {
        let before = covered_below(lo, hi, n, shape, (k - 1) as nat);
        if covers(k - 1, lo, hi, n, shape) {
            before.push((k - 1) as u32)
        } else {
            before
        }
    }
}

/// Chunks along an axis.
pub open spec fn chunks_along(shape: int) -> nat {
    ((shape + 63) / 64) as nat
}

/// All cache chunks along one axis that lie in those native chunks.
pub open spec fn covered_along(lo: int, hi: int, n: int, shape: int) -> Seq<u32> {
    covered_below(lo, hi, n, shape, chunks_along(shape))
}

/// The chunks of a level whose coordinates are taken from three lists, the last
/// running fastest.
pub open spec fn product(lod: u8, zs: Seq<u32>, ys: Seq<u32>, xs: Seq<u32>) -> Seq<ChunkKey> {
    let ny = ys.len() as int;
    let nx = xs.len() as int;
    Seq::new(
        zs.len() * ys.len() * xs.len(),
        |i: int|
            ChunkKey { lod, x: xs[i % nx], y: ys[(i / nx) % ny], z: zs[i / nx / ny] },
    )
}

/// The cache chunks that a box of native chunks can fill.
pub open spec fn covered(b: NativeBox, g: NativeGrid, lod: u8) -> Seq<ChunkKey> {
    product(
        lod,
        covered_along(b.lo@[0] as int, b.hi@[0] as int, g.chunk@[0] as int, g.shape@[0] as int),
        covered_along(b.lo@[1] as int, b.hi@[1] as int, g.chunk@[1] as int, g.shape@[1] as int),
        covered_along(b.lo@[2] as int, b.hi@[2] as int, g.chunk@[2] as int, g.shape@[2] as int),
    )
}

proof fn lemma_covered_below_skips(lo: int, hi: int, n: int, shape: int, a: nat, b: nat)
    requires
        a <= b,
        forall|k: int| a <= k < b ==> !#[trigger] covers(k, lo, hi, n, shape),
    ensures
        covered_below(lo, hi, n, shape, b) == covered_below(lo, hi, n, shape, a),
    decreases b - a,
{
    if a < b {
        lemma_covered_below_skips(lo, hi, n, shape, a, (b - 1) as nat);
    }
}

/// Whether cache chunk `k` is filled by native chunks `lo` to `hi` of its axis.
fn covers_exec(k: u64, lo: u64, hi: u64, n: u64, shape: u64) -> (r: bool)
    requires
        0 < n <= AXIS_LIMIT,
        shape <= AXIS_LIMIT,
        k * 64 <= shape + 64,
    ensures
        r == covers(k as int, lo as int, hi as int, n as int, shape as int),
{
    let base = k * 64;
    if base >= shape {
        return false;
    }
    let end = if base + 64 < shape { base + 64 } else { shape };
    proof {
        assert(base as int / n as int >= lo <==> lo * n <= base) by (nonlinear_arith)
            requires
                n > 0,
        ;
        assert((end - 1) as int / n as int <= hi <==> end <= (hi + 1) * n) by (nonlinear_arith)
            requires
                n > 0,
        ;
    }
    base / n >= lo && (end - 1) / n <= hi
}

fn covered_axis(lo: u64, hi: u64, n: u64, shape: u64) -> (r: Vec<u32>)
    requires
        0 < n <= AXIS_LIMIT,
        shape <= AXIS_LIMIT,
    ensures
        r@ == covered_along(lo as int, hi as int, n as int, shape as int),
{
    assert(0 <= lo * n <= u64::MAX * AXIS_LIMIT && 0 <= hi * n <= u64::MAX * AXIS_LIMIT)
        by (nonlinear_arith)
        requires
            0 <= lo <= u64::MAX,
            0 <= hi <= u64::MAX,
            0 < n <= AXIS_LIMIT,
    ;
    assert((hi + 1) * n == hi * n + n) by (nonlinear_arith);
    let first: u128 = lo as u128 * n as u128;
    let stop: u128 = hi as u128 * n as u128 + n as u128;
    if first >= shape as u128 {
        proof {
            assert forall|j: int| 0 <= j < chunks_along(shape as int) implies !#[trigger] covers(
                j,
                lo as int,
                hi as int,
                n as int,
                shape as int,
            ) by {}
            lemma_covered_below_skips(
                lo as int,
                hi as int,
                n as int,
                shape as int,
                0,
                chunks_along(shape as int),
            );
        }
        return Vec::new();
    }
    let voxel_lo: u64 = first as u64;
    let voxel_hi: u64 = if stop < shape as u128 { stop as u64 } else { shape };
    let from: u64 = voxel_lo / 64;
    let to: u64 = (voxel_hi + 63) / 64;
    let mut out: Vec<u32> = Vec::new();
    let mut k: u64 = from;
    proof {
        assert forall|j: int| 0 <= j < from implies !#[trigger] covers(
            j,
            lo as int,
            hi as int,
            n as int,
            shape as int,
        ) by {}
        lemma_covered_below_skips(
            lo as int,
            hi as int,
            n as int,
            shape as int,
            0,
            from as nat,
        );
    }
    while k < to
        invariant
            0 < n <= AXIS_LIMIT,
            shape <= AXIS_LIMIT,
            voxel_hi <= shape,
            to == (voxel_hi + 63) / 64,
            from <= k,
            k <= to || k == from,
            out@ == covered_below(lo as int, hi as int, n as int, shape as int, k as nat),
        decreases to - k,
    {
        if covers_exec(k, lo, hi, n, shape) {
            out.push(k as u32);
        }
        k = k + 1;
    }
    proof {
        let all = chunks_along(shape as int);
        if k <= all {
            assert forall|j: int| k <= j < all implies !#[trigger] covers(
                j,
                lo as int,
                hi as int,
                n as int,
                shape as int,
            ) by {
                assert((hi + 1) * n == stop);
            }
            lemma_covered_below_skips(
                lo as int,
                hi as int,
                n as int,
                shape as int,
                k as nat,
                all,
            );
        } else {
            assert forall|j: int| all <= j < k implies !#[trigger] covers(
                j,
                lo as int,
                hi as int,
                n as int,
                shape as int,
            ) by {}
            lemma_covered_below_skips(
                lo as int,
                hi as int,
                n as int,
                shape as int,
                all,
                k as nat,
            );
        }
    }
    out
}

/// A flattened index determines its three parts.
pub proof fn lemma_unflatten(a: int, b: int, c: int, ny: int, nx: int)
    requires
        0 <= a,
        0 <= b < ny,
        0 <= c < nx,
    ensures
        ((a * ny + b) * nx + c) % nx == c,
        (((a * ny + b) * nx + c) / nx) % ny == b,
        ((a * ny + b) * nx + c) / nx / ny == a,
{
    let i = (a * ny + b) * nx + c;
    vstd::arithmetic::div_mod::lemma_fundamental_div_mod_converse(i, nx, a * ny + b, c);
    vstd::arithmetic::div_mod::lemma_fundamental_div_mod_converse(a * ny + b, ny, a, b);
}

/// A flattened index lies in its box.
pub proof fn lemma_flat_below(a: int, b: int, c: int, nz: int, ny: int, nx: int)
    requires
        0 <= a < nz,
        0 <= b < ny,
        0 <= c < nx,
    ensures
        0 <= (a * ny + b) * nx + c < nz * ny * nx,
{
    assert(a * ny + b + 1 <= nz * ny) by (nonlinear_arith)
        requires
            0 <= a < nz,
            0 <= b < ny,
    ;
    assert(0 <= a * ny + b) by (nonlinear_arith)
        requires
            0 <= a,
            0 <= b < ny,
    ;
    let q = a * ny + b;
    let m = nz * ny;
    assert(0 <= q * nx + c < m * nx) by (nonlinear_arith)
        requires
            0 <= q,
            q + 1 <= m,
            0 <= c < nx,
    ;
}

fn product_exec(lod: u8, zs: &Vec<u32>, ys: &Vec<u32>, xs: &Vec<u32>) -> (out: Vec<ChunkKey>)
    ensures
        out@ == product(lod, zs@, ys@, xs@),
{
    let ghost nz = zs@.len() as int;
    let ghost ny = ys@.len() as int;
    let ghost nx = xs@.len() as int;
    let ghost whole = product(lod, zs@, ys@, xs@);
    let mut out: Vec<ChunkKey> = Vec::new();
    let mut a: usize = 0;
    assert(0 * ny * nx == 0) by (nonlinear_arith);
    while a < zs.len()
        invariant
            a <= nz,
            nz == zs@.len(),
            ny == ys@.len(),
            nx == xs@.len(),
            whole == product(lod, zs@, ys@, xs@),
            out@.len() == a * ny * nx,
            forall|i: int| 0 <= i < out@.len() ==> out@[i] == #[trigger] whole[i],
        decreases nz - a,
    {
        let mut b: usize = 0;
        assert((a * ny + 0) * nx == a * ny * nx);
        while b < ys.len()
            invariant
                a < nz,
                b <= ny,
                nz == zs@.len(),
                ny == ys@.len(),
                nx == xs@.len(),
                whole == product(lod, zs@, ys@, xs@),
                out@.len() == (a * ny + b) * nx,
                forall|i: int| 0 <= i < out@.len() ==> out@[i] == #[trigger] whole[i],
            decreases ny - b,
        {
            let mut c: usize = 0;
            while c < xs.len()
                invariant
                    a < nz,
                    b < ny,
                    c <= nx,
                    nz == zs@.len(),
                    ny == ys@.len(),
                    nx == xs@.len(),
                    whole == product(lod, zs@, ys@, xs@),
                    out@.len() == (a * ny + b) * nx + c,
                    forall|i: int| 0 <= i < out@.len() ==> out@[i] == #[trigger] whole[i],
                decreases nx - c,
            {
                proof {
                    lemma_unflatten(a as int, b as int, c as int, ny, nx);
                    lemma_flat_below(a as int, b as int, c as int, nz, ny, nx);
                    assert(nz * ny * nx == zs@.len() * ys@.len() * xs@.len());
                }
                let key = ChunkKey::new(lod, xs[c], ys[b], zs[a]);
                assert(whole[(a * ny + b) * nx + c] == key);
                out.push(key);
                c = c + 1;
            }
            assert((a * ny + b) * nx + nx == (a * ny + b + 1) * nx) by (nonlinear_arith);
            b = b + 1;
        }
        assert((a * ny + ny) * nx == (a + 1) * ny * nx) by (nonlinear_arith);
        a = a + 1;
    }
    assert(nz * ny * nx == whole.len());
    assert(out@ =~= whole);
    out
}

/// The cache chunks that a box of native chunks can fill: those that lie
/// within it. A box that reaches past the volume is cut off there.
pub fn covered_cache_chunks(b: NativeBox, g: NativeGrid, lod: u8) -> (r: Vec<ChunkKey>)
    requires
        g.ok(),
    ensures
        r@ == covered(b, g, lod),
{
    assert(g.chunk@[0] > 0 && g.chunk@[1] > 0 && g.chunk@[2] > 0);
    let zs = covered_axis(b.lo[0], b.hi[0], g.chunk[0], g.shape[0]);
    let ys = covered_axis(b.lo[1], b.hi[1], g.chunk[1], g.shape[1]);
    let xs = covered_axis(b.lo[2], b.hi[2], g.chunk[2], g.shape[2]);
    product_exec(lod, &zs, &ys, &xs)
}

/// The native chunks that a cache chunk overlaps; none if it begins outside
/// the volume.
pub fn overlapping(key: ChunkKey, g: NativeGrid) -> (r: Option<NativeBox>)
    requires
        g.ok(),
    ensures
        r is Some == in_volume(key, g.shape),
        r matches Some(b) ==> {
            &&& b == overlap(key, g)
            &&& forall|a: int|
                0 <= a < 3 ==> #[trigger] b.lo@[a] <= b.hi@[a] <= b.lo@[a] + 63 && b.hi@[a]
                    * g.chunk@[a] < g.shape@[a]
        },
{
    assert(g.chunk@[0] > 0 && g.chunk@[1] > 0 && g.chunk@[2] > 0);
    assert(on_axis(key, 0) == key.z && on_axis(key, 1) == key.y && on_axis(key, 2) == key.x);
    let z = overlap_axis(key.z, g.chunk[0], g.shape[0]);
    let y = overlap_axis(key.y, g.chunk[1], g.shape[1]);
    let x = overlap_axis(key.x, g.chunk[2], g.shape[2]);
    match (z, y, x) {
        (Some((z0, z1)), Some((y0, y1)), Some((x0, x1))) => {
            let b = NativeBox { lo: [z0, y0, x0], hi: [z1, y1, x1] };
            assert(b.lo =~= overlap(key, g).lo);
            assert(b.hi =~= overlap(key, g).hi);
            Some(b)
        },
        _ => None,
    }
}

fn overlap_axis(k: u32, n: u64, shape: u64) -> (r: Option<(u64, u64)>)
    requires
        0 < n <= AXIS_LIMIT,
        shape <= AXIS_LIMIT,
    ensures
        r is Some == (k * 64 < shape),
        r matches Some((lo, hi)) ==> {
            &&& lo == first_native(k as int, n as int)
            &&& hi == last_native(k as int, n as int, shape as int)
            &&& lo <= hi <= lo + 63
            &&& hi * n < shape
        },
{
    let base: u64 = k as u64 * 64;
    if base >= shape {
        return None;
    }
    let end: u64 = if base + 64 < shape { base + 64 } else { shape };
    let lo = base / n;
    let hi = (end - 1) / n;
    proof {
        assert(base as int / n as int <= (end - 1) / n as int) by (nonlinear_arith)
            requires
                base <= end - 1,
                n > 0,
        ;
        assert((end - 1) / n as int <= base as int / n as int + 63) by (nonlinear_arith)
            requires
                end - 1 <= base + 63,
                n >= 1,
        ;
        assert(hi * n <= end - 1) by (nonlinear_arith)
            requires
                hi == (end - 1) / n as int,
                n > 0,
        ;
    }
    Some((lo, hi))
}

/// A native chunk that a plan needs, and the name it is known by.
#[derive(Debug)]
pub struct NativeSource {
    pub coord: [u64; 3],
    pub name: String,
}

/// How to fill a cache chunk from native chunks.
#[derive(Debug)]
pub struct NativePlan {
    pub covered: Vec<ChunkKey>,
    pub sources: Vec<NativeSource>,
}

/// The name of a native chunk.
pub open spec fn native_name(volume_id: Seq<char>, lod: u8, coord: [u64; 3]) -> Seq<char> {
    volume_id + "/L"@ + text::padded(lod as nat, 2) + "/"@ + text::decimal(coord@[0] as nat) + "/"@
        + text::decimal(coord@[1] as nat) + "/"@ + text::decimal(coord@[2] as nat)
}

fn name_native(volume_id: &str, lod: u8, coord: [u64; 3]) -> (s: String)
    ensures
        s@ == native_name(volume_id@, lod, coord),
{
    let mut out = text::to_chars(volume_id);
    text::push_text(&mut out, "/L");
    text::push_padded(&mut out, lod as u64, 2);
    text::push_text(&mut out, "/");
    text::push_decimal(&mut out, coord[0]);
    text::push_text(&mut out, "/");
    text::push_decimal(&mut out, coord[1]);
    text::push_text(&mut out, "/");
    text::push_decimal(&mut out, coord[2]);
    text::from_chars(&out)
}

/// How many native chunks a box has along an axis.
pub open spec fn width(b: NativeBox, a: int) -> int {
    b.hi@[a] - b.lo@[a] + 1
}

/// How many native chunks a box has.
pub open spec fn volume_of(b: NativeBox) -> int {
    width(b, 0) * width(b, 1) * width(b, 2)
}

/// Native chunk `i` of a box, counted with x running fastest.
pub open spec fn box_coord(b: NativeBox, i: int) -> [u64; 3] {
    let ny = width(b, 1);
    let nx = width(b, 2);
    [
        (b.lo@[0] + i / nx / ny) as u64,
        (b.lo@[1] + (i / nx) % ny) as u64,
        (b.lo@[2] + i % nx) as u64,
    ]
}

/// The native chunks of a box, x running fastest.
pub fn box_coords(b: NativeBox) -> (out: Vec<[u64; 3]>)
    requires
        forall|a: int| 0 <= a < 3 ==> #[trigger] b.lo@[a] <= b.hi@[a] <= b.lo@[a] + 63,
        forall|a: int| 0 <= a < 3 ==> #[trigger] b.hi@[a] <= AXIS_LIMIT,
    ensures
        out@.len() == volume_of(b),
        forall|i: int| 0 <= i < out@.len() ==> #[trigger] out@[i] == box_coord(b, i),
{
    assert(b.lo@[0] <= b.hi@[0] && b.lo@[1] <= b.hi@[1] && b.lo@[2] <= b.hi@[2]);
    assert(b.hi@[0] <= AXIS_LIMIT && b.hi@[1] <= AXIS_LIMIT && b.hi@[2] <= AXIS_LIMIT);
    let nz: u64 = b.hi[0] - b.lo[0] + 1;
    let ny: u64 = b.hi[1] - b.lo[1] + 1;
    let nx: u64 = b.hi[2] - b.lo[2] + 1;
    assert(0 < nz * ny * nx <= 64 * 64 * 64) by (nonlinear_arith)
        requires
            0 < nz <= 64,
            0 < ny <= 64,
            0 < nx <= 64,
    ;
    assert(0 < nz * ny <= 64 * 64) by (nonlinear_arith)
        requires
            0 < nz <= 64,
            0 < ny <= 64,
    ;
    let n: u64 = nz * ny * nx;
    let mut out: Vec<[u64; 3]> = Vec::new();
    let mut i: u64 = 0;
    while i < n
        invariant
            n == nz * ny * nx,
            n <= 64 * 64 * 64,
            0 < nz <= 64,
            nz == width(b, 0),
            0 < ny <= 64,
            ny == width(b, 1),
            0 < nx <= 64,
            nx == width(b, 2),
            b.lo@[0] <= b.hi@[0] <= AXIS_LIMIT,
            b.lo@[1] <= b.hi@[1] <= AXIS_LIMIT,
            b.lo@[2] <= b.hi@[2] <= AXIS_LIMIT,
            i <= n,
            out@.len() == i,
            forall|j: int| 0 <= j < out@.len() ==> #[trigger] out@[j] == box_coord(b, j),
        decreases n - i,
    {
        let row = i / nx;
        proof {
            assert(row as int / ny as int <= row <= i) by (nonlinear_arith)
                requires
                    row == i as int / nx as int,
                    nx >= 1,
                    ny >= 1,
                    i >= 0,
            ;
        }
        let coord: [u64; 3] = [b.lo[0] + row / ny, b.lo[1] + row % ny, b.lo[2] + i % nx];
        assert(coord =~= box_coord(b, i as int));
        out.push(coord);
        i = i + 1;
    }
    out
}

/// The native chunks that a cache chunk overlaps have addresses.
pub proof fn lemma_overlap_fits(key: ChunkKey, g: NativeGrid)
    requires
        g.ok(),
        in_volume(key, g.shape),
    ensures
        forall|a: int| 0 <= a < 3 ==> #[trigger] overlap(key, g).hi@[a] <= AXIS_LIMIT,
{
    assert(g.chunk@[0] > 0 && g.chunk@[1] > 0 && g.chunk@[2] > 0);
    assert(on_axis(key, 0) * 64 < g.shape@[0] && on_axis(key, 1) * 64 < g.shape@[1] && on_axis(key, 2)
        * 64 < g.shape@[2]);
    lemma_last_native_fits(key.z, g.chunk@[0], g.shape@[0]);
    lemma_last_native_fits(key.y, g.chunk@[1], g.shape@[1]);
    lemma_last_native_fits(key.x, g.chunk@[2], g.shape@[2]);
}

proof fn lemma_last_native_fits(k: u32, n: u64, shape: u64)
    requires
        n > 0,
        shape <= AXIS_LIMIT,
        k * 64 < shape,
    ensures
        0 <= last_native(k as int, n as int, shape as int) <= AXIS_LIMIT,
{
    let e = chunk_end(k as int, shape as int) - 1;
    assert(0 <= e / n as int <= e) by (nonlinear_arith)
        requires
            0 <= e,
            n > 0,
    ;
}

/// How a cache chunk of a level of native chunks is filled: it needs every
/// native chunk that it overlaps, and these fill every cache chunk that lies
/// within them.
pub fn plan_native(volume_id: &str, key: ChunkKey, g: NativeGrid) -> (r: Result<NativePlan, BackfillError>)
    requires
        g.ok(),
    ensures
        match r {
            Ok(p) => {
                let b = overlap(key, g);
                &&& in_volume(key, g.shape)
                &&& p.covered@ == covered(b, g, key.lod)
                &&& p.sources@.len() == volume_of(b)
                &&& forall|i: int|
                    0 <= i < p.sources@.len() ==> {
                        &&& (#[trigger] p.sources@[i]).coord == box_coord(b, i)
                        &&& p.sources@[i].name@ == native_name(volume_id@, key.lod, box_coord(b, i))
                    }
            },
            Err(e) => e is OutOfBounds && !in_volume(key, g.shape),
        },
{
    let b = match overlapping(key, g) {
        Some(b) => b,
        None => {
            return Err(BackfillError::OutOfBounds);
        },
    };
    proof {
        lemma_overlap_fits(key, g);
    }
    let covered_chunks = covered_cache_chunks(b, g, key.lod);
    let coords = box_coords(b);
    let mut sources: Vec<NativeSource> = Vec::new();
    let mut i: usize = 0;
    while i < coords.len()
        invariant
            i <= coords@.len(),
            sources@.len() == i,
            forall|j: int| 0 <= j < coords@.len() ==> #[trigger] coords@[j] == box_coord(b, j),
            forall|j: int|
                0 <= j < i ==> {
                    &&& (#[trigger] sources@[j]).coord == box_coord(b, j)
                    &&& sources@[j].name@ == native_name(volume_id@, key.lod, box_coord(b, j))
                },
        decreases coords.len() - i,
    {
        let coord = coords[i];
        sources.push(NativeSource { coord, name: name_native(volume_id, key.lod, coord) });
        i = i + 1;
    }
    Ok(NativePlan { covered: covered_chunks, sources })
}

/// What a set of outcomes comes to.
pub enum Triage {
    /// Every source was loaded or is known to be absent.
    Clear,
    /// A failure that trying again cannot mend.
    Permanent(Seq<char>),
    /// One that it may.
    Transient(Reason),
}

/// What the first `n` outcomes come to: the first failure that trying again
/// cannot mend, if there is one, and else the first other.
pub open spec fn triaged(outcomes: Seq<SourceOutcome>, n: nat) -> Triage
    decreases n,
{
    if n == 0 {
        Triage::Clear
    } else {
        match (triaged(outcomes, (n - 1) as nat), outcomes[n - 1]) {
            (Triage::Permanent(s), _) => Triage::Permanent(s),
            (_, Err(BackfillError::OutOfBounds)) => Triage::Permanent("oob source"@),
            (_, Err(BackfillError::Permanent(s))) => Triage::Permanent(s@),
            (Triage::Clear, Err(BackfillError::Transient(r))) => Triage::Transient(r),
            (before, _) => before,
        }
    }
}

proof fn lemma_permanent_stays(outcomes: Seq<SourceOutcome>, n: nat, m: nat)
    requires
        n <= m,
        triaged(outcomes, n) is Permanent,
    ensures
        triaged(outcomes, m) == triaged(outcomes, n),
    decreases m - n,
{
    if n < m {
        lemma_permanent_stays(outcomes, n, (m - 1) as nat);
    }
}

/// Whether an extract can go ahead: the worst failure among the outcomes, if
/// any failed.
pub fn triage_outcomes(outcomes: &Vec<SourceOutcome>) -> (r: Result<(), BackfillError>)
    ensures
        match r {
            Ok(()) => triaged(outcomes@, outcomes@.len()) is Clear,
            Err(BackfillError::Permanent(s)) => triaged(outcomes@, outcomes@.len())
                == Triage::Permanent(s@),
            Err(BackfillError::Transient(q)) => triaged(outcomes@, outcomes@.len())
                == Triage::Transient(q),
            Err(BackfillError::OutOfBounds) => false,
        },
{
    let mut transient: Option<Reason> = None;
    let mut i: usize = 0;
    while i < outcomes.len()
        invariant
            i <= outcomes@.len(),
            match transient {
                None => triaged(outcomes@, i as nat) is Clear,
                Some(q) => triaged(outcomes@, i as nat) == Triage::Transient(q),
            },
        decreases outcomes.len() - i,
    {
        match &outcomes[i] {
            Ok(_) => {},
            Err(BackfillError::OutOfBounds) => {
                proof {
                    lemma_permanent_stays(outcomes@, (i + 1) as nat, outcomes@.len());
                }
                return Err(BackfillError::Permanent(text::owned("oob source")));
            },
            Err(BackfillError::Permanent(s)) => {
                proof {
                    lemma_permanent_stays(outcomes@, (i + 1) as nat, outcomes@.len());
                }
                return Err(BackfillError::Permanent(s.clone()));
            },
            Err(BackfillError::Transient(q)) => {
                if transient.is_none() {
                    transient = Some(copy_reason(q));
                }
            },
        }
        i = i + 1;
    }
    match transient {
        Some(q) => Err(BackfillError::Transient(q)),
        None => Ok(()),
    }
}

/// A native chunk's voxels, x fastest.
#[derive(Debug)]
pub struct Decoded {
    pub coord: [u64; 3],
    pub bytes: Vec<u8>,
}

/// The voxels of native chunk `(z, y, x)`, if it was decoded.
pub open spec fn decoded_at(decoded: Seq<Decoded>, z: int, y: int, x: int) -> Option<Seq<u8>>
    decreases decoded.len(),
{
    if decoded.len() == 0 {
        None
    } else if decoded[0].coord@[0] == z && decoded[0].coord@[1] == y && decoded[0].coord@[2] == x {
        Some(decoded[0].bytes@)
    } else {
        decoded_at(decoded.drop_first(), z, y, x)
    }
}

/// Every decoded native chunk has all its voxels.
pub open spec fn decoded_ok(decoded: Seq<Decoded>, g: NativeGrid) -> bool {
    forall|i: int|
        0 <= i < decoded.len() ==> g.chunk@[0] * g.chunk@[1] * g.chunk@[2] <= (
        #[trigger] decoded[i]).bytes@.len()
}

/// Whether a native chunk lies in a box.
pub open spec fn in_box(coord: [u64; 3], b: NativeBox) -> bool {
    &&& b.lo@[0] <= coord@[0] <= b.hi@[0]
    &&& b.lo@[1] <= coord@[1] <= b.hi@[1]
    &&& b.lo@[2] <= coord@[2] <= b.hi@[2]
}

/// Whether any native chunk of a box was decoded.
pub open spec fn any_decoded(decoded: Seq<Decoded>, b: NativeBox) -> bool {
    exists|i: int| 0 <= i < decoded.len() && in_box((#[trigger] decoded[i]).coord, b)
}

/// The volume's voxel at `(z, y, x)`: that of the native chunk it belongs to,
/// and zero if that was not decoded.
pub open spec fn native_voxel(decoded: Seq<Decoded>, g: NativeGrid, z: int, y: int, x: int) -> u8 {
    let nz = g.chunk@[0] as int;
    let ny = g.chunk@[1] as int;
    let nx = g.chunk@[2] as int;
    match decoded_at(decoded, z / nz, y / ny, x / nx) {
        Some(b) => b[((z % nz) * ny + y % ny) * nx + x % nx],
        None => 0,
    }
}

/// Voxel `i` of a cache chunk cut out of native chunks; zero beyond the
/// volume's end.
pub open spec fn cut_voxel(decoded: Seq<Decoded>, g: NativeGrid, key: ChunkKey, i: int) -> u8 {
    let z = key.z * 64 + i / 4096;
    let y = key.y * 64 + (i / 64) % 64;
    let x = key.x * 64 + i % 64;
    if z < g.shape@[0] && y < g.shape@[1] && x < g.shape@[2] {
        native_voxel(decoded, g, z, y, x)
    } else {
        0
    }
}

/// A cache chunk cut out of native chunks.
pub open spec fn cut(decoded: Seq<Decoded>, g: NativeGrid, key: ChunkKey) -> Seq<u8> {
    Seq::new(CHUNK_VOXELS as nat, |i: int| cut_voxel(decoded, g, key, i))
}

fn find_decoded(decoded: &Vec<Decoded>, z: u64, y: u64, x: u64) -> (r: Option<usize>)
    ensures
        match r {
            Some(i) => i < decoded@.len() && decoded_at(decoded@, z as int, y as int, x as int) == Some(
                decoded@[i as int].bytes@,
            ),
            None => decoded_at(decoded@, z as int, y as int, x as int) is None,
        },
{
    let mut i: usize = 0;
    assert(decoded@.skip(0) =~= decoded@);
    while i < decoded.len()
        invariant
            i <= decoded@.len(),
            decoded_at(decoded@, z as int, y as int, x as int) == decoded_at(
                decoded@.skip(i as int),
                z as int,
                y as int,
                x as int,
            ),
        decreases decoded.len() - i,
    {
        assert(decoded@.skip(i as int)[0] == decoded@[i as int]);
        assert(decoded@.skip(i as int).drop_first() =~= decoded@.skip(i + 1));
        let c = decoded[i].coord;
        if c[0] == z && c[1] == y && c[2] == x {
            return Some(i);
        }
        i = i + 1;
    }
    None
}

fn has_decoded(decoded: &Vec<Decoded>, b: NativeBox) -> (r: bool)
    ensures
        r == any_decoded(decoded@, b),
{
    let mut i: usize = 0;
    while i < decoded.len()
        invariant
            i <= decoded@.len(),
            forall|j: int| 0 <= j < i ==> !in_box((#[trigger] decoded@[j]).coord, b),
        decreases decoded.len() - i,
    {
        let c = decoded[i].coord;
        if b.lo[0] <= c[0] && c[0] <= b.hi[0] && b.lo[1] <= c[1] && c[1] <= b.hi[1] && b.lo[2] <= c[2]
            && c[2] <= b.hi[2] {
            assert(in_box(decoded@[i as int].coord, b));
            return true;
        }
        i = i + 1;
    }
    false
}

fn cut_chunk(decoded: &Vec<Decoded>, g: NativeGrid, key: ChunkKey) -> (out: Vec<u8>)
    requires
        g.ok(),
        decoded_ok(decoded@, g),
    ensures
        out@ == cut(decoded@, g, key),
{
    assert(g.chunk@[0] > 0 && g.chunk@[1] > 0 && g.chunk@[2] > 0);
    let nz = g.chunk[0];
    let ny = g.chunk[1];
    let nx = g.chunk[2];
    let mut out: Vec<u8> = Vec::new();
    // The native chunk that the last voxel came from, and where it is.
    let mut last: Option<([u64; 3], Option<usize>)> = None;
    let mut i: u64 = 0;
    while i < CHUNK_VOXELS as u64
        invariant
            i <= CHUNK_VOXELS,
            g.ok(),
            decoded_ok(decoded@, g),
            nz == g.chunk@[0],
            ny == g.chunk@[1],
            nx == g.chunk@[2],
            0 < nz <= AXIS_LIMIT,
            0 < ny <= AXIS_LIMIT,
            0 < nx <= AXIS_LIMIT,
            out@.len() == i,
            forall|j: int| 0 <= j < i ==> #[trigger] out@[j] == cut_voxel(decoded@, g, key, j),
            last matches Some((c, found)) ==> match found {
                Some(k) => k < decoded@.len() && decoded_at(
                    decoded@,
                    c@[0] as int,
                    c@[1] as int,
                    c@[2] as int,
                ) == Some(decoded@[k as int].bytes@),
                None => decoded_at(decoded@, c@[0] as int, c@[1] as int, c@[2] as int) is None,
            },
        decreases CHUNK_VOXELS - i,
    {
        let z: u64 = key.z as u64 * 64 + i / 4096;
        let y: u64 = key.y as u64 * 64 + (i / 64) % 64;
        let x: u64 = key.x as u64 * 64 + i % 64;
        let mut b: u8 = 0;
        if z < g.shape[0] && y < g.shape[1] && x < g.shape[2] {
            let cz = z / nz;
            let cy = y / ny;
            let cx = x / nx;
            let same = match &last {
                Some((c, _)) => c[0] == cz && c[1] == cy && c[2] == cx,
                None => false,
            };
            if !same {
                last = Some(([cz, cy, cx], find_decoded(decoded, cz, cy, cx)));
            }
            let found = match &last {
                Some((_, f)) => *f,
                None => None,
            };
            match found {
                Some(k) => {
                    let (az, ay, ax) = (z % nz, y % ny, x % nx);
                    proof {
                        assert(g.chunk@[0] * g.chunk@[1] * g.chunk@[2] <= decoded@[k as int].bytes@.len());
                        lemma_flat_below(
                            az as int,
                            ay as int,
                            ax as int,
                            nz as int,
                            ny as int,
                            nx as int,
                        );
                        assert(decoded@[k as int].bytes@.len() == decoded@[k as int].bytes.len());
                        assert(0 <= az * ny) by (nonlinear_arith)
                            requires
                                0 <= az,
                                0 < ny,
                        ;
                        let q = az * ny + ay;
                        assert(q <= q * nx) by (nonlinear_arith)
                            requires
                                q >= 0,
                                nx >= 1,
                        ;
                    }
                    let at: u64 = (az * ny + ay) * nx + ax;
                    b = decoded[k].bytes[at as usize];
                },
                None => {},
            }
        }
        assert(b == cut_voxel(decoded@, g, key, i as int));
        out.push(b);
        i = i + 1;
    }
    assert(out@ =~= cut(decoded@, g, key));
    out
}

/// What filling comes to for one chunk: empty if none of the native chunks it
/// overlaps was decoded, and else its voxels.
pub open spec fn extracted(decoded: Seq<Decoded>, g: NativeGrid, key: ChunkKey) -> Option<Seq<u8>> {
    if any_decoded(decoded, overlap(key, g)) {
        Some(cut(decoded, g, key))
    } else {
        None
    }
}

/// Whether a result is the one expected.
pub open spec fn is_extract(e: ExtractedChunk, expected: Option<Seq<u8>>) -> bool {
    match e {
        ExtractedChunk::Bytes(v) => expected == Some(v@),
        ExtractedChunk::Empty => expected is None,
    }
}

/// Fills every covered chunk from the decoded native chunks (see
/// `extracted`), in order.
pub fn fill_covered_chunks(covered_chunks: &Vec<ChunkKey>, g: NativeGrid, decoded: &Vec<Decoded>) -> (out:
    Vec<(ChunkKey, ExtractedChunk)>)
    requires
        g.ok(),
        decoded_ok(decoded@, g),
        forall|i: int| 0 <= i < covered_chunks@.len() ==> in_volume(#[trigger] covered_chunks@[i], g.shape),
    ensures
        out@.len() == covered_chunks@.len(),
        forall|i: int|
            0 <= i < out@.len() ==> {
                &&& (#[trigger] out@[i]).0 == covered_chunks@[i]
                &&& is_extract(out@[i].1, extracted(decoded@, g, covered_chunks@[i]))
            },
{
    let mut out: Vec<(ChunkKey, ExtractedChunk)> = Vec::new();
    let mut i: usize = 0;
    while i < covered_chunks.len()
        invariant
            i <= covered_chunks@.len(),
            g.ok(),
            decoded_ok(decoded@, g),
            forall|j: int|
                0 <= j < covered_chunks@.len() ==> in_volume(#[trigger] covered_chunks@[j], g.shape),
            out@.len() == i,
            forall|j: int|
                0 <= j < i ==> {
                    &&& (#[trigger] out@[j]).0 == covered_chunks@[j]
                    &&& is_extract(out@[j].1, extracted(decoded@, g, covered_chunks@[j]))
                },
        decreases covered_chunks.len() - i,
    {
        let key = covered_chunks[i];
        assert(in_volume(covered_chunks@[i as int], g.shape));
        let present = match overlapping(key, g) {
            Some(b) => has_decoded(decoded, b),
            None => false,
        };
        if present {
            out.push((key, ExtractedChunk::Bytes(cut_chunk(decoded, g, key))));
        } else {
            out.push((key, ExtractedChunk::Empty));
        }
        i = i + 1;
    }
    out
}

proof fn lemma_covered_below(lo: int, hi: int, n: int, shape: int, k: nat)
    requires
        k <= 0x1_0000_0000,
    ensures
        forall|j: int|
            0 <= j < covered_below(lo, hi, n, shape, k).len() ==> {
                let c = #[trigger] covered_below(lo, hi, n, shape, k)[j];
                c < k && covers(c as int, lo, hi, n, shape)
            },
        forall|c: u32|
            c < k && #[trigger] covers(c as int, lo, hi, n, shape) ==> covered_below(
                lo,
                hi,
                n,
                shape,
                k,
            ).contains(c),
    decreases k,
{
    if k > 0 {
        lemma_covered_below(lo, hi, n, shape, (k - 1) as nat);
        let before = covered_below(lo, hi, n, shape, (k - 1) as nat);
        let now = covered_below(lo, hi, n, shape, k);
        assert forall|c: u32|
            c < k && #[trigger] covers(c as int, lo, hi, n, shape) implies now.contains(c) by {
            if c < k - 1 {
                assert(before.contains(c));
                let j = choose|j: int| 0 <= j < before.len() && before[j] == c;
                assert(now[j] == c);
            } else {
                assert(now.last() == c);
            }
        }
    }
}

proof fn lemma_covered_along(lo: int, hi: int, n: int, shape: int)
    requires
        0 <= shape <= AXIS_LIMIT,
    ensures
        forall|j: int|
            0 <= j < covered_along(lo, hi, n, shape).len() ==> covers(
                #[trigger] covered_along(lo, hi, n, shape)[j] as int,
                lo,
                hi,
                n,
                shape,
            ),
        forall|c: u32|
            #[trigger] covers(c as int, lo, hi, n, shape) ==> covered_along(
                lo,
                hi,
                n,
                shape,
            ).contains(c),
{
    lemma_covered_below(lo, hi, n, shape, chunks_along(shape));
    assert forall|c: u32| #[trigger] covers(c as int, lo, hi, n, shape) implies covered_along(
        lo,
        hi,
        n,
        shape,
    ).contains(c) by {
        assert(c < chunks_along(shape));
    }
}

proof fn lemma_in_product(
    lod: u8,
    zs: Seq<u32>,
    ys: Seq<u32>,
    xs: Seq<u32>,
    a: int,
    b: int,
    c: int,
)
    requires
        0 <= a < zs.len(),
        0 <= b < ys.len(),
        0 <= c < xs.len(),
    ensures
        product(lod, zs, ys, xs).contains(ChunkKey { lod, x: xs[c], y: ys[b], z: zs[a] }),
{
    let ny = ys.len() as int;
    let nx = xs.len() as int;
    let i = (a * ny + b) * nx + c;
    lemma_unflatten(a, b, c, ny, nx);
    lemma_flat_below(a, b, c, zs.len() as int, ny, nx);
    assert(zs.len() * ys.len() * xs.len() == zs.len() as int * ny * nx);
    assert(product(lod, zs, ys, xs)[i] == (ChunkKey { lod, x: xs[c], y: ys[b], z: zs[a] }));
}

/// The native chunks along one axis that a cache chunk overlaps cover it.
proof fn lemma_overlap_covers(k: int, n: int, shape: int)
    requires
        0 <= k,
        n > 0,
        k * 64 < shape,
    ensures
        covers(k, first_native(k, n), last_native(k, n, shape), n, shape),
{
    let base = k * 64;
    let end = chunk_end(k, shape);
    assert((base / n) * n <= base) by (nonlinear_arith)
        requires
            n > 0,
    ;
    assert(end <= ((end - 1) / n + 1) * n) by (nonlinear_arith)
        requires
            n > 0,
    ;
}

/// A plan always covers the chunk that it is for.
pub proof fn law_plan_covers_its_chunk(key: ChunkKey, g: NativeGrid)
    requires
        g.ok(),
        in_volume(key, g.shape),
    ensures
        covered(overlap(key, g), g, key.lod).contains(key),
{
    let b = overlap(key, g);
    assert(g.chunk@[0] > 0 && g.chunk@[1] > 0 && g.chunk@[2] > 0);
    assert(on_axis(key, 0) * 64 < g.shape@[0] && on_axis(key, 1) * 64 < g.shape@[1] && on_axis(key, 2)
        * 64 < g.shape@[2]);
    lemma_axis_has(key.z, g.chunk@[0], g.shape@[0]);
    lemma_axis_has(key.y, g.chunk@[1], g.shape@[1]);
    lemma_axis_has(key.x, g.chunk@[2], g.shape@[2]);
    let zs = covered_along(b.lo@[0] as int, b.hi@[0] as int, g.chunk@[0] as int, g.shape@[0] as int);
    let ys = covered_along(b.lo@[1] as int, b.hi@[1] as int, g.chunk@[1] as int, g.shape@[1] as int);
    let xs = covered_along(b.lo@[2] as int, b.hi@[2] as int, g.chunk@[2] as int, g.shape@[2] as int);
    let z = choose|j: int| 0 <= j < zs.len() && zs[j] == key.z;
    let y = choose|j: int| 0 <= j < ys.len() && ys[j] == key.y;
    let x = choose|j: int| 0 <= j < xs.len() && xs[j] == key.x;
    lemma_in_product(key.lod, zs, ys, xs, z, y, x);
}

proof fn lemma_axis_has(k: u32, n: u64, shape: u64)
    requires
        0 < n <= AXIS_LIMIT,
        shape <= AXIS_LIMIT,
        k * 64 < shape,
    ensures
        covered_along(
            first_native(k as int, n as int) as u64 as int,
            last_native(k as int, n as int, shape as int) as u64 as int,
            n as int,
            shape as int,
        ).contains(k),
{
    let lo = first_native(k as int, n as int);
    let hi = last_native(k as int, n as int, shape as int);
    assert(0 <= lo <= k * 64) by (nonlinear_arith)
        requires
            lo == k * 64 / n as int,
            n > 0,
    ;
    let e = chunk_end(k as int, shape as int) - 1;
    assert(0 <= hi <= e) by (nonlinear_arith)
        requires
            hi == e / n as int,
            0 <= e,
            n > 0,
    ;
    lemma_overlap_covers(k as int, n as int, shape as int);
    lemma_covered_along(lo, hi, n as int, shape as int);
}

/// Every chunk that a box of native chunks is said to fill begins in the
/// volume and overlaps native chunks of that box only.
pub proof fn law_covered_chunks_are_whole(b: NativeBox, g: NativeGrid, lod: u8, i: int)
    requires
        g.ok(),
        0 <= i < covered(b, g, lod).len(),
    ensures
        in_volume(covered(b, g, lod)[i], g.shape),
        ({
            let o = overlap(covered(b, g, lod)[i], g);
            forall|a: int| 0 <= a < 3 ==> #[trigger] b.lo@[a] <= o.lo@[a] && o.hi@[a] <= b.hi@[a]
        }),
{
    let zs = covered_along(b.lo@[0] as int, b.hi@[0] as int, g.chunk@[0] as int, g.shape@[0] as int);
    let ys = covered_along(b.lo@[1] as int, b.hi@[1] as int, g.chunk@[1] as int, g.shape@[1] as int);
    let xs = covered_along(b.lo@[2] as int, b.hi@[2] as int, g.chunk@[2] as int, g.shape@[2] as int);
    let ny = ys.len() as int;
    let nx = xs.len() as int;
    let key = covered(b, g, lod)[i];
    lemma_place_in_lists(i, zs.len() as int, ny, nx);
    assert(g.chunk@[0] > 0 && g.chunk@[1] > 0 && g.chunk@[2] > 0);
    lemma_covered_along(b.lo@[0] as int, b.hi@[0] as int, g.chunk@[0] as int, g.shape@[0] as int);
    lemma_covered_along(b.lo@[1] as int, b.hi@[1] as int, g.chunk@[1] as int, g.shape@[1] as int);
    lemma_covered_along(b.lo@[2] as int, b.hi@[2] as int, g.chunk@[2] as int, g.shape@[2] as int);
    assert(key.z == zs[i / nx / ny] && key.y == ys[(i / nx) % ny] && key.x == xs[i % nx]);
    lemma_covered_overlap(key.z, b.lo@[0], b.hi@[0], g.chunk@[0], g.shape@[0]);
    lemma_covered_overlap(key.y, b.lo@[1], b.hi@[1], g.chunk@[1], g.shape@[1]);
    lemma_covered_overlap(key.x, b.lo@[2], b.hi@[2], g.chunk@[2], g.shape@[2]);
}

proof fn lemma_place_in_lists(i: int, nz: int, ny: int, nx: int)
    requires
        0 <= nz,
        0 <= ny,
        0 <= nx,
        0 <= i < nz * ny * nx,
    ensures
        0 <= i % nx < nx,
        0 <= (i / nx) % ny < ny,
        0 <= i / nx / ny < nz,
{
    assert(nx > 0 && ny > 0) by (nonlinear_arith)
        requires
            0 <= nz,
            0 <= ny,
            0 <= nx,
            0 < nz * ny * nx,
    ;
    let m = nz * ny;
    assert(0 <= i / nx < m) by (nonlinear_arith)
        requires
            0 <= i < m * nx,
            nx > 0,
    ;
    let q = i / nx;
    assert(0 <= q / ny < nz) by (nonlinear_arith)
        requires
            0 <= q < nz * ny,
            ny > 0,
    ;
}

proof fn lemma_covered_overlap(k: u32, lo: u64, hi: u64, n: u64, shape: u64)
    requires
        0 < n <= AXIS_LIMIT,
        shape <= AXIS_LIMIT,
        covers(k as int, lo as int, hi as int, n as int, shape as int),
    ensures
        lo <= first_native(k as int, n as int) as u64,
        last_native(k as int, n as int, shape as int) as u64 <= hi,
{
    let base = k * 64;
    let end = chunk_end(k as int, shape as int);
    assert(lo <= base / n as int <= base) by (nonlinear_arith)
        requires
            lo * n <= base,
            n > 0,
            base >= 0,
    ;
    assert(0 <= (end - 1) / n as int <= hi) by (nonlinear_arith)
        requires
            1 <= end <= (hi + 1) * n,
            n > 0,
    ;
}

/// Whether every voxel of cache chunk `k`, of which there is one, lies along
/// one axis in native chunks `lo` to `hi`.
pub open spec fn voxels_inside(k: int, lo: int, hi: int, n: int, shape: int) -> bool {
    &&& k * 64 < shape
    &&& forall|v: int| k * 64 <= v < chunk_end(k, shape) ==> lo <= #[trigger] native_at(v, n) <= hi
}

/// The native chunk that voxel `v` lies in, along one axis.
pub open spec fn native_at(v: int, n: int) -> int {
    v / n
}

proof fn lemma_covers_voxels(k: int, lo: int, hi: int, n: int, shape: int)
    requires
        0 <= k,
        n > 0,
    ensures
        covers(k, lo, hi, n, shape) <==> voxels_inside(k, lo, hi, n, shape),
{
    let end = chunk_end(k, shape);
    if covers(k, lo, hi, n, shape) {
        assert forall|v: int| k * 64 <= v < end implies lo <= #[trigger] native_at(v, n) <= hi by {
            assert(lo <= v / n <= hi) by (nonlinear_arith)
                requires
                    lo * n <= v < (hi + 1) * n,
                    n > 0,
            ;
        }
    }
    if voxels_inside(k, lo, hi, n, shape) {
        let base = k * 64;
        let last = end - 1;
        assert(lo <= native_at(base, n) <= hi && lo <= native_at(last, n) <= hi);
        assert(lo * n <= base) by (nonlinear_arith)
            requires
                lo <= base / n,
                n > 0,
        ;
        assert(last < (hi + 1) * n) by (nonlinear_arith)
            requires
                last / n <= hi,
                n > 0,
        ;
    }
}

proof fn lemma_covered_below_increases(lo: int, hi: int, n: int, shape: int, k: nat)
    requires
        k <= 0x1_0000_0000,
    ensures
        forall|j: int|
            0 <= j < covered_below(lo, hi, n, shape, k).len() ==> #[trigger] covered_below(
                lo,
                hi,
                n,
                shape,
                k,
            )[j] < k,
        covered_below(lo, hi, n, shape, k).no_duplicates(),
    decreases k,
{
    if k > 0 {
        lemma_covered_below_increases(lo, hi, n, shape, (k - 1) as nat);
    }
}

/// The cache chunks that a box of native chunks can fill are, each once, those
/// with a voxel in the volume and every voxel of it in a native chunk of the
/// box.
pub proof fn law_covered_chunks_are_those_inside(b: NativeBox, g: NativeGrid, lod: u8, key: ChunkKey)
    requires
        g.ok(),
    ensures
        covered(b, g, lod).contains(key) <==> key.lod == lod && forall|a: int|
            0 <= a < 3 ==> voxels_inside(
                #[trigger] on_axis(key, a),
                b.lo@[a] as int,
                b.hi@[a] as int,
                g.chunk@[a] as int,
                g.shape@[a] as int,
            ),
        covered(b, g, lod).no_duplicates(),
{
    assert(g.chunk@[0] > 0 && g.chunk@[1] > 0 && g.chunk@[2] > 0);
    assert(on_axis(key, 0) == key.z && on_axis(key, 1) == key.y && on_axis(key, 2) == key.x);
    let (l0, h0, n0, s0) = (b.lo@[0] as int, b.hi@[0] as int, g.chunk@[0] as int, g.shape@[0] as int);
    let (l1, h1, n1, s1) = (b.lo@[1] as int, b.hi@[1] as int, g.chunk@[1] as int, g.shape@[1] as int);
    let (l2, h2, n2, s2) = (b.lo@[2] as int, b.hi@[2] as int, g.chunk@[2] as int, g.shape@[2] as int);
    let zs = covered_along(l0, h0, n0, s0);
    let ys = covered_along(l1, h1, n1, s1);
    let xs = covered_along(l2, h2, n2, s2);
    lemma_covered_along(l0, h0, n0, s0);
    lemma_covered_along(l1, h1, n1, s1);
    lemma_covered_along(l2, h2, n2, s2);
    lemma_covers_voxels(key.z as int, l0, h0, n0, s0);
    lemma_covers_voxels(key.y as int, l1, h1, n1, s1);
    lemma_covers_voxels(key.x as int, l2, h2, n2, s2);
    let all = covered(b, g, lod);
    let ny = ys.len() as int;
    let nx = xs.len() as int;
    if all.contains(key) {
        let i = choose|i: int| 0 <= i < all.len() && all[i] == key;
        lemma_place_in_lists(i, zs.len() as int, ny, nx);
        assert(covers(zs[i / nx / ny] as int, l0, h0, n0, s0));
        assert(covers(ys[(i / nx) % ny] as int, l1, h1, n1, s1));
        assert(covers(xs[i % nx] as int, l2, h2, n2, s2));
    }
    if key.lod == lod && covers(key.z as int, l0, h0, n0, s0) && covers(key.y as int, l1, h1, n1, s1)
        && covers(key.x as int, l2, h2, n2, s2) {
        let z = choose|j: int| 0 <= j < zs.len() && zs[j] == key.z;
        let y = choose|j: int| 0 <= j < ys.len() && ys[j] == key.y;
        let x = choose|j: int| 0 <= j < xs.len() && xs[j] == key.x;
        assert(zs.contains(key.z) && ys.contains(key.y) && xs.contains(key.x));
        lemma_in_product(lod, zs, ys, xs, z, y, x);
    }
    lemma_covered_below_increases(l0, h0, n0, s0, chunks_along(s0));
    lemma_covered_below_increases(l1, h1, n1, s1, chunks_along(s1));
    lemma_covered_below_increases(l2, h2, n2, s2, chunks_along(s2));
    assert forall|i: int, j: int| 0 <= i < all.len() && 0 <= j < all.len() && i != j implies all[i]
        != all[j] by {
        lemma_place_in_lists(i, zs.len() as int, ny, nx);
        lemma_place_in_lists(j, zs.len() as int, ny, nx);
        if all[i] == all[j] {
            assert(zs[i / nx / ny] == zs[j / nx / ny]);
            assert(ys[(i / nx) % ny] == ys[(j / nx) % ny]);
            assert(xs[i % nx] == xs[j % nx]);
            lemma_parts_determine(i, j, ny, nx);
        }
    }
}

proof fn lemma_parts_determine(i: int, j: int, ny: int, nx: int)
    requires
        nx > 0,
        ny > 0,
        i % nx == j % nx,
        (i / nx) % ny == (j / nx) % ny,
        i / nx / ny == j / nx / ny,
    ensures
        i == j,
{
    vstd::arithmetic::div_mod::lemma_fundamental_div_mod(i, nx);
    vstd::arithmetic::div_mod::lemma_fundamental_div_mod(j, nx);
    vstd::arithmetic::div_mod::lemma_fundamental_div_mod(i / nx, ny);
    vstd::arithmetic::div_mod::lemma_fundamental_div_mod(j / nx, ny);
}

/// One level of a multiscale volume.
#[derive(Debug)]
pub struct ZarrLevel {
    pub shape: Vec<u64>,
    pub chunks: Vec<u64>,
}

impl ZarrLevel {
    /// Whether the level has three axes.
    pub open spec fn is_3d(&self) -> bool {
        self.shape@.len() == 3 && self.chunks@.len() == 3
    }

    /// The level's shape as a grid.
    pub open spec fn grid(&self) -> NativeGrid {
        NativeGrid {
            shape: [self.shape@[0], self.shape@[1], self.shape@[2]],
            chunk: [self.chunks@[0], self.chunks@[1], self.chunks@[2]],
        }
    }
}

/// What a level that is not three-dimensional is refused with.
pub open spec fn not_3d(lod: u8, shape: Seq<u64>, chunks: Seq<u64>) -> Seq<char> {
    "expected 3D zarr at lod "@ + text::decimal(lod as nat) + ", got shape="@ + text::list_text(shape)
        + " chunks="@ + text::list_text(chunks)
}

/// The backfiller of an OME-Zarr volume.
#[derive(Debug)]
pub struct OmeZarrBackfiller {
    pub volume_id: String,
    pub extent_xyz: [u32; 3],
    pub levels: Vec<ZarrLevel>,
}

/// The low thirty-two bits of entry `i` of a shape; zero if it has none.
pub open spec fn axis_or_zero(levels: Seq<ZarrLevel>, i: int) -> u32 {
    if levels.len() > 0 && i < levels[0].shape@.len() {
        (levels[0].shape@[i] % 0x1_0000_0000) as u32
    } else {
        0
    }
}

fn axis_of(levels: &Vec<ZarrLevel>, i: usize) -> (r: u32)
    ensures
        r == axis_or_zero(levels@, i as int),
{
    if levels.len() > 0 && i < levels[0].shape.len() {
        (levels[0].shape[i] % 0x1_0000_0000) as u32
    } else {
        0
    }
}

impl OmeZarrBackfiller {
    /// A backfiller for the levels, finest first. The volume's extent is the
    /// finest level's shape.
    pub fn from_ome(volume_id: String, levels: Vec<ZarrLevel>) -> (b: OmeZarrBackfiller)
        ensures
            b.volume_id == volume_id,
            b.levels == levels,
            b.extent_xyz@ == seq![
                axis_or_zero(levels@, 2),
                axis_or_zero(levels@, 1),
                axis_or_zero(levels@, 0),
            ],
    {
        let extent_xyz: [u32; 3] = [axis_of(&levels, 2), axis_of(&levels, 1), axis_of(&levels, 0)];
        assert(extent_xyz@ =~= seq![
            axis_or_zero(levels@, 2),
            axis_or_zero(levels@, 1),
            axis_or_zero(levels@, 0),
        ]);
        OmeZarrBackfiller { volume_id, extent_xyz, levels }
    }

    /// The coarsest level.
    pub fn max_lod(&self) -> (lod: u8)
        requires
            self.levels@.len() <= 256,
        ensures
            lod == (if self.levels@.len() == 0 {
                0
            } else {
                self.levels@.len() - 1
            }),
    {
        if self.levels.len() == 0 {
            0
        } else {
            (self.levels.len() - 1) as u8
        }
    }

    /// The volume's extent in voxels, x first.
    pub fn voxel_extent(&self) -> (e: [u32; 3])
        ensures
            e == self.extent_xyz,
    {
        self.extent_xyz
    }

    /// The volume's name.
    pub fn volume_id(&self) -> (s: String)
        ensures
            s@ == self.volume_id@,
    {
        self.volume_id.clone()
    }

    /// The shape of a chunk's level, if there is such a level and it has three
    /// axes.
    pub fn grid_for(&self, key: ChunkKey) -> (r: Result<NativeGrid, BackfillError>)
        ensures
            match r {
                Ok(g) => {
                    &&& key.lod < self.levels@.len()
                    &&& self.levels@[key.lod as int].is_3d()
                    &&& g == self.levels@[key.lod as int].grid()
                },
                Err(BackfillError::OutOfBounds) => key.lod >= self.levels@.len(),
                Err(BackfillError::Permanent(s)) => {
                    &&& key.lod < self.levels@.len()
                    &&& !self.levels@[key.lod as int].is_3d()
                    &&& s@ == not_3d(
                        key.lod,
                        self.levels@[key.lod as int].shape@,
                        self.levels@[key.lod as int].chunks@,
                    )
                },
                Err(BackfillError::Transient(_)) => false,
            },
    {
        let lod: usize = key.lod as usize;
        if lod >= self.levels.len() {
            return Err(BackfillError::OutOfBounds);
        }
        let level = &self.levels[lod];
        if level.shape.len() != 3 || level.chunks.len() != 3 {
            let mut out = text::to_chars("expected 3D zarr at lod ");
            text::push_decimal(&mut out, key.lod as u64);
            text::push_text(&mut out, ", got shape=");
            text::push_list(&mut out, &level.shape);
            text::push_text(&mut out, " chunks=");
            text::push_list(&mut out, &level.chunks);
            return Err(BackfillError::Permanent(text::from_chars(&out)));
        }
        let g = NativeGrid {
            shape: [level.shape[0], level.shape[1], level.shape[2]],
            chunk: [level.chunks[0], level.chunks[1], level.chunks[2]],
        };
        assert(g.shape =~= level.grid().shape);
        assert(g.chunk =~= level.grid().chunk);
        Ok(g)
    }

    /// How a cache chunk is filled (see `plan_native`). A level that the volume
    /// does not have counts as out of bounds.
    pub fn plan(&self, key: ChunkKey) -> (r: Result<NativePlan, BackfillError>)
        requires
            key.lod < self.levels@.len() && self.levels@[key.lod as int].is_3d()
                ==> self.levels@[key.lod as int].grid().ok(),
        ensures
            ({
                let level = self.levels@[key.lod as int];
                let g = level.grid();
                let b = overlap(key, g);
                match r {
                    Ok(p) => {
                        &&& key.lod < self.levels@.len()
                        &&& level.is_3d()
                        &&& in_volume(key, g.shape)
                        &&& p.covered@ == covered(b, g, key.lod)
                        &&& p.sources@.len() == volume_of(b)
                        &&& forall|i: int|
                            0 <= i < p.sources@.len() ==> {
                                &&& (#[trigger] p.sources@[i]).coord == box_coord(b, i)
                                &&& p.sources@[i].name@ == native_name(
                                    self.volume_id@,
                                    key.lod,
                                    box_coord(b, i),
                                )
                            }
                    },
                    Err(BackfillError::OutOfBounds) => key.lod >= self.levels@.len() || (
                    level.is_3d() && !in_volume(key, g.shape)),
                    Err(BackfillError::Permanent(s)) => {
                        &&& key.lod < self.levels@.len()
                        &&& !level.is_3d()
                        &&& s@ == not_3d(key.lod, level.shape@, level.chunks@)
                    },
                    Err(BackfillError::Transient(_)) => false,
                }
            }),
    {
        let g = match self.grid_for(key) {
            Ok(g) => g,
            Err(e) => {
                return Err(e);
            },
        };
        plan_native(self.volume_id.as_str(), key, g)
    }
}

/// Where a native chunk comes from: a download if it has a URL, and else a
/// local read by the cache's own workers.
pub fn native_spec(source: u64, url: Option<String>) -> (s: SourceSpec)
    ensures
        s == (match url {
            Some(url) => SourceSpec::Download { source, url, range: None },
            None => SourceSpec::Compute { source },
        }),
{
    match url {
        Some(url) => SourceSpec::Download { source, url, range: None },
        None => SourceSpec::Compute { source },
    }
}

/// What is said of a native chunk that could not be read for now.
pub open spec fn not_ready(coord: [u64; 3]) -> Seq<char> {
    "async native chunk "@ + text::list_text(coord@) + " not ready"@
}

/// What a local read came to. An array that knows its missing chunks takes one
/// that cannot be read as absent; another tries again later.
pub fn local_outcome(
    loaded: Option<SourcePayload>,
    definitive_missing: bool,
    coord: [u64; 3],
) -> (r: SourceOutcome)
    ensures
        match loaded {
            Some(p) => r matches Ok(Some(q)) && q == p,
            None => if definitive_missing {
                r matches Ok(None)
            } else {
                r matches Err(BackfillError::Transient(Reason::Reported(s))) && s@ == not_ready(coord)
            },
        },
{
    match loaded {
        Some(p) => Ok(Some(p)),
        None => {
            if definitive_missing {
                Ok(None)
            } else {
                let mut out = text::to_chars("async native chunk ");
                text::push_list(&mut out, &coord);
                text::push_text(&mut out, " not ready");
                Err(BackfillError::Transient(Reason::Reported(text::from_chars(&out))))
            }
        },
    }
}

/// Those of the first `n` sources that delivered bytes, with the handles of
/// the bytes.
pub open spec fn delivered(outcomes: Seq<SourceOutcome>, n: nat) -> Seq<(usize, u64)>
    decreases n,
{
    if n == 0 {
        Seq::empty()
    } else {
        let before = delivered(outcomes, (n - 1) as nat);
        match outcomes[n - 1] {
            Ok(Some(SourcePayload::Bytes(h))) => before.push(((n - 1) as usize, h)),
            _ => before,
        }
    }
}

/// Whether some source delivered something other than bytes.
pub open spec fn odd_payload(outcomes: Seq<SourceOutcome>) -> bool {
    exists|i: int|
        0 <= i < outcomes.len() && (#[trigger] outcomes[i]) matches Ok(
            Some(SourcePayload::Chunk(_)),
        )
}

/// What an extract has to decode: the sources that delivered bytes. It fails
/// as `triage_outcomes` does, and on a payload that is not bytes.
pub fn to_decode(outcomes: &Vec<SourceOutcome>) -> (r: Result<Vec<(usize, u64)>, BackfillError>)
    ensures
        match triaged(outcomes@, outcomes@.len()) {
            Triage::Permanent(s) => r matches Err(BackfillError::Permanent(e)) && e@ == s,
            Triage::Transient(q) => r matches Err(BackfillError::Transient(e)) && e == q,
            Triage::Clear => if odd_payload(outcomes@) {
                r matches Err(BackfillError::Permanent(e)) && e@ == "source payload type"@
            } else {
                r matches Ok(v) && v@ == delivered(outcomes@, outcomes@.len())
            },
        },
{
    match triage_outcomes(outcomes) {
        Ok(()) => {},
        Err(e) => {
            return Err(e);
        },
    }
    let mut out: Vec<(usize, u64)> = Vec::new();
    let mut i: usize = 0;
    while i < outcomes.len()
        invariant
            i <= outcomes@.len(),
            triaged(outcomes@, outcomes@.len()) is Clear,
            out@ == delivered(outcomes@, i as nat),
            forall|j: int|
                0 <= j < i ==> !((#[trigger] outcomes@[j]) matches Ok(
                    Some(SourcePayload::Chunk(_)),
                )),
        decreases outcomes.len() - i,
    {
        match &outcomes[i] {
            Ok(Some(SourcePayload::Bytes(h))) => {
                out.push((i, *h));
            },
            Ok(Some(SourcePayload::Chunk(_))) => {
                assert(outcomes@[i as int] matches Ok(
                    Some(SourcePayload::Chunk(_)),
                ));
                return Err(BackfillError::Permanent(text::owned("source payload type")));
            },
            _ => {},
        }
        i = i + 1;
    }
    Ok(out)
}

/// The first decoded native chunk of a coordinate is the one that is found.
proof fn lemma_decoded_at(decoded: Seq<Decoded>, j: int)
    requires
        0 <= j < decoded.len(),
        forall|i: int| 0 <= i < j ==> (#[trigger] decoded[i]).coord@ != decoded[j].coord@,
    ensures
        ({
            let c = decoded[j].coord@;
            decoded_at(decoded, c[0] as int, c[1] as int, c[2] as int) == Some(decoded[j].bytes@)
        }),
    decreases j,
{
    let c = decoded[j].coord@;
    if j > 0 {
        let rest = decoded.drop_first();
        assert forall|i: int| 0 <= i < j - 1 implies (#[trigger] rest[i]).coord@ != rest[j - 1].coord@ by {
            assert(rest[i] == decoded[i + 1]);
        }
        lemma_decoded_at(rest, j - 1);
        let d = decoded[0].coord@;
        if d[0] == c[0] && d[1] == c[1] && d[2] == c[2] {
            assert(d =~= c);
        }
    }
}

/// What is found was decoded.
proof fn lemma_found_was_decoded(decoded: Seq<Decoded>, z: int, y: int, x: int) -> (j: int)
    requires
        decoded_at(decoded, z, y, x) is Some,
    ensures
        0 <= j < decoded.len(),
        decoded[j].coord@[0] == z,
        decoded[j].coord@[1] == y,
        decoded[j].coord@[2] == x,
        decoded_at(decoded, z, y, x) == Some(decoded[j].bytes@),
    decreases decoded.len(),
{
    let d = decoded[0].coord@;
    if d[0] == z && d[1] == y && d[2] == x {
        0
    } else {
        let k = lemma_found_was_decoded(decoded.drop_first(), z, y, x);
        assert(decoded.drop_first()[k] == decoded[k + 1]);
        k + 1
    }
}

/// Voxel `(lz, ly, lx)` of a chunk, as it is flattened.
proof fn lemma_flat_voxel(lz: int, ly: int, lx: int)
    requires
        0 <= lz < 64,
        0 <= ly < 64,
        0 <= lx < 64,
    ensures
        0 <= (lz * 64 + ly) * 64 + lx < CHUNK_VOXELS,
        ((lz * 64 + ly) * 64 + lx) / 4096 == lz,
        (((lz * 64 + ly) * 64 + lx) / 64) % 64 == ly,
        ((lz * 64 + ly) * 64 + lx) % 64 == lx,
{
}

/// A coordinate taken apart into a native chunk and a place in it.
proof fn lemma_native_parts(v: int, n: int, c: int, a: int)
    requires
        0 <= a < n,
        v == c * n + a,
    ensures
        v / n == c,
        v % n == a,
{
    vstd::arithmetic::div_mod::lemma_fundamental_div_mod_converse(v, n, c, a);
}

/// Along one axis, the native chunk that a voxel of a cache chunk lies in is one
/// of those that the cache chunk overlaps.
proof fn lemma_native_in_overlap(k: u32, n: u64, shape: u64, l: int, c: u64, a: int)
    requires
        0 < n <= AXIS_LIMIT,
        shape <= AXIS_LIMIT,
        0 <= l < 64,
        0 <= a < n,
        c * n + a == k * 64 + l,
        k * 64 + l < shape,
    ensures
        first_native(k as int, n as int) as u64 <= c <= last_native(k as int, n as int, shape as int) as u64,
{
    lemma_last_native_fits(k, n, shape);
    let v = k * 64 + l;
    lemma_native_parts(v, n as int, c as int, a);
    let end = chunk_end(k as int, shape as int);
    assert(0 <= (k * 64) / n as int <= v / n as int) by (nonlinear_arith)
        requires
            0 <= k * 64 <= v,
            n > 0,
    ;
    assert(v / n as int <= (end - 1) / n as int) by (nonlinear_arith)
        requires
            v <= end - 1,
            n > 0,
    ;
}

/// Every native chunk of a box is one of those counted in it.
proof fn lemma_box_has(b: NativeBox, coord: [u64; 3])
    requires
        in_box(coord, b),
    ensures
        exists|i: int| 0 <= i < volume_of(b) && #[trigger] box_coord(b, i) == coord,
{
    let (ny, nx) = (width(b, 1), width(b, 2));
    let (z, y, x) = (coord@[0] - b.lo@[0], coord@[1] - b.lo@[1], coord@[2] - b.lo@[2]);
    let i = (z * ny + y) * nx + x;
    lemma_unflatten(z, y, x, ny, nx);
    lemma_flat_below(z, y, x, width(b, 0), ny, nx);
    assert(box_coord(b, i) =~= coord);
}

/// A voxel of a cut chunk is the voxel of the native chunk that lies in the same
/// place of the volume, both with x running fastest. That native chunk is one of
/// those that the chunk's plan asks for, and its chunk does not come out empty.
pub proof fn law_cut_voxel_is_the_native_one(
    decoded: Seq<Decoded>,
    g: NativeGrid,
    key: ChunkKey,
    j: int,
    lz: int,
    ly: int,
    lx: int,
    a: int,
    b: int,
    c: int,
)
    requires
        g.ok(),
        0 <= j < decoded.len(),
        forall|i: int| 0 <= i < j ==> (#[trigger] decoded[i]).coord@ != decoded[j].coord@,
        0 <= lz < 64,
        0 <= ly < 64,
        0 <= lx < 64,
        0 <= a < g.chunk@[0],
        0 <= b < g.chunk@[1],
        0 <= c < g.chunk@[2],
        decoded[j].coord@[0] * g.chunk@[0] + a == key.z * 64 + lz < g.shape@[0],
        decoded[j].coord@[1] * g.chunk@[1] + b == key.y * 64 + ly < g.shape@[1],
        decoded[j].coord@[2] * g.chunk@[2] + c == key.x * 64 + lx < g.shape@[2],
    ensures
        cut(decoded, g, key)[(lz * 64 + ly) * 64 + lx] == decoded[j].bytes@[(a * g.chunk@[1] + b)
            * g.chunk@[2] + c],
        extracted(decoded, g, key) == Some(cut(decoded, g, key)),
        exists|i: int|
            0 <= i < volume_of(overlap(key, g)) && #[trigger] box_coord(overlap(key, g), i)
                == decoded[j].coord,
{
    let d = decoded[j].coord;
    let (nz, ny, nx) = (g.chunk@[0], g.chunk@[1], g.chunk@[2]);
    assert(0 < nz <= AXIS_LIMIT && 0 < ny <= AXIS_LIMIT && 0 < nx <= AXIS_LIMIT);
    assert(g.shape@[0] <= AXIS_LIMIT && g.shape@[1] <= AXIS_LIMIT && g.shape@[2] <= AXIS_LIMIT);
    lemma_flat_voxel(lz, ly, lx);
    lemma_native_parts(key.z * 64 + lz, nz as int, d@[0] as int, a);
    lemma_native_parts(key.y * 64 + ly, ny as int, d@[1] as int, b);
    lemma_native_parts(key.x * 64 + lx, nx as int, d@[2] as int, c);
    lemma_decoded_at(decoded, j);
    lemma_native_in_overlap(key.z, nz, g.shape@[0], lz, d@[0], a);
    lemma_native_in_overlap(key.y, ny, g.shape@[1], ly, d@[1], b);
    lemma_native_in_overlap(key.x, nx, g.shape@[2], lx, d@[2], c);
    assert(in_box(d, overlap(key, g)));
    lemma_box_has(overlap(key, g), d);
}

/// A voxel of a cut chunk is zero beyond the volume's end, and where its native
/// chunk was not decoded.
pub proof fn law_cut_voxel_is_zero_without_data(
    decoded: Seq<Decoded>,
    g: NativeGrid,
    key: ChunkKey,
    native: [u64; 3],
    lz: int,
    ly: int,
    lx: int,
    a: int,
    b: int,
    c: int,
)
    requires
        0 <= lz < 64,
        0 <= ly < 64,
        0 <= lx < 64,
        0 <= a < g.chunk@[0],
        0 <= b < g.chunk@[1],
        0 <= c < g.chunk@[2],
        native@[0] * g.chunk@[0] + a == key.z * 64 + lz,
        native@[1] * g.chunk@[1] + b == key.y * 64 + ly,
        native@[2] * g.chunk@[2] + c == key.x * 64 + lx,
        key.z * 64 + lz >= g.shape@[0] || key.y * 64 + ly >= g.shape@[1] || key.x * 64 + lx >= g.shape@[2]
            || forall|j: int| 0 <= j < decoded.len() ==> (#[trigger] decoded[j]).coord@ != native@,
    ensures
        cut(decoded, g, key)[(lz * 64 + ly) * 64 + lx] == 0,
{
    lemma_flat_voxel(lz, ly, lx);
    lemma_native_parts(key.z * 64 + lz, g.chunk@[0] as int, native@[0] as int, a);
    lemma_native_parts(key.y * 64 + ly, g.chunk@[1] as int, native@[1] as int, b);
    lemma_native_parts(key.x * 64 + lx, g.chunk@[2] as int, native@[2] as int, c);
    if decoded_at(decoded, native@[0] as int, native@[1] as int, native@[2] as int) is Some {
        let j = lemma_found_was_decoded(
            decoded,
            native@[0] as int,
            native@[1] as int,
            native@[2] as int,
        );
        assert(decoded[j].coord@ =~= native@);
    }
}

/// Whether a native chunk holds its part of a volume, given as what stands at
/// `(z, y, x)`: `voxels` at `coord`, x running fastest.
pub open spec fn holds_part(
    voxels: Seq<u8>,
    coord: [u64; 3],
    g: NativeGrid,
    volume: spec_fn(int, int, int) -> u8,
) -> bool {
    forall|a: int, b: int, c: int, i: int|
        0 <= a < g.chunk@[0] && 0 <= b < g.chunk@[1] && 0 <= c < g.chunk@[2] && i == (a * g.chunk@[1]
            + b) * g.chunk@[2] + c ==> #[trigger] voxels[i] == #[trigger] volume(
            coord@[0] * g.chunk@[0] + a,
            coord@[1] * g.chunk@[1] + b,
            coord@[2] * g.chunk@[2] + c,
        )
}

/// A chunk whose plan's native chunks were all decoded, each holding its part of
/// a volume, is cut out as the volume has it, and is zero beyond the volume's
/// end.
pub proof fn law_cut_chunk_is_the_volume(
    decoded: Seq<Decoded>,
    g: NativeGrid,
    key: ChunkKey,
    volume: spec_fn(int, int, int) -> u8,
    lz: int,
    ly: int,
    lx: int,
)
    requires
        g.ok(),
        forall|j: int|
            0 <= j < decoded.len() ==> holds_part(
                (#[trigger] decoded[j]).bytes@,
                decoded[j].coord,
                g,
                volume,
            ),
        forall|i: int|
            0 <= i < volume_of(overlap(key, g)) ==> exists|j: int|
                0 <= j < decoded.len() && (#[trigger] decoded[j]).coord == #[trigger] box_coord(
                    overlap(key, g),
                    i,
                ),
        0 <= lz < 64,
        0 <= ly < 64,
        0 <= lx < 64,
    ensures
        cut(decoded, g, key)[(lz * 64 + ly) * 64 + lx] == if key.z * 64 + lz < g.shape@[0] && key.y * 64
            + ly < g.shape@[1] && key.x * 64 + lx < g.shape@[2] {
            volume(key.z * 64 + lz, key.y * 64 + ly, key.x * 64 + lx)
        } else {
            0
        },
{
    let (z, y, x) = (key.z * 64 + lz, key.y * 64 + ly, key.x * 64 + lx);
    lemma_flat_voxel(lz, ly, lx);
    if z < g.shape@[0] && y < g.shape@[1] && x < g.shape@[2] {
        let (nz, ny, nx) = (g.chunk@[0], g.chunk@[1], g.chunk@[2]);
        assert(0 < nz <= AXIS_LIMIT && 0 < ny <= AXIS_LIMIT && 0 < nx <= AXIS_LIMIT);
        assert(g.shape@[0] <= AXIS_LIMIT && g.shape@[1] <= AXIS_LIMIT && g.shape@[2] <= AXIS_LIMIT);
        lemma_taken_apart(z, nz as int);
        lemma_taken_apart(y, ny as int);
        lemma_taken_apart(x, nx as int);
        let coord = [
            (z / nz as int) as u64,
            (y / ny as int) as u64,
            (x / nx as int) as u64,
        ];
        let (a, b, c) = (z % nz as int, y % ny as int, x % nx as int);
        lemma_native_in_overlap(key.z, nz, g.shape@[0], lz, coord@[0], a);
        lemma_native_in_overlap(key.y, ny, g.shape@[1], ly, coord@[1], b);
        lemma_native_in_overlap(key.x, nx, g.shape@[2], lx, coord@[2], c);
        lemma_box_has(overlap(key, g), coord);
        let i = choose|i: int|
            0 <= i < volume_of(overlap(key, g)) && #[trigger] box_coord(overlap(key, g), i) == coord;
        let k = choose|k: int|
            0 <= k < decoded.len() && (#[trigger] decoded[k]).coord == box_coord(overlap(key, g), i);
        assert(decoded[k].coord == coord);
        lemma_decoded_found(decoded, k);
        let j = lemma_found_was_decoded(decoded, z / nz as int, y / ny as int, x / nx as int);
        let d = decoded[j].coord;
        assert(d@ =~= coord@);
        let at = (a * ny + b) * nx + c;
        assert(holds_part(decoded[j].bytes@, d, g, volume));
        assert(decoded[j].bytes@[at] == volume(d@[0] * nz + a, d@[1] * ny + b, d@[2] * nx + c));
    }
}

proof fn lemma_taken_apart(v: int, n: int)
    requires
        n > 0,
        v >= 0,
    ensures
        0 <= v % n < n,
        0 <= v / n <= v,
        (v / n) * n + v % n == v,
{
    vstd::arithmetic::div_mod::lemma_fundamental_div_mod(v, n);
    assert((v / n) * n == n * (v / n)) by (nonlinear_arith);
    assert(0 <= v / n <= v) by (nonlinear_arith)
        requires
            n > 0,
            v >= 0,
    ;
}

/// What was decoded is found.
proof fn lemma_decoded_found(decoded: Seq<Decoded>, k: int)
    requires
        0 <= k < decoded.len(),
    ensures
        ({
            let c = decoded[k].coord@;
            decoded_at(decoded, c[0] as int, c[1] as int, c[2] as int) is Some
        }),
    decreases k,
{
    if k > 0 {
        assert(decoded.drop_first()[k - 1] == decoded[k]);
        lemma_decoded_found(decoded.drop_first(), k - 1);
    }
}

/// A fill goes ahead only where no source failed. A failure that trying again
/// cannot mend outweighs one that it may, and of each kind the first counts.
pub proof fn law_worst_failure_counts(outcomes: Seq<SourceOutcome>, n: nat, i: int)
    requires
        0 <= i < n <= outcomes.len(),
    ensures
        outcomes[i] is Err ==> !(triaged(outcomes, n) is Clear),
        (outcomes[i] matches Err(e) && !(e is Transient)) ==> triaged(outcomes, n) is Permanent,
        ((outcomes[i] matches Err(BackfillError::Permanent(_))) && forall|j: int|
            0 <= j < i ==> (#[trigger] outcomes[j] is Ok || outcomes[j]->Err_0 is Transient)) ==> triaged(outcomes, n)
            == Triage::Permanent(outcomes[i]->Err_0->Permanent_0@),
        ((outcomes[i] matches Err(BackfillError::Transient(_))) && (forall|j: int|
            0 <= j < i ==> #[trigger] outcomes[j] is Ok) && (forall|j: int|
            0 <= j < n ==> (#[trigger] outcomes[j] is Ok || outcomes[j]->Err_0 is Transient))) ==> triaged(outcomes, n)
            == Triage::Transient(outcomes[i]->Err_0->Transient_0),
        (forall|j: int| 0 <= j < n ==> #[trigger] outcomes[j] is Ok) ==> triaged(outcomes, n) is Clear,
{
    lemma_triage_before(outcomes, i as nat);
    lemma_triage_after(outcomes, (i + 1) as nat, n);
    lemma_triage_before(outcomes, n);
}

proof fn lemma_triage_before(outcomes: Seq<SourceOutcome>, n: nat)
    requires
        n <= outcomes.len(),
    ensures
        (forall|j: int| 0 <= j < n ==> #[trigger] outcomes[j] is Ok) ==> triaged(outcomes, n) is Clear,
        (forall|j: int|
            0 <= j < n ==> (#[trigger] outcomes[j] is Ok || outcomes[j]->Err_0 is Transient)) ==> !(triaged(
            outcomes,
            n,
        ) is Permanent),
    decreases n,
{
    if n > 0 {
        lemma_triage_before(outcomes, (n - 1) as nat);
    }
}

proof fn lemma_triage_after(outcomes: Seq<SourceOutcome>, m: nat, n: nat)
    requires
        m <= n <= outcomes.len(),
    ensures
        triaged(outcomes, m) is Permanent ==> triaged(outcomes, n) == triaged(outcomes, m),
        triaged(outcomes, m) is Transient ==> !(triaged(outcomes, n) is Clear),
        (triaged(outcomes, m) is Transient && forall|j: int|
            0 <= j < n ==> (#[trigger] outcomes[j] is Ok || outcomes[j]->Err_0 is Transient)) ==> triaged(outcomes, n)
            == triaged(outcomes, m),
    decreases n - m,
{
    if m < n {
        lemma_triage_after(outcomes, m, (n - 1) as nat);
    }
}

/// The name of a native chunk holds its level and its place on the three axes.
pub proof fn law_native_name_names_its_place(volume_id: Seq<char>, lod: u8, coord: [u64; 3]) -> (parts: (
    Seq<char>,
    Seq<char>,
    Seq<char>,
    Seq<char>,
))
    ensures
        native_name(volume_id, lod, coord) == volume_id + "/L"@ + parts.0 + "/"@ + parts.1 + "/"@ + parts.2 + "/"@
            + parts.3,
        text::parsed_unsigned(parts.0, u64::MAX as nat) == Some(lod as nat),
        text::parsed_unsigned(parts.1, u64::MAX as nat) == Some(coord@[0] as nat),
        text::parsed_unsigned(parts.2, u64::MAX as nat) == Some(coord@[1] as nat),
        text::parsed_unsigned(parts.3, u64::MAX as nat) == Some(coord@[2] as nat),
        parts.0.len() >= 2,
{
    let max = u64::MAX as nat;
    text::law_numeral_reads_back(lod as nat, 2, max);
    text::law_numeral_reads_back(coord@[0] as nat, 0, max);
    text::law_numeral_reads_back(coord@[1] as nat, 0, max);
    text::law_numeral_reads_back(coord@[2] as nat, 0, max);
    (
        text::padded(lod as nat, 2),
        text::decimal(coord@[0] as nat),
        text::decimal(coord@[1] as nat),
        text::decimal(coord@[2] as nat),
    )
}

/// A chunk is empty where none of the native chunks that hold a voxel of it came,
/// and has its voxels as soon as one did.
pub proof fn law_chunk_without_data_is_empty(decoded: Seq<Decoded>, g: NativeGrid, key: ChunkKey)
    requires
        g.ok(),
        in_volume(key, g.shape),
    ensures
        extracted(decoded, g, key) is None <==> forall|j: int, i: int|
            0 <= j < decoded.len() && 0 <= i < volume_of(overlap(key, g)) ==> (#[trigger] decoded[j]).coord
                != #[trigger] box_coord(overlap(key, g), i),
        extracted(decoded, g, key) matches Some(v) ==> v.len() == 64 * 64 * 64,
{
    let b = overlap(key, g);
    lemma_overlap_fits(key, g);
    if any_decoded(decoded, b) {
        let j = choose|j: int| 0 <= j < decoded.len() && in_box((#[trigger] decoded[j]).coord, b);
        lemma_box_has(b, decoded[j].coord);
        let i = choose|i: int| 0 <= i < volume_of(b) && #[trigger] box_coord(b, i) == decoded[j].coord;
        assert(decoded[j].coord == box_coord(b, i));
    } else {
        assert(on_axis(key, 0) * 64 < g.shape@[0] && on_axis(key, 1) * 64 < g.shape@[1] && on_axis(key, 2)
            * 64 < g.shape@[2]);
        assert(g.chunk@[0] > 0 && g.chunk@[1] > 0 && g.chunk@[2] > 0);
        assert(b.hi@[0] <= AXIS_LIMIT && b.hi@[1] <= AXIS_LIMIT && b.hi@[2] <= AXIS_LIMIT);
        lemma_first_before_last(key.z, g.chunk@[0], g.shape@[0]);
        lemma_first_before_last(key.y, g.chunk@[1], g.shape@[1]);
        lemma_first_before_last(key.x, g.chunk@[2], g.shape@[2]);
        assert forall|j: int, i: int| 0 <= j < decoded.len() && 0 <= i < volume_of(b) implies (
        #[trigger] decoded[j]).coord != #[trigger] box_coord(b, i) by {
            lemma_counted_is_in_box(b, i);
            assert(!in_box(decoded[j].coord, b));
        }
    }
}

proof fn lemma_first_before_last(k: u32, n: u64, shape: u64)
    requires
        0 < n <= AXIS_LIMIT,
        shape <= AXIS_LIMIT,
        k * 64 < shape,
    ensures
        0 <= first_native(k as int, n as int) <= last_native(k as int, n as int, shape as int) <= AXIS_LIMIT,
{
    let (a, b) = (k as int * 64, chunk_end(k as int, shape as int) - 1);
    lemma_last_native_fits(k, n, shape);
    assert(0 <= a / (n as int) <= b / (n as int) <= b) by (nonlinear_arith)
        requires
            0 <= a <= b,
            n > 0,
    ;
}

proof fn lemma_counted_is_in_box(b: NativeBox, i: int)
    requires
        b.lo@[0] <= b.hi@[0],
        b.lo@[1] <= b.hi@[1],
        b.lo@[2] <= b.hi@[2],
        0 <= i < volume_of(b),
    ensures
        in_box(box_coord(b, i), b),
{
    lemma_place_in_lists(i, width(b, 0), width(b, 1), width(b, 2));
}

} // verus!
