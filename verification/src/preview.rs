//! Synthesizing a stand-in for a chunk from a resident coarser ancestor.
use crate::chunk;
use crate::chunk::{pow2_u64, CHUNK_VOXELS};
use vstd::prelude::*;

verus! {

/// The two parent samples that bracket one target position on one axis, and
/// the weight of the second in 256ths.
pub struct AxisTap {
    pub p0: usize,
    pub p1: usize,
    pub wf: u32,
}

/// Where target voxel `t` falls on the parent's axis, in 256ths of a parent
/// voxel: the continuous coordinate `o + (t + 1/2)/scale - 1/2`, rounded down.
pub open spec fn tap_position(o: int, scale: int, t: int) -> int {
    o * 256 + ((2 * t + 1) * 128) / scale - 128
}

/// The lower bracketing sample, clamped to the parent's 64 voxels.
pub open spec fn tap_low(o: int, scale: int, t: int) -> int {
    let raw = tap_position(o, scale, t) / 256;
    if raw < 0 {
        0
    } else if raw > 63 {
        63
    } else {
        raw
    }
}

/// The upper bracketing sample, clamped likewise.
pub open spec fn tap_high(o: int, scale: int, t: int) -> int {
    if tap_low(o, scale, t) >= 63 {
        63
    } else {
        tap_low(o, scale, t) + 1
    }
}

/// The weight of the upper sample, in 256ths. A position outside the parent's
/// samples takes all its weight from the clamped boundary.
pub open spec fn tap_weight(o: int, scale: int, t: int) -> int {
    let q = tap_position(o, scale, t);
    if q < 0 || q / 256 >= 63 {
        0
    } else {
        q - tap_low(o, scale, t) * 256
    }
}

/// `a` and `b` blended with weight `wf`/256 on `b`, rounded down.
pub open spec fn lerp256(a: int, b: int, wf: int) -> int {
    (a * (256 - wf) + b * wf) / 256
}

/// Eight corner values blended along x, then y, then z. `c` is indexed by
/// `4 * z + 2 * y + x`.
pub open spec fn blend8(c: Seq<int>, wx: int, wy: int, wz: int) -> int {
    lerp256(
        lerp256(lerp256(c[0], c[1], wx), lerp256(c[2], c[3], wx), wy),
        lerp256(lerp256(c[4], c[5], wx), lerp256(c[6], c[7], wx), wy),
        wz,
    )
}

/// The voxel of a 64-voxel cube at `(x, y, z)`, x fastest.
pub open spec fn cube_at(parent: Seq<u8>, x: int, y: int, z: int) -> int {
    parent[z * 4096 + y * 64 + x] as int
}

/// First parent voxel, on one axis, of the block that target coordinate `c`
/// maps to when the parent is `shift` levels up.
pub open spec fn block_origin(c: int, shift: nat) -> int {
    (c % (chunk::pow2(shift) as int)) * (64int / (chunk::pow2(shift) as int))
}

/// The upsampled value at target voxel `(tx, ty, tz)`.
pub open spec fn upsampled_voxel(
    parent: Seq<u8>,
    ox: int,
    oy: int,
    oz: int,
    scale: int,
    tx: int,
    ty: int,
    tz: int,
) -> int {
    let x0 = tap_low(ox, scale, tx);
    let x1 = tap_high(ox, scale, tx);
    let y0 = tap_low(oy, scale, ty);
    let y1 = tap_high(oy, scale, ty);
    let z0 = tap_low(oz, scale, tz);
    let z1 = tap_high(oz, scale, tz);
    blend8(
        seq![
            cube_at(parent, x0, y0, z0),
            cube_at(parent, x1, y0, z0),
            cube_at(parent, x0, y1, z0),
            cube_at(parent, x1, y1, z0),
            cube_at(parent, x0, y0, z1),
            cube_at(parent, x1, y0, z1),
            cube_at(parent, x0, y1, z1),
            cube_at(parent, x1, y1, z1),
        ],
        tap_weight(ox, scale, tx),
        tap_weight(oy, scale, ty),
        tap_weight(oz, scale, tz),
    )
}

/// The whole upsampled chunk, x fastest.
pub open spec fn upsampled(parent: Seq<u8>, cx: int, cy: int, cz: int, shift: nat) -> Seq<u8> {
    Seq::new(
        CHUNK_VOXELS as nat,
        |i: int|
            upsampled_voxel(
                parent,
                block_origin(cx, shift),
                block_origin(cy, shift),
                block_origin(cz, shift),
                chunk::pow2(shift) as int,
                i % 64,
                (i / 64) % 64,
                i / 4096,
            ) as u8,
    )
}

/// A blend lies between the values it blends.
pub proof fn lemma_lerp256_between(a: int, b: int, wf: int, lo: int, hi: int)
    requires
        lo <= a <= hi,
        lo <= b <= hi,
        0 <= wf <= 256,
    ensures
        lo <= lerp256(a, b, wf) <= hi,
{
    assert(lo * 256 <= a * (256 - wf) + b * wf <= hi * 256) by (nonlinear_arith)
        requires
            lo <= a <= hi,
            lo <= b <= hi,
            0 <= wf <= 256,
    ;
}

/// The blend of eight corners lies between any bounds on the corners.
pub proof fn lemma_blend8_between(c: Seq<int>, wx: int, wy: int, wz: int, lo: int, hi: int)
    requires
        c.len() == 8,
        forall|i: int| 0 <= i < 8 ==> lo <= #[trigger] c[i] <= hi,
        0 <= wx <= 256,
        0 <= wy <= 256,
        0 <= wz <= 256,
    ensures
        lo <= blend8(c, wx, wy, wz) <= hi,
{
    lemma_lerp256_between(c[0], c[1], wx, lo, hi);
    lemma_lerp256_between(c[2], c[3], wx, lo, hi);
    lemma_lerp256_between(c[4], c[5], wx, lo, hi);
    lemma_lerp256_between(c[6], c[7], wx, lo, hi);
    lemma_lerp256_between(lerp256(c[0], c[1], wx), lerp256(c[2], c[3], wx), wy, lo, hi);
    lemma_lerp256_between(lerp256(c[4], c[5], wx), lerp256(c[6], c[7], wx), wy, lo, hi);
    lemma_lerp256_between(
        lerp256(lerp256(c[0], c[1], wx), lerp256(c[2], c[3], wx), wy),
        lerp256(lerp256(c[4], c[5], wx), lerp256(c[6], c[7], wx), wy),
        wz,
        lo,
        hi,
    );
}

proof fn lemma_tap_ranges(o: int, scale: int, t: int)
    ensures
        0 <= tap_low(o, scale, t) <= 63,
        0 <= tap_high(o, scale, t) <= 63,
        0 <= tap_weight(o, scale, t) <= 255,
{
}

/// Every synthesized voxel lies between any bounds on the parent's voxels, so
/// a constant parent gives a constant preview.
pub proof fn law_upsampled_within_parent(
    parent: Seq<u8>,
    cx: int,
    cy: int,
    cz: int,
    shift: nat,
    lo: int,
    hi: int,
    i: int,
)
    requires
        parent.len() == CHUNK_VOXELS,
        1 <= shift <= 6,
        0 <= cx,
        0 <= cy,
        0 <= cz,
        0 <= i < CHUNK_VOXELS,
        0 <= lo,
        hi <= 255,
        forall|j: int| 0 <= j < parent.len() ==> lo <= #[trigger] parent[j] <= hi,
    ensures
        lo <= upsampled(parent, cx, cy, cz, shift)[i] <= hi,
{
    let s = chunk::pow2(shift) as int;
    let (ox, oy, oz) = (block_origin(cx, shift), block_origin(cy, shift), block_origin(cz, shift));
    let (tx, ty, tz) = (i % 64, (i / 64) % 64, i / 4096);
    lemma_tap_ranges(ox, s, tx);
    lemma_tap_ranges(oy, s, ty);
    lemma_tap_ranges(oz, s, tz);
    lemma_voxel_between(parent, ox, oy, oz, s, tx, ty, tz, lo, hi);
}

proof fn lemma_voxel_between(
    parent: Seq<u8>,
    ox: int,
    oy: int,
    oz: int,
    s: int,
    tx: int,
    ty: int,
    tz: int,
    lo: int,
    hi: int,
)
    requires
        parent.len() == CHUNK_VOXELS,
        forall|j: int| 0 <= j < parent.len() ==> lo <= #[trigger] parent[j] <= hi,
    ensures
        lo <= upsampled_voxel(parent, ox, oy, oz, s, tx, ty, tz) <= hi,
{
    lemma_tap_ranges(ox, s, tx);
    lemma_tap_ranges(oy, s, ty);
    lemma_tap_ranges(oz, s, tz);
    let (x0, x1) = (tap_low(ox, s, tx), tap_high(ox, s, tx));
    let (y0, y1) = (tap_low(oy, s, ty), tap_high(oy, s, ty));
    let (z0, z1) = (tap_low(oz, s, tz), tap_high(oz, s, tz));
    let c = seq![
        cube_at(parent, x0, y0, z0),
        cube_at(parent, x1, y0, z0),
        cube_at(parent, x0, y1, z0),
        cube_at(parent, x1, y1, z0),
        cube_at(parent, x0, y0, z1),
        cube_at(parent, x1, y0, z1),
        cube_at(parent, x0, y1, z1),
        cube_at(parent, x1, y1, z1),
    ];
    lemma_blend8_between(
        c,
        tap_weight(ox, s, tx),
        tap_weight(oy, s, ty),
        tap_weight(oz, s, tz),
        lo,
        hi,
    );
}

/// `lerp256` on machine integers.
pub fn lerp256_exec(a: u32, b: u32, wf: u32) -> (v: u32)
    requires
        a <= 255,
        b <= 255,
        wf <= 256,
    ensures
        v == lerp256(a as int, b as int, wf as int),
        v <= 255,
{
    proof {
        lemma_lerp256_between(a as int, b as int, wf as int, 0, 255);
        assert(0 <= a * (256 - wf) <= 255 * 256) by (nonlinear_arith)
            requires
                a <= 255,
                wf <= 256,
        ;
        assert(0 <= b * wf <= 255 * 256) by (nonlinear_arith)
            requires
                b <= 255,
                wf <= 256,
        ;
    }
    (a * (256 - wf) + b * wf) / 256
}

/// The eight-corner blend on machine integers.
pub fn blend8_exec(c: &[u32; 8], wx: u32, wy: u32, wz: u32) -> (v: u32)
    requires
        forall|i: int| 0 <= i < 8 ==> #[trigger] c@[i] <= 255,
        wx <= 256,
        wy <= 256,
        wz <= 256,
    ensures
        v == blend8(c@.map(|i: int, w: u32| w as int), wx as int, wy as int, wz as int),
        v <= 255,
{
    let v00 = lerp256_exec(c[0], c[1], wx);
    let v01 = lerp256_exec(c[2], c[3], wx);
    let v10 = lerp256_exec(c[4], c[5], wx);
    let v11 = lerp256_exec(c[6], c[7], wx);
    lerp256_exec(lerp256_exec(v00, v01, wy), lerp256_exec(v10, v11, wy), wz)
}

fn axis_taps(o: usize, scale: usize) -> (taps: Vec<AxisTap>)
    requires
        o <= 63,
        1 <= scale <= 64,
    ensures
        taps.len() == 64,
        forall|t: int|
            0 <= t < 64 ==> {
                &&& (#[trigger] taps[t]).p0 == tap_low(o as int, scale as int, t)
                &&& taps[t].p1 == tap_high(o as int, scale as int, t)
                &&& taps[t].wf == tap_weight(o as int, scale as int, t)
            },
{
    let mut taps: Vec<AxisTap> = Vec::new();
    let mut t: usize = 0;
    while t < 64
        invariant
            t <= 64,
            taps.len() == t,
            o <= 63,
            1 <= scale <= 64,
            forall|j: int|
                0 <= j < t ==> {
                    &&& (#[trigger] taps[j]).p0 == tap_low(o as int, scale as int, j)
                    &&& taps[j].p1 == tap_high(o as int, scale as int, j)
                    &&& taps[j].wf == tap_weight(o as int, scale as int, j)
                },
        decreases 64 - t,
    {
        let step: usize = ((2 * t + 1) * 128) / scale;
        assert(step <= (2 * t + 1) * 128) by (nonlinear_arith)
            requires
                step == ((2 * t + 1) * 128) / (scale as int),
                1 <= scale,
                0 <= t,
        ;
        let raised: usize = o * 256 + step;
        let outside = raised < 128;
        let q: usize = if outside { 0 } else { raised - 128 };
        let raw: usize = q / 256;
        let p0: usize = if raw > 63 { 63 } else { raw };
        let p1: usize = if p0 >= 63 { 63 } else { p0 + 1 };
        let wf: u32 = if outside || raw >= 63 { 0 } else { (q - p0 * 256) as u32 };
        assert(tap_position(o as int, scale as int, t as int) == raised - 128);
        taps.push(AxisTap { p0, p1, wf });
        t = t + 1;
    }
    taps
}

proof fn lemma_block_origin_range(c: int, shift: nat)
    requires
        0 <= c,
        1 <= shift <= 6,
    ensures
        0 <= block_origin(c, shift) <= 63,
{
    chunk::lemma_pow2_table();
    let s = chunk::pow2(shift) as int;
    assert(s == 2 || s == 4 || s == 8 || s == 16 || s == 32 || s == 64);
    let r = c % s;
    assert(0 <= r < s);
    assert(block_origin(c, shift) == r * (64int / s));
    if s == 2 {
        assert(r * (64int / s) == r * 32);
    } else if s == 4 {
        assert(r * (64int / s) == r * 16);
    } else if s == 8 {
        assert(r * (64int / s) == r * 8);
    } else if s == 16 {
        assert(r * (64int / s) == r * 4);
    } else if s == 32 {
        assert(r * (64int / s) == r * 2);
    } else {
        assert(r * (64int / s) == r * 1);
    }
}

/// Fills a chunk from the part of a resident ancestor `shift` levels up that
/// covers it: a `2^shift`-fold trilinear upsample of a `(64 >> shift)`-voxel
/// block, chosen by the low `shift` bits of the target's chunk coordinates.
/// Positions beyond the parent's samples are clamped to its boundary.
pub fn upsample_from_parent(
    parent: &[u8],
    target_cx: u32,
    target_cy: u32,
    target_cz: u32,
    shift: u8,
) -> (out: Vec<u8>)
    requires
        parent.len() == CHUNK_VOXELS,
        1 <= shift <= 6,
    ensures
        out@ == upsampled(
            parent@,
            target_cx as int,
            target_cy as int,
            target_cz as int,
            shift as nat,
        ),
{
    proof {
        chunk::lemma_pow2_bounds(shift as nat);
        lemma_block_origin_range(target_cx as int, shift as nat);
        lemma_block_origin_range(target_cy as int, shift as nat);
        lemma_block_origin_range(target_cz as int, shift as nat);
    }
    let scale: usize = pow2_u64(shift) as usize;
    let region: usize = 64 / scale;
    let ox: usize = (target_cx as usize % scale) * region;
    let oy: usize = (target_cy as usize % scale) * region;
    let oz: usize = (target_cz as usize % scale) * region;
    let ax = axis_taps(ox, scale);
    let ay = axis_taps(oy, scale);
    let az = axis_taps(oz, scale);
    let mut out: Vec<u8> = Vec::new();
    let ghost model = upsampled(
        parent@,
        target_cx as int,
        target_cy as int,
        target_cz as int,
        shift as nat,
    );
    let mut i: usize = 0;
    while i < CHUNK_VOXELS
        invariant
            i <= CHUNK_VOXELS,
            out.len() == i,
            parent.len() == CHUNK_VOXELS,
            scale == chunk::pow2(shift as nat),
            ox == block_origin(target_cx as int, shift as nat),
            oy == block_origin(target_cy as int, shift as nat),
            oz == block_origin(target_cz as int, shift as nat),
            model == upsampled(
                parent@,
                target_cx as int,
                target_cy as int,
                target_cz as int,
                shift as nat,
            ),
            ax.len() == 64,
            ay.len() == 64,
            az.len() == 64,
            forall|t: int|
                0 <= t < 64 ==> {
                    &&& (#[trigger] ax[t]).p0 == tap_low(ox as int, scale as int, t)
                    &&& ax[t].p1 == tap_high(ox as int, scale as int, t)
                    &&& ax[t].wf == tap_weight(ox as int, scale as int, t)
                },
            forall|t: int|
                0 <= t < 64 ==> {
                    &&& (#[trigger] ay[t]).p0 == tap_low(oy as int, scale as int, t)
                    &&& ay[t].p1 == tap_high(oy as int, scale as int, t)
                    &&& ay[t].wf == tap_weight(oy as int, scale as int, t)
                },
            forall|t: int|
                0 <= t < 64 ==> {
                    &&& (#[trigger] az[t]).p0 == tap_low(oz as int, scale as int, t)
                    &&& az[t].p1 == tap_high(oz as int, scale as int, t)
                    &&& az[t].wf == tap_weight(oz as int, scale as int, t)
                },
            forall|j: int| 0 <= j < i ==> #[trigger] out[j] == model[j],
        decreases CHUNK_VOXELS - i,
    {
        let tx: usize = i % 64;
        let ty: usize = (i / 64) % 64;
        let tz: usize = i / 4096;
        proof {
            lemma_tap_ranges(ox as int, scale as int, tx as int);
            lemma_tap_ranges(oy as int, scale as int, ty as int);
            lemma_tap_ranges(oz as int, scale as int, tz as int);
        }
        let x = &ax[tx];
        let y = &ay[ty];
        let z = &az[tz];
        let r00: usize = z.p0 * 4096 + y.p0 * 64;
        let r01: usize = z.p0 * 4096 + y.p1 * 64;
        let r10: usize = z.p1 * 4096 + y.p0 * 64;
        let r11: usize = z.p1 * 4096 + y.p1 * 64;
        let c: [u32; 8] = [
            parent[r00 + x.p0] as u32,
            parent[r00 + x.p1] as u32,
            parent[r01 + x.p0] as u32,
            parent[r01 + x.p1] as u32,
            parent[r10 + x.p0] as u32,
            parent[r10 + x.p1] as u32,
            parent[r11 + x.p0] as u32,
            parent[r11 + x.p1] as u32,
        ];
        let v = blend8_exec(&c, x.wf, y.wf, z.wf);
        proof {
            let (x0, x1) = (x.p0 as int, x.p1 as int);
            let (y0, y1) = (y.p0 as int, y.p1 as int);
            let (z0, z1) = (z.p0 as int, z.p1 as int);
            assert(c@.map(|k: int, w: u32| w as int) =~= seq![
                cube_at(parent@, x0, y0, z0),
                cube_at(parent@, x1, y0, z0),
                cube_at(parent@, x0, y1, z0),
                cube_at(parent@, x1, y1, z0),
                cube_at(parent@, x0, y0, z1),
                cube_at(parent@, x1, y0, z1),
                cube_at(parent@, x0, y1, z1),
                cube_at(parent@, x1, y1, z1),
            ]);
        }
        out.push(v as u8);
        i = i + 1;
    }
    assert(out@ =~= model);
    out
}

/// At any of its corners a blend is that corner: `4 * z + 2 * y + x` where the
/// weights are whole on the axes on which it lies ahead and nothing on the
/// others.
pub proof fn law_blend8_at_every_corner(c: Seq<int>, x: int, y: int, z: int)
    requires
        c.len() == 8,
        0 <= x <= 1,
        0 <= y <= 1,
        0 <= z <= 1,
    ensures
        blend8(c, 256 * x, 256 * y, 256 * z) == c[4 * z + 2 * y + x],
{
    assert(blend8(c, 0, 0, 0) == c[0] && blend8(c, 256, 0, 0) == c[1]);
    assert(blend8(c, 0, 256, 0) == c[2] && blend8(c, 256, 256, 0) == c[3]);
    assert(blend8(c, 0, 0, 256) == c[4] && blend8(c, 256, 0, 256) == c[5]);
    assert(blend8(c, 0, 256, 256) == c[6] && blend8(c, 256, 256, 256) == c[7]);
}

/// Values that differ along one axis only are blended by that axis's weight
/// alone.
pub proof fn law_blend8_along_one_axis(c: Seq<int>, a: int, b: int, wx: int, wy: int, wz: int)
    requires
        c.len() == 8,
    ensures
        c == seq![a, b, a, b, a, b, a, b] ==> blend8(c, wx, wy, wz) == (a * (256 - wx) + b * wx) / 256,
        c == seq![a, a, b, b, a, a, b, b] ==> blend8(c, wx, wy, wz) == (a * (256 - wy) + b * wy) / 256,
        c == seq![a, a, a, a, b, b, b, b] ==> blend8(c, wx, wy, wz) == (a * (256 - wz) + b * wz) / 256,
{
    lemma_lerp256_same(a, wx);
    lemma_lerp256_same(b, wx);
    lemma_lerp256_same(a, wy);
    lemma_lerp256_same(b, wy);
    lemma_lerp256_same(lerp256(a, b, wx), wy);
    lemma_lerp256_same(lerp256(a, b, wx), wz);
    lemma_lerp256_same(lerp256(a, b, wy), wz);
}

proof fn lemma_lerp256_same(a: int, w: int)
    ensures
        lerp256(a, a, w) == a,
{
    assert(a * (256 - w) + a * w == a * 256) by (nonlinear_arith);
}

/// Where a child's voxel lies on its parent's axis.
proof fn lemma_taps_near(c: int, shift: nat, t: int)
    requires
        0 <= c,
        1 <= shift <= 6,
        0 <= t < 64,
    ensures
        ({
            let s = chunk::pow2(shift) as int;
            let o = block_origin(c, shift);
            let p = (64 * c + t) / s - 64 * (c / s);
            &&& 0 <= p < 64
            &&& p - 1 <= tap_low(o, s, t) <= p
            &&& p <= tap_high(o, s, t) <= p + 1
            &&& 0 <= tap_low(o, s, t) <= tap_high(o, s, t) <= 63
            &&& o == (64 * c) / s - 64 * (c / s)
        }),
{
    chunk::lemma_pow2_table();
    let s = chunk::pow2(shift) as int;
    let o = block_origin(c, shift);
    let r = c % s;
    assert(s == 2 || s == 4 || s == 8 || s == 16 || s == 32 || s == 64);
    if s == 2 {
        assert(o == (c % 2) * 32 && (64 * c) / 2 == 32 * c);
        assert((64 * c + t) / 2 == 32 * c + t / 2);
    } else if s == 4 {
        assert(o == (c % 4) * 16 && (64 * c) / 4 == 16 * c);
        assert((64 * c + t) / 4 == 16 * c + t / 4);
    } else if s == 8 {
        assert(o == (c % 8) * 8 && (64 * c) / 8 == 8 * c);
        assert((64 * c + t) / 8 == 8 * c + t / 8);
    } else if s == 16 {
        assert(o == (c % 16) * 4 && (64 * c) / 16 == 4 * c);
        assert((64 * c + t) / 16 == 4 * c + t / 16);
    } else if s == 32 {
        assert(o == (c % 32) * 2 && (64 * c) / 32 == 2 * c);
        assert((64 * c + t) / 32 == 2 * c + t / 32);
    } else {
        assert(o == (c % 64) * 1 && (64 * c) / 64 == c);
        assert((64 * c + t) / 64 == c + t / 64);
    }
}

/// A synthesized voxel comes from the parent's voxels around the one that covers
/// it: it lies between any bounds on those that are at most one voxel away from
/// that one on every axis. Voxel `(tx, ty, tz)` of chunk `(cx, cy, cz)` is
/// covered by the parent's voxel as many times nearer to the volume's corner as
/// the parent is coarser.
pub proof fn law_upsampled_from_around_its_parent_voxel(
    parent: Seq<u8>,
    cx: int,
    cy: int,
    cz: int,
    shift: nat,
    tx: int,
    ty: int,
    tz: int,
    lo: int,
    hi: int,
)
    requires
        parent.len() == CHUNK_VOXELS,
        1 <= shift <= 6,
        0 <= cx,
        0 <= cy,
        0 <= cz,
        0 <= tx < 64,
        0 <= ty < 64,
        0 <= tz < 64,
        0 <= lo,
        hi <= 255,
        ({
            let s = chunk::pow2(shift) as int;
            let px = (64 * cx + tx) / s - 64 * (cx / s);
            let py = (64 * cy + ty) / s - 64 * (cy / s);
            let pz = (64 * cz + tz) / s - 64 * (cz / s);
            forall|x: int, y: int, z: int|
                0 <= x < 64 && 0 <= y < 64 && 0 <= z < 64 && px - 1 <= x <= px + 1 && py - 1 <= y <= py
                    + 1 && pz - 1 <= z <= pz + 1 ==> lo <= #[trigger] parent[4096 * z + 64 * y + x] <= hi
        }),
    ensures
        lo <= upsampled(parent, cx, cy, cz, shift)[(tz * 64 + ty) * 64 + tx] <= hi,
{
    let s = chunk::pow2(shift) as int;
    let (ox, oy, oz) = (block_origin(cx, shift), block_origin(cy, shift), block_origin(cz, shift));
    let i = (tz * 64 + ty) * 64 + tx;
    assert(i % 64 == tx && (i / 64) % 64 == ty && i / 4096 == tz && 0 <= i < CHUNK_VOXELS);
    lemma_taps_near(cx, shift, tx);
    lemma_taps_near(cy, shift, ty);
    lemma_taps_near(cz, shift, tz);
    lemma_tap_ranges(ox, s, tx);
    lemma_tap_ranges(oy, s, ty);
    lemma_tap_ranges(oz, s, tz);
    let (x0, x1) = (tap_low(ox, s, tx), tap_high(ox, s, tx));
    let (y0, y1) = (tap_low(oy, s, ty), tap_high(oy, s, ty));
    let (z0, z1) = (tap_low(oz, s, tz), tap_high(oz, s, tz));
    assert(lo <= parent[4096 * z0 + 64 * y0 + x0] <= hi && lo <= parent[4096 * z0 + 64 * y0 + x1] <= hi);
    assert(lo <= parent[4096 * z0 + 64 * y1 + x0] <= hi && lo <= parent[4096 * z0 + 64 * y1 + x1] <= hi);
    assert(lo <= parent[4096 * z1 + 64 * y0 + x0] <= hi && lo <= parent[4096 * z1 + 64 * y0 + x1] <= hi);
    assert(lo <= parent[4096 * z1 + 64 * y1 + x0] <= hi && lo <= parent[4096 * z1 + 64 * y1 + x1] <= hi);
    let c = seq![
        cube_at(parent, x0, y0, z0),
        cube_at(parent, x1, y0, z0),
        cube_at(parent, x0, y1, z0),
        cube_at(parent, x1, y1, z0),
        cube_at(parent, x0, y0, z1),
        cube_at(parent, x1, y0, z1),
        cube_at(parent, x0, y1, z1),
        cube_at(parent, x1, y1, z1),
    ];
    lemma_blend8_between(
        c,
        tap_weight(ox, s, tx),
        tap_weight(oy, s, ty),
        tap_weight(oz, s, tz),
        lo,
        hi,
    );
}

/// Where a child's voxel lies on its parent's axis, in 256ths of a parent's
/// voxel from the middle of the parent's first, kept between the middles of the
/// first and the last.
pub open spec fn middle(c: int, s: int, t: int) -> int {
    let q = 256 * ((64 * c) / s - 64 * (c / s)) + ((2 * t + 1) * 128) / s - 128;
    if q < 0 {
        0
    } else if q > 16128 {
        16128
    } else {
        q
    }
}

proof fn lemma_ramp(c: int, shift: nat, t: int, base: int, slope: int)
    requires
        0 <= c,
        1 <= shift <= 6,
        0 <= t < 64,
    ensures
        ({
            let s = chunk::pow2(shift) as int;
            let o = block_origin(c, shift);
            lerp256(
                base + slope * tap_low(o, s, t),
                base + slope * tap_high(o, s, t),
                tap_weight(o, s, t),
            ) == base + (slope * middle(c, s, t)) / 256
        }),
{
    lemma_taps_near(c, shift, t);
    let s = chunk::pow2(shift) as int;
    let o = block_origin(c, shift);
    let (x0, x1, w) = (tap_low(o, s, t), tap_high(o, s, t), tap_weight(o, s, t));
    let m = middle(c, s, t);
    assert(m == tap_position(o, s, t) || tap_position(o, s, t) < 0 || tap_position(o, s, t) > 16128);
    assert(w > 0 ==> x1 == x0 + 1);
    assert(m == 256 * x0 + w);
    let (a, b) = (base + slope * x0, base + slope * x1);
    if w > 0 {
        assert(a * (256 - w) + b * w == 256 * base + slope * m) by (nonlinear_arith)
            requires
                a == base + slope * x0,
                b == base + slope * (x0 + 1),
                m == 256 * x0 + w,
        ;
    } else {
        assert(a * (256 - w) + b * w == 256 * base + slope * m) by (nonlinear_arith)
            requires
                a == base + slope * x0,
                w == 0,
                m == 256 * x0 + w,
        ;
    }
    assert((256 * base + slope * m) / 256 == base + (slope * m) / 256);
}

/// A parent whose values rise evenly along one axis gives a chunk whose values
/// rise evenly along that axis, as many times slower as the parent is coarser:
/// each voxel has the value that the rise has at its middle, rounded down.
pub proof fn law_upsampled_rise_stays_a_rise(
    parent: Seq<u8>,
    cx: int,
    cy: int,
    cz: int,
    shift: nat,
    tx: int,
    ty: int,
    tz: int,
    base: int,
    slope: int,
    axis: int,
)
    requires
        parent.len() == CHUNK_VOXELS,
        1 <= shift <= 6,
        0 <= cx,
        0 <= cy,
        0 <= cz,
        0 <= tx < 64,
        0 <= ty < 64,
        0 <= tz < 64,
        0 <= axis < 3,
        forall|x: int, y: int, z: int|
            0 <= x < 64 && 0 <= y < 64 && 0 <= z < 64 ==> #[trigger] parent[4096 * z + 64 * y + x]
                == base + slope * (if axis == 0 {
                x
            } else if axis == 1 {
                y
            } else {
                z
            }),
    ensures
        ({
            let s = chunk::pow2(shift) as int;
            let m = if axis == 0 {
                middle(cx, s, tx)
            } else if axis == 1 {
                middle(cy, s, ty)
            } else {
                middle(cz, s, tz)
            };
            upsampled(parent, cx, cy, cz, shift)[(tz * 64 + ty) * 64 + tx] == base + (slope * m) / 256
        }),
{
    let s = chunk::pow2(shift) as int;
    let (ox, oy, oz) = (block_origin(cx, shift), block_origin(cy, shift), block_origin(cz, shift));
    let i = (tz * 64 + ty) * 64 + tx;
    assert(i % 64 == tx && (i / 64) % 64 == ty && i / 4096 == tz && 0 <= i < CHUNK_VOXELS);
    lemma_taps_near(cx, shift, tx);
    lemma_taps_near(cy, shift, ty);
    lemma_taps_near(cz, shift, tz);
    lemma_tap_ranges(ox, s, tx);
    lemma_tap_ranges(oy, s, ty);
    lemma_tap_ranges(oz, s, tz);
    let (x0, x1) = (tap_low(ox, s, tx), tap_high(ox, s, tx));
    let (y0, y1) = (tap_low(oy, s, ty), tap_high(oy, s, ty));
    let (z0, z1) = (tap_low(oz, s, tz), tap_high(oz, s, tz));
    let (wx, wy, wz) = (tap_weight(ox, s, tx), tap_weight(oy, s, ty), tap_weight(oz, s, tz));
    let c = seq![
        cube_at(parent, x0, y0, z0),
        cube_at(parent, x1, y0, z0),
        cube_at(parent, x0, y1, z0),
        cube_at(parent, x1, y1, z0),
        cube_at(parent, x0, y0, z1),
        cube_at(parent, x1, y0, z1),
        cube_at(parent, x0, y1, z1),
        cube_at(parent, x1, y1, z1),
    ];
    lemma_rising_voxel(parent, base, slope, axis, x0, y0, z0);
    lemma_rising_voxel(parent, base, slope, axis, x1, y0, z0);
    lemma_rising_voxel(parent, base, slope, axis, x0, y1, z0);
    lemma_rising_voxel(parent, base, slope, axis, x1, y1, z0);
    lemma_rising_voxel(parent, base, slope, axis, x0, y0, z1);
    lemma_rising_voxel(parent, base, slope, axis, x1, y0, z1);
    lemma_rising_voxel(parent, base, slope, axis, x0, y1, z1);
    lemma_rising_voxel(parent, base, slope, axis, x1, y1, z1);
    lemma_blend8_between(c, wx, wy, wz, 0, 255);
    if axis == 0 {
        let (a, b) = (base + slope * x0, base + slope * x1);
        assert(c =~= seq![a, b, a, b, a, b, a, b]);
        law_blend8_along_one_axis(c, a, b, wx, wy, wz);
        lemma_ramp(cx, shift, tx, base, slope);
    } else if axis == 1 {
        let (a, b) = (base + slope * y0, base + slope * y1);
        assert(c =~= seq![a, a, b, b, a, a, b, b]);
        law_blend8_along_one_axis(c, a, b, wx, wy, wz);
        lemma_ramp(cy, shift, ty, base, slope);
    } else {
        let (a, b) = (base + slope * z0, base + slope * z1);
        assert(c =~= seq![a, a, a, a, b, b, b, b]);
        law_blend8_along_one_axis(c, a, b, wx, wy, wz);
        lemma_ramp(cz, shift, tz, base, slope);
    }
}

proof fn lemma_rising_voxel(parent: Seq<u8>, base: int, slope: int, axis: int, x: int, y: int, z: int)
    requires
        0 <= x < 64,
        0 <= y < 64,
        0 <= z < 64,
        forall|x: int, y: int, z: int|
            0 <= x < 64 && 0 <= y < 64 && 0 <= z < 64 ==> #[trigger] parent[4096 * z + 64 * y + x]
                == base + slope * (if axis == 0 {
                x
            } else if axis == 1 {
                y
            } else {
                z
            }),
    ensures
        cube_at(parent, x, y, z) == base + slope * (if axis == 0 {
            x
        } else if axis == 1 {
            y
        } else {
            z
        }),
        0 <= cube_at(parent, x, y, z) <= 255,
{
    assert(parent[4096 * z + 64 * y + x] == cube_at(parent, x, y, z));
}

} // verus!
