//! Reading voxels, blends, rays and pictures.
use vesuvius::cache::Scheduler;
use vesuvius::chunk::{ChunkKey, ChunkState, ShardCoord, CHUNK_VOXELS};
use vesuvius::disk::{Claim, DiskStore};
use vesuvius::paint::{floor_div, overlay_color_for, viewport_tiles, Image, Rgb, SliceView, TilePaint};
use vesuvius::preview::upsample_from_parent;
use vesuvius::volume::{
    ancestor_of, coord_at_lod, level_for, lod_for, sample_at, sample_boundary_1axis, trilerp_q8,
    voxel_offset, Climb, Interpolated, Ray, RayNeed, Sampled, ShardMap, ShardRequest, UnifiedVolume,
};

const ONE: i64 = 1 << 32;
const ZERO: ShardCoord = ShardCoord { x: 0, y: 0, z: 0 };

/// A chunk whose voxels say how far along the first axis they stand.
fn ramp() -> Vec<u8> {
    (0..CHUNK_VOXELS).map(|i| (i % 64) as u8).collect()
}

/// A store with shards of two chunks along an edge, some of whose chunks are
/// there, and the bytes of its first shard of each level.
fn stored(max_lod: u8, chunks: &[(ChunkKey, Vec<u8>)]) -> (DiskStore, Vec<Vec<u8>>) {
    let mut store =
        DiskStore::new_with_shard_chunks_per_axis("v".to_string(), [256, 256, 256], max_lod, 2, None).store;
    let mut files: Vec<Vec<u8>> = (0..=max_lod).map(|_| vec![0u8; 8 * CHUNK_VOXELS]).collect();
    for lod in 0..=max_lod {
        store.ensure_open(lod, ZERO);
    }
    for (key, bytes) in chunks {
        match store.begin_write(*key) {
            Claim::Held { offset, .. } => {
                let at = offset as usize;
                files[key.lod as usize][at..at + CHUNK_VOXELS].copy_from_slice(bytes);
                store.end_write(*key, true);
            }
            _ => panic!("the slot is free"),
        }
    }
    (store, files)
}

fn maps(files: &[Vec<u8>]) -> Vec<ShardMap<'_>> {
    files
        .iter()
        .enumerate()
        .map(|(lod, b)| ShardMap { lod: lod as u8, shard: ZERO, bytes: Some(b) })
        .collect()
}

fn volume(max_lod: u8) -> UnifiedVolume {
    UnifiedVolume::new(2, [256, 256, 256], max_lod, true, false)
}

#[test]
fn levels_of_sampling_factors() {
    assert_eq!(lod_for(1), 0);
    assert_eq!(lod_for(2), 1);
    assert_eq!(lod_for(64), 6);
    assert_eq!(lod_for(128), 7);
    assert_eq!(lod_for(6), 1);
    assert_eq!(lod_for(0), 0);
    assert_eq!(level_for(-3), 0);
    assert_eq!(level_for(8), 3);
    assert_eq!(coord_at_lod(9, 8, 7, 0, 2), (2, 2, 1));
    assert_eq!(coord_at_lod(9, 8, 7, 2, 0), (36, 32, 28));
}

#[test]
fn blends() {
    assert_eq!(trilerp_q8(13, 200, 77, [9; 8]), 9);
    assert_eq!(trilerp_q8(128, 0, 0, [0, 100, 7, 7, 7, 7, 7, 7]), 50);
    assert_eq!(trilerp_q8(0, 0, 256, [1, 2, 3, 4, 50, 6, 7, 8]), 50);
    assert_eq!(trilerp_q8(128, 128, 128, [0, 255, 0, 255, 0, 255, 0, 255]), 127);
}

#[test]
fn voxels_stand_with_the_first_axis_fastest() {
    assert_eq!(voxel_offset(1, 2, 3), 3 * 4096 + 2 * 64 + 1);
    assert_eq!(voxel_offset(64, 64, 64), 0);
    assert_eq!(sample_at(20, 0, 0, 0, 2, &ramp()), 5);
    assert_eq!(ancestor_of(ChunkKey::new(1, 9, 8, 7), 2), ChunkKey::new(3, 2, 2, 1));
}

#[test]
fn a_voxel_of_a_chunk_that_is_there() {
    let (store, files) = stored(0, &[(ChunkKey::new(0, 0, 0, 0), ramp())]);
    let mut fetch = Vec::new();
    let v = volume(0);
    assert_eq!(v.get(&store, &maps(&files), [5, 6, 7], 1, &mut fetch), Sampled::Value(5));
    assert_eq!(v.get(&store, &maps(&files), [-5, 6, 7], 1, &mut fetch), Sampled::Value(0));
    assert_eq!(v.get(&store, &maps(&files), [256, 6, 7], 1, &mut fetch), Sampled::Value(0));
    assert!(fetch.is_empty());
    let first = ShardRequest { lod: 0, shard: ZERO };
    assert_eq!(v.get(&store, &Vec::new(), [5, 6, 7], 1, &mut fetch), Sampled::Open(first));
}

#[test]
fn a_missing_chunk_is_asked_for_and_stood_in_for() {
    let (mut store, files) = stored(1, &[(ChunkKey::new(1, 0, 0, 0), ramp())]);
    let mut fetch = Vec::new();
    let v = volume(1);
    assert_eq!(v.get(&store, &maps(&files), [65, 0, 0], 1, &mut fetch), Sampled::Value(32));
    assert_eq!(fetch, vec![ChunkKey::new(0, 1, 0, 0)]);
    assert_eq!(store.mark_dispatched(ChunkKey::new(0, 1, 0, 0)), Some(true));
    assert_eq!(v.get(&store, &maps(&files), [65, 0, 0], 1, &mut fetch), Sampled::Value(32));
    assert_eq!(fetch.len(), 1);
    let still = UnifiedVolume::new(2, [256, 256, 256], 1, false, false);
    assert_eq!(still.get(&store, &maps(&files), [65, 0, 0], 1, &mut fetch), Sampled::Value(0));
}

#[test]
fn absence_wins_over_coarser_data() {
    let (mut store, files) = stored(1, &[(ChunkKey::new(1, 0, 0, 0), vec![9; CHUNK_VOXELS])]);
    let key = ChunkKey::new(0, 0, 0, 0);
    let mut fetch = Vec::new();
    let v = volume(1);
    assert_eq!(v.resolve_chunk(&store, &maps(&files), key, &mut fetch), Climb::At(1));
    assert!(store.mark_empty(key, true));
    assert_eq!(v.resolve_chunk(&store, &maps(&files), key, &mut fetch), Climb::Nothing);
    assert_eq!(v.get(&store, &maps(&files), [1, 1, 1], 1, &mut fetch), Sampled::Value(0));
}

#[test]
fn interpolation_takes_the_level_that_the_cache_answers_for() {
    let (store, files) = stored(0, &[(ChunkKey::new(0, 0, 0, 0), ramp())]);
    let mut fetch = Vec::new();
    let mut v = volume(0);
    let pos = [10 * ONE as u64 + (ONE as u64) / 2, 5 * ONE as u64, 5 * ONE as u64];
    let at_hand = ChunkState::Resident { shard: ZERO, offset: 0 };
    let r = v.interpolate_u8(&store, &maps(&files), pos, 0, &vec![at_hand], &mut fetch);
    assert_eq!(r, Interpolated::Value(10));
    v.drop_hot_slot();
    assert!(v.bound.is_none());
}

#[test]
fn trusting_reads_take_what_stands_in_the_file() {
    let (store, files) = stored(0, &[(ChunkKey::new(0, 0, 0, 0), ramp())]);
    let v = UnifiedVolume::new(2, [256, 256, 256], 0, true, true);
    assert_eq!(v.read_voxel_trusting(&store, &maps(&files), 7, 1, 1, 0), Sampled::Value(7));
    assert_eq!(v.read_voxel_trusting(&store, &maps(&files), 70, 1, 1, 0), Sampled::Value(0));
    let pos = [7 * ONE as u64, ONE as u64, ONE as u64];
    assert_eq!(v.interpolate_u8_trusting(&store, &maps(&files), pos, 0), Sampled::Value(7));
}

#[test]
fn a_ray_takes_every_sample() {
    let (store, files) = stored(0, &[(ChunkKey::new(0, 0, 0, 0), ramp())]);
    let m = maps(&files);
    let mut v = volume(0);
    let mut fetch = Vec::new();
    let mut ray = Ray { pos: [-2 * ONE, 3 * ONE, 3 * ONE], step: [ONE, 0, 0], left: 70, samples: Vec::new() };
    let need = v.gather_along_normal(&store, &m, &mut ray, 0, &Vec::new(), &mut fetch);
    assert_eq!(need, RayNeed::Nothing);
    assert_eq!(ray.left, 0);
    let mut expected: Vec<u8> = vec![0, 0];
    expected.extend(0..64u8);
    expected.extend([0; 4]);
    assert_eq!(ray.samples, expected);
    assert_eq!(ray.pos[0], 68 * ONE);
}

#[test]
fn whoever_has_enough_asks_for_no_more() {
    let (store, files) = stored(0, &[(ChunkKey::new(0, 0, 0, 0), ramp())]);
    let m = maps(&files);
    let mut v = volume(0);
    let mut fetch = Vec::new();
    // The ninth sample would ask the cache.
    let start = [55 * ONE, 63 * ONE, 3 * ONE];
    let mut ray = Ray { pos: start, step: [ONE, 0, 0], left: 20, samples: Vec::new() };
    let need = v.gather_some_along_normal(&store, &m, &mut ray, 8, 0, &Vec::new(), &mut fetch);
    assert_eq!(need, RayNeed::Nothing);
    assert_eq!((ray.left, ray.samples.len(), ray.pos[0]), (12, 8, 63 * ONE));
    assert!(fetch.is_empty());
    let need = v.gather_some_along_normal(&store, &m, &mut ray, 1, 0, &Vec::new(), &mut fetch);
    assert_eq!(need, RayNeed::Ask(ChunkKey::new(0, 0, 0, 0)));
    assert_eq!(ray.left, 12);
}

#[test]
fn the_largest_sample_of_a_ray() {
    let (store, files) = stored(0, &[(ChunkKey::new(0, 0, 0, 0), ramp())]);
    let m = maps(&files);
    let mut v = volume(0);
    let mut fetch = Vec::new();
    let mut ray = Ray { pos: [40 * ONE, 3 * ONE, 3 * ONE], step: [-ONE, 0, 0], left: 9, samples: Vec::new() };
    assert_eq!(v.max_along_normal(&store, &m, &mut ray, 0, &Vec::new(), &mut fetch), Ok(40));
    let mut none = Ray { pos: [0; 3], step: [ONE, 0, 0], left: 0, samples: Vec::new() };
    assert_eq!(v.max_along_normal(&store, &m, &mut none, 0, &Vec::new(), &mut fetch), Ok(0));
    let mut waits = Ray { pos: [ONE, ONE, ONE], step: [ONE, 0, 0], left: 2, samples: Vec::new() };
    let need = v.max_along_normal(&store, &Vec::new(), &mut waits, 0, &Vec::new(), &mut fetch);
    assert_eq!(need, Err(RayNeed::Open(ShardRequest { lod: 0, shard: ZERO })));
}

#[test]
fn a_ray_waits_for_its_shard_and_goes_on() {
    let (store, files) = stored(0, &[(ChunkKey::new(0, 0, 0, 0), ramp())]);
    let mut v = volume(0);
    let mut fetch = Vec::new();
    let mut ray = Ray { pos: [-ONE, 3 * ONE, 3 * ONE], step: [ONE, 0, 0], left: 4, samples: Vec::new() };
    let need = v.gather_along_normal(&store, &Vec::new(), &mut ray, 0, &Vec::new(), &mut fetch);
    assert_eq!(need, RayNeed::Open(ShardRequest { lod: 0, shard: ZERO }));
    assert_eq!((ray.left, ray.samples.clone()), (3, vec![0]));
    let need = v.gather_along_normal(&store, &maps(&files), &mut ray, 0, &Vec::new(), &mut fetch);
    assert_eq!(need, RayNeed::Nothing);
    assert_eq!(ray.samples, vec![0, 0, 1, 2]);
}

#[test]
fn a_ray_at_a_corner_asks_the_cache() {
    let (store, files) = stored(0, &[(ChunkKey::new(0, 0, 0, 0), ramp())]);
    let mut v = volume(0);
    let mut fetch = Vec::new();
    let mut ray = Ray { pos: [63 * ONE, 63 * ONE, ONE], step: [ONE, 0, 0], left: 1, samples: Vec::new() };
    let key = ChunkKey::new(0, 0, 0, 0);
    let need = v.gather_along_normal(&store, &maps(&files), &mut ray, 0, &Vec::new(), &mut fetch);
    assert_eq!(need, RayNeed::Ask(key));
    let answers = vec![ChunkState::Resident { shard: ZERO, offset: 0 }];
    let need = v.gather_along_normal(&store, &maps(&files), &mut ray, 0, &answers, &mut fetch);
    assert_eq!(need, RayNeed::Nothing);
    assert_eq!(ray.samples, vec![63]);
}

#[test]
fn a_block_across_a_face() {
    let home = vec![10u8; CHUNK_VOXELS];
    let far = vec![30u8; CHUNK_VOXELS];
    let pos = [63 * ONE as u64 + (ONE as u64) / 2, 1, 1];
    assert_eq!(sample_boundary_1axis(&home, Some(&far), true, false, false, pos), 20);
    assert_eq!(sample_boundary_1axis(&home, None, true, false, false, pos), 5);
}

#[test]
fn previews_keep_a_flat_parent_flat() {
    let parent = vec![9u8; CHUNK_VOXELS];
    assert_eq!(upsample_from_parent(&parent, 3, 1, 2, 1), vec![9u8; CHUNK_VOXELS]);
    let up = upsample_from_parent(&ramp(), 1, 0, 0, 6);
    assert!(up.iter().all(|v| *v <= 2));
    let up = upsample_from_parent(&ramp(), 1, 0, 0, 1);
    assert!((31..=34).contains(&up[0]));
    assert_eq!(up[63], 63);
}

fn view(width: usize, height: usize) -> SliceView {
    SliceView { center: [32, 32, 5], u_axis: 0, v_axis: 1, plane_axis: 2, width, height, zoom: 1 }
}

fn identity() -> [u8; 256] {
    let mut f = [0u8; 256];
    for (i, b) in f.iter_mut().enumerate() {
        *b = i as u8;
    }
    f
}

#[test]
fn divisions_round_down() {
    assert_eq!(floor_div(7, 2), 3);
    assert_eq!(floor_div(-7, 2), -4);
    assert_eq!(floor_div(-8, 2), -4);
    assert!(viewport_tiles(0, 10, 0, 10, -1, 0).is_none());
    let t = viewport_tiles(-100, 200, 64, 127, 64, 0).unwrap();
    assert_eq!((t.tile_u_lo, t.tile_u_hi, t.tile_v_lo, t.tile_v_hi, t.tile_pc), (0, 3, 1, 1, 1));
}

#[test]
fn a_picture_is_painted_tile_by_tile() {
    let key = ChunkKey::new(0, 0, 0, 0);
    let (store, files) = stored(0, &[(key, ramp())]);
    let cache = Scheduler::new(1000);
    let v = view(64, 64);
    assert_eq!(v.tile_list(0), vec![(0, 0), (0, 1), (1, 0), (1, 1)]);
    assert_eq!(v.tile_chunks(0)[2], ChunkKey::new(0, 1, 0, 0));
    assert_eq!(v.pending_tiles(&cache, 0).len(), 4);
    let mut image = Image { width: 64, height: 64, pixels: vec![7; 64 * 64] };
    let states = vec![ChunkState::Resident { shard: ZERO, offset: 0 }, ChunkState::Empty, ChunkState::Empty, ChunkState::Missing];
    let calls = vec![false; 4];
    let e = v.paint(&cache, &store, &Vec::new(), 0, 0, &states, &calls, false, &identity(), &mut image);
    assert_eq!(e, Err(ShardRequest { lod: 0, shard: ZERO }));
    let r = v.paint(&cache, &store, &maps(&files), 0, 0, &states, &calls, false, &identity(), &mut image).unwrap();
    assert!(matches!(r[0], TilePaint::Painted { lod: 0, tint: None, .. }));
    assert_eq!(r[1], TilePaint::Offscreen);
    for y in 0..64 {
        for x in 0..64 {
            assert_eq!(image.pixels[y * 64 + x], x as u8);
        }
    }
}

#[test]
fn empty_tiles_are_cleared_and_unknown_ones_left() {
    let (store, files) = stored(0, &[]);
    let cache = Scheduler::new(1000);
    let v = SliceView { center: [64, 32, 5], ..view(128, 64) };
    assert_eq!(v.tile_list(0).len(), 6);
    let mut image = Image { width: 128, height: 64, pixels: vec![7; 128 * 64] };
    let mut states = vec![ChunkState::Missing; 6];
    states[0] = ChunkState::Empty;
    let calls = vec![true; 6];
    let mut filter = identity();
    filter[0] = 99;
    let r = v.paint(&cache, &store, &maps(&files), 0, 0, &states, &calls, true, &filter, &mut image).unwrap();
    assert!(matches!(r[0], TilePaint::Painted { .. }));
    assert!(matches!(r[2], TilePaint::Left { tint: Some(Rgb { r: 220, g: 60, b: 220 }), .. }));
    assert_eq!(image.pixels[0], 99);
    assert_eq!(image.pixels[64], 7);
}

#[test]
fn coarse_chunks_are_asked_for_first() {
    let v = SliceView { center: [64, 64, 5], ..view(128, 128) };
    let pending = vec![(0, 0), (0, 1), (1, 0), (1, 1)];
    let keys = v.coarse_requests(&pending, 0, 2);
    assert_eq!(keys, vec![ChunkKey::new(2, 0, 0, 0), ChunkKey::new(1, 0, 0, 0)]);
}

#[test]
fn tints() {
    let pending = Some(ChunkState::Pending { last_touched_frame: 0 });
    assert_eq!(overlay_color_for(0, Some(0), pending, true), None);
    assert_eq!(overlay_color_for(0, Some(1), pending, true), Some(Rgb { r: 40, g: 200, b: 220 }));
    assert_eq!(overlay_color_for(0, Some(1), pending, false), Some(Rgb { r: 60, g: 130, b: 230 }));
    assert_eq!(overlay_color_for(0, None, pending, true), Some(Rgb { r: 230, g: 140, b: 40 }));
    assert_eq!(overlay_color_for(0, None, pending, false), Some(Rgb { r: 230, g: 200, b: 40 }));
    assert_eq!(overlay_color_for(0, None, Some(ChunkState::Empty), false), Some(Rgb { r: 60, g: 200, b: 110 }));
    let failed = Some(ChunkState::CooldownMiss { until: 1 });
    assert_eq!(overlay_color_for(0, None, failed, false), Some(Rgb { r: 220, g: 60, b: 60 }));
    assert_eq!(overlay_color_for(0, None, None, false), Some(Rgb { r: 220, g: 60, b: 220 }));
}
