//! Filling cache chunks from native ones.
use vesuvius::backfiller::{BackfillError, ExtractedChunk, Reason, SourcePayload, SourceSpec};
use vesuvius::chunk::{ChunkKey, CHUNK_VOXELS};
use vesuvius::ome_zarr::{
    box_coords, covered_cache_chunks, fill_covered_chunks, local_outcome, native_spec, overlapping,
    plan_native, to_decode, triage_outcomes, Decoded, NativeBox, NativeGrid, OmeZarrBackfiller, ZarrLevel,
};
use vesuvius::ome_zarr_v3::{
    array_shape, decode_failure, needed_shards, plan_v3_chunk, sub_chunks, sub_spec,
};

fn grid(shape: u64, chunk: u64) -> NativeGrid {
    NativeGrid { shape: [shape; 3], chunk: [chunk; 3] }
}

#[test]
fn a_chunk_needs_what_it_overlaps() {
    let b = overlapping(ChunkKey::new(0, 1, 0, 1), grid(200, 100)).unwrap();
    assert_eq!((b.lo, b.hi), ([0, 0, 0], [1, 0, 1]));
    assert!(overlapping(ChunkKey::new(0, 4, 0, 0), grid(200, 100)).is_none());
    assert_eq!(
        box_coords(NativeBox { lo: [0, 0, 0], hi: [1, 0, 1] }),
        vec![[0, 0, 0], [0, 0, 1], [1, 0, 0], [1, 0, 1]]
    );
}

#[test]
fn native_chunks_fill_what_lies_within_them() {
    let keys = covered_cache_chunks(NativeBox { lo: [0; 3], hi: [0; 3] }, grid(200, 100), 2);
    assert_eq!(keys, vec![ChunkKey::new(2, 0, 0, 0)]);
    let keys = covered_cache_chunks(NativeBox { lo: [0; 3], hi: [0; 3] }, grid(256, 128), 0);
    assert_eq!(keys.len(), 8);
    let past = covered_cache_chunks(NativeBox { lo: [0; 3], hi: [u64::MAX; 3] }, grid(200, 100), 0);
    assert_eq!(past.len(), 64);
    assert!(covered_cache_chunks(NativeBox { lo: [2; 3], hi: [5; 3] }, grid(200, 100), 0).is_empty());
    let keys = covered_cache_chunks(NativeBox { lo: [0; 3], hi: [1; 3] }, grid(200, 100), 0);
    assert_eq!(keys.len(), 64);
}

#[test]
fn plans_name_their_sources() {
    let p = plan_native("vol", ChunkKey::new(3, 1, 0, 0), grid(200, 100)).unwrap();
    let names: Vec<&str> = p.sources.iter().map(|s| s.name.as_str()).collect();
    assert_eq!(names, vec!["vol/L03/0/0/0", "vol/L03/0/0/1"]);
    assert_eq!(p.sources[1].coord, [0, 0, 1]);
    assert!(p.covered.contains(&ChunkKey::new(3, 1, 0, 0)));
    assert!(matches!(
        plan_native("vol", ChunkKey::new(0, 9, 0, 0), grid(200, 100)),
        Err(BackfillError::OutOfBounds)
    ));
}

#[test]
fn levels_of_a_volume() {
    let levels = vec![
        ZarrLevel { shape: vec![100, 200, 300], chunks: vec![64, 64, 64] },
        ZarrLevel { shape: vec![1, 100, 200, 300], chunks: vec![1, 64, 64, 64] },
    ];
    let b = OmeZarrBackfiller::from_ome("vol".to_string(), levels);
    assert_eq!(b.max_lod(), 1);
    assert_eq!(b.voxel_extent(), [300, 200, 100]);
    assert_eq!(b.volume_id(), "vol");
    let p = b.plan(ChunkKey::new(0, 4, 3, 1)).unwrap();
    assert_eq!(p.sources[0].name, "vol/L00/1/3/4");
    assert!(matches!(b.plan(ChunkKey::new(2, 0, 0, 0)), Err(BackfillError::OutOfBounds)));
    match b.plan(ChunkKey::new(1, 0, 0, 0)) {
        Err(BackfillError::Permanent(s)) => {
            assert_eq!(s, "expected 3D zarr at lod 1, got shape=[1, 100, 200, 300] chunks=[1, 64, 64, 64]")
        }
        _ => panic!("a level of four axes cannot be read"),
    }
}

#[test]
fn the_worst_failure_counts() {
    let stale = || Err(BackfillError::Transient(Reason::StaleOnPop));
    assert!(triage_outcomes(&vec![Ok(None), Ok(Some(SourcePayload::Bytes(1)))]).is_ok());
    assert!(matches!(
        triage_outcomes(&vec![Ok(None), stale()]),
        Err(BackfillError::Transient(Reason::StaleOnPop))
    ));
    match triage_outcomes(&vec![stale(), Err(BackfillError::Permanent("no".to_string()))]) {
        Err(BackfillError::Permanent(s)) => assert_eq!(s, "no"),
        _ => panic!("a lasting failure wins"),
    }
}

#[test]
fn chunks_are_cut_from_native_ones() {
    let g = grid(128, 128);
    let mut bytes = vec![0u8; 128 * 128 * 128];
    bytes[(70 * 128 + 2) * 128 + 65] = 9;
    let keys = vec![ChunkKey::new(0, 0, 0, 0), ChunkKey::new(0, 1, 0, 1)];
    let out = fill_covered_chunks(&keys, g, &vec![Decoded { coord: [0, 0, 0], bytes }]);
    assert_eq!(out.len(), 2);
    match &out[1].1 {
        ExtractedChunk::Bytes(b) => {
            assert_eq!(b.len(), CHUNK_VOXELS);
            assert_eq!(b[6 * 4096 + 2 * 64 + 1], 9);
            assert_eq!(b.iter().filter(|v| **v != 0).count(), 1);
        }
        ExtractedChunk::Empty => panic!("the chunk was decoded"),
    }
    let none = fill_covered_chunks(&keys, g, &Vec::new());
    assert!(matches!(none[0].1, ExtractedChunk::Empty));
}

#[test]
fn sources_come_from_near_or_far() {
    assert!(matches!(native_spec(3, None), SourceSpec::Compute { source: 3 }));
    match native_spec(3, Some("u".to_string())) {
        SourceSpec::Download { source: 3, url, range: None } => assert_eq!(url, "u"),
        _ => panic!("a download"),
    }
    assert!(matches!(
        local_outcome(Some(SourcePayload::Bytes(4)), false, [0; 3]),
        Ok(Some(SourcePayload::Bytes(4)))
    ));
    assert!(matches!(local_outcome(None, true, [0; 3]), Ok(None)));
    assert!(local_outcome(None, false, [1, 2, 3]).is_err());
    let d = to_decode(&vec![Ok(Some(SourcePayload::Bytes(5))), Ok(None), Ok(Some(SourcePayload::Bytes(6)))]).unwrap();
    assert_eq!(d, vec![(0, 5), (2, 6)]);
}

#[test]
fn parts_of_shards() {
    let key = ChunkKey::new(0, 1, 0, 0);
    let g = grid(512, 64);
    let subs = sub_chunks(key, g, [4, 4, 4]).unwrap();
    assert_eq!(subs.len(), 1);
    assert_eq!((subs[0].coord, subs[0].shard, subs[0].entry), ([0, 0, 1], [0, 0, 0], 1));
    let subs = sub_chunks(ChunkKey::new(0, 5, 6, 7), g, [4, 4, 4]).unwrap();
    assert_eq!((subs[0].shard, subs[0].entry), ([1, 1, 1], (3 * 4 + 2) * 4 + 1));
    assert_eq!(needed_shards(&subs), vec![[1, 1, 1]]);
    let p = plan_v3_chunk("vol", ChunkKey::new(0, 5, 6, 7), g, &subs, &vec![Some((100, 20))]);
    assert_eq!(p.covered, vec![ChunkKey::new(0, 5, 6, 7)]);
    assert_eq!(p.sources[0].name, "vol/L00/c/1_1_1/sub_00057");
    assert_eq!(p.sources[0].range, (100, 20));
    let p = plan_v3_chunk("vol", key, g, &sub_chunks(key, g, [4, 4, 4]).unwrap(), &vec![None]);
    assert!(p.sources.is_empty());
    assert_eq!(p.covered, vec![key]);
    assert!(sub_chunks(ChunkKey::new(0, 9, 0, 0), g, [4, 4, 4]).is_err());
}

#[test]
fn sharded_arrays_have_three_axes() {
    assert_eq!(array_shape(&[3, 2, 1]).unwrap(), [3, 2, 1]);
    match sub_spec(9, "u".to_string(), (1, 2)) {
        SourceSpec::Download { source: 9, url, range: Some((1, 2)) } => assert_eq!(url, "u"),
        _ => panic!("a download of a range"),
    }
    match decode_failure([1, 2, 3], "bad") {
        BackfillError::Permanent(s) => assert_eq!(s, "c3d decode at [1, 2, 3]: bad"),
        _ => panic!("a chunk that cannot be decoded now never can"),
    }
    match array_shape(&[3, 2]) {
        Err(BackfillError::Permanent(s)) => assert_eq!(s, "v3 array shape is not 3D: [3, 2]"),
        _ => panic!("two axes are too few"),
    }
}
