//! The store of chunks: its index, its shards, and who may touch a slot.
use std::collections::HashMap;
use vesuvius::bits::{ChunkBitState, ChunkStateBits};
use vesuvius::chunk::{ChunkKey, ShardCoord, CHUNK_VOXELS};
use vesuvius::disk::{
    check_shard_file, shard_filename, stale_name, sync_timeout, Claim, DiskStore, LoadOutcome,
    ShardFile, WriteOutcome,
};
use vesuvius::sidecar::{
    sidecar_path, Header, HeaderError, LodDims, Sidecar, SidecarError, SidecarLayout, STATE_EMPTY,
    STATE_LOCKED, STATE_MISSING, STATE_RESIDENT,
};

/// Shard files, by name and by the byte at which a chunk begins.
struct Files {
    shards: HashMap<String, HashMap<u64, Vec<u8>>>,
}

impl Files {
    fn new() -> Files {
        Files { shards: HashMap::new() }
    }

    fn holds(&self, name: &str) -> bool {
        self.shards.contains_key(name)
    }

    fn write_atomic(&mut self, store: &mut DiskStore, key: ChunkKey, bytes: &[u8]) -> Option<WriteOutcome> {
        match store.begin_write(key) {
            Claim::Held { shard, offset } => {
                store.ensure_open(key.lod, shard);
                self.shards
                    .entry(shard_filename(key.lod, shard))
                    .or_default()
                    .insert(offset, bytes.to_vec());
                store.end_write(key, true);
                Some(WriteOutcome::Wrote)
            }
            Claim::Settled(o) => Some(o),
            _ => None,
        }
    }

    fn read(&self, store: &DiskStore, key: ChunkKey) -> Option<&Vec<u8>> {
        let (shard, offset) = store.try_load(key, true)?;
        self.shards.get(&shard_filename(key.lod, shard))?.get(&offset)
    }
}

fn make_chunk(seed: u8) -> Vec<u8> {
    let mut v = vec![0u8; CHUNK_VOXELS];
    for (i, b) in v.iter_mut().enumerate() {
        *b = ((i as u8) ^ seed).wrapping_mul(31);
    }
    v
}

fn open(extent: [u32; 3], max_lod: u8, image: Option<Vec<u8>>) -> DiskStore {
    DiskStore::new("v".to_string(), extent, max_lod, image).store
}

#[test]
fn write_then_load_roundtrip() {
    let mut files = Files::new();
    let mut store = open([128, 128, 128], 0, None);
    let key = ChunkKey::new(0, 1, 0, 1);
    assert!(matches!(store.load(key, true), LoadOutcome::Missing));

    let bytes = make_chunk(0x42);
    assert_eq!(files.write_atomic(&mut store, key, &bytes), Some(WriteOutcome::Wrote));
    let back = files.read(&store, key).expect("resident after write");
    assert_eq!(&back[..16], &bytes[..16]);
    assert_eq!(back[CHUNK_VOXELS - 1], bytes[CHUNK_VOXELS - 1]);
}

#[test]
fn empty_sentinel_persisted_across_reopen() {
    let key = ChunkKey::new(0, 0, 0, 0);
    let image = {
        let mut store = open([64, 64, 64], 0, None);
        assert!(store.mark_empty(key, true));
        let plan = store.begin_sync().expect("a change waits to be written");
        plan.image
    };
    let store = open([64, 64, 64], 0, Some(image));
    assert!(matches!(store.load(key, true), LoadOutcome::Empty));
}

#[test]
fn multi_lod_offsets_disjoint() {
    let mut files = Files::new();
    let mut store = open([256, 256, 256], 2, None);
    let mut written = Vec::new();
    for lod in 0..=2u8 {
        let bytes = make_chunk(lod ^ 0xa5);
        files.write_atomic(&mut store, ChunkKey::new(lod, 0, 0, 0), &bytes).unwrap();
        written.push(bytes);
    }
    for lod in 0..=2u8 {
        let back = files.read(&store, ChunkKey::new(lod, 0, 0, 0)).unwrap();
        assert_eq!(&back[..32], &written[lod as usize][..32]);
    }
    assert!(files.holds("chunks-L00-X000-Y000-Z000.dat"));
    assert!(files.holds("chunks-L01-X000-Y000-Z000.dat"));
    assert!(files.holds("chunks-L02-X000-Y000-Z000.dat"));
}

#[test]
fn unused_lod_creates_no_file() {
    let mut files = Files::new();
    let mut store = open([256, 256, 256], 2, None);
    files.write_atomic(&mut store, ChunkKey::new(0, 0, 0, 0), &make_chunk(1)).unwrap();
    assert!(files.holds("chunks-L00-X000-Y000-Z000.dat"));
    assert!(!files.holds("chunks-L01-X000-Y000-Z000.dat"));
    assert!(!files.holds("chunks-L02-X000-Y000-Z000.dat"));
}

#[test]
fn extent_mismatch_rebuilds_files() {
    let image = {
        let mut files = Files::new();
        let mut store = open([128, 128, 128], 0, None);
        files.write_atomic(&mut store, ChunkKey::new(0, 0, 0, 0), &make_chunk(7)).unwrap();
        store.begin_sync().unwrap().image
    };
    let opened = DiskStore::new("v".to_string(), [256, 128, 128], 0, Some(image));
    assert!(opened.stale);
    assert!(matches!(opened.store.load(ChunkKey::new(0, 0, 0, 0), true), LoadOutcome::Missing));
    let renamed = stale_name("chunks-L00-X000-Y000-Z000.dat", 17).unwrap();
    assert!(renamed.contains(".stale."), "expected a .stale.* name, got {}", renamed);
}

#[test]
fn rejects_truncated_data_file() {
    let key = ChunkKey::new(0, 0, 0, 0);
    let image = {
        let mut files = Files::new();
        let mut store = open([128, 128, 128], 0, None);
        files.write_atomic(&mut store, key, &make_chunk(1)).unwrap();
        store.begin_sync().unwrap().image
    };
    let mut store = open([128, 128, 128], 0, Some(image));
    let expected = store.shard_bytes();
    assert_eq!(expected, 128 * 128 * 128 * CHUNK_VOXELS as u64);
    let opened = check_shard_file(128, expected) != ShardFile::Refuse;
    assert!(matches!(store.load(key, opened), LoadOutcome::Missing));
    assert_eq!(store.try_load(key, opened), None);
    assert!(!store.mark_empty(key, opened));
    assert!(matches!(store.load(key, true), LoadOutcome::Resident { .. }));
    assert_eq!(check_shard_file(expected, expected), ShardFile::Use);
    assert_eq!(check_shard_file(0, expected), ShardFile::Extend);
}

#[test]
fn a_chunk_has_a_place_in_the_levels_there_are() {
    let store = open([128, 64, 64], 1, None);
    assert_eq!(store.locate(ChunkKey::new(0, 1, 0, 0)), Some((ShardCoord { x: 0, y: 0, z: 0 }, 1)));
    assert_eq!(store.locate(ChunkKey::new(0, 2, 0, 0)), None);
    assert_eq!(store.locate(ChunkKey::new(1, 0, 0, 0)), Some((ShardCoord { x: 0, y: 0, z: 0 }, 0)));
    assert_eq!(store.locate(ChunkKey::new(1, 1, 0, 0)), None);
    assert_eq!(store.locate(ChunkKey::new(2, 0, 0, 0)), None);
    assert_eq!(store.sidecar.header.lods.len(), 2);
}

#[test]
fn writes_across_shard_boundary() {
    let mut files = Files::new();
    let mut store =
        DiskStore::new_with_shard_chunks_per_axis("v".to_string(), [1024, 64, 64], 0, 4, None).store;
    for cx in 0..16u32 {
        let mut bytes = make_chunk(cx as u8);
        bytes[0] = cx as u8;
        bytes[1] = (cx as u8).wrapping_add(0x80);
        files.write_atomic(&mut store, ChunkKey::new(0, cx, 0, 0), &bytes).unwrap();
    }
    for cx in 0..16u32 {
        let back = files.read(&store, ChunkKey::new(0, cx, 0, 0)).unwrap();
        assert_eq!(back[0], cx as u8, "chunk {}", cx);
        assert_eq!(back[1], (cx as u8).wrapping_add(0x80), "chunk {}", cx);
    }
    for sx in 0..4u32 {
        let name = format!("chunks-L00-X{:03}-Y000-Z000.dat", sx);
        assert!(files.holds(&name), "missing shard {}: {}", sx, name);
    }
    assert!(!files.holds("chunks-L00-X004-Y000-Z000.dat"));
}

#[test]
fn concurrent_writers_distinct_chunks() {
    let mut files = Files::new();
    let mut store = open([2048, 64, 1024], 0, None);
    for i in 0..16u32 {
        for t in 0..4u8 {
            let key = ChunkKey::new(0, t as u32, 0, i);
            let mut bytes = make_chunk(t);
            bytes[0] = i as u8;
            files.write_atomic(&mut store, key, &bytes).unwrap();
        }
    }
    for t in 0..4u8 {
        for i in 0..16u32 {
            let key = ChunkKey::new(0, t as u32, 0, i);
            let back = files.read(&store, key).unwrap();
            assert_eq!(back[0], i as u8, "{:?}", key);
            assert_eq!(back[1], (1u8 ^ t).wrapping_mul(31), "{:?}", key);
        }
    }
}

#[test]
fn a_held_slot_is_left_to_its_holder() {
    let mut store = open([4096, 64, 64], 0, None);
    let key = ChunkKey::new(0, 3, 0, 0);
    assert!(matches!(store.begin_write(key), Claim::Held { .. }));
    assert!(matches!(store.begin_write(key), Claim::Busy));
    assert_eq!(store.begin_preview(key), Some(false));
    assert!(!store.begin_evict(key));
    store.end_write(key, false);
    assert!(matches!(store.load(key, true), LoadOutcome::Missing));
    assert!(matches!(store.begin_write(key), Claim::Held { .. }));
    store.end_write(key, true);
    assert!(matches!(store.begin_write(key), Claim::Settled(WriteOutcome::AlreadyResident)));
    assert!(store.begin_evict(key));
    assert!(matches!(store.load(key, true), LoadOutcome::Missing));
    assert!(matches!(store.begin_write(key), Claim::Busy));
    store.end_evict(key);
    assert!(matches!(store.begin_write(key), Claim::Held { .. }));
}

#[test]
fn writes_beyond_the_volume_are_refused() {
    let mut store = open([64, 64, 64], 0, None);
    assert!(matches!(store.begin_write(ChunkKey::new(0, 1, 0, 0)), Claim::OutOfBounds));
    assert!(matches!(store.begin_write(ChunkKey::new(1, 0, 0, 0)), Claim::OutOfBounds));
    assert!(!store.mark_empty(ChunkKey::new(0, 0, 1, 0), true));
    assert_eq!(store.begin_preview(ChunkKey::new(0, 0, 0, 1)), None);
    assert_eq!(store.get_access_epoch(ChunkKey::new(0, 0, 0, 1)), None);
}

#[test]
fn an_empty_chunk_is_not_overwritten() {
    let mut store = open([64, 64, 64], 0, None);
    let key = ChunkKey::new(0, 0, 0, 0);
    assert!(store.mark_empty(key, true));
    assert!(matches!(store.begin_write(key), Claim::Settled(WriteOutcome::AlreadyEmpty)));
}

#[test]
fn a_slot_of_no_known_state_is_not_written() {
    let mut sidecar = Sidecar::empty(Header::new("v".to_string(), [64, 64, 64], 0));
    sidecar.set_state(0, 0, 9);
    let mut store = open([64, 64, 64], 0, Some(sidecar.to_bytes()));
    let key = ChunkKey::new(0, 0, 0, 0);
    assert!(matches!(store.load(key, true), LoadOutcome::Missing));
    assert!(matches!(store.begin_write(key), Claim::Unexpected(9)));
}

#[test]
fn slots_left_locked_count_as_missing() {
    let mut sidecar = Sidecar::empty(Header::new("v".to_string(), [128, 64, 64], 0));
    sidecar.set_state(0, 1, STATE_LOCKED);
    sidecar.set_state(0, 0, STATE_RESIDENT);
    let opened = DiskStore::new("v".to_string(), [128, 64, 64], 0, Some(sidecar.to_bytes()));
    assert!(!opened.stale);
    assert_eq!(opened.interrupted, vec![(0, 1)]);
    assert!(matches!(opened.store.load(ChunkKey::new(0, 0, 0, 0), true), LoadOutcome::Resident { .. }));
    assert!(matches!(opened.store.load(ChunkKey::new(0, 1, 0, 0), true), LoadOutcome::Missing));
}

#[test]
fn a_shard_map_follows_its_chunks() {
    let mut store = open([4096, 64, 64], 0, None);
    let key = ChunkKey::new(0, 5, 0, 0);
    let (shard, idx) = store.locate(key).unwrap();
    assert_eq!((shard, idx), (ShardCoord { x: 0, y: 0, z: 0 }, 5));
    assert_eq!(store.peek_shard(0, shard, idx), None);
    assert_eq!(store.mark_dispatched(ChunkKey::new(0, 64, 0, 0)), None);
    store.ensure_open(0, shard);
    assert_eq!(store.peek_shard(0, shard, idx), Some(ChunkBitState::Unknown));
    assert_eq!(store.mark_dispatched(key), Some(true));
    assert_eq!(store.mark_dispatched(key), Some(false));
    assert_eq!(store.peek_shard(0, shard, idx), Some(ChunkBitState::Dispatched));
    assert!(matches!(store.begin_write(key), Claim::Held { .. }));
    store.end_write(key, true);
    assert_eq!(store.peek_shard(0, shard, idx), Some(ChunkBitState::Resident));
    assert_eq!(store.punch_hole(key), Some((shard, 5 * CHUNK_VOXELS as u64, CHUNK_VOXELS as u64)));
    assert!(store.begin_evict(key));
    assert_eq!(store.peek_shard(0, shard, idx), Some(ChunkBitState::Unknown));
}

#[test]
fn opening_a_shard_shows_what_is_stored() {
    let mut sidecar = Sidecar::empty(Header::new("v".to_string(), [256, 64, 64], 0));
    sidecar.set_state(0, 1, STATE_RESIDENT);
    sidecar.set_state(0, 2, STATE_EMPTY);
    let mut store = open([256, 64, 64], 0, Some(sidecar.to_bytes()));
    let shard = ShardCoord { x: 0, y: 0, z: 0 };
    store.ensure_open(0, shard);
    assert_eq!(store.peek_shard(0, shard, 0), Some(ChunkBitState::Unknown));
    assert_eq!(store.peek_shard(0, shard, 1), Some(ChunkBitState::Resident));
    assert_eq!(store.peek_shard(0, shard, 2), Some(ChunkBitState::Empty));
}

#[test]
fn a_preview_gives_its_slot_back() {
    let mut store = open([64, 64, 64], 0, None);
    let key = ChunkKey::new(0, 0, 0, 0);
    assert_eq!(store.begin_preview(key), Some(true));
    assert_eq!(store.sidecar.get_state(0, 0), STATE_LOCKED);
    store.end_preview(key);
    assert_eq!(store.sidecar.get_state(0, 0), STATE_MISSING);
}

#[test]
fn access_epochs_are_replaced_only_if_expected() {
    let mut store = open([64, 64, 64], 0, None);
    let key = ChunkKey::new(0, 0, 0, 0);
    store.set_access_epoch(key, 7);
    assert_eq!(store.cas_access_epoch(key, 3, 9), Some(Err(7)));
    assert_eq!(store.get_access_epoch(key), Some(7));
    assert_eq!(store.cas_access_epoch(key, 7, 9), Some(Ok(7)));
    assert_eq!(store.get_access_epoch(key), Some(9));
}

#[test]
fn many_changes_are_written_at_once() {
    let mut store = open([64 * 300, 64, 64], 0, None);
    for x in 0..255u32 {
        assert!(store.mark_empty(ChunkKey::new(0, x, 0, 0), true));
    }
    assert!(!store.wants_sync());
    assert!(store.mark_empty(ChunkKey::new(0, 255, 0, 0), true));
    assert!(store.wants_sync());
    assert!(store.begin_sync().is_some());
    assert!(store.begin_sync().is_none());
    assert_eq!(sync_timeout(0), 10_000);
    assert_eq!(sync_timeout(4_000), 6_000);
}

#[test]
fn chunks_of_a_shard_have_their_own_places() {
    let store = DiskStore::new_with_shard_chunks_per_axis("v".to_string(), [512, 512, 512], 0, 2, None).store;
    let mut seen = Vec::new();
    for z in 0..4u32 {
        for y in 0..4u32 {
            for x in 0..4u32 {
                let at = store.locate(ChunkKey::new(0, x, y, z)).unwrap();
                assert!(!seen.contains(&at));
                seen.push(at);
            }
        }
    }
    assert_eq!(seen.len(), 64);
    assert_eq!(store.locate(ChunkKey::new(0, 3, 2, 1)).unwrap(), (ShardCoord { x: 1, y: 1, z: 0 }, 5));
}

#[test]
fn bits_keep_their_neighbors() {
    let mut b = ChunkStateBits::new(70);
    b.store(31, ChunkBitState::Empty);
    b.store(32, ChunkBitState::Resident);
    assert_eq!(b.load(30), ChunkBitState::Unknown);
    assert_eq!(b.load(31), ChunkBitState::Empty);
    assert_eq!(b.load(32), ChunkBitState::Resident);
    assert!(!b.store_if_unknown(31, ChunkBitState::Dispatched));
    assert!(b.store_if_unknown(69, ChunkBitState::Dispatched));
    assert_eq!(b.load(69), ChunkBitState::Dispatched);
    b.store(31, ChunkBitState::Unknown);
    assert_eq!(b.load(31), ChunkBitState::Unknown);
    assert_eq!(b.load(32), ChunkBitState::Resident);
}

#[test]
fn lod_dims_match_extent() {
    let d = LodDims::for_lod([128, 128, 128], 0);
    assert_eq!((d.nx, d.ny, d.nz), (2, 2, 2));
    let d1 = LodDims::for_lod([128, 128, 128], 1);
    assert_eq!((d1.nx, d1.ny, d1.nz), (1, 1, 1));
    let d_odd = LodDims::for_lod([65, 130, 200], 0);
    assert_eq!((d_odd.nx, d_odd.ny, d_odd.nz), (2, 3, 4));
}

#[test]
fn lod_dims_index_every_chunk_once() {
    let d = LodDims::for_lod([65, 130, 200], 0);
    assert_eq!(d.count(), 24);
    assert_eq!(d.linear_index(1, 2, 3), Some((3 * 3 + 2) * 2 + 1));
    assert_eq!(d.linear_index(2, 0, 0), None);
    assert_eq!(d.linear_index(0, 3, 0), None);
    assert_eq!(d.linear_index(0, 0, 4), None);
}

#[test]
fn header_roundtrip() {
    let h = Header::new("vol-x".to_string(), [256, 384, 512], 3);
    let mut buf = Vec::new();
    h.write_to(&mut buf);
    let back = Header::read_from(&buf).unwrap();
    assert!(h.matches(&back));
    assert_eq!(back.lods.len(), 4);
    assert_eq!(buf.len(), h.serialized_size());
}

#[test]
fn header_errors() {
    let h = Header::new("vol-x".to_string(), [256, 384, 512], 3);
    let mut buf = Vec::new();
    h.write_to(&mut buf);
    assert!(matches!(Header::read_from(&buf[..buf.len() - 1]), Err(HeaderError::Truncated)));
    assert!(matches!(Header::read_from(&[]), Err(HeaderError::Truncated)));
    let mut bad = buf.clone();
    bad[0] ^= 1;
    assert!(matches!(Header::read_from(&bad), Err(HeaderError::BadMagic)));
    let mut bad = buf.clone();
    let at = buf.windows(5).position(|w| w == b"vol-x").unwrap();
    bad[at] = 0xFF;
    assert!(matches!(Header::read_from(&bad), Err(HeaderError::BadVolumeId)));
    assert!(matches!(Sidecar::load(&bad), Err(SidecarError::Header(HeaderError::BadVolumeId))));
}

#[test]
fn headers_of_other_layouts_do_not_match() {
    let h = Header::new("vol-x".to_string(), [256, 384, 512], 3);
    assert!(!h.matches(&Header::new("vol-x".to_string(), [256, 384, 513], 3)));
    assert!(!h.matches(&Header::new("vol-x".to_string(), [256, 384, 512], 2)));
    assert!(!h.matches(&Header::new("vol-y".to_string(), [256, 384, 512], 3)));
}

#[test]
fn take_pending_resets_counter() {
    let h = Header::new("v".to_string(), [64, 64, 64], 0);
    let mut s = Sidecar::empty(h);
    s.set_state(0, 0, STATE_RESIDENT);
    assert_eq!(s.total_pending(), 1);
    let pending = s.take_pending();
    assert_eq!(pending[0], 1);
    assert_eq!(s.total_pending(), 0);
}

#[test]
fn sidecar_file_roundtrip() {
    let h = Header::new("vol".to_string(), [256, 128, 64], 1);
    let file = {
        let mut s = Sidecar::empty(h);
        s.set_state(0, 0, STATE_RESIDENT);
        s.set_state(0, 3, STATE_EMPTY);
        s.to_bytes()
    };
    let expected = Header::new("vol".to_string(), [256, 128, 64], 1);
    let loaded = Sidecar::load(&file).unwrap();
    assert!(loaded.header.matches(&expected));
    assert_eq!(loaded.get_state(0, 0), STATE_RESIDENT);
    assert_eq!(loaded.get_state(0, 1), STATE_MISSING);
    assert_eq!(loaded.get_state(0, 3), STATE_EMPTY);
}

#[test]
fn sidecar_access_epoch_roundtrip() {
    let h = Header::new("vol".to_string(), [256, 256, 256], 1);
    let file = {
        let mut s = Sidecar::empty(h);
        s.set_state(0, 0, STATE_RESIDENT);
        s.set_access_epoch(0, 0, 42);
        s.set_state(0, 17, STATE_RESIDENT);
        s.set_access_epoch(0, 17, 199);
        s.set_state(1, 0, STATE_RESIDENT);
        s.set_access_epoch(1, 0, 7);
        s.to_bytes()
    };
    let loaded = Sidecar::load(&file).unwrap();
    assert_eq!(loaded.get_access_epoch(0, 0), 42);
    assert_eq!(loaded.get_access_epoch(0, 17), 199);
    assert_eq!(loaded.get_access_epoch(0, 1), 0);
    assert_eq!(loaded.get_access_epoch(1, 0), 7);
}

#[test]
fn sidecar_old_format_loads_with_zero_access_epochs() {
    let h = Header::new("vol".to_string(), [128, 128, 64], 0);
    let mut buf = Vec::new();
    h.write_to(&mut buf);
    buf.extend_from_slice(&[STATE_RESIDENT, STATE_MISSING, STATE_RESIDENT, STATE_EMPTY]);
    let loaded = Sidecar::load(&buf).unwrap();
    assert_eq!(loaded.get_state(0, 0), STATE_RESIDENT);
    assert_eq!(loaded.get_state(0, 2), STATE_RESIDENT);
    for i in 0..4 {
        assert_eq!(loaded.get_access_epoch(0, i), 0);
    }
}

#[test]
fn sidecar_states_change_only_if_expected() {
    let mut s = Sidecar::empty(Header::new("v".to_string(), [64, 64, 64], 0));
    assert_eq!(s.compare_exchange_state(0, 0, STATE_RESIDENT, STATE_LOCKED), Err(STATE_MISSING));
    assert_eq!(s.compare_exchange_state(0, 0, STATE_MISSING, STATE_LOCKED), Ok(STATE_MISSING));
    assert_eq!(s.get_state(0, 0), STATE_LOCKED);
    assert_eq!(s.compare_exchange_access_epoch(0, 0, 1, 2), Err(0));
    assert_eq!(s.compare_exchange_access_epoch(0, 0, 0, 2), Ok(0));
    assert_eq!(s.get_access_epoch(0, 0), 2);
}

#[test]
fn sidecar_columns_do_not_overlap() {
    let h = Header::new("vol".to_string(), [256, 128, 64], 1);
    let l = SidecarLayout::for_header(&h);
    assert_eq!(l.bitmap_ranges.len(), 2);
    assert_eq!(l.bitmap_ranges[0].1 - l.bitmap_ranges[0].0, 8);
    assert_eq!(l.bitmap_ranges[0].0, h.serialized_size());
    assert_eq!(l.bitmap_ranges[1].0, l.bitmap_ranges[0].1);
    assert_eq!(l.ae_ranges[0].0, l.bitmap_ranges[1].1);
    assert_eq!(l.ae_ranges[1].1, l.total_size);
}

#[test]
fn file_names() {
    assert_eq!(shard_filename(3, ShardCoord { x: 1, y: 22, z: 333 }), "chunks-L03-X001-Y022-Z333.dat");
    assert_eq!(shard_filename(12, ShardCoord { x: 1000, y: 0, z: 0 }), "chunks-L12-X1000-Y000-Z000.dat");
    assert!(sidecar_path("/c/vol").starts_with("/c/vol/"));
    assert_eq!(stale_name("readme.txt", 5), None);
}
