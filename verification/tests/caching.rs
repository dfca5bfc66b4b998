//! The cache of one volume, and those of all volumes under one directory.
use vesuvius::backfiller::{BackfillError, BackfillPlan, Reason, SourceSpec};
use vesuvius::bits::ChunkBitState;
use vesuvius::cache::WorkerStep;
use vesuvius::chunk::{ChunkKey, ChunkState, ShardCoord, CHUNK_VOXELS};
use vesuvius::chunk_cache::ChunkCache;
use vesuvius::disk::{Claim, WriteOutcome};
use vesuvius::epoch::EpochState;
use vesuvius::purge::PurgePlan;
use vesuvius::sidecar::{STATE_LOCKED, STATE_MISSING, STATE_RESIDENT};
use vesuvius::unified::{seed_from_disk, shared_for_unified_root, unified_dir, UnifiedCache};
use vesuvius::upkeep::{begin_purge, end_purge, keeps_waiting, preview_ended, primary_state, Primary};
use vesuvius::volume::ShardMap;

const ZERO: ShardCoord = ShardCoord { x: 0, y: 0, z: 0 };

fn opened(epochs: &mut EpochState, max_lod: u8) -> ChunkCache {
    ChunkCache::open("v".to_string(), [256, 256, 256], max_lod, 2, None, 5_000, epochs).cache
}

/// Puts a chunk into the store and publishes it.
fn arrived(c: &mut ChunkCache, epochs: &mut EpochState, key: ChunkKey) -> ChunkState {
    assert!(matches!(c.store.begin_write(key), Claim::Held { .. }));
    c.store.end_write(key, true);
    primary_state(&mut c.store, epochs, key, Primary::Stored(WriteOutcome::Wrote), true, 0, 0)
}

#[test]
fn a_chunk_is_fetched_once() {
    let mut e = EpochState::new(1 << 40, 5);
    let mut c = opened(&mut e, 1);
    let key = ChunkKey::new(0, 0, 0, 0);
    assert_eq!(c.state_or_fetch(&mut e, key, true, 100), None);
    assert!(matches!(c.state_or_fetch(&mut e, key, true, 101), Some(ChunkState::Pending { .. })));
    assert_eq!(c.begin_fetch(key, true, &Vec::new()), None);
    assert_eq!(c.peek_shard(0, ZERO, 0), Some(ChunkBitState::Dispatched));
    let plan = BackfillPlan { covered: vec![key], sources: vec![SourceSpec::Compute { source: 7 }] };
    let planned = c.start_plan(key, Ok(plan), 102);
    assert!(planned.children.is_empty());
    c.end_fetch(key, planned.state, 102);
    assert!(matches!(c.peek(key), Some(ChunkState::Pending { .. })));
    assert!(matches!(c.scheduler.worker_step(103), WorkerStep::Fetch(7)));
}

#[test]
fn a_stored_chunk_is_served_and_counts_as_used() {
    let mut e = EpochState::new(1 << 40, 5);
    let mut c = opened(&mut e, 0);
    let key = ChunkKey::new(0, 1, 0, 0);
    arrived(&mut c, &mut e, key);
    e.force_advance(3, 9);
    let at = Some(ChunkState::Resident { shard: ZERO, offset: CHUNK_VOXELS as u64 });
    assert_eq!(c.state_or_fetch(&mut e, key, true, 0), at);
    assert_eq!(c.peek(key), at);
    assert_eq!(c.store.get_access_epoch(key), Some(e.current()));
    assert_eq!(e.epoch_chunks()[e.current() as usize], 1);
    assert_eq!(e.total_chunks(), 1);
}

#[test]
fn a_chunk_behind_a_refused_file_is_fetched_anew() {
    let mut e = EpochState::new(1 << 40, 0);
    let mut c = opened(&mut e, 0);
    let key = ChunkKey::new(0, 0, 0, 0);
    arrived(&mut c, &mut e, key);
    assert_eq!(c.state_or_fetch(&mut e, key, false, 0), None);
    c.end_fetch(key, ChunkState::Empty, 0);
    assert_eq!(c.state_or_fetch(&mut e, key, true, 1), Some(ChunkState::Empty));
}

#[test]
fn a_chunk_outside_the_volume_rests() {
    let mut e = EpochState::new(1 << 40, 5);
    let mut c = opened(&mut e, 0);
    let beyond = ChunkKey::new(0, 4, 0, 0);
    assert!(matches!(c.state_or_fetch(&mut e, beyond, true, 0), Some(ChunkState::CooldownMiss { .. })));
    let coarser = ChunkKey::new(1, 0, 0, 0);
    assert!(matches!(c.state_or_fetch(&mut e, coarser, true, 0), Some(ChunkState::CooldownMiss { .. })));
    assert_eq!(c.locate(beyond), None);
}

#[test]
fn a_first_fetch_gets_a_preview() {
    let mut e = EpochState::new(1 << 40, 5);
    let mut c = opened(&mut e, 2);
    let parent = ChunkKey::new(2, 0, 0, 0);
    arrived(&mut c, &mut e, parent);
    e.force_advance(1, 9);
    let key = ChunkKey::new(0, 3, 0, 0);
    assert_eq!(c.state_or_fetch(&mut e, key, true, 0), None);
    let p = c.begin_fetch(key, true, &Vec::new()).unwrap();
    assert_eq!((p.parent, p.shift, p.shard, p.offset), (parent, 2, ZERO, 0));
    assert_eq!(c.store.begin_preview(key), Some(true));
    c.store.end_preview(key);
    preview_ended(&mut c.store, &mut e, key, parent, Some(true));
    assert_eq!(c.store.get_access_epoch(parent), Some(e.current()));
    assert_eq!(c.begin_fetch(key, true, &Vec::new()), None);
    let other = ChunkKey::new(0, 2, 0, 0);
    assert_eq!(c.begin_fetch(other, false, &Vec::new()), None);
    assert_eq!(c.peek_shard(0, ShardCoord { x: 1, y: 0, z: 0 }, 0), Some(ChunkBitState::Unknown));
}

#[test]
fn a_chunk_without_a_plan_rests_and_is_asked_for_again() {
    let mut e = EpochState::new(1 << 40, 5);
    let mut c = opened(&mut e, 0);
    let key = ChunkKey::new(0, 0, 0, 0);
    assert_eq!(c.state_or_fetch(&mut e, key, true, 1_000), None);
    let planned = c.start_plan(key, Err(BackfillError::Transient(Reason::StaleOnPop)), 1_000);
    c.end_fetch(key, planned.state, 1_000);
    let until = match c.peek(key) {
        Some(ChunkState::CooldownMiss { until }) => until,
        other => panic!("not resting: {:?}", other),
    };
    assert!(matches!(c.state_or_fetch(&mut e, key, true, until - 1), Some(ChunkState::CooldownMiss { .. })));
    assert_eq!(c.state_or_fetch(&mut e, key, true, until), None);
}

#[test]
fn voxels_of_resident_chunks() {
    let mut e = EpochState::new(1 << 40, 5);
    let mut c = opened(&mut e, 0);
    arrived(&mut c, &mut e, ChunkKey::new(0, 0, 0, 0));
    let mut file = vec![0u8; 8 * CHUNK_VOXELS];
    file[(3 * 64 + 2) * 64 + 1] = 77;
    let maps = vec![ShardMap { lod: 0, shard: ZERO, bytes: Some(&file) }];
    assert_eq!(c.voxel(&mut e, &maps, 1, 2, 3, 0, true, 0), (77, false));
    assert_eq!(c.voxel(&mut e, &maps, 65, 2, 3, 0, true, 0), (0, true));
    assert_eq!(c.voxel(&mut e, &maps, 65, 2, 3, 0, true, 0), (0, false));
}

#[test]
fn boxes_are_asked_for_coarse_first() {
    let mut e = EpochState::new(1 << 40, 5);
    let c = opened(&mut e, 2);
    let keys = c.touch_aabb([0, 0, 0], [100, 10, 10], 0);
    assert_eq!(
        keys,
        vec![ChunkKey::new(2, 0, 0, 0), ChunkKey::new(0, 0, 0, 0), ChunkKey::new(0, 1, 0, 0)]
    );
    assert_eq!((c.voxel_extent(), c.max_lod(), c.shard_chunks_per_axis()), ([256, 256, 256], 2, 2));
    assert!(!c.is_downloading(keys[0]));
}

#[test]
fn old_chunks_are_given_up() {
    let mut e = EpochState::new(1 << 40, 5);
    let mut c = opened(&mut e, 0);
    let (old, new) = (ChunkKey::new(0, 0, 0, 0), ChunkKey::new(0, 1, 0, 0));
    arrived(&mut c, &mut e, old);
    e.force_advance(100, 9);
    arrived(&mut c, &mut e, new);
    let victims = c.purge_to_target(&e, 1);
    assert_eq!(victims.len(), 1);
    assert_eq!(victims[0].key, old);
    assert!(begin_purge(&mut c.scheduler, &mut c.store, victims[0]));
    assert!(!begin_purge(&mut c.scheduler, &mut c.store, victims[0]));
    end_purge(&mut c.store, &mut e, victims[0]);
    assert_eq!(c.store.try_load(old, true), None);
    assert!(c.store.try_load(new, true).is_some());
    assert_eq!(e.total_chunks(), 1);
    assert!(c.purge_to_target(&e, 2).is_empty());
}

#[test]
fn waiting_goes_on_while_a_chunk_is_pending() {
    assert!(keeps_waiting(ChunkState::Pending { last_touched_frame: 0 }, 9, 10));
    assert!(!keeps_waiting(ChunkState::Pending { last_touched_frame: 0 }, 10, 10));
    assert!(!keeps_waiting(ChunkState::Empty, 0, 10));
}

/// The index file of a volume of eight chunks, the first of which are resident.
fn index_file(id: &str, resident: u64) -> Vec<u8> {
    let mut e = EpochState::new(1 << 40, 5);
    let mut c = ChunkCache::open(id.to_string(), [128, 128, 128], 0, 2, None, 5_000, &mut e).cache;
    for i in 0..resident {
        arrived(&mut c, &mut e, ChunkKey::new(0, (i % 2) as u32, (i / 2) as u32, 0));
    }
    c.store.sidecar.to_bytes()
}

#[test]
fn a_volume_is_opened_once() {
    let epochs = shared_for_unified_root(None, 1 << 40, 5, &Vec::new());
    let mut u = UnifiedCache::for_unified_root(unified_dir("/c"), epochs);
    assert_eq!(u.unified_root(), "/c/unified");
    assert_eq!(u.volume_dir("a"), "/c/unified/a");
    let image = index_file("a", 3);
    let first = u.open_volume("a".to_string(), [128, 128, 128], 0, 2, Some(image.clone()), 5_000);
    assert_eq!((first.place, first.reused, first.stale), (0, false, false));
    assert_eq!(u.epoch_state().total_chunks(), 3);
    let again = u.open_volume("a".to_string(), [128, 128, 128], 0, 2, Some(image), 5_000);
    assert_eq!((again.place, again.reused), (0, true));
    let other = u.open_volume("b".to_string(), [128, 128, 128], 0, 2, None, 5_000);
    assert_eq!((other.place, other.reused), (1, false));
    assert_eq!(u.epoch_state().total_chunks(), 3);
    let counted = u.epoch_state().accumulated_volume_ids();
    assert_eq!(counted, &vec!["a".to_string(), "b".to_string()]);
}

#[test]
fn interrupted_slots_are_listed_on_opening() {
    let mut e = EpochState::new(1 << 40, 5);
    let mut c = ChunkCache::open("a".to_string(), [128, 128, 128], 0, 2, None, 5_000, &mut e).cache;
    assert!(matches!(c.store.begin_write(ChunkKey::new(0, 1, 0, 0)), Claim::Held { .. }));
    assert_eq!(c.store.sidecar.get_state(0, 1), STATE_LOCKED);
    let image = c.store.sidecar.to_bytes();
    let r = ChunkCache::open("a".to_string(), [128, 128, 128], 0, 2, Some(image.clone()), 5_000, &mut e);
    assert_eq!(r.interrupted, vec![(0, 1)]);
    assert_eq!(r.cache.store.sidecar.get_state(0, 1), STATE_MISSING);
    let r = ChunkCache::open("a".to_string(), [256, 128, 128], 0, 2, Some(image), 5_000, &mut e);
    assert!(r.stale);
    assert!(r.interrupted.is_empty());
}

#[test]
fn every_index_file_is_counted_once() {
    let mut e = EpochState::new(1 << 40, 5);
    let files = vec![index_file("a", 2), vec![1, 2, 3], index_file("b", 1), index_file("a", 4)];
    assert_eq!(seed_from_disk(&mut e, &files), 3);
    assert_eq!(e.total_chunks(), 3);
}

#[test]
fn stored_counts_are_not_trusted() {
    let mut e = EpochState::new(1 << 40, 5);
    seed_from_disk(&mut e, &vec![index_file("a", 4)]);
    e.force_advance(6, 8);
    let again = shared_for_unified_root(Some(e.save()), 77, 9, &vec![index_file("b", 1)]);
    assert_eq!((again.total_chunks(), again.current(), again.cap_bytes()), (1, 7, 1 << 40));
    let fresh = shared_for_unified_root(Some(vec![0; 10]), 77, 9, &Vec::new());
    assert_eq!((fresh.total_chunks(), fresh.current(), fresh.cap_bytes()), (0, 1, 77));
}

#[test]
fn maintenance_waits_for_high_water() {
    let cap = 100 * CHUNK_VOXELS as u64;
    let mut e = EpochState::new(cap, 5);
    e.add_from_sidecar(&{
        let mut x = EpochState::new(cap, 5);
        let mut c = ChunkCache::open("a".to_string(), [6400, 64, 64], 0, 2, None, 5_000, &mut x).cache;
        for i in 0..95 {
            arrived(&mut c, &mut x, ChunkKey::new(0, i, 0, 0));
        }
        assert_eq!(c.store.sidecar.get_state(0, 94), STATE_RESIDENT);
        c.store.sidecar
    });
    e.force_advance(50, 9);
    let mut u = UnifiedCache::for_unified_root("/u".to_string(), e);
    let plan: PurgePlan = u.maintenance_plan(None).unwrap();
    assert_eq!((plan.target_chunks, plan.freed_chunks), (15, 15));
    u.epochs.record_evict(1);
    assert!(u.maintenance_plan(None).is_none());
    assert_eq!(u.maintenance_plan(Some(0)), None);
}

#[test]
fn leaving_makes_changes_durable_once() {
    let epochs = EpochState::new(1 << 40, 5);
    let mut u = UnifiedCache::for_unified_root("/u".to_string(), epochs);
    u.open_volume("a".to_string(), [128, 128, 128], 0, 2, None, 5_000);
    let key = ChunkKey::new(0, 0, 0, 0);
    u.volumes[0].ensure_shard_open(0, ZERO);
    u.volumes[0].ensure_shard_open(9, ZERO);
    let UnifiedCache { epochs, volumes, .. } = &mut u;
    arrived(&mut volumes[0], epochs, key);
    let (plans, file) = u.shutdown();
    let plan = plans[0].as_ref().unwrap();
    assert_eq!(plan.files, vec![(0, ZERO)]);
    assert_eq!(plan.image, u.volumes[0].store.sidecar.to_bytes());
    assert_eq!(EpochState::load(&file).unwrap().total_chunks(), 1);
    let (plans, _) = u.shutdown();
    assert!(plans[0].is_none());
    u.volumes[0].advance_frame();
    assert_eq!(u.volumes[0].scheduler.frame, 2);
}
