//! The scheduler: chunks, sources and workers.
use vesuvius::backfiller::{BackfillError, BackfillPlan, Reason, SourcePayload, SourceSpec};
use vesuvius::cache::{
    cooldown, dispatch_chunk, is_out_of_bounds, long_cooldown, short_cooldown, Scheduler, WorkerStep,
    COOLDOWN_MS, PERMANENT_COOLDOWN_MS, SHORT_COOLDOWN_MS,
};
use vesuvius::chunk::{ChunkKey, ChunkState, ShardCoord, CHUNK_VOXELS};
use vesuvius::disk::{Claim, DiskStore, LoadOutcome, WriteOutcome};
use vesuvius::epoch::EpochState;
use vesuvius::purge::{find_victims, PurgePlan};
use vesuvius::upkeep::{
    begin_purge, end_purge, keeps_waiting, preview_ended, primary_state, touch_aabb, touch_access,
    try_upscale_from_parent, voxel, Primary,
};
use vesuvius::volume::ShardRequest;

fn key(x: u32) -> ChunkKey {
    ChunkKey::new(0, x, 0, 0)
}

fn resident(x: u64) -> ChunkState {
    ChunkState::Resident { shard: ShardCoord { x: 0, y: 0, z: 0 }, offset: x * CHUNK_VOXELS as u64 }
}

fn plan(covered: Vec<ChunkKey>, sources: Vec<SourceSpec>) -> Result<BackfillPlan, BackfillError> {
    Ok(BackfillPlan { covered, sources })
}

fn dispatch(s: &mut Scheduler, k: ChunkKey, p: Result<BackfillPlan, BackfillError>, now: u64) -> Vec<(u64, ChunkKey)> {
    assert!(s.state_or_fetch(k, now).is_none());
    let planned = s.start_plan(k, p, now);
    s.end_dispatch(k, planned.state, now);
    planned.children
}

#[test]
fn a_chunk_is_fetched_and_extracted() {
    let mut s = Scheduler::new(1000);
    let k = key(0);
    assert!(s.peek(k).is_none());
    dispatch(&mut s, k, plan(vec![k], vec![SourceSpec::Compute { source: 1 }]), 0);
    assert!(matches!(s.peek(k), Some(ChunkState::Pending { .. })));
    assert_eq!(s.worker_step(1), WorkerStep::Fetch(1));
    assert_eq!(s.worker_step(1), WorkerStep::Idle);
    s.complete_source(1, Ok(Some(SourcePayload::Bytes(9))), 2);
    assert!(s.is_source_done(1));
    assert_eq!(s.worker_step(3), WorkerStep::Extract(k));
    let w = s.begin_extract(k).unwrap();
    assert_eq!(w.inputs.len(), 1);
    assert!(matches!(w.inputs[0], Ok(Some(SourcePayload::Bytes(9)))));
    s.end_extract(k, w.order, w.covered, Ok(vec![(k, resident(0))]), 4);
    assert_eq!(s.peek(k), Some(resident(0)));
    assert!(s.is_chunk_done(k));
    assert_eq!(s.state_or_fetch(k, 5), Some(resident(0)));
    assert!(s.begin_extract(k).is_none());
}

#[test]
fn two_chunks_share_a_source() {
    let mut s = Scheduler::new(1000);
    dispatch(&mut s, key(0), plan(vec![key(0)], vec![SourceSpec::Compute { source: 1 }]), 0);
    dispatch(&mut s, key(1), plan(vec![key(1)], vec![SourceSpec::Compute { source: 1 }]), 0);
    assert_eq!(s.worker_step(1), WorkerStep::Fetch(1));
    assert_eq!(s.worker_step(1), WorkerStep::Idle);
    s.complete_source(1, Ok(None), 2);
    let mut extracted = Vec::new();
    for _ in 0..2 {
        match s.worker_step(3) {
            WorkerStep::Extract(k) => extracted.push(k),
            other => panic!("expected an extraction, got {:?}", other),
        }
    }
    assert!(extracted.contains(&key(0)) && extracted.contains(&key(1)));
}

#[test]
fn covered_neighbors_wait_for_the_same_extraction() {
    let mut s = Scheduler::new(1000);
    dispatch(&mut s, key(0), plan(vec![key(0), key(1)], vec![SourceSpec::Compute { source: 1 }]), 0);
    assert!(matches!(s.state_or_fetch(key(1), 1), Some(ChunkState::Pending { .. })));
    s.worker_step(1);
    s.complete_source(1, Ok(None), 1);
    assert_eq!(s.worker_step(1), WorkerStep::Extract(key(0)));
    let w = s.begin_extract(key(0)).unwrap();
    s.end_extract(key(0), w.order, w.covered, Ok(vec![(key(0), ChunkState::Empty), (key(1), resident(1))]), 2);
    assert_eq!(s.peek(key(0)), Some(ChunkState::Empty));
    assert_eq!(s.peek(key(1)), Some(resident(1)));
}

#[test]
fn a_failed_plan_rests() {
    let mut s = Scheduler::new(1000);
    dispatch(&mut s, key(0), Err(BackfillError::OutOfBounds), 5);
    assert_eq!(s.peek(key(0)), Some(ChunkState::CooldownMiss { until: 5 + PERMANENT_COOLDOWN_MS }));
    dispatch(&mut s, key(1), Err(BackfillError::Transient(Reason::AgedOut)), 5);
    assert_eq!(s.peek(key(1)), Some(ChunkState::CooldownMiss { until: 5 + COOLDOWN_MS }));
    assert!(s.state_or_fetch(key(1), 5 + COOLDOWN_MS - 1).is_some());
    assert!(s.state_or_fetch(key(1), 5 + COOLDOWN_MS).is_none());
    dispatch(&mut s, key(2), Err(BackfillError::Permanent("no".to_string())), 5);
    assert_eq!(s.peek(key(2)), Some(ChunkState::CooldownMiss { until: 5 + PERMANENT_COOLDOWN_MS }));
}

#[test]
fn a_failed_extraction_rests() {
    let mut s = Scheduler::new(1000);
    let k = key(0);
    dispatch(&mut s, k, plan(vec![k], vec![SourceSpec::Compute { source: 1 }]), 0);
    s.worker_step(0);
    s.complete_source(1, Err(BackfillError::Transient(Reason::Reported("x".to_string()))), 1);
    assert_eq!(s.worker_step(1), WorkerStep::Extract(k));
    let w = s.begin_extract(k).unwrap();
    assert!(w.inputs[0].is_err());
    s.end_extract(k, w.order, w.covered, Err(BackfillError::Transient(Reason::StaleOnPop)), 1);
    assert_eq!(s.peek(k), Some(ChunkState::CooldownMiss { until: 1 + COOLDOWN_MS }));
}

#[test]
fn downloads_are_handed_out_newest_first() {
    let mut s = Scheduler::new(1000);
    for i in 0..3u64 {
        let spec = SourceSpec::Download { source: i, url: format!("u{}", i), range: Some((i, 10)) };
        dispatch(&mut s, key(i as u32), plan(vec![key(i as u32)], vec![spec]), i);
    }
    let d = s.next_download(3).unwrap();
    assert_eq!(d.item.url, "u2");
    assert_eq!(d.item.range, Some((2, 10)));
    s.advance_frame();
    assert!(s.state_or_fetch(key(0), 4).is_some());
    assert_eq!(s.next_download(5).unwrap().item.url, "u0");
    assert_eq!(s.next_download(5).unwrap().item.url, "u1");
    assert!(s.next_download(5).is_none());
}

#[test]
fn a_source_that_is_a_chunk_waits_for_it() {
    let mut s = Scheduler::new(1000);
    let spec = SourceSpec::Chunk { source: 4, child: key(7) };
    let children = dispatch(&mut s, key(0), plan(vec![key(0)], vec![spec]), 0);
    assert_eq!(children, vec![(4, key(7))]);
    s.child_looked_up(4, key(7), resident(7), 1);
    assert!(s.is_source_done(4));
    assert_eq!(s.worker_step(1), WorkerStep::Extract(key(0)));
    let w = s.begin_extract(key(0)).unwrap();
    assert!(matches!(w.inputs[0], Ok(Some(SourcePayload::Chunk(k))) if k == key(7)));
}

#[test]
fn a_closed_cache_gives_up() {
    let mut s = Scheduler::new(1000);
    s.close();
    let k = key(0);
    assert!(s.state_or_fetch(k, 0).is_none());
    let planned = s.start_plan(k, plan(vec![k], vec![SourceSpec::Compute { source: 1 }]), 0);
    s.end_dispatch(k, planned.state, 0);
    assert!(matches!(s.peek(k), Some(ChunkState::CooldownMiss { .. })));
    assert_eq!(s.worker_step(1), WorkerStep::Closed);
}

#[test]
fn stale_tasks_are_cancelled() {
    let mut s = Scheduler::new(10);
    let k = key(0);
    dispatch(&mut s, k, plan(vec![k], vec![SourceSpec::Compute { source: 1 }]), 0);
    assert_eq!(s.worker_step(100), WorkerStep::Idle);
    assert!(!matches!(s.peek(k), Some(ChunkState::Resident { .. })));
}

#[test]
fn rests() {
    assert_eq!(cooldown(1), ChunkState::CooldownMiss { until: 1 + COOLDOWN_MS });
    assert_eq!(short_cooldown(1), ChunkState::CooldownMiss { until: 1 + SHORT_COOLDOWN_MS });
    assert_eq!(long_cooldown(u64::MAX), ChunkState::CooldownMiss { until: u64::MAX });
}

#[test]
fn bounds() {
    assert!(!is_out_of_bounds(key(1), [128, 64, 64], 0));
    assert!(is_out_of_bounds(key(2), [128, 64, 64], 0));
    assert!(is_out_of_bounds(ChunkKey::new(1, 0, 0, 0), [128, 64, 64], 0));
    let missing = dispatch_chunk(key(2), LoadOutcome::Missing, [128, 64, 64], 0, 3);
    assert_eq!(missing, Some(ChunkState::CooldownMiss { until: 3 + PERMANENT_COOLDOWN_MS }));
    assert_eq!(dispatch_chunk(key(1), LoadOutcome::Missing, [128, 64, 64], 0, 3), None);
    assert_eq!(dispatch_chunk(key(1), LoadOutcome::Empty, [128, 64, 64], 0, 3), Some(ChunkState::Empty));
}

fn store(extent: [u32; 3], max_lod: u8) -> DiskStore {
    DiskStore::new("v".to_string(), extent, max_lod, None).store
}

fn write(d: &mut DiskStore, k: ChunkKey) {
    assert!(matches!(d.begin_write(k), Claim::Held { .. }));
    d.end_write(k, true);
}

#[test]
fn the_finest_stored_parent_serves_for_a_preview() {
    let mut d = store([1 << 14, 1 << 14, 64], 8);
    let k = ChunkKey::new(0, 200, 37, 0);
    assert!(try_upscale_from_parent(&d, &Vec::new(), k, 8).is_none());
    write(&mut d, ChunkKey::new(7, 1, 0, 0));
    assert!(try_upscale_from_parent(&d, &Vec::new(), k, 8).is_none());
    write(&mut d, ChunkKey::new(5, 6, 1, 0));
    assert_eq!(try_upscale_from_parent(&d, &Vec::new(), k, 8).unwrap().shift, 5);
    write(&mut d, ChunkKey::new(2, 50, 9, 0));
    let p = try_upscale_from_parent(&d, &Vec::new(), k, 8).unwrap();
    assert_eq!((p.parent, p.shift), (ChunkKey::new(2, 50, 9, 0), 2));
    let refused = vec![ShardRequest { lod: 2, shard: p.shard }];
    assert_eq!(try_upscale_from_parent(&d, &refused, k, 8).unwrap().shift, 5);
    assert!(try_upscale_from_parent(&d, &Vec::new(), k, 1).is_none());
    assert!(try_upscale_from_parent(&d, &Vec::new(), ChunkKey::new(8, 0, 0, 0), 8).is_none());
}

#[test]
fn a_use_is_counted_once_an_epoch() {
    let mut d = store([128, 64, 64], 0);
    let mut e = EpochState::new(1 << 30, 1);
    write(&mut d, key(0));
    let s = primary_state(&mut d, &mut e, key(0), Primary::Stored(WriteOutcome::Wrote), true, 10, 1);
    assert_eq!(s, resident(0));
    assert_eq!(e.total_chunks(), 1);
    let first = e.current();
    e.force_advance(3, 2);
    touch_access(&mut d, &mut e, key(0));
    touch_access(&mut d, &mut e, key(0));
    touch_access(&mut d, &mut e, key(9));
    assert_eq!(d.get_access_epoch(key(0)), Some(e.current()));
    assert_eq!(e.epoch_chunks()[first as usize], 0);
    assert_eq!(e.epoch_chunks()[e.current() as usize], 1);
}

#[test]
fn what_a_chunk_comes_to() {
    let mut d = store([256, 64, 64], 0);
    let mut e = EpochState::new(1 << 30, 1);
    let rest = ChunkState::CooldownMiss { until: 10 + COOLDOWN_MS };
    assert_eq!(primary_state(&mut d, &mut e, key(0), Primary::Failed, true, 10, 1), rest);
    assert_eq!(primary_state(&mut d, &mut e, key(0), Primary::Stored(WriteOutcome::AlreadyResident), true, 10, 1), rest);
    assert_eq!(
        primary_state(&mut d, &mut e, key(0), Primary::Stored(WriteOutcome::AlreadyEmpty), true, 10, 1),
        ChunkState::Empty
    );
    assert_eq!(e.total_chunks(), 0);
    assert_eq!(primary_state(&mut d, &mut e, key(1), Primary::Empty, true, 10, 1), ChunkState::Empty);
    assert!(matches!(d.load(key(1), true), LoadOutcome::Empty));
    write(&mut d, key(2));
    assert_eq!(
        primary_state(&mut d, &mut e, key(2), Primary::Stored(WriteOutcome::AlreadyResident), true, 10, 1),
        resident(2)
    );
    assert_eq!(e.total_chunks(), 0);
    let o = Primary::Stored(WriteOutcome::AlreadyResident);
    assert_eq!(primary_state(&mut d, &mut e, key(2), o, false, 10, 1), rest);
    assert_eq!(primary_state(&mut d, &mut e, key(3), Primary::Empty, false, 10, 1), ChunkState::Empty);
    assert!(matches!(d.load(key(3), true), LoadOutcome::Missing));
}

#[test]
fn a_preview_counts_as_a_use_of_its_parent() {
    let mut d = store([128, 64, 64], 1);
    let mut e = EpochState::new(1 << 30, 1);
    let parent = ChunkKey::new(1, 0, 0, 0);
    write(&mut d, parent);
    primary_state(&mut d, &mut e, parent, Primary::Stored(WriteOutcome::Wrote), true, 10, 1);
    e.force_advance(5, 2);
    let now = e.current();
    preview_ended(&mut d, &mut e, key(0), parent, None);
    assert_ne!(d.get_access_epoch(parent), Some(now));
    preview_ended(&mut d, &mut e, key(0), parent, Some(false));
    assert_eq!(d.get_access_epoch(parent), Some(now));
    assert_eq!(d.get_access_epoch(key(0)), Some(0));
    preview_ended(&mut d, &mut e, key(0), parent, Some(true));
    assert_eq!(d.get_access_epoch(key(0)), Some(now));
}

#[test]
fn purged_chunks_are_forgotten() {
    let mut s = Scheduler::new(1000);
    let mut d = store([256, 64, 64], 0);
    let mut e = EpochState::new(1 << 30, 1);
    for x in 0..2 {
        write(&mut d, key(x));
        let st = primary_state(&mut d, &mut e, key(x), Primary::Stored(WriteOutcome::Wrote), true, 1, 1);
        assert!(s.state_or_fetch(key(x), 1).is_none());
        s.end_dispatch(key(x), st, 1);
    }
    e.force_advance(20, 2);
    touch_access(&mut d, &mut e, key(1));
    let plan = PurgePlan { age_threshold: 10, target_chunks: 1, freed_chunks: 1 };
    let victims = find_victims(&d.sidecar, &plan, e.current());
    assert_eq!(victims.len(), 1);
    assert!(begin_purge(&mut s, &mut d, victims[0]));
    assert!(!begin_purge(&mut s, &mut d, victims[0]));
    assert_eq!(s.peek(key(0)), None);
    assert_eq!(s.peek(key(1)), Some(resident(1)));
    end_purge(&mut d, &mut e, victims[0]);
    assert!(matches!(d.load(key(0), true), LoadOutcome::Missing));
    assert_eq!(e.total_chunks(), 1);
}

#[test]
fn waiting_ends_with_the_chunk_or_the_time() {
    let pending = ChunkState::Pending { last_touched_frame: 0 };
    assert!(keeps_waiting(pending, 4, 5));
    assert!(!keeps_waiting(pending, 5, 5));
    assert!(!keeps_waiting(ChunkState::Empty, 0, 5));
}

#[test]
fn voxels_of_a_chunk() {
    let mut bytes = vec![0u8; CHUNK_VOXELS];
    bytes[3 * 4096 + 2 * 64 + 1] = 77;
    assert_eq!(voxel(Some(&bytes), 64 + 1, 128 + 2, 3), 77);
    assert_eq!(voxel(None, 1, 2, 3), 0);
}

#[test]
fn a_box_asks_for_its_chunks() {
    let keys = touch_aabb([-5, 0, 0], [100, 63, 10], 0, 0, [256, 256, 256]);
    assert_eq!(keys, vec![key(0), key(1)]);
    let keys = touch_aabb([0, 0, 64], [10, 10, 9999], 0, 8, [256, 64, 200]);
    assert_eq!(
        keys,
        vec![
            ChunkKey::new(6, 0, 0, 0),
            ChunkKey::new(0, 0, 0, 1),
            ChunkKey::new(0, 0, 0, 2),
            ChunkKey::new(0, 0, 0, 3)
        ]
    );
    assert!(touch_aabb([0; 3], [9; 3], 3, 2, [256; 3]).is_empty());
    assert!(touch_aabb([300, 0, 0], [400, 0, 0], 0, 0, [256; 3]).is_empty());
}
