//! Epochs, and what a purge takes.
use vesuvius::chunk::{ChunkKey, ShardCoord, CHUNK_VOXELS};
use vesuvius::epoch::{
    begin_offline_sweep, cap_bytes_from_env, derive_bytes_per_epoch, end_offline_sweep,
    epoch_state_path, is_offline, purge_target, total_evicted, EpochState, Reclaimed,
    DEFAULT_CAP_BYTES, MIN_FREE_BYTES,
};
use vesuvius::purge::{find_victims, plan_from_histogram, PurgePlan, PurgeTarget, EPOCH_SLOTS};
use vesuvius::sidecar::{Header, Sidecar, STATE_EMPTY, STATE_MISSING, STATE_RESIDENT};
use vesuvius::unified::{seed_from_disk, OfflineSweep};

#[test]
fn bytes_per_epoch_is_capx11_div_256() {
    let cap = 200u64 << 30;
    let bpe = derive_bytes_per_epoch(cap);
    let expected = (cap as u128 * 11 / 10 / 256) as u64;
    assert_eq!(bpe, expected);
}

#[test]
fn record_fill_advances_after_threshold() {
    let mut s = EpochState::new(1024, 0);
    let initial = s.current();
    for _ in 0..10 {
        s.record_fill(100, 1);
    }
    assert_ne!(s.current(), initial, "expected epoch advance after fills");
    assert_eq!(s.total_chunks(), 10);
}

#[test]
fn record_access_moves_histogram_bucket() {
    let mut s = EpochState::new(1 << 20, 0);
    let cur0 = s.record_fill(0, 1);
    let bpe = s.bytes_per_epoch();
    let cur1 = s.record_fill(bpe + 1, 2);
    assert_ne!(cur0, cur1, "expected one epoch advance");
    let h_before = s.epoch_chunks();
    assert_eq!(h_before[cur0 as usize], 1);
    assert_eq!(h_before[cur1 as usize], 1);
    let observed_cur = s.record_access(cur0);
    assert_eq!(observed_cur, cur1);
    let h_after = s.epoch_chunks();
    assert_eq!(h_after[cur0 as usize], 0);
    assert_eq!(h_after[cur1 as usize], 2);
}

#[test]
fn add_from_sidecar_counts_only_resident() {
    let h = Header::new("v".to_string(), [256, 256, 256], 0);
    let mut s = Sidecar::empty(h);
    s.set_state(0, 0, STATE_RESIDENT);
    s.set_access_epoch(0, 0, 10);
    s.set_state(0, 1, STATE_RESIDENT);
    s.set_access_epoch(0, 1, 10);
    s.set_state(0, 2, STATE_RESIDENT);
    s.set_access_epoch(0, 2, 200);
    s.set_state(0, 3, STATE_EMPTY);
    s.set_state(0, 4, STATE_MISSING);

    let mut e = EpochState::new(1 << 30, 0);
    e.add_from_sidecar(&s);
    assert_eq!(e.total_chunks(), 3);
    let h = e.epoch_chunks();
    assert_eq!(h[10], 2);
    assert_eq!(h[200], 1);
    for i in 0..EPOCH_SLOTS {
        if i != 10 && i != 200 {
            assert_eq!(h[i], 0, "expected slot {} to be 0", i);
        }
    }
}

#[test]
fn add_from_sidecar_is_idempotent_on_volume_id() {
    let h = Header::new("v-dedup".to_string(), [256, 256, 256], 0);
    let mut s = Sidecar::empty(h);
    s.set_state(0, 0, STATE_RESIDENT);
    s.set_access_epoch(0, 0, 7);

    let mut e = EpochState::new(1 << 30, 0);
    e.add_from_sidecar(&s);
    e.add_from_sidecar(&s);
    assert_eq!(e.total_chunks(), 1);
    assert_eq!(e.epoch_chunks()[7], 1);
}

fn planted(vid: &str, epoch: u8, n: u64) -> Vec<u8> {
    let mut s = Sidecar::empty(Header::new(vid.to_string(), [256, 256, 256], 0));
    for idx in 0..n {
        s.set_state(0, idx, STATE_RESIDENT);
        s.set_access_epoch(0, idx, epoch);
    }
    s.to_bytes()
}

fn seeded(files: &[Vec<u8>]) -> EpochState {
    let mut state = EpochState::new(1 << 30, 0);
    assert_eq!(seed_from_disk(&mut state, &files.to_vec()), files.len());
    state
}

#[test]
fn seed_from_disk_counts_every_volume_under_unified_root() {
    let mut state = EpochState::new(1 << 30, 0);
    seed_from_disk(&mut state, &vec![planted("vol-a", 3, 2), planted("vol-b", 9, 1)]);
    assert_eq!(state.total_chunks(), 3);
    let h = state.epoch_chunks();
    assert_eq!(h[3], 2);
    assert_eq!(h[9], 1);
    state.add_from_sidecar(&Sidecar::load(&planted("vol-a", 3, 1)).unwrap());
    assert_eq!(state.total_chunks(), 3);
    assert_eq!(state.accumulated_volume_ids(), &vec!["vol-a".to_string(), "vol-b".to_string()]);
}

#[test]
fn offline_sweep_evicts_unopened_volumes_and_demotes_sidecar() {
    let file = planted("vol-stale", 10, 3);
    let mut state = seeded(&[file.clone()]);
    assert_eq!(state.total_chunks(), 3);
    state.force_advance(200, 5);
    let cur = state.current();
    let plan = PurgePlan { age_threshold: 1, target_chunks: 3, freed_chunks: 3 };
    assert!(plan.is_victim(10, cur));

    let sweep = OfflineSweep::begin(&file, &Vec::new(), &plan, cur).unwrap();
    assert_eq!(sweep.victims.len(), 3);
    assert_eq!(sweep.place(0), (ShardCoord { x: 0, y: 0, z: 0 }, 0));
    let done = vec![Reclaimed::NoFile, Reclaimed::Punched, Reclaimed::Punched];
    let (evicted, image) = sweep.end(&mut state, &done);
    assert_eq!(evicted, 3);
    assert_eq!(state.total_chunks(), 0);

    let after = Sidecar::load(&image.unwrap()).unwrap();
    for idx in 0..3u64 {
        assert_eq!(
            after.get_state(0, idx),
            STATE_MISSING,
            "expected chunk {} demoted after offline sweep",
            idx
        );
    }
}

#[test]
fn a_failed_punch_is_not_counted() {
    let file = planted("vol-stale", 10, 3);
    let mut state = seeded(&[file.clone()]);
    state.force_advance(200, 5);
    let cur = state.current();
    let plan = PurgePlan { age_threshold: 1, target_chunks: 3, freed_chunks: 3 };
    let mut sidecar = Sidecar::load(&file).unwrap();
    let victims = begin_offline_sweep(&mut sidecar, &plan, cur);
    let done = vec![Reclaimed::Failed, Reclaimed::Punched, Reclaimed::Failed];
    assert_eq!(end_offline_sweep(&mut state, &victims, &done), 1);
    assert_eq!(state.total_chunks(), 2);
    assert_eq!(total_evicted(&vec![1, 2, 3]), 6);
    assert_eq!(total_evicted(&vec![u64::MAX, 2]), u64::MAX);
}

struct FakeTarget {
    vid: String,
    asked: Vec<PurgePlan>,
    gives: u64,
}

impl PurgeTarget for FakeTarget {
    fn volume_id(&self) -> String {
        self.vid.clone()
    }

    fn run_purge(&mut self, plan: PurgePlan) -> u64 {
        self.asked.push(plan);
        self.gives
    }
}

#[test]
fn offline_sweep_skips_volumes_with_live_target() {
    let file = planted("vol-live", 10, 1);
    let target = FakeTarget { vid: "vol-live".to_string(), asked: Vec::new(), gives: 0 };
    let live = vec![target.volume_id()];
    let mut state = seeded(&[file.clone()]);
    state.force_advance(200, 5);
    let plan = PurgePlan { age_threshold: 1, target_chunks: 1, freed_chunks: 1 };
    let mut evicted = 0;
    if let Some(sweep) = OfflineSweep::begin(&file, &live, &plan, state.current()) {
        evicted += sweep.victims.len();
    }
    assert_eq!(evicted, 0);
    assert!(!is_offline("vol-live", &live));
    assert!(is_offline("vol-other", &live));
}

#[test]
fn a_sweep_that_frees_nothing_leaves_the_index_file() {
    let file = planted("vol-stale", 10, 1);
    let mut state = seeded(&[file.clone()]);
    state.force_advance(200, 5);
    let plan = PurgePlan { age_threshold: 1, target_chunks: 1, freed_chunks: 1 };
    let sweep = OfflineSweep::begin(&file, &Vec::new(), &plan, state.current()).unwrap();
    assert_eq!(sweep.end(&mut state, &vec![Reclaimed::Failed]), (0, None));
    assert_eq!(state.total_chunks(), 1);
    assert!(OfflineSweep::begin(&[1, 2, 3], &Vec::new(), &plan, 0).is_none());
    assert_eq!(OfflineSweep::settled(None), Some(Reclaimed::NoFile));
    assert_eq!(OfflineSweep::settled(Some(0)), Some(Reclaimed::Failed));
    assert_eq!(OfflineSweep::settled(Some(128 * 128 * 128 * 64 * 64 * 64)), None);
}

#[test]
fn every_live_target_hears_the_plan() {
    let mut state = seeded(&[planted("a", 10, 3)]);
    state.force_advance(100, 1);
    let mut targets = vec![
        FakeTarget { vid: "a".to_string(), asked: Vec::new(), gives: 2 },
        FakeTarget { vid: "b".to_string(), asked: Vec::new(), gives: 1 },
    ];
    let (plan, counts) = state.purge_all_to_target(&mut targets, 3).unwrap();
    assert_eq!(counts, vec![2, 1]);
    assert_eq!(plan.freed_chunks, 3);
    assert_eq!(targets[0].asked.len(), 1);
    assert_eq!(targets[1].asked[0].age_threshold, plan.age_threshold);
    assert!(state.purge_all_to_target(&mut targets, 4).is_none());
}

#[test]
fn save_load_roundtrip() {
    let mut s = EpochState::new(1 << 30, 5);
    s.record_fill(0, 77);
    let file = s.save();
    let back = EpochState::load(&file).unwrap();
    assert_eq!(back.current(), s.current());
    assert_eq!(back.total_chunks(), s.total_chunks());
    assert_eq!(back.epoch_chunks(), s.epoch_chunks());
    assert_eq!(back.epoch_times(), s.epoch_times());
    assert_eq!(back.cap_bytes(), 1 << 30);
    assert!(EpochState::load(&file[..file.len() - 1]).is_none());
    assert!(EpochState::load(b"not an epoch file").is_none());
    assert_eq!(epoch_state_path("/c").rsplit('/').nth(1), Some("c"));
}

#[test]
fn a_purge_keeps_the_counts_in_balance() {
    let mut s = EpochState::new(1 << 30, 0);
    let e = s.record_fill(CHUNK_VOXELS as u64, 1);
    s.record_fill(CHUNK_VOXELS as u64, 1);
    s.record_evict(e);
    assert_eq!(s.total_chunks(), 1);
    assert_eq!(s.epoch_chunks()[e as usize], 1);
    s.reset_counts();
    assert_eq!(s.total_chunks(), 0);
}

#[test]
fn plan_picks_smallest_threshold_meeting_target() {
    let mut hist = [0u32; EPOCH_SLOTS];
    hist[101] = 5;
    hist[102] = 10;
    hist[103] = 20;
    hist[100] = 1000;

    let plan = plan_from_histogram(&hist, 100, 12).unwrap();
    assert_eq!(plan.age_threshold, 254);
    assert_eq!(plan.freed_chunks, 15);
}

#[test]
fn plan_refuses_if_target_exceeds_cache() {
    let hist = [1u32; EPOCH_SLOTS];
    assert!(plan_from_histogram(&hist, 0, 300).is_none());
}

#[test]
fn is_victim_modular() {
    let plan = PurgePlan { age_threshold: 100, target_chunks: 0, freed_chunks: 0 };
    assert!(plan.is_victim(200, 50));
    assert!(!plan.is_victim(0, 50));
}

#[test]
fn the_running_epoch_is_spared() {
    let plan = plan_from_histogram(&[1u32; EPOCH_SLOTS], 9, 255).unwrap();
    assert_eq!(plan.age_threshold, 1);
    assert_eq!(plan.freed_chunks, 255);
    assert!(!plan.is_victim(9, 9));
    assert!(plan.is_victim(8, 9));
}

#[test]
fn victims_are_resident_and_old() {
    let mut s = Sidecar::empty(Header::new("v".to_string(), [256, 128, 64], 0));
    s.set_state(0, 5, STATE_RESIDENT);
    s.set_access_epoch(0, 5, 3);
    s.set_state(0, 6, STATE_RESIDENT);
    s.set_access_epoch(0, 6, 49);
    s.set_state(0, 7, STATE_EMPTY);
    let plan = PurgePlan { age_threshold: 10, target_chunks: 1, freed_chunks: 1 };
    let v = find_victims(&s, &plan, 50);
    assert_eq!(v.len(), 1);
    assert_eq!(v[0].key, ChunkKey::new(0, 1, 1, 0));
    assert_eq!((v[0].idx, v[0].access_epoch), (5, 3));
}

#[test]
fn purge_targets() {
    let chunk = CHUNK_VOXELS as u64;
    let cap = 1000 * chunk;
    assert_eq!(purge_target(949, cap, None), 0);
    assert_eq!(purge_target(950, cap, None), 150);
    assert_eq!(purge_target(1200, cap, None), 400);
    assert_eq!(purge_target(0, cap, Some(MIN_FREE_BYTES)), 0);
    assert_eq!(purge_target(0, cap, Some(MIN_FREE_BYTES - chunk - 1)), 2);
    assert_eq!(purge_target(1200, cap, Some(MIN_FREE_BYTES - 1)), 400);
}

#[test]
fn caps_from_the_environment() {
    assert_eq!(cap_bytes_from_env(None), DEFAULT_CAP_BYTES);
    assert_eq!(cap_bytes_from_env(Some("3")), 3 << 30);
    assert_eq!(cap_bytes_from_env(Some("many")), DEFAULT_CAP_BYTES);
}
