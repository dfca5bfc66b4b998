//! Panes: their tiles, and the time that a frame has for them.
use vesuvius::volume_pane::{
    hash_image, min_level_for, paint_zoom_for, FrameBudget, PaintPass, PaneType, TileCache, TileCacheKey,
    TileState, TileTurn, VolumePane, RECALC_POLL_NS,
};

const MS: u64 = 1_000_000;

fn key(u: i32, v: i32, zoom: u8, level: u32) -> TileCacheKey {
    TileCacheKey { pane_type: PaneType::XY, tile_u: u, tile_v: v, w: 7, min_level: level, paint_zoom: zoom, settings: 1 }
}

fn ready(texture: u64, hash: u64, backoff: u64) -> TileState {
    TileState::Ready { texture, cached_at: 0, content_hash: hash, backoff_factor: backoff }
}

#[test]
fn panes_show_their_axes() {
    assert_eq!(PaneType::XY.label(), "XY");
    assert_eq!(PaneType::UV.label(), "UV");
    for p in [PaneType::XY, PaneType::XZ, PaneType::YZ, PaneType::UV] {
        let (u, v, d) = p.coordinates();
        assert_eq!(u + v + d, 3);
        assert!(u != v && v != d && u != d);
    }
}

#[test]
fn polling_is_off_once_the_time_is_up() {
    let mut b = FrameBudget::new(20 * MS);
    b.begin_pane_at(10 * MS, 0);
    assert_eq!(b.next_poll_timeout_at(0), Some(5 * MS));
    assert_eq!(b.next_poll_timeout_at(6 * MS), Some(2 * MS));
    assert_eq!(b.next_poll_timeout_at(10 * MS), None);
    assert!(b.polling_allowed_at(10 * MS));
    b.begin_pane_at(100 * MS, 12 * MS);
    assert_eq!(b.next_poll_timeout_at(12 * MS), Some(4 * MS));
    assert!(!b.polling_allowed_at(20 * MS));
    assert!(!b.polling_allowed_at(0));
    assert_eq!(b.next_poll_timeout_at(0), None);
}

#[test]
fn a_frame_reads_the_clock() {
    let mut b = FrameBudget::new(u64::MAX);
    b.begin_pane(u64::MAX);
    assert!(b.next_poll_timeout().is_some());
    assert!(b.polling_allowed());
    let mut over = FrameBudget::new(0);
    assert!(over.next_poll_timeout().is_none());
    assert!(!over.polling_allowed());
    assert!(b.now() <= b.now());
}

#[test]
fn a_tile_is_begun_polled_and_shown() {
    let mut c = TileCache::new();
    let mut b = FrameBudget::new(20 * MS);
    let k = key(0, 0, 1, 0);
    assert_eq!(c.look(k, 5, 0, 0, &mut b), TileTurn::Wait { start: true });
    assert_eq!(c.get(k), Some(TileState::Loading { job: 5, started_at: 0 }));
    assert_eq!(c.look(k, 6, 0, 0, &mut b), TileTurn::Poll { job: 5, timeout: 10 * MS });
    assert_eq!(c.polled(k, None, MS), TileTurn::Wait { start: false });
    assert_eq!(c.polled(k, Some((9, 77)), MS), TileTurn::Show { texture: 9, start: false, repaint: false });
    assert_eq!(c.look(k, 6, 2 * MS, 0, &mut b), TileTurn::Show { texture: 9, start: false, repaint: false });
}

#[test]
fn an_old_tile_is_made_anew_while_it_is_shown() {
    let mut c = TileCache::new();
    let mut b = FrameBudget::new(2000 * MS);
    let k = key(0, 0, 1, 0);
    c.set(k, ready(9, 77, 1));
    let later = 501 * MS;
    assert_eq!(c.look(k, 6, later, 500, &mut b), TileTurn::Show { texture: 9, start: false, repaint: false });
    assert_eq!(c.look(k, 6, later, 0, &mut b), TileTurn::Show { texture: 9, start: true, repaint: false });
    assert_eq!(c.look(k, 7, later, 0, &mut b), TileTurn::Poll { job: 6, timeout: RECALC_POLL_NS });
    assert_eq!(c.polled(k, None, later), TileTurn::Show { texture: 9, start: false, repaint: true });
    assert_eq!(c.look(k, 7, 3000 * MS, 0, &mut b), TileTurn::Show { texture: 9, start: false, repaint: true });
    c.polled(k, Some((10, 77)), later);
    assert_eq!(c.get(k), Some(TileState::Ready { texture: 10, cached_at: later, content_hash: 77, backoff_factor: 2 }));
}

#[test]
fn unchanged_tiles_live_longer() {
    assert!(ready(1, 1, 1).is_expired(501 * MS, 0));
    assert!(!ready(1, 1, 2).is_expired(501 * MS, 0));
    assert!(!ready(1, 1, 16).is_expired(8000 * MS, 0));
    assert!(ready(1, 1, 16).is_expired(16_001 * MS, 500));
    assert!(!ready(1, 1, 1).needs_recalculation(400 * MS));
    assert!(ready(1, 1, 1).needs_recalculation(1001 * MS));
    assert!(!TileState::Loading { job: 1, started_at: 0 }.needs_recalculation(u64::MAX));
    let mut c = TileCache::new();
    let k = key(0, 0, 1, 0);
    let again = |backoff: u64| TileState::ReadyRecalculating {
        texture: 1,
        job: 2,
        cached_at: 0,
        content_hash: 5,
        backoff_factor: backoff,
    };
    c.set(k, again(16));
    c.polled(k, Some((3, 5)), 1);
    assert_eq!(c.get(k), Some(TileState::Ready { texture: 3, cached_at: 1, content_hash: 5, backoff_factor: 16 }));
    c.set(k, again(16));
    c.polled(k, Some((3, 6)), 1);
    assert_eq!(c.get(k), Some(TileState::Ready { texture: 3, cached_at: 1, content_hash: 6, backoff_factor: 1 }));
}

#[test]
fn tiles_nobody_looks_at_are_forgotten() {
    let mut c = TileCache::new();
    let mut b = FrameBudget::new(2000 * MS);
    let (a, d) = (key(0, 0, 1, 0), key(1, 0, 1, 0));
    c.set(a, ready(1, 1, 1));
    c.set(d, ready(2, 2, 1));
    c.end_frame();
    assert!(c.get(a).is_some() && c.get(d).is_some());
    c.look(a, 5, 0, 0, &mut b);
    c.end_frame();
    assert!(c.get(a).is_some());
    assert!(c.get(d).is_none());
    assert!(!c.ensure_tile(a, 3, 0));
    assert!(c.ensure_tile(d, 3, 0));
    let turn = c.get_or_create_tile(key(5, 5, 1, 0), 8, &mut b);
    assert_eq!(turn, TileTurn::Wait { start: true });
}

#[test]
fn neighboring_zooms_stand_in() {
    let mut c = TileCache::new();
    let missing = key(2, 3, 2, 1);
    assert!(c.try_cross_mip_fallback(missing, 0).is_empty());
    c.set(key(1, 1, 4, 2), ready(44, 1, 1));
    let draws = c.try_cross_mip_fallback(missing, 0);
    assert_eq!(draws.len(), 1);
    assert_eq!(draws[0].texture, 44);
    let mut c = TileCache::new();
    c.set(key(4, 6, 1, 0), ready(11, 1, 1));
    c.set(key(5, 7, 1, 0), ready(12, 1, 1));
    let draws = c.try_cross_mip_fallback(missing, 0);
    let textures: Vec<u64> = draws.iter().map(|d| d.texture).collect();
    assert_eq!(textures.len(), 2);
    assert!(textures.contains(&11) && textures.contains(&12));
    c.end_frame();
    assert!(c.get(key(4, 6, 1, 0)).is_some());
}

#[test]
fn levels_and_zooms() {
    assert_eq!(paint_zoom_for(0), 1);
    assert_eq!(paint_zoom_for(3), 4);
    assert_eq!(paint_zoom_for(16), 16);
    assert_eq!(paint_zoom_for(1000), 32);
    assert_eq!(min_level_for(1, 5), 0);
    assert!(min_level_for(8, 0) >= min_level_for(8, 1));
}

#[test]
fn panes_know_their_tiles() {
    let p = VolumePane::new(PaneType::XZ, false);
    let k = p.tile_key(-1, 2, [10, 20, 30], 1, 0, 2, 9);
    assert_eq!((k.w, k.pane_type, k.tile_u), (20, PaneType::XZ, -1));
    let c = p.tile_center(k);
    let (u, v, d) = PaneType::XZ.coordinates();
    assert_eq!((c[u], c[v], c[d]), (-256, 1280, 20));
    assert_eq!(p.visible_tiles(0, 0, 0, 0), vec![(-1, -1), (0, -1), (-1, 0), (0, 0)]);
}

#[test]
fn tiles_are_painted_coarse_to_fine() {
    let p = VolumePane::new(PaneType::XY, false);
    let pass = |sfactor: u8, overlay: bool| PaintPass { sfactor, overlay };
    assert_eq!(p.paint_passes(key(0, 0, 1, 1), 1, false), vec![pass(4, false), pass(2, false)]);
    assert_eq!(p.paint_passes(key(0, 0, 1, 0), 0, true), vec![pass(1, false), pass(1, true)]);
    let s = VolumePane::new(PaneType::UV, true);
    assert_eq!(s.paint_passes(key(0, 0, 1, 0), 0, true), vec![pass(1, false)]);
}

#[test]
fn positions_stay_in_range() {
    let p = VolumePane::new(PaneType::XY, false);
    let ranges = [(0, 100), (0, 100), (0, 100)];
    let mut c = [50, 50, 50];
    p.handle_scroll(&mut c, 60, ranges);
    assert_eq!(c, [50, 50, 100]);
    p.handle_drag(&mut c, -60, 7, ranges);
    let (u, v, _) = PaneType::XY.coordinates();
    assert_eq!((c[u], c[v]), (0, 57));
}

#[test]
fn pictures_are_told_apart() {
    let a = hash_image([2, 1], &vec![[1, 2, 3, 4], [5, 6, 7, 8]]);
    let b = hash_image([2, 1], &vec![[1, 2, 3, 4], [5, 6, 7, 9]]);
    let c = hash_image([1, 2], &vec![[1, 2, 3, 4], [5, 6, 7, 8]]);
    assert_eq!(a, hash_image([2, 1], &vec![[1, 2, 3, 4], [5, 6, 7, 8]]));
    assert_ne!(a, b);
    assert_ne!(a, c);
}
