//! Tiles of a pane: how long to wait for each in a frame, when to make one
//! anew, and what to show in its place meanwhile.
//!
//! Times are in nanoseconds since the frame budget's start. Textures and
//! rendering jobs are the host's; here they are numbers.
use crate::chunk;
use crate::volume::lod_for;
use crate::volume;
use egui::cache::FramePublisher;
use fxhash::FxBuildHasher;
use quanta::Instant;
use rand::Rng;
use std::hash::{BuildHasher, Hash, Hasher};
use vstd::prelude::*;

verus! {

/// Pixels along one edge of a tile.
pub const TILE_SIZE: u32 = 256;

/// A tile lives at least this long, in milliseconds.
pub const TILE_TTL_BASE_MS: u64 = 500;

/// At most this much is added to it by chance, in milliseconds.
pub const TILE_TTL_JITTER_MS: u64 = 500;

/// What its life is multiplied by each time it comes out unchanged.
pub const TILE_TTL_BACKOFF_MULTIPLIER: u64 = 2;

/// The longest life, as a multiple of the shortest.
pub const TILE_TTL_MAX_BACKOFF: u64 = 16;

/// With less time than this left, nothing more is polled in a frame.
pub const MIN_POLL_NS: u64 = 500_000;

/// The largest downsampling that a pane paints at.
pub const MAX_DOWNSAMPLE: u32 = 32;

/// How many levels of finer tiles are looked at for a stand-in.
pub const MAX_ZOOM_OUT_LEVEL: u32 = 3;

/// A planar view.
#[derive(Debug, Clone, Copy, PartialEq, Eq, Structural, Hash)]
pub enum PaneType {
    XY,
    XZ,
    YZ,
    /// The flattened surface of a segment.
    UV,
}

impl PaneType {
    /// The axes that run along the pane, down it, and into it.
    pub open spec fn axes(self) -> (usize, usize, usize) {
        match self {
            PaneType::XY => (0, 1, 2),
            PaneType::XZ => (0, 2, 1),
            PaneType::YZ => (2, 1, 0),
            PaneType::UV => (0, 1, 2),
        }
    }

    /// The axes that run along the pane, down it, and into it.
    pub fn coordinates(&self) -> (r: (usize, usize, usize))
        ensures
            r == self.axes(),
    {
        match self {
            PaneType::XY => (0, 1, 2),
            PaneType::XZ => (0, 2, 1),
            PaneType::YZ => (2, 1, 0),
            PaneType::UV => (0, 1, 2),
        }
    }

    /// The pane's name.
    pub open spec fn name(self) -> Seq<char> {
        match self {
            PaneType::XY => "XY"@,
            PaneType::XZ => "XZ"@,
            PaneType::YZ => "YZ"@,
            PaneType::UV => "UV"@,
        }
    }

    /// The pane's name.
    pub fn label(&self) -> (s: &'static str)
        ensures
            s@ == self.name(),
    {
        match self {
            PaneType::XY => "XY",
            PaneType::XZ => "XZ",
            PaneType::YZ => "YZ",
            PaneType::UV => "UV",
        }
    }

    /// The pane's number in a tile's key.
    pub open spec fn number(self) -> u8 {
        match self {
            PaneType::XY => 0,
            PaneType::XZ => 1,
            PaneType::YZ => 2,
            PaneType::UV => 3,
        }
    }

    fn id(&self) -> (n: u8)
        ensures
            n == self.number(),
    {
        match self {
            PaneType::XY => 0,
            PaneType::XZ => 1,
            PaneType::YZ => 2,
            PaneType::UV => 3,
        }
    }
}

/// The three axes of a pane are the three there are.
pub proof fn law_pane_axes_differ(p: PaneType)
    ensures
        p.axes().0 < 3,
        p.axes().1 < 3,
        p.axes().2 < 3,
        p.axes().0 != p.axes().1,
        p.axes().0 != p.axes().2,
        p.axes().1 != p.axes().2,
{
}

/// `quanta::Instant`, a moment; opaque here.
#[verifier::external_type_specification]
#[verifier::external_body]
pub struct ExInstant(Instant);

/// `quanta::Instant::now` reads the clock. Nothing is promised of the moment.
#[verifier::external_body]
fn instant_now() -> (t: Instant) {
    Instant::now()
}

/// `quanta::Instant::elapsed` gives the time since a moment, here in
/// nanoseconds. Nothing is promised of it.
#[verifier::external_body]
fn nanos_since(t: &Instant) -> (ns: u64) {
    t.elapsed().as_nanos() as u64
}

/// `rand::Rng::gen_range` on the thread's generator gives some number of the
/// range, which is not empty. Which one is left to chance.
#[verifier::external_body]
fn random_up_to(max: u64) -> (r: u64)
    ensures
        r <= max,
{
    rand::thread_rng().gen_range(0..=max)
}

/// What `fxhash::FxHasher` makes of a picture's size and pixels, on a machine
/// with words of so many bits and of that byte order.
pub uninterp spec fn fx_of(
    word_bits: u32,
    little_endian: bool,
    size: Seq<usize>,
    pixels: Seq<[u8; 4]>,
) -> u64;

/// `fxhash::FxHasher` makes a hash of a picture's size and pixels. Besides them
/// it depends on nothing but the machine's word size and byte order; which order
/// that is is not said.
#[verifier::external_body]
fn fx_hash(size: [usize; 2], pixels: &Vec<[u8; 4]>) -> (h: u64)
    ensures
        exists|little_endian: bool| h == #[trigger] fx_of(usize::BITS, little_endian, size@, pixels@),
{
    let mut hasher = FxBuildHasher::default().build_hasher();
    size.hash(&mut hasher);
    pixels.hash(&mut hasher);
    hasher.finish()
}

/// The time that a frame has for polling tiles, of which every pane has its
/// share.
pub struct FrameBudget {
    pub start: Instant,
    pub frame_deadline: u64,
    pub pane_deadline: u64,
    pub poll_disabled: bool,
}

/// `a + b`, held at the largest time there is.
pub open spec fn later(a: u64, b: u64) -> u64 {
    if a + b > u64::MAX {
        u64::MAX
    } else {
        (a + b) as u64
    }
}

/// The time from `now` to `then`, zero if it has passed.
pub open spec fn until(then: u64, now: u64) -> u64 {
    if then > now {
        (then - now) as u64
    } else {
        0
    }
}

/// The smaller of two times.
pub open spec fn sooner(a: u64, b: u64) -> u64 {
    if a < b {
        a
    } else {
        b
    }
}

/// How long a tile may be polled: half of the pane's time, within the frame's;
/// not at all where that is too short, or once the frame's time is up.
pub open spec fn poll_timeout(
    frame_deadline: u64,
    pane_deadline: u64,
    disabled: bool,
    now: u64,
) -> Option<u64> {
    let half = until(pane_deadline, now) / 2;
    let t = sooner(half, until(frame_deadline, now));
    if disabled || now >= frame_deadline || until(pane_deadline, now) < MIN_POLL_NS || t < MIN_POLL_NS {
        None
    } else {
        Some(t)
    }
}

impl FrameBudget {
    /// Nothing but the latch differs, and it is set where polling was off or
    /// the frame's time was up at `now`.
    pub open spec fn latched(&self, before: &FrameBudget, now: u64) -> bool {
        &&& self.start == before.start
        &&& self.frame_deadline == before.frame_deadline
        &&& self.pane_deadline == before.pane_deadline
        &&& self.poll_disabled == (before.poll_disabled || now >= before.frame_deadline)
    }

    /// A frame that begins now and has `target` for polling.
    pub fn new(target: u64) -> (b: FrameBudget)
        ensures
            b.frame_deadline == target,
            b.pane_deadline == target,
            !b.poll_disabled,
    {
        FrameBudget {
            start: instant_now(),
            frame_deadline: target,
            pane_deadline: target,
            poll_disabled: false,
        }
    }

    /// The time since the frame began.
    pub fn now(&self) -> (ns: u64) {
        nanos_since(&self.start)
    }

    /// Gives the next pane its share, within the frame's time.
    pub fn begin_pane_at(&mut self, allotted: u64, now: u64)
        ensures
            final(self).start == old(self).start,
            final(self).frame_deadline == old(self).frame_deadline,
            final(self).poll_disabled == old(self).poll_disabled,
            final(self).pane_deadline == sooner(later(now, allotted), old(self).frame_deadline),
    {
        let pane = now.saturating_add(allotted);
        self.pane_deadline = if pane < self.frame_deadline { pane } else { self.frame_deadline };
    }

    /// Gives the next pane its share, as of now.
    pub fn begin_pane(&mut self, allotted: u64)
        ensures
            final(self).start == old(self).start,
            final(self).frame_deadline == old(self).frame_deadline,
            final(self).poll_disabled == old(self).poll_disabled,
            exists|now: u64|
                final(self).pane_deadline == sooner(
                    #[trigger] later(now, allotted),
                    old(self).frame_deadline,
                ),
    {
        let now = self.now();
        self.begin_pane_at(allotted, now);
        assert(self.pane_deadline == sooner(later(now, allotted), old(self).frame_deadline));
    }

    /// How long one tile may be polled at this moment (see `poll_timeout`).
    pub fn next_poll_timeout_at(&mut self, now: u64) -> (r: Option<u64>)
        ensures
            r == poll_timeout(
                old(self).frame_deadline,
                old(self).pane_deadline,
                old(self).poll_disabled,
                now,
            ),
            final(self).latched(old(self), now),
    {
        if self.poll_disabled {
            return None;
        }
        if now >= self.frame_deadline {
            self.poll_disabled = true;
            return None;
        }
        let remaining_pane: u64 = if self.pane_deadline > now { self.pane_deadline - now } else { 0 };
        if remaining_pane < MIN_POLL_NS {
            return None;
        }
        let remaining_global: u64 = self.frame_deadline - now;
        let half: u64 = remaining_pane / 2;
        let timeout = if half < remaining_global { half } else { remaining_global };
        if timeout < MIN_POLL_NS {
            return None;
        }
        Some(timeout)
    }

    /// How long one tile may be polled now.
    pub fn next_poll_timeout(&mut self) -> (r: Option<u64>)
        ensures
            exists|now: u64|
                #[trigger] final(self).latched(old(self), now) && r == poll_timeout(
                    old(self).frame_deadline,
                    old(self).pane_deadline,
                    old(self).poll_disabled,
                    now,
                ),
    {
        let now = self.now();
        let r = self.next_poll_timeout_at(now);
        assert(self.latched(old(self), now));
        r
    }

    /// Whether a short look at a tile is in order: while the frame's time is
    /// not up.
    pub fn polling_allowed_at(&mut self, now: u64) -> (r: bool)
        ensures
            r == (!old(self).poll_disabled && now < old(self).frame_deadline),
            final(self).latched(old(self), now),
    {
        if self.poll_disabled {
            return false;
        }
        if now >= self.frame_deadline {
            self.poll_disabled = true;
            return false;
        }
        true
    }

    /// Whether a short look at a tile is in order now.
    pub fn polling_allowed(&mut self) -> (r: bool)
        ensures
            exists|now: u64|
                #[trigger] final(self).latched(old(self), now) && r == (!old(self).poll_disabled && now
                    < old(self).frame_deadline),
    {
        let now = self.now();
        let r = self.polling_allowed_at(now);
        assert(self.latched(old(self), now));
        r
    }
}

/// Once the frame's time is up, nothing is polled for the rest of it.
pub proof fn law_polling_stays_off(a: FrameBudget, b: FrameBudget, now: u64, then: u64)
    requires
        b.latched(&a, now),
        now >= a.frame_deadline || a.poll_disabled,
    ensures
        poll_timeout(b.frame_deadline, b.pane_deadline, b.poll_disabled, then) is None,
        b.poll_disabled,
{
}

/// A poll never takes more than half of the pane's time, nor runs past the
/// frame's.
pub proof fn law_poll_within_budget(frame: u64, pane: u64, disabled: bool, now: u64)
    ensures
        poll_timeout(frame, pane, disabled, now) matches Some(t) ==> {
            &&& t >= MIN_POLL_NS
            &&& 2 * t <= pane - now
            &&& now + t <= frame
        },
{
}

/// What a tile shows and how: its pane, its place, the level and the zoom it is
/// painted at, and the host's number for everything else.
#[derive(Debug, Clone, Copy, PartialEq, Eq, Structural)]
pub struct TileCacheKey {
    pub pane_type: PaneType,
    pub tile_u: i32,
    pub tile_v: i32,
    pub w: i32,
    pub min_level: u32,
    pub paint_zoom: u8,
    pub settings: u64,
}

/// A tile's key as it is stored.
pub type KeyCode = (u8, i32, i32, i32, u32, u8, u64);

/// A tile's state as it is stored.
pub type StateCode = (u8, u64, u64, u64, u64, u64);

impl TileCacheKey {
    pub open spec fn code(self) -> KeyCode {
        (
            self.pane_type.number(),
            self.tile_u,
            self.tile_v,
            self.w,
            self.min_level,
            self.paint_zoom,
            self.settings,
        )
    }

    fn encode(&self) -> (c: KeyCode)
        ensures
            c == self.code(),
    {
        (
            self.pane_type.id(),
            self.tile_u,
            self.tile_v,
            self.w,
            self.min_level,
            self.paint_zoom,
            self.settings,
        )
    }
}

/// How far a tile is.
#[derive(Debug, Clone, Copy, PartialEq, Eq, Structural)]
pub enum TileState {
    /// It is being made for the first time.
    Loading { job: u64, started_at: u64 },
    /// It is there.
    Ready { texture: u64, cached_at: u64, content_hash: u64, backoff_factor: u64 },
    /// It is there and being made anew.
    ReadyRecalculating {
        texture: u64,
        job: u64,
        cached_at: u64,
        content_hash: u64,
        backoff_factor: u64,
    },
}

impl TileState {
    pub open spec fn code(self) -> StateCode {
        match self {
            TileState::Loading { job, started_at } => (0, 0, job, started_at, 0, 0),
            TileState::Ready { texture, cached_at, content_hash, backoff_factor } => (
                1,
                texture,
                0,
                cached_at,
                content_hash,
                backoff_factor,
            ),
            TileState::ReadyRecalculating {
                texture,
                job,
                cached_at,
                content_hash,
                backoff_factor,
            } => (2, texture, job, cached_at, content_hash, backoff_factor),
        }
    }

    pub open spec fn of_code(c: StateCode) -> TileState {
        if c.0 == 0 {
            TileState::Loading { job: c.2, started_at: c.3 }
        } else if c.0 == 1 {
            TileState::Ready {
                texture: c.1,
                cached_at: c.3,
                content_hash: c.4,
                backoff_factor: c.5,
            }
        } else {
            TileState::ReadyRecalculating {
                texture: c.1,
                job: c.2,
                cached_at: c.3,
                content_hash: c.4,
                backoff_factor: c.5,
            }
        }
    }

    fn encode(&self) -> (c: StateCode)
        ensures
            c == self.code(),
    {
        match *self {
            TileState::Loading { job, started_at } => (0, 0, job, started_at, 0, 0),
            TileState::Ready { texture, cached_at, content_hash, backoff_factor } => (
                1,
                texture,
                0,
                cached_at,
                content_hash,
                backoff_factor,
            ),
            TileState::ReadyRecalculating {
                texture,
                job,
                cached_at,
                content_hash,
                backoff_factor,
            } => (2, texture, job, cached_at, content_hash, backoff_factor),
        }
    }

    fn decode(c: StateCode) -> (s: TileState)
        ensures
            s == TileState::of_code(c),
    {
        if c.0 == 0 {
            TileState::Loading { job: c.2, started_at: c.3 }
        } else if c.0 == 1 {
            TileState::Ready {
                texture: c.1,
                cached_at: c.3,
                content_hash: c.4,
                backoff_factor: c.5,
            }
        } else {
            TileState::ReadyRecalculating {
                texture: c.1,
                job: c.2,
                cached_at: c.3,
                content_hash: c.4,
                backoff_factor: c.5,
            }
        }
    }

    /// The picture there is to show, if any.
    pub open spec fn shown(self) -> Option<u64> {
        match self {
            TileState::Loading { .. } => None,
            TileState::Ready { texture, .. } => Some(texture),
            TileState::ReadyRecalculating { texture, .. } => Some(texture),
        }
    }

    fn texture(&self) -> (t: Option<u64>)
        ensures
            t == self.shown(),
    {
        match *self {
            TileState::Loading { .. } => None,
            TileState::Ready { texture, .. } => Some(texture),
            TileState::ReadyRecalculating { texture, .. } => Some(texture),
        }
    }
}

/// `egui::cache::FramePublisher`, a table whose entries last for the frame in
/// which they were last set and the next; opaque here.
#[verifier::external_type_specification]
#[verifier::external_body]
#[verifier::reject_recursive_types(Key)]
#[verifier::reject_recursive_types(Value)]
pub struct ExFramePublisher<Key: Eq + Hash, Value>(FramePublisher<Key, Value>);

/// What a `FramePublisher` holds, and whether each entry was set this frame.
pub uninterp spec fn published_entries(p: FramePublisher<KeyCode, StateCode>) -> Map<
    KeyCode,
    (bool, StateCode),
>;

/// The entries that outlive a frame: those set in it.
pub open spec fn outliving(m: Map<KeyCode, (bool, StateCode)>) -> Map<KeyCode, (bool, StateCode)> {
    Map::new(|k: KeyCode| m.contains_key(k) && m[k].0, |k: KeyCode| (false, m[k].1))
}

/// `FramePublisher::new` makes a table that holds nothing.
#[verifier::external_body]
fn publisher_new() -> (p: FramePublisher<KeyCode, StateCode>)
    ensures
        published_entries(p).dom().is_empty(),
{
    FramePublisher::new()
}

/// `FramePublisher::set` stores the value under the key, as set this frame.
#[verifier::external_body]
fn publisher_set(p: &mut FramePublisher<KeyCode, StateCode>, key: KeyCode, value: StateCode)
    ensures
        published_entries(*final(p)) == published_entries(*old(p)).insert(key, (true, value)),
{
    p.set(key, value);
}

/// `FramePublisher::get` finds the value stored under an equal key, whether it
/// was set this frame or the one before.
#[verifier::external_body]
fn publisher_get(p: &FramePublisher<KeyCode, StateCode>, key: KeyCode) -> (r: Option<StateCode>)
    ensures
        r == (if published_entries(*p).contains_key(key) {
            Some(published_entries(*p)[key].1)
        } else {
            None
        }),
{
    p.get(&key).copied()
}

/// `FramePublisher::evict_cache` ends a frame: what was not set in it goes, and
/// what is left counts as set in the one before.
#[verifier::external_body]
fn publisher_evict(p: &mut FramePublisher<KeyCode, StateCode>)
    ensures
        published_entries(*final(p)) == outliving(published_entries(*old(p))),
{
    p.evict_cache();
}

/// The tiles of a pane's recent frames.
pub struct TileCache {
    table: FramePublisher<KeyCode, StateCode>,
}

impl View for TileCache {
    type V = Map<TileCacheKey, (bool, TileState)>;

    closed spec fn view(&self) -> Map<TileCacheKey, (bool, TileState)> {
        Map::new(
            |k: TileCacheKey| published_entries(self.table).contains_key(k.code()),
            |k: TileCacheKey|
                (
                    published_entries(self.table)[k.code()].0,
                    TileState::of_code(published_entries(self.table)[k.code()].1),
                ),
        )
    }
}

/// What a tile table says of a key.
pub open spec fn entry(m: Map<TileCacheKey, (bool, TileState)>, key: TileCacheKey) -> Option<TileState> {
    if m.contains_key(key) {
        Some(m[key].1)
    } else {
        None
    }
}

impl TileCache {
    /// A table without tiles.
    pub fn new() -> (c: TileCache)
        ensures
            c@.dom().is_empty(),
    {
        let c = TileCache { table: publisher_new() };
        assert forall|k: TileCacheKey| !c@.contains_key(k) by {}
        c
    }

    /// How far a tile is, if it was looked at in this frame or the last.
    pub fn get(&self, key: TileCacheKey) -> (r: Option<TileState>)
        ensures
            r == entry(self@, key),
    {
        match publisher_get(&self.table, key.encode()) {
            Some(c) => Some(TileState::decode(c)),
            None => None,
        }
    }

    /// Notes how far a tile is, and that it was looked at in this frame.
    pub fn set(&mut self, key: TileCacheKey, state: TileState)
        ensures
            final(self)@ == old(self)@.insert(key, (true, state)),
    {
        let ghost before = self@;
        publisher_set(&mut self.table, key.encode(), state.encode());
        assert(self@ =~= before.insert(key, (true, state)));
    }

    /// Ends a frame: tiles that were not looked at in it are forgotten.
    pub fn end_frame(&mut self)
        ensures
            forall|k: TileCacheKey|
                #[trigger] final(self)@.contains_key(k) <==> old(self)@.contains_key(k)
                    && old(self)@[k].0,
            forall|k: TileCacheKey|
                final(self)@.contains_key(k) ==> #[trigger] final(self)@[k] == (
                    false,
                    old(self)@[k].1,
                ),
    {
        publisher_evict(&mut self.table);
    }
}

/// Whether a tile that is there has outlived its time, `jitter` milliseconds
/// having been added to it.
pub open spec fn expired(state: TileState, now: u64, jitter: u64) -> bool {
    match state {
        TileState::Loading { .. } => false,
        TileState::Ready { cached_at, backoff_factor, .. } => until(now, cached_at) > (
        TILE_TTL_BASE_MS + jitter) * backoff_factor * 1_000_000,
        TileState::ReadyRecalculating { cached_at, backoff_factor, .. } => until(now, cached_at) > (
        TILE_TTL_BASE_MS + jitter) * backoff_factor * 1_000_000,
    }
}

/// Every tile's life is stretched by a power of two up to the largest.
pub open spec fn backoff_ok(state: TileState) -> bool {
    match state {
        TileState::Loading { .. } => true,
        TileState::Ready { backoff_factor, .. } => 1 <= backoff_factor <= TILE_TTL_MAX_BACKOFF,
        TileState::ReadyRecalculating { backoff_factor, .. } => 1 <= backoff_factor
            <= TILE_TTL_MAX_BACKOFF,
    }
}

/// A tile table in which that holds of every tile.
pub open spec fn tiles_ok(m: Map<TileCacheKey, (bool, TileState)>) -> bool {
    forall|k: TileCacheKey| m.contains_key(k) ==> backoff_ok(#[trigger] m[k].1)
}

impl TileState {
    /// Whether the tile has outlived its time (see `expired`).
    pub fn is_expired(&self, now: u64, jitter: u64) -> (r: bool)
        requires
            jitter <= TILE_TTL_JITTER_MS,
            backoff_ok(*self),
        ensures
            r == expired(*self, now, jitter),
    {
        let (cached_at, backoff_factor) = match *self {
            TileState::Loading { .. } => {
                return false;
            },
            TileState::Ready { cached_at, backoff_factor, .. } => (cached_at, backoff_factor),
            TileState::ReadyRecalculating { cached_at, backoff_factor, .. } => (
                cached_at,
                backoff_factor,
            ),
        };
        let age: u64 = if now > cached_at { now - cached_at } else { 0 };
        assert((TILE_TTL_BASE_MS + jitter) * backoff_factor <= 1000 * 16) by (nonlinear_arith)
            requires
                TILE_TTL_BASE_MS + jitter <= 1000,
                backoff_factor <= 16,
        ;
        assert(0 <= (TILE_TTL_BASE_MS + jitter) * backoff_factor) by (nonlinear_arith)
            requires
                TILE_TTL_BASE_MS + jitter >= 0,
                backoff_factor >= 0,
        ;
        age > (TILE_TTL_BASE_MS + jitter) * backoff_factor * 1_000_000
    }

    /// Whether the tile has outlived its time, which chance stretches a little
    /// so that tiles made together are not made anew together.
    pub fn needs_recalculation(&self, now: u64) -> (r: bool)
        requires
            backoff_ok(*self),
        ensures
            exists|jitter: u64|
                jitter <= TILE_TTL_JITTER_MS && r == #[trigger] expired(*self, now, jitter),
    {
        let jitter = random_up_to(TILE_TTL_JITTER_MS);
        let r = self.is_expired(now, jitter);
        assert(r == expired(*self, now, jitter));
        r
    }
}

/// What a look at a tile calls for.
#[derive(Debug, Clone, Copy, PartialEq, Eq, Structural)]
pub enum TileTurn {
    /// Show the picture. `start`: begin the job offered, to make it anew.
    /// `repaint`: look again next frame.
    Show { texture: u64, start: bool, repaint: bool },
    /// Poll the job this long, then say what came of it.
    Poll { job: u64, timeout: u64 },
    /// Show a stand-in and look again next frame. `start`: begin the job
    /// offered.
    Wait { start: bool },
}

/// How long a tile that is being made anew is polled.
pub const RECALC_POLL_NS: u64 = 100_000;

/// What a look at a tile leaves of it, and what it calls for. `allowed` is
/// whether the frame's time is not up, `timeout` how long the tile may be
/// polled.
pub open spec fn looked_at(
    state: Option<TileState>,
    now: u64,
    jitter: u64,
    fresh_job: u64,
    allowed: bool,
    timeout: Option<u64>,
) -> (TileState, TileTurn) {
    match state {
        None => (
            TileState::Loading { job: fresh_job, started_at: now },
            TileTurn::Wait { start: true },
        ),
        Some(TileState::Ready { texture, cached_at, content_hash, backoff_factor }) => if expired(
            state->0,
            now,
            jitter,
        ) {
            (
                TileState::ReadyRecalculating {
                    texture,
                    job: fresh_job,
                    cached_at,
                    content_hash,
                    backoff_factor,
                },
                TileTurn::Show { texture, start: true, repaint: false },
            )
        } else {
            (state->0, TileTurn::Show { texture, start: false, repaint: false })
        },
        Some(TileState::ReadyRecalculating { texture, job, .. }) => if allowed {
            (state->0, TileTurn::Poll { job, timeout: RECALC_POLL_NS })
        } else {
            (state->0, TileTurn::Show { texture, start: false, repaint: true })
        },
        Some(TileState::Loading { job, .. }) => match timeout {
            Some(t) => (state->0, TileTurn::Poll { job, timeout: t }),
            None => (state->0, TileTurn::Wait { start: false }),
        },
    }
}

/// What a look at a tile comes to under a frame's budget.
pub open spec fn look_outcome(
    state: Option<TileState>,
    b: FrameBudget,
    now: u64,
    jitter: u64,
    fresh_job: u64,
) -> (TileState, TileTurn) {
    looked_at(
        state,
        now,
        jitter,
        fresh_job,
        !b.poll_disabled && now < b.frame_deadline,
        poll_timeout(b.frame_deadline, b.pane_deadline, b.poll_disabled, now),
    )
}

/// The backoff of a tile that was made anew: stretched if it came out the same,
/// and else back to one.
pub open spec fn next_backoff(backoff: u64, unchanged: bool) -> u64 {
    if !unchanged {
        1
    } else if backoff * TILE_TTL_BACKOFF_MULTIPLIER < TILE_TTL_MAX_BACKOFF {
        (backoff * TILE_TTL_BACKOFF_MULTIPLIER) as u64
    } else {
        TILE_TTL_MAX_BACKOFF
    }
}

/// What polling a tile leaves of it, and what it calls for. `made` is the
/// picture and its hash, if the job is done.
pub open spec fn after_poll(state: Option<TileState>, made: Option<(u64, u64)>, now: u64) -> (
    Option<TileState>,
    TileTurn,
) {
    match (state, made) {
        (None, _) => (None, TileTurn::Wait { start: false }),
        (Some(TileState::Ready { texture, .. }), _) => (
            state,
            TileTurn::Show { texture, start: false, repaint: false },
        ),
        (Some(TileState::Loading { .. }), None) => (state, TileTurn::Wait { start: false }),
        (Some(TileState::Loading { .. }), Some((texture, hash))) => (
            Some(
                TileState::Ready { texture, cached_at: now, content_hash: hash, backoff_factor: 1 },
            ),
            TileTurn::Show { texture, start: false, repaint: false },
        ),
        (Some(TileState::ReadyRecalculating { texture, .. }), None) => (
            state,
            TileTurn::Show { texture, start: false, repaint: true },
        ),
        (
            Some(TileState::ReadyRecalculating { content_hash, backoff_factor, .. }),
            Some((texture, hash)),
        ) => (
            Some(
                TileState::Ready {
                    texture,
                    cached_at: now,
                    content_hash: hash,
                    backoff_factor: next_backoff(backoff_factor, hash == content_hash),
                },
            ),
            TileTurn::Show { texture, start: false, repaint: false },
        ),
    }
}

/// Whether a look at a tile asks the frame's budget anything.
pub open spec fn asks_budget(state: Option<TileState>) -> bool {
    state matches Some(s) && s !is Ready
}

impl TileCache {
    /// Begins a tile that is not there. Returns whether `fresh_job` is to be
    /// begun for it.
    pub fn ensure_tile(&mut self, key: TileCacheKey, fresh_job: u64, now: u64) -> (start: bool)
        ensures
            start == entry(old(self)@, key) is None,
            start ==> final(self)@ == old(self)@.insert(
                key,
                (true, TileState::Loading { job: fresh_job, started_at: now }),
            ),
            !start ==> final(self)@ == old(self)@,
    {
        match self.get(key) {
            None => {
                self.set(key, TileState::Loading { job: fresh_job, started_at: now });
                true
            },
            Some(_) => false,
        }
    }

    /// Looks at a tile at a moment, and with this much added to its life (see
    /// `looked_at`).
    pub fn look(
        &mut self,
        key: TileCacheKey,
        fresh_job: u64,
        now: u64,
        jitter: u64,
        budget: &mut FrameBudget,
    ) -> (r: TileTurn)
        requires
            tiles_ok(old(self)@),
            jitter <= TILE_TTL_JITTER_MS,
        ensures
            ({
                let (state, turn) = look_outcome(
                    entry(old(self)@, key),
                    *old(budget),
                    now,
                    jitter,
                    fresh_job,
                );
                &&& r == turn
                &&& final(self)@ == old(self)@.insert(key, (true, state))
            }),
            tiles_ok(final(self)@),
            if asks_budget(entry(old(self)@, key)) {
                final(budget).latched(old(budget), now)
            } else {
                *final(budget) == *old(budget)
            },
    {
        let state = match self.get(key) {
            None => {
                self.set(key, TileState::Loading { job: fresh_job, started_at: now });
                return TileTurn::Wait { start: true };
            },
            Some(state) => state,
        };
        assert(backoff_ok(self@[key].1));
        match state {
            TileState::Ready { texture, cached_at, content_hash, backoff_factor } => {
                if state.is_expired(now, jitter) {
                    self.set(
                        key,
                        TileState::ReadyRecalculating {
                            texture,
                            job: fresh_job,
                            cached_at,
                            content_hash,
                            backoff_factor,
                        },
                    );
                    TileTurn::Show { texture, start: true, repaint: false }
                } else {
                    self.set(key, state);
                    TileTurn::Show { texture, start: false, repaint: false }
                }
            },
            TileState::ReadyRecalculating { texture, job, .. } => {
                self.set(key, state);
                if budget.polling_allowed_at(now) {
                    TileTurn::Poll { job, timeout: RECALC_POLL_NS }
                } else {
                    TileTurn::Show { texture, start: false, repaint: true }
                }
            },
            TileState::Loading { job, .. } => {
                self.set(key, state);
                match budget.next_poll_timeout_at(now) {
                    Some(timeout) => TileTurn::Poll { job, timeout },
                    None => TileTurn::Wait { start: false },
                }
            },
        }
    }

    /// Looks at a tile now.
    pub fn get_or_create_tile(
        &mut self,
        key: TileCacheKey,
        fresh_job: u64,
        budget: &mut FrameBudget,
    ) -> (r: TileTurn)
        requires
            tiles_ok(old(self)@),
        ensures
            tiles_ok(final(self)@),
            exists|now: u64, jitter: u64|
                jitter <= TILE_TTL_JITTER_MS && #[trigger] look_outcome(
                    entry(old(self)@, key),
                    *old(budget),
                    now,
                    jitter,
                    fresh_job,
                ).1 == r && final(self)@ == old(self)@.insert(
                    key,
                    (
                        true,
                        look_outcome(
                            entry(old(self)@, key),
                            *old(budget),
                            now,
                            jitter,
                            fresh_job,
                        ).0,
                    ),
                ) && (if asks_budget(entry(old(self)@, key)) {
                    final(budget).latched(old(budget), now)
                } else {
                    *final(budget) == *old(budget)
                }),
    {
        let now = budget.now();
        let jitter = random_up_to(TILE_TTL_JITTER_MS);
        self.look(key, fresh_job, now, jitter, budget)
    }

    /// Takes in what polling a tile's job came to (see `after_poll`).
    pub fn polled(&mut self, key: TileCacheKey, made: Option<(u64, u64)>, now: u64) -> (r: TileTurn)
        requires
            tiles_ok(old(self)@),
        ensures
            ({
                let (state, turn) = after_poll(entry(old(self)@, key), made, now);
                &&& r == turn
                &&& final(self)@ == (match state {
                    Some(st) => old(self)@.insert(key, (true, st)),
                    None => old(self)@,
                })
            }),
            tiles_ok(final(self)@),
    {
        let state = match self.get(key) {
            None => {
                return TileTurn::Wait { start: false };
            },
            Some(state) => state,
        };
        assert(backoff_ok(self@[key].1));
        match (state, made) {
            (TileState::Ready { texture, .. }, _) => {
                self.set(key, state);
                TileTurn::Show { texture, start: false, repaint: false }
            },
            (TileState::Loading { .. }, None) => {
                self.set(key, state);
                TileTurn::Wait { start: false }
            },
            (TileState::Loading { .. }, Some((texture, hash))) => {
                self.set(
                    key,
                    TileState::Ready {
                        texture,
                        cached_at: now,
                        content_hash: hash,
                        backoff_factor: 1,
                    },
                );
                TileTurn::Show { texture, start: false, repaint: false }
            },
            (TileState::ReadyRecalculating { texture, .. }, None) => {
                self.set(key, state);
                TileTurn::Show { texture, start: false, repaint: true }
            },
            (
                TileState::ReadyRecalculating { content_hash, backoff_factor, .. },
                Some((texture, hash)),
            ) => {
                let backoff: u64 = if hash != content_hash {
                    1
                } else if backoff_factor * TILE_TTL_BACKOFF_MULTIPLIER < TILE_TTL_MAX_BACKOFF {
                    backoff_factor * TILE_TTL_BACKOFF_MULTIPLIER
                } else {
                    TILE_TTL_MAX_BACKOFF
                };
                self.set(
                    key,
                    TileState::Ready {
                        texture,
                        cached_at: now,
                        content_hash: hash,
                        backoff_factor: backoff,
                    },
                );
                TileTurn::Show { texture, start: false, repaint: false }
            },
        }
    }
}

/// The hash by which a picture is told from the one before (see `fx_of`).
pub fn hash_image(size: [usize; 2], pixels: &Vec<[u8; 4]>) -> (h: u64)
    ensures
        exists|little_endian: bool| h == #[trigger] fx_of(usize::BITS, little_endian, size@, pixels@),
{
    fx_hash(size, pixels)
}

/// A tile that is there stays on screen while it is made anew: from the first
/// look on, every look and every poll shows a picture.
pub proof fn law_tile_stays_shown(
    state: TileState,
    now: u64,
    jitter: u64,
    fresh_job: u64,
    allowed: bool,
    timeout: Option<u64>,
    made: Option<(u64, u64)>,
    later_now: u64,
)
    requires
        state.shown() is Some,
    ensures
        ({
            let (next, turn) = looked_at(Some(state), now, jitter, fresh_job, allowed, timeout);
            let (after, shown) = after_poll(Some(next), made, later_now);
            &&& next.shown() == state.shown()
            &&& turn matches TileTurn::Show { texture, .. } ==> Some(texture) == state.shown()
            &&& turn !is Wait
            &&& shown is Show
            &&& after is Some
            &&& (after->0).shown() is Some
        }),
{
}

/// The stretch of a tile's life doubles each time it comes out unchanged, up to
/// the largest, and falls back to one when it changes.
pub proof fn law_backoff_doubles(backoff: u64)
    requires
        1 <= backoff <= TILE_TTL_MAX_BACKOFF,
    ensures
        next_backoff(backoff, false) == 1,
        2 * backoff <= TILE_TTL_MAX_BACKOFF ==> next_backoff(backoff, true) == 2 * backoff,
        2 * backoff > TILE_TTL_MAX_BACKOFF ==> next_backoff(backoff, true) == TILE_TTL_MAX_BACKOFF,
{
}

/// Part `(u, v)` of a square cut into `parts` by `parts`.
#[derive(Debug, Clone, Copy, PartialEq, Eq, Structural)]
pub struct SubRect {
    pub u: u32,
    pub v: u32,
    pub parts: u32,
}

/// A picture, or a part of it, drawn over a tile, or a part of it.
#[derive(Debug, Clone, Copy, PartialEq, Eq, Structural)]
pub struct TileDraw {
    pub texture: u64,
    /// The part of the tile that is drawn over.
    pub target: SubRect,
    /// The part of the picture that is drawn.
    pub source: SubRect,
}

/// The whole square.
pub open spec fn whole() -> SubRect {
    SubRect { u: 0, v: 0, parts: 1 }
}

/// The level that tiles of a zoom are painted at: the zoom's own, less the
/// bias, and the finest at least.
pub open spec fn biased_level(zoom: u8, lod_bias: i32) -> u32 {
    let n = volume::twos(zoom as int) - lod_bias;
    if n < 0 {
        0
    } else {
        n as u32
    }
}

/// A tile elsewhere, at another zoom and level, that is otherwise like `key`.
pub open spec fn alike(key: TileCacheKey, u: int, v: int, zoom: int, level: u32) -> TileCacheKey {
    TileCacheKey {
        tile_u: u as i32,
        tile_v: v as i32,
        paint_zoom: zoom as u8,
        min_level: level,
        ..key
    }
}

/// Whether a tile has a picture to show.
pub open spec fn has_picture(m: Map<TileCacheKey, (bool, TileState)>, key: TileCacheKey) -> bool {
    entry(m, key) matches Some(st) && st.shown() is Some
}

/// The tile like `key` at another place and zoom that has a picture: at the
/// level of the zoom, or at the next.
pub open spec fn probed(
    m: Map<TileCacheKey, (bool, TileState)>,
    key: TileCacheKey,
    lod_bias: i32,
    u: int,
    v: int,
    zoom: int,
) -> Option<TileCacheKey> {
    let level = biased_level(zoom as u8, lod_bias);
    if has_picture(m, alike(key, u, v, zoom, level)) {
        Some(alike(key, u, v, zoom, level))
    } else if has_picture(m, alike(key, u, v, zoom, (level + 1) as u32)) {
        Some(alike(key, u, v, zoom, (level + 1) as u32))
    } else {
        None
    }
}

/// The picture of a tile that has one.
pub open spec fn picture(m: Map<TileCacheKey, (bool, TileState)>, key: TileCacheKey) -> u64 {
    m[key].1.shown()->0
}

/// A coarser tile, `level` doublings up or more, that covers this one, and the
/// part of it that does.
pub open spec fn coarser(
    m: Map<TileCacheKey, (bool, TileState)>,
    key: TileCacheKey,
    lod_bias: i32,
    level: int,
) -> Option<(TileCacheKey, TileDraw)>
    decreases MAX_DOWNSAMPLE + 1 - level,
{
    let s = chunk::pow2(level as nat) as int;
    if level > 5 || key.paint_zoom * s > MAX_DOWNSAMPLE {
        None
    } else {
        match probed(
            m,
            key,
            lod_bias,
            key.tile_u as int / s,
            key.tile_v as int / s,
            key.paint_zoom * s,
        ) {
            Some(hit) => Some(
                (
                    hit,
                    TileDraw {
                        texture: picture(m, hit),
                        target: whole(),
                        source: SubRect {
                            u: (key.tile_u as int % s) as u32,
                            v: (key.tile_v as int % s) as u32,
                            parts: s as u32,
                        },
                    },
                ),
            ),
            None => coarser(m, key, lod_bias, level + 1),
        }
    }
}

/// Those of the first `n` tiles, `level` halvings down, under this one that
/// have pictures, row by row, and where each is drawn.
pub open spec fn finer(
    m: Map<TileCacheKey, (bool, TileState)>,
    key: TileCacheKey,
    lod_bias: i32,
    level: int,
    n: nat,
) -> Seq<(TileCacheKey, TileDraw)>
    decreases n,
{
    let s = chunk::pow2(level as nat) as int;
    if n == 0 {
        Seq::empty()
    } else {
        let before = finer(m, key, lod_bias, level, (n - 1) as nat);
        let cu = (n - 1) % s;
        let cv = (n - 1) / s;
        match probed(
            m,
            key,
            lod_bias,
            key.tile_u * s + cu,
            key.tile_v * s + cv,
            key.paint_zoom as int / s,
        ) {
            Some(hit) => before.push(
                (
                    hit,
                    TileDraw {
                        texture: picture(m, hit),
                        target: SubRect { u: cu as u32, v: cv as u32, parts: s as u32 },
                        source: whole(),
                    },
                ),
            ),
            None => before,
        }
    }
}

/// The finer tiles to show, from the first level, from `level` down, that has
/// any.
pub open spec fn any_finer(
    m: Map<TileCacheKey, (bool, TileState)>,
    key: TileCacheKey,
    lod_bias: i32,
    level: int,
) -> Seq<(TileCacheKey, TileDraw)>
    decreases MAX_ZOOM_OUT_LEVEL + 1 - level,
{
    let s = chunk::pow2(level as nat) as int;
    if level > MAX_ZOOM_OUT_LEVEL || key.paint_zoom as int / s == 0 {
        Seq::empty()
    } else {
        let found = finer(m, key, lod_bias, level, (s * s) as nat);
        if found.len() > 0 {
            found
        } else {
            any_finer(m, key, lod_bias, level + 1)
        }
    }
}

/// What is shown in a tile's place while it is made: the part of a coarser tile
/// that covers it, and else whatever finer tiles lie under it.
pub open spec fn stand_ins(
    m: Map<TileCacheKey, (bool, TileState)>,
    key: TileCacheKey,
    lod_bias: i32,
) -> Seq<(TileCacheKey, TileDraw)> {
    match coarser(m, key, lod_bias, 1) {
        Some(hit) => seq![hit],
        None => any_finer(m, key, lod_bias, 1),
    }
}

/// The table after tiles were shown: nothing has changed but that they count
/// as looked at this frame.
pub open spec fn republished(
    m: Map<TileCacheKey, (bool, TileState)>,
    hits: Seq<(TileCacheKey, TileDraw)>,
) -> Map<TileCacheKey, (bool, TileState)> {
    Map::new(
        |k: TileCacheKey| m.contains_key(k),
        |k: TileCacheKey|
            (
                m[k].0 || exists|i: int| 0 <= i < hits.len() && (#[trigger] hits[i]).0 == k,
                m[k].1,
            ),
    )
}

/// The draws among stand-ins.
pub open spec fn draws_of(hits: Seq<(TileCacheKey, TileDraw)>) -> Seq<TileDraw> {
    hits.map_values(|h: (TileCacheKey, TileDraw)| h.1)
}

/// A key whose neighbors at every zoom have coordinates.
pub open spec fn key_ok(key: TileCacheKey) -> bool {
    &&& key.paint_zoom >= 1
    &&& -0x1000_0000 <= key.tile_u < 0x1000_0000
    &&& -0x1000_0000 <= key.tile_v < 0x1000_0000
}

impl TileCache {
    /// Looks for a tile like `key` at another place and zoom that has a
    /// picture, and counts it as looked at this frame.
    fn probe_cache(
        &mut self,
        key: TileCacheKey,
        lod_bias: i32,
        u: i32,
        v: i32,
        zoom: u8,
        Ghost(draw): Ghost<TileDraw>,
    ) -> (r: Option<u64>)
        requires
            zoom >= 1,
        ensures
            match probed(old(self)@, key, lod_bias, u as int, v as int, zoom as int) {
                Some(hit) => {
                    &&& r == Some(picture(old(self)@, hit))
                    &&& final(self)@ == republished(old(self)@, seq![(hit, draw)])
                },
                None => r is None && final(self)@ == old(self)@,
            },
    {
        let natural: i64 = lod_for(zoom) as i64;
        let biased: i64 = natural - lod_bias as i64;
        let level: u32 = if biased < 0 { 0 } else { biased as u32 };
        assert(level == biased_level(zoom, lod_bias));
        let mut i: u32 = 0;
        while i < 2
            invariant
                i <= 2,
                level < 0x8000_0100,
                level == biased_level(zoom, lod_bias),
                self@ == old(self)@,
                i >= 1 ==> !has_picture(
                    old(self)@,
                    alike(key, u as int, v as int, zoom as int, level),
                ),
                i >= 2 ==> !has_picture(
                    old(self)@,
                    alike(key, u as int, v as int, zoom as int, (level + 1) as u32),
                ),
            decreases 2 - i,
        {
            let probe = TileCacheKey {
                pane_type: key.pane_type,
                tile_u: u,
                tile_v: v,
                w: key.w,
                min_level: level + i,
                paint_zoom: zoom,
                settings: key.settings,
            };
            assert(probe == alike(key, u as int, v as int, zoom as int, (level + i) as u32));
            match self.get(probe) {
                Some(state) => match state.texture() {
                    Some(texture) => {
                        let ghost m = self@;
                        self.set(probe, state);
                        proof {
                            let hits = seq![(probe, draw)];
                            assert(hits[0].0 == probe);
                            assert forall|k: TileCacheKey| m.contains_key(k) implies #[trigger] self@[k]
                                == republished(m, hits)[k] by {
                                if k == probe {
                                    assert(exists|i: int|
                                        0 <= i < hits.len() && (#[trigger] hits[i]).0 == k);
                                }
                            }
                            assert(self@ =~= republished(m, hits));
                        }
                        return Some(texture);
                    },
                    None => {},
                },
                None => {},
            }
            i = i + 1;
        }
        None
    }

    fn try_cross_mip_zoom_in(&mut self, key: TileCacheKey, lod_bias: i32) -> (r: Option<TileDraw>)
        requires
            key_ok(key),
        ensures
            match coarser(old(self)@, key, lod_bias, 1) {
                Some((hit, draw)) => {
                    &&& r == Some(draw)
                    &&& final(self)@ == republished(old(self)@, seq![(hit, draw)])
                },
                None => r is None && final(self)@ == old(self)@,
            },
    {
        let mut level: u8 = 1;
        loop
            invariant
                key_ok(key),
                1 <= level <= 6,
                self@ == old(self)@,
                coarser(old(self)@, key, lod_bias, 1) == coarser(
                    old(self)@,
                    key,
                    lod_bias,
                    level as int,
                ),
            decreases 6 - level,
        {
            proof {
                chunk::lemma_pow2_table();
                chunk::lemma_pow2_bounds(level as nat);
            }
            if level > 5 {
                return None;
            }
            let s: i32 = chunk::pow2_u64(level) as i32;
            assert(s == 2 || s == 4 || s == 8 || s == 16 || s == 32);
            assert(1 <= key.paint_zoom * s <= 255 * 32) by (nonlinear_arith)
                requires
                    1 <= key.paint_zoom <= 255,
                    1 <= s <= 32,
            ;
            let zoom: u32 = key.paint_zoom as u32 * s as u32;
            if zoom > MAX_DOWNSAMPLE {
                return None;
            }
            let u = crate::paint::floor_div(key.tile_u as i64, s as i64);
            let v = crate::paint::floor_div(key.tile_v as i64, s as i64);
            proof {
                lemma_remainder(key.tile_u as int, s as int);
                lemma_remainder(key.tile_v as int, s as int);
            }
            let lu = key.tile_u as i64 - u * s as i64;
            let lv = key.tile_v as i64 - v * s as i64;
            let ghost draw = match coarser(old(self)@, key, lod_bias, level as int) {
                Some((_, d)) => d,
                None => arbitrary(),
            };
            let got = self.probe_cache(key, lod_bias, u as i32, v as i32, zoom as u8, Ghost(draw));
            match got {
                Some(texture) => {
                    let d = TileDraw {
                        texture,
                        target: SubRect { u: 0, v: 0, parts: 1 },
                        source: SubRect { u: lu as u32, v: lv as u32, parts: s as u32 },
                    };
                    return Some(d);
                },
                None => {},
            }
            level = level + 1;
        }
    }
}

proof fn lemma_remainder(a: int, s: int)
    requires
        1 <= s <= 32,
        -0x8000_0000 <= a < 0x8000_0000,
    ensures
        a - (a / s) * s == a % s,
        0 <= a % s < s,
        -0x8000_0000 * 32 <= (a / s) * s <= a,
{
    vstd::arithmetic::div_mod::lemma_fundamental_div_mod(a, s);
    assert((a / s) * s == s * (a / s)) by (nonlinear_arith);
}

impl TileCache {
    fn children(
        &mut self,
        key: TileCacheKey,
        lod_bias: i32,
        level: u8,
    ) -> (out: Vec<TileDraw>)
        requires
            key_ok(key),
            1 <= level <= 3,
            key.paint_zoom as int / (chunk::pow2(level as nat) as int) >= 1,
        ensures
            ({
                let s = chunk::pow2(level as nat) as int;
                let hits = finer(old(self)@, key, lod_bias, level as int, (s * s) as nat);
                &&& out@ == draws_of(hits)
                &&& final(self)@ == republished(old(self)@, hits)
            }),
    {
        proof {
            chunk::lemma_pow2_table();
        }
        let s: i64 = chunk::pow2_u64(level) as i64;
        assert(s == 2 || s == 4 || s == 8);
        let zoom: u8 = (key.paint_zoom as i64 / s) as u8;
        let ghost m = self@;
        let n: i64 = s * s;
        let mut out: Vec<TileDraw> = Vec::new();
        let mut i: i64 = 0;
        proof {
            assert(m =~= republished(m, finer(m, key, lod_bias, level as int, 0)));
            assert(out@ =~= draws_of(finer(m, key, lod_bias, level as int, 0)));
        }
        while i < n
            invariant
                key_ok(key),
                1 <= level <= 3,
                s == chunk::pow2(level as nat),
                s == 2 || s == 4 || s == 8,
                n == s * s,
                0 <= i <= n,
                zoom >= 1,
                zoom == key.paint_zoom as int / (s as int),
                m == old(self)@,
                out@ == draws_of(finer(m, key, lod_bias, level as int, i as nat)),
                self@ == republished(m, finer(m, key, lod_bias, level as int, i as nat)),
            decreases n - i,
        {
            let cu = i % s;
            let cv = i / s;
            assert(0 <= cu < s);
            assert(0 <= cv < s) by (nonlinear_arith)
                requires
                    cv == i as int / s as int,
                    0 <= i < s * s,
                    s > 0,
            ;
            assert(-0x8000_0000 <= key.tile_u * s <= 0x8000_0000 - s && -0x8000_0000 <= key.tile_v * s
                <= 0x8000_0000 - s) by (nonlinear_arith)
                requires
                    1 <= s <= 8,
                    -0x1000_0000 <= key.tile_u < 0x1000_0000,
                    -0x1000_0000 <= key.tile_v < 0x1000_0000,
            ;
            let u: i64 = key.tile_u as i64 * s + cu;
            let v: i64 = key.tile_v as i64 * s + cv;
            let ghost before = finer(m, key, lod_bias, level as int, i as nat);
            let ghost now = finer(m, key, lod_bias, level as int, (i + 1) as nat);
            proof {
                lemma_republished_entries(m, before);
                assert(probed(self@, key, lod_bias, u as int, v as int, zoom as int) == probed(
                    m,
                    key,
                    lod_bias,
                    u as int,
                    v as int,
                    zoom as int,
                ));
            }
            let ghost draw = now.last().1;
            match self.probe_cache(key, lod_bias, u as i32, v as i32, zoom, Ghost(draw)) {
                Some(texture) => {
                    let d = TileDraw {
                        texture,
                        target: SubRect { u: cu as u32, v: cv as u32, parts: s as u32 },
                        source: SubRect { u: 0, v: 0, parts: 1 },
                    };
                    out.push(d);
                    proof {
                        assert(now == before.push((now.last().0, d)));
                        assert(draws_of(now) =~= draws_of(before).push(d));
                        lemma_republished_again(m, before, now.last());
                        assert(self@ == republished(m, now));
                    }
                },
                None => {},
            }
            i = i + 1;
        }
        out
    }

    fn try_cross_mip_zoom_out(&mut self, key: TileCacheKey, lod_bias: i32) -> (out: Vec<TileDraw>)
        requires
            key_ok(key),
        ensures
            out@ == draws_of(any_finer(old(self)@, key, lod_bias, 1)),
            final(self)@ == republished(old(self)@, any_finer(old(self)@, key, lod_bias, 1)),
    {
        let ghost m = self@;
        let mut level: u8 = 1;
        while level <= MAX_ZOOM_OUT_LEVEL as u8
            invariant
                key_ok(key),
                1 <= level <= 4,
                m == old(self)@,
                self@ == m,
                any_finer(m, key, lod_bias, 1) == any_finer(m, key, lod_bias, level as int),
            decreases 4 - level,
        {
            proof {
                chunk::lemma_pow2_table();
            }
            let s: i64 = chunk::pow2_u64(level) as i64;
            assert(s == 2 || s == 4 || s == 8);
            if key.paint_zoom as i64 / s == 0 {
                let out: Vec<TileDraw> = Vec::new();
                proof {
                    lemma_nothing_republished(m);
                    assert(out@ =~= draws_of(Seq::empty()));
                }
                return out;
            }
            let out = self.children(key, lod_bias, level);
            if out.len() > 0 {
                return out;
            }
            proof {
                let hits = finer(m, key, lod_bias, level as int, (s * s) as nat);
                assert(hits.len() == draws_of(hits).len());
                assert(hits =~= Seq::empty());
                lemma_nothing_republished(m);
            }
            level = level + 1;
        }
        let out: Vec<TileDraw> = Vec::new();
        proof {
            lemma_nothing_republished(m);
            assert(out@ =~= draws_of(Seq::empty()));
        }
        out
    }

    /// What to show in a tile's place while it is made (see `stand_ins`). The
    /// tiles shown count as looked at this frame, so that they stay.
    pub fn try_cross_mip_fallback(&mut self, key: TileCacheKey, lod_bias: i32) -> (out: Vec<TileDraw>)
        requires
            key_ok(key),
        ensures
            out@ == draws_of(stand_ins(old(self)@, key, lod_bias)),
            final(self)@ == republished(old(self)@, stand_ins(old(self)@, key, lod_bias)),
    {
        match self.try_cross_mip_zoom_in(key, lod_bias) {
            Some(draw) => {
                let mut out: Vec<TileDraw> = Vec::new();
                out.push(draw);
                assert(out@ =~= draws_of(stand_ins(old(self)@, key, lod_bias)));
                out
            },
            None => self.try_cross_mip_zoom_out(key, lod_bias),
        }
    }
}

proof fn lemma_republished_entries(
    m: Map<TileCacheKey, (bool, TileState)>,
    hits: Seq<(TileCacheKey, TileDraw)>,
)
    ensures
        forall|k: TileCacheKey| #[trigger] entry(republished(m, hits), k) == entry(m, k),
        forall|k: TileCacheKey|
            #[trigger] has_picture(republished(m, hits), k) == has_picture(m, k),
        forall|k: TileCacheKey|
            m.contains_key(k) ==> #[trigger] picture(republished(m, hits), k) == picture(m, k),
{
}

proof fn lemma_nothing_republished(m: Map<TileCacheKey, (bool, TileState)>)
    ensures
        republished(m, Seq::empty()) == m,
{
    assert(republished(m, Seq::empty()) =~= m);
}

proof fn lemma_republished_again(
    m: Map<TileCacheKey, (bool, TileState)>,
    hits: Seq<(TileCacheKey, TileDraw)>,
    one: (TileCacheKey, TileDraw),
)
    ensures
        republished(republished(m, hits), seq![one]) == republished(m, hits.push(one)),
{
    let a = republished(republished(m, hits), seq![one]);
    let b = republished(m, hits.push(one));
    assert forall|k: TileCacheKey| m.contains_key(k) implies #[trigger] a[k] == b[k] by {
        let more = hits.push(one);
        if exists|i: int| 0 <= i < more.len() && (#[trigger] more[i]).0 == k {
            let i = choose|i: int| 0 <= i < more.len() && (#[trigger] more[i]).0 == k;
            if i < hits.len() {
                assert(hits[i].0 == k);
            } else {
                assert(seq![one][0].0 == k);
            }
        }
        if exists|i: int| 0 <= i < hits.len() && (#[trigger] hits[i]).0 == k {
            let i = choose|i: int| 0 <= i < hits.len() && (#[trigger] hits[i]).0 == k;
            assert(more[i].0 == k);
        }
        if exists|i: int| 0 <= i < seq![one].len() && (#[trigger] seq![one][i]).0 == k {
            assert(more[hits.len() as int].0 == k);
        }
    }
    assert(a =~= b);
}

/// The number of binary digits of `n`.
pub open spec fn bit_length(n: int) -> nat
    decreases n,
{
    if n <= 0 {
        0
    } else {
        1 + bit_length(n / 2)
    }
}

/// The level that a tile is painted at, from the whole number of voxels to a
/// pixel of the screen, less the bias; the finest at least.
pub open spec fn level_on_screen(voxels: u32, lod_bias: i32) -> u32 {
    let n = bit_length(voxels as int) - lod_bias;
    if n < 0 {
        0
    } else {
        n as u32
    }
}

fn bits_of(n: u32) -> (r: u32)
    ensures
        r == bit_length(n as int),
        r <= 32,
{
    let mut left: u32 = n;
    let mut r: u32 = 0;
    proof {
        chunk::lemma_pow2_table();
    }
    while left > 0
        invariant
            r + bit_length(left as int) == bit_length(n as int),
            r <= 32,
            left < chunk::pow2((32 - r) as nat),
        decreases left,
    {
        proof {
            if r == 32 {
                assert(chunk::pow2(0) == 1);
            }
            assert(chunk::pow2((32 - r) as nat) == 2 * chunk::pow2((31 - r) as nat));
        }
        left = left / 2;
        r = r + 1;
    }
    r
}

/// The level that a tile is painted at (see `level_on_screen`).
pub fn min_level_for(voxels: u32, lod_bias: i32) -> (level: u32)
    ensures
        level == level_on_screen(voxels, lod_bias),
{
    let n: i64 = bits_of(voxels) as i64 - lod_bias as i64;
    if n < 0 {
        0
    } else {
        n as u32
    }
}

/// A downsampling held within the range that panes paint at.
pub open spec fn held(downsample: u32) -> int {
    if downsample < 1 {
        1
    } else if downsample > MAX_DOWNSAMPLE {
        MAX_DOWNSAMPLE as int
    } else {
        downsample as int
    }
}

/// The zoom that a downsampling is painted at: the next power of two, so that
/// the tiles of neighboring zooms line up.
pub fn paint_zoom_for(downsample: u32) -> (zoom: u8)
    ensures
        exists|k: nat|
            k <= 5 && zoom == #[trigger] chunk::pow2(k) && held(downsample) <= zoom && (k == 0
                || chunk::pow2((k - 1) as nat) < held(downsample)),
{
    proof {
        chunk::lemma_pow2_table();
    }
    let d: u32 = if downsample < 1 {
        1
    } else if downsample > MAX_DOWNSAMPLE {
        MAX_DOWNSAMPLE
    } else {
        downsample
    };
    if d <= 1 {
        assert(1 == chunk::pow2(0));
        1
    } else if d <= 2 {
        assert(2 == chunk::pow2(1));
        2
    } else if d <= 4 {
        assert(4 == chunk::pow2(2));
        4
    } else if d <= 8 {
        assert(8 == chunk::pow2(3));
        8
    } else if d <= 16 {
        assert(16 == chunk::pow2(4));
        16
    } else {
        assert(32 == chunk::pow2(5));
        32
    }
}

/// One pass of painting a tile.
#[derive(Debug, Clone, Copy, PartialEq, Eq, Structural)]
pub struct PaintPass {
    pub sfactor: u8,
    /// Whether the pass paints the overlay volume.
    pub overlay: bool,
}

/// The passes of levels `min_level` to `level`, coarsest first, each with the
/// overlay's own after it.
pub open spec fn passes(min_level: u32, level: int, overlay: bool) -> Seq<PaintPass>
    decreases level + 1 - min_level,
{
    if level < min_level {
        Seq::empty()
    } else {
        let sfactor = chunk::pow2(level as nat) as u8;
        let base = seq![PaintPass { sfactor, overlay: false }];
        let both = if overlay {
            base.push(PaintPass { sfactor, overlay: true })
        } else {
            base
        };
        both + passes(min_level, level - 1, overlay)
    }
}

/// A pane that shows the volume.
#[derive(Debug, Clone, Copy, PartialEq, Eq, Structural)]
pub struct VolumePane {
    pub pane_type: PaneType,
    pub is_segment_pane: bool,
}

/// A coordinate moved by `delta` and held within a range.
pub open spec fn moved(c: i32, delta: i32, range: (i32, i32)) -> int {
    let n = c + delta;
    if n < range.0 {
        range.0 as int
    } else if n > range.1 {
        range.1 as int
    } else {
        n
    }
}

fn move_within(c: i32, delta: i32, range: (i32, i32)) -> (r: i32)
    requires
        range.0 <= range.1,
    ensures
        r == moved(c, delta, range),
{
    let n: i64 = c as i64 + delta as i64;
    if n < range.0 as i64 {
        range.0
    } else if n > range.1 as i64 {
        range.1
    } else {
        n as i32
    }
}

impl VolumePane {
    /// A pane of a kind.
    pub fn new(pane_type: PaneType, is_segment_pane: bool) -> (p: VolumePane)
        ensures
            p.pane_type == pane_type,
            p.is_segment_pane == is_segment_pane,
    {
        VolumePane { pane_type, is_segment_pane }
    }

    /// The key of a tile of the pane, at position `coord` and with `voxels`
    /// voxels to a pixel of the screen.
    pub fn tile_key(
        &self,
        tile_u: i32,
        tile_v: i32,
        coord: [i32; 3],
        voxels: u32,
        lod_bias: i32,
        paint_zoom: u8,
        settings: u64,
    ) -> (key: TileCacheKey)
        ensures
            key == (TileCacheKey {
                pane_type: self.pane_type,
                tile_u,
                tile_v,
                w: coord@[self.pane_type.axes().2 as int],
                min_level: level_on_screen(voxels, lod_bias),
                paint_zoom,
                settings,
            }),
    {
        let (_, _, d) = self.pane_type.coordinates();
        TileCacheKey {
            pane_type: self.pane_type,
            tile_u,
            tile_v,
            w: coord[d],
            min_level: min_level_for(voxels, lod_bias),
            paint_zoom,
            settings,
        }
    }

    /// The tiles of a view from column `start_x` to `end_x` and row `start_y` to
    /// `end_y`, with one more on every side, row by row.
    pub fn visible_tiles(&self, start_x: i32, end_x: i32, start_y: i32, end_y: i32) -> (out: Vec<(i32, i32)>)
        requires
            i32::MIN < start_x,
            end_x < i32::MAX,
            i32::MIN < start_y,
            end_y < i32::MAX,
            start_x <= end_x,
            start_y <= end_y,
        ensures
            ({
                let w = end_x - start_x + 2;
                &&& out@.len() == w * (end_y - start_y + 2)
                &&& forall|i: int|
                    0 <= i < out@.len() ==> #[trigger] out@[i] == (
                        (start_x - 1 + i % w) as i32,
                        (start_y - 1 + i / w) as i32,
                    )
            }),
    {
        let ghost w = end_x - start_x + 2;
        let mut out: Vec<(i32, i32)> = Vec::new();
        let mut y: i32 = start_y - 1;
        assert(w * 0 == 0);
        while y < end_y + 1
            invariant
                i32::MIN < start_x <= end_x < i32::MAX,
                i32::MIN < start_y <= end_y < i32::MAX,
                start_y - 1 <= y <= end_y + 1,
                w == end_x - start_x + 2,
                out@.len() == w * (y - start_y + 1),
                forall|i: int|
                    0 <= i < out@.len() ==> #[trigger] out@[i] == (
                        (start_x - 1 + i % w) as i32,
                        (start_y - 1 + i / w) as i32,
                    ),
            decreases end_y + 1 - y,
        {
            let mut x: i32 = start_x - 1;
            while x < end_x + 1
                invariant
                    i32::MIN < start_x <= end_x < i32::MAX,
                    i32::MIN < start_y <= end_y < i32::MAX,
                    start_y - 1 <= y < end_y + 1,
                    start_x - 1 <= x <= end_x + 1,
                    w == end_x - start_x + 2,
                    out@.len() == w * (y - start_y + 1) + (x - start_x + 1),
                    forall|i: int|
                        0 <= i < out@.len() ==> #[trigger] out@[i] == (
                            (start_x - 1 + i % w) as i32,
                            (start_y - 1 + i / w) as i32,
                        ),
                decreases end_x + 1 - x,
            {
                proof {
                    let row = y - start_y + 1;
                    let col = x - start_x + 1;
                    vstd::arithmetic::div_mod::lemma_fundamental_div_mod_converse(
                        w * row + col,
                        w,
                        row,
                        col,
                    );
                }
                out.push((x, y));
                x = x + 1;
            }
            proof {
                let row = y - start_y + 1;
                assert(w * row + w == w * (row + 1)) by (nonlinear_arith);
            }
            y = y + 1;
        }
        out
    }

    /// The position at a tile's center.
    pub open spec fn center(&self, key: TileCacheKey, axis: int) -> int {
        let edge = TILE_SIZE * key.paint_zoom;
        if axis == self.pane_type.axes().0 {
            key.tile_u * edge + edge / 2
        } else if axis == self.pane_type.axes().1 {
            key.tile_v * edge + edge / 2
        } else {
            key.w as int
        }
    }

    /// The position at a tile's center, for painting it.
    pub fn tile_center(&self, key: TileCacheKey) -> (coord: [i32; 3])
        requires
            forall|a: int| 0 <= a < 3 ==> i32::MIN <= #[trigger] self.center(key, a) <= i32::MAX,
        ensures
            forall|a: int| 0 <= a < 3 ==> #[trigger] coord@[a] == self.center(key, a),
    {
        let (u, v, d) = self.pane_type.coordinates();
        let edge: i64 = TILE_SIZE as i64 * key.paint_zoom as i64;
        assert(i32::MIN <= self.center(key, u as int) <= i32::MAX);
        assert(i32::MIN <= self.center(key, v as int) <= i32::MAX);
        assert(-0x8000_0000 * 0x1_0000 <= key.tile_u * edge <= 0x8000_0000 * 0x1_0000 && -0x8000_0000
            * 0x1_0000 <= key.tile_v * edge <= 0x8000_0000 * 0x1_0000) by (nonlinear_arith)
            requires
                -0x8000_0000 <= key.tile_u <= 0x7fff_ffff,
                -0x8000_0000 <= key.tile_v <= 0x7fff_ffff,
                0 <= edge <= 0x1_0000,
        ;
        let mut coord: [i32; 3] = [0; 3];
        coord[u] = (key.tile_u as i64 * edge + edge / 2) as i32;
        coord[v] = (key.tile_v as i64 * edge + edge / 2) as i32;
        coord[d] = key.w;
        coord
    }

    /// The passes that paint a tile, `extra` levels above its own and down to
    /// it. A segment's pane has its overlay inside, and gets no pass for it.
    pub fn paint_passes(&self, key: TileCacheKey, extra: u32, has_overlay: bool) -> (out: Vec<PaintPass>)
        requires
            key.min_level + extra <= 7,
        ensures
            out@ == passes(
                key.min_level,
                key.min_level + extra,
                has_overlay && !self.is_segment_pane,
            ),
    {
        proof {
            chunk::lemma_pow2_table();
        }
        let overlay = has_overlay && !self.is_segment_pane;
        let ghost all = passes(key.min_level, key.min_level + extra, overlay);
        let mut out: Vec<PaintPass> = Vec::new();
        let mut left: u32 = extra + 1;
        assert(out@ + all =~= all);
        while left > 0
            invariant
                left <= extra + 1,
                key.min_level + extra <= 7,
                out@ + passes(key.min_level, key.min_level + left - 1, overlay) == all,
            decreases left,
        {
            let level: u8 = (key.min_level + left - 1) as u8;
            proof {
                chunk::lemma_pow2_bounds(level as nat);
                chunk::lemma_pow2_table();
            }
            let sfactor: u8 = chunk::pow2_u64(level) as u8;
            let ghost before = out@;
            out.push(PaintPass { sfactor, overlay: false });
            if overlay {
                out.push(PaintPass { sfactor, overlay: true });
            }
            assert(out@ + passes(key.min_level, key.min_level + left - 2, overlay) =~= before + passes(
                key.min_level,
                key.min_level + left - 1,
                overlay,
            ));
            left = left - 1;
        }
        assert(out@ + Seq::empty() =~= out@);
        out
    }

    /// Moves the position into the pane, within its range.
    pub fn handle_scroll(&self, coord: &mut [i32; 3], delta: i32, ranges: [(i32, i32); 3])
        requires
            forall|a: int| 0 <= a < 3 ==> (#[trigger] ranges@[a]).0 <= ranges@[a].1,
        ensures
            forall|a: int|
                0 <= a < 3 ==> #[trigger] final(coord)@[a] == (if a == self.pane_type.axes().2 {
                    moved(old(coord)@[a], delta, ranges@[a])
                } else {
                    old(coord)@[a] as int
                }),
    {
        let (_, _, d) = self.pane_type.coordinates();
        assert(ranges@[d as int].0 <= ranges@[d as int].1);
        let c = move_within(coord[d], delta, ranges[d]);
        coord[d] = c;
    }

    /// Moves the position along the pane and down it, within its ranges.
    pub fn handle_drag(&self, coord: &mut [i32; 3], du: i32, dv: i32, ranges: [(i32, i32); 3])
        requires
            forall|a: int| 0 <= a < 3 ==> (#[trigger] ranges@[a]).0 <= ranges@[a].1,
        ensures
            forall|a: int|
                0 <= a < 3 ==> #[trigger] final(coord)@[a] == (if a == self.pane_type.axes().0 {
                    moved(old(coord)@[a], du, ranges@[a])
                } else if a == self.pane_type.axes().1 {
                    moved(old(coord)@[a], dv, ranges@[a])
                } else {
                    old(coord)@[a] as int
                }),
    {
        let (u, v, _) = self.pane_type.coordinates();
        assert(ranges@[u as int].0 <= ranges@[u as int].1);
        assert(ranges@[v as int].0 <= ranges@[v as int].1);
        let a = move_within(coord[u], du, ranges[u]);
        coord[u] = a;
        let b = move_within(coord[v], dv, ranges[v]);
        coord[v] = b;
    }
}

/// Which axes a pane shows: the two of its name along and down it, in the order
/// in which the panes lie next to each other, and the third one into it.
pub proof fn law_panes_show_the_axes_of_their_names(p: PaneType)
    ensures
        p is XY || p is UV ==> p.axes() == (0usize, 1usize, 2usize),
        p is XZ ==> p.axes() == (0usize, 2usize, 1usize),
        p is YZ ==> p.axes() == (2usize, 1usize, 0usize),
{
}

/// The tiles of a pane lie next to each other without gap or overlap: pixel
/// `(u, v)` of a tile painted around its center shows the point so many pixels
/// from the corner of tile `(0, 0)` as its tile and its place there say, at the
/// pane's depth.
pub proof fn law_tiles_join_without_gaps(
    pane: VolumePane,
    key: TileCacheKey,
    view: crate::paint::SliceView,
    u: int,
    v: int,
)
    requires
        view.u_axis == pane.pane_type.axes().0,
        view.v_axis == pane.pane_type.axes().1,
        view.plane_axis == pane.pane_type.axes().2,
        view.width == TILE_SIZE,
        view.height == TILE_SIZE,
        view.zoom == key.paint_zoom,
        forall|a: int| 0 <= a < 3 ==> #[trigger] view.center@[a] == pane.center(key, a),
    ensures
        ({
            let w = crate::paint::point_of(&view, u, v);
            &&& w[pane.pane_type.axes().0 as int] == (key.tile_u * TILE_SIZE + u) * key.paint_zoom
            &&& w[pane.pane_type.axes().1 as int] == (key.tile_v * TILE_SIZE + v) * key.paint_zoom
            &&& w[pane.pane_type.axes().2 as int] == key.w
        }),
{
    law_pane_axes_differ(pane.pane_type);
    let (a, b, c) = pane.pane_type.axes();
    assert(view.center@[a as int] == pane.center(key, a as int));
    assert(view.center@[b as int] == pane.center(key, b as int));
    assert(view.center@[c as int] == pane.center(key, c as int));
    let z = key.paint_zoom as int;
    let t = TILE_SIZE as int;
    assert(z * t == t * z) by (nonlinear_arith);
    assert((key.tile_u * t + u) * z == key.tile_u * (t * z) + u * z) by (nonlinear_arith);
    assert((key.tile_v * t + v) * z == key.tile_v * (t * z) + v * z) by (nonlinear_arith);
}

/// A coarser tile that stands in for one is of the same pane, depth and
/// settings and has a picture, and the part of it that is drawn is the one that
/// shows what the tile shows: where it is cut into as many parts as it is
/// coarser, the tile's own place among them.
pub proof fn law_coarser_stand_in_shows_the_same_place(
    m: Map<TileCacheKey, (bool, TileState)>,
    key: TileCacheKey,
    lod_bias: i32,
    level: int,
)
    requires
        key_ok(key),
        1 <= level,
        coarser(m, key, lod_bias, level) is Some,
    ensures
        ({
            let (hit, draw) = coarser(m, key, lod_bias, level)->0;
            let s = draw.source.parts as int;
            &&& s >= 2
            &&& hit.paint_zoom == key.paint_zoom * s
            &&& hit.tile_u * s + draw.source.u == key.tile_u
            &&& hit.tile_v * s + draw.source.v == key.tile_v
            &&& draw.source.u < s
            &&& draw.source.v < s
            &&& draw.target == (SubRect { u: 0, v: 0, parts: 1 })
            &&& hit.pane_type == key.pane_type
            &&& hit.w == key.w
            &&& hit.settings == key.settings
            &&& m.contains_key(hit)
            &&& m[hit].1.shown() == Some(draw.texture)
        }),
    decreases MAX_DOWNSAMPLE + 1 - level,
{
    let s = chunk::pow2(level as nat) as int;
    chunk::lemma_pow2_table();
    if level <= 5 {
        assert(s == 2 || s == 4 || s == 8 || s == 16 || s == 32);
        let (u, v) = (key.tile_u as int, key.tile_v as int);
        match probed(m, key, lod_bias, u / s, v / s, key.paint_zoom * s) {
            Some(hit) => {
                vstd::arithmetic::div_mod::lemma_fundamental_div_mod(u, s);
                vstd::arithmetic::div_mod::lemma_fundamental_div_mod(v, s);
                assert((u / s) * s == s * (u / s) && (v / s) * s == s * (v / s)) by (nonlinear_arith);
                assert(i32::MIN <= u / s <= i32::MAX && i32::MIN <= v / s <= i32::MAX) by (nonlinear_arith)
                    requires
                        -0x1000_0000 <= u < 0x1000_0000,
                        -0x1000_0000 <= v < 0x1000_0000,
                        s >= 2,
                ;
            },
            None => {
                law_coarser_stand_in_shows_the_same_place(m, key, lod_bias, level + 1);
            },
        }
    }
}

/// Finer tiles that stand in for one are of the same pane, depth and settings
/// and have pictures, and each is drawn whole over the part of the tile that it
/// shows.
pub proof fn law_finer_stand_ins_show_the_same_places(
    m: Map<TileCacheKey, (bool, TileState)>,
    key: TileCacheKey,
    lod_bias: i32,
    level: int,
    n: nat,
    i: int,
)
    requires
        key_ok(key),
        1 <= level <= 3,
        n <= chunk::pow2(level as nat) * chunk::pow2(level as nat),
        0 <= i < finer(m, key, lod_bias, level, n).len(),
    ensures
        ({
            let (hit, draw) = finer(m, key, lod_bias, level, n)[i];
            let s = draw.target.parts as int;
            &&& s == chunk::pow2(level as nat)
            &&& hit.paint_zoom == key.paint_zoom as int / s
            &&& hit.tile_u == key.tile_u * s + draw.target.u
            &&& hit.tile_v == key.tile_v * s + draw.target.v
            &&& draw.target.u < s
            &&& draw.target.v < s
            &&& draw.source == (SubRect { u: 0, v: 0, parts: 1 })
            &&& hit.pane_type == key.pane_type
            &&& hit.w == key.w
            &&& hit.settings == key.settings
            &&& m.contains_key(hit)
            &&& m[hit].1.shown() == Some(draw.texture)
        }),
    decreases n,
{
    let s = chunk::pow2(level as nat) as int;
    chunk::lemma_pow2_table();
    assert(s == 2 || s == 4 || s == 8);
    assert(n <= s * s);
    let before = finer(m, key, lod_bias, level, (n - 1) as nat);
    if i < before.len() {
        law_finer_stand_ins_show_the_same_places(m, key, lod_bias, level, (n - 1) as nat, i);
    } else {
        let z = key.paint_zoom as int;
        assert(0 <= z / s <= 255);
        if s == 2 {
            assert((n - 1) % 2 < 2 && (n - 1) / 2 < 2);
        } else if s == 4 {
            assert((n - 1) % 4 < 4 && (n - 1) / 4 < 4);
        } else {
            assert((n - 1) % 8 < 8 && (n - 1) / 8 < 8);
        }
    }
}

/// The number of binary digits says between which powers of two a number lies.
pub proof fn law_digits_bound_their_number(n: int)
    requires
        n > 0,
    ensures
        bit_length(n) >= 1,
        chunk::pow2((bit_length(n) - 1) as nat) <= n < chunk::pow2(bit_length(n)),
    decreases n,
{
    chunk::lemma_pow2_table();
    if n > 1 {
        law_digits_bound_their_number(n / 2);
        let k = bit_length(n / 2);
        assert(chunk::pow2(k + 1) == 2 * chunk::pow2(k));
        assert(chunk::pow2(k) == 2 * chunk::pow2((k - 1) as nat));
    } else {
        assert(bit_length(1) == 1 + bit_length(0));
        assert(bit_length(0) == 0);
    }
}

/// A tile is painted level by level, the coarsest first and its own last, so
/// that finer levels are painted over coarser ones; each level's overlay comes
/// after it.
pub proof fn law_passes_go_from_coarse_to_fine(min_level: u32, level: int, overlay: bool, l: int)
    requires
        min_level <= l <= level <= 7,
    ensures
        ({
            let all = passes(min_level, level, overlay);
            let k = if overlay {
                2 * (level - l)
            } else {
                level - l
            };
            &&& all.len() == (if overlay {
                2 * (level + 1 - min_level)
            } else {
                level + 1 - min_level
            })
            &&& 0 <= k < all.len()
            &&& all[k] == (PaintPass { sfactor: chunk::pow2(l as nat) as u8, overlay: false })
            &&& overlay ==> k + 1 < all.len() && all[k + 1] == (PaintPass {
                sfactor: chunk::pow2(l as nat) as u8,
                overlay: true,
            })
        }),
    decreases level,
{
    lemma_passes_len(min_level, level, overlay);
    lemma_passes_len(min_level, level - 1, overlay);
    if l < level {
        law_passes_go_from_coarse_to_fine(min_level, level - 1, overlay, l);
    }
}

proof fn lemma_passes_len(min_level: u32, level: int, overlay: bool)
    requires
        min_level <= level + 1,
    ensures
        passes(min_level, level, overlay).len() == (if overlay {
            2 * (level + 1 - min_level)
        } else {
            level + 1 - min_level
        }),
    decreases level + 1 - min_level,
{
    if level >= min_level {
        lemma_passes_len(min_level, level - 1, overlay);
    }
}

/// A tile lives for its backoff times a base and a jitter of milliseconds, and
/// not a nanosecond longer; one that is not there yet does not run out.
pub proof fn law_tile_lives_its_time(state: TileState, now: u64, jitter: u64)
    ensures
        state matches TileState::Loading { .. } ==> !expired(state, now, jitter),
        state matches TileState::Ready { cached_at, backoff_factor, .. } ==> (expired(state, now, jitter)
            <==> now > cached_at + (TILE_TTL_BASE_MS + jitter) * backoff_factor * 1_000_000),
        state matches TileState::ReadyRecalculating { cached_at, backoff_factor, .. } ==> (expired(
            state,
            now,
            jitter,
        ) <==> now > cached_at + (TILE_TTL_BASE_MS + jitter) * backoff_factor * 1_000_000),
{
    match state {
        TileState::Loading { .. } => {},
        TileState::Ready { backoff_factor, .. } => {
            assert((TILE_TTL_BASE_MS + jitter) * backoff_factor >= 0) by (nonlinear_arith)
                requires
                    TILE_TTL_BASE_MS + jitter >= 0,
                    backoff_factor >= 0,
            ;
        },
        TileState::ReadyRecalculating { backoff_factor, .. } => {
            assert((TILE_TTL_BASE_MS + jitter) * backoff_factor >= 0) by (nonlinear_arith)
                requires
                    TILE_TTL_BASE_MS + jitter >= 0,
                    backoff_factor >= 0,
            ;
        },
    }
}

/// A tile is polled for half of what is left of the pane's time, and not beyond
/// the frame's; where that is less than half a millisecond it is not
/// polled.
pub proof fn law_poll_keeps_within_its_time(frame_deadline: u64, pane_deadline: u64, now: u64)
    requires
        now < frame_deadline,
        now < pane_deadline,
    ensures
        ({
            let half = (pane_deadline - now) / 2;
            let rest = frame_deadline - now;
            let t = if half < rest {
                half
            } else {
                rest
            };
            &&& poll_timeout(frame_deadline, pane_deadline, false, now) == (if t < 500_000 {
                None::<u64>
            } else {
                Some(t as u64)
            })
            &&& poll_timeout(frame_deadline, pane_deadline, true, now) is None
        }),
{
}

/// Once the frame's time or the pane's is up nothing is polled.
pub proof fn law_no_poll_when_time_is_up(frame_deadline: u64, pane_deadline: u64, disabled: bool, now: u64)
    requires
        now >= frame_deadline || now >= pane_deadline,
    ensures
        poll_timeout(frame_deadline, pane_deadline, disabled, now) is None,
{
}

/// The level that a tile is painted at is the one whose voxels are larger than a
/// pixel; each step of the bias makes it one finer, as far as there are finer
/// ones.
pub proof fn law_level_grows_with_the_voxels_to_a_pixel(voxels: u32, lod_bias: i32)
    requires
        lod_bias < i32::MAX,
        -0x4000_0000 <= lod_bias,
    ensures
        voxels < chunk::pow2(level_on_screen(voxels, 0) as nat),
        voxels > 0 ==> chunk::pow2((level_on_screen(voxels, 0) - 1) as nat) <= voxels,
        level_on_screen(voxels, (lod_bias + 1) as i32) == (if level_on_screen(voxels, lod_bias) == 0 {
            0
        } else {
            level_on_screen(voxels, lod_bias) - 1
        }),
{
    if voxels > 0 {
        law_digits_bound_their_number(voxels as int);
    }
    chunk::lemma_pow2_table();
    lemma_few_digits(voxels);
}

proof fn lemma_few_digits(n: u32)
    ensures
        bit_length(n as int) <= 32,
{
    chunk::lemma_pow2_table();
    if bit_length(n as int) > 32 {
        law_digits_bound_their_number(n as int);
        lemma_pow2_order(32, (bit_length(n as int) - 1) as nat);
    }
}

proof fn lemma_pow2_order(a: nat, b: nat)
    requires
        a <= b,
    ensures
        chunk::pow2(a) <= chunk::pow2(b),
    decreases b,
{
    if a < b {
        lemma_pow2_order(a, (b - 1) as nat);
    }
}

/// A position moves by as much as is asked for, and stops at the nearer end of
/// its range where that lies beyond.
pub proof fn law_moves_stop_at_the_ends(c: i32, delta: i32, range: (i32, i32))
    requires
        range.0 <= range.1,
    ensures
        range.0 <= moved(c, delta, range) <= range.1,
        range.0 <= c + delta <= range.1 ==> moved(c, delta, range) - c == delta,
        c + delta < range.0 ==> moved(c, delta, range) == range.0,
        c + delta > range.1 ==> moved(c, delta, range) == range.1,
{
}

} // verus!
