//! Which chunks to give up when room is needed: the least recently used ones,
//! by the epoch in which they were last used.
use crate::chunk::ChunkKey;
use crate::sidecar;
use crate::sidecar::{LodDims, Sidecar, STATE_RESIDENT};
use vstd::prelude::*;

verus! {

/// Epochs are numbered modulo this.
pub const EPOCH_SLOTS: usize = 256;

/// A planned purge: every chunk that has not been used for `age_threshold`
/// epochs or more is a victim.
#[derive(Debug, Clone, Copy, PartialEq, Eq, Structural)]
pub struct PurgePlan {
    pub age_threshold: u16,
    /// How many chunks are wanted.
    pub target_chunks: u64,
    /// How many the plan frees; epochs are only given up whole, so this may be
    /// more.
    pub freed_chunks: u64,
}

/// Anything that can be asked to give up chunks under a plan.
pub trait PurgeTarget: Sized {
    /// Whether carrying out the plan takes the target from `before` to `after`
    /// and gives up `n` chunks. A target that says nothing else may give up
    /// whatever it likes.
    open spec fn purged(before: &Self, plan: PurgePlan, after: &Self, n: u64) -> bool {
        true
    }

    /// The volume that the target holds.
    fn volume_id(&self) -> String;

    /// Gives up the plan's victims and says how many they were.
    fn run_purge(&mut self, plan: PurgePlan) -> (n: u64)
        ensures
            Self::purged(old(self), plan, final(self), n),
    ;
}

/// How many epochs ago epoch `e` was, seen from `current`.
pub open spec fn epoch_age(e: u8, current: u8) -> int {
    (current - e) % 256
}

/// The epoch that was `age` epochs ago.
pub open spec fn slot_at(current: u8, age: int) -> int {
    (current - age) % 256
}

/// How many chunks were last used `age` epochs ago or earlier; the current
/// epoch is never counted.
pub open spec fn freed_at(hist: Seq<u32>, current: u8, age: int) -> int
    decreases 256 - age,
{
    if age > 255 {
        0
    } else {
        freed_at(hist, current, age + 1) + hist[slot_at(current, age)]
    }
}

/// How many chunks the histogram counts in its first `n` slots.
pub open spec fn counted(hist: Seq<u32>, n: int) -> int
    decreases n,
{
    if n <= 0 {
        0
    } else {
        counted(hist, n - 1) + hist[n - 1]
    }
}

impl PurgePlan {
    /// Whether a chunk last used in epoch `e` is a victim.
    pub open spec fn takes(self, e: u8, current: u8) -> bool {
        epoch_age(e, current) >= self.age_threshold
    }

    /// Whether a chunk last used in epoch `victim_epoch` is a victim.
    pub fn is_victim(&self, victim_epoch: u8, current: u8) -> (r: bool)
        ensures
            r == self.takes(victim_epoch, current),
    {
        let age: u16 = current.wrapping_sub(victim_epoch) as u16;
        age >= self.age_threshold
    }
}

/// Plans a purge of `target_chunks`: the oldest epochs are given up, as few of
/// them as reach the target. `None` if even all epochs but the current one do
/// not.
pub fn plan_from_histogram(hist: &[u32; 256], current: u8, target_chunks: u64) -> (r: Option<PurgePlan>)
    ensures
        r is None <==> freed_at(hist@, current, 1) < target_chunks,
        r matches Some(p) ==> {
            &&& 1 <= p.age_threshold <= 255
            &&& p.target_chunks == target_chunks
            &&& p.freed_chunks == freed_at(hist@, current, p.age_threshold as int)
            &&& p.freed_chunks >= target_chunks
            &&& forall|age: int|
                p.age_threshold < age <= 255 ==> #[trigger] freed_at(hist@, current, age)
                    < target_chunks
        },
{
    let mut freed: u64 = 0;
    let mut age: u16 = 255;
    assert(freed_at(hist@, current, 256) == 0);
    while age >= 1
        invariant
            age <= 255,
            freed == freed_at(hist@, current, age + 1),
            freed <= (255 - age) * 0xffff_ffff,
            forall|a: int|
                age < a <= 255 ==> #[trigger] freed_at(hist@, current, a) < target_chunks,
        decreases age,
    {
        let slot = current.wrapping_sub(age as u8) as usize;
        assert(slot == slot_at(current, age as int));
        freed = freed + hist[slot] as u64;
        if freed >= target_chunks {
            proof {
                lemma_freed_grows(hist@, current, 1, age as int);
            }
            return Some(PurgePlan { age_threshold: age, target_chunks, freed_chunks: freed });
        }
        age = age - 1;
    }
    None
}

proof fn lemma_freed_grows(hist: Seq<u32>, current: u8, a: int, b: int)
    requires
        a <= b,
    ensures
        freed_at(hist, current, b) <= freed_at(hist, current, a),
    decreases b - a,
{
    if a < b {
        lemma_freed_grows(hist, current, a + 1, b);
    }
}

/// A plan never takes the current epoch.
pub proof fn law_current_epoch_is_spared(plan: PurgePlan, current: u8)
    requires
        plan.age_threshold >= 1,
    ensures
        !plan.takes(current, current),
{
}

/// How many of the chunks that the first `n` slots count are victims.
pub open spec fn victims_counted(hist: Seq<u32>, plan: PurgePlan, current: u8, n: int) -> int
    decreases n,
{
    if n <= 0 {
        0
    } else {
        victims_counted(hist, plan, current, n - 1) + (if plan.takes((n - 1) as u8, current) {
            hist[n - 1] as int
        } else {
            0
        })
    }
}

/// How many chunks the slots from `lo` up to `hi` count.
pub open spec fn counted_between(hist: Seq<u32>, lo: int, hi: int) -> int
    decreases hi - lo,
{
    if hi <= lo {
        0
    } else {
        counted_between(hist, lo, hi - 1) + hist[hi - 1]
    }
}

proof fn lemma_counted_between_front(hist: Seq<u32>, lo: int, hi: int)
    requires
        lo < hi,
    ensures
        counted_between(hist, lo, hi) == hist[lo] + counted_between(hist, lo + 1, hi),
    decreases hi - lo,
{
    if hi - 1 > lo {
        lemma_counted_between_front(hist, lo, hi - 1);
    } else {
        assert(counted_between(hist, lo, hi - 1) == 0);
        assert(counted_between(hist, lo + 1, hi) == 0);
    }
}

proof fn lemma_freed_high(hist: Seq<u32>, current: u8, age: int)
    requires
        current < age <= 256,
        hist.len() == 256,
    ensures
        freed_at(hist, current, age) == counted_between(
            hist,
            current + 1,
            current + 257 - age,
        ),
    decreases 256 - age,
{
    if age <= 255 {
        lemma_freed_high(hist, current, age + 1);
        assert(slot_at(current, age) == current + 256 - age);
    }
}

proof fn lemma_freed_low(hist: Seq<u32>, current: u8, age: int)
    requires
        0 <= age <= current + 1,
        hist.len() == 256,
    ensures
        freed_at(hist, current, age) == counted_between(hist, 0, current + 1 - age)
            + counted_between(hist, current + 1, 256),
    decreases 256 - age,
{
    if age == current + 1 {
        lemma_freed_high(hist, current, age);
        assert(counted_between(hist, 0, 0) == 0);
    } else {
        lemma_freed_low(hist, current, age + 1);
        assert(slot_at(current, age) == current - age);
    }
}

proof fn lemma_victims_low(hist: Seq<u32>, plan: PurgePlan, current: u8, n: int)
    requires
        0 <= n <= current + 1,
        hist.len() == 256,
    ensures
        victims_counted(hist, plan, current, n) == counted_between(
            hist,
            0,
            if n <= current + 1 - plan.age_threshold {
                n
            } else {
                current + 1 - plan.age_threshold
            },
        ),
    decreases n,
{
    if n > 0 {
        lemma_victims_low(hist, plan, current, n - 1);
        let e = (n - 1) as u8;
        assert(epoch_age(e, current) == current - e);
    }
}

proof fn lemma_victims_high(hist: Seq<u32>, plan: PurgePlan, current: u8, n: int)
    requires
        current + 1 <= n <= 256,
        hist.len() == 256,
    ensures
        victims_counted(hist, plan, current, n) == victims_counted(hist, plan, current, current + 1)
            + counted_between(
            hist,
            current + 1,
            if n <= current + 257 - plan.age_threshold {
                n
            } else {
                current + 257 - plan.age_threshold
            },
        ),
    decreases n,
{
    if n > current + 1 {
        lemma_victims_high(hist, plan, current, n - 1);
        let e = (n - 1) as u8;
        assert(epoch_age(e, current) == current + 256 - e);
    }
}

/// What a plan promises to free is the number of chunks that it takes: the
/// count, over all epochs, of the chunks that are victims.
pub proof fn law_plan_frees_its_victims(hist: Seq<u32>, plan: PurgePlan, current: u8)
    requires
        hist.len() == 256,
        1 <= plan.age_threshold <= 255,
    ensures
        victims_counted(hist, plan, current, 256) == freed_at(
            hist,
            current,
            plan.age_threshold as int,
        ),
{
    let t = plan.age_threshold as int;
    lemma_victims_low(hist, plan, current, current + 1);
    lemma_victims_high(hist, plan, current, 256);
    if t > current {
        lemma_freed_high(hist, current, t);
        assert(counted_between(hist, 0, current + 1 - t) == 0);
    } else {
        lemma_freed_low(hist, current, t);
    }
}

/// A chunk that a purge takes.
#[derive(Debug, Clone, Copy, PartialEq, Eq, Structural)]
pub struct Victim {
    pub key: ChunkKey,
    /// Its place in the index.
    pub idx: u64,
    /// The epoch in which it was last used.
    pub access_epoch: u8,
}

/// The chunk at place `idx` of level `lod`.
pub open spec fn key_at(d: LodDims, lod: u8, idx: int) -> ChunkKey {
    ChunkKey {
        lod,
        x: (idx % (d.nx as int)) as u32,
        y: ((idx / (d.nx as int)) % (d.ny as int)) as u32,
        z: (idx / (d.nx * d.ny)) as u32,
    }
}

/// Whether a slot with this state and epoch is a victim.
pub open spec fn slot_taken(plan: PurgePlan, current: u8, state: u8, epoch: u8) -> bool {
    state == STATE_RESIDENT && plan.takes(epoch, current)
}

/// The victims among the first `n` chunks of a level, in order.
pub open spec fn level_victims(
    plan: PurgePlan,
    current: u8,
    d: LodDims,
    lod: u8,
    states: Seq<u8>,
    epochs: Seq<u8>,
    n: int,
) -> Seq<Victim>
    decreases n,
{
    if n <= 0 {
        Seq::empty()
    } else {
        let front = level_victims(plan, current, d, lod, states, epochs, n - 1);
        if slot_taken(plan, current, states[n - 1], epochs[n - 1]) {
            front.push(
                Victim {
                    key: key_at(d, lod, n - 1),
                    idx: (n - 1) as u64,
                    access_epoch: epochs[n - 1],
                },
            )
        } else {
            front
        }
    }
}

/// The victims among the first `k` levels, in order.
pub open spec fn all_victims(
    plan: PurgePlan,
    current: u8,
    lods: Seq<LodDims>,
    states: Seq<Seq<u8>>,
    epochs: Seq<Seq<u8>>,
    k: int,
) -> Seq<Victim>
    decreases k,
{
    if k <= 0 {
        Seq::empty()
    } else {
        all_victims(plan, current, lods, states, epochs, k - 1) + level_victims(
            plan,
            current,
            lods[k - 1],
            (k - 1) as u8,
            states[k - 1],
            epochs[k - 1],
            lods[k - 1].size(),
        )
    }
}

/// The chunk at place `idx` of level `lod`.
fn unflatten(d: LodDims, lod: u8, idx: u64) -> (key: ChunkKey)
    requires
        idx < d.size(),
        d.size() <= u64::MAX,
    ensures
        key == key_at(d, lod, idx as int),
        d.has(key.x, key.y, key.z),
        d.index_of(key.x, key.y, key.z) == idx,
{
    proof {
        lemma_unflatten(d, lod, idx as int);
        assert(0 < d.nx * d.ny <= 0xffff_ffff * 0xffff_ffff) by (nonlinear_arith)
            requires
                0 < d.nx <= 0xffff_ffff,
                0 < d.ny <= 0xffff_ffff,
        ;
    }
    let nx: u64 = d.nx as u64;
    let ny: u64 = d.ny as u64;
    ChunkKey {
        lod,
        x: (idx % nx) as u32,
        y: ((idx / nx) % ny) as u32,
        z: (idx / (nx * ny)) as u32,
    }
}

proof fn lemma_unflatten(d: LodDims, lod: u8, idx: int)
    requires
        0 <= idx < d.size(),
    ensures
        d.nx > 0,
        d.ny > 0,
        ({
            let k = key_at(d, lod, idx);
            &&& d.has(k.x, k.y, k.z)
            &&& d.index_of(k.x, k.y, k.z) == idx
            &&& idx % (d.nx as int) == k.x
            &&& (idx / (d.nx as int)) % (d.ny as int) == k.y
            &&& idx / (d.nx * d.ny) == k.z
        }),
{
    let (nx, ny, nz) = (d.nx as int, d.ny as int, d.nz as int);
    assert(nx > 0 && ny > 0) by (nonlinear_arith)
        requires
            0 < nx * ny * nz,
            0 <= nx,
            0 <= ny,
            0 <= nz,
    ;
    assert(nx * ny > 0) by (nonlinear_arith)
        requires
            nx > 0,
            ny > 0,
    ;
    let row = idx / nx;
    vstd::arithmetic::div_mod::lemma_fundamental_div_mod(idx, nx);
    vstd::arithmetic::div_mod::lemma_fundamental_div_mod(row, ny);
    vstd::arithmetic::div_mod::lemma_div_denominator(idx, nx, ny);
    let z = row / ny;
    assert(z == idx / (nx * ny));
    assert(0 <= idx / nx) by (nonlinear_arith)
        requires
            idx >= 0,
            nx > 0,
    ;
    assert(0 <= z) by (nonlinear_arith)
        requires
            z == row / ny,
            row >= 0,
            ny > 0,
    ;
    assert(z < nz) by (nonlinear_arith)
        requires
            z == idx / (nx * ny),
            idx < nx * ny * nz,
            idx >= 0,
            nx * ny > 0,
            nz >= 0,
    ;
    assert(ny * z == z * ny) by (nonlinear_arith);
    assert(nx * row == row * nx) by (nonlinear_arith);
}

/// The chunks of an index that a plan takes, in order.
pub fn find_victims(s: &Sidecar, plan: &PurgePlan, current: u8) -> (r: Vec<Victim>)
    requires
        s.wf(),
        s.header.lods@.len() <= 256,
    ensures
        r@ == all_victims(
            *plan,
            current,
            s.header.lods@,
            s.model().states,
            s.model().access_epochs,
            s.header.lods@.len() as int,
        ),
{
    let mut r: Vec<Victim> = Vec::new();
    let mut l: usize = 0;
    while l < s.header.lods.len()
        invariant
            l <= s.header.lods@.len() <= 256,
            s.wf(),
            r@ == all_victims(
                *plan,
                current,
                s.header.lods@,
                s.model().states,
                s.model().access_epochs,
                l as int,
            ),
        decreases s.header.lods.len() - l,
    {
        let d = s.header.lods[l];
        let lod = l as u8;
        let n: u64 = s.states[l].len() as u64;
        assert(s.states@[l as int]@.len() == n);
        let ghost front = r@;
        let ghost st = s.model().states[l as int];
        let ghost ep = s.model().access_epochs[l as int];
        let mut idx: u64 = 0;
        assert(front + level_victims(*plan, current, d, lod, st, ep, 0) =~= front);
        while idx < n
            invariant
                idx <= n,
                l < s.header.lods@.len() <= 256,
                lod == l,
                d == s.header.lods@[l as int],
                n == d.size(),
                s.wf(),
                st == s.model().states[l as int],
                ep == s.model().access_epochs[l as int],
                r@ == front + level_victims(*plan, current, d, lod, st, ep, idx as int),
            decreases n - idx,
        {
            let state = s.get_state(lod, idx);
            let ae = s.get_access_epoch(lod, idx);
            assert(state == st[idx as int]);
            assert(ae == ep[idx as int]);
            if state == STATE_RESIDENT && plan.is_victim(ae, current) {
                r.push(Victim { key: unflatten(d, lod, idx), idx, access_epoch: ae });
            }
            idx = idx + 1;
            assert(r@ =~= front + level_victims(*plan, current, d, lod, st, ep, idx as int));
        }
        l = l + 1;
    }
    r
}

/// Everything a purge takes is a resident chunk that the plan takes, and the
/// chunk stands at the place that is named.
pub proof fn law_victims_are_resident(
    plan: PurgePlan,
    current: u8,
    lods: Seq<LodDims>,
    states: Seq<Seq<u8>>,
    epochs: Seq<Seq<u8>>,
    k: int,
    i: int,
)
    requires
        0 <= k <= lods.len() <= 256,
        lods.len() == states.len(),
        lods.len() == epochs.len(),
        forall|l: int| 0 <= l < lods.len() ==> (#[trigger] lods[l]).size() <= u64::MAX,
        0 <= i < all_victims(plan, current, lods, states, epochs, k).len(),
    ensures
        ({
            let v = all_victims(plan, current, lods, states, epochs, k)[i];
            let d = lods[v.key.lod as int];
            &&& v.key.lod < k
            &&& d.has(v.key.x, v.key.y, v.key.z)
            &&& v.idx == d.index_of(v.key.x, v.key.y, v.key.z)
            &&& v.idx < d.size()
            &&& states[v.key.lod as int][v.idx as int] == STATE_RESIDENT
            &&& epochs[v.key.lod as int][v.idx as int] == v.access_epoch
            &&& plan.takes(v.access_epoch, current)
        }),
    decreases k,
{
    let front = all_victims(plan, current, lods, states, epochs, k - 1);
    if i < front.len() {
        law_victims_are_resident(plan, current, lods, states, epochs, k - 1, i);
    } else {
        lemma_level_victims(
            plan,
            current,
            lods[k - 1],
            (k - 1) as u8,
            states[k - 1],
            epochs[k - 1],
            lods[k - 1].size(),
            i - front.len(),
        );
    }
}

proof fn lemma_level_victims(
    plan: PurgePlan,
    current: u8,
    d: LodDims,
    lod: u8,
    states: Seq<u8>,
    epochs: Seq<u8>,
    n: int,
    i: int,
)
    requires
        0 <= n <= d.size() <= u64::MAX,
        0 <= i < level_victims(plan, current, d, lod, states, epochs, n).len(),
    ensures
        ({
            let v = level_victims(plan, current, d, lod, states, epochs, n)[i];
            &&& v.key.lod == lod
            &&& v.idx < n
            &&& d.has(v.key.x, v.key.y, v.key.z)
            &&& v.idx == d.index_of(v.key.x, v.key.y, v.key.z)
            &&& states[v.idx as int] == STATE_RESIDENT
            &&& epochs[v.idx as int] == v.access_epoch
            &&& plan.takes(v.access_epoch, current)
        }),
    decreases n,
{
    let front = level_victims(plan, current, d, lod, states, epochs, n - 1);
    if i < front.len() {
        lemma_level_victims(plan, current, d, lod, states, epochs, n - 1, i);
    } else {
        lemma_unflatten(d, lod, n - 1);
    }
}

/// A plan takes the chunks that were last used longest ago: those of the epoch
/// `age` before the current one, the numbers of epochs going round, exactly if
/// that is the plan's threshold or more.
pub proof fn law_least_recently_used_go_first(plan: PurgePlan, current: u8, e: u8, age: int)
    requires
        0 <= age <= 255,
        e + age == current || e + age == current + 256,
    ensures
        plan.takes(e, current) <==> age >= plan.age_threshold,
{
}

/// Giving up one epoch more frees the chunks last used in it, and none that were
/// used later.
pub proof fn law_epochs_are_given_up_oldest_first(hist: Seq<u32>, current: u8, e: u8, age: int)
    requires
        hist.len() == 256,
        0 <= age <= 255,
        e + age == current || e + age == current + 256,
    ensures
        freed_at(hist, current, 256) == 0,
        freed_at(hist, current, age) == freed_at(hist, current, age + 1) + hist[e as int],
{
    assert(slot_at(current, age) == e);
}

/// Everything that a plan takes is among the victims: every resident chunk of
/// the levels whose epoch is old enough, under its own key and place.
pub proof fn law_no_victim_is_passed_over(
    plan: PurgePlan,
    current: u8,
    lods: Seq<LodDims>,
    states: Seq<Seq<u8>>,
    epochs: Seq<Seq<u8>>,
    key: ChunkKey,
    age: int,
)
    requires
        key.lod < lods.len() <= 256,
        lods.len() == states.len(),
        lods.len() == epochs.len(),
        lods[key.lod as int].size() <= u64::MAX,
        lods[key.lod as int].has(key.x, key.y, key.z),
        0 <= age <= 255,
        ({
            let i = lods[key.lod as int].index_of(key.x, key.y, key.z);
            let e = epochs[key.lod as int][i];
            &&& states[key.lod as int][i] == STATE_RESIDENT
            &&& e + age == current || e + age == current + 256
            &&& age >= plan.age_threshold
        }),
    ensures
        ({
            let i = lods[key.lod as int].index_of(key.x, key.y, key.z);
            all_victims(plan, current, lods, states, epochs, lods.len() as int).contains(
                Victim { key, idx: i as u64, access_epoch: epochs[key.lod as int][i] },
            )
        }),
{
    let l = key.lod as int;
    let d = lods[l];
    let i = d.index_of(key.x, key.y, key.z);
    sidecar::lemma_index_in_range(d, key.x, key.y, key.z);
    sidecar::law_index_unflattens(d, key.x, key.y, key.z);
    let v = Victim { key, idx: i as u64, access_epoch: epochs[l][i] };
    law_least_recently_used_go_first(plan, current, epochs[l][i], age);
    assert(key_at(d, key.lod, i) == key);
    lemma_level_has_victim(plan, current, d, key.lod, states[l], epochs[l], d.size(), i, v);
    lemma_levels_have_victim(plan, current, lods, states, epochs, lods.len() as int, l, v);
}

proof fn lemma_level_has_victim(
    plan: PurgePlan,
    current: u8,
    d: LodDims,
    lod: u8,
    states: Seq<u8>,
    epochs: Seq<u8>,
    n: int,
    i: int,
    v: Victim,
)
    requires
        0 <= i < n,
        slot_taken(plan, current, states[i], epochs[i]),
        v == (Victim { key: key_at(d, lod, i), idx: i as u64, access_epoch: epochs[i] }),
    ensures
        level_victims(plan, current, d, lod, states, epochs, n).contains(v),
    decreases n,
{
    let now = level_victims(plan, current, d, lod, states, epochs, n);
    if i < n - 1 {
        lemma_level_has_victim(plan, current, d, lod, states, epochs, n - 1, i, v);
        let front = level_victims(plan, current, d, lod, states, epochs, n - 1);
        let j = front.index_of(v);
        assert(now[j] == v);
    } else {
        assert(now[now.len() - 1] == v);
    }
}

proof fn lemma_levels_have_victim(
    plan: PurgePlan,
    current: u8,
    lods: Seq<LodDims>,
    states: Seq<Seq<u8>>,
    epochs: Seq<Seq<u8>>,
    k: int,
    l: int,
    v: Victim,
)
    requires
        0 <= l < k,
        level_victims(plan, current, lods[l], l as u8, states[l], epochs[l], lods[l].size()).contains(v),
    ensures
        all_victims(plan, current, lods, states, epochs, k).contains(v),
    decreases k,
{
    let now = all_victims(plan, current, lods, states, epochs, k);
    let front = all_victims(plan, current, lods, states, epochs, k - 1);
    if l < k - 1 {
        lemma_levels_have_victim(plan, current, lods, states, epochs, k - 1, l, v);
        let j = front.index_of(v);
        assert(now[j] == v);
    } else {
        let level = level_victims(plan, current, lods[l], l as u8, states[l], epochs[l], lods[l].size());
        let j = level.index_of(v);
        assert(now[front.len() + j] == v);
    }
}

} // verus!
