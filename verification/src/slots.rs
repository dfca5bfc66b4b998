//! The cache's per-chunk records.
use crate::backfiller::SourceOutcome;
use crate::chunk::{ChunkKey, ChunkState};
use crate::index::ChunkIndex;
use vstd::prelude::*;

verus! {

/// A chunk whose sources are being gathered.
pub struct ChunkProgress {
    /// The sources, in the order in which the fill wants their outcomes.
    pub order: Vec<u64>,
    /// How many sources are still open.
    pub remaining: usize,
    /// The outcomes so far.
    pub results: Vec<(u64, SourceOutcome)>,
    /// The chunks that the fill covers.
    pub covered: Vec<ChunkKey>,
}

/// `ChunkProgress` as mathematics.
#[verifier::ext_equal]
pub struct ProgressModel {
    pub order: Seq<u64>,
    pub remaining: nat,
    pub results: Seq<(u64, SourceOutcome)>,
    pub covered: Seq<ChunkKey>,
}

impl ChunkProgress {
    pub open spec fn model(&self) -> ProgressModel {
        ProgressModel {
            order: self.order@,
            remaining: self.remaining as nat,
            results: self.results@,
            covered: self.covered@,
        }
    }
}

/// Everything the cache keeps about one chunk.
pub struct Slot {
    pub state: Option<ChunkState>,
    /// A dispatch of the chunk is under way.
    pub dispatching: bool,
    pub progress: Option<ChunkProgress>,
    /// The sources that stand for this chunk and wait for its fate.
    pub waiting: Vec<u64>,
}

/// `Slot` as mathematics.
#[verifier::ext_equal]
pub struct SlotModel {
    pub state: Option<ChunkState>,
    pub dispatching: bool,
    pub progress: Option<ProgressModel>,
    pub waiting: Seq<u64>,
}

impl Slot {
    pub open spec fn model(&self) -> SlotModel {
        SlotModel {
            state: self.state,
            dispatching: self.dispatching,
            progress: match self.progress {
                Some(p) => Some(p.model()),
                None => None,
            },
            waiting: self.waiting@,
        }
    }

    /// The record of a chunk that nothing is known about.
    pub fn vacant() -> (s: Slot)
        ensures
            s.model() == SlotModel::vacant(),
    {
        let s = Slot { state: None, dispatching: false, progress: None, waiting: Vec::new() };
        assert(s.model() =~= SlotModel::vacant());
        s
    }
}

impl SlotModel {
    /// The record of a chunk that nothing is known about.
    pub open spec fn vacant() -> SlotModel {
        SlotModel { state: None, dispatching: false, progress: None, waiting: Seq::empty() }
    }
}

/// A record for every chunk; vacant until one is put.
pub struct SlotTable {
    index: ChunkIndex,
    slots: Vec<Slot>,
}

impl View for SlotTable {
    type V = Map<ChunkKey, SlotModel>;

    closed spec fn view(&self) -> Map<ChunkKey, SlotModel> {
        Map::new(
            |k: ChunkKey| true,
            |k: ChunkKey|
                if self.index@.contains_key(k) {
                    self.slots@[self.index@[k] as int].model()
                } else {
                    SlotModel::vacant()
                },
        )
    }
}

impl SlotTable {
    /// Every indexed chunk has a record, and no two share one.
    pub closed spec fn wf(&self) -> bool {
        &&& forall|k: ChunkKey|
            #[trigger] self.index@.contains_key(k) ==> self.index@[k] < self.slots@.len()
        &&& forall|j: ChunkKey, k: ChunkKey|
            #[trigger] self.index@.contains_key(j) && #[trigger] self.index@.contains_key(k)
                && self.index@[j] == self.index@[k] ==> j == k
    }

    /// The table in which every record is vacant.
    pub fn new() -> (t: SlotTable)
        ensures
            t.wf(),
            forall|k: ChunkKey| #[trigger] t@[k] == SlotModel::vacant(),
            t@.dom() == Set::<ChunkKey>::full(),
    {
        let t = SlotTable { index: ChunkIndex::new(), slots: Vec::new() };
        assert(t@.dom() =~= Set::<ChunkKey>::full());
        t
    }

    /// The table covers every chunk.
    pub proof fn lemma_total(&self)
        ensures
            self@.dom() == Set::<ChunkKey>::full(),
    {
        assert(self@.dom() =~= Set::<ChunkKey>::full());
    }

    /// What is known about a chunk's state.
    pub fn state(&self, key: ChunkKey) -> (s: Option<ChunkState>)
        requires
            self.wf(),
        ensures
            s == self@[key].state,
    {
        match self.index.get(key) {
            Some(i) => {
                assert(self.index@.contains_key(key));
                assert(self.slots@.len() == self.slots.len());
                self.slots[i as usize].state
            },
            None => None,
        }
    }

    /// Takes a chunk's record out and leaves a vacant one.
    pub fn take(&mut self, key: ChunkKey) -> (s: Slot)
        requires
            old(self).wf(),
        ensures
            final(self).wf(),
            s.model() == old(self)@[key],
            final(self)@ == old(self)@.insert(key, SlotModel::vacant()),
    {
        let ghost before = self@;
        let mut s = Slot::vacant();
        if let Some(i) = self.index.get(key) {
            assert(self.index@.contains_key(key));
            assert(self.slots@.len() == self.slots.len());
            let mut fresh = Slot::vacant();
            std::mem::swap(&mut fresh, &mut self.slots[i as usize]);
            s = fresh;
        }
        assert(self@ =~= before.insert(key, SlotModel::vacant()));
        s
    }

    /// Puts a chunk's record.
    pub fn put(&mut self, key: ChunkKey, slot: Slot)
        requires
            old(self).wf(),
        ensures
            final(self).wf(),
            final(self)@ == old(self)@.insert(key, slot.model()),
    {
        let ghost before = self@;
        let ghost model = slot.model();
        match self.index.get(key) {
            Some(i) => {
                assert(self.index@.contains_key(key));
                assert(self.slots@.len() == self.slots.len());
                self.slots.set(i as usize, slot);
            },
            None => {
                let i = self.slots.len();
                self.slots.push(slot);
                self.index.insert(key, i as u64);
            },
        }
        assert(self@ =~= before.insert(key, model));
    }

    /// Sets a chunk's state and leaves the rest of its record.
    pub fn set_state(&mut self, key: ChunkKey, state: Option<ChunkState>)
        requires
            old(self).wf(),
        ensures
            final(self).wf(),
            final(self)@ == old(self)@.insert(key, (SlotModel { state, ..old(self)@[key] })),
    {
        let ghost before = self@;
        let mut s = self.take(key);
        s.state = state;
        self.put(key, s);
        assert(self@ =~= before.insert(key, (SlotModel { state, ..before[key] })));
    }
}

} // verus!
