//! Two bits of state for every chunk of a shard.
use vstd::prelude::*;

verus! {

/// What a shard's map says about one of its chunks.
#[derive(Copy, Clone, Debug, PartialEq, Eq, Structural)]
pub enum ChunkBitState {
    /// Never looked at; a reader looks further, at coarser levels.
    Unknown,
    /// A fetch is under way; a reader still looks further.
    Dispatched,
    /// The voxels stand in the shard.
    Resident,
    /// There is no data; a reader takes zero and looks no further.
    Empty,
}

impl ChunkBitState {
    /// The two bits that stand for the state.
    pub open spec fn code(self) -> u64 {
        match self {
            ChunkBitState::Unknown => 0,
            ChunkBitState::Dispatched => 1,
            ChunkBitState::Resident => 2,
            ChunkBitState::Empty => 3,
        }
    }

    /// The state that two bits stand for.
    pub open spec fn of_code(bits: u64) -> ChunkBitState {
        if bits == 0 {
            ChunkBitState::Unknown
        } else if bits == 1 {
            ChunkBitState::Dispatched
        } else if bits == 2 {
            ChunkBitState::Resident
        } else {
            ChunkBitState::Empty
        }
    }

    fn bits(self) -> (b: u64)
        ensures
            b == self.code(),
            b <= 3,
    {
        match self {
            ChunkBitState::Unknown => 0,
            ChunkBitState::Dispatched => 1,
            ChunkBitState::Resident => 2,
            ChunkBitState::Empty => 3,
        }
    }
}

/// The states of a shard's chunks, thirty-two to a word.
pub struct ChunkStateBits {
    pub words: Vec<u64>,
}

/// The two bits at `shift`.
pub open spec fn field(word: u64, shift: u64) -> u64 {
    (word >> shift) & 3
}

/// `word` with the two bits at `shift` replaced.
pub open spec fn with_field(word: u64, shift: u64, bits: u64) -> u64 {
    (word & !(3u64 << shift)) | (bits << shift)
}

proof fn lemma_field_replaced(word: u64, shift: u64, bits: u64)
    requires
        shift <= 62,
        bits <= 3,
    ensures
        field(with_field(word, shift, bits), shift) == bits,
{
    assert((((word & !(3u64 << shift)) | (bits << shift)) >> shift) & 3 == bits) by (bit_vector)
        requires
            shift <= 62,
            bits <= 3,
    ;
}

proof fn lemma_field_kept(word: u64, shift: u64, bits: u64, other: u64)
    requires
        shift <= 62,
        other <= 62,
        shift % 2 == 0,
        other % 2 == 0,
        shift != other,
        bits <= 3,
    ensures
        field(with_field(word, shift, bits), other) == field(word, other),
{
    assert((((word & !(3u64 << shift)) | (bits << shift)) >> other) & 3 == (word >> other) & 3)
        by (bit_vector)
        requires
            shift <= 62,
            other <= 62,
            shift % 2 == 0,
            other % 2 == 0,
            shift != other,
            bits <= 3,
    ;
}

impl ChunkStateBits {
    /// How many chunks the map has room for.
    pub open spec fn room(&self) -> int {
        self.words@.len() as int * 32
    }

    /// The state of chunk `i`.
    pub open spec fn at(&self, i: int) -> ChunkBitState {
        ChunkBitState::of_code(field(self.words@[i / 32], (2 * (i % 32)) as u64))
    }

    /// A map for `num_chunks` chunks, none of them known.
    pub fn new(num_chunks: u64) -> (b: ChunkStateBits)
        requires
            num_chunks <= usize::MAX,
        ensures
            num_chunks <= b.room() < num_chunks + 32,
            forall|i: int| 0 <= i < b.room() ==> #[trigger] b.at(i) == ChunkBitState::Unknown,
    {
        let full: u64 = num_chunks / 32;
        let n: u64 = if num_chunks % 32 == 0 { full } else { full + 1 };
        let words: Vec<u64> = vec![0u64; n as usize];
        let b = ChunkStateBits { words };
        assert forall|i: int| 0 <= i < b.room() implies #[trigger] b.at(i)
            == ChunkBitState::Unknown by {
            let shift = (2 * (i % 32)) as u64;
            assert(b.words@[i / 32] == 0);
            assert((0u64 >> shift) & 3 == 0) by (bit_vector);
        }
        b
    }

    /// The state of one chunk.
    pub fn load(&self, in_shard_idx: u64) -> (s: ChunkBitState)
        requires
            in_shard_idx < self.room(),
        ensures
            s == self.at(in_shard_idx as int),
    {
        assert(self.words@.len() == self.words.len());
        let word = self.words[(in_shard_idx / 32) as usize];
        let shift: u64 = 2 * (in_shard_idx % 32);
        let bits: u64 = (word >> shift) & 3;
        if bits == 0 {
            ChunkBitState::Unknown
        } else if bits == 1 {
            ChunkBitState::Dispatched
        } else if bits == 2 {
            ChunkBitState::Resident
        } else {
            ChunkBitState::Empty
        }
    }

    /// Stores the state of one chunk and leaves all others.
    pub fn store(&mut self, in_shard_idx: u64, state: ChunkBitState)
        requires
            in_shard_idx < old(self).room(),
        ensures
            final(self).room() == old(self).room(),
            final(self).at(in_shard_idx as int) == state,
            forall|j: int|
                0 <= j < old(self).room() && j != in_shard_idx ==> #[trigger] final(self).at(j)
                    == old(self).at(j),
    {
        assert(self.words@.len() == self.words.len());
        let at = (in_shard_idx / 32) as usize;
        let shift: u64 = 2 * (in_shard_idx % 32);
        let bits = state.bits();
        let word = self.words[at];
        let mask: u64 = 3u64 << shift;
        let next: u64 = (word & !mask) | (bits << shift);
        self.words.set(at, next);
        proof {
            lemma_field_replaced(word, shift, bits);
            assert(next == with_field(word, shift, bits));
            assert forall|j: int|
                0 <= j < old(self).room() && j != in_shard_idx implies #[trigger] self.at(j) == old(
                self,
            ).at(j) by {
                if j / 32 == in_shard_idx / 32 {
                    lemma_field_kept(word, shift, bits, (2 * (j % 32)) as u64);
                }
            }
        }
    }

    /// Stores the state of one chunk if nothing is known of it, and says
    /// whether it did.
    pub fn store_if_unknown(&mut self, in_shard_idx: u64, state: ChunkBitState) -> (r: bool)
        requires
            in_shard_idx < old(self).room(),
        ensures
            r == (old(self).at(in_shard_idx as int) == ChunkBitState::Unknown),
            final(self).room() == old(self).room(),
            !r ==> *final(self) == *old(self),
            r ==> final(self).at(in_shard_idx as int) == state,
            forall|j: int|
                0 <= j < old(self).room() && j != in_shard_idx ==> #[trigger] final(self).at(j)
                    == old(self).at(j),
    {
        if self.load(in_shard_idx) != ChunkBitState::Unknown {
            return false;
        }
        self.store(in_shard_idx, state);
        true
    }
}

} // verus!
