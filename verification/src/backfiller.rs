//! What a volume's source tells the cache: plans, outcomes and errors.
use crate::chunk::ChunkKey;
use crate::text;
use vstd::prelude::*;
use vstd::string::*;

verus! {

/// Why a fetch failed for now.
#[derive(Debug)]
pub enum Reason {
    /// The task queue takes no more work.
    CacheQueueFull,
    /// The work waited longer than the age limit.
    StaleOnPop,
    /// The task queue was shut down.
    QueueClosed,
    /// A download waited longer than the age limit.
    AgedOut,
    /// What the source or the network reported.
    Reported(String),
}

impl Reason {
    /// The reason in words.
    pub open spec fn words(self) -> Seq<char> {
        match self {
            Reason::CacheQueueFull => "cache queue full"@,
            Reason::StaleOnPop => "stale on pop"@,
            Reason::QueueClosed => "queue closed"@,
            Reason::AgedOut => "download: aged out"@,
            Reason::Reported(s) => s@,
        }
    }

    /// The reason in words.
    pub fn text(&self) -> (s: String)
        ensures
            s@ == self.words(),
    {
        match self {
            Reason::CacheQueueFull => text::owned("cache queue full"),
            Reason::StaleOnPop => text::owned("stale on pop"),
            Reason::QueueClosed => text::owned("queue closed"),
            Reason::AgedOut => text::owned("download: aged out"),
            Reason::Reported(s) => s.clone(),
        }
    }
}

/// Why a chunk or a source could not be had.
#[derive(Debug)]
pub enum BackfillError {
    /// The chunk lies outside the volume.
    OutOfBounds,
    /// Trying again is no use.
    Permanent(String),
    /// Trying again later may help.
    Transient(Reason),
}

/// A handle on what a source delivered.
#[derive(Debug, Clone, Copy, PartialEq, Eq, Structural)]
pub enum SourcePayload {
    /// Bytes that the host keeps under this number.
    Bytes(u64),
    /// Another cache chunk, now resident.
    Chunk(ChunkKey),
}

/// What became of a source: its payload, its absence, or an error.
pub type SourceOutcome = Result<Option<SourcePayload>, BackfillError>;

/// Where a source comes from. Sources are named by number, see `SourceNames`.
#[derive(Debug)]
pub enum SourceSpec {
    /// A task for the cache's own workers.
    Compute { source: u64 },
    /// Another chunk of the cache.
    Chunk { source: u64, child: ChunkKey },
    /// A download of a whole object or of `(offset, length)` bytes of it.
    Download { source: u64, url: String, range: Option<(u64, u64)> },
}

impl SourceSpec {
    /// The source's number.
    pub open spec fn id(self) -> u64 {
        match self {
            SourceSpec::Compute { source } => source,
            SourceSpec::Chunk { source, .. } => source,
            SourceSpec::Download { source, .. } => source,
        }
    }

    /// The source's number.
    pub fn key(&self) -> (id: u64)
        ensures
            id == self.id(),
    {
        match self {
            SourceSpec::Compute { source } => *source,
            SourceSpec::Chunk { source, .. } => *source,
            SourceSpec::Download { source, .. } => *source,
        }
    }
}

/// How one chunk is to be filled: the chunks that the fill will cover and the
/// sources it needs, in the order in which it wants their outcomes.
#[derive(Debug)]
pub struct BackfillPlan {
    pub covered: Vec<ChunkKey>,
    pub sources: Vec<SourceSpec>,
}

/// What a fill gives for one chunk.
#[derive(Debug)]
pub enum ExtractedChunk {
    Bytes(Vec<u8>),
    Empty,
}

/// A copy of a reason.
pub fn copy_reason(r: &Reason) -> (c: Reason)
    ensures
        c == *r,
{
    match r {
        Reason::CacheQueueFull => Reason::CacheQueueFull,
        Reason::StaleOnPop => Reason::StaleOnPop,
        Reason::QueueClosed => Reason::QueueClosed,
        Reason::AgedOut => Reason::AgedOut,
        Reason::Reported(s) => Reason::Reported(s.clone()),
    }
}

/// A copy of an error.
pub fn copy_error(e: &BackfillError) -> (c: BackfillError)
    ensures
        c == *e,
{
    match e {
        BackfillError::OutOfBounds => BackfillError::OutOfBounds,
        BackfillError::Permanent(s) => BackfillError::Permanent(s.clone()),
        BackfillError::Transient(r) => BackfillError::Transient(copy_reason(r)),
    }
}

/// A copy of an outcome.
pub fn copy_outcome(o: &SourceOutcome) -> (c: SourceOutcome)
    ensures
        c == *o,
{
    match o {
        Ok(p) => Ok(*p),
        Err(e) => Err(copy_error(e)),
    }
}

/// The names that sources are known by, each with a number that stays its own.
pub struct SourceNames {
    pub names: Vec<String>,
}

impl SourceNames {
    /// Whether number `id` is name `name`'s.
    pub open spec fn is_named(&self, id: int, name: Seq<char>) -> bool {
        0 <= id < self.names@.len() && self.names@[id]@ == name
    }

    /// No two numbers have one name.
    pub open spec fn wf(&self) -> bool {
        forall|i: int, j: int|
            0 <= i < self.names@.len() && 0 <= j < self.names@.len() && (#[trigger] self.names@[i])@
                == (#[trigger] self.names@[j])@ ==> i == j
    }

    /// No names yet.
    pub fn new() -> (r: SourceNames)
        ensures
            r.wf(),
            r.names@.len() == 0,
    {
        SourceNames { names: Vec::new() }
    }

    /// The number of `name`, which is a new one if the name is new.
    pub fn intern(&mut self, name: &str) -> (id: u64)
        requires
            old(self).wf(),
            old(self).names@.len() < usize::MAX,
        ensures
            final(self).wf(),
            final(self).is_named(id as int, name@),
            (exists|i: int| old(self).is_named(i, name@)) ==> final(self).names@ == old(self).names@,
            !(exists|i: int| old(self).is_named(i, name@)) ==> {
                &&& id == old(self).names@.len()
                &&& final(self).names@.len() == old(self).names@.len() + 1
                &&& final(self).names@.take(id as int) == old(self).names@
            },
    {
        let mut i: usize = 0;
        while i < self.names.len()
            invariant
                *self == *old(self),
                self.wf(),
                i <= self.names@.len(),
                forall|j: int| 0 <= j < i ==> (#[trigger] self.names@[j])@ != name@,
            decreases self.names.len() - i,
        {
            if text::same_text(self.names[i].as_str(), name) {
                assert(self.is_named(i as int, name@));
                return i as u64;
            }
            i = i + 1;
        }
        let ghost before = self.names@;
        assert forall|j: int| !old(self).is_named(j, name@) by {}
        self.names.push(text::owned(name));
        assert(self.names@.take(i as int) =~= before);
        assert forall|a: int, b: int|
            0 <= a < self.names@.len() && 0 <= b < self.names@.len() && (#[trigger] self.names@[a])@
                == (#[trigger] self.names@[b])@ implies a == b by {
            if a < before.len() && b < before.len() {
                assert(before[a]@ == before[b]@);
            }
        }
        i as u64
    }
}

/// Numbers never change hands: what a name's number was before another name
/// was added, it is after.
pub proof fn law_names_keep_their_numbers(
    before: SourceNames,
    after: SourceNames,
    id: int,
    name: Seq<char>,
)
    requires
        before.is_named(id, name),
        after.names@ == before.names@ || (after.names@.len() == before.names@.len() + 1
            && after.names@.take(before.names@.len() as int) == before.names@),
    ensures
        after.is_named(id, name),
{
    if after.names@ != before.names@ {
        assert(after.names@.take(before.names@.len() as int)[id] == after.names@[id]);
    }
}

} // verus!
