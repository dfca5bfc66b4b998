//! Stores of downloaded bytes: a keyed store that keeps what was downloaded
//! within a budget, and the anonymous files it falls back on.
//!
//! Reading, writing and removing files is the caller's: the store says which
//! file, whether, and in which order.
use crate::digest;
use crate::digest::sha256_hex;
use crate::text;
use vstd::prelude::*;
use vstd::utf8::*;

verus! {

/// The environment variable that sets the budget, in units of 2^30 bytes. With
/// `0` nothing is kept.
pub const RAW_CACHE_CAP_ENV_VAR: &'static str = "VESUVIUS_RAW_CACHE_GB";

/// The budget where none is set.
pub const DEFAULT_RAW_CACHE_CAP: u64 = 25_769_803_776;

/// How much of the budget an eviction pass leaves in use, in percent.
pub const RAW_EVICT_TO_PCT: u64 = 90;

/// How much the file system must keep free.
pub const RAW_MIN_FREE_BYTES: u64 = 5_368_709_120;

/// Where bytes go that are read once and never looked up by name.
#[derive(Debug)]
pub struct SpillStore {
    pub root: String,
}

/// The name of spill file number `n` of process `pid`.
pub open spec fn spill_name(pid: u32, n: u64) -> Seq<char> {
    "spill-"@ + text::decimal(pid as nat) + "-"@ + text::decimal(n as nat) + ".bin"@
}

impl SpillStore {
    /// A store in directory `root`.
    pub fn new(root: &str) -> (s: SpillStore)
        ensures
            s.root@ == root@,
    {
        SpillStore { root: text::owned(root) }
    }

    /// The path of spill file number `n` of process `pid`.
    pub fn spill_path(&self, pid: u32, n: u64) -> (p: String)
        ensures
            p@ == text::joined_path(self.root@, spill_name(pid, n)),
    {
        let mut name: Vec<char> = Vec::new();
        text::push_text(&mut name, "spill-");
        text::push_decimal(&mut name, pid as u64);
        text::push_text(&mut name, "-");
        text::push_decimal(&mut name, n);
        text::push_text(&mut name, ".bin");
        assert(name@ =~= spill_name(pid, n));
        let name = text::from_chars(&name);
        text::join_path(self.root.as_str(), name.as_str())
    }
}

/// The budget that the environment asks for, in bytes: a whole number of units
/// of 2^30, or else the default one. More than a 64-bit number of bytes counts
/// as the largest such number.
pub open spec fn asked_cap(value: Option<Seq<char>>) -> int {
    match value {
        None => DEFAULT_RAW_CACHE_CAP as int,
        Some(v) => match text::parsed_unsigned(text::trimmed(v), u64::MAX as nat) {
            None => DEFAULT_RAW_CACHE_CAP as int,
            Some(gb) => if gb * 1_073_741_824 > u64::MAX {
                u64::MAX as int
            } else {
                (gb * 1_073_741_824) as int
            },
        },
    }
}

/// The budget that the environment asks for, in bytes.
pub fn cap_from(value: Option<&str>) -> (cap: u64)
    ensures
        cap == asked_cap(
            match value {
                Some(v) => Some(v@),
                None => None,
            },
        ),
{
    match value {
        None => DEFAULT_RAW_CACHE_CAP,
        Some(v) => {
            let chars = text::to_chars(v);
            let inner = text::trim(&chars);
            match text::parse_unsigned(&inner, u64::MAX) {
                None => DEFAULT_RAW_CACHE_CAP,
                Some(gb) => {
                    if gb > u64::MAX / 1_073_741_824 {
                        u64::MAX
                    } else {
                        gb * 1_073_741_824
                    }
                },
            }
        },
    }
}

/// A file of the store's directory.
#[derive(Debug)]
pub struct RawFile {
    pub name: String,
    /// When it was last written or read, in nanoseconds since 1970.
    pub modified: i128,
    pub len: u64,
}

/// Whether a file name has the extension `raw`.
pub open spec fn is_raw(name: Seq<char>) -> bool {
    name.len() > 4 && text::ends_in(name, ".raw"@)
}

fn raw_name(name: &str) -> (r: bool)
    ensures
        r == is_raw(name@),
{
    let chars = text::to_chars(name);
    if chars.len() <= 4 {
        return false;
    }
    let ext = text::to_chars(".raw");
    text::ends_with(&chars, &ext)
}

/// What the first `n` files of the store hold, in bytes.
pub open spec fn bytes_kept(files: Seq<RawFile>, n: int) -> int
    decreases n,
{
    if n <= 0 {
        0
    } else if is_raw(files[n - 1].name@) {
        bytes_kept(files, n - 1) + files[n - 1].len
    } else {
        bytes_kept(files, n - 1)
    }
}

proof fn lemma_bytes_kept_grows(files: Seq<RawFile>, a: int, b: int)
    requires
        0 <= a <= b,
    ensures
        0 <= bytes_kept(files, a) <= bytes_kept(files, b),
    decreases b,
{
    if b > a {
        lemma_bytes_kept_grows(files, a, b - 1);
    } else if a > 0 {
        lemma_bytes_kept_grows(files, a - 1, a - 1);
    }
}

/// What the store holds, in bytes.
pub fn scan_total(files: &[RawFile]) -> (total: u64)
    requires
        bytes_kept(files@, files@.len() as int) <= u64::MAX,
    ensures
        total == bytes_kept(files@, files@.len() as int),
{
    let mut total: u64 = 0;
    let mut i: usize = 0;
    while i < files.len()
        invariant
            i <= files@.len(),
            total == bytes_kept(files@, i as int),
            bytes_kept(files@, files@.len() as int) <= u64::MAX,
        decreases files.len() - i,
    {
        proof {
            lemma_bytes_kept_grows(files@, i + 1, files@.len() as int);
        }
        if raw_name(files[i].name.as_str()) {
            total = total + files[i].len;
        }
        i = i + 1;
    }
    total
}

/// A keyed store of downloaded bytes.
#[derive(Debug)]
pub struct RawStore {
    pub root: String,
    pub cap_bytes: u64,
    /// What the store holds, in bytes, as far as it knows: others may write to
    /// the same directory.
    pub total: u64,
}

/// The name under which the bytes for a key are kept.
pub open spec fn file_name(key: Seq<char>, ext: Seq<char>) -> Seq<char> {
    digest::hex(digest::sha256(encode_utf8(key))) + ext
}

fn keyed_name(key: &str, ext: &str) -> (name: String)
    ensures
        name@ == file_name(key@, ext@),
{
    let mut name = sha256_hex(key.as_bytes());
    text::push_text(&mut name, ext);
    text::from_chars(&name)
}

/// What to do with bytes that came in.
#[derive(Debug, Clone, Copy, PartialEq, Eq, Structural)]
pub enum PutStep {
    /// Write them to an anonymous file: nothing is kept.
    Spill,
    /// Make room for so many bytes, then ask again.
    MakeRoom(u64),
    /// Write them under their key.
    Keep,
}

/// Whether a file system would fall below its floor though `len` bytes of it
/// were freed.
pub open spec fn below_floor(free: Option<u64>, len: u64) -> bool {
    free matches Some(f) && f + len < RAW_MIN_FREE_BYTES
}

impl RawStore {
    /// Whether the store keeps anything.
    pub open spec fn keeps(&self) -> bool {
        self.cap_bytes != 0
    }

    /// Where the bytes for a key are kept.
    pub open spec fn path_text(&self, key: Seq<char>) -> Seq<char> {
        text::joined_path(self.root@, file_name(key, ".raw"@))
    }

    /// Where the bytes for a key are written before they are kept.
    pub open spec fn tmp_text(&self, key: Seq<char>) -> Seq<char> {
        text::joined_path(self.root@, file_name(key, ".tmp"@))
    }

    /// A store in directory `root`, which holds `files`, with the budget that
    /// the environment asks for.
    pub fn new(root: &str, cap: Option<&str>, files: &[RawFile]) -> (s: RawStore)
        requires
            bytes_kept(files@, files@.len() as int) <= u64::MAX,
        ensures
            s.root@ == root@,
            s.cap_bytes == asked_cap(
                match cap {
                    Some(v) => Some(v@),
                    None => None,
                },
            ),
            s.total == bytes_kept(files@, files@.len() as int),
    {
        RawStore::with_cap(root, cap_from(cap), files)
    }

    /// A store in directory `root`, which holds `files`, with a given budget.
    pub fn with_cap(root: &str, cap_bytes: u64, files: &[RawFile]) -> (s: RawStore)
        requires
            bytes_kept(files@, files@.len() as int) <= u64::MAX,
        ensures
            s.root@ == root@,
            s.cap_bytes == cap_bytes,
            s.total == bytes_kept(files@, files@.len() as int),
    {
        RawStore { root: text::owned(root), cap_bytes, total: scan_total(files) }
    }

    /// Where the bytes for a key are kept.
    pub fn path_for(&self, key: &str) -> (p: String)
        ensures
            p@ == self.path_text(key@),
    {
        let name = keyed_name(key, ".raw");
        text::join_path(self.root.as_str(), name.as_str())
    }

    /// Where the bytes for a key are written before they are kept.
    pub fn tmp_path_for(&self, key: &str) -> (p: String)
        ensures
            p@ == self.tmp_text(key@),
    {
        let name = keyed_name(key, ".tmp");
        text::join_path(self.root.as_str(), name.as_str())
    }

    /// The file to read for a key; none if nothing is kept.
    pub fn get(&self, key: &str) -> (p: Option<String>)
        ensures
            match p {
                Some(path) => self.keeps() && path@ == self.path_text(key@),
                None => !self.keeps(),
            },
    {
        if self.cap_bytes == 0 {
            None
        } else {
            Some(self.path_for(key))
        }
    }

    /// What to do with `len` bytes that came in, where the file system has
    /// `free` bytes left, if that is known.
    pub fn put(&self, len: u64, free: Option<u64>) -> (step: PutStep)
        ensures
            step == (if !self.keeps() {
                PutStep::Spill
            } else if below_floor(free, len) {
                PutStep::MakeRoom((RAW_MIN_FREE_BYTES - free->0) as u64)
            } else {
                PutStep::Keep
            }),
    {
        if self.cap_bytes == 0 {
            return PutStep::Spill;
        }
        match free {
            Some(f) => {
                if f < RAW_MIN_FREE_BYTES && len < RAW_MIN_FREE_BYTES - f {
                    PutStep::MakeRoom(RAW_MIN_FREE_BYTES - f)
                } else {
                    PutStep::Keep
                }
            },
            None => PutStep::Keep,
        }
    }

    /// What to do with `len` bytes once room was made: the store gives way
    /// where the file system is still too full.
    pub fn put_after_room(&self, len: u64, free: Option<u64>) -> (step: PutStep)
        ensures
            step == (if !self.keeps() || below_floor(free, len) {
                PutStep::Spill
            } else {
                PutStep::Keep
            }),
    {
        match self.put(len, free) {
            PutStep::Keep => PutStep::Keep,
            _ => PutStep::Spill,
        }
    }

    /// Counts `len` bytes that were kept. Returns whether the store is now over
    /// its budget.
    pub fn kept(&mut self, len: u64) -> (over: bool)
        requires
            old(self).total + len <= u64::MAX,
        ensures
            final(self).total == old(self).total + len,
            final(self).root == old(self).root,
            final(self).cap_bytes == old(self).cap_bytes,
            over == (final(self).total > final(self).cap_bytes),
    {
        self.total = self.total + len;
        self.total > self.cap_bytes
    }

    /// How much an eviction pass over `total` bytes leaves: a part of the
    /// budget, and less where `extra` bytes must go beyond what is there.
    pub open spec fn eviction_target(&self, total: int, extra: Option<u64>) -> int {
        let share = self.cap_bytes * RAW_EVICT_TO_PCT / 100int;
        match extra {
            None => share,
            Some(e) => {
                let rest = if total > e {
                    total - e
                } else {
                    0
                };
                if rest < share {
                    rest
                } else {
                    share
                }
            },
        }
    }

    /// Begins an eviction pass over the files of the directory.
    pub fn begin_evict(&self, files: &[RawFile], extra: Option<u64>) -> (pass: EvictPass)
        requires
            bytes_kept(files@, files@.len() as int) <= u64::MAX,
        ensures
            pass.wf(files@),
            pass.at == 0,
            pass.total == bytes_kept(files@, files@.len() as int),
            pass.target == self.eviction_target(pass.total as int, extra),
    {
        let total = scan_total(files);
        assert(self.cap_bytes as u128 * RAW_EVICT_TO_PCT as u128 == self.cap_bytes * 90);
        let share: u64 = (self.cap_bytes as u128 * RAW_EVICT_TO_PCT as u128 / 100) as u64;
        let target: u64 = match extra {
            None => share,
            Some(e) => {
                let rest: u64 = if total > e {
                    total - e
                } else {
                    0
                };
                if rest < share {
                    rest
                } else {
                    share
                }
            },
        };
        let order = oldest_first(files);
        EvictPass { order, at: 0, total, target }
    }

    /// Takes up what an eviction pass left.
    pub fn end_evict(&mut self, pass: &EvictPass)
        ensures
            final(self).total == pass.total,
            final(self).root == old(self).root,
            final(self).cap_bytes == old(self).cap_bytes,
    {
        self.total = pass.total;
    }
}

/// An eviction pass: the files of the store, oldest first, and how far it got.
#[derive(Debug)]
pub struct EvictPass {
    pub order: Vec<usize>,
    pub at: usize,
    pub total: u64,
    pub target: u64,
}

/// Whether file `a` goes before file `b`: it is older, or as old and listed
/// first.
pub open spec fn goes_before(files: Seq<RawFile>, a: usize, b: usize) -> bool {
    ||| files[a as int].modified < files[b as int].modified
    ||| files[a as int].modified == files[b as int].modified && a < b
}

/// Whether `order` lists the store's files, each once, oldest first.
pub open spec fn is_eviction_order(files: Seq<RawFile>, order: Seq<usize>) -> bool {
    &&& forall|i: int|
        0 <= i < order.len() ==> #[trigger] order[i] < files.len() && is_raw(
            files[order[i] as int].name@,
        )
    &&& forall|f: usize| f < files.len() && is_raw(#[trigger] files[f as int].name@) ==> order.contains(f)
    &&& forall|i: int, j: int|
        0 <= i < j < order.len() ==> #[trigger] goes_before(files, order[i], order[j])
}

/// What the files from position `at` of an order on hold.
pub open spec fn bytes_from(files: Seq<RawFile>, order: Seq<usize>, at: int) -> int
    decreases order.len() - at,
{
    if at < 0 || at >= order.len() {
        0
    } else {
        files[order[at] as int].len + bytes_from(files, order, at + 1)
    }
}

proof fn lemma_inserted(files: Seq<RawFile>, order: Seq<usize>, p: int, x: usize, at: int)
    requires
        0 <= p <= order.len(),
        0 <= at <= order.len() + 1,
    ensures
        at <= p ==> bytes_from(files, order.insert(p, x), at) == bytes_from(files, order, at)
            + files[x as int].len,
        at > p ==> bytes_from(files, order.insert(p, x), at) == bytes_from(files, order, at - 1),
    decreases order.len() + 1 - at,
{
    let wider = order.insert(p, x);
    assert(wider.len() == order.len() + 1);
    if at <= order.len() {
        lemma_inserted(files, order, p, x, at + 1);
        if at < p {
            assert(wider[at] == order[at]);
        } else if at == p {
            assert(wider[at] == x);
        } else {
            assert(wider[at] == order[at - 1]);
        }
    }
}

/// Whether `order` lists the store's files among the first `n`, each once,
/// oldest first.
spec fn orders_first(files: Seq<RawFile>, order: Seq<usize>, n: int) -> bool {
    &&& forall|i: int|
        0 <= i < order.len() ==> #[trigger] order[i] < n && is_raw(files[order[i] as int].name@)
    &&& forall|f: usize| f < n && is_raw(#[trigger] files[f as int].name@) ==> order.contains(f)
    &&& forall|i: int, j: int|
        0 <= i < j < order.len() ==> #[trigger] goes_before(files, order[i], order[j])
}

proof fn lemma_order_inserted(files: Seq<RawFile>, order: Seq<usize>, p: int, x: usize)
    requires
        x < files.len(),
        orders_first(files, order, x as int),
        is_raw(files[x as int].name@),
        0 <= p <= order.len(),
        forall|i: int| 0 <= i < p ==> files[#[trigger] order[i] as int].modified <= files[x as int].modified,
        p < order.len() ==> files[order[p] as int].modified > files[x as int].modified,
    ensures
        orders_first(files, order.insert(p, x), x + 1),
{
    let wider = order.insert(p, x);
    assert forall|f: usize| f < x + 1 && is_raw(#[trigger] files[f as int].name@) implies wider.contains(f) by {
        if f == x {
            assert(wider[p] == x);
        } else {
            let i = order.index_of(f);
            assert(order.contains(f));
            if i < p {
                assert(wider[i] == f);
            } else {
                assert(wider[i + 1] == f);
            }
        }
    }
    assert forall|i: int, j: int| 0 <= i < j < wider.len() implies #[trigger] goes_before(files, wider[i], wider[j]) by {
        let a = if i < p { i } else { i - 1 };
        let b = if j < p { j } else { j - 1 };
        if i == p {
            assert(wider[j] == order[j - 1]);
            if j - 1 > p {
                assert(goes_before(files, order[p], order[j - 1]));
            }
        } else if j == p {
            assert(wider[i] == order[i]);
        } else {
            assert(wider[i] == order[a]);
            assert(wider[j] == order[b]);
            assert(goes_before(files, order[a], order[b]));
        }
    }
    assert forall|i: int| 0 <= i < wider.len() implies #[trigger] wider[i] < x + 1 && is_raw(
        files[wider[i] as int].name@,
    ) by {
        if i < p {
            assert(wider[i] == order[i]);
        } else if i > p {
            assert(wider[i] == order[i - 1]);
        }
    }
}

/// The store's files among `files`, oldest first.
fn oldest_first(files: &[RawFile]) -> (order: Vec<usize>)
    ensures
        is_eviction_order(files@, order@),
        bytes_from(files@, order@, 0) == bytes_kept(files@, files@.len() as int),
{
    let mut order: Vec<usize> = Vec::new();
    let mut i: usize = 0;
    while i < files.len()
        invariant
            i <= files@.len(),
            orders_first(files@, order@, i as int),
            bytes_from(files@, order@, 0) == bytes_kept(files@, i as int),
        decreases files.len() - i,
    {
        if raw_name(files[i].name.as_str()) {
            let mut p: usize = 0;
            while p < order.len() && files[order[p]].modified <= files[i].modified
                invariant
                    i < files@.len(),
                    p <= order@.len(),
                    orders_first(files@, order@, i as int),
                    forall|k: int|
                        0 <= k < p ==> files@[#[trigger] order@[k] as int].modified
                            <= files@[i as int].modified,
                decreases order.len() - p,
            {
                p = p + 1;
            }
            proof {
                lemma_order_inserted(files@, order@, p as int, i);
                lemma_inserted(files@, order@, p as int, i, 0);
            }
            order.insert(p, i);
        }
        i = i + 1;
    }
    order
}

impl EvictPass {
    /// The order is right, and what is left of it is counted.
    pub open spec fn wf(&self, files: Seq<RawFile>) -> bool {
        &&& is_eviction_order(files, self.order@)
        &&& self.at <= self.order@.len()
        &&& bytes_from(files, self.order@, self.at as int) <= self.total
    }

    /// The next file to remove; none once enough is gone.
    pub open spec fn victim(&self) -> Option<usize> {
        if self.total > self.target && self.at < self.order@.len() {
            Some(self.order@[self.at as int])
        } else {
            None
        }
    }

    /// The next file to remove, by its place in the listing; none once enough
    /// is gone.
    pub fn next(&self) -> (v: Option<usize>)
        ensures
            v == self.victim(),
    {
        if self.total > self.target && self.at < self.order.len() {
            Some(self.order[self.at])
        } else {
            None
        }
    }

    /// Notes whether the file to remove was removed.
    pub fn removed(&mut self, files: &[RawFile], gone: bool)
        requires
            old(self).wf(files@),
            old(self).victim() is Some,
        ensures
            final(self).wf(files@),
            final(self).order == old(self).order,
            final(self).target == old(self).target,
            final(self).at == old(self).at + 1,
            final(self).total == (if gone {
                old(self).total - files@[old(self).victim()->0 as int].len
            } else {
                old(self).total as int
            }),
    {
        let f = self.order[self.at];
        assert(self.at < self.order.len());
        proof {
            lemma_bytes_from_nonneg(files@, self.order@, self.at + 1);
        }
        if gone {
            self.total = self.total - files[f].len;
        }
        self.at = self.at + 1;
    }
}

proof fn lemma_bytes_from_nonneg(files: Seq<RawFile>, order: Seq<usize>, at: int)
    ensures
        bytes_from(files, order, at) >= 0,
    decreases order.len() - at,
{
    if 0 <= at < order.len() {
        lemma_bytes_from_nonneg(files, order, at + 1);
    }
}

/// How many bytes are left, where every file to remove was removed from
/// position `at` on.
pub open spec fn left_after(files: Seq<RawFile>, order: Seq<usize>, at: int, total: int, target: int) -> int
    decreases order.len() - at,
{
    if total > target && 0 <= at < order.len() {
        left_after(files, order, at + 1, total - files[order[at] as int].len, target)
    } else {
        total
    }
}

/// An eviction pass in which every removal succeeds ends at or below its
/// target.
pub proof fn law_pass_reaches_its_target(
    files: Seq<RawFile>,
    order: Seq<usize>,
    at: int,
    total: int,
    target: int,
)
    requires
        0 <= at <= order.len(),
        0 <= target,
        total == bytes_from(files, order, at),
    ensures
        left_after(files, order, at, total, target) <= target,
    decreases order.len() - at,
{
    if total > target && at < order.len() {
        law_pass_reaches_its_target(
            files,
            order,
            at + 1,
            total - files[order[at] as int].len,
            target,
        );
    }
}

/// A pass removes no file while an older one of the store stands: what it
/// comes to later is no older.
pub proof fn law_oldest_goes_first(files: Seq<RawFile>, pass: EvictPass, i: int, j: int)
    requires
        pass.wf(files),
        0 <= i <= j < pass.order@.len(),
    ensures
        files[pass.order@[i] as int].modified <= files[pass.order@[j] as int].modified,
{
    if i < j {
        assert(goes_before(files, pass.order@[i], pass.order@[j]));
    }
}

/// A directory after bytes were written to `tmp` and that file was renamed to
/// `path`.
pub open spec fn written(
    dir: Map<Seq<char>, Seq<u8>>,
    tmp: Seq<char>,
    path: Seq<char>,
    bytes: Seq<u8>,
) -> Map<Seq<char>, Seq<u8>> {
    dir.insert(tmp, bytes).remove(tmp).insert(path, bytes)
}

/// What the store gives for a key, where the directory holds `dir`: an empty
/// file counts as none.
pub open spec fn found(store: RawStore, dir: Map<Seq<char>, Seq<u8>>, key: Seq<char>) -> Option<Seq<u8>> {
    let path = store.path_text(key);
    if store.keeps() && dir.contains_key(path) && dir[path].len() > 0 {
        Some(dir[path])
    } else {
        None
    }
}

/// Whether a file of `len` bytes is a hit.
pub fn is_hit(len: u64) -> (r: bool)
    ensures
        r == (len > 0),
{
    len > 0
}

/// What was put under a key is found under it.
pub proof fn law_put_is_found(store: RawStore, dir: Map<Seq<char>, Seq<u8>>, key: Seq<char>, bytes: Seq<u8>)
    requires
        store.keeps(),
        bytes.len() > 0,
    ensures
        found(store, written(dir, store.tmp_text(key), store.path_text(key), bytes), key) == Some(bytes),
{
}

/// A store that keeps nothing finds nothing.
pub proof fn law_disabled_store_finds_nothing(store: RawStore, dir: Map<Seq<char>, Seq<u8>>, key: Seq<char>)
    requires
        store.cap_bytes == 0,
    ensures
        found(store, dir, key) is None,
{
}

proof fn lemma_file_name_parts(key: Seq<char>, ext: Seq<char>, root: Seq<char>)
    requires
        ext.len() == 4,
    ensures
        ({
            let p = text::joined_path(root, file_name(key, ext));
            &&& p.skip(p.len() - 4) == ext
            &&& p.len() >= 4
        }),
{
    let p = text::joined_path(root, file_name(key, ext));
    assert(p.skip(p.len() - 4) =~= ext);
}

/// Putting bytes under a key changes nothing for keys with another digest.
pub proof fn law_put_leaves_other_keys(
    store: RawStore,
    dir: Map<Seq<char>, Seq<u8>>,
    key: Seq<char>,
    other: Seq<char>,
    bytes: Seq<u8>,
)
    requires
        digest::sha256(encode_utf8(key)) != digest::sha256(encode_utf8(other)),
    ensures
        found(store, written(dir, store.tmp_text(key), store.path_text(key), bytes), other) == found(
            store,
            dir,
            other,
        ),
{
    reveal_strlit(".raw");
    reveal_strlit(".tmp");
    let a = digest::hex(digest::sha256(encode_utf8(key)));
    let b = digest::hex(digest::sha256(encode_utf8(other)));
    if a == b {
        digest::law_hex_is_faithful(
            digest::sha256(encode_utf8(key)),
            digest::sha256(encode_utf8(other)),
        );
    }
    let pa = store.path_text(key);
    let pb = store.path_text(other);
    let head = text::joined_path(store.root@, Seq::empty());
    assert(pa =~= head + a + ".raw"@);
    assert(pb =~= head + b + ".raw"@);
    if pa == pb {
        assert((head + a + ".raw"@).len() == (head + b + ".raw"@).len());
        assert(pa.subrange(head.len() as int, (head.len() + a.len()) as int) =~= a);
        assert(pb.subrange(head.len() as int, (head.len() + b.len()) as int) =~= b);
    }
    lemma_file_name_parts(key, ".tmp"@, store.root@);
    lemma_file_name_parts(other, ".raw"@, store.root@);
    if store.tmp_text(key) == pb {
        assert(".tmp"@[1] != ".raw"@[1]);
    }
}

/// An eviction pass aims at nine tenths of the budget, and lower where more
/// bytes must go than that takes: then all of them go, as far as there are so
/// many.
pub proof fn law_eviction_makes_the_room_asked_for(store: RawStore, total: int, extra: Option<u64>)
    requires
        total >= 0,
    ensures
        ({
            let target = store.eviction_target(total, extra);
            &&& 0 <= target <= (store.cap_bytes * 9) / 10int
            &&& extra is None ==> target == (store.cap_bytes * 9) / 10int
            &&& extra matches Some(e) ==> (total - target >= e || target == 0)
            &&& extra matches Some(e) ==> (target == (store.cap_bytes * 9) / 10int || target == total - e
                || target == 0)
        }),
{
    let c = store.cap_bytes as int;
    assert((c * 90) / 100 == (c * 9) / 10);
}

/// Bytes are kept only where the file system keeps five gibibytes free with
/// room made for them, and the room asked for is what it lacks.
pub proof fn law_floor_is_five_gibibytes(free: u64, len: u64)
    ensures
        below_floor(Some(free), len) <==> free + len < 5 * 1024 * 1024 * 1024,
        !below_floor(None, len),
{
}

/// What the store keeps is the sum of its files: one more counts with its
/// length, and a file of another kind not at all.
pub proof fn law_files_add_up(files: Seq<RawFile>, f: RawFile)
    ensures
        bytes_kept(files.push(f), (files.len() + 1) as int) == bytes_kept(files, files.len() as int) + (if f.name@.len()
            > 4 && f.name@.skip(f.name@.len() - 4) == ".raw"@ {
            f.len as int
        } else {
            0
        }),
{
    reveal_strlit(".raw");
    lemma_kept_prefix(files, f, files.len() as int);
    let n = f.name@;
    if n.len() > 4 {
        assert(n.skip(n.len() - 4) =~= n.subrange(n.len() - 4, n.len() as int));
    }
}

proof fn lemma_kept_prefix(files: Seq<RawFile>, f: RawFile, n: int)
    requires
        n <= files.len(),
    ensures
        bytes_kept(files.push(f), n) == bytes_kept(files, n),
    decreases n,
{
    if n > 0 {
        lemma_kept_prefix(files, f, n - 1);
    }
}

/// A budget that is asked for counts in gibibytes, with or without white space
/// around it, as far as numbers go.
pub proof fn law_budget_counts_in_gibibytes(before: Seq<char>, n: u64, after: Seq<char>)
    requires
        forall|i: int| 0 <= i < before.len() ==> text::is_white_space(#[trigger] before[i]),
        forall|i: int| 0 <= i < after.len() ==> text::is_white_space(#[trigger] after[i]),
    ensures
        ({
            let cap = asked_cap(Some(before + text::decimal(n as nat) + after));
            &&& n < 0x4_0000_0000 ==> cap == 1_073_741_824 * n
            &&& n >= 0x4_0000_0000 ==> cap == 0xFFFF_FFFF_FFFF_FFFF
        }),
{
    text::law_numeral_needs_no_trimming(before, n as nat, after);
    text::law_numeral_reads_back(n as nat, 0, u64::MAX as nat);
}

} // verus!
