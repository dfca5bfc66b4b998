//! Downloads: which chunks have one on the wire, what to ask a server for, and
//! what its answer means.
use crate::backfiller::{BackfillError, Reason, SourceOutcome, SourcePayload};
use crate::chunk::ChunkKey;
use crate::index::ChunkIndex;
use crate::text;
use vstd::prelude::*;

verus! {

/// Why a download failed.
#[derive(Debug)]
pub enum DownloadError {
    /// Trying again later may help.
    Transient(String),
}

/// How many downloads are on the wire, for each chunk and in all.
pub struct Downloader {
    active: ChunkIndex,
    in_flight: u64,
}

impl View for Downloader {
    type V = Map<ChunkKey, u64>;

    closed spec fn view(&self) -> Map<ChunkKey, u64> {
        self.active@
    }
}

impl Downloader {
    /// No chunk stands with a count of zero.
    pub open spec fn wf(&self) -> bool {
        forall|k: ChunkKey| self@.contains_key(k) ==> #[trigger] self@[k] > 0
    }

    /// How many downloads are on the wire.
    pub closed spec fn count(&self) -> u64 {
        self.in_flight
    }

    /// How many downloads a chunk has on the wire.
    pub open spec fn count_of(&self, chunk: ChunkKey) -> int {
        if self@.contains_key(chunk) {
            self@[chunk] as int
        } else {
            0
        }
    }

    /// Nothing on the wire.
    pub fn new() -> (d: Downloader)
        ensures
            d.wf(),
            d@ == Map::<ChunkKey, u64>::empty(),
            d.count() == 0,
    {
        Downloader { active: ChunkIndex::new(), in_flight: 0 }
    }

    /// Notes that a download for a chunk begins. Returns how many are now on
    /// the wire.
    pub fn begin(&mut self, chunk: ChunkKey) -> (n: u64)
        requires
            old(self).wf(),
            old(self).count() < u64::MAX,
            old(self).count_of(chunk) < u64::MAX,
        ensures
            final(self).wf(),
            final(self)@ == old(self)@.insert(chunk, (old(self).count_of(chunk) + 1) as u64),
            final(self).count() == old(self).count() + 1,
            n == final(self).count(),
    {
        let n: u64 = match self.active.get(chunk) {
            Some(n) => n,
            None => 0,
        };
        self.active.insert(chunk, n + 1);
        self.in_flight = self.in_flight + 1;
        self.in_flight
    }

    /// Notes that a download for a chunk has ended. The chunk's last takes its
    /// entry with it.
    pub fn end(&mut self, chunk: ChunkKey)
        requires
            old(self).wf(),
            old(self).count() > 0,
        ensures
            final(self).wf(),
            final(self)@ == (if old(self).count_of(chunk) <= 1 {
                old(self)@.remove(chunk)
            } else {
                old(self)@.insert(chunk, (old(self).count_of(chunk) - 1) as u64)
            }),
            final(self).count() == old(self).count() - 1,
    {
        let ghost before = self@;
        match self.active.get(chunk) {
            Some(n) => {
                if n <= 1 {
                    self.active.remove(chunk);
                } else {
                    self.active.insert(chunk, n - 1);
                }
            },
            None => {
                assert(self@ =~= before.remove(chunk));
            },
        }
        self.in_flight = self.in_flight - 1;
    }

    /// Whether a download for the chunk is on the wire. One that waits in the
    /// queue does not count.
    pub fn is_active_chunk(&self, chunk: ChunkKey) -> (r: bool)
        requires
            self.wf(),
        ensures
            r == (self.count_of(chunk) > 0),
    {
        self.active.get(chunk).is_some()
    }
}

/// A download that ends leaves no trace: the chunk stands as it did before it
/// began.
pub proof fn law_download_leaves_no_trace(m: Map<ChunkKey, u64>, chunk: ChunkKey)
    requires
        m.contains_key(chunk) ==> 0 < m[chunk] < u64::MAX,
    ensures
        ({
            let n = if m.contains_key(chunk) {
                m[chunk] as int
            } else {
                0
            };
            let begun = m.insert(chunk, (n + 1) as u64);
            let ended = if begun[chunk] <= 1 {
                begun.remove(chunk)
            } else {
                begun.insert(chunk, (begun[chunk] - 1) as u64)
            };
            ended == m
        }),
{
    let n = if m.contains_key(chunk) {
        m[chunk] as int
    } else {
        0
    };
    let begun = m.insert(chunk, (n + 1) as u64);
    if n == 0 {
        assert(begun.remove(chunk) =~= m);
    } else {
        assert(begun.insert(chunk, n as u64) =~= m);
    }
}

/// `a + b`, held at the largest number there is.
pub open spec fn held_sum(a: u64, b: u64) -> u64 {
    if a + b > u64::MAX {
        u64::MAX
    } else {
        (a + b) as u64
    }
}

/// The last byte of a range of `len` bytes from `off`. An empty range counts as
/// one of one byte.
pub open spec fn range_end(off: u64, len: u64) -> u64 {
    held_sum(
        off,
        if len == 0 {
            0
        } else {
            (len - 1) as u64
        },
    )
}

/// What a request for `len` bytes from `off` says: first and last byte.
pub open spec fn range_words(off: u64, len: u64) -> Seq<char> {
    "bytes="@ + text::decimal(off as nat) + "-"@ + text::decimal(range_end(off, len) as nat)
}

/// The header of a request for `len` bytes from `off`.
pub fn range_header(off: u64, len: u64) -> (s: String)
    ensures
        s@ == range_words(off, len),
{
    let span: u64 = if len == 0 { 0 } else { len - 1 };
    let end = off.saturating_add(span);
    let mut out = text::to_chars("bytes=");
    text::push_decimal(&mut out, off);
    text::push_text(&mut out, "-");
    text::push_decimal(&mut out, end);
    text::from_chars(&out)
}

/// What became of a request.
#[derive(Debug)]
pub enum Reply {
    /// No answer; why not, in words.
    Transport(String),
    /// An answer with this status, and the body, under the host's number, or
    /// why it could not be read.
    Answer { status: u16, body: Result<u64, String> },
}

/// What an answer's status means.
#[derive(Debug, Clone, Copy, PartialEq, Eq, Structural)]
pub enum StatusMeaning {
    /// The body is what was asked for.
    Found,
    /// There is no such thing, and will not be.
    Absent,
    /// Something went wrong.
    Failed,
}

/// What a status means. A store that does not list its keys says forbidden
/// where another says not found.
pub open spec fn meaning(status: u16) -> StatusMeaning {
    if status == 200 || status == 206 {
        StatusMeaning::Found
    } else if status == 404 || status == 403 {
        StatusMeaning::Absent
    } else {
        StatusMeaning::Failed
    }
}

/// What a status means.
pub fn status_meaning(status: u16) -> (m: StatusMeaning)
    ensures
        m == meaning(status),
{
    if status == 200 || status == 206 {
        StatusMeaning::Found
    } else if status == 404 || status == 403 {
        StatusMeaning::Absent
    } else {
        StatusMeaning::Failed
    }
}

fn prefixed(prefix: &str, rest: &str) -> (s: String)
    ensures
        s@ == prefix@ + rest@,
{
    let mut out = text::to_chars(prefix);
    text::push_text(&mut out, rest);
    text::from_chars(&out)
}

/// What a request came to: its body, the knowledge that there is none, or a
/// failure after which trying again may help.
pub fn download_outcome(reply: Reply) -> (r: Result<Option<u64>, DownloadError>)
    ensures
        match reply {
            Reply::Transport(e) => r matches Err(DownloadError::Transient(s)) && s@ == "transport: "@
                + e@,
            Reply::Answer { status, body } => match meaning(status) {
                StatusMeaning::Found => match body {
                    Ok(h) => r matches Ok(Some(b)) && b == h,
                    Err(e) => r matches Err(DownloadError::Transient(s)) && s@ == "read body: "@ + e@,
                },
                StatusMeaning::Absent => r matches Ok(None),
                StatusMeaning::Failed => r matches Err(DownloadError::Transient(s)) && s@ == "status "@
                    + text::decimal(status as nat),
            },
        },
{
    match reply {
        Reply::Transport(e) => Err(DownloadError::Transient(prefixed("transport: ", e.as_str()))),
        Reply::Answer { status, body } => match status_meaning(status) {
            StatusMeaning::Found => match body {
                Ok(h) => Ok(Some(h)),
                Err(e) => Err(DownloadError::Transient(prefixed("read body: ", e.as_str()))),
            },
            StatusMeaning::Absent => Ok(None),
            StatusMeaning::Failed => {
                let mut out = text::to_chars("status ");
                text::push_decimal(&mut out, status as u64);
                Err(DownloadError::Transient(text::from_chars(&out)))
            },
        },
    }
}

/// What a download delivered, as the outcome of its source. A failure is told
/// as one of the download.
pub fn source_outcome(r: Result<Option<u64>, DownloadError>) -> (o: SourceOutcome)
    ensures
        match r {
            Ok(Some(h)) => o matches Ok(Some(p)) && p == SourcePayload::Bytes(h),
            Ok(None) => o matches Ok(None),
            Err(DownloadError::Transient(e)) => o matches Err(
                BackfillError::Transient(Reason::Reported(s)),
            ) && s@ == "download: "@ + e@,
        },
{
    match r {
        Ok(Some(h)) => Ok(Some(SourcePayload::Bytes(h))),
        Ok(None) => Ok(None),
        Err(DownloadError::Transient(e)) => Err(
            BackfillError::Transient(Reason::Reported(prefixed("download: ", e.as_str()))),
        ),
    }
}

/// The host part of a URL: what stands between its second slash and its third;
/// nothing if it has no second.
pub open spec fn host_part(url: Seq<char>) -> Seq<char> {
    let parts = text::split(url, '/');
    if parts.len() > 2 {
        parts[2]
    } else {
        Seq::empty()
    }
}

/// The host part of a URL.
pub fn url_host(url: &str) -> (h: String)
    ensures
        h@ == host_part(url@),
{
    let chars = text::to_chars(url);
    let parts = text::split_at_char(&chars, '/');
    assert(parts@.len() == text::parts_view(parts@).len());
    if parts.len() > 2 {
        assert(text::parts_view(parts@)[2] == parts@[2]@);
        text::from_chars(&parts[2])
    } else {
        let none: Vec<char> = Vec::new();
        assert(none@ =~= Seq::empty());
        text::from_chars(&none)
    }
}

/// A request names the first and the last byte, so that there are as many from
/// one to the other as were asked for.
pub proof fn law_range_has_the_bytes_asked_for(off: u64, len: u64)
    requires
        0 < len,
        off + len <= u64::MAX,
    ensures
        range_words(off, len) == "bytes="@ + text::decimal(off as nat) + "-"@ + text::decimal(
            (off + len - 1) as nat,
        ),
{
}

/// A body comes with success, whole or in part. Not found and forbidden mean
/// that there is nothing, and every other answer that something went wrong.
pub proof fn law_every_status_has_its_meaning(status: u16)
    ensures
        meaning(status) == StatusMeaning::Found <==> (status == 200 || status == 206),
        meaning(status) == StatusMeaning::Absent <==> (status == 403 || status == 404),
{
}

/// The host part of a URL is what stands between the two slashes behind the
/// scheme and the path, or the end.
pub proof fn law_host_part_stands_behind_the_scheme(scheme: Seq<char>, host: Seq<char>, path: Seq<char>)
    requires
        !scheme.contains('/'),
        !host.contains('/'),
        path.len() == 0 || path[0] == '/',
    ensures
        host_part(scheme + "//"@ + host + path) == host,
{
    reveal_strlit("//");
    let rest = host + path;
    let url = scheme + "//"@ + host + path;
    let n = scheme.len() as int;
    assert forall|j: int| 0 <= j < n implies #[trigger] url[j] != '/' by {
        assert(url[j] == scheme[j]);
    }
    assert(url[n] == '/' && url[n + 1] == '/');
    text::lemma_before_char(url, '/', n);
    let behind = url.skip(n + 1);
    assert(behind[0] == '/');
    text::lemma_before_char(behind, '/', 0);
    assert(behind.skip(1) =~= rest);
    assert forall|j: int| 0 <= j < host.len() implies #[trigger] rest[j] != '/' by {
        assert(rest[j] == host[j]);
    }
    text::lemma_before_char(rest, '/', host.len() as int);
    assert(rest.take(host.len() as int) =~= host);
    if path.len() == 0 {
        assert(rest =~= host);
    }
    text::law_split_parts_are_the_text(rest, '/');
    assert(text::split(rest, '/')[0] == host);
    assert(text::split(behind, '/')[1] == host);
    assert(text::split(url, '/') == seq![url.take(n)] + text::split(behind, '/'));
    assert(text::split(url, '/')[2] == host);
}

} // verus!
