//! Where downloaded segments are kept, and how the files of one are fetched.
use crate::metadata;
use crate::metadata::trim_end_slashes;
use crate::text;
use vstd::prelude::*;

verus! {

/// How many files a directory of grids has.
pub const TIFXYZ_FILE_COUNT: usize = 4;

/// The files of a directory of grids, in the order in which they are fetched.
pub open spec fn tifxyz_file(i: int) -> Seq<char> {
    if i == 0 {
        "meta.json"@
    } else if i == 1 {
        "x.tif"@
    } else if i == 2 {
        "y.tif"@
    } else {
        "z.tif"@
    }
}

/// File number `i` of a directory of grids.
pub fn tifxyz_file_name(i: usize) -> (s: &'static str)
    requires
        i < TIFXYZ_FILE_COUNT,
    ensures
        s@ == tifxyz_file(i as int),
{
    if i == 0 {
        "meta.json"
    } else if i == 1 {
        "x.tif"
    } else if i == 2 {
        "y.tif"
    } else {
        "z.tif"
    }
}

/// A path below a directory, unless it starts at the root.
pub open spec fn below(dir: Seq<char>, path: Seq<char>) -> Seq<char> {
    if path.len() > 0 && path[0] == '/' {
        path
    } else {
        text::joined_path(dir, path)
    }
}

fn path_below(dir: &str, path: &[char]) -> (p: String)
    ensures
        p@ == below(dir@, path@),
{
    let s = text::from_chars(path);
    if path.len() > 0 && path[0] == '/' {
        s
    } else {
        text::join_path(dir, s.as_str())
    }
}

/// The directory of all downloaded segments, in the user's cache directory.
pub open spec fn segments_root(cache_dir: Seq<char>) -> Seq<char> {
    text::joined_path(text::joined_path(cache_dir, "vesuvius-gui"@), "atlas-segments"@)
}

fn atlas_segments_root(cache_dir: &str) -> (p: String)
    ensures
        p@ == segments_root(cache_dir@),
{
    let gui = text::join_path(cache_dir, "vesuvius-gui");
    text::join_path(gui.as_str(), "atlas-segments")
}

/// Where the mesh of a segment is kept.
pub open spec fn obj_path(cache_dir: Seq<char>, sample: Seq<char>, segment: Seq<char>) -> Seq<char> {
    below(segments_root(cache_dir), sample + "/"@ + segment + ".obj"@)
}

/// Where the grids of a segment are kept.
pub open spec fn tifxyz_path(cache_dir: Seq<char>, sample: Seq<char>, segment: Seq<char>) -> Seq<char> {
    below(segments_root(cache_dir), sample + "/"@ + segment)
}

/// Where the mesh of a segment is kept.
pub fn obj_cache_path(cache_dir: &str, sample_id: &str, segment_id: &str) -> (p: String)
    ensures
        p@ == obj_path(cache_dir@, sample_id@, segment_id@),
{
    let root = atlas_segments_root(cache_dir);
    let mut name = text::to_chars(sample_id);
    text::push_text(&mut name, "/");
    text::push_text(&mut name, segment_id);
    text::push_text(&mut name, ".obj");
    path_below(root.as_str(), &name)
}

/// Where the grids of a segment are kept.
pub fn tifxyz_cache_path(cache_dir: &str, sample_id: &str, segment_id: &str) -> (p: String)
    ensures
        p@ == tifxyz_path(cache_dir@, sample_id@, segment_id@),
{
    let root = atlas_segments_root(cache_dir);
    let mut name = text::to_chars(sample_id);
    text::push_text(&mut name, "/");
    text::push_text(&mut name, segment_id);
    path_below(root.as_str(), &name)
}

/// Where a downloaded segment is kept: its grids if every file of them is
/// there, or else its mesh, or else nowhere. `tifxyz_files` says which files of
/// the grids are there, `obj` whether the mesh is.
pub fn cached_path(
    cache_dir: &str,
    sample_id: &str,
    segment_id: &str,
    tifxyz_files: [bool; 4],
    obj: bool,
) -> (r: Option<String>)
    ensures
        match r {
            Some(p) => if forall|i: int| 0 <= i < 4 ==> #[trigger] tifxyz_files@[i] {
                p@ == tifxyz_path(cache_dir@, sample_id@, segment_id@)
            } else {
                obj && p@ == obj_path(cache_dir@, sample_id@, segment_id@)
            },
            None => !obj && exists|i: int| 0 <= i < 4 && !#[trigger] tifxyz_files@[i],
        },
{
    let mut i: usize = 0;
    while i < 4 && tifxyz_files[i]
        invariant
            i <= 4,
            forall|j: int| 0 <= j < i ==> #[trigger] tifxyz_files@[j],
        decreases 4 - i,
    {
        i = i + 1;
    }
    if i == 4 {
        return Some(tifxyz_cache_path(cache_dir, sample_id, segment_id));
    }
    assert(!tifxyz_files@[i as int]);
    if obj {
        Some(obj_cache_path(cache_dir, sample_id, segment_id))
    } else {
        None
    }
}

/// What the download of a directory of grids does next.
#[derive(Debug)]
pub enum TifxyzStep {
    /// Fetch a URL into a file.
    Fetch { url: String, path: String },
    /// Say that the segment is ready.
    Ready,
    /// Remove the directory, and say that the download failed.
    Failed,
}

/// The download of a directory of grids, one file after the other. It begins
/// once the directory stands empty.
#[derive(Debug)]
pub struct TifxyzDownload {
    pub base_url: String,
    pub dir: String,
    /// How many files have come.
    pub next: usize,
}

/// Whether this is the step for file number `i`: it is fetched, or, behind the
/// last, all is ready.
pub open spec fn is_step(base_url: Seq<char>, dir: Seq<char>, i: int, step: TifxyzStep) -> bool {
    if i < TIFXYZ_FILE_COUNT {
        match step {
            TifxyzStep::Fetch { url, path } => url@ == base_url + "/"@ + tifxyz_file(i) && path@
                == text::joined_path(dir, tifxyz_file(i)),
            _ => false,
        }
    } else {
        step is Ready
    }
}

impl TifxyzDownload {
    /// The download of the grids at a URL into a directory. Slashes at the end
    /// of the URL do not count.
    pub fn begin(tifxyz_url: &str, dir: String) -> (d: TifxyzDownload)
        ensures
            d.base_url@ == metadata::without_end_slashes(tifxyz_url@),
            d.dir == dir,
            d.next == 0,
    {
        let url = trim_end_slashes(tifxyz_url);
        TifxyzDownload { base_url: text::from_chars(&url), dir, next: 0 }
    }

    /// What to do next.
    pub fn step(&self) -> (s: TifxyzStep)
        ensures
            is_step(self.base_url@, self.dir@, self.next as int, s),
    {
        if self.next >= TIFXYZ_FILE_COUNT {
            return TifxyzStep::Ready;
        }
        let name = tifxyz_file_name(self.next);
        let mut url = text::to_chars(self.base_url.as_str());
        text::push_text(&mut url, "/");
        text::push_text(&mut url, name);
        TifxyzStep::Fetch {
            url: text::from_chars(&url),
            path: text::join_path(self.dir.as_str(), name),
        }
    }

    /// Notes whether the file that was fetched came, and says what to do next.
    pub fn fetched(&mut self, ok: bool) -> (s: TifxyzStep)
        requires
            old(self).next < TIFXYZ_FILE_COUNT,
        ensures
            final(self).base_url == old(self).base_url,
            final(self).dir == old(self).dir,
            !ok ==> s is Failed && final(self).next == old(self).next,
            ok ==> final(self).next == old(self).next + 1 && is_step(
                old(self).base_url@,
                old(self).dir@,
                old(self).next + 1,
                s,
            ),
    {
        if ok {
            self.next = self.next + 1;
            self.step()
        } else {
            TifxyzStep::Failed
        }
    }
}

/// A download is ready only when every file has come: a step that says so
/// stands behind the last file.
pub proof fn law_ready_means_complete(base_url: Seq<char>, dir: Seq<char>, i: int, step: TifxyzStep)
    requires
        0 <= i,
        is_step(base_url, dir, i, step),
    ensures
        step is Ready == (i >= TIFXYZ_FILE_COUNT),
        !(step is Failed),
{
}

/// A segment's mesh is kept next to its grids, under the same name with the
/// extension `obj`, in the directory of its sample.
pub proof fn law_mesh_is_kept_next_to_the_grids(cache_dir: Seq<char>, sample_id: Seq<char>, segment_id: Seq<char>)
    requires
        sample_id.len() > 0,
        sample_id[0] != '/',
    ensures
        obj_path(cache_dir, sample_id, segment_id) == tifxyz_path(cache_dir, sample_id, segment_id) + ".obj"@,
        tifxyz_path(cache_dir, sample_id, segment_id) == text::joined_path(
            segments_root(cache_dir),
            sample_id + "/"@ + segment_id,
        ),
{
    reveal_strlit("/");
    reveal_strlit(".obj");
    let root = segments_root(cache_dir);
    let name = sample_id + "/"@ + segment_id;
    assert((name + ".obj"@)[0] == sample_id[0] && name[0] == sample_id[0]);
    assert(text::joined_path(root, name + ".obj"@) =~= text::joined_path(root, name) + ".obj"@);
}

/// The files of a directory of grids are four, each with a name of its own, and
/// each is fetched under its name into the directory.
pub proof fn law_every_file_is_fetched_under_its_name(base_url: Seq<char>, dir: Seq<char>, i: int, j: int, step: TifxyzStep)
    requires
        0 <= i < 4,
        0 <= j < 4,
        is_step(base_url, dir, i, step),
    ensures
        step matches TifxyzStep::Fetch { url, path } && url@ == base_url + "/"@ + tifxyz_file(i) && path@
            == text::joined_path(dir, tifxyz_file(i)),
        tifxyz_file(i) == tifxyz_file(j) ==> i == j,
{
    reveal_strlit("meta.json");
    reveal_strlit("x.tif");
    reveal_strlit("y.tif");
    reveal_strlit("z.tif");
    assert("meta.json"@[0] == 'm' && "x.tif"@[0] == 'x' && "y.tif"@[0] == 'y' && "z.tif"@[0] == 'z');
}

} // verus!
