//! The atlas: samples with their scans, volumes and segments, how volumes map
//! onto each other, and where data is found.
use crate::metadata;
use crate::metadata::trim_end_slashes;
use crate::text;
use vstd::prelude::*;

verus! {

/// Items by id, each id once, in the order in which the ids came.
#[derive(Debug)]
pub struct Table<T> {
    pub entries: Vec<(String, T)>,
}

/// Where an id stands among the first `n` entries, the last of them first.
pub open spec fn place_of<T>(entries: Seq<(String, T)>, id: Seq<char>, n: int) -> Option<int>
    decreases n,
{
    if n <= 0 {
        None
    } else if entries[n - 1].0@ == id {
        Some(n - 1)
    } else {
        place_of(entries, id, n - 1)
    }
}

proof fn lemma_place_of<T>(entries: Seq<(String, T)>, id: Seq<char>, n: int)
    requires
        n <= entries.len(),
    ensures
        match place_of(entries, id, n) {
            Some(i) => 0 <= i < n && entries[i].0@ == id,
            None => forall|i: int| 0 <= i < n ==> (#[trigger] entries[i]).0@ != id,
        },
    decreases n,
{
    if n > 0 {
        lemma_place_of(entries, id, n - 1);
    }
}

impl<T> Table<T> {
    /// No id stands twice.
    pub open spec fn wf(&self) -> bool {
        forall|i: int, j: int|
            0 <= i < j < self.entries@.len() ==> (#[trigger] self.entries@[i]).0@ != (
            #[trigger] self.entries@[j]).0@
    }

    /// Whether there is an item with this id.
    pub open spec fn has(&self, id: Seq<char>) -> bool {
        place_of(self.entries@, id, self.entries@.len() as int) is Some
    }

    /// The item with this id.
    pub open spec fn item(&self, id: Seq<char>) -> T {
        self.entries@[place_of(self.entries@, id, self.entries@.len() as int)->0].1
    }

    /// No items.
    pub fn new() -> (t: Table<T>)
        ensures
            t.wf(),
            t.entries@.len() == 0,
    {
        Table { entries: Vec::new() }
    }

    fn find(&self, id: &str) -> (r: Option<usize>)
        ensures
            match place_of(self.entries@, id@, self.entries@.len() as int) {
                Some(i) => r == Some(i as usize) && 0 <= i < self.entries@.len(),
                None => r is None,
            },
    {
        let mut i: usize = self.entries.len();
        while i > 0
            invariant
                i <= self.entries@.len(),
                place_of(self.entries@, id@, self.entries@.len() as int) == place_of(
                    self.entries@,
                    id@,
                    i as int,
                ),
            decreases i,
        {
            if text::same_text(self.entries[i - 1].0.as_str(), id) {
                return Some(i - 1);
            }
            i = i - 1;
        }
        None
    }

    /// Whether there is an item with this id.
    pub fn contains(&self, id: &str) -> (r: bool)
        ensures
            r == self.has(id@),
    {
        self.find(id).is_some()
    }

    /// The item with this id.
    pub fn get(&self, id: &str) -> (r: Option<&T>)
        ensures
            match r {
                Some(t) => self.has(id@) && *t == self.item(id@),
                None => !self.has(id@),
            },
    {
        match self.find(id) {
            Some(i) => {
                assert(self.entries@.len() == self.entries.len());
                Some(&self.entries[i].1)
            },
            None => None,
        }
    }

    /// Puts an item under its id, in place of the one that stood there.
    pub fn insert(&mut self, id: String, item: T)
        requires
            old(self).wf(),
        ensures
            final(self).wf(),
            final(self).has(id@),
            final(self).item(id@) == item,
            forall|other: Seq<char>|
                other != id@ ==> {
                    &&& #[trigger] final(self).has(other) == old(self).has(other)
                    &&& old(self).has(other) ==> final(self).item(other) == old(self).item(other)
                },
            final(self).entries@.len() == old(self).entries@.len() + (if old(self).has(id@) {
                0int
            } else {
                1
            }),
    {
        let found = self.find(id.as_str());
        let ghost old_entries = self.entries@;
        let ghost id_text = id@;
        proof {
            lemma_place_of(old_entries, id_text, old_entries.len() as int);
        }
        match found {
            Some(i) => {
                assert(self.entries@.len() == self.entries.len());
                self.entries.set(i, (id, item));
            },
            None => {
                self.entries.push((id, item));
            },
        }
        proof {
            lemma_after_insert(
                old_entries,
                self.entries@,
                id_text,
                place_of(old_entries, id_text, old_entries.len() as int),
            );
        }
    }
}

proof fn lemma_after_insert<T>(
    before: Seq<(String, T)>,
    after: Seq<(String, T)>,
    id: Seq<char>,
    at: Option<int>,
)
    requires
        at == place_of(before, id, before.len() as int),
        forall|i: int, j: int|
            0 <= i < j < before.len() ==> (#[trigger] before[i]).0@ != (#[trigger] before[j]).0@,
        match at {
            Some(i) => after.len() == before.len() && after == before.update(i, after[i]) && 0 <= i
                < before.len() && after[i].0@ == id,
            None => after.len() == before.len() + 1 && after == before.push(after.last())
                && after.last().0@ == id,
        },
    ensures
        forall|i: int, j: int|
            0 <= i < j < after.len() ==> (#[trigger] after[i]).0@ != (#[trigger] after[j]).0@,
        place_of(after, id, after.len() as int) == Some(
            match at {
                Some(i) => i,
                None => after.len() - 1,
            },
        ),
        forall|other: Seq<char>|
            other != id ==> #[trigger] place_of(after, other, after.len() as int) == place_of(
                before,
                other,
                before.len() as int,
            ),
        forall|other: Seq<char>|
            other != id ==> match #[trigger] place_of(before, other, before.len() as int) {
                Some(i) => 0 <= i < before.len() && after[i] == before[i],
                None => true,
            },
{
    lemma_place_of(before, id, before.len() as int);
    assert forall|i: int, j: int| 0 <= i < j < after.len() implies (#[trigger] after[i]).0@ != (
    #[trigger] after[j]).0@ by {
        match at {
            Some(k) => {
                assert(before[k].0@ == id);
                assert(i != k ==> after[i] == before[i]);
                assert(j != k ==> after[j] == before[j]);
                assert(before[i].0@ != before[j].0@);
            },
            None => {
                assert(after[i] == before[i]);
                assert(j < before.len() ==> after[j] == before[j]);
            },
        }
    }
    lemma_place_of(after, id, after.len() as int);
    let place = match at {
        Some(i) => i,
        None => after.len() - 1,
    };
    assert(after[place].0@ == id);
    assert forall|other: Seq<char>| other != id implies #[trigger] place_of(
        after,
        other,
        after.len() as int,
    ) == place_of(before, other, before.len() as int) by {
        lemma_same_place(before, after, other, before.len() as int);
    }
    assert forall|other: Seq<char>| other != id implies match #[trigger] place_of(
        before,
        other,
        before.len() as int,
    ) {
        Some(i) => 0 <= i < before.len() && after[i] == before[i],
        None => true,
    } by {
        lemma_place_of(before, other, before.len() as int);
    }
}

proof fn lemma_same_place<T>(
    before: Seq<(String, T)>,
    after: Seq<(String, T)>,
    other: Seq<char>,
    n: int,
)
    requires
        0 <= n <= before.len() <= after.len(),
        forall|i: int|
            0 <= i < before.len() ==> (#[trigger] after[i]).0@ == before[i].0@,
    ensures
        place_of(after, other, n) == place_of(before, other, n),
    decreases n,
{
    if n > 0 {
        lemma_same_place(before, after, other, n - 1);
        assert(after[n - 1].0@ == before[n - 1].0@);
    }
}

/// A server that holds data, and what it is to be used for.
#[derive(Debug)]
pub struct AccessRoot {
    pub root_type: String,
    pub url: String,
    pub usage: String,
}

/// A path at which data is found on some servers.
#[derive(Debug)]
pub struct DataOrigin {
    pub path: String,
    pub access_roots: Vec<AccessRoot>,
}

/// Data of one type, and where it is found.
#[derive(Debug)]
pub struct DataEntry {
    pub data_type: String,
    pub origins: Vec<DataOrigin>,
}

/// A map to another volume. The matrix is known by its number.
#[derive(Debug)]
pub struct TransformTo {
    pub to_volume_id: String,
    pub matrix: u64,
}

/// The maps from one volume.
#[derive(Debug)]
pub struct VolumeTransforms {
    pub from_volume_id: String,
    pub transforms: Vec<TransformTo>,
}

/// A sample, with the maps between its volumes.
#[derive(Debug)]
pub struct Sample {
    pub id: String,
    pub canonical_volume_id: Option<String>,
    pub volume_transforms: Vec<VolumeTransforms>,
}

/// A scan of a sample.
#[derive(Debug)]
pub struct Scan {
    pub id: String,
    pub sample_id: String,
}

/// A volume of a sample.
#[derive(Debug)]
pub struct Volume {
    pub id: String,
    pub sample_id: String,
    pub scan_id: String,
    pub data: Vec<DataEntry>,
}

/// A segment of a sample.
#[derive(Debug)]
pub struct Segment {
    pub id: String,
    pub sample_id: String,
    pub original_volume_id: String,
    pub width: usize,
    pub height: usize,
    /// The volumes that cover the segment, if they are listed.
    pub volume_coverage: Option<Vec<String>>,
    pub data: Vec<DataEntry>,
}

/// A model.
#[derive(Debug)]
pub struct Model {
    pub id: String,
    pub architecture: String,
    pub task: String,
    pub data: Vec<DataEntry>,
}

/// A sample with its scans, volumes and segments.
#[derive(Debug)]
pub struct AtlasSample {
    pub sample: Sample,
    pub scans: Table<Scan>,
    pub volumes: Table<Volume>,
    pub segments: Table<Segment>,
}

/// All samples and models.
#[derive(Debug)]
pub struct AtlasMetadata {
    pub samples: Table<AtlasSample>,
    pub models: Table<Model>,
}

/// Whether a list of ids holds this one.
pub open spec fn lists(ids: Seq<String>, id: Seq<char>) -> bool {
    exists|i: int| 0 <= i < ids.len() && (#[trigger] ids[i])@ == id
}

fn listed(ids: &Vec<String>, id: &str) -> (r: bool)
    ensures
        r == lists(ids@, id@),
{
    let mut i: usize = 0;
    while i < ids.len()
        invariant
            i <= ids@.len(),
            forall|j: int| 0 <= j < i ==> (#[trigger] ids@[j])@ != id@,
        decreases ids.len() - i,
    {
        if text::same_text(ids[i].as_str(), id) {
            return true;
        }
        i = i + 1;
    }
    false
}

impl Segment {
    /// Whether the segment lists a volume as one that covers it.
    pub open spec fn covered_by(&self, volume_id: Seq<char>) -> bool {
        self.volume_coverage matches Some(ids) && lists(ids@, volume_id)
    }

    fn is_covered_by(&self, volume_id: &str) -> (r: bool)
        ensures
            r == self.covered_by(volume_id@),
    {
        match &self.volume_coverage {
            Some(ids) => listed(ids, volume_id),
            None => false,
        }
    }
}

/// The first map to a volume, from position `j` on.
pub open spec fn map_to(transforms: Seq<TransformTo>, target: Seq<char>, j: int) -> Option<u64>
    decreases transforms.len() - j,
{
    if j < 0 || j >= transforms.len() {
        None
    } else if transforms[j].to_volume_id@ == target {
        Some(transforms[j].matrix)
    } else {
        map_to(transforms, target, j + 1)
    }
}

/// The first map from one volume to another, from position `i` on.
pub open spec fn map_between(
    all: Seq<VolumeTransforms>,
    source: Seq<char>,
    target: Seq<char>,
    i: int,
) -> Option<u64>
    decreases all.len() - i,
{
    if i < 0 || i >= all.len() {
        None
    } else if all[i].from_volume_id@ == source && map_to(all[i].transforms@, target, 0) is Some {
        map_to(all[i].transforms@, target, 0)
    } else {
        map_between(all, source, target, i + 1)
    }
}

impl VolumeTransforms {
    fn find(&self, target: &str) -> (r: Option<u64>)
        ensures
            r == map_to(self.transforms@, target@, 0),
    {
        let mut j: usize = 0;
        while j < self.transforms.len()
            invariant
                j <= self.transforms@.len(),
                map_to(self.transforms@, target@, 0) == map_to(self.transforms@, target@, j as int),
            decreases self.transforms.len() - j,
        {
            if text::same_text(self.transforms[j].to_volume_id.as_str(), target) {
                return Some(self.transforms[j].matrix);
            }
            j = j + 1;
        }
        None
    }
}

impl AtlasSample {
    /// The map from one volume to another; none from a volume to itself.
    pub open spec fn transform(&self, source: Seq<char>, target: Seq<char>) -> Option<u64> {
        if source == target {
            None
        } else {
            map_between(self.sample.volume_transforms@, source, target, 0)
        }
    }

    /// Whether a segment can be rendered from a volume: it was made from that
    /// volume, is covered by it, or there is a map to it.
    pub open spec fn renders(&self, segment: Segment, volume_id: Seq<char>) -> bool {
        ||| volume_id == segment.original_volume_id@
        ||| segment.covered_by(volume_id)
        ||| self.transform(segment.original_volume_id@, volume_id) is Some
    }

    /// The places of the volumes among the first `n` from which a segment can
    /// be rendered.
    pub open spec fn rendering_places(&self, segment: Segment, n: int) -> Seq<int>
        decreases n,
    {
        if n <= 0 {
            Seq::empty()
        } else if self.renders(segment, self.volumes.entries@[n - 1].0@) {
            self.rendering_places(segment, n - 1).push(n - 1)
        } else {
            self.rendering_places(segment, n - 1)
        }
    }

    /// The places of the segments among the first `n` that were made from a
    /// volume.
    pub open spec fn segment_places(&self, volume_id: Seq<char>, n: int) -> Seq<int>
        decreases n,
    {
        if n <= 0 {
            Seq::empty()
        } else if self.segments.entries@[n - 1].1.original_volume_id@ == volume_id {
            self.segment_places(volume_id, n - 1).push(n - 1)
        } else {
            self.segment_places(volume_id, n - 1)
        }
    }

    /// The scan with this id.
    pub fn get_scan(&self, scan_id: &str) -> (r: Option<&Scan>)
        ensures
            match r {
                Some(t) => self.scans.has(scan_id@) && *t == self.scans.item(scan_id@),
                None => !self.scans.has(scan_id@),
            },
    {
        self.scans.get(scan_id)
    }

    /// The volume with this id.
    pub fn get_volume(&self, volume_id: &str) -> (r: Option<&Volume>)
        ensures
            match r {
                Some(t) => self.volumes.has(volume_id@) && *t == self.volumes.item(volume_id@),
                None => !self.volumes.has(volume_id@),
            },
    {
        self.volumes.get(volume_id)
    }

    /// The segment with this id.
    pub fn get_segment(&self, segment_id: &str) -> (r: Option<&Segment>)
        ensures
            match r {
                Some(t) => self.segments.has(segment_id@) && *t == self.segments.item(segment_id@),
                None => !self.segments.has(segment_id@),
            },
    {
        self.segments.get(segment_id)
    }

    /// The segments that were made from a volume.
    pub fn find_segments_for_volume(&self, volume_id: &str) -> (out: Vec<&Segment>)
        ensures
            ({
                let places = self.segment_places(volume_id@, self.segments.entries@.len() as int);
                &&& out@.len() == places.len()
                &&& forall|k: int|
                    0 <= k < places.len() ==> *(#[trigger] out@[k]) == self.segments.entries@[places[k]].1
            }),
    {
        let mut out: Vec<&Segment> = Vec::new();
        let mut i: usize = 0;
        while i < self.segments.entries.len()
            invariant
                i <= self.segments.entries@.len(),
                out@.len() == self.segment_places(volume_id@, i as int).len(),
                forall|k: int|
                    0 <= k < out@.len() ==> *(#[trigger] out@[k]) == self.segments.entries@[self.segment_places(
                        volume_id@,
                        i as int,
                    )[k]].1,
            decreases self.segments.entries.len() - i,
        {
            let s = &self.segments.entries[i].1;
            if text::same_text(s.original_volume_id.as_str(), volume_id) {
                out.push(s);
            }
            i = i + 1;
        }
        out
    }

    /// The map from one volume to another, if there is one.
    pub fn get_transform(&self, source_volume_id: &str, target_volume_id: &str) -> (r: Option<u64>)
        ensures
            r == self.transform(source_volume_id@, target_volume_id@),
    {
        if text::same_text(source_volume_id, target_volume_id) {
            return None;
        }
        let all = &self.sample.volume_transforms;
        let mut i: usize = 0;
        while i < all.len()
            invariant
                all == &self.sample.volume_transforms,
                source_volume_id@ != target_volume_id@,
                i <= all@.len(),
                map_between(all@, source_volume_id@, target_volume_id@, 0) == map_between(
                    all@,
                    source_volume_id@,
                    target_volume_id@,
                    i as int,
                ),
            decreases all.len() - i,
        {
            if text::same_text(all[i].from_volume_id.as_str(), source_volume_id) {
                let found = all[i].find(target_volume_id);
                if found.is_some() {
                    return found;
                }
            }
            i = i + 1;
        }
        None
    }

    /// The volumes from which a segment can be rendered, with their ids and
    /// whether the segment lists them as covering it. None for an unknown
    /// segment.
    pub fn get_volumes_for_segment(&self, segment_id: &str) -> (out: Vec<(String, &Volume, bool)>)
        ensures
            !self.segments.has(segment_id@) ==> out@.len() == 0,
            self.segments.has(segment_id@) ==> {
                let segment = self.segments.item(segment_id@);
                let places = self.rendering_places(segment, self.volumes.entries@.len() as int);
                &&& out@.len() == places.len()
                &&& forall|k: int|
                    0 <= k < places.len() ==> {
                        let entry = self.volumes.entries@[places[k]];
                        &&& (#[trigger] out@[k]).0@ == entry.0@
                        &&& *out@[k].1 == entry.1
                        &&& out@[k].2 == segment.covered_by(entry.0@)
                    }
            },
    {
        let mut out: Vec<(String, &Volume, bool)> = Vec::new();
        let segment = match self.segments.get(segment_id) {
            Some(s) => s,
            None => {
                return out;
            },
        };
        let mut i: usize = 0;
        while i < self.volumes.entries.len()
            invariant
                i <= self.volumes.entries@.len(),
                out@.len() == self.rendering_places(*segment, i as int).len(),
                forall|k: int|
                    0 <= k < out@.len() ==> {
                        let entry = self.volumes.entries@[self.rendering_places(
                            *segment,
                            i as int,
                        )[k]];
                        &&& (#[trigger] out@[k]).0@ == entry.0@
                        &&& *out@[k].1 == entry.1
                        &&& out@[k].2 == segment.covered_by(entry.0@)
                    },
            decreases self.volumes.entries.len() - i,
        {
            let vol_id = self.volumes.entries[i].0.as_str();
            let has_coverage = segment.is_covered_by(vol_id);
            let can_render = text::same_text(vol_id, segment.original_volume_id.as_str())
                || has_coverage || self.get_transform(
                segment.original_volume_id.as_str(),
                vol_id,
            ).is_some();
            if can_render {
                out.push((text::owned(vol_id), &self.volumes.entries[i].1, has_coverage));
            }
            i = i + 1;
        }
        out
    }

    /// Whether a segment was made from a volume or is covered by it; not for
    /// an unknown segment.
    pub fn has_coverage(&self, segment_id: &str, volume_id: &str) -> (r: bool)
        ensures
            r == (self.segments.has(segment_id@) && ({
                let segment = self.segments.item(segment_id@);
                segment.original_volume_id@ == volume_id@ || segment.covered_by(volume_id@)
            })),
    {
        match self.segments.get(segment_id) {
            Some(segment) => {
                text::same_text(segment.original_volume_id.as_str(), volume_id)
                    || segment.is_covered_by(volume_id)
            },
            None => false,
        }
    }
}

/// A path without the slashes in front of it.
pub open spec fn without_front_slashes(s: Seq<char>) -> Seq<char>
    decreases s.len(),
{
    if s.len() > 0 && s[0] == '/' {
        without_front_slashes(s.skip(1))
    } else {
        s
    }
}

fn trim_front_slashes(path: &str) -> (r: Vec<char>)
    ensures
        r@ == without_front_slashes(path@),
{
    let chars = text::to_chars(path);
    let mut a: usize = 0;
    assert(chars@.skip(0) =~= chars@);
    while a < chars.len() && chars[a] == '/'
        invariant
            a <= chars@.len(),
            without_front_slashes(chars@) == without_front_slashes(chars@.skip(a as int)),
        decreases chars.len() - a,
    {
        assert(chars@.skip(a as int)[0] == chars@[a as int]);
        assert(chars@.skip(a as int).skip(1) =~= chars@.skip(a + 1));
        a = a + 1;
    }
    assert(without_front_slashes(chars@) == chars@.skip(a as int)) by {
        if a < chars@.len() {
            assert(chars@.skip(a as int)[0] == chars@[a as int]);
        }
    }
    let r = text::slice_of(&chars, a, chars.len());
    assert(r@ =~= chars@.skip(a as int));
    r
}

/// Whether one of an origin's servers is for this usage.
pub open spec fn serves(origin: DataOrigin, usage: Seq<char>) -> bool {
    exists|r: int|
        0 <= r < origin.access_roots@.len() && (#[trigger] origin.access_roots@[r]).usage@ == usage
}

impl DataOrigin {
    fn is_served(&self, usage: &str) -> (r: bool)
        ensures
            r == serves(*self, usage@),
    {
        let mut i: usize = 0;
        while i < self.access_roots.len()
            invariant
                i <= self.access_roots@.len(),
                forall|j: int|
                    0 <= j < i ==> (#[trigger] self.access_roots@[j]).usage@ != usage@,
            decreases self.access_roots.len() - i,
        {
            if text::same_text(self.access_roots[i].usage.as_str(), usage) {
                return true;
            }
            i = i + 1;
        }
        false
    }
}

/// The first origin for a usage, from position `j` on.
pub open spec fn origin_for(origins: Seq<DataOrigin>, usage: Seq<char>, j: int) -> Option<DataOrigin>
    decreases origins.len() - j,
{
    if j < 0 || j >= origins.len() {
        None
    } else if serves(origins[j], usage) {
        Some(origins[j])
    } else {
        origin_for(origins, usage, j + 1)
    }
}

/// The first origin for standard use of data of a type, from entry `i` on.
pub open spec fn standard_origin(data: Seq<DataEntry>, data_type: Seq<char>, i: int) -> Option<DataOrigin>
    decreases data.len() - i,
{
    if i < 0 || i >= data.len() {
        None
    } else if data[i].data_type@ == data_type && origin_for(data[i].origins@, "standard"@, 0) is Some {
        origin_for(data[i].origins@, "standard"@, 0)
    } else {
        standard_origin(data, data_type, i + 1)
    }
}

/// The URL for standard use of data of a type.
pub open spec fn standard_url(data: Seq<DataEntry>, data_type: Seq<char>) -> Option<Seq<char>> {
    match standard_origin(data, data_type, 0) {
        Some(origin) => Some(
            "https://data.aws.ash2txt.org/samples/"@ + without_front_slashes(origin.path@),
        ),
        None => None,
    }
}

impl DataEntry {
    fn find_origin(&self, usage: &str) -> (r: Option<usize>)
        ensures
            match r {
                Some(j) => j < self.origins@.len() && origin_for(self.origins@, usage@, 0) == Some(
                    self.origins@[j as int],
                ),
                None => origin_for(self.origins@, usage@, 0) is None,
            },
    {
        let mut j: usize = 0;
        while j < self.origins.len()
            invariant
                j <= self.origins@.len(),
                origin_for(self.origins@, usage@, 0) == origin_for(self.origins@, usage@, j as int),
            decreases self.origins.len() - j,
        {
            if self.origins[j].is_served(usage) {
                return Some(j);
            }
            j = j + 1;
        }
        None
    }
}

fn get_standard_url(data: &Vec<DataEntry>, data_type: &str) -> (r: Option<String>)
    ensures
        match standard_url(data@, data_type@) {
            Some(t) => r matches Some(s) && s@ == t,
            None => r is None,
        },
{
    let mut i: usize = 0;
    while i < data.len()
        invariant
            i <= data@.len(),
            standard_origin(data@, data_type@, 0) == standard_origin(data@, data_type@, i as int),
        decreases data.len() - i,
    {
        if text::same_text(data[i].data_type.as_str(), data_type) {
            match data[i].find_origin("standard") {
                Some(j) => {
                    let mut out: Vec<char> = Vec::new();
                    text::push_text(&mut out, "https://data.aws.ash2txt.org/samples/");
                    let rest = trim_front_slashes(data[i].origins[j].path.as_str());
                    text::push_slice(&mut out, &rest);
                    assert(out@ =~= "https://data.aws.ash2txt.org/samples/"@ + rest@);
                    return Some(text::from_chars(&out));
                },
                None => {},
            }
        }
        i = i + 1;
    }
    None
}

impl Segment {
    /// The URL of the segment's mesh.
    pub fn get_obj_url(&self) -> (r: Option<String>)
        ensures
            match standard_url(self.data@, "obj"@) {
                Some(t) => r matches Some(s) && s@ == t,
                None => r is None,
            },
    {
        get_standard_url(&self.data, "obj")
    }
}

impl Volume {
    /// The URL of the volume's arrays.
    pub fn get_ome_zarr_url(&self) -> (r: Option<String>)
        ensures
            match standard_url(self.data@, "ome-zarr"@) {
                Some(t) => r matches Some(s) && s@ == t,
                None => r is None,
            },
    {
        get_standard_url(&self.data, "ome-zarr")
    }
}

/// The URL of an origin's data on one of its servers.
pub open spec fn data_url(root: AccessRoot, path: Seq<char>) -> Seq<char> {
    metadata::without_end_slashes(root.url@) + "/"@ + without_front_slashes(path)
}

/// The URLs of an origin on the first `n` of its servers, those for a usage.
pub open spec fn origin_urls(origin: DataOrigin, usage: Seq<char>, n: int) -> Seq<Seq<char>>
    decreases n,
{
    if n <= 0 {
        Seq::empty()
    } else if origin.access_roots@[n - 1].usage@ == usage {
        origin_urls(origin, usage, n - 1).push(data_url(origin.access_roots@[n - 1], origin.path@))
    } else {
        origin_urls(origin, usage, n - 1)
    }
}

/// The URLs of the first `n` origins, on the servers for a usage.
pub open spec fn entry_urls(origins: Seq<DataOrigin>, usage: Seq<char>, n: int) -> Seq<Seq<char>>
    decreases n,
{
    if n <= 0 {
        Seq::empty()
    } else {
        entry_urls(origins, usage, n - 1) + origin_urls(
            origins[n - 1],
            usage,
            origins[n - 1].access_roots@.len() as int,
        )
    }
}

/// Texts by their contents.
pub open spec fn texts(v: Seq<String>) -> Seq<Seq<char>> {
    v.map_values(|s: String| s@)
}

impl AtlasMetadata {
    /// Nothing known yet.
    pub fn new() -> (a: AtlasMetadata)
        ensures
            a.samples.wf(),
            a.models.wf(),
            a.samples.entries@.len() == 0,
            a.models.entries@.len() == 0,
    {
        AtlasMetadata { samples: Table::new(), models: Table::new() }
    }

    /// The sample with this id.
    pub fn get_sample(&self, sample_id: &str) -> (r: Option<&AtlasSample>)
        ensures
            match r {
                Some(t) => self.samples.has(sample_id@) && *t == self.samples.item(sample_id@),
                None => !self.samples.has(sample_id@),
            },
    {
        self.samples.get(sample_id)
    }

    /// The ids of the samples.
    pub fn sample_ids(&self) -> (out: Vec<&str>)
        ensures
            out@.len() == self.samples.entries@.len(),
            forall|i: int|
                0 <= i < out@.len() ==> (#[trigger] out@[i])@ == self.samples.entries@[i].0@,
    {
        let mut out: Vec<&str> = Vec::new();
        let mut i: usize = 0;
        while i < self.samples.entries.len()
            invariant
                i <= self.samples.entries@.len(),
                out@.len() == i,
                forall|k: int|
                    0 <= k < i ==> (#[trigger] out@[k])@ == self.samples.entries@[k].0@,
            decreases self.samples.entries.len() - i,
        {
            out.push(self.samples.entries[i].0.as_str());
            i = i + 1;
        }
        out
    }

    /// The URLs of some data, on the servers for a usage.
    pub fn get_data_urls(&self, data_entry: &DataEntry, usage: &str) -> (out: Vec<String>)
        ensures
            texts(out@) == entry_urls(
                data_entry.origins@,
                usage@,
                data_entry.origins@.len() as int,
            ),
    {
        let mut out: Vec<String> = Vec::new();
        let origins = &data_entry.origins;
        assert(texts(out@) =~= Seq::empty());
        let mut i: usize = 0;
        while i < origins.len()
            invariant
                origins == &data_entry.origins,
                i <= origins@.len(),
                texts(out@) == entry_urls(origins@, usage@, i as int),
            decreases origins.len() - i,
        {
            let origin = &origins[i];
            let ghost done = texts(out@);
            assert(done + Seq::empty() =~= done);
            let mut r: usize = 0;
            while r < origin.access_roots.len()
                invariant
                    r <= origin.access_roots@.len(),
                    texts(out@) == done + origin_urls(*origin, usage@, r as int),
                decreases origin.access_roots.len() - r,
            {
                let root = &origin.access_roots[r];
                if text::same_text(root.usage.as_str(), usage) {
                    let mut url = trim_end_slashes(root.url.as_str());
                    text::push_text(&mut url, "/");
                    let rest = trim_front_slashes(origin.path.as_str());
                    text::push_slice(&mut url, &rest);
                    let ghost before = texts(out@);
                    let s = text::from_chars(&url);
                    assert(s@ =~= data_url(*root, origin.path@));
                    out.push(s);
                    assert(texts(out@) =~= before.push(s@));
                    assert(before.push(s@) =~= done + origin_urls(*origin, usage@, r as int).push(
                        s@,
                    ));
                }
                r = r + 1;
            }
            i = i + 1;
        }
        out
    }

    /// Takes in a model that was read.
    pub fn add_model(&mut self, model: Model)
        requires
            old(self).models.wf(),
        ensures
            final(self).models.wf(),
            final(self).samples == old(self).samples,
            final(self).models.has(model.id@),
            final(self).models.item(model.id@) == model,
            forall|other: Seq<char>|
                other != model.id@ ==> {
                    &&& #[trigger] final(self).models.has(other) == old(self).models.has(other)
                    &&& old(self).models.has(other) ==> final(self).models.item(other) == old(
                        self,
                    ).models.item(other)
                },
    {
        let id = text::owned(model.id.as_str());
        self.models.insert(id, model);
    }

    /// Takes in a sample that was read, under the name of its directory.
    pub fn add_sample(&mut self, sample_id: String, sample: AtlasSample)
        requires
            old(self).samples.wf(),
        ensures
            final(self).samples.wf(),
            final(self).models == old(self).models,
            final(self).samples.has(sample_id@),
            final(self).samples.item(sample_id@) == sample,
            forall|other: Seq<char>|
                other != sample_id@ ==> {
                    &&& #[trigger] final(self).samples.has(other) == old(self).samples.has(other)
                    &&& old(self).samples.has(other) ==> final(self).samples.item(other) == old(
                        self,
                    ).samples.item(other)
                },
    {
        self.samples.insert(sample_id, sample);
    }
}

/// Whether a file name has the extension `json`.
pub open spec fn is_json(name: Seq<char>) -> bool {
    name.len() > 5 && text::ends_in(name, ".json"@)
}

/// Whether a file of the atlas is read: its name has the extension `json`.
pub fn is_json_file(name: &str) -> (r: bool)
    ensures
        r == is_json(name@),
{
    let chars = text::to_chars(name);
    if chars.len() <= 5 {
        return false;
    }
    let ext = text::to_chars(".json");
    text::ends_with(&chars, &ext)
}

/// The file that describes a sample, in the directory named after it.
pub fn sample_file(sample_id: &str) -> (s: String)
    ensures
        s@ == sample_id@ + ".json"@,
{
    let mut out = text::to_chars(sample_id);
    text::push_text(&mut out, ".json");
    text::from_chars(&out)
}

proof fn lemma_rendering_place(sample: AtlasSample, segment: Segment, v: int, n: int)
    requires
        0 <= v < n <= sample.volumes.entries@.len(),
        sample.renders(segment, sample.volumes.entries@[v].0@),
    ensures
        sample.rendering_places(segment, n).contains(v),
    decreases n,
{
    let places = sample.rendering_places(segment, n);
    let fewer = sample.rendering_places(segment, n - 1);
    if v == n - 1 {
        assert(places.last() == v);
    } else {
        lemma_rendering_place(sample, segment, v, n - 1);
        let k = fewer.index_of(v);
        assert(places[k] == v);
    }
}

/// A segment can be rendered from every known volume that it has coverage for.
pub proof fn law_covered_volumes_render(sample: AtlasSample, segment: Segment, v: int)
    requires
        0 <= v < sample.volumes.entries@.len(),
        segment.original_volume_id@ == sample.volumes.entries@[v].0@ || segment.covered_by(
            sample.volumes.entries@[v].0@,
        ),
    ensures
        sample.rendering_places(segment, sample.volumes.entries@.len() as int).contains(v),
{
    lemma_rendering_place(sample, segment, v, sample.volumes.entries@.len() as int);
}

/// No volume maps onto itself.
pub proof fn law_no_map_to_itself(sample: AtlasSample, id: Seq<char>)
    ensures
        sample.transform(id, id) is None,
{
}

/// Slashes in front do not count, however many there are, and nothing else is
/// taken away.
pub proof fn law_front_slashes_do_not_count(s: Seq<char>, n: nat)
    requires
        s.len() == 0 || s[0] != '/',
    ensures
        without_front_slashes(Seq::new(n, |i: int| '/') + s) == s,
    decreases n,
{
    let t = Seq::new(n, |i: int| '/') + s;
    if n > 0 {
        law_front_slashes_do_not_count(s, (n - 1) as nat);
        assert(t.skip(1) =~= Seq::new((n - 1) as nat, |i: int| '/') + s);
    } else {
        assert(t =~= s);
    }
}

/// A server's URL and an origin's path are joined by one slash, whatever slashes
/// they end and begin with.
pub proof fn law_url_and_path_are_joined_by_one_slash(
    root: AccessRoot,
    base: Seq<char>,
    path: Seq<char>,
    a: nat,
    b: nat,
)
    requires
        root.url@ == base + Seq::new(a, |i: int| '/'),
        base.len() == 0 || base.last() != '/',
        path.len() == 0 || path[0] != '/',
    ensures
        data_url(root, Seq::new(b, |i: int| '/') + path) == base + "/"@ + path,
{
    metadata::law_end_slashes_do_not_count(base, a);
    law_front_slashes_do_not_count(path, b);
}

/// There is a map from one volume to another exactly where the sample lists
/// one, and it is one that is listed; a volume has none to itself.
pub proof fn law_maps_are_those_listed(sample: AtlasSample, source: Seq<char>, target: Seq<char>)
    ensures
        ({
            let all = sample.sample.volume_transforms@;
            match sample.transform(source, target) {
                Some(m) => source != target && exists|i: int, j: int|
                    0 <= i < all.len() && 0 <= j < all[i].transforms@.len() && all[i].from_volume_id@ == source
                        && (#[trigger] all[i].transforms@[j]).to_volume_id@ == target
                        && all[i].transforms@[j].matrix == m,
                None => source == target || forall|i: int, j: int|
                    0 <= i < all.len() && 0 <= j < all[i].transforms@.len() && all[i].from_volume_id@ == source
                        ==> (#[trigger] all[i].transforms@[j]).to_volume_id@ != target,
            }
        }),
{
    if source != target {
        lemma_map_between(sample.sample.volume_transforms@, source, target, 0);
    }
}

proof fn lemma_map_to(transforms: Seq<TransformTo>, target: Seq<char>, from: int)
    requires
        0 <= from,
    ensures
        match map_to(transforms, target, from) {
            Some(m) => exists|j: int|
                from <= j < transforms.len() && (#[trigger] transforms[j]).to_volume_id@ == target
                    && transforms[j].matrix == m,
            None => forall|j: int|
                from <= j < transforms.len() ==> (#[trigger] transforms[j]).to_volume_id@ != target,
        },
    decreases transforms.len() - from,
{
    if from < transforms.len() && transforms[from].to_volume_id@ != target {
        lemma_map_to(transforms, target, from + 1);
    }
}

proof fn lemma_map_between(all: Seq<VolumeTransforms>, source: Seq<char>, target: Seq<char>, from: int)
    requires
        0 <= from,
    ensures
        match map_between(all, source, target, from) {
            Some(m) => exists|i: int, j: int|
                from <= i < all.len() && 0 <= j < all[i].transforms@.len() && all[i].from_volume_id@ == source
                    && (#[trigger] all[i].transforms@[j]).to_volume_id@ == target
                    && all[i].transforms@[j].matrix == m,
            None => forall|i: int, j: int|
                from <= i < all.len() && 0 <= j < all[i].transforms@.len() && all[i].from_volume_id@
                    == source ==> (#[trigger] all[i].transforms@[j]).to_volume_id@ != target,
        },
    decreases all.len() - from,
{
    if from < all.len() {
        lemma_map_to(all[from].transforms@, target, 0);
        lemma_map_between(all, source, target, from + 1);
    }
}

/// A map is listed first where it is taken from: of several between the same
/// volumes the first counts.
pub proof fn law_first_map_counts(sample: AtlasSample, source: Seq<char>, target: Seq<char>, i: int, j: int)
    requires
        source != target,
        0 <= i < sample.sample.volume_transforms@.len(),
        0 <= j < sample.sample.volume_transforms@[i].transforms@.len(),
        sample.sample.volume_transforms@[i].from_volume_id@ == source,
        sample.sample.volume_transforms@[i].transforms@[j].to_volume_id@ == target,
        forall|k: int|
            0 <= k < i ==> (#[trigger] sample.sample.volume_transforms@[k]).from_volume_id@ != source,
        forall|k: int|
            0 <= k < j ==> (
            #[trigger] sample.sample.volume_transforms@[i].transforms@[k]).to_volume_id@ != target,
    ensures
        sample.transform(source, target) == Some(
            sample.sample.volume_transforms@[i].transforms@[j].matrix,
        ),
{
    let all = sample.sample.volume_transforms@;
    lemma_map_to_first(all[i].transforms@, target, 0, j);
    lemma_map_between_first(all, source, target, 0, i);
}

proof fn lemma_map_to_first(transforms: Seq<TransformTo>, target: Seq<char>, from: int, j: int)
    requires
        0 <= from <= j < transforms.len(),
        transforms[j].to_volume_id@ == target,
        forall|k: int| from <= k < j ==> (#[trigger] transforms[k]).to_volume_id@ != target,
    ensures
        map_to(transforms, target, from) == Some(transforms[j].matrix),
    decreases j - from,
{
    if from < j {
        assert(transforms[from].to_volume_id@ != target);
        lemma_map_to_first(transforms, target, from + 1, j);
    }
}

proof fn lemma_map_between_first(all: Seq<VolumeTransforms>, source: Seq<char>, target: Seq<char>, from: int, i: int)
    requires
        0 <= from <= i < all.len(),
        all[i].from_volume_id@ == source,
        map_to(all[i].transforms@, target, 0) is Some,
        forall|k: int| from <= k < i ==> (#[trigger] all[k]).from_volume_id@ != source,
    ensures
        map_between(all, source, target, from) == map_to(all[i].transforms@, target, 0),
    decreases i - from,
{
    if from < i {
        assert(all[from].from_volume_id@ != source);
        lemma_map_between_first(all, source, target, from + 1, i);
    }
}

/// The volumes that a segment can be rendered from are listed in their order,
/// each once: those it was made from or is covered by, and those that a map
/// leads to from the one it was made from.
pub proof fn law_rendering_volumes_are_listed(sample: AtlasSample, segment: Segment, n: int, v: int)
    requires
        0 <= v < n <= sample.volumes.entries@.len(),
    ensures
        ({
            let places = sample.rendering_places(segment, n);
            let id = sample.volumes.entries@[v].0@;
            &&& places.contains(v) <==> (id == segment.original_volume_id@ || segment.covered_by(id)
                || sample.transform(segment.original_volume_id@, id) is Some)
            &&& forall|a: int, b: int|
                0 <= a < b < places.len() ==> #[trigger] places[a] < #[trigger] places[b]
        }),
{
    lemma_rendering_places(sample, segment, n, v);
}

proof fn lemma_rendering_places(sample: AtlasSample, segment: Segment, n: int, v: int)
    requires
        0 <= n <= sample.volumes.entries@.len(),
        0 <= v,
    ensures
        ({
            let places = sample.rendering_places(segment, n);
            &&& places.contains(v) <==> v < n && sample.renders(segment, sample.volumes.entries@[v].0@)
            &&& forall|a: int| 0 <= a < places.len() ==> 0 <= #[trigger] places[a] < n
            &&& forall|a: int, b: int|
                0 <= a < b < places.len() ==> #[trigger] places[a] < #[trigger] places[b]
        }),
    decreases n,
{
    if n > 0 {
        lemma_rendering_places(sample, segment, n - 1, v);
        let before = sample.rendering_places(segment, n - 1);
        let places = sample.rendering_places(segment, n);
        if places.len() > before.len() {
            assert(places[places.len() - 1] == n - 1);
            if before.contains(v) {
                assert(places[before.index_of(v)] == v);
            }
            if places.contains(v) && v != n - 1 {
                assert(before[places.index_of(v)] == v);
            }
        }
    }
}

/// The segments made from a volume are listed in their order, each once.
pub proof fn law_segments_of_a_volume_are_listed(sample: AtlasSample, volume_id: Seq<char>, n: int, v: int)
    requires
        0 <= n <= sample.segments.entries@.len(),
        0 <= v,
    ensures
        ({
            let places = sample.segment_places(volume_id, n);
            &&& places.contains(v) <==> v < n && sample.segments.entries@[v].1.original_volume_id@
                == volume_id
            &&& forall|a: int| 0 <= a < places.len() ==> 0 <= #[trigger] places[a] < n
            &&& forall|a: int, b: int|
                0 <= a < b < places.len() ==> #[trigger] places[a] < #[trigger] places[b]
        }),
    decreases n,
{
    if n > 0 {
        law_segments_of_a_volume_are_listed(sample, volume_id, n - 1, v);
        let before = sample.segment_places(volume_id, n - 1);
        let places = sample.segment_places(volume_id, n);
        if places.len() > before.len() {
            assert(places[places.len() - 1] == n - 1);
            if before.contains(v) {
                assert(places[before.index_of(v)] == v);
            }
            if places.contains(v) && v != n - 1 {
                assert(before[places.index_of(v)] == v);
            }
        }
    }
}

/// A URL is listed for every server of an origin that is for the usage, and for
/// no other.
pub proof fn law_every_server_for_the_usage_is_listed(origin: DataOrigin, usage: Seq<char>, n: int, url: Seq<char>)
    requires
        0 <= n <= origin.access_roots@.len(),
    ensures
        origin_urls(origin, usage, n).contains(url) <==> exists|i: int|
            0 <= i < n && (#[trigger] origin.access_roots@[i]).usage@ == usage && url == data_url(
                origin.access_roots@[i],
                origin.path@,
            ),
    decreases n,
{
    if n > 0 {
        law_every_server_for_the_usage_is_listed(origin, usage, n - 1, url);
        let before = origin_urls(origin, usage, n - 1);
        let now = origin_urls(origin, usage, n);
        let root = origin.access_roots@[n - 1];
        if root.usage@ == usage {
            assert(now[now.len() - 1] == data_url(root, origin.path@));
            if before.contains(url) {
                assert(now[before.index_of(url)] == url);
            }
            if now.contains(url) && url != data_url(root, origin.path@) {
                assert(before[now.index_of(url)] == url);
            }
        }
    }
}

/// The data of a type is taken from the first origin that has a server for
/// standard use.
pub proof fn law_first_standard_origin_is_taken(data: Seq<DataEntry>, data_type: Seq<char>, i: int, j: int)
    requires
        0 <= i < data.len(),
        0 <= j < data[i].origins@.len(),
        data[i].data_type@ == data_type,
        serves(data[i].origins@[j], "standard"@),
        forall|k: int| 0 <= k < i ==> (#[trigger] data[k]).data_type@ != data_type,
        forall|k: int| 0 <= k < j ==> !serves(#[trigger] data[i].origins@[k], "standard"@),
    ensures
        standard_url(data, data_type) == Some(
            "https://data.aws.ash2txt.org/samples/"@ + without_front_slashes(data[i].origins@[j].path@),
        ),
{
    lemma_origin_for_first(data[i].origins@, "standard"@, 0, j);
    lemma_standard_origin_first(data, data_type, 0, i);
}

proof fn lemma_origin_for_first(origins: Seq<DataOrigin>, usage: Seq<char>, from: int, j: int)
    requires
        0 <= from <= j < origins.len(),
        serves(origins[j], usage),
        forall|k: int| from <= k < j ==> !serves(#[trigger] origins[k], usage),
    ensures
        origin_for(origins, usage, from) == Some(origins[j]),
    decreases j - from,
{
    if from < j {
        assert(!serves(origins[from], usage));
        lemma_origin_for_first(origins, usage, from + 1, j);
    }
}

proof fn lemma_standard_origin_first(data: Seq<DataEntry>, data_type: Seq<char>, from: int, i: int)
    requires
        0 <= from <= i < data.len(),
        data[i].data_type@ == data_type,
        origin_for(data[i].origins@, "standard"@, 0) is Some,
        forall|k: int| from <= k < i ==> (#[trigger] data[k]).data_type@ != data_type,
    ensures
        standard_origin(data, data_type, from) == origin_for(data[i].origins@, "standard"@, 0),
    decreases i - from,
{
    if from < i {
        assert(data[from].data_type@ != data_type);
        lemma_standard_origin_first(data, data_type, from + 1, i);
    }
}

/// A table has an item under an id where one of its entries bears the id, and it
/// is that entry's.
pub proof fn law_item_is_its_entry<T>(t: Table<T>, id: Seq<char>, i: int)
    requires
        t.wf(),
        0 <= i < t.entries@.len(),
    ensures
        t.entries@[i].0@ == id ==> t.has(id) && t.item(id) == t.entries@[i].1,
        t.has(id) <==> exists|k: int| 0 <= k < t.entries@.len() && (#[trigger] t.entries@[k]).0@ == id,
{
    lemma_place_of(t.entries@, id, t.entries@.len() as int);
    if t.has(id) {
        let k = place_of(t.entries@, id, t.entries@.len() as int)->0;
        assert(t.entries@[k].0@ == id);
        if t.entries@[i].0@ == id && k != i {
            if k < i {
                assert(t.entries@[k].0@ != t.entries@[i].0@);
            } else {
                assert(t.entries@[i].0@ != t.entries@[k].0@);
            }
        }
    }
}

/// The URLs of an entry are those of its origins, one origin after the other.
pub proof fn law_origins_follow_each_other(origins: Seq<DataOrigin>, usage: Seq<char>, n: int, k: int, i: int)
    requires
        0 <= k < n <= origins.len(),
        0 <= i < origin_urls(origins[k], usage, origins[k].access_roots@.len() as int).len(),
    ensures
        entry_urls(origins, usage, k).len() + i < entry_urls(origins, usage, n).len(),
        entry_urls(origins, usage, n)[entry_urls(origins, usage, k).len() + i] == origin_urls(
            origins[k],
            usage,
            origins[k].access_roots@.len() as int,
        )[i],
    decreases n - k,
{
    if n > k + 1 {
        law_origins_follow_each_other(origins, usage, n - 1, k, i);
    } else {
        assert(n - 1 == k);
        assert(origins[n - 1] == origins[k]);
    }
}

} // verus!
