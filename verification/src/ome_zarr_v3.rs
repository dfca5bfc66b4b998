//! Filling cache chunks from sharded arrays, whose native chunks are parts of
//! shard files that an index in each shard locates.
use crate::backfiller::{BackfillError, SourceSpec};
use crate::chunk::ChunkKey;
use crate::ome_zarr;
use crate::ome_zarr::{box_coords, covered_cache_chunks, overlapping, NativeGrid};
use crate::text;
use vstd::prelude::*;

verus! {

/// A native chunk of a sharded array: its shard, and its entry in the shard's
/// index.
#[derive(Debug, Clone, Copy)]
pub struct SubChunk {
    pub coord: [u64; 3],
    pub shard: [u64; 3],
    pub entry: u64,
}

/// The shards hold chunks, and their entries can be counted.
pub open spec fn per_shard_ok(per: [u64; 3]) -> bool {
    &&& per@[0] > 0
    &&& per@[1] > 0
    &&& per@[2] > 0
    &&& per@[0] * per@[1] * per@[2] <= u64::MAX
}

/// The shard that native chunk `c` is part of.
pub open spec fn shard_of(c: [u64; 3], per: [u64; 3]) -> [u64; 3] {
    [c@[0] / per@[0], c@[1] / per@[1], c@[2] / per@[2]]
}

/// The entry of native chunk `c` in its shard's index, x running fastest.
pub open spec fn entry_of(c: [u64; 3], per: [u64; 3]) -> int {
    ((c@[0] % per@[0]) * per@[1] + c@[1] % per@[1]) * per@[2] + c@[2] % per@[2]
}

fn locate(c: [u64; 3], per: [u64; 3]) -> (s: SubChunk)
    requires
        per_shard_ok(per),
    ensures
        s.coord == c,
        s.shard == shard_of(c, per),
        s.entry == entry_of(c, per),
{
    let (z, y, x) = (c[0] % per[0], c[1] % per[1], c[2] % per[2]);
    proof {
        ome_zarr::lemma_flat_below(
            z as int,
            y as int,
            x as int,
            per@[0] as int,
            per@[1] as int,
            per@[2] as int,
        );
        assert(0 <= z * per@[1]) by (nonlinear_arith)
            requires
                0 <= z,
                0 < per@[1],
        ;
        let q = z * per@[1] + y;
        assert(q <= q * per@[2]) by (nonlinear_arith)
            requires
                q >= 0,
                per@[2] >= 1,
        ;
    }
    let shard: [u64; 3] = [c[0] / per[0], c[1] / per[1], c[2] / per[2]];
    assert(shard =~= shard_of(c, per));
    SubChunk { coord: c, shard, entry: (z * per[1] + y) * per[2] + x }
}

/// The native chunks that a cache chunk overlaps, x running fastest, with
/// their places in their shards. The host looks each one's entry up before the
/// plan is made.
pub fn sub_chunks(key: ChunkKey, g: NativeGrid, per: [u64; 3]) -> (r: Result<
    Vec<SubChunk>,
    BackfillError,
>)
    requires
        g.ok(),
        per_shard_ok(per),
    ensures
        match r {
            Ok(v) => {
                let b = ome_zarr::overlap(key, g);
                &&& ome_zarr::in_volume(key, g.shape)
                &&& v@.len() == ome_zarr::volume_of(b)
                &&& forall|i: int|
                    0 <= i < v@.len() ==> {
                        &&& (#[trigger] v@[i]).coord == ome_zarr::box_coord(b, i)
                        &&& v@[i].shard == shard_of(ome_zarr::box_coord(b, i), per)
                        &&& v@[i].entry == entry_of(ome_zarr::box_coord(b, i), per)
                    }
            },
            Err(e) => e is OutOfBounds && !ome_zarr::in_volume(key, g.shape),
        },
{
    let b = match overlapping(key, g) {
        Some(b) => b,
        None => {
            return Err(BackfillError::OutOfBounds);
        },
    };
    proof {
        ome_zarr::lemma_overlap_fits(key, g);
    }
    let coords = box_coords(b);
    let mut out: Vec<SubChunk> = Vec::new();
    let mut i: usize = 0;
    while i < coords.len()
        invariant
            i <= coords@.len(),
            per_shard_ok(per),
            out@.len() == i,
            forall|j: int|
                0 <= j < coords@.len() ==> #[trigger] coords@[j] == ome_zarr::box_coord(b, j),
            forall|j: int|
                0 <= j < i ==> {
                    &&& (#[trigger] out@[j]).coord == ome_zarr::box_coord(b, j)
                    &&& out@[j].shard == shard_of(ome_zarr::box_coord(b, j), per)
                    &&& out@[j].entry == entry_of(ome_zarr::box_coord(b, j), per)
                },
        decreases coords.len() - i,
    {
        out.push(locate(coords[i], per));
        i = i + 1;
    }
    Ok(out)
}

/// A native chunk that a plan downloads: its name, its shard, and the bytes of
/// the shard's file that hold it.
#[derive(Debug)]
pub struct SubSource {
    pub coord: [u64; 3],
    pub shard: [u64; 3],
    pub range: (u64, u64),
    pub name: String,
}

/// How to fill a cache chunk from parts of shard files.
#[derive(Debug)]
pub struct SubPlan {
    pub covered: Vec<ChunkKey>,
    pub sources: Vec<SubSource>,
}

/// The name of a native chunk of a sharded array.
pub open spec fn sub_name(volume_id: Seq<char>, lod: u8, shard: [u64; 3], entry: int) -> Seq<char> {
    volume_id + "/L"@ + text::padded(lod as nat, 2) + "/c/"@ + text::decimal(shard@[0] as nat) + "_"@
        + text::decimal(shard@[1] as nat) + "_"@ + text::decimal(shard@[2] as nat) + "/sub_"@
        + text::padded(entry as nat, 5)
}

fn name_sub(volume_id: &str, lod: u8, shard: [u64; 3], entry: u64) -> (s: String)
    ensures
        s@ == sub_name(volume_id@, lod, shard, entry as int),
{
    let mut out = text::to_chars(volume_id);
    text::push_text(&mut out, "/L");
    text::push_padded(&mut out, lod as u64, 2);
    text::push_text(&mut out, "/c/");
    text::push_decimal(&mut out, shard[0]);
    text::push_text(&mut out, "_");
    text::push_decimal(&mut out, shard[1]);
    text::push_text(&mut out, "_");
    text::push_decimal(&mut out, shard[2]);
    text::push_text(&mut out, "/sub_");
    text::push_padded(&mut out, entry, 5);
    text::from_chars(&out)
}

/// The indices, among the first `n`, of the chunks that the shards hold.
pub open spec fn present(entries: Seq<Option<(u64, u64)>>, n: nat) -> Seq<int>
    decreases n,
{
    if n == 0 {
        Seq::empty()
    } else {
        let before = present(entries, (n - 1) as nat);
        if entries[n - 1] is Some {
            before.push(n - 1)
        } else {
            before
        }
    }
}

/// Whether a source is native chunk `i`, at the bytes that its entry gives.
pub open spec fn is_source(
    s: SubSource,
    volume_id: Seq<char>,
    lod: u8,
    sub: SubChunk,
    entry: Option<(u64, u64)>,
) -> bool {
    &&& s.coord == sub.coord
    &&& s.shard == sub.shard
    &&& entry == Some(s.range)
    &&& s.name@ == sub_name(volume_id, lod, sub.shard, sub.entry as int)
}

/// The plan for a cache chunk. `subs` are the native chunks that it overlaps
/// and `entries` their index entries; a chunk whose shard is absent or whose
/// entry is void has none. Each chunk that is there is a source. Only the chunk
/// asked for is filled, so that decoding is paid for by what is looked at;
/// where nothing is there, every chunk that lies in the same native chunks is
/// filled, for nothing.
pub fn plan_v3_chunk(
    volume_id: &str,
    key: ChunkKey,
    g: NativeGrid,
    subs: &Vec<SubChunk>,
    entries: &Vec<Option<(u64, u64)>>,
) -> (p: SubPlan)
    requires
        g.ok(),
        ome_zarr::in_volume(key, g.shape),
        subs@.len() == entries@.len(),
    ensures
        p.covered@ == (if present(entries@, entries@.len()).len() == 0 {
            ome_zarr::covered(ome_zarr::overlap(key, g), g, key.lod)
        } else {
            seq![key]
        }),
        p.sources@.len() == present(entries@, entries@.len()).len(),
        forall|j: int|
            0 <= j < p.sources@.len() ==> {
                let i = present(entries@, entries@.len())[j];
                is_source(#[trigger] p.sources@[j], volume_id@, key.lod, subs@[i], entries@[i])
            },
{
    let mut sources: Vec<SubSource> = Vec::new();
    let mut i: usize = 0;
    while i < subs.len()
        invariant
            i <= subs@.len(),
            subs@.len() == entries@.len(),
            sources@.len() == present(entries@, i as nat).len(),
            forall|j: int|
                0 <= j < sources@.len() ==> {
                    let k = present(entries@, i as nat)[j];
                    is_source(#[trigger] sources@[j], volume_id@, key.lod, subs@[k], entries@[k])
                },
        decreases subs.len() - i,
    {
        match entries[i] {
            Some(range) => {
                let sub = subs[i];
                sources.push(
                    SubSource {
                        coord: sub.coord,
                        shard: sub.shard,
                        range,
                        name: name_sub(volume_id, key.lod, sub.shard, sub.entry),
                    },
                );
            },
            None => {},
        }
        i = i + 1;
    }
    let covered = if sources.len() == 0 {
        match overlapping(key, g) {
            Some(b) => covered_cache_chunks(b, g, key.lod),
            None => Vec::new(),
        }
    } else {
        let mut one: Vec<ChunkKey> = Vec::new();
        one.push(key);
        assert(one@ =~= seq![key]);
        one
    };
    SubPlan { covered, sources }
}

/// The distinct shards of the first `n` native chunks, each where it first
/// occurs: the indices that a plan needs.
pub open spec fn shards_needed(subs: Seq<SubChunk>, n: nat) -> Seq<[u64; 3]>
    decreases n,
{
    if n == 0 {
        Seq::empty()
    } else {
        let before = shards_needed(subs, (n - 1) as nat);
        if before.contains(subs[n - 1].shard) {
            before
        } else {
            before.push(subs[n - 1].shard)
        }
    }
}

/// The shards whose indices a plan needs, none twice.
pub fn needed_shards(subs: &Vec<SubChunk>) -> (out: Vec<[u64; 3]>)
    ensures
        out@ == shards_needed(subs@, subs@.len()),
{
    let mut out: Vec<[u64; 3]> = Vec::new();
    let mut i: usize = 0;
    while i < subs.len()
        invariant
            i <= subs@.len(),
            out@ == shards_needed(subs@, i as nat),
        decreases subs.len() - i,
    {
        let shard = subs[i].shard;
        let mut seen = false;
        let mut k: usize = 0;
        while k < out.len() && !seen
            invariant
                k <= out@.len(),
                seen ==> out@.contains(shard),
                !seen ==> forall|j: int| 0 <= j < k ==> #[trigger] out@[j] != shard,
            decreases out.len() - k + (if seen { 0int } else { 1 }),
        {
            let o = out[k];
            if o[0] == shard[0] && o[1] == shard[1] && o[2] == shard[2] {
                assert(o =~= shard);
                assert(out@[k as int] == shard);
                seen = true;
            } else {
                k = k + 1;
            }
        }
        if !seen {
            out.push(shard);
        }
        i = i + 1;
    }
    out
}

/// A part of a shard's file as a source.
pub fn sub_spec(source: u64, url: String, range: (u64, u64)) -> (s: SourceSpec)
    ensures
        s == (SourceSpec::Download { source, url, range: Some(range) }),
{
    SourceSpec::Download { source, url, range: Some(range) }
}

/// What is said of a native chunk that cannot be decoded.
pub open spec fn undecodable(coord: [u64; 3], error: Seq<char>) -> Seq<char> {
    "c3d decode at "@ + text::list_text(coord@) + ": "@ + error
}

/// The failure of an extract whose native chunk cannot be decoded.
pub fn decode_failure(coord: [u64; 3], error: &str) -> (e: BackfillError)
    ensures
        e matches BackfillError::Permanent(s) && s@ == undecodable(coord, error@),
{
    let mut out = text::to_chars("c3d decode at ");
    text::push_list(&mut out, &coord);
    text::push_text(&mut out, ": ");
    text::push_text(&mut out, error);
    BackfillError::Permanent(text::from_chars(&out))
}

/// What is said of an array that has not three axes.
pub open spec fn not_3d(shape: Seq<u64>) -> Seq<char> {
    "v3 array shape is not 3D: "@ + text::list_text(shape)
}

/// The shape of a sharded array, which must have three axes.
pub fn array_shape(shape: &[u64]) -> (r: Result<[u64; 3], BackfillError>)
    ensures
        match r {
            Ok(a) => shape@.len() == 3 && a@ == shape@,
            Err(e) => shape@.len() != 3 && (e matches BackfillError::Permanent(s) && s@ == not_3d(
                shape@,
            )),
        },
{
    if shape.len() != 3 {
        let mut out = text::to_chars("v3 array shape is not 3D: ");
        text::push_list(&mut out, shape);
        return Err(BackfillError::Permanent(text::from_chars(&out)));
    }
    let a: [u64; 3] = [shape[0], shape[1], shape[2]];
    assert(a@ =~= shape@);
    Ok(a)
}

/// Every plan covers the chunk that it is for.
pub proof fn law_sharded_plan_covers_its_chunk(
    key: ChunkKey,
    g: NativeGrid,
    entries: Seq<Option<(u64, u64)>>,
    covered: Seq<ChunkKey>,
)
    requires
        g.ok(),
        ome_zarr::in_volume(key, g.shape),
        covered == (if present(entries, entries.len()).len() == 0 {
            ome_zarr::covered(ome_zarr::overlap(key, g), g, key.lod)
        } else {
            seq![key]
        }),
    ensures
        covered.contains(key),
{
    ome_zarr::law_plan_covers_its_chunk(key, g);
    assert(seq![key][0] == key);
}

/// Where native chunk `(a, b, c)` of a shard is looked up: in that shard, and
/// there at the entry that counts the shard's chunks with the last axis running
/// fastest.
pub proof fn law_chunk_is_looked_up_in_its_shard(
    shard: [u64; 3],
    a: int,
    b: int,
    c: int,
    per: [u64; 3],
    coord: [u64; 3],
)
    requires
        per_shard_ok(per),
        0 <= a < per@[0],
        0 <= b < per@[1],
        0 <= c < per@[2],
        coord@[0] == shard@[0] * per@[0] + a,
        coord@[1] == shard@[1] * per@[1] + b,
        coord@[2] == shard@[2] * per@[2] + c,
    ensures
        shard_of(coord, per) == shard,
        entry_of(coord, per) == (a * per@[1] + b) * per@[2] + c,
{
    vstd::arithmetic::div_mod::lemma_fundamental_div_mod_converse(
        coord@[0] as int,
        per@[0] as int,
        shard@[0] as int,
        a,
    );
    vstd::arithmetic::div_mod::lemma_fundamental_div_mod_converse(
        coord@[1] as int,
        per@[1] as int,
        shard@[1] as int,
        b,
    );
    vstd::arithmetic::div_mod::lemma_fundamental_div_mod_converse(
        coord@[2] as int,
        per@[2] as int,
        shard@[2] as int,
        c,
    );
    assert(shard_of(coord, per) =~= shard);
}

/// The native chunks that are sources are, each once and in order, those whose
/// shards hold them.
pub proof fn law_sources_are_those_present(entries: Seq<Option<(u64, u64)>>, n: nat)
    requires
        n <= entries.len(),
    ensures
        forall|i: int| 0 <= i < n ==> (#[trigger] entries[i] is Some <==> present(entries, n).contains(i)),
        forall|j: int|
            0 <= j < present(entries, n).len() ==> 0 <= #[trigger] present(entries, n)[j] < n,
        forall|j: int, k: int|
            0 <= j < k < present(entries, n).len() ==> #[trigger] present(entries, n)[j]
                < #[trigger] present(entries, n)[k],
    decreases n,
{
    if n > 0 {
        law_sources_are_those_present(entries, (n - 1) as nat);
        let before = present(entries, (n - 1) as nat);
        let now = present(entries, n);
        assert forall|i: int| 0 <= i < n implies (#[trigger] entries[i] is Some <==> now.contains(i)) by {
            if i < n - 1 {
                if before.contains(i) {
                    let j = choose|j: int| 0 <= j < before.len() && before[j] == i;
                    assert(now[j] == i);
                }
                if now.contains(i) {
                    let j = choose|j: int| 0 <= j < now.len() && now[j] == i;
                    assert(before[j] == i);
                }
            } else {
                if entries[i] is Some {
                    assert(now.last() == i);
                    assert(now[now.len() - 1] == i);
                } else if now.contains(i) {
                    let j = choose|j: int| 0 <= j < now.len() && now[j] == i;
                    assert(before[j] == i);
                }
            }
        }
    }
}

/// The shards that a plan needs are those of its native chunks, none twice.
pub proof fn law_shards_needed_are_those_of_the_chunks(subs: Seq<SubChunk>, n: nat, shard: [u64; 3])
    requires
        n <= subs.len(),
    ensures
        shards_needed(subs, n).contains(shard) <==> exists|i: int|
            0 <= i < n && (#[trigger] subs[i]).shard == shard,
        shards_needed(subs, n).no_duplicates(),
    decreases n,
{
    if n > 0 {
        law_shards_needed_are_those_of_the_chunks(subs, (n - 1) as nat, shard);
        let before = shards_needed(subs, (n - 1) as nat);
        let now = shards_needed(subs, n);
        let last = subs[n - 1].shard;
        if before.contains(shard) {
            let j = choose|j: int| 0 <= j < before.len() && before[j] == shard;
            assert(now[j] == shard);
            let i = choose|i: int| 0 <= i < n - 1 && (#[trigger] subs[i]).shard == shard;
            assert(subs[i].shard == shard);
        } else if shard == last {
            assert(now[now.len() - 1] == shard);
            assert(subs[n - 1].shard == shard);
        } else if now.contains(shard) {
            let j = choose|j: int| 0 <= j < now.len() && now[j] == shard;
            assert(before[j] == shard);
        }
    }
}

/// The name of a native chunk holds, each with a digit at least, its level, the
/// place of its shard on the three axes and its entry there.
pub proof fn law_sub_name_names_its_place(volume_id: Seq<char>, lod: u8, shard: [u64; 3], entry: u64) -> (parts: (
    Seq<char>,
    Seq<char>,
    Seq<char>,
    Seq<char>,
    Seq<char>,
))
    ensures
        sub_name(volume_id, lod, shard, entry as int) == volume_id + "/L"@ + parts.0 + "/c/"@ + parts.1 + "_"@
            + parts.2 + "_"@ + parts.3 + "/sub_"@ + parts.4,
        text::parsed_unsigned(parts.0, u64::MAX as nat) == Some(lod as nat),
        text::parsed_unsigned(parts.1, u64::MAX as nat) == Some(shard@[0] as nat),
        text::parsed_unsigned(parts.2, u64::MAX as nat) == Some(shard@[1] as nat),
        text::parsed_unsigned(parts.3, u64::MAX as nat) == Some(shard@[2] as nat),
        text::parsed_unsigned(parts.4, u64::MAX as nat) == Some(entry as nat),
        parts.0.len() >= 2,
        parts.4.len() >= 5,
{
    let max = u64::MAX as nat;
    text::law_numeral_reads_back(lod as nat, 2, max);
    text::law_numeral_reads_back(shard@[0] as nat, 0, max);
    text::law_numeral_reads_back(shard@[1] as nat, 0, max);
    text::law_numeral_reads_back(shard@[2] as nat, 0, max);
    text::law_numeral_reads_back(entry as nat, 5, max);
    (
        text::padded(lod as nat, 2),
        text::decimal(shard@[0] as nat),
        text::decimal(shard@[1] as nat),
        text::decimal(shard@[2] as nat),
        text::padded(entry as nat, 5),
    )
}

} // verus!
