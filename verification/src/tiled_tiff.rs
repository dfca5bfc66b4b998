//! The bookkeeping of a tiled gray TIFF that is written tile by tile, in any
//! order.
use crate::text;
use vstd::prelude::*;

verus! {

/// One tile's gray pixels, row by row, padded to the full tile.
#[derive(Debug)]
pub struct TileGray {
    pub col: usize,
    pub row: usize,
    pub data: Vec<u8>,
}

/// Files with this many bytes of pixels or more get sixty-four-bit offsets.
pub const BIGTIFF_THRESHOLD: u64 = 0x8000_0000;

/// Why a tiled file cannot be written.
#[derive(Debug, Clone, Copy, PartialEq, Eq, Structural)]
pub enum TiffError {
    /// The tile's edge is no positive multiple of sixteen.
    TileSize { tile_size: usize },
    /// A tile has another number of bytes than its edge says.
    TileBytes { col: usize, row: usize, bytes: usize, expected: usize, tile_size: usize },
    /// A tile lies outside the grid.
    OutOfRange { col: usize, row: usize, across: usize, down: usize },
    /// Not every tile came.
    Incomplete { written: usize, tiles: usize, width: usize, height: usize },
}

impl TiffError {
    /// The error in words.
    pub open spec fn words(self) -> Seq<char> {
        match self {
            TiffError::TileSize { tile_size } =>
                "tiled TIFF requires tile_size to be a positive multiple of 16, got "@
                    + text::decimal(tile_size as nat),
            TiffError::TileBytes { col, row, bytes, expected, tile_size } => "tile ("@ + text::decimal(
                col as nat,
            ) + ","@ + text::decimal(row as nat) + ") has "@ + text::decimal(bytes as nat)
                + " bytes, expected "@ + text::decimal(expected as nat) + " ("@ + text::decimal(
                tile_size as nat,
            ) + "x"@ + text::decimal(tile_size as nat) + ")"@,
            TiffError::OutOfRange { col, row, across, down } => "tile ("@ + text::decimal(col as nat)
                + ","@ + text::decimal(row as nat) + ") out of range "@ + text::decimal(across as nat)
                + "x"@ + text::decimal(down as nat),
            TiffError::Incomplete { written, tiles, width, height } =>
                "tiled TIFF incomplete: wrote "@ + text::decimal(written as nat) + " of "@
                    + text::decimal(tiles as nat) + " tiles for "@ + text::decimal(width as nat) + "x"@
                    + text::decimal(height as nat) + " image"@,
        }
    }

    /// The error in words.
    pub fn text(&self) -> (s: String)
        ensures
            s@ == self.words(),
    {
        match *self {
            TiffError::TileSize { tile_size } => {
                let mut out = text::to_chars(
                    "tiled TIFF requires tile_size to be a positive multiple of 16, got ",
                );
                text::push_decimal(&mut out, tile_size as u64);
                text::from_chars(&out)
            },
            TiffError::TileBytes { col, row, bytes, expected, tile_size } => {
                let mut out = text::to_chars("tile (");
                text::push_decimal(&mut out, col as u64);
                text::push_text(&mut out, ",");
                text::push_decimal(&mut out, row as u64);
                text::push_text(&mut out, ") has ");
                text::push_decimal(&mut out, bytes as u64);
                text::push_text(&mut out, " bytes, expected ");
                text::push_decimal(&mut out, expected as u64);
                text::push_text(&mut out, " (");
                text::push_decimal(&mut out, tile_size as u64);
                text::push_text(&mut out, "x");
                text::push_decimal(&mut out, tile_size as u64);
                text::push_text(&mut out, ")");
                text::from_chars(&out)
            },
            TiffError::OutOfRange { col, row, across, down } => {
                let mut out = text::to_chars("tile (");
                text::push_decimal(&mut out, col as u64);
                text::push_text(&mut out, ",");
                text::push_decimal(&mut out, row as u64);
                text::push_text(&mut out, ") out of range ");
                text::push_decimal(&mut out, across as u64);
                text::push_text(&mut out, "x");
                text::push_decimal(&mut out, down as u64);
                text::from_chars(&out)
            },
            TiffError::Incomplete { written, tiles, width, height } => {
                let mut out = text::to_chars("tiled TIFF incomplete: wrote ");
                text::push_decimal(&mut out, written as u64);
                text::push_text(&mut out, " of ");
                text::push_decimal(&mut out, tiles as u64);
                text::push_text(&mut out, " tiles for ");
                text::push_decimal(&mut out, width as u64);
                text::push_text(&mut out, "x");
                text::push_decimal(&mut out, height as u64);
                text::push_text(&mut out, " image");
                text::from_chars(&out)
            },
        }
    }
}

/// Whether a picture's file needs sixty-four-bit offsets.
pub fn needs_bigtiff(width: usize, height: usize) -> (r: bool)
    ensures
        r == (width * height >= BIGTIFF_THRESHOLD),
{
    assert(0 <= width * height <= 0xffff_ffff_ffff_ffff * 0xffff_ffff_ffff_ffff) by (nonlinear_arith)
        requires
            0 <= width <= 0xffff_ffff_ffff_ffff,
            0 <= height <= 0xffff_ffff_ffff_ffff,
    ;
    (width as u128) * (height as u128) >= BIGTIFF_THRESHOLD as u128
}

/// The value of a tag.
#[derive(Debug, Clone, Copy, PartialEq, Eq, Structural)]
pub enum TagValue {
    Short(u16),
    Long(u32),
}

/// A length as a tag holds it: its low thirty-two bits.
pub open spec fn tag_length(n: usize) -> TagValue {
    TagValue::Long((n as u64 % 0x1_0000_0000) as u32)
}

/// The tags of a tiled picture of uncompressed eight-bit samples, one to a
/// pixel, black being zero: numbers and values. The tables of the tiles and the
/// description come on top.
pub open spec fn baseline(width: usize, height: usize, tile_size: usize) -> Seq<(u16, TagValue)> {
    seq![
        (256u16, tag_length(width)),
        (257u16, tag_length(height)),
        (258u16, TagValue::Short(8)),
        (259u16, TagValue::Short(1)),
        (262u16, TagValue::Short(1)),
        (277u16, TagValue::Short(1)),
        (284u16, TagValue::Short(1)),
        (322u16, tag_length(tile_size)),
        (323u16, tag_length(tile_size)),
    ]
}

fn length_value(n: usize) -> (v: TagValue)
    ensures
        v == tag_length(n),
{
    TagValue::Long((n as u64 % 0x1_0000_0000) as u32)
}

/// The tags of a tiled gray picture (see `baseline`).
pub fn baseline_tags(width: usize, height: usize, tile_size: usize) -> (tags: Vec<(u16, TagValue)>)
    ensures
        tags@ == baseline(width, height, tile_size),
{
    let mut tags: Vec<(u16, TagValue)> = Vec::new();
    tags.push((256, length_value(width)));
    tags.push((257, length_value(height)));
    tags.push((258, TagValue::Short(8)));
    tags.push((259, TagValue::Short(1)));
    tags.push((262, TagValue::Short(1)));
    tags.push((277, TagValue::Short(1)));
    tags.push((284, TagValue::Short(1)));
    tags.push((322, length_value(tile_size)));
    tags.push((323, length_value(tile_size)));
    assert(tags@ =~= baseline(width, height, tile_size));
    tags
}

/// `a / b`, rounded up.
pub open spec fn ceiling(a: int, b: int) -> int {
    (a + b - 1) / b
}

/// Where every tile of a picture stands in its file.
#[derive(Debug)]
pub struct TileLedger {
    pub width: usize,
    pub height: usize,
    pub tile_size: usize,
    pub across: usize,
    pub down: usize,
    pub offsets: Vec<u64>,
    pub byte_counts: Vec<u32>,
    pub seen: Vec<bool>,
    pub written: usize,
}

/// How many of the first `n` flags are set.
pub open spec fn set_flags(seen: Seq<bool>, n: nat) -> nat
    decreases n,
{
    if n == 0 {
        0
    } else {
        set_flags(seen, (n - 1) as nat) + if seen[n - 1] {
            1nat
        } else {
            0
        }
    }
}

proof fn lemma_set_flags(seen: Seq<bool>, n: nat)
    requires
        n <= seen.len(),
    ensures
        set_flags(seen, n) <= n,
        set_flags(seen, n) == n <==> forall|i: int| 0 <= i < n ==> #[trigger] seen[i],
    decreases n,
{
    if n > 0 {
        lemma_set_flags(seen, (n - 1) as nat);
        if forall|i: int| 0 <= i < n ==> #[trigger] seen[i] {
            assert(seen[n - 1]);
        }
        if set_flags(seen, n) == n {
            assert forall|i: int| 0 <= i < n implies #[trigger] seen[i] by {
                if i < n - 1 {
                }
            }
        }
    }
}

proof fn lemma_flag_set(seen: Seq<bool>, at: int, n: nat)
    requires
        0 <= at < seen.len(),
        n <= seen.len(),
    ensures
        set_flags(seen.update(at, true), n) == set_flags(seen, n) + (if at < n && !seen[at] {
            1int
        } else {
            0
        }),
    decreases n,
{
    if n > 0 {
        lemma_flag_set(seen, at, (n - 1) as nat);
    }
}

fn tiles_along(len: usize, tile_size: usize) -> (n: usize)
    requires
        tile_size > 0,
    ensures
        n == ceiling(len as int, tile_size as int),
{
    let (q, r) = (len / tile_size, len % tile_size);
    proof {
        let (l, t) = (len as int, tile_size as int);
        vstd::arithmetic::div_mod::lemma_fundamental_div_mod(l, t);
        if r == 0 {
            vstd::arithmetic::div_mod::lemma_fundamental_div_mod_converse(l + t - 1, t, q as int, t - 1);
        } else {
            assert(q <= len - 1) by (nonlinear_arith)
                requires
                    l == t * q + r,
                    r > 0,
                    t > 0,
                    q >= 0,
                    l == len,
            ;
            assert((q + 1) * t == t * q + t) by (nonlinear_arith);
            vstd::arithmetic::div_mod::lemma_fundamental_div_mod_converse(l + t - 1, t, q + 1, r - 1);
        }
    }
    if r == 0 {
        q
    } else {
        q + 1
    }
}

impl TileLedger {
    /// The grid covers the picture, every table has an entry for every tile,
    /// and the tiles that came are counted.
    pub open spec fn wf(&self) -> bool {
        &&& self.tile_size > 0
        &&& self.tile_size % 16 == 0
        &&& self.tile_size * self.tile_size <= u32::MAX
        &&& self.across == ceiling(self.width as int, self.tile_size as int)
        &&& self.down == ceiling(self.height as int, self.tile_size as int)
        &&& self.seen@.len() == self.across * self.down
        &&& self.offsets@.len() == self.across * self.down
        &&& self.byte_counts@.len() == self.across * self.down
        &&& self.written == set_flags(self.seen@, self.seen@.len())
        &&& forall|i: int|
            0 <= i < self.seen@.len() && #[trigger] self.seen@[i] ==> self.byte_counts@[i]
                == self.tile_size * self.tile_size
    }

    /// A file for a picture of this size, no tile of which is there yet. The
    /// tile's edge must be a positive multiple of sixteen.
    pub fn new(width: usize, height: usize, tile_size: usize) -> (r: Result<TileLedger, TiffError>)
        requires
            tile_size > 0 && tile_size % 16 == 0 ==> tile_size * tile_size <= u32::MAX && ceiling(
                width as int,
                tile_size as int,
            ) * ceiling(height as int, tile_size as int) <= usize::MAX,
        ensures
            match r {
                Ok(l) => {
                    &&& tile_size > 0 && tile_size % 16 == 0
                    &&& l.wf()
                    &&& l.width == width
                    &&& l.height == height
                    &&& l.tile_size == tile_size
                    &&& forall|i: int| 0 <= i < l.seen@.len() ==> !#[trigger] l.seen@[i]
                },
                Err(e) => !(tile_size > 0 && tile_size % 16 == 0) && e == (TiffError::TileSize {
                    tile_size,
                }),
            },
    {
        if tile_size == 0 || tile_size % 16 != 0 {
            return Err(TiffError::TileSize { tile_size });
        }
        let across: usize = tiles_along(width, tile_size);
        let down: usize = tiles_along(height, tile_size);
        let n: usize = across * down;
        let offsets: Vec<u64> = vec![0u64; n];
        let byte_counts: Vec<u32> = vec![0u32; n];
        let seen: Vec<bool> = vec![false; n];
        proof {
            lemma_no_flags(seen@, seen@.len());
        }
        Ok(
            TileLedger {
                width,
                height,
                tile_size,
                across,
                down,
                offsets,
                byte_counts,
                seen,
                written: 0,
            },
        )
    }

    /// The place of a tile in the tables.
    pub open spec fn place(&self, col: usize, row: usize) -> int {
        row * self.across + col
    }

    /// Whether a tile can be taken, and its place. A tile of the wrong length
    /// is refused before one outside the grid.
    pub fn check(&self, tile: &TileGray) -> (r: Result<usize, TiffError>)
        requires
            self.wf(),
        ensures
            ({
                let expected = (self.tile_size * self.tile_size) as usize;
                if tile.data@.len() != expected {
                    r == Err::<usize, TiffError>(
                        TiffError::TileBytes {
                            col: tile.col,
                            row: tile.row,
                            bytes: tile.data@.len() as usize,
                            expected,
                            tile_size: self.tile_size,
                        },
                    )
                } else if tile.col >= self.across || tile.row >= self.down {
                    r == Err::<usize, TiffError>(
                        TiffError::OutOfRange {
                            col: tile.col,
                            row: tile.row,
                            across: self.across,
                            down: self.down,
                        },
                    )
                } else {
                    r matches Ok(i) && i == self.place(tile.col, tile.row) && i < self.seen@.len()
                }
            }),
    {
        let expected: usize = self.tile_size * self.tile_size;
        assert(tile.data@.len() == tile.data.len());
        if tile.data.len() != expected {
            return Err(
                TiffError::TileBytes {
                    col: tile.col,
                    row: tile.row,
                    bytes: tile.data.len(),
                    expected,
                    tile_size: self.tile_size,
                },
            );
        }
        if tile.col >= self.across || tile.row >= self.down {
            return Err(
                TiffError::OutOfRange {
                    col: tile.col,
                    row: tile.row,
                    across: self.across,
                    down: self.down,
                },
            );
        }
        proof {
            lemma_place(tile.row as int, tile.col as int, self.across as int, self.down as int);
            assert(self.seen@.len() == self.seen.len());
        }
        Ok(tile.row * self.across + tile.col)
    }

    /// Notes that the tile at `place` was written at byte `offset` of the file.
    /// A tile that comes twice counts once, and stands where it was written
    /// last.
    pub fn record(&mut self, place: usize, offset: u64)
        requires
            old(self).wf(),
            place < old(self).seen@.len(),
        ensures
            final(self).wf(),
            final(self).width == old(self).width,
            final(self).height == old(self).height,
            final(self).tile_size == old(self).tile_size,
            final(self).seen@ == old(self).seen@.update(place as int, true),
            final(self).offsets@ == old(self).offsets@.update(place as int, offset),
            final(self).byte_counts@ == old(self).byte_counts@.update(
                place as int,
                (old(self).tile_size * old(self).tile_size) as u32,
            ),
    {
        proof {
            lemma_flag_set(self.seen@, place as int, self.seen@.len());
            lemma_set_flags(self.seen@.update(place as int, true), self.seen@.len());
            assert(self.seen@.len() == self.seen.len());
        }
        self.offsets[place] = offset;
        self.byte_counts[place] = (self.tile_size * self.tile_size) as u32;
        if !self.seen[place] {
            self.seen[place] = true;
            self.written = self.written + 1;
        }
        assert(self.seen@ =~= old(self).seen@.update(place as int, true));
    }

    /// Whether every tile came.
    pub open spec fn complete(&self) -> bool {
        forall|i: int| 0 <= i < self.seen@.len() ==> #[trigger] self.seen@[i]
    }

    /// The tables of a complete file: where each tile begins, and how long it
    /// is. A file that lacks a tile has none.
    pub fn finish(self) -> (r: Result<(Vec<u64>, Vec<u32>), TiffError>)
        requires
            self.wf(),
        ensures
            match r {
                Ok((offsets, counts)) => {
                    &&& self.complete()
                    &&& offsets@ == self.offsets@
                    &&& counts@ == self.byte_counts@
                },
                Err(e) => !self.complete() && e == (TiffError::Incomplete {
                    written: self.written,
                    tiles: self.seen@.len() as usize,
                    width: self.width,
                    height: self.height,
                }),
            },
    {
        proof {
            lemma_set_flags(self.seen@, self.seen@.len());
            assert(self.seen@.len() == self.seen.len());
        }
        if self.written != self.seen.len() {
            return Err(
                TiffError::Incomplete {
                    written: self.written,
                    tiles: self.seen.len(),
                    width: self.width,
                    height: self.height,
                },
            );
        }
        Ok((self.offsets, self.byte_counts))
    }
}

proof fn lemma_no_flags(seen: Seq<bool>, n: nat)
    requires
        n <= seen.len(),
        forall|i: int| 0 <= i < seen.len() ==> !#[trigger] seen[i],
    ensures
        set_flags(seen, n) == 0,
    decreases n,
{
    if n > 0 {
        lemma_no_flags(seen, (n - 1) as nat);
    }
}

proof fn lemma_place(row: int, col: int, across: int, down: int)
    requires
        0 <= row < down,
        0 <= col < across,
    ensures
        0 <= row * across,
        0 <= row * across + col < across * down,
{
    assert(0 <= row * across && row * across + col < across * down) by (nonlinear_arith)
        requires
            0 <= row < down,
            0 <= col < across,
    ;
}

/// No two tiles of a grid have one place, so tiles may come in any order.
pub proof fn law_tiles_have_their_own_places(l: TileLedger, c1: usize, r1: usize, c2: usize, r2: usize)
    requires
        c1 < l.across,
        c2 < l.across,
        l.place(c1, r1) == l.place(c2, r2),
    ensures
        c1 == c2,
        r1 == r2,
{
    let a = l.across as int;
    vstd::arithmetic::div_mod::lemma_fundamental_div_mod_converse(
        l.place(c1, r1),
        a,
        r1 as int,
        c1 as int,
    );
    vstd::arithmetic::div_mod::lemma_fundamental_div_mod_converse(
        l.place(c2, r2),
        a,
        r2 as int,
        c2 as int,
    );
}

/// Every pixel of a picture lies in a tile of its grid.
pub proof fn law_grid_covers_the_picture(l: TileLedger, x: int, y: int)
    requires
        l.wf(),
        0 <= x < l.width,
        0 <= y < l.height,
    ensures
        0 <= x / (l.tile_size as int) < l.across,
        0 <= y / (l.tile_size as int) < l.down,
{
    lemma_in_grid(x, l.width as int, l.tile_size as int);
    lemma_in_grid(y, l.height as int, l.tile_size as int);
}

proof fn lemma_in_grid(x: int, w: int, t: int)
    requires
        0 <= x < w,
        t > 0,
    ensures
        0 <= x / t < ceiling(w, t),
{
    assert(0 <= x / t < (w + t - 1) / t) by (nonlinear_arith)
        requires
            0 <= x < w,
            t > 0,
    ;
}

/// Tiles are counted row by row, each row from the left.
pub proof fn law_tiles_are_counted_row_by_row(l: TileLedger, col: usize, row: usize)
    requires
        col < l.across,
        row < usize::MAX,
    ensures
        l.place(0, 0) == 0,
        col + 1 < l.across ==> l.place((col + 1) as usize, row) == l.place(col, row) + 1,
        col + 1 == l.across ==> l.place(0, (row + 1) as usize) == l.place(col, row) + 1,
{
    let a = l.across as int;
    assert((row + 1) * a == row * a + a) by (nonlinear_arith);
}

/// A tile of the grid has a pixel of the picture: there are no more tiles than
/// it takes to cover it.
pub proof fn law_every_tile_shows_something(l: TileLedger, col: usize, row: usize)
    requires
        l.wf(),
    ensures
        col < l.across <==> col * l.tile_size < l.width,
        row < l.down <==> row * l.tile_size < l.height,
{
    lemma_tile_begins(col as int, l.width as int, l.tile_size as int);
    lemma_tile_begins(row as int, l.height as int, l.tile_size as int);
}

proof fn lemma_tile_begins(k: int, w: int, t: int)
    requires
        t > 0,
    ensures
        k < ceiling(w, t) <==> k * t < w,
{
    assert(k < (w + t - 1) / t <==> k * t < w) by (nonlinear_arith)
        requires
            t > 0,
    ;
}

/// The tags stand in rising order, each once. Those for the picture's width and
/// height and for a tile's hold these lengths, and the others say that there is
/// one sample of eight bits to a pixel, uncompressed, with black as zero.
pub proof fn law_tags_describe_the_picture(width: usize, height: usize, tile_size: usize, i: int)
    requires
        0 <= i < baseline(width, height, tile_size).len(),
        width <= u32::MAX,
        height <= u32::MAX,
        tile_size <= u32::MAX,
    ensures
        ({
            let tags = baseline(width, height, tile_size);
            let (tag, value) = tags[i];
            &&& forall|j: int| 0 <= j < i ==> (#[trigger] tags[j]).0 < tag
            &&& tag == 256 ==> value == TagValue::Long(width as u32)
            &&& tag == 257 ==> value == TagValue::Long(height as u32)
            &&& tag == 322 || tag == 323 ==> value == TagValue::Long(tile_size as u32)
            &&& tag == 258 ==> value == TagValue::Short(8)
            &&& tag != 256 && tag != 257 && tag != 322 && tag != 323 && tag != 258 ==> value == TagValue::Short(1)
        }),
        exists|j: int| 0 <= j < 9 && (#[trigger] baseline(width, height, tile_size)[j]).0 == 256,
        exists|j: int| 0 <= j < 9 && (#[trigger] baseline(width, height, tile_size)[j]).0 == 257,
        exists|j: int| 0 <= j < 9 && (#[trigger] baseline(width, height, tile_size)[j]).0 == 322,
        exists|j: int| 0 <= j < 9 && (#[trigger] baseline(width, height, tile_size)[j]).0 == 323,
{
    let tags = baseline(width, height, tile_size);
    assert(tags[0].0 == 256 && tags[1].0 == 257 && tags[7].0 == 322 && tags[8].0 == 323);
}

} // verus!
