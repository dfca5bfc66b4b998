//! The index of chunk states: one state byte and one access-epoch byte for
//! every chunk of every level, behind a header that fixes the layout.
//!
//! The image is: header, state bytes of level 0, of level 1, and so on, then
//! access-epoch bytes in the same order.
use crate::chunk;
use crate::le;
use crate::text;
use vstd::prelude::*;
use vstd::string::*;
use vstd::utf8::*;

verus! {

/// What an index file begins with.
pub open spec fn magic() -> Seq<u8> {
    seq![86u8, 67, 83, 80, 82, 83, 48, 49]
}

/// Nothing is stored for the chunk.
pub const STATE_MISSING: u8 = 0;

/// The chunk's voxels are stored.
pub const STATE_RESIDENT: u8 = 1;

/// The source holds no data for the chunk.
pub const STATE_EMPTY: u8 = 2;

/// An operation on the chunk's slot is under way. The byte is the slot's lock:
/// it is taken by exchanging the state that the operation starts from, and
/// given back by storing the state that it ends in.
pub const STATE_LOCKED: u8 = 3;

/// How many chunks a level has along each axis.
#[derive(Clone, Copy, Debug, PartialEq, Eq, Structural)]
pub struct LodDims {
    pub nx: u32,
    pub ny: u32,
    pub nz: u32,
}

/// `a / b`, rounded up.
pub open spec fn ceil_div(a: int, b: int) -> int {
    (a + b - 1) / b
}

fn div_ceil_u32(a: u32, b: u64) -> (q: u32)
    requires
        b > 0,
        b <= 0x8000_0000,
    ensures
        q == ceil_div(a as int, b as int),
{
    let q: u64 = (a as u64 + b - 1) / b;
    assert(q <= a as u64) by (nonlinear_arith)
        requires
            q == (a + b - 1) / (b as int),
            b > 0,
            a >= 0,
    ;
    q as u32
}

impl LodDims {
    /// Voxels of the finest level that one chunk of level `lod` spans.
    pub open spec fn span(lod: u8) -> int {
        64 * chunk::pow2(lod as nat) as int
    }

    /// The dimensions of level `lod` of a volume.
    pub open spec fn of(extent: [u32; 3], lod: u8) -> LodDims {
        LodDims {
            nx: ceil_div(extent[0] as int, Self::span(lod)) as u32,
            ny: ceil_div(extent[1] as int, Self::span(lod)) as u32,
            nz: ceil_div(extent[2] as int, Self::span(lod)) as u32,
        }
    }

    /// The dimensions of level `lod` of a volume: as many chunks as cover it.
    pub fn for_lod(extent: [u32; 3], lod: u8) -> (d: LodDims)
        requires
            lod <= 25,
        ensures
            d == Self::of(extent, lod),
            d.nx == ceil_div(extent[0] as int, Self::span(lod)),
            d.ny == ceil_div(extent[1] as int, Self::span(lod)),
            d.nz == ceil_div(extent[2] as int, Self::span(lod)),
    {
        proof {
            chunk::lemma_pow2_bounds(lod as nat);
            chunk::lemma_pow2_mono(lod as nat, 25);
            chunk::lemma_pow2_add(24, 1);
            chunk::lemma_pow2_table();
        }
        let span: u64 = 64 * chunk::pow2_u64(lod);
        LodDims {
            nx: div_ceil_u32(extent[0], span),
            ny: div_ceil_u32(extent[1], span),
            nz: div_ceil_u32(extent[2], span),
        }
    }

    /// How many chunks the level has.
    pub open spec fn size(self) -> int {
        self.nx * self.ny * self.nz
    }

    /// How many chunks the level has.
    pub fn count(&self) -> (n: u64)
        requires
            self.size() <= u64::MAX,
        ensures
            n == self.size(),
    {
        proof {
            lemma_product_bound(self.nx as int, self.ny as int, self.nz as int);
        }
        if self.nz == 0 {
            assert(self.size() == 0) by (nonlinear_arith)
                requires
                    self.nz == 0,
                    self.size() == self.nx * self.ny * self.nz,
            ;
            return 0;
        }
        self.nx as u64 * self.ny as u64 * self.nz as u64
    }

    /// The place of chunk `(x, y, z)` among the level's chunks, x fastest.
    pub open spec fn index_of(self, x: u32, y: u32, z: u32) -> int {
        (z * self.ny + y) * self.nx + x
    }

    /// Whether the level has a chunk at `(x, y, z)`.
    pub open spec fn has(self, x: u32, y: u32, z: u32) -> bool {
        x < self.nx && y < self.ny && z < self.nz
    }

    /// The place of chunk `(x, y, z)`, or `None` beyond the level's chunks.
    pub fn linear_index(&self, x: u32, y: u32, z: u32) -> (r: Option<u64>)
        requires
            self.size() <= u64::MAX,
        ensures
            match r {
                Some(i) => self.has(x, y, z) && i == self.index_of(x, y, z) && i < self.size(),
                None => !self.has(x, y, z),
            },
    {
        if x >= self.nx || y >= self.ny || z >= self.nz {
            return None;
        }
        proof {
            lemma_index_in_range(*self, x, y, z);
            assert(0 <= z * self.ny + y) by (nonlinear_arith)
                requires
                    z >= 0,
                    self.ny >= 0,
                    y >= 0,
            ;
            let a = z * self.ny + y;
            assert(a <= (z * self.ny + y) * self.nx + x) by (nonlinear_arith)
                requires
                    a == z * self.ny + y,
                    self.nx >= 1,
                    x >= 0,
                    a >= 0,
            ;
            assert(0 <= z * self.ny <= a) by (nonlinear_arith)
                requires
                    a == z * self.ny + y,
                    y >= 0,
                    z >= 0,
                    self.ny >= 0,
            ;
            assert(a * self.nx <= (z * self.ny + y) * self.nx + x);
        }
        Some((z as u64 * self.ny as u64 + y as u64) * self.nx as u64 + x as u64)
    }
}

proof fn lemma_product_bound(a: int, b: int, c: int)
    requires
        0 <= a,
        0 <= b,
        0 <= c,
    ensures
        c > 0 ==> 0 <= a * b <= a * b * c,
{
    if c > 0 {
        assert(0 <= a * b) by (nonlinear_arith)
            requires
                0 <= a,
                0 <= b,
        ;
        let p = a * b;
        assert(p <= p * c) by (nonlinear_arith)
            requires
                0 <= p,
                c >= 1,
        ;
    }
}

/// Every chunk of a level has a place below the level's size.
pub proof fn lemma_index_in_range(d: LodDims, x: u32, y: u32, z: u32)
    requires
        d.has(x, y, z),
    ensures
        0 <= d.index_of(x, y, z) < d.size(),
{
    let (nx, ny, nz) = (d.nx as int, d.ny as int, d.nz as int);
    assert(z * ny + y <= ny * nz - 1) by (nonlinear_arith)
        requires
            0 <= z <= nz - 1,
            0 <= y <= ny - 1,
    ;
    let row = z * ny + y;
    assert(0 <= row) by (nonlinear_arith)
        requires
            row == z * ny + y,
            z >= 0,
            y >= 0,
            ny >= 0,
    ;
    assert(row * nx + x <= (ny * nz - 1) * nx + nx - 1) by (nonlinear_arith)
        requires
            0 <= row <= ny * nz - 1,
            0 <= x <= nx - 1,
    ;
    assert((ny * nz - 1) * nx + nx == nx * ny * nz) by (nonlinear_arith);
    assert(0 <= row * nx) by (nonlinear_arith)
        requires
            0 <= row,
            0 <= nx,
    ;
}

/// No two chunks of a level share a place, and the place gives the coordinates
/// back: x is the place modulo the width, y the rows below it modulo the
/// depth, z what is left.
pub proof fn law_index_unflattens(d: LodDims, x: u32, y: u32, z: u32)
    requires
        d.has(x, y, z),
    ensures
        d.index_of(x, y, z) % (d.nx as int) == x,
        (d.index_of(x, y, z) / (d.nx as int)) % (d.ny as int) == y,
        d.index_of(x, y, z) / (d.nx * d.ny) == z,
{
    let (nx, ny) = (d.nx as int, d.ny as int);
    let row = z * ny + y;
    let i = row * nx + x;
    assert(i == d.index_of(x, y, z));
    vstd::arithmetic::div_mod::lemma_fundamental_div_mod_converse(i, nx, row, x as int);
    vstd::arithmetic::div_mod::lemma_fundamental_div_mod_converse(row, ny, z as int, y as int);
    assert(i == z * (nx * ny) + (y * nx + x)) by (nonlinear_arith)
        requires
            i == (z * ny + y) * nx + x,
    ;
    assert(0 <= y * nx + x < nx * ny) by (nonlinear_arith)
        requires
            0 <= y <= ny - 1,
            0 <= x <= nx - 1,
            nx >= 1,
    ;
    vstd::arithmetic::div_mod::lemma_fundamental_div_mod_converse(
        i,
        nx * ny,
        z as int,
        y * nx + x,
    );
}

/// The layout of one volume's index.
#[derive(Debug)]
pub struct Header {
    pub volume_id: String,
    pub chunk_side: u8,
    pub max_lod: u8,
    pub extent: [u32; 3],
    pub lods: Vec<LodDims>,
}

/// `Header` as mathematics.
#[verifier::ext_equal]
pub struct HeaderModel {
    pub volume_id: Seq<char>,
    pub chunk_side: u8,
    pub max_lod: u8,
    pub extent: Seq<u32>,
    pub lods: Seq<LodDims>,
}

/// Why bytes are no index header.
#[derive(Debug, Clone, Copy, PartialEq, Eq, Structural)]
pub enum HeaderError {
    /// The bytes end too soon.
    Truncated,
    /// They do not begin as an index does.
    BadMagic,
    /// The volume's name is not UTF-8.
    BadVolumeId,
}

/// The bytes of a level's dimensions.
pub open spec fn dims_bytes(lods: Seq<LodDims>) -> Seq<u8>
    decreases lods.len(),
{
    if lods.len() == 0 {
        Seq::empty()
    } else {
        dims_bytes(lods.drop_last()) + le::le(lods.last().nx as nat, 4) + le::le(
            lods.last().ny as nat,
            4,
        ) + le::le(lods.last().nz as nat, 4)
    }
}

/// The bytes of a volume's extent.
pub open spec fn extent_bytes(extent: Seq<u32>) -> Seq<u8> {
    le::le(extent[0] as nat, 4) + le::le(extent[1] as nat, 4) + le::le(extent[2] as nat, 4)
}

/// The number that the four bytes at `at` say.
pub open spec fn u32_at(bytes: Seq<u8>, at: int) -> u32 {
    le::from_le(bytes.subrange(at, at + 4)) as u32
}

/// The dimensions that the twelve bytes at `at` say.
pub open spec fn dims_at(bytes: Seq<u8>, at: int) -> LodDims {
    LodDims { nx: u32_at(bytes, at), ny: u32_at(bytes, at + 4), nz: u32_at(bytes, at + 8) }
}

/// What reading a header from `bytes` gives.
pub open spec fn parsed_header(bytes: Seq<u8>) -> Result<HeaderModel, HeaderError> {
    if bytes.len() < 8 {
        Err(HeaderError::Truncated)
    } else if bytes.take(8) != magic() {
        Err(HeaderError::BadMagic)
    } else if bytes.len() < 10 {
        Err(HeaderError::Truncated)
    } else {
        let n = le::from_le(bytes.subrange(8, 10)) as int;
        if bytes.len() < 10 + n {
            Err(HeaderError::Truncated)
        } else if !valid_utf8(bytes.subrange(10, 10 + n)) {
            Err(HeaderError::BadVolumeId)
        } else if bytes.len() < 12 + n {
            Err(HeaderError::Truncated)
        } else if bytes.len() < 24 + n + 12 * (bytes[11 + n] + 1) {
            Err(HeaderError::Truncated)
        } else {
            Ok(
                HeaderModel {
                    volume_id: decode_utf8(bytes.subrange(10, 10 + n)),
                    chunk_side: bytes[10 + n],
                    max_lod: bytes[11 + n],
                    extent: seq![
                        u32_at(bytes, 12 + n),
                        u32_at(bytes, 16 + n),
                        u32_at(bytes, 20 + n),
                    ],
                    lods: Seq::new(
                        (bytes[11 + n] + 1) as nat,
                        |k: int| dims_at(bytes, 24 + n + 12 * k),
                    ),
                },
            )
        }
    }
}

/// `String::from_utf8` accepts exactly the well-formed UTF-8 sequences, and
/// gives the text that they encode.
#[verifier::external_body]
fn utf8_text(v: Vec<u8>) -> (r: Option<String>)
    ensures
        match r {
            Some(s) => valid_utf8(v@) && s@ == decode_utf8(v@),
            None => r is None && !valid_utf8(v@),
        },
{
    String::from_utf8(v).ok()
}

impl Header {
    pub open spec fn model(&self) -> HeaderModel {
        HeaderModel {
            volume_id: self.volume_id@,
            chunk_side: self.chunk_side,
            max_lod: self.max_lod,
            extent: self.extent@,
            lods: self.lods@,
        }
    }

    /// The header of a volume of this extent with levels 0 to `max_lod`.
    pub fn new(volume_id: String, extent: [u32; 3], max_lod: u8) -> (h: Header)
        requires
            max_lod <= 25,
        ensures
            h.volume_id == volume_id,
            h.chunk_side == 64,
            h.max_lod == max_lod,
            h.extent == extent,
            h.lods@ == Seq::new((max_lod + 1) as nat, |l: int| LodDims::of(extent, l as u8)),
    {
        let mut lods: Vec<LodDims> = Vec::new();
        let mut l: u8 = 0;
        while l <= max_lod
            invariant
                l <= max_lod + 1,
                max_lod <= 25,
                lods@ == Seq::new(l as nat, |i: int| LodDims::of(extent, i as u8)),
            decreases max_lod + 1 - l,
        {
            lods.push(LodDims::for_lod(extent, l));
            l = l + 1;
            assert(lods@ =~= Seq::new(l as nat, |i: int| LodDims::of(extent, i as u8)));
        }
        Header { volume_id, chunk_side: 64, max_lod, extent, lods }
    }

    /// Whether two headers describe one layout.
    pub open spec fn same_layout(&self, other: &Header) -> bool {
        &&& self.volume_id@ == other.volume_id@
        &&& self.chunk_side == other.chunk_side
        &&& self.max_lod == other.max_lod
        &&& self.extent@ == other.extent@
    }

    /// Whether the headers describe one volume in one layout.
    pub fn matches(&self, other: &Header) -> (r: bool)
        ensures
            r == self.same_layout(other),
    {
        let same = self.volume_id == other.volume_id && self.chunk_side == other.chunk_side
            && self.max_lod == other.max_lod && self.extent[0] == other.extent[0] && self.extent[1]
            == other.extent[1] && self.extent[2] == other.extent[2];
        proof {
            if same {
                assert(self.extent@ =~= other.extent@);
            }
        }
        same
    }

    /// The header's bytes.
    pub open spec fn bytes(&self) -> Seq<u8> {
        magic() + le::le(encode_utf8(self.volume_id@).len(), 2) + encode_utf8(self.volume_id@)
            + seq![self.chunk_side, self.max_lod] + extent_bytes(self.extent@) + dims_bytes(
            self.lods@,
        )
    }

    /// Appends the header's bytes.
    pub fn write_to(&self, out: &mut Vec<u8>)
        ensures
            final(out)@ == old(out)@ + self.bytes(),
    {
        let ghost before = out@;
        let m: [u8; 8] = [86, 67, 83, 80, 82, 83, 48, 49];
        le::push_bytes(out, &m);
        assert(m@ =~= magic());
        let vid = self.volume_id.as_str().as_bytes();
        le::push_le(out, vid.len() as u64, 2);
        le::push_bytes(out, vid);
        out.push(self.chunk_side);
        out.push(self.max_lod);
        le::push_le(out, self.extent[0] as u64, 4);
        le::push_le(out, self.extent[1] as u64, 4);
        le::push_le(out, self.extent[2] as u64, 4);
        let ghost front = out@;
        assert(front =~= before + (magic() + le::le(encode_utf8(self.volume_id@).len(), 2)
            + encode_utf8(self.volume_id@) + seq![self.chunk_side, self.max_lod] + extent_bytes(
            self.extent@,
        )));
        let mut i: usize = 0;
        while i < self.lods.len()
            invariant
                i <= self.lods@.len(),
                out@ == front + dims_bytes(self.lods@.take(i as int)),
            decreases self.lods.len() - i,
        {
            let d = self.lods[i];
            le::push_le(out, d.nx as u64, 4);
            le::push_le(out, d.ny as u64, 4);
            le::push_le(out, d.nz as u64, 4);
            assert(self.lods@.take(i + 1).drop_last() =~= self.lods@.take(i as int));
            assert(out@ =~= front + dims_bytes(self.lods@.take(i + 1)));
            i = i + 1;
        }
        assert(self.lods@.take(self.lods@.len() as int) =~= self.lods@);
        assert(out@ =~= before + self.bytes());
    }

    /// How many bytes the header takes.
    pub fn serialized_size(&self) -> (n: usize)
        requires
            self.bytes().len() <= usize::MAX,
        ensures
            n == self.bytes().len(),
    {
        proof {
            self.lemma_len();
        }
        8 + 2 + self.volume_id.as_str().as_bytes().len() + 1 + 1 + 12 + 12 * self.lods.len()
    }

    /// The header's length.
    pub proof fn lemma_len(&self)
        ensures
            self.bytes().len() == 24 + encode_utf8(self.volume_id@).len() + 12 * self.lods@.len(),
    {
        le::lemma_le_len(encode_utf8(self.volume_id@).len(), 2);
        le::lemma_le_len(self.extent@[0] as nat, 4);
        le::lemma_le_len(self.extent@[1] as nat, 4);
        le::lemma_le_len(self.extent@[2] as nat, 4);
        lemma_dims_len(self.lods@);
    }

    /// Reads a header from the front of `bytes`.
    pub fn read_from(bytes: &[u8]) -> (r: Result<Header, HeaderError>)
        ensures
            match r {
                Ok(h) => parsed_header(bytes@) == Ok::<HeaderModel, HeaderError>(h.model()),
                Err(e) => parsed_header(bytes@) == Err::<HeaderModel, HeaderError>(e),
            },
    {
        proof {
            le::lemma_pow256_table();
        }
        if bytes.len() < 8 {
            return Err(HeaderError::Truncated);
        }
        let m: [u8; 8] = [86, 67, 83, 80, 82, 83, 48, 49];
        assert(m@ =~= magic());
        let mut i: usize = 0;
        while i < 8
            invariant
                i <= 8 <= bytes.len(),
                m@ == magic(),
                forall|j: int| 0 <= j < i ==> bytes@[j] == magic()[j],
            decreases 8 - i,
        {
            if bytes[i] != m[i] {
                assert(bytes@.take(8)[i as int] != magic()[i as int]);
                return Err(HeaderError::BadMagic);
            }
            i = i + 1;
        }
        assert(bytes@.take(8) =~= magic());
        if bytes.len() < 10 {
            return Err(HeaderError::Truncated);
        }
        let n: usize = le::read_le(bytes, 8, 2) as usize;
        if bytes.len() < 10 + n {
            return Err(HeaderError::Truncated);
        }
        let vid = le::bytes_of(bytes, 10, 10 + n);
        let volume_id = match utf8_text(vid) {
            Some(s) => s,
            None => {
                return Err(HeaderError::BadVolumeId);
            },
        };
        if bytes.len() < 12 + n {
            return Err(HeaderError::Truncated);
        }
        let chunk_side = bytes[10 + n];
        let max_lod = bytes[11 + n];
        let levels: usize = max_lod as usize + 1;
        if bytes.len() < 24 + n + 12 * levels {
            return Err(HeaderError::Truncated);
        }
        let extent: [u32; 3] = [
            le::read_le(bytes, 12 + n, 4) as u32,
            le::read_le(bytes, 16 + n, 4) as u32,
            le::read_le(bytes, 20 + n, 4) as u32,
        ];
        let mut lods: Vec<LodDims> = Vec::new();
        let mut k: usize = 0;
        while k < levels
            invariant
                k <= levels,
                24 + n + 12 * levels <= bytes.len(),
                lods@ == Seq::new(k as nat, |i: int| dims_at(bytes@, 24 + n + 12 * i)),
            decreases levels - k,
        {
            proof {
                le::lemma_pow256_table();
            }
            let at: usize = 24 + n + 12 * k;
            lods.push(
                LodDims {
                    nx: le::read_le(bytes, at, 4) as u32,
                    ny: le::read_le(bytes, at + 4, 4) as u32,
                    nz: le::read_le(bytes, at + 8, 4) as u32,
                },
            );
            k = k + 1;
            assert(lods@ =~= Seq::new(k as nat, |i: int| dims_at(bytes@, 24 + n + 12 * i)));
        }
        let h = Header { volume_id, chunk_side, max_lod, extent, lods };
        assert(h.model() =~= parsed_header(bytes@)->Ok_0);
        Ok(h)
    }
}

proof fn lemma_dims_len(lods: Seq<LodDims>)
    ensures
        dims_bytes(lods).len() == 12 * lods.len(),
    decreases lods.len(),
{
    if lods.len() > 0 {
        lemma_dims_len(lods.drop_last());
        le::lemma_le_len(lods.last().nx as nat, 4);
        le::lemma_le_len(lods.last().ny as nat, 4);
        le::lemma_le_len(lods.last().nz as nat, 4);
    }
}

proof fn lemma_u32_at(front: Seq<u8>, v: u32, tail: Seq<u8>)
    ensures
        u32_at(front + le::le(v as nat, 4) + tail, front.len() as int) == v,
{
    let b = front + le::le(v as nat, 4) + tail;
    le::lemma_le_len(v as nat, 4);
    le::lemma_pow256_table();
    le::lemma_le_round_trip(v as nat, 4);
    assert(b.subrange(front.len() as int, front.len() as int + 4) =~= le::le(v as nat, 4));
}

proof fn lemma_dims_at(front: Seq<u8>, lods: Seq<LodDims>, tail: Seq<u8>, k: int)
    requires
        0 <= k < lods.len(),
    ensures
        dims_at(front + dims_bytes(lods) + tail, front.len() as int + 12 * k) == lods[k],
    decreases lods.len(),
{
    let d = lods.last();
    let init = dims_bytes(lods.drop_last());
    lemma_dims_len(lods.drop_last());
    lemma_dims_len(lods);
    let (x, y, z) = (le::le(d.nx as nat, 4), le::le(d.ny as nat, 4), le::le(d.nz as nat, 4));
    le::lemma_le_len(d.nx as nat, 4);
    le::lemma_le_len(d.ny as nat, 4);
    le::lemma_le_len(d.nz as nat, 4);
    let b = front + dims_bytes(lods) + tail;
    if k == lods.len() - 1 {
        lemma_u32_at(front + init, d.nx, y + z + tail);
        assert((front + init) + x + (y + z + tail) =~= b);
        lemma_u32_at(front + init + x, d.ny, z + tail);
        assert((front + init + x) + y + (z + tail) =~= b);
        lemma_u32_at(front + init + x + y, d.nz, tail);
        assert((front + init + x + y) + z + tail =~= b);
    } else {
        lemma_dims_at(front, lods.drop_last(), x + y + z + tail, k);
        assert(front + init + (x + y + z + tail) =~= b);
    }
}

/// A header that is written and read back is the same header, whatever
/// follows it, provided that its name fits the length field and it has one
/// entry for each level.
pub proof fn law_header_round_trip(h: Header, tail: Seq<u8>)
    requires
        encode_utf8(h.volume_id@).len() < 0x1_0000,
        h.lods@.len() == h.max_lod + 1,
    ensures
        parsed_header(h.bytes() + tail) == Ok::<HeaderModel, HeaderError>(h.model()),
{
    let vid = encode_utf8(h.volume_id@);
    let n = vid.len() as int;
    let b = h.bytes() + tail;
    h.lemma_len();
    le::lemma_pow256_table();
    le::lemma_le_len(vid.len(), 2);
    le::lemma_le_round_trip(vid.len(), 2);
    assert(b.take(8) =~= magic());
    assert(b.subrange(8, 10) =~= le::le(vid.len(), 2));
    assert(b.subrange(10, 10 + n) =~= vid);
    encode_utf8_valid_utf8(h.volume_id@);
    encode_utf8_decode_utf8(h.volume_id@);
    assert(b[10 + n] == h.chunk_side);
    assert(b[11 + n] == h.max_lod);
    let front = magic() + le::le(vid.len(), 2) + vid + seq![h.chunk_side, h.max_lod];
    assert(front.len() == 12 + n);
    let (e0, e1, e2) = (
        le::le(h.extent@[0] as nat, 4),
        le::le(h.extent@[1] as nat, 4),
        le::le(h.extent@[2] as nat, 4),
    );
    le::lemma_le_len(h.extent@[0] as nat, 4);
    le::lemma_le_len(h.extent@[1] as nat, 4);
    le::lemma_le_len(h.extent@[2] as nat, 4);
    let dims = dims_bytes(h.lods@);
    lemma_u32_at(front, h.extent@[0], e1 + e2 + dims + tail);
    assert(front + e0 + (e1 + e2 + dims + tail) =~= b);
    lemma_u32_at(front + e0, h.extent@[1], e2 + dims + tail);
    assert(front + e0 + e1 + (e2 + dims + tail) =~= b);
    lemma_u32_at(front + e0 + e1, h.extent@[2], dims + tail);
    assert(front + e0 + e1 + e2 + (dims + tail) =~= b);
    let body = front + e0 + e1 + e2;
    assert(body + dims + tail =~= b);
    assert forall|k: int| 0 <= k < h.lods@.len() implies #[trigger] dims_at(b, 24 + n + 12 * k)
        == h.lods@[k] by {
        lemma_dims_at(body, h.lods@, tail, k);
    }
    let p = parsed_header(b)->Ok_0;
    assert(p.lods =~= h.lods@);
    assert(p.extent =~= h.extent@);
    assert(p =~= h.model());
}


/// How many chunks the first `k` levels have.
pub open spec fn chunks_before(lods: Seq<LodDims>, k: int) -> int
    decreases k,
{
    if k <= 0 {
        0
    } else {
        chunks_before(lods, k - 1) + lods[k - 1].size()
    }
}

proof fn lemma_chunks_before_mono(lods: Seq<LodDims>, a: int, b: int)
    requires
        0 <= a <= b,
    ensures
        0 <= chunks_before(lods, a) <= chunks_before(lods, b),
    decreases b,
{
    if b > 0 {
        let d = lods[b - 1];
        assert(0 <= d.size()) by (nonlinear_arith)
            requires
                d.size() == d.nx * d.ny * d.nz,
                d.nx >= 0,
                d.ny >= 0,
                d.nz >= 0,
        ;
        if a < b {
            lemma_chunks_before_mono(lods, a, b - 1);
        } else {
            lemma_chunks_before_mono(lods, a - 1, b - 1);
        }
    }
}

/// The byte ranges of the columns of an index image.
pub struct SidecarLayout {
    pub total_size: usize,
    pub bitmap_ranges: Vec<(usize, usize)>,
    pub ae_ranges: Vec<(usize, usize)>,
}

/// How many bytes an index image takes.
pub open spec fn image_size(h: &Header) -> int {
    h.bytes().len() + 2 * chunks_before(h.lods@, h.lods@.len() as int)
}

/// Where a level's state bytes begin.
pub open spec fn states_start(h: &Header, lod: int) -> int {
    h.bytes().len() + chunks_before(h.lods@, lod)
}

/// Where a level's access-epoch bytes begin.
pub open spec fn epochs_start(h: &Header, lod: int) -> int {
    h.bytes().len() + chunks_before(h.lods@, h.lods@.len() as int) + chunks_before(h.lods@, lod)
}

impl SidecarLayout {
    /// The layout that a header calls for: the state columns of all levels
    /// follow the header without gaps, and the access-epoch columns follow
    /// them.
    pub fn for_header(header: &Header) -> (r: SidecarLayout)
        requires
            image_size(header) <= usize::MAX,
        ensures
            r.total_size == image_size(header),
            r.bitmap_ranges@.len() == header.lods@.len(),
            r.ae_ranges@.len() == header.lods@.len(),
            forall|l: int|
                0 <= l < header.lods@.len() ==> {
                    &&& (#[trigger] r.bitmap_ranges@[l]).0 == states_start(header, l)
                    &&& r.bitmap_ranges@[l].1 == states_start(header, l) + header.lods@[l].size()
                },
            forall|l: int|
                0 <= l < header.lods@.len() ==> {
                    &&& (#[trigger] r.ae_ranges@[l]).0 == epochs_start(header, l)
                    &&& r.ae_ranges@[l].1 == epochs_start(header, l) + header.lods@[l].size()
                },
    {
        let ghost n = header.lods@.len() as int;
        proof {
            lemma_chunks_before_mono(header.lods@, 0, n);
        }
        let mut cursor: usize = header.serialized_size();
        let mut bitmap_ranges: Vec<(usize, usize)> = Vec::new();
        let mut i: usize = 0;
        while i < header.lods.len()
            invariant
                i <= header.lods@.len() == n,
                image_size(header) <= usize::MAX,
                cursor == states_start(header, i as int),
                bitmap_ranges@.len() == i,
                forall|l: int|
                    0 <= l < i ==> {
                        &&& (#[trigger] bitmap_ranges@[l]).0 == states_start(header, l)
                        &&& bitmap_ranges@[l].1 == states_start(header, l) + header.lods@[l].size()
                    },
            decreases header.lods.len() - i,
        {
            proof {
                lemma_chunks_before_mono(header.lods@, i as int, i + 1);
                lemma_chunks_before_mono(header.lods@, i + 1, n);
                lemma_chunks_before_mono(header.lods@, 0, n);
            }
            let size: usize = header.lods[i].count() as usize;
            bitmap_ranges.push((cursor, cursor + size));
            cursor = cursor + size;
            i = i + 1;
        }
        let mut ae_ranges: Vec<(usize, usize)> = Vec::new();
        let mut j: usize = 0;
        while j < header.lods.len()
            invariant
                j <= header.lods@.len() == n,
                image_size(header) <= usize::MAX,
                cursor == epochs_start(header, j as int),
                ae_ranges@.len() == j,
                forall|l: int|
                    0 <= l < j ==> {
                        &&& (#[trigger] ae_ranges@[l]).0 == epochs_start(header, l)
                        &&& ae_ranges@[l].1 == epochs_start(header, l) + header.lods@[l].size()
                    },
            decreases header.lods.len() - j,
        {
            proof {
                lemma_chunks_before_mono(header.lods@, j as int, j + 1);
                lemma_chunks_before_mono(header.lods@, j + 1, n);
                lemma_chunks_before_mono(header.lods@, 0, n);
            }
            let size: usize = header.lods[j].count() as usize;
            ae_ranges.push((cursor, cursor + size));
            cursor = cursor + size;
            j = j + 1;
        }
        SidecarLayout { total_size: cursor, bitmap_ranges, ae_ranges }
    }
}

/// The columns of an index do not overlap: different levels' bytes, and a
/// level's state and access-epoch bytes, stand in different places, all of
/// them behind the header and within the image.
pub proof fn law_columns_are_disjoint(h: &Header, a: int, b: int)
    requires
        0 <= a < b < h.lods@.len(),
    ensures
        h.bytes().len() <= states_start(h, a),
        states_start(h, a) + h.lods@[a].size() <= states_start(h, b),
        states_start(h, b) + h.lods@[b].size() <= epochs_start(h, a),
        epochs_start(h, a) + h.lods@[a].size() <= epochs_start(h, b),
        epochs_start(h, b) + h.lods@[b].size() <= image_size(h),
{
    let n = h.lods@.len() as int;
    lemma_chunks_before_mono(h.lods@, 0, a);
    lemma_chunks_before_mono(h.lods@, a + 1, b);
    lemma_chunks_before_mono(h.lods@, b + 1, n);
}

/// The state and access-epoch bytes of every chunk, with a count of the
/// changes in each level that are not yet on disk.
pub struct Sidecar {
    pub header: Header,
    pub states: Vec<Vec<u8>>,
    pub access_epochs: Vec<Vec<u8>>,
    pub pending: Vec<u64>,
}

/// `Sidecar`'s changing part as mathematics.
#[verifier::ext_equal]
pub struct SidecarModel {
    pub states: Seq<Seq<u8>>,
    pub access_epochs: Seq<Seq<u8>>,
    pub pending: Seq<u64>,
}

impl SidecarModel {
    /// One state byte replaced.
    pub open spec fn with_state(self, lod: int, idx: int, state: u8) -> SidecarModel {
        SidecarModel {
            states: self.states.update(lod, self.states[lod].update(idx, state)),
            ..self
        }
    }

    /// One access-epoch byte replaced.
    pub open spec fn with_epoch(self, lod: int, idx: int, epoch: u8) -> SidecarModel {
        SidecarModel {
            access_epochs: self.access_epochs.update(
                lod,
                self.access_epochs[lod].update(idx, epoch),
            ),
            ..self
        }
    }

    /// One more change in a level.
    pub open spec fn one_more_pending(self, lod: int) -> SidecarModel {
        SidecarModel {
            pending: self.pending.update(lod, self.pending[lod].wrapping_add(1)),
            ..self
        }
    }
}

/// A sequence of byte columns, one for each level.
pub open spec fn columns(v: Seq<Vec<u8>>) -> Seq<Seq<u8>> {
    Seq::new(v.len(), |l: int| v[l]@)
}

/// Why an index image could not be taken up.
#[derive(Debug, Clone, Copy, PartialEq, Eq, Structural)]
pub enum SidecarError {
    /// The header cannot be read.
    Header(HeaderError),
    /// The header describes more chunks than memory can address.
    TooLarge,
}

/// The byte at `at`; zero beyond the end.
pub open spec fn byte_or_zero(bytes: Seq<u8>, at: int) -> u8 {
    if 0 <= at < bytes.len() {
        bytes[at]
    } else {
        0
    }
}

/// The `n` bytes from `at` on, zeros beyond the end.
pub open spec fn column_at(bytes: Seq<u8>, at: int, n: int) -> Seq<u8> {
    Seq::new(n as nat, |i: int| byte_or_zero(bytes, at + i))
}

fn read_column(bytes: &[u8], at: usize, end: usize) -> (r: Vec<u8>)
    requires
        at <= end,
    ensures
        r@ == column_at(bytes@, at as int, end - at),
{
    let mut r: Vec<u8> = Vec::new();
    let mut i: usize = at;
    while i < end
        invariant
            at <= i <= end,
            r@ == column_at(bytes@, at as int, i - at),
        decreases end - i,
    {
        let b: u8 = if i < bytes.len() { bytes[i] } else { 0 };
        r.push(b);
        i = i + 1;
        assert(r@ =~= column_at(bytes@, at as int, i - at));
    }
    r
}

/// All columns, one after the other.
pub open spec fn joined(cols: Seq<Seq<u8>>) -> Seq<u8>
    decreases cols.len(),
{
    if cols.len() == 0 {
        Seq::empty()
    } else {
        joined(cols.drop_last()) + cols.last()
    }
}

impl Sidecar {
    pub open spec fn model(&self) -> SidecarModel {
        SidecarModel {
            states: columns(self.states@),
            access_epochs: columns(self.access_epochs@),
            pending: self.pending@,
        }
    }

    /// Every level of the header has its columns, of its size.
    pub open spec fn wf(&self) -> bool {
        &&& self.states@.len() == self.header.lods@.len()
        &&& self.access_epochs@.len() == self.header.lods@.len()
        &&& self.pending@.len() == self.header.lods@.len()
        &&& forall|l: int|
            0 <= l < self.header.lods@.len() ==> (#[trigger] self.states@[l])@.len()
                == self.header.lods@[l].size()
        &&& forall|l: int|
            0 <= l < self.header.lods@.len() ==> (#[trigger] self.access_epochs@[l])@.len()
                == self.header.lods@[l].size()
    }

    /// Whether the index has a slot for chunk `idx` of level `lod`.
    pub open spec fn has_slot(&self, lod: u8, idx: u64) -> bool {
        lod < self.header.lods@.len() && idx < self.header.lods@[lod as int].size()
    }

    /// The state byte of a slot.
    pub open spec fn state(&self, lod: u8, idx: u64) -> u8 {
        self.states@[lod as int]@[idx as int]
    }

    /// The access-epoch byte of a slot.
    pub open spec fn epoch(&self, lod: u8, idx: u64) -> u8 {
        self.access_epochs@[lod as int]@[idx as int]
    }

    /// An index in which every chunk is missing.
    pub fn empty(header: Header) -> (s: Sidecar)
        requires
            forall|l: int|
                0 <= l < header.lods@.len() ==> (#[trigger] header.lods@[l]).size() <= usize::MAX,
        ensures
            s.wf(),
            s.header == header,
            forall|l: int, i: int|
                0 <= l < header.lods@.len() && 0 <= i < header.lods@[l].size() ==> (
                #[trigger] s.states@[l]@[i]) == STATE_MISSING,
            forall|l: int, i: int|
                0 <= l < header.lods@.len() && 0 <= i < header.lods@[l].size() ==> (
                #[trigger] s.access_epochs@[l]@[i]) == 0,
            forall|l: int| 0 <= l < header.lods@.len() ==> (#[trigger] s.pending@[l]) == 0,
    {
        let mut states: Vec<Vec<u8>> = Vec::new();
        let mut access_epochs: Vec<Vec<u8>> = Vec::new();
        let mut pending: Vec<u64> = Vec::new();
        let mut l: usize = 0;
        while l < header.lods.len()
            invariant
                l <= header.lods@.len(),
                forall|k: int|
                    0 <= k < header.lods@.len() ==> (#[trigger] header.lods@[k]).size()
                        <= usize::MAX,
                states@.len() == l,
                access_epochs@.len() == l,
                pending@.len() == l,
                forall|k: int|
                    0 <= k < l ==> (#[trigger] states@[k])@.len() == header.lods@[k].size(),
                forall|k: int|
                    0 <= k < l ==> (#[trigger] access_epochs@[k])@.len()
                        == header.lods@[k].size(),
                forall|k: int, i: int|
                    0 <= k < l && 0 <= i < header.lods@[k].size() ==> (
                    #[trigger] states@[k]@[i]) == STATE_MISSING,
                forall|k: int, i: int|
                    0 <= k < l && 0 <= i < header.lods@[k].size() ==> (
                    #[trigger] access_epochs@[k]@[i]) == 0,
                forall|k: int| 0 <= k < l ==> (#[trigger] pending@[k]) == 0,
            decreases header.lods.len() - l,
        {
            assert(header.lods@[l as int].size() <= usize::MAX);
            let n: usize = header.lods[l].count() as usize;
            states.push(vec![STATE_MISSING; n]);
            access_epochs.push(vec![0u8; n]);
            pending.push(0);
            l = l + 1;
        }
        Sidecar { header, states, access_epochs, pending }
    }

    /// The state byte of a slot.
    pub fn get_state(&self, lod: u8, idx: u64) -> (r: u8)
        requires
            self.wf(),
            self.has_slot(lod, idx),
        ensures
            r == self.state(lod, idx),
    {
        assert(self.states@[lod as int]@.len() == self.states@[lod as int].len());
        self.states[lod as usize][idx as usize]
    }

    fn bump(&mut self, lod: u8)
        requires
            old(self).wf(),
            lod < old(self).header.lods@.len(),
        ensures
            final(self).wf(),
            final(self).header == old(self).header,
            final(self).model() == old(self).model().one_more_pending(lod as int),
    {
        let ghost before = self.model();
        let n = self.pending[lod as usize];
        self.pending.set(lod as usize, n.wrapping_add(1));
        assert(self.model() =~= before.one_more_pending(lod as int));
    }

    fn put_state(&mut self, lod: u8, idx: u64, state: u8)
        requires
            old(self).wf(),
            old(self).has_slot(lod, idx),
        ensures
            final(self).wf(),
            final(self).header == old(self).header,
            final(self).model() == old(self).model().with_state(lod as int, idx as int, state),
    {
        let ghost before = self.model();
        assert(self.states@[lod as int]@.len() == self.states@[lod as int].len());
        self.states[lod as usize][idx as usize] = state;
        assert(self.model().states =~~= before.with_state(lod as int, idx as int, state).states);
        assert(self.model() =~= before.with_state(lod as int, idx as int, state));
    }

    fn put_epoch(&mut self, lod: u8, idx: u64, epoch: u8)
        requires
            old(self).wf(),
            old(self).has_slot(lod, idx),
        ensures
            final(self).wf(),
            final(self).header == old(self).header,
            final(self).model() == old(self).model().with_epoch(lod as int, idx as int, epoch),
    {
        let ghost before = self.model();
        assert(self.access_epochs@[lod as int]@.len() == self.access_epochs@[lod as int].len());
        self.access_epochs[lod as usize][idx as usize] = epoch;
        assert(self.model().access_epochs =~~= before.with_epoch(
            lod as int,
            idx as int,
            epoch,
        ).access_epochs);
        assert(self.model() =~= before.with_epoch(lod as int, idx as int, epoch));
    }

    /// Stores a slot's state and returns the one it replaces. A change counts
    /// as pending.
    pub fn set_state(&mut self, lod: u8, idx: u64, state: u8) -> (prev: u8)
        requires
            old(self).wf(),
            old(self).has_slot(lod, idx),
        ensures
            final(self).wf(),
            final(self).header == old(self).header,
            prev == old(self).state(lod, idx),
            final(self).model() == (if prev != state {
                old(self).model().with_state(lod as int, idx as int, state).one_more_pending(
                    lod as int,
                )
            } else {
                old(self).model()
            }),
    {
        let prev = self.get_state(lod, idx);
        if prev != state {
            self.put_state(lod, idx, state);
            self.bump(lod);
        }
        prev
    }

    /// Replaces a slot's state if it is `current`; otherwise reports what it
    /// is. A change counts as pending.
    pub fn compare_exchange_state(&mut self, lod: u8, idx: u64, current: u8, new: u8) -> (r: Result<
        u8,
        u8,
    >)
        requires
            old(self).wf(),
            old(self).has_slot(lod, idx),
        ensures
            final(self).wf(),
            final(self).header == old(self).header,
            r is Ok <==> old(self).state(lod, idx) == current,
            r is Ok ==> r->Ok_0 == current,
            r is Err ==> r->Err_0 == old(self).state(lod, idx),
            final(self).model() == (if old(self).state(lod, idx) == current && current != new {
                old(self).model().with_state(lod as int, idx as int, new).one_more_pending(
                    lod as int,
                )
            } else {
                old(self).model()
            }),
    {
        let found = self.get_state(lod, idx);
        if found != current {
            return Err(found);
        }
        if current != new {
            self.put_state(lod, idx, new);
            self.bump(lod);
        }
        Ok(current)
    }

    /// The changes since the last call, for each level; they start over.
    pub fn take_pending(&mut self) -> (r: Vec<u64>)
        requires
            old(self).wf(),
        ensures
            final(self).wf(),
            final(self).header == old(self).header,
            r@ == old(self).pending@,
            final(self).states == old(self).states,
            final(self).access_epochs == old(self).access_epochs,
            forall|l: int| 0 <= l < final(self).pending@.len() ==> (#[trigger] final(self).pending@[l]) == 0,
    {
        let n = self.pending.len();
        let mut taken: Vec<u64> = vec![0u64; n];
        std::mem::swap(&mut taken, &mut self.pending);
        taken
    }

    /// The changes since the last `take_pending`, over all levels.
    pub open spec fn pending_sum(pending: Seq<u64>) -> int
        decreases pending.len(),
    {
        if pending.len() == 0 {
            0
        } else {
            Self::pending_sum(pending.drop_last()) + pending.last()
        }
    }

    /// The changes since the last `take_pending`, over all levels, up to the
    /// largest number there is.
    pub fn total_pending(&self) -> (n: u64)
        ensures
            n == (if Self::pending_sum(self.pending@) > u64::MAX {
                u64::MAX as int
            } else {
                Self::pending_sum(self.pending@)
            }),
    {
        let mut n: u64 = 0;
        let mut l: usize = 0;
        while l < self.pending.len()
            invariant
                l <= self.pending@.len(),
                n == (if Self::pending_sum(self.pending@.take(l as int)) > u64::MAX {
                    u64::MAX as int
                } else {
                    Self::pending_sum(self.pending@.take(l as int))
                }),
            decreases self.pending.len() - l,
        {
            assert(self.pending@.take(l + 1).drop_last() =~= self.pending@.take(l as int));
            n = n.saturating_add(self.pending[l]);
            l = l + 1;
        }
        assert(self.pending@.take(self.pending@.len() as int) =~= self.pending@);
        n
    }

    /// The epoch in which a slot was last used.
    pub fn get_access_epoch(&self, lod: u8, idx: u64) -> (r: u8)
        requires
            self.wf(),
            self.has_slot(lod, idx),
        ensures
            r == self.epoch(lod, idx),
    {
        assert(self.access_epochs@[lod as int]@.len() == self.access_epochs@[lod as int].len());
        self.access_epochs[lod as usize][idx as usize]
    }

    /// Stamps a slot with an epoch. This does not count as pending.
    pub fn set_access_epoch(&mut self, lod: u8, idx: u64, epoch: u8)
        requires
            old(self).wf(),
            old(self).has_slot(lod, idx),
        ensures
            final(self).wf(),
            final(self).header == old(self).header,
            final(self).model() == old(self).model().with_epoch(lod as int, idx as int, epoch),
    {
        self.put_epoch(lod, idx, epoch);
    }

    /// Replaces a slot's epoch if it is `current`; otherwise reports what it
    /// is. A change counts as pending.
    pub fn compare_exchange_access_epoch(&mut self, lod: u8, idx: u64, current: u8, new: u8) -> (r:
        Result<u8, u8>)
        requires
            old(self).wf(),
            old(self).has_slot(lod, idx),
        ensures
            final(self).wf(),
            final(self).header == old(self).header,
            r is Ok <==> old(self).epoch(lod, idx) == current,
            r is Ok ==> r->Ok_0 == current,
            r is Err ==> r->Err_0 == old(self).epoch(lod, idx),
            final(self).model() == (if old(self).epoch(lod, idx) == current && current != new {
                old(self).model().with_epoch(lod as int, idx as int, new).one_more_pending(
                    lod as int,
                )
            } else {
                old(self).model()
            }),
    {
        let found = self.get_access_epoch(lod, idx);
        if found != current {
            return Err(found);
        }
        if current != new {
            self.put_epoch(lod, idx, new);
            self.bump(lod);
        }
        Ok(current)
    }

    /// The index's image.
    pub open spec fn image(&self) -> Seq<u8> {
        self.header.bytes() + joined(columns(self.states@)) + joined(columns(self.access_epochs@))
    }

    /// The index's image, to be written to disk.
    pub fn to_bytes(&self) -> (out: Vec<u8>)
        requires
            self.wf(),
        ensures
            out@ == self.image(),
    {
        let mut out: Vec<u8> = Vec::new();
        self.header.write_to(&mut out);
        assert(out@ =~= self.header.bytes());
        push_columns(&mut out, &self.states);
        push_columns(&mut out, &self.access_epochs);
        out
    }

    /// Takes up an index image. Bytes that the image lacks, such as all access
    /// epochs of an image that has none, count as zero.
    pub fn load(bytes: &[u8]) -> (r: Result<Sidecar, SidecarError>)
        ensures
            match parsed_header(bytes@) {
                Err(e) => r matches Err(SidecarError::Header(f)) && f == e,
                Ok(h) => match r {
                    Err(e) => e == SidecarError::TooLarge && header_len(h) + 2 * chunks_before(
                        h.lods,
                        h.lods.len() as int,
                    ) > usize::MAX,
                    Ok(s) => {
                        &&& s.wf()
                        &&& s.header.model() == h
                        &&& header_len(h) + 2 * chunks_before(h.lods, h.lods.len() as int)
                            <= usize::MAX
                        &&& s.model().states == loaded_columns(bytes@, h, header_len(h))
                        &&& s.model().access_epochs == loaded_columns(
                            bytes@,
                            h,
                            header_len(h) + chunks_before(h.lods, h.lods.len() as int),
                        )
                        &&& forall|l: int|
                            0 <= l < s.pending@.len() ==> (#[trigger] s.pending@[l]) == 0
                    },
                },
            },
    {
        let header = match Header::read_from(bytes) {
            Ok(h) => h,
            Err(e) => {
                return Err(SidecarError::Header(e));
            },
        };
        let ghost h = header.model();
        proof {
            lemma_parsed_len(bytes@);
            header.lemma_len();
            encode_of_parsed(bytes@);
        }
        if !fits_memory(&header) {
            return Err(SidecarError::TooLarge);
        }
        let layout = SidecarLayout::for_header(&header);
        let mut states: Vec<Vec<u8>> = Vec::new();
        let mut access_epochs: Vec<Vec<u8>> = Vec::new();
        let mut pending: Vec<u64> = Vec::new();
        let mut l: usize = 0;
        while l < header.lods.len()
            invariant
                l <= header.lods@.len(),
                h == header.model(),
                header.bytes().len() == header_len(h),
                layout.bitmap_ranges@.len() == header.lods@.len(),
                layout.ae_ranges@.len() == header.lods@.len(),
                forall|k: int|
                    0 <= k < header.lods@.len() ==> {
                        &&& (#[trigger] layout.bitmap_ranges@[k]).0 == states_start(&header, k)
                        &&& layout.bitmap_ranges@[k].1 == states_start(&header, k)
                            + header.lods@[k].size()
                    },
                forall|k: int|
                    0 <= k < header.lods@.len() ==> {
                        &&& (#[trigger] layout.ae_ranges@[k]).0 == epochs_start(&header, k)
                        &&& layout.ae_ranges@[k].1 == epochs_start(&header, k)
                            + header.lods@[k].size()
                    },
                columns(states@) == loaded_columns(bytes@, h, header_len(h)).take(l as int),
                columns(access_epochs@) == loaded_columns(
                    bytes@,
                    h,
                    header_len(h) + chunks_before(h.lods, h.lods.len() as int),
                ).take(l as int),
                pending@.len() == l,
                states@.len() == l,
                access_epochs@.len() == l,
                forall|k: int| 0 <= k < l ==> (#[trigger] pending@[k]) == 0,
            decreases header.lods.len() - l,
        {
            let ghost d = header.lods@[l as int];
            assert(0 <= d.size()) by (nonlinear_arith)
                requires
                    d.size() == d.nx * d.ny * d.nz,
                    d.nx >= 0,
                    d.ny >= 0,
                    d.nz >= 0,
            ;
            let (a, b) = layout.bitmap_ranges[l];
            states.push(read_column(bytes, a, b));
            let (a, b) = layout.ae_ranges[l];
            access_epochs.push(read_column(bytes, a, b));
            pending.push(0);
            l = l + 1;
            assert(columns(states@) =~= loaded_columns(bytes@, h, header_len(h)).take(l as int));
            assert(columns(access_epochs@) =~= loaded_columns(
                bytes@,
                h,
                header_len(h) + chunks_before(h.lods, h.lods.len() as int),
            ).take(l as int));
        }
        let s = Sidecar { header, states, access_epochs, pending };
        proof {
            let m = loaded_columns(bytes@, h, header_len(h));
            let e = loaded_columns(
                bytes@,
                h,
                header_len(h) + chunks_before(h.lods, h.lods.len() as int),
            );
            assert(m.take(m.len() as int) =~= m);
            assert(e.take(e.len() as int) =~= e);
            lemma_sizes_nonneg(h.lods);
            assert forall|k: int| 0 <= k < h.lods.len() implies (#[trigger] s.states@[k])@.len()
                == h.lods[k].size() by {
                assert(columns(s.states@)[k] == m[k]);
            }
            assert forall|k: int| 0 <= k < h.lods.len() implies (
            #[trigger] s.access_epochs@[k])@.len() == h.lods[k].size() by {
                assert(columns(s.access_epochs@)[k] == e[k]);
            }
        }
        Ok(s)
    }
}

proof fn lemma_sizes_nonneg(lods: Seq<LodDims>)
    ensures
        forall|k: int| 0 <= k < lods.len() ==> 0 <= (#[trigger] lods[k]).size(),
{
    assert forall|k: int| 0 <= k < lods.len() implies 0 <= (#[trigger] lods[k]).size() by {
        let d = lods[k];
        assert(0 <= d.nx * d.ny * d.nz) by (nonlinear_arith)
            requires
                d.nx >= 0,
                d.ny >= 0,
                d.nz >= 0,
        ;
    }
}

/// The length of a header with these contents.
pub open spec fn header_len(h: HeaderModel) -> int {
    24int + encode_utf8(h.volume_id).len() + 12int * h.lods.len()
}

/// The columns that an image holds from `at` on, one for each level.
pub open spec fn loaded_columns(bytes: Seq<u8>, h: HeaderModel, at: int) -> Seq<Seq<u8>> {
    Seq::new(
        h.lods.len(),
        |l: int| column_at(bytes, at + chunks_before(h.lods, l), h.lods[l].size()),
    )
}

proof fn lemma_parsed_len(bytes: Seq<u8>)
    ensures
        parsed_header(bytes) matches Ok(h) ==> h.lods.len() <= 256,
{
}

proof fn encode_of_parsed(bytes: Seq<u8>)
    ensures
        parsed_header(bytes) matches Ok(h) ==> encode_utf8(h.volume_id).len() < 0x1_0000,
{
    if let Ok(h) = parsed_header(bytes) {
        let s = bytes.subrange(8, 10);
        let n = le::from_le(s) as int;
        le::lemma_from_le_bound(s);
        le::lemma_pow256_table();
        decode_utf8_encode_utf8(bytes.subrange(10, 10 + n));
    }
}

fn fits_memory(header: &Header) -> (r: bool)
    requires
        header.lods@.len() <= 256,
        encode_utf8(header.volume_id@).len() < 0x1_0000,
    ensures
        r == (image_size(header) <= usize::MAX),
{
    proof {
        header.lemma_len();
        lemma_chunks_before_mono(header.lods@, 0, header.lods@.len() as int);
    }
    let mut room: u64 = usize::MAX as u64;
    let base: u64 = 24 + header.volume_id.as_str().as_bytes().len() as u64 + 12
        * header.lods.len() as u64;
    room = room - base;
    let mut l: usize = 0;
    while l < header.lods.len()
        invariant
            l <= header.lods@.len(),
            header.bytes().len() == base,
            base <= usize::MAX,
            room == usize::MAX - base - 2 * chunks_before(header.lods@, l as int),
            room <= usize::MAX,
        decreases header.lods.len() - l,
    {
        let d = header.lods[l];
        proof {
            lemma_chunks_before_mono(header.lods@, l + 1, header.lods@.len() as int);
            lemma_sizes_nonneg(header.lods@);
        }
        assert(0 <= d.nx * d.ny <= 0xffff_ffff * 0xffff_ffff) by (nonlinear_arith)
            requires
                0 <= d.nx <= 0xffff_ffff,
                0 <= d.ny <= 0xffff_ffff,
        ;
        let wide: u128 = d.nx as u128 * d.ny as u128;
        assert(0 <= wide * d.nz <= 0xffff_ffff * 0xffff_ffff * 0xffff_ffff) by (nonlinear_arith)
            requires
                0 <= wide <= 0xffff_ffff * 0xffff_ffff,
                0 <= d.nz <= 0xffff_ffff,
        ;
        let size: u128 = wide * d.nz as u128;
        assert(size == d.size());
        if size > (room / 2) as u128 {
            assert(image_size(header) > usize::MAX);
            return false;
        }
        room = room - 2 * size as u64;
        l = l + 1;
    }
    true
}

fn push_columns(out: &mut Vec<u8>, cols: &Vec<Vec<u8>>)
    ensures
        final(out)@ == old(out)@ + joined(columns(cols@)),
{
    let ghost before = out@;
    let mut l: usize = 0;
    assert(columns(cols@).take(0) =~= Seq::empty());
    assert(before + joined(Seq::<Seq<u8>>::empty()) =~= before);
    while l < cols.len()
        invariant
            l <= cols@.len(),
            out@ == before + joined(columns(cols@).take(l as int)),
        decreases cols.len() - l,
    {
        le::push_bytes(out, &cols[l]);
        let ghost next = columns(cols@).take(l + 1);
        assert(next.drop_last() =~= columns(cols@).take(l as int));
        assert(next.last() == cols@[l as int]@);
        assert(out@ =~= before + joined(next));
        l = l + 1;
    }
    assert(columns(cols@).take(cols@.len() as int) =~= columns(cols@));
}

proof fn lemma_joined(cols: Seq<Seq<u8>>, lods: Seq<LodDims>, front: Seq<u8>, tail: Seq<u8>, l: int)
    requires
        0 <= l < cols.len() <= lods.len(),
        forall|k: int| 0 <= k < cols.len() ==> (#[trigger] cols[k]).len() == lods[k].size(),
    ensures
        joined(cols).len() == chunks_before(lods, cols.len() as int),
        (front + joined(cols) + tail).subrange(
            front.len() + chunks_before(lods, l),
            front.len() + chunks_before(lods, l + 1),
        ) == cols[l],
        0 <= chunks_before(lods, l),
        chunks_before(lods, l + 1) <= joined(cols).len(),
    decreases cols.len(),
{
    lemma_joined_len(cols, lods);
    lemma_joined_len(cols.drop_last(), lods);
    lemma_chunks_before_mono(lods, 0, l);
    lemma_chunks_before_mono(lods, l, l + 1);
    lemma_chunks_before_mono(lods, l + 1, cols.len() as int);
    let b = front + joined(cols) + tail;
    let n = cols.len() - 1;
    if l == n {
        assert(b.subrange(
            front.len() + chunks_before(lods, l),
            front.len() + chunks_before(lods, l + 1),
        ) =~= cols[l]);
    } else {
        lemma_joined(cols.drop_last(), lods, front, cols.last() + tail, l);
        assert(front + joined(cols.drop_last()) + (cols.last() + tail) =~= b);
    }
}

proof fn lemma_joined_len(cols: Seq<Seq<u8>>, lods: Seq<LodDims>)
    requires
        cols.len() <= lods.len(),
        forall|k: int| 0 <= k < cols.len() ==> (#[trigger] cols[k]).len() == lods[k].size(),
    ensures
        joined(cols).len() == chunks_before(lods, cols.len() as int),
    decreases cols.len(),
{
    if cols.len() > 0 {
        lemma_joined_len(cols.drop_last(), lods);
    }
}

/// An index that is written out and taken up again holds the same states and
/// the same access epochs.
pub proof fn law_image_round_trip(s: Sidecar)
    requires
        s.wf(),
        encode_utf8(s.header.volume_id@).len() < 0x1_0000,
        s.header.lods@.len() == s.header.max_lod + 1,
    ensures
        parsed_header(s.image()) == Ok::<HeaderModel, HeaderError>(s.header.model()),
        loaded_columns(s.image(), s.header.model(), header_len(s.header.model()))
            == s.model().states,
        loaded_columns(
            s.image(),
            s.header.model(),
            header_len(s.header.model()) + chunks_before(s.header.lods@, s.header.lods@.len() as int),
        ) == s.model().access_epochs,
{
    let st = joined(columns(s.states@));
    let ep = joined(columns(s.access_epochs@));
    law_header_round_trip(s.header, st + ep);
    assert(s.header.bytes() + (st + ep) =~= s.image());
    s.header.lemma_len();
    lemma_sizes_nonneg(s.header.lods@);
    lemma_columns_found(columns(s.states@), s.header.model(), s.header.bytes(), ep);
    lemma_joined_len(columns(s.states@), s.header.lods@);
    lemma_columns_found(
        columns(s.access_epochs@),
        s.header.model(),
        s.header.bytes() + st,
        Seq::empty(),
    );
    assert((s.header.bytes() + st) + ep + Seq::<u8>::empty() =~= s.image());
}

/// How long an image is.
pub proof fn lemma_image_len(s: Sidecar)
    requires
        s.wf(),
    ensures
        s.image().len() == header_len(s.header.model()) + 2 * chunks_before(
            s.header.lods@,
            s.header.lods@.len() as int,
        ),
{
    s.header.lemma_len();
    lemma_joined_len(columns(s.states@), s.header.lods@);
    lemma_joined_len(columns(s.access_epochs@), s.header.lods@);
}

proof fn lemma_columns_found(cols: Seq<Seq<u8>>, h: HeaderModel, front: Seq<u8>, tail: Seq<u8>)
    requires
        cols.len() == h.lods.len(),
        forall|k: int| 0 <= k < cols.len() ==> (#[trigger] cols[k]).len() == h.lods[k].size(),
    ensures
        loaded_columns(front + joined(cols) + tail, h, front.len() as int) == cols,
{
    let b = front + joined(cols) + tail;
    assert forall|l: int| 0 <= l < cols.len() implies #[trigger] cols[l] == loaded_columns(
        b,
        h,
        front.len() as int,
    )[l] by {
        lemma_joined(cols, h.lods, front, tail, l);
        lemma_column(b, front.len() + chunks_before(h.lods, l), cols[l]);
    }
    assert(loaded_columns(b, h, front.len() as int) =~= cols);
}

proof fn lemma_column(bytes: Seq<u8>, at: int, col: Seq<u8>)
    requires
        0 <= at,
        at + col.len() <= bytes.len(),
        bytes.subrange(at, at + col.len()) == col,
    ensures
        column_at(bytes, at, col.len() as int) == col,
{
    assert forall|i: int| 0 <= i < col.len() implies byte_or_zero(bytes, at + i) == #[trigger] col[i] by {
        assert(bytes.subrange(at, at + col.len())[i] == bytes[at + i]);
    }
    assert(column_at(bytes, at, col.len() as int) =~= col);
}

/// Where the index file stands in a volume's directory.
pub open spec fn index_path(root: Seq<char>) -> Seq<char> {
    text::joined_path(root, "chunks.idx"@)
}

/// Where the index file stands in a volume's directory.
pub fn sidecar_path(root: &str) -> (p: String)
    ensures
        p@ == index_path(root@),
{
    text::join_path(root, "chunks.idx")
}

/// A level has exactly the chunks that begin inside the volume: each is
/// sixty-four voxels of the level long on every axis, and a voxel is as many of
/// the finest as two to the level.
pub proof fn law_level_has_the_chunks_of_the_volume(extent: [u32; 3], lod: u8, x: u32, y: u32, z: u32)
    requires
        lod <= 25,
    ensures
        LodDims::of(extent, lod).has(x, y, z) <==> {
            &&& 64 * x * chunk::pow2(lod as nat) < extent@[0]
            &&& 64 * y * chunk::pow2(lod as nat) < extent@[1]
            &&& 64 * z * chunk::pow2(lod as nat) < extent@[2]
        },
{
    chunk::lemma_pow2_bounds(lod as nat);
    let k = chunk::pow2(lod as nat) as int;
    lemma_begins_inside(extent@[0] as int, k, x as int);
    lemma_begins_inside(extent@[1] as int, k, y as int);
    lemma_begins_inside(extent@[2] as int, k, z as int);
}

proof fn lemma_begins_inside(e: int, k: int, x: int)
    requires
        0 <= e <= u32::MAX,
        k >= 1,
        x >= 0,
    ensures
        x < ceil_div(e, 64 * k) <==> 64 * x * k < e,
        0 <= ceil_div(e, 64 * k) <= u32::MAX,
{
    let s = 64 * k;
    assert(64 * x * k == x * s) by (nonlinear_arith)
        requires
            s == 64 * k,
    ;
    assert(x < (e + s - 1) / s <==> x * s < e) by (nonlinear_arith)
        requires
            s >= 1,
    ;
    assert(0 <= (e + s - 1) / s <= e) by (nonlinear_arith)
        requires
            s >= 1,
            e >= 0,
    ;
}

/// Where the fields of a header stand: eight bytes that tell the format, the
/// length of the volume's name in two, the name, one byte each for the edge of a
/// chunk and for the coarsest level, the extent's three numbers and then three
/// for each level, all of four bytes, the least significant byte first.
pub proof fn law_header_layout(h: Header, k: int)
    requires
        encode_utf8(h.volume_id@).len() < 0x1_0000,
        h.lods@.len() == h.max_lod + 1,
        0 <= k < h.lods@.len(),
    ensures
        ({
            let b = h.bytes();
            let n = encode_utf8(h.volume_id@).len() as int;
            &&& b.take(8) == seq![86u8, 67, 83, 80, 82, 83, 48, 49]
            &&& b[8] + 256 * b[9] == n
            &&& b.subrange(10, 10 + n) == encode_utf8(h.volume_id@)
            &&& b[10 + n] == h.chunk_side
            &&& b[11 + n] == h.max_lod
            &&& le::from_le(b.subrange(12 + n, 16 + n)) == h.extent@[0]
            &&& le::from_le(b.subrange(16 + n, 20 + n)) == h.extent@[1]
            &&& le::from_le(b.subrange(20 + n, 24 + n)) == h.extent@[2]
            &&& le::from_le(b.subrange(24 + n + 12 * k, 28 + n + 12 * k)) == h.lods@[k].nx
            &&& le::from_le(b.subrange(28 + n + 12 * k, 32 + n + 12 * k)) == h.lods@[k].ny
            &&& le::from_le(b.subrange(32 + n + 12 * k, 36 + n + 12 * k)) == h.lods@[k].nz
        }),
{
    let b = h.bytes();
    let n = encode_utf8(h.volume_id@).len() as int;
    law_header_round_trip(h, Seq::empty());
    assert(b + Seq::<u8>::empty() =~= b);
    h.lemma_len();
    le::lemma_pow256_table();
    le::lemma_le_len(encode_utf8(h.volume_id@).len(), 2);
    le::lemma_le_round_trip(encode_utf8(h.volume_id@).len(), 2);
    assert(b.take(8) =~= magic());
    assert(b.subrange(8, 10) =~= le::le(encode_utf8(h.volume_id@).len(), 2));
    le::law_later_bytes_count_more(b.subrange(8, 10));
    assert(b.subrange(10, 10 + n) =~= encode_utf8(h.volume_id@));
    let p = parsed_header(b)->Ok_0;
    assert(p == h.model());
    assert(p.extent[0] == h.extent@[0] && p.extent[1] == h.extent@[1] && p.extent[2] == h.extent@[2]);
    assert(p.lods[k] == h.lods@[k]);
    lemma_four_bytes(b, 12 + n);
    lemma_four_bytes(b, 16 + n);
    lemma_four_bytes(b, 20 + n);
    lemma_four_bytes(b, 24 + n + 12 * k);
    lemma_four_bytes(b, 28 + n + 12 * k);
    lemma_four_bytes(b, 32 + n + 12 * k);
}

proof fn lemma_four_bytes(b: Seq<u8>, at: int)
    requires
        0 <= at,
        at + 4 <= b.len(),
    ensures
        u32_at(b, at) == le::from_le(b.subrange(at, at + 4)),
{
    le::lemma_from_le_bound(b.subrange(at, at + 4));
    le::lemma_pow256_table();
}

/// Where a chunk's two bytes stand in the image: its state behind the header and
/// the states of all finer levels, at its place in its level, and its access
/// epoch as far behind the last state.
pub proof fn law_chunk_has_its_bytes(s: Sidecar, lod: int, idx: int)
    requires
        s.wf(),
        0 <= lod < s.header.lods@.len(),
        0 <= idx < s.header.lods@[lod].size(),
    ensures
        ({
            let finer = chunks_before(s.header.lods@, lod);
            let all = chunks_before(s.header.lods@, s.header.lods@.len() as int);
            let at = s.header.bytes().len() + finer + idx;
            &&& 0 <= finer
            &&& finer + idx < all
            &&& s.image()[at] == s.states@[lod]@[idx]
            &&& s.image()[at + all] == s.access_epochs@[lod]@[idx]
            &&& s.image().len() == s.header.bytes().len() + 2 * all
        }),
{
    let st = joined(columns(s.states@));
    let ep = joined(columns(s.access_epochs@));
    let front = s.header.bytes();
    let lods = s.header.lods@;
    lemma_joined(columns(s.states@), lods, front, ep, lod);
    lemma_joined(columns(s.access_epochs@), lods, front + st, Seq::empty(), lod);
    assert((front + st) + ep + Seq::<u8>::empty() =~= s.image());
    let (a, b) = (chunks_before(lods, lod), chunks_before(lods, lod + 1));
    assert(s.states@[lod]@.len() == lods[lod].size());
    assert(s.access_epochs@[lod]@.len() == lods[lod].size());
    assert(s.image().subrange(front.len() + a, front.len() + b)[idx] == s.image()[front.len() + a + idx]);
    assert(s.image().subrange((front + st).len() + a, (front + st).len() + b)[idx] == s.image()[(front
        + st).len() + a + idx]);
}

/// The chunks of the levels before the next are those before this one and its
/// own.
pub proof fn law_levels_follow_each_other(lods: Seq<LodDims>, k: int)
    requires
        0 <= k < lods.len(),
    ensures
        chunks_before(lods, 0) == 0,
        chunks_before(lods, k + 1) == chunks_before(lods, k) + lods[k].nx * lods[k].ny * lods[k].nz,
{
}

/// Chunks of a level are counted along x first, then y, then z.
pub proof fn law_chunks_are_counted_x_first(d: LodDims, x: u32, y: u32, z: u32)
    requires
        d.has(x, y, z),
    ensures
        d.index_of(0, 0, 0) == 0,
        x + 1 < d.nx ==> d.index_of((x + 1) as u32, y, z) == d.index_of(x, y, z) + 1,
        y + 1 < d.ny ==> d.index_of(x, (y + 1) as u32, z) == d.index_of(x, y, z) + d.nx,
        z + 1 < d.nz ==> d.index_of(x, y, (z + 1) as u32) == d.index_of(x, y, z) + d.nx * d.ny,
{
    let (nx, ny) = (d.nx as int, d.ny as int);
    assert((z * ny + y + 1) * nx + x == (z * ny + y) * nx + x + nx) by (nonlinear_arith);
    assert(((z + 1) * ny + y) * nx + x == (z * ny + y) * nx + x + nx * ny) by (nonlinear_arith);
    assert((0 * ny + 0) * nx + 0 == 0) by (nonlinear_arith);
}

/// An index that begins otherwise is refused, and so is one whose bytes end
/// before its name, its extent and the dimensions of all its levels.
pub proof fn law_broken_header_is_refused(bytes: Seq<u8>, i: int)
    ensures
        0 <= i < 8 <= bytes.len() && bytes[i] != seq![86u8, 67, 83, 80, 82, 83, 48, 49][i] ==> parsed_header(bytes)
            == Err::<HeaderModel, HeaderError>(HeaderError::BadMagic),
        bytes.len() < 8 ==> parsed_header(bytes) == Err::<HeaderModel, HeaderError>(HeaderError::Truncated),
        parsed_header(bytes) matches Ok(h) ==> {
            let n = bytes[8] + 256 * bytes[9];
            &&& bytes.len() >= 10 + n + 2 + 12 + 12 * (h.max_lod + 1)
            &&& h.max_lod == bytes[11 + n]
            &&& h.chunk_side == bytes[10 + n]
            &&& h.lods.len() == h.max_lod + 1
            &&& h.extent.len() == 3
        },
{
    if bytes.len() >= 8 && 0 <= i < 8 {
        assert(bytes.take(8)[i] == bytes[i]);
    }
    if bytes.len() >= 10 {
        le::law_later_bytes_count_more(bytes.subrange(8, 10));
    }
}

/// Headers of one layout and the same grids are the same bytes, and no others
/// are.
pub proof fn law_same_layout_is_the_same_header(a: Header, b: Header)
    requires
        encode_utf8(a.volume_id@).len() < 0x1_0000,
        encode_utf8(b.volume_id@).len() < 0x1_0000,
        a.lods@.len() == a.max_lod + 1,
        b.lods@.len() == b.max_lod + 1,
    ensures
        a.bytes() == b.bytes() <==> a.same_layout(&b) && a.lods@ == b.lods@,
{
    law_header_round_trip(a, Seq::empty());
    law_header_round_trip(b, Seq::empty());
    assert(a.bytes() + Seq::<u8>::empty() =~= a.bytes());
    assert(b.bytes() + Seq::<u8>::empty() =~= b.bytes());
    if a.bytes() == b.bytes() {
        assert(a.model() == b.model());
    }
}

/// The changes of every level count.
pub proof fn law_changes_of_every_level_count(first: u64, rest: Seq<u64>)
    ensures
        Sidecar::pending_sum(seq![first] + rest) == first + Sidecar::pending_sum(rest),
        Sidecar::pending_sum(Seq::<u64>::empty()) == 0,
    decreases rest.len(),
{
    let all = seq![first] + rest;
    if rest.len() == 0 {
        assert(all.drop_last() =~= Seq::empty());
        assert(Sidecar::pending_sum(all.drop_last()) == 0);
    } else {
        law_changes_of_every_level_count(first, rest.drop_last());
        assert(all.drop_last() =~= seq![first] + rest.drop_last());
    }
}

} // verus!
