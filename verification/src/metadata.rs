//! Pictures that carry a record of how they were made.
use crate::digest;
use crate::digest::sha256_hex;
use crate::le;
use crate::paint::Image;
use crate::text;
use image::ImageEncoder;
use tiff::encoder::colortype::Gray8;
use tiff::encoder::TiffEncoder;
use tiff::tags::Tag;
use vstd::prelude::*;
use vstd::utf8::*;

verus! {

/// The keyword that the record stands under in a PNG file.
pub const METADATA_KEYWORD: &'static str = "vesuvius-render";

/// How a picture is stored.
#[derive(Debug, Clone, Copy, PartialEq, Eq, Structural)]
pub enum TargetFormat {
    Png,
    Tiff,
    Jpeg,
    /// A format with no place for the record.
    Other,
}

/// `c`, lower-case if it is an ASCII letter.
pub open spec fn lower(c: char) -> char {
    if 65 <= c as int <= 90 {
        (c as int + 32) as char
    } else {
        c
    }
}

/// `s` with its ASCII letters lower-case.
pub open spec fn lowercase(s: Seq<char>) -> Seq<char> {
    s.map_values(|c: char| lower(c))
}

/// The format that an extension stands for, in any case.
pub open spec fn format_of(extension: Seq<char>) -> TargetFormat {
    let e = lowercase(extension);
    if e == "png"@ {
        TargetFormat::Png
    } else if e == "tif"@ || e == "tiff"@ {
        TargetFormat::Tiff
    } else if e == "jpg"@ || e == "jpeg"@ {
        TargetFormat::Jpeg
    } else {
        TargetFormat::Other
    }
}

fn lower_char(c: char) -> (r: char)
    ensures
        r == lower(c),
{
    let n: u32 = c as u32;
    if 65 <= n && n <= 90 {
        (n as u8 + 32) as char
    } else {
        c
    }
}

/// The format that an extension stands for.
pub fn target_format(extension: &str) -> (f: TargetFormat)
    ensures
        f == format_of(extension@),
{
    let chars = text::to_chars(extension);
    let mut low: Vec<char> = Vec::new();
    let mut i: usize = 0;
    while i < chars.len()
        invariant
            i <= chars@.len(),
            chars@ == extension@,
            low@.len() == i,
            forall|j: int| 0 <= j < i ==> #[trigger] low@[j] == lower(chars@[j]),
        decreases chars.len() - i,
    {
        low.push(lower_char(chars[i]));
        i = i + 1;
    }
    assert(low@ =~= lowercase(extension@));
    let e = text::from_chars(&low);
    if text::same_text(e.as_str(), "png") {
        TargetFormat::Png
    } else if text::same_text(e.as_str(), "tif") || text::same_text(e.as_str(), "tiff") {
        TargetFormat::Tiff
    } else if text::same_text(e.as_str(), "jpg") || text::same_text(e.as_str(), "jpeg") {
        TargetFormat::Jpeg
    } else {
        TargetFormat::Other
    }
}

/// Whether the bytes begin as a JPEG stream does.
pub open spec fn is_jpeg(bytes: Seq<u8>) -> bool {
    bytes.len() >= 2 && bytes[0] == 0xFF && bytes[1] == 0xD8
}

/// As much of a comment as a segment holds.
pub open spec fn comment_payload(comment: Seq<u8>) -> Seq<u8> {
    if comment.len() <= 0xFFFD {
        comment
    } else {
        comment.take(0xFFFD)
    }
}

/// A JPEG stream with a comment segment put in after its first marker. The
/// segment's length, big end first, counts itself and the comment.
pub open spec fn commented(jpeg: Seq<u8>, comment: Seq<u8>) -> Seq<u8> {
    let payload = comment_payload(comment);
    let n = payload.len() + 2;
    if is_jpeg(jpeg) {
        jpeg.take(2) + seq![0xFFu8, 0xFEu8, (n / 256) as u8, (n % 256) as u8] + payload + jpeg.skip(2)
    } else {
        jpeg
    }
}

/// Puts a comment into a JPEG stream (see `commented`). What is no JPEG stream
/// stays as it is.
pub fn inject_jpeg_comment(jpeg: Vec<u8>, comment: &[u8]) -> (out: Vec<u8>)
    ensures
        out@ == commented(jpeg@, comment@),
{
    if jpeg.len() < 2 || jpeg[0] != 0xFF || jpeg[1] != 0xD8 {
        return jpeg;
    }
    let n: usize = if comment.len() <= 0xFFFD { comment.len() } else { 0xFFFD };
    let payload = le::bytes_of(comment, 0, n);
    assert(payload@ =~= comment_payload(comment@));
    let head = le::bytes_of(&jpeg, 0, 2);
    let tail = le::bytes_of(&jpeg, 2, jpeg.len());
    let len: usize = n + 2;
    let mut out: Vec<u8> = Vec::new();
    le::push_bytes(&mut out, &head);
    out.push(0xFF);
    out.push(0xFE);
    out.push((len / 256) as u8);
    out.push((len % 256) as u8);
    le::push_bytes(&mut out, &payload);
    le::push_bytes(&mut out, &tail);
    assert(out@ =~= commented(jpeg@, comment@));
    out
}

/// A comment leaves the stream's own bytes as they are, around it; one that
/// fits stands in it whole, right after the first marker.
pub proof fn law_comment_keeps_the_stream(jpeg: Seq<u8>, comment: Seq<u8>)
    requires
        is_jpeg(jpeg),
    ensures
        is_jpeg(commented(jpeg, comment)),
        ({
            let n = comment_payload(comment).len();
            &&& commented(jpeg, comment).take(2) + commented(jpeg, comment).skip(6 + n as int) == jpeg
            &&& commented(jpeg, comment)[2] == 0xFF
            &&& commented(jpeg, comment)[3] == 0xFE
            &&& commented(jpeg, comment)[4] * 256 + commented(jpeg, comment)[5] == n + 2
            &&& commented(jpeg, comment).subrange(6, 6 + n as int) == comment_payload(comment)
        }),
{
    let c = commented(jpeg, comment);
    let n = comment_payload(comment).len() as int;
    assert(c.take(2) + c.skip(6 + n) =~= jpeg);
    assert(c.subrange(6, 6 + n) =~= comment_payload(comment));
}

/// Whether a result holds these bytes, or this error.
pub open spec fn is_file(r: Result<Vec<u8>, String>, file: Result<Seq<u8>, Seq<char>>) -> bool {
    match (r, file) {
        (Ok(b), Ok(bytes)) => b@ == bytes,
        (Err(e), Err(words)) => e@ == words,
        _ => false,
    }
}

/// What `image`'s JPEG encoder makes of a gray picture.
pub uninterp spec fn jpeg_of(pixels: Seq<u8>, width: u32, height: u32) -> Result<Seq<u8>, Seq<char>>;

/// `image::codecs::jpeg::JpegEncoder` encodes a gray picture. It refuses sides
/// of zero or of more than sixteen bits, and nothing else where it writes to
/// memory. A stream begins with its start marker. A picture with another number
/// of pixels than its sides say would make it panic.
#[verifier::external_body]
fn encode_jpeg(pixels: &Vec<u8>, width: u32, height: u32) -> (r: Result<Vec<u8>, String>)
    requires
        pixels@.len() == width * height,
    ensures
        is_file(r, jpeg_of(pixels@, width, height)),
        r is Ok == (1 <= width <= 0xFFFF && 1 <= height <= 0xFFFF),
        r matches Ok(b) ==> is_jpeg(b@),
{
    let mut out: Vec<u8> = Vec::new();
    image::codecs::jpeg::JpegEncoder::new(&mut out).write_image(
        pixels,
        width,
        height,
        image::ExtendedColorType::L8,
    ).map_err(|e| e.to_string())?;
    Ok(out)
}

/// What `png`'s encoder makes of a gray picture with a compressed text under a
/// keyword.
pub uninterp spec fn png_of(
    pixels: Seq<u8>,
    width: u32,
    height: u32,
    keyword: Seq<char>,
    record: Seq<char>,
) -> Result<Seq<u8>, Seq<char>>;

/// Whether every character is one of Latin-1.
pub open spec fn is_latin1(s: Seq<char>) -> bool {
    forall|i: int| 0 <= i < s.len() ==> #[trigger] s[i] as int <= 0xFF
}

/// `png::Encoder` encodes an eight-bit gray picture and a compressed text. It
/// refuses sides of zero, another number of pixels than the sides say, and text
/// that is not Latin-1.
#[verifier::external_body]
fn encode_png(
    pixels: &Vec<u8>,
    width: u32,
    height: u32,
    keyword: &str,
    record: &str,
) -> (r: Result<Vec<u8>, String>)
    requires
        pixels@.len() == width * height,
    ensures
        is_file(r, png_of(pixels@, width, height, keyword@, record@)),
        r is Ok ==> width > 0 && height > 0 && is_latin1(record@),
{
    let mut out: Vec<u8> = Vec::new();
    let mut encoder = png::Encoder::new(&mut out, width, height);
    encoder.set_color(png::ColorType::Grayscale);
    encoder.set_depth(png::BitDepth::Eight);
    encoder.add_ztxt_chunk(keyword.to_string(), record.to_string()).map_err(|e| e.to_string())?;
    let mut writer = encoder.write_header().map_err(|e| e.to_string())?;
    writer.write_image_data(pixels).map_err(|e| e.to_string())?;
    writer.finish().map_err(|e| e.to_string())?;
    Ok(out)
}

/// What `tiff`'s encoder makes of a gray picture with a description, on a
/// machine of that byte order.
pub uninterp spec fn tiff_of(
    little_endian: bool,
    pixels: Seq<u8>,
    width: u32,
    height: u32,
    record: Seq<char>,
) -> Result<Seq<u8>, Seq<char>>;

/// Whether every character is one of ASCII, and none is the one that ends a
/// text.
pub open spec fn is_plain(s: Seq<char>) -> bool {
    forall|i: int| 0 <= i < s.len() ==> 1 <= #[trigger] s[i] as int <= 0x7F
}

/// Whether a file says that its numbers begin with their low bytes. An error is
/// the same in either order.
pub open spec fn is_little_endian(r: Result<Vec<u8>, String>) -> bool {
    match r {
        Ok(b) => b@.len() > 0 && b@[0] == 0x49,
        Err(_) => true,
    }
}

/// Whether a file begins with the mark of a byte order.
pub open spec fn has_order_mark(file: Seq<u8>) -> bool {
    file.len() >= 2 && (file[0] == 0x49 && file[1] == 0x49 || file[0] == 0x4D && file[1] == 0x4D)
}

/// `tiff::encoder::TiffEncoder` encodes an eight-bit gray picture with a
/// description tag, in the byte order of the machine, which the file's first
/// two bytes tell. It refuses sides of zero and a description that is not plain
/// ASCII.
#[verifier::external_body]
fn encode_tiff(pixels: &Vec<u8>, width: u32, height: u32, record: &str) -> (r: Result<
    Vec<u8>,
    String,
>)
    requires
        pixels@.len() == width * height,
    ensures
        is_file(r, tiff_of(is_little_endian(r), pixels@, width, height, record@)),
        r matches Ok(b) ==> has_order_mark(b@),
        r is Ok ==> width > 0 && height > 0 && is_plain(record@),
{
    let mut out = std::io::Cursor::new(Vec::new());
    let mut tiff = TiffEncoder::new(&mut out).map_err(|e| e.to_string())?;
    let mut layer = tiff.new_image::<Gray8>(width, height).map_err(|e| e.to_string())?;
    layer.encoder().write_tag(Tag::ImageDescription, record).map_err(|e| e.to_string())?;
    layer.write_data(pixels).map_err(|e| e.to_string())?;
    Ok(out.into_inner())
}

/// A picture's file with a record in it, on a machine of a byte order; nothing
/// for a format with no place for one.
pub open spec fn encoded(
    little_endian: bool,
    pixels: Seq<u8>,
    width: u32,
    height: u32,
    format: TargetFormat,
    record: Seq<char>,
) -> Option<Result<Seq<u8>, Seq<char>>> {
    match format {
        TargetFormat::Png => Some(png_of(pixels, width, height, METADATA_KEYWORD@, record)),
        TargetFormat::Tiff => Some(tiff_of(little_endian, pixels, width, height, record)),
        TargetFormat::Jpeg => Some(
            match jpeg_of(pixels, width, height) {
                Ok(b) => Ok(commented(b, encode_utf8(record))),
                Err(e) => Err(e),
            },
        ),
        TargetFormat::Other => None,
    }
}

/// A picture's file with a record of how it was made (see `encoded`). A format
/// with no place for one is left to the host.
pub fn encode_with_metadata(image: &Image, extension: &str, record: &str) -> (r: Option<
    Result<Vec<u8>, String>,
>)
    requires
        image.wf(),
        image.width <= u32::MAX,
        image.height <= u32::MAX,
    ensures
        match encoded(
            r is Some ==> is_little_endian(r->0),
            image.pixels@,
            image.width as u32,
            image.height as u32,
            format_of(extension@),
            record@,
        ) {
            None => r is None,
            Some(file) => r matches Some(f) && is_file(f, file),
        },
        format_of(extension@) is Jpeg ==> r is Some && (r->0 is Ok <==> 1 <= image.width <= 0xFFFF && 1
            <= image.height <= 0xFFFF),
        format_of(extension@) is Png && r->0 is Ok ==> image.width > 0 && image.height > 0 && is_latin1(
            record@,
        ),
        format_of(extension@) is Tiff && r->0 is Ok ==> image.width > 0 && image.height > 0 && is_plain(
            record@,
        ) && has_order_mark(r->0->Ok_0@),
{
    let w: u32 = image.width as u32;
    let h: u32 = image.height as u32;
    match target_format(extension) {
        TargetFormat::Png => Some(encode_png(&image.pixels, w, h, METADATA_KEYWORD, record)),
        TargetFormat::Tiff => Some(encode_tiff(&image.pixels, w, h, record)),
        TargetFormat::Jpeg => match encode_jpeg(&image.pixels, w, h) {
            Ok(b) => Some(Ok(inject_jpeg_comment(b, record.as_bytes()))),
            Err(e) => Some(Err(e)),
        },
        TargetFormat::Other => None,
    }
}

/// What a segment was read from.
#[derive(Debug, Clone, Copy, PartialEq, Eq, Structural)]
pub enum SourceKind {
    Obj,
    TifXyz,
    Unspecified,
}

impl SourceKind {
    /// The kind in a word.
    pub open spec fn word(self) -> Seq<char> {
        match self {
            SourceKind::Obj => "obj"@,
            SourceKind::TifXyz => "tifxyz"@,
            SourceKind::Unspecified => "none"@,
        }
    }

    /// The kind in a word.
    pub fn name(&self) -> (s: &'static str)
        ensures
            s@ == self.word(),
    {
        match self {
            SourceKind::Obj => "obj",
            SourceKind::TifXyz => "tifxyz",
            SourceKind::Unspecified => "none",
        }
    }
}

/// The files that a segment is read from.
#[derive(Debug)]
pub struct SourceInfo {
    pub kind: SourceKind,
    pub files: Vec<String>,
}

/// `s` without the slashes at its end.
pub open spec fn without_end_slashes(s: Seq<char>) -> Seq<char>
    decreases s.len(),
{
    if s.len() > 0 && s.last() == '/' {
        without_end_slashes(s.drop_last())
    } else {
        s
    }
}

/// The name of a file of a directory of grids.
pub open spec fn file_in(dir: Seq<char>, name: Seq<char>) -> Seq<char> {
    without_end_slashes(dir) + "/"@ + name
}

/// `dir` without the slashes at its end.
pub fn trim_end_slashes(dir: &str) -> (r: Vec<char>)
    ensures
        r@ == without_end_slashes(dir@),
{
    let mut out = text::to_chars(dir);
    while out.len() > 0 && out[out.len() - 1] == '/'
        invariant
            without_end_slashes(dir@) == without_end_slashes(out@),
        decreases out.len(),
    {
        let ghost before = out@;
        let _ = out.pop();
        assert(out@ =~= before.drop_last());
    }
    out
}

fn file_name_in(dir: &str, name: &str) -> (s: String)
    ensures
        s@ == file_in(dir@, name@),
{
    let mut out = trim_end_slashes(dir);
    text::push_text(&mut out, "/");
    text::push_text(&mut out, name);
    text::from_chars(&out)
}

/// The files that identify a rendered segment: the mesh, or else the parts of
/// the directory of grids, or none.
pub fn source_info(obj: Option<&str>, tifxyz: Option<&str>) -> (r: SourceInfo)
    ensures
        match (obj, tifxyz) {
            (Some(path), _) => {
                &&& r.kind == SourceKind::Obj
                &&& r.files@.len() == 1
                &&& r.files@[0]@ == path@
            },
            (None, Some(dir)) => {
                &&& r.kind == SourceKind::TifXyz
                &&& r.files@.len() == 4
                &&& r.files@[0]@ == file_in(dir@, "meta.json"@)
                &&& r.files@[1]@ == file_in(dir@, "x.tif"@)
                &&& r.files@[2]@ == file_in(dir@, "y.tif"@)
                &&& r.files@[3]@ == file_in(dir@, "z.tif"@)
            },
            (None, None) => r.kind == SourceKind::Unspecified && r.files@.len() == 0,
        },
{
    let mut files: Vec<String> = Vec::new();
    match obj {
        Some(path) => {
            files.push(text::owned(path));
            return SourceInfo { kind: SourceKind::Obj, files };
        },
        None => {},
    }
    match tifxyz {
        Some(dir) => {
            files.push(file_name_in(dir, "meta.json"));
            files.push(file_name_in(dir, "x.tif"));
            files.push(file_name_in(dir, "y.tif"));
            files.push(file_name_in(dir, "z.tif"));
            SourceInfo { kind: SourceKind::TifXyz, files }
        },
        None => SourceInfo { kind: SourceKind::Unspecified, files },
    }
}

/// A source file's identity: where it is, how long, and the digest of what it
/// holds, as far as it can be read.
#[derive(Debug)]
pub struct SourceFile {
    pub path: String,
    pub bytes: Option<u64>,
    pub sha256: Option<String>,
}

/// Describes a file. `canonical` is its full path, if that can be told, and
/// `contents` what it holds, if it can be read.
pub fn describe_file(path: &str, canonical: Option<&str>, bytes: Option<u64>, contents: Option<&[u8]>) -> (r:
    SourceFile)
    ensures
        r.path@ == (match canonical {
            Some(c) => c@,
            None => path@,
        }),
        r.bytes == bytes,
        match contents {
            Some(b) => r.sha256 matches Some(s) && s@ == digest::hex(digest::sha256(b@)),
            None => r.sha256 is None,
        },
{
    let path = match canonical {
        Some(c) => text::owned(c),
        None => text::owned(path),
    };
    let sha256 = match contents {
        Some(b) => {
            let d = sha256_hex(b);
            Some(text::from_chars(&d))
        },
        None => None,
    };
    SourceFile { path, bytes, sha256 }
}

/// A comment of as many bytes as a segment's length can count stands in the
/// stream whole; of a longer one, as many of its first bytes as that.
pub proof fn law_comment_is_kept_as_far_as_it_fits(jpeg: Seq<u8>, comment: Seq<u8>)
    requires
        is_jpeg(jpeg),
    ensures
        comment.len() <= 65533 ==> commented(jpeg, comment) == jpeg.take(2) + seq![
            0xFFu8,
            0xFEu8,
            ((comment.len() + 2) / 256) as u8,
            ((comment.len() + 2) % 256) as u8,
        ] + comment + jpeg.skip(2),
        comment.len() > 65533 ==> commented(jpeg, comment) == commented(jpeg, comment.take(65533)),
{
    if comment.len() > 65533 {
        assert(comment.take(65533).len() == 65533);
    }
}

/// What is no JPEG stream stays as it is.
pub proof fn law_other_streams_stay(bytes: Seq<u8>, comment: Seq<u8>)
    requires
        bytes.len() < 2 || bytes[0] != 0xFF || bytes[1] != 0xD8,
    ensures
        commented(bytes, comment) == bytes,
{
}

/// Slashes at the end do not count, however many there are, and nothing else is
/// taken away.
pub proof fn law_end_slashes_do_not_count(s: Seq<char>, n: nat)
    requires
        s.len() == 0 || s.last() != '/',
    ensures
        without_end_slashes(s + Seq::new(n, |i: int| '/')) == s,
    decreases n,
{
    let t = s + Seq::new(n, |i: int| '/');
    if n > 0 {
        law_end_slashes_do_not_count(s, (n - 1) as nat);
        assert(t.drop_last() =~= s + Seq::new((n - 1) as nat, |i: int| '/'));
    } else {
        assert(t =~= s);
    }
}

} // verus!
