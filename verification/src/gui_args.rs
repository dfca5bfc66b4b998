//! The viewer's arguments, and what they ask for.
use crate::text;
use vstd::prelude::*;
use vstd::utf8::*;

verus! {

/// How the overlay is laid over a picture.
#[derive(Debug, Clone, Copy, PartialEq, Eq, Structural)]
pub enum BlendMode {
    Alpha,
    Multiply,
}

/// How an overlay is colored. Single-precision numbers stand as their bits.
#[derive(Debug, Clone, Copy)]
pub enum OverlayColoring {
    /// A color for each of the values one to four.
    FourColors { alpha: u32, mode: BlendMode },
    /// One color for the largest value.
    Boolean { color: [u8; 3], alpha: u32, mode: BlendMode },
    /// One hue, as strong as the value.
    Hue { hue_deg: u32, alpha: u32, mode: BlendMode },
}

/// Why a coloring could not be read. Parts are numbered from zero.
#[derive(Debug)]
pub enum ColoringError {
    /// The color is missing.
    NeedsColor,
    /// The angle is missing.
    NeedsDegrees,
    /// This part is no number of degrees.
    InvalidDegrees(usize),
    /// This part is no number.
    InvalidAlpha(usize),
    /// This number is not between zero and one.
    AlphaOutOfRange(u32),
    /// This is no color.
    NoColor(String),
    /// A digit of the color is none.
    NoDigit,
    UnknownMode(String),
    UnknownKind(String),
}

/// The bits of the number four tenths.
pub const DEFAULT_ALPHA: u32 = 0x3ECC_CCCD;

/// Whether these are the bits of a number from zero to one.
pub open spec fn from_zero_to_one(bits: u32) -> bool {
    bits <= 0x3F80_0000 || bits == 0x8000_0000
}

/// The value of a hexadecimal digit.
pub open spec fn digit_of(b: u8) -> Option<u8> {
    if 48 <= b <= 57 {
        Some((b - 48) as u8)
    } else if 97 <= b <= 102 {
        Some((b - 87) as u8)
    } else if 65 <= b <= 70 {
        Some((b - 55) as u8)
    } else {
        None
    }
}

/// The number that two bytes stand for, with a plus sign or a digit in front.
pub open spec fn pair_of(a: u8, b: u8) -> Option<u8> {
    match (digit_of(a), digit_of(b)) {
        (Some(x), Some(y)) => Some((16 * x + y) as u8),
        (None, Some(y)) => if a == 43 {
            Some(y)
        } else {
            None
        },
        _ => None,
    }
}

fn hex_digit(b: u8) -> (r: Option<u8>)
    ensures
        r == digit_of(b),
        r matches Some(d) ==> d < 16,
{
    if 48 <= b && b <= 57 {
        Some(b - 48)
    } else if 97 <= b && b <= 102 {
        Some(b - 87)
    } else if 65 <= b && b <= 70 {
        Some(b - 55)
    } else {
        None
    }
}

fn hex_pair(a: u8, b: u8) -> (r: Option<u8>)
    ensures
        r == pair_of(a, b),
{
    match (hex_digit(a), hex_digit(b)) {
        (Some(x), Some(y)) => Some(16 * x + y),
        (None, Some(y)) => {
            if a == 43 {
                Some(y)
            } else {
                None
            }
        },
        _ => None,
    }
}

/// The bytes of a color without the sign in front.
pub open spec fn color_digits(s: Seq<char>) -> Seq<u8> {
    let bytes = encode_utf8(s);
    if bytes.len() > 0 && bytes[0] == 35 {
        bytes.skip(1)
    } else {
        bytes
    }
}

/// Whether this is what a text gives as a color: six hexadecimal digits, two
/// for each part, with or without the sign in front.
pub open spec fn is_color(s: Seq<char>, r: Result<[u8; 3], ColoringError>) -> bool {
    let d = color_digits(s);
    if d.len() != 6 {
        r matches Err(ColoringError::NoColor(t)) && t@ == s
    } else {
        match (pair_of(d[0], d[1]), pair_of(d[2], d[3]), pair_of(d[4], d[5])) {
            (Some(red), Some(green), Some(blue)) => r matches Ok(c) && c@ == seq![red, green, blue],
            _ => r matches Err(ColoringError::NoDigit),
        }
    }
}

/// The color that a text stands for.
pub fn parse_hex_color(s: &str) -> (r: Result<[u8; 3], ColoringError>)
    ensures
        is_color(s@, r),
{
    let bytes = s.as_bytes();
    let from: usize = if bytes.len() > 0 && bytes[0] == 35 {
        1
    } else {
        0
    };
    let ghost d = color_digits(s@);
    assert(d =~= bytes@.skip(from as int));
    if bytes.len() - from != 6 {
        return Err(ColoringError::NoColor(text::owned(s)));
    }
    assert(d[0] == bytes@[from as int] && d[1] == bytes@[from + 1] && d[2] == bytes@[from + 2]
        && d[3] == bytes@[from + 3] && d[4] == bytes@[from + 4] && d[5] == bytes@[from + 5]);
    match (
        hex_pair(bytes[from], bytes[from + 1]),
        hex_pair(bytes[from + 2], bytes[from + 3]),
        hex_pair(bytes[from + 4], bytes[from + 5]),
    ) {
        (Some(red), Some(green), Some(blue)) => {
            let c = [red, green, blue];
            assert(c@ =~= seq![red, green, blue]);
            Ok(c)
        },
        _ => Err(ColoringError::NoDigit),
    }
}

/// Whether this is what a text gives as a blend mode.
pub open spec fn is_mode(s: Seq<char>, r: Result<BlendMode, ColoringError>) -> bool {
    if s == "alpha"@ {
        r matches Ok(BlendMode::Alpha)
    } else if s == "multiply"@ {
        r matches Ok(BlendMode::Multiply)
    } else {
        r matches Err(ColoringError::UnknownMode(t)) && t@ == s
    }
}

/// The blend mode that a text stands for.
pub fn parse_blend_mode(s: &str) -> (r: Result<BlendMode, ColoringError>)
    ensures
        is_mode(s@, r),
{
    proof {
        reveal_strlit("alpha");
        reveal_strlit("multiply");
    }
    if text::same_text(s, "alpha") {
        Ok(BlendMode::Alpha)
    } else if text::same_text(s, "multiply") {
        Ok(BlendMode::Multiply)
    } else {
        Err(ColoringError::UnknownMode(text::owned(s)))
    }
}

/// What part `i` gives as a strength: the default if there is no such part.
/// `numbers` holds each part as a number, by its bits.
pub open spec fn alpha_at(numbers: Seq<Option<u32>>, i: int) -> Result<u32, ColoringError> {
    if i >= numbers.len() {
        Ok(DEFAULT_ALPHA)
    } else {
        match numbers[i] {
            None => Err(ColoringError::InvalidAlpha(i as usize)),
            Some(bits) => if from_zero_to_one(bits) {
                Ok(bits)
            } else {
                Err(ColoringError::AlphaOutOfRange(bits))
            },
        }
    }
}

fn parse_alpha(numbers: &Vec<Option<u32>>, i: usize) -> (r: Result<u32, ColoringError>)
    ensures
        r == alpha_at(numbers@, i as int),
{
    if i >= numbers.len() {
        Ok(DEFAULT_ALPHA)
    } else {
        match numbers[i] {
            None => Err(ColoringError::InvalidAlpha(i)),
            Some(bits) => {
                if bits <= 0x3F80_0000 || bits == 0x8000_0000 {
                    Ok(bits)
                } else {
                    Err(ColoringError::AlphaOutOfRange(bits))
                }
            },
        }
    }
}

/// Whether this is the strength and blend mode that the parts from `i` on
/// give, or what is wrong with the first of them that cannot be read.
pub open spec fn is_alpha_and_mode(
    parts: Seq<Seq<char>>,
    numbers: Seq<Option<u32>>,
    i: int,
    r: Result<(u32, BlendMode), ColoringError>,
) -> bool {
    match alpha_at(numbers, i) {
        Err(e) => r == Err::<(u32, BlendMode), ColoringError>(e),
        Ok(alpha) => if i + 1 >= parts.len() {
            r == Ok::<(u32, BlendMode), ColoringError>((alpha, BlendMode::Alpha))
        } else {
            match r {
                Ok(am) => am.0 == alpha && is_mode(parts[i + 1], Ok(am.1)),
                Err(e) => is_mode(parts[i + 1], Err(e)),
            }
        },
    }
}

fn alpha_and_mode(parts: &Vec<Vec<char>>, numbers: &Vec<Option<u32>>, i: usize) -> (r: Result<
    (u32, BlendMode),
    ColoringError,
>)
    requires
        i <= parts@.len(),
    ensures
        is_alpha_and_mode(text::parts_view(parts@), numbers@, i as int, r),
{
    let alpha = match parse_alpha(numbers, i) {
        Ok(a) => a,
        Err(e) => {
            return Err(e);
        },
    };
    if i == parts.len() || i + 1 == parts.len() {
        return Ok((alpha, BlendMode::Alpha));
    }
    let t = text::from_chars(&parts[i + 1]);
    assert(text::parts_view(parts@)[i + 1] == t@);
    match parse_blend_mode(t.as_str()) {
        Ok(m) => Ok((alpha, m)),
        Err(e) => Err(e),
    }
}

/// Whether this is the coloring that the parts of a text ask for.
pub open spec fn is_coloring(
    parts: Seq<Seq<char>>,
    numbers: Seq<Option<u32>>,
    r: Result<OverlayColoring, ColoringError>,
) -> bool {
    if parts[0] == "four-colors"@ {
        match r {
            Ok(OverlayColoring::FourColors { alpha, mode }) => is_alpha_and_mode(
                parts,
                numbers,
                1,
                Ok((alpha, mode)),
            ),
            Err(e) => is_alpha_and_mode(parts, numbers, 1, Err(e)),
            _ => false,
        }
    } else if parts[0] == "boolean"@ {
        if parts.len() < 2 {
            r matches Err(ColoringError::NeedsColor)
        } else {
            match r {
                Ok(OverlayColoring::Boolean { color, alpha, mode }) => is_color(
                    parts[1],
                    Ok(color),
                ) && is_alpha_and_mode(parts, numbers, 2, Ok((alpha, mode))),
                Err(e) => is_color(parts[1], Err(e)) || (exists|c: [u8; 3]|
                    is_color(parts[1], Ok(c))) && is_alpha_and_mode(parts, numbers, 2, Err(e)),
                _ => false,
            }
        }
    } else if parts[0] == "hue"@ {
        if parts.len() < 2 {
            r matches Err(ColoringError::NeedsDegrees)
        } else {
            match numbers[1] {
                None => r matches Err(ColoringError::InvalidDegrees(i)) && i == 1,
                Some(bits) => match r {
                    Ok(OverlayColoring::Hue { hue_deg, alpha, mode }) => hue_deg == bits
                        && is_alpha_and_mode(parts, numbers, 2, Ok((alpha, mode))),
                    Err(e) => is_alpha_and_mode(parts, numbers, 2, Err(e)),
                    _ => false,
                },
            }
        }
    } else {
        r matches Err(ColoringError::UnknownKind(t)) && t@ == parts[0]
    }
}

/// The coloring that a text asks for: a kind, what the kind needs, a strength
/// and a blend mode, parted by colons. `numbers` holds each part as a
/// single-precision number, by its bits, where it is one.
pub fn parse_overlay_coloring(s: &str, numbers: &Vec<Option<u32>>) -> (r: Result<
    OverlayColoring,
    ColoringError,
>)
    requires
        numbers@.len() == text::split(s@, ':').len(),
    ensures
        is_coloring(text::split(s@, ':'), numbers@, r),
{
    proof {
        reveal_strlit("four-colors");
        reveal_strlit("boolean");
        reveal_strlit("hue");
    }
    let chars = text::to_chars(s);
    let parts = text::split_at_char(&chars, ':');
    let ghost views = text::parts_view(parts@);
    assert(views.len() == parts@.len());
    let kind = text::from_chars(&parts[0]);
    assert(views[0] == kind@);
    if text::same_text(kind.as_str(), "four-colors") {
        match alpha_and_mode(&parts, numbers, 1) {
            Ok((alpha, mode)) => Ok(OverlayColoring::FourColors { alpha, mode }),
            Err(e) => Err(e),
        }
    } else if text::same_text(kind.as_str(), "boolean") {
        if parts.len() < 2 {
            return Err(ColoringError::NeedsColor);
        }
        let t = text::from_chars(&parts[1]);
        assert(views[1] == t@);
        let color = match parse_hex_color(t.as_str()) {
            Ok(c) => c,
            Err(e) => {
                return Err(e);
            },
        };
        match alpha_and_mode(&parts, numbers, 2) {
            Ok((alpha, mode)) => Ok(OverlayColoring::Boolean { color, alpha, mode }),
            Err(e) => Err(e),
        }
    } else if text::same_text(kind.as_str(), "hue") {
        if parts.len() < 2 {
            return Err(ColoringError::NeedsDegrees);
        }
        let hue_deg = match numbers[1] {
            Some(bits) => bits,
            None => {
                return Err(ColoringError::InvalidDegrees(1));
            },
        };
        match alpha_and_mode(&parts, numbers, 2) {
            Ok((alpha, mode)) => Ok(OverlayColoring::Hue { hue_deg, alpha, mode }),
            Err(e) => Err(e),
        }
    } else {
        Err(ColoringError::UnknownKind(kind))
    }
}

impl ColoringError {
    /// The error in words; none where the words hold a number with a fraction.
    pub open spec fn words(&self) -> Option<Seq<char>> {
        match *self {
            ColoringError::NeedsColor => Some("boolean: needs #RRGGBB color"@),
            ColoringError::NeedsDegrees => Some("hue: needs DEG"@),
            ColoringError::InvalidDegrees(_) => None,
            ColoringError::InvalidAlpha(_) => None,
            ColoringError::AlphaOutOfRange(_) => None,
            ColoringError::NoColor(t) => Some("expected #RRGGBB, got `"@ + t@ + "`"@),
            ColoringError::NoDigit => Some("invalid digit found in string"@),
            ColoringError::UnknownMode(t) => Some(
                "unknown blend mode `"@ + t@ + "` (expected alpha / multiply)"@,
            ),
            ColoringError::UnknownKind(t) => Some(
                "unknown overlay coloring `"@ + t@
                    + "` (expected four-colors / boolean / hue)"@,
            ),
        }
    }

    /// The error in words; none where the words hold a number with a fraction.
    pub fn text(&self) -> (r: Option<String>)
        ensures
            match self.words() {
                Some(w) => r matches Some(s) && s@ == w,
                None => r is None,
            },
    {
        match self {
            ColoringError::NeedsColor => Some(text::owned("boolean: needs #RRGGBB color")),
            ColoringError::NeedsDegrees => Some(text::owned("hue: needs DEG")),
            ColoringError::InvalidDegrees(_) => None,
            ColoringError::InvalidAlpha(_) => None,
            ColoringError::AlphaOutOfRange(_) => None,
            ColoringError::NoColor(t) => Some(between("expected #RRGGBB, got `", t.as_str(), "`")),
            ColoringError::NoDigit => Some(text::owned("invalid digit found in string")),
            ColoringError::UnknownMode(t) => Some(
                between("unknown blend mode `", t.as_str(), "` (expected alpha / multiply)"),
            ),
            ColoringError::UnknownKind(t) => Some(
                between(
                    "unknown overlay coloring `",
                    t.as_str(),
                    "` (expected four-colors / boolean / hue)",
                ),
            ),
        }
    }
}

fn between(a: &str, b: &str, c: &str) -> (s: String)
    ensures
        s@ == a@ + b@ + c@,
{
    let mut out = text::to_chars(a);
    text::push_text(&mut out, b);
    text::push_text(&mut out, c);
    text::from_chars(&out)
}

/// The arguments.
#[derive(Debug)]
pub struct Args {
    pub data_directory: Option<String>,
    pub obj: Option<String>,
    pub tifxyz: Option<String>,
    pub width: Option<usize>,
    pub height: Option<usize>,
    pub transform: Option<String>,
    pub ortho_xz: bool,
    pub invert_transform: bool,
    pub overlay: Option<String>,
    pub overlay_coloring: Option<OverlayColoring>,
    /// Given without a value, it asks for a list of the volumes.
    pub volume: Option<Option<String>>,
    pub atlas: Option<String>,
}

/// A volume with its id and label.
#[derive(Debug)]
pub struct KnownVolume {
    pub id: String,
    pub label: String,
}

/// The first `n` volumes, one to a line.
pub open spec fn volume_lines(known: Seq<KnownVolume>, n: int) -> Seq<char>
    decreases n,
{
    if n <= 0 {
        Seq::empty()
    } else {
        let line = known[n - 1].id@ + " -> "@ + known[n - 1].label@;
        if n == 1 {
            line
        } else {
            volume_lines(known, n - 1) + "\n"@ + line
        }
    }
}

fn push_volume_lines(out: &mut Vec<char>, known: &Vec<KnownVolume>)
    ensures
        final(out)@ == old(out)@ + volume_lines(known@, known@.len() as int),
{
    let ghost before = out@;
    assert(before + Seq::<char>::empty() =~= before);
    let mut i: usize = 0;
    while i < known.len()
        invariant
            i <= known@.len(),
            out@ == before + volume_lines(known@, i as int),
        decreases known.len() - i,
    {
        let ghost so_far = volume_lines(known@, i as int);
        let ghost line = known@[i as int].id@ + " -> "@ + known@[i as int].label@;
        if i > 0 {
            text::push_text(out, "\n");
        }
        text::push_text(out, known[i].id.as_str());
        text::push_text(out, " -> ");
        text::push_text(out, known[i].label.as_str());
        assert(out@ =~= before + (if i == 0 {
            line
        } else {
            so_far + "\n"@ + line
        }));
        i = i + 1;
    }
}

/// Which volume to open.
#[derive(Debug)]
pub enum VolumeChoice {
    /// The arrays at a URL.
    Url(String),
    /// The arrays in a directory.
    Path(String),
    /// A known volume, by its place in the list.
    Known(usize),
}

/// Where a volume with this id first stands, from place `i` on.
pub open spec fn known_at(known: Seq<KnownVolume>, id: Seq<char>, i: int) -> Option<int>
    decreases known.len() - i,
{
    if i < 0 || i >= known.len() {
        None
    } else if known[i].id@ == id {
        Some(i)
    } else {
        known_at(known, id, i + 1)
    }
}

/// What is said of a volume that is not known.
pub open spec fn not_found(volume: Seq<char>, known: Seq<KnownVolume>) -> Seq<char> {
    "Error: Volume "@ + volume + " not found. Use one of:\n"@ + volume_lines(
        known,
        known.len() as int,
    )
        + "\n\nOr provide:\n- HTTP URL to zarr/ome-zarr volume\n- Local filesystem path to zarr/ome-zarr directory"@
}

/// Whether this is the volume that the arguments ask for: a URL goes before a
/// path that exists, and that before the id of a known volume.
pub open spec fn is_choice(
    volume: Option<Option<String>>,
    known: Seq<KnownVolume>,
    path_exists: bool,
    r: Result<Option<VolumeChoice>, String>,
) -> bool {
    match volume {
        None => r matches Ok(None),
        Some(None) => r matches Err(e) && e@ == "Volumes:\n"@ + volume_lines(
            known,
            known.len() as int,
        ),
        Some(Some(v)) => if text::occurs_at(v@, "http"@, 0) {
            r matches Ok(Some(VolumeChoice::Url(u))) && u@ == v@
        } else if path_exists {
            r matches Ok(Some(VolumeChoice::Path(u))) && u@ == v@
        } else {
            match known_at(known, v@, 0) {
                Some(i) => r matches Ok(Some(VolumeChoice::Known(k))) && k == i,
                None => r matches Err(e) && e@ == not_found(v@, known),
            }
        },
    }
}

/// A mesh to show.
#[derive(Debug)]
pub struct ObjFileConfig {
    pub obj_file: String,
    pub width: usize,
    pub height: usize,
    /// The number of the map to apply.
    pub transform: Option<u64>,
    /// Whether the texture is projected along the second axis.
    pub ortho_xz: bool,
}

/// What the viewer shows. Volumes and maps are known by their numbers.
#[derive(Debug)]
pub struct VesuviusConfig {
    pub data_dir: Option<String>,
    pub obj_file: Option<ObjFileConfig>,
    pub tifxyz_dir: Option<(String, Option<u64>)>,
    pub overlay_dir: Option<String>,
    pub overlay_coloring: Option<OverlayColoring>,
    pub volume: Option<u64>,
}

/// Whether this is what the viewer shows, for a volume and a map that were
/// opened or could not be.
pub open spec fn is_config(
    args: Args,
    volume: Result<Option<u64>, String>,
    transform: Result<Option<u64>, String>,
    r: Result<VesuviusConfig, String>,
) -> bool {
    match (volume, transform) {
        (Err(e), _) => r == Err::<VesuviusConfig, String>(e),
        (Ok(_), Err(e)) => r == Err::<VesuviusConfig, String>(e),
        (Ok(v), Ok(t)) => if args.obj is Some && !(args.width is Some && args.height is Some) {
            r matches Err(e) && e@
                == "Error: You need to provide --width and --height when using --obj"@
        } else {
            r matches Ok(c) && {
                &&& c.data_dir == args.data_directory
                &&& c.overlay_dir == args.overlay
                &&& c.overlay_coloring == args.overlay_coloring
                &&& c.volume == v
                &&& c.obj_file == (match args.obj {
                    Some(obj_file) => Some(
                        ObjFileConfig {
                            obj_file,
                            width: args.width->0,
                            height: args.height->0,
                            transform: t,
                            ortho_xz: args.ortho_xz,
                        },
                    ),
                    None => None,
                })
                &&& c.tifxyz_dir == (match args.tifxyz {
                    Some(dir) => Some((dir, t)),
                    None => None,
                })
            }
        },
    }
}

impl Args {
    /// Which volume to open. `path_exists` says whether the argument is a path
    /// that exists.
    pub fn volume_choice(&self, known: &Vec<KnownVolume>, path_exists: bool) -> (r: Result<
        Option<VolumeChoice>,
        String,
    >)
        ensures
            is_choice(self.volume, known@, path_exists, r),
    {
        let v = match &self.volume {
            None => {
                return Ok(None);
            },
            Some(None) => {
                let mut out = text::to_chars("Volumes:\n");
                push_volume_lines(&mut out, known);
                return Err(text::from_chars(&out));
            },
            Some(Some(v)) => v,
        };
        let chars = text::to_chars(v.as_str());
        let http = text::to_chars("http");
        if text::starts_with(&chars, &http) {
            return Ok(Some(VolumeChoice::Url(text::owned(v.as_str()))));
        }
        if path_exists {
            return Ok(Some(VolumeChoice::Path(text::owned(v.as_str()))));
        }
        let mut i: usize = 0;
        while i < known.len()
            invariant
                i <= known@.len(),
                self.volume matches Some(Some(w)) && w == *v,
                !path_exists,
                !text::occurs_at(v@, "http"@, 0),
                known_at(known@, v@, 0) == known_at(known@, v@, i as int),
            decreases known.len() - i,
        {
            if text::same_text(known[i].id.as_str(), v.as_str()) {
                return Ok(Some(VolumeChoice::Known(i)));
            }
            i = i + 1;
        }
        let mut out = text::to_chars("Error: Volume ");
        text::push_text(&mut out, v.as_str());
        text::push_text(&mut out, " not found. Use one of:\n");
        push_volume_lines(&mut out, known);
        text::push_text(
            &mut out,
            "\n\nOr provide:\n- HTTP URL to zarr/ome-zarr volume\n- Local filesystem path to zarr/ome-zarr directory",
        );
        assert(out@ =~= not_found(v@, known@));
        Err(text::from_chars(&out))
    }

    /// What the viewer shows. `volume` and `transform` say what became of the
    /// volume and the map that were asked for.
    pub fn into_config(
        self,
        volume: Result<Option<u64>, String>,
        transform: Result<Option<u64>, String>,
    ) -> (r: Result<VesuviusConfig, String>)
        ensures
            is_config(self, volume, transform, r),
    {
        let volume = match volume {
            Ok(v) => v,
            Err(e) => {
                return Err(e);
            },
        };
        let transform = match transform {
            Ok(t) => t,
            Err(e) => {
                return Err(e);
            },
        };
        let obj_file = match self.obj {
            Some(obj_file) => match (self.width, self.height) {
                (Some(width), Some(height)) => Some(
                    ObjFileConfig { obj_file, width, height, transform, ortho_xz: self.ortho_xz },
                ),
                _ => {
                    return Err(
                        text::owned(
                            "Error: You need to provide --width and --height when using --obj",
                        ),
                    );
                },
            },
            None => None,
        };
        let tifxyz_dir = match self.tifxyz {
            Some(dir) => Some((dir, transform)),
            None => None,
        };
        Ok(
            VesuviusConfig {
                data_dir: self.data_directory,
                obj_file,
                tifxyz_dir,
                overlay_dir: self.overlay,
                overlay_coloring: self.overlay_coloring,
                volume,
            },
        )
    }
}

/// The byte of a hexadecimal digit, in small or in capital letters.
pub open spec fn digit_byte(d: int, capital: bool) -> u8 {
    if d < 10 {
        (48 + d) as u8
    } else if capital {
        (65 + d - 10) as u8
    } else {
        (97 + d - 10) as u8
    }
}

/// A color's digits are those of red, green and blue, in that order, each with
/// its higher digit first, in small or in capital letters.
pub proof fn law_color_is_red_green_blue(s: Seq<char>, color: [u8; 3], c: [u8; 3], capital: bool)
    requires
        color_digits(s).len() == 6,
        forall|k: int|
            0 <= k < 3 ==> color_digits(s)[2 * k] == digit_byte(#[trigger] color@[k] as int / 16, capital)
                && color_digits(s)[2 * k + 1] == digit_byte(color@[k] as int % 16, capital),
    ensures
        is_color(s, Ok(c)) <==> c@ == color@,
{
    let d = color_digits(s);
    assert forall|k: int| 0 <= k < 3 implies pair_of(d[2 * k], d[2 * k + 1]) == Some(
        #[trigger] color@[k],
    ) by {
        let b = color@[k] as int;
        assert(digit_of(digit_byte(b / 16, capital)) == Some((b / 16) as u8));
        assert(digit_of(digit_byte(b % 16, capital)) == Some((b % 16) as u8));
        assert(16 * (b / 16) + b % 16 == b);
    }
    let (red, green, blue) = (color@[0], color@[1], color@[2]);
    assert(pair_of(d[0], d[1]) == Some(red));
    assert(pair_of(d[2], d[3]) == Some(green));
    assert(pair_of(d[4], d[5]) == Some(blue));
    assert(seq![red, green, blue] =~= color@);
}

/// The first volume with an id is the one that is meant.
pub proof fn law_first_known_volume_is_meant(known: Seq<KnownVolume>, id: Seq<char>, from: int, i: int)
    requires
        0 <= from <= i < known.len(),
        known[i].id@ == id,
        forall|k: int| from <= k < i ==> (#[trigger] known[k]).id@ != id,
    ensures
        known_at(known, id, from) == Some(i),
    decreases i - from,
{
    if from < i {
        assert(known[from].id@ != id);
        law_first_known_volume_is_meant(known, id, from + 1, i);
    }
}

/// What begins as a URL is taken for one, whatever else there is of the name; an
/// existing path goes before a volume of that name; and only what is none of
/// these is an error.
pub proof fn law_url_goes_before_path_before_name(
    name: String,
    known: Seq<KnownVolume>,
    path_exists: bool,
    r: Result<Option<VolumeChoice>, String>,
)
    requires
        is_choice(Some(Some(name)), known, path_exists, r),
    ensures
        ({
            let url = name@.len() >= 4 && name@[0] == 'h' && name@[1] == 't' && name@[2] == 't' && name@[3] == 'p';
            &&& url <==> (r matches Ok(Some(VolumeChoice::Url(_))))
            &&& !url && path_exists <==> (r matches Ok(Some(VolumeChoice::Path(_))))
            &&& r is Err <==> !url && !path_exists && forall|i: int|
                0 <= i < known.len() ==> (#[trigger] known[i]).id@ != name@
            &&& r matches Ok(Some(VolumeChoice::Known(k))) ==> k < known.len() && known[k as int].id@ == name@
        }),
{
    reveal_strlit("http");
    let v = name@;
    if v.len() >= 4 {
        assert(v.subrange(0, 4)[0] == v[0] && v.subrange(0, 4)[1] == v[1] && v.subrange(0, 4)[2] == v[2]
            && v.subrange(0, 4)[3] == v[3]);
        if v[0] == 'h' && v[1] == 't' && v[2] == 't' && v[3] == 'p' {
            assert(v.subrange(0, 4) =~= "http"@);
        }
    }
    lemma_known_at(known, v, 0);
}

proof fn lemma_known_at(known: Seq<KnownVolume>, id: Seq<char>, from: int)
    requires
        0 <= from,
    ensures
        match known_at(known, id, from) {
            Some(i) => from <= i < known.len() && known[i].id@ == id,
            None => forall|i: int| from <= i < known.len() ==> (#[trigger] known[i]).id@ != id,
        },
    decreases known.len() - from,
{
    if from < known.len() && known[from].id@ != id {
        lemma_known_at(known, id, from + 1);
    }
}

} // verus!
