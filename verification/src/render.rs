//! Rendering a segment layer by layer: options, the grid of tiles, the chunks
//! that a tile needs, and putting tiles together.
use crate::chunk::{ChunkKey, ChunkState};
use crate::ome_zarr;
use crate::paint;
use crate::paint::{Image, Rect};
use crate::text;
use regex::Regex;
use vstd::prelude::*;

verus! {

/// A part of a segment.
#[derive(Debug, Clone, Copy, PartialEq, Eq, Structural)]
pub struct Crop {
    pub top: usize,
    pub left: usize,
    pub width: usize,
    pub height: usize,
}

/// Why a crop could not be read.
#[derive(Debug, Clone, Copy, PartialEq, Eq, Structural)]
pub enum CropError {
    /// The text holds no `<left>+<top>-<width>x<height>`.
    Unmatched,
    /// One of the numbers is not one that the machine can hold.
    Unrepresentable,
}

/// What a crop looks like: four runs of digits.
pub const CROP_PATTERN: &'static str = "(\\d+)\\+(\\d+)-(\\d+)x(\\d+)";

/// What the groups of a pattern's first match in a text are; none if there is
/// no match or the pattern is not one.
pub uninterp spec fn regex_groups(pattern: Seq<char>, haystack: Seq<char>) -> Option<Seq<Seq<char>>>;

/// Text by text, the views.
pub open spec fn views(v: Seq<String>) -> Seq<Seq<char>> {
    v.map_values(|s: String| s@)
}

/// Whether these are the groups.
pub open spec fn are_groups(r: Option<Vec<String>>, groups: Option<Seq<Seq<char>>>) -> bool {
    match (r, groups) {
        (Some(v), Some(g)) => views(v@) == g,
        (None, None) => true,
        _ => false,
    }
}

/// `regex::Regex::captures` finds the first match of a pattern. Handed out are
/// its groups in order, the whole match first; one that takes no part in the
/// match is empty.
#[verifier::external_body]
fn first_match(pattern: &str, haystack: &str) -> (r: Option<Vec<String>>)
    ensures
        are_groups(r, regex_groups(pattern@, haystack@)),
{
    let re = Regex::new(pattern).ok()?;
    let captures = re.captures(haystack)?;
    Some(captures.iter().map(|m| m.map_or(String::new(), |m| m.as_str().to_string())).collect())
}

/// A group as a number; none if there is no such group or it is not one.
pub open spec fn group_number(groups: Seq<Seq<char>>, i: int) -> Option<nat> {
    if i < groups.len() {
        text::parsed_unsigned(groups[i], usize::MAX as nat)
    } else {
        None
    }
}

/// The crop that the groups of a match stand for.
pub open spec fn crop_from(groups: Seq<Seq<char>>) -> Result<Crop, CropError> {
    match (
        group_number(groups, 1),
        group_number(groups, 2),
        group_number(groups, 3),
        group_number(groups, 4),
    ) {
        (Some(left), Some(top), Some(width), Some(height)) => Ok(
            Crop {
                top: top as usize,
                left: left as usize,
                width: width as usize,
                height: height as usize,
            },
        ),
        _ => Err(CropError::Unrepresentable),
    }
}

fn number_of(groups: &Vec<String>, i: usize) -> (r: Option<usize>)
    ensures
        match group_number(views(groups@), i as int) {
            Some(n) => r == Some(n as usize) && n <= usize::MAX,
            None => r is None,
        },
{
    if i >= groups.len() {
        return None;
    }
    let digits = text::to_chars(groups[i].as_str());
    assert(views(groups@)[i as int] == groups@[i as int]@);
    match text::parse_unsigned(&digits, usize::MAX as u64) {
        Some(n) => Some(n as usize),
        None => None,
    }
}

/// The crop that the groups of a match stand for: left, top, width and height
/// in the first four.
pub fn crop_of_groups(groups: &Vec<String>) -> (r: Result<Crop, CropError>)
    ensures
        r == crop_from(views(groups@)),
{
    let left = number_of(groups, 1);
    let top = number_of(groups, 2);
    let width = number_of(groups, 3);
    let height = number_of(groups, 4);
    match (left, top, width, height) {
        (Some(left), Some(top), Some(width), Some(height)) => Ok(Crop { top, left, width, height }),
        _ => Err(CropError::Unrepresentable),
    }
}

/// Reads a crop, `<left>+<top>-<width>x<height>`, wherever it stands in a text.
pub fn parse_crop(value: &str) -> (r: Result<Crop, CropError>)
    ensures
        r == (match regex_groups(CROP_PATTERN@, value@) {
            Some(groups) => crop_from(groups),
            None => Err(CropError::Unmatched),
        }),
{
    match first_match(CROP_PATTERN, value) {
        Some(groups) => crop_of_groups(&groups),
        None => Err(CropError::Unmatched),
    }
}

/// How the samples along the surface's normal are put together.
#[derive(Debug, Clone, Copy, PartialEq, Eq, Structural)]
pub enum CompositingMode {
    /// One sample for each layer.
    Single,
    Max,
    Alpha,
    AlphaHeightMap,
    AlphaOverlay,
    AlphaOverlayStart,
    AlphaOverlayCombined,
}

/// The compositing mode asked for.
#[derive(Debug, Clone, Copy, PartialEq, Eq, Structural)]
pub enum CompositeModeArg {
    /// One sample for each layer.
    Single,
    Max,
    Alpha,
    AlphaHeightMap,
    AlphaOverlay,
    AlphaOverlayStart,
    AlphaOverlayCombined,
}

impl CompositeModeArg {
    /// The mode of the same name.
    pub open spec fn means(self) -> CompositingMode {
        match self {
            CompositeModeArg::Single => CompositingMode::Single,
            CompositeModeArg::Max => CompositingMode::Max,
            CompositeModeArg::Alpha => CompositingMode::Alpha,
            CompositeModeArg::AlphaHeightMap => CompositingMode::AlphaHeightMap,
            CompositeModeArg::AlphaOverlay => CompositingMode::AlphaOverlay,
            CompositeModeArg::AlphaOverlayStart => CompositingMode::AlphaOverlayStart,
            CompositeModeArg::AlphaOverlayCombined => CompositingMode::AlphaOverlayCombined,
        }
    }

    /// The mode of the same name.
    pub fn mode(self) -> (m: CompositingMode)
        ensures
            m == self.means(),
    {
        match self {
            CompositeModeArg::Single => CompositingMode::Single,
            CompositeModeArg::Max => CompositingMode::Max,
            CompositeModeArg::Alpha => CompositingMode::Alpha,
            CompositeModeArg::AlphaHeightMap => CompositingMode::AlphaHeightMap,
            CompositeModeArg::AlphaOverlay => CompositingMode::AlphaOverlay,
            CompositeModeArg::AlphaOverlayStart => CompositingMode::AlphaOverlayStart,
            CompositeModeArg::AlphaOverlayCombined => CompositingMode::AlphaOverlayCombined,
        }
    }
}

impl CompositingMode {
    /// Whether the mode takes its opacity from an overlay.
    pub open spec fn needs_overlay(self) -> bool {
        self is AlphaOverlay || self is AlphaOverlayStart || self is AlphaOverlayCombined
    }

    /// The mode's name.
    pub open spec fn word(self) -> Seq<char> {
        match self {
            CompositingMode::Single => "None"@,
            CompositingMode::Max => "Max"@,
            CompositingMode::Alpha => "Alpha"@,
            CompositingMode::AlphaHeightMap => "AlphaHeightMap"@,
            CompositingMode::AlphaOverlay => "AlphaOverlay"@,
            CompositingMode::AlphaOverlayStart => "AlphaOverlayStart"@,
            CompositingMode::AlphaOverlayCombined => "AlphaOverlayCombined"@,
        }
    }

    /// The mode's name.
    pub fn name(self) -> (s: &'static str)
        ensures
            s@ == self.word(),
    {
        match self {
            CompositingMode::Single => "None",
            CompositingMode::Max => "Max",
            CompositingMode::Alpha => "Alpha",
            CompositingMode::AlphaHeightMap => "AlphaHeightMap",
            CompositingMode::AlphaOverlay => "AlphaOverlay",
            CompositingMode::AlphaOverlayStart => "AlphaOverlayStart",
            CompositingMode::AlphaOverlayCombined => "AlphaOverlayCombined",
        }
    }
}

/// How samples are put together.
#[derive(Debug, Clone, Copy, PartialEq, Eq, Structural)]
pub struct CompositingSettings {
    pub mode: CompositingMode,
    pub layers_in_front: u8,
    pub layers_behind: u8,
    pub alpha_min: u8,
    pub alpha_max: u8,
    pub alpha_threshold: u16,
    pub opacity: u16,
    pub overlay_background: u8,
    pub overlay_value_norm: u8,
    pub reverse_direction: bool,
}

/// The compositing options of a run.
#[derive(Debug, Clone, Copy)]
pub struct AlphaArgs {
    pub composite_mode: Option<CompositeModeArg>,
    /// Stands for the mode `Alpha` where none is given.
    pub enable_alpha: bool,
    pub composite_layers_in_front: Option<u8>,
    pub composite_layers_behind: Option<u8>,
    pub alpha_min: Option<u8>,
    pub alpha_max: Option<u8>,
    pub alpha_threshold: Option<u16>,
    pub opacity: Option<u16>,
    pub overlay_background: Option<u8>,
    pub overlay_value_norm: Option<u8>,
    pub composite_reverse_direction: bool,
}

/// `given`, or else `default`.
pub open spec fn or_default<T>(given: Option<T>, default: T) -> T {
    match given {
        Some(v) => v,
        None => default,
    }
}

fn or_u8(given: Option<u8>, default: u8) -> (r: u8)
    ensures
        r == or_default(given, default),
{
    match given {
        Some(v) => v,
        None => default,
    }
}

fn or_u16(given: Option<u16>, default: u16) -> (r: u16)
    ensures
        r == or_default(given, default),
{
    match given {
        Some(v) => v,
        None => default,
    }
}

impl AlphaArgs {
    /// The mode asked for.
    pub open spec fn mode(&self) -> CompositingMode {
        match self.composite_mode {
            Some(m) => m.means(),
            None => if self.enable_alpha {
                CompositingMode::Alpha
            } else {
                CompositingMode::Single
            },
        }
    }

    /// The settings asked for: what is not given stays as in `defaults`, but
    /// for the mode and the direction.
    pub fn to_settings(&self, defaults: CompositingSettings) -> (s: CompositingSettings)
        ensures
            s == (CompositingSettings {
                mode: self.mode(),
                layers_in_front: or_default(
                    self.composite_layers_in_front,
                    defaults.layers_in_front,
                ),
                layers_behind: or_default(self.composite_layers_behind, defaults.layers_behind),
                alpha_min: or_default(self.alpha_min, defaults.alpha_min),
                alpha_max: or_default(self.alpha_max, defaults.alpha_max),
                alpha_threshold: or_default(self.alpha_threshold, defaults.alpha_threshold),
                opacity: or_default(self.opacity, defaults.opacity),
                overlay_background: or_default(
                    self.overlay_background,
                    defaults.overlay_background,
                ),
                overlay_value_norm: or_default(
                    self.overlay_value_norm,
                    defaults.overlay_value_norm,
                ),
                reverse_direction: self.composite_reverse_direction,
            }),
    {
        let mode = match self.composite_mode {
            Some(m) => m.mode(),
            None => {
                if self.enable_alpha {
                    CompositingMode::Alpha
                } else {
                    CompositingMode::Single
                }
            },
        };
        CompositingSettings {
            mode,
            layers_in_front: or_u8(self.composite_layers_in_front, defaults.layers_in_front),
            layers_behind: or_u8(self.composite_layers_behind, defaults.layers_behind),
            alpha_min: or_u8(self.alpha_min, defaults.alpha_min),
            alpha_max: or_u8(self.alpha_max, defaults.alpha_max),
            alpha_threshold: or_u16(self.alpha_threshold, defaults.alpha_threshold),
            opacity: or_u16(self.opacity, defaults.opacity),
            overlay_background: or_u8(self.overlay_background, defaults.overlay_background),
            overlay_value_norm: or_u8(self.overlay_value_norm, defaults.overlay_value_norm),
            reverse_direction: self.composite_reverse_direction,
        }
    }
}

/// The options of a run.
#[derive(Debug)]
pub struct Args {
    pub obj: Option<String>,
    pub tifxyz: Option<String>,
    pub width: Option<u32>,
    pub height: Option<u32>,
    pub transform: Option<String>,
    pub ortho_xz: bool,
    pub invert_transform: bool,
    pub scale_uv_by_transform: bool,
    pub target_dir: String,
    pub middle_layer: Option<u8>,
    pub min_layer: Option<u8>,
    pub max_layer: Option<u8>,
    pub crop: Option<Crop>,
    pub target_format: Option<String>,
    pub volume: Option<String>,
    pub overlay: Option<String>,
    pub data_directory: Option<String>,
    pub tile_size: Option<u32>,
    pub render_concurrency: Option<usize>,
    pub prefetch_depth: Option<usize>,
    pub cache_cap_gb: Option<u64>,
    pub worker_threads: Option<usize>,
    pub progress_interval: Option<u64>,
    pub alpha: AlphaArgs,
}

/// What is wrong with the options of a run.
#[derive(Debug, Clone, Copy, PartialEq, Eq, Structural)]
pub enum ArgsError {
    /// The mode takes its opacity from an overlay, and none is given.
    OverlayMissing(CompositingMode),
    /// A mesh comes without its size.
    SizeMissing,
    /// Neither a mesh nor a directory of grids is given.
    SegmentMissing,
    /// No volume is given.
    VolumeMissing,
}

impl ArgsError {
    /// The error in words.
    pub open spec fn words(self) -> Seq<char> {
        match self {
            ArgsError::OverlayMissing(m) => "compositing mode "@ + m.word()
                + " requires an overlay; pass --overlay <ome-zarr url or path>"@,
            ArgsError::SizeMissing => "--width and --height are required when using --obj"@,
            ArgsError::SegmentMissing => "one of --obj or --tifxyz is required"@,
            ArgsError::VolumeMissing => "--volume <ome-zarr url or local path> is required"@,
        }
    }

    /// The error in words.
    pub fn text(&self) -> (s: String)
        ensures
            s@ == self.words(),
    {
        match *self {
            ArgsError::OverlayMissing(m) => {
                let mut out = text::to_chars("compositing mode ");
                text::push_text(&mut out, m.name());
                text::push_text(
                    &mut out,
                    " requires an overlay; pass --overlay <ome-zarr url or path>",
                );
                text::from_chars(&out)
            },
            ArgsError::SizeMissing => text::owned(
                "--width and --height are required when using --obj",
            ),
            ArgsError::SegmentMissing => text::owned("one of --obj or --tifxyz is required"),
            ArgsError::VolumeMissing => text::owned("--volume <ome-zarr url or local path> is required"),
        }
    }
}

/// Where a segment is read from.
#[derive(Debug, Clone, Copy, PartialEq, Eq, Structural)]
pub enum SegmentSource {
    TifXyz,
    Obj { width: u32, height: u32 },
}

impl Args {
    /// The mesh, if one is given.
    pub fn obj_path(&self) -> (r: Option<&str>)
        ensures
            match self.obj {
                Some(s) => r matches Some(t) && t@ == s@,
                None => r is None,
            },
    {
        match &self.obj {
            Some(s) => Some(s.as_str()),
            None => None,
        }
    }

    /// The directory of grids, if one is given.
    pub fn tifxyz_path(&self) -> (r: Option<&str>)
        ensures
            match self.tifxyz {
                Some(s) => r matches Some(t) && t@ == s@,
                None => r is None,
            },
    {
        match &self.tifxyz {
            Some(s) => Some(s.as_str()),
            None => None,
        }
    }

    /// Whether the compositing mode has the overlay that it needs.
    pub fn check_overlay(&self) -> (r: Result<(), ArgsError>)
        ensures
            r == (if self.overlay is None && self.alpha.mode().needs_overlay() {
                Err(ArgsError::OverlayMissing(self.alpha.mode()))
            } else {
                Ok(())
            }),
    {
        let mode = match self.alpha.composite_mode {
            Some(m) => m.mode(),
            None => {
                if self.alpha.enable_alpha {
                    CompositingMode::Alpha
                } else {
                    CompositingMode::Single
                }
            },
        };
        let needs = match mode {
            CompositingMode::AlphaOverlay => true,
            CompositingMode::AlphaOverlayStart => true,
            CompositingMode::AlphaOverlayCombined => true,
            _ => false,
        };
        if needs && self.overlay.is_none() {
            Err(ArgsError::OverlayMissing(mode))
        } else {
            Ok(())
        }
    }

    /// Where the segment is read from: the directory of grids, or else the mesh,
    /// which needs its size.
    pub fn segment_source(&self) -> (r: Result<SegmentSource, ArgsError>)
        ensures
            r == (if self.tifxyz is Some {
                Ok(SegmentSource::TifXyz)
            } else if self.obj is None {
                Err(ArgsError::SegmentMissing)
            } else {
                match (self.width, self.height) {
                    (Some(width), Some(height)) => Ok(SegmentSource::Obj { width, height }),
                    _ => Err(ArgsError::SizeMissing),
                }
            }),
    {
        if self.tifxyz.is_some() {
            return Ok(SegmentSource::TifXyz);
        }
        if self.obj.is_none() {
            return Err(ArgsError::SegmentMissing);
        }
        match (self.width, self.height) {
            (Some(width), Some(height)) => Ok(SegmentSource::Obj { width, height }),
            _ => Err(ArgsError::SizeMissing),
        }
    }

    /// The volume, which must be given.
    pub fn volume_arg(&self) -> (r: Result<&str, ArgsError>)
        ensures
            match self.volume {
                Some(s) => r matches Ok(t) && t@ == s@,
                None => r matches Err(e) && e == ArgsError::VolumeMissing,
            },
    {
        match &self.volume {
            Some(s) => Ok(s.as_str()),
            None => Err(ArgsError::VolumeMissing),
        }
    }

    /// How many threads the run may block, `cpus` of which render where nothing
    /// else is said.
    pub fn blocking_threads(&self, cpus: usize) -> (n: usize)
        requires
            self.worker_threads is None ==> or_default(self.render_concurrency, cpus) + or_default(
                self.prefetch_depth,
                4,
            ) + 2 <= usize::MAX,
        ensures
            n == (match self.worker_threads {
                Some(w) => w as int,
                None => or_default(self.render_concurrency, cpus) + or_default(
                    self.prefetch_depth,
                    4,
                ) + 2,
            }),
    {
        let conc: usize = match self.render_concurrency {
            Some(c) => c,
            None => cpus,
        };
        let prefetch: usize = match self.prefetch_depth {
            Some(p) => p,
            None => 4,
        };
        match self.worker_threads {
            Some(w) => w,
            None => conc + prefetch + 2,
        }
    }

    /// How often to print a progress line, in seconds: as asked for, zero
    /// meaning never, and else every five where nobody watches a terminal.
    pub fn plain_progress(&self, terminal: bool) -> (r: Option<u64>)
        ensures
            r == (match self.progress_interval {
                Some(secs) => if secs == 0 {
                    None
                } else {
                    Some(secs)
                },
                None => if terminal {
                    None
                } else {
                    Some(5u64)
                },
            }),
    {
        match self.progress_interval {
            Some(secs) => {
                if secs == 0 {
                    None
                } else {
                    Some(secs)
                }
            },
            None => {
                if terminal {
                    None
                } else {
                    Some(5)
                }
            },
        }
    }
}

/// Whether a volume is given by URL rather than by path.
pub open spec fn is_url(s: Seq<char>) -> bool {
    text::occurs_at(s, "http://"@, 0) || text::occurs_at(s, "https://"@, 0)
}

/// Whether a volume is given by URL rather than by path.
pub fn given_by_url(volume: &str) -> (r: bool)
    ensures
        r == is_url(volume@),
{
    let v = text::to_chars(volume);
    let http = text::to_chars("http://");
    let https = text::to_chars("https://");
    text::starts_with(&v, &http) || text::starts_with(&v, &https)
}

/// Hours, minutes and seconds, two digits at least to each.
pub open spec fn clock(secs: nat) -> Seq<char> {
    text::padded(secs / 3600, 2) + ":"@ + text::padded((secs % 3600) / 60, 2) + ":"@ + text::padded(
        secs % 60,
        2,
    )
}

/// A time in hours, minutes and seconds.
pub fn format_elapsed(secs: u64) -> (s: String)
    ensures
        s@ == clock(secs as nat),
{
    let mut out: Vec<char> = Vec::new();
    text::push_padded(&mut out, secs / 3600, 2);
    text::push_text(&mut out, ":");
    text::push_padded(&mut out, (secs % 3600) / 60, 2);
    text::push_text(&mut out, ":");
    text::push_padded(&mut out, secs % 60, 2);
    assert(out@ =~= clock(secs as nat));
    text::from_chars(&out)
}

/// What to render and how.
#[derive(Debug)]
pub struct RenderParams {
    pub width: usize,
    pub height: usize,
    pub ortho_xz: bool,
    pub tile_size: usize,
    pub min_layer: usize,
    pub max_layer: usize,
    pub crop: Option<Crop>,
    pub mid_layer: usize,
    pub target_dir: String,
    pub target_format: String,
    pub compositing: CompositingSettings,
    pub render_concurrency: usize,
    pub prefetch_depth: usize,
}

fn or_usize(given: Option<usize>, default: usize) -> (r: usize)
    ensures
        r == or_default(given, default),
{
    match given {
        Some(v) => v,
        None => default,
    }
}

fn or_u32(given: Option<u32>, default: u32) -> (r: u32)
    ensures
        r == or_default(given, default),
{
    match given {
        Some(v) => v,
        None => default,
    }
}

impl RenderParams {
    /// What the options ask for. `defaults` are the compositing settings where
    /// none are given, `cpus` the number of tiles rendered at once.
    pub fn from_args(args: &Args, defaults: CompositingSettings, cpus: usize) -> (p: RenderParams)
        ensures
            p.width == or_default(args.width, 0),
            p.height == or_default(args.height, 0),
            p.ortho_xz == args.ortho_xz,
            p.tile_size == or_default(args.tile_size, 1024),
            p.min_layer == or_default(args.min_layer, 25),
            p.max_layer == or_default(args.max_layer, 41),
            p.crop == args.crop,
            p.mid_layer == or_default(args.middle_layer, 32),
            p.target_dir@ == args.target_dir@,
            p.target_format@ == (match args.target_format {
                Some(f) => f@,
                None => "png"@,
            }),
            p.compositing.mode == args.alpha.mode(),
            p.compositing.reverse_direction == args.alpha.composite_reverse_direction,
            p.compositing.layers_in_front == or_default(
                args.alpha.composite_layers_in_front,
                defaults.layers_in_front,
            ),
            p.compositing.layers_behind == or_default(
                args.alpha.composite_layers_behind,
                defaults.layers_behind,
            ),
            p.compositing.alpha_min == or_default(args.alpha.alpha_min, defaults.alpha_min),
            p.compositing.alpha_max == or_default(args.alpha.alpha_max, defaults.alpha_max),
            p.compositing.alpha_threshold == or_default(
                args.alpha.alpha_threshold,
                defaults.alpha_threshold,
            ),
            p.compositing.opacity == or_default(args.alpha.opacity, defaults.opacity),
            p.compositing.overlay_background == or_default(
                args.alpha.overlay_background,
                defaults.overlay_background,
            ),
            p.compositing.overlay_value_norm == or_default(
                args.alpha.overlay_value_norm,
                defaults.overlay_value_norm,
            ),
            p.render_concurrency == (if or_default(args.render_concurrency, cpus) < 1 {
                1
            } else {
                or_default(args.render_concurrency, cpus)
            }),
            p.prefetch_depth == or_default(args.prefetch_depth, 4),
    {
        let conc = or_usize(args.render_concurrency, cpus);
        let target_format = match &args.target_format {
            Some(f) => f.clone(),
            None => text::owned("png"),
        };
        RenderParams {
            width: or_u32(args.width, 0) as usize,
            height: or_u32(args.height, 0) as usize,
            ortho_xz: args.ortho_xz,
            tile_size: or_u32(args.tile_size, 1024) as usize,
            min_layer: or_u8(args.min_layer, 25) as usize,
            max_layer: or_u8(args.max_layer, 41) as usize,
            crop: args.crop,
            mid_layer: or_u8(args.middle_layer, 32) as usize,
            target_dir: args.target_dir.clone(),
            target_format,
            compositing: args.alpha.to_settings(defaults),
            render_concurrency: if conc < 1 { 1 } else { conc },
            prefetch_depth: or_usize(args.prefetch_depth, 4),
        }
    }

    /// The part that is rendered.
    pub open spec fn region(&self) -> Crop {
        match self.crop {
            Some(c) => c,
            None => Crop { top: 0, left: 0, width: self.width, height: self.height },
        }
    }

    /// The part that is rendered: the crop, or else the whole segment.
    pub fn render_region(&self) -> (c: Crop)
        ensures
            c == self.region(),
    {
        match self.crop {
            Some(c) => c,
            None => Crop { top: 0, left: 0, width: self.width, height: self.height },
        }
    }
}

/// A tile of a layer, by its first column and row.
#[derive(Debug, Clone, Copy, PartialEq, Eq, Structural)]
pub struct UVTile {
    pub u: usize,
    pub v: usize,
    pub w: usize,
}

/// How many tiles it takes along `len` pixels.
pub open spec fn tiles_along(len: int, tile_size: int) -> int {
    (len + tile_size - 1) / tile_size
}

/// How many layers there are.
pub open spec fn layer_count(min: int, max: int) -> int {
    if max < min {
        0
    } else {
        max - min + 1
    }
}

/// Tile `i` of a rendering, columns running fastest and layers slowest.
pub open spec fn tile_at(p: &RenderParams, i: int) -> UVTile {
    let r = p.region();
    let ts = p.tile_size as int;
    let cols = tiles_along(r.width as int, ts);
    let rows = tiles_along(r.height as int, ts);
    UVTile {
        u: (r.left + (i % cols) * ts) as usize,
        v: (r.top + ((i / cols) % rows) * ts) as usize,
        w: (p.min_layer + i / cols / rows) as usize,
    }
}

/// How many tiles a layer has.
pub open spec fn tiles_per_layer(p: &RenderParams) -> int {
    tiles_along(p.region().width as int, p.tile_size as int) * tiles_along(
        p.region().height as int,
        p.tile_size as int,
    )
}

/// Tiles have pixels, and every tile has coordinates.
pub open spec fn grid_ok(p: &RenderParams) -> bool {
    &&& p.tile_size > 0
    &&& p.region().left + p.region().width + p.tile_size <= usize::MAX
    &&& p.region().top + p.region().height + p.tile_size <= usize::MAX
    &&& p.max_layer < usize::MAX
}

proof fn lemma_tile_start(len: int, ts: int, k: int)
    requires
        ts > 0,
        0 <= len,
        0 <= k,
    ensures
        k < tiles_along(len, ts) <==> k * ts < len,
        0 <= tiles_along(len, ts),
        0 <= k * ts,
{
    assert(k < (len + ts - 1) / ts <==> k * ts < len) by (nonlinear_arith)
        requires
            ts > 0,
    ;
    assert(0 <= (len + ts - 1) / ts) by (nonlinear_arith)
        requires
            ts > 0,
            0 <= len,
    ;
    assert(0 <= k * ts) by (nonlinear_arith)
        requires
            ts > 0,
            0 <= k,
    ;
}

impl RenderParams {
    /// The tiles of a rendering, layer by layer and row by row (see `tile_at`).
    pub fn uv_tiles(&self) -> (out: Vec<UVTile>)
        requires
            grid_ok(self),
        ensures
            out@.len() == layer_count(self.min_layer as int, self.max_layer as int)
                * tiles_per_layer(self),
            forall|i: int| 0 <= i < out@.len() ==> #[trigger] out@[i] == tile_at(self, i),
    {
        let r = self.render_region();
        let ts = self.tile_size;
        let ghost cols = tiles_along(r.width as int, ts as int);
        let ghost rows = tiles_along(r.height as int, ts as int);
        proof {
            lemma_tile_start(r.width as int, ts as int, 0);
            lemma_tile_start(r.height as int, ts as int, 0);
            assert(0 * rows * cols == 0) by (nonlinear_arith);
        }
        let mut out: Vec<UVTile> = Vec::new();
        let mut w: usize = self.min_layer;
        while w <= self.max_layer
            invariant
                grid_ok(self),
                r == self.region(),
                ts == self.tile_size,
                cols == tiles_along(r.width as int, ts as int),
                rows == tiles_along(r.height as int, ts as int),
                cols >= 0,
                rows >= 0,
                self.min_layer <= w,
                w <= self.max_layer + 1 || w == self.min_layer,
                out@.len() == (w - self.min_layer) * rows * cols,
                forall|i: int| 0 <= i < out@.len() ==> #[trigger] out@[i] == tile_at(self, i),
            decreases self.max_layer + 1 - w,
        {
            let ghost a = w - self.min_layer;
            let mut b: usize = 0;
            let mut v: usize = r.top;
            assert((a * rows + 0) * cols == a * rows * cols);
            proof {
                lemma_tile_start(r.height as int, ts as int, 0);
            }
            while v < r.top + r.height
                invariant
                    grid_ok(self),
                    r == self.region(),
                    ts == self.tile_size,
                    cols == tiles_along(r.width as int, ts as int),
                    rows == tiles_along(r.height as int, ts as int),
                    cols >= 0,
                    rows >= 0,
                    a == w - self.min_layer,
                    self.min_layer <= w <= self.max_layer,
                    v == r.top + b * ts,
                    b <= rows,
                    0 <= b,
                    v <= r.top + r.height + ts,
                    out@.len() == (a * rows + b) * cols,
                    forall|i: int| 0 <= i < out@.len() ==> #[trigger] out@[i] == tile_at(self, i),
                decreases rows - b,
            {
                proof {
                    lemma_tile_start(r.height as int, ts as int, b as int);
                }
                let mut c: usize = 0;
                let mut u: usize = r.left;
                while u < r.left + r.width
                    invariant
                        grid_ok(self),
                        r == self.region(),
                        ts == self.tile_size,
                        cols == tiles_along(r.width as int, ts as int),
                        rows == tiles_along(r.height as int, ts as int),
                        cols >= 0,
                        a == w - self.min_layer,
                        self.min_layer <= w <= self.max_layer,
                        v == r.top + b * ts,
                        0 <= b < rows,
                        u == r.left + c * ts,
                        0 <= c <= cols,
                        u <= r.left + r.width + ts,
                        out@.len() == (a * rows + b) * cols + c,
                        forall|i: int|
                            0 <= i < out@.len() ==> #[trigger] out@[i] == tile_at(self, i),
                    decreases cols - c,
                {
                    proof {
                        lemma_tile_start(r.width as int, ts as int, c as int);
                        ome_zarr::lemma_unflatten(a as int, b as int, c as int, rows, cols);
                        lemma_next(c as int, ts as int);
                    }
                    let tile = UVTile { u, v, w };
                    assert(tile == tile_at(self, (a * rows + b) * cols + c));
                    out.push(tile);
                    u = u + ts;
                    c = c + 1;
                }
                proof {
                    lemma_tile_start(r.width as int, ts as int, c as int);
                    assert(c == cols);
                    lemma_next(b as int, ts as int);
                    assert((a * rows + b) * cols + cols == (a * rows + b + 1) * cols)
                        by (nonlinear_arith);
                }
                v = v + ts;
                b = b + 1;
            }
            proof {
                lemma_tile_start(r.height as int, ts as int, b as int);
                assert(b == rows);
                assert((a * rows + rows) * cols == (a + 1) * rows * cols) by (nonlinear_arith);
            }
            w = w + 1;
        }
        proof {
            let n = layer_count(self.min_layer as int, self.max_layer as int);
            assert(w - self.min_layer == n);
            assert(n * rows * cols == n * (cols * rows)) by (nonlinear_arith);
        }
        out
    }

    /// The position at a tile's center, relative to the segment's surface.
    pub fn tile_position(&self, tile: UVTile) -> (xyz: [i32; 3])
        requires
            tile.u + self.tile_size / 2 <= i32::MAX,
            tile.v + self.tile_size / 2 <= i32::MAX,
            tile.w <= i32::MAX,
            self.mid_layer <= i32::MAX,
        ensures
            xyz@ == seq![
                (tile.u + self.tile_size / 2) as i32,
                (tile.v + self.tile_size / 2) as i32,
                (tile.w - self.mid_layer) as i32,
            ],
    {
        let half = self.tile_size / 2;
        let xyz: [i32; 3] = [
            (tile.u + half) as i32,
            (tile.v + half) as i32,
            tile.w as i32 - self.mid_layer as i32,
        ];
        assert(xyz@ =~= seq![
            (tile.u + self.tile_size / 2) as i32,
            (tile.v + self.tile_size / 2) as i32,
            (tile.w - self.mid_layer) as i32,
        ]);
        xyz
    }

    /// How many tiles are made resident at once: those that render, and those
    /// fetched ahead.
    pub fn ensure_concurrency(&self) -> (n: usize)
        requires
            self.render_concurrency + self.prefetch_depth <= usize::MAX,
        ensures
            n == (if self.render_concurrency + self.prefetch_depth < 1 {
                1
            } else {
                self.render_concurrency + self.prefetch_depth
            }),
    {
        let n = self.render_concurrency + self.prefetch_depth;
        if n < 1 {
            1
        } else {
            n
        }
    }

    /// Where a layer's picture goes.
    pub open spec fn path_of(&self, w: usize) -> Seq<char> {
        self.target_dir@ + "/"@ + text::padded(w as nat, 2) + "."@ + self.target_format@
    }

    /// Where a layer's picture goes.
    pub fn layer_path(&self, w: usize) -> (s: String)
        ensures
            s@ == self.path_of(w),
    {
        let mut out = text::to_chars(self.target_dir.as_str());
        text::push_text(&mut out, "/");
        text::push_padded(&mut out, w as u64, 2);
        text::push_text(&mut out, ".");
        text::push_text(&mut out, self.target_format.as_str());
        text::from_chars(&out)
    }
}

proof fn lemma_next(k: int, ts: int)
    ensures
        (k + 1) * ts == k * ts + ts,
{
    assert((k + 1) * ts == k * ts + ts) by (nonlinear_arith);
}

/// A pixel of the rendered part lies in the tile that its column and row are
/// in, and in no other tile of its layer.
pub proof fn law_pixel_lies_in_one_tile(p: RenderParams, gu: int, gv: int, c: int, r: int)
    requires
        grid_ok(&p),
        0 <= gu < p.region().width,
        0 <= gv < p.region().height,
        0 <= c < tiles_along(p.region().width as int, p.tile_size as int),
        0 <= r < tiles_along(p.region().height as int, p.tile_size as int),
    ensures
        ({
            let ts = p.tile_size as int;
            (c * ts <= gu < c * ts + ts && r * ts <= gv < r * ts + ts) <==> c == gu / ts && r == gv / ts
        }),
        0 <= gu / (p.tile_size as int) < tiles_along(p.region().width as int, p.tile_size as int),
        0 <= gv / (p.tile_size as int) < tiles_along(p.region().height as int, p.tile_size as int),
{
    let ts = p.tile_size as int;
    lemma_quotient(gu, ts, c);
    lemma_quotient(gv, ts, r);
    lemma_quotient(gu, ts, gu / ts);
    lemma_quotient(gv, ts, gv / ts);
    lemma_tile_start(p.region().width as int, ts, gu / ts);
    lemma_tile_start(p.region().height as int, ts, gv / ts);
}

proof fn lemma_quotient(x: int, ts: int, k: int)
    requires
        ts > 0,
        0 <= x,
    ensures
        k * ts <= x < k * ts + ts <==> k == x / ts,
        0 <= x / ts,
{
    assert(k * ts <= x < k * ts + ts <==> k == x / ts) by (nonlinear_arith)
        requires
            ts > 0,
    ;
    assert(0 <= x / ts) by (nonlinear_arith)
        requires
            ts > 0,
            0 <= x,
    ;
}

/// What each pixel of a picture gets from a tile whose first pixel stands at
/// column `ox` and row `oy`.
pub open spec fn tile_value(data: Seq<u8>, ts: int, ox: int, oy: int) -> spec_fn(int, int) -> u8 {
    |u: int, v: int| data[(v - oy) * ts + (u - ox)]
}

/// `a` at most `b`.
pub open spec fn at_most(a: int, b: int) -> usize {
    if a < b {
        a as usize
    } else {
        b as usize
    }
}

/// The part of the rendered picture that a tile covers.
pub open spec fn tile_rect(p: &RenderParams, tile: UVTile) -> Rect {
    let r = p.region();
    Rect {
        u_lo: (tile.u - r.left) as usize,
        u_hi: at_most(tile.u - r.left + p.tile_size, r.width as int),
        v_lo: (tile.v - r.top) as usize,
        v_hi: at_most(tile.v - r.top + p.tile_size, r.height as int),
    }
}

/// The picture with a tile put in. What hangs over the picture's edge is left
/// out.
pub open spec fn with_tile(p: &RenderParams, pixels: Seq<u8>, tile: UVTile, data: Seq<u8>) -> Seq<u8> {
    let r = p.region();
    paint::rect_painted(
        pixels,
        r.width as int,
        tile_rect(p, tile),
        tile_value(data, p.tile_size as int, tile.u - r.left, tile.v - r.top),
    )
}

/// The picture with the first `n` tiles put in, one after the other.
pub open spec fn with_tiles(
    p: &RenderParams,
    pixels: Seq<u8>,
    tiles: Seq<(UVTile, Vec<u8>)>,
    n: nat,
) -> Seq<u8>
    decreases n,
{
    if n == 0 {
        pixels
    } else {
        with_tile(
            p,
            with_tiles(p, pixels, tiles, (n - 1) as nat),
            tiles[n - 1].0,
            tiles[n - 1].1@,
        )
    }
}

/// Whether a tile begins in the rendered part and has all its pixels.
pub open spec fn tile_fits(p: &RenderParams, tile: UVTile, data: Seq<u8>) -> bool {
    &&& p.region().left <= tile.u
    &&& p.region().top <= tile.v
    &&& data.len() == p.tile_size * p.tile_size
    &&& tile.u + p.tile_size <= usize::MAX
    &&& tile.v + p.tile_size <= usize::MAX
}

impl RenderParams {
    fn put_tile(&self, image: &mut Image, tile: UVTile, data: &Vec<u8>)
        requires
            old(image).wf(),
            old(image).width == self.region().width,
            old(image).height == self.region().height,
            tile_fits(self, tile, data@),
        ensures
            final(image).wf(),
            final(image).width == old(image).width,
            final(image).height == old(image).height,
            final(image).pixels@ == with_tile(self, old(image).pixels@, tile, data@),
    {
        let r = self.render_region();
        let ts = self.tile_size;
        let ox: usize = tile.u - r.left;
        let oy: usize = tile.v - r.top;
        let u_hi: usize = if ox + ts < r.width { ox + ts } else { r.width };
        let v_hi: usize = if oy + ts < r.height { oy + ts } else { r.height };
        let ghost rect = tile_rect(self, tile);
        let ghost value = tile_value(data@, ts as int, ox as int, oy as int);
        let ghost before = image.pixels@;
        let w: usize = r.width;
        let mut v: usize = oy;
        assert(image.pixels@ =~= paint::partly_painted(
            before,
            w as int,
            rect,
            value,
            v as int,
            ox as int,
        ));
        while v < v_hi
            invariant
                w == image.width,
                image.height == r.height,
                before.len() == w * r.height,
                data@.len() == ts * ts,
                rect == (Rect { u_lo: ox, u_hi, v_lo: oy, v_hi }),
                u_hi <= w,
                v_hi <= r.height,
                u_hi <= ox + ts,
                v_hi <= oy + ts,
                oy <= v,
                v <= v_hi || v == oy,
                value == tile_value(data@, ts as int, ox as int, oy as int),
                image.pixels@ == paint::partly_painted(
                    before,
                    w as int,
                    rect,
                    value,
                    v as int,
                    ox as int,
                ),
            decreases v_hi - v,
        {
            let mut u: usize = ox;
            while u < u_hi
                invariant
                    w == image.width,
                    image.height == r.height,
                    before.len() == w * r.height,
                    data@.len() == ts * ts,
                    rect == (Rect { u_lo: ox, u_hi, v_lo: oy, v_hi }),
                    u_hi <= w,
                    v_hi <= r.height,
                    u_hi <= ox + ts,
                    v_hi <= oy + ts,
                    oy <= v < v_hi,
                    ox <= u,
                    u <= u_hi || u == ox,
                    value == tile_value(data@, ts as int, ox as int, oy as int),
                    image.pixels@ == paint::partly_painted(
                        before,
                        w as int,
                        rect,
                        value,
                        v as int,
                        u as int,
                    ),
                decreases u_hi - u,
            {
                proof {
                    paint::lemma_row_and_column(w as int, u as int, v as int, r.height as int);
                    paint::lemma_row_and_column(ts as int, u - ox, v - oy, ts as int);
                    assert(image.pixels@.len() == image.pixels.len());
                    assert(data@.len() == data.len());
                    assert(0 <= v * w <= v * w + u);
                    assert(0 <= (v - oy) * ts) by (nonlinear_arith)
                        requires
                            v >= oy,
                            ts >= 0,
                    ;
                }
                let lv: usize = v - oy;
                let b: u8 = data[lv * ts + (u - ox)];
                assert(b == value(u as int, v as int));
                let ghost was = image.pixels@;
                image.pixels[v * w + u] = b;
                proof {
                    let at = v * w + u;
                    assert forall|i: int| 0 <= i < before.len() implies #[trigger] image.pixels@[i]
                        == paint::partly_painted(before, w as int, rect, value, v as int, u + 1)[i] by {
                        if i % (w as int) == u && i / (w as int) == v {
                            paint::lemma_same_place(w as int, i, u as int, v as int);
                        } else {
                            assert(i != at);
                            assert(image.pixels@[i] == was[i]);
                        }
                    }
                    assert(image.pixels@ =~= paint::partly_painted(
                        before,
                        w as int,
                        rect,
                        value,
                        v as int,
                        u + 1,
                    ));
                }
                u = u + 1;
            }
            assert(image.pixels@ =~= paint::partly_painted(
                before,
                w as int,
                rect,
                value,
                v + 1,
                ox as int,
            ));
            v = v + 1;
        }
        assert(image.pixels@ =~= paint::rect_painted(before, w as int, rect, value));
    }

    /// Puts a layer together from its tiles, on black.
    pub fn layer_from_tiles(&self, tiles: &Vec<(UVTile, Vec<u8>)>) -> (image: Image)
        requires
            self.region().width * self.region().height <= usize::MAX,
            forall|i: int|
                0 <= i < tiles@.len() ==> tile_fits(self, (#[trigger] tiles@[i]).0, tiles@[i].1@),
        ensures
            image.wf(),
            image.width == self.region().width,
            image.height == self.region().height,
            image.pixels@ == with_tiles(
                self,
                Seq::new(
                    (self.region().width * self.region().height) as nat,
                    |i: int| 0u8,
                ),
                tiles@,
                tiles@.len(),
            ),
    {
        let r = self.render_region();
        let n: usize = r.width * r.height;
        let mut image = Image { width: r.width, height: r.height, pixels: vec![0u8; n] };
        let ghost black = Seq::new((r.width * r.height) as nat, |i: int| 0u8);
        assert(image.pixels@ =~= black);
        let mut i: usize = 0;
        while i < tiles.len()
            invariant
                i <= tiles@.len(),
                r == self.region(),
                image.wf(),
                image.width == r.width,
                image.height == r.height,
                forall|i: int|
                    0 <= i < tiles@.len() ==> tile_fits(
                        self,
                        (#[trigger] tiles@[i]).0,
                        tiles@[i].1@,
                    ),
                image.pixels@ == with_tiles(self, black, tiles@, i as nat),
            decreases tiles.len() - i,
        {
            let tile = tiles[i].0;
            assert(tile_fits(self, tiles@[i as int].0, tiles@[i as int].1@));
            self.put_tile(&mut image, tile, &tiles[i].1);
            i = i + 1;
        }
        image
    }
}

/// A chunk of the finest level.
#[derive(Debug, Clone, Copy, PartialEq, Eq, Structural)]
pub struct VolumeChunk {
    pub x: u64,
    pub y: u64,
    pub z: u64,
}

/// Whether one chunk comes before another: by x, then y, then z.
pub open spec fn before(a: VolumeChunk, b: VolumeChunk) -> bool {
    a.x < b.x || (a.x == b.x && (a.y < b.y || (a.y == b.y && a.z < b.z)))
}

fn comes_before(a: VolumeChunk, b: VolumeChunk) -> (r: bool)
    ensures
        r == before(a, b),
{
    a.x < b.x || (a.x == b.x && (a.y < b.y || (a.y == b.y && a.z < b.z)))
}

impl VolumeChunk {
    /// The chunk's address, of whose coordinates the low thirty-two bits count.
    pub fn key(&self) -> (k: ChunkKey)
        ensures
            k == (ChunkKey {
                lod: 0,
                x: (self.x % 0x1_0000_0000) as u32,
                y: (self.y % 0x1_0000_0000) as u32,
                z: (self.z % 0x1_0000_0000) as u32,
            }),
    {
        ChunkKey::new(
            0,
            (self.x % 0x1_0000_0000) as u32,
            (self.y % 0x1_0000_0000) as u32,
            (self.z % 0x1_0000_0000) as u32,
        )
    }
}

/// The chunks that a tile samples, in order and each once.
#[derive(Debug)]
pub struct TileChunks {
    pub chunks: Vec<VolumeChunk>,
    pub last: Option<VolumeChunk>,
}

/// The chunk that voxel `(x, y, z)` lies in.
pub open spec fn chunk_at(x: int, y: int, z: int) -> VolumeChunk {
    VolumeChunk { x: (x / 64) as u64, y: (y / 64) as u64, z: (z / 64) as u64 }
}

/// Whether a chunk holds one of the eight voxels of the block at `(x, y, z)`.
pub open spec fn block_touches(x: int, y: int, z: int, c: VolumeChunk) -> bool {
    exists|i: int|
        0 <= i < 8 && c == #[trigger] chunk_at(x + i % 2, y + (i / 2) % 2, z + i / 4)
}

impl View for TileChunks {
    type V = Set<VolumeChunk>;

    open spec fn view(&self) -> Set<VolumeChunk> {
        self.chunks@.to_set()
    }
}

impl TileChunks {
    /// The chunks stand in order, so none stands twice.
    pub open spec fn wf(&self) -> bool {
        &&& forall|i: int, j: int|
            0 <= i < j < self.chunks@.len() ==> before(
                #[trigger] self.chunks@[i],
                #[trigger] self.chunks@[j],
            )
        &&& self.last matches Some(c) ==> self.chunks@.contains(c)
    }

    /// No chunks yet.
    pub fn new() -> (t: TileChunks)
        ensures
            t.wf(),
            t@ == Set::<VolumeChunk>::empty(),
    {
        let t = TileChunks { chunks: Vec::new(), last: None };
        assert(t@ =~= Set::<VolumeChunk>::empty());
        t
    }

    /// Adds a chunk, if it is not there.
    pub fn add_tile(&mut self, c: VolumeChunk)
        requires
            old(self).wf(),
        ensures
            final(self).wf(),
            final(self)@ == old(self)@.insert(c),
    {
        match self.last {
            Some(l) => {
                if l == c {
                    assert(self@ =~= old(self)@.insert(c));
                    return ;
                }
            },
            None => {},
        }
        let mut i: usize = 0;
        while i < self.chunks.len() && comes_before(self.chunks[i], c)
            invariant
                *self == *old(self),
                self.wf(),
                i <= self.chunks@.len(),
                forall|j: int| 0 <= j < i ==> before(#[trigger] self.chunks@[j], c),
            decreases self.chunks.len() - i,
        {
            i = i + 1;
        }
        let ghost was = self.chunks@;
        self.last = Some(c);
        if i < self.chunks.len() && self.chunks[i] == c {
            assert(was.contains(c)) by {
                assert(was[i as int] == c);
            }
            assert(self@ =~= old(self)@.insert(c));
            return ;
        }
        self.chunks.insert(i, c);
        proof {
            let now = self.chunks@;
            assert(now == was.insert(i as int, c));
            assert forall|a: int, b: int| 0 <= a < b < now.len() implies before(
                #[trigger] now[a],
                #[trigger] now[b],
            ) by {
                let pa = if a < i { a } else { a - 1 };
                let pb = if b < i { b } else { b - 1 };
                if a == i {
                    assert(now[b] == was[b - 1]);
                    lemma_after(c, was[i as int], was[b - 1]);
                } else if b == i {
                    assert(now[a] == was[a]);
                } else {
                    assert(now[a] == was[pa] && now[b] == was[pb]);
                }
            }
            assert(now[i as int] == c);
            assert(now.contains(c));
            assert forall|x: VolumeChunk| now.to_set().contains(x) == was.to_set().insert(c).contains(x) by {
                if was.contains(x) {
                    let k = choose|k: int| 0 <= k < was.len() && was[k] == x;
                    if k < i {
                        assert(now[k] == x);
                    } else {
                        assert(now[k + 1] == x);
                    }
                }
                if now.contains(x) {
                    let k = choose|k: int| 0 <= k < now.len() && now[k] == x;
                    if k < i {
                        assert(was[k] == x);
                    } else if k > i {
                        assert(was[k - 1] == x);
                    }
                }
            }
            assert(self@ =~= old(self)@.insert(c));
        }
    }

    /// Notes that voxel `(x, y, z)` is sampled.
    pub fn sample(&mut self, x: u64, y: u64, z: u64)
        requires
            old(self).wf(),
        ensures
            final(self).wf(),
            final(self)@ == old(self)@.insert(chunk_at(x as int, y as int, z as int)),
    {
        self.add_tile(VolumeChunk { x: x / 64, y: y / 64, z: z / 64 });
    }

    /// Notes that a blend at `(x, y, z)` is sampled: the eight voxels of the
    /// block there.
    pub fn sample_interpolated(&mut self, x: u64, y: u64, z: u64)
        requires
            old(self).wf(),
            x < u64::MAX,
            y < u64::MAX,
            z < u64::MAX,
        ensures
            final(self).wf(),
            forall|c: VolumeChunk| #[trigger]
                final(self)@.contains(c) <==> old(self)@.contains(c) || block_touches(
                    x as int,
                    y as int,
                    z as int,
                    c,
                ),
    {
        if x % 64 != 63 && y % 64 != 63 && z % 64 != 63 {
            self.sample(x, y, z);
            proof {
                assert forall|i: int| 0 <= i < 8 implies #[trigger] chunk_at(
                    x + i % 2,
                    y + (i / 2) % 2,
                    z + i / 4,
                ) == chunk_at(x as int, y as int, z as int) by {
                    lemma_same_chunk(x as int, i % 2);
                    lemma_same_chunk(y as int, (i / 2) % 2);
                    lemma_same_chunk(z as int, i / 4);
                }
                assert(chunk_at(x + 0int % 2, y + (0int / 2) % 2, z + 0int / 4) == chunk_at(
                    x as int,
                    y as int,
                    z as int,
                ));
            }
            return ;
        }
        let mut i: u64 = 0;
        while i < 8
            invariant
                i <= 8,
                x < u64::MAX,
                y < u64::MAX,
                z < u64::MAX,
                self.wf(),
                forall|c: VolumeChunk| #[trigger]
                    self@.contains(c) <==> old(self)@.contains(c) || exists|j: int|
                        0 <= j < i && c == #[trigger] chunk_at(x + j % 2, y + (j / 2) % 2, z + j / 4),
            decreases 8 - i,
        {
            let ghost was = self@;
            self.sample(x + i % 2, y + (i / 2) % 2, z + i / 4);
            proof {
                let k = i as int;
                assert forall|c: VolumeChunk| #[trigger]
                    self@.contains(c) <==> old(self)@.contains(c) || exists|j: int|
                        0 <= j < k + 1 && c == #[trigger] chunk_at(
                            x + j % 2,
                            y + (j / 2) % 2,
                            z + j / 4,
                        ) by {
                    let here = chunk_at(x + k % 2, y + (k / 2) % 2, z + k / 4);
                    assert(self@ == was.insert(here));
                    if c == here {
                        assert(0 <= k < k + 1 && c == chunk_at(x + k % 2, y + (k / 2) % 2, z + k / 4));
                    }
                    assert(was.contains(c) <==> old(self)@.contains(c) || exists|j: int|
                        0 <= j < k && c == #[trigger] chunk_at(x + j % 2, y + (j / 2) % 2, z + j / 4));
                }
            }
            i = i + 1;
        }
    }

    /// The addresses of the chunks, in order.
    pub fn keys(&self) -> (out: Vec<ChunkKey>)
        ensures
            out@.len() == self.chunks@.len(),
            forall|i: int|
                0 <= i < out@.len() ==> #[trigger] out@[i] == (ChunkKey {
                    lod: 0,
                    x: (self.chunks@[i].x % 0x1_0000_0000) as u32,
                    y: (self.chunks@[i].y % 0x1_0000_0000) as u32,
                    z: (self.chunks@[i].z % 0x1_0000_0000) as u32,
                }),
    {
        let mut out: Vec<ChunkKey> = Vec::new();
        let mut i: usize = 0;
        while i < self.chunks.len()
            invariant
                i <= self.chunks@.len(),
                out@.len() == i,
                forall|j: int|
                    0 <= j < i ==> #[trigger] out@[j] == (ChunkKey {
                        lod: 0,
                        x: (self.chunks@[j].x % 0x1_0000_0000) as u32,
                        y: (self.chunks@[j].y % 0x1_0000_0000) as u32,
                        z: (self.chunks@[j].z % 0x1_0000_0000) as u32,
                    }),
            decreases self.chunks.len() - i,
        {
            out.push(self.chunks[i].key());
            i = i + 1;
        }
        out
    }
}

proof fn lemma_after(c: VolumeChunk, d: VolumeChunk, e: VolumeChunk)
    requires
        !before(d, c),
        d != c,
        before(d, e) || d == e,
    ensures
        before(c, e),
{
}

proof fn lemma_same_chunk(x: int, d: int)
    requires
        x >= 0,
        x % 64 != 63,
        0 <= d <= 1,
    ensures
        (x + d) / 64 == x / 64,
{
}

/// Those of the first `n` chunks whose fetches are under way.
pub open spec fn in_flight(keys: Seq<ChunkKey>, states: Seq<ChunkState>, n: nat) -> Seq<ChunkKey>
    decreases n,
{
    if n == 0 {
        Seq::empty()
    } else {
        let b = in_flight(keys, states, (n - 1) as nat);
        if states[n - 1] is Pending {
            b.push(keys[n - 1])
        } else {
            b
        }
    }
}

/// The chunks that have still to be waited for: those whose fetches are under
/// way. All others are settled, and waiting longer would not change them.
pub fn still_pending(keys: &Vec<ChunkKey>, states: &Vec<ChunkState>) -> (out: Vec<ChunkKey>)
    requires
        keys@.len() == states@.len(),
    ensures
        out@ == in_flight(keys@, states@, keys@.len()),
{
    let mut out: Vec<ChunkKey> = Vec::new();
    let mut i: usize = 0;
    while i < keys.len()
        invariant
            i <= keys@.len(),
            keys@.len() == states@.len(),
            out@ == in_flight(keys@, states@, i as nat),
        decreases keys.len() - i,
    {
        let pending = match states[i] {
            ChunkState::Pending { .. } => true,
            _ => false,
        };
        if pending {
            out.push(keys[i]);
        }
        i = i + 1;
    }
    out
}

/// How long a tile's chunks are waited for, in milliseconds.
pub const TILE_ENSURE_TIMEOUT_MS: u64 = 300_000;

/// How long to sleep between looks, in milliseconds.
pub const ENSURE_POLL_MS: u64 = 5;

/// What to do about a tile's chunks.
#[derive(Debug, Clone, Copy, PartialEq, Eq, Structural)]
pub enum EnsureTurn {
    /// All are settled.
    Done,
    /// Time is up; render with what is there.
    GiveUp { pending: usize },
    /// Look again after this many milliseconds.
    Sleep { ms: u64 },
}

/// What to do about a tile whose chunks have been waited for since `waited`
/// milliseconds, `pending` of which are under way.
pub fn ensure_turn(pending: usize, waited: u64) -> (t: EnsureTurn)
    ensures
        t == (if pending == 0 {
            EnsureTurn::Done
        } else if waited >= TILE_ENSURE_TIMEOUT_MS {
            EnsureTurn::GiveUp { pending }
        } else {
            EnsureTurn::Sleep { ms: ENSURE_POLL_MS }
        }),
{
    if pending == 0 {
        EnsureTurn::Done
    } else if waited >= TILE_ENSURE_TIMEOUT_MS {
        EnsureTurn::GiveUp { pending }
    } else {
        EnsureTurn::Sleep { ms: ENSURE_POLL_MS }
    }
}

/// The tiles of a rendering come layer by layer, in each layer row by row and in
/// each row from the left, one next to the other.
pub proof fn law_tiles_come_row_by_row(p: RenderParams, layer: int, row: int, column: int)
    requires
        grid_ok(&p),
        0 <= layer < layer_count(p.min_layer as int, p.max_layer as int),
        0 <= row,
        row * p.tile_size < p.region().height,
        0 <= column,
        column * p.tile_size < p.region().width,
    ensures
        ({
            let cols = tiles_along(p.region().width as int, p.tile_size as int);
            let i = layer * tiles_per_layer(&p) + row * cols + column;
            let t = tile_at(&p, i);
            &&& layer * tiles_per_layer(&p) <= i < (layer + 1) * tiles_per_layer(&p)
            &&& t.u == p.region().left + column * p.tile_size
            &&& t.v == p.region().top + row * p.tile_size
            &&& t.w == p.min_layer + layer
        }),
{
    let ts = p.tile_size as int;
    let cols = tiles_along(p.region().width as int, ts);
    let rows = tiles_along(p.region().height as int, ts);
    lemma_tile_start(p.region().height as int, ts, row);
    lemma_tile_start(p.region().width as int, ts, column);
    let i = layer * tiles_per_layer(&p) + row * cols + column;
    assert(layer * (cols * rows) + row * cols + column == (layer * rows + row) * cols + column)
        by (nonlinear_arith);
    crate::ome_zarr::lemma_unflatten(layer, row, column, rows, cols);
    assert(0 <= row * cols && row * cols + column < cols * rows) by (nonlinear_arith)
        requires
            0 <= row < rows,
            0 <= column < cols,
    ;
    assert((layer + 1) * (cols * rows) == layer * (cols * rows) + cols * rows) by (nonlinear_arith);
}

/// Whether a tile shows its part of a picture of the rendered region: row `lv`
/// and column `lu` of the tile, rows one after the other, what the picture has
/// that many rows and columns further on than where the tile begins.
pub open spec fn shows_part(p: &RenderParams, tile: UVTile, data: Seq<u8>, picture: Seq<u8>) -> bool {
    let r = p.region();
    forall|lu: int, lv: int|
        0 <= lu < p.tile_size && 0 <= lv < p.tile_size && tile.u - r.left + lu < r.width && tile.v
            - r.top + lv < r.height ==> #[trigger] data[lv * p.tile_size + lu] == picture[(tile.v
            - r.top + lv) * r.width + (tile.u - r.left + lu)]
}

/// Whether a tile that begins at a column and row of the picture reaches a
/// pixel of it.
pub open spec fn reaches(p: &RenderParams, tile: UVTile, gu: int, gv: int) -> bool {
    let r = p.region();
    &&& tile.u - r.left <= gu < tile.u - r.left + p.tile_size
    &&& tile.v - r.top <= gv < tile.v - r.top + p.tile_size
}

proof fn lemma_pixel_after_tiles(
    p: RenderParams,
    black: Seq<u8>,
    tiles: Seq<(UVTile, Vec<u8>)>,
    picture: Seq<u8>,
    n: nat,
    gu: int,
    gv: int,
)
    requires
        n <= tiles.len(),
        black.len() == p.region().width * p.region().height,
        0 <= gu < p.region().width,
        0 <= gv < p.region().height,
        forall|j: int|
            0 <= j < tiles.len() ==> tile_fits(&p, (#[trigger] tiles[j]).0, tiles[j].1@) && shows_part(
                &p,
                tiles[j].0,
                tiles[j].1@,
                picture,
            ),
    ensures
        with_tiles(&p, black, tiles, n).len() == black.len(),
        ({
            let at = gv * p.region().width + gu;
            with_tiles(&p, black, tiles, n)[at] == if exists|j: int|
                0 <= j < n && reaches(&p, (#[trigger] tiles[j]).0, gu, gv) {
                picture[at]
            } else {
                black[at]
            }
        }),
    decreases n,
{
    let w = p.region().width as int;
    let at = gv * w + gu;
    paint::lemma_row_and_column(w, gu, gv, p.region().height as int);
    if n > 0 {
        lemma_pixel_after_tiles(p, black, tiles, picture, (n - 1) as nat, gu, gv);
        let (tile, data) = (tiles[n - 1].0, tiles[n - 1].1@);
        let before = with_tiles(&p, black, tiles, (n - 1) as nat);
        let r = p.region();
        if reaches(&p, tile, gu, gv) {
            let (lu, lv) = (gu - (tile.u - r.left), gv - (tile.v - r.top));
            assert(data[lv * p.tile_size + lu] == picture[at]);
            assert(with_tiles(&p, black, tiles, n)[at] == picture[at]);
            assert(reaches(&p, tiles[n - 1].0, gu, gv));
        } else {
            assert(with_tiles(&p, black, tiles, n)[at] == before[at]);
            if exists|j: int| 0 <= j < n - 1 && reaches(&p, (#[trigger] tiles[j]).0, gu, gv) {
                let j = choose|j: int| 0 <= j < n - 1 && reaches(&p, (#[trigger] tiles[j]).0, gu, gv);
                assert(reaches(&p, tiles[j].0, gu, gv));
            }
        }
    }
}

/// A picture cut into tiles and put together again is the picture: where the
/// tiles of a layer are all there and each shows its part, the layer is the
/// whole.
pub proof fn law_layer_is_the_picture(
    p: RenderParams,
    layer: int,
    black: Seq<u8>,
    tiles: Seq<(UVTile, Vec<u8>)>,
    picture: Seq<u8>,
)
    requires
        grid_ok(&p),
        0 <= layer < layer_count(p.min_layer as int, p.max_layer as int),
        black.len() == p.region().width * p.region().height,
        picture.len() == p.region().width * p.region().height,
        forall|j: int|
            0 <= j < tiles.len() ==> tile_fits(&p, (#[trigger] tiles[j]).0, tiles[j].1@) && shows_part(
                &p,
                tiles[j].0,
                tiles[j].1@,
                picture,
            ),
        forall|i: int|
            layer * tiles_per_layer(&p) <= i < (layer + 1) * tiles_per_layer(&p) ==> exists|j: int|
                0 <= j < tiles.len() && (#[trigger] tiles[j]).0 == #[trigger] tile_at(&p, i),
    ensures
        with_tiles(&p, black, tiles, tiles.len()) == picture,
{
    let (w, h) = (p.region().width as int, p.region().height as int);
    let ts = p.tile_size as int;
    let whole = with_tiles(&p, black, tiles, tiles.len());
    lemma_tiles_keep_size(p, black, tiles, tiles.len());
    assert forall|at: int| 0 <= at < picture.len() implies whole[at] == picture[at] by {
        assert(w > 0) by (nonlinear_arith)
            requires
                0 <= at < w * h,
                w >= 0,
        ;
        let (gu, gv) = (at % w, at / w);
        paint::lemma_same_place(w, at, gu, gv);
        assert(0 <= gv < h) by (nonlinear_arith)
            requires
                0 <= at < w * h,
                gv == at / w,
                w > 0,
        ;
        let (c, r) = (gu / ts, gv / ts);
        lemma_quotient(gu, ts, c);
        lemma_quotient(gv, ts, r);
        law_tiles_come_row_by_row(p, layer, r, c);
        let i = layer * tiles_per_layer(&p) + r * tiles_along(w, ts) + c;
        let j = choose|j: int| 0 <= j < tiles.len() && (#[trigger] tiles[j]).0 == tile_at(&p, i);
        assert(reaches(&p, tiles[j].0, gu, gv));
        lemma_pixel_after_tiles(p, black, tiles, picture, tiles.len(), gu, gv);
    }
    assert(whole =~= picture);
}

proof fn lemma_tiles_keep_size(
    p: RenderParams,
    black: Seq<u8>,
    tiles: Seq<(UVTile, Vec<u8>)>,
    n: nat,
)
    ensures
        with_tiles(&p, black, tiles, n).len() == black.len(),
    decreases n,
{
    if n > 0 {
        lemma_tiles_keep_size(p, black, tiles, (n - 1) as nat);
    }
}

/// A pixel that no tile reaches stays as it was.
pub proof fn law_untiled_pixel_stays(
    p: RenderParams,
    black: Seq<u8>,
    tiles: Seq<(UVTile, Vec<u8>)>,
    gu: int,
    gv: int,
)
    requires
        black.len() == p.region().width * p.region().height,
        0 <= gu < p.region().width,
        0 <= gv < p.region().height,
        forall|j: int|
            0 <= j < tiles.len() ==> tile_fits(&p, (#[trigger] tiles[j]).0, tiles[j].1@) && !reaches(
                &p,
                tiles[j].0,
                gu,
                gv,
            ),
    ensures
        with_tiles(&p, black, tiles, tiles.len())[gv * p.region().width + gu] == black[gv
            * p.region().width + gu],
{
    lemma_unreached_pixel(p, black, tiles, tiles.len(), gu, gv);
}

proof fn lemma_unreached_pixel(
    p: RenderParams,
    black: Seq<u8>,
    tiles: Seq<(UVTile, Vec<u8>)>,
    n: nat,
    gu: int,
    gv: int,
)
    requires
        n <= tiles.len(),
        black.len() == p.region().width * p.region().height,
        0 <= gu < p.region().width,
        0 <= gv < p.region().height,
        forall|j: int|
            0 <= j < tiles.len() ==> tile_fits(&p, (#[trigger] tiles[j]).0, tiles[j].1@) && !reaches(
                &p,
                tiles[j].0,
                gu,
                gv,
            ),
    ensures
        with_tiles(&p, black, tiles, n)[gv * p.region().width + gu] == black[gv * p.region().width + gu],
    decreases n,
{
    let w = p.region().width as int;
    paint::lemma_row_and_column(w, gu, gv, p.region().height as int);
    lemma_tiles_keep_size(p, black, tiles, n);
    if n > 0 {
        lemma_tiles_keep_size(p, black, tiles, (n - 1) as nat);
        lemma_unreached_pixel(p, black, tiles, (n - 1) as nat, gu, gv);
        assert(!reaches(&p, tiles[n - 1].0, gu, gv));
    }
}

/// A blend at a place needs the chunks of the eight voxels there: the place's
/// own voxel and the next on each axis, sixty-four voxels to a chunk.
pub proof fn law_blend_needs_the_chunks_of_its_voxels(x: int, y: int, z: int, c: VolumeChunk)
    requires
        0 <= x < 0x1_0000_0000_0000,
        0 <= y < 0x1_0000_0000_0000,
        0 <= z < 0x1_0000_0000_0000,
    ensures
        block_touches(x, y, z, c) <==> {
            &&& c.x == x / 64 || c.x == (x + 1) / 64
            &&& c.y == y / 64 || c.y == (y + 1) / 64
            &&& c.z == z / 64 || c.z == (z + 1) / 64
        },
{
    if c.x == x / 64 || c.x == (x + 1) / 64 {
        if c.y == y / 64 || c.y == (y + 1) / 64 {
            if c.z == z / 64 || c.z == (z + 1) / 64 {
                let a: int = if c.x == x / 64 { 0 } else { 1 };
                let b: int = if c.y == y / 64 { 0 } else { 1 };
                let d: int = if c.z == z / 64 { 0 } else { 1 };
                let i = 4 * d + 2 * b + a;
                assert(i % 2 == a && (i / 2) % 2 == b && i / 4 == d);
                assert(c == chunk_at(x + i % 2, y + (i / 2) % 2, z + i / 4));
            }
        }
    }
}

/// Only chunks whose fetches are under way are waited for, and all of them.
pub proof fn law_waits_for_those_under_way(keys: Seq<ChunkKey>, states: Seq<ChunkState>, n: nat, key: ChunkKey)
    requires
        n <= keys.len(),
        keys.len() == states.len(),
    ensures
        in_flight(keys, states, n).contains(key) <==> exists|i: int|
            0 <= i < n && #[trigger] keys[i] == key && states[i] is Pending,
    decreases n,
{
    if n > 0 {
        law_waits_for_those_under_way(keys, states, (n - 1) as nat, key);
        let b = in_flight(keys, states, (n - 1) as nat);
        let now = in_flight(keys, states, n);
        if b.contains(key) {
            let j = b.index_of(key);
            assert(now[j] == key);
        }
        if states[n - 1] is Pending && keys[n - 1] == key {
            assert(now[now.len() - 1] == key);
        }
        if now.contains(key) {
            let j = now.index_of(key);
            if j < b.len() {
                assert(b[j] == key);
            }
        }
    }
}

/// A time is shown as its hours, minutes and seconds.
pub proof fn law_clock_shows_the_time(hours: nat, minutes: nat, seconds: nat)
    requires
        minutes < 60,
        seconds < 60,
    ensures
        clock(3600 * hours + 60 * minutes + seconds) == text::padded(hours, 2) + ":"@ + text::padded(
            minutes,
            2,
        ) + ":"@ + text::padded(seconds, 2),
{
    let t = 3600 * hours + 60 * minutes + seconds;
    assert(t / 3600 == hours && (t % 3600) / 60 == minutes && t % 60 == seconds);
}

/// A crop is read as left, top, width and height, in that order.
pub proof fn law_crop_reads_its_numbers(whole: Seq<char>, left: usize, top: usize, width: usize, height: usize)
    ensures
        crop_from(
            seq![
                whole,
                text::decimal(left as nat),
                text::decimal(top as nat),
                text::decimal(width as nat),
                text::decimal(height as nat),
            ],
        ) == Ok::<Crop, CropError>(Crop { left, top, width, height }),
{
    let max = usize::MAX as nat;
    text::law_numeral_reads_back(left as nat, 0, max);
    text::law_numeral_reads_back(top as nat, 0, max);
    text::law_numeral_reads_back(width as nat, 0, max);
    text::law_numeral_reads_back(height as nat, 0, max);
}

/// What is rendered is the crop, and the whole segment where there is none.
pub proof fn law_crop_is_what_is_rendered(p: RenderParams)
    ensures
        p.crop matches Some(c) ==> p.region() == c,
        p.crop is None ==> {
            &&& p.region().left == 0
            &&& p.region().top == 0
            &&& p.region().width == p.width
            &&& p.region().height == p.height
        },
{
}

} // verus!
