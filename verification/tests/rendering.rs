//! Rendering segments: options, tiles, files and their records.
use std::io::Cursor;
use tiff::decoder::{Decoder, DecodingResult};
use tiff::encoder::{TiffEncoder, TiffKind, TiffKindBig, TiffKindStandard};
use tiff::tags::Tag;
use vesuvius::chunk::{ChunkKey, ChunkState};
use vesuvius::metadata::{
    describe_file, encode_with_metadata, inject_jpeg_comment, source_info, target_format, trim_end_slashes,
    SourceKind, TargetFormat, METADATA_KEYWORD,
};
use vesuvius::paint::Image;
use vesuvius::render::{
    crop_of_groups, ensure_turn, format_elapsed, given_by_url, parse_crop, still_pending, AlphaArgs, Args,
    ArgsError, CompositeModeArg, CompositingMode, CompositingSettings, Crop, CropError, EnsureTurn,
    RenderParams, SegmentSource, TileChunks, UVTile, VolumeChunk,
};
use vesuvius::tiled_tiff::{
    baseline_tags, needs_bigtiff, TagValue, TiffError, TileGray, TileLedger,
};

fn ramp_picture() -> Image {
    Image { width: 8, height: 4, pixels: (0..32).map(|i| (i * 7) as u8).collect() }
}

fn roundtrip(format: &str) {
    let image = ramp_picture();
    let meta = "{\"git_revision\":\"abc123\",\"hello\":\"world\"}";
    let bytes = encode_with_metadata(&image, format, meta).unwrap().unwrap();
    assert!(
        bytes.windows(meta.len()).any(|w| w == meta.as_bytes())
            || (format == "png"
                && bytes.windows(METADATA_KEYWORD.len()).any(|w| w == METADATA_KEYWORD.as_bytes())),
        "metadata not embedded in {} output",
        format
    );
    let decoded = image::load_from_memory(&bytes).unwrap().to_luma8();
    assert_eq!(decoded.dimensions(), (8, 4));
    assert_eq!(decoded.as_raw(), &image.pixels, "{} pixels altered", format);
}

#[test]
fn png_embeds_metadata_and_preserves_pixels() {
    roundtrip("png");
}

#[test]
fn tiff_embeds_metadata_and_preserves_pixels() {
    roundtrip("tiff");
}

#[test]
fn a_tiff_tells_its_byte_order() {
    let bytes = encode_with_metadata(&ramp_picture(), "tif", "{}").unwrap().unwrap();
    assert!(&bytes[..2] == b"II" || &bytes[..2] == b"MM");
    assert!(encode_with_metadata(&ramp_picture(), "tif", "\u{e9}").unwrap().is_err());
}

#[test]
fn jpeg_embeds_comment() {
    let image = Image { width: 8, height: 4, pixels: vec![0; 32] };
    let meta = "{\"git_revision\":\"abc123\"}";
    let bytes = encode_with_metadata(&image, "jpeg", meta).unwrap().unwrap();
    assert_eq!(&bytes[..2], &[0xFF, 0xD8], "not a JPEG");
    assert_eq!(&bytes[2..4], &[0xFF, 0xFE], "COM segment not right after SOI");
    assert!(bytes.windows(meta.len()).any(|w| w == meta.as_bytes()));
    image::load_from_memory(&bytes).unwrap();
}

#[test]
fn pictures_that_cannot_be_encoded() {
    let wide = Image { width: 0x1_0000, height: 1, pixels: vec![0; 0x1_0000] };
    assert!(encode_with_metadata(&wide, "jpg", "r").unwrap().is_err());
    assert!(encode_with_metadata(&ramp_picture(), "tif", "\u{e9}").unwrap().is_err());
    assert!(encode_with_metadata(&ramp_picture(), "bmp", "r").is_none());
    assert!(encode_with_metadata(&ramp_picture(), "tif", "a\0b").unwrap().is_err());
    assert!(encode_with_metadata(&ramp_picture(), "png", "\u{e9}").unwrap().is_ok());
    assert!(encode_with_metadata(&ramp_picture(), "png", "\u{100}").unwrap().is_err());
    for (width, height) in [(8, 0), (0, 8)] {
        let empty = Image { width, height, pixels: Vec::new() };
        for format in ["png", "tif", "jpg"] {
            assert!(encode_with_metadata(&empty, format, "r").unwrap().is_err());
        }
    }
}

#[test]
fn comments_stand_behind_the_first_marker() {
    assert_eq!(inject_jpeg_comment(vec![0xFF, 0xD8, 9], b"ab"), vec![0xFF, 0xD8, 0xFF, 0xFE, 0, 4, 97, 98, 9]);
    assert_eq!(inject_jpeg_comment(vec![1, 2, 3], b"ab"), vec![1, 2, 3]);
    let long = inject_jpeg_comment(vec![0xFF, 0xD8], &vec![7; 70_000]);
    assert_eq!(long.len(), 6 + 0xFFFD);
    assert_eq!(&long[4..6], &[0xFF, 0xFF]);
}

#[test]
fn extensions_in_any_case() {
    assert_eq!(target_format("PNG"), TargetFormat::Png);
    assert_eq!(target_format("Tif"), TargetFormat::Tiff);
    assert_eq!(target_format("tiff"), TargetFormat::Tiff);
    assert_eq!(target_format("jpeg"), TargetFormat::Jpeg);
    assert_eq!(target_format("bmp"), TargetFormat::Other);
}

#[test]
fn sources_of_a_segment() {
    let s = source_info(Some("a.obj"), Some("d"));
    assert_eq!((s.kind, s.files), (SourceKind::Obj, vec!["a.obj".to_string()]));
    let s = source_info(None, Some("d//"));
    assert_eq!(s.kind.name(), "tifxyz");
    assert_eq!(s.files, vec!["d/meta.json", "d/x.tif", "d/y.tif", "d/z.tif"]);
    let s = source_info(None, None);
    assert_eq!((s.kind.name(), s.files.len()), ("none", 0));
    assert_eq!(trim_end_slashes("/a//"), vec!['/', 'a']);
}

#[test]
fn files_are_known_by_their_digest() {
    let f = describe_file("x", Some("/full/x"), Some(3), Some(b"abc"));
    assert_eq!((f.path.as_str(), f.bytes), ("/full/x", Some(3)));
    assert_eq!(
        f.sha256.unwrap(),
        "ba7816bf8f01cfea414140de5dae2223b00361a396177a9cb410ff61f20015ad"
    );
    let f = describe_file("x", None, None, None);
    assert_eq!((f.path.as_str(), f.bytes, f.sha256), ("x", None, None));
}

fn pixel(gx: usize, gy: usize) -> u8 {
    ((gx * 7 + gy * 13) % 251) as u8
}

fn tiles(width: usize, height: usize, tile_size: usize) -> Vec<TileGray> {
    let across = width.div_ceil(tile_size);
    let down = height.div_ceil(tile_size);
    let mut out = Vec::new();
    for row in 0..down {
        for col in 0..across {
            let mut data = vec![0u8; tile_size * tile_size];
            for ly in 0..tile_size {
                for lx in 0..tile_size {
                    data[ly * tile_size + lx] = pixel(col * tile_size + lx, row * tile_size + ly);
                }
            }
            out.push(TileGray { col, row, data });
        }
    }
    out
}

/// Writes a tiled file to memory, tile by tile.
fn encode<K: TiffKind>(
    width: usize,
    height: usize,
    tile_size: usize,
    description: &str,
    tiles: Vec<TileGray>,
) -> Result<Vec<u8>, TiffError> {
    let mut ledger = TileLedger::new(width, height, tile_size)?;
    let mut file = Cursor::new(Vec::new());
    let mut encoder = TiffEncoder::<_, K>::new_generic(&mut file).unwrap();
    let mut dir = encoder.image_directory().unwrap();
    for tile in tiles {
        let place = ledger.check(&tile)?;
        let offset = dir.write_data(tile.data.as_slice()).unwrap();
        ledger.record(place, offset);
    }
    let (offsets, counts) = ledger.finish()?;
    let offsets: Vec<K::OffsetType> = offsets.into_iter().map(|o| K::convert_offset(o).unwrap()).collect();
    for (tag, value) in baseline_tags(width, height, tile_size) {
        let tag = Tag::from_u16_exhaustive(tag);
        match value {
            TagValue::Short(v) => dir.write_tag(tag, v).unwrap(),
            TagValue::Long(v) => dir.write_tag(tag, v).unwrap(),
        }
    }
    dir.write_tag(Tag::TileOffsets, K::convert_slice(&offsets)).unwrap();
    dir.write_tag(Tag::TileByteCounts, counts.as_slice()).unwrap();
    dir.write_tag(Tag::ImageDescription, description).unwrap();
    dir.finish().unwrap();
    Ok(file.into_inner())
}

fn roundtrip_check(bytes: Vec<u8>, width: usize, height: usize) {
    let mut dec = Decoder::new(Cursor::new(bytes)).unwrap();
    assert_eq!(dec.dimensions().unwrap(), (width as u32, height as u32));
    let data = match dec.read_image().unwrap() {
        DecodingResult::U8(v) => v,
        other => panic!("expected U8, got {:?}", std::mem::discriminant(&other)),
    };
    assert_eq!(data.len(), width * height, "decoded sample count clipped to image size");
    for gy in 0..height {
        for gx in 0..width {
            assert_eq!(data[gy * width + gx], pixel(gx, gy), "mismatch at ({gx},{gy})");
        }
    }
}

#[test]
fn ragged_edges_roundtrip() {
    let (w, h, ts) = (40usize, 24usize, 16usize);
    let mut t = tiles(w, h, ts);
    t.reverse();
    assert!(!needs_bigtiff(w, h));
    roundtrip_check(encode::<TiffKindStandard>(w, h, ts, "meta", t).unwrap(), w, h);
}

#[test]
fn bigtiff_offsets_roundtrip() {
    let (w, h, ts) = (48usize, 32usize, 16usize);
    roundtrip_check(encode::<TiffKindBig>(w, h, ts, "meta", tiles(w, h, ts)).unwrap(), w, h);
}

#[test]
fn rejects_unaligned_tile_size() {
    let err = encode::<TiffKindStandard>(20, 20, 20, "m", Vec::new());
    assert!(err.is_err(), "tile_size not a multiple of 16 must be rejected");
    assert_eq!(
        err.unwrap_err().text(),
        "tiled TIFF requires tile_size to be a positive multiple of 16, got 20"
    );
}

#[test]
fn rejects_missing_tiles() {
    let mut one = tiles(40, 24, 16);
    one.truncate(1);
    let err = encode::<TiffKindStandard>(40, 24, 16, "m", one);
    assert!(err.is_err(), "incomplete tile set must be rejected");
    assert_eq!(err.unwrap_err().text(), "tiled TIFF incomplete: wrote 1 of 6 tiles for 40x24 image");
}

#[test]
fn tiles_that_do_not_fit_are_refused() {
    let ledger = TileLedger::new(40, 24, 16).unwrap();
    let short = TileGray { col: 9, row: 0, data: vec![0; 255] };
    assert_eq!(ledger.check(&short).unwrap_err().text(), "tile (9,0) has 255 bytes, expected 256 (16x16)");
    let outside = TileGray { col: 3, row: 0, data: vec![0; 256] };
    assert_eq!(ledger.check(&outside).unwrap_err().text(), "tile (3,0) out of range 3x2");
    let last = TileGray { col: 2, row: 1, data: vec![0; 256] };
    assert_eq!(ledger.check(&last), Ok(5));
}

#[test]
fn a_tile_that_comes_twice_counts_once() {
    let mut ledger = TileLedger::new(32, 16, 16).unwrap();
    ledger.record(0, 8);
    ledger.record(0, 500);
    ledger.record(1, 264);
    assert_eq!(ledger.finish(), Ok((vec![500, 264], vec![256, 256])));
}

#[test]
fn large_pictures_get_long_offsets() {
    assert!(!needs_bigtiff(0x8000, 0xFFFF));
    assert!(needs_bigtiff(0x8000, 0x1_0000));
    assert!(needs_bigtiff(usize::MAX, usize::MAX));
}

#[test]
fn crops_are_read() {
    assert_eq!(parse_crop("10+20-300x400"), Ok(Crop { top: 20, left: 10, width: 300, height: 400 }));
    assert_eq!(parse_crop("at 1+2-3x4."), Ok(Crop { top: 2, left: 1, width: 3, height: 4 }));
    assert_eq!(parse_crop("10x20"), Err(CropError::Unmatched));
    assert_eq!(parse_crop("99999999999999999999+0-1x1"), Err(CropError::Unrepresentable));
    let groups: Vec<String> = ["5+6-7x8", "5", "6", "7", "8"].iter().map(|s| s.to_string()).collect();
    assert_eq!(crop_of_groups(&groups), Ok(Crop { top: 6, left: 5, width: 7, height: 8 }));
    assert_eq!(crop_of_groups(&Vec::new()), Err(CropError::Unrepresentable));
}

fn no_alpha() -> AlphaArgs {
    AlphaArgs {
        composite_mode: None,
        enable_alpha: false,
        composite_layers_in_front: None,
        composite_layers_behind: None,
        alpha_min: None,
        alpha_max: None,
        alpha_threshold: None,
        opacity: None,
        overlay_background: None,
        overlay_value_norm: None,
        composite_reverse_direction: false,
    }
}

fn no_args() -> Args {
    Args {
        obj: None,
        tifxyz: None,
        width: None,
        height: None,
        transform: None,
        ortho_xz: false,
        invert_transform: false,
        scale_uv_by_transform: false,
        target_dir: "out".to_string(),
        middle_layer: None,
        min_layer: None,
        max_layer: None,
        crop: None,
        target_format: None,
        volume: None,
        overlay: None,
        data_directory: None,
        tile_size: None,
        render_concurrency: None,
        prefetch_depth: None,
        cache_cap_gb: None,
        worker_threads: None,
        progress_interval: None,
        alpha: no_alpha(),
    }
}

fn defaults() -> CompositingSettings {
    CompositingSettings {
        mode: CompositingMode::Single,
        layers_in_front: 8,
        layers_behind: 9,
        alpha_min: 1,
        alpha_max: 2,
        alpha_threshold: 3,
        opacity: 4,
        overlay_background: 5,
        overlay_value_norm: 6,
        reverse_direction: false,
    }
}

#[test]
fn what_is_wrong_with_options() {
    let mut a = no_args();
    assert_eq!(a.segment_source(), Err(ArgsError::SegmentMissing));
    a.obj = Some("m.obj".to_string());
    assert_eq!(a.segment_source(), Err(ArgsError::SizeMissing));
    a.width = Some(3);
    a.height = Some(4);
    assert_eq!(a.segment_source(), Ok(SegmentSource::Obj { width: 3, height: 4 }));
    a.tifxyz = Some("d".to_string());
    assert_eq!(a.segment_source(), Ok(SegmentSource::TifXyz));
    assert_eq!((a.obj_path(), a.tifxyz_path()), (Some("m.obj"), Some("d")));
    assert_eq!(a.volume_arg(), Err(ArgsError::VolumeMissing));
    a.volume = Some("v".to_string());
    assert_eq!(a.volume_arg(), Ok("v"));
    assert_eq!(a.check_overlay(), Ok(()));
    a.alpha.composite_mode = Some(CompositeModeArg::AlphaOverlayStart);
    let e = a.check_overlay().unwrap_err();
    assert_eq!(e, ArgsError::OverlayMissing(CompositingMode::AlphaOverlayStart));
    assert_eq!(
        e.text(),
        "compositing mode AlphaOverlayStart requires an overlay; pass --overlay <ome-zarr url or path>"
    );
    a.overlay = Some("o".to_string());
    assert_eq!(a.check_overlay(), Ok(()));
    assert_eq!(ArgsError::SizeMissing.text(), "--width and --height are required when using --obj");
    assert_eq!(ArgsError::SegmentMissing.text(), "one of --obj or --tifxyz is required");
    assert_eq!(ArgsError::VolumeMissing.text(), "--volume <ome-zarr url or local path> is required");
}

#[test]
fn options_have_defaults() {
    let mut a = no_args();
    a.alpha.enable_alpha = true;
    a.alpha.alpha_max = Some(200);
    let p = RenderParams::from_args(&a, defaults(), 6);
    assert_eq!((p.width, p.height, p.tile_size), (0, 0, 1024));
    assert_eq!((p.min_layer, p.max_layer, p.mid_layer), (25, 41, 32));
    assert_eq!((p.target_dir.as_str(), p.target_format.as_str()), ("out", "png"));
    assert_eq!((p.render_concurrency, p.prefetch_depth), (6, 4));
    assert_eq!(p.compositing.mode, CompositingMode::Alpha);
    assert_eq!((p.compositing.alpha_min, p.compositing.alpha_max), (1, 200));
    assert_eq!(p.layer_path(7), "out/07.png");
    assert_eq!(p.ensure_concurrency(), 10);
    assert_eq!(a.blocking_threads(6), 12);
    a.worker_threads = Some(3);
    assert_eq!(a.blocking_threads(6), 3);
    assert_eq!(a.plain_progress(true), None);
    assert_eq!(a.plain_progress(false), Some(5));
    a.progress_interval = Some(0);
    assert_eq!(a.plain_progress(false), None);
    a.progress_interval = Some(9);
    assert_eq!(a.plain_progress(true), Some(9));
    assert_eq!(CompositeModeArg::Max.mode().name(), "Max");
}

#[test]
fn a_layer_is_cut_into_tiles_and_put_together() {
    let mut a = no_args();
    a.crop = Some(Crop { top: 10, left: 20, width: 40, height: 20 });
    a.tile_size = Some(32);
    a.min_layer = Some(3);
    a.max_layer = Some(4);
    let p = RenderParams::from_args(&a, defaults(), 1);
    let t = p.uv_tiles();
    let at = |u: usize, v: usize, w: usize| UVTile { u, v, w };
    assert_eq!(t, vec![at(20, 10, 3), at(52, 10, 3), at(20, 10, 4), at(52, 10, 4)]);
    assert_eq!(p.tile_position(t[1]), [68, 26, -29]);
    assert_eq!(p.render_region(), Crop { top: 10, left: 20, width: 40, height: 20 });
    let made = vec![(t[0], vec![1; 32 * 32]), (t[1], vec![2; 32 * 32])];
    let image = p.layer_from_tiles(&made);
    assert_eq!((image.width, image.height), (40, 20));
    for y in 0..20 {
        for x in 0..40 {
            assert_eq!(image.pixels[y * 40 + x], if x < 32 { 1 } else { 2 });
        }
    }
    let half = p.layer_from_tiles(&vec![(t[1], vec![2; 32 * 32])]);
    assert_eq!((half.pixels[31], half.pixels[32]), (0, 2));
}

#[test]
fn the_chunks_of_a_tile() {
    let mut c = TileChunks::new();
    c.sample(0, 0, 0);
    c.sample(63, 63, 63);
    c.sample_interpolated(70, 1, 1);
    c.sample_interpolated(63, 0, 0);
    c.add_tile(VolumeChunk { x: 0, y: 0, z: 5 });
    assert_eq!(c.keys(), vec![ChunkKey::new(0, 0, 0, 0), ChunkKey::new(0, 0, 0, 5), ChunkKey::new(0, 1, 0, 0)]);
    c.sample_interpolated(63, 63, 63);
    assert_eq!(c.keys().len(), 9);
    let far = VolumeChunk { x: 0x1_0000_0007, y: 0, z: 0 };
    assert_eq!(far.key(), ChunkKey::new(0, 7, 0, 0));
}

#[test]
fn tiles_wait_for_their_chunks() {
    let keys = vec![ChunkKey::new(0, 1, 0, 0), ChunkKey::new(0, 2, 0, 0), ChunkKey::new(0, 3, 0, 0)];
    let states = vec![
        ChunkState::Empty,
        ChunkState::Pending { last_touched_frame: 0 },
        ChunkState::Missing,
    ];
    assert_eq!(still_pending(&keys, &states), vec![keys[1]]);
    assert_eq!(ensure_turn(0, 999_999), EnsureTurn::Done);
    assert_eq!(ensure_turn(2, 299_999), EnsureTurn::Sleep { ms: 5 });
    assert_eq!(ensure_turn(2, 300_000), EnsureTurn::GiveUp { pending: 2 });
}

#[test]
fn times_and_places() {
    assert_eq!(format_elapsed(0), "00:00:00");
    assert_eq!(format_elapsed(3_725), "01:02:05");
    assert_eq!(format_elapsed(360_000), "100:00:00");
    assert!(given_by_url("https://x/y"));
    assert!(given_by_url("http://x"));
    assert!(!given_by_url("httpd/data"));
    assert!(!given_by_url("/http://x"));
}
