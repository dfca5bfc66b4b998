//! The atlas of samples, downloads of segments, and the viewer's arguments.
use vesuvius::atlas::{
    is_json_file, sample_file, AccessRoot, AtlasMetadata, AtlasSample, DataEntry, DataOrigin, Model, Sample,
    Scan, Segment, Table, TransformTo, Volume, VolumeTransforms,
};
use vesuvius::atlas_download::{
    cached_path, obj_cache_path, tifxyz_cache_path, tifxyz_file_name, TifxyzDownload, TifxyzStep,
};
use vesuvius::gui_args::{
    parse_blend_mode, parse_hex_color, parse_overlay_coloring, Args, BlendMode, ColoringError, KnownVolume,
    OverlayColoring, VolumeChoice, DEFAULT_ALPHA,
};

fn s(t: &str) -> String {
    t.to_string()
}

fn data(data_type: &str, path: &str, roots: &[(&str, &str)]) -> DataEntry {
    let access_roots = roots
        .iter()
        .map(|(url, usage)| AccessRoot { root_type: s("https"), url: s(url), usage: s(usage) })
        .collect();
    DataEntry { data_type: s(data_type), origins: vec![DataOrigin { path: s(path), access_roots }] }
}

fn volume(id: &str) -> Volume {
    Volume { id: s(id), sample_id: s("S"), scan_id: s("scan"), data: vec![data("ome-zarr", "/S/vol.zarr/", &[("https://h/", "standard")])] }
}

fn segment(id: &str, from: &str, coverage: Option<&[&str]>) -> Segment {
    Segment {
        id: s(id),
        sample_id: s("S"),
        original_volume_id: s(from),
        width: 10,
        height: 20,
        volume_coverage: coverage.map(|c| c.iter().map(|t| s(t)).collect()),
        data: Vec::new(),
    }
}

fn sample() -> AtlasSample {
    let mut scans = Table::new();
    scans.insert(s("scan"), Scan { id: s("scan"), sample_id: s("S") });
    let mut volumes = Table::new();
    for id in ["v1", "v2", "v3", "v4"] {
        volumes.insert(s(id), volume(id));
    }
    let mut segments = Table::new();
    segments.insert(s("a"), segment("a", "v1", Some(&["v3"])));
    segments.insert(s("b"), segment("b", "v2", None));
    let to = |id: &str, matrix: u64| TransformTo { to_volume_id: s(id), matrix };
    AtlasSample {
        sample: Sample {
            id: s("S"),
            canonical_volume_id: Some(s("v1")),
            volume_transforms: vec![
                VolumeTransforms { from_volume_id: s("v1"), transforms: vec![to("v2", 12), to("v2", 99)] },
                VolumeTransforms { from_volume_id: s("v3"), transforms: vec![to("v4", 34)] },
            ],
        },
        scans,
        volumes,
        segments,
    }
}

#[test]
fn tables_keep_one_item_to_an_id() {
    let mut t = Table::new();
    assert!(!t.contains("a"));
    t.insert(s("a"), 1u64);
    t.insert(s("b"), 2);
    t.insert(s("a"), 3);
    assert_eq!((t.get("a"), t.get("b"), t.get("c")), (Some(&3), Some(&2), None));
}

#[test]
fn a_sample_knows_its_parts() {
    let x = sample();
    assert_eq!(x.get_scan("scan").unwrap().sample_id, "S");
    assert_eq!(x.get_volume("v2").unwrap().id, "v2");
    assert!(x.get_volume("v9").is_none());
    assert_eq!(x.get_segment("b").unwrap().original_volume_id, "v2");
    let ids: Vec<&str> = x.find_segments_for_volume("v1").iter().map(|g| g.id.as_str()).collect();
    assert_eq!(ids, vec!["a"]);
}

#[test]
fn maps_between_volumes() {
    let x = sample();
    assert_eq!(x.get_transform("v1", "v2"), Some(12));
    assert_eq!(x.get_transform("v3", "v4"), Some(34));
    assert_eq!(x.get_transform("v4", "v3"), None);
    assert_eq!(x.get_transform("v1", "v1"), None);
}

#[test]
fn volumes_from_which_a_segment_can_be_rendered() {
    let x = sample();
    let found: Vec<(String, bool)> =
        x.get_volumes_for_segment("a").into_iter().map(|(id, _, covered)| (id, covered)).collect();
    assert_eq!(found, vec![(s("v1"), false), (s("v2"), false), (s("v3"), true)]);
    assert_eq!(x.get_volumes_for_segment("b").len(), 1);
    assert!(x.get_volumes_for_segment("c").is_empty());
    assert!(x.has_coverage("a", "v1"));
    assert!(x.has_coverage("a", "v3"));
    assert!(!x.has_coverage("a", "v2"));
    assert!(!x.has_coverage("c", "v1"));
}

#[test]
fn where_data_is_found() {
    let mut g = segment("a", "v1", None);
    assert_eq!(g.get_obj_url(), None);
    g.data.push(data("obj", "seg/a.obj", &[("https://h/", "download")]));
    assert_eq!(g.get_obj_url(), None);
    g.data.push(data("obj", "seg/b.obj", &[("https://h/", "standard")]));
    let v = volume("v1");
    assert_eq!(v.get_ome_zarr_url().unwrap(), "https://data.aws.ash2txt.org/samples/S/vol.zarr/");
    assert_eq!(g.get_obj_url().unwrap(), "https://data.aws.ash2txt.org/samples/seg/b.obj");
    let atlas = AtlasMetadata::new();
    let e = data("x", "p", &[("https://a/", "one"), ("https://b/", "two"), ("https://c/", "one")]);
    assert_eq!(atlas.get_data_urls(&e, "one"), vec!["https://a/p", "https://c/p"]);
    assert!(atlas.get_data_urls(&e, "three").is_empty());
}

#[test]
fn an_atlas_is_filled() {
    let mut atlas = AtlasMetadata::new();
    assert!(atlas.get_sample("S").is_none());
    atlas.add_sample(s("S"), sample());
    atlas.add_model(Model { id: s("m"), architecture: s("unet"), task: s("ink"), data: Vec::new() });
    assert_eq!(atlas.sample_ids(), vec!["S"]);
    assert_eq!(atlas.get_sample("S").unwrap().sample.id, "S");
    assert_eq!(atlas.models.get("m").unwrap().task, "ink");
    assert_eq!(sample_file("S"), "S.json");
    assert!(is_json_file("a.json"));
    assert!(!is_json_file(".json"));
    assert!(!is_json_file("a.JSON"));
}

#[test]
fn downloaded_segments_have_their_places() {
    assert_eq!(obj_cache_path("/c", "S", "g"), "/c/vesuvius-gui/atlas-segments/S/g.obj");
    assert_eq!(tifxyz_cache_path("/c", "S", "g"), "/c/vesuvius-gui/atlas-segments/S/g");
    let all = [true; 4];
    assert_eq!(cached_path("/c", "S", "g", all, true).unwrap(), tifxyz_cache_path("/c", "S", "g"));
    let some = [true, true, false, true];
    assert_eq!(cached_path("/c", "S", "g", some, true).unwrap(), obj_cache_path("/c", "S", "g"));
    assert_eq!(cached_path("/c", "S", "g", some, false), None);
}

#[test]
fn grids_come_file_by_file() {
    let mut d = TifxyzDownload::begin("https://h/seg//", s("/tmp/g"));
    let mut step = d.step();
    for i in 0..4 {
        match &step {
            TifxyzStep::Fetch { url, path } => {
                assert_eq!(*url, format!("https://h/seg/{}", tifxyz_file_name(i)));
                assert_eq!(*path, format!("/tmp/g/{}", tifxyz_file_name(i)));
            }
            other => panic!("a file is missing: {:?}", other),
        }
        step = d.fetched(true);
    }
    assert!(matches!(step, TifxyzStep::Ready));
    let mut d = TifxyzDownload::begin("https://h/seg", s("/tmp/g"));
    d.fetched(true);
    assert!(matches!(d.fetched(false), TifxyzStep::Failed));
}

#[test]
fn colors_are_read() {
    assert_eq!(parse_hex_color("#FF8001").unwrap(), [255, 128, 1]);
    assert_eq!(parse_hex_color("0a0B0c").unwrap(), [10, 11, 12]);
    assert_eq!(parse_hex_color("#ff").unwrap_err().text().unwrap(), "expected #RRGGBB, got `#ff`");
    assert_eq!(parse_hex_color("#gg0000").unwrap_err().text().unwrap(), "invalid digit found in string");
    assert_eq!(parse_blend_mode("alpha").unwrap(), BlendMode::Alpha);
    assert_eq!(parse_blend_mode("multiply").unwrap(), BlendMode::Multiply);
    assert_eq!(
        parse_blend_mode("add").unwrap_err().text().unwrap(),
        "unknown blend mode `add` (expected alpha / multiply)"
    );
}

/// A coloring, with its parts read as numbers.
fn coloring(t: &str) -> Result<OverlayColoring, ColoringError> {
    let numbers = t.split(':').map(|p| p.parse::<f32>().ok().map(|n| n.to_bits())).collect();
    parse_overlay_coloring(t, &numbers)
}

#[test]
fn colorings_are_read() {
    assert_eq!(f32::from_bits(DEFAULT_ALPHA), 0.4f32);
    match coloring("four-colors").unwrap() {
        OverlayColoring::FourColors { alpha, mode } => {
            assert_eq!((alpha, mode), (DEFAULT_ALPHA, BlendMode::Alpha))
        }
        other => panic!("another kind: {:?}", other),
    }
    match coloring("boolean:#010203:0.5:multiply").unwrap() {
        OverlayColoring::Boolean { color, alpha, mode } => {
            assert_eq!((color, alpha, mode), ([1, 2, 3], 0.5f32.to_bits(), BlendMode::Multiply))
        }
        other => panic!("another kind: {:?}", other),
    }
    match coloring("hue:120:1").unwrap() {
        OverlayColoring::Hue { hue_deg, alpha, mode } => {
            assert_eq!((hue_deg, alpha, mode), (120f32.to_bits(), 1f32.to_bits(), BlendMode::Alpha))
        }
        other => panic!("another kind: {:?}", other),
    }
}

#[test]
fn colorings_that_cannot_be_read() {
    let words = |t: &str| coloring(t).unwrap_err().text();
    assert_eq!(words("boolean").unwrap(), "boolean: needs #RRGGBB color");
    assert_eq!(words("hue").unwrap(), "hue: needs DEG");
    assert!(matches!(coloring("hue:x"), Err(ColoringError::InvalidDegrees(1))));
    assert!(matches!(coloring("four-colors:x"), Err(ColoringError::InvalidAlpha(1))));
    assert!(matches!(coloring("four-colors:1.5"), Err(ColoringError::AlphaOutOfRange(_))));
    assert!(matches!(coloring("four-colors:-0.1"), Err(ColoringError::AlphaOutOfRange(_))));
    assert!(matches!(coloring("four-colors:NaN"), Err(ColoringError::AlphaOutOfRange(_))));
    assert!(matches!(coloring("four-colors:0.5:x"), Err(ColoringError::UnknownMode(_))));
    assert_eq!(
        words("red").unwrap(),
        "unknown overlay coloring `red` (expected four-colors / boolean / hue)"
    );
}

fn args(volume: Option<Option<&str>>) -> Args {
    Args {
        data_directory: Some(s("/d")),
        obj: None,
        tifxyz: Some(s("grids")),
        width: None,
        height: None,
        transform: None,
        ortho_xz: true,
        invert_transform: false,
        overlay: None,
        overlay_coloring: None,
        volume: volume.map(|v| v.map(s)),
        atlas: None,
    }
}

#[test]
fn volumes_are_chosen() {
    let known = vec![KnownVolume { id: s("1"), label: s("One") }, KnownVolume { id: s("2"), label: s("Two") }];
    assert!(matches!(args(None).volume_choice(&known, false), Ok(None)));
    assert_eq!(args(Some(None)).volume_choice(&known, false).unwrap_err(), "Volumes:\n1 -> One\n2 -> Two");
    match args(Some(Some("https://h/v"))).volume_choice(&known, true) {
        Ok(Some(VolumeChoice::Url(u))) => assert_eq!(u, "https://h/v"),
        other => panic!("not by URL: {:?}", other),
    }
    assert!(matches!(args(Some(Some("2"))).volume_choice(&known, true), Ok(Some(VolumeChoice::Path(_)))));
    assert!(matches!(args(Some(Some("2"))).volume_choice(&known, false), Ok(Some(VolumeChoice::Known(1)))));
    assert!(args(Some(Some("3")))
        .volume_choice(&known, false)
        .unwrap_err()
        .starts_with("Error: Volume 3 not found. Use one of:\n1 -> One\n2 -> Two\n\nOr provide:"));
}

#[test]
fn arguments_become_a_configuration() {
    let c = args(None).into_config(Ok(Some(7)), Ok(Some(9))).unwrap();
    assert_eq!((c.data_dir, c.volume), (Some(s("/d")), Some(7)));
    assert_eq!(c.tifxyz_dir, Some((s("grids"), Some(9))));
    assert!(c.obj_file.is_none());
    let mut a = args(None);
    a.obj = Some(s("m.obj"));
    assert_eq!(
        a.into_config(Ok(None), Ok(None)).unwrap_err(),
        "Error: You need to provide --width and --height when using --obj"
    );
    let mut a = args(None);
    a.obj = Some(s("m.obj"));
    a.width = Some(3);
    a.height = Some(4);
    let o = a.into_config(Ok(None), Ok(None)).unwrap().obj_file.unwrap();
    assert_eq!((o.obj_file.as_str(), o.width, o.height, o.ortho_xz), ("m.obj", 3, 4, true));
    assert_eq!(args(None).into_config(Err(s("no volume")), Err(s("no map"))).unwrap_err(), "no volume");
    assert_eq!(args(None).into_config(Ok(None), Err(s("no map"))).unwrap_err(), "no map");
}
