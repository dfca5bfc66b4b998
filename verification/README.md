# vesuvius

A verified library for looking at scanned volumes that are too large to hold:
chunks of voxels are fetched on demand, kept on disk, sampled and painted.

- `src/` is the library. Every function states what it returns or changes, and
  Verus proves it.
  - The cache: `cache`, `chunk_cache`, `unified`, `disk`, `sidecar`, `epoch`,
    `purge`, `spill`, `lifo`, `slots`, `upkeep`, `downloader`, `backfiller`,
    `ome_zarr`, `ome_zarr_v3`, `preview`, `s3_auth`.
  - Reading voxels: `volume`, `paint`, `volume_pane`.
  - Rendering and pictures: `render`, `metadata`, `tiled_tiff`.
  - The atlas of known volumes and the settings: `atlas`, `atlas_download`,
    `gui_args`, `remap_config`.
  - Small things that the others share: `bits`, `chunk`, `digest`, `index`,
    `le`, `text`.
- `tests/` runs the library on concrete values.
- `app/` is a command line program around it: files, the network, threads.

The library does no I/O. What would need it is cut in two: a `begin_` function
says what is to be read or written, and an `end_` function takes the answer.
Time comes in as a number. A position is fixed point with 32 fraction bits.

What the library takes on trust are the calls into other crates. Each stands in
a small function of its own, whose comment says what is believed of the call.
