//! A chunked volume cache, the sampler that reads it, and the renderer and
//! viewer logic that drive it, with every rule stated and proved.
#![allow(unused_imports)]

pub mod atlas;
pub mod atlas_download;
pub mod backfiller;
pub mod bits;
pub mod cache;
pub mod chunk;
pub mod chunk_cache;
pub mod digest;
pub mod disk;
pub mod downloader;
pub mod epoch;
pub mod gui_args;
pub mod index;
pub mod le;
pub mod lifo;
pub mod metadata;
pub mod ome_zarr;
pub mod ome_zarr_v3;
pub mod paint;
pub mod preview;
pub mod purge;
pub mod render;
pub mod remap_config;
pub mod s3_auth;
pub mod sidecar;
pub mod slots;
pub mod spill;
pub mod text;
pub mod tiled_tiff;
pub mod unified;
pub mod upkeep;
pub mod volume;
pub mod volume_pane;
