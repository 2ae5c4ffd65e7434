//! Vector map tiles: the archive format, the baking rules and the serving rules.
#![allow(unused_imports)]

pub mod archive;
pub mod archive_content;
pub mod auth;
pub mod bake_args;
pub mod clip;
pub mod codec;
pub mod command_line;
pub mod config;
pub mod csv_layer;
pub mod demo;
pub mod directory;
pub mod error;
pub mod estimate;
pub mod extent;
pub mod feature_store;
pub mod feature_text;
pub mod fields;
pub mod fixture;
pub mod geometry;
pub mod header;
pub mod human;
pub mod ingest;
pub mod inspect;
pub mod json_text;
pub mod le;
pub mod manifest;
pub mod mbtiles;
pub mod number;
pub mod order;
pub mod packing;
pub mod pipeline;
pub mod placement;
pub mod pmtiles;
pub mod prepare;
pub mod progress;
pub mod props;
pub mod sample_sums;
pub mod server;
pub mod spatial;
pub mod text;
pub mod tile_content;
pub mod tile_encode;
pub mod tile_id;
pub mod tile_writer;
pub mod tilejson;
pub mod tiling;
pub mod varint;
pub mod views;
pub mod wkb;
pub mod writer;
