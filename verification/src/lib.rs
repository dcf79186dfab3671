//! Core logic of a zone/doodad level editor: the zone file format with its
//! serializer and parser, zone-name suffix normalization, the doodad manifest
//! with its tag index, and renderable resolution with placeholder fallback.

pub mod codec;
pub mod manifest;
pub mod manifest_codec;
pub mod names;
pub mod resolve;
pub mod scene;
pub mod tags;
pub mod text;
pub mod tools;
pub mod zone_file;
pub mod zones;
