//! Flat OpenStreetMap archives: deduplicating string and tag pools, dense
//! id remapping, the entity serializers of the compiler, and tag lookups over
//! a compiled archive.

pub mod args;
pub mod blob;
pub mod builder;
pub mod compile;
pub mod hashmaps;
pub mod ids;
pub mod laws;
pub mod ordered;
pub mod osm;
pub mod osmpbf;
pub mod plan;
pub mod protobuf;
pub mod stats;
pub mod strings;
pub mod tags;
