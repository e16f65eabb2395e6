//! Toolkit for Mini Pearl 512A show files: FAT16 volume parsing, carving of
//! a file that sits contiguously from its start cluster, byte diffing with
//! run grouping, hex-pattern search and hex/ASCII rendering of byte ranges.

pub mod bpb;
pub mod text;
pub mod dir;
pub mod carve;
pub mod diff;
pub mod num;
pub mod find;
pub mod drive;
pub mod hexview;
pub mod inspect;
pub mod laws;
pub mod rules;
