//! A tool for reasoning about breaking changes in Rust ecosystems.
//!
//! Each module reads or writes a custom text format. Text is first read into a
//! flat stream of meta data (start node, end node and named properties), which
//! the conversion functions then turn into data.
pub mod meta;
pub mod text;
pub mod dependencies;
pub mod extract;
pub mod update;
pub mod reader;
pub mod cargo_toml;
pub mod todo;
pub mod roundtrip;
