//! Building content packs from source files.
pub mod ascii;
pub mod cli;
pub mod file;
pub mod glob;
pub mod grapheme;
pub mod normal;
pub mod order;
pub mod out;
pub mod pack;
pub mod source;
pub mod svg;
pub mod tally;
pub mod text;
pub mod toml;
pub mod utf8;
pub mod world;
