//! Globs: patterns that match the paths of files.
pub mod bits;
pub mod distinct;
pub mod ending;
pub mod finding;
pub mod gaps;
pub mod lex;
pub mod matching;
pub mod parse;
pub mod paths;
pub mod pattern;
pub mod plain;
pub mod search;
pub mod separators;
pub mod spelled;
pub mod walk;
pub mod whole;
pub mod wild;
pub mod wildcards;
