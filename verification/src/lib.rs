//! Audits localization catalogs against the translation keys used in source code.
//!
//! The scanner finds the keys that source text uses, the parser reads the keys that catalog
//! files define, and the analyzer compares the two: keys that are defined and never used, keys
//! that are used and not defined in some language, and keys that are built at run time. The
//! actions rewrite catalogs, to the keys in use or to one order of keys for all languages.
//!
//! Nothing here touches the file system: files come in as paths with their text, and go out the
//! same way. Regular expressions and the three file formats are the work of other crates; the
//! modules `pattern` and `codec` hold the calls and say what is taken on trust.

pub mod actions;
pub mod analyzer;
pub mod catalog;
pub mod codec;
pub mod config;
pub mod error;
pub mod flat;
pub mod parser;
pub mod paths;
pub mod pattern;
pub mod round_trip;
pub mod scanner;
pub mod text;
