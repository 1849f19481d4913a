//! A verified preprocessing pipeline for a terse file-search filter
//! notation: word boolean operators are normalized, byte-size number
//! suffixes are expanded, natural-language date arguments are resolved
//! to Unix timestamps, and glob arguments are compiled into an indexed
//! pattern table, before the rewritten text is assembled into a small
//! function source handed to an expression engine.

pub mod ascii;
pub mod command;
pub mod dates;
pub mod decimal;
pub mod errors;
pub mod filter;
pub mod globs;
pub mod numbers;
pub mod quick;
pub mod scan;
pub mod tokens;
pub mod words;
