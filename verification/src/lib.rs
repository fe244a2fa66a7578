//! Parallel streaming aggregation engine for `key;temperature` text.
//!
//! The input is one contiguous byte buffer holding lines of the form
//! `<station>;<value>\n`, where the value is a signed fixed-point decimal
//! with exactly one fractional digit. The engine splits the buffer into
//! record-aligned chunks, aggregates each chunk into a per-key table of
//! (min, sum, count, max) statistics over the value scaled by ten, merges
//! the per-chunk tables with a commutative and associative reduction, and
//! renders the final table sorted by key.
//!
//! Malformed records (no separator, empty key, or a value outside the
//! fixed-point grammar) are skipped; this policy is part of the contracts.

pub mod aggregate;
pub mod chunks;
pub mod format;
pub mod hash;
pub mod lex;
pub mod model;
pub mod parse;
pub mod render;
pub mod scan;
pub mod table;
