//! Decoder for broadcast navigation messages in the RINEX navigation text
//! format (versions 2 to 4, multi-constellation), together with the
//! epoch-series quality summaries built on the decoded records.
//!
//! Numeric fields are kept as their exact source tokens, normalized to the
//! standard exponent marker, so that every decoding step has a precise
//! byte-level meaning; turning a token into machine floating point is left
//! to the (unverified) callers.

pub mod constellation;
pub mod eopmessage;
pub mod ephemeris;
pub mod epoch;
pub mod orbits;
pub mod sampling;
pub mod sv;
pub mod text;
pub mod version;
