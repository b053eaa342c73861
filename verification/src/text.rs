//! The `application/linkset` text format of RFC 9264 §4.1: parsing and
//! serializing link sets.

pub mod grammar;
pub mod parser;
pub mod decode;
pub mod convert;
pub mod write;
pub mod one_line;
pub mod round_trip;
pub mod round_trip_links;
pub mod round_trip_sets;
