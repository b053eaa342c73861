//! Linkset media types of RFC 9264: a model of typed links grouped by
//! context, with a parser and a serializer for the `application/linkset`
//! text format and for the `application/linkset+json` format.

pub mod error;
pub mod external;
pub mod formats;
pub mod json;
pub mod message;
pub mod model;
pub mod relativizer;
pub mod strs;
pub mod text;


