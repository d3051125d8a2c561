//! Parsing, validation and case-insensitive comparison of Internet media
//! types such as `image/svg+xml; charset=UTF-8`.
//!
//! A media type is a top-level type, a subtype, an optional `+`-suffix, and a
//! list of key/value parameters.  [`media_type::MediaType`] is a mutable structure built
//! from validated tokens or by parsing; [`media_type_buf::MediaTypeBuf`] owns one string
//! buffer together with a table of byte ranges into it and is immutable.
//! Both compare equal when they denote the same media type regardless of
//! letter case and of the order distinct parameters were written in.
pub mod grammar;
pub mod laws;
pub mod media_type;
pub mod media_type_buf;
pub mod model;
pub mod params;
pub mod parse;
pub mod token;
