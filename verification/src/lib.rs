//! A verified event formatter: it renders a structured (JSON-like) value
//! into a tagged, human-readable string of the form `Payload: <rendering>`.
//! The rendering is proved lossless: a parser defined over the same
//! mathematical model recovers the original value from the rendered text.

pub mod laws;
pub mod model;
pub mod parse;
pub mod render;

pub use render::format_payload;
