//! Conversion of structured data between serialized formats, by way of one
//! value type that every format is read into and written from.
//!
//! A codec reports a document as a run of [`event::Event`]s;
//! [`decode::decode`] builds the [`variant::Variant`] that they stand for,
//! and [`encode::encode`] turns a value back into events for the codec of
//! the format to write. What the two do is stated over mathematical models
//! of values and events and proved; [`laws`] holds what follows for any
//! value: that decoding undoes encoding, that no number changes its width,
//! and that the entries of a mapping keep their order.

pub mod decode;
pub mod encode;
pub mod error;
pub mod event;
pub mod extent;
pub mod format;
pub mod laws;
pub mod normal;
pub mod ordered;
pub mod plan;
pub mod text;
pub mod variant;
