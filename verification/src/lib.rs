//! Conversion between byte offsets and line-column positions for a text
//! that is read from a forward-only byte source, chunk by chunk and no
//! further than a query needs.
//!
//! * [`text`] is the model: the line starts of a sequence of bytes, and the
//!   line and column of an offset in it.
//! * [`location`] holds the values that are converted: offsets, and
//!   positions counted from zero or from one.
//! * [`source`] says what a byte source is, and gives two: a slice in
//!   memory, and a pipe that is filled from outside.
//! * [`stream`] is the converter: a source with the table of the line
//!   starts found so far.
//! * [`cost`] counts the scan steps that reading takes.
//!
//! Only the line feed ends a line; a carriage return is a byte like any
//! other.

pub mod cost;
pub mod location;
pub mod source;
pub mod stream;
pub mod text;
