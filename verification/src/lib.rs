//! Reads a TrueType or OpenType font, or a collection of such fonts, changes
//! the tables that keep rendering engines from drawing its glyphs smoothly,
//! and writes the font again.
//!
//! The reader ([`ttc_reader`]) turns the bytes of a file into a container
//! ([`types`]), the functions of [`modify`] change the container in place,
//! and the writer ([`ttc_writer`]) turns it into the bytes of a file, which
//! [`layout`] describes. [`pipeline`] does all of this in one go. [`laws`]
//! and [`round_trip`] state what holds of these together.

pub mod bytes;
pub mod checksum;
pub mod glyph;
pub mod laws;
pub mod layout;
pub mod modify;
pub mod notes;
pub mod outlines;
pub mod pipeline;
pub mod round_trip;
pub mod tables;
pub mod tag;
pub mod ttc_reader;
pub mod ttc_writer;
pub mod types;
