//! SMDIFF: a simple delta format, its reader, writer, decoder, encoder and merger.
pub mod common;
pub mod writer;
pub mod reader;
pub mod decoder;
pub mod merger;
pub mod encoder;
pub mod analysis;
pub mod vcdiff;
