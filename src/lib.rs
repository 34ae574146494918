//! Muxing of compressed audio and video frames into a WebM (EBML) document.
//!
//! `ebml` holds the element encoding and decoding, `io` the position-addressed
//! destination and source, and `mux` the segment: track registry, clusters
//! of blocks, cue index and finalization.
pub mod ebml;
pub mod io;
pub mod mux;
pub mod parser;
