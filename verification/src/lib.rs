//! Conversion core for turning Stockfish binpack training entries into the
//! HDF5 `sparse_v1` layout: entry filtering, HalfP feature encoding, the
//! per-split position buffers and the bookkeeping that lays flushed chunks
//! out on disk.

pub mod config;
pub mod chess;
pub mod encoding;
pub mod filter;
pub mod pipeline;
pub mod h5_writer;
