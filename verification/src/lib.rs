//! An embedded time-series storage engine: a Gorilla bit-stream codec, an
//! in-memory write buffer, immutable compressed segments and the engine that
//! merges them, with every operation specified and proved.
//!
//! Values are `f64` readings carried as the 64 bits of their IEEE-754
//! representation. The engine does no I/O: segments are values, and the
//! engine records in a journal what their files must follow.

pub mod bit_io;
pub mod bits;
pub mod compression;
pub mod engine;
pub mod laws;
pub mod memtable;
pub mod merge;
pub mod merge_laws;
pub mod models;
pub mod paths;
pub mod round_trip;
pub mod seq_lemmas;
pub mod series;
pub mod sstable;
pub mod wire;

pub use bit_io::{GorillaBitReader, GorillaBitWriter};
pub use compression::{
    compress_samples, decompress_samples, GorillaCompressor, GorillaDecompressor,
};
pub use engine::{DatabaseStats, FileAction, TimeSeriesDB};
pub use memtable::{Memtable, SeriesBucket};
pub use merge::merge_by_timestamp;
pub use models::{
    summarize, tally_batch, ApiResponse, BatchOutcome, CompactRequest, ErrorResponse,
    QueryRequest, SeriesListResponse, SeriesSummary,
};
pub use paths::segment_path;
pub use series::{keep_last_copies, DataPoint, SeriesData};
pub use sstable::{SSTable, SegmentError};
pub use wire::{
    blocks_of_rows, decode_segment, encode_segment, rows_of_blocks, BlockRow, WireError,
};
