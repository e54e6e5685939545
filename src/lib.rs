//! Byte-to-event decoding, file tailing book-keeping and pipeline graph
//! logic for a log-ingestion pipeline.
//!
//! - [`buf`]: a byte buffer with read and write cursors.
//! - [`stream`]: byte-to-byte decoders: plain copy and multi-member gzip.
//! - [`frame`]: splitting bytes into frames by a delimiter, with optional
//!   multi-line glue, and why chunking does not change the frames.
//! - [`event`]: events, and frames turned into text events.
//! - [`decoder`]: the whole stack for one source.
//! - [`tailer`]: watched files by identity, round-robin reading decisions.
//! - [`filter`]: fields from named regular expression groups.
//! - [`graph`]: lowering a processing graph, switch routing.
//! - [`retry`], [`signal`], [`metric`], [`value`], [`error`], [`component`]:
//!   backoff, notifications, counters, configuration values, errors.

pub mod buf;
pub mod component;
pub mod decoder;
pub mod error;
pub mod event;
pub mod filter;
pub mod frame;
pub mod graph;
pub mod metric;
pub mod retry;
pub mod signal;
pub mod stream;
pub mod tailer;
pub mod text;
pub mod value;
