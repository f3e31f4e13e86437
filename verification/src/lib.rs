//! Bounded-memory forensic event capture: rolling ring buffers for recent
//! telemetry, a block-compression codec for snapshots, and deterministic
//! trigger-tagged artifact naming.

pub mod blob_ring;
pub mod codec;
pub mod errors;
pub mod events;
pub mod raw_ring;
pub mod trigger;

pub use blob_ring::RingBuffer as BlobRingBuffer;
pub use codec::{compress_raw, decompress_raw};
pub use errors::CodecError;
pub use events::{encode_events, fastlog_compress_json, fastlog_decompress_json, parse_events, JsonEvent};
pub use raw_ring::RingBuffer as RawRingBuffer;
pub use trigger::{trigger_flush, UtcStamp};
