//! A raw-device file-carving engine.
//!
//! Given the raw byte stream of a block device or disk image, the engine
//! scans for known file-type signatures, validates each header hit with a
//! type-specific probe check, and reconstructs every confirmed candidate
//! into a byte count and a recovery-quality verdict.  The scan walks the
//! device in fixed-size chunks, carries the last `max header length - 1`
//! bytes across chunk boundaries so that split headers are still found,
//! and deduplicates detections by absolute offset.

pub mod laws;
pub mod reconstruct;
pub mod registry;
pub mod scan;
pub mod validate;
