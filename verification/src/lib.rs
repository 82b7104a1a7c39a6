//! Resolution and tagging for a track-download pipeline: parsing free-form
//! input lines into typed catalog references, expanding references into a
//! deduplicated set of track identifiers, selecting a downloadable file by
//! a fixed encoding preference with fallback through alternative versions,
//! and rewriting an audio container's comment block in place while keeping
//! every other packet and all framing bit-for-bit.
//!
//! The catalog itself, the transport that fetches records and audio, and
//! all file output are outside collaborators: the resolution engine and
//! the format walk are step machines whose callers perform the lookups,
//! and the rewriter maps a byte buffer to a byte buffer.

pub mod comment;
pub mod formats;
pub mod ids;
pub mod locate;
pub mod packets;
pub mod resolve;
pub mod rewrite;
pub mod tags;
