//! Recovery of firmware blobs embedded in a large binary image.
//!
//! The crate is built around three pieces: a fixed-capacity mirrored ring
//! buffer ([`circular_buffer::CircularBuffer`]) that always exposes its
//! window as one contiguous slice, an online byte-pattern matcher
//! ([`pattern::Pattern`]) that signals single occurrences or runs of
//! back-to-back repeats of a configured pattern, and a carving workflow
//! ([`carve::Carver`]) that turns marker-run boundaries found by the matcher
//! into instructions for closing and opening output files.  A small
//! fixed-layout big-endian container header decoder ([`mpfs`]) and the
//! bookkeeping of the diagnostic signature scanner ([`scan`]) round the
//! library off.

pub mod circular_buffer;
pub mod pattern;
pub mod matcher_laws;
pub mod carve;
pub mod mpfs;
pub mod scan;
