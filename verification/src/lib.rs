//! Line-level diffing and patching of text documents.
//!
//! Given an old and a new sequence of lines, the library finds the runs of
//! identical lines shared by the two sequences (`block`), greedily selects a
//! non-crossing subset of those runs (`select`), derives the edit regions
//! that remain (`delta`), serializes them to a text patch format and parses
//! that format back (`codec`), and replays a patch against the old sequence
//! to reconstruct the new one.
//!
//! The central guarantee, stated on [`document::diff_lines`] and
//! [`document::apply_patch`], is the round trip: applying the patch produced
//! for `(old, new)` to `old` yields exactly `new`.

pub mod block;
pub mod codec;
pub mod delta;
pub mod diff;
pub mod document;
pub mod errors;
pub mod lines;
pub mod numerals;
pub mod patch;
pub mod select;
