//! In-memory engine of a plain-text editor.
//!
//! The document lives in a dual gap buffer that keeps characters and
//! line-boundary records in lockstep (`line_gap_buffer`).  On top of it,
//! `view_state` maintains the cursor, the selection and grouped undo/redo
//! history; `history` holds the mathematical model of that history and the
//! proofs that undo and redo invert each other.  Screen geometry — pixels,
//! scrolling, line shaping — belongs to the host: the engine hands it line
//! spans and cached layout slots, and takes back plain offsets.

pub mod history;
pub mod line_gap_buffer;
pub mod strutil;
pub mod view_state;
