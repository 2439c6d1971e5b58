//! A MIDI note remapper: velocity-range rules decide which output pitch a
//! Note-On is translated to, and a per-(channel, pitch) correlation stack
//! remembers the translation so the matching Note-Off can be translated the
//! same way.

pub mod engine;
pub mod note_stack;
pub mod range_table;
