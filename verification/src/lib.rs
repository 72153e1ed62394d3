//! Rhythm, metre and entity bookkeeping for a lead-sheet editor.
//!
//! Durations and times are exact fractions of a whole note (`Rational`).  A `Bar` keeps the
//! rests, notes and chords of one voice in one bar, fills gaps with automatic rests, and spells
//! them according to the bar's `Metre`.
pub mod arith;

pub mod rational;
pub mod duration;
pub mod metre;
pub mod entity;
pub mod lifetime;
pub mod notes;
mod spell;
pub mod bar;
pub mod orphans;
pub mod split;
pub mod rhythmic_beaming;
pub mod pitch;
pub mod jsfrac;
pub mod bar_child;
pub mod start;
