//! Perturbs train timetable documents of a rail simulation: scales the
//! acceleration capability of a train, delays its entry, and inflates its
//! dwell times.
//!
//! The document tree, the consist classification, the timetable edits and the
//! per-document pipeline are verified. Floating-point arithmetic, random
//! sampling and file access are left to the caller, who hands in closures and
//! plain values.

pub mod acceleration;
pub mod consist;
pub mod date;
pub mod date_text;
pub mod document;
pub mod engine;
pub mod error;
pub mod instant;
pub mod text;
pub mod timetable;
