//! Conversion of amateur-radio contact-log exports into ADIF QSO records.
//!
//! The pipeline normalizes heterogeneous date/time/frequency/mode text into
//! canonical ADIF fields, classifies frequencies into band designators, and
//! assembles validated per-contact records plus an aggregate batch status.

pub mod adifgen;
pub mod band;
pub mod calendar;
pub mod chars;
pub mod errors;
pub mod mode;
pub mod time;
