//! A small UTC date-time library.
//!
//! Converts a count of milliseconds since the Unix epoch
//! (1970-01-01T00:00:00Z) into broken-down Gregorian calendar time, converts
//! broken-down time back to epoch seconds, and renders broken-down time as
//! text through an `strftime`-style directive language.

pub mod date;
pub mod digits;
pub mod gcalendar;
