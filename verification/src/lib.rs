//! Conversion of Unix timestamps to RFC3339 UTC date-time strings.
//!
//! The calendar arithmetic is the integer-only Rata Die method: a day count
//! since a fixed reference epoch is turned into a proleptic-Gregorian
//! (year, month, day) triple with closed-form arithmetic, then rendered as
//! the fixed-width string `YYYY-MM-DDTHH:MM:SS.ffffffZ`.
//!
//! The rendering comes in two interchangeable forms: [`format_unix`] fills a
//! growable heap string, and [`format_unix_fixed`] fills a fixed-capacity
//! 27-byte buffer for heapless environments.  Both produce the same
//! characters for the same instant.

pub mod calendar;
pub mod fixed;
pub mod order;
pub mod render;

pub use calendar::rdn_to_ymd;
pub use fixed::{format_unix_fixed, FixedTimestamp};
pub use render::{format_unix, Timestamp};
