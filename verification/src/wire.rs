//! The exchange format of timetables and queries: its records, and how the
//! timetable model is read from and written to them.
pub mod serde;
pub mod wire;
