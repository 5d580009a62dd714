//! A personal meeting log: records of when a meeting started and how long it
//! ran, the line format they are stored in, and the listing of the records
//! that fall within a range of local calendar dates.

pub mod calendar;
pub mod error;
pub mod json;
pub mod listing;
pub mod record;
pub mod store;
pub mod text;
pub mod zone;
