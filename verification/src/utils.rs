//! Helpers around the data of groups.
pub mod serde_date;
