//! Filtering, grouping and bucketing of timestamped observations, with the
//! JSON values that their metadata and filter criteria carry.
pub mod json;
pub mod decode;
pub mod partition;
pub mod metadata;
pub mod grouping;
pub mod filtering;
pub mod daily;
