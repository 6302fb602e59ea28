//! A personal activity log: timestamped, tagged text records kept one per
//! line, with filtered queries, in-place edits, deletion and archival by age.
pub mod timestamp;
pub mod text;
pub mod record;
pub mod codec;
pub mod error;
pub mod filter;
pub mod store;
pub mod util;
pub mod tags;
pub mod config;
pub mod input;
