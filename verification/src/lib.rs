//! Verified core of a Parquet file viewer: table ordering, recent-file
//! bookkeeping, and the text that describes a file's contents and metadata.

pub mod data;
pub mod datetime;
pub mod dtype;
pub mod layout;
pub mod meta;
pub mod names;
pub mod recent;
pub mod report;
pub mod rows;
pub mod search;
pub mod session;
pub mod size;
pub mod table;
pub mod text;
