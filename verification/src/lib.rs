//! Bandwidth statistics of an access log, as a sortable table.
//!
//! The lines of a log are read into records ([`ingest`]) and folded into
//! statistics per URL path ([`records`], [`stats`]). The statistics are shown
//! as rows ([`rows`]) in one of two views ([`builder`]): one row per path, or
//! one group per request type ([`paths`]) with a row per file extension. Rows
//! are sorted by a key ([`order`], [`sort`]); a window of them is shown around
//! the selection ([`viewport`]); and key presses move a session from state to
//! state ([`session`]). What else the table shows is in [`display`].

pub mod builder;
pub mod display;
pub mod index;
pub mod ingest;
pub mod order;
pub mod paths;
pub mod records;
pub mod rows;
pub mod session;
pub mod sort;
pub mod stats;
pub mod sums;
pub mod text;
pub mod viewport;
