//! Verified core of a desktop file-search index: the index ordered by
//! lowercase name with its path map, searching it, keeping it up to date
//! as disks are scanned and files change, and the framing of its cache.
pub mod cache;
pub mod fuzzy;
pub mod icon;
pub mod index;
pub mod order;
pub mod png;
pub mod scan;
pub mod search;
pub mod shell;
pub mod sort;
pub mod text;
pub mod types;
pub mod watch;
