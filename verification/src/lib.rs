//! Duplicate-file detection by content.
//!
//! Files are first bucketed by size, then the members of each bucket are
//! compared byte for byte and merged into groups of identical files.  The
//! library holds the decisions; reading directories and files is left to the
//! caller, which feeds what it read into the state machines defined here.

pub mod bucket;
pub mod classes;
pub mod enumeration;
pub mod files;
pub mod grouper;
pub mod indices;
pub mod oracle;
pub mod search;
