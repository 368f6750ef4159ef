//! Verified core of a reversible disk-cleanup engine.
pub mod aligned;
pub mod error;
pub mod format;
pub mod guardian;
pub mod mft;
pub mod model;
pub mod moves;
pub mod organize;
pub mod quarantine;
pub mod report;
pub mod paths;
pub mod rules;
pub mod safety;
pub mod scan;
pub mod sorting;
pub mod suggest;
pub mod text;
pub mod usage;

pub use error::Error;
pub use model::FileEntry;
pub use format::format_bytes;
