//! What a file system scan and its change events mean for an index.
pub mod component_index;
pub mod namespace;
pub mod selection;
pub mod events;
pub mod plan;
pub mod batch;
pub mod entry;
pub mod firmlinks;
pub mod presence;
pub mod traversal;
pub mod walk;
pub mod laws;
pub mod scan_laws;
pub mod step_laws;
pub mod selection_laws;

pub use entry::{stat_entry, ScannedFile, Volume};
pub use events::{ChangeEvent, Watcher};
pub use namespace::visible_path;
pub use plan::{reconciliation_plan, reconciliation_roots, Reconciliation};
pub use selection::normalize_roots;
pub use traversal::{scan, scan_excluding, scan_metadata, ScanReport};
