//! Drop-in configuration overlay resolution.
//!
//! Given an ordered stack of directories (lowest precedence first) and the
//! contents of each, this library resolves a single mapping from fragment
//! filename to the winning file path: a later directory's regular file of the
//! same name overrides an earlier one, and a later symlink to the null device
//! ("tombstone") deletes the name from the result. Filenames can be filtered
//! by a hidden-file rule and by an extension allow-list. The resolved mapping
//! iterates its filenames in ascending lexicographic order.
//!
//! Reading the filesystem itself is left to the caller: each directory of the
//! stack is handed in as a [`DirListing`] of already-classified entries, so
//! the whole merge is a pure, verified function of those listings.

pub mod entry;
pub mod laws;
pub mod order;
pub mod overlay;
pub mod scan;
pub mod stack;

pub use entry::DirEntry;
pub use entry::DirListing;
pub use entry::EntryKind;
pub use overlay::Fragment;
pub use overlay::ResolvedOverlay;
pub use stack::OverdropConf;
