//! The workspace state of a small desktop editor: the snapshot of a directory
//! tree, the scan that builds it, the store that holds it beside the open
//! document, and the event loop that writes to that store.
//!
//! Nothing here reads the disk or waits. The scanner and the event loop say
//! what they need next and take the answer as a value, so that every step is
//! a function whose result is proved.

/// The event loop: one startup scan, then one action at a time.
pub mod event_loop;
/// The failures of scanning and of opening a file.
pub mod failure;
/// The order in which a tree view shows a listing.
pub mod layout;
/// The order of names.
pub mod order;
/// The directory scanner.
pub mod scanner;
/// Putting a listing in order of name.
pub mod sort;
/// The store of the tree snapshot and the open document.
pub mod store;
/// The tree snapshot and its entries.
pub mod tree;
/// What a scan makes of a whole tree.
pub mod walk;
