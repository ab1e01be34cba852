//! Reconciles the dependencies linked into a build against a curated
//! allow-list and renders license reports and bills of materials.

/// Semantic versions and deduplicating ordered version sets.
pub mod version;
/// Identities, their order, and maps keyed by them.
pub mod ids;
/// The allow-list: build-only, vendor and third-party packages, and licenses.
pub mod config;
/// Splitting text into whitespace-separated words.
pub mod words;
/// The ledger of packages seen in build events.
pub mod log;
/// Parsing a dependency-tree dump.
pub mod tree;
/// Cross-checks of the ledger against the tree and the allow-list.
pub mod reconcile;
/// The human-readable license report.
pub mod report;
/// The bill of materials.
pub mod bom;
/// Components gathered from bill-of-materials files.
pub mod components;
