/// Failure classes of repository operations.
pub mod error;
/// Object ids: SHA-256 digests in hex.
pub mod hash;
/// Splitting, joining and trimming text.
pub mod text;
/// The staging index: entries, their text form, and updates.
pub mod index;
/// Ignore patterns.
pub mod ignore;
/// Status classification of working tree, index and HEAD's tree.
pub mod diff;
/// Three-way merge, conflict files and merge decisions.
pub mod merge;
/// Ref names, HEAD and branch listings.
pub mod refs;
/// Commit and annotated tag payloads.
pub mod commit;
/// The tree codec between an index and tree objects.
pub mod tree;
/// Repository operations built on the lower layers.
pub mod porcelain;
/// Walks over the object graph: ancestors and fetches.
pub mod graph;
