//! A minimal local change tracker: file contents are snapshotted into a
//! content-addressed object store, staged paths are kept in an ordered
//! index, and snapshots are linked into a linear commit history that can be
//! stepped backward.  The repository state is held as one value; callers
//! that persist it to disk do so outside this crate, writing exactly the
//! objects each operation reports.

pub mod chars;
pub mod hashing;
pub mod tree;
pub mod commitfmt;
pub mod repo;
pub mod laws;

pub use hashing::hash_string;
pub use repo::CommitOutcome;
pub use repo::RepoError;
pub use repo::Repository;
pub use repo::StageOutcome;
pub use repo::parse_head;
pub use repo::parse_index;
pub use tree::Tree;
pub use tree::parse_tree;
