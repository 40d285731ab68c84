//! A skip list: a probabilistic ordered associative container mapping unique
//! `i64` keys to copyable values, with expected-logarithmic point lookup and
//! insertion. Nodes live in an arena owned by the structure and all links are
//! optional indices into it, so the link graph is forward-only and acyclic.

mod level;
pub mod skiplist;

pub use skiplist::DuplicateKeyError;
pub use skiplist::KVPair;
pub use skiplist::Node;
pub use skiplist::Skiplist;
pub use skiplist::MAX_LEVEL;
