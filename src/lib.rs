//! An in-memory key-value index built on extendible hashing: a fixed array of
//! shards, each an independently growing directory of fixed-capacity buckets.

pub mod key;
pub mod bucket;
pub mod directory;

pub mod extendible_hashing;

pub use bucket::{BucketPage, Node, BUCKET_DEFAULT_INIT_DEPTH};
pub use directory::{DirectoryPage, DIRECTORY_DEFAULT_INIT_GLOBAL_DEPTH};
pub use extendible_hashing::{ExtendibleHashing, EXTENDIBLEHASHING_DEFAULT_DEPTH};
pub use key::HashKey;
