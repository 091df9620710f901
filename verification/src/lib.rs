//! Sparse n-gram inverted index for code search: the n-gram decomposition,
//! the key hashing, the on-disk index formats and the query-side logic.

pub mod bitset;
pub mod content;
pub mod coverage;
pub mod files;
pub mod freq;
pub mod hash;
pub mod index;
pub mod intersect;
pub mod lookup;
pub mod meminfo;
pub mod meta;
pub mod ngram;
pub mod paths;
pub mod postings;
pub mod query;
pub mod scan;
pub mod search;
pub mod select;
