//! The configuration of a manager.

use vstd::prelude::*;

verus! {

/// Where the index and the blobs live, and how much metadata is cached.
#[derive(Debug)]
pub struct Config {
    /// The path of the database of the index.
    pub db_path: String,
    /// The directory of the blob store.
    pub data_dir: String,
    /// The number of resources whose metadata is cached at most. A manager
    /// caches no more than `MAX_CACHE_CAPACITY` resources, which is
    /// 1,048,576: with a larger number here no manager is made.
    pub metadata_cache_capacity: usize,
}

impl Clone for Config {
    fn clone(&self) -> (copy: Self)
        ensures
            copy.db_path@ == self.db_path@,
            copy.data_dir@ == self.data_dir@,
            copy.metadata_cache_capacity == self.metadata_cache_capacity,
    {
        Config {
            db_path: self.db_path.clone(),
            data_dir: self.data_dir.clone(),
            metadata_cache_capacity: self.metadata_cache_capacity,
        }
    }
}

} // verus!
