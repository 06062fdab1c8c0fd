//! Finds, for every file under a directory, the files whose contents are most
//! similar to it, measured by the normalized compression distance (NCD).

pub mod paths;
pub mod ncd;
pub mod ncd_laws;
pub mod cache;
pub mod cache_laws;
pub mod file_walk;
pub mod indexer;
pub mod walk_laws;

use vstd::prelude::*;
use crate::ncd::{NcdError, NormalizedCompressedDistance, FileContents, files_view, counts_at_least_six};
use crate::cache::CompressedByteCache;
use crate::file_walk::{WalkEntry, walk_view, spec_file_paths, listed_file_paths};
use crate::indexer::{SimilarView, spec_all_similar, similar_view, similar_for_all};

verus! {

/// Each file with its nearest files.
pub type SimilarFiles = Vec<(String, Vec<NormalizedCompressedDistance>)>;

/// The paths of the files that a walk of a directory found (hidden entries,
/// directories and entries of unknown type left out), in walk order.
pub fn get_all_file_paths(walk: &[Option<WalkEntry>]) -> (r: Vec<String>)
    ensures
        r@.map_values(|p: String| p@) == spec_file_paths(walk_view(walk@)),
{
    listed_file_paths(walk)
}

/// The 5 nearest files of every file of `paths`, searched among all of them,
/// with a fresh compressed-length cache shared by all the searches.
pub fn index_all_files(paths: &[FileContents]) -> (r: Result<SimilarFiles, NcdError>)
    ensures
        similar_view(r) == spec_all_similar(Seq::empty(), 5, files_view(paths@), paths@.len()).0,
        !(r matches Err(NcdError::Incomparable)),
{
    let mut cache = CompressedByteCache::with_capacity(paths.len());
    assert(counts_at_least_six(cache@));
    similar_for_all(&mut cache, 5, paths)
}

} // verus!
