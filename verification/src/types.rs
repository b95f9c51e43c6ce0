//! Data types of the file index.
use vstd::prelude::*;

verus! {

/// One indexed file.
#[derive(Debug)]
pub struct FileInfo {
    pub name: String,
    /// `name` in lower case; the index is ordered by the UTF-8 bytes of this field.
    pub name_lowercase: String,
    pub path: String,
    pub size: u64,
    pub is_dir: bool,
    /// How many times the user opened this file from a search result.
    pub open_count: u32,
    pub icon_index: i32,
}

impl Clone for FileInfo {
    fn clone(&self) -> (r: Self)
        ensures
            r == *self,
    {
        FileInfo {
            name: self.name.clone(),
            name_lowercase: self.name_lowercase.clone(),
            path: self.path.clone(),
            size: self.size,
            is_dir: self.is_dir,
            open_count: self.open_count,
            icon_index: self.icon_index,
        }
    }
}

/// The answer to one search request.
#[derive(Debug)]
pub struct SearchResponse {
    pub results: Vec<FileInfo>,
    pub search_id: u32,
}

/// A file with its fuzzy-match score.
#[derive(Debug)]
pub struct ScoredFile {
    pub file: FileInfo,
    pub score: i32,
}

} // verus!
