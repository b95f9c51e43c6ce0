//! The orders the index and the search results are sorted by.
use vstd::prelude::*;
use crate::sort::SortOrder;
use crate::text::{bytes_le, lemma_lex_total, lemma_lex_trans, lex_le, utf8};
use crate::types::{FileInfo, ScoredFile};

verus! {

/// The key the index is ordered by: the UTF-8 bytes of the lowercase name.
pub open spec fn name_key(f: FileInfo) -> Seq<u8> {
    utf8(f.name_lowercase@)
}

/// Files ordered by lowercase name, byte-wise, as `String::cmp` orders them.
pub struct ByName;

impl SortOrder<FileInfo> for ByName {
    open spec fn le(a: FileInfo, b: FileInfo) -> bool {
        lex_le(name_key(a), name_key(b))
    }

    proof fn lemma_total(a: FileInfo, b: FileInfo) {
        lemma_lex_total(name_key(a), name_key(b));
    }

    proof fn lemma_trans(a: FileInfo, b: FileInfo, c: FileInfo) {
        lemma_lex_trans(name_key(a), name_key(b), name_key(c));
    }

    fn le_exec(a: &FileInfo, b: &FileInfo) -> (r: bool) {
        bytes_le(a.name_lowercase.as_str().as_bytes(), b.name_lowercase.as_str().as_bytes())
    }

    fn copy_item(a: &FileInfo) -> (r: FileInfo) {
        a.clone()
    }
}

/// Files with the most opens first.
pub struct ByOpenCountDesc;

impl SortOrder<FileInfo> for ByOpenCountDesc {
    open spec fn le(a: FileInfo, b: FileInfo) -> bool {
        a.open_count >= b.open_count
    }

    proof fn lemma_total(a: FileInfo, b: FileInfo) {
    }

    proof fn lemma_trans(a: FileInfo, b: FileInfo, c: FileInfo) {
    }

    fn le_exec(a: &FileInfo, b: &FileInfo) -> (r: bool) {
        a.open_count >= b.open_count
    }

    fn copy_item(a: &FileInfo) -> (r: FileInfo) {
        a.clone()
    }
}

/// Scored files with the highest score first.
pub struct ByScoreDesc;

impl SortOrder<ScoredFile> for ByScoreDesc {
    open spec fn le(a: ScoredFile, b: ScoredFile) -> bool {
        a.score >= b.score
    }

    proof fn lemma_total(a: ScoredFile, b: ScoredFile) {
    }

    proof fn lemma_trans(a: ScoredFile, b: ScoredFile, c: ScoredFile) {
    }

    fn le_exec(a: &ScoredFile, b: &ScoredFile) -> (r: bool) {
        a.score >= b.score
    }

    fn copy_item(a: &ScoredFile) -> (r: ScoredFile) {
        ScoredFile { file: a.file.clone(), score: a.score }
    }
}

/// Positions from the highest down.
pub struct Descending;

impl SortOrder<usize> for Descending {
    open spec fn le(a: usize, b: usize) -> bool {
        a >= b
    }

    proof fn lemma_total(a: usize, b: usize) {
    }

    proof fn lemma_trans(a: usize, b: usize, c: usize) {
    }

    fn le_exec(a: &usize, b: &usize) -> (r: bool) {
        *a >= *b
    }

    fn copy_item(a: &usize) -> (r: usize) {
        *a
    }
}

} // verus!
