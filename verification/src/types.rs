//! Plain data carried through a scan: file records, result entries, buckets,
//! totals and warnings.

use vstd::prelude::*;

verus! {

use crate::rank::Keyed;

/// One file discovered by the traversal, as the core consumes it: the full
/// path, the byte size, the lowercased extension if the file has one, and the
/// file's age in whole days since its last modification, when the active
/// categorization strategy asked for it.
#[derive(Debug, Clone)]
pub struct FileMetadata {
    pub path: String,
    pub size: u64,
    pub extension: Option<String>,
    pub age_days: Option<u64>,
}

/// The mathematical image of a file record.
pub struct FileMetadataView {
    pub path: Seq<char>,
    pub size: u64,
    pub extension: Option<Seq<char>>,
    pub age_days: Option<u64>,
}

impl View for FileMetadata {
    type V = FileMetadataView;

    open spec fn view(&self) -> FileMetadataView {
        FileMetadataView {
            path: self.path@,
            size: self.size,
            extension: match self.extension {
                Option::Some(e) => Option::Some(e@),
                Option::None => Option::None,
            },
            age_days: self.age_days,
        }
    }
}

/// One category's aggregated share of the scan.
#[derive(Debug, Clone)]
pub struct Bucket {
    pub key: String,
    pub label: String,
    pub bytes: u64,
    /// The bucket's share of `total_bytes`, in hundredths of a percent,
    /// rounded down; 0 when the total is 0.
    pub percent_hundredths: u64,
    pub file_count: u64,
    pub color: Option<String>,
    pub representative_extension: Option<String>,
}

impl Keyed for Bucket {
    open spec fn skey(&self) -> u64 {
        self.bytes
    }

    fn key(&self) -> (k: u64) {
        self.bytes
    }
}

/// One of the largest files found, path and byte size.
#[derive(Debug, Clone)]
pub struct FileEntry {
    pub path: String,
    pub bytes: u64,
}

impl Keyed for FileEntry {
    open spec fn skey(&self) -> u64 {
        self.bytes
    }

    fn key(&self) -> (k: u64) {
        self.bytes
    }
}

/// One of the largest directories found, path and accumulated byte size.
#[derive(Debug, Clone)]
pub struct DirEntry {
    pub path: String,
    pub bytes: u64,
}

impl Keyed for DirEntry {
    open spec fn skey(&self) -> u64 {
        self.bytes
    }

    fn key(&self) -> (k: u64) {
        self.bytes
    }
}

/// Scan-wide totals.
#[derive(Debug, Clone)]
pub struct Totals {
    pub total_bytes: u64,
    pub file_count: u64,
    pub dir_count: u64,
    pub skipped_paths: u64,
}

/// One group of byte-identical files in the final result form.
#[derive(Debug, Clone)]
pub struct DuplicateGroup {
    pub size: u64,
    pub hash: String,
    pub paths: Vec<String>,
    pub wasted_space: u64,
}

impl Keyed for DuplicateGroup {
    open spec fn skey(&self) -> u64 {
        self.wasted_space
    }

    fn key(&self) -> (k: u64) {
        self.wasted_space
    }
}

/// A per-entry failure recorded during the scan; never fatal.
#[derive(Debug, Clone)]
pub struct Warning {
    pub path: String,
    pub error: String,
}

} // verus!
