//! Progress of image creation: the events that a visitor is told of.
use vstd::prelude::*;

use crate::path::borrow::PathCow;
use crate::path::pathref::{pathvec_of, PathRef};
use crate::path::pathvec::PathVec;

verus! {

/// Receives the progress of image creation. Every method does nothing
/// unless an implementation says otherwise.
#[allow(unused_variables)]
pub trait ProgressVisitor {
    /// A directory with `num_entries` entries was found.
    fn directory_discovered(&mut self, num_entries: usize) {
    }

    /// All directories are known: `file_count` entries in `dir_count`
    /// directories.
    fn entry_counts(&mut self, file_count: usize, dir_count: usize) {
    }

    /// The entry table of the directory at `path` was placed at `sector`.
    fn directory_added(&mut self, path: PathRef, sector: u64) {
    }

    /// The entry at `path` was placed at `sector`.
    fn file_added(&mut self, path: PathRef, sector: u64) {
    }

    /// All file and directory data has been written.
    fn finished_copying_image_data(&mut self) {
    }

    /// The image is complete.
    fn finished(&mut self) {
    }
}

/// A visitor that ignores all progress.
pub struct NoOpProgressVisitor;

impl ProgressVisitor for NoOpProgressVisitor {

}

/// A progress event, which may borrow its path.
#[non_exhaustive]
#[derive(Clone, Debug, PartialEq, Eq, PartialOrd)]
pub enum ProgressInfo<'a> {
    DiscoveredDirectory(usize),
    FileCount(usize),
    DirCount(usize),
    DirAdded(PathCow<'a>, u64),
    FileAdded(PathCow<'a>, u64),
    FinishedCopyingImageData,
    FinishedPacking,
}

/// A progress event that owns its path.
#[non_exhaustive]
#[derive(Clone, Debug, PartialEq, Eq, PartialOrd, Ord)]
pub enum OwnedProgressInfo {
    DiscoveredDirectory(usize),
    FileCount(usize),
    DirCount(usize),
    DirAdded(PathVec, u64),
    FileAdded(PathVec, u64),
    FinishedCopyingImageData,
    FinishedPacking,
}

/// The text of the owned copy of a path.
pub open spec fn owned_path(p: PathCow) -> Seq<char> {
    match p {
        PathCow::Borrowed(b) => pathvec_of(b),
        PathCow::Owned(pv) => pv@,
    }
}

/// `o` is the owned copy of `e`: the same event, with the path copied.
pub open spec fn owns_copy_of(o: OwnedProgressInfo, e: ProgressInfo) -> bool {
    match e {
        ProgressInfo::DiscoveredDirectory(n) => o == OwnedProgressInfo::DiscoveredDirectory(n),
        ProgressInfo::FileCount(n) => o == OwnedProgressInfo::FileCount(n),
        ProgressInfo::DirCount(n) => o == OwnedProgressInfo::DirCount(n),
        ProgressInfo::DirAdded(p, s) => o matches OwnedProgressInfo::DirAdded(q, t) && q@ == owned_path(p)
            && t == s,
        ProgressInfo::FileAdded(p, s) => o matches OwnedProgressInfo::FileAdded(q, t) && q@ == owned_path(
            p,
        ) && t == s,
        ProgressInfo::FinishedCopyingImageData => o == OwnedProgressInfo::FinishedCopyingImageData,
        ProgressInfo::FinishedPacking => o == OwnedProgressInfo::FinishedPacking,
    }
}

impl<'a> ProgressInfo<'a> {
    /// The same event with its path copied.
    pub fn to_owned(self) -> (r: OwnedProgressInfo)
        ensures
            owns_copy_of(r, self),
    {
        match self {
            ProgressInfo::DiscoveredDirectory(len) => OwnedProgressInfo::DiscoveredDirectory(len),
            ProgressInfo::FileCount(count) => OwnedProgressInfo::FileCount(count),
            ProgressInfo::DirCount(count) => OwnedProgressInfo::DirCount(count),
            ProgressInfo::DirAdded(path, size) => OwnedProgressInfo::DirAdded(path.to_owned(), size),
            ProgressInfo::FileAdded(path, size) => OwnedProgressInfo::FileAdded(path.to_owned(), size),
            ProgressInfo::FinishedCopyingImageData => OwnedProgressInfo::FinishedCopyingImageData,
            ProgressInfo::FinishedPacking => OwnedProgressInfo::FinishedPacking,
        }
    }
}

} // verus!
