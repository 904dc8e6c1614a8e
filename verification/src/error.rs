//! Errors of image creation.
use vstd::prelude::*;

use crate::layout::NameEncodingError;

verus! {

/// Errors that come from the contents of the filesystem being written,
/// independently of the block device or the source filesystem.
#[derive(Copy, Clone, Debug, PartialEq, Eq, Structural)]
pub enum FileStructureError {
    SerializationError,
    FileNameError(NameEncodingError),
    DuplicateFileName,
    TooManyDirectoryEntries,
    FileTooLarge,
}

/// Errors of image creation: those of the block device, of reading the
/// source hierarchy, of copying file data, and of the file structure.
#[derive(Debug)]
pub enum WriteError<BlockDevError, FSHierarchyError, FSCopierError> {
    BlockDeviceError(BlockDevError),
    FilesystemHierarchyError(FSHierarchyError),
    FilesystemCopierError(FSCopierError),
    InvalidFileStructureError(FileStructureError),
}

impl FileStructureError {
    /// Wraps a name encoding error.
    pub fn from_name_error(e: NameEncodingError) -> (r: Self)
        ensures
            r == FileStructureError::FileNameError(e),
    {
        FileStructureError::FileNameError(e)
    }
}

} // verus!
