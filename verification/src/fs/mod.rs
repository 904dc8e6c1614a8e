//! Source filesystems for image creation: what a directory listing holds,
//! and the traits a source filesystem implements.
use vstd::prelude::*;

use crate::blockdev::{grown_len, BlockDeviceWrite};
use crate::path::pathref::PathRef;
use crate::path::pathvec::PathVec;

pub mod hierarchy;
pub mod memory;
pub mod remap;
pub mod rewrite;
pub mod xdvdfs;

verus! {

/// Kind of a directory entry.
#[derive(Copy, Clone, Debug, PartialEq, Eq, PartialOrd, Ord, Structural)]
pub enum FileType {
    File,
    Directory,
}

/// An entry of a directory listing.
#[derive(Clone, Debug, PartialEq, Eq, PartialOrd, Ord)]
pub struct FileEntry {
    pub name: String,
    pub file_type: FileType,
    pub len: u64,
}

/// A directory and its listing; each entry comes with the index of its own
/// listing when it is a directory, and zero otherwise.
#[derive(Clone, Debug)]
pub struct DirectoryTreeEntry {
    pub dir: PathVec,
    pub listing: Vec<(FileEntry, usize)>,
}

/// What a filesystem says of its directories, for the contracts of
/// listing them.
///
/// Where `obeys_dir_model` holds, listing a directory succeeds exactly
/// where `dir_exists` says, a listing it gives is one that `lists` accepts,
/// and listing or clearing caches leaves both as they were. A filesystem
/// that says nothing keeps the defaults, under which no listing is
/// described.
pub trait DirModel {
    /// Whether the filesystem's listings follow `dir_exists` and `lists`.
    open spec fn obeys_dir_model() -> bool {
        false
    }

    /// A directory is stored at the path of components `path`.
    open spec fn dir_exists(&self, path: Seq<Seq<char>>) -> bool {
        false
    }

    /// `listing` lists the directory at `path`.
    open spec fn lists(&self, path: Seq<Seq<char>>, listing: Seq<FileEntry>) -> bool {
        false
    }
}

/// A filesystem with hierarchical directories, which can list a directory.
pub trait FilesystemHierarchy: DirModel {
    type Error;

    /// The entries of a directory.
    fn read_dir(&mut self, path: PathRef) -> (r: Result<Vec<FileEntry>, Self::Error>)
        ensures
            Self::obeys_dir_model() ==> forall|p: Seq<Seq<char>>, l: Seq<FileEntry>|
                #[trigger] (*final(self)).lists(p, l) == (*old(self)).lists(p, l),
            Self::obeys_dir_model() ==> forall|p: Seq<Seq<char>>|
                #[trigger] (*final(self)).dir_exists(p) == (*old(self)).dir_exists(p),
            Self::obeys_dir_model() ==> (r is Ok <==> old(self).dir_exists(path@)),
            Self::obeys_dir_model() ==> (r matches Ok(v) ==> old(self).lists(path@, v@)),
    ;

    /// Clears whatever the filesystem cached while it was used; afterwards it
    /// behaves as when it was created. A filesystem that caches nothing
    /// succeeds at once.
    fn clear_cache(&mut self) -> (r: Result<(), Self::Error>)
        ensures
            Self::obeys_dir_model() ==> forall|p: Seq<Seq<char>>, l: Seq<FileEntry>|
                #[trigger] (*final(self)).lists(p, l) == (*old(self)).lists(p, l),
            Self::obeys_dir_model() ==> forall|p: Seq<Seq<char>>|
                #[trigger] (*final(self)).dir_exists(p) == (*old(self)).dir_exists(p),
        default_ensures
            r is Ok,
    {
        Ok(())
    }
}

/// `dest` after `size` bytes of the file `f` from byte `i` on are copied
/// to it at `o`, as far as `dest` reaches; past the end of the file, zeros
/// are copied.
pub open spec fn copied_file(dest: Seq<u8>, f: Seq<u8>, i: int, o: int, size: int) -> Seq<u8> {
    Seq::new(
        dest.len(),
        |t: int|
            if o <= t < o + size {
                if i + (t - o) < f.len() {
                    f[i + (t - o)]
                } else {
                    0u8
                }
            } else {
                dest[t]
            },
    )
}

/// What a filesystem says of its files, for the contracts of copying.
///
/// Where `obeys_file_model` holds, `file_model` gives the bytes of the file
/// at each path, copying leaves them as they were, and a successful copy
/// into a destination that follows its model puts there the bytes of
/// the file as `copied_file` says. Where `obeys_copy_log` holds, each copy
/// asked of it, successful or not, is recorded at the end of `copy_log`. A
/// filesystem that says nothing keeps the defaults, under which no copy is
/// described.
pub trait FileModel {
    /// Whether the filesystem's copies follow `file_model`.
    open spec fn obeys_file_model() -> bool {
        false
    }

    /// The bytes of the file at a path of components, if one is there.
    open spec fn file_model(&self, path: Seq<Seq<char>>) -> Option<Seq<u8>> {
        None
    }

    /// Whether the filesystem records every copy asked of it in `copy_log`.
    open spec fn obeys_copy_log() -> bool {
        false
    }

    /// The copies asked of the filesystem so far, in order.
    open spec fn copy_log(&self) -> Seq<CopyCall> {
        Seq::empty()
    }
}

/// A copy asked of a filesystem: the path of the file, the offset in it,
/// the offset in the destination, and the number of bytes.
pub type CopyCall = (Seq<Seq<char>>, u64, u64, u64);

/// A filesystem whose files can be copied into a destination of type `BDW`.
pub trait FilesystemCopier<BDW: BlockDeviceWrite + ?Sized>: FileModel {
    type Error;

    /// Copies `size` bytes of `src` from `input_offset` into `dest` at
    /// `output_offset`; returns how many bytes of `dest` were written.
    fn copy_file_in(
        &mut self,
        src: PathRef,
        dest: &mut BDW,
        input_offset: u64,
        output_offset: u64,
        size: u64,
    ) -> (r: Result<u64, Self::Error>)
        ensures
            Self::obeys_file_model() ==> forall|p: Seq<Seq<char>>|
                #[trigger] (*final(self)).file_model(p) == (*old(self)).file_model(p),
            Self::obeys_file_model() && BDW::obeys_model() && r is Ok ==> (old(self).file_model(src@) matches Some(
                f,
            ) && final(dest).model() == copied_file(
                old(dest).model(),
                f,
                input_offset as int,
                output_offset as int,
                size as int,
            )),
            Self::obeys_copy_log() ==> (*final(self)).copy_log() == (*old(self)).copy_log().push(
                (src@, input_offset, output_offset, size),
            ),
            Self::obeys_file_model() && BDW::obeys_len_model() && r is Ok ==> final(dest).len_model() == grown_len(
                old(dest).len_model(),
                output_offset as int,
                size as int,
            ),
    ;
}

/// A boxed filesystem describes its directories as the filesystem in the
/// box.
impl<F: DirModel + ?Sized> DirModel for Box<F> {
    open spec fn obeys_dir_model() -> bool {
        F::obeys_dir_model()
    }

    open spec fn dir_exists(&self, path: Seq<Seq<char>>) -> bool {
        (**self).dir_exists(path)
    }

    open spec fn lists(&self, path: Seq<Seq<char>>, listing: Seq<FileEntry>) -> bool {
        (**self).lists(path, listing)
    }
}

/// A boxed filesystem lists directories as the filesystem in the box.
impl<F: FilesystemHierarchy + ?Sized> FilesystemHierarchy for Box<F> {
    type Error = F::Error;

    fn read_dir(&mut self, path: PathRef) -> Result<Vec<FileEntry>, Self::Error> {
        (**self).read_dir(path)
    }

    fn clear_cache(&mut self) -> Result<(), Self::Error> {
        (**self).clear_cache()
    }
}

/// A borrowed filesystem describes its directories as the filesystem it
/// borrows.
impl<'a, F: DirModel + ?Sized> DirModel for &'a mut F {
    open spec fn obeys_dir_model() -> bool {
        F::obeys_dir_model()
    }

    open spec fn dir_exists(&self, path: Seq<Seq<char>>) -> bool {
        (**self).dir_exists(path)
    }

    open spec fn lists(&self, path: Seq<Seq<char>>, listing: Seq<FileEntry>) -> bool {
        (**self).lists(path, listing)
    }
}

/// A borrowed filesystem lists directories as the filesystem it borrows.
impl<'a, F: FilesystemHierarchy + ?Sized> FilesystemHierarchy for &'a mut F {
    type Error = F::Error;

    fn read_dir(&mut self, path: PathRef) -> Result<Vec<FileEntry>, Self::Error> {
        (**self).read_dir(path)
    }

    fn clear_cache(&mut self) -> Result<(), Self::Error> {
        (**self).clear_cache()
    }
}

/// A boxed filesystem describes its files as the filesystem in the box.
impl<F: FileModel + ?Sized> FileModel for Box<F> {
    open spec fn obeys_file_model() -> bool {
        F::obeys_file_model()
    }

    open spec fn file_model(&self, path: Seq<Seq<char>>) -> Option<Seq<u8>> {
        (**self).file_model(path)
    }

    open spec fn obeys_copy_log() -> bool {
        F::obeys_copy_log()
    }

    open spec fn copy_log(&self) -> Seq<CopyCall> {
        (**self).copy_log()
    }
}

/// A boxed filesystem copies files as the filesystem in the box.
impl<BDW: BlockDeviceWrite + ?Sized, F: FilesystemCopier<BDW> + ?Sized> FilesystemCopier<BDW> for Box<F> {
    type Error = F::Error;

    fn copy_file_in(
        &mut self,
        src: PathRef,
        dest: &mut BDW,
        input_offset: u64,
        output_offset: u64,
        size: u64,
    ) -> Result<u64, Self::Error> {
        (**self).copy_file_in(src, dest, input_offset, output_offset, size)
    }
}

/// A borrowed filesystem describes its files as the filesystem it borrows.
impl<'a, F: FileModel + ?Sized> FileModel for &'a mut F {
    open spec fn obeys_file_model() -> bool {
        F::obeys_file_model()
    }

    open spec fn file_model(&self, path: Seq<Seq<char>>) -> Option<Seq<u8>> {
        (**self).file_model(path)
    }

    open spec fn obeys_copy_log() -> bool {
        F::obeys_copy_log()
    }

    open spec fn copy_log(&self) -> Seq<CopyCall> {
        (**self).copy_log()
    }
}

/// A borrowed filesystem copies files as the filesystem it borrows.
impl<'a, BDW: BlockDeviceWrite + ?Sized, F: FilesystemCopier<BDW> + ?Sized> FilesystemCopier<BDW> for &'a mut F {
    type Error = F::Error;

    fn copy_file_in(
        &mut self,
        src: PathRef,
        dest: &mut BDW,
        input_offset: u64,
        output_offset: u64,
        size: u64,
    ) -> Result<u64, Self::Error> {
        (**self).copy_file_in(src, dest, input_offset, output_offset, size)
    }
}

} // verus!
