use xdvdfs::blockdev::{BlockDeviceWrite, NullBlockDevice};
use xdvdfs::fs::memory::MemoryFilesystem;
use xdvdfs::fs::{DirModel, FileEntry, FileModel, FileType, FilesystemCopier, FilesystemHierarchy};
use xdvdfs::path::pathref::PathRef;

struct CopierContainer<F>(F);

impl<F> FileModel for CopierContainer<F> {}

impl<BDW: BlockDeviceWrite, F: FilesystemCopier<BDW>> FilesystemCopier<BDW> for CopierContainer<F> {
    type Error = F::Error;

    fn copy_file_in(
        &mut self,
        src: PathRef<'_>,
        dest: &mut BDW,
        input_offset: u64,
        output_offset: u64,
        size: u64,
    ) -> Result<u64, Self::Error> {
        self.0
            .copy_file_in(src, dest, input_offset, output_offset, size)
    }
}

struct HierarchyContainer<F: FilesystemHierarchy>(F);

impl<F: FilesystemHierarchy> DirModel for HierarchyContainer<F> {}

impl<F: FilesystemHierarchy> FilesystemHierarchy for HierarchyContainer<F> {
    type Error = F::Error;

    fn read_dir(&mut self, path: PathRef<'_>) -> Result<Vec<FileEntry>, Self::Error> {
        self.0.read_dir(path)
    }

    fn clear_cache(&mut self) -> Result<(), Self::Error> {
        self.0.clear_cache()
    }
}

#[test]
fn test_fs_copier_boxed_impl() {
    let mut memfs = MemoryFilesystem::default();
    memfs.touch("/a".into());

    let memfs = Box::new(memfs);
    let mut fs = CopierContainer(memfs);

    let mut nullbd = NullBlockDevice::default();

    let res = fs.copy_file_in("/a".into(), &mut nullbd, 0, 0, 123);
    assert_eq!(res, Ok(123));
}

#[test]
fn test_fs_copier_ref_impl() {
    let mut memfs = MemoryFilesystem::default();
    memfs.touch("/a".into());

    let mut memfs = Box::new(memfs);
    let mut fs = CopierContainer(&mut memfs);

    let mut nullbd = NullBlockDevice::default();

    let res = fs.copy_file_in("/a".into(), &mut nullbd, 0, 0, 123);
    assert_eq!(res, Ok(123));
}

#[test]
fn test_fs_hierarchy_boxed_impl() {
    let mut memfs = MemoryFilesystem::default();
    memfs.touch("/a".into());

    let memfs = Box::new(memfs);
    let mut fs = HierarchyContainer(memfs);

    let res = fs.clear_cache();
    assert_eq!(res, Ok(()));

    let res = fs.read_dir("/".into());
    assert_eq!(
        res,
        Ok([FileEntry {
            name: "a".into(),
            file_type: FileType::File,
            len: 0,
        },]
        .as_slice()
        .to_vec()),
    );
}

#[test]
fn test_fs_hierarchy_ref_impl() {
    let mut memfs = MemoryFilesystem::default();
    memfs.touch("/a".into());

    let mut memfs = Box::new(memfs);
    let mut fs = HierarchyContainer(&mut memfs);

    let res = fs.clear_cache();
    assert_eq!(res, Ok(()));

    let res = fs.read_dir("/".into());
    assert_eq!(
        res,
        Ok([FileEntry {
            name: "a".into(),
            file_type: FileType::File,
            len: 0,
        },]
        .as_slice()
        .to_vec()),
    );
}
