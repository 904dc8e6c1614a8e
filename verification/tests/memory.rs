use xdvdfs::fs::memory::MemoryFilesystem;
use xdvdfs::fs::{FileEntry, FileType, FilesystemCopier, FilesystemHierarchy};
use xdvdfs::path::pathvec::PathVec;

#[test]
fn test_memfs_lsdir_no_entry() {
    let memfs = MemoryFilesystem::default();
    assert_eq!(memfs.lsdir("/a".into()), None);
}

#[test]
fn test_memfs_mkdir() {
    let mut memfs = MemoryFilesystem::default();
    memfs.mkdir("/a/b".into());
    memfs.mkdir("/a/c".into());

    let entries = memfs.lsdir("/a".into()).expect("'/a' should contain records");
    assert_eq!(
        entries,
        [
            FileEntry {
                name: "b".to_string(),
                file_type: FileType::Directory,
                len: 0,
            },
            FileEntry {
                name: "c".to_string(),
                file_type: FileType::Directory,
                len: 0,
            },
        ]
    );
}

#[test]
fn test_memfs_create() {
    let mut memfs = MemoryFilesystem::default();
    memfs.create("/a/b".into(), &[0, 1, 2]);
    memfs.create("/a/c".into(), &[3, 4]);

    let entries = memfs.lsdir("/a".into()).expect("'/a' should contain records");
    assert_eq!(
        entries,
        [
            FileEntry {
                name: "b".to_string(),
                file_type: FileType::File,
                len: 3,
            },
            FileEntry {
                name: "c".to_string(),
                file_type: FileType::File,
                len: 2,
            },
        ]
    );
}

#[test]
fn test_memfs_touch() {
    let mut memfs = MemoryFilesystem::default();
    memfs.touch("/a/b".into());
    memfs.touch("/a/c".into());

    let entries = memfs.lsdir("/a".into()).expect("'/a' should contain records");
    assert_eq!(
        entries,
        [
            FileEntry {
                name: "b".to_string(),
                file_type: FileType::File,
                len: 0,
            },
            FileEntry {
                name: "c".to_string(),
                file_type: FileType::File,
                len: 0,
            },
        ]
    );
}

#[test]
fn test_memfs_mixed_files_and_dirs() {
    let mut memfs = MemoryFilesystem::default();
    memfs.touch("/a/b".into());
    memfs.mkdir("/a/c".into());
    memfs.create("a/d".into(), &[1]);

    let entries = memfs.lsdir("/a".into()).expect("'/a' should contain records");
    assert_eq!(
        entries,
        [
            FileEntry {
                name: "b".to_string(),
                file_type: FileType::File,
                len: 0,
            },
            FileEntry {
                name: "c".to_string(),
                file_type: FileType::Directory,
                len: 0,
            },
            FileEntry {
                name: "d".to_string(),
                file_type: FileType::File,
                len: 1,
            }
        ]
    );
}

#[test]
fn test_memfs_read_no_entry() {
    let memfs = MemoryFilesystem::default();
    let mut buf = [0; 5];
    assert_eq!(memfs.read("/a".into(), 0, &mut buf), None);
}

#[test]
fn test_memfs_read_file_full() {
    let mut memfs = MemoryFilesystem::default();
    memfs.create("/a/b".into(), &[1, 2, 3, 4, 5]);

    let mut buf = [0; 5];
    assert_eq!(memfs.read("/a/b".into(), 0, &mut buf), Some(5));
    assert_eq!(buf, [1, 2, 3, 4, 5]);
}

#[test]
fn test_memfs_read_file_offset() {
    let mut memfs = MemoryFilesystem::default();
    memfs.create("/a/b".into(), &[1, 2, 3, 4, 5]);

    let mut buf = [0; 5];
    assert_eq!(memfs.read("/a/b".into(), 2, &mut buf), Some(3));
    assert_eq!(buf, [3, 4, 5, 0, 0]);
}

#[test]
fn test_memfs_read_file_invalid_offset() {
    let mut memfs = MemoryFilesystem::default();
    memfs.create("/a/b".into(), &[1, 2, 3, 4, 5]);

    let mut buf = [0; 5];
    assert_eq!(memfs.read("/a/b".into(), 6, &mut buf), None);
}

#[test]
fn test_memfs_read_directory_fails() {
    let mut memfs = MemoryFilesystem::default();
    memfs.mkdir("/a/b".into());

    let mut buf = [0; 5];
    assert_eq!(memfs.read("/a/b".into(), 2, &mut buf), None);
}

#[test]
fn test_memfs_copy_file_in() {
    let mut memfs = MemoryFilesystem::default();
    memfs.create("/a/b".into(), &[1, 2, 3, 4, 5]);

    let mut buf = [0; 5];
    assert_eq!(memfs.copy_file_in_impl("/a/b".into(), &mut buf, 0, 0, 5), Ok(5));
    assert_eq!(buf, [1, 2, 3, 4, 5]);
}

#[test]
fn test_memfs_copy_file_in_output_offset() {
    let mut memfs = MemoryFilesystem::default();
    memfs.create("/a/b".into(), &[1, 2, 3, 4, 5]);

    // Read past end of file, extra space filled with 0
    let mut buf = [10; 9];
    assert_eq!(memfs.copy_file_in_impl("/a/b".into(), &mut buf, 0, 2, 7), Ok(7));
    assert_eq!(buf, [10, 10, 1, 2, 3, 4, 5, 0, 0]);
}

#[test]
fn test_memfs_copy_file_in_invalid_output_offset() {
    let mut memfs = MemoryFilesystem::default();
    memfs.create("/a/b".into(), &[1, 2, 3, 4, 5]);

    let mut buf = [0; 5];
    assert_eq!(memfs.copy_file_in_impl("/a/b".into(), &mut buf, 0, 6, 5), Err(()));
}

#[test]
fn test_memfs_copy_file_in_buffer_size_clamped() {
    let mut memfs = MemoryFilesystem::default();
    memfs.create("/a/b".into(), &[1, 2, 3, 4, 5]);

    // Output offset by 2, input offset by 0, data after EOF is filled 0
    let mut buf = [10; 8];
    assert_eq!(memfs.copy_file_in_impl("/a/b".into(), &mut buf, 0, 2, 7), Ok(6));
    assert_eq!(buf, [10, 10, 1, 2, 3, 4, 5, 0]);
}

#[test]
fn test_memfs_copy_file_in_input_offset() {
    let mut memfs = MemoryFilesystem::default();
    memfs.create("/a/b".into(), &[1, 2, 3, 4, 5]);

    // Read is offset by 2, data after EOF is filled 0
    let mut buf = [1; 5];
    assert_eq!(memfs.copy_file_in_impl("/a/b".into(), &mut buf, 2, 0, 5), Ok(5));
    assert_eq!(buf, [3, 4, 5, 0, 0]);
}

#[test]
fn test_memfs_copy_file_in_invalid_input_offset() {
    let mut memfs = MemoryFilesystem::default();
    memfs.create("/a/b".into(), &[1, 2, 3, 4, 5]);

    let mut buf = [0; 5];
    assert_eq!(memfs.copy_file_in_impl("/a/b".into(), &mut buf, 5, 0, 5), Err(()));
}

#[test]
fn memfs_read_dir_and_copy_through_traits() {
    let mut memfs = MemoryFilesystem::default();
    memfs.create("/d/f".into(), &[7, 8, 9]);
    let listing = memfs.read_dir("/d".into()).expect("'/d' should be listed");
    assert_eq!(listing.len(), 1);
    assert_eq!(listing[0].name, "f");
    assert_eq!(listing[0].len, 3);

    let file = PathVec::from("/d/f");
    let mut buf = [5u8; 4];
    assert_eq!(memfs.copy_file_in((&file).into(), &mut buf[..], 1, 1, 3), Ok(3));
    assert_eq!(buf, [5, 8, 9, 0]);

    assert_eq!(memfs.read_dir("/none".into()), Err(()));
    assert_eq!(memfs.clear_cache(), Ok(()));
}

#[test]
fn memfs_create_replaces_contents() {
    let mut memfs = MemoryFilesystem::default();
    memfs.create("/f".into(), &[1, 2, 3]);
    memfs.create("/f".into(), &[4]);
    let mut buf = [0u8; 3];
    assert_eq!(memfs.read("/f".into(), 0, &mut buf), Some(1));
    assert_eq!(buf, [4, 0, 0]);
}

#[test]
fn test_memfs_create_makes_ancestors_directories() {
    let mut memfs = MemoryFilesystem::default();
    memfs.touch("/a".into());
    memfs.create("/a/b".into(), &[1, 2]);
    assert_eq!(
        memfs.lsdir("/".into()),
        Some(vec![FileEntry {
            name: "a".into(),
            file_type: FileType::Directory,
            len: 0,
        }])
    );
    assert_eq!(
        memfs.lsdir("/a".into()),
        Some(vec![FileEntry {
            name: "b".into(),
            file_type: FileType::File,
            len: 2,
        }])
    );
}
