use xdvdfs::blockdev::NullBlockDevice;
use xdvdfs::dirtab::FileListingEntry;
use xdvdfs::error::{FileStructureError, WriteError};
use xdvdfs::fs::hierarchy::dir_tree;
use xdvdfs::fs::memory::MemoryFilesystem;
use xdvdfs::fs::{DirectoryTreeEntry, FileEntry, FileType};
use xdvdfs::img::{
    create_dirent_tables, create_xdvdfs_image, image_alignment_padding, place_tables, total_entries,
};
use xdvdfs::path::pathref::PathRef;
use xdvdfs::path::pathvec::PathVec;
use xdvdfs::progress_info::{
    NoOpProgressVisitor, OwnedProgressInfo, ProgressInfo, ProgressVisitor,
};

struct Recorder<'a>(&'a mut Vec<OwnedProgressInfo>);

impl ProgressVisitor for Recorder<'_> {
    fn directory_discovered(&mut self, num_entries: usize) {
        self.0
            .push(ProgressInfo::DiscoveredDirectory(num_entries).to_owned());
    }

    fn entry_counts(&mut self, file_count: usize, dir_count: usize) {
        self.0.push(ProgressInfo::FileCount(file_count).to_owned());
        self.0.push(ProgressInfo::DirCount(dir_count).to_owned());
    }

    fn directory_added(&mut self, path: PathRef<'_>, sector: u64) {
        self.0
            .push(ProgressInfo::DirAdded(path.into(), sector).to_owned());
    }

    fn file_added(&mut self, path: PathRef<'_>, sector: u64) {
        self.0
            .push(ProgressInfo::FileAdded(path.into(), sector).to_owned());
    }

    fn finished_copying_image_data(&mut self) {
        self.0
            .push(ProgressInfo::FinishedCopyingImageData.to_owned());
    }

    fn finished(&mut self) {
        self.0.push(ProgressInfo::FinishedPacking.to_owned());
    }
}

fn file(name: &str, file_type: FileType, len: u64) -> FileEntry {
    FileEntry {
        name: name.to_string(),
        file_type,
        len,
    }
}

#[test]
fn test_create_dirent_tables_empty_root() {
    let dirtree = &[DirectoryTreeEntry {
        dir: "".into(),
        listing: Vec::new(),
    }];

    let dirtabs = create_dirent_tables(dirtree).expect("Dirtab should be valid");
    assert_eq!(dirtabs.count, 0);
    assert_eq!(dirtabs.dirent_tables.len(), 1);
}

#[test]
fn test_create_dirent_tables_root_file() {
    let dirtree = &[DirectoryTreeEntry {
        dir: "".into(),
        listing: vec![(file("abc", FileType::File, 10), 0)],
    }];

    let dirtabs = create_dirent_tables(dirtree).expect("Dirtab should be valid");
    assert_eq!(dirtabs.count, 1);
    assert_eq!(dirtabs.dirent_tables.len(), 1);
}

#[test]
fn test_create_dirent_tables_root_directory() {
    let dirtree = &[
        DirectoryTreeEntry {
            dir: "".into(),
            listing: vec![(file("abc", FileType::Directory, 0), 1)],
        },
        DirectoryTreeEntry {
            dir: "/abc".into(),
            listing: Vec::new(),
        },
    ];

    let dirtabs = create_dirent_tables(dirtree).expect("Dirtab should be valid");
    assert_eq!(dirtabs.count, 1);
    assert_eq!(dirtabs.dirent_tables.len(), 2);
}

#[test]
fn test_create_dirent_tables_nested_dirs() {
    let dirtree = &[
        DirectoryTreeEntry {
            dir: "".into(),
            listing: vec![(file("abc", FileType::Directory, 0), 1)],
        },
        DirectoryTreeEntry {
            dir: "/abc".into(),
            listing: vec![(file("def", FileType::File, 5), 0)],
        },
    ];

    let dirtabs = create_dirent_tables(dirtree).expect("Dirtab should be valid");
    assert_eq!(dirtabs.count, 2);
    assert_eq!(dirtabs.dirent_tables.len(), 2);
}

#[test]
fn test_create_dirent_tables_entries_added() {
    let dirtree = &[
        DirectoryTreeEntry {
            dir: "".into(),
            listing: vec![(file("abc", FileType::Directory, 0), 1)],
        },
        DirectoryTreeEntry {
            dir: "/abc".into(),
            listing: vec![(file("def", FileType::File, 5), 0)],
        },
    ];

    let dirtabs = create_dirent_tables(dirtree).expect("Dirtab should be valid");
    assert_eq!(dirtabs.count, 2);
    assert_eq!(dirtabs.dirent_tables.len(), 2);

    let root = dirtabs.dirent_tables.last().unwrap();
    assert_eq!(root.0, PathVec::default());
    let listing: Vec<_> = root.1.iter();
    assert_eq!(
        listing,
        &[FileListingEntry {
            name: "abc",
            sector: 0,
            size: 2048,
            is_dir: true,
            idx: 1,
        }],
    );

    let abc = dirtabs.dirent_tables.first().unwrap();
    assert_eq!(abc.0, PathVec::from("abc"));
    let listing: Vec<_> = abc.1.iter();
    assert_eq!(
        listing,
        &[FileListingEntry {
            name: "def",
            sector: 0,
            size: 5,
            is_dir: false,
            idx: 0,
        },],
    );
}

#[test]
fn test_create_xdvdfs_image_progress_callback() {
    let mut memfs = MemoryFilesystem::default();
    memfs.mkdir("/a".into());
    memfs.touch("/a/b".into());
    memfs.mkdir("/b".into());

    let mut nulldev = NullBlockDevice::default();

    let mut progress_list = Vec::new();

    let res = create_xdvdfs_image(&mut memfs, &mut nulldev, Recorder(&mut progress_list));
    assert!(res.is_ok());

    assert_eq!(
        progress_list,
        &[
            OwnedProgressInfo::DiscoveredDirectory(2),
            OwnedProgressInfo::DiscoveredDirectory(1),
            OwnedProgressInfo::DiscoveredDirectory(0),
            OwnedProgressInfo::FileCount(3),
            OwnedProgressInfo::DirCount(3),
            OwnedProgressInfo::DirAdded(PathRef::from("/").into(), 33),
            OwnedProgressInfo::FileAdded(PathRef::from("/a").into(), 34),
            OwnedProgressInfo::FileAdded(PathRef::from("/b").into(), 35),
            OwnedProgressInfo::DirAdded(PathRef::from("/a").into(), 34),
            OwnedProgressInfo::FileAdded(PathRef::from("/a/b").into(), 36),
            OwnedProgressInfo::DirAdded(PathRef::from("/b").into(), 35),
            OwnedProgressInfo::FinishedCopyingImageData,
            OwnedProgressInfo::FinishedPacking,
        ]
    );
}

#[test]
fn test_create_xdvdfs_image_32_sector_padding() {
    let mut memfs = MemoryFilesystem::default();
    let mut nulldev = NullBlockDevice::default();

    let res = create_xdvdfs_image(&mut memfs, &mut nulldev, NoOpProgressVisitor);
    assert!(res.is_ok());

    // Volume info at sector 32, the empty root table at sector 33, then
    // padding up to sector 64.
    assert_eq!(nulldev.len_blocking(), 64 * 2048);
}

#[test]
fn create_dirent_tables_rejects_duplicate_names() {
    let dirtree = &[DirectoryTreeEntry {
        dir: "".into(),
        listing: vec![
            (file("abc", FileType::File, 1), 0),
            (file("ABC", FileType::File, 2), 0),
        ],
    }];
    assert_eq!(
        create_dirent_tables(dirtree).err(),
        Some(FileStructureError::DuplicateFileName)
    );
}

#[test]
fn create_dirent_tables_rejects_large_files() {
    let dirtree = &[DirectoryTreeEntry {
        dir: "".into(),
        listing: vec![(file("big", FileType::File, 1 << 32), 0)],
    }];
    assert_eq!(
        create_dirent_tables(dirtree).err(),
        Some(FileStructureError::FileTooLarge)
    );
}

#[test]
fn create_dirent_tables_records_child_table_size() {
    // A directory whose table takes two sectors is listed with that size.
    let names: Vec<String> = (0..200).map(|i| format!("file_with_a_long_name_{i:03}")).collect();
    let listing = names
        .iter()
        .map(|n| (file(n, FileType::File, 1), 0))
        .collect();
    let dirtree = &[
        DirectoryTreeEntry {
            dir: "".into(),
            listing: vec![(file("d", FileType::Directory, 0), 1)],
        },
        DirectoryTreeEntry {
            dir: "/d".into(),
            listing,
        },
    ];
    let dirtabs = create_dirent_tables(dirtree).expect("Dirtab should be valid");
    assert_eq!(dirtabs.count, 201);
    let child_size = dirtabs.dirent_tables[0].1.dirtab_size();
    assert!(child_size > 2048);
    let root = dirtabs.dirent_tables.last().unwrap();
    let listing = root.1.iter();
    assert_eq!(listing[0].size, ((child_size as u64) + 2047) / 2048 * 2048);
}

#[test]
fn dir_tree_links_directories_breadth_first() {
    let mut memfs = MemoryFilesystem::default();
    memfs.mkdir("/a/x".into());
    memfs.touch("/b".into());
    memfs.mkdir("/c".into());

    let tree = dir_tree(&mut memfs, &mut NoOpProgressVisitor).expect("tree should be listed");
    let dirs: Vec<String> = tree.iter().map(|e| e.dir.as_string()).collect();
    assert_eq!(dirs, ["/", "/a", "/c", "/a/x"]);
    let root: Vec<(String, usize)> = tree[0]
        .listing
        .iter()
        .map(|(e, i)| (e.name.clone(), *i))
        .collect();
    assert_eq!(
        root,
        [("a".to_string(), 1), ("b".to_string(), 0), ("c".to_string(), 2)]
    );
    assert_eq!(tree[1].listing[0].1, 3);
    assert_eq!(total_entries(&tree), Some(4));
}

#[test]
fn dir_tree_gives_each_directory_one_parent() {
    let mut memfs = MemoryFilesystem::default();
    memfs.mkdir("/a/x/y".into());
    memfs.mkdir("/b/x".into());
    memfs.touch("/b/f".into());

    let tree = dir_tree(&mut memfs, &mut NoOpProgressVisitor).expect("tree should be listed");
    let mut parents = vec![0usize; tree.len()];
    for entry in tree.iter() {
        for (item, idx) in entry.listing.iter() {
            if item.file_type == FileType::Directory {
                assert!(*idx > 0 && *idx < tree.len());
                parents[*idx] += 1;
            } else {
                assert_eq!(*idx, 0);
            }
        }
    }
    assert_eq!(parents[0], 0);
    assert!(parents[1..].iter().all(|n| *n == 1));
}

#[test]
fn image_places_each_table_where_its_parent_lists_it() {
    let mut memfs = MemoryFilesystem::default();
    memfs.mkdir("/a/x/y".into());
    memfs.create("/a/x/data".into(), &vec![1; 5000]);
    memfs.mkdir("/b".into());
    memfs.touch("/b/f".into());

    let mut events = Vec::new();
    let mut null = NullBlockDevice::default();
    create_xdvdfs_image(&mut memfs, &mut null, Recorder(&mut events)).unwrap();

    let mut listed: Vec<(String, u64)> = Vec::new();
    let mut placed: Vec<(String, u64)> = Vec::new();
    for e in events.iter() {
        match e {
            OwnedProgressInfo::FileAdded(p, s) => listed.push((p.as_string(), *s)),
            OwnedProgressInfo::DirAdded(p, s) => placed.push((p.as_string(), *s)),
            _ => {}
        }
    }
    assert_eq!(placed[0], ("/".to_string(), 33));
    assert_eq!(placed.len(), 5);
    for (path, sector) in placed[1..].iter() {
        assert!(listed.contains(&(path.clone(), *sector)), "{path} at {sector}");
    }
}

#[test]
fn place_tables_links_parents_to_children() {
    let dirtree = &[
        DirectoryTreeEntry {
            dir: "".into(),
            listing: vec![
                (file("abc", FileType::Directory, 0), 1),
                (file("big", FileType::File, 5000), 0),
                (file("xyz", FileType::Directory, 0), 2),
            ],
        },
        DirectoryTreeEntry {
            dir: "/abc".into(),
            listing: vec![(file("def", FileType::File, 5), 0)],
        },
        DirectoryTreeEntry {
            dir: "/xyz".into(),
            listing: Vec::new(),
        },
    ];

    let dirtabs = create_dirent_tables(dirtree).expect("Dirtab should be valid");
    let layout = place_tables(dirtabs.dirent_tables);
    assert!(layout.failure.is_none());
    let placed = &layout.placed;
    assert_eq!(placed.len(), 3);
    assert_eq!(placed[0].sector, 33);
    assert_eq!(placed[0].bytes.len(), 2048);
    for table in placed.iter() {
        for entry in table.entries.iter() {
            if entry.is_dir {
                assert_eq!(placed[entry.idx].sector, entry.sector);
            }
        }
    }
    // The root's table takes sector 33; its entries follow, one run each,
    // in the pre-order of the table's tree, whose root is "big":
    // "big" 34-36, "abc" 37, "xyz" 38.
    let sectors: Vec<(&str, u64)> = placed[0].entries.iter().map(|e| (e.name, e.sector)).collect();
    assert!(sectors.contains(&("big", 34)));
    assert!(sectors.contains(&("abc", 37)));
    assert!(sectors.contains(&("xyz", 38)));
    // The file of "/abc" comes after everything the root placed.
    assert_eq!(placed[1].entries[0].sector, 39);
}

#[test]
fn image_alignment_padding_rounds_to_32_sectors() {
    assert_eq!(image_alignment_padding(0), 0);
    assert_eq!(image_alignment_padding(1), 65535);
    assert_eq!(image_alignment_padding(65536), 0);
    assert_eq!(image_alignment_padding(34 * 2048), 65536 * 2 - 34 * 2048);
}

#[test]
fn test_create_xdvdfs_image_writes_volume_descriptor_into_slice() {
    let mut fs = MemoryFilesystem::default();
    fs.create("/a".into(), &[7u8; 10]);
    let mut image = vec![0u8; 64 * 2048];
    let r = create_xdvdfs_image(&mut fs, image.as_mut_slice(), NoOpProgressVisitor);
    assert!(r.is_ok());
    let d = &image[32 * 2048..33 * 2048];
    assert_eq!(&d[0..20], b"MICROSOFT*XBOX*MEDIA");
    assert_eq!(u32::from_le_bytes([d[20], d[21], d[22], d[23]]), 33);
    assert_eq!(u32::from_le_bytes([d[24], d[25], d[26], d[27]]), 16);
    assert_eq!(&d[28..36], &[0u8; 8]);
    assert_eq!(&d[2028..2048], b"MICROSOFT*XBOX*MEDIA");
    assert_eq!(&image[34 * 2048..34 * 2048 + 10], &[7u8; 10]);
}

#[test]
fn test_create_xdvdfs_image_null_device_length_is_padded() {
    let mut fs = MemoryFilesystem::default();
    fs.create("/a".into(), &[7u8; 10]);
    let mut dev = NullBlockDevice::default();
    create_xdvdfs_image(&mut fs, &mut dev, NoOpProgressVisitor).expect("image is written");
    let len = dev.len_blocking();
    assert_eq!(len % (32 * 2048), 0);
    assert_eq!(len, 64 * 2048);
}

#[test]
fn test_create_xdvdfs_image_refuses_names_listed_twice() {
    let mut fs = MemoryFilesystem::default();
    fs.create("/abc".into(), &[1u8]);
    fs.create("/ABC".into(), &[2u8]);
    let mut dev = NullBlockDevice::default();
    let r = create_xdvdfs_image(&mut fs, &mut dev, NoOpProgressVisitor);
    assert!(matches!(
        r,
        Err(WriteError::InvalidFileStructureError(FileStructureError::DuplicateFileName))
    ));
}

#[test]
fn test_create_xdvdfs_image_places_table_then_files_in_slice() {
    let mut fs = MemoryFilesystem::default();
    fs.create("/b".into(), &[5u8; 3000]);
    fs.create("/a".into(), &[9u8; 4]);
    let mut image = vec![0u8; 64 * 2048];
    create_xdvdfs_image(&mut fs, image.as_mut_slice(), NoOpProgressVisitor).expect("image is written");
    // The root table at sector 33 names both files; "a" comes first in the
    // table's pre-order only if it is the root of the tree, so look both up.
    let root = &image[33 * 2048..34 * 2048];
    let name_at = |off: usize| root[off + 14..off + 14 + root[off + 13] as usize].to_vec();
    let mut found = Vec::new();
    for off in [0usize, 16] {
        let sector = u32::from_le_bytes([root[off + 4], root[off + 5], root[off + 6], root[off + 7]]);
        let size = u32::from_le_bytes([root[off + 8], root[off + 9], root[off + 10], root[off + 11]]);
        found.push((name_at(off), sector, size));
    }
    found.sort();
    assert_eq!(found[0].0, b"a".to_vec());
    assert_eq!(found[0].2, 4);
    assert_eq!(found[1].0, b"b".to_vec());
    assert_eq!(found[1].2, 3000);
    let sa = found[0].1 as usize;
    let sb = found[1].1 as usize;
    assert_eq!(&image[sa * 2048..sa * 2048 + 4], &[9u8; 4]);
    assert_eq!(&image[sb * 2048..sb * 2048 + 3000], &[5u8; 3000][..]);
}
