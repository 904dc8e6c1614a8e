use xdvdfs::dirtab::{
    avl_index_to_offset, compute_offsets, dirent_data_to_disk_node, sector_align,
    serialize_dirent_disk_node, AvlDirectoryEntryTableBuilder, DirtabWriterBuffers,
    FileListingEntry,
};
use xdvdfs::error::FileStructureError;
use xdvdfs::layout::{
    DirectoryEntryData, DirectoryEntryDiskData, DirectoryEntryDiskNode, DirentAttributes,
    DiskRegion, NameEncodingError,
};
use xdvdfs::sector::SectorAllocator;

#[test]
fn test_sector_align_offset_aligned() {
    assert_eq!(sector_align(0, 20), 0);
    assert_eq!(sector_align(2048, 20), 0);
}

#[test]
fn test_sector_align_offset_contained_in_sector() {
    assert_eq!(sector_align(1000, 50), 0);
    assert_eq!(sector_align(2000, 20), 0);
}

#[test]
fn test_sector_align_crosses_boundary() {
    assert_eq!(sector_align(2040, 20), 8);
    assert_eq!(sector_align(2020, 40), 28);
}

#[test]
fn test_compute_offsets_single_sector() {
    let sizes: &mut [u32] = &mut [100, 100, 100, 100];
    let offsets: Vec<u32> = compute_offsets(sizes);
    assert_eq!(offsets, &[0, 100, 200, 300,]);
}

#[test]
fn test_compute_offsets_multiple_sectors() {
    let sizes: &mut [u32] = &mut [252, 252, 252, 252, 252, 252, 252, 252, 252, 252];
    let offsets: Vec<u32> = compute_offsets(sizes);
    assert_eq!(
        offsets,
        &[
            0, 252, 504, 756, 1008, 1260, 1512, 1764,
            // 252 no longer fits in sector, push to 2048
            2048, 2300,
        ]
    );
}

#[test]
fn test_compute_offsets_empty() {
    let sizes: &[u32] = &[];
    assert!(compute_offsets(sizes).is_empty());
}

#[test]
fn test_avl_index_to_offset_leaf() {
    let offsets: &[u32] = &[0, 100, 200];
    assert_eq!(avl_index_to_offset(None, offsets), Ok(0));
}

#[test]
fn test_avl_index_to_offset_node() {
    let offsets: &[u32] = &[0, 100, 200];
    assert_eq!(avl_index_to_offset(Some(1), offsets), Ok(25));
}

#[test]
fn test_avl_index_to_offset_out_of_range() {
    let offsets: &[u32] = &[0, 100, 262144];
    assert_eq!(
        avl_index_to_offset(Some(2), offsets),
        Err(FileStructureError::TooManyDirectoryEntries)
    );
}

#[test]
fn test_avl_index_to_offset_largest_fitting() {
    let offsets: &[u32] = &[262143];
    assert_eq!(avl_index_to_offset(Some(0), offsets), Ok(65535));
}

#[test]
fn test_dirent_data_to_disk_node_leaf_node() {
    let mut data = DirectoryEntryData::new_without_sector(
        "HelloWorld".into(),
        2048,
        DirentAttributes(0).with_directory(true),
        1234,
    )
    .expect("Data should be valid");
    let offsets: &[u32] = &[0, 2048, 4096];

    data.compute_len_and_name_encoding().unwrap();
    let name_bytes = data.get_encoded_name();

    let node = dirent_data_to_disk_node(&data, None, None, offsets, &name_bytes, 33)
        .expect("Node should be created without error");
    assert_eq!({ node.left_entry_offset }, 0);
    assert_eq!({ node.right_entry_offset }, 0);
    assert_eq!({ node.dirent.data.sector }, 33);
    assert_eq!({ node.dirent.filename_length }, 10);
    assert_eq!(&name_bytes[0..10], "HelloWorld".as_bytes());
}

#[test]
fn test_dirent_data_to_disk_node_with_child_nodes() {
    let mut data = DirectoryEntryData::new_without_sector(
        "HelloWorld".into(),
        2048,
        DirentAttributes(0).with_directory(true),
        1234,
    )
    .expect("Data should be valid");
    let offsets: &[u32] = &[0, 2048, 4096];

    data.compute_len_and_name_encoding().unwrap();
    let name_bytes = data.get_encoded_name();

    let node = dirent_data_to_disk_node(&data, Some(1), Some(2), offsets, &name_bytes, 33)
        .expect("Node should be created without error");
    assert_eq!({ node.left_entry_offset }, 512);
    assert_eq!({ node.right_entry_offset }, 1024);
    assert_eq!({ node.dirent.data.sector }, 33);
    assert_eq!({ node.dirent.filename_length }, 10);
    assert_eq!(&name_bytes[0..10], "HelloWorld".as_bytes());
}

#[test]
fn test_serialize_dirent_disk_node_without_alignment() {
    let node = DirectoryEntryDiskNode {
        left_entry_offset: 512,
        right_entry_offset: 1024,
        dirent: DirectoryEntryDiskData {
            data: DiskRegion {
                sector: 33,
                size: 2048,
            },
            attributes: DirentAttributes(0).with_directory(true),
            filename_length: 10,
        },
    };
    let name_bytes = "HelloWorld".as_bytes();

    // Initial len + sizeof(node) + sizeof(name)
    let mut buffer = vec![0xff; 2048 + 0xe + 10];
    assert!(serialize_dirent_disk_node(&mut buffer[2048..], node, name_bytes).is_ok());
    assert_eq!(&buffer[0..2048], vec![0xff; 2048]);
    assert_eq!(&buffer[2048..(2048 + 0xe)], node.serialize().unwrap());
    assert_eq!(&buffer[(2048 + 0xe)..], name_bytes);
}

#[test]
fn test_serialize_dirent_disk_node_with_alignment() {
    let node = DirectoryEntryDiskNode {
        left_entry_offset: 512,
        right_entry_offset: 1024,
        dirent: DirectoryEntryDiskData {
            data: DiskRegion {
                sector: 33,
                size: 2048,
            },
            attributes: DirentAttributes(0).with_directory(true),
            filename_length: 11,
        },
    };
    let name_bytes = "HelloWorlds".as_bytes();

    // Initial len + sizeof(node) + sizeof(name) + 4-byte alignment
    let mut buffer = vec![0xff; 2048 + 0xe + 11 + 3];
    assert!(serialize_dirent_disk_node(&mut buffer[2048..], node, name_bytes).is_ok());
    assert_eq!(&buffer[0..2048], vec![0xff; 2048]);
    assert_eq!(&buffer[2048..(2048 + 0xe)], node.serialize().unwrap());
    assert_eq!(&buffer[(2048 + 0xe)..(2048 + 0xe + 11)], name_bytes);
    assert_eq!(&buffer[(2048 + 0xe + 11)..], &[0xff, 0xff, 0xff]);
}

#[test]
fn test_serialize_dirent_disk_node_short_table() {
    let node = DirectoryEntryDiskNode {
        left_entry_offset: 1,
        right_entry_offset: 2,
        dirent: DirectoryEntryDiskData {
            data: DiskRegion { sector: 3, size: 4 },
            attributes: DirentAttributes(0),
            filename_length: 0,
        },
    };
    let mut buffer = vec![0xab; 13];
    assert_eq!(
        serialize_dirent_disk_node(&mut buffer[..], node, &[]),
        Err(FileStructureError::SerializationError)
    );
    assert_eq!(buffer, vec![0xab; 13]);
}

#[test]
fn test_disk_node_serialize_little_endian() {
    let node = DirectoryEntryDiskNode {
        left_entry_offset: 0x0102,
        right_entry_offset: 0x0304,
        dirent: DirectoryEntryDiskData {
            data: DiskRegion {
                sector: 0x05060708,
                size: 0x090a0b0c,
            },
            attributes: DirentAttributes(0x20),
            filename_length: 7,
        },
    };
    assert_eq!(
        node.serialize().unwrap(),
        vec![2, 1, 4, 3, 8, 7, 6, 5, 0xc, 0xb, 0xa, 9, 0x20, 7]
    );
}

#[test]
fn test_dirtab_writer_empty_size_computation() {
    let writer = AvlDirectoryEntryTableBuilder::default();
    let writer = writer.build().expect("Directory should be valid");

    assert_eq!(writer.dirtab_size(), 2048);
}

#[test]
fn test_dirtab_writer_single_directory_size_computation() {
    let mut writer = AvlDirectoryEntryTableBuilder::default();
    assert_eq!(writer.add_dir("test", 30, 1234), Ok(()));

    let writer = writer.build().expect("Directory should be valid");
    assert_eq!(writer.dirtab_size(), 0xe + 4 + 2);
}

#[test]
fn test_dirtab_writer_single_file_size_computation() {
    let mut writer = AvlDirectoryEntryTableBuilder::default();
    assert_eq!(writer.add_file("test", 30), Ok(()));

    let writer = writer.build().expect("Directory should be valid");
    assert_eq!(writer.dirtab_size(), 0xe + 4 + 2);
}

#[test]
fn test_dirtab_writer_multiple_entry_size_computation_without_realignment() {
    let mut writer = AvlDirectoryEntryTableBuilder::default();
    assert_eq!(writer.add_file("file", 30), Ok(()));
    assert_eq!(writer.add_dir("dir", 30, 1234), Ok(()));

    let writer = writer.build().expect("Directory should be valid");

    let dirent_len = 2 * 0xe;
    let filename_len = 4 + 3;
    let padding = 2 + 3;
    assert_eq!(writer.dirtab_size(), dirent_len + filename_len + padding);
}

#[test]
fn test_dirtab_writer_multiple_entry_size_computation_with_realignment() {
    let mut writer = AvlDirectoryEntryTableBuilder::default();

    // Add 103 files with name length '6'
    // Each dirent is of length 20, with a total over 2048
    let names: Vec<String> = (0..103).map(|i| format!("{i:06}")).collect();
    for name in &names {
        assert_eq!(writer.add_file(name, 10), Ok(()));
    }

    let writer = writer.build().expect("Directory should be valid");

    let dirent_len = 103 * 0xe;
    let filename_len = 103 * 6;
    let alignment = 8; // 102 * 20 = 2040, align to 2048
    assert_eq!(writer.dirtab_size(), dirent_len + filename_len + alignment);
}

#[test]
fn test_dirtab_writer_serialize_empty_directory() {
    let writer = AvlDirectoryEntryTableBuilder::default();
    let mut writer = writer.build().expect("Directory should be valid");
    let mut allocator = SectorAllocator::default();

    let mut buffers = DirtabWriterBuffers::default();
    let res = writer.disk_repr(&mut allocator, &mut buffers);
    assert!(res.is_ok());

    // Empty tables are '0xff' filled
    assert_eq!(buffers.dirtab_bytes, vec![0xffu8; 2048]);
    assert!(writer.iter().is_empty());
}

#[test]
fn test_dirtab_writer_serialize_single_file() {
    let mut writer = AvlDirectoryEntryTableBuilder::default();
    assert_eq!(writer.add_file("test", 10), Ok(()));

    let mut writer = writer.build().expect("Directory should be valid");
    let mut allocator = SectorAllocator::default();

    let mut buffers = DirtabWriterBuffers::default();
    let res = writer.disk_repr(&mut allocator, &mut buffers);
    assert!(res.is_ok());

    assert_eq!(
        &buffers.dirtab_bytes[0..0xe],
        &[0, 0, 0, 0, 33, 0, 0, 0, 10, 0, 0, 0, 32, 4,]
    );
    assert_eq!(&buffers.dirtab_bytes[0xe..(0xe + 4)], "test".as_bytes());
    assert_eq!(&buffers.dirtab_bytes[(0xe + 4)..], &vec![0xff; 2030]);

    let file_listing: Vec<_> = writer.iter();
    assert_eq!(
        file_listing,
        &[FileListingEntry {
            name: "test",
            sector: 33,
            size: 10,
            is_dir: false,
            idx: 0,
        },]
    );
}

#[test]
fn test_dirtab_writer_serialize_single_dir() {
    let mut writer = AvlDirectoryEntryTableBuilder::default();
    assert_eq!(writer.add_dir("test", 20, 1234), Ok(()));

    let mut writer = writer.build().expect("Directory should be valid");
    let mut allocator = SectorAllocator::default();
    let mut buffers = DirtabWriterBuffers::default();
    let res = writer.disk_repr(&mut allocator, &mut buffers);
    assert!(res.is_ok());

    assert_eq!(
        &buffers.dirtab_bytes[0..0xe],
        &[
            0, 0, 0, 0, 33, 0, 0, 0, 0, 8, 0, 0, // Dir is padded up to 2048 in size
            16, 4,
        ]
    );
    assert_eq!(&buffers.dirtab_bytes[0xe..(0xe + 4)], "test".as_bytes());
    assert_eq!(&buffers.dirtab_bytes[(0xe + 4)..], &vec![0xff; 2030]);

    let file_listing: Vec<_> = writer.iter();
    assert_eq!(
        file_listing,
        &[FileListingEntry {
            name: "test",
            sector: 33,
            size: 2048,
            is_dir: true,
            idx: 1234,
        },]
    );
}

#[test]
fn test_dirtab_writer_serialize_tree_entries() {
    let mut writer = AvlDirectoryEntryTableBuilder::default();
    assert_eq!(writer.add_dir("t1", 20, 1), Ok(()));
    assert_eq!(writer.add_dir("t2", 20, 2), Ok(()));
    assert_eq!(writer.add_dir("t3", 20, 3), Ok(()));

    let mut writer = writer.build().expect("Directory should be valid");
    let mut allocator = SectorAllocator::default();
    let mut buffers = DirtabWriterBuffers::default();
    let res = writer.disk_repr(&mut allocator, &mut buffers);
    assert!(res.is_ok());

    let entry_size: usize = 0xe + 2;

    assert_eq!(&buffers.dirtab_bytes[0..4], &[4, 0, 8, 0]);
    assert_eq!(
        &buffers.dirtab_bytes[entry_size..(entry_size + 4)],
        &[0, 0, 0, 0]
    );
    assert_eq!(
        &buffers.dirtab_bytes[(2 * entry_size)..(2 * entry_size + 4)],
        &[0, 0, 0, 0]
    );

    let file_listing: Vec<_> = writer.iter();
    assert_eq!(
        file_listing,
        &[
            FileListingEntry {
                name: "t1",
                sector: 34,
                size: 2048,
                is_dir: true,
                idx: 1,
            },
            FileListingEntry {
                name: "t2",
                sector: 33,
                size: 2048,
                is_dir: true,
                idx: 2,
            },
            FileListingEntry {
                name: "t3",
                sector: 35,
                size: 2048,
                is_dir: true,
                idx: 3,
            },
        ]
    );
}

#[test]
fn test_dirtab_writer_serialize_entry_sector_alignment() {
    let mut writer = AvlDirectoryEntryTableBuilder::default();

    // Add 103 files with name length '6'
    // Each dirent is of length 20, with a total over 2048
    let names: Vec<String> = (0..103).map(|i| format!("{i:06}")).collect();
    for name in &names {
        assert_eq!(writer.add_file(name, 10), Ok(()));
    }

    let mut writer = writer.build().expect("Directory should be valid");
    let mut allocator = SectorAllocator::default();
    let mut buffers = DirtabWriterBuffers::default();
    let res = writer.disk_repr(&mut allocator, &mut buffers);
    assert!(res.is_ok());

    let entry_size: usize = 0xe + 6;
    let aligned_entry_offset: usize = entry_size * 102;
    assert_eq!(
        &buffers.dirtab_bytes[aligned_entry_offset..(aligned_entry_offset + 8)],
        &vec![0xff; 8]
    );
}

#[test]
fn test_dirtab_writer_reject_duplicate_names() {
    let mut writer = AvlDirectoryEntryTableBuilder::default();
    assert_eq!(writer.add_file("t1", 10), Ok(()));
    assert_eq!(
        writer.add_dir("t1", 20, 1234),
        Err(FileStructureError::DuplicateFileName)
    );
}

#[test]
fn test_dirtab_writer_reject_duplicate_names_ignoring_case() {
    let mut writer = AvlDirectoryEntryTableBuilder::default();
    assert_eq!(writer.add_file("Name", 10), Ok(()));
    assert_eq!(
        writer.add_file("nAME", 10),
        Err(FileStructureError::DuplicateFileName)
    );
    assert_eq!(writer.len(), 1);
}

#[test]
fn test_dirtab_writer_reject_long_name() {
    let long_name: String = std::iter::repeat_n('a', 260).collect();
    let mut writer = AvlDirectoryEntryTableBuilder::default();
    assert_eq!(
        writer.add_dir(&long_name, 20, 1234),
        Err(FileStructureError::FileNameError(
            NameEncodingError::NameTooLong
        ))
    );
}

#[test]
fn test_dirtab_writer_reject_wide_character() {
    let mut writer = AvlDirectoryEntryTableBuilder::default();
    assert_eq!(
        writer.add_file("snow\u{2603}", 20),
        Err(FileStructureError::FileNameError(
            NameEncodingError::InvalidCharacter
        ))
    );
}

#[test]
fn test_dirtab_writer_allocates_preorder_sectors() {
    let mut writer = AvlDirectoryEntryTableBuilder::default();
    assert_eq!(writer.add_file("a", 4096), Ok(()));
    assert_eq!(writer.add_file("b", 10), Ok(()));

    let mut writer = writer.build().expect("Directory should be valid");
    let mut allocator = SectorAllocator::default();
    let mut buffers = DirtabWriterBuffers::default();
    assert!(writer.disk_repr(&mut allocator, &mut buffers).is_ok());

    let listing = writer.iter();
    assert_eq!(listing[0].sector, 33);
    assert_eq!(listing[1].sector, 35);
    assert_eq!(allocator.allocate_contiguous(1), 36);
}

#[test]
fn test_dirtab_writer_lists_additions_in_order_before_placement() {
    let mut builder = AvlDirectoryEntryTableBuilder::default();
    assert_eq!(builder.add_file("d", 7), Ok(()));
    assert_eq!(builder.add_dir("b", 10, 3), Ok(()));
    assert_eq!(builder.add_file("a", 0), Ok(()));
    assert_eq!(builder.add_file("B", 1), Err(FileStructureError::DuplicateFileName));
    assert_eq!(builder.add_file("c", 5000), Ok(()));

    let writer = builder.build().expect("Directory should be valid");
    let listing = writer.iter();
    let names: Vec<&str> = listing.iter().map(|e| e.name).collect();
    assert_eq!(names, ["d", "b", "a", "c"]);
    assert!(listing.iter().all(|e| e.sector == 0));
    assert_eq!(listing[1].size, 2048);
    assert!(listing[1].is_dir);
    assert_eq!(listing[1].idx, 3);
    assert_eq!(listing[3].size, 5000);
    assert!(!listing[3].is_dir);
    assert_eq!(listing[3].idx, 0);
}
