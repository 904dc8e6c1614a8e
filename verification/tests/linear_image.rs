use xdvdfs::fs::memory::MemoryFilesystem;
use xdvdfs::blockdev::BlockDeviceRead;
use xdvdfs::linear_image::{SectorLinearBlockFilesystem, SectorLinearImage, SectorLinearImageError};
use xdvdfs::path::pathvec::PathVec;
use xdvdfs::sector_linear::{SectorLinearBlockDevice, SectorLinearBlockRegion};

#[test]
fn test_linear_image_read_zero_fill_entry() {
    let memfs = MemoryFilesystem::default();
    let mut slbd = SectorLinearBlockDevice::default();
    let mut slbfs = SectorLinearBlockFilesystem::new(memfs);

    slbd.contents.insert(
        5,
        SectorLinearBlockRegion::Fill {
            byte: 0,
            sectors: 2,
        },
    );

    let mut image = SectorLinearImage::new(&slbd, &mut slbfs);
    let data = image
        .read_linear(5 * 2048, 2048)
        .expect("Read should return data");
    assert_eq!(data.len(), 2048);
    assert_eq!(data, vec![0; 2048]);
}

#[test]
fn test_linear_image_read_nonzero_fill_entry() {
    let memfs = MemoryFilesystem::default();
    let mut slbd = SectorLinearBlockDevice::default();
    let mut slbfs = SectorLinearBlockFilesystem::new(memfs);

    slbd.contents.insert(
        5,
        SectorLinearBlockRegion::Fill {
            byte: 0xff,
            sectors: 2,
        },
    );

    let mut image = SectorLinearImage::new(&slbd, &mut slbfs);
    let data = image
        .read_linear(5 * 2048, 2048)
        .expect("Read should return data");
    assert_eq!(data.len(), 2048);
    assert_eq!(data, vec![0xff; 2048]);
}

#[test]
fn test_linear_image_read_empty_image() {
    let memfs = MemoryFilesystem::default();
    let mut slbd = SectorLinearBlockDevice::default();
    let mut slbfs = SectorLinearBlockFilesystem::new(memfs);

    // Insert sector to give image size
    slbd.contents.insert(
        5,
        SectorLinearBlockRegion::Fill {
            byte: 0,
            sectors: 2,
        },
    );

    let mut image = SectorLinearImage::new(&slbd, &mut slbfs);
    let data = image.read_linear(0, 2048).expect("Read should return data");
    assert_eq!(data.len(), 2048);
    assert_eq!(data, vec![0; 2048]);
}

#[test]
fn test_linear_image_eof_truncated_output() {
    let memfs = MemoryFilesystem::default();
    let mut slbd = SectorLinearBlockDevice::default();
    let mut slbfs = SectorLinearBlockFilesystem::new(memfs);

    // Insert sector to give image size
    slbd.contents.insert(
        0,
        SectorLinearBlockRegion::Fill {
            byte: 0,
            sectors: 1,
        },
    );

    let mut image = SectorLinearImage::new(&slbd, &mut slbfs);
    let data = image.read_linear(0, 4096).expect("Read should return data");
    assert_eq!(data.len(), 2048);
    assert_eq!(data, vec![0; 2048]);
}

#[test]
fn test_linear_image_read_data() {
    let memfs = MemoryFilesystem::default();
    let mut slbd = SectorLinearBlockDevice::default();
    let mut slbfs = SectorLinearBlockFilesystem::new(memfs);

    let data = vec![10; 2048];
    slbd.contents.insert(0, SectorLinearBlockRegion::RawData(data));

    let mut image = SectorLinearImage::new(&slbd, &mut slbfs);
    let data = image.read_linear(0, 2048).expect("Read should return data");
    assert_eq!(data.len(), 2048);
    assert_eq!(data, vec![10; 2048]);
}

#[test]
fn test_linear_image_read_data_offset() {
    let memfs = MemoryFilesystem::default();
    let mut slbd = SectorLinearBlockDevice::default();
    let mut slbfs = SectorLinearBlockFilesystem::new(memfs);

    let data = vec![10; 2048];
    slbd.contents.insert(0, SectorLinearBlockRegion::RawData(data));
    slbd.contents.insert(
        1,
        SectorLinearBlockRegion::Fill {
            byte: 0,
            sectors: 1,
        },
    );

    let mut image = SectorLinearImage::new(&slbd, &mut slbfs);
    let data = image
        .read_linear(1024, 2048)
        .expect("Read should return data");
    assert_eq!(data.len(), 2048);
    assert_eq!(data[0..1024], vec![10; 1024]);
    assert_eq!(data[1024..], vec![0; 1024]);
}

#[test]
fn test_linear_image_read_data_sized() {
    let memfs = MemoryFilesystem::default();
    let mut slbd = SectorLinearBlockDevice::default();
    let mut slbfs = SectorLinearBlockFilesystem::new(memfs);

    let data = vec![10; 2048];
    slbd.contents.insert(0, SectorLinearBlockRegion::RawData(data));

    let mut image = SectorLinearImage::new(&slbd, &mut slbfs);
    let data = image.read_linear(0, 1024).expect("Read should return data");
    assert_eq!(data.len(), 1024);
    assert_eq!(data[0..1024], vec![10; 1024]);
}

#[test]
fn test_linear_image_read_file() {
    let mut memfs = MemoryFilesystem::default();
    memfs.create("/a/b".into(), &vec![10; 4000]);

    let mut slbd = SectorLinearBlockDevice::default();
    let mut slbfs = SectorLinearBlockFilesystem::new(memfs);

    let path = PathVec::from("/a/b");
    slbd.contents
        .insert(0, SectorLinearBlockRegion::File { path, sectors: 2 });

    let mut image = SectorLinearImage::new(&slbd, &mut slbfs);
    let data = image.read_linear(0, 4096).expect("Read should return data");
    assert_eq!(data.len(), 4096);
    assert_eq!(data[0..4000], vec![10; 4000]);
    assert_eq!(data[4000..], vec![0; 96]);
}

#[test]
fn test_linear_image_read_file_offset() {
    let mut memfs = MemoryFilesystem::default();
    memfs.create("/a/b".into(), &vec![10; 4000]);

    let mut slbd = SectorLinearBlockDevice::default();
    let mut slbfs = SectorLinearBlockFilesystem::new(memfs);

    let path = PathVec::from("/a/b");
    slbd.contents
        .insert(0, SectorLinearBlockRegion::File { path, sectors: 2 });

    let mut image = SectorLinearImage::new(&slbd, &mut slbfs);
    let data = image
        .read_linear(1024, 4096)
        .expect("Read should return data");
    assert_eq!(data.len(), 3072);

    // File size of 4000 - offset of 1024
    assert_eq!(data[0..2976], vec![10; 2976]);
    assert_eq!(data[2976..], vec![0; 96]);
}

#[test]
fn test_linear_image_read_file_sized() {
    let mut memfs = MemoryFilesystem::default();
    memfs.create("/a/b".into(), &vec![10; 4000]);

    let mut slbd = SectorLinearBlockDevice::default();
    let mut slbfs = SectorLinearBlockFilesystem::new(memfs);

    let path = PathVec::from("/a/b");
    slbd.contents
        .insert(0, SectorLinearBlockRegion::File { path, sectors: 2 });

    let mut image = SectorLinearImage::new(&slbd, &mut slbfs);
    let data = image.read_linear(0, 3072).expect("Read should return data");
    assert_eq!(data.len(), 3072);
    assert_eq!(data[0..3072], vec![10; 3072]);
}

#[test]
fn test_linear_image_read_sparse_multi_sector() {
    let mut memfs = MemoryFilesystem::default();
    memfs.create("/a/b".into(), &vec![10; 2000]);

    let mut slbd = SectorLinearBlockDevice::default();
    let mut slbfs = SectorLinearBlockFilesystem::new(memfs);

    slbd.contents.insert(
        3,
        SectorLinearBlockRegion::File {
            path: "/a/b".into(),
            sectors: 1,
        },
    );
    let data = vec![15; 2048];
    slbd.contents.insert(5, SectorLinearBlockRegion::RawData(data));

    let mut image = SectorLinearImage::new(&slbd, &mut slbfs);
    // Size: 1024 from sector 1, then sectors 2, 3, 4, 5
    let data = image
        .read_linear(3072, 2048 * 4 + 1024)
        .expect("Read should return data");
    assert_eq!(data.len(), 2048 * 4 + 1024);

    // Sector 1 and 2 are empty
    assert_eq!(data[0..3072], vec![0; 3072]);
    // Sector 3 is a file, last 48 bytes are zero
    assert_eq!(data[3072..5072], vec![10; 2000]);
    assert_eq!(data[5072..5120], vec![0; 48]);
    // Sector 4 is empty
    assert_eq!(data[5120..7168], vec![0; 2048]);
    // Sector 5 is data
    assert_eq!(data[7168..], vec![15; 2048]);
}

#[test]
fn linear_image_read_past_end_is_empty() {
    let memfs = MemoryFilesystem::default();
    let mut slbd = SectorLinearBlockDevice::default();
    let mut slbfs = SectorLinearBlockFilesystem::new(memfs);
    slbd.contents.insert(0, SectorLinearBlockRegion::RawData(vec![7; 2048]));

    let mut image = SectorLinearImage::new(&slbd, &mut slbfs);
    let data = image.read_linear(4096, 100).expect("Read should return data");
    assert!(data.is_empty());
}

use xdvdfs::blockdev::BlockDeviceWrite;
use xdvdfs::fs::FilesystemCopier;
use xdvdfs::img::create_xdvdfs_image;
use xdvdfs::path::pathref::PathRef;
use xdvdfs::progress_info::NoOpProgressVisitor;
use xdvdfs::sector_linear::{SectorLinearBlockSectorContents, SectorLinearError};

#[test]
fn test_sector_linear_fs_copier() {
    let memfs = MemoryFilesystem::default();
    let mut slbfs = SectorLinearBlockFilesystem::new(memfs);
    let mut slbd = SectorLinearBlockDevice::default();

    let path: PathRef = "/a/b".into();

    assert_eq!(slbfs.copy_file_in(path, &mut slbd, 0, 2048, 5000), Ok(5000));

    assert_eq!(slbd.get(0), SectorLinearBlockSectorContents::Fill(0));
    assert_eq!(slbd.get(1), SectorLinearBlockSectorContents::File(path));
    assert_eq!(slbd.get(2), SectorLinearBlockSectorContents::File(path));
    assert_eq!(slbd.get(3), SectorLinearBlockSectorContents::File(path));
    assert_eq!(slbd.get(4), SectorLinearBlockSectorContents::Fill(0));
}

#[test]
fn sector_linear_fs_copier_refuses_taken_sectors() {
    let memfs = MemoryFilesystem::default();
    let mut slbfs = SectorLinearBlockFilesystem::new(memfs);
    let mut slbd = SectorLinearBlockDevice::default();

    assert_eq!(slbfs.copy_file_in("/a".into(), &mut slbd, 0, 2048, 5000), Ok(5000));
    assert_eq!(
        slbfs.copy_file_in("/b".into(), &mut slbd, 0, 4096, 10),
        Err(SectorLinearError::Occupied)
    );
    assert_eq!(
        slbfs.copy_file_in("/b".into(), &mut slbd, 0, 100, 10),
        Err(SectorLinearError::Misaligned)
    );
}

#[test]
fn test_sector_linear_dev_write_aligned() {
    let mut slbd = SectorLinearBlockDevice::default();
    slbd.write(2048, &[1, 2, 3, 4, 5])
        .expect("write should succeed");

    assert_eq!(slbd.get(0), SectorLinearBlockSectorContents::Fill(0));
    let SectorLinearBlockSectorContents::RawData(data) = slbd.get(1) else {
        panic!("Sector 1 should contain raw data");
    };
    assert_eq!(data[0..5], [1, 2, 3, 4, 5]);
    assert_eq!(slbd.get(2), SectorLinearBlockSectorContents::Fill(0));
}

#[test]
fn test_sector_linear_dev_write_multi_sector() {
    let mut slbd = SectorLinearBlockDevice::default();
    let data = vec![10; 2048 * 2];
    slbd.write(2048, &data).expect("write should succeed");

    assert_eq!(slbd.get(0), SectorLinearBlockSectorContents::Fill(0));
    let SectorLinearBlockSectorContents::RawData(data) = slbd.get(1) else {
        panic!("Sector 1 should contain raw data");
    };
    assert_eq!(data[0..5], [10, 10, 10, 10, 10]);

    let SectorLinearBlockSectorContents::RawData(data) = slbd.get(2) else {
        panic!("Sector 2 should contain raw data");
    };
    assert_eq!(data[0..5], [10, 10, 10, 10, 10]);
    assert_eq!(slbd.get(3), SectorLinearBlockSectorContents::Fill(0));
}

#[test]
fn test_sector_linear_dev_write_non_sequential() {
    let mut slbd = SectorLinearBlockDevice::default();
    let data = vec![10; 2048];
    slbd.write(4096, &data).expect("write should succeed");
    slbd.write(2048, &data).expect("write should succeed");

    assert_eq!(slbd.get(0), SectorLinearBlockSectorContents::Fill(0));
    let SectorLinearBlockSectorContents::RawData(data) = slbd.get(1) else {
        panic!("Sector 1 should contain raw data");
    };
    assert_eq!(data[0..5], [10, 10, 10, 10, 10]);

    let SectorLinearBlockSectorContents::RawData(data) = slbd.get(2) else {
        panic!("Sector 2 should contain raw data");
    };
    assert_eq!(data[0..5], [10, 10, 10, 10, 10]);
    assert_eq!(slbd.get(3), SectorLinearBlockSectorContents::Fill(0));
}

#[test]
fn sector_linear_dev_write_refuses_misaligned_and_taken() {
    let mut slbd = SectorLinearBlockDevice::default();
    assert_eq!(slbd.write(100, &[1]), Err(SectorLinearError::Misaligned));
    slbd.write(2048, &[1]).expect("write should succeed");
    assert_eq!(slbd.write(2048, &[2]), Err(SectorLinearError::Occupied));
    assert_eq!(slbd.len(), Ok(2 * 2048));
}

#[test]
fn test_create_xdvdfs_image_32_sector_padding_not_applied() {
    let mut memfs = MemoryFilesystem::default();
    for i in 0..30 {
        // Volume info at sector 32
        // Root at sector 33 and 34
        // Need 30 more sectors to reach 64
        // (next multiple of 32-sector alignment)
        memfs.mkdir(format!("/{i}").as_str().into());
    }

    let mut slbd = SectorLinearBlockDevice::default();
    let mut slbfs = SectorLinearBlockFilesystem::new(memfs);

    let res = create_xdvdfs_image(&mut slbfs, &mut slbd, NoOpProgressVisitor);
    assert!(res.is_ok());

    assert_eq!(slbd.num_sectors(), 64);

    // An empty sector is 0xff filled,
    // whereas padding is 0x00 filled
    let empty_dirent_sector = vec![0xff; 2048];
    assert_eq!(
        slbd.get(63),
        SectorLinearBlockSectorContents::RawData(&empty_dirent_sector)
    );
}

#[test]
fn test_create_xdvdfs_image_directories_and_files_copied_in() {
    let mut memfs = MemoryFilesystem::default();
    memfs.mkdir("/a".into());
    memfs.touch("/a/b".into());
    memfs.mkdir("/b".into());

    let mut slbd = SectorLinearBlockDevice::default();
    let mut slbfs = SectorLinearBlockFilesystem::new(memfs);

    let res = create_xdvdfs_image(&mut slbfs, &mut slbd, NoOpProgressVisitor);
    assert!(res.is_ok());

    // Volume descriptor
    assert!(matches!(
        slbd.get(32),
        SectorLinearBlockSectorContents::RawData(_)
    ));
    // "/"
    assert!(matches!(
        slbd.get(33),
        SectorLinearBlockSectorContents::RawData(_)
    ));
    // "/a"
    assert!(matches!(
        slbd.get(34),
        SectorLinearBlockSectorContents::RawData(_)
    ));
    // "/b"
    assert!(matches!(
        slbd.get(35),
        SectorLinearBlockSectorContents::RawData(_)
    ));
    // "/a/b"
    assert_eq!(
        slbd.get(36),
        SectorLinearBlockSectorContents::File("/a/b".into())
    );
}

#[test]
fn created_image_starts_with_volume_descriptor() {
    let mut memfs = MemoryFilesystem::default();
    memfs.create("/f".into(), &[1, 2, 3]);

    let mut slbd = SectorLinearBlockDevice::default();
    let mut slbfs = SectorLinearBlockFilesystem::new(memfs);
    create_xdvdfs_image(&mut slbfs, &mut slbd, NoOpProgressVisitor).expect("image should be written");

    let mut image = SectorLinearImage::new(&slbd, &mut slbfs);
    let descriptor = image.read_linear(32 * 2048, 2048).expect("descriptor should be read");
    assert_eq!(&descriptor[0..20], b"MICROSOFT*XBOX*MEDIA");
    // Root table at sector 33, holding one 16-byte entry.
    assert_eq!(&descriptor[20..28], &[33, 0, 0, 0, 16, 0, 0, 0]);
    assert_eq!(&descriptor[2028..2048], b"MICROSOFT*XBOX*MEDIA");
    // The file follows the root table.
    let data = image.read_linear(34 * 2048, 3).expect("file should be read");
    assert_eq!(data, [1, 2, 3]);
}

#[test]
fn test_linear_image_block_device_read_pads_with_zeros() {
    let mut memfs = MemoryFilesystem::default();
    memfs.create("/f".into(), &[1, 2, 3]);
    let mut slbd = SectorLinearBlockDevice::default();
    let mut slbfs = SectorLinearBlockFilesystem::new(memfs);
    slbd.contents.insert(
        0,
        SectorLinearBlockRegion::Fill {
            byte: 0xaa,
            sectors: 1,
        },
    );
    slbd.contents.insert(
        1,
        SectorLinearBlockRegion::File {
            path: PathVec::from("/f"),
            sectors: 1,
        },
    );
    assert!(slbd.is_readable());

    let mut image = SectorLinearImage::new(&slbd, &mut slbfs);
    let mut buffer = vec![9u8; 8];
    assert_eq!(image.read(2046, &mut buffer), Ok(()));
    assert_eq!(buffer, vec![0xaa, 0xaa, 1, 2, 3, 0, 0, 0]);

    // Past the end of the device, the image reads as zeros.
    let mut buffer = vec![9u8; 4];
    assert_eq!(image.read(2 * 2048 + 10, &mut buffer), Ok(()));
    assert_eq!(buffer, vec![0; 4]);
}

#[test]
fn test_linear_image_block_device_read_refuses_overlap() {
    let memfs = MemoryFilesystem::default();
    let mut slbd = SectorLinearBlockDevice::default();
    let mut slbfs = SectorLinearBlockFilesystem::new(memfs);
    slbd.contents.insert(
        0,
        SectorLinearBlockRegion::Fill {
            byte: 1,
            sectors: 3,
        },
    );
    slbd.contents.insert(
        2,
        SectorLinearBlockRegion::Fill {
            byte: 2,
            sectors: 1,
        },
    );
    assert!(!slbd.is_readable());
    let mut image = SectorLinearImage::new(&slbd, &mut slbfs);
    let mut buffer = vec![0u8; 4];
    assert_eq!(
        image.read(0, &mut buffer),
        Err(SectorLinearImageError::InvalidDevice)
    );
}

#[test]
fn test_is_readable_raw_data() {
    let mut slbd = SectorLinearBlockDevice::default();
    assert!(slbd.is_readable());
    slbd.contents.insert(3, SectorLinearBlockRegion::RawData(vec![1; 2048]));
    assert!(slbd.is_readable());
    slbd.contents.insert(7, SectorLinearBlockRegion::RawData(vec![1; 100]));
    assert!(!slbd.is_readable());
}

#[test]
fn test_linear_image_read_sector_pads_last_sector() {
    let memfs = MemoryFilesystem::default();
    let mut slbd = SectorLinearBlockDevice::default();
    let mut slbfs = SectorLinearBlockFilesystem::new(memfs);
    slbd.contents.insert(
        0,
        SectorLinearBlockRegion::Fill {
            byte: 0x11,
            sectors: 1,
        },
    );
    let mut image = SectorLinearImage::new(&slbd, &mut slbfs);
    let first = image.read_sector(0, 1536).unwrap();
    assert_eq!(first, vec![0x11; 1536]);
    let second = image.read_sector(1, 1536).unwrap();
    assert_eq!(second.len(), 1536);
    assert!(second[..512].iter().all(|b| *b == 0x11));
    assert!(second[512..].iter().all(|b| *b == 0));
    let third = image.read_sector(5, 1536).unwrap();
    assert_eq!(third, vec![0; 1536]);
}

#[test]
fn test_linear_image_missing_file_fails_only_where_read() {
    let memfs = MemoryFilesystem::default();
    let mut slbd = SectorLinearBlockDevice::default();
    let mut slbfs = SectorLinearBlockFilesystem::new(memfs);

    slbd.contents.insert(
        2,
        SectorLinearBlockRegion::File { path: PathVec::from("/missing"), sectors: 1 },
    );
    slbd.contents
        .insert(0, SectorLinearBlockRegion::Fill { byte: 9, sectors: 1 });

    let mut image = SectorLinearImage::new(&slbd, &mut slbfs);
    let data = image.read_linear(0, 4096).expect("no file region is read");
    assert_eq!(data.len(), 4096);
    assert_eq!(data[0..2048], vec![9; 2048]);
    assert_eq!(data[2048..], vec![0; 2048]);
    assert!(image.read_linear(4000, 200).is_err());
}
