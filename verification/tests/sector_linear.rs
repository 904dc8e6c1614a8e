use xdvdfs::blockdev::BlockDeviceWrite;
use xdvdfs::sector_linear::SectorLinearError;
use xdvdfs::path::pathref::PathRef;
use xdvdfs::path::pathvec::PathVec;
use xdvdfs::sector_linear::{
    SectorBound, SectorLinearBlockDevice, SectorLinearBlockRegion, SectorLinearBlockSectorContents,
};

fn fill(sectors: u64) -> SectorLinearBlockRegion {
    SectorLinearBlockRegion::Fill {
        byte: 0xff,
        sectors,
    }
}

fn four_regions(first_sectors: u64) -> SectorLinearBlockDevice {
    let mut slbd = SectorLinearBlockDevice::default();
    slbd.contents.insert(4, fill(first_sectors));
    slbd.contents.insert(6, fill(2));
    slbd.contents.insert(8, fill(1));
    slbd.contents.insert(9, fill(2));
    slbd
}

fn five_regions() -> SectorLinearBlockDevice {
    let mut slbd = SectorLinearBlockDevice::default();
    slbd.contents.insert(2, fill(2));
    slbd.contents.insert(4, fill(2));
    slbd.contents.insert(6, fill(2));
    slbd.contents.insert(8, fill(1));
    slbd.contents.insert(9, fill(2));
    slbd
}

#[test]
fn test_sector_linear_dev_clear() {
    let mut slbd = SectorLinearBlockDevice::default();
    slbd.contents.insert(
        5,
        SectorLinearBlockRegion::Fill {
            byte: 0xff,
            sectors: 2,
        },
    );
    slbd.clear();
    assert_eq!(slbd.size(), 0);
}

#[test]
fn test_sector_linear_dev_size_end_fill() {
    let mut slbd = SectorLinearBlockDevice::default();
    slbd.contents.insert(
        5,
        SectorLinearBlockRegion::Fill {
            byte: 0xff,
            sectors: 2,
        },
    );
    assert_eq!(slbd.size(), 7 * 2048);
}

#[test]
fn test_sector_linear_dev_size_end_raw_data() {
    let mut slbd = SectorLinearBlockDevice::default();
    let data = vec![0; 4096];
    slbd.contents.insert(5, SectorLinearBlockRegion::RawData(data));
    assert_eq!(slbd.size(), 7 * 2048);
}

#[test]
fn test_sector_linear_dev_size_end_file() {
    let mut slbd = SectorLinearBlockDevice::default();
    slbd.contents.insert(
        5,
        SectorLinearBlockRegion::File {
            path: PathVec::default(),
            sectors: 3,
        },
    );
    assert_eq!(slbd.size(), 8 * 2048);
}

#[test]
fn test_sector_linear_dev_num_sectors_fill() {
    let mut slbd = SectorLinearBlockDevice::default();
    slbd.contents.insert(
        5,
        SectorLinearBlockRegion::Fill {
            byte: 0xff,
            sectors: 1,
        },
    );
    assert_eq!(slbd.num_sectors(), 6);
}

#[test]
fn test_sector_linear_dev_num_sectors_file() {
    let mut slbd = SectorLinearBlockDevice::default();
    slbd.contents.insert(
        5,
        SectorLinearBlockRegion::File {
            path: PathVec::default(),
            sectors: 1,
        },
    );
    assert_eq!(slbd.num_sectors(), 6);
}

#[test]
fn test_sector_linear_dev_num_sectors_data() {
    let mut slbd = SectorLinearBlockDevice::default();
    slbd.contents
        .insert(5, SectorLinearBlockRegion::RawData(vec![0; 2048]));
    assert_eq!(slbd.num_sectors(), 6);
}

#[test]
fn test_sector_linear_dev_num_sectors_zero_length_fill() {
    let mut slbd = SectorLinearBlockDevice::default();
    slbd.contents.insert(
        5,
        SectorLinearBlockRegion::Fill {
            byte: 0xff,
            sectors: 0,
        },
    );
    assert_eq!(slbd.num_sectors(), 6);
}

#[test]
fn test_sector_linear_dev_num_sectors_zero_length_file() {
    let mut slbd = SectorLinearBlockDevice::default();
    slbd.contents.insert(
        5,
        SectorLinearBlockRegion::File {
            path: PathVec::default(),
            sectors: 0,
        },
    );
    assert_eq!(slbd.num_sectors(), 6);
}

#[test]
fn test_sector_linear_dev_num_sectors_empty() {
    let slbd = SectorLinearBlockDevice::default();
    assert_eq!(slbd.num_sectors(), 0);
}

#[test]
fn test_sector_linear_dev_index_empty() {
    let slbd = SectorLinearBlockDevice::default();
    assert_eq!(slbd.get(0), SectorLinearBlockSectorContents::Fill(0));
}

#[test]
fn test_sector_linear_dev_index_fill() {
    let mut slbd = SectorLinearBlockDevice::default();
    slbd.contents.insert(
        5,
        SectorLinearBlockRegion::Fill {
            byte: 0xff,
            sectors: 2,
        },
    );
    assert_eq!(slbd.get(5), SectorLinearBlockSectorContents::Fill(0xff));
}

#[test]
fn test_sector_linear_dev_index_past_region() {
    let mut slbd = SectorLinearBlockDevice::default();
    slbd.contents.insert(5, fill(2));
    assert_eq!(slbd.get(6), SectorLinearBlockSectorContents::Fill(0xff));
    assert_eq!(slbd.get(7), SectorLinearBlockSectorContents::Fill(0));
    assert_eq!(slbd.get(4), SectorLinearBlockSectorContents::Fill(0));
}

#[test]
fn test_sector_linear_dev_index_file() {
    let mut slbd = SectorLinearBlockDevice::default();
    let path = PathVec::from("/a/b");
    slbd.contents.insert(
        3,
        SectorLinearBlockRegion::File {
            path: path.clone(),
            sectors: 2,
        },
    );
    let expected: PathRef = "/a/b".into();
    assert_eq!(slbd.get(4), SectorLinearBlockSectorContents::File(expected));
}

#[test]
fn test_sector_linear_dev_write_then_get() {
    let mut slbd = SectorLinearBlockDevice::default();
    slbd.write_raw(2048, &[1, 2, 3, 4, 5]);

    assert_eq!(slbd.get(0), SectorLinearBlockSectorContents::Fill(0));
    let SectorLinearBlockSectorContents::RawData(data) = slbd.get(1) else {
        panic!("Sector 1 should contain raw data");
    };
    assert_eq!(data[0..5], [1, 2, 3, 4, 5]);
    assert_eq!(data.len(), 2048);
    assert_eq!(slbd.get(2), SectorLinearBlockSectorContents::Fill(0));
}

#[test]
fn test_sector_linear_dev_write_multi_sector_then_get() {
    let mut slbd = SectorLinearBlockDevice::default();
    let data = vec![10; 2048 * 2];
    assert!(slbd.check_sector_range_free(1, 2));
    slbd.write_raw(2048, &data);
    assert!(!slbd.check_sector_range_free(2, 1));
    assert!(slbd.check_sector_range_free(3, 1));

    let SectorLinearBlockSectorContents::RawData(data) = slbd.get(2) else {
        panic!("Sector 2 should contain raw data");
    };
    assert_eq!(data[0..5], [10, 10, 10, 10, 10]);
    assert_eq!(slbd.get(3), SectorLinearBlockSectorContents::Fill(0));
}

#[test]
fn test_sector_linear_region_sizes() {
    assert_eq!(fill(0).size_sectors(), 1);
    assert_eq!(fill(3).size_bytes(), 3 * 2048);
    assert_eq!(
        SectorLinearBlockRegion::RawData(vec![0; 3 * 2048]).size_sectors(),
        3
    );
}

#[test]
fn test_sector_linear_range_iterator_start_not_contained() {
    let slbd = four_regions(1);

    let result: Vec<(u64, &SectorLinearBlockRegion)> =
        slbd.sector_range(SectorBound::Included(5), SectorBound::Included(9));
    assert_eq!(result, &[(6, &fill(2)), (8, &fill(1)), (9, &fill(2)),]);
}

#[test]
fn test_sector_linear_range_iterator_start_contained_by_prev() {
    let slbd = four_regions(2);

    let result: Vec<(u64, &SectorLinearBlockRegion)> =
        slbd.sector_range(SectorBound::Included(5), SectorBound::Included(9));
    assert_eq!(
        result,
        &[(4, &fill(2)), (6, &fill(2)), (8, &fill(1)), (9, &fill(2)),]
    );
}

#[test]
fn test_sector_linear_range_iterator_unbounded_below() {
    let slbd = five_regions();

    let result: Vec<(u64, &SectorLinearBlockRegion)> =
        slbd.sector_range(SectorBound::Unbounded, SectorBound::Excluded(9));
    assert_eq!(
        result,
        &[(2, &fill(2)), (4, &fill(2)), (6, &fill(2)), (8, &fill(1)),]
    );
}

#[test]
fn test_sector_linear_range_iterator_unbounded_above() {
    let slbd = five_regions();

    let result: Vec<(u64, &SectorLinearBlockRegion)> =
        slbd.sector_range(SectorBound::Included(5), SectorBound::Unbounded);
    assert_eq!(
        result,
        &[(4, &fill(2)), (6, &fill(2)), (8, &fill(1)), (9, &fill(2)),]
    );
}

#[test]
fn test_sector_linear_range_iterator_equal() {
    let slbd = five_regions();

    let result: Vec<(u64, &SectorLinearBlockRegion)> =
        slbd.sector_range(SectorBound::Included(4), SectorBound::Unbounded);
    assert_eq!(
        result,
        &[(4, &fill(2)), (6, &fill(2)), (8, &fill(1)), (9, &fill(2)),]
    );
}

#[test]
fn test_sector_linear_range_iterator_excluded_start() {
    let slbd = four_regions(2);

    let result: Vec<(u64, &SectorLinearBlockRegion)> =
        slbd.sector_range(SectorBound::Excluded(5), SectorBound::Included(9));
    assert_eq!(result, &[(6, &fill(2)), (8, &fill(1)), (9, &fill(2)),]);
}

#[test]
fn test_sector_linear_range_iterator_excluded_start_included_sector() {
    let slbd = four_regions(2);

    let result: Vec<(u64, &SectorLinearBlockRegion)> =
        slbd.sector_range(SectorBound::Excluded(4), SectorBound::Included(9));
    assert_eq!(
        result,
        &[(4, &fill(2)), (6, &fill(2)), (8, &fill(1)), (9, &fill(2)),]
    );
}

#[test]
fn sector_linear_len_refuses_malformed_regions() {
    let mut slbd = SectorLinearBlockDevice::default();
    assert_eq!(BlockDeviceWrite::len(&mut slbd), Ok(0));
    slbd.contents.insert(3, SectorLinearBlockRegion::RawData(vec![1; 100]));
    assert_eq!(BlockDeviceWrite::len(&mut slbd), Err(SectorLinearError::OutOfRange));
    let mut slbd = SectorLinearBlockDevice::default();
    slbd.contents.insert(u64::MAX / 2048, fill(1));
    assert_eq!(BlockDeviceWrite::len(&mut slbd), Err(SectorLinearError::OutOfRange));
    let mut slbd = SectorLinearBlockDevice::default();
    slbd.contents.insert(4, fill(2));
    assert_eq!(BlockDeviceWrite::len(&mut slbd), Ok(6 * 2048));
}
