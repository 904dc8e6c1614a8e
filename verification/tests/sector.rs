use xdvdfs::sector::{required_sectors, SectorAllocator};

#[test]
fn test_required_sectors_zero_len() {
    assert_eq!(required_sectors(0), 1);
}

#[test]
fn test_required_sectors_aligned() {
    assert_eq!(required_sectors(4096), 2);
}

#[test]
fn test_required_sectors_unaligned() {
    assert_eq!(required_sectors(8191), 4);
}

#[test]
fn test_linear_sector_allocator_single() {
    let mut allocator = SectorAllocator::default();
    assert_eq!(allocator.allocate_contiguous(10), 33);
}

#[test]
fn test_linear_sector_allocator_multiple() {
    let mut allocator = SectorAllocator::default();
    assert_eq!(allocator.allocate_contiguous(10), 33);
    assert_eq!(allocator.allocate_contiguous(4095), 34);
    assert_eq!(allocator.allocate_contiguous(2048), 36);
}

#[test]
fn required_sectors_one_byte_over_a_sector() {
    assert_eq!(required_sectors(2049), 2);
    assert_eq!(required_sectors(1), 1);
}

#[test]
fn allocator_runs_do_not_overlap() {
    let mut allocator = SectorAllocator::default();
    let first = allocator.allocate_contiguous(0);
    let second = allocator.allocate_contiguous(5000);
    let third = allocator.allocate_contiguous(1);
    assert_eq!(first, 33);
    assert_eq!(second, 34);
    assert_eq!(third, 37);
}
