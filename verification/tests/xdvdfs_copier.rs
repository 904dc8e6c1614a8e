use xdvdfs::blockdev::{BlockDeviceRead, BlockDeviceWrite, NullBlockDevice, OutOfBounds};
use xdvdfs::fs::xdvdfs::{DefaultCopier, NullCopier, RWCopier, XDVDFSFilesystemError};

#[test]
fn test_write_xdvdfs_default_copier() {
    let mut dest = vec![0u8; 20];
    let mut src = vec![0xffu8; 20];
    src[0..3].fill(0x2e);

    let mut copier = DefaultCopier::with_buffer_size(5);
    let res = copier.copy(1, 2, 20 - 2, src.as_mut_slice(), dest.as_mut_slice());
    assert_eq!(res, Ok(20 - 2));
    assert_eq!(dest[0..2], [0, 0]);
    assert_eq!(src[1..19], dest[2..]);
}

#[test]
fn test_write_xdvdfs_null_copier() {
    let mut src = vec![0xffu8; 20];
    let mut dest = NullBlockDevice::default();

    let mut copier = NullCopier::default();
    let res = copier.copy(1, 2, 20 - 2, src.as_mut_slice(), &mut dest);
    assert_eq!(res, Ok(20 - 2));
    assert_eq!(dest.len_blocking(), 20);
}

#[test]
fn default_copier_reports_read_error() {
    let mut dest = vec![0u8; 20];
    let mut src = vec![1u8; 4];
    let mut copier = DefaultCopier::with_buffer_size(3);
    let res = copier.copy(5, 0, 6, src.as_mut_slice(), dest.as_mut_slice());
    assert_eq!(res, Err(XDVDFSFilesystemError::BlockDevReadErr(OutOfBounds)));
    assert_eq!(dest, vec![0u8; 20]);
}

#[test]
fn default_copier_reports_write_error() {
    let mut dest = vec![0u8; 4];
    let mut src = vec![1u8; 20];
    let mut copier = DefaultCopier::with_buffer_size(3);
    let res = copier.copy(0, 6, 6, src.as_mut_slice(), dest.as_mut_slice());
    assert_eq!(res, Err(XDVDFSFilesystemError::BlockDevWriteErr(OutOfBounds)));
}

#[test]
fn slice_block_device_read_and_write() {
    let mut dev = vec![0u8; 8];
    assert_eq!(dev.as_mut_slice().write(6, &[1, 2, 3]), Ok(()));
    assert_eq!(dev, vec![0, 0, 0, 0, 0, 0, 1, 2]);
    assert_eq!(dev.as_mut_slice().write(9, &[1]), Err(OutOfBounds));
    let mut buf = [9u8; 4];
    assert_eq!(dev.as_mut_slice().read(6, &mut buf), Ok(()));
    assert_eq!(buf, [1, 2, 9, 9]);
    assert_eq!(dev.as_mut_slice().read(8, &mut buf), Err(OutOfBounds));
    assert_eq!(BlockDeviceWrite::len(dev.as_mut_slice()), Ok(8));
}
