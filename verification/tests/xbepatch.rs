use xdvdfs::blockdev::{BlockDeviceRead, BlockDeviceWrite, DeviceModel};
use xdvdfs::layout::DiskRegion;
use xdvdfs::xbepatch::{
    apply_media_patch, patch_certificate, AllowedMediaTypes, XbeCertificate, XbeHeader, XbePatchError,
    MEDIA_PATCH_MASK, XBE_HEADER_MAGIC,
};

/// An image held in memory; reads past its end fail.
struct MemImage(Vec<u8>);

impl DeviceModel for MemImage {}

impl BlockDeviceRead for MemImage {
    type ReadError = ();

    fn read(&mut self, offset: u64, buffer: &mut [u8]) -> Result<(), ()> {
        let start = offset as usize;
        let end = start + <[u8]>::len(buffer);
        if end > self.0.len() {
            return Err(());
        }
        buffer.copy_from_slice(&self.0[start..end]);
        Ok(())
    }
}

impl BlockDeviceWrite for MemImage {
    type WriteError = ();

    fn write(&mut self, offset: u64, buffer: &[u8]) -> Result<(), ()> {
        let start = offset as usize;
        let end = start + <[u8]>::len(buffer);
        if end > self.0.len() {
            return Err(());
        }
        self.0[start..end].copy_from_slice(buffer);
        Ok(())
    }

    fn len(&mut self) -> Result<u64, ()> {
        Ok(self.0.len() as u64)
    }
}

fn put32(buf: &mut [u8], at: usize, v: u32) {
    buf[at..at + 4].copy_from_slice(&v.to_le_bytes());
}

fn get32(buf: &[u8], at: usize) -> u32 {
    u32::from_le_bytes([buf[at], buf[at + 1], buf[at + 2], buf[at + 3]])
}

/// An image with an XBE at sector 2 whose certificate lies 0x200 bytes
/// into it, with the given magic, recorded certificate size, media types
/// and runtime security flags.
fn image(magic: u32, cert_size: u32, media: u32, flags: u32) -> Vec<u8> {
    let mut img = vec![0u8; 8 * 2048];
    let xbe = 2 * 2048;
    put32(&mut img, xbe, magic);
    put32(&mut img, xbe + 260, 0x10000);
    put32(&mut img, xbe + 280, 0x10200);
    let cert = xbe + 0x200;
    put32(&mut img, cert, cert_size);
    put32(&mut img, cert + 8, 0x4d530004);
    put32(&mut img, cert + 156, media);
    for i in 0..16 {
        img[cert + 176 + i] = 0xa0 + i as u8;
    }
    put32(&mut img, cert + 472, flags);
    img
}

#[test]
fn test_apply_media_patch_full_certificate() {
    let mut dev = MemImage(image(XBE_HEADER_MAGIC, 476, 0x0000_0002, 0x0000_0007));
    let before = dev.0.clone();
    let xbe = DiskRegion { sector: 2, size: 4096 };
    let info = apply_media_patch(&mut dev, xbe).unwrap();
    assert_eq!(info.original.0, 0x0000_0002);
    assert_eq!(info.new.0, 0xC000_03FF);

    let cert = 2 * 2048 + 0x200;
    assert_eq!(get32(&dev.0, cert + 156), 0xC000_03FF);
    assert_eq!(get32(&dev.0, cert + 472), 0x0000_0006);
    for i in 0..dev.0.len() {
        if (cert + 156..cert + 160).contains(&i) || (cert + 472..cert + 476).contains(&i) {
            continue;
        }
        assert_eq!(dev.0[i], before[i], "byte {i} changed");
    }
}

#[test]
fn test_apply_media_patch_short_certificate_keeps_flags() {
    // A certificate that records 464 bytes: the security flags at its end
    // are not written back.
    let mut dev = MemImage(image(XBE_HEADER_MAGIC, 464, 0x8000_0010, 0x0000_0001));
    let xbe = DiskRegion { sector: 2, size: 4096 };
    let info = apply_media_patch(&mut dev, xbe).unwrap();
    assert_eq!(info.original.0, 0x8000_0010);
    assert_eq!(info.new.0, 0x8000_0010 | MEDIA_PATCH_MASK);
    let cert = 2 * 2048 + 0x200;
    assert_eq!(get32(&dev.0, cert + 156), 0xC000_03FF);
    assert_eq!(get32(&dev.0, cert + 472), 0x0000_0001);
}

#[test]
fn test_apply_media_patch_invalid_magic() {
    let mut dev = MemImage(image(0x1234_5678, 476, 0, 0));
    let before = dev.0.clone();
    let xbe = DiskRegion { sector: 2, size: 4096 };
    let r = apply_media_patch(&mut dev, xbe);
    assert!(matches!(r, Err(XbePatchError::InvalidVolume)));
    assert_eq!(dev.0, before);
}

#[test]
fn test_apply_media_patch_certificate_before_base() {
    let mut img = image(XBE_HEADER_MAGIC, 476, 0, 0);
    put32(&mut img, 2 * 2048 + 280, 0x0fff0);
    let mut dev = MemImage(img);
    let xbe = DiskRegion { sector: 2, size: 4096 };
    let r = apply_media_patch(&mut dev, xbe);
    assert!(matches!(r, Err(XbePatchError::InvalidVolume)));
}

#[test]
fn test_apply_media_patch_read_error() {
    let mut dev = MemImage(vec![0u8; 100]);
    let xbe = DiskRegion { sector: 2, size: 4096 };
    let r = apply_media_patch(&mut dev, xbe);
    assert!(matches!(r, Err(XbePatchError::ReadError(()))));
}

#[test]
fn test_xbe_header_roundtrip() {
    let mut bytes = vec![0u8; XbeHeader::SIZE];
    for (i, b) in bytes.iter_mut().enumerate() {
        *b = (i * 7 % 251) as u8;
    }
    put32(&mut bytes, 0, XBE_HEADER_MAGIC);
    let h = XbeHeader::deserialize(&bytes).unwrap();
    assert!(h.is_valid());
    assert_eq!(h.base_addr, get32(&bytes, 260));
    assert_eq!(h.cert_addr, get32(&bytes, 280));
    assert_eq!(h.signature.len(), 256);
    assert_eq!(h.serialize(), bytes);
    assert!(XbeHeader::deserialize(&bytes[1..]).is_none());
}

#[test]
fn test_xbe_certificate_roundtrip_and_patch() {
    let mut bytes = vec![0u8; XbeCertificate::SIZE];
    for (i, b) in bytes.iter_mut().enumerate() {
        *b = (i * 13 % 253) as u8;
    }
    let mut c = XbeCertificate::deserialize(&bytes).unwrap();
    assert_eq!(c.serialize(), bytes);
    assert_eq!(c.title_name_utf16.len(), 40);
    assert_eq!(c.alt_title_id.len(), 16);
    assert_eq!(c.allowed_media_types.0, get32(&bytes, 156));

    let orig = c.allowed_media_types.0;
    let flags = c.runtime_security_flags;
    let info = c.patch_media();
    assert_eq!(info.original.0, orig);
    assert_eq!(info.new.0, orig | 0xC000_03FF);
    assert_eq!(c.runtime_security_flags, flags & !1);

    let patched = c.serialize();
    assert_eq!(&patched[..156], &bytes[..156]);
    assert_eq!(&patched[160..472], &bytes[160..472]);
    assert_eq!(get32(&patched, 156), orig | 0xC000_03FF);
    assert!(XbeCertificate::deserialize(&bytes[..400]).is_none());
}

#[test]
fn test_xbe_certificate_write_size() {
    let mut bytes = vec![0u8; XbeCertificate::SIZE];
    put32(&mut bytes, 0, 464);
    let c = XbeCertificate::deserialize(&bytes).unwrap();
    assert_eq!(c.write_size(), 464);
    put32(&mut bytes, 0, 4096);
    let c = XbeCertificate::deserialize(&bytes).unwrap();
    assert_eq!(c.write_size(), 476);
}

#[test]
fn test_allowed_media_types_bits() {
    let mut m = AllowedMediaTypes(0);
    assert!(!m.hard_disk());
    m.set_hard_disk(true);
    m.set_dvd_x2(true);
    m.set_media_board(true);
    m.set_nonsecure_mode(true);
    assert_eq!(m.types(), (1 << 0) | (1 << 1) | (1 << 9) | (1 << 31));
    assert!(m.hard_disk() && m.dvd_x2() && m.media_board() && m.nonsecure_mode());
    assert!(!m.cd() && !m.dongle() && !m.nonsecure_hard_disk());
    m.set_dvd_x2(false);
    assert!(!m.dvd_x2());
    assert_eq!(m.0, (1 << 0) | (1 << 9) | (1 << 31));
    m.set_cd(true);
    m.set_dvd_cd(true);
    m.set_dvd_5_ro(true);
    m.set_dvd_9_ro(true);
    m.set_dvd_5_rw(true);
    m.set_dvd_9_rw(true);
    m.set_dongle(true);
    m.set_nonsecure_hard_disk(true);
    m.set_dvd_x2(true);
    assert_eq!(m.0, MEDIA_PATCH_MASK);
    assert!(m.dvd_cd() && m.dvd_5_ro() && m.dvd_9_ro() && m.dvd_5_rw() && m.dvd_9_rw());
}

#[test]
fn test_patch_certificate_bytes() {
    let mut bytes = vec![0u8; XbeCertificate::SIZE];
    put32(&mut bytes, 0, 470);
    put32(&mut bytes, 156, 0x0000_0100);
    put32(&mut bytes, 472, 0xffff_ffff);
    bytes[200] = 9;
    let (out, info) = patch_certificate(&bytes).unwrap();
    assert_eq!(out.len(), 470);
    assert_eq!(info.original.0, 0x100);
    assert_eq!(info.new.0, 0xC000_03FF);
    assert_eq!(get32(&out, 156), 0xC000_03FF);
    assert_eq!(out[200], 9);
    assert_eq!(&out[..156], &bytes[..156]);
    assert_eq!(&out[160..470], &bytes[160..470]);
    assert!(patch_certificate(&bytes[..475]).is_none());
}

#[test]
fn test_certificate_offset() {
    let mut bytes = vec![0u8; XbeHeader::SIZE];
    put32(&mut bytes, 0, XBE_HEADER_MAGIC);
    put32(&mut bytes, 260, 0x10000);
    put32(&mut bytes, 280, 0x10180);
    let h = XbeHeader::deserialize(&bytes).unwrap();
    let xbe = DiskRegion { sector: 3, size: 0 };
    assert_eq!(h.certificate_offset(xbe), Some(3 * 2048 + 0x180));
    put32(&mut bytes, 280, 0xff00);
    let h = XbeHeader::deserialize(&bytes).unwrap();
    assert_eq!(h.certificate_offset(xbe), None);
    put32(&mut bytes, 280, 0x10180);
    put32(&mut bytes, 0, 0);
    let h = XbeHeader::deserialize(&bytes).unwrap();
    assert!(!h.is_valid());
    assert_eq!(h.certificate_offset(xbe), None);
}
