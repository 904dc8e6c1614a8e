//! Patching XBE executables so that they run from any medium: the header
//! and certificate of an XBE, their byte layout, and the patch.
use vstd::prelude::*;

use crate::blockdev::{lemma_read_within, written, BlockDeviceRead, BlockDeviceWrite};
use crate::layout::{le16, le32, le64, push_le32, DiskRegion};

verus! {

/// The magic number an XBE header starts with (`XBEH`).
pub const XBE_HEADER_MAGIC: u32 = 0x48454258;

/// The bits that allow every medium and non-secure modes.
pub const MEDIA_PATCH_MASK: u32 = 0xC000_03FF;

/// Little-endian bytes of a run of 16-bit values.
pub open spec fn le16s(s: Seq<u16>) -> Seq<u8>
    decreases s.len(),
{
    if s.len() == 0 {
        Seq::empty()
    } else {
        le16s(s.drop_last()) + le16(s.last())
    }
}

/// Little-endian bytes of a run of 32-bit values.
pub open spec fn le32s(s: Seq<u32>) -> Seq<u8>
    decreases s.len(),
{
    if s.len() == 0 {
        Seq::empty()
    } else {
        le32s(s.drop_last()) + le32(s.last())
    }
}

proof fn lemma_le16s_len(s: Seq<u16>)
    ensures
        le16s(s).len() == 2 * s.len(),
    decreases s.len(),
{
    if s.len() > 0 {
        lemma_le16s_len(s.drop_last());
    }
}

proof fn lemma_le32s_len(s: Seq<u32>)
    ensures
        le32s(s).len() == 4 * s.len(),
    decreases s.len(),
{
    if s.len() > 0 {
        lemma_le32s_len(s.drop_last());
    }
}

proof fn lemma_le16_of_bytes(b: Seq<u8>)
    requires
        b.len() == 2,
    ensures
        le16((b[0] + b[1] * 256) as u16) == b,
{
    let x = b[0] + b[1] * 256;
    assert(x % 256 == b[0]) by (nonlinear_arith)
        requires
            x == b[0] + b[1] * 256,
            0 <= b[0] < 256,
            0 <= b[1] < 256,
    ;
    assert(x / 256 == b[1]) by (nonlinear_arith)
        requires
            x == b[0] + b[1] * 256,
            0 <= b[0] < 256,
            0 <= b[1] < 256,
    ;
    assert(le16(x as u16) =~= b);
}

proof fn lemma_le32_of_bytes(b: Seq<u8>)
    requires
        b.len() == 4,
    ensures
        le32((b[0] + b[1] * 256 + b[2] * 65536 + b[3] * 16777216) as u32) == b,
{
    let x = b[0] + b[1] * 256 + b[2] * 65536 + b[3] * 16777216;
    assert(x % 256 == b[0] && (x / 256) % 256 == b[1] && (x / 65536) % 256 == b[2] && x / 16777216 == b[3])
        by (nonlinear_arith)
        requires
            x == b[0] + b[1] * 256 + b[2] * 65536 + b[3] * 16777216,
            0 <= b[0] < 256,
            0 <= b[1] < 256,
            0 <= b[2] < 256,
            0 <= b[3] < 256,
    ;
    assert(le32(x as u32) =~= b);
}

/// Reads a 16-bit little-endian value at `off`.
fn read_u16(buf: &[u8], off: usize) -> (r: u16)
    requires
        off + 2 <= buf@.len(),
    ensures
        le16(r) == buf@.subrange(off as int, off + 2),
{
    let r = buf[off] as u16 + buf[off + 1] as u16 * 256;
    proof {
        lemma_le16_of_bytes(buf@.subrange(off as int, off + 2));
    }
    r
}

/// Reads a 32-bit little-endian value at `off`.
fn read_u32(buf: &[u8], off: usize) -> (r: u32)
    requires
        off + 4 <= buf@.len(),
    ensures
        le32(r) == buf@.subrange(off as int, off + 4),
{
    let r = buf[off] as u32 + buf[off + 1] as u32 * 256 + buf[off + 2] as u32 * 65536 + buf[off + 3] as u32
        * 16777216;
    proof {
        lemma_le32_of_bytes(buf@.subrange(off as int, off + 4));
    }
    r
}

/// Reads a 64-bit little-endian value at `off`.
fn read_u64(buf: &[u8], off: usize) -> (r: u64)
    requires
        off + 8 <= buf@.len(),
    ensures
        le64(r) == buf@.subrange(off as int, off + 8),
{
    let blen = buf.len();
    let lo = read_u32(buf, off);
    let hi = read_u32(buf, off + 4);
    let r = lo as u64 + hi as u64 * 0x1_0000_0000;
    assert(r % 0x1_0000_0000 == lo && r / 0x1_0000_0000 == hi) by (nonlinear_arith)
        requires
            r == lo + hi * 0x1_0000_0000,
            0 <= lo < 0x1_0000_0000,
    ;
    assert(buf@.subrange(off as int, off + 8) =~= buf@.subrange(off as int, off + 4) + buf@.subrange(
        off + 4,
        off + 8,
    ));
    r
}

/// Reads `n` bytes at `off`.
fn read_bytes(buf: &[u8], off: usize, n: usize) -> (r: Vec<u8>)
    requires
        off + n <= buf@.len(),
    ensures
        r@ == buf@.subrange(off as int, off + n),
{
    let blen = buf.len();
    let mut v: Vec<u8> = Vec::new();
    let mut i: usize = 0;
    while i < n
        invariant
            i <= n,
            blen == buf@.len(),
            off + n <= buf@.len(),
            v@ == buf@.subrange(off as int, off + i),
        decreases n - i,
    {
        v.push(buf[off + i]);
        i = i + 1;
        assert(v@ =~= buf@.subrange(off as int, off + i));
    }
    v
}

/// Reads `n` 16-bit little-endian values at `off`.
fn read_u16s(buf: &[u8], off: usize, n: usize) -> (r: Vec<u16>)
    requires
        off + 2 * n <= buf@.len(),
    ensures
        r@.len() == n,
        le16s(r@) == buf@.subrange(off as int, off + 2 * n),
{
    let blen = buf.len();
    let mut v: Vec<u16> = Vec::new();
    let mut i: usize = 0;
    while i < n
        invariant
            i <= n,
            blen == buf@.len(),
            off + 2 * n <= buf@.len(),
            v@.len() == i,
            le16s(v@) == buf@.subrange(off as int, off + 2 * i),
        decreases n - i,
    {
        let x = read_u16(buf, off + 2 * i);
        let ghost before = v@;
        v.push(x);
        proof {
            assert(v@.drop_last() =~= before);
            assert(buf@.subrange(off as int, off + 2 * (i + 1)) =~= buf@.subrange(off as int, off + 2 * i)
                + buf@.subrange(off + 2 * i, off + 2 * i + 2));
        }
        i = i + 1;
    }
    v
}

/// Reads `n` 32-bit little-endian values at `off`.
fn read_u32s(buf: &[u8], off: usize, n: usize) -> (r: Vec<u32>)
    requires
        off + 4 * n <= buf@.len(),
    ensures
        r@.len() == n,
        le32s(r@) == buf@.subrange(off as int, off + 4 * n),
{
    let blen = buf.len();
    let mut v: Vec<u32> = Vec::new();
    let mut i: usize = 0;
    while i < n
        invariant
            i <= n,
            blen == buf@.len(),
            off + 4 * n <= buf@.len(),
            v@.len() == i,
            le32s(v@) == buf@.subrange(off as int, off + 4 * i),
        decreases n - i,
    {
        let x = read_u32(buf, off + 4 * i);
        let ghost before = v@;
        v.push(x);
        proof {
            assert(v@.drop_last() =~= before);
            assert(buf@.subrange(off as int, off + 4 * (i + 1)) =~= buf@.subrange(off as int, off + 4 * i)
                + buf@.subrange(off + 4 * i, off + 4 * i + 4));
        }
        i = i + 1;
    }
    v
}

/// Appends the little-endian bytes of a 16-bit value.
fn push_le16(v: &mut Vec<u8>, x: u16)
    ensures
        final(v)@ == old(v)@ + le16(x),
{
    v.push((x % 256) as u8);
    v.push((x / 256) as u8);
    assert(final(v)@ =~= old(v)@ + le16(x));
}

/// Appends the little-endian bytes of a 64-bit value.
fn push_le64(v: &mut Vec<u8>, x: u64)
    ensures
        final(v)@ == old(v)@ + le64(x),
{
    push_le32(v, (x % 0x1_0000_0000) as u32);
    push_le32(v, (x / 0x1_0000_0000) as u32);
    assert(final(v)@ =~= old(v)@ + le64(x));
}

/// Appends bytes.
fn push_bytes(v: &mut Vec<u8>, b: &Vec<u8>)
    ensures
        final(v)@ == old(v)@ + b@,
{
    let ghost start = v@;
    let mut i: usize = 0;
    while i < b.len()
        invariant
            i <= b@.len(),
            v@ == start + b@.take(i as int),
        decreases b@.len() - i,
    {
        v.push(b[i]);
        i = i + 1;
        assert(v@ =~= start + b@.take(i as int));
    }
    assert(b@.take(b@.len() as int) =~= b@);
}

/// Appends the little-endian bytes of 16-bit values.
fn push_u16s(v: &mut Vec<u8>, s: &Vec<u16>)
    ensures
        final(v)@ == old(v)@ + le16s(s@),
{
    let ghost start = v@;
    let mut i: usize = 0;
    while i < s.len()
        invariant
            i <= s@.len(),
            v@ == start + le16s(s@.take(i as int)),
        decreases s@.len() - i,
    {
        push_le16(v, s[i]);
        proof {
            assert(s@.take(i + 1).drop_last() =~= s@.take(i as int));
        }
        i = i + 1;
        assert(v@ =~= start + le16s(s@.take(i as int)));
    }
    assert(s@.take(s@.len() as int) =~= s@);
}

/// Appends the little-endian bytes of 32-bit values.
fn push_u32s(v: &mut Vec<u8>, s: &Vec<u32>)
    ensures
        final(v)@ == old(v)@ + le32s(s@),
{
    let ghost start = v@;
    let mut i: usize = 0;
    while i < s.len()
        invariant
            i <= s@.len(),
            v@ == start + le32s(s@.take(i as int)),
        decreases s@.len() - i,
    {
        push_le32(v, s[i]);
        proof {
            assert(s@.take(i + 1).drop_last() =~= s@.take(i as int));
        }
        i = i + 1;
        assert(v@ =~= start + le32s(s@.take(i as int)));
    }
    assert(s@.take(s@.len() as int) =~= s@);
}

/// Bit `n` of `x` is set.
pub open spec fn has_bit(x: u32, n: u32) -> bool {
    x & (1u32 << n) != 0
}

/// `x` with bit `n` set or cleared.
pub open spec fn with_media_bit(x: u32, n: u32, on: bool) -> u32 {
    if on {
        x | (1u32 << n)
    } else {
        x & !(1u32 << n)
    }
}

/// The media an XBE may run from, and its security modes, as bits.
#[derive(Copy, Clone, Debug, PartialEq, Eq, Structural)]
pub struct AllowedMediaTypes(pub u32);

impl AllowedMediaTypes {
    /// All the bits.
    pub fn types(&self) -> (r: u32)
        ensures
            r == self.0,
    {
        self.0
    }

    fn bit(&self, n: u32) -> (r: bool)
        requires
            n < 32,
        ensures
            r == has_bit(self.0, n),
    {
        self.0 & (1u32 << n) != 0
    }

    fn set_bit(&mut self, n: u32, on: bool)
        requires
            n < 32,
        ensures
            final(self).0 == with_media_bit(old(self).0, n, on),
    {
        if on {
            self.0 = self.0 | (1u32 << n);
        } else {
            self.0 = self.0 & !(1u32 << n);
        }
    }

    /// Whether bit 0 is set.
    pub fn hard_disk(&self) -> (r: bool)
        ensures
            r == has_bit(self.0, 0),
    {
        self.bit(0)
    }

    /// Sets or clears bit 0.
    pub fn set_hard_disk(&mut self, on: bool)
        ensures
            final(self).0 == with_media_bit(old(self).0, 0, on),
    {
        self.set_bit(0, on)
    }

    /// Whether bit 1 is set.
    pub fn dvd_x2(&self) -> (r: bool)
        ensures
            r == has_bit(self.0, 1),
    {
        self.bit(1)
    }

    /// Sets or clears bit 1.
    pub fn set_dvd_x2(&mut self, on: bool)
        ensures
            final(self).0 == with_media_bit(old(self).0, 1, on),
    {
        self.set_bit(1, on)
    }

    /// Whether bit 2 is set.
    pub fn dvd_cd(&self) -> (r: bool)
        ensures
            r == has_bit(self.0, 2),
    {
        self.bit(2)
    }

    /// Sets or clears bit 2.
    pub fn set_dvd_cd(&mut self, on: bool)
        ensures
            final(self).0 == with_media_bit(old(self).0, 2, on),
    {
        self.set_bit(2, on)
    }

    /// Whether bit 3 is set.
    pub fn cd(&self) -> (r: bool)
        ensures
            r == has_bit(self.0, 3),
    {
        self.bit(3)
    }

    /// Sets or clears bit 3.
    pub fn set_cd(&mut self, on: bool)
        ensures
            final(self).0 == with_media_bit(old(self).0, 3, on),
    {
        self.set_bit(3, on)
    }

    /// Whether bit 4 is set.
    pub fn dvd_5_ro(&self) -> (r: bool)
        ensures
            r == has_bit(self.0, 4),
    {
        self.bit(4)
    }

    /// Sets or clears bit 4.
    pub fn set_dvd_5_ro(&mut self, on: bool)
        ensures
            final(self).0 == with_media_bit(old(self).0, 4, on),
    {
        self.set_bit(4, on)
    }

    /// Whether bit 5 is set.
    pub fn dvd_9_ro(&self) -> (r: bool)
        ensures
            r == has_bit(self.0, 5),
    {
        self.bit(5)
    }

    /// Sets or clears bit 5.
    pub fn set_dvd_9_ro(&mut self, on: bool)
        ensures
            final(self).0 == with_media_bit(old(self).0, 5, on),
    {
        self.set_bit(5, on)
    }

    /// Whether bit 6 is set.
    pub fn dvd_5_rw(&self) -> (r: bool)
        ensures
            r == has_bit(self.0, 6),
    {
        self.bit(6)
    }

    /// Sets or clears bit 6.
    pub fn set_dvd_5_rw(&mut self, on: bool)
        ensures
            final(self).0 == with_media_bit(old(self).0, 6, on),
    {
        self.set_bit(6, on)
    }

    /// Whether bit 7 is set.
    pub fn dvd_9_rw(&self) -> (r: bool)
        ensures
            r == has_bit(self.0, 7),
    {
        self.bit(7)
    }

    /// Sets or clears bit 7.
    pub fn set_dvd_9_rw(&mut self, on: bool)
        ensures
            final(self).0 == with_media_bit(old(self).0, 7, on),
    {
        self.set_bit(7, on)
    }

    /// Whether bit 8 is set.
    pub fn dongle(&self) -> (r: bool)
        ensures
            r == has_bit(self.0, 8),
    {
        self.bit(8)
    }

    /// Sets or clears bit 8.
    pub fn set_dongle(&mut self, on: bool)
        ensures
            final(self).0 == with_media_bit(old(self).0, 8, on),
    {
        self.set_bit(8, on)
    }

    /// Whether bit 9 is set.
    pub fn media_board(&self) -> (r: bool)
        ensures
            r == has_bit(self.0, 9),
    {
        self.bit(9)
    }

    /// Sets or clears bit 9.
    pub fn set_media_board(&mut self, on: bool)
        ensures
            final(self).0 == with_media_bit(old(self).0, 9, on),
    {
        self.set_bit(9, on)
    }

    /// Whether bit 30 is set.
    pub fn nonsecure_hard_disk(&self) -> (r: bool)
        ensures
            r == has_bit(self.0, 30),
    {
        self.bit(30)
    }

    /// Sets or clears bit 30.
    pub fn set_nonsecure_hard_disk(&mut self, on: bool)
        ensures
            final(self).0 == with_media_bit(old(self).0, 30, on),
    {
        self.set_bit(30, on)
    }

    /// Whether bit 31 is set.
    pub fn nonsecure_mode(&self) -> (r: bool)
        ensures
            r == has_bit(self.0, 31),
    {
        self.bit(31)
    }

    /// Sets or clears bit 31.
    pub fn set_nonsecure_mode(&mut self, on: bool)
        ensures
            final(self).0 == with_media_bit(old(self).0, 31, on),
    {
        self.set_bit(31, on)
    }

}

/// The header of an XBE executable.
#[derive(Clone, Debug)]
pub struct XbeHeader {
    pub xbeh: u32,
    pub signature: Vec<u8>,
    pub base_addr: u32,
    pub header_size: u32,
    pub image_size: u32,
    pub image_header_size: u32,
    pub timestamp: u32,
    pub cert_addr: u32,
    pub section_count: u32,
    pub section_header_addr: u32,
    pub init_flags: u32,
    pub entry_point: u32,
    pub tls_address: u32,
    pub stack_size: u32,
    pub pe_heap_reserve: u32,
    pub pe_heap_commit: u32,
    pub pe_base_addr: u32,
    pub pe_image_size: u32,
    pub pe_checksum: u32,
    pub pe_timestamp: u32,
    pub debug_path: u32,
    pub debug_filename: u32,
    pub debug_filename_utf16: u32,
    pub kernel_thunk_addr: u32,
    pub import_dir_address: u32,
    pub library_version_count: u32,
    pub library_version_addr: u32,
    pub kernel_lib_version_addr: u32,
    pub xapi_lib_version_addr: u32,
    pub logo_bitmap_addr: u32,
    pub logo_bitmap_size: u32,
    pub unknown1: u64,
    pub unknown2: u32,
}

impl XbeHeader {
    /// Size of the header, in bytes.
    pub const SIZE: usize = 388;

    /// The arrays have their fixed lengths.
    pub open spec fn wf(&self) -> bool {
        self.signature@.len() == 256
    }

    /// The bytes of the header: each field in order, little endian.
    #[verifier::opaque]
    pub open spec fn spec_bytes(&self) -> Seq<u8> {
        le32(self.xbeh)
            + self.signature@
            + le32(self.base_addr)
            + le32(self.header_size)
            + le32(self.image_size)
            + le32(self.image_header_size)
            + le32(self.timestamp)
            + le32(self.cert_addr)
            + le32(self.section_count)
            + le32(self.section_header_addr)
            + le32(self.init_flags)
            + le32(self.entry_point)
            + le32(self.tls_address)
            + le32(self.stack_size)
            + le32(self.pe_heap_reserve)
            + le32(self.pe_heap_commit)
            + le32(self.pe_base_addr)
            + le32(self.pe_image_size)
            + le32(self.pe_checksum)
            + le32(self.pe_timestamp)
            + le32(self.debug_path)
            + le32(self.debug_filename)
            + le32(self.debug_filename_utf16)
            + le32(self.kernel_thunk_addr)
            + le32(self.import_dir_address)
            + le32(self.library_version_count)
            + le32(self.library_version_addr)
            + le32(self.kernel_lib_version_addr)
            + le32(self.xapi_lib_version_addr)
            + le32(self.logo_bitmap_addr)
            + le32(self.logo_bitmap_size)
            + le64(self.unknown1)
            + le32(self.unknown2)
    }

    /// Reads the header from its bytes; `None` where `buf` does not have
    /// exactly the size of one.
    #[verifier::rlimit(80)]
    pub fn deserialize(buf: &[u8]) -> (r: Option<Self>)
        ensures
            r is Some <==> buf@.len() == Self::SIZE,
            r matches Some(v) ==> v.wf() && v.spec_bytes() == buf@,
            r matches Some(v) ==> v.xbeh == u32_at(buf@, 0) && v.base_addr == u32_at(buf@, 260) && v.cert_addr
                == u32_at(buf@, 280),
    {
        if buf.len() != 388 {
            return None;
        }
        let xbeh = read_u32(buf, 0);
        proof {
            lemma_u32_at_read(buf@, 0, xbeh);
        }
        let signature = read_bytes(buf, 4, 256);
        let base_addr = read_u32(buf, 260);
        proof {
            lemma_u32_at_read(buf@, 260, base_addr);
        }
        let header_size = read_u32(buf, 264);
        let image_size = read_u32(buf, 268);
        let image_header_size = read_u32(buf, 272);
        let timestamp = read_u32(buf, 276);
        let cert_addr = read_u32(buf, 280);
        proof {
            lemma_u32_at_read(buf@, 280, cert_addr);
        }
        let section_count = read_u32(buf, 284);
        let section_header_addr = read_u32(buf, 288);
        let init_flags = read_u32(buf, 292);
        let entry_point = read_u32(buf, 296);
        let tls_address = read_u32(buf, 300);
        let stack_size = read_u32(buf, 304);
        let pe_heap_reserve = read_u32(buf, 308);
        let pe_heap_commit = read_u32(buf, 312);
        let pe_base_addr = read_u32(buf, 316);
        let pe_image_size = read_u32(buf, 320);
        let pe_checksum = read_u32(buf, 324);
        let pe_timestamp = read_u32(buf, 328);
        let debug_path = read_u32(buf, 332);
        let debug_filename = read_u32(buf, 336);
        let debug_filename_utf16 = read_u32(buf, 340);
        let kernel_thunk_addr = read_u32(buf, 344);
        let import_dir_address = read_u32(buf, 348);
        let library_version_count = read_u32(buf, 352);
        let library_version_addr = read_u32(buf, 356);
        let kernel_lib_version_addr = read_u32(buf, 360);
        let xapi_lib_version_addr = read_u32(buf, 364);
        let logo_bitmap_addr = read_u32(buf, 368);
        let logo_bitmap_size = read_u32(buf, 372);
        let unknown1 = read_u64(buf, 376);
        let unknown2 = read_u32(buf, 384);
        let v = XbeHeader { xbeh, signature, base_addr, header_size, image_size, image_header_size, timestamp, cert_addr, section_count, section_header_addr, init_flags, entry_point, tls_address, stack_size, pe_heap_reserve, pe_heap_commit, pe_base_addr, pe_image_size, pe_checksum, pe_timestamp, debug_path, debug_filename, debug_filename_utf16, kernel_thunk_addr, import_dir_address, library_version_count, library_version_addr, kernel_lib_version_addr, xapi_lib_version_addr, logo_bitmap_addr, logo_bitmap_size, unknown1, unknown2 };
        proof {
            reveal(XbeHeader::spec_bytes);
            assert(le32(v.xbeh) == buf@.subrange(0, 4));
            assert(v.signature@ == buf@.subrange(4, 260));
            assert(le32(v.base_addr) == buf@.subrange(260, 264));
            assert(le32(v.header_size) == buf@.subrange(264, 268));
            assert(le32(v.image_size) == buf@.subrange(268, 272));
            assert(le32(v.image_header_size) == buf@.subrange(272, 276));
            assert(le32(v.timestamp) == buf@.subrange(276, 280));
            assert(le32(v.cert_addr) == buf@.subrange(280, 284));
            assert(le32(v.section_count) == buf@.subrange(284, 288));
            assert(le32(v.section_header_addr) == buf@.subrange(288, 292));
            assert(le32(v.init_flags) == buf@.subrange(292, 296));
            assert(le32(v.entry_point) == buf@.subrange(296, 300));
            assert(le32(v.tls_address) == buf@.subrange(300, 304));
            assert(le32(v.stack_size) == buf@.subrange(304, 308));
            assert(le32(v.pe_heap_reserve) == buf@.subrange(308, 312));
            assert(le32(v.pe_heap_commit) == buf@.subrange(312, 316));
            assert(le32(v.pe_base_addr) == buf@.subrange(316, 320));
            assert(le32(v.pe_image_size) == buf@.subrange(320, 324));
            assert(le32(v.pe_checksum) == buf@.subrange(324, 328));
            assert(le32(v.pe_timestamp) == buf@.subrange(328, 332));
            assert(le32(v.debug_path) == buf@.subrange(332, 336));
            assert(le32(v.debug_filename) == buf@.subrange(336, 340));
            assert(le32(v.debug_filename_utf16) == buf@.subrange(340, 344));
            assert(le32(v.kernel_thunk_addr) == buf@.subrange(344, 348));
            assert(le32(v.import_dir_address) == buf@.subrange(348, 352));
            assert(le32(v.library_version_count) == buf@.subrange(352, 356));
            assert(le32(v.library_version_addr) == buf@.subrange(356, 360));
            assert(le32(v.kernel_lib_version_addr) == buf@.subrange(360, 364));
            assert(le32(v.xapi_lib_version_addr) == buf@.subrange(364, 368));
            assert(le32(v.logo_bitmap_addr) == buf@.subrange(368, 372));
            assert(le32(v.logo_bitmap_size) == buf@.subrange(372, 376));
            assert(le64(v.unknown1) == buf@.subrange(376, 384));
            assert(le32(v.unknown2) == buf@.subrange(384, 388));
            assert(buf@ =~= buf@.subrange(0, 4)
                + buf@.subrange(4, 260)
                + buf@.subrange(260, 264)
                + buf@.subrange(264, 268)
                + buf@.subrange(268, 272)
                + buf@.subrange(272, 276)
                + buf@.subrange(276, 280)
                + buf@.subrange(280, 284)
                + buf@.subrange(284, 288)
                + buf@.subrange(288, 292)
                + buf@.subrange(292, 296)
                + buf@.subrange(296, 300)
                + buf@.subrange(300, 304)
                + buf@.subrange(304, 308)
                + buf@.subrange(308, 312)
                + buf@.subrange(312, 316)
                + buf@.subrange(316, 320)
                + buf@.subrange(320, 324)
                + buf@.subrange(324, 328)
                + buf@.subrange(328, 332)
                + buf@.subrange(332, 336)
                + buf@.subrange(336, 340)
                + buf@.subrange(340, 344)
                + buf@.subrange(344, 348)
                + buf@.subrange(348, 352)
                + buf@.subrange(352, 356)
                + buf@.subrange(356, 360)
                + buf@.subrange(360, 364)
                + buf@.subrange(364, 368)
                + buf@.subrange(368, 372)
                + buf@.subrange(372, 376)
                + buf@.subrange(376, 384)
                + buf@.subrange(384, 388));
        }
        Some(v)
    }

    /// The bytes of the header.
    pub fn serialize(&self) -> (r: Vec<u8>)
        requires
            self.wf(),
        ensures
            r@ == self.spec_bytes(),
    {
        let mut v: Vec<u8> = Vec::new();
        let ghost mut acc: Seq<u8> = Seq::empty();
        push_le32(&mut v, self.xbeh);
        proof {
            acc = acc + le32(self.xbeh);
            assert(v@ == acc);
        }
        push_bytes(&mut v, &self.signature);
        proof {
            acc = acc + self.signature@;
            assert(v@ == acc);
        }
        push_le32(&mut v, self.base_addr);
        proof {
            acc = acc + le32(self.base_addr);
            assert(v@ == acc);
        }
        push_le32(&mut v, self.header_size);
        proof {
            acc = acc + le32(self.header_size);
            assert(v@ == acc);
        }
        push_le32(&mut v, self.image_size);
        proof {
            acc = acc + le32(self.image_size);
            assert(v@ == acc);
        }
        push_le32(&mut v, self.image_header_size);
        proof {
            acc = acc + le32(self.image_header_size);
            assert(v@ == acc);
        }
        push_le32(&mut v, self.timestamp);
        proof {
            acc = acc + le32(self.timestamp);
            assert(v@ == acc);
        }
        push_le32(&mut v, self.cert_addr);
        proof {
            acc = acc + le32(self.cert_addr);
            assert(v@ == acc);
        }
        push_le32(&mut v, self.section_count);
        proof {
            acc = acc + le32(self.section_count);
            assert(v@ == acc);
        }
        push_le32(&mut v, self.section_header_addr);
        proof {
            acc = acc + le32(self.section_header_addr);
            assert(v@ == acc);
        }
        push_le32(&mut v, self.init_flags);
        proof {
            acc = acc + le32(self.init_flags);
            assert(v@ == acc);
        }
        push_le32(&mut v, self.entry_point);
        proof {
            acc = acc + le32(self.entry_point);
            assert(v@ == acc);
        }
        push_le32(&mut v, self.tls_address);
        proof {
            acc = acc + le32(self.tls_address);
            assert(v@ == acc);
        }
        push_le32(&mut v, self.stack_size);
        proof {
            acc = acc + le32(self.stack_size);
            assert(v@ == acc);
        }
        push_le32(&mut v, self.pe_heap_reserve);
        proof {
            acc = acc + le32(self.pe_heap_reserve);
            assert(v@ == acc);
        }
        push_le32(&mut v, self.pe_heap_commit);
        proof {
            acc = acc + le32(self.pe_heap_commit);
            assert(v@ == acc);
        }
        push_le32(&mut v, self.pe_base_addr);
        proof {
            acc = acc + le32(self.pe_base_addr);
            assert(v@ == acc);
        }
        push_le32(&mut v, self.pe_image_size);
        proof {
            acc = acc + le32(self.pe_image_size);
            assert(v@ == acc);
        }
        push_le32(&mut v, self.pe_checksum);
        proof {
            acc = acc + le32(self.pe_checksum);
            assert(v@ == acc);
        }
        push_le32(&mut v, self.pe_timestamp);
        proof {
            acc = acc + le32(self.pe_timestamp);
            assert(v@ == acc);
        }
        push_le32(&mut v, self.debug_path);
        proof {
            acc = acc + le32(self.debug_path);
            assert(v@ == acc);
        }
        push_le32(&mut v, self.debug_filename);
        proof {
            acc = acc + le32(self.debug_filename);
            assert(v@ == acc);
        }
        push_le32(&mut v, self.debug_filename_utf16);
        proof {
            acc = acc + le32(self.debug_filename_utf16);
            assert(v@ == acc);
        }
        push_le32(&mut v, self.kernel_thunk_addr);
        proof {
            acc = acc + le32(self.kernel_thunk_addr);
            assert(v@ == acc);
        }
        push_le32(&mut v, self.import_dir_address);
        proof {
            acc = acc + le32(self.import_dir_address);
            assert(v@ == acc);
        }
        push_le32(&mut v, self.library_version_count);
        proof {
            acc = acc + le32(self.library_version_count);
            assert(v@ == acc);
        }
        push_le32(&mut v, self.library_version_addr);
        proof {
            acc = acc + le32(self.library_version_addr);
            assert(v@ == acc);
        }
        push_le32(&mut v, self.kernel_lib_version_addr);
        proof {
            acc = acc + le32(self.kernel_lib_version_addr);
            assert(v@ == acc);
        }
        push_le32(&mut v, self.xapi_lib_version_addr);
        proof {
            acc = acc + le32(self.xapi_lib_version_addr);
            assert(v@ == acc);
        }
        push_le32(&mut v, self.logo_bitmap_addr);
        proof {
            acc = acc + le32(self.logo_bitmap_addr);
            assert(v@ == acc);
        }
        push_le32(&mut v, self.logo_bitmap_size);
        proof {
            acc = acc + le32(self.logo_bitmap_size);
            assert(v@ == acc);
        }
        push_le64(&mut v, self.unknown1);
        proof {
            acc = acc + le64(self.unknown1);
            assert(v@ == acc);
        }
        push_le32(&mut v, self.unknown2);
        proof {
            acc = acc + le32(self.unknown2);
            assert(v@ == acc);
        }
        proof {
            reveal(XbeHeader::spec_bytes);
            assert(acc =~= self.spec_bytes());
        }
        v
    }
}

/// The certificate of an XBE executable.
#[derive(Clone, Debug)]
pub struct XbeCertificate {
    pub size: u32,
    pub timestamp: u32,
    pub title_id: u32,
    pub title_name_utf16: Vec<u16>,
    pub alt_title_id: Vec<u32>,
    pub allowed_media_types: AllowedMediaTypes,
    pub game_region: u32,
    pub game_ratings: u32,
    pub disk_number: u32,
    pub version: u32,
    pub lan_key: Vec<u8>,
    pub sig_key: Vec<u8>,
    pub alternate_sig_key: Vec<u8>,
    pub unknown1: u32,
    pub unknown2: u32,
    pub runtime_security_flags: u32,
}

impl XbeCertificate {
    /// Size of the certificate, in bytes.
    pub const SIZE: usize = 476;

    /// The arrays have their fixed lengths.
    pub open spec fn wf(&self) -> bool {
        self.title_name_utf16@.len() == 40
        && self.alt_title_id@.len() == 16
        && self.lan_key@.len() == 16
        && self.sig_key@.len() == 16
        && self.alternate_sig_key@.len() == 256
    }

    /// The bytes of the certificate: each field in order, little endian.
    #[verifier::opaque]
    pub open spec fn spec_bytes(&self) -> Seq<u8> {
        le32(self.size)
            + le32(self.timestamp)
            + le32(self.title_id)
            + le16s(self.title_name_utf16@)
            + le32s(self.alt_title_id@)
            + le32(self.allowed_media_types.0)
            + le32(self.game_region)
            + le32(self.game_ratings)
            + le32(self.disk_number)
            + le32(self.version)
            + self.lan_key@
            + self.sig_key@
            + self.alternate_sig_key@
            + le32(self.unknown1)
            + le32(self.unknown2)
            + le32(self.runtime_security_flags)
    }

    /// Reads the certificate from its bytes; `None` where `buf` does not have
    /// exactly the size of one.
    #[verifier::rlimit(80)]
    pub fn deserialize(buf: &[u8]) -> (r: Option<Self>)
        ensures
            r is Some <==> buf@.len() == Self::SIZE,
            r matches Some(v) ==> v.wf() && v.spec_bytes() == buf@,
    {
        if buf.len() != 476 {
            return None;
        }
        let size = read_u32(buf, 0);
        let timestamp = read_u32(buf, 4);
        let title_id = read_u32(buf, 8);
        let title_name_utf16 = read_u16s(buf, 12, 40);
        let alt_title_id = read_u32s(buf, 92, 16);
        let allowed_media_types = AllowedMediaTypes(read_u32(buf, 156));
        let game_region = read_u32(buf, 160);
        let game_ratings = read_u32(buf, 164);
        let disk_number = read_u32(buf, 168);
        let version = read_u32(buf, 172);
        let lan_key = read_bytes(buf, 176, 16);
        let sig_key = read_bytes(buf, 192, 16);
        let alternate_sig_key = read_bytes(buf, 208, 256);
        let unknown1 = read_u32(buf, 464);
        let unknown2 = read_u32(buf, 468);
        let runtime_security_flags = read_u32(buf, 472);
        let v = XbeCertificate { size, timestamp, title_id, title_name_utf16, alt_title_id, allowed_media_types, game_region, game_ratings, disk_number, version, lan_key, sig_key, alternate_sig_key, unknown1, unknown2, runtime_security_flags };
        proof {
            reveal(XbeCertificate::spec_bytes);
            assert(le32(v.size) == buf@.subrange(0, 4));
            assert(le32(v.timestamp) == buf@.subrange(4, 8));
            assert(le32(v.title_id) == buf@.subrange(8, 12));
            assert(le16s(v.title_name_utf16@) == buf@.subrange(12, 92));
            assert(le32s(v.alt_title_id@) == buf@.subrange(92, 156));
            assert(le32(v.allowed_media_types.0) == buf@.subrange(156, 160));
            assert(le32(v.game_region) == buf@.subrange(160, 164));
            assert(le32(v.game_ratings) == buf@.subrange(164, 168));
            assert(le32(v.disk_number) == buf@.subrange(168, 172));
            assert(le32(v.version) == buf@.subrange(172, 176));
            assert(v.lan_key@ == buf@.subrange(176, 192));
            assert(v.sig_key@ == buf@.subrange(192, 208));
            assert(v.alternate_sig_key@ == buf@.subrange(208, 464));
            assert(le32(v.unknown1) == buf@.subrange(464, 468));
            assert(le32(v.unknown2) == buf@.subrange(468, 472));
            assert(le32(v.runtime_security_flags) == buf@.subrange(472, 476));
            assert(buf@ =~= buf@.subrange(0, 4)
                + buf@.subrange(4, 8)
                + buf@.subrange(8, 12)
                + buf@.subrange(12, 92)
                + buf@.subrange(92, 156)
                + buf@.subrange(156, 160)
                + buf@.subrange(160, 164)
                + buf@.subrange(164, 168)
                + buf@.subrange(168, 172)
                + buf@.subrange(172, 176)
                + buf@.subrange(176, 192)
                + buf@.subrange(192, 208)
                + buf@.subrange(208, 464)
                + buf@.subrange(464, 468)
                + buf@.subrange(468, 472)
                + buf@.subrange(472, 476));
        }
        Some(v)
    }

    /// The bytes of the certificate.
    #[verifier::rlimit(80)]
    pub fn serialize(&self) -> (r: Vec<u8>)
        requires
            self.wf(),
        ensures
            r@ == self.spec_bytes(),
            r@.len() == Self::SIZE,
    {
        let mut v: Vec<u8> = Vec::new();
        let ghost mut acc: Seq<u8> = Seq::empty();
        push_le32(&mut v, self.size);
        proof {
            acc = acc + le32(self.size);
            assert(v@ == acc);
        }
        push_le32(&mut v, self.timestamp);
        proof {
            acc = acc + le32(self.timestamp);
            assert(v@ == acc);
        }
        push_le32(&mut v, self.title_id);
        proof {
            acc = acc + le32(self.title_id);
            assert(v@ == acc);
        }
        push_u16s(&mut v, &self.title_name_utf16);
        proof {
            acc = acc + le16s(self.title_name_utf16@);
            assert(v@ == acc);
        }
        push_u32s(&mut v, &self.alt_title_id);
        proof {
            acc = acc + le32s(self.alt_title_id@);
            assert(v@ == acc);
        }
        push_le32(&mut v, self.allowed_media_types.0);
        proof {
            acc = acc + le32(self.allowed_media_types.0);
            assert(v@ == acc);
        }
        push_le32(&mut v, self.game_region);
        proof {
            acc = acc + le32(self.game_region);
            assert(v@ == acc);
        }
        push_le32(&mut v, self.game_ratings);
        proof {
            acc = acc + le32(self.game_ratings);
            assert(v@ == acc);
        }
        push_le32(&mut v, self.disk_number);
        proof {
            acc = acc + le32(self.disk_number);
            assert(v@ == acc);
        }
        push_le32(&mut v, self.version);
        proof {
            acc = acc + le32(self.version);
            assert(v@ == acc);
        }
        push_bytes(&mut v, &self.lan_key);
        proof {
            acc = acc + self.lan_key@;
            assert(v@ == acc);
        }
        push_bytes(&mut v, &self.sig_key);
        proof {
            acc = acc + self.sig_key@;
            assert(v@ == acc);
        }
        push_bytes(&mut v, &self.alternate_sig_key);
        proof {
            acc = acc + self.alternate_sig_key@;
            assert(v@ == acc);
        }
        push_le32(&mut v, self.unknown1);
        proof {
            acc = acc + le32(self.unknown1);
            assert(v@ == acc);
        }
        push_le32(&mut v, self.unknown2);
        proof {
            acc = acc + le32(self.unknown2);
            assert(v@ == acc);
        }
        push_le32(&mut v, self.runtime_security_flags);
        proof {
            acc = acc + le32(self.runtime_security_flags);
            assert(v@ == acc);
        }
        proof {
            reveal(XbeCertificate::spec_bytes);
            assert(acc =~= self.spec_bytes());
            lemma_le16s_len(self.title_name_utf16@);
            lemma_le32s_len(self.alt_title_id@);
        }
        v
    }
}


/// The media types of a certificate before and after patching.
#[derive(Copy, Clone, Debug, PartialEq, Eq, Structural)]
pub struct MediaPatchInfo {
    pub original: AllowedMediaTypes,
    pub new: AllowedMediaTypes,
}

impl XbeHeader {
    /// Whether the header starts with the XBE magic number.
    pub fn is_valid(&self) -> (r: bool)
        ensures
            r == (self.xbeh == XBE_HEADER_MAGIC),
    {
        self.xbeh == XBE_HEADER_MAGIC
    }
}

impl XbeCertificate {
    /// Allows every medium and the non-secure modes, and clears the first
    /// runtime security flag; returns the media types before and after.
    pub fn patch_media(&mut self) -> (r: MediaPatchInfo)
        ensures
            *final(self) == (XbeCertificate {
                allowed_media_types: AllowedMediaTypes(old(self).allowed_media_types.0 | MEDIA_PATCH_MASK),
                runtime_security_flags: old(self).runtime_security_flags & !1u32,
                ..*old(self)
            }),
            r.original == old(self).allowed_media_types,
            r.new == final(self).allowed_media_types,
    {
        let orig_media_type = self.allowed_media_types;
        let mut new_media_type = self.allowed_media_types;
        let x = orig_media_type.0;
        new_media_type.set_hard_disk(true);
        new_media_type.set_dvd_x2(true);
        new_media_type.set_dvd_cd(true);
        new_media_type.set_cd(true);
        new_media_type.set_dvd_5_ro(true);
        new_media_type.set_dvd_9_ro(true);
        new_media_type.set_dvd_5_rw(true);
        new_media_type.set_dvd_9_rw(true);
        new_media_type.set_dongle(true);
        new_media_type.set_media_board(true);
        new_media_type.set_nonsecure_mode(true);
        new_media_type.set_nonsecure_hard_disk(true);
        assert((((((((((((x | (1u32 << 0u32)) | (1u32 << 1u32)) | (1u32 << 2u32)) | (1u32 << 3u32)) | (1u32
            << 4u32)) | (1u32 << 5u32)) | (1u32 << 6u32)) | (1u32 << 7u32)) | (1u32 << 8u32)) | (1u32 << 9u32))
            | (1u32 << 31u32)) | (1u32 << 30u32) == x | 0xC000_03FFu32) by (bit_vector);
        self.allowed_media_types = new_media_type;
        self.runtime_security_flags = self.runtime_security_flags & !1u32;
        MediaPatchInfo { original: orig_media_type, new: new_media_type }
    }

    /// How many bytes of the certificate are written back: its recorded
    /// size, at most the size of the structure.
    pub fn write_size(&self) -> (r: usize)
        ensures
            r == (if self.size < Self::SIZE {
                self.size as int
            } else {
                Self::SIZE as int
            }),
    {
        if self.size < 476 {
            self.size as usize
        } else {
            476
        }
    }
}

/// Patching a certificate changes its bytes only where the allowed media
/// types and the runtime security flags are stored.
pub proof fn lemma_patch_changes_two_fields(c: XbeCertificate, p: XbeCertificate)
    requires
        c.wf(),
        p == (XbeCertificate {
            allowed_media_types: p.allowed_media_types,
            runtime_security_flags: p.runtime_security_flags,
            ..c
        }),
    ensures
        p.spec_bytes() == c.spec_bytes().subrange(0, 156) + le32(p.allowed_media_types.0) + c.spec_bytes().subrange(
            160,
            472,
        ) + le32(p.runtime_security_flags),
{
    reveal(XbeCertificate::spec_bytes);
    lemma_le16s_len(c.title_name_utf16@);
    lemma_le32s_len(c.alt_title_id@);
    let head = le32(c.size) + le32(c.timestamp) + le32(c.title_id) + le16s(c.title_name_utf16@) + le32s(
        c.alt_title_id@,
    );
    let middle = le32(c.game_region) + le32(c.game_ratings) + le32(c.disk_number) + le32(c.version) + c.lan_key@
        + c.sig_key@ + c.alternate_sig_key@ + le32(c.unknown1) + le32(c.unknown2);
    assert(head.len() == 156);
    assert(middle.len() == 312);
    assert(c.spec_bytes() =~= head + le32(c.allowed_media_types.0) + middle + le32(c.runtime_security_flags));
    assert(p.spec_bytes() =~= head + le32(p.allowed_media_types.0) + middle + le32(p.runtime_security_flags));
    assert(c.spec_bytes().subrange(0, 156) =~= head);
    assert(c.spec_bytes().subrange(160, 472) =~= middle);
}

/// The 32-bit little-endian value stored in `s` from byte `i` on.
pub open spec fn u32_at(s: Seq<u8>, i: int) -> u32 {
    (s[i] + s[i + 1] * 256 + s[i + 2] * 65536 + s[i + 3] * 16777216) as u32
}

/// The bytes written back when patching the certificate stored as `cert`:
/// the certificate with every medium and the non-secure modes allowed and
/// the first runtime security flag cleared, cut to its recorded size.
pub open spec fn patched_certificate_bytes(cert: Seq<u8>) -> Seq<u8> {
    let media = u32_at(cert, 156) | MEDIA_PATCH_MASK;
    let flags = u32_at(cert, 472) & !1u32;
    let n = if u32_at(cert, 0) < 476 {
        u32_at(cert, 0) as int
    } else {
        476
    };
    (cert.subrange(0, 156) + le32(media) + cert.subrange(160, 472) + le32(flags)).take(n)
}

proof fn lemma_le32_value(x: u32)
    ensures
        u32_at(le32(x), 0) == x,
{
    let b = le32(x);
    assert(b[0] + b[1] * 256 + b[2] * 65536 + b[3] * 16777216 == x) by (nonlinear_arith)
        requires
            b[0] == x % 256,
            b[1] == (x / 256) % 256,
            b[2] == (x / 65536) % 256,
            b[3] == x / 16777216,
            0 <= x < 0x1_0000_0000,
    ;
}

/// A value whose bytes stand at `off` is the value stored there.
proof fn lemma_u32_at_read(b: Seq<u8>, off: int, x: u32)
    requires
        0 <= off,
        off + 4 <= b.len(),
        le32(x) == b.subrange(off, off + 4),
    ensures
        u32_at(b, off) == x,
{
    lemma_le32_value(x);
    assert(u32_at(b, off) == u32_at(b.subrange(off, off + 4), 0));
}

/// Where the fields that the patch reads and writes lie in the bytes of a
/// certificate.
proof fn lemma_certificate_fields(c: XbeCertificate)
    requires
        c.wf(),
    ensures
        c.spec_bytes().len() == 476,
        u32_at(c.spec_bytes(), 0) == c.size,
        u32_at(c.spec_bytes(), 156) == c.allowed_media_types.0,
        u32_at(c.spec_bytes(), 472) == c.runtime_security_flags,
{
    reveal(XbeCertificate::spec_bytes);
    lemma_le16s_len(c.title_name_utf16@);
    lemma_le32s_len(c.alt_title_id@);
    let head = le32(c.size) + le32(c.timestamp) + le32(c.title_id) + le16s(c.title_name_utf16@) + le32s(
        c.alt_title_id@,
    );
    let middle = le32(c.game_region) + le32(c.game_ratings) + le32(c.disk_number) + le32(c.version) + c.lan_key@
        + c.sig_key@ + c.alternate_sig_key@ + le32(c.unknown1) + le32(c.unknown2);
    let b = c.spec_bytes();
    assert(b =~= head + le32(c.allowed_media_types.0) + middle + le32(c.runtime_security_flags));
    assert(b.subrange(0, 4) =~= le32(c.size));
    assert(b.subrange(156, 160) =~= le32(c.allowed_media_types.0));
    assert(b.subrange(472, 476) =~= le32(c.runtime_security_flags));
    lemma_le32_value(c.size);
    lemma_le32_value(c.allowed_media_types.0);
    lemma_le32_value(c.runtime_security_flags);
    assert(u32_at(b, 0) == u32_at(b.subrange(0, 4), 0));
    assert(u32_at(b, 156) == u32_at(b.subrange(156, 160), 0));
    assert(u32_at(b, 472) == u32_at(b.subrange(472, 476), 0));
}

/// Patches the certificate stored as `cert`: the bytes to write back in
/// its place and the media types before and after; `None` where `cert`
/// does not have the size of a certificate.
pub fn patch_certificate(cert: &[u8]) -> (r: Option<(Vec<u8>, MediaPatchInfo)>)
    ensures
        r is Some <==> cert@.len() == XbeCertificate::SIZE,
        r matches Some((bytes, info)) ==> {
            &&& bytes@ == patched_certificate_bytes(cert@)
            &&& info.original.0 == u32_at(cert@, 156)
            &&& info.new.0 == info.original.0 | MEDIA_PATCH_MASK
        },
{
    let mut c = match XbeCertificate::deserialize(cert) {
        Some(c) => c,
        None => return None,
    };
    let ghost c0 = c;
    let info = c.patch_media();
    let write_size = c.write_size();
    let bytes = c.serialize();
    proof {
        lemma_certificate_fields(c0);
        lemma_patch_changes_two_fields(c0, c);
    }
    let part = vstd::slice::slice_subrange(bytes.as_slice(), 0, write_size);
    let out = vstd::slice::slice_to_vec(part);
    proof {
        assert(out@ =~= patched_certificate_bytes(cert@));
    }
    Some((out, info))
}

impl XbeHeader {
    /// Where on disk the certificate of the XBE stored in `xbe` starts;
    /// `None` where the header is not that of an XBE or locates the
    /// certificate before its base address.
    pub fn certificate_offset(&self, xbe: DiskRegion) -> (r: Option<u64>)
        ensures
            r is Some <==> self.xbeh == XBE_HEADER_MAGIC && self.cert_addr >= self.base_addr,
            r matches Some(o) ==> o == xbe.sector * 2048 + (self.cert_addr - self.base_addr),
    {
        if !self.is_valid() || self.cert_addr < self.base_addr {
            return None;
        }
        Some(xbe.offset(self.cert_addr - self.base_addr))
    }
}

/// Where the certificate of the XBE whose header starts at byte `h` of
/// `dev` starts, as its header says; `None` where the header is not that of
/// an XBE or locates the certificate before its base address.
pub open spec fn spec_cert_offset(dev: Seq<u8>, h: int) -> Option<int> {
    if u32_at(dev, h) == XBE_HEADER_MAGIC && u32_at(dev, h + 280) >= u32_at(dev, h + 260) {
        Some(h + u32_at(dev, h + 280) - u32_at(dev, h + 260))
    } else {
        None
    }
}

/// The device holds the whole header of the XBE stored in `xbe`.
pub open spec fn header_held(dev: Seq<u8>, xbe: DiskRegion) -> bool {
    xbe.sector * 2048 + 388 <= dev.len()
}

/// The device holds the whole header of the XBE stored in `xbe`, the header
/// locates the certificate, and the device holds the whole certificate.
pub open spec fn certificate_held(dev: Seq<u8>, xbe: DiskRegion) -> bool {
    header_held(dev, xbe) && (spec_cert_offset(dev, xbe.sector * 2048) matches Some(c) && c + 476 <= dev.len())
}

/// Where the certificate of the XBE stored in `xbe` starts on `dev`.
pub open spec fn held_cert_offset(dev: Seq<u8>, xbe: DiskRegion) -> int {
    spec_cert_offset(dev, xbe.sector * 2048).unwrap()
}

/// Why an XBE cannot be patched.
#[derive(Debug)]
pub enum XbePatchError<R, W> {
    /// The image could not be read.
    ReadError(R),
    /// The image could not be written.
    WriteError(W),
    /// The header is not that of an XBE, or locates its certificate before
    /// its base address.
    InvalidVolume,
    /// A structure could not be read from the bytes read.
    SerializationFailed,
}

/// Patches the XBE stored in the region `xbe` of `img` to run from any
/// medium: reads its header and certificate, allows every medium and the
/// non-secure modes, clears the first runtime security flag, and writes
/// back the recorded size of the certificate. Returns the media types
/// before and after.
#[verifier::rlimit(80)]
pub fn apply_media_patch<T: BlockDeviceRead + BlockDeviceWrite>(img: &mut T, xbe: DiskRegion) -> (r: Result<
    MediaPatchInfo,
    XbePatchError<T::ReadError, T::WriteError>,
>)
    ensures
        r matches Ok(info) ==> info.new.0 == info.original.0 | MEDIA_PATCH_MASK,
        !(r matches Err(XbePatchError::SerializationFailed)),
        T::obeys_model() && header_held(old(img).model(), xbe) && (r matches Err(
            XbePatchError::InvalidVolume,
        )) ==> spec_cert_offset(old(img).model(), xbe.sector * 2048) is None,
        T::obeys_model() && header_held(old(img).model(), xbe) && u32_at(old(img).model(), xbe.sector * 2048)
            != XBE_HEADER_MAGIC ==> (r matches Err(XbePatchError::InvalidVolume)) || (r matches Err(
            XbePatchError::ReadError(_),
        )),
        T::obeys_model() && header_held(old(img).model(), xbe) && spec_cert_offset(
            old(img).model(),
            xbe.sector * 2048,
        ) is None ==> (r matches Err(XbePatchError::InvalidVolume)) || (r matches Err(XbePatchError::ReadError(_))),
        T::obeys_model() && certificate_held(old(img).model(), xbe) ==> (r matches Ok(info) ==> info.original.0
            == u32_at(old(img).model(), held_cert_offset(old(img).model(), xbe) + 156)),
        T::obeys_model() && certificate_held(old(img).model(), xbe) && r is Ok ==> final(img).model() == written(
            old(img).model(),
            held_cert_offset(old(img).model(), xbe),
            patched_certificate_bytes(
                old(img).model().subrange(
                    held_cert_offset(old(img).model(), xbe),
                    held_cert_offset(old(img).model(), xbe) + 476,
                ),
            ),
        ),
        T::obeys_model() && r is Err ==> final(img).model() == old(img).model(),
{
    let ghost dev = img.model();
    let ghost h = xbe.sector * 2048;
    let header_offset = xbe.offset(0);
    let mut header_bytes = vec![0u8; 388];
    let ghost zeros = header_bytes@;
    match img.read(header_offset, header_bytes.as_mut_slice()) {
        Ok(()) => {},
        Err(e) => return Err(XbePatchError::ReadError(e)),
    }
    proof {
        if T::obeys_model() && h + 388 <= dev.len() {
            lemma_read_within(dev, h, zeros);
            let hb = header_bytes@;
            assert(u32_at(hb, 0) == u32_at(dev, h));
            assert(u32_at(hb, 260) == u32_at(dev, h + 260));
            assert(u32_at(hb, 280) == u32_at(dev, h + 280));
        }
    }
    let xbe_header = match XbeHeader::deserialize(header_bytes.as_slice()) {
        Some(h) => h,
        None => return Err(XbePatchError::SerializationFailed),
    };
    let cert_offset = match xbe_header.certificate_offset(xbe) {
        Some(o) => o,
        None => return Err(XbePatchError::InvalidVolume),
    };
    let mut cert_bytes = vec![0u8; 476];
    let ghost zeros2 = cert_bytes@;
    match img.read(cert_offset, cert_bytes.as_mut_slice()) {
        Ok(()) => {},
        Err(e) => return Err(XbePatchError::ReadError(e)),
    }
    proof {
        if T::obeys_model() && h + 388 <= dev.len() && cert_offset + 476 <= dev.len() {
            lemma_read_within(dev, cert_offset as int, zeros2);
            assert(u32_at(cert_bytes@, 156) == u32_at(dev, cert_offset + 156));
        }
    }
    let (bytes, info) = match patch_certificate(cert_bytes.as_slice()) {
        Some(p) => p,
        None => return Err(XbePatchError::SerializationFailed),
    };
    let ghost before = img.model();
    match img.write(cert_offset, bytes.as_slice()) {
        Ok(()) => {},
        Err(e) => return Err(XbePatchError::WriteError(e)),
    }
    proof {
        if T::obeys_model() && certificate_held(dev, xbe) {
            assert(before == dev);
            assert(cert_offset == held_cert_offset(dev, xbe));
            assert(cert_bytes@ == dev.subrange(cert_offset as int, cert_offset + 476));
            assert(bytes@ == patched_certificate_bytes(dev.subrange(cert_offset as int, cert_offset + 476)));
            assert(written(before, cert_offset as int, bytes@) == img.model());
        }
    }
    Ok(info)
}

} // verus!
