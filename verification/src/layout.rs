//! On-disk structures of XDVDFS directory entries, and the encoding and
//! ordering of entry names.
use vstd::prelude::*;

use crate::avl::{AvlKey, KeyOrder};

verus! {

/// Size of one XDVDFS sector, in bytes.
pub const SECTOR_SIZE: u32 = 2048;

/// Size of a serialized directory entry node, without its name.
pub const DIRENT_NODE_SIZE: u32 = 14;

/// Longest name, in bytes, that a directory entry can hold.
pub const MAX_NAME_LEN: usize = 255;

/// Attribute bit: the entry is a directory.
pub const ATTR_DIRECTORY: u8 = 0x10;

/// Attribute bit: the entry is an archive (a regular file).
pub const ATTR_ARCHIVE: u8 = 0x20;

/// Reasons why a name cannot be stored in a directory entry.
#[derive(Copy, Clone, Debug, PartialEq, Eq, Structural)]
pub enum NameEncodingError {
    /// The name is longer than 255 bytes once encoded.
    NameTooLong,
    /// The name holds a character outside the single-byte range.
    InvalidCharacter,
}

/// A run of sectors on disk holding `size` bytes.
#[derive(Copy, Clone, Debug, PartialEq, Eq, Structural)]
pub struct DiskRegion {
    pub sector: u32,
    pub size: u32,
}

impl DiskRegion {
    /// The byte offset of position `offset` of the region on disk.
    pub fn offset(&self, offset: u32) -> (r: u64)
        ensures
            r == self.sector * 2048 + offset,
    {
        self.sector as u64 * 2048 + offset as u64
    }
}

/// Attribute byte of a directory entry.
#[derive(Copy, Clone, Debug, PartialEq, Eq, Structural)]
pub struct DirentAttributes(pub u8);

pub open spec fn with_bit(value: u8, mask: u8, on: bool) -> u8 {
    if on {
        value | mask
    } else {
        value & !mask
    }
}

impl DirentAttributes {
    /// Sets or clears the directory bit.
    pub fn with_directory(self, on: bool) -> (r: Self)
        ensures
            r.0 == with_bit(self.0, ATTR_DIRECTORY, on),
    {
        if on {
            DirentAttributes(self.0 | ATTR_DIRECTORY)
        } else {
            DirentAttributes(self.0 & !ATTR_DIRECTORY)
        }
    }

    /// Sets or clears the archive bit.
    pub fn with_archive(self, on: bool) -> (r: Self)
        ensures
            r.0 == with_bit(self.0, ATTR_ARCHIVE, on),
    {
        if on {
            DirentAttributes(self.0 | ATTR_ARCHIVE)
        } else {
            DirentAttributes(self.0 & !ATTR_ARCHIVE)
        }
    }

    pub open spec fn spec_is_directory(self) -> bool {
        self.0 & ATTR_DIRECTORY != 0
    }

    /// Whether the directory bit is set.
    pub fn is_directory(&self) -> (r: bool)
        ensures
            r == self.spec_is_directory(),
    {
        self.0 & ATTR_DIRECTORY != 0
    }
}

/// The on-disk part of a directory entry, apart from its child offsets and
/// its name bytes.
#[derive(Copy, Clone, Debug, PartialEq, Eq, Structural)]
pub struct DirectoryEntryDiskData {
    pub data: DiskRegion,
    pub attributes: DirentAttributes,
    pub filename_length: u8,
}

/// A directory entry node as stored in a directory entry table: offsets (in
/// units of four bytes) of its left and right children, then the entry.
#[derive(Copy, Clone, Debug, PartialEq, Eq, Structural)]
pub struct DirectoryEntryDiskNode {
    pub left_entry_offset: u16,
    pub right_entry_offset: u16,
    pub dirent: DirectoryEntryDiskData,
}

/// Little-endian bytes of a 16-bit value.
pub open spec fn le16(x: u16) -> Seq<u8> {
    seq![(x % 256) as u8, (x / 256) as u8]
}

/// Little-endian bytes of a 32-bit value.
pub open spec fn le32(x: u32) -> Seq<u8> {
    seq![
        (x % 256) as u8,
        ((x / 256) % 256) as u8,
        ((x / 65536) % 256) as u8,
        (x / 16777216) as u8,
    ]
}

impl DirectoryEntryDiskNode {
    /// The fourteen bytes of the node, little endian, in field order.
    pub open spec fn spec_bytes(self) -> Seq<u8> {
        le16(self.left_entry_offset) + le16(self.right_entry_offset) + le32(self.dirent.data.sector)
            + le32(self.dirent.data.size) + seq![self.dirent.attributes.0, self.dirent.filename_length]
    }

    /// Serializes the node into the first fourteen bytes of `buf`; fails,
    /// leaving `buf` untouched, when `buf` is shorter than that.
    pub fn serialize_into(&self, buf: &mut [u8]) -> (r: Result<(), ()>)
        ensures
            r is Ok <==> old(buf)@.len() >= 14,
            r is Ok ==> final(buf)@ == self.spec_bytes() + old(buf)@.subrange(14, old(buf)@.len() as int),
            r is Err ==> final(buf)@ == old(buf)@,
    {
        if buf.len() < 14 {
            return Err(());
        }
        let l = self.left_entry_offset;
        let r = self.right_entry_offset;
        let s = self.dirent.data.sector;
        let z = self.dirent.data.size;
        buf[0] = (l % 256) as u8;
        buf[1] = (l / 256) as u8;
        buf[2] = (r % 256) as u8;
        buf[3] = (r / 256) as u8;
        buf[4] = (s % 256) as u8;
        buf[5] = ((s / 256) % 256) as u8;
        buf[6] = ((s / 65536) % 256) as u8;
        buf[7] = (s / 16777216) as u8;
        buf[8] = (z % 256) as u8;
        buf[9] = ((z / 256) % 256) as u8;
        buf[10] = ((z / 65536) % 256) as u8;
        buf[11] = (z / 16777216) as u8;
        buf[12] = self.dirent.attributes.0;
        buf[13] = self.dirent.filename_length;
        assert(buf@ =~= self.spec_bytes() + old(buf)@.subrange(14, old(buf)@.len() as int));
        Ok(())
    }

    /// The fourteen bytes of the node.
    pub fn serialize(&self) -> (r: Result<Vec<u8>, ()>)
        ensures
            r matches Ok(v) && v@ == self.spec_bytes(),
    {
        let mut v: Vec<u8> = Vec::new();
        let mut i: usize = 0;
        while i < 14
            invariant
                i <= 14,
                v@.len() == i,
            decreases 14 - i,
        {
            v.push(0);
            i = i + 1;
        }
        let r = self.serialize_into(v.as_mut_slice());
        assert(v@ =~= self.spec_bytes());
        Ok(v)
    }
}

/// Little-endian bytes of a 64-bit value.
pub open spec fn le64(x: u64) -> Seq<u8> {
    le32((x % 0x1_0000_0000) as u32) + le32((x / 0x1_0000_0000) as u32)
}

/// The text that opens and closes the volume descriptor:
/// `MICROSOFT*XBOX*MEDIA`.
pub open spec fn volume_magic() -> Seq<u8> {
    seq![77u8, 73, 67, 82, 79, 83, 79, 70, 84, 42, 88, 66, 79, 88, 42, 77, 69, 68, 73, 65]
}

/// Number of unused bytes between the timestamp and the closing magic of
/// the volume descriptor.
pub const VOLUME_UNUSED_LEN: usize = 0x7c8;

/// Where the root directory entry table lies.
#[derive(Copy, Clone, Debug, PartialEq, Eq, Structural)]
pub struct DirectoryEntryTable {
    pub region: DiskRegion,
}

impl DirectoryEntryTable {
    /// The table of `size` bytes at `sector`.
    pub fn new(size: u32, sector: u32) -> (r: Self)
        ensures
            r.region == (DiskRegion { sector, size }),
    {
        DirectoryEntryTable { region: DiskRegion { sector, size } }
    }
}

/// The volume descriptor, stored in sector 32 of an image.
#[derive(Copy, Clone, Debug, PartialEq, Eq, Structural)]
pub struct VolumeDescriptor {
    pub root_table: DirectoryEntryTable,
    pub filetime: u64,
}

/// Appends the little-endian bytes of `x`.
pub(crate) fn push_le32(v: &mut Vec<u8>, x: u32)
    ensures
        final(v)@ == old(v)@ + le32(x),
{
    v.push((x % 256) as u8);
    v.push(((x / 256) % 256) as u8);
    v.push(((x / 65536) % 256) as u8);
    v.push((x / 16777216) as u8);
    assert(final(v)@ =~= old(v)@ + le32(x));
}

/// Appends the bytes of the volume magic.
fn push_magic(v: &mut Vec<u8>)
    ensures
        final(v)@ == old(v)@ + volume_magic(),
{
    let magic: [u8; 20] = [77, 73, 67, 82, 79, 83, 79, 70, 84, 42, 88, 66, 79, 88, 42, 77, 69, 68, 73, 65];
    let ghost start = v@;
    let mut i: usize = 0;
    while i < 20
        invariant
            i <= 20,
            magic@ == volume_magic(),
            v@ == start + magic@.take(i as int),
        decreases 20 - i,
    {
        v.push(magic[i]);
        i = i + 1;
        assert(v@ =~= start + magic@.take(i as int));
    }
    assert(magic@.take(20) =~= magic@);
}

impl VolumeDescriptor {
    /// The descriptor of a volume whose root table is `root_table`, with no
    /// timestamp.
    pub fn new(root_table: DirectoryEntryTable) -> (r: Self)
        ensures
            r.root_table == root_table,
            r.filetime == 0,
    {
        VolumeDescriptor { root_table, filetime: 0 }
    }

    /// The bytes of the descriptor: the magic, the sector and size of the
    /// root table, the timestamp, zeros, and the magic again; little endian.
    pub open spec fn spec_bytes(self) -> Seq<u8> {
        volume_magic() + le32(self.root_table.region.sector) + le32(self.root_table.region.size)
            + le64(self.filetime) + Seq::new(VOLUME_UNUSED_LEN as nat, |i: int| 0u8) + volume_magic()
    }

    /// Serializes the descriptor into its sector of bytes.
    pub fn serialize(&self) -> (r: Result<Vec<u8>, ()>)
        ensures
            r matches Ok(v) && v@ == self.spec_bytes(),
    {
        let mut v: Vec<u8> = Vec::new();
        push_magic(&mut v);
        push_le32(&mut v, self.root_table.region.sector);
        push_le32(&mut v, self.root_table.region.size);
        push_le32(&mut v, (self.filetime % 0x1_0000_0000) as u32);
        push_le32(&mut v, (self.filetime / 0x1_0000_0000) as u32);
        let ghost head = v@;
        let mut i: usize = 0;
        while i < VOLUME_UNUSED_LEN
            invariant
                i <= VOLUME_UNUSED_LEN,
                v@ == head + Seq::new(i as nat, |k: int| 0u8),
            decreases VOLUME_UNUSED_LEN - i,
        {
            v.push(0);
            i = i + 1;
            assert(v@ =~= head + Seq::new(i as nat, |k: int| 0u8));
        }
        push_magic(&mut v);
        assert(v@ =~= self.spec_bytes());
        Ok(v)
    }
}

// ---------------------------------------------------------------------------
// Names
// ---------------------------------------------------------------------------

/// Every character of the name has a single-byte code.
pub open spec fn is_single_byte(name: Seq<char>) -> bool {
    forall|i: int| 0 <= i < name.len() ==> (#[trigger] name[i] as u32) < 256
}

/// The bytes of a name whose characters all have single-byte codes.
pub open spec fn spec_encode_name(name: Seq<char>) -> Seq<u8> {
    Seq::new(name.len(), |i: int| name[i] as u32 as u8)
}

/// What encoding `name` gives: its bytes, or why it cannot be encoded.
pub open spec fn spec_encode_result(name: Seq<char>) -> Result<Seq<u8>, NameEncodingError> {
    if name.len() > MAX_NAME_LEN {
        Err(NameEncodingError::NameTooLong)
    } else if !is_single_byte(name) {
        Err(NameEncodingError::InvalidCharacter)
    } else {
        Ok(spec_encode_name(name))
    }
}

/// Encodes a name as one byte per character.
pub fn encode_name(name: &str) -> (r: Result<Vec<u8>, NameEncodingError>)
    ensures
        match r {
            Ok(v) => spec_encode_result(name@) == Ok::<Seq<u8>, NameEncodingError>(v@),
            Err(e) => spec_encode_result(name@) == Err::<Seq<u8>, NameEncodingError>(e),
        },
{
    let n = name.unicode_len();
    if n > MAX_NAME_LEN {
        return Err(NameEncodingError::NameTooLong);
    }
    let mut out: Vec<u8> = Vec::new();
    let mut i: usize = 0;
    while i < n
        invariant
            n == name@.len(),
            n <= MAX_NAME_LEN,
            i <= n,
            out@.len() == i,
            forall|k: int| 0 <= k < i ==> (#[trigger] name@[k] as u32) < 256,
            forall|k: int| 0 <= k < i ==> out@[k] == #[trigger] name@[k] as u32 as u8,
        decreases n - i,
    {
        let c = name.get_char(i);
        let code = c as u32;
        if code >= 256 {
            assert(!is_single_byte(name@)) by {
                assert((name@[i as int] as u32) >= 256);
            }
            assert(spec_encode_result(name@) == Err::<Seq<u8>, NameEncodingError>(
                NameEncodingError::InvalidCharacter,
            ));
            return Err(NameEncodingError::InvalidCharacter);
        }
        out.push(code as u8);
        i = i + 1;
    }
    assert(out@ =~= spec_encode_name(name@));
    Ok(out)
}

/// ASCII upper-case of a byte; other bytes are unchanged.
pub open spec fn upper(b: u8) -> u8 {
    if 97 <= b <= 122 {
        (b - 32) as u8
    } else {
        b
    }
}

/// Case-insensitive lexicographic order on encoded names: a proper prefix
/// comes first.
pub open spec fn name_lt(a: Seq<u8>, b: Seq<u8>) -> bool
    decreases a.len(),
{
    if a.len() == 0 {
        b.len() > 0
    } else if b.len() == 0 {
        false
    } else if upper(a[0]) != upper(b[0]) {
        upper(a[0]) < upper(b[0])
    } else {
        name_lt(a.drop_first(), b.drop_first())
    }
}

pub proof fn lemma_name_lt_irreflexive(a: Seq<u8>)
    ensures
        !name_lt(a, a),
    decreases a.len(),
{
    if a.len() > 0 {
        lemma_name_lt_irreflexive(a.drop_first());
    }
}

pub proof fn lemma_name_lt_transitive(a: Seq<u8>, b: Seq<u8>, c: Seq<u8>)
    requires
        name_lt(a, b),
        name_lt(b, c),
    ensures
        name_lt(a, c),
    decreases a.len(),
{
    if a.len() > 0 && b.len() > 0 && c.len() > 0 {
        if upper(a[0]) == upper(b[0]) && upper(b[0]) == upper(c[0]) {
            lemma_name_lt_transitive(a.drop_first(), b.drop_first(), c.drop_first());
        }
    }
}

/// Compares two encoded names in the order of `name_lt`.
pub fn compare_names(a: &[u8], b: &[u8]) -> (r: KeyOrder)
    ensures
        (r == KeyOrder::Less) == name_lt(a@, b@),
        (r == KeyOrder::Greater) == name_lt(b@, a@),
{
    let mut i: usize = 0;
    proof {
        assert(a@.skip(0) =~= a@);
        assert(b@.skip(0) =~= b@);
    }
    while i < a.len() && i < b.len()
        invariant
            i <= a@.len(),
            i <= b@.len(),
            name_lt(a@, b@) == name_lt(a@.skip(i as int), b@.skip(i as int)),
            name_lt(b@, a@) == name_lt(b@.skip(i as int), a@.skip(i as int)),
        decreases a@.len() - i,
    {
        let x = if 97 <= a[i] && a[i] <= 122 { a[i] - 32 } else { a[i] };
        let y = if 97 <= b[i] && b[i] <= 122 { b[i] - 32 } else { b[i] };
        assert(a@.skip(i as int)[0] == a@[i as int]);
        assert(b@.skip(i as int)[0] == b@[i as int]);
        if x < y {
            return KeyOrder::Less;
        }
        if x > y {
            return KeyOrder::Greater;
        }
        assert(a@.skip(i as int).drop_first() =~= a@.skip(i + 1));
        assert(b@.skip(i as int).drop_first() =~= b@.skip(i + 1));
        i = i + 1;
    }
    if a.len() < b.len() {
        KeyOrder::Less
    } else if a.len() > b.len() {
        KeyOrder::Greater
    } else {
        KeyOrder::Equal
    }
}

// ---------------------------------------------------------------------------
// Directory entry data
// ---------------------------------------------------------------------------

/// A directory entry being built: its name, the encoded name, the on-disk
/// entry (whose sector is assigned later) and a caller-chosen index.
#[derive(Debug)]
pub struct DirectoryEntryData<'alloc> {
    pub name: &'alloc str,
    pub encoded_name: Vec<u8>,
    pub node: DirectoryEntryDiskData,
    pub idx: usize,
}

/// Bytes a directory entry with a name of `name_len` bytes takes on disk:
/// the node and the name, padded to a multiple of four.
pub open spec fn spec_len_on_disk(name_len: int) -> int {
    (14 + name_len + 3) / 4 * 4
}

impl<'alloc> DirectoryEntryData<'alloc> {
    /// Creates an entry with sector zero.
    pub fn new_without_sector(
        name: &'alloc str,
        size: u32,
        attributes: DirentAttributes,
        idx: usize,
    ) -> (r: Result<Self, NameEncodingError>)
        ensures
            match r {
                Ok(d) => spec_encode_result(name@) == Ok::<Seq<u8>, NameEncodingError>(
                    d.encoded_name@,
                ) && d.name == name && d.node.data == (DiskRegion { sector: 0, size })
                    && d.node.attributes == attributes && d.node.filename_length
                    == d.encoded_name@.len() && d.idx == idx,
                Err(e) => spec_encode_result(name@) == Err::<Seq<u8>, NameEncodingError>(e),
            },
    {
        let encoded = encode_name(name)?;
        let len = encoded.len() as u8;
        Ok(DirectoryEntryData {
            name,
            encoded_name: encoded,
            node: DirectoryEntryDiskData {
                data: DiskRegion { sector: 0, size },
                attributes,
                filename_length: len,
            },
            idx,
        })
    }

    /// Recomputes the encoded name and its stored length from the name.
    pub fn compute_len_and_name_encoding(&mut self) -> (r: Result<(), NameEncodingError>)
        ensures
            match r {
                Ok(()) => spec_encode_result(old(self).name@) == Ok::<Seq<u8>, NameEncodingError>(
                    final(self).encoded_name@,
                ) && final(self).node.filename_length == final(self).encoded_name@.len(),
                Err(e) => spec_encode_result(old(self).name@) == Err::<Seq<u8>, NameEncodingError>(e)
                    && *final(self) == *old(self),
            },
            final(self).name == old(self).name,
            final(self).idx == old(self).idx,
            final(self).node.data == old(self).node.data,
            final(self).node.attributes == old(self).node.attributes,
    {
        let encoded = encode_name(self.name)?;
        self.node.filename_length = encoded.len() as u8;
        self.encoded_name = encoded;
        Ok(())
    }

    /// The name as given.
    pub fn get_name(&self) -> (r: &'alloc str)
        ensures
            r == self.name,
    {
        self.name
    }

    /// The encoded name.
    pub fn get_encoded_name(&self) -> (r: &[u8])
        ensures
            r@ == self.encoded_name@,
    {
        self.encoded_name.as_slice()
    }

    /// Bytes the entry takes in its directory table.
    pub fn len_on_disk(&self) -> (r: u32)
        requires
            self.encoded_name@.len() <= MAX_NAME_LEN,
        ensures
            r == spec_len_on_disk(self.encoded_name@.len() as int),
    {
        let n = self.encoded_name.len() as u32;
        (14 + n + 3) / 4 * 4
    }
}

impl<'alloc> AvlKey for DirectoryEntryData<'alloc> {
    open spec fn precedes(self, other: Self) -> bool {
        name_lt(self.encoded_name@, other.encoded_name@)
    }

    proof fn lemma_precedes_irreflexive(a: Self) {
        lemma_name_lt_irreflexive(a.encoded_name@);
    }

    proof fn lemma_precedes_transitive(a: Self, b: Self, c: Self) {
        lemma_name_lt_transitive(a.encoded_name@, b.encoded_name@, c.encoded_name@);
    }

    fn compare(&self, other: &Self) -> (r: KeyOrder) {
        compare_names(self.encoded_name.as_slice(), other.encoded_name.as_slice())
    }
}

} // verus!
