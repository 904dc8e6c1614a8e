//! Directory entry tables: the entries of one directory, kept in an AVL tree
//! ordered by name and laid out on disk in pre-order, so that no entry
//! crosses a sector boundary.
use vstd::prelude::*;

use crate::avl::{equivalent, ins, AvlKey, AvlNode, AvlTree, Shape};
use crate::error::FileStructureError;
use crate::layout::{
    name_lt, spec_encode_result, spec_len_on_disk, DirectoryEntryData, DirectoryEntryDiskData,
    DirectoryEntryDiskNode, DirentAttributes, DiskRegion, NameEncodingError, ATTR_ARCHIVE,
    ATTR_DIRECTORY, MAX_NAME_LEN, SECTOR_SIZE,
};
use crate::sector::{required_sectors, spec_required_sectors, SectorAllocator};

verus! {

// ---------------------------------------------------------------------------
// Placement arithmetic
// ---------------------------------------------------------------------------

/// Padding needed before an entry of `size` bytes placed at `offset` so that
/// it does not cross a sector boundary.
pub open spec fn spec_sector_align(offset: int, size: int) -> int {
    if offset % 2048 != 0 && spec_required_sectors(offset + size) > spec_required_sectors(offset) {
        2048 - offset % 2048
    } else {
        0
    }
}

/// Returns the alignment needed so that an entry at `offset` of `size` bytes
/// does not cross a sector boundary: if it would, the offset is moved to the
/// next sector.
pub fn sector_align(offset: u32, size: u32) -> (r: u32)
    ensures
        r == spec_sector_align(offset as int, size as int),
{
    let used_sectors = required_sectors(offset as u64);
    let needed_sectors = required_sectors(offset as u64 + size as u64);
    if offset % SECTOR_SIZE != 0 && needed_sectors > used_sectors {
        SECTOR_SIZE - offset % SECTOR_SIZE
    } else {
        0
    }
}

/// An entry of at most a sector's size, placed at its offset plus the
/// padding that `sector_align` gives, lies within one sector; the padding
/// is none where the entry already fits in the rest of its sector, and
/// otherwise moves the entry to the start of the next sector.
pub proof fn law_sector_align_keeps_entry_in_sector(offset: u32, size: u32)
    requires
        size <= 2048,
    ensures
        ({
            let p = spec_sector_align(offset as int, size as int);
            let start = offset + p;
            &&& 0 <= p < 2048
            &&& start + size <= (start / 2048 + 1) * 2048
            &&& offset % 2048 + size <= 2048 ==> p == 0
            &&& p > 0 ==> start % 2048 == 0 && start / 2048 == offset / 2048 + 1
        }),
{
    let o = offset as int;
    let z = size as int;
    let q = o / 2048;
    let r = o % 2048;
    assert(o == q * 2048 + r && 0 <= r < 2048);
    if o == 0 {
        assert(spec_required_sectors(0) == 1);
    }
    if r != 0 {
        assert(spec_required_sectors(o) == q + 1) by (nonlinear_arith)
            requires
                o == q * 2048 + r,
                0 < r < 2048,
                o > 0,
        ;
        if o + z > 0 {
            assert(spec_required_sectors(o + z) == (o + z + 2047) / 2048);
        }
        if r + z > 2048 {
            assert((o + z + 2047) / 2048 > q + 1) by (nonlinear_arith)
                requires
                    o == q * 2048 + r,
                    r + z > 2048,
            ;
            let start = o + (2048 - r);
            assert(start == (q + 1) * 2048);
            assert(start / 2048 == q + 1 && start % 2048 == 0) by (nonlinear_arith)
                requires
                    start == (q + 1) * 2048,
            ;
        } else {
            assert((o + z + 2047) / 2048 <= q + 1) by (nonlinear_arith)
                requires
                    o == q * 2048 + r,
                    r + z <= 2048,
                    0 < r,
            ;
        }
    }
    let p = spec_sector_align(o, z);
    let start = o + p;
    assert(start + z <= (start / 2048 + 1) * 2048) by (nonlinear_arith)
        requires
            start == o + p,
            o == q * 2048 + r,
            0 <= r < 2048,
            0 <= z <= 2048,
            r == 0 ==> p == 0,
            r != 0 && r + z <= 2048 ==> p == 0,
            r != 0 && r + z > 2048 ==> p == 2048 - r,
    ;
}

/// The entries placed by `compute_offsets`, each at most a sector's size,
/// are laid out one after another from offset zero: each starts where the
/// one before it ends when it fits in the rest of that sector, and at the
/// start of the next sector otherwise, so none crosses a sector boundary.
pub proof fn law_offsets_stay_in_sectors(sizes: Seq<u32>, k: int)
    requires
        0 <= k < sizes.len(),
        sizes[k] <= 2048,
        state_after(sizes.take(k)) <= u32::MAX,
    ensures
        state_after(sizes.take(0)) == 0,
        k > 0 ==> state_after(sizes.take(k)) == offset_at(sizes, k - 1) + sizes[k - 1],
        state_after(sizes.take(k)) % 2048 + sizes[k] <= 2048 ==> offset_at(sizes, k) == state_after(sizes.take(k)),
        state_after(sizes.take(k)) % 2048 + sizes[k] > 2048 ==> offset_at(sizes, k) % 2048 == 0 && offset_at(
            sizes,
            k,
        ) / 2048 == state_after(sizes.take(k)) / 2048 + 1,
        offset_at(sizes, k) + sizes[k] <= (offset_at(sizes, k) / 2048 + 1) * 2048,
{
    let st = state_after(sizes.take(k));
    lemma_state_empty(sizes);
    lemma_state_monotone(sizes.take(k), 0);
    assert(sizes.take(k).take(0) =~= sizes.take(0));
    assert(st >= 0);
    law_sector_align_keeps_entry_in_sector(st as u32, sizes[k]);
    if k > 0 {
        lemma_state_step(sizes, k - 1);
    }
}

/// Running offset after placing all entries of the given sizes one after
/// another, each moved to the next sector when it would cross a boundary.
#[verifier::opaque]
pub open spec fn state_after(sizes: Seq<u32>) -> int
    decreases sizes.len(),
{
    if sizes.len() == 0 {
        0
    } else {
        let st = state_after(sizes.drop_last());
        st + spec_sector_align(st, sizes.last() as int) + sizes.last()
    }
}

/// Offset at which the entry `k` is placed.
pub open spec fn offset_at(sizes: Seq<u32>, k: int) -> int {
    let st = state_after(sizes.take(k));
    st + spec_sector_align(st, sizes[k] as int)
}

proof fn lemma_state_step(sizes: Seq<u32>, k: int)
    requires
        0 <= k < sizes.len(),
    ensures
        state_after(sizes.take(k + 1)) == offset_at(sizes, k) + sizes[k],
        offset_at(sizes, k) >= state_after(sizes.take(k)),
{
    reveal(state_after);
    assert(sizes.take(k + 1).drop_last() =~= sizes.take(k));
}

proof fn lemma_state_empty(sizes: Seq<u32>)
    ensures
        state_after(sizes.take(0)) == 0,
{
    reveal(state_after);
}

/// The running offset never decreases.
proof fn lemma_state_monotone(sizes: Seq<u32>, k: int)
    requires
        0 <= k <= sizes.len(),
    ensures
        state_after(sizes.take(k)) <= state_after(sizes),
    decreases sizes.len() - k,
{
    if k < sizes.len() {
        lemma_state_step(sizes, k);
        lemma_state_monotone(sizes, k + 1);
    } else {
        assert(sizes.take(k) =~= sizes);
    }
}

/// Entries of at most 272 bytes take at most 2319 bytes each, with the
/// padding that keeps them inside a sector.
pub proof fn lemma_state_bound(sizes: Seq<u32>)
    requires
        forall|i: int| 0 <= i < sizes.len() ==> sizes[i] <= 272,
    ensures
        state_after(sizes) <= sizes.len() * 2319,
    decreases sizes.len(),
{
    reveal(state_after);
    if sizes.len() > 0 {
        lemma_state_bound(sizes.drop_last());
    }
}

/// `b` is `a` with one entry added at the end, as a successful `add_file`
/// or `add_dir` leaves the entries of a builder.
pub open spec fn added_one(a: Seq<DirectoryEntryData>, b: Seq<DirectoryEntryData>) -> bool {
    b.len() == a.len() + 1 && b.take(a.len() as int) == a
}

/// After a series of successful additions to an empty builder, whose
/// entries went through `history`, the builder holds one entry per
/// addition, in the order of addition: the one that each addition added.
pub proof fn law_additions_kept_in_order(history: Seq<Seq<DirectoryEntryData>>)
    requires
        history.len() >= 1,
        history[0].len() == 0,
        forall|k: int| 0 <= k < history.len() - 1 ==> added_one(#[trigger] history[k], history[k + 1]),
    ensures
        history.last().len() == history.len() - 1,
        forall|i: int| 0 <= i < history.len() - 1 ==> history.last()[i] == #[trigger] history[i + 1].last(),
    decreases history.len(),
{
    if history.len() > 1 {
        let h = history.drop_last();
        assert forall|k: int| 0 <= k < h.len() - 1 implies added_one(#[trigger] h[k], h[k + 1]) by {
            assert(h[k] == history[k] && h[k + 1] == history[k + 1]);
        }
        law_additions_kept_in_order(h);
        let n = history.len() - 1;
        assert(added_one(history[n - 1], history[n]));
        assert forall|i: int| 0 <= i < history.len() - 1 implies history.last()[i] == #[trigger] history[i + 1].last() by {
            if i < n - 1 {
                assert(history.last().take(history[n - 1].len() as int)[i] == history[n - 1][i]);
                assert(h.last() == history[n - 1]);
                assert(h[i + 1] == history[i + 1]);
            }
        }
    }
}

/// Each entry, once placed, ends no later than the end of the table.
pub proof fn lemma_entry_within_table(sizes: Seq<u32>, k: int)
    requires
        0 <= k < sizes.len(),
    ensures
        offset_at(sizes, k) + sizes[k] <= state_after(sizes),
        state_after(sizes.take(k)) <= offset_at(sizes, k),
{
    lemma_state_step(sizes, k);
    lemma_state_monotone(sizes, k + 1);
}

/// Compute offsets from the start of the table for entries of the given
/// sizes: a partial sum of sizes, where an entry that would cross a sector
/// boundary is moved to the next sector.
pub fn compute_offsets(sizes: &[u32]) -> (r: Vec<u32>)
    requires
        state_after(sizes@) <= u32::MAX,
    ensures
        r@.len() == sizes@.len(),
        forall|k: int| 0 <= k < sizes@.len() ==> #[trigger] r@[k] == offset_at(sizes@, k),
{
    let mut out: Vec<u32> = Vec::new();
    let mut state: u32 = 0;
    let mut k: usize = 0;
    proof {
        lemma_state_empty(sizes@);
    }
    while k < sizes.len()
        invariant
            k <= sizes@.len(),
            out@.len() == k,
            state == state_after(sizes@.take(k as int)),
            state_after(sizes@) <= u32::MAX,
            forall|m: int| 0 <= m < k ==> #[trigger] out@[m] == offset_at(sizes@, m),
        decreases sizes@.len() - k,
    {
        proof {
            lemma_entry_within_table(sizes@, k as int);
        }
        let size = sizes[k];
        let align = sector_align(state, size);
        let offset = state + align;
        out.push(offset);
        proof {
            lemma_state_step(sizes@, k as int);
        }
        state = offset + size;
        k = k + 1;
    }
    out
}

/// Offset of a child entry in units of four bytes, or zero for no child.
pub open spec fn spec_child_offset(index: Option<usize>, offsets: Seq<u32>) -> int {
    match index {
        Some(idx) => (offsets[idx as int] / 4) as int,
        None => 0,
    }
}

/// Converts a child index into the offset stored in its parent; fails when
/// the offset does not fit in sixteen bits.
pub fn avl_index_to_offset(index: Option<usize>, offsets: &[u32]) -> (r: Result<
    u16,
    FileStructureError,
>)
    requires
        index matches Some(idx) ==> idx < offsets@.len(),
    ensures
        spec_child_offset(index, offsets@) <= u16::MAX ==> r == Ok::<u16, FileStructureError>(
            spec_child_offset(index, offsets@) as u16,
        ),
        spec_child_offset(index, offsets@) > u16::MAX ==> r == Err::<u16, FileStructureError>(
            FileStructureError::TooManyDirectoryEntries,
        ),
{
    let value: u32 = match index {
        Some(idx) => offsets[idx] / 4,
        None => 0,
    };
    if value <= u16::MAX as u32 {
        Ok(value as u16)
    } else {
        Err(FileStructureError::TooManyDirectoryEntries)
    }
}

/// The on-disk node for an entry: its data with the given sector and the
/// length of `name_bytes`, and the offsets of its children.
pub open spec fn spec_disk_node(
    data: DirectoryEntryDiskData,
    left: Option<usize>,
    right: Option<usize>,
    offsets: Seq<u32>,
    name_len: int,
    sector: u32,
) -> DirectoryEntryDiskNode {
    DirectoryEntryDiskNode {
        left_entry_offset: spec_child_offset(left, offsets) as u16,
        right_entry_offset: spec_child_offset(right, offsets) as u16,
        dirent: DirectoryEntryDiskData {
            data: DiskRegion { sector, size: data.data.size },
            attributes: data.attributes,
            filename_length: (name_len % 256) as u8,
        },
    }
}

/// Builds the on-disk node of an entry.
pub fn dirent_data_to_disk_node(
    data: &DirectoryEntryData,
    left_child_index: Option<usize>,
    right_child_index: Option<usize>,
    offsets: &[u32],
    name_bytes: &[u8],
    sector: u32,
) -> (r: Result<DirectoryEntryDiskNode, FileStructureError>)
    requires
        left_child_index matches Some(idx) ==> idx < offsets@.len(),
        right_child_index matches Some(idx) ==> idx < offsets@.len(),
    ensures
        (spec_child_offset(left_child_index, offsets@) <= u16::MAX && spec_child_offset(
            right_child_index,
            offsets@,
        ) <= u16::MAX) ==> r == Ok::<DirectoryEntryDiskNode, FileStructureError>(
            spec_disk_node(
                data.node,
                left_child_index,
                right_child_index,
                offsets@,
                name_bytes@.len() as int,
                sector,
            ),
        ),
        (spec_child_offset(left_child_index, offsets@) > u16::MAX || spec_child_offset(
            right_child_index,
            offsets@,
        ) > u16::MAX) ==> r == Err::<DirectoryEntryDiskNode, FileStructureError>(
            FileStructureError::TooManyDirectoryEntries,
        ),
{
    let mut dirent = data.node;
    dirent.filename_length = (name_bytes.len() % 256) as u8;
    let left_entry_offset = avl_index_to_offset(left_child_index, offsets)?;
    let right_entry_offset = avl_index_to_offset(right_child_index, offsets)?;
    dirent.data.sector = sector;
    Ok(DirectoryEntryDiskNode { left_entry_offset, right_entry_offset, dirent })
}

/// Bytes of a serialized entry: the node, then its name.
pub open spec fn spec_entry_bytes(dirent: DirectoryEntryDiskNode, name_bytes: Seq<u8>) -> Seq<u8> {
    dirent.spec_bytes() + name_bytes.take(dirent.dirent.filename_length as int)
}

/// Writes an entry at the start of `table`: its fourteen-byte node followed
/// by its name. Fails, leaving the table untouched, when the table cannot
/// hold the node.
pub fn serialize_dirent_disk_node(
    table: &mut [u8],
    dirent: DirectoryEntryDiskNode,
    name_bytes: &[u8],
) -> (r: Result<(), FileStructureError>)
    requires
        old(table)@.len() >= 14 ==> old(table)@.len() >= 14 + dirent.dirent.filename_length,
        old(table)@.len() >= 14 ==> name_bytes@.len() >= dirent.dirent.filename_length,
    ensures
        r is Ok <==> old(table)@.len() >= 14,
        r is Ok ==> final(table)@ == spec_entry_bytes(dirent, name_bytes@) + old(table)@.skip(
            14 + dirent.dirent.filename_length,
        ),
        r is Err ==> r == Err::<(), FileStructureError>(FileStructureError::SerializationError)
            && final(table)@ == old(table)@,
{
    match dirent.serialize_into(table) {
        Ok(()) => {},
        Err(()) => {
            return Err(FileStructureError::SerializationError);
        },
    }
    let name_len = dirent.dirent.filename_length as usize;
    let ghost mid = table@;
    let mut i: usize = 0;
    while i < name_len
        invariant
            i <= name_len,
            name_len == dirent.dirent.filename_length,
            table@.len() == mid.len(),
            mid.len() >= 14 + name_len,
            name_bytes@.len() >= name_len,
            forall|k: int| 0 <= k < 14 ==> #[trigger] table@[k] == mid[k],
            forall|k: int| 14 + i <= k < mid.len() ==> #[trigger] table@[k] == mid[k],
            forall|k: int| 0 <= k < i ==> #[trigger] table@[14 + k] == name_bytes@[k],
        decreases name_len - i,
    {
        table[14 + i] = name_bytes[i];
        i = i + 1;
    }
    proof {
        let rhs = spec_entry_bytes(dirent, name_bytes@) + old(table)@.skip(14 + name_len);
        assert(dirent.spec_bytes().len() == 14);
        assert(mid == dirent.spec_bytes() + old(table)@.subrange(14, old(table)@.len() as int));
        assert forall|k: int| 0 <= k < table@.len() implies table@[k] == rhs[k] by {
            if k < 14 {
                assert(table@[k] == mid[k]);
            } else if k < 14 + name_len {
                assert(table@[14 + (k - 14)] == name_bytes@[k - 14]);
            } else {
                assert(table@[k] == mid[k]);
            }
        }
        assert(table@ =~= rhs);
    }
    Ok(())
}

// ---------------------------------------------------------------------------
// Builder
// ---------------------------------------------------------------------------

/// Whether `d` is the entry made from the given name, size, attributes and
/// index.
pub open spec fn is_entry_for(
    d: DirectoryEntryData,
    name: &str,
    size: u32,
    attributes: DirentAttributes,
    idx: usize,
) -> bool {
    &&& spec_encode_result(name@) == Ok::<Seq<u8>, NameEncodingError>(d.encoded_name@)
    &&& d.name == name
    &&& d.node.data == (DiskRegion { sector: 0, size })
    &&& d.node.attributes == attributes
    &&& d.node.filename_length == d.encoded_name@.len()
    &&& d.idx == idx
}

/// Whether an entry with an encoded name equal to `encoded`, ignoring case,
/// is already in `entries`.
pub open spec fn has_name(entries: Seq<DirectoryEntryData>, encoded: Seq<u8>) -> bool {
    exists|j: int|
        0 <= j < entries.len() && !name_lt(encoded, #[trigger] entries[j].encoded_name@) && !name_lt(
            entries[j].encoded_name@,
            encoded,
        )
}

/// The result of adding an entry to a table holding `entries`.
pub open spec fn add_outcome(
    entries: Seq<DirectoryEntryData>,
    name: &str,
) -> Result<(), FileStructureError> {
    match spec_encode_result(name@) {
        Err(e) => Err(FileStructureError::FileNameError(e)),
        Ok(encoded) => if has_name(entries, encoded) {
            Err(FileStructureError::DuplicateFileName)
        } else {
            Ok(())
        },
    }
}

/// Size of a directory, rounded up to whole sectors.
pub open spec fn spec_dir_size(size: u32) -> int {
    size + (2048 - size % 2048) % 2048
}

/// Attribute byte of directory entries.
pub open spec fn dir_attributes() -> DirentAttributes {
    DirentAttributes(0u8 | ATTR_DIRECTORY)
}

/// Attribute byte of file entries.
pub open spec fn file_attributes() -> DirentAttributes {
    DirentAttributes(0u8 | ATTR_ARCHIVE)
}

/// Collects the entries of one directory.
pub struct AvlDirectoryEntryTableBuilder<'alloc> {
    table: AvlTree<DirectoryEntryData<'alloc>>,
}

/// Entries whose names fit a directory entry, with a matching stored length.
pub open spec fn entries_wf(entries: Seq<DirectoryEntryData>) -> bool {
    forall|i: int|
        0 <= i < entries.len() ==> (#[trigger] entries[i]).encoded_name@.len() <= MAX_NAME_LEN
            && entries[i].node.filename_length == entries[i].encoded_name@.len()
}

impl<'alloc> AvlDirectoryEntryTableBuilder<'alloc> {
    pub closed spec fn spec_table(&self) -> AvlTree<DirectoryEntryData<'alloc>> {
        self.table
    }

    /// The entries added so far, in the order of addition.
    pub open spec fn entries(&self) -> Seq<DirectoryEntryData<'alloc>> {
        self.spec_table()@
    }

    /// The shape of the AVL tree over the entries, which fixes the order
    /// of the table on disk.
    pub open spec fn shape(&self) -> Shape {
        self.spec_table().spec_shape()
    }

    pub open spec fn wf(&self) -> bool {
        &&& self.spec_table().wf()
        &&& entries_wf(self.entries())
    }

    pub fn new() -> (r: Self)
        ensures
            r.wf(),
            r.entries() == Seq::<DirectoryEntryData<'alloc>>::empty(),
            r.shape() == Shape::Leaf,
    {
        AvlDirectoryEntryTableBuilder { table: AvlTree::new() }
    }

    fn add_node(
        &mut self,
        name: &'alloc str,
        size: u32,
        attributes: DirentAttributes,
        idx: usize,
    ) -> (r: Result<(), FileStructureError>)
        requires
            old(self).wf(),
            old(self).entries().len() < usize::MAX,
        ensures
            final(self).wf(),
            r == add_outcome(old(self).entries(), name),
            r is Ok ==> final(self).entries().len() == old(self).entries().len() + 1
                && final(self).entries().take(old(self).entries().len() as int) == old(
                self,
            ).entries() && is_entry_for(
                final(self).entries().last(),
                name,
                size,
                attributes,
                idx,
            ),
            r is Err ==> final(self).entries() == old(self).entries(),
            r is Ok ==> final(self).shape() == ins(old(self).shape(), old(self).entries().len() as usize, final(self).entries()),
            r is Err ==> final(self).shape() == old(self).shape(),
    {
        let dirent = match DirectoryEntryData::new_without_sector(name, size, attributes, idx) {
            Ok(d) => d,
            Err(e) => {
                return Err(FileStructureError::FileNameError(e));
            },
        };
        let ghost d = dirent;
        let ghost old_entries = self.table@;
        proof {
            assert(self.table.contains_equivalent(d) == has_name(old_entries, d.encoded_name@)) by {
                if self.table.contains_equivalent(d) {
                    let j = choose|j: int|
                        0 <= j < old_entries.len() && equivalent(d, #[trigger] old_entries[j]);
                    assert(!name_lt(d.encoded_name@, old_entries[j].encoded_name@));
                }
                if has_name(old_entries, d.encoded_name@) {
                    let j = choose|j: int|
                        0 <= j < old_entries.len() && !name_lt(
                            d.encoded_name@,
                            #[trigger] old_entries[j].encoded_name@,
                        ) && !name_lt(old_entries[j].encoded_name@, d.encoded_name@);
                    assert(equivalent(d, old_entries[j]));
                }
            }
        }
        if self.table.insert(dirent) {
            proof {
                assert(self.table@.take(old_entries.len() as int) =~= old_entries);
                assert forall|i: int| 0 <= i < self.table@.len() implies (#[trigger] self.table@[i]).encoded_name@.len()
                    <= MAX_NAME_LEN && self.table@[i].node.filename_length
                    == self.table@[i].encoded_name@.len() by {
                    if i < old_entries.len() {
                        assert(self.table@[i] == old_entries[i]);
                    }
                }
            }
            Ok(())
        } else {
            Err(FileStructureError::DuplicateFileName)
        }
    }

    /// Adds a directory; its size is rounded up to whole sectors.
    pub fn add_dir(&mut self, name: &'alloc str, size: u32, idx: usize) -> (r: Result<
        (),
        FileStructureError,
    >)
        requires
            old(self).wf(),
            old(self).entries().len() < usize::MAX,
            spec_dir_size(size) <= u32::MAX,
        ensures
            final(self).wf(),
            r == add_outcome(old(self).entries(), name),
            r is Ok ==> final(self).entries().len() == old(self).entries().len() + 1
                && final(self).entries().take(old(self).entries().len() as int) == old(
                self,
            ).entries() && is_entry_for(
                final(self).entries().last(),
                name,
                spec_dir_size(size) as u32,
                dir_attributes(),
                idx,
            ),
            r is Err ==> final(self).entries() == old(self).entries(),
            r is Ok ==> final(self).shape() == ins(old(self).shape(), old(self).entries().len() as usize, final(self).entries()),
            r is Err ==> final(self).shape() == old(self).shape(),
    {
        let attributes = DirentAttributes(0).with_directory(true);
        let size = size + ((2048 - size % 2048) % 2048);
        self.add_node(name, size, attributes, idx)
    }

    /// Adds a file of `size` bytes.
    pub fn add_file(&mut self, name: &'alloc str, size: u32) -> (r: Result<(), FileStructureError>)
        requires
            old(self).wf(),
            old(self).entries().len() < usize::MAX,
        ensures
            final(self).wf(),
            r == add_outcome(old(self).entries(), name),
            r is Ok ==> final(self).entries().len() == old(self).entries().len() + 1
                && final(self).entries().take(old(self).entries().len() as int) == old(
                self,
            ).entries() && is_entry_for(final(self).entries().last(), name, size, file_attributes(), 0),
            r is Err ==> final(self).entries() == old(self).entries(),
            r is Ok ==> final(self).shape() == ins(old(self).shape(), old(self).entries().len() as usize, final(self).entries()),
            r is Err ==> final(self).shape() == old(self).shape(),
    {
        let attributes = DirentAttributes(0).with_archive(true);
        self.add_node(name, size, attributes, 0)
    }

    /// Reserves room for `size` more entries.
    pub fn reserve(&mut self, size: usize)
        requires
            old(self).wf(),
        ensures
            final(self).wf(),
            final(self).entries() == old(self).entries(),
    {
        self.table.reserve(size);
    }

    /// Number of entries added so far.
    pub fn len(&self) -> (r: usize)
        requires
            self.wf(),
        ensures
            r == self.entries().len(),
    {
        self.table.len()
    }

    /// Sizes on disk of the entries, in the pre-order of the tree.
    pub open spec fn preorder_lens(&self) -> Seq<u32> {
        table_lens(self.spec_table())
    }

    /// The size the table will have, where it fits 32 bits.
    pub fn checked_table_size(&self) -> (r: Option<u32>)
        requires
            self.wf(),
        ensures
            r matches Some(v) ==> v == state_after(self.preorder_lens()),
            r is None <==> state_after(self.preorder_lens()) > u32::MAX,
    {
        let table = &self.table;
        let pre = table.preorder_indices();
        proof {
            table.lemma_preorder_is_permutation();
        }
        let n = pre.len();
        let ghost lens = table_lens(*table);
        let mut acc: u64 = 0;
        let mut k: usize = 0;
        proof {
            lemma_state_empty(lens);
        }
        while k < n
            invariant
                table.wf(),
                entries_wf(table@),
                pre@ == table.spec_preorder(),
                n == pre@.len(),
                lens == table_lens(*table),
                lens.len() == n,
                k <= n,
                acc == state_after(lens.take(k as int)),
                acc <= u32::MAX,
                lens == self.preorder_lens(),
                forall|j: usize| #[trigger] pre@.contains(j) <==> j < table@.len(),
            decreases n - k,
        {
            let idx = pre[k];
            assert(pre@.contains(idx));
            let disk_len = table.backing_vec()[idx].len_on_disk();
            assert(disk_len == lens[k as int]);
            proof {
                lemma_state_step(lens, k as int);
            }
            let pad = sector_align(acc as u32, disk_len);
            assert(pad == spec_sector_align(acc as int, disk_len as int));
            acc = acc + disk_len as u64 + pad as u64;
            k = k + 1;
            assert(acc == state_after(lens.take(k as int)));
            if acc > 0xffff_ffff {
                proof {
                    lemma_state_monotone(lens, k as int);
                }
                return None;
            }
        }
        assert(lens.take(n as int) =~= lens);
        Some(acc as u32)
    }

    /// A table of `n` entries takes at most `n * 2319` bytes.
    pub proof fn lemma_size_bound(&self)
        requires
            self.wf(),
        ensures
            state_after(self.preorder_lens()) <= self.entries().len() * 2319,
    {
        self.spec_table().lemma_preorder_is_permutation();
        let lens = self.preorder_lens();
        let pre = self.spec_table().spec_preorder();
        assert forall|i: int| 0 <= i < lens.len() implies lens[i] <= 272 by {
            assert(pre.contains(pre[i]));
            let e = self.entries()[pre[i] as int];
            assert(e.encoded_name@.len() <= 255);
        }
        lemma_state_bound(lens);
    }

    /// Finishes the table, computing its size.
    pub fn build(self) -> (r: Result<AvlDirectoryEntryTableWriter<'alloc>, FileStructureError>)
        requires
            self.wf(),
            state_after(self.preorder_lens()) <= u32::MAX,
        ensures
            r is Ok,
            r matches Ok(w) ==> w.spec_table() == self.spec_table(),
            r matches Ok(w) ==> w.wf() && w.entries() == self.entries() && w.sectors() == Seq::new(
                self.entries().len(),
                |i: int| 0u32,
            ),
    {
        AvlDirectoryEntryTableWriter::new(self)
    }
}

impl<'alloc> Default for AvlDirectoryEntryTableBuilder<'alloc> {
    fn default() -> (r: Self)
        ensures
            r.wf(),
            r.entries() == Seq::<DirectoryEntryData<'alloc>>::empty(),
            r.shape() == Shape::Leaf,
    {
        Self::new()
    }
}

/// Sizes on disk of the entries of a tree, in its pre-order.
pub open spec fn table_lens(table: AvlTree<DirectoryEntryData>) -> Seq<u32> {
    Seq::new(
        table.spec_preorder().len(),
        |k: int| spec_len_on_disk(table@[table.spec_preorder()[k] as int].encoded_name@.len() as int) as u32,
    )
}


/// Sectors taken by the first `k` of the given sizes.
pub open spec fn sectors_before(sizes: Seq<u32>, k: int) -> int
    decreases k,
{
    if k <= 0 {
        0
    } else {
        sectors_before(sizes, k - 1) + spec_required_sectors(sizes[k - 1] as int)
    }
}

proof fn lemma_sectors_before_monotone(sizes: Seq<u32>, a: int, b: int)
    requires
        0 <= a <= b,
    ensures
        sectors_before(sizes, a) <= sectors_before(sizes, b),
    decreases b - a,
{
    if a < b {
        lemma_sectors_before_monotone(sizes, a, b - 1);
    }
}

/// `b` with `e` written over it from `offset` on.
pub open spec fn splice(b: Seq<u8>, offset: int, e: Seq<u8>) -> Seq<u8> {
    b.take(offset) + e + b.skip(offset + e.len())
}

/// `x` rounded up to a whole number of sectors.
pub open spec fn round_to_sector(x: int) -> int {
    (x + 2047) / 2048 * 2048
}

/// Sizes of the entries of a tree, in its pre-order.
pub open spec fn table_sizes(table: AvlTree<DirectoryEntryData>) -> Seq<u32> {
    Seq::new(
        table.spec_preorder().len(),
        |k: int| table@[table.spec_preorder()[k] as int].node.data.size,
    )
}



/// Replaces the contents of `v` with `n` copies of `byte`.
fn fill_bytes(v: &mut Vec<u8>, n: usize, byte: u8)
    ensures
        final(v)@ == Seq::new(n as nat, |j: int| byte),
{
    v.clear();
    let mut i: usize = 0;
    while i < n
        invariant
            i <= n,
            v@ == Seq::new(i as nat, |j: int| byte),
        decreases n - i,
    {
        v.push(byte);
        assert(v@ =~= Seq::new((i + 1) as nat, |j: int| byte));
        i = i + 1;
    }
}

/// An entry of a name of `n` bytes takes at least its node and name, and at
/// most 272 bytes.
proof fn lemma_len_on_disk_bounds(n: int)
    requires
        0 <= n <= 255,
    ensures
        14 + n <= spec_len_on_disk(n) <= 272,
{
    assert(14 + n <= (14 + n + 3) / 4 * 4 <= 272) by (nonlinear_arith)
        requires
            0 <= n <= 255,
    ;
}

/// An entry placed at `offset_at(lens, k)` with `lens[k]` the size on disk of
/// a name of `n` bytes ends within the table.
proof fn lemma_offset_plus_len(lens: Seq<u32>, k: int, offset: int, n: int)
    requires
        0 <= k < lens.len(),
        offset == offset_at(lens, k),
        0 <= n <= 255,
        lens[k] == spec_len_on_disk(n) as u32,
    ensures
        offset + 14 + n <= state_after(lens),
{
    lemma_entry_within_table(lens, k);
    lemma_len_on_disk_bounds(n);
}

/// Stores `vals[k]` at position `pre[k]` of `out`, for a permutation `pre`.
fn scatter(pre: &Vec<usize>, vals: &Vec<u32>, out: &mut Vec<u32>)
    requires
        pre@.len() == vals@.len(),
        pre@.no_duplicates(),
        forall|j: usize| #[trigger] pre@.contains(j) <==> j < pre@.len(),
    ensures
        final(out)@.len() == pre@.len(),
        forall|k: int| 0 <= k < pre@.len() ==> final(out)@[#[trigger] pre@[k] as int] == vals@[k],
{
    let n = pre.len();
    out.clear();
    let mut i: usize = 0;
    while i < n
        invariant
            i <= n,
            out@.len() == i,
        decreases n - i,
    {
        out.push(0);
        i = i + 1;
    }
    let mut k: usize = 0;
    while k < n
        invariant
            k <= n,
            n == pre@.len(),
            pre@.len() == vals@.len(),
            pre@.no_duplicates(),
            forall|j: usize| #[trigger] pre@.contains(j) <==> j < pre@.len(),
            out@.len() == n,
            forall|m: int| 0 <= m < k ==> out@[#[trigger] pre@[m] as int] == vals@[m],
        decreases n - k,
    {
        let idx = pre[k];
        assert(pre@.contains(idx));
        let ghost before = out@;
        out.set(idx, vals[k]);
        assert forall|m: int| 0 <= m < k + 1 implies out@[#[trigger] pre@[m] as int] == vals@[m] by {
            if m < k {
                assert(pre@[m] != pre@[k as int]);
                assert(pre@.contains(pre@[m]));
                assert(before[pre@[m] as int] == vals@[m]);
            }
        }
        k = k + 1;
    }
}

/// Allocates a run of sectors for each size, in order, and returns the first
/// sector of each run.
fn allocate_runs(allocator: &mut SectorAllocator, sizes: &Vec<u32>) -> (r: Vec<u32>)
    requires
        old(allocator)@ + sectors_before(sizes@, sizes@.len() as int) <= u32::MAX,
    ensures
        r@.len() == sizes@.len(),
        forall|k: int| 0 <= k < sizes@.len() ==> #[trigger] r@[k] == old(allocator)@ + sectors_before(sizes@, k),
        final(allocator)@ == old(allocator)@ + sectors_before(sizes@, sizes@.len() as int),
{
    let ghost start = allocator@;
    let n = sizes.len();
    let mut out: Vec<u32> = Vec::new();
    let mut k: usize = 0;
    while k < n
        invariant
            k <= n,
            n == sizes@.len(),
            out@.len() == k,
            allocator@ == start + sectors_before(sizes@, k as int),
            start + sectors_before(sizes@, n as int) <= u32::MAX,
            forall|m: int| 0 <= m < k ==> #[trigger] out@[m] == start + sectors_before(sizes@, m),
        decreases n - k,
    {
        proof {
            lemma_sectors_before_monotone(sizes@, k + 1, n as int);
        }
        let sector = allocator.allocate_contiguous(sizes[k] as u64);
        out.push(sector);
        k = k + 1;
    }
    out
}

// ---------------------------------------------------------------------------
// Writer
// ---------------------------------------------------------------------------

/// An entry of a directory table, as listed for the image writer.
#[derive(Debug, PartialEq, Eq)]
pub struct FileListingEntry<'alloc> {
    pub name: &'alloc str,
    pub sector: u64,
    pub size: u64,
    pub is_dir: bool,
    pub idx: usize,
}

/// Working memory of `disk_repr`, reusable across tables.
pub struct DirtabWriterBuffers {
    pub dirtab_bytes: Vec<u8>,
    pub avl_idx_to_dirtab_offset: Vec<u32>,
    pub avl_idx_to_sector: Vec<u32>,
}

impl DirtabWriterBuffers {
    pub fn new() -> (r: Self)
        ensures
            r.dirtab_bytes@ == Seq::<u8>::empty(),
    {
        DirtabWriterBuffers {
            dirtab_bytes: Vec::new(),
            avl_idx_to_dirtab_offset: Vec::new(),
            avl_idx_to_sector: Vec::new(),
        }
    }
}

impl Default for DirtabWriterBuffers {
    fn default() -> (r: Self)
        ensures
            r.dirtab_bytes@ == Seq::<u8>::empty(),
    {
        Self::new()
    }
}

/// Writer for a finished directory entry table.
pub struct AvlDirectoryEntryTableWriter<'alloc> {
    table: AvlTree<DirectoryEntryData<'alloc>>,
    size: u32,
    sectors: Vec<u32>,
}

impl<'alloc> AvlDirectoryEntryTableWriter<'alloc> {
    /// The bytes of a table and its size depend on its entries and their
    /// tree alone, not on the sectors it has recorded.
    pub proof fn lemma_same_table(a: Self, b: Self, init: Seq<u8>, offsets: Seq<u32>, sectors: Seq<u32>, k: int)
        requires
            a.spec_table() == b.spec_table(),
        ensures
            a.spec_written(init, offsets, sectors, k) == b.spec_written(init, offsets, sectors, k),
            a.wf() && b.wf() ==> a.spec_dirtab_size() == b.spec_dirtab_size(),
        decreases k,
    {
        if k > 0 {
            Self::lemma_same_table(a, b, init, offsets, sectors, k - 1);
        }
    }
}

impl<'alloc> AvlDirectoryEntryTableWriter<'alloc> {
    pub closed spec fn spec_table(&self) -> AvlTree<DirectoryEntryData<'alloc>> {
        self.table
    }

    pub closed spec fn spec_size(&self) -> u32 {
        self.size
    }

    /// Sector of each entry, indexed like the entries; zero until
    /// `disk_repr` assigns them.
    pub closed spec fn sectors(&self) -> Seq<u32> {
        self.sectors@
    }

    /// The entries, in the order of addition.
    pub open spec fn entries(&self) -> Seq<DirectoryEntryData<'alloc>> {
        self.spec_table()@
    }

    /// Sizes on disk of the entries, in the pre-order of the tree.
    pub open spec fn preorder_lens(&self) -> Seq<u32> {
        table_lens(self.spec_table())
    }

    pub open spec fn wf(&self) -> bool {
        &&& self.spec_table().wf()
        &&& entries_wf(self.entries())
        &&& self.spec_size() == state_after(self.preorder_lens())
        &&& self.sectors().len() == self.entries().len()
    }

    /// Size of the table in bytes, as `dirtab_size` reports it.
    pub open spec fn spec_dirtab_size(&self) -> u32 {
        if self.entries().len() == 0 {
            2048
        } else {
            self.spec_size()
        }
    }

    /// The node written for entry `idx`, given the offsets and sectors of
    /// all entries.
    pub open spec fn spec_node_for(&self, idx: int, offsets: Seq<u32>, sectors: Seq<u32>) -> DirectoryEntryDiskNode {
        spec_disk_node(
            self.entries()[idx].node,
            self.spec_table().spec_nodes()[idx].left_node,
            self.spec_table().spec_nodes()[idx].right_node,
            offsets,
            self.entries()[idx].encoded_name@.len() as int,
            sectors[idx],
        )
    }

    /// The table bytes after writing the first `k` entries (in backing
    /// order) over `init`.
    pub open spec fn spec_written(&self, init: Seq<u8>, offsets: Seq<u32>, sectors: Seq<u32>, k: int) -> Seq<u8>
        decreases k,
    {
        if k <= 0 {
            init
        } else {
            splice(
                self.spec_written(init, offsets, sectors, k - 1),
                offsets[k - 1] as int,
                spec_entry_bytes(self.spec_node_for(k - 1, offsets, sectors), self.entries()[k - 1].encoded_name@),
            )
        }
    }

    /// Whether some entry has a child whose offset does not fit in its node.
    pub open spec fn offset_overflows(&self, offsets: Seq<u32>) -> bool {
        exists|idx: int|
            0 <= idx < self.entries().len() && (spec_child_offset(
                (#[trigger] self.spec_table().spec_nodes()[idx]).left_node,
                offsets,
            ) > u16::MAX || spec_child_offset(self.spec_table().spec_nodes()[idx].right_node, offsets)
                > u16::MAX)
    }

    /// Offsets by backing index: entry `k` of the pre-order is at
    /// `offset_at(lens, k)`.
    pub open spec fn offsets_placed(&self, offsets: Seq<u32>) -> bool {
        &&& offsets.len() == self.entries().len()
        &&& forall|k: int|
            0 <= k < self.entries().len() ==> offsets[#[trigger] self.spec_table().spec_preorder()[k] as int]
                == offset_at(self.preorder_lens(), k)
    }

    /// Sectors by backing index: entries get consecutive runs of sectors
    /// from `start`, in pre-order.
    pub open spec fn sectors_placed(&self, sectors: Seq<u32>, start: int) -> bool {
        &&& sectors.len() == self.entries().len()
        &&& forall|k: int|
            0 <= k < self.entries().len() ==> sectors[#[trigger] self.spec_table().spec_preorder()[k] as int]
                == start + sectors_before(table_sizes(self.spec_table()), k)
    }

    fn new(builder: AvlDirectoryEntryTableBuilder<'alloc>) -> (r: Result<Self, FileStructureError>)
        requires
            builder.wf(),
            state_after(builder.preorder_lens()) <= u32::MAX,
        ensures
            r is Ok,
            r matches Ok(w) ==> w.spec_table() == builder.spec_table(),
            r matches Ok(w) ==> w.wf() && w.entries() == builder.entries() && w.sectors() == Seq::new(
                builder.entries().len(),
                |i: int| 0u32,
            ),
    {
        let table = builder.table;
        let pre = table.preorder_indices();
        proof {
            table.lemma_preorder_is_permutation();
        }
        let n = pre.len();
        let ghost lens = table_lens(table);
        let mut acc: u32 = 0;
        let mut k: usize = 0;
        proof {
            lemma_state_empty(lens);
        }
        while k < n
            invariant
                table.wf(),
                entries_wf(table@),
                pre@ == table.spec_preorder(),
                n == pre@.len(),
                lens == table_lens(table),
                lens.len() == n,
                k <= n,
                acc == state_after(lens.take(k as int)),
                state_after(lens) <= u32::MAX,
                forall|j: usize| #[trigger] pre@.contains(j) <==> j < table@.len(),
            decreases n - k,
        {
            let idx = pre[k];
            assert(pre@.contains(idx));
            let disk_len = table.backing_vec()[idx].len_on_disk();
            assert(disk_len == lens[k as int]);
            proof {
                lemma_entry_within_table(lens, k as int);
                lemma_state_step(lens, k as int);
            }
            acc = acc + disk_len + sector_align(acc, disk_len);
            k = k + 1;
        }
        assert(lens.take(n as int) =~= lens);
        let len = table.len();
        let mut sectors: Vec<u32> = Vec::new();
        let mut i: usize = 0;
        while i < len
            invariant
                i <= len,
                sectors@.len() == i,
                forall|m: int| 0 <= m < i ==> #[trigger] sectors@[m] == 0u32,
            decreases len - i,
        {
            sectors.push(0);
            i = i + 1;
        }
        assert(sectors@ =~= Seq::new(len as nat, |i: int| 0u32));
        Ok(AvlDirectoryEntryTableWriter { table, size: acc, sectors })
    }

    /// The number of sectors that the entries of the table take, where it
    /// fits 32 bits.
    pub fn checked_sector_count(&self) -> (r: Option<u32>)
        requires
            self.wf(),
        ensures
            r matches Some(v) ==> v == sectors_before(
                table_sizes(self.spec_table()),
                self.entries().len() as int,
            ),
            r is None <==> sectors_before(table_sizes(self.spec_table()), self.entries().len() as int)
                > u32::MAX,
    {
        let table = &self.table;
        let pre = table.preorder_indices();
        proof {
            table.lemma_preorder_is_permutation();
        }
        let n = pre.len();
        let ghost sizes = table_sizes(*table);
        let mut acc: u64 = 0;
        let mut k: usize = 0;
        while k < n
            invariant
                table.wf(),
                pre@ == table.spec_preorder(),
                n == pre@.len(),
                n == table@.len(),
                sizes == table_sizes(*table),
                sizes == table_sizes(self.spec_table()),
                n == self.entries().len(),
                sizes.len() == n,
                k <= n,
                acc == sectors_before(sizes, k as int),
                acc <= u32::MAX,
                forall|j: usize| #[trigger] pre@.contains(j) <==> j < table@.len(),
            decreases n - k,
        {
            let idx = pre[k];
            assert(pre@.contains(idx));
            let size = table.backing_vec()[idx].node.data.size;
            assert(size == sizes[k as int]);
            acc = acc + required_sectors(size as u64) as u64;
            k = k + 1;
            if acc > 0xffff_ffff {
                proof {
                    lemma_sectors_before_monotone(sizes, k as int, n as int);
                }
                return None;
            }
        }
        Some(acc as u32)
    }

    /// Returns the size of the directory entry table, in bytes. An empty
    /// table is listed with the size of one sector.
    pub fn dirtab_size(&self) -> (r: u32)
        requires
            self.wf(),
        ensures
            r == self.spec_dirtab_size(),
    {
        if self.table.len() == 0 {
            2048
        } else {
            self.size
        }
    }

    /// Sizes on disk of the entries, in pre-order.
    fn preorder_lens_vec(&self, pre: &Vec<usize>) -> (r: Vec<u32>)
        requires
            self.wf(),
            pre@ == self.spec_table().spec_preorder(),
        ensures
            r@ == self.preorder_lens(),
    {
        proof {
            self.table.lemma_preorder_is_permutation();
        }
        let ghost lens = self.preorder_lens();
        let n = pre.len();
        let data = self.table.backing_vec();
        let mut out: Vec<u32> = Vec::new();
        let mut k: usize = 0;
        while k < n
            invariant
                self.wf(),
                pre@ == self.spec_table().spec_preorder(),
                n == pre@.len(),
                data@ == self.entries(),
                lens == self.preorder_lens(),
                k <= n,
                out@ == lens.take(k as int),
                forall|j: usize| #[trigger] pre@.contains(j) <==> j < self.entries().len(),
            decreases n - k,
        {
            let idx = pre[k];
            assert(pre@.contains(idx));
            let l = data[idx].len_on_disk();
            out.push(l);
            assert(out@ =~= lens.take(k + 1));
            k = k + 1;
        }
        assert(out@ =~= lens);
        out
    }

    /// Sizes of the entries, in pre-order.
    fn preorder_sizes_vec(&self, pre: &Vec<usize>) -> (r: Vec<u32>)
        requires
            self.wf(),
            pre@ == self.spec_table().spec_preorder(),
        ensures
            r@ == table_sizes(self.spec_table()),
    {
        proof {
            self.table.lemma_preorder_is_permutation();
        }
        let ghost sizes = table_sizes(self.spec_table());
        let n = pre.len();
        let data = self.table.backing_vec();
        let mut out: Vec<u32> = Vec::new();
        let mut k: usize = 0;
        while k < n
            invariant
                pre@ == self.spec_table().spec_preorder(),
                n == pre@.len(),
                data@ == self.entries(),
                sizes == table_sizes(self.spec_table()),
                k <= n,
                out@ == sizes.take(k as int),
                forall|j: usize| #[trigger] pre@.contains(j) <==> j < self.entries().len(),
            decreases n - k,
        {
            let idx = pre[k];
            assert(pre@.contains(idx));
            out.push(data[idx].node.data.size);
            assert(out@ =~= sizes.take(k + 1));
            k = k + 1;
        }
        assert(out@ =~= sizes);
        out
    }

    /// Computes the offset and allocates the sectors of every entry, in
    /// pre-order, recording them by backing index.
    fn place_entries(&mut self, allocator: &mut SectorAllocator, buffers: &mut DirtabWriterBuffers)
        requires
            old(self).wf(),
            old(allocator)@ + sectors_before(
                table_sizes(old(self).spec_table()),
                old(self).entries().len() as int,
            ) <= u32::MAX,
        ensures
            final(self).wf(),
            final(self).spec_table() == old(self).spec_table(),
            final(self).sectors_placed(final(self).sectors(), old(allocator)@ as int),
            final(allocator)@ == old(allocator)@ + sectors_before(
                table_sizes(old(self).spec_table()),
                old(self).entries().len() as int,
            ),
            final(self).offsets_placed(final(buffers).avl_idx_to_dirtab_offset@),
            final(buffers).avl_idx_to_sector@ == final(self).sectors(),
    {
        let pre = self.table.preorder_indices();
        proof {
            self.table.lemma_preorder_is_permutation();
        }
        let pre_lens = self.preorder_lens_vec(&pre);
        let pre_sizes = self.preorder_sizes_vec(&pre);
        let pre_offsets = compute_offsets(pre_lens.as_slice());
        let runs = allocate_runs(allocator, &pre_sizes);
        scatter(&pre, &pre_offsets, &mut buffers.avl_idx_to_dirtab_offset);
        scatter(&pre, &runs, &mut buffers.avl_idx_to_sector);
        scatter(&pre, &runs, &mut self.sectors);
        proof {
            let a = buffers.avl_idx_to_sector@;
            let b = self.sectors@;
            assert forall|i: int| 0 <= i < a.len() implies a[i] == b[i] by {
                assert(pre@.contains(i as usize));
                let k = choose|k: int| 0 <= k < pre@.len() && pre@[k] == i as usize;
                assert(a[pre@[k] as int] == runs@[k]);
                assert(b[pre@[k] as int] == runs@[k]);
            }
            assert(a =~= b);
        }
    }

    /// An entry placed by `offsets_placed` lies within the table.
    proof fn lemma_entry_fits(&self, idx: usize, offsets: Seq<u32>)
        requires
            self.wf(),
            self.offsets_placed(offsets),
            0 <= idx < self.entries().len(),
        ensures
            offsets[idx as int] + 14 + self.entries()[idx as int].encoded_name@.len() <= self.spec_dirtab_size(),
    {
        let lens = self.preorder_lens();
        let pre = self.spec_table().spec_preorder();
        self.table.lemma_preorder_is_permutation();
        assert(pre.contains(idx));
        let k = choose|k: int| 0 <= k < pre.len() && pre[k] == idx;
        assert(lens.len() == pre.len());
        assert(offsets[pre[k] as int] == offset_at(lens, k));
        let n = self.entries()[idx as int].encoded_name@.len() as int;
        assert(n <= MAX_NAME_LEN);
        assert(lens[k] == spec_len_on_disk(n) as u32);
        let off = offsets[idx as int] as int;
        let total = state_after(lens);
        lemma_offset_plus_len(lens, k, off, n);
        assert(off + 14 + n <= total);
        assert(self.spec_size() == total);
    }

    /// Writes entry `idx` at its offset in `bytes`.
    fn write_one(&self, bytes: &mut Vec<u8>, offsets: &Vec<u32>, idx: usize) -> (r: Result<
        (),
        FileStructureError,
    >)
        requires
            self.wf(),
            self.offsets_placed(offsets@),
            idx < self.entries().len(),
            old(bytes)@.len() == round_to_sector(self.spec_dirtab_size() as int),
        ensures
            r is Err <==> (spec_child_offset(
                self.spec_table().spec_nodes()[idx as int].left_node,
                offsets@,
            ) > u16::MAX || spec_child_offset(
                self.spec_table().spec_nodes()[idx as int].right_node,
                offsets@,
            ) > u16::MAX),
            r is Err ==> r == Err::<(), FileStructureError>(FileStructureError::TooManyDirectoryEntries),
            final(bytes)@.len() == old(bytes)@.len(),
            r is Ok ==> final(bytes)@ == splice(
                old(bytes)@,
                offsets@[idx as int] as int,
                spec_entry_bytes(
                    self.spec_node_for(idx as int, offsets@, self.sectors()),
                    self.entries()[idx as int].encoded_name@,
                ),
            ),
    {
        proof {
            self.table.lemma_links_in_bounds();
            self.lemma_entry_fits(idx, offsets@);
        }
        let node = self.table.node(idx);
        let d = &self.table.backing_vec()[idx];
        let name = d.get_encoded_name();
        let sector = self.sectors[idx];
        let disk_node = dirent_data_to_disk_node(
            d,
            node.left_idx(),
            node.right_idx(),
            offsets.as_slice(),
            name,
            sector,
        )?;
        let offset = offsets[idx] as usize;
        let ghost before = bytes@;
        let res = {
            let slice = bytes.as_mut_slice();
            let (_head, tail) = slice.split_at_mut(offset);
            serialize_dirent_disk_node(tail, disk_node, name)
        };
        assert(res is Ok);
        assert(bytes@ =~= splice(before, offset as int, spec_entry_bytes(disk_node, d.encoded_name@)));
        Ok(())
    }

    /// Writes every entry, in backing order, at its offset in `bytes`.
    fn write_entries(&self, bytes: &mut Vec<u8>, offsets: &Vec<u32>) -> (r: Result<(), FileStructureError>)
        requires
            self.wf(),
            self.offsets_placed(offsets@),
            old(bytes)@.len() == round_to_sector(self.spec_dirtab_size() as int),
        ensures
            r is Err <==> self.offset_overflows(offsets@),
            r is Err ==> r == Err::<(), FileStructureError>(FileStructureError::TooManyDirectoryEntries),
            r is Ok ==> final(bytes)@ == self.spec_written(
                old(bytes)@,
                offsets@,
                self.sectors(),
                self.entries().len() as int,
            ),
    {
        let ghost init = bytes@;
        let n = self.table.len();
        let mut idx: usize = 0;
        while idx < n
            invariant
                self.wf(),
                idx <= n,
                n == self.entries().len(),
                self.offsets_placed(offsets@),
                bytes@.len() == init.len(),
                init.len() == round_to_sector(self.spec_dirtab_size() as int),
                bytes@ == self.spec_written(init, offsets@, self.sectors(), idx as int),
                forall|m: int|
                    0 <= m < idx ==> !(spec_child_offset(
                        (#[trigger] self.spec_table().spec_nodes()[m]).left_node,
                        offsets@,
                    ) > u16::MAX || spec_child_offset(
                        self.spec_table().spec_nodes()[m].right_node,
                        offsets@,
                    ) > u16::MAX),
            decreases n - idx,
        {
            let res = self.write_one(bytes, offsets, idx);
            if res.is_err() {
                assert(self.offset_overflows(offsets@));
                return res;
            }
            idx = idx + 1;
        }
        Ok(())
    }

    /// Serializes the table into `buffers.dirtab_bytes`, padded with 0xff to
    /// whole sectors, and allocates the sectors of all entries, in
    /// pre-order. Working memory lives in `buffers` for reuse.
    pub fn disk_repr(
        &mut self,
        allocator: &mut SectorAllocator,
        buffers: &mut DirtabWriterBuffers,
    ) -> (r: Result<(), FileStructureError>)
        requires
            old(self).wf(),
            old(allocator)@ + sectors_before(
                table_sizes(old(self).spec_table()),
                old(self).entries().len() as int,
            ) <= u32::MAX,
            round_to_sector(old(self).spec_dirtab_size() as int) <= u32::MAX,
        ensures
            final(self).wf(),
            final(self).entries() == old(self).entries(),
            final(self).spec_table() == old(self).spec_table(),
            final(self).sectors_placed(final(self).sectors(), old(allocator)@ as int),
            final(allocator)@ == old(allocator)@ + sectors_before(
                table_sizes(old(self).spec_table()),
                old(self).entries().len() as int,
            ),
            final(self).offsets_placed(final(buffers).avl_idx_to_dirtab_offset@),
            final(buffers).avl_idx_to_sector@ == final(self).sectors(),
            r is Err <==> final(self).offset_overflows(final(buffers).avl_idx_to_dirtab_offset@),
            r is Err ==> r == Err::<(), FileStructureError>(FileStructureError::TooManyDirectoryEntries),
            r is Ok ==> final(buffers).dirtab_bytes@ == final(self).spec_written(
                Seq::new(
                    round_to_sector(final(self).spec_dirtab_size() as int) as nat,
                    |i: int| 0xffu8,
                ),
                final(buffers).avl_idx_to_dirtab_offset@,
                final(self).sectors(),
                final(self).entries().len() as int,
            ),
    {
        self.place_entries(allocator, buffers);
        let size = self.dirtab_size();
        let rounded = ((size + 2047) / 2048 * 2048) as usize;
        fill_bytes(&mut buffers.dirtab_bytes, rounded, 0xff);
        self.write_entries(&mut buffers.dirtab_bytes, &buffers.avl_idx_to_dirtab_offset)
    }

    /// The listing of the entry at backing index `i`.
    pub open spec fn spec_listing(&self, i: int) -> FileListingEntry<'alloc> {
        FileListingEntry {
            name: self.entries()[i].name,
            sector: self.sectors()[i] as u64,
            size: self.entries()[i].node.data.size as u64,
            is_dir: self.entries()[i].node.attributes.spec_is_directory(),
            idx: self.entries()[i].idx,
        }
    }

    /// The entries of the table, in the order of addition. Sectors are zero
    /// until they are assigned by `disk_repr`.
    pub fn iter(&self) -> (r: Vec<FileListingEntry<'alloc>>)
        requires
            self.wf(),
        ensures
            r@.len() == self.entries().len(),
            forall|i: int| 0 <= i < r@.len() ==> #[trigger] r@[i] == self.spec_listing(i),
    {
        let data = self.table.backing_vec();
        let n = data.len();
        let mut out: Vec<FileListingEntry<'alloc>> = Vec::new();
        let mut i: usize = 0;
        while i < n
            invariant
                self.wf(),
                data@ == self.entries(),
                n == data@.len(),
                i <= n,
                out@.len() == i,
                forall|m: int| 0 <= m < i ==> #[trigger] out@[m] == self.spec_listing(m),
            decreases n - i,
        {
            let d = &data[i];
            out.push(
                FileListingEntry {
                    name: d.get_name(),
                    sector: self.sectors[i] as u64,
                    size: d.node.data.size as u64,
                    is_dir: d.node.attributes.is_directory(),
                    idx: d.idx,
                },
            );
            i = i + 1;
        }
        out
    }
}

} // verus!
