//! Image creation: the directory entry tables of a directory tree, the
//! placement of tables and files on disk, and the writing of an image.
use vstd::prelude::*;

use crate::blockdev::{grown_len, written, BlockDeviceWrite};
use crate::dirtab::{
    FileListingEntry, state_after, round_to_sector, sectors_before, table_sizes, DirtabWriterBuffers,
    dir_attributes, file_attributes, spec_dir_size, AvlDirectoryEntryTableBuilder,
    AvlDirectoryEntryTableWriter,
};
use crate::error::{FileStructureError, WriteError};
use crate::fs::hierarchy::{dir_tree, links_to, listed_entries, parents_unique, tree_dirs, tree_indexed};
use crate::fs::{copied_file, CopyCall, DirModel, DirectoryTreeEntry, FileEntry, FileModel, FileType, FilesystemCopier, FilesystemHierarchy};
use crate::layout::{
    name_lt, spec_encode_result, DirectoryEntryData, DirectoryEntryTable, DiskRegion, NameEncodingError,
    VolumeDescriptor,
};
use crate::progress_info::ProgressVisitor;
use crate::sector::{spec_required_sectors, SectorAllocator};
use crate::path::pathref::PathRef;

verus! {

/// Most entries a directory may have for its table to be sure to fit.
pub const MAX_LISTED_ENTRIES: usize = 1_850_000;

/// The directory entry tables of a directory tree, from the last directory
/// to the root, each with the path of its directory; and the number of
/// entries over all directories.
pub struct DirentTableVec<'a> {
    pub dirent_tables: Vec<(PathRef<'a>, AvlDirectoryEntryTableWriter<'a>)>,
    pub count: usize,
}

/// Number of listing items of the directories from position `k` on.
pub open spec fn entries_from(tree: Seq<DirectoryTreeEntry>, k: int) -> int
    decreases tree.len() - k,
{
    if k < 0 || k >= tree.len() {
        0
    } else {
        tree[k].listing@.len() + entries_from(tree, k + 1)
    }
}

proof fn lemma_entries_from_monotone(tree: Seq<DirectoryTreeEntry>, k: int)
    requires
        0 <= k <= tree.len(),
    ensures
        entries_from(tree, k) <= entries_from(tree, 0),
    decreases k,
{
    if k > 0 {
        lemma_entries_from_monotone(tree, k - 1);
    }
}

/// The size recorded for the directory at position `idx` in the table of
/// the directory at position `k`, in a tree of `n` directories whose tables
/// are listed last directory first: tables are built from the last
/// directory to the first, so only later directories have a size by then.
pub open spec fn recorded_dir_size(
    tables: Seq<(PathRef, AvlDirectoryEntryTableWriter)>,
    n: int,
    k: int,
    idx: int,
) -> u32 {
    if k < idx < n {
        tables[n - 1 - idx].1.spec_dirtab_size()
    } else {
        0
    }
}

/// `d` is the table entry for the listing item `item`, with `dir_size` the
/// size recorded for it where it is a directory.
pub open spec fn entry_matches(d: DirectoryEntryData, item: (FileEntry, usize), dir_size: u32) -> bool {
    &&& spec_encode_result(item.0.name@) == Ok::<Seq<u8>, NameEncodingError>(d.encoded_name@)
    &&& d.name@ == item.0.name@
    &&& d.node.filename_length == d.encoded_name@.len()
    &&& match item.0.file_type {
        FileType::Directory => {
            &&& d.node.data == (DiskRegion { sector: 0, size: spec_dir_size(dir_size) as u32 })
            &&& d.node.attributes == dir_attributes()
            &&& d.idx == item.1
        },
        FileType::File => {
            &&& d.node.data == (DiskRegion { sector: 0, size: item.0.len as u32 })
            &&& d.node.attributes == file_attributes()
            &&& d.idx == 0
        },
    }
}

/// The table listed for the directory at position `k` of a tree of `n`
/// directories holds an entry for each item of `listing`, in order, with no
/// sectors assigned yet.
pub open spec fn table_lists(
    tables: Seq<(PathRef, AvlDirectoryEntryTableWriter)>,
    n: int,
    k: int,
    listing: Seq<(FileEntry, usize)>,
) -> bool {
    let w = tables[n - 1 - k].1;
    &&& w.wf()
    &&& w.entries().len() == listing.len()
    &&& forall|j: int|
        #![trigger w.entries()[j]]
        0 <= j < listing.len() ==> entry_matches(
            w.entries()[j],
            listing[j],
            recorded_dir_size(tables, n, k, listing[j].1 as int),
        )
    &&& w.sectors() == Seq::new(listing.len(), |i: int| 0u32)
}

/// The encoded names of two items are equal but for case.
pub open spec fn same_name(a: (FileEntry, usize), b: (FileEntry, usize)) -> bool {
    &&& spec_encode_result(a.0.name@) is Ok
    &&& spec_encode_result(b.0.name@) is Ok
    &&& !name_lt(spec_encode_result(a.0.name@)->Ok_0, spec_encode_result(b.0.name@)->Ok_0)
    &&& !name_lt(spec_encode_result(b.0.name@)->Ok_0, spec_encode_result(a.0.name@)->Ok_0)
}

/// The item `j` of `listing` cannot be added to a table, for the reason `e`.
pub open spec fn error_at(listing: Seq<(FileEntry, usize)>, j: int, e: FileStructureError) -> bool {
    match e {
        FileStructureError::FileNameError(x) => spec_encode_result(listing[j].0.name@) == Err::<
            Seq<u8>,
            NameEncodingError,
        >(x),
        FileStructureError::DuplicateFileName => exists|i: int|
            0 <= i < j && #[trigger] same_name(listing[i], listing[j]),
        FileStructureError::FileTooLarge => listing[j].0.file_type == FileType::File && listing[j].0.len
            > u32::MAX,
        _ => false,
    }
}

/// Every item of `listing` can be added to a table.
pub open spec fn listing_ok(listing: Seq<(FileEntry, usize)>) -> bool {
    &&& forall|j: int| 0 <= j < listing.len() ==> #[trigger] spec_encode_result(listing[j].0.name@) is Ok
    &&& forall|j: int|
        0 <= j < listing.len() && (#[trigger] listing[j]).0.file_type == FileType::File
            ==> listing[j].0.len <= u32::MAX
    &&& forall|i: int, j: int|
        0 <= i < j < listing.len() ==> !same_name(#[trigger] listing[i], #[trigger] listing[j])
}

/// Every directory listed in the tree names a position inside it.
pub open spec fn dir_indices_in_range(tree: Seq<DirectoryTreeEntry>) -> bool {
    forall|k: int, j: int|
        0 <= k < tree.len() && 0 <= j < tree[k].listing@.len() && (#[trigger] tree[k].listing@[j]).0.file_type
            == FileType::Directory ==> tree[k].listing@[j].1 < tree.len()
}

/// Builds the directory entry table of every directory of `dirtree`, from
/// the last directory to the root, so that the size of each directory's
/// table is known when its parent lists it. Fails on a name that cannot be
/// encoded, a name listed twice in a directory, a file larger than 32 bits
/// can express, or a table too large to be addressed.
pub fn create_dirent_tables<'a>(dirtree: &'a [DirectoryTreeEntry]) -> (r: Result<
    DirentTableVec<'a>,
    FileStructureError,
>)
    requires
        dir_indices_in_range(dirtree@),
        entries_from(dirtree@, 0) <= usize::MAX,
    ensures
        match r {
            Ok(v) => {
                &&& v.dirent_tables@.len() == dirtree@.len()
                &&& v.count == entries_from(dirtree@, 0)
                &&& forall|m: int|
                    0 <= m < dirtree@.len() ==> #[trigger] v.dirent_tables@[m].1.spec_dirtab_size() <= u32::MAX
                        - 2047
                &&& forall|k: int|
                    0 <= k < dirtree@.len() ==> #[trigger] v.dirent_tables@[dirtree@.len() - 1 - k].0
                        == PathRef::PathVec(&dirtree@[k].dir)
                &&& forall|k: int|
                    0 <= k < dirtree@.len() ==> table_lists(
                        v.dirent_tables@,
                        dirtree@.len() as int,
                        k,
                        #[trigger] dirtree@[k].listing@,
                    )
            },
            Err(e) => {
                ||| exists|k: int, j: int|
                    0 <= k < dirtree@.len() && 0 <= j < dirtree@[k].listing@.len() && #[trigger] error_at(
                        dirtree@[k].listing@,
                        j,
                        e,
                    )
                ||| e == FileStructureError::TooManyDirectoryEntries && exists|k: int|
                    0 <= k < dirtree@.len() && (#[trigger] dirtree@[k]).listing@.len() > MAX_LISTED_ENTRIES
            },
        },
        (forall|k: int|
            0 <= k < dirtree@.len() ==> listing_ok(#[trigger] dirtree@[k].listing@)
                && dirtree@[k].listing@.len() <= MAX_LISTED_ENTRIES) ==> r is Ok,
{
    let n = dirtree.len();
    let ghost tree = dirtree@;
    let mut dirent_tables: Vec<(PathRef<'a>, AvlDirectoryEntryTableWriter<'a>)> = Vec::new();
    let mut dtab_size_map: Vec<u32> = Vec::new();
    let mut z: usize = 0;
    while z < n
        invariant
            z <= n,
            dtab_size_map@.len() == z,
            forall|i: int| 0 <= i < z ==> dtab_size_map@[i] == 0u32,
        decreases n - z,
    {
        dtab_size_map.push(0);
        z = z + 1;
    }
    let mut count: usize = 0;
    let mut dir_idx: usize = n;
    proof {
        lemma_entries_from_monotone(tree, n as int);
    }
    while dir_idx > 0
        invariant
            tree == dirtree@,
            n == tree.len(),
            dir_indices_in_range(tree),
            entries_from(tree, 0) <= usize::MAX,
            dir_idx <= n,
            dirent_tables@.len() == n - dir_idx,
            dtab_size_map@.len() == n,
            count == entries_from(tree, dir_idx as int),
            forall|i: int| 0 <= i < dir_idx ==> #[trigger] dtab_size_map@[i] == 0u32,
            forall|i: int|
                dir_idx <= i < n ==> #[trigger] dtab_size_map@[i] == dirent_tables@[n - 1 - i].1.spec_dirtab_size()
                    && dtab_size_map@[i] <= u32::MAX - 2047,
            forall|k: int| dir_idx <= k < n ==> #[trigger] dirent_tables@[n - 1 - k].0 == PathRef::PathVec(&tree[k].dir),
            forall|k: int| dir_idx <= k < n ==> table_lists(dirent_tables@, n as int, k, #[trigger] tree[k].listing@),
            forall|k: int|
                dir_idx <= k < n ==> listing_ok(#[trigger] tree[k].listing@),
        decreases dir_idx,
    {
        dir_idx = dir_idx - 1;
        let entry = &dirtree[dir_idx];
        let path = &entry.dir;
        let dir_entries = &entry.listing;
        let ghost listing = dir_entries@;
        let mut dirtab = AvlDirectoryEntryTableBuilder::default();
        dirtab.reserve(dir_entries.len());
        let mut j: usize = 0;
        while j < dir_entries.len()
            invariant
                tree == dirtree@,
                n == tree.len(),
                dir_idx < n,
                listing == tree[dir_idx as int].listing@,
                *dir_entries == tree[dir_idx as int].listing,
                dir_indices_in_range(tree),
                entries_from(tree, 0) <= usize::MAX,
                count == entries_from(tree, dir_idx + 1) + j,
                j <= listing.len(),
                dirtab.wf(),
                dirtab.entries().len() == j,
                dtab_size_map@.len() == n,
                dirent_tables@.len() == n - 1 - dir_idx,
                forall|i: int| 0 <= i <= dir_idx ==> #[trigger] dtab_size_map@[i] == 0u32,
                forall|i: int|
                    dir_idx < i < n ==> #[trigger] dtab_size_map@[i] == dirent_tables@[n - 1 - i].1.spec_dirtab_size()
                        && dtab_size_map@[i] <= u32::MAX - 2047,
                forall|i: int|
                    #![trigger dirtab.entries()[i]]
                    0 <= i < j ==> entry_matches(
                        dirtab.entries()[i],
                        listing[i],
                        dtab_size_map@[listing[i].1 as int],
                    ),
                forall|i: int| 0 <= i < j ==> #[trigger] spec_encode_result(listing[i].0.name@) is Ok,
                forall|i: int|
                    0 <= i < j && (#[trigger] listing[i]).0.file_type == FileType::File ==> listing[i].0.len
                        <= u32::MAX,
                forall|a: int, b: int| 0 <= a < b < j ==> !same_name(#[trigger] listing[a], #[trigger] listing[b]),
            decreases listing.len() - j,
        {
            let (item, dir_index) = &dir_entries[j];
            let ghost it = listing[j as int];
            assert(it == (*item, *dir_index));
            let file_name = item.name.as_str();
            proof {
                lemma_entries_from_monotone(tree, dir_idx as int);
                assert(entries_from(tree, dir_idx as int) == listing.len() + entries_from(tree, dir_idx + 1));
            }
            count = count + 1;
            let ghost before = dirtab.entries();
            let res = match item.file_type {
                FileType::Directory => {
                    assert(tree[dir_idx as int].listing@[j as int] == it);
                    let dir_size = dtab_size_map[*dir_index];
                    dirtab.add_dir(file_name, dir_size, *dir_index)
                },
                FileType::File => {
                    if item.len > 0xffff_ffff {
                        proof {
                            assert(error_at(listing, j as int, FileStructureError::FileTooLarge));
                        }
                        return Err(FileStructureError::FileTooLarge);
                    }
                    dirtab.add_file(file_name, item.len as u32)
                },
            };
            match res {
                Ok(()) => {},
                Err(e) => {
                    proof {
                        let encoded = spec_encode_result(it.0.name@);
                        if encoded is Ok {
                            let w = choose|w: int|
                                0 <= w < before.len() && !name_lt(
                                    encoded->Ok_0,
                                    #[trigger] before[w].encoded_name@,
                                ) && !name_lt(before[w].encoded_name@, encoded->Ok_0);
                            assert(entry_matches(before[w], listing[w], dtab_size_map@[listing[w].1 as int]));
                            assert(same_name(listing[w], listing[j as int]));
                        }
                        assert(error_at(listing, j as int, e));
                    }
                    return Err(e);
                },
            }
            proof {
                let d = dirtab.entries()[j as int];
                assert(dirtab.entries().take(j as int) == before);
                assert forall|i: int|
                    #![trigger dirtab.entries()[i]]
                    0 <= i < j + 1 implies entry_matches(
                    dirtab.entries()[i],
                    listing[i],
                    dtab_size_map@[listing[i].1 as int],
                ) by {
                    if i < j {
                        assert(dirtab.entries()[i] == dirtab.entries().take(j as int)[i]);
                    }
                }
                assert forall|a: int, b: int| 0 <= a < b < j + 1 implies !same_name(
                    #[trigger] listing[a],
                    #[trigger] listing[b],
                ) by {
                    if b == j && same_name(listing[a], listing[b]) {
                        assert(entry_matches(before[a], listing[a], dtab_size_map@[listing[a].1 as int]));
                        assert(!name_lt(spec_encode_result(it.0.name@)->Ok_0, before[a].encoded_name@));
                        assert(crate::dirtab::has_name(before, spec_encode_result(it.0.name@)->Ok_0));
                    }
                }
            }
            j = j + 1;
        }
        proof {
            assert(listing_ok(listing));
        }
        let size = match dirtab.checked_table_size() {
            Some(s) => s,
            None => {
                proof {
                    dirtab.lemma_size_bound();
                    assert(dirtab.entries().len() == listing.len());
                    assert(tree[dir_idx as int].listing@.len() > MAX_LISTED_ENTRIES);
                }
                return Err(FileStructureError::TooManyDirectoryEntries);
            },
        };
        if size > 0xffff_ffff - 2047 {
            proof {
                dirtab.lemma_size_bound();
                let st = state_after(dirtab.preorder_lens());
                assert(st <= u32::MAX);
                assert(size as int == st);
                assert(dirtab.entries().len() == listing.len());
                assert(listing.len() * 2319 >= st);
                assert(tree[dir_idx as int].listing@.len() > MAX_LISTED_ENTRIES);
            }
            return Err(FileStructureError::TooManyDirectoryEntries);
        }
        let ghost built_entries = dirtab.entries();
        let ghost built_lens = dirtab.preorder_lens();
        let dtw = match dirtab.build() {
            Ok(w) => w,
            Err(e) => return Err(e),
        };
        let tab_size = dtw.dirtab_size();
        assert(dtw.preorder_lens() == built_lens);
        assert(tab_size <= u32::MAX - 2047);
        let ghost prev_tables = dirent_tables@;
        let ghost map_before = dtab_size_map@;
        dtab_size_map.set(dir_idx, tab_size);
        dirent_tables.push((PathRef::PathVec(path), dtw));
        proof {
            let tabs = dirent_tables@;
            assert forall|i: int| 0 <= i < n - 1 - dir_idx implies tabs[i] == prev_tables[i] by {}
            assert forall|k: int| dir_idx <= k < n implies table_lists(
                tabs,
                n as int,
                k,
                #[trigger] tree[k].listing@,
            ) by {
                let lk = tree[k].listing@;
                if k == dir_idx {
                    let w = tabs[n - 1 - k].1;
                    assert forall|i: int| #![trigger w.entries()[i]] 0 <= i < lk.len() implies entry_matches(
                        w.entries()[i],
                        lk[i],
                        recorded_dir_size(tabs, n as int, k, lk[i].1 as int),
                    ) by {
                        assert(w.entries() == built_entries);
                        assert(entry_matches(built_entries[i], listing[i], map_before[listing[i].1 as int]));
                        if lk[i].0.file_type == FileType::Directory {
                            let idx = lk[i].1 as int;
                            assert(idx < n);
                            if idx > dir_idx {
                                assert(tabs[n - 1 - idx] == prev_tables[n - 1 - idx]);
                            }
                        }
                    }
                } else {
                    let w = tabs[n - 1 - k].1;
                    assert(tabs[n - 1 - k] == prev_tables[n - 1 - k]);
                    assert(table_lists(prev_tables, n as int, k, lk));
                    assert forall|i: int| #![trigger w.entries()[i]] 0 <= i < lk.len() implies entry_matches(
                        w.entries()[i],
                        lk[i],
                        recorded_dir_size(tabs, n as int, k, lk[i].1 as int),
                    ) by {
                        assert(recorded_dir_size(tabs, n as int, k, lk[i].1 as int) == recorded_dir_size(
                            prev_tables,
                            n as int,
                            k,
                            lk[i].1 as int,
                        ));
                    }
                }
            }
        }
    }
    proof {
        assert(entries_from(tree, 0) == count);
        assert forall|m: int| 0 <= m < n implies #[trigger] dirent_tables@[m].1.spec_dirtab_size() <= u32::MAX
            - 2047 by {
            assert(dtab_size_map@[n - 1 - m] == dirent_tables@[m].1.spec_dirtab_size());
        }
    }
    Ok(DirentTableVec { dirent_tables, count })
}

/// Errors of image creation on the device `BDW` from the filesystem `FS`.
pub type GenericWriteError<BDW, FS> = WriteError<
    <BDW as BlockDeviceWrite>::WriteError,
    <FS as FilesystemHierarchy>::Error,
    <FS as FilesystemCopier<BDW>>::Error,
>;

/// A finished table that can be placed: its size rounds to whole sectors in
/// 32 bits, and each of its entries names a directory of the tree.
pub open spec fn table_ready(w: AvlDirectoryEntryTableWriter, n: int) -> bool {
    &&& w.wf()
    &&& w.spec_dirtab_size() <= u32::MAX - 2047
    &&& forall|j: int| 0 <= j < w.entries().len() ==> (#[trigger] w.entries()[j]).idx < n
}

/// The number of listing items of all directories of the tree, where it
/// fits a `usize`.
pub fn total_entries(tree: &[DirectoryTreeEntry]) -> (r: Option<usize>)
    ensures
        r matches Some(c) ==> c == entries_from(tree@, 0),
        r is None <==> entries_from(tree@, 0) > usize::MAX,
{
    let mut total: usize = 0;
    let mut k: usize = tree.len();
    while k > 0
        invariant
            k <= tree@.len(),
            total == entries_from(tree@, k as int),
        decreases k,
    {
        k = k - 1;
        let add = tree[k].listing.len();
        if total > usize::MAX - add {
            proof {
                lemma_entries_from_monotone(tree@, k as int);
            }
            return None;
        }
        total = total + add;
    }
    Some(total)
}

/// Entry `q` of the table of the directory at position `k`, in tables of a
/// tree of `n` directories listed last directory first.
pub open spec fn table_entry<'a>(
    tabs: Seq<(PathRef<'a>, AvlDirectoryEntryTableWriter<'a>)>,
    n: int,
    k: int,
    q: int,
) -> DirectoryEntryData<'a> {
    tabs[n - 1 - k].1.entries()[q]
}

/// Entry `q` of the table of the directory at position `k` names a
/// directory.
pub open spec fn names_dir<'a>(
    tabs: Seq<(PathRef<'a>, AvlDirectoryEntryTableWriter<'a>)>,
    n: int,
    k: int,
    q: int,
) -> bool {
    0 <= k < n && 0 <= q < tabs[n - 1 - k].1.entries().len() && table_entry(
        tabs,
        n,
        k,
        q,
    ).node.attributes.spec_is_directory()
}

/// The directory entries of the tables name later directories of the tree,
/// and no directory is named twice.
pub open spec fn tables_linked<'a>(tabs: Seq<(PathRef<'a>, AvlDirectoryEntryTableWriter<'a>)>, n: int) -> bool {
    &&& forall|k: int, q: int|
        #[trigger] names_dir(tabs, n, k, q) ==> k < table_entry(tabs, n, k, q).idx < n
    &&& forall|k1: int, q1: int, k2: int, q2: int|
        #![trigger names_dir(tabs, n, k1, q1), names_dir(tabs, n, k2, q2)]
        names_dir(tabs, n, k1, q1) && names_dir(tabs, n, k2, q2) && table_entry(tabs, n, k1, q1).idx
            == table_entry(tabs, n, k2, q2).idx ==> k1 == k2 && q1 == q2
}

/// The tables built for a tree whose directories are each listed by one
/// parent, earlier in the tree, are linked so.
proof fn lemma_tables_linked<'a>(
    tree: Seq<DirectoryTreeEntry>,
    tabs: Seq<(PathRef<'a>, AvlDirectoryEntryTableWriter<'a>)>,
)
    requires
        tree_indexed(tree),
        parents_unique(tree),
        tabs.len() == tree.len(),
        forall|k: int| 0 <= k < tree.len() ==> table_lists(tabs, tree.len() as int, k, #[trigger] tree[k].listing@),
    ensures
        tables_linked(tabs, tree.len() as int),
{
    let n = tree.len() as int;
    assert((0u8 | 0x10u8) & 0x10u8 != 0u8) by (bit_vector);
    assert((0u8 | 0x20u8) & 0x10u8 == 0u8) by (bit_vector);
    assert(dir_attributes().spec_is_directory());
    assert(!file_attributes().spec_is_directory());
    assert forall|k: int, q: int| #[trigger] names_dir(tabs, n, k, q) implies {
        &&& tree[k].listing@[q].0.file_type == FileType::Directory
        &&& table_entry(tabs, n, k, q).idx == tree[k].listing@[q].1
        &&& k < table_entry(tabs, n, k, q).idx < n
    } by {
        assert(table_lists(tabs, n, k, tree[k].listing@));
        let item = tree[k].listing@[q];
        assert(entry_matches(tabs[n - 1 - k].1.entries()[q], item, recorded_dir_size(tabs, n, k, item.1 as int)));
        assert(links_to(tree_dirs(tree), k, tree[k].listing@[q]));
    }
    assert forall|k1: int, q1: int, k2: int, q2: int|
        names_dir(tabs, n, k1, q1) && names_dir(tabs, n, k2, q2) && table_entry(tabs, n, k1, q1).idx == table_entry(
            tabs,
            n,
            k2,
            q2,
        ).idx implies k1 == k2 && q1 == q2 by {
        assert(tree[k1].listing@[q1].1 == tree[k2].listing@[q2].1);
    }
}

/// The bytes of the table `w` with its entries at `offsets` and their data
/// at `sectors`: a whole number of sectors filled with 0xff, each entry
/// written at its offset.
pub open spec fn table_bytes<'a>(w: AvlDirectoryEntryTableWriter<'a>, offsets: Seq<u32>, sectors: Seq<u32>) -> Seq<u8> {
    w.spec_written(
        Seq::new(round_to_sector(w.spec_dirtab_size() as int) as nat, |i: int| 0xffu8),
        offsets,
        sectors,
        w.entries().len() as int,
    )
}

/// `bytes` are those of the table `w` with its entries' data at
/// `sectors`, its entries at the offsets the table places them at.
pub open spec fn holds_table<'a>(w: AvlDirectoryEntryTableWriter<'a>, bytes: Seq<u8>, sectors: Seq<u32>) -> bool {
    exists|offsets: Seq<u32>| #[trigger] w.offsets_placed(offsets) && bytes == table_bytes(w, offsets, sectors)
}

/// The sectors of listed entries, in order.
pub open spec fn entry_sectors<'a>(es: Seq<FileListingEntry<'a>>) -> Seq<u32> {
    Seq::new(es.len(), |q: int| es[q].sector as u32)
}

/// The table of one directory, placed: the directory's path, the sector its
/// table starts at, the bytes of the table, and its entries with the
/// sectors they were given.
pub struct PlacedTable<'a> {
    pub path: PathRef<'a>,
    pub sector: u64,
    pub bytes: Vec<u8>,
    pub entries: Vec<FileListingEntry<'a>>,
}

/// The tables of a tree placed on disk, root first; where a table cannot be
/// placed, the placement stops before it, and `failure` holds its path, the
/// sector it was to start at, and why.
pub struct TableLayout<'a> {
    pub placed: Vec<PlacedTable<'a>>,
    pub failure: Option<(PathRef<'a>, u64, FileStructureError)>,
}

/// The sectors that the entries of the table `w` take.
pub open spec fn entry_sectors_needed(w: AvlDirectoryEntryTableWriter) -> int {
    sectors_before(table_sizes(w.spec_table()), w.entries().len() as int)
}

/// The first free sector when the entries of the `k`-th table to be placed
/// (the root's first; `tabs` lists the root last) are given sectors: after
/// the volume descriptor, the root's table, and the entries of each table
/// placed before.
pub open spec fn free_sector_at<'a>(tabs: Seq<(PathRef<'a>, AvlDirectoryEntryTableWriter<'a>)>, k: int) -> int
    decreases k,
{
    if k <= 0 {
        33 + spec_required_sectors(tabs[tabs.len() - 1].1.spec_dirtab_size() as int)
    } else {
        free_sector_at(tabs, k - 1) + entry_sectors_needed(tabs[tabs.len() - k].1)
    }
}

/// Placing the `k`-th table fails with `e`: its entries reach past the
/// last 32-bit sector, or, where they fit, an entry lies too far from its
/// children in the table for the 16-bit offsets.
pub open spec fn placement_fails<'a>(
    tabs: Seq<(PathRef<'a>, AvlDirectoryEntryTableWriter<'a>)>,
    k: int,
    e: FileStructureError,
) -> bool {
    let w = tabs[tabs.len() - 1 - k].1;
    let end = free_sector_at(tabs, k) + entry_sectors_needed(w);
    ||| e == FileStructureError::FileTooLarge && end > 0xffff_ffff
    ||| e == FileStructureError::TooManyDirectoryEntries && end <= 0xffff_ffff && exists|offsets: Seq<u32>|
        #[trigger] w.offsets_placed(offsets) && w.offset_overflows(offsets)
}

/// Places the tables of a tree of directories, given last directory first:
/// the root's table from sector 33 on, then, directory by directory, the
/// entries of each table after everything placed before, and each
/// directory's table at the sector that its parent's entry records.
pub fn place_tables<'a>(tables: Vec<(PathRef<'a>, AvlDirectoryEntryTableWriter<'a>)>) -> (r: TableLayout<'a>)
    requires
        tables@.len() >= 1,
        forall|m: int| 0 <= m < tables@.len() ==> table_ready(#[trigger] tables@[m].1, tables@.len() as int),
        tables_linked(tables@, tables@.len() as int),
    ensures
        ({
            let n = tables@.len() as int;
            let placed = r.placed@;
            &&& placed.len() <= n
            &&& r.failure is None ==> placed.len() == n
            &&& r.failure matches Some((p, s, e)) ==> {
                &&& placed.len() < n
                &&& p == tables@[n - 1 - placed.len()].0
                &&& e == FileStructureError::FileTooLarge || e == FileStructureError::TooManyDirectoryEntries
                &&& placement_fails(tables@, placed.len() as int, e)
                &&& placed.len() == 0 ==> s == 33
                &&& s <= u32::MAX
                &&& forall|k: int, q: int|
                    0 <= k < placed.len() && 0 <= q < placed[k].entries@.len() && placed[k].entries@[q].is_dir
                        && placed[k].entries@[q].idx == placed.len() ==> s == (#[trigger] placed[k].entries@[q]).sector
            }
            &&& placed.len() > 0 ==> placed[0].sector == 33
            &&& forall|k: int|
                0 <= k < placed.len() ==> {
                    &&& (#[trigger] placed[k]).path == tables@[n - 1 - k].0
                    &&& placed[k].sector <= u32::MAX
                    &&& placed[k].entries@.len() == tables@[n - 1 - k].1.entries().len()
                    &&& forall|q: int|
                        0 <= q < placed[k].entries@.len() ==> {
                            &&& (#[trigger] placed[k].entries@[q]).idx == table_entry(tables@, n, k, q).idx
                            &&& placed[k].entries@[q].sector <= u32::MAX
                            &&& placed[k].entries@[q].is_dir == names_dir(tables@, n, k, q)
                            &&& placed[k].entries@[q].name == table_entry(tables@, n, k, q).name
                            &&& placed[k].entries@[q].size == table_entry(tables@, n, k, q).node.data.size
                        }
                }
            &&& forall|k: int, q: int|
                0 <= k < placed.len() && 0 <= q < placed[k].entries@.len() && placed[k].entries@[q].is_dir
                    && placed[k].entries@[q].idx < placed.len() ==> placed[placed[k].entries@[q].idx as int].sector
                    == (#[trigger] placed[k].entries@[q]).sector
            &&& forall|k: int|
                0 <= k < placed.len() ==> holds_table(
                    tables@[n - 1 - k].1,
                    (#[trigger] placed[k]).bytes@,
                    entry_sectors(placed[k].entries@),
                )
        }),
{
    let ghost tabs0 = tables@;
    let n = tables.len();
    let mut tables = tables;
    let mut sector_allocator = SectorAllocator::new();
    let mut dir_sectors: Vec<u64> = vec![0u64; n];
    let root_dirtab_size = tables[n - 1].1.dirtab_size();
    let root_sector = sector_allocator.allocate_contiguous(root_dirtab_size as u64);
    dir_sectors.set(0, root_sector as u64);
    let mut dtw_buffers = DirtabWriterBuffers::new();
    let mut placed: Vec<PlacedTable<'a>> = Vec::new();
    let mut failure: Option<(PathRef<'a>, u64, FileStructureError)> = None;

    let mut dir_idx: usize = 0;
    while dir_idx < n
        invariant_except_break
            tables@.len() == n - dir_idx,
            forall|m: int| 0 <= m < tables@.len() ==> #[trigger] tables@[m] == tabs0[m],
            failure is None,
            sector_allocator@ == free_sector_at(tabs0, dir_idx as int),
        invariant
            dir_idx <= n,
            n == tabs0.len(),
            forall|m: int| 0 <= m < tabs0.len() ==> table_ready(#[trigger] tabs0[m].1, n as int),
            tables_linked(tabs0, n as int),
            dir_sectors@.len() == n,
            dir_sectors@[0] == 33,
            forall|i: int| 0 <= i < n ==> #[trigger] dir_sectors@[i] <= u32::MAX,
            placed@.len() == dir_idx,
            forall|k: int| 0 <= k < dir_idx ==> (#[trigger] placed@[k]).sector == dir_sectors@[k],
            forall|k: int|
                0 <= k < dir_idx ==> {
                    &&& (#[trigger] placed@[k]).path == tabs0[n - 1 - k].0
                    &&& placed@[k].entries@.len() == tabs0[n - 1 - k].1.entries().len()
                    &&& forall|q: int|
                        0 <= q < placed@[k].entries@.len() ==> {
                            &&& (#[trigger] placed@[k].entries@[q]).idx == table_entry(tabs0, n as int, k, q).idx
                            &&& placed@[k].entries@[q].sector <= u32::MAX
                            &&& placed@[k].entries@[q].is_dir == names_dir(tabs0, n as int, k, q)
                            &&& placed@[k].entries@[q].name == table_entry(tabs0, n as int, k, q).name
                            &&& placed@[k].entries@[q].size == table_entry(tabs0, n as int, k, q).node.data.size
                        }
                },
            forall|k: int, q: int|
                0 <= k < dir_idx && 0 <= q < placed@[k].entries@.len() && placed@[k].entries@[q].is_dir
                    ==> dir_sectors@[(#[trigger] placed@[k].entries@[q]).idx as int] == placed@[k].entries@[q].sector,
            forall|k: int|
                0 <= k < dir_idx ==> holds_table(
                    tabs0[n - 1 - k].1,
                    (#[trigger] placed@[k]).bytes@,
                    entry_sectors(placed@[k].entries@),
                ),
        ensures
            failure is None ==> dir_idx == n,
            failure matches Some((p, sec, e)) ==> {
                &&& dir_idx < n
                &&& p == tabs0[n - 1 - dir_idx].0
                &&& sec == dir_sectors@[dir_idx as int]
                &&& e == FileStructureError::FileTooLarge || e == FileStructureError::TooManyDirectoryEntries
                &&& placement_fails(tabs0, dir_idx as int, e)
            },
        decreases n - dir_idx,
    {
        let (path, mut dirtab) = tables.pop().unwrap();
        let ghost k = dir_idx as int;
        proof {
            assert(tabs0[n - 1 - k] == (path, dirtab));
            assert(table_ready(tabs0[n - 1 - k].1, n as int));
        }
        let dirtab_sector = dir_sectors[dir_idx];
        let need = match dirtab.checked_sector_count() {
            Some(c) => c,
            None => {
                failure = Some((path, dirtab_sector, FileStructureError::FileTooLarge));
                break;
            },
        };
        if sector_allocator.next_free() as u64 + need as u64 > 0xffff_ffff {
            failure = Some((path, dirtab_sector, FileStructureError::FileTooLarge));
            break;
        }
        let ghost w0 = dirtab;
        let ghost free0 = sector_allocator@;
        match dirtab.disk_repr(&mut sector_allocator, &mut dtw_buffers) {
            Ok(()) => {},
            Err(e) => {
                proof {
                    let offs = dtw_buffers.avl_idx_to_dirtab_offset@;
                    assert(dirtab.spec_table() == w0.spec_table());
                    assert(w0.offsets_placed(offs));
                    assert(w0.offset_overflows(offs));
                    assert(free0 + entry_sectors_needed(w0) <= 0xffff_ffff);
                    assert(placement_fails(tabs0, dir_idx as int, e));
                }
                failure = Some((path, dirtab_sector, e));
                break;
            },
        }
        let listing = dirtab.iter();
        let ghost before = dir_sectors@;
        let ghost ents = tabs0[n - 1 - k].1.entries();
        proof {
            assert(dirtab.entries() == ents);
            assert forall|q: int| 0 <= q < listing@.len() implies (#[trigger] listing@[q]).idx == table_entry(
                tabs0,
                n as int,
                k,
                q,
            ).idx && listing@[q].is_dir == names_dir(tabs0, n as int, k, q) by {
                assert(listing@[q] == dirtab.spec_listing(q));
            }
        }
        let mut i: usize = 0;
        while i < listing.len()
            invariant
                i <= listing@.len(),
                k == dir_idx,
                dir_idx < n,
                n == tabs0.len(),
                tables_linked(tabs0, n as int),
                listing@.len() == ents.len(),
                ents == tabs0[n - 1 - k].1.entries(),
                forall|q: int|
                    0 <= q < listing@.len() ==> (#[trigger] listing@[q]).idx == table_entry(tabs0, n as int, k, q).idx
                        && listing@[q].is_dir == names_dir(tabs0, n as int, k, q),
                forall|q: int| 0 <= q < listing@.len() ==> (#[trigger] listing@[q]).sector <= u32::MAX,
                dir_sectors@.len() == n,
                forall|q: int| 0 <= q < n ==> #[trigger] dir_sectors@[q] <= u32::MAX,
                forall|d: int| 0 <= d <= k ==> #[trigger] dir_sectors@[d] == before[d],
                forall|q: int|
                    0 <= q < i && listing@[q].is_dir ==> dir_sectors@[(#[trigger] listing@[q]).idx as int]
                        == listing@[q].sector,
                forall|d: int|
                    0 <= d < n && (forall|q: int|
                        0 <= q < i && #[trigger] listing@[q].is_dir ==> listing@[q].idx != d) ==> #[trigger] dir_sectors@[d]
                        == before[d],
            decreases listing@.len() - i,
        {
            let entry = &listing[i];
            if entry.is_dir {
                proof {
                    assert(names_dir(tabs0, n as int, k, i as int));
                    assert(k < table_entry(tabs0, n as int, k, i as int).idx < n);
                    assert forall|q: int| 0 <= q < i && #[trigger] listing@[q].is_dir implies listing@[q].idx
                        != entry.idx by {
                        assert(names_dir(tabs0, n as int, k, q));
                    }
                }
                dir_sectors.set(entry.idx, entry.sector);
            }
            i = i + 1;
        }
        let ghost after = dir_sectors@;
        proof {
            assert forall|k2: int, q: int|
                0 <= k2 < dir_idx && 0 <= q < placed@[k2].entries@.len() && placed@[k2].entries@[q].is_dir
                    implies after[(#[trigger] placed@[k2].entries@[q]).idx as int] == placed@[k2].entries@[q].sector by {
                let d = placed@[k2].entries@[q].idx as int;
                assert(names_dir(tabs0, n as int, k2, q));
                assert forall|q2: int| 0 <= q2 < listing@.len() && #[trigger] listing@[q2].is_dir implies listing@[q2].idx
                    != d by {
                    assert(names_dir(tabs0, n as int, k, q2));
                }
            }
            assert forall|k2: int| 0 <= k2 <= dir_idx implies #[trigger] after[k2] == before[k2] by {}
        }
        let bytes = vstd::slice::slice_to_vec(dtw_buffers.dirtab_bytes.as_slice());
        proof {
            let w0 = tabs0[n - 1 - k].1;
            let offs = dtw_buffers.avl_idx_to_dirtab_offset@;
            let fill = Seq::new(round_to_sector(dirtab.spec_dirtab_size() as int) as nat, |i: int| 0xffu8);
            assert(entry_sectors(listing@) =~= dirtab.sectors()) by {
                assert forall|q: int| 0 <= q < listing@.len() implies #[trigger] entry_sectors(listing@)[q]
                    == dirtab.sectors()[q] by {
                    assert(listing@[q] == dirtab.spec_listing(q));
                }
            }
            AvlDirectoryEntryTableWriter::lemma_same_table(
                dirtab,
                w0,
                fill,
                offs,
                dirtab.sectors(),
                dirtab.entries().len() as int,
            );
            assert(w0.offsets_placed(offs));
            assert(bytes@ == table_bytes(w0, offs, entry_sectors(listing@)));
        }
        let ghost placed_before = placed@;
        placed.push(PlacedTable { path, sector: dirtab_sector, bytes, entries: listing });
        proof {
            assert forall|k2: int| 0 <= k2 < dir_idx + 1 implies holds_table(
                tabs0[n - 1 - k2].1,
                (#[trigger] placed@[k2]).bytes@,
                entry_sectors(placed@[k2].entries@),
            ) by {
                if k2 < dir_idx {
                    assert(placed@[k2] == placed_before[k2]);
                } else {
                    assert(tabs0[n - 1 - k2].1.offsets_placed(dtw_buffers.avl_idx_to_dirtab_offset@));
                }
            }
        }
        dir_idx = dir_idx + 1;
    }
    TableLayout { placed, failure }
}

/// The fewest zero bytes that make `len` a multiple of 65536.
pub open spec fn alignment_padding(len: int) -> int {
    (65536 - len % 65536) % 65536
}

/// The length of an image of `len` bytes once padded: the least multiple of
/// 65536 from `len` on, up to the largest length there is.
pub open spec fn padded_len(len: int) -> int {
    grown_len(len, len, alignment_padding(len))
}

/// How many zero bytes pad an image of `len` bytes to a whole number of
/// 32-sector blocks: the fewest that make it a multiple of 65536.
pub fn image_alignment_padding(len: u64) -> (r: u64)
    ensures
        r < 65536,
        (len + r) % 65536 == 0,
        r == alignment_padding(len as int),
{
    (65536 - len % 65536) % 65536
}

/// The bytes of the volume descriptor of an image whose root table holds
/// `root_size` bytes from sector `root_sector`, with no timestamp.
pub open spec fn volume_descriptor_bytes(root_size: u32, root_sector: u32) -> Seq<u8> {
    VolumeDescriptor {
        root_table: DirectoryEntryTable { region: DiskRegion { sector: root_sector, size: root_size } },
        filetime: 0,
    }.spec_bytes()
}

/// The bytes `m` hold, from sector 32 on and as far as they reach, the
/// volume descriptor of a root table of `root_size` bytes at sector 33.
pub open spec fn holds_volume_descriptor(m: Seq<u8>, root_size: u32) -> bool {
    written(m, 32 * 2048int, volume_descriptor_bytes(root_size, 33)) == m
}

/// Writes an image of a filesystem to a block device.
pub struct XDVDFSImageWriter<'a, BDW: BlockDeviceWrite + ?Sized, FS: FilesystemHierarchy + FilesystemCopier<BDW> + ?Sized, PV: ProgressVisitor> {
    pub fs: &'a mut FS,
    pub image: &'a mut BDW,
    pub progress_visitor: PV,
}

/// Writes the volume descriptor, which locates the root table, at
/// sector 32.
fn write_volume_descriptor<BDW: BlockDeviceWrite + ?Sized, FS: FilesystemHierarchy + FilesystemCopier<BDW> + ?Sized>(image: &mut BDW, root_dirtab_size: u32, root_dirtab_sector: u32) -> (r: Result<(), GenericWriteError<BDW, FS>>)
    ensures
        !(r matches Err(WriteError::InvalidFileStructureError(_))),
        BDW::obeys_model() && r is Ok ==> final(image).model() == written(
            old(image).model(),
            32 * 2048int,
            volume_descriptor_bytes(root_dirtab_size, root_dirtab_sector),
        ),
        BDW::obeys_len_model() && r is Ok ==> final(image).len_model() == grown_len(old(image).len_model(), 32 * 2048int, 2048),
{
    let root_table = DirectoryEntryTable::new(root_dirtab_size, root_dirtab_sector);
    let volume_info = VolumeDescriptor::new(root_table);
    let bytes = match volume_info.serialize() {
        Ok(b) => b,
        Err(_) => return Err(WriteError::InvalidFileStructureError(FileStructureError::SerializationError)),
    };
    match image.write(32 * 2048, bytes.as_slice()) {
        Ok(()) => Ok(()),
        Err(e) => Err(WriteError::BlockDeviceError(e)),
    }
}

/// Pads the image with zeros to a multiple of 32 sectors.
fn apply_image_alignment_padding<BDW: BlockDeviceWrite + ?Sized, FS: FilesystemHierarchy + FilesystemCopier<BDW> + ?Sized>(image: &mut BDW) -> (r: Result<(), GenericWriteError<BDW, FS>>)
    ensures
        !(r matches Err(WriteError::InvalidFileStructureError(_))),
        BDW::obeys_model() ==> final(image).model() == old(image).model(),
        BDW::obeys_len_model() && r is Ok ==> final(image).len_model() >= old(image).len_model()
            && (final(image).len_model() % 65536 == 0 || final(image).len_model() == u64::MAX),
        BDW::obeys_len_model() && r is Ok ==> final(image).len_model() == padded_len(old(image).len_model()),
{
    let len = match image.len() {
        Ok(l) => l,
        Err(e) => return Err(WriteError::BlockDeviceError(e)),
    };
    let padding = image_alignment_padding(len) as usize;
    if padding > 0 {
        let zeros = vec![0u8; padding];
        let ghost before = image.model();
        match image.write(len, zeros.as_slice()) {
            Ok(()) => {},
            Err(e) => return Err(WriteError::BlockDeviceError(e)),
        }
        proof {
            if BDW::obeys_model() {
                assert(written(before, len as int, zeros@) =~= before);
            }
        }
    }
    Ok(())
}

/// `tabs` are the tables built for the directories of `tree`, last
/// directory first: each has the path of its directory and an entry for
/// each item of its listing, in order.
pub open spec fn tables_built<'a>(
    tree: Seq<DirectoryTreeEntry>,
    tabs: Seq<(PathRef<'a>, AvlDirectoryEntryTableWriter<'a>)>,
) -> bool {
    &&& tabs.len() == tree.len()
    &&& forall|k: int| 0 <= k < tree.len() ==> #[trigger] tabs[tree.len() - 1 - k].0 == PathRef::PathVec(&tree[k].dir)
    &&& forall|k: int| 0 <= k < tree.len() ==> table_lists(tabs, tree.len() as int, k, #[trigger] tree[k].listing@)
}

/// `placed` places every table of `tabs`, root first from sector 33: each
/// with its path, the bytes of its table, and its entries with the sectors
/// they were given.
pub open spec fn tables_placed<'a>(
    tabs: Seq<(PathRef<'a>, AvlDirectoryEntryTableWriter<'a>)>,
    placed: Seq<PlacedTable<'a>>,
) -> bool {
    let n = tabs.len() as int;
    &&& placed.len() == n
    &&& n > 0 ==> placed[0].sector == 33
    &&& forall|k: int|
        0 <= k < n ==> {
            &&& (#[trigger] placed[k]).path == tabs[n - 1 - k].0
            &&& placed[k].sector <= u32::MAX
            &&& placed[k].entries@.len() == tabs[n - 1 - k].1.entries().len()
            &&& holds_table(tabs[n - 1 - k].1, placed[k].bytes@, entry_sectors(placed[k].entries@))
            &&& forall|q: int|
                0 <= q < placed[k].entries@.len() ==> {
                    &&& (#[trigger] placed[k].entries@[q]).sector <= u32::MAX
                    &&& placed[k].entries@[q].is_dir == names_dir(tabs, n, k, q)
                    &&& placed[k].entries@[q].name == table_entry(tabs, n, k, q).name
                    &&& placed[k].entries@[q].size == table_entry(tabs, n, k, q).node.data.size
                }
        }
    &&& forall|k: int, q: int|
        0 <= k < n && 0 <= q < placed[k].entries@.len() && placed[k].entries@[q].is_dir
            && placed[k].entries@[q].idx < n ==> placed[placed[k].entries@[q].idx as int].sector
            == (#[trigger] placed[k].entries@[q]).sector
}

/// The copy asked for entry `q` of the placed table `t`: none for a
/// directory; for a file, the whole file from its start, to its sector.
pub open spec fn entry_copy<'a>(t: PlacedTable<'a>, q: int) -> Seq<CopyCall> {
    let e = t.entries@[q];
    if e.is_dir {
        Seq::empty()
    } else {
        seq![(t.path@.push(e.name@), 0u64, (e.sector * 2048) as u64, e.size)]
    }
}

/// The copies asked for the first `i` entries of the placed table `t`.
pub open spec fn table_copies<'a>(t: PlacedTable<'a>, i: int) -> Seq<CopyCall>
    decreases i,
{
    if i <= 0 {
        Seq::empty()
    } else {
        table_copies(t, i - 1) + entry_copy(t, i - 1)
    }
}

/// The copies asked for the files of the first `d` placed tables, table by
/// table and entry by entry.
pub open spec fn layout_copies<'a>(placed: Seq<PlacedTable<'a>>, d: int) -> Seq<CopyCall>
    decreases d,
{
    if d <= 0 {
        Seq::empty()
    } else {
        layout_copies(placed, d - 1) + table_copies(placed[d - 1], placed[d - 1].entries@.len() as int)
    }
}

/// The length of a device of `len` bytes after the copies for the first
/// `i` entries of the placed table `t`.
pub open spec fn table_len<'a>(t: PlacedTable<'a>, i: int, len: int) -> int
    decreases i,
{
    if i <= 0 {
        len
    } else {
        let before = table_len(t, i - 1, len);
        let e = t.entries@[i - 1];
        if e.is_dir {
            before
        } else {
            grown_len(before, e.sector * 2048, e.size as int)
        }
    }
}

/// The length of a device of `len` bytes after the first `d` placed tables
/// are written, each followed by the copies of its files.
pub open spec fn layout_len<'a>(placed: Seq<PlacedTable<'a>>, d: int, len: int) -> int
    decreases d,
{
    if d <= 0 {
        len
    } else {
        let t = placed[d - 1];
        table_len(t, t.entries@.len() as int, grown_len(layout_len(placed, d - 1, len), t.sector * 2048, t.bytes@.len() as int))
    }
}

/// The bytes of a device that held `m` after the copy for entry `q` of the
/// placed table `t`, with `files` the bytes of the files: a file's bytes
/// from its start, zeros past its end, at its sector.
pub open spec fn entry_model<'a>(
    t: PlacedTable<'a>,
    q: int,
    m: Seq<u8>,
    files: spec_fn(Seq<Seq<char>>) -> Option<Seq<u8>>,
) -> Seq<u8> {
    let e = t.entries@[q];
    if e.is_dir {
        m
    } else {
        match files(t.path@.push(e.name@)) {
            Some(f) => copied_file(m, f, 0, e.sector * 2048, e.size as int),
            None => m,
        }
    }
}

/// The bytes of a device that held `m` after the copies for the first `i`
/// entries of the placed table `t`.
pub open spec fn table_model<'a>(
    t: PlacedTable<'a>,
    i: int,
    m: Seq<u8>,
    files: spec_fn(Seq<Seq<char>>) -> Option<Seq<u8>>,
) -> Seq<u8>
    decreases i,
{
    if i <= 0 {
        m
    } else {
        entry_model(t, i - 1, table_model(t, i - 1, m, files), files)
    }
}

/// The bytes of a device that held `m` after the first `d` placed tables
/// are written at their sectors, each followed by the copies of its files.
pub open spec fn layout_model<'a>(
    placed: Seq<PlacedTable<'a>>,
    d: int,
    m: Seq<u8>,
    files: spec_fn(Seq<Seq<char>>) -> Option<Seq<u8>>,
) -> Seq<u8>
    decreases d,
{
    if d <= 0 {
        m
    } else {
        let t = placed[d - 1];
        table_model(t, t.entries@.len() as int, written(layout_model(placed, d - 1, m, files), t.sector * 2048, t.bytes@), files)
    }
}

/// `log` ends with `tail`.
pub open spec fn ends_with(log: Seq<CopyCall>, tail: Seq<CopyCall>) -> bool {
    tail.len() <= log.len() && log.subrange(log.len() - tail.len(), log.len() as int) == tail
}

/// Some entry listed in `tree` carries the error `e`: a name that cannot
/// be encoded, a name listed twice in one directory, or a file larger than
/// 32 bits can express.
pub open spec fn listed_error(tree: Seq<DirectoryTreeEntry>, e: FileStructureError) -> bool {
    exists|k: int, j: int|
        0 <= k < tree.len() && 0 <= j < tree[k].listing@.len() && #[trigger] error_at(tree[k].listing@, j, e)
}

/// Planning the image of `tree` fails with `e`: a listed entry carries it,
/// the tree or one of its directories has too many entries, or, with the
/// tables built for the tree, placing one of them fails with it.
pub open spec fn plan_refused(tree: Seq<DirectoryTreeEntry>, e: FileStructureError) -> bool {
    ||| listed_error(tree, e)
    ||| e == FileStructureError::TooManyDirectoryEntries && entries_from(tree, 0) > usize::MAX
    ||| e == FileStructureError::TooManyDirectoryEntries && exists|k: int|
        0 <= k < tree.len() && (#[trigger] tree[k]).listing@.len() > MAX_LISTED_ENTRIES
    ||| exists|tabs: Seq<(PathRef, AvlDirectoryEntryTableWriter)>, k: int|
        tables_built(tree, tabs) && 0 <= k < tabs.len() && #[trigger] placement_fails(tabs, k, e)
}

/// The plan of an image: the tree of directories that was listed, the
/// tables built for it, and their placement.
pub open spec fn image_plan<'a>(
    tree: Seq<DirectoryTreeEntry>,
    tabs: Seq<(PathRef<'a>, AvlDirectoryEntryTableWriter<'a>)>,
    placed: Seq<PlacedTable<'a>>,
) -> bool {
    &&& tree_indexed(tree)
    &&& parents_unique(tree)
    &&& tables_built(tree, tabs)
    &&& tables_placed(tabs, placed)
}

/// Writes each placed table at its sector, root first, and after each
/// table copies the files it lists to their sectors, telling
/// `progress_visitor` of each; stops at the first error.
fn write_placed<'a, BDW: BlockDeviceWrite + ?Sized, FS: FilesystemHierarchy + FilesystemCopier<BDW> + ?Sized, PV: ProgressVisitor>(
    fs: &mut FS,
    image: &mut BDW,
    progress_visitor: &mut PV,
    placed: &Vec<PlacedTable<'a>>,
    Ghost(files): Ghost<spec_fn(Seq<Seq<char>>) -> Option<Seq<u8>>>,
) -> (r: Result<(), GenericWriteError<BDW, FS>>)
    requires
        FS::obeys_file_model() ==> forall|p: Seq<Seq<char>>| #[trigger] files(p) == (*old(fs)).file_model(p),
        forall|k: int|
            0 <= k < placed@.len() ==> {
                &&& (#[trigger] placed@[k]).sector <= u32::MAX
                &&& forall|q: int|
                    0 <= q < placed@[k].entries@.len() ==> (#[trigger] placed@[k].entries@[q]).sector <= u32::MAX
            },
    ensures
        !(r matches Err(WriteError::InvalidFileStructureError(_))),
        FS::obeys_file_model() ==> forall|p: Seq<Seq<char>>|
            #[trigger] (*final(fs)).file_model(p) == (*old(fs)).file_model(p),
        r is Ok ==> {
            &&& BDW::obeys_len_model() && FS::obeys_file_model() ==> final(image).len_model() == layout_len(
                placed@,
                placed@.len() as int,
                old(image).len_model(),
            )
            &&& BDW::obeys_model() && FS::obeys_file_model() ==> final(image).model() == layout_model(
                placed@,
                placed@.len() as int,
                old(image).model(),
                files,
            )
            &&& FS::obeys_copy_log() ==> (*final(fs)).copy_log() == (*old(fs)).copy_log() + layout_copies(
                placed@,
                placed@.len() as int,
            )
        },
{
    let ghost placed0 = placed@;
    let ghost base0 = fs.copy_log();
    let ghost len0 = image.len_model();
    let ghost m0 = image.model();
    let ghost files0 = files;
    let mut d: usize = 0;
    while d < placed.len()
        invariant
            placed@ == placed0,
            d <= placed@.len(),
            len0 == old(image).len_model(),
            FS::obeys_file_model() ==> forall|p: Seq<Seq<char>>| #[trigger] files0(p) == (*old(fs)).file_model(p),
            base0 == (*old(fs)).copy_log(),
            BDW::obeys_len_model() && FS::obeys_file_model() ==> image.len_model() == layout_len(placed0, d as int, len0),
            m0 == old(image).model(),
            FS::obeys_file_model() ==> forall|p: Seq<Seq<char>>| #[trigger] fs.file_model(p) == files0(p),
            BDW::obeys_model() && FS::obeys_file_model() ==> image.model() == layout_model(placed0, d as int, m0, files0),
            FS::obeys_copy_log() ==> fs.copy_log() == base0 + layout_copies(placed0, d as int),
            forall|k: int|
                0 <= k < placed@.len() ==> {
                    &&& (#[trigger] placed@[k]).sector <= u32::MAX
                    &&& forall|q: int|
                        0 <= q < placed@[k].entries@.len() ==> (#[trigger] placed@[k].entries@[q]).sector
                            <= u32::MAX
                },
        decreases placed@.len() - d,
    {
        let table = &placed[d];
        progress_visitor.directory_added(table.path, table.sector);
        match image.write(table.sector * 2048, table.bytes.as_slice()) {
            Ok(()) => {},
            Err(e) => {
                proof {
                    if FS::obeys_file_model() {
                        assert forall|p: Seq<Seq<char>>| #[trigger] fs.file_model(p) == (*old(fs)).file_model(p) by {
                            assert(fs.file_model(p) == files0(p));
                        }
                        assert forall|p: Seq<Seq<char>>| #[trigger] (*final(fs)).file_model(p) == (*old(fs)).file_model(p) by {
                            assert(fs.file_model(p) == (*old(fs)).file_model(p));
                        }
                    }
                }
                return Err(WriteError::BlockDeviceError(e));
            },
        }
        let listing = &table.entries;
        let ghost after_table = image.len_model();
        let ghost model_table = image.model();
        let mut i: usize = 0;
        while i < listing.len()
            invariant
                BDW::obeys_len_model() && FS::obeys_file_model() ==> image.len_model() == table_len(
                    *table,
                    i as int,
                    after_table,
                ),
                BDW::obeys_len_model() && FS::obeys_file_model() ==> after_table == grown_len(
                    layout_len(placed0, d as int, len0),
                    table.sector * 2048,
                    table.bytes@.len() as int,
                ),
                *table == placed0[d as int],
                listing@ == table.entries@,
                FS::obeys_file_model() ==> forall|p: Seq<Seq<char>>| #[trigger] fs.file_model(p) == files0(p),
                FS::obeys_file_model() ==> forall|p: Seq<Seq<char>>| #[trigger] files0(p) == (*old(fs)).file_model(p),
                BDW::obeys_model() && FS::obeys_file_model() ==> image.model() == table_model(
                    *table,
                    i as int,
                    model_table,
                    files0,
                ),
                BDW::obeys_model() && FS::obeys_file_model() ==> model_table == written(
                    layout_model(placed0, d as int, m0, files0),
                    table.sector * 2048,
                    table.bytes@,
                ),
                i <= listing@.len(),
                d < placed0.len(),
                FS::obeys_copy_log() ==> fs.copy_log() == base0 + layout_copies(placed0, d as int) + table_copies(
                    *table,
                    i as int,
                ),
                forall|q: int| 0 <= q < listing@.len() ==> (#[trigger] listing@[q]).sector <= u32::MAX,
            decreases listing@.len() - i,
        {
            let entry = &listing[i];
            let file_path = table.path.join(entry.name);
            progress_visitor.file_added(file_path, entry.sector);
            let ghost files_before = |p: Seq<Seq<char>>| fs.file_model(p);
            let ghost model_before = image.model();
            proof {
                assert(file_path@ == table.path@.push(entry.name@));
                assert(table_model(*table, i + 1, model_table, files0) == entry_model(
                    *table,
                    i as int,
                    table_model(*table, i as int, model_table, files0),
                    files0,
                ));
            }
            if !entry.is_dir {
                match fs.copy_file_in(file_path, image, 0, entry.sector * 2048, entry.size) {
                    Ok(_) => {},
                    Err(e) => {
                        proof {
                            if FS::obeys_file_model() {
                                assert forall|p: Seq<Seq<char>>| #[trigger] fs.file_model(p) == (*old(fs)).file_model(p) by {
                                    assert(files_before(p) == files0(p));
                                }
                                assert forall|p: Seq<Seq<char>>| #[trigger] (*final(fs)).file_model(p) == (*old(fs)).file_model(p) by {
                                    assert(fs.file_model(p) == (*old(fs)).file_model(p));
                                }
                            }
                        }
                        return Err(WriteError::FilesystemCopierError(e));
                    },
                }
                proof {
                    if FS::obeys_file_model() {
                        assert forall|p: Seq<Seq<char>>| #[trigger] fs.file_model(p) == files0(p) by {
                            assert(fs.file_model(p) == files_before(p));
                        }
                        if BDW::obeys_model() {
                            assert(files_before(file_path@) == files0(file_path@));
                            assert(image.model() == entry_model(*table, i as int, model_before, files0));
                        }
                    }
                }
            }
            proof {
                assert(table_copies(*table, i + 1) == table_copies(*table, i as int) + entry_copy(*table, i as int));
                if FS::obeys_copy_log() {
                    assert(fs.copy_log() == base0 + layout_copies(placed0, d as int) + table_copies(*table, i + 1));
                }
            }
            i = i + 1;
        }
        proof {
            assert(layout_copies(placed0, d + 1) == layout_copies(placed0, d as int) + table_copies(
                placed0[d as int],
                placed0[d as int].entries@.len() as int,
            ));
        }
        d = d + 1;
    }
    proof {
        if FS::obeys_file_model() {
            assert forall|p: Seq<Seq<char>>| #[trigger] fs.file_model(p) == (*old(fs)).file_model(p) by {
                assert(fs.file_model(p) == files0(p));
            }
            assert forall|p: Seq<Seq<char>>| #[trigger] (*final(fs)).file_model(p) == (*old(fs)).file_model(p) by {
                assert(fs.file_model(p) == (*old(fs)).file_model(p));
            }
        }
    }
    Ok(())
}

/// Writes the image: lists the directory tree, builds the entry tables
/// from the leaves up, places them from the root down, then writes each
/// placed table and copies the files it lists, and finishes with the
/// volume descriptor and the padding. Where a table cannot be placed,
/// everything placed before it is written first, as it is found.
#[verifier::spinoff_prover]
#[verifier::rlimit(100)]
fn write_image<BDW: BlockDeviceWrite + ?Sized, FS: FilesystemHierarchy + FilesystemCopier<BDW> + ?Sized, PV: ProgressVisitor>(
    fs: &mut FS,
    image: &mut BDW,
    progress_visitor: &mut PV,
) -> (r: Result<(), GenericWriteError<BDW, FS>>)
    ensures
        !(r matches Err(WriteError::InvalidFileStructureError(FileStructureError::SerializationError))),
        r matches Err(WriteError::InvalidFileStructureError(e)) ==> exists|tree: Seq<DirectoryTreeEntry>|
            #[trigger] plan_refused(tree, e) && tree_indexed(tree) && (FS::obeys_dir_model() ==> forall|k: int|
                0 <= k < tree.len() ==> (*old(fs)).lists(
                    PathRef::PathVec(&tree[k].dir)@,
                    listed_entries(#[trigger] tree[k].listing@),
                )),
        BDW::obeys_model() && r is Ok ==> exists|root_size: u32|
            #[trigger] holds_volume_descriptor(final(image).model(), root_size),
        BDW::obeys_len_model() && r is Ok ==> final(image).len_model() >= 33 * 2048 && (final(image).len_model()
            % 65536 == 0 || final(image).len_model() == u64::MAX),
        r is Ok ==> exists|
            tree: Seq<DirectoryTreeEntry>,
            tabs: Seq<(PathRef, AvlDirectoryEntryTableWriter)>,
            placed: Seq<PlacedTable>,
        |
            #[trigger] image_plan(tree, tabs, placed) && (FS::obeys_dir_model() ==> forall|k: int|
                0 <= k < tree.len() ==> (*old(fs)).lists(
                    PathRef::PathVec(&tree[k].dir)@,
                    listed_entries(#[trigger] tree[k].listing@),
                )) && (FS::obeys_copy_log() ==> ends_with(
                (*final(fs)).copy_log(),
                layout_copies(placed, placed.len() as int),
            )) && (BDW::obeys_model() ==> holds_volume_descriptor(
                final(image).model(),
                tabs[tabs.len() - 1].1.spec_dirtab_size(),
            )) && (BDW::obeys_len_model() && FS::obeys_file_model() ==> final(image).len_model() == padded_len(
                grown_len(layout_len(placed, placed.len() as int, old(image).len_model()), 32 * 2048int, 2048),
            )) && (BDW::obeys_model() && FS::obeys_file_model() ==> final(image).model() == written(
                layout_model(
                    placed,
                    placed.len() as int,
                    old(image).model(),
                    |p: Seq<Seq<char>>| (*final(fs)).file_model(p),
                ),
                32 * 2048int,
                volume_descriptor_bytes(tabs[tabs.len() - 1].1.spec_dirtab_size(), 33),
            )),
{
    let dirtree = match dir_tree(fs, progress_visitor) {
        Ok(t) => t,
        Err(e) => return Err(WriteError::FilesystemHierarchyError(e)),
    };
    let ghost tree0 = dirtree@;
    proof {
        let tree = dirtree@;
        assert(tree_indexed(tree));
        assert forall|k: int, j: int|
            0 <= k < tree.len() && 0 <= j < tree[k].listing@.len()
                && (#[trigger] tree[k].listing@[j]).0.file_type == FileType::Directory implies tree[k].listing@[j].1
            < tree.len() by {
            assert(crate::fs::hierarchy::links_to(crate::fs::hierarchy::tree_dirs(tree), k, tree[k].listing@[j]));
        }
    }
    if total_entries(dirtree.as_slice()).is_none() {
        proof {
            assert(plan_refused(dirtree@, FileStructureError::TooManyDirectoryEntries));
        }
        return Err(WriteError::InvalidFileStructureError(FileStructureError::TooManyDirectoryEntries));
    }
    let tables = match create_dirent_tables(dirtree.as_slice()) {
        Ok(t) => t,
        Err(e) => {
            proof {
                assert(plan_refused(dirtree@, e));
            }
            return Err(WriteError::InvalidFileStructureError(e));
        },
    };
    let n = dirtree.len();
    let dirent_tables = tables.dirent_tables;
    progress_visitor.entry_counts(tables.count, n);
    proof {
        let tabs = dirent_tables@;
        assert forall|m: int| 0 <= m < tabs.len() implies table_ready(#[trigger] tabs[m].1, n as int) by {
            let k = n - 1 - m;
            assert(tabs[n - 1 - k] == tabs[m]);
            assert(table_lists(tabs, n as int, k, dirtree@[k].listing@));
            let w = tabs[m].1;
            assert forall|j: int| 0 <= j < w.entries().len() implies (#[trigger] w.entries()[j]).idx < n by {
                let item = dirtree@[k].listing@[j];
                assert(entry_matches(w.entries()[j], item, recorded_dir_size(tabs, n as int, k, item.1 as int)));
            }
        }
    }

    let root_dirtab_size = dirent_tables[n - 1].1.dirtab_size();
    proof {
        lemma_tables_linked(dirtree@, dirent_tables@);
    }
    let ghost tabs0 = dirent_tables@;
    let layout = place_tables(dirent_tables);
    let placed = &layout.placed;
    let ghost placed0 = placed@;
    let ghost m_call = image.model();
    assert(m_call == old(image).model());
    let ghost files_call = |p: Seq<Seq<char>>| fs.file_model(p);
    match write_placed(fs, image, progress_visitor, placed, Ghost(files_call)) {
        Ok(()) => {},
        Err(e) => return Err(e),
    }
    proof {
        if BDW::obeys_model() && FS::obeys_file_model() {
            assert(image.model() == layout_model(placed0, placed0.len() as int, m_call, files_call));
        }
        if FS::obeys_file_model() {
            assert forall|p: Seq<Seq<char>>| #[trigger] fs.file_model(p) == files_call(p) by {}
            assert(files_call =~= (|p: Seq<Seq<char>>| fs.file_model(p)));
        }
    }
    let ghost model_placed = image.model();
    match &layout.failure {
        Some((path, sector, e)) => {
            proof {
                assert(tables_built(tree0, tabs0));
                assert(placement_fails(tabs0, placed0.len() as int, *e));
                assert(plan_refused(tree0, *e));
            }
            progress_visitor.directory_added(*path, *sector);
            return Err(WriteError::InvalidFileStructureError(*e));
        },
        None => {},
    }
    proof {
        assert(tables_built(tree0, tabs0));
        assert(tables_placed(tabs0, placed0));
        assert(image_plan(tree0, tabs0, placed0));
        assert(root_dirtab_size == tabs0[tabs0.len() - 1].1.spec_dirtab_size());
        if FS::obeys_copy_log() {
            let log = fs.copy_log();
            let tail = layout_copies(placed0, placed0.len() as int);
            assert(log.subrange(log.len() - tail.len(), log.len() as int) =~= tail);
            assert(ends_with(log, tail));
        }
    }
    let ghost final_log = fs.copy_log();

    progress_visitor.finished_copying_image_data();
    let root_sector = layout.placed[0].sector as u32;
    let ghost before = image.model();
    match write_volume_descriptor::<BDW, FS>(image, root_dirtab_size, root_sector) {
        Ok(()) => {},
        Err(e) => return Err(e),
    }
    proof {
        if BDW::obeys_model() {
            let b = volume_descriptor_bytes(root_dirtab_size, 33);
            assert(written(written(before, 32 * 2048int, b), 32 * 2048int, b) =~= written(before, 32 * 2048int, b));
            assert(holds_volume_descriptor(image.model(), root_dirtab_size));
        }
    }
    match apply_image_alignment_padding::<BDW, FS>(image) {
        Ok(()) => {},
        Err(e) => return Err(e),
    }
    progress_visitor.finished();
    proof {
        if BDW::obeys_model() {
            assert(holds_volume_descriptor(image.model(), root_dirtab_size));
        }
        assert(root_sector == 33);
        if BDW::obeys_model() && FS::obeys_file_model() {
            assert(files_call =~= (|p: Seq<Seq<char>>| (*final(fs)).file_model(p)));
            assert(model_placed == layout_model(placed0, placed0.len() as int, old(image).model(), files_call));
            assert(image.model() == written(
                layout_model(placed0, placed0.len() as int, old(image).model(), |p: Seq<Seq<char>>| (*final(fs)).file_model(p)),
                32 * 2048int,
                volume_descriptor_bytes(tabs0[tabs0.len() - 1].1.spec_dirtab_size(), 33),
            ));
        }
    }
    Ok(())
}

impl<'a, BDW: BlockDeviceWrite + ?Sized, FS: FilesystemHierarchy + FilesystemCopier<BDW> + ?Sized, PV: ProgressVisitor> XDVDFSImageWriter<'a, BDW, FS, PV> {
    /// Writes the image: lists the directory tree, builds the entry tables
    /// from the leaves up, places them from the root down, then writes each
    /// placed table and copies the files it lists, and finishes with the
    /// volume descriptor and the padding; as `write_image` does.
    pub fn create_image(&mut self) -> (r: Result<(), GenericWriteError<BDW, FS>>)
        ensures
            !(r matches Err(WriteError::InvalidFileStructureError(FileStructureError::SerializationError))),
            r matches Err(WriteError::InvalidFileStructureError(e)) ==> exists|tree: Seq<DirectoryTreeEntry>|
                #[trigger] plan_refused(tree, e) && tree_indexed(tree) && (FS::obeys_dir_model() ==> forall|k: int|
                    0 <= k < tree.len() ==> (*old(self).fs).lists(
                        PathRef::PathVec(&tree[k].dir)@,
                        listed_entries(#[trigger] tree[k].listing@),
                    )),
            BDW::obeys_model() && r is Ok ==> exists|root_size: u32|
                #[trigger] holds_volume_descriptor(final(self).image.model(), root_size),
            BDW::obeys_len_model() && r is Ok ==> final(self).image.len_model() >= 33 * 2048
                && (final(self).image.len_model() % 65536 == 0 || final(self).image.len_model() == u64::MAX),
            r is Ok ==> exists|
                tree: Seq<DirectoryTreeEntry>,
                tabs: Seq<(PathRef, AvlDirectoryEntryTableWriter)>,
                placed: Seq<PlacedTable>,
            |
                #[trigger] image_plan(tree, tabs, placed) && (FS::obeys_dir_model() ==> forall|k: int|
                    0 <= k < tree.len() ==> (*old(self).fs).lists(
                        PathRef::PathVec(&tree[k].dir)@,
                        listed_entries(#[trigger] tree[k].listing@),
                    )) && (FS::obeys_copy_log() ==> ends_with(
                    (*final(self).fs).copy_log(),
                    layout_copies(placed, placed.len() as int),
                )) && (BDW::obeys_model() ==> holds_volume_descriptor(
                    final(self).image.model(),
                    tabs[tabs.len() - 1].1.spec_dirtab_size(),
                )) && (BDW::obeys_len_model() && FS::obeys_file_model() ==> final(self).image.len_model() == padded_len(
                    grown_len(layout_len(placed, placed.len() as int, old(self).image.len_model()), 32 * 2048int, 2048),
                )) && (BDW::obeys_model() && FS::obeys_file_model() ==> final(self).image.model() == written(
                    layout_model(
                        placed,
                        placed.len() as int,
                        old(self).image.model(),
                        |p: Seq<Seq<char>>| (*final(self).fs).file_model(p),
                    ),
                    32 * 2048int,
                    volume_descriptor_bytes(tabs[tabs.len() - 1].1.spec_dirtab_size(), 33),
                )),
    {
        let r = write_image(self.fs, self.image, &mut self.progress_visitor);
        proof {
            if BDW::obeys_model() && r is Ok {
                let m = self.image.model();
                let w = choose|s: u32| #[trigger] holds_volume_descriptor(m, s);
                assert(holds_volume_descriptor(m, w));
            }
            if r is Ok {
                let m = self.image.model();
                let (tree, tabs, placed) = choose|
                    tree: Seq<DirectoryTreeEntry>,
                    tabs: Seq<(PathRef, AvlDirectoryEntryTableWriter)>,
                    placed: Seq<PlacedTable>,
                |
                    #[trigger] image_plan(tree, tabs, placed) && (FS::obeys_dir_model() ==> forall|k: int|
                        0 <= k < tree.len() ==> (*old(self).fs).lists(
                            PathRef::PathVec(&tree[k].dir)@,
                            listed_entries(#[trigger] tree[k].listing@),
                        )) && (FS::obeys_copy_log() ==> ends_with(
                        (*self.fs).copy_log(),
                        layout_copies(placed, placed.len() as int),
                    )) && (BDW::obeys_model() ==> holds_volume_descriptor(
                        m,
                        tabs[tabs.len() - 1].1.spec_dirtab_size(),
                    )) && (BDW::obeys_len_model() && FS::obeys_file_model() ==> self.image.len_model() == padded_len(
                        grown_len(layout_len(placed, placed.len() as int, old(self).image.len_model()), 32 * 2048int, 2048),
                    )) && (BDW::obeys_model() && FS::obeys_file_model() ==> m == written(
                        layout_model(
                            placed,
                            placed.len() as int,
                            old(self).image.model(),
                            |p: Seq<Seq<char>>| (*self.fs).file_model(p),
                        ),
                        32 * 2048int,
                        volume_descriptor_bytes(tabs[tabs.len() - 1].1.spec_dirtab_size(), 33),
                    ));
                assert(image_plan(tree, tabs, placed));
            }
        }
        r
    }
}

/// Writes an image of the filesystem `fs` to `image`, telling
/// `progress_visitor` of its progress. On success the image holds, in the
/// order they were written, each placed directory table at its sector and
/// the bytes of each listed file at the sector of its entry, then the
/// volume descriptor at sector 32 naming the root table at sector 33, and
/// it is padded with zeros to the next multiple of 32 sectors. A
/// file-structure error is one that a listed entry carries (a name that
/// cannot be encoded, a name listed twice, a file too large), too many
/// entries in the tree or in a directory, or a table whose entries cannot
/// be placed within 32-bit sectors or reached by 16-bit offsets.
pub fn create_xdvdfs_image<BDW: BlockDeviceWrite + ?Sized, FS: FilesystemHierarchy + FilesystemCopier<BDW> + ?Sized, PV: ProgressVisitor>(
    fs: &mut FS,
    image: &mut BDW,
    progress_visitor: PV,
) -> (r: Result<(), GenericWriteError<BDW, FS>>)
    ensures
        !(r matches Err(WriteError::InvalidFileStructureError(FileStructureError::SerializationError))),
        r matches Err(WriteError::InvalidFileStructureError(e)) ==> exists|tree: Seq<DirectoryTreeEntry>|
            #[trigger] plan_refused(tree, e) && tree_indexed(tree) && (FS::obeys_dir_model() ==> forall|k: int|
                0 <= k < tree.len() ==> (*old(fs)).lists(
                    PathRef::PathVec(&tree[k].dir)@,
                    listed_entries(#[trigger] tree[k].listing@),
                )),
        BDW::obeys_model() && r is Ok ==> exists|root_size: u32|
            #[trigger] holds_volume_descriptor(final(image).model(), root_size),
        BDW::obeys_len_model() && r is Ok ==> final(image).len_model() >= 33 * 2048 && (final(image).len_model()
            % 65536 == 0 || final(image).len_model() == u64::MAX),
        r is Ok ==> exists|
            tree: Seq<DirectoryTreeEntry>,
            tabs: Seq<(PathRef, AvlDirectoryEntryTableWriter)>,
            placed: Seq<PlacedTable>,
        |
            #[trigger] image_plan(tree, tabs, placed) && (FS::obeys_dir_model() ==> forall|k: int|
                0 <= k < tree.len() ==> (*old(fs)).lists(
                    PathRef::PathVec(&tree[k].dir)@,
                    listed_entries(#[trigger] tree[k].listing@),
                )) && (FS::obeys_copy_log() ==> ends_with(
                (*final(fs)).copy_log(),
                layout_copies(placed, placed.len() as int),
            )) && (BDW::obeys_model() ==> holds_volume_descriptor(
                final(image).model(),
                tabs[tabs.len() - 1].1.spec_dirtab_size(),
            )) && (BDW::obeys_len_model() && FS::obeys_file_model() ==> final(image).len_model() == padded_len(
                grown_len(layout_len(placed, placed.len() as int, old(image).len_model()), 32 * 2048int, 2048),
            )) && (BDW::obeys_model() && FS::obeys_file_model() ==> final(image).model() == written(
                layout_model(
                    placed,
                    placed.len() as int,
                    old(image).model(),
                    |p: Seq<Seq<char>>| (*final(fs)).file_model(p),
                ),
                32 * 2048int,
                volume_descriptor_bytes(tabs[tabs.len() - 1].1.spec_dirtab_size(), 33),
            )),
{
    let mut progress_visitor = progress_visitor;
    write_image(fs, image, &mut progress_visitor)
}

} // verus!
