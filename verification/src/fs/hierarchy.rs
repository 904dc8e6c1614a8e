//! Walking a source filesystem: the directory tree, breadth first.
use vstd::prelude::*;

use crate::fs::{DirectoryTreeEntry, FileEntry, FileType, FilesystemHierarchy};
use crate::path::pathref::PathRef;
use crate::path::pathvec::{is_root_string, PathVec};
use crate::progress_info::ProgressVisitor;

verus! {

/// The path of the entry `name` of the directory at `dir`.
pub open spec fn child_path(dir: Seq<char>, name: Seq<char>) -> Seq<char> {
    if is_root_string(dir) {
        dir + name
    } else {
        dir + seq!['/'] + name
    }
}

/// In a tree whose entries stand at positions `dirs`, the listing item
/// `item` of the entry at position `k` is linked right: a directory names
/// the later position of its own entry, whose path is the child path of its
/// name; a file names position zero.
pub open spec fn links_to(dirs: Seq<Seq<char>>, k: int, item: (FileEntry, usize)) -> bool {
    match item.0.file_type {
        FileType::Directory => k < item.1 < dirs.len() && dirs[item.1 as int] == child_path(
            dirs[k],
            item.0.name@,
        ),
        FileType::File => item.1 == 0,
    }
}

/// The paths of the entries of a directory tree, in order.
pub open spec fn tree_dirs(tree: Seq<DirectoryTreeEntry>) -> Seq<Seq<char>> {
    Seq::new(tree.len(), |k: int| tree[k].dir@)
}

/// The entries of a directory tree start at the root, and every listing item
/// is linked right.
pub open spec fn tree_indexed(tree: Seq<DirectoryTreeEntry>) -> bool {
    &&& tree.len() >= 1
    &&& tree[0].dir@ == Seq::<char>::empty()
    &&& forall|k: int, j: int|
        #![trigger tree[k].listing@[j]]
        0 <= k < tree.len() && 0 <= j < tree[k].listing@.len() ==> links_to(
            tree_dirs(tree),
            k,
            tree[k].listing@[j],
        )
}

/// Every directory of a tree is listed by one parent only: no two
/// directory items of the tree name the same position.
pub open spec fn parents_unique(tree: Seq<DirectoryTreeEntry>) -> bool {
    forall|k1: int, j1: int, k2: int, j2: int|
        #![trigger tree[k1].listing@[j1], tree[k2].listing@[j2]]
        0 <= k1 < tree.len() && 0 <= j1 < tree[k1].listing@.len() && 0 <= k2 < tree.len() && 0 <= j2
            < tree[k2].listing@.len() && tree[k1].listing@[j1].0.file_type == FileType::Directory
            && tree[k2].listing@[j2].0.file_type == FileType::Directory && tree[k1].listing@[j1].1
            == tree[k2].listing@[j2].1 ==> k1 == k2 && j1 == j2
}

/// The entries of a listing, without the positions they are paired with.
pub open spec fn listed_entries(listing: Seq<(FileEntry, usize)>) -> Seq<FileEntry> {
    listing.map_values(|item: (FileEntry, usize)| item.0)
}

/// Lists the directories of `fs` breadth first, from the root: each comes
/// with its listing, in which a directory is paired with the position of its
/// own entry in the result and a file with zero. `progress` is told of the
/// number of entries of each directory as it is listed. Fails with the first
/// error of listing a directory.
pub fn dir_tree<FS: FilesystemHierarchy + ?Sized, PV: ProgressVisitor + ?Sized>(
    fs: &mut FS,
    progress: &mut PV,
) -> (r: Result<Vec<DirectoryTreeEntry>, FS::Error>)
    ensures
        r matches Ok(tree) ==> tree_indexed(tree@) && parents_unique(tree@),
        FS::obeys_dir_model() && r is Ok ==> forall|k: int|
            0 <= k < r->Ok_0@.len() ==> (*old(fs)).lists(
                PathRef::PathVec(&r->Ok_0@[k].dir)@,
                listed_entries(#[trigger] r->Ok_0@[k].listing@),
            ),
{
    let mut dirs: Vec<PathVec> = Vec::new();
    dirs.push(PathVec::new());
    let mut out: Vec<DirectoryTreeEntry> = Vec::new();
    let mut h: usize = 0;
    while h < dirs.len()
        invariant
            out@.len() == h,
            h <= dirs@.len(),
            dirs@.len() >= 1,
            dirs@[0]@ == Seq::<char>::empty(),
            forall|k: int| 0 <= k < h ==> #[trigger] out@[k].dir == dirs@[k],
            forall|k: int, j: int|
                #![trigger out@[k].listing@[j]]
                0 <= k < h && 0 <= j < out@[k].listing@.len() ==> links_to(
                    Seq::new(dirs@.len(), |p: int| dirs@[p]@),
                    k,
                    out@[k].listing@[j],
                ),
            parents_unique(out@),
            FS::obeys_dir_model() ==> forall|p: Seq<Seq<char>>, l: Seq<FileEntry>|
                #[trigger] (*fs).lists(p, l) == (*old(fs)).lists(p, l),
            FS::obeys_dir_model() ==> forall|k: int|
                0 <= k < h ==> (*old(fs)).lists(PathRef::PathVec(&out@[k].dir)@, listed_entries(#[trigger] out@[k].listing@)),
        decreases usize::MAX - h,
    {
        let dir = dirs[h].clone_path();
        let entries = match fs.read_dir(dir.as_path_ref()) {
            Ok(e) => e,
            Err(e) => return Err(e),
        };
        progress.directory_discovered(entries.len());
        let ghost before = dirs@;
        let mut listing: Vec<(FileEntry, usize)> = Vec::new();
        let mut i: usize = 0;
        while i < entries.len()
            invariant
                h < before.len() <= dirs@.len(),
                dir == before[h as int],
                forall|p: int| 0 <= p < before.len() ==> #[trigger] dirs@[p] == before[p],
                i <= entries@.len(),
                forall|j: int|
                    #![trigger listing@[j]]
                    0 <= j < listing@.len() ==> links_to(
                        Seq::new(dirs@.len(), |p: int| dirs@[p]@),
                        h as int,
                        listing@[j],
                    ),
                forall|k: int, j: int|
                    #![trigger out@[k].listing@[j]]
                    0 <= k < h && 0 <= j < out@[k].listing@.len() ==> links_to(
                        Seq::new(dirs@.len(), |p: int| dirs@[p]@),
                        k,
                        out@[k].listing@[j],
                    ),
                out@.len() == h,
                parents_unique(out@),
                listing@.len() == i,
                forall|j: int| 0 <= j < i ==> (#[trigger] listing@[j]).0 == entries@[j],
                forall|j1: int, j2: int|
                    #![trigger listing@[j1], listing@[j2]]
                    0 <= j1 < listing@.len() && 0 <= j2 < listing@.len() && listing@[j1].0.file_type
                        == FileType::Directory && listing@[j2].0.file_type == FileType::Directory
                        && listing@[j1].1 == listing@[j2].1 ==> j1 == j2,
                forall|k: int, j1: int, j2: int|
                    #![trigger out@[k].listing@[j1], listing@[j2]]
                    0 <= k < h && 0 <= j1 < out@[k].listing@.len() && 0 <= j2 < listing@.len()
                        && out@[k].listing@[j1].0.file_type == FileType::Directory && listing@[j2].0.file_type
                        == FileType::Directory ==> out@[k].listing@[j1].1 != listing@[j2].1,
            decreases entries@.len() - i,
        {
            let entry = &entries[i];
            let copy = FileEntry { name: entry.name.clone(), file_type: entry.file_type, len: entry.len };
            let mut dir_index: usize = 0;
            let ghost prev = dirs@;
            match entry.file_type {
                FileType::Directory => {
                    dirs.push(PathVec::from_base(dir.clone_path(), entry.name.as_str()));
                    dir_index = dirs.len() - 1;
                },
                FileType::File => {},
            }
            proof {
                let view_now = Seq::new(dirs@.len(), |p: int| dirs@[p]@);
                let view_prev = Seq::new(prev.len(), |p: int| prev[p]@);
                assert forall|j: int| 0 <= j < listing@.len() implies links_to(view_now, h as int, #[trigger] listing@[j]) by {
                    assert(links_to(view_prev, h as int, listing@[j]));
                    if listing@[j].0.file_type == FileType::Directory {
                        assert(view_now[listing@[j].1 as int] == view_prev[listing@[j].1 as int]);
                        assert(view_now[h as int] == view_prev[h as int]);
                    }
                }
                assert(links_to(view_now, h as int, (copy, dir_index)));
            }
            listing.push((copy, dir_index));
            i = i + 1;
        }
        let ghost dirs_before = Seq::new(before.len(), |p: int| before[p]@);
        let ghost dirs_after = Seq::new(dirs@.len(), |p: int| dirs@[p]@);
        proof {
            assert forall|k: int, j: int|
                0 <= k < h && 0 <= j < out@[k].listing@.len() implies links_to(
                dirs_after,
                k,
                #[trigger] out@[k].listing@[j],
            ) by {
                assert(links_to(dirs_before, k, out@[k].listing@[j]));
                if out@[k].listing@[j].0.file_type == FileType::Directory {
                    assert(dirs_after[out@[k].listing@[j].1 as int] == dirs_before[out@[k].listing@[j].1 as int]);
                    assert(dirs_after[k] == dirs_before[k]);
                }
            }
        }
        proof {
            assert(listed_entries(listing@) =~= entries@);
        }
        let ghost out_before = out@;
        out.push(DirectoryTreeEntry { dir, listing });
        proof {
            if FS::obeys_dir_model() {
                assert forall|k: int|
                    0 <= k < h + 1 implies (*old(fs)).lists(
                    PathRef::PathVec(&out@[k].dir)@,
                    listed_entries(#[trigger] out@[k].listing@),
                ) by {
                    if k < h {
                        assert(out@[k] == out_before[k]);
                    }
                }
            }
        }
        h = h + 1;
    }
    proof {
        let tree = out@;
        assert(tree_dirs(tree) =~= Seq::new(dirs@.len(), |p: int| dirs@[p]@));
    }
    Ok(out)
}

} // verus!
