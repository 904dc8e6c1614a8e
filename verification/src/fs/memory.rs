//! A filesystem held in memory: directories and files with their contents,
//! stored in a path prefix tree.
use vstd::prelude::*;

use crate::blockdev::NullBlockDevice;
use crate::fs::{copied_file, DirModel, FileEntry, FileModel, FileType, FilesystemCopier, FilesystemHierarchy};
use crate::path::pathref::PathRef;
use crate::path::pathtrie::{is_proper_prefix, lemma_child_record, stored_around, PathPrefixTree};
use crate::path::trie_iter::{lists_sorted, shortlex_lt};

verus! {

/// What the filesystem stores for a path: the contents of a file, or
/// nothing for a directory.
#[derive(Debug, Clone)]
pub struct Entry {
    pub data: Option<Vec<u8>>,
}

impl Default for Entry {
    fn default() -> (r: Self)
        ensures
            r.data is None,
    {
        Entry { data: None }
    }
}

/// A filesystem held in memory.
#[derive(Debug)]
pub struct MemoryFilesystem(PathPrefixTree<Entry>);

impl Default for MemoryFilesystem {
    fn default() -> (r: Self)
        ensures
            r.tree() == PathPrefixTree::<Entry>::empty_tree(),
    {
        MemoryFilesystem(PathPrefixTree::new())
    }
}

/// The contents of the file stored for a path of components, if a file is
/// stored there.
pub open spec fn file_data(tree: PathPrefixTree<Entry>, cs: Seq<Seq<char>>) -> Option<Seq<u8>> {
    match tree.get_comps(cs) {
        Some(e) => match e.data {
            Some(d) => Some(d@),
            None => None,
        },
        None => None,
    }
}

/// The listing entry that describes `e` under the name `name`.
pub open spec fn describes(f: FileEntry, name: Seq<char>, e: Entry) -> bool {
    &&& f.name@ == name
    &&& f.file_type == (if e.data is Some {
        FileType::File
    } else {
        FileType::Directory
    })
    &&& f.len == (match e.data {
        Some(d) => d@.len(),
        None => 0,
    })
}

/// `listing` lists the records of `dir`, in shortlex order of their names,
/// each once.
pub open spec fn lists_dir(dir: PathPrefixTree<Entry>, listing: Seq<FileEntry>) -> bool {
    &&& forall|i: int|
        #![trigger listing[i]]
        0 <= i < listing.len() ==> dir.record_at(listing[i].name@) is Some && describes(
            listing[i],
            listing[i].name@,
            dir.record_at(listing[i].name@).unwrap().0,
        )
    &&& forall|s: Seq<char>|
        #[trigger] dir.record_at(s) is Some ==> exists|i: int|
            0 <= i < listing.len() && listing[i].name@ == s
    &&& forall|i: int, j: int|
        #![trigger listing[i], listing[j]]
        0 <= i < j < listing.len() ==> shortlex_lt(listing[i].name@, listing[j].name@)
}

/// The bytes a read of `n` bytes of `file` from `offset` leaves in a buffer
/// that held `old`, from position `start` on.
pub open spec fn read_result(old: Seq<u8>, file: Seq<u8>, offset: int, start: int, n: int) -> Seq<u8> {
    old.subrange(0, start) + file.subrange(offset, offset + n) + old.subrange(start + n, old.len() as int)
}

/// The smaller of two integers.
pub open spec fn min_int(a: int, b: int) -> int {
    if a <= b {
        a
    } else {
        b
    }
}

/// The outcome of copying the file at `src` into a buffer that held
/// `old_dest` and holds `new_dest` afterwards. Where `output_offset` lies
/// inside the buffer and the file stored at `src` extends past
/// `input_offset`, the buffer from `output_offset` on, for `size` bytes or up
/// to its end, holds the file's bytes from `input_offset` and zeros past the
/// file's end, and their count is returned; otherwise the copy fails and the
/// buffer is unchanged.
pub open spec fn copy_outcome(
    tree: PathPrefixTree<Entry>,
    src: Seq<Seq<char>>,
    old_dest: Seq<u8>,
    new_dest: Seq<u8>,
    input_offset: u64,
    output_offset: u64,
    size: u64,
    r: Result<u64, ()>,
) -> bool {
    let i = input_offset as usize as int;
    let o = output_offset as usize as int;
    let len = old_dest.len() as int;
    let limit = min_int(len, o + (size as usize as int));
    if len <= o {
        r is Err && new_dest == old_dest
    } else {
        match file_data(tree, src) {
            Some(f) => if i < f.len() {
                let n = min_int(limit - o, f.len() - i);
                r == Ok::<u64, ()>((limit - o) as u64) && new_dest == old_dest.subrange(0, o)
                    + f.subrange(i, i + n) + Seq::new((limit - o - n) as nat, |t: int| 0u8)
                    + old_dest.subrange(limit, len)
            } else {
                r is Err && new_dest == old_dest
            },
            None => r is Err && new_dest == old_dest,
        }
    }
}

/// Every path of components that leads to `path` holds a directory.
pub open spec fn ancestors_are_dirs(tree: PathPrefixTree<Entry>, path: Seq<Seq<char>>) -> bool {
    forall|p: Seq<Seq<char>>|
        #![trigger tree.get_comps(p)]
        p.len() > 0 && is_proper_prefix(p, path) ==> tree.get_comps(p) == Some(Entry { data: None })
}

/// A tree stored around `path` holds directories on the way to it.
proof fn lemma_stored_dirs(before: PathPrefixTree<Entry>, after: PathPrefixTree<Entry>, path: Seq<Seq<char>>)
    requires
        stored_around(before, after, path),
    ensures
        ancestors_are_dirs(after, path),
{
    assert forall|p: Seq<Seq<char>>|
        #![trigger after.get_comps(p)]
        p.len() > 0 && is_proper_prefix(p, path) implies after.get_comps(p) == Some(Entry { data: None }) by {
        let v = after.get_comps(p).unwrap();
        assert(call_ensures(Entry::default, (), v));
    }
}

impl MemoryFilesystem {
    /// The path prefix tree that holds the filesystem.
    pub closed spec fn tree(&self) -> PathPrefixTree<Entry> {
        self.0
    }

    /// Creates a directory at `path`, and makes every path that leads to it
    /// a directory.
    pub fn mkdir(&mut self, path: PathRef)
        ensures
            path.spec_is_root() ==> final(self).tree().get_comps(Seq::empty()) == Some(
                Entry { data: None },
            ),
            !path.spec_is_root() && path@.len() > 0 ==> final(self).tree().get_comps(path@) == Some(
                Entry { data: None },
            ),
            !path.spec_is_root() && path@.len() > 0 ==> stored_around(old(self).tree(), final(self).tree(), path@),
            !path.spec_is_root() && path@.len() > 0 ==> ancestors_are_dirs(final(self).tree(), path@),
            path.spec_is_root() ==> forall|p: Seq<Seq<char>>|
                #![trigger final(self).tree().get_comps(p)]
                p.len() > 0 && p[0].len() > 0 ==> final(self).tree().get_comps(p) == old(self).tree().get_comps(p),
            !path.spec_is_root() && path@.len() == 0 ==> final(self).tree() == old(self).tree(),
    {
        self.0.insert_path(path, Entry { data: None });
        proof {
            if !path.spec_is_root() && path@.len() > 0 {
                lemma_stored_dirs(old(self).tree(), self.tree(), path@);
            }
        }
    }

    /// Creates an empty file at `path`, and makes every path that leads to
    /// it a directory.
    pub fn touch(&mut self, path: PathRef)
        ensures
            path.spec_is_root() ==> file_data(final(self).tree(), Seq::empty()) == Some(
                Seq::<u8>::empty(),
            ),
            !path.spec_is_root() && path@.len() > 0 ==> file_data(final(self).tree(), path@) == Some(
                Seq::<u8>::empty(),
            ),
            !path.spec_is_root() && path@.len() > 0 ==> stored_around(old(self).tree(), final(self).tree(), path@),
            !path.spec_is_root() && path@.len() > 0 ==> ancestors_are_dirs(final(self).tree(), path@),
            path.spec_is_root() ==> forall|p: Seq<Seq<char>>|
                #![trigger final(self).tree().get_comps(p)]
                p.len() > 0 && p[0].len() > 0 ==> final(self).tree().get_comps(p) == old(self).tree().get_comps(p),
            !path.spec_is_root() && path@.len() == 0 ==> final(self).tree() == old(self).tree(),
    {
        let empty: [u8; 0] = [];
        self.create(path, &empty);
        proof {
            assert(empty@ =~= Seq::<u8>::empty());
        }
    }

    /// Creates a file at `path` that holds `data`, and makes every path that
    /// leads to it a directory.
    pub fn create(&mut self, path: PathRef, data: &[u8])
        ensures
            path.spec_is_root() ==> file_data(final(self).tree(), Seq::empty()) == Some(data@),
            !path.spec_is_root() && path@.len() > 0 ==> file_data(final(self).tree(), path@) == Some(
                data@,
            ),
            !path.spec_is_root() && path@.len() > 0 ==> stored_around(old(self).tree(), final(self).tree(), path@),
            !path.spec_is_root() && path@.len() > 0 ==> ancestors_are_dirs(final(self).tree(), path@),
            path.spec_is_root() ==> forall|p: Seq<Seq<char>>|
                #![trigger final(self).tree().get_comps(p)]
                p.len() > 0 && p[0].len() > 0 ==> final(self).tree().get_comps(p) == old(self).tree().get_comps(p),
            !path.spec_is_root() && path@.len() == 0 ==> final(self).tree() == old(self).tree(),
    {
        let contents = vstd::slice::slice_to_vec(data);
        self.0.insert_path(path, Entry { data: Some(contents) });
        proof {
            if !path.spec_is_root() && path@.len() > 0 {
                lemma_stored_dirs(old(self).tree(), self.tree(), path@);
            }
        }
    }

    /// The entries of the directory at `path`, in shortlex order of their
    /// names; `None` where no directory of that path is stored.
    pub fn lsdir(&self, path: PathRef) -> (r: Option<Vec<FileEntry>>)
        ensures
            match self.tree().subdir_comps(path@) {
                Some(dir) => r matches Some(v) && lists_dir(dir, v@),
                None => r is None,
            },
    {
        let dir = match self.0.lookup_subdir(path) {
            Some(d) => d,
            None => return None,
        };
        let entries = dir.iter().collect_entries();
        proof {
            assert(lists_sorted(*dir, entries@));
        }
        let mut out: Vec<FileEntry> = Vec::new();
        let mut k: usize = 0;
        while k < entries.len()
            invariant
                k <= entries@.len(),
                out@.len() == k,
                forall|i: int|
                    #![trigger out@[i]]
                    0 <= i < k ==> describes(out@[i], entries@[i].0@, *entries@[i].1),
            decreases entries@.len() - k,
        {
            let name = entries[k].0.clone();
            let entry: &Entry = entries[k].1;
            let (file_type, len) = match &entry.data {
                Some(d) => (FileType::File, d.len() as u64),
                None => (FileType::Directory, 0u64),
            };
            out.push(FileEntry { name, file_type, len });
            k = k + 1;
        }
        proof {
            let listing = out@;
            assert forall|i: int|
                #![trigger listing[i]]
                0 <= i < listing.len() implies dir.record_at(listing[i].name@) is Some && describes(
                listing[i],
                listing[i].name@,
                dir.record_at(listing[i].name@).unwrap().0,
            ) by {
                assert(entries@[i].0@ == listing[i].name@);
            }
            assert forall|s: Seq<char>| #[trigger] dir.record_at(s) is Some implies exists|i: int|
                0 <= i < listing.len() && listing[i].name@ == s by {
                let i = choose|i: int| 0 <= i < entries@.len() && entries@[i].0@ == s;
                assert(listing[i].name@ == entries@[i].0@);
            }
            assert forall|i: int, j: int|
                #![trigger listing[i], listing[j]]
                0 <= i < j < listing.len() implies shortlex_lt(listing[i].name@, listing[j].name@) by {
                assert(listing[i].name@ == entries@[i].0@);
                assert(listing[j].name@ == entries@[j].0@);
            }
        }
        Some(out)
    }

    /// Copies bytes of the file at `path`, from `offset` on, into
    /// `buffer[start..end]`; returns how many.
    fn read_into(&self, path: PathRef, offset: usize, buffer: &mut [u8], start: usize, end: usize) -> (r:
        Option<usize>)
        requires
            start <= end <= old(buffer)@.len(),
        ensures
            match file_data(self.tree(), path@) {
                Some(f) => if offset < f.len() {
                    let n = min_int(end - start, f.len() - offset);
                    r == Some(n as usize) && final(buffer)@ == read_result(
                        old(buffer)@,
                        f,
                        offset as int,
                        start as int,
                        n,
                    )
                } else {
                    r is None && final(buffer)@ == old(buffer)@
                },
                None => r is None && final(buffer)@ == old(buffer)@,
            },
    {
        let entry = match self.0.get(path) {
            Some(e) => e,
            None => return None,
        };
        let file = match &entry.data {
            Some(d) => d,
            None => return None,
        };
        if offset >= file.len() {
            return None;
        }
        let avail = file.len() - offset;
        let size = if end - start < avail {
            end - start
        } else {
            avail
        };
        let ghost before = buffer@;
        let flen = file.len();
        let mut k: usize = 0;
        while k < size
            invariant
                size <= end - start,
                start <= end <= before.len(),
                flen == file@.len(),
                offset + size <= flen,
                k <= size,
                buffer@.len() == before.len(),
                forall|t: int| 0 <= t < start ==> buffer@[t] == before[t],
                forall|t: int| start <= t < start + k ==> buffer@[t] == file@[offset + t - start],
                forall|t: int| start + k <= t < before.len() ==> buffer@[t] == before[t],
            decreases size - k,
        {
            buffer[start + k] = file[offset + k];
            k = k + 1;
        }
        proof {
            assert(buffer@ =~= read_result(before, file@, offset as int, start as int, size as int));
        }
        Some(size)
    }

    /// Reads the file at `path` from `offset` into `buffer`; returns how many
    /// bytes were read. `None` where no file is stored at `path`, or where
    /// `offset` is not before its end.
    pub fn read(&self, path: PathRef, offset: usize, buffer: &mut [u8]) -> (r: Option<usize>)
        ensures
            match file_data(self.tree(), path@) {
                Some(f) => if offset < f.len() {
                    let n = min_int(old(buffer)@.len() as int, f.len() - offset);
                    r == Some(n as usize) && final(buffer)@ == read_result(
                        old(buffer)@,
                        f,
                        offset as int,
                        0,
                        n,
                    )
                } else {
                    r is None && final(buffer)@ == old(buffer)@
                },
                None => r is None && final(buffer)@ == old(buffer)@,
            },
    {
        let len = buffer.len();
        self.read_into(path, offset, buffer, 0, len)
    }

    /// Copies the file at `src`, from `input_offset` on, into `dest` at
    /// `output_offset`: `size` bytes, or as many as `dest` holds after
    /// `output_offset`; what lies past the end of the file is filled with
    /// zeros. Returns how many bytes of `dest` were written; fails where
    /// `output_offset` is not inside `dest`, no file is stored at `src`, or
    /// `input_offset` is not before its end.
    pub fn copy_file_in_impl(
        &self,
        src: PathRef,
        dest: &mut [u8],
        input_offset: u64,
        output_offset: u64,
        size: u64,
    ) -> (r: Result<u64, ()>)
        ensures
            copy_outcome(self.tree(), src@, old(dest)@, final(dest)@, input_offset, output_offset, size, r),
    {
        let input_offset = input_offset as usize;
        let output_offset = output_offset as usize;
        let size = size as usize;
        if dest.len() <= output_offset {
            return Err(());
        }
        let reach = output_offset.saturating_add(size);
        let limit = if dest.len() < reach {
            dest.len()
        } else {
            reach
        };
        let ghost before = dest@;
        let bytes_read = match self.read_into(src, input_offset, dest, output_offset, limit) {
            Some(n) => n,
            None => return Err(()),
        };
        let ghost after_read = dest@;
        let mut k: usize = output_offset + bytes_read;
        while k < limit
            invariant
                output_offset + bytes_read <= k <= limit,
                limit <= before.len(),
                dest@.len() == before.len(),
                forall|t: int| 0 <= t < output_offset + bytes_read ==> dest@[t] == after_read[t],
                forall|t: int| output_offset + bytes_read <= t < k ==> dest@[t] == 0u8,
                forall|t: int| k <= t < before.len() ==> dest@[t] == after_read[t],
            decreases limit - k,
        {
            dest[k] = 0;
            k = k + 1;
        }
        proof {
            let o = output_offset as int;
            let n = bytes_read as int;
            let i = input_offset as int;
            let f = file_data(self.tree(), src@)->0;
            assert(i < f.len());
            assert(n == min_int(limit - o, f.len() - i));
            assert(after_read == read_result(before, f, i, o, n));
            let expected = before.subrange(0, o) + f.subrange(i, i + n)
                + Seq::new((limit - o - n) as nat, |t: int| 0u8) + before.subrange(limit as int, before.len() as int);
            assert(expected.len() == dest@.len());
            let a = before.subrange(0, o);
            let b = f.subrange(i, i + n);
            let c = Seq::new((limit - o - n) as nat, |t: int| 0u8);
            let d = before.subrange(limit as int, before.len() as int);
            assert(expected == a + b + c + d);
            assert forall|t: int| 0 <= t < dest@.len() implies dest@[t] == expected[t] by {
                if t < o {
                    assert(expected[t] == a[t]);
                    assert(after_read[t] == before[t]);
                } else if t < o + n {
                    assert(expected[t] == b[t - o]);
                    assert(after_read[t] == f[i + t - o]);
                } else if t < limit {
                    assert(expected[t] == c[t - o - n]);
                } else {
                    assert(expected[t] == d[t - limit]);
                    assert(after_read[t] == before[t]);
                }
            }
            assert(dest@ =~= expected);
        }
        Ok((limit - output_offset) as u64)
    }
}

/// The directories of a memory filesystem are the subtrees stored at their
/// paths, listed as `lists_dir` says.
impl DirModel for MemoryFilesystem {
    open spec fn obeys_dir_model() -> bool {
        true
    }

    open spec fn dir_exists(&self, path: Seq<Seq<char>>) -> bool {
        self.tree().subdir_comps(path) is Some
    }

    open spec fn lists(&self, path: Seq<Seq<char>>, listing: Seq<FileEntry>) -> bool {
        self.tree().subdir_comps(path) matches Some(dir) && lists_dir(dir, listing)
    }
}

impl FilesystemHierarchy for MemoryFilesystem {
    type Error = ();

    fn read_dir(&mut self, path: PathRef) -> (r: Result<Vec<FileEntry>, ()>)
        ensures
            match old(self).tree().subdir_comps(path@) {
                Some(dir) => r matches Ok(v) && lists_dir(dir, v@),
                None => r is Err,
            },
            final(self).tree() == old(self).tree(),
    {
        match self.lsdir(path) {
            Some(v) => Ok(v),
            None => Err(()),
        }
    }
}

/// A successful copy, where offsets and sizes fit in `usize` unchanged,
/// leaves in the buffer what `copied_file` says of the stored file.
proof fn lemma_copy_outcome_copied(
    tree: PathPrefixTree<Entry>,
    src: Seq<Seq<char>>,
    old_dest: Seq<u8>,
    new_dest: Seq<u8>,
    input_offset: u64,
    output_offset: u64,
    size: u64,
    r: Result<u64, ()>,
)
    requires
        usize::BITS == 64,
        r is Ok,
        copy_outcome(tree, src, old_dest, new_dest, input_offset, output_offset, size, r),
    ensures
        file_data(tree, src) matches Some(f) && new_dest == copied_file(
            old_dest,
            f,
            input_offset as int,
            output_offset as int,
            size as int,
        ),
{
    assert(input_offset as usize as int == input_offset as int);
    assert(output_offset as usize as int == output_offset as int);
    assert(size as usize as int == size as int);
    let f = file_data(tree, src).unwrap();
    let i = input_offset as int;
    let o = output_offset as int;
    let len = old_dest.len() as int;
    let limit = min_int(len, o + size);
    let n = min_int(limit - o, f.len() - i);
    let c = copied_file(old_dest, f, i, o, size as int);
    assert(new_dest =~= c) by {
        assert forall|t: int| 0 <= t < len implies new_dest[t] == c[t] by {
            if t < o {
            } else if t < o + n {
            } else if t < limit {
            } else {
            }
        }
    }
}

/// A file reads back as it was created: copying the whole of a stored
/// file from its start into a buffer of its length fills the buffer with
/// its bytes and reports them all copied.
pub proof fn law_read_after_create(
    tree: PathPrefixTree<Entry>,
    path: Seq<Seq<char>>,
    data: Seq<u8>,
    old_dest: Seq<u8>,
    new_dest: Seq<u8>,
    r: Result<u64, ()>,
)
    requires
        file_data(tree, path) == Some(data),
        0 < data.len() <= usize::MAX,
        old_dest.len() == data.len(),
        copy_outcome(tree, path, old_dest, new_dest, 0, 0, data.len() as u64, r),
    ensures
        r == Ok::<u64, ()>(data.len() as u64),
        new_dest == data,
{
    assert((data.len() as u64) as usize as int == data.len());
    assert(new_dest =~= data);
}

/// A created file is listed in its directory: where the file at `cs`
/// followed by `name` holds `data`, the directory `cs` exists, and every
/// listing of it names the file, as a file of the length of `data`.
pub proof fn law_created_file_listed(
    tree: PathPrefixTree<Entry>,
    cs: Seq<Seq<char>>,
    name: Seq<char>,
    data: Seq<u8>,
)
    requires
        file_data(tree, cs.push(name)) == Some(data),
    ensures
        tree.subdir_comps(cs) is Some,
        forall|listing: Seq<FileEntry>|
            #[trigger] lists_dir(tree.subdir_comps(cs).unwrap(), listing) ==> exists|i: int|
                0 <= i < listing.len() && listing[i].name@ == name && listing[i].file_type == FileType::File
                    && listing[i].len == data.len(),
{
    lemma_child_record(tree, cs, name);
    let dir = tree.subdir_comps(cs).unwrap();
    assert forall|listing: Seq<FileEntry>| #[trigger] lists_dir(dir, listing) implies exists|i: int|
        0 <= i < listing.len() && listing[i].name@ == name && listing[i].file_type == FileType::File
            && listing[i].len == data.len() by {
        assert(dir.record_at(name) is Some);
        let i = choose|i: int| 0 <= i < listing.len() && listing[i].name@ == name;
        assert(describes(listing[i], listing[i].name@, dir.record_at(listing[i].name@).unwrap().0));
    }
}

/// The files of a memory filesystem are the data stored at their paths;
/// its copies follow them where offsets fit in `usize`.
impl FileModel for MemoryFilesystem {
    open spec fn obeys_file_model() -> bool {
        usize::BITS == 64
    }

    open spec fn file_model(&self, path: Seq<Seq<char>>) -> Option<Seq<u8>> {
        file_data(self.tree(), path)
    }
}

impl FilesystemCopier<[u8]> for MemoryFilesystem {
    type Error = ();

    fn copy_file_in(
        &mut self,
        src: PathRef,
        dest: &mut [u8],
        input_offset: u64,
        output_offset: u64,
        size: u64,
    ) -> (r: Result<u64, ()>)
        ensures
            final(self).tree() == old(self).tree(),
            copy_outcome(old(self).tree(), src@, old(dest)@, final(dest)@, input_offset, output_offset, size, r),
    {
        let r = self.copy_file_in_impl(src, dest, input_offset, output_offset, size);
        proof {
            if usize::BITS == 64 && r is Ok {
                lemma_copy_outcome_copied(
                    self.tree(),
                    src@,
                    old(dest)@,
                    dest@,
                    input_offset,
                    output_offset,
                    size,
                    r,
                );
            }
        }
        r
    }
}

impl FilesystemCopier<NullBlockDevice> for MemoryFilesystem {
    type Error = ();

    /// Records the size of the copy on the device, which keeps no data.
    fn copy_file_in(
        &mut self,
        src: PathRef,
        dest: &mut NullBlockDevice,
        input_offset: u64,
        output_offset: u64,
        size: u64,
    ) -> (r: Result<u64, ()>)
        ensures
            r == Ok::<u64, ()>(size),
            final(self).tree() == old(self).tree(),
            final(dest).spec_len() == (if old(dest).spec_len() >= output_offset + size {
                old(dest).spec_len() as int
            } else if output_offset + size <= u64::MAX {
                output_offset + size
            } else {
                u64::MAX as int
            }),
    {
        dest.write_size_adjustment(output_offset, size);
        Ok(size)
    }
}

} // verus!
