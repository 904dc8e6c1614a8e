//! Coalescing of file reads: consecutive sectors of one file are gathered
//! into a single pending read, which is issued when a read that does not
//! continue it comes, or when the reads are committed.
use vstd::prelude::*;

use crate::fs::FilesystemCopier;
use crate::path::pathref::{pathvec_of, PathRef};
use crate::path::pathvec::PathVec;

verus! {

/// A read that has been gathered but not issued: `size` bytes of the file
/// at `path` from byte `offset` on, to be placed in the buffer from
/// `index` on. `prev_sector_idx` is the last sector of the file that it
/// covers.
#[derive(Debug)]
pub struct DeferredFileReadInner {
    pub path: PathVec,
    pub index: usize,
    pub offset: u64,
    pub size: u64,
    pub prev_sector_idx: u64,
}

/// At most one pending read.
#[derive(Debug)]
pub struct DeferredFileRead(pub Option<DeferredFileReadInner>);

impl Default for DeferredFileRead {
    fn default() -> (r: Self)
        ensures
            r.0 is None,
    {
        DeferredFileRead(None)
    }
}

impl DeferredFileRead {
    /// The pending read, if any, lies within a buffer of `len` bytes.
    pub open spec fn fits(&self, len: int) -> bool {
        self.0 matches Some(d) ==> d.index + d.size <= len
    }

    /// A read of sector `sector_idx` of the file at `path` continues the
    /// pending read: same file, next sector.
    pub open spec fn continues(&self, path: PathRef, sector_idx: u64) -> bool {
        self.0 matches Some(d) && path@ == PathRef::PathVec(&d.path)@ && d.prev_sector_idx + 1 == sector_idx
    }

    /// Issues the pending read, if any: the file's bytes are copied by `fs`
    /// into the part of `buffer` that the read covers, and nothing is
    /// pending afterwards. Where `fs` fails, its error is returned and the
    /// read stays pending. The rest of `buffer` is left as it was. Where the
    /// filesystem describes its files, the covered part then holds the
    /// file's bytes from the read's offset on, zeros past the file's end.
    pub fn commit<F: FilesystemCopier<[u8]>>(&mut self, fs: &mut F, buffer: &mut [u8]) -> (r: Result<
        (),
        F::Error,
    >)
        requires
            old(self).fits(old(buffer)@.len() as int),
        ensures
            final(buffer)@.len() == old(buffer)@.len(),
            old(self).0 is None ==> r is Ok && *final(self) == *old(self) && final(buffer)@ == old(buffer)@,
            old(self).0 matches Some(d) ==> {
                &&& forall|u: int|
                    0 <= u < old(buffer)@.len() && !(d.index <= u < d.index + d.size) ==> #[trigger] final(buffer)@[u] == old(buffer)@[u]
                &&& r is Ok ==> final(self).0 is None
                &&& r is Err ==> *final(self) == *old(self)
                &&& F::obeys_file_model() && r is Ok ==> (old(fs).file_model(PathRef::PathVec(&d.path)@) matches Some(f)
                    && forall|u: int|
                    d.index <= u < d.index + d.size ==> #[trigger] final(buffer)@[u] == if d.offset + (u - d.index)
                        < f.len() {
                        f[d.offset + (u - d.index)]
                    } else {
                        0u8
                    })
            },
    {
        let d = match &self.0 {
            None => return Ok(()),
            Some(d) => d,
        };
        let index = d.index;
        let size = d.size;
        let blen = buffer.len();
        let limit = index + size as usize;
        let mut part = vstd::slice::slice_to_vec(vstd::slice::slice_subrange(&*buffer, index, limit));
        let ghost part0 = part@;
        let ghost offset = d.offset;
        let ghost src = PathRef::PathVec(&d.path)@;
        let copied = fs.copy_file_in(PathRef::PathVec(&d.path), part.as_mut_slice(), d.offset, 0, size);
        match copied {
            Ok(_) => {},
            Err(e) => return Err(e),
        }
        proof {
            if F::obeys_file_model() {
                assert(part0.len() == size);
                assert(part@.len() == size);
            }
        }
        let n = if part.len() < size as usize {
            part.len()
        } else {
            size as usize
        };
        let ghost before = buffer@;
        let mut k: usize = 0;
        while k < n
            invariant
                k <= n,
                n <= part@.len(),
                index + n <= blen,
                blen == before.len(),
                buffer@.len() == before.len(),
                forall|u: int|
                    0 <= u < before.len() && !(index <= u < index + n) ==> #[trigger] buffer@[u] == before[u],
                forall|u: int| index <= u < index + k ==> #[trigger] buffer@[u] == part@[u - index],
            decreases n - k,
        {
            buffer[index + k] = part[k];
            k = k + 1;
        }
        proof {
            if F::obeys_file_model() {
                let f = old(fs).file_model(src)->Some_0;
                assert forall|u: int| index <= u < index + size implies #[trigger] buffer@[u] == if offset + (u
                    - index) < f.len() {
                    f[offset + (u - index)]
                } else {
                    0u8
                } by {
                    assert(buffer@[u] == part@[u - index]);
                }
            }
        }
        self.0 = None;
        Ok(())
    }

    /// Records a read of `to_read` bytes of sector `sector_idx` of the file
    /// at `path`, whose sectors start at byte `position` of the file, into
    /// `buffer` from `buffer_idx` on. A read that continues the pending one
    /// extends it; any other read first commits the pending one, then
    /// becomes the pending read. Where that commit fails, its error is
    /// returned and nothing else changes.
    pub fn push_file<F: FilesystemCopier<[u8]>>(
        &mut self,
        fs: &mut F,
        buffer: &mut [u8],
        path: PathRef,
        sector_idx: u64,
        to_read: u64,
        buffer_idx: usize,
        position: u64,
    ) -> (r: Result<(), F::Error>)
        requires
            old(self).0 matches Some(d) ==> d.prev_sector_idx + 1 <= u64::MAX,
            old(self).continues(path, sector_idx) ==> old(self).0->0.size + to_read <= u64::MAX,
            !old(self).continues(path, sector_idx) ==> {
                &&& old(self).fits(old(buffer)@.len() as int)
                &&& position + sector_idx * 2048 <= u64::MAX
            },
        ensures
            final(buffer)@.len() == old(buffer)@.len(),
            old(self).continues(path, sector_idx) ==> {
                let d = old(self).0->0;
                &&& r is Ok
                &&& final(buffer)@ == old(buffer)@
                &&& (final(self).0 matches Some(n) && n == (DeferredFileReadInner {
                    size: (d.size + to_read) as u64,
                    prev_sector_idx: sector_idx,
                    ..d
                }))
            },
            !old(self).continues(path, sector_idx) ==> {
                &&& old(self).0 matches Some(d) ==> forall|u: int|
                    0 <= u < old(buffer)@.len() && !(d.index <= u < d.index + d.size) ==> #[trigger] final(buffer)@[u] == old(buffer)@[u]
                &&& old(self).0 matches Some(d) ==> (F::obeys_file_model() && r is Ok ==> (old(fs).file_model(
                    PathRef::PathVec(&d.path)@,
                ) matches Some(f) && forall|u: int|
                    d.index <= u < d.index + d.size ==> #[trigger] final(buffer)@[u] == if d.offset + (u - d.index)
                        < f.len() {
                        f[d.offset + (u - d.index)]
                    } else {
                        0u8
                    }))
                &&& old(self).0 is None ==> final(buffer)@ == old(buffer)@
                &&& r is Err ==> *final(self) == *old(self)
                &&& r is Ok ==> (final(self).0 matches Some(n) && n.path@ == pathvec_of(path) && n.index
                    == buffer_idx && n.offset == position + sector_idx * 2048 && n.size == to_read
                    && n.prev_sector_idx == sector_idx)
            },
    {
        let extend = match &self.0 {
            Some(d) => path == PathRef::PathVec(&d.path) && d.prev_sector_idx + 1 == sector_idx,
            None => false,
        };
        if extend {
            match &mut self.0 {
                Some(d) => {
                    d.size = d.size + to_read;
                    d.prev_sector_idx = sector_idx;
                },
                None => {},
            }
            return Ok(());
        }
        match self.commit(fs, buffer) {
            Ok(()) => {},
            Err(e) => return Err(e),
        }
        self.0 = Some(
            DeferredFileReadInner {
                path: path.to_pathvec(),
                index: buffer_idx,
                offset: position + sector_idx * 2048,
                size: to_read,
                prev_sector_idx: sector_idx,
            },
        );
        Ok(())
    }
}

} // verus!
