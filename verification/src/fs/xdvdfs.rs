//! Copying data between block devices, as an image that is read back is
//! copied into a new one.
use vstd::prelude::*;

use core::convert::Infallible;
use core::marker::PhantomData;

use crate::blockdev::{lemma_read_within, written, BlockDeviceRead, BlockDeviceWrite, DeviceAccess, DeviceModel, NullBlockDevice};

verus! {

/// Why a copy between block devices failed: the source could not be read,
/// or the destination could not be written.
#[derive(Debug, PartialEq, Eq)]
pub enum XDVDFSFilesystemError<ReadErr, WriteErr> {
    BlockDevReadErr(ReadErr),
    BlockDevWriteErr(WriteErr),
}

/// Copies ranges of bytes from one block device to another.
pub trait RWCopier<R: BlockDeviceRead + ?Sized, W: BlockDeviceWrite + ?Sized>: Default {
    /// Copies `size` bytes of `src` from `offset_in` on to `dest` from
    /// `offset_out` on; returns how many bytes were copied.
    fn copy(&mut self, offset_in: u64, offset_out: u64, size: u64, src: &mut R, dest: &mut W) -> Result<
        u64,
        XDVDFSFilesystemError<R::ReadError, W::WriteError>,
    >
        requires
            offset_in + size <= u64::MAX,
            offset_out + size <= u64::MAX,
    ;
}

/// Copies through a buffer of fixed size, one buffer's worth at a time.
pub struct DefaultCopier<R: ?Sized, W: ?Sized> {
    buffer: Vec<u8>,
    r_type: PhantomData<R>,
    w_type: PhantomData<W>,
}

impl<R: ?Sized, W: ?Sized> DefaultCopier<R, W> {
    /// The buffer is never empty, so that every step of a copy advances.
    #[verifier::type_invariant]
    spec fn buffer_not_empty(self) -> bool {
        self.buffer@.len() > 0
    }

    /// The size of the buffer a copy goes through.
    pub closed spec fn buffer_size(self) -> nat {
        self.buffer@.len()
    }

    /// A copier whose buffer holds `buffer_size` bytes.
    pub fn with_buffer_size(buffer_size: usize) -> (r: Self)
        requires
            buffer_size > 0,
        ensures
            r.buffer_size() == buffer_size,
    {
        DefaultCopier { buffer: vec![0u8; buffer_size], r_type: PhantomData, w_type: PhantomData }
    }
}

impl<R: ?Sized, W: ?Sized> Default for DefaultCopier<R, W> {
    /// A copier with a buffer of one mebibyte.
    fn default() -> (r: Self)
        ensures
            r.buffer_size() == 1024 * 1024,
    {
        Self::with_buffer_size(1024 * 1024)
    }
}

/// Writing `a` and then `b` right after it writes `a + b`.
proof fn lemma_written_twice(m: Seq<u8>, o: int, a: Seq<u8>, b: Seq<u8>)
    ensures
        written(written(m, o, a), o + a.len(), b) == written(m, o, a + b),
{
    assert(written(written(m, o, a), o + a.len(), b) =~= written(m, o, a + b));
}

/// The accesses of a copy of `size` bytes from `offset` on through a buffer
/// of `b` bytes, in order: a buffer's worth at a time, the last piece what
/// remains; writes where `write` holds, reads otherwise.
pub open spec fn copy_chunks(write: bool, offset: int, size: int, b: int) -> Seq<DeviceAccess>
    decreases size,
{
    if size <= 0 || b <= 0 {
        Seq::empty()
    } else {
        let n = if b < size { b } else { size };
        seq![(write, offset as u64, n as nat)] + copy_chunks(write, offset + n, size - n, b)
    }
}

/// After whole buffers of `b` bytes, one more piece of `t` bytes, at most a
/// buffer's worth, is the next access.
proof fn lemma_copy_chunks_step(write: bool, offset: int, copied: int, t: int, b: int)
    requires
        b > 0,
        copied >= 0,
        copied % b == 0,
        0 < t <= b,
    ensures
        copy_chunks(write, offset, copied + t, b) == copy_chunks(write, offset, copied, b).push(
            (write, (offset + copied) as u64, t as nat),
        ),
    decreases copied,
{
    if copied == 0 {
        assert(copy_chunks(write, offset + t, 0, b) == Seq::<DeviceAccess>::empty());
        assert(copy_chunks(write, offset, 0, b) == Seq::<DeviceAccess>::empty());
        assert(copy_chunks(write, offset, t, b) =~= seq![(write, offset as u64, t as nat)]);
    } else {
        assert(copied >= b) by (nonlinear_arith)
            requires
                copied % b == 0,
                copied > 0,
                b > 0,
        ;
        assert((copied - b) % b == 0) by (nonlinear_arith)
            requires
                copied % b == 0,
                copied >= b,
                b > 0,
        ;
        lemma_copy_chunks_step(write, offset + b, copied - b, t, b);
        assert(copy_chunks(write, offset, copied + t, b) =~= seq![(write, offset as u64, b as nat)] + copy_chunks(
            write,
            offset + b,
            copied - b + t,
            b,
        ));
        assert(copy_chunks(write, offset, copied, b) =~= seq![(write, offset as u64, b as nat)] + copy_chunks(
            write,
            offset + b,
            copied - b,
            b,
        ));
        assert(offset + b + (copied - b) == offset + copied);
        assert(copy_chunks(write, offset, copied + t, b) =~= copy_chunks(write, offset, copied, b).push(
            (write, (offset + copied) as u64, t as nat),
        ));
    }
}

/// `dest`'s bytes after a copy of `size` bytes of `src` from `offset_in`
/// to `offset_out`.
pub open spec fn copied_bytes(dest: Seq<u8>, offset_out: int, src: Seq<u8>, offset_in: int, size: int) -> Seq<u8> {
    written(dest, offset_out, src.subrange(offset_in, offset_in + size))
}

/// Copies `size` bytes of `src` from `offset_in` on to `dest` from
/// `offset_out` on through `buffer`, one buffer's worth at a time; the last
/// piece is what remains. Stops at the first error of either device.
fn copy_through<R: BlockDeviceRead + ?Sized, W: BlockDeviceWrite + ?Sized>(
    buffer: &mut Vec<u8>,
    offset_in: u64,
    offset_out: u64,
    size: u64,
    src: &mut R,
    dest: &mut W,
) -> (r: Result<u64, XDVDFSFilesystemError<R::ReadError, W::WriteError>>)
    requires
        old(buffer)@.len() > 0,
        offset_in + size <= u64::MAX,
        offset_out + size <= u64::MAX,
    ensures
        r matches Ok(n) ==> n == size,
        size == 0 ==> (r matches Ok(n) && n == 0),
        final(buffer)@.len() == old(buffer)@.len(),
        R::obeys_model() ==> final(src).model() == old(src).model(),
        R::obeys_model() && W::obeys_model() && r is Ok && offset_in + size <= old(
            src,
        ).model().len() ==> final(dest).model() == copied_bytes(
            old(dest).model(),
            offset_out as int,
            old(src).model(),
            offset_in as int,
            size as int,
        ),
        R::obeys_access_log() && r is Ok ==> final(src).access_log() == old(src).access_log() + copy_chunks(
            false,
            offset_in as int,
            size as int,
            old(buffer)@.len() as int,
        ),
        W::obeys_access_log() && r is Ok ==> final(dest).access_log() == old(dest).access_log() + copy_chunks(
            true,
            offset_out as int,
            size as int,
            old(buffer)@.len() as int,
        ),
{
    let ghost r0 = src.model();
    let ghost w0 = dest.model();
    let ghost lr0 = src.access_log();
    let ghost lw0 = dest.access_log();
    let buf_size = buffer.len() as u64;
    let mut copied: u64 = 0;
    proof {
        if offset_in <= r0.len() {
            assert(written(w0, offset_out as int, r0.subrange(offset_in as int, offset_in as int)) =~= w0);
        }
    }
    while copied < size
        invariant
            copied <= size,
            offset_in + size <= u64::MAX,
            offset_out + size <= u64::MAX,
            buf_size > 0,
            buf_size <= usize::MAX,
            buffer@.len() == buf_size,
            buf_size == old(buffer)@.len(),
            r0 == old(src).model(),
            w0 == old(dest).model(),
            R::obeys_model() ==> src.model() == r0,
            R::obeys_model() && W::obeys_model() && offset_in + size <= r0.len() ==> dest.model()
                == copied_bytes(w0, offset_out as int, r0, offset_in as int, copied as int),
            lr0 == old(src).access_log(),
            lw0 == old(dest).access_log(),
            copied % buf_size == 0 || copied == size,
            R::obeys_access_log() ==> src.access_log() == lr0 + copy_chunks(false, offset_in as int, copied as int, buf_size as int),
            W::obeys_access_log() ==> dest.access_log() == lw0 + copy_chunks(true, offset_out as int, copied as int, buf_size as int),
        decreases size - copied,
    {
        let ghost before = dest.model();
        let ghost lr1 = src.access_log();
        let ghost lw1 = dest.access_log();
        let to_copy = if buf_size < size - copied {
            buf_size
        } else {
            size - copied
        };
        if to_copy == buf_size {
            let ghost old_buf = buffer@;
            match src.read(offset_in + copied, buffer.as_mut_slice()) {
                Ok(()) => {},
                Err(e) => return Err(XDVDFSFilesystemError::BlockDevReadErr(e)),
            }
            proof {
                if R::obeys_model() && W::obeys_model() && offset_in + size <= r0.len() {
                    lemma_read_within(r0, offset_in + copied, old_buf);
                }
            }
            let ghost chunk = buffer@;
            match dest.write(offset_out + copied, buffer.as_slice()) {
                Ok(()) => {},
                Err(e) => return Err(XDVDFSFilesystemError::BlockDevWriteErr(e)),
            }
            proof {
                if R::obeys_model() && W::obeys_model() && offset_in + size <= r0.len() {
                    let a = r0.subrange(offset_in as int, offset_in + copied);
                    lemma_written_twice(w0, offset_out as int, a, chunk);
                    assert(a + chunk =~= r0.subrange(offset_in as int, offset_in + copied + to_copy));
                }
            }
        } else {
            let mut last = vstd::slice::slice_to_vec(
                vstd::slice::slice_subrange(buffer.as_slice(), 0, to_copy as usize),
            );
            let ghost old_last = last@;
            assert(to_copy < buf_size);
            assert(to_copy as usize == to_copy);
            assert(old_last == buffer@.subrange(0, to_copy as int));
            assert(old_last.len() == to_copy);
            match src.read(offset_in + copied, last.as_mut_slice()) {
                Ok(()) => {},
                Err(e) => return Err(XDVDFSFilesystemError::BlockDevReadErr(e)),
            }
            proof {
                if R::obeys_model() && W::obeys_model() && offset_in + size <= r0.len() {
                    lemma_read_within(r0, offset_in + copied, old_last);
                }
            }
            let ghost chunk = last@;
            match dest.write(offset_out + copied, last.as_slice()) {
                Ok(()) => {},
                Err(e) => return Err(XDVDFSFilesystemError::BlockDevWriteErr(e)),
            }
            proof {
                if R::obeys_model() && W::obeys_model() && offset_in + size <= r0.len() {
                    let a = r0.subrange(offset_in as int, offset_in + copied);
                    lemma_written_twice(w0, offset_out as int, a, chunk);
                    assert(a + chunk =~= r0.subrange(offset_in as int, offset_in + copied + to_copy));
                }
            }
        }
        proof {
            lemma_copy_chunks_step(false, offset_in as int, copied as int, to_copy as int, buf_size as int);
            lemma_copy_chunks_step(true, offset_out as int, copied as int, to_copy as int, buf_size as int);
            if R::obeys_access_log() {
                assert(src.access_log() =~= lr0 + copy_chunks(false, offset_in as int, copied + to_copy, buf_size as int));
            }
            if W::obeys_access_log() {
                assert(dest.access_log() =~= lw0 + copy_chunks(true, offset_out as int, copied + to_copy, buf_size as int));
            }
            if to_copy == buf_size {
                let c = copied as int;
                let b = buf_size as int;
                assert((c + b) % b == 0) by (nonlinear_arith)
                    requires
                        c % b == 0,
                        b > 0,
                ;
            }
        }
        copied = copied + to_copy;
    }
    Ok(copied)
}

impl<R: BlockDeviceRead + ?Sized, W: BlockDeviceWrite + ?Sized> RWCopier<R, W> for DefaultCopier<R, W> {
    /// Reads a buffer's worth of `src` and writes it to `dest`, in turn,
    /// until `size` bytes are copied; the last piece is what remains. Stops
    /// at the first error of either device. Returns `size`. Devices that
    /// record their accesses see, on success, exactly these reads and
    /// writes, in ascending chunks.
    fn copy(&mut self, offset_in: u64, offset_out: u64, size: u64, src: &mut R, dest: &mut W) -> (r: Result<
        u64,
        XDVDFSFilesystemError<R::ReadError, W::WriteError>,
    >)
        ensures
            r matches Ok(n) ==> n == size,
            size == 0 ==> (r matches Ok(n) && n == 0),
            final(self).buffer_size() == old(self).buffer_size(),
            R::obeys_model() ==> final(src).model() == old(src).model(),
            R::obeys_model() && W::obeys_model() && r is Ok && offset_in + size <= old(
                src,
            ).model().len() ==> final(dest).model() == copied_bytes(
                old(dest).model(),
                offset_out as int,
                old(src).model(),
                offset_in as int,
                size as int,
            ),
            R::obeys_access_log() && r is Ok ==> final(src).access_log() == old(src).access_log() + copy_chunks(
                false,
                offset_in as int,
                size as int,
                old(self).buffer_size() as int,
            ),
            W::obeys_access_log() && r is Ok ==> final(dest).access_log() == old(dest).access_log() + copy_chunks(
                true,
                offset_out as int,
                size as int,
                old(self).buffer_size() as int,
            ),
    {
        proof {
            use_type_invariant(&*self);
        }
        let mut buffer: Vec<u8> = vec![0u8];
        std::mem::swap(&mut buffer, &mut self.buffer);
        let r = copy_through(&mut buffer, offset_in, offset_out, size, src, dest);
        std::mem::swap(&mut buffer, &mut self.buffer);
        r
    }
}

/// Copies onto a device that keeps no data: only the size it reaches is
/// recorded.
pub struct NullCopier<R: ?Sized> {
    r_type: PhantomData<R>,
}

impl<R: ?Sized> Default for NullCopier<R> {
    fn default() -> (r: Self) {
        NullCopier { r_type: PhantomData }
    }
}

impl<R: BlockDeviceRead + ?Sized> RWCopier<R, NullBlockDevice> for NullCopier<R> {
    /// Records that `dest` reaches the end of the copy; reads nothing.
    fn copy(&mut self, offset_in: u64, offset_out: u64, size: u64, src: &mut R, dest: &mut NullBlockDevice) -> (r:
        Result<u64, XDVDFSFilesystemError<R::ReadError, Infallible>>)
        ensures
            r == Ok::<u64, XDVDFSFilesystemError<R::ReadError, Infallible>>(size),
            final(dest).spec_len() == (if old(dest).spec_len() >= offset_out + size {
                old(dest).spec_len() as int
            } else {
                offset_out + size
            }),
    {
        dest.write_size_adjustment(offset_out, size);
        Ok(size)
    }
}

} // verus!
