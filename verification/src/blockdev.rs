//! Destinations that an image is written to.
use vstd::prelude::*;

use core::convert::Infallible;

verus! {

/// The bytes `m` with `b` written from `off` on, as far as `m` reaches.
pub open spec fn written(m: Seq<u8>, off: int, b: Seq<u8>) -> Seq<u8> {
    Seq::new(m.len(), |t: int| if off <= t < off + b.len() { b[t - off] } else { m[t] })
}

/// The length of a device after a write of `n` bytes at `off`: it grows to
/// the end of the write, up to the largest length there is.
pub open spec fn grown_len(len: int, off: int, n: int) -> int {
    let end = if off + n <= u64::MAX { off + n } else { u64::MAX as int };
    if len >= end {
        len
    } else {
        end
    }
}

/// What a device says of the bytes it holds, for the contracts of reading
/// and writing.
///
/// Where `obeys_model` holds, `model` gives the device's bytes: a
/// successful write stores the buffer there as `written` says, the length
/// is that of the bytes, a successful read fills the buffer from them as
/// `read_into` says, and reading leaves them as they were. A device that
/// keeps no such bytes keeps the defaults, under which nothing is
/// described.
///
/// A device may also describe its length by `len_model`; where
/// `obeys_len_model` holds, a successful write grows it as `grown_len`
/// says, a failed one leaves it, and `len` gives it.
///
/// Where `obeys_access_log` holds, every read and write asked of the device,
/// successful or not, is recorded at the end of `access_log`.
pub trait DeviceModel {
    /// Whether the device's reads and writes follow `model`.
    open spec fn obeys_model() -> bool {
        false
    }

    /// The bytes the device holds.
    open spec fn model(&self) -> Seq<u8> {
        Seq::empty()
    }

    /// Whether the device's writes grow `len_model`.
    open spec fn obeys_len_model() -> bool {
        false
    }

    /// The length of the device, in bytes.
    open spec fn len_model(&self) -> int {
        0
    }

    /// Whether the device records every read and write asked of it.
    open spec fn obeys_access_log() -> bool {
        false
    }

    /// The reads and writes asked of the device so far, in order.
    open spec fn access_log(&self) -> Seq<DeviceAccess> {
        Seq::empty()
    }
}

/// A read or write asked of a device: whether it is a write, the offset,
/// and the number of bytes.
pub type DeviceAccess = (bool, u64, nat);

/// A device that bytes can be written to at any offset.
pub trait BlockDeviceWrite: DeviceModel {
    type WriteError;

    /// Writes `buffer` at byte `offset`.
    fn write(&mut self, offset: u64, buffer: &[u8]) -> (r: Result<(), Self::WriteError>)
        ensures
            Self::obeys_model() && r is Ok ==> final(self).model() == written(
                old(self).model(),
                offset as int,
                buffer@,
            ),
            Self::obeys_model() && r is Err ==> final(self).model() == old(self).model(),
            Self::obeys_len_model() && r is Ok ==> final(self).len_model() == grown_len(
                old(self).len_model(),
                offset as int,
                buffer@.len() as int,
            ),
            Self::obeys_len_model() && r is Err ==> final(self).len_model() == old(self).len_model(),
            Self::obeys_access_log() ==> final(self).access_log() == old(self).access_log().push(
                (true, offset, buffer@.len()),
            ),
    ;

    /// The size of the device, in bytes.
    fn len(&mut self) -> (r: Result<u64, Self::WriteError>)
        ensures
            Self::obeys_model() ==> final(self).model() == old(self).model(),
            Self::obeys_model() && r is Ok ==> r->Ok_0 == old(self).model().len(),
            Self::obeys_len_model() ==> final(self).len_model() == old(self).len_model(),
            Self::obeys_len_model() && r is Ok ==> r->Ok_0 == old(self).len_model(),
    ;
}

/// `buf` after a read of `dev` from `off`: the device's bytes where it has
/// them, `old` past its end.
pub open spec fn read_into(dev: Seq<u8>, off: int, old: Seq<u8>) -> Seq<u8> {
    Seq::new(old.len(), |t: int| if off + t < dev.len() { dev[off + t] } else { old[t] })
}

/// Reading a range that the device holds gives its bytes.
pub proof fn lemma_read_within(dev: Seq<u8>, off: int, old: Seq<u8>)
    requires
        0 <= off,
        off + old.len() <= dev.len(),
    ensures
        read_into(dev, off, old) == dev.subrange(off, off + old.len()),
{
    assert(read_into(dev, off, old) =~= dev.subrange(off, off + old.len()));
}

/// A device that bytes can be read from at any offset.
pub trait BlockDeviceRead: DeviceModel {
    type ReadError;

    /// Fills `buffer` with the bytes from byte `offset` on. The buffer keeps
    /// its length, as a slice behind `&mut` always does.
    fn read(&mut self, offset: u64, buffer: &mut [u8]) -> (r: Result<(), Self::ReadError>)
        ensures
            final(buffer)@.len() == old(buffer)@.len(),
            Self::obeys_model() ==> final(self).model() == old(self).model(),
            Self::obeys_model() && r is Ok ==> final(buffer)@ == read_into(
                old(self).model(),
                offset as int,
                old(buffer)@,
            ),
            Self::obeys_access_log() ==> final(self).access_log() == old(self).access_log().push(
                (false, offset, old(buffer)@.len()),
            ),
    ;
}

/// A device that keeps no data, only the size that the writes to it reach.
#[derive(Debug, Clone, Copy, PartialEq, Eq, Structural)]
pub struct NullBlockDevice {
    size: u64,
}

impl Default for NullBlockDevice {
    fn default() -> (r: Self)
        ensures
            r.spec_len() == 0,
    {
        NullBlockDevice { size: 0 }
    }
}

impl NullBlockDevice {
    /// The size that the writes so far reach.
    pub closed spec fn spec_len(&self) -> u64 {
        self.size
    }

    /// Records a write of `size` bytes at `offset`: the device grows to the
    /// end of the write, up to the largest size there is.
    pub fn write_size_adjustment(&mut self, offset: u64, size: u64)
        ensures
            final(self).spec_len() == (if old(self).spec_len() >= offset + size {
                old(self).spec_len() as int
            } else if offset + size <= u64::MAX {
                offset + size
            } else {
                u64::MAX as int
            }),
    {
        let end = offset.saturating_add(size);
        if end > self.size {
            self.size = end;
        }
    }

    /// The size that the writes so far reach, in bytes.
    pub fn len_blocking(&self) -> (r: u64)
        ensures
            r == self.spec_len(),
    {
        self.size
    }
}

/// A null device keeps no bytes, only the length that the writes reach.
impl DeviceModel for NullBlockDevice {
    open spec fn obeys_len_model() -> bool {
        true
    }

    open spec fn len_model(&self) -> int {
        self.spec_len() as int
    }
}

impl BlockDeviceWrite for NullBlockDevice {
    type WriteError = Infallible;

    fn write(&mut self, offset: u64, buffer: &[u8]) -> (r: Result<(), Infallible>)
        ensures
            r is Ok,
            final(self).spec_len() == (if old(self).spec_len() >= offset + buffer@.len() {
                old(self).spec_len() as int
            } else if offset + buffer@.len() <= u64::MAX {
                offset + buffer@.len()
            } else {
                u64::MAX as int
            }),
    {
        self.write_size_adjustment(offset, buffer.len() as u64);
        Ok(())
    }

    fn len(&mut self) -> (r: Result<u64, Infallible>)
        ensures
            r == Ok::<u64, Infallible>(old(self).spec_len()),
            *final(self) == *old(self),
    {
        Ok(self.size)
    }
}

/// An access that starts past the end of a byte slice.
#[derive(Debug, Clone, Copy, PartialEq, Eq, Structural)]
pub struct OutOfBounds;

/// The smaller of two integers.
pub open spec fn min_len(a: int, b: int) -> int {
    if a <= b {
        a
    } else {
        b
    }
}

/// A byte slice holds its own bytes.
impl DeviceModel for [u8] {
    open spec fn obeys_model() -> bool {
        true
    }

    open spec fn model(&self) -> Seq<u8> {
        self@
    }
}

impl BlockDeviceRead for [u8] {
    type ReadError = OutOfBounds;

    /// Copies the bytes of the slice from `offset` on into `buffer`, as
    /// many as both hold; the rest of `buffer` is left as it was. Fails
    /// where `offset` is not within the slice.
    fn read(&mut self, offset: u64, buffer: &mut [u8]) -> (r: Result<(), OutOfBounds>)
        ensures
            final(buffer)@.len() == old(buffer)@.len(),
            final(self)@ == old(self)@,
            r is Err <==> offset >= old(self)@.len(),
            r is Ok ==> forall|t: int|
                0 <= t < old(buffer)@.len() ==> #[trigger] final(buffer)@[t] == if t < old(self)@.len() - offset {
                    old(self)@[offset + t]
                } else {
                    old(buffer)@[t]
                },
    {
        let len = <[u8]>::len(self);
        if offset >= len as u64 {
            return Err(OutOfBounds);
        }
        let start = offset as usize;
        let avail = len - start;
        let blen = <[u8]>::len(buffer);
        let n = if avail < blen {
            avail
        } else {
            blen
        };
        let ghost before = buffer@;
        let mut k: usize = 0;
        while k < n
            invariant
                k <= n,
                n <= before.len(),
                start + n <= len,
                len == self@.len(),
                n == min_len(len - start, before.len() as int),
                buffer@.len() == before.len(),
                forall|t: int| 0 <= t < k ==> #[trigger] buffer@[t] == self@[start + t],
                forall|t: int| k <= t < before.len() ==> #[trigger] buffer@[t] == before[t],
            decreases n - k,
        {
            buffer[k] = self[start + k];
            k = k + 1;
        }
        proof {
            assert(buffer@ =~= read_into(self@, offset as int, before));
        }
        Ok(())
    }
}

impl BlockDeviceWrite for [u8] {
    type WriteError = OutOfBounds;

    /// Copies `buffer` into the slice from `offset` on, as many bytes as
    /// both hold. Fails where `offset` is past the end of the slice.
    fn write(&mut self, offset: u64, buffer: &[u8]) -> (r: Result<(), OutOfBounds>)
        ensures
            final(self)@.len() == old(self)@.len(),
            r is Err <==> offset > old(self)@.len(),
            r is Err ==> final(self)@ == old(self)@,
            r is Ok ==> forall|t: int|
                0 <= t < old(self)@.len() ==> #[trigger] final(self)@[t] == if offset <= t < offset
                    + buffer@.len() {
                    buffer@[t - offset]
                } else {
                    old(self)@[t]
                },
    {
        let len = <[u8]>::len(self);
        if offset > len as u64 {
            return Err(OutOfBounds);
        }
        let start = offset as usize;
        let avail = len - start;
        let n = if avail < buffer.len() {
            avail
        } else {
            buffer.len()
        };
        let ghost before = self@;
        let mut k: usize = 0;
        while k < n
            invariant
                k <= n,
                n <= buffer@.len(),
                start + n <= len,
                len == before.len(),
                n == min_len(len - start, buffer@.len() as int),
                self@.len() == before.len(),
                forall|t: int| 0 <= t < start ==> #[trigger] self@[t] == before[t],
                forall|t: int| start <= t < start + k ==> #[trigger] self@[t] == buffer@[t - start],
                forall|t: int| start + k <= t < before.len() ==> #[trigger] self@[t] == before[t],
            decreases n - k,
        {
            self[start + k] = buffer[k];
            k = k + 1;
        }
        proof {
            assert(self@ =~= written(before, offset as int, buffer@));
        }
        Ok(())
    }

    /// The length of the slice.
    fn len(&mut self) -> (r: Result<u64, OutOfBounds>)
        ensures
            r == Ok::<u64, OutOfBounds>(old(self)@.len() as u64),
            final(self)@ == old(self)@,
    {
        Ok(<[u8]>::len(self) as u64)
    }
}

} // verus!
