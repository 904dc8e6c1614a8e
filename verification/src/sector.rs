use vstd::prelude::*;

verus! {

/// Size of one XDVDFS sector, in bytes.
pub const SECTOR_SIZE: u32 = 2048;

/// Number of sectors needed to hold `len` bytes; every entry occupies at
/// least one sector, even when it is empty.
pub open spec fn spec_required_sectors(len: int) -> int {
    if len == 0 {
        1
    } else {
        (len + 2047) / 2048
    }
}

/// Number of sectors needed to store `len` bytes (at least one).
pub fn required_sectors(len: u64) -> (r: u32)
    requires
        spec_required_sectors(len as int) <= u32::MAX,
    ensures
        r == spec_required_sectors(len as int),
{
    if len != 0 {
        let sectors = len / (SECTOR_SIZE as u64);
        let rem = len % (SECTOR_SIZE as u64);
        assert((len as int + 2047) / 2048 == len as int / 2048 + if rem > 0 { 1int } else { 0int });
        let sectors = sectors as u32;
        if rem > 0 {
            sectors + 1
        } else {
            sectors
        }
    } else {
        1
    }
}

/// Hands out contiguous runs of sectors, in increasing order.
pub struct SectorAllocator {
    next_free: u32,
}

impl View for SectorAllocator {
    type V = u32;

    /// The first sector that has not been handed out yet.
    closed spec fn view(&self) -> u32 {
        self.next_free
    }
}

impl SectorAllocator {
    /// A fresh allocator: sectors 0..=32 are reserved for the image header
    /// region, so the first allocation starts at sector 33.
    pub fn new() -> (r: Self)
        ensures
            r@ == 33,
    {
        SectorAllocator { next_free: 33 }
    }

    /// The first sector that has not been handed out yet.
    pub fn next_free(&self) -> (r: u32)
        ensures
            r == self@,
    {
        self.next_free
    }

    /// Allocates a contiguous set of sectors, big enough to fit `bytes`.
    /// Returns the number of the first sector in the allocation.
    pub fn allocate_contiguous(&mut self, bytes: u64) -> (r: u32)
        requires
            old(self)@ + spec_required_sectors(bytes as int) <= u32::MAX,
        ensures
            r == old(self)@,
            final(self)@ == old(self)@ + spec_required_sectors(bytes as int),
    {
        let sectors = required_sectors(bytes);
        let allocation = self.next_free;
        self.next_free = self.next_free + sectors;
        allocation
    }
}

impl Default for SectorAllocator {
    fn default() -> (r: Self)
        ensures
            r@ == 33,
    {
        Self::new()
    }
}

/// Sector `s` lies in the run of `len` sectors from `start`.
pub open spec fn in_run(s: int, start: int, len: int) -> bool {
    start <= s < start + len
}

/// A run of sectors handed out for `bytes` bytes holds them, is no longer
/// than it needs to be, and holds at least one sector; a run handed out
/// next, for `next_bytes` bytes, starts where it ends and so never shares a
/// sector with it.
pub proof fn lemma_allocations_are_disjoint(start: int, bytes: int, next_bytes: int)
    requires
        0 <= bytes,
        0 <= next_bytes,
    ensures
        spec_required_sectors(bytes) >= 1,
        spec_required_sectors(bytes) * 2048 >= bytes,
        bytes > 0 ==> (spec_required_sectors(bytes) - 1) * 2048 < bytes,
        forall|s: int|
            #[trigger] in_run(s, start, spec_required_sectors(bytes)) ==> !in_run(
                s,
                start + spec_required_sectors(bytes),
                spec_required_sectors(next_bytes),
            ),
{
    if bytes > 0 {
        let n = (bytes + 2047) / 2048;
        assert(n * 2048 >= bytes && (n - 1) * 2048 < bytes) by (nonlinear_arith)
            requires
                n == (bytes + 2047) / 2048,
                bytes > 0,
        ;
    }
}

} // verus!
