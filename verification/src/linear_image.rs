//! Reading a sector-linear device as the image it stands for: regions of
//! raw data and fill bytes are read directly, file regions through the
//! filesystem that holds the files.
use vstd::prelude::*;

use crate::blockdev::{BlockDeviceRead, DeviceModel};
use crate::fs::{DirModel, FileEntry, FileModel, FilesystemCopier, FilesystemHierarchy};
use crate::path::pathref::{pathvec_of, PathRef};
use crate::sector_linear::{
    holds_sector, range_free, region_sectors, region_wf, regions_in, SectorLinearError, regions_wf, SectorBound,
    SectorLinearBlockDevice, SectorLinearBlockRegion,
};

verus! {

/// A filesystem whose files are copied into a sector-linear device by
/// reference.
pub struct SectorLinearBlockFilesystem<F> {
    pub fs: F,
}

impl<F> SectorLinearBlockFilesystem<F> {
    /// Wraps `fs`.
    pub fn new(fs: F) -> (r: Self)
        ensures
            r.fs == fs,
    {
        SectorLinearBlockFilesystem { fs }
    }
}

/// The wrapper describes its directories as the filesystem it wraps.
impl<F: DirModel> DirModel for SectorLinearBlockFilesystem<F> {
    open spec fn obeys_dir_model() -> bool {
        F::obeys_dir_model()
    }

    open spec fn dir_exists(&self, path: Seq<Seq<char>>) -> bool {
        self.fs.dir_exists(path)
    }

    open spec fn lists(&self, path: Seq<Seq<char>>, listing: Seq<FileEntry>) -> bool {
        self.fs.lists(path, listing)
    }
}

impl<F: FilesystemHierarchy> FilesystemHierarchy for SectorLinearBlockFilesystem<F> {
    type Error = F::Error;

    fn read_dir(&mut self, path: PathRef) -> Result<Vec<FileEntry>, F::Error> {
        self.fs.read_dir(path)
    }

    fn clear_cache(&mut self) -> Result<(), F::Error> {
        self.fs.clear_cache()
    }
}

impl<F> FileModel for SectorLinearBlockFilesystem<F> {
}

impl<F> FilesystemCopier<SectorLinearBlockDevice> for SectorLinearBlockFilesystem<F> {
    type Error = SectorLinearError;

    /// Records that the sectors from `output_offset` on hold the first
    /// `size` bytes of the file at `src`, without reading it. The copy must
    /// start at the beginning of the file and at a sector boundary, on free
    /// sectors.
    fn copy_file_in(
        &mut self,
        src: PathRef,
        dest: &mut SectorLinearBlockDevice,
        input_offset: u64,
        output_offset: u64,
        size: u64,
    ) -> (r: Result<u64, SectorLinearError>)
        ensures
            r is Ok ==> r == Ok::<u64, SectorLinearError>(size) && final(dest).contents@ == old(dest).contents@.insert(
                (output_offset / 2048) as u64,
                SectorLinearBlockRegion::File {
                    path: final(dest).contents@[(output_offset / 2048) as u64]->path,
                    sectors: ((size + 2047) / 2048) as u64,
                },
            ) && final(dest).contents@[(output_offset / 2048) as u64]->path@ == pathvec_of(src),
            r is Ok <==> input_offset == 0 && output_offset % 2048 == 0 && regions_wf(old(dest).contents@)
                && output_offset / 2048 + (size + 2047) / 2048 <= u64::MAX && range_free(
                old(dest).contents@,
                (output_offset / 2048) as int,
                (size + 2047) / 2048,
            ) && !old(dest).contents@.contains_key((output_offset / 2048) as u64),
            r is Err ==> final(dest).contents@ == old(dest).contents@,
            final(self).fs == old(self).fs,
    {
        if input_offset != 0 || output_offset % 2048 != 0 {
            return Err(SectorLinearError::Misaligned);
        }
        let sector = output_offset / 2048;
        let sector_span = size / 2048 + if size % 2048 != 0 {
            1
        } else {
            0
        };
        if !dest.regions_valid() || sector > u64::MAX - sector_span {
            return Err(SectorLinearError::OutOfRange);
        }
        if !dest.check_sector_range_free(sector, sector_span) || dest.contents.contains_key(&sector) {
            return Err(SectorLinearError::Occupied);
        }
        let path = src.to_pathvec();
        dest.contents.insert(sector, SectorLinearBlockRegion::File { path, sectors: sector_span });
        Ok(size)
    }
}

/// No two regions overlap.
pub open spec fn regions_disjoint(m: Map<u64, SectorLinearBlockRegion>) -> bool {
    forall|a: u64, b: u64|
        #![trigger m.contains_key(a), m.contains_key(b)]
        m.contains_key(a) && m.contains_key(b) && a < b ==> a + region_sectors(m[a]) <= b
}

/// A device that can be read linearly: well-formed regions that do not
/// overlap, end within the range of `u64` bytes, and hold some data where
/// they are raw data.
pub open spec fn readable(m: Map<u64, SectorLinearBlockRegion>) -> bool {
    &&& regions_wf(m)
    &&& regions_disjoint(m)
    &&& forall|k: u64| #[trigger] m.contains_key(k) ==> (k + region_sectors(m[k])) * 2048 <= u64::MAX
    &&& forall|k: u64|
        #[trigger] m.contains_key(k) ==> (m[k] matches SectorLinearBlockRegion::RawData(d) ==> d@.len() > 0)
}

/// The byte at position `p` of the image, where the device holds it: a byte
/// of raw data, a fill byte, or zero outside every region. Bytes of file
/// regions come from the filesystem, and are `None` here.
pub open spec fn device_byte(m: Map<u64, SectorLinearBlockRegion>, p: int) -> Option<u8> {
    let q = p / 2048;
    if exists|k: u64| #[trigger] holds_sector(m, q, k) {
        let k = choose|k: u64| #[trigger] holds_sector(m, q, k);
        match m[k] {
            SectorLinearBlockRegion::RawData(d) => Some(d@[p - k * 2048]),
            SectorLinearBlockRegion::File { .. } => None,
            SectorLinearBlockRegion::Fill { byte, .. } => Some(byte),
        }
    } else {
        Some(0u8)
    }
}

/// The byte of a file at position `j` of it: a byte of its data, or zero
/// past its end.
pub open spec fn file_byte(f: Seq<u8>, j: int) -> u8 {
    if j < f.len() {
        f[j]
    } else {
        0u8
    }
}

/// The byte at position `p` of the image whose files `fs` describes: as
/// `device_byte`, and in a file region the byte of the file at the same
/// distance from the region's start; `None` where the file is missing.
pub open spec fn linear_byte<G: FileModel>(m: Map<u64, SectorLinearBlockRegion>, fs: G, p: int) -> Option<u8> {
    let q = p / 2048;
    if exists|k: u64| #[trigger] holds_sector(m, q, k) {
        let k = choose|k: u64| #[trigger] holds_sector(m, q, k);
        match m[k] {
            SectorLinearBlockRegion::RawData(d) => Some(d@[p - k * 2048]),
            SectorLinearBlockRegion::File { path, .. } => match fs.file_model(PathRef::PathVec(&path)@) {
                Some(f) => Some(file_byte(f, p - k * 2048)),
                None => None,
            },
            SectorLinearBlockRegion::Fill { byte, .. } => Some(byte),
        }
    } else {
        Some(0u8)
    }
}

/// Where the device holds a byte, the image holds it too.
proof fn lemma_linear_of_device<G: FileModel>(m: Map<u64, SectorLinearBlockRegion>, fs: G, p: int)
    ensures
        device_byte(m, p) matches Some(b) ==> linear_byte(m, fs, p) == Some(b),
{
}

/// The smaller of two integers.
pub open spec fn min_of(a: int, b: int) -> int {
    if a <= b {
        a
    } else {
        b
    }
}

proof fn lemma_floor_unique(m: Map<u64, SectorLinearBlockRegion>, q: int, a: u64, b: u64)
    requires
        holds_sector(m, q, a),
        holds_sector(m, q, b),
    ensures
        a == b,
{
}

/// A sector inside a region is held by it.
proof fn lemma_held_inside(m: Map<u64, SectorLinearBlockRegion>, k: u64, q: int)
    requires
        readable(m),
        m.contains_key(k),
        k <= q < k + region_sectors(m[k]),
    ensures
        holds_sector(m, q, k),
{
    assert forall|j: u64| m.contains_key(j) && j <= q implies j <= k by {
        if j > k {
            assert(m.contains_key(k) && m.contains_key(j));
        }
    }
}

/// A sector-linear device read as an image, with the filesystem that holds
/// the files its file regions refer to.
pub struct SectorLinearImage<'a, F> {
    pub linear: &'a SectorLinearBlockDevice,
    pub fs: &'a mut SectorLinearBlockFilesystem<F>,
}

impl<'a, F> SectorLinearImage<'a, F> {
    /// The image of `bdev`, whose files `fs` holds.
    pub fn new(bdev: &'a SectorLinearBlockDevice, fs: &'a mut SectorLinearBlockFilesystem<F>) -> (r: Self)
        ensures
            r.linear == bdev,
            *r.fs == *old(fs),
    {
        SectorLinearImage { linear: bdev, fs }
    }
}

/// The entries `regs` list, from position `ri` on, every region that does
/// not end before `sector`, by increasing start, each with its contents.
pub open spec fn covers_from(
    m: Map<u64, SectorLinearBlockRegion>,
    regs: Seq<(u64, &SectorLinearBlockRegion)>,
    ri: int,
    sector: int,
) -> bool {
    &&& forall|j: int|
        ri <= j < regs.len() ==> m.contains_key(#[trigger] regs[j].0) && m[regs[j].0] == *regs[j].1
            && regs[j].0 + region_sectors(m[regs[j].0]) > sector
    &&& forall|i: int, j: int| ri <= i < j < regs.len() ==> regs[i].0 < regs[j].0
    &&& forall|k: u64|
        #[trigger] m.contains_key(k) && k + region_sectors(m[k]) > sector ==> exists|j: int|
            ri <= j < regs.len() && regs[j].0 == k
}

/// The regions from sector `s0` on, as `sector_range` lists them, cover
/// everything from `s0` on.
#[verifier::spinoff_prover]
#[verifier::rlimit(40)]
proof fn lemma_range_covers(
    m: Map<u64, SectorLinearBlockRegion>,
    s0: u64,
    start: SectorBound,
    regs: Seq<(u64, &SectorLinearBlockRegion)>,
)
    requires
        readable(m),
        start == SectorBound::Included(s0),
        ({
            let lead = match crate::sector_linear::first_included(start) {
                Some(b) => exists|k: u64| holds_sector(m, b as int, k) && k != b,
                None => false,
            };
            &&& lead ==> regs.len() > 0 && holds_sector(
                m,
                crate::sector_linear::first_included(start)->0 as int,
                regs[0].0,
            ) && regs[0].0 != crate::sector_linear::first_included(start)->0 && m[regs[0].0] == *regs[0].1
            &&& crate::sector_linear::sorted_entries_of(
                regions_in(m, start, SectorBound::Unbounded),
                if lead {
                    regs.skip(1)
                } else {
                    regs
                },
            )
        }),
    ensures
        covers_from(m, regs, 0, s0 as int),
{
    let inr = regions_in(m, start, SectorBound::Unbounded);
    assert(crate::sector_linear::first_included(start) == Some(s0));
    assert forall|k: u64| #[trigger] inr.contains_key(k) <==> m.contains_key(k) && k >= s0 by {
        if m.contains_key(k) && k >= s0 {
            assert(crate::sector_linear::after_start(SectorBound::Included(s0), k));
            assert(crate::sector_linear::before_end(SectorBound::Unbounded, k));
        }
    }
    let lead = exists|k: u64| holds_sector(m, s0 as int, k) && k != s0;
    let off: int = if lead {
        1
    } else {
        0
    };
    let rest = if lead {
        regs.skip(1)
    } else {
        regs
    };
    if lead {
        let w = choose|k: u64| holds_sector(m, s0 as int, k) && k != s0;
        assert(holds_sector(m, crate::sector_linear::first_included(start)->0 as int, w));
        assert(regs.len() > 0 && holds_sector(m, s0 as int, regs[0].0) && regs[0].0 != s0);
    }
    assert forall|j: int| off <= j < regs.len() implies #[trigger] regs[j] == rest[j - off] by {}
    assert forall|j: int| 0 <= j < regs.len() implies m.contains_key(#[trigger] regs[j].0) && m[regs[j].0] == *regs[j].1
        && regs[j].0 + region_sectors(m[regs[j].0]) > s0 by {
        if j >= off {
            assert(regs[j] == rest[j - off]);
            assert(inr.contains_key(rest[j - off].0));
        } else {
            assert(lead && j == 0);
            assert(holds_sector(m, s0 as int, regs[0].0));
        }
    }
    assert forall|i: int, j: int| 0 <= i < j < regs.len() implies regs[i].0 < regs[j].0 by {
        assert(regs[j] == rest[j - off]);
        assert(inr.contains_key(rest[j - off].0));
        if i >= off {
            assert(regs[i] == rest[i - off]);
        }
    }
    assert forall|k: u64| #[trigger] m.contains_key(k) && k + region_sectors(m[k]) > s0 implies exists|j: int|
        0 <= j < regs.len() && regs[j].0 == k by {
        if k >= s0 {
            assert(inr.contains_key(k));
            let t = choose|t: int| 0 <= t < rest.len() && rest[t].0 == k;
            assert(lead ==> regs.len() > 0);
            assert(rest.len() == regs.len() - off);
            assert(regs[t + off] == rest[t]);
        } else {
            lemma_held_inside(m, k, s0 as int);
            assert(lead);
            lemma_floor_unique(m, s0 as int, k, regs[0].0);
        }
    }
}

/// No region holds a sector from `sector` up to the start of the next
/// listed region.
proof fn lemma_gap_is_empty(
    m: Map<u64, SectorLinearBlockRegion>,
    regs: Seq<(u64, &SectorLinearBlockRegion)>,
    ri: int,
    sector: int,
    q: int,
)
    requires
        covers_from(m, regs, ri, sector),
        0 <= ri < regs.len(),
        sector <= q < regs[ri].0,
    ensures
        device_byte(m, q * 2048) == Some(0u8) || true,
        forall|k: u64| !#[trigger] holds_sector(m, q, k),
{
    assert forall|k: u64| !#[trigger] holds_sector(m, q, k) by {
        if holds_sector(m, q, k) {
            assert(m.contains_key(k) && k + region_sectors(m[k]) > sector);
            let j = choose|j: int| ri <= j < regs.len() && regs[j].0 == k;
            if j > ri {
                assert(regs[ri].0 < regs[j].0);
            }
        }
    }
}

/// Bytes in front of the next listed region are zeros.
proof fn lemma_gap_bytes(
    m: Map<u64, SectorLinearBlockRegion>,
    regs: Seq<(u64, &SectorLinearBlockRegion)>,
    ri: int,
    sector: int,
    p: int,
)
    requires
        covers_from(m, regs, ri, sector),
        0 <= ri < regs.len(),
        sector * 2048 <= p < regs[ri].0 * 2048,
    ensures
        device_byte(m, p) == Some(0u8),
{
    let q = p / 2048;
    assert(sector <= q < regs[ri].0);
    lemma_gap_is_empty(m, regs, ri, sector, q);
}

/// A gap in front of the next listed region, read as zeros, holds the bytes
/// of the image there.
proof fn lemma_gap_read<G: FileModel>(
    m: Map<u64, SectorLinearBlockRegion>,
    fs: G,
    regs: Seq<(u64, &SectorLinearBlockRegion)>,
    ri: int,
    sector: int,
    offset: int,
    index: int,
    len: int,
    buf: Seq<u8>,
)
    requires
        covers_from(m, regs, ri, sector),
        0 <= ri < regs.len(),
        sector * 2048 <= offset + index,
        offset + index + len <= regs[ri].0 * 2048,
        0 <= index,
        index + len <= buf.len(),
        forall|t: int| index <= t < index + len ==> #[trigger] buf[t] == 0u8,
    ensures
        forall|t: int|
            index <= t < index + len ==> (#[trigger] device_byte(m, offset + t) matches Some(b) ==> buf[t] == b),
        forall|t: int| index <= t < index + len ==> #[trigger] linear_byte(m, fs, offset + t) == Some(buf[t]),
{
    assert forall|t: int| index <= t < index + len implies #[trigger] linear_byte(m, fs, offset + t) == Some(buf[t])
        && (device_byte(m, offset + t) matches Some(b) ==> buf[t] == b) by {
        lemma_gap_bytes(m, regs, ri, sector, offset + t);
        lemma_linear_of_device(m, fs, offset + t);
    }
}

/// What a read of a region leaves in the buffer holds the bytes of the
/// image there.
proof fn lemma_region_read<G: FileModel>(
    m: Map<u64, SectorLinearBlockRegion>,
    fs: G,
    obeys: bool,
    k: u64,
    offset: int,
    index: int,
    len: int,
    start: int,
    before: Seq<u8>,
    buf: Seq<u8>,
)
    requires
        readable(m),
        m.contains_key(k),
        0 <= index,
        index + len <= buf.len(),
        buf.len() == before.len(),
        k * 2048 <= offset + index,
        offset + index + len <= (k + region_sectors(m[k])) * 2048,
        start == offset + index - k * 2048,
        forall|t: int| index <= t < index + len ==> #[trigger] before[t] == 0u8,
        forall|u: int|
            #![trigger buf[u]]
            index <= u < index + len ==> match m[k] {
                SectorLinearBlockRegion::RawData(d) => buf[u] == d@[start + u - index],
                SectorLinearBlockRegion::File { .. } => true,
                SectorLinearBlockRegion::Fill { byte, .. } => byte != 0 ==> buf[u] == byte,
            },
        (m[k] matches SectorLinearBlockRegion::Fill { byte, .. } && byte == 0) ==> buf == before,
        obeys ==> (m[k] matches SectorLinearBlockRegion::File { path, .. } ==> (fs.file_model(
            PathRef::PathVec(&path)@,
        ) matches Some(f) && forall|u: int|
            #![trigger buf[u]]
            index <= u < index + len ==> buf[u] == file_byte(f, start + u - index))),
    ensures
        forall|t: int|
            index <= t < index + len ==> (#[trigger] device_byte(m, offset + t) matches Some(b) ==> buf[t] == b),
        obeys ==> forall|t: int| index <= t < index + len ==> #[trigger] linear_byte(m, fs, offset + t) == Some(buf[t]),
{
    assert forall|t: int| index <= t < index + len implies (#[trigger] device_byte(m, offset + t) matches Some(b)
        ==> buf[t] == b) by {
        lemma_region_bytes(m, fs, k, offset + t);
        assert(offset + t - k * 2048 == start + t - index);
    }
    if obeys {
        assert forall|t: int| index <= t < index + len implies #[trigger] linear_byte(m, fs, offset + t) == Some(buf[t]) by {
            lemma_region_bytes(m, fs, k, offset + t);
            lemma_linear_of_device(m, fs, offset + t);
            assert(offset + t - k * 2048 == start + t - index);
        }
    }
}

/// Bytes inside a region are those of the region.
proof fn lemma_region_bytes<G: FileModel>(m: Map<u64, SectorLinearBlockRegion>, fs: G, k: u64, p: int)
    requires
        readable(m),
        m.contains_key(k),
        k * 2048 <= p < (k + region_sectors(m[k])) * 2048,
    ensures
        device_byte(m, p) == match m[k] {
            SectorLinearBlockRegion::RawData(d) => Some(d@[p - k * 2048]),
            SectorLinearBlockRegion::File { .. } => None,
            SectorLinearBlockRegion::Fill { byte, .. } => Some(byte),
        },
        linear_byte(m, fs, p) == match m[k] {
            SectorLinearBlockRegion::RawData(d) => Some(d@[p - k * 2048]),
            SectorLinearBlockRegion::File { path, .. } => match fs.file_model(PathRef::PathVec(&path)@) {
                Some(f) => Some(file_byte(f, p - k * 2048)),
                None => None,
            },
            SectorLinearBlockRegion::Fill { byte, .. } => Some(byte),
        },
{
    let q = p / 2048;
    assert(k <= q < k + region_sectors(m[k]));
    lemma_held_inside(m, k, q);
    let c = choose|c: u64| #[trigger] holds_sector(m, q, c);
    lemma_floor_unique(m, q, c, k);
}

/// Once the region at `ri` is read, the entries after it cover everything
/// from its end on.
proof fn lemma_after_region(
    m: Map<u64, SectorLinearBlockRegion>,
    regs: Seq<(u64, &SectorLinearBlockRegion)>,
    ri: int,
    sector: int,
)
    requires
        readable(m),
        covers_from(m, regs, ri, sector),
        0 <= ri < regs.len(),
        sector <= regs[ri].0 + region_sectors(m[regs[ri].0]),
    ensures
        covers_from(m, regs, ri + 1, regs[ri].0 + region_sectors(m[regs[ri].0])),
{
    let k = regs[ri].0;
    let e = k + region_sectors(m[k]);
    assert forall|j: int| ri + 1 <= j < regs.len() implies m.contains_key(#[trigger] regs[j].0) && m[regs[j].0]
        == *regs[j].1 && regs[j].0 + region_sectors(m[regs[j].0]) > e by {
        assert(regs[ri].0 < regs[j].0);
        assert(m.contains_key(k) && m.contains_key(regs[j].0));
    }
    assert forall|c: u64| #[trigger] m.contains_key(c) && c + region_sectors(m[c]) > e implies exists|j: int|
        ri + 1 <= j < regs.len() && regs[j].0 == c by {
        let j = choose|j: int| ri <= j < regs.len() && regs[j].0 == c;
        assert(j != ri);
    }
}

/// Copies `len` bytes of `src` from `start` into `buffer` at `index`.
fn copy_bytes(buffer: &mut Vec<u8>, index: usize, src: &[u8], start: usize, len: usize)
    requires
        index + len <= old(buffer)@.len(),
        start + len <= src@.len(),
    ensures
        final(buffer)@.len() == old(buffer)@.len(),
        forall|u: int| 0 <= u < index ==> final(buffer)@[u] == old(buffer)@[u],
        forall|u: int| index <= u < index + len ==> final(buffer)@[u] == src@[start + u - index],
        forall|u: int| index + len <= u < old(buffer)@.len() ==> final(buffer)@[u] == old(buffer)@[u],
{
    let ghost before = buffer@;
    let blen = buffer.len();
    let slen = src.len();
    let mut t: usize = 0;
    while t < len
        invariant
            t <= len,
            blen == before.len(),
            slen == src@.len(),
            index + len <= blen,
            start + len <= slen,
            buffer@.len() == before.len(),
            forall|u: int| 0 <= u < index ==> buffer@[u] == before[u],
            forall|u: int| index <= u < index + t ==> buffer@[u] == src@[start + u - index],
            forall|u: int| index + t <= u < before.len() ==> buffer@[u] == before[u],
        decreases len - t,
    {
        buffer.set(index + t, src[start + t]);
        t = t + 1;
    }
}

/// Sets `len` bytes of `buffer` from `index` on to `byte`.
fn fill_bytes_at(buffer: &mut Vec<u8>, index: usize, len: usize, byte: u8)
    requires
        index + len <= old(buffer)@.len(),
    ensures
        final(buffer)@.len() == old(buffer)@.len(),
        forall|u: int| 0 <= u < index ==> final(buffer)@[u] == old(buffer)@[u],
        forall|u: int| index <= u < index + len ==> final(buffer)@[u] == byte,
        forall|u: int| index + len <= u < old(buffer)@.len() ==> final(buffer)@[u] == old(buffer)@[u],
{
    let ghost before = buffer@;
    let blen = buffer.len();
    let mut t: usize = 0;
    while t < len
        invariant
            t <= len,
            blen == before.len(),
            index + len <= blen,
            buffer@.len() == before.len(),
            forall|u: int| 0 <= u < index ==> buffer@[u] == before[u],
            forall|u: int| index <= u < index + t ==> buffer@[u] == byte,
            forall|u: int| index + t <= u < before.len() ==> buffer@[u] == before[u],
        decreases len - t,
    {
        buffer.set(index + t, byte);
        t = t + 1;
    }
}

impl<'a, F: FilesystemCopier<[u8]>> SectorLinearImage<'a, F> {
    /// Reads `len` bytes of `region`, from byte `start` of it, into
    /// `buffer` at `index`: raw data and nonzero fill bytes are copied, a
    /// zero fill leaves the zeros there, and a file is copied through the
    /// filesystem.
    fn read_region(
        &mut self,
        buffer: &mut Vec<u8>,
        index: usize,
        len: usize,
        region: &SectorLinearBlockRegion,
        start: u64,
    ) -> (r: Result<(), F::Error>)
        requires
            index + len <= old(buffer)@.len(),
            region_wf(*region),
            start + len <= region_sectors(*region) * 2048,
            region matches SectorLinearBlockRegion::RawData(d) ==> d@.len() > 0,
        ensures
            final(self).linear == old(self).linear,
            final(buffer)@.len() == old(buffer)@.len(),
            forall|u: int| 0 <= u < index ==> final(buffer)@[u] == old(buffer)@[u],
            forall|u: int| index + len <= u < old(buffer)@.len() ==> final(buffer)@[u] == old(buffer)@[u],
            r is Ok ==> forall|u: int|
                #![trigger final(buffer)@[u]]
                index <= u < index + len ==> match *region {
                    SectorLinearBlockRegion::RawData(d) => final(buffer)@[u] == d@[start + u - index],
                    SectorLinearBlockRegion::File { .. } => true,
                    SectorLinearBlockRegion::Fill { byte, .. } => byte != 0 ==> final(buffer)@[u] == byte,
                },
            r is Ok ==> (region matches SectorLinearBlockRegion::Fill { byte, .. } && byte == 0) ==> final(buffer)@
                == old(buffer)@,
            !(*region is File) ==> r is Ok,
            F::obeys_file_model() ==> forall|p: Seq<Seq<char>>|
                #[trigger] final(self).fs.fs.file_model(p) == old(self).fs.fs.file_model(p),
            F::obeys_file_model() && r is Ok ==> (region matches SectorLinearBlockRegion::File { path, .. }
                ==> (old(self).fs.fs.file_model(PathRef::PathVec(&path)@) matches Some(f) && forall|u: int|
                #![trigger final(buffer)@[u]]
                index <= u < index + len ==> final(buffer)@[u] == file_byte(f, start + u - index))),
    {
        match region {
            SectorLinearBlockRegion::RawData(data) => {
                let dlen = data.len();
                assert(data@.len() == region_sectors(*region) * 2048);
                assert(start + len <= dlen);
                let from = start as usize;
                assert(from == start);
                copy_bytes(buffer, index, data.as_slice(), from, len);
                assert(forall|u: int| index <= u < index + len ==> buffer@[u] == data@[start + u - index]);
            },
            SectorLinearBlockRegion::File { path, .. } => {
                let mut tmp: Vec<u8> = vec![0u8; len];
                match self.fs.fs.copy_file_in(PathRef::PathVec(path), tmp.as_mut_slice(), start, 0, len as u64) {
                    Ok(_) => {},
                    Err(e) => return Err(e),
                }
                let n = if tmp.len() < len {
                    tmp.len()
                } else {
                    len
                };
                copy_bytes(buffer, index, tmp.as_slice(), 0, n);
                proof {
                    if F::obeys_file_model() {
                        let f = old(self).fs.fs.file_model(PathRef::PathVec(path)@).unwrap();
                        assert forall|u: int| index <= u < index + len implies buffer@[u] == file_byte(
                            f,
                            start + u - index,
                        ) by {
                            assert(tmp@[u - index] == file_byte(f, start + u - index));
                        }
                    }
                }
            },
            SectorLinearBlockRegion::Fill { byte, .. } => {
                if *byte != 0 {
                    fill_bytes_at(buffer, index, len, *byte);
                }
            },
        }
        Ok(())
    }

    /// Reads `size` bytes of the image from byte `offset`; the result is
    /// shorter where the device ends first. Sectors that no region holds
    /// read as zeros, and file regions are read through the filesystem,
    /// whose errors are passed on.
    #[verifier::spinoff_prover]
    #[verifier::rlimit(100)]
    pub fn read_linear(&mut self, offset: u64, size: u64) -> (r: Result<Vec<u8>, F::Error>)
        requires
            readable(old(self).linear.contents@),
        ensures
            ({
                let m = old(self).linear.contents@;
                let want = size as usize as int;
                r matches Ok(buf) ==> {
                    &&& buf@.len() <= want
                    &&& buf@.len() < want ==> forall|k: u64|
                        #[trigger] m.contains_key(k) ==> (k + region_sectors(m[k])) * 2048 <= offset + buf@.len()
                    &&& buf@.len() > 0 ==> exists|k: u64|
                        #[trigger] m.contains_key(k) && offset + buf@.len() <= (k + region_sectors(m[k])) * 2048
                    &&& forall|t: int|
                        0 <= t < buf@.len() ==> (#[trigger] device_byte(m, offset + t) matches Some(b) ==> buf@[t] == b)
                }
            }),
            F::obeys_file_model() ==> (r matches Ok(buf) ==> forall|t: int|
                0 <= t < buf@.len() ==> #[trigger] linear_byte(old(self).linear.contents@, old(self).fs.fs, offset + t)
                    == Some(buf@[t])),
            F::obeys_file_model() ==> forall|p: Seq<Seq<char>>|
                #[trigger] final(self).fs.fs.file_model(p) == old(self).fs.fs.file_model(p),
            r is Err ==> exists|k: u64| #[trigger] old(self).linear.contents@.contains_key(k)
                && old(self).linear.contents@[k] is File && k * 2048 < offset + size && offset < (k + region_sectors(
                old(self).linear.contents@[k],
            )) * 2048,
    {
        let ghost m = self.linear.contents@;
        let ghost fs0 = self.fs.fs;
        let mut sector: u64 = offset / 2048;
        let mut position: u64 = offset % 2048;
        let want = size as usize;
        let mut buffer: Vec<u8> = vec![0u8; want];
        let mut index: usize = 0;
        let regs = self.linear.sector_range(SectorBound::Included(sector), SectorBound::Unbounded);
        let n = regs.len();
        let mut ri: usize = 0;
        proof {
            lemma_range_covers(m, sector, SectorBound::Included(sector), regs@);
        }
        while index < want
            invariant_except_break
                index < want ==> sector * 2048 + position == offset + index && position < 2048,
                ri <= n,
                buffer@.len() == want,
                covers_from(m, regs@, ri as int, sector as int),
                forall|t: int| 0 <= t < index ==> (#[trigger] device_byte(m, offset + t) matches Some(b) ==> buffer@[t] == b),
                forall|t: int| index <= t < want ==> #[trigger] buffer@[t] == 0u8,
                F::obeys_file_model() ==> forall|t: int|
                    0 <= t < index ==> #[trigger] linear_byte(m, fs0, offset + t) == Some(buffer@[t]),
                index > 0 ==> exists|k: u64|
                    #[trigger] m.contains_key(k) && offset + index <= (k + region_sectors(m[k])) * 2048,
            invariant
                readable(m),
                m == self.linear.contents@,
                m == old(self).linear.contents@,
                n == regs@.len(),
                index <= want,
                want <= size,
                fs0 == old(self).fs.fs,
                F::obeys_file_model() ==> forall|p: Seq<Seq<char>>|
                    #[trigger] self.fs.fs.file_model(p) == fs0.file_model(p),
            ensures
                buffer@.len() <= want,
                buffer@.len() < want ==> forall|k: u64|
                    #[trigger] m.contains_key(k) ==> (k + region_sectors(m[k])) * 2048 <= offset + buffer@.len(),
                buffer@.len() > 0 ==> exists|k: u64|
                    #[trigger] m.contains_key(k) && offset + buffer@.len() <= (k + region_sectors(m[k])) * 2048,
                forall|t: int| 0 <= t < buffer@.len() ==> (#[trigger] device_byte(m, offset + t) matches Some(b) ==> buffer@[t] == b),
                F::obeys_file_model() ==> forall|t: int|
                    0 <= t < buffer@.len() ==> #[trigger] linear_byte(m, fs0, offset + t) == Some(buffer@[t]),
            decreases n - ri,
        {
            if ri == n {
                proof {
                    assert forall|k: u64| #[trigger] m.contains_key(k) implies (k + region_sectors(m[k])) * 2048 <= offset + index by {
                        if k + region_sectors(m[k]) > sector {
                            let j = choose|j: int| ri <= j < n && regs@[j].0 == k;
                        }
                    }
                }
                buffer.truncate(index);
                break;
            }
            let (incoming_sector, contents) = regs[ri];
            let ghost k = incoming_sector;
            proof {
                assert(m.contains_key(regs@[ri as int].0));
            }
            if incoming_sector > sector {
                let sector_gap = incoming_sector - sector;
                let avail = sector_gap * 2048 - position;
                let rem = (want - index) as u64;
                let empty_len = if rem < avail {
                    rem
                } else {
                    avail
                };
                proof {
                    lemma_gap_read(
                        m,
                        fs0,
                        regs@,
                        ri as int,
                        sector as int,
                        offset as int,
                        index as int,
                        empty_len as int,
                        buffer@,
                    );
                }
                index = index + empty_len as usize;
                position = 0;
                sector = sector + sector_gap;
                proof {
                    assert(m.contains_key(k) && offset + index <= (k + region_sectors(m[k])) * 2048);
                }
                if index >= want {
                    break;
                }
            }
            proof {
                lemma_after_region(m, regs@, ri as int, sector as int);
            }
            ri = ri + 1;
            let remaining = want - index;
            let content_offset = sector.saturating_sub(incoming_sector);
            let content_offset_sector = content_offset * 2048;
            let span = contents.size_bytes() - content_offset_sector - position;
            let to_read = (if (remaining as u64) < span {
                remaining as u64
            } else {
                span
            }) as usize;
            let ghost before = buffer@;
            proof {
                assert(*contents == m[k]);
                assert(content_offset == sector - k);
                assert(offset + index == sector * 2048 + position);
                assert(offset + index + to_read <= (k + region_sectors(m[k])) * 2048);
            }
            let start = content_offset_sector + position;
            match self.read_region(&mut buffer, index, to_read, contents, start) {
                Ok(()) => {},
                Err(e) => {
                    proof {
                        assert(offset + index < (k + region_sectors(m[k])) * 2048);
                        assert(m.contains_key(k) && m[k] is File && k * 2048 < offset + size && offset < (k
                            + region_sectors(m[k])) * 2048);
                    }
                    return Err(e);
                },
            }
            proof {
                lemma_region_read(
                    m,
                    fs0,
                    F::obeys_file_model(),
                    k,
                    offset as int,
                    index as int,
                    to_read as int,
                    start as int,
                    before,
                    buffer@,
                );
            }
            index = index + to_read;
            position = 0;
            sector = sector + contents.size_sectors() - content_offset;
            proof {
                assert(m.contains_key(k) && offset + index <= (k + region_sectors(m[k])) * 2048);
            }
        }
        Ok(buffer)
    }
}

/// Past the end of every region, the image reads as zeros.
proof fn lemma_past_end(m: Map<u64, SectorLinearBlockRegion>, p: int, e: int)
    requires
        0 <= e <= p,
        forall|k: u64| #[trigger] m.contains_key(k) ==> (k + region_sectors(m[k])) * 2048 <= e,
    ensures
        device_byte(m, p) == Some(0u8),
{
    let q = p / 2048;
    if exists|k: u64| #[trigger] holds_sector(m, q, k) {
        let k = choose|k: u64| #[trigger] holds_sector(m, q, k);
        let end = k + region_sectors(m[k]);
        assert(q + 1 <= end);
        assert(p < (q + 1) * 2048) by (nonlinear_arith)
            requires
                q == p / 2048,
                p >= 0,
        ;
        assert((q + 1) * 2048 <= end * 2048) by (nonlinear_arith)
            requires
                q + 1 <= end,
        ;
        assert(m.contains_key(k));
    }
}

impl<'a, F: FilesystemCopier<[u8]>> SectorLinearImage<'a, F> {
    /// Reads sector `sector` of an image cut into sectors of `sector_size`
    /// bytes; past the end of the device the sector is filled with zeros.
    pub fn read_sector(&mut self, sector: usize, sector_size: u32) -> (r: Result<Vec<u8>, F::Error>)
        requires
            readable(old(self).linear.contents@),
            sector * sector_size <= u64::MAX,
        ensures
            r matches Ok(data) ==> {
                &&& data@.len() == sector_size
                &&& forall|t: int|
                    0 <= t < sector_size ==> (#[trigger] device_byte(
                        old(self).linear.contents@,
                        sector * sector_size + t,
                    ) matches Some(b) ==> data@[t] == b)
            },
            F::obeys_file_model() ==> (r matches Ok(data) ==> forall|t: int|
                0 <= t < sector_size ==> #[trigger] linear_byte(
                    old(self).linear.contents@,
                    old(self).fs.fs,
                    sector * sector_size + t,
                ) == Some(data@[t])),
            F::obeys_file_model() ==> forall|p: Seq<Seq<char>>|
                #[trigger] final(self).fs.fs.file_model(p) == old(self).fs.fs.file_model(p),
            r is Err ==> exists|k: u64| #[trigger] old(self).linear.contents@.contains_key(k)
                && old(self).linear.contents@[k] is File && k * 2048 < sector * sector_size + sector_size
                && sector * sector_size < (k + region_sectors(old(self).linear.contents@[k])) * 2048,
    {
        let ghost fs0 = self.fs.fs;
        let ghost m = self.linear.contents@;
        let offset = sector as u64 * sector_size as u64;
        let mut data = match self.read_linear(offset, sector_size as u64) {
            Ok(d) => d,
            Err(e) => return Err(e),
        };
        let dlen = data.len();
        let want = sector_size as usize;
        let mut k: usize = dlen;
        while k < want
            invariant
                dlen <= k <= want,
                data@.len() == k,
                dlen < want ==> forall|j: u64|
                    #[trigger] m.contains_key(j) ==> (j + region_sectors(m[j])) * 2048 <= offset + dlen,
                forall|t: int|
                    0 <= t < k ==> (#[trigger] device_byte(m, offset + t) matches Some(b) ==> data@[t] == b),
                F::obeys_file_model() ==> forall|t: int|
                    0 <= t < k ==> #[trigger] linear_byte(m, fs0, offset + t) == Some(data@[t]),
            decreases want - k,
        {
            proof {
                lemma_past_end(m, offset + k, offset + dlen);
                lemma_linear_of_device(m, fs0, offset + k);
            }
            data.push(0);
            k = k + 1;
        }
        Ok(data)
    }
}

/// Why a sector-linear image cannot be read.
#[derive(Debug, PartialEq, Eq)]
pub enum SectorLinearImageError<E> {
    /// The filesystem failed to read a file.
    Filesystem(E),
    /// The regions of the device are not well formed or overlap.
    InvalidDevice,
}

/// A sector-linear image is read through its filesystem; its bytes are
/// described by `linear_byte`.
impl<'a, F> DeviceModel for SectorLinearImage<'a, F> {
}

impl<'a, F: FilesystemCopier<[u8]>> BlockDeviceRead for SectorLinearImage<'a, F> {
    type ReadError = SectorLinearImageError<F::Error>;

    /// Fills `buffer` with the bytes of the image from `offset` on; bytes
    /// past the end of the device read as zeros.
    fn read(&mut self, offset: u64, buffer: &mut [u8]) -> (r: Result<(), SectorLinearImageError<F::Error>>)
        ensures
            final(buffer)@.len() == old(buffer)@.len(),
            (r matches Err(SectorLinearImageError::InvalidDevice)) <==> !readable(old(self).linear.contents@),
            r is Ok ==> forall|t: int|
                0 <= t < old(buffer)@.len() ==> (#[trigger] device_byte(old(self).linear.contents@, offset + t) matches Some(
                    b,
                ) ==> final(buffer)@[t] == b),
            F::obeys_file_model() && r is Ok ==> forall|t: int|
                0 <= t < old(buffer)@.len() ==> #[trigger] linear_byte(old(self).linear.contents@, old(self).fs.fs, offset + t)
                    == Some(final(buffer)@[t]),
            F::obeys_file_model() ==> forall|p: Seq<Seq<char>>|
                #[trigger] final(self).fs.fs.file_model(p) == old(self).fs.fs.file_model(p),
    {
        let ghost fs0 = self.fs.fs;
        if !self.linear.is_readable() {
            return Err(SectorLinearImageError::InvalidDevice);
        }
        let ghost m = self.linear.contents@;
        let len = buffer.len();
        let data = match self.read_linear(offset, len as u64) {
            Ok(d) => d,
            Err(e) => return Err(SectorLinearImageError::Filesystem(e)),
        };
        let dlen = data.len();
        let mut k: usize = 0;
        while k < len
            invariant
                k <= len,
                len == buffer@.len(),
                dlen == data@.len(),
                dlen <= len,
                readable(m),
                dlen < len ==> forall|j: u64|
                    #[trigger] m.contains_key(j) ==> (j + region_sectors(m[j])) * 2048 <= offset + dlen,
                forall|t: int|
                    0 <= t < dlen ==> (#[trigger] device_byte(m, offset + t) matches Some(b) ==> data@[t] == b),
                forall|t: int|
                    0 <= t < k ==> (#[trigger] device_byte(m, offset + t) matches Some(b) ==> buffer@[t] == b),
                F::obeys_file_model() ==> forall|t: int|
                    0 <= t < dlen ==> #[trigger] linear_byte(m, fs0, offset + t) == Some(data@[t]),
                F::obeys_file_model() ==> forall|t: int|
                    0 <= t < k ==> #[trigger] linear_byte(m, fs0, offset + t) == Some(buffer@[t]),
            decreases len - k,
        {
            if k < dlen {
                buffer[k] = data[k];
            } else {
                buffer[k] = 0;
                proof {
                    lemma_past_end(m, offset + k, offset + dlen);
                    lemma_linear_of_device(m, fs0, offset + k);
                }
            }
            k = k + 1;
        }
        Ok(())
    }
}

} // verus!
