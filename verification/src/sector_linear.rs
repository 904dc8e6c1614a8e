//! A sparse block device made of regions of sectors, each holding raw data,
//! a reference to a file, or a fill byte.
use vstd::prelude::*;

pub mod deferred_reader;

use std::collections::BTreeMap;
use vstd::std_specs::cmp::OrdSpec;
use vstd::std_specs::iter::IteratorSpec;

use crate::blockdev::{BlockDeviceWrite, DeviceModel};
use crate::path::pathref::PathRef;
use crate::path::pathvec::PathVec;

verus! {

broadcast use vstd::std_specs::btree::group_btree_axioms, vstd::laws_cmp::group_laws_cmp;

/// Contents of a region of the device, placed at a sector given by its key.
#[derive(Clone, Debug, PartialEq, Eq, PartialOrd, Ord)]
pub enum SectorLinearBlockRegion {
    /// Data filling the region; its length is a multiple of the sector size.
    RawData(Vec<u8>),
    /// The first `sectors` sectors of a file.
    File { path: PathVec, sectors: u64 },
    /// Sectors filled with one byte.
    Fill { byte: u8, sectors: u64 },
}

/// A region of sectors keyed by its first sector.
#[derive(Clone, Debug)]
pub struct SectorLinearBlockDevice {
    pub contents: BTreeMap<u64, SectorLinearBlockRegion>,
}

/// `k` is the largest key of `m`.
pub open spec fn is_last_key<V>(m: Map<u64, V>, k: u64) -> bool {
    m.contains_key(k) && forall|j: u64| m.contains_key(j) ==> j <= k
}

/// The entries of a map of sectors, by increasing key.
pub open spec fn sorted_entries_of<'a, V>(m: Map<u64, V>, r: Seq<(u64, &'a V)>) -> bool {
    &&& forall|i: int| 0 <= i < r.len() ==> #[trigger] m.contains_key(r[i].0) && m[r[i].0] == *r[i].1
    &&& forall|k: u64| #[trigger] m.contains_key(k) ==> exists|i: int| 0 <= i < r.len() && r[i].0 == k
    &&& forall|i: int, j: int| 0 <= i < j < r.len() ==> r[i].0 < r[j].0
}

/// `u64` keys are ordered as the integers are.
proof fn lemma_u64_keys_are_ordered()
    ensures
        vstd::std_specs::btree::key_obeys_cmp_spec::<u64>(),
{
}

/// The keys a map iterator yields increase.
proof fn lemma_increasing_keys(all: Seq<(&u64, &SectorLinearBlockRegion)>)
    requires
        vstd::std_specs::btree::increasing_seq(
            all.map_values(|kv: (&u64, &SectorLinearBlockRegion)| *kv.0),
        ),
    ensures
        forall|i: int, j: int| 0 <= i < j < all.len() ==> *all[i].0 < *all[j].0,
{
    let keys = all.map_values(|kv: (&u64, &SectorLinearBlockRegion)| *kv.0);
    assert forall|i: int, j: int| 0 <= i < j < all.len() implies *all[i].0 < *all[j].0 by {
        assert(keys[i] == *all[i].0);
        assert(keys[j] == *all[j].0);
        assert(keys[i].cmp_spec(&keys[j]) is Less);
    }
}

/// The entries of `m`, by increasing key.
fn sorted_entries(m: &BTreeMap<u64, SectorLinearBlockRegion>) -> (r: Vec<
    (u64, &SectorLinearBlockRegion),
>)
    ensures
        sorted_entries_of(m@, r@),
{
    proof {
        lemma_u64_keys_are_ordered();
    }
    let ghost all = vstd::std_specs::btree::spec_btree_map_iter(m).remaining();
    let entries = m.iter();
    proof {
        lemma_increasing_keys(all);
    }
    let mut out: Vec<(u64, &SectorLinearBlockRegion)> = Vec::new();
    for (k, v) in it: entries
        invariant
            it.seq() == all,
            out@.len() == it.index(),
            forall|i: int| 0 <= i < out@.len() ==> (#[trigger] out@[i]).0 == *all[i].0 && out@[i].1 == all[i].1,
    {
        out.push((*k, v));
    }
    proof {
        assert forall|k: u64| #[trigger] m@.contains_key(k) implies exists|i: int|
            0 <= i < out@.len() && out@[i].0 == k by {
            assert(all.contains((&k, &m@[k])));
            let i = choose|i: int| 0 <= i < all.len() && all[i] == (&k, &m@[k]);
            assert(out@[i].0 == k);
        }
        assert forall|i: int| 0 <= i < out@.len() implies #[trigger] m@.contains_key(out@[i].0) && m@[out@[i].0] == *out@[i].1 by {
            assert(m@.contains_key(*all[i].0));
        }
    }
    out
}

/// Contents of one sector of the device.
#[derive(Clone, Debug, PartialEq, Eq)]
pub enum SectorLinearBlockSectorContents<'a> {
    RawData(&'a [u8]),
    File(PathRef<'a>),
    Fill(u8),
}

/// Sectors a region occupies: those its contents need, and at least the
/// sector it starts at.
pub open spec fn region_sectors(r: SectorLinearBlockRegion) -> int {
    let used = match r {
        SectorLinearBlockRegion::RawData(d) => (d@.len() + 2047) as int / 2048,
        SectorLinearBlockRegion::File { sectors, .. } => sectors as int,
        SectorLinearBlockRegion::Fill { sectors, .. } => sectors as int,
    };
    if used < 1 {
        1
    } else {
        used
    }
}

/// Raw data fills whole sectors.
pub open spec fn region_wf(r: SectorLinearBlockRegion) -> bool {
    r matches SectorLinearBlockRegion::RawData(d) ==> d@.len() % 2048 == 0
}

impl SectorLinearBlockRegion {
    /// Number of sectors the region occupies, at least one.
    pub fn size_sectors(&self) -> (r: u64)
        requires
            region_wf(*self),
        ensures
            r == region_sectors(*self),
    {
        let used: u64 = match self {
            SectorLinearBlockRegion::RawData(data) => {
                let len = data.len();
                (len / 2048) as u64
            },
            SectorLinearBlockRegion::File { sectors, .. } => *sectors,
            SectorLinearBlockRegion::Fill { sectors, .. } => *sectors,
        };
        if used < 1 {
            1
        } else {
            used
        }
    }

    /// Number of bytes the region occupies.
    pub fn size_bytes(&self) -> (r: u64)
        requires
            region_wf(*self),
            region_sectors(*self) * 2048 <= u64::MAX,
        ensures
            r == region_sectors(*self) * 2048,
    {
        self.size_sectors() * 2048
    }

    /// The contents of the sector at `sector_offset` within the region.
    pub fn into_contents(&self, sector_offset: u64) -> (r: SectorLinearBlockSectorContents<'_>)
        requires
            region_wf(*self),
            sector_offset < region_sectors(*self),
            self matches SectorLinearBlockRegion::RawData(d) ==> (sector_offset + 1) * 2048 <= d@.len(),
        ensures
            match *self {
                SectorLinearBlockRegion::RawData(d) => r matches SectorLinearBlockSectorContents::RawData(
                    s,
                ) && s@ == d@.subrange(sector_offset * 2048, sector_offset * 2048 + 2048),
                SectorLinearBlockRegion::File { path, .. } => r
                    == SectorLinearBlockSectorContents::File(PathRef::PathVec(&path)),
                SectorLinearBlockRegion::Fill { byte, .. } => r
                    == SectorLinearBlockSectorContents::Fill(byte),
            },
    {
        match self {
            SectorLinearBlockRegion::RawData(data) => {
                let len = data.len();
                proof {
                    assert((sector_offset + 1) * 2048 <= len);
                }
                let start = (sector_offset as usize) * 2048;
                let end = start + 2048;
                SectorLinearBlockSectorContents::RawData(&data.as_slice()[start..end])
            },
            SectorLinearBlockRegion::File { path, .. } => SectorLinearBlockSectorContents::File(
                path.as_path_ref(),
            ),
            SectorLinearBlockRegion::Fill { byte, .. } => SectorLinearBlockSectorContents::Fill(
                *byte,
            ),
        }
    }
}

/// Every region is well formed and ends within the range of `u64`.
pub open spec fn regions_wf(m: Map<u64, SectorLinearBlockRegion>) -> bool {
    forall|k: u64| #[trigger] m.contains_key(k) ==> region_wf(m[k]) && k + region_sectors(m[k]) <= u64::MAX
}

/// `k` is the largest key of `m` that is at most `s`.
pub open spec fn is_floor_key<V>(m: Map<u64, V>, s: int, k: u64) -> bool {
    m.contains_key(k) && k <= s && forall|j: u64| m.contains_key(j) && j <= s ==> j <= k
}

/// `m` has a key that is at most `s`.
pub open spec fn has_key_at_most<V>(m: Map<u64, V>, s: int) -> bool {
    exists|j: u64| m.contains_key(j) && j <= s
}

/// A bound of a range of sectors.
#[derive(Clone, Copy, Debug, PartialEq, Eq, Structural)]
pub enum SectorBound {
    Included(u64),
    Excluded(u64),
    Unbounded,
}

/// `k` lies on the right side of a start bound.
pub open spec fn after_start(start: SectorBound, k: u64) -> bool {
    match start {
        SectorBound::Included(b) => b <= k,
        SectorBound::Excluded(b) => b < k,
        SectorBound::Unbounded => true,
    }
}

/// `k` lies on the right side of an end bound.
pub open spec fn before_end(end: SectorBound, k: u64) -> bool {
    match end {
        SectorBound::Included(b) => k <= b,
        SectorBound::Excluded(b) => k < b,
        SectorBound::Unbounded => true,
    }
}

/// The regions of `m` that start within the bounds.
pub open spec fn regions_in(
    m: Map<u64, SectorLinearBlockRegion>,
    start: SectorBound,
    end: SectorBound,
) -> Map<u64, SectorLinearBlockRegion> {
    m.restrict(Set::new(|k: u64| after_start(start, k) && before_end(end, k)))
}

/// The first sector a start bound includes, if it is bounded.
pub open spec fn first_included(start: SectorBound) -> Option<u64> {
    match start {
        SectorBound::Included(b) => Some(b),
        SectorBound::Excluded(b) => Some((b + 1) as u64),
        SectorBound::Unbounded => None,
    }
}

/// The region of `m` holding sector `s`, found as the region with the largest
/// start at or below `s`.
pub open spec fn holds_sector(m: Map<u64, SectorLinearBlockRegion>, s: int, k: u64) -> bool {
    is_floor_key(m, s, k) && s < k + region_sectors(m[k])
}

/// Last of the sorted entries whose key is at most `s`.
fn floor_entry<'a>(entries: &Vec<(u64, &'a SectorLinearBlockRegion)>, s: u64, Ghost(m): Ghost<
    Map<u64, SectorLinearBlockRegion>,
>) -> (r: Option<(u64, &'a SectorLinearBlockRegion)>)
    requires
        sorted_entries_of(m, entries@),
    ensures
        match r {
            Some((k, v)) => is_floor_key(m, s as int, k) && m[k] == *v,
            None => !has_key_at_most(m, s as int),
        },
{
    let n = entries.len();
    let mut i: usize = 0;
    while i < n && entries[i].0 <= s
        invariant
            i <= n,
            n == entries@.len(),
            sorted_entries_of(m, entries@),
            forall|j: int| 0 <= j < i ==> entries@[j].0 <= s,
        decreases n - i,
    {
        i = i + 1;
    }
    if i == 0 {
        proof {
            assert forall|j: u64| m.contains_key(j) implies j > s by {
                let t = choose|t: int| 0 <= t < entries@.len() && entries@[t].0 == j;
                if t > 0 {
                    assert(entries@[0].0 < entries@[t].0);
                }
            }
        }
        None
    } else {
        let (k, v) = entries[i - 1];
        proof {
            assert forall|j: u64| m.contains_key(j) && j <= s implies j <= k by {
                let t = choose|t: int| 0 <= t < entries@.len() && entries@[t].0 == j;
                if t > i - 1 {
                    if t > i {
                        assert(entries@[i as int].0 < entries@[t].0);
                    }
                }
            }
            assert(m.contains_key(k));
        }
        Some((k, v))
    }
}

impl SectorLinearBlockDevice {
    /// An empty device.
    pub fn new() -> (r: Self)
        ensures
            r.contents@ == Map::<u64, SectorLinearBlockRegion>::empty(),
    {
        SectorLinearBlockDevice { contents: BTreeMap::new() }
    }

    fn last_region(&self) -> (r: Option<(u64, &SectorLinearBlockRegion)>)
        ensures
            match r {
                Some((k, v)) => is_last_key(self.contents@, k) && self.contents@[k] == *v,
                None => self.contents@.dom().is_empty(),
            },
    {
        let entries = sorted_entries(&self.contents);
        let n = entries.len();
        if n == 0 {
            proof {
                if !self.contents@.dom().is_empty() {
                    let k = self.contents@.dom().choose();
                    assert(self.contents@.contains_key(k));
                }
            }
            None
        } else {
            let (k, v) = entries[n - 1];
            proof {
                assert forall|j: u64| self.contents@.contains_key(j) implies j <= k by {
                    let i = choose|i: int| 0 <= i < entries@.len() && entries@[i].0 == j;
                    if i < n - 1 {
                        assert(entries@[i].0 < entries@[n - 1].0);
                    }
                }
            }
            Some((k, v))
        }
    }

    /// Number of sectors up to the end of the last region.
    pub fn num_sectors(&self) -> (r: u64)
        requires
            regions_wf(self.contents@),
        ensures
            self.contents@.dom().is_empty() ==> r == 0,
            !self.contents@.dom().is_empty() ==> exists|k: u64| #[trigger] is_last_key(self.contents@, k),
            forall|k: u64| #[trigger] is_last_key(self.contents@, k) ==> r == k + region_sectors(
                self.contents@[k],
            ),
    {
        match self.last_region() {
            Some((k, v)) => {
                proof {
                    assert(self.contents@.contains_key(k));
                    assert forall|j: u64| #[trigger] is_last_key(self.contents@, j) implies j == k by {
                    }
                }
                k + v.size_sectors()
            },
            None => 0,
        }
    }

    /// Size of the device in bytes, up to the end of the last region.
    pub fn size(&self) -> (r: u64)
        requires
            regions_wf(self.contents@),
            forall|k: u64| #[trigger] is_last_key(self.contents@, k) ==> (k + region_sectors(
                self.contents@[k],
            )) * 2048 <= u64::MAX,
        ensures
            self.contents@.dom().is_empty() ==> r == 0,
            forall|k: u64| #[trigger] is_last_key(self.contents@, k) ==> r == (k + region_sectors(
                self.contents@[k],
            )) * 2048,
    {
        let n = self.num_sectors();
        proof {
            if !self.contents@.dom().is_empty() {
                let k = self.contents@.dom().choose();
                assert(self.contents@.contains_key(k));
            }
        }
        match self.last_region() {
            Some((k, _)) => {
                assert(is_last_key(self.contents@, k));
            },
            None => {},
        }
        n * 2048
    }

    /// Removes every region.
    pub fn clear(&mut self)
        ensures
            final(self).contents@ == Map::<u64, SectorLinearBlockRegion>::empty(),
    {
        self.contents.clear();
    }

    fn get_or_empty(&self, sector: u64) -> (r: Option<(u64, &SectorLinearBlockRegion)>)
        requires
            regions_wf(self.contents@),
        ensures
            match r {
                Some((k, v)) => holds_sector(self.contents@, sector as int, k) && self.contents@[k]
                    == *v,
                None => forall|k: u64| !#[trigger] holds_sector(self.contents@, sector as int, k),
            },
    {
        let entries = sorted_entries(&self.contents);
        match floor_entry(&entries, sector, Ghost(self.contents@)) {
            Some((k, v)) => {
                proof {
                    assert(self.contents@.contains_key(k));
                }
                if sector < k + v.size_sectors() {
                    Some((k, v))
                } else {
                    proof {
                        assert forall|j: u64| !#[trigger] holds_sector(self.contents@, sector as int, j) by {
                            if holds_sector(self.contents@, sector as int, j) {
                                assert(j == k);
                            }
                        }
                    }
                    None
                }
            },
            None => None,
        }
    }

    /// The contents of `sector`: the part of the region holding it, or zero
    /// fill when no region does.
    pub fn get(&self, sector: u64) -> (r: SectorLinearBlockSectorContents<'_>)
        requires
            regions_wf(self.contents@),
            forall|k: u64| #[trigger] holds_sector(self.contents@, sector as int, k) ==> (
            self.contents@[k] matches SectorLinearBlockRegion::RawData(d) ==> (sector - k + 1)
                * 2048 <= d@.len()),
        ensures
            forall|k: u64| #[trigger]
                holds_sector(self.contents@, sector as int, k) ==> match self.contents@[k] {
                    SectorLinearBlockRegion::RawData(d) => r matches SectorLinearBlockSectorContents::RawData(
                        s,
                    ) && s@ == d@.subrange((sector - k) * 2048, (sector - k) * 2048 + 2048),
                    SectorLinearBlockRegion::File { path, .. } => r
                        == SectorLinearBlockSectorContents::File(PathRef::PathVec(&path)),
                    SectorLinearBlockRegion::Fill { byte, .. } => r
                        == SectorLinearBlockSectorContents::Fill(byte),
                },
            (forall|k: u64| !#[trigger] holds_sector(self.contents@, sector as int, k)) ==> r
                == SectorLinearBlockSectorContents::Fill(0),
    {
        match self.get_or_empty(sector) {
            Some((k, v)) => {
                proof {
                    assert(self.contents@.contains_key(k));
                    assert forall|j: u64| #[trigger] holds_sector(self.contents@, sector as int, j)
                        implies j == k by {
                    }
                }
                v.into_contents(sector - k)
            },
            None => SectorLinearBlockSectorContents::Fill(0),
        }
    }

    /// The regions that hold sectors in the range: the region holding the
    /// first sector of the range when it starts before the range, then the
    /// regions starting within the range, by increasing sector.
    #[verifier::spinoff_prover]
    #[verifier::rlimit(30)]
    pub fn sector_range(&self, start: SectorBound, end: SectorBound) -> (r: Vec<
        (u64, &SectorLinearBlockRegion),
    >)
        requires
            regions_wf(self.contents@),
            start != SectorBound::Excluded(u64::MAX),
        ensures
            ({
                let m = self.contents@;
                let lead = match first_included(start) {
                    Some(b) => exists|k: u64| holds_sector(m, b as int, k) && k != b,
                    None => false,
                };
                &&& lead ==> r@.len() > 0 && holds_sector(m, first_included(start)->0 as int, r@[0].0)
                    && r@[0].0 != first_included(start)->0 && m[r@[0].0] == *r@[0].1
                &&& sorted_entries_of(
                    regions_in(m, start, end),
                    if lead {
                        r@.skip(1)
                    } else {
                        r@
                    },
                )
            }),
    {
        let entries = sorted_entries(&self.contents);
        let ghost m = self.contents@;
        let mut out: Vec<(u64, &SectorLinearBlockRegion)> = Vec::new();
        let first: Option<u64> = match start {
            SectorBound::Included(b) => Some(b),
            SectorBound::Excluded(b) => Some(b + 1),
            SectorBound::Unbounded => None,
        };
        let mut lead = false;
        if let Some(b) = first {
            if let Some((k, v)) = self.get_or_empty(b) {
                if k != b {
                    out.push((k, v));
                    lead = true;
                }
            } else {
            }
        }
        let ghost lead_spec = match first_included(start) {
            Some(b) => exists|k: u64| holds_sector(m, b as int, k) && k != b,
            None => false,
        };
        proof {
            if let Some(b) = first {
                if lead_spec {
                    let k = choose|k: u64| holds_sector(m, b as int, k) && k != b;
                    assert(lead);
                    assert(out@[0].0 == k) by {
                        assert(is_floor_key(m, b as int, out@[0].0));
                    }
                } else {
                    assert(!lead);
                }
            }
        }
        let ghost offset: int = if lead { 1 } else { 0 };
        let ghost inr = regions_in(m, start, end);
        let n = entries.len();
        let mut i: usize = 0;
        while i < n
            invariant
                i <= n,
                n == entries@.len(),
                sorted_entries_of(m, entries@),
                m == self.contents@,
                inr == regions_in(m, start, end),
                lead_spec == lead,
                offset == if lead { 1int } else { 0 },
                offset <= out@.len(),
                lead ==> holds_sector(m, first_included(start)->0 as int, out@[0].0)
                    && out@[0].0 != first_included(start)->0 && m[out@[0].0] == *out@[0].1,
                forall|t: int| 0 <= t < out@.len() - offset ==> #[trigger] inr.contains_key(
                    out@[t + offset].0,
                ) && inr[out@[t + offset].0] == *out@[t + offset].1,
                forall|t: int, u: int|
                    offset <= t < u < out@.len() ==> out@[t].0 < out@[u].0,
                forall|t: int| 0 <= t < i ==> #[trigger] inr.contains_key(entries@[t].0) ==> exists|u: int|
                    offset <= u < out@.len() && out@[u].0 == entries@[t].0,
                forall|t: int|
                    #![trigger out@[t]]
                    offset <= t < out@.len() ==> exists|u: int|
                        #![trigger entries@[u]]
                        0 <= u < i && out@[t].0 == entries@[u].0,
            decreases n - i,
        {
            let (k, v) = entries[i];
            let in_start = match start {
                SectorBound::Included(b) => b <= k,
                SectorBound::Excluded(b) => b < k,
                SectorBound::Unbounded => true,
            };
            let in_end = match end {
                SectorBound::Included(b) => k <= b,
                SectorBound::Excluded(b) => k < b,
                SectorBound::Unbounded => true,
            };
            if in_start && in_end {
                let ghost prev = out@;
                out.push((k, v));
                proof {
                    assert(m.contains_key(k));
                    assert(inr.contains_key(k));
                    assert forall|t: int| offset <= t < out@.len() - 1 implies out@[t].0 < k by {
                        let u = choose|u: int| 0 <= u < i && prev[t].0 == entries@[u].0;
                        assert(entries@[u].0 < entries@[i as int].0);
                    }
                    assert(out@[out@.len() - 1] == (k, v));
                    assert forall|t: int| 0 <= t < out@.len() - offset implies #[trigger] inr.contains_key(
                        out@[t + offset].0,
                    ) && inr[out@[t + offset].0] == *out@[t + offset].1 by {
                        if t + offset < prev.len() {
                            assert(out@[t + offset] == prev[t + offset]);
                        }
                    }
                    assert forall|t: int|
                        0 <= t < i + 1 && #[trigger] inr.contains_key(entries@[t].0) implies exists|u: int|
                        offset <= u < out@.len() && out@[u].0 == entries@[t].0 by {
                        if t < i {
                            let u = choose|u: int| offset <= u < prev.len() && prev[u].0 == entries@[t].0;
                            assert(out@[u] == prev[u]);
                        } else {
                            assert(out@[out@.len() - 1].0 == entries@[t].0);
                        }
                    }
                    assert forall|t: int|
                        #![trigger out@[t]]
                        offset <= t < out@.len() implies exists|u: int|
                            #![trigger entries@[u]]
                            0 <= u < i + 1 && out@[t].0 == entries@[u].0 by {
                        if t < out@.len() - 1 {
                            assert(out@[t] == prev[t]);
                            let u = choose|u: int| 0 <= u < i && prev[t].0 == entries@[u].0;
                            assert(out@[t].0 == entries@[u].0);
                        } else {
                            assert(out@[t].0 == entries@[i as int].0);
                        }
                    }
                }
            } else {
                proof {
                    assert(!inr.contains_key(k));
                }
            }
            i = i + 1;
        }
        proof {
            let tail = if lead { out@.skip(1) } else { out@ };
            assert forall|t: int| 0 <= t < tail.len() implies #[trigger] inr.contains_key(tail[t].0)
                && inr[tail[t].0] == *tail[t].1 by {
                assert(tail[t] == out@[t + offset]);
            }
            assert forall|k: u64| #[trigger] inr.contains_key(k) implies exists|t: int|
                0 <= t < tail.len() && tail[t].0 == k by {
                let u = choose|u: int| 0 <= u < entries@.len() && entries@[u].0 == k;
                let w = choose|w: int| offset <= w < out@.len() && out@[w].0 == entries@[u].0;
                assert(tail[w - offset] == out@[w]);
            }
            assert forall|t: int, u: int| 0 <= t < u < tail.len() implies tail[t].0 < tail[u].0 by {
                assert(tail[t] == out@[t + offset]);
                assert(tail[u] == out@[u + offset]);
            }
        }
        out
    }

    /// Whether `num_sectors` sectors from `sector` on are free: the region
    /// with the largest start before their end must end at or before
    /// `sector`.
    pub fn check_sector_range_free(&self, sector: u64, num_sectors: u64) -> (r: bool)
        requires
            regions_wf(self.contents@),
            sector + num_sectors <= u64::MAX,
        ensures
            r == range_free(self.contents@, sector as int, num_sectors as int),
    {
        let end = sector + num_sectors;
        if end == 0 {
            return true;
        }
        let entries = sorted_entries(&self.contents);
        match floor_entry(&entries, end - 1, Ghost(self.contents@)) {
            Some((k, v)) => {
                proof {
                    assert(self.contents@.contains_key(k));
                    assert forall|j: u64| #[trigger]
                        is_floor_key(self.contents@, sector + num_sectors - 1, j) implies j == k by {
                    }
                }
                k + v.size_sectors() <= sector
            },
            None => true,
        }
    }
}

/// Whether `num_sectors` sectors from `sector` on are free, in the sense of
/// `check_sector_range_free`.
pub open spec fn range_free(m: Map<u64, SectorLinearBlockRegion>, sector: int, num_sectors: int) -> bool {
    !has_key_at_most(m, sector + num_sectors - 1) || forall|k: u64|
        #[trigger] is_floor_key(m, sector + num_sectors - 1, k) ==> k + region_sectors(m[k]) <= sector
}

/// A range of sectors in which some region starts is never free.
pub proof fn law_range_taken_where_a_region_starts(
    m: Map<u64, SectorLinearBlockRegion>,
    sector: int,
    num_sectors: int,
    k: u64,
)
    requires
        m.contains_key(k),
        sector <= k < sector + num_sectors,
    ensures
        !range_free(m, sector, num_sectors),
{
    let last = sector + num_sectors - 1;
    assert(has_key_at_most(m, last));
    assert forall|f: u64| #[trigger] is_floor_key(m, last, f) implies f + region_sectors(m[f]) > sector by {
        assert(k <= f);
    }
    if range_free(m, sector, num_sectors) {
        let f = choose|f: u64| is_floor_key(m, last, f);
        lemma_floor_key_exists(m, last, k);
        assert(is_floor_key(m, last, f));
        assert(f + region_sectors(m[f]) > sector);
    }
}

/// Where `m` has a key at most `s`, it has a largest one.
proof fn lemma_floor_key_exists(m: Map<u64, SectorLinearBlockRegion>, s: int, k: u64)
    requires
        m.contains_key(k),
        k <= s,
    ensures
        exists|f: u64| is_floor_key(m, s, f),
    decreases s - k,
{
    if exists|j: u64| m.contains_key(j) && j <= s && j > k {
        let j = choose|j: u64| m.contains_key(j) && j <= s && j > k;
        lemma_floor_key_exists(m, s, j);
    } else {
        assert(is_floor_key(m, s, k));
    }
}

/// Of regions that do not overlap one another, a range of sectors is free
/// exactly when none of them shares a sector with it.
pub proof fn law_range_free_iff_untouched(m: Map<u64, SectorLinearBlockRegion>, sector: int, num_sectors: int)
    requires
        num_sectors > 0,
        sector >= 0,
        forall|a: u64, b: u64|
            #![trigger m.contains_key(a), m.contains_key(b)]
            m.contains_key(a) && m.contains_key(b) && a < b ==> a + region_sectors(m[a]) <= b,
    ensures
        range_free(m, sector, num_sectors) <==> forall|k: u64|
            #[trigger] m.contains_key(k) ==> k + region_sectors(m[k]) <= sector || sector + num_sectors <= k,
{
    let last = sector + num_sectors - 1;
    if range_free(m, sector, num_sectors) {
        assert forall|k: u64| #[trigger] m.contains_key(k) implies k + region_sectors(m[k]) <= sector || sector
            + num_sectors <= k by {
            if k <= last {
                lemma_floor_key_exists(m, last, k);
                let f = choose|f: u64| is_floor_key(m, last, f);
                assert(k <= f);
                if k < f {
                    assert(m.contains_key(k) && m.contains_key(f));
                }
            }
        }
    }
    if forall|k: u64| #[trigger] m.contains_key(k) ==> k + region_sectors(m[k]) <= sector || sector + num_sectors <= k {
        assert forall|f: u64| #[trigger] is_floor_key(m, last, f) implies f + region_sectors(m[f]) <= sector by {
            assert(m.contains_key(f));
        }
    }
}

impl SectorLinearBlockDevice {
    /// Writes `buffer` at byte `offset`, which must start a sector, as raw
    /// data padded with zeros to whole sectors. The sectors must be free and
    /// no region may start at the same sector.
    pub fn write_raw(&mut self, offset: u64, buffer: &[u8])
        requires
            regions_wf(old(self).contents@),
            offset % 2048 == 0,
            offset / 2048 + (buffer@.len() + 2047) / 2048 <= u64::MAX,
            buffer@.len() + 2047 <= usize::MAX,
            range_free(old(self).contents@, (offset / 2048) as int, (buffer@.len() + 2047) as int / 2048),
            !old(self).contents@.contains_key((offset / 2048) as u64),
        ensures
            final(self).contents@.dom() == old(self).contents@.dom().insert((offset / 2048) as u64),
            forall|k: u64| k != offset / 2048 && #[trigger] old(self).contents@.contains_key(k) ==> final(self).contents@[k]
                == old(self).contents@[k],
            final(self).contents@[(offset / 2048) as u64] matches SectorLinearBlockRegion::RawData(d)
                && d@.len() == (buffer@.len() + 2047) / 2048 * 2048 && d@.take(buffer@.len() as int) == buffer@
                && forall|i: int| buffer@.len() <= i < d@.len() ==> d@[i] == 0u8,
    {
        let sector = offset / 2048;
        let len = buffer.len();
        let padded = (len + 2047) / 2048 * 2048;
        let mut data: Vec<u8> = Vec::new();
        let mut i: usize = 0;
        while i < padded
            invariant
                i <= padded,
                len == buffer@.len(),
                padded == (len + 2047) / 2048 * 2048,
                data@.len() == i,
                forall|j: int| 0 <= j < i && j < len ==> data@[j] == buffer@[j],
                forall|j: int| len <= j < i ==> data@[j] == 0u8,
            decreases padded - i,
        {
            if i < len {
                data.push(buffer[i]);
            } else {
                data.push(0);
            }
            i = i + 1;
        }
        proof {
            assert(data@.take(len as int) =~= buffer@);
        }
        self.contents.insert(sector, SectorLinearBlockRegion::RawData(data));
    }
}

impl Default for SectorLinearBlockDevice {
    fn default() -> (r: Self)
        ensures
            r.contents@ == Map::<u64, SectorLinearBlockRegion>::empty(),
    {
        SectorLinearBlockDevice::new()
    }
}

/// Why a write to a sector-linear device is refused.
#[derive(Copy, Clone, Debug, PartialEq, Eq, Structural)]
pub enum SectorLinearError {
    /// The write does not start at a sector boundary.
    Misaligned,
    /// The sectors written are already taken.
    Occupied,
    /// The regions of the device are not well formed, or the write reaches
    /// past the largest offset there is.
    OutOfRange,
}

impl SectorLinearBlockDevice {
    /// Whether every region is well formed and ends within the range of
    /// `u64` sectors.
    pub fn regions_valid(&self) -> (r: bool)
        ensures
            r == regions_wf(self.contents@),
    {
        let entries = sorted_entries(&self.contents);
        let ghost m = self.contents@;
        let n = entries.len();
        let mut i: usize = 0;
        while i < n
            invariant
                i <= n,
                n == entries@.len(),
                m == self.contents@,
                sorted_entries_of(m, entries@),
                forall|t: int|
                    0 <= t < i ==> region_wf(m[#[trigger] entries@[t].0]) && entries@[t].0 + region_sectors(
                        m[entries@[t].0],
                    ) <= u64::MAX,
            decreases n - i,
        {
            let (k, v) = entries[i];
            proof {
                assert(m.contains_key(k) && m[k] == *v);
            }
            let wf = match v {
                SectorLinearBlockRegion::RawData(d) => d.len() % 2048 == 0,
                _ => true,
            };
            if !wf {
                return false;
            }
            if k.checked_add(v.size_sectors()).is_none() {
                return false;
            }
            i = i + 1;
        }
        proof {
            assert forall|k: u64| #[trigger] m.contains_key(k) implies region_wf(m[k]) && k + region_sectors(m[k])
                <= u64::MAX by {
                let t = choose|t: int| 0 <= t < entries@.len() && entries@[t].0 == k;
            }
        }
        true
    }
}

/// The region at `k` of `m` is well formed, ends within the range of `u64`
/// bytes, and holds some data where it is raw data.
pub open spec fn region_readable(m: Map<u64, SectorLinearBlockRegion>, k: u64) -> bool {
    &&& region_wf(m[k])
    &&& k + region_sectors(m[k]) <= u64::MAX
    &&& (k + region_sectors(m[k])) * 2048 <= u64::MAX
    &&& (m[k] matches SectorLinearBlockRegion::RawData(d) ==> d@.len() > 0)
}

impl SectorLinearBlockDevice {
    /// Whether the device can be read linearly: its regions are well
    /// formed, hold some data where they are raw data, end within the range
    /// of `u64` bytes, and do not overlap.
    pub fn is_readable(&self) -> (r: bool)
        ensures
            r == crate::linear_image::readable(self.contents@),
    {
        let entries = sorted_entries(&self.contents);
        let ghost m = self.contents@;
        let n = entries.len();
        let mut i: usize = 0;
        while i < n
            invariant
                i <= n,
                n == entries@.len(),
                m == self.contents@,
                sorted_entries_of(m, entries@),
                forall|t: int| 0 <= t < i ==> region_readable(m, #[trigger] entries@[t].0),
                forall|s: int, t: int|
                    0 <= s < t < i ==> #[trigger] entries@[s].0 + region_sectors(m[entries@[s].0])
                        <= #[trigger] entries@[t].0,
            decreases n - i,
        {
            let (k, v) = entries[i];
            proof {
                assert(m.contains_key(k) && m[k] == *v);
            }
            let ok = match v {
                SectorLinearBlockRegion::RawData(d) => d.len() % 2048 == 0 && d.len() > 0,
                _ => true,
            };
            if !ok {
                return false;
            }
            let size = v.size_sectors();
            if k > u64::MAX - size {
                return false;
            }
            let end = k + size;
            if end > u64::MAX / 2048 {
                return false;
            }
            if i > 0 {
                let (pk, pv) = entries[i - 1];
                proof {
                    let j: int = i - 1;
                    assert(0 <= j < entries@.len());
                    assert(m.contains_key(entries@[j].0));
                    assert(m[entries@[j].0] == *entries@[j].1);
                    assert(region_readable(m, entries@[j].0));
                }
                if pk + pv.size_sectors() > k {
                    proof {
                        assert(pk < k);
                    }
                    return false;
                }
                proof {
                    assert forall|s: int| 0 <= s < i implies #[trigger] entries@[s].0 + region_sectors(
                        m[entries@[s].0],
                    ) <= k by {
                        if s < i - 1 {
                            assert(entries@[s].0 + region_sectors(m[entries@[s].0]) <= entries@[i - 1].0);
                        }
                    }
                }
            }
            i = i + 1;
        }
        proof {
            assert forall|a: u64, b: u64|
                #![trigger m.contains_key(a), m.contains_key(b)]
                m.contains_key(a) && m.contains_key(b) && a < b implies a + region_sectors(m[a]) <= b by {
                let s = choose|s: int| 0 <= s < entries@.len() && entries@[s].0 == a;
                let t = choose|t: int| 0 <= t < entries@.len() && entries@[t].0 == b;
                if t < s {
                    assert(entries@[t].0 < entries@[s].0);
                }
                assert(s != t);
            }
            assert forall|k: u64| #[trigger] m.contains_key(k) implies region_readable(m, k) by {
                let t = choose|t: int| 0 <= t < entries@.len() && entries@[t].0 == k;
                assert(region_readable(m, entries@[t].0));
            }
        }
        true
    }
}

/// A sector-linear device records regions, not bytes.
impl DeviceModel for SectorLinearBlockDevice {
}

impl BlockDeviceWrite for SectorLinearBlockDevice {
    type WriteError = SectorLinearError;

    /// Stores `buffer` as raw data from the sector at `offset`, padded with
    /// zeros to whole sectors. Refused where `offset` is not at a sector
    /// boundary or the sectors are taken.
    fn write(&mut self, offset: u64, buffer: &[u8]) -> (r: Result<(), SectorLinearError>)
        ensures
            r is Ok ==> final(self).contents@.dom() == old(self).contents@.dom().insert((offset / 2048) as u64),
            r is Ok ==> (final(self).contents@[(offset / 2048) as u64] matches SectorLinearBlockRegion::RawData(d)
                && d@.take(buffer@.len() as int) == buffer@),
            r is Ok ==> forall|k: u64|
                k != offset / 2048 && #[trigger] old(self).contents@.contains_key(k) ==> final(self).contents@[k]
                    == old(self).contents@[k],
            r == Err::<(), SectorLinearError>(SectorLinearError::Misaligned) <==> offset % 2048 != 0,
            r is Err ==> final(self).contents@ == old(self).contents@,
    {
        if offset % 2048 != 0 {
            return Err(SectorLinearError::Misaligned);
        }
        if !self.regions_valid() {
            return Err(SectorLinearError::OutOfRange);
        }
        let len = buffer.len();
        if len > usize::MAX - 2047 {
            return Err(SectorLinearError::OutOfRange);
        }
        let sectors = ((len + 2047) / 2048) as u64;
        let sector = offset / 2048;
        if sector > u64::MAX - sectors {
            return Err(SectorLinearError::OutOfRange);
        }
        if !self.check_sector_range_free(sector, sectors) || self.contents.contains_key(&sector) {
            return Err(SectorLinearError::Occupied);
        }
        self.write_raw(offset, buffer);
        Ok(())
    }

    /// The size of the device, in bytes.
    fn len(&mut self) -> (r: Result<u64, SectorLinearError>)
        ensures
            *final(self) == *old(self),
            r matches Ok(v) ==> (old(self).contents@.dom().is_empty() ==> v == 0) && forall|k: u64|
                #[trigger] is_last_key(old(self).contents@, k) ==> v == (k + region_sectors(old(self).contents@[k]))
                    * 2048,
            r is Err <==> !regions_wf(old(self).contents@) || exists|k: u64|
                #[trigger] is_last_key(old(self).contents@, k) && (k + region_sectors(old(self).contents@[k]))
                    * 2048 > u64::MAX,
            r is Err ==> r == Err::<u64, SectorLinearError>(SectorLinearError::OutOfRange),
    {
        if !self.regions_valid() {
            return Err(SectorLinearError::OutOfRange);
        }
        let n = self.num_sectors();
        if n > u64::MAX / 2048 {
            return Err(SectorLinearError::OutOfRange);
        }
        Ok(n * 2048)
    }
}

} // verus!
