//! The decisions of a scan of an overlay's source directory: which host
//! entries are looked at, which records of the providers get an instance,
//! and what is recorded once an instance exists. Listing the directory,
//! asking the providers and instantiating them is left to the caller.
use vstd::prelude::*;

verus! {

/// What a scan has recorded so far: how many provider instances exist
/// (instances are numbered from one), the instance of each provided record
/// of the overlay's root, and the instances made for each host entry.
pub struct OverlayScanState {
    pub instance_count: usize,
    pub provided: Vec<(String, usize)>,
    pub host_entries: Vec<(Vec<u8>, Vec<usize>)>,
}

/// What to do with the record a provider reported for a host entry.
#[derive(Debug, PartialEq, Eq, Structural)]
pub enum ScanAction {
    /// Nothing: the provider is not interested, or the record is provided
    /// already.
    Skip,
    /// Instantiate the provider; the instance gets this number.
    Instantiate { instance_idx: usize },
}

/// Whether two byte strings are equal.
fn bytes_equal(a: &Vec<u8>, b: &Vec<u8>) -> (r: bool)
    ensures
        r == (a@ == b@),
{
    if a.len() != b.len() {
        return false;
    }
    let mut i: usize = 0;
    while i < a.len()
        invariant
            i <= a@.len(),
            a@.len() == b@.len(),
            forall|j: int| 0 <= j < i ==> a@[j] == b@[j],
        decreases a@.len() - i,
    {
        if a[i] != b[i] {
            return false;
        }
        i = i + 1;
    }
    proof {
        assert(a@ =~= b@);
    }
    true
}

impl OverlayScanState {
    /// The provided records and their instances, by value.
    pub open spec fn provided_view(&self) -> Seq<(Seq<char>, usize)> {
        self.provided@.map_values(|p: (String, usize)| (p.0@, p.1))
    }

    /// The host entries and their instances, by value.
    pub open spec fn host_view(&self) -> Seq<(Seq<u8>, Seq<usize>)> {
        self.host_entries@.map_values(|e: (Vec<u8>, Vec<usize>)| (e.0@, e.1@))
    }

    /// The host entry `name` has been looked at in an earlier scan.
    pub open spec fn host_seen(&self, name: Seq<u8>) -> bool {
        exists|i: int| 0 <= i < self.host_view().len() && (#[trigger] self.host_view()[i]).0 == name
    }

    /// Some provider already provides the record `rec`.
    pub open spec fn record_known(&self, rec: Seq<char>) -> bool {
        exists|i: int| 0 <= i < self.provided_view().len() && (#[trigger] self.provided_view()[i]).0 == rec
    }

    /// A scan that has recorded nothing yet.
    pub fn new() -> (r: Self)
        ensures
            r.instance_count == 0,
            r.provided_view() == Seq::<(Seq<char>, usize)>::empty(),
            r.host_view() == Seq::<(Seq<u8>, Seq<usize>)>::empty(),
    {
        let r = OverlayScanState { instance_count: 0, provided: Vec::new(), host_entries: Vec::new() };
        proof {
            assert(r.provided_view() =~= Seq::<(Seq<char>, usize)>::empty());
            assert(r.host_view() =~= Seq::<(Seq<u8>, Seq<usize>)>::empty());
        }
        r
    }

    /// Where the host entry `name` is recorded, if it is.
    fn find_host(&self, name: &Vec<u8>) -> (r: Option<usize>)
        ensures
            match r {
                Some(i) => i < self.host_view().len() && self.host_view()[i as int].0 == name@ && forall|j: int|
                    0 <= j < i ==> (#[trigger] self.host_view()[j]).0 != name@,
                None => !self.host_seen(name@),
            },
    {
        let mut i: usize = 0;
        while i < self.host_entries.len()
            invariant
                i <= self.host_view().len(),
                self.host_view().len() == self.host_entries@.len(),
                forall|j: int| 0 <= j < i ==> (#[trigger] self.host_view()[j]).0 != name@,
            decreases self.host_entries@.len() - i,
        {
            if bytes_equal(&self.host_entries[i].0, name) {
                return Some(i);
            }
            i = i + 1;
        }
        None
    }

    /// Whether the host entry `name` was looked at in an earlier scan; a
    /// scan skips such an entry, since providers never change.
    pub fn host_entry_seen(&self, name: &Vec<u8>) -> (r: bool)
        ensures
            r == self.host_seen(name@),
    {
        self.find_host(name).is_some()
    }

    /// What to do with the record that a provider reported for a host
    /// entry that was not seen before: nothing where it reported none or
    /// the record is provided already, else instantiate it as the next
    /// instance.
    pub fn provider_action(&self, record: Option<&String>) -> (r: ScanAction)
        requires
            self.instance_count < usize::MAX,
        ensures
            record is None ==> r == ScanAction::Skip,
            record matches Some(s) && self.record_known(s@) ==> r == ScanAction::Skip,
            record matches Some(s) && !self.record_known(s@) ==> r == (ScanAction::Instantiate {
                instance_idx: (self.instance_count + 1) as usize,
            }),
    {
        let rec = match record {
            None => return ScanAction::Skip,
            Some(s) => s,
        };
        let mut i: usize = 0;
        while i < self.provided.len()
            invariant
                record == Some(rec),
                i <= self.provided_view().len(),
                self.provided_view().len() == self.provided@.len(),
                forall|j: int| 0 <= j < i ==> (#[trigger] self.provided_view()[j]).0 != rec@,
            decreases self.provided@.len() - i,
        {
            if self.provided[i].0 == *rec {
                proof {
                    assert(self.provided_view()[i as int].0 == rec@);
                    assert(self.record_known(rec@));
                }
                return ScanAction::Skip;
            }
            i = i + 1;
        }
        ScanAction::Instantiate { instance_idx: self.instance_count + 1 }
    }

    /// Records the instance made for `record` from the host entry `name`:
    /// it is the next instance, it provides `record`, and it is listed
    /// among the instances of `name`.
    pub fn record_instance(&mut self, name: &Vec<u8>, record: &String)
        requires
            old(self).instance_count < usize::MAX,
        ensures
            final(self).instance_count == old(self).instance_count + 1,
            final(self).provided_view() == old(self).provided_view().push(
                (record@, final(self).instance_count),
            ),
            !old(self).host_seen(name@) ==> final(self).host_view() == old(self).host_view().push(
                (name@, seq![final(self).instance_count]),
            ),
            old(self).host_seen(name@) ==> exists|i: int|
                0 <= i < old(self).host_view().len() && old(self).host_view()[i].0 == name@
                    && final(self).host_view() == old(self).host_view().update(
                    i,
                    (name@, old(self).host_view()[i].1.push(final(self).instance_count)),
                ),
    {
        let idx = self.instance_count + 1;
        let ghost before = *self;
        self.instance_count = idx;
        self.provided.push((record.clone(), idx));
        proof {
            assert(self.provided_view() =~= before.provided_view().push((record@, idx)));
        }
        match self.find_host(name) {
            Some(i) => {
                let mut entry = self.host_entries.remove(i);
                entry.1.push(idx);
                self.host_entries.insert(i, entry);
                proof {
                    assert(self.host_view() =~= before.host_view().update(
                        i as int,
                        (name@, before.host_view()[i as int].1.push(idx)),
                    ));
                }
            },
            None => {
                let mut list: Vec<usize> = Vec::new();
                list.push(idx);
                self.host_entries.push((name.clone(), list));
                proof {
                    assert(self.host_view() =~= before.host_view().push((name@, seq![idx])));
                }
            },
        }
    }
}

} // verus!
