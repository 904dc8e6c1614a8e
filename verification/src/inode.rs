//! Inode numbers for served filesystems: each distinct entry is given the
//! next free number, from 2 on, and keeps it.
use vstd::prelude::*;

use vstd::std_specs::cmp::PartialEqSpec;

verus! {

/// The first inode number that is given to an entry; 1 is the root's.
pub const FIRST_INODE: u64 = 2;

/// The entries that have been given inode numbers, in the order they were
/// given: the entry at position `i` has inode `i + 2`.
pub struct INodeCache<T> {
    entries: Vec<T>,
}

/// What an inode resolves to: an entry, the root (which has no entry of
/// its own), or nothing.
pub enum INodeLookupResult<T> {
    Value(T),
    RootEntry,
    NoEntry,
}

impl<T> INodeLookupResult<T> {
    /// Maps an entry with `map_val` and the root with `map_root`; `None`
    /// where there is nothing.
    pub fn some<R, MapVal: FnOnce(T) -> R, MapRoot: FnOnce() -> R>(self, map_val: MapVal, map_root: MapRoot) -> (r:
        Option<R>)
        requires
            self matches INodeLookupResult::Value(v) ==> map_val.requires((v,)),
            self is RootEntry ==> map_root.requires(()),
        ensures
            match self {
                INodeLookupResult::Value(v) => r matches Some(x) && map_val.ensures((v,), x),
                INodeLookupResult::RootEntry => r matches Some(x) && map_root.ensures((), x),
                INodeLookupResult::NoEntry => r is None,
            },
    {
        match self {
            INodeLookupResult::Value(val) => Some(map_val(val)),
            INodeLookupResult::RootEntry => Some(map_root()),
            INodeLookupResult::NoEntry => None,
        }
    }
}

impl<T: PartialEq + Clone> Default for INodeCache<T> {
    fn default() -> (r: Self)
        ensures
            r@ == Seq::<T>::empty(),
    {
        INodeCache { entries: Vec::new() }
    }
}

/// The first position of `s` whose entry equals `x`, as `==` on `T`
/// compares them; `s.len()` where there is none.
pub open spec fn first_equal<T: PartialEq>(s: Seq<T>, x: T) -> int
    decreases s.len(),
{
    if s.len() == 0 {
        0
    } else if first_equal(s.drop_last(), x) < s.len() - 1 {
        first_equal(s.drop_last(), x)
    } else if s.last().eq_spec(&x) {
        s.len() - 1
    } else {
        s.len() as int
    }
}

proof fn lemma_first_equal<T: PartialEq>(s: Seq<T>, x: T)
    ensures
        0 <= first_equal(s, x) <= s.len(),
        first_equal(s, x) < s.len() ==> s[first_equal(s, x)].eq_spec(&x),
        forall|i: int| 0 <= i < first_equal(s, x) ==> !(#[trigger] s[i]).eq_spec(&x),
    decreases s.len(),
{
    if s.len() > 0 {
        lemma_first_equal(s.drop_last(), x);
        assert forall|i: int| 0 <= i < s.len() - 1 implies #[trigger] s[i] == s.drop_last()[i] by {}
    }
}

/// An entry keeps its inode: recording another entry does not change
/// which position the first entry equal to `x` has, once there is one.
pub proof fn lemma_inode_is_kept<T: PartialEq>(s: Seq<T>, y: T, x: T)
    requires
        first_equal(s, x) < s.len(),
    ensures
        first_equal(s.push(y), x) == first_equal(s, x),
{
    assert(s.push(y).drop_last() =~= s);
}

/// Asking again for the inode of an entry gives the same inode: once an
/// entry has been recorded at the end, as a copy equal to it, the first
/// entry equal to it is that copy.
pub proof fn law_inode_is_stable<T: PartialEq>(s: Seq<T>, x: T, c: T)
    requires
        first_equal(s, x) == s.len(),
        c.eq_spec(&x),
    ensures
        first_equal(s.push(c), x) == s.len(),
{
    assert(s.push(c).drop_last() =~= s);
}

/// The entry that an inode was given to equals the entry it was asked for:
/// entries that are not equal never share an inode.
pub proof fn law_inode_names_its_entry<T: PartialEq>(s: Seq<T>, x: T)
    requires
        first_equal(s, x) < s.len(),
    ensures
        s[first_equal(s, x)].eq_spec(&x),
{
    lemma_first_equal(s, x);
}

impl<T> View for INodeCache<T> {
    type V = Seq<T>;

    /// The entries in the order they were given inode numbers.
    closed spec fn view(&self) -> Seq<T> {
        self.entries@
    }
}

impl<T: PartialEq + Clone> INodeCache<T> {
    /// The entry that has inode `inode`, if any.
    pub fn lookup_inode(&self, inode: u64) -> (r: Option<&T>)
        ensures
            FIRST_INODE <= inode < FIRST_INODE + self@.len() ==> r == Some(&self@[inode - FIRST_INODE]),
            !(FIRST_INODE <= inode < FIRST_INODE + self@.len()) ==> r is None,
    {
        if inode < FIRST_INODE {
            return None;
        }
        let idx = inode - FIRST_INODE;
        if idx >= self.entries.len() as u64 {
            return None;
        }
        Some(&self.entries[idx as usize])
    }

    /// The inode of `dirent`: that of the first entry equal to it, where
    /// there is one; otherwise `dirent` is recorded and given the next
    /// inode. Where `==` on `T` follows its specification, which entry
    /// matches is exact.
    pub fn get_or_assign_inode(&mut self, dirent: &T) -> (r: u64)
        requires
            old(self)@.len() + FIRST_INODE < u64::MAX,
        ensures
            FIRST_INODE <= r < FIRST_INODE + final(self)@.len(),
            r < FIRST_INODE + old(self)@.len() ==> final(self)@ == old(self)@,
            r == FIRST_INODE + old(self)@.len() ==> {
                &&& final(self)@.len() == old(self)@.len() + 1
                &&& final(self)@.drop_last() == old(self)@
                &&& cloned(*dirent, final(self)@.last())
            },
            T::obeys_eq_spec() ==> r - FIRST_INODE == first_equal(old(self)@, *dirent),
    {
        let n = self.entries.len();
        let mut i: usize = 0;
        while i < n
            invariant
                n == self.entries@.len(),
                n + FIRST_INODE < u64::MAX,
                self.entries@ == old(self)@,
                i <= n,
                T::obeys_eq_spec() ==> forall|j: int| 0 <= j < i ==> !(#[trigger] self.entries@[j]).eq_spec(dirent),
            decreases n - i,
        {
            if self.entries[i] == *dirent {
                proof {
                    lemma_first_equal(self.entries@, *dirent);
                }
                return FIRST_INODE + i as u64;
            }
            i = i + 1;
        }
        proof {
            lemma_first_equal(self.entries@, *dirent);
        }
        let inode = FIRST_INODE + n as u64;
        self.entries.push(dirent.clone());
        proof {
            assert(self.entries@.drop_last() =~= old(self)@);
        }
        inode
    }
}

} // verus!
