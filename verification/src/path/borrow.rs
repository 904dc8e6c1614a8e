//! Paths that are either borrowed or owned.
use vstd::prelude::*;

use core::cmp::Ordering;
use vstd::std_specs::cmp::PartialEqSpecImpl;
use vstd::std_specs::cmp::PartialOrdSpecImpl;
use vstd::std_specs::convert::FromSpecImpl;

use crate::path::compare::{path_order, path_order_of, std_ordering, to_std_ordering};
use crate::path::components;
use crate::path::pathref::{display_string, pathvec_of, PathRef};
use crate::path::pathvec::PathVec;

verus! {

/// A path that is borrowed or owned.
#[derive(Debug, Clone)]
pub enum PathCow<'a> {
    Borrowed(PathRef<'a>),
    Owned(PathVec),
}

impl<'a> View for PathCow<'a> {
    type V = Seq<Seq<char>>;

    open spec fn view(&self) -> Seq<Seq<char>> {
        match *self {
            PathCow::Borrowed(p) => p@,
            PathCow::Owned(pv) => components(pv@),
        }
    }
}

impl<'a> PathCow<'a> {
    /// The borrowed path this one stands for.
    pub open spec fn borrowed(&self) -> PathRef<'_> {
        match *self {
            PathCow::Borrowed(p) => p,
            PathCow::Owned(pv) => PathRef::PathVec(&pv),
        }
    }

    /// A borrowed view of the path.
    pub fn path_ref(&self) -> (r: PathRef<'_>)
        ensures
            r == self.borrowed(),
            r@ == self@,
    {
        match self {
            PathCow::Borrowed(pr) => *pr,
            PathCow::Owned(pv) => pv.as_path_ref(),
        }
    }

    /// The path as an owned `PathVec`; a borrowed path is copied.
    pub fn to_owned(self) -> (r: PathVec)
        ensures
            r@ == match self {
                PathCow::Borrowed(p) => pathvec_of(p),
                PathCow::Owned(pv) => pv@,
            },
    {
        match self {
            PathCow::Borrowed(pr) => pr.to_pathvec(),
            PathCow::Owned(pv) => pv,
        }
    }

    /// The path as text.
    pub fn to_string(&self) -> (r: String)
        ensures
            r@ == display_string(self.borrowed()),
    {
        match self {
            PathCow::Borrowed(pr) => pr.to_string(),
            PathCow::Owned(pv) => pv.as_string(),
        }
    }
}

impl<'a> From<PathVec> for PathCow<'a> {
    fn from(value: PathVec) -> (r: Self) {
        PathCow::Owned(value)
    }
}

impl<'a> FromSpecImpl<PathVec> for PathCow<'a> {
    open spec fn obeys_from_spec() -> bool {
        true
    }

    open spec fn from_spec(v: PathVec) -> Self {
        PathCow::Owned(v)
    }
}

impl<'a> From<PathRef<'a>> for PathCow<'a> {
    fn from(value: PathRef<'a>) -> (r: Self) {
        PathCow::Borrowed(value)
    }
}

impl<'a> FromSpecImpl<PathRef<'a>> for PathCow<'a> {
    open spec fn obeys_from_spec() -> bool {
        true
    }

    open spec fn from_spec(v: PathRef<'a>) -> Self {
        PathCow::Borrowed(v)
    }
}

impl<'a> PartialEq for PathCow<'a> {
    fn eq(&self, other: &Self) -> (r: bool) {
        self.path_ref() == other.path_ref()
    }
}

impl<'a> PartialEqSpecImpl for PathCow<'a> {
    open spec fn obeys_eq_spec() -> bool {
        true
    }

    open spec fn eq_spec(&self, other: &Self) -> bool {
        self@ == other@
    }
}

impl<'a> Eq for PathCow<'a> {

}

impl<'a> PartialEq<PathRef<'a>> for PathCow<'a> {
    fn eq(&self, other: &PathRef<'a>) -> (r: bool) {
        self.path_ref() == *other
    }
}

impl<'a> PartialEqSpecImpl<PathRef<'a>> for PathCow<'a> {
    open spec fn obeys_eq_spec() -> bool {
        true
    }

    open spec fn eq_spec(&self, other: &PathRef<'a>) -> bool {
        self@ == other@
    }
}

impl<'a> PartialEq<PathVec> for PathCow<'a> {
    fn eq(&self, other: &PathVec) -> (r: bool) {
        self.path_ref() == other.as_path_ref()
    }
}

impl<'a> PartialEqSpecImpl<PathVec> for PathCow<'a> {
    open spec fn obeys_eq_spec() -> bool {
        true
    }

    open spec fn eq_spec(&self, other: &PathVec) -> bool {
        self@ == components(other@)
    }
}

impl<'a> PartialOrd for PathCow<'a> {
    fn partial_cmp(&self, other: &Self) -> (r: Option<Ordering>) {
        let a = self.path_ref();
        let b = other.path_ref();
        Some(to_std_ordering(path_order_of(&a, &b)))
    }
}

impl<'a> PartialOrdSpecImpl for PathCow<'a> {
    open spec fn obeys_partial_cmp_spec() -> bool {
        true
    }

    open spec fn partial_cmp_spec(&self, other: &Self) -> Option<Ordering> {
        Some(std_ordering(path_order(self.borrowed(), other.borrowed())))
    }
}

} // verus!
