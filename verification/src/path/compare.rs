//! Equality and order of paths.
use vstd::prelude::*;

use core::cmp::Ordering;
use vstd::std_specs::cmp::PartialEqSpecImpl;
use vstd::std_specs::cmp::PartialOrdSpecImpl;

use crate::avl::KeyOrder;
use crate::path::components;
use crate::path::pathref::{str_views, PathRef, PathRefIter, join_depth};
use crate::path::pathvec::PathVec;
use crate::path::str_eq;

verus! {

/// Lexicographic order of strings, character by character; a proper prefix
/// comes first. This is the order of their UTF-8 bytes.
pub open spec fn chars_order(a: Seq<char>, b: Seq<char>) -> KeyOrder
    decreases a.len(),
{
    if a.len() == 0 {
        if b.len() == 0 {
            KeyOrder::Equal
        } else {
            KeyOrder::Less
        }
    } else if b.len() == 0 {
        KeyOrder::Greater
    } else if a[0] < b[0] {
        KeyOrder::Less
    } else if a[0] > b[0] {
        KeyOrder::Greater
    } else {
        chars_order(a.drop_first(), b.drop_first())
    }
}

/// Lexicographic order of component sequences, components ordered by
/// `chars_order`.
pub open spec fn components_order(a: Seq<Seq<char>>, b: Seq<Seq<char>>) -> KeyOrder
    decreases a.len(),
{
    if a.len() == 0 {
        if b.len() == 0 {
            KeyOrder::Equal
        } else {
            KeyOrder::Less
        }
    } else if b.len() == 0 {
        KeyOrder::Greater
    } else if chars_order(a[0], b[0]) != KeyOrder::Equal {
        chars_order(a[0], b[0])
    } else {
        components_order(a.drop_first(), b.drop_first())
    }
}

/// The order of two paths: lexicographic over their components, however
/// each path is held (a join is ordered as the path it spells).
pub open spec fn path_order(p: PathRef, q: PathRef) -> KeyOrder {
    components_order(p@, q@)
}

/// `chars_order` says two strings are equal exactly when they are.
pub proof fn lemma_chars_order_equal(a: Seq<char>, b: Seq<char>)
    ensures
        (chars_order(a, b) == KeyOrder::Equal) == (a == b),
    decreases a.len(),
{
    if a.len() > 0 && b.len() > 0 {
        lemma_chars_order_equal(a.drop_first(), b.drop_first());
        if a[0] == b[0] {
            if a.drop_first() == b.drop_first() {
                assert(a =~= seq![a[0]] + a.drop_first());
                assert(b =~= seq![b[0]] + b.drop_first());
            }
        }
        if a == b {
            assert(a.drop_first() == b.drop_first());
        }
    } else if a.len() == 0 && b.len() == 0 {
        assert(a =~= b);
    }
}

/// `chars_order` is antisymmetric: `a` comes before `b` exactly when `b`
/// comes after `a`.
pub proof fn lemma_chars_order_flip(a: Seq<char>, b: Seq<char>)
    ensures
        (chars_order(a, b) == KeyOrder::Less) == (chars_order(b, a) == KeyOrder::Greater),
    decreases a.len(),
{
    if a.len() > 0 && b.len() > 0 && a[0] == b[0] {
        lemma_chars_order_flip(a.drop_first(), b.drop_first());
    }
}

/// `chars_order` is transitive.
pub proof fn lemma_chars_order_transitive(a: Seq<char>, b: Seq<char>, c: Seq<char>)
    requires
        chars_order(a, b) == KeyOrder::Less,
        chars_order(b, c) == KeyOrder::Less,
    ensures
        chars_order(a, c) == KeyOrder::Less,
    decreases a.len(),
{
    if a.len() > 0 && b.len() > 0 && c.len() > 0 && a[0] == b[0] && b[0] == c[0] {
        lemma_chars_order_transitive(a.drop_first(), b.drop_first(), c.drop_first());
    }
}

/// `components_order` is transitive.
pub proof fn lemma_components_order_transitive(a: Seq<Seq<char>>, b: Seq<Seq<char>>, c: Seq<Seq<char>>)
    requires
        components_order(a, b) == KeyOrder::Less,
        components_order(b, c) == KeyOrder::Less,
    ensures
        components_order(a, c) == KeyOrder::Less,
    decreases a.len(),
{
    if a.len() > 0 && b.len() > 0 && c.len() > 0 {
        lemma_chars_order_equal(a[0], b[0]);
        lemma_chars_order_equal(b[0], c[0]);
        lemma_chars_order_equal(a[0], c[0]);
        if chars_order(a[0], b[0]) == KeyOrder::Equal && chars_order(b[0], c[0]) == KeyOrder::Equal {
            lemma_components_order_transitive(a.drop_first(), b.drop_first(), c.drop_first());
        } else if chars_order(a[0], b[0]) == KeyOrder::Less && chars_order(b[0], c[0]) == KeyOrder::Less {
            lemma_chars_order_transitive(a[0], b[0], c[0]);
        }
    }
}

/// The order of paths is transitive: a path before a second, which is
/// before a third, is before the third, however each path is held.
pub proof fn law_path_order_transitive(p: PathRef, q: PathRef, s: PathRef)
    requires
        path_order(p, q) == KeyOrder::Less,
        path_order(q, s) == KeyOrder::Less,
    ensures
        path_order(p, s) == KeyOrder::Less,
{
    lemma_components_order_transitive(p@, q@, s@);
}

/// Compares two strings in the order of `chars_order`.
pub fn str_order(a: &str, b: &str) -> (r: KeyOrder)
    ensures
        r == chars_order(a@, b@),
{
    let n = a.unicode_len();
    let m = b.unicode_len();
    let mut i: usize = 0;
    proof {
        assert(a@.skip(0) =~= a@);
        assert(b@.skip(0) =~= b@);
    }
    while i < n && i < m
        invariant
            n == a@.len(),
            m == b@.len(),
            i <= n,
            i <= m,
            chars_order(a@, b@) == chars_order(a@.skip(i as int), b@.skip(i as int)),
        decreases n - i,
    {
        let x = a.get_char(i);
        let y = b.get_char(i);
        assert(a@.skip(i as int)[0] == a@[i as int]);
        assert(b@.skip(i as int)[0] == b@[i as int]);
        if x < y {
            return KeyOrder::Less;
        }
        if x > y {
            return KeyOrder::Greater;
        }
        assert(a@.skip(i as int).drop_first() =~= a@.skip(i + 1));
        assert(b@.skip(i as int).drop_first() =~= b@.skip(i + 1));
        i = i + 1;
    }
    if i < m {
        KeyOrder::Less
    } else if i < n {
        KeyOrder::Greater
    } else {
        KeyOrder::Equal
    }
}

/// Whether two paths have the same components, stepping through both.
fn same_components(p: &PathRef, q: &PathRef) -> (r: bool)
    ensures
        r == (p@ == q@),
{
    let mut i1: PathRefIter = p.iter();
    let mut i2: PathRefIter = q.iter();
    loop
        invariant
            i1.wf(),
            i2.wf(),
            (p@ == q@) == (i1.remaining() == i2.remaining()),
        decreases i1.remaining().len(),
    {
        let ghost r1 = i1.remaining();
        let ghost r2 = i2.remaining();
        let a = i1.next();
        let b = i2.next();
        match (a, b) {
            (Some(x), Some(y)) => {
                if !str_eq(x, y) {
                    proof {
                        assert(r1[0] != r2[0]);
                    }
                    return false;
                }
                proof {
                    if i1.remaining() == i2.remaining() {
                        assert(r1 =~= r2);
                    }
                    if r1 == r2 {
                        assert(i1.remaining() =~= r1.drop_first());
                        assert(i2.remaining() =~= r2.drop_first());
                    }
                }
            },
            (None, None) => {
                return true;
            },
            (Some(_), None) => {
                proof {
                    assert(r1.len() > 0);
                }
                return false;
            },
            (None, Some(_)) => {
                proof {
                    assert(r2.len() > 0);
                }
                return false;
            },
        }
    }
}

/// Whether two paths have the same components; two joins are compared by
/// tail and base without stepping through their components.
fn path_eq(p: &PathRef, q: &PathRef) -> (r: bool)
    ensures
        r == (p@ == q@),
    decreases join_depth(*p),
{
    match (*p, *q) {
        (PathRef::Join(b1, t1), PathRef::Join(b2, t2)) => {
            let tails = str_eq(t1, t2);
            if !tails {
                proof {
                    assert(p@.last() != q@.last());
                }
                return false;
            }
            let bases = path_eq(b1, b2);
            proof {
                if p@ == q@ {
                    assert(b1@ =~= p@.drop_last());
                    assert(b2@ =~= q@.drop_last());
                }
            }
            bases
        },
        _ => same_components(p, q),
    }
}

/// The order of two paths' components, stepping through both.
fn components_order_of(p: &PathRef, q: &PathRef) -> (r: KeyOrder)
    ensures
        r == components_order(p@, q@),
{
    let mut i1: PathRefIter = p.iter();
    let mut i2: PathRefIter = q.iter();
    loop
        invariant
            i1.wf(),
            i2.wf(),
            components_order(p@, q@) == components_order(i1.remaining(), i2.remaining()),
        decreases i1.remaining().len(),
    {
        let ghost r1 = i1.remaining();
        let ghost r2 = i2.remaining();
        let a = i1.next();
        let b = i2.next();
        match (a, b) {
            (Some(x), Some(y)) => {
                let o = str_order(x, y);
                if o != KeyOrder::Equal {
                    return o;
                }
                proof {
                    assert(i1.remaining() =~= r1.drop_first());
                    assert(i2.remaining() =~= r2.drop_first());
                }
            },
            (None, None) => {
                return KeyOrder::Equal;
            },
            (Some(_), None) => {
                return KeyOrder::Greater;
            },
            (None, Some(_)) => {
                return KeyOrder::Less;
            },
        }
    }
}

/// Compares two paths in the order of `path_order`.
pub fn path_order_of(p: &PathRef, q: &PathRef) -> (r: KeyOrder)
    ensures
        r == path_order(*p, *q),
{
    components_order_of(p, q)
}

/// The standard ordering for a `KeyOrder`.
pub open spec fn std_ordering(k: KeyOrder) -> Ordering {
    match k {
        KeyOrder::Less => Ordering::Less,
        KeyOrder::Equal => Ordering::Equal,
        KeyOrder::Greater => Ordering::Greater,
    }
}

/// Converts a `KeyOrder` into the standard ordering.
pub fn to_std_ordering(k: KeyOrder) -> (r: Ordering)
    ensures
        r == std_ordering(k),
{
    match k {
        KeyOrder::Less => Ordering::Less,
        KeyOrder::Equal => Ordering::Equal,
        KeyOrder::Greater => Ordering::Greater,
    }
}

impl<'a> PartialEq for PathRef<'a> {
    fn eq(&self, other: &Self) -> (r: bool) {
        path_eq(self, other)
    }
}

impl<'a> PartialEqSpecImpl for PathRef<'a> {
    open spec fn obeys_eq_spec() -> bool {
        true
    }

    open spec fn eq_spec(&self, other: &Self) -> bool {
        self@ == other@
    }
}

impl<'a> Eq for PathRef<'a> {

}

impl<'a> PartialEq<PathVec> for PathRef<'a> {
    fn eq(&self, other: &PathVec) -> (r: bool) {
        let o = other.as_path_ref();
        path_eq(self, &o)
    }
}

impl<'a> PartialEqSpecImpl<PathVec> for PathRef<'a> {
    open spec fn obeys_eq_spec() -> bool {
        true
    }

    open spec fn eq_spec(&self, other: &PathVec) -> bool {
        self@ == components(other@)
    }
}

impl<'a, 'b> PartialEq<&'b str> for PathRef<'a> {
    fn eq(&self, other: &&'b str) -> (r: bool) {
        let o = PathRef::Str(*other);
        path_eq(self, &o)
    }
}

impl<'a, 'b> PartialEqSpecImpl<&'b str> for PathRef<'a> {
    open spec fn obeys_eq_spec() -> bool {
        true
    }

    open spec fn eq_spec(&self, other: &&'b str) -> bool {
        self@ == components(other@)
    }
}

impl<'a, 'b, 'c> PartialEq<&'b [&'c str]> for PathRef<'a> {
    fn eq(&self, other: &&'b [&'c str]) -> (r: bool) {
        let o = PathRef::Slice(*other);
        path_eq(self, &o)
    }
}

impl<'a, 'b, 'c> PartialEqSpecImpl<&'b [&'c str]> for PathRef<'a> {
    open spec fn obeys_eq_spec() -> bool {
        true
    }

    open spec fn eq_spec(&self, other: &&'b [&'c str]) -> bool {
        self@ == str_views(other@)
    }
}

impl<'a> PartialOrd for PathRef<'a> {
    fn partial_cmp(&self, other: &Self) -> (r: Option<Ordering>) {
        Some(to_std_ordering(path_order_of(self, other)))
    }
}

impl<'a> PartialOrdSpecImpl for PathRef<'a> {
    open spec fn obeys_partial_cmp_spec() -> bool {
        true
    }

    open spec fn partial_cmp_spec(&self, other: &Self) -> Option<Ordering> {
        Some(std_ordering(path_order(*self, *other)))
    }
}

} // verus!
