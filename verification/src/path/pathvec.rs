//! Owned paths.
use vstd::prelude::*;
use vstd::string::StringExecFns;

use crate::path::pathref::{str_views, BasePathRefIter, PathRef, PathRefIter};
use crate::path::{
    components, components_from, join_slash, lemma_components_concat,
    lemma_components_leading_slash, lemma_components_of_join, is_component,
};

verus! {

/// An owned path: components separated by single slashes in a string.
#[derive(Debug, Clone, PartialEq, Eq, PartialOrd, Ord, Hash)]
pub struct PathVec {
    inner: String,
}

/// Iterator over the components of a `PathVec`.
pub type PathVecIter<'a> = BasePathRefIter<'a>;

impl View for PathVec {
    type V = Seq<char>;

    closed spec fn view(&self) -> Seq<char> {
        self.inner@
    }
}

/// The strings of `items` that are not empty, in order.
pub open spec fn non_empty(items: Seq<Seq<char>>) -> Seq<Seq<char>>
    decreases items.len(),
{
    if items.len() == 0 {
        Seq::empty()
    } else if items.last().len() > 0 {
        non_empty(items.drop_last()).push(items.last())
    } else {
        non_empty(items.drop_last())
    }
}

/// The components of `a` after the first `b.len()` of them; none when `b`
/// is at least as long.
pub open spec fn components_after(a: Seq<Seq<char>>, b: Seq<Seq<char>>) -> Seq<Seq<char>> {
    if b.len() <= a.len() {
        a.skip(b.len() as int)
    } else {
        Seq::empty()
    }
}

/// The root is written as the empty string or as a single slash.
pub open spec fn is_root_string(s: Seq<char>) -> bool {
    s.len() == 0 || s == seq!['/']
}

/// Index of the last slash of `s`, or zero when there is none.
pub open spec fn last_sep(s: Seq<char>) -> int
    decreases s.len(),
{
    if s.len() == 0 {
        0
    } else if s.last() == '/' {
        s.len() - 1
    } else {
        last_sep(s.drop_last())
    }
}

proof fn lemma_last_sep_bounds(s: Seq<char>)
    ensures
        0 <= last_sep(s) <= s.len(),
        s.len() > 0 ==> last_sep(s) < s.len(),
    decreases s.len(),
{
    if s.len() > 0 && s.last() != '/' {
        lemma_last_sep_bounds(s.drop_last());
    }
}

/// A character that is not a slash, appended, leaves the last slash where
/// it was.
proof fn lemma_last_sep_append(a: Seq<char>, s: Seq<char>)
    requires
        forall|i: int| 0 <= i < s.len() ==> s[i] != '/',
    ensures
        last_sep(a + s) == last_sep(a),
    decreases s.len(),
{
    if s.len() > 0 {
        assert((a + s).drop_last() =~= a + s.drop_last());
        lemma_last_sep_append(a, s.drop_last());
    } else {
        assert(a + s =~= a);
    }
}

/// The text of the path `name` below the path `prefix`: the name appended,
/// after a slash unless `prefix` is the root.
pub open spec fn joined_text(prefix: Seq<char>, name: Seq<char>) -> Seq<char> {
    if is_root_string(prefix) {
        prefix + name
    } else {
        prefix + seq!['/'] + name
    }
}

/// The text of the directory that holds the path `p`: what comes before its
/// last slash; none for the root.
pub open spec fn base_text(p: Seq<char>) -> Option<Seq<char>> {
    if is_root_string(p) {
        None
    } else {
        Some(p.take(last_sep(p)))
    }
}

/// The base of a path built from a base and a name without slashes is that
/// base: the same string where the base is not the root, and the root
/// where it is.
pub proof fn law_base_of_from_base(p: Seq<char>, s: Seq<char>)
    requires
        s.len() > 0,
        forall|i: int| 0 <= i < s.len() ==> s[i] != '/',
    ensures
        base_text(joined_text(p, s)) matches Some(b) && (is_root_string(p) ==> is_root_string(b)) && (
        !is_root_string(p) ==> b == p),
{
    let joined = joined_text(p, s);
    if is_root_string(p) {
        lemma_last_sep_append(p, s);
        assert((p + s).last() == s.last());
        if p.len() == 0 {
            assert(last_sep(p) == 0);
        } else {
            assert(p.drop_last() =~= Seq::<char>::empty());
        }
        assert((p + s).take(0) =~= Seq::<char>::empty());
    } else {
        let q = p + seq!['/'];
        assert(q + s =~= p + seq!['/'] + s);
        lemma_last_sep_append(q, s);
        assert(q.last() == '/');
        assert(q.take(p.len() as int) =~= p);
        assert((q + s).take(p.len() as int) =~= p);
        assert((p + seq!['/'] + s).last() == s.last());
    }
}

/// The string of the path a `PathVec` built from the string `s` holds: its
/// components joined by slashes.
pub open spec fn pathvec_string(s: Seq<char>) -> Seq<char> {
    join_slash(components(s))
}

impl PathVec {
    pub open spec fn spec_is_root(&self) -> bool {
        is_root_string(self@)
    }

    /// The root path.
    pub fn new() -> (r: Self)
        ensures
            r@ == Seq::<char>::empty(),
    {
        PathVec { inner: String::new() }
    }

    /// The path as a string slice.
    pub fn as_str(&self) -> (r: &str)
        ensures
            r@ == self@,
    {
        self.inner.as_str()
    }

    /// The path whose components are the non-empty strings of `items`.
    pub fn from_iter(items: &[&str]) -> (r: Self)
        ensures
            r@ == join_slash(non_empty(str_views(items@))),
    {
        let mut path = String::new();
        let mut i: usize = 0;
        proof {
            reveal_strlit("/");
        }
        while i < items.len()
            invariant
                i <= items@.len(),
                path@ == join_slash(non_empty(str_views(items@.take(i as int)))),
            decreases items@.len() - i,
        {
            let item = items[i];
            let ghost before = str_views(items@.take(i as int));
            let ghost ne = non_empty(before);
            proof {
                assert(str_views(items@.take(i + 1)) =~= before.push(item@));
                assert(before.push(item@).drop_last() =~= before);
                lemma_non_empty_last(before);
                if ne.len() > 0 {
                    lemma_join_slash_nonempty(ne);
                }
            }
            if item.unicode_len() > 0 {
                if path.as_str().unicode_len() > 0 {
                    path.append("/");
                }
                path.append(item);
                proof {
                    reveal_strlit("/");
                    assert("/"@ =~= seq!['/']);
                    assert(non_empty(before.push(item@)) == ne.push(item@));
                    if ne.len() > 0 {
                        assert(ne.push(item@).drop_last() =~= ne);
                    } else {
                        assert(ne.push(item@) =~= seq![item@]);
                    }
                }
            } else {
                proof {
                    assert(non_empty(before.push(item@)) == ne);
                }
            }
            i = i + 1;
        }
        proof {
            assert(items@.take(items@.len() as int) =~= items@);
        }
        PathVec { inner: path }
    }

    /// Iterator over the non-empty components of the path.
    pub fn iter(&self) -> (r: PathVecIter<'_>)
        ensures
            r.wf(),
            r.remaining() == components(self@),
    {
        BasePathRefIter::PathVec { s: self.inner.as_str(), pos: 0 }
    }

    /// Whether the path is the root: its string is empty or a single slash.
    pub fn is_root(&self) -> (r: bool)
        ensures
            r == self.spec_is_root(),
    {
        let s = self.inner.as_str();
        let n = s.unicode_len();
        if n == 0 {
            true
        } else if n == 1 {
            let c = s.get_char(0);
            proof {
                if c == '/' {
                    assert(s@ =~= seq!['/']);
                }
            }
            c == '/'
        } else {
            false
        }
    }

    /// `prefix` with `suffix` appended after a slash; the slash is left out
    /// when `prefix` is the root.
    pub fn from_base(prefix: Self, suffix: &str) -> (r: Self)
        ensures
            r@ == joined_text(prefix@, suffix@),
    {
        let root = prefix.is_root();
        let mut inner = prefix.inner;
        proof {
            reveal_strlit("/");
        }
        if !root {
            inner.append("/");
        }
        inner.append(suffix);
        PathVec { inner }
    }

    /// The path without its last component, or `None` for the root. The
    /// string is cut at its last slash.
    pub fn base(&self) -> (r: Option<PathVec>)
        ensures
            match r {
                Some(b) => base_text(self@) == Some(b@),
                None => base_text(self@) is None,
            },
    {
        if self.is_root() {
            return None;
        }
        let s = self.inner.as_str();
        let n = s.unicode_len();
        let mut k = n;
        proof {
            assert(s@.take(n as int) =~= s@);
        }
        while k > 0 && s.get_char(k - 1) != '/'
            invariant
                k <= n,
                n == s@.len(),
                last_sep(s@) == last_sep(s@.take(k as int)),
            decreases k,
        {
            proof {
                assert(s@.take(k as int).drop_last() =~= s@.take(k - 1));
            }
            k = k - 1;
        }
        let cut: usize = if k > 0 {
            proof {
                assert(s@.take(k as int).last() == '/');
            }
            k - 1
        } else {
            0
        };
        proof {
            if k == 0 {
                assert(s@.take(0) =~= Seq::<char>::empty());
            }
            assert(s@ =~= s@.take(n as int));
        }
        let base = s.substring_char(0, cut);
        Some(PathVec { inner: base.to_owned() })
    }

    /// The components of the path after those of `prefix`, joined by
    /// slashes. `prefix` must agree with the path on the components they
    /// both have.
    pub fn suffix(&self, prefix: &Self) -> (r: Self)
        requires
            forall|i: int|
                0 <= i < components(self@).len() && 0 <= i < components(prefix@).len() ==> (
                #[trigger] components(self@)[i]) == components(prefix@)[i],
        ensures
            r@ == join_slash(components_after(components(self@), components(prefix@))),
    {
        let mut i1 = self.iter();
        let mut i2 = prefix.iter();
        let mut out: Vec<&str> = Vec::new();
        let ghost c1 = components(self@);
        let ghost c2 = components(prefix@);
        let ghost mut k: int = 0;
        loop
            invariant_except_break
                i1.wf(),
                i2.wf(),
                0 <= k <= c1.len(),
                i1.remaining() == c1.skip(k),
                k <= c2.len() ==> i2.remaining() == c2.skip(k),
                k > c2.len() ==> i2.remaining().len() == 0,
                str_views(out@) == c1.subrange(
                    if k < c2.len() { k } else { c2.len() as int },
                    k,
                ),
            invariant
                c1 == components(self@),
                c2 == components(prefix@),
                forall|i: int|
                    0 <= i < c1.len() && 0 <= i < c2.len() ==> (#[trigger] c1[i]) == c2[i],
            ensures
                str_views(out@) == components_after(c1, c2),
            decreases c1.len() - k,
        {
            let ghost r1 = i1.remaining();
            let ghost r2 = i2.remaining();
            let a = i1.next();
            let b = i2.next();
            match a {
                Some(x) => {
                    proof {
                        lemma_skip_step(c1, k, x@, i1.remaining());
                    }
                    match b {
                        Some(_) => {
                            proof {
                                assert(k < c2.len()) by {
                                    if k >= c2.len() {
                                        assert(r2.len() == 0);
                                    }
                                }
                                lemma_skip_step(c2, k, r2[0], i2.remaining());
                                assert(str_views(out@) =~= c1.subrange(k + 1, k + 1));
                            }
                        },
                        None => {
                            let ghost prev = out@;
                            out.push(x);
                            proof {
                                if k < c2.len() {
                                    assert(r2 == c2.skip(k));
                                    assert(c2.skip(k).len() == 0);
                                }
                                assert(k >= c2.len());
                                assert(str_views(out@) =~= str_views(prev) + seq![x@]);
                                assert(c1.subrange(c2.len() as int, k + 1) =~= c1.subrange(
                                    c2.len() as int,
                                    k,
                                ) + seq![c1[k]]);
                                assert(i2.remaining().len() == 0);
                            }
                        },
                    }
                    proof {
                        k = k + 1;
                    }
                },
                None => {
                    proof {
                        assert(c1.skip(k).len() == 0);
                        assert(k == c1.len());
                        if k < c2.len() {
                            assert(c1.subrange(k, k) =~= components_after(c1, c2));
                        } else {
                            assert(c1.subrange(c2.len() as int, k) =~= components_after(c1, c2));
                        }
                    }
                    break ;
                },
            }
        }
        let joined = join_strs(&out);
        PathVec { inner: joined }
    }

    /// The path made of the components of the string path `s`, joined by
    /// single slashes.
    pub fn from_str_path(s: &str) -> (r: Self)
        ensures
            r@ == pathvec_string(s@),
    {
        let it = BasePathRefIter::from_str(s);
        let parts = PathRefIter::Base(it).collect_components();
        let joined = join_strs(&parts);
        PathVec { inner: joined }
    }

    /// The host path of this path placed under `prefix`.
    pub fn as_path_buf(&self, prefix: &std::path::Path) -> std::path::PathBuf {
        let mut suffix = crate::path::host::host_path_buf();
        crate::path::host::host_push(&mut suffix, self.inner.as_str());
        crate::path::host::host_join(prefix, &suffix)
    }

    /// A copy of the path.
    pub fn clone_path(&self) -> (r: Self)
        ensures
            r == *self,
    {
        PathVec { inner: self.inner.clone() }
    }

    /// A borrowed view of the path.
    pub fn as_path_ref(&self) -> (r: PathRef<'_>)
        ensures
            r == PathRef::PathVec(self),
    {
        PathRef::PathVec(self)
    }

    /// The path as text: a slash, then the string of the path.
    pub fn as_string(&self) -> (r: String)
        ensures
            r@ == seq!['/'] + self@,
    {
        proof {
            reveal_strlit("/");
        }
        let mut s = String::from_str("/");
        s.append(self.inner.as_str());
        s
    }
}

/// Taking one element off the front of `s.skip(k)`.
pub proof fn lemma_skip_step<A>(s: Seq<A>, k: int, x: A, rest: Seq<A>)
    requires
        0 <= k <= s.len(),
        s.skip(k) == seq![x] + rest,
    ensures
        k < s.len(),
        s[k] == x,
        s.skip(k + 1) == rest,
{
    assert(s.skip(k).len() == rest.len() + 1);
    assert(s.skip(k)[0] == s[k]);
    assert forall|j: int| 0 <= j < rest.len() implies s.skip(k + 1)[j] == rest[j] by {
        assert(s.skip(k)[j + 1] == s[k + 1 + j]);
        assert((seq![x] + rest)[j + 1] == rest[j]);
    }
    assert(s.skip(k + 1) =~= rest);
}

proof fn lemma_non_empty_last(s: Seq<Seq<char>>)
    ensures
        non_empty(s).len() > 0 ==> non_empty(s).last().len() > 0,
    decreases s.len(),
{
    if s.len() > 0 {
        lemma_non_empty_last(s.drop_last());
    }
}

pub proof fn lemma_join_slash_nonempty(cs: Seq<Seq<char>>)
    requires
        cs.len() > 0,
        cs.last().len() > 0,
    ensures
        join_slash(cs).len() > 0,
{
}

/// The strings of `items` joined by slashes.
fn join_strs(items: &Vec<&str>) -> (r: String)
    ensures
        r@ == join_slash(str_views(items@)),
{
    let mut s = String::new();
    let mut i: usize = 0;
    proof {
        reveal_strlit("/");
        assert(str_views(items@.take(0)) =~= Seq::<Seq<char>>::empty());
    }
    while i < items.len()
        invariant
            i <= items@.len(),
            s@ == join_slash(str_views(items@.take(i as int))),
        decreases items@.len() - i,
    {
        let ghost before = str_views(items@.take(i as int));
        if i > 0 {
            s.append("/");
        }
        s.append(items[i]);
        proof {
            reveal_strlit("/");
            assert("/"@ =~= seq!['/']);
            let after = str_views(items@.take(i + 1));
            assert(after =~= before.push(items@[i as int]@));
            assert(after.drop_last() =~= before);
            assert(after.last() == items@[i as int]@);
            if i > 0 {
                assert(join_slash(after) == join_slash(before) + seq!['/'] + items@[i as int]@);
            }
            if i == 0 {
                assert(s@ =~= join_slash(after));
            }
        }
        i = i + 1;
    }
    proof {
        assert(items@.take(items@.len() as int) =~= items@);
    }
    s
}

impl Default for PathVec {
    fn default() -> (r: Self)
        ensures
            r@ == Seq::<char>::empty(),
    {
        PathVec::new()
    }
}

impl<'a> From<&'a str> for PathVec {
    fn from(value: &'a str) -> (r: Self)
        ensures
            r@ == pathvec_string(value@),
    {
        PathVec::from_str_path(value)
    }
}

/// A `PathVec` made from a string is described by its string only, so no
/// value is given for the conversion; `from` states the string it gives.
impl<'a> vstd::std_specs::convert::FromSpecImpl<&'a str> for PathVec {
    open spec fn obeys_from_spec() -> bool {
        false
    }

    open spec fn from_spec(v: &'a str) -> Self {
        arbitrary()
    }
}

} // verus!
