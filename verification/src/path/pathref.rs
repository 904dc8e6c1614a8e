//! Borrowed paths and their component iterators.
use vstd::prelude::*;

use vstd::string::StringExecFns;

use crate::path::pathvec::{is_root_string, non_empty, pathvec_string, PathVec};
use crate::path::{components, components_from, join_slash, lemma_next_sep_bounds, next_sep};

verus! {

/// A borrowed path, in one of the shapes paths come in.
#[derive(Debug, Clone, Copy, Hash)]
pub enum PathRef<'a> {
    /// A string with `/` separators.
    Str(&'a str),
    /// A slice of components, taken as they are.
    Slice(&'a [&'a str]),
    /// A path held in a `PathVec`.
    PathVec(&'a PathVec),
    /// A path with one more component appended.
    Join(&'a PathRef<'a>, &'a str),
}

/// Number of `Join`s on the way down to the base path.
pub open spec fn join_depth(p: PathRef) -> nat
    decreases p,
{
    match p {
        PathRef::Join(base, _) => 1 + join_depth(*base),
        _ => 0,
    }
}

/// The views of a sequence of strings.
pub open spec fn str_views(items: Seq<&str>) -> Seq<Seq<char>> {
    items.map_values(|x: &str| x@)
}

/// The components of a path. A slice is taken component by component, and a
/// joined tail is one component, even when empty.
pub open spec fn path_components(p: PathRef) -> Seq<Seq<char>>
    decreases p,
{
    match p {
        PathRef::Str(s) => components(s@),
        PathRef::Slice(items) => str_views(items@),
        PathRef::PathVec(pv) => components(pv@),
        PathRef::Join(base, tail) => path_components(*base).push(tail@),
    }
}

impl<'a> View for PathRef<'a> {
    type V = Seq<Seq<char>>;

    open spec fn view(&self) -> Seq<Seq<char>> {
        path_components(*self)
    }
}

/// Iterator over the components of a path that is not a join.
pub enum BasePathRefIter<'a> {
    Str { s: &'a str, pos: usize },
    Slice { items: &'a [&'a str], pos: usize },
    PathVec { s: &'a str, pos: usize },
}

/// Finds the component of `s` that starts at or after `pos`. Returns it, or
/// `None` when there is none, and the position after it.
fn next_component<'a>(s: &'a str, pos: usize) -> (r: (Option<&'a str>, usize))
    requires
        pos <= s@.len(),
    ensures
        pos <= r.1 <= s@.len(),
        match r.0 {
            Some(c) => components_from(s@, pos as int) == seq![c@] + components_from(
                s@,
                r.1 as int,
            ),
            None => components_from(s@, pos as int) == Seq::<Seq<char>>::empty() && r.1
                == s@.len(),
        },
{
    let n = s.unicode_len();
    let mut i = pos;
    while i < n && s.get_char(i) == '/'
        invariant
            n == s@.len(),
            pos <= i <= n,
            components_from(s@, i as int) == components_from(s@, pos as int),
        decreases n - i,
    {
        i = i + 1;
    }
    if i >= n {
        return (None, n);
    }
    let start = i;
    while i < n && s.get_char(i) != '/'
        invariant
            n == s@.len(),
            start <= i <= n,
            start < n,
            s@[start as int] != '/',
            next_sep(s@, i as int) == next_sep(s@, start as int),
        decreases n - i,
    {
        i = i + 1;
    }
    proof {
        lemma_next_sep_bounds(s@, start as int);
    }
    let c = s.substring_char(start, i);
    (Some(c), i)
}

impl<'a> BasePathRefIter<'a> {
    /// The components not yet returned.
    pub open spec fn remaining(&self) -> Seq<Seq<char>> {
        match *self {
            BasePathRefIter::Str { s, pos } => components_from(s@, pos as int),
            BasePathRefIter::Slice { items, pos } => str_views(items@.skip(pos as int)),
            BasePathRefIter::PathVec { s, pos } => components_from(s@, pos as int),
        }
    }

    pub open spec fn wf(&self) -> bool {
        match *self {
            BasePathRefIter::Str { s, pos } => pos <= s@.len(),
            BasePathRefIter::Slice { items, pos } => pos <= items@.len(),
            BasePathRefIter::PathVec { s, pos } => pos <= s@.len(),
        }
    }

    /// Iterates over the components of a string path.
    pub fn from_str(s: &'a str) -> (r: Self)
        ensures
            r.wf(),
            r.remaining() == components(s@),
    {
        BasePathRefIter::Str { s, pos: 0 }
    }

    /// Returns the next component, if any.
    pub fn next(&mut self) -> (r: Option<&'a str>)
        requires
            old(self).wf(),
        ensures
            final(self).wf(),
            match r {
                Some(c) => old(self).remaining() == seq![c@] + final(self).remaining(),
                None => old(self).remaining() == Seq::<Seq<char>>::empty() && final(self).remaining() == Seq::<Seq<char>>::empty(),
            },
    {
        match self {
            BasePathRefIter::Str { s, pos } => {
                let (c, p) = next_component(*s, *pos);
                *pos = p;
                c
            },
            BasePathRefIter::PathVec { s, pos } => {
                let (c, p) = next_component(*s, *pos);
                *pos = p;
                c
            },
            BasePathRefIter::Slice { items, pos } => {
                if *pos < items.len() {
                    let c = items[*pos];
                    proof {
                        assert(str_views(items@.skip(*pos as int)) =~= seq![c@] + str_views(
                            items@.skip(*pos + 1),
                        ));
                    }
                    *pos = *pos + 1;
                    Some(c)
                } else {
                    proof {
                        assert(str_views(items@.skip(*pos as int)) =~= Seq::<Seq<char>>::empty());
                    }
                    None
                }
            },
        }
    }
}

/// Iterator over the components of a path joined more than once: the
/// components of its base, then the joined tails, innermost first.
pub struct JoinedPathRefIter<'a> {
    joined_component_stack: Vec<&'a str>,
    base_iter: BasePathRefIter<'a>,
}

impl<'a> JoinedPathRefIter<'a> {
    pub closed spec fn remaining(&self) -> Seq<Seq<char>> {
        self.base_iter.remaining() + str_views(self.joined_component_stack@.reverse())
    }

    pub closed spec fn wf(&self) -> bool {
        self.base_iter.wf()
    }

    /// Iterates over the components of `base` joined with `tail`.
    pub fn new(base: &'a PathRef<'a>, tail: &'a str) -> (r: Self)
        ensures
            r.wf(),
            r.remaining() == path_components(*base).push(tail@),
    {
        let mut stack: Vec<&'a str> = Vec::new();
        stack.push(tail);
        let mut cur: &'a PathRef<'a> = base;
        proof {
            assert(str_views(stack@.reverse()) =~= seq![tail@]);
        }
        loop
            invariant
                path_components(*cur) + str_views(stack@.reverse()) == path_components(
                    *base,
                ).push(tail@),
            ensures
                !(*cur is Join),
                path_components(*cur) + str_views(stack@.reverse()) == path_components(
                    *base,
                ).push(tail@),
            decreases join_depth(*cur),
        {
            match cur {
                PathRef::Join(b, t) => {
                    let ghost old_stack = stack@;
                    stack.push(*t);
                    proof {
                        assert(stack@.reverse() =~= seq![*t].add(old_stack.reverse()));
                        assert(str_views(stack@.reverse()) =~= seq![t@] + str_views(
                            old_stack.reverse(),
                        ));
                        assert(path_components(**b).push(t@) =~= path_components(**b) + seq![
                            t@,
                        ]);
                    }
                    cur = *b;
                },
                _ => {
                    break ;
                },
            }
        }
        let base_iter = cur.base_iter();
        JoinedPathRefIter { joined_component_stack: stack, base_iter }
    }

    /// Returns the next component, if any.
    pub fn next(&mut self) -> (r: Option<&'a str>)
        requires
            old(self).wf(),
        ensures
            final(self).wf(),
            match r {
                Some(c) => old(self).remaining() == seq![c@] + final(self).remaining(),
                None => old(self).remaining() == Seq::<Seq<char>>::empty() && final(self).remaining() == Seq::<Seq<char>>::empty(),
            },
    {
        let ghost old_stack = self.joined_component_stack@;
        match self.base_iter.next() {
            Some(c) => {
                proof {
                    assert(old(self).remaining() =~= seq![c@] + self.remaining());
                }
                Some(c)
            },
            None => {
                let r = self.joined_component_stack.pop();
                proof {
                    match r {
                        Some(c) => {
                            assert(old_stack =~= self.joined_component_stack@.push(c));
                            assert(old_stack.reverse() =~= seq![c].add(
                                self.joined_component_stack@.reverse(),
                            ));
                            assert(old(self).remaining() =~= seq![c@] + self.remaining());
                        },
                        None => {
                            assert(old(self).remaining() =~= Seq::<Seq<char>>::empty());
                            assert(self.remaining() =~= Seq::<Seq<char>>::empty());
                        },
                    }
                }
                r
            },
        }
    }
}

/// Iterator over the components of a path.
pub enum PathRefIter<'a> {
    Base(BasePathRefIter<'a>),
    /// A base iterator followed by one joined tail.
    SingleJoin(BasePathRefIter<'a>, Option<&'a str>),
    JoinedIter(JoinedPathRefIter<'a>),
}

impl<'a> PathRefIter<'a> {
    /// The components not yet returned.
    pub open spec fn remaining(&self) -> Seq<Seq<char>> {
        match *self {
            PathRefIter::Base(b) => b.remaining(),
            PathRefIter::SingleJoin(b, t) => b.remaining() + match t {
                Some(x) => seq![x@],
                None => Seq::empty(),
            },
            PathRefIter::JoinedIter(j) => j.remaining(),
        }
    }

    pub open spec fn wf(&self) -> bool {
        match *self {
            PathRefIter::Base(b) => b.wf(),
            PathRefIter::SingleJoin(b, _) => b.wf(),
            PathRefIter::JoinedIter(j) => j.wf(),
        }
    }

    /// Returns the next component, if any.
    pub fn next(&mut self) -> (r: Option<&'a str>)
        requires
            old(self).wf(),
        ensures
            final(self).wf(),
            match r {
                Some(c) => old(self).remaining() == seq![c@] + final(self).remaining(),
                None => old(self).remaining() == Seq::<Seq<char>>::empty() && final(self).remaining() == Seq::<Seq<char>>::empty(),
            },
    {
        match self {
            PathRefIter::Base(b) => b.next(),
            PathRefIter::SingleJoin(b, t) => {
                let ghost old_t = *t;
                match b.next() {
                    Some(c) => {
                        proof {
                            let tail_seq = match old_t {
                                Some(x) => seq![x@],
                                None => Seq::<Seq<char>>::empty(),
                            };
                            assert(seq![c@] + b.remaining() + tail_seq =~= seq![c@] + (
                            b.remaining() + tail_seq));
                        }
                        Some(c)
                    },
                    None => {
                        let r = t.take();
                        proof {
                            match old_t {
                                Some(x) => {
                                    assert(Seq::<Seq<char>>::empty() + seq![x@] =~= seq![x@] + (
                                    Seq::<Seq<char>>::empty() + Seq::<Seq<char>>::empty()));
                                },
                                None => {
                                    assert(Seq::<Seq<char>>::empty() + Seq::<Seq<char>>::empty()
                                        =~= Seq::<Seq<char>>::empty());
                                },
                            }
                        }
                        r
                    },
                }
            },
            PathRefIter::JoinedIter(j) => j.next(),
        }
    }

    /// Collects the remaining components.
    pub fn collect_components(self) -> (r: Vec<&'a str>)
        requires
            self.wf(),
        ensures
            str_views(r@) == self.remaining(),
    {
        let mut it = self;
        let mut out: Vec<&'a str> = Vec::new();
        loop
            invariant
                it.wf(),
                str_views(out@) + it.remaining() == self.remaining(),
            ensures
                str_views(out@) == self.remaining(),
            decreases it.remaining().len(),
        {
            let ghost before = it.remaining();
            match it.next() {
                Some(c) => {
                    let ghost prev = out@;
                    out.push(c);
                    proof {
                        assert(str_views(out@) =~= str_views(prev) + seq![c@]);
                        assert(str_views(prev) + before =~= str_views(out@) + it.remaining());
                    }
                },
                None => {
                    proof {
                        assert(str_views(out@) + before =~= str_views(out@));
                    }
                    break ;
                },
            }
        }
        out
    }
}

impl<'a> PathRef<'a> {
    /// Iterator over the components of a path that is not a join.
    fn base_iter(&self) -> (r: BasePathRefIter<'a>)
        requires
            !(*self is Join),
        ensures
            r.wf(),
            r.remaining() == path_components(*self),
    {
        match *self {
            PathRef::Str(s) => BasePathRefIter::Str { s, pos: 0 },
            PathRef::Slice(items) => {
                proof {
                    assert(items@.skip(0) =~= items@);
                }
                BasePathRefIter::Slice { items, pos: 0 }
            },
            PathRef::PathVec(pv) => BasePathRefIter::PathVec { s: pv.as_str(), pos: 0 },
            PathRef::Join(_, _) => {
                proof {
                    assert(false);
                }
                BasePathRefIter::Slice { items: &[], pos: 0 }
            },
        }
    }

    /// Iterator over the components of the path. A single join is iterated
    /// without allocating.
    pub fn iter(&self) -> (r: PathRefIter<'a>)
        ensures
            r.wf(),
            r.remaining() == path_components(*self),
    {
        match *self {
            PathRef::Join(base, tail) => {
                match *base {
                    PathRef::Join(_, _) => PathRefIter::JoinedIter(
                        JoinedPathRefIter::new(base, tail),
                    ),
                    _ => {
                        let b = base.base_iter();
                        proof {
                            assert(path_components(*base).push(tail@) =~= path_components(*base)
                                + seq![tail@]);
                        }
                        PathRefIter::SingleJoin(b, Some(tail))
                    },
                }
            },
            _ => PathRefIter::Base(self.base_iter()),
        }
    }

    /// The components of the path, in order.
    pub fn to_components(&self) -> (r: Vec<&'a str>)
        ensures
            str_views(r@) == self@,
    {
        self.iter().collect_components()
    }

    /// The host path of this path placed under `prefix`: its components,
    /// joined by the host's separator, appended to `prefix`.
    pub fn as_path_buf(&self, prefix: &std::path::Path) -> std::path::PathBuf {
        let comps = self.to_components();
        let mut suffix = crate::path::host::host_path_buf();
        let mut i: usize = 0;
        while i < comps.len()
            decreases comps@.len() - i,
        {
            crate::path::host::host_push(&mut suffix, comps[i]);
            i = i + 1;
        }
        crate::path::host::host_join(prefix, &suffix)
    }

    /// The path with `tail` appended as one more component.
    pub fn join(&'a self, tail: &'a str) -> (r: Self)
        ensures
            r == PathRef::Join(self, tail),
            r@ == self@.push(tail@),
    {
        PathRef::Join(self, tail)
    }

    pub open spec fn spec_is_root(&self) -> bool {
        match *self {
            PathRef::Join(_, _) => false,
            PathRef::PathVec(pv) => pv.spec_is_root(),
            _ => self@.len() == 0,
        }
    }

    /// Whether the path is the root: a join never is, a `PathVec` is when
    /// its string is empty or a single slash, and any other path is when it
    /// has no components.
    pub fn is_root(&self) -> (r: bool)
        ensures
            r == self.spec_is_root(),
    {
        match *self {
            PathRef::Join(_, _) => false,
            PathRef::PathVec(pv) => pv.is_root(),
            _ => {
                let mut it = self.iter();
                it.next().is_none()
            },
        }
    }
}

/// The text of a path: each component after a slash, a lone slash for the
/// root. A string path is shown as written, with a slash put in front when it
/// does not start with one.
pub open spec fn display_string(p: PathRef) -> Seq<char>
    decreases p,
{
    match p {
        PathRef::Str(s) => if s@.len() == 0 || s@[0] != '/' {
            seq!['/'] + s@
        } else {
            s@
        },
        PathRef::Slice(items) => if items@.len() == 0 {
            seq!['/']
        } else {
            slash_prefixed(str_views(items@))
        },
        PathRef::PathVec(pv) => seq!['/'] + pv@,
        PathRef::Join(base, tail) => display_string(*base) + seq!['/'] + tail@,
    }
}

/// Each string preceded by a slash, concatenated.
pub open spec fn slash_prefixed(items: Seq<Seq<char>>) -> Seq<char>
    decreases items.len(),
{
    if items.len() == 0 {
        Seq::empty()
    } else {
        slash_prefixed(items.drop_last()) + seq!['/'] + items.last()
    }
}

/// The string of the `PathVec` made from a path: the joined components of a
/// string path, the joined non-empty strings of a slice, the string of a
/// `PathVec`, and the string of the base with the tail appended for a join.
pub open spec fn pathvec_of(p: PathRef) -> Seq<char>
    decreases p,
{
    match p {
        PathRef::Str(s) => pathvec_string(s@),
        PathRef::Slice(items) => join_slash(non_empty(str_views(items@))),
        PathRef::PathVec(pv) => pv@,
        PathRef::Join(base, tail) => {
            let b = pathvec_of(*base);
            if is_root_string(b) {
                b + tail@
            } else {
                b + seq!['/'] + tail@
            }
        },
    }
}

impl<'a> PathRef<'a> {
    /// The path as text, as `display_string` gives it.
    pub fn to_string(&self) -> (r: String)
        ensures
            r@ == display_string(*self),
        decreases join_depth(*self),
    {
        proof {
            reveal_strlit("/");
            assert("/"@ =~= seq!['/']);
        }
        match *self {
            PathRef::Str(s) => {
                if s.unicode_len() == 0 || s.get_char(0) != '/' {
                    let mut out = String::from_str("/");
                    out.append(s);
                    out
                } else {
                    String::from_str(s)
                }
            },
            PathRef::Slice(items) => {
                if items.len() == 0 {
                    String::from_str("/")
                } else {
                    let mut out = String::new();
                    let mut i: usize = 0;
                    proof {
                        assert(str_views(items@.take(0)) =~= Seq::<Seq<char>>::empty());
                    }
                    while i < items.len()
                        invariant
                            i <= items@.len(),
                            out@ == slash_prefixed(str_views(items@.take(i as int))),
                        decreases items@.len() - i,
                    {
                        proof {
                            reveal_strlit("/");
                            assert("/"@ =~= seq!['/']);
                            let after = str_views(items@.take(i + 1));
                            assert(after.drop_last() =~= str_views(items@.take(i as int)));
                            assert(after.last() == items@[i as int]@);
                        }
                        out.append("/");
                        out.append(items[i]);
                        i = i + 1;
                    }
                    proof {
                        assert(items@.take(items@.len() as int) =~= items@);
                    }
                    out
                }
            },
            PathRef::PathVec(pv) => pv.as_string(),
            PathRef::Join(base, tail) => {
                let mut out = base.to_string();
                out.append("/");
                out.append(tail);
                out
            },
        }
    }

    /// An owned copy of the path, as `pathvec_of` gives its string.
    pub fn to_pathvec(&self) -> (r: PathVec)
        ensures
            r@ == pathvec_of(*self),
        decreases join_depth(*self),
    {
        match *self {
            PathRef::Str(s) => PathVec::from_str_path(s),
            PathRef::Slice(items) => PathVec::from_iter(items),
            PathRef::PathVec(pv) => pv.clone_path(),
            PathRef::Join(base, tail) => PathVec::from_base(base.to_pathvec(), tail),
        }
    }
}

impl<'a> From<&'a str> for PathRef<'a> {
    fn from(value: &'a str) -> (r: Self) {
        PathRef::Str(value)
    }
}

impl<'a> vstd::std_specs::convert::FromSpecImpl<&'a str> for PathRef<'a> {
    open spec fn obeys_from_spec() -> bool {
        true
    }

    open spec fn from_spec(v: &'a str) -> Self {
        PathRef::Str(v)
    }
}

impl<'a> From<&'a [&'a str]> for PathRef<'a> {
    fn from(value: &'a [&'a str]) -> (r: Self) {
        PathRef::Slice(value)
    }
}

impl<'a> vstd::std_specs::convert::FromSpecImpl<&'a [&'a str]> for PathRef<'a> {
    open spec fn obeys_from_spec() -> bool {
        true
    }

    open spec fn from_spec(v: &'a [&'a str]) -> Self {
        PathRef::Slice(v)
    }
}

impl<'a> From<&'a PathVec> for PathRef<'a> {
    fn from(value: &'a PathVec) -> (r: Self) {
        PathRef::PathVec(value)
    }
}

impl<'a> vstd::std_specs::convert::FromSpecImpl<&'a PathVec> for PathRef<'a> {
    open spec fn obeys_from_spec() -> bool {
        true
    }

    open spec fn from_spec(v: &'a PathVec) -> Self {
        PathRef::PathVec(v)
    }
}

impl<'a> From<PathRef<'a>> for PathVec {
    fn from(value: PathRef<'a>) -> (r: Self)
        ensures
            r@ == pathvec_of(value),
    {
        value.to_pathvec()
    }
}

/// A `PathVec` made from a path is described by its string only, so no
/// value is given for the conversion; `from` states the string it gives.
impl<'a> vstd::std_specs::convert::FromSpecImpl<PathRef<'a>> for PathVec {
    open spec fn obeys_from_spec() -> bool {
        false
    }

    open spec fn from_spec(v: PathRef<'a>) -> Self {
        arbitrary()
    }
}

} // verus!
