//! A prefix tree keyed by paths. Each node branches on one character; a
//! node that ends a component may hold a record: a value and the subtree of
//! the paths below it.
use vstd::prelude::*;

use crate::path::pathref::{str_views, PathRef};

verus! {

/// The children of a node, by character. A node with a single child keeps it
/// inline; more children are kept in an array indexed from `start_char`.
#[derive(Default, Debug, Eq, PartialEq)]
pub enum PPTSubtree<T> {
    #[default]
    Empty,
    SingleChar(char, Option<Box<PathPrefixTree<T>>>),
    CharArray { start_char: char, children: Vec<Option<Box<PathPrefixTree<T>>>> },
}

/// A node of a path prefix tree.
#[derive(Debug, Eq, PartialEq)]
pub struct PathPrefixTree<T> {
    pub children: PPTSubtree<T>,
    pub record: Option<(T, Box<PathPrefixTree<T>>)>,
}

impl<T> PPTSubtree<T> {
    /// The child for character `c`, if any.
    pub open spec fn spec_child(self, c: char) -> Option<Box<PathPrefixTree<T>>> {
        match self {
            PPTSubtree::Empty => None,
            PPTSubtree::SingleChar(ch, sub) => if ch == c {
                sub
            } else {
                None
            },
            PPTSubtree::CharArray { start_char, children } => {
                let i = (c as int) - (start_char as int);
                if 0 <= i < children@.len() {
                    children@[i]
                } else {
                    None
                }
            },
        }
    }

    /// Whether the subtree has a slot for the child of `c`.
    pub open spec fn has_slot(self, c: char) -> bool {
        match self {
            PPTSubtree::Empty => false,
            PPTSubtree::SingleChar(ch, _) => ch == c,
            PPTSubtree::CharArray { start_char, children } => (start_char as int) <= (c as int) && (c as int)
                - (start_char as int) < children@.len(),
        }
    }

    /// The child for character `c`, if any.
    pub fn child(&self, c: char) -> (r: Option<&PathPrefixTree<T>>)
        ensures
            match self.spec_child(c) {
                Some(b) => r == Some(&*b),
                None => r is None,
            },
    {
        match self {
            PPTSubtree::Empty => None,
            PPTSubtree::SingleChar(ch, sub) => {
                if *ch == c {
                    match sub {
                        Some(b) => Some(&**b),
                        None => None,
                    }
                } else {
                    None
                }
            },
            PPTSubtree::CharArray { start_char, children } => {
                let cu = c as u32;
                let su = *start_char as u32;
                if cu >= su && ((cu - su) as usize) < children.len() {
                    match &children[(cu - su) as usize] {
                        Some(b) => Some(&**b),
                        None => None,
                    }
                } else {
                    None
                }
            },
        }
    }

    /// The slot for character `c`, made room for when needed: an empty
    /// subtree becomes a single child, a single child for another character
    /// becomes an array, and an array is extended at either end.
    pub fn child_mut(&mut self, c: char) -> (r: &mut Option<Box<PathPrefixTree<T>>>)
        ensures
            *r == old(self).spec_child(c),
            final(self).spec_child(c) == *final(r),
            forall|d: char| d != c ==> #[trigger] final(self).spec_child(d) == old(self).spec_child(d),
    {
        let mut cur = PPTSubtree::Empty;
        std::mem::swap(&mut cur, self);
        let ghost prev = cur;
        let stage: PPTSubtree<T> = match cur {
            PPTSubtree::Empty => PPTSubtree::SingleChar(c, None),
            PPTSubtree::SingleChar(ch, sub) => {
                if ch == c {
                    PPTSubtree::SingleChar(ch, sub)
                } else {
                    let mut children: Vec<Option<Box<PathPrefixTree<T>>>> = Vec::new();
                    children.push(sub);
                    PPTSubtree::CharArray { start_char: ch, children }
                }
            },
            other => other,
        };
        proof {
            assert forall|d: char| #[trigger] stage.spec_child(d) == prev.spec_child(d) by {
                if let PPTSubtree::SingleChar(ch, _) = prev {
                    if ch != c && d != ch {
                        assert(stage.spec_child(d) is None);
                    }
                }
            }
        }
        let ghost staged = stage;
        let next: PPTSubtree<T> = match stage {
            PPTSubtree::CharArray { start_char, mut children } => {
                let ghost start = children@;
                let cu = c as u32;
                let su = start_char as u32;
                if cu >= su {
                    let idx = (cu - su) as usize;
                    while children.len() <= idx
                        invariant
                            forall|i: int| 0 <= i < children@.len() ==> #[trigger] children@[i] == (
                            if i < start.len() {
                                start[i]
                            } else {
                                None
                            }),
                            children@.len() >= start.len(),
                            children@.len() <= idx + 1 || children@.len() == start.len(),
                        decreases idx + 1 - children@.len(),
                    {
                        children.push(None);
                    }
                    let r = PPTSubtree::CharArray { start_char, children };
                    proof {
                        assert forall|d: char| #[trigger] r.spec_child(d) == staged.spec_child(d) by {
                        }
                    }
                    r
                } else {
                    let k = su - cu;
                    let mut j: u32 = 0;
                    while j < k
                        invariant
                            j <= k,
                            children@.len() == start.len() + j,
                            forall|i: int| 0 <= i < j ==> #[trigger] children@[i] == None::<
                                Box<PathPrefixTree<T>>,
                            >,
                            forall|i: int| j <= i < children@.len() ==> #[trigger] children@[i]
                                == start[i - j],
                        decreases k - j,
                    {
                        let ghost before = children@;
                        children.insert(0, None);
                        proof {
                            assert forall|i: int| j + 1 <= i < children@.len() implies #[trigger] children@[i]
                                == start[i - (j + 1)] by {
                                assert(children@[i] == before[i - 1]);
                            }
                            assert forall|i: int| 0 <= i < j + 1 implies #[trigger] children@[i] == None::<
                                Box<PathPrefixTree<T>>,
                            > by {
                                if i > 0 {
                                    assert(children@[i] == before[i - 1]);
                                }
                            }
                        }
                        j = j + 1;
                    }
                    let r = PPTSubtree::CharArray { start_char: c, children };
                    proof {
                        assert forall|d: char| #[trigger] r.spec_child(d) == staged.spec_child(d) by {
                            let di = (d as int) - (c as int);
                            if 0 <= di < children@.len() && di >= k {
                                assert(children@[di] == start[di - k]);
                            }
                        }
                    }
                    r
                }
            },
            other => other,
        };
        proof {
            assert(next.has_slot(c));
        }
        *self = next;
        match self {
            PPTSubtree::SingleChar(_, sub) => sub,
            PPTSubtree::CharArray { start_char, children } => {
                let idx = ((c as u32) - (*start_char as u32)) as usize;
                &mut children[idx]
            },
            PPTSubtree::Empty => vstd::pervasive::unreached(),
        }
    }
}

impl<T> PathPrefixTree<T> {
    /// A tree with no children and no record.
    pub open spec fn empty_tree() -> Self {
        PathPrefixTree { children: PPTSubtree::Empty, record: None }
    }

    /// The node reached from this one by following the characters of `s`.
    pub open spec fn node_at(self, s: Seq<char>) -> Option<Self>
        decreases s.len(),
    {
        if s.len() == 0 {
            Some(self)
        } else {
            match self.children.spec_child(s[0]) {
                Some(b) => (*b).node_at(s.drop_first()),
                None => None,
            }
        }
    }

    /// The record stored under the characters `s`, if any.
    pub open spec fn record_at(self, s: Seq<char>) -> Option<(T, Box<Self>)> {
        match self.node_at(s) {
            Some(n) => n.record,
            None => None,
        }
    }

    /// The node a path of components leads to: each component is followed
    /// character by character, and every component but the last continues in
    /// the subtree of the record it ends at.
    pub open spec fn lookup_comps(self, cs: Seq<Seq<char>>) -> Option<Self>
        decreases cs.len(),
    {
        if cs.len() == 0 {
            Some(self)
        } else {
            match self.node_at(cs[0]) {
                None => None,
                Some(n) => if cs.len() == 1 {
                    Some(n)
                } else {
                    match n.record {
                        Some((_, sub)) => (*sub).lookup_comps(cs.drop_first()),
                        None => None,
                    }
                },
            }
        }
    }

    /// The subtree a path of components leads to: every component continues
    /// in the subtree of the record it ends at.
    pub open spec fn subdir_comps(self, cs: Seq<Seq<char>>) -> Option<Self>
        decreases cs.len(),
    {
        if cs.len() == 0 {
            Some(self)
        } else {
            match self.record_at(cs[0]) {
                Some((_, sub)) => (*sub).subdir_comps(cs.drop_first()),
                None => None,
            }
        }
    }

    /// The value stored for a path of components, if any.
    pub open spec fn get_comps(self, cs: Seq<Seq<char>>) -> Option<T> {
        match self.lookup_comps(cs) {
            Some(n) => match n.record {
                Some((v, _)) => Some(v),
                None => None,
            },
            None => None,
        }
    }

    /// An empty tree.
    pub fn new() -> (r: Self)
        ensures
            r == Self::empty_tree(),
    {
        PathPrefixTree { children: PPTSubtree::Empty, record: None }
    }

    /// The children of the node.
    pub fn children(&self) -> (r: &PPTSubtree<T>)
        ensures
            *r == self.children,
    {
        &self.children
    }

    /// The node reached by following the characters of `s`.
    pub fn descend<'b>(&'b self, s: &str) -> (r: Option<&'b Self>)
        ensures
            match self.node_at(s@) {
                Some(n) => r == Some(&n),
                None => r is None,
            },
    {
        let n = s.unicode_len();
        let mut node: &Self = self;
        let mut i: usize = 0;
        proof {
            assert(s@.skip(0) =~= s@);
        }
        while i < n
            invariant
                n == s@.len(),
                i <= n,
                self.node_at(s@) == node.node_at(s@.skip(i as int)),
            decreases n - i,
        {
            let c = s.get_char(i);
            proof {
                assert(s@.skip(i as int)[0] == c);
                assert(s@.skip(i as int).drop_first() =~= s@.skip(i + 1));
            }
            match node.children.child(c) {
                Some(next) => {
                    node = next;
                },
                None => {
                    return None;
                },
            }
            i = i + 1;
        }
        proof {
            assert(s@.skip(n as int) =~= Seq::<char>::empty());
        }
        Some(node)
    }

    /// Sets the record of this node to `val`, keeping the subtree of a record
    /// already there, and returns that subtree.
    fn set_record(&mut self, val: T) -> (r: &mut Self)
        ensures
            *r == match old(self).record {
                Some((_, sub)) => *sub,
                None => Self::empty_tree(),
            },
            final(self).children == old(self).children,
            final(self).record == Some((val, Box::new(*final(r)))),
    {
        let sub: Box<Self> = match self.record.take() {
            Some((_, b)) => b,
            None => Box::new(PathPrefixTree::new()),
        };
        let rec = self.record.insert((val, sub));
        &mut *rec.1
    }

    /// The child of this node for `c`, created empty when missing.
    fn child_node_mut(&mut self, c: char) -> (r: &mut Self)
        ensures
            *r == match old(self).children.spec_child(c) {
                Some(b) => *b,
                None => Self::empty_tree(),
            },
            final(self).record == old(self).record,
            final(self).children.spec_child(c) == Some(Box::new(*final(r))),
            forall|d: char|
                d != c ==> #[trigger] final(self).children.spec_child(d) == old(
                    self,
                ).children.spec_child(d),
    {
        let slot = self.children.child_mut(c);
        let child: &mut Box<Self> = slot.get_or_insert(Box::new(PathPrefixTree::new()));
        &mut **child
    }

    fn insert_tail_from(&mut self, tail: &str, n: usize, i: usize, val: T) -> (r: &mut Self)
        requires
            n == tail@.len(),
            i <= n,
        ensures
            *r == match old(self).record_at(tail@.skip(i as int)) {
                Some((_, sub)) => *sub,
                None => Self::empty_tree(),
            },
            final(self).record_at(tail@.skip(i as int)) == Some((val, Box::new(*final(r)))),
            forall|s: Seq<char>|
                s != tail@.skip(i as int) ==> #[trigger] final(self).record_at(s) == old(self).record_at(s),
        decreases n - i,
    {
        if i == n {
            proof {
                assert(tail@.skip(i as int) =~= Seq::<char>::empty());
            }
            let ghost me_before = *self;
            let ghost me_after = *final(self);
            let r = self.set_record(val);
            proof {
                assert forall|s: Seq<char>| s != tail@.skip(i as int) implies #[trigger] me_after.record_at(
                    s,
                ) == me_before.record_at(s) by {
                    if s.len() == 0 {
                        assert(s =~= tail@.skip(i as int));
                    }
                    assert(me_after.children == me_before.children);
                }
            }
            r
        } else {
            let c = tail.get_char(i);
            let ghost rest = tail@.skip(i + 1);
            proof {
                assert(tail@.skip(i as int)[0] == c);
                assert(tail@.skip(i as int).drop_first() =~= rest);
            }
            let ghost me_before = *self;
            let ghost me_after = *final(self);
            let child = self.child_node_mut(c);
            let ghost child_before = *child;
            let ghost child_after = *final(child);
            let r = child.insert_tail_from(tail, n, i + 1, val);
            proof {
                assert forall|s: Seq<char>| s != rest implies #[trigger] child_after.record_at(s) == child_before.record_at(s) by {
                    assert(child_after.node_at(s) == child_after.node_at(s));
                }
                lemma_empty_tree_has_no_records::<T>();
                assert forall|s: Seq<char>|
                    s != tail@.skip(i as int) && s.len() > 0 && s[0] == c implies #[trigger] s.drop_first() != rest by {
                    let t = tail@.skip(i as int);
                    if s.drop_first() == rest {
                        assert(t.drop_first() =~= rest);
                        assert(s.len() == t.len());
                        assert forall|k: int| 0 <= k < s.len() implies s[k] == t[k] by {
                            if k > 0 {
                                assert(s[k] == s.drop_first()[k - 1]);
                                assert(t[k] == t.drop_first()[k - 1]);
                            }
                        }
                        assert(s =~= t);
                    }
                }
                assert forall|s: Seq<char>|
                    s != tail@.skip(i as int) implies #[trigger] me_after.record_at(s) == me_before.record_at(s) by {
                    if s.len() > 0 {
                        if s[0] == c {
                            assert(s.drop_first() != rest);
                            assert(me_after.children.spec_child(c) == Some(Box::new(child_after)));
                            assert(child_after.record_at(s.drop_first()) == child_before.record_at(s.drop_first()));
                        } else {
                            assert(me_after.children.spec_child(s[0]) == me_before.children.spec_child(s[0]));
                        }
                    }
                }
                assert(me_before == *old(self));
                assert(me_after.record == me_before.record);
            }
            r
        }
    }

    /// Stores `val` under the characters of `tail`, keeping the subtree of a
    /// record already there, and returns that subtree.
    pub fn insert_tail(&mut self, tail: &str, val: T) -> (r: &mut Self)
        ensures
            *r == match old(self).record_at(tail@) {
                Some((_, sub)) => *sub,
                None => Self::empty_tree(),
            },
            final(self).record_at(tail@) == Some((val, Box::new(*final(r)))),
            forall|s: Seq<char>|
                #![trigger final(self).node_at(s)]
                s != tail@ ==> final(self).record_at(s) == old(self).record_at(s),
    {
        let n = tail.unicode_len();
        proof {
            assert(tail@.skip(0) =~= tail@);
        }
        self.insert_tail_from(tail, n, 0, val)
    }

    /// The node a path leads to: its components are followed character by
    /// character, each but the last continuing in the subtree of the record
    /// it ends at.
    pub fn lookup_node(&self, path: PathRef) -> (r: Option<&Self>)
        ensures
            match self.lookup_comps(path@) {
                Some(n) => r == Some(&n),
                None => r is None,
            },
    {
        let comps = path.to_components();
        let m = comps.len();
        let ghost cs = path@;
        let mut node: &Self = self;
        let mut k: usize = 0;
        proof {
            assert(cs.skip(0) =~= cs);
        }
        while k < m
            invariant
                m == cs.len(),
                cs == path@,
                str_views(comps@) == cs,
                k <= m,
                self.lookup_comps(cs) == node.lookup_comps(cs.skip(k as int)),
            decreases m - k,
        {
            let comp = comps[k];
            proof {
                assert(cs.skip(k as int)[0] == comp@);
                assert(cs.skip(k as int).drop_first() =~= cs.skip(k + 1));
            }
            match node.descend(comp) {
                Some(next) => {
                    if k + 1 < m {
                        match &next.record {
                            Some((_, sub)) => {
                                node = &**sub;
                            },
                            None => {
                                proof {
                                    assert(cs.skip(k as int).len() > 1);
                                    assert(node.lookup_comps(cs.skip(k as int)) is None);
                                    assert(self.lookup_comps(path@) is None);
                                }
                                return None;
                            },
                        }
                    } else {
                        node = next;
                        proof {
                            assert(cs.skip(k + 1) =~= Seq::<Seq<char>>::empty());
                        }
                    }
                },
                None => {
                    proof {
                        assert(cs.skip(k as int).len() > 0);
                        assert(node.lookup_comps(cs.skip(k as int)) is None);
                    }
                    return None;
                },
            }
            k = k + 1;
        }
        proof {
            assert(cs.skip(m as int) =~= Seq::<Seq<char>>::empty());
        }
        Some(node)
    }

    /// The subtree a path leads to: every component continues in the subtree
    /// of the record it ends at.
    pub fn lookup_subdir(&self, path: PathRef) -> (r: Option<&Self>)
        ensures
            match self.subdir_comps(path@) {
                Some(n) => r == Some(&n),
                None => r is None,
            },
    {
        let comps = path.to_components();
        let m = comps.len();
        let ghost cs = path@;
        let mut node: &Self = self;
        let mut k: usize = 0;
        proof {
            assert(cs.skip(0) =~= cs);
        }
        while k < m
            invariant
                m == cs.len(),
                cs == path@,
                str_views(comps@) == cs,
                k <= m,
                self.subdir_comps(cs) == node.subdir_comps(cs.skip(k as int)),
            decreases m - k,
        {
            let comp = comps[k];
            proof {
                assert(cs.skip(k as int)[0] == comp@);
                assert(cs.skip(k as int).drop_first() =~= cs.skip(k + 1));
            }
            match node.descend(comp) {
                Some(next) => {
                    match &next.record {
                        Some((_, sub)) => {
                            node = &**sub;
                        },
                        None => {
                            proof {
                                assert(cs.skip(k as int).len() > 0);
                                assert(node.subdir_comps(cs.skip(k as int)) is None);
                            }
                            return None;
                        },
                    }
                },
                None => {
                    proof {
                        assert(cs.skip(k as int).len() > 0);
                        assert(node.subdir_comps(cs.skip(k as int)) is None);
                    }
                    return None;
                },
            }
            k = k + 1;
        }
        proof {
            assert(cs.skip(m as int) =~= Seq::<Seq<char>>::empty());
        }
        Some(node)
    }

    /// The value stored for a path.
    pub fn get(&self, path: PathRef) -> (r: Option<&T>)
        ensures
            match self.get_comps(path@) {
                Some(v) => r == Some(&v),
                None => r is None,
            },
    {
        match self.lookup_node(path) {
            Some(node) => match &node.record {
                Some((v, _)) => Some(v),
                None => None,
            },
            None => None,
        }
    }
}

impl<T> PathPrefixTree<T> {
    fn descend_mut(&mut self, s: &str, i: usize, n: usize) -> (r: Option<&mut Self>)
        requires
            n == s@.len(),
            i <= n,
        ensures
            match r {
                Some(x) => old(self).node_at(s@.skip(i as int)) == Some(*x) && final(self).node_at(
                    s@.skip(i as int),
                ) == Some(*final(x)),
                None => old(self).node_at(s@.skip(i as int)) is None,
            },
        decreases n - i,
    {
        if i == n {
            proof {
                assert(s@.skip(i as int) =~= Seq::<char>::empty());
            }
            return Some(self);
        }
        let c = s.get_char(i);
        proof {
            assert(s@.skip(i as int)[0] == c);
            assert(s@.skip(i as int).drop_first() =~= s@.skip(i + 1));
        }
        let slot = self.children.child_mut(c);
        match slot.as_mut() {
            Some(b) => b.descend_mut(s, i + 1, n),
            None => None,
        }
    }

    fn lookup_comps_mut(&mut self, comps: &Vec<&str>, k: usize) -> (r: Option<&mut Self>)
        requires
            k <= comps@.len(),
        ensures
            match r {
                Some(x) => old(self).lookup_comps(str_views(comps@).skip(k as int)) == Some(*x)
                    && final(self).lookup_comps(str_views(comps@).skip(k as int)) == Some(*final(x)),
                None => old(self).lookup_comps(str_views(comps@).skip(k as int)) is None,
            },
        decreases comps@.len() - k,
    {
        let ghost cs = str_views(comps@).skip(k as int);
        if k == comps.len() {
            proof {
                assert(cs =~= Seq::<Seq<char>>::empty());
            }
            return Some(self);
        }
        let comp = comps[k];
        proof {
            assert(cs[0] == comp@);
            assert(comp@.skip(0) =~= comp@);
        }
        let n = comp.unicode_len();
        match self.descend_mut(comp, 0, n) {
            Some(node) => {
                if k == comps.len() - 1 {
                    Some(node)
                } else {
                    proof {
                        assert(cs.drop_first() =~= str_views(comps@).skip(k + 1));
                    }
                    match node.record.as_mut() {
                        Some(rec) => rec.1.lookup_comps_mut(comps, k + 1),
                        None => None,
                    }
                }
            },
            None => None,
        }
    }

    /// The node a path leads to, as `lookup_node` finds it, for changing.
    /// Empty child slots may be made on the way; no record changes.
    pub fn lookup_node_mut(&mut self, path: PathRef) -> (r: Option<&mut Self>)
        ensures
            match r {
                Some(x) => old(self).lookup_comps(path@) == Some(*x) && final(self).lookup_comps(path@)
                    == Some(*final(x)),
                None => old(self).lookup_comps(path@) is None,
            },
    {
        let comps = path.to_components();
        proof {
            assert(str_views(comps@).skip(0) =~= str_views(comps@));
        }
        self.lookup_comps_mut(&comps, 0)
    }
}

/// `a` is a shorter path than `b` that `b` starts with.
pub open spec fn is_proper_prefix(a: Seq<Seq<char>>, b: Seq<Seq<char>>) -> bool {
    a.len() < b.len() && a == b.take(a.len() as int)
}

/// `o` holds a value that `T::default()` gives.
pub open spec fn holds_default<T: Default>(o: Option<T>) -> bool {
    o matches Some(v) && call_ensures(T::default, (), v)
}

/// Storing under `path` left `after` as `before` everywhere else: every
/// path of components that neither is `path` nor leads to it keeps its
/// value, every path that leads to it holds a default value, and where all
/// its components have characters, the value of the empty path stays.
pub open spec fn stored_around<T: Default>(before: PathPrefixTree<T>, after: PathPrefixTree<T>, path: Seq<Seq<char>>) -> bool {
    &&& forall|p: Seq<Seq<char>>|
        #![trigger after.get_comps(p)]
        p.len() > 0 && is_proper_prefix(p, path) ==> holds_default(after.get_comps(p))
    &&& forall|p: Seq<Seq<char>>|
        #![trigger after.get_comps(p)]
        p.len() > 0 && p != path && !is_proper_prefix(p, path) ==> after.get_comps(p) == before.get_comps(p)
    &&& components_nonempty(path) ==> after.get_comps(Seq::empty()) == before.get_comps(Seq::empty())
}

/// Every component of `cs` has some characters.
pub open spec fn components_nonempty(cs: Seq<Seq<char>>) -> bool {
    forall|i: int| 0 <= i < cs.len() ==> (#[trigger] cs[i]).len() > 0
}

impl<T> PathPrefixTree<T> {
    /// The value stored for a path of components is found through the
    /// record of its first component.
    proof fn lemma_get_first(self, p: Seq<Seq<char>>)
        requires
            p.len() > 0,
        ensures
            self.get_comps(p) == match self.record_at(p[0]) {
                None => None,
                Some((v, sub)) => if p.len() == 1 {
                    Some(v)
                } else {
                    (*sub).get_comps(p.drop_first())
                },
            },
    {
    }

    /// The empty tree stores nothing under any path of components.
    pub proof fn lemma_empty_get(p: Seq<Seq<char>>)
        requires
            p.len() > 0,
        ensures
            Self::empty_tree().get_comps(p) is None,
    {
        lemma_empty_tree_has_no_records::<T>();
        Self::empty_tree().lemma_get_first(p);
    }
}

impl<T: Default> PathPrefixTree<T> {
    fn insert_components(&mut self, comps: &Vec<&str>, k: usize, val: T)
        requires
            k < comps@.len(),
        ensures
            final(self).get_comps(str_views(comps@).skip(k as int)) == Some(val),
            forall|p: Seq<Seq<char>>|
                #![trigger final(self).get_comps(p)]
                p.len() > 0 && is_proper_prefix(p, str_views(comps@).skip(k as int)) ==> holds_default(
                    final(self).get_comps(p),
                ),
            forall|p: Seq<Seq<char>>|
                #![trigger final(self).get_comps(p)]
                p.len() > 0 && p != str_views(comps@).skip(k as int) && !is_proper_prefix(
                    p,
                    str_views(comps@).skip(k as int),
                ) ==> final(self).get_comps(p) == old(self).get_comps(p),
            components_nonempty(str_views(comps@).skip(k as int)) ==> final(self).get_comps(Seq::empty())
                == old(self).get_comps(Seq::empty()),
        decreases comps@.len() - k,
    {
        let ghost cs = str_views(comps@).skip(k as int);
        let ghost name = cs[0];
        let ghost before = *self;
        proof {
            assert(cs[0] == comps@[k as int]@);
        }
        if k == comps.len() - 1 {
            self.insert_tail(comps[k], val);
            proof {
                let after = *self;
                assert(cs =~= seq![name]);
                after.lemma_get_first(cs);
                assert forall|p: Seq<Seq<char>>|
                    #![trigger after.get_comps(p)]
                    p.len() > 0 && p != cs && !is_proper_prefix(p, cs) implies after.get_comps(p) == before.get_comps(p) by {
                    after.lemma_get_first(p);
                    before.lemma_get_first(p);
                    if p[0] == name {
                        if p.len() == 1 {
                            assert(p =~= cs);
                        }
                        if before.record_at(name) is None {
                            Self::lemma_empty_get(p.drop_first());
                        }
                    }
                }
                if components_nonempty(cs) {
                    assert(name.len() > 0);
                    assert(after.record_at(Seq::<char>::empty()) == before.record_at(Seq::<char>::empty()));
                }
            }
        } else {
            proof {
                assert(cs.drop_first() =~= str_views(comps@).skip(k + 1));
            }
            let d = T::default();
            let sub = self.insert_tail(comps[k], d);
            let ghost sub_before = *sub;
            sub.insert_components(comps, k + 1, val);
            proof {
                let after = *self;
                let rest = cs.drop_first();
                let sub_after = *after.record_at(name).unwrap().1;
                after.lemma_get_first(cs);
                assert forall|p: Seq<Seq<char>>|
                    #![trigger after.get_comps(p)]
                    p.len() > 0 && is_proper_prefix(p, cs) implies holds_default(after.get_comps(p)) by {
                    after.lemma_get_first(p);
                    assert(p[0] == cs[0]);
                    if p.len() > 1 {
                        assert(p.drop_first().len() > 0);
                        assert(p.drop_first() =~= rest.take(p.drop_first().len() as int));
                        assert(is_proper_prefix(p.drop_first(), rest));
                    }
                }
                assert forall|p: Seq<Seq<char>>|
                    #![trigger after.get_comps(p)]
                    p.len() > 0 && p != cs && !is_proper_prefix(p, cs) implies after.get_comps(p) == before.get_comps(p) by {
                    after.lemma_get_first(p);
                    before.lemma_get_first(p);
                    if p[0] == name {
                        if p.len() == 1 {
                            assert(p =~= cs.take(1));
                        }
                        let q = p.drop_first();
                        assert forall|i: int| 0 < i < p.len() implies #[trigger] p[i] == q[i - 1] by {}
                        assert forall|i: int| 0 < i < cs.len() implies #[trigger] cs[i] == rest[i - 1] by {}
                        if q == rest {
                            assert(p =~= cs);
                        }
                        if is_proper_prefix(q, rest) {
                            assert forall|i: int| 0 < i < p.len() implies p[i] == #[trigger] cs.take(p.len() as int)[i] by {
                                assert(q[i - 1] == rest.take(q.len() as int)[i - 1]);
                            }
                            assert(p =~= cs.take(p.len() as int));
                        }
                        assert(sub_after.get_comps(q) == sub_before.get_comps(q));
                        if before.record_at(name) is None {
                            Self::lemma_empty_get(q);
                        }
                    }
                }
                if components_nonempty(cs) {
                    assert(name.len() > 0);
                    assert(after.record_at(Seq::<char>::empty()) == before.record_at(Seq::<char>::empty()));
                }
            }
        }
    }

    /// Stores `val` under a path, storing default values under the
    /// components that lead to it. The root path stores its value at this
    /// node; any other path without components stores nothing. What is
    /// stored under any other path stays.
    pub fn insert_path(&mut self, path: PathRef, val: T)
        ensures
            path.spec_is_root() ==> final(self).get_comps(Seq::empty()) == Some(val),
            path.spec_is_root() ==> forall|p: Seq<Seq<char>>|
                #![trigger final(self).get_comps(p)]
                p.len() > 0 && p[0].len() > 0 ==> final(self).get_comps(p) == old(self).get_comps(p),
            !path.spec_is_root() && path@.len() > 0 ==> final(self).get_comps(path@) == Some(val),
            !path.spec_is_root() && path@.len() > 0 ==> stored_around(*old(self), *final(self), path@),
            !path.spec_is_root() && path@.len() == 0 ==> *final(self) == *old(self),
    {
        if path.is_root() {
            let ghost before = *self;
            self.insert_tail("", val);
            proof {
                reveal_strlit("");
                assert(""@ =~= Seq::<char>::empty());
                let after = *self;
                assert forall|p: Seq<Seq<char>>|
                    #![trigger after.get_comps(p)]
                    p.len() > 0 && p[0].len() > 0 implies after.get_comps(p) == before.get_comps(p) by {
                    after.lemma_get_first(p);
                    before.lemma_get_first(p);
                }
            }
            return;
        }
        let comps = path.to_components();
        if comps.len() == 0 {
            return;
        }
        proof {
            assert(str_views(comps@).skip(0) =~= str_views(comps@));
        }
        self.insert_components(&comps, 0, val);
    }
}

impl<T> Default for PathPrefixTree<T> {
    fn default() -> (r: Self)
        ensures
            r == Self::empty_tree(),
    {
        Self::new()
    }
}

/// The record stored under `name` in the subtree that the components `cs`
/// lead to is the value stored for the path `cs` followed by `name`.
pub proof fn lemma_get_child<T>(t: PathPrefixTree<T>, cs: Seq<Seq<char>>, name: Seq<char>)
    requires
        t.subdir_comps(cs) is Some,
        t.subdir_comps(cs).unwrap().record_at(name) is Some,
    ensures
        t.get_comps(cs.push(name)) == Some(t.subdir_comps(cs).unwrap().record_at(name).unwrap().0),
    decreases cs.len(),
{
    if cs.len() == 0 {
        assert(cs.push(name) =~= seq![name]);
    } else {
        let sub = *t.record_at(cs[0]).unwrap().1;
        assert(cs.push(name).drop_first() =~= cs.drop_first().push(name));
        lemma_get_child(sub, cs.drop_first(), name);
        assert(cs.push(name)[0] == cs[0]);
    }
}

/// A value stored for the path `cs` followed by `name` is the record under
/// `name` in the subtree that `cs` leads to.
pub proof fn lemma_child_record<T>(t: PathPrefixTree<T>, cs: Seq<Seq<char>>, name: Seq<char>)
    requires
        t.get_comps(cs.push(name)) is Some,
    ensures
        t.subdir_comps(cs) is Some,
        t.subdir_comps(cs).unwrap().record_at(name) is Some,
        t.subdir_comps(cs).unwrap().record_at(name).unwrap().0 == t.get_comps(cs.push(name)).unwrap(),
    decreases cs.len(),
{
    if cs.len() == 0 {
        assert(cs.push(name) =~= seq![name]);
    } else {
        assert(cs.push(name).drop_first() =~= cs.drop_first().push(name));
        assert(cs.push(name)[0] == cs[0]);
        let sub = *t.record_at(cs[0]).unwrap().1;
        lemma_child_record(sub, cs.drop_first(), name);
    }
}

/// The empty tree stores nothing.
pub proof fn lemma_empty_tree_has_no_records<T>()
    ensures
        forall|s: Seq<char>| #[trigger] PathPrefixTree::<T>::empty_tree().node_at(s) is Some ==> s.len() == 0,
        forall|s: Seq<char>| #[trigger] PathPrefixTree::<T>::empty_tree().record_at(s) is None,
{
}

} // verus!