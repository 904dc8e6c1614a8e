//! Iteration over the records of a path prefix tree, and over the children
//! of a node.
use vstd::prelude::*;

use crate::avl::KeyOrder;
use crate::path::compare::{
    chars_order, lemma_chars_order_equal, lemma_chars_order_flip, lemma_chars_order_transitive,
    str_order,
};
use crate::path::pathtrie::{PPTSubtree, PathPrefixTree};

verus! {

/// The code of a character.
pub open spec fn code_of(c: char) -> int {
    c as int
}

/// The character with code `code`, or `None` when `code` is not one.
#[verifier::external_body]
fn char_from_u32(code: u32) -> (r: Option<char>)
    ensures
        match r {
            Some(c) => c as int == code as int,
            None => forall|c: char| #[trigger] code_of(c) != code as int,
        },
{
    char::from_u32(code)
}

/// Appends a character to a string.
#[verifier::external_body]
pub(crate) fn push_char(s: &mut String, c: char)
    ensures
        final(s)@ == old(s)@.push(c),
{
    s.push(c)
}

/// `a` comes before `b` in shortlex order: shorter strings first, strings of
/// one length by their first differing character.
pub open spec fn shortlex_lt(a: Seq<char>, b: Seq<char>) -> bool {
    a.len() < b.len() || (a.len() == b.len() && chars_order(a, b) == KeyOrder::Less)
}

pub proof fn lemma_shortlex_total(a: Seq<char>, b: Seq<char>)
    ensures
        a == b || shortlex_lt(a, b) || shortlex_lt(b, a),
        !(shortlex_lt(a, b) && shortlex_lt(b, a)),
        !shortlex_lt(a, a),
{
    lemma_chars_order_equal(a, b);
    lemma_chars_order_equal(a, a);
    lemma_chars_order_flip(a, b);
    lemma_chars_order_flip(b, a);
}

pub proof fn lemma_shortlex_transitive(a: Seq<char>, b: Seq<char>, c: Seq<char>)
    requires
        shortlex_lt(a, b),
        shortlex_lt(b, c),
    ensures
        shortlex_lt(a, c),
{
    if a.len() == b.len() && b.len() == c.len() {
        lemma_chars_order_transitive(a, b, c);
    }
}

/// Whether `a` comes before `b` in shortlex order.
fn shortlex_less(a: &str, b: &str) -> (r: bool)
    ensures
        r == shortlex_lt(a@, b@),
{
    let n = a.unicode_len();
    let m = b.unicode_len();
    if n != m {
        n < m
    } else {
        str_order(a, b) == KeyOrder::Less
    }
}

/// `out` lists the records of `tree` in shortlex order of their names, each
/// once, with the value stored there.
pub open spec fn lists_sorted<'b, T>(tree: PathPrefixTree<T>, out: Seq<(String, &'b T)>) -> bool {
    &&& forall|i: int|
        #![trigger out[i]]
        0 <= i < out.len() ==> tree.record_at(out[i].0@) is Some && *out[i].1 == tree.record_at(
            out[i].0@,
        ).unwrap().0
    &&& forall|s: Seq<char>|
        #[trigger] tree.record_at(s) is Some ==> exists|i: int| 0 <= i < out.len() && out[i].0@ == s
    &&& forall|i: int, j: int|
        #![trigger out[i], out[j]]
        0 <= i < j < out.len() ==> shortlex_lt(out[i].0@, out[j].0@)
}

/// `s` is strictly increasing by name in shortlex order.
pub open spec fn sorted_by_name<'b, T>(s: Seq<(String, &'b T)>) -> bool {
    forall|j: int, k: int| 0 <= j < k < s.len() ==> shortlex_lt(#[trigger] s[j].0@, #[trigger] s[k].0@)
}

/// Inserts `e` into `sorted` before the first entry whose name comes after
/// its own; returns where.
fn insert_sorted<'b, T>(sorted: &mut Vec<(String, &'b T)>, e: (String, &'b T)) -> (p: usize)
    requires
        sorted_by_name(old(sorted)@),
        forall|k: int| 0 <= k < old(sorted)@.len() ==> (#[trigger] old(sorted)@[k]).0@ != e.0@,
    ensures
        p <= old(sorted)@.len(),
        final(sorted)@ == old(sorted)@.insert(p as int, e),
        sorted_by_name(final(sorted)@),
{
    let mut j: usize = 0;
    while j < sorted.len() && shortlex_less(sorted[j].0.as_str(), e.0.as_str())
        invariant
            j <= sorted@.len(),
            forall|k: int| 0 <= k < j ==> shortlex_lt(#[trigger] sorted@[k].0@, e.0@),
        decreases sorted@.len() - j,
    {
        j = j + 1;
    }
    let ghost before = sorted@;
    proof {
        if j < before.len() {
            lemma_shortlex_total(before[j as int].0@, e.0@);
        }
    }
    sorted.insert(j, e);
    proof {
        assert forall|a: int, b: int| 0 <= a < b < sorted@.len() implies shortlex_lt(#[trigger] sorted@[a].0@, #[trigger] sorted@[b].0@) by {
            if b < j {
                assert(sorted@[a] == before[a] && sorted@[b] == before[b]);
            } else if b == j {
                assert(sorted@[a] == before[a]);
            } else if a == j {
                assert(sorted@[b] == before[b - 1]);
                if b - 1 > j {
                    assert(shortlex_lt(before[j as int].0@, before[b - 1].0@));
                    lemma_shortlex_transitive(e.0@, before[j as int].0@, before[b - 1].0@);
                }
            } else if a < j {
                assert(sorted@[a] == before[a] && sorted@[b] == before[b - 1]);
            } else {
                assert(sorted@[a] == before[a - 1] && sorted@[b] == before[b - 1]);
            }
        }
    }
    j
}

/// Every entry of `s` is among the first `n` entries of `items`, and each of
/// those is in `s`.
pub open spec fn holds_prefix_of<'b, T>(s: Seq<(String, &'b T)>, items: Seq<(String, &'b T)>, n: int) -> bool {
    &&& forall|j: int| 0 <= j < s.len() ==> exists|k: int| 0 <= k < n && #[trigger] s[j] == items[k]
    &&& forall|k: int| 0 <= k < n ==> exists|j: int| 0 <= j < s.len() && s[j] == #[trigger] items[k]
}

proof fn lemma_insert_holds<'b, T>(
    before: Seq<(String, &'b T)>,
    p: int,
    items: Seq<(String, &'b T)>,
    n: int,
)
    requires
        0 <= n < items.len(),
        0 <= p <= before.len(),
        holds_prefix_of(before, items, n),
    ensures
        holds_prefix_of(before.insert(p, items[n]), items, n + 1),
{
    let after = before.insert(p, items[n]);
    assert forall|j: int| 0 <= j < after.len() implies exists|k: int| 0 <= k < n + 1 && #[trigger] after[j] == items[k] by {
        if j < p {
            assert(after[j] == before[j]);
        } else if j == p {
            assert(after[j] == items[n]);
        } else {
            assert(after[j] == before[j - 1]);
        }
    }
    assert forall|k: int| 0 <= k < n + 1 implies exists|j: int| 0 <= j < after.len() && after[j] == #[trigger] items[k] by {
        if k == n {
            assert(after[p] == items[k]);
        } else {
            let j = choose|j: int| 0 <= j < before.len() && before[j] == #[trigger] items[k];
            if j < p {
                assert(after[j] == before[j]);
            } else {
                assert(after[j + 1] == before[j]);
            }
        }
    }
}

/// The entries of `items`, sorted by name in shortlex order. Names must be
/// distinct.
fn sort_by_name<'b, T>(items: &Vec<(String, &'b T)>) -> (r: Vec<(String, &'b T)>)
    requires
        forall|i: int, j: int| 0 <= i < j < items@.len() ==> items@[i].0@ != items@[j].0@,
    ensures
        holds_prefix_of(r@, items@, items@.len() as int),
        sorted_by_name(r@),
{
    let mut sorted: Vec<(String, &'b T)> = Vec::new();
    let mut i: usize = 0;
    while i < items.len()
        invariant
            i <= items@.len(),
            forall|i1: int, i2: int| 0 <= i1 < i2 < items@.len() ==> items@[i1].0@ != items@[i2].0@,
            holds_prefix_of(sorted@, items@, i as int),
            sorted_by_name(sorted@),
        decreases items@.len() - i,
    {
        let e = (items[i].0.clone(), items[i].1);
        let ghost before = sorted@;
        proof {
            assert(e == items@[i as int]);
            assert forall|k: int| 0 <= k < before.len() implies (#[trigger] before[k]).0@ != e.0@ by {
                let k2 = choose|k2: int| 0 <= k2 < i && #[trigger] before[k] == items@[k2];
                assert(items@[k2].0@ != items@[i as int].0@);
            }
        }
        let p = insert_sorted(&mut sorted, e);
        proof {
            lemma_insert_holds(before, p as int, items@, i as int);
        }
        i = i + 1;
    }
    sorted
}

/// Iterator over the records of a path prefix tree, in shortlex order of
/// their names.
pub struct PPTIter<'a, T> {
    rest: Vec<(String, &'a T)>,
}

impl<'a, T> PPTIter<'a, T> {
    /// The entries not yet returned, in order.
    pub closed spec fn remaining(&self) -> Seq<(String, &'a T)> {
        self.rest@.reverse()
    }

    /// Returns the next entry, if any.
    pub fn next(&mut self) -> (r: Option<(String, &'a T)>)
        ensures
            match r {
                Some(e) => old(self).remaining() == seq![e] + final(self).remaining(),
                None => old(self).remaining().len() == 0 && final(self).remaining().len() == 0,
            },
    {
        let ghost before = self.rest@;
        let r = self.rest.pop();
        proof {
            if r is Some {
                let e = r->0;
                assert(before =~= self.rest@.push(e));
                assert(before.reverse() =~= seq![e] + self.rest@.reverse());
            }
        }
        r
    }

    /// The entries not yet returned, in order.
    pub fn collect_entries(self) -> (r: Vec<(String, &'a T)>)
        ensures
            r@ == self.remaining(),
    {
        let mut it = self;
        let mut out: Vec<(String, &'a T)> = Vec::new();
        loop
            invariant
                out@ + it.remaining() == self.remaining(),
            ensures
                out@ == self.remaining(),
            decreases it.remaining().len(),
        {
            let ghost before = it.remaining();
            match it.next() {
                Some(e) => {
                    let ghost prev = out@;
                    out.push(e);
                    proof {
                        assert(prev + before =~= out@ + it.remaining());
                    }
                },
                None => {
                    proof {
                        assert(out@ + before =~= out@);
                    }
                    break;
                },
            }
        }
        out
    }
}

impl<T> PathPrefixTree<T> {
    /// Iterates over the records of the tree, in shortlex order of their
    /// names: shorter names first, names of one length by character.
    pub fn iter(&self) -> (r: PPTIter<'_, T>)
        ensures
            lists_sorted(*self, r.remaining()),
    {
        let mut all: Vec<(String, &T)> = Vec::new();
        let empty = String::new();
        let names = self.collect_into(&empty, &mut all);
        proof {
            assert forall|i: int, j: int| 0 <= i < j < all@.len() implies all@[i].0@ != all@[j].0@ by {
                assert(all@[i].0@ == Seq::<char>::empty() + names@[i]);
                assert(all@[j].0@ == Seq::<char>::empty() + names@[j]);
                assert(Seq::<char>::empty() + names@[i] =~= names@[i]);
                assert(Seq::<char>::empty() + names@[j] =~= names@[j]);
            }
        }
        let sorted = sort_by_name(&all);
        let mut rest: Vec<(String, &T)> = Vec::new();
        let mut k = sorted.len();
        while k > 0
            invariant
                k <= sorted@.len(),
                rest@.len() == sorted@.len() - k,
                forall|t: int| 0 <= t < rest@.len() ==> #[trigger] rest@[t] == sorted@[sorted@.len() - 1 - t],
            decreases k,
        {
            k = k - 1;
            rest.push((sorted[k].0.clone(), sorted[k].1));
        }
        let r = PPTIter { rest };
        proof {
            assert(r.remaining() =~= sorted@);
            assert forall|i: int| #![trigger sorted@[i]] 0 <= i < sorted@.len() implies self.record_at(sorted@[i].0@) is Some
                && *sorted@[i].1 == self.record_at(sorted@[i].0@).unwrap().0 by {
                let k = choose|k: int| 0 <= k < all@.len() && #[trigger] sorted@[i] == all@[k];
                assert(sorted@[i] == all@[k]);
                assert(all@[k].0@ == Seq::<char>::empty() + names@[k]);
                assert(Seq::<char>::empty() + names@[k] =~= names@[k]);
            }
            assert forall|s: Seq<char>| #[trigger] self.record_at(s) is Some implies exists|i: int|
                0 <= i < sorted@.len() && sorted@[i].0@ == s by {
                let k = choose|k: int| 0 <= k < names@.len() && names@[k] == s;
                assert(all@[k].0@ == Seq::<char>::empty() + names@[k]);
                assert(Seq::<char>::empty() + names@[k] =~= names@[k]);
                let j = choose|j: int| 0 <= j < sorted@.len() && sorted@[j] == #[trigger] all@[k];
            }
        }
        r
    }
}

/// Codes of characters are at most 0x10FFFF.
proof fn lemma_char_code_bound(c: char)
    ensures
        0 <= (c as int) <= 0x10FFFF,
{
}

/// Each name with `c` put in front.
pub open spec fn with_first(c: char, names: Seq<Seq<char>>) -> Seq<Seq<char>> {
    names.map_values(|t: Seq<char>| seq![c] + t)
}

/// Index of `c` in an array of children starting at `start`.
pub open spec fn slot_of(c: char, start: char) -> int {
    (c as int) - (start as int)
}

/// `out` from `base` on holds one entry per name of `names`, in order: the
/// name after `prefix`, and the value of the record `tree` holds there.
pub open spec fn entries_for<'b, T>(
    tree: PathPrefixTree<T>,
    prefix: Seq<char>,
    out: Seq<(String, &'b T)>,
    base: int,
    names: Seq<Seq<char>>,
) -> bool {
    &&& out.len() == base + names.len()
    &&& forall|i: int|
        #![trigger names[i]]
        0 <= i < names.len() ==> out[base + i].0@ == prefix + names[i] && tree.record_at(names[i]) is Some
            && *out[base + i].1 == tree.record_at(names[i]).unwrap().0
}

proof fn lemma_with_first_no_duplicates(c: char, names: Seq<Seq<char>>)
    requires
        names.no_duplicates(),
    ensures
        with_first(c, names).no_duplicates(),
        forall|i: int| #![trigger with_first(c, names)[i]] 0 <= i < names.len() ==> with_first(c, names)[i].len() > 0
            && with_first(c, names)[i][0] == c && with_first(c, names)[i].drop_first() == names[i],
{
    let m = with_first(c, names);
    assert forall|i: int| #![trigger m[i]] 0 <= i < names.len() implies m[i].len() > 0 && m[i][0] == c
        && m[i].drop_first() == names[i] by {
        assert((seq![c] + names[i]).drop_first() =~= names[i]);
    }
    assert forall|i: int, j: int| 0 <= i < j < m.len() implies m[i] != m[j] by {
        if m[i] == m[j] {
            assert(m[i].drop_first() == m[j].drop_first());
        }
    }
}

proof fn lemma_concat_no_duplicates(a: Seq<Seq<char>>, b: Seq<Seq<char>>)
    requires
        a.no_duplicates(),
        b.no_duplicates(),
        forall|i: int, j: int| 0 <= i < a.len() && 0 <= j < b.len() ==> a[i] != b[j],
    ensures
        (a + b).no_duplicates(),
{
    let ab = a + b;
    assert forall|i: int, j: int| 0 <= i < j < ab.len() implies ab[i] != ab[j] by {
        if j < a.len() {
        } else if i >= a.len() {
            assert(ab[i] == b[i - a.len()]);
            assert(ab[j] == b[j - a.len()]);
        } else {
            assert(ab[j] == b[j - a.len()]);
        }
    }
}

/// The records below the child for `c` are those of the node whose names
/// start with `c`.
proof fn lemma_child_records<T>(node: PathPrefixTree<T>, c: char, child: PathPrefixTree<T>)
    requires
        node.children.spec_child(c) == Some(Box::new(child)),
    ensures
        forall|s: Seq<char>| #[trigger] child.record_at(s) == node.record_at(seq![c] + s),
{
    assert forall|s: Seq<char>| #[trigger] child.record_at(s) == node.record_at(seq![c] + s) by {
        assert((seq![c] + s).drop_first() =~= s);
    }
}

impl<T> PathPrefixTree<T> {
    fn collect_into<'b>(&'b self, prefix: &String, out: &mut Vec<(String, &'b T)>) -> (names: Ghost<
        Seq<Seq<char>>,
    >)
        ensures
            final(out)@.subrange(0, old(out)@.len() as int) == old(out)@,
            entries_for(*self, prefix@, final(out)@, old(out)@.len() as int, names@),
            forall|s: Seq<char>| #[trigger] self.record_at(s) is Some ==> names@.contains(s),
            names@.no_duplicates(),
        decreases self, 1nat,
    {
        let ghost out0 = out@;
        let base = out.len();
        let ghost mut names: Seq<Seq<char>> = Seq::empty();
        match &self.record {
            Some((v, _)) => {
                out.push((prefix.clone(), v));
                proof {
                    names = seq![Seq::<char>::empty()];
                    assert(prefix@ + Seq::<char>::empty() =~= prefix@);
                    assert(self.record_at(Seq::<char>::empty()) == self.record);
                    assert(names[0] == Seq::<char>::empty());
                }
            },
            None => {},
        }
        proof {
            assert(out@.subrange(0, base as int) =~= out0);
            assert(entries_for(*self, prefix@, out@, base as int, names));
            assert forall|s: Seq<char>| #[trigger] self.record_at(s) is Some && s.len() == 0 implies names.contains(s) by {
                assert(s =~= Seq::<char>::empty());
                assert(names[0] == s);
            }
        }
        let ghost rec_names = names;
        let r = match &self.children {
            PPTSubtree::Empty => {
                proof {
                    assert forall|s: Seq<char>| #[trigger] self.record_at(s) is Some implies names.contains(s) by {
                        if s.len() > 0 {
                            assert(self.children.spec_child(s[0]) is None);
                        }
                    }
                }
                Ghost(names)
            },
            PPTSubtree::SingleChar(ch, sub) => {
                match sub {
                    Some(b) => {
                        let mut name = prefix.clone();
                        push_char(&mut name, *ch);
                        let ghost mid = out@;
                        let child_names = (**b).collect_into(&name, out);
                        proof {
                            lemma_child_records(*self, *ch, **b);
                            let m = with_first(*ch, child_names@);
                            lemma_with_first_no_duplicates(*ch, child_names@);
                            assert forall|i: int, j: int| 0 <= i < names.len() && 0 <= j < m.len() implies names[i] != m[j] by {
                                assert(names[i].len() == 0);
                            }
                            lemma_concat_no_duplicates(names, m);
                            let all = names + m;
                            assert(out@.subrange(0, base as int) =~= mid.subrange(0, base as int));
                            assert forall|i: int| #![trigger all[i]] 0 <= i < all.len() implies out@[base + i].0@ == prefix@ + all[i]
                                && self.record_at(all[i]) is Some && *out@[base + i].1 == self.record_at(all[i]).unwrap().0 by {
                                if i < names.len() {
                                    assert(out@.subrange(0, mid.len() as int)[base + i] == out@[base + i]);
                                    assert(out@[base + i] == mid[base + i]);
                                    assert(all[i] == names[i]);
                                } else {
                                    let k = i - names.len();
                                    assert(all[i] == m[k]);
                                    assert(m[k] == seq![*ch] + child_names@[k]);
                                    assert(out@[mid.len() + k].0@ == name@ + child_names@[k]);
                                    assert(name@ + child_names@[k] =~= prefix@ + (seq![*ch] + child_names@[k]));
                                }
                            }
                            assert forall|s: Seq<char>| #[trigger] self.record_at(s) is Some implies all.contains(s) by {
                                if s.len() == 0 {
                                    assert(names.contains(s));
                                    let i = choose|i: int| 0 <= i < names.len() && names[i] == s;
                                    assert(all[i] == s);
                                } else {
                                    assert(self.children.spec_child(s[0]) is Some);
                                    assert(s[0] == *ch);
                                    let t = s.drop_first();
                                    assert(s =~= seq![*ch] + t);
                                    assert((**b).record_at(t) == self.record_at(seq![*ch] + t));
                                    assert((**b).record_at(t) is Some);
                                    assert(child_names@.contains(t));
                                    let k = choose|k: int| 0 <= k < child_names@.len() && child_names@[k] == t;
                                    assert(all[names.len() + k] == m[k]);
                                }
                            }
                            names = all;
                        }
                        Ghost(names)
                    },
                    None => {
                        proof {
                            assert forall|s: Seq<char>| #[trigger] self.record_at(s) is Some implies names.contains(s) by {
                                if s.len() > 0 {
                                    assert(self.children.spec_child(s[0]) is None);
                                }
                            }
                        }
                        Ghost(names)
                    },
                }
            },
            PPTSubtree::CharArray { start_char, children } => {
                let extra = self.collect_array(prefix, out, base, *start_char, children, Ghost(names));
                Ghost(extra@)
            },
        };
        r
    }

    fn collect_array<'b>(
        &'b self,
        prefix: &String,
        out: &mut Vec<(String, &'b T)>,
        base: usize,
        start_char: char,
        children: &'b Vec<Option<Box<PathPrefixTree<T>>>>,
        rec_names: Ghost<Seq<Seq<char>>>,
    ) -> (names: Ghost<Seq<Seq<char>>>)
        requires
            self.children == (PPTSubtree::CharArray { start_char, children: *children }),
            entries_for(*self, prefix@, old(out)@, base as int, rec_names@),
            forall|i: int| 0 <= i < rec_names@.len() ==> (#[trigger] rec_names@[i]).len() == 0,
            rec_names@.no_duplicates(),
            forall|s: Seq<char>| #[trigger] self.record_at(s) is Some && s.len() == 0 ==> rec_names@.contains(s),
        ensures
            final(out)@.subrange(0, old(out)@.len() as int) == old(out)@,
            entries_for(*self, prefix@, final(out)@, base as int, names@),
            forall|s: Seq<char>| #[trigger] self.record_at(s) is Some ==> names@.contains(s),
            names@.no_duplicates(),
        decreases self, 0nat,
    {
        let ghost out1 = out@;
        let su = start_char as u32;
        let mut pos: usize = 0;
        let ghost mut names: Seq<Seq<char>> = rec_names@;
        proof {
            assert(out@.subrange(0, out1.len() as int) =~= out1);
        }
        while pos < children.len()
            invariant
                self.children == (PPTSubtree::CharArray { start_char, children: *children }),
                su == start_char as u32,
                pos <= children@.len(),
                out@.subrange(0, out1.len() as int) == out1,
                out1.len() <= out@.len(),
                entries_for(*self, prefix@, out@, base as int, names),
                names.no_duplicates(),
                forall|i: int| 0 <= i < names.len() ==> (#[trigger] names[i]).len() == 0 || 0 <= slot_of(names[i][0], start_char) < pos,
                forall|s: Seq<char>| #[trigger] self.record_at(s) is Some && (s.len() == 0 || slot_of(s[0], start_char) < pos) ==> names.contains(s),
            decreases children@.len() - pos,
        {
            let ghost out_before = out@;
            let ghost pos0 = pos as int;
            let ghost names0 = names;
            match &children[pos] {
                Some(b) => {
                    if (pos as u64) <= (u32::MAX - su) as u64 {
                        match char_from_u32(su + pos as u32) {
                            Some(c) => {
                                let mut name = prefix.clone();
                                push_char(&mut name, c);
                                proof {
                                    vstd::std_specs::vec::axiom_vec_index_decreases(*children, pos as int);
                                    assert(decreases_to!(*children => children[pos as int]));
                                    assert(decreases_to!(children[pos as int] => **b));
                                    assert(decreases_to!(self.children => *children));
                                    assert(decreases_to!(*self => self.children));
                                    assert(decreases_to!(*self => **b));
                                    assert(slot_of(c, start_char) == pos);
                                    assert(self.children.spec_child(c) == Some(*b));
                                }
                                let child_names = (**b).collect_into(&name, out);
                                proof {
                                    self.lemma_array_step(prefix@, name@, c, **b, start_char, base as int, pos0,
                                        out_before, out@, names0, child_names@);
                                    names = names0 + with_first(c, child_names@);
                                    assert(out@.subrange(0, out1.len() as int) =~= out_before.subrange(0, out1.len() as int));
                                }
                            },
                            None => {
                                proof {
                                    assert forall|s: Seq<char>| #[trigger] self.record_at(s) is Some && (s.len() == 0 || slot_of(s[0], start_char) < pos0 + 1)
                                        implies names.contains(s) by {
                                        if s.len() > 0 && slot_of(s[0], start_char) == pos0 {
                                            assert(code_of(s[0]) == s[0] as int);
                                        }
                                    }
                                }
                            },
                        }
                    } else {
                        proof {
                            assert forall|s: Seq<char>| #[trigger] self.record_at(s) is Some && (s.len() == 0 || slot_of(s[0], start_char) < pos0 + 1)
                                implies names.contains(s) by {
                                if s.len() > 0 && slot_of(s[0], start_char) == pos0 {
                                    lemma_char_code_bound(s[0]);
                                }
                            }
                        }
                    }
                },
                None => {
                    proof {
                        assert forall|s: Seq<char>| #[trigger] self.record_at(s) is Some && (s.len() == 0 || slot_of(s[0], start_char) < pos0 + 1)
                            implies names.contains(s) by {
                            if s.len() > 0 && slot_of(s[0], start_char) == pos0 {
                                assert(self.children.spec_child(s[0]) is None);
                            }
                        }
                    }
                },
            }
            pos = pos + 1;
        }
        proof {
            assert forall|s: Seq<char>| #[trigger] self.record_at(s) is Some implies names.contains(s) by {
                if s.len() > 0 {
                    assert(self.children.spec_child(s[0]) is Some);
                }
            }
        }
        Ghost(names)
    }

    proof fn lemma_array_step<'b>(
        self,
        prefix: Seq<char>,
        name: Seq<char>,
        c: char,
        child: PathPrefixTree<T>,
        start_char: char,
        base: int,
        pos: int,
        out_a: Seq<(String, &'b T)>,
        out_b: Seq<(String, &'b T)>,
        names: Seq<Seq<char>>,
        child_names: Seq<Seq<char>>,
    )
        requires
            0 <= base,
            0 <= pos,
            name == prefix.push(c),
            slot_of(c, start_char) == pos,
            self.children.spec_child(c) == Some(Box::new(child)),
            entries_for(self, prefix, out_a, base, names),
            names.no_duplicates(),
            forall|i: int| 0 <= i < names.len() ==> (#[trigger] names[i]).len() == 0 || 0 <= slot_of(names[i][0], start_char) < pos,
            forall|s: Seq<char>| #[trigger] self.record_at(s) is Some && (s.len() == 0 || slot_of(s[0], start_char) < pos) ==> names.contains(s),
            out_b.subrange(0, out_a.len() as int) == out_a,
            entries_for(child, name, out_b, out_a.len() as int, child_names),
            forall|s: Seq<char>| #[trigger] child.record_at(s) is Some ==> child_names.contains(s),
            child_names.no_duplicates(),
        ensures
            ({
                let all = names + with_first(c, child_names);
                &&& entries_for(self, prefix, out_b, base, all)
                &&& all.no_duplicates()
                &&& forall|i: int| 0 <= i < all.len() ==> (#[trigger] all[i]).len() == 0 || 0 <= slot_of(all[i][0], start_char) < pos + 1
                &&& forall|s: Seq<char>| #[trigger] self.record_at(s) is Some && (s.len() == 0 || slot_of(s[0], start_char) < pos + 1) ==> all.contains(s)
            }),
    {
        lemma_child_records(self, c, child);
        let m = with_first(c, child_names);
        lemma_with_first_no_duplicates(c, child_names);
        assert forall|i: int, j: int| 0 <= i < names.len() && 0 <= j < m.len() implies names[i] != m[j] by {
            assert(m[j].len() > 0 && m[j][0] == c);
            if names[i].len() > 0 {
                assert(slot_of(names[i][0], start_char) < pos);
            }
        }
        lemma_concat_no_duplicates(names, m);
        let all = names + m;
        assert forall|i: int| #![trigger all[i]] 0 <= i < all.len() implies out_b[base + i].0@ == prefix + all[i]
            && self.record_at(all[i]) is Some && *out_b[base + i].1 == self.record_at(all[i]).unwrap().0 by {
            if i < names.len() {
                assert(out_b.subrange(0, out_a.len() as int)[base + i] == out_b[base + i]);
                assert(out_b[base + i] == out_a[base + i]);
                assert(all[i] == names[i]);
            } else {
                let k = i - names.len();
                assert(all[i] == m[k]);
                assert(m[k] == seq![c] + child_names[k]);
                assert(out_b[out_a.len() + k].0@ == name + child_names[k]);
                assert(name + child_names[k] =~= prefix + (seq![c] + child_names[k]));
            }
        }
        assert forall|i: int| 0 <= i < all.len() implies (#[trigger] all[i]).len() == 0 || 0 <= slot_of(all[i][0], start_char) < pos + 1 by {
            if i >= names.len() {
                let k = i - names.len();
                assert(0 <= k < m.len());
                assert(all[i] == m[k]);
                assert(m[k].len() > 0 && m[k][0] == c);
            } else {
                assert(all[i] == names[i]);
            }
        }
        assert forall|s: Seq<char>| #[trigger] self.record_at(s) is Some && (s.len() == 0 || slot_of(s[0], start_char) < pos + 1)
            implies all.contains(s) by {
            if s.len() == 0 || slot_of(s[0], start_char) < pos {
                let i = choose|i: int| 0 <= i < names.len() && names[i] == s;
                assert(all[i] == s);
            } else {
                assert(s[0] == c);
                let t = s.drop_first();
                assert(s =~= seq![c] + t);
                assert(child.record_at(t) is Some);
                let k = choose|k: int| 0 <= k < child_names.len() && child_names[k] == t;
                assert(all[names.len() + k] == m[k]);
            }
        }
    }
}

/// Iterator over the child slots of a node: the character of each slot and
/// the child it holds, if any.
#[derive(Clone, Copy)]
pub enum PPTSubtreeIter<'a, T> {
    Empty,
    SingleChar(char, Option<&'a PathPrefixTree<T>>),
    CharArray { start_char: char, children: &'a [Option<Box<PathPrefixTree<T>>>], pos: usize },
}

/// A child slot as a reference.
pub open spec fn slot_ref<'a, T>(slot: &'a Option<Box<PathPrefixTree<T>>>) -> Option<&'a PathPrefixTree<T>> {
    match slot {
        Some(b) => Some(&**b),
        None => None,
    }
}

impl<T> PPTSubtree<T> {
    /// Iterates over the child slots, in order of character.
    pub fn iter(&self) -> (r: PPTSubtreeIter<'_, T>)
        ensures
            match *self {
                PPTSubtree::Empty => r is Empty,
                PPTSubtree::SingleChar(c, sub) => r == PPTSubtreeIter::SingleChar(c, match sub {
                    Some(b) => Some(&*b),
                    None => None::<&PathPrefixTree<T>>,
                }),
                PPTSubtree::CharArray { start_char, children } => r matches PPTSubtreeIter::CharArray {
                    start_char: sc,
                    children: ch,
                    pos,
                } && sc == start_char && ch@ == children@ && pos == 0,
            },
    {
        match self {
            PPTSubtree::Empty => PPTSubtreeIter::Empty,
            PPTSubtree::SingleChar(c, sub) => PPTSubtreeIter::SingleChar(
                *c,
                match sub {
                    Some(b) => Some(&**b),
                    None => None,
                },
            ),
            PPTSubtree::CharArray { start_char, children } => PPTSubtreeIter::CharArray {
                start_char: *start_char,
                children: children.as_slice(),
                pos: 0,
            },
        }
    }
}

impl<'a, T> PPTSubtreeIter<'a, T> {
    /// One step of the iterator from `before` to `after`, returning `r`: the
    /// single child once; or the next array slot whose position is the code
    /// of a character, with that character, skipping slots no character
    /// has; or nothing at the end.
    pub open spec fn steps_to(
        before: Self,
        after: Self,
        r: Option<(char, Option<&'a PathPrefixTree<T>>)>,
    ) -> bool {
        match before {
            PPTSubtreeIter::Empty => r is None && after is Empty,
            PPTSubtreeIter::SingleChar(c, sub) => r == Some((c, sub)) && after is Empty,
            PPTSubtreeIter::CharArray { start_char, children, pos } => match r {
                Some((c, sub)) => after matches PPTSubtreeIter::CharArray {
                    start_char: sc,
                    children: ch,
                    pos: p,
                } && sc == start_char && ch == children && pos < p <= children@.len() && slot_of(
                    c,
                    start_char,
                ) == p - 1 && sub == slot_ref(&children@[p - 1]) && forall|d: char|
                    !(pos <= #[trigger] slot_of(d, start_char) < p - 1),
                None => after is Empty && forall|d: char|
                    !(pos <= #[trigger] slot_of(d, start_char) < children@.len()),
            },
        }
    }

    /// Returns the next slot: the single child once, or the next array slot
    /// whose position is the code of a character, with that character.
    pub fn next(&mut self) -> (r: Option<(char, Option<&'a PathPrefixTree<T>>)>)
        ensures
            Self::steps_to(*old(self), *final(self), r),
    {
        match *self {
            PPTSubtreeIter::Empty => None,
            PPTSubtreeIter::SingleChar(c, sub) => {
                *self = PPTSubtreeIter::Empty;
                Some((c, sub))
            },
            PPTSubtreeIter::CharArray { start_char, children, pos } => {
                let sc = start_char;
                let ch = children;
                let su = sc as u32;
                let mut p = pos;
                let ghost p0 = p;
                while p < ch.len()
                    invariant
                        *old(self) == (PPTSubtreeIter::CharArray { start_char: sc, children: ch, pos: p0 }),
                        *self == *old(self),
                        su == sc as u32,
                        p0 <= p,
                        p <= ch@.len() || p == p0,
                        forall|d: char| !(p0 <= #[trigger] slot_of(d, sc) < p),
                    decreases ch@.len() - p,
                {
                    if (p as u64) <= (u32::MAX - su) as u64 {
                        match char_from_u32(su + p as u32) {
                            Some(c) => {
                                let sub = match &ch[p] {
                                    Some(b) => Some(&**b),
                                    None => None,
                                };
                                proof {
                                    lemma_char_code_bound(sc);
                                    assert(slot_of(c, sc) == p);
                                    assert(sub == slot_ref(&ch@[p as int]));
                                }
                                *self = PPTSubtreeIter::CharArray { start_char: sc, children: ch, pos: p + 1 };
                                return Some((c, sub));
                            },
                            None => {
                                proof {
                                    assert forall|d: char| #[trigger] slot_of(d, sc) != p by {
                                        assert(code_of(d) == d as int);
                                    }
                                }
                            },
                        }
                    } else {
                        proof {
                            assert forall|d: char| #[trigger] slot_of(d, sc) != p by {
                                lemma_char_code_bound(d);
                            }
                        }
                    }
                    p = p + 1;
                }
                *self = PPTSubtreeIter::Empty;
                None
            },
        }
    }
}

} // verus!
