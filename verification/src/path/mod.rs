//! Paths inside an image: sequences of `/`-separated components.
//!
//! A path is modelled by its components, `Seq<Seq<char>>`. A string path
//! has as components the non-empty runs of characters between slashes.
use vstd::prelude::*;

pub mod borrow;
pub mod compare;
pub mod host;
pub mod pathref;
pub mod pathtrie;
pub mod trie_iter;
pub mod pathvec;

verus! {

/// Index of the first `/` at or after `i`, or the length of `s` when there
/// is none.
pub open spec fn next_sep(s: Seq<char>, i: int) -> int
    decreases s.len() - i,
{
    if i >= s.len() {
        s.len() as int
    } else if s[i] == '/' {
        i
    } else {
        next_sep(s, i + 1)
    }
}

pub proof fn lemma_next_sep_bounds(s: Seq<char>, i: int)
    ensures
        i <= s.len() ==> i <= next_sep(s, i) <= s.len(),
        i > s.len() ==> next_sep(s, i) == s.len(),
        forall|k: int| i <= k < next_sep(s, i) ==> s[k] != '/',
        i <= next_sep(s, i) < s.len() ==> s[next_sep(s, i)] == '/',
    decreases s.len() - i,
{
    if i < s.len() && s[i] != '/' {
        lemma_next_sep_bounds(s, i + 1);
    }
}

/// The non-empty `/`-separated components of `s` that start at or after `i`.
pub open spec fn components_from(s: Seq<char>, i: int) -> Seq<Seq<char>>
    decreases s.len() - i,
{
    if i >= s.len() {
        Seq::empty()
    } else if s[i] == '/' {
        components_from(s, i + 1)
    } else {
        let j = next_sep(s, i);
        proof {
            lemma_next_sep_bounds(s, i + 1);
        }
        seq![s.subrange(i, j)] + components_from(s, j)
    }
}

/// The components of a string path: its non-empty runs between slashes.
pub open spec fn components(s: Seq<char>) -> Seq<Seq<char>> {
    components_from(s, 0)
}

/// A component as a plain string can hold: non-empty and free of slashes.
pub open spec fn is_component(c: Seq<char>) -> bool {
    c.len() > 0 && forall|k: int| 0 <= k < c.len() ==> c[k] != '/'
}

/// Components joined by single slashes.
pub open spec fn join_slash(cs: Seq<Seq<char>>) -> Seq<char>
    decreases cs.len(),
{
    if cs.len() == 0 {
        Seq::empty()
    } else if cs.len() == 1 {
        cs[0]
    } else {
        join_slash(cs.drop_last()) + seq!['/'] + cs.last()
    }
}

/// The non-empty strings of `items`, in order.
pub open spec fn non_empty(items: Seq<Seq<char>>) -> Seq<Seq<char>> {
    items.filter(|c: Seq<char>| c.len() > 0)
}

proof fn lemma_components_from_all_sep(s: Seq<char>, i: int)
    requires
        0 <= i,
        forall|k: int| i <= k < s.len() ==> s[k] == '/',
    ensures
        components_from(s, i) == Seq::<Seq<char>>::empty(),
    decreases s.len() - i,
{
    if i < s.len() {
        lemma_components_from_all_sep(s, i + 1);
    }
}

/// Components do not look at what lies before their start index.
proof fn lemma_next_sep_shift(p: Seq<char>, q: Seq<char>, k: int)
    requires
        0 <= k,
    ensures
        next_sep(p + q, p.len() + k) == p.len() + next_sep(q, k),
    decreases q.len() - k,
{
    if k < q.len() && q[k] != '/' {
        lemma_next_sep_shift(p, q, k + 1);
    }
}

proof fn lemma_components_shift(p: Seq<char>, q: Seq<char>, k: int)
    requires
        0 <= k,
    ensures
        components_from(p + q, p.len() + k) == components_from(q, k),
    decreases q.len() - k,
{
    let x = p + q;
    if k < q.len() {
        if q[k] == '/' {
            lemma_components_shift(p, q, k + 1);
        } else {
            lemma_next_sep_shift(p, q, k);
            lemma_next_sep_bounds(q, k);
            let j = next_sep(q, k);
            lemma_components_shift(p, q, j);
            assert(x.subrange(p.len() + k, p.len() + j) =~= q.subrange(k, j));
        }
    }
}

/// A slash ends the components of what precedes it.
proof fn lemma_next_sep_prefix(a: Seq<char>, b: Seq<char>, i: int)
    requires
        0 <= i <= a.len(),
    ensures
        next_sep(a + seq!['/'] + b, i) == next_sep(a, i),
    decreases a.len() - i,
{
    let x = a + seq!['/'] + b;
    if i < a.len() && a[i] != '/' {
        lemma_next_sep_prefix(a, b, i + 1);
    }
}

proof fn lemma_components_concat_from(a: Seq<char>, b: Seq<char>, i: int)
    requires
        0 <= i <= a.len(),
    ensures
        components_from(a + seq!['/'] + b, i) == components_from(a, i) + components(b),
    decreases a.len() - i,
{
    let x = a + seq!['/'] + b;
    if i == a.len() {
        assert(x[i] == '/');
        lemma_components_shift(a + seq!['/'], b, 0);
        assert((a + seq!['/']) + b =~= x);
        assert(components_from(a, i) =~= Seq::<Seq<char>>::empty());
    } else if a[i] == '/' {
        assert(x[i] == '/');
        lemma_components_concat_from(a, b, i + 1);
    } else {
        assert(x[i] == a[i]);
        lemma_next_sep_prefix(a, b, i);
        lemma_next_sep_bounds(a, i);
        let j = next_sep(a, i);
        lemma_components_concat_from(a, b, j);
        assert(x.subrange(i, j) =~= a.subrange(i, j));
        assert(seq![a.subrange(i, j)] + (components_from(a, j) + components(b)) =~= (seq![
            a.subrange(i, j),
        ] + components_from(a, j)) + components(b));
    }
}

/// Joining two string paths with a slash concatenates their components.
pub proof fn lemma_components_concat(a: Seq<char>, b: Seq<char>)
    ensures
        components(a + seq!['/'] + b) == components(a) + components(b),
{
    lemma_components_concat_from(a, b, 0);
}

/// A leading slash does not change the components.
pub proof fn lemma_components_leading_slash(b: Seq<char>)
    ensures
        components(seq!['/'] + b) == components(b),
{
    lemma_components_concat(Seq::empty(), b);
    assert(Seq::<char>::empty() + seq!['/'] + b =~= seq!['/'] + b);
    assert(components(Seq::<char>::empty()) =~= Seq::<Seq<char>>::empty());
    assert(Seq::<Seq<char>>::empty() + components(b) =~= components(b));
}

/// A slash-free, non-empty string is a single component.
pub proof fn lemma_components_single(c: Seq<char>)
    requires
        is_component(c),
    ensures
        components(c) == seq![c],
{
    lemma_next_sep_bounds(c, 0);
    if next_sep(c, 0) < c.len() {
        assert(c[next_sep(c, 0)] != '/');
    }
    assert(next_sep(c, 0) == c.len());
    assert(c.subrange(0, c.len() as int) =~= c);
    assert(components_from(c, c.len() as int) =~= Seq::<Seq<char>>::empty());
    assert(seq![c] + Seq::<Seq<char>>::empty() =~= seq![c]);
}

/// Joining components by slashes and splitting again gives them back.
pub proof fn lemma_components_of_join(cs: Seq<Seq<char>>)
    requires
        forall|i: int| 0 <= i < cs.len() ==> is_component(#[trigger] cs[i]),
    ensures
        components(join_slash(cs)) == cs,
    decreases cs.len(),
{
    if cs.len() == 0 {
        assert(components(Seq::<char>::empty()) =~= Seq::<Seq<char>>::empty());
    } else if cs.len() == 1 {
        assert(is_component(cs[0]));
        lemma_components_single(cs[0]);
        assert(seq![cs[0]] =~= cs);
    } else {
        let init = cs.drop_last();
        assert forall|i: int| 0 <= i < init.len() implies is_component(#[trigger] init[i]) by {
            assert(init[i] == cs[i]);
        }
        lemma_components_of_join(init);
        assert(is_component(cs[cs.len() - 1]));
        lemma_components_single(cs.last());
        lemma_components_concat(join_slash(init), cs.last());
        assert(init + seq![cs.last()] =~= cs);
    }
}

/// Whether two strings hold the same characters.
pub fn str_eq(a: &str, b: &str) -> (r: bool)
    ensures
        r == (a@ == b@),
{
    let n = a.unicode_len();
    let m = b.unicode_len();
    if n != m {
        return false;
    }
    let mut i: usize = 0;
    while i < n
        invariant
            n == a@.len(),
            m == b@.len(),
            n == m,
            i <= n,
            forall|k: int| 0 <= k < i ==> a@[k] == b@[k],
        decreases n - i,
    {
        if a.get_char(i) != b.get_char(i) {
            return false;
        }
        i = i + 1;
    }
    assert(a@ =~= b@);
    true
}

} // verus!
