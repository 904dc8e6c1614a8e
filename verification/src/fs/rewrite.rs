//! Text operations of path rewriting rules: trimming, substitution of
//! `{n}` fields, and the parsing of the fields a rewrite refers to.
use vstd::prelude::*;

use crate::path::trie_iter::push_char;

verus! {

/// `s` without the copies of `c` it starts with.
pub open spec fn drop_leading(s: Seq<char>, c: char) -> Seq<char>
    decreases s.len(),
{
    if s.len() > 0 && s[0] == c {
        drop_leading(s.drop_first(), c)
    } else {
        s
    }
}

/// `s` without the copies of `c` it ends with.
pub open spec fn drop_trailing(s: Seq<char>, c: char) -> Seq<char>
    decreases s.len(),
{
    if s.len() > 0 && s.last() == c {
        drop_trailing(s.drop_last(), c)
    } else {
        s
    }
}

/// `s` with every occurrence of `pat`, found from left to right without
/// overlap, replaced by `rep`.
pub open spec fn replace_all(s: Seq<char>, pat: Seq<char>, rep: Seq<char>) -> Seq<char>
    recommends
        pat.len() > 0,
    decreases s.len(),
{
    if pat.len() == 0 || s.len() < pat.len() {
        s
    } else if s.take(pat.len() as int) == pat {
        rep + replace_all(s.skip(pat.len() as int), pat, rep)
    } else {
        seq![s[0]] + replace_all(s.drop_first(), pat, rep)
    }
}

/// The decimal digits of `n`.
pub open spec fn decimal(n: nat) -> Seq<char>
    decreases n,
{
    if n < 10 {
        seq![digit_char(n)]
    } else {
        decimal(n / 10).push(digit_char(n % 10))
    }
}

/// The character of the digit `d`.
pub open spec fn digit_char(d: nat) -> char {
    if d == 0 {
        '0'
    } else if d == 1 {
        '1'
    } else if d == 2 {
        '2'
    } else if d == 3 {
        '3'
    } else if d == 4 {
        '4'
    } else if d == 5 {
        '5'
    } else if d == 6 {
        '6'
    } else if d == 7 {
        '7'
    } else if d == 8 {
        '8'
    } else {
        '9'
    }
}

/// The value of a decimal digit character.
pub open spec fn digit_value(c: char) -> Option<nat> {
    if '0' <= c && c <= '9' {
        Some((c as int - '0' as int) as nat)
    } else {
        None
    }
}

/// `s` with the copies of `c` it starts with removed.
pub fn trim_start_char(s: &str, c: char) -> (r: &str)
    ensures
        r@ == drop_leading(s@, c),
{
    let n = s.unicode_len();
    let mut i: usize = 0;
    proof {
        assert(s@.skip(0) =~= s@);
    }
    while i < n && s.get_char(i) == c
        invariant
            i <= n,
            n == s@.len(),
            drop_leading(s@.skip(i as int), c) == drop_leading(s@, c),
        decreases n - i,
    {
        proof {
            assert(s@.skip(i as int).drop_first() =~= s@.skip(i + 1));
        }
        i = i + 1;
    }
    let r = s.substring_char(i, n);
    proof {
        assert(r@ =~= s@.skip(i as int));
    }
    r
}

/// `s` with the copies of `c` it ends with removed.
pub fn trim_end_char(s: &str, c: char) -> (r: &str)
    ensures
        r@ == drop_trailing(s@, c),
{
    let n = s.unicode_len();
    let mut k: usize = n;
    proof {
        assert(s@.take(n as int) =~= s@);
    }
    while k > 0 && s.get_char(k - 1) == c
        invariant
            k <= n,
            n == s@.len(),
            drop_trailing(s@.take(k as int), c) == drop_trailing(s@, c),
        decreases k,
    {
        proof {
            assert(s@.take(k as int).drop_last() =~= s@.take(k - 1));
        }
        k = k - 1;
    }
    let r = s.substring_char(0, k);
    proof {
        assert(r@ =~= s@.take(k as int));
    }
    r
}

/// Whether the character sequence `pat` occurs in `s` at position `at`.
fn occurs_at(s: &str, n: usize, pat: &str, m: usize, at: usize) -> (r: bool)
    requires
        n == s@.len(),
        m == pat@.len(),
        at + m <= n,
    ensures
        r == (s@.subrange(at as int, at + m) == pat@),
{
    let mut j: usize = 0;
    while j < m
        invariant
            j <= m,
            n == s@.len(),
            m == pat@.len(),
            at + m <= n,
            forall|t: int| 0 <= t < j ==> s@[at + t] == pat@[t],
        decreases m - j,
    {
        if s.get_char(at + j) != pat.get_char(j) {
            proof {
                assert(s@.subrange(at as int, at + m)[j as int] != pat@[j as int]);
            }
            return false;
        }
        j = j + 1;
    }
    proof {
        assert(s@.subrange(at as int, at + m) =~= pat@);
    }
    true
}

/// `s` with every occurrence of the non-empty `pat`, from left to right and
/// without overlap, replaced by `rep`.
pub fn replace_str(s: &str, pat: &str, rep: &str) -> (r: String)
    requires
        pat@.len() > 0,
    ensures
        r@ == replace_all(s@, pat@, rep@),
{
    let n = s.unicode_len();
    let m = pat.unicode_len();
    let mut out = String::new();
    let mut i: usize = 0;
    proof {
        assert(s@.skip(0) =~= s@);
    }
    while i < n
        invariant
            i <= n,
            n == s@.len(),
            m == pat@.len(),
            m > 0,
            out@ + replace_all(s@.skip(i as int), pat@, rep@) == replace_all(s@, pat@, rep@),
        decreases n - i,
    {
        let ghost rest = s@.skip(i as int);
        if m <= n - i && occurs_at(s, n, pat, m, i) {
            proof {
                assert(rest.take(m as int) =~= s@.subrange(i as int, i + m));
                assert(rest.skip(m as int) =~= s@.skip(i + m));
            }
            let ghost before = out@;
            out.append(rep);
            proof {
                assert(before + replace_all(rest, pat@, rep@) == before + (rep@ + replace_all(s@.skip(i + m), pat@, rep@)));
                assert(before + (rep@ + replace_all(s@.skip(i + m), pat@, rep@)) =~= out@ + replace_all(
                    s@.skip(i + m),
                    pat@,
                    rep@,
                ));
            }
            i = i + m;
        } else {
            let c = s.get_char(i);
            proof {
                if i + m <= n {
                    assert(rest.take(m as int) =~= s@.subrange(i as int, i + m));
                }
                assert(rest.drop_first() =~= s@.skip(i + 1));
                assert(rest[0] == c);
            }
            let ghost before = out@;
            push_char(&mut out, c);
            proof {
                assert(before + replace_all(rest, pat@, rep@) == before + (seq![c] + replace_all(s@.skip(i + 1), pat@, rep@)));
                assert(before + (seq![c] + replace_all(s@.skip(i + 1), pat@, rep@)) =~= out@ + replace_all(
                    s@.skip(i + 1),
                    pat@,
                    rep@,
                ));
            }
            i = i + 1;
        }
    }
    proof {
        assert(s@.skip(n as int) =~= Seq::<char>::empty());
        assert(out@ + Seq::<char>::empty() =~= out@);
    }
    out
}

/// The character of the digit `d`.
fn digit(d: usize) -> (c: char)
    requires
        d < 10,
    ensures
        c == digit_char(d as nat),
{
    if d == 0 {
        '0'
    } else if d == 1 {
        '1'
    } else if d == 2 {
        '2'
    } else if d == 3 {
        '3'
    } else if d == 4 {
        '4'
    } else if d == 5 {
        '5'
    } else if d == 6 {
        '6'
    } else if d == 7 {
        '7'
    } else if d == 8 {
        '8'
    } else {
        '9'
    }
}

/// Appends the decimal digits of `n` to `out`.
fn push_decimal(out: &mut String, n: usize)
    ensures
        final(out)@ == old(out)@ + decimal(n as nat),
    decreases n,
{
    if n < 10 {
        push_char(out, digit(n));
        assert(final(out)@ =~= old(out)@ + decimal(n as nat));
    } else {
        push_decimal(out, n / 10);
        push_char(out, digit(n % 10));
        assert(final(out)@ =~= old(out)@ + decimal(n as nat));
    }
}

/// The field `{n}` of a rewrite.
pub open spec fn field(n: nat) -> Seq<char> {
    seq!['{'] + decimal(n) + seq!['}']
}

/// The text of the field `{n}`.
pub fn field_text(n: usize) -> (r: String)
    ensures
        r@ == field(n as nat),
{
    let mut out = String::new();
    push_char(&mut out, '{');
    push_decimal(&mut out, n);
    push_char(&mut out, '}');
    assert(out@ =~= field(n as nat));
    out
}

} // verus!
