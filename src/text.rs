//! Sequences of symbols: conversion from strings and lexicographic order.

use vstd::prelude::*;
use vstd::std_specs::iter::IteratorSpec;
use std::cmp::Ordering;

verus! {

broadcast use vstd::string::group_string_axioms;

/// The characters of `s`, in order.
pub fn chars_of(s: &str) -> (v: Vec<char>)
    ensures
        v@ == s@,
{
    let mut it = s.chars();
    let mut v: Vec<char> = Vec::new();
    loop
        invariant
            IteratorSpec::decrease(&it) is Some,
            it.obeys_prophetic_iter_laws(),
            v@ + IteratorSpec::remaining(&it) == s@,
        decreases IteratorSpec::decrease(&it)->0,
    {
        match it.next() {
            Some(c) => {
                v.push(c);
            },
            None => {
                assert(v@ =~= v@ + IteratorSpec::remaining(&it));
                return v;
            },
        }
    }
}

/// `a` sorts strictly before `b` in lexicographic order of code points; a
/// proper prefix sorts before the longer sequence.
pub open spec fn lex_lt(a: Seq<char>, b: Seq<char>) -> bool
    decreases a.len(),
{
    if a.len() == 0 {
        b.len() > 0
    } else if b.len() == 0 {
        false
    } else if a[0] != b[0] {
        a[0] < b[0]
    } else {
        lex_lt(a.drop_first(), b.drop_first())
    }
}

/// The three-way lexicographic comparison of `a` with `b`.
pub open spec fn lex_cmp(a: Seq<char>, b: Seq<char>) -> Ordering {
    if lex_lt(a, b) {
        Ordering::Less
    } else if lex_lt(b, a) {
        Ordering::Greater
    } else {
        Ordering::Equal
    }
}

/// At most one of two sequences sorts before the other.
pub proof fn lemma_lex_asymmetric(a: Seq<char>, b: Seq<char>)
    ensures
        !(lex_lt(a, b) && lex_lt(b, a)),
    decreases a.len(),
{
    if a.len() > 0 && b.len() > 0 && a[0] == b[0] {
        lemma_lex_asymmetric(a.drop_first(), b.drop_first());
    }
}

/// Two different sequences are ordered one way or the other.
pub proof fn lemma_lex_total(a: Seq<char>, b: Seq<char>)
    requires
        a != b,
    ensures
        lex_lt(a, b) || lex_lt(b, a),
    decreases a.len(),
{
    if a.len() == 0 {
        assert(b.len() > 0) by {
            if b.len() == 0 {
                assert(a =~= b);
            }
        }
    } else if b.len() > 0 && a[0] == b[0] {
        if a.drop_first() == b.drop_first() {
            assert(a =~= b.drop_first().insert(0, b[0]));
            assert(b =~= b.drop_first().insert(0, b[0]));
        }
        lemma_lex_total(a.drop_first(), b.drop_first());
    } else if b.len() > 0 {
        assert(a[0] != b[0]);
    }
}

/// The order is transitive.
pub proof fn lemma_lex_transitive(a: Seq<char>, b: Seq<char>, c: Seq<char>)
    requires
        lex_lt(a, b),
        lex_lt(b, c),
    ensures
        lex_lt(a, c),
    decreases a.len(),
{
    if a.len() > 0 && b.len() > 0 && c.len() > 0 && a[0] == b[0] && b[0] == c[0] {
        lemma_lex_transitive(a.drop_first(), b.drop_first(), c.drop_first());
    }
}

/// A sequence that sorts between two sequences with a common prefix starts
/// with that prefix too.
pub proof fn lemma_lex_between(a: Seq<char>, b: Seq<char>, c: Seq<char>, m: int)
    requires
        lex_lt(a, b),
        lex_lt(b, c),
        0 <= m <= a.len(),
        m <= c.len(),
        forall|t: int| 0 <= t < m ==> a[t] == c[t],
    ensures
        m <= b.len(),
        forall|t: int| 0 <= t < m ==> b[t] == a[t],
    decreases m,
{
    if m > 0 {
        assert(a[0] == c[0]);
        if b.len() == 0 {
            assert(lex_lt(b, a));
            lemma_lex_asymmetric(a, b);
        } else if b[0] != a[0] {
            if b[0] < a[0] {
                assert(lex_lt(b, a));
                lemma_lex_asymmetric(a, b);
            } else {
                assert(lex_lt(c, b));
                lemma_lex_asymmetric(b, c);
            }
        } else {
            assert forall|t: int| 0 <= t < m - 1 implies a.drop_first()[t] == c.drop_first()[t] by {
                assert(a[t + 1] == c[t + 1]);
            }
            lemma_lex_between(a.drop_first(), b.drop_first(), c.drop_first(), m - 1);
            assert forall|t: int| 0 <= t < m implies b[t] == a[t] by {
                if t > 0 {
                    assert(b[t] == b.drop_first()[t - 1]);
                    assert(a[t] == a.drop_first()[t - 1]);
                }
            }
        }
    }
}

/// The comparison is decided by what follows a common prefix.
pub proof fn lemma_lex_skip(a: Seq<char>, b: Seq<char>, k: int)
    requires
        0 <= k <= a.len(),
        k <= b.len(),
        forall|t: int| 0 <= t < k ==> a[t] == b[t],
    ensures
        lex_lt(a, b) == lex_lt(a.skip(k), b.skip(k)),
    decreases k,
{
    if k > 0 {
        assert(a.drop_first().skip(k - 1) =~= a.skip(k));
        assert(b.drop_first().skip(k - 1) =~= b.skip(k));
        lemma_lex_skip(a.drop_first(), b.drop_first(), k - 1);
    } else {
        assert(a.skip(0) =~= a);
        assert(b.skip(0) =~= b);
    }
}

/// Compares `a[i..]` with `b[j..]` lexicographically.
pub fn compare_from(a: &Vec<char>, i: usize, b: &Vec<char>, j: usize) -> (r: Ordering)
    requires
        i <= a.len(),
        j <= b.len(),
    ensures
        r == lex_cmp(a@.skip(i as int), b@.skip(j as int)),
{
    let ghost sa = a@.skip(i as int);
    let ghost sb = b@.skip(j as int);
    let mut k: usize = 0;
    while i + k < a.len() && j + k < b.len() && a[i + k] == b[j + k]
        invariant
            i <= a.len(),
            j <= b.len(),
            i + k <= a.len(),
            j + k <= b.len(),
            sa == a@.skip(i as int),
            sb == b@.skip(j as int),
            forall|t: int| 0 <= t < k ==> #[trigger] sa[t] == sb[t],
        decreases a.len() - i - k,
    {
        k = k + 1;
    }
    proof {
        lemma_lex_skip(sa, sb, k as int);
        lemma_lex_skip(sb, sa, k as int);
        lemma_lex_asymmetric(sa, sb);
        assert(sa.skip(k as int) =~= a@.skip(i + k));
        assert(sb.skip(k as int) =~= b@.skip(j + k));
    }
    if i + k == a.len() && j + k == b.len() {
        proof {
            assert(sa =~= sb);
        }
        Ordering::Equal
    } else if i + k == a.len() {
        Ordering::Less
    } else if j + k == b.len() {
        Ordering::Greater
    } else if a[i + k] < b[j + k] {
        Ordering::Less
    } else {
        Ordering::Greater
    }
}

} // verus!
