//! Suffix arrays: the positions of a text ordered by the suffixes they start.

use vstd::prelude::*;
use vstd::multiset::Multiset;
use vstd::seq_lib::to_multiset_update;
use std::cmp::Ordering;
use crate::text::{chars_of, compare_from, lex_cmp, lex_lt, lemma_lex_asymmetric, lemma_lex_total};

verus! {

/// The suffix of `t` that starts at position `p`.
pub open spec fn suffix(t: Seq<char>, p: int) -> Seq<char> {
    t.skip(p)
}

/// The positions `0, 1, ..., n - 1` in increasing order.
pub open spec fn positions(n: nat) -> Seq<usize> {
    Seq::new(n, |i: int| i as usize)
}

/// `sa` holds each of the positions `0..n` exactly once.
pub open spec fn is_permutation(sa: Seq<usize>, n: nat) -> bool {
    sa.to_multiset() == positions(n).to_multiset()
}

/// Every entry of `sa` is a position of a text of length `n`, none twice.
pub open spec fn distinct_positions(sa: Seq<usize>, n: nat) -> bool {
    &&& forall|k: int| 0 <= k < sa.len() ==> (#[trigger] sa[k] as int) < n
    &&& sa.no_duplicates()
}

/// The suffixes that `sa[lo..hi]` points at are in strictly increasing order.
pub open spec fn sorted_range(t: Seq<char>, sa: Seq<usize>, lo: int, hi: int) -> bool {
    forall|k: int|
        lo <= k && k + 1 < hi ==> #[trigger] lex_lt(suffix(t, sa[k] as int), suffix(t, sa[k + 1] as int))
}

/// `sa` is the suffix array of `t`: a permutation of the positions of `t`
/// whose suffixes are in increasing order.
pub open spec fn is_suffix_array(t: Seq<char>, sa: Seq<usize>) -> bool {
    &&& sa.len() == t.len()
    &&& is_permutation(sa, t.len())
    &&& sorted_range(t, sa, 0, sa.len() as int)
}

/// The entries of `s` between `lo` and `hi`, as a multiset.
pub open spec fn range_multiset(s: Seq<usize>, lo: int, hi: int) -> Multiset<usize> {
    s.subrange(lo, hi).to_multiset()
}

/// Suffixes that start at different positions differ (they differ in length).
pub proof fn lemma_suffixes_differ(t: Seq<char>, p: int, q: int)
    requires
        0 <= p <= t.len(),
        0 <= q <= t.len(),
        p != q,
    ensures
        lex_lt(suffix(t, p), suffix(t, q)) || lex_lt(suffix(t, q), suffix(t, p)),
{
    assert(suffix(t, p).len() != suffix(t, q).len());
    lemma_lex_total(suffix(t, p), suffix(t, q));
}

/// In a sorted range every earlier row's suffix sorts before every later one's.
pub proof fn lemma_sorted_lt(t: Seq<char>, sa: Seq<usize>, lo: int, hi: int, i: int, j: int)
    requires
        sorted_range(t, sa, lo, hi),
        lo <= i < j < hi,
    ensures
        lex_lt(suffix(t, sa[i] as int), suffix(t, sa[j] as int)),
    decreases j - i,
{
    if j > i + 1 {
        lemma_sorted_lt(t, sa, lo, hi, i, j - 1);
        assert(lex_lt(suffix(t, sa[j - 1] as int), suffix(t, sa[j - 1 + 1] as int)));
        crate::text::lemma_lex_transitive(
            suffix(t, sa[i] as int),
            suffix(t, sa[j - 1] as int),
            suffix(t, sa[j] as int),
        );
    } else {
        assert(lex_lt(suffix(t, sa[i] as int), suffix(t, sa[i + 1] as int)));
    }
}

/// Exchanging two entries of a range keeps what the range holds.
proof fn lemma_swap_multiset(s: Seq<usize>, i: int, j: int, lo: int, hi: int)
    requires
        0 <= lo <= i < hi <= s.len(),
        lo <= j < hi,
    ensures
        range_multiset(s.update(i, s[j]).update(j, s[i]), lo, hi) == range_multiset(s, lo, hi),
{
    let r = s.subrange(lo, hi);
    let r1 = r.update(i - lo, s[j]);
    let r2 = r1.update(j - lo, s[i]);
    assert(s.update(i, s[j]).update(j, s[i]).subrange(lo, hi) =~= r2);
    broadcast use vstd::multiset::group_multiset_axioms;
    to_multiset_update(r, i - lo, s[j]);
    to_multiset_update(r1, j - lo, s[i]);
    assert(r[i - lo] == s[i]);
    assert(r1[j - lo] == s[j]);
    let m = r.to_multiset();
    vstd::seq_lib::to_multiset_contains(r, s[i]);
    assert(r.contains(s[i]));
    assert(m.insert(s[j]).remove(s[i]).insert(s[i]).remove(s[j]) =~= m);
}

/// A range is the union of its two parts.
proof fn lemma_range_split(s: Seq<usize>, lo: int, mid: int, hi: int)
    requires
        0 <= lo <= mid <= hi <= s.len(),
    ensures
        range_multiset(s, lo, hi) == range_multiset(s, lo, mid).add(range_multiset(s, mid, hi)),
{
    vstd::seq_lib::lemma_multiset_commutative(s.subrange(lo, mid), s.subrange(mid, hi));
    assert(s.subrange(lo, mid) + s.subrange(mid, hi) =~= s.subrange(lo, hi));
}

/// An entry of the range after a reordering of it was in the range before.
proof fn lemma_range_member(old_s: Seq<usize>, new_s: Seq<usize>, lo: int, hi: int, k: int)
    requires
        0 <= lo <= k < hi <= old_s.len(),
        hi <= new_s.len(),
        range_multiset(new_s, lo, hi) == range_multiset(old_s, lo, hi),
    ensures
        exists|k2: int| lo <= k2 < hi && old_s[k2] == new_s[k],
{
    let x = new_s[k];
    assert(new_s.subrange(lo, hi)[k - lo] == x);
    vstd::seq_lib::to_multiset_contains(new_s.subrange(lo, hi), x);
    vstd::seq_lib::to_multiset_contains(old_s.subrange(lo, hi), x);
    let k3 = choose|k3: int| 0 <= k3 < hi - lo && old_s.subrange(lo, hi)[k3] == x;
    assert(old_s[lo + k3] == x);
}

/// Exchanges the entries at `i` and `j`.
fn swap_at(v: &mut Vec<usize>, i: usize, j: usize)
    requires
        i < old(v).len(),
        j < old(v).len(),
    ensures
        final(v)@ == old(v)@.update(i as int, old(v)@[j as int]).update(j as int, old(v)@[i as int]),
{
    let a = v[i];
    let b = v[j];
    v[i] = b;
    v[j] = a;
}

/// `new` differs from `old` only by a reordering of the range `lo..hi`.
pub open spec fn reordered(old_s: Seq<usize>, new_s: Seq<usize>, lo: int, hi: int) -> bool {
    &&& new_s.len() == old_s.len()
    &&& forall|k: int| 0 <= k < old_s.len() && !(lo <= k < hi) ==> new_s[k] == old_s[k]
    &&& range_multiset(new_s, lo, hi) == range_multiset(old_s, lo, hi)
}

/// Every suffix that `s[lo..hi]` points at sorts after the suffix at `p`.
pub open spec fn all_above(t: Seq<char>, s: Seq<usize>, lo: int, hi: int, p: usize) -> bool {
    forall|k: int| lo <= k < hi ==> lex_lt(suffix(t, p as int), #[trigger] suffix(t, s[k] as int))
}

/// Every suffix that `s[lo..hi]` points at sorts before the suffix at `p`.
pub open spec fn all_below(t: Seq<char>, s: Seq<usize>, lo: int, hi: int, p: usize) -> bool {
    forall|k: int| lo <= k < hi ==> lex_lt(#[trigger] suffix(t, s[k] as int), suffix(t, p as int))
}

/// A reordering of a part of a range is a reordering of the whole range.
proof fn lemma_reordered_widen(old_s: Seq<usize>, new_s: Seq<usize>, a: int, b: int, lo: int, hi: int)
    requires
        reordered(old_s, new_s, a, b),
        0 <= lo <= a <= b <= hi <= old_s.len(),
    ensures
        reordered(old_s, new_s, lo, hi),
{
    lemma_range_split(old_s, lo, a, hi);
    lemma_range_split(old_s, a, b, hi);
    lemma_range_split(new_s, lo, a, hi);
    lemma_range_split(new_s, a, b, hi);
    assert(old_s.subrange(lo, a) =~= new_s.subrange(lo, a));
    assert(old_s.subrange(b, hi) =~= new_s.subrange(b, hi));
}

/// Bounds on the suffixes of a range survive a reordering of it.
proof fn lemma_bounds_transfer(
    t: Seq<char>,
    old_s: Seq<usize>,
    new_s: Seq<usize>,
    lo: int,
    hi: int,
    p: usize,
)
    requires
        0 <= lo <= hi <= old_s.len(),
        hi <= new_s.len(),
        range_multiset(new_s, lo, hi) == range_multiset(old_s, lo, hi),
    ensures
        all_above(t, old_s, lo, hi, p) ==> all_above(t, new_s, lo, hi, p),
        all_below(t, old_s, lo, hi, p) ==> all_below(t, new_s, lo, hi, p),
{
    assert forall|k: int| lo <= k < hi implies exists|k2: int|
        lo <= k2 < hi && old_s[k2] == #[trigger] new_s[k] by {
        lemma_range_member(old_s, new_s, lo, hi, k);
    }
    if all_above(t, old_s, lo, hi, p) {
        assert forall|k: int| lo <= k < hi implies lex_lt(
            suffix(t, p as int),
            #[trigger] suffix(t, new_s[k] as int),
        ) by {
            let k2 = choose|k2: int| lo <= k2 < hi && old_s[k2] == new_s[k];
            assert(lex_lt(suffix(t, p as int), suffix(t, old_s[k2] as int)));
        }
    }
    if all_below(t, old_s, lo, hi, p) {
        assert forall|k: int| lo <= k < hi implies lex_lt(
            #[trigger] suffix(t, new_s[k] as int),
            suffix(t, p as int),
        ) by {
            let k2 = choose|k2: int| lo <= k2 < hi && old_s[k2] == new_s[k];
            assert(lex_lt(suffix(t, old_s[k2] as int), suffix(t, p as int)));
        }
    }
}

/// Exchanging two entries keeps the entries distinct positions.
proof fn lemma_swap_distinct(s: Seq<usize>, i: int, j: int, n: nat)
    requires
        0 <= i < s.len(),
        0 <= j < s.len(),
        distinct_positions(s, n),
    ensures
        distinct_positions(s.update(i, s[j]).update(j, s[i]), n),
{
    let s2 = s.update(i, s[j]).update(j, s[i]);
    assert forall|k: int| 0 <= k < s2.len() implies (#[trigger] s2[k] as int) < n by {
        if k == j {
        } else if k == i {
        } else {
            assert(s2[k] == s[k]);
        }
    }
    assert forall|a: int, b: int| 0 <= a < s2.len() && 0 <= b < s2.len() && a != b implies s2[a]
        != s2[b] by {
        let ga = if a == j { i } else if a == i { j } else { a };
        let gb = if b == j { i } else if b == i { j } else { b };
        assert(s2[a] == s[ga]);
        assert(s2[b] == s[gb]);
    }
}

/// Takes the middle entry of `sa[low..=high]` as pivot, moves the entries
/// whose suffixes sort below the pivot's in front of it and the others
/// behind it, and returns where the pivot ends up.
fn partition(sa: &mut Vec<usize>, low: usize, high: usize, text: &Vec<char>) -> (p: usize)
    requires
        low <= high < old(sa).len(),
        distinct_positions(old(sa)@, text.len() as nat),
    ensures
        low <= p <= high,
        reordered(old(sa)@, final(sa)@, low as int, high + 1),
        distinct_positions(final(sa)@, text.len() as nat),
        all_below(text@, final(sa)@, low as int, p as int, final(sa)@[p as int]),
        all_above(text@, final(sa)@, p + 1, high + 1, final(sa)@[p as int]),
{
    let ghost s_in = sa@;
    let mid = low + (high - low) / 2;
    proof {
        lemma_swap_multiset(s_in, mid as int, high as int, low as int, high + 1);
        lemma_swap_distinct(s_in, mid as int, high as int, text.len() as nat);
    }
    swap_at(sa, mid, high);
    let ghost s0 = sa@;
    let pivot = sa[high];
    let mut store: usize = low;
    let mut j: usize = low;
    while j < high
        invariant
            low <= store <= j <= high < sa.len(),
            sa@[high as int] == pivot,
            reordered(s0, sa@, low as int, high + 1),
            distinct_positions(sa@, text.len() as nat),
            all_below(text@, sa@, low as int, store as int, pivot),
            all_above(text@, sa@, store as int, j as int, pivot),
        decreases high - j,
    {
        let c = compare_from(text, sa[j], text, pivot);
        if matches!(c, Ordering::Less) {
            let ghost before = sa@;
            proof {
                lemma_swap_multiset(before, store as int, j as int, low as int, high + 1);
                lemma_swap_distinct(before, store as int, j as int, text.len() as nat);
            }
            swap_at(sa, store, j);
            proof {
                assert(lex_lt(suffix(text@, sa@[store as int] as int), suffix(text@, pivot as int)));
                assert forall|k: int| store < k <= j implies lex_lt(
                    suffix(text@, pivot as int),
                    #[trigger] suffix(text@, sa@[k] as int),
                ) by {
                    if k == j {
                        assert(sa@[k] == before[store as int]);
                    } else {
                        assert(sa@[k] == before[k]);
                    }
                }
            }
            store = store + 1;
        } else {
            proof {
                assert(sa@[j as int] != sa@[high as int]);
                lemma_suffixes_differ(text@, sa@[j as int] as int, pivot as int);
                lemma_lex_asymmetric(suffix(text@, sa@[j as int] as int), suffix(text@, pivot as int));
            }
        }
        j = j + 1;
    }
    let ghost before = sa@;
    proof {
        lemma_swap_multiset(before, store as int, high as int, low as int, high + 1);
        lemma_swap_distinct(before, store as int, high as int, text.len() as nat);
    }
    swap_at(sa, store, high);
    proof {
        assert(range_multiset(sa@, low as int, high + 1) == range_multiset(s_in, low as int, high + 1));
        assert forall|k: int| store < k <= high implies lex_lt(
            suffix(text@, pivot as int),
            #[trigger] suffix(text@, sa@[k] as int),
        ) by {
            if k == high {
                assert(sa@[k] == before[store as int]);
            } else {
                assert(sa@[k] == before[k]);
            }
        }
    }
    store
}

/// Sorts `sa[low..high]` by the suffixes of `text` it points at. The larger
/// side of each partition is handled by the loop and only the smaller one by
/// recursion, so the depth of recursion stays logarithmic.
fn _quick_sort(sa: &mut Vec<usize>, low: usize, high: usize, text: &Vec<char>)
    requires
        low <= high <= old(sa).len(),
        distinct_positions(old(sa)@, text.len() as nat),
    ensures
        reordered(old(sa)@, final(sa)@, low as int, high as int),
        distinct_positions(final(sa)@, text.len() as nat),
        sorted_range(text@, final(sa)@, low as int, high as int),
    decreases high - low,
{
    let ghost t = text@;
    let ghost s0 = sa@;
    let mut lo: usize = low;
    let mut hi: usize = high;
    while hi - lo > 1
        invariant
            low <= lo <= hi <= high <= sa.len(),
            reordered(s0, sa@, low as int, high as int),
            distinct_positions(sa@, text.len() as nat),
            t == text@,
            sorted_range(t, sa@, low as int, lo as int),
            sorted_range(t, sa@, hi as int, high as int),
            lo > low ==> all_above(t, sa@, lo as int, hi as int, sa@[lo - 1]),
            hi < high ==> all_below(t, sa@, lo as int, hi as int, sa@[hi as int]),
            lo > low && hi < high ==> lex_lt(
                suffix(t, sa@[lo - 1] as int),
                suffix(t, sa@[hi as int] as int),
            ),
        decreases hi - lo,
    {
        let ghost s1 = sa@;
        let p = partition(sa, lo, hi - 1, text);
        let ghost s2 = sa@;
        proof {
            if lo > low {
                lemma_bounds_transfer(t, s1, s2, lo as int, hi as int, s1[lo - 1]);
            }
            if hi < high {
                lemma_bounds_transfer(t, s1, s2, lo as int, hi as int, s1[hi as int]);
            }
            lemma_reordered_widen(s1, s2, lo as int, hi as int, low as int, high as int);
        }
        if p - lo < hi - p - 1 {
            _quick_sort(sa, lo, p, text);
            let ghost s3 = sa@;
            proof {
                lemma_bounds_transfer(t, s2, s3, lo as int, p as int, s2[p as int]);
                if lo > low {
                    lemma_bounds_transfer(t, s2, s3, lo as int, p as int, s2[lo - 1]);
                }
                lemma_reordered_widen(s2, s3, lo as int, p as int, lo as int, hi as int);
                lemma_bounds_transfer(t, s2, s3, lo as int, hi as int, s2[hi as int]);
                lemma_reordered_widen(s2, s3, lo as int, p as int, low as int, high as int);
                assert(s3[p as int] == s2[p as int]);
                assert forall|k: int| low <= k && k + 1 < p + 1 implies #[trigger] lex_lt(
                    suffix(t, s3[k] as int),
                    suffix(t, s3[k + 1] as int),
                ) by {
                    if k + 1 < lo {
                        assert(s3[k] == s1[k] && s3[k + 1] == s1[k + 1]);
                    } else if k + 1 == lo {
                        assert(s3[k] == s1[k]);
                    } else if k + 1 == p {
                    }
                }
                assert forall|k: int| p + 1 <= k < hi implies lex_lt(
                    suffix(t, s3[p as int] as int),
                    #[trigger] suffix(t, s3[k] as int),
                ) by {
                    assert(s3[k] == s2[k]);
                }
                if hi < high {
                    assert(s3[hi as int] == s2[hi as int]);
                    assert(lex_lt(suffix(t, s3[p as int] as int), suffix(t, s3[hi as int] as int)));
                }
                assert forall|k: int| hi <= k && k + 1 < high implies #[trigger] lex_lt(
                    suffix(t, s3[k] as int),
                    suffix(t, s3[k + 1] as int),
                ) by {
                    assert(s3[k] == s1[k] && s3[k + 1] == s1[k + 1]);
                }
            }
            lo = p + 1;
        } else {
            _quick_sort(sa, p + 1, hi, text);
            let ghost s3 = sa@;
            proof {
                lemma_bounds_transfer(t, s2, s3, p + 1, hi as int, s2[p as int]);
                if hi < high {
                    lemma_bounds_transfer(t, s2, s3, p + 1, hi as int, s2[hi as int]);
                }
                lemma_reordered_widen(s2, s3, p + 1, hi as int, lo as int, hi as int);
                if lo > low {
                    lemma_bounds_transfer(t, s2, s3, lo as int, hi as int, s2[lo - 1]);
                }
                lemma_reordered_widen(s2, s3, p + 1, hi as int, low as int, high as int);
                assert(s3[p as int] == s2[p as int]);
                assert forall|k: int| p <= k && k + 1 < high implies #[trigger] lex_lt(
                    suffix(t, s3[k] as int),
                    suffix(t, s3[k + 1] as int),
                ) by {
                    if k >= hi {
                        assert(s3[k] == s1[k] && s3[k + 1] == s1[k + 1]);
                    } else if k + 1 == hi {
                        assert(s3[k + 1] == s1[k + 1]);
                    } else if k == p {
                    }
                }
                assert forall|k: int| lo <= k < p implies lex_lt(
                    #[trigger] suffix(t, s3[k] as int),
                    suffix(t, s3[p as int] as int),
                ) by {
                    assert(s3[k] == s2[k]);
                }
                if lo > low {
                    assert(s3[lo - 1] == s2[lo - 1]);
                    assert(lex_lt(suffix(t, s3[lo - 1] as int), suffix(t, s3[p as int] as int)));
                }
                assert forall|k: int| low <= k && k + 1 < lo implies #[trigger] lex_lt(
                    suffix(t, s3[k] as int),
                    suffix(t, s3[k + 1] as int),
                ) by {
                    assert(s3[k] == s1[k] && s3[k + 1] == s1[k + 1]);
                }
            }
            hi = p;
        }
    }
    proof {
        assert forall|k: int| low <= k && k + 1 < high implies #[trigger] lex_lt(
            suffix(t, sa@[k] as int),
            suffix(t, sa@[k + 1] as int),
        ) by {
            if k + 1 < lo {
            } else if k + 1 == lo {
                if lo < hi {
                } else {
                }
            } else if k + 1 < hi {
            } else if k + 1 == hi {
            } else {
            }
        }
    }
}

/// Sorts the positions in `sa` by the suffixes of `reads` that start there.
pub fn quick_sort<T: Ord>(sa: &mut Vec<usize>, reads: &str)
    requires
        distinct_positions(old(sa)@, reads@.len()),
    ensures
        final(sa)@.to_multiset() == old(sa)@.to_multiset(),
        sorted_range(reads@, final(sa)@, 0, final(sa)@.len() as int),
{
    let text = chars_of(reads);
    let len = sa.len();
    _quick_sort(sa, 0, len, &text);
    proof {
        assert(old(sa)@.subrange(0, len as int) =~= old(sa)@);
        assert(sa@.subrange(0, len as int) =~= sa@);
    }
}

/// Compares two strings lexicographically, as `str`'s own order does.
pub fn compare(curr: &str, comp: &str) -> (r: Ordering)
    ensures
        r == lex_cmp(curr@, comp@),
{
    let a = chars_of(curr);
    let b = chars_of(comp);
    proof {
        assert(a@.skip(0) =~= a@);
        assert(b@.skip(0) =~= b@);
    }
    compare_from(&a, 0, &b, 0)
}

} // verus!
