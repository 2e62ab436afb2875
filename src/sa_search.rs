//! Searching a plain suffix array by binary search over its rows.

use vstd::prelude::*;
use std::cmp::Ordering;
use vstd::string::StringExecFns;
use crate::text::{chars_of, lemma_lex_between};
use crate::suffix_array::{is_suffix_array, lemma_sorted_lt, suffix};
use crate::fm_index::lemma_permutation_facts;

verus! {

/// A text with its suffix array.
pub struct GenSA {
    pub genome: String,
    pub sa: Vec<usize>,
}

/// A query of the suffix array, with its hits and how many symbols the
/// searches for its lower and upper bound compared.
pub struct SaQ {
    pub header: String,
    pub query: String,
    pub hits: Vec<usize>,
    pub char_cmp_lb: u32,
    pub char_cmp_ub: u32,
}

/// The length of the longest common prefix of `a` and `b`.
pub open spec fn common_prefix(a: Seq<char>, b: Seq<char>) -> nat
    decreases a.len(),
{
    if a.len() == 0 || b.len() == 0 || a[0] != b[0] {
        0
    } else {
        1 + common_prefix(a.drop_first(), b.drop_first())
    }
}

/// How `a` compares with `b` over their common length: by the first symbol
/// where they differ, and equal when one is a prefix of the other.
pub open spec fn prefix_order(a: Seq<char>, b: Seq<char>) -> Ordering {
    let k = common_prefix(a, b) as int;
    if k < a.len() && k < b.len() {
        if a[k] < b[k] {
            Ordering::Less
        } else {
            Ordering::Greater
        }
    } else {
        Ordering::Equal
    }
}

/// How many symbol pairs that comparison looks at.
pub open spec fn prefix_comparisons(a: Seq<char>, b: Seq<char>) -> nat {
    let k = common_prefix(a, b);
    if k < a.len() && k < b.len() {
        k + 1
    } else {
        k
    }
}

/// The common prefix is common and as long as it can be.
pub proof fn lemma_common_prefix(a: Seq<char>, b: Seq<char>)
    ensures
        common_prefix(a, b) <= a.len(),
        common_prefix(a, b) <= b.len(),
        forall|t: int| 0 <= t < common_prefix(a, b) ==> a[t] == b[t],
        common_prefix(a, b) < a.len() && common_prefix(a, b) < b.len() ==> a[common_prefix(a, b) as int]
            != b[common_prefix(a, b) as int],
    decreases a.len(),
{
    if !(a.len() == 0 || b.len() == 0 || a[0] != b[0]) {
        lemma_common_prefix(a.drop_first(), b.drop_first());
        assert forall|t: int| 0 <= t < common_prefix(a, b) implies a[t] == b[t] by {
            if t > 0 {
                assert(a[t] == a.drop_first()[t - 1]);
                assert(b[t] == b.drop_first()[t - 1]);
            }
        }
    }
}

/// A prefix that two sequences share and that ends where they differ, or
/// where one ends, is their longest common prefix.
pub proof fn lemma_common_prefix_unique(a: Seq<char>, b: Seq<char>, k: int)
    requires
        0 <= k <= a.len(),
        k <= b.len(),
        forall|t: int| 0 <= t < k ==> a[t] == b[t],
        k == a.len() || k == b.len() || a[k] != b[k],
    ensures
        common_prefix(a, b) == k,
    decreases a.len(),
{
    if k > 0 {
        assert(a[0] == b[0]);
        assert forall|t: int| 0 <= t < k - 1 implies a.drop_first()[t] == b.drop_first()[t] by {
            assert(a[t + 1] == b[t + 1]);
        }
        lemma_common_prefix_unique(a.drop_first(), b.drop_first(), k - 1);
    }
}

/// Compares `a[i..]` with `b[j..]` over their common length; also gives the
/// number of symbol pairs looked at.
fn compare_counting(a: &Vec<char>, i: usize, b: &Vec<char>, j: usize) -> (r: (Ordering, u32))
    requires
        i <= a.len(),
        j <= b.len(),
        a.len() - i <= u32::MAX,
    ensures
        r.0 == prefix_order(a@.skip(i as int), b@.skip(j as int)),
        r.1 as nat == prefix_comparisons(a@.skip(i as int), b@.skip(j as int)),
{
    let ghost sa = a@.skip(i as int);
    let ghost sb = b@.skip(j as int);
    let mut k: usize = 0;
    while i + k < a.len() && j + k < b.len() && a[i + k] == b[j + k]
        invariant
            i + k <= a.len(),
            j + k <= b.len(),
            sa == a@.skip(i as int),
            sb == b@.skip(j as int),
            forall|t: int| 0 <= t < k ==> #[trigger] sa[t] == sb[t],
        decreases a.len() - i - k,
    {
        k = k + 1;
    }
    proof {
        lemma_common_prefix_unique(sa, sb, k as int);
    }
    if i + k < a.len() && j + k < b.len() {
        if a[i + k] < b[j + k] {
            (Ordering::Less, (k + 1) as u32)
        } else {
            (Ordering::Greater, (k + 1) as u32)
        }
    } else {
        (Ordering::Equal, k as u32)
    }
}

/// Compares `curr` with `comp` over their common length, and counts the
/// symbol pairs looked at.
pub fn compare(curr: &str, comp: &str) -> (r: (Ordering, u32))
    requires
        curr@.len() <= u32::MAX,
    ensures
        r.0 == prefix_order(curr@, comp@),
        r.1 as nat == prefix_comparisons(curr@, comp@),
{
    let a = chars_of(curr);
    let b = chars_of(comp);
    proof {
        assert(a@.skip(0) =~= a@);
        assert(b@.skip(0) =~= b@);
    }
    compare_counting(&a, 0, &b, 0)
}

/// Comparing after a common prefix of length `m` gives the same order, and
/// the common prefix grows by `m`.
proof fn lemma_prefix_skip(a: Seq<char>, b: Seq<char>, m: int)
    requires
        0 <= m <= a.len(),
        m <= b.len(),
        forall|t: int| 0 <= t < m ==> a[t] == b[t],
    ensures
        common_prefix(a, b) == m + common_prefix(a.skip(m), b.skip(m)),
        prefix_order(a, b) == prefix_order(a.skip(m), b.skip(m)),
        prefix_comparisons(a, b) == m + prefix_comparisons(a.skip(m), b.skip(m)),
{
    let k = common_prefix(a.skip(m), b.skip(m));
    lemma_common_prefix(a.skip(m), b.skip(m));
    assert forall|t: int| 0 <= t < m + k implies a[t] == b[t] by {
        if t >= m {
            assert(a[t] == a.skip(m)[t - m]);
            assert(b[t] == b.skip(m)[t - m]);
        }
    }
    if m + k < a.len() && m + k < b.len() {
        assert(a[m + k] == a.skip(m)[k as int]);
        assert(b[m + k] == b.skip(m)[k as int]);
    }
    lemma_common_prefix_unique(a, b, m + k);
}

/// The suffix in row `r` sorts below `target` at their first difference.
pub open spec fn row_below(target: Seq<char>, genome: Seq<char>, sa: Seq<usize>, r: int) -> bool {
    prefix_order(target, genome.skip(sa[r] as int)) == Ordering::Greater
}

/// `x` capped at the largest `u32`.
pub open spec fn saturate(x: int) -> int {
    if x > u32::MAX {
        u32::MAX as int
    } else {
        x
    }
}

/// The plain binary search of rows `lo..hi` for `target`, with `acc`
/// comparisons made so far: the row where it ends, and the symbol pairs
/// compared in all (saturating). Each step probes the middle row and
/// compares the whole target with its suffix.
pub open spec fn plain_search(
    target: Seq<char>,
    genome: Seq<char>,
    sa: Seq<usize>,
    lo: int,
    hi: int,
    acc: int,
) -> (int, int)
    decreases hi - lo,
{
    if lo >= hi {
        (lo, acc)
    } else {
        let mid = lo + (hi - lo) / 2;
        let c = saturate(acc + prefix_comparisons(target, genome.skip(sa[mid] as int)));
        if row_below(target, genome, sa, mid) {
            plain_search(target, genome, sa, mid + 1, hi, c)
        } else {
            plain_search(target, genome, sa, lo, mid, c)
        }
    }
}

/// The accelerated binary search of rows `lo..hi`, where the target shares
/// `llo` symbols with the suffix just above the rows and `lhi` with the one
/// just below: each probe skips the smaller of the two, and only the rest
/// of the comparison is counted.
pub open spec fn accel_search(
    target: Seq<char>,
    genome: Seq<char>,
    sa: Seq<usize>,
    lo: int,
    hi: int,
    llo: int,
    lhi: int,
    acc: int,
) -> (int, int)
    decreases hi - lo,
{
    if lo >= hi {
        (lo, acc)
    } else {
        let mid = lo + (hi - lo) / 2;
        let skip = if llo < lhi {
            llo
        } else {
            lhi
        };
        let s = genome.skip(sa[mid] as int);
        let c = saturate(acc + prefix_comparisons(target.skip(skip), s.skip(skip)));
        let shared = common_prefix(target, s) as int;
        if row_below(target, genome, sa, mid) {
            accel_search(target, genome, sa, mid + 1, hi, shared, lhi, c)
        } else {
            accel_search(target, genome, sa, lo, mid, llo, shared, c)
        }
    }
}

/// `idx` splits the rows: those above it sort below `target`, the one at it
/// does not.
pub open spec fn is_boundary(target: Seq<char>, genome: Seq<char>, sa: Seq<usize>, idx: int) -> bool {
    &&& 0 <= idx <= sa.len()
    &&& idx > 0 ==> row_below(target, genome, sa, idx - 1)
    &&& idx < sa.len() ==> !row_below(target, genome, sa, idx)
}

/// Binary search of the rows for where `target` would go; gives that row and
/// the number of symbol pairs compared (saturating).
pub fn binary_search(target: &str, sa: Vec<usize>, genome: &str) -> (r: (u32, u32))
    requires
        target@.len() <= u32::MAX,
        sa@.len() <= u32::MAX,
        forall|k: int| 0 <= k < sa@.len() ==> (#[trigger] sa@[k]) <= genome@.len(),
    ensures
        is_boundary(target@, genome@, sa@, r.0 as int),
        (r.0 as int, r.1 as int) == plain_search(target@, genome@, sa@, 0, sa@.len() as int, 0),
{
    let t = chars_of(target);
    let g = chars_of(genome);
    let mut low: usize = 0;
    let mut high: usize = sa.len();
    let mut comparisons: u32 = 0;
    while low < high
        invariant
            0 <= low <= high <= sa@.len(),
            plain_search(target@, genome@, sa@, 0, sa@.len() as int, 0) == plain_search(
                target@,
                genome@,
                sa@,
                low as int,
                high as int,
                comparisons as int,
            ),
            t@ == target@,
            g@ == genome@,
            t@.len() <= u32::MAX,
            forall|k: int| 0 <= k < sa@.len() ==> (#[trigger] sa@[k]) <= g@.len(),
            low > 0 ==> row_below(target@, genome@, sa@, low - 1),
            high < sa@.len() ==> !row_below(target@, genome@, sa@, high as int),
        decreases high - low,
    {
        let middle = low + (high - low) / 2;
        proof {
            assert(t@.skip(0) =~= t@);
        }
        let result = compare_counting(&t, 0, &g, sa[middle]);
        comparisons = comparisons.saturating_add(result.1);
        if matches!(result.0, Ordering::Greater) {
            low = middle + 1;
        } else {
            high = middle;
        }
    }
    (low as u32, comparisons)
}

/// Binary search of a suffix array for where `target` would go, as
/// `binary_search` does, but each comparison skips the symbols that the
/// target shares with the suffixes at both ends of the remaining rows: in a
/// sorted array the suffixes between them share those symbols too.
#[verifier::rlimit(60)]
pub fn simple_accel(target: &str, sa: Vec<usize>, genome: &str) -> (r: (u32, u32))
    requires
        target@.len() <= u32::MAX,
        sa@.len() <= u32::MAX,
        is_suffix_array(genome@, sa@),
    ensures
        is_boundary(target@, genome@, sa@, r.0 as int),
        (r.0 as int, r.1 as int) == accel_search(target@, genome@, sa@, 0, sa@.len() as int, 0, 0, 0),
{
    let t = chars_of(target);
    let g = chars_of(genome);
    proof {
        lemma_permutation_facts(sa@, g@.len());
    }
    let len = sa.len();
    let mut low: usize = 0;
    let mut high: usize = len;
    let mut lcp_low: usize = 0;
    let mut lcp_high: usize = 0;
    let mut comparisons: u32 = 0;
    while low < high
        invariant
            0 <= low <= high <= len,
            len == sa@.len(),
            t@ == target@,
            g@ == genome@,
            t@.len() <= u32::MAX,
            is_suffix_array(g@, sa@),
            forall|k: int| 0 <= k < sa@.len() ==> (#[trigger] sa@[k] as int) < g@.len(),
            low > 0 ==> row_below(target@, genome@, sa@, low - 1),
            high < len ==> !row_below(target@, genome@, sa@, high as int),
            low == 0 ==> lcp_low == 0,
            high == len ==> lcp_high == 0,
            accel_search(target@, genome@, sa@, 0, len as int, 0, 0, 0) == accel_search(
                target@,
                genome@,
                sa@,
                low as int,
                high as int,
                lcp_low as int,
                lcp_high as int,
                comparisons as int,
            ),
            low > 0 ==> lcp_low <= t@.len() && lcp_low <= suffix(g@, sa@[low - 1] as int).len(),
            low > 0 ==> forall|k: int| 0 <= k < lcp_low ==> t@[k] == #[trigger] suffix(g@, sa@[low - 1] as int)[k],
            high < len ==> lcp_high <= t@.len() && lcp_high <= suffix(g@, sa@[high as int] as int).len(),
            high < len ==> forall|k: int| 0 <= k < lcp_high ==> t@[k] == #[trigger] suffix(g@, sa@[high as int] as int)[k],
        decreases high - low,
    {
        let middle = low + (high - low) / 2;
        let skip: usize = if lcp_low < lcp_high {
            lcp_low
        } else {
            lcp_high
        };
        let ghost s_mid = suffix(g@, sa@[middle as int] as int);
        proof {
            if low > 0 && high < len {
                let a = suffix(g@, sa@[low - 1] as int);
                let c = suffix(g@, sa@[high as int] as int);
                lemma_sorted_lt(g@, sa@, 0, len as int, low - 1, middle as int);
                lemma_sorted_lt(g@, sa@, 0, len as int, middle as int, high as int);
                assert forall|k: int| 0 <= k < skip implies a[k] == c[k] by {
                    assert(t@[k] == a[k]);
                    assert(t@[k] == c[k]);
                }
                lemma_lex_between(a, s_mid, c, skip as int);
                assert forall|k: int| 0 <= k < skip implies t@[k] == s_mid[k] by {
                    assert(t@[k] == a[k]);
                }
            }
            lemma_prefix_skip(t@, s_mid, skip as int);
            assert(s_mid.skip(skip as int) =~= g@.skip(sa@[middle as int] + skip));
        }
        let result = compare_counting(&t, skip, &g, sa[middle] + skip);
        let ghost before = (low as int, high as int, lcp_low as int, lcp_high as int, comparisons as int);
        comparisons = comparisons.saturating_add(result.1);
        proof {
            lemma_common_prefix(t@.skip(skip as int), g@.skip(sa@[middle as int] + skip));
            assert(result.1 as int <= t@.len() - skip);
        }
        let shared: usize = if matches!(result.0, Ordering::Equal) {
            skip + result.1 as usize
        } else {
            skip + result.1 as usize - 1
        };
        proof {
            let sa2 = t@.skip(skip as int);
            let sb2 = g@.skip(sa@[middle as int] + skip);
            lemma_common_prefix(sa2, sb2);
            lemma_common_prefix(t@, s_mid);
            assert(shared as int == common_prefix(t@, s_mid));
            assert(comparisons as int == saturate(before.4 + prefix_comparisons(t@.skip(skip as int), s_mid.skip(skip as int))));
        }
        if matches!(result.0, Ordering::Greater) {
            low = middle + 1;
            lcp_low = shared;
        } else {
            high = middle;
            lcp_high = shared;
        }
    }
    (low as u32, comparisons)
}

/// The shared prefixes that the accelerated search keeps track of.
pub open spec fn accel_state(t: Seq<char>, g: Seq<char>, sa: Seq<usize>, lo: int, hi: int, llo: int, lhi: int) -> bool {
    &&& 0 <= lo <= hi <= sa.len()
    &&& lo == 0 ==> llo == 0
    &&& hi == sa.len() ==> lhi == 0
    &&& lo > 0 ==> 0 <= llo <= t.len() && llo <= suffix(g, sa[lo - 1] as int).len()
        && forall|k: int| 0 <= k < llo ==> t[k] == #[trigger] suffix(g, sa[lo - 1] as int)[k]
    &&& hi < sa.len() ==> 0 <= lhi <= t.len() && lhi <= suffix(g, sa[hi] as int).len()
        && forall|k: int| 0 <= k < lhi ==> t[k] == #[trigger] suffix(g, sa[hi] as int)[k]
}

/// From any state of the accelerated search, it ends on the same row as the
/// plain search and compares no more symbols.
proof fn lemma_accel_vs_plain(
    t: Seq<char>,
    g: Seq<char>,
    sa: Seq<usize>,
    lo: int,
    hi: int,
    llo: int,
    lhi: int,
    acc_a: int,
    acc_p: int,
)
    requires
        is_suffix_array(g, sa),
        forall|k: int| 0 <= k < sa.len() ==> (#[trigger] sa[k] as int) < g.len(),
        accel_state(t, g, sa, lo, hi, llo, lhi),
        0 <= acc_a <= acc_p,
    ensures
        accel_search(t, g, sa, lo, hi, llo, lhi, acc_a).0 == plain_search(t, g, sa, lo, hi, acc_p).0,
        accel_search(t, g, sa, lo, hi, llo, lhi, acc_a).1 <= plain_search(t, g, sa, lo, hi, acc_p).1,
    decreases hi - lo,
{
    if lo < hi {
        let len = sa.len() as int;
        let mid = lo + (hi - lo) / 2;
        let skip = if llo < lhi {
            llo
        } else {
            lhi
        };
        let s_mid = suffix(g, sa[mid] as int);
        if lo > 0 && hi < len {
            let a = suffix(g, sa[lo - 1] as int);
            let c = suffix(g, sa[hi] as int);
            lemma_sorted_lt(g, sa, 0, len, lo - 1, mid);
            lemma_sorted_lt(g, sa, 0, len, mid, hi);
            assert forall|k: int| 0 <= k < skip implies a[k] == c[k] by {
                assert(t[k] == a[k]);
                assert(t[k] == c[k]);
            }
            lemma_lex_between(a, s_mid, c, skip);
            assert forall|k: int| 0 <= k < skip implies t[k] == s_mid[k] by {
                assert(t[k] == a[k]);
            }
        }
        lemma_prefix_skip(t, s_mid, skip);
        lemma_common_prefix(t, s_mid);
        let ca = saturate(acc_a + prefix_comparisons(t.skip(skip), s_mid.skip(skip)));
        let cp = saturate(acc_p + prefix_comparisons(t, s_mid));
        let shared = common_prefix(t, s_mid) as int;
        if row_below(t, g, sa, mid) {
            assert(accel_state(t, g, sa, mid + 1, hi, shared, lhi));
            lemma_accel_vs_plain(t, g, sa, mid + 1, hi, shared, lhi, ca, cp);
        } else {
            assert(accel_state(t, g, sa, lo, mid, llo, shared));
            lemma_accel_vs_plain(t, g, sa, lo, mid, llo, shared, ca, cp);
        }
    }
}

/// On a suffix array the accelerated search ends on the row where the
/// plain binary search ends, and compares no more symbol pairs.
pub proof fn lemma_simple_accel_saves(target: Seq<char>, genome: Seq<char>, sa: Seq<usize>)
    requires
        is_suffix_array(genome, sa),
        sa.len() <= usize::MAX,
    ensures
        accel_search(target, genome, sa, 0, sa.len() as int, 0, 0, 0).0 == plain_search(
            target,
            genome,
            sa,
            0,
            sa.len() as int,
            0,
        ).0,
        accel_search(target, genome, sa, 0, sa.len() as int, 0, 0, 0).1 <= plain_search(
            target,
            genome,
            sa,
            0,
            sa.len() as int,
            0,
        ).1,
{
    lemma_permutation_facts(sa, genome.len());
    lemma_accel_vs_plain(target, genome, sa, 0, sa.len() as int, 0, 0, 0, 0);
}

/// The rows of the suffixes that start with `query`, found with
/// `simple_accel`; also gives the comparisons of its two searches.
pub fn simple_accel_wrapper(query: &str, sa: Vec<usize>, genome: &str) -> (r: (Vec<usize>, u32, u32))
    requires
        query@.len() < u32::MAX,
        sa@.len() <= u32::MAX,
        is_suffix_array(genome@, sa@),
    ensures
        ({
            let lo = accel_search(query@.push('#'), genome@, sa@, 0, sa@.len() as int, 0, 0, 0);
            let hi = accel_search(query@.push('}'), genome@, sa@, 0, sa@.len() as int, 0, 0, 0);
            &&& is_boundary(query@.push('#'), genome@, sa@, lo.0)
            &&& is_boundary(query@.push('}'), genome@, sa@, hi.0)
            &&& r.0@ == rows_in(sa@, lo.0, hi.0)
            &&& r.1 as int == lo.1
            &&& r.2 as int == hi.1
        }),
{
    let mut query_low = String::from_str(query);
    proof {
        reveal_strlit("#");
        reveal_strlit("}");
    }
    query_low.append("#");
    let mut query_up = String::from_str(query);
    query_up.append("}");
    proof {
        assert(query_low@ =~= query@.push('#'));
        assert(query_up@ =~= query@.push('}'));
    }
    let lower = simple_accel(query_low.as_str(), sa.clone(), genome);
    let upper = simple_accel(query_up.as_str(), sa.clone(), genome);
    let hits = rows_between(&sa, lower.0 as usize, upper.0 as usize);
    (hits, lower.1, upper.1)
}

/// The entries of `sa[lo..hi]`, none if the range is empty.
pub open spec fn rows_in(sa: Seq<usize>, lo: int, hi: int) -> Seq<usize> {
    if lo < hi {
        sa.subrange(lo, hi)
    } else {
        Seq::empty()
    }
}

/// The entries of `sa[lo..hi]`, none if the range is empty.
fn rows_between(sa: &Vec<usize>, lo: usize, hi: usize) -> (hits: Vec<usize>)
    requires
        lo <= sa@.len(),
        hi <= sa@.len(),
    ensures
        hits@ == if lo < hi {
            sa@.subrange(lo as int, hi as int)
        } else {
            Seq::<usize>::empty()
        },
{
    let mut hits: Vec<usize> = Vec::new();
    if lo < hi {
        let mut i: usize = lo;
        while i < hi
            invariant
                lo <= i <= hi <= sa@.len(),
                hits@ == sa@.subrange(lo as int, i as int),
            decreases hi - i,
        {
            hits.push(sa[i]);
            i = i + 1;
            proof {
                assert(hits@ =~= sa@.subrange(lo as int, i as int));
            }
        }
    }
    hits
}

/// The rows of the suffixes that start with `query`: the rows between where
/// `query#` and `query}` would go, since `#` sorts below every symbol of a
/// text and `}` above. Also gives the comparisons of the two searches.
pub fn binary_search_wrapper(query: &str, sa: Vec<usize>, genome: &str) -> (r: (Vec<usize>, u32, u32))
    requires
        query@.len() < u32::MAX,
        sa@.len() <= u32::MAX,
        forall|k: int| 0 <= k < sa@.len() ==> (#[trigger] sa@[k]) <= genome@.len(),
    ensures
        ({
            let lo = plain_search(query@.push('#'), genome@, sa@, 0, sa@.len() as int, 0);
            let hi = plain_search(query@.push('}'), genome@, sa@, 0, sa@.len() as int, 0);
            &&& is_boundary(query@.push('#'), genome@, sa@, lo.0)
            &&& is_boundary(query@.push('}'), genome@, sa@, hi.0)
            &&& r.0@ == rows_in(sa@, lo.0, hi.0)
            &&& r.1 as int == lo.1
            &&& r.2 as int == hi.1
        }),
{
    let mut query_low = String::from_str(query);
    proof {
        reveal_strlit("#");
        reveal_strlit("}");
    }
    query_low.append("#");
    let mut query_up = String::from_str(query);
    query_up.append("}");
    proof {
        assert(query_low@ =~= query@.push('#'));
        assert(query_up@ =~= query@.push('}'));
    }
    let lower = binary_search(query_low.as_str(), sa.clone(), genome);
    let upper = binary_search(query_up.as_str(), sa.clone(), genome);
    let hits = rows_between(&sa, lower.0 as usize, upper.0 as usize);
    (hits, lower.1, upper.1)
}

} // verus!
