//! Backward search in an FM index, in exact and in partial mode.

use vstd::prelude::*;
use crate::text::chars_of;
use crate::fm_index::{
    FMindex, SENTINEL, bwt_symbol, column_of, is_base, occ, occurrences, symbol_of,
    lemma_occurrences_bound, lemma_permutation_facts,
};

verus! {

/// How far a backward search goes.
pub enum SearchMode {
    /// Match the whole query, or nothing.
    Exact,
    /// Match the longest suffix of the query that keeps more than one row.
    Partial,
}

/// A query of a search, with what the search found.
pub struct FMQ {
    pub header: String,
    pub query: String,
    pub match_len: u32,
    pub hits: Vec<usize>,
}

/// The first row of the block of rows whose suffixes start with the symbol
/// that tally column `k` counts.
pub open spec fn block_start(fm: &FMindex, k: int) -> int
    decreases k,
{
    if k <= 0 {
        0
    } else {
        block_start(fm, k - 1) + fm.first_column@[k - 1]
    }
}

/// How many times base `c` occurs in the transform above row `r`.
pub open spec fn rank(fm: &FMindex, c: char, r: int) -> int {
    if r <= 0 {
        0
    } else {
        fm.tally@[r - 1]@[column_of(c)] as int
    }
}

/// The rows of the suffixes that start with the single symbol `c`.
pub open spec fn initial_interval(fm: &FMindex, c: char) -> (int, int) {
    if is_base(c) {
        (block_start(fm, column_of(c)), block_start(fm, column_of(c) + 1))
    } else {
        (0, 0)
    }
}

/// The rows of the suffixes that start with `c` followed by what the rows
/// `iv.0..iv.1` start with.
pub open spec fn step_interval(fm: &FMindex, c: char, iv: (int, int)) -> (int, int) {
    if is_base(c) {
        (block_start(fm, column_of(c)) + rank(fm, c, iv.0), block_start(fm, column_of(c)) + rank(
            fm,
            c,
            iv.1,
        ))
    } else {
        (0, 0)
    }
}

/// The interval that backward search reaches for the suffix `q[k..]` of a
/// non-empty query.
pub open spec fn interval(fm: &FMindex, q: Seq<char>, k: int) -> (int, int)
    decreases q.len() - k,
{
    if k >= q.len() - 1 {
        initial_interval(fm, q.last())
    } else {
        step_interval(fm, q[k], interval(fm, q, k + 1))
    }
}

/// Holds more than one row.
pub open spec fn wide(iv: (int, int)) -> bool {
    iv.1 - iv.0 > 1
}

/// Where partial search stops once it has matched `q[k..]`: it goes on while
/// the next symbol leaves more than one row.
pub open spec fn partial_from(fm: &FMindex, q: Seq<char>, k: int) -> int
    decreases k,
{
    if k <= 0 {
        0
    } else if !wide(step_interval(fm, q[k - 1], interval(fm, q, k))) {
        k
    } else {
        partial_from(fm, q, k - 1)
    }
}

/// The start of the suffix of a non-empty query that partial search matches.
pub open spec fn partial_start(fm: &FMindex, q: Seq<char>) -> int {
    partial_from(fm, q, q.len() - 1)
}

/// The suffix array entries of the rows `iv.0..iv.1`, none if it is empty.
pub open spec fn rows_of(fm: &FMindex, iv: (int, int)) -> Seq<usize> {
    if iv.0 < iv.1 {
        fm.sa@.subrange(iv.0, iv.1)
    } else {
        Seq::empty()
    }
}

/// What a search of `q` in `mode` finds: the positions of the rows it ends
/// on, and how many symbols of the query it matched.
pub open spec fn search_result(fm: &FMindex, q: Seq<char>, mode: SearchMode) -> (Seq<usize>, int) {
    if q.len() == 0 {
        (Seq::empty(), 0)
    } else {
        match mode {
            SearchMode::Exact => {
                let iv = interval(fm, q, 0);
                if iv.0 < iv.1 {
                    (rows_of(fm, iv), q.len() as int)
                } else {
                    (Seq::empty(), 0)
                }
            },
            SearchMode::Partial => {
                let s = partial_start(fm, q);
                (rows_of(fm, interval(fm, q, s)), q.len() - s)
            },
        }
    }
}

/// Partial search stops within the query.
pub proof fn lemma_partial_from_bounds(fm: &FMindex, q: Seq<char>, k: int)
    requires
        k >= 0,
    ensures
        0 <= partial_from(fm, q, k) <= k,
    decreases k,
{
    if k > 0 {
        lemma_partial_from_bounds(fm, q, k - 1);
    }
}

/// Counting in a prefix never gives more than counting in the whole.
proof fn lemma_occurrences_prefix(s: Seq<char>, i: int, c: char)
    requires
        0 <= i <= s.len(),
    ensures
        occurrences(s.take(i), c) <= occurrences(s, c),
    decreases s.len() - i,
{
    if i < s.len() {
        crate::fm_index::lemma_occurrences_step(s, i, c);
        lemma_occurrences_prefix(s, i + 1, c);
    } else {
        assert(s.take(i) =~= s);
    }
}

/// The five symbol counts of a sequence over the sentinel and the bases add
/// up to its length.
proof fn lemma_occurrences_total(s: Seq<char>)
    requires
        forall|i: int| 0 <= i < s.len() ==> is_base(#[trigger] s[i]) || s[i] == SENTINEL,
    ensures
        occurrences(s, symbol_of(0)) + occurrences(s, symbol_of(1)) + occurrences(s, symbol_of(2))
            + occurrences(s, symbol_of(3)) + occurrences(s, symbol_of(4)) == s.len(),
    decreases s.len(),
{
    if s.len() > 0 {
        lemma_occurrences_total(s.drop_last());
        assert(is_base(s[s.len() - 1]) || s[s.len() - 1] == SENTINEL);
    }
}

/// The blocks of the first column end at the last row, and every rank stays
/// inside its symbol's block.
proof fn lemma_block_bounds(fm: &FMindex)
    requires
        fm.wf(),
    ensures
        block_start(fm, 5) == fm.rows(),
        forall|k: int| 0 <= k < 5 ==> block_start(fm, k) <= #[trigger] block_start(fm, k + 1),
        forall|c: char, r: int|
            is_base(c) && 0 <= r <= fm.rows() ==> 0 <= #[trigger] rank(fm, c, r)
                <= fm.first_column@[column_of(c)],
{
    let t = fm.genome@;
    let n = t.len() as int;
    lemma_permutation_facts(fm.sa@, n as nat);
    assert forall|i: int| 0 <= i < n implies is_base(#[trigger] fm.bwt@[i]) || fm.bwt@[i]
        == SENTINEL by {
        assert(fm.bwt@[i] == bwt_symbol(t, fm.sa@, i));
        if fm.sa@[i] != 0 {
            assert((fm.sa@[i] as int) < n);
            assert(is_base(t[fm.sa@[i] - 1]));
        }
    }
    lemma_occurrences_total(fm.bwt@);
    assert(fm.first_column@[0] as nat == occurrences(fm.bwt@, symbol_of(0)));
    assert(fm.first_column@[1] as nat == occurrences(fm.bwt@, symbol_of(1)));
    assert(fm.first_column@[2] as nat == occurrences(fm.bwt@, symbol_of(2)));
    assert(fm.first_column@[3] as nat == occurrences(fm.bwt@, symbol_of(3)));
    assert(fm.first_column@[4] as nat == occurrences(fm.bwt@, symbol_of(4)));
    assert(block_start(fm, 5) == fm.rows()) by {
        reveal_with_fuel(block_start, 6);
    }
    assert forall|k: int| 0 <= k < 5 implies block_start(fm, k) <= #[trigger] block_start(
        fm,
        k + 1,
    ) by {}
    assert forall|c: char, r: int| is_base(c) && 0 <= r <= fm.rows() implies 0 <= #[trigger] rank(
        fm,
        c,
        r,
    ) <= fm.first_column@[column_of(c)] by {
        if r > 0 {
            let k = column_of(c);
            assert(symbol_of(k) == c);
            assert(fm.tally@[r - 1]@[k] as nat == occurrences(fm.bwt@.take(r), symbol_of(k)));
            lemma_occurrences_prefix(fm.bwt@, r, c);
        }
    }
}

/// Every interval of a search lies within the rows of the index.
pub proof fn lemma_interval_bounds(fm: &FMindex, q: Seq<char>, k: int)
    requires
        fm.wf(),
        q.len() > 0,
        0 <= k < q.len(),
    ensures
        0 <= interval(fm, q, k).0 <= fm.rows(),
        0 <= interval(fm, q, k).1 <= fm.rows(),
    decreases q.len() - k,
{
    lemma_block_bounds(fm);
    assert(block_start(fm, 0) <= block_start(fm, 1));
    assert(block_start(fm, 1) <= block_start(fm, 2));
    assert(block_start(fm, 2) <= block_start(fm, 3));
    assert(block_start(fm, 3) <= block_start(fm, 4));
    assert(block_start(fm, 4) <= block_start(fm, 5));
    if k < q.len() - 1 {
        lemma_interval_bounds(fm, q, k + 1);
        let c = q[k];
        if is_base(c) {
            let iv = interval(fm, q, k + 1);
            assert(rank(fm, c, iv.0) <= fm.first_column@[column_of(c)]);
            assert(rank(fm, c, iv.1) <= fm.first_column@[column_of(c)]);
        }
    }
}

/// The positions that a search reports are distinct.
pub proof fn lemma_search_hits_distinct(fm: &FMindex, q: Seq<char>, mode: SearchMode)
    requires
        fm.wf(),
    ensures
        search_result(fm, q, mode).0.no_duplicates(),
{
    if q.len() > 0 {
        lemma_permutation_facts(fm.sa@, fm.rows() as nat);
        lemma_partial_from_bounds(fm, q, q.len() - 1);
        let k = match mode {
            SearchMode::Exact => 0,
            SearchMode::Partial => partial_start(fm, q),
        };
        lemma_interval_bounds(fm, q, k);
        let iv = interval(fm, q, k);
        let r = search_result(fm, q, mode).0;
        if iv.0 < iv.1 {
            assert forall|a: int, c: int| 0 <= a < r.len() && 0 <= c < r.len() && a != c implies r[a]
                != r[c] by {
                assert(r[a] == fm.sa@[iv.0 + a]);
                assert(r[c] == fm.sa@[iv.0 + c]);
            }
        }
    }
}

/// The first row of the block of symbol column `k`.
fn block_start_at(fm: &FMindex, k: usize) -> (r: usize)
    requires
        fm.wf(),
        k <= 5,
    ensures
        r as int == block_start(fm, k as int),
        r <= fm.rows(),
{
    proof {
        lemma_block_bounds(fm);
        assert(block_start(fm, 0) <= block_start(fm, 1));
        assert(block_start(fm, 1) <= block_start(fm, 2));
        assert(block_start(fm, 2) <= block_start(fm, 3));
        assert(block_start(fm, 3) <= block_start(fm, 4));
        assert(block_start(fm, 4) <= block_start(fm, 5));
    }
    let mut sum: usize = 0;
    let mut i: usize = 0;
    while i < k
        invariant
            fm.wf(),
            i <= k <= 5,
            sum as int == block_start(fm, i as int),
            block_start(fm, k as int) <= fm.rows(),
            forall|j: int| 0 <= j < 5 ==> block_start(fm, j) <= #[trigger] block_start(fm, j + 1),
        decreases k - i,
    {
        proof {
            assert(block_start(fm, i as int) <= block_start(fm, i + 1));
            if i + 1 < k {
                assert(block_start(fm, i + 1) <= block_start(fm, i + 2));
            }
            if i + 2 < k {
                assert(block_start(fm, i + 2) <= block_start(fm, i + 3));
            }
            if i + 3 < k {
                assert(block_start(fm, i + 3) <= block_start(fm, i + 4));
            }
            if i + 4 < k {
                assert(block_start(fm, i + 4) <= block_start(fm, i + 5));
            }
        }
        sum = sum + fm.first_column[i] as usize;
        i = i + 1;
    }
    sum
}

/// The column of the tally that counts `c`.
fn column_at(c: char) -> (k: usize)
    ensures
        k as int == column_of(c),
{
    if c == 'A' {
        1
    } else if c == 'C' {
        2
    } else if c == 'G' {
        3
    } else if c == 'T' {
        4
    } else {
        0
    }
}

/// The rows of the suffixes that start with `c`.
fn initial_rows(fm: &FMindex, c: char) -> (iv: (usize, usize))
    requires
        fm.wf(),
    ensures
        (iv.0 as int, iv.1 as int) == initial_interval(fm, c),
        iv.0 <= fm.rows(),
        iv.1 <= fm.rows(),
{
    if is_base_char(c) {
        let k = column_at(c);
        (block_start_at(fm, k), block_start_at(fm, k + 1))
    } else {
        (0, 0)
    }
}

/// Narrows the rows `lo..hi` to those whose suffixes are preceded by `c`.
fn step_rows(fm: &FMindex, c: char, lo: usize, hi: usize) -> (iv: (usize, usize))
    requires
        fm.wf(),
        lo <= fm.rows(),
        hi <= fm.rows(),
    ensures
        (iv.0 as int, iv.1 as int) == step_interval(fm, c, (lo as int, hi as int)),
        iv.0 <= fm.rows(),
        iv.1 <= fm.rows(),
{
    if is_base_char(c) {
        proof {
            lemma_block_bounds(fm);
            assert(block_start(fm, column_of(c) + 1) == block_start(fm, column_of(c))
                + fm.first_column@[column_of(c)]);
            assert(block_start(fm, column_of(c) + 1) <= block_start(fm, 5)) by {
                assert(block_start(fm, 4) <= block_start(fm, 5));
                assert(block_start(fm, 3) <= block_start(fm, 4));
                assert(block_start(fm, 2) <= block_start(fm, 3));
            }
        }
        let k = column_at(c);
        let start = block_start_at(fm, k);
        let r_lo: usize = if lo == 0 {
            0
        } else {
            occ(lo - 1, c, &fm.tally) as usize
        };
        let r_hi: usize = if hi == 0 {
            0
        } else {
            occ(hi - 1, c, &fm.tally) as usize
        };
        proof {
            assert(r_lo as int == rank(fm, c, lo as int));
            assert(r_hi as int == rank(fm, c, hi as int));
        }
        (start + r_lo, start + r_hi)
    } else {
        (0, 0)
    }
}

/// Whether `c` is one of the four bases.
pub fn is_base_char(c: char) -> (b: bool)
    ensures
        b == is_base(c),
{
    c == 'A' || c == 'C' || c == 'G' || c == 'T'
}

/// Backward search of `query` in the index: the positions where the matched
/// part of the query occurs, and the length of that part.
pub fn backward_search(query: &Vec<char>, fm_struct: &FMindex, mode: SearchMode) -> (r: (
    Vec<usize>,
    u32,
))
    requires
        fm_struct.wf(),
        query@.len() <= u32::MAX,
    ensures
        r.0@ == search_result(fm_struct, query@, mode).0,
        r.1 as int == search_result(fm_struct, query@, mode).1,
{
    let fm = fm_struct;
    let len = query.len();
    if len == 0 {
        return (Vec::new(), 0);
    }
    let ghost q = query@;
    let partial = match mode {
        SearchMode::Exact => false,
        SearchMode::Partial => true,
    };
    let iv0 = initial_rows(fm, query[len - 1]);
    let mut lo = iv0.0;
    let mut hi = iv0.1;
    let mut k: usize = len - 1;
    while k > 0
        invariant
            fm.wf(),
            q == query@,
            len == q.len(),
            k < len,
            (lo as int, hi as int) == interval(fm, q, k as int),
            lo <= fm.rows(),
            hi <= fm.rows(),
            partial ==> partial_start(fm, q) == partial_from(fm, q, k as int),
        ensures
            k < len,
            (lo as int, hi as int) == interval(fm, q, k as int),
            lo <= fm.rows(),
            hi <= fm.rows(),
            partial ==> partial_start(fm, q) == k,
            !partial ==> k == 0,
        decreases k,
    {
        let next = step_rows(fm, query[k - 1], lo, hi);
        if partial && !(next.1 > next.0 + 1) {
            proof {
                assert(!wide(step_interval(fm, q[k - 1], interval(fm, q, k as int))));
                assert(partial_from(fm, q, k as int) == k);
            }
            break;
        }
        k = k - 1;
        lo = next.0;
        hi = next.1;
    }
    proof {
        lemma_permutation_facts(fm.sa@, fm.rows() as nat);
    }
    let mut hits: Vec<usize> = Vec::new();
    if lo < hi {
        let mut row = lo;
        while row < hi
            invariant
                fm.wf(),
                lo <= row <= hi <= fm.rows(),
                hits@ == fm.sa@.subrange(lo as int, row as int),
            decreases hi - row,
        {
            hits.push(fm.sa[row]);
            row = row + 1;
            proof {
                assert(hits@ =~= fm.sa@.subrange(lo as int, row as int));
            }
        }
    }
    if partial {
        (hits, (len - k) as u32)
    } else if lo < hi {
        (hits, len as u32)
    } else {
        (hits, 0)
    }
}

/// Partial search: the positions of the longest suffix of `query` that
/// still leaves more than one row, and its length.
pub fn partial_search(query: &str, fm_struct: &FMindex) -> (r: (Vec<usize>, u32))
    requires
        fm_struct.wf(),
        query@.len() <= u32::MAX,
    ensures
        r.0@ == search_result(fm_struct, query@, SearchMode::Partial).0,
        r.1 as int == search_result(fm_struct, query@, SearchMode::Partial).1,
        query@.len() > 0 ==> 1 <= r.1 <= query@.len(),
{
    let q = chars_of(query);
    proof {
        if q@.len() > 0 {
            lemma_partial_from_bounds(fm_struct, q@, q@.len() - 1);
        }
    }
    backward_search(&q, fm_struct, SearchMode::Partial)
}

/// Exact search: the positions where the whole of `query` occurs and its
/// length, or nothing and 0.
pub fn complete_search(query: &str, fm_struct: &FMindex) -> (r: (Vec<usize>, u32))
    requires
        fm_struct.wf(),
        query@.len() <= u32::MAX,
    ensures
        r.0@ == search_result(fm_struct, query@, SearchMode::Exact).0,
        r.1 as int == search_result(fm_struct, query@, SearchMode::Exact).1,
{
    let q = chars_of(query);
    backward_search(&q, fm_struct, SearchMode::Exact)
}

} // verus!
