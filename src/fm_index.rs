//! The FM index of a text: its suffix array, Burrows-Wheeler transform,
//! first-column counts and tally table.

use vstd::prelude::*;
use crate::text::chars_of;
use vstd::string::StrSliceExecFns;
use crate::suffix_array::{is_suffix_array, is_permutation, positions, distinct_positions, quick_sort};

verus! {

/// The sentinel that ends every indexed text; it sorts below every base.
pub const SENTINEL: char = '$';

/// One of the four bases `A`, `C`, `G`, `T`.
pub open spec fn is_base(c: char) -> bool {
    c == 'A' || c == 'C' || c == 'G' || c == 'T'
}

/// A text over the four bases followed by exactly one sentinel.
pub open spec fn valid_text(t: Seq<char>) -> bool {
    &&& t.len() >= 1
    &&& t.last() == SENTINEL
    &&& forall|i: int| 0 <= i < t.len() - 1 ==> is_base(#[trigger] t[i])
}

/// The symbol that column `k` of a tally row counts: sentinel, `A`, `C`, `G`, `T`.
pub open spec fn symbol_of(k: int) -> char {
    if k == 1 {
        'A'
    } else if k == 2 {
        'C'
    } else if k == 3 {
        'G'
    } else if k == 4 {
        'T'
    } else {
        SENTINEL
    }
}

/// The column of a tally row that counts `c`; anything but a base counts
/// with the sentinel.
pub open spec fn column_of(c: char) -> int {
    if c == 'A' {
        1
    } else if c == 'C' {
        2
    } else if c == 'G' {
        3
    } else if c == 'T' {
        4
    } else {
        0
    }
}

/// How many times `c` occurs in `s`.
pub open spec fn occurrences(s: Seq<char>, c: char) -> nat
    decreases s.len(),
{
    if s.len() == 0 {
        0
    } else {
        occurrences(s.drop_last(), c) + if s.last() == c {
            1nat
        } else {
            0nat
        }
    }
}

/// The symbol of the Burrows-Wheeler transform at row `i`: the one in front
/// of the suffix that the row starts, or the sentinel for the whole text.
pub open spec fn bwt_symbol(t: Seq<char>, sa: Seq<usize>, i: int) -> char {
    if sa[i] == 0 {
        SENTINEL
    } else {
        t[sa[i] - 1]
    }
}

/// The row of the suffix array that holds position `p`.
pub open spec fn row_of(sa: Seq<usize>, p: int) -> int {
    choose|j: int| 0 <= j < sa.len() && sa[j] as int == p
}

/// The position after `i` in a cyclic text of length `n`.
pub open spec fn next_pos(i: int, n: int) -> int {
    if i + 1 == n {
        0
    } else {
        i + 1
    }
}

/// The position before `p` in a cyclic text of length `n`.
pub open spec fn prev_pos(p: int, n: int) -> int {
    if p == 0 {
        n - 1
    } else {
        p - 1
    }
}

/// The text read back from a Burrows-Wheeler transform and its suffix array:
/// symbol `i` is the transform's symbol in the row of position `i + 1`
/// (of position 0 for the last symbol).
pub open spec fn inverted_text(bwt: Seq<char>, sa: Seq<usize>) -> Seq<char> {
    Seq::new(bwt.len(), |i: int| bwt[row_of(sa, next_pos(i, bwt.len() as int))])
}

/// A full-text index of a reference sequence.
pub struct FMindex {
    /// The indexed text, sentinel included.
    pub genome: Vec<char>,
    /// The Burrows-Wheeler transform of the text.
    pub bwt: Vec<char>,
    /// The suffix array of the text.
    pub sa: Vec<usize>,
    /// How often each symbol occurs: sentinel, `A`, `C`, `G`, `T`.
    pub first_column: Vec<u32>,
    /// Row `i` counts each symbol in `bwt[0..=i]`, in the order of `first_column`.
    pub tally: Vec<Vec<u32>>,
}

impl FMindex {
    /// The number of rows, which is the length of the text.
    pub open spec fn rows(&self) -> int {
        self.genome@.len() as int
    }

    /// The parts of the index agree with each other and with the text.
    pub open spec fn wf(&self) -> bool {
        let t = self.genome@;
        let n = t.len() as int;
        &&& valid_text(t)
        &&& n < u32::MAX
        &&& is_suffix_array(t, self.sa@)
        &&& self.bwt@.len() == n
        &&& forall|i: int| 0 <= i < n ==> #[trigger] self.bwt@[i] == bwt_symbol(t, self.sa@, i)
        &&& self.first_column@.len() == 5
        &&& forall|k: int|
            0 <= k < 5 ==> #[trigger] self.first_column@[k] as nat == occurrences(
                self.bwt@,
                symbol_of(k),
            )
        &&& self.tally@.len() == n
        &&& forall|i: int| 0 <= i < n ==> (#[trigger] self.tally@[i])@.len() == 5
        &&& forall|i: int, k: int|
            0 <= i < n && 0 <= k < 5 ==> #[trigger] self.tally@[i]@[k] as nat == occurrences(
                self.bwt@.take(i + 1),
                symbol_of(k),
            )
    }
}

/// A permutation of `0..n` holds every position once.
pub proof fn lemma_permutation_facts(sa: Seq<usize>, n: nat)
    requires
        is_permutation(sa, n),
        n <= usize::MAX,
    ensures
        sa.len() == n,
        distinct_positions(sa, n),
        forall|p: int| 0 <= p < n ==> #[trigger] sa.contains(p as usize),
{
    let ps = positions(n);
    sa.to_multiset_ensures();
    ps.to_multiset_ensures();
    assert(ps.no_duplicates());
    ps.lemma_multiset_has_no_duplicates();
    assert forall|x: usize| sa.to_multiset().contains(x) implies sa.to_multiset().count(x) == 1 by {
    }
    sa.lemma_multiset_has_no_duplicates_conv();
    assert forall|k: int| 0 <= k < sa.len() implies (#[trigger] sa[k] as int) < n by {
        assert(sa.contains(sa[k]));
        assert(sa.to_multiset().count(sa[k]) > 0);
        assert(ps.to_multiset().count(sa[k]) > 0);
        assert(ps.contains(sa[k]));
        let j = choose|j: int| 0 <= j < ps.len() && ps[j] == sa[k];
        assert(ps[j] == j as usize);
    }
    assert forall|p: int| 0 <= p < n implies #[trigger] sa.contains(p as usize) by {
        assert(ps[p] == p as usize);
        assert(ps.contains(p as usize));
        assert(ps.to_multiset().count(p as usize) > 0);
        assert(sa.to_multiset().count(p as usize) > 0);
    }
}

/// The suffix array of `reads`: its positions ordered by the suffixes that
/// start there.
pub fn build_suffix_array(reads: &str) -> (sa: Vec<usize>)
    ensures
        is_suffix_array(reads@, sa@),
{
    let n = reads.unicode_len();
    let mut sa: Vec<usize> = Vec::new();
    let mut i: usize = 0;
    while i < n
        invariant
            i <= n,
            n == reads@.len(),
            sa@ == positions(i as nat),
        decreases n - i,
    {
        sa.push(i);
        i = i + 1;
        proof {
            assert(sa@ =~= positions(i as nat));
        }
    }
    proof {
        assert(distinct_positions(sa@, n as nat));
    }
    let ghost before = sa@;
    quick_sort::<usize>(&mut sa, reads);
    proof {
        before.to_multiset_ensures();
        sa@.to_multiset_ensures();
    }
    sa
}

/// Counting in a prefix one symbol longer adds that symbol.
pub proof fn lemma_occurrences_step(s: Seq<char>, i: int, c: char)
    requires
        0 <= i < s.len(),
    ensures
        occurrences(s.take(i + 1), c) == occurrences(s.take(i), c) + if s[i] == c {
            1nat
        } else {
            0nat
        },
{
    assert(s.take(i + 1).drop_last() =~= s.take(i));
}

/// A symbol occurs at most as often as the sequence is long.
pub proof fn lemma_occurrences_bound(s: Seq<char>, c: char)
    ensures
        occurrences(s, c) <= s.len(),
    decreases s.len(),
{
    if s.len() > 0 {
        lemma_occurrences_bound(s.drop_last(), c);
    }
}

/// Whether `t` is a text over the four bases followed by one sentinel.
pub fn is_valid_text(t: &Vec<char>) -> (b: bool)
    ensures
        b == valid_text(t@),
{
    let n = t.len();
    if n == 0 || t[n - 1] != SENTINEL {
        return false;
    }
    let mut i: usize = 0;
    while i < n - 1
        invariant
            n == t.len(),
            n >= 1,
            i <= n - 1,
            forall|k: int| 0 <= k < i ==> is_base(#[trigger] t@[k]),
        decreases n - i,
    {
        let c = t[i];
        if !(c == 'A' || c == 'C' || c == 'G' || c == 'T') {
            return false;
        }
        i = i + 1;
    }
    true
}

/// Builds the index of `genome`, a text over the four bases that ends in the
/// sentinel. Gives `None` for any other text, and for one too long for the
/// 32-bit counts of the tally.
pub fn build_fm_index(genome: &str) -> (r: Option<FMindex>)
    ensures
        r is Some <==> valid_text(genome@) && genome@.len() < u32::MAX,
        r matches Some(fm) ==> fm.wf() && fm.genome@ == genome@,
{
    let t = chars_of(genome);
    if !is_valid_text(&t) || t.len() >= 4294967295 {
        return None;
    }
    let n = t.len();
    let sa = build_suffix_array(genome);
    proof {
        lemma_permutation_facts(sa@, n as nat);
    }
    let mut bwt: Vec<char> = Vec::new();
    let mut tally: Vec<Vec<u32>> = Vec::new();
    let mut c0: u32 = 0;
    let mut c1: u32 = 0;
    let mut c2: u32 = 0;
    let mut c3: u32 = 0;
    let mut c4: u32 = 0;
    let mut i: usize = 0;
    while i < n
        invariant
            i <= n,
            n == t@.len(),
            n < u32::MAX,
            t@ == genome@,
            valid_text(t@),
            is_suffix_array(t@, sa@),
            distinct_positions(sa@, n as nat),
            bwt@.len() == i,
            forall|j: int| 0 <= j < i ==> #[trigger] bwt@[j] == bwt_symbol(t@, sa@, j),
            tally@.len() == i,
            forall|j: int| 0 <= j < i ==> (#[trigger] tally@[j])@.len() == 5,
            forall|j: int, k: int|
                0 <= j < i && 0 <= k < 5 ==> #[trigger] tally@[j]@[k] as nat == occurrences(
                    bwt@.take(j + 1),
                    symbol_of(k),
                ),
            c0 as nat == occurrences(bwt@, symbol_of(0)),
            c1 as nat == occurrences(bwt@, symbol_of(1)),
            c2 as nat == occurrences(bwt@, symbol_of(2)),
            c3 as nat == occurrences(bwt@, symbol_of(3)),
            c4 as nat == occurrences(bwt@, symbol_of(4)),
        decreases n - i,
    {
        let p = sa[i];
        let c = if p == 0 {
            SENTINEL
        } else {
            t[p - 1]
        };
        let ghost prev = bwt@;
        bwt.push(c);
        proof {
            assert(bwt@.take(i as int) =~= prev);
            assert(bwt@.take(i + 1) =~= bwt@);
            assert forall|k: int| 0 <= k < 5 implies occurrences(bwt@, symbol_of(k)) == occurrences(
                prev,
                symbol_of(k),
            ) + if c == symbol_of(k) {
                1nat
            } else {
                0nat
            } by {
                lemma_occurrences_step(bwt@, i as int, symbol_of(k));
            }
            lemma_occurrences_bound(prev, symbol_of(0));
            lemma_occurrences_bound(prev, symbol_of(1));
            lemma_occurrences_bound(prev, symbol_of(2));
            lemma_occurrences_bound(prev, symbol_of(3));
            lemma_occurrences_bound(prev, symbol_of(4));
            assert forall|j: int| 0 <= j < i implies #[trigger] bwt@.take(j + 1) =~= prev.take(
                j + 1,
            ) by {}
        }
        if c == 'A' {
            c1 = c1 + 1;
        } else if c == 'C' {
            c2 = c2 + 1;
        } else if c == 'G' {
            c3 = c3 + 1;
        } else if c == 'T' {
            c4 = c4 + 1;
        } else {
            c0 = c0 + 1;
        }
        tally.push(vec![c0, c1, c2, c3, c4]);
        i = i + 1;
    }
    let first_column = vec![c0, c1, c2, c3, c4];
    Some(FMindex { genome: t, bwt, sa, first_column, tally })
}

/// The count of `ch` in a tally row: the row's column for a base, and 0 for
/// any other symbol.
pub fn occ(row: usize, ch: char, tally: &Vec<Vec<u32>>) -> (r: u32)
    requires
        row < tally.len(),
        tally@[row as int]@.len() == 5,
    ensures
        r == if is_base(ch) {
            tally@[row as int]@[column_of(ch)]
        } else {
            0
        },
{
    if ch == 'A' {
        tally[row][1]
    } else if ch == 'C' {
        tally[row][2]
    } else if ch == 'G' {
        tally[row][3]
    } else if ch == 'T' {
        tally[row][4]
    } else {
        0
    }
}

/// Splits off the first character of `s`; `None` for the empty string.
pub fn split_first_char(s: &str) -> (r: Option<(char, &str)>)
    ensures
        r is None <==> s@.len() == 0,
        r matches Some((c, rest)) ==> c == s@[0] && rest@ == s@.drop_first(),
{
    let n = s.unicode_len();
    if n == 0 {
        None
    } else {
        let c = s.get_char(0);
        let rest = s.substring_char(1, n);
        proof {
            assert(rest@ =~= s@.drop_first());
        }
        Some((c, rest))
    }
}

/// Reads the text back from its Burrows-Wheeler transform and suffix array:
/// the symbol in row `j` is the one in front of position `sa[j]`.
pub fn invert_bwt(bwt: &Vec<char>, sa: &Vec<usize>) -> (r: Vec<char>)
    requires
        bwt.len() == sa.len(),
        is_permutation(sa@, sa.len() as nat),
    ensures
        r@ == inverted_text(bwt@, sa@),
{
    let n = sa.len();
    proof {
        lemma_permutation_facts(sa@, n as nat);
    }
    let mut r: Vec<char> = Vec::new();
    let mut i: usize = 0;
    while i < n
        invariant
            i <= n,
            n == sa.len(),
            n == bwt.len(),
            r@.len() == i,
        decreases n - i,
    {
        r.push(SENTINEL);
        i = i + 1;
    }
    let mut j: usize = 0;
    while j < n
        invariant
            j <= n,
            n == sa.len(),
            n == bwt.len(),
            r@.len() == n,
            distinct_positions(sa@, n as nat),
            forall|k: int| 0 <= k < j ==> r@[prev_pos(sa@[k] as int, n as int)] == #[trigger] bwt@[k],
        decreases n - j,
    {
        let p = sa[j];
        let dest = if p == 0 {
            n - 1
        } else {
            p - 1
        };
        proof {
            assert(dest as int == prev_pos(p as int, n as int));
            assert forall|k: int| 0 <= k < j implies prev_pos(sa@[k] as int, n as int) != dest by {
                assert(sa@[k] != sa@[j as int]);
            }
        }
        r.set(dest, bwt[j]);
        j = j + 1;
    }
    proof {
        assert forall|i: int| 0 <= i < n implies r@[i] == #[trigger] inverted_text(bwt@, sa@)[i] by {
            let p = next_pos(i, n as int);
            assert(sa@.contains(p as usize));
            let k = row_of(sa@, p);
            assert(0 <= k < n && sa@[k] as int == p);
            assert(prev_pos(sa@[k] as int, n as int) == i);
        }
        assert(r@ =~= inverted_text(bwt@, sa@));
    }
    r
}

/// Reading the text back from the transform and the suffix array of an
/// index gives the indexed text.
pub proof fn lemma_bwt_inversion(fm: &FMindex)
    requires
        fm.wf(),
    ensures
        inverted_text(fm.bwt@, fm.sa@) == fm.genome@,
{
    let t = fm.genome@;
    let sa = fm.sa@;
    let n = t.len() as int;
    lemma_permutation_facts(sa, n as nat);
    assert forall|i: int| 0 <= i < n implies #[trigger] inverted_text(fm.bwt@, sa)[i] == t[i] by {
        let p = next_pos(i, n);
        assert(sa.contains(p as usize));
        let k = row_of(sa, p);
        assert(0 <= k < n && sa[k] as int == p);
        assert(fm.bwt@[k] == bwt_symbol(t, sa, k));
    }
    assert(inverted_text(fm.bwt@, sa) =~= t);
}

} // verus!
