//! Dynamic-programming alignment of a query against a reference, globally or
//! fitting the whole query somewhere in the reference, with traceback into
//! an edit script.

use vstd::prelude::*;
use crate::text::chars_of;
use crate::cigar::{
    cigar_of, cigar_string, decimal, is_op, lemma_rle_spans, query_span, reference_span, render, rle,
    runs_query_span, runs_reference_span,
};

verus! {

/// Which cells an alignment may start and end in.
pub enum AlignMode {
    /// Both sequences aligned end to end.
    Global,
    /// The whole query, anywhere in the reference.
    Fitting,
}

/// An alignment problem and, once solved, its result.
pub struct QP {
    pub problem_name: String,
    pub query_x: String,
    pub query_y: String,
    pub score: i32,
    pub y_start: usize,
    pub y_end: usize,
    pub cigar: String,
}

/// The move into a cell from the diagonal: a query symbol against a
/// reference symbol.
pub const DIAG: u8 = 1;

/// The move into a cell from the row above: a query symbol against a gap.
pub const LEFT: u8 = 2;

/// The move into a cell from the column to the left: a reference symbol
/// against a gap.
pub const UP: u8 = 3;

/// The score of aligning `x[i - 1]` with `y[j - 1]`.
pub open spec fn pair_score(x: Seq<char>, y: Seq<char>, mis: int, i: int, j: int) -> int {
    if x[i - 1] == y[j - 1] {
        0
    } else {
        mis
    }
}

/// The best score of aligning `x[..i]` with `y[..j]`; in fitting mode a
/// prefix of `y` may be skipped for free.
pub open spec fn cell(x: Seq<char>, y: Seq<char>, mis: int, gap: int, global: bool, i: int, j: int) -> int
    decreases i + j,
{
    if i <= 0 {
        if global && j > 0 {
            j * gap
        } else {
            0
        }
    } else if j <= 0 {
        i * gap
    } else {
        let d = cell(x, y, mis, gap, global, i - 1, j - 1) + pair_score(x, y, mis, i, j);
        let l = cell(x, y, mis, gap, global, i - 1, j) + gap;
        let u = cell(x, y, mis, gap, global, i, j - 1) + gap;
        if d >= l && d >= u {
            d
        } else if l >= d && l >= u {
            l
        } else {
            u
        }
    }
}

/// The move chosen for an inner cell; ties go to the diagonal, then to the
/// query gap.
pub open spec fn choice(x: Seq<char>, y: Seq<char>, mis: int, gap: int, global: bool, i: int, j: int) -> u8 {
    let d = cell(x, y, mis, gap, global, i - 1, j - 1) + pair_score(x, y, mis, i, j);
    let l = cell(x, y, mis, gap, global, i - 1, j) + gap;
    let u = cell(x, y, mis, gap, global, i, j - 1) + gap;
    if d >= l && d >= u {
        DIAG
    } else if l >= d && l >= u {
        LEFT
    } else {
        UP
    }
}

/// The edit operations that the traceback from cell `(i, j)` gives, in
/// order from the start of the alignment.
pub open spec fn trace(x: Seq<char>, y: Seq<char>, mis: int, gap: int, global: bool, i: int, j: int) -> Seq<char>
    decreases i + j,
{
    if i <= 0 || j <= 0 {
        if i > 0 {
            Seq::new(i as nat, |k: int| 'I')
        } else if global && j > 0 {
            Seq::new(j as nat, |k: int| 'D')
        } else {
            Seq::empty()
        }
    } else {
        let c = choice(x, y, mis, gap, global, i, j);
        if c == DIAG {
            trace(x, y, mis, gap, global, i - 1, j - 1).push(
                if x[i - 1] == y[j - 1] {
                    '='
                } else {
                    'X'
                },
            )
        } else if c == LEFT {
            trace(x, y, mis, gap, global, i - 1, j).push('I')
        } else {
            trace(x, y, mis, gap, global, i, j - 1).push('D')
        }
    }
}

/// The column where the traceback from `(i, j)` leaves the inner cells.
pub open spec fn trace_column(x: Seq<char>, y: Seq<char>, mis: int, gap: int, global: bool, i: int, j: int) -> int
    decreases i + j,
{
    if i <= 0 || j <= 0 {
        j
    } else {
        let c = choice(x, y, mis, gap, global, i, j);
        if c == DIAG {
            trace_column(x, y, mis, gap, global, i - 1, j - 1)
        } else if c == LEFT {
            trace_column(x, y, mis, gap, global, i - 1, j)
        } else {
            trace_column(x, y, mis, gap, global, i, j - 1)
        }
    }
}

/// The first column among `1..=k` with the best score in the last row.
pub open spec fn best_column(x: Seq<char>, y: Seq<char>, mis: int, gap: int, k: int) -> int
    decreases k,
{
    if k <= 1 {
        1
    } else {
        let b = best_column(x, y, mis, gap, k - 1);
        if cell(x, y, mis, gap, false, x.len() as int, k) > cell(x, y, mis, gap, false, x.len() as int, b) {
            k
        } else {
            b
        }
    }
}

/// The column where the optimal alignment ends.
pub open spec fn end_column(x: Seq<char>, y: Seq<char>, mis: int, gap: int, global: bool) -> int {
    if global {
        y.len() as int
    } else if y.len() == 0 {
        0
    } else {
        best_column(x, y, mis, gap, y.len() as int)
    }
}

/// The result of aligning `x` against `y`: the optimal score, the columns
/// where the alignment starts and ends in `y`, and its CIGAR text.
pub open spec fn alignment(x: Seq<char>, y: Seq<char>, mis: int, gap: int, global: bool) -> (int, int, int, Seq<char>) {
    let m = x.len() as int;
    let e = end_column(x, y, mis, gap, global);
    (
        cell(x, y, mis, gap, global, m, e),
        if global {
            0
        } else {
            trace_column(x, y, mis, gap, global, m, e)
        },
        e,
        cigar_of(trace(x, y, mis, gap, global, m, e)),
    )
}

/// The absolute value of `v`.
pub open spec fn abs(v: int) -> int {
    if v < 0 {
        -v
    } else {
        v
    }
}

/// Every score of the matrix fits in an `i32`.
pub open spec fn scores_fit(m: int, n: int, mis: int, gap: int) -> bool {
    (m + n) * (abs(mis) + abs(gap)) <= i32::MAX
}

/// A score is bounded by the number of steps that lead to its cell.
pub proof fn lemma_cell_bound(x: Seq<char>, y: Seq<char>, mis: int, gap: int, global: bool, i: int, j: int)
    requires
        0 <= i <= x.len(),
        0 <= j <= y.len(),
    ensures
        abs(cell(x, y, mis, gap, global, i, j)) <= (i + j) * (abs(mis) + abs(gap)),
    decreases i + j,
{
    let b = abs(mis) + abs(gap);
    if i == 0 {
        assert(abs(j * gap) <= j * b) by (nonlinear_arith)
            requires
                b == abs(mis) + abs(gap),
                j >= 0,
        ;
    } else if j == 0 {
        assert(abs(i * gap) <= i * b) by (nonlinear_arith)
            requires
                b == abs(mis) + abs(gap),
                i >= 0,
        ;
    } else {
        lemma_cell_bound(x, y, mis, gap, global, i - 1, j - 1);
        lemma_cell_bound(x, y, mis, gap, global, i - 1, j);
        lemma_cell_bound(x, y, mis, gap, global, i, j - 1);
        assert((i - 1 + j - 1) * b + abs(mis) <= (i + j) * b) by (nonlinear_arith)
            requires
                b == abs(mis) + abs(gap),
                i >= 1,
                j >= 1,
        ;
        assert((i - 1 + j) * b + abs(gap) <= (i + j) * b) by (nonlinear_arith)
            requires
                b == abs(mis) + abs(gap),
        ;
        assert((i + j - 1) * b + abs(gap) <= (i + j) * b) by (nonlinear_arith)
            requires
                b == abs(mis) + abs(gap),
        ;
    }
}

/// Bounds on scores within the matrix follow from the bound on its corner.
pub proof fn lemma_fit_monotone(m: int, n: int, i: int, j: int, mis: int, gap: int)
    requires
        0 <= i <= m,
        0 <= j <= n,
        scores_fit(m, n, mis, gap),
    ensures
        (i + j) * (abs(mis) + abs(gap)) <= i32::MAX,
{
    assert((i + j) * (abs(mis) + abs(gap)) <= (m + n) * (abs(mis) + abs(gap))) by (nonlinear_arith)
        requires
            0 <= i <= m,
            0 <= j <= n,
            abs(mis) + abs(gap) >= 0,
    ;
}

/// The bounds that an inner cell's three candidates need.
proof fn lemma_step_bounds(i: int, j: int, mis: int, gap: int)
    requires
        i >= 1,
        j >= 1,
    ensures
        (i - 1 + j - 1) * (abs(mis) + abs(gap)) + abs(mis) <= (i + j) * (abs(mis) + abs(gap)),
        (i - 1 + j) * (abs(mis) + abs(gap)) + abs(gap) <= (i + j) * (abs(mis) + abs(gap)),
        (i + j - 1) * (abs(mis) + abs(gap)) + abs(gap) <= (i + j) * (abs(mis) + abs(gap)),
{
    let b = abs(mis) + abs(gap);
    assert((i - 1 + j - 1) * b + abs(mis) <= (i + j) * b) by (nonlinear_arith)
        requires
            b == abs(mis) + abs(gap),
            i >= 1,
            j >= 1,
    ;
    assert((i - 1 + j) * b + abs(gap) <= (i + j) * b) by (nonlinear_arith)
        requires
            b == abs(mis) + abs(gap),
    ;
    assert((i + j - 1) * b + abs(gap) <= (i + j) * b) by (nonlinear_arith)
        requires
            b == abs(mis) + abs(gap),
    ;
}

/// The score matrix: entry `(i, j)` holds the best score of cell `(i, j)`
/// and, for an inner cell, the move into it.
fn fill_matrix(x: &Vec<char>, y: &Vec<char>, mis: i32, gap: i32, global: bool) -> (matrix: Vec<
    Vec<(i32, u8)>,
>)
    requires
        scores_fit(x@.len() as int, y@.len() as int, mis as int, gap as int),
    ensures
        matrix@.len() == x@.len() + 1,
        forall|i: int| 0 <= i <= x@.len() ==> (#[trigger] matrix@[i])@.len() == y@.len() + 1,
        forall|i: int, j: int|
            0 <= i <= x@.len() && 0 <= j <= y@.len() ==> (#[trigger] matrix@[i]@[j]).0 == cell(
                x@,
                y@,
                mis as int,
                gap as int,
                global,
                i,
                j,
            ),
        forall|i: int, j: int|
            1 <= i <= x@.len() && 1 <= j <= y@.len() ==> (#[trigger] matrix@[i]@[j]).1 == choice(
                x@,
                y@,
                mis as int,
                gap as int,
                global,
                i,
                j,
            ),
{
    let ghost xs = x@;
    let ghost ys = y@;
    let ghost mi = mis as int;
    let ghost gi = gap as int;
    let m = x.len();
    let n = y.len();
    let mut matrix: Vec<Vec<(i32, u8)>> = Vec::new();
    let mut row0: Vec<(i32, u8)> = Vec::new();
    row0.push((0, 0));
    let mut acc: i32 = 0;
    let mut j: usize = 0;
    while j < n
        invariant
            j <= n,
            n == ys.len(),
            m == xs.len(),
            xs == x@,
            ys == y@,
            mi == mis as int,
            gi == gap as int,
            scores_fit(m as int, n as int, mi, gi),
            row0@.len() == j + 1,
            acc as int == cell(xs, ys, mi, gi, global, 0, j as int),
            forall|c: int| 0 <= c <= j ==> (#[trigger] row0@[c]).0 == cell(xs, ys, mi, gi, global, 0, c),
        decreases n - j,
    {
        proof {
            lemma_cell_bound(xs, ys, mi, gi, global, 0, j + 1);
            lemma_fit_monotone(m as int, n as int, 0, j + 1, mi, gi);
            if global {
                assert((j + 1) * gi == j * gi + gi) by (nonlinear_arith);
            }
        }
        if global {
            acc = acc + gap;
        }
        j = j + 1;
        row0.push((acc, 0));
    }
    matrix.push(row0);
    let mut edge: i32 = 0;
    let mut i: usize = 0;
    while i < m
        invariant
            i <= m,
            n == ys.len(),
            m == xs.len(),
            xs == x@,
            ys == y@,
            mi == mis as int,
            gi == gap as int,
            scores_fit(m as int, n as int, mi, gi),
            edge as int == cell(xs, ys, mi, gi, global, i as int, 0),
            matrix@.len() == i + 1,
            forall|r: int| 0 <= r <= i ==> (#[trigger] matrix@[r])@.len() == n + 1,
            forall|r: int, c: int|
                0 <= r <= i && 0 <= c <= n ==> (#[trigger] matrix@[r]@[c]).0 == cell(xs, ys, mi, gi, global, r, c),
            forall|r: int, c: int|
                1 <= r <= i && 1 <= c <= n ==> (#[trigger] matrix@[r]@[c]).1 == choice(xs, ys, mi, gi, global, r, c),
        decreases m - i,
    {
        proof {
            lemma_cell_bound(xs, ys, mi, gi, global, i + 1, 0);
            lemma_fit_monotone(m as int, n as int, i + 1, 0, mi, gi);
            assert((i + 1) * gi == i * gi + gi) by (nonlinear_arith);
        }
        edge = edge + gap;
        i = i + 1;
        let mut row: Vec<(i32, u8)> = Vec::new();
        row.push((edge, 0));
        let mut j: usize = 0;
        while j < n
            invariant
                1 <= i <= m,
                j <= n,
                n == ys.len(),
                m == xs.len(),
                xs == x@,
                ys == y@,
                mi == mis as int,
                gi == gap as int,
                scores_fit(m as int, n as int, mi, gi),
                matrix@.len() == i,
                forall|r: int| 0 <= r < i ==> (#[trigger] matrix@[r])@.len() == n + 1,
                forall|r: int, c: int|
                    0 <= r < i && 0 <= c <= n ==> (#[trigger] matrix@[r]@[c]).0 == cell(xs, ys, mi, gi, global, r, c),
                row@.len() == j + 1,
                forall|c: int| 0 <= c <= j ==> (#[trigger] row@[c]).0 == cell(xs, ys, mi, gi, global, i as int, c),
                forall|c: int| 1 <= c <= j ==> (#[trigger] row@[c]).1 == choice(xs, ys, mi, gi, global, i as int, c),
            decreases n - j,
        {
            j = j + 1;
            proof {
                lemma_cell_bound(xs, ys, mi, gi, global, i - 1, j - 1);
                lemma_cell_bound(xs, ys, mi, gi, global, i - 1, j as int);
                lemma_cell_bound(xs, ys, mi, gi, global, i as int, j - 1);
                lemma_fit_monotone(m as int, n as int, i as int, j as int, mi, gi);
                lemma_step_bounds(i as int, j as int, mi, gi);
            }
            let score: i32 = if x[i - 1] == y[j - 1] {
                0
            } else {
                mis
            };
            let diag: i32 = matrix[i - 1][j - 1].0 + score;
            let left: i32 = matrix[i - 1][j].0 + gap;
            let up: i32 = row[j - 1].0 + gap;
            let entry: (i32, u8) = if diag >= left && diag >= up {
                (diag, DIAG)
            } else if left >= diag && left >= up {
                (left, LEFT)
            } else {
                (up, UP)
            };
            row.push(entry);
        }
        matrix.push(row);
    }
    matrix
}

/// The traceback leaves the inner cells at a column no further right than
/// where it started.
pub proof fn lemma_trace_column_bound(x: Seq<char>, y: Seq<char>, mis: int, gap: int, global: bool, i: int, j: int)
    requires
        j >= 0,
    ensures
        0 <= trace_column(x, y, mis, gap, global, i, j) <= j,
    decreases i + j,
{
    if i > 0 && j > 0 {
        let c = choice(x, y, mis, gap, global, i, j);
        if c == DIAG {
            lemma_trace_column_bound(x, y, mis, gap, global, i - 1, j - 1);
        } else if c == LEFT {
            lemma_trace_column_bound(x, y, mis, gap, global, i - 1, j);
        } else {
            lemma_trace_column_bound(x, y, mis, gap, global, i, j - 1);
        }
    }
}

/// The best column of the last row lies within the reference.
pub proof fn lemma_end_column_bound(x: Seq<char>, y: Seq<char>, mis: int, gap: int, global: bool)
    ensures
        0 <= end_column(x, y, mis, gap, global) <= y.len(),
        0 <= alignment(x, y, mis, gap, global).1 <= end_column(x, y, mis, gap, global),
{
    if !global && y.len() > 0 {
        lemma_best_column_bound(x, y, mis, gap, y.len() as int);
    }
    lemma_trace_column_bound(x, y, mis, gap, global, x.len() as int, end_column(x, y, mis, gap, global));
}

/// The first best column among `1..=k` is one of them.
proof fn lemma_best_column_bound(x: Seq<char>, y: Seq<char>, mis: int, gap: int, k: int)
    requires
        k >= 1,
    ensures
        1 <= best_column(x, y, mis, gap, k) <= k,
    decreases k,
{
    if k > 1 {
        lemma_best_column_bound(x, y, mis, gap, k - 1);
    }
}

/// `s` backwards.
pub open spec fn backwards(s: Seq<char>) -> Seq<char> {
    Seq::new(s.len(), |t: int| s[s.len() - 1 - t])
}

/// Every entry of a traceback is an edit operation.
proof fn lemma_trace_ops(x: Seq<char>, y: Seq<char>, mis: int, gap: int, global: bool, i: int, j: int)
    ensures
        forall|k: int|
            0 <= k < trace(x, y, mis, gap, global, i, j).len() ==> is_op(
                #[trigger] trace(x, y, mis, gap, global, i, j)[k],
            ),
    decreases i + j,
{
    let t = trace(x, y, mis, gap, global, i, j);
    if i > 0 && j > 0 {
        let c = choice(x, y, mis, gap, global, i, j);
        let (pi, pj) = if c == DIAG {
            (i - 1, j - 1)
        } else if c == LEFT {
            (i - 1, j)
        } else {
            (i, j - 1)
        };
        lemma_trace_ops(x, y, mis, gap, global, pi, pj);
        let p = trace(x, y, mis, gap, global, pi, pj);
        assert(t == p.push(t.last()));
        assert forall|k: int| 0 <= k < t.len() implies is_op(#[trigger] t[k]) by {
            if k < p.len() {
                assert(t[k] == p[k]);
            }
        }
    }
}

/// Aligns `x` against `y` in `mode`, with `mismatch_pen` added for each
/// mismatch and `gap_pen` for each gap symbol: the optimal score, the
/// columns of `y` where the alignment starts and ends, and its CIGAR text.
pub fn align(x: &Vec<char>, y: &Vec<char>, mismatch_pen: i32, gap_pen: i32, mode: AlignMode) -> (r: (
    i32,
    usize,
    usize,
    String,
))
    requires
        scores_fit(x@.len() as int, y@.len() as int, mismatch_pen as int, gap_pen as int),
    ensures
        (r.0 as int, r.1 as int, r.2 as int, r.3@) == alignment(
            x@,
            y@,
            mismatch_pen as int,
            gap_pen as int,
            mode is Global,
        ),
{
    let global = match mode {
        AlignMode::Global => true,
        AlignMode::Fitting => false,
    };
    let ghost xs = x@;
    let ghost ys = y@;
    let ghost mi = mismatch_pen as int;
    let ghost gi = gap_pen as int;
    let m = x.len();
    let n = y.len();
    let matrix = fill_matrix(x, y, mismatch_pen, gap_pen, global);
    let e: usize = if global {
        n
    } else if n == 0 {
        0
    } else {
        let mut best: usize = 1;
        let mut k: usize = 1;
        while k < n
            invariant
                1 <= best <= k <= n,
                m == xs.len(),
                n == ys.len(),
                matrix@.len() == m + 1,
                forall|a: int| 0 <= a <= m ==> (#[trigger] matrix@[a])@.len() == n + 1,
                forall|a: int, b: int|
                    0 <= a <= m && 0 <= b <= n ==> (#[trigger] matrix@[a]@[b]).0 == cell(xs, ys, mi, gi, global, a, b),
                best as int == best_column(xs, ys, mi, gi, k as int),
                !global,
            decreases n - k,
        {
            k = k + 1;
            if matrix[m][k].0 > matrix[m][best].0 {
                best = k;
            }
        }
        best
    };
    let ghost end = e as int;
    let ghost full = trace(xs, ys, mi, gi, global, m as int, end);
    let mut i: usize = m;
    let mut j: usize = e;
    let mut rev: Vec<char> = Vec::new();
    while i > 0 && j > 0
        invariant
            i <= m,
            j <= n,
            m == xs.len(),
            n == ys.len(),
            xs == x@,
            ys == y@,
            matrix@.len() == m + 1,
            forall|a: int| 0 <= a <= m ==> (#[trigger] matrix@[a])@.len() == n + 1,
            forall|a: int, b: int|
                1 <= a <= m && 1 <= b <= n ==> (#[trigger] matrix@[a]@[b]).1 == choice(xs, ys, mi, gi, global, a, b),
            full == trace(xs, ys, mi, gi, global, i as int, j as int) + backwards(rev@),
            trace_column(xs, ys, mi, gi, global, m as int, end) == trace_column(xs, ys, mi, gi, global, i as int, j as int),
        decreases i + j,
    {
        let code = matrix[i][j].1;
        let ghost before = rev@;
        let ghost pi = i as int;
        let ghost pj = j as int;
        if code == DIAG {
            if x[i - 1] == y[j - 1] {
                rev.push('=');
            } else {
                rev.push('X');
            }
            i = i - 1;
            j = j - 1;
        } else if code == LEFT {
            rev.push('I');
            i = i - 1;
        } else {
            rev.push('D');
            j = j - 1;
        }
        proof {
            assert(backwards(rev@) =~= seq![rev@.last()] + backwards(before));
            assert(trace(xs, ys, mi, gi, global, pi, pj) == trace(xs, ys, mi, gi, global, i as int, j as int).push(rev@.last()));
            assert(full =~= trace(xs, ys, mi, gi, global, i as int, j as int) + backwards(rev@));
        }
    }
    let mut ops: Vec<char> = Vec::new();
    let mut t: usize = 0;
    if i > 0 {
        while t < i
            invariant
                t <= i,
                ops@ == Seq::new(t as nat, |k: int| 'I'),
            decreases i - t,
        {
            ops.push('I');
            t = t + 1;
            proof {
                assert(ops@ =~= Seq::new(t as nat, |k: int| 'I'));
            }
        }
    } else if global {
        while t < j
            invariant
                t <= j,
                ops@ == Seq::new(t as nat, |k: int| 'D'),
            decreases j - t,
        {
            ops.push('D');
            t = t + 1;
            proof {
                assert(ops@ =~= Seq::new(t as nat, |k: int| 'D'));
            }
        }
    }
    let ghost lead = ops@;
    proof {
        assert(lead =~= trace(xs, ys, mi, gi, global, i as int, j as int));
    }
    let len = rev.len();
    let mut k: usize = len;
    while k > 0
        invariant
            k <= len,
            len == rev@.len(),
            ops@ == lead + backwards(rev@).take(len - k),
        decreases k,
    {
        k = k - 1;
        ops.push(rev[k]);
        proof {
            assert(ops@ =~= lead + backwards(rev@).take(len - k));
        }
    }
    proof {
        assert(backwards(rev@).take(len as int) =~= backwards(rev@));
        assert(ops@ =~= full);
        lemma_trace_ops(xs, ys, mi, gi, global, m as int, end);
    }
    let cigar = cigar_string(&ops);
    let start: usize = if global {
        0
    } else {
        j
    };
    (matrix[m][e].0, start, e, cigar)
}

/// Aligns `query_x` against `query_y` end to end.
pub fn global_align(query: &QP, mismatch_pen: i32, gap_pen: i32) -> (r: (i32, usize, usize, String))
    requires
        scores_fit(query.query_x@.len() as int, query.query_y@.len() as int, mismatch_pen as int, gap_pen as int),
    ensures
        (r.0 as int, r.1 as int, r.2 as int, r.3@) == alignment(
            query.query_x@,
            query.query_y@,
            mismatch_pen as int,
            gap_pen as int,
            true,
        ),
{
    let x = chars_of(query.query_x.as_str());
    let y = chars_of(query.query_y.as_str());
    align(&x, &y, mismatch_pen, gap_pen, AlignMode::Global)
}

/// Aligns the whole of `query_x` against the best-scoring part of `query_y`.
pub fn fitting_align(query: &QP, mismatch_pen: i32, gap_pen: i32) -> (r: (i32, usize, usize, String))
    requires
        scores_fit(query.query_x@.len() as int, query.query_y@.len() as int, mismatch_pen as int, gap_pen as int),
    ensures
        (r.0 as int, r.1 as int, r.2 as int, r.3@) == alignment(
            query.query_x@,
            query.query_y@,
            mismatch_pen as int,
            gap_pen as int,
            false,
        ),
{
    let x = chars_of(query.query_x.as_str());
    let y = chars_of(query.query_y.as_str());
    align(&x, &y, mismatch_pen, gap_pen, AlignMode::Fitting)
}

/// A run of `k` copies of one operation consumes `k` symbols of each
/// sequence that the operation consumes.
proof fn lemma_repeat_spans(k: nat, c: char)
    ensures
        query_span(Seq::new(k, |t: int| c)) == if crate::cigar::consumes_query(c) {
            k
        } else {
            0
        },
        reference_span(Seq::new(k, |t: int| c)) == if crate::cigar::consumes_reference(c) {
            k
        } else {
            0
        },
    decreases k,
{
    if k > 0 {
        lemma_repeat_spans((k - 1) as nat, c);
        assert(Seq::new(k, |t: int| c).drop_last() =~= Seq::new((k - 1) as nat, |t: int| c));
    }
}

/// A global traceback from `(i, j)` consumes `i` query symbols and `j`
/// reference symbols.
proof fn lemma_global_trace_spans(x: Seq<char>, y: Seq<char>, mis: int, gap: int, i: int, j: int)
    requires
        i >= 0,
        j >= 0,
    ensures
        query_span(trace(x, y, mis, gap, true, i, j)) == i,
        reference_span(trace(x, y, mis, gap, true, i, j)) == j,
    decreases i + j,
{
    if i == 0 || j == 0 {
        if i > 0 {
            lemma_repeat_spans(i as nat, 'I');
        } else if j > 0 {
            lemma_repeat_spans(j as nat, 'D');
        }
    } else {
        let c = choice(x, y, mis, gap, true, i, j);
        let t = trace(x, y, mis, gap, true, i, j);
        if c == DIAG {
            lemma_global_trace_spans(x, y, mis, gap, i - 1, j - 1);
            assert(t.drop_last() == trace(x, y, mis, gap, true, i - 1, j - 1));
        } else if c == LEFT {
            lemma_global_trace_spans(x, y, mis, gap, i - 1, j);
            assert(t.drop_last() == trace(x, y, mis, gap, true, i - 1, j));
        } else {
            lemma_global_trace_spans(x, y, mis, gap, i, j - 1);
            assert(t.drop_last() == trace(x, y, mis, gap, true, i, j - 1));
        }
    }
}

/// In the CIGAR of a global alignment, the runs of `=`, `X` and `I` add up
/// to the length of the query and the runs of `=`, `X` and `D` to the length
/// of the reference.
pub proof fn lemma_global_cigar_lengths(x: Seq<char>, y: Seq<char>, mis: int, gap: int)
    ensures
        alignment(x, y, mis, gap, true).3 == render(
            rle(trace(x, y, mis, gap, true, x.len() as int, y.len() as int)),
        ),
        runs_query_span(rle(trace(x, y, mis, gap, true, x.len() as int, y.len() as int)))
            == x.len(),
        runs_reference_span(rle(trace(x, y, mis, gap, true, x.len() as int, y.len() as int)))
            == y.len(),
{
    let t = trace(x, y, mis, gap, true, x.len() as int, y.len() as int);
    lemma_global_trace_spans(x, y, mis, gap, x.len() as int, y.len() as int);
    lemma_rle_spans(t);
}

/// With penalties of at most 0 no cell of the global matrix scores above 0.
proof fn lemma_cells_nonpositive(x: Seq<char>, y: Seq<char>, mis: int, gap: int, i: int, j: int)
    requires
        mis <= 0,
        gap <= 0,
    ensures
        cell(x, y, mis, gap, true, i, j) <= 0,
    decreases i + j,
{
    if i <= 0 {
        if j > 0 {
            assert(j * gap <= 0) by (nonlinear_arith)
                requires
                    j > 0,
                    gap <= 0,
            ;
        }
    } else if j <= 0 {
        assert(i * gap <= 0) by (nonlinear_arith)
            requires
                i > 0,
                gap <= 0,
        ;
    } else {
        lemma_cells_nonpositive(x, y, mis, gap, i - 1, j - 1);
        lemma_cells_nonpositive(x, y, mis, gap, i - 1, j);
        lemma_cells_nonpositive(x, y, mis, gap, i, j - 1);
    }
}

/// With penalties of at most 0 the traceback of a sequence against itself
/// runs down the diagonal, matches every symbol and scores 0.
proof fn lemma_self_trace(x: Seq<char>, mis: int, gap: int, i: int)
    requires
        0 <= i <= x.len(),
        mis <= 0,
        gap <= 0,
    ensures
        cell(x, x, mis, gap, true, i, i) == 0,
        trace(x, x, mis, gap, true, i, i) == Seq::new(i as nat, |t: int| '='),
    decreases i,
{
    if i > 0 {
        lemma_self_trace(x, mis, gap, i - 1);
        lemma_cells_nonpositive(x, x, mis, gap, i - 1, i);
        lemma_cells_nonpositive(x, x, mis, gap, i, i - 1);
        assert(choice(x, x, mis, gap, true, i, i) == DIAG);
        assert(trace(x, x, mis, gap, true, i, i) =~= Seq::new(i as nat, |t: int| '='));
    } else {
        assert(trace(x, x, mis, gap, true, i, i) =~= Seq::new(i as nat, |t: int| '='));
    }
}

/// A run of `k >= 1` copies of one operation encodes as a single run.
proof fn lemma_rle_repeat(k: nat, c: char)
    requires
        k >= 1,
    ensures
        rle(Seq::new(k, |t: int| c)) == seq![(k, c)],
    decreases k,
{
    let s = Seq::new(k, |t: int| c);
    assert(s.drop_last() =~= Seq::new((k - 1) as nat, |t: int| c));
    if k > 1 {
        lemma_rle_repeat((k - 1) as nat, c);
        assert(rle(s) =~= seq![(k, c)]);
    } else {
        assert(rle(s.drop_last()) =~= Seq::<(nat, char)>::empty());
        assert(rle(s) =~= seq![(k, c)]);
    }
}

/// Aligning a non-empty sequence globally against itself, with mismatch and
/// gap penalties of at most 0, scores 0 and gives the CIGAR `<len>=`.
pub proof fn lemma_self_alignment(x: Seq<char>, mis: int, gap: int)
    requires
        x.len() > 0,
        mis <= 0,
        gap <= 0,
    ensures
        alignment(x, x, mis, gap, true).0 == 0,
        alignment(x, x, mis, gap, true).3 == decimal(x.len()).push('='),
{
    let n = x.len() as int;
    lemma_self_trace(x, mis, gap, n);
    lemma_rle_repeat(x.len(), '=');
    let runs = seq![(x.len(), '=')];
    assert(runs.drop_last() =~= Seq::<(nat, char)>::empty());
    assert(render(runs.drop_last()) == Seq::<char>::empty());
    assert(runs.last() == (x.len(), '='));
    assert(render(runs) =~= Seq::<char>::empty() + decimal(x.len()).push('='));
    assert(render(runs) =~= decimal(x.len()).push('='));
}

} // verus!
