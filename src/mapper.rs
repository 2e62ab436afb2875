//! Mapping reads onto an indexed reference: exact hits first, otherwise
//! seeds extended by fitting alignment against a window of the reference.

use vstd::prelude::*;
use crate::text::chars_of;
use crate::fm_index::{FMindex, lemma_permutation_facts};
use crate::search::{SearchMode, backward_search, search_result};
use crate::seeds::{find_seeds, is_top, seed_votes};
use crate::align::{AlignMode, align, alignment, scores_fit};
use crate::cigar::{decimal, push_decimal};

verus! {

/// How many reference symbols the window of a seed reaches beyond the read
/// on either side.
pub const FLANK: usize = 15;

/// A read to map, with where it mapped.
pub struct MapQuery {
    pub problem_name: String,
    pub query: String,
    pub score: i32,
    pub ref_start: Vec<usize>,
    pub cigar: Vec<String>,
}

/// A mapped position of a read: reference offset, score and CIGAR text.
pub open spec fn hit_view(h: (usize, i32, String)) -> (int, int, Seq<char>) {
    (h.0 as int, h.1 as int, h.2@)
}

/// The CIGAR text of a read of length `len` that matches without edits.
pub open spec fn exact_cigar(len: nat) -> Seq<char> {
    decimal(len).push('=')
}

/// The stretch of the reference (sentinel excluded) that a seed at offset
/// `o` is aligned against: `FLANK` symbols before it, through the end of a
/// read of length `len` and `FLANK` symbols more.
pub open spec fn window(fm: &FMindex, o: int, len: int) -> (int, int) {
    let end = fm.rows() - 1;
    let hi = if o + len + FLANK < end {
        o + len + FLANK
    } else {
        end
    };
    let lo = if o > FLANK {
        o - FLANK
    } else {
        0
    };
    (if lo < hi {
        lo
    } else {
        hi
    }, hi)
}

/// Where the fitting alignment of read `q` against the window of seed `o`
/// places the read, with its score and CIGAR text.
pub open spec fn candidate(fm: &FMindex, q: Seq<char>, o: int, mis: int, gap: int) -> (int, int, Seq<char>) {
    let (lo, hi) = window(fm, o, q.len() as int);
    let a = alignment(q, fm.genome@.subrange(lo, hi), mis, gap, false);
    (lo + a.1, a.0, a.3)
}

/// The read matches the reference in full (an exact partial search).
pub open spec fn matches_exactly(fm: &FMindex, q: Seq<char>) -> bool {
    search_result(fm, q, SearchMode::Partial).1 == q.len()
}

/// The fitting alignment of the read of `query` against `ref_start`.
pub fn reference_align(query: &MapQuery, ref_start: &str, mismatch_pen: i32, gap_pen: i32) -> (r: (
    i32,
    usize,
    usize,
    String,
))
    requires
        scores_fit(query.query@.len() as int, ref_start@.len() as int, mismatch_pen as int, gap_pen as int),
    ensures
        (r.0 as int, r.1 as int, r.2 as int, r.3@) == alignment(
            query.query@,
            ref_start@,
            mismatch_pen as int,
            gap_pen as int,
            false,
        ),
{
    let x = chars_of(query.query.as_str());
    let y = chars_of(ref_start);
    align(&x, &y, mismatch_pen, gap_pen, AlignMode::Fitting)
}

/// Whether some hit in `hits` is at position `p`.
fn has_position(hits: &Vec<(usize, i32, String)>, p: usize) -> (b: bool)
    ensures
        b == exists|t: int| 0 <= t < hits@.len() && (#[trigger] hits@[t]).0 == p,
{
    let mut i: usize = 0;
    while i < hits.len()
        invariant
            i <= hits.len(),
            forall|t: int| 0 <= t < i ==> (#[trigger] hits@[t]).0 != p,
        decreases hits.len() - i,
    {
        if hits[i].0 == p {
            return true;
        }
        i = i + 1;
    }
    false
}

/// `hits` are the best candidates of the top seeds of `q`: each is the
/// candidate of a top seed, none scores below a top seed's candidate, every
/// top seed's candidate with that score has its position among them, and no
/// position comes twice. There is one at least when some seed is top.
pub open spec fn best_hits(fm: &FMindex, q: Seq<char>, mis: int, gap: int, hits: Seq<(int, int, Seq<char>)>) -> bool {
    let votes = seed_votes(fm, q);
    &&& forall|a: int, b: int| 0 <= a < b < hits.len() ==> hits[a].0 != hits[b].0
    &&& forall|t: int| #![trigger hits[t]] 0 <= t < hits.len() ==> exists|o: usize| #[trigger] is_top(votes, o as int) && hits[t] == candidate(fm, q, o as int, mis, gap)
    &&& forall|t: int, o: usize| #![trigger hits[t], is_top(votes, o as int)]
        0 <= t < hits.len() && is_top(votes, o as int) ==> candidate(fm, q, o as int, mis, gap).1 <= hits[t].1
    &&& forall|t: int, o: usize| #![trigger hits[t], is_top(votes, o as int)]
        0 <= t < hits.len() && is_top(votes, o as int) && candidate(fm, q, o as int, mis, gap).1 == hits[t].1
        ==> exists|t2: int| 0 <= t2 < hits.len() && hits[t2].0 == candidate(fm, q, o as int, mis, gap).0
    &&& (exists|o: usize| is_top(votes, o as int)) ==> hits.len() > 0
}

/// A window is no longer than the read and two flanks.
proof fn lemma_window_fits(fm: &FMindex, o: int, m: int, mis: int, gap: int)
    requires
        fm.rows() >= 1,
        m >= 0,
        o >= 0,
        scores_fit(m, m + 2 * FLANK, mis, gap),
    ensures
        0 <= window(fm, o, m).0 <= window(fm, o, m).1 <= fm.rows() - 1,
        window(fm, o, m).1 - window(fm, o, m).0 <= m + 2 * FLANK,
        scores_fit(m, window(fm, o, m).1 - window(fm, o, m).0, mis, gap),
{
    let w = window(fm, o, m).1 - window(fm, o, m).0;
    let b = crate::align::abs(mis) + crate::align::abs(gap);
    assert((m + w) * b <= (m + m + 2 * FLANK) * b) by (nonlinear_arith)
        requires
            0 <= w <= m + 2 * FLANK,
            b >= 0,
    ;
}

/// The CIGAR text of a read of length `len` that matches without edits.
fn exact_cigar_string(len: usize) -> (s: String)
    ensures
        s@ == exact_cigar(len as nat),
{
    let mut s = String::new();
    push_decimal(&mut s, len);
    proof {
        reveal_strlit("=");
    }
    s.append("=");
    proof {
        assert(s@ =~= exact_cigar(len as nat));
    }
    s
}

/// Maps a read onto the reference: every position of an exact match with
/// score 0, or else the best-scoring fitting alignments of the read around
/// its seeds, once per position. `mismatch_pen` and `gap_pen` are added to
/// the score for each mismatch and each gap symbol.
pub fn map_read(query: &str, fm_struct: &FMindex, mismatch_pen: i32, gap_pen: i32) -> (r: Vec<(usize, i32, String)>)
    requires
        fm_struct.wf(),
        query@.len() <= u32::MAX,
        scores_fit(query@.len() as int, query@.len() + 2 * FLANK, mismatch_pen as int, gap_pen as int),
    ensures
        matches_exactly(fm_struct, query@) ==> r@.len() == search_result(fm_struct, query@, SearchMode::Partial).0.len()
            && forall|t: int| 0 <= t < r@.len() ==> hit_view(#[trigger] r@[t]) == (
                search_result(fm_struct, query@, SearchMode::Partial).0[t] as int,
                0int,
                exact_cigar(query@.len()),
            ),
        !matches_exactly(fm_struct, query@) ==> best_hits(
            fm_struct,
            query@,
            mismatch_pen as int,
            gap_pen as int,
            r@.map_values(|h: (usize, i32, String)| hit_view(h)),
        ),
{
    let q = chars_of(query);
    let len = q.len();
    let (hits, ml) = backward_search(&q, fm_struct, SearchMode::Partial);
    let mut out: Vec<(usize, i32, String)> = Vec::new();
    if ml as usize == len {
        let mut i: usize = 0;
        while i < hits.len()
            invariant
                i <= hits.len(),
                len == query@.len(),
                out@.len() == i,
                forall|t: int| 0 <= t < i ==> hit_view(#[trigger] out@[t]) == (hits@[t] as int, 0int, exact_cigar(len as nat)),
            decreases hits.len() - i,
        {
            let c = exact_cigar_string(len);
            out.push((hits[i], 0, c));
            i = i + 1;
        }
        return out;
    }
    let seeds = find_seeds(query, fm_struct);
    let ghost votes = seed_votes(fm_struct, query@);
    let ghost mi = mismatch_pen as int;
    let ghost gi = gap_pen as int;
    let n = fm_struct.genome.len();
    let end = n - 1;
    let mut best: i32 = 0;
    let mut k: usize = 0;
    while k < seeds.len()
        invariant
            k <= seeds.len(),
            fm_struct.wf(),
            n == fm_struct.rows(),
            end == n - 1,
            q@ == query@,
            len == q@.len(),
            scores_fit(len as int, len + 2 * FLANK, mi, gi),
            mi == mismatch_pen as int,
            gi == gap_pen as int,
            forall|o: usize| seeds@.contains(o) <==> is_top(votes, o as int),
            k > 0 <==> out@.len() > 0,
            forall|a: int, b: int| 0 <= a < b < out@.len() ==> out@[a].0 != out@[b].0,
            forall|t: int| 0 <= t < out@.len() ==> (#[trigger] out@[t]).1 == best,
            forall|t: int| 0 <= t < out@.len() ==> exists|j: int| 0 <= j < k && hit_view(#[trigger] out@[t])
                == candidate(fm_struct, query@, seeds@[j] as int, mi, gi),
            forall|j: int| 0 <= j < k ==> candidate(fm_struct, query@, #[trigger] seeds@[j] as int, mi, gi).1 <= best,
            forall|j: int| 0 <= j < k && candidate(fm_struct, query@, #[trigger] seeds@[j] as int, mi, gi).1 == best
                ==> exists|t: int| 0 <= t < out@.len() && out@[t].0 == candidate(fm_struct, query@, seeds@[j] as int, mi, gi).0,
        decreases seeds.len() - k,
    {
        let o = seeds[k];
        let hi: usize = if o < end && end - o > len && end - o - len > FLANK {
            o + len + FLANK
        } else {
            end
        };
        let lo0: usize = if o > FLANK {
            o - FLANK
        } else {
            0
        };
        let lo: usize = if lo0 < hi {
            lo0
        } else {
            hi
        };
        proof {
            lemma_window_fits(fm_struct, o as int, len as int, mi, gi);
            assert((lo as int, hi as int) == window(fm_struct, o as int, len as int));
        }
        let mut y: Vec<char> = Vec::new();
        let mut i: usize = lo;
        while i < hi
            invariant
                lo <= i <= hi,
                hi < fm_struct.genome@.len(),
                y@ == fm_struct.genome@.subrange(lo as int, i as int),
            decreases hi - i,
        {
            y.push(fm_struct.genome[i]);
            i = i + 1;
            proof {
                assert(y@ =~= fm_struct.genome@.subrange(lo as int, i as int));
            }
        }
        let a = align(&q, &y, mismatch_pen, gap_pen, AlignMode::Fitting);
        proof {
            crate::align::lemma_end_column_bound(q@, y@, mi, gi, false);
        }
        let pos = lo + a.1;
        let ghost c = candidate(fm_struct, query@, o as int, mi, gi);
        proof {
            assert(c == (pos as int, a.0 as int, a.3@));
        }
        let ghost prev = out@;
        if k == 0 || a.0 > best {
            out = Vec::new();
            best = a.0;
            out.push((pos, a.0, a.3));
            proof {
                assert(hit_view(out@[0]) == c);
                assert forall|j: int| 0 <= j < k + 1 && candidate(fm_struct, query@, #[trigger] seeds@[j] as int, mi, gi).1 == best
                    implies exists|t: int| 0 <= t < out@.len() && out@[t].0 == candidate(fm_struct, query@, seeds@[j] as int, mi, gi).0 by {
                    if j < k {
                        assert(false);
                    } else {
                        assert(out@[0].0 == c.0);
                    }
                }
                assert forall|t: int| 0 <= t < out@.len() implies exists|j: int| 0 <= j < k + 1 && hit_view(#[trigger] out@[t])
                    == candidate(fm_struct, query@, seeds@[j] as int, mi, gi) by {
                    assert(seeds@[k as int] == o);
                }
            }
        } else if a.0 == best {
            if !has_position(&out, pos) {
                out.push((pos, a.0, a.3));
            }
            proof {
                assert forall|t: int| 0 <= t < out@.len() implies exists|j: int| 0 <= j < k + 1 && hit_view(#[trigger] out@[t])
                    == candidate(fm_struct, query@, seeds@[j] as int, mi, gi) by {
                    if t < prev.len() {
                        assert(out@[t] == prev[t]);
                        let j = choose|j: int| 0 <= j < k && hit_view(prev[t]) == candidate(fm_struct, query@, seeds@[j] as int, mi, gi);
                    } else {
                        assert(seeds@[k as int] == o);
                    }
                }
                assert forall|j: int| 0 <= j < k + 1 && candidate(fm_struct, query@, #[trigger] seeds@[j] as int, mi, gi).1 == best
                    implies exists|t: int| 0 <= t < out@.len() && out@[t].0 == candidate(fm_struct, query@, seeds@[j] as int, mi, gi).0 by {
                    if j < k {
                        let t = choose|t: int| 0 <= t < prev.len() && prev[t].0 == candidate(fm_struct, query@, seeds@[j] as int, mi, gi).0;
                        assert(out@[t] == prev[t]);
                    } else {
                        if !(exists|t: int| 0 <= t < prev.len() && (#[trigger] prev[t]).0 == pos) {
                            assert(out@[prev.len() as int].0 == pos);
                        } else {
                            let t = choose|t: int| 0 <= t < prev.len() && (#[trigger] prev[t]).0 == pos;
                            assert(out@[t] == prev[t]);
                        }
                    }
                }
            }
        }
        k = k + 1;
    }
    proof {
        let hv = out@.map_values(|h: (usize, i32, String)| hit_view(h));
        assert forall|t: int| #![trigger hv[t]] 0 <= t < hv.len() implies exists|o: usize| #[trigger] is_top(votes, o as int)
            && hv[t] == candidate(fm_struct, query@, o as int, mi, gi) by {
            let j = choose|j: int| 0 <= j < k && hit_view(out@[t]) == candidate(fm_struct, query@, seeds@[j] as int, mi, gi);
            assert(seeds@.contains(seeds@[j]));
        }
        assert forall|t: int, o: usize| #![trigger hv[t], is_top(votes, o as int)]
            0 <= t < hv.len() && is_top(votes, o as int) implies candidate(fm_struct, query@, o as int, mi, gi).1 <= hv[t].1 by {
            assert(seeds@.contains(o));
            let j = choose|j: int| 0 <= j < seeds@.len() && seeds@[j] == o;
            assert(hv[t].1 == out@[t].1);
        }
        assert forall|t: int, o: usize| #![trigger hv[t], is_top(votes, o as int)]
            0 <= t < hv.len() && is_top(votes, o as int) && candidate(fm_struct, query@, o as int, mi, gi).1 == hv[t].1
            implies exists|t2: int| 0 <= t2 < hv.len() && hv[t2].0 == candidate(fm_struct, query@, o as int, mi, gi).0 by {
            assert(seeds@.contains(o));
            let j = choose|j: int| 0 <= j < seeds@.len() && seeds@[j] == o;
            assert(hv[t].1 == out@[t].1);
            let t2 = choose|t2: int| 0 <= t2 < out@.len() && out@[t2].0 == candidate(fm_struct, query@, seeds@[j] as int, mi, gi).0;
            assert(hv[t2].0 == out@[t2].0);
        }
        if exists|o: usize| is_top(votes, o as int) {
            let o = choose|o: usize| is_top(votes, o as int);
            assert(seeds@.contains(o));
        }
        assert forall|a: int, b: int| 0 <= a < b < hv.len() implies hv[a].0 != hv[b].0 by {
            assert(hv[a].0 == out@[a].0);
            assert(hv[b].0 == out@[b].0);
        }
    }
    out
}

} // verus!
