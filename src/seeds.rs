//! Seeds for reads that do not match exactly: each quarter of the read is
//! searched on its own, and every hit votes, with the length its quarter
//! matched, for the reference offset where the read would start.

use vstd::prelude::*;
use priority_queue::PriorityQueue;
use crate::fm_index::{FMindex, lemma_permutation_facts};
use crate::search::{SearchMode, backward_search, search_result};
use crate::text::chars_of;

verus! {

/// The priority queue of the `priority_queue` crate, opaque here: what it
/// holds is stated through `queue_items`.
#[verifier::external_type_specification]
#[verifier::external_body]
#[verifier::reject_recursive_types(I)]
#[verifier::reject_recursive_types(P)]
#[verifier::reject_recursive_types(H)]
pub struct ExPriorityQueue<I, P, H>(PriorityQueue<I, P, H>) where I: std::hash::Hash + Eq, P: Ord;

/// The items of a queue with their priorities.
pub uninterp spec fn queue_items(q: PriorityQueue<usize, u32>) -> Map<usize, u32>;

/// Relies on `PriorityQueue::new`: the queue starts empty.
#[verifier::external_body]
fn new_queue() -> (q: PriorityQueue<usize, u32>)
    ensures
        queue_items(q).dom() == Set::<usize>::empty(),
{
    PriorityQueue::new()
}

/// Relies on `PriorityQueue::push`: the item gets the priority, whether it
/// was in the queue before or not.
#[verifier::external_body]
fn queue_push(q: &mut PriorityQueue<usize, u32>, item: usize, priority: u32)
    ensures
        queue_items(*final(q)) == queue_items(*old(q)).insert(item, priority),
{
    q.push(item, priority);
}

/// Relies on `PriorityQueue::get_priority`: the priority of an item in the
/// queue, `None` for one that is not.
#[verifier::external_body]
fn queue_priority(q: &PriorityQueue<usize, u32>, item: usize) -> (r: Option<u32>)
    ensures
        r == if queue_items(*q).contains_key(item) {
            Some(queue_items(*q)[item])
        } else {
            None::<u32>
        },
{
    q.get_priority(&item).copied()
}

/// Relies on `PriorityQueue::pop`: removes an item of greatest priority and
/// returns it with its priority; `None` when the queue is empty.
#[verifier::external_body]
fn queue_pop(q: &mut PriorityQueue<usize, u32>) -> (r: Option<(usize, u32)>)
    ensures
        r is None ==> queue_items(*old(q)).dom().len() == 0 && queue_items(*final(q))
            == queue_items(*old(q)),
        r matches Some((item, p)) ==> {
            &&& queue_items(*old(q)).contains_key(item)
            &&& queue_items(*old(q))[item] == p
            &&& forall|k: usize| #[trigger]
                queue_items(*old(q)).contains_key(k) ==> queue_items(*old(q))[k] <= p
            &&& queue_items(*final(q)) == queue_items(*old(q)).remove(item)
        },
{
    q.pop()
}

/// Relies on `PriorityQueue::peek`: an item of greatest priority with its
/// priority; `None` when the queue is empty.
#[verifier::external_body]
fn queue_peek(q: &PriorityQueue<usize, u32>) -> (r: Option<(usize, u32)>)
    ensures
        r is None ==> queue_items(*q).dom().len() == 0,
        r matches Some((item, p)) ==> {
            &&& queue_items(*q).contains_key(item)
            &&& queue_items(*q)[item] == p
            &&& forall|k: usize| #[trigger] queue_items(*q).contains_key(k) ==> queue_items(*q)[k] <= p
        },
{
    q.peek().map(|(i, p)| (*i, *p))
}

/// Where block `b` of the four blocks of a read of length `len` starts and
/// ends: each block is `len / 4` long and the last one takes the rest.
pub open spec fn block_span(len: int, b: int) -> (int, int) {
    let l = len / 4;
    (b * l, if b < 3 {
        (b + 1) * l
    } else {
        len
    })
}

/// The votes of hits: a hit at `h` votes for offset `h - shift` with weight
/// `w`, unless that offset would lie before the reference.
pub open spec fn votes_of(hits: Seq<usize>, shift: int, w: int) -> Seq<(int, int)>
    decreases hits.len(),
{
    if hits.len() == 0 {
        Seq::empty()
    } else {
        let h = hits.last() as int;
        votes_of(hits.drop_last(), shift, w) + if h >= shift {
            seq![(h - shift, w)]
        } else {
            Seq::empty()
        }
    }
}

/// The votes of block `b` of `q`: its partial search, with each hit moved
/// back by where the matched part starts in the block and where the block
/// starts in the read.
pub open spec fn block_votes(fm: &FMindex, q: Seq<char>, b: int) -> Seq<(int, int)> {
    let (s, e) = block_span(q.len() as int, b);
    let r = search_result(fm, q.subrange(s, e), SearchMode::Partial);
    votes_of(r.0, (e - s - r.1) + s, r.1)
}

/// The votes of all four blocks, in order.
pub open spec fn seed_votes(fm: &FMindex, q: Seq<char>) -> Seq<(int, int)> {
    block_votes(fm, q, 0) + block_votes(fm, q, 1) + block_votes(fm, q, 2) + block_votes(fm, q, 3)
}

/// The total weight of the votes for offset `o`.
pub open spec fn weight_of(votes: Seq<(int, int)>, o: int) -> int
    decreases votes.len(),
{
    if votes.len() == 0 {
        0
    } else {
        weight_of(votes.drop_last(), o) + if votes.last().0 == o {
            votes.last().1
        } else {
            0
        }
    }
}

/// Some vote is for offset `o`.
pub open spec fn voted(votes: Seq<(int, int)>, o: int) -> bool {
    exists|k: int| 0 <= k < votes.len() && (#[trigger] votes[k]).0 == o
}

/// Offset `o` got votes, and no offset got more weight.
pub open spec fn is_top(votes: Seq<(int, int)>, o: int) -> bool {
    &&& voted(votes, o)
    &&& forall|k: int| 0 <= k < votes.len() ==> weight_of(votes, (#[trigger] votes[k]).0) <= weight_of(votes, o)
}

/// The votes of two groups add up: an offset that both vote for gets the sum
/// of the weights that each gives it.
pub proof fn lemma_weight_additive(v1: Seq<(int, int)>, v2: Seq<(int, int)>, o: int)
    ensures
        weight_of(v1 + v2, o) == weight_of(v1, o) + weight_of(v2, o),
    decreases v2.len(),
{
    if v2.len() == 0 {
        assert(v1 + v2 =~= v1);
    } else {
        assert((v1 + v2).drop_last() =~= v1 + v2.drop_last());
        lemma_weight_additive(v1, v2.drop_last(), o);
    }
}

/// A single vote gives its offset its weight.
pub proof fn lemma_weight_single(o: int, w: int)
    ensures
        weight_of(seq![(o, w)], o) == w,
{
    let v = seq![(o, w)];
    assert(v.drop_last() =~= Seq::<(int, int)>::empty());
    assert(weight_of(v.drop_last(), o) == 0);
    assert(v.last() == (o, w));
}

/// An offset that no vote names has no weight.
proof fn lemma_weight_unvoted(votes: Seq<(int, int)>, o: int)
    requires
        !voted(votes, o),
    ensures
        weight_of(votes, o) == 0,
    decreases votes.len(),
{
    if votes.len() > 0 {
        assert(!voted(votes.drop_last(), o)) by {
            if voted(votes.drop_last(), o) {
                let k = choose|k: int| 0 <= k < votes.drop_last().len() && (#[trigger] votes.drop_last()[k]).0 == o;
                assert(votes[k].0 == o);
            }
        }
        assert(votes[votes.len() - 1].0 != o);
        lemma_weight_unvoted(votes.drop_last(), o);
    }
}

/// Hits at distinct positions vote for distinct offsets, so an offset gets
/// the weight of one vote if the hits vote for it, and nothing otherwise.
proof fn lemma_votes_weight_bound(hits: Seq<usize>, shift: int, w: int, o: int)
    requires
        hits.no_duplicates(),
        w >= 0,
    ensures
        0 <= weight_of(votes_of(hits, shift, w), o) <= w,
        weight_of(votes_of(hits, shift, w), o) == if voted(votes_of(hits, shift, w), o) {
            w
        } else {
            0
        },
        forall|k: int| 0 <= k < votes_of(hits, shift, w).len() ==> (#[trigger] votes_of(hits, shift, w)[k]).1 == w,
    decreases hits.len(),
{
    if hits.len() > 0 {
        let rest = hits.drop_last();
        let h = hits.last() as int;
        assert(rest.no_duplicates());
        lemma_votes_weight_bound(rest, shift, w, o);
        let v = votes_of(rest, shift, w);
        let tail: Seq<(int, int)> = if h >= shift {
            seq![(h - shift, w)]
        } else {
            Seq::empty()
        };
        lemma_weight_additive(v, tail, o);
        if h >= shift && h - shift == o {
            lemma_votes_offsets(rest, shift, w);
            assert(!voted(v, o)) by {
                if voted(v, o) {
                    let k = choose|k: int| 0 <= k < v.len() && (#[trigger] v[k]).0 == o;
                    let t = choose|t: int| 0 <= t < rest.len() && rest[t] as int - shift == v[k].0;
                    assert(rest[t] == hits[t]);
                    assert(hits[t] == hits[hits.len() - 1]);
                }
            }
            lemma_weight_unvoted(v, o);
            lemma_weight_single(h - shift, w);
        } else if h >= shift {
            assert(tail.drop_last() =~= Seq::<(int, int)>::empty());
            assert(weight_of(tail.drop_last(), o) == 0);
            assert(weight_of(tail, o) == 0);
        } else {
            assert(weight_of(tail, o) == 0);
        }
        assert(votes_of(hits, shift, w) == v + tail);
        assert forall|k: int| 0 <= k < (v + tail).len() implies (#[trigger] (v + tail)[k]).1 == w by {
            if k < v.len() {
                assert((v + tail)[k] == v[k]);
            }
        }
        let all = v + tail;
        if h >= shift && h - shift == o {
            assert(all[v.len() as int].0 == o);
        } else {
            assert(voted(all, o) == voted(v, o)) by {
                if voted(all, o) {
                    let k = choose|k: int| 0 <= k < all.len() && (#[trigger] all[k]).0 == o;
                    assert(k < v.len());
                    assert(all[k] == v[k]);
                }
                if voted(v, o) {
                    let k = choose|k: int| 0 <= k < v.len() && (#[trigger] v[k]).0 == o;
                    assert(all[k] == v[k]);
                }
            }
        }
    } else {
        assert(!voted(votes_of(hits, shift, w), o));
    }
}

/// The length of the suffix of block `b` of `q` that its partial search
/// matches: the weight of each of the block's votes.
pub open spec fn block_match(fm: &FMindex, q: Seq<char>, b: int) -> int {
    let (s, e) = block_span(q.len() as int, b);
    search_result(fm, q.subrange(s, e), SearchMode::Partial).1
}

/// The weight that block `b` gives offset `o`: its matched length if it
/// votes for `o`, else nothing.
pub open spec fn block_share(fm: &FMindex, q: Seq<char>, b: int, o: int) -> int {
    if voted(block_votes(fm, q, b), o) {
        block_match(fm, q, b)
    } else {
        0
    }
}

/// The total weight of an offset is the sum of the matched lengths of the
/// blocks that vote for it: two blocks voting for the same offset give it
/// the sum of their matched lengths.
pub proof fn lemma_seed_weight_sum(fm: &FMindex, q: Seq<char>, o: int)
    requires
        fm.wf(),
    ensures
        weight_of(seed_votes(fm, q), o) == block_share(fm, q, 0, o) + block_share(fm, q, 1, o)
            + block_share(fm, q, 2, o) + block_share(fm, q, 3, o),
{
    let len = q.len() as int;
    assert forall|b: int| 0 <= b < 4 implies #[trigger] weight_of(block_votes(fm, q, b), o)
        == block_share(fm, q, b, o) by {
        let (s, e) = block_span(len, b);
        assert(0 <= s <= e <= len) by {
            let l = len / 4;
            assert(0 <= l && 4 * l <= len);
            assert(0 <= b * l <= len && (b < 3 ==> b * l <= (b + 1) * l <= len)) by (nonlinear_arith)
                requires
                    0 <= l,
                    4 * l <= len,
                    0 <= b < 4,
            ;
        }
        let blk = q.subrange(s, e);
        let r = search_result(fm, blk, SearchMode::Partial);
        if blk.len() > 0 {
            crate::search::lemma_partial_from_bounds(fm, blk, blk.len() - 1);
        }
        crate::search::lemma_search_hits_distinct(fm, blk, SearchMode::Partial);
        lemma_votes_weight_bound(r.0, (e - s - r.1) + s, r.1, o);
    }
    let v0 = block_votes(fm, q, 0);
    let v1 = block_votes(fm, q, 1);
    let v2 = block_votes(fm, q, 2);
    let v3 = block_votes(fm, q, 3);
    lemma_weight_additive(v0, v1, o);
    lemma_weight_additive(v0 + v1, v2, o);
    lemma_weight_additive(v0 + v1 + v2, v3, o);
    assert(weight_of(v0, o) == block_share(fm, q, 0, o));
    assert(weight_of(v1, o) == block_share(fm, q, 1, o));
    assert(weight_of(v2, o) == block_share(fm, q, 2, o));
    assert(weight_of(v3, o) == block_share(fm, q, 3, o));
}

/// Every vote comes from a hit.
proof fn lemma_votes_offsets(hits: Seq<usize>, shift: int, w: int)
    ensures
        forall|k: int| 0 <= k < votes_of(hits, shift, w).len() ==> exists|t: int|
            0 <= t < hits.len() && hits[t] as int - shift == (#[trigger] votes_of(hits, shift, w)[k]).0,
    decreases hits.len(),
{
    if hits.len() > 0 {
        let rest = hits.drop_last();
        lemma_votes_offsets(rest, shift, w);
        let v = votes_of(hits, shift, w);
        let v0 = votes_of(rest, shift, w);
        assert forall|k: int| 0 <= k < v.len() implies exists|t: int|
            0 <= t < hits.len() && hits[t] as int - shift == (#[trigger] v[k]).0 by {
            if k < v0.len() {
                assert(v[k] == v0[k]);
                let t = choose|t: int| 0 <= t < rest.len() && rest[t] as int - shift == v0[k].0;
                assert(hits[t] == rest[t]);
            } else {
                assert(hits[hits.len() - 1] as int - shift == v[k].0);
            }
        }
    }
}

/// Votes as offsets and weights.
pub open spec fn votes_view(v: Seq<(usize, u32)>) -> Seq<(int, int)> {
    Seq::new(v.len(), |i: int| (v[i].0 as int, v[i].1 as int))
}

/// Every vote has a weight of at least 0.
pub open spec fn weights_nonneg(votes: Seq<(int, int)>) -> bool {
    forall|k: int| 0 <= k < votes.len() ==> (#[trigger] votes[k]).1 >= 0
}

/// The votes of a prefix weigh no more than all the votes.
proof fn lemma_weight_prefix(votes: Seq<(int, int)>, k: int, o: int)
    requires
        0 <= k <= votes.len(),
        weights_nonneg(votes),
    ensures
        weight_of(votes.take(k), o) <= weight_of(votes, o),
    decreases votes.len() - k,
{
    if k < votes.len() {
        assert(votes.take(k + 1).drop_last() =~= votes.take(k));
        assert(votes.take(k + 1).last() == votes[k]);
        lemma_weight_prefix(votes, k + 1, o);
    } else {
        assert(votes.take(k) =~= votes);
    }
}

/// No offset gets more weight than the length of the read, and no vote has
/// a negative weight.
proof fn lemma_seed_weight_bound(fm: &FMindex, q: Seq<char>, o: int)
    requires
        fm.wf(),
    ensures
        weight_of(seed_votes(fm, q), o) <= q.len(),
        weights_nonneg(seed_votes(fm, q)),
{
    lemma_permutation_facts(fm.sa@, fm.rows() as nat);
    let len = q.len() as int;
    assert forall|b: int| 0 <= b < 4 implies 0 <= #[trigger] weight_of(block_votes(fm, q, b), o)
        <= block_span(len, b).1 - block_span(len, b).0 && weights_nonneg(block_votes(fm, q, b)) by {
        let (s, e) = block_span(len, b);
        assert(0 <= s <= e <= len) by {
            let l = len / 4;
            assert(0 <= l && 4 * l <= len);
            assert(0 <= b * l <= len && (b < 3 ==> b * l <= (b + 1) * l <= len)) by (nonlinear_arith)
                requires
                    0 <= l,
                    4 * l <= len,
                    0 <= b < 4,
            ;
        }
        let blk = q.subrange(s, e);
        let r = search_result(fm, blk, SearchMode::Partial);
        if blk.len() > 0 {
            crate::search::lemma_partial_from_bounds(fm, blk, blk.len() - 1);
        }
        crate::search::lemma_search_hits_distinct(fm, blk, SearchMode::Partial);
        lemma_votes_weight_bound(r.0, (e - s - r.1) + s, r.1, o);
    }
    let v0 = block_votes(fm, q, 0);
    let v1 = block_votes(fm, q, 1);
    let v2 = block_votes(fm, q, 2);
    let v3 = block_votes(fm, q, 3);
    lemma_weight_additive(v0, v1, o);
    lemma_weight_additive(v0 + v1, v2, o);
    lemma_weight_additive(v0 + v1 + v2, v3, o);
    assert(0 <= weight_of(v0, o) <= block_span(len, 0).1 - block_span(len, 0).0);
    assert(0 <= weight_of(v1, o) <= block_span(len, 1).1 - block_span(len, 1).0);
    assert(0 <= weight_of(v2, o) <= block_span(len, 2).1 - block_span(len, 2).0);
    assert(0 <= weight_of(v3, o) <= block_span(len, 3).1 - block_span(len, 3).0);
    assert(weights_nonneg(v0) && weights_nonneg(v1) && weights_nonneg(v2) && weights_nonneg(v3));
    let all = seed_votes(fm, q);
    assert forall|k: int| 0 <= k < all.len() implies (#[trigger] all[k]).1 >= 0 by {
        if k < v0.len() {
            assert(all[k] == v0[k]);
        } else if k < v0.len() + v1.len() {
            assert(all[k] == v1[k - v0.len()]);
        } else if k < v0.len() + v1.len() + v2.len() {
            assert(all[k] == v2[k - v0.len() - v1.len()]);
        } else {
            assert(all[k] == v3[k - v0.len() - v1.len() - v2.len()]);
        }
    }
}

/// Appends the votes of block `b` of `q` to `votes`.
fn collect_block_votes(q: &Vec<char>, b: usize, fm: &FMindex, votes: &mut Vec<(usize, u32)>)
    requires
        fm.wf(),
        b < 4,
        q@.len() <= u32::MAX,
    ensures
        votes_view(final(votes)@) == votes_view(old(votes)@) + block_votes(fm, q@, b as int),
{
    let len = q.len();
    let l = len / 4;
    proof {
        assert(b * l <= len && (b < 3 ==> b * l <= (b + 1) * l <= len)) by (nonlinear_arith)
            requires
                l == len / 4,
                b < 4,
        ;
    }
    let s = b * l;
    let e = if b < 3 {
        (b + 1) * l
    } else {
        len
    };
    proof {
        assert((s as int, e as int) == block_span(len as int, b as int));
    }
    let mut block: Vec<char> = Vec::new();
    let mut i: usize = s;
    while i < e
        invariant
            s <= i <= e <= len,
            len == q@.len(),
            block@ == q@.subrange(s as int, i as int),
        decreases e - i,
    {
        block.push(q[i]);
        i = i + 1;
        proof {
            assert(block@ =~= q@.subrange(s as int, i as int));
        }
    }
    let (hits, ml) = backward_search(&block, fm, SearchMode::Partial);
    proof {
        if block@.len() > 0 {
            crate::search::lemma_partial_from_bounds(fm, block@, block@.len() - 1);
        }
    }
    let shift = (e - s - ml as usize) + s;
    let ghost start = votes@;
    let mut k: usize = 0;
    while k < hits.len()
        invariant
            k <= hits.len(),
            votes_view(votes@) == votes_view(start) + votes_of(hits@.take(k as int), shift as int, ml as int),
        decreases hits.len() - k,
    {
        let h = hits[k];
        proof {
            assert(hits@.take(k + 1).drop_last() =~= hits@.take(k as int));
            assert(hits@.take(k + 1).last() == h);
        }
        let ghost vb = votes@;
        if h >= shift {
            votes.push((h - shift, ml));
            proof {
                assert(votes_view(votes@) =~= votes_view(vb) + seq![((h - shift) as int, ml as int)]);
            }
        } else {
            proof {
                assert(votes_view(votes@) =~= votes_view(vb) + Seq::<(int, int)>::empty());
            }
        }
        k = k + 1;
        proof {
            assert(votes_of(hits@.take(k as int), shift as int, ml as int) == votes_of(
                hits@.take(k - 1),
                shift as int,
                ml as int,
            ) + if h >= shift {
                seq![((h - shift) as int, ml as int)]
            } else {
                Seq::<(int, int)>::empty()
            });
            assert(votes_view(votes@) =~= votes_view(start) + votes_of(hits@.take(k as int), shift as int, ml as int));
        }
    }
    proof {
        assert(hits@.take(k as int) =~= hits@);
    }
}

/// The candidate offsets for `query`: every offset with the greatest total
/// weight of votes, once each. None when no block votes at all.
pub fn find_seeds(query: &str, fm_struct: &FMindex) -> (r: Vec<usize>)
    requires
        fm_struct.wf(),
        query@.len() <= u32::MAX,
    ensures
        r@.no_duplicates(),
        forall|o: usize| r@.contains(o) <==> is_top(seed_votes(fm_struct, query@), o as int),
{
    let q = chars_of(query);
    let mut votes: Vec<(usize, u32)> = Vec::new();
    let mut b: usize = 0;
    while b < 4
        invariant
            b <= 4,
            fm_struct.wf(),
            q@ == query@,
            q@.len() <= u32::MAX,
            votes_view(votes@) == if b == 0 {
                Seq::<(int, int)>::empty()
            } else if b == 1 {
                block_votes(fm_struct, q@, 0)
            } else if b == 2 {
                block_votes(fm_struct, q@, 0) + block_votes(fm_struct, q@, 1)
            } else if b == 3 {
                block_votes(fm_struct, q@, 0) + block_votes(fm_struct, q@, 1) + block_votes(fm_struct, q@, 2)
            } else {
                seed_votes(fm_struct, q@)
            },
        decreases 4 - b,
    {
        collect_block_votes(&q, b, fm_struct, &mut votes);
        b = b + 1;
    }
    let ghost all = votes_view(votes@);
    let mut pq = new_queue();
    let mut k: usize = 0;
    while k < votes.len()
        invariant
            k <= votes.len(),
            fm_struct.wf(),
            all == votes_view(votes@),
            all == seed_votes(fm_struct, query@),
            query@.len() <= u32::MAX,
            queue_items(pq).dom().finite(),
            forall|o: usize| #[trigger] queue_items(pq).contains_key(o) <==> voted(all.take(k as int), o as int),
            forall|o: usize| #[trigger] queue_items(pq).contains_key(o) ==> queue_items(pq)[o] as int == weight_of(all.take(k as int), o as int),
        decreases votes.len() - k,
    {
        let (o, w) = votes[k];
        let ghost pre = all.take(k as int);
        let ghost post = all.take(k + 1);
        proof {
            assert(post.drop_last() =~= pre);
            assert(post.last() == (o as int, w as int));
            lemma_seed_weight_bound(fm_struct, query@, o as int);
            lemma_weight_prefix(all, k + 1, o as int);
            assert forall|o2: usize| voted(post, o2 as int) <==> voted(pre, o2 as int) || o2 == o by {
                if voted(post, o2 as int) {
                    let t = choose|t: int| 0 <= t < post.len() && (#[trigger] post[t]).0 == o2 as int;
                    if t < pre.len() {
                        assert(pre[t] == post[t]);
                    }
                }
                if voted(pre, o2 as int) {
                    let t = choose|t: int| 0 <= t < pre.len() && (#[trigger] pre[t]).0 == o2 as int;
                    assert(pre[t] == post[t]);
                }
                if o2 == o {
                    assert(post[k as int].0 == o2 as int);
                }
            }
            if !voted(pre, o as int) {
                lemma_weight_unvoted(pre, o as int);
            }
            assert(weight_of(post, o as int) == weight_of(pre, o as int) + w);
            assert(forall|o2: usize| o2 != o ==> weight_of(post, o2 as int) == weight_of(pre, o2 as int));
        }
        match queue_priority(&pq, o) {
            Some(p) => {
                queue_push(&mut pq, o, p + w);
            },
            None => {
                queue_push(&mut pq, o, w);
            },
        }
        k = k + 1;
    }
    proof {
        assert(all.take(k as int) =~= all);
    }
    let ghost m0 = queue_items(pq);
    let mut out: Vec<usize> = Vec::new();
    let top = match queue_peek(&pq) {
        None => {
            proof {
                assert forall|o: usize| !is_top(all, o as int) by {
                    if voted(all, o as int) {
                        assert(m0.contains_key(o));
                        assert(m0.dom().contains(o));
                    }
                }
            }
            return out;
        },
        Some((_, p)) => p,
    };
    let ghost top_item = choose|it: usize| m0.contains_key(it) && m0[it] == top;
    loop
        invariant
            m0.dom().finite(),
            queue_items(pq).dom().finite(),
            m0.contains_key(top_item) && m0[top_item] == top,
            forall|o: usize| #[trigger] m0.contains_key(o) ==> m0[o] <= top,
            forall|o: usize| #[trigger] queue_items(pq).contains_key(o) <==> m0.contains_key(o) && !out@.contains(o),
            forall|o: usize| #[trigger] queue_items(pq).contains_key(o) ==> queue_items(pq)[o] == m0[o],
            forall|t: int| 0 <= t < out@.len() ==> m0.contains_key(#[trigger] out@[t]) && m0[out@[t]] == top,
            out@.no_duplicates(),
        ensures
            forall|o: usize| out@.contains(o) <==> m0.contains_key(o) && m0[o] == top,
            out@.no_duplicates(),
        decreases queue_items(pq).dom().len(),
    {
        match queue_peek(&pq) {
            None => {
                proof {
                    assert forall|o: usize| m0.contains_key(o) && m0[o] == top implies out@.contains(o) by {
                        if !out@.contains(o) {
                            assert(queue_items(pq).contains_key(o));
                            assert(queue_items(pq).dom().contains(o));
                        }
                    }
                }
                break;
            },
            Some((it, p)) => {
                if p != top {
                    proof {
                        assert forall|o: usize| m0.contains_key(o) && m0[o] == top implies out@.contains(o) by {
                            if !out@.contains(o) {
                                assert(queue_items(pq).contains_key(o));
                            }
                        }
                    }
                    break;
                }
            },
        }
        let ghost before = queue_items(pq);
        let ghost out_before = out@;
        match queue_pop(&mut pq) {
            None => {
                break;
            },
            Some((o, _)) => {
                proof {
                    assert(before.dom().contains(o));
                    assert(queue_items(pq).dom() =~= before.dom().remove(o));
                }
                out.push(o);
                proof {
                    assert(forall|o2: usize| out@.contains(o2) <==> out_before.contains(o2) || o2 == o) by {
                        assert forall|o2: usize| out@.contains(o2) implies out_before.contains(o2) || o2 == o by {
                            let t = choose|t: int| 0 <= t < out@.len() && out@[t] == o2;
                            if t < out_before.len() {
                                assert(out@[t] == out_before[t]);
                            }
                        }
                        assert forall|o2: usize| out_before.contains(o2) implies out@.contains(o2) by {
                            let t = choose|t: int| 0 <= t < out_before.len() && out_before[t] == o2;
                            assert(out@[t] == out_before[t]);
                        }
                        assert(out@[out@.len() - 1] == o);
                    }
                }
            },
        }
    }
    proof {
        lemma_seed_weight_bound(fm_struct, query@, 0);
        assert forall|o: usize| out@.contains(o) <==> is_top(all, o as int) by {
            if out@.contains(o) {
                assert forall|t: int| 0 <= t < all.len() implies weight_of(all, (#[trigger] all[t]).0) <= weight_of(all, o as int) by {
                    let v = all[t].0;
                    assert(v == votes@[t].0 as int);
                    let vu = votes@[t].0;
                    assert(voted(all, vu as int));
                    assert(m0.contains_key(vu));
                }
            }
            if is_top(all, o as int) {
                assert(m0.contains_key(o));
                assert(voted(all, top_item as int));
                let t = choose|t: int| 0 <= t < all.len() && (#[trigger] all[t]).0 == top_item as int;
                assert(weight_of(all, all[t].0) <= weight_of(all, o as int));
            }
        }
    }
    out
}

} // verus!
