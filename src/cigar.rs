//! Edit scripts: operations of an alignment and their run-length encoding.

use vstd::prelude::*;

verus! {

/// An operation that consumes a symbol of the query: match, mismatch, insertion.
pub open spec fn consumes_query(c: char) -> bool {
    c == '=' || c == 'X' || c == 'I'
}

/// An operation that consumes a symbol of the reference: match, mismatch, deletion.
pub open spec fn consumes_reference(c: char) -> bool {
    c == '=' || c == 'X' || c == 'D'
}

/// One of the four edit operations.
pub open spec fn is_op(c: char) -> bool {
    c == '=' || c == 'X' || c == 'I' || c == 'D'
}

/// How many query symbols the operations consume.
pub open spec fn query_span(ops: Seq<char>) -> nat
    decreases ops.len(),
{
    if ops.len() == 0 {
        0
    } else {
        query_span(ops.drop_last()) + if consumes_query(ops.last()) {
            1nat
        } else {
            0nat
        }
    }
}

/// How many reference symbols the operations consume.
pub open spec fn reference_span(ops: Seq<char>) -> nat
    decreases ops.len(),
{
    if ops.len() == 0 {
        0
    } else {
        reference_span(ops.drop_last()) + if consumes_reference(ops.last()) {
            1nat
        } else {
            0nat
        }
    }
}

/// The run-length encoding of `ops`: maximal runs of one operation, each as
/// its length and the operation.
pub open spec fn rle(ops: Seq<char>) -> Seq<(nat, char)>
    decreases ops.len(),
{
    if ops.len() == 0 {
        Seq::empty()
    } else {
        let r = rle(ops.drop_last());
        let c = ops.last();
        if r.len() > 0 && r.last().1 == c {
            r.update(r.len() - 1, ((r.last().0 + 1) as nat, c))
        } else {
            r.push((1nat, c))
        }
    }
}

/// Sum of the lengths of the runs whose operation consumes query symbols.
pub open spec fn runs_query_span(runs: Seq<(nat, char)>) -> nat
    decreases runs.len(),
{
    if runs.len() == 0 {
        0
    } else {
        runs_query_span(runs.drop_last()) + if consumes_query(runs.last().1) {
            runs.last().0
        } else {
            0nat
        }
    }
}

/// Sum of the lengths of the runs whose operation consumes reference symbols.
pub open spec fn runs_reference_span(runs: Seq<(nat, char)>) -> nat
    decreases runs.len(),
{
    if runs.len() == 0 {
        0
    } else {
        runs_reference_span(runs.drop_last()) + if consumes_reference(runs.last().1) {
            runs.last().0
        } else {
            0nat
        }
    }
}

/// The decimal digit `d`.
pub open spec fn digit_char(d: nat) -> char {
    if d == 0 {
        '0'
    } else if d == 1 {
        '1'
    } else if d == 2 {
        '2'
    } else if d == 3 {
        '3'
    } else if d == 4 {
        '4'
    } else if d == 5 {
        '5'
    } else if d == 6 {
        '6'
    } else if d == 7 {
        '7'
    } else if d == 8 {
        '8'
    } else {
        '9'
    }
}

/// The decimal notation of `k`, without leading zeros.
pub open spec fn decimal(k: nat) -> Seq<char>
    decreases k,
{
    if k < 10 {
        seq![digit_char(k)]
    } else {
        decimal(k / 10).push(digit_char(k % 10))
    }
}

/// The CIGAR text of a run-length encoding: each run as its length in
/// decimal followed by its operation.
pub open spec fn render(runs: Seq<(nat, char)>) -> Seq<char>
    decreases runs.len(),
{
    if runs.len() == 0 {
        Seq::empty()
    } else {
        render(runs.drop_last()) + decimal(runs.last().0).push(runs.last().1)
    }
}

/// The CIGAR text of an operation sequence.
pub open spec fn cigar_of(ops: Seq<char>) -> Seq<char> {
    render(rle(ops))
}

/// The runs as lengths and operations.
pub open spec fn runs_view(v: Seq<(usize, char)>) -> Seq<(nat, char)> {
    Seq::new(v.len(), |i: int| (v[i].0 as nat, v[i].1))
}

/// The runs of an encoding hold the same operations as the sequence it
/// encodes, counted by what they consume.
pub proof fn lemma_rle_spans(ops: Seq<char>)
    ensures
        runs_query_span(rle(ops)) == query_span(ops),
        runs_reference_span(rle(ops)) == reference_span(ops),
    decreases ops.len(),
{
    if ops.len() > 0 {
        let r = rle(ops.drop_last());
        lemma_rle_spans(ops.drop_last());
        let c = ops.last();
        if r.len() > 0 && r.last().1 == c {
            let r2 = r.update(r.len() - 1, ((r.last().0 + 1) as nat, c));
            assert(r2.drop_last() =~= r.drop_last());
        } else {
            assert(r.push((1nat, c)).drop_last() =~= r);
        }
    }
}

/// Every run of an encoding of edit operations holds an edit operation and a
/// positive length.
pub proof fn lemma_rle_ops(ops: Seq<char>)
    requires
        forall|i: int| 0 <= i < ops.len() ==> is_op(#[trigger] ops[i]),
    ensures
        forall|i: int| 0 <= i < rle(ops).len() ==> is_op(#[trigger] rle(ops)[i].1) && rle(ops)[i].0
            >= 1,
        rle(ops).len() <= ops.len(),
    decreases ops.len(),
{
    if ops.len() > 0 {
        lemma_rle_ops(ops.drop_last());
        assert(is_op(ops[ops.len() - 1]));
    }
}

/// One digit as text.
fn digit_str(d: usize) -> (s: &'static str)
    requires
        d < 10,
    ensures
        s@ == seq![digit_char(d as nat)],
{
    if d == 0 {
        proof { reveal_strlit("0"); }
        "0"
    } else if d == 1 {
        proof { reveal_strlit("1"); }
        "1"
    } else if d == 2 {
        proof { reveal_strlit("2"); }
        "2"
    } else if d == 3 {
        proof { reveal_strlit("3"); }
        "3"
    } else if d == 4 {
        proof { reveal_strlit("4"); }
        "4"
    } else if d == 5 {
        proof { reveal_strlit("5"); }
        "5"
    } else if d == 6 {
        proof { reveal_strlit("6"); }
        "6"
    } else if d == 7 {
        proof { reveal_strlit("7"); }
        "7"
    } else if d == 8 {
        proof { reveal_strlit("8"); }
        "8"
    } else {
        proof { reveal_strlit("9"); }
        "9"
    }
}

/// One edit operation as text.
fn op_str(c: char) -> (s: &'static str)
    requires
        is_op(c),
    ensures
        s@ == seq![c],
{
    if c == '=' {
        proof { reveal_strlit("="); }
        "="
    } else if c == 'X' {
        proof { reveal_strlit("X"); }
        "X"
    } else if c == 'I' {
        proof { reveal_strlit("I"); }
        "I"
    } else {
        proof { reveal_strlit("D"); }
        "D"
    }
}

/// Appends `k` in decimal to `s`.
pub fn push_decimal(s: &mut String, k: usize)
    ensures
        final(s)@ == old(s)@ + decimal(k as nat),
    decreases k,
{
    if k >= 10 {
        push_decimal(s, k / 10);
    }
    s.append(digit_str(k % 10));
    proof {
        if k >= 10 {
            assert(decimal(k as nat) == decimal((k / 10) as nat).push(digit_char((k % 10) as nat)));
        }
    }
    assert(final(s)@ =~= old(s)@ + decimal(k as nat));
}

/// The run-length encoding of `ops`.
pub fn run_lengths(ops: &Vec<char>) -> (runs: Vec<(usize, char)>)
    ensures
        runs_view(runs@) == rle(ops@),
{
    let mut runs: Vec<(usize, char)> = Vec::new();
    let mut i: usize = 0;
    while i < ops.len()
        invariant
            i <= ops.len(),
            runs_view(runs@) == rle(ops@.take(i as int)),
            rle(ops@.take(i as int)).len() <= i,
            forall|k: int| 0 <= k < runs@.len() ==> #[trigger] runs@[k].0 <= i,
        decreases ops.len() - i,
    {
        let c = ops[i];
        let ghost before = runs@;
        proof {
            assert(ops@.take(i + 1).drop_last() =~= ops@.take(i as int));
        }
        let len = runs.len();
        if len > 0 && runs[len - 1].1 == c {
            let count = runs[len - 1].0;
            runs.set(len - 1, (count + 1, c));
            proof {
                assert(runs_view(runs@) =~= rle(ops@.take(i + 1)));
            }
        } else {
            runs.push((1, c));
            proof {
                assert(runs_view(runs@) =~= rle(ops@.take(i + 1)));
            }
        }
        i = i + 1;
    }
    proof {
        assert(ops@.take(i as int) =~= ops@);
    }
    runs
}

/// The CIGAR text of a run-length encoding.
pub fn render_runs(runs: &Vec<(usize, char)>) -> (s: String)
    requires
        forall|i: int| 0 <= i < runs@.len() ==> is_op(#[trigger] runs@[i].1),
    ensures
        s@ == render(runs_view(runs@)),
{
    let mut s = String::new();
    let mut i: usize = 0;
    while i < runs.len()
        invariant
            i <= runs.len(),
            forall|k: int| 0 <= k < runs@.len() ==> is_op(#[trigger] runs@[k].1),
            s@ == render(runs_view(runs@.take(i as int))),
        decreases runs.len() - i,
    {
        let (k, c) = runs[i];
        push_decimal(&mut s, k);
        s.append(op_str(c));
        proof {
            assert(runs_view(runs@.take(i + 1)).drop_last() =~= runs_view(runs@.take(i as int)));
            assert(s@ =~= render(runs_view(runs@.take(i + 1))));
        }
        i = i + 1;
    }
    proof {
        assert(runs@.take(i as int) =~= runs@);
    }
    s
}

/// The CIGAR text of an operation sequence.
pub fn cigar_string(ops: &Vec<char>) -> (s: String)
    requires
        forall|i: int| 0 <= i < ops@.len() ==> is_op(#[trigger] ops@[i]),
    ensures
        s@ == cigar_of(ops@),
{
    let runs = run_lengths(ops);
    proof {
        lemma_rle_ops(ops@);
        assert forall|i: int| 0 <= i < runs@.len() implies is_op(#[trigger] runs@[i].1) by {
            assert(runs_view(runs@)[i].1 == runs@[i].1);
        }
    }
    render_runs(&runs)
}

} // verus!
