//! The text format of references and queries: a line that starts with `>`
//! opens a record and names it; the lines after it, up to the next such
//! line, are joined into the record's sequence.

use vstd::prelude::*;
use vstd::string::{StrSliceExecFns, StringExecFns};

verus! {

/// The line opens a record.
pub open spec fn is_header(line: Seq<char>) -> bool {
    line.len() > 0 && line[0] == '>'
}

/// The records of `lines`: each header with the lines after it joined.
/// Lines before the first header belong to no record.
pub open spec fn records(lines: Seq<Seq<char>>) -> Seq<(Seq<char>, Seq<char>)>
    decreases lines.len(),
{
    if lines.len() == 0 {
        Seq::empty()
    } else {
        let r = records(lines.drop_last());
        let l = lines.last();
        if is_header(l) {
            r.push((l.drop_first(), Seq::empty()))
        } else if r.len() == 0 {
            r
        } else {
            r.update(r.len() - 1, (r.last().0, r.last().1 + l))
        }
    }
}

/// All lines but the headers, joined.
pub open spec fn sequence_lines(lines: Seq<Seq<char>>) -> Seq<char>
    decreases lines.len(),
{
    if lines.len() == 0 {
        Seq::empty()
    } else if is_header(lines.last()) {
        sequence_lines(lines.drop_last())
    } else {
        sequence_lines(lines.drop_last()) + lines.last()
    }
}

/// The views of some lines.
pub open spec fn line_views(lines: Seq<String>) -> Seq<Seq<char>> {
    Seq::new(lines.len(), |i: int| lines[i]@)
}

/// The views of some records.
pub open spec fn record_views(recs: Seq<(String, String)>) -> Seq<(Seq<char>, Seq<char>)> {
    Seq::new(recs.len(), |i: int| (recs[i].0@, recs[i].1@))
}

/// Whether `line` opens a record.
fn line_is_header(line: &str) -> (b: bool)
    ensures
        b == is_header(line@),
{
    line.unicode_len() > 0 && line.get_char(0) == '>'
}

/// The records of the lines of a file: each header, without its `>`, with
/// the lines after it joined into its sequence.
pub fn parse_records(lines: &Vec<String>) -> (r: Vec<(String, String)>)
    ensures
        record_views(r@) == records(line_views(lines@)),
{
    let mut out: Vec<(String, String)> = Vec::new();
    let mut open = false;
    let mut header = String::new();
    let mut seq = String::new();
    let mut i: usize = 0;
    while i < lines.len()
        invariant
            i <= lines@.len(),
            records(line_views(lines@).take(i as int)) == if open {
                record_views(out@).push((header@, seq@))
            } else {
                record_views(out@)
            },
            !open ==> out@.len() == 0,
        decreases lines@.len() - i,
    {
        let line = lines[i].as_str();
        let ghost before = line_views(lines@).take(i as int);
        proof {
            assert(line_views(lines@).take(i + 1).drop_last() =~= before);
            assert(line_views(lines@).take(i + 1).last() == line@);
        }
        if line_is_header(line) {
            if open {
                let ghost prev = record_views(out@);
                out.push((header, seq));
                proof {
                    assert(record_views(out@) =~= prev.push((header@, seq@)));
                }
            }
            let n = line.unicode_len();
            header = String::from_str(line.substring_char(1, n));
            seq = String::new();
            open = true;
            proof {
                assert(header@ =~= line@.drop_first());
            }
        } else if open {
            seq.append(line);
        }
        proof {
            assert(records(line_views(lines@).take(i + 1)) =~= if open {
                record_views(out@).push((header@, seq@))
            } else {
                record_views(out@)
            });
        }
        i = i + 1;
    }
    if open {
        let ghost prev = record_views(out@);
        out.push((header, seq));
        proof {
            assert(record_views(out@) =~= prev.push((header@, seq@)));
        }
    }
    proof {
        assert(line_views(lines@).take(i as int) =~= line_views(lines@));
    }
    out
}

/// The reference text of the lines of a file: every line that is not a
/// header, joined, followed by the sentinel.
pub fn reference_text(lines: &Vec<String>) -> (r: String)
    ensures
        r@ == sequence_lines(line_views(lines@)).push('$'),
{
    let mut text = String::new();
    let mut i: usize = 0;
    while i < lines.len()
        invariant
            i <= lines@.len(),
            text@ == sequence_lines(line_views(lines@).take(i as int)),
        decreases lines@.len() - i,
    {
        let line = lines[i].as_str();
        proof {
            assert(line_views(lines@).take(i + 1).drop_last() =~= line_views(lines@).take(i as int));
            assert(line_views(lines@).take(i + 1).last() == line@);
        }
        if !line_is_header(line) {
            text.append(line);
        }
        i = i + 1;
    }
    proof {
        assert(line_views(lines@).take(i as int) =~= line_views(lines@));
        reveal_strlit("$");
    }
    text.append("$");
    proof {
        assert(text@ =~= sequence_lines(line_views(lines@)).push('$'));
    }
    text
}

} // verus!
