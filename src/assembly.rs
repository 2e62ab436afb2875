//! Overlaps between reads: the longest suffix of one read that is a prefix
//! of another.

use vstd::prelude::*;
use vstd::string::StrSliceExecFns;
use crate::text::chars_of;

verus! {

/// The last `x` symbols of `a` are the first `x` of `b`.
pub open spec fn overlaps_by(a: Seq<char>, b: Seq<char>, x: int) -> bool {
    0 <= x <= a.len() && x <= b.len() && a.skip(a.len() - x) == b.take(x)
}

/// The largest overlap of `a` onto `b` among `min_olap..=x`, or 0 if none.
pub open spec fn overlap_from(a: Seq<char>, b: Seq<char>, min_olap: int, x: int) -> int
    decreases x + 1,
{
    if x < min_olap || x < 0 {
        0
    } else if overlaps_by(a, b, x) {
        x
    } else {
        overlap_from(a, b, min_olap, x - 1)
    }
}

/// The largest overlap of `a` onto `b` of at least `min_olap` symbols, or 0.
pub open spec fn overlap(a: Seq<char>, b: Seq<char>, min_olap: int) -> int {
    overlap_from(a, b, min_olap, if a.len() < b.len() {
        a.len() as int
    } else {
        b.len() as int
    })
}

/// The prefixes of `s`, shortest first: entry `k` is the first `k` symbols.
pub fn prefixes(s: &str) -> (r: Vec<&str>)
    ensures
        r@.len() == s@.len() + 1,
        forall|k: int| 0 <= k < r@.len() ==> (#[trigger] r@[k])@ == s@.take(k),
{
    let n = s.unicode_len();
    let mut r: Vec<&str> = Vec::new();
    let mut k: usize = 0;
    while k < n
        invariant
            n == s@.len(),
            k <= n,
            r@.len() == k,
            forall|t: int| 0 <= t < k ==> (#[trigger] r@[t])@ == s@.take(t),
        decreases n - k,
    {
        r.push(s.substring_char(0, k));
        proof {
            assert(s@.subrange(0, k as int) =~= s@.take(k as int));
        }
        k = k + 1;
    }
    r.push(s.substring_char(0, n));
    proof {
        assert(s@.subrange(0, n as int) =~= s@.take(n as int));
    }
    r
}

/// The suffixes of `s`, shortest first: entry `k` is the last `k` symbols.
pub fn suffixes(s: &str) -> (r: Vec<&str>)
    ensures
        r@.len() == s@.len() + 1,
        forall|k: int| 0 <= k < r@.len() ==> (#[trigger] r@[k])@ == s@.skip(s@.len() - k),
{
    let n = s.unicode_len();
    let mut r: Vec<&str> = Vec::new();
    let mut k: usize = 0;
    while k < n
        invariant
            n == s@.len(),
            k <= n,
            r@.len() == k,
            forall|t: int| 0 <= t < k ==> (#[trigger] r@[t])@ == s@.skip(s@.len() - t),
        decreases n - k,
    {
        r.push(s.substring_char(n - k, n));
        proof {
            assert(s@.subrange(n - k, n as int) =~= s@.skip(n - k));
        }
        k = k + 1;
    }
    r.push(s.substring_char(0, n));
    proof {
        assert(s@.subrange(0, n as int) =~= s@.skip(0));
    }
    r
}

/// Whether the last `x` symbols of `a` are the first `x` of `b`.
fn overlaps_at(a: &Vec<char>, b: &Vec<char>, x: usize) -> (r: bool)
    requires
        x <= a.len(),
        x <= b.len(),
    ensures
        r == overlaps_by(a@, b@, x as int),
{
    let off = a.len() - x;
    let mut i: usize = 0;
    while i < x
        invariant
            i <= x <= b.len(),
            off + x == a.len(),
            forall|t: int| 0 <= t < i ==> a@[off + t] == #[trigger] b@[t],
        decreases x - i,
    {
        if a[off + i] != b[i] {
            proof {
                assert(a@.skip(off as int)[i as int] != b@.take(x as int)[i as int]);
            }
            return false;
        }
        i = i + 1;
    }
    proof {
        assert(a@.skip(off as int) =~= b@.take(x as int));
    }
    true
}

/// The largest overlap of `curr` onto `comp` of at least `min_olap`
/// symbols: the longest suffix of `curr` that is a prefix of `comp`, or 0.
pub fn find_overlap(curr: &str, comp: &str, min_olap: u32) -> (r: u32)
    requires
        curr@.len() <= u32::MAX,
    ensures
        r as int == overlap(curr@, comp@, min_olap as int),
{
    let a = chars_of(curr);
    let b = chars_of(comp);
    let top: usize = if a.len() < b.len() {
        a.len()
    } else {
        b.len()
    };
    let min = min_olap as usize;
    let mut x: usize = top;
    loop
        invariant
            x <= top,
            top <= a@.len(),
            top <= b@.len(),
            a@ == curr@,
            b@ == comp@,
            a@.len() <= u32::MAX,
            min == min_olap as int,
            overlap(curr@, comp@, min as int) == overlap_from(curr@, comp@, min as int, x as int),
        decreases x,
    {
        if x < min {
            return 0;
        }
        if overlaps_at(&a, &b, x) {
            return x as u32;
        }
        if x == 0 {
            proof {
                assert(overlap_from(curr@, comp@, min as int, -1) == 0);
            }
            return 0;
        }
        x = x - 1;
    }
}

} // verus!
