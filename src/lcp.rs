//! Longest common prefixes of strings and of neighbouring suffixes.

use vstd::prelude::*;
use vstd::string::StringSliceAdditionalSpecFns;

verus! {

/// The length of the longest common prefix of two byte sequences.
pub open spec fn common_byte_prefix(a: Seq<u8>, b: Seq<u8>) -> nat
    decreases a.len(),
{
    if a.len() == 0 || b.len() == 0 || a[0] != b[0] {
        0
    } else {
        1 + common_byte_prefix(a.drop_first(), b.drop_first())
    }
}

/// The longest prefix of `first`, in bytes, that every byte sequence of
/// `rest` starts with.
pub open spec fn group_lcp(first: Seq<u8>, rest: Seq<Seq<u8>>) -> nat
    decreases rest.len(),
{
    if rest.len() == 0 {
        first.len()
    } else {
        let a = group_lcp(first, rest.drop_last());
        let b = common_byte_prefix(first, rest.last());
        if a < b {
            a
        } else {
            b
        }
    }
}

/// The UTF-8 bytes of a list of strings.
pub open spec fn byte_views(strings: Seq<&str>) -> Seq<Seq<u8>> {
    Seq::new(strings.len(), |i: int| strings[i].spec_bytes())
}

/// A shared prefix that ends where the sequences differ, or where one ends,
/// is their longest common prefix.
proof fn lemma_common_byte_prefix_unique(a: Seq<u8>, b: Seq<u8>, k: int)
    requires
        0 <= k <= a.len(),
        k <= b.len(),
        forall|t: int| 0 <= t < k ==> a[t] == b[t],
        k == a.len() || k == b.len() || a[k] != b[k],
    ensures
        common_byte_prefix(a, b) == k,
    decreases a.len(),
{
    if k > 0 {
        assert(a[0] == b[0]);
        assert forall|t: int| 0 <= t < k - 1 implies a.drop_first()[t] == b.drop_first()[t] by {
            assert(a[t + 1] == b[t + 1]);
        }
        lemma_common_byte_prefix_unique(a.drop_first(), b.drop_first(), k - 1);
    }
}

/// The length of the common prefix of `a[i..]` and `b[j..]`.
fn common_bytes(a: &[u8], i: usize, b: &[u8], j: usize) -> (k: usize)
    requires
        i <= a@.len(),
        j <= b@.len(),
    ensures
        k as nat == common_byte_prefix(a@.skip(i as int), b@.skip(j as int)),
{
    let ghost sa = a@.skip(i as int);
    let ghost sb = b@.skip(j as int);
    let mut k: usize = 0;
    while k < a.len() - i && k < b.len() - j && a[i + k] == b[j + k]
        invariant
            i <= a@.len(),
            j <= b@.len(),
            k <= a@.len() - i,
            k <= b@.len() - j,
            sa == a@.skip(i as int),
            sb == b@.skip(j as int),
            forall|t: int| 0 <= t < k ==> #[trigger] sa[t] == sb[t],
        decreases a@.len() - k,
    {
        k = k + 1;
    }
    proof {
        lemma_common_byte_prefix_unique(sa, sb, k as int);
    }
    k
}

/// The length in bytes of the longest prefix that all of `strings` share.
pub fn get_lcp(strings: Vec<&str>) -> (r: i32)
    requires
        strings@.len() >= 1,
        strings@[0].spec_bytes().len() <= i32::MAX,
    ensures
        r as int == group_lcp(strings@[0].spec_bytes(), byte_views(strings@).drop_first()),
{
    let first: &[u8] = strings[0].as_bytes();
    let mut len: usize = first.len();
    let mut i: usize = 1;
    while i < strings.len()
        invariant
            1 <= i <= strings@.len(),
            first@ == strings@[0].spec_bytes(),
            len as nat == group_lcp(first@, byte_views(strings@).subrange(1, i as int)),
            len <= first@.len(),
        decreases strings@.len() - i,
    {
        let other: &[u8] = strings[i].as_bytes();
        proof {
            assert(first@.skip(0) =~= first@);
            assert(other@.skip(0) =~= other@);
        }
        let k = common_bytes(first, 0, other, 0);
        proof {
            let rest = byte_views(strings@).subrange(1, i + 1);
            assert(rest.drop_last() =~= byte_views(strings@).subrange(1, i as int));
            assert(rest.last() == strings@[i as int].spec_bytes());
        }
        if k < len {
            len = k;
        }
        i = i + 1;
    }
    proof {
        assert(byte_views(strings@).subrange(1, i as int) =~= byte_views(strings@).drop_first());
    }
    len as i32
}

/// For each pair of neighbouring rows of `arr`, the length in bytes of the
/// common prefix of the suffixes of `genome` that start at those byte
/// offsets.
pub fn calc_lcp1(arr: &Vec<usize>, genome: &str) -> (r: Vec<i32>)
    requires
        genome.spec_bytes().len() <= i32::MAX,
        forall|k: int| 0 <= k < arr@.len() ==> (#[trigger] arr@[k]) <= genome.spec_bytes().len(),
    ensures
        r@.len() == if arr@.len() == 0 {
            0
        } else {
            arr@.len() - 1
        },
        forall|k: int| 0 <= k < r@.len() ==> (#[trigger] r@[k]) as int == common_byte_prefix(
            genome.spec_bytes().skip(arr@[k] as int),
            genome.spec_bytes().skip(arr@[k + 1] as int),
        ),
{
    let g: &[u8] = genome.as_bytes();
    let mut lcp1: Vec<i32> = Vec::new();
    if arr.len() == 0 {
        return lcp1;
    }
    let mut i: usize = 0;
    while i < arr.len() - 1
        invariant
            i + 1 <= arr@.len(),
            g@ == genome.spec_bytes(),
            g@.len() <= i32::MAX,
            forall|k: int| 0 <= k < arr@.len() ==> (#[trigger] arr@[k]) <= g@.len(),
            lcp1@.len() == i,
            forall|k: int| 0 <= k < i ==> (#[trigger] lcp1@[k]) as int == common_byte_prefix(
                g@.skip(arr@[k] as int),
                g@.skip(arr@[k + 1] as int),
            ),
        decreases arr@.len() - i,
    {
        let k = common_bytes(g, arr[i], g, arr[i + 1]);
        proof {
            lemma_common_byte_prefix_bound(g@.skip(arr@[i as int] as int), g@.skip(arr@[i + 1] as int));
        }
        lcp1.push(k as i32);
        i = i + 1;
    }
    lcp1
}

/// A common prefix is no longer than either sequence.
proof fn lemma_common_byte_prefix_bound(a: Seq<u8>, b: Seq<u8>)
    ensures
        common_byte_prefix(a, b) <= a.len(),
        common_byte_prefix(a, b) <= b.len(),
    decreases a.len(),
{
    if !(a.len() == 0 || b.len() == 0 || a[0] != b[0]) {
        lemma_common_byte_prefix_bound(a.drop_first(), b.drop_first());
    }
}

} // verus!
