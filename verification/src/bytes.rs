//! Byte-level label arithmetic.
//!
//! A domain name is a byte string whose labels are separated by dots.
//! Everything here speaks of labels in right-to-left order (TLD first),
//! because that is the order in which the rule trie consumes them.

use vstd::prelude::*;

verus! {

/// The label separator.
pub const DOT: u8 = 46;

/// Index of the last dot in `s`, or `-1` when `s` has none.
pub open spec fn last_dot(s: Seq<u8>) -> int
    decreases s.len(),
{
    if s.len() == 0 {
        -1
    } else if s[s.len() - 1] == DOT {
        s.len() - 1
    } else {
        last_dot(s.drop_last())
    }
}

/// The labels of `s` in right-to-left order. A byte string always has at
/// least one label; separators produce empty labels on either side.
pub open spec fn rlabels(s: Seq<u8>) -> Seq<Seq<u8>>
    decreases s.len(),
{
    let j = last_dot(s);
    if 0 <= j < s.len() {
        seq![s.subrange(j + 1, s.len() as int)] + rlabels(s.subrange(0, j))
    } else {
        seq![s]
    }
}

/// Byte length of the trailing region of a string that holds the last `k`
/// labels: the labels' lengths plus the `k - 1` dots between them.
pub open spec fn rjoin_len(labs: Seq<Seq<u8>>, k: int) -> int
    decreases k,
{
    if k <= 0 {
        -1
    } else {
        rjoin_len(labs, k - 1) + 1 + labs[k - 1].len()
    }
}

pub proof fn lemma_last_dot(s: Seq<u8>)
    ensures
        -1 <= last_dot(s) < s.len(),
        last_dot(s) == -1 ==> forall|i: int| 0 <= i < s.len() ==> s[i] != DOT,
        last_dot(s) >= 0 ==> s[last_dot(s)] == DOT,
        forall|i: int| last_dot(s) < i < s.len() ==> s[i] != DOT,
    decreases s.len(),
{
    if s.len() == 0 {
    } else if s[s.len() - 1] == DOT {
    } else {
        lemma_last_dot(s.drop_last());
        assert forall|i: int| last_dot(s) < i < s.len() implies s[i] != DOT by {
            if i < s.len() - 1 {
                assert(s.drop_last()[i] == s[i]);
            }
        }
        if last_dot(s) == -1 {
            assert forall|i: int| 0 <= i < s.len() implies s[i] != DOT by {
                if i < s.len() - 1 {
                    assert(s.drop_last()[i] == s[i]);
                }
            }
        }
    }
}

/// A dot at `j` with no dot to its right pins `last_dot` down.
pub proof fn lemma_last_dot_position(s: Seq<u8>, j: int)
    requires
        0 <= j < s.len(),
        s[j] == DOT,
        forall|i: int| j < i < s.len() ==> s[i] != DOT,
    ensures
        last_dot(s) == j,
    decreases s.len(),
{
    if s[s.len() - 1] == DOT {
        assert(j == s.len() - 1);
    } else {
        assert forall|i: int| j < i < s.drop_last().len() implies s.drop_last()[i] != DOT by {
            assert(s.drop_last()[i] == s[i]);
        }
        assert(s.drop_last()[j] == s[j]);
        lemma_last_dot_position(s.drop_last(), j);
    }
}

pub proof fn lemma_no_dot_rlabels(s: Seq<u8>)
    requires
        forall|i: int| 0 <= i < s.len() ==> s[i] != DOT,
    ensures
        rlabels(s) =~= seq![s],
{
    lemma_last_dot(s);
    if last_dot(s) >= 0 {
        assert(s[last_dot(s)] == DOT);
    }
}

/// Peeling the last label: with a dot at `j` and none to its right, the
/// labels of `s` are the text after `j` followed by the labels before `j`.
pub proof fn lemma_rlabels_peel(s: Seq<u8>, j: int)
    requires
        0 <= j < s.len(),
        s[j] == DOT,
        forall|i: int| j < i < s.len() ==> s[i] != DOT,
    ensures
        rlabels(s) =~= seq![s.subrange(j + 1, s.len() as int)] + rlabels(s.subrange(0, j)),
{
    lemma_last_dot_position(s, j);
}

proof fn lemma_rjoin_one(labs: Seq<Seq<u8>>)
    ensures
        rjoin_len(labs, 1) == labs[0].len(),
{
    assert(rjoin_len(labs, 0) == -1);
}

proof fn lemma_rjoin_shift(x: Seq<u8>, labs: Seq<Seq<u8>>, k: int)
    requires
        1 <= k <= labs.len(),
    ensures
        rjoin_len(seq![x] + labs, k + 1) == x.len() + 1 + rjoin_len(labs, k),
    decreases k,
{
    if k == 1 {
        lemma_rjoin_one(labs);
        lemma_rjoin_one(seq![x] + labs);
        assert((seq![x] + labs)[0] == x);
        assert((seq![x] + labs)[1] == labs[0]);
    } else {
        lemma_rjoin_shift(x, labs, k - 1);
        assert((seq![x] + labs)[k] == labs[k - 1]);
    }
}

/// The central decomposition: the last `k` labels of `s` occupy exactly the
/// trailing `rjoin_len(rlabels(s), k)` bytes of `s`; a dot sits just before
/// that region whenever labels remain to its left; and the region's own
/// labels are exactly those `k` labels.
pub proof fn lemma_rlabels_suffix(s: Seq<u8>, k: int)
    requires
        1 <= k <= rlabels(s).len(),
    ensures
        ({
            let labs = rlabels(s);
            let n = rjoin_len(labs, k);
            &&& 0 <= n <= s.len()
            &&& (k < labs.len() ==> n < s.len() && s[s.len() - n - 1] == DOT)
            &&& (k == labs.len() ==> n == s.len())
            &&& rlabels(s.subrange(s.len() - n, s.len() as int)) =~= labs.take(k)
        }),
    decreases k,
{
    lemma_last_dot(s);
    let labs = rlabels(s);
    let j = last_dot(s);
    if j < 0 {
        // a single label
        assert(labs =~= seq![s]);
        assert(k == 1);
        lemma_rjoin_one(labs);
        assert(rjoin_len(labs, 1) == s.len());
        assert(s.subrange(0, s.len() as int) =~= s);
        assert(labs.take(1) =~= labs);
    } else {
        let front = s.subrange(0, j);
        let lastl = s.subrange(j + 1, s.len() as int);
        assert(labs =~= seq![lastl] + rlabels(front));
        assert(labs[0] == lastl);
        if k == 1 {
            let n = rjoin_len(labs, 1);
            lemma_rjoin_one(labs);
            assert(n == lastl.len());
            assert(s.len() - n - 1 == j);
            let region = s.subrange(s.len() - n, s.len() as int);
            assert(region =~= lastl);
            assert forall|i: int| 0 <= i < region.len() implies region[i] != DOT by {
                assert(region[i] == s[j + 1 + i]);
            }
            lemma_no_dot_rlabels(region);
            assert(labs.take(1) =~= seq![lastl]);
        } else {
            let flabs = rlabels(front);
            lemma_rlabels_suffix(front, k - 1);
            let np = rjoin_len(flabs, k - 1);
            lemma_rjoin_shift(lastl, flabs, k - 1);
            assert(labs =~= seq![lastl] + flabs);
            let n = rjoin_len(labs, k);
            assert(n == lastl.len() + 1 + np);
            assert(s.len() - n == j - np);
            let region = s.subrange(s.len() - n, s.len() as int);
            let fregion = front.subrange(front.len() - np, front.len() as int);
            // the region is the front's own trailing region, a dot, and the last label
            assert(region =~= fregion + seq![DOT] + lastl);
            if k < labs.len() {
                assert(k - 1 < flabs.len());
                assert(front[front.len() - np - 1] == DOT);
                assert(s[s.len() - n - 1] == front[j - np - 1]);
            } else {
                assert(np == front.len());
                assert(n == s.len());
            }
            // peel the region: its last dot separates `lastl` from `fregion`
            assert(region[fregion.len() as int] == DOT);
            assert forall|i: int| fregion.len() < i < region.len() implies region[i] != DOT by {
                assert(region[i] == lastl[i - fregion.len() - 1]);
                assert(lastl[i - fregion.len() - 1] == s[j + (i - fregion.len())]);
            }
            lemma_rlabels_peel(region, fregion.len() as int);
            assert(region.subrange(fregion.len() + 1 as int, region.len() as int) =~= lastl);
            assert(region.subrange(0, fregion.len() as int) =~= fregion);
            assert(rlabels(fregion) =~= flabs.take(k - 1));
            assert(rlabels(region) =~= seq![lastl] + flabs.take(k - 1));
            assert(labs.take(k) =~= seq![lastl] + flabs.take(k - 1));
        }
    }
}

/// Each label of a string is no longer than the string itself.
pub proof fn lemma_rjoin_len_bounds(s: Seq<u8>, k: int)
    requires
        1 <= k <= rlabels(s).len(),
    ensures
        k - 1 <= rjoin_len(rlabels(s), k) <= s.len(),
    decreases k,
{
    lemma_rlabels_suffix(s, k);
    if k > 1 {
        lemma_rjoin_len_bounds(s, k - 1);
    }
}

/// Compare two byte slices.
pub fn bytes_eq(a: &[u8], b: &[u8]) -> (r: bool)
    ensures
        r == (a@ == b@),
{
    if a.len() != b.len() {
        assert(a@.len() != b@.len());
        return false;
    }
    let n = a.len();
    let mut i: usize = 0;
    while i < n
        invariant
            n == a@.len() == b@.len(),
            0 <= i <= n,
            forall|j: int| 0 <= j < i ==> a@[j] == b@[j],
        decreases n - i,
    {
        if a[i] != b[i] {
            return false;
        }
        i += 1;
    }
    assert(a@ =~= b@);
    true
}

/// Split `s` into its labels, right to left.
pub fn rsplit_bytes<'a>(s: &'a [u8]) -> (r: Vec<&'a [u8]>)
    ensures
        r.deep_view() =~~= rlabels(s@),
{
    let mut r: Vec<&'a [u8]> = Vec::new();
    let mut end: usize = s.len();
    let mut i: usize = s.len();
    proof {
        assert(s@.subrange(0, s@.len() as int) =~= s@);
        assert(r.deep_view() + rlabels(s@.subrange(0, end as int)) =~~= rlabels(s@));
    }
    while i > 0
        invariant
            0 <= i <= end <= s@.len(),
            forall|j: int| i <= j < end ==> s@[j] != DOT,
            rlabels(s@) =~~= r.deep_view() + rlabels(s@.subrange(0, end as int)),
        decreases i,
    {
        if s[i - 1] == DOT {
            let lab = vstd::slice::slice_subrange(s, i, end);
            let ghost prev = r.deep_view();
            proof {
                let cur = s@.subrange(0, end as int);
                assert(cur[i - 1] == DOT);
                assert forall|j: int| i - 1 < j < cur.len() implies cur[j] != DOT by {
                    assert(cur[j] == s@[j]);
                }
                lemma_rlabels_peel(cur, i - 1);
                assert(cur.subrange(i as int, end as int) =~= s@.subrange(i as int, end as int));
                assert(cur.subrange(0, i - 1) =~= s@.subrange(0, i - 1));
            }
            r.push(lab);
            proof {
                assert(r.deep_view() =~~= prev.push(lab@));
                assert(rlabels(s@) =~~= r.deep_view() + rlabels(s@.subrange(0, i - 1)));
            }
            end = i - 1;
        }
        i -= 1;
    }
    let lab = vstd::slice::slice_subrange(s, 0, end);
    let ghost prev = r.deep_view();
    proof {
        let cur = s@.subrange(0, end as int);
        lemma_no_dot_rlabels(cur);
    }
    r.push(lab);
    proof {
        assert(r.deep_view() =~~= prev.push(lab@));
    }
    r
}

} // verus!
