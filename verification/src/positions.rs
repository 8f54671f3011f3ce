//! Where a value stands in a sequence.

use vstd::prelude::*;

verus! {

/// The positions `k` with `lo <= k < hi` and `s[k] == v`, in increasing order.
pub open spec fn positions<T>(s: Seq<T>, v: T, lo: int, hi: int) -> Seq<int>
    decreases hi - lo,
{
    if hi <= lo {
        Seq::empty()
    } else if s[hi - 1] == v {
        positions(s, v, lo, hi - 1).push(hi - 1)
    } else {
        positions(s, v, lo, hi - 1)
    }
}

/// Every listed position lies in `lo..hi` and holds `v`, and the list is
/// strictly increasing.
pub proof fn lemma_positions_sound<T>(s: Seq<T>, v: T, lo: int, hi: int)
    ensures
        forall|k: int|
            0 <= k < positions(s, v, lo, hi).len() ==> {
                let p = #[trigger] positions(s, v, lo, hi)[k];
                lo <= p < hi && s[p] == v
            },
        forall|j: int, k: int|
            0 <= j < k < positions(s, v, lo, hi).len() ==> positions(s, v, lo, hi)[j] < positions(
                s,
                v,
                lo,
                hi,
            )[k],
        positions(s, v, lo, hi).len() <= if hi <= lo { 0 } else { hi - lo },
    decreases hi - lo,
{
    if lo < hi {
        lemma_positions_sound(s, v, lo, hi - 1);
    }
}

/// Every position in `lo..hi` that holds `v` is listed.
pub proof fn lemma_positions_complete<T>(s: Seq<T>, v: T, lo: int, hi: int, p: int)
    requires
        lo <= p < hi,
        s[p] == v,
    ensures
        positions(s, v, lo, hi).contains(p),
    decreases hi - lo,
{
    if p == hi - 1 {
        let prev = positions(s, v, lo, hi - 1);
        assert(prev.push(p)[prev.len() as int] == p);
    } else {
        lemma_positions_complete(s, v, lo, hi - 1, p);
        let prev = positions(s, v, lo, hi - 1);
        let k = choose|k: int| 0 <= k < prev.len() && prev[k] == p;
        assert(positions(s, v, lo, hi)[k] == p);
    }
}

/// The list for `lo..hi` is the list for `lo..mid` followed by that for `mid..hi`.
pub proof fn lemma_positions_split<T>(s: Seq<T>, v: T, lo: int, mid: int, hi: int)
    requires
        lo <= mid <= hi,
    ensures
        positions(s, v, lo, hi) == positions(s, v, lo, mid) + positions(s, v, mid, hi),
    decreases hi - mid,
{
    if mid < hi {
        lemma_positions_split(s, v, lo, mid, hi - 1);
        let a = positions(s, v, lo, mid);
        let b = positions(s, v, mid, hi - 1);
        if s[hi - 1] == v {
            assert((a + b).push(hi - 1) =~= a + b.push(hi - 1));
        }
    } else {
        assert(positions(s, v, lo, mid) + Seq::<int>::empty() =~= positions(s, v, lo, mid));
    }
}

/// The list for `lo..hi` starts with `lo` where `s[lo] == v`, and goes on with
/// the list for `lo + 1..hi`.
pub proof fn lemma_positions_first<T>(s: Seq<T>, v: T, lo: int, hi: int)
    requires
        lo < hi,
    ensures
        positions(s, v, lo, hi) == if s[lo] == v {
            seq![lo] + positions(s, v, lo + 1, hi)
        } else {
            positions(s, v, lo + 1, hi)
        },
{
    lemma_positions_split(s, v, lo, lo + 1, hi);
    reveal_with_fuel(positions, 2);
    if s[lo] == v {
        assert(positions(s, v, lo, lo + 1) =~= seq![lo]);
    } else {
        assert(Seq::<int>::empty() + positions(s, v, lo + 1, hi) =~= positions(s, v, lo + 1, hi));
    }
}

/// Sequences that agree on `lo..hi` have the same positions there.
pub proof fn lemma_positions_agree<T>(s: Seq<T>, t: Seq<T>, v: T, lo: int, hi: int)
    requires
        forall|k: int| lo <= k < hi ==> s[k] == t[k],
    ensures
        positions(s, v, lo, hi) == positions(t, v, lo, hi),
    decreases hi - lo,
{
    if lo < hi {
        lemma_positions_agree(s, t, v, lo, hi - 1);
    }
}

/// No position is listed where `v` does not occur in `lo..hi`.
pub proof fn lemma_positions_none<T>(s: Seq<T>, v: T, lo: int, hi: int)
    requires
        forall|k: int| lo <= k < hi ==> s[k] != v,
    ensures
        positions(s, v, lo, hi) == Seq::<int>::empty(),
    decreases hi - lo,
{
    if lo < hi {
        lemma_positions_none(s, v, lo, hi - 1);
    }
}

/// Where every position in `lo..hi` holds `v`, all of them are listed.
pub proof fn lemma_positions_all<T>(s: Seq<T>, v: T, lo: int, hi: int)
    requires
        lo <= hi,
        forall|k: int| lo <= k < hi ==> s[k] == v,
    ensures
        positions(s, v, lo, hi) == Seq::new((hi - lo) as nat, |k: int| lo + k),
    decreases hi - lo,
{
    if lo < hi {
        lemma_positions_all(s, v, lo, hi - 1);
        assert(positions(s, v, lo, hi) =~= Seq::new((hi - lo) as nat, |k: int| lo + k));
    } else {
        assert(positions(s, v, lo, hi) =~= Seq::new((hi - lo) as nat, |k: int| lo + k));
    }
}

} // verus!
