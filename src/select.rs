//! In-place reordering of hit buffers: exchanging two slots, partial
//! ordering around a rank (quickselect), and a full sort by descending score.
use vstd::prelude::*;
use crate::{sorted_by_score_desc, Hit};

verus! {

broadcast use vstd::seq_lib::group_to_multiset_ensures;

/// Exchanges the hits at `i` and `j`.
pub(crate) fn swap_hits(v: &mut Vec<Hit>, i: usize, j: usize)
    requires
        i < old(v).len(),
        j < old(v).len(),
    ensures
        final(v)@ == old(v)@.update(i as int, old(v)@[j as int]).update(j as int, old(v)@[i as int]),
        final(v)@.to_multiset() == old(v)@.to_multiset(),
{
    let a = v[i];
    let b = v[j];
    v[i] = b;
    v[j] = a;
    proof {
        let s = old(v)@;
        let s1 = s.update(i as int, b);
        assert(s1.to_multiset() =~= s.to_multiset().insert(b).remove(a));
        assert(v@.to_multiset() =~= s1.to_multiset().insert(a).remove(s1[j as int]));
        if i != j {
            assert(s1[j as int] == b);
        }
        assert(v@.to_multiset() =~= s.to_multiset());
    }
}

} // verus!

verus! {

/// Reorders `v[lo..hi]` so that the hits scoring more than the hit first at
/// `pivot` come first, then that hit, then the rest. Returns the position the
/// pivot hit ends at. Slots outside `lo..hi` are untouched, and scores within
/// `lower..=upper` on `lo..hi` stay within it.
fn partition(
    v: &mut Vec<Hit>,
    lo: usize,
    hi: usize,
    pivot: usize,
    Ghost(lower): Ghost<int>,
    Ghost(upper): Ghost<int>,
) -> (r: usize)
    requires
        lo <= pivot < hi <= old(v).len(),
        forall|t: int| lo <= t < hi ==> lower <= #[trigger] old(v)@[t].score <= upper,
    ensures
        lo <= r < hi,
        final(v)@.len() == old(v)@.len(),
        final(v)@.to_multiset() == old(v)@.to_multiset(),
        forall|t: int| 0 <= t < lo || hi <= t < old(v)@.len() ==> final(v)@[t] == old(v)@[t],
        forall|t: int| lo <= t < hi ==> lower <= #[trigger] final(v)@[t].score <= upper,
        forall|t: int| lo <= t < r ==> final(v)@[t].score > final(v)@[r as int].score,
        forall|t: int| r < t < hi ==> final(v)@[t].score <= final(v)@[r as int].score,
{
    let last = hi - 1;
    swap_hits(v, pivot, last);
    let p = v[last].score;
    let mut store = lo;
    let mut j = lo;
    while j < last
        invariant
            lo <= store <= j <= last < hi,
            hi <= v@.len(),
            v@.len() == old(v)@.len(),
            v@.to_multiset() == old(v)@.to_multiset(),
            forall|t: int| 0 <= t < lo || hi <= t < old(v)@.len() ==> v@[t] == old(v)@[t],
            forall|t: int| lo <= t < hi ==> lower <= #[trigger] v@[t].score <= upper,
            p == v@[last as int].score,
            forall|t: int| lo <= t < store ==> v@[t].score > p,
            forall|t: int| store <= t < j ==> v@[t].score <= p,
        decreases last - j,
    {
        if v[j].score > p {
            swap_hits(v, store, j);
            store = store + 1;
        }
        j = j + 1;
    }
    swap_hits(v, store, last);
    store
}

/// Reorders `v` so that the hit at `nth` has the score it would have at
/// that position if `v` were sorted by descending score: no hit before it
/// scores less, no hit after it scores more.
pub(crate) fn select_nth_by_score(v: &mut Vec<Hit>, nth: usize)
    requires
        nth < old(v).len(),
    ensures
        final(v)@.len() == old(v)@.len(),
        final(v)@.to_multiset() == old(v)@.to_multiset(),
        forall|t: int| 0 <= t < nth ==> final(v)@[t].score >= final(v)@[nth as int].score,
        forall|t: int| nth < t < final(v)@.len() ==> final(v)@[t].score <= final(v)@[nth as int].score,
{
    let len = v.len();
    let mut lo: usize = 0;
    let mut hi: usize = len;
    let ghost mut lower: int = 0;
    let ghost mut upper: int = u64::MAX as int;
    loop
        invariant
            lo <= nth < hi <= len,
            v@.len() == len,
            v@.to_multiset() == old(v)@.to_multiset(),
            forall|t: int| 0 <= t < lo ==> v@[t].score >= upper,
            forall|t: int| lo <= t < len ==> v@[t].score <= upper,
            forall|t: int| 0 <= t < hi ==> v@[t].score >= lower,
            forall|t: int| hi <= t < len ==> v@[t].score <= lower,
        ensures
            forall|t: int| 0 <= t < nth ==> v@[t].score >= v@[nth as int].score,
            forall|t: int| nth < t < len ==> v@[t].score <= v@[nth as int].score,
        decreases hi - lo,
    {
        let mid = lo + (hi - lo) / 2;
        let r = partition(v, lo, hi, mid, Ghost(lower), Ghost(upper));
        if r == nth {
            break;
        } else if nth < r {
            proof {
                lower = v@[r as int].score as int;
            }
            hi = r;
        } else {
            proof {
                upper = v@[r as int].score as int;
            }
            lo = r + 1;
        }
    }
}

/// Sorts `v` by descending score. Equal scores end in no particular order.
pub(crate) fn sort_by_score_desc(v: &mut Vec<Hit>)
    ensures
        final(v)@.len() == old(v)@.len(),
        final(v)@.to_multiset() == old(v)@.to_multiset(),
        sorted_by_score_desc(final(v)@),
{
    let len = v.len();
    let mut i: usize = 0;
    while i < len
        invariant
            i <= len,
            v@.len() == len,
            v@.to_multiset() == old(v)@.to_multiset(),
            forall|a: int, b: int| 0 <= a < b < i ==> v@[a].score >= v@[b].score,
            forall|a: int, b: int| 0 <= a < i <= b < len ==> v@[a].score >= v@[b].score,
        decreases len - i,
    {
        let mut best = i;
        let mut j = i + 1;
        while j < len
            invariant
                i <= best < len,
                i < j <= len,
                v@.len() == len,
                forall|t: int| i <= t < j ==> v@[t].score <= v@[best as int].score,
            decreases len - j,
        {
            if v[j].score > v[best].score {
                best = j;
            }
            j = j + 1;
        }
        swap_hits(v, i, best);
        i = i + 1;
    }
}

} // verus!
