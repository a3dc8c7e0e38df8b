//! A binary min-heap over hits, stored in a `Vec`: the root is always a
//! lowest-scoring hit of the heap.
use vstd::prelude::*;
use crate::Hit;
use crate::select::swap_hits;

verus! {

broadcast use vstd::seq_lib::group_to_multiset_ensures;

/// Position of the parent of node `c` in the array layout of a binary tree.
pub open spec fn parent(c: int) -> int {
    (c - 1) / 2
}

/// Each node whose parent lies at `start` or beyond scores at least as much
/// as that parent.
pub open spec fn heap_from(s: Seq<Hit>, start: int) -> bool {
    forall|c: int|
        #![trigger s[c]]
        0 < c < s.len() && parent(c) >= start ==> s[parent(c)].score <= s[c].score
}

/// `s` is a min-heap by score.
pub open spec fn is_min_heap(s: Seq<Hit>) -> bool {
    heap_from(s, 0)
}

/// The root of a min-heap scores no more than any node.
pub proof fn lemma_root_is_min(s: Seq<Hit>, i: int)
    requires
        is_min_heap(s),
        0 <= i < s.len(),
    ensures
        s[0].score <= s[i].score,
    decreases i,
{
    if i > 0 {
        lemma_root_is_min(s, parent(i));
        assert(s[parent(i)].score <= s[i].score);
    }
}

/// Restores the heap order below `start`, given that it already holds for
/// every node whose parent lies beyond `start`. Slots before `start` are
/// left untouched.
pub(crate) fn sift_down(v: &mut Vec<Hit>, start: usize)
    requires
        start < old(v).len(),
        heap_from(old(v)@, start + 1),
    ensures
        final(v)@.len() == old(v)@.len(),
        final(v)@.to_multiset() == old(v)@.to_multiset(),
        heap_from(final(v)@, start as int),
        forall|t: int| 0 <= t < start ==> final(v)@[t] == old(v)@[t],
{
    let len = v.len();
    let mut p = start;
    loop
        invariant
            v@.len() == len,
            start <= p < len,
            p == start || parent(p as int) >= start,
            v@.to_multiset() == old(v)@.to_multiset(),
            forall|t: int| 0 <= t < start ==> v@[t] == old(v)@[t],
            forall|c: int|
                #![trigger v@[c]]
                0 < c < len && parent(c) >= start && parent(c) != p ==> v@[parent(c)].score
                    <= v@[c].score,
            p != start ==> forall|c: int|
                #![trigger v@[c]]
                0 < c < len && parent(c) == p ==> v@[parent(p as int)].score <= v@[c].score,
        ensures
            heap_from(v@, start as int),
        decreases len - p,
    {
        if p >= len - 1 - p {
            assert forall|c: int| 0 < c < len && parent(c) == p implies false by {}
            break;
        }
        let l = 2 * p + 1;
        let mut m = l;
        if l + 1 < len && v[l + 1].score < v[l].score {
            m = l + 1;
        }
        if v[m].score < v[p].score {
            let ghost before = v@;
            swap_hits(v, p, m);
            proof {
                assert(parent(m as int) == p);
                assert forall|c: int|
                    #![trigger v@[c]]
                    0 < c < len && parent(c) >= start && parent(c) != m implies v@[parent(c)].score
                        <= v@[c].score by {
                    if parent(c) == p {
                        assert(c == l || c == l + 1);
                    } else if c == p {
                        assert(before[parent(c)].score <= before[m as int].score);
                    }
                }
                assert forall|c: int|
                    #![trigger v@[c]]
                    0 < c < len && parent(c) == m implies v@[parent(m as int)].score <= v@[c].score by {
                    assert(before[m as int].score <= before[c].score);
                }
            }
            p = m;
        } else {
            assert forall|c: int|
                #![trigger v@[c]]
                0 < c < len && parent(c) >= start implies v@[parent(c)].score <= v@[c].score by {
                if parent(c) == p {
                    assert(c == l || c == l + 1);
                }
            }
            break;
        }
    }
}

/// Arranges `v` into a min-heap, keeping its hits.
pub(crate) fn heapify(v: &mut Vec<Hit>)
    ensures
        final(v)@.to_multiset() == old(v)@.to_multiset(),
        final(v)@.len() == old(v)@.len(),
        is_min_heap(final(v)@),
{
    let len = v.len();
    let mut i = len / 2;
    while i > 0
        invariant
            i <= len / 2,
            v@.len() == len,
            v@.to_multiset() == old(v)@.to_multiset(),
            heap_from(v@, i as int),
        decreases i,
    {
        i = i - 1;
        sift_down(v, i);
    }
}

/// Puts `h` in place of the root of the min-heap `v` and restores the heap
/// order.
pub(crate) fn replace_root(v: &mut Vec<Hit>, h: Hit)
    requires
        old(v).len() > 0,
        is_min_heap(old(v)@),
    ensures
        final(v)@.len() == old(v)@.len(),
        final(v)@.to_multiset() == old(v)@.to_multiset().remove(old(v)@[0]).insert(h),
        is_min_heap(final(v)@),
{
    v[0] = h;
    sift_down(v, 0);
}

} // verus!
