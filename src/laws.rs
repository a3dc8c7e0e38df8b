//! General facts about top-k selections, stated over [`is_top_k`], which
//! every selector of this crate meets.
use vstd::prelude::*;
use vstd::multiset::Multiset;
use crate::{excluded, is_top_k, min_len, sorted_by_score_desc, Hit};

verus! {

broadcast use vstd::seq_lib::group_to_multiset_ensures, vstd::multiset::group_multiset_axioms;

/// Splits `buf` at `k`: the multiset of `buf` is that of its first `k`
/// hits together with that of the rest.
pub(crate) proof fn lemma_split_counts(buf: Seq<Hit>, k: int)
    requires
        0 <= k <= buf.len(),
    ensures
        buf.to_multiset() == buf.subrange(0, k).to_multiset().add(
            buf.subrange(k, buf.len() as int).to_multiset(),
        ),
{
    vstd::seq_lib::lemma_multiset_commutative(
        buf.subrange(0, k),
        buf.subrange(k, buf.len() as int),
    );
    assert(buf.subrange(0, k) + buf.subrange(k, buf.len() as int) =~= buf);
}

/// Whether a hit-list is a top-k selection of a stream depends on the
/// stream's hits only, not on the order in which they arrive.
pub proof fn lemma_top_k_order_independent(a: Seq<Hit>, b: Seq<Hit>, out: Seq<Hit>, k: nat)
    requires
        a.to_multiset() == b.to_multiset(),
    ensures
        is_top_k(a, out, k) == is_top_k(b, out, k),
{
    vstd::seq_lib::to_multiset_len(a);
    vstd::seq_lib::to_multiset_len(b);
    assert(excluded(a, out) == excluded(b, out));
}

/// A selection stays a top-k selection when its hits are rearranged.
pub proof fn lemma_top_k_rearranged(input: Seq<Hit>, a: Seq<Hit>, b: Seq<Hit>, k: nat)
    requires
        is_top_k(input, a, k),
        a.to_multiset() == b.to_multiset(),
    ensures
        is_top_k(input, b, k),
{
    vstd::seq_lib::to_multiset_len(a);
    vstd::seq_lib::to_multiset_len(b);
    assert(excluded(input, a) == excluded(input, b));
    assert(b.len() == a.len());
    assert(b.to_multiset().subset_of(input.to_multiset()));
    assert forall|h: Hit, j: int|
        #![trigger excluded(input, b).count(h), b[j]]
        excluded(input, b).count(h) > 0 && 0 <= j < b.len() implies h.score <= b[j].score by {
        assert(b.to_multiset().count(b[j]) > 0);
        assert(a.contains(b[j]));
        let t = choose|t: int| 0 <= t < a.len() && a[t] == b[j];
        assert(excluded(input, a).count(h) > 0);
    }
}

/// Position `i` of a sorted selection `o1` never scores below position `i`
/// of another sorted selection `o2` of the same stream.
proof fn lemma_sorted_selection_not_below(input: Seq<Hit>, o1: Seq<Hit>, o2: Seq<Hit>, k: nat, i: int)
    requires
        is_top_k(input, o1, k),
        is_top_k(input, o2, k),
        sorted_by_score_desc(o1),
        sorted_by_score_desc(o2),
        0 <= i < o1.len(),
    ensures
        o1[i].score >= o2[i].score,
{
    if o1[i].score < o2[i].score {
        let s = o1[i].score;
        let above = o2.subrange(0, i + 1);
        let below = o2.subrange(i + 1, o2.len() as int);
        let head = o1.subrange(0, i);
        let tail = o1.subrange(i, o1.len() as int);
        lemma_split_counts(o2, i + 1);
        lemma_split_counts(o1, i);
        assert forall|x: Hit| above.to_multiset().count(x) <= head.to_multiset().count(x) by {
            if above.to_multiset().count(x) > 0 {
                assert(above.contains(x));
                let t = choose|t: int| 0 <= t < above.len() && above[t] == x;
                assert(o2[t] == x);
                assert(x.score > s);
                if tail.to_multiset().count(x) > 0 {
                    assert(tail.contains(x));
                    let u = choose|u: int| 0 <= u < tail.len() && tail[u] == x;
                    assert(o1[i + u] == x);
                }
                if excluded(input, o1).count(x) > 0 {
                    assert(x.score <= o1[i].score);
                }
            }
        }
        assert(above.to_multiset().subset_of(head.to_multiset()));
        vstd::seq_lib::to_multiset_len(above);
        vstd::seq_lib::to_multiset_len(head);
        assert(head.to_multiset().sub(above.to_multiset()).len() == head.to_multiset().len()
            - above.to_multiset().len());
    }
}

/// Sorting the result of any selector yields, score by score, the result of
/// a sorted reference selection of the same hits in any other order: the
/// best `k` scores are fixed by the stream's hits, only ties may differ.
pub proof fn lemma_sorted_selections_agree(
    a: Seq<Hit>,
    b: Seq<Hit>,
    out: Seq<Hit>,
    sorted_out: Seq<Hit>,
    reference: Seq<Hit>,
    k: nat,
)
    requires
        a.to_multiset() == b.to_multiset(),
        is_top_k(a, out, k),
        sorted_out.to_multiset() == out.to_multiset(),
        sorted_by_score_desc(sorted_out),
        is_top_k(b, reference, k),
        sorted_by_score_desc(reference),
    ensures
        sorted_out.len() == reference.len(),
        forall|i: int| 0 <= i < reference.len() ==> sorted_out[i].score == reference[i].score,
{
    lemma_top_k_rearranged(a, out, sorted_out, k);
    lemma_top_k_order_independent(a, b, sorted_out, k);
    assert forall|i: int| 0 <= i < reference.len() implies sorted_out[i].score
        == reference[i].score by {
        lemma_sorted_selection_not_below(b, sorted_out, reference, k, i);
        lemma_sorted_selection_not_below(b, reference, sorted_out, k, i);
    }
}

/// With `k = 1` the selection of a non-empty stream is a single hit of the
/// stream with the highest score.
pub proof fn lemma_top_one_is_maximum(input: Seq<Hit>, out: Seq<Hit>)
    requires
        is_top_k(input, out, 1),
        input.len() > 0,
    ensures
        out.len() == 1,
        input.contains(out[0]),
        forall|t: int| 0 <= t < input.len() ==> input[t].score <= out[0].score,
{
    assert(out.to_multiset().count(out[0]) > 0);
    assert forall|t: int| 0 <= t < input.len() implies input[t].score <= out[0].score by {
        let x = input[t];
        assert(input.to_multiset().count(x) > 0);
        if excluded(input, out).count(x) == 0 {
            assert(out.contains(x));
        }
    }
}

/// When `k` is at least the stream's length, the selection is the whole
/// stream: nothing is left out and nothing is added.
pub proof fn lemma_retention_covers_stream(input: Seq<Hit>, out: Seq<Hit>, k: nat)
    requires
        is_top_k(input, out, k),
        k >= input.len(),
    ensures
        out.len() == input.len(),
        out.to_multiset() == input.to_multiset(),
{
    vstd::seq_lib::to_multiset_len(input);
    vstd::seq_lib::to_multiset_len(out);
    let rest = input.to_multiset().sub(out.to_multiset());
    assert(rest.len() == 0);
    assert(rest =~= Multiset::empty());
    assert(out.to_multiset() =~= input.to_multiset()) by {
        assert forall|x: Hit| out.to_multiset().count(x) == input.to_multiset().count(x) by {
            assert(rest.count(x) == 0);
        }
    }
}

} // verus!
