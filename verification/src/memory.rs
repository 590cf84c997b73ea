//! The coarse pass of the vector search over the packed knowledge tree.
//!
//! Nodes are stored in preorder with their descendant counts, so a whole
//! subtree can be passed over in one step. Similarity scores are floating
//! point and are computed by the caller; here each node only carries whether
//! its coarse score fell below the subtree threshold.
use vstd::prelude::*;

verus! {

/// The indices the coarse pass keeps, walking from index `i`: a node below
/// the threshold that has descendants is passed over together with its whole
/// subtree; every other node is kept and the walk goes on with the next index.
pub open spec fn coarse_visit(descendants: Seq<u32>, below: Seq<bool>, i: int) -> Seq<int>
    decreases descendants.len() - i,
{
    if i < 0 || i >= descendants.len() {
        Seq::empty()
    } else if below[i] && descendants[i] > 0 {
        let next = i + 1 + descendants[i];
        coarse_visit(descendants, below, if next > descendants.len() { descendants.len() as int } else { next })
    } else {
        seq![i] + coarse_visit(descendants, below, i + 1)
    }
}

/// The indices of the nodes that the coarse pass scores, in order.
/// `descendants[i]` is the number of nodes in the subtree below node `i`, and
/// `below[i]` whether node `i`'s coarse score is below the subtree threshold.
pub fn coarse_candidates(descendants: &Vec<u32>, below: &Vec<bool>) -> (r: Vec<usize>)
    requires
        descendants@.len() == below@.len(),
    ensures
        r@.len() == coarse_visit(descendants@, below@, 0).len(),
        forall|k: int| 0 <= k < r@.len() ==> r@[k] as int == #[trigger] coarse_visit(descendants@, below@, 0)[k],
        nested_counts(descendants@) ==> forall|k: int|
            0 <= k < descendants@.len() ==> ((exists|m: int| 0 <= m < r@.len() && #[trigger] r@[m] as int == k)
                <==> !in_skipped_subtree(descendants@, below@, k)),
{
    let n = descendants.len();
    let ghost all = coarse_visit(descendants@, below@, 0);
    let mut out: Vec<usize> = Vec::new();
    let mut i: usize = 0;
    while i < n
        invariant
            i <= n == descendants@.len() == below@.len(),
            all == coarse_visit(descendants@, below@, 0),
            out@.map_values(|x: usize| x as int) + coarse_visit(descendants@, below@, i as int) == all,
        decreases n - i,
    {
        let ghost before = out@.map_values(|x: usize| x as int);
        let d = descendants[i];
        if below[i] && d > 0 {
            let du = d as usize;
            if du >= n - i - 1 {
                i = n;
                assert(coarse_visit(descendants@, below@, i as int) =~= Seq::<int>::empty());
            } else {
                i = i + 1 + du;
            }
        } else {
            out.push(i);
            assert(out@.map_values(|x: usize| x as int) =~= before.push(i as int));
            assert(before.push(i as int) + coarse_visit(descendants@, below@, i + 1) =~= before + (seq![i as int]
                + coarse_visit(descendants@, below@, i + 1)));
            i = i + 1;
        }
    }
    assert(coarse_visit(descendants@, below@, i as int) =~= Seq::<int>::empty());
    assert(out@.map_values(|x: usize| x as int) =~= all);
    proof {
        assert forall|k: int| 0 <= k < out@.len() implies out@[k] as int == #[trigger] all[k] by {
            assert(out@.map_values(|x: usize| x as int)[k] == out@[k] as int);
        }
        if nested_counts(descendants@) {
            lemma_coarse_skips_subtrees(descendants@, below@);
            assert forall|k: int| 0 <= k < descendants@.len() implies ((exists|m: int|
                0 <= m < out@.len() && #[trigger] out@[m] as int == k) <==> !in_skipped_subtree(descendants@, below@, k)) by {
                if exists|m: int| 0 <= m < out@.len() && #[trigger] out@[m] as int == k {
                    let m = choose|m: int| 0 <= m < out@.len() && #[trigger] out@[m] as int == k;
                    assert(all[m] == k);
                    assert(all.contains(k));
                }
                if !in_skipped_subtree(descendants@, below@, k) {
                    assert(all.contains(k));
                    let m = choose|m: int| 0 <= m < all.len() && all[m] == k;
                    assert(out@[m] as int == all[m]);
                }
            }
        }
    }
    out
}

/// Descendant counts that describe nested subtrees, as the packed layout
/// has them: every subtree ends inside the sequence, and the subtree of each
/// of its nodes lies inside it.
pub open spec fn nested_counts(d: Seq<u32>) -> bool {
    forall|k: int|
        0 <= k < d.len() ==> {
            &&& k + 1 + d[k] <= d.len()
            &&& forall|j: int| k < j <= k + d[k] ==> j + (#[trigger] d[j]) <= k + d[k]
        }
}

/// Index `k` is a node below the threshold that has descendants, or lies in
/// the subtree of one.
pub open spec fn in_skipped_subtree(d: Seq<u32>, below: Seq<bool>, k: int) -> bool {
    exists|i: int| 0 <= i <= k && #[trigger] below[i] && d[i] >= 1 && k <= i + d[i]
}

/// Every skipped subtree that starts before `i` also ends before it.
spec fn boundary(d: Seq<u32>, below: Seq<bool>, i: int) -> bool {
    forall|j: int| 0 <= j < i && #[trigger] below[j] && d[j] >= 1 ==> j + d[j] < i
}

proof fn lemma_visit_from(d: Seq<u32>, below: Seq<bool>, i: int)
    requires
        d.len() == below.len(),
        nested_counts(d),
        0 <= i <= d.len(),
        boundary(d, below, i),
    ensures
        forall|k: int|
            #[trigger] coarse_visit(d, below, i).contains(k) <==> (i <= k < d.len() && !in_skipped_subtree(d, below, k)),
        forall|a: int, b: int|
            0 <= a < b < coarse_visit(d, below, i).len() ==> coarse_visit(d, below, i)[a] < coarse_visit(d, below, i)[b],
        forall|a: int| 0 <= a < coarse_visit(d, below, i).len() ==> i <= #[trigger] coarse_visit(d, below, i)[a],
    decreases d.len() - i,
{
    let v = coarse_visit(d, below, i);
    if i == d.len() {
        assert(v =~= Seq::<int>::empty());
    } else if below[i] && d[i] > 0 {
        let next = i + 1 + d[i];
        assert(next <= d.len());
        assert forall|j: int| 0 <= j < next && #[trigger] below[j] && d[j] >= 1 implies j + d[j] < next by {
            if i < j {
                assert(j + d[j] <= i + d[i]);
            }
        }
        lemma_visit_from(d, below, next);
        assert(v == coarse_visit(d, below, next));
        assert forall|k: int| #[trigger] v.contains(k) <==> (i <= k < d.len() && !in_skipped_subtree(d, below, k)) by {
            if i <= k < next {
                assert(below[i] && d[i] >= 1 && k <= i + d[i]);
                assert(in_skipped_subtree(d, below, k));
            }
        }
    } else {
        let rest = coarse_visit(d, below, i + 1);
        assert forall|j: int| 0 <= j < i + 1 && #[trigger] below[j] && d[j] >= 1 implies j + d[j] < i + 1 by {
            if j < i {
                assert(j + d[j] < i);
            }
        }
        lemma_visit_from(d, below, i + 1);
        assert(v == seq![i] + rest);
        assert(!in_skipped_subtree(d, below, i)) by {
            if in_skipped_subtree(d, below, i) {
                let j = choose|j: int| 0 <= j <= i && #[trigger] below[j] && d[j] >= 1 && i <= j + d[j];
                if j < i {
                    assert(j + d[j] < i);
                }
            }
        }
        assert forall|k: int| #[trigger] v.contains(k) <==> (i <= k < d.len() && !in_skipped_subtree(d, below, k)) by {
            if v.contains(k) {
                let m = choose|m: int| 0 <= m < v.len() && v[m] == k;
                if m > 0 {
                    assert(v[m] == rest[m - 1]);
                    assert(rest.contains(k));
                }
            }
            if k == i {
                assert(v[0] == i);
            } else if i + 1 <= k < d.len() && !in_skipped_subtree(d, below, k) {
                assert(rest.contains(k));
                let m = choose|m: int| 0 <= m < rest.len() && rest[m] == k;
                assert(v[m + 1] == k);
            }
        }
        assert forall|a: int| 0 <= a < v.len() implies i <= #[trigger] v[a] by {
            if a > 0 {
                assert(v[a] == rest[a - 1]);
            }
        }
        assert forall|a: int, b: int| 0 <= a < b < v.len() implies v[a] < v[b] by {
            assert(v[b] == rest[b - 1]);
            if a > 0 {
                assert(v[a] == rest[a - 1]);
            }
        }
    }
}

/// The coarse pass over a packed tree passes over exactly the skipped
/// subtrees: an index is scored if and only if it is neither a node below the
/// threshold with descendants nor inside the subtree of such a node; the
/// scored indices come in increasing order, each once.
pub proof fn lemma_coarse_skips_subtrees(d: Seq<u32>, below: Seq<bool>)
    requires
        d.len() == below.len(),
        nested_counts(d),
    ensures
        forall|k: int|
            #[trigger] coarse_visit(d, below, 0).contains(k) <==> (0 <= k < d.len() && !in_skipped_subtree(d, below, k)),
        forall|i: int, k: int|
            #![trigger below[i], coarse_visit(d, below, 0).contains(k)]
            0 <= i < d.len() && below[i] && d[i] >= 1 && i <= k <= i + d[i] ==> !coarse_visit(d, below, 0).contains(k),
        forall|a: int, b: int|
            0 <= a < b < coarse_visit(d, below, 0).len() ==> coarse_visit(d, below, 0)[a] < coarse_visit(d, below, 0)[b],
{
    lemma_visit_from(d, below, 0);
    assert forall|i: int, k: int|
        #![trigger below[i], coarse_visit(d, below, 0).contains(k)]
        0 <= i < d.len() && below[i] && d[i] >= 1 && i <= k <= i + d[i] implies !coarse_visit(d, below, 0).contains(k) by {
        assert(in_skipped_subtree(d, below, k));
    }
}

} // verus!
