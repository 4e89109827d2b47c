//! Maximum inner product search over the centroids of a layer's experts.

use vstd::prelude::*;
use crate::hnsw::{answers_query, HnswIndex};
use crate::scalar::{comparable, dot, dot_spec, Scalar};
use crate::sorting::{in_order, lists_range, sorted_order};
use crate::sparse::MicroExpert;

verus! {

/// An expert and how well it matches an input.
#[derive(Debug, Clone, Copy, PartialEq)]
pub struct Hit<T> {
    pub expert_id: usize,
    pub score: T,
}

/// Exact search: compares the input with every centroid.
pub struct MipsIndex<'a, T> {
    pub experts: &'a [MicroExpert<T>],
}

/// The score of each expert: the inner product of the input with its centroid.
pub open spec fn scores<T: Scalar>(experts: Seq<MicroExpert<T>>, x: Seq<T>) -> Seq<T> {
    Seq::new(experts.len(), |i: int| dot_spec(x, experts[i].centroid@))
}

/// The experts of the hits.
pub open spec fn hit_ids<T>(hits: Seq<Hit<T>>) -> Seq<usize> {
    hits.map_values(|h: Hit<T>| h.expert_id)
}

/// Whether `hits` lists every expert once with its score, best first. Experts with
/// equal scores come in the order of their ids.
pub open spec fn ranks_all<T: Scalar>(hits: Seq<Hit<T>>, scores: Seq<T>) -> bool {
    &&& lists_range(hit_ids(hits), 0, scores.len() as int)
    &&& forall|i: int|
        0 <= i < hits.len() ==> (#[trigger] hits[i]).score == scores[hits[i].expert_id as int]
    &&& comparable(scores) ==> in_order(scores, hit_ids(hits), true)
}

/// The first `k` hits, or all if there are fewer.
pub open spec fn first_hits<T>(hits: Seq<Hit<T>>, k: int) -> Seq<Hit<T>> {
    if k < hits.len() {
        hits.take(k)
    } else {
        hits
    }
}

impl<'a, T: Scalar> MipsIndex<'a, T> {
    pub fn new(experts: &'a [MicroExpert<T>]) -> (r: Self)
        ensures
            r.experts@ == experts@,
    {
        MipsIndex { experts }
    }

    /// Every expert, best first.
    pub fn query_all(&self, x: &[T]) -> (r: Vec<Hit<T>>)
        ensures
            ranks_all(r@, scores(self.experts@, x@)),
    {
        let ghost s = scores(self.experts@, x@);
        let mut keys: Vec<T> = Vec::with_capacity(self.experts.len());
        for i in 0..self.experts.len()
            invariant
                s == scores(self.experts@, x@),
                keys@ == s.take(i as int),
        {
            keys.push(dot(x, &self.experts[i].centroid));
            assert(keys@ =~= s.take(i + 1));
        }
        assert(keys@ =~= s);
        let order = sorted_order(&keys, true);
        let mut hits: Vec<Hit<T>> = Vec::with_capacity(order.len());
        for i in 0..order.len()
            invariant
                keys@ == s,
                lists_range(order@, 0, s.len() as int),
                hits@.len() == i,
                forall|j: int|
                    0 <= j < i ==> (#[trigger] hits@[j]).expert_id == order@[j] && hits@[j].score
                        == s[order@[j] as int],
        {
            let k: usize = order[i];
            hits.push(Hit { expert_id: k, score: keys[k] });
        }
        assert(hit_ids(hits@) =~= order@);
        hits
    }

    /// The best `k` experts, best first.
    pub fn query_topk(&self, x: &[T], k: usize) -> (r: Vec<Hit<T>>)
        ensures
            exists|all: Seq<Hit<T>>|
                ranks_all(all, scores(self.experts@, x@)) && #[trigger] first_hits(all, k as int)
                    == r@,
    {
        let mut all = self.query_all(x);
        let ghost full = all@;
        all.truncate(k);
        assert(first_hits(full, k as int) =~= all@);
        all
    }
}

/// An index that lists all its experts, best first. The router works with any.
pub trait MipsQuery<T> {
    /// Whether the index is in order.
    spec fn ready(&self) -> bool;

    /// Whether `hits` answers the input `x`.
    spec fn answered_by(&self, x: Seq<T>, hits: Seq<Hit<T>>) -> bool;

    fn query_all(&self, x: &[T]) -> (r: Vec<Hit<T>>)
        requires
            self.ready(),
        ensures
            self.answered_by(x@, r@),
    ;
}

impl<'a, T: Scalar> MipsQuery<T> for MipsIndex<'a, T> {
    open spec fn ready(&self) -> bool {
        true
    }

    open spec fn answered_by(&self, x: Seq<T>, hits: Seq<Hit<T>>) -> bool {
        ranks_all(hits, scores(self.experts@, x))
    }

    fn query_all(&self, x: &[T]) -> (r: Vec<Hit<T>>) {
        MipsIndex::query_all(self, x)
    }
}

impl<T: Scalar> MipsQuery<T> for HnswIndex<T> {
    open spec fn ready(&self) -> bool {
        self.wf()
    }

    open spec fn answered_by(&self, x: Seq<T>, hits: Seq<Hit<T>>) -> bool {
        if self.centroids@.len() == 0 {
            hits.len() == 0
        } else {
            answers_query(*self, x, self.centroids@.len(), hits)
        }
    }

    fn query_all(&self, x: &[T]) -> (r: Vec<Hit<T>>) {
        self.query(x, self.num_experts())
    }
}

} // verus!
