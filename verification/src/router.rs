//! The router: which experts a hit list activates.

use vstd::prelude::*;
use vstd::set_lib::{lemma_int_range, lemma_len_subset, lemma_subset_equality, set_int_range};
use crate::error::NseResult;
use crate::index::{hit_ids, Hit};
use crate::scalar::Scalar;
use crate::sorting::{lemma_listed, lists_range};

verus! {

/// How to choose among the hits.
#[derive(Debug, Clone)]
pub struct RouterConfig<T> {
    /// The part of the best score that a hit must reach.
    pub threshold_ratio: T,
    /// The highest number of chosen experts.
    pub max_k: usize,
}

impl<T: Scalar> Default for RouterConfig<T> {
    fn default() -> (r: Self)
        ensures
            r.threshold_ratio == T::spec_count(1).over_spec(T::spec_count(2)),
            r.max_k == 64,
    {
        RouterConfig { threshold_ratio: T::from_count(1).over(T::from_count(2)), max_k: 64 }
    }
}

/// Chooses every hit.
pub fn route_all<T: Scalar>(hits: &[Hit<T>]) -> (r: Vec<Hit<T>>)
    ensures
        r@ == hits@,
{
    crate::tensor::copy_all(hits)
}

/// The hits among the first `n` whose score reaches `threshold`, in order.
pub open spec fn reaching<T: Scalar>(hits: Seq<Hit<T>>, threshold: T, n: nat) -> Seq<Hit<T>>
    decreases n,
{
    if n == 0 {
        Seq::empty()
    } else {
        let front = reaching(hits, threshold, (n - 1) as nat);
        if threshold.at_most_spec(hits[n - 1].score) {
            front.push(hits[n - 1])
        } else {
            front
        }
    }
}

/// The hits that reach the given part of the first hit's score, up to `max_k`.
pub open spec fn routed<T: Scalar>(hits: Seq<Hit<T>>, cfg: RouterConfig<T>) -> Seq<Hit<T>> {
    if hits.len() == 0 {
        Seq::empty()
    } else {
        let kept = reaching(
            hits,
            hits[0].score.times_spec(cfg.threshold_ratio),
            hits.len(),
        );
        if cfg.max_k < kept.len() {
            kept.take(cfg.max_k as int)
        } else {
            kept
        }
    }
}

/// Chooses the hits that reach `threshold_ratio` times the best score, up to
/// `max_k` of them. The hits come best first, so that the first one has the best
/// score.
pub fn route_by_ratio<T: Scalar>(hits: &[Hit<T>], cfg: &RouterConfig<T>) -> (r: Vec<Hit<T>>)
    ensures
        r@ == routed(hits@, *cfg),
{
    let mut out: Vec<Hit<T>> = Vec::new();
    if hits.len() == 0 {
        return out;
    }
    let threshold = hits[0].score.times(cfg.threshold_ratio);
    for i in 0..hits.len()
        invariant
            out@ == reaching(hits@, threshold, i as nat),
    {
        if threshold.at_most(hits[i].score) {
            out.push(hits[i]);
        }
    }
    out.truncate(cfg.max_k);
    out
}

/// Chooses the hits that reach `threshold_ratio` times the best score, up to `max_k` of
/// them. It never fails.
pub fn route<T: Scalar>(hits: &[Hit<T>], cfg: &RouterConfig<T>) -> (r: NseResult<Vec<Hit<T>>>)
    ensures
        r matches Ok(v) && v@ == routed(hits@, *cfg),
{
    Ok(route_by_ratio(hits, cfg))
}

proof fn lemma_reaching<T: Scalar>(hits: Seq<Hit<T>>, threshold: T, n: nat)
    requires
        n <= hits.len(),
    ensures
        reaching(hits, threshold, n).len() <= n,
        forall|i: int|
            0 <= i < reaching(hits, threshold, n).len() ==> threshold.at_most_spec(
                (#[trigger] reaching(hits, threshold, n)[i]).score,
            ) && hits.contains(reaching(hits, threshold, n)[i]),
        forall|i: int|
            0 <= i < n && threshold.at_most_spec((#[trigger] hits[i]).score) ==> reaching(
                hits,
                threshold,
                n,
            ).contains(hits[i]),
    decreases n,
{
    if n > 0 {
        let m = (n - 1) as nat;
        lemma_reaching(hits, threshold, m);
        let front = reaching(hits, threshold, m);
        let all = reaching(hits, threshold, n);
        assert forall|i: int|
            0 <= i < n && threshold.at_most_spec((#[trigger] hits[i]).score) implies all.contains(
            hits[i],
        ) by {
            if i < m {
                assert(front.contains(hits[i]));
                let j = choose|j: int| 0 <= j < front.len() && front[j] == hits[i];
                assert(all[j] == hits[i]);
            } else {
                assert(all[all.len() - 1] == hits[i]);
            }
        }
    }
}

/// What the router keeps: at most `max_k` hits, all of them among the given ones and
/// at or above the threshold; and, unless it has `max_k`, every hit that is.
pub proof fn law_routed<T: Scalar>(hits: Seq<Hit<T>>, cfg: RouterConfig<T>)
    requires
        hits.len() > 0,
    ensures
        routed(hits, cfg).len() <= cfg.max_k,
        forall|i: int|
            0 <= i < routed(hits, cfg).len() ==> hits.contains(#[trigger] routed(hits, cfg)[i])
                && hits[0].score.times_spec(cfg.threshold_ratio).at_most_spec(
                routed(hits, cfg)[i].score,
            ),
        routed(hits, cfg).len() < cfg.max_k ==> forall|i: int|
            0 <= i < hits.len() && hits[0].score.times_spec(cfg.threshold_ratio).at_most_spec(
                (#[trigger] hits[i]).score,
            ) ==> routed(hits, cfg).contains(hits[i]),
{
    lemma_reaching(hits, hits[0].score.times_spec(cfg.threshold_ratio), hits.len());
}

/// Whether `hits` lists each of as many experts as there are scores once, with its score, best
/// first. Where scores count as equal, any order will do.
pub open spec fn ranked<T: Scalar>(hits: Seq<Hit<T>>, scores: Seq<T>) -> bool {
    &&& lists_range(hit_ids(hits), 0, scores.len() as int)
    &&& forall|i: int|
        0 <= i < hits.len() ==> (#[trigger] hits[i]).score == scores[hits[i].expert_id as int]
    &&& forall|i: int, j: int|
        0 <= i < j < hits.len() ==> !(#[trigger] hits[i]).score.below_spec((#[trigger] hits[j]).score)
}

/// Whether no score is higher than score `i`.
pub open spec fn is_best<T: Scalar>(scores: Seq<T>, i: int) -> bool {
    0 <= i < scores.len() && forall|j: int|
        0 <= j < scores.len() ==> !scores[i].below_spec(#[trigger] scores[j])
}

/// The experts whose scores reach the threshold.
pub open spec fn reached<T: Scalar>(scores: Seq<T>, threshold: T) -> Set<int> {
    set_int_range(0, scores.len() as int).filter(|i: int| threshold.at_most_spec(scores[i]))
}

/// Those among `experts` whose scores are higher than score `i`.
pub open spec fn better_than<T: Scalar>(scores: Seq<T>, experts: Set<int>, i: int) -> Set<int> {
    experts.filter(|j: int| scores[i].below_spec(scores[j]))
}

/// Those among `experts` that fewer than `k` others of them are better than.
pub open spec fn top_of<T: Scalar>(scores: Seq<T>, experts: Set<int>, k: nat) -> Set<int> {
    experts.filter(|i: int| better_than(scores, experts, i).len() < k)
}

/// Whether no equal scores lie across the cut behind the first `max_k` experts that reach the
/// given part of the best score, so that it is settled which experts these are. All best
/// scores are the same number.
pub open spec fn cut_settled<T: Scalar>(scores: Seq<T>, ratio: T, max_k: nat) -> bool {
    &&& forall|i: int, j: int|
        #[trigger] is_best(scores, i) && #[trigger] is_best(scores, j) ==> scores[i] == scores[j]
    &&& forall|i: int| #[trigger]
        is_best(scores, i) ==> top_of(
            scores,
            reached(scores, scores[i].times_spec(ratio)),
            max_k,
        ).len() <= max_k
}

/// The experts of hits as a set.
pub open spec fn expert_set<T>(hits: Seq<Hit<T>>) -> Set<int> {
    Set::new(|v: int| exists|i: int| 0 <= i < hits.len() && (#[trigger] hits[i]).expert_id == v)
}

/// The hits that reach a threshold are still best first and different, and they are all that
/// reach it.
proof fn lemma_kept<T: Scalar>(hits: Seq<Hit<T>>, scores: Seq<T>, threshold: T, n: nat)
    requires
        ranked(hits, scores),
        n <= hits.len(),
    ensures
        ({
            let kept = reaching(hits, threshold, n);
            &&& hit_ids(kept).no_duplicates()
            &&& forall|i: int, j: int|
                0 <= i < j < kept.len() ==> !(#[trigger] kept[i]).score.below_spec(
                    (#[trigger] kept[j]).score,
                )
            &&& forall|i: int|
                0 <= i < kept.len() ==> exists|m: int| 0 <= m < n && hits[m] == #[trigger] kept[i]
            &&& forall|m: int|
                0 <= m < n && threshold.at_most_spec((#[trigger] hits[m]).score) ==> kept.contains(
                    hits[m],
                )
            &&& forall|i: int|
                0 <= i < kept.len() ==> threshold.at_most_spec((#[trigger] kept[i]).score)
        }),
    decreases n,
{
    lemma_reaching(hits, threshold, n);
    if n > 0 {
        let m = (n - 1) as nat;
        lemma_kept(hits, scores, threshold, m);
        let front = reaching(hits, threshold, m);
        let kept = reaching(hits, threshold, n);
        if threshold.at_most_spec(hits[n - 1].score) {
            assert forall|i: int, j: int|
                0 <= i < hit_ids(kept).len() && 0 <= j < hit_ids(kept).len() && i != j implies hit_ids(
                kept,
            )[i] != hit_ids(kept)[j] by {
                if i < front.len() && j < front.len() {
                    assert(hit_ids(front)[i] != hit_ids(front)[j]);
                } else {
                    let a = if i < front.len() {
                        i
                    } else {
                        j
                    };
                    let p = choose|p: int| 0 <= p < m && hits[p] == front[a];
                    assert(hit_ids(hits)[p] != hit_ids(hits)[n - 1]);
                }
            }
            assert forall|i: int, j: int| 0 <= i < j < kept.len() implies !(
            #[trigger] kept[i]).score.below_spec((#[trigger] kept[j]).score) by {
                assert(kept[i] == front[i]);
                if j == front.len() {
                    let p = choose|p: int| 0 <= p < m && hits[p] == front[i];
                    assert(!hits[p].score.below_spec(hits[n - 1].score));
                }
            }
        }
        assert forall|i: int| 0 <= i < kept.len() implies exists|p: int|
            0 <= p < n && hits[p] == #[trigger] kept[i] by {
            if i < front.len() {
                let p = choose|p: int| 0 <= p < m && hits[p] == front[i];
                assert(hits[p] == kept[i]);
            } else {
                assert(hits[n - 1] == kept[i]);
            }
        }
    }
}

/// The first `n` hits as a set have as many members, where the experts differ.
proof fn lemma_expert_set_len<T>(hits: Seq<Hit<T>>)
    requires
        hit_ids(hits).no_duplicates(),
    ensures
        expert_set(hits).finite(),
        expert_set(hits).len() == hits.len(),
{
    let nums = hit_ids(hits).map_values(|v: usize| v as int);
    assert forall|i: int, j: int|
        0 <= i < nums.len() && 0 <= j < nums.len() && i != j implies nums[i] != nums[j] by {
        assert(hit_ids(hits)[i] != hit_ids(hits)[j]);
    }
    nums.unique_seq_to_set();
    vstd::seq_lib::seq_to_set_is_finite(nums);
    assert(expert_set(hits) =~= nums.to_set()) by {
        assert forall|v: int| expert_set(hits).contains(v) <==> nums.to_set().contains(v) by {
            if expert_set(hits).contains(v) {
                let i = choose|i: int| 0 <= i < hits.len() && (#[trigger] hits[i]).expert_id == v;
                assert(nums[i] == v);
            }
            if nums.to_set().contains(v) {
                let i = choose|i: int| 0 <= i < nums.len() && nums[i] == v;
                assert(hits[i].expert_id == v);
            }
        }
    }
}

/// Which experts the router keeps does not depend on the order of hits with equal scores, if
/// none of them lie across the cut: it keeps those that reach the threshold and that fewer
/// than `max_k` others of them are better than.
pub proof fn law_routed_settled<T: Scalar>(
    hits: Seq<Hit<T>>,
    scores: Seq<T>,
    cfg: RouterConfig<T>,
    best: int,
)
    requires
        ranked(hits, scores),
        cut_settled(scores, cfg.threshold_ratio, cfg.max_k as nat),
        is_best(scores, best),
    ensures
        hit_ids(routed(hits, cfg)).no_duplicates(),
        expert_set(routed(hits, cfg)) == top_of(
            scores,
            reached(scores, scores[best].times_spec(cfg.threshold_ratio)),
            cfg.max_k as nat,
        ),
{
    let n = scores.len();
    let k = cfg.max_k as nat;
    let first = hits[0].expert_id as int;
    assert(hit_ids(hits)[0] < n);
    assert(is_best(scores, first)) by {
        assert forall|j: int| 0 <= j < n implies !scores[first].below_spec(#[trigger] scores[j]) by {
            lemma_listed(hit_ids(hits), n, j);
            let p = choose|p: int| 0 <= p < n && #[trigger] hit_ids(hits)[p] == j;
            assert(hits[p].expert_id == j);
            assert(hits[p].score == scores[j]);
            assert(hits[0].score == scores[first]);
            if p == 0 {
                scores[first].below_irreflexive();
            }
        }
    }
    let threshold = hits[0].score.times_spec(cfg.threshold_ratio);
    assert(threshold == scores[best].times_spec(cfg.threshold_ratio));
    let kept = reaching(hits, threshold, hits.len());
    let r = reached(scores, threshold);
    let top = top_of(scores, r, k);
    lemma_kept(hits, scores, threshold, hits.len());
    lemma_int_range(0, n as int);
    lemma_len_subset(r, set_int_range(0, n as int));
    lemma_len_subset(top, r);
    assert(expert_set(kept) =~= r) by {
        assert forall|v: int| expert_set(kept).contains(v) <==> r.contains(v) by {
            if expert_set(kept).contains(v) {
                let i = choose|i: int| 0 <= i < kept.len() && (#[trigger] kept[i]).expert_id == v;
                let m = choose|m: int| 0 <= m < hits.len() && hits[m] == kept[i];
                assert(hit_ids(hits)[m] < n);
            }
            if r.contains(v) {
                lemma_listed(hit_ids(hits), n, v);
                let p = choose|p: int| 0 <= p < n && #[trigger] hit_ids(hits)[p] == v;
                assert(hits[p].expert_id == v);
                assert(kept.contains(hits[p]));
                let i = choose|i: int| 0 <= i < kept.len() && kept[i] == hits[p];
                assert(kept[i].expert_id == v);
            }
        }
    }
    lemma_expert_set_len(kept);
    let c = routed(hits, cfg);
    let len = if k < kept.len() {
        k
    } else {
        kept.len()
    };
    assert(c =~= kept.take(len as int));
    assert forall|i: int, j: int|
        0 <= i < hit_ids(c).len() && 0 <= j < hit_ids(c).len() && i != j implies hit_ids(c)[i]
        != hit_ids(c)[j] by {
        assert(hit_ids(kept)[i] != hit_ids(kept)[j]);
    }
    lemma_expert_set_len(c);
    // What is kept at place `p` has no more than `p` better ones: they all come before it.
    assert forall|p: int| 0 <= p < kept.len() implies better_than(
        scores,
        r,
        (#[trigger] kept[p]).expert_id as int,
    ).len() <= p by {
        let i = kept[p].expert_id as int;
        let before = kept.take(p);
        assert forall|a: int, b: int|
            0 <= a < hit_ids(before).len() && 0 <= b < hit_ids(before).len() && a != b implies hit_ids(
            before,
        )[a] != hit_ids(before)[b] by {
            assert(hit_ids(kept)[a] != hit_ids(kept)[b]);
        }
        lemma_expert_set_len(before);
        assert(better_than(scores, r, i).subset_of(expert_set(before))) by {
            assert forall|v: int| better_than(scores, r, i).contains(v) implies expert_set(
                before,
            ).contains(v) by {
                assert(expert_set(kept).contains(v));
                let q = choose|q: int| 0 <= q < kept.len() && (#[trigger] kept[q]).expert_id == v;
                lemma_kept_score(hits, scores, kept, p);
                lemma_kept_score(hits, scores, kept, q);
                if q > p {
                    assert(!kept[p].score.below_spec(kept[q].score));
                }
                if q == p {
                    scores[i].below_irreflexive();
                }
                assert(before[q].expert_id == v);
            }
        }
        lemma_len_subset(better_than(scores, r, i), expert_set(before));
    }
    assert(expert_set(c).subset_of(top)) by {
        assert forall|v: int| expert_set(c).contains(v) implies top.contains(v) by {
            let p = choose|p: int| 0 <= p < c.len() && (#[trigger] c[p]).expert_id == v;
            assert(kept[p].expert_id == v);
            assert(better_than(scores, r, kept[p].expert_id as int).len() <= p);
            assert(expert_set(kept).contains(v));
        }
    }
    if k < kept.len() {
        lemma_len_subset(expert_set(c), top);
        lemma_subset_equality(expert_set(c), top);
    } else {
        assert(c =~= kept);
        assert(top.subset_of(r));
        assert(expert_set(c) =~= top);
    }
}

proof fn lemma_kept_score<T: Scalar>(
    hits: Seq<Hit<T>>,
    scores: Seq<T>,
    kept: Seq<Hit<T>>,
    p: int,
)
    requires
        ranked(hits, scores),
        0 <= p < kept.len(),
        exists|m: int| 0 <= m < hits.len() && hits[m] == kept[p],
    ensures
        kept[p].score == scores[kept[p].expert_id as int],
{
    let m = choose|m: int| 0 <= m < hits.len() && hits[m] == kept[p];
    assert(hits[m].score == scores[hits[m].expert_id as int]);
}

} // verus!
