//! Approximate maximum inner product search in a navigable graph.
//!
//! The nodes are the centroids of a layer's experts. Every node is in the base
//! layer of the graph; a few are in the layers above, each with fewer nodes. A
//! search descends greedily from the top to the base layer, and there keeps a beam
//! of the nearest nodes found. The distance of two vectors is their inner product
//! with its sign changed, so that the nearest node has the highest score.

use vstd::prelude::*;
use crate::index::{scores, Hit};
use crate::rng::{next_state, seed_state, state_after, unit_interval, Lcg};
use crate::scalar::{comparable, dot, dot_spec, Scalar};
use crate::sorting::{in_order, item_before, lemma_listed, lists_range, sorted_order};
use crate::sparse::{MicroExpert, SparseLayer};
use crate::tensor::{copy_all, filled};
use crate::transformer::one;

verus! {

/// A graph over the centroids of a layer's experts.
pub struct HnswIndex<T> {
    pub centroids: Vec<Vec<T>>,
    /// For each layer and node the neighbours of that node.
    pub graph: Vec<Vec<Vec<u32>>>,
    /// The highest layer of each node.
    pub node_level: Vec<usize>,
    /// Where searches start.
    pub entry_point: Option<usize>,
    /// The highest layer of any node.
    pub max_level: usize,
    /// How many neighbours a node keeps.
    pub m: usize,
    /// The width of the beam while building.
    pub ef_construction: usize,
    /// The width of the beam in queries.
    pub ef_search: usize,
}

/// The distance of two vectors.
pub open spec fn dist_spec<T: Scalar>(a: Seq<T>, b: Seq<T>) -> T {
    dot_spec(a, b).negated_spec()
}

/// The distance of two vectors: the lower, the higher their inner product.
pub fn dist_vec<T: Scalar>(a: &[T], b: &[T]) -> (r: T)
    ensures
        r == dist_spec(a@, b@),
{
    dot(a, b).negated()
}

/// The distances of `q` to all nodes.
pub open spec fn dists<T: Scalar>(q: Seq<T>, centroids: Seq<Vec<T>>) -> Seq<T> {
    Seq::new(centroids.len(), |v: int| dist_spec(q, centroids[v]@))
}

/// Whether a layer has `n` nodes and all its edges lead to nodes.
pub open spec fn layer_wf(g: Seq<Vec<u32>>, n: nat) -> bool {
    &&& g.len() == n
    &&& forall|u: int, i: int|
        0 <= u < n && 0 <= i < g[u]@.len() ==> (#[trigger] g[u]@[i]) < n
}

/// Whether a layer has an edge from `u` to `v`.
pub open spec fn edge(g: Seq<Vec<u32>>, u: int, v: int) -> bool {
    0 <= u < g.len() && exists|i: int| 0 <= i < g[u]@.len() && #[trigger] g[u]@[i] == v
}

/// Whether `p` is a path along edges.
pub open spec fn is_path(g: Seq<Vec<u32>>, p: Seq<int>) -> bool {
    &&& p.len() > 0
    &&& forall|i: int| 0 <= i < p.len() - 1 ==> edge(g, #[trigger] p[i], p[i + 1])
}

/// Whether a path leads from `a` to `b`.
pub open spec fn reaches(g: Seq<Vec<u32>>, a: int, b: int) -> bool {
    exists|p: Seq<int>| #[trigger] is_path(g, p) && p[0] == a && p.last() == b
}

/// Whether a path leads from `a` to every node.
pub open spec fn reaches_all(g: Seq<Vec<u32>>, a: int) -> bool {
    forall|b: int| 0 <= b < g.len() ==> #[trigger] reaches(g, a, b)
}

/// The nodes of a list of nodes with distances.
pub open spec fn nodes_of<T>(s: Seq<(usize, T)>) -> Seq<usize> {
    s.map_values(|p: (usize, T)| p.0)
}

/// Whether the list holds different nodes, each with its distance.
pub open spec fn listed<T: Scalar>(s: Seq<(usize, T)>, d: Seq<T>) -> bool {
    &&& nodes_of(s).no_duplicates()
    &&& forall|i: int| 0 <= i < s.len() ==> (#[trigger] s[i]).0 < d.len() && s[i].1 == d[s[i].0 as int]
}

/// Whether the list holds the node.
pub open spec fn has_node<T>(s: Seq<(usize, T)>, v: int) -> bool {
    exists|i: int| 0 <= i < s.len() && (#[trigger] s[i]).0 == v
}

proof fn lemma_push_node<T: Scalar>(s: Seq<(usize, T)>, d: Seq<T>, p: (usize, T))
    requires
        listed(s, d),
        p.0 < d.len(),
        p.1 == d[p.0 as int],
        !has_node(s, p.0 as int),
    ensures
        listed(s.push(p), d),
        forall|v: int| #[trigger] has_node(s.push(p), v) <==> (has_node(s, v) || v == p.0),
{
    let t = s.push(p);
    assert forall|i: int, j: int| 0 <= i < t.len() && 0 <= j < t.len() && i != j implies nodes_of(t)[i]
        != nodes_of(t)[j] by {
        if i < s.len() && j < s.len() {
            assert(nodes_of(s)[i] != nodes_of(s)[j]);
        } else if i < s.len() {
            assert(s[i].0 != p.0);
        } else {
            assert(s[j].0 != p.0);
        }
    }
    assert forall|v: int| has_node(t, v) <==> (has_node(s, v) || v == p.0) by {
        if has_node(s, v) {
            let i = choose|i: int| 0 <= i < s.len() && (#[trigger] s[i]).0 == v;
            assert(t[i].0 == v);
        }
        if v == p.0 {
            assert(t[s.len() as int].0 == v);
        }
        if has_node(t, v) && v != p.0 {
            let i = choose|i: int| 0 <= i < t.len() && (#[trigger] t[i]).0 == v;
            assert(s[i].0 == v);
        }
    }
}

/// What `swap_remove` leaves.
pub open spec fn without<A>(s: Seq<A>, i: int) -> Seq<A> {
    s.update(i, s.last()).drop_last()
}

proof fn lemma_remove_node<T: Scalar>(s: Seq<(usize, T)>, d: Seq<T>, k: int)
    requires
        listed(s, d),
        0 <= k < s.len(),
    ensures
        listed(without(s, k), d),
        forall|v: int|
            #[trigger] has_node(without(s, k), v) <==> (has_node(s, v) && v != s[k].0),
{
    let t = without(s, k);
    let from = |i: int|
        if i == k {
            s.len() - 1
        } else {
            i
        };
    assert forall|i: int| 0 <= i < t.len() implies #[trigger] t[i] == s[from(i)] by {}
    assert forall|i: int, j: int| 0 <= i < t.len() && 0 <= j < t.len() && i != j implies nodes_of(t)[i]
        != nodes_of(t)[j] by {
        assert(t[i] == s[from(i)]);
        assert(t[j] == s[from(j)]);
        assert(nodes_of(s)[from(i)] != nodes_of(s)[from(j)]);
    }
    assert forall|v: int| has_node(t, v) <==> (has_node(s, v) && v != s[k].0) by {
        if has_node(t, v) {
            let i = choose|i: int| 0 <= i < t.len() && (#[trigger] t[i]).0 == v;
            assert(s[from(i)].0 == v);
            assert(nodes_of(s)[from(i)] != nodes_of(s)[k]);
        }
        if has_node(s, v) && v != s[k].0 {
            let i = choose|i: int| 0 <= i < s.len() && (#[trigger] s[i]).0 == v;
            if i == s.len() - 1 {
                assert(t[k].0 == v);
            } else {
                assert(t[i].0 == v);
            }
        }
    }
}

/// A list of different nodes has no more entries than there are nodes, and if it has
/// as many, it holds every node.
proof fn lemma_list_size<T: Scalar>(s: Seq<(usize, T)>, d: Seq<T>)
    requires
        listed(s, d),
    ensures
        s.len() <= d.len(),
        s.len() == d.len() ==> forall|v: int| 0 <= v < d.len() ==> #[trigger] has_node(s, v),
{
    let nums = nodes_of(s).map_values(|v: usize| v as int);
    let all = vstd::set_lib::set_int_range(0, d.len() as int);
    vstd::set_lib::lemma_int_range(0, d.len() as int);
    assert forall|i: int, j: int| 0 <= i < nums.len() && 0 <= j < nums.len() && i != j implies nums[i]
        != nums[j] by {
        assert(nodes_of(s)[i] != nodes_of(s)[j]);
    }
    nums.unique_seq_to_set();
    assert(nums.to_set().subset_of(all)) by {
        assert forall|v: int| nums.to_set().contains(v) implies all.contains(v) by {
            let i = choose|i: int| 0 <= i < nums.len() && nums[i] == v;
            assert(s[i].0 as int == v);
        }
    }
    vstd::set_lib::lemma_len_subset(nums.to_set(), all);
    if s.len() == d.len() {
        vstd::set_lib::lemma_subset_equality(nums.to_set(), all);
        assert forall|v: int| 0 <= v < d.len() implies #[trigger] has_node(s, v) by {
            assert(nums.to_set().contains(v));
            let i = choose|i: int| 0 <= i < nums.len() && nums[i] == v;
            assert(s[i].0 == v);
        }
    }
}

/// Whether no entry of the list is nearer than the entry at `k`.
pub open spec fn is_nearest<T: Scalar>(s: Seq<(usize, T)>, k: int) -> bool {
    forall|i: int| 0 <= i < s.len() ==> !(#[trigger] s[i]).1.below_spec(s[k].1)
}

/// The place of the nearest of the first `n` entries: the first one, where several are
/// nearest.
pub open spec fn nearest_place<T: Scalar>(s: Seq<(usize, T)>, n: nat) -> int
    decreases n,
{
    if n <= 1 {
        0
    } else {
        let k = nearest_place(s, (n - 1) as nat);
        if s[n - 1].1.below_spec(s[k].1) {
            n - 1
        } else {
            k
        }
    }
}

/// Takes the nearest entry out of the list.
fn pop_min<T: Scalar>(cands: &mut Vec<(usize, T)>) -> (r: Option<(usize, T)>)
    ensures
        old(cands)@.len() == 0 ==> r is None && final(cands)@ == old(cands)@,
        old(cands)@.len() > 0 ==> {
            let k = nearest_place(old(cands)@, old(cands)@.len());
            &&& 0 <= k < old(cands)@.len()
            &&& r == Some(old(cands)@[k])
            &&& final(cands)@ == without(old(cands)@, k)
            &&& is_nearest(old(cands)@, k)
        },
{
    if cands.is_empty() {
        return None;
    }
    let mut min_idx: usize = 0;
    let ghost s = cands@;
    proof {
        s[0].1.below_irreflexive();
    }
    for i in 1..cands.len()
        invariant
            s == cands@,
            min_idx < i <= s.len(),
            min_idx == nearest_place(s, i as nat),
            forall|j: int| 0 <= j < i ==> !(#[trigger] s[j]).1.below_spec(s[min_idx as int].1),
    {
        if cands[i].1.below(cands[min_idx].1) {
            proof {
                s[i as int].1.below_irreflexive();
                assert forall|j: int| 0 <= j < i + 1 implies !(#[trigger] s[j]).1.below_spec(
                    s[i as int].1,
                ) by {
                    if s[j].1.below_spec(s[i as int].1) {
                        s[j].1.below_transitive(s[i as int].1, s[min_idx as int].1);
                    }
                }
            }
            min_idx = i;
        }
    }
    assert(is_nearest(s, min_idx as int));
    let x = cands.swap_remove(min_idx);
    assert(cands@ == without(s, min_idx as int));
    Some(x)
}

/// Whether `w` is the largest distance in the list, or the lowest number where no
/// distance is more than that.
pub open spec fn is_worst<T: Scalar>(s: Seq<(usize, T)>, w: T) -> bool {
    &&& forall|i: int| 0 <= i < s.len() ==> !w.below_spec((#[trigger] s[i]).1)
    &&& w == T::spec_lowest() || exists|i: int| 0 <= i < s.len() && (#[trigger] s[i]).1 == w
}

proof fn lemma_comparable3<T: Scalar>(d: Seq<T>, i: int, j: int, k: int)
    requires
        comparable(d),
        0 <= i < d.len(),
        0 <= j < d.len(),
        0 <= k < d.len(),
        d[i].below_spec(d[j]),
    ensures
        d[i].below_spec(d[k]) || d[k].below_spec(d[j]),
{
}

/// The largest of the first `n` distances, or the lowest number where none is more than
/// that.
pub open spec fn worst_upto<T: Scalar>(s: Seq<(usize, T)>, n: nat) -> T
    decreases n,
{
    if n == 0 {
        T::spec_lowest()
    } else {
        let w = worst_upto(s, (n - 1) as nat);
        if w.below_spec(s[n - 1].1) {
            s[n - 1].1
        } else {
            w
        }
    }
}

/// The place of the largest of the first `n` distances: the last one, where several are
/// largest.
pub open spec fn farthest_place<T: Scalar>(s: Seq<(usize, T)>, n: nat) -> int
    decreases n,
{
    if n <= 1 {
        0
    } else {
        let k = farthest_place(s, (n - 1) as nat);
        if s[n - 1].1.below_spec(s[k].1) {
            k
        } else {
            n - 1
        }
    }
}

/// The largest distance in the list.
fn worst_of<T: Scalar>(results: &Vec<(usize, T)>, Ghost(d): Ghost<Seq<T>>) -> (w: T)
    requires
        listed(results@, d),
    ensures
        w == worst_upto(results@, results@.len()),
        comparable(d) ==> is_worst(results@, w),
{
    let mut w = T::lowest();
    let ghost s = results@;
    for i in 0..results.len()
        invariant
            s == results@,
            listed(s, d),
            w == worst_upto(s, i as nat),
            w == T::spec_lowest() || exists|j: int| 0 <= j < s.len() && (#[trigger] s[j]).1 == w,
            comparable(d) ==> forall|j: int| 0 <= j < i ==> !w.below_spec((#[trigger] s[j]).1),
    {
        if w.below(results[i].1) {
            proof {
                let x = s[i as int].1;
                x.below_irreflexive();
                if comparable(d) {
                    assert forall|j: int| 0 <= j < i + 1 implies !x.below_spec((#[trigger] s[j]).1) by {
                        if x.below_spec(s[j].1) {
                            w.below_transitive(x, s[j].1);
                        }
                    }
                }
                assert(s[i as int].1 == x);
            }
            w = results[i].1;
        }
    }
    w
}

/// The place of the largest distance in the list: the last one, where several are
/// largest.
fn worst_place<T: Scalar>(results: &Vec<(usize, T)>, Ghost(d): Ghost<Seq<T>>) -> (k: usize)
    requires
        listed(results@, d),
        results@.len() > 0,
    ensures
        k < results@.len(),
        k == farthest_place(results@, results@.len()),
        comparable(d) ==> forall|i: int|
            0 <= i < results@.len() ==> !results@[k as int].1.below_spec((#[trigger] results@[i]).1),
{
    let mut k: usize = 0;
    let ghost s = results@;
    proof {
        s[0].1.below_irreflexive();
    }
    for i in 1..results.len()
        invariant
            s == results@,
            listed(s, d),
            k < i <= s.len(),
            k == farthest_place(s, i as nat),
            comparable(d) ==> forall|j: int|
                0 <= j < i ==> !s[k as int].1.below_spec((#[trigger] s[j]).1),
    {
        if !results[i].1.below(results[k].1) {
            proof {
                let x = s[i as int].1;
                x.below_irreflexive();
                if comparable(d) {
                    assert forall|j: int| 0 <= j < i + 1 implies !x.below_spec((#[trigger] s[j]).1) by {
                        if x.below_spec(s[j].1) {
                            lemma_comparable3(
                                d,
                                s[i as int].0 as int,
                                s[j].0 as int,
                                s[k as int].0 as int,
                            );
                        }
                    }
                }
            }
            k = i;
        } else {
            proof {
                let x = s[i as int].1;
                let y = s[k as int].1;
                x.below_irreflexive();
                if y.below_spec(x) {
                    x.below_transitive(y, x);
                }
            }
        }
    }
    k
}

/// How many nodes are not marked.
pub open spec fn unmarked(marks: Seq<bool>) -> nat
    decreases marks.len(),
{
    if marks.len() == 0 {
        0
    } else {
        unmarked(marks.drop_last()) + if marks.last() {
            0nat
        } else {
            1nat
        }
    }
}

proof fn lemma_mark(marks: Seq<bool>, k: int)
    requires
        0 <= k < marks.len(),
        !marks[k],
    ensures
        unmarked(marks.update(k, true)) + 1 == unmarked(marks),
    decreases marks.len(),
{
    let t = marks.update(k, true);
    if k < marks.len() - 1 {
        lemma_mark(marks.drop_last(), k);
        assert(t.drop_last() =~= marks.drop_last().update(k, true));
    } else {
        assert(t.drop_last() =~= marks.drop_last());
    }
}

/// Whether every node that is marked and not in the list is no nearer than any node
/// in the list.
pub open spec fn left_out_no_nearer<T: Scalar>(
    s: Seq<(usize, T)>,
    d: Seq<T>,
    marks: Seq<bool>,
) -> bool {
    forall|v: int, i: int|
        0 <= v < d.len() && #[trigger] marks[v] && !has_node(s, v) && 0 <= i < s.len() ==> !d[v].below_spec(
            (#[trigger] s[i]).1,
        )
}

/// Whether a node that the search has seen can be missing in the list: only when the
/// list is full.
pub open spec fn all_listed_unless_full<T>(
    s: Seq<(usize, T)>,
    marks: Seq<bool>,
    ef: int,
) -> bool {
    s.len() < ef ==> forall|v: int| 0 <= v < marks.len() && #[trigger] marks[v] ==> has_node(s, v)
}

/// What a beam search finds in a layer from `ep` with width `ef`: `s` lists different
/// nodes with their distances, nearest first, and no more than `ef` of them. No
/// neighbour of a listed node is nearer than the farthest listed node, unless it is
/// listed itself; and if there is room for every node, the list has `ep` and all
/// neighbours of its nodes.
pub open spec fn beam_found<T: Scalar>(
    s: Seq<(usize, T)>,
    g: Seq<Vec<u32>>,
    d: Seq<T>,
    ep: int,
    ef: int,
) -> bool {
    &&& listed(s, d)
    &&& 1 <= s.len()
    &&& s.len() <= ef || s.len() == 1
    &&& comparable(d) ==> forall|i: int, j: int|
        0 <= i < j < s.len() ==> !(#[trigger] s[j]).1.below_spec((#[trigger] s[i]).1)
    &&& comparable(d) ==> forall|i: int, v: int, j: int|
        0 <= i < s.len() && #[trigger] edge(g, s[i].0 as int, v) && !has_node(s, v) && 0 <= j
            < s.len() ==> !d[v].below_spec((#[trigger] s[j]).1)
    &&& ef >= d.len() ==> has_node(s, ep)
    &&& ef >= d.len() ==> forall|i: int, v: int|
        0 <= i < s.len() && #[trigger] edge(g, s[i].0 as int, v) ==> has_node(s, v)
}

/// What a beam search holds: the nodes whose neighbours are still to be seen, the nearest
/// nodes so far, and for each node whether it has been seen.
pub struct Beam<T> {
    pub candidates: Seq<(usize, T)>,
    pub results: Seq<(usize, T)>,
    pub visited: Seq<bool>,
}

/// A beam of width `ef` after it has seen `v`. A node that was not seen before and is nearer
/// than the farthest result, or finds room, becomes a candidate and a result; where the
/// results are then too many, the farthest leaves.
pub open spec fn seen<T: Scalar>(b: Beam<T>, d: Seq<T>, v: int, ef: int) -> Beam<T> {
    if b.visited[v] {
        b
    } else {
        let x = (v as usize, d[v]);
        let grown = b.results.push(x);
        let taken = b.results.len() < ef || d[v].below_spec(worst_upto(b.results, b.results.len()));
        Beam {
            candidates: if taken {
                b.candidates.push(x)
            } else {
                b.candidates
            },
            results: if !taken {
                b.results
            } else if grown.len() > ef {
                without(grown, farthest_place(grown, grown.len()))
            } else {
                grown
            },
            visited: b.visited.update(v, true),
        }
    }
}

/// A beam after it has seen the first `n` nodes of a list.
pub open spec fn seen_all<T: Scalar>(
    b: Beam<T>,
    d: Seq<T>,
    list: Seq<u32>,
    n: nat,
    ef: int,
) -> Beam<T>
    decreases n,
{
    if n == 0 {
        b
    } else {
        seen(seen_all(b, d, list, (n - 1) as nat, ef), d, list[n - 1] as int, ef)
    }
}

/// Whether a beam search ends: no candidate is left, or the results are as many as the beam
/// is wide and the nearest candidate is farther than all of them.
pub open spec fn beam_ends<T: Scalar>(b: Beam<T>, ef: int) -> bool {
    b.candidates.len() == 0 || (b.results.len() >= ef && worst_upto(
        b.results,
        b.results.len(),
    ).below_spec(b.candidates[nearest_place(b.candidates, b.candidates.len())].1))
}

/// A beam after the neighbours of its nearest candidate have been seen, unless the search
/// ends.
pub open spec fn beam_step<T: Scalar>(
    b: Beam<T>,
    g: Seq<Vec<u32>>,
    d: Seq<T>,
    ef: int,
) -> Beam<T> {
    if beam_ends(b, ef) {
        b
    } else {
        let k = nearest_place(b.candidates, b.candidates.len());
        let list = g[b.candidates[k].0 as int]@;
        seen_all(
            Beam { candidates: without(b.candidates, k), ..b },
            d,
            list,
            list.len(),
            ef,
        )
    }
}

/// The beam after `k` steps from `ep`.
pub open spec fn beam_after<T: Scalar>(
    g: Seq<Vec<u32>>,
    d: Seq<T>,
    ep: int,
    ef: int,
    k: nat,
) -> Beam<T>
    decreases k,
{
    if k == 0 {
        Beam {
            candidates: seq![(ep as usize, d[ep])],
            results: seq![(ep as usize, d[ep])],
            visited: Seq::new(d.len(), |v: int| v == ep),
        }
    } else {
        beam_step(beam_after(g, d, ep, ef, (k - 1) as nat), g, d, ef)
    }
}

/// Whether `r` has the entries of `s` by distance, nearest first; entries with equal
/// distances keep their order.
pub open spec fn by_distance<T: Scalar>(r: Seq<(usize, T)>, s: Seq<(usize, T)>) -> bool {
    exists|order: Seq<usize>|
        #[trigger] lists_range(order, 0, s.len() as int) && r == Seq::new(
            s.len(),
            |i: int| s[order[i] as int],
        ) && (comparable(keys_of(s)) ==> in_order(keys_of(s), order, false))
}

/// Whether `r` is the result of the beam search in a layer from `ep` with width `ef`: the
/// results of the beam at the end of the search, nearest first.
pub open spec fn beam_result<T: Scalar>(
    r: Seq<(usize, T)>,
    g: Seq<Vec<u32>>,
    d: Seq<T>,
    ep: int,
    ef: int,
) -> bool {
    exists|k: nat|
        beam_ends(#[trigger] beam_after(g, d, ep, ef, k), ef) && by_distance(
            r,
            beam_after(g, d, ep, ef, k).results,
        )
}

/// Sorts a list by distance, nearest first.
fn sort_by_distance<T: Scalar>(results: &Vec<(usize, T)>, Ghost(d): Ghost<Seq<T>>) -> (r: Vec<
    (usize, T),
>)
    requires
        listed(results@, d),
    ensures
        by_distance(r@, results@),
        listed(r@, d),
        r@.len() == results@.len(),
        forall|v: int| has_node(r@, v) <==> has_node(results@, v),
        comparable(d) ==> forall|i: int, j: int|
            0 <= i < j < r@.len() ==> !(#[trigger] r@[j]).1.below_spec((#[trigger] r@[i]).1),
{
    let ghost s = results@;
    let mut keys: Vec<T> = Vec::with_capacity(results.len());
    for i in 0..results.len()
        invariant
            s == results@,
            keys@.len() == i,
            forall|j: int| 0 <= j < i ==> keys@[j] == (#[trigger] s[j]).1,
    {
        keys.push(results[i].1);
    }
    let order = sorted_order(&keys, false);
    let mut out: Vec<(usize, T)> = Vec::with_capacity(results.len());
    for i in 0..order.len()
        invariant
            s == results@,
            lists_range(order@, 0, s.len() as int),
            out@.len() == i,
            forall|j: int| 0 <= j < i ==> #[trigger] out@[j] == s[order@[j] as int],
    {
        let k: usize = order[i];
        out.push(results[k]);
    }
    proof {
        assert forall|i: int, j: int| 0 <= i < out@.len() && 0 <= j < out@.len() && i != j implies nodes_of(
            out@,
        )[i] != nodes_of(out@)[j] by {
            assert(order@[i] != order@[j]);
            assert(nodes_of(s)[order@[i] as int] != nodes_of(s)[order@[j] as int]);
        }
        assert forall|v: int| has_node(out@, v) <==> has_node(s, v) by {
            if has_node(out@, v) {
                let i = choose|i: int| 0 <= i < out@.len() && (#[trigger] out@[i]).0 == v;
                assert(s[order@[i] as int].0 == v);
            }
            if has_node(s, v) {
                let i = choose|i: int| 0 <= i < s.len() && (#[trigger] s[i]).0 == v;
                lemma_listed(order@, s.len(), i);
                let j = choose|j: int| 0 <= j < s.len() && #[trigger] order@[j] == i;
                assert(out@[j].0 == v);
            }
        }
        if comparable(d) {
            assert(comparable(keys@)) by {
                assert forall|i: int, j: int, k: int|
                    0 <= i < keys@.len() && 0 <= j < keys@.len() && 0 <= k < keys@.len()
                        && #[trigger] keys@[i].below_spec(keys@[j]) implies keys@[i].below_spec(
                    #[trigger] keys@[k],
                ) || keys@[k].below_spec(keys@[j]) by {
                    lemma_comparable3(d, s[i].0 as int, s[j].0 as int, s[k].0 as int);
                }
                assert forall|j: int, k: int|
                    0 <= j < keys@.len() && 0 <= k < keys@.len() && T::spec_lowest().below_spec(
                        #[trigger] keys@[j],
                    ) implies T::spec_lowest().below_spec(#[trigger] keys@[k])
                    || keys@[k].below_spec(keys@[j]) by {
                    assert(keys@[j] == d[s[j].0 as int]);
                    assert(keys@[k] == d[s[k].0 as int]);
                }
            }
            assert forall|i: int, j: int| 0 <= i < j < out@.len() implies !(
            #[trigger] out@[j]).1.below_spec((#[trigger] out@[i]).1) by {
                let a = order@[i] as int;
                let b = order@[j] as int;
                assert(item_before(keys@, a, b, false));
                assert(s[a].1 == keys@[a] && s[b].1 == keys@[b]);
                if keys@[b].below_spec(keys@[a]) && keys@[a].below_spec(keys@[b]) {
                    keys@[a].below_transitive(keys@[b], keys@[a]);
                    keys@[a].below_irreflexive();
                }
            }
        }
        assert(keys@ =~= keys_of(s));
        assert(out@ =~= Seq::new(s.len(), |i: int| s[order@[i] as int]));
    }
    out
}

/// Beam search in one layer of the graph: see [`beam_result`] and [`beam_found`].
fn search_layer_vec<T: Scalar>(
    centroids: &Vec<Vec<T>>,
    layer: &Vec<Vec<u32>>,
    q: &[T],
    ep: usize,
    ef: usize,
) -> (r: Vec<(usize, T)>)
    requires
        layer_wf(layer@, centroids@.len()),
        ep < centroids@.len(),
    ensures
        beam_result(r@, layer@, dists(q@, centroids@), ep as int, ef as int),
        beam_found(r@, layer@, dists(q@, centroids@), ep as int, ef as int),
{
    let n: usize = centroids.len();
    let ghost d = dists(q@, centroids@);
    let ghost g = layer@;
    let mut candidates: Vec<(usize, T)> = Vec::new();
    let mut results: Vec<(usize, T)> = Vec::new();
    let mut visited: Vec<bool> = filled(n, false);
    let d0 = dist_vec(q, &centroids[ep]);
    proof {
        lemma_push_node(Seq::<(usize, T)>::empty(), d, (ep, d0));
    }
    candidates.push((ep, d0));
    results.push((ep, d0));
    assert(candidates@ =~= Seq::<(usize, T)>::empty().push((ep, d0)));
    assert(results@ =~= Seq::<(usize, T)>::empty().push((ep, d0)));
    visited[ep] = true;
    proof {
        assert forall|v: int| 0 <= v < visited@.len() && #[trigger] visited@[v] implies has_node(
            results@,
            v,
        ) by {
            assert(results@[0].0 == ep);
        }
    }
    // The nodes whose neighbours have all been seen.
    let ghost mut done: Set<int> = Set::empty();
    let ghost mut steps: nat = 0;
    proof {
        let b = beam_after(g, d, ep as int, ef as int, 0);
        assert(candidates@ =~= b.candidates);
        assert(results@ =~= b.results);
        assert(visited@ =~= b.visited);
    }
    loop
        invariant_except_break
            beam_after(g, d, ep as int, ef as int, steps).candidates == candidates@,
            beam_after(g, d, ep as int, ef as int, steps).visited == visited@,
            listed(candidates@, d),
            forall|v: int| has_node(candidates@, v) ==> 0 <= v < n && visited@[v],
            forall|v: int| #[trigger] has_node(results@, v) ==> has_node(candidates@, v)
                || done.contains(v),
        invariant
            n == centroids@.len(),
            d == dists(q@, centroids@),
            g == layer@,
            layer_wf(g, n as nat),
            visited@.len() == n,
            beam_after(g, d, ep as int, ef as int, steps).results == results@,
            listed(results@, d),
            1 <= results@.len(),
            results@.len() <= ef || results@.len() == 1,
            forall|v: int| #[trigger] has_node(results@, v) ==> 0 <= v < n && visited@[v],
            visited@[ep as int],
            ep < n,
            forall|u: int, v: int|
                done.contains(u) && #[trigger] edge(g, u, v) ==> 0 <= v < n && visited@[v],
            all_listed_unless_full(results@, visited@, ef as int),
            comparable(d) ==> left_out_no_nearer(results@, d, visited@),
        ensures
            (forall|v: int| #[trigger] has_node(results@, v) ==> done.contains(v)) || (
            results@.len() >= ef && !comparable(d)),
            beam_ends(beam_after(g, d, ep as int, ef as int, steps), ef as int),
        decreases unmarked(visited@), candidates@.len(),
    {
        let ghost cands0 = candidates@;
        let popped = pop_min(&mut candidates);
        let (curr, cur_d) = match popped {
            Some(x) => x,
            None => {
                assert forall|v: int| #[trigger] has_node(results@, v) implies done.contains(v) by {
                    assert(!has_node(cands0, v));
                }
                break ;
            },
        };
        let ghost k = nearest_place(cands0, cands0.len());
        proof {
            lemma_remove_node(cands0, d, k);
            assert(has_node(cands0, curr as int));
        }
        let worst = worst_of(&results, Ghost(d));
        if worst.below(cur_d) && results.len() >= ef {
            proof {
                if comparable(d) {
                    assert forall|v: int| #[trigger] has_node(results@, v) implies done.contains(
                        v,
                    ) by {
                        if has_node(cands0, v) {
                            let i = choose|i: int| 0 <= i < cands0.len() && (#[trigger] cands0[i]).0 == v;
                            let j = choose|j: int|
                                0 <= j < results@.len() && (#[trigger] results@[j]).0 == v;
                            assert(!cands0[i].1.below_spec(cands0[k].1));
                            assert(!worst.below_spec(results@[j].1));
                            assert(cands0[i].1 == d[v] && results@[j].1 == d[v]);
                            lemma_worst_bounds(results@, d, worst, v, curr as int);
                        }
                    }
                }
            }
            break ;
        }
        let ghost visited0 = visited@;
        let ghost cands1 = candidates@;
        let ghost popped_beam = Beam { candidates: cands1, results: results@, visited: visited0 };
        let nbrs = &layer[curr];
        for i in 0..nbrs.len()
            invariant
                n == centroids@.len(),
                d == dists(q@, centroids@),
                g == layer@,
                layer_wf(g, n as nat),
                curr < n,
                nbrs@ == g[curr as int]@,
                visited@.len() == n,
                listed(candidates@, d),
                listed(results@, d),
                1 <= results@.len(),
                results@.len() <= ef || results@.len() == 1,
                forall|v: int| #[trigger] has_node(results@, v) ==> 0 <= v < n && visited@[v],
                forall|v: int| has_node(candidates@, v) ==> 0 <= v < n && visited@[v],
                forall|v: int| #[trigger] has_node(results@, v) ==> has_node(candidates@, v)
                    || done.contains(v) || v == curr,
                forall|v: int| 0 <= v < n && visited0[v] ==> #[trigger] visited@[v],
                visited0.len() == n,
                forall|j: int| 0 <= j < i ==> visited@[(#[trigger] nbrs@[j]) as int],
                all_listed_unless_full(results@, visited@, ef as int),
                comparable(d) ==> left_out_no_nearer(results@, d, visited@),
                unmarked(visited@) < unmarked(visited0) || (unmarked(visited@) == unmarked(visited0)
                    && candidates@ == cands1),
                seen_all(popped_beam, d, nbrs@, i as nat, ef as int) == (Beam {
                    candidates: candidates@,
                    results: results@,
                    visited: visited@,
                }),
        {
            let v: usize = nbrs[i] as usize;
            assert(g[curr as int]@[i as int] < n);
            if !visited[v] {
                let ghost res0 = results@;
                let ghost vis1 = visited@;
                proof {
                    lemma_mark(visited@, v as int);
                }
                visited[v] = true;
                let dv = dist_vec(q, &centroids[v]);
                assert(dv == d[v as int]);
                assert(!has_node(res0, v as int));
                assert(!has_node(candidates@, v as int));
                let worst = worst_of(&results, Ghost(d));
                if results.len() < ef || dv.below(worst) {
                    proof {
                        lemma_push_node(candidates@, d, (v, dv));
                        lemma_push_node(res0, d, (v, dv));
                    }
                    let ghost cand0 = candidates@;
                    candidates.push((v, dv));
                    results.push((v, dv));
                    let ghost res1 = results@;
                    assert(forall|u: int|
                        has_node(candidates@, u) <==> (has_node(cand0, u) || u == v));
                    assert(forall|u: int| has_node(cand0, u) ==> has_node(candidates@, u));
                    if results.len() > ef {
                        let mi: usize = worst_place(&results, Ghost(d));
                        proof {
                            lemma_remove_node(res1, d, mi as int);
                            assert(without(res1, mi as int).len() == res0.len());
                        }
                        results.swap_remove(mi);
                        assert(results@ == without(res1, mi as int));
                        proof {
                            if comparable(d) {
                                lemma_evicted(
                                    res0,
                                    res1,
                                    results@,
                                    d,
                                    vis1,
                                    visited@,
                                    v as int,
                                    mi as int,
                                    worst,
                                    ef as int,
                                );
                            }
                        }
                    } else {
                        proof {
                            assert(all_listed_unless_full(res0, vis1, ef as int));
                            assert forall|u: int|
                                0 <= u < visited@.len() && #[trigger] visited@[u] implies has_node(
                                results@,
                                u,
                            ) by {
                                if u != v {
                                    assert(vis1[u]);
                                    assert(has_node(res0, u));
                                }
                            }
                        }
                    }
                } else {
                    proof {
                        if comparable(d) {
                            lemma_rejected(
                                res0,
                                d,
                                vis1,
                                visited@,
                                v as int,
                                worst,
                            );
                        }
                    }
                }
            }
        }
        proof {
            let b = beam_after(g, d, ep as int, ef as int, steps);
            assert(beam_step(b, g, d, ef as int) == seen_all(
                popped_beam,
                d,
                nbrs@,
                nbrs@.len(),
                ef as int,
            ));
            steps = steps + 1;
            let done0 = done;
            done = done.insert(curr as int);
            assert forall|u: int, v: int| done.contains(u) && #[trigger] edge(g, u, v) implies 0 <= v
                < n && visited@[v] by {
                if u == curr && !done0.contains(u) {
                    let i = choose|i: int| 0 <= i < g[u]@.len() && #[trigger] g[u]@[i] == v;
                    assert(nbrs@[i] == v);
                } else {
                    assert(visited0[v]);
                }
            }
        }
    }
    let sorted = sort_by_distance(&results, Ghost(d));
    proof {
        lemma_list_size(results@, d);
        assert forall|i: int, v: int, j: int|
            comparable(d) && 0 <= i < sorted@.len() && #[trigger] edge(g, sorted@[i].0 as int, v)
                && !has_node(sorted@, v) && 0 <= j < sorted@.len() implies !d[v].below_spec(
            (#[trigger] sorted@[j]).1,
        ) by {
            assert(has_node(sorted@, sorted@[i].0 as int));
            assert(has_node(results@, sorted@[i].0 as int));
            assert(visited@[v]);
            assert(has_node(sorted@, sorted@[j].0 as int));
            let t = choose|t: int|
                0 <= t < results@.len() && (#[trigger] results@[t]).0 == sorted@[j].0 as int;
            assert(results@[t].1 == sorted@[j].1);
        }
        if ef >= d.len() {
            if results@.len() < ef {
                assert(has_node(results@, ep as int));
                assert forall|i: int, v: int| 0 <= i < sorted@.len() && #[trigger] edge(
                    g,
                    sorted@[i].0 as int,
                    v,
                ) implies has_node(sorted@, v) by {
                    assert(has_node(sorted@, sorted@[i].0 as int));
                    assert(visited@[v]);
                }
            } else {
                assert(results@.len() == d.len());
                assert forall|i: int, v: int| 0 <= i < sorted@.len() && #[trigger] edge(
                    g,
                    sorted@[i].0 as int,
                    v,
                ) implies has_node(sorted@, v) by {
                    let u = sorted@[i].0 as int;
                    let x = choose|x: int| 0 <= x < g[u]@.len() && #[trigger] g[u]@[x] == v;
                    assert(g[u]@[x] < n);
                    assert(has_node(results@, v));
                }
                assert(has_node(results@, ep as int));
            }
        }
    }
    sorted
}

/// A listed node is not farther than the worst distance, so that a node beyond the
/// worst distance is farther than it.
proof fn lemma_worst_bounds<T: Scalar>(
    s: Seq<(usize, T)>,
    d: Seq<T>,
    worst: T,
    v: int,
    c: int,
)
    requires
        comparable(d),
        listed(s, d),
        is_worst(s, worst),
        has_node(s, v),
        0 <= c < d.len(),
        worst.below_spec(d[c]),
    ensures
        0 <= v < d.len(),
        d[v].below_spec(d[c]),
{
    let j = choose|j: int| 0 <= j < s.len() && (#[trigger] s[j]).0 == v;
    assert(s[j].1 == d[v]);
    assert(!worst.below_spec(d[v]));
    if exists|i: int| 0 <= i < s.len() && (#[trigger] s[i]).1 == worst {
        let i = choose|i: int| 0 <= i < s.len() && (#[trigger] s[i]).1 == worst;
        let w = s[i].0 as int;
        assert(d[w] == worst);
        lemma_comparable3(d, w, c, v);
    } else {
        assert(worst == T::spec_lowest());
        lemma_lowest_listed(d, v, c);
    }
}

/// A number that the lowest is not less than counts as lowest.
proof fn lemma_lowest_listed<T: Scalar>(d: Seq<T>, v: int, c: int)
    requires
        comparable(d),
        0 <= v < d.len(),
        0 <= c < d.len(),
        T::spec_lowest().below_spec(d[c]),
        !T::spec_lowest().below_spec(d[v]),
    ensures
        d[v].below_spec(d[c]),
{
}

/// A node that is no nearer than the worst listed one can be left out.
proof fn lemma_rejected<T: Scalar>(
    s: Seq<(usize, T)>,
    d: Seq<T>,
    marks0: Seq<bool>,
    marks1: Seq<bool>,
    v: int,
    worst: T,
)
    requires
        comparable(d),
        listed(s, d),
        is_worst(s, worst),
        marks0.len() == d.len(),
        0 <= v < d.len(),
        marks1 == marks0.update(v, true),
        !d[v].below_spec(worst),
        left_out_no_nearer(s, d, marks0),
    ensures
        left_out_no_nearer(s, d, marks1),
{
    assert forall|u: int, i: int|
        0 <= u < d.len() && #[trigger] marks1[u] && !has_node(s, u) && 0 <= i < s.len() implies !d[u].below_spec(
        (#[trigger] s[i]).1,
    ) by {
        if u == v {
            let x = s[i].1;
            if d[v].below_spec(x) {
                if exists|j: int| 0 <= j < s.len() && (#[trigger] s[j]).1 == worst {
                    let j = choose|j: int| 0 <= j < s.len() && (#[trigger] s[j]).1 == worst;
                    lemma_comparable3(d, v, s[i].0 as int, s[j].0 as int);
                } else {
                    d[v].lowest_is_least(x);
                }
            }
        } else {
            assert(marks0[u]);
        }
    }
}

/// Listing a nearer node and dropping the worst one keeps the nearest nodes.
proof fn lemma_evicted<T: Scalar>(
    s0: Seq<(usize, T)>,
    s1: Seq<(usize, T)>,
    s2: Seq<(usize, T)>,
    d: Seq<T>,
    marks0: Seq<bool>,
    marks1: Seq<bool>,
    v: int,
    mi: int,
    worst: T,
    ef: int,
)
    requires
        comparable(d),
        listed(s0, d),
        listed(s1, d),
        is_worst(s0, worst),
        marks0.len() == d.len(),
        0 <= v < d.len(),
        marks1 == marks0.update(v, true),
        s1 == s0.push((v as usize, d[v])),
        (v as usize) == v,
        0 <= mi < s1.len(),
        s2 == without(s1, mi),
        forall|i: int| 0 <= i < s1.len() ==> !s1[mi].1.below_spec((#[trigger] s1[i]).1),
        s0.len() < ef || d[v].below_spec(worst),
        all_listed_unless_full(s0, marks0, ef),
        left_out_no_nearer(s0, d, marks0),
    ensures
        left_out_no_nearer(s2, d, marks1),
{
    lemma_remove_node(s1, d, mi);
    assert forall|u: int, i: int|
        0 <= u < d.len() && #[trigger] marks1[u] && !has_node(s2, u) && 0 <= i < s2.len() implies !d[u].below_spec(
        (#[trigger] s2[i]).1,
    ) by {
        let from = if i == mi {
            s1.len() - 1
        } else {
            i
        };
        assert(s2[i] == s1[from]);
        if u == s1[mi].0 {
            assert(d[u] == s1[mi].1);
        } else {
            assert(!has_node(s1, u)) by {
                if has_node(s1, u) {
                    assert(has_node(s2, u));
                }
            }
            assert(u != v) by {
                if u == v {
                    assert(s1[s0.len() as int].0 == u);
                }
            }
            assert(marks0[u]);
            assert(!has_node(s0, u)) by {
                if has_node(s0, u) {
                    let t = choose|t: int| 0 <= t < s0.len() && (#[trigger] s0[t]).0 == u;
                    assert(s1[t].0 == u);
                }
            }
            if from < s0.len() {
                assert(s1[from] == s0[from]);
            } else {
                assert(s0.len() >= ef);
                if d[u].below_spec(d[v]) {
                    d[u].below_transitive(d[v], worst);
                    if exists|j: int| 0 <= j < s0.len() && (#[trigger] s0[j]).1 == worst {
                        let j = choose|j: int| 0 <= j < s0.len() && (#[trigger] s0[j]).1 == worst;
                        assert(!d[u].below_spec(s0[j].1));
                    } else {
                        d[v].lowest_is_least(d[v]);
                    }
                }
            }
        }
    }
}

/// How many numbers are less than `x`.
pub open spec fn count_below<T: Scalar>(d: Seq<T>, x: T) -> nat
    decreases d.len(),
{
    if d.len() == 0 {
        0
    } else {
        count_below(d.drop_last(), x) + if d.last().below_spec(x) {
            1nat
        } else {
            0nat
        }
    }
}

proof fn lemma_count_below<T: Scalar>(d: Seq<T>, x: T, y: T)
    requires
        x.below_spec(y),
    ensures
        count_below(d, x) <= count_below(d, y),
        (exists|i: int| 0 <= i < d.len() && #[trigger] d[i] == x) ==> count_below(d, x) < count_below(
            d,
            y,
        ),
    decreases d.len(),
{
    if d.len() > 0 {
        let f = d.drop_last();
        lemma_count_below(f, x, y);
        x.below_irreflexive();
        if d.last().below_spec(x) {
            d.last().below_transitive(x, y);
        }
        if exists|i: int| 0 <= i < d.len() && #[trigger] d[i] == x {
            let i = choose|i: int| 0 <= i < d.len() && #[trigger] d[i] == x;
            if i < f.len() {
                assert(f[i] == x);
            }
        }
    }
}

/// Whether no neighbour of `v` is nearer than `v`.
pub open spec fn locally_nearest<T: Scalar>(g: Seq<Vec<u32>>, d: Seq<T>, v: int) -> bool {
    forall|i: int| 0 <= i < g[v]@.len() ==> !d[(#[trigger] g[v]@[i]) as int].below_spec(d[v])
}

/// The nearest of `v` and the first `n` nodes of a list: the first one, where several are
/// nearest.
pub open spec fn nearest_upto<T: Scalar>(list: Seq<u32>, d: Seq<T>, v: int, n: nat) -> int
    decreases n,
{
    if n == 0 {
        v
    } else {
        let u = nearest_upto(list, d, v, (n - 1) as nat);
        if d[list[n - 1] as int].below_spec(d[u]) {
            list[n - 1] as int
        } else {
            u
        }
    }
}

/// The node after `k` moves from `v`, each to the nearest of a node and its neighbours.
pub open spec fn moved_to<T: Scalar>(g: Seq<Vec<u32>>, d: Seq<T>, v: int, k: nat) -> int
    decreases k,
{
    if k == 0 {
        v
    } else {
        let u = moved_to(g, d, v, (k - 1) as nat);
        nearest_upto(g[u]@, d, u, g[u]@.len())
    }
}

/// Whether moves from `v` to the nearest neighbour end at `r`.
pub open spec fn descends_to<T: Scalar>(g: Seq<Vec<u32>>, d: Seq<T>, v: int, r: int) -> bool {
    &&& locally_nearest(g, d, r)
    &&& exists|k: nat| #[trigger] moved_to(g, d, v, k) == r
}

/// Moves from `ep` to nearer neighbours until no neighbour is nearer, looking at all
/// neighbours before each move.
fn greedy_descent_one<T: Scalar>(
    centroids: &Vec<Vec<T>>,
    layer: &Vec<Vec<u32>>,
    q: &[T],
    ep: usize,
) -> (r: usize)
    requires
        layer_wf(layer@, centroids@.len()),
        ep < centroids@.len(),
    ensures
        r < centroids@.len(),
        descends_to(layer@, dists(q@, centroids@), ep as int, r as int),
        r == ep || dists(q@, centroids@)[r as int].below_spec(dists(q@, centroids@)[ep as int]),
{
    let ghost d = dists(q@, centroids@);
    let ghost g = layer@;
    let mut curr: usize = ep;
    let mut curr_d = dist_vec(q, &centroids[curr]);
    let mut changed: bool = true;
    let ghost mut moves: nat = 0;
    while changed
        invariant
            moved_to(g, d, ep as int, moves) == curr,
            d == dists(q@, centroids@),
            g == layer@,
            layer_wf(g, d.len()),
            d.len() == centroids@.len(),
            curr < d.len(),
            ep < d.len(),
            curr_d == d[curr as int],
            curr == ep || d[curr as int].below_spec(d[ep as int]),
            !changed ==> locally_nearest(g, d, curr as int),
        decreases
                count_below(d, curr_d),
                if changed {
                    1int
                } else {
                    0int
                },
    {
        changed = false;
        let from: usize = curr;
        let ghost from_d = curr_d;
        let nbrs = &layer[from];
        for i in 0..nbrs.len()
            invariant
                d == dists(q@, centroids@),
                g == layer@,
                layer_wf(g, d.len()),
                d.len() == centroids@.len(),
                from < d.len(),
                ep < d.len(),
                curr < d.len(),
                nbrs@ == g[from as int]@,
                curr == nearest_upto(nbrs@, d, from as int, i as nat),
                curr_d == d[curr as int],
                from_d == d[from as int],
                from == ep || d[from as int].below_spec(d[ep as int]),
                changed ==> curr_d.below_spec(from_d),
                !changed ==> curr == from,
                forall|j: int| 0 <= j < i ==> changed || !d[(
                #[trigger] nbrs@[j]) as int].below_spec(from_d),
        {
            let v: usize = nbrs[i] as usize;
            assert(g[from as int]@[i as int] < d.len());
            let dv = dist_vec(q, &centroids[v]);
            assert(dv == d[v as int]);
            if dv.below(curr_d) {
                proof {
                    if changed {
                        dv.below_transitive(curr_d, from_d);
                    }
                }
                curr_d = dv;
                curr = v;
                changed = true;
            }
        }
        proof {
            moves = moves + 1;
            if changed {
                assert(d[curr as int] == curr_d);
                lemma_count_below(d, curr_d, from_d);
                if from != ep {
                    d[curr as int].below_transitive(d[from as int], d[ep as int]);
                }
            }
        }
    }
    curr
}

/// The first node of a list, from place `i` on, that is nearer than `v`; `v` itself if there
/// is none.
pub open spec fn first_nearer<T: Scalar>(list: Seq<u32>, d: Seq<T>, v: int, i: nat) -> int
    decreases list.len() - i,
{
    if i >= list.len() {
        v
    } else if d[list[i as int] as int].below_spec(d[v]) {
        list[i as int] as int
    } else {
        first_nearer(list, d, v, i + 1)
    }
}

/// The node after `k` moves from `v`, each to the first nearer neighbour.
pub open spec fn hopped_to<T: Scalar>(g: Seq<Vec<u32>>, d: Seq<T>, v: int, k: nat) -> int
    decreases k,
{
    if k == 0 {
        v
    } else {
        let u = hopped_to(g, d, v, (k - 1) as nat);
        first_nearer(g[u]@, d, u, 0)
    }
}

/// Whether moves from `v` to the first nearer neighbour end at `r`.
pub open spec fn walks_to<T: Scalar>(g: Seq<Vec<u32>>, d: Seq<T>, v: int, r: int) -> bool {
    &&& locally_nearest(g, d, r)
    &&& exists|k: nat| #[trigger] hopped_to(g, d, v, k) == r
}

/// Moves from `ep` to nearer neighbours until no neighbour is nearer, taking the first
/// nearer neighbour each time.
fn descend_first<T: Scalar>(
    centroids: &Vec<Vec<T>>,
    layer: &Vec<Vec<u32>>,
    q: &[T],
    ep: usize,
) -> (r: usize)
    requires
        layer_wf(layer@, centroids@.len()),
        ep < centroids@.len(),
    ensures
        r < centroids@.len(),
        walks_to(layer@, dists(q@, centroids@), ep as int, r as int),
        r == ep || dists(q@, centroids@)[r as int].below_spec(dists(q@, centroids@)[ep as int]),
{
    let ghost d = dists(q@, centroids@);
    let ghost g = layer@;
    let mut curr: usize = ep;
    let mut changed: bool = true;
    let ghost mut moves: nat = 0;
    while changed
        invariant
            hopped_to(g, d, ep as int, moves) == curr,
            d == dists(q@, centroids@),
            g == layer@,
            layer_wf(g, d.len()),
            d.len() == centroids@.len(),
            curr < d.len(),
            ep < d.len(),
            curr == ep || d[curr as int].below_spec(d[ep as int]),
            !changed ==> locally_nearest(g, d, curr as int),
        decreases
                count_below(d, d[curr as int]),
                if changed {
                    1int
                } else {
                    0int
                },
    {
        changed = false;
        let from: usize = curr;
        let cur_d = dist_vec(q, &centroids[from]);
        let nbrs = &layer[from];
        let mut i: usize = 0;
        while i < nbrs.len() && !changed
            invariant
                d == dists(q@, centroids@),
                g == layer@,
                layer_wf(g, d.len()),
                d.len() == centroids@.len(),
                from < d.len(),
                curr < d.len(),
                nbrs@ == g[from as int]@,
                i <= nbrs@.len(),
                !changed ==> first_nearer(nbrs@, d, from as int, 0) == first_nearer(
                    nbrs@,
                    d,
                    from as int,
                    i as nat,
                ),
                changed ==> first_nearer(nbrs@, d, from as int, 0) == curr,
                cur_d == d[from as int],
                changed ==> d[curr as int].below_spec(cur_d),
                !changed ==> curr == from,
                !changed ==> forall|j: int| 0 <= j < i ==> !d[(
                #[trigger] nbrs@[j]) as int].below_spec(cur_d),
            decreases nbrs@.len() - i,
        {
            let v: usize = nbrs[i] as usize;
            assert(g[from as int]@[i as int] < d.len());
            let dv = dist_vec(q, &centroids[v]);
            if dv.below(cur_d) {
                curr = v;
                changed = true;
            }
            i = i + 1;
        }
        proof {
            moves = moves + 1;
            if changed {
                lemma_count_below(d, d[curr as int], cur_d);
                if from != ep {
                    d[curr as int].below_transitive(d[from as int], d[ep as int]);
                }
            }
        }
    }
    curr
}

/// The distances of a list of nodes with distances.
pub open spec fn keys_of<T>(s: Seq<(usize, T)>) -> Seq<T> {
    s.map_values(|c: (usize, T)| c.1)
}

/// Whether `r` has the nearest `m` nodes of a list, or all if there are fewer, nearest first;
/// of nodes with equal distances those that come first in the list.
pub open spec fn nearest_of<T: Scalar>(r: Seq<u32>, s: Seq<(usize, T)>, m: nat) -> bool {
    &&& r.len() == if m < s.len() {
        m
    } else {
        s.len()
    }
    &&& exists|order: Seq<usize>|
        #[trigger] lists_range(order, 0, s.len() as int) && (forall|i: int|
            0 <= i < r.len() ==> #[trigger] r[i] == s[order[i] as int].0) && (comparable(
            keys_of(s),
        ) ==> in_order(keys_of(s), order, false))
}

/// The nearest `m` of the candidates, nearest first.
fn select_neighbors<T: Scalar>(candidates: &Vec<(usize, T)>, m: usize, Ghost(n): Ghost<nat>) -> (r: Vec<
    u32,
>)
    requires
        n <= u32::MAX,
        forall|i: int| 0 <= i < candidates@.len() ==> (#[trigger] candidates@[i]).0 < n,
    ensures
        nearest_of(r@, candidates@, m as nat),
        forall|i: int| 0 <= i < r@.len() ==> (#[trigger] r@[i]) < n,
{
    let ghost s = candidates@;
    let mut keys: Vec<T> = Vec::with_capacity(candidates.len());
    for i in 0..candidates.len()
        invariant
            s == candidates@,
            keys@ == keys_of(s).take(i as int),
    {
        keys.push(candidates[i].1);
        assert(keys@ =~= keys_of(s).take(i + 1));
    }
    assert(keys@ =~= keys_of(s));
    let order = sorted_order(&keys, false);
    let take: usize = if order.len() < m {
        order.len()
    } else {
        m
    };
    let mut out: Vec<u32> = Vec::with_capacity(take);
    for i in 0..take
        invariant
            s == candidates@,
            n <= u32::MAX,
            take <= order@.len(),
            lists_range(order@, 0, s.len() as int),
            forall|j: int| 0 <= j < s.len() ==> (#[trigger] s[j]).0 < n,
            out@.len() == i,
            forall|j: int| 0 <= j < i ==> #[trigger] out@[j] == s[order@[j] as int].0,
    {
        let k: usize = order[i];
        assert(s[order@[i as int] as int].0 < n);
        out.push(candidates[k].0 as u32);
    }
    assert forall|i: int| 0 <= i < out@.len() implies (#[trigger] out@[i]) < n by {
        assert(s[order@[i] as int].0 < n);
    }
    assert(keys@ == keys_of(candidates@));
    assert(lists_range(order@, 0, candidates@.len() as int));
    out
}

/// Whether every layer has the given nodes and all its edges lead to nodes.
pub open spec fn layers_wf(graph: Seq<Vec<Vec<u32>>>, n: nat) -> bool {
    forall|l: int| 0 <= l < graph.len() ==> layer_wf((#[trigger] graph[l])@, n)
}

/// Whether no node has more than `m` neighbours, in any layer, beyond those that it
/// had before.
pub open spec fn degrees_bounded(
    before: Seq<Vec<Vec<u32>>>,
    after: Seq<Vec<Vec<u32>>>,
    m: nat,
) -> bool {
    &&& after.len() == before.len()
    &&& forall|l: int, v: int|
        0 <= l < after.len() && 0 <= v < after[l]@.len() && before[l]@[v]@.len() <= m
            ==> #[trigger] after[l]@[v]@.len() <= m
}

/// The nodes of a list with their distances to node `u`.
pub open spec fn measured<T: Scalar>(
    list: Seq<u32>,
    centroids: Seq<Vec<T>>,
    u: int,
) -> Seq<(usize, T)> {
    list.map_values(
        |v: u32| (v as usize, dist_spec(centroids[u]@, centroids[v as int]@)),
    )
}

/// Whether the neighbours `after` of node `u` are those `before` and `node`, but only the
/// nearest `m` of them where they are more.
pub open spec fn linked_back<T: Scalar>(
    before: Seq<u32>,
    after: Seq<u32>,
    centroids: Seq<Vec<T>>,
    u: int,
    node: int,
    m: nat,
) -> bool {
    let longer = before.push(node as u32);
    if longer.len() > m {
        nearest_of(after, measured(longer, centroids, u), m)
    } else {
        after == longer
    }
}

/// Whether a list holds the node.
pub open spec fn names(list: Seq<u32>, v: int) -> bool {
    exists|i: int| 0 <= i < list.len() && #[trigger] list[i] == v
}

/// The neighbours of node `v` in layer `g` once those of `node` have been replaced by `list`.
pub open spec fn replaced_at(g: Seq<Vec<u32>>, node: int, list: Seq<u32>, v: int) -> Seq<u32> {
    if v == node {
        list
    } else {
        g[v]@
    }
}

/// Whether layer `h` is layer `g` with `node` linked to the nodes of `list` in both
/// directions. Other nodes keep their neighbours.
pub open spec fn linked_with<T: Scalar>(
    g: Seq<Vec<u32>>,
    h: Seq<Vec<u32>>,
    centroids: Seq<Vec<T>>,
    node: int,
    list: Seq<u32>,
    m: nat,
) -> bool {
    &&& h.len() == g.len()
    &&& forall|v: int|
        0 <= v < h.len() ==> if names(list, v) {
            linked_back(
                replaced_at(g, node, list, v),
                (#[trigger] h[v])@,
                centroids,
                v,
                node,
                m,
            )
        } else {
            h[v]@ == replaced_at(g, node, list, v)
        }
}

/// Adds an edge from `from` to `to`, and keeps only the nearest `m` neighbours of
/// `from`.
fn link_back<T: Scalar>(
    centroids: &Vec<Vec<T>>,
    layer: &mut Vec<Vec<u32>>,
    from: usize,
    to: usize,
    m: usize,
)
    requires
        layer_wf(old(layer)@, centroids@.len()),
        from < centroids@.len(),
        to < centroids@.len() <= u32::MAX,
    ensures
        layer_wf(final(layer)@, centroids@.len()),
        linked_back(
            old(layer)@[from as int]@,
            final(layer)@[from as int]@,
            centroids@,
            from as int,
            to as int,
            m as nat,
        ),
        forall|v: int|
            0 <= v < centroids@.len() && v != from ==> #[trigger] final(layer)@[v] == old(layer)@[v],
{
    let ghost n = centroids@.len();
    let ghost g0 = layer@;
    let mut list: Vec<u32> = copy_all(&layer[from]);
    list.push(to as u32);
    let ghost longer = list@;
    assert forall|i: int| 0 <= i < list@.len() implies (#[trigger] list@[i]) < n by {
        if i < list@.len() - 1 {
            assert(g0[from as int]@[i] < n);
        }
    }
    if list.len() > m {
        let mut cand: Vec<(usize, T)> = Vec::with_capacity(list.len());
        for i in 0..list.len()
            invariant
                n == centroids@.len(),
                from < n,
                forall|j: int| 0 <= j < list@.len() ==> (#[trigger] list@[j]) < n,
                longer == list@,
                cand@ == measured(longer, centroids@, from as int).take(i as int),
        {
            let v: usize = list[i] as usize;
            assert(list@[i as int] < n);
            cand.push((v, dist_vec(&centroids[from], &centroids[v])));
            assert(cand@ =~= measured(longer, centroids@, from as int).take(i + 1));
        }
        assert(cand@ =~= measured(longer, centroids@, from as int));
        list = select_neighbors(&cand, m, Ghost(n));
    }
    layer[from] = list;
    assert forall|u: int, i: int| 0 <= u < n && 0 <= i < layer@[u]@.len() implies (
    #[trigger] layer@[u]@[i]) < n by {
        if u != from {
            assert(g0[u]@[i] < n);
        }
    }
}

/// The nearest nodes of a list of different nodes are different.
proof fn lemma_chosen_differ<T: Scalar>(
    r: Seq<u32>,
    s: Seq<(usize, T)>,
    d: Seq<T>,
    m: nat,
)
    requires
        listed(s, d),
        nearest_of(r, s, m),
    ensures
        r.no_duplicates(),
{
    let order = choose|order: Seq<usize>|
        #[trigger] lists_range(order, 0, s.len() as int) && (forall|i: int|
            0 <= i < r.len() ==> #[trigger] r[i] == s[order[i] as int].0) && (comparable(
            keys_of(s),
        ) ==> in_order(keys_of(s), order, false));
    assert forall|i: int, j: int| 0 <= i < r.len() && 0 <= j < r.len() && i != j implies r[i]
        != r[j] by {
        assert(order[i] != order[j]);
        assert(nodes_of(s)[order[i] as int] != nodes_of(s)[order[j] as int]);
        assert(r[i] == s[order[i] as int].0);
        assert(r[j] == s[order[j] as int].0);
    }
}

/// Links `node` with the nodes of a list, in both directions.
fn link_node<T: Scalar>(
    centroids: &Vec<Vec<T>>,
    layer: &mut Vec<Vec<u32>>,
    node: usize,
    list: &Vec<u32>,
    m: usize,
)
    requires
        layer_wf(old(layer)@, centroids@.len()),
        node < centroids@.len() <= u32::MAX,
        list@.no_duplicates(),
        forall|i: int| 0 <= i < list@.len() ==> (#[trigger] list@[i]) < centroids@.len(),
    ensures
        layer_wf(final(layer)@, centroids@.len()),
        linked_with(
            old(layer)@,
            final(layer)@,
            centroids@,
            node as int,
            list@,
            m as nat,
        ),
{
    let ghost n = centroids@.len();
    let ghost g = layer@;
    layer[node] = copy_all(list);
    assert forall|u: int, i: int| 0 <= u < n && 0 <= i < layer@[u]@.len() implies (
    #[trigger] layer@[u]@[i]) < n by {
        if u != node {
            assert(g[u]@[i] < n);
        } else {
            assert(list@[i] < n);
        }
    }
    for i in 0..list.len()
        invariant
            n == centroids@.len(),
            node < n <= u32::MAX,
            list@.no_duplicates(),
            forall|j: int| 0 <= j < list@.len() ==> (#[trigger] list@[j]) < n,
            layer_wf(layer@, n),
            g.len() == n,
            forall|v: int|
                0 <= v < n ==> if names(list@.take(i as int), v) {
                    linked_back(
                        replaced_at(g, node as int, list@, v),
                        (#[trigger] layer@[v])@,
                        centroids@,
                        v,
                        node as int,
                        m as nat,
                    )
                } else {
                    layer@[v]@ == replaced_at(g, node as int, list@, v)
                },
    {
        let u: usize = list[i] as usize;
        let ghost before = layer@;
        let ghost front = list@.take(i as int);
        assert(list@[i as int] < n);
        proof {
            assert(!names(front, u as int)) by {
                if names(front, u as int) {
                    let j = choose|j: int| 0 <= j < front.len() && #[trigger] front[j] == u;
                    assert(list@[j] == list@[i as int]);
                }
            }
            assert(before[u as int]@ == replaced_at(g, node as int, list@, u as int));
        }
        link_back(centroids, layer, u, node, m);
        assert forall|v: int| 0 <= v < n implies if names(list@.take(i + 1), v) {
            linked_back(
                replaced_at(g, node as int, list@, v),
                (#[trigger] layer@[v])@,
                centroids@,
                v,
                node as int,
                m as nat,
            )
        } else {
            layer@[v]@ == replaced_at(g, node as int, list@, v)
        } by {
            let longer = list@.take(i + 1);
            if v == u {
                assert(longer[i as int] == v);
            } else {
                assert(layer@[v] == before[v]);
                assert(names(longer, v) == names(front, v)) by {
                    if names(longer, v) {
                        let j = choose|j: int| 0 <= j < longer.len() && #[trigger] longer[j] == v;
                        assert(front[j] == v);
                    }
                    if names(front, v) {
                        let j = choose|j: int| 0 <= j < front.len() && #[trigger] front[j] == v;
                        assert(longer[j] == v);
                    }
                }
            }
        }
    }
    assert(list@.take(list@.len() as int) =~= list@);
}

impl<T: Scalar> HnswIndex<T> {
    /// Whether the graph is over the centroids and searches have a place to start.
    pub open spec fn wf(&self) -> bool {
        &&& self.centroids@.len() <= u32::MAX
        &&& self.max_level < self.graph@.len()
        &&& layers_wf(self.graph@, self.centroids@.len())
        &&& self.node_level@.len() == self.centroids@.len()
        &&& (self.centroids@.len() == 0 <==> self.entry_point is None)
        &&& (self.entry_point matches Some(ep) ==> ep < self.centroids@.len())
        &&& self.m >= 2
    }

    /// Whether nothing but edges differs.
    pub open spec fn same_nodes(&self, other: &Self) -> bool {
        &&& self.centroids == other.centroids
        &&& self.node_level == other.node_level
        &&& self.entry_point == other.entry_point
        &&& self.max_level == other.max_level
        &&& self.m == other.m
        &&& self.ef_construction == other.ef_construction
        &&& self.ef_search == other.ef_search
        &&& self.graph@.len() == other.graph@.len()
    }

    /// Whether the search for `node`'s neighbours goes through the layers like this, top
    /// down: it enters layer `l` at `starts[l]`. Above the node's layer it moves to nearer
    /// neighbours. In the node's layer and below, `beams[l]` is what a beam search finds, and
    /// the search goes on at the nearest node of it.
    pub open spec fn search_path(
        &self,
        node: int,
        starts: Seq<int>,
        beams: Seq<Seq<(usize, T)>>,
    ) -> bool {
        let d = dists(self.centroids@[node]@, self.centroids@);
        let level = self.node_level@[node] as int;
        &&& starts.len() == self.max_level + 1
        &&& beams.len() == level + 1
        &&& self.entry_point == Some(starts[self.max_level as int] as usize)
        &&& forall|l: int| 0 <= l < starts.len() ==> 0 <= #[trigger] starts[l] < d.len()
        &&& forall|l: int|
            level <= l < self.max_level ==> descends_to(
                self.graph@[l + 1]@,
                d,
                starts[l + 1],
                #[trigger] starts[l],
            )
        &&& forall|l: int|
            0 <= l <= level ==> beam_result(
                #[trigger] beams[l],
                self.graph@[l]@,
                d,
                starts[l],
                self.ef_construction as int,
            )
        &&& forall|l: int| 0 <= l < level ==> #[trigger] starts[l] == beams[l + 1][0].0
    }

    /// Whether `after` is this graph with `node` linked: in each of its layers with the
    /// nearest nodes that the search for them finds, in both directions.
    pub open spec fn linked(&self, after: Seq<Vec<Vec<u32>>>, node: int) -> bool {
        &&& after.len() == self.graph@.len()
        &&& forall|l: int|
            self.node_level@[node] < l < after.len() ==> #[trigger] after[l] == self.graph@[l]
        &&& exists|starts: Seq<int>, beams: Seq<Seq<(usize, T)>>, lists: Seq<Seq<u32>>|
            #[trigger] self.linked_along(after, node, starts, beams, lists)
    }

    /// Whether `after` is this graph with `node` linked in each of its layers `l` to
    /// `lists[l]`, the nearest nodes that a search along the given path finds.
    pub open spec fn linked_along(
        &self,
        after: Seq<Vec<Vec<u32>>>,
        node: int,
        starts: Seq<int>,
        beams: Seq<Seq<(usize, T)>>,
        lists: Seq<Seq<u32>>,
    ) -> bool {
        &&& self.search_path(node, starts, beams)
        &&& lists.len() == beams.len()
        &&& forall|l: int|
            0 <= l < lists.len() ==> nearest_of(#[trigger] lists[l], beams[l], self.m as nat)
        &&& forall|l: int|
            0 <= l < lists.len() ==> linked_with(
                self.graph@[l]@,
                after[l]@,
                self.centroids@,
                node,
                #[trigger] lists[l],
                self.m as nat,
            )
    }

    /// Links `node` in its layers: with the nearest nodes that a search finds, in both
    /// directions.
    fn insert(&mut self, node: usize)
        requires
            old(self).wf(),
            node < old(self).centroids@.len(),
            old(self).node_level@[node as int] <= old(self).max_level,
        ensures
            final(self).wf(),
            final(self).same_nodes(old(self)),
            old(self).linked(final(self).graph@, node as int),
            degrees_bounded(old(self).graph@, final(self).graph@, final(self).m as nat),
    {
        let level: usize = self.node_level[node];
        let ep: usize = match self.entry_point {
            Some(ep) => ep,
            None => return ,
        };
        let ghost n = self.centroids@.len();
        let ghost this = *self;
        let ghost d = dists(self.centroids@[node as int]@, self.centroids@);
        let ghost mut starts: Seq<int> = Seq::new(
            (self.max_level + 1) as nat,
            |l: int| ep as int,
        );
        let mut curr_ep: usize = ep;
        let mut l: usize = self.max_level;
        while l > level
            invariant
                self.wf(),
                *self == *old(self),
                level <= l <= self.max_level,
                n == self.centroids@.len(),
                node < n,
                curr_ep < n,
                this == *self,
                d == dists(this.centroids@[node as int]@, this.centroids@),
                starts.len() == this.max_level + 1,
                starts[this.max_level as int] == ep,
                starts[l as int] == curr_ep,
                forall|k: int| 0 <= k < starts.len() ==> 0 <= #[trigger] starts[k] < n,
                forall|k: int|
                    l <= k < this.max_level ==> descends_to(
                        this.graph@[k + 1]@,
                        d,
                        starts[k + 1],
                        #[trigger] starts[k],
                    ),
            decreases l,
        {
            assert(layer_wf(self.graph@[l as int]@, n));
            curr_ep =
            greedy_descent_one(&self.centroids, &self.graph[l], &self.centroids[node], curr_ep);
            l = l - 1;
            proof {
                let before = starts;
                starts = starts.update(l as int, curr_ep as int);
                assert forall|k: int| l <= k < this.max_level implies descends_to(
                    this.graph@[k + 1]@,
                    d,
                    starts[k + 1],
                    #[trigger] starts[k],
                ) by {
                    assert(starts[k + 1] == before[k + 1]);
                    if k > l {
                        assert(starts[k] == before[k]);
                    }
                }
            }
        }
        assert(self.graph.len() == self.graph@.len());
        let ghost mut beams: Seq<Seq<(usize, T)>> = Seq::new(
            (level + 1) as nat,
            |l: int| Seq::empty(),
        );
        let ghost mut lists: Seq<Seq<u32>> = Seq::new((level + 1) as nat, |l: int| Seq::empty());
        let mut left: usize = level + 1;
        while left > 0
            invariant
                self.wf(),
                self.same_nodes(old(self)),
                degrees_bounded(old(self).graph@, self.graph@, self.m as nat),
                level <= self.max_level,
                left <= level + 1,
                n == self.centroids@.len(),
                node < n,
                curr_ep < n,
                this == *old(self),
                this.wf(),
                this.node_level@[node as int] == level,
                d == dists(this.centroids@[node as int]@, this.centroids@),
                starts.len() == this.max_level + 1,
                beams.len() == level + 1,
                lists.len() == level + 1,
                starts[this.max_level as int] == ep,
                this.entry_point == Some(ep),
                left > 0 ==> starts[left - 1] == curr_ep,
                forall|k: int| 0 <= k < starts.len() ==> 0 <= #[trigger] starts[k] < n,
                forall|k: int|
                    level <= k < this.max_level ==> descends_to(
                        this.graph@[k + 1]@,
                        d,
                        starts[k + 1],
                        #[trigger] starts[k],
                    ),
                forall|k: int|
                    left <= k <= level ==> beam_result(
                        #[trigger] beams[k],
                        this.graph@[k]@,
                        d,
                        starts[k],
                        this.ef_construction as int,
                    ),
                forall|k: int|
                    left <= k + 1 && 0 <= k < level ==> #[trigger] starts[k] == beams[k + 1][0].0,
                forall|k: int|
                    left <= k <= level ==> nearest_of(#[trigger] lists[k], beams[k], this.m as nat),
                forall|k: int|
                    left <= k <= level ==> linked_with(
                        this.graph@[k]@,
                        self.graph@[k]@,
                        this.centroids@,
                        node as int,
                        #[trigger] lists[k],
                        this.m as nat,
                    ),
                forall|k: int|
                    0 <= k < this.graph@.len() && (k < left || k > level)
                        ==> #[trigger] self.graph@[k] == this.graph@[k],
            decreases left,
        {
            let layer: usize = left - 1;
            assert(layer_wf(self.graph@[layer as int]@, n));
            let candidates = search_layer_vec(
                &self.centroids,
                &self.graph[layer],
                &self.centroids[node],
                curr_ep,
                self.ef_construction,
            );
            assert forall|i: int| 0 <= i < candidates@.len() implies (#[trigger] candidates@[i]).0 < n by {}
            let neighbors = select_neighbors(&candidates, self.m, Ghost(n));
            proof {
                lemma_chosen_differ(neighbors@, candidates@, d, self.m as nat);
            }
            let ghost g0 = self.graph@;
            link_node(&self.centroids, &mut self.graph[layer], node, &neighbors, self.m);
            let ghost nl = layer as int;
            proof {
                assert(forall|k: int|
                    0 <= k < g0.len() && k != nl ==> #[trigger] self.graph@[k] == g0[k]);
                assert forall|k: int| 0 <= k < self.graph@.len() implies layer_wf(
                    (#[trigger] self.graph@[k])@,
                    n,
                ) by {
                    if k != nl {
                        assert(layer_wf(g0[k]@, n));
                    }
                }
                assert(layer_wf(g0[nl]@, n));
                assert forall|k: int, v: int|
                    0 <= k < self.graph@.len() && 0 <= v < self.graph@[k]@.len()
                        && this.graph@[k]@[v]@.len() <= self.m implies #[trigger] self.graph@[k]@[v]@.len()
                    <= self.m by {
                    if k != nl {
                        assert(self.graph@[k]@[v] == g0[k]@[v]);
                    } else {
                        let h = self.graph@[nl]@;
                        assert(h[v]@.len() <= self.m) by {
                            assert(layer_wf(h, n));
                            assert(g0[nl] == this.graph@[nl]);
                            if names(neighbors@, v) {
                                assert(linked_back(
                                    replaced_at(g0[nl]@, node as int, neighbors@, v),
                                    h[v]@,
                                    self.centroids@,
                                    v,
                                    node as int,
                                    self.m as nat,
                                ));
                            } else {
                                assert(h[v]@ == replaced_at(g0[nl]@, node as int, neighbors@, v));
                            }
                        }
                    }
                }
            }
            curr_ep = candidates[0].0;
            left = left - 1;
            proof {
                let starts0 = starts;
                let beams0 = beams;
                let lists0 = lists;
                if left > 0 {
                    starts = starts.update(left - 1, curr_ep as int);
                }
                beams = beams.update(nl, candidates@);
                lists = lists.update(nl, neighbors@);
                assert forall|k: int| level <= k < this.max_level implies descends_to(
                    this.graph@[k + 1]@,
                    d,
                    starts[k + 1],
                    #[trigger] starts[k],
                ) by {
                    assert(starts[k] == starts0[k] && starts[k + 1] == starts0[k + 1]);
                }
                assert forall|k: int| left <= k <= level implies beam_result(
                    #[trigger] beams[k],
                    this.graph@[k]@,
                    d,
                    starts[k],
                    this.ef_construction as int,
                ) by {
                    assert(starts[k] == starts0[k]);
                    if k != nl {
                        assert(beams[k] == beams0[k]);
                    }
                }
                assert forall|k: int| left <= k + 1 && 0 <= k < level implies #[trigger] starts[k]
                    == beams[k + 1][0].0 by {
                    if k + 1 != nl {
                        assert(starts[k] == starts0[k] && beams[k + 1] == beams0[k + 1]);
                    }
                }
                assert forall|k: int| left <= k <= level implies nearest_of(
                    #[trigger] lists[k],
                    beams[k],
                    this.m as nat,
                ) by {
                    if k != nl {
                        assert(lists[k] == lists0[k] && beams[k] == beams0[k]);
                    }
                }
                assert forall|k: int| left <= k <= level implies linked_with(
                    this.graph@[k]@,
                    self.graph@[k]@,
                    this.centroids@,
                    node as int,
                    #[trigger] lists[k],
                    this.m as nat,
                ) by {
                    if k != nl {
                        assert(lists[k] == lists0[k]);
                        assert(self.graph@[k] == g0[k]);
                    } else {
                        assert(g0[nl] == this.graph@[nl]);
                    }
                }
            }
        }
        proof {
            assert(this.search_path(node as int, starts, beams));
            assert(this.linked_along(self.graph@, node as int, starts, beams, lists));
        }
    }
}

/// Whether `h` has every edge of `g`.
pub open spec fn more_edges(g: Seq<Vec<u32>>, h: Seq<Vec<u32>>) -> bool {
    forall|u: int, v: int| #[trigger] edge(g, u, v) ==> edge(h, u, v)
}

proof fn lemma_reaches_more(g: Seq<Vec<u32>>, h: Seq<Vec<u32>>, a: int, b: int)
    requires
        more_edges(g, h),
        reaches(g, a, b),
    ensures
        reaches(h, a, b),
{
    let p = choose|p: Seq<int>| #[trigger] is_path(g, p) && p[0] == a && p.last() == b;
    assert forall|i: int| 0 <= i < p.len() - 1 implies edge(h, #[trigger] p[i], p[i + 1]) by {
        assert(edge(g, p[i], p[i + 1]));
    }
    assert(is_path(h, p));
}

proof fn lemma_reaches_step(g: Seq<Vec<u32>>, a: int, b: int, c: int)
    requires
        reaches(g, a, b),
        edge(g, b, c),
    ensures
        reaches(g, a, c),
{
    let p = choose|p: Seq<int>| #[trigger] is_path(g, p) && p[0] == a && p.last() == b;
    let q = p.push(c);
    assert forall|i: int| 0 <= i < q.len() - 1 implies edge(g, #[trigger] q[i], q[i + 1]) by {
        if i < p.len() - 1 {
            assert(edge(g, p[i], p[i + 1]));
        }
    }
    assert(is_path(g, q));
    assert(q[0] == a && q.last() == c);
}

proof fn lemma_reaches_trans(g: Seq<Vec<u32>>, a: int, b: int, c: int)
    requires
        reaches(g, a, b),
        reaches(g, b, c),
    ensures
        reaches(g, a, c),
{
    let p = choose|p: Seq<int>| #[trigger] is_path(g, p) && p[0] == a && p.last() == b;
    let q = choose|q: Seq<int>| #[trigger] is_path(g, q) && q[0] == b && q.last() == c;
    let r = p + q.skip(1);
    assert forall|i: int| 0 <= i < r.len() - 1 implies edge(g, #[trigger] r[i], r[i + 1]) by {
        if i < p.len() - 1 {
            assert(edge(g, p[i], p[i + 1]));
        } else {
            let k = i - (p.len() - 1);
            assert(r[i] == q[k]);
            assert(edge(g, q[k], q[k + 1]));
        }
    }
    assert(is_path(g, r));
    assert(r[0] == a);
    assert(r.last() == c);
}

/// Marks that include the start of a path and follow edges include its nodes.
proof fn lemma_marks_follow(g: Seq<Vec<u32>>, marks: Seq<bool>, p: Seq<int>, k: int)
    requires
        marks.len() == g.len(),
        is_path(g, p),
        0 <= k < p.len(),
        0 <= p[0] < g.len() && marks[p[0]],
        forall|u: int, v: int|
            #[trigger] edge(g, u, v) && marks[u] ==> 0 <= v < g.len() && marks[v],
    ensures
        0 <= p[k] < g.len() && marks[p[k]],
    decreases k,
{
    if k > 0 {
        lemma_marks_follow(g, marks, p, k - 1);
        assert(edge(g, p[k - 1], p[k - 1 + 1]));
    }
}

/// Marks that include the end of a path and follow edges backwards include its nodes.
proof fn lemma_marks_lead(g: Seq<Vec<u32>>, marks: Seq<bool>, p: Seq<int>, k: int)
    requires
        marks.len() == g.len(),
        is_path(g, p),
        0 <= k < p.len(),
        0 <= p.last() < g.len() && marks[p.last()],
        forall|u: int, v: int|
            #[trigger] edge(g, u, v) && 0 <= v < g.len() && marks[v] ==> marks[u],
    ensures
        0 <= p[k] < g.len() && marks[p[k]],
    decreases p.len() - k,
{
    if k < p.len() - 1 {
        lemma_marks_lead(g, marks, p, k + 1);
        assert(edge(g, p[k], p[k + 1]));
    }
}

proof fn lemma_reaches_self(g: Seq<Vec<u32>>, a: int)
    ensures
        reaches(g, a, a),
{
    let p = seq![a];
    assert(is_path(g, p));
    assert(p[0] == a && p.last() == a);
}

/// Adds an edge.
fn add_edge(layer: &mut Vec<Vec<u32>>, from: usize, to: usize, Ghost(n): Ghost<nat>)
    requires
        layer_wf(old(layer)@, n),
        from < n,
        to < n <= u32::MAX,
    ensures
        layer_wf(final(layer)@, n),
        lists_of(final(layer)@) == with_edge(lists_of(old(layer)@), from as int, to as int),
        more_edges(old(layer)@, final(layer)@),
        edge(final(layer)@, from as int, to as int),
{
    let ghost g = layer@;
    layer[from].push(to as u32);
    let ghost h = layer@;
    assert(h[from as int]@ =~= g[from as int]@.push(to as u32));
    assert(forall|u: int| 0 <= u < n && u != from ==> #[trigger] h[u] == g[u]);
    assert forall|u: int, v: int| #[trigger] edge(g, u, v) implies edge(h, u, v) by {
        let i = choose|i: int| 0 <= i < g[u]@.len() && #[trigger] g[u]@[i] == v;
        assert(h[u]@[i] == v);
    }
    assert(h[from as int]@[g[from as int]@.len() as int] == to);
    assert(lists_of(h) =~= with_edge(lists_of(g), from as int, to as int));
    assert forall|u: int, i: int| 0 <= u < n && 0 <= i < h[u]@.len() implies (
    #[trigger] h[u]@[i]) < n by {
        if u != from {
            assert(g[u]@[i] < n);
        } else if i < g[u]@.len() {
            assert(g[u]@[i] < n);
        }
    }
}

/// For each node whether it can be reached from `ep`.
pub open spec fn marks_from(g: Seq<Vec<u32>>, ep: int) -> Seq<bool> {
    Seq::new(g.len(), |v: int| reaches(g, ep, v))
}

/// For each node whether `ep` can be reached from it.
pub open spec fn marks_to(g: Seq<Vec<u32>>, ep: int) -> Seq<bool> {
    Seq::new(g.len(), |v: int| reaches(g, v, ep))
}

/// Whether a stack holds the node.
pub open spec fn on(stack: Seq<usize>, v: int) -> bool {
    exists|i: int| 0 <= i < stack.len() && #[trigger] stack[i] == v
}

/// Marks the nodes that can be reached from `ep`, by depth-first search.
fn reachable_from(layer: &Vec<Vec<u32>>, ep: usize) -> (r: Vec<bool>)
    requires
        layer_wf(layer@, layer@.len()),
        ep < layer@.len(),
    ensures
        r@ == marks_from(layer@, ep as int),
{
    let n: usize = layer.len();
    let ghost g = layer@;
    let mut reachable: Vec<bool> = filled(n, false);
    let mut stack: Vec<usize> = Vec::new();
    stack.push(ep);
    reachable[ep] = true;
    proof {
        lemma_reaches_self(g, ep as int);
        assert(stack@[0] == ep);
        assert(on(stack@, ep as int));
    }
    while stack.len() > 0
        invariant
            n == layer@.len(),
            g == layer@,
            layer_wf(g, n as nat),
            ep < n,
            reachable@.len() == n,
            reachable@[ep as int],
            forall|v: int| 0 <= v < n && #[trigger] reachable@[v] ==> reaches(g, ep as int, v),
            forall|i: int| 0 <= i < stack@.len() ==> (#[trigger] stack@[i]) < n
                && reachable@[stack@[i] as int],
            forall|w: int, v: int|
                #[trigger] edge(g, w, v) && reachable@[w] ==> (0 <= v < n && reachable@[v]) || on(
                    stack@,
                    w,
                ),
        decreases unmarked(reachable@), stack@.len(),
    {
        let ghost before = stack@;
        let ghost marks0 = reachable@;
        let u: usize = stack.pop().unwrap();
        assert(before[before.len() - 1] == u);
        assert forall|w: int, v: int| #[trigger] edge(g, w, v) && reachable@[w] && w != u implies (0
            <= v < n && reachable@[v]) || on(stack@, w) by {
            if on(before, w) {
                let i = choose|i: int| 0 <= i < before.len() && #[trigger] before[i] == w;
                assert(stack@[i] == w);
            }
        }
        let ghost stack1 = stack@;
        let nbrs = &layer[u];
        for i in 0..nbrs.len()
            invariant
                n == layer@.len(),
                g == layer@,
                layer_wf(g, n as nat),
                u < n,
                nbrs@ == g[u as int]@,
                reachable@.len() == n,
                reachable@[ep as int],
                ep < n,
                reaches(g, ep as int, u as int),
                forall|v: int| 0 <= v < n && #[trigger] reachable@[v] ==> reaches(g, ep as int, v),
                forall|j: int| 0 <= j < stack@.len() ==> (#[trigger] stack@[j]) < n
                    && reachable@[stack@[j] as int],
                forall|w: int, v: int|
                    #[trigger] edge(g, w, v) && reachable@[w] && w != u ==> (0 <= v < n
                        && reachable@[v]) || on(stack@, w),
                forall|j: int| 0 <= j < i ==> reachable@[(#[trigger] nbrs@[j]) as int],
                unmarked(reachable@) < unmarked(marks0) || (reachable@ == marks0 && stack@ == stack1),
        {
            let v: usize = nbrs[i] as usize;
            assert(g[u as int]@[i as int] < n);
            if !reachable[v] {
                proof {
                    lemma_mark(reachable@, v as int);
                    assert(edge(g, u as int, v as int));
                    lemma_reaches_step(g, ep as int, u as int, v as int);
                }
                let ghost marks1 = reachable@;
                let ghost stack2 = stack@;
                reachable[v] = true;
                stack.push(v);
                assert forall|w: int, x: int|
                    #[trigger] edge(g, w, x) && reachable@[w] && w != u implies (0 <= x < n
                    && reachable@[x]) || on(stack@, w) by {
                    if w == v {
                        assert(stack@[stack@.len() - 1] == w);
                    } else {
                        assert(marks1[w]);
                        if on(stack2, w) {
                            let k = choose|k: int| 0 <= k < stack2.len() && #[trigger] stack2[k] == w;
                            assert(stack@[k] == w);
                        }
                    }
                }
            }
        }
        assert forall|w: int, v: int| #[trigger] edge(g, w, v) && reachable@[w] implies (0 <= v < n
            && reachable@[v]) || on(stack@, w) by {
            if w == u {
                let i = choose|i: int| 0 <= i < g[w]@.len() && #[trigger] g[w]@[i] == v;
                assert(nbrs@[i] == v);
            }
        }
    }
    proof {
        assert forall|v: int| 0 <= v < n implies reachable@[v] == #[trigger] reaches(
            g,
            ep as int,
            v,
        ) by {
            if reaches(g, ep as int, v) {
                let p = choose|p: Seq<int>|
                    #[trigger] is_path(g, p) && p[0] == ep && p.last() == v;
                assert forall|a: int, b: int| #[trigger] edge(g, a, b) && reachable@[a] implies 0
                    <= b < g.len() && reachable@[b] by {
                    assert(!on(stack@, a));
                }
                lemma_marks_follow(g, reachable@, p, p.len() - 1);
            }
        }
        assert(reachable@ =~= marks_from(g, ep as int));
    }
    reachable
}

/// Marks the nodes from which `ep` can be reached: again and again those with a marked
/// neighbour, until there are no more.
fn leading_to(layer: &Vec<Vec<u32>>, ep: usize) -> (r: Vec<bool>)
    requires
        layer_wf(layer@, layer@.len()),
        ep < layer@.len(),
    ensures
        r@ == marks_to(layer@, ep as int),
{
    let n: usize = layer.len();
    let ghost g = layer@;
    let mut marks: Vec<bool> = filled(n, false);
    marks[ep] = true;
    let mut changed: bool = true;
    proof {
        lemma_reaches_self(g, ep as int);
    }
    while changed
        invariant
            n == layer@.len(),
            g == layer@,
            layer_wf(g, n as nat),
            ep < n,
            marks@.len() == n,
            marks@[ep as int],
            forall|v: int| 0 <= v < n && #[trigger] marks@[v] ==> reaches(g, v, ep as int),
            !changed ==> forall|u: int, v: int|
                #[trigger] edge(g, u, v) && 0 <= v < n && marks@[v] ==> marks@[u],
        decreases
                unmarked(marks@),
                if changed {
                    1int
                } else {
                    0int
                },
    {
        changed = false;
        let ghost marks0 = marks@;
        for u in 0..n
            invariant
                n == layer@.len(),
                g == layer@,
                layer_wf(g, n as nat),
                ep < n,
                marks@.len() == n,
                marks@[ep as int],
                forall|v: int| 0 <= v < n && #[trigger] marks@[v] ==> reaches(g, v, ep as int),
                changed ==> unmarked(marks@) < unmarked(marks0),
                !changed ==> marks@ == marks0,
                !changed ==> forall|w: int, v: int|
                    w < u && #[trigger] edge(g, w, v) && 0 <= v < n && marks@[v] ==> marks@[w],
        {
            if !marks[u] {
                let nbrs = &layer[u];
                let mut found: bool = false;
                for i in 0..nbrs.len()
                    invariant
                        g == layer@,
                        layer_wf(g, n as nat),
                        u < n,
                        marks@.len() == n,
                        nbrs@ == g[u as int]@,
                        found ==> exists|v: int|
                            0 <= v < n && #[trigger] edge(g, u as int, v) && marks@[v],
                        !found ==> forall|j: int|
                            0 <= j < i ==> !marks@[(#[trigger] nbrs@[j]) as int],
                {
                    let v: usize = nbrs[i] as usize;
                    assert(g[u as int]@[i as int] < n);
                    if marks[v] {
                        assert(edge(g, u as int, v as int));
                        found = true;
                    }
                }
                if found {
                    proof {
                        let v = choose|v: int|
                            0 <= v < n && #[trigger] edge(g, u as int, v) && marks@[v];
                        lemma_reaches_self(g, u as int);
                        lemma_reaches_step(g, u as int, u as int, v);
                        lemma_reaches_trans(g, u as int, v, ep as int);
                        lemma_mark(marks@, u as int);
                    }
                    marks[u] = true;
                    changed = true;
                } else {
                    assert forall|w: int, v: int|
                        !changed && w < u + 1 && #[trigger] edge(g, w, v) && 0 <= v < n
                            && marks@[v] implies marks@[w] by {
                        if w == u {
                            let i = choose|i: int| 0 <= i < g[w]@.len() && #[trigger] g[w]@[i] == v;
                            assert(nbrs@[i] == v);
                        }
                    }
                }
            }
        }
    }
    proof {
        assert forall|v: int| 0 <= v < n implies marks@[v] == #[trigger] reaches(
            g,
            v,
            ep as int,
        ) by {
            if reaches(g, v, ep as int) {
                let p = choose|p: Seq<int>|
                    #[trigger] is_path(g, p) && p[0] == v && p.last() == ep;
                lemma_marks_lead(g, marks@, p, 0);
            }
        }
        assert(marks@ =~= marks_to(g, ep as int));
    }
    marks
}

/// The neighbours of each node.
pub open spec fn lists_of(g: Seq<Vec<u32>>) -> Seq<Seq<u32>> {
    g.map_values(|l: Vec<u32>| l@)
}

/// The neighbour lists with an edge from `u` to `v` more.
pub open spec fn with_edge(g: Seq<Seq<u32>>, u: int, v: int) -> Seq<Seq<u32>> {
    g.update(u, g[u].push(v as u32))
}

/// The nearest marked node among the first `n`, the first one where several are nearest;
/// below zero if none is marked.
pub open spec fn nearest_marked<T: Scalar>(d: Seq<T>, marks: Seq<bool>, n: nat) -> int
    decreases n,
{
    if n == 0 {
        -1
    } else {
        let b = nearest_marked(d, marks, (n - 1) as nat);
        if marks[n - 1] && (b < 0 || d[n - 1].below_spec(d[b])) {
            n - 1
        } else {
            b
        }
    }
}

/// The neighbour lists and the marks after each of the first `n` nodes that was not marked
/// has been joined to the nearest marked one, in both directions, and marked.
pub open spec fn joined_upto<T: Scalar>(
    g: Seq<Seq<u32>>,
    centroids: Seq<Vec<T>>,
    marks: Seq<bool>,
    n: nat,
) -> (Seq<Seq<u32>>, Seq<bool>)
    decreases n,
{
    if n == 0 {
        (g, marks)
    } else {
        let (h, m) = joined_upto(g, centroids, marks, (n - 1) as nat);
        let u = n - 1;
        if m[u] {
            (h, m)
        } else {
            let b = nearest_marked(dists(centroids[u]@, centroids), m, centroids.len());
            (with_edge(with_edge(h, u, b), b, u), m.update(u, true))
        }
    }
}

/// The neighbour lists after each node that is not marked has been joined to the nearest
/// marked one, in both directions.
pub open spec fn joined<T: Scalar>(
    g: Seq<Seq<u32>>,
    centroids: Seq<Vec<T>>,
    marks: Seq<bool>,
) -> Seq<Seq<u32>> {
    joined_upto(g, centroids, marks, centroids.len()).0
}

/// Whether paths lead from some marked node to `v` and back.
pub open spec fn hangs_on(g: Seq<Vec<u32>>, marks: Seq<bool>, v: int) -> bool {
    exists|b: int|
        0 <= b < marks.len() && #[trigger] marks[b] && reaches(g, b, v) && reaches(g, v, b)
}

/// Joins every node that is not marked to the nearest one that is, and marks it.
fn join_unmarked<T: Scalar>(
    centroids: &Vec<Vec<T>>,
    layer: &mut Vec<Vec<u32>>,
    marks: Vec<bool>,
    ep: usize,
)
    requires
        layer_wf(old(layer)@, centroids@.len()),
        centroids@.len() <= u32::MAX,
        marks@.len() == centroids@.len(),
        ep < centroids@.len(),
        marks@[ep as int],
    ensures
        layer_wf(final(layer)@, centroids@.len()),
        lists_of(final(layer)@) == joined(lists_of(old(layer)@), centroids@, marks@),
        more_edges(old(layer)@, final(layer)@),
        forall|v: int|
            0 <= v < centroids@.len() ==> #[trigger] hangs_on(final(layer)@, marks@, v),
{
    let n: usize = centroids.len();
    let ghost g = layer@;
    let ghost marks0 = marks@;
    let mut marks = marks;
    proof {
        assert forall|v: int| 0 <= v < n && #[trigger] marks@[v] implies hangs_on(g, marks0, v) by {
            lemma_reaches_self(g, v);
            assert(marks0[v]);
        }
    }
    for u in 0..n
        invariant
            n == centroids@.len(),
            n <= u32::MAX,
            layer_wf(layer@, n as nat),
            ep < n,
            marks@.len() == n,
            marks0.len() == n,
            marks@[ep as int],
            (lists_of(layer@), marks@) == joined_upto(lists_of(g), centroids@, marks0, u as nat),
            more_edges(g, layer@),
            forall|v: int| 0 <= v < n && #[trigger] marks@[v] ==> hangs_on(layer@, marks0, v),
            forall|v: int| 0 <= v < u ==> #[trigger] marks@[v],
    {
        if !marks[u] {
            let ghost d = dists(centroids@[u as int]@, centroids@);
            let mut best: usize = 0;
            let mut best_d = T::zero();
            let mut found: bool = false;
            for r in 0..n
                invariant
                    n == centroids@.len(),
                    u < n,
                    marks@.len() == n,
                    d == dists(centroids@[u as int]@, centroids@),
                    found <==> nearest_marked(d, marks@, r as nat) >= 0,
                    found ==> best == nearest_marked(d, marks@, r as nat) && best < n
                        && marks@[best as int] && best_d == d[best as int],
                    forall|v: int| 0 <= v < r && #[trigger] marks@[v] ==> found,
            {
                if marks[r] {
                    let dr = dist_vec(&centroids[u], &centroids[r]);
                    assert(dr == d[r as int]);
                    if !found || dr.below(best_d) {
                        best = r;
                        best_d = dr;
                        found = true;
                    }
                }
            }
            assert(found) by {
                assert(marks@[ep as int]);
            }
            let ghost g1 = layer@;
            let ghost m1 = marks@;
            add_edge(layer, u, best, Ghost(n as nat));
            let ghost g2 = layer@;
            add_edge(layer, best, u, Ghost(n as nat));
            let ghost g3 = layer@;
            marks[u] = true;
            proof {
                assert(more_edges(g1, g3));
                assert(edge(g3, u as int, best as int));
                let b = best as int;
                let w = u as int;
                assert(hangs_on(g1, marks0, b));
                assert forall|v: int| 0 <= v < n && #[trigger] marks@[v] implies hangs_on(
                    g3,
                    marks0,
                    v,
                ) by {
                    if v != w {
                        assert(m1[v]);
                        let a = choose|a: int|
                            0 <= a < marks0.len() && #[trigger] marks0[a] && reaches(g1, a, v)
                                && reaches(g1, v, a);
                        lemma_reaches_more(g1, g3, a, v);
                        lemma_reaches_more(g1, g3, v, a);
                    } else {
                        let a = choose|a: int|
                            0 <= a < marks0.len() && #[trigger] marks0[a] && reaches(g1, a, b)
                                && reaches(g1, b, a);
                        lemma_reaches_more(g1, g3, a, b);
                        lemma_reaches_more(g1, g3, b, a);
                        lemma_reaches_step(g3, a, b, w);
                        lemma_reaches_self(g3, w);
                        lemma_reaches_step(g3, w, w, b);
                        lemma_reaches_trans(g3, w, b, a);
                    }
                }
                assert(lists_of(g2) =~= with_edge(lists_of(g1), w, b));
                assert(lists_of(g3) =~= with_edge(lists_of(g2), b, w));
            }
        }
    }
    assert forall|v: int| 0 <= v < n implies #[trigger] hangs_on(layer@, marks0, v) by {
        assert(marks@[v]);
    }
}

/// Whether layer `h` is layer `g` made connected: first each node that cannot be reached from
/// `ep` has been joined to the nearest one that can, then each node from which `ep` cannot be
/// reached to the nearest one from which it can.
pub open spec fn made_connected<T: Scalar>(
    g: Seq<Vec<u32>>,
    h: Seq<Vec<u32>>,
    centroids: Seq<Vec<T>>,
    ep: int,
) -> bool {
    exists|mid: Seq<Vec<u32>>|
        #[trigger] lists_of(mid) == joined(lists_of(g), centroids, marks_from(g, ep))
            && lists_of(h) == joined(lists_of(mid), centroids, marks_to(mid, ep))
}

impl<T: Scalar> HnswIndex<T> {
    /// Makes the base layer connected, so that every node can be reached from every node: see
    /// [`made_connected`].
    fn ensure_connected_layer0(&mut self)
        requires
            old(self).wf(),
        ensures
            final(self).wf(),
            final(self).same_nodes(old(self)),
            forall|l: int|
                1 <= l < final(self).graph@.len() ==> #[trigger] final(self).graph@[l] == old(
                    self,
                ).graph@[l],
            old(self).entry_point is None ==> final(self).graph == old(self).graph,
            old(self).entry_point matches Some(ep) ==> made_connected(
                old(self).graph@[0]@,
                final(self).graph@[0]@,
                old(self).centroids@,
                ep as int,
            ),
            final(self).connected(),
    {
        let n: usize = self.centroids.len();
        let ep: usize = match self.entry_point {
            Some(ep) => ep,
            None => return ,
        };
        let ghost g0 = self.graph@;
        let ghost base = g0[0]@;
        assert(layer_wf(base, n as nat));
        let from = reachable_from(&self.graph[0], ep);
        proof {
            lemma_reaches_self(base, ep as int);
        }
        join_unmarked(&self.centroids, &mut self.graph[0], from, ep);
        let ghost mid = self.graph@[0]@;
        assert(layer_wf(mid, n as nat));
        let to = leading_to(&self.graph[0], ep);
        proof {
            lemma_reaches_self(mid, ep as int);
        }
        join_unmarked(&self.centroids, &mut self.graph[0], to, ep);
        proof {
            let h = self.graph@[0]@;
            assert(forall|l: int| 1 <= l < g0.len() ==> #[trigger] self.graph@[l] == g0[l]);
            assert forall|l: int| 0 <= l < self.graph@.len() implies layer_wf(
                (#[trigger] self.graph@[l])@,
                n as nat,
            ) by {
                if l > 0 {
                    assert(layer_wf(g0[l]@, n as nat));
                }
            }
            assert(lists_of(mid) == joined(
                lists_of(base),
                self.centroids@,
                marks_from(base, ep as int),
            ));
            assert forall|a: int, b: int| 0 <= a < n && 0 <= b < n implies reaches(h, a, b) by {
                assert(hangs_on(h, marks_to(mid, ep as int), a));
                let x = choose|x: int|
                    0 <= x < n && #[trigger] marks_to(mid, ep as int)[x] && reaches(h, x, a)
                        && reaches(h, a, x);
                lemma_reaches_more(mid, h, x, ep as int);
                lemma_reaches_trans(h, a, x, ep as int);
                assert(hangs_on(mid, marks_from(base, ep as int), b));
                let y = choose|y: int|
                    0 <= y < n && #[trigger] marks_from(base, ep as int)[y] && reaches(mid, y, b)
                        && reaches(mid, b, y);
                lemma_reaches_more(base, mid, ep as int, y);
                lemma_reaches_more(mid, h, ep as int, y);
                lemma_reaches_more(mid, h, y, b);
                lemma_reaches_trans(h, ep as int, y, b);
                lemma_reaches_trans(h, a, ep as int, b);
            }
            assert forall|a: int| 0 <= a < h.len() implies #[trigger] reaches_all(h, a) by {
                assert forall|b: int| 0 <= b < h.len() implies #[trigger] reaches(h, a, b) by {}
            }
        }
    }

    /// Whether in the base layer every node can be reached from every node.
    pub open spec fn connected(&self) -> bool {
        forall|s: int|
            0 <= s < self.centroids@.len() ==> #[trigger] reaches_all(self.graph@[0]@, s)
    }

    /// Whether this is the index right before node `k` is linked: over the experts'
    /// centroids, with the layers of the nodes up to `k`, and with the edges of the graph
    /// `before`. Layers above those of `before` have no edges.
    pub open spec fn awaits(
        &self,
        experts: Seq<MicroExpert<T>>,
        levels: Seq<usize>,
        before: Seq<Vec<Vec<u32>>>,
        k: int,
    ) -> bool {
        &&& self.centroids@.len() == experts.len()
        &&& forall|i: int|
            0 <= i < experts.len() ==> (#[trigger] self.centroids@[i])@ == experts[i].centroid@
        &&& self.node_level@ == Seq::new(
            experts.len(),
            |i: int|
                if 1 <= i <= k {
                    levels[i]
                } else {
                    0
                },
        )
        &&& self.entry_point is Some
        &&& self.enters_at_top()
        &&& self.graph@.len() == if levels[k] < before.len() {
            before.len() as int
        } else {
            levels[k] + 1
        }
        &&& forall|l: int| 0 <= l < before.len() ==> #[trigger] self.graph@[l] == before[l]
        &&& forall|l: int|
            before.len() <= l < self.graph@.len() ==> no_edges(
                (#[trigger] self.graph@[l])@,
                experts.len(),
            )
    }

    /// Whether the graph has been built by linking the nodes 1, 2 and so on, each in the graph
    /// that the nodes before it have left, and by making the base layer connected: `waiting[k]`
    /// is the index right before node `k` is linked, and `graphs[k]` the graph behind that.
    pub open spec fn built_along(
        &self,
        experts: Seq<MicroExpert<T>>,
        levels: Seq<usize>,
        waiting: Seq<HnswIndex<T>>,
        graphs: Seq<Seq<Vec<Vec<u32>>>>,
    ) -> bool {
        let n = experts.len();
        &&& waiting.len() == n
        &&& graphs.len() == n
        &&& graphs[0].len() == 1
        &&& no_edges(graphs[0][0]@, n)
        &&& forall|k: int|
            1 <= k < n ==> {
                &&& (#[trigger] waiting[k]).awaits(experts, levels, graphs[k - 1], k)
                &&& waiting[k].m == self.m
                &&& waiting[k].ef_construction == self.ef_construction
                &&& waiting[k].linked(graphs[k], k)
            }
        &&& self.graph@.len() == graphs[n - 1].len()
        &&& forall|l: int| 1 <= l < self.graph@.len() ==> #[trigger] self.graph@[l] == graphs[n - 1][l]
        &&& self.entry_point matches Some(ep) && made_connected(
            graphs[n - 1][0]@,
            self.graph@[0]@,
            self.centroids@,
            ep as int,
        )
    }

    /// Whether the graph has been built over the experts, where `levels` gives the highest
    /// layers of the nodes: node by node, and connected in the end.
    pub open spec fn built_with(&self, experts: Seq<MicroExpert<T>>, levels: Seq<usize>) -> bool {
        if experts.len() == 0 {
            self.graph@.len() == 1 && no_edges(self.graph@[0]@, 0)
        } else {
            exists|waiting: Seq<HnswIndex<T>>, graphs: Seq<Seq<Vec<Vec<u32>>>>|
                #[trigger] self.built_along(experts, levels, waiting, graphs)
        }
    }

    /// Builds the graph over the experts' centroids. `levels` gives the highest layer
    /// of each node; that of node 0 is the base layer in any case.
    pub fn with_levels(
        experts: &[MicroExpert<T>],
        levels: &[usize],
        m: usize,
        ef_construction: usize,
        ef_search: usize,
    ) -> (r: Self)
        requires
            experts@.len() <= u32::MAX,
            experts@.len() <= levels@.len(),
            forall|i: int| 0 <= i < levels@.len() ==> (#[trigger] levels@[i]) < usize::MAX,
        ensures
            r.wf(),
            r.centroids@.len() == experts@.len(),
            forall|i: int|
                0 <= i < experts@.len() ==> (#[trigger] r.centroids@[i])@ == experts@[i].centroid@,
            r.m == if m < 2 {
                2
            } else {
                m
            },
            r.ef_construction == ef_construction,
            r.ef_search == ef_search,
            forall|i: int| 1 <= i < experts@.len() ==> #[trigger] r.node_level@[i] == levels@[i],
            experts@.len() > 0 ==> r.node_level@[0] == 0,
            r.enters_at_top(),
            r.built_with(experts@, levels@),
            r.connected(),
    {
        let n: usize = experts.len();
        let mut centroids: Vec<Vec<T>> = Vec::with_capacity(n);
        for i in 0..n
            invariant
                n == experts@.len(),
                centroids@.len() == i,
                forall|j: int|
                    0 <= j < i ==> (#[trigger] centroids@[j])@ == experts@[j].centroid@,
        {
            centroids.push(copy_all(&experts[i].centroid));
        }
        let mut base: Vec<Vec<Vec<u32>>> = Vec::new();
        base.push(empty_layer(n));
        let mut idx = HnswIndex {
            centroids,
            graph: base,
            node_level: filled(n, 0usize),
            entry_point: if n > 0 {
                Some(0)
            } else {
                None
            },
            max_level: 0,
            m: if m < 2 {
                2
            } else {
                m
            },
            ef_construction,
            ef_search,
        };
        let mut node: usize = 1;
        let ghost mut waiting: Seq<HnswIndex<T>> = seq![idx];
        let ghost mut graphs: Seq<Seq<Vec<Vec<u32>>>> = seq![idx.graph@];
        while node < n
            invariant
                n == 0 ==> node == 1,
                waiting.len() == node,
                graphs.len() == node,
                graphs[node - 1] == idx.graph@,
                graphs[0].len() == 1,
                no_edges(graphs[0][0]@, n as nat),
                forall|i: int|
                    0 <= i < n ==> (#[trigger] idx.centroids@[i])@ == experts@[i].centroid@,
                forall|k: int|
                    1 <= k < node ==> {
                        &&& (#[trigger] waiting[k]).awaits(experts@, levels@, graphs[k - 1], k)
                        &&& waiting[k].m == idx.m
                        &&& waiting[k].ef_construction == idx.ef_construction
                        &&& waiting[k].linked(graphs[k], k)
                    },
                n == experts@.len(),
                n <= levels@.len(),
                1 <= node,
                n > 0 ==> node <= n,
                idx.wf(),
                idx.centroids == centroids,
                centroids@.len() == n,
                idx.m == if m < 2 {
                    2
                } else {
                    m
                },
                idx.ef_construction == ef_construction,
                idx.ef_search == ef_search,
                forall|i: int| 0 <= i < levels@.len() ==> (#[trigger] levels@[i]) < usize::MAX,
                n > 0 ==> idx.node_level@[0] == 0,
                forall|i: int| 1 <= i < node && i < n ==> #[trigger] idx.node_level@[i] == levels@[i],
                forall|i: int| node <= i < n ==> #[trigger] idx.node_level@[i] == 0,
                idx.entry_point matches Some(ep) ==> ep < node && idx.node_level@[ep as int]
                    == idx.max_level,
                forall|i: int| 0 <= i < n ==> #[trigger] idx.node_level@[i] <= idx.max_level,
                idx.entry_point matches Some(ep) ==> forall|i: int|
                    0 <= i < ep ==> #[trigger] idx.node_level@[i] < idx.max_level,
            decreases n - node,
        {
            let level: usize = levels[node];
            let ghost before = idx.graph@;
            assert(levels@[node as int] < usize::MAX);
            idx.node_level[node] = level;
            grow(&mut idx.graph, level, n);
            if level > idx.max_level {
                idx.max_level = level;
                idx.entry_point = Some(node);
            }
            let ghost ready = idx;
            assert(ready.node_level@ =~= Seq::new(
                n as nat,
                |i: int|
                    if 1 <= i <= node {
                        levels@[i]
                    } else {
                        0
                    },
            ));
            assert forall|l: int| 0 <= l < before.len() implies #[trigger] ready.graph@[l]
                == before[l] by {
                assert(ready.graph@.take(before.len() as int)[l] == before[l]);
            }
            idx.insert(node);
            proof {
                let waiting0 = waiting;
                let graphs0 = graphs;
                waiting = waiting.push(ready);
                graphs = graphs.push(idx.graph@);
                assert(ready.awaits(experts@, levels@, before, node as int));
                assert forall|k: int| 1 <= k < node + 1 implies {
                    &&& (#[trigger] waiting[k]).awaits(experts@, levels@, graphs[k - 1], k)
                    &&& waiting[k].m == idx.m
                    &&& waiting[k].ef_construction == idx.ef_construction
                    &&& waiting[k].linked(graphs[k], k)
                } by {
                    assert(graphs[k - 1] == graphs0[k - 1]);
                    if k < node {
                        assert(waiting[k] == waiting0[k] && graphs[k] == graphs0[k]);
                    }
                }
            }
            node = node + 1;
        }
        idx.ensure_connected_layer0();
        proof {
            if n > 0 {
                assert(idx.built_along(experts@, levels@, waiting, graphs));
            }
        }
        idx
    }

    /// Builds the graph over the experts' centroids, with randomly drawn layers.
    pub fn new(
        experts: &[MicroExpert<T>],
        m: usize,
        ef_construction: usize,
        ef_search: usize,
    ) -> (r: Self)
        requires
            experts@.len() <= u32::MAX,
        ensures
            r.wf(),
            r.built_over(experts@),
            r.m == at_least_two(m as nat),
            r.ef_construction == ef_construction,
            r.ef_search == ef_search,
    {
        let kept: usize = if m < 2 {
            2
        } else {
            m
        };
        let levels = draw_levels::<T>(experts.len(), kept);
        HnswIndex::with_levels(experts, &levels, m, ef_construction, ef_search)
    }

    /// Whether the nodes are the experts' centroids with the drawn layers, searches enter
    /// at the first of the nodes with the highest layer, the nodes have been linked one after
    /// the other, and every node of the base layer can be reached from every node.
    pub open spec fn built_over(&self, experts: Seq<MicroExpert<T>>) -> bool {
        &&& self.centroids@.len() == experts.len()
        &&& forall|i: int|
            0 <= i < experts.len() ==> (#[trigger] self.centroids@[i])@ == experts[i].centroid@
        &&& experts.len() > 0 ==> self.node_level@[0] == 0
        &&& forall|i: int|
            1 <= i < experts.len() ==> #[trigger] self.node_level@[i] == drawn_level::<T>(
                self.m as nat,
                i,
            )
        &&& self.enters_at_top()
        &&& self.built_with(experts, drawn_levels::<T>(self.m as nat, experts.len()))
        &&& self.connected()
    }

    /// Whether searches enter at the first of the nodes with the highest layer.
    pub open spec fn enters_at_top(&self) -> bool {
        self.entry_point matches Some(ep) ==> {
            &&& self.node_level@[ep as int] == self.max_level
            &&& forall|i: int|
                0 <= i < self.node_level@.len() ==> #[trigger] self.node_level@[i] <= self.max_level
            &&& forall|i: int| 0 <= i < ep ==> #[trigger] self.node_level@[i] < self.max_level
        }
    }

    /// The number of nodes.
    pub fn num_experts(&self) -> (n: usize)
        ensures
            n == self.centroids@.len(),
    {
        self.centroids.len()
    }
}

/// The least number of neighbours is two.
pub open spec fn at_least_two(m: nat) -> nat {
    if m < 2 {
        2
    } else {
        m
    }
}

/// The seed that the layers of the nodes are drawn with.
pub const LEVEL_SEED: u64 = 0xA5A5_0123_4567_89AB;

/// The layer that a random number in `[0, 1)` gives: its negated logarithm, scaled by one
/// over the logarithm of the number of neighbours, rounded down. Numbers below a
/// hundred-millionth count as that. The largest machine integer, which would leave no number
/// for the layers, gives the layer below.
pub open spec fn level_of<T: Scalar>(u: T, m: nat) -> usize {
    let least = one::<T>().over_spec(T::spec_count(100000000));
    let safe = if least.at_most_spec(u) {
        u
    } else {
        least
    };
    let level = safe.ln_spec().negated_spec().times_spec(
        one::<T>().over_spec(T::spec_count(m as usize).ln_spec()),
    ).floored_spec();
    if level == usize::MAX {
        (usize::MAX - 1) as usize
    } else {
        level
    }
}

/// The highest layer of node `i`, counted from 1.
pub open spec fn drawn_level<T: Scalar>(m: nat, i: int) -> usize {
    level_of(unit_interval::<T>(state_after(seed_state(LEVEL_SEED), i as nat)), m)
}

/// The highest layers of `n` nodes. That of node 0 is the base layer.
pub open spec fn drawn_levels<T: Scalar>(m: nat, n: nat) -> Seq<usize> {
    Seq::new(
        n,
        |i: int|
            if i == 0 {
                0
            } else {
                drawn_level::<T>(m, i)
            },
    )
}

/// Draws the highest layer of a node.
fn draw_level<T: Scalar>(rng: &mut Lcg, m: usize) -> (r: usize)
    ensures
        final(rng).state == next_state(old(rng).state),
        r == level_of(unit_interval::<T>(next_state(old(rng).state)), m as nat),
        r < usize::MAX,
{
    let one = T::from_count(1);
    let least = one.over(T::from_count(100000000));
    let u: T = rng.next_f32();
    let safe = if least.at_most(u) {
        u
    } else {
        least
    };
    let level: usize = safe.ln().negated().times(one.over(T::from_count(m).ln())).floored();
    if level == usize::MAX {
        usize::MAX - 1
    } else {
        level
    }
}

/// Draws the highest layer of each node. That of node 0 is the base layer.
fn draw_levels<T: Scalar>(n: usize, m: usize) -> (r: Vec<usize>)
    ensures
        r@ == drawn_levels::<T>(m as nat, n as nat),
        forall|i: int| 0 <= i < n ==> (#[trigger] r@[i]) < usize::MAX,
{
    let mut rng = Lcg::new(LEVEL_SEED);
    let mut out: Vec<usize> = Vec::with_capacity(n);
    for i in 0..n
        invariant
            out@.len() == i,
            i == 0 ==> rng.state == seed_state(LEVEL_SEED),
            i > 0 ==> rng.state == state_after(seed_state(LEVEL_SEED), (i - 1) as nat),
            forall|k: int|
                0 <= k < i ==> #[trigger] out@[k] == drawn_levels::<T>(m as nat, n as nat)[k],
            forall|k: int| 0 <= k < i ==> (#[trigger] out@[k]) < usize::MAX,
    {
        if i == 0 {
            out.push(0);
        } else {
            let level: usize = draw_level::<T>(&mut rng, m);
            assert(level == drawn_level::<T>(m as nat, i as int));
            out.push(level);
        }
    }
    assert(out@ =~= drawn_levels::<T>(m as nat, n as nat));
    out
}

/// Whether a layer has `n` nodes and no edges.
pub open spec fn no_edges(g: Seq<Vec<u32>>, n: nat) -> bool {
    g.len() == n && forall|u: int| 0 <= u < n ==> (#[trigger] g[u])@.len() == 0
}

/// Adds layers without edges until there is a layer `level`.
fn grow(graph: &mut Vec<Vec<Vec<u32>>>, level: usize, n: usize)
    requires
        level < usize::MAX,
        layers_wf(old(graph)@, n as nat),
    ensures
        layers_wf(final(graph)@, n as nat),
        final(graph)@.len() == if level < old(graph)@.len() {
            old(graph)@.len() as int
        } else {
            level + 1
        },
        forall|l: int|
            old(graph)@.len() <= l < final(graph)@.len() ==> no_edges(
                (#[trigger] final(graph)@[l])@,
                n as nat,
            ),
        final(graph)@.take(old(graph)@.len() as int) == old(graph)@,
{
    let ghost start = graph@;
    assert(graph@.take(start.len() as int) =~= start);
    while graph.len() <= level
        invariant
            level < usize::MAX,
            layers_wf(graph@, n as nat),
            graph@.len() >= start.len(),
            graph@.len() > start.len() ==> graph@.len() <= level + 1,
            forall|l: int|
                start.len() <= l < graph@.len() ==> no_edges((#[trigger] graph@[l])@, n as nat),
            graph@.take(start.len() as int) == start,
        decreases level + 1 - graph@.len(),
    {
        let ghost before = graph@;
        let fresh = empty_layer(n);
        graph.push(fresh);
        assert forall|l: int| 0 <= l < graph@.len() implies layer_wf(
            (#[trigger] graph@[l])@,
            n as nat,
        ) by {
            if l < before.len() {
                assert(layer_wf(before[l]@, n as nat));
            }
        }
        assert(graph@.take(start.len() as int) =~= before.take(start.len() as int));
    }
}

/// A layer without edges.
fn empty_layer(n: usize) -> (r: Vec<Vec<u32>>)
    ensures
        layer_wf(r@, n as nat),
        no_edges(r@, n as nat),
{
    let mut out: Vec<Vec<u32>> = Vec::with_capacity(n);
    for i in 0..n
        invariant
            out@.len() == i,
            forall|u: int| 0 <= u < i ==> (#[trigger] out@[u])@.len() == 0,
    {
        out.push(Vec::new());
    }
    out
}

proof fn lemma_path_listed<T: Scalar>(
    s: Seq<(usize, T)>,
    g: Seq<Vec<u32>>,
    d: Seq<T>,
    p: Seq<int>,
    ef: int,
    k: int,
)
    requires
        is_path(g, p),
        beam_found(s, g, d, p[0], ef),
        ef >= d.len(),
        0 <= k < p.len(),
    ensures
        has_node(s, p[k]),
    decreases k,
{
    if k > 0 {
        lemma_path_listed(s, g, d, p, ef, k - 1);
        let i = choose|i: int| 0 <= i < s.len() && (#[trigger] s[i]).0 == p[k - 1];
        assert(edge(g, p[k - 1], p[k - 1 + 1]));
        assert(edge(g, s[i].0 as int, p[k]));
    }
}

/// A beam with room for every node finds every node that can be reached from where it
/// starts; and so, if all can be reached, it finds all.
pub proof fn law_wide_beam_finds_all<T: Scalar>(
    s: Seq<(usize, T)>,
    g: Seq<Vec<u32>>,
    d: Seq<T>,
    ep: int,
    ef: int,
)
    requires
        beam_found(s, g, d, ep, ef),
        ef >= d.len(),
        g.len() == d.len(),
    ensures
        forall|v: int| #[trigger] reaches(g, ep, v) ==> has_node(s, v),
        reaches_all(g, ep) ==> s.len() == d.len(),
{
    assert forall|v: int| #[trigger] reaches(g, ep, v) implies has_node(s, v) by {
        let p = choose|p: Seq<int>| #[trigger] is_path(g, p) && p[0] == ep && p.last() == v;
        lemma_path_listed(s, g, d, p, ef, p.len() - 1);
    }
    if reaches_all(g, ep) {
        lemma_list_size(s, d);
        let nums = nodes_of(s).map_values(|v: usize| v as int);
        let all = vstd::set_lib::set_int_range(0, d.len() as int);
        vstd::set_lib::lemma_int_range(0, d.len() as int);
        assert forall|i: int, j: int| 0 <= i < nums.len() && 0 <= j < nums.len() && i != j implies nums[i]
            != nums[j] by {
            assert(nodes_of(s)[i] != nodes_of(s)[j]);
        }
        nums.unique_seq_to_set();
        assert(all.subset_of(nums.to_set())) by {
            assert forall|v: int| all.contains(v) implies nums.to_set().contains(v) by {
                assert(reaches(g, ep, v));
                let i = choose|i: int| 0 <= i < s.len() && (#[trigger] s[i]).0 == v;
                assert(nums[i] == v);
            }
        }
        vstd::set_lib::lemma_len_subset(all, nums.to_set());
    }
}

/// The scores that the distances stand for.
pub open spec fn scores_of<T: Scalar>(d: Seq<T>) -> Seq<T> {
    d.map_values(|x: T| x.negated_spec())
}

/// Whether a hit is for the expert.
pub open spec fn has_hit<T>(r: Seq<Hit<T>>, v: int) -> bool {
    exists|i: int| 0 <= i < r.len() && (#[trigger] r[i]).expert_id == v
}

/// Whether `r` holds the best `k` of the nodes in the list, or all if there are fewer:
/// each once and with its score, best first, and no node that is left out has a higher
/// score than one of them.
pub open spec fn best_of_list<T: Scalar>(
    r: Seq<Hit<T>>,
    list: Seq<(usize, T)>,
    scores: Seq<T>,
    k: nat,
) -> bool {
    &&& r.len() == if k < list.len() {
        k
    } else {
        list.len()
    }
    &&& forall|i: int, j: int|
        0 <= i < j < r.len() ==> (#[trigger] r[i]).expert_id != (#[trigger] r[j]).expert_id
    &&& forall|i: int|
        0 <= i < r.len() ==> has_node(list, (#[trigger] r[i]).expert_id as int) && r[i].score
            == scores[r[i].expert_id as int]
    &&& comparable(scores) ==> forall|i: int, j: int|
        0 <= i < j < r.len() ==> !(#[trigger] r[i]).score.below_spec((#[trigger] r[j]).score)
    &&& comparable(scores) ==> forall|v: int, i: int|
        #[trigger] has_node(list, v) && !has_hit(r, v) && 0 <= i < r.len() ==> !(
        #[trigger] r[i]).score.below_spec(scores[v])
}

/// Whether `r` holds the best `k` of all nodes, or all if there are fewer, up to the
/// order of nodes with equal scores.
pub open spec fn best_of_all<T: Scalar>(r: Seq<Hit<T>>, scores: Seq<T>, k: nat) -> bool {
    &&& r.len() == if k < scores.len() {
        k
    } else {
        scores.len()
    }
    &&& forall|i: int, j: int|
        0 <= i < j < r.len() ==> (#[trigger] r[i]).expert_id != (#[trigger] r[j]).expert_id
    &&& forall|i: int|
        0 <= i < r.len() ==> (#[trigger] r[i]).expert_id < scores.len() && r[i].score
            == scores[r[i].expert_id as int]
    &&& comparable(scores) ==> forall|i: int, j: int|
        0 <= i < j < r.len() ==> !(#[trigger] r[i]).score.below_spec((#[trigger] r[j]).score)
    &&& comparable(scores) ==> forall|v: int, i: int|
        0 <= v < scores.len() && !#[trigger] has_hit(r, v) && 0 <= i < r.len() ==> !(
        #[trigger] r[i]).score.below_spec(scores[v])
}

/// The width of the beam of a query for `k` nodes.
pub open spec fn beam_width<T>(idx: HnswIndex<T>, k: nat) -> int {
    if idx.ef_search < k {
        k as int
    } else {
        idx.ef_search as int
    }
}

/// Whether `r` has the first `k` nodes of a list with their scores, or all if there are fewer,
/// best first; nodes with equal scores keep their order.
pub open spec fn hits_of<T: Scalar>(r: Seq<Hit<T>>, list: Seq<(usize, T)>, k: nat) -> bool {
    let scores = list.map_values(|c: (usize, T)| c.1.negated_spec());
    &&& r.len() == if k < list.len() {
        k
    } else {
        list.len()
    }
    &&& exists|order: Seq<usize>|
        #[trigger] lists_range(order, 0, list.len() as int) && (forall|i: int|
            0 <= i < r.len() ==> (#[trigger] r[i]).expert_id == list[order[i] as int].0
                && r[i].score == scores[order[i] as int]) && (comparable(scores) ==> in_order(
            scores,
            order,
            true,
        ))
}

/// Whether a query for `x` goes through the layers like this, top down: it enters layer `l` at
/// `starts[l]` and above the base layer moves to the first nearer neighbour until there is
/// none. In the base layer `beam` is what the beam search finds, and `r` has the best of it.
pub open spec fn answers_along<T: Scalar>(
    idx: HnswIndex<T>,
    x: Seq<T>,
    k: nat,
    r: Seq<Hit<T>>,
    starts: Seq<int>,
    beam: Seq<(usize, T)>,
) -> bool {
    let d = dists(x, idx.centroids@);
    let ef = beam_width(idx, k);
    &&& starts.len() == idx.max_level + 1
    &&& idx.entry_point == Some(starts[idx.max_level as int] as usize)
    &&& forall|l: int| 0 <= l < starts.len() ==> 0 <= #[trigger] starts[l] < d.len()
    &&& forall|l: int|
        0 <= l < idx.max_level ==> walks_to(
            idx.graph@[l + 1]@,
            d,
            starts[l + 1],
            #[trigger] starts[l],
        )
    &&& beam_result(beam, idx.graph@[0]@, d, starts[0], ef)
    &&& beam_found(beam, idx.graph@[0]@, d, starts[0], ef)
    &&& hits_of(r, beam, k)
    &&& best_of_list(r, beam, scores_of(d), k)
}

/// Whether `r` is the answer to a query: the best of what a beam search in the base layer
/// finds from where the descent through the layers above ends.
pub open spec fn answers_query<T: Scalar>(
    idx: HnswIndex<T>,
    x: Seq<T>,
    k: nat,
    r: Seq<Hit<T>>,
) -> bool {
    exists|starts: Seq<int>, beam: Seq<(usize, T)>|
        #[trigger] answers_along(idx, x, k, r, starts, beam)
}

/// The best `k` nodes of a list, best first.
fn best_hits<T: Scalar>(cands: &Vec<(usize, T)>, k: usize, Ghost(d): Ghost<Seq<T>>) -> (r: Vec<Hit<T>>)
    requires
        listed(cands@, d),
    ensures
        hits_of(r@, cands@, k as nat),
        best_of_list(r@, cands@, scores_of(d), k as nat),
{
    let ghost list = cands@;
    let ghost sc = scores_of(d);
    let mut keys: Vec<T> = Vec::with_capacity(cands.len());
    for i in 0..cands.len()
        invariant
            list == cands@,
            sc == scores_of(d),
            listed(list, d),
            keys@.len() == i,
            forall|j: int| 0 <= j < i ==> #[trigger] keys@[j] == list[j].1.negated_spec(),
            forall|j: int| 0 <= j < i ==> #[trigger] keys@[j] == sc[list[j].0 as int],
    {
        keys.push(cands[i].1.negated());
    }
    assert(keys@ =~= list.map_values(|c: (usize, T)| c.1.negated_spec()));
    let order = sorted_order(&keys, true);
    let take: usize = if k < order.len() {
        k
    } else {
        order.len()
    };
    let mut out: Vec<Hit<T>> = Vec::with_capacity(take);
    for i in 0..take
        invariant
            list == cands@,
            listed(list, d),
            keys@.len() == list.len(),
            take <= order@.len(),
            lists_range(order@, 0, list.len() as int),
            out@.len() == i,
            forall|j: int|
                0 <= j < i ==> (#[trigger] out@[j]).expert_id == list[order@[j] as int].0
                    && out@[j].score == keys@[order@[j] as int],
    {
        let at: usize = order[i];
        out.push(Hit { expert_id: cands[at].0, score: keys[at] });
    }
    proof {
        assert forall|i: int, j: int| 0 <= i < j < out@.len() implies (
        #[trigger] out@[i]).expert_id != (#[trigger] out@[j]).expert_id by {
            assert(order@[i] != order@[j]);
            assert(nodes_of(list)[order@[i] as int] != nodes_of(list)[order@[j] as int]);
        }
        assert forall|i: int| 0 <= i < out@.len() implies has_node(
            list,
            (#[trigger] out@[i]).expert_id as int,
        ) && out@[i].score == sc[out@[i].expert_id as int] by {
            assert(list[order@[i] as int].0 == out@[i].expert_id);
            assert(keys@[order@[i] as int] == sc[list[order@[i] as int].0 as int]);
        }
        if comparable(sc) {
            lemma_keys_comparable(keys@, sc, list, d);
            assert forall|a: int, b: int| 0 <= a < b < order@.len() implies !keys@[(
            #[trigger] order@[a]) as int].below_spec(keys@[(#[trigger] order@[b]) as int]) by {
                let p = order@[a] as int;
                let q = order@[b] as int;
                assert(item_before(keys@, p, q, true));
                if keys@[p].below_spec(keys@[q]) && keys@[q].below_spec(keys@[p]) {
                    keys@[p].below_transitive(keys@[q], keys@[p]);
                    keys@[p].below_irreflexive();
                }
            }
            assert forall|v: int, i: int|
                #[trigger] has_node(list, v) && !has_hit(out@, v) && 0 <= i < out@.len() implies !(
            #[trigger] out@[i]).score.below_spec(sc[v]) by {
                let t = choose|t: int| 0 <= t < list.len() && (#[trigger] list[t]).0 == v;
                lemma_listed(order@, list.len(), t);
                let b = choose|b: int| 0 <= b < list.len() && #[trigger] order@[b] == t;
                if b < out@.len() {
                    assert(out@[b].expert_id == v);
                }
                assert(keys@[t] == sc[v]);
                assert(i < b);
                assert(!keys@[order@[i] as int].below_spec(keys@[order@[b] as int]));
            }
            assert forall|i: int, j: int| 0 <= i < j < out@.len() implies !(
            #[trigger] out@[i]).score.below_spec((#[trigger] out@[j]).score) by {
                assert(!keys@[order@[i] as int].below_spec(keys@[order@[j] as int]));
            }
        }
    }
    out
}

proof fn lemma_keys_comparable<T: Scalar>(
    keys: Seq<T>,
    sc: Seq<T>,
    list: Seq<(usize, T)>,
    d: Seq<T>,
)
    requires
        comparable(sc),
        listed(list, d),
        sc.len() == d.len(),
        keys.len() == list.len(),
        forall|j: int| 0 <= j < list.len() ==> #[trigger] keys[j] == sc[list[j].0 as int],
    ensures
        comparable(keys),
{
    assert forall|i: int, j: int, k: int|
        0 <= i < keys.len() && 0 <= j < keys.len() && 0 <= k < keys.len()
            && #[trigger] keys[i].below_spec(keys[j]) implies keys[i].below_spec(#[trigger] keys[k])
        || keys[k].below_spec(keys[j]) by {
        lemma_comparable3(sc, list[i].0 as int, list[j].0 as int, list[k].0 as int);
    }
    assert forall|j: int, k: int|
        0 <= j < keys.len() && 0 <= k < keys.len() && T::spec_lowest().below_spec(
            #[trigger] keys[j],
        ) implies T::spec_lowest().below_spec(#[trigger] keys[k]) || keys[k].below_spec(keys[j]) by {
        assert(keys[j] == sc[list[j].0 as int]);
        assert(keys[k] == sc[list[k].0 as int]);
    }
}

impl<T: Scalar> HnswIndex<T> {
    /// The best `k` experts that the search finds, best first.
    pub fn query(&self, x: &[T], k: usize) -> (r: Vec<Hit<T>>)
        requires
            self.wf(),
        ensures
            self.centroids@.len() == 0 ==> r@.len() == 0,
            self.centroids@.len() > 0 ==> answers_query(*self, x@, k as nat, r@),
    {
        let ep: usize = match self.entry_point {
            Some(ep) => ep,
            None => return Vec::new(),
        };
        let ghost n = self.centroids@.len();
        let ghost d = dists(x@, self.centroids@);
        let ghost mut starts: Seq<int> = Seq::new(
            (self.max_level + 1) as nat,
            |l: int| ep as int,
        );
        let mut curr: usize = ep;
        let mut l: usize = self.max_level;
        while l > 0
            invariant
                self.wf(),
                n == self.centroids@.len(),
                d == dists(x@, self.centroids@),
                l <= self.max_level,
                curr < n,
                starts.len() == self.max_level + 1,
                starts[self.max_level as int] == ep,
                starts[l as int] == curr,
                forall|k: int| 0 <= k < starts.len() ==> 0 <= #[trigger] starts[k] < n,
                forall|k: int|
                    l <= k < self.max_level ==> walks_to(
                        self.graph@[k + 1]@,
                        d,
                        starts[k + 1],
                        #[trigger] starts[k],
                    ),
            decreases l,
        {
            assert(layer_wf(self.graph@[l as int]@, n));
            curr = descend_first(&self.centroids, &self.graph[l], x, curr);
            l = l - 1;
            proof {
                let before = starts;
                starts = starts.update(l as int, curr as int);
                assert forall|k: int| l <= k < self.max_level implies walks_to(
                    self.graph@[k + 1]@,
                    d,
                    starts[k + 1],
                    #[trigger] starts[k],
                ) by {
                    assert(starts[k + 1] == before[k + 1]);
                    if k > l {
                        assert(starts[k] == before[k]);
                    }
                }
            }
        }
        let ef: usize = if self.ef_search < k {
            k
        } else {
            self.ef_search
        };
        assert(layer_wf(self.graph@[0]@, n));
        let cands = search_layer_vec(&self.centroids, &self.graph[0], x, curr, ef);
        let hits = best_hits(&cands, k, Ghost(d));
        assert(answers_along(*self, x@, k as nat, hits@, starts, cands@));
        hits
    }
}

/// A connected index that is asked for as many experts as it has, or with a beam of that
/// width, answers as exact search does, up to the order of equal scores.
pub proof fn law_query_recall<T: Scalar>(
    idx: HnswIndex<T>,
    x: Seq<T>,
    k: nat,
    r: Seq<Hit<T>>,
)
    requires
        idx.wf(),
        answers_query(idx, x, k, r),
        k >= idx.centroids@.len() || idx.ef_search >= idx.centroids@.len(),
        idx.connected(),
    ensures
        best_of_all(r, scores_of(dists(x, idx.centroids@)), k),
{
    let d = dists(x, idx.centroids@);
    let g = idx.graph@[0]@;
    let sc = scores_of(d);
    let ef = beam_width(idx, k);
    let (starts, beam) = choose|starts: Seq<int>, beam: Seq<(usize, T)>|
        #[trigger] answers_along(idx, x, k, r, starts, beam);
    let start = starts[0];
    assert(layer_wf(g, d.len()));
    law_wide_beam_finds_all(beam, g, d, start, ef);
    assert(reaches_all(g, start));
    assert forall|i: int| 0 <= i < r.len() implies (#[trigger] r[i]).expert_id < sc.len() by {
        assert(has_node(beam, r[i].expert_id as int));
    }
    if comparable(sc) {
        assert forall|v: int, i: int|
            0 <= v < sc.len() && !#[trigger] has_hit(r, v) && 0 <= i < r.len() implies !(
        #[trigger] r[i]).score.below_spec(sc[v]) by {
            assert(reaches(g, start, v));
            assert(has_node(beam, v));
        }
    }
}

/// An index built over experts that is asked for all of them, or with a beam of that width,
/// answers as exact search does, up to the order of equal scores, if changing the sign of a
/// score twice gives it back.
pub proof fn law_built_index_recall<T: Scalar>(
    idx: HnswIndex<T>,
    experts: Seq<MicroExpert<T>>,
    x: Seq<T>,
    k: nat,
    r: Seq<Hit<T>>,
)
    requires
        idx.wf(),
        idx.built_over(experts),
        answers_query(idx, x, k, r),
        k >= experts.len() || idx.ef_search >= experts.len(),
        forall|i: int|
            0 <= i < experts.len() ==> (#[trigger] scores(
                experts,
                x,
            )[i]).negated_spec().negated_spec() == scores(experts, x)[i],
    ensures
        best_of_all(r, scores(experts, x), k),
{
    law_query_recall(idx, x, k, r);
    assert forall|i: int| 0 <= i < experts.len() implies scores_of(dists(x, idx.centroids@))[i]
        == scores(experts, x)[i] by {
        assert(idx.centroids@[i]@ == experts[i].centroid@);
    }
    assert(scores_of(dists(x, idx.centroids@)) =~= scores(experts, x));
}

/// Whether this is the index for a layer with the given experts: eight neighbours for each
/// node, a beam of 32 while building, and in queries a beam with room for all of them.
pub open spec fn indexes_layer<T: Scalar>(idx: HnswIndex<T>, experts: Seq<MicroExpert<T>>) -> bool {
    &&& idx.wf()
    &&& idx.built_over(experts)
    &&& idx.m == 8
    &&& idx.ef_construction == 32
    &&& idx.ef_search == if experts.len() < 16 {
        16
    } else {
        experts.len() as int
    }
}

/// An index over a layer's experts, wide enough that layers are searched in full.
pub fn build_hnsw_for_layer<T: Scalar>(sl: &SparseLayer<T>) -> (r: HnswIndex<T>)
    requires
        sl.experts@.len() <= u32::MAX,
    ensures
        indexes_layer(r, sl.experts@),
{
    let ef: usize = if sl.experts.len() < 16 {
        16
    } else {
        sl.experts.len()
    };
    HnswIndex::new(&sl.experts, 8, 32, ef)
}

} // verus!
