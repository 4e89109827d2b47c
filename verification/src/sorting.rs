//! Stable sorting by a numeric key.

use vstd::prelude::*;
use crate::scalar::{comparable, Scalar};

verus! {

/// Whether key `a` comes strictly before key `b`.
pub open spec fn key_before<T: Scalar>(a: T, b: T, descending: bool) -> bool {
    if descending {
        b.below_spec(a)
    } else {
        a.below_spec(b)
    }
}

/// Whether item `i` comes before item `j`: by its key, and by its place where
/// neither key comes before the other.
pub open spec fn item_before<T: Scalar>(keys: Seq<T>, i: int, j: int, descending: bool) -> bool {
    key_before(keys[i], keys[j], descending) || (!key_before(keys[j], keys[i], descending) && i < j)
}

/// Whether `order` lists each of the numbers from `from` up to `to` once.
pub open spec fn lists_range(order: Seq<usize>, from: int, to: int) -> bool {
    &&& order.len() == to - from
    &&& order.no_duplicates()
    &&& forall|i: int| 0 <= i < order.len() ==> from <= #[trigger] order[i] < to
}

/// Whether `order` lists its items so that each comes before all later ones.
pub open spec fn in_order<T: Scalar>(keys: Seq<T>, order: Seq<usize>, descending: bool) -> bool {
    forall|i: int, j: int|
        0 <= i < j < order.len() ==> item_before(
            keys,
            #[trigger] order[i] as int,
            #[trigger] order[j] as int,
            descending,
        )
}

proof fn lemma_before_transitive<T: Scalar>(
    keys: Seq<T>,
    i: int,
    j: int,
    k: int,
    descending: bool,
)
    requires
        comparable(keys),
        0 <= i < keys.len(),
        0 <= j < keys.len(),
        0 <= k < keys.len(),
        item_before(keys, i, j, descending),
        item_before(keys, j, k, descending),
    ensures
        item_before(keys, i, k, descending),
{
    let a = keys[i];
    let b = keys[j];
    let c = keys[k];
    a.below_irreflexive();
    b.below_irreflexive();
    c.below_irreflexive();
    if descending {
        if b.below_spec(a) {
            assert(b.below_spec(c) || c.below_spec(a));
        }
        if c.below_spec(b) {
            assert(c.below_spec(a) || a.below_spec(b));
        }
        if a.below_spec(c) {
            assert(a.below_spec(b) || b.below_spec(c));
        }
        if a.below_spec(c) && c.below_spec(a) {
            a.below_transitive(c, a);
        }
        if b.below_spec(a) && a.below_spec(b) {
            a.below_transitive(b, a);
        }
        if b.below_spec(c) && c.below_spec(b) {
            b.below_transitive(c, b);
        }
    } else {
        if a.below_spec(b) {
            assert(a.below_spec(c) || c.below_spec(b));
        }
        if b.below_spec(c) {
            assert(b.below_spec(a) || a.below_spec(c));
        }
        if c.below_spec(a) {
            assert(c.below_spec(b) || b.below_spec(a));
        }
        if a.below_spec(c) && c.below_spec(a) {
            a.below_transitive(c, a);
        }
        if b.below_spec(a) && a.below_spec(b) {
            a.below_transitive(b, a);
        }
        if b.below_spec(c) && c.below_spec(b) {
            b.below_transitive(c, b);
        }
    }
}

fn comes_before<T: Scalar>(a: T, b: T, descending: bool) -> (r: bool)
    ensures
        r == key_before(a, b, descending),
{
    if descending {
        b.below(a)
    } else {
        a.below(b)
    }
}

/// Merges two sorted runs of adjacent ranges.
fn merge<T: Scalar>(
    keys: &[T],
    left: &Vec<usize>,
    right: &Vec<usize>,
    from: usize,
    mid: usize,
    to: usize,
    descending: bool,
) -> (r: Vec<usize>)
    requires
        from <= mid <= to <= keys@.len(),
        lists_range(left@, from as int, mid as int),
        lists_range(right@, mid as int, to as int),
        comparable(keys@) ==> in_order(keys@, left@, descending),
        comparable(keys@) ==> in_order(keys@, right@, descending),
    ensures
        lists_range(r@, from as int, to as int),
        comparable(keys@) ==> in_order(keys@, r@, descending),
{
    let mut out: Vec<usize> = Vec::with_capacity(left.len() + right.len());
    let mut i: usize = 0;
    let mut j: usize = 0;
    while i < left.len() || j < right.len()
        invariant
            from <= mid <= to <= keys@.len(),
            lists_range(left@, from as int, mid as int),
            lists_range(right@, mid as int, to as int),
            comparable(keys@) ==> in_order(keys@, left@, descending),
            comparable(keys@) ==> in_order(keys@, right@, descending),
            i <= left@.len(),
            j <= right@.len(),
            out@.len() == i + j,
            out@.no_duplicates(),
            forall|k: int| 0 <= k < out@.len() ==> from <= #[trigger] out@[k] < to,
            forall|k: int, l: int|
                0 <= k < out@.len() && i <= l < left@.len() ==> #[trigger] out@[k]
                    != #[trigger] left@[l],
            forall|k: int, l: int|
                0 <= k < out@.len() && j <= l < right@.len() ==> #[trigger] out@[k]
                    != #[trigger] right@[l],
            comparable(keys@) ==> in_order(keys@, out@, descending),
            comparable(keys@) ==> forall|k: int, l: int|
                0 <= k < out@.len() && i <= l < left@.len() ==> item_before(
                    keys@,
                    #[trigger] out@[k] as int,
                    #[trigger] left@[l] as int,
                    descending,
                ),
            comparable(keys@) ==> forall|k: int, l: int|
                0 <= k < out@.len() && j <= l < right@.len() ==> item_before(
                    keys@,
                    #[trigger] out@[k] as int,
                    #[trigger] right@[l] as int,
                    descending,
                ),
        decreases left@.len() - i + right@.len() - j,
    {
        let ghost before = out@;
        let take_left: bool = if i >= left.len() {
            false
        } else if j >= right.len() {
            true
        } else {
            !comes_before(keys[right[j]], keys[left[i]], descending)
        };
        if take_left {
            let x: usize = left[i];
            out.push(x);
            proof {
                if comparable(keys@) {
                    assert forall|l: int| i < l < left@.len() implies item_before(
                        keys@,
                        x as int,
                        #[trigger] left@[l] as int,
                        descending,
                    ) by {
                        assert(left@[i as int] == x);
                    }
                    assert forall|l: int| j <= l < right@.len() implies item_before(
                        keys@,
                        x as int,
                        #[trigger] right@[l] as int,
                        descending,
                    ) by {
                        let y = right@[j as int] as int;
                        assert(item_before(keys@, x as int, y, descending));
                        if l > j {
                            assert(item_before(keys@, y, right@[l] as int, descending));
                            lemma_before_transitive(keys@, x as int, y, right@[l] as int, descending);
                        }
                    }
                }
            }
            i = i + 1;
        } else {
            let x: usize = right[j];
            out.push(x);
            proof {
                if comparable(keys@) {
                    assert forall|l: int| j < l < right@.len() implies item_before(
                        keys@,
                        x as int,
                        #[trigger] right@[l] as int,
                        descending,
                    ) by {
                        assert(right@[j as int] == x);
                    }
                    assert forall|l: int| i <= l < left@.len() implies item_before(
                        keys@,
                        x as int,
                        #[trigger] left@[l] as int,
                        descending,
                    ) by {
                        let y = left@[i as int] as int;
                        assert(item_before(keys@, x as int, y, descending));
                        if l > i {
                            assert(item_before(keys@, y, left@[l] as int, descending));
                            lemma_before_transitive(keys@, x as int, y, left@[l] as int, descending);
                        }
                    }
                }
            }
            j = j + 1;
        }
        assert(out@.drop_last() =~= before);
    }
    out
}

fn sort_range<T: Scalar>(keys: &[T], from: usize, to: usize, descending: bool) -> (r: Vec<usize>)
    requires
        from <= to <= keys@.len(),
    ensures
        lists_range(r@, from as int, to as int),
        comparable(keys@) ==> in_order(keys@, r@, descending),
    decreases to - from,
{
    if to - from <= 1 {
        let mut out: Vec<usize> = Vec::new();
        if to > from {
            out.push(from);
        }
        return out;
    }
    let mid: usize = from + (to - from) / 2;
    let left = sort_range(keys, from, mid, descending);
    let right = sort_range(keys, mid, to, descending);
    merge(keys, &left, &right, from, mid, to, descending)
}

/// The places of the keys in sorted order. The sort is stable: of two keys that
/// count as equal, the one at the lower place comes first. Where the keys are not
/// comparable, every place is still listed once.
pub fn sorted_order<T: Scalar>(keys: &[T], descending: bool) -> (r: Vec<usize>)
    ensures
        lists_range(r@, 0, keys@.len() as int),
        comparable(keys@) ==> in_order(keys@, r@, descending),
{
    sort_range(keys, 0, keys.len(), descending)
}

/// There is only one sorted order.
pub proof fn law_sorted_order_unique<T: Scalar>(
    keys: Seq<T>,
    p: Seq<usize>,
    q: Seq<usize>,
    descending: bool,
)
    requires
        comparable(keys),
        lists_range(p, 0, keys.len() as int),
        lists_range(q, 0, keys.len() as int),
        in_order(keys, p, descending),
        in_order(keys, q, descending),
    ensures
        p == q,
{
    lemma_same_prefix(keys, p, q, descending, keys.len());
    assert(p =~= q);
}

/// Every number of the range stands somewhere in a list of the range.
pub proof fn lemma_listed(order: Seq<usize>, n: nat, x: int)
    requires
        lists_range(order, 0, n as int),
        0 <= x < n,
    ensures
        exists|i: int| 0 <= i < n && #[trigger] order[i] == x,
{
    let all = vstd::set_lib::set_int_range(0, n as int);
    let nums = order.map_values(|v: usize| v as int);
    vstd::set_lib::lemma_int_range(0, n as int);
    assert forall|i: int, j: int| 0 <= i < nums.len() && 0 <= j < nums.len() && i != j implies nums[i]
        != nums[j] by {
        assert(order[i] != order[j]);
    }
    nums.unique_seq_to_set();
    assert(nums.to_set().subset_of(all)) by {
        assert forall|v: int| nums.to_set().contains(v) implies all.contains(v) by {
            let i = choose|i: int| 0 <= i < nums.len() && nums[i] == v;
            assert(order[i] as int == v);
        }
    }
    vstd::set_lib::lemma_subset_equality(nums.to_set(), all);
    assert(nums.to_set().contains(x));
    let i = choose|i: int| 0 <= i < nums.len() && nums[i] == x;
    assert(order[i] == x);
}

proof fn lemma_same_prefix<T: Scalar>(
    keys: Seq<T>,
    p: Seq<usize>,
    q: Seq<usize>,
    descending: bool,
    n: nat,
)
    requires
        comparable(keys),
        lists_range(p, 0, keys.len() as int),
        lists_range(q, 0, keys.len() as int),
        in_order(keys, p, descending),
        in_order(keys, q, descending),
        n <= keys.len(),
    ensures
        forall|i: int| 0 <= i < n ==> p[i] == q[i],
    decreases n,
{
    if n > 0 {
        lemma_same_prefix(keys, p, q, descending, (n - 1) as nat);
        let k = n - 1;
        if p[k] != q[k] {
            assert(p[k] < keys.len() && q[k] < keys.len());
            lemma_listed(q, keys.len(), p[k] as int);
            lemma_listed(p, keys.len(), q[k] as int);
            let i = choose|i: int| 0 <= i < keys.len() && #[trigger] q[i] == p[k];
            let j = choose|j: int| 0 <= j < keys.len() && #[trigger] p[j] == q[k];
            assert(i > k) by {
                if i < k {
                    assert(p[i] == q[i]);
                }
            }
            assert(j > k) by {
                if j < k {
                    assert(p[j] == q[j]);
                }
            }
            assert(item_before(keys, q[k] as int, q[i] as int, descending));
            assert(item_before(keys, p[k] as int, p[j] as int, descending));
            lemma_before_transitive(keys, p[k] as int, q[k] as int, p[k] as int, descending);
            keys[p[k] as int].below_irreflexive();
        }
    }
}

} // verus!
