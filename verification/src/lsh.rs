//! Locality-sensitive hashing with random hyperplanes: a vector is hashed to one bit per
//! hyperplane, which says on which side of it the vector lies.

use vstd::prelude::*;
use vstd::arithmetic::power2::{
    lemma2_to64, lemma_pow2_pos, lemma_pow2_strictly_increases, lemma_pow2_unfold, pow2,
};
use rand::rngs::StdRng;
use crate::generator::{fill, seeded, seeded_state, words_from};
use crate::pq::row_seqs;
use crate::scalar::{dot, dot_spec, Scalar};
use crate::sparse::power_of_two;
use crate::tensor::{filled, lemma_cell_index, row_of};
use crate::transformer::{one, row_at, two};

verus! {

/// The first `n` words that a generator seeded with `seed` gives.
pub open spec fn seeded_words(seed: u64, n: nat) -> Seq<u32> {
    words_from(n, seeded_state(seed)).0
}

/// The number in `[0, 1)` that the upper 24 bits of a word give.
pub open spec fn unit_of<T: Scalar>(word: u32) -> T {
    T::spec_count((word / 256) as usize).over_spec(T::spec_count(16777216))
}

/// The number in `[-1, 1)` that a word gives.
pub open spec fn signed_unit_of<T: Scalar>(word: u32) -> T {
    unit_of::<T>(word).times_spec(two()).minus_spec(one())
}

/// The sum of the numbers that four words give, from place `at`.
pub open spec fn four_sum<T: Scalar>(words: Seq<u32>, at: int) -> T {
    T::spec_zero().plus_spec(signed_unit_of(words[at])).plus_spec(
        signed_unit_of(words[at + 1]),
    ).plus_spec(signed_unit_of(words[at + 2])).plus_spec(signed_unit_of(words[at + 3]))
}

/// The hyperplanes that a list of words gives, four words for each number.
pub open spec fn planes_from<T: Scalar>(words: Seq<u32>, dim: nat, num_bits: nat) -> Seq<Seq<T>> {
    Seq::new(
        num_bits,
        |j: int| Seq::new(dim, |c: int| four_sum(words, (j * dim + c) * 4)),
    )
}

/// The hyperplanes that a seed gives.
pub open spec fn planes_spec<T: Scalar>(dim: nat, num_bits: nat, seed: u64) -> Seq<Seq<T>> {
    planes_from(seeded_words(seed, num_bits * dim * 4), dim, num_bits)
}

/// The number whose bits say on which side of the first `n` hyperplanes `v` lies.
pub open spec fn hash_upto<T: Scalar>(planes: Seq<Seq<T>>, v: Seq<T>, n: nat) -> nat
    decreases n,
{
    if n == 0 {
        0
    } else {
        hash_upto(planes, v, (n - 1) as nat) + if T::spec_zero().at_most_spec(
            dot_spec(v, planes[n - 1]),
        ) {
            pow2((n - 1) as nat)
        } else {
            0
        }
    }
}

/// The hash of `v`.
pub open spec fn hash_spec<T: Scalar>(planes: Seq<Seq<T>>, v: Seq<T>) -> nat {
    hash_upto(planes, v, planes.len())
}

proof fn lemma_hash_bound<T: Scalar>(planes: Seq<Seq<T>>, v: Seq<T>, n: nat)
    ensures
        hash_upto(planes, v, n) < pow2(n),
    decreases n,
{
    lemma_pow2_pos(n);
    if n > 0 {
        lemma_hash_bound(planes, v, (n - 1) as nat);
        lemma_pow2_unfold(n);
    }
}

/// Every hash lies below the number of buckets.
pub proof fn law_hash_below_buckets<T: Scalar>(planes: Seq<Seq<T>>, v: Seq<T>)
    ensures
        hash_spec(planes, v) < pow2(planes.len()),
{
    lemma_hash_bound(planes, v, planes.len());
}

/// A family of hyperplanes.
#[derive(Debug, Clone)]
pub struct LshIndex<T> {
    /// One normal vector per bit.
    pub hyperplanes: Vec<Vec<T>>,
    pub num_bits: usize,
}

/// The number in `[-1, 1)` that a word gives, computed.
fn signed_unit<T: Scalar>(word: u32) -> (r: T)
    ensures
        r == signed_unit_of::<T>(word),
{
    let unit = T::from_count((word / 256) as usize).over(T::from_count(16777216));
    unit.times(T::from_count(2)).minus(T::from_count(1))
}

/// The sum of four numbers, computed.
fn sum_four<T: Scalar>(words: &[u32], at: usize) -> (r: T)
    requires
        at + 4 <= words@.len(),
    ensures
        r == four_sum::<T>(words@, at as int),
{
    T::zero().plus(signed_unit(words[at])).plus(signed_unit(words[at + 1])).plus(
        signed_unit(words[at + 2]),
    ).plus(signed_unit(words[at + 3]))
}

impl<T: Scalar> LshIndex<T> {
    /// Whether there is one hyperplane per bit, and hashes fit their type.
    pub open spec fn wf(&self) -> bool {
        self.hyperplanes@.len() == self.num_bits && self.num_bits <= 32
    }

    /// The hyperplanes as sequences.
    pub open spec fn planes(&self) -> Seq<Seq<T>> {
        row_seqs(self.hyperplanes@)
    }

    /// The family whose hyperplanes the words give.
    pub fn from_words(dim: usize, num_bits: usize, words: &[u32]) -> (r: Self)
        requires
            words@.len() == num_bits * dim * 4,
        ensures
            r.num_bits == num_bits,
            r.planes() == planes_from::<T>(words@, dim as nat, num_bits as nat),
    {
        let ghost goal = planes_from::<T>(words@, dim as nat, num_bits as nat);
        let mut hyperplanes: Vec<Vec<T>> = Vec::with_capacity(num_bits);
        assert(words.len() == words@.len());
        for j in 0..num_bits
            invariant
                words@.len() == num_bits * dim * 4,
                words@.len() <= usize::MAX,
                goal == planes_from::<T>(words@, dim as nat, num_bits as nat),
                row_seqs(hyperplanes@) == goal.take(j as int),
        {
            let mut plane: Vec<T> = Vec::with_capacity(dim);
            for c in 0..dim
                invariant
                    j < num_bits,
                    words@.len() == num_bits * dim * 4,
                    words@.len() <= usize::MAX,
                    goal == planes_from::<T>(words@, dim as nat, num_bits as nat),
                    plane@ == goal[j as int].take(c as int),
            {
                proof {
                    lemma_cell_index(num_bits as int, dim as int, j as int, c as int);
                }
                assert(0 <= j * dim) by (nonlinear_arith);
                let at: usize = (j * dim + c) * 4;
                plane.push(sum_four(words, at));
                assert(plane@ =~= goal[j as int].take(c + 1));
            }
            assert(plane@ =~= goal[j as int]);
            let ghost before = hyperplanes@;
            hyperplanes.push(plane);
            proof {
                assert(row_seqs(hyperplanes@) =~= row_seqs(before).push(plane@));
                assert(goal.take(j + 1) =~= goal.take(j as int).push(goal[j as int]));
            }
        }
        assert(goal.take(num_bits as int) =~= goal);
        LshIndex { hyperplanes, num_bits }
    }

    /// A family of random hyperplanes. Each of their numbers is the sum of four random
    /// numbers between minus one and one.
    pub fn new(dim: usize, num_bits: usize, seed: u64) -> (r: Self)
        requires
            num_bits * dim * 4 <= usize::MAX,
        ensures
            r.num_bits == num_bits,
            r.planes() == planes_spec::<T>(dim as nat, num_bits as nat, seed),
            num_bits <= 32 ==> r.wf(),
    {
        let ghost total = num_bits * dim * 4;
        assert(0 <= num_bits * dim <= total) by (nonlinear_arith)
            requires
                total == num_bits * dim * 4,
                0 <= num_bits,
                0 <= dim,
        ;
        let mut words: Vec<u32> = filled(num_bits * dim * 4, 0u32);
        let mut rng: StdRng = seeded(seed);
        fill(&mut words, &mut rng);
        let r = LshIndex::from_words(dim, num_bits, &words);
        assert(r.planes().len() == num_bits);
        r
    }

    /// The hash of a vector: bit `i` is set where its inner product with hyperplane `i` is
    /// not negative.
    pub fn hash(&self, v: &[T]) -> (r: u32)
        requires
            self.hyperplanes@.len() <= 32,
        ensures
            r == hash_spec(self.planes(), v@),
            r < pow2(self.hyperplanes@.len()),
    {
        let mut h: u64 = 0;
        let mut weight: u64 = 1;
        proof {
            lemma2_to64();
        }
        let n: usize = self.hyperplanes.len();
        for i in 0..n
            invariant
                n == self.hyperplanes@.len(),
                n <= 32,
                h == hash_upto(self.planes(), v@, i as nat),
                h < pow2(i as nat),
                weight == pow2(i as nat),
                pow2(32) == 0x100000000,
        {
            proof {
                lemma_pow2_unfold((i + 1) as nat);
                if i < 32 {
                    lemma_pow2_strictly_increases(i as nat, 32);
                }
                assert(self.planes()[i as int] == self.hyperplanes@[i as int]@);
            }
            if T::zero().at_most(dot(v, &self.hyperplanes[i])) {
                h = h + weight;
            }
            weight = weight * 2;
        }
        proof {
            if n < 32 {
                lemma_pow2_strictly_increases(n as nat, 32);
            }
            assert(self.planes().len() == n);
        }
        h as u32
    }

    /// The number of bits of a hash.
    pub fn num_bits(&self) -> (r: usize)
        ensures
            r == self.num_bits,
    {
        self.num_bits
    }

    /// The number of buckets: one for each value that a hash can have.
    pub fn num_buckets(&self) -> (r: usize)
        requires
            pow2(self.num_bits as nat) <= usize::MAX,
        ensures
            r == pow2(self.num_bits as nat),
    {
        power_of_two(self.num_bits)
    }
}

/// Whether one of the first `n` rows of `cols` numbers hashes to bucket `b`.
pub open spec fn bucket_hit<T: Scalar>(
    planes: Seq<Seq<T>>,
    activations: Seq<T>,
    cols: int,
    n: int,
    b: int,
) -> bool {
    exists|t: int| 0 <= t < n && hash_spec(planes, #[trigger] row_of(activations, cols, t)) == b
}

/// A gradient with rows of `in_dim` numbers of which only those rows are kept whose number
/// modulo the number of buckets is the hash of an activation. Without rows or without
/// activations all stays as it is.
pub open spec fn masked<T: Scalar>(
    grad: Seq<T>,
    activations: Seq<T>,
    seq: int,
    in_dim: int,
    planes: Seq<Seq<T>>,
) -> Seq<T> {
    let out_rows = grad.len() as int / in_dim;
    Seq::new(
        grad.len(),
        |i: int|
            if seq > 0 && i / in_dim < out_rows && !bucket_hit(
                planes,
                activations,
                in_dim,
                seq,
                (i / in_dim) % (pow2(planes.len()) as int),
            ) {
                T::spec_zero()
            } else {
                grad[i]
            },
    )
}

/// Which buckets the rows of activations hash to.
fn hit_buckets<T: Scalar>(lsh: &LshIndex<T>, activations: &[T], seq: usize, in_dim: usize) -> (hit: Vec<
    bool,
>)
    requires
        lsh.wf(),
        pow2(lsh.num_bits as nat) <= usize::MAX,
        activations@.len() >= seq * in_dim,
    ensures
        hit@.len() == pow2(lsh.num_bits as nat),
        forall|b: int|
            0 <= b < hit@.len() ==> #[trigger] hit@[b] == bucket_hit(
                lsh.planes(),
                activations@,
                in_dim as int,
                seq as int,
                b,
            ),
{
    let mut hit: Vec<bool> = filled(lsh.num_buckets(), false);
    assert(lsh.planes().len() == lsh.num_bits);
    for t in 0..seq
        invariant
            lsh.wf(),
            lsh.planes().len() == lsh.num_bits,
            activations@.len() >= seq * in_dim,
            hit@.len() == pow2(lsh.num_bits as nat),
            forall|b: int|
                0 <= b < hit@.len() ==> #[trigger] hit@[b] == bucket_hit(
                    lsh.planes(),
                    activations@,
                    in_dim as int,
                    t as int,
                    b,
                ),
    {
        let row = row_at(activations, in_dim, t, Ghost(seq as int));
        let b: u32 = lsh.hash(row);
        let ghost before = hit@;
        hit[b as usize] = true;
        proof {
            let acts = activations@;
            let cols = in_dim as int;
            assert(row@ == row_of(acts, cols, t as int));
            assert forall|q: int| 0 <= q < hit@.len() implies #[trigger] hit@[q] == bucket_hit(
                lsh.planes(),
                acts,
                cols,
                t + 1,
                q,
            ) by {
                assert(before[q] == bucket_hit(lsh.planes(), acts, cols, t as int, q));
                if before[q] {
                    let u = choose|u: int|
                        0 <= u < t && hash_spec(lsh.planes(), #[trigger] row_of(acts, cols, u)) == q;
                    assert(0 <= u < t + 1);
                }
                if q == b {
                    assert(hash_spec(lsh.planes(), row_of(acts, cols, t as int)) == q);
                } else if bucket_hit(lsh.planes(), acts, cols, t + 1, q) {
                    let u = choose|u: int|
                        0 <= u < t + 1 && hash_spec(lsh.planes(), #[trigger] row_of(acts, cols, u))
                            == q;
                    assert(u != t);
                    assert(0 <= u < t);
                }
            }
        }
    }
    hit
}

/// Sets the rows of a gradient to zero whose number modulo the number of buckets is not the
/// hash of any of the first `seq` rows of activations.
pub fn mask_by_lsh<T: Scalar>(
    grad: &mut Vec<T>,
    activations: &[T],
    seq: usize,
    in_dim: usize,
    lsh: &LshIndex<T>,
)
    requires
        lsh.wf(),
        pow2(lsh.num_bits as nat) <= usize::MAX,
        in_dim > 0,
        activations@.len() >= seq * in_dim,
    ensures
        final(grad)@ == masked(old(grad)@, activations@, seq as int, in_dim as int, lsh.planes()),
{
    let ghost g0 = grad@;
    let ghost planes = lsh.planes();
    let ghost goal = masked(g0, activations@, seq as int, in_dim as int, planes);
    let out_rows: usize = grad.len() / in_dim;
    if out_rows == 0 || seq == 0 {
        proof {
            assert forall|i: int| 0 <= i < g0.len() implies goal[i] == g0[i] by {
                assert(0 <= i / (in_dim as int)) by (nonlinear_arith)
                    requires
                        0 <= i,
                        in_dim > 0,
                ;
            }
            assert(grad@ =~= goal);
        }
        return ;
    }
    let hit = hit_buckets(lsh, activations, seq, in_dim);
    let buckets: usize = hit.len();
    proof {
        assert(planes.len() == lsh.num_bits);
        lemma_pow2_pos(lsh.num_bits as nat);
        assert(out_rows * in_dim <= g0.len()) by (nonlinear_arith)
            requires
                out_rows == g0.len() as int / in_dim as int,
                in_dim > 0,
        ;
        assert(0 * in_dim == 0) by (nonlinear_arith);
    }
    for r in 0..out_rows
        invariant
            in_dim > 0,
            seq > 0,
            out_rows == g0.len() as int / in_dim as int,
            out_rows * in_dim <= g0.len(),
            g0.len() <= usize::MAX,
            buckets == hit@.len(),
            buckets == pow2(planes.len()),
            buckets > 0,
            goal == masked(g0, activations@, seq as int, in_dim as int, planes),
            forall|b: int|
                0 <= b < hit@.len() ==> #[trigger] hit@[b] == bucket_hit(
                    planes,
                    activations@,
                    in_dim as int,
                    seq as int,
                    b,
                ),
            grad@.len() == g0.len(),
            forall|i: int| 0 <= i < r * in_dim ==> grad@[i] == goal[i],
            forall|i: int| r * in_dim <= i < g0.len() ==> grad@[i] == g0[i],
    {
        let bucket: usize = r % buckets;
        proof {
            assert((r + 1) * in_dim == r * in_dim + in_dim) by (nonlinear_arith);
            assert((r + 1) * in_dim <= out_rows * in_dim) by (nonlinear_arith)
                requires
                    r < out_rows,
                    in_dim > 0,
            ;
            assert(0 <= r * in_dim) by (nonlinear_arith);
        }
        if !hit[bucket] {
            for j in 0..in_dim
                invariant
                    0 <= r * in_dim,
                    r * in_dim + in_dim <= g0.len(),
                    g0.len() <= usize::MAX,
                    grad@.len() == g0.len(),
                    forall|i: int| 0 <= i < r * in_dim ==> grad@[i] == goal[i],
                    forall|i: int|
                        r * in_dim <= i < r * in_dim + j ==> grad@[i] == T::spec_zero(),
                    forall|i: int| r * in_dim + j <= i < g0.len() ==> grad@[i] == g0[i],
            {
                grad[r * in_dim + j] = T::zero();
            }
        }
        proof {
            assert forall|i: int| 0 <= i < (r + 1) * in_dim implies grad@[i] == goal[i] by {
                if i >= r * in_dim {
                    assert(i / (in_dim as int) == r) by (nonlinear_arith)
                        requires
                            r * in_dim <= i < (r + 1) * in_dim,
                            in_dim > 0,
                    ;
                    assert(hit@[bucket as int] == bucket_hit(
                        planes,
                        activations@,
                        in_dim as int,
                        seq as int,
                        bucket as int,
                    ));
                }
            }
        }
    }
    proof {
        assert forall|i: int| 0 <= i < g0.len() implies grad@[i] == goal[i] by {
            if i >= out_rows * in_dim {
                assert(i / (in_dim as int) >= out_rows) by (nonlinear_arith)
                    requires
                        i >= out_rows * in_dim,
                        in_dim > 0,
                ;
            }
        }
        assert(grad@ =~= goal);
    }
}

/// Two vectors have the same hash exactly where they lie on the same sides of all hyperplanes.
pub proof fn law_hash_tells_sides<T: Scalar>(planes: Seq<Seq<T>>, u: Seq<T>, v: Seq<T>)
    ensures
        hash_spec(planes, u) == hash_spec(planes, v) <==> forall|j: int|
            0 <= j < planes.len() ==> T::spec_zero().at_most_spec(
                dot_spec(u, #[trigger] planes[j]),
            ) == T::spec_zero().at_most_spec(dot_spec(v, planes[j])),
{
    lemma_hash_tells(planes, u, v, planes.len());
}

proof fn lemma_hash_tells<T: Scalar>(planes: Seq<Seq<T>>, u: Seq<T>, v: Seq<T>, n: nat)
    requires
        n <= planes.len(),
    ensures
        hash_upto(planes, u, n) == hash_upto(planes, v, n) <==> forall|j: int|
            0 <= j < n ==> T::spec_zero().at_most_spec(dot_spec(u, #[trigger] planes[j]))
                == T::spec_zero().at_most_spec(dot_spec(v, planes[j])),
    decreases n,
{
    if n > 0 {
        let m = (n - 1) as nat;
        lemma_hash_tells(planes, u, v, m);
        lemma_hash_bound(planes, u, m);
        lemma_hash_bound(planes, v, m);
        let zero = T::spec_zero();
        let a = zero.at_most_spec(dot_spec(u, planes[n - 1]));
        let b = zero.at_most_spec(dot_spec(v, planes[n - 1]));
        if hash_upto(planes, u, n) == hash_upto(planes, v, n) {
            assert(a == b);
            assert forall|j: int| 0 <= j < n implies zero.at_most_spec(
                dot_spec(u, #[trigger] planes[j]),
            ) == zero.at_most_spec(dot_spec(v, planes[j])) by {
                if j == n - 1 {
                    assert(a == b);
                }
            }
        }
        if forall|j: int|
            0 <= j < n ==> zero.at_most_spec(dot_spec(u, #[trigger] planes[j]))
                == zero.at_most_spec(dot_spec(v, planes[j])) {
            assert(zero.at_most_spec(dot_spec(u, planes[n - 1])) == zero.at_most_spec(
                dot_spec(v, planes[n - 1]),
            ));
        }
    }
}

/// A vector on the front side of every hyperplane has the highest hash, one behind all of them
/// the hash zero.
pub proof fn law_hash_extremes<T: Scalar>(planes: Seq<Seq<T>>, v: Seq<T>, n: nat)
    requires
        n <= planes.len(),
    ensures
        (forall|j: int|
            0 <= j < n ==> T::spec_zero().at_most_spec(dot_spec(v, #[trigger] planes[j])))
            ==> hash_upto(planes, v, n) + 1 == pow2(n),
        (forall|j: int|
            0 <= j < n ==> !T::spec_zero().at_most_spec(dot_spec(v, #[trigger] planes[j])))
            ==> hash_upto(planes, v, n) == 0,
    decreases n,
{
    lemma2_to64();
    if n > 0 {
        law_hash_extremes(planes, v, (n - 1) as nat);
        lemma_pow2_unfold(n);
        let last = planes[n - 1];
        assert(planes[n - 1] == last);
    }
}

/// Masking keeps the rows of the buckets that an activation falls into and empties the others:
/// it changes no kept row, and a second masking changes nothing.
pub proof fn law_masking_keeps_or_empties<T: Scalar>(
    grad: Seq<T>,
    activations: Seq<T>,
    seq: int,
    in_dim: int,
    planes: Seq<Seq<T>>,
    r: int,
    t: int,
    j: int,
)
    requires
        0 < in_dim,
        0 < seq,
        0 <= r,
        (r + 1) * in_dim <= grad.len(),
        0 <= j < in_dim,
    ensures
        0 <= t < seq && hash_spec(planes, row_of(activations, in_dim, t)) == r % (pow2(
            planes.len(),
        ) as int) ==> masked(grad, activations, seq, in_dim, planes)[r * in_dim + j] == grad[r
            * in_dim + j],
        (forall|s: int|
            0 <= s < seq ==> hash_spec(planes, #[trigger] row_of(activations, in_dim, s)) != r % (
            pow2(planes.len()) as int)) ==> masked(grad, activations, seq, in_dim, planes)[r
            * in_dim + j] == T::spec_zero(),
        masked(
            masked(grad, activations, seq, in_dim, planes),
            activations,
            seq,
            in_dim,
            planes,
        ) == masked(grad, activations, seq, in_dim, planes),
{
    let m = masked(grad, activations, seq, in_dim, planes);
    let i = r * in_dim + j;
    assert((r + 1) * in_dim == r * in_dim + in_dim) by (nonlinear_arith);
    assert(0 <= r * in_dim) by (nonlinear_arith)
        requires
            0 <= r,
            0 < in_dim,
    ;
    vstd::arithmetic::div_mod::lemma_fundamental_div_mod_converse(i, in_dim, r, j);
    let rows = grad.len() as int / in_dim;
    assert(r < rows) by {
        vstd::arithmetic::div_mod::lemma_fundamental_div_mod(grad.len() as int, in_dim);
        vstd::arithmetic::div_mod::lemma_mod_bound(grad.len() as int, in_dim);
        if rows <= r {
            assert((r + 1) * in_dim >= rows * in_dim + in_dim) by (nonlinear_arith)
                requires
                    rows <= r,
                    0 < in_dim,
            ;
            assert(rows * in_dim == in_dim * rows) by (nonlinear_arith);
        }
    }
    let b = r % (pow2(planes.len()) as int);
    if 0 <= t < seq && hash_spec(planes, row_of(activations, in_dim, t)) == b {
        assert(bucket_hit(planes, activations, in_dim, seq, b));
    }
    if forall|s: int|
        0 <= s < seq ==> hash_spec(planes, #[trigger] row_of(activations, in_dim, s)) != b {
        assert(!bucket_hit(planes, activations, in_dim, seq, b));
    }
    assert(masked(m, activations, seq, in_dim, planes) =~= m);
}

} // verus!
