//! The pseudo-random generator for initial values.

use vstd::prelude::*;
use crate::scalar::Scalar;
use crate::transformer::one;

verus! {

/// A xorshift generator over 64 bits.
#[derive(Debug, Clone)]
pub struct Lcg {
    pub state: u64,
}

/// The state behind `x`.
pub open spec fn next_state(x: u64) -> u64 {
    let a = x ^ (x << 13);
    let b = a ^ (a >> 7);
    b ^ (b << 17)
}

/// The state that a seed starts from.
pub open spec fn seed_state(seed: u64) -> u64 {
    if seed == 0 {
        0x9e3779b97f4a7c15
    } else {
        seed
    }
}

/// The number that a state gives: its lower half.
pub open spec fn low_half(x: u64) -> u32 {
    (x & 0xffff_ffff) as u32
}

impl Lcg {
    /// A generator for the given seed. Seed zero is replaced, since the state zero
    /// would never change.
    pub fn new(seed: u64) -> (r: Self)
        ensures
            r.state == seed_state(seed),
    {
        Lcg {
            state: if seed == 0 {
                0x9e3779b97f4a7c15
            } else {
                seed
            },
        }
    }

    /// The next number.
    pub fn next_u32(&mut self) -> (r: u32)
        ensures
            final(self).state == next_state(old(self).state),
            r == low_half(next_state(old(self).state)),
    {
        let mut x: u64 = self.state;
        x = x ^ (x << 13);
        x = x ^ (x >> 7);
        x = x ^ (x << 17);
        self.state = x;
        (x & 0xffff_ffff) as u32
    }
}

/// A word over the number of words.
pub open spec fn word_fraction<T: Scalar>(word: u32) -> T {
    T::spec_count(word as usize).over_spec(T::spec_count(65536).times_spec(T::spec_count(65536)))
}

/// The number in `[0, 1)` that a generator's state gives: its word over the number of words.
/// Where that is rounded up to one, the highest word of 24 significant bits takes its place.
pub open spec fn unit_interval<T: Scalar>(x: u64) -> T {
    let q = word_fraction::<T>(low_half(x));
    if q.below_spec(one()) {
        q
    } else {
        word_fraction(0xffff_ff00)
    }
}

/// The state of the generator after `n` steps from `x`.
pub open spec fn state_after(x: u64, n: nat) -> u64
    decreases n,
{
    if n == 0 {
        x
    } else {
        next_state(state_after(x, (n - 1) as nat))
    }
}

/// Steps add up.
pub proof fn lemma_state_after(x: u64, m: nat, n: nat)
    ensures
        state_after(state_after(x, m), n) == state_after(x, m + n),
    decreases n,
{
    if n > 0 {
        lemma_state_after(x, m, (n - 1) as nat);
    }
}

impl Lcg {
    /// The next number in `[0, 1)`.
    pub fn next_f32<T: Scalar>(&mut self) -> (r: T)
        ensures
            final(self).state == next_state(old(self).state),
            r == unit_interval::<T>(next_state(old(self).state)),
            T::spec_zero().at_most_spec(r),
            r.below_spec(one()),
    {
        let word: u32 = self.next_u32();
        let side = T::from_count(65536);
        let words = side.times(side);
        proof {
            T::word_over_words(word);
            T::word_over_words(0xffff_ff00);
        }
        let q = T::from_count(word as usize).over(words);
        if q.below(T::from_count(1)) {
            q
        } else {
            T::from_count(0xffff_ff00).over(words)
        }
    }
}

/// The generator never falls into the state zero.
pub proof fn law_state_never_zero(x: u64)
    requires
        x != 0,
    ensures
        next_state(x) != 0,
        forall|seed: u64| seed_state(seed) != 0,
{
    let a = x ^ (x << 13);
    let b = a ^ (a >> 7);
    assert(x != 0 ==> x ^ (x << 13) != 0) by (bit_vector);
    assert(a != 0 ==> a ^ (a >> 7) != 0) by (bit_vector);
    assert(b != 0 ==> b ^ (b << 17) != 0) by (bit_vector);
}


/// `s` with the items at `i` and `j` exchanged.
pub open spec fn exchanged<A>(s: Seq<A>, i: int, j: int) -> Seq<A> {
    s.update(i, s[j]).update(j, s[i])
}

/// `s` after the exchanges that shuffling makes from place `i` down to place 1,
/// with the generator in state `x`.
pub open spec fn shuffled_from(s: Seq<usize>, x: u64, i: nat) -> Seq<usize>
    decreases i,
{
    if i == 0 {
        s
    } else {
        let y = next_state(x);
        shuffled_from(
            exchanged(s, i as int, low_half(y) as int % (i as int + 1)),
            y,
            (i - 1) as nat,
        )
    }
}

/// The numbers below `n` in order.
pub open spec fn counting(n: nat) -> Seq<usize> {
    Seq::new(n, |i: int| i as usize)
}

/// The numbers below `n`, shuffled with the given seed.
pub open spec fn shuffled_spec(n: nat, seed: u64) -> Seq<usize> {
    shuffled_from(
        counting(n),
        seed_state(seed),
        if n == 0 {
            0
        } else {
            (n - 1) as nat
        },
    )
}

/// The numbers below `n`, shuffled with the given seed.
pub fn shuffled(n: usize, seed: u64) -> (r: Vec<usize>)
    ensures
        r@ == shuffled_spec(n as nat, seed),
{
    let mut rng = Lcg::new(seed);
    let mut order: Vec<usize> = Vec::with_capacity(n);
    for i in 0..n
        invariant
            order@ == counting(i as nat),
    {
        order.push(i);
        assert(order@ =~= counting((i + 1) as nat));
    }
    if n == 0 {
        return order;
    }
    let mut i: usize = n - 1;
    while i > 0
        invariant
            i < n,
            order@.len() == n,
            shuffled_from(order@, rng.state, i as nat) == shuffled_spec(n as nat, seed),
        decreases i,
    {
        let ghost before = order@;
        let j: usize = (rng.next_u32() as usize) % (i + 1);
        let a: usize = order[i];
        let b: usize = order[j];
        order[i] = b;
        order[j] = a;
        assert(order@ =~= exchanged(before, i as int, j as int));
        i = i - 1;
    }
    order
}

proof fn lemma_shuffle_keeps(s: Seq<usize>, x: u64, i: nat)
    requires
        i == 0 || i < s.len(),
        s.no_duplicates(),
    ensures
        shuffled_from(s, x, i).len() == s.len(),
        shuffled_from(s, x, i).no_duplicates(),
        shuffled_from(s, x, i).to_set() == s.to_set(),
    decreases i,
{
    if i > 0 {
        let y = next_state(x);
        let j = low_half(y) as int % (i as int + 1);
        let t = exchanged(s, i as int, j);
        assert(0 <= j <= i);
        assert forall|a: int, b: int| 0 <= a < t.len() && 0 <= b < t.len() && a != b implies t[a]
            != t[b] by {
            let a0 = if a == i {
                j
            } else if a == j {
                i as int
            } else {
                a
            };
            let b0 = if b == i {
                j
            } else if b == j {
                i as int
            } else {
                b
            };
            assert(t[a] == s[a0]);
            assert(t[b] == s[b0]);
        }
        assert(t.to_set() =~= s.to_set()) by {
            assert forall|v: usize| t.to_set().contains(v) == s.to_set().contains(v) by {
                if s.contains(v) {
                    let k = choose|k: int| 0 <= k < s.len() && s[k] == v;
                    let k0 = if k == i {
                        j
                    } else if k == j {
                        i as int
                    } else {
                        k
                    };
                    assert(t[k0] == v);
                }
                if t.contains(v) {
                    let k = choose|k: int| 0 <= k < t.len() && t[k] == v;
                    let k0 = if k == i {
                        j
                    } else if k == j {
                        i as int
                    } else {
                        k
                    };
                    assert(s[k0] == v);
                }
            }
        }
        lemma_shuffle_keeps(t, y, (i - 1) as nat);
    }
}

/// Shuffling keeps the numbers: each number below `n` is there once.
pub proof fn law_shuffled_is_permutation(n: nat, seed: u64)
    requires
        n <= usize::MAX,
    ensures
        shuffled_spec(n, seed).len() == n,
        shuffled_spec(n, seed).no_duplicates(),
        forall|i: int| 0 <= i < n ==> (#[trigger] shuffled_spec(n, seed)[i]) < n,
{
    let s = counting(n);
    assert forall|i: int, j: int| 0 <= i < n && 0 <= j < n && i != j implies s[i] != s[j] by {
        assert(s[i] == i as usize && s[j] == j as usize);
    }
    lemma_shuffle_keeps(
        s,
        seed_state(seed),
        if n == 0 {
            0
        } else {
            (n - 1) as nat
        },
    );
    let r = shuffled_spec(n, seed);
    assert forall|i: int| 0 <= i < n implies (#[trigger] r[i]) < n by {
        assert(r.to_set().contains(r[i]));
        assert(s.contains(r[i]));
    }
}

/// A step of the generator can be undone: the state in front of it is what shifting the state
/// behind it back gives.
pub proof fn law_step_can_be_undone(x: u64)
    ensures
        ({
            let y = next_state(x);
            let b = y ^ (y << 17) ^ (y << 34) ^ (y << 51);
            let a = b ^ (b >> 7) ^ (b >> 14) ^ (b >> 21) ^ (b >> 28) ^ (b >> 35) ^ (b >> 42) ^ (b
                >> 49) ^ (b >> 56) ^ (b >> 63);
            x == a ^ (a << 13) ^ (a << 26) ^ (a << 39) ^ (a << 52)
        }),
{
    let a = x ^ (x << 13);
    let b = a ^ (a >> 7);
    let y = b ^ (b << 17);
    assert(y ^ (y << 17) ^ (y << 34) ^ (y << 51) == b) by (bit_vector)
        requires
            y == b ^ (b << 17),
    ;
    assert(b ^ (b >> 7) ^ (b >> 14) ^ (b >> 21) ^ (b >> 28) ^ (b >> 35) ^ (b >> 42) ^ (b >> 49) ^ (b
        >> 56) ^ (b >> 63) == a) by (bit_vector)
        requires
            b == a ^ (a >> 7),
    ;
    assert(a ^ (a << 13) ^ (a << 26) ^ (a << 39) ^ (a << 52) == x) by (bit_vector)
        requires
            a == x ^ (x << 13),
    ;
}

} // verus!
