//! The numbers that weights and activations are made of.
//!
//! Everything that computes with weights is generic over [`Scalar`], so that one
//! proof serves every kind of number: machine floats, fixed point, plain integers.
//! Contracts say which operations are applied to which values in which order. They
//! rest on no law of arithmetic, since floats keep hardly any.

use vstd::prelude::*;
use vstd::arithmetic::logarithm::{lemma_log0, lemma_log_s, log};

verus! {

/// Arithmetic and comparison of weights and activations. Each operation is a
/// function of its operands, named by the spec function in front of it.
pub trait Scalar: Copy {
    spec fn spec_zero() -> Self;

    /// The number zero.
    fn zero() -> (r: Self)
        ensures
            r == Self::spec_zero(),
    ;

    spec fn spec_highest() -> Self;

    /// The highest number, such as infinity.
    fn highest() -> (r: Self)
        ensures
            r == Self::spec_highest(),
    ;

    spec fn spec_lowest() -> Self;

    /// The lowest number, such as minus infinity.
    fn lowest() -> (r: Self)
        ensures
            r == Self::spec_lowest(),
    ;

    spec fn spec_count(n: usize) -> Self;

    /// A count as a number.
    fn from_count(n: usize) -> (r: Self)
        ensures
            r == Self::spec_count(n),
    ;

    spec fn spec_code(c: i8) -> Self;

    /// A small signed code as a number.
    fn from_code(c: i8) -> (r: Self)
        ensures
            r == Self::spec_code(c),
    ;

    spec fn rounded_spec(self) -> usize;

    /// The nearest count.
    fn rounded(self) -> (r: usize)
        ensures
            r == self.rounded_spec(),
    ;

    spec fn floored_spec(self) -> usize;

    /// The highest count that is not more.
    fn floored(self) -> (r: usize)
        ensures
            r == self.floored_spec(),
    ;

    spec fn plus_spec(self, other: Self) -> Self;

    /// The sum.
    fn plus(self, other: Self) -> (r: Self)
        ensures
            r == self.plus_spec(other),
    ;

    spec fn minus_spec(self, other: Self) -> Self;

    /// The difference.
    fn minus(self, other: Self) -> (r: Self)
        ensures
            r == self.minus_spec(other),
    ;

    spec fn times_spec(self, other: Self) -> Self;

    /// The product.
    fn times(self, other: Self) -> (r: Self)
        ensures
            r == self.times_spec(other),
    ;

    spec fn times_plus_spec(self, other: Self, third: Self) -> Self;

    /// The product with `other`, plus `third`, rounded once.
    fn times_plus(self, other: Self, third: Self) -> (r: Self)
        ensures
            r == self.times_plus_spec(other, third),
    ;

    spec fn over_spec(self, other: Self) -> Self;

    /// The quotient.
    fn over(self, other: Self) -> (r: Self)
        ensures
            r == self.over_spec(other),
    ;

    spec fn negated_spec(self) -> Self;

    /// The number with its sign changed.
    fn negated(self) -> (r: Self)
        ensures
            r == self.negated_spec(),
    ;

    spec fn magnitude_spec(self) -> Self;

    /// The absolute value.
    fn magnitude(self) -> (r: Self)
        ensures
            r == self.magnitude_spec(),
    ;

    spec fn root_spec(self) -> Self;

    /// The square root.
    fn root(self) -> (r: Self)
        ensures
            r == self.root_spec(),
    ;

    spec fn exp_spec(self) -> Self;

    /// The exponential.
    fn exp(self) -> (r: Self)
        ensures
            r == self.exp_spec(),
    ;

    spec fn ln_spec(self) -> Self;

    /// The natural logarithm.
    fn ln(self) -> (r: Self)
        ensures
            r == self.ln_spec(),
    ;

    spec fn log2_spec(self) -> Self;

    /// The logarithm to base two.
    fn log2(self) -> (r: Self)
        ensures
            r == self.log2_spec(),
    ;

    spec fn tanh_spec(self) -> Self;

    /// The hyperbolic tangent.
    fn tanh(self) -> (r: Self)
        ensures
            r == self.tanh_spec(),
    ;

    spec fn below_spec(self, other: Self) -> bool;

    /// Whether `self` is less than `other`.
    fn below(self, other: Self) -> (r: bool)
        ensures
            r == self.below_spec(other),
    ;

    spec fn at_most_spec(self, other: Self) -> bool;

    /// Whether `self` is less than or equal to `other`.
    fn at_most(self, other: Self) -> (r: bool)
        ensures
            r == self.at_most_spec(other),
    ;

    spec fn spec_vectorised() -> bool;

    /// Whether the machine has vector instructions for these numbers.
    fn vectorised() -> (r: bool)
        ensures
            r == Self::spec_vectorised(),
    ;

    /// No number is less than itself.
    proof fn below_irreflexive(self)
        ensures
            !self.below_spec(self),
    ;

    /// What is less than something lesser is less.
    proof fn below_transitive(self, other: Self, third: Self)
        requires
            self.below_spec(other),
            other.below_spec(third),
        ensures
            self.below_spec(third),
    ;

    /// Nothing is less than the lowest number, and it is less than everything that
    /// is more than something.
    proof fn lowest_is_least(self, other: Self)
        ensures
            !self.below_spec(Self::spec_lowest()),
            self.below_spec(other) ==> Self::spec_lowest().below_spec(other),
    ;

    /// A word over the number of words is not negative. Where the word is at most the
    /// highest one of 24 significant bits, the quotient is less than one.
    proof fn word_over_words(word: u32)
        ensures
            Self::spec_zero().at_most_spec(
                Self::spec_count(word as usize).over_spec(
                    Self::spec_count(65536).times_spec(Self::spec_count(65536)),
                ),
            ),
            word <= 0xffff_ff00 ==> Self::spec_count(word as usize).over_spec(
                Self::spec_count(65536).times_spec(Self::spec_count(65536)),
            ).below_spec(Self::spec_count(1)),
    ;
}

/// Whether `r` is the largest number whose square is at most `n`.
pub open spec fn is_floor_sqrt(r: int, n: int) -> bool {
    0 <= r && r * r <= n && n < (r + 1) * (r + 1)
}

/// The largest number whose square is at most `n`.
pub open spec fn floor_sqrt(n: int) -> int {
    choose|r: int| is_floor_sqrt(r, n)
}

fn integer_root(n: u64) -> (r: u64)
    requires
        n <= i64::MAX,
    ensures
        r == floor_sqrt(n as int),
        r <= 3037000499,
{
    let mut lo: u64 = 0;
    let mut hi: u64 = 3037000500;
    while hi - lo > 1
        invariant
            lo < hi <= 3037000500,
            lo * lo <= n,
            n < hi * hi,
        decreases hi - lo,
    {
        let mid: u64 = lo + (hi - lo) / 2;
        assert(mid * mid <= 3037000500 * 3037000500) by (nonlinear_arith)
            requires
                mid <= 3037000500,
        ;
        if mid * mid <= n {
            lo = mid;
        } else {
            hi = mid;
        }
    }
    proof {
        assert(hi == lo + 1);
        let s = floor_sqrt(n as int);
        let l = lo as int;
        assert(is_floor_sqrt(l, n as int));
        assert(is_floor_sqrt(s, n as int));
        assert(s == l) by (nonlinear_arith)
            requires
                0 <= l,
                l * l <= n,
                n < (l + 1) * (l + 1),
                0 <= s,
                s * s <= n,
                n < (s + 1) * (s + 1),
        ;
    }
    lo
}

/// An integer as a count: zero if it is negative, and no more than the highest count.
pub open spec fn as_count(n: i64) -> usize {
    if n < 0 {
        0
    } else if n > usize::MAX {
        usize::MAX
    } else {
        n as usize
    }
}

fn to_count(n: i64) -> (r: usize)
    ensures
        r == as_count(n),
{
    if n < 0 {
        0
    } else if n as u64 > usize::MAX as u64 {
        usize::MAX
    } else {
        n as usize
    }
}

/// The powers of the number e that fit an `i64`, rounded down.
pub const EXP_FLOOR: [i64; 44] = [
    1,
    2,
    7,
    20,
    54,
    148,
    403,
    1096,
    2980,
    8103,
    22026,
    59874,
    162754,
    442413,
    1202604,
    3269017,
    8886110,
    24154952,
    65659969,
    178482300,
    485165195,
    1318815734,
    3584912846,
    9744803446,
    26489122129,
    72004899337,
    195729609428,
    532048240601,
    1446257064291,
    3931334297144,
    10686474581524,
    29048849665247,
    78962960182680,
    214643579785916,
    583461742527454,
    1586013452313430,
    4311231547115195,
    11719142372802611,
    31855931757113756,
    86593400423993746,
    235385266837019985,
    639843493530054949,
    1739274941520501047,
    4727839468229346561,
];

/// How many of the first `k` powers of e, beginning with e itself, are not more than
/// `x`. No power but the zeroth is an integer, so that a power is at most `x` where its
/// rounded value is less.
pub open spec fn powers_upto(x: i64, k: nat) -> int
    decreases k,
{
    if k == 0 {
        0
    } else if EXP_FLOOR[k as int] < x {
        powers_upto(x, (k - 1) as nat) + 1
    } else {
        powers_upto(x, (k - 1) as nat)
    }
}

/// Integers, with arithmetic modulo 2^64.
impl Scalar for i64 {
    open spec fn spec_zero() -> i64 {
        0
    }

    fn zero() -> (r: i64) {
        0
    }

    open spec fn spec_highest() -> i64 {
        i64::MAX
    }

    fn highest() -> (r: i64) {
        i64::MAX
    }

    open spec fn spec_lowest() -> i64 {
        i64::MIN
    }

    fn lowest() -> (r: i64) {
        i64::MIN
    }

    open spec fn spec_count(n: usize) -> i64 {
        n as i64
    }

    fn from_count(n: usize) -> (r: i64) {
        #[verifier::truncate]
        let r: i64 = n as i64;
        r
    }

    open spec fn spec_code(c: i8) -> i64 {
        c as i64
    }

    fn from_code(c: i8) -> (r: i64) {
        c as i64
    }

    open spec fn rounded_spec(self) -> usize {
        as_count(self)
    }

    fn rounded(self) -> (r: usize) {
        to_count(self)
    }

    open spec fn floored_spec(self) -> usize {
        as_count(self)
    }

    fn floored(self) -> (r: usize) {
        to_count(self)
    }

    open spec fn plus_spec(self, other: i64) -> i64 {
        self.wrapping_add(other)
    }

    fn plus(self, other: i64) -> (r: i64) {
        self.wrapping_add(other)
    }

    open spec fn minus_spec(self, other: i64) -> i64 {
        self.wrapping_sub(other)
    }

    fn minus(self, other: i64) -> (r: i64) {
        self.wrapping_sub(other)
    }

    open spec fn times_spec(self, other: i64) -> i64 {
        self.wrapping_mul(other)
    }

    fn times(self, other: i64) -> (r: i64) {
        self.wrapping_mul(other)
    }

    open spec fn times_plus_spec(self, other: i64, third: i64) -> i64 {
        self.wrapping_mul(other).wrapping_add(third)
    }

    fn times_plus(self, other: i64, third: i64) -> (r: i64) {
        self.wrapping_mul(other).wrapping_add(third)
    }

    /// Rounded towards zero. The highest number where there is no quotient.
    open spec fn over_spec(self, other: i64) -> i64 {
        match self.checked_div(other) {
            Some(q) => q,
            None => i64::MAX,
        }
    }

    fn over(self, other: i64) -> (r: i64) {
        match self.checked_div(other) {
            Some(q) => q,
            None => i64::MAX,
        }
    }

    open spec fn negated_spec(self) -> i64 {
        0i64.wrapping_sub(self)
    }

    fn negated(self) -> (r: i64) {
        0i64.wrapping_sub(self)
    }

    open spec fn magnitude_spec(self) -> i64 {
        if self < 0 {
            0i64.wrapping_sub(self)
        } else {
            self
        }
    }

    fn magnitude(self) -> (r: i64) {
        if self < 0 {
            0i64.wrapping_sub(self)
        } else {
            self
        }
    }

    /// Rounded down. Zero for a negative number.
    open spec fn root_spec(self) -> i64 {
        if self < 0 {
            0
        } else {
            floor_sqrt(self as int) as i64
        }
    }

    fn root(self) -> (r: i64) {
        if self < 0 {
            0
        } else {
            integer_root(self as u64) as i64
        }
    }

    /// Rounded down. The highest number where the exponential does not fit.
    open spec fn exp_spec(self) -> i64 {
        if self < 0 {
            0
        } else if self < 44 {
            EXP_FLOOR[self as int]
        } else {
            i64::MAX
        }
    }

    fn exp(self) -> (r: i64) {
        if self < 0 {
            0
        } else if self < 44 {
            EXP_FLOOR[self as usize]
        } else {
            i64::MAX
        }
    }

    /// Rounded down. The lowest number where there is no logarithm.
    open spec fn ln_spec(self) -> i64 {
        if self <= 0 {
            i64::MIN
        } else {
            powers_upto(self, 43) as i64
        }
    }

    fn ln(self) -> (r: i64) {
        if self <= 0 {
            return i64::MIN;
        }
        let mut r: i64 = 0;
        for k in 0..43usize
            invariant
                r == powers_upto(self, k as nat),
                0 <= r <= k,
        {
            if EXP_FLOOR[k + 1] < self {
                r = r + 1;
            }
        }
        r
    }

    /// Rounded down. The lowest number where there is no logarithm.
    open spec fn log2_spec(self) -> i64 {
        if self <= 0 {
            i64::MIN
        } else {
            log(2, self as int) as i64
        }
    }

    fn log2(self) -> (r: i64) {
        if self <= 0 {
            return i64::MIN;
        }
        let mut r: i64 = 0;
        let mut x: i64 = self;
        while 2 <= x
            invariant
                1 <= x,
                0 <= r,
                r + x <= self,
                log(2, self as int) == r + log(2, x as int),
            decreases x,
        {
            proof {
                lemma_log_s(2, x as int);
            }
            x = x / 2;
            r = r + 1;
        }
        proof {
            lemma_log0(2, x as int);
        }
        r
    }

    /// Rounded to the nearest integer, which is the sign.
    open spec fn tanh_spec(self) -> i64 {
        if self < 0 {
            -1i64
        } else if self > 0 {
            1
        } else {
            0
        }
    }

    fn tanh(self) -> (r: i64) {
        if self < 0 {
            -1
        } else if self > 0 {
            1
        } else {
            0
        }
    }

    open spec fn below_spec(self, other: i64) -> bool {
        self < other
    }

    fn below(self, other: i64) -> (r: bool) {
        self < other
    }

    open spec fn at_most_spec(self, other: i64) -> bool {
        self <= other
    }

    fn at_most(self, other: i64) -> (r: bool) {
        self <= other
    }

    /// Integers are computed in lanes wherever that is asked for.
    open spec fn spec_vectorised() -> bool {
        true
    }

    fn vectorised() -> (r: bool) {
        true
    }

    proof fn below_irreflexive(self) {
    }

    proof fn below_transitive(self, other: i64, third: i64) {
    }

    proof fn lowest_is_least(self, other: i64) {
    }

    proof fn word_over_words(word: u32) {
        assert(65536i64.wrapping_mul(65536i64) == 4294967296i64);
    }
}

/// The sum of the first `n` numbers of `s`, from the left.
pub open spec fn sum_of<T: Scalar>(s: Seq<T>, n: nat) -> T
    decreases n,
{
    if n == 0 {
        T::spec_zero()
    } else {
        sum_of(s, (n - 1) as nat).plus_spec(s[n - 1])
    }
}

/// The products of `a` and `b`, number by number, over the shorter length.
pub open spec fn products<T: Scalar>(a: Seq<T>, b: Seq<T>) -> Seq<T> {
    Seq::new(
        if a.len() < b.len() {
            a.len()
        } else {
            b.len()
        },
        |i: int| a[i].times_spec(b[i]),
    )
}

/// The inner product of `a` and `b`, over the shorter length.
pub open spec fn dot_spec<T: Scalar>(a: Seq<T>, b: Seq<T>) -> T {
    sum_of(products(a, b), products(a, b).len())
}

/// The inner product of two slices, over the shorter length.
pub fn dot<T: Scalar>(a: &[T], b: &[T]) -> (r: T)
    ensures
        r == dot_spec(a@, b@),
{
    let n: usize = if a.len() < b.len() {
        a.len()
    } else {
        b.len()
    };
    let ghost p = products(a@, b@);
    let mut acc = T::zero();
    for i in 0..n
        invariant
            n <= a@.len(),
            n <= b@.len(),
            p == products(a@, b@),
            p.len() == n,
            acc == sum_of(p, i as nat),
    {
        acc = acc.plus(a[i].times(b[i]));
    }
    acc
}

/// Adds to each number `d` times the number at the same place.
pub fn add_scaled<T: Scalar>(acc: &mut [T], d: T, x: &[T])
    requires
        old(acc)@.len() == x@.len(),
    ensures
        final(acc)@.len() == x@.len(),
        forall|j: int|
            0 <= j < x@.len() ==> #[trigger] final(acc)@[j] == old(acc)@[j].plus_spec(
                d.times_spec(x@[j]),
            ),
{
    let ghost a0 = acc@;
    let n: usize = x.len();
    // Never so; lets the compiler leave out the bounds checks of the loop.
    if acc.len() != n {
        return ;
    }
    for j in 0..n
        invariant
            n == x@.len(),
            acc@.len() == n,
            a0.len() == n,
            forall|k: int| 0 <= k < j ==> #[trigger] acc@[k] == a0[k].plus_spec(d.times_spec(x@[k])),
            forall|k: int| j <= k < n ==> #[trigger] acc@[k] == a0[k],
    {
        acc[j] = acc[j].plus(d.times(x[j]));
    }
}

/// Adds to each number the products of the four factors with the numbers at the same place,
/// one after the other.
pub fn add_four_scaled<T: Scalar>(acc: &mut [T], f: [T; 4], a: &[T], b: &[T], c: &[T], d: &[T])
    requires
        old(acc)@.len() == a@.len(),
        b@.len() == a@.len(),
        c@.len() == a@.len(),
        d@.len() == a@.len(),
    ensures
        final(acc)@.len() == a@.len(),
        forall|j: int|
            0 <= j < a@.len() ==> #[trigger] final(acc)@[j] == old(acc)@[j].plus_spec(
                f@[0].times_spec(a@[j]),
            ).plus_spec(f@[1].times_spec(b@[j])).plus_spec(f@[2].times_spec(c@[j])).plus_spec(
                f@[3].times_spec(d@[j]),
            ),
{
    let ghost acc0 = acc@;
    let n: usize = a.len();
    // Never so; lets the compiler leave out the bounds checks of the loop.
    if acc.len() != n || b.len() != n || c.len() != n || d.len() != n {
        return ;
    }
    let (f0, f1, f2, f3) = (f[0], f[1], f[2], f[3]);
    for j in 0..n
        invariant
            n == a@.len(),
            b@.len() == n,
            c@.len() == n,
            d@.len() == n,
            acc@.len() == n,
            acc0.len() == n,
            f0 == f@[0],
            f1 == f@[1],
            f2 == f@[2],
            f3 == f@[3],
            forall|k: int|
                0 <= k < j ==> #[trigger] acc@[k] == acc0[k].plus_spec(
                    f@[0].times_spec(a@[k]),
                ).plus_spec(f@[1].times_spec(b@[k])).plus_spec(f@[2].times_spec(c@[k])).plus_spec(
                    f@[3].times_spec(d@[k]),
                ),
            forall|k: int| j <= k < n ==> #[trigger] acc@[k] == acc0[k],
    {
        acc[j] = acc[j].plus(f0.times(a[j])).plus(f1.times(b[j])).plus(f2.times(c[j])).plus(
            f3.times(d[j]),
        );
    }
}

/// Four more terms of a sum.
pub proof fn lemma_four_terms<T: Scalar>(s: Seq<T>, n: nat)
    ensures
        ({
            let i = n as int;
            sum_of(s, n + 4) == sum_of(s, n).plus_spec(s[i]).plus_spec(s[i + 1]).plus_spec(
                s[i + 2],
            ).plus_spec(s[i + 3])
        }),
{
    let i = n as int;
    assert(sum_of(s, n + 4) == sum_of(s, n + 3).plus_spec(s[i + 3]));
    assert(sum_of(s, n + 3) == sum_of(s, n + 2).plus_spec(s[i + 2]));
    assert(sum_of(s, n + 2) == sum_of(s, n + 1).plus_spec(s[i + 1]));
}

/// The squares of the differences of `a` and `b`, over the shorter length.
pub open spec fn squared_differences<T: Scalar>(a: Seq<T>, b: Seq<T>) -> Seq<T> {
    Seq::new(
        if a.len() < b.len() {
            a.len()
        } else {
            b.len()
        },
        |i: int| a[i].minus_spec(b[i]).times_spec(a[i].minus_spec(b[i])),
    )
}

/// The squared Euclidean distance of `a` and `b`.
pub open spec fn squared_dist_spec<T: Scalar>(a: Seq<T>, b: Seq<T>) -> T {
    sum_of(squared_differences(a, b), squared_differences(a, b).len())
}

/// The squared Euclidean distance of two slices, over the shorter length.
pub fn squared_dist<T: Scalar>(a: &[T], b: &[T]) -> (r: T)
    ensures
        r == squared_dist_spec(a@, b@),
{
    let n: usize = if a.len() < b.len() {
        a.len()
    } else {
        b.len()
    };
    let ghost p = squared_differences(a@, b@);
    let mut acc = T::zero();
    for i in 0..n
        invariant
            n <= a@.len(),
            n <= b@.len(),
            p == squared_differences(a@, b@),
            p.len() == n,
            acc == sum_of(p, i as nat),
    {
        let d = a[i].minus(b[i]);
        acc = acc.plus(d.times(d));
    }
    acc
}

/// Whether any two numbers of `s` can be compared: where one number is less than
/// another, every third one is more than the lesser or less than the greater. The
/// lesser may also be the lowest number. Numbers of which neither is less than the
/// other then count as equal. Floats other than NaN are comparable.
pub open spec fn comparable<T: Scalar>(s: Seq<T>) -> bool {
    &&& forall|i: int, j: int, k: int|
        0 <= i < s.len() && 0 <= j < s.len() && 0 <= k < s.len() && #[trigger] s[i].below_spec(s[j])
            ==> s[i].below_spec(#[trigger] s[k]) || s[k].below_spec(s[j])
    &&& forall|j: int, k: int|
        0 <= j < s.len() && 0 <= k < s.len() && T::spec_lowest().below_spec(#[trigger] s[j])
            ==> T::spec_lowest().below_spec(#[trigger] s[k]) || s[k].below_spec(s[j])
}

} // verus!
