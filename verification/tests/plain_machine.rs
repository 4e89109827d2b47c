//! The kernels for numbers that the machine has no vector instructions for.

use nse::kernel::{compute_dense_core_avx2, compute_dense_core_dispatch, KernelKind};
use nse::scalar::Scalar;
use nse::tensor::Matrix;

#[derive(Clone, Copy, Debug, PartialEq)]
struct F(f32);

impl Scalar for F {
    fn spec_zero() -> F {
        F(0.0)
    }
    fn zero() -> F {
        F(0.0)
    }
    fn spec_highest() -> F {
        F(f32::INFINITY)
    }
    fn highest() -> F {
        F(f32::INFINITY)
    }
    fn spec_lowest() -> F {
        F(f32::NEG_INFINITY)
    }
    fn lowest() -> F {
        F(f32::NEG_INFINITY)
    }
    fn spec_count(n: usize) -> F {
        F(n as f32)
    }
    fn from_count(n: usize) -> F {
        F(n as f32)
    }
    fn spec_code(c: i8) -> F {
        F(c as f32)
    }
    fn from_code(c: i8) -> F {
        F(c as f32)
    }
    fn rounded_spec(self) -> usize {
        self.0.round() as usize
    }
    fn rounded(self) -> usize {
        self.0.round() as usize
    }
    fn floored_spec(self) -> usize {
        self.0.floor() as usize
    }
    fn floored(self) -> usize {
        self.0.floor() as usize
    }
    fn plus_spec(self, other: F) -> F {
        F(self.0 + other.0)
    }
    fn plus(self, other: F) -> F {
        F(self.0 + other.0)
    }
    fn minus_spec(self, other: F) -> F {
        F(self.0 - other.0)
    }
    fn minus(self, other: F) -> F {
        F(self.0 - other.0)
    }
    fn times_spec(self, other: F) -> F {
        F(self.0 * other.0)
    }
    fn times(self, other: F) -> F {
        F(self.0 * other.0)
    }
    fn times_plus_spec(self, other: F, third: F) -> F {
        F(self.0.mul_add(other.0, third.0))
    }
    fn times_plus(self, other: F, third: F) -> F {
        F(self.0.mul_add(other.0, third.0))
    }
    fn over_spec(self, other: F) -> F {
        F(self.0 / other.0)
    }
    fn over(self, other: F) -> F {
        F(self.0 / other.0)
    }
    fn negated_spec(self) -> F {
        F(-self.0)
    }
    fn negated(self) -> F {
        F(-self.0)
    }
    fn magnitude_spec(self) -> F {
        F(self.0.abs())
    }
    fn magnitude(self) -> F {
        F(self.0.abs())
    }
    fn root_spec(self) -> F {
        F(self.0.sqrt())
    }
    fn root(self) -> F {
        F(self.0.sqrt())
    }
    fn exp_spec(self) -> F {
        F(self.0.exp())
    }
    fn exp(self) -> F {
        F(self.0.exp())
    }
    fn ln_spec(self) -> F {
        F(self.0.ln())
    }
    fn ln(self) -> F {
        F(self.0.ln())
    }
    fn log2_spec(self) -> F {
        F(self.0.log2())
    }
    fn log2(self) -> F {
        F(self.0.log2())
    }
    fn tanh_spec(self) -> F {
        F(self.0.tanh())
    }
    fn tanh(self) -> F {
        F(self.0.tanh())
    }
    fn below_spec(self, other: F) -> bool {
        self.0 < other.0
    }
    fn below(self, other: F) -> bool {
        self.0 < other.0
    }
    fn at_most_spec(self, other: F) -> bool {
        self.0 <= other.0
    }
    fn at_most(self, other: F) -> bool {
        self.0 <= other.0
    }
    fn spec_vectorised() -> bool {
        false
    }
    fn vectorised() -> bool {
        false
    }
    fn below_irreflexive(self) {}
    fn below_transitive(self, _other: F, _third: F) {}
    fn lowest_is_least(self, _other: F) {}
    fn word_over_words(_word: u32) {}
}

#[test]
fn without_vector_instructions_the_reference_kernel_runs() {
    let e = 1.0f32 / 4096.0;
    let mut w = vec![F(0.0); 16];
    let mut x = vec![F(0.0); 16];
    w[0] = F(-(1.0 + 2.0 * e));
    x[0] = F(1.0);
    w[8] = F(1.0 + e);
    x[8] = F(1.0 + e);
    let core = Matrix { rows: 1, cols: 16, data: w };
    for kind in [KernelKind::Scalar, KernelKind::Avx2, KernelKind::Auto] {
        let mut y = vec![F(0.0)];
        compute_dense_core_dispatch(&core, &[0], &x, &mut y, kind);
        assert_eq!(y[0], F(0.0));
    }
    assert!(KernelKind::Auto.use_avx2());
    let mut y = vec![F(0.0)];
    compute_dense_core_avx2(&core, &[0], &x, &mut y);
    assert_eq!(y[0], F(e * e));
}
