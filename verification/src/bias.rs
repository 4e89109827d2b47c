//! The bias that stands in for experts that are not activated.
//!
//! A layer says by its fields how its bias is applied: to every row, if it has no
//! row-to-expert map; to the rows of pruned experts, if it has one; and from a table
//! that is looked up with the code of the input, if it has that table as well.

use vstd::prelude::*;
use crate::kernel::{apply_bias, biased, is_pruned, pruned};
use crate::pq::{encode_pq, encoded};
use crate::scalar::Scalar;
use crate::sparse::{PqCodebook, SparseLayer};

verus! {

/// Adds a bias to every output row.
pub fn apply<T: Scalar>(layer_bias: &[T], output: &mut [T])
    ensures
        final(output)@ == biased(layer_bias@, old(output)@),
{
    apply_bias(layer_bias, output);
}

/// Adds a layer's bias to every output row.
pub fn apply_layer<T: Scalar>(sl: &SparseLayer<T>, output: &mut [T])
    ensures
        final(output)@ == biased(sl.bias@, old(output)@),
{
    apply_bias(&sl.bias, output);
}

/// `y` with the bias for inputs of code `c` added to the rows of pruned experts.
pub open spec fn biased_adaptive<T: Scalar>(
    bias_table: Seq<T>,
    y: Seq<T>,
    row_to_expert: Seq<i32>,
    activated: Seq<bool>,
    c: int,
    out_dim: int,
) -> Seq<T> {
    Seq::new(
        y.len(),
        |i: int|
            if pruned(row_to_expert, activated, i) && i < out_dim && c * out_dim + i
                < bias_table.len() {
                y[i].plus_spec(bias_table[c * out_dim + i])
            } else {
                y[i]
            },
    )
}

/// Encodes the input against the codebook of one sub-vector, and adds the bias of
/// its code to the rows of pruned experts. Core rows and the rows of activated
/// experts get none. Always returns `true`: the bias is dealt with.
pub fn apply_adaptive<T: Scalar>(
    bias_table: &[T],
    output: &mut [T],
    row_to_expert: &[i32],
    activated_set: &[bool],
    x: &[T],
    input_codebook: &PqCodebook<T>,
    out_dim: usize,
) -> (r: bool)
    requires
        input_codebook.wf(),
        input_codebook.num_sub_vectors >= 1,
        x@.len() == input_codebook.num_sub_vectors * input_codebook.sub_dim,
        256 * out_dim <= usize::MAX,
    ensures
        r,
        final(output)@ == biased_adaptive(
            bias_table@,
            old(output)@,
            row_to_expert@,
            activated_set@,
            encoded(x@, *input_codebook)[0] as int,
            out_dim as int,
        ),
{
    let codes = encode_pq(x, input_codebook);
    let c: usize = codes[0] as usize;
    assert(c * out_dim + out_dim <= 256 * out_dim) by (nonlinear_arith)
        requires
            c <= 255,
            0 <= out_dim,
    ;
    assert(0 <= c * out_dim) by (nonlinear_arith);
    let base: usize = c * out_dim;
    let m: usize = if row_to_expert.len() < output.len() {
        row_to_expert.len()
    } else {
        output.len()
    };
    let n: usize = if m < out_dim {
        m
    } else {
        out_dim
    };
    let ghost y0 = output@;
    let ghost goal = biased_adaptive(
        bias_table@,
        y0,
        row_to_expert@,
        activated_set@,
        c as int,
        out_dim as int,
    );
    for i in 0..n
        invariant
            n <= row_to_expert@.len(),
            n <= y0.len(),
            n <= out_dim,
            base == c * out_dim,
            base + out_dim <= usize::MAX,
            goal == biased_adaptive(
                bias_table@,
                y0,
                row_to_expert@,
                activated_set@,
                c as int,
                out_dim as int,
            ),
            output@.len() == y0.len(),
            forall|j: int| 0 <= j < i ==> output@[j] == goal[j],
            forall|j: int| i <= j < y0.len() ==> output@[j] == y0[j],
    {
        let off: usize = base + i;
        if off < bias_table.len() && is_pruned(row_to_expert, activated_set, i) {
            output[i] = output[i].plus(bias_table[off]);
        }
    }
    assert(output@ =~= goal);
    true
}

} // verus!
