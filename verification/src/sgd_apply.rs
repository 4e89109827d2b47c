//! Gradient descent with momentum and clipping, shared by the trainers.

use vstd::prelude::*;
use crate::autograd::{grads_fit, stepped, ToyLmGrads};
use crate::scalar::{dot, dot_spec, Scalar};
use crate::tensor::Matrix;
use crate::toy_lm::{gains_fit, has_shape, have_shape, ToyLm, ToyLmWeights};
use crate::transformer::one;

verus! {

/// The sum of the squares of the embedding's gradients and of those of the first `n`
/// layers.
pub open spec fn norm_sq_upto<T: Scalar>(g: ToyLmGrads<T>, n: nat) -> T
    decreases n,
{
    if n == 0 {
        T::spec_zero().plus_spec(dot_spec(g.token_embed.data@, g.token_embed.data@))
    } else {
        let l = n - 1;
        norm_sq_upto(g, (n - 1) as nat).plus_spec(
            dot_spec(g.qkv@[l].data@, g.qkv@[l].data@),
        ).plus_spec(dot_spec(g.attn_out@[l].data@, g.attn_out@[l].data@)).plus_spec(
            dot_spec(g.ff_up@[l].data@, g.ff_up@[l].data@),
        ).plus_spec(dot_spec(g.ff_down@[l].data@, g.ff_down@[l].data@)).plus_spec(
            dot_spec(g.ln1_gain@[l]@, g.ln1_gain@[l]@),
        ).plus_spec(dot_spec(g.ln2_gain@[l]@, g.ln2_gain@[l]@))
    }
}

/// The sum of the squares of all gradients.
pub open spec fn norm_sq_spec<T: Scalar>(g: ToyLmGrads<T>) -> T {
    norm_sq_upto(g, g.qkv@.len()).plus_spec(dot_spec(g.ln_f_gain@, g.ln_f_gain@))
}

/// The sum of the squares of all gradients.
pub fn grad_norm_sq<T: Scalar>(g: &ToyLmGrads<T>) -> (r: T)
    requires
        g.attn_out@.len() == g.qkv@.len(),
        g.ff_up@.len() == g.qkv@.len(),
        g.ff_down@.len() == g.qkv@.len(),
        g.ln1_gain@.len() == g.qkv@.len(),
        g.ln2_gain@.len() == g.qkv@.len(),
    ensures
        r == norm_sq_spec(*g),
{
    let mut s = T::zero().plus(dot(&g.token_embed.data, &g.token_embed.data));
    for l in 0..g.qkv.len()
        invariant
            g.attn_out@.len() == g.qkv@.len(),
            g.ff_up@.len() == g.qkv@.len(),
            g.ff_down@.len() == g.qkv@.len(),
            g.ln1_gain@.len() == g.qkv@.len(),
            g.ln2_gain@.len() == g.qkv@.len(),
            s == norm_sq_upto(*g, l as nat),
    {
        s = s.plus(dot(&g.qkv[l].data, &g.qkv[l].data));
        s = s.plus(dot(&g.attn_out[l].data, &g.attn_out[l].data));
        s = s.plus(dot(&g.ff_up[l].data, &g.ff_up[l].data));
        s = s.plus(dot(&g.ff_down[l].data, &g.ff_down[l].data));
        s = s.plus(dot(&g.ln1_gain[l], &g.ln1_gain[l]));
        s = s.plus(dot(&g.ln2_gain[l], &g.ln2_gain[l]));
    }
    s.plus(dot(&g.ln_f_gain, &g.ln_f_gain))
}

/// The larger of a number and a hundred-millionth.
pub open spec fn floored_norm<T: Scalar>(norm: T) -> T {
    let floor = one::<T>().over_spec(T::spec_count(100000000));
    if floor.below_spec(norm) {
        norm
    } else {
        floor
    }
}

/// What gradients are multiplied by so that their norm does not exceed `max_norm`.
pub open spec fn clip_scale<T: Scalar>(g: ToyLmGrads<T>, max_norm: T) -> T {
    let norm = norm_sq_spec(g).root_spec();
    if max_norm.below_spec(norm) {
        max_norm.over_spec(floored_norm(norm))
    } else {
        one::<T>()
    }
}

/// The velocity after a step: the old one times `momentum`, plus the scaled gradient.
pub open spec fn velocity<T: Scalar>(v: Seq<T>, g: Seq<T>, momentum: T, scale: T) -> Seq<T> {
    Seq::new(
        v.len(),
        |i: int| momentum.times_spec(v[i]).plus_spec(g[i].times_spec(scale)),
    )
}

/// The lengths of a step.
pub struct StepSize<T> {
    pub lr: T,
    pub momentum: T,
    pub scale: T,
}

/// Whether numbers moved: the new velocity is that of the step, and the numbers went
/// against it.
pub open spec fn moved<T: Scalar>(
    w0: Seq<T>,
    v0: Seq<T>,
    g: Seq<T>,
    w1: Seq<T>,
    v1: Seq<T>,
    s: StepSize<T>,
) -> bool {
    v1 == velocity(v0, g, s.momentum, s.scale) && w1 == stepped(w0, v1, s.lr)
}

/// Whether a matrix moved.
pub open spec fn matrix_moved<T: Scalar>(
    w0: Matrix<T>,
    v0: Matrix<T>,
    g: Matrix<T>,
    w1: Matrix<T>,
    v1: Matrix<T>,
    s: StepSize<T>,
) -> bool {
    &&& w1.rows == w0.rows && w1.cols == w0.cols
    &&& v1.rows == v0.rows && v1.cols == v0.cols
    &&& moved(w0.data@, v0.data@, g.data@, w1.data@, v1.data@, s)
}

/// Whether the first `n` matrices moved and the others stayed.
pub open spec fn matrices_moved<T: Scalar>(
    w0: Seq<Matrix<T>>,
    v0: Seq<Matrix<T>>,
    g: Seq<Matrix<T>>,
    w1: Seq<Matrix<T>>,
    v1: Seq<Matrix<T>>,
    s: StepSize<T>,
    n: int,
) -> bool {
    &&& w1.len() == w0.len() && v1.len() == v0.len()
    &&& forall|l: int|
        0 <= l < n ==> matrix_moved(w0[l], v0[l], g[l], #[trigger] w1[l], v1[l], s)
    &&& forall|l: int| n <= l < w0.len() ==> #[trigger] w1[l] == w0[l]
    &&& forall|l: int| n <= l < v0.len() ==> #[trigger] v1[l] == v0[l]
}

/// Whether the first `n` gains moved and the others stayed.
pub open spec fn gains_moved<T: Scalar>(
    w0: Seq<Vec<T>>,
    v0: Seq<Vec<T>>,
    g: Seq<Vec<T>>,
    w1: Seq<Vec<T>>,
    v1: Seq<Vec<T>>,
    s: StepSize<T>,
    n: int,
) -> bool {
    &&& w1.len() == w0.len() && v1.len() == v0.len()
    &&& forall|l: int| 0 <= l < n ==> moved(w0[l]@, v0[l]@, g[l]@, (#[trigger] w1[l])@, v1[l]@, s)
    &&& forall|l: int| n <= l < w0.len() ==> #[trigger] w1[l] == w0[l]
    &&& forall|l: int| n <= l < v0.len() ==> #[trigger] v1[l] == v0[l]
}

/// Whether the weights and velocities of the embedding and of the first `n` layers moved.
pub open spec fn layers_moved<T: Scalar>(
    w0: ToyLmWeights<T>,
    v0: ToyLmGrads<T>,
    g: ToyLmGrads<T>,
    w1: ToyLmWeights<T>,
    v1: ToyLmGrads<T>,
    s: StepSize<T>,
    n: int,
) -> bool {
    &&& matrix_moved(
        w0.token_embed,
        v0.token_embed,
        g.token_embed,
        w1.token_embed,
        v1.token_embed,
        s,
    )
    &&& matrices_moved(w0.qkv@, v0.qkv@, g.qkv@, w1.qkv@, v1.qkv@, s, n)
    &&& matrices_moved(w0.attn_out@, v0.attn_out@, g.attn_out@, w1.attn_out@, v1.attn_out@, s, n)
    &&& matrices_moved(w0.ff_up@, v0.ff_up@, g.ff_up@, w1.ff_up@, v1.ff_up@, s, n)
    &&& matrices_moved(w0.ff_down@, v0.ff_down@, g.ff_down@, w1.ff_down@, v1.ff_down@, s, n)
    &&& gains_moved(w0.ln1_gain@, v0.ln1_gain@, g.ln1_gain@, w1.ln1_gain@, v1.ln1_gain@, s, n)
    &&& gains_moved(w0.ln2_gain@, v0.ln2_gain@, g.ln2_gain@, w1.ln2_gain@, v1.ln2_gain@, s, n)
}

/// Whether a model took a step: all its weights moved with the clipped gradient.
pub open spec fn took_step<T: Scalar>(
    m0: ToyLm<T>,
    v0: ToyLmGrads<T>,
    g: ToyLmGrads<T>,
    m1: ToyLm<T>,
    v1: ToyLmGrads<T>,
    lr: T,
    momentum: T,
    max_grad_norm: T,
) -> bool {
    let s = StepSize { lr, momentum, scale: clip_scale(g, max_grad_norm) };
    &&& m1.config == m0.config
    &&& layers_moved(
        m0.weights,
        v0,
        g,
        m1.weights,
        v1,
        s,
        m0.config.num_layers as int,
    )
    &&& moved(
        m0.weights.ln_f_gain@,
        v0.ln_f_gain@,
        g.ln_f_gain@,
        m1.weights.ln_f_gain@,
        v1.ln_f_gain@,
        s,
    )
}

/// Moves numbers and their velocities.
fn apply<T: Scalar>(w: &mut Vec<T>, g: &Vec<T>, v: &mut Vec<T>, lr: T, momentum: T, scale: T)
    requires
        old(w)@.len() == g@.len(),
        old(v)@.len() == g@.len(),
    ensures
        moved(
            old(w)@,
            old(v)@,
            g@,
            final(w)@,
            final(v)@,
            (StepSize { lr, momentum, scale }),
        ),
{
    let ghost w0 = w@;
    let ghost v0 = v@;
    let ghost goal = velocity(v0, g@, momentum, scale);
    for i in 0..g.len()
        invariant
            w0.len() == g@.len(),
            v0.len() == g@.len(),
            w@.len() == g@.len(),
            v@.len() == g@.len(),
            goal == velocity(v0, g@, momentum, scale),
            forall|j: int| 0 <= j < i ==> v@[j] == goal[j],
            forall|j: int| i <= j < g@.len() ==> v@[j] == v0[j],
            forall|j: int| 0 <= j < i ==> w@[j] == w0[j].minus_spec(lr.times_spec(goal[j])),
            forall|j: int| i <= j < g@.len() ==> w@[j] == w0[j],
    {
        let next = momentum.times(v[i]).plus(g[i].times(scale));
        v[i] = next;
        w[i] = w[i].minus(lr.times(next));
    }
    assert(v@ =~= goal);
    assert(w@ =~= stepped(w0, goal, lr));
}

/// Takes a step: each velocity becomes `momentum` times itself plus the gradient, scaled
/// so that the norm of all gradients does not exceed `max_grad_norm`; each weight goes `lr`
/// times its velocity down.
pub fn apply_step<T: Scalar>(
    model: &mut ToyLm<T>,
    grads: &ToyLmGrads<T>,
    vel: &mut ToyLmGrads<T>,
    lr: T,
    momentum: T,
    max_grad_norm: T,
)
    requires
        old(model).wf(),
        grads_fit(*grads, old(model).config),
        grads_fit(*old(vel), old(model).config),
    ensures
        took_step(
            *old(model),
            *old(vel),
            *grads,
            *final(model),
            *final(vel),
            lr,
            momentum,
            max_grad_norm,
        ),
        final(model).wf(),
        grads_fit(*final(vel), final(model).config),
{
    let ghost m0 = *model;
    let ghost v0 = *vel;
    let norm = grad_norm_sq(grads).root();
    let scale = if max_grad_norm.below(norm) {
        let floor = T::from_count(1).over(T::from_count(100000000));
        max_grad_norm.over(
            if floor.below(norm) {
                norm
            } else {
                floor
            },
        )
    } else {
        T::from_count(1)
    };
    let ghost s = StepSize { lr, momentum, scale };
    let n: usize = model.config.num_layers;
    apply(
        &mut model.weights.token_embed.data,
        &grads.token_embed.data,
        &mut vel.token_embed.data,
        lr,
        momentum,
        scale,
    );
    for l in 0..n
        invariant
            n == m0.config.num_layers,
            s == (StepSize { lr, momentum, scale }),
            m0.wf(),
            grads_fit(*grads, m0.config),
            grads_fit(v0, m0.config),
            model.config == m0.config,
            model.weights.ln_f_gain == m0.weights.ln_f_gain,
            vel.ln_f_gain == v0.ln_f_gain,
            layers_moved(m0.weights, v0, *grads, model.weights, *vel, s, l as int),
    {
        proof {
            let c = m0.config;
            let li = l as int;
            lemma_same_len(m0.weights.qkv@[li], v0.qkv@[li], grads.qkv@[li]);
            lemma_same_len(m0.weights.attn_out@[li], v0.attn_out@[li], grads.attn_out@[li]);
            lemma_same_len(m0.weights.ff_up@[li], v0.ff_up@[li], grads.ff_up@[li]);
            lemma_same_len(m0.weights.ff_down@[li], v0.ff_down@[li], grads.ff_down@[li]);
            assert(m0.weights.ln1_gain@[li]@.len() == grads.ln1_gain@[li]@.len());
            assert(v0.ln1_gain@[li]@.len() == grads.ln1_gain@[li]@.len());
            assert(m0.weights.ln2_gain@[li]@.len() == grads.ln2_gain@[li]@.len());
            assert(v0.ln2_gain@[li]@.len() == grads.ln2_gain@[li]@.len());
        }
        apply(
            &mut model.weights.qkv[l].data,
            &grads.qkv[l].data,
            &mut vel.qkv[l].data,
            lr,
            momentum,
            scale,
        );
        apply(
            &mut model.weights.attn_out[l].data,
            &grads.attn_out[l].data,
            &mut vel.attn_out[l].data,
            lr,
            momentum,
            scale,
        );
        apply(
            &mut model.weights.ff_up[l].data,
            &grads.ff_up[l].data,
            &mut vel.ff_up[l].data,
            lr,
            momentum,
            scale,
        );
        apply(
            &mut model.weights.ff_down[l].data,
            &grads.ff_down[l].data,
            &mut vel.ff_down[l].data,
            lr,
            momentum,
            scale,
        );
        apply(
            &mut model.weights.ln1_gain[l],
            &grads.ln1_gain[l],
            &mut vel.ln1_gain[l],
            lr,
            momentum,
            scale,
        );
        apply(
            &mut model.weights.ln2_gain[l],
            &grads.ln2_gain[l],
            &mut vel.ln2_gain[l],
            lr,
            momentum,
            scale,
        );
    }
    apply(
        &mut model.weights.ln_f_gain,
        &grads.ln_f_gain,
        &mut vel.ln_f_gain,
        lr,
        momentum,
        scale,
    );
    proof {
        law_step_keeps_shape(m0, v0, *grads, *model, *vel, lr, momentum, max_grad_norm);
    }
}

proof fn lemma_same_len<T>(w: Matrix<T>, v: Matrix<T>, g: Matrix<T>)
    requires
        w.wf(),
        v.wf(),
        g.wf(),
        w.rows == v.rows == g.rows,
        w.cols == v.cols == g.cols,
    ensures
        w.data@.len() == g.data@.len(),
        v.data@.len() == g.data@.len(),
{
}

/// A step keeps the shapes of the weights and of the velocities.
pub proof fn law_step_keeps_shape<T: Scalar>(
    m0: ToyLm<T>,
    v0: ToyLmGrads<T>,
    g: ToyLmGrads<T>,
    m1: ToyLm<T>,
    v1: ToyLmGrads<T>,
    lr: T,
    momentum: T,
    max_grad_norm: T,
)
    requires
        m0.wf(),
        grads_fit(v0, m0.config),
        took_step(m0, v0, g, m1, v1, lr, momentum, max_grad_norm),
    ensures
        m1.wf(),
        m1.config == m0.config,
        grads_fit(v1, m1.config),
{
    let c = m0.config;
    let n = c.num_layers as int;
    let d = c.dim as int;
    let f = c.ff_dim as int;
    let s = StepSize { lr, momentum, scale: clip_scale(g, max_grad_norm) };
    lemma_matrices_keep(m0.weights.qkv@, v0.qkv@, g.qkv@, m1.weights.qkv@, v1.qkv@, s, n, 3 * d, d);
    lemma_matrices_keep(
        m0.weights.attn_out@,
        v0.attn_out@,
        g.attn_out@,
        m1.weights.attn_out@,
        v1.attn_out@,
        s,
        n,
        d,
        d,
    );
    lemma_matrices_keep(m0.weights.ff_up@, v0.ff_up@, g.ff_up@, m1.weights.ff_up@, v1.ff_up@, s, n, f, d);
    lemma_matrices_keep(
        m0.weights.ff_down@,
        v0.ff_down@,
        g.ff_down@,
        m1.weights.ff_down@,
        v1.ff_down@,
        s,
        n,
        d,
        f,
    );
    lemma_gains_keep(
        m0.weights.ln1_gain@,
        v0.ln1_gain@,
        g.ln1_gain@,
        m1.weights.ln1_gain@,
        v1.ln1_gain@,
        s,
        n,
        d,
    );
    lemma_gains_keep(
        m0.weights.ln2_gain@,
        v0.ln2_gain@,
        g.ln2_gain@,
        m1.weights.ln2_gain@,
        v1.ln2_gain@,
        s,
        n,
        d,
    );
}

proof fn lemma_matrices_keep<T: Scalar>(
    w0: Seq<Matrix<T>>,
    v0: Seq<Matrix<T>>,
    g: Seq<Matrix<T>>,
    w1: Seq<Matrix<T>>,
    v1: Seq<Matrix<T>>,
    s: StepSize<T>,
    n: int,
    rows: int,
    cols: int,
)
    requires
        have_shape(w0, n, rows, cols),
        have_shape(v0, n, rows, cols),
        matrices_moved(w0, v0, g, w1, v1, s, n),
    ensures
        have_shape(w1, n, rows, cols),
        have_shape(v1, n, rows, cols),
{
    assert forall|l: int| 0 <= l < n implies has_shape(#[trigger] w1[l], rows, cols) by {
        assert(has_shape(w0[l], rows, cols));
        assert(matrix_moved(w0[l], v0[l], g[l], w1[l], v1[l], s));
    }
    assert forall|l: int| 0 <= l < n implies has_shape(#[trigger] v1[l], rows, cols) by {
        assert(has_shape(v0[l], rows, cols));
        assert(matrix_moved(w0[l], v0[l], g[l], w1[l], v1[l], s));
    }
}

proof fn lemma_gains_keep<T: Scalar>(
    w0: Seq<Vec<T>>,
    v0: Seq<Vec<T>>,
    g: Seq<Vec<T>>,
    w1: Seq<Vec<T>>,
    v1: Seq<Vec<T>>,
    s: StepSize<T>,
    n: int,
    dim: int,
)
    requires
        gains_fit(w0, n, dim),
        gains_fit(v0, n, dim),
        gains_moved(w0, v0, g, w1, v1, s, n),
    ensures
        gains_fit(w1, n, dim),
        gains_fit(v1, n, dim),
{
    assert forall|l: int| 0 <= l < n implies (#[trigger] w1[l])@.len() == dim by {
        assert(w0[l]@.len() == dim);
        assert(moved(w0[l]@, v0[l]@, g[l]@, w1[l]@, v1[l]@, s));
    }
    assert forall|l: int| 0 <= l < n implies (#[trigger] v1[l])@.len() == dim by {
        assert(v0[l]@.len() == dim);
        assert(moved(w0[l]@, v0[l]@, g[l]@, w1[l]@, v1[l]@, s));
    }
}

} // verus!
