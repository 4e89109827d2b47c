//! Perplexity: the exponential of the mean negated log-probability of the next token.

use vstd::prelude::*;
use crate::autograd::{compute_probs, floored_prob, least_prob, loss_upto, mean_loss, prob_row};
use crate::config::Config;
use crate::options::{default_options, IndexKind, SparseOptions};
use crate::scalar::{sum_of, Scalar};
use crate::sparse::TransmutedModel;
use crate::sparse_forward::{
    lemma_retrieval_run_len, lemma_sparse_run_len, memories_stored, model_runs, retrieval_run,
    sparse_forward_hopfield_with_options, sparse_forward_with_options, sparse_run, Activation,
};
use crate::tensor::copy_range;
use crate::toy_lm::{can_retrieve, can_run, hopfield_logits_spec, logits_spec, ToyLm};
use crate::trainer::{targets_known, window};
use crate::transformer::{applied_rows, holds_rows, lemma_rows_read, norm_rows, row_at, rows_of};

verus! {

/// The perplexity for log-probabilities.
pub open spec fn perplexity_spec<T: Scalar>(logprobs: Seq<T>) -> T {
    if logprobs.len() == 0 {
        T::spec_highest()
    } else {
        sum_of(logprobs, logprobs.len()).over_spec(
            T::spec_count(logprobs.len() as usize),
        ).negated_spec().exp_spec()
    }
}

/// The perplexity for the natural logarithms of probabilities: infinite if there are none.
pub fn perplexity_from_logprobs<T: Scalar>(logprobs: &[T]) -> (r: T)
    ensures
        r == perplexity_spec(logprobs@),
{
    if logprobs.len() == 0 {
        return T::highest();
    }
    let mut sum = T::zero();
    for i in 0..logprobs.len()
        invariant
            sum == sum_of(logprobs@, i as nat),
    {
        sum = sum.plus(logprobs[i]);
    }
    sum.over(T::from_count(logprobs.len())).negated().exp()
}

/// The natural logarithms of the probabilities of the targets.
pub open spec fn logprobs_spec<T: Scalar>(rows: Seq<Seq<T>>, targets: Seq<u32>) -> Seq<T> {
    Seq::new(
        rows.len(),
        |t: int| floored_prob(prob_row(rows[t])[targets[t] as int]).ln_spec(),
    )
}

/// The natural logarithms of the probabilities of the targets, from the scores in rows of
/// `vocab`. Probabilities below the least one count as that.
pub fn logprobs<T: Scalar>(logits: &[T], targets: &[u32], vocab: usize) -> (r: Vec<T>)
    requires
        targets@.len() * vocab <= logits@.len(),
        forall|t: int| 0 <= t < targets@.len() ==> (#[trigger] targets@[t]) < vocab,
    ensures
        r@ == logprobs_spec(rows_of(logits@, targets@.len(), vocab as nat), targets@),
{
    let ghost rows = rows_of(logits@, targets@.len(), vocab as nat);
    let ghost goal = logprobs_spec(rows, targets@);
    let million = T::from_count(1000000);
    let least = T::from_count(1).over(million).over(million);
    let mut out: Vec<T> = Vec::with_capacity(targets.len());
    for t in 0..targets.len()
        invariant
            targets@.len() * vocab <= logits@.len(),
            forall|i: int| 0 <= i < targets@.len() ==> (#[trigger] targets@[i]) < vocab,
            rows == rows_of(logits@, targets@.len(), vocab as nat),
            goal == logprobs_spec(rows, targets@),
            least == least_prob::<T>(),
            out@ == goal.take(t as int),
    {
        let row = row_at(logits, vocab, t, Ghost(targets@.len() as int));
        assert(targets@[t as int] < vocab);
        let probs = compute_probs(row);
        let p = probs[targets[t] as usize];
        let safe = if least.at_most(p) {
            p
        } else {
            least
        };
        out.push(safe.ln());
        assert(out@ =~= goal.take(t + 1));
    }
    assert(out@ =~= goal);
    out
}

/// The mean negated log-probability of the targets, from the scores in rows of `v`.
pub fn mean_ce<T: Scalar>(logits: &Vec<T>, seq: usize, v: usize, targets: &[u32]) -> (r: T)
    requires
        logits@.len() == seq * v,
        targets@.len() >= seq,
        forall|t: int| 0 <= t < seq ==> (#[trigger] targets@[t]) < v,
    ensures
        r == mean_loss(rows_of(logits@, seq as nat, v as nat), targets@),
{
    let ghost rows = rows_of(logits@, seq as nat, v as nat);
    let million = T::from_count(1000000);
    let least = T::from_count(1).over(million).over(million);
    let mut loss = T::zero();
    for t in 0..seq
        invariant
            logits@.len() == seq * v,
            targets@.len() >= seq,
            forall|i: int| 0 <= i < seq ==> (#[trigger] targets@[i]) < v,
            rows == rows_of(logits@, seq as nat, v as nat),
            least == least_prob::<T>(),
            loss == loss_upto(rows, targets@, t as nat),
    {
        let row = row_at(logits, v, t, Ghost(seq as int));
        assert(targets@[t as int] < v);
        let probs = compute_probs(row);
        let p = probs[targets[t] as usize];
        let safe = if least.at_most(p) {
            p
        } else {
            least
        };
        loss = loss.minus(safe.ln());
    }
    loss.over(T::from_count(seq))
}

/// Which rule the feed-forward blocks follow.
#[derive(Debug, Clone, Copy)]
pub enum Forward<T> {
    /// The standard one.
    Gelu,
    /// Retrieval from an associative memory, with the given sharpness.
    Hopfield(T),
}

/// Whether a forward pass under a rule can run.
pub open spec fn can_follow<T>(c: Config, len: nat, fwd: Forward<T>) -> bool {
    match fwd {
        Forward::Gelu => can_run(c, len),
        Forward::Hopfield(_) => can_retrieve(c, len),
    }
}

/// The scores of a dense model under a rule.
pub open spec fn dense_logits<T: Scalar>(lm: ToyLm<T>, fwd: Forward<T>, tokens: Seq<u32>) -> Seq<Seq<T>> {
    match fwd {
        Forward::Gelu => logits_spec(lm, tokens),
        Forward::Hopfield(beta) => hopfield_logits_spec(lm, tokens, beta),
    }
}

/// The number of windows of `seq` tokens with a successor for each token and one more token
/// behind them, none if there are too few tokens.
pub open spec fn eval_windows(n: int, seq: int) -> int {
    if n > seq + 1 {
        n - (seq + 1)
    } else {
        0
    }
}

/// The perplexity for the mean losses of windows: infinite if there are none.
pub open spec fn ppl_of<T: Scalar>(losses: Seq<T>) -> T {
    if losses.len() == 0 {
        T::spec_highest()
    } else {
        sum_of(losses, losses.len()).over_spec(T::spec_count(losses.len() as usize)).exp_spec()
    }
}

/// The mean loss of a dense model over each window.
pub open spec fn dense_losses<T: Scalar>(
    lm: ToyLm<T>,
    fwd: Forward<T>,
    ids: Seq<u32>,
    seq: int,
) -> Seq<T> {
    Seq::new(
        eval_windows(ids.len() as int, seq) as nat,
        |s: int| mean_loss(dense_logits(lm, fwd, window(ids, s, seq)), window(ids, s + 1, seq)),
    )
}

/// How many windows there are.
fn count_windows(n: usize, seq: usize) -> (r: usize)
    ensures
        r == eval_windows(n as int, seq as int),
{
    if n <= seq {
        0
    } else {
        n - seq - 1
    }
}

/// The exponential of the mean of the losses.
fn finish<T: Scalar>(total: T, count: usize, Ghost(losses): Ghost<Seq<T>>) -> (r: T)
    requires
        count == losses.len(),
        total == sum_of(losses, losses.len()),
    ensures
        r == ppl_of(losses),
{
    if count == 0 {
        T::highest()
    } else {
        total.over(T::from_count(count)).exp()
    }
}

/// The perplexity of a dense model over all windows of `seq` tokens.
pub fn window_ppl<T: Scalar>(lm: &ToyLm<T>, ids: &[u32], seq: usize, fwd: Forward<T>) -> (r: T)
    requires
        lm.wf(),
        can_follow(lm.config, seq as nat, fwd),
        targets_known(ids@, seq as int, lm.config.vocab_size as int),
    ensures
        r == ppl_of(dense_losses(*lm, fwd, ids@, seq as int)),
{
    let ghost losses = dense_losses(*lm, fwd, ids@, seq as int);
    let n: usize = ids.len();
    let windows: usize = count_windows(n, seq);
    let v: usize = lm.config.vocab_size;
    let mut total = T::zero();
    for start in 0..windows
        invariant
            lm.wf(),
            v == lm.config.vocab_size,
            can_follow(lm.config, seq as nat, fwd),
            targets_known(ids@, seq as int, lm.config.vocab_size as int),
            n == ids@.len(),
            windows == eval_windows(n as int, seq as int),
            losses == dense_losses(*lm, fwd, ids@, seq as int),
            total == sum_of(losses, start as nat),
    {
        let tokens = copy_range(ids, start, start + seq);
        let targets = copy_range(ids, start + 1, start + 1 + seq);
        let logits = match fwd {
            Forward::Gelu => lm.forward(&tokens),
            Forward::Hopfield(beta) => lm.forward_hopfield(&tokens, beta),
        };
        proof {
            let rows = dense_logits(*lm, fwd, tokens@);
            lemma_rows_read(logits@, v as nat, rows);
            lemma_logits_len(*lm, fwd, tokens@);
            assert forall|t: int| 0 <= t < seq implies (#[trigger] targets@[t]) < v by {
                assert(targets@[t] == ids@[start + 1 + t]);
            }
            assert(losses[start as int] == mean_loss(rows, targets@));
        }
        total = total.plus(mean_ce(&logits, seq, v, &targets));
    }
    finish(total, windows, Ghost(losses))
}

proof fn lemma_logits_len<T: Scalar>(lm: ToyLm<T>, fwd: Forward<T>, tokens: Seq<u32>)
    ensures
        dense_logits(lm, fwd, tokens).len() == tokens.len(),
{
    match fwd {
        Forward::Gelu => {
            crate::autograd::lemma_hidden_len(
                lm.weights,
                lm.config,
                tokens,
                lm.config.num_layers as nat,
            );
        },
        Forward::Hopfield(beta) => {
            lemma_hopfield_len(lm, tokens, beta, lm.config.num_layers as nat);
        },
    }
}

proof fn lemma_hopfield_len<T: Scalar>(lm: ToyLm<T>, tokens: Seq<u32>, beta: T, l: nat)
    ensures
        crate::toy_lm::hidden_hopfield(lm.weights, lm.config, tokens, beta, l).len()
            == tokens.len(),
    decreases l,
{
    if l > 0 {
        lemma_hopfield_len(lm, tokens, beta, (l - 1) as nat);
    }
}

/// The perplexity of a dense model under the standard rule.
pub fn dense_ppl<T: Scalar>(lm: &ToyLm<T>, ids: &[u32], seq_len: usize) -> (r: T)
    requires
        lm.wf(),
        can_run(lm.config, seq_len as nat),
        targets_known(ids@, seq_len as int, lm.config.vocab_size as int),
    ensures
        r == ppl_of(dense_losses(*lm, Forward::Gelu, ids@, seq_len as int)),
{
    window_ppl(lm, ids, seq_len, Forward::Gelu)
}

/// The perplexity of a dense model with retrieval.
pub fn dense_ppl_hopfield<T: Scalar>(lm: &ToyLm<T>, ids: &[u32], seq_len: usize, beta: T) -> (r: T)
    requires
        lm.wf(),
        can_retrieve(lm.config, seq_len as nat),
        targets_known(ids@, seq_len as int, lm.config.vocab_size as int),
    ensures
        r == ppl_of(dense_losses(*lm, Forward::Hopfield(beta), ids@, seq_len as int)),
{
    window_ppl(lm, ids, seq_len, Forward::Hopfield(beta))
}

/// Whether a transmuted model can give the scores `rows` for the tokens.
pub open spec fn sparse_logits<T: Scalar>(
    tm: TransmutedModel<T>,
    fwd: Forward<T>,
    act: Activation<T>,
    opts: SparseOptions,
    tokens: Seq<u32>,
    rows: Seq<Seq<T>>,
) -> bool {
    exists|states: Seq<Seq<Seq<T>>>|
        (match fwd {
            Forward::Gelu => sparse_run(tm, act, opts, tokens, states),
            Forward::Hopfield(beta) => retrieval_run(tm, act, opts, beta, tokens, states),
        }) && rows == #[trigger] applied_rows(
            tm.token_embed,
            norm_rows(states.last(), tm.ln_f_gain@),
        )
}

/// Whether a transmuted model can have the given mean loss over window `s`.
pub open spec fn sparse_loss<T: Scalar>(
    tm: TransmutedModel<T>,
    fwd: Forward<T>,
    act: Activation<T>,
    opts: SparseOptions,
    ids: Seq<u32>,
    seq: int,
    s: int,
    loss: T,
) -> bool {
    exists|rows: Seq<Seq<T>>| #[trigger]
        sparse_logits(tm, fwd, act, opts, window(ids, s, seq), rows) && loss == mean_loss(
            rows,
            window(ids, s + 1, seq),
        )
}

/// Whether a transmuted model can have the given mean losses over the windows.
pub open spec fn sparse_losses<T: Scalar>(
    tm: TransmutedModel<T>,
    fwd: Forward<T>,
    act: Activation<T>,
    opts: SparseOptions,
    ids: Seq<u32>,
    seq: int,
    losses: Seq<T>,
) -> bool {
    &&& losses.len() == eval_windows(ids.len() as int, seq)
    &&& forall|s: int|
        0 <= s < losses.len() ==> sparse_loss(tm, fwd, act, opts, ids, seq, s, #[trigger] losses[s])
}

/// Whether a transmuted model can have the given perplexity.
pub open spec fn is_sparse_ppl<T: Scalar>(
    tm: TransmutedModel<T>,
    fwd: Forward<T>,
    act: Activation<T>,
    opts: SparseOptions,
    ids: Seq<u32>,
    seq: int,
    ppl: T,
) -> bool {
    exists|losses: Seq<T>| #[trigger]
        sparse_losses(tm, fwd, act, opts, ids, seq, losses) && ppl == ppl_of(losses)
}

/// The scores of a transmuted model for the tokens.
fn run_sparse<T: Scalar>(
    tm: &TransmutedModel<T>,
    fwd: Forward<T>,
    tokens: &[u32],
    act: Activation<T>,
    opts: SparseOptions,
) -> (r: (Vec<T>, Ghost<Seq<Seq<T>>>))
    requires
        model_runs(*tm, opts.index),
        fwd is Hopfield ==> memories_stored(*tm),
        tm.config.vocab_size > 0 || tokens@.len() == 0,
    ensures
        holds_rows(r.0@, tm.config.vocab_size as nat, r.1@),
        r.0@.len() == tokens@.len() * tm.config.vocab_size,
        sparse_logits(*tm, fwd, act, opts, tokens@, r.1@),
        r.1@.len() == tokens@.len(),
{
    match fwd {
        Forward::Gelu => {
            let logits = sparse_forward_with_options(tm, tokens, act, opts);
            let ghost states = choose|states: Seq<Seq<Seq<T>>>| #[trigger]
                sparse_run(*tm, act, opts, tokens@, states) && holds_rows(
                    logits@,
                    tm.config.vocab_size as nat,
                    applied_rows(tm.token_embed, norm_rows(states.last(), tm.ln_f_gain@)),
                );
            let ghost rows = applied_rows(
                tm.token_embed,
                norm_rows(states.last(), tm.ln_f_gain@),
            );
            proof {
                lemma_sparse_run_len(
                    *tm,
                    act,
                    opts,
                    tokens@,
                    states,
                    states.len() - 1,
                );
            }
            (logits, Ghost(rows))
        },
        Forward::Hopfield(beta) => {
            let logits = sparse_forward_hopfield_with_options(tm, tokens, beta, act, opts);
            let ghost states = choose|states: Seq<Seq<Seq<T>>>| #[trigger]
                retrieval_run(*tm, act, opts, beta, tokens@, states) && holds_rows(
                    logits@,
                    tm.config.vocab_size as nat,
                    applied_rows(tm.token_embed, norm_rows(states.last(), tm.ln_f_gain@)),
                );
            let ghost rows = applied_rows(
                tm.token_embed,
                norm_rows(states.last(), tm.ln_f_gain@),
            );
            proof {
                lemma_retrieval_run_len(
                    *tm,
                    act,
                    opts,
                    beta,
                    tokens@,
                    states,
                    states.len() - 1,
                );
            }
            (logits, Ghost(rows))
        },
    }
}

/// The perplexity of a transmuted model over all windows of `seq` tokens.
pub fn sparse_window_ppl<T: Scalar>(
    tm: &TransmutedModel<T>,
    fwd: Forward<T>,
    ids: &[u32],
    seq: usize,
    act: Activation<T>,
    opts: SparseOptions,
) -> (r: T)
    requires
        model_runs(*tm, opts.index),
        fwd is Hopfield ==> memories_stored(*tm),
        targets_known(ids@, seq as int, tm.config.vocab_size as int),
    ensures
        is_sparse_ppl(*tm, fwd, act, opts, ids@, seq as int, r),
{
    let n: usize = ids.len();
    let windows: usize = count_windows(n, seq);
    let v: usize = tm.config.vocab_size;
    let mut total = T::zero();
    let ghost mut losses: Seq<T> = Seq::empty();
    for start in 0..windows
        invariant
            v == tm.config.vocab_size,
            model_runs(*tm, opts.index),
            fwd is Hopfield ==> memories_stored(*tm),
            targets_known(ids@, seq as int, tm.config.vocab_size as int),
            n == ids@.len(),
            windows == eval_windows(n as int, seq as int),
            losses.len() == start,
            forall|s: int|
                0 <= s < losses.len() ==> sparse_loss(
                    *tm,
                    fwd,
                    act,
                    opts,
                    ids@,
                    seq as int,
                    s,
                    #[trigger] losses[s],
                ),
            total == sum_of(losses, start as nat),
    {
        let tokens = copy_range(ids, start, start + seq);
        let targets = copy_range(ids, start + 1, start + 1 + seq);
        proof {
            if seq > 0 {
                assert(ids@[start + 1] < v);
            }
        }
        let (logits, Ghost(rows)) = run_sparse(tm, fwd, &tokens, act, opts);
        proof {
            lemma_rows_read(logits@, v as nat, rows);
            assert forall|t: int| 0 <= t < seq implies (#[trigger] targets@[t]) < v by {
                assert(targets@[t] == ids@[start + 1 + t]);
            }
        }
        let loss = mean_ce(&logits, seq, v, &targets);
        total = total.plus(loss);
        proof {
            assert(sparse_logits(
                *tm,
                fwd,
                act,
                opts,
                window(ids@, start as int, seq as int),
                rows,
            ));
            let before = losses;
            losses = before.push(loss);
            lemma_sum_prefix(before, losses, start as nat);
            assert forall|s: int| 0 <= s < losses.len() implies sparse_loss(
                *tm,
                fwd,
                act,
                opts,
                ids@,
                seq as int,
                s,
                #[trigger] losses[s],
            ) by {
                if s < start {
                    assert(losses[s] == before[s]);
                }
            }
        }
    }
    proof {
        assert(sparse_losses(*tm, fwd, act, opts, ids@, seq as int, losses));
    }
    finish(total, windows, Ghost(losses))
}

proof fn lemma_sum_prefix<T: Scalar>(a: Seq<T>, b: Seq<T>, n: nat)
    requires
        n <= a.len(),
        n <= b.len(),
        forall|i: int| 0 <= i < n ==> a[i] == b[i],
    ensures
        sum_of(a, n) == sum_of(b, n),
    decreases n,
{
    if n > 0 {
        lemma_sum_prefix(a, b, (n - 1) as nat);
    }
}

/// The perplexity of a transmuted model under the standard rule, with the given options.
pub fn sparse_ppl_with_options<T: Scalar>(
    tm: &TransmutedModel<T>,
    ids: &[u32],
    seq_len: usize,
    act: Activation<T>,
    opts: SparseOptions,
) -> (r: T)
    requires
        model_runs(*tm, opts.index),
        targets_known(ids@, seq_len as int, tm.config.vocab_size as int),
    ensures
        is_sparse_ppl(*tm, Forward::Gelu, act, opts, ids@, seq_len as int, r),
{
    sparse_window_ppl(tm, Forward::Gelu, ids, seq_len, act, opts)
}

/// The perplexity of a transmuted model under the standard rule.
pub fn sparse_ppl<T: Scalar>(
    tm: &TransmutedModel<T>,
    ids: &[u32],
    seq_len: usize,
    act: Activation<T>,
) -> (r: T)
    requires
        model_runs(*tm, IndexKind::Brute),
        targets_known(ids@, seq_len as int, tm.config.vocab_size as int),
    ensures
        is_sparse_ppl(*tm, Forward::Gelu, act, default_options(), ids@, seq_len as int, r),
{
    sparse_ppl_with_options(tm, ids, seq_len, act, SparseOptions::default())
}

/// The perplexity of a transmuted model with retrieval, with the given options.
pub fn sparse_ppl_hopfield_with_options<T: Scalar>(
    tm: &TransmutedModel<T>,
    ids: &[u32],
    seq_len: usize,
    beta: T,
    act: Activation<T>,
    opts: SparseOptions,
) -> (r: T)
    requires
        model_runs(*tm, opts.index),
        memories_stored(*tm),
        targets_known(ids@, seq_len as int, tm.config.vocab_size as int),
    ensures
        is_sparse_ppl(*tm, Forward::Hopfield(beta), act, opts, ids@, seq_len as int, r),
{
    sparse_window_ppl(tm, Forward::Hopfield(beta), ids, seq_len, act, opts)
}

/// The perplexity of a transmuted model with retrieval.
pub fn sparse_ppl_hopfield<T: Scalar>(
    tm: &TransmutedModel<T>,
    ids: &[u32],
    seq_len: usize,
    beta: T,
    act: Activation<T>,
) -> (r: T)
    requires
        model_runs(*tm, IndexKind::Brute),
        memories_stored(*tm),
        targets_known(ids@, seq_len as int, tm.config.vocab_size as int),
    ensures
        is_sparse_ppl(
            *tm,
            Forward::Hopfield(beta),
            act,
            default_options(),
            ids@,
            seq_len as int,
            r,
        ),
{
    sparse_ppl_hopfield_with_options(tm, ids, seq_len, beta, act, SparseOptions::default())
}

/// The perplexity is taken over all windows of `seq` tokens that have another token behind their
/// successors: the loss of each is that of the scores for its tokens, with the tokens one place
/// later as targets.
pub proof fn law_losses_of_windows<T: Scalar>(
    lm: ToyLm<T>,
    fwd: Forward<T>,
    ids: Seq<u32>,
    seq: int,
    s: int,
    tokens: Seq<u32>,
    targets: Seq<u32>,
)
    requires
        0 <= seq,
        seq + 1 < ids.len(),
        0 <= s < ids.len() - seq - 1,
        tokens.len() == seq,
        targets.len() == seq,
        forall|i: int| 0 <= i < seq ==> tokens[i] == ids[s + i],
        forall|i: int| 0 <= i < seq ==> targets[i] == ids[s + i + 1],
    ensures
        dense_losses(lm, fwd, ids, seq).len() == ids.len() - seq - 1,
        fwd is Gelu ==> dense_losses(lm, fwd, ids, seq)[s] == mean_loss(
            logits_spec(lm, tokens),
            targets,
        ),
        fwd matches Forward::Hopfield(beta) ==> dense_losses(lm, fwd, ids, seq)[s] == mean_loss(
            hopfield_logits_spec(lm, tokens, beta),
            targets,
        ),
{
    assert(window(ids, s, seq) =~= tokens);
    assert(window(ids, s + 1, seq) =~= targets);
}

} // verus!
