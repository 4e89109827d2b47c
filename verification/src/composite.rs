//! Training in phases: gradient descent to begin with, writes into the associative memory,
//! forward-forward training, and sparse gradient descent. Each phase starts afresh and is
//! left out where its count is zero.

use vstd::prelude::*;
use crate::error::NseResult;
use crate::forward_forward::{ForwardForwardConfig, ForwardForwardTrainer};
use crate::hopfield::{HopfieldConfig, HopfieldTrainer};
use crate::lsh_sparse::{LshSparseConfig, LshSparseTrainer};
use crate::options::Homeostasis;
use crate::ppl::{dense_losses, ppl_of, window_ppl, Forward};
use crate::scalar::Scalar;
use crate::sgd::{SgdConfig, SgdTrainer};
use crate::tokenizer::corpus_tokens;
use crate::toy_lm::{can_run, ToyLm};
use crate::trainer::{runnable, targets_known, tokenize, too_small, trainable, Trainer};
use crate::transformer::{half, one};

verus! {

/// The settings of the phases.
#[derive(Debug, Clone, Copy)]
pub struct CompositeConfig<T> {
    /// Left out with no epochs.
    pub sgd_warm: SgdConfig<T>,
    /// Left out with no writes.
    pub hopfield: HopfieldConfig<T>,
    /// Left out with no epochs.
    pub ff: ForwardForwardConfig<T>,
    /// Left out with no epochs.
    pub lsh: LshSparseConfig<T>,
    /// The length of the windows for the perplexity between phases.
    pub eval_seq_len: usize,
    /// How sharply retrieval prefers the best key, for the perplexity between phases.
    pub eval_beta: T,
    /// Whether callers report the perplexity between phases; zero for silence.
    pub log_every: usize,
}

/// Whether the settings are the default ones.
pub open spec fn is_default<T: Scalar>(r: CompositeConfig<T>) -> bool {
    &&& r.sgd_warm.learning_rate == one::<T>().over_spec(T::spec_count(20))
    &&& r.sgd_warm.seq_len == 16
    &&& r.sgd_warm.epochs == 0
    &&& r.sgd_warm.lr_decay == one::<T>()
    &&& r.sgd_warm.log_every == 0
    &&& r.sgd_warm.seed == 1337
    &&& r.hopfield.seq_len == 16
    &&& r.hopfield.num_writes == 0
    &&& r.hopfield.beta == T::spec_count(8)
    &&& r.hopfield.value_scale == one::<T>().over_spec(T::spec_count(10))
    &&& r.hopfield.log_every == 0
    &&& r.hopfield.seed == 3
    &&& r.ff.learning_rate == one::<T>().over_spec(T::spec_count(50))
    &&& r.ff.seq_len == 16
    &&& r.ff.epochs == 15
    &&& r.ff.lr_decay == one::<T>()
    &&& r.ff.momentum == T::spec_count(9).over_spec(T::spec_count(10))
    &&& r.ff.max_grad_norm == one::<T>()
    &&& r.ff.hebbian_embed_lr == one::<T>().over_spec(T::spec_count(100))
    &&& r.ff.theta_ema == T::spec_count(99).over_spec(T::spec_count(100))
    &&& r.ff.weight_clip == half::<T>()
    &&& r.ff.homeostasis == Homeostasis::Raw
    &&& r.ff.log_every == 0
    &&& r.ff.seed == 5
    &&& r.lsh.learning_rate == one::<T>().over_spec(T::spec_count(20))
    &&& r.lsh.seq_len == 16
    &&& r.lsh.epochs == 15
    &&& r.lsh.lr_decay == one::<T>()
    &&& r.lsh.sparse_fraction == one::<T>().over_spec(T::spec_count(100))
    &&& r.lsh.momentum == T::spec_count(9).over_spec(T::spec_count(10))
    &&& r.lsh.max_grad_norm == one::<T>()
    &&& r.lsh.log_every == 0
    &&& r.lsh.seed == 7
    &&& r.eval_seq_len == 16
    &&& r.eval_beta == T::spec_count(8)
    &&& r.log_every == 1
}

impl<T: Scalar> Default for CompositeConfig<T> {
    /// Forward-forward training and then sparse descent, fifteen epochs each.
    fn default() -> (r: Self)
        ensures
            is_default(r),
    {
        let mut hopfield: HopfieldConfig<T> = HopfieldConfig::default();
        hopfield.num_writes = 0;
        let mut ff: ForwardForwardConfig<T> = ForwardForwardConfig::default();
        ff.epochs = 15;
        ff.weight_clip = T::from_count(1).over(T::from_count(2));
        let mut lsh: LshSparseConfig<T> = LshSparseConfig::default();
        lsh.epochs = 15;
        CompositeConfig {
            sgd_warm: SgdConfig {
                learning_rate: T::from_count(1).over(T::from_count(20)),
                seq_len: 16,
                epochs: 0,
                lr_decay: T::from_count(1),
                log_every: 0,
                seed: 1337,
            },
            hopfield,
            ff,
            lsh,
            eval_seq_len: 16,
            eval_beta: T::from_count(8),
            log_every: 1,
        }
    }
}

/// The phases in order.
#[derive(Debug, Clone, Copy, PartialEq, Eq, Structural)]
pub enum Phase {
    /// Gradient descent to begin with.
    SgdWarm,
    /// Writes into the associative memory.
    Hopfield,
    /// Forward-forward training.
    ForwardForward,
    /// Sparse gradient descent.
    LshSparse,
}

/// The phase with the given number, from zero to three.
pub open spec fn phase_of(k: int) -> Phase {
    if k <= 0 {
        Phase::SgdWarm
    } else if k == 1 {
        Phase::Hopfield
    } else if k == 2 {
        Phase::ForwardForward
    } else {
        Phase::LshSparse
    }
}

/// Whether a phase is left out.
pub open spec fn skipped<T>(cfg: CompositeConfig<T>, phase: Phase) -> bool {
    match phase {
        Phase::SgdWarm => cfg.sgd_warm.epochs == 0,
        Phase::Hopfield => cfg.hopfield.num_writes == 0,
        Phase::ForwardForward => cfg.ff.epochs == 0,
        Phase::LshSparse => cfg.lsh.epochs == 0,
    }
}

/// The phases among the first `n` that are not left out, in order.
pub open spec fn phases_upto<T>(cfg: CompositeConfig<T>, n: nat) -> Seq<Phase>
    decreases n,
{
    if n == 0 {
        Seq::empty()
    } else {
        let front = phases_upto(cfg, (n - 1) as nat);
        if skipped(cfg, phase_of(n - 1)) {
            front
        } else {
            front.push(phase_of(n - 1))
        }
    }
}

/// The length of the windows in a phase.
pub open spec fn phase_seq<T>(cfg: CompositeConfig<T>, phase: Phase) -> int {
    match phase {
        Phase::SgdWarm => cfg.sgd_warm.seq_len as int,
        Phase::Hopfield => cfg.hopfield.seq_len as int,
        Phase::ForwardForward => cfg.ff.seq_len as int,
        Phase::LshSparse => cfg.lsh.seq_len as int,
    }
}

/// Whether a phase can run on a model.
pub open spec fn phase_ready<T: Scalar>(
    cfg: CompositeConfig<T>,
    phase: Phase,
    model: ToyLm<T>,
    corpus: Seq<u8>,
) -> bool {
    let seq = phase_seq(cfg, phase);
    skipped(cfg, phase) || too_small(corpus.len() as int, seq) || {
        &&& if phase == Phase::ForwardForward {
            runnable(model, seq)
        } else {
            trainable(model, corpus, seq)
        }
        &&& phase == Phase::Hopfield ==> seq > 0
        &&& phase == Phase::LshSparse ==> 64 * model.config.dim <= usize::MAX && 64
            * model.config.ff_dim <= usize::MAX
    }
}

/// Whether a trainer for a phase is fresh.
pub open spec fn fresh_sgd<T: Scalar>(cfg: CompositeConfig<T>, t: SgdTrainer<T>) -> bool {
    &&& t.config == cfg.sgd_warm
    &&& t.momentum == T::spec_count(9).over_spec(T::spec_count(10))
    &&& t.max_grad_norm == one::<T>()
    &&& t.vel is None
}

/// Whether a trainer for a phase is fresh.
pub open spec fn fresh_ff<T: Scalar>(cfg: CompositeConfig<T>, t: ForwardForwardTrainer<T>) -> bool {
    &&& t.config == cfg.ff
    &&& t.vel is None
    &&& t.stats.theta@.len() == 0
}

/// Whether a trainer for a phase is fresh.
pub open spec fn fresh_lsh<T: Scalar>(cfg: CompositeConfig<T>, t: LshSparseTrainer<T>) -> bool {
    t.config == cfg.lsh && t.vel is None
}

/// Whether a phase can lead from `m0` to `m1`: it is left out, or a fresh trainer does so.
pub open spec fn phase_leads<T: Scalar>(
    cfg: CompositeConfig<T>,
    phase: Phase,
    m0: ToyLm<T>,
    corpus: Seq<u8>,
    m1: ToyLm<T>,
    result: NseResult<()>,
) -> bool {
    if skipped(cfg, phase) {
        m1 == m0 && result is Ok
    } else {
        match phase {
            Phase::SgdWarm => exists|a: SgdTrainer<T>, b: SgdTrainer<T>|
                fresh_sgd(cfg, a) && #[trigger] SgdTrainer::trains(a, m0, corpus, b, m1, result),
            Phase::Hopfield => exists|a: HopfieldTrainer<T>, b: HopfieldTrainer<T>|
                a.config == cfg.hopfield && #[trigger] HopfieldTrainer::trains(
                    a,
                    m0,
                    corpus,
                    b,
                    m1,
                    result,
                ),
            Phase::ForwardForward => exists|
                a: ForwardForwardTrainer<T>,
                b: ForwardForwardTrainer<T>,
            |
                fresh_ff(cfg, a) && #[trigger] ForwardForwardTrainer::trains(
                    a,
                    m0,
                    corpus,
                    b,
                    m1,
                    result,
                ),
            Phase::LshSparse => exists|a: LshSparseTrainer<T>, b: LshSparseTrainer<T>|
                fresh_lsh(cfg, a) && #[trigger] LshSparseTrainer::trains(
                    a,
                    m0,
                    corpus,
                    b,
                    m1,
                    result,
                ),
        }
    }
}

/// Whether the phases from the given one on can lead from `m0` to `m1`. The first phase that
/// fails ends the training.
pub open spec fn phases_lead<T: Scalar>(
    cfg: CompositeConfig<T>,
    k: nat,
    m0: ToyLm<T>,
    corpus: Seq<u8>,
    m1: ToyLm<T>,
    result: NseResult<()>,
) -> bool
    decreases 4 - k,
{
    if k >= 4 {
        m1 == m0 && result is Ok
    } else {
        exists|mid: ToyLm<T>, r: NseResult<()>|
            #[trigger] phase_leads(cfg, phase_of(k as int), m0, corpus, mid, r) && if r is Err {
                m1 == mid && result == r
            } else {
                phases_lead(cfg, k + 1, mid, corpus, m1, result)
            }
    }
}

/// The trainer in phases.
#[derive(Debug, Clone, Copy)]
pub struct CompositeTrainer<T> {
    pub config: CompositeConfig<T>,
}

impl<T: Scalar> CompositeTrainer<T> {
    /// A trainer.
    pub fn new(config: CompositeConfig<T>) -> (r: Self)
        ensures
            r.config == config,
    {
        CompositeTrainer { config }
    }

    /// The phases that are not left out, in the order in which they run.
    pub fn phases(&self) -> (r: Vec<Phase>)
        ensures
            r@ == phases_upto(self.config, 4),
    {
        let mut out: Vec<Phase> = Vec::new();
        proof {
            reveal_with_fuel(phases_upto, 5);
        }
        if self.config.sgd_warm.epochs > 0 {
            out.push(Phase::SgdWarm);
        }
        assert(out@ =~= phases_upto(self.config, 1));
        if self.config.hopfield.num_writes > 0 {
            out.push(Phase::Hopfield);
        }
        assert(out@ =~= phases_upto(self.config, 2));
        if self.config.ff.epochs > 0 {
            out.push(Phase::ForwardForward);
        }
        assert(out@ =~= phases_upto(self.config, 3));
        if self.config.lsh.epochs > 0 {
            out.push(Phase::LshSparse);
        }
        assert(out@ =~= phases_upto(self.config, 4));
        out
    }

    /// Runs one phase, unless it is left out.
    pub fn train_phase(&self, phase: Phase, model: &mut ToyLm<T>, corpus: &[u8]) -> (r: NseResult<()>)
        requires
            phase_ready(self.config, phase, *old(model), corpus@),
        ensures
            phase_leads(self.config, phase, *old(model), corpus@, *final(model), r),
            r is Ok ==> final(model).config == old(model).config,
            r is Ok && old(model).wf() ==> final(model).wf(),
    {
        let cfg = self.config;
        match phase {
            Phase::SgdWarm => {
                if cfg.sgd_warm.epochs > 0 {
                    let mut t = SgdTrainer::new(cfg.sgd_warm);
                    let ghost t0 = t;
                    let ghost m0 = *model;
                    let r = t.train(model, corpus);
                    assert(fresh_sgd(cfg, t0));
                    assert(SgdTrainer::trains(t0, m0, corpus@, t, *model, r));
                    return r;
                }
            },
            Phase::Hopfield => {
                if cfg.hopfield.num_writes > 0 {
                    let mut t = HopfieldTrainer::new(cfg.hopfield);
                    let ghost t0 = t;
                    let ghost m0 = *model;
                    let r = t.train(model, corpus);
                    assert(HopfieldTrainer::trains(t0, m0, corpus@, t, *model, r));
                    return r;
                }
            },
            Phase::ForwardForward => {
                if cfg.ff.epochs > 0 {
                    let mut t = ForwardForwardTrainer::new(cfg.ff);
                    let ghost t0 = t;
                    let ghost m0 = *model;
                    let r = t.train(model, corpus);
                    assert(fresh_ff(cfg, t0));
                    assert(ForwardForwardTrainer::trains(t0, m0, corpus@, t, *model, r));
                    return r;
                }
            },
            Phase::LshSparse => {
                if cfg.lsh.epochs > 0 {
                    let mut t = LshSparseTrainer::new(cfg.lsh);
                    let ghost t0 = t;
                    let ghost m0 = *model;
                    let r = t.train(model, corpus);
                    assert(fresh_lsh(cfg, t0));
                    assert(LshSparseTrainer::trains(t0, m0, corpus@, t, *model, r));
                    return r;
                }
            },
        }
        Ok(())
    }

    /// The perplexities of a model under the standard rule and with retrieval, as they are
    /// reported between phases.
    pub fn probe(&self, model: &ToyLm<T>, corpus: &[u8]) -> (r: (T, T))
        requires
            model.wf(),
            can_run(model.config, self.config.eval_seq_len as nat),
            targets_known(
                corpus_tokens(corpus@),
                self.config.eval_seq_len as int,
                model.config.vocab_size as int,
            ),
        ensures
            r.0 == ppl_of(
                dense_losses(
                    *model,
                    Forward::Gelu,
                    corpus_tokens(corpus@),
                    self.config.eval_seq_len as int,
                ),
            ),
            r.1 == ppl_of(
                dense_losses(
                    *model,
                    Forward::Hopfield(self.config.eval_beta),
                    corpus_tokens(corpus@),
                    self.config.eval_seq_len as int,
                ),
            ),
    {
        let ids = tokenize(corpus);
        let seq: usize = self.config.eval_seq_len;
        (
            window_ppl(model, &ids, seq, Forward::Gelu),
            window_ppl(model, &ids, seq, Forward::Hopfield(self.config.eval_beta)),
        )
    }
}

impl<T: Scalar> Default for CompositeTrainer<T> {
    fn default() -> (r: Self)
        ensures
            is_default(r.config),
    {
        CompositeTrainer::new(CompositeConfig::default())
    }
}

/// A phase that can run on a model can run on any other of the same sizes.
proof fn lemma_still_ready<T: Scalar>(
    cfg: CompositeConfig<T>,
    phase: Phase,
    m0: ToyLm<T>,
    m1: ToyLm<T>,
    corpus: Seq<u8>,
)
    requires
        phase_ready(cfg, phase, m0, corpus),
        m1.config == m0.config,
        m0.wf() ==> m1.wf(),
    ensures
        phase_ready(cfg, phase, m1, corpus),
{
}

impl<T: Scalar> Trainer<T> for CompositeTrainer<T> {
    open spec fn algorithm(&self) -> Seq<char> {
        "composite"@
    }

    open spec fn can_train(&self, model: ToyLm<T>, corpus: Seq<u8>) -> bool {
        &&& phase_ready(self.config, Phase::SgdWarm, model, corpus)
        &&& phase_ready(self.config, Phase::Hopfield, model, corpus)
        &&& phase_ready(self.config, Phase::ForwardForward, model, corpus)
        &&& phase_ready(self.config, Phase::LshSparse, model, corpus)
    }

    open spec fn trains(
        before: Self,
        model: ToyLm<T>,
        corpus: Seq<u8>,
        after: Self,
        trained: ToyLm<T>,
        result: NseResult<()>,
    ) -> bool {
        &&& after == before
        &&& phases_lead(before.config, 0, model, corpus, trained, result)
    }

    fn name(&self) -> (r: &'static str) {
        "composite"
    }

    fn train(&mut self, model: &mut ToyLm<T>, corpus: &[u8]) -> (r: NseResult<()>) {
        let ghost cfg = self.config;
        let ghost m0 = *model;
        let r0 = self.train_phase(Phase::SgdWarm, model, corpus);
        let ghost m1 = *model;
        assert(phase_leads(cfg, phase_of(0), m0, corpus@, m1, r0));
        if r0.is_err() {
            return r0;
        }
        proof {
            lemma_still_ready(cfg, Phase::Hopfield, m0, m1, corpus@);
            lemma_still_ready(cfg, Phase::ForwardForward, m0, m1, corpus@);
            lemma_still_ready(cfg, Phase::LshSparse, m0, m1, corpus@);
        }
        let r1 = self.train_phase(Phase::Hopfield, model, corpus);
        let ghost m2 = *model;
        assert(phase_leads(cfg, phase_of(1), m1, corpus@, m2, r1));
        if r1.is_err() {
            assert(phases_lead(cfg, 1, m1, corpus@, m2, r1));
            return r1;
        }
        proof {
            lemma_still_ready(cfg, Phase::ForwardForward, m1, m2, corpus@);
            lemma_still_ready(cfg, Phase::LshSparse, m1, m2, corpus@);
        }
        let r2 = self.train_phase(Phase::ForwardForward, model, corpus);
        let ghost m3 = *model;
        assert(phase_leads(cfg, phase_of(2), m2, corpus@, m3, r2));
        if r2.is_err() {
            assert(phases_lead(cfg, 2, m2, corpus@, m3, r2));
            assert(phases_lead(cfg, 1, m1, corpus@, m3, r2));
            return r2;
        }
        proof {
            lemma_still_ready(cfg, Phase::LshSparse, m2, m3, corpus@);
        }
        let r3 = self.train_phase(Phase::LshSparse, model, corpus);
        let ghost m4 = *model;
        proof {
            assert(phase_leads(cfg, phase_of(3), m3, corpus@, m4, r3));
            if r3 is Ok {
                assert(phases_lead(cfg, 4, m4, corpus@, m4, r3));
            }
            assert(phases_lead(cfg, 3, m3, corpus@, m4, r3));
            assert(phases_lead(cfg, 2, m2, corpus@, m4, r3));
            assert(phases_lead(cfg, 1, m1, corpus@, m4, r3));
            assert(phases_lead(cfg, 0, m0, corpus@, m4, r3));
        }
        r3
    }
}

/// A composite training that succeeds goes through its phases in order: gradient descent, writes
/// into the memory, forward-forward training, sparse gradient descent. Each starts from the
/// model that the one before has left.
pub proof fn law_phases_in_order<T: Scalar>(
    before: CompositeTrainer<T>,
    model: ToyLm<T>,
    corpus: Seq<u8>,
    after: CompositeTrainer<T>,
    trained: ToyLm<T>,
    result: NseResult<()>,
)
    requires
        CompositeTrainer::trains(before, model, corpus, after, trained, result),
        result is Ok,
    ensures
        exists|m1: ToyLm<T>, m2: ToyLm<T>, m3: ToyLm<T>, r: (NseResult<()>, NseResult<()>, NseResult<()>, NseResult<()>)|
            #[trigger] phase_leads(before.config, Phase::SgdWarm, model, corpus, m1, r.0)
                && #[trigger] phase_leads(before.config, Phase::Hopfield, m1, corpus, m2, r.1)
                && #[trigger] phase_leads(before.config, Phase::ForwardForward, m2, corpus, m3, r.2)
                && #[trigger] phase_leads(before.config, Phase::LshSparse, m3, corpus, trained, r.3)
                && r.0 is Ok && r.1 is Ok && r.2 is Ok && r.3 is Ok,
{
    let cfg = before.config;
    let (m1, r1) = lemma_next_phase(cfg, 0, model, corpus, trained, result);
    let (m2, r2) = lemma_next_phase(cfg, 1, m1, corpus, trained, result);
    let (m3, r3) = lemma_next_phase(cfg, 2, m2, corpus, trained, result);
    let (m4, r4) = lemma_next_phase(cfg, 3, m3, corpus, trained, result);
    let r = (r1, r2, r3, r4);
    assert(phase_leads(cfg, Phase::SgdWarm, model, corpus, m1, r.0));
    assert(phase_leads(cfg, Phase::Hopfield, m1, corpus, m2, r.1));
    assert(phase_leads(cfg, Phase::ForwardForward, m2, corpus, m3, r.2));
    assert(phase_leads(cfg, Phase::LshSparse, m3, corpus, trained, r.3));
}

proof fn lemma_next_phase<T: Scalar>(
    cfg: CompositeConfig<T>,
    k: nat,
    m0: ToyLm<T>,
    corpus: Seq<u8>,
    trained: ToyLm<T>,
    result: NseResult<()>,
) -> (r: (ToyLm<T>, NseResult<()>))
    requires
        k < 4,
        phases_lead(cfg, k, m0, corpus, trained, result),
        result is Ok,
    ensures
        phase_leads(cfg, phase_of(k as int), m0, corpus, r.0, r.1),
        r.1 is Ok,
        phases_lead(cfg, k + 1, r.0, corpus, trained, result),
{
    choose|mid: ToyLm<T>, r: NseResult<()>|
        #[trigger] phase_leads(cfg, phase_of(k as int), m0, corpus, mid, r) && if r is Err {
            trained == mid && result == r
        } else {
            phases_lead(cfg, k + 1, mid, corpus, trained, result)
        }
}

} // verus!
