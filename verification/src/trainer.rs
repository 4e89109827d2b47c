//! What the trainers have in common.

use vstd::prelude::*;
use crate::error::{NseError, NseResult};
use crate::scalar::Scalar;
use crate::text::{decimal, push_decimal};
use crate::tokenizer::{
    bytes_below, corpus_tokens, law_corpus_tokens, law_corpus_tokens_bounded, Tokenizer,
};
use crate::toy_lm::{can_run, sizes_fit, ToyLm};

verus! {

/// A way to train a model.
pub trait Trainer<T: Scalar>: Sized {
    /// The name of the algorithm.
    spec fn algorithm(&self) -> Seq<char>;

    /// Whether the model can be trained on the corpus.
    spec fn can_train(&self, model: ToyLm<T>, corpus: Seq<u8>) -> bool;

    /// What training may lead to.
    spec fn trains(
        before: Self,
        model: ToyLm<T>,
        corpus: Seq<u8>,
        after: Self,
        trained: ToyLm<T>,
        result: NseResult<()>,
    ) -> bool;

    /// The name of the algorithm.
    fn name(&self) -> (r: &'static str)
        ensures
            r@ == self.algorithm(),
    ;

    /// Trains the model on a corpus.
    fn train(&mut self, model: &mut ToyLm<T>, corpus: &[u8]) -> (r: NseResult<()>)
        requires
            old(self).can_train(*old(model), corpus@),
        ensures
            Self::trains(*old(self), *old(model), corpus@, *final(self), *final(model), r),
    ;
}

/// Whether `n` tokens are too few for windows of `seq` tokens and their successors.
pub open spec fn too_small(n: int, seq: int) -> bool {
    n < seq + 2
}

/// The message for a corpus that is too small.
pub open spec fn too_small_text(n: int, seq: int) -> Seq<char> {
    "corpus too small for seq_len="@ + decimal(seq as nat) + ": "@ + decimal(n as nat) + " tokens"@
}

/// Whether the result is the error for a corpus that is too small.
pub open spec fn refused_as_small(result: NseResult<()>, n: int, seq: int) -> bool {
    result matches Err(NseError::Other(m)) && m@ == too_small_text(n, seq)
}

/// The error for a corpus that is too small.
pub fn too_small_error(n: usize, seq: usize) -> (r: NseError)
    ensures
        r matches NseError::Other(m) && m@ == too_small_text(n as int, seq as int),
{
    let mut m = String::from_str("corpus too small for seq_len=");
    push_decimal(&mut m, seq as u64);
    m.append(": ");
    push_decimal(&mut m, n as u64);
    m.append(" tokens");
    NseError::Other(m)
}

/// The tokens of a corpus under the tokenizer for its bytes.
pub fn tokenize(corpus: &[u8]) -> (r: Vec<u32>)
    ensures
        r@ == corpus_tokens(corpus@),
        r@.len() == corpus@.len(),
        forall|i: int| 0 <= i < r@.len() ==> (#[trigger] r@[i]) < bytes_below(corpus@, 256),
{
    let tok = Tokenizer::from_corpus(corpus);
    let ids = tok.encode(corpus);
    proof {
        law_corpus_tokens(tok, corpus@);
        law_corpus_tokens_bounded(corpus@);
    }
    ids
}

/// The number of windows of `seq` tokens that have a successor for each token, with one
/// more token behind them.
pub open spec fn num_windows(n: int, seq: int) -> int {
    n - (seq + 1)
}

/// The tokens of a window.
pub open spec fn window(ids: Seq<u32>, start: int, seq: int) -> Seq<u32> {
    ids.subrange(start, start + seq)
}

/// Whether a model can be run over windows of `seq` tokens and its gradients computed: no
/// width that is divided by is zero, and all sizes can be addressed. Tokens that the model
/// does not know are no hindrance.
pub open spec fn runnable<T: Scalar>(model: ToyLm<T>, seq: int) -> bool {
    &&& model.wf()
    &&& sizes_fit(model.config)
    &&& can_run(model.config, seq as nat)
    &&& seq * model.config.num_heads <= usize::MAX
}

/// Whether the vocabulary has every token that some window of `seq` tokens has as a
/// successor: all but the first and the last one.
pub open spec fn targets_known(ids: Seq<u32>, seq: int, vocab_size: int) -> bool {
    seq > 0 ==> forall|i: int| 1 <= i < ids.len() - 1 ==> (#[trigger] ids[i]) < vocab_size
}

/// Whether a model can be trained on the successors of the tokens of a corpus.
pub open spec fn trainable<T: Scalar>(model: ToyLm<T>, corpus: Seq<u8>, seq: int) -> bool {
    &&& runnable(model, seq)
    &&& targets_known(corpus_tokens(corpus), seq, model.config.vocab_size as int)
}

/// The learning rate in an epoch.
pub open spec fn lr_at<T: Scalar>(lr: T, decay: T, epoch: nat) -> T
    decreases epoch,
{
    if epoch == 0 {
        lr
    } else {
        lr_at(lr, decay, (epoch - 1) as nat).times_spec(decay)
    }
}

/// Steps are counted through the epochs: step `s` of epoch `e`.
pub proof fn lemma_step_count(e: int, s: int, windows: int)
    requires
        0 <= e,
        0 <= s < windows,
    ensures
        (e * windows + s) / windows == e,
        (e * windows + s) % windows == s,
        (e + 1) * windows == e * windows + windows,
        0 <= e * windows,
{
    vstd::arithmetic::div_mod::lemma_fundamental_div_mod_converse(e * windows + s, windows, e, s);
    assert((e + 1) * windows == e * windows + windows) by (nonlinear_arith);
    assert(0 <= e * windows) by (nonlinear_arith)
        requires
            0 <= e,
            0 < windows,
    ;
}

} // verus!
