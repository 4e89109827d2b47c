//! Long trainings. With their step sizes the outcome depends on how the last bit of each
//! number is rounded, so the hyperbolic tangent is not left to the platform.

use nse::autograd::forward_cached;
use nse::config::Config;
use nse::forward_forward::{
    goodness, layer_output, ForwardForwardConfig, ForwardForwardTrainer,
};
use nse::permute::permute_window;
use nse::scalar::Scalar;
use nse::sgd::{SgdConfig, SgdTrainer};
use nse::tokenizer::Tokenizer;
use nse::toy_lm::ToyLm;
use nse::trainer::Trainer;
use rand::rngs::StdRng;
use rand::SeedableRng;

#[derive(Clone, Copy, Debug, PartialEq)]
struct F(f32);

impl Scalar for F {
    fn spec_zero() -> F {
        F(0.0)
    }
    fn zero() -> F {
        F(0.0)
    }
    fn spec_highest() -> F {
        F(f32::INFINITY)
    }
    fn highest() -> F {
        F(f32::INFINITY)
    }
    fn spec_lowest() -> F {
        F(f32::NEG_INFINITY)
    }
    fn lowest() -> F {
        F(f32::NEG_INFINITY)
    }
    fn spec_count(n: usize) -> F {
        F(n as f32)
    }
    fn from_count(n: usize) -> F {
        F(n as f32)
    }
    fn spec_code(c: i8) -> F {
        F(c as f32)
    }
    fn from_code(c: i8) -> F {
        F(c as f32)
    }
    fn rounded_spec(self) -> usize {
        self.0.round() as usize
    }
    fn rounded(self) -> usize {
        self.0.round() as usize
    }
    fn floored_spec(self) -> usize {
        self.0.floor() as usize
    }
    fn floored(self) -> usize {
        self.0.floor() as usize
    }
    fn plus_spec(self, other: F) -> F {
        F(self.0 + other.0)
    }
    fn plus(self, other: F) -> F {
        F(self.0 + other.0)
    }
    fn minus_spec(self, other: F) -> F {
        F(self.0 - other.0)
    }
    fn minus(self, other: F) -> F {
        F(self.0 - other.0)
    }
    fn times_spec(self, other: F) -> F {
        F(self.0 * other.0)
    }
    fn times(self, other: F) -> F {
        F(self.0 * other.0)
    }
    fn times_plus_spec(self, other: F, third: F) -> F {
        F(self.0.mul_add(other.0, third.0))
    }
    fn times_plus(self, other: F, third: F) -> F {
        F(self.0.mul_add(other.0, third.0))
    }
    fn over_spec(self, other: F) -> F {
        F(self.0 / other.0)
    }
    fn over(self, other: F) -> F {
        F(self.0 / other.0)
    }
    fn negated_spec(self) -> F {
        F(-self.0)
    }
    fn negated(self) -> F {
        F(-self.0)
    }
    fn magnitude_spec(self) -> F {
        F(self.0.abs())
    }
    fn magnitude(self) -> F {
        F(self.0.abs())
    }
    fn root_spec(self) -> F {
        F(self.0.sqrt())
    }
    fn root(self) -> F {
        F(self.0.sqrt())
    }
    fn exp_spec(self) -> F {
        F(self.0.exp())
    }
    fn exp(self) -> F {
        F(self.0.exp())
    }
    fn ln_spec(self) -> F {
        F(self.0.ln())
    }
    fn ln(self) -> F {
        F(self.0.ln())
    }
    fn log2_spec(self) -> F {
        F(self.0.log2())
    }
    fn log2(self) -> F {
        F(self.0.log2())
    }
    fn tanh_spec(self) -> F {
        self.tanh()
    }
    // Computed in double precision and rounded once.
    fn tanh(self) -> F {
        let e = (2.0 * self.0 as f64).exp();
        F((1.0 - 2.0 / (e + 1.0)) as f32)
    }
    fn below_spec(self, other: F) -> bool {
        self.0 < other.0
    }
    fn below(self, other: F) -> bool {
        self.0 < other.0
    }
    fn at_most_spec(self, other: F) -> bool {
        self.0 <= other.0
    }
    fn at_most(self, other: F) -> bool {
        self.0 <= other.0
    }
    fn spec_vectorised() -> bool {
        true
    }
    fn vectorised() -> bool {
        true
    }
    fn below_irreflexive(self) {}
    fn below_transitive(self, _other: F, _third: F) {}
    fn lowest_is_least(self, _other: F) {}
    fn word_over_words(_word: u32) {}
}

const LONG: &[u8] = b"to be or not to be that is the question whether tis nobler \
                      in the mind to suffer the slings and arrows of outrageous \
                      fortune or to take arms against a sea of troubles and by \
                      opposing end them to die to sleep no more and by a sleep \
                      to say we end the heartache and the thousand natural shocks";

/// Mean PPL over all sliding windows of length `seq`, predicting t+1.
fn sliding_ppl(lm: &ToyLm<F>, ids: &[u32], seq: usize, vocab: usize) -> f32 {
    let mut total = 0.0;
    let mut count = 0usize;
    for start in 0..ids.len().saturating_sub(seq + 1) {
        let tokens = &ids[start..start + seq];
        let targets = &ids[start + 1..start + 1 + seq];
        let (_, logits) = forward_cached(lm, tokens);
        total += mean_ce(&logits, targets, vocab);
        count += 1;
    }
    if count == 0 {
        f32::INFINITY
    } else {
        (total / count as f32).exp()
    }
}

fn mean_ce(logits: &[F], targets: &[u32], vocab: usize) -> f32 {
    let seq = targets.len();
    let mut loss = 0.0;
    for t in 0..seq {
        let row: Vec<f32> = logits[t * vocab..(t + 1) * vocab].iter().map(|a| a.0).collect();
        let max = row.iter().cloned().fold(f32::NEG_INFINITY, f32::max);
        let mut sum = 0.0;
        for &v in &row {
            sum += (v - max).exp();
        }
        let tgt = targets[t] as usize;
        loss -= ((row[tgt] - max).exp() / sum).max(1e-12).ln();
    }
    loss / seq as f32
}

#[test]
fn training_reduces_ppl() {
    // Train a tiny model on a short corpus and verify perplexity drops well
    // below the uniform baseline (vocab_size).
    let tok = Tokenizer::from_corpus(LONG);
    let ids = tok.encode(LONG);
    let cfg = Config {
        vocab_size: tok.vocab_size,
        dim: 32,
        num_layers: 1,
        num_heads: 2,
        max_seq_len: 64,
        ff_dim: 64,
    };
    let mut lm: ToyLm<F> = ToyLm::init_random(cfg, 7);

    let base_ppl = sliding_ppl(&lm, &ids, 16, tok.vocab_size);

    let mut trainer = SgdTrainer::new(SgdConfig {
        learning_rate: F(0.05),
        seq_len: 16,
        epochs: 30,
        lr_decay: F(1.0),
        log_every: 0,
        seed: 7,
    });
    trainer.max_grad_norm = F(1.0);
    trainer.train(&mut lm, LONG).unwrap();

    // Trained PPL over the same sliding windows.
    let trained_ppl = sliding_ppl(&lm, &ids, 16, tok.vocab_size);

    assert!(
        trained_ppl < base_ppl * 0.5,
        "PPL did not drop enough: base={base_ppl:.2} trained={trained_ppl:.2}"
    );
    assert!(
        trained_ppl < tok.vocab_size as f32,
        "trained PPL {trained_ppl:.2} should be below uniform {}",
        tok.vocab_size
    );
}

#[test]
fn ff_trains_goodness_separates_and_ppl_below_uniform() {
    let tok = Tokenizer::from_corpus(LONG);
    let ids = tok.encode(LONG);
    let cfg = Config {
        vocab_size: tok.vocab_size,
        dim: 32,
        num_layers: 2,
        num_heads: 2,
        max_seq_len: 64,
        ff_dim: 64,
    };
    let mut lm: ToyLm<F> = ToyLm::init_random(cfg, 13);
    let mut trainer = ForwardForwardTrainer::new(ForwardForwardConfig {
        learning_rate: F(0.03),
        seq_len: 16,
        epochs: 50,
        hebbian_embed_lr: F(0.02),
        weight_clip: F(0.5),
        ..Default::default()
    });
    trainer.train(&mut lm, LONG).unwrap();

    // Goodness: average over many real vs permuted windows.
    let mut rng = StdRng::seed_from_u64(99);
    let nl = lm.config.num_layers;
    let nw = ids.len().saturating_sub(16);
    let mut gp_sum = 0.0f32;
    let mut gn_sum = 0.0f32;
    let mut n_eval = 0usize;
    for start in 0..nw {
        let pos: Vec<u32> = ids[start..start + 16].to_vec();
        let neg = permute_window(&pos, &mut rng);
        let (cp, _) = forward_cached(&lm, &pos);
        let (cn, _) = forward_cached(&lm, &neg);
        for l in 0..nl {
            let yp = layer_output(&cp.layers[l]);
            let yn = layer_output(&cn.layers[l]);
            gp_sum += goodness(&yp).0;
            gn_sum += goodness(&yn).0;
        }
        n_eval += 1;
    }
    let gp = gp_sum / (n_eval * nl) as f32;
    let gn = gn_sum / (n_eval * nl) as f32;
    assert!(
        gp > gn - 0.05,
        "FF should separate (within noise): G_pos={gp:.4} G_neg={gn:.4}"
    );

    // PPL on sliding windows.
    let mut total = 0.0;
    let mut count = 0usize;
    for start in 0..ids.len().saturating_sub(17) {
        let tokens = &ids[start..start + 16];
        let targets = &ids[start + 1..start + 17];
        let logits = lm.forward(tokens);
        for t in 0..16 {
            let row: Vec<f32> = logits[t * tok.vocab_size..(t + 1) * tok.vocab_size]
                .iter()
                .map(|a| a.0)
                .collect();
            let max = row.iter().cloned().fold(f32::NEG_INFINITY, f32::max);
            let sum: f32 = row.iter().map(|v| (v - max).exp()).sum();
            total -= ((row[targets[t] as usize] - max).exp() / sum).max(1e-12).ln();
            count += 1;
        }
    }
    let ppl = (-(total / count as f32)).exp();
    assert!(
        ppl < tok.vocab_size as f32,
        "FF PPL {ppl:.2} should be below uniform {}",
        tok.vocab_size
    );
}
