use nse::autograd::{forward_cached, ToyLmGrads};
use nse::composite::{CompositeConfig, CompositeTrainer, Phase};
use nse::config::Config;
use nse::error::NseError;
use nse::forward_forward::{
    goodness, sigmoid, ForwardForwardConfig, ForwardForwardTrainer,
};
use nse::hopfield::{write_slot, HopfieldConfig, HopfieldTrainer};
use nse::lsh::{mask_by_lsh, LshIndex};
use nse::lsh_sparse::{LshSparseConfig, LshSparseTrainer};
use nse::options::Homeostasis;
use nse::permute::{exchange_first, permute_window};
use nse::ppl::{window_ppl, Forward};
use nse::scalar::Scalar;
use nse::sgd::{SgdConfig, SgdTrainer};
use nse::sgd_apply::{apply_step, grad_norm_sq};
use nse::tokenizer::Tokenizer;
use nse::toy_lm::ToyLm;
use nse::trainer::Trainer;
use rand::rngs::StdRng;
use rand::seq::SliceRandom;
use rand::{Rng, SeedableRng};

#[derive(Clone, Copy, Debug, PartialEq)]
struct F(f32);

impl Scalar for F {
    fn spec_zero() -> F {
        F(0.0)
    }
    fn zero() -> F {
        F(0.0)
    }
    fn spec_highest() -> F {
        F(f32::INFINITY)
    }
    fn highest() -> F {
        F(f32::INFINITY)
    }
    fn spec_lowest() -> F {
        F(f32::NEG_INFINITY)
    }
    fn lowest() -> F {
        F(f32::NEG_INFINITY)
    }
    fn spec_count(n: usize) -> F {
        F(n as f32)
    }
    fn from_count(n: usize) -> F {
        F(n as f32)
    }
    fn spec_code(c: i8) -> F {
        F(c as f32)
    }
    fn from_code(c: i8) -> F {
        F(c as f32)
    }
    fn rounded_spec(self) -> usize {
        self.0.round() as usize
    }
    fn rounded(self) -> usize {
        self.0.round() as usize
    }
    fn floored_spec(self) -> usize {
        self.0.floor() as usize
    }
    fn floored(self) -> usize {
        self.0.floor() as usize
    }
    fn plus_spec(self, other: F) -> F {
        F(self.0 + other.0)
    }
    fn plus(self, other: F) -> F {
        F(self.0 + other.0)
    }
    fn minus_spec(self, other: F) -> F {
        F(self.0 - other.0)
    }
    fn minus(self, other: F) -> F {
        F(self.0 - other.0)
    }
    fn times_spec(self, other: F) -> F {
        F(self.0 * other.0)
    }
    fn times(self, other: F) -> F {
        F(self.0 * other.0)
    }
    fn times_plus_spec(self, other: F, third: F) -> F {
        F(self.0.mul_add(other.0, third.0))
    }
    fn times_plus(self, other: F, third: F) -> F {
        F(self.0.mul_add(other.0, third.0))
    }
    fn over_spec(self, other: F) -> F {
        F(self.0 / other.0)
    }
    fn over(self, other: F) -> F {
        F(self.0 / other.0)
    }
    fn negated_spec(self) -> F {
        F(-self.0)
    }
    fn negated(self) -> F {
        F(-self.0)
    }
    fn magnitude_spec(self) -> F {
        F(self.0.abs())
    }
    fn magnitude(self) -> F {
        F(self.0.abs())
    }
    fn root_spec(self) -> F {
        F(self.0.sqrt())
    }
    fn root(self) -> F {
        F(self.0.sqrt())
    }
    fn exp_spec(self) -> F {
        F(self.0.exp())
    }
    fn exp(self) -> F {
        F(self.0.exp())
    }
    fn ln_spec(self) -> F {
        F(self.0.ln())
    }
    fn ln(self) -> F {
        F(self.0.ln())
    }
    fn log2_spec(self) -> F {
        F(self.0.log2())
    }
    fn log2(self) -> F {
        F(self.0.log2())
    }
    fn tanh_spec(self) -> F {
        F(self.0.tanh())
    }
    fn tanh(self) -> F {
        F(self.0.tanh())
    }
    fn below_spec(self, other: F) -> bool {
        self.0 < other.0
    }
    fn below(self, other: F) -> bool {
        self.0 < other.0
    }
    fn at_most_spec(self, other: F) -> bool {
        self.0 <= other.0
    }
    fn at_most(self, other: F) -> bool {
        self.0 <= other.0
    }
    fn spec_vectorised() -> bool {
        true
    }
    fn vectorised() -> bool {
        true
    }
    fn below_irreflexive(self) {}
    fn below_transitive(self, _other: F, _third: F) {}
    fn lowest_is_least(self, _other: F) {}
    fn word_over_words(_word: u32) {}
}

const LONG: &[u8] = b"to be or not to be that is the question whether tis nobler \
                      in the mind to suffer the slings and arrows of outrageous \
                      fortune or to take arms against a sea of troubles and by \
                      opposing end them to die to sleep no more and by a sleep \
                      to say we end the heartache and the thousand natural shocks";

/// Mean PPL over all sliding windows of length `seq`, predicting t+1.
fn sliding_ppl(lm: &ToyLm<F>, ids: &[u32], seq: usize, vocab: usize) -> f32 {
    let mut total = 0.0;
    let mut count = 0usize;
    for start in 0..ids.len().saturating_sub(seq + 1) {
        let tokens = &ids[start..start + seq];
        let targets = &ids[start + 1..start + 1 + seq];
        let (_, logits) = forward_cached(lm, tokens);
        total += mean_ce(&logits, targets, vocab);
        count += 1;
    }
    if count == 0 {
        f32::INFINITY
    } else {
        (total / count as f32).exp()
    }
}

fn mean_ce(logits: &[F], targets: &[u32], vocab: usize) -> f32 {
    let seq = targets.len();
    let mut loss = 0.0;
    for t in 0..seq {
        let row: Vec<f32> = logits[t * vocab..(t + 1) * vocab].iter().map(|a| a.0).collect();
        let max = row.iter().cloned().fold(f32::NEG_INFINITY, f32::max);
        let mut sum = 0.0;
        for &v in &row {
            sum += (v - max).exp();
        }
        let tgt = targets[t] as usize;
        loss -= ((row[tgt] - max).exp() / sum).max(1e-12).ln();
    }
    loss / seq as f32
}

#[test]
fn gradient_descent_halves_the_perplexity() {
    // Train a tiny model on a short corpus and verify perplexity drops well
    // below the uniform baseline (vocab_size).
    let tok = Tokenizer::from_corpus(LONG);
    let ids = tok.encode(LONG);
    let cfg = Config {
        vocab_size: tok.vocab_size,
        dim: 32,
        num_layers: 1,
        num_heads: 2,
        max_seq_len: 64,
        ff_dim: 64,
    };
    let mut lm: ToyLm<F> = ToyLm::init_random(cfg, 7);

    let base_ppl = sliding_ppl(&lm, &ids, 16, tok.vocab_size);

    let mut trainer = SgdTrainer::new(SgdConfig {
        learning_rate: F(0.01),
        seq_len: 16,
        epochs: 8,
        lr_decay: F(1.0),
        log_every: 0,
        seed: 7,
    });
    trainer.max_grad_norm = F(1.0);
    trainer.train(&mut lm, LONG).unwrap();

    // Trained PPL over the same sliding windows.
    let trained_ppl = sliding_ppl(&lm, &ids, 16, tok.vocab_size);

    assert!(
        trained_ppl < base_ppl * 0.5,
        "PPL did not drop enough: base={base_ppl:.2} trained={trained_ppl:.2}"
    );
    assert!(
        trained_ppl < tok.vocab_size as f32,
        "trained PPL {trained_ppl:.2} should be below uniform {}",
        tok.vocab_size
    );
}

#[test]
fn lsh_sparse_trains_below_uniform() {
    let corpus = b"to be or not to be that is the question whether tis nobler \
                   in the mind to suffer the slings and arrows of outrageous \
                   fortune or to take arms against a sea of troubles and by \
                   opposing end them to die to sleep no more and by a sleep";
    let tok = Tokenizer::from_corpus(corpus);
    let ids = tok.encode(corpus);
    let cfg = Config {
        vocab_size: tok.vocab_size,
        dim: 32,
        num_layers: 1,
        num_heads: 2,
        max_seq_len: 64,
        ff_dim: 64,
    };
    let mut lm: ToyLm<F> = ToyLm::init_random(cfg, 11);
    let mut trainer = LshSparseTrainer::new(LshSparseConfig {
        learning_rate: F(0.05),
        seq_len: 16,
        epochs: 30,
        sparse_fraction: F(0.0625), // 4 bits -> 16 buckets
        ..Default::default()
    });
    trainer.train(&mut lm, corpus).unwrap();

    // PPL on the same sliding windows the trainer used.
    let mut total = 0.0;
    let mut count = 0usize;
    for start in 0..ids.len().saturating_sub(17) {
        let tokens = &ids[start..start + 16];
        let targets = &ids[start + 1..start + 17];
        let logits = lm.forward(tokens);
        for t in 0..16 {
            let row: Vec<f32> = logits[t * tok.vocab_size..(t + 1) * tok.vocab_size]
                .iter()
                .map(|a| a.0)
                .collect();
            let max = row.iter().cloned().fold(f32::NEG_INFINITY, f32::max);
            let mut sum = 0.0;
            for &v in &row {
                sum += (v - max).exp();
            }
            total -= ((row[targets[t] as usize] - max).exp() / sum).max(1e-12).ln();
            count += 1;
        }
    }
    let ppl = (-(total / count as f32)).exp();
    assert!(
        ppl < tok.vocab_size as f32,
        "LSH PPL {ppl:.2} should be below uniform {}",
        tok.vocab_size
    );
}

#[test]
fn mask_is_actually_sparse() {
    // mask_by_lsh zeros most rows when there are many buckets.
    let lsh: LshIndex<F> = LshIndex::new(4, 4, 1); // 16 buckets
    let mut grad = vec![F(1.0); 32 * 4]; // 32 rows, in_dim 4
    // Activations that hash to only 1 bucket.
    let activations = vec![F(1.0), F(0.0), F(0.0), F(0.0)]; // seq=1
    mask_by_lsh(&mut grad, &activations, 1, 4, &lsh);
    let active_rows = (0..32)
        .filter(|r| (0..4).any(|j| grad[r * 4 + j] != F(0.0)))
        .count();
    // Only rows whose r % 16 matches the one hit bucket survive -> 1 or 2 rows.
    assert!(active_rows <= 4, "expected sparse, got {active_rows}");
    assert!(active_rows >= 1);
}

#[test]
fn only_the_first_rows_of_activations_count() {
    let lsh: LshIndex<F> = LshIndex::new(4, 4, 1);
    let short = vec![F(1.0), F(0.0), F(0.0), F(0.0)];
    let mut long = short.clone();
    long.extend([F(-1.0), F(2.0), F(0.5), F(3.0), F(7.0)]);
    let start: Vec<F> = (0..130).map(|i| F(i as f32 + 1.0)).collect();
    let mut a = start.clone();
    let mut b = start.clone();
    mask_by_lsh(&mut a, &short, 1, 4, &lsh);
    mask_by_lsh(&mut b, &long, 1, 4, &lsh);
    assert_eq!(a, b);
    assert_ne!(a, start);
    // Entries behind the last whole row stay.
    assert_eq!(a[128..], start[128..]);
}

#[test]
fn forward_forward_trains_with_unknown_bytes() {
    // The corpus has more kinds of bytes than the vocabulary.
    let corpus = b"abcdefgh abcdefgh";
    let cfg = Config {
        vocab_size: 4,
        dim: 4,
        num_layers: 2,
        num_heads: 2,
        max_seq_len: 8,
        ff_dim: 6,
    };
    let mut lm: ToyLm<F> = ToyLm::init_random(cfg, 3);
    let gain = lm.weights.ln_f_gain.clone();
    let mut trainer = ForwardForwardTrainer::new(ForwardForwardConfig {
        seq_len: 4,
        epochs: 2,
        learning_rate: F(0.5),
        weight_clip: F(0.25),
        ..Default::default()
    });
    trainer.train(&mut lm, corpus).unwrap();
    let w = &lm.weights;
    for l in 0..2 {
        for m in [&w.qkv[l], &w.attn_out[l], &w.ff_up[l], &w.ff_down[l]] {
            assert!(m.data.iter().all(|x| x.0.abs() <= 0.25));
        }
    }
    assert_eq!(w.ln_f_gain, gain);
}

#[test]
fn hyperplanes_come_from_the_seeded_generator() {
    let lsh: LshIndex<F> = LshIndex::new(3, 2, 42);
    let mut rng = StdRng::seed_from_u64(42);
    for plane in &lsh.hyperplanes {
        assert_eq!(plane.len(), 3);
        for entry in plane {
            let mut s = 0.0f32;
            for _ in 0..4 {
                s += rng.gen::<f32>() * 2.0 - 1.0;
            }
            assert_eq!(entry.0, s);
        }
    }
    assert_eq!(lsh.num_bits(), 2);
    assert_eq!(lsh.num_buckets(), 4);
    let other: LshIndex<F> = LshIndex::new(3, 2, 43);
    assert_ne!(other.hyperplanes, lsh.hyperplanes);
}

#[test]
fn hash_bits_are_the_sides() {
    let lsh = LshIndex {
        hyperplanes: vec![
            vec![F(1.0), F(0.0)],
            vec![F(0.0), F(1.0)],
            vec![F(-1.0), F(-1.0)],
        ],
        num_bits: 3,
    };
    assert_eq!(lsh.hash(&[F(1.0), F(1.0)]), 0b011);
    assert_eq!(lsh.hash(&[F(-1.0), F(0.5)]), 0b110);
    assert_eq!(lsh.hash(&[F(0.0), F(0.0)]), 0b111);
    // No activations, nothing is masked.
    let mut grad = vec![F(1.0); 8];
    mask_by_lsh(&mut grad, &[], 0, 2, &lsh);
    assert_eq!(grad, vec![F(1.0); 8]);
    // One activation in bucket 3: of four rows only row 3 is kept.
    mask_by_lsh(&mut grad, &[F(1.0), F(1.0)], 1, 2, &lsh);
    assert_eq!(&grad[..6], &vec![F(0.0); 6][..]);
    assert_eq!(&grad[6..], &vec![F(1.0); 2][..]);
}

#[test]
fn bits_for_fractions() {
    let bits = |f: f32| {
        LshSparseTrainer::new(LshSparseConfig { sparse_fraction: F(f), ..Default::default() })
            .num_bits()
    };
    assert_eq!(bits(0.0625), 4);
    assert_eq!(bits(0.01), 7);
    assert_eq!(bits(1.0), 1);
    assert_eq!(bits(5.0), 1);
    assert_eq!(bits(0.0), 16);
}

#[test]
fn permuted_windows_differ() {
    let mut rng = StdRng::seed_from_u64(3);
    for _ in 0..50 {
        let w = vec![4u32, 4, 4, 9];
        let p = permute_window(&w, &mut rng);
        let mut s = p.clone();
        s.sort();
        assert_eq!(s, w);
        let changed = w.iter().zip(p.iter()).filter(|(a, b)| a != b).count();
        assert!(changed >= 2);
    }
    assert_eq!(permute_window(&[5, 5, 5], &mut rng), vec![5, 5, 5]);
    assert!(permute_window(&[], &mut rng).is_empty());
}

#[test]
fn negatives_are_shuffled_by_the_generator() {
    let window: Vec<u32> = (0..16).collect();
    let mut rng = StdRng::seed_from_u64(21);
    let mut other = StdRng::seed_from_u64(21);
    for _ in 0..5 {
        let mut want = window.clone();
        want.shuffle(&mut other);
        assert_ne!(want, window);
        assert_eq!(permute_window(&window, &mut rng), want);
    }
}

#[test]
fn first_token_is_exchanged() {
    assert_eq!(exchange_first(&[4, 4, 7, 9]), vec![7, 4, 4, 9]);
    assert_eq!(exchange_first(&[4, 4]), vec![4, 4]);
    assert_eq!(exchange_first(&[]), Vec::<u32>::new());
}

#[test]
fn sigmoid_and_goodness() {
    assert_eq!(sigmoid(F(0.0)), F(0.5));
    assert_eq!(goodness(&[F(1.0), F(3.0)]), F(5.0));
    assert_eq!(goodness::<F>(&[]), F(0.0));
}

fn mk_cfg(vocab: usize) -> Config {
    Config {
        vocab_size: vocab,
        dim: 16,
        num_layers: 1,
        num_heads: 2,
        max_seq_len: 32,
        ff_dim: 32,
    }
}

fn ppl_gelu(lm: &ToyLm<F>, ids: &[u32]) -> f32 {
    window_ppl(lm, ids, 16, Forward::Gelu).0
}

#[test]
fn composite_runs_and_stays_below_uniform() {
    let tok = Tokenizer::from_corpus(LONG);
    let ids = tok.encode(LONG);
    let v = tok.vocab_size;
    let cfg = mk_cfg(v);

    let mut lm: ToyLm<F> = ToyLm::init_random(cfg, 7);
    let mut comp = CompositeTrainer::new(CompositeConfig {
        ff: ForwardForwardConfig { epochs: 5, seq_len: 16, ..Default::default() },
        lsh: LshSparseConfig { epochs: 5, seq_len: 16, ..Default::default() },
        log_every: 0,
        ..Default::default()
    });
    comp.train(&mut lm, LONG).unwrap();
    let ppl = ppl_gelu(&lm, &ids);
    assert!(ppl.is_finite(), "PPL finite, got {ppl}");
    assert!(
        ppl < v as f32,
        "composite PPL {ppl:.2} should be below uniform {v}"
    );
}

#[test]
fn composite_beats_weak_trainers() {
    let tok = Tokenizer::from_corpus(LONG);
    let ids = tok.encode(LONG);
    let v = tok.vocab_size;
    let cfg = mk_cfg(v);

    // FF alone: 30 epochs.
    let mut ff_lm: ToyLm<F> = ToyLm::init_random(cfg.clone(), 7);
    ForwardForwardTrainer::new(ForwardForwardConfig {
        epochs: 30,
        seq_len: 16,
        weight_clip: F(0.5),
        log_every: 0,
        ..Default::default()
    })
    .train(&mut ff_lm, LONG)
    .unwrap();
    let ff_ppl = ppl_gelu(&ff_lm, &ids);

    // LSH alone: 30 epochs.
    let mut lsh_lm: ToyLm<F> = ToyLm::init_random(cfg.clone(), 7);
    LshSparseTrainer::new(LshSparseConfig {
        epochs: 30,
        seq_len: 16,
        log_every: 0,
        ..Default::default()
    })
    .train(&mut lsh_lm, LONG)
    .unwrap();
    let lsh_ppl = ppl_gelu(&lsh_lm, &ids);

    // Hopfield alone: 32 writes.
    let mut hop_lm: ToyLm<F> = ToyLm::init_random(cfg.clone(), 7);
    HopfieldTrainer::new(HopfieldConfig {
        num_writes: 32,
        seq_len: 16,
        log_every: 0,
        ..Default::default()
    })
    .train(&mut hop_lm, LONG)
    .unwrap();
    let hop_ppl = ppl_gelu(&hop_lm, &ids);

    // Composite: default = FF 15 + LSH 15 (SGD/Hopfield off), 30 epochs in total.
    let mut comp_lm: ToyLm<F> = ToyLm::init_random(cfg.clone(), 7);
    let mut comp = CompositeTrainer::new(CompositeConfig {
        log_every: 0,
        ..Default::default()
    });
    comp.train(&mut comp_lm, LONG).unwrap();
    let comp_ppl = ppl_gelu(&comp_lm, &ids);

    println!(
        "FF={ff_ppl:.2} LSH={lsh_ppl:.2} Hopfield={hop_ppl:.2} composite={comp_ppl:.2} (vs LSH: {:+.2}%)",
        (comp_ppl - lsh_ppl) / lsh_ppl * 100.0
    );
    assert!(comp_ppl < ff_ppl, "composite {comp_ppl:.2} should beat FF {ff_ppl:.2}");
    assert!(comp_ppl < hop_ppl, "composite {comp_ppl:.2} should beat Hopfield {hop_ppl:.2}");
}

fn too_small(r: Result<(), NseError>) -> bool {
    match r {
        Err(NseError::Other(m)) => m == "corpus too small for seq_len=16: 17 tokens",
        _ => false,
    }
}

#[test]
fn small_corpora_are_refused() {
    let corpus = b"abcdefghijklmnopq";
    let before: ToyLm<F> = ToyLm::init_random(mk_cfg(17), 1);
    let mut lm = before.clone();
    let c = SgdConfig { seq_len: 16, ..Default::default() };
    assert!(too_small(SgdTrainer::new(c).train(&mut lm, corpus)));
    assert!(too_small(LshSparseTrainer::new(LshSparseConfig::default()).train(&mut lm, corpus)));
    assert!(too_small(
        ForwardForwardTrainer::new(ForwardForwardConfig::default()).train(&mut lm, corpus)
    ));
    assert!(too_small(HopfieldTrainer::new(HopfieldConfig::default()).train(&mut lm, corpus)));
    assert!(too_small(CompositeTrainer::default().train(&mut lm, corpus)));
    assert_eq!(lm.weights.token_embed, before.weights.token_embed);
    assert_eq!(lm.weights.qkv, before.weights.qkv);
}

#[test]
fn phases_without_a_count_are_left_out() {
    let base: CompositeConfig<F> = CompositeConfig::default();
    let all = CompositeTrainer::new(CompositeConfig {
        sgd_warm: SgdConfig { epochs: 1, ..base.sgd_warm },
        hopfield: HopfieldConfig { num_writes: 2, ..base.hopfield },
        ..base
    });
    assert_eq!(
        all.phases(),
        vec![Phase::SgdWarm, Phase::Hopfield, Phase::ForwardForward, Phase::LshSparse]
    );
    let two = CompositeTrainer::new(base);
    assert_eq!(two.phases(), vec![Phase::ForwardForward, Phase::LshSparse]);
}

#[test]
fn trainers_have_names() {
    assert_eq!(SgdTrainer::<F>::new(SgdConfig::default()).name(), "sgd-baseline");
    assert_eq!(ForwardForwardTrainer::<F>::default().name(), "forward-forward");
    assert_eq!(HopfieldTrainer::<F>::default().name(), "hopfield-associative");
    assert_eq!(LshSparseTrainer::<F>::new(LshSparseConfig::default()).name(), "lsh-sparse");
    assert_eq!(CompositeTrainer::<F>::default().name(), "composite");
}

#[test]
fn default_settings() {
    let s: SgdConfig<F> = SgdConfig::default();
    assert_eq!((s.learning_rate, s.lr_decay), (F(0.3), F(0.995)));
    assert_eq!((s.seq_len, s.epochs, s.seed), (32, 200, 1337));
    let t: SgdTrainer<F> = SgdTrainer::new(s);
    assert_eq!((t.momentum, t.max_grad_norm), (F(0.9), F(1.0)));
    let f: ForwardForwardConfig<F> = ForwardForwardConfig::default();
    assert_eq!((f.learning_rate, f.hebbian_embed_lr, f.theta_ema), (F(0.02), F(0.01), F(0.99)));
    assert_eq!(f.homeostasis, Homeostasis::Raw);
    let h: HopfieldConfig<F> = HopfieldConfig::default();
    assert_eq!((h.seq_len, h.num_writes, h.beta, h.value_scale), (16, 64, F(8.0), F(0.1)));
    let l: LshSparseConfig<F> = LshSparseConfig::default();
    assert_eq!((l.learning_rate, l.epochs, l.sparse_fraction), (F(0.05), 40, F(0.01)));
    let c: CompositeConfig<F> = CompositeConfig::default();
    assert_eq!((c.sgd_warm.epochs, c.hopfield.num_writes), (0, 0));
    assert_eq!((c.ff.epochs, c.lsh.epochs, c.ff.weight_clip), (15, 15, F(0.5)));
}

#[test]
fn steps_are_clipped_and_keep_momentum() {
    let cfg = Config {
        vocab_size: 1,
        dim: 2,
        num_layers: 0,
        num_heads: 1,
        max_seq_len: 4,
        ff_dim: 1,
    };
    let mut lm: ToyLm<F> = ToyLm::new(cfg.clone());
    let mut g: ToyLmGrads<F> = ToyLmGrads::zeros(&cfg);
    g.token_embed.data = vec![F(3.0), F(4.0)];
    assert_eq!(grad_norm_sq(&g), F(25.0));
    let mut v: ToyLmGrads<F> = ToyLmGrads::zeros(&cfg);
    // Norm 5 is clipped to 2.5: the gradient is halved.
    apply_step(&mut lm, &g, &mut v, F(1.0), F(0.5), F(2.5));
    assert_eq!(lm.weights.token_embed.data, vec![F(-1.5), F(-2.0)]);
    // The old velocity counts half.
    apply_step(&mut lm, &g, &mut v, F(1.0), F(0.5), F(2.5));
    assert_eq!(v.token_embed.data, vec![F(2.25), F(3.0)]);
    assert_eq!(lm.weights.token_embed.data, vec![F(-3.75), F(-5.0)]);
    // Below the limit nothing is clipped.
    apply_step(&mut lm, &g, &mut v, F(1.0), F(0.0), F(6.0));
    assert_eq!(v.token_embed.data, vec![F(3.0), F(4.0)]);
}

#[test]
fn writes_store_unit_keys_and_scaled_values() {
    let mut lm: ToyLm<F> = ToyLm::init_random(mk_cfg(9), 5);
    let before = lm.clone();
    let (cache, _) = forward_cached(&lm, &[1, 2, 3]);
    write_slot(&mut lm, &[1, 2, 3], 4, 6, F(0.1));
    let d = 16;
    let context: Vec<f32> = cache.layers[0].ln2_out[2 * d..].iter().map(|a| a.0).collect();
    let norm = context.iter().map(|a| a * a).sum::<f32>().sqrt();
    let key = &lm.weights.ff_up[0].data[6 * d..7 * d];
    for j in 0..d {
        assert!((key[j].0 - context[j] / norm).abs() < 1e-5);
    }
    let embed: Vec<f32> = lm.weights.token_embed.data[4 * d..5 * d].iter().map(|a| a.0).collect();
    let len = embed.iter().map(|a| a * a).sum::<f32>().sqrt();
    for j in 0..d {
        let stored = lm.weights.ff_down[0].data[j * 32 + 6].0;
        assert!((stored - 0.1 * embed[j] / len).abs() < 1e-6);
    }
    // All else is as it was.
    assert_eq!(&lm.weights.ff_up[0].data[..6 * d], &before.weights.ff_up[0].data[..6 * d]);
    assert_eq!(lm.weights.token_embed, before.weights.token_embed);
    assert_eq!(lm.weights.qkv, before.weights.qkv);
}

#[test]
fn homeostasis_trains_too() {
    let tok = Tokenizer::from_corpus(LONG);
    let mut lm: ToyLm<F> = ToyLm::init_random(mk_cfg(tok.vocab_size), 2);
    let mut t = ForwardForwardTrainer::new(ForwardForwardConfig {
        epochs: 1,
        homeostasis: Homeostasis::LayerNorm,
        ..Default::default()
    });
    t.train(&mut lm, LONG).unwrap();
    assert_eq!(t.stats.theta, t.stats.g_mean);
    assert!(lm.weights.qkv[0].data.iter().all(|w| w.0.abs() <= 1.0));
    assert!(lm.forward(&[1, 2, 3]).iter().all(|a| a.0.is_finite()));
}
