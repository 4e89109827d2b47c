use nse::autograd::{backward, block_backward_local, forward_cached, ToyLmGrads};
use nse::calibration::{collect_activations, mean_of_rows};
use nse::cluster::ClusterConfig;
use nse::compare::{compare, compare_composite, CompositeTexts};
use nse::config::Config;
use nse::error::NseError;
use nse::hopfield::hopfield_retrieve;
use nse::kernel::KernelKind;
use nse::model_transmuter::transmute;
use nse::options::{
    is_threshold_mode, parse_forward, parse_homeostasis, parse_index, parse_kernel, parse_quant,
    ForwardKind, Homeostasis, IndexKind, SparseOptions,
};
use nse::outlier::OutlierConfig;
use nse::ppl::{
    dense_ppl, dense_ppl_hopfield, logprobs, perplexity_from_logprobs, sparse_ppl,
    sparse_ppl_hopfield, sparse_ppl_hopfield_with_options,
};
use nse::scalar::Scalar;
use nse::sparse::ConfigStub;
use nse::sparse_forward::{
    layer_store, sparse_forward, sparse_forward_hopfield, sparse_forward_with_options, Activation,
};
use nse::tokenizer::Tokenizer;
use nse::toy_lm::ToyLm;
use nse::transmuter::{BiasMode, QuantSchemeConfig, TransmuteConfig};

#[derive(Clone, Copy, Debug, PartialEq)]
struct F(f32);

impl Scalar for F {
    fn spec_zero() -> F {
        F(0.0)
    }
    fn zero() -> F {
        F(0.0)
    }
    fn spec_highest() -> F {
        F(f32::INFINITY)
    }
    fn highest() -> F {
        F(f32::INFINITY)
    }
    fn spec_lowest() -> F {
        F(f32::NEG_INFINITY)
    }
    fn lowest() -> F {
        F(f32::NEG_INFINITY)
    }
    fn spec_count(n: usize) -> F {
        F(n as f32)
    }
    fn from_count(n: usize) -> F {
        F(n as f32)
    }
    fn spec_code(c: i8) -> F {
        F(c as f32)
    }
    fn from_code(c: i8) -> F {
        F(c as f32)
    }
    fn rounded_spec(self) -> usize {
        self.0.round() as usize
    }
    fn rounded(self) -> usize {
        self.0.round() as usize
    }
    fn floored_spec(self) -> usize {
        self.0.floor() as usize
    }
    fn floored(self) -> usize {
        self.0.floor() as usize
    }
    fn plus_spec(self, other: F) -> F {
        F(self.0 + other.0)
    }
    fn plus(self, other: F) -> F {
        F(self.0 + other.0)
    }
    fn minus_spec(self, other: F) -> F {
        F(self.0 - other.0)
    }
    fn minus(self, other: F) -> F {
        F(self.0 - other.0)
    }
    fn times_spec(self, other: F) -> F {
        F(self.0 * other.0)
    }
    fn times(self, other: F) -> F {
        F(self.0 * other.0)
    }
    fn times_plus_spec(self, other: F, third: F) -> F {
        F(self.0.mul_add(other.0, third.0))
    }
    fn times_plus(self, other: F, third: F) -> F {
        F(self.0.mul_add(other.0, third.0))
    }
    fn over_spec(self, other: F) -> F {
        F(self.0 / other.0)
    }
    fn over(self, other: F) -> F {
        F(self.0 / other.0)
    }
    fn negated_spec(self) -> F {
        F(-self.0)
    }
    fn negated(self) -> F {
        F(-self.0)
    }
    fn magnitude_spec(self) -> F {
        F(self.0.abs())
    }
    fn magnitude(self) -> F {
        F(self.0.abs())
    }
    fn root_spec(self) -> F {
        F(self.0.sqrt())
    }
    fn root(self) -> F {
        F(self.0.sqrt())
    }
    fn exp_spec(self) -> F {
        F(self.0.exp())
    }
    fn exp(self) -> F {
        F(self.0.exp())
    }
    fn ln_spec(self) -> F {
        F(self.0.ln())
    }
    fn ln(self) -> F {
        F(self.0.ln())
    }
    fn log2_spec(self) -> F {
        F(self.0.log2())
    }
    fn log2(self) -> F {
        F(self.0.log2())
    }
    fn tanh_spec(self) -> F {
        F(self.0.tanh())
    }
    fn tanh(self) -> F {
        F(self.0.tanh())
    }
    fn below_spec(self, other: F) -> bool {
        self.0 < other.0
    }
    fn below(self, other: F) -> bool {
        self.0 < other.0
    }
    fn at_most_spec(self, other: F) -> bool {
        self.0 <= other.0
    }
    fn at_most(self, other: F) -> bool {
        self.0 <= other.0
    }
    fn spec_vectorised() -> bool {
        true
    }
    fn vectorised() -> bool {
        true
    }
    fn below_irreflexive(self) {}
    fn below_transitive(self, _other: F, _third: F) {}
    fn lowest_is_least(self, _other: F) {}
    fn word_over_words(_word: u32) {}
}

#[test]
fn grad_check() {
    // Small model for finite-difference gradient check.
    let cfg = Config {
        vocab_size: 7,
        dim: 4,
        num_layers: 1,
        num_heads: 2,
        max_seq_len: 8,
        ff_dim: 6,
    };
    let lm: ToyLm<F> = ToyLm::init_random(cfg.clone(), 42);
    let tokens = vec![0u32, 1, 2, 3];
    let targets = vec![1u32, 2, 3, 4]; // predict t+1

    // Analytic gradients.
    let (cache, _logits) = forward_cached(&lm, &tokens);
    let (loss0, grads) = backward(&lm, &cache, &targets);

    // Finite-difference check on a few entries of token_embed.
    let eps = 1e-3;
    let mut lm2 = lm.clone();
    let idxs = [(0, 0), (1, 2), (3, 1), (5, 3)];
    for (r, col) in idxs {
        let orig = lm2.weights.token_embed.data[r * cfg.dim + col].0;
        lm2.weights.token_embed.data[r * cfg.dim + col] = F(orig + eps);
        let (_, l_plus) = forward_cached(&lm2, &tokens);
        let loss_plus = ce_loss(&l_plus, &targets, cfg.vocab_size);

        lm2.weights.token_embed.data[r * cfg.dim + col] = F(orig - eps);
        let (_, l_minus) = forward_cached(&lm2, &tokens);
        let loss_minus = ce_loss(&l_minus, &targets, cfg.vocab_size);
        lm2.weights.token_embed.data[r * cfg.dim + col] = F(orig);

        let num_grad = (loss_plus - loss_minus) / (2.0 * eps);
        let ana_grad = grads.token_embed.data[r * cfg.dim + col].0;
        // Allow generous tolerance for f32 + tanh GELU.
        let denom = num_grad.abs().max(ana_grad.abs()).max(1e-4);
        assert!(
            (num_grad - ana_grad).abs() / denom < 0.05,
            "embed grad mismatch at ({r},{col}): num={num_grad:.6} ana={ana_grad:.6}"
        );
    }
    // loss0 should be ~ln(vocab), about 1.95, at init (random model).
    let loss0 = loss0.0;
    assert!(loss0 > 1.0 && loss0 < 3.0, "unexpected init loss {loss0}");
}

fn ce_loss(logits: &[F], targets: &[u32], vocab: usize) -> f32 {
    let seq = targets.len();
    let mut loss = 0.0;
    for t in 0..seq {
        let row: Vec<f32> = logits[t * vocab..(t + 1) * vocab].iter().map(|a| a.0).collect();
        let max = row.iter().cloned().fold(f32::NEG_INFINITY, f32::max);
        let mut sum = 0.0;
        for &v in &row {
            sum += (v - max).exp();
        }
        let tgt = targets[t] as usize;
        loss -= ((row[tgt] - max).exp() / sum).max(1e-12).ln();
    }
    loss / seq as f32
}

#[test]
fn gradients_of_every_kind_of_weight() {
    let cfg = Config {
        vocab_size: 5,
        dim: 4,
        num_layers: 1,
        num_heads: 2,
        max_seq_len: 8,
        ff_dim: 6,
    };
    let lm: ToyLm<F> = ToyLm::init_random(cfg.clone(), 9);
    let tokens = vec![0u32, 3, 1];
    let targets = vec![3u32, 1, 4];
    let (cache, _) = forward_cached(&lm, &tokens);
    let (_, grads) = backward(&lm, &cache, &targets);
    let eps = 1e-2;
    let loss = |m: &ToyLm<F>| ce_loss(&m.forward(&tokens), &targets, 5);
    let close = |num: f32, ana: f32| (num - ana).abs() < 0.02 * num.abs().max(ana.abs()).max(0.05);
    let mut m = lm.clone();
    for i in [0usize, 7, 30] {
        let at = m.weights.qkv[0].data[i].0;
        m.weights.qkv[0].data[i] = F(at + eps);
        let up = loss(&m);
        m.weights.qkv[0].data[i] = F(at - eps);
        let down = loss(&m);
        m.weights.qkv[0].data[i] = F(at);
        assert!(close((up - down) / (2.0 * eps), grads.qkv[0].data[i].0));
    }
    for i in [0usize, 5, 11] {
        let at = m.weights.ff_up[0].data[i].0;
        m.weights.ff_up[0].data[i] = F(at + eps);
        let up = loss(&m);
        m.weights.ff_up[0].data[i] = F(at - eps);
        let down = loss(&m);
        m.weights.ff_up[0].data[i] = F(at);
        assert!(close((up - down) / (2.0 * eps), grads.ff_up[0].data[i].0));
    }
    for i in 0..4usize {
        let at = m.weights.ln1_gain[0][i].0;
        m.weights.ln1_gain[0][i] = F(at + eps);
        let up = loss(&m);
        m.weights.ln1_gain[0][i] = F(at - eps);
        let down = loss(&m);
        m.weights.ln1_gain[0][i] = F(at);
        assert!(close((up - down) / (2.0 * eps), grads.ln1_gain[0][i].0));
    }
}

#[test]
fn a_plain_step_goes_down() {
    let cfg = Config {
        vocab_size: 7,
        dim: 4,
        num_layers: 1,
        num_heads: 2,
        max_seq_len: 8,
        ff_dim: 6,
    };
    let mut lm: ToyLm<F> = ToyLm::init_random(cfg, 4);
    let (cache, _) = forward_cached(&lm, &[0, 1, 2]);
    let (before, grads) = backward(&lm, &cache, &[1, 2, 3]);
    grads.sgd_step(&mut lm.weights, F(0.005));
    let (cache, _) = forward_cached(&lm, &[0, 1, 2]);
    let (after, _) = backward(&lm, &cache, &[1, 2, 3]);
    assert!(after.0 < before.0);
}

#[test]
fn forward_produces_right_shape() {
    let cfg = Config {
        vocab_size: 16,
        dim: 8,
        num_layers: 2,
        num_heads: 2,
        max_seq_len: 32,
        ff_dim: 16,
    };
    let lm: ToyLm<F> = ToyLm::new(cfg.clone());
    let tokens = vec![0u32, 1, 2, 3];
    let logits = lm.forward(&tokens);
    assert_eq!(logits.len(), tokens.len() * cfg.vocab_size);
    // With zero weights, logits are all zero.
    assert!(logits.iter().all(|&l| l == F(0.0)));
}

#[test]
fn forward_with_random_weights_is_finite() {
    let cfg = Config {
        vocab_size: 16,
        dim: 8,
        num_layers: 1,
        num_heads: 2,
        max_seq_len: 32,
        ff_dim: 16,
    };
    let mut lm: ToyLm<F> = ToyLm::new(cfg.clone());
    // Sprinkle small random-ish values.
    for w in lm.weights.token_embed.data.iter_mut() {
        *w = F(0.01);
    }
    for m in lm.weights.qkv.iter_mut() {
        for v in m.data.iter_mut() {
            *v = F(0.01);
        }
    }
    for m in lm.weights.ff_up.iter_mut() {
        for v in m.data.iter_mut() {
            *v = F(0.01);
        }
    }
    for m in lm.weights.ff_down.iter_mut() {
        for v in m.data.iter_mut() {
            *v = F(0.01);
        }
    }
    let logits = lm.forward(&[0u32, 1, 2]);
    assert_eq!(logits.len(), 3 * cfg.vocab_size);
    assert!(logits.iter().all(|&l| l.0.is_finite()));
}

#[test]
fn num_params_matches_layout() {
    let cfg = Config {
        vocab_size: 10,
        dim: 4,
        num_layers: 2,
        num_heads: 2,
        max_seq_len: 16,
        ff_dim: 8,
    };
    let lm: ToyLm<F> = ToyLm::new(cfg.clone());
    // embed: 10*4=40
    // per layer: qkv 3*4*4=48, attn_out 4*4=16, ff_up 8*4=32, ff_down 4*8=32, ln 2*4=8 => 136
    // 2 layers => 272
    // ln_f: 4
    // total: 40 + 272 + 4 = 316
    assert_eq!(lm.num_params(), 316);
}

#[test]
fn forward_does_not_look_ahead() {
    let cfg = Config {
        vocab_size: 9,
        dim: 8,
        num_layers: 2,
        num_heads: 2,
        max_seq_len: 16,
        ff_dim: 12,
    };
    let lm: ToyLm<F> = ToyLm::init_random(cfg, 21);
    let long = lm.forward(&[1, 5, 2, 8, 0]);
    let short = lm.forward(&[1, 5, 2]);
    assert_eq!(&long[..short.len()], &short[..]);
    let long = lm.forward_hopfield(&[1, 5, 2, 8, 0], F(4.0));
    let short = lm.forward_hopfield(&[1, 5, 2], F(4.0));
    assert_eq!(&long[..short.len()], &short[..]);
}

#[test]
fn cached_forward_is_the_forward() {
    let lm: ToyLm<F> = ToyLm::init_random(Config::toy_default(12), 5);
    let (cache, logits) = forward_cached(&lm, &[3, 4, 11]);
    assert_eq!(logits, lm.forward(&[3, 4, 11]));
    assert_eq!(cache.tokens, vec![3, 4, 11]);
}

#[test]
fn retrieval_prefers_the_matching_key() {
    let cfg = Config {
        vocab_size: 4,
        dim: 2,
        num_layers: 1,
        num_heads: 1,
        max_seq_len: 4,
        ff_dim: 2,
    };
    let mut lm: ToyLm<F> = ToyLm::new(cfg);
    lm.weights.ff_up[0].data = vec![F(1.0), F(0.0), F(0.0), F(1.0)];
    lm.weights.ff_down[0].data = vec![F(5.0), F(-5.0), F(2.0), F(7.0)];
    let z = hopfield_retrieve(&lm, 0, &[F(1.0), F(0.0)], F(50.0));
    assert!((z[0].0 - 5.0).abs() < 1e-4 && (z[1].0 - 2.0).abs() < 1e-4);
    let z = hopfield_retrieve(&lm, 0, &[F(0.0), F(1.0)], F(50.0));
    assert!((z[0].0 + 5.0).abs() < 1e-4 && (z[1].0 - 7.0).abs() < 1e-4);
}

#[test]
fn block_local_grad_nonzero_and_isolated() {
    let cfg = Config {
        vocab_size: 7,
        dim: 4,
        num_layers: 2,
        num_heads: 2,
        max_seq_len: 8,
        ff_dim: 6,
    };
    let lm: ToyLm<F> = ToyLm::init_random(cfg, 1);
    let tokens = vec![0u32, 1, 2, 3];
    let (cache, _) = forward_cached(&lm, &tokens);
    let mut grads: ToyLmGrads<F> = ToyLmGrads::zeros(&lm.config);
    let dy = vec![F(0.1); 4 * 4];
    block_backward_local(&lm, &cache, 1, &dy, F(1.0), &mut grads);

    // Layer 1 should have non-zero qkv grads.
    let nz1 = grads.qkv[1].data.iter().filter(|g| g.0.abs() > 0.0).count();
    assert!(nz1 > 0, "layer-1 qkv grad should be non-zero");
    // Layer 0 should be untouched.
    let nz0 = grads.qkv[0].data.iter().filter(|g| g.0.abs() > 0.0).count();
    assert_eq!(nz0, 0, "layer-0 qkv grad should stay zero");
    // Head/embed untouched.
    assert!(grads.token_embed.data.iter().all(|g| g.0.abs() == 0.0));
    assert!(grads.ln_f_gain.iter().all(|g| g.0.abs() == 0.0));
}

#[test]
fn tokenizer_roundtrip() {
    let text = b"to be or not to be";
    let tok = Tokenizer::from_corpus(text);
    assert_eq!(tok.vocab_size, 7);
    let ids = tok.encode(text);
    assert!(ids.iter().all(|i| (*i as usize) < tok.vocab_size));
    assert_eq!(tok.decode(&ids), text.to_vec());
    assert_eq!(tok.encode(b" be"), vec![0, 1, 2]);
    // A byte without a token is encoded as token zero, and an unknown token is left out.
    assert_eq!(tok.encode(b"z"), vec![0]);
    assert_eq!(tok.decode(&[1, 99, 2]), b"be".to_vec());
    let all = Tokenizer::byte_level();
    assert_eq!(all.vocab_size, 256);
    assert_eq!(all.encode(&[0, 17, 255]), vec![0, 17, 255]);
}

#[test]
fn config_and_stub() {
    let c = Config::toy_default(40);
    assert_eq!((c.dim, c.num_layers, c.num_heads), (128, 2, 4));
    assert_eq!((c.max_seq_len, c.ff_dim, c.vocab_size), (256, 512, 40));
    let s = ConfigStub::from(c.clone());
    assert_eq!(Config::from(s), c);
    assert_eq!(Config::default().vocab_size, 256);
}

#[test]
fn option_texts() {
    assert_eq!(parse_kernel("Scalar").unwrap(), KernelKind::Scalar);
    assert_eq!(parse_kernel("auto").unwrap(), KernelKind::Auto);
    assert!(matches!(parse_kernel("gpu"), Err(_)));
    assert_eq!(parse_index("HNSW").unwrap(), IndexKind::Hnsw);
    assert!(parse_index("tree").is_err());
    assert_eq!(parse_homeostasis("none").unwrap(), Homeostasis::Raw);
    assert_eq!(parse_homeostasis("layernorm").unwrap(), Homeostasis::LayerNorm);
    assert_eq!(parse_forward("gelu").unwrap(), ForwardKind::Gelu);
    assert!(matches!(parse_quant("ternary", 4, 8).unwrap(), QuantSchemeConfig::Ternary));
    assert!(matches!(
        parse_quant("pq", 4, 8).unwrap(),
        QuantSchemeConfig::Pq { num_sub_vectors: 4, nbits: 8, .. }
    ));
    assert!(is_threshold_mode("threshold"));
    assert!(!is_threshold_mode("all"));
}

#[test]
fn perplexity_of_logprobs() {
    let half = F(0.5f32.ln());
    assert!((perplexity_from_logprobs(&[half, half]).0 - 2.0).abs() < 1e-5);
    assert!(perplexity_from_logprobs::<F>(&[]).0.is_infinite());
}

#[test]
fn logprobs_of_targets() {
    let logits = [F(0.0), F(0.0), F(3.0f32.ln()), F(0.0), F(-100.0), F(0.0)];
    let lp = logprobs(&logits, &[1, 0, 0], 2);
    assert_eq!(lp.len(), 3);
    assert!((lp[0].0 - 0.5f32.ln()).abs() < 1e-6);
    assert!((lp[1].0 - 0.75f32.ln()).abs() < 1e-6);
    // Probabilities are at least a million-millionth.
    assert!((lp[2].0 - 1e-12f32.ln()).abs() < 1e-4);
    assert!((perplexity_from_logprobs(&lp[0..1]).0 - 2.0).abs() < 1e-5);
    assert!(logprobs::<F>(&[], &[], 5).is_empty());
}

#[test]
fn empty_memories_add_nothing() {
    let mut lm = small_model(5);
    let tokens = [0u32, 1, 2, 1];
    assert_ne!(lm.forward_hopfield(&tokens, F(2.0)), lm.forward(&tokens));
    for m in lm.weights.ff_down.iter_mut() {
        m.data.iter_mut().for_each(|x| *x = F(0.0));
    }
    for beta in [0.0, 0.5, 8.0] {
        assert_eq!(lm.forward_hopfield(&tokens, F(beta)), lm.forward(&tokens));
    }
}

#[test]
fn retrieval_without_slots_adds_nothing() {
    let cfg = Config {
        vocab_size: 5,
        dim: 4,
        num_layers: 2,
        num_heads: 2,
        max_seq_len: 8,
        ff_dim: 0,
    };
    let lm: ToyLm<F> = ToyLm::init_random(cfg, 9);
    let out = lm.forward_hopfield(&[1, 2, 3], F(4.0));
    assert_eq!(out.len(), 15);
    assert!(out.iter().all(|x| x.0.is_finite()));
    assert_eq!(out, lm.forward_hopfield(&[1, 2, 3], F(0.1)));
    assert!(dense_ppl_hopfield(&lm, &[0, 1, 2, 3, 4], 2, F(1.0)).0.is_finite());
}

#[test]
fn perplexity_of_a_blank_model_is_uniform() {
    let lm: ToyLm<F> = ToyLm::new(Config {
        vocab_size: 8,
        dim: 4,
        num_layers: 1,
        num_heads: 1,
        max_seq_len: 8,
        ff_dim: 4,
    });
    let p = dense_ppl(&lm, &[0, 1, 2, 3, 4, 5, 6], 3);
    assert!((p.0 - 8.0).abs() < 1e-4);
    assert!(dense_ppl(&lm, &[0, 1, 2], 3).0.is_infinite());
}

fn covered_and_unbiased(tm: &nse::sparse::TransmutedModel<F>) {
    for layer in &tm.layers {
        for sl in layer {
            assert_eq!(sl.covered_rows(), sl.out_dim, "covered rows must equal out_dim");
            for &r in &sl.core_row_ids {
                assert_eq!(sl.bias[r as usize], F(0.0));
            }
        }
    }
}

#[test]
fn transmute_covers_all_rows() {
    let cfg = Config {
        vocab_size: 8,
        dim: 4,
        num_layers: 1,
        num_heads: 2,
        max_seq_len: 8,
        ff_dim: 6,
    };
    let lm: ToyLm<F> = ToyLm::init_random(cfg, 3);
    let tcfg = TransmuteConfig::poc();
    let tm = transmute(&lm, None, None, &tcfg).unwrap();
    assert_eq!(tm.config.dim, 4);
    // bias zeroed for core rows.
    covered_and_unbiased(&tm);
}

#[test]
fn transmute_pq_roundtrip() {
    let cfg = Config {
        vocab_size: 16,
        dim: 32,
        num_layers: 1,
        num_heads: 2,
        max_seq_len: 8,
        ff_dim: 64,
    };
    let lm: ToyLm<F> = ToyLm::init_random(cfg, 7);
    let tcfg = TransmuteConfig::pq();
    let tm = transmute(&lm, None, None, &tcfg).unwrap();

    // dim=32 is divisible by M=4: sub_dim=8 (no fallback).
    for layer in &tm.layers {
        for sl in layer {
            assert_eq!(sl.covered_rows(), sl.out_dim, "PQ: covered rows must equal out_dim");
            for &r in &sl.core_row_ids {
                assert_eq!(sl.bias[r as usize], F(0.0), "PQ: core-row bias must be 0");
            }
            // If the layer has any experts, the codebook must be present.
            if !sl.experts.is_empty() {
                let cb = sl.pq_codebook.as_ref().expect("PQ layer must have a shared codebook");
                assert_eq!(cb.num_sub_vectors, 4, "PQ M should be 4 for dim 32/ff 64");
                assert_eq!(cb.nbits, 8, "PQ nbits should be 8");
                assert_eq!(
                    cb.sub_dim,
                    sl.in_dim / cb.num_sub_vectors,
                    "PQ sub_dim must equal in_dim / M"
                );
                assert_eq!(
                    cb.codebook.len(),
                    cb.num_sub_vectors * cb.num_entries() * cb.sub_dim,
                    "PQ codebook size"
                );
                for e in &sl.experts {
                    let pq = e.pq.as_ref().expect("PQ layer experts must have pq: Some");
                    assert_eq!(pq.num_sub_vectors, 4, "expert num_sub_vectors");
                    assert_eq!(pq.codes.len(), e.row_ids.len() * 4, "PQ codes length = rows * M");
                    assert_eq!(pq.row_scales.len(), e.row_ids.len(), "PQ row_scales length = rows");
                }
            }
        }
    }
}

#[test]
fn transmute_pq_fallback_m_for_undivisible_in_dim() {
    let cfg = Config {
        vocab_size: 12,
        dim: 30, // not divisible by 4; largest divisor up to 4 is 3
        num_layers: 1,
        num_heads: 2,
        max_seq_len: 8,
        ff_dim: 60, // divisible by 4: stays M=4
    };
    let lm: ToyLm<F> = ToyLm::init_random(cfg, 7);
    let tcfg = TransmuteConfig {
        outlier: OutlierConfig { fraction: F(0.1) },
        cluster: ClusterConfig { num_experts: 0, iters: 10, seed: 7 },
        quant: QuantSchemeConfig::Pq {
            num_sub_vectors: 4,
            nbits: 8,
            iters: 10,
            seed: 7,
        },
        bias_mode: BiasMode::Mean,
    };
    let tm = transmute(&lm, None, None, &tcfg).unwrap();
    // qkv/attn_out/ff_up feed dim=30: fallback to M=3 (sub_dim=10).
    let sl_qkv = &tm.layers[0][0];
    if let Some(cb) = &sl_qkv.pq_codebook {
        assert_eq!(cb.num_sub_vectors, 3, "dim=30 should fall back to M=3");
        assert_eq!(cb.sub_dim, 10);
    }
    // ff_down feeds ff_dim=60: stays M=4 (sub_dim=15).
    let sl_ff_down = &tm.layers[0][3];
    if let Some(cb) = &sl_ff_down.pq_codebook {
        assert_eq!(cb.num_sub_vectors, 4, "ff_dim=60 should keep M=4");
        assert_eq!(cb.sub_dim, 15);
    }
}

#[test]
fn transmute_adaptive_roundtrip() {
    let cfg = Config {
        vocab_size: 32,
        dim: 64,
        num_layers: 1,
        num_heads: 2,
        max_seq_len: 32,
        ff_dim: 64,
    };
    let lm: ToyLm<F> = ToyLm::init_random(cfg, 11);
    // A corpus long enough for more than one sliding window (seq=32, step=16).
    let corpus = b"to be or not to be that is the question whether tis nobler \
                   in the mind to suffer the slings and arrows of outrageous \
                   fortune or to take arms against a sea of troubles and by \
                   opposing end them to die to sleep no more and by a sleep";
    let tm = transmute(&lm, Some(&corpus[..]), None, &TransmuteConfig::adaptive()).unwrap();
    for layer in &tm.layers {
        for sl in layer {
            assert_eq!(sl.covered_rows(), sl.out_dim, "covered rows");
            for &r in &sl.core_row_ids {
                assert_eq!(sl.bias[r as usize], F(0.0), "core bias zeroed");
            }
            // Adaptive artifacts present on any layer with experts.
            if !sl.experts.is_empty() {
                assert!(sl.row_to_expert.len() == sl.out_dim, "row_to_expert set");
                let cb = sl.input_codebook.as_ref().expect("input_codebook");
                assert_eq!(cb.num_sub_vectors, 1, "VQ M=1");
                assert_eq!(cb.nbits, 8, "VQ 8-bit");
                let table = sl.bias_table.as_ref().expect("bias_table");
                assert_eq!(table.len(), cb.num_entries() * sl.out_dim, "bias_table size");
                // Every expert is PQ (adaptive implies PQ quant).
                for e in &sl.experts {
                    assert!(e.pq.is_some(), "expert pq present");
                }
            }
        }
    }
}

#[test]
fn activation_pq_bias_table_math() {
    let cfg = Config {
        vocab_size: 24,
        dim: 32,
        num_layers: 1,
        num_heads: 2,
        max_seq_len: 32,
        ff_dim: 32,
    };
    let lm: ToyLm<F> = ToyLm::init_random(cfg, 11);
    let corpus = b"to be or not to be that is the question whether tis nobler \
                   in the mind to suffer the slings and arrows of outrageous";
    let tm = transmute(&lm, Some(&corpus[..]), None, &TransmuteConfig::adaptive()).unwrap();
    let sl = &tm.layers[0][0]; // qkv
    let pq_cb = sl.pq_codebook.as_ref().expect("weight codebook");
    let act_cb = sl.input_codebook.as_ref().expect("activation codebook");
    let table = sl.bias_table.as_ref().expect("bias_table");
    let n_codes = act_cb.num_entries();
    let sub_dim = act_cb.sub_dim; // = in_dim (M=1)
    assert_eq!(sub_dim, sl.in_dim);
    // Pick a prunable row (owned by some expert) and check a few codes.
    let prunable: Vec<usize> = (0..sl.out_dim).filter(|&i| sl.row_to_expert[i] >= 0).collect();
    assert!(!prunable.is_empty(), "must have prunable rows");
    let i = prunable[0];
    // Reconstruct W_quant[i] from the owning expert's PQ codes.
    let (expert_idx, local_j) = {
        let e = sl.row_to_expert[i] as usize;
        let j = sl.experts[e].row_ids.iter().position(|&r| r as usize == i).unwrap();
        (e, j)
    };
    let expert = &sl.experts[expert_idx];
    let pq = expert.pq.as_ref().unwrap();
    let m = pq.num_sub_vectors;
    let scale = pq.row_scales[local_j].0;
    let codes = &pq.codes[local_j * m..(local_j + 1) * m];
    let n_entries = pq_cb.num_entries();
    let wq: Vec<f32> = {
        let mut row = vec![0.0f32; sl.in_dim];
        for sm in 0..m {
            let c = (codes[sm] as usize).min(n_entries - 1);
            let base = sm * n_entries * pq_cb.sub_dim + c * pq_cb.sub_dim;
            for k in 0..pq_cb.sub_dim {
                row[sm * pq_cb.sub_dim + k] = scale * pq_cb.codebook[base + k].0;
            }
        }
        row
    };
    // For each code c: bias_table[c*out_dim + i] should be wq . centroid[c].
    for c in 0..n_codes {
        let cent = &act_cb.codebook[c * sub_dim..c * sub_dim + sub_dim];
        let dot: f32 = wq.iter().zip(cent.iter()).map(|(a, b)| a * b.0).sum();
        let stored = table[c * sl.out_dim + i].0;
        assert!(
            (stored - dot).abs() < 1e-3,
            "code {c}: stored {stored:.6} vs computed {dot:.6} (diff {})",
            (stored - dot).abs()
        );
    }
    // Core rows should be 0 in the bias_table.
    for &r in &sl.core_row_ids {
        for c in 0..n_codes {
            assert_eq!(table[c * sl.out_dim + r as usize], F(0.0), "core row zero in table");
        }
    }
}

#[test]
fn calibration_multi_window() {
    // dim=16 so the model is tiny; max_seq_len=8, step=4.
    let cfg = Config {
        vocab_size: 16,
        dim: 16,
        num_layers: 1,
        num_heads: 2,
        max_seq_len: 8,
        ff_dim: 16,
    };
    let lm: ToyLm<F> = ToyLm::init_random(cfg, 3);
    // Long corpus (multi-window).
    let long_corpus = b"to be or not to be that is the question whether \
                        tis nobler in the mind to suffer the slings and \
                        arrows of outrageous fortune or to take arms against \
                        a sea of troubles and by opposing end them to die";
    let short_corpus = b"to be or not to be that is the question";
    let long_rows = collect_activations(&lm, Some(&long_corpus[..]));
    let short_rows = collect_activations(&lm, Some(&short_corpus[..]));
    assert!(
        long_rows.qkv[0].len() > short_rows.qkv[0].len(),
        "multi-window should collect more rows: long={} short={}",
        long_rows.qkv[0].len(),
        short_rows.qkv[0].len()
    );
    // The mean over more rows should differ.
    let long_mean = mean_of_rows(&long_rows.qkv[0], 16);
    let short_mean = mean_of_rows(&short_rows.qkv[0], 16);
    let diff: f32 = long_mean.iter().zip(short_mean.iter()).map(|(a, b)| (a.0 - b.0).abs()).sum();
    assert!(diff > 1e-4, "means should differ with more calibration data");
}

#[test]
fn calibration_without_a_corpus_is_empty() {
    let lm: ToyLm<F> = ToyLm::init_random(Config::toy_default(4), 3);
    let rows = collect_activations(&lm, None);
    assert_eq!(rows.qkv.len(), 2);
    assert!(rows.qkv[0].is_empty() && rows.ff_down[1].is_empty());
    let m: Vec<F> = mean_of_rows(&rows.qkv[0], 3);
    assert_eq!(m, vec![F(0.0); 3]);
    // 9 tokens, windows of 8, one step of 4: one window.
    let small: ToyLm<F> = ToyLm::init_random(
        Config {
            vocab_size: 9,
            dim: 4,
            num_layers: 1,
            num_heads: 1,
            max_seq_len: 8,
            ff_dim: 4,
        },
        1,
    );
    let rows = collect_activations(&small, Some(&b"abcdefghi"[..]));
    assert_eq!(rows.attn_out[0].len(), 8);
    let rows = collect_activations(&small, Some(&b"ab"[..]));
    assert!(rows.attn_out[0].is_empty());
}

const CORPUS: &[u8] = b"to be or not to be that is the question whether tis nobler \
                        in the mind to suffer the slings and arrows of outrageous \
                        fortune or to take arms against a sea of troubles and by";

fn small_model(seed: u64) -> ToyLm<F> {
    let tok = Tokenizer::from_corpus(CORPUS);
    ToyLm::init_random(
        Config {
            vocab_size: tok.vocab_size,
            dim: 16,
            num_layers: 1,
            num_heads: 2,
            max_seq_len: 32,
            ff_dim: 32,
        },
        seed,
    )
}

#[test]
fn compare_runs_and_reports() {
    let lm = small_model(5);
    let tm = transmute(&lm, Some(CORPUS), None, &TransmuteConfig::poc()).unwrap();
    let report = compare(&lm, &tm, CORPUS, 16, Activation::All);
    let s = report.pretty(
        &format!("{:.4}", report.ppl_dense.0),
        &format!("{:.4}", report.ppl_sparse.0),
        &format!("{:.2}", report.degradation_percent().0),
        &format!("{:.4}", report.active_percent().0),
        "",
    );
    assert!(s.contains("PPL dense"));
    assert!(s.contains("PPL sparse"));
    // Both PPLs should be finite.
    assert!(report.ppl_dense.0.is_finite());
    assert!(report.ppl_sparse.0.is_finite());
    // With all experts on, sparse PPL should be close-ish to dense, within an order of
    // magnitude.
    assert!(report.ppl_sparse.0 < report.ppl_dense.0 * 10.0);
}

#[test]
fn compare_composite_runs_and_reports() {
    let lm = small_model(5);
    let tm = transmute(&lm, Some(CORPUS), None, &TransmuteConfig::poc()).unwrap();
    let report = compare_composite(
        &lm,
        &tm,
        CORPUS,
        16,
        F(8.0),
        Activation::All,
        SparseOptions::default(),
    );
    let (hd, sg, sh, hs) = report.percents();
    let s = report.pretty(&CompositeTexts {
        active: &format!("{:.4}", report.active_percent().0),
        dense_gelu: &format!("{:.4}", report.dense_gelu.0),
        dense_hopfield: &format!("{:.4}", report.dense_hopfield.0),
        sparse_gelu: &format!("{:.4}", report.sparse_gelu.0),
        sparse_hopfield: &format!("{:.4}", report.sparse_hopfield.0),
        hopfield_dense: &format!("{:+.2}", hd.0),
        sparse_gelu_loss: &format!("{:+.2}", sg.0),
        sparse_hopfield_loss: &format!("{:+.2}", sh.0),
        hopfield_sparse: &format!("{:+.2}", hs.0),
        ratio: "",
    });
    assert!(s.contains("dense  GELU"));
    assert!(s.contains("sparse GELU"));
    let (dg, dh) = (report.dense_gelu.0, report.dense_hopfield.0);
    let (sg, sh) = (report.sparse_gelu.0, report.sparse_hopfield.0);
    assert!(dg.is_finite());
    assert!(dh.is_finite());
    assert!(sg.is_finite());
    assert!(sh.is_finite());
    // All four within an order of magnitude of each other on this tiny model.
    let hi = dg.max(dh).max(sg).max(sh);
    let lo = dg.min(dh).min(sg).min(sh);
    assert!(hi < lo * 50.0, "paths diverge too much: lo={lo:.2} hi={hi:.2}");
}

#[test]
fn report_text_is_exact() {
    let lm = small_model(5);
    let tm = transmute(&lm, None, None, &TransmuteConfig::poc()).unwrap();
    let act = Activation::Threshold { ratio: F(0.5), max_k: 3 };
    let report = compare(&lm, &tm, b"to be", 16, act);
    assert_eq!(
        report.pretty("1.0000", "2.0000", "100.00", "50.0000", "0.5"),
        "PPL dense  : 1.0000\nPPL sparse : 2.0000\ndegradation: +100.00%\n\
         avg active : 50.0000% of params/token\nactivation : threshold(ratio=0.5, max_k=3)"
    );
    // Too few tokens for a window: both perplexities are infinite.
    assert!(report.ppl_dense.0.is_infinite());
}

#[test]
fn indexes_and_kernels_agree() {
    let lm = small_model(8);
    let tm = transmute(&lm, Some(CORPUS), None, &TransmuteConfig::poc()).unwrap();
    let tokens = [1u32, 4, 2, 7, 3];
    let plain = sparse_forward(&tm, &tokens, Activation::All);
    for kernel in [KernelKind::Scalar, KernelKind::Avx2, KernelKind::Auto] {
        for index in [IndexKind::Brute, IndexKind::Hnsw] {
            let opts = SparseOptions { kernel, index };
            let other = sparse_forward_with_options(&tm, &tokens, Activation::All, opts);
            for (a, b) in plain.iter().zip(other.iter()) {
                assert!((a.0 - b.0).abs() < 1e-3);
            }
        }
    }
    let act = Activation::Threshold { ratio: F(0.5), max_k: 2 };
    let brute = sparse_forward(&tm, &tokens, act);
    let opts = SparseOptions { kernel: KernelKind::Scalar, index: IndexKind::Hnsw };
    assert_eq!(sparse_forward_with_options(&tm, &tokens, act, opts), brute);
    assert_eq!(plain.len(), tokens.len() * lm.config.vocab_size);
    let ids = [1u32, 2, 3, 4, 5];
    assert!(sparse_ppl(&tm, &ids, 2, Activation::All).0.is_finite());
    let opts = SparseOptions::default();
    let ppl = sparse_ppl_hopfield(&tm, &ids, 2, F(8.0), Activation::All);
    assert!(ppl.0.is_finite());
    assert_eq!(
        ppl,
        sparse_ppl_hopfield_with_options(&tm, &ids, 2, F(8.0), Activation::All, opts)
    );
}

#[test]
fn store_puts_a_layer_together() {
    let lm = small_model(8);
    let tm = transmute(&lm, None, None, &TransmuteConfig::poc()).unwrap();
    let sl = &tm.layers[0][2];
    let m = layer_store(sl);
    assert_eq!((m.rows, m.cols), (32, 16));
    for (i, r) in sl.core_row_ids.iter().enumerate() {
        assert_eq!(m.row(*r as usize).unwrap(), sl.dense_core.row(i).unwrap());
        assert_eq!(m.row(*r as usize).unwrap(), lm.weights.ff_up[0].row(*r as usize).unwrap());
    }
    let logits = sparse_forward_hopfield(&tm, &[1, 2, 3], F(8.0), Activation::All);
    assert!(logits.iter().all(|a| a.0.is_finite()));
}

#[test]
fn transmuting_without_rows_fails() {
    let lm: ToyLm<F> = ToyLm::new(Config {
        vocab_size: 4,
        dim: 4,
        num_layers: 1,
        num_heads: 1,
        max_seq_len: 8,
        ff_dim: 0,
    });
    assert!(matches!(
        transmute(&lm, None, None, &TransmuteConfig::pq()),
        Err(NseError::Other(_))
    ));
}
