//! Training by writing into an associative memory. The rows of a layer's first feed-forward
//! matrix are keys and the columns of the second are values; a write stores the direction
//! of the next token under the context in front of it, without gradients.

use vstd::prelude::*;
use crate::autograd::{
    cache_shaped, cached, forward_cached, law_cached_is_shaped, layer_shaped, scale_all, scaled_all,
    ForwardCache,
};
use crate::cluster::{unit, unit_row};
use crate::config::Config;
use crate::error::NseResult;
use crate::scalar::Scalar;
use crate::tensor::{copy_range, lemma_cell_index, lemma_cell_unique, row_of, Matrix};
use crate::tokenizer::corpus_tokens;
use crate::toy_lm::{has_shape, retrieve, retrieved, ToyLm, ToyLmWeights};
use crate::trainer::{
    num_windows, refused_as_small, tokenize, too_small, too_small_error, trainable, window, Trainer,
};
use crate::transformer::{one, row_at};

verus! {

/// The settings of associative training.
#[derive(Debug, Clone, Copy)]
pub struct HopfieldConfig<T> {
    /// The length of the windows.
    pub seq_len: usize,
    /// The number of writes into each layer.
    pub num_writes: usize,
    /// How sharply retrieval prefers the best key.
    pub beta: T,
    /// The length of the stored values.
    pub value_scale: T,
    /// How often callers report progress; zero for silence.
    pub log_every: usize,
    /// Kept for callers that draw weights.
    pub seed: u64,
}

impl<T: Scalar> Default for HopfieldConfig<T> {
    fn default() -> (r: Self)
        ensures
            r.seq_len == 16,
            r.num_writes == 64,
            r.beta == T::spec_count(8),
            r.value_scale == one::<T>().over_spec(T::spec_count(10)),
            r.log_every == 0,
            r.seed == 3,
    {
        HopfieldConfig {
            seq_len: 16,
            num_writes: 64,
            beta: T::from_count(8),
            value_scale: T::from_count(1).over(T::from_count(10)),
            log_every: 0,
            seed: 3,
        }
    }
}

/// The associative trainer.
#[derive(Debug, Clone, Copy)]
pub struct HopfieldTrainer<T> {
    pub config: HopfieldConfig<T>,
}

impl<T: Scalar> HopfieldTrainer<T> {
    /// A trainer.
    pub fn new(config: HopfieldConfig<T>) -> (r: Self)
        ensures
            r.config == config,
    {
        HopfieldTrainer { config }
    }
}

impl<T: Scalar> Default for HopfieldTrainer<T> {
    fn default() -> (r: Self)
        ensures
            r.config.seq_len == 16,
            r.config.num_writes == 64,
            r.config.beta == T::spec_count(8),
            r.config.value_scale == one::<T>().over_spec(T::spec_count(10)),
            r.config.log_every == 0,
            r.config.seed == 3,
    {
        HopfieldTrainer::new(HopfieldConfig::default())
    }
}

/// What the memory of layer `l` retrieves for a query.
pub fn hopfield_retrieve<T: Scalar>(model: &ToyLm<T>, l: usize, query: &[T], beta: T) -> (r: Vec<T>)
    requires
        model.wf(),
        l < model.config.num_layers,
    ensures
        r@ == retrieved(
            model.weights.ff_up@[l as int],
            model.weights.ff_down@[l as int],
            query@,
            beta,
        ),
{
    proof {
        let c = model.config;
        assert(has_shape(model.weights.ff_up@[l as int], c.ff_dim as int, c.dim as int));
        assert(has_shape(model.weights.ff_down@[l as int], c.dim as int, c.ff_dim as int));
    }
    retrieve(&model.weights.ff_up[l], &model.weights.ff_down[l], query, beta)
}

/// Whether `b` is the matrix `a` with row `r` replaced.
pub open spec fn row_replaced<T>(a: Matrix<T>, b: Matrix<T>, r: int, row: Seq<T>) -> bool {
    &&& b.wf() && b.rows == a.rows && b.cols == a.cols
    &&& forall|p: int, q: int|
        0 <= p < a.rows && 0 <= q < a.cols ==> #[trigger] b.cell(p, q) == if p == r {
            row[q]
        } else {
            a.cell(p, q)
        }
}

/// Whether `b` is the matrix `a` with column `c` replaced.
pub open spec fn column_replaced<T>(a: Matrix<T>, b: Matrix<T>, c: int, column: Seq<T>) -> bool {
    &&& b.wf() && b.rows == a.rows && b.cols == a.cols
    &&& forall|p: int, q: int|
        0 <= p < a.rows && 0 <= q < a.cols ==> #[trigger] b.cell(p, q) == if q == c {
            column[p]
        } else {
            a.cell(p, q)
        }
}

/// Replaces a row.
fn replace_row<T: Scalar>(m: &mut Matrix<T>, r: usize, row: &[T])
    requires
        old(m).wf(),
        r < old(m).rows,
        row@.len() == old(m).cols,
    ensures
        row_replaced(*old(m), *final(m), r as int, row@),
{
    let ghost m0 = *m;
    let cols: usize = m.cols;
    let rows: usize = m.rows;
    proof {
        crate::tensor::lemma_row_index(rows as int, cols as int, r as int);
        assert(m.data.len() == m.data@.len());
    }
    let base: usize = r * cols;
    for q in 0..cols
        invariant
            row@.len() == cols,
            base + cols <= m0.data@.len(),
            m.rows == m0.rows,
            m.cols == m0.cols,
            m.data@.len() == m0.data@.len(),
            m0.data@.len() <= usize::MAX,
            forall|i: int|
                0 <= i < m0.data@.len() && !(base <= i < base + q) ==> m.data@[i] == m0.data@[i],
            forall|i: int| base <= i < base + q ==> #[trigger] m.data@[i] == row@[i - base],
    {
        m.data[base + q] = row[q];
    }
    proof {
        assert forall|p: int, q: int| 0 <= p < rows && 0 <= q < cols implies #[trigger] m.cell(p, q)
            == if p == r {
            row@[q]
        } else {
            m0.cell(p, q)
        } by {
            lemma_cell_index(rows as int, cols as int, p, q);
            let i = p * cols + q;
            if p == r {
                assert(m.data@[base + q] == row@[q]);
            } else if base <= i < base + cols {
                lemma_cell_unique(cols as int, p, q, r as int, i - base);
            }
        }
    }
}

/// Replaces a column.
fn replace_column<T: Scalar>(m: &mut Matrix<T>, c: usize, column: &[T])
    requires
        old(m).wf(),
        c < old(m).cols,
        column@.len() == old(m).rows,
    ensures
        column_replaced(*old(m), *final(m), c as int, column@),
{
    let ghost m0 = *m;
    let cols: usize = m.cols;
    let rows: usize = m.rows;
    for p in 0..rows
        invariant
            column@.len() == rows,
            m0.wf(),
            m0.rows == rows,
            m0.cols == cols,
            c < cols,
            m.wf(),
            m.rows == rows,
            m.cols == cols,
            forall|s: int, q: int|
                0 <= s < rows && 0 <= q < cols ==> #[trigger] m.cell(s, q) == if q == c && s < p {
                    column@[s]
                } else {
                    m0.cell(s, q)
                },
    {
        proof {
            lemma_cell_index(rows as int, cols as int, p as int, c as int);
            assert(m.data.len() == m.data@.len());
            assert(0 <= p * cols) by (nonlinear_arith);
        }
        let ghost before = *m;
        m.data[p * cols + c] = column[p];
        proof {
            assert forall|s: int, q: int| 0 <= s < rows && 0 <= q < cols implies #[trigger] m.cell(
                s,
                q,
            ) == if q == c && s < p + 1 {
                column@[s]
            } else {
                m0.cell(s, q)
            } by {
                lemma_cell_index(rows as int, cols as int, s, q);
                assert(before.cell(s, q) == if q == c && s < p {
                    column@[s]
                } else {
                    m0.cell(s, q)
                });
                if s * cols + q == p * cols + c {
                    lemma_cell_unique(cols as int, s, q, p as int, c as int);
                }
            }
        }
    }
}

/// The key that a write stores in layer `l`: the normalised state at the last position,
/// scaled to length one.
pub open spec fn key_of<T: Scalar>(cache: ForwardCache<T>, c: Config, l: int) -> Seq<T> {
    unit(row_of(cache.layers@[l].ln2_out@, c.dim as int, cache.tokens@.len() - 1))
}

/// The value that a write stores: the embedding of the next token, scaled to the length of
/// values.
pub open spec fn value_of<T: Scalar>(w: ToyLmWeights<T>, target: u32, value_scale: T) -> Seq<T> {
    scaled_all(unit(w.token_embed.row_seq(target as int)), value_scale)
}

/// Whether the keys and values of the first `n` layers were written into a slot, and all
/// else is as it was.
pub open spec fn layers_written<T: Scalar>(
    w0: ToyLmWeights<T>,
    w1: ToyLmWeights<T>,
    cache: ForwardCache<T>,
    c: Config,
    slot: int,
    value: Seq<T>,
    n: int,
) -> bool {
    &&& w1 == (ToyLmWeights { ff_up: w1.ff_up, ff_down: w1.ff_down, ..w0 })
    &&& w1.ff_up@.len() == w0.ff_up@.len()
    &&& w1.ff_down@.len() == w0.ff_down@.len()
    &&& forall|l: int|
        0 <= l < n ==> row_replaced(w0.ff_up@[l], #[trigger] w1.ff_up@[l], slot, key_of(cache, c, l))
    &&& forall|l: int|
        0 <= l < n ==> column_replaced(w0.ff_down@[l], #[trigger] w1.ff_down@[l], slot, value)
    &&& forall|l: int| n <= l < w0.ff_up@.len() ==> #[trigger] w1.ff_up@[l] == w0.ff_up@[l]
    &&& forall|l: int| n <= l < w0.ff_down@.len() ==> #[trigger] w1.ff_down@[l] == w0.ff_down@[l]
}

/// Whether a write leads from `m0` to `m1`.
pub open spec fn wrote<T: Scalar>(
    m0: ToyLm<T>,
    m1: ToyLm<T>,
    tokens: Seq<u32>,
    target: u32,
    slot: int,
    value_scale: T,
) -> bool {
    &&& m1.config == m0.config
    &&& exists|cache: ForwardCache<T>|
        cached(cache, m0) && cache.tokens@ == tokens && #[trigger] layers_written(
            m0.weights,
            m1.weights,
            cache,
            m0.config,
            slot,
            value_of(m0.weights, target, value_scale),
            m0.config.num_layers as int,
        )
}

/// Stores in a slot of each layer the direction of the token that follows a window, under
/// the state at the window's last position.
pub fn write_slot<T: Scalar>(
    model: &mut ToyLm<T>,
    tokens: &[u32],
    target: u32,
    slot: usize,
    value_scale: T,
)
    requires
        old(model).wf(),
        crate::toy_lm::can_run(old(model).config, tokens@.len()),
        tokens@.len() > 0,
        target < old(model).config.vocab_size,
        slot < old(model).config.ff_dim || old(model).config.num_layers == 0,
    ensures
        wrote(*old(model), *final(model), tokens@, target, slot as int, value_scale),
        final(model).wf(),
        final(model).config == old(model).config,
{
    let ghost m0 = *model;
    let (cache, _logits) = forward_cached(model, tokens);
    proof {
        law_cached_is_shaped(cache, m0);
    }
    let d: usize = model.config.dim;
    let n: usize = model.config.num_layers;
    let last: usize = tokens.len() - 1;
    let direction = unit_row(
        row_at(
            &model.weights.token_embed.data,
            d,
            target as usize,
            Ghost(model.config.vocab_size as int),
        ),
    );
    let value = scale_all(&direction, value_scale);
    let ghost v = value_of(m0.weights, target, value_scale);
    assert(value@ == v);
    assert(value@.len() == d);
    for l in 0..n
        invariant
            n == m0.config.num_layers,
            d == m0.config.dim,
            m0.wf(),
            model.config == m0.config,
            cache_shaped(cache, m0.config),
            cache.tokens@ == tokens@,
            last == tokens@.len() - 1,
            tokens@.len() > 0,
            slot < m0.config.ff_dim || n == 0,
            value@ == v,
            value@.len() == d,
            layers_written(m0.weights, model.weights, cache, m0.config, slot as int, v, l as int),
    {
        let ghost c = m0.config;
        proof {
            assert(layer_shaped(cache.layers@[l as int], c, tokens@.len()));
            assert(has_shape(m0.weights.ff_up@[l as int], c.ff_dim as int, d as int));
            assert(has_shape(m0.weights.ff_down@[l as int], d as int, c.ff_dim as int));
            assert(model.weights.ff_up@[l as int] == m0.weights.ff_up@[l as int]);
            assert(model.weights.ff_down@[l as int] == m0.weights.ff_down@[l as int]);
        }
        let key = unit_row(row_at(&cache.layers[l].ln2_out, d, last, Ghost(tokens@.len() as int)));
        let ghost before = model.weights;
        replace_row(&mut model.weights.ff_up[l], slot, &key);
        replace_column(&mut model.weights.ff_down[l], slot, &value);
        proof {
            let w1 = model.weights;
            assert forall|k: int| 0 <= k < l + 1 implies row_replaced(
                m0.weights.ff_up@[k],
                #[trigger] w1.ff_up@[k],
                slot as int,
                key_of(cache, c, k),
            ) by {
                if k < l {
                    assert(w1.ff_up@[k] == before.ff_up@[k]);
                }
            }
            assert forall|k: int| 0 <= k < l + 1 implies column_replaced(
                m0.weights.ff_down@[k],
                #[trigger] w1.ff_down@[k],
                slot as int,
                v,
            ) by {
                if k < l {
                    assert(w1.ff_down@[k] == before.ff_down@[k]);
                }
            }
        }
    }
    proof {
        let c = m0.config;
        assert forall|l: int| 0 <= l < n implies has_shape(
            #[trigger] model.weights.ff_up@[l],
            c.ff_dim as int,
            d as int,
        ) by {
            assert(has_shape(m0.weights.ff_up@[l], c.ff_dim as int, d as int));
        }
        assert forall|l: int| 0 <= l < n implies has_shape(
            #[trigger] model.weights.ff_down@[l],
            d as int,
            c.ff_dim as int,
        ) by {
            assert(has_shape(m0.weights.ff_down@[l], d as int, c.ff_dim as int));
        }
    }
}

/// A write can be read back: in every layer the slot's key is the stored one, and so is its
/// value; the keys of all other slots stay as they were.
pub proof fn law_written_slot<T: Scalar>(
    m0: ToyLm<T>,
    m1: ToyLm<T>,
    tokens: Seq<u32>,
    target: u32,
    slot: int,
    value_scale: T,
    l: int,
)
    requires
        m0.wf(),
        wrote(m0, m1, tokens, target, slot, value_scale),
        0 <= l < m0.config.num_layers,
        0 <= slot < m0.config.ff_dim,
        target < m0.config.vocab_size,
    ensures
        exists|cache: ForwardCache<T>| #[trigger]
            cached(cache, m0) && cache.tokens@ == tokens && forall|q: int|
                0 <= q < m0.config.dim ==> #[trigger] m1.weights.ff_up@[l].cell(slot, q) == key_of(
                    cache,
                    m0.config,
                    l,
                )[q],
        forall|p: int|
            0 <= p < m0.config.dim ==> #[trigger] m1.weights.ff_down@[l].cell(p, slot) == value_of(
                m0.weights,
                target,
                value_scale,
            )[p],
        forall|s: int, q: int|
            0 <= s < m0.config.ff_dim && s != slot && 0 <= q < m0.config.dim
                ==> #[trigger] m1.weights.ff_up@[l].cell(s, q) == m0.weights.ff_up@[l].cell(s, q),
{
    let c = m0.config;
    let cache = choose|cache: ForwardCache<T>|
        cached(cache, m0) && cache.tokens@ == tokens && #[trigger] layers_written(
            m0.weights,
            m1.weights,
            cache,
            c,
            slot,
            value_of(m0.weights, target, value_scale),
            c.num_layers as int,
        );
    assert(has_shape(m0.weights.ff_up@[l], c.ff_dim as int, c.dim as int));
    assert(has_shape(m0.weights.ff_down@[l], c.dim as int, c.ff_dim as int));
    assert(row_replaced(m0.weights.ff_up@[l], m1.weights.ff_up@[l], slot, key_of(cache, c, l)));
    assert(column_replaced(
        m0.weights.ff_down@[l],
        m1.weights.ff_down@[l],
        slot,
        value_of(m0.weights, target, value_scale),
    ));
    assert(cached(cache, m0));
}

/// Whether write `k` was made: the windows are taken in turn, and so are the slots.
pub open spec fn write_at<T: Scalar>(
    cfg: HopfieldConfig<T>,
    ids: Seq<u32>,
    models: Seq<ToyLm<T>>,
    k: int,
) -> bool {
    let seq = cfg.seq_len as int;
    let start = k % num_windows(ids.len() as int, seq);
    wrote(
        models[k],
        models[k + 1],
        window(ids, start, seq),
        ids[start + seq],
        slot_at(models[k].config, k),
        cfg.value_scale,
    )
}

/// The slot of write `k`.
pub open spec fn slot_at(c: Config, k: int) -> int {
    if c.ff_dim == 0 {
        0
    } else {
        k % (c.ff_dim as int)
    }
}

/// Whether the models are those of the first `n` writes.
pub open spec fn write_run<T: Scalar>(
    cfg: HopfieldConfig<T>,
    ids: Seq<u32>,
    models: Seq<ToyLm<T>>,
    n: int,
) -> bool {
    &&& models.len() == n + 1
    &&& forall|k: int| 0 <= k < n ==> #[trigger] write_at(cfg, ids, models, k)
}

impl<T: Scalar> Trainer<T> for HopfieldTrainer<T> {
    open spec fn algorithm(&self) -> Seq<char> {
        "hopfield-associative"@
    }

    open spec fn can_train(&self, model: ToyLm<T>, corpus: Seq<u8>) -> bool {
        let seq = self.config.seq_len as int;
        too_small(corpus.len() as int, seq) || self.config.num_writes == 0 || {
            &&& trainable(model, corpus, seq)
            &&& seq > 0
        }
    }

    open spec fn trains(
        before: Self,
        model: ToyLm<T>,
        corpus: Seq<u8>,
        after: Self,
        trained: ToyLm<T>,
        result: NseResult<()>,
    ) -> bool {
        let cfg = before.config;
        let seq = cfg.seq_len as int;
        let n = corpus.len() as int;
        &&& after == before
        &&& if too_small(n, seq) {
            refused_as_small(result, n, seq) && trained == model
        } else {
            &&& result is Ok
            &&& trained.config == model.config
            &&& model.wf() ==> trained.wf()
            &&& exists|models: Seq<ToyLm<T>>| #[trigger]
                write_run(cfg, corpus_tokens(corpus), models, cfg.num_writes as int) && models[0]
                    == model && models[cfg.num_writes as int] == trained
        }
    }

    fn name(&self) -> (r: &'static str) {
        "hopfield-associative"
    }

    fn train(&mut self, model: &mut ToyLm<T>, corpus: &[u8]) -> (r: NseResult<()>) {
        let cfg = self.config;
        let seq: usize = cfg.seq_len;
        let ids = tokenize(corpus);
        let n: usize = ids.len();
        if n < 2 || n - 2 < seq {
            return Err(too_small_error(n, seq));
        }
        let ghost m0 = *model;
        let windows: usize = n - seq - 1;
        let slots: usize = model.config.ff_dim;
        let ghost mut models: Seq<ToyLm<T>> = seq![*model];
        for k in 0..cfg.num_writes
            invariant
                ids@ == corpus_tokens(corpus@),
                n == ids@.len(),
                seq == cfg.seq_len,
                windows == num_windows(n as int, seq as int),
                windows > 0,
                slots == m0.config.ff_dim,
                cfg.num_writes > 0 ==> trainable(m0, corpus@, seq as int) && seq > 0,
                m0.wf() ==> model.wf(),
                model.config == m0.config,
                write_run(cfg, ids@, models, k as int),
                models[0] == m0,
                models[k as int] == *model,
        {
            let start: usize = k % windows;
            let tokens = copy_range(&ids, start, start + seq);
            let target: u32 = ids[start + seq];
            let slot: usize = if slots == 0 {
                0
            } else {
                k % slots
            };
            let ghost ma = *model;
            write_slot(model, &tokens, target, slot, cfg.value_scale);
            proof {
                let before = models;
                models = models.push(*model);
                assert forall|j: int| 0 <= j < k + 1 implies #[trigger] write_at(
                    cfg,
                    ids@,
                    models,
                    j,
                ) by {
                    if j < k {
                        assert(write_at(cfg, ids@, before, j));
                        assert(models[j] == before[j] && models[j + 1] == before[j + 1]);
                    } else {
                        assert(models[j] == ma);
                    }
                }
            }
        }
        proof {
            assert(write_run(cfg, ids@, models, cfg.num_writes as int));
        }
        Ok(())
    }
}

} // verus!
