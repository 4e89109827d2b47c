//! Calibration: runs the dense model over a corpus and collects the inputs of each weight
//! matrix.

use vstd::prelude::*;
use crate::autograd::{cached, column, forward_cached, layer_cached};
use crate::pq::{row_seqs, rows_have_dim};
use crate::scalar::{sum_of, Scalar};
use crate::tensor::{copy_all, copy_range, filled, lemma_row_index, row_of};
use crate::tokenizer::{corpus_tokens, law_corpus_tokens, Tokenizer};
use crate::toy_lm::{after_attention, attended, can_run, hidden, ToyLm};
use crate::transformer::{
    applied_rows, gelu_rows, holds_rows, lemma_rows_read, norm_rows, row_at, rows_of,
};

verus! {

/// The collected inputs of the four matrices of each layer, one row per token.
#[derive(Debug, Clone)]
pub struct LayerActivationRows<T> {
    pub qkv: Vec<Vec<Vec<T>>>,
    pub attn_out: Vec<Vec<Vec<T>>>,
    pub ff_up: Vec<Vec<Vec<T>>>,
    pub ff_down: Vec<Vec<Vec<T>>>,
}

/// The four weight matrices of a layer.
pub enum Part {
    Qkv,
    AttnOut,
    FfUp,
    FfDown,
}

/// The inputs of a matrix of layer `l` when the model runs over `tokens`.
pub open spec fn part_inputs<T: Scalar>(
    lm: ToyLm<T>,
    tokens: Seq<u32>,
    l: int,
    part: Part,
) -> Seq<Seq<T>> {
    let w = lm.weights;
    let c = lm.config;
    let x = hidden(w, c, tokens, l as nat);
    let h1 = norm_rows(x, w.ln1_gain@[l]@);
    let h2 = norm_rows(after_attention(w, c, l, x), w.ln2_gain@[l]@);
    match part {
        Part::Qkv => h1,
        Part::AttnOut => attended(
            applied_rows(w.qkv@[l], h1),
            c.dim as int,
            c.num_heads as int,
        ),
        Part::FfUp => h2,
        Part::FfDown => gelu_rows(applied_rows(w.ff_up@[l], h2)),
    }
}

/// The width of a matrix's input.
pub open spec fn part_width<T>(lm: ToyLm<T>, part: Part) -> nat {
    if part is FfDown {
        lm.config.ff_dim as nat
    } else {
        lm.config.dim as nat
    }
}

/// The length of the windows over `n` tokens: the longest sequence of the model, but
/// less than the number of tokens, and at least two.
pub open spec fn window_len(max_seq_len: int, n: int) -> int {
    let less = if n == 0 {
        0
    } else {
        n - 1
    };
    let capped = if max_seq_len < less {
        max_seq_len
    } else {
        less
    };
    if capped < 2 {
        2
    } else {
        capped
    }
}

/// The distance of two windows: half their length.
pub open spec fn window_step(len: int) -> int {
    if len / 2 < 1 {
        1
    } else {
        len / 2
    }
}

/// The number of windows over `n` tokens. There are none if the tokens are not more than
/// the length of a window.
pub open spec fn window_count(max_seq_len: int, n: int) -> int {
    let len = window_len(max_seq_len, n);
    if n <= len {
        0
    } else {
        (n - len) / window_step(len) + 1
    }
}

/// Window `k` over the tokens.
pub open spec fn window_at(max_seq_len: int, ids: Seq<u32>, k: int) -> Seq<u32> {
    let len = window_len(max_seq_len, ids.len() as int);
    ids.subrange(k * window_step(len), k * window_step(len) + len)
}

/// The inputs of a matrix of layer `l` over the first `k` windows.
pub open spec fn collected<T: Scalar>(
    lm: ToyLm<T>,
    ids: Seq<u32>,
    l: int,
    part: Part,
    k: nat,
) -> Seq<Seq<T>>
    decreases k,
{
    if k == 0 {
        Seq::empty()
    } else {
        collected(lm, ids, l, part, (k - 1) as nat) + part_inputs(
            lm,
            window_at(lm.config.max_seq_len as int, ids, k - 1),
            l,
            part,
        )
    }
}

/// The tokens of the corpus that is calibrated on, or none.
pub open spec fn calibration_tokens(corpus: Option<Seq<u8>>) -> Seq<u32> {
    match corpus {
        Some(c) => corpus_tokens(c),
        None => Seq::empty(),
    }
}

/// The inputs of a matrix of layer `l` over all windows.
pub open spec fn activations<T: Scalar>(
    lm: ToyLm<T>,
    ids: Seq<u32>,
    l: int,
    part: Part,
) -> Seq<Seq<T>> {
    collected(
        lm,
        ids,
        l,
        part,
        window_count(lm.config.max_seq_len as int, ids.len() as int) as nat,
    )
}

impl<T: Scalar> LayerActivationRows<T> {
    /// The rows collected for a matrix of layer `l`.
    pub open spec fn rows(&self, l: int, part: Part) -> Seq<Seq<T>> {
        match part {
            Part::Qkv => row_seqs(self.qkv@[l]@),
            Part::AttnOut => row_seqs(self.attn_out@[l]@),
            Part::FfUp => row_seqs(self.ff_up@[l]@),
            Part::FfDown => row_seqs(self.ff_down@[l]@),
        }
    }

    /// Whether there are rows for `n` layers.
    pub open spec fn has_layers(&self, n: int) -> bool {
        &&& self.qkv@.len() == n
        &&& self.attn_out@.len() == n
        &&& self.ff_up@.len() == n
        &&& self.ff_down@.len() == n
    }
}

/// Appends `rows` rows of width `cols` to `out`.
pub fn append_rows<T: Scalar>(out: &mut Vec<Vec<T>>, flat: &[T], rows: usize, cols: usize)
    requires
        flat@.len() == rows * cols,
    ensures
        row_seqs(final(out)@) == row_seqs(old(out)@) + rows_of(flat@, rows as nat, cols as nat),
{
    let ghost before = row_seqs(out@);
    let ghost goal = rows_of(flat@, rows as nat, cols as nat);
    assert(row_seqs(out@) =~= before + goal.take(0));
    for r in 0..rows
        invariant
            flat@.len() == rows * cols,
            goal == rows_of(flat@, rows as nat, cols as nat),
            row_seqs(out@) == before + goal.take(r as int),
    {
        let row = copy_all(row_at(flat, cols, r, Ghost(rows as int)));
        let ghost now = out@;
        out.push(row);
        proof {
            assert(row_seqs(out@) =~= row_seqs(now).push(row@));
            assert(goal.take(r + 1) =~= goal.take(r as int).push(goal[r as int]));
            assert(row_seqs(out@) =~= before + goal.take(r + 1));
        }
    }
    assert(goal.take(rows as int) =~= goal);
}

/// The mean of each column.
pub open spec fn column_means<T: Scalar>(rows: Seq<Seq<T>>, cols: nat) -> Seq<T> {
    Seq::new(
        cols,
        |j: int|
            if rows.len() == 0 {
                T::spec_zero()
            } else {
                sum_of(column(rows, j), rows.len()).over_spec(T::spec_count(rows.len() as usize))
            },
    )
}

/// The mean of each of the first `cols` columns, zero if there are no rows.
pub fn mean_of_rows<T: Scalar>(rows: &[Vec<T>], cols: usize) -> (r: Vec<T>)
    requires
        forall|i: int| 0 <= i < rows@.len() ==> cols <= (#[trigger] rows@[i])@.len(),
    ensures
        r@ == column_means(row_seqs(rows@), cols as nat),
{
    let mut out = filled(cols, T::zero());
    let ghost rs = row_seqs(rows@);
    if rows.len() == 0 {
        assert(out@ =~= column_means(rs, cols as nat));
        return out;
    }
    for i in 0..rows.len()
        invariant
            rs == row_seqs(rows@),
            forall|i: int| 0 <= i < rows@.len() ==> cols <= (#[trigger] rows@[i])@.len(),
            out@.len() == cols,
            forall|j: int|
                0 <= j < cols ==> #[trigger] out@[j] == sum_of(column(rs, j), i as nat),
    {
        let row = &rows[i];
        assert(cols <= rows@[i as int]@.len());
        for j in 0..cols
            invariant
                rs == row_seqs(rows@),
                i < rows@.len(),
                *row == rows@[i as int],
                cols <= row@.len(),
                out@.len() == cols,
                forall|k: int|
                    0 <= k < j ==> #[trigger] out@[k] == sum_of(column(rs, k), (i + 1) as nat),
                forall|k: int|
                    j <= k < cols ==> #[trigger] out@[k] == sum_of(column(rs, k), i as nat),
        {
            assert(column(rs, j as int)[i as int] == row@[j as int]);
            let v = out[j].plus(row[j]);
            out[j] = v;
        }
    }
    let n = T::from_count(rows.len());
    for j in 0..cols
        invariant
            rs == row_seqs(rows@),
            rows@.len() > 0,
            n == T::spec_count(rows@.len() as usize),
            out@.len() == cols,
            forall|k: int|
                0 <= k < j ==> #[trigger] out@[k] == sum_of(column(rs, k), rs.len()).over_spec(n),
            forall|k: int|
                j <= k < cols ==> #[trigger] out@[k] == sum_of(column(rs, k), rs.len()),
    {
        let v = out[j].over(n);
        out[j] = v;
    }
    assert(out@ =~= column_means(rs, cols as nat));
    out
}

/// Empty row lists for `n` layers.
fn no_rows<T: Scalar>(n: usize) -> (r: Vec<Vec<Vec<T>>>)
    ensures
        r@.len() == n,
        forall|l: int| 0 <= l < n ==> (#[trigger] r@[l])@.len() == 0,
{
    let mut out: Vec<Vec<Vec<T>>> = Vec::with_capacity(n);
    for l in 0..n
        invariant
            out@.len() == l,
            forall|k: int| 0 <= k < l ==> (#[trigger] out@[k])@.len() == 0,
    {
        out.push(Vec::new());
    }
    out
}

/// The rows of one kind of matrix for each layer, with those of one more window behind
/// them for the first `n` layers.
spec fn grown<T: Scalar>(
    now: Seq<Vec<Vec<T>>>,
    before: Seq<Vec<Vec<T>>>,
    lm: ToyLm<T>,
    tokens: Seq<u32>,
    part: Part,
    n: int,
) -> bool {
    &&& now.len() == before.len()
    &&& forall|l: int|
        0 <= l < n && l < now.len() ==> row_seqs((#[trigger] now[l])@) == row_seqs(before[l]@)
            + part_inputs(lm, tokens, l, part)
    &&& forall|l: int| n <= l < now.len() ==> #[trigger] now[l] == before[l]
}

/// Adds the inputs of one window.
fn append_window<T: Scalar>(acc: &mut LayerActivationRows<T>, lm: &ToyLm<T>, tokens: &[u32])
    requires
        lm.wf(),
        can_run(lm.config, tokens@.len()),
        old(acc).has_layers(lm.config.num_layers as int),
    ensures
        final(acc).has_layers(lm.config.num_layers as int),
        forall|l: int, part: Part|
            0 <= l < lm.config.num_layers ==> #[trigger] final(acc).rows(l, part) == old(acc).rows(
                l,
                part,
            ) + part_inputs(*lm, tokens@, l, part),
        forall|l: int, part: Part|
            0 <= l < lm.config.num_layers ==> rows_have_dim(
                #[trigger] part_inputs(*lm, tokens@, l, part),
                part_width(*lm, part),
            ),
{
    let (cache, _logits) = forward_cached(lm, tokens);
    let t: usize = tokens.len();
    let c = &lm.config;
    let ghost a = *acc;
    proof {
        crate::autograd::law_cached_is_shaped(cache, *lm);
    }
    for l in 0..c.num_layers
        invariant
            lm.wf(),
            *c == lm.config,
            cached(cache, *lm),
            cache.tokens@ == tokens@,
            crate::autograd::cache_shaped(cache, lm.config),
            t == tokens@.len(),
            a.has_layers(c.num_layers as int),
            acc.has_layers(c.num_layers as int),
            grown(acc.qkv@, a.qkv@, *lm, tokens@, Part::Qkv, l as int),
            grown(acc.attn_out@, a.attn_out@, *lm, tokens@, Part::AttnOut, l as int),
            grown(acc.ff_up@, a.ff_up@, *lm, tokens@, Part::FfUp, l as int),
            grown(acc.ff_down@, a.ff_down@, *lm, tokens@, Part::FfDown, l as int),
    {
        let lc = &cache.layers[l];
        proof {
            let x = hidden(lm.weights, lm.config, tokens@, l as nat);
            assert(layer_cached(cache.layers@[l as int], lm.weights, lm.config, l as int, x));
            assert(crate::autograd::layer_shaped(cache.layers@[l as int], lm.config, t as nat));
            crate::autograd::lemma_hidden_len(lm.weights, lm.config, tokens@, l as nat);
            lemma_rows_read(
                lc.ln1_out@,
                c.dim as nat,
                part_inputs(*lm, tokens@, l as int, Part::Qkv),
            );
            lemma_rows_read(
                lc.attn_out@,
                c.dim as nat,
                part_inputs(*lm, tokens@, l as int, Part::AttnOut),
            );
            lemma_rows_read(
                lc.ln2_out@,
                c.dim as nat,
                part_inputs(*lm, tokens@, l as int, Part::FfUp),
            );
            lemma_rows_read(
                lc.ff_up_act@,
                c.ff_dim as nat,
                part_inputs(*lm, tokens@, l as int, Part::FfDown),
            );
        }
        append_rows(&mut acc.qkv[l], &lc.ln1_out, t, c.dim);
        append_rows(&mut acc.attn_out[l], &lc.attn_out, t, c.dim);
        append_rows(&mut acc.ff_up[l], &lc.ln2_out, t, c.dim);
        append_rows(&mut acc.ff_down[l], &lc.ff_up_act, t, c.ff_dim);
    }
    proof {
        assert forall|l: int, part: Part| 0 <= l < lm.config.num_layers implies rows_have_dim(
            #[trigger] part_inputs(*lm, tokens@, l, part),
            part_width(*lm, part),
        ) by {
            let lc = cache.layers@[l];
            let x = hidden(lm.weights, lm.config, tokens@, l as nat);
            assert(layer_cached(lc, lm.weights, lm.config, l, x));
            let flat = match part {
                Part::Qkv => lc.ln1_out@,
                Part::AttnOut => lc.attn_out@,
                Part::FfUp => lc.ln2_out@,
                Part::FfDown => lc.ff_up_act@,
            };
            lemma_held_width(flat, part_width(*lm, part), part_inputs(*lm, tokens@, l, part));
        }
        assert forall|l: int, part: Part| 0 <= l < lm.config.num_layers implies #[trigger] acc.rows(
            l,
            part,
        ) == a.rows(l, part) + part_inputs(*lm, tokens@, l, part) by {
            match part {
                Part::Qkv => {
                    assert(acc.qkv@[l] == acc.qkv@[l]);
                },
                Part::AttnOut => {
                    assert(acc.attn_out@[l] == acc.attn_out@[l]);
                },
                Part::FfUp => {
                    assert(acc.ff_up@[l] == acc.ff_up@[l]);
                },
                Part::FfDown => {
                    assert(acc.ff_down@[l] == acc.ff_down@[l]);
                },
            }
        }
    }
}

/// Collects the inputs of each matrix over windows of `ids` that overlap by half.
pub fn collect_windows<T: Scalar>(lm: &ToyLm<T>, ids: &[u32]) -> (r: LayerActivationRows<T>)
    requires
        lm.wf(),
        can_run(lm.config, ids@.len()),
    ensures
        r.has_layers(lm.config.num_layers as int),
        forall|l: int, part: Part|
            0 <= l < lm.config.num_layers ==> #[trigger] r.rows(l, part) == activations(
                *lm,
                ids@,
                l,
                part,
            ),
        forall|l: int, part: Part|
            0 <= l < lm.config.num_layers ==> rows_have_dim(
                #[trigger] r.rows(l, part),
                part_width(*lm, part),
            ),
{
    let c = &lm.config;
    let mut acc: LayerActivationRows<T> = LayerActivationRows {
        qkv: no_rows(c.num_layers),
        attn_out: no_rows(c.num_layers),
        ff_up: no_rows(c.num_layers),
        ff_down: no_rows(c.num_layers),
    };
    let n: usize = ids.len();
    let ghost m = c.max_seq_len as int;
    proof {
        assert forall|l: int, part: Part| 0 <= l < c.num_layers implies #[trigger] acc.rows(l, part)
            == collected(*lm, ids@, l, part, 0) by {
            assert(acc.qkv@[l]@.len() == 0);
            assert(acc.attn_out@[l]@.len() == 0);
            assert(acc.ff_up@[l]@.len() == 0);
            assert(acc.ff_down@[l]@.len() == 0);
            assert(acc.rows(l, part) =~= Seq::empty());
        }
    }
    let less: usize = if n == 0 {
        0
    } else {
        n - 1
    };
    let capped: usize = if c.max_seq_len < less {
        c.max_seq_len
    } else {
        less
    };
    let seq: usize = if capped < 2 {
        2
    } else {
        capped
    };
    assert(seq == window_len(m, n as int));
    if n <= seq {
        assert(window_count(m, n as int) == 0);
        return acc;
    }
    let step: usize = if seq / 2 < 1 {
        1
    } else {
        seq / 2
    };
    let mut start: usize = 0;
    let ghost mut k: int = 0;
    assert(0 * step == 0) by (nonlinear_arith);
    while start <= n - seq
        invariant
            lm.wf(),
            *c == lm.config,
            can_run(lm.config, ids@.len()),
            n == ids@.len(),
            m == lm.config.max_seq_len,
            2 <= seq < n,
            seq == window_len(m, n as int),
            step == window_step(seq as int),
            1 <= step <= seq,
            0 <= k,
            start == k * step,
            start <= n,
            start > n - seq ==> k >= 1 && (k - 1) * step <= n - seq,
            acc.has_layers(c.num_layers as int),
            forall|l: int, part: Part|
                0 <= l < c.num_layers ==> #[trigger] acc.rows(l, part) == collected(
                    *lm,
                    ids@,
                    l,
                    part,
                    k as nat,
                ),
            forall|l: int, part: Part|
                0 <= l < c.num_layers ==> rows_have_dim(
                    #[trigger] acc.rows(l, part),
                    part_width(*lm, part),
                ),
        decreases n + 1 - start,
    {
        let tokens = copy_range(ids, start, start + seq);
        assert(tokens@ == window_at(m, ids@, k));
        let ghost before = acc;
        append_window(&mut acc, lm, &tokens);
        proof {
            assert forall|l: int, part: Part| 0 <= l < c.num_layers implies #[trigger] acc.rows(
                l,
                part,
            ) == collected(*lm, ids@, l, part, (k + 1) as nat) by {
                assert(before.rows(l, part) == collected(*lm, ids@, l, part, k as nat));
            }
            assert forall|l: int, part: Part| 0 <= l < c.num_layers implies rows_have_dim(
                #[trigger] acc.rows(l, part),
                part_width(*lm, part),
            ) by {
                let a = before.rows(l, part);
                let b = part_inputs(*lm, tokens@, l, part);
                assert(acc.rows(l, part) == a + b);
                assert forall|i: int| 0 <= i < (a + b).len() implies (#[trigger] (a + b)[i]).len()
                    == part_width(*lm, part) by {
                    if i < a.len() {
                        assert(a[i].len() == part_width(*lm, part));
                    } else {
                        assert(b[i - a.len()].len() == part_width(*lm, part));
                    }
                }
            }
            assert((k + 1) * step == k * step + step) by (nonlinear_arith);
            k = k + 1;
        }
        start = start + step;
    }
    proof {
        // k windows fit: (k - 1) * step <= n - seq < k * step
        let a = n - seq;
        assert((k - 1) * step <= a < k * step);
        assert(a / (step as int) == k - 1) by (nonlinear_arith)
            requires
                step >= 1,
                (k - 1) * step <= a < k * step,
        ;
        assert(window_count(m, n as int) == k);
    }
    acc
}

/// Collects the inputs of each matrix over a corpus. Without a corpus there are none.
pub fn collect_activations<T: Scalar>(lm: &ToyLm<T>, corpus: Option<&[u8]>) -> (r:
    LayerActivationRows<T>)
    requires
        lm.wf(),
        corpus matches Some(c) ==> can_run(lm.config, c@.len()),
    ensures
        r.has_layers(lm.config.num_layers as int),
        forall|l: int, part: Part|
            0 <= l < lm.config.num_layers ==> #[trigger] r.rows(l, part) == activations(
                *lm,
                calibration_tokens(corpus_seq(corpus)),
                l,
                part,
            ),
        forall|l: int, part: Part|
            0 <= l < lm.config.num_layers ==> rows_have_dim(
                #[trigger] r.rows(l, part),
                part_width(*lm, part),
            ),
{
    match corpus {
        Some(c) => {
            let tok = Tokenizer::from_corpus(c);
            let ids = tok.encode(c);
            proof {
                law_corpus_tokens(tok, c@);
            }
            collect_windows(lm, &ids)
        },
        None => {
            let ids: Vec<u32> = Vec::new();
            assert(ids@ =~= Seq::empty());
            LayerActivationRows {
                qkv: no_rows(lm.config.num_layers),
                attn_out: no_rows(lm.config.num_layers),
                ff_up: no_rows(lm.config.num_layers),
                ff_down: no_rows(lm.config.num_layers),
            }
        },
    }
}

/// The bytes of a corpus, where there is one.
pub open spec fn corpus_seq(corpus: Option<&[u8]>) -> Option<Seq<u8>> {
    match corpus {
        Some(c) => Some(c@),
        None => None,
    }
}

/// Rows that a flat list holds have its width.
proof fn lemma_held_width<T>(flat: Seq<T>, cols: nat, rows: Seq<Seq<T>>)
    requires
        holds_rows(flat, cols, rows),
    ensures
        rows_have_dim(rows, cols),
{
    assert forall|t: int| 0 <= t < rows.len() implies (#[trigger] rows[t]).len() == cols by {
        assert(row_of(flat, cols as int, t) == rows[t]);
        lemma_row_index(rows.len() as int, cols as int, t);
    }
}

} // verus!
