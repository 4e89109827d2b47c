use nse::cluster::{cluster, ClusterConfig};
use nse::error::NseError;
use nse::hnsw::HnswIndex;
use nse::index::{Hit, MipsIndex, MipsQuery};
use nse::kernel::{
    apply_bias, compute_dense_core, compute_dense_core_avx2, compute_pq_micro_expert_scalar,
    compute_ternary_micro_expert_avx2, compute_ternary_micro_expert_dispatch,
    compute_ternary_micro_expert_scalar, KernelKind,
};
use nse::outlier::{extract, OutlierConfig};
use nse::pq::{decode_pq, encode_pq, train_pq};
use nse::quantize::{
    decode_ternary, encode_ternary, quantize_matrix, quantize_row, reconstruct_row,
};
use nse::rng::Lcg;
use nse::router::{route, route_all, route_by_ratio, RouterConfig};
use nse::scalar::{squared_dist, Scalar};
use nse::sparse::{MicroExpert, PqCodebook, PqExpertData, SparseLayer};
use nse::sparse_linear::{sparse_linear, sparse_linear_all};
use nse::tensor::{Matrix, MatrixView};
use nse::transmuter::{transmute_matrix, TransmuteConfig};

#[derive(Clone, Copy, Debug, PartialEq)]
struct F(f32);

impl Scalar for F {
    fn spec_zero() -> F {
        F(0.0)
    }
    fn zero() -> F {
        F(0.0)
    }
    fn spec_highest() -> F {
        F(f32::INFINITY)
    }
    fn highest() -> F {
        F(f32::INFINITY)
    }
    fn spec_lowest() -> F {
        F(f32::NEG_INFINITY)
    }
    fn lowest() -> F {
        F(f32::NEG_INFINITY)
    }
    fn spec_count(n: usize) -> F {
        F(n as f32)
    }
    fn from_count(n: usize) -> F {
        F(n as f32)
    }
    fn spec_code(c: i8) -> F {
        F(c as f32)
    }
    fn from_code(c: i8) -> F {
        F(c as f32)
    }
    fn rounded_spec(self) -> usize {
        self.0.round() as usize
    }
    fn rounded(self) -> usize {
        self.0.round() as usize
    }
    fn floored_spec(self) -> usize {
        self.0.floor() as usize
    }
    fn floored(self) -> usize {
        self.0.floor() as usize
    }
    fn plus_spec(self, other: F) -> F {
        F(self.0 + other.0)
    }
    fn plus(self, other: F) -> F {
        F(self.0 + other.0)
    }
    fn minus_spec(self, other: F) -> F {
        F(self.0 - other.0)
    }
    fn minus(self, other: F) -> F {
        F(self.0 - other.0)
    }
    fn times_spec(self, other: F) -> F {
        F(self.0 * other.0)
    }
    fn times(self, other: F) -> F {
        F(self.0 * other.0)
    }
    fn times_plus_spec(self, other: F, third: F) -> F {
        F(self.0.mul_add(other.0, third.0))
    }
    fn times_plus(self, other: F, third: F) -> F {
        F(self.0.mul_add(other.0, third.0))
    }
    fn over_spec(self, other: F) -> F {
        F(self.0 / other.0)
    }
    fn over(self, other: F) -> F {
        F(self.0 / other.0)
    }
    fn negated_spec(self) -> F {
        F(-self.0)
    }
    fn negated(self) -> F {
        F(-self.0)
    }
    fn magnitude_spec(self) -> F {
        F(self.0.abs())
    }
    fn magnitude(self) -> F {
        F(self.0.abs())
    }
    fn root_spec(self) -> F {
        F(self.0.sqrt())
    }
    fn root(self) -> F {
        F(self.0.sqrt())
    }
    fn exp_spec(self) -> F {
        F(self.0.exp())
    }
    fn exp(self) -> F {
        F(self.0.exp())
    }
    fn ln_spec(self) -> F {
        F(self.0.ln())
    }
    fn ln(self) -> F {
        F(self.0.ln())
    }
    fn log2_spec(self) -> F {
        F(self.0.log2())
    }
    fn log2(self) -> F {
        F(self.0.log2())
    }
    fn tanh_spec(self) -> F {
        F(self.0.tanh())
    }
    fn tanh(self) -> F {
        F(self.0.tanh())
    }
    fn below_spec(self, other: F) -> bool {
        self.0 < other.0
    }
    fn below(self, other: F) -> bool {
        self.0 < other.0
    }
    fn at_most_spec(self, other: F) -> bool {
        self.0 <= other.0
    }
    fn at_most(self, other: F) -> bool {
        self.0 <= other.0
    }
    fn spec_vectorised() -> bool {
        true
    }
    fn vectorised() -> bool {
        true
    }
    fn below_irreflexive(self) {}
    fn below_transitive(self, _other: F, _third: F) {}
    fn lowest_is_least(self, _other: F) {}
    fn word_over_words(_word: u32) {}
}

fn v(x: &[f32]) -> Vec<F> {
    x.iter().map(|a| F(*a)).collect()
}

fn mk_expert(centroid: &[f32]) -> MicroExpert<F> {
    MicroExpert {
        row_ids: vec![0],
        ternary: vec![0],
        row_scales: v(&[0.0]),
        centroid: v(centroid),
        mean_input: vec![F(0.0); centroid.len()],
        pq: None,
    }
}

#[test]
fn matrix_get_set_roundtrip() {
    let mut m: Matrix<F> = Matrix::zeros(2, 3);
    *m.get_mut(1, 2).unwrap() = F(7.0);
    assert_eq!(m.get(1, 2).unwrap(), F(7.0));
    assert!(m.get(2, 0).is_err());
}

#[test]
fn transpose_roundtrip() {
    let mut m: Matrix<F> = Matrix::zeros(2, 3);
    *m.get_mut(0, 1).unwrap() = F(1.0);
    *m.get_mut(1, 2).unwrap() = F(2.0);
    let t = m.transposed();
    assert_eq!(t.rows, 3);
    assert_eq!(t.cols, 2);
    assert_eq!(t.get(1, 0).unwrap(), F(1.0));
    assert_eq!(t.get(2, 1).unwrap(), F(2.0));
}

#[test]
fn transpose_twice_is_the_same() {
    let m = Matrix::from_vec(2, 3, v(&[1.0, 2.0, 3.0, 4.0, 5.0, 6.0])).unwrap();
    assert_eq!(m.transposed().transposed(), m);
}

#[test]
fn matrix_shape_is_checked() {
    assert!(matches!(
        Matrix::from_vec(2, 2, v(&[1.0, 2.0, 3.0])),
        Err(NseError::ShapeMismatch { .. })
    ));
    let data = v(&[1.0, 2.0]);
    assert!(MatrixView::from_slice(1, 3, &data).is_err());
    let view = MatrixView::from_slice(2, 1, &data).unwrap();
    assert_eq!(view.row(1).unwrap(), &[F(2.0)][..]);
    assert!(matches!(view.row(2), Err(NseError::IndexOutOfBounds { index: 2, len: 2 })));
    let empty: Matrix<F> = Matrix::zeros(0, 4);
    assert!(empty.is_empty());
    assert_eq!(empty.len(), 0);
}

#[test]
fn avx2_ternary_matches_scalar() {
    // 2 rows, in_dim = 17 (two 8-lane chunks + tail).
    let in_dim = 17;
    let ternary: Vec<i8> = (0..2 * in_dim)
        .map(|i| match i % 3 {
            0 => 1,
            1 => -1,
            _ => 0,
        })
        .collect();
    let row_scales = v(&[1.5, 0.25]);
    let x: Vec<F> = (0..in_dim).map(|i| F((i as f32) * 0.1 - 0.8)).collect();
    let expert = MicroExpert {
        row_ids: vec![0, 1],
        ternary,
        row_scales,
        centroid: vec![F(0.0); in_dim],
        mean_input: vec![F(0.0); in_dim],
        pq: None,
    };

    let mut y_scalar = vec![F(0.0); 2];
    compute_ternary_micro_expert_scalar(&expert, &x, &mut y_scalar);

    let mut y_avx2 = vec![F(0.0); 2];
    compute_ternary_micro_expert_avx2(&expert, &x, &mut y_avx2);

    for r in 0..2 {
        assert!(
            (y_scalar[r].0 - y_avx2[r].0).abs() <= 1e-5 * y_scalar[r].0.abs().max(1.0),
            "row {r}: scalar={} avx2={}",
            y_scalar[r].0,
            y_avx2[r].0
        );
    }
}

#[test]
fn lanes_round_products_once() {
    // The second product cancels the first but for the part that rounding would lose.
    let e = 1.0f32 / 4096.0;
    let mut w = vec![0.0f32; 16];
    let mut x = vec![0.0f32; 16];
    w[0] = -(1.0 + 2.0 * e);
    x[0] = 1.0;
    w[8] = 1.0 + e;
    x[8] = 1.0 + e;
    let core = Matrix { rows: 1, cols: 16, data: v(&w) };
    let mut y = vec![F(0.0)];
    compute_dense_core_avx2(&core, &[0], &v(&x), &mut y);
    assert_eq!(y[0].0, e * e);
    let mut y = vec![F(0.0)];
    compute_dense_core(&core, &[0], &v(&x), &mut y);
    assert_eq!(y[0].0, 0.0);
}

#[test]
fn dispatch_scalar_when_requested() {
    let expert = MicroExpert {
        row_ids: vec![0],
        ternary: vec![1, -1, 0],
        row_scales: v(&[1.0]),
        centroid: vec![F(0.0); 3],
        mean_input: vec![F(0.0); 3],
        pq: None,
    };
    let x = v(&[1.0, 2.0, 3.0]);
    let mut y = vec![F(0.0); 1];
    compute_ternary_micro_expert_dispatch(&expert, &x, &mut y, KernelKind::Scalar);
    // 1 - 2 + 0 = -1
    assert!((y[0].0 - (-1.0)).abs() < 1e-6);
}

#[test]
fn avx2_dense_core_matches_scalar() {
    let in_dim = 20;
    let mut core: Matrix<F> = Matrix::zeros(2, in_dim);
    for (i, v) in core.data.iter_mut().enumerate() {
        *v = F((i as f32) * 0.01 - 0.1);
    }
    let row_ids = vec![0u32, 1];
    let x: Vec<F> = (0..in_dim).map(|i| F((i as f32) * 0.2 - 2.0)).collect();

    let mut y_s = vec![F(0.0); 2];
    compute_dense_core(&core, &row_ids, &x, &mut y_s);
    let mut y_a = vec![F(0.0); 2];
    compute_dense_core_avx2(&core, &row_ids, &x, &mut y_a);

    for r in 0..2 {
        assert!(
            (y_s[r].0 - y_a[r].0).abs() <= 1e-4 * y_s[r].0.abs().max(1.0),
            "row {r}: scalar={} avx2={}",
            y_s[r].0,
            y_a[r].0
        );
    }
}

#[test]
fn dense_core_matches_dot() {
    // W [2, 3], x [3], y [4] (out_dim=4, core owns rows 1 and 3).
    let mut core: Matrix<F> = Matrix::zeros(2, 3);
    core.data[0..3].copy_from_slice(&v(&[1.0, 2.0, 3.0]));
    core.data[3..6].copy_from_slice(&v(&[4.0, 5.0, 6.0]));
    let row_ids = vec![1u32, 3];
    let x = v(&[0.5, 1.0, 2.0]);
    let mut y = vec![F(0.0); 4];
    compute_dense_core(&core, &row_ids, &x, &mut y);
    // y[1] = 1*.5+2*1+3*2 = 8.5 ; y[3] = 4*.5+5*1+6*2 = 19
    assert!((y[1].0 - 8.5).abs() < 1e-5);
    assert!((y[3].0 - 19.0).abs() < 1e-5);
    assert_eq!(y[0], F(0.0));
}

#[test]
fn ternary_kernel_matches_reconstructed_dense() {
    // Expert with 2 rows, in_dim=3.
    let expert = MicroExpert {
        row_ids: vec![0, 1],
        ternary: vec![1, -1, 0, 0, 1, -1],
        row_scales: v(&[2.0, 0.5]),
        centroid: vec![F(0.0); 3],
        mean_input: vec![F(0.0); 3],
        pq: None,
    };
    let x = v(&[3.0, 4.0, 5.0]);
    let mut y_sparse = vec![F(0.0); 2];
    compute_ternary_micro_expert_scalar(&expert, &x, &mut y_sparse);
    // Dense reconstruction: row0 = 2*(+3 -4 +0)=2*(-1)=-2 ; row1 = .5*(0 +4 -5)=.5*(-1)=-.5
    assert!((y_sparse[0].0 - (-2.0)).abs() < 1e-5);
    assert!((y_sparse[1].0 - (-0.5)).abs() < 1e-5);

    // Cross-check against explicit dense mat-vec on reconstructed weights.
    let recon = [
        2.0 * 1.0,
        2.0 * -1.0,
        2.0 * 0.0,
        0.5 * 0.0,
        0.5 * 1.0,
        0.5 * -1.0,
    ];
    let mut y_dense = vec![0.0f32; 2];
    for r in 0..2 {
        for j in 0..3 {
            y_dense[r] += recon[r * 3 + j] * x[j].0;
        }
    }
    assert_eq!(y_sparse, v(&y_dense));
}

#[test]
fn bias_adds_in_place() {
    let bias = v(&[1.0, 2.0, 3.0]);
    let mut y = v(&[10.0, 20.0, 30.0]);
    apply_bias(&bias, &mut y);
    assert_eq!(y, v(&[11.0, 22.0, 33.0]));
}

#[test]
fn pq_kernel_matches_decode() {
    // Build a tiny codebook: M=2 sub-vectors of dim 2, 2 entries each.
    let codebook = PqCodebook {
        num_sub_vectors: 2,
        nbits: 1,
        sub_dim: 2,
        // Sub-vector 0: centroids [1,1] and [-1,-1].
        // Sub-vector 1: centroids [2,0] and [0,2].
        codebook: v(&[1.0, 1.0, -1.0, -1.0, 2.0, 0.0, 0.0, 2.0]),
    };
    // Row 0 codes [0,0] -> [1,1,2,0]; row 1 codes [1,1] -> [-1,-1,0,2] scaled by 0.5.
    let expert = MicroExpert {
        row_ids: vec![0, 1],
        ternary: vec![],
        row_scales: vec![],
        centroid: vec![F(0.0); 4],
        mean_input: vec![F(0.0); 4],
        pq: Some(PqExpertData {
            codes: vec![0, 0, 1, 1],
            row_scales: v(&[1.0, 0.5]),
            num_sub_vectors: 2,
        }),
    };
    let x = v(&[1.0, 2.0, 3.0, 4.0]);
    let mut y = vec![F(0.0); 2];
    compute_pq_micro_expert_scalar(&expert, &x, &mut y, &codebook);
    // Row 0: scale 1.0 * ([1,1].[1,2] + [2,0].[3,4]) = (1+2) + (6+0) = 9.
    // Row 1: scale 0.5 * ([-1,-1].[1,2] + [0,2].[3,4]) = 0.5 * (-3 + 8) = 2.5.
    assert!((y[0].0 - 9.0).abs() < 1e-5, "row0: {}", y[0].0);
    assert!((y[1].0 - 2.5).abs() < 1e-5, "row1: {}", y[1].0);
}

fn unit(x: Vec<f32>) -> Vec<f32> {
    let n = x.iter().map(|a| a * a).sum::<f32>().sqrt();
    x.iter().map(|a| a / n.max(1e-12)).collect()
}

#[test]
fn hnsw_recall_one_vs_brute() {
    // 20 random unit centroids in 4D; query top-3, recall must be 1.
    let mut rng = Lcg::new(1234);
    let experts: Vec<MicroExpert<F>> = (0..20)
        .map(|_| {
            let c = unit(
                (0..4)
                    .map(|_| {
                        let u: F = rng.next_f32();
                        u.0 * 2.0 - 1.0
                    })
                    .collect(),
            );
            mk_expert(&c)
        })
        .collect();
    let hnsw = HnswIndex::new(&experts, 4, 16, 16);
    let brute = MipsIndex::new(&experts);

    for _ in 0..20 {
        let q = v(&unit(
            (0..4)
                .map(|_| {
                    let u: F = rng.next_f32();
                    u.0 * 2.0 - 1.0
                })
                .collect(),
        ));
        let brute_top: Vec<usize> = brute.query_topk(&q, 3).iter().map(|h| h.expert_id).collect();
        let hnsw_top: Vec<usize> = hnsw.query(&q, 3).iter().map(|h| h.expert_id).collect();
        // recall@3 == 1 (same set).
        let common = brute_top.iter().filter(|b| hnsw_top.contains(b)).count();
        assert_eq!(common, brute_top.len(), "brute={brute_top:?} hnsw={hnsw_top:?}");
    }
}

#[test]
fn hnsw_empty() {
    let experts: Vec<MicroExpert<F>> = vec![];
    let hnsw = HnswIndex::new(&experts, 4, 16, 16);
    assert!(hnsw.query(&v(&[1.0]), 3).is_empty());
}

#[test]
fn hnsw_single_node() {
    let experts = vec![mk_expert(&[1.0, 0.0, 0.0])];
    let hnsw = HnswIndex::new(&experts, 4, 16, 16);
    let top = hnsw.query(&v(&[1.0, 0.0, 0.0]), 3);
    assert_eq!(top.len(), 1);
    assert_eq!(top[0].expert_id, 0);
}

#[test]
fn hnsw_wide_beam_finds_everything() {
    let experts: Vec<MicroExpert<F>> = (0..12)
        .map(|i| mk_expert(&[i as f32, (i * i) as f32, 1.0 - i as f32]))
        .collect();
    let hnsw = HnswIndex::new(&experts, 3, 4, 12);
    assert_eq!(hnsw.num_experts(), 12);
    let hits = MipsQuery::query_all(&hnsw, &v(&[1.0, 0.5, -2.0]));
    let mut ids: Vec<usize> = hits.iter().map(|h| h.expert_id).collect();
    for w in hits.windows(2) {
        assert!(w[1].score.0 <= w[0].score.0);
    }
    ids.sort();
    assert_eq!(ids, (0..12).collect::<Vec<usize>>());
}

#[test]
fn hnsw_answers_as_exact_search() {
    // Many nodes with few neighbours each, several layers, and a beam with room for all.
    let mut rng = Lcg::new(77);
    let mut draw = || {
        let u: F = rng.next_f32();
        u.0 * 2.0 - 1.0
    };
    let experts: Vec<MicroExpert<F>> =
        (0..60).map(|_| mk_expert(&[draw(), draw(), draw()])).collect();
    let hnsw = HnswIndex::new(&experts, 2, 2, 60);
    assert!(hnsw.max_level > 0);
    let brute = MipsIndex::new(&experts);
    for q in [[1.0, 0.0, 0.0], [-0.3, 0.8, 0.1], [0.2, -0.5, -0.9]] {
        assert_eq!(hnsw.query(&v(&q), 60), brute.query_all(&v(&q)));
        assert_eq!(hnsw.query(&v(&q), 5), brute.query_topk(&v(&q), 5));
    }
}

#[test]
fn hnsw_links_the_nearest_nodes() {
    // The distance is the negated inner product: 3 and 2 are nearest to each other.
    let experts: Vec<MicroExpert<F>> =
        [1.0, 2.0, 3.0, 4.0].iter().map(|c| mk_expert(&[*c])).collect();
    let idx = HnswIndex::with_levels(&experts, &[0, 0, 1, 0], 2, 8, 8);
    assert_eq!(idx.entry_point, Some(2));
    assert_eq!(idx.max_level, 1);
    assert_eq!(idx.node_level, vec![0, 0, 1, 0]);
    assert_eq!(idx.graph.len(), 2);
    // The node was searched for from the only node that it could enter at: itself.
    assert_eq!(idx.graph[1], vec![vec![], vec![], vec![2, 2], vec![]]);
    // Exact search ranks 3, 2, 1, 0 for a positive query.
    let ids: Vec<usize> = idx.query(&v(&[1.0]), 4).iter().map(|h| h.expert_id).collect();
    assert_eq!(ids, vec![3, 2, 1, 0]);
}

#[test]
fn generator_stays_below_one() {
    let mut rng = Lcg::new(1);
    let mut below = true;
    for _ in 0..20000 {
        let u: F = rng.next_f32();
        below = below && 0.0 <= u.0 && u.0 < 1.0;
    }
    assert!(below);
    // In single precision this word rounds up to 2^32.
    let mut top = Lcg { state: state_before(0xffff_ffff) };
    let u: F = top.next_f32();
    assert_eq!(u.0, 16777215.0 / 16777216.0);
    let mut half = Lcg { state: state_before(0x8000_0000) };
    let u: F = half.next_f32();
    assert_eq!(u.0, 0.5);
}

/// The state from which the generator goes to `y`.
fn state_before(y: u64) -> u64 {
    let mut b = y;
    for _ in 0..4 {
        b = y ^ (b << 17);
    }
    let mut a = b;
    for _ in 0..10 {
        a = b ^ (a >> 7);
    }
    let mut x = a;
    for _ in 0..5 {
        x = a ^ (x << 13);
    }
    x
}

#[test]
fn topk_sorted_desc() {
    let experts = vec![
        mk_expert(&[1.0, 0.0]), // dot with [1,1] = 1
        mk_expert(&[0.0, 1.0]), // dot = 1
        mk_expert(&[1.0, 1.0]), // dot = 2  -> highest
    ];
    let idx = MipsIndex::new(&experts);
    let top = idx.query_topk(&v(&[1.0, 1.0]), 2);
    assert_eq!(top[0].expert_id, 2);
    assert!((top[0].score.0 - 2.0).abs() < 1e-6);
    assert_eq!(top.len(), 2);
}

#[test]
fn empty_query() {
    let experts: Vec<MicroExpert<F>> = vec![];
    let idx = MipsIndex::new(&experts);
    assert!(idx.query_all(&v(&[1.0])).is_empty());
}

#[test]
fn routing_keeps_the_best() {
    let hits: Vec<Hit<F>> = [4.0f32, 3.0, 2.0, 1.0]
        .iter()
        .enumerate()
        .map(|(i, s)| Hit { expert_id: i, score: F(*s) })
        .collect();
    let ids = |h: &Vec<Hit<F>>| h.iter().map(|x| x.expert_id).collect::<Vec<usize>>();
    assert_eq!(ids(&route_all(&hits)), vec![0, 1, 2, 3]);
    let half = RouterConfig { threshold_ratio: F(0.5), max_k: 64 };
    assert_eq!(ids(&route_by_ratio(&hits, &half)), vec![0, 1, 2]);
    let two = RouterConfig { threshold_ratio: F(0.0), max_k: 2 };
    assert_eq!(ids(&route(&hits, &two).unwrap()), vec![0, 1]);
    let d: RouterConfig<F> = RouterConfig::default();
    assert_eq!(d.threshold_ratio, F(0.5));
    assert_eq!(d.max_k, 64);
}

fn mk_layer(core: &[[f32; 3]], core_ids: &[u32], expert_rows: &[(&[i8], f32, u32)]) -> SparseLayer<F> {
    // expert_rows: (ternary row, scale, original row id)
    let in_dim = 3;
    let dense_core = Matrix {
        rows: core.len(),
        cols: in_dim,
        data: core.iter().flat_map(|r| r.iter().map(|a| F(*a))).collect(),
    };
    let expert = MicroExpert {
        row_ids: expert_rows.iter().map(|(_, _, id)| *id).collect(),
        ternary: expert_rows.iter().flat_map(|(t, _, _)| t.iter().copied()).collect(),
        row_scales: expert_rows.iter().map(|(_, s, _)| F(*s)).collect(),
        centroid: vec![F(1.0); in_dim],
        mean_input: vec![F(0.0); in_dim],
        pq: None,
    };
    let out_dim = 1 + expert_rows.len();
    let bias = vec![F(0.0); out_dim];
    SparseLayer {
        out_dim,
        in_dim,
        dense_core,
        core_row_ids: core_ids.to_vec(),
        experts: vec![expert],
        bias,
        mean_input: vec![F(0.0); in_dim],
        pq_codebook: None,
        row_to_expert: Vec::new(),
        input_codebook: None,
        bias_table: None,
    }
}

#[test]
fn sparse_linear_with_all_matches_reconstruction() {
    // core owns row 0: [1,2,3]; expert owns row 1: scale 2, ternary [1,-1,0]
    let sl = mk_layer(&[[1.0, 2.0, 3.0]], &[0], &[(vec![1i8, -1, 0].as_slice(), 2.0, 1u32)]);
    let x = v(&[0.5, 1.0, 2.0]);
    let y = sparse_linear_all(&sl, &x);
    // y[0] = 1*.5+2*1+3*2 = 8.5 ; y[1] = 2*(+0.5 -1.0 +0) = 2*(-0.5) = -1.0
    assert!((y[0].0 - 8.5).abs() < 1e-5);
    assert!((y[1].0 - (-1.0)).abs() < 1e-5);
}

#[test]
fn sparse_linear_with_none_uses_bias_only() {
    // bias[i] = 0 for core rows, set a nonzero bias for the expert row.
    let mut sl = mk_layer(&[[1.0, 0.0, 0.0]], &[0], &[(vec![1i8, 0, 0].as_slice(), 1.0, 1u32)]);
    sl.bias[1] = F(7.0);
    let x = v(&[2.0, 0.0, 0.0]);
    let y = sparse_linear(&sl, &x, &[]); // no experts activated
    // y[0] = core = 1*2 = 2 ; y[1] = bias only = 7 (expert pruned)
    assert!((y[0].0 - 2.0).abs() < 1e-5);
    assert!((y[1].0 - 7.0).abs() < 1e-5);
}

#[test]
fn bias_pruned_only_no_double_count() {
    // 2-expert layer: core owns row 0, expert 0 owns row 1, expert 1 owns row 2.
    let in_dim = 3;
    let dense_core = Matrix {
        rows: 1,
        cols: in_dim,
        data: v(&[1.0, 2.0, 3.0]),
    };
    let e0 = MicroExpert {
        row_ids: vec![1],
        ternary: vec![1, -1, 0],
        row_scales: v(&[2.0]),
        centroid: vec![F(1.0); in_dim],
        mean_input: vec![F(0.0); in_dim],
        pq: None,
    };
    let e1 = MicroExpert {
        row_ids: vec![2],
        ternary: vec![0, 1, -1],
        row_scales: v(&[1.5]),
        centroid: vec![F(1.0); in_dim],
        mean_input: vec![F(0.0); in_dim],
        pq: None,
    };
    let mut bias = vec![F(0.0); 3];
    bias[1] = F(100.0); // would double-count if added to activated e0 row
    bias[2] = F(200.0); // would double-count if added to activated e1 row
    // row_to_expert: row 0 -> -1 (core), row 1 -> 0 (expert 0), row 2 -> 1 (expert 1).
    let row_to_expert = vec![-1i32, 0, 1];
    let sl = SparseLayer {
        out_dim: 3,
        in_dim,
        dense_core,
        core_row_ids: vec![0],
        experts: vec![e0, e1],
        bias,
        mean_input: vec![F(0.0); in_dim],
        pq_codebook: None,
        row_to_expert,
        input_codebook: None,
        bias_table: None,
    };
    let x = v(&[0.5, 1.0, 2.0]);

    // All experts activated: no bias is added.
    let y_all = sparse_linear(&sl, &x, &[0, 1]);
    assert!((y_all[0].0 - 8.5).abs() < 1e-5, "core row: {}", y_all[0].0);
    assert!((y_all[1].0 - (-1.0)).abs() < 1e-5, "e0 row should have NO bias: {}", y_all[1].0);
    assert!((y_all[2].0 - (-1.5)).abs() < 1e-5, "e1 row should have NO bias: {}", y_all[2].0);

    // Only expert 0 activated: row 2 (expert 1) is pruned and gets the bias.
    let y_half = sparse_linear(&sl, &x, &[0]);
    assert!(
        (y_half[1].0 - (-1.0)).abs() < 1e-5,
        "e0 still no bias when activated: {}",
        y_half[1].0
    );
    assert!(
        (y_half[2].0 - 200.0).abs() < 1e-5,
        "pruned e1 row should get bias: {}",
        y_half[2].0
    );
    assert!((y_half[0].0 - 8.5).abs() < 1e-5);

    // No experts activated: both expert rows get the bias.
    let y_none = sparse_linear(&sl, &x, &[]);
    assert!(
        (y_none[1].0 - 100.0).abs() < 1e-5,
        "all-pruned e0 should get bias: {}",
        y_none[1].0
    );
    assert!(
        (y_none[2].0 - 200.0).abs() < 1e-5,
        "all-pruned e1 should get bias: {}",
        y_none[2].0
    );
    assert!((y_none[0].0 - 8.5).abs() < 1e-5, "core never gets bias: {}", y_none[0].0);
}

#[test]
fn bias_adaptive_depends_on_x() {
    let in_dim = 3;
    // Two well-separated activation centroids (M=1, nbits=1 -> 2 codes).
    let input_codebook = PqCodebook {
        num_sub_vectors: 1,
        nbits: 1,
        sub_dim: in_dim,
        codebook: v(&[10.0, 0.0, 0.0, -10.0, 0.0, 0.0]),
    };
    let dense_core = Matrix {
        rows: 1,
        cols: in_dim,
        data: v(&[1.0, 2.0, 3.0]),
    };
    let expert = MicroExpert {
        row_ids: vec![1],
        ternary: vec![1, -1, 0],
        row_scales: v(&[2.0]),
        centroid: vec![F(1.0); in_dim],
        mean_input: vec![F(0.0); in_dim],
        pq: None,
    };
    let out_dim = 2;
    let bias_table = v(&[
        0.0, 5.0, // code 0: row 0 = 0 (core), row 1 = 5.0
        0.0, 50.0, // code 1: row 0 = 0 (core), row 1 = 50.0
    ]);
    let row_to_expert = vec![-1i32, 0];
    let sl = SparseLayer {
        out_dim,
        in_dim,
        dense_core,
        core_row_ids: vec![0],
        experts: vec![expert],
        bias: v(&[0.0, 0.0]),
        mean_input: vec![F(0.0); in_dim],
        pq_codebook: None,
        row_to_expert,
        input_codebook: Some(input_codebook),
        bias_table: Some(bias_table),
    };
    let y_a = sparse_linear(&sl, &v(&[10.0, 0.0, 0.0]), &[]);
    let y_b = sparse_linear(&sl, &v(&[-10.0, 0.0, 0.0]), &[]);
    // Core row 0: 1*10+2*0+3*0 = 10 (x_a), 1*-10 = -10 (x_b).
    assert!((y_a[0].0 - 10.0).abs() < 1e-5, "core x_a: {}", y_a[0].0);
    assert!((y_b[0].0 - (-10.0)).abs() < 1e-5, "core x_b: {}", y_b[0].0);
    // Pruned row 1: adaptive bias depends on x.
    assert!((y_a[1].0 - 5.0).abs() < 1e-5, "code 0: {}", y_a[1].0);
    assert!((y_b[1].0 - 50.0).abs() < 1e-5, "code 1: {}", y_b[1].0);
    assert!((y_a[1].0 - y_b[1].0).abs() > 1e-5, "adaptive bias must depend on x");
}

#[test]
fn active_fraction_of_a_layer() {
    let sl = mk_layer(&[[1.0, 2.0, 3.0]], &[0], &[(vec![1i8, -1, 0].as_slice(), 2.0, 1u32)]);
    assert_eq!(sl.covered_rows(), 2);
    assert_eq!(sl.num_experts(), 1);
    assert_eq!(sl.active_fraction(F(1.0)), F(1.0));
    assert_eq!(sl.active_fraction(F(0.5)), F(0.75));
}

#[test]
fn extracts_top_rows_by_norm() {
    // 4 rows, in_dim=2. Row 1 has the largest norm.
    let mut w: Matrix<F> = Matrix::zeros(4, 2);
    w.data[0..2].copy_from_slice(&v(&[0.0, 0.0])); // norm 0
    w.data[2..4].copy_from_slice(&v(&[3.0, 4.0])); // norm 5
    w.data[4..6].copy_from_slice(&v(&[0.1, 0.0])); // norm 0.1
    w.data[6..8].copy_from_slice(&v(&[0.0, 0.2])); // norm 0.2
    let r = extract(&w, &OutlierConfig { fraction: F(0.25) }).unwrap();
    assert_eq!(r.core_row_ids, vec![1]);
    assert_eq!(r.dense_core.data, v(&[3.0, 4.0]));
    assert_eq!(r.residual_row_ids, vec![0, 2, 3]);
    assert_eq!(r.residual.rows, 3);
}

#[test]
fn zero_fraction_no_core() {
    let w: Matrix<F> = Matrix::zeros(5, 3);
    let r = extract(&w, &OutlierConfig { fraction: F(0.0) }).unwrap();
    assert!(r.core_row_ids.is_empty());
    assert_eq!(r.residual_row_ids, vec![0, 1, 2, 3, 4]);
}

fn near(a: &[F], b: &[f32], tol: f32) -> bool {
    a.len() == b.len() && a.iter().zip(b.iter()).all(|(x, y)| (x.0 - y).abs() < tol)
}

#[test]
fn train_pq_clusters_subvectors() {
    // in_dim=4, M=2 sub-vectors of dim 2. Rows come in two clusters:
    // cluster A near [0,0 | 0,0], cluster B near [10,10 | -10,-10].
    let rows = vec![
        v(&[0.1, 0.0, 0.0, -0.1]),
        v(&[-0.1, 0.0, 0.0, 0.1]),
        v(&[10.0, 10.0, -10.0, -10.0]),
        v(&[10.1, 9.9, -9.9, -10.1]),
    ];
    let cb = train_pq(&rows, 2, 1, 20, 7); // nbits=1 -> 2 centroids
    assert_eq!(cb.num_sub_vectors, 2);
    assert_eq!(cb.sub_dim, 2);
    assert_eq!(cb.num_entries(), 2);
    // Encode a row in cluster A: both sub-vector codes pick the A centroid.
    let codes_a = encode_pq(&rows[0], &cb);
    let codes_b = encode_pq(&rows[2], &cb);
    assert_ne!(codes_a[0], codes_b[0]);
    assert_ne!(codes_a[1], codes_b[1]);
    // Decode of cluster A's codes lands near [0,0,0,0].
    let recon_a = decode_pq(&codes_a, &cb);
    assert!(near(&recon_a, &[0.0, 0.0, 0.0, 0.0], 0.2));
}

#[test]
fn encode_decode_roundtrip() {
    let rows: Vec<Vec<F>> = (0..40)
        .map(|i| {
            v(&[
                (i as f32) * 0.1,
                (i as f32) * 0.1 + 0.05,
                -(i as f32) * 0.05,
                (i as f32) * 0.07,
            ])
        })
        .collect();
    let cb = train_pq(&rows, 2, 4, 10, 3); // 16 centroids per sub-vector
    for r in &rows {
        let codes = encode_pq(r, &cb);
        let recon = decode_pq(&codes, &cb);
        for sm in 0..2 {
            let d = squared_dist(&r[sm * 2..(sm + 1) * 2], &recon[sm * 2..(sm + 1) * 2]).0;
            assert!(d < 0.5, "subvec {sm} dist {d:.4} too large");
        }
    }
}

#[test]
fn pq_lower_error_than_ternary() {
    // 256 rows of dim 32, Gaussian-ish (sum of uniforms).
    let mut rng = Lcg::new(11);
    let mut rows: Vec<Vec<F>> = Vec::with_capacity(256);
    for _ in 0..256 {
        let row: Vec<F> = (0..32)
            .map(|_| {
                let mut s = 0.0;
                for _ in 0..4 {
                    s += (rng.next_u32() as f32 / u32::MAX as f32) * 2.0 - 1.0;
                }
                F(s)
            })
            .collect();
        rows.push(row);
    }
    // PQ: M=4 sub-vectors of dim 8, 8-bit codebook (256 centroids each).
    let cb = train_pq(&rows, 4, 8, 20, 5);
    let mut mse_pq = 0.0f32;
    let mut mse_tern = 0.0f32;
    for r in &rows {
        let codes = encode_pq(r, &cb);
        let recon_pq = decode_pq(&codes, &cb);
        for (a, b) in r.iter().zip(recon_pq.iter()) {
            mse_pq += (a.0 - b.0) * (a.0 - b.0);
        }
        // Ternary reconstruction (scale * ternary).
        let (tern, scale) = quantize_row(r);
        for (a, &c) in r.iter().zip(tern.iter()) {
            let recon = scale.0 * c as f32;
            mse_tern += (a.0 - recon) * (a.0 - recon);
        }
    }
    mse_pq /= (256 * 32) as f32;
    mse_tern /= (256 * 32) as f32;
    assert!(
        mse_pq < mse_tern,
        "PQ MSE {mse_pq:.6} should be lower than ternary MSE {mse_tern:.6}"
    );
}

#[test]
fn pack_unpack_roundtrip() {
    let codes = vec![1i8, 0, -1, 1, -1, 0, 0, 1, -1];
    let packed = encode_ternary(&codes);
    let back = decode_ternary(&packed, codes.len());
    assert_eq!(back, codes);
}

#[test]
fn packing_clamps_to_the_sign() {
    let packed = encode_ternary(&[5i8, -7, 0]);
    assert_eq!(decode_ternary(&packed, 3), vec![1i8, -1, 0]);
}

#[test]
fn quantize_preserves_sign_and_mean_mag() {
    let row = [0.6f32, -0.7, 0.01, 0.55, -0.5, 0.2];
    let (codes, scale) = quantize_row(&v(&row));
    let recon = reconstruct_row(&codes, scale);
    // Sign matches for the large-magnitude entries.
    assert!(codes[0] == 1 && codes[1] == -1);
    // Small entry should be zero.
    assert_eq!(codes[2], 0);
    // Mean abs is roughly preserved.
    let recon_mean = recon.iter().map(|a| a.0.abs()).sum::<f32>() / recon.len() as f32;
    let orig_mean = row.iter().map(|a| a.abs()).sum::<f32>() / row.len() as f32;
    assert!((recon_mean - orig_mean).abs() < 0.15);
}

#[test]
fn matrix_quantize_shapes() {
    let m: Matrix<F> = Matrix::zeros(3, 4);
    let (codes, scales) = quantize_matrix(&m);
    assert_eq!(codes.len(), 12);
    assert_eq!(scales.len(), 3);
}

#[test]
fn clusters_group_directions() {
    let w = Matrix::from_vec(
        4,
        2,
        v(&[1.0, 0.0, 2.0, 0.1, 0.0, 3.0, 0.1, 1.0]),
    )
    .unwrap();
    let cl = cluster(&w, &ClusterConfig { num_experts: 2, iters: 10, seed: 7 }).unwrap();
    assert_eq!(cl.centroids.rows, 2);
    assert_eq!(cl.assignment[0], cl.assignment[1]);
    assert_eq!(cl.assignment[2], cl.assignment[3]);
    assert_ne!(cl.assignment[0], cl.assignment[2]);
    let empty: Matrix<F> = Matrix::zeros(0, 2);
    assert!(cluster(&empty, &ClusterConfig::default()).unwrap().members.is_empty());
}

#[test]
fn product_quantisation_needs_rows() {
    let w: Matrix<F> = Matrix::zeros(0, 4);
    assert!(matches!(
        transmute_matrix(&w, &[], &TransmuteConfig::pq()),
        Err(NseError::Other(_))
    ));
    let sl = transmute_matrix(&w, &[], &TransmuteConfig::poc()).unwrap();
    assert_eq!(sl.experts.len(), 0);
}
