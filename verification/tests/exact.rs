use nse::bias::{apply, apply_adaptive, apply_layer};
use nse::kernel::{
    compute_dense_core_dispatch, compute_ternary_micro_expert_dispatch, KernelKind,
};
use nse::pq::{decode_pq, encode_pq, reconstruct_pq_row};
use nse::quantize::{quantize_row, reconstruct_row};
use nse::rng::{shuffled, Lcg};
use nse::scalar::{dot, squared_dist, Scalar};
use nse::sorting::sorted_order;
use nse::sparse::{MicroExpert, PqCodebook, SparseLayer};
use nse::sparse_forward::layer_store;
use nse::sparse_linear::{sparse_linear_all, sparse_linear_with_kernel};
use nse::tensor::Matrix;
use nse::transformer::{layernorm, softmax, split_qkv};

#[test]
fn integer_products() {
    assert_eq!(dot(&[1i64, 2, 3], &[4, 5, 6, 7]), 32);
    assert_eq!(squared_dist(&[1i64, 5], &[4, 1]), 25);
    assert_eq!(7i64.over(2), 3);
    assert_eq!(17i64.root(), 4);
    assert_eq!(9i64.log2(), 3);
    assert_eq!(1i64.log2(), 0);
    assert_eq!(0i64.exp(), 1);
    assert_eq!((-3i64).magnitude(), 3);
}

#[test]
fn sorting_is_stable() {
    assert_eq!(sorted_order(&[3i64, 1, 2, 1], false), vec![1, 3, 2, 0]);
    assert_eq!(sorted_order(&[3i64, 1, 2, 3], true), vec![0, 3, 2, 1]);
    assert!(sorted_order::<i64>(&[], true).is_empty());
}

#[test]
fn generator_steps() {
    let mut rng = Lcg::new(1);
    // One step of the shifts 13, 7 and 17 from the state 1.
    let mut x: u64 = 1;
    x ^= x << 13;
    x ^= x >> 7;
    x ^= x << 17;
    assert_eq!(rng.next_u32() as u64, x & 0xffff_ffff);
    let mut zero = Lcg::new(0);
    assert_ne!(zero.next_u32(), 0);
}

#[test]
fn shuffling_permutes() {
    let order = shuffled(10, 5);
    let mut sorted = order.clone();
    sorted.sort();
    assert_eq!(sorted, (0..10).collect::<Vec<usize>>());
    assert_eq!(order, shuffled(10, 5));
    assert_ne!(order, sorted);
    assert!(shuffled(0, 5).is_empty());
}

fn expert(rows: &[u32], codes: &[i8], scales: &[i64]) -> MicroExpert<i64> {
    MicroExpert {
        row_ids: rows.to_vec(),
        ternary: codes.to_vec(),
        row_scales: scales.to_vec(),
        centroid: vec![0; 9],
        mean_input: vec![0; 9],
        pq: None,
    }
}

#[test]
fn lanes_agree_on_integers() {
    let x: Vec<i64> = (0..19).map(|i| i * i - 50).collect();
    let codes: Vec<i8> = (0..19).map(|i| (i % 3) as i8 - 1).collect();
    let e = expert(&[1], &codes, &[7]);
    let core = Matrix::from_vec(1, 19, (0..19).map(|i| 3 * i - 11).collect()).unwrap();
    let mut ys = Vec::new();
    for kind in [KernelKind::Scalar, KernelKind::Avx2, KernelKind::Auto] {
        let mut y = vec![0i64; 2];
        compute_dense_core_dispatch(&core, &[0], &x, &mut y, kind);
        compute_ternary_micro_expert_dispatch(&e, &x, &mut y, kind);
        ys.push(y);
    }
    assert_eq!(ys[0], ys[1]);
    assert_eq!(ys[1], ys[2]);
    let want: i64 = (0..19).map(|i| (3 * i - 11) * (i * i - 50)).sum();
    assert_eq!(ys[0][0], want);
}

fn layer() -> SparseLayer<i64> {
    SparseLayer {
        out_dim: 4,
        in_dim: 3,
        dense_core: Matrix::from_vec(1, 3, vec![1, 2, 3]).unwrap(),
        core_row_ids: vec![2],
        experts: vec![
            MicroExpert { ternary: vec![1, 0, -1], ..expert(&[0], &[], &[5]) },
            MicroExpert { ternary: vec![0, 1, 1, -1, -1, 0], ..expert(&[3, 1], &[], &[2, 4]) },
        ],
        bias: vec![10, 20, 0, 40],
        mean_input: vec![0, 0, 0],
        pq_codebook: None,
        row_to_expert: vec![0, 1, -1, 1],
        input_codebook: None,
        bias_table: None,
    }
}

#[test]
fn order_of_activation_does_not_matter() {
    let sl = layer();
    let x = [3i64, -1, 4];
    let a = sparse_linear_with_kernel(&sl, &x, &[0, 1], KernelKind::Scalar);
    let b = sparse_linear_with_kernel(&sl, &x, &[1, 0], KernelKind::Scalar);
    assert_eq!(a, b);
    assert_eq!(a, vec![5 * (3 - 4), 4 * (-3 + 1), 3 - 2 + 12, 2 * (-1 + 4)]);
    let pruned = sparse_linear_with_kernel(&sl, &x, &[1], KernelKind::Scalar);
    assert_eq!(pruned[0], 10);
    assert_eq!(pruned[1..], a[1..]);
}

#[test]
fn all_experts_compute_with_the_store() {
    let sl = layer();
    let x = [3i64, -1, 4];
    let m = layer_store(&sl);
    let y = sparse_linear_all(&sl, &x);
    for q in 0..4 {
        assert_eq!(y[q], dot(m.row(q).unwrap(), &x));
    }
    assert_eq!(m.row(1).unwrap(), &[-4, -4, 0][..]);
}

#[test]
fn biases() {
    let mut y = vec![1i64, 2, 3];
    apply(&[10, 20, 30], &mut y);
    assert_eq!(y, vec![11, 22, 33]);
    apply(&[1], &mut y);
    assert_eq!(y, vec![12, 22, 33]);
    let mut y = vec![0i64; 4];
    apply_layer(&layer(), &mut y);
    assert_eq!(y, vec![10, 20, 0, 40]);
    let cb = PqCodebook { num_sub_vectors: 1, nbits: 1, sub_dim: 1, codebook: vec![0i64, 10] };
    let mut y = vec![0i64; 2];
    apply_adaptive(&[1, 2, 3, 4], &mut y, &[-1, 0], &[false], &[9], &cb, 2);
    assert_eq!(y, vec![0, 4]);
}

#[test]
fn quantised_rows() {
    let (codes, scale) = quantize_row(&[4i64, -4, 0, 4]);
    assert_eq!(codes, vec![1, -1, 0, 1]);
    assert_eq!(scale, 3);
    assert_eq!(reconstruct_row(&codes, scale), vec![3, -3, 0, 3]);
    let cb = PqCodebook { num_sub_vectors: 2, nbits: 1, sub_dim: 1, codebook: vec![0i64, 8, 1, 5] };
    let codes = encode_pq(&[7, 2], &cb);
    assert_eq!(codes, vec![1, 0]);
    assert_eq!(decode_pq(&codes, &cb), vec![8, 1]);
    assert_eq!(reconstruct_pq_row(&codes, &cb, 3), vec![24, 3]);
    // What was decoded encodes to the same codes.
    assert_eq!(encode_pq(&decode_pq(&codes, &cb), &cb), codes);
}

#[test]
fn parts_of_rows() {
    let (q, k, v) = split_qkv(&[1i64, 2, 3, 4, 5, 6], 1, 2);
    assert_eq!((q, k, v), (vec![1, 2], vec![3, 4], vec![5, 6]));
    assert_eq!(softmax::<i64>(&[7]), vec![1]);
    assert_eq!(layernorm::<i64>(&[], 0, 2, &[1, 1]), Vec::<i64>::new());
}
