//! The Neuro-Sparse Engine: small transformer language models, their training, their
//! transmutation into sparse layers, and sparse inference.
//!
//! - `scalar`, `tensor`, `sorting`, `rng`, `generator`, `text`, `error`: numbers and their
//!   arithmetic, matrices, and what all modules share.
//! - `format`: the bytes of `.nse` files.
//! - `config`, `tokenizer`, `transformer`, `toy_lm`, `autograd`: the dense model, its forward
//!   pass and its gradients.
//! - `sgd_apply`, `trainer`, `sgd`, `lsh`, `lsh_sparse`, `permute`, `forward_forward`,
//!   `hopfield`, `composite`: training.
//! - `outlier`, `cluster`, `quantize`, `pq`, `transmuter`, `calibration`, `model_transmuter`:
//!   transmutation.
//! - `sparse`, `kernel`, `bias`, `sparse_linear`, `reconstruction`: sparse layers.
//! - `index`, `hnsw`, `router`: which experts an input activates.
//! - `options`, `sparse_forward`, `ppl`, `compare`, `agreement`: sparse inference and
//!   evaluation, and that the options do not change what comes out.
//! - `order`, `exact`: what it means for arithmetic to keep the order of numbers, and to be
//!   exact.
//! - `forward_laws`, `dense_laws`, `gradient_laws`, `loss_laws`, `training_laws`,
//!   `transmutation_laws`, `pruning`, `routing_laws`: laws of the forward and the backward pass,
//!   of the loss, of training, of transmutation and of routing, for such arithmetic.

pub mod agreement;
pub mod autograd;
pub mod bias;
pub mod calibration;
pub mod cluster;
pub mod compare;
pub mod composite;
pub mod config;
pub mod dense_laws;
pub mod error;
pub mod exact;
pub mod format;
pub mod forward_forward;
pub mod forward_laws;
pub mod generator;
pub mod gradient_laws;
pub mod hnsw;
pub mod hopfield;
pub mod index;
pub mod kernel;
pub mod loss_laws;
pub mod lsh;
pub mod lsh_sparse;
pub mod model_transmuter;
pub mod options;
pub mod order;
pub mod outlier;
pub mod permute;
pub mod ppl;
pub mod pq;
pub mod pruning;
pub mod quantize;
pub mod reconstruction;
pub mod rng;
pub mod router;
pub mod routing_laws;
pub mod scalar;
pub mod sgd;
pub mod sgd_apply;
pub mod sorting;
pub mod sparse;
pub mod sparse_forward;
pub mod sparse_linear;
pub mod tensor;
pub mod text;
pub mod tokenizer;
pub mod toy_lm;
pub mod trainer;
pub mod training_laws;
pub mod transformer;
pub mod transmutation_laws;
pub mod transmuter;
