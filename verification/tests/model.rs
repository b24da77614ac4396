use std::borrow::Cow;
use std::cell::RefCell;
use std::collections::HashMap;
use std::sync::Arc;

use candle_core::quantized::{GgmlDType, QMatMul, QStorage, QTensor};
use candle_core::{DType, Device, Error, Tensor};
use remote_layers::attention::{merge_heads, split_heads, AttentionWeights};
use remote_layers::backend::{
    AttentionKernels, DeviceMapper, Kernels, Norm, PastPositions, QuantMethod, Surroundings,
};
use remote_layers::codec::serialize_tensor;
use remote_layers::mapper::{finish_map, MapAction, RemoteLayerMapper};
use remote_layers::model::{past_kv_of, CallContext, LayerWeights, Mixer, ModelWeights};
use remote_layers::moe::{combine, experts_moe_forward, FusedMoe, Mlp, MoeOrMlp};
use remote_layers::ops::TensorError;
use remote_layers::ssm::SsmWeights;
use remote_layers::topology::RemoteAwareDevice;
use remote_layers::worker::{worker_action, worker_step, WorkerAction, WorkerEvent, WorkerState};

fn t(v: &[f32], dims: &[usize]) -> Tensor {
    Tensor::from_vec(v.to_vec(), dims, &Device::Cpu).unwrap()
}

fn vals(x: &Tensor) -> Vec<f32> {
    x.flatten_all().unwrap().to_vec1::<f32>().unwrap()
}

fn near(a: &[f32], b: &[f32]) -> bool {
    a.len() == b.len() && a.iter().zip(b).all(|(x, y)| (x - y).abs() < 1e-4)
}

fn noise(n: usize, seed: u32) -> Vec<f32> {
    let mut s = seed;
    (0..n)
        .map(|_| {
            s = s.wrapping_mul(1_664_525).wrapping_add(1_013_904_223);
            ((s >> 8) as f32 / (1u32 << 24) as f32) - 0.5
        })
        .collect()
}

#[derive(Clone)]
struct Linear(Tensor);

impl QuantMethod for Linear {
    fn forward(&self, xs: &Tensor) -> Result<Tensor, Error> {
        xs.broadcast_matmul(&self.0)
    }
}

fn linear(from: usize, to: usize, seed: u32) -> Linear {
    Linear(t(&noise(from * to, seed), &[from, to]))
}

struct Scale(f64);

impl Norm for Scale {
    fn forward(&self, x: &Tensor) -> Result<Tensor, Error> {
        x * self.0
    }
}

/// Kernels for tests: experts are matrices of the form `[experts, outputs, inputs]`.
struct Plain;

impl Kernels for Plain {
    fn mul_and_act(&self, a: &Tensor, b: &Tensor) -> Result<Tensor, Error> {
        candle_nn::ops::silu(a)? * b
    }

    fn moe_router_topk(
        &self,
        logits: &Tensor,
        top_k: usize,
        renormalize: bool,
    ) -> Result<(Tensor, Tensor), Error> {
        let p = candle_nn::ops::softmax(logits, 1)?.to_vec2::<f32>()?;
        let (mut scores, mut ids) = (Vec::new(), Vec::new());
        for row in &p {
            let mut order: Vec<usize> = (0..row.len()).collect();
            order.sort_by(|a, b| row[*b].partial_cmp(&row[*a]).unwrap());
            let sum: f32 = order[..top_k].iter().map(|i| row[*i]).sum();
            for i in &order[..top_k] {
                scores.push(if renormalize { row[*i] / sum } else { row[*i] });
                ids.push(*i as u32);
            }
        }
        let n = p.len();
        Ok((
            Tensor::from_vec(scores, (n, top_k), &Device::Cpu)?,
            Tensor::from_vec(ids, (n, top_k), &Device::Cpu)?,
        ))
    }

    fn cpu_indexed_moe_forward(
        &self,
        w: &QMatMul,
        xs: &Tensor,
        indices: &Tensor,
    ) -> Result<Tensor, Error> {
        let w = match w {
            QMatMul::Tensor(w) => w.clone(),
            _ => panic!("no matrix"),
        };
        let ids = indices.to_vec2::<u32>()?;
        let mut rows = Vec::new();
        for (n, row) in ids.iter().enumerate() {
            let mut outs = Vec::new();
            for (j, e) in row.iter().enumerate() {
                let at = if xs.dim(1)? == 1 { 0 } else { j };
                let x = xs.narrow(0, n, 1)?.narrow(1, at, 1)?.squeeze(0)?;
                outs.push(x.matmul(&w.narrow(0, *e as usize, 1)?.squeeze(0)?.t()?)?);
            }
            rows.push(Tensor::cat(&outs, 0)?.unsqueeze(0)?);
        }
        Tensor::cat(&rows, 0)
    }
}

/// Attention without turning, over all keys and values so far.
#[derive(Default)]
struct Naive {
    custom: bool,
    log: RefCell<Vec<String>>,
}

/// Hides later positions, or nothing.
#[derive(Debug, Clone, Copy, PartialEq)]
enum Mask {
    Causal,
    Open,
}

/// Keys and values so far.
type Kept = Option<(Tensor, Tensor)>;

impl AttentionKernels for Naive {
    type Paging = f32;
    type Mask = Mask;
    type Cache = Kept;

    fn text_positions(
        &self,
        start_offsets: &[usize],
        len: usize,
        like: &Tensor,
    ) -> Result<Tensor, Error> {
        self.log.borrow_mut().push(format!("positions {start_offsets:?} {len}"));
        let at: Vec<f32> = (0..len).map(|i| (start_offsets[0] + i) as f32).collect();
        Tensor::from_vec(at, len, like.device())
    }

    fn forward_qk_norm(
        &self,
        q: &Tensor,
        k: &Tensor,
        positions: &Tensor,
    ) -> Result<(Tensor, Tensor), Error> {
        let p = positions.reshape((1, 1, positions.dim(0)?, 1))?;
        Ok((q.clone(), k.broadcast_add(&(p * 0.1)?)?))
    }

    fn paged_forward(
        &self,
        _q: &Tensor,
        _k: &Tensor,
        v: &Tensor,
        mask: &Mask,
        paging: &f32,
    ) -> Result<Tensor, Error> {
        self.log.borrow_mut().push(format!("pages under {mask:?}"));
        v * (*paging as f64)
    }

    fn append(&self, cache: &Kept, k: &Tensor, v: &Tensor) -> Result<(Kept, Tensor, Tensor), Error> {
        let (k, v) = match cache {
            None => (k.contiguous()?, v.contiguous()?),
            Some((k0, v0)) => (Tensor::cat(&[k0, k], 2)?, Tensor::cat(&[v0, v], 2)?),
        };
        Ok((Some((k.clone(), v.clone())), k, v))
    }

    fn run_attention(
        &self,
        q: &Tensor,
        k: &Tensor,
        v: &Tensor,
        mask: &Mask,
    ) -> Result<Tensor, Error> {
        // Under a causal mask each query sees the keys up to its own position.
        let (len, all) = (q.dim(2)?, k.dim(2)?);
        let w = q.contiguous()?.matmul(&k.t()?.contiguous()?)?;
        let open = *mask == Mask::Open;
        let hidden: Vec<f32> = (0..len)
            .flat_map(|i| {
                (0..all).map(move |j| if open || j <= all - len + i { 0.0 } else { -1e30 })
            })
            .collect();
        let hidden = Tensor::from_vec(hidden, (1, 1, len, all), q.device())?;
        let w = candle_nn::ops::softmax_last_dim(&w.broadcast_add(&hidden)?.contiguous()?)?;
        let y = w.matmul(&v.contiguous()?)?;
        if self.custom {
            Ok(y)
        } else {
            y.transpose(1, 2)
        }
    }

    fn mask_is_custom(&self, _mask: &Mask) -> bool {
        self.custom
    }
}

struct Around {
    layers: HashMap<usize, Naive>,
    log: RefCell<Vec<String>>,
}

impl Surroundings for Around {
    type Attention = Naive;

    fn attention(&self, layer: usize) -> &Naive {
        &self.layers[&layer]
    }

    fn causal_mask(
        &self,
        ids: &Tensor,
        past: PastPositions<'_, Kept>,
        dtype: DType,
    ) -> Result<Mask, Error> {
        let past = match past {
            PastPositions::Cache(c) => format!("cache of {}", c.len()),
            PastPositions::Offsets(o) => format!("{o:?}"),
        };
        self.log.borrow_mut().push(format!("mask {:?} {past} {dtype:?}", ids.dims()));
        Ok(Mask::Causal)
    }

    fn causal_mask_for(
        &self,
        len: usize,
        past: usize,
        dtype: DType,
        device: &Device,
    ) -> Result<Mask, Error> {
        assert!(device.is_cpu());
        self.log.borrow_mut().push(format!("mask for {len} after {past} {dtype:?}"));
        Ok(Mask::Causal)
    }

    fn no_mask(&self) -> Mask {
        self.log.borrow_mut().push("no mask".to_string());
        Mask::Open
    }

    fn extract_logits(
        &self,
        x: &Tensor,
        context_lens: &Vec<(usize, usize)>,
    ) -> Result<Tensor, Error> {
        let (start, len) = context_lens[0];
        x.narrow(1, start, len)
    }
}

fn around(custom: bool) -> Around {
    let layers = (0..LAYERS)
        .map(|i| (i, Naive { custom, ..Default::default() }))
        .collect();
    Around { layers, log: RefCell::new(Vec::new()) }
}

const WIDTH: usize = 4;
const LAYERS: usize = 5;

fn attention(seed: u32) -> AttentionWeights<Linear> {
    AttentionWeights {
        attention_wq: linear(WIDTH, 4, seed),
        attention_wk: linear(WIDTH, 2, seed + 1),
        attention_wv: linear(WIDTH, 2, seed + 2),
        attention_wo: linear(4, WIDTH, seed + 3),
        n_head: 2,
        n_kv_head: 1,
        head_dim: 2,
        paged: false,
        dtype: DType::F32,
    }
}

/// One head, so that queries and keys go together.
fn single(seed: u32) -> AttentionWeights<Linear> {
    AttentionWeights {
        attention_wk: linear(WIDTH, 4, seed + 1),
        attention_wv: linear(WIDTH, 4, seed + 2),
        n_kv_head: 2,
        ..attention(seed)
    }
}

fn mlp(seed: u32) -> Mlp<Linear> {
    Mlp {
        feed_forward_w1: linear(WIDTH, 6, seed),
        feed_forward_w2: linear(6, WIDTH, seed + 1),
        feed_forward_w3: linear(WIDTH, 6, seed + 2),
    }
}

fn moe(seed: u32) -> FusedMoe {
    let m = |n: usize, dims: &[usize], s: u32| QMatMul::Tensor(t(&noise(n, seed + s), dims));
    FusedMoe {
        gate: m(3 * WIDTH, &[3, WIDTH], 0),
        gate_experts: m(3 * 5 * WIDTH, &[3, 5, WIDTH], 1),
        up_experts: m(3 * 5 * WIDTH, &[3, 5, WIDTH], 2),
        down_experts: m(3 * WIDTH * 5, &[3, WIDTH, 5], 3),
        norm_topk_prob: true,
        num_experts_per_tok: 2,
    }
}

fn ssm(seed: u32) -> SsmWeights<Linear> {
    let channels = 8;
    SsmWeights {
        attn_qkv: linear(WIDTH, channels, seed),
        attn_gate: linear(WIDTH, 4, seed + 1),
        ssm_conv1d: t(&noise(3 * channels, seed + 2), &[3, channels]),
        ssm_a: t(&[-0.5, -1.0], &[2]),
        ssm_alpha: linear(WIDTH, 2, seed + 3),
        ssm_beta: linear(WIDTH, 2, seed + 4),
        ssm_dt: t(&[0.1, 0.2], &[2]),
        ssm_out: linear(4, WIDTH, seed + 5),
        ssm_norm: t(&[1.0, 2.0], &[2]),
        n_heads: 2,
        n_kv_heads: 1,
        state_size: 2,
        inner_size: 4,
    }
}

/// Layers by turns with a state and with attention, and with experts or without.
fn layer(i: usize) -> LayerWeights<Linear, Scale> {
    let seed = 100 * (i as u32 + 1);
    LayerWeights {
        mixer: if i % 2 == 0 {
            Mixer::Ssm { ssm: ssm(seed), conv_state: None, ssm_state: None }
        } else {
            Mixer::Attention(single(seed))
        },
        attention_norm: Scale(1.5),
        mlp: if i % 3 == 0 {
            MoeOrMlp::FusedMoe(moe(seed + 50))
        } else {
            MoeOrMlp::Mlp(mlp(seed + 50))
        },
        ffn_norm: Scale(0.5),
    }
}

fn model<M>(mapper: Option<M>, loaded: &[usize]) -> ModelWeights<Linear, Scale, M, Kept> {
    ModelWeights {
        tok_embeddings: t(&noise(10 * WIDTH, 3), &[10, WIDTH]),
        embedding_length: WIDTH,
        layers: (0..LAYERS)
            .map(|i| if loaded.contains(&i) { Some(layer(i)) } else { None })
            .collect(),
        norm: Scale(2.0),
        output: linear(WIDTH, 10, 4),
        device: Device::Cpu,
        cache: vec![None; LAYERS],
        max_seq_len: 64,
        mapper,
        dtype: DType::F32,
    }
}

/// A mapper that does nothing.
struct Stay;

impl DeviceMapper for Stay {
    fn map(self, input: Tensor, _layer: usize) -> (Self, Result<Tensor, Error>) {
        (self, Ok(input))
    }

    fn set_past_kv(self, _past_kv: u32) -> Self {
        self
    }
}

/// Caches for all layers, with nothing in them.
fn caches() -> Vec<Kept> {
    vec![None; LAYERS]
}

fn ids(v: &[u32]) -> Tensor {
    Tensor::from_vec(v.to_vec(), (1, v.len()), &Device::Cpu).unwrap()
}

const ALL: [usize; LAYERS] = [0, 1, 2, 3, 4];

#[test]
fn heads_are_split_and_merged() {
    let x = t(&(0..12).map(|i| i as f32).collect::<Vec<f32>>(), &[1, 3, 4]);
    let y = split_heads(&x, 1, 3, 2, 2).unwrap();
    assert_eq!(y.dims(), &[1, 2, 3, 2]);
    assert_eq!(
        vals(&y),
        vec![0.0, 1.0, 4.0, 5.0, 8.0, 9.0, 2.0, 3.0, 6.0, 7.0, 10.0, 11.0]
    );
    assert_eq!(vals(&merge_heads(&y, 1, 3, true).unwrap()), vals(&x));
    let turned = y.transpose(1, 2).unwrap();
    assert_eq!(vals(&merge_heads(&turned, 1, 3, false).unwrap()), vals(&x));
    let one = split_heads(&x.narrow(1, 2, 1).unwrap(), 1, 1, 2, 2).unwrap();
    assert_eq!(one.dims(), &[1, 2, 1, 2]);
    assert_eq!(vals(&one), vec![8.0, 9.0, 10.0, 11.0]);
}

#[test]
fn heads_have_to_come_out_even() {
    let x = t(&[1.0; 12], &[1, 3, 4]);
    assert!(matches!(split_heads(&x, 1, 3, 2, 3), Err(TensorError::Candle(_))));
    assert!(matches!(merge_heads(&x, 1, 5, false), Err(TensorError::UnknownSize)));
    assert!(matches!(merge_heads(&x, 0, 3, false), Err(TensorError::UnknownSize)));
    assert!(matches!(
        merge_heads(&t(&[1.0; 2], &[1, 2]), 1, 2, true),
        Err(TensorError::Candle(_))
    ));
}

#[test]
fn attention_goes_on_from_what_is_kept() {
    let w = single(7);
    let x = t(&noise(3 * WIDTH, 8), &[1, 3, WIDTH]);
    for custom in [false, true] {
        let kernels = Naive { custom, ..Default::default() };
        let mut cache = None;
        let whole = w
            .forward_attn(&kernels, &x, &Mask::Causal, &[0], &mut cache, None)
            .unwrap();
        assert_eq!(whole.dims(), &[1, 3, WIDTH]);
        assert_eq!(*kernels.log.borrow(), vec!["positions [0] 3".to_string()]);
        // Keys and values are taken in once.
        assert_eq!(cache.as_ref().unwrap().0.dims(), &[1, 2, 3, 2]);
        let mut cache = None;
        let mut outs = Vec::new();
        for i in 0..3usize {
            outs.push(
                w.forward_attn(
                    &kernels,
                    &x.narrow(1, i, 1).unwrap(),
                    &Mask::Open,
                    &[i],
                    &mut cache,
                    None,
                )
                .unwrap(),
            );
            assert_eq!(cache.as_ref().unwrap().1.dims(), &[1, 2, i + 1, 2]);
        }
        assert!(near(&vals(&Tensor::cat(&outs, 1).unwrap()), &vals(&whole)));
        // Without a mask earlier positions see later ones.
        let open = w.forward_attn(&kernels, &x, &Mask::Open, &[0], &mut None, None).unwrap();
        assert!(!near(&vals(&open), &vals(&whole)));
    }
}

#[test]
fn paged_attention_has_its_pages() {
    let mut w = single(7);
    w.paged = true;
    w.attention_wo = Linear(Tensor::eye(4, DType::F32, &Device::Cpu).unwrap());
    let x = t(&noise(WIDTH, 8), &[1, 1, WIDTH]);
    let kernels = Naive { custom: true, ..Default::default() };
    let mut cache = None;
    let y = w
        .forward_attn(&kernels, &x, &Mask::Causal, &[0], &mut cache, Some(&3.0))
        .unwrap();
    let v = w.attention_wv.forward(&x).unwrap();
    assert!(near(&vals(&y), &vals(&(v * 3.0).unwrap())));
    assert!(cache.is_none());
    assert_eq!(kernels.log.borrow()[1], "pages under Causal");
}

#[test]
fn attention_refuses_other_ranks() {
    let mut cache = None;
    let x = t(&[1.0; 4], &[1, 4]);
    let w = single(7);
    assert!(matches!(
        w.forward_attn(&Naive::default(), &x, &Mask::Open, &[0], &mut cache, None),
        Err(TensorError::WrongRank { expected: 3, got: 2 })
    ));
    assert!(cache.is_none());
}

#[test]
fn feed_forward_is_gated() {
    let m = Mlp {
        feed_forward_w1: Linear(t(&[2.0], &[1, 1])),
        feed_forward_w2: Linear(t(&[5.0], &[1, 1])),
        feed_forward_w3: Linear(t(&[3.0], &[1, 1])),
    };
    let y = m.forward(&Plain, &t(&[1.0], &[1, 1])).unwrap();
    let silu = 2.0 / (1.0 + (-2.0f32).exp());
    assert!(near(&vals(&y), &[silu * 3.0 * 5.0]));
    let bad = Mlp { feed_forward_w1: linear(2, 2, 1), ..m };
    assert!(matches!(
        MoeOrMlp::Mlp(bad).forward(&Plain, &t(&[1.0], &[1, 1])),
        Err(TensorError::Candle(_))
    ));
}

#[test]
fn scores_weigh_experts() {
    let ys = t(&[1.0, 2.0, 3.0, 4.0, 5.0, 6.0, 7.0, 8.0], &[2, 2, 2]);
    let scores = t(&[0.25, 0.75, 1.0, 0.0], &[2, 2]);
    let like = t(&[0.0], &[1]);
    let y = combine(&ys, &scores, &[1, 2, 2], &like).unwrap();
    assert_eq!(y.dims(), &[1, 2, 2]);
    assert_eq!(vals(&y), vec![2.5, 3.5, 5.0, 6.0]);
    assert!(matches!(
        combine(&ys, &scores, &[5], &like),
        Err(TensorError::Candle(_))
    ));
    let one = Tensor::new(2.0f32, &Device::Cpu).unwrap();
    assert!(matches!(
        combine(&one, &one, &[1], &like),
        Err(TensorError::WrongRank { expected: 2, got: 1 })
    ));
}

#[test]
fn tokens_go_to_their_experts() {
    let m = moe(9);
    let x = t(&noise(2 * WIDTH, 10), &[1, 2, WIDTH]);
    let y = m.forward(&Plain, &x).unwrap();
    assert_eq!(y.dims(), &[1, 2, WIDTH]);
    // Token by token, expert by expert.
    let mat = |w: &QMatMul| match w {
        QMatMul::Tensor(w) => w.clone(),
        _ => panic!("no matrix"),
    };
    for n in 0..2usize {
        let token = x.narrow(1, n, 1).unwrap().reshape((1, WIDTH)).unwrap();
        let logits = token.matmul(&mat(&m.gate).t().unwrap()).unwrap();
        let (scores, ids) = Plain.moe_router_topk(&logits, 2, true).unwrap();
        let mut sum = vec![0.0; WIDTH];
        for j in 0..2usize {
            let e = ids.to_vec2::<u32>().unwrap()[0][j] as usize;
            let s = scores.to_vec2::<f32>().unwrap()[0][j];
            let one = |w: &QMatMul| mat(w).narrow(0, e, 1).unwrap().squeeze(0).unwrap().t().unwrap();
            let g = token.matmul(&one(&m.gate_experts)).unwrap();
            let u = token.matmul(&one(&m.up_experts)).unwrap();
            let h = Plain.mul_and_act(&g, &u).unwrap();
            let d = vals(&h.matmul(&one(&m.down_experts)).unwrap());
            for (a, b) in sum.iter_mut().zip(d) {
                *a += s * b;
            }
        }
        assert!(near(&vals(&y.narrow(1, n, 1).unwrap()), &sum));
    }
}

#[test]
fn logits_pick_the_experts() {
    let m = moe(9);
    let x = t(&noise(2 * WIDTH, 10), &[1, 2, WIDTH]);
    let gate = match &m.gate {
        QMatMul::Tensor(w) => w.clone(),
        _ => panic!("no matrix"),
    };
    let logits = x.reshape((2, WIDTH)).unwrap().matmul(&gate.t().unwrap()).unwrap();
    let routed = m.forward_routed(&Plain, &x, &logits).unwrap();
    assert!(near(&vals(&routed), &vals(&m.forward(&Plain, &x).unwrap())));
    // With other logits other experts do the work.
    let other = m.forward_routed(&Plain, &x, &(logits * -1.0).unwrap()).unwrap();
    assert!(!near(&vals(&routed), &vals(&other)));
}

#[test]
fn experts_refuse_other_shapes() {
    let m = moe(9);
    assert!(matches!(
        m.forward(&Plain, &t(&[1.0; 4], &[1, 4])),
        Err(TensorError::WrongRank { expected: 3, got: 2 })
    ));
    let none = t(&[1.0; 4], &[1, 1, 4]).narrow(2, 0, 0).unwrap();
    assert!(matches!(m.forward(&Plain, &none), Err(TensorError::UnknownSize)));
    let cube = FusedMoe { gate: QMatMul::Tensor(t(&[1.0; 8], &[2, 2, 2])), ..moe(9) };
    assert!(matches!(
        cube.forward(&Plain, &t(&[1.0; 4], &[1, 1, 4])),
        Err(TensorError::WrongRank { expected: 2, got: 3 })
    ));
    let narrow = FusedMoe { gate: QMatMul::Tensor(t(&[1.0; 6], &[3, 2])), ..moe(9) };
    assert!(matches!(
        narrow.forward(&Plain, &t(&[1.0; 4], &[1, 1, 4])),
        Err(TensorError::Candle(_))
    ));
}

#[test]
fn matrices_have_to_hold_their_blocks() {
    let wide = 32;
    let whole = QTensor::quantize(&t(&noise(2 * wide, 1), &[2, wide]), GgmlDType::Q8_0).unwrap();
    let bytes = whole.data().unwrap().to_vec();
    let m = |n: usize, dims: &[usize], s: u32| QMatMul::Tensor(t(&noise(n, s), dims));
    let gated = |bytes: &[u8]| {
        let storage =
            QStorage::from_data(Cow::Borrowed(bytes), &Device::Cpu, GgmlDType::Q8_0).unwrap();
        FusedMoe {
            gate: QMatMul::QTensor(Arc::new(QTensor::new(storage, (2, wide)).unwrap())),
            gate_experts: m(2 * 5 * wide, &[2, 5, wide], 1),
            up_experts: m(2 * 5 * wide, &[2, 5, wide], 2),
            down_experts: m(2 * wide * 5, &[2, wide, 5], 3),
            norm_topk_prob: true,
            num_experts_per_tok: 1,
        }
    };
    let x = t(&noise(wide, 7), &[1, 1, wide]);
    assert!(gated(&bytes).forward(&Plain, &x).is_ok());
    let half = bytes.len() / 2;
    assert!(matches!(
        gated(&bytes[..half]).forward(&Plain, &x),
        Err(TensorError::WrongBlocks)
    ));
    let double = [&bytes[..], &bytes[..]].concat();
    assert!(matches!(gated(&double).forward(&Plain, &x), Err(TensorError::WrongBlocks)));
}

#[test]
fn tokens_do_not_mix_in_experts() {
    let m = moe(9);
    let x = t(&noise(3 * WIDTH, 31), &[1, 3, WIDTH]);
    let whole = m.forward(&Plain, &x).unwrap();
    for (start, len) in [(0, 1), (1, 2), (0, 2), (2, 1)] {
        let part = m.forward(&Plain, &x.narrow(1, start, len).unwrap()).unwrap();
        assert!(near(&vals(&part), &vals(&whole.narrow(1, start, len).unwrap())));
    }
    // Two items whose second ones differ agree at the first.
    let both = |seed: u32| {
        let other = t(&noise(3 * WIDTH, seed), &[1, 3, WIDTH]);
        m.forward(&Plain, &Tensor::cat(&[&x, &other], 0).unwrap()).unwrap()
    };
    let (a, b) = (both(1), both(2));
    assert_eq!(vals(&a.narrow(0, 0, 1).unwrap()), vals(&b.narrow(0, 0, 1).unwrap()));
    assert!(!near(&vals(&a.narrow(0, 1, 1).unwrap()), &vals(&b.narrow(0, 1, 1).unwrap())));
}

#[test]
fn experts_run_on_the_processor_without_a_device() {
    let w = QMatMul::Tensor(t(&noise(3 * 2 * 2, 1), &[3, 2, 2]));
    let xs = t(&[1.0, 2.0], &[1, 1, 2]);
    let indices = Tensor::from_vec(vec![2u32], (1, 1), &Device::Cpu).unwrap();
    let a = experts_moe_forward(&Plain, &w, &xs, &indices).unwrap();
    let b = Plain.cpu_indexed_moe_forward(&w, &xs, &indices).unwrap();
    assert_eq!(vals(&a), vals(&b));
}

#[test]
fn router_can_be_quantised() {
    let wide = 32;
    let m = |n: usize, dims: &[usize], s: u32| QMatMul::Tensor(t(&noise(n, s), dims));
    let rows: Vec<f32> = (0..2 * wide).map(|i| if i < wide { -1.0 } else { 1.0 }).collect();
    let gate = QTensor::quantize(&t(&rows, &[2, wide]), GgmlDType::Q8_0).unwrap();
    let layer = FusedMoe {
        gate: QMatMul::QTensor(Arc::new(gate)),
        gate_experts: m(2 * 5 * wide, &[2, 5, wide], 1),
        up_experts: m(2 * 5 * wide, &[2, 5, wide], 2),
        down_experts: m(2 * wide * 5, &[2, wide, 5], 3),
        norm_topk_prob: true,
        num_experts_per_tok: 1,
    };
    let x = t(&vec![0.5; 3 * wide], &[1, 3, wide]);
    let y = layer.forward(&Plain, &x).unwrap();
    assert_eq!(y.dims(), &[1, 3, wide]);
    // The second row of the router's weights is the one that agrees with the input.
    let logits = t(&[-16.0, 16.0, -16.0, 16.0, -16.0, 16.0], &[3, 2]);
    assert_eq!(vals(&y), vals(&layer.forward_routed(&Plain, &x, &logits).unwrap()));
    let other = (logits * -1.0).unwrap();
    assert_ne!(vals(&y), vals(&layer.forward_routed(&Plain, &x, &other).unwrap()));
    // Elements that do not stand next to one another are put so first.
    let turned = t(&vec![0.5; 3 * wide], &[1, wide, 3]).transpose(1, 2).unwrap();
    assert_eq!(vals(&y), vals(&layer.forward(&Plain, &turned).unwrap()));
    assert!(matches!(
        layer.forward(&Plain, &t(&[1.0; 4], &[1, 1, 4])),
        Err(TensorError::Candle(_))
    ));
}

#[test]
fn router_without_inputs_is_refused() {
    let none = t(&[1.0; 4], &[2, 2]).narrow(1, 0, 0).unwrap();
    let m = FusedMoe { gate: QMatMul::Tensor(none), ..moe(9) };
    assert!(matches!(
        m.forward(&Plain, &t(&[1.0; 4], &[1, 1, 4])),
        Err(TensorError::UnknownSize)
    ));
}

#[test]
fn first_offset_is_what_is_cached() {
    assert_eq!(past_kv_of(&[]), 0);
    assert_eq!(past_kv_of(&[5, 9]), 5);
}

fn run_whole<M: DeviceMapper>(
    m: &mut ModelWeights<Linear, Scale, M, Kept>,
    a: &Around,
    tokens: &[u32],
    offset: usize,
) -> Vec<f32> {
    let offsets = [offset];
    let ctx = CallContext { kernels: &Plain, around: a, start_offsets: &offsets, paging: None };
    let y = m
        .forward(&ctx, &ids(tokens), &vec![(tokens.len() - 1, 1)], true)
        .unwrap();
    assert_eq!(y.dims(), &[1, 1, 10]);
    vals(&y)
}

#[test]
fn model_goes_on_from_what_it_keeps() {
    let whole = run_whole(&mut model(Some(Stay), &ALL), &around(true), &[1, 2, 3, 4], 0);
    let mut m = model(Some(Stay), &ALL);
    let a = around(true);
    run_whole(&mut m, &a, &[1, 2], 0);
    run_whole(&mut m, &a, &[3], 2);
    let last = run_whole(&mut m, &a, &[4], 3);
    assert!(near(&whole, &last));
    assert_eq!(a.log.borrow()[0], "mask [1, 2] cache of 5 F32");
}

#[test]
fn model_needs_no_mapper() {
    let with = run_whole(&mut model(Some(Stay), &ALL), &around(true), &[5, 6], 0);
    let without = run_whole(&mut model::<Stay>(None, &ALL), &around(true), &[5, 6], 0);
    assert_eq!(with, without);
}

#[test]
fn mask_depends_on_pages() {
    for (first, expected) in [
        (true, vec!["mask [1, 1] [7] F32"]),
        (false, vec!["mask [1, 1] [7] F32", "no mask"]),
    ] {
        let mut m = model(Some(Stay), &ALL);
        for l in m.layers.iter_mut().flatten() {
            if let Mixer::Attention(a) = &mut l.mixer {
                a.paged = true;
            }
        }
        let a = around(true);
        let pages = [1.0; LAYERS];
        let ctx =
            CallContext { kernels: &Plain, around: &a, start_offsets: &[7], paging: Some(&pages) };
        m.forward(&ctx, &ids(&[1]), &vec![(0, 1)], first).unwrap();
        assert_eq!(*a.log.borrow(), expected);
        let used = if first { "pages under Causal" } else { "pages under Open" };
        assert_eq!(a.layers[&1].log.borrow()[1], used);
        assert!(m.cache.iter().all(|c| c.is_none()));
    }
}

#[test]
fn no_ids_make_no_logits() {
    // The ids begin behind the end of what holds them.
    let none = Tensor::zeros((2, 3), DType::U32, &Device::Cpu)
        .unwrap()
        .narrow(0, 2, 0)
        .unwrap()
        .narrow(1, 3, 0)
        .unwrap();
    let mut m = model(Some(Stay), &[]);
    let a = around(true);
    let ctx = CallContext { kernels: &Plain, around: &a, start_offsets: &[0], paging: None };
    let r = m.forward(&ctx, &none, &vec![(0, 0)], true);
    assert!(r.map(|y| y.elem_count() == 0).unwrap_or(true));
}

#[test]
fn hidden_states_can_be_looked_up_beforehand() {
    let (a, b) = (around(true), around(true));
    let mut whole = model(Some(Stay), &ALL);
    let found = run_whole(&mut whole, &a, &[1, 2], 0);
    let mut m = model(Some(Stay), &ALL);
    let h = m.tok_embeddings.narrow(0, 1, 2).unwrap().unsqueeze(0).unwrap();
    let ctx = CallContext { kernels: &Plain, around: &b, start_offsets: &[0], paging: None };
    let y = m.forward_hidden(&ctx, &ids(&[1, 2]), &h, &vec![(1, 1)], true).unwrap();
    assert_eq!(vals(&y), found);
    assert_eq!(*a.log.borrow(), *b.log.borrow());
}

#[test]
fn whole_pass_is_all_layers_and_output() {
    let found = run_whole(&mut model(Some(Stay), &ALL), &around(true), &[1, 2, 3], 0);
    let mut m = model::<Stay>(None, &ALL);
    let a = around(true);
    let h = m.tok_embeddings.narrow(0, 1, 3).unwrap().unsqueeze(0).unwrap();
    let mut kept = caches();
    let y = m.forward_from_layer(&Plain, &a, &h, 0, LAYERS - 1, 0, &mut kept).unwrap();
    let y = m.norm.forward(&y).unwrap();
    let y = a.extract_logits(&y, &vec![(2, 1)]).unwrap();
    assert_eq!(vals(&m.output.forward(&y).unwrap()), found);
}

#[test]
fn unknown_tokens_are_refused() {
    let mut m = model(Some(Stay), &ALL);
    let a = around(true);
    let ctx = CallContext { kernels: &Plain, around: &a, start_offsets: &[0], paging: None };
    assert!(matches!(
        m.forward(&ctx, &ids(&[10]), &vec![(0, 1)], true),
        Err(TensorError::Candle(_))
    ));
}

#[test]
fn tokens_have_their_rows() {
    let table: Vec<f32> = (1..13).map(|i| i as f32).collect();
    let mut m = ModelWeights::<Linear, Scale, Stay, Kept> {
        tok_embeddings: t(&table, &[3, WIDTH]),
        layers: Vec::new(),
        norm: Scale(1.0),
        output: Linear(Tensor::eye(WIDTH, DType::F32, &Device::Cpu).unwrap()),
        ..model(None, &ALL)
    };
    let a = around(true);
    let ctx = CallContext { kernels: &Plain, around: &a, start_offsets: &[0], paging: None };
    let y = m.forward(&ctx, &ids(&[2, u32::MAX, 0]), &vec![(0, 3)], true).unwrap();
    assert_eq!(y.dims(), &[1, 3, WIDTH]);
    assert_eq!(
        vals(&y),
        vec![9.0, 10.0, 11.0, 12.0, 0.0, 0.0, 0.0, 0.0, 1.0, 2.0, 3.0, 4.0]
    );
    // Rows that are not of the size of the hidden states are refused.
    m.embedding_length = 2;
    assert!(matches!(
        m.forward(&ctx, &ids(&[2]), &vec![(0, 1)], true),
        Err(TensorError::Candle(_))
    ));
}

#[test]
fn parts_of_a_model_compose() {
    let x = t(&noise(3 * WIDTH, 77), &[1, 3, WIDTH]);
    let mut m = model::<Stay>(None, &ALL);
    let a = around(true);
    let mut kept = caches();
    let whole = m.forward_from_layer(&Plain, &a, &x, 1, 4, 0, &mut kept).unwrap();
    assert_eq!(*a.log.borrow(), vec!["mask for 3 after 0 F32".to_string()]);
    // Layers with attention have taken keys and values in, once for each position.
    assert_eq!(kept[1].as_ref().unwrap().0.dim(2).unwrap(), 3);
    assert_eq!(kept[3].as_ref().unwrap().0.dim(2).unwrap(), 3);
    assert!(kept[0].is_none() && kept[2].is_none() && kept[4].is_none());
    for cut in 1..4usize {
        let mut m = model::<Stay>(None, &ALL);
        let a = around(true);
        let mut kept = caches();
        let half = m.forward_from_layer(&Plain, &a, &x, 1, cut, 0, &mut kept).unwrap();
        assert!(cut >= 3 || kept[3].is_none());
        let rest = m.forward_from_layer(&Plain, &a, &half, cut + 1, 4, 0, &mut kept).unwrap();
        assert_eq!(vals(&rest), vals(&whole));
        assert_eq!(kept.len(), LAYERS);
    }
    // Layers that are not there, or not asked for, pass hidden states on.
    let mut none = model::<Stay>(None, &[0]);
    let a = around(true);
    let mut kept = caches();
    let same = none.forward_from_layer(&Plain, &a, &x, 1, 9, 0, &mut kept).unwrap();
    assert_eq!(vals(&same), vals(&x));
    let same = m.forward_from_layer(&Plain, &a, &x, 3, 2, 0, &mut kept).unwrap();
    assert_eq!(vals(&same), vals(&x));
    assert!(kept.iter().all(|c| c.is_none()));
}

#[test]
fn single_positions_need_no_mask() {
    let mut m = model::<Stay>(None, &ALL);
    let a = around(true);
    let x = t(&[1.0; 4], &[1, 1, WIDTH]);
    m.forward_from_layer(&Plain, &a, &x, 0, 0, 5, &mut caches()).unwrap();
    assert_eq!(*a.log.borrow(), vec!["no mask".to_string()]);
}

#[test]
fn later_positions_change_nothing_before() {
    let x = t(&noise(3 * WIDTH, 77), &[1, 3, WIDTH]);
    let other = Tensor::cat(&[&x.narrow(1, 0, 2).unwrap(), &t(&noise(WIDTH, 5), &[1, 1, WIDTH])], 1)
        .unwrap();
    let a = around(true);
    let run = |x: &Tensor| {
        let mut m = model::<Stay>(None, &ALL);
        let y = m.forward_from_layer(&Plain, &a, x, 0, 4, 0, &mut caches()).unwrap();
        y.narrow(1, 0, 2).unwrap()
    };
    assert!(near(&vals(&run(&x)), &vals(&run(&other))));
}

#[test]
fn a_refusal_leaves_what_is_behind_alone() {
    // Layer 3 has projections for another width.
    let mut m = model::<Stay>(None, &ALL);
    if let Some(l) = &mut m.layers[3] {
        if let Mixer::Attention(a) = &mut l.mixer {
            a.attention_wq = linear(WIDTH + 1, 4, 1);
        }
    }
    let a = around(true);
    let x = t(&noise(2 * WIDTH, 77), &[1, 2, WIDTH]);
    let mut kept = caches();
    assert!(m.forward_from_layer(&Plain, &a, &x, 0, 4, 0, &mut kept).is_err());
    assert!(kept[1].is_some() && kept[3].is_none());
    let states: Vec<bool> = m
        .layers
        .iter()
        .map(|l| match &l.as_ref().unwrap().mixer {
            Mixer::Ssm { conv_state, ssm_state, .. } => conv_state.is_some() && ssm_state.is_some(),
            Mixer::Attention(_) => false,
        })
        .collect();
    assert_eq!(states, vec![true, false, true, false, false]);
}

/// A mapper that has a worker in this very process.
struct Bridge {
    mapper: RemoteLayerMapper,
    worker: ModelWeights<Linear, Scale, Stay, Kept>,
    cache: Vec<Kept>,
    around: Around,
    requests: Vec<(u32, u32, u32)>,
    calls: Vec<String>,
}

impl DeviceMapper for Bridge {
    fn map(mut self, input: Tensor, layer: usize) -> (Self, Result<Tensor, Error>) {
        self.calls.push(format!("map {layer}"));
        let q = match self.mapper.map(&input, layer).unwrap() {
            MapAction::Local | MapAction::Pass => return (self, Ok(input)),
            MapAction::Send(q) => q,
        };
        self.requests.push((q.layer_start, q.layer_end, q.past_kv));
        let mut state = WorkerState::Command;
        let mut bytes = vec![0u8];
        bytes.extend_from_slice(&q.layer_start.to_le_bytes());
        bytes.extend_from_slice(&q.layer_end.to_le_bytes());
        bytes.extend_from_slice(&q.past_kv.to_le_bytes());
        bytes.extend_from_slice(&[0; 4]);
        bytes.extend_from_slice(&(q.payload.len() as u64).to_le_bytes());
        bytes.extend_from_slice(&q.payload);
        let mut at = 0;
        let mut response = Vec::new();
        loop {
            let event = match worker_action(&state) {
                WorkerAction::Read(_) if at == bytes.len() => break,
                WorkerAction::Read(n) => {
                    at += n;
                    WorkerEvent::Received(bytes[at - n..at].to_vec())
                }
                WorkerAction::Compute(h, span) => WorkerEvent::Computed(
                    self.worker
                        .forward_from_layer(
                            &Plain,
                            &self.around,
                            h,
                            span.start,
                            span.end,
                            span.past_kv,
                            &mut self.cache,
                        )
                        .unwrap(),
                ),
                WorkerAction::WriteLen(_) | WorkerAction::Flush => WorkerEvent::Did,
                WorkerAction::Write(b) => {
                    response = b.to_vec();
                    WorkerEvent::Did
                }
                _ => panic!("the worker gave up"),
            };
            state = worker_step(state, event);
        }
        (self, Ok(finish_map(&response, &input).unwrap()))
    }

    fn set_past_kv(mut self, past_kv: u32) -> Self {
        self.calls.push(format!("past {past_kv}"));
        self.mapper.set_past_kv(past_kv);
        self
    }
}

#[test]
fn layers_at_a_worker_change_nothing() {
    for away in [vec![1, 2], vec![0, 1, 2, 3, 4], vec![4], vec![0, 3, 4]] {
        let specs = (0..LAYERS)
            .map(|i| {
                if away.contains(&i) {
                    RemoteAwareDevice::Remote { addr: "w:1".to_string() }
                } else {
                    RemoteAwareDevice::Local(Device::Cpu)
                }
            })
            .collect();
        let own: Vec<usize> = ALL.iter().copied().filter(|i| !away.contains(i)).collect();
        let bridge = Bridge {
            mapper: RemoteLayerMapper::new(specs),
            worker: model::<Stay>(None, &ALL),
            cache: caches(),
            around: around(true),
            requests: Vec::new(),
            calls: Vec::new(),
        };
        let mut host = model(Some(bridge), &own);
        let a = around(true);
        let mut alone = model(Some(Stay), &ALL);
        let b = around(true);
        for (tokens, offset) in [(&[1u32, 2, 3][..], 0), (&[4][..], 3), (&[5][..], 4)] {
            let with = run_whole(&mut host, &a, tokens, offset);
            let without = run_whole(&mut alone, &b, tokens, offset);
            assert_eq!(with, without);
        }
        let bridge = host.mapper.as_ref().unwrap();
        // The mapper is told once, before it is asked once for each layer.
        assert_eq!(
            bridge.calls[6..12],
            ["past 3", "map 0", "map 1", "map 2", "map 3", "map 4"]
        );
        assert_eq!(bridge.calls.len(), 18);
        assert!(away.iter().all(|i| host.cache[*i].is_none()));
        let requests = bridge.requests.clone();
        let blocks = requests.len() / 3;
        assert!(requests[..blocks].iter().all(|r| r.2 == 0));
        assert!(requests[blocks..2 * blocks].iter().all(|r| r.2 == 3));
        if away == vec![0, 3, 4] {
            assert_eq!(&requests[..2], &[(0, 0, 0), (3, 4, 0)]);
        }
    }
}

#[test]
fn hidden_states_are_carried_as_bytes() {
    let x = t(&noise(2 * WIDTH, 5), &[1, 2, WIDTH]);
    let bytes = serialize_tensor(&x).unwrap();
    assert_eq!(vals(&finish_map(&bytes, &x).unwrap()), vals(&x));
}

#[test]
fn kernel_of_one_row_takes_positions_together() {
    let make = || {
        let mut m = model::<Stay>(None, &ALL);
        if let Some(l) = &mut m.layers[0] {
            if let Mixer::Ssm { ssm, .. } = &mut l.mixer {
                ssm.ssm_conv1d = t(&noise(8, 4), &[1, 8]);
            }
        }
        m
    };
    let a = around(true);
    let two = t(&noise(2 * WIDTH, 5), &[1, 2, WIDTH]);
    let whole = make().forward_from_layer(&Plain, &a, &two, 0, 0, 0, &mut caches()).unwrap();
    let mut m = make();
    let mut parts = Vec::new();
    for i in 0..2usize {
        let x = two.narrow(1, i, 1).unwrap();
        parts.push(m.forward_from_layer(&Plain, &a, &x, 0, 0, i, &mut caches()).unwrap());
    }
    assert!(near(&vals(&whole), &vals(&Tensor::cat(&parts, 1).unwrap())));
}

#[test]
fn layers_need_their_caches_and_pages() {
    let m = model::<Stay>(None, &ALL);
    assert!(m.can_run(0, 4, None, LAYERS));
    assert!(m.can_run(0, 4, None, 4));
    assert!(!m.can_run(0, 4, None, 3));
    assert!(m.can_run(4, 4, None, 0));
    assert!(!m.can_run(0, 4, Some(3), LAYERS));
    assert!(m.can_run(0, 4, Some(4), LAYERS));
}
