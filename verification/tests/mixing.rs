use candle_core::{Device, Error, Tensor};
use remote_layers::backend::QuantMethod;
use remote_layers::conv::causal_conv1d_depthwise;
use remote_layers::norm::{l2_norm, norm_gated, softplus, NORM_EPS};
use remote_layers::ops::TensorError;
use remote_layers::recurrence::gated_delta_net_recurrence;
use remote_layers::ssm::SsmWeights;

fn t(v: &[f32], dims: &[usize]) -> Tensor {
    Tensor::from_vec(v.to_vec(), dims, &Device::Cpu).unwrap()
}

fn vals(x: &Tensor) -> Vec<f32> {
    x.flatten_all().unwrap().to_vec1::<f32>().unwrap()
}

fn near(a: &[f32], b: &[f32]) -> bool {
    a.len() == b.len() && a.iter().zip(b).all(|(x, y)| (x - y).abs() < 1e-4)
}

/// Numbers without a pattern.
fn noise(n: usize, seed: u32) -> Vec<f32> {
    let mut s = seed;
    (0..n)
        .map(|_| {
            s = s.wrapping_mul(1_664_525).wrapping_add(1_013_904_223);
            ((s >> 8) as f32 / (1u32 << 24) as f32) - 0.5
        })
        .collect()
}

#[test]
fn convolution_weighs_earlier_rows() {
    // Two channels, three taps, the current row first.
    let w = t(&[1.0, 10.0, 2.0, 20.0, 3.0, 30.0], &[3, 2]);
    let x = t(&[1.0, 1.0, 2.0, 2.0, 3.0, 3.0, 4.0, 4.0], &[1, 4, 2]);
    let mut state = None;
    let y = causal_conv1d_depthwise(&x, &w, &mut state).unwrap();
    assert_eq!(y.dims(), &[1, 4, 2]);
    assert_eq!(
        vals(&y),
        vec![1.0, 10.0, 4.0, 40.0, 10.0, 100.0, 16.0, 160.0]
    );
    let kept = state.unwrap();
    assert_eq!(kept.dims(), &[2, 2]);
    assert_eq!(vals(&kept), vec![3.0, 3.0, 4.0, 4.0]);
}

#[test]
fn convolution_in_parts_is_convolution_in_one() {
    for kernel in 2..5usize {
        let w = t(&noise(kernel * 3, 7), &[kernel, 3]);
        let x = t(&noise(6 * 3, 11), &[1, 6, 3]);
        let mut whole_state = None;
        let whole = causal_conv1d_depthwise(&x, &w, &mut whole_state).unwrap();
        for cut in 1..6usize {
            let mut state = None;
            let a = causal_conv1d_depthwise(&x.narrow(1, 0, cut).unwrap(), &w, &mut state).unwrap();
            let b =
                causal_conv1d_depthwise(&x.narrow(1, cut, 6 - cut).unwrap(), &w, &mut state).unwrap();
            let joined = Tensor::cat(&[a, b], 1).unwrap();
            assert_eq!(vals(&joined), vals(&whole));
            assert_eq!(vals(state.as_ref().unwrap()), vals(whole_state.as_ref().unwrap()));
        }
        let mut state = None;
        for i in 0..6usize {
            let one = causal_conv1d_depthwise(&x.narrow(1, i, 1).unwrap(), &w, &mut state).unwrap();
            assert_eq!(vals(&one), vals(&whole.narrow(1, i, 1).unwrap()));
        }
    }
}

#[test]
fn early_rows_are_kept_after_zeros() {
    let w = t(&[1.0, 1.0, 1.0, 1.0], &[4, 1]);
    let mut state = None;
    causal_conv1d_depthwise(&t(&[5.0], &[1, 1, 1]), &w, &mut state).unwrap();
    assert_eq!(vals(state.as_ref().unwrap()), vec![0.0, 0.0, 5.0]);
}

#[test]
fn kernel_of_one_row_scales() {
    let w = t(&[3.0, 4.0], &[1, 2]);
    let mut state = None;
    let y = causal_conv1d_depthwise(&t(&[1.0, 2.0], &[1, 1, 2]), &w, &mut state).unwrap();
    assert_eq!(vals(&y), vec![3.0, 8.0]);
    let y = causal_conv1d_depthwise(&t(&[5.0, 6.0], &[1, 1, 2]), &w, &mut state).unwrap();
    assert_eq!(vals(&y), vec![15.0, 24.0]);
    assert_eq!(vals(&state.unwrap()), vec![5.0, 6.0]);
}

#[test]
fn kernel_of_one_row_scales_each_row() {
    let w = t(&[5.0], &[1, 1]);
    let mut state = None;
    let y = causal_conv1d_depthwise(&t(&[2.0, 3.0], &[1, 2, 1]), &w, &mut state).unwrap();
    assert_eq!(y.dims(), &[1, 2, 1]);
    assert_eq!(vals(&y), vec![10.0, 15.0]);
    assert_eq!(vals(state.as_ref().unwrap()), vec![3.0]);
    // What was kept plays no part, whatever its shape.
    let mut other = Some(t(&[1.0, 2.0, 3.0], &[3]));
    let y = causal_conv1d_depthwise(&t(&[2.0, 3.0], &[1, 2, 1]), &w, &mut other).unwrap();
    assert_eq!(vals(&y), vec![10.0, 15.0]);
}

#[test]
fn more_kept_rows_than_needed_are_left_unread() {
    let w = t(&[1.0, 10.0, 100.0], &[3, 1]);
    let x = t(&[7.0, 8.0], &[1, 2, 1]);
    let mut two = Some(t(&[1.0, 2.0], &[2, 1]));
    let y = causal_conv1d_depthwise(&x, &w, &mut two).unwrap();
    assert_eq!(vals(&y), vec![127.0, 278.0]);
    let mut four = Some(t(&[1.0, 2.0, 3.0, 4.0], &[4, 1]));
    assert_eq!(vals(&causal_conv1d_depthwise(&x, &w, &mut four).unwrap()), vals(&y));
    assert_eq!(vals(&four.unwrap()), vec![7.0, 8.0]);
    let mut one = Some(t(&[1.0], &[1, 1]));
    assert!(matches!(
        causal_conv1d_depthwise(&x, &w, &mut one),
        Err(TensorError::WrongState)
    ));
    // A single narrow row is stretched, where a single position comes.
    let w = t(&[1.0, 2.0, 10.0, 20.0], &[2, 2]);
    let x = t(&[1.0, 1.0], &[1, 1, 2]);
    for narrow in [t(&[3.0], &[1, 1]), t(&[3.0], &[1])] {
        let mut state = Some(narrow);
        let y = causal_conv1d_depthwise(&x, &w, &mut state).unwrap();
        assert_eq!(vals(&y), vec![31.0, 62.0]);
        assert_eq!(vals(&state.unwrap()), vec![1.0, 1.0]);
    }
}

#[test]
fn memory_of_one_head_serves_all() {
    let q = t(&noise(8, 1), &[1, 2, 2, 2]);
    let g = t(&[0.5, 0.25, 0.5, 0.25], &[1, 2, 2]);
    let one = noise(4, 9);
    let both: Vec<f32> = one.iter().chain(one.iter()).copied().collect();
    let mut a = Some(t(&one, &[1, 2, 2]));
    let mut b = Some(t(&both, &[2, 2, 2]));
    let x = gated_delta_net_recurrence(&q, &q, &q, &g, &g, &mut a, 2, 2).unwrap();
    let y = gated_delta_net_recurrence(&q, &q, &q, &g, &g, &mut b, 2, 2).unwrap();
    assert_eq!(vals(&x), vals(&y));
    assert_eq!(vals(&a.unwrap()), vals(&b.unwrap()));
}

#[test]
fn empty_kernel_changes_nothing() {
    let w = t(&[1.0, 1.0], &[1, 2]).narrow(0, 0, 0).unwrap();
    let x = t(&[1.0, 2.0], &[1, 1, 2]);
    let mut state = None;
    assert_eq!(vals(&causal_conv1d_depthwise(&x, &w, &mut state).unwrap()), vec![1.0, 2.0]);
    assert!(state.is_none());
}

#[test]
fn convolution_refuses_other_shapes() {
    let w = t(&[1.0, 1.0, 1.0, 1.0], &[2, 2]);
    let mut state = None;
    assert!(matches!(
        causal_conv1d_depthwise(&t(&[1.0, 2.0], &[1, 2]), &w, &mut state),
        Err(TensorError::WrongRank { expected: 3, got: 2 })
    ));
    assert!(matches!(
        causal_conv1d_depthwise(&t(&[1.0, 2.0, 3.0], &[1, 1, 3]), &w, &mut state),
        Err(TensorError::Candle(_))
    ));
    assert!(matches!(
        causal_conv1d_depthwise(&t(&[1.0, 2.0, 3.0, 4.0], &[2, 1, 2]), &w, &mut state),
        Err(TensorError::Candle(_))
    ));
    assert!(state.is_none());
    let mut other = Some(t(&[1.0, 2.0, 3.0], &[1, 3]));
    assert!(matches!(
        causal_conv1d_depthwise(&t(&[1.0, 2.0], &[1, 1, 2]), &w, &mut other),
        Err(TensorError::Candle(_))
    ));
    assert!(matches!(
        causal_conv1d_depthwise(&t(&[1.0; 4], &[1, 2, 2]), &w, &mut other),
        Err(TensorError::WrongState)
    ));
    assert_eq!(vals(&other.unwrap()), vec![1.0, 2.0, 3.0]);
}

/// The delta rule for one item, written out.
fn reference(
    q: &[f32],
    k: &[f32],
    v: &[f32],
    a: &[f32],
    b: &[f32],
    s: &mut [f32],
    len: usize,
    heads: usize,
    d: usize,
) -> Vec<f32> {
    let mut out = vec![0.0; len * heads * d];
    for i in 0..len {
        for h in 0..heads {
            let at = (i * heads + h) * d;
            let m = &mut s[h * d * d..(h + 1) * d * d];
            let mut delta = vec![0.0; d];
            for c in 0..d {
                let kv: f32 = (0..d).map(|r| m[r * d + c] * k[at + r]).sum();
                delta[c] = b[i * heads + h] * (v[at + c] - kv);
            }
            for r in 0..d {
                for c in 0..d {
                    m[r * d + c] = a[i * heads + h] * m[r * d + c] + k[at + r] * delta[c];
                }
            }
            for r in 0..d {
                out[at + r] = (0..d).map(|c| m[r * d + c] * q[at + c]).sum();
            }
        }
    }
    out
}

#[test]
fn recurrence_follows_the_delta_rule() {
    let (len, heads, d) = (3, 2, 2);
    let n = len * heads * d;
    let (q, k, v) = (noise(n, 1), noise(n, 2), noise(n, 3));
    let (a, b) = (noise(len * heads, 4), noise(len * heads, 5));
    let mut s = vec![0.0; heads * d * d];
    let expected = reference(&q, &k, &v, &a, &b, &mut s, len, heads, d);
    let dims = [1, len, heads, d];
    let mut state = None;
    let out = gated_delta_net_recurrence(
        &t(&q, &dims),
        &t(&k, &dims),
        &t(&v, &dims),
        &t(&a, &dims[..3]),
        &t(&b, &dims[..3]),
        &mut state,
        d,
        heads,
    )
    .unwrap();
    assert_eq!(out.dims(), &dims);
    assert!(near(&vals(&out), &expected));
    let kept = state.unwrap();
    assert_eq!(kept.dims(), &[heads, d, d]);
    assert!(near(&vals(&kept), &s));
}

#[test]
fn recurrence_in_parts_is_recurrence_in_one() {
    let (len, heads, d) = (5, 2, 3);
    let dims = [1, len, heads, d];
    let n = len * heads * d;
    let q = t(&noise(n, 1), &dims);
    let k = t(&noise(n, 2), &dims);
    let v = t(&noise(n, 3), &dims);
    let a = t(&noise(len * heads, 4), &dims[..3]);
    let b = t(&noise(len * heads, 5), &dims[..3]);
    let mut whole_state = None;
    let whole =
        gated_delta_net_recurrence(&q, &k, &v, &a, &b, &mut whole_state, d, heads).unwrap();
    let mut state = None;
    let mut outs = Vec::new();
    for (at, n) in [(0, 2), (2, 1), (3, 2)] {
        let part = |x: &Tensor| x.narrow(1, at, n).unwrap();
        outs.push(
            gated_delta_net_recurrence(
                &part(&q),
                &part(&k),
                &part(&v),
                &part(&a),
                &part(&b),
                &mut state,
                d,
                heads,
            )
            .unwrap(),
        );
    }
    assert_eq!(vals(&Tensor::cat(&outs, 1).unwrap()), vals(&whole));
    assert_eq!(vals(&state.unwrap()), vals(&whole_state.unwrap()));
}

#[test]
fn memory_is_that_of_the_last_item() {
    let (heads, d) = (1, 2);
    let q = t(&noise(4, 1), &[2, 1, heads, d]);
    let k = t(&noise(4, 2), &[2, 1, heads, d]);
    let v = t(&noise(4, 3), &[2, 1, heads, d]);
    let a = t(&[0.5, 0.25], &[2, 1, heads]);
    let b = t(&[1.0, 0.5], &[2, 1, heads]);
    let mut state = None;
    let out = gated_delta_net_recurrence(&q, &k, &v, &a, &b, &mut state, d, heads).unwrap();
    let last = |x: &Tensor| x.narrow(0, 1, 1).unwrap();
    let mut alone = None;
    let single = gated_delta_net_recurrence(
        &last(&q),
        &last(&k),
        &last(&v),
        &last(&a),
        &last(&b),
        &mut alone,
        d,
        heads,
    )
    .unwrap();
    assert_eq!(vals(&state.unwrap()), vals(&alone.unwrap()));
    assert_eq!(vals(&last(&out)), vals(&single));
}

#[test]
fn recurrence_refuses_other_shapes() {
    let x = t(&noise(4, 1), &[1, 1, 2, 2]);
    let g = t(&[1.0, 1.0], &[1, 1, 2]);
    let mut state = None;
    assert!(matches!(
        gated_delta_net_recurrence(&g, &x, &x, &g, &g, &mut state, 2, 2),
        Err(TensorError::WrongRank { expected: 4, got: 3 })
    ));
    assert!(state.is_none());
    assert!(matches!(
        gated_delta_net_recurrence(&x, &g, &x, &g, &g, &mut state, 2, 2),
        Err(TensorError::Candle(_))
    ));
    assert_eq!(vals(state.as_ref().unwrap()), vec![0.0; 8]);
    let mut other = Some(t(&[1.0], &[1, 1, 1]));
    assert!(matches!(
        gated_delta_net_recurrence(&x, &x, &x, &g, &g, &mut other, 2, 2),
        Err(TensorError::WrongState)
    ));
    let none = x.narrow(1, 0, 0).unwrap();
    let mut kept = None;
    assert!(matches!(
        gated_delta_net_recurrence(&none, &none, &none, &g, &g, &mut kept, 2, 2),
        Err(TensorError::UnknownSize)
    ));
    assert!(matches!(
        gated_delta_net_recurrence(&x, &x, &x, &g, &g, &mut None, usize::MAX, 2),
        Err(TensorError::TooLarge)
    ));
}

#[test]
fn vectors_are_scaled_to_length_one() {
    let y = l2_norm(&t(&[3.0, 4.0, 0.0, 0.0], &[2, 2]), NORM_EPS).unwrap();
    assert!(near(&vals(&y), &[0.6, 0.8, 0.0, 0.0]));
    assert_eq!(f32::from_bits(NORM_EPS), 1e-6);
    let tiny = l2_norm(&t(&[1e-9, 0.0], &[2]), NORM_EPS).unwrap();
    assert!(near(&vals(&tiny), &[1e-3, 0.0]));
    let half = l2_norm(&t(&[3.0, 4.0], &[2]), 20.0f32.to_bits()).unwrap();
    assert!(near(&vals(&half), &[0.15, 0.2]));
    assert!(matches!(
        l2_norm(&Tensor::new(1.0f32, &Device::Cpu).unwrap(), NORM_EPS),
        Err(TensorError::WrongRank { expected: 1, got: 0 })
    ));
}

#[test]
fn softplus_is_smooth() {
    let y = softplus(&t(&[0.0, 1.0, -3.0], &[3])).unwrap();
    assert!(near(&vals(&y), &[0.693_147_2, 1.313_261_7, 0.048_587_35]));
}

#[test]
fn gated_norm_scales_by_root_mean_square() {
    let out = t(&[3.0, 4.0], &[1, 1, 1, 2]);
    let gate = t(&[1.0, 0.0], &[1, 1, 1, 2]);
    let weight = t(&[2.0, 10.0], &[2]);
    let y = norm_gated(&out, &gate, &weight).unwrap();
    // The root mean square of 3 and 4 is the root of 12.5.
    let rms = 12.5f32.sqrt();
    assert!(near(&vals(&y), &[3.0 / rms * 2.0 * 0.731_058_6, 0.0]));
    let zero = norm_gated(&t(&[0.0, 0.0], &[1, 1, 1, 2]), &gate, &weight).unwrap();
    assert_eq!(vals(&zero), vec![0.0, 0.0]);
    assert!(matches!(
        norm_gated(&out, &gate, &t(&[1.0], &[1])),
        Err(TensorError::Candle(_))
    ));
}

/// A weight in plain form.
struct Linear(Tensor);

impl QuantMethod for Linear {
    fn forward(&self, xs: &Tensor) -> Result<Tensor, Error> {
        xs.broadcast_matmul(&self.0)
    }
}

fn linear(from: usize, to: usize, seed: u32) -> Linear {
    Linear(t(&noise(from * to, seed), &[from, to]))
}

fn weights(groups: usize, heads: usize) -> SsmWeights<Linear> {
    let (width, size) = (4, 2);
    let channels = (2 * groups + heads) * size;
    SsmWeights {
        attn_qkv: linear(width, channels, 1),
        attn_gate: linear(width, heads * size, 2),
        ssm_conv1d: t(&noise(3 * channels, 3), &[3, channels]),
        ssm_a: t(&noise(heads, 4), &[heads]),
        ssm_alpha: linear(width, heads, 5),
        ssm_beta: linear(width, heads, 6),
        ssm_dt: t(&noise(heads, 7), &[heads]),
        ssm_out: linear(heads * size, width, 8),
        ssm_norm: t(&[1.0, 2.0], &[size]),
        n_heads: heads,
        n_kv_heads: groups,
        state_size: size,
        inner_size: heads * size,
    }
}

#[test]
fn heads_have_the_vectors_of_their_groups() {
    let w = weights(2, 4);
    let x = t(&[1.0, 2.0, 3.0, 4.0], &[1, 1, 2, 2]);
    let y = w.repeat_heads(&x, 1, 1).unwrap();
    assert_eq!(y.dims(), &[1, 1, 4, 2]);
    assert_eq!(vals(&y), vec![1.0, 2.0, 1.0, 2.0, 3.0, 4.0, 3.0, 4.0]);
    let same = weights(2, 2);
    assert_eq!(vals(&same.repeat_heads(&x, 1, 1).unwrap()), vals(&x));
    let odd = weights(2, 3);
    assert!(matches!(odd.repeat_heads(&x, 1, 1), Err(TensorError::Candle(_))));
}

#[test]
fn projection_is_cut_into_queries_keys_and_values() {
    let mut w = weights(1, 1);
    // A kernel that passes the current row on.
    w.ssm_conv1d = t(&[1.0; 6], &[1, 6]);
    let qkv = t(&[1.0, 2.0, 3.0, 4.0, 5.0, 6.0], &[1, 1, 6]);
    let mut state = None;
    let (q, k, v) = w.cut(&qkv, 1, 1, &mut state).unwrap();
    let silu = |x: f32| x / (1.0 + (-x).exp());
    assert_eq!(q.dims(), &[1, 1, 1, 2]);
    assert!(near(&vals(&q), &[silu(1.0), silu(2.0)]));
    assert!(near(&vals(&k), &[silu(3.0), silu(4.0)]));
    assert!(near(&vals(&v), &[silu(5.0), silu(6.0)]));
}

#[test]
fn decay_is_the_exponential_of_a_negative_softplus() {
    let mut w = weights(1, 2);
    w.ssm_a = t(&[-1.0, -2.0], &[2]);
    w.ssm_dt = t(&[0.0, 1.0], &[2]);
    let y = w.decay(&t(&[0.0, 0.0], &[1, 1, 2])).unwrap();
    // exp(-ln 2) and exp(-2 ln(1 + e)).
    let e = 1.0f32.exp();
    assert!(near(&vals(&y), &[0.5, 1.0 / ((1.0 + e) * (1.0 + e))]));
}

#[test]
fn layer_in_parts_is_layer_in_one() {
    let w = weights(1, 2);
    let x = t(&noise(4 * 4, 21), &[1, 4, 4]);
    let (mut conv, mut memory) = (None, None);
    let whole = w.forward(&x, &mut conv, &mut memory).unwrap();
    assert_eq!(whole.dims(), &[1, 4, 4]);
    let (mut conv2, mut memory2) = (None, None);
    let mut outs = Vec::new();
    for i in 0..4usize {
        outs.push(w.forward(&x.narrow(1, i, 1).unwrap(), &mut conv2, &mut memory2).unwrap());
    }
    assert!(near(&vals(&Tensor::cat(&outs, 1).unwrap()), &vals(&whole)));
    assert!(near(&vals(&conv.unwrap()), &vals(&conv2.unwrap())));
    assert!(near(&vals(&memory.unwrap()), &vals(&memory2.unwrap())));
}

#[test]
fn layer_in_two_parts_is_layer_in_one() {
    let w = weights(1, 2);
    let x = t(&noise(5 * 4, 22), &[1, 5, 4]);
    let (mut conv, mut memory) = (None, None);
    let whole = w.forward(&x, &mut conv, &mut memory).unwrap();
    for cut in 1..5usize {
        let (mut c, mut m) = (None, None);
        let first = w.forward(&x.narrow(1, 0, cut).unwrap(), &mut c, &mut m).unwrap();
        // What comes later plays no part in what comes out first.
        assert!(near(&vals(&first), &vals(&whole.narrow(1, 0, cut).unwrap())));
        let rest = w.forward(&x.narrow(1, cut, 5 - cut).unwrap(), &mut c, &mut m).unwrap();
        assert!(near(&vals(&rest), &vals(&whole.narrow(1, cut, 5 - cut).unwrap())));
        assert!(near(&vals(conv.as_ref().unwrap()), &vals(&c.unwrap())));
        assert!(near(&vals(memory.as_ref().unwrap()), &vals(&m.unwrap())));
    }
}

#[test]
fn layer_refuses_other_ranks() {
    let w = weights(1, 2);
    let (mut conv, mut memory) = (None, None);
    assert!(matches!(
        w.forward(&t(&[1.0; 4], &[1, 4]), &mut conv, &mut memory),
        Err(TensorError::WrongRank { expected: 3, got: 2 })
    ));
    assert!(conv.is_none() && memory.is_none());
}

/// A weight that makes two positions of one.
struct Doubling;

impl QuantMethod for Doubling {
    fn forward(&self, xs: &Tensor) -> Result<Tensor, Error> {
        Tensor::cat(&[xs, xs], 1)
    }
}

#[test]
fn layer_refuses_more_positions_than_it_gave() {
    let w = SsmWeights {
        attn_qkv: Doubling,
        attn_gate: Doubling,
        ssm_conv1d: t(&[1.0; 4], &[1, 4]),
        ssm_a: t(&[1.0], &[1]),
        ssm_alpha: Doubling,
        ssm_beta: Doubling,
        ssm_dt: t(&[1.0], &[1]),
        ssm_out: Doubling,
        ssm_norm: t(&[1.0], &[1]),
        n_heads: 1,
        n_kv_heads: 1,
        state_size: 1,
        inner_size: 1,
    };
    assert!(matches!(
        w.forward(&t(&[1.0; 4], &[1, 1, 4]), &mut None, &mut None),
        Err(TensorError::Candle(_))
    ));
}

#[test]
fn gated_norm_of_doubles_has_a_floor_of_doubles() {
    let d = |v: &[f64], dims: &[usize]| Tensor::from_vec(v.to_vec(), dims, &Device::Cpu).unwrap();
    let x = d(&[1e-9, -2e-9], &[1, 1, 1, 2]);
    let gate = d(&[1.0, 1.0], &[1, 1, 1, 2]);
    let y = norm_gated(&x, &gate, &d(&[1.0, 1.0], &[2])).unwrap();
    let act = 1.0 / (1.0 + (-1.0f64).exp());
    let y = y.flatten_all().unwrap().to_vec1::<f64>().unwrap();
    for (found, want) in y.iter().zip([1e-3 * act, -2e-3 * act]) {
        assert!(((found - want) / want).abs() < 1e-12);
    }
}
