//! Layers that mix positions with a convolution and the gated delta rule.
use candle_core::{DType, Tensor};
use vstd::prelude::*;

use crate::backend::{answers, projects, weight_obliges, QuantMethod};
use crate::conv::{
    causal_conv1d_depthwise, conv_touched, is_convolved, kept_is_usable, usable,
};
use crate::norm::{
    gated_dims_same, gating_fits, is_l2_normed, is_norm_gated, is_softplus, l2_norm, norm_gated,
    softplus, NORM_EPS,
};
use crate::ops::{
    broadcast_as, dims3, exp, is_exp, is_product, is_sigmoid, is_silu, is_stretched_sum, lift,
    narrow, plus_stretched, reshape, sigmoid, silu, times, unsqueeze, TensorError,
};
use crate::recurrence::{
    gated_delta_net_recurrence, is_recurred, memory_dims, memory_ok, memory_touched,
    positions_hold, stretch_three, DeltaInputs,
};
use crate::shape::{
    consistent, count, count_small, fits, fits_shrink, fits_without, narrowed, reducible, reshaped,
    stretched, stretched_index, stretches_to, TensorView,
};
use crate::tensor::{
    candle_dims, dtype_is_f32, plain, tensor_dims, tensor_dtype, tensor_words, view_of,
};

verus! {

/// Weights of a layer that mixes positions with a convolution and the gated delta rule.
pub struct SsmWeights<Q> {
    /// Makes queries, keys and values of the input.
    pub attn_qkv: Q,
    /// Makes the output gate of the input.
    pub attn_gate: Q,
    /// Kernel of the convolution; the first dimension runs over the taps.
    pub ssm_conv1d: Tensor,
    /// One factor of the decay for each head.
    pub ssm_a: Tensor,
    /// Makes the decay of the input.
    pub ssm_alpha: Q,
    /// Makes of the input how far the delta rule goes.
    pub ssm_beta: Q,
    /// One offset of the decay for each head.
    pub ssm_dt: Tensor,
    /// Makes the output.
    pub ssm_out: Q,
    /// Weights of the gated normalisation.
    pub ssm_norm: Tensor,
    pub n_heads: usize,
    pub n_kv_heads: usize,
    pub state_size: usize,
    pub inner_size: usize,
}

/// `x`, of shape `[batch, positions, groups, size]`, with each group's vector repeated for
/// `repeat` heads: head `h` has the vector of group `h / repeat`.
pub open spec fn repeated_heads(x: TensorView, heads: usize, repeat: usize) -> TensorView {
    let size = x.dims[3] as int;
    TensorView {
        dims: x.dims.update(2, heads),
        words: Seq::new(
            x.words.len() * repeat as nat,
            |i: int| x.words[(i / size / repeat as int) * size + i % size],
        ),
    }
}

/// A shape read as itself.
pub proof fn stretched_index_same(dims: Seq<usize>, i: int)
    requires
        0 <= i < count(dims),
    ensures
        stretched_index(dims, dims, i) == i,
    decreases dims.len(),
{
    if dims.len() > 0 {
        let d = dims.last() as int;
        let n = count(dims.drop_last()) as int;
        assert(d > 0 && 0 <= i / d < n && (i / d) * d + i % d == i && (d == 1 ==> i % d == 0)) by (
        nonlinear_arith)
            requires
                0 <= i < n * d,
                0 <= d,
                0 <= n,
        ;
        stretched_index_same(dims.drop_last(), i / d);
    }
}

/// Where an element of the repeated heads comes from.
proof fn repeat_index(b: usize, s: usize, g: usize, repeat: usize, size: usize, i: int)
    requires
        0 <= i < count(seq![b, s, g, repeat, size]),
    ensures
        stretched_index(seq![b, s, g, 1, size], seq![b, s, g, repeat, size], i) == (i / size as int
            / repeat as int) * size + i % size as int,
{
    reveal_with_fuel(stretched_index, 3);
    let src = seq![b, s, g, 1, size];
    let dst = seq![b, s, g, repeat, size];
    let three = seq![b, s, g];
    let four = seq![b, s, g, repeat];
    assert(src.drop_last() =~= seq![b, s, g, 1]);
    assert(dst.drop_last() =~= four);
    assert(seq![b, s, g, 1usize].drop_last() =~= three);
    assert(four.drop_last() =~= three);
    assert(count(dst) == count(four) * size);
    assert(count(four) == count(three) * repeat);
    let d = size as int;
    let r = repeat as int;
    let n = count(three) as int;
    let m = count(four) as int;
    assert(d > 0 && 0 <= i / d < m && (d == 1 ==> i % d == 0)) by (nonlinear_arith)
        requires
            0 <= i < m * d,
            0 <= d,
            0 <= m,
    ;
    let j = i / d;
    assert(r > 0 && 0 <= j / r < n) by (nonlinear_arith)
        requires
            0 <= j < n * r,
            m == n * r,
            0 <= r,
            0 <= n,
    ;
    stretched_index_same(three, j / r);
    let front = stretched_index(src.drop_last(), dst.drop_last(), j);
    assert(front == stretched_index(three, three, j / r) * 1 + 0);
}

impl<Q> SsmWeights<Q> {
    /// Sizes that can be calculated with: the parts of the fused projection fit in one tensor,
    /// and heads are spread over groups only if there is a group.
    pub open spec fn sizes_ok(&self) -> bool {
        &&& 2 * (self.n_kv_heads * self.state_size) + self.n_heads * self.state_size <= usize::MAX
        &&& self.n_kv_heads != self.n_heads ==> self.n_kv_heads > 0
        &&& tensor_dims(self.ssm_conv1d).len() > 0
    }

    /// Whether the sizes can be calculated with.
    pub fn has_sizes(&self) -> (r: bool)
        ensures
            r == self.sizes_ok(),
    {
        if self.n_kv_heads != self.n_heads && self.n_kv_heads == 0 {
            return false;
        }
        if candle_dims(&self.ssm_conv1d).len() == 0 {
            return false;
        }
        proof {
            let n = self.n_kv_heads * self.state_size;
            let m = self.n_heads * self.state_size;
            assert(n >= 0 && m >= 0) by (nonlinear_arith)
                requires
                    n == self.n_kv_heads * self.state_size,
                    m == self.n_heads * self.state_size,
            ;
        }
        match (
            self.n_kv_heads.checked_mul(self.state_size),
            self.n_heads.checked_mul(self.state_size),
        ) {
            (Some(key_size), Some(value_size)) => match key_size.checked_add(key_size) {
                Some(both) => both.checked_add(value_size).is_some(),
                None => false,
            },
            _ => false,
        }
    }

    /// `q`, `k` and `v` are made of the projection `qkv` by convolution, SiLU and cutting up.
    pub open spec fn is_cut(
        &self,
        batch: usize,
        len: usize,
        qkv: TensorView,
        conv0: Option<Tensor>,
        conv1: Option<Tensor>,
        q: TensorView,
        k: TensorView,
        v: TensorView,
    ) -> bool {
        let key_size = (self.n_kv_heads * self.state_size) as usize;
        let value_size = (self.n_heads * self.state_size) as usize;
        let key_dims = seq![batch, len, self.n_kv_heads, self.state_size];
        let value_dims = seq![batch, len, self.n_heads, self.state_size];
        exists|mixed: TensorView, act: TensorView|
            {
                &&& is_convolved(qkv, view_of(self.ssm_conv1d), conv0, conv1, mixed)
                &&& #[trigger] is_silu(mixed, act)
                &&& 2 * key_size + value_size <= act.dims[2]
                &&& q == reshaped(narrowed(act, 2, 0, key_size), key_dims)
                &&& k == reshaped(narrowed(act, 2, key_size as int, key_size), key_dims)
                &&& v == reshaped(narrowed(act, 2, 2 * key_size, value_size), value_dims)
            }
    }

    /// Shapes on which cutting up works: one item of `len` positions, with channels enough for
    /// queries, keys and values and a kernel for as many.
    pub open spec fn cut_fits(
        &self,
        qkv: Seq<usize>,
        batch: usize,
        len: usize,
        conv_state: Option<Tensor>,
    ) -> bool {
        let weight = tensor_dims(self.ssm_conv1d);
        &&& batch == 1
        &&& len > 0
        &&& qkv.len() == 3
        &&& qkv[0] == 1
        &&& qkv[1] == len
        &&& fits(qkv)
        &&& fits(weight)
        &&& weight[0] > 0
        &&& count(weight.skip(1)) == qkv[2]
        &&& usable(conv_state, weight[0], qkv[2], qkv[1])
        &&& 2 * (self.n_kv_heads * self.state_size) + self.n_heads * self.state_size <= qkv[2]
        &&& fits(seq![batch, len, self.n_kv_heads, self.state_size])
        &&& fits(seq![batch, len, self.n_heads, self.state_size])
    }

    /// Convolves the projection of the input, activates it and cuts it into queries, keys and
    /// values of the shape `[batch, positions, heads, size]`.
    pub fn cut(
        &self,
        qkv: &Tensor,
        batch: usize,
        len: usize,
        conv_state: &mut Option<Tensor>,
    ) -> (r: Result<(Tensor, Tensor, Tensor), TensorError>)
        requires
            self.sizes_ok(),
        ensures
            conv_touched(
                view_of(*qkv),
                view_of(self.ssm_conv1d),
                *old(conv_state),
                *final(conv_state),
            ),
            r matches Ok(u) ==> {
                &&& self.is_cut(
                    batch,
                    len,
                    view_of(*qkv),
                    *old(conv_state),
                    *final(conv_state),
                    view_of(u.0),
                    view_of(u.1),
                    view_of(u.2),
                )
                &&& tensor_dims(u.0) == seq![batch, len, self.n_kv_heads, self.state_size]
                &&& tensor_dims(u.1) == seq![batch, len, self.n_kv_heads, self.state_size]
                &&& tensor_dims(u.2) == seq![batch, len, self.n_heads, self.state_size]
                &&& tensor_dtype(u.0) == tensor_dtype(u.1)
            },
            plain(*qkv) && plain(self.ssm_conv1d) && (*old(conv_state) matches Some(t) ==> plain(t))
                ==> {
                &&& self.cut_fits(tensor_dims(*qkv), batch, len, *old(conv_state)) ==> r is Ok
                &&& r matches Ok(u) ==> {
                    &&& plain(u.0) && plain(u.1) && plain(u.2)
                    &&& *final(conv_state) matches Some(t) ==> plain(t)
                }
            },
    {
        let mixed = causal_conv1d_depthwise(qkv, &self.ssm_conv1d, conv_state)?;
        proof {
            if self.cut_fits(tensor_dims(*qkv), batch, len, *old(conv_state)) {
                assert(tensor_dims(mixed) =~= tensor_dims(*qkv));
            }
        }
        let act = silu(&mixed)?;
        proof {
            let n = self.n_kv_heads * self.state_size;
            let m = self.n_heads * self.state_size;
            assert(n >= 0 && m >= 0) by (nonlinear_arith)
                requires
                    n == self.n_kv_heads * self.state_size,
                    m == self.n_heads * self.state_size,
            ;
        }
        let key_size: usize = self.n_kv_heads * self.state_size;
        let value_size: usize = self.n_heads * self.state_size;
        let q = narrow(&act, 2, 0, key_size)?;
        let k = narrow(&act, 2, key_size, key_size)?;
        let v = narrow(&act, 2, key_size + key_size, value_size)?;
        let key_dims: [usize; 4] = [batch, len, self.n_kv_heads, self.state_size];
        let value_dims: [usize; 4] = [batch, len, self.n_heads, self.state_size];
        proof {
            assert(key_dims@ =~= seq![batch, len, self.n_kv_heads, self.state_size]);
            assert(value_dims@ =~= seq![batch, len, self.n_heads, self.state_size]);
            if self.cut_fits(tensor_dims(*qkv), batch, len, *old(conv_state)) {
                let d = tensor_dims(act);
                cut_counts(d, key_size, self.n_kv_heads, self.state_size);
                cut_counts(d, value_size, self.n_heads, self.state_size);
            }
        }
        let q = reshape(&q, key_dims.as_slice())?;
        let k = reshape(&k, key_dims.as_slice())?;
        let v = reshape(&v, value_dims.as_slice())?;
        assert(is_silu(view_of(mixed), view_of(act)));
        Ok((q, k, v))
    }

    /// `x` once each head has the vector of its group.
    pub open spec fn spread(&self, x: TensorView) -> TensorView {
        if self.n_kv_heads == self.n_heads {
            x
        } else {
            repeated_heads(x, self.n_heads, self.n_heads / self.n_kv_heads)
        }
    }

    /// Gives each head the vector of its group.
    pub fn repeat_heads(&self, x: &Tensor, batch: usize, len: usize) -> (r: Result<
        Tensor,
        TensorError,
    >)
        requires
            self.sizes_ok(),
            tensor_dims(*x) == seq![batch, len, self.n_kv_heads, self.state_size],
        ensures
            r matches Ok(u) ==> {
                &&& view_of(u) == self.spread(view_of(*x))
                &&& tensor_dims(u) == seq![batch, len, self.n_heads, self.state_size]
                &&& plain(u) == plain(*x)
            },
            plain(*x) && self.n_kv_heads == self.n_heads ==> r is Ok,
            plain(*x) && self.n_kv_heads != self.n_heads ==> (r is Ok <==> {
                let repeat = self.n_heads / self.n_kv_heads;
                let wide = seq![batch, len, self.n_kv_heads, repeat, self.state_size];
                let flat = seq![batch, len, self.n_heads, self.state_size];
                fits(wide) && fits(flat) && count(wide) == count(flat)
            }),
    {
        if self.n_kv_heads == self.n_heads {
            return Ok(x.clone());
        }
        let repeat: usize = self.n_heads / self.n_kv_heads;
        let wide: [usize; 5] = [batch, len, self.n_kv_heads, repeat, self.state_size];
        let flat: [usize; 4] = [batch, len, self.n_heads, self.state_size];
        let ghost narrow_dims = seq![batch, len, self.n_kv_heads, 1, self.state_size];
        proof {
            assert(wide@ =~= seq![batch, len, self.n_kv_heads, repeat, self.state_size]);
            assert(flat@ =~= seq![batch, len, self.n_heads, self.state_size]);
            assert(tensor_dims(*x).insert(3, 1) =~= narrow_dims);
            stretches_five(batch, len, self.n_kv_heads, repeat, self.state_size);
        }
        let apart = unsqueeze(x, 3)?;
        let spread = broadcast_as(&apart, wide.as_slice())?;
        let _known = candle_dims(x);
        let u = reshape(&spread, flat.as_slice())?;
        proof {
            let target = repeated_heads(view_of(*x), self.n_heads, repeat);
            assert(target.dims =~= flat@);
            count_small(batch, len, self.n_kv_heads, self.state_size, 0);
            count_small(batch, len, self.n_kv_heads, repeat, self.state_size);
            let a = batch * len * self.n_kv_heads;
            assert(a * repeat * self.state_size == a * self.state_size * repeat)
                by (nonlinear_arith);
            assert(tensor_words(*x).len() == a * self.state_size);
            assert(target.words.len() == count(wide@));
            assert forall|i: int| 0 <= i < count(wide@) implies #[trigger] tensor_words(u)[i]
                == target.words[i] by {
                repeat_index(batch, len, self.n_kv_heads, repeat, self.state_size, i);
            }
            assert(tensor_words(u) =~= target.words);
            assert(view_of(u) =~= target);
        }
        Ok(u)
    }

    /// `r` is the share of the memory that stays at each position: the exponential of the softplus
    /// of the shifted projection, times the factor of the head.
    pub open spec fn is_decay(&self, alpha: TensorView, r: TensorView) -> bool {
        let per_head = seq![1, 1, self.n_heads];
        exists|shifted: TensorView, soft: TensorView, rate: TensorView|
            {
                &&& is_stretched_sum(alpha, reshaped(view_of(self.ssm_dt), per_head), shifted)
                &&& #[trigger] is_softplus(shifted, soft)
                &&& is_product(soft, reshaped(view_of(self.ssm_a), per_head), rate)
                &&& #[trigger] is_exp(rate, r)
            }
    }

    /// Shapes on which the decay is made: one number for each position and head.
    pub open spec fn decay_fits(&self, alpha: Seq<usize>) -> bool {
        &&& alpha.len() == 3
        &&& alpha[2] == self.n_heads
        &&& fits(alpha)
        &&& fits(seq![1, 1, self.n_heads])
        &&& fits(tensor_dims(self.ssm_dt))
        &&& fits(tensor_dims(self.ssm_a))
        &&& count(tensor_dims(self.ssm_dt)) == self.n_heads
        &&& count(tensor_dims(self.ssm_a)) == self.n_heads
    }

    /// The share of the memory that stays at each position.
    pub fn decay(&self, alpha: &Tensor) -> (r: Result<Tensor, TensorError>)
        ensures
            r matches Ok(u) ==> self.is_decay(view_of(*alpha), view_of(u)),
            plain(*alpha) && plain(self.ssm_dt) && plain(self.ssm_a) ==> {
                &&& self.decay_fits(tensor_dims(*alpha)) ==> (r matches Ok(u) && tensor_dims(u)
                    == tensor_dims(*alpha))
                &&& r matches Ok(u) ==> plain(u)
            },
    {
        let per_head: [usize; 3] = [1, 1, self.n_heads];
        proof {
            assert(per_head@ =~= seq![1, 1, self.n_heads]);
            let d = tensor_dims(*alpha);
            if self.decay_fits(d) {
                fits_shrink(per_head@, seq![1, 1, d[2]]);
                count_small(1, 1, self.n_heads, 0, 0);
                stretch_three(d, per_head@);
                assert(stretched(d, per_head@)->0 =~= d);
            }
        }
        let dt = reshape(&self.ssm_dt, per_head.as_slice())?;
        let shifted = plus_stretched(alpha, &dt)?;
        let soft = softplus(&shifted)?;
        let factors = reshape(&self.ssm_a, per_head.as_slice())?;
        let rate = times(&soft, &factors)?;
        let u = exp(&rate)?;
        assert(is_softplus(view_of(shifted), view_of(soft)));
        assert(is_exp(view_of(rate), view_of(u)));
        Ok(u)
    }
}

impl<Q: QuantMethod> SsmWeights<Q> {
    /// `q` and `k` are made of `q0` and `k0` by scaling every vector to length one and giving each
    /// head the vector of its group.
    pub open spec fn is_scaled(
        &self,
        dtype: DType,
        q0: TensorView,
        k0: TensorView,
        q: TensorView,
        k: TensorView,
    ) -> bool {
        exists|q1: TensorView, k1: TensorView|
            {
                &&& #[trigger] is_l2_normed(q0, NORM_EPS, dtype, q1)
                &&& #[trigger] is_l2_normed(k0, NORM_EPS, dtype, k1)
                &&& q == self.spread(q1)
                &&& k == self.spread(k1)
            }
    }

    /// `q`, `k` and `v` are made of the projection `qkv`.
    pub open spec fn is_made_of(
        &self,
        batch: usize,
        len: usize,
        qkv: TensorView,
        conv0: Option<Tensor>,
        conv1: Option<Tensor>,
        dtype: DType,
        q: TensorView,
        k: TensorView,
        v: TensorView,
    ) -> bool {
        exists|q0: TensorView, k0: TensorView|
            {
                &&& self.is_cut(batch, len, qkv, conv0, conv1, q0, k0, v)
                &&& #[trigger] self.is_scaled(dtype, q0, k0, q, k)
            }
    }

    /// `q`, `k` and `v` go into the delta rule where the input is `x`.
    pub open spec fn is_prepared(
        &self,
        x: Tensor,
        conv0: Option<Tensor>,
        conv1: Option<Tensor>,
        dtype: DType,
        q: TensorView,
        k: TensorView,
        v: TensorView,
    ) -> bool {
        exists|qkv: Tensor|
            {
                &&& #[trigger] projects(self.attn_qkv, x, qkv)
                &&& self.is_made_of(
                    tensor_dims(x)[0],
                    tensor_dims(x)[1],
                    view_of(qkv),
                    conv0,
                    conv1,
                    dtype,
                    q,
                    k,
                    v,
                )
            }
    }

    /// `decay` and `beta` go into the delta rule where the input is `x`.
    pub open spec fn is_steered(&self, x: Tensor, decay: TensorView, beta: TensorView) -> bool {
        exists|alpha: Tensor, raw: Tensor|
            {
                &&& #[trigger] projects(self.ssm_alpha, x, alpha)
                &&& consistent(view_of(alpha))
                &&& self.is_decay(view_of(alpha), decay)
                &&& #[trigger] projects(self.ssm_beta, x, raw)
                &&& consistent(view_of(raw))
                &&& is_sigmoid(view_of(raw), beta)
            }
    }

    /// The shape of one vector for each head.
    pub open spec fn head_dims(&self, batch: usize, len: usize) -> Seq<usize> {
        seq![batch, len, self.n_heads, self.state_size]
    }

    /// `gated` is made of what the delta rule has put out by normalisation, gated by `gate`.
    pub open spec fn is_gated_by(
        &self,
        batch: usize,
        len: usize,
        gate: TensorView,
        out: TensorView,
        dtype: DType,
        gated: TensorView,
    ) -> bool {
        &&& consistent(gate)
        &&& is_norm_gated(
            out,
            reshaped(gate, self.head_dims(batch, len)),
            view_of(self.ssm_norm),
            dtype,
            gated,
        )
    }

    /// `flat` is made of what the delta rule has put out by gated normalisation.
    pub open spec fn is_gated(
        &self,
        x: Tensor,
        out: TensorView,
        dtype: DType,
        flat: TensorView,
    ) -> bool {
        let batch = tensor_dims(x)[0];
        let len = tensor_dims(x)[1];
        exists|gate: Tensor, gated: TensorView|
            {
                &&& #[trigger] projects(self.attn_gate, x, gate)
                &&& #[trigger] self.is_gated_by(batch, len, view_of(gate), out, dtype, gated)
                &&& flat == reshaped(gated, seq![batch, len, self.inner_size])
            }
    }

    /// `r` can come out of the layer where `x` goes in, while the kept rows go from `conv0` to
    /// `conv1` and the memory from `mem0` to `mem1`.
    pub open spec fn is_forward(
        &self,
        x: Tensor,
        conv0: Option<Tensor>,
        conv1: Option<Tensor>,
        mem0: Option<Tensor>,
        mem1: Option<Tensor>,
        r: Tensor,
    ) -> bool {
        exists|
            early: DType,
            late: DType,
            q: TensorView,
            k: TensorView,
            v: TensorView,
            decay: TensorView,
            beta: TensorView,
            out: TensorView,
            flat: Tensor,
        |
            {
                &&& #[trigger] self.is_prepared(x, conv0, conv1, early, q, k, v)
                &&& #[trigger] self.is_steered(x, decay, beta)
                &&& is_recurred(
                    DeltaInputs { q, k, v, decay, beta },
                    self.n_heads,
                    self.state_size,
                    mem0,
                    mem1,
                    out,
                )
                &&& #[trigger] self.is_gated(x, out, late, view_of(flat))
                &&& #[trigger] projects(self.ssm_out, flat, r)
                &&& plain(x) && self.is_obliged(tensor_dims(x), conv0, mem0) ==> {
                    &&& dtype_is_f32(early)
                    &&& dtype_is_f32(late)
                    &&& plain(flat)
                }
            }
    }

    /// The memory can go from `mem0` to `mem1` where `x` goes in and the kept rows go from `conv0`
    /// to `conv1`, whatever comes of the layer.
    pub open spec fn is_remembered(
        &self,
        x: Tensor,
        conv0: Option<Tensor>,
        conv1: Option<Tensor>,
        mem0: Option<Tensor>,
        mem1: Option<Tensor>,
    ) -> bool {
        exists|
            early: DType,
            q: TensorView,
            k: TensorView,
            v: TensorView,
            decay: TensorView,
            beta: TensorView,
        |
            {
                &&& #[trigger] self.is_prepared(x, conv0, conv1, early, q, k, v)
                &&& #[trigger] self.is_steered(x, decay, beta)
                &&& memory_touched(
                    DeltaInputs { q, k, v, decay, beta },
                    self.n_heads,
                    self.state_size,
                    mem0,
                    mem1,
                )
            }
    }

    /// The kept rows can go from `conv0` to `conv1` and the memory from `mem0` to `mem1` where `x`
    /// goes in, whatever comes of the layer.
    pub open spec fn is_kept(
        &self,
        x: Tensor,
        conv0: Option<Tensor>,
        conv1: Option<Tensor>,
        mem0: Option<Tensor>,
        mem1: Option<Tensor>,
    ) -> bool {
        &&& conv1 == conv0 || exists|qkv: Tensor|
            {
                &&& #[trigger] projects(self.attn_qkv, x, qkv)
                &&& conv_touched(view_of(qkv), view_of(self.ssm_conv1d), conv0, conv1)
            }
        &&& mem1 == mem0 || self.is_remembered(x, conv0, conv1, mem0, mem1)
    }

    /// Nothing is in the way of running the layer on a tensor of these dimensions,
    /// `[1, positions, width]`: weights oblige, sizes match and fit in memory, and what was kept
    /// from earlier calls has its shape.
    pub open spec fn is_obliged(
        &self,
        dims: Seq<usize>,
        conv_state: Option<Tensor>,
        ssm_state: Option<Tensor>,
    ) -> bool {
        let channels = count(tensor_dims(self.ssm_conv1d).skip(1)) as usize;
        let len = dims[1];
        let heads = self.head_dims(1, len);
        let groups = seq![1, len, self.n_kv_heads, self.state_size];
        let repeat = self.n_heads / self.n_kv_heads;
        let wide = seq![1, len, self.n_kv_heads, repeat, self.state_size];
        &&& dims.len() == 3
        &&& fits(dims)
        &&& plain(self.ssm_conv1d)
        &&& plain(self.ssm_a)
        &&& plain(self.ssm_dt)
        &&& plain(self.ssm_norm)
        &&& conv_state matches Some(t) ==> plain(t)
        &&& ssm_state matches Some(t) ==> plain(t)
        &&& count(tensor_dims(self.ssm_conv1d).skip(1)) == channels
        &&& self.cut_fits(seq![1, len, channels], dims[0], len, conv_state)
        &&& reducible(groups, 3)
        &&& self.n_kv_heads != self.n_heads ==> fits(wide) && count(wide) == count(heads)
        &&& self.decay_fits(seq![1, len, self.n_heads])
        &&& fits(memory_dims(self.n_heads, self.state_size))
        &&& memory_ok(ssm_state, self.n_heads, self.state_size)
        &&& self.inner_size == self.n_heads * self.state_size
        &&& fits(seq![1, len, self.inner_size])
        &&& gating_fits(heads, heads, tensor_dims(self.ssm_norm))
        &&& weight_obliges(self.attn_qkv, dims[2], channels)
        &&& weight_obliges(self.ssm_alpha, dims[2], self.n_heads)
        &&& weight_obliges(self.ssm_beta, dims[2], self.n_heads)
        &&& weight_obliges(self.attn_gate, dims[2], self.inner_size)
        &&& weight_obliges(self.ssm_out, self.inner_size, dims[2])
    }

    /// Runs the layer on `x`, of shape `[batch, positions, width]`. `conv_state` keeps rows for
    /// the convolution and `ssm_state` the memory of the delta rule for the next call.
    pub fn forward(
        &self,
        x: &Tensor,
        conv_state: &mut Option<Tensor>,
        ssm_state: &mut Option<Tensor>,
    ) -> (r: Result<Tensor, TensorError>)
        requires
            self.sizes_ok(),
        ensures
            r matches Ok(u) ==> {
                &&& tensor_dims(*x).len() == 3
                &&& self.is_forward(
                    *x,
                    *old(conv_state),
                    *final(conv_state),
                    *old(ssm_state),
                    *final(ssm_state),
                    u,
                )
            },
            self.is_kept(
                *x,
                *old(conv_state),
                *final(conv_state),
                *old(ssm_state),
                *final(ssm_state),
            ),
            !fits(tensor_dims(*x)) || tensor_dims(*x).len() != 3 ==> r is Err && *final(conv_state)
                == *old(conv_state) && *final(ssm_state) == *old(ssm_state),
            plain(*x) && self.is_obliged(tensor_dims(*x), *old(conv_state), *old(ssm_state)) ==> {
                &&& r matches Ok(u)
                &&& plain(u)
                &&& tensor_dims(u) == tensor_dims(*x)
                &&& self.is_obliged(tensor_dims(*x), *final(conv_state), *final(ssm_state))
            },
    {
        let ghost obliged = plain(*x) && self.is_obliged(
            tensor_dims(*x),
            *old(conv_state),
            *old(ssm_state),
        );
        let ghost channels = count(tensor_dims(self.ssm_conv1d).skip(1)) as usize;
        let (batch, len, _width) = dims3(x)?;
        let ghost all = self.head_dims(batch, len);
        proof {
            if obliged {
                assert(tensor_dims(*x).update(2, channels) =~= seq![1, len, channels]);
                assert(tensor_dims(*x).update(2, self.n_heads) =~= seq![1, len, self.n_heads]);
                assert(tensor_dims(*x).update(2, self.inner_size) =~= seq![
                    1,
                    len,
                    self.inner_size,
                ]);
            }
        }
        let a = self.attn_qkv.forward(x);
        assert(answers(self.attn_qkv, *x, a));
        let qkv = lift(a)?;
        assert(projects(self.attn_qkv, *x, qkv));
        let (q0, k0, v) = self.cut(&qkv, batch, len, conv_state)?;
        let q1 = l2_norm(&q0, NORM_EPS)?;
        let k1 = l2_norm(&k0, NORM_EPS)?;
        let q = self.repeat_heads(&q1, batch, len)?;
        let k = self.repeat_heads(&k1, batch, len)?;
        proof {
            assert(is_l2_normed(view_of(q0), NORM_EPS, tensor_dtype(q0), view_of(q1)));
            assert(is_l2_normed(view_of(k0), NORM_EPS, tensor_dtype(k0), view_of(k1)));
            let dtype = tensor_dtype(q0);
            assert(self.is_scaled(dtype, view_of(q0), view_of(k0), view_of(q), view_of(k)));
            assert(self.is_made_of(
                batch,
                len,
                view_of(qkv),
                *old(conv_state),
                *conv_state,
                dtype,
                view_of(q),
                view_of(k),
                view_of(v),
            ));
            assert(self.is_prepared(
                *x,
                *old(conv_state),
                *conv_state,
                dtype,
                view_of(q),
                view_of(k),
                view_of(v),
            ));
        }
        let a = self.ssm_alpha.forward(x);
        assert(answers(self.ssm_alpha, *x, a));
        let alpha = lift(a)?;
        let _alpha_dims = candle_dims(&alpha);
        let decay = self.decay(&alpha)?;
        let a = self.ssm_beta.forward(x);
        assert(answers(self.ssm_beta, *x, a));
        let raw = lift(a)?;
        let _raw_dims = candle_dims(&raw);
        let beta = sigmoid(&raw)?;
        proof {
            assert(projects(self.ssm_alpha, *x, alpha));
            assert(projects(self.ssm_beta, *x, raw));
            assert(self.is_steered(*x, view_of(decay), view_of(beta)));
            if obliged {
                positions_even(len, self.n_heads, self.state_size);
            }
        }
        let out = gated_delta_net_recurrence(
            &q,
            &k,
            &v,
            &decay,
            &beta,
            ssm_state,
            self.state_size,
            self.n_heads,
        )?;
        let a = self.attn_gate.forward(x);
        assert(answers(self.attn_gate, *x, a));
        let gate = lift(a)?;
        let heads: [usize; 4] = [batch, len, self.n_heads, self.state_size];
        proof {
            assert(heads@ =~= all);
            gated_dims_same(all);
            count_small(batch, len, self.inner_size, 0, 0);
            count_small(batch, len, self.n_heads, self.state_size, 0);
            let n = batch * len;
            if obliged {
                assert(n * self.inner_size == n * self.n_heads * self.state_size)
                    by (nonlinear_arith)
                    requires
                        self.inner_size == self.n_heads * self.state_size,
                ;
            }
        }
        let gate4 = reshape(&gate, heads.as_slice())?;
        let gated = norm_gated(&out, &gate4, &self.ssm_norm)?;
        let inner: [usize; 3] = [batch, len, self.inner_size];
        assert(inner@ =~= seq![batch, len, self.inner_size]);
        let flat = reshape(&gated, inner.as_slice())?;
        proof {
            assert(projects(self.attn_gate, *x, gate));
            assert(heads@ =~= self.head_dims(batch, len));
            let dtype = tensor_dtype(out);
            assert(self.is_gated_by(
                batch,
                len,
                view_of(gate),
                view_of(out),
                dtype,
                view_of(gated),
            ));
            assert(self.is_gated(*x, view_of(out), dtype, view_of(flat)));
        }
        let a = self.ssm_out.forward(&flat);
        proof {
            assert(answers(self.ssm_out, flat, a));
            if obliged {
                assert(tensor_dims(flat).update(2, tensor_dims(*x)[2]) =~= tensor_dims(*x));
                kept_is_usable(*conv_state, tensor_dims(self.ssm_conv1d)[0], channels, len);
            }
        }
        let u = lift(a)?;
        assert(projects(self.ssm_out, flat, u));
        Ok(u)
    }
}

/// The part of a tensor for some heads holds as much as their vectors do.
proof fn cut_counts(d: Seq<usize>, part: usize, heads: usize, size: usize)
    requires
        d.len() == 3,
        fits(d),
        part <= d[2],
        part == heads * size,
    ensures
        fits(d.update(2, part)),
        count(d.update(2, part)) == count(seq![d[0], d[1], heads, size]),
{
    fits_shrink(d.update(2, part), d);
    assert(d.update(2, part) =~= seq![d[0], d[1], part]);
    count_small(d[0], d[1], part, 0, 0);
    count_small(d[0], d[1], heads, size, 0);
    let a = d[0] * d[1];
    assert(a * part == a * heads * size) by (nonlinear_arith)
        requires
            part == heads * size,
    ;
}

/// Each position of tensors with one vector, or one number, for each head holds as much.
pub proof fn positions_even(len: usize, heads: usize, size: usize)
    requires
        len > 0,
        fits(seq![1, len, heads, size]),
        fits(seq![1, len, heads]),
    ensures
        fits(seq![1, heads]),
        fits(seq![1, heads, size]),
        positions_hold(seq![1, len, heads, size], len as int, count(seq![1, heads, size])),
        positions_hold(seq![1, len, heads], len as int, count(seq![1, heads])),
{
    let d = seq![1, len, heads, size];
    let e = seq![1, len, heads];
    let d1 = seq![1, 1, heads, size];
    let e1 = seq![1, 1, heads];
    assert(d.update(1, 1) =~= d1);
    assert(e.update(1, 1) =~= e1);
    fits_shrink(d1, d);
    fits_shrink(e1, e);
    fits_without(d1, 1);
    fits_without(e1, 1);
    assert(d1.remove(1) =~= seq![1, heads, size]);
    assert(e1.remove(1) =~= seq![1, heads]);
}

/// A dimension of one between others stretches to any size.
proof fn stretches_five(b: usize, s: usize, g: usize, repeat: usize, size: usize)
    ensures
        stretches_to(seq![b, s, g, 1, size], seq![b, s, g, repeat, size]),
{
    reveal_with_fuel(stretches_to, 6);
    let src = seq![b, s, g, 1, size];
    let dst = seq![b, s, g, repeat, size];
    assert(src.drop_last() =~= seq![b, s, g, 1]);
    assert(dst.drop_last() =~= seq![b, s, g, repeat]);
    assert(seq![b, s, g, 1usize].drop_last() =~= seq![b, s, g]);
    assert(seq![b, s, g, repeat].drop_last() =~= seq![b, s, g]);
    assert(seq![b, s, g].drop_last() =~= seq![b, s]);
    assert(seq![b, s].drop_last() =~= seq![b]);
    assert(seq![b].drop_last() =~= Seq::empty());
}

} // verus!
