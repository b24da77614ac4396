//! Feed-forward layers: a gated one, and one that is spread over experts.
use candle_core::quantized::QMatMul;
use candle_core::{DType, Error, Tensor};
use vstd::prelude::*;

use crate::backend::{
    activates, activation_obliges, answers, experts_oblige, gathers, router_obliges, routes,
    weight_obliges, Kernels, QuantMethod,
};
use crate::ops::{
    dims3, is_product, is_total, lift, place, reshape, settled, shape, stretchable, sum_along,
    times, to_dtype, to_dtype_of, unsqueeze, TensorError,
};
use crate::recurrence::stretch_three;
use crate::shape::{
    consistent, count, count_small, dims_fit, fits, fits_without, reducible, reshaped, span_front,
    stretched, TensorView,
};
use crate::tensor::{
    candle_block_bytes, candle_block_len, candle_dims, candle_f32, candle_indexed_moe, candle_place,
    candle_qmatmul, candle_qmatmul_bytes, candle_qmatmul_device, candle_qmatmul_dims,
    candle_qmatmul_is_cuda, cast_outcome, dtype_is_f32, experts_outcome, is_whole, plain,
    qmatmul_dims, qmatmul_on_cpu, qmatmul_on_cuda, qmatmul_outcome, qmatmul_place, qmatmul_words,
    same_kind, tensor_dims, tensor_dtype, tensor_is_dense, tensor_on_cuda, tensor_words, view_of,
};
use crate::topology::Location;

verus! {

/// A gated feed-forward layer.
pub struct Mlp<Q> {
    pub feed_forward_w1: Q,
    pub feed_forward_w2: Q,
    pub feed_forward_w3: Q,
}

impl<Q: QuantMethod> Mlp<Q> {
    /// `r` can come back where `xs` goes in: a gate and a rise of the input, the product of
    /// the rise with that gate activated, and its projection. What is refused first is answered.
    pub open spec fn is_forward<K: Kernels>(
        &self,
        kernels: K,
        xs: Tensor,
        r: Result<Tensor, TensorError>,
    ) -> bool {
        exists|a: Result<Tensor, Error>| #[trigger]
            answers(self.feed_forward_w1, xs, a) && match a {
                Err(e) => r == Err::<Tensor, TensorError>(TensorError::Candle(e)),
                Ok(w1) => exists|b: Result<Tensor, Error>| #[trigger]
                    answers(self.feed_forward_w3, xs, b) && match b {
                        Err(e) => r == Err::<Tensor, TensorError>(TensorError::Candle(e)),
                        Ok(w3) => exists|c: Result<Tensor, Error>| #[trigger]
                            activates(kernels, w1, w3, c) && match c {
                                Err(e) => r == Err::<Tensor, TensorError>(TensorError::Candle(e)),
                                Ok(y) => exists|d: Result<Tensor, Error>| #[trigger]
                                    answers(self.feed_forward_w2, y, d) && match d {
                                        Err(e) => r == Err::<Tensor, TensorError>(
                                            TensorError::Candle(e),
                                        ),
                                        Ok(u) => r == Ok::<Tensor, TensorError>(u),
                                    },
                            },
                    },
            }
    }

    /// Nothing is in the way of running the layer on a tensor of these dimensions,
    /// `[batch, positions, width]`.
    pub open spec fn is_obliged<K: Kernels>(&self, kernels: K, dims: Seq<usize>) -> bool {
        &&& dims.len() == 3
        &&& fits(dims)
        &&& activation_obliges(kernels)
        &&& exists|inner: usize|
            {
                &&& #[trigger] weight_obliges(self.feed_forward_w1, dims[2], inner)
                &&& weight_obliges(self.feed_forward_w3, dims[2], inner)
                &&& weight_obliges(self.feed_forward_w2, inner, dims[2])
                &&& fits(dims.update(2, inner))
            }
    }

    /// Runs the layer on `xs`.
    pub fn forward<K: Kernels>(&self, kernels: &K, xs: &Tensor) -> (r: Result<Tensor, TensorError>)
        ensures
            self.is_forward(*kernels, *xs, r),
            plain(*xs) && self.is_obliged(*kernels, tensor_dims(*xs)) ==> {
                &&& r matches Ok(u)
                &&& plain(u)
                &&& tensor_dims(u) == tensor_dims(*xs)
            },
    {
        proof {
            let d = tensor_dims(*xs);
            if self.is_obliged(*kernels, d) {
                let inner = choose|inner: usize|
                    {
                        &&& #[trigger] weight_obliges(self.feed_forward_w1, d[2], inner)
                        &&& weight_obliges(self.feed_forward_w3, d[2], inner)
                        &&& weight_obliges(self.feed_forward_w2, inner, d[2])
                        &&& fits(d.update(2, inner))
                    };
                assert(d.update(2, inner).update(2, d[2]) =~= d);
            }
        }
        let a = self.feed_forward_w1.forward(xs);
        assert(answers(self.feed_forward_w1, *xs, a));
        let w1 = match a {
            Ok(t) => t,
            Err(e) => {
                return Err(TensorError::Candle(e));
            },
        };
        let b = self.feed_forward_w3.forward(xs);
        assert(answers(self.feed_forward_w3, *xs, b));
        let w3 = match b {
            Ok(t) => t,
            Err(e) => {
                return Err(TensorError::Candle(e));
            },
        };
        let c = kernels.mul_and_act(&w1, &w3);
        assert(activates(*kernels, w1, w3, c));
        let y = match c {
            Ok(t) => t,
            Err(e) => {
                return Err(TensorError::Candle(e));
            },
        };
        let d = self.feed_forward_w2.forward(&y);
        assert(answers(self.feed_forward_w2, y, d));
        lift(d)
    }
}

/// `r` can come back where the tokens `xs` are multiplied with the experts that the indices name:
/// from the device where they are on a CUDA device, from the processor otherwise.
pub open spec fn is_expert_forward<K: Kernels>(
    kernels: K,
    w: QMatMul,
    xs: Tensor,
    indices: Tensor,
    r: Tensor,
) -> bool {
    if tensor_on_cuda(xs) {
        experts_outcome(
            qmatmul_dims(w),
            qmatmul_words(w),
            tensor_dims(xs),
            tensor_words(xs),
            tensor_dims(indices),
            tensor_words(indices),
            tensor_dims(r),
            tensor_words(r),
        )
    } else {
        gathers(kernels, w, xs, indices, Ok(r))
    }
}

/// A tensor of these dimensions names experts for tokens of those: the first dimension of both
/// runs over tokens, and there is one more.
pub open spec fn names_experts(tokens: Seq<usize>, indices: Seq<usize>) -> bool {
    tokens.len() >= 2 && indices.len() >= 2 && tokens[0] == indices[0]
}

/// The tokens can be multiplied with the experts where they are: on a CUDA device all is there,
/// and the indices are for these tokens.
pub open spec fn can_gather(w: QMatMul, xs: Tensor, indices: Tensor) -> bool {
    tensor_on_cuda(xs) ==> {
        &&& qmatmul_on_cuda(w)
        &&& tensor_on_cuda(indices)
        &&& names_experts(tensor_dims(xs), tensor_dims(indices))
    }
}

/// Multiplies each token with the experts that its indices name. Only a CUDA device has a kernel
/// for it.
pub fn experts_moe_forward<K: Kernels>(
    kernels: &K,
    w: &QMatMul,
    xs: &Tensor,
    indices: &Tensor,
) -> (r: Result<Tensor, TensorError>)
    requires
        can_gather(*w, *xs, *indices),
    ensures
        r matches Ok(u) ==> is_expert_forward(*kernels, *w, *xs, *indices, u),
        r matches Err(e) ==> e is Candle && (!tensor_on_cuda(*xs) ==> gathers(
            *kernels,
            *w,
            *xs,
            *indices,
            Err(e->Candle_0),
        )),
{
    if is_cuda(xs) {
        lift(candle_indexed_moe(w, xs, indices))
    } else {
        lift(kernels.cpu_indexed_moe_forward(w, xs, indices))
    }
}

/// Whether a tensor is in the memory of a CUDA device.
fn is_cuda(t: &Tensor) -> (r: bool)
    ensures
        r == tensor_on_cuda(*t),
{
    match place(t) {
        Location::Cuda { .. } => true,
        _ => false,
    }
}

/// Finds out whether the tokens can be multiplied with the experts where they are.
fn check_experts(w: &QMatMul, xs: &Tensor, indices: &Tensor) -> (r: Result<(), TensorError>)
    ensures
        r is Ok <==> can_gather(*w, *xs, *indices),
{
    if !is_cuda(xs) {
        return Ok(());
    }
    if !candle_qmatmul_is_cuda(w) || !is_cuda(indices) {
        return Err(TensorError::WrongDevice);
    }
    let tokens = candle_dims(xs);
    let named = candle_dims(indices);
    if tokens.len() < 2 {
        return Err(TensorError::WrongRank { expected: 2, got: tokens.len() });
    }
    if named.len() < 2 {
        return Err(TensorError::WrongRank { expected: 2, got: named.len() });
    }
    if tokens[0] != named[0] {
        return Err(TensorError::WrongPositions);
    }
    Ok(())
}

/// Whether two devices are of one kind.
fn of_one_kind(a: Location, b: Location) -> (r: bool)
    ensures
        r == same_kind(a, b),
{
    match (a, b) {
        (Location::Cpu, Location::Cpu) => true,
        (Location::Cuda { .. }, Location::Cuda { .. }) => true,
        (Location::Metal { .. }, Location::Metal { .. }) => true,
        _ => false,
    }
}

/// A feed-forward layer that sends each token to a few of many experts.
pub struct FusedMoe {
    pub gate: QMatMul,
    pub gate_experts: QMatMul,
    pub up_experts: QMatMul,
    pub down_experts: QMatMul,
    pub norm_topk_prob: bool,
    pub num_experts_per_tok: usize,
}

/// `total` is the sum of `weighted` over the experts, which are its last dimension but one.
pub open spec fn is_expert_sum(weighted: TensorView, total: TensorView) -> bool {
    weighted.dims.len() >= 2 && is_total(weighted, (weighted.dims.len() - 2) as usize, total)
}

/// `r` is the sum over experts of what they made, each weighted with its score, under the
/// dimensions `dims` and in the element type `dtype`.
pub open spec fn is_combined(
    ys: TensorView,
    scores: TensorView,
    dims: Seq<usize>,
    dtype: DType,
    r: TensorView,
) -> bool {
    exists|weighted: TensorView, total: TensorView|
        {
            &&& consistent(ys)
            &&& consistent(scores)
            &&& is_product(ys, reshaped(scores, scores.dims.push(1)), weighted)
            &&& #[trigger] is_expert_sum(weighted, total)
            &&& count(total.dims) == count(dims)
            &&& r.dims == dims
            &&& consistent(r)
            &&& cast_outcome(total.words, dtype, r.words)
            &&& dtype_is_f32(dtype) ==> r.words == total.words
        }
}

/// Shapes on which combining works.
pub open spec fn combine_fits(ys: Seq<usize>, scores: Seq<usize>, dims: Seq<usize>) -> bool {
    &&& stretchable(ys, scores.push(1))
    &&& stretched(ys, scores.push(1)) matches Some(d) && d.len() >= 2 && reducible(d, d.len() - 2)
        && fits(d.remove(d.len() - 2)) && count(d.remove(d.len() - 2)) == count(dims)
    &&& fits(dims)
}

/// Weights what the experts made with their scores, sums it up, and brings it into the shape
/// `dims` and the element type of `like`.
pub fn combine(ys: &Tensor, scores: &Tensor, dims: &[usize], like: &Tensor) -> (r: Result<
    Tensor,
    TensorError,
>)
    ensures
        r matches Ok(u) ==> {
            &&& combine_fits(tensor_dims(*ys), tensor_dims(*scores), dims@)
            &&& is_combined(
                view_of(*ys),
                view_of(*scores),
                dims@,
                tensor_dtype(*like),
                view_of(u),
            )
        },
        plain(*ys) && plain(*scores) && plain(*like) ==> {
            &&& r is Ok <==> combine_fits(tensor_dims(*ys), tensor_dims(*scores), dims@)
            &&& r matches Ok(u) ==> plain(u)
        },
{
    let rank: usize = candle_dims(scores).len();
    let _ys_dims = candle_dims(ys);
    let apart = unsqueeze(scores, rank)?;
    assert(tensor_dims(*scores).insert(rank as int, 1) =~= tensor_dims(*scores).push(1));
    let weighted = times(ys, &apart)?;
    let depth: usize = candle_dims(&weighted).len();
    if depth < 2 {
        return Err(TensorError::WrongRank { expected: 2, got: depth });
    }
    let total = sum_along(&weighted, depth - 2)?;
    let placed = reshape(&total, dims)?;
    let u = to_dtype_of(&placed, like)?;
    proof {
        assert(is_product(
            view_of(*ys),
            reshaped(view_of(*scores), tensor_dims(*scores).push(1)),
            view_of(weighted),
        ));
        assert(is_expert_sum(view_of(weighted), view_of(total)));
    }
    Ok(u)
}

/// Shapes on which a weight matrix can be multiplied with a matrix.
pub open spec fn weigh_fits(w: Seq<usize>, x: Seq<usize>) -> bool {
    &&& w.len() == 2
    &&& w[0] > 0
    &&& w[1] > 0
    &&& x.len() == 2
    &&& x[1] == w[1]
    &&& fits(x)
    &&& fits(x.update(1, w[0]))
}

/// Whether a matrix has all its blocks and no others.
fn has_blocks(w: &QMatMul) -> (r: bool)
    requires
        qmatmul_dims(*w).len() == 2,
    ensures
        r == is_whole(*w),
        qmatmul_on_cpu(*w) ==> r,
{
    let d = candle_qmatmul_dims(w);
    match (candle_qmatmul_bytes(w), candle_block_len(w), candle_block_bytes(w)) {
        (Some(n), Some(len), Some(size)) => {
            if len == 0 || size == 0 {
                return false;
            }
            proof {
                assert(d@ =~= seq![d@[0], d@[1]]);
                count_small(d@[0], d@[1], 0, 0, 0);
                assert(d@[0] * d@[1] <= 0xFFFF_FFFF_FFFF_FFFF * 0xFFFF_FFFF_FFFF_FFFF)
                    by (nonlinear_arith)
                    requires
                        0 <= d@[0] <= 0xFFFF_FFFF_FFFF_FFFF,
                        0 <= d@[1] <= 0xFFFF_FFFF_FFFF_FFFF,
                ;
            }
            let all: u128 = (d[0] as u128) * (d[1] as u128);
            let blocks: u128 = all / (len as u128);
            proof {
                let q = blocks as int;
                let s = size as int;
                let b = n as int;
                assert(b == q * s <==> b % s == 0 && b / s == q) by (nonlinear_arith)
                    requires
                        s > 0,
                ;
            }
            n % size == 0 && (n / size) as u128 == blocks
        },
        _ => true,
    }
}

/// Multiplies `x` with a weight matrix.
fn weigh(w: &QMatMul, x: &Tensor) -> (r: Result<Tensor, TensorError>)
    ensures
        r matches Ok(u) ==> {
            &&& qmatmul_dims(*w).len() == 2
            &&& qmatmul_place(*w) is Cpu ==> is_whole(*w)
            &&& tensor_dims(*x).len() > 0
            &&& tensor_dims(*x).last() == qmatmul_dims(*w)[1]
            &&& tensor_dims(u) == tensor_dims(*x).update(
                tensor_dims(*x).len() - 1,
                qmatmul_dims(*w)[0],
            )
            &&& qmatmul_outcome(
                qmatmul_dims(*w),
                qmatmul_words(*w),
                tensor_dims(*x),
                tensor_words(*x),
                tensor_words(u),
            )
        },
        qmatmul_on_cpu(*w) && plain(*x) && tensor_is_dense(*x) && tensor_dims(*x).len() == 2 ==> {
            &&& r is Ok <==> weigh_fits(qmatmul_dims(*w), tensor_dims(*x))
            &&& r matches Ok(u) ==> plain(u)
        },
{
    let wd = candle_qmatmul_dims(w);
    if wd.len() != 2 {
        return Err(TensorError::WrongRank { expected: 2, got: wd.len() });
    }
    if wd[0] == 0 || wd[1] == 0 {
        return Err(TensorError::UnknownSize);
    }
    let mut d = shape(x)?;
    let rank: usize = d.len();
    if rank > 0 {
        d.set(rank - 1, wd[0]);
        if !dims_fit(d.as_slice()) {
            return Err(TensorError::TooLarge);
        }
    }
    let at = candle_place(&candle_qmatmul_device(w));
    if !of_one_kind(place(x), at) {
        return Err(TensorError::WrongDevice);
    }
    let here = match at {
        Location::Cpu => true,
        _ => false,
    };
    if here && !has_blocks(w) {
        return Err(TensorError::WrongBlocks);
    }
    let x = settled(x)?;
    lift(candle_qmatmul(w, &x))
}

impl FusedMoe {
    /// `logits` is what the router's weights can make of the tokens `flat`.
    pub open spec fn is_rated(&self, flat: Tensor, logits: Tensor) -> bool {
        qmatmul_outcome(
            qmatmul_dims(self.gate),
            qmatmul_words(self.gate),
            tensor_dims(flat),
            tensor_words(flat),
            tensor_words(logits),
        )
    }

    /// `scores` and `indices` are what the router can make of `logits`.
    pub open spec fn is_routed<K: Kernels>(
        &self,
        kernels: K,
        logits: Tensor,
        scores: Tensor,
        indices: Tensor,
    ) -> bool {
        routes(
            kernels,
            logits,
            self.num_experts_per_tok,
            self.norm_topk_prob,
            Ok((scores, indices)),
        )
    }

    /// `ys` is what the experts named by `indices` can make of `tokens`.
    pub open spec fn is_worked<K: Kernels>(
        &self,
        kernels: K,
        tokens: Tensor,
        indices: Tensor,
        ys: Tensor,
    ) -> bool {
        exists|gate: Tensor, up: Tensor, activated: Tensor|
            {
                &&& is_expert_forward(kernels, self.gate_experts, tokens, indices, gate)
                &&& is_expert_forward(kernels, self.up_experts, tokens, indices, up)
                &&& #[trigger] activates(kernels, gate, up, Ok(activated))
                &&& is_expert_forward(kernels, self.down_experts, activated, indices, ys)
            }
    }

    /// `r` can come out of the layer where `xs`, of shape `[batch, positions, width]`, goes in and
    /// the router's weights have made `logits` of it.
    pub open spec fn is_spread<K: Kernels>(
        &self,
        kernels: K,
        xs: Tensor,
        logits: Tensor,
        r: Tensor,
    ) -> bool {
        let d = tensor_dims(xs);
        let tokens = (d[0] * d[1]) as usize;
        exists|apart: Tensor, scores: Tensor, indices: Tensor, ys: Tensor|
            {
                &&& view_of(apart) == reshaped(view_of(xs), seq![tokens, 1, d[2]])
                &&& plain(xs) ==> plain(apart)
                &&& #[trigger] self.is_routed(kernels, logits, scores, indices)
                &&& #[trigger] self.is_worked(kernels, apart, indices, ys)
                &&& is_combined(view_of(ys), view_of(scores), d, tensor_dtype(xs), view_of(r))
            }
    }

    /// `r` can come out of the layer where `xs`, of shape `[batch, positions, width]`, goes in.
    pub open spec fn is_forward<K: Kernels>(&self, kernels: K, xs: Tensor, r: Tensor) -> bool {
        let d = tensor_dims(xs);
        let tokens = (d[0] * d[1]) as usize;
        exists|flat: Tensor, logits: Tensor|
            {
                &&& view_of(flat) == reshaped(view_of(xs), seq![tokens, d[2]])
                &&& #[trigger] self.is_rated(flat, logits)
                &&& tensor_dims(logits) == seq![tokens, qmatmul_dims(self.gate)[0]]
                &&& consistent(view_of(logits))
                &&& plain(xs) && qmatmul_on_cpu(self.gate) ==> plain(flat) && plain(logits)
                &&& self.is_spread(kernels, xs, logits, r)
            }
    }

    /// The experts that `indices` name oblige.
    pub open spec fn experts_are_obliging<K: Kernels>(
        &self,
        kernels: K,
        indices: Tensor,
        tokens: usize,
        width: usize,
        inner: usize,
    ) -> bool {
        let top_k = self.num_experts_per_tok;
        let one = seq![tokens, 1, width];
        let many = seq![tokens, top_k, inner];
        &&& experts_oblige(kernels, self.gate_experts, indices, one, top_k, inner)
        &&& experts_oblige(kernels, self.up_experts, indices, one, top_k, inner)
        &&& experts_oblige(kernels, self.down_experts, indices, many, top_k, width)
    }

    /// The experts oblige, whichever the router picks, and make vectors of size `inner` in between.
    pub open spec fn all_oblige<K: Kernels>(
        &self,
        kernels: K,
        logits: Tensor,
        tokens: usize,
        width: usize,
        inner: usize,
    ) -> bool {
        &&& fits(seq![tokens, self.num_experts_per_tok, inner])
        &&& forall|scores: Tensor, indices: Tensor| #[trigger]
            self.is_routed(kernels, logits, scores, indices) ==> self.experts_are_obliging(
                kernels,
                indices,
                tokens,
                width,
                inner,
            )
    }

    /// Nothing is in the way of running the layer on a tensor of these dimensions,
    /// `[batch, positions, width]`, once the router's weights have made `logits` of it.
    pub open spec fn is_obliged<K: Kernels>(
        &self,
        kernels: K,
        dims: Seq<usize>,
        logits: Tensor,
    ) -> bool {
        let tokens = (dims[0] * dims[1]) as usize;
        let top_k = self.num_experts_per_tok;
        &&& dims.len() == 3
        &&& fits(dims)
        &&& dims[2] > 0
        &&& fits(seq![tokens, 1, dims[2]])
        &&& fits(seq![tokens, top_k, dims[2]])
        &&& fits(seq![tokens, top_k, 1])
        &&& activation_obliges(kernels)
        &&& router_obliges(kernels, logits, top_k, self.norm_topk_prob, tokens)
        &&& exists|inner: usize| #[trigger]
            self.all_oblige(kernels, logits, tokens, dims[2], inner)
    }

    /// Runs the layer on `xs`, of shape `[batch, positions, width]`, of which the router's weights
    /// have made `logits`.
    pub fn forward_routed<K: Kernels>(
        &self,
        kernels: &K,
        xs: &Tensor,
        logits: &Tensor,
    ) -> (r: Result<Tensor, TensorError>)
        ensures
            r matches Ok(u) ==> {
                &&& tensor_dims(*xs).len() == 3
                &&& tensor_dims(u) == tensor_dims(*xs)
                &&& self.is_spread(*kernels, *xs, *logits, u)
            },
            !fits(tensor_dims(*xs)) || tensor_dims(*xs).len() != 3 ==> r is Err,
            plain(*xs) && self.is_obliged(*kernels, tensor_dims(*xs), *logits) ==> {
                &&& r matches Ok(u)
                &&& plain(u)
            },
    {
        let ghost obliged = plain(*xs) && self.is_obliged(*kernels, tensor_dims(*xs), *logits);
        let (batch, seq_len, hidden_dim) = dims3(xs)?;
        proof {
            count_small(batch, seq_len, hidden_dim, 0, 0);
            span_front(tensor_dims(*xs), 2);
            assert(tensor_dims(*xs).take(2) =~= seq![batch, seq_len]);
            assert(count(seq![batch, seq_len]) == batch * seq_len);
        }
        let num_tokens: usize = batch * seq_len;
        let apart_dims: [usize; 3] = [num_tokens, 1, hidden_dim];
        let all_dims: [usize; 3] = [batch, seq_len, hidden_dim];
        let ghost top_k = self.num_experts_per_tok;
        let ghost inner = choose|inner: usize| #[trigger]
            self.all_oblige(*kernels, *logits, num_tokens, hidden_dim, inner);
        proof {
            assert(apart_dims@ =~= seq![num_tokens, 1, hidden_dim]);
            assert(all_dims@ =~= tensor_dims(*xs));
            count_small(num_tokens, 1, hidden_dim, 0, 0);
            assert(num_tokens * 1 * hidden_dim == batch * seq_len * hidden_dim) by (nonlinear_arith)
                requires
                    num_tokens == batch * seq_len,
            ;
        }
        let picked = kernels.moe_router_topk(
            logits,
            self.num_experts_per_tok,
            self.norm_topk_prob,
        );
        assert(routes(
            *kernels,
            *logits,
            self.num_experts_per_tok,
            self.norm_topk_prob,
            picked,
        ));
        let (scores, indices) = match picked {
            Ok(found) => found,
            Err(e) => {
                return Err(TensorError::Candle(e));
            },
        };
        proof {
            assert(self.is_routed(*kernels, *logits, scores, indices));
            if obliged {
                assert(self.experts_are_obliging(
                    *kernels,
                    indices,
                    num_tokens,
                    hidden_dim,
                    inner,
                ));
            }
        }
        let apart = reshape(xs, apart_dims.as_slice())?;
        check_experts(&self.gate_experts, &apart, &indices)?;
        check_experts(&self.up_experts, &apart, &indices)?;
        let gate = experts_moe_forward(kernels, &self.gate_experts, &apart, &indices)?;
        let up = experts_moe_forward(kernels, &self.up_experts, &apart, &indices)?;
        let a = kernels.mul_and_act(&gate, &up);
        assert(activates(*kernels, gate, up, a));
        let activated = lift(a)?;
        assert(activates(*kernels, gate, up, Ok(activated)));
        check_experts(&self.down_experts, &activated, &indices)?;
        let ys = experts_moe_forward(kernels, &self.down_experts, &activated, &indices)?;
        proof {
            assert(self.is_worked(*kernels, apart, indices, ys));
            if obliged {
                weighted_fits(num_tokens, top_k, hidden_dim, tensor_dims(*xs));
            }
        }
        let u = combine(&ys, &scores, all_dims.as_slice(), xs)?;
        assert(self.is_routed(*kernels, *logits, scores, indices));
        Ok(u)
    }

    /// The router's weights can be multiplied with the rows of a tensor of these dimensions,
    /// `[batch, positions, width]`.
    pub open spec fn rates(&self, dims: Seq<usize>) -> bool {
        weigh_fits(qmatmul_dims(self.gate), seq![(dims[0] * dims[1]) as usize, dims[2]])
    }

    /// Nothing is in the way of running the layer on a tensor of these dimensions,
    /// `[batch, positions, width]`: the router's weights are in main memory and of that width, and
    /// whatever logits they make, experts and kernels oblige.
    pub open spec fn is_all_obliged<K: Kernels>(&self, kernels: K, dims: Seq<usize>) -> bool {
        let tokens = (dims[0] * dims[1]) as usize;
        let rated = seq![tokens, qmatmul_dims(self.gate)[0]];
        &&& dims.len() == 3
        &&& fits(dims)
        &&& qmatmul_on_cpu(self.gate)
        &&& self.rates(dims)
        &&& forall|logits: Tensor|
            plain(logits) && tensor_dims(logits) == rated ==> #[trigger] self.is_obliged(
                kernels,
                dims,
                logits,
            )
    }

    /// Runs the layer on `xs`, of shape `[batch, positions, width]`.
    pub fn forward<K: Kernels>(&self, kernels: &K, xs: &Tensor) -> (r: Result<Tensor, TensorError>)
        ensures
            r matches Ok(u) ==> {
                &&& tensor_dims(*xs).len() == 3
                &&& tensor_dims(*xs)[2] > 0
                &&& tensor_dims(u) == tensor_dims(*xs)
                &&& self.is_forward(*kernels, *xs, u)
            },
            !fits(tensor_dims(*xs)) || tensor_dims(*xs).len() != 3 || tensor_dims(*xs)[2] == 0
                ==> r is Err,
            plain(*xs) && qmatmul_on_cpu(self.gate) && fits(tensor_dims(*xs)) && tensor_dims(
                *xs,
            ).len() == 3 && !self.rates(tensor_dims(*xs)) ==> r is Err,
            plain(*xs) && self.is_all_obliged(*kernels, tensor_dims(*xs)) ==> {
                &&& r matches Ok(u)
                &&& plain(u)
            },
    {
        let ghost obliged = plain(*xs) && self.is_all_obliged(*kernels, tensor_dims(*xs));
        let (batch, seq_len, hidden_dim) = dims3(xs)?;
        if hidden_dim == 0 {
            return Err(TensorError::UnknownSize);
        }
        proof {
            count_small(batch, seq_len, hidden_dim, 0, 0);
            span_front(tensor_dims(*xs), 2);
            assert(tensor_dims(*xs).take(2) =~= seq![batch, seq_len]);
            assert(count(seq![batch, seq_len]) == batch * seq_len);
        }
        let num_tokens: usize = batch * seq_len;
        let flat_dims: [usize; 2] = [num_tokens, hidden_dim];
        proof {
            assert(flat_dims@ =~= seq![num_tokens, hidden_dim]);
            count_small(num_tokens, hidden_dim, 0, 0, 0);
        }
        let flat = reshape(xs, flat_dims.as_slice())?;
        let wide = to_dtype(&flat, candle_f32())?;
        let logits = weigh(&self.gate, &wide)?;
        let _logits_dims = candle_dims(&logits);
        proof {
            assert(self.is_rated(flat, logits));
            assert(tensor_dims(logits) =~= seq![num_tokens, qmatmul_dims(self.gate)[0]]);
            if obliged {
                assert(self.is_obliged(*kernels, tensor_dims(*xs), logits));
            }
        }
        self.forward_routed(kernels, xs, &logits)
    }
}

/// What the experts made for each token can be weighted with their scores and summed up.
proof fn weighted_fits(tokens: usize, top_k: usize, width: usize, dims: Seq<usize>)
    requires
        fits(seq![tokens, top_k, width]),
        fits(seq![tokens, top_k, 1]),
        fits(seq![tokens, 1, width]),
        fits(dims),
        count(dims) == tokens * width,
    ensures
        combine_fits(seq![tokens, top_k, width], seq![tokens, top_k], dims),
{
    let ys = seq![tokens, top_k, width];
    let one = seq![tokens, top_k, 1];
    assert(seq![tokens, top_k].push(1) =~= one);
    stretch_three(ys, one);
    assert(stretched(ys, one)->0 =~= ys);
    assert(ys.update(1, 1) =~= seq![tokens, 1, width]);
    let rest = seq![tokens, width];
    assert(ys.remove(1) =~= rest);
    count_small(tokens, width, 0, 0, 0);
    let apart = seq![tokens, 1, width];
    fits_without(apart, 1);
    assert(apart.remove(1) =~= rest);
}

/// One kind of feed-forward layer or the other.
pub enum MoeOrMlp<Q> {
    FusedMoe(FusedMoe),
    Mlp(Mlp<Q>),
}

impl<Q: QuantMethod> MoeOrMlp<Q> {
    /// `r` can come out of the layer where `xs` goes in.
    pub open spec fn is_forward<K: Kernels>(&self, kernels: K, xs: Tensor, r: Tensor) -> bool {
        match self {
            MoeOrMlp::Mlp(m) => m.is_forward(kernels, xs, Ok(r)),
            MoeOrMlp::FusedMoe(m) => m.is_forward(kernels, xs, r),
        }
    }

    /// Nothing is in the way of running the layer on a tensor of these dimensions.
    pub open spec fn is_obliged<K: Kernels>(&self, kernels: K, dims: Seq<usize>) -> bool {
        match self {
            MoeOrMlp::Mlp(m) => m.is_obliged(kernels, dims),
            MoeOrMlp::FusedMoe(m) => m.is_all_obliged(kernels, dims),
        }
    }

    /// Runs the layer on `xs`.
    pub fn forward<K: Kernels>(&self, kernels: &K, xs: &Tensor) -> (r: Result<Tensor, TensorError>)
        ensures
            r matches Ok(u) ==> self.is_forward(*kernels, *xs, u),
            self matches MoeOrMlp::Mlp(m) ==> m.is_forward(*kernels, *xs, r),
            plain(*xs) && self.is_obliged(*kernels, tensor_dims(*xs)) ==> {
                &&& r matches Ok(u)
                &&& plain(u)
                &&& tensor_dims(u) == tensor_dims(*xs)
            },
    {
        match self {
            MoeOrMlp::Mlp(m) => m.forward(kernels, xs),
            MoeOrMlp::FusedMoe(m) => m.forward(kernels, xs),
        }
    }
}

} // verus!
