//! What a layer of experts makes of single elements of its tokens.
use candle_core::quantized::QMatMul;
use candle_core::{DType, Tensor};
use vstd::prelude::*;

use crate::backend::{activates, gathers, projects, routes, Kernels, QuantMethod};
use crate::formulas::{experts_are_summed, is_done_by, Arithmetic};
use crate::heads::becomes;
use crate::lookback::mlp_opened;
use crate::moe::{is_combined, is_expert_forward, FusedMoe, MoeOrMlp};
use crate::shape::{consistent, reshaped};
use crate::tensor::{
    experts_outcome, plain, qmatmul_dims, qmatmul_on_cpu, qmatmul_outcome, qmatmul_words,
    tensor_dims, tensor_dtype, tensor_on_cuda, tensor_words, view_of,
};

verus! {

/// What the experts that `indices` name make of tokens: on a CUDA device what that gives, and
/// elsewhere what the processor gives.
pub open spec fn expert_makes<K: Kernels>(
    kernels: K,
    w: QMatMul,
    xs: Tensor,
    indices: Tensor,
    r: Tensor,
) -> bool {
    &&& !tensor_on_cuda(xs) ==> gathers(kernels, w, xs, indices, Ok(r))
    &&& tensor_on_cuda(xs) ==> experts_outcome(
        qmatmul_dims(w),
        qmatmul_words(w),
        tensor_dims(xs),
        tensor_words(xs),
        tensor_dims(indices),
        tensor_words(indices),
        tensor_dims(r),
        tensor_words(r),
    )
}

/// Each token is rated by the router's weights, the router picks experts and scores for it, the
/// experts' gates and rises are made of the token itself, the product of the activated gate with the
/// rise goes down through the same experts, and what they have made is weighted with their scores and
/// summed up, in the element type of the tokens.
pub proof fn experts_of_elements<K: Kernels>(
    ar: Arithmetic,
    m: FusedMoe,
    kernels: K,
    xs: Tensor,
    r: Tensor,
)
    requires
        is_done_by(ar),
        tensor_dims(xs).len() == 3,
        m.is_forward(kernels, xs, r),
    ensures
        exists|
            logits: Tensor,
            scores: Tensor,
            indices: Tensor,
            apart: Tensor,
            gate: Tensor,
            up: Tensor,
            activated: Tensor,
            ys: Tensor,
        |
            {
                let d = tensor_dims(xs);
                let width = d[2];
                let tokens = (d[0] * d[1]) as usize;
                &&& tensor_dims(logits) == seq![tokens, qmatmul_dims(m.gate)[0]]
                &&& qmatmul_outcome(
                    qmatmul_dims(m.gate),
                    qmatmul_words(m.gate),
                    seq![tokens, width],
                    tensor_words(xs),
                    tensor_words(logits),
                )
                &&& #[trigger] routes(
                    kernels,
                    logits,
                    m.num_experts_per_tok,
                    m.norm_topk_prob,
                    Ok((scores, indices)),
                )
                &&& tensor_dims(apart) == seq![tokens, 1, width]
                &&& tensor_words(apart) == tensor_words(xs)
                &&& #[trigger] expert_makes(kernels, m.gate_experts, apart, indices, gate)
                &&& #[trigger] expert_makes(kernels, m.up_experts, apart, indices, up)
                &&& #[trigger] activates(kernels, gate, up, Ok(activated))
                &&& #[trigger] expert_makes(kernels, m.down_experts, activated, indices, ys)
                &&& tensor_dims(r) == d
                &&& is_weighted_sum(ar, tokens, width, ys, scores, tensor_dtype(xs), r)
            },
{
    let d = tensor_dims(xs);
    let width = d[2];
    let tokens = (d[0] * d[1]) as usize;
    let (flat, logits) = choose|flat: Tensor, logits: Tensor|
        {
            &&& view_of(flat) == reshaped(view_of(xs), seq![tokens, width])
            &&& #[trigger] m.is_rated(flat, logits)
            &&& tensor_dims(logits) == seq![tokens, qmatmul_dims(m.gate)[0]]
            &&& consistent(view_of(logits))
            &&& plain(xs) && qmatmul_on_cpu(m.gate) ==> plain(flat) && plain(logits)
            &&& m.is_spread(kernels, xs, logits, r)
        };
    let (apart, scores, indices, ys) = choose|
        apart: Tensor,
        scores: Tensor,
        indices: Tensor,
        ys: Tensor,
    |
        {
            &&& view_of(apart) == reshaped(view_of(xs), seq![tokens, 1, width])
            &&& plain(xs) ==> plain(apart)
            &&& #[trigger] m.is_routed(kernels, logits, scores, indices)
            &&& #[trigger] m.is_worked(kernels, apart, indices, ys)
            &&& is_combined(view_of(ys), view_of(scores), d, tensor_dtype(xs), view_of(r))
        };
    let (gate, up, activated) = choose|gate: Tensor, up: Tensor, activated: Tensor|
        {
            &&& is_expert_forward(kernels, m.gate_experts, apart, indices, gate)
            &&& is_expert_forward(kernels, m.up_experts, apart, indices, up)
            &&& #[trigger] activates(kernels, gate, up, Ok(activated))
            &&& is_expert_forward(kernels, m.down_experts, activated, indices, ys)
        };
    assert(routes(
        kernels,
        logits,
        m.num_experts_per_tok,
        m.norm_topk_prob,
        Ok((scores, indices)),
    ));
    assert(expert_makes(kernels, m.gate_experts, apart, indices, gate));
    assert(expert_makes(kernels, m.up_experts, apart, indices, up));
    assert(expert_makes(kernels, m.down_experts, activated, indices, ys));
    assert(view_of(apart).words == tensor_words(xs) && view_of(flat).words == tensor_words(xs));
    assert(view_of(apart).dims == tensor_dims(apart) && view_of(flat).dims == tensor_dims(flat));
    let picked = tensor_dims(ys)[1];
    if tensor_dims(ys) == seq![tokens, picked, width] && tensor_dims(scores) == seq![
        tokens,
        picked,
    ] {
        assert(tensor_dims(scores) =~= tensor_dims(ys).take(2));
        assert forall|token: int, i: int|
            #![trigger tensor_words(r)[token * width + i]]
            0 <= token < tokens && 0 <= i < width implies becomes(
            (ar.total)(
                Seq::new(
                    picked as nat,
                    |e: int|
                        (ar.product)(
                            tensor_words(ys)[(token * picked + e) * width + i],
                            tensor_words(scores)[token * picked + e],
                        ),
                ),
            ),
            tensor_dtype(xs),
            tensor_words(r)[token * width + i],
        ) by {
            experts_are_summed(
                ar,
                view_of(ys),
                view_of(scores),
                d,
                tensor_dtype(xs),
                view_of(r),
                token,
                i,
            );
        }
    }
    assert(is_weighted_sum(ar, tokens, width, ys, scores, tensor_dtype(xs), r));
}

/// Where as many experts as there are scores have made vectors of the tokens' width, what comes out
/// for a token is, at each index, the sum over its experts of what they made there times their score.
pub open spec fn is_weighted_sum(
    ar: Arithmetic,
    tokens: usize,
    width: usize,
    ys: Tensor,
    scores: Tensor,
    dtype: DType,
    r: Tensor,
) -> bool {
    let picked = tensor_dims(ys)[1];
    tensor_dims(ys) == seq![tokens, picked, width] && tensor_dims(scores) == seq![tokens, picked]
        ==> forall|token: int, i: int|
        #![trigger tensor_words(r)[token * width + i]]
        0 <= token < tokens && 0 <= i < width ==> becomes(
            (ar.total)(
                Seq::new(
                    picked as nat,
                    |e: int|
                        (ar.product)(
                            tensor_words(ys)[(token * picked + e) * width + i],
                            tensor_words(scores)[token * picked + e],
                        ),
                ),
            ),
            dtype,
            tensor_words(r)[token * width + i],
        )
}

/// A feed-forward part is one or the other: experts where it has some, and otherwise a gate and a rise
/// of the input, the product of the activated gate with the rise, and its projection.
pub proof fn feed_forward_is_one_or_the_other<Q: QuantMethod, K: Kernels>(
    mlp: MoeOrMlp<Q>,
    kernels: K,
    x: Tensor,
    r: Tensor,
)
    requires
        mlp.is_forward(kernels, x, r),
    ensures
        match mlp {
            MoeOrMlp::FusedMoe(m) => m.is_forward(kernels, x, r),
            MoeOrMlp::Mlp(m) => exists|a: Tensor, b: Tensor, y: Tensor|
                {
                    &&& #[trigger] projects(m.feed_forward_w1, x, a)
                    &&& #[trigger] projects(m.feed_forward_w3, x, b)
                    &&& #[trigger] activates(kernels, a, b, Ok(y))
                    &&& projects(m.feed_forward_w2, y, r)
                },
        },
{
    if let MoeOrMlp::Mlp(m) = mlp {
        mlp_opened(m, kernels, x, r);
    }
}

} // verus!
