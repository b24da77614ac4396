//! What a whole layer, and a range of layers, puts out at some positions depends on these and those
//! before them alone.
use candle_core::quantized::QMatMul;
use candle_core::{DType, Tensor};
use vstd::prelude::*;

use crate::agree::{
    agree, agree_within, arithmetic_is_determined, breadth, reshape_agree, totals_agree,
    vectors_agree,
};
use crate::attention::{heads_side_by_side, head_view, is_cast, unturned, AttentionWeights};
use crate::backend::{
    activates, answers, gathers, masks, places, projects, routes, turns, weight_obliges,
    AttentionKernels, Kernels, QuantMethod,
};
use crate::causal::{looks_at_positions, projected_dims};
use crate::moe::{is_combined, is_expert_forward, is_expert_sum, FusedMoe, Mlp};
use crate::ops::is_product;
use crate::rows::{row, swap_twice};
use crate::shape::{
    consistent, count, count_small, count_split, fits, reshaped, swapped, TensorView,
};
use crate::tensor::{
    cast_outcome, dtype_is_f32, plain, qmatmul_dims, qmatmul_of, qmatmul_on_cpu, qmatmul_words,
    tensor_dims, tensor_dtype, tensor_is_f32, tensor_words, view_of,
};
use crate::tokens::worked_plainly;

verus! {

/// The router looks at each token alone.
pub open spec fn routes_by_token<K: Kernels>(kernels: K, top_k: usize, renormalize: bool) -> bool {
    forall|
        l1: Tensor,
        l2: Tensor,
        s1: Tensor,
        i1: Tensor,
        s2: Tensor,
        i2: Tensor,
        from: int,
        to: int,
    |
        #![trigger routes(kernels, l1, top_k, renormalize, Ok((s1, i1))), routes(
            kernels, l2, top_k, renormalize, Ok((s2, i2)),
        ), agree(view_of(l1), view_of(l2), 1, from, to)]
        routes(kernels, l1, top_k, renormalize, Ok((s1, i1))) && routes(
            kernels,
            l2,
            top_k,
            renormalize,
            Ok((s2, i2)),
        ) && agree(view_of(l1), view_of(l2), 1, from, to) ==> {
            &&& agree(view_of(s1), view_of(s2), 1, from, to)
            &&& agree(view_of(i1), view_of(i2), 1, from, to)
        }
}

/// Experts look at each token alone.
pub open spec fn gathers_by_token<K: Kernels>(kernels: K, w: QMatMul) -> bool {
    forall|
        x1: Tensor,
        x2: Tensor,
        i1: Tensor,
        i2: Tensor,
        y1: Tensor,
        y2: Tensor,
        from: int,
        to: int,
    |
        #![trigger gathers(kernels, w, x1, i1, Ok(y1)), gathers(kernels, w, x2, i2, Ok(y2)), agree(
            view_of(x1), view_of(x2), 1, from, to,
        )]
        gathers(kernels, w, x1, i1, Ok(y1)) && gathers(kernels, w, x2, i2, Ok(y2)) && agree(
            view_of(x1),
            view_of(x2),
            1,
            from,
            to,
        ) && agree(view_of(i1), view_of(i2), 1, from, to) ==> agree(
            view_of(y1),
            view_of(y2),
            1,
            from,
            to,
        )
}

/// The activation looks at each position alone, however many dimensions count positions.
pub open spec fn activates_by_position<K: Kernels>(kernels: K) -> bool {
    forall|
        a1: Tensor,
        a2: Tensor,
        b1: Tensor,
        b2: Tensor,
        y1: Tensor,
        y2: Tensor,
        lead: int,
        from: int,
        to: int,
    |
        #![trigger activates(kernels, a1, b1, Ok(y1)), activates(kernels, a2, b2, Ok(y2)), agree(
            view_of(a1), view_of(a2), lead, from, to,
        )]
        activates(kernels, a1, b1, Ok(y1)) && activates(kernels, a2, b2, Ok(y2)) && agree(
            view_of(a1),
            view_of(a2),
            lead,
            from,
            to,
        ) && agree(view_of(b1), view_of(b2), lead, from, to) ==> agree(
            view_of(y1),
            view_of(y2),
            lead,
            from,
            to,
        )
}

/// Router, experts and activation look at each token alone.
pub open spec fn looks_at_tokens<K: Kernels>(m: FusedMoe, kernels: K) -> bool {
    &&& routes_by_token(kernels, m.num_experts_per_tok, m.norm_topk_prob)
    &&& gathers_by_token(kernels, m.gate_experts)
    &&& gathers_by_token(kernels, m.up_experts)
    &&& gathers_by_token(kernels, m.down_experts)
    &&& activates_by_position(kernels)
}

/// What experts made is combined alike where it and its scores agree.
proof fn combined_agree(
    n: usize,
    top_k: usize,
    width: usize,
    from: int,
    to: int,
    ys1: TensorView,
    ys2: TensorView,
    s1: TensorView,
    s2: TensorView,
    dims: Seq<usize>,
    d1: DType,
    d2: DType,
    r1: TensorView,
    r2: TensorView,
)
    requires
        arithmetic_is_determined(),
        dtype_is_f32(d1),
        dtype_is_f32(d2),
        agree(ys1, ys2, 1, from, to),
        agree(s1, s2, 1, from, to),
        ys1.dims == seq![n, top_k, width],
        s1.dims == seq![n, top_k],
        dims.len() == 3,
        dims[2] == width,
        count(dims.take(2)) == n,
        is_combined(ys1, s1, dims, d1, r1),
        is_combined(ys2, s2, dims, d2, r2),
    ensures
        agree(r1, r2, 2, from, to),
{
    let (weighted1, total1) = choose|weighted: TensorView, total: TensorView|
        {
            &&& consistent(ys1)
            &&& consistent(s1)
            &&& is_product(ys1, reshaped(s1, s1.dims.push(1)), weighted)
            &&& #[trigger] is_expert_sum(weighted, total)
            &&& count(total.dims) == count(dims)
            &&& r1.dims == dims
            &&& consistent(r1)
            &&& cast_outcome(total.words, d1, r1.words)
            &&& dtype_is_f32(d1) ==> r1.words == total.words
        };
    let (weighted2, total2) = choose|weighted: TensorView, total: TensorView|
        {
            &&& consistent(ys2)
            &&& consistent(s2)
            &&& is_product(ys2, reshaped(s2, s2.dims.push(1)), weighted)
            &&& #[trigger] is_expert_sum(weighted, total)
            &&& count(total.dims) == count(dims)
            &&& r2.dims == dims
            &&& consistent(r2)
            &&& cast_outcome(total.words, d2, r2.words)
            &&& dtype_is_f32(d2) ==> r2.words == total.words
        };
    let apart = seq![n, top_k, 1];
    assert(s1.dims.push(1) =~= apart);
    assert(apart =~= ys1.dims.update(2, 1));
    assert(apart.skip(1) =~= seq![top_k, 1]);
    assert(s1.dims.skip(1) =~= seq![top_k]);
    assert(apart.take(1) =~= s1.dims.take(1));
    count_small(top_k, 1, 0, 0, 0);
    count_small(top_k, 0, 0, 0, 0);
    count_small(n, top_k, 1, 0, 0);
    count_small(n, top_k, 0, 0, 0);
    assert(top_k * 1 == top_k && n * top_k * 1 == n * top_k) by (nonlinear_arith);
    reshape_agree(s1, s2, 1, from, to, apart, 1);
    vectors_agree(
        ys1,
        ys2,
        reshaped(s1, apart),
        reshaped(s2, apart),
        1,
        from,
        to,
        weighted1,
        weighted2,
    );
    totals_agree(weighted1, weighted2, from, to, total1, total2);
    assert(total1.dims.skip(1) =~= seq![width]);
    assert(dims.skip(2) =~= seq![width]);
    assert(total1.dims.take(1) =~= seq![n]);
    count_small(n, 0, 0, 0, 0);
    reshape_agree(total1, total2, 1, from, to, dims, 2);
    assert(reshaped(total1, dims) == r1);
    assert(reshaped(total2, dims) == r2);
}

/// The router's weights rate tokens alike where they agree.
proof fn rated_agree(
    m: FusedMoe,
    from: int,
    to: int,
    flat1: Tensor,
    flat2: Tensor,
    l1: Tensor,
    l2: Tensor,
)
    requires
        arithmetic_is_determined(),
        agree(view_of(flat1), view_of(flat2), 1, from, to),
        tensor_dims(flat1).len() == 2,
        tensor_dims(l1) == seq![tensor_dims(flat1)[0], qmatmul_dims(m.gate)[0]],
        tensor_dims(l2) == tensor_dims(l1),
        consistent(view_of(l1)),
        consistent(view_of(l2)),
        m.is_rated(flat1, l1),
        m.is_rated(flat2, l2),
    ensures
        agree(view_of(l1), view_of(l2), 1, from, to),
{
    let n = tensor_dims(flat1)[0];
    let k = tensor_dims(flat1)[1];
    let g = qmatmul_dims(m.gate)[0];
    let a = tensor_words(flat1);
    let b = tensor_words(flat2);
    let r = tensor_words(l1);
    let s = tensor_words(l2);
    agree_within(view_of(flat1), view_of(flat2), 1, from, to);
    assert(tensor_dims(flat1).skip(1) =~= seq![k]);
    assert(tensor_dims(flat1).take(1) =~= seq![n]);
    assert(tensor_dims(flat1).drop_last() =~= seq![n]);
    assert(tensor_dims(l1).skip(1) =~= seq![g]);
    assert(tensor_dims(l1).take(1) =~= seq![n]);
    count_small(k, 0, 0, 0, 0);
    count_small(n, g, 0, 0, 0);
    count_small(g, 0, 0, 0, 0);
    count_small(n, 0, 0, 0, 0);
    let w = g as int;
    let all = n as int;
    assert forall|i: int| from * w <= i < to * w implies #[trigger] r[i] == s[i] by {
        let t = i / w;
        let e = i % w;
        assert(w > 0 && from <= t < to && 0 <= e < w && i == t * w + e && (t + 1) * w == t * w + w)
            by (nonlinear_arith)
            requires
                from * w <= i < to * w,
                0 <= w,
                t == i / w,
                e == i % w,
        ;
        assert(0 <= t * w && (t + 1) * w <= all * w) by (nonlinear_arith)
            requires
                0 <= t < all,
                0 <= w,
        ;
        token_rated(m, from, to, flat1, flat2, l1, l2, t);
        assert(row(r, t, w)[e] == row(s, t, w)[e]);
    }
}

proof fn token_rated(
    m: FusedMoe,
    from: int,
    to: int,
    flat1: Tensor,
    flat2: Tensor,
    l1: Tensor,
    l2: Tensor,
    t: int,
)
    requires
        arithmetic_is_determined(),
        agree(view_of(flat1), view_of(flat2), 1, from, to),
        tensor_dims(flat1).len() == 2,
        tensor_dims(l1) == seq![tensor_dims(flat1)[0], qmatmul_dims(m.gate)[0]],
        tensor_dims(l2) == tensor_dims(l1),
        consistent(view_of(l1)),
        consistent(view_of(l2)),
        m.is_rated(flat1, l1),
        m.is_rated(flat2, l2),
        from <= t < to,
    ensures
        ({
            let g = qmatmul_dims(m.gate)[0] as int;
            &&& row(tensor_words(l1), t, g) == row(tensor_words(l2), t, g)
            &&& row(tensor_words(l1), t, g).len() == g
        }),
{
    reveal(arithmetic_is_determined);
    let n = tensor_dims(flat1)[0];
    let k = tensor_dims(flat1)[1] as int;
    let g = qmatmul_dims(m.gate)[0] as int;
    agree_within(view_of(flat1), view_of(flat2), 1, from, to);
    assert(tensor_dims(flat1).skip(1) =~= seq![tensor_dims(flat1)[1]]);
    assert(tensor_dims(flat1).take(1) =~= seq![n]);
    assert(tensor_dims(flat1).drop_last() =~= seq![n]);
    count_small(tensor_dims(flat1)[1], 0, 0, 0, 0);
    count_small(n, qmatmul_dims(m.gate)[0], 0, 0, 0);
    count_small(n, 0, 0, 0, 0);
    assert(from * k <= t * k && (t + 1) * k <= to * k && (t + 1) * k == t * k + k)
        by (nonlinear_arith)
        requires
            from <= t < to,
            0 <= k,
    ;
    assert(0 <= t * g && (t + 1) * g <= n * g && (t + 1) * g == t * g + g) by (nonlinear_arith)
        requires
            0 <= t < n,
            0 <= g,
    ;
    assert(row(tensor_words(flat1), t, k) =~= row(tensor_words(flat2), t, k)) by {
        assert forall|i: int| t * k <= i < (t + 1) * k implies #[trigger] tensor_words(flat1)[i]
            == tensor_words(flat2)[i] by {
            assert(view_of(flat1).words[i] == view_of(flat2).words[i]);
        }
    }
    let a = row(tensor_words(l1), t, g);
    let b = row(tensor_words(l2), t, g);
    let x = row(tensor_words(flat1), t, k);
    assert(qmatmul_of(qmatmul_dims(m.gate), qmatmul_words(m.gate), x, a));
    assert(qmatmul_of(qmatmul_dims(m.gate), qmatmul_words(m.gate), x, b));
}

/// Experts look at each token alone: what comes out for some tokens is the same whatever the others
/// are. Tokens are counted over all items of the batch.
pub proof fn experts_look_at_tokens<K: Kernels>(
    m: FusedMoe,
    kernels: K,
    x1: Tensor,
    x2: Tensor,
    from: int,
    to: int,
    r1: Tensor,
    r2: Tensor,
)
    requires
        arithmetic_is_determined(),
        looks_at_tokens(m, kernels),
        plain(x1),
        plain(x2),
        agree(view_of(x1), view_of(x2), 2, from, to),
        m.is_all_obliged(kernels, tensor_dims(x1)),
        m.is_forward(kernels, x1, r1),
        m.is_forward(kernels, x2, r2),
    ensures
        agree(view_of(r1), view_of(r2), 2, from, to),
{
    let d = tensor_dims(x1);
    let tokens = (d[0] * d[1]) as usize;
    let w = d[2];
    let g = qmatmul_dims(m.gate)[0];
    let flat_dims = seq![tokens, w];
    let (flat1, l1) = choose|flat: Tensor, logits: Tensor|
        {
            &&& view_of(flat) == reshaped(view_of(x1), flat_dims)
            &&& #[trigger] m.is_rated(flat, logits)
            &&& tensor_dims(logits) == seq![tokens, g]
            &&& consistent(view_of(logits))
            &&& plain(x1) && qmatmul_on_cpu(m.gate) ==> plain(flat) && plain(logits)
            &&& m.is_spread(kernels, x1, logits, r1)
        };
    let (flat2, l2) = choose|flat: Tensor, logits: Tensor|
        {
            &&& view_of(flat) == reshaped(view_of(x2), flat_dims)
            &&& #[trigger] m.is_rated(flat, logits)
            &&& tensor_dims(logits) == seq![tokens, g]
            &&& consistent(view_of(logits))
            &&& plain(x2) && qmatmul_on_cpu(m.gate) ==> plain(flat) && plain(logits)
            &&& m.is_spread(kernels, x2, logits, r2)
        };
    token_dims(d);
    reshape_agree(view_of(x1), view_of(x2), 2, from, to, flat_dims, 1);
    rated_agree(m, from, to, flat1, flat2, l1, l2);
    assert(m.is_obliged(kernels, d, l1));
    assert(m.is_obliged(kernels, d, l2));
    spread_agree(m, kernels, x1, x2, from, to, l1, l2, r1, r2);
}

/// Tokens of `[batch, positions, width]`, counted over all items of the batch.
proof fn token_dims(d: Seq<usize>)
    requires
        d.len() == 3,
        fits(d),
        d[2] > 0,
    ensures
        ({
            let tokens = (d[0] * d[1]) as usize;
            let flat = seq![tokens, d[2]];
            let apart = seq![tokens, 1, d[2]];
            &&& count(d.take(2)) == tokens
            &&& count(flat) == count(d)
            &&& count(apart) == count(d)
            &&& count(flat.take(1)) == tokens
            &&& count(apart.take(1)) == tokens
            &&& breadth(flat, 1) == breadth(d, 2)
            &&& breadth(apart, 1) == breadth(d, 2)
        }),
{
    let tokens = (d[0] * d[1]) as usize;
    let flat = seq![tokens, d[2]];
    let apart = seq![tokens, 1, d[2]];
    let (a, b, c) = (d[0] as int, d[1] as int, d[2] as int);
    assert(d =~= seq![d[0], d[1], d[2]]);
    count_small(d[0], d[1], d[2], 0, 0);
    assert(a * b <= a * b * c && 0 <= a * b) by (nonlinear_arith)
        requires
            0 <= a,
            0 <= b,
            c >= 1,
    ;
    count_small(tokens, d[2], 0, 0, 0);
    count_small(tokens, 1, d[2], 0, 0);
    count_small(tokens, 0, 0, 0, 0);
    count_small(1, d[2], 0, 0, 0);
    count_small(d[2], 0, 0, 0, 0);
    let t = tokens as int;
    assert(t * 1 * c == t * c && 1 * c == c) by (nonlinear_arith);
    assert(d.take(2) =~= seq![d[0], d[1]]);
    assert(flat.take(1) =~= seq![tokens]);
    assert(apart.take(1) =~= seq![tokens]);
    assert(d.skip(2) =~= seq![d[2]]);
    assert(flat.skip(1) =~= seq![d[2]]);
    assert(apart.skip(1) =~= seq![1, d[2]]);
}

proof fn spread_agree<K: Kernels>(
    m: FusedMoe,
    kernels: K,
    x1: Tensor,
    x2: Tensor,
    from: int,
    to: int,
    l1: Tensor,
    l2: Tensor,
    r1: Tensor,
    r2: Tensor,
)
    requires
        arithmetic_is_determined(),
        looks_at_tokens(m, kernels),
        plain(x1),
        plain(x2),
        agree(view_of(x1), view_of(x2), 2, from, to),
        agree(view_of(l1), view_of(l2), 1, from, to),
        m.is_obliged(kernels, tensor_dims(x1), l1),
        m.is_obliged(kernels, tensor_dims(x1), l2),
        m.is_spread(kernels, x1, l1, r1),
        m.is_spread(kernels, x2, l2, r2),
    ensures
        agree(view_of(r1), view_of(r2), 2, from, to),
{
    let d = tensor_dims(x1);
    let tokens = (d[0] * d[1]) as usize;
    let w = d[2];
    let top_k = m.num_experts_per_tok;
    let apart_dims = seq![tokens, 1, w];
    token_dims(d);
    let (apart1, s1, i1, ys1) = choose|apart: Tensor, scores: Tensor, indices: Tensor, ys: Tensor|
        {
            &&& view_of(apart) == reshaped(view_of(x1), apart_dims)
            &&& plain(x1) ==> plain(apart)
            &&& #[trigger] m.is_routed(kernels, l1, scores, indices)
            &&& #[trigger] m.is_worked(kernels, apart, indices, ys)
            &&& is_combined(view_of(ys), view_of(scores), d, tensor_dtype(x1), view_of(r1))
        };
    let (apart2, s2, i2, ys2) = choose|apart: Tensor, scores: Tensor, indices: Tensor, ys: Tensor|
        {
            &&& view_of(apart) == reshaped(view_of(x2), apart_dims)
            &&& plain(x2) ==> plain(apart)
            &&& #[trigger] m.is_routed(kernels, l2, scores, indices)
            &&& #[trigger] m.is_worked(kernels, apart, indices, ys)
            &&& is_combined(view_of(ys), view_of(scores), d, tensor_dtype(x2), view_of(r2))
        };
    reshape_agree(view_of(x1), view_of(x2), 2, from, to, apart_dims, 1);
    assert(agree(view_of(s1), view_of(s2), 1, from, to));
    assert(agree(view_of(i1), view_of(i2), 1, from, to));
    let inner1 = choose|inner: usize| #[trigger] m.all_oblige(kernels, l1, tokens, w, inner);
    let inner2 = choose|inner: usize| #[trigger] m.all_oblige(kernels, l2, tokens, w, inner);
    let (gate1, up1, act1) = choose|gate: Tensor, up: Tensor, activated: Tensor|
        {
            &&& is_expert_forward(kernels, m.gate_experts, apart1, i1, gate)
            &&& is_expert_forward(kernels, m.up_experts, apart1, i1, up)
            &&& #[trigger] activates(kernels, gate, up, Ok(activated))
            &&& is_expert_forward(kernels, m.down_experts, activated, i1, ys1)
        };
    let (gate2, up2, act2) = choose|gate: Tensor, up: Tensor, activated: Tensor|
        {
            &&& is_expert_forward(kernels, m.gate_experts, apart2, i2, gate)
            &&& is_expert_forward(kernels, m.up_experts, apart2, i2, up)
            &&& #[trigger] activates(kernels, gate, up, Ok(activated))
            &&& is_expert_forward(kernels, m.down_experts, activated, i2, ys2)
        };
    worked_plainly(m, kernels, apart1, i1, tokens, w, inner1, gate1, up1, act1);
    worked_plainly(m, kernels, apart2, i2, tokens, w, inner2, gate2, up2, act2);
    assert(gathers(kernels, m.down_experts, act1, i1, Ok(ys1)));
    assert(gathers(kernels, m.down_experts, act2, i2, Ok(ys2)));
    assert(agree(view_of(apart1), view_of(apart2), 1, from, to));
    assert(agree(view_of(gate1), view_of(gate2), 1, from, to));
    assert(agree(view_of(up1), view_of(up2), 1, from, to));
    assert(agree(view_of(act1), view_of(act2), 1, from, to));
    assert(agree(view_of(ys1), view_of(ys2), 1, from, to));
    combined_agree(
        tokens,
        top_k,
        w,
        from,
        to,
        view_of(ys1),
        view_of(ys2),
        view_of(s1),
        view_of(s2),
        d,
        tensor_dtype(x1),
        tensor_dtype(x2),
        view_of(r1),
        view_of(r2),
    );
}

/// The weights of a gated feed-forward layer and the activation look at each position alone.
pub open spec fn mlp_looks_at_positions<Q: QuantMethod, K: Kernels>(m: Mlp<Q>, kernels: K) -> bool {
    &&& looks_at_positions(m.feed_forward_w1)
    &&& looks_at_positions(m.feed_forward_w2)
    &&& looks_at_positions(m.feed_forward_w3)
    &&& activates_by_position(kernels)
}

/// A gated feed-forward layer looks at each position alone.
pub proof fn mlp_agrees<Q: QuantMethod, K: Kernels>(
    m: Mlp<Q>,
    kernels: K,
    x1: Tensor,
    x2: Tensor,
    from: int,
    to: int,
    r1: Tensor,
    r2: Tensor,
)
    requires
        mlp_looks_at_positions(m, kernels),
        agree(view_of(x1), view_of(x2), 2, from, to),
        m.is_forward(kernels, x1, Ok(r1)),
        m.is_forward(kernels, x2, Ok(r2)),
    ensures
        agree(view_of(r1), view_of(r2), 2, from, to),
{
    mlp_opened(m, kernels, x1, r1);
    mlp_opened(m, kernels, x2, r2);
    let (a1, b1, y1) = choose|a: Tensor, b: Tensor, y: Tensor|
        {
            &&& #[trigger] projects(m.feed_forward_w1, x1, a)
            &&& #[trigger] projects(m.feed_forward_w3, x1, b)
            &&& #[trigger] activates(kernels, a, b, Ok(y))
            &&& projects(m.feed_forward_w2, y, r1)
        };
    let (a2, b2, y2) = choose|a: Tensor, b: Tensor, y: Tensor|
        {
            &&& #[trigger] projects(m.feed_forward_w1, x2, a)
            &&& #[trigger] projects(m.feed_forward_w3, x2, b)
            &&& #[trigger] activates(kernels, a, b, Ok(y))
            &&& projects(m.feed_forward_w2, y, r2)
        };
    assert(agree(view_of(a1), view_of(a2), 2, from, to));
    assert(agree(view_of(b1), view_of(b2), 2, from, to));
    assert(agree(view_of(y1), view_of(y2), 2, from, to));
}

/// A gated feed-forward layer makes a gate and a rise of its input, each with a weight of its own, and
/// projects the product of the activated gate with the rise.
pub proof fn mlp_opened<Q: QuantMethod, K: Kernels>(m: Mlp<Q>, kernels: K, x: Tensor, r: Tensor)
    requires
        m.is_forward(kernels, x, Ok(r)),
    ensures
        exists|a: Tensor, b: Tensor, y: Tensor|
            {
                &&& #[trigger] projects(m.feed_forward_w1, x, a)
                &&& #[trigger] projects(m.feed_forward_w3, x, b)
                &&& #[trigger] activates(kernels, a, b, Ok(y))
                &&& projects(m.feed_forward_w2, y, r)
            },
{
    let a = choose|a: Tensor|
        #![trigger answers(m.feed_forward_w1, x, Ok(a))]
        answers(m.feed_forward_w1, x, Ok(a)) && exists|b: Tensor, y: Tensor|
            {
                &&& #[trigger] answers(m.feed_forward_w3, x, Ok(b))
                &&& #[trigger] activates(kernels, a, b, Ok(y))
                &&& answers(m.feed_forward_w2, y, Ok(r))
            };
    let (b, y) = choose|b: Tensor, y: Tensor|
        {
            &&& #[trigger] answers(m.feed_forward_w3, x, Ok(b))
            &&& #[trigger] activates(kernels, a, b, Ok(y))
            &&& answers(m.feed_forward_w2, y, Ok(r))
        };
    assert(projects(m.feed_forward_w1, x, a));
    assert(projects(m.feed_forward_w3, x, b));
}

/// Tensors of the shape `[1, heads, positions, size]` agree at the first positions.
pub open spec fn heads_agree_at(a: Tensor, b: Tensor, n: int) -> bool {
    agree(swapped(view_of(a), 1), swapped(view_of(b), 1), 2, 0, n)
}

/// `z`, with positions before heads, can come out of attention under a mask for the queries `q0`,
/// keys `k0` and values `v0`, while the cache goes from `cache0` to `cache1`.
pub open spec fn attention_gives<Q: QuantMethod, K: AttentionKernels>(
    a: AttentionWeights<Q>,
    kernels: K,
    start_offsets: &[usize],
    len: usize,
    paging: Option<&K::Paging>,
    mask: K::Mask,
    cache0: K::Cache,
    cache1: K::Cache,
    q0: Tensor,
    k0: Tensor,
    v0: Tensor,
    z: TensorView,
) -> bool {
    exists|
        at: Tensor,
        q1: Tensor,
        k1: Tensor,
        q: Tensor,
        k: Tensor,
        v: Tensor,
        y: Tensor,
        custom: bool,
    |
        {
            &&& places(kernels, start_offsets, len, q0, at)
            &&& #[trigger] turns(kernels, q0, k0, at, q1, k1)
            &&& is_cast(view_of(q1), a.dtype, view_of(q))
            &&& is_cast(view_of(k1), a.dtype, view_of(k))
            &&& is_cast(view_of(v0), a.dtype, view_of(v))
            &&& #[trigger] a.is_attended(kernels, paging, mask, cache0, cache1, q, k, v, y)
            &&& #[trigger] masks(kernels, mask, custom)
            &&& z == unturned(view_of(y), custom)
        }
}

/// Attention under these masks looks back only: what it gives at the first positions is the same
/// whatever queries, keys and values there are at the others, and the same is cached where they are
/// the same at all positions.
pub open spec fn attention_sees_back<Q: QuantMethod, K: AttentionKernels>(
    a: AttentionWeights<Q>,
    kernels1: K,
    kernels2: K,
    offsets1: &[usize],
    offsets2: &[usize],
    len: usize,
    paging1: Option<&K::Paging>,
    paging2: Option<&K::Paging>,
    mask1: K::Mask,
    mask2: K::Mask,
    cache0: K::Cache,
) -> bool {
    forall|
        n: int,
        q1: Tensor,
        k1: Tensor,
        v1: Tensor,
        q2: Tensor,
        k2: Tensor,
        v2: Tensor,
        c1: K::Cache,
        c2: K::Cache,
        z1: TensorView,
        z2: TensorView,
    |
        #![trigger attention_gives(
            a, kernels1, offsets1, len, paging1, mask1, cache0, c1, q1, k1, v1, z1,
        ), attention_gives(
            a, kernels2, offsets2, len, paging2, mask2, cache0, c2, q2, k2, v2, z2,
        ), heads_agree_at(q1, q2, n)]
        attention_gives(
            a,
            kernels1,
            offsets1,
            len,
            paging1,
            mask1,
            cache0,
            c1,
            q1,
            k1,
            v1,
            z1,
        ) && attention_gives(
            a,
            kernels2,
            offsets2,
            len,
            paging2,
            mask2,
            cache0,
            c2,
            q2,
            k2,
            v2,
            z2,
        ) && heads_agree_at(q1, q2, n) && heads_agree_at(k1, k2, n) && heads_agree_at(v1, v2, n)
            ==> {
            &&& agree(z1, z2, 2, 0, n)
            &&& z1.dims.take(2) == seq![1, len]
            &&& n == len ==> c1 == c2
        }
}

/// The weights of an attention layer look at each position alone.
pub open spec fn attention_weights_look_at_positions<Q: QuantMethod>(
    a: AttentionWeights<Q>,
) -> bool {
    &&& looks_at_positions(a.attention_wq)
    &&& looks_at_positions(a.attention_wk)
    &&& looks_at_positions(a.attention_wv)
    &&& looks_at_positions(a.attention_wo)
}

/// What is projected and cut into heads agrees.
proof fn headed_agree<Q: QuantMethod>(
    a: AttentionWeights<Q>,
    w: Q,
    heads: usize,
    x1: Tensor,
    x2: Tensor,
    n: int,
    y1: Tensor,
    y2: Tensor,
)
    requires
        looks_at_positions(w),
        weight_obliges(w, tensor_dims(x1)[2], (heads * a.head_dim) as usize),
        heads * a.head_dim <= usize::MAX,
        plain(x1),
        agree(view_of(x1), view_of(x2), 2, 0, n),
        tensor_dims(x1).len() == 3,
        tensor_dims(x1)[0] == 1,
        fits(tensor_dims(x1)),
        fits(seq![1, tensor_dims(x1)[1], heads, a.head_dim]),
        a.is_headed(w, x1, heads, y1),
        a.is_headed(w, x2, heads, y2),
    ensures
        heads_agree_at(y1, y2, n),
{
    let len = tensor_dims(x1)[1];
    let size = a.head_dim;
    let inner = (heads * size) as usize;
    let dims = seq![1, len, heads, size];
    let p1 = choose|p: Tensor| #[trigger]
        projects(w, x1, p) && view_of(y1) == head_view(view_of(p), dims);
    let p2 = choose|p: Tensor| #[trigger]
        projects(w, x2, p) && view_of(y2) == head_view(view_of(p), dims);
    heads_side_by_side(1, len, heads, size);
    projected_dims(w, tensor_dims(x1)[2], inner, x1, p1);
    assert(agree(view_of(p1), view_of(p2), 2, 0, n));
    count_small(1, len, inner, 0, 0);
    count_small(1, len, heads, size, 0);
    count_small(heads, size, 0, 0, 0);
    count_small(inner, 0, 0, 0, 0);
    assert(1 * len * inner == 1 * len * heads * size) by (nonlinear_arith)
        requires
            inner == heads * size,
    ;
    assert(heads * size >= 0) by (nonlinear_arith);
    assert(dims.skip(2) =~= seq![heads, size]);
    assert(tensor_dims(p1).skip(2) =~= seq![inner]);
    assert(dims.take(2) =~= tensor_dims(p1).take(2));
    reshape_agree(view_of(p1), view_of(p2), 2, 0, n, dims, 2);
    swap_twice(reshaped(view_of(p1), dims), 1);
    swap_twice(reshaped(view_of(p2), dims), 1);
}

/// What an attention layer does for an input in main memory: queries, keys and values, what comes
/// out of attention for them, and that as it is projected.
proof fn attention_opened<Q: QuantMethod, K: AttentionKernels>(
    a: AttentionWeights<Q>,
    kernels: K,
    x: Tensor,
    offsets: &[usize],
    paging: Option<&K::Paging>,
    mask: K::Mask,
    cache0: K::Cache,
    cache1: K::Cache,
    r: Tensor,
) -> (o: (Tensor, Tensor, Tensor, Tensor, TensorView))
    requires
        plain(x),
        a.is_forward(kernels, x, offsets, paging, mask, cache0, cache1, r),
    ensures
        ({
            let (q0, k0, v0, z, u) = o;
            let len = tensor_dims(x)[1];
            &&& a.is_headed(a.attention_wq, x, a.n_head, q0)
            &&& a.is_headed(a.attention_wk, x, a.n_kv_head, k0)
            &&& a.is_headed(a.attention_wv, x, a.n_kv_head, v0)
            &&& attention_gives(
                a,
                kernels,
                offsets,
                len,
                paging,
                mask,
                cache0,
                cache1,
                q0,
                k0,
                v0,
                u,
            )
            &&& tensor_dims(z).len() == 3
            &&& tensor_dims(z)[0] == tensor_dims(x)[0]
            &&& tensor_dims(z)[1] == len
            &&& consistent(view_of(z))
            &&& tensor_words(z) == u.words
            &&& projects(a.attention_wo, z, r)
        }),
{
    let (q, k, v, y) = choose|q: Tensor, k: Tensor, v: Tensor, y: Tensor|
        {
            &&& #[trigger] a.is_turned(kernels, x, offsets, q, k, v)
            &&& #[trigger] a.is_attended(kernels, paging, mask, cache0, cache1, q, k, v, y)
            &&& a.is_closed(kernels, mask, x, y, r)
        };
    let (q0, k0, v0, at, q1, k1) = choose|
        q0: Tensor,
        k0: Tensor,
        v0: Tensor,
        at: Tensor,
        q1: Tensor,
        k1: Tensor,
    |
        {
            &&& #[trigger] a.is_headed(a.attention_wq, x, a.n_head, q0)
            &&& #[trigger] a.is_headed(a.attention_wk, x, a.n_kv_head, k0)
            &&& #[trigger] a.is_headed(a.attention_wv, x, a.n_kv_head, v0)
            &&& places(kernels, offsets, tensor_dims(x)[1], q0, at)
            &&& #[trigger] turns(kernels, q0, k0, at, q1, k1)
            &&& is_cast(view_of(q1), a.dtype, view_of(q))
            &&& is_cast(view_of(k1), a.dtype, view_of(k))
            &&& is_cast(view_of(v0), a.dtype, view_of(v))
        };
    let batch = tensor_dims(x)[0];
    let len = tensor_dims(x)[1];
    let width = (count(tensor_dims(y)) / ((batch * len) as nat)) as usize;
    let (custom, z) = choose|custom: bool, z: Tensor|
        {
            &&& #[trigger] masks(kernels, mask, custom)
            &&& tensor_dims(z) == seq![batch, len, width]
            &&& consistent(view_of(z))
            &&& tensor_dtype(z) == tensor_dtype(x)
            &&& cast_outcome(unturned(view_of(y), custom).words, tensor_dtype(x), tensor_words(z))
            &&& tensor_is_f32(x) ==> tensor_words(z) == unturned(view_of(y), custom).words
            &&& #[trigger] projects(a.attention_wo, z, r)
        };
    let u = unturned(view_of(y), custom);
    assert(turns(kernels, q0, k0, at, q1, k1));
    assert(a.is_attended(kernels, paging, mask, cache0, cache1, q, k, v, y));
    assert(masks(kernels, mask, custom));
    (q0, k0, v0, z, u)
}

/// An attention layer looks back only, if attention under its masks does.
#[verifier::rlimit(40)]
pub proof fn attention_looks_back<Q: QuantMethod, K: AttentionKernels>(
    a: AttentionWeights<Q>,
    kernels1: K,
    kernels2: K,
    x1: Tensor,
    x2: Tensor,
    n: int,
    offsets1: &[usize],
    offsets2: &[usize],
    paging1: Option<&K::Paging>,
    paging2: Option<&K::Paging>,
    mask1: K::Mask,
    mask2: K::Mask,
    cache0: K::Cache,
    cache1: K::Cache,
    cache2: K::Cache,
    r1: Tensor,
    r2: Tensor,
)
    requires
        attention_weights_look_at_positions(a),
        attention_sees_back(
            a,
            kernels1,
            kernels2,
            offsets1,
            offsets2,
            tensor_dims(x1)[1],
            paging1,
            paging2,
            mask1,
            mask2,
            cache0,
        ),
        plain(x1),
        plain(x2),
        agree(view_of(x1), view_of(x2), 2, 0, n),
        tensor_dims(x1).len() == 3,
        tensor_dims(x1)[0] == 1,
        a.is_obliged(kernels1, tensor_dims(x1), offsets1, paging1, mask1, cache0),
        a.is_forward(kernels1, x1, offsets1, paging1, mask1, cache0, cache1, r1),
        a.is_forward(kernels2, x2, offsets2, paging2, mask2, cache0, cache2, r2),
    ensures
        agree(view_of(r1), view_of(r2), 2, 0, n),
        n == tensor_dims(x1)[1] ==> cache1 == cache2,
{
    let len = tensor_dims(x1)[1];
    let (q1, k1, v1, z, v) = attention_opened(
        a,
        kernels1,
        x1,
        offsets1,
        paging1,
        mask1,
        cache0,
        cache1,
        r1,
    );
    let (q2, k2, v2, y, w) = attention_opened(
        a,
        kernels2,
        x2,
        offsets2,
        paging2,
        mask2,
        cache0,
        cache2,
        r2,
    );
    headed_agree(a, a.attention_wq, a.n_head, x1, x2, n, q1, q2);
    headed_agree(a, a.attention_wk, a.n_kv_head, x1, x2, n, k1, k2);
    headed_agree(a, a.attention_wv, a.n_kv_head, x1, x2, n, v1, v2);
    assert(agree(v, w, 2, 0, n));
    let zd = tensor_dims(z);
    let yd = tensor_dims(y);
    count_split(zd, 2);
    count_split(yd, 2);
    count_split(v.dims, 2);
    assert(zd.take(2) =~= seq![1, len]);
    assert(yd.take(2) =~= seq![1, len]);
    assert(zd.skip(2) =~= seq![zd[2]]);
    assert(yd.skip(2) =~= seq![yd[2]]);
    count_small(zd[2], 0, 0, 0, 0);
    count_small(yd[2], 0, 0, 0, 0);
    count_small(1, len, 0, 0, 0);
    let (l, wz, wy, wv) = (len as int, zd[2] as int, yd[2] as int, breadth(v.dims, 2));
    assert(wz == wy && wz == wv) by (nonlinear_arith)
        requires
            l > 0,
            1 * l * wz == 1 * l * wv,
            1 * l * wy == 1 * l * wv,
    ;
    assert(zd =~= yd);
    reshape_agree(v, w, 2, 0, n, zd, 2);
    assert(view_of(z) == reshaped(v, zd));
    assert(view_of(y) == reshaped(w, yd));
    assert(agree(view_of(z), view_of(y), 2, 0, n));
}

} // verus!
