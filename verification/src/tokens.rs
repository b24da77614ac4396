//! Tokens that come in parts: experts work on each token alone, so that running them on some
//! tokens and on more is running them on all of them.
use candle_core::quantized::QMatMul;
use candle_core::{DType, Tensor};
use vstd::prelude::*;

use crate::backend::{activates, activation_obliges, gathers, routes, Kernels};
use crate::moe::{is_combined, is_expert_forward, is_expert_sum, FusedMoe};
use crate::norm::stretch_last;
use crate::ops::{is_product, is_total};
use crate::positions::{behind, behind_facts, follows, index_last};
use crate::prompt::holds_both;
use crate::rows::row;
use crate::shape::{
    consistent, count, count_small, count_split, fits, reshaped, stretched_index, TensorView,
};
use crate::ssm::stretched_index_same;
use crate::tensor::{
    cast_of, dtype_is_f32, line_along, plain, product_of, qmatmul_dims, qmatmul_of, qmatmul_on_cpu,
    qmatmul_words, tensor_dims, tensor_dtype, tensor_words, total_of, view_of,
};

verus! {

/// The rows of `a`, counted by the first dimension, and then those of `b`.
pub open spec fn stacked(a: TensorView, b: TensorView) -> TensorView {
    TensorView {
        dims: a.dims.update(0, (a.dims[0] + b.dims[0]) as usize),
        words: a.words + b.words,
    }
}

/// The rows of `b` can stand below those of `a`.
pub open spec fn stacks(a: TensorView, b: TensorView) -> bool {
    &&& a.dims.len() >= 1
    &&& b.dims == a.dims.update(0, b.dims[0])
    &&& a.dims[0] + b.dims[0] <= usize::MAX
    &&& consistent(a)
    &&& consistent(b)
}

/// `c` holds the rows of `a` and then those of `b`.
pub open spec fn stacks_both(c: Tensor, a: Tensor, b: Tensor) -> bool {
    view_of(c) == stacked(view_of(a), view_of(b))
}

/// The rows of any two tensors that fit in memory together can be held by one.
pub open spec fn tensors_stack() -> bool {
    forall|a: Tensor, b: Tensor|
        plain(a) && plain(b) && #[trigger] stacks(view_of(a), view_of(b)) && fits(
            stacked(view_of(a), view_of(b)).dims,
        ) ==> exists|c: Tensor| plain(c) && #[trigger] stacks_both(c, a, b)
}

/// The router looks at each token alone.
pub open spec fn routes_alone<K: Kernels>(kernels: K, top_k: usize, renormalize: bool) -> bool {
    forall|
        l: Tensor,
        l1: Tensor,
        l2: Tensor,
        s1: Tensor,
        i1: Tensor,
        s2: Tensor,
        i2: Tensor,
    |
        #![trigger stacks_both(l, l1, l2), routes(
            kernels, l1, top_k, renormalize, Ok((s1, i1)),
        ), routes(kernels, l2, top_k, renormalize, Ok((s2, i2)))]
        stacks_both(l, l1, l2) && routes(kernels, l1, top_k, renormalize, Ok((s1, i1))) && routes(
            kernels,
            l2,
            top_k,
            renormalize,
            Ok((s2, i2)),
        ) ==> exists|s: Tensor, i: Tensor| #[trigger]
            routes(kernels, l, top_k, renormalize, Ok((s, i))) && stacks_both(s, s1, s2)
                && stacks_both(i, i1, i2)
}

/// Experts work on each token alone.
pub open spec fn gathers_alone<K: Kernels>(kernels: K, w: QMatMul) -> bool {
    forall|
        x: Tensor,
        x1: Tensor,
        x2: Tensor,
        i: Tensor,
        i1: Tensor,
        i2: Tensor,
        y1: Tensor,
        y2: Tensor,
    |
        #![trigger stacks_both(x, x1, x2), stacks_both(i, i1, i2), gathers(
            kernels, w, x1, i1, Ok(y1),
        ), gathers(kernels, w, x2, i2, Ok(y2))]
        stacks_both(x, x1, x2) && stacks_both(i, i1, i2) && gathers(kernels, w, x1, i1, Ok(y1))
            && gathers(kernels, w, x2, i2, Ok(y2)) ==> exists|y: Tensor| #[trigger]
            gathers(kernels, w, x, i, Ok(y)) && stacks_both(y, y1, y2)
}

/// The activation works on each token alone.
pub open spec fn activates_alone<K: Kernels>(kernels: K) -> bool {
    forall|
        a: Tensor,
        a1: Tensor,
        a2: Tensor,
        b: Tensor,
        b1: Tensor,
        b2: Tensor,
        y1: Tensor,
        y2: Tensor,
    |
        #![trigger stacks_both(a, a1, a2), stacks_both(b, b1, b2), activates(
            kernels, a1, b1, Ok(y1),
        ), activates(kernels, a2, b2, Ok(y2))]
        stacks_both(a, a1, a2) && stacks_both(b, b1, b2) && activates(kernels, a1, b1, Ok(y1))
            && activates(kernels, a2, b2, Ok(y2)) ==> exists|y: Tensor| #[trigger]
            activates(kernels, a, b, Ok(y)) && stacks_both(y, y1, y2)
}

proof fn stacked_facts(a: TensorView, b: TensorView)
    requires
        stacks(a, b),
    ensures
        ({
            let c = stacked(a, b);
            let w = count(a.dims.skip(1)) as int;
            &&& a.words.len() == a.dims[0] * w
            &&& b.words.len() == b.dims[0] * w
            &&& c.words.len() == c.dims[0] * w
            &&& c.dims[0] == a.dims[0] + b.dims[0]
            &&& consistent(c)
        }),
{
    let c = stacked(a, b);
    count_split(a.dims, 1);
    count_split(b.dims, 1);
    count_split(c.dims, 1);
    assert(a.dims.take(1) =~= seq![a.dims[0]]);
    assert(b.dims.take(1) =~= seq![b.dims[0]]);
    assert(c.dims.take(1) =~= seq![c.dims[0]]);
    count_small(a.dims[0], 0, 0, 0, 0);
    count_small(b.dims[0], 0, 0, 0, 0);
    count_small(c.dims[0], 0, 0, 0, 0);
    assert(b.dims.skip(1) =~= a.dims.skip(1));
    assert(c.dims.skip(1) =~= a.dims.skip(1));
    let w = count(a.dims.skip(1)) as int;
    assert((a.dims[0] + b.dims[0]) * w == a.dims[0] * w + b.dims[0] * w) by (nonlinear_arith);
}

/// What experts made is weighted with its scores for each token alone.
proof fn weighted_stacks(
    n1: usize,
    n2: usize,
    top_k: usize,
    width: usize,
    ys1: TensorView,
    ys2: TensorView,
    s1: TensorView,
    s2: TensorView,
    r1: TensorView,
    r2: TensorView,
)
    requires
        n1 + n2 <= usize::MAX,
        stacks(ys1, ys2),
        stacks(s1, s2),
        ys1.dims == seq![n1, top_k, width],
        ys2.dims == seq![n2, top_k, width],
        s1.dims == seq![n1, top_k],
        s2.dims == seq![n2, top_k],
        is_product(ys1, reshaped(s1, s1.dims.push(1)), r1),
        is_product(ys2, reshaped(s2, s2.dims.push(1)), r2),
    ensures
        stacks(r1, r2),
        r1.dims == ys1.dims,
        r2.dims == ys2.dims,
        is_product(
            stacked(ys1, ys2),
            reshaped(stacked(s1, s2), stacked(s1, s2).dims.push(1)),
            stacked(r1, r2),
        ),
{
    let n = (n1 + n2) as usize;
    let a = stacked(ys1, ys2);
    let s = stacked(s1, s2);
    let b = reshaped(s, s.dims.push(1));
    let r = stacked(r1, r2);
    stacked_facts(ys1, ys2);
    stacked_facts(s1, s2);
    assert(s1.dims.push(1) =~= ys1.dims.update(2, 1));
    assert(s2.dims.push(1) =~= ys2.dims.update(2, 1));
    assert(b.dims =~= a.dims.update(2, 1));
    stretch_last(ys1.dims);
    stretch_last(ys2.dims);
    stretch_last(a.dims);
    stacked_facts(r1, r2);
    assert(ys1.dims.skip(1) =~= seq![top_k, width]);
    assert(s1.dims.skip(1) =~= seq![top_k]);
    count_small(top_k, width, 0, 0, 0);
    count_small(top_k, 0, 0, 0, 0);
    let m = width as int;
    let k = top_k as int;
    let cut = ys1.words.len() as int;
    let cut_s = s1.words.len() as int;
    let t1 = n1 as int;
    let t2 = n2 as int;
    assert(cut == cut_s * m && ys2.words.len() == s2.words.len() * m) by (nonlinear_arith)
        requires
            cut == t1 * (k * m),
            cut_s == t1 * k,
            ys2.words.len() == t2 * (k * m),
            s2.words.len() == t2 * k,
    ;
    let ns2 = s2.words.len() as int;
    assert forall|i: int| 0 <= i < r.words.len() implies product_of(
        a.words[stretched_index(a.dims, r.dims, i)],
        b.words[stretched_index(b.dims, r.dims, i)],
        #[trigger] r.words[i],
    ) by {
        stretched_index_same(a.dims, i);
        index_last(a.dims, i);
        if i < cut {
            stretched_index_same(ys1.dims, i);
            index_last(ys1.dims, i);
            assert(0 <= i / m < cut_s) by (nonlinear_arith)
                requires
                    0 <= i < cut_s * m,
                    m > 0,
            ;
            assert(r.words[i] == r1.words[i]);
        } else {
            let j = i - cut;
            stretched_index_same(ys2.dims, j);
            index_last(ys2.dims, j);
            assert(i / m == cut_s + j / m && 0 <= j / m < ns2) by (nonlinear_arith)
                requires
                    i == cut_s * m + j,
                    0 <= j < ns2 * m,
                    m > 0,
            ;
            assert(r.words[i] == r2.words[j]);
        }
    }
}

/// What experts made is summed up for each token alone.
proof fn total_stacks(
    n1: usize,
    n2: usize,
    top_k: usize,
    width: usize,
    a1: TensorView,
    a2: TensorView,
    r1: TensorView,
    r2: TensorView,
)
    requires
        n1 + n2 <= usize::MAX,
        stacks(a1, a2),
        a1.dims == seq![n1, top_k, width],
        a2.dims == seq![n2, top_k, width],
        is_total(a1, 1, r1),
        is_total(a2, 1, r2),
    ensures
        stacks(r1, r2),
        r1.dims == seq![n1, width],
        r2.dims == seq![n2, width],
        is_total(stacked(a1, a2), 1, stacked(r1, r2)),
{
    let a = stacked(a1, a2);
    let r = stacked(r1, r2);
    stacked_facts(a1, a2);
    assert(r1.dims =~= seq![n1, width]);
    assert(r2.dims =~= seq![n2, width]);
    assert(r2.dims =~= r1.dims.update(0, n2));
    stacked_facts(r1, r2);
    assert(r.dims =~= a.dims.remove(1));
    assert(a1.dims.skip(1) =~= seq![top_k, width]);
    assert(r1.dims.skip(1) =~= seq![width]);
    assert(a.dims.skip(2) =~= seq![width]);
    assert(a1.dims.skip(2) =~= seq![width]);
    assert(a2.dims.skip(2) =~= seq![width]);
    count_small(top_k, width, 0, 0, 0);
    count_small(width, 0, 0, 0, 0);
    let k = top_k as int;
    let m = width as int;
    let t1 = n1 as int;
    let t2 = n2 as int;
    let cut = t1 * m;
    assert forall|o: int| 0 <= o < r.words.len() implies total_of(
        line_along(a.dims, a.words, 1, o),
        #[trigger] r.words[o],
    ) by {
        let l = line_along(a.dims, a.words, 1, o);
        if o < cut {
            let l1 = line_along(a1.dims, a1.words, 1, o);
            assert forall|j: int| 0 <= j < k implies #[trigger] l[j] == l1[j] by {
                line_index(o, j, t1, k, m);
            }
            assert(l =~= l1);
            assert(r.words[o] == r1.words[o]);
        } else {
            let q = o - cut;
            let l2 = line_along(a2.dims, a2.words, 1, q);
            assert(m > 0 && o / m == t1 + q / m && o % m == q % m) by (nonlinear_arith)
                requires
                    o == t1 * m + q,
                    0 <= q < t2 * m,
                    0 <= m,
            ;
            assert forall|j: int| 0 <= j < k implies #[trigger] l[j] == l2[j] by {
                line_index(q, j, t2, k, m);
                let p = q / m;
                let e = q % m;
                assert(((t1 + p) * k + j) * m + e == t1 * (k * m) + ((p * k + j) * m + e))
                    by (nonlinear_arith);
            }
            assert(l =~= l2);
            assert(r.words[o] == r2.words[q]);
        }
    }
}

proof fn line_index(o: int, j: int, t: int, k: int, m: int)
    requires
        0 <= o < t * m,
        0 <= j < k,
        0 <= m,
        0 <= t,
    ensures
        m > 0,
        0 <= ((o / m) * k + j) * m + o % m < t * (k * m),
{
    assert(m > 0 && 0 <= o / m < t && 0 <= o % m < m) by (nonlinear_arith)
        requires
            0 <= o < t * m,
            0 <= m,
    ;
    let p = o / m;
    let e = o % m;
    assert(0 <= p * k + j < t * k) by (nonlinear_arith)
        requires
            0 <= p < t,
            0 <= j < k,
    ;
    let c = p * k + j;
    let d = t * k;
    assert(0 <= c * m + e < d * m) by (nonlinear_arith)
        requires
            0 <= c < d,
            0 <= e < m,
    ;
    assert(d * m == t * (k * m)) by (nonlinear_arith)
        requires
            d == t * k,
    ;
}

/// What experts made is combined for each token alone.
proof fn combined_stacks(
    n1: usize,
    n2: usize,
    top_k: usize,
    width: usize,
    ys1: TensorView,
    ys2: TensorView,
    s1: TensorView,
    s2: TensorView,
    dtype: DType,
    r1: TensorView,
    r2: TensorView,
)
    requires
        n1 + n2 <= usize::MAX,
        dtype_is_f32(dtype),
        ys1.dims == seq![n1, top_k, width],
        ys2.dims == seq![n2, top_k, width],
        s1.dims == seq![n1, top_k],
        s2.dims == seq![n2, top_k],
        is_combined(ys1, s1, seq![1, n1, width], dtype, r1),
        is_combined(ys2, s2, seq![1, n2, width], dtype, r2),
    ensures
        is_combined(
            stacked(ys1, ys2),
            stacked(s1, s2),
            seq![1, (n1 + n2) as usize, width],
            dtype,
            behind(r1, r2),
        ),
{
    let n = (n1 + n2) as usize;
    let (weighted1, total1) = choose|weighted: TensorView, total: TensorView|
        {
            &&& consistent(ys1)
            &&& consistent(s1)
            &&& is_product(ys1, reshaped(s1, s1.dims.push(1)), weighted)
            &&& #[trigger] is_expert_sum(weighted, total)
            &&& count(total.dims) == count(seq![1, n1, width])
            &&& r1.dims == seq![1, n1, width]
            &&& consistent(r1)
            &&& crate::tensor::cast_outcome(total.words, dtype, r1.words)
            &&& dtype_is_f32(dtype) ==> r1.words == total.words
        };
    let (weighted2, total2) = choose|weighted: TensorView, total: TensorView|
        {
            &&& consistent(ys2)
            &&& consistent(s2)
            &&& is_product(ys2, reshaped(s2, s2.dims.push(1)), weighted)
            &&& #[trigger] is_expert_sum(weighted, total)
            &&& count(total.dims) == count(seq![1, n2, width])
            &&& r2.dims == seq![1, n2, width]
            &&& consistent(r2)
            &&& crate::tensor::cast_outcome(total.words, dtype, r2.words)
            &&& dtype_is_f32(dtype) ==> r2.words == total.words
        };
    assert(ys2.dims =~= ys1.dims.update(0, n2));
    assert(s2.dims =~= s1.dims.update(0, n2));
    weighted_stacks(n1, n2, top_k, width, ys1, ys2, s1, s2, weighted1, weighted2);
    total_stacks(n1, n2, top_k, width, weighted1, weighted2, total1, total2);
    stacked_facts(ys1, ys2);
    stacked_facts(s1, s2);
    stacked_facts(total1, total2);
    let total = stacked(total1, total2);
    let weighted = stacked(weighted1, weighted2);
    let r = behind(r1, r2);
    assert(r2.dims =~= r1.dims.update(1, n2));
    behind_facts(r1, r2);
    assert(r.dims =~= seq![1, n, width]);
    assert(total.dims =~= seq![n, width]);
    count_small(n, width, 0, 0, 0);
    count_small(1, n, width, 0, 0);
    assert(1 * n * width == n * width) by (nonlinear_arith);
    assert forall|i: int| 0 <= i < r.words.len() implies cast_of(
        total.words[i],
        dtype,
        #[trigger] r.words[i],
    ) by {
        let cut = r1.words.len() as int;
        if i < cut {
            assert(r.words[i] == r1.words[i]);
        } else {
            assert(r.words[i] == r2.words[i - cut]);
        }
    }
    assert(r.words =~= total.words);
    assert(is_expert_sum(weighted, total));
}

/// Router, experts and activation work on each token alone.
pub open spec fn works_alone<K: Kernels>(m: FusedMoe, kernels: K) -> bool {
    &&& routes_alone(kernels, m.num_experts_per_tok, m.norm_topk_prob)
    &&& gathers_alone(kernels, m.gate_experts)
    &&& gathers_alone(kernels, m.up_experts)
    &&& gathers_alone(kernels, m.down_experts)
    &&& activates_alone(kernels)
}

/// `x` holds the tokens of `x1` and then those of `x2`.
pub open spec fn tokens_come_in_parts(x: Tensor, x1: Tensor, x2: Tensor) -> bool {
    &&& plain(x)
    &&& plain(x1)
    &&& plain(x2)
    &&& tensor_dtype(x1) == tensor_dtype(x)
    &&& tensor_dtype(x2) == tensor_dtype(x)
    &&& tensor_dims(x1).len() == 3
    &&& follows(view_of(x1), view_of(x2))
    &&& holds_both(x, x1, x2)
}

/// Tokens under two dimensions or three, one below the other.
proof fn flat_stacks(x: Tensor, x1: Tensor, x2: Tensor)
    requires
        tokens_come_in_parts(x, x1, x2),
    ensures
        ({
            let n1 = tensor_dims(x1)[1];
            let n2 = tensor_dims(x2)[1];
            let n = tensor_dims(x)[1];
            let w = tensor_dims(x1)[2];
            let a1 = reshaped(view_of(x1), seq![n1, w]);
            let a2 = reshaped(view_of(x2), seq![n2, w]);
            let b1 = reshaped(view_of(x1), seq![n1, 1, w]);
            let b2 = reshaped(view_of(x2), seq![n2, 1, w]);
            &&& n == n1 + n2
            &&& tensor_dims(x1)[0] * tensor_dims(x1)[1] == n1
            &&& tensor_dims(x2)[0] * tensor_dims(x2)[1] == n2
            &&& tensor_dims(x)[0] * tensor_dims(x)[1] == n
            &&& tensor_dims(x1) == seq![1, n1, w]
            &&& tensor_dims(x2) == seq![1, n2, w]
            &&& tensor_dims(x) == seq![1, n, w]
            &&& stacks(a1, a2)
            &&& stacked(a1, a2) == reshaped(view_of(x), seq![n, w])
            &&& stacks(b1, b2)
            &&& stacked(b1, b2) == reshaped(view_of(x), seq![n, 1, w])
        }),
{
    let n1 = tensor_dims(x1)[1];
    let n2 = tensor_dims(x2)[1];
    let n = tensor_dims(x)[1];
    let w = tensor_dims(x1)[2];
    behind_facts(view_of(x1), view_of(x2));
    assert(tensor_dims(x1) =~= seq![1, n1, w]);
    assert(tensor_dims(x2) =~= seq![1, n2, w]);
    assert(tensor_dims(x) =~= seq![1, n, w]);
    let one = tensor_dims(x1)[0];
    assert(one * n1 == n1 && one * n2 == n2 && one * n == n) by (nonlinear_arith)
        requires
            one == 1,
    ;
    count_small(1, n1, w, 0, 0);
    count_small(1, n2, w, 0, 0);
    count_small(n1, w, 0, 0, 0);
    count_small(n2, w, 0, 0, 0);
    count_small(n1, 1, w, 0, 0);
    count_small(n2, 1, w, 0, 0);
    assert(1 * n1 * w == n1 * w && n1 * 1 * w == n1 * w && 1 * n2 * w == n2 * w && n2 * 1 * w == n2
        * w) by (nonlinear_arith);
    assert(seq![n2, w] =~= seq![n1, w].update(0, n2));
    assert(seq![n2, 1, w] =~= seq![n1, 1, w].update(0, n2));
    assert(seq![n, w] =~= seq![n1, w].update(0, n));
    assert(seq![n, 1, w] =~= seq![n1, 1, w].update(0, n));
}

/// What obliging experts make of tokens in main memory.
pub proof fn worked_plainly<K: Kernels>(
    m: FusedMoe,
    kernels: K,
    tokens: Tensor,
    indices: Tensor,
    n: usize,
    width: usize,
    inner: usize,
    gate: Tensor,
    up: Tensor,
    activated: Tensor,
)
    requires
        plain(tokens),
        tensor_dims(tokens) == seq![n, 1, width],
        fits(seq![n, m.num_experts_per_tok, inner]),
        activation_obliges(kernels),
        m.experts_are_obliging(kernels, indices, n, width, inner),
        gathers(kernels, m.gate_experts, tokens, indices, Ok(gate)),
        gathers(kernels, m.up_experts, tokens, indices, Ok(up)),
        activates(kernels, gate, up, Ok(activated)),
    ensures
        plain(activated),
        tensor_dims(activated) == seq![n, m.num_experts_per_tok, inner],
        forall|y: Tensor| #[trigger]
            gathers(kernels, m.down_experts, activated, indices, Ok(y)) ==> tensor_dims(y) == seq![
                n,
                m.num_experts_per_tok,
                width,
            ],
{
}

/// Once the router's weights have done their work, experts work on each token alone: what comes
/// out for some tokens and for more can come out for all of them together.
pub proof fn routed_tokens_split<K: Kernels>(
    m: FusedMoe,
    kernels: K,
    x: Tensor,
    x1: Tensor,
    x2: Tensor,
    logits: Tensor,
    l1: Tensor,
    l2: Tensor,
    r: Tensor,
    r1: Tensor,
    r2: Tensor,
)
    requires
        tokens_come_in_parts(x, x1, x2),
        tensors_stack(),
        works_alone(m, kernels),
        stacks_both(logits, l1, l2),
        m.is_obliged(kernels, tensor_dims(x), logits),
        m.is_obliged(kernels, tensor_dims(x1), l1),
        m.is_obliged(kernels, tensor_dims(x2), l2),
        m.is_spread(kernels, x1, l1, r1),
        m.is_spread(kernels, x2, l2, r2),
        holds_both(r, r1, r2),
    ensures
        m.is_spread(kernels, x, logits, r),
{
    let n1 = tensor_dims(x1)[1];
    let n2 = tensor_dims(x2)[1];
    let n = tensor_dims(x)[1];
    let w = tensor_dims(x1)[2];
    let top_k = m.num_experts_per_tok;
    let dtype = tensor_dtype(x);
    flat_stacks(x, x1, x2);
    let (apart1, s1, i1, ys1) = choose|apart: Tensor, scores: Tensor, indices: Tensor, ys: Tensor|
        {
            &&& view_of(apart) == reshaped(view_of(x1), seq![n1, 1, w])
            &&& plain(x1) ==> plain(apart)
            &&& #[trigger] m.is_routed(kernels, l1, scores, indices)
            &&& #[trigger] m.is_worked(kernels, apart, indices, ys)
            &&& is_combined(
                view_of(ys),
                view_of(scores),
                tensor_dims(x1),
                tensor_dtype(x1),
                view_of(r1),
            )
        };
    let (apart2, s2, i2, ys2) = choose|apart: Tensor, scores: Tensor, indices: Tensor, ys: Tensor|
        {
            &&& view_of(apart) == reshaped(view_of(x2), seq![n2, 1, w])
            &&& plain(x2) ==> plain(apart)
            &&& #[trigger] m.is_routed(kernels, l2, scores, indices)
            &&& #[trigger] m.is_worked(kernels, apart, indices, ys)
            &&& is_combined(
                view_of(ys),
                view_of(scores),
                tensor_dims(x2),
                tensor_dtype(x2),
                view_of(r2),
            )
        };
    let apart = choose|c: Tensor| plain(c) && #[trigger] stacks_both(c, apart1, apart2);
    assert(stacks(view_of(apart1), view_of(apart2)));
    assert(stacks_both(apart, apart1, apart2));
    assert(stacks_both(logits, l1, l2));
    let (s, i) = choose|s: Tensor, i: Tensor| #[trigger]
        routes(kernels, logits, top_k, m.norm_topk_prob, Ok((s, i))) && stacks_both(s, s1, s2)
            && stacks_both(i, i1, i2);
    assert(m.is_routed(kernels, logits, s, i));
    let inner1 = choose|inner: usize| #[trigger] m.all_oblige(kernels, l1, n1, w, inner);
    let inner2 = choose|inner: usize| #[trigger] m.all_oblige(kernels, l2, n2, w, inner);
    let inner = choose|inner: usize| #[trigger] m.all_oblige(kernels, logits, n, w, inner);
    let (gate1, up1, act1) = choose|gate: Tensor, up: Tensor, activated: Tensor|
        {
            &&& is_expert_forward(kernels, m.gate_experts, apart1, i1, gate)
            &&& is_expert_forward(kernels, m.up_experts, apart1, i1, up)
            &&& #[trigger] activates(kernels, gate, up, Ok(activated))
            &&& is_expert_forward(kernels, m.down_experts, activated, i1, ys1)
        };
    let (gate2, up2, act2) = choose|gate: Tensor, up: Tensor, activated: Tensor|
        {
            &&& is_expert_forward(kernels, m.gate_experts, apart2, i2, gate)
            &&& is_expert_forward(kernels, m.up_experts, apart2, i2, up)
            &&& #[trigger] activates(kernels, gate, up, Ok(activated))
            &&& is_expert_forward(kernels, m.down_experts, activated, i2, ys2)
        };
    worked_plainly(m, kernels, apart1, i1, n1, w, inner1, gate1, up1, act1);
    worked_plainly(m, kernels, apart2, i2, n2, w, inner2, gate2, up2, act2);
    assert(gathers(kernels, m.down_experts, act1, i1, Ok(ys1)));
    assert(gathers(kernels, m.down_experts, act2, i2, Ok(ys2)));
    let gate = choose|y: Tensor| #[trigger]
        gathers(kernels, m.gate_experts, apart, i, Ok(y)) && stacks_both(y, gate1, gate2);
    let up = choose|y: Tensor| #[trigger]
        gathers(kernels, m.up_experts, apart, i, Ok(y)) && stacks_both(y, up1, up2);
    assert(stacks_both(gate, gate1, gate2) && stacks_both(up, up1, up2));
    let act = choose|y: Tensor| #[trigger]
        activates(kernels, gate, up, Ok(y)) && stacks_both(y, act1, act2);
    assert(stacks_both(act, act1, act2));
    worked_plainly(m, kernels, apart, i, n, w, inner, gate, up, act);
    let ys = choose|y: Tensor| #[trigger]
        gathers(kernels, m.down_experts, act, i, Ok(y)) && stacks_both(y, ys1, ys2);
    assert(gathers(kernels, m.down_experts, act, i, Ok(ys)));
    assert(activates(kernels, gate, up, Ok(act)));
    assert(m.is_worked(kernels, apart, i, ys));
    combined_stacks(
        n1,
        n2,
        top_k,
        w,
        view_of(ys1),
        view_of(ys2),
        view_of(s1),
        view_of(s2),
        dtype,
        view_of(r1),
        view_of(r2),
    );
}

/// The router's weights rate each token alone.
pub proof fn tokens_are_rated_alone(
    m: FusedMoe,
    flat: Tensor,
    flat1: Tensor,
    flat2: Tensor,
    logits: Tensor,
    l1: Tensor,
    l2: Tensor,
)
    requires
        qmatmul_dims(m.gate).len() == 2,
        tensor_dims(flat1).len() == 2,
        tensor_dims(l1).len() == 2,
        tensor_dims(l1)[0] == tensor_dims(flat1)[0],
        tensor_dims(l2)[0] == tensor_dims(flat2)[0],
        tensor_dims(l1)[1] == qmatmul_dims(m.gate)[0],
        stacks(view_of(flat1), view_of(flat2)),
        stacks(view_of(l1), view_of(l2)),
        stacks_both(flat, flat1, flat2),
        stacks_both(logits, l1, l2),
        m.is_rated(flat1, l1),
        m.is_rated(flat2, l2),
    ensures
        m.is_rated(flat, logits),
{
    let n1 = tensor_dims(flat1)[0];
    let n2 = tensor_dims(flat2)[0];
    let n = tensor_dims(flat)[0];
    let k = tensor_dims(flat1)[1];
    let g = qmatmul_dims(m.gate)[0];
    stacked_facts(view_of(flat1), view_of(flat2));
    stacked_facts(view_of(l1), view_of(l2));
    assert(tensor_dims(flat1).skip(1) =~= seq![k]);
    assert(tensor_dims(l1).skip(1) =~= seq![g]);
    count_small(k, 0, 0, 0, 0);
    count_small(g, 0, 0, 0, 0);
    assert(tensor_dims(flat).drop_last() =~= seq![n]);
    assert(tensor_dims(flat1).drop_last() =~= seq![n1]);
    assert(tensor_dims(flat2).drop_last() =~= seq![n2]);
    count_small(n, 0, 0, 0, 0);
    count_small(n1, 0, 0, 0, 0);
    count_small(n2, 0, 0, 0, 0);
    let x = tensor_words(flat);
    let out = tensor_words(logits);
    assert forall|i: int| 0 <= i < n implies qmatmul_of(
        qmatmul_dims(m.gate),
        qmatmul_words(m.gate),
        row(x, i, k as int),
        #[trigger] row(out, i, g as int),
    ) by {
        rows_stack(tensor_words(flat1), tensor_words(flat2), n1 as int, n2 as int, k as int, i);
        rows_stack(tensor_words(l1), tensor_words(l2), n1 as int, n2 as int, g as int, i);
        if i < n1 {
            assert(row(out, i, g as int) == row(tensor_words(l1), i, g as int));
        } else {
            assert(row(out, i, g as int) == row(tensor_words(l2), i - n1, g as int));
        }
    }
}

proof fn rows_stack(a: Seq<u32>, b: Seq<u32>, n1: int, n2: int, w: int, i: int)
    requires
        0 <= w,
        0 <= n1,
        0 <= i < n1 + n2,
        a.len() == n1 * w,
        b.len() == n2 * w,
    ensures
        i < n1 ==> row(a + b, i, w) == row(a, i, w),
        i >= n1 ==> row(a + b, i, w) == row(b, i - n1, w),
{
    if i < n1 {
        assert(0 <= i * w && (i + 1) * w == i * w + w && (i + 1) * w <= n1 * w) by (nonlinear_arith)
            requires
                0 <= i < n1,
                0 <= w,
        ;
        assert(row(a + b, i, w) =~= row(a, i, w));
    } else {
        let j = i - n1;
        assert(i * w == n1 * w + j * w && (i + 1) * w == n1 * w + (j + 1) * w && 0 <= j * w && (j
            + 1) * w == j * w + w && (j + 1) * w <= n2 * w && 0 <= n1 * w) by (nonlinear_arith)
            requires
                i == n1 + j,
                0 <= j < n2,
                0 <= w,
                0 <= n1,
        ;
        assert(row(a + b, i, w) =~= row(b, j, w));
    }
}

/// Tokens do not mix in the experts: what comes out for some tokens and for more can come out for
/// all of them together.
pub proof fn tokens_do_not_mix<K: Kernels>(
    m: FusedMoe,
    kernels: K,
    x: Tensor,
    x1: Tensor,
    x2: Tensor,
    r: Tensor,
    r1: Tensor,
    r2: Tensor,
)
    requires
        tokens_come_in_parts(x, x1, x2),
        tensors_stack(),
        works_alone(m, kernels),
        m.is_all_obliged(kernels, tensor_dims(x)),
        m.is_all_obliged(kernels, tensor_dims(x1)),
        m.is_all_obliged(kernels, tensor_dims(x2)),
        m.is_forward(kernels, x1, r1),
        m.is_forward(kernels, x2, r2),
        holds_both(r, r1, r2),
    ensures
        m.is_forward(kernels, x, r),
{
    let n1 = tensor_dims(x1)[1];
    let n2 = tensor_dims(x2)[1];
    let n = tensor_dims(x)[1];
    let w = tensor_dims(x1)[2];
    let g = qmatmul_dims(m.gate)[0];
    flat_stacks(x, x1, x2);
    let (flat1, l1) = choose|flat: Tensor, logits: Tensor|
        {
            &&& view_of(flat) == reshaped(view_of(x1), seq![n1, w])
            &&& #[trigger] m.is_rated(flat, logits)
            &&& tensor_dims(logits) == seq![n1, g]
            &&& consistent(view_of(logits))
            &&& plain(x1) && qmatmul_on_cpu(m.gate) ==> plain(flat) && plain(logits)
            &&& m.is_spread(kernels, x1, logits, r1)
        };
    let (flat2, l2) = choose|flat: Tensor, logits: Tensor|
        {
            &&& view_of(flat) == reshaped(view_of(x2), seq![n2, w])
            &&& #[trigger] m.is_rated(flat, logits)
            &&& tensor_dims(logits) == seq![n2, g]
            &&& consistent(view_of(logits))
            &&& plain(x2) && qmatmul_on_cpu(m.gate) ==> plain(flat) && plain(logits)
            &&& m.is_spread(kernels, x2, logits, r2)
        };
    assert(stacks(view_of(flat1), view_of(flat2)));
    assert(seq![n2, g] =~= seq![n1, g].update(0, n2));
    assert(stacks(view_of(l1), view_of(l2)));
    assert(stacked(view_of(l1), view_of(l2)).dims =~= seq![n, g]);
    assert(seq![n, w].update(1, g) =~= seq![n, g]);
    let flat = choose|c: Tensor| plain(c) && #[trigger] stacks_both(c, flat1, flat2);
    let logits = choose|c: Tensor| plain(c) && #[trigger] stacks_both(c, l1, l2);
    assert(stacks_both(flat, flat1, flat2) && stacks_both(logits, l1, l2));
    tokens_are_rated_alone(m, flat, flat1, flat2, logits, l1, l2);
    stacked_facts(view_of(l1), view_of(l2));
    assert(m.is_obliged(kernels, tensor_dims(x), logits));
    assert(m.is_obliged(kernels, tensor_dims(x1), l1));
    assert(m.is_obliged(kernels, tensor_dims(x2), l2));
    routed_tokens_split(m, kernels, x, x1, x2, logits, l1, l2, r, r1, r2);
}

} // verus!
