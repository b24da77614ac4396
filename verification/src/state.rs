//! What a layer that keeps a state makes of single elements: which channels become queries, keys and
//! values of which heads, how the delta rule is steered, and what is projected in the end.
use candle_core::{DType, Tensor};
use vstd::prelude::*;

use crate::backend::{projects, QuantMethod};
use crate::conv::is_convolved;
use crate::formulas::{
    decay_of_elements, gated_element, gated_norm_of_elements, is_done_by, is_least, l2_of_elements,
    scaled_element, soft, squared, vector_of, Arithmetic,
};
use crate::heads::{at3, at4, becomes, widens};
use crate::norm::{is_l2_normed, NORM_EPS};
use crate::ops::{is_sigmoid, is_silu};
use crate::positions::channel_words;
use crate::recurrence::{is_recurred, DeltaInputs};
use crate::shape::{consistent, count, count_small, narrowed, reshaped, TensorView};
use crate::ssm::SsmWeights;
use crate::tensor::{
    dtype_is_f32, plain, sigmoid_of, silu_of, tensor_dims, tensor_words, view_of,
};

verus! {

/// Indices of one item with positions, heads and vectors name an element.
proof fn within_one(t: int, h: int, i: int, len: int, heads: int, size: int)
    requires
        0 <= t < len,
        0 <= h < heads,
        0 <= i < size,
    ensures
        ({
            let all = heads * size;
            let c = h * size + i;
            let p = (t * heads + h) * size + i;
            &&& 0 <= c < all
            &&& p == t * all + c
            &&& p / all == t
            &&& p % all == c
            &&& p / size == t * heads + h
            &&& p % size == i
            &&& 0 <= p < len * heads * size
            &&& 0 <= p < 1 * len * heads * size
            &&& p < len * all
        }),
{
    let all = heads * size;
    let c = h * size + i;
    let y = t * heads + h;
    let p = y * size + i;
    assert(0 <= c < all) by (nonlinear_arith)
        requires
            c == h * size + i,
            all == heads * size,
            0 <= h < heads,
            0 <= i < size,
    ;
    assert(p == t * all + c) by (nonlinear_arith)
        requires
            p == y * size + i,
            y == t * heads + h,
            c == h * size + i,
            all == heads * size,
    ;
    assert(p / all == t && p % all == c) by (nonlinear_arith)
        requires
            p == t * all + c,
            0 <= c < all,
    ;
    assert(p / size == y && p % size == i) by (nonlinear_arith)
        requires
            p == y * size + i,
            0 <= i < size,
    ;
    assert(0 <= p < len * all) by (nonlinear_arith)
        requires
            p == t * all + c,
            0 <= c < all,
            0 <= t < len,
    ;
    assert(len * all == len * heads * size && 1 * len * heads * size == len * heads * size) by (
    nonlinear_arith)
        requires
            all == heads * size,
    ;
}

/// A range of the channels of one item, cut into vectors.
proof fn cut_elements(
    ar: Arithmetic,
    mixed: TensorView,
    act: TensorView,
    start: int,
    heads: usize,
    size: usize,
    t: int,
    h: int,
    i: int,
)
    requires
        is_done_by(ar),
        is_silu(mixed, act),
        mixed.dims.len() == 3,
        mixed.dims[0] == 1,
        0 <= start,
        start + heads * size <= mixed.dims[2],
        0 <= t < mixed.dims[1],
        0 <= h < heads,
        0 <= i < size,
    ensures
        ({
            let part = narrowed(act, 2, start, (heads * size) as usize);
            at4(reshaped(part, seq![1, mixed.dims[1], heads, size]), 0, t, h, i) == (ar.silu)(
                at3(mixed, 0, t, start + h * size + i),
            )
        }),
        reshaped(
            narrowed(act, 2, start, (heads * size) as usize),
            seq![1, mixed.dims[1], heads, size],
        ).words.len() == mixed.dims[1] * (heads * size),
{
    reveal(is_done_by);
    let all = (heads * size) as usize;
    let len = mixed.dims[1];
    let wide = mixed.dims[2] as int;
    channel_words(act, start, all);
    within_one(t, h, i, len as int, heads as int, size as int);
    let p = (t * heads + h) * size + i;
    let c = h * size + i;
    let part = narrowed(act, 2, start, all);
    assert(part.words[p] == act.words[(p / all as int) * wide + start + p % all as int]);
    let q = t * wide + start + c;
    assert(0 <= q < len * wide) by (nonlinear_arith)
        requires
            q == t * wide + (start + c),
            0 <= start + c < wide,
            0 <= t < len,
    ;
    assert(mixed.dims =~= seq![1, len, mixed.dims[2]]);
    count_small(1, len, mixed.dims[2], 0, 0);
    assert(1 * len * mixed.dims[2] == len * wide) by (nonlinear_arith)
        requires
            wide == mixed.dims[2],
    ;
    assert(silu_of(mixed.words[q], act.words[q]));
    assert((0 * len + t) * wide + (start + h * size + i) == q);
    assert((0 * len + t) == t);
}

/// The vector that stands in these channels of a position, activated.
pub open spec fn activated(
    ar: Arithmetic,
    mixed: TensorView,
    t: int,
    start: int,
    size: usize,
) -> Seq<u32> {
    Seq::new(size as nat, |j: int| (ar.silu)(at3(mixed, 0, t, start + j)))
}

/// Element `i` of a vector that is scaled to length one: divided by the root of the sum of squares,
/// or by the least length where that is larger.
pub open spec fn scaled_at(ar: Arithmetic, line: Seq<u32>, least: u32, i: int) -> u32 {
    (ar.quotient)(line[i], (ar.maximum)((ar.root)((ar.kept_total)(squared(ar, line))), least))
}

/// Vectors that are scaled and repeated for the heads of their group.
proof fn scaled_elements<Q: QuantMethod>(
    ar: Arithmetic,
    w: SsmWeights<Q>,
    mixed: TensorView,
    act: TensorView,
    start: int,
    least: u32,
    unit: TensorView,
    t: int,
    h: int,
    i: int,
)
    requires
        is_done_by(ar),
        is_silu(mixed, act),
        mixed.dims.len() == 3,
        mixed.dims[0] == 1,
        0 <= start,
        start + w.n_kv_heads * w.state_size <= mixed.dims[2],
        w.n_kv_heads > 0,
        w.n_heads == w.n_kv_heads * (w.n_heads / w.n_kv_heads),
        ({
            let part = narrowed(act, 2, start, (w.n_kv_heads * w.state_size) as usize);
            let x = reshaped(part, seq![1, mixed.dims[1], w.n_kv_heads, w.state_size]);
            &&& unit.dims == x.dims
            &&& consistent(unit)
            &&& forall|p: int|
                0 <= p < count(x.dims) ==> #[trigger] unit.words[p] == scaled_element(
                    ar,
                    x,
                    least,
                    p,
                )
        }),
        0 <= t < mixed.dims[1],
        0 <= h < w.n_heads,
        0 <= i < w.state_size,
    ensures
        at4(w.spread(unit), 0, t, h, i) == scaled_at(
            ar,
            activated(
                ar,
                mixed,
                t,
                start + (h / (w.n_heads / w.n_kv_heads) as int) * w.state_size,
                w.state_size,
            ),
            least,
            i,
        ),
        w.spread(unit).dims == seq![1, mixed.dims[1], w.n_heads, w.state_size],
{
    let (groups, heads, size) = (w.n_kv_heads as int, w.n_heads as int, w.state_size as int);
    let repeat = heads / groups;
    let len = mixed.dims[1];
    let part = narrowed(act, 2, start, (w.n_kv_heads * w.state_size) as usize);
    let x = reshaped(part, seq![1, len, w.n_kv_heads, w.state_size]);
    assert(repeat > 0) by (nonlinear_arith)
        requires
            heads == groups * repeat,
            heads > 0,
            groups > 0,
    ;
    let g = h / repeat;
    assert(0 <= g < groups && g * repeat <= h < g * repeat + repeat) by (nonlinear_arith)
        requires
            g == h / repeat,
            0 <= h < groups * repeat,
            repeat > 0,
    ;
    within_one(t, g, i, len as int, groups, size);
    count_small(1, len, w.n_kv_heads, w.state_size, 0);
    let p = (t * groups + g) * size + i;
    assert(unit.words[p] == scaled_element(ar, x, least, p));
    let line = activated(ar, mixed, t, start + g * size, w.state_size);
    assert forall|j: int| 0 <= j < size implies line[j] == x.words[(p / size) * size + j] by {
        within_one(t, g, j, len as int, groups, size);
        cut_elements(ar, mixed, act, start, w.n_kv_heads, w.state_size, t, g, j);
        let y = t * groups + g;
        assert((0 * len + t) * groups + g == y);
        assert(at4(x, 0, t, g, j) == x.words[y * size + j]);
        assert(start + g * size + j == start + (g * size) + j);
    }
    assert(vector_of(x, p) =~= line);
    assert(x.words[p] == line[i]);
    assert(unit.words[p] == scaled_at(ar, line, least, i));
    // Where the head finds it.
    within_one(t, h, i, len as int, heads, size);
    let e = (t * heads + h) * size + i;
    assert((t * heads + h) / repeat == t * groups + g) by (nonlinear_arith)
        requires
            heads == groups * repeat,
            g * repeat <= h < g * repeat + repeat,
            repeat > 0,
    ;
    assert((0 * len + t) * heads + h == t * heads + h);
    if w.n_kv_heads == w.n_heads {
        assert(repeat == 1) by (nonlinear_arith)
            requires
                heads == groups * repeat,
                heads == groups,
                groups > 0,
        ;
        assert(g == h) by (nonlinear_arith)
            requires
                repeat == 1,
                g * repeat <= h < g * repeat + repeat,
        ;
        assert(e == p);
        assert(unit.dims =~= seq![1, len, w.n_heads, w.state_size]);
    } else {
        let all = w.spread(unit);
        assert(all.dims =~= seq![1, len, w.n_heads, w.state_size]);
        assert(unit.words.len() * repeat == len * heads * size) by {
            assert(unit.words.len() == 1 * len * groups * size);
            assert((1 * len * groups * size) * repeat == len * (groups * repeat) * size) by (
            nonlinear_arith);
        }
        assert(all.words[e] == unit.words[(e / size / repeat) * size + e % size]);
    }
}

/// What goes into the delta rule: queries and keys are made of the first two ranges of channels,
/// scaled to length one, each for all heads of its group; values are made of the last range. The decay
/// and `beta` are made of projections of their own.
pub open spec fn makes_inputs<Q: QuantMethod>(
    ar: Arithmetic,
    w: SsmWeights<Q>,
    len: usize,
    mixed: TensorView,
    alpha: TensorView,
    raw: TensorView,
    least_q: u32,
    least_k: u32,
    x: DeltaInputs,
) -> bool {
    let keys = w.n_kv_heads * w.state_size;
    let repeat = (w.n_heads / w.n_kv_heads) as int;
    let wide = seq![1, len, w.n_heads, w.state_size];
    let slim = seq![1, len, w.n_heads];
    &&& x.q.dims == wide
    &&& x.k.dims == wide
    &&& x.v.dims == wide
    &&& x.decay.dims == slim
    &&& x.beta.dims == slim
    &&& forall|t: int, h: int, i: int|
        0 <= t < len && 0 <= h < w.n_heads && 0 <= i < w.state_size ==> {
            &&& #[trigger] at4(x.q, 0, t, h, i) == scaled_at(
                ar,
                activated(ar, mixed, t, (h / repeat) * w.state_size, w.state_size),
                least_q,
                i,
            )
            &&& at4(x.k, 0, t, h, i) == scaled_at(
                ar,
                activated(ar, mixed, t, keys + (h / repeat) * w.state_size, w.state_size),
                least_k,
                i,
            )
            &&& at4(x.v, 0, t, h, i) == (ar.silu)(
                at3(mixed, 0, t, 2 * keys + h * w.state_size + i),
            )
        }
    &&& forall|t: int, h: int|
        0 <= t < len && 0 <= h < w.n_heads ==> {
            &&& #[trigger] at3(x.decay, 0, t, h) == (ar.exp)(
                (ar.product)(
                    soft(ar, (ar.wide_sum)(at3(alpha, 0, t, h), tensor_words(w.ssm_dt)[h])),
                    tensor_words(w.ssm_a)[h],
                ),
            )
            &&& at3(x.beta, 0, t, h) == (ar.sigmoid)(at3(raw, 0, t, h))
        }
}

/// What is projected in the end: what the delta rule put out, each vector divided by its root mean
/// square, or by the least such where that is larger, times the weight of its index, times the SiLU
/// of a gate of its own.
pub open spec fn makes_flat<Q: QuantMethod>(
    ar: Arithmetic,
    w: SsmWeights<Q>,
    len: usize,
    out: TensorView,
    gate: TensorView,
    least: u32,
    flat: TensorView,
) -> bool {
    &&& flat.dims == seq![1, len, w.inner_size]
    &&& forall|t: int, h: int, i: int|
        #![trigger at4(out, 0, t, h, i)]
        0 <= t < len && 0 <= h < w.n_heads && 0 <= i < w.state_size ==> at3(
            flat,
            0,
            t,
            h * w.state_size + i,
        ) == (ar.product)(
            (ar.product)(
                (ar.quotient)(
                    at4(out, 0, t, h, i),
                    (ar.maximum)(
                        (ar.root)(
                            (ar.kept_mean)(
                                squared(
                                    ar,
                                    Seq::new(
                                        w.state_size as nat,
                                        |j: int| at4(out, 0, t, h, j),
                                    ),
                                ),
                            ),
                        ),
                        least,
                    ),
                ),
                tensor_words(w.ssm_norm)[i],
            ),
            (ar.silu)(at3(gate, 0, t, h * w.state_size + i)),
        )
}

proof fn steered_elements<Q: QuantMethod>(
    ar: Arithmetic,
    w: SsmWeights<Q>,
    len: usize,
    alpha: TensorView,
    raw: TensorView,
    decay: TensorView,
    beta: TensorView,
    t: int,
    h: int,
)
    requires
        is_done_by(ar),
        alpha.dims == seq![1, len, w.n_heads],
        raw.dims == seq![1, len, w.n_heads],
        w.is_decay(alpha, decay),
        is_sigmoid(raw, beta),
        0 <= t < len,
        0 <= h < w.n_heads,
    ensures
        decay.dims == alpha.dims,
        beta.dims == raw.dims,
        at3(decay, 0, t, h) == (ar.exp)(
            (ar.product)(
                soft(ar, (ar.wide_sum)(at3(alpha, 0, t, h), tensor_words(w.ssm_dt)[h])),
                tensor_words(w.ssm_a)[h],
            ),
        ),
        at3(beta, 0, t, h) == (ar.sigmoid)(at3(raw, 0, t, h)),
{
    let n = w.n_heads as int;
    let p = t * n + h;
    count_small(1, len, w.n_heads, 0, 0);
    assert(0 <= p < 1 * len * n && p % n == h) by (nonlinear_arith)
        requires
            p == t * n + h,
            0 <= t < len,
            0 <= h < n,
    ;
    assert((0 * len + t) * n + h == p);
    decay_of_elements(ar, w, alpha, decay, p);
    reveal(is_done_by);
    assert(sigmoid_of(raw.words[p], beta.words[p]));
}

proof fn flat_elements<Q: QuantMethod>(
    ar: Arithmetic,
    w: SsmWeights<Q>,
    len: usize,
    out: TensorView,
    gate: TensorView,
    dtype: DType,
    flat: TensorView,
) -> (least: u32)
    requires
        is_done_by(ar),
        w.inner_size == w.n_heads * w.state_size,
        out.dims == w.head_dims(1, len),
        gate.dims == seq![1, len, w.inner_size],
        exists|gated: TensorView| #[trigger]
            w.is_gated_by(1, len, gate, out, dtype, gated) && flat == reshaped(
                gated,
                seq![1, len, w.inner_size],
            ),
    ensures
        is_least(dtype, least),
        makes_flat(ar, w, len, out, gate, least, flat),
{
    let gated = choose|gated: TensorView| #[trigger]
        w.is_gated_by(1, len, gate, out, dtype, gated) && flat == reshaped(
            gated,
            seq![1, len, w.inner_size],
        );
    let (n, d) = (w.n_heads as int, w.state_size as int);
    let cut = reshaped(gate, w.head_dims(1, len));
    count_small(1, len, w.n_heads, w.state_size, 0);
    gated_norm_of_elements(ar, out, cut, view_of(w.ssm_norm), dtype, gated);
    let least = choose|least: u32| #[trigger]
        is_least(dtype, least) && forall|i: int|
            0 <= i < count(out.dims) ==> #[trigger] gated.words[i] == gated_element(
                ar,
                out,
                cut,
                view_of(w.ssm_norm),
                least,
                i,
            );
    assert forall|t: int, h: int, i: int|
        #![trigger at4(out, 0, t, h, i)]
        0 <= t < len && 0 <= h < w.n_heads && 0 <= i < w.state_size implies at3(
        flat,
        0,
        t,
        h * w.state_size + i,
    ) == (ar.product)(
        (ar.product)(
            (ar.quotient)(
                at4(out, 0, t, h, i),
                (ar.maximum)(
                    (ar.root)(
                        (ar.kept_mean)(
                            squared(
                                ar,
                                Seq::new(w.state_size as nat, |j: int| at4(out, 0, t, h, j)),
                            ),
                        ),
                    ),
                    least,
                ),
            ),
            tensor_words(w.ssm_norm)[i],
        ),
        (ar.silu)(at3(gate, 0, t, h * w.state_size + i)),
    ) by {
        within_one(t, h, i, len as int, n, d);
        let p = (t * n + h) * d + i;
        assert((0 * len + t) * n + h == t * n + h);
        assert((0 * len + t) == t);
        assert(gated.words[p] == gated_element(ar, out, cut, view_of(w.ssm_norm), least, p));
        let line = Seq::new(w.state_size as nat, |j: int| at4(out, 0, t, h, j));
        assert forall|j: int| 0 <= j < d implies line[j] == vector_of(out, p)[j] by {
            assert(p / d == t * n + h);
        }
        assert(vector_of(out, p) =~= line);
        assert(at3(flat, 0, t, h * d + i) == gated.words[p]);
        assert(at3(gate, 0, t, h * d + i) == cut.words[p]);
    }
    least
}

proof fn inputs_elements<Q: QuantMethod>(
    ar: Arithmetic,
    w: SsmWeights<Q>,
    len: usize,
    qkv: TensorView,
    conv0: Option<Tensor>,
    conv1: Option<Tensor>,
    alpha: TensorView,
    raw: TensorView,
    dtype: DType,
    x: DeltaInputs,
) -> (o: (TensorView, u32, u32))
    requires
        is_done_by(ar),
        qkv.dims.len() == 3,
        qkv.dims[0] == 1,
        qkv.dims[1] == len,
        len > 0,
        2 * (w.n_kv_heads * w.state_size) + w.n_heads * w.state_size <= qkv.dims[2],
        w.n_kv_heads > 0,
        w.n_heads == w.n_kv_heads * (w.n_heads / w.n_kv_heads),
        w.is_made_of(1, len, qkv, conv0, conv1, dtype, x.q, x.k, x.v),
        alpha.dims == seq![1, len, w.n_heads],
        raw.dims == seq![1, len, w.n_heads],
        w.n_heads > 0,
        w.state_size > 0,
        w.is_decay(alpha, x.decay),
        is_sigmoid(raw, x.beta),
    ensures
        is_convolved(qkv, view_of(w.ssm_conv1d), conv0, conv1, o.0),
        becomes(0x3586_37BD, dtype, o.1),
        becomes(0x3586_37BD, dtype, o.2),
        makes_inputs(ar, w, len, o.0, alpha, raw, o.1, o.2, x),
{
    let key_size = (w.n_kv_heads * w.state_size) as usize;
    let value_size = (w.n_heads * w.state_size) as usize;
    let keys = w.n_kv_heads * w.state_size;
    assert(keys >= 0 && w.n_heads * w.state_size >= 0) by (nonlinear_arith)
        requires
            keys == w.n_kv_heads * w.state_size,
    ;
    let key_dims = seq![1, len, w.n_kv_heads, w.state_size];
    let value_dims = seq![1, len, w.n_heads, w.state_size];
    let repeat = (w.n_heads / w.n_kv_heads) as int;
    let (q0, k0) = choose|q0: TensorView, k0: TensorView|
        {
            &&& w.is_cut(1, len, qkv, conv0, conv1, q0, k0, x.v)
            &&& #[trigger] w.is_scaled(dtype, q0, k0, x.q, x.k)
        };
    let (mixed, act) = choose|mixed: TensorView, act: TensorView|
        {
            &&& is_convolved(qkv, view_of(w.ssm_conv1d), conv0, conv1, mixed)
            &&& #[trigger] is_silu(mixed, act)
            &&& 2 * key_size + value_size <= act.dims[2]
            &&& q0 == reshaped(narrowed(act, 2, 0, key_size), key_dims)
            &&& k0 == reshaped(narrowed(act, 2, key_size as int, key_size), key_dims)
            &&& x.v == reshaped(narrowed(act, 2, 2 * key_size, value_size), value_dims)
        };
    let (q1, k1) = choose|q1: TensorView, k1: TensorView|
        {
            &&& #[trigger] is_l2_normed(q0, NORM_EPS, dtype, q1)
            &&& #[trigger] is_l2_normed(k0, NORM_EPS, dtype, k1)
            &&& x.q == w.spread(q1)
            &&& x.k == w.spread(k1)
        };
    assert(mixed.dims.len() == 3 && mixed.dims[0] == 1 && mixed.dims[1] == len);
    l2_of_elements(ar, q0, NORM_EPS, dtype, q1);
    l2_of_elements(ar, k0, NORM_EPS, dtype, k1);
    let least_q = choose|least: u32| #[trigger]
        becomes(NORM_EPS, dtype, least) && forall|i: int|
            0 <= i < count(q0.dims) ==> #[trigger] q1.words[i] == scaled_element(
                ar,
                q0,
                least,
                i,
            );
    let least_k = choose|least: u32| #[trigger]
        becomes(NORM_EPS, dtype, least) && forall|i: int|
            0 <= i < count(k0.dims) ==> #[trigger] k1.words[i] == scaled_element(
                ar,
                k0,
                least,
                i,
            );
    assert forall|t: int, h: int, i: int|
        0 <= t < len && 0 <= h < w.n_heads && 0 <= i < w.state_size implies {
        &&& #[trigger] at4(x.q, 0, t, h, i) == scaled_at(
            ar,
            activated(ar, mixed, t, (h / repeat) * w.state_size, w.state_size),
            least_q,
            i,
        )
        &&& at4(x.k, 0, t, h, i) == scaled_at(
            ar,
            activated(ar, mixed, t, keys + (h / repeat) * w.state_size, w.state_size),
            least_k,
            i,
        )
        &&& at4(x.v, 0, t, h, i) == (ar.silu)(at3(mixed, 0, t, 2 * keys + h * w.state_size + i))
    } by {
        scaled_elements(ar, w, mixed, act, 0, least_q, q1, t, h, i);
        scaled_elements(ar, w, mixed, act, keys, least_k, k1, t, h, i);
        cut_elements(ar, mixed, act, 2 * keys, w.n_heads, w.state_size, t, h, i);
        assert(0 + (h / repeat) * w.state_size == (h / repeat) * w.state_size);
    }
    scaled_elements(ar, w, mixed, act, 0, least_q, q1, 0, 0, 0);
    scaled_elements(ar, w, mixed, act, keys, least_k, k1, 0, 0, 0);
    assert forall|t: int, h: int| 0 <= t < len && 0 <= h < w.n_heads implies {
        &&& #[trigger] at3(x.decay, 0, t, h) == (ar.exp)(
            (ar.product)(
                soft(ar, (ar.wide_sum)(at3(alpha, 0, t, h), tensor_words(w.ssm_dt)[h])),
                tensor_words(w.ssm_a)[h],
            ),
        )
        &&& at3(x.beta, 0, t, h) == (ar.sigmoid)(at3(raw, 0, t, h))
    } by {
        steered_elements(ar, w, len, alpha, raw, x.decay, x.beta, t, h);
    }
    steered_elements(ar, w, len, alpha, raw, x.decay, x.beta, 0, 0);
    assert(x.q.dims == value_dims && x.k.dims == value_dims && x.v.dims == value_dims);
    assert(x.decay.dims == seq![1, len, w.n_heads] && x.beta.dims == seq![1, len, w.n_heads]);
    assert(makes_inputs(ar, w, len, mixed, alpha, raw, least_q, least_k, x));
    (mixed, least_q, least_k)
}

/// What a layer that keeps a state does, element by element: the convolution of a projection of the
/// input is activated and cut into queries, keys and values, the delta rule runs over them, and what
/// it puts out is normalised, gated and projected. Vectors are divided by one millionth at least, in
/// the element type that they have. Stated for weights that make what has the right shape.
pub proof fn state_layer_of_elements<Q: QuantMethod>(
    ar: Arithmetic,
    w: SsmWeights<Q>,
    x: Tensor,
    channels: int,
    conv0: Option<Tensor>,
    conv1: Option<Tensor>,
    mem0: Option<Tensor>,
    mem1: Option<Tensor>,
    r: Tensor,
)
    requires
        is_done_by(ar),
        w.n_heads > 0,
        w.n_kv_heads > 0,
        w.n_heads == w.n_kv_heads * (w.n_heads / w.n_kv_heads),
        w.state_size > 0,
        w.inner_size == w.n_heads * w.state_size,
        2 * (w.n_kv_heads * w.state_size) + w.n_heads * w.state_size <= channels,
        tensor_dims(x).len() == 3,
        tensor_dims(x)[0] == 1,
        tensor_dims(x)[1] > 0,
        widens(w.attn_qkv, x, channels),
        widens(w.ssm_alpha, x, w.n_heads as int),
        widens(w.ssm_beta, x, w.n_heads as int),
        widens(w.attn_gate, x, w.inner_size as int),
        w.is_forward(x, conv0, conv1, mem0, mem1, r),
    ensures
        exists|
            qkv: Tensor,
            alpha: Tensor,
            raw: Tensor,
            gate: Tensor,
            mixed: TensorView,
            inputs: DeltaInputs,
            out: TensorView,
            flat: Tensor,
            early: DType,
            late: DType,
            least_q: u32,
            least_k: u32,
            least: u32,
        |
            {
                let len = tensor_dims(x)[1];
                &&& #[trigger] projects(w.attn_qkv, x, qkv)
                &&& #[trigger] projects(w.ssm_alpha, x, alpha)
                &&& #[trigger] projects(w.ssm_beta, x, raw)
                &&& #[trigger] projects(w.attn_gate, x, gate)
                &&& #[trigger] is_convolved(
                    view_of(qkv),
                    view_of(w.ssm_conv1d),
                    conv0,
                    conv1,
                    mixed,
                )
                &&& #[trigger] becomes(0x3586_37BD, early, least_q)
                &&& #[trigger] becomes(0x3586_37BD, early, least_k)
                &&& makes_inputs(
                    ar,
                    w,
                    len,
                    mixed,
                    view_of(alpha),
                    view_of(raw),
                    least_q,
                    least_k,
                    inputs,
                )
                &&& #[trigger] is_recurred(inputs, w.n_heads, w.state_size, mem0, mem1, out)
                &&& #[trigger] is_least(late, least)
                &&& makes_flat(ar, w, len, out, view_of(gate), least, view_of(flat))
                &&& #[trigger] projects(w.ssm_out, flat, r)
                &&& plain(x) && w.is_obliged(tensor_dims(x), conv0, mem0) ==> dtype_is_f32(early)
                    && dtype_is_f32(late)
            },
{
    let len = tensor_dims(x)[1];
    let (early, late, q, k, v, decay, beta, out, flat) = choose|
        early: DType,
        late: DType,
        q: TensorView,
        k: TensorView,
        v: TensorView,
        decay: TensorView,
        beta: TensorView,
        out: TensorView,
        flat: Tensor,
    |
        {
            &&& #[trigger] w.is_prepared(x, conv0, conv1, early, q, k, v)
            &&& #[trigger] w.is_steered(x, decay, beta)
            &&& is_recurred(
                DeltaInputs { q, k, v, decay, beta },
                w.n_heads,
                w.state_size,
                mem0,
                mem1,
                out,
            )
            &&& #[trigger] w.is_gated(x, out, late, view_of(flat))
            &&& #[trigger] projects(w.ssm_out, flat, r)
            &&& plain(x) && w.is_obliged(tensor_dims(x), conv0, mem0) ==> {
                &&& dtype_is_f32(early)
                &&& dtype_is_f32(late)
                &&& plain(flat)
            }
        };
    let inputs = DeltaInputs { q, k, v, decay, beta };
    let qkv = choose|qkv: Tensor|
        {
            &&& #[trigger] projects(w.attn_qkv, x, qkv)
            &&& w.is_made_of(1, len, view_of(qkv), conv0, conv1, early, q, k, v)
        };
    let (alpha, raw) = choose|alpha: Tensor, raw: Tensor|
        {
            &&& #[trigger] projects(w.ssm_alpha, x, alpha)
            &&& consistent(view_of(alpha))
            &&& w.is_decay(view_of(alpha), decay)
            &&& #[trigger] projects(w.ssm_beta, x, raw)
            &&& consistent(view_of(raw))
            &&& is_sigmoid(view_of(raw), beta)
        };
    let (gate, gated) = choose|gate: Tensor, gated: TensorView|
        {
            &&& #[trigger] projects(w.attn_gate, x, gate)
            &&& #[trigger] w.is_gated_by(1, len, view_of(gate), out, late, gated)
            &&& view_of(flat) == reshaped(gated, seq![1, len, w.inner_size])
        };
    assert(tensor_dims(alpha) =~= seq![1, len, w.n_heads]);
    assert(tensor_dims(raw) =~= seq![1, len, w.n_heads]);
    assert(tensor_dims(gate) =~= seq![1, len, w.inner_size]);
    let (mixed, least_q, least_k) = inputs_elements(
        ar,
        w,
        len,
        view_of(qkv),
        conv0,
        conv1,
        view_of(alpha),
        view_of(raw),
        early,
        inputs,
    );
    let least = flat_elements(ar, w, len, out, view_of(gate), late, view_of(flat));
    assert(projects(w.ssm_out, flat, r));
    assert(is_recurred(inputs, w.n_heads, w.state_size, mem0, mem1, out));
    assert(is_least(late, least));
}

} // verus!
