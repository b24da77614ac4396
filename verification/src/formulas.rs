//! What becomes of single elements: formulas of activations, norms, decay, and the sum over experts.
use candle_core::DType;
use vstd::prelude::*;

use crate::backend::QuantMethod;
use crate::heads::becomes;
use crate::moe::{is_combined, is_expert_sum};
use crate::norm::{
    is_floor, is_l2_normed, is_length, is_norm_gated, is_rms, is_scalar, is_softplus, stretch_last,
    stretch_self,
};
use crate::ops::{
    is_exp, is_kept_mean, is_kept_total, is_log, is_maximum, is_product, is_quotient, is_root,
    is_silu, is_square, is_stretched_sum, is_sum, ones,
};
use crate::positions::{index_last, index_tail, stretch_ones};
use crate::shape::{
    consistent, count, count_small, reshaped, stretched, stretched_index, TensorView,
};
use crate::ssm::{stretched_index_same, SsmWeights};
use crate::tensor::{
    cast_of, cast_outcome, difference_of, double_seen, dtype_is_double, dtype_is_f32, exp_of, kept_mean_of, kept_total_of, line_along, log_of,
    matmul_outcome, maximum_of, product_of, quotient_of, root_of, sigmoid_of, silu_of, square_of,
    stretched_sum_of, sum_of, tensor_words, total_of, view_of,
};

verus! {

/// What comes of elements where arithmetic is done.
pub ghost struct Arithmetic {
    pub sum: spec_fn(u32, u32) -> u32,
    pub wide_sum: spec_fn(u32, u32) -> u32,
    pub difference: spec_fn(u32, u32) -> u32,
    pub product: spec_fn(u32, u32) -> u32,
    pub quotient: spec_fn(u32, u32) -> u32,
    pub maximum: spec_fn(u32, u32) -> u32,
    pub exp: spec_fn(u32) -> u32,
    pub log: spec_fn(u32) -> u32,
    pub silu: spec_fn(u32) -> u32,
    pub sigmoid: spec_fn(u32) -> u32,
    pub square: spec_fn(u32) -> u32,
    pub root: spec_fn(u32) -> u32,
    /// Of the elements along a dimension that is summed up and left out.
    pub total: spec_fn(Seq<u32>) -> u32,
    /// Of the elements along a dimension that is summed up and kept.
    pub kept_total: spec_fn(Seq<u32>) -> u32,
    pub kept_mean: spec_fn(Seq<u32>) -> u32,
    /// Of a row of one matrix and a column of another.
    pub inner: spec_fn(Seq<u32>, Seq<u32>) -> u32,
}

/// All arithmetic is done as `ar` says: each operation gives one result for the same elements, and a
/// product of matrices does so in all its places.
#[verifier::opaque]
pub open spec fn is_done_by(ar: Arithmetic) -> bool {
    &&& forall|a: u32, b: u32, r: u32| #[trigger] sum_of(a, b, r) ==> r == (ar.sum)(a, b)
    &&& forall|a: u32, b: u32, r: u32| #[trigger]
        stretched_sum_of(a, b, r) ==> r == (ar.wide_sum)(a, b)
    &&& forall|a: u32, b: u32, r: u32| #[trigger]
        difference_of(a, b, r) ==> r == (ar.difference)(a, b)
    &&& forall|a: u32, b: u32, r: u32| #[trigger] product_of(a, b, r) ==> r == (ar.product)(a, b)
    &&& forall|a: u32, b: u32, r: u32| #[trigger] quotient_of(a, b, r) ==> r == (ar.quotient)(a, b)
    &&& forall|a: u32, b: u32, r: u32| #[trigger] maximum_of(a, b, r) ==> r == (ar.maximum)(a, b)
    &&& forall|a: u32, r: u32| #[trigger] exp_of(a, r) ==> r == (ar.exp)(a)
    &&& forall|a: u32, r: u32| #[trigger] log_of(a, r) ==> r == (ar.log)(a)
    &&& forall|a: u32, r: u32| #[trigger] silu_of(a, r) ==> r == (ar.silu)(a)
    &&& forall|a: u32, r: u32| #[trigger] sigmoid_of(a, r) ==> r == (ar.sigmoid)(a)
    &&& forall|a: u32, r: u32| #[trigger] square_of(a, r) ==> r == (ar.square)(a)
    &&& forall|a: u32, r: u32| #[trigger] root_of(a, r) ==> r == (ar.root)(a)
    &&& forall|l: Seq<u32>, r: u32| #[trigger] total_of(l, r) ==> r == (ar.total)(l)
    &&& forall|l: Seq<u32>, r: u32| #[trigger] kept_total_of(l, r) ==> r == (ar.kept_total)(l)
    &&& forall|l: Seq<u32>, r: u32| #[trigger] kept_mean_of(l, r) ==> r == (ar.kept_mean)(l)
    &&& forall|d: Seq<usize>, a: Seq<u32>, e: Seq<usize>, b: Seq<u32>, r: Seq<u32>| #[trigger]
        matmul_outcome(d, a, e, b, r) && d.len() == 3 && e.len() == 3 ==> multiplies(
            ar,
            d,
            a,
            e,
            b,
            r,
        )
}

/// `r` holds, for each pair of a matrix of `a` and one of `b`, what `ar` makes of the rows of the
/// first and the columns of the second.
pub open spec fn multiplies(
    ar: Arithmetic,
    d: Seq<usize>,
    a: Seq<u32>,
    e: Seq<usize>,
    b: Seq<u32>,
    r: Seq<u32>,
) -> bool {
    forall|h: int, i: int, j: int|
        #![trigger r[(h * d[1] + i) * e[2] + j]]
        0 <= h < d[0] && 0 <= i < d[1] && 0 <= j < e[2] ==> r[(h * d[1] + i) * e[2] + j] == (
        ar.inner)(
            Seq::new(d[2] as nat, |l: int| a[(h * d[1] + i) * d[2] + l]),
            Seq::new(e[1] as nat, |l: int| b[(h * e[1] + l) * e[2] + j]),
        )
}

/// The logarithm of one plus the exponential.
pub open spec fn soft(ar: Arithmetic, e: u32) -> u32 {
    (ar.log)((ar.sum)(0x3F80_0000, (ar.exp)(e)))
}

/// Softplus is the logarithm of one plus the exponential of each element.
pub proof fn softplus_of_elements(ar: Arithmetic, x: TensorView, r: TensorView, i: int)
    requires
        is_done_by(ar),
        is_softplus(x, r),
        0 <= i < count(x.dims),
    ensures
        r.dims == x.dims,
        r.words[i] == soft(ar, x.words[i]),
{
    reveal(is_done_by);
    let (powers, more) = choose|powers: TensorView, more: TensorView|
        {
            &&& is_exp(x, powers)
            &&& #[trigger] is_sum(ones(x.dims), powers, more)
            &&& #[trigger] is_log(more, r)
        };
    assert(exp_of(x.words[i], powers.words[i]));
    assert(sum_of(ones(x.dims).words[i], powers.words[i], more.words[i]));
    assert(log_of(more.words[i], r.words[i]));
}

/// What stays of the memory is, for each position and head, the exponential of the head's rate times
/// the softplus of the projection plus the head's offset.
pub proof fn decay_of_elements<Q: QuantMethod>(
    ar: Arithmetic,
    w: SsmWeights<Q>,
    alpha: TensorView,
    r: TensorView,
    i: int,
)
    requires
        is_done_by(ar),
        w.is_decay(alpha, r),
        alpha.dims.len() == 3,
        alpha.dims[2] == w.n_heads,
        0 <= i < count(alpha.dims),
    ensures
        r.dims == alpha.dims,
        r.words[i] == ({
            let h = i % w.n_heads as int;
            (ar.exp)(
                (ar.product)(
                    soft(ar, (ar.wide_sum)(alpha.words[i], tensor_words(w.ssm_dt)[h])),
                    tensor_words(w.ssm_a)[h],
                ),
            )
        }),
{
    reveal(is_done_by);
    let per_head = seq![1, 1, w.n_heads];
    let dt = reshaped(view_of(w.ssm_dt), per_head);
    let a = reshaped(view_of(w.ssm_a), per_head);
    let (shifted, softened, rate) = choose|
        shifted: TensorView,
        softened: TensorView,
        rate: TensorView,
    |
        {
            &&& is_stretched_sum(alpha, dt, shifted)
            &&& #[trigger] is_softplus(shifted, softened)
            &&& is_product(softened, a, rate)
            &&& #[trigger] is_exp(rate, r)
        };
    let d = alpha.dims;
    assert(per_head.last() == d.last());
    index_tail(per_head, d, i);
    stretched_index_same(d, i);
    assert(shifted.dims == d);
    let h = i % w.n_heads as int;
    assert(stretched_sum_of(alpha.words[i], dt.words[h], shifted.words[i]));
    softplus_of_elements(ar, shifted, softened, i);
    assert(product_of(softened.words[i], a.words[h], rate.words[i]));
    assert(exp_of(rate.words[i], r.words[i]));
}

/// The vector along the last dimension that element `i` belongs to.
pub open spec fn vector_of(x: TensorView, i: int) -> Seq<u32> {
    let m = x.dims.last() as int;
    Seq::new(x.dims.last() as nat, |j: int| x.words[(i / m) * m + j])
}

/// The elements, each squared.
pub open spec fn squared(ar: Arithmetic, line: Seq<u32>) -> Seq<u32> {
    Seq::new(line.len(), |j: int| (ar.square)(line[j]))
}

/// A line along the last dimension of squares holds the squares of a vector.
proof fn line_is_vector(ar: Arithmetic, x: TensorView, squares: TensorView, i: int)
    requires
        is_done_by(ar),
        x.dims.len() > 0,
        is_square(x, squares),
        0 <= i < count(x.dims),
    ensures
        x.dims.last() > 0,
        line_along(squares.dims, squares.words, x.dims.len() - 1, i / x.dims.last() as int)
            == squared(ar, vector_of(x, i)),
        0 <= i / x.dims.last() as int,
        i / x.dims.last() as int == stretched_index(
            x.dims.update(x.dims.len() - 1, 1),
            x.dims,
            i,
        ),
        i / (x.dims.last() as int) < count(x.dims.update(x.dims.len() - 1, 1)),
{
    reveal(is_done_by);
    let d = x.dims;
    let dim = d.len() - 1;
    index_last(d, i);
    let m = d.last() as int;
    let n = count(d.drop_last()) as int;
    let o = i / m;
    assert(0 <= o < n) by (nonlinear_arith)
        requires
            0 <= i < n * m,
            0 < m,
            o == i / m,
    ;
    assert(d.update(dim, 1).drop_last() =~= d.drop_last());
    assert(n * 1 == n);
    assert(d.skip(dim + 1) =~= Seq::empty());
    let line = line_along(squares.dims, squares.words, dim, o);
    assert forall|j: int| 0 <= j < m implies line[j] == squared(ar, vector_of(x, i))[j] by {
        assert(o / 1 == o && o % 1 == 0 && (o * m + j) * 1 + 0 == o * m + j);
        let p = o * m + j;
        assert(0 <= p < n * m) by (nonlinear_arith)
            requires
                p == o * m + j,
                0 <= o < n,
                0 <= j < m,
        ;
        assert(square_of(x.words[p], squares.words[p]));
    }
    assert(line =~= squared(ar, vector_of(x, i)));
}

/// An element divided by the root of the sum of the squares of its vector, or by the least length
/// where that is larger.
pub open spec fn scaled_element(ar: Arithmetic, x: TensorView, least: u32, i: int) -> u32 {
    (ar.quotient)(
        x.words[i],
        (ar.maximum)((ar.root)((ar.kept_total)(squared(ar, vector_of(x, i)))), least),
    )
}

/// Scaling to length one divides each element by the root of the sum of the squares of its vector, or
/// by the least length where that is larger.
pub proof fn l2_of_elements(
    ar: Arithmetic,
    x: TensorView,
    eps: u32,
    dtype: DType,
    r: TensorView,
)
    requires
        is_done_by(ar),
        is_l2_normed(x, eps, dtype, r),
        0 < x.dims.len() <= usize::MAX,
    ensures
        r.dims == x.dims,
        exists|least: u32| #[trigger]
            becomes(eps, dtype, least) && forall|i: int|
                0 <= i < count(x.dims) ==> #[trigger] r.words[i] == scaled_element(
                    ar,
                    x,
                    least,
                    i,
                ),
{
    let (length, least, by) = choose|length: TensorView, least: TensorView, by: TensorView|
        {
            &&& is_length(x, length)
            &&& is_scalar(eps, dtype, least)
            &&& #[trigger] is_maximum(length, least, by)
            &&& #[trigger] is_quotient(x, by, r)
        };
    let (squares, total) = choose|squares: TensorView, total: TensorView|
        {
            &&& is_square(x, squares)
            &&& #[trigger] is_kept_total(squares, (x.dims.len() - 1) as usize, total)
            &&& #[trigger] is_root(total, length)
        };
    let d = x.dims;
    stretch_last(d);
    assert(stretched(length.dims, least.dims) == Some(length.dims));
    assert(least.words.len() == 1) by {
        assert(count(Seq::<usize>::empty()) == 1);
    }
    assert(cast_of(seq![eps][0], dtype, least.words[0]));
    assert(becomes(eps, dtype, least.words[0]));
    assert forall|i: int| 0 <= i < count(d) implies #[trigger] r.words[i] == scaled_element(
        ar,
        x,
        least.words[0],
        i,
    ) by {
        reveal(is_done_by);
        let o = i / d.last() as int;
        line_is_vector(ar, x, squares, i);
        assert(kept_total_of(
            line_along(squares.dims, squares.words, d.len() - 1, o),
            total.words[o],
        ));
        assert(root_of(total.words[o], length.words[o]));
        floor_at(length, least, by, o);
        stretched_index_same(d, i);
        assert(quotient_of(x.words[i], by.words[o], r.words[i]));
    }
}

/// The larger of an element and a single number.
proof fn floor_at(a: TensorView, least: TensorView, r: TensorView, o: int)
    requires
        least.dims == Seq::<usize>::empty(),
        is_maximum(a, least, r),
        0 <= o < count(a.dims),
    ensures
        r.dims == a.dims,
        maximum_of(a.words[o], least.words[0], r.words[o]),
{
    stretched_index_same(a.dims, o);
    assert(stretched(a.dims, least.dims) == Some(a.dims));
    assert(stretched_index(least.dims, a.dims, o) == 0);
}

/// An element divided by the root of the mean square of its vector, or by the least such root where
/// that is larger, times the weight of its index, times the SiLU of its gate.
pub open spec fn gated_element(
    ar: Arithmetic,
    x: TensorView,
    gate: TensorView,
    weight: TensorView,
    least: u32,
    i: int,
) -> u32 {
    (ar.product)(
        (ar.product)(
            (ar.quotient)(
                x.words[i],
                (ar.maximum)((ar.root)((ar.kept_mean)(squared(ar, vector_of(x, i)))), least),
            ),
            weight.words[i % x.dims[3] as int],
        ),
        (ar.silu)(gate.words[i]),
    )
}

/// `least` is one millionth in the element type `dtype`.
pub open spec fn is_least(dtype: DType, least: u32) -> bool {
    &&& dtype_is_f32(dtype) ==> least == 0x3586_37BD
    &&& dtype_is_double(dtype) && !dtype_is_f32(dtype) ==> double_seen(
        0x3EB0_C6F7_A0B5_ED8D,
        least,
    )
    &&& !dtype_is_double(dtype) ==> cast_of(0x3586_37BD, dtype, least)
}

/// The gated normalisation divides each element by the root of the mean square of its vector, or by
/// one millionth where that is larger, and multiplies it with the weight of its index and with the
/// SiLU of its gate.
pub proof fn gated_norm_of_elements(
    ar: Arithmetic,
    x: TensorView,
    gate: TensorView,
    weight: TensorView,
    dtype: DType,
    r: TensorView,
)
    requires
        is_done_by(ar),
        is_norm_gated(x, gate, weight, dtype, r),
        x.dims.len() == 4,
        gate.dims == x.dims,
    ensures
        r.dims == x.dims,
        exists|least: u32| #[trigger]
            is_least(dtype, least) && forall|i: int|
                0 <= i < count(x.dims) ==> #[trigger] r.words[i] == gated_element(
                    ar,
                    x,
                    gate,
                    weight,
                    least,
                    i,
                ),
{
    let d = x.dims;
    let tail = seq![1, 1, 1, d[3]];
    let factors = reshaped(weight, tail);
    let (rms, normed, weighted, act) = choose|
        rms: TensorView,
        normed: TensorView,
        weighted: TensorView,
        act: TensorView,
    |
        {
            &&& is_rms(x, dtype, rms)
            &&& #[trigger] is_quotient(x, rms, normed)
            &&& is_product(normed, reshaped(weight, seq![1, 1, 1, x.dims[3]]), weighted)
            &&& is_silu(gate, act)
            &&& #[trigger] is_product(weighted, act, r)
        };
    let (squares, mean, root, least) = choose|
        squares: TensorView,
        mean: TensorView,
        root: TensorView,
        least: TensorView,
    |
        {
            &&& is_square(x, squares)
            &&& #[trigger] is_kept_mean(squares, (x.dims.len() - 1) as usize, mean)
            &&& #[trigger] is_root(mean, root)
            &&& is_floor(dtype, least)
            &&& #[trigger] is_maximum(root, least, rms)
        };
    stretch_last(d);
    stretch_self(d);
    assert(stretched(root.dims, least.dims) == Some(root.dims));
    assert forall|j: int| 0 <= j < d.len() implies #[trigger] tail[j] == d[j] || tail[j] == 1 by {}
    stretch_ones(d, tail);
    assert(least.words.len() == 1) by {
        assert(count(Seq::<usize>::empty()) == 1);
    }
    assert(is_least(dtype, least.words[0]));
    assert forall|i: int| 0 <= i < count(d) implies #[trigger] r.words[i] == gated_element(
        ar,
        x,
        gate,
        weight,
        least.words[0],
        i,
    ) by {
        reveal(is_done_by);
        let o = i / d.last() as int;
        line_is_vector(ar, x, squares, i);
        assert(kept_mean_of(
            line_along(squares.dims, squares.words, d.len() - 1, o),
            mean.words[o],
        ));
        assert(root_of(mean.words[o], root.words[o]));
        floor_at(root, least, rms, o);
        stretched_index_same(d, i);
        assert(quotient_of(x.words[i], rms.words[o], normed.words[i]));
        assert(tail.last() == d.last());
        index_tail(tail, d, i);
        assert(product_of(normed.words[i], factors.words[i % d[3] as int], weighted.words[i]));
        assert(silu_of(gate.words[i], act.words[i]));
        assert(product_of(weighted.words[i], act.words[i], r.words[i]));
    }
}

/// What the experts have made is weighted with their scores and summed up, for each token and each
/// index of its vector.
pub proof fn experts_are_summed(
    ar: Arithmetic,
    ys: TensorView,
    scores: TensorView,
    dims: Seq<usize>,
    dtype: DType,
    r: TensorView,
    token: int,
    i: int,
)
    requires
        is_done_by(ar),
        is_combined(ys, scores, dims, dtype, r),
        ys.dims.len() == 3,
        scores.dims == ys.dims.take(2),
        0 <= token < ys.dims[0],
        0 <= i < ys.dims[2],
    ensures
        ({
            let (experts, width) = (ys.dims[1], ys.dims[2]);
            becomes(
                (ar.total)(
                    Seq::new(
                        experts as nat,
                        |e: int|
                            (ar.product)(
                                ys.words[(token * experts + e) * width + i],
                                scores.words[token * experts + e],
                            ),
                    ),
                ),
                dtype,
                r.words[token * width + i],
            )
        }),
{
    reveal(is_done_by);
    let (weighted, total) = choose|weighted: TensorView, total: TensorView|
        {
            &&& consistent(ys)
            &&& consistent(scores)
            &&& is_product(ys, reshaped(scores, scores.dims.push(1)), weighted)
            &&& #[trigger] is_expert_sum(weighted, total)
            &&& count(total.dims) == count(dims)
            &&& r.dims == dims
            &&& consistent(r)
            &&& cast_outcome(total.words, dtype, r.words)
            &&& dtype_is_f32(dtype) ==> r.words == total.words
        };
    let d = ys.dims;
    let (tokens, experts, width) = (d[0] as int, d[1] as int, d[2] as int);
    assert(d =~= seq![d[0], d[1], d[2]]);
    count_small(d[0], d[1], d[2], 0, 0);
    count_small(d[0], d[2], 0, 0, 0);
    assert(scores.dims.push(1) =~= d.update(2, 1));
    stretch_last(d);
    assert(weighted.dims == d);
    assert(total.dims =~= seq![d[0], d[2]]);
    let o = token * width + i;
    assert(0 <= o < tokens * width && o / width == token && o % width == i) by (nonlinear_arith)
        requires
            0 <= token < tokens,
            0 <= i < width,
            o == token * width + i,
    ;
    let line = line_along(weighted.dims, weighted.words, 1, o);
    assert(total_of(line, total.words[o]));
    assert(d.skip(2) =~= seq![d[2]]);
    count_small(d[2], 0, 0, 0, 0);
    let terms = Seq::new(
        d[1] as nat,
        |e: int|
            (ar.product)(
                ys.words[(token * experts + e) * width + i],
                scores.words[token * experts + e],
            ),
    );
    assert forall|e: int| 0 <= e < experts implies line[e] == terms[e] by {
        let p = (token * experts + e) * width + i;
        let q = token * experts + e;
        assert(0 <= q < tokens * experts) by (nonlinear_arith)
            requires
                q == token * experts + e,
                0 <= token < tokens,
                0 <= e < experts,
        ;
        assert(0 <= p < tokens * experts * width && p / width == q) by (nonlinear_arith)
            requires
                p == q * width + i,
                0 <= q < tokens * experts,
                0 <= i < width,
        ;
        stretched_index_same(d, p);
        index_last(d, p);
        assert(product_of(ys.words[p], scores.words[q], weighted.words[p]));
    }
    assert(line =~= terms);
    assert(cast_of(total.words[o], dtype, r.words[o]));
    let e1 = ys.dims[1];
    assert(terms =~= Seq::new(
        e1 as nat,
        |e: int|
            (ar.product)(
                ys.words[(token * e1 + e) * ys.dims[2] + i],
                scores.words[token * e1 + e],
            ),
    ));
}

} // verus!
