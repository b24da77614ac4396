//! Tensors that agree at some positions, and operations that keep it so.
//!
//! The first dimensions of a tensor count its positions. Operations that look at each position
//! alone make what agrees where their arguments agree.
use candle_core::DType;
use vstd::prelude::*;

use crate::norm::{
    is_l2_normed, is_length, is_norm_gated, is_rms, is_floor, is_scalar, is_softplus, stretch_last,
    stretch_self,
};
use crate::ops::{
    is_exp, is_kept_mean, is_kept_total, is_log, is_maximum, is_product, is_quotient, is_root,
    is_sigmoid, is_silu, is_square, is_stretched_sum, is_sum, is_total, ones,
};
use crate::positions::{channel_words, head_index, head_moves, index_last, stretch_ones};
use crate::shape::{
    consistent, count, count_small, count_split, narrowed, reshaped, stretched, stretched_index,
    TensorView,
};
use crate::ssm::{repeated_heads, stretched_index_same};
use crate::tensor::{
    difference_of, dtype_is_f32, exp_of, kept_mean_of, kept_total_of, line_along, log_of,
    matmul_outcome, maximum_of, product_of, qmatmul_of, quotient_of, root_of, sigmoid_of, silu_of,
    square_of, stretched_sum_of, sum_of, total_of,
};

verus! {

/// Operations on one element or two give one result each.
pub open spec fn elements_are_determined() -> bool {
    &&& forall|a: u32, r: u32, s: u32| #[trigger] exp_of(a, r) && #[trigger] exp_of(a, s) ==> r == s
    &&& forall|a: u32, r: u32, s: u32| #[trigger] log_of(a, r) && #[trigger] log_of(a, s) ==> r == s
    &&& forall|a: u32, r: u32, s: u32| #[trigger]
        silu_of(a, r) && #[trigger] silu_of(a, s) ==> r == s
    &&& forall|a: u32, r: u32, s: u32| #[trigger]
        sigmoid_of(a, r) && #[trigger] sigmoid_of(a, s) ==> r == s
    &&& forall|a: u32, r: u32, s: u32| #[trigger]
        square_of(a, r) && #[trigger] square_of(a, s) ==> r == s
    &&& forall|a: u32, r: u32, s: u32| #[trigger]
        root_of(a, r) && #[trigger] root_of(a, s) ==> r == s
    &&& forall|a: u32, b: u32, r: u32, s: u32| #[trigger]
        product_of(a, b, r) && #[trigger] product_of(a, b, s) ==> r == s
    &&& forall|a: u32, b: u32, r: u32, s: u32| #[trigger]
        stretched_sum_of(a, b, r) && #[trigger] stretched_sum_of(a, b, s) ==> r == s
    &&& forall|a: u32, b: u32, r: u32, s: u32| #[trigger]
        sum_of(a, b, r) && #[trigger] sum_of(a, b, s) ==> r == s
    &&& forall|a: u32, b: u32, r: u32, s: u32| #[trigger]
        difference_of(a, b, r) && #[trigger] difference_of(a, b, s) ==> r == s
    &&& forall|a: u32, b: u32, r: u32, s: u32| #[trigger]
        maximum_of(a, b, r) && #[trigger] maximum_of(a, b, s) ==> r == s
    &&& forall|a: u32, b: u32, r: u32, s: u32| #[trigger]
        quotient_of(a, b, r) && #[trigger] quotient_of(a, b, s) ==> r == s
}

/// Operations on several elements give one result each.
pub open spec fn lines_are_determined() -> bool {
    &&& forall|l: Seq<u32>, r: u32, s: u32| #[trigger]
        total_of(l, r) && #[trigger] total_of(l, s) ==> r == s
    &&& forall|l: Seq<u32>, r: u32, s: u32| #[trigger]
        kept_total_of(l, r) && #[trigger] kept_total_of(l, s) ==> r == s
    &&& forall|l: Seq<u32>, r: u32, s: u32| #[trigger]
        kept_mean_of(l, r) && #[trigger] kept_mean_of(l, s) ==> r == s
    &&& forall|d: Seq<usize>, w: Seq<u32>, x: Seq<u32>, r: Seq<u32>, s: Seq<u32>| #[trigger]
        qmatmul_of(d, w, x, r) && #[trigger] qmatmul_of(d, w, x, s) && r.len() == s.len() ==> r == s
    &&& forall|
        d: Seq<usize>,
        a: Seq<u32>,
        e: Seq<usize>,
        b: Seq<u32>,
        r: Seq<u32>,
        s: Seq<u32>,
    | #[trigger]
        matmul_outcome(d, a, e, b, r) && #[trigger] matmul_outcome(d, a, e, b, s) && r.len()
            == s.len() ==> r == s
}

/// Arithmetic gives one result: the same elements always make the same. It does where all is done
/// in one element type and on one processor.
#[verifier::opaque]
pub open spec fn arithmetic_is_determined() -> bool {
    elements_are_determined() && lines_are_determined()
}

/// How many elements there are at each position, where the first `lead` dimensions count these.
pub open spec fn breadth(dims: Seq<usize>, lead: int) -> int {
    count(dims.skip(lead)) as int
}

/// Two tensors have one shape, and the same elements at positions `from` up to, but not including,
/// `to`. The first `lead` dimensions count positions.
pub open spec fn agree(a: TensorView, b: TensorView, lead: int, from: int, to: int) -> bool {
    &&& a.dims == b.dims
    &&& 0 <= lead <= a.dims.len()
    &&& consistent(a)
    &&& consistent(b)
    &&& 0 <= from <= to <= count(a.dims.take(lead))
    &&& forall|i: int|
        from * breadth(a.dims, lead) <= i < to * breadth(a.dims, lead) ==> #[trigger] a.words[i]
            == b.words[i]
}

/// The positions at which tensors agree lie within them.
pub proof fn agree_within(a: TensorView, b: TensorView, lead: int, from: int, to: int)
    requires
        agree(a, b, lead, from, to),
    ensures
        ({
            let w = breadth(a.dims, lead);
            &&& 0 <= w
            &&& 0 <= from * w <= to * w <= a.words.len()
            &&& a.words.len() == b.words.len()
            &&& a.words.len() == count(a.dims.take(lead)) * w
        }),
{
    count_split(a.dims, lead);
    let w = breadth(a.dims, lead);
    let n = count(a.dims.take(lead)) as int;
    assert(0 <= from * w <= to * w <= n * w) by (nonlinear_arith)
        requires
            0 <= from <= to <= n,
            0 <= w,
    ;
}

/// What works element by element makes what agrees.
pub proof fn elements_agree(
    a: TensorView,
    b: TensorView,
    lead: int,
    from: int,
    to: int,
    r: TensorView,
    s: TensorView,
)
    requires
        arithmetic_is_determined(),
        agree(a, b, lead, from, to),
    ensures
        is_exp(a, r) && is_exp(b, s) ==> agree(r, s, lead, from, to),
        is_log(a, r) && is_log(b, s) ==> agree(r, s, lead, from, to),
        is_silu(a, r) && is_silu(b, s) ==> agree(r, s, lead, from, to),
        is_sigmoid(a, r) && is_sigmoid(b, s) ==> agree(r, s, lead, from, to),
        is_square(a, r) && is_square(b, s) ==> agree(r, s, lead, from, to),
        is_root(a, r) && is_root(b, s) ==> agree(r, s, lead, from, to),
{
    reveal(arithmetic_is_determined);
    agree_within(a, b, lead, from, to);
    let w = breadth(a.dims, lead);
    if r.dims == a.dims && s.dims == b.dims && consistent(r) && consistent(s) {
        assert forall|i: int|
            from * w <= i < to * w && (is_exp(a, r) && is_exp(b, s) || is_log(a, r) && is_log(b, s)
                || is_silu(a, r) && is_silu(b, s) || is_sigmoid(a, r) && is_sigmoid(b, s)
                || is_square(a, r) && is_square(b, s) || is_root(a, r) && is_root(b, s)) implies (
        #[trigger] r.words[i]) == s.words[i] by {
            assert(a.words[i] == b.words[i]);
            assert(s.words[i] == s.words[i]);
        }
    }
}

/// What takes two elements at a time makes what agrees.
pub proof fn pairs_agree(
    a1: TensorView,
    a2: TensorView,
    b1: TensorView,
    b2: TensorView,
    lead: int,
    from: int,
    to: int,
    r1: TensorView,
    r2: TensorView,
)
    requires
        arithmetic_is_determined(),
        agree(a1, a2, lead, from, to),
        agree(b1, b2, lead, from, to),
        b1.dims == a1.dims,
    ensures
        is_product(a1, b1, r1) && is_product(a2, b2, r2) ==> agree(r1, r2, lead, from, to)
            && r1.dims == a1.dims,
        is_sum(a1, b1, r1) && is_sum(a2, b2, r2) ==> agree(r1, r2, lead, from, to),
{
    reveal(arithmetic_is_determined);
    agree_within(a1, a2, lead, from, to);
    let d = a1.dims;
    let w = breadth(d, lead);
    stretch_self(d);
    if is_product(a1, b1, r1) && is_product(a2, b2, r2) {
        assert forall|i: int| from * w <= i < to * w implies (#[trigger] r1.words[i])
            == r2.words[i] by {
            stretched_index_same(d, i);
            assert(a1.words[i] == a2.words[i] && b1.words[i] == b2.words[i]);
            assert(product_of(a1.words[i], b1.words[i], r1.words[i]));
            assert(product_of(a2.words[i], b2.words[i], r2.words[i]));
        }
    }
    if is_sum(a1, b1, r1) && is_sum(a2, b2, r2) {
        assert forall|i: int| from * w <= i < to * w implies (#[trigger] r1.words[i])
            == r2.words[i] by {
            assert(a1.words[i] == a2.words[i] && b1.words[i] == b2.words[i]);
            assert(sum_of(a1.words[i], b1.words[i], r1.words[i]));
            assert(sum_of(a2.words[i], b2.words[i], r2.words[i]));
        }
    }
}

/// What takes the same numbers at each position makes what agrees.
pub proof fn constants_agree(
    a1: TensorView,
    a2: TensorView,
    b: TensorView,
    lead: int,
    from: int,
    to: int,
    r1: TensorView,
    r2: TensorView,
)
    requires
        arithmetic_is_determined(),
        agree(a1, a2, lead, from, to),
        stretched(a1.dims, b.dims) == Some(a1.dims),
    ensures
        is_product(a1, b, r1) && is_product(a2, b, r2) ==> agree(r1, r2, lead, from, to)
            && r1.dims == a1.dims,
        is_stretched_sum(a1, b, r1) && is_stretched_sum(a2, b, r2) ==> agree(
            r1,
            r2,
            lead,
            from,
            to,
        ) && r1.dims == a1.dims,
        is_maximum(a1, b, r1) && is_maximum(a2, b, r2) ==> agree(r1, r2, lead, from, to)
            && r1.dims == a1.dims,
{
    reveal(arithmetic_is_determined);
    agree_within(a1, a2, lead, from, to);
    let d = a1.dims;
    let w = breadth(d, lead);
    if is_product(a1, b, r1) && is_product(a2, b, r2) {
        assert forall|i: int| from * w <= i < to * w implies (#[trigger] r1.words[i])
            == r2.words[i] by {
            stretched_index_same(d, i);
            let c = b.words[stretched_index(b.dims, d, i)];
            assert(product_of(a1.words[i], c, r1.words[i]));
            assert(product_of(a2.words[i], c, r2.words[i]));
        }
    }
    if is_stretched_sum(a1, b, r1) && is_stretched_sum(a2, b, r2) {
        assert forall|i: int| from * w <= i < to * w implies (#[trigger] r1.words[i])
            == r2.words[i] by {
            stretched_index_same(d, i);
            let c = b.words[stretched_index(b.dims, d, i)];
            assert(stretched_sum_of(a1.words[i], c, r1.words[i]));
            assert(stretched_sum_of(a2.words[i], c, r2.words[i]));
        }
    }
    if is_maximum(a1, b, r1) && is_maximum(a2, b, r2) {
        assert forall|i: int| from * w <= i < to * w implies (#[trigger] r1.words[i])
            == r2.words[i] by {
            stretched_index_same(d, i);
            let c = b.words[stretched_index(b.dims, d, i)];
            assert(maximum_of(a1.words[i], c, r1.words[i]));
            assert(maximum_of(a2.words[i], c, r2.words[i]));
        }
    }
}

/// The last dimension is one of those at a position.
proof fn breadth_last(d: Seq<usize>, lead: int)
    requires
        0 <= lead < d.len(),
    ensures
        breadth(d, lead) == breadth(d.update(d.len() - 1, 1), lead) * d.last(),
        count(d.take(lead)) == count(d.update(d.len() - 1, 1).take(lead)),
{
    let e = d.update(d.len() - 1, 1);
    assert(d.skip(lead).drop_last() =~= e.skip(lead).drop_last());
    assert(d.skip(lead).last() == d.last());
    assert(e.skip(lead).last() == 1);
    assert(d.take(lead) =~= e.take(lead));
    let n = count(d.skip(lead).drop_last());
    assert(n * 1 == n);
}

/// What takes a number for each vector makes what agrees.
pub proof fn vectors_agree(
    a1: TensorView,
    a2: TensorView,
    b1: TensorView,
    b2: TensorView,
    lead: int,
    from: int,
    to: int,
    r1: TensorView,
    r2: TensorView,
)
    requires
        arithmetic_is_determined(),
        agree(a1, a2, lead, from, to),
        agree(b1, b2, lead, from, to),
        lead < a1.dims.len(),
        b1.dims == a1.dims.update(a1.dims.len() - 1, 1),
    ensures
        is_quotient(a1, b1, r1) && is_quotient(a2, b2, r2) ==> agree(r1, r2, lead, from, to)
            && r1.dims == a1.dims,
        is_product(a1, b1, r1) && is_product(a2, b2, r2) ==> agree(r1, r2, lead, from, to)
            && r1.dims == a1.dims,
{
    reveal(arithmetic_is_determined);
    agree_within(a1, a2, lead, from, to);
    let d = a1.dims;
    let w = breadth(d, lead);
    let wb = breadth(b1.dims, lead);
    let m = d.last() as int;
    breadth_last(d, lead);
    stretch_last(d);
    assert forall|i: int| from * w <= i < to * w implies {
        &&& stretched_index(d, d, i) == i
        &&& stretched_index(b1.dims, d, i) == i / m
        &&& #[trigger] a1.words[i] == a2.words[i]
        &&& b1.words[i / m] == b2.words[i / m]
    } by {
        stretched_index_same(d, i);
        index_last(d, i);
        let j = i / m;
        assert(from * wb <= j < to * wb) by (nonlinear_arith)
            requires
                from * w <= i < to * w,
                w == wb * m,
                m > 0,
                j == i / m,
        ;
        assert(b1.words[j] == b2.words[j]);
    }
    if is_quotient(a1, b1, r1) && is_quotient(a2, b2, r2) {
        assert forall|i: int| from * w <= i < to * w implies (#[trigger] r1.words[i])
            == r2.words[i] by {
            assert(a1.words[i] == a2.words[i]);
            assert(quotient_of(a1.words[i], b1.words[i / m], r1.words[i]));
            assert(quotient_of(a2.words[i], b2.words[i / m], r2.words[i]));
        }
    }
    if is_product(a1, b1, r1) && is_product(a2, b2, r2) {
        assert forall|i: int| from * w <= i < to * w implies (#[trigger] r1.words[i])
            == r2.words[i] by {
            assert(a1.words[i] == a2.words[i]);
            assert(product_of(a1.words[i], b1.words[i / m], r1.words[i]));
            assert(product_of(a2.words[i], b2.words[i / m], r2.words[i]));
        }
    }
}

/// What adds up along the last dimension makes what agrees.
pub proof fn lines_agree(
    a1: TensorView,
    a2: TensorView,
    lead: int,
    from: int,
    to: int,
    r1: TensorView,
    r2: TensorView,
)
    requires
        arithmetic_is_determined(),
        agree(a1, a2, lead, from, to),
        lead < a1.dims.len() <= 4,
    ensures
        ({
            let dim = (a1.dims.len() - 1) as usize;
            &&& is_kept_total(a1, dim, r1) && is_kept_total(a2, dim, r2) ==> agree(
                r1,
                r2,
                lead,
                from,
                to,
            )
            &&& is_kept_mean(a1, dim, r1) && is_kept_mean(a2, dim, r2) ==> agree(
                r1,
                r2,
                lead,
                from,
                to,
            )
        }),
{
    reveal(arithmetic_is_determined);
    agree_within(a1, a2, lead, from, to);
    let d = a1.dims;
    let dim = d.len() - 1;
    let w = breadth(d, lead);
    let e = d.update(dim, 1);
    let we = breadth(e, lead);
    let m = d.last() as int;
    breadth_last(d, lead);
    assert forall|o: int| from * we <= o < to * we implies #[trigger] line_along(
        d,
        a1.words,
        dim,
        o,
    ) == line_along(d, a2.words, dim, o) by {
        let l1 = line_along(d, a1.words, dim, o);
        let l2 = line_along(d, a2.words, dim, o);
        assert(d.skip(dim + 1) =~= Seq::empty());
        assert forall|j: int| 0 <= j < m implies #[trigger] l1[j] == l2[j] by {
            let i = o * m + j;
            assert((o / 1 * m + j) * 1 + o % 1 == i);
            assert(from * w <= i < to * w) by (nonlinear_arith)
                requires
                    from * we <= o < to * we,
                    w == we * m,
                    0 <= j < m,
                    i == o * m + j,
            ;
            assert(a1.words[i] == a2.words[i]);
        }
        assert(l1 =~= l2);
    }
    if is_kept_total(a1, dim as usize, r1) && is_kept_total(a2, dim as usize, r2) {
        assert forall|o: int| from * we <= o < to * we implies (#[trigger] r1.words[o])
            == r2.words[o] by {
            e_within(e, lead, from, to, o);
            assert(kept_total_of(line_along(d, a1.words, dim, o), r1.words[o]));
            assert(kept_total_of(line_along(d, a2.words, dim, o), r2.words[o]));
        }
    }
    if is_kept_mean(a1, dim as usize, r1) && is_kept_mean(a2, dim as usize, r2) {
        assert forall|o: int| from * we <= o < to * we implies (#[trigger] r1.words[o])
            == r2.words[o] by {
            e_within(e, lead, from, to, o);
            assert(kept_mean_of(line_along(d, a1.words, dim, o), r1.words[o]));
            assert(kept_mean_of(line_along(d, a2.words, dim, o), r2.words[o]));
        }
    }
}

/// Elements of positions lie within a tensor.
proof fn e_within(d: Seq<usize>, lead: int, from: int, to: int, i: int)
    requires
        0 <= lead <= d.len(),
        0 <= from <= to <= count(d.take(lead)),
        from * breadth(d, lead) <= i < to * breadth(d, lead),
    ensures
        0 <= i < count(d),
{
    count_split(d, lead);
    let w = breadth(d, lead);
    let n = count(d.take(lead)) as int;
    assert(0 <= from * w && to * w <= n * w) by (nonlinear_arith)
        requires
            0 <= from <= to <= n,
            0 <= w,
    ;
}

/// Scaling vectors to length one makes what agrees.
pub proof fn l2_agree(
    x1: TensorView,
    x2: TensorView,
    lead: int,
    from: int,
    to: int,
    eps: u32,
    d1: DType,
    d2: DType,
    r1: TensorView,
    r2: TensorView,
)
    requires
        arithmetic_is_determined(),
        agree(x1, x2, lead, from, to),
        lead < x1.dims.len() == 4,
        dtype_is_f32(d1),
        dtype_is_f32(d2),
        is_l2_normed(x1, eps, d1, r1),
        is_l2_normed(x2, eps, d2, r2),
    ensures
        agree(r1, r2, lead, from, to),
        r1.dims == x1.dims,
{
    let (length1, least1, by1) = choose|length: TensorView, least: TensorView, by: TensorView|
        {
            &&& is_length(x1, length)
            &&& is_scalar(eps, d1, least)
            &&& #[trigger] is_maximum(length, least, by)
            &&& #[trigger] is_quotient(x1, by, r1)
        };
    let (length2, least2, by2) = choose|length: TensorView, least: TensorView, by: TensorView|
        {
            &&& is_length(x2, length)
            &&& is_scalar(eps, d2, least)
            &&& #[trigger] is_maximum(length, least, by)
            &&& #[trigger] is_quotient(x2, by, r2)
        };
    assert(least1 =~= least2);
    let (squares1, total1) = choose|squares: TensorView, total: TensorView|
        {
            &&& is_square(x1, squares)
            &&& #[trigger] is_kept_total(squares, (x1.dims.len() - 1) as usize, total)
            &&& #[trigger] is_root(total, length1)
        };
    let (squares2, total2) = choose|squares: TensorView, total: TensorView|
        {
            &&& is_square(x2, squares)
            &&& #[trigger] is_kept_total(squares, (x2.dims.len() - 1) as usize, total)
            &&& #[trigger] is_root(total, length2)
        };
    elements_agree(x1, x2, lead, from, to, squares1, squares2);
    lines_agree(squares1, squares2, lead, from, to, total1, total2);
    elements_agree(total1, total2, lead, from, to, length1, length2);
    constants_agree(length1, length2, least1, lead, from, to, by1, by2);
    vectors_agree(x1, x2, by1, by2, lead, from, to, r1, r2);
}

/// Softplus makes what agrees.
pub proof fn softplus_agree(
    x1: TensorView,
    x2: TensorView,
    lead: int,
    from: int,
    to: int,
    r1: TensorView,
    r2: TensorView,
)
    requires
        arithmetic_is_determined(),
        agree(x1, x2, lead, from, to),
        is_softplus(x1, r1),
        is_softplus(x2, r2),
    ensures
        agree(r1, r2, lead, from, to),
        r1.dims == x1.dims,
{
    let (powers1, more1) = choose|powers: TensorView, more: TensorView|
        {
            &&& is_exp(x1, powers)
            &&& #[trigger] is_sum(ones(x1.dims), powers, more)
            &&& #[trigger] is_log(more, r1)
        };
    let (powers2, more2) = choose|powers: TensorView, more: TensorView|
        {
            &&& is_exp(x2, powers)
            &&& #[trigger] is_sum(ones(x2.dims), powers, more)
            &&& #[trigger] is_log(more, r2)
        };
    let u = ones(x1.dims);
    elements_agree(x1, x2, lead, from, to, powers1, powers2);
    assert(agree(u, u, lead, from, to));
    pairs_agree(u, u, powers1, powers2, lead, from, to, more1, more2);
    elements_agree(more1, more2, lead, from, to, r1, r2);
}

proof fn rms_agree(
    x1: TensorView,
    x2: TensorView,
    lead: int,
    from: int,
    to: int,
    d1: DType,
    d2: DType,
    r1: TensorView,
    r2: TensorView,
)
    requires
        arithmetic_is_determined(),
        agree(x1, x2, lead, from, to),
        lead < x1.dims.len() == 4,
        dtype_is_f32(d1),
        dtype_is_f32(d2),
        is_rms(x1, d1, r1),
        is_rms(x2, d2, r2),
    ensures
        agree(r1, r2, lead, from, to),
        r1.dims == x1.dims.update(3, 1),
{
    let (squares1, mean1, rms1, least1) = choose|
        squares: TensorView,
        mean: TensorView,
        rms: TensorView,
        least: TensorView,
    |
        {
            &&& is_square(x1, squares)
            &&& #[trigger] is_kept_mean(squares, (x1.dims.len() - 1) as usize, mean)
            &&& #[trigger] is_root(mean, rms)
            &&& is_floor(d1, least)
            &&& #[trigger] is_maximum(rms, least, r1)
        };
    let (squares2, mean2, rms2, least2) = choose|
        squares: TensorView,
        mean: TensorView,
        rms: TensorView,
        least: TensorView,
    |
        {
            &&& is_square(x2, squares)
            &&& #[trigger] is_kept_mean(squares, (x2.dims.len() - 1) as usize, mean)
            &&& #[trigger] is_root(mean, rms)
            &&& is_floor(d2, least)
            &&& #[trigger] is_maximum(rms, least, r2)
        };
    assert(least1 =~= least2);
    elements_agree(x1, x2, lead, from, to, squares1, squares2);
    lines_agree(squares1, squares2, lead, from, to, mean1, mean2);
    elements_agree(mean1, mean2, lead, from, to, rms1, rms2);
    constants_agree(rms1, rms2, least1, lead, from, to, r1, r2);
}

/// The gated normalisation makes what agrees.
pub proof fn gated_agree(
    x1: TensorView,
    x2: TensorView,
    gate1: TensorView,
    gate2: TensorView,
    weight: TensorView,
    lead: int,
    from: int,
    to: int,
    d1: DType,
    d2: DType,
    r1: TensorView,
    r2: TensorView,
)
    requires
        arithmetic_is_determined(),
        agree(x1, x2, lead, from, to),
        agree(gate1, gate2, lead, from, to),
        gate1.dims == x1.dims,
        lead < x1.dims.len() == 4,
        dtype_is_f32(d1),
        dtype_is_f32(d2),
        is_norm_gated(x1, gate1, weight, d1, r1),
        is_norm_gated(x2, gate2, weight, d2, r2),
    ensures
        agree(r1, r2, lead, from, to),
        r1.dims == x1.dims,
{
    let (rms1, normed1, weighted1, act1) = choose|
        rms: TensorView,
        normed: TensorView,
        weighted: TensorView,
        act: TensorView,
    |
        {
            &&& is_rms(x1, d1, rms)
            &&& #[trigger] is_quotient(x1, rms, normed)
            &&& is_product(normed, reshaped(weight, seq![1, 1, 1, x1.dims[3]]), weighted)
            &&& is_silu(gate1, act)
            &&& #[trigger] is_product(weighted, act, r1)
        };
    let (rms2, normed2, weighted2, act2) = choose|
        rms: TensorView,
        normed: TensorView,
        weighted: TensorView,
        act: TensorView,
    |
        {
            &&& is_rms(x2, d2, rms)
            &&& #[trigger] is_quotient(x2, rms, normed)
            &&& is_product(normed, reshaped(weight, seq![1, 1, 1, x2.dims[3]]), weighted)
            &&& is_silu(gate2, act)
            &&& #[trigger] is_product(weighted, act, r2)
        };
    let w = reshaped(weight, seq![1, 1, 1, x1.dims[3]]);
    rms_agree(x1, x2, lead, from, to, d1, d2, rms1, rms2);
    vectors_agree(x1, x2, rms1, rms2, lead, from, to, normed1, normed2);
    stretch_ones(x1.dims, w.dims);
    constants_agree(normed1, normed2, w, lead, from, to, weighted1, weighted2);
    elements_agree(gate1, gate2, lead, from, to, act1, act2);
    pairs_agree(weighted1, weighted2, act1, act2, lead, from, to, r1, r2);
}

/// Parts of the channels agree.
pub proof fn channels_agree(
    a: TensorView,
    b: TensorView,
    from: int,
    to: int,
    start: int,
    len: usize,
)
    requires
        agree(a, b, 2, from, to),
        a.dims.len() == 3,
        a.dims[0] == 1,
        0 <= start,
        start + len <= a.dims[2],
    ensures
        agree(narrowed(a, 2, start, len), narrowed(b, 2, start, len), 2, from, to),
{
    channel_words(a, start, len);
    channel_words(b, start, len);
    agree_within(a, b, 2, from, to);
    let na = narrowed(a, 2, start, len);
    let nb = narrowed(b, 2, start, len);
    let d = a.dims[2] as int;
    let n = len as int;
    assert(a.dims.skip(2) =~= seq![a.dims[2]]);
    assert(na.dims.skip(2) =~= seq![len]);
    assert(na.dims.take(2) =~= a.dims.take(2));
    count_small(a.dims[2], 0, 0, 0, 0);
    count_small(len, 0, 0, 0, 0);
    count_front(a.dims);
    let t = a.dims[1] as int;
    assert forall|i: int| from * n <= i < to * n implies (#[trigger] na.words[i])
        == nb.words[i] by {
        let p = i / n;
        let e = i % n;
        let k = p * d + start + e;
        assert(n > 0 && 0 <= i < t * n && from <= p < to && 0 <= e < n) by (nonlinear_arith)
            requires
                from * n <= i < to * n,
                0 <= from,
                to <= t,
                0 <= n,
                p == i / n,
                e == i % n,
        ;
        assert(from * d <= k < to * d) by (nonlinear_arith)
            requires
                from <= p < to,
                0 <= e < n,
                0 <= start,
                start + n <= d,
                k == p * d + start + e,
        ;
        assert(a.words[k] == b.words[k]);
    }
}

proof fn count_front(d: Seq<usize>)
    requires
        d.len() >= 2,
        d[0] == 1,
    ensures
        count(d.take(2)) == d[1],
{
    assert(d.take(2) =~= seq![d[0], d[1]]);
    count_small(d[0], d[1], 0, 0, 0);
    let t = d[1] as int;
    assert(1 * t == t);
}

/// Tensors that agree do so under other dimensions that count as many positions.
pub proof fn reshape_agree(
    a: TensorView,
    b: TensorView,
    lead: int,
    from: int,
    to: int,
    dims: Seq<usize>,
    front: int,
)
    requires
        agree(a, b, lead, from, to),
        0 <= front <= dims.len(),
        count(dims) == count(a.dims),
        count(dims.take(front)) == count(a.dims.take(lead)),
        breadth(dims, front) == breadth(a.dims, lead),
    ensures
        agree(reshaped(a, dims), reshaped(b, dims), front, from, to),
{
}

/// Heads agree where the groups agree that they have their vectors from.
pub proof fn heads_agree(
    a: TensorView,
    b: TensorView,
    from: int,
    to: int,
    heads: usize,
    repeat: usize,
)
    requires
        agree(a, b, 2, from, to),
        a.dims.len() == 4,
        a.dims[0] == 1,
        heads * a.dims[3] == a.dims[2] * repeat * a.dims[3],
    ensures
        agree(repeated_heads(a, heads, repeat), repeated_heads(b, heads, repeat), 2, from, to),
{
    let ra = repeated_heads(a, heads, repeat);
    let rb = repeated_heads(b, heads, repeat);
    agree_within(a, b, 2, from, to);
    let t = a.dims[1] as int;
    let g = a.dims[2] as int;
    let s = a.dims[3] as int;
    let h = heads as int;
    let r = repeat as int;
    assert(a.dims.skip(2) =~= seq![a.dims[2], a.dims[3]]);
    assert(ra.dims.skip(2) =~= seq![heads, a.dims[3]]);
    assert(ra.dims.take(2) =~= a.dims.take(2));
    count_small(a.dims[2], a.dims[3], 0, 0, 0);
    count_small(heads, a.dims[3], 0, 0, 0);
    count_front(a.dims);
    count_split(ra.dims, 2);
    let n = a.words.len() as int;
    assert(t * (h * s) == n * r) by (nonlinear_arith)
        requires
            h * s == g * r * s,
            n == t * (g * s),
    ;
    assert forall|i: int| from * (h * s) <= i < to * (h * s) implies (#[trigger] ra.words[i])
        == rb.words[i] by {
        let v = to - from;
        let j = i - from * (h * s);
        assert(0 <= j < (v * g) * s * r && i == (from * g) * s * r + j && r > 0 && 0 <= i < n * r)
            by (nonlinear_arith)
            requires
                from * (h * s) <= i < to * (h * s),
                h * s == g * r * s,
                v == to - from,
                j == i - from * (h * s),
                0 <= from,
                to <= t,
                n == t * (g * s),
                0 <= r,
                0 <= g,
                0 <= s,
        ;
        assert(v * g >= 0) by (nonlinear_arith)
            requires
                v >= 0,
                g >= 0,
        ;
        head_index(j, v * g, s, r);
        head_moves(i, j, from * g, s, r);
        let o = j / s / r;
        let e = j % s;
        let k = (from * g + o) * s + e;
        assert(from * (g * s) <= k < to * (g * s)) by (nonlinear_arith)
            requires
                0 <= o * s + e < v * g * s,
                k == (from * g + o) * s + e,
                v == to - from,
        ;
        assert(a.words[k] == b.words[k]);
    }
}

/// What adds up over the experts of a token makes what agrees.
pub proof fn totals_agree(
    a1: TensorView,
    a2: TensorView,
    from: int,
    to: int,
    r1: TensorView,
    r2: TensorView,
)
    requires
        arithmetic_is_determined(),
        agree(a1, a2, 1, from, to),
        a1.dims.len() == 3,
        is_total(a1, 1, r1),
        is_total(a2, 1, r2),
    ensures
        agree(r1, r2, 1, from, to),
        r1.dims == seq![a1.dims[0], a1.dims[2]],
{
    reveal(arithmetic_is_determined);
    agree_within(a1, a2, 1, from, to);
    let d = a1.dims;
    let e = seq![d[0], d[2]];
    assert(d.remove(1) =~= e);
    assert(d.skip(1) =~= seq![d[1], d[2]]);
    assert(d.skip(2) =~= seq![d[2]]);
    assert(e.skip(1) =~= seq![d[2]]);
    assert(e.take(1) =~= d.take(1));
    count_small(d[1], d[2], 0, 0, 0);
    count_small(d[2], 0, 0, 0, 0);
    let k = d[1] as int;
    let m = d[2] as int;
    assert forall|o: int| from * m <= o < to * m implies (#[trigger] r1.words[o])
        == r2.words[o] by {
        e_within(e, 1, from, to, o);
        let l1 = line_along(d, a1.words, 1, o);
        let l2 = line_along(d, a2.words, 1, o);
        assert(m > 0 && from <= o / m < to && 0 <= o % m < m) by (nonlinear_arith)
            requires
                from * m <= o < to * m,
                0 <= m,
                0 <= from,
        ;
        let p = o / m;
        let q = o % m;
        assert forall|j: int| 0 <= j < k implies #[trigger] l1[j] == l2[j] by {
            let i = (p * k + j) * m + q;
            assert(from * (k * m) <= i < to * (k * m)) by (nonlinear_arith)
                requires
                    from <= p < to,
                    0 <= j < k,
                    0 <= q < m,
                    i == (p * k + j) * m + q,
            ;
            assert(a1.words[i] == a2.words[i]);
        }
        assert(l1 =~= l2);
        assert(total_of(l1, r1.words[o]));
        assert(total_of(l2, r2.words[o]));
    }
}

/// Tensors that agree at all positions are the same.
pub proof fn agree_at_all(a: TensorView, b: TensorView, lead: int)
    requires
        agree(a, b, lead, 0, count(a.dims.take(lead)) as int),
    ensures
        a == b,
{
    let n = count(a.dims.take(lead)) as int;
    agree_within(a, b, lead, 0, n);
    let w = breadth(a.dims, lead);
    assert(0 * w == 0) by (nonlinear_arith);
    assert(a.words =~= b.words);
}

} // verus!
