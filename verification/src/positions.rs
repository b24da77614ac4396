//! Tensors whose positions can be worked on one by one.
//!
//! The first dimension is of one item and the second runs over positions, so that the elements of
//! some positions stand in front of those of the positions that follow.
use vstd::arithmetic::div_mod::lemma_mod_multiples_vanish;
use vstd::prelude::*;

use crate::norm::{
    is_floor, is_l2_normed, is_length, is_norm_gated, is_rms, is_scalar, is_softplus, stretch_last,
    stretch_self,
};
use crate::ops::{
    is_exp, is_kept_mean, is_kept_total, is_log, is_maximum, is_product, is_quotient, is_root,
    is_sigmoid, is_silu, is_square, is_stretched_sum, is_sum, ones,
};
use crate::rows::narrow_is_run;
use crate::shape::{
    consistent, count, count_small, count_split, narrowed, reshaped, stretched, stretched_index,
    TensorView,
};
use crate::ssm::{repeated_heads, stretched_index_same};
use crate::tensor::{dtype_is_f32, line_along};
use candle_core::DType;

verus! {

/// The positions of `a` and then those of `b`.
pub open spec fn behind(a: TensorView, b: TensorView) -> TensorView {
    TensorView {
        dims: a.dims.update(1, (a.dims[1] + b.dims[1]) as usize),
        words: a.words + b.words,
    }
}

/// The positions of `b` can stand behind those of `a`: there is one item in each, and as much at
/// each position.
pub open spec fn follows(a: TensorView, b: TensorView) -> bool {
    &&& a.dims.len() >= 2
    &&& a.dims[0] == 1
    &&& b.dims == a.dims.update(1, b.dims[1])
    &&& a.dims[1] + b.dims[1] <= usize::MAX
    &&& consistent(a)
    &&& consistent(b)
}

/// How many elements there are at each position.
pub open spec fn width(dims: Seq<usize>) -> int {
    count(dims.skip(2)) as int
}

proof fn count_front(dims: Seq<usize>)
    requires
        dims.len() >= 2,
        dims[0] == 1,
    ensures
        count(dims) == dims[1] * width(dims),
{
    count_split(dims, 2);
    assert(dims.take(2) =~= seq![dims[0], dims[1]]);
    count_small(dims[0], dims[1], 0, 0, 0);
}

/// What is behind keeps its elements.
pub proof fn behind_facts(a: TensorView, b: TensorView)
    requires
        follows(a, b),
    ensures
        ({
            let c = behind(a, b);
            let w = width(a.dims);
            &&& width(b.dims) == w
            &&& width(c.dims) == w
            &&& c.dims.len() == a.dims.len()
            &&& c.dims[0] == 1
            &&& c.dims[1] == a.dims[1] + b.dims[1]
            &&& a.words.len() == a.dims[1] * w
            &&& b.words.len() == b.dims[1] * w
            &&& c.words.len() == c.dims[1] * w
            &&& consistent(c)
        }),
{
    let c = behind(a, b);
    count_front(a.dims);
    count_front(b.dims);
    count_front(c.dims);
    assert(a.dims.skip(2) =~= b.dims.skip(2));
    assert(a.dims.skip(2) =~= c.dims.skip(2));
    let w = width(a.dims);
    assert((a.dims[1] + b.dims[1]) * w == a.dims[1] * w + b.dims[1] * w) by (nonlinear_arith);
}

/// The parts of which a tensor was made.
pub proof fn behind_parts(a: TensorView, b: TensorView)
    requires
        follows(a, b),
    ensures
        narrowed(behind(a, b), 1, 0, a.dims[1]) == a,
        narrowed(behind(a, b), 1, a.dims[1] as int, b.dims[1]) == b,
{
    let c = behind(a, b);
    behind_facts(a, b);
    assert(c.dims.take(1) =~= seq![1usize]);
    count_small(1, 0, 0, 0, 0);
    narrow_is_run(c, 1, 0, a.dims[1]);
    narrow_is_run(c, 1, a.dims[1] as int, b.dims[1]);
    let w = width(a.dims);
    assert(0 * w == 0 && (0 + a.dims[1]) * w == a.dims[1] * w) by (nonlinear_arith);
    let first = narrowed(c, 1, 0, a.dims[1]);
    let last = narrowed(c, 1, a.dims[1] as int, b.dims[1]);
    assert(first.words =~= a.words);
    assert(last.words =~= b.words);
    assert(first.dims =~= a.dims);
    assert(last.dims =~= b.dims);
}

/// What works element by element works on positions one by one.
pub proof fn elements_behind(a1: TensorView, a2: TensorView, r1: TensorView, r2: TensorView)
    requires
        follows(a1, a2),
        r1.dims == a1.dims,
        r2.dims == a2.dims,
        consistent(r1),
        consistent(r2),
    ensures
        follows(r1, r2),
        is_exp(a1, r1) && is_exp(a2, r2) ==> is_exp(behind(a1, a2), behind(r1, r2)),
        is_log(a1, r1) && is_log(a2, r2) ==> is_log(behind(a1, a2), behind(r1, r2)),
        is_silu(a1, r1) && is_silu(a2, r2) ==> is_silu(behind(a1, a2), behind(r1, r2)),
        is_sigmoid(a1, r1) && is_sigmoid(a2, r2) ==> is_sigmoid(behind(a1, a2), behind(r1, r2)),
        is_square(a1, r1) && is_square(a2, r2) ==> is_square(behind(a1, a2), behind(r1, r2)),
        is_root(a1, r1) && is_root(a2, r2) ==> is_root(behind(a1, a2), behind(r1, r2)),
{
    behind_facts(a1, a2);
    behind_facts(r1, r2);
    let r = behind(r1, r2);
    let n = r1.words.len() as int;
    assert forall|i: int| 0 <= i < r.words.len() implies #[trigger] r.words[i] == (if i < n {
        r1.words[i]
    } else {
        r2.words[i - n]
    }) by {}
}

/// A shape whose dimensions are those of another, or one, stretches to it.
pub proof fn stretch_ones(d: Seq<usize>, b: Seq<usize>)
    requires
        b.len() == d.len(),
        forall|j: int| 0 <= j < d.len() ==> #[trigger] b[j] == d[j] || b[j] == 1,
    ensures
        stretched(d, b) == Some(d),
    decreases d.len(),
{
    if d.len() > 0 {
        let d0 = d.drop_last();
        let b0 = b.drop_last();
        assert forall|j: int| 0 <= j < d0.len() implies #[trigger] b0[j] == d0[j] || b0[j] == 1 by {
            assert(b[j] == d[j] || b[j] == 1);
        }
        stretch_ones(d0, b0);
        assert(b[d.len() - 1] == d[d.len() - 1] || b[d.len() - 1] == 1);
        assert(d0.push(d.last()) =~= d);
    }
}

/// Where one index is left in the last dimension, all elements along it come from one place.
pub proof fn index_last(d: Seq<usize>, i: int)
    requires
        d.len() > 0,
        0 <= i < count(d),
    ensures
        d.last() > 0,
        stretched_index(d.update(d.len() - 1, 1), d, i) == i / d.last() as int,
{
    let e = d.update(d.len() - 1, 1);
    let m = d.last() as int;
    let n = count(d.drop_last()) as int;
    assert(e.drop_last() =~= d.drop_last());
    assert(m > 0 && 0 <= i / m < n) by (nonlinear_arith)
        requires
            0 <= i < n * m,
            0 <= m,
            0 <= n,
    ;
    stretched_index_same(d.drop_last(), i / m);
    let front = i / m;
    assert(front * 1 + 0 == front);
}

proof fn index_ones(b: Seq<usize>, d: Seq<usize>, i: int)
    requires
        b.len() == d.len(),
        forall|j: int| 0 <= j < b.len() ==> #[trigger] b[j] == 1,
    ensures
        stretched_index(b, d, i) == 0,
    decreases b.len(),
{
    if b.len() > 0 {
        let b0 = b.drop_last();
        assert forall|j: int| 0 <= j < b0.len() implies #[trigger] b0[j] == 1 by {
            assert(b[j] == 1);
        }
        index_ones(b0, d.drop_last(), i / d.last() as int);
        assert(b[b.len() - 1] == 1);
        assert(0 * 1 + 0 == 0);
    }
}

/// A single number, or one number for each index of the last dimension.
pub open spec fn is_tail(b: Seq<usize>, d: Seq<usize>) -> bool {
    ||| b.len() == 0
    ||| {
        &&& b.len() == d.len()
        &&& b.last() == d.last()
        &&& forall|j: int| 0 <= j < b.len() - 1 ==> #[trigger] b[j] == 1
    }
}

/// How many numbers there are.
pub open spec fn tail_of(b: Seq<usize>) -> int {
    if b.len() == 0 {
        1
    } else {
        b.last() as int
    }
}

/// Where numbers for the last dimension are the same for all else, they come round again.
pub proof fn index_tail(b: Seq<usize>, d: Seq<usize>, i: int)
    requires
        d.len() >= 3,
        is_tail(b, d),
        0 <= i < count(d),
    ensures
        tail_of(b) > 0,
        stretched_index(b, d, i) == i % tail_of(b),
        stretched(d, b) == Some(d),
{
    if b.len() > 0 {
        let m = d.last() as int;
        let n = count(d.drop_last()) as int;
        assert(m > 0) by (nonlinear_arith)
            requires
                0 <= i < n * m,
                0 <= m,
                0 <= n,
        ;
        let b0 = b.drop_last();
        assert forall|j: int| 0 <= j < b0.len() implies #[trigger] b0[j] == 1 by {
            assert(b[j] == 1);
        }
        index_ones(b0, d.drop_last(), i / m);
        assert forall|j: int| 0 <= j < d.len() implies #[trigger] b[j] == d[j] || b[j] == 1 by {
            if j == d.len() - 1 {
                assert(b[j] == b.last());
            }
        }
        stretch_ones(d, b);
        assert(0 * b.last() == 0) by (nonlinear_arith);
    }
}

/// The last dimension is one of those at a position.
proof fn width_last(d: Seq<usize>)
    requires
        d.len() >= 3,
    ensures
        width(d) == width(d.update(d.len() - 1, 1)) * d.last(),
{
    let e = d.update(d.len() - 1, 1);
    assert(d.skip(2).drop_last() =~= e.skip(2).drop_last());
    assert(d.skip(2).last() == d.last());
    assert(e.skip(2).last() == 1);
    let n = count(d.skip(2).drop_last());
    assert(n * 1 == n);
}

/// What divides each vector by a number of its own works on positions one by one.
pub proof fn quotient_behind(
    a1: TensorView,
    a2: TensorView,
    b1: TensorView,
    b2: TensorView,
    r1: TensorView,
    r2: TensorView,
)
    requires
        follows(a1, a2),
        follows(b1, b2),
        a1.dims.len() >= 3,
        b1.dims == a1.dims.update(a1.dims.len() - 1, 1),
        b2.dims == a2.dims.update(a2.dims.len() - 1, 1),
        is_quotient(a1, b1, r1),
        is_quotient(a2, b2, r2),
    ensures
        follows(r1, r2),
        r1.dims == a1.dims,
        is_quotient(behind(a1, a2), behind(b1, b2), behind(r1, r2)),
{
    let a = behind(a1, a2);
    let b = behind(b1, b2);
    let r = behind(r1, r2);
    behind_facts(a1, a2);
    behind_facts(b1, b2);
    stretch_last(a1.dims);
    stretch_last(a2.dims);
    assert(b.dims =~= a.dims.update(a.dims.len() - 1, 1));
    stretch_last(a.dims);
    behind_facts(r1, r2);
    width_last(a1.dims);
    let m = a.dims.last() as int;
    let n = a1.words.len() as int;
    let nb = b1.words.len() as int;
    let w = width(b1.dims);
    let t = a1.dims[1] as int;
    assert(n == nb * m) by (nonlinear_arith)
        requires
            n == t * (w * m),
            nb == t * w,
    ;
    let t2 = a2.dims[1] as int;
    let nb2 = b2.words.len() as int;
    assert(a2.words.len() == nb2 * m) by (nonlinear_arith)
        requires
            a2.words.len() == t2 * (w * m),
            nb2 == t2 * w,
    ;
    assert forall|i: int| 0 <= i < r.words.len() implies crate::tensor::quotient_of(
        a.words[stretched_index(a.dims, r.dims, i)],
        b.words[stretched_index(b.dims, r.dims, i)],
        #[trigger] r.words[i],
    ) by {
        stretched_index_same(a.dims, i);
        index_last(a.dims, i);
        if i < n {
            stretched_index_same(a1.dims, i);
            index_last(a1.dims, i);
            assert(0 <= i / m < nb) by (nonlinear_arith)
                requires
                    0 <= i < nb * m,
                    m > 0,
            ;
            assert(r.words[i] == r1.words[i]);
        } else {
            let j = i - n;
            stretched_index_same(a2.dims, j);
            index_last(a2.dims, j);
            assert(i / m == nb + j / m && 0 <= j / m < nb2) by (nonlinear_arith)
                requires
                    i == nb * m + j,
                    0 <= j < nb2 * m,
                    m > 0,
            ;
            assert(r.words[i] == r2.words[j]);
        }
    }
}

/// What takes the same numbers at each position works on positions one by one.
pub proof fn tail_behind(
    a1: TensorView,
    a2: TensorView,
    b: TensorView,
    r1: TensorView,
    r2: TensorView,
)
    requires
        follows(a1, a2),
        a1.dims.len() >= 3,
        is_tail(b.dims, a1.dims),
        consistent(r1),
        consistent(r2),
        stretched(a1.dims, b.dims) == Some(r1.dims),
        stretched(a2.dims, b.dims) == Some(r2.dims),
    ensures
        follows(r1, r2),
        r1.dims == a1.dims,
        r2.dims == a2.dims,
        is_product(a1, b, r1) && is_product(a2, b, r2) ==> is_product(
            behind(a1, a2),
            b,
            behind(r1, r2),
        ),
        is_stretched_sum(a1, b, r1) && is_stretched_sum(a2, b, r2) ==> is_stretched_sum(
            behind(a1, a2),
            b,
            behind(r1, r2),
        ),
        is_maximum(a1, b, r1) && is_maximum(a2, b, r2) ==> is_maximum(
            behind(a1, a2),
            b,
            behind(r1, r2),
        ),
{
    let a = behind(a1, a2);
    let r = behind(r1, r2);
    behind_facts(a1, a2);
    tail_stretches(b.dims, a1.dims);
    tail_stretches(b.dims, a2.dims);
    tail_stretches(b.dims, a.dims);
    behind_facts(r1, r2);
    width_last(a1.dims);
    let m = tail_of(b.dims);
    let n = a1.words.len() as int;
    let t = a1.dims[1] as int;
    let last = a1.dims.last() as int;
    let w = width(a1.dims.update(a1.dims.len() - 1, 1));
    let k = t * w * (if b.dims.len() == 0 {
        last
    } else {
        1
    });
    assert(n == k * m) by (nonlinear_arith)
        requires
            n == t * (w * last),
            m == 1 && k == t * w * last || m == last && k == t * w * 1,
    ;
    assert forall|i: int| 0 <= i < r.words.len() implies {
        &&& stretched_index(a.dims, r.dims, i) == i
        &&& stretched_index(b.dims, r.dims, i) == i % m
        &&& i < n ==> {
            &&& r.words[i] == r1.words[i]
            &&& stretched_index(a1.dims, r1.dims, i) == i
            &&& stretched_index(b.dims, r1.dims, i) == i % m
        }
        &&& i >= n ==> {
            &&& #[trigger] r.words[i] == r2.words[i - n]
            &&& stretched_index(a2.dims, r2.dims, i - n) == i - n
            &&& stretched_index(b.dims, r2.dims, i - n) == i % m
        }
    } by {
        stretched_index_same(a.dims, i);
        index_tail(b.dims, a.dims, i);
        if i < n {
            stretched_index_same(a1.dims, i);
            index_tail(b.dims, a1.dims, i);
        } else {
            let j = i - n;
            stretched_index_same(a2.dims, j);
            index_tail(b.dims, a2.dims, j);
            lemma_mod_multiples_vanish(k, j, m);
            assert(m * k == k * m) by (nonlinear_arith);
        }
    }
}

proof fn tail_stretches(b: Seq<usize>, d: Seq<usize>)
    requires
        d.len() >= 3,
        is_tail(b, d),
    ensures
        stretched(d, b) == Some(d),
{
    if b.len() > 0 {
        assert forall|j: int| 0 <= j < d.len() implies #[trigger] b[j] == d[j] || b[j] == 1 by {
            if j == d.len() - 1 {
                assert(b[j] == b.last());
            }
        }
        stretch_ones(d, b);
    }
}

/// What takes two elements at a time works on positions one by one.
pub proof fn pairs_behind(
    a1: TensorView,
    a2: TensorView,
    b1: TensorView,
    b2: TensorView,
    r1: TensorView,
    r2: TensorView,
)
    requires
        follows(a1, a2),
        follows(b1, b2),
        b1.dims == a1.dims,
        b2.dims == a2.dims,
    ensures
        is_product(a1, b1, r1) && is_product(a2, b2, r2) ==> {
            &&& follows(r1, r2)
            &&& r1.dims == a1.dims
            &&& is_product(behind(a1, a2), behind(b1, b2), behind(r1, r2))
        },
        is_sum(a1, b1, r1) && is_sum(a2, b2, r2) ==> {
            &&& follows(r1, r2)
            &&& is_sum(behind(a1, a2), behind(b1, b2), behind(r1, r2))
        },
{
    let a = behind(a1, a2);
    let b = behind(b1, b2);
    let r = behind(r1, r2);
    behind_facts(a1, a2);
    behind_facts(b1, b2);
    stretch_self(a1.dims);
    stretch_self(a2.dims);
    stretch_self(a.dims);
    assert(b.dims =~= a.dims);
    let n = a1.words.len() as int;
    if is_product(a1, b1, r1) && is_product(a2, b2, r2) {
        behind_facts(r1, r2);
        assert forall|i: int| 0 <= i < r.words.len() implies crate::tensor::product_of(
            a.words[stretched_index(a.dims, r.dims, i)],
            b.words[stretched_index(b.dims, r.dims, i)],
            #[trigger] r.words[i],
        ) by {
            stretched_index_same(a.dims, i);
            if i < n {
                stretched_index_same(a1.dims, i);
                assert(r.words[i] == r1.words[i]);
            } else {
                stretched_index_same(a2.dims, i - n);
                assert(r.words[i] == r2.words[i - n]);
            }
        }
    }
    if is_sum(a1, b1, r1) && is_sum(a2, b2, r2) {
        behind_facts(r1, r2);
        assert forall|i: int| 0 <= i < r.words.len() implies crate::tensor::sum_of(
            a.words[i],
            b.words[i],
            #[trigger] r.words[i],
        ) by {
            if i < n {
                assert(r.words[i] == r1.words[i]);
            } else {
                assert(r.words[i] == r2.words[i - n]);
            }
        }
    }
}

/// What adds up along the last dimension works on positions one by one.
pub proof fn lines_behind(a1: TensorView, a2: TensorView, r1: TensorView, r2: TensorView)
    requires
        follows(a1, a2),
        a1.dims.len() == 4,
        r1.dims == a1.dims.update(3, 1),
        r2.dims == a2.dims.update(3, 1),
        consistent(r1),
        consistent(r2),
    ensures
        follows(r1, r2),
        behind(r1, r2).dims == behind(a1, a2).dims.update(3, 1),
        is_kept_total(a1, 3, r1) && is_kept_total(a2, 3, r2) ==> is_kept_total(
            behind(a1, a2),
            3,
            behind(r1, r2),
        ),
        is_kept_mean(a1, 3, r1) && is_kept_mean(a2, 3, r2) ==> is_kept_mean(
            behind(a1, a2),
            3,
            behind(r1, r2),
        ),
{
    let dim = 3int;
    let a = behind(a1, a2);
    let r = behind(r1, r2);
    behind_facts(a1, a2);
    assert(r2.dims =~= r1.dims.update(1, r2.dims[1]));
    behind_facts(r1, r2);
    assert(r.dims =~= a.dims.update(dim, 1));
    width_last(a1.dims);
    let m = a1.dims.last() as int;
    let n = a1.words.len() as int;
    let k = r1.words.len() as int;
    let t = a1.dims[1] as int;
    let w = width(r1.dims);
    assert(n == k * m) by (nonlinear_arith)
        requires
            n == t * (w * m),
            k == t * w,
    ;
    let t2 = a2.dims[1] as int;
    assert(a2.words.len() == r2.words.len() * m) by (nonlinear_arith)
        requires
            a2.words.len() == t2 * (w * m),
            r2.words.len() == t2 * w,
    ;
    assert forall|o: int| 0 <= o < r.words.len() implies {
        &&& o < k ==> {
            &&& r.words[o] == r1.words[o]
            &&& line_along(a.dims, a.words, dim, o) == line_along(a1.dims, a1.words, dim, o)
        }
        &&& o >= k ==> {
            &&& #[trigger] r.words[o] == r2.words[o - k]
            &&& line_along(a.dims, a.words, dim, o) == line_along(a2.dims, a2.words, dim, o - k)
        }
    } by {
        let l = line_along(a.dims, a.words, dim, o);
        assert(a.dims.skip(dim + 1) =~= Seq::empty());
        assert(a1.dims.skip(dim + 1) =~= Seq::empty());
        assert(a2.dims.skip(dim + 1) =~= Seq::empty());
        if o < k {
            let l1 = line_along(a1.dims, a1.words, dim, o);
            assert forall|j: int| 0 <= j < m implies #[trigger] l[j] == l1[j] by {
                assert(0 <= o * m + j < k * m) by (nonlinear_arith)
                    requires
                        0 <= o < k,
                        0 <= j < m,
                ;
                assert((o / 1 * m + j) * 1 + o % 1 == o * m + j);
            }
            assert(l =~= l1);
        } else {
            let q = o - k;
            let l2 = line_along(a2.dims, a2.words, dim, q);
            assert forall|j: int| 0 <= j < m implies #[trigger] l[j] == l2[j] by {
                let k2 = r2.words.len() as int;
                assert(o * m + j == k * m + (q * m + j) && 0 <= q * m + j < k2 * m)
                    by (nonlinear_arith)
                    requires
                        o == k + q,
                        0 <= q < k2,
                        0 <= j < m,
                ;
                assert((o / 1 * m + j) * 1 + o % 1 == o * m + j);
                assert((q / 1 * m + j) * 1 + q % 1 == q * m + j);
            }
            assert(l =~= l2);
        }
    }
}

/// Scaling vectors to length one works on positions one by one.
pub proof fn l2_behind(
    x1: TensorView,
    x2: TensorView,
    eps: u32,
    d1: DType,
    d2: DType,
    r1: TensorView,
    r2: TensorView,
)
    requires
        follows(x1, x2),
        x1.dims.len() == 4,
        dtype_is_f32(d1),
        dtype_is_f32(d2),
        is_l2_normed(x1, eps, d1, r1),
        is_l2_normed(x2, eps, d2, r2),
    ensures
        follows(r1, r2),
        r1.dims == x1.dims,
        r2.dims == x2.dims,
        is_l2_normed(behind(x1, x2), eps, d1, behind(r1, r2)),
{
    let (length1, least1, by1) = choose|length: TensorView, least: TensorView, by: TensorView|
        {
            &&& is_length(x1, length)
            &&& is_scalar(eps, d1, least)
            &&& #[trigger] is_maximum(length, least, by)
            &&& #[trigger] is_quotient(x1, by, r1)
        };
    let (length2, least2, by2) = choose|length: TensorView, least: TensorView, by: TensorView|
        {
            &&& is_length(x2, length)
            &&& is_scalar(eps, d2, least)
            &&& #[trigger] is_maximum(length, least, by)
            &&& #[trigger] is_quotient(x2, by, r2)
        };
    assert(least1 =~= least2);
    length_behind(x1, x2, length1, length2);
    tail_behind(length1, length2, least1, by1, by2);
    stretch_last(x1.dims);
    stretch_last(x2.dims);
    quotient_behind(x1, x2, by1, by2, r1, r2);
    assert(is_maximum(behind(length1, length2), least1, behind(by1, by2)));
    assert(is_quotient(behind(x1, x2), behind(by1, by2), behind(r1, r2)));
}

proof fn length_behind(x1: TensorView, x2: TensorView, r1: TensorView, r2: TensorView)
    requires
        follows(x1, x2),
        x1.dims.len() == 4,
        is_length(x1, r1),
        is_length(x2, r2),
    ensures
        follows(r1, r2),
        r1.dims == x1.dims.update(3, 1),
        r2.dims == x2.dims.update(3, 1),
        is_length(behind(x1, x2), behind(r1, r2)),
{
    let (squares1, total1) = choose|squares: TensorView, total: TensorView|
        {
            &&& is_square(x1, squares)
            &&& #[trigger] is_kept_total(squares, (x1.dims.len() - 1) as usize, total)
            &&& #[trigger] is_root(total, r1)
        };
    let (squares2, total2) = choose|squares: TensorView, total: TensorView|
        {
            &&& is_square(x2, squares)
            &&& #[trigger] is_kept_total(squares, (x2.dims.len() - 1) as usize, total)
            &&& #[trigger] is_root(total, r2)
        };
    elements_behind(x1, x2, squares1, squares2);
    lines_behind(squares1, squares2, total1, total2);
    elements_behind(total1, total2, r1, r2);
    assert(is_kept_total(behind(squares1, squares2), 3, behind(total1, total2)));
    assert(is_root(behind(total1, total2), behind(r1, r2)));
}

/// Softplus works on positions one by one.
pub proof fn softplus_behind(x1: TensorView, x2: TensorView, r1: TensorView, r2: TensorView)
    requires
        follows(x1, x2),
        is_softplus(x1, r1),
        is_softplus(x2, r2),
    ensures
        follows(r1, r2),
        r1.dims == x1.dims,
        r2.dims == x2.dims,
        is_softplus(behind(x1, x2), behind(r1, r2)),
{
    let (powers1, more1) = choose|powers: TensorView, more: TensorView|
        {
            &&& is_exp(x1, powers)
            &&& #[trigger] is_sum(ones(x1.dims), powers, more)
            &&& #[trigger] is_log(more, r1)
        };
    let (powers2, more2) = choose|powers: TensorView, more: TensorView|
        {
            &&& is_exp(x2, powers)
            &&& #[trigger] is_sum(ones(x2.dims), powers, more)
            &&& #[trigger] is_log(more, r2)
        };
    let u1 = ones(x1.dims);
    let u2 = ones(x2.dims);
    behind_facts(x1, x2);
    elements_behind(x1, x2, powers1, powers2);
    assert(behind(u1, u2) =~= ones(behind(x1, x2).dims));
    pairs_behind(u1, u2, powers1, powers2, more1, more2);
    elements_behind(more1, more2, r1, r2);
    assert(is_sum(ones(behind(x1, x2).dims), behind(powers1, powers2), behind(more1, more2)));
    assert(is_log(behind(more1, more2), behind(r1, r2)));
}

proof fn rms_behind(
    x1: TensorView,
    x2: TensorView,
    d1: DType,
    d2: DType,
    r1: TensorView,
    r2: TensorView,
)
    requires
        follows(x1, x2),
        x1.dims.len() == 4,
        dtype_is_f32(d1),
        dtype_is_f32(d2),
        is_rms(x1, d1, r1),
        is_rms(x2, d2, r2),
    ensures
        follows(r1, r2),
        r1.dims == x1.dims.update(3, 1),
        r2.dims == x2.dims.update(3, 1),
        is_rms(behind(x1, x2), d1, behind(r1, r2)),
{
    let (squares1, mean1, rms1, least1) = choose|
        squares: TensorView,
        mean: TensorView,
        rms: TensorView,
        least: TensorView,
    |
        {
            &&& is_square(x1, squares)
            &&& #[trigger] is_kept_mean(squares, (x1.dims.len() - 1) as usize, mean)
            &&& #[trigger] is_root(mean, rms)
            &&& is_floor(d1, least)
            &&& #[trigger] is_maximum(rms, least, r1)
        };
    let (squares2, mean2, rms2, least2) = choose|
        squares: TensorView,
        mean: TensorView,
        rms: TensorView,
        least: TensorView,
    |
        {
            &&& is_square(x2, squares)
            &&& #[trigger] is_kept_mean(squares, (x2.dims.len() - 1) as usize, mean)
            &&& #[trigger] is_root(mean, rms)
            &&& is_floor(d2, least)
            &&& #[trigger] is_maximum(rms, least, r2)
        };
    assert(least1 =~= least2);
    elements_behind(x1, x2, squares1, squares2);
    lines_behind(squares1, squares2, mean1, mean2);
    elements_behind(mean1, mean2, rms1, rms2);
    tail_behind(rms1, rms2, least1, r1, r2);
    assert(is_kept_mean(behind(squares1, squares2), 3, behind(mean1, mean2)));
    assert(is_root(behind(mean1, mean2), behind(rms1, rms2)));
    assert(is_maximum(behind(rms1, rms2), least1, behind(r1, r2)));
}

/// The gated normalisation works on positions one by one.
pub proof fn gated_behind(
    x1: TensorView,
    x2: TensorView,
    gate1: TensorView,
    gate2: TensorView,
    weight: TensorView,
    d1: DType,
    d2: DType,
    r1: TensorView,
    r2: TensorView,
)
    requires
        follows(x1, x2),
        x1.dims.len() == 4,
        follows(gate1, gate2),
        gate1.dims == x1.dims,
        gate2.dims == x2.dims,
        dtype_is_f32(d1),
        dtype_is_f32(d2),
        is_norm_gated(x1, gate1, weight, d1, r1),
        is_norm_gated(x2, gate2, weight, d2, r2),
    ensures
        follows(r1, r2),
        r1.dims == x1.dims,
        r2.dims == x2.dims,
        is_norm_gated(behind(x1, x2), behind(gate1, gate2), weight, d1, behind(r1, r2)),
{
    let (rms1, normed1, weighted1, act1) = choose|
        rms: TensorView,
        normed: TensorView,
        weighted: TensorView,
        act: TensorView,
    |
        {
            &&& is_rms(x1, d1, rms)
            &&& #[trigger] is_quotient(x1, rms, normed)
            &&& is_product(normed, reshaped(weight, seq![1, 1, 1, x1.dims[3]]), weighted)
            &&& is_silu(gate1, act)
            &&& #[trigger] is_product(weighted, act, r1)
        };
    let (rms2, normed2, weighted2, act2) = choose|
        rms: TensorView,
        normed: TensorView,
        weighted: TensorView,
        act: TensorView,
    |
        {
            &&& is_rms(x2, d2, rms)
            &&& #[trigger] is_quotient(x2, rms, normed)
            &&& is_product(normed, reshaped(weight, seq![1, 1, 1, x2.dims[3]]), weighted)
            &&& is_silu(gate2, act)
            &&& #[trigger] is_product(weighted, act, r2)
        };
    let w = reshaped(weight, seq![1, 1, 1, x1.dims[3]]);
    assert(x2.dims[3] == x1.dims[3]);
    rms_behind(x1, x2, d1, d2, rms1, rms2);
    stretch_last(x1.dims);
    stretch_last(x2.dims);
    quotient_behind(x1, x2, rms1, rms2, normed1, normed2);
    assert(is_tail(w.dims, normed1.dims));
    tail_behind(normed1, normed2, w, weighted1, weighted2);
    elements_behind(gate1, gate2, act1, act2);
    stretch_self(x1.dims);
    stretch_self(x2.dims);
    pairs_behind(weighted1, weighted2, act1, act2, r1, r2);
    let x = behind(x1, x2);
    assert(x.dims[3] == x1.dims[3]);
    assert(is_quotient(x, behind(rms1, rms2), behind(normed1, normed2)));
    assert(is_product(behind(normed1, normed2), w, behind(weighted1, weighted2)));
    assert(is_product(behind(weighted1, weighted2), behind(act1, act2), behind(r1, r2)));
}

/// Cutting off channels works on positions one by one.
pub proof fn channels_behind(a: TensorView, b: TensorView, start: int, len: usize)
    requires
        follows(a, b),
        a.dims.len() == 3,
        0 <= start,
        start + len <= a.dims[2],
    ensures
        follows(narrowed(a, 2, start, len), narrowed(b, 2, start, len)),
        narrowed(behind(a, b), 2, start, len) == behind(
            narrowed(a, 2, start, len),
            narrowed(b, 2, start, len),
        ),
{
    let c = behind(a, b);
    let na = narrowed(a, 2, start, len);
    let nb = narrowed(b, 2, start, len);
    let nc = narrowed(c, 2, start, len);
    behind_facts(a, b);
    channel_words(a, start, len);
    channel_words(b, start, len);
    channel_words(c, start, len);
    let n = len as int;
    let d = a.dims[2] as int;
    let t1 = a.dims[1] as int;
    let t2 = b.dims[1] as int;
    assert(a.dims.skip(2) =~= seq![a.dims[2]]);
    count_small(a.dims[2], 0, 0, 0, 0);
    assert((t1 + t2) * n == t1 * n + t2 * n) by (nonlinear_arith);
    let cut = t1 * n;
    let glued = na.words + nb.words;
    assert forall|i: int| 0 <= i < nc.words.len() implies #[trigger] nc.words[i] == glued[i] by {
        if i < cut {
            assert(n > 0 && 0 <= (i / n) * d + start + i % n < t1 * d) by (nonlinear_arith)
                requires
                    0 <= i < t1 * n,
                    0 <= n,
                    0 <= t1,
                    0 <= start,
                    start + n <= d,
            ;
        } else {
            let j = i - cut;
            assert(n > 0 && i / n == t1 + j / n && i % n == j % n && 0 <= j / n < t2 && 0 <= j % n
                < n) by (nonlinear_arith)
                requires
                    i == t1 * n + j,
                    0 <= j < t2 * n,
                    0 <= n,
                    0 <= t2,
            ;
            let p = j / n;
            let q = j % n;
            assert((t1 + p) * d + start + q == t1 * d + (p * d + start + q) && 0 <= p * d + start
                + q < t2 * d) by (nonlinear_arith)
                requires
                    0 <= p < t2,
                    0 <= q < n,
                    0 <= start,
                    start + n <= d,
            ;
        }
    }
    assert(nc.words =~= glued);
    assert(nc.dims =~= behind(na, nb).dims);
    assert(nb.dims =~= na.dims.update(1, nb.dims[1]));
}

/// The elements that are left of each position where channels are cut off.
pub proof fn channel_words(v: TensorView, start: int, len: usize)
    requires
        v.dims.len() == 3,
        v.dims[0] == 1,
    ensures
        narrowed(v, 2, start, len).words == Seq::new(
            (v.dims[1] * len) as nat,
            |i: int| v.words[(i / len as int) * v.dims[2] + start + i % len as int],
        ),
        consistent(narrowed(v, 2, start, len)),
{
    let n = len as int;
    let t = v.dims[1] as int;
    assert(v.dims.take(2) =~= seq![1, v.dims[1]]);
    count_small(1, v.dims[1], 0, 0, 0);
    assert(v.dims.skip(3) =~= Seq::empty());
    let r = narrowed(v, 2, start, len);
    assert(r.dims =~= seq![1, v.dims[1], len]);
    count_small(1, v.dims[1], len, 0, 0);
    assert(1 * t * n * 1 == t * n && 1 * t * n == t * n && t * n >= 0 && n * 1 == n)
        by (nonlinear_arith)
        requires
            t >= 0,
            n >= 0,
    ;
    assert(r.words.len() == t * n);
    assert forall|i: int| 0 <= i < t * n implies #[trigger] r.words[i] == v.words[(i / n)
        * v.dims[2] + start + i % n] by {
        let p = (i / n) * v.dims[2] + start;
        assert(p * 1 == p);
    }
    assert(r.words =~= Seq::new(
        (v.dims[1] * len) as nat,
        |i: int| v.words[(i / len as int) * v.dims[2] + start + i % len as int],
    ));
}

/// Other dimensions for what is at a position.
pub proof fn reshape_behind(a: TensorView, b: TensorView, da: Seq<usize>, db: Seq<usize>)
    requires
        follows(a, b),
        da.len() >= 2,
        da[0] == 1,
        da[1] == a.dims[1],
        db == da.update(1, b.dims[1]),
        count(da) == count(a.dims),
        count(db) == count(b.dims),
    ensures
        follows(reshaped(a, da), reshaped(b, db)),
        reshaped(behind(a, b), da.update(1, (a.dims[1] + b.dims[1]) as usize)) == behind(
            reshaped(a, da),
            reshaped(b, db),
        ),
{
}

/// Giving heads the vectors of their groups works on positions one by one.
pub proof fn heads_behind(a: TensorView, b: TensorView, heads: usize, repeat: usize)
    requires
        follows(a, b),
        a.dims.len() == 4,
        heads * a.dims[3] == a.dims[2] * repeat * a.dims[3],
    ensures
        follows(repeated_heads(a, heads, repeat), repeated_heads(b, heads, repeat)),
        repeated_heads(behind(a, b), heads, repeat) == behind(
            repeated_heads(a, heads, repeat),
            repeated_heads(b, heads, repeat),
        ),
{
    let c = behind(a, b);
    let ra = repeated_heads(a, heads, repeat);
    let rb = repeated_heads(b, heads, repeat);
    let rc = repeated_heads(c, heads, repeat);
    behind_facts(a, b);
    let g = a.dims[2] as int;
    let s = a.dims[3] as int;
    let r = repeat as int;
    let t1 = a.dims[1] as int;
    let t2 = b.dims[1] as int;
    let na = a.words.len() as int;
    let nb = b.words.len() as int;
    assert(a.dims =~= seq![1, a.dims[1], a.dims[2], a.dims[3]]);
    assert(b.dims =~= seq![1, b.dims[1], a.dims[2], a.dims[3]]);
    count_small(1, a.dims[1], a.dims[2], a.dims[3], 0);
    count_small(1, b.dims[1], a.dims[2], a.dims[3], 0);
    assert(ra.dims =~= seq![1, a.dims[1], heads, a.dims[3]]);
    assert(rb.dims =~= seq![1, b.dims[1], heads, a.dims[3]]);
    count_small(1, a.dims[1], heads, a.dims[3], 0);
    count_small(1, b.dims[1], heads, a.dims[3], 0);
    let h = heads as int;
    assert(1 * t1 * h * s == na * r && 1 * t2 * h * s == nb * r && (na + nb) * r == na * r + nb * r)
        by (nonlinear_arith)
        requires
            h * s == g * r * s,
            na == 1 * t1 * g * s,
            nb == 1 * t2 * g * s,
    ;
    assert forall|i: int| 0 <= i < rc.words.len() implies #[trigger] rc.words[i] == behind(
        ra,
        rb,
    ).words[i] by {
        let cut = na * r;
        let v = t1 * g;
        let v2 = t2 * g;
        assert(na == v * s && nb == v2 * s) by (nonlinear_arith)
            requires
                v == t1 * g,
                v2 == t2 * g,
                na == 1 * t1 * g * s,
                nb == 1 * t2 * g * s,
        ;
        assert(r > 0) by (nonlinear_arith)
            requires
                0 <= i < (na + nb) * r,
                r >= 0,
        ;
        if i < cut {
            head_index(i, v, s, r);
        } else {
            let j = i - cut;
            head_index(j, v2, s, r);
            head_moves(i, j, v, s, r);
            let o = j / s / r;
            assert((v + o) * s + j % s == v * s + (o * s + j % s)) by (nonlinear_arith);
        }
    }
    assert(rc.words =~= behind(ra, rb).words);
    assert(rc.dims =~= behind(ra, rb).dims);
    assert(rb.dims =~= ra.dims.update(1, rb.dims[1]));
}

pub proof fn head_index(i: int, v: int, s: int, r: int)
    requires
        0 <= i < v * s * r,
        0 <= v,
        0 <= s,
        0 < r,
    ensures
        s > 0,
        0 <= (i / s / r) * s + i % s < v * s,
{
    assert(s > 0) by (nonlinear_arith)
        requires
            0 <= i < v * s * r,
            0 <= s,
    ;
    let p = i / s;
    assert(0 <= p < v * r && 0 <= i % s < s) by (nonlinear_arith)
        requires
            0 <= i < v * s * r,
            s > 0,
            p == i / s,
    ;
    let o = p / r;
    assert(0 <= o < v) by (nonlinear_arith)
        requires
            0 <= p < v * r,
            r > 0,
            o == p / r,
    ;
    let q = i % s;
    assert(0 <= o * s + q < v * s) by (nonlinear_arith)
        requires
            0 <= o < v,
            0 <= q < s,
    ;
}

pub proof fn head_moves(i: int, j: int, v: int, s: int, r: int)
    requires
        i == v * s * r + j,
        0 <= j,
        0 < s,
        0 < r,
    ensures
        i / s / r == v + j / s / r,
        i % s == j % s,
{
    let k = v * r;
    assert(i == k * s + j) by (nonlinear_arith)
        requires
            i == v * s * r + j,
            k == v * r,
    ;
    lemma_mod_multiples_vanish(k, j, s);
    assert(s * k == k * s) by (nonlinear_arith);
    assert(i / s == k + j / s) by (nonlinear_arith)
        requires
            i == k * s + j,
            s > 0,
    ;
    let p = j / s;
    assert((v * r + p) / r == v + p / r) by (nonlinear_arith)
        requires
            r > 0,
    ;
}

} // verus!
