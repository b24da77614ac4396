//! Shapes of tensors, and what moving elements around does to them.
//!
//! A tensor is seen as its dimensions and the row-major sequence of its elements.
use vstd::prelude::*;

verus! {

/// Dimensions of a tensor and its elements in row-major order. An element is the bit pattern
/// of its value as a 32-bit float.
#[verifier::ext_equal]
pub struct TensorView {
    pub dims: Seq<usize>,
    pub words: Seq<u32>,
}

/// Number of elements of a tensor with these dimensions.
pub open spec fn count(dims: Seq<usize>) -> nat
    decreases dims.len(),
{
    if dims.len() == 0 {
        1
    } else {
        count(dims.drop_last()) * dims.last() as nat
    }
}

/// A dimension as a factor of strides: one of zero counts as one.
pub open spec fn factor(d: usize) -> nat {
    if d == 0 {
        1
    } else {
        d as nat
    }
}

/// Product of the dimensions, with those of zero counted as one: none of the products of some of
/// the dimensions that strides are made of is larger.
pub open spec fn span(dims: Seq<usize>) -> nat
    decreases dims.len(),
{
    if dims.len() == 0 {
        1
    } else {
        span(dims.drop_last()) * factor(dims.last())
    }
}

/// A tensor of these dimensions can be held in memory: strides can be calculated, and eight bytes
/// for each element are at most `isize::MAX` bytes, the largest size of an allocation.
pub open spec fn fits(dims: Seq<usize>) -> bool {
    span(dims) <= usize::MAX && count(dims) <= usize::MAX / 16
}

/// The elements are as many as the dimensions say.
pub open spec fn consistent(v: TensorView) -> bool {
    v.words.len() == count(v.dims)
}

/// Shape of a pointwise operation on two shapes: dimensions are matched from the last one on,
/// and a dimension of one, or a missing one, stretches to the other.
pub open spec fn stretched(a: Seq<usize>, b: Seq<usize>) -> Option<Seq<usize>>
    decreases a.len() + b.len(),
{
    if a.len() == 0 {
        Some(b)
    } else if b.len() == 0 {
        Some(a)
    } else {
        match stretched(a.drop_last(), b.drop_last()) {
            None => None,
            Some(front) => if a.last() == b.last() || b.last() == 1 {
                Some(front.push(a.last()))
            } else if a.last() == 1 {
                Some(front.push(b.last()))
            } else {
                None
            },
        }
    }
}

/// A tensor of shape `src` can be read as one of shape `dst`: `dst` has all its dimensions,
/// counted from the last one, and differs only where `src` has a one.
pub open spec fn stretches_to(src: Seq<usize>, dst: Seq<usize>) -> bool
    decreases src.len(),
{
    if src.len() == 0 {
        true
    } else {
        &&& dst.len() > 0
        &&& src.last() == dst.last() || src.last() == 1
        &&& stretches_to(src.drop_last(), dst.drop_last())
    }
}

/// Position in a tensor of shape `src` of the element that stands at position `i` once the
/// tensor is read with shape `dst`.
pub open spec fn stretched_index(src: Seq<usize>, dst: Seq<usize>, i: int) -> int
    decreases src.len(),
{
    if src.len() == 0 || dst.len() == 0 {
        0
    } else {
        let d = dst.last() as int;
        let front = stretched_index(src.drop_last(), dst.drop_last(), i / d);
        front * src.last() + (if src.last() == 1 {
            0
        } else {
            i % d
        })
    }
}

/// The tensor `v` read with shape `dst`.
pub open spec fn stretched_view(v: TensorView, dst: Seq<usize>) -> TensorView {
    TensorView {
        dims: dst,
        words: Seq::new(count(dst), |i: int| v.words[stretched_index(v.dims, dst, i)]),
    }
}

/// Dimension `dim` exists and holds `len` indices from `start` on.
pub open spec fn can_narrow(dims: Seq<usize>, dim: int, start: int, len: int) -> bool {
    0 <= dim < dims.len() && start + len <= dims[dim]
}

/// The part of `v` from `start` on, of length `len`, along dimension `dim`.
pub open spec fn narrowed(v: TensorView, dim: int, start: int, len: usize) -> TensorView {
    let outer = count(v.dims.take(dim));
    let inner = count(v.dims.skip(dim + 1));
    let block = (len * inner) as int;
    TensorView {
        dims: v.dims.update(dim, len),
        words: Seq::new(
            outer * (len as nat) * inner,
            |i: int| v.words[((i / block) * v.dims[dim] + start) * (inner as int) + i % block],
        ),
    }
}

/// The same elements under other dimensions.
pub open spec fn reshaped(v: TensorView, dims: Seq<usize>) -> TensorView {
    TensorView { dims, words: v.words }
}

/// `v` with dimensions `dim` and `dim + 1` exchanged.
pub open spec fn swapped(v: TensorView, dim: int) -> TensorView {
    let a = v.dims[dim] as int;
    let b = v.dims[dim + 1] as int;
    let inner = count(v.dims.skip(dim + 2)) as int;
    TensorView {
        dims: v.dims.update(dim, v.dims[dim + 1]).update(dim + 1, v.dims[dim]),
        words: Seq::new(
            v.words.len(),
            |p: int|
                {
                    let rest = p % inner;
                    let i = (p / inner) % a;
                    let j = (p / inner / a) % b;
                    let outer = p / inner / a / b;
                    v.words[((outer * a + i) * b + j) * inner + rest]
                },
        ),
    }
}

/// Sum of the sizes of `parts` along dimension `dim`.
pub open spec fn total_along(parts: Seq<TensorView>, dim: int) -> nat
    decreases parts.len(),
{
    if parts.len() == 0 {
        0
    } else {
        total_along(parts.drop_last(), dim) + parts.last().dims[dim] as nat
    }
}

/// Elements that `parts` hold under the `o`-th index before dimension `dim`, one part after
/// the other.
pub open spec fn joined_slab(parts: Seq<TensorView>, dim: int, o: int) -> Seq<u32>
    decreases parts.len(),
{
    if parts.len() == 0 {
        Seq::empty()
    } else {
        let last = parts.last();
        let block = count(last.dims.skip(dim)) as int;
        joined_slab(parts.drop_last(), dim, o) + last.words.subrange(o * block, (o + 1) * block)
    }
}

/// The first `outer` slabs of `parts`, one after the other.
pub open spec fn joined_words(parts: Seq<TensorView>, dim: int, outer: nat) -> Seq<u32>
    decreases outer,
{
    if outer == 0 {
        Seq::empty()
    } else {
        joined_words(parts, dim, (outer - 1) as nat) + joined_slab(parts, dim, outer - 1)
    }
}

/// `parts` put side by side along dimension `dim`.
pub open spec fn joined(parts: Seq<TensorView>, dim: int) -> TensorView {
    TensorView {
        dims: parts[0].dims.update(dim, total_along(parts, dim) as usize),
        words: joined_words(parts, dim, count(parts[0].dims.take(dim))),
    }
}

/// `parts` can be put side by side along dimension `dim`: there is one, and they differ in that
/// dimension at most.
pub open spec fn joinable(parts: Seq<TensorView>, dim: int) -> bool {
    &&& parts.len() > 0
    &&& 0 <= dim < parts[0].dims.len()
    &&& forall|i: int|
        0 <= i < parts.len() ==> {
            &&& (#[trigger] parts[i]).dims.len() == parts[0].dims.len()
            &&& parts[i].dims.update(dim, 0) == parts[0].dims.update(dim, 0)
        }
}

/// The shape, and what is left of it once dimension `dim` is reduced to one index, can be held
/// in memory.
pub open spec fn reducible(dims: Seq<usize>, dim: int) -> bool {
    fits(dims) && (0 <= dim < dims.len() ==> fits(dims.update(dim, 1)))
}

/// A tensor of these dimensions whose elements are all zero.
pub open spec fn zeroed(dims: Seq<usize>) -> TensorView {
    TensorView { dims, words: Seq::new(count(dims), |i: int| 0u32) }
}

/// The number of elements splits at any dimension.
pub proof fn count_split(dims: Seq<usize>, k: int)
    requires
        0 <= k <= dims.len(),
    ensures
        count(dims) == count(dims.take(k)) * count(dims.skip(k)),
    decreases dims.len(),
{
    if k == dims.len() {
        assert(dims.take(k) =~= dims);
        assert(dims.skip(k) =~= Seq::empty());
    } else {
        count_split(dims.drop_last(), k);
        assert(dims.drop_last().take(k) =~= dims.take(k));
        assert(dims.skip(k).drop_last() =~= dims.drop_last().skip(k));
        let a = count(dims.take(k)) as int;
        let b = count(dims.skip(k).drop_last()) as int;
        let c = dims.last() as int;
        assert(a * b * c == a * (b * c)) by (nonlinear_arith);
    }
}

/// Element counts of the ranks that occur here.
pub proof fn count_small(a: usize, b: usize, c: usize, d: usize, e: usize)
    ensures
        count(seq![a]) == a,
        count(seq![a, b]) == a * b,
        count(seq![a, b, c]) == a * b * c,
        count(seq![a, b, c, d]) == a * b * c * d,
        count(seq![a, b, c, d, e]) == a * b * c * d * e,
{
    let s0 = Seq::<usize>::empty();
    let s1 = seq![a];
    let s2 = seq![a, b];
    let s3 = seq![a, b, c];
    let s4 = seq![a, b, c, d];
    let s5 = seq![a, b, c, d, e];
    assert(s1.drop_last() =~= s0);
    assert(s2.drop_last() =~= s1);
    assert(s3.drop_last() =~= s2);
    assert(s4.drop_last() =~= s3);
    assert(s5.drop_last() =~= s4);
    let one = count(s0) as int;
    assert(one * a == a) by (nonlinear_arith)
        requires
            one == 1,
    ;
    assert(count(s1) == a);
    assert(count(s2) == count(s1) * b);
    assert(count(s3) == count(s2) * c);
    assert(count(s4) == count(s3) * d);
    assert(count(s5) == count(s4) * e);
}

/// Spans of the ranks that occur here.
pub proof fn span_small(a: usize, b: usize, c: usize, d: usize, e: usize)
    ensures
        span(seq![a]) == factor(a),
        span(seq![a, b]) == factor(a) * factor(b),
        span(seq![a, b, c]) == factor(a) * factor(b) * factor(c),
        span(seq![a, b, c, d]) == factor(a) * factor(b) * factor(c) * factor(d),
        span(seq![a, b, c, d, e]) == factor(a) * factor(b) * factor(c) * factor(d) * factor(e),
{
    let s0 = Seq::<usize>::empty();
    let s1 = seq![a];
    let s2 = seq![a, b];
    let s3 = seq![a, b, c];
    let s4 = seq![a, b, c, d];
    let s5 = seq![a, b, c, d, e];
    assert(s1.drop_last() =~= s0);
    assert(s2.drop_last() =~= s1);
    assert(s3.drop_last() =~= s2);
    assert(s4.drop_last() =~= s3);
    assert(s5.drop_last() =~= s4);
    let one = span(s0);
    let f = factor(a);
    assert(one * f == f) by (nonlinear_arith)
        requires
            one == 1,
    ;
    assert(span(s1) == f);
    assert(span(s2) == span(s1) * factor(b));
    assert(span(s3) == span(s2) * factor(c));
    assert(span(s4) == span(s3) * factor(d));
    assert(span(s5) == span(s4) * factor(e));
}

/// The span splits at any dimension.
pub proof fn span_split(dims: Seq<usize>, k: int)
    requires
        0 <= k <= dims.len(),
    ensures
        span(dims) == span(dims.take(k)) * span(dims.skip(k)),
    decreases dims.len(),
{
    if k == dims.len() {
        assert(dims.take(k) =~= dims);
        assert(dims.skip(k) =~= Seq::empty());
    } else {
        span_split(dims.drop_last(), k);
        assert(dims.drop_last().take(k) =~= dims.take(k));
        assert(dims.skip(k).drop_last() =~= dims.drop_last().skip(k));
        let a = span(dims.take(k));
        let b = span(dims.skip(k).drop_last());
        let c = factor(dims.last());
        assert(a * b * c == a * (b * c)) by (nonlinear_arith);
    }
}

/// A shape without a dimension that is not zero fits where the whole does.
pub proof fn fits_without(dims: Seq<usize>, k: int)
    requires
        0 <= k < dims.len(),
        dims[k] > 0,
    ensures
        count(dims.remove(k)) * dims[k] == count(dims),
        span(dims.remove(k)) * dims[k] == span(dims),
        fits(dims) ==> fits(dims.remove(k)),
        dims[k] == 1 ==> fits(dims) == fits(dims.remove(k)),
{
    let less = dims.remove(k);
    let d = dims[k] as nat;
    let rest = dims.skip(k);
    count_split(dims, k);
    count_split(rest, 1);
    count_split(less, k);
    span_split(dims, k);
    span_split(rest, 1);
    span_split(less, k);
    assert(less.take(k) =~= dims.take(k));
    assert(less.skip(k) =~= rest.skip(1));
    assert(rest.take(1) =~= seq![dims[k]]);
    count_small(dims[k], 0, 0, 0, 0);
    span_small(dims[k], 0, 0, 0, 0);
    let a = count(dims.take(k));
    let b = count(rest.skip(1));
    let e = span(dims.take(k));
    let f = span(rest.skip(1));
    assert(a * (d * b) == a * b * d && e * (d * f) == e * f * d) by (nonlinear_arith);
    let m = count(less);
    let n = span(less);
    assert(m <= m * d && n <= n * d) by (nonlinear_arith)
        requires
            d >= 1,
            m >= 0,
            n >= 0,
    ;
    assert(d == 1 ==> m * d == m && n * d == n) by (nonlinear_arith);
}

/// There are no more elements than the span says, and as many unless there are none.
pub proof fn span_count(dims: Seq<usize>)
    ensures
        span(dims) > 0,
        count(dims) <= span(dims),
        count(dims) == 0 || count(dims) == span(dims),
        count(dims) == 0 <==> exists|i: int| 0 <= i < dims.len() && dims[i] == 0,
    decreases dims.len(),
{
    if dims.len() > 0 {
        let less = dims.drop_last();
        span_count(less);
        let a = count(less);
        let b = span(less);
        let d = dims.last() as nat;
        let f = factor(dims.last());
        assert(b * f > 0 && a * d <= b * f) by (nonlinear_arith)
            requires
                b > 0,
                f > 0,
                0 <= a <= b,
                0 <= d <= f,
        ;
        if a == 0 || d == 0 {
            assert(a * d == 0) by (nonlinear_arith)
                requires
                    a == 0 || d == 0,
            ;
            if d == 0 {
                assert(dims[dims.len() - 1] == 0);
            } else {
                let i = choose|i: int| 0 <= i < less.len() && less[i] == 0;
                assert(dims[i] == 0);
            }
        } else {
            assert(a * d == b * f);
            if exists|i: int| 0 <= i < dims.len() && dims[i] == 0 {
                let i = choose|i: int| 0 <= i < dims.len() && dims[i] == 0;
                assert(less[i] == 0);
            }
        }
    }
}

/// The front of a shape spans no more than the whole.
pub proof fn span_front(dims: Seq<usize>, k: int)
    requires
        0 <= k <= dims.len(),
    ensures
        0 < span(dims.take(k)) <= span(dims),
        count(dims.take(k)) <= span(dims),
        count(dims) > 0 ==> 0 < count(dims.take(k)) <= count(dims),
    decreases dims.len(),
{
    span_count(dims);
    span_count(dims.take(k));
    if k == dims.len() {
        assert(dims.take(k) =~= dims);
    } else {
        let less = dims.drop_last();
        span_front(less, k);
        assert(less.take(k) =~= dims.take(k));
        let b = span(less);
        let f = factor(dims.last());
        assert(b <= b * f) by (nonlinear_arith)
            requires
                b >= 0,
                f >= 1,
        ;
        let a = count(less);
        let d = dims.last() as nat;
        if count(dims) > 0 {
            assert(a > 0 && d > 0) by (nonlinear_arith)
                requires
                    a * d > 0,
                    a >= 0,
                    d >= 0,
            ;
            assert(a <= a * d) by (nonlinear_arith)
                requires
                    a > 0,
                    d > 0,
            ;
        }
    }
}

/// Smaller dimensions fit where larger ones do.
pub proof fn fits_shrink(small: Seq<usize>, large: Seq<usize>)
    requires
        small.len() == large.len(),
        forall|i: int| 0 <= i < small.len() ==> small[i] <= large[i],
    ensures
        span(small) <= span(large),
        count(small) <= count(large),
        fits(large) ==> fits(small),
    decreases small.len(),
{
    if small.len() > 0 {
        fits_shrink(small.drop_last(), large.drop_last());
        let a = count(small.drop_last()) as int;
        let b = count(large.drop_last()) as int;
        let c = small.last() as int;
        let d = large.last() as int;
        assert(a * c <= b * d) by (nonlinear_arith)
            requires
                0 <= a <= b,
                0 <= c <= d,
        ;
        let e = span(small.drop_last()) as int;
        let f = span(large.drop_last()) as int;
        let g = factor(small.last()) as int;
        let h = factor(large.last()) as int;
        assert(e * g <= f * h) by (nonlinear_arith)
            requires
                0 <= e <= f,
                0 <= g <= h,
        ;
    }
}

/// The span of a shape, if it can be represented.
fn span_of(dims: &[usize]) -> (r: Option<usize>)
    ensures
        match r {
            Some(n) => n == span(dims@),
            None => span(dims@) > usize::MAX,
        },
{
    let mut product: usize = 1;
    let mut i: usize = 0;
    let n: usize = dims.len();
    assert(dims@.take(0) =~= Seq::empty());
    while i < n
        invariant
            i <= n == dims@.len(),
            product == span(dims@.take(i as int)),
        decreases n - i,
    {
        proof {
            let next = dims@.take(i + 1);
            assert(next.drop_last() =~= dims@.take(i as int));
            span_front(dims@, i + 1);
        }
        let d: usize = if dims[i] == 0 {
            1
        } else {
            dims[i]
        };
        match product.checked_mul(d) {
            None => {
                return None;
            },
            Some(p) => {
                product = p;
            },
        }
        i += 1;
    }
    assert(dims@.take(n as int) =~= dims@);
    Some(product)
}

/// Whether a tensor of these dimensions has no elements.
fn is_empty(dims: &[usize]) -> (r: bool)
    ensures
        r == (count(dims@) == 0),
{
    let mut i: usize = 0;
    while i < dims.len()
        invariant
            i <= dims@.len(),
            forall|k: int| 0 <= k < i ==> dims@[k] != 0,
        decreases dims@.len() - i,
    {
        if dims[i] == 0 {
            proof {
                span_count(dims@);
                assert(dims@[i as int] == 0);
            }
            return true;
        }
        i += 1;
    }
    proof {
        span_count(dims@);
    }
    false
}

/// Whether a tensor of these dimensions can be held in memory.
pub fn dims_fit(dims: &[usize]) -> (r: bool)
    ensures
        r == fits(dims@),
{
    proof {
        span_count(dims@);
    }
    match span_of(dims) {
        None => false,
        Some(n) => is_empty(dims) || n <= usize::MAX / 16,
    }
}

/// Number of elements of a tensor that fits in memory.
pub fn elements(dims: &[usize]) -> (r: usize)
    requires
        fits(dims@),
    ensures
        r == count(dims@),
{
    proof {
        span_count(dims@);
    }
    if is_empty(dims) {
        return 0;
    }
    match span_of(dims) {
        Some(n) => n,
        None => 0,
    }
}

/// Shape of a pointwise operation on two tensors, where there is one.
pub fn stretched_dims(a: &[usize], b: &[usize]) -> (r: Option<Vec<usize>>)
    ensures
        match r {
            Some(d) => stretched(a@, b@) == Some(d@),
            None => stretched(a@, b@) is None,
        },
    decreases a@.len() + b@.len(),
{
    let n: usize = a.len();
    let m: usize = b.len();
    if n == 0 {
        return Some(vstd::slice::slice_to_vec(b));
    }
    if m == 0 {
        return Some(vstd::slice::slice_to_vec(a));
    }
    let front_a = vstd::slice::slice_subrange(a, 0, n - 1);
    let front_b = vstd::slice::slice_subrange(b, 0, m - 1);
    proof {
        assert(front_a@ =~= a@.drop_last());
        assert(front_b@ =~= b@.drop_last());
    }
    match stretched_dims(front_a, front_b) {
        None => None,
        Some(mut front) => {
            let x: usize = a[n - 1];
            let y: usize = b[m - 1];
            if x == y || y == 1 {
                front.push(x);
                Some(front)
            } else if x == 1 {
                front.push(y);
                Some(front)
            } else {
                None
            }
        },
    }
}

} // verus!
