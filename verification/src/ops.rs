//! Operations on tensors that refuse what does not fit, and never panic.
use candle_core::{DType, Error, Tensor};
use vstd::prelude::*;

use crate::shape::{
    can_narrow, consistent, count, dims_fit, elements, fits, joinable, joined, narrowed, reducible,
    reshaped, stretched, stretched_dims, stretched_view, stretches_to, swapped, total_along, zeroed,
    TensorView,
};
use crate::tensor::{
    candle_add, candle_broadcast_add, candle_broadcast_as, candle_broadcast_div,
    candle_broadcast_maximum, candle_broadcast_mul, candle_cat, candle_contiguous, candle_device,
    candle_dims, candle_dtype, candle_exp, candle_is_float, candle_log, candle_matmul,
    candle_mean_keepdim, candle_narrow, candle_ones_like, candle_place, candle_reshape,
    candle_sigmoid, candle_silu, candle_sqr, candle_sqrt, candle_sub, candle_sum,
    candle_sum_keepdim, candle_swap, candle_to_dtype, candle_unsqueeze, candle_zeros, cast_outcome,
    difference_outcome, dtype_is_f32, exp_outcome, is_settled, kept_mean_outcome,
    kept_total_outcome, log_outcome, matmul_outcome, maximum_outcome, plain, product_outcome,
    quotient_outcome, root_outcome, sigmoid_outcome, silu_outcome, square_outcome, stored_alike,
    stretched_sum_outcome, sum_outcome, tensor_dims, tensor_dtype, tensor_ids, tensor_is_dense,
    tensor_is_f32, tensor_is_float, tensor_place, tensor_words, total_outcome, view_of, views_of,
    writable,
};
use crate::topology::Location;

verus! {

/// Why an operation on tensors was refused.
#[derive(Debug)]
pub enum TensorError {
    /// `candle` refused it.
    Candle(Error),
    /// A tensor would have more elements than memory can hold.
    TooLarge,
    /// A tensor has another number of dimensions than it must have.
    WrongRank { expected: usize, got: usize },
    /// The buffer ends before the tensor that it announces.
    ShortBuffer { expected: usize, got: usize },
    /// What was kept from an earlier call does not have the shape that this call needs.
    WrongState,
    /// Experts are named for other tokens than there are.
    WrongPositions,
    /// The size of a dimension cannot be worked out from the others.
    UnknownSize,
    /// Tensors that an operation needs on one device are on different ones.
    WrongDevice,
    /// An operation on floats was asked for with elements that are none.
    NotFloat,
    /// A quantised matrix in main memory does not hold the blocks that its dimensions call for.
    WrongBlocks,
}

/// `r` is an elementwise product of `a` and `b`.
pub open spec fn is_product(a: TensorView, b: TensorView, r: TensorView) -> bool {
    &&& stretched(a.dims, b.dims) == Some(r.dims)
    &&& consistent(r)
    &&& product_outcome(a.dims, a.words, b.dims, b.words, r.words)
}

/// `r` is an elementwise sum of `a` and `b`, whose shapes stretch to one.
pub open spec fn is_stretched_sum(a: TensorView, b: TensorView, r: TensorView) -> bool {
    &&& stretched(a.dims, b.dims) == Some(r.dims)
    &&& consistent(r)
    &&& stretched_sum_outcome(a.dims, a.words, b.dims, b.words, r.words)
}

/// `r` is an elementwise sum of `a` and `b`, which have one shape.
pub open spec fn is_sum(a: TensorView, b: TensorView, r: TensorView) -> bool {
    &&& a.dims == b.dims
    &&& r.dims == a.dims
    &&& consistent(r)
    &&& sum_outcome(a.words, b.words, r.words)
}

/// `r` is an elementwise difference of `a` and `b`, which have one shape.
pub open spec fn is_difference(a: TensorView, b: TensorView, r: TensorView) -> bool {
    &&& a.dims == b.dims
    &&& r.dims == a.dims
    &&& consistent(r)
    &&& difference_outcome(a.words, b.words, r.words)
}

/// `r` holds the products of the matrices of `a` with those of `b`.
pub open spec fn is_matmul(a: TensorView, b: TensorView, r: TensorView) -> bool {
    &&& a.dims.len() == 3
    &&& b.dims.len() == 3
    &&& a.dims[0] == b.dims[0]
    &&& a.dims[2] == b.dims[1]
    &&& r.dims == seq![a.dims[0], a.dims[1], b.dims[2]]
    &&& consistent(r)
    &&& matmul_outcome(a.dims, a.words, b.dims, b.words, r.words)
}

/// `r` holds the exponentials of `a`.
pub open spec fn is_exp(a: TensorView, r: TensorView) -> bool {
    r.dims == a.dims && consistent(r) && exp_outcome(a.words, r.words)
}

/// `r` holds the natural logarithms of `a`.
pub open spec fn is_log(a: TensorView, r: TensorView) -> bool {
    r.dims == a.dims && consistent(r) && log_outcome(a.words, r.words)
}

/// `r` is the SiLU activation of `a`.
pub open spec fn is_silu(a: TensorView, r: TensorView) -> bool {
    r.dims == a.dims && consistent(r) && silu_outcome(a.words, r.words)
}

/// `r` is the logistic function of `a`.
pub open spec fn is_sigmoid(a: TensorView, r: TensorView) -> bool {
    r.dims == a.dims && consistent(r) && sigmoid_outcome(a.words, r.words)
}

/// `r` holds the sums of `a` along dimension `dim`.
pub open spec fn is_total(a: TensorView, dim: usize, r: TensorView) -> bool {
    &&& dim < a.dims.len()
    &&& r.dims == a.dims.remove(dim as int)
    &&& consistent(r)
    &&& total_outcome(a.dims, a.words, dim, r.words)
}

/// `r` holds the squares of `a`.
pub open spec fn is_square(a: TensorView, r: TensorView) -> bool {
    r.dims == a.dims && consistent(r) && square_outcome(a.words, r.words)
}

/// `r` holds the square roots of `a`.
pub open spec fn is_root(a: TensorView, r: TensorView) -> bool {
    r.dims == a.dims && consistent(r) && root_outcome(a.words, r.words)
}

/// `r` holds the sums of `a` along dimension `dim`, of which one index is left.
pub open spec fn is_kept_total(a: TensorView, dim: usize, r: TensorView) -> bool {
    &&& dim < a.dims.len()
    &&& r.dims == a.dims.update(dim as int, 1)
    &&& consistent(r)
    &&& kept_total_outcome(a.dims, a.words, dim, r.words)
}

/// `r` holds the means of `a` along dimension `dim`, of which one index is left.
pub open spec fn is_kept_mean(a: TensorView, dim: usize, r: TensorView) -> bool {
    &&& dim < a.dims.len()
    &&& r.dims == a.dims.update(dim as int, 1)
    &&& consistent(r)
    &&& kept_mean_outcome(a.dims, a.words, dim, r.words)
}

/// `r` is an elementwise maximum of `a` and `b`.
pub open spec fn is_maximum(a: TensorView, b: TensorView, r: TensorView) -> bool {
    &&& stretched(a.dims, b.dims) == Some(r.dims)
    &&& consistent(r)
    &&& maximum_outcome(a.dims, a.words, b.dims, b.words, r.words)
}

/// `r` is an elementwise quotient of `a` and `b`.
pub open spec fn is_quotient(a: TensorView, b: TensorView, r: TensorView) -> bool {
    &&& stretched(a.dims, b.dims) == Some(r.dims)
    &&& consistent(r)
    &&& quotient_outcome(a.dims, a.words, b.dims, b.words, r.words)
}

/// The tensor of ones with these dimensions.
pub open spec fn ones(dims: Seq<usize>) -> TensorView {
    TensorView { dims, words: Seq::new(count(dims), |i: int| 0x3F80_0000u32) }
}

/// Turns a refusal of `candle` into the library's own.
pub(crate) fn lift(r: Result<Tensor, Error>) -> (q: Result<Tensor, TensorError>)
    ensures
        match r {
            Ok(t) => q == Ok::<Tensor, TensorError>(t),
            Err(e) => q == Err::<Tensor, TensorError>(TensorError::Candle(e)),
        },
{
    match r {
        Ok(t) => Ok(t),
        Err(e) => Err(TensorError::Candle(e)),
    }
}

/// Dimensions of a tensor that memory can hold.
pub fn shape(t: &Tensor) -> (r: Result<Vec<usize>, TensorError>)
    ensures
        match r {
            Ok(d) => {
                &&& fits(tensor_dims(*t))
                &&& d@ == tensor_dims(*t)
                &&& consistent(view_of(*t))
                &&& tensor_ids(*t) matches Some(ids) ==> ids.len() == count(d@)
            },
            Err(e) => !fits(tensor_dims(*t)) && e is TooLarge,
        },
{
    let d = candle_dims(t);
    if dims_fit(d.as_slice()) {
        Ok(d)
    } else {
        Err(TensorError::TooLarge)
    }
}

/// The dimensions of a tensor that has three.
pub fn dims3(t: &Tensor) -> (r: Result<(usize, usize, usize), TensorError>)
    ensures
        match r {
            Ok(d) => {
                &&& fits(tensor_dims(*t))
                &&& tensor_dims(*t) == seq![d.0, d.1, d.2]
                &&& consistent(view_of(*t))
            },
            Err(e) => {
                ||| !fits(tensor_dims(*t)) && e is TooLarge
                ||| fits(tensor_dims(*t)) && tensor_dims(*t).len() != 3 && e == (
                TensorError::WrongRank { expected: 3, got: tensor_dims(*t).len() as usize })
            },
        },
{
    let d = match shape(t) {
        Ok(d) => d,
        Err(e) => {
            return Err(e);
        },
    };
    if d.len() == 3 {
        assert(d@ =~= seq![d@[0], d@[1], d@[2]]);
        Ok((d[0], d[1], d[2]))
    } else {
        Err(TensorError::WrongRank { expected: 3, got: d.len() })
    }
}

/// The dimensions of a tensor that has four.
pub fn dims4(t: &Tensor) -> (r: Result<(usize, usize, usize, usize), TensorError>)
    ensures
        match r {
            Ok(d) => {
                &&& fits(tensor_dims(*t))
                &&& tensor_dims(*t) == seq![d.0, d.1, d.2, d.3]
                &&& consistent(view_of(*t))
            },
            Err(e) => {
                ||| !fits(tensor_dims(*t)) && e is TooLarge
                ||| fits(tensor_dims(*t)) && tensor_dims(*t).len() != 4 && e == (
                TensorError::WrongRank { expected: 4, got: tensor_dims(*t).len() as usize })
            },
        },
{
    let d = match shape(t) {
        Ok(d) => d,
        Err(e) => {
            return Err(e);
        },
    };
    if d.len() == 4 {
        assert(d@ =~= seq![d@[0], d@[1], d@[2], d@[3]]);
        Ok((d[0], d[1], d[2], d[3]))
    } else {
        Err(TensorError::WrongRank { expected: 4, got: d.len() })
    }
}

/// Where a tensor is stored.
pub(crate) fn place(t: &Tensor) -> (r: Location)
    ensures
        r == tensor_place(*t),
{
    candle_place(candle_device(t))
}

/// Whether the elements of a tensor are floats.
fn is_float(t: &Tensor) -> (r: bool)
    ensures
        r == tensor_is_float(*t),
        plain(*t) ==> r,
{
    candle_is_float(candle_dtype(t))
}

/// `t` as it can be read from storage: the same tensor, or a new one where it has no elements.
pub(crate) fn settled(t: &Tensor) -> (r: Result<Tensor, TensorError>)
    ensures
        match r {
            Ok(u) => {
                &&& fits(tensor_dims(*t))
                &&& consistent(view_of(*t))
                &&& view_of(u) == view_of(*t)
                &&& stored_alike(u, *t)
                &&& tensor_is_dense(*t) ==> tensor_is_dense(u)
                &&& is_settled(u)
                &&& tensor_ids(*t) is Some ==> tensor_ids(u) == tensor_ids(*t)
                &&& count(tensor_dims(*t)) > 0 ==> u == *t
            },
            Err(e) => fits(tensor_dims(*t)) ==> !writable(*t) && tensor_ids(*t) is None,
        },
        !fits(tensor_dims(*t)) ==> r == Err::<Tensor, TensorError>(TensorError::TooLarge),
{
    let d = match shape(t) {
        Ok(d) => d,
        Err(e) => {
            return Err(e);
        },
    };
    if elements(d.as_slice()) == 0 {
        let u = zeros(d.as_slice(), t)?;
        proof {
            assert(tensor_words(u) =~= tensor_words(*t));
            if tensor_ids(*t) is Some {
                assert(tensor_ids(u)->0 =~= tensor_ids(*t)->0);
            }
        }
        Ok(u)
    } else {
        Ok(t.clone())
    }
}

/// The part of `t` from `start` on, of length `len`, along dimension `dim`.
pub fn narrow(t: &Tensor, dim: usize, start: usize, len: usize) -> (r: Result<Tensor, TensorError>)
    ensures
        r is Ok <==> can_narrow(tensor_dims(*t), dim as int, start as int, len as int),
        r matches Ok(u) ==> {
            &&& view_of(u) == narrowed(view_of(*t), dim as int, start as int, len)
            &&& stored_alike(u, *t)
        },
{
    lift(candle_narrow(t, dim, start, len))
}

/// The elements of `t` under other dimensions.
pub fn reshape(t: &Tensor, dims: &[usize]) -> (r: Result<Tensor, TensorError>)
    ensures
        r matches Ok(u) ==> {
            &&& fits(tensor_dims(*t))
            &&& fits(dims@)
            &&& count(dims@) == count(tensor_dims(*t))
            &&& view_of(u) == reshaped(view_of(*t), dims@)
            &&& stored_alike(u, *t)
            &&& consistent(view_of(*t))
            &&& tensor_is_dense(u)
            &&& is_settled(u)
        },
        plain(*t) ==> (r is Ok <==> fits(tensor_dims(*t)) && fits(dims@) && count(dims@) == count(
            tensor_dims(*t),
        )),
{
    let t = settled(t)?;
    if !dims_fit(dims) {
        return Err(TensorError::TooLarge);
    }
    lift(candle_reshape(&t, dims))
}

/// `t` with one more dimension, of size one.
pub fn unsqueeze(t: &Tensor, dim: usize) -> (r: Result<Tensor, TensorError>)
    ensures
        r is Ok <==> dim <= tensor_dims(*t).len(),
        r matches Ok(u) ==> {
            &&& view_of(u) == reshaped(view_of(*t), tensor_dims(*t).insert(dim as int, 1))
            &&& stored_alike(u, *t)
        },
{
    lift(candle_unsqueeze(t, dim))
}

/// `t` with dimension `dim` and the next one exchanged.
pub fn swap_dims(t: &Tensor, dim: usize) -> (r: Result<Tensor, TensorError>)
    requires
        dim < usize::MAX,
    ensures
        r is Ok <==> dim + 1 < tensor_dims(*t).len(),
        r matches Ok(u) ==> {
            &&& view_of(u) == swapped(view_of(*t), dim as int)
            &&& stored_alike(u, *t)
        },
{
    lift(candle_swap(t, dim, dim + 1))
}

/// `t` read with the larger shape `dims`.
pub fn broadcast_as(t: &Tensor, dims: &[usize]) -> (r: Result<Tensor, TensorError>)
    ensures
        r is Ok <==> stretches_to(tensor_dims(*t), dims@),
        r matches Ok(u) ==> {
            &&& view_of(u) == stretched_view(view_of(*t), dims@)
            &&& stored_alike(u, *t)
        },
{
    lift(candle_broadcast_as(t, dims))
}

/// The parts, and what they make side by side along dimension `dim`, can be held in memory.
pub open spec fn join_fits(parts: Seq<TensorView>, dim: int) -> bool {
    &&& forall|i: int| 0 <= i < parts.len() ==> fits((#[trigger] parts[i]).dims)
    &&& joinable(parts, dim) ==> {
        &&& total_along(parts, dim) <= usize::MAX
        &&& fits(joined(parts, dim).dims)
    }
}

/// Whether two shapes differ in dimension `dim` at most.
fn alike_but(a: &[usize], b: &[usize], dim: usize) -> (r: bool)
    requires
        dim < b@.len(),
    ensures
        r == (a@.len() == b@.len() && a@.update(dim as int, 0) == b@.update(dim as int, 0)),
{
    let n: usize = a.len();
    if n != b.len() {
        return false;
    }
    let mut k: usize = 0;
    while k < n
        invariant
            k <= n == a@.len() == b@.len(),
            dim < n,
            forall|j: int| 0 <= j < k && j != dim ==> a@[j] == b@[j],
        decreases n - k,
    {
        if k != dim && a[k] != b[k] {
            assert(a@.update(dim as int, 0)[k as int] != b@.update(dim as int, 0)[k as int]);
            return false;
        }
        k += 1;
    }
    assert(a@.update(dim as int, 0) =~= b@.update(dim as int, 0));
    true
}

/// Whether the parts, and what they make side by side, can be held in memory.
fn can_join(parts: &Vec<Tensor>, dim: usize) -> (r: bool)
    ensures
        r == join_fits(views_of(parts@), dim as int),
{
    let ghost views = views_of(parts@);
    let n: usize = parts.len();
    if n == 0 {
        return true;
    }
    let first = candle_dims(&parts[0]);
    assert(first@ == views[0].dims);
    let mut alike: bool = dim < first.len();
    let mut i: usize = 0;
    while i < n
        invariant
            i <= n == parts@.len(),
            n > 0,
            views == views_of(parts@),
            first@ == views[0].dims,
            forall|j: int| 0 <= j < i ==> fits((#[trigger] views[j]).dims),
            alike == (dim < first@.len() && forall|j: int|
                0 <= j < i ==> {
                    &&& (#[trigger] views[j]).dims.len() == views[0].dims.len()
                    &&& views[j].dims.update(dim as int, 0) == views[0].dims.update(dim as int, 0)
                }),
        decreases n - i,
    {
        let d = candle_dims(&parts[i]);
        assert(d@ == views[i as int].dims);
        if !dims_fit(d.as_slice()) {
            return false;
        }
        if alike {
            alike = alike_but(d.as_slice(), first.as_slice(), dim);
        }
        i += 1;
    }
    if !alike {
        assert(!joinable(views, dim as int));
        return true;
    }
    assert(joinable(views, dim as int));
    let mut total: usize = 0;
    let mut k: usize = 0;
    assert(views.take(0) =~= Seq::empty());
    while k < n
        invariant
            k <= n == parts@.len(),
            n > 0,
            views == views_of(parts@),
            joinable(views, dim as int),
            total == total_along(views.take(k as int), dim as int),
        decreases n - k,
    {
        let d = candle_dims(&parts[k]);
        assert(d@ == views[k as int].dims);
        assert(views.take(k + 1).drop_last() =~= views.take(k as int));
        match total.checked_add(d[dim]) {
            Some(sum) => {
                total = sum;
            },
            None => {
                proof {
                    total_grows(views, dim as int, k + 1);
                }
                return false;
            },
        }
        k += 1;
    }
    assert(views.take(n as int) =~= views);
    let mut whole = first;
    whole.set(dim, total);
    assert(whole@ == joined(views, dim as int).dims);
    dims_fit(whole.as_slice())
}

/// More parts are no smaller together.
proof fn total_grows(parts: Seq<TensorView>, dim: int, k: int)
    requires
        0 <= k <= parts.len(),
    ensures
        total_along(parts.take(k), dim) <= total_along(parts, dim),
    decreases parts.len(),
{
    if k == parts.len() {
        assert(parts.take(k) =~= parts);
    } else {
        total_grows(parts.drop_last(), dim, k);
        assert(parts.drop_last().take(k) =~= parts.take(k));
    }
}

/// `parts` side by side along dimension `dim`; a single part as it is.
pub fn cat(parts: &Vec<Tensor>, dim: usize) -> (r: Result<Tensor, TensorError>)
    ensures
        r matches Ok(u) ==> {
            &&& parts@.len() > 0
            &&& join_fits(views_of(parts@), dim as int)
            &&& parts@.len() == 1 ==> u == parts@[0]
            &&& parts@.len() > 1 ==> joinable(views_of(parts@), dim as int) && view_of(u)
                == joined(views_of(parts@), dim as int)
        },
        (forall|i: int| 0 <= i < parts@.len() ==> plain(#[trigger] parts@[i])) ==> {
            &&& r is Ok <==> join_fits(views_of(parts@), dim as int) && (parts@.len() == 1
                || joinable(views_of(parts@), dim as int))
            &&& r matches Ok(u) ==> plain(u)
        },
{
    if !can_join(parts, dim) {
        return Err(TensorError::TooLarge);
    }
    let n: usize = parts.len();
    if n == 0 {
        return Err(TensorError::UnknownSize);
    }
    if n == 1 {
        return Ok(parts[0].clone());
    }
    let ghost views = views_of(parts@);
    let mut ready: Vec<Tensor> = Vec::new();
    let mut i: usize = 0;
    while i < n
        invariant
            i <= n == parts@.len(),
            views == views_of(parts@),
            join_fits(views, dim as int),
            ready@.len() == i,
            forall|k: int|
                0 <= k < i ==> {
                    &&& view_of(#[trigger] ready@[k]) == views[k]
                    &&& fits(tensor_dims(ready@[k]))
                    &&& is_settled(ready@[k])
                    &&& stored_alike(ready@[k], parts@[k])
                },
        decreases n - i,
    {
        assert(views[i as int] == view_of(parts@[i as int]));
        let part = settled(&parts[i])?;
        ready.push(part);
        i += 1;
    }
    assert(views_of(ready@) =~= views);
    lift(candle_cat(&ready, dim))
}

/// A tensor of zeros, stored as `like` is.
pub fn zeros(dims: &[usize], like: &Tensor) -> (r: Result<Tensor, TensorError>)
    ensures
        r matches Ok(u) ==> {
            &&& fits(dims@)
            &&& view_of(u) == zeroed(dims@)
            &&& stored_alike(u, *like)
            &&& tensor_is_dense(u)
            &&& is_settled(u)
            &&& tensor_ids(*like) is Some ==> tensor_ids(u) == Some(
                Seq::new(count(dims@), |i: int| 0u32),
            )
        },
        writable(*like) || tensor_ids(*like) is Some ==> (r is Ok <==> fits(dims@)),
{
    if !dims_fit(dims) {
        return Err(TensorError::TooLarge);
    }
    lift(candle_zeros(dims, like))
}

/// A tensor of ones of the shape of `t`, stored as `t` is.
pub fn ones_like(t: &Tensor) -> (r: Result<Tensor, TensorError>)
    ensures
        r matches Ok(u) ==> {
            &&& fits(tensor_dims(*t))
            &&& view_of(u) == ones(tensor_dims(*t))
            &&& stored_alike(u, *t)
        },
        plain(*t) ==> (r is Ok <==> fits(tensor_dims(*t))),
{
    match shape(t) {
        Ok(_) => lift(candle_ones_like(t)),
        Err(e) => Err(e),
    }
}

/// Whether two tensors, and the shape that theirs stretch to, can be held in memory.
fn stretch_fits(a: &Tensor, b: &Tensor) -> (r: bool)
    ensures
        r == stretchable(tensor_dims(*a), tensor_dims(*b)),
{
    let da = candle_dims(a);
    let db = candle_dims(b);
    if !dims_fit(da.as_slice()) || !dims_fit(db.as_slice()) {
        return false;
    }
    match stretched_dims(da.as_slice(), db.as_slice()) {
        None => true,
        Some(d) => dims_fit(d.as_slice()),
    }
}

/// Both shapes, and the one that they stretch to, can be held in memory.
pub open spec fn stretchable(a: Seq<usize>, b: Seq<usize>) -> bool {
    &&& fits(a)
    &&& fits(b)
    &&& stretched(a, b) matches Some(d) ==> fits(d)
}

/// Elementwise product of two tensors whose shapes stretch to one.
pub fn times(a: &Tensor, b: &Tensor) -> (r: Result<Tensor, TensorError>)
    ensures
        r matches Ok(u) ==> {
            &&& tensor_is_float(*a) && tensor_is_float(*b)
            &&& stretchable(tensor_dims(*a), tensor_dims(*b))
            &&& is_product(view_of(*a), view_of(*b), view_of(u))
        },
        plain(*a) && plain(*b) ==> {
            &&& r is Ok <==> stretchable(tensor_dims(*a), tensor_dims(*b)) && stretched(
                tensor_dims(*a),
                tensor_dims(*b),
            ) is Some
            &&& r matches Ok(u) ==> plain(u)
        },
        stretchable(tensor_dims(*a), tensor_dims(*b)) && !(tensor_is_float(*a) && tensor_is_float(
            *b,
        )) ==> (r matches Err(e) && e is NotFloat),
{
    if !stretch_fits(a, b) {
        return Err(TensorError::TooLarge);
    }
    if !is_float(a) || !is_float(b) {
        return Err(TensorError::NotFloat);
    }
    lift(candle_broadcast_mul(a, b))
}

/// Elementwise sum of two tensors whose shapes stretch to one.
pub fn plus_stretched(a: &Tensor, b: &Tensor) -> (r: Result<Tensor, TensorError>)
    ensures
        r matches Ok(u) ==> {
            &&& tensor_is_float(*a) && tensor_is_float(*b)
            &&& stretchable(tensor_dims(*a), tensor_dims(*b))
            &&& is_stretched_sum(view_of(*a), view_of(*b), view_of(u))
        },
        plain(*a) && plain(*b) ==> {
            &&& r is Ok <==> stretchable(tensor_dims(*a), tensor_dims(*b)) && stretched(
                tensor_dims(*a),
                tensor_dims(*b),
            ) is Some
            &&& r matches Ok(u) ==> plain(u)
        },
        stretchable(tensor_dims(*a), tensor_dims(*b)) && !(tensor_is_float(*a) && tensor_is_float(
            *b,
        )) ==> (r matches Err(e) && e is NotFloat),
{
    if !stretch_fits(a, b) {
        return Err(TensorError::TooLarge);
    }
    if !is_float(a) || !is_float(b) {
        return Err(TensorError::NotFloat);
    }
    lift(candle_broadcast_add(a, b))
}

/// Elementwise sum of two tensors of one shape.
pub fn plus(a: &Tensor, b: &Tensor) -> (r: Result<Tensor, TensorError>)
    ensures
        r matches Ok(u) ==> {
            &&& tensor_is_float(*a) && tensor_is_float(*b)
            &&& fits(tensor_dims(*a))
            &&& is_sum(view_of(*a), view_of(*b), view_of(u))
        },
        plain(*a) && plain(*b) ==> {
            &&& r is Ok <==> fits(tensor_dims(*a)) && tensor_dims(*a) == tensor_dims(*b)
            &&& r matches Ok(u) ==> plain(u)
        },
        fits(tensor_dims(*a)) && !(tensor_is_float(*a) && tensor_is_float(*b)) ==> (r matches Err(
            e,
        ) && e is NotFloat),
{
    let _dims = shape(a)?;
    if !is_float(a) || !is_float(b) {
        return Err(TensorError::NotFloat);
    }
    lift(candle_add(a, b))
}

/// Elementwise difference of two tensors of one shape.
pub fn minus(a: &Tensor, b: &Tensor) -> (r: Result<Tensor, TensorError>)
    ensures
        r matches Ok(u) ==> {
            &&& tensor_is_float(*a) && tensor_is_float(*b)
            &&& fits(tensor_dims(*a))
            &&& is_difference(view_of(*a), view_of(*b), view_of(u))
        },
        plain(*a) && plain(*b) ==> {
            &&& r is Ok <==> fits(tensor_dims(*a)) && tensor_dims(*a) == tensor_dims(*b)
            &&& r matches Ok(u) ==> plain(u)
        },
        fits(tensor_dims(*a)) && !(tensor_is_float(*a) && tensor_is_float(*b)) ==> (r matches Err(
            e,
        ) && e is NotFloat),
{
    let _dims = shape(a)?;
    if !is_float(a) || !is_float(b) {
        return Err(TensorError::NotFloat);
    }
    lift(candle_sub(a, b))
}

/// Products of the matrices of `a` with those of `b`.
pub(crate) fn matmul(a: &Tensor, b: &Tensor) -> (r: Result<Tensor, TensorError>)
    requires
        tensor_dims(*a).len() == 3,
        tensor_dims(*b).len() == 3,
        tensor_dims(*a)[0] == tensor_dims(*b)[0],
        fits(tensor_dims(*a)),
        fits(tensor_dims(*b)),
        fits(seq![tensor_dims(*a)[0], tensor_dims(*a)[1], tensor_dims(*b)[2]]),
    ensures
        r matches Ok(u) ==> is_matmul(view_of(*a), view_of(*b), view_of(u)),
        plain(*a) && plain(*b) ==> {
            &&& r is Ok <==> tensor_dims(*a)[2] == tensor_dims(*b)[1]
            &&& r matches Ok(u) ==> plain(u)
        },
{
    lift(candle_matmul(a, b))
}

/// Exponential of each element.
pub fn exp(t: &Tensor) -> (r: Result<Tensor, TensorError>)
    ensures
        r matches Ok(u) ==> {
            &&& tensor_is_float(*t)
            &&& fits(tensor_dims(*t))
            &&& is_exp(view_of(*t), view_of(u))
            &&& plain(*t) ==> plain(u)
        },
        plain(*t) ==> (r is Ok <==> fits(tensor_dims(*t))),
        fits(tensor_dims(*t)) && !tensor_is_float(*t) ==> (r matches Err(e) && e is NotFloat),
{
    let _dims = shape(t)?;
    if !is_float(t) {
        return Err(TensorError::NotFloat);
    }
    lift(candle_exp(t))
}

/// Natural logarithm of each element.
pub fn log(t: &Tensor) -> (r: Result<Tensor, TensorError>)
    ensures
        r matches Ok(u) ==> {
            &&& tensor_is_float(*t)
            &&& fits(tensor_dims(*t))
            &&& is_log(view_of(*t), view_of(u))
            &&& plain(*t) ==> plain(u)
        },
        plain(*t) ==> (r is Ok <==> fits(tensor_dims(*t))),
        fits(tensor_dims(*t)) && !tensor_is_float(*t) ==> (r matches Err(e) && e is NotFloat),
{
    let _dims = shape(t)?;
    if !is_float(t) {
        return Err(TensorError::NotFloat);
    }
    lift(candle_log(t))
}

/// SiLU activation of each element.
pub fn silu(t: &Tensor) -> (r: Result<Tensor, TensorError>)
    ensures
        r matches Ok(u) ==> {
            &&& fits(tensor_dims(*t))
            &&& is_silu(view_of(*t), view_of(u))
            &&& plain(*t) ==> plain(u)
        },
        plain(*t) ==> (r is Ok <==> fits(tensor_dims(*t))),
{
    match shape(t) {
        Ok(_) => lift(candle_silu(t)),
        Err(e) => Err(e),
    }
}

/// Logistic function of each element.
pub fn sigmoid(t: &Tensor) -> (r: Result<Tensor, TensorError>)
    ensures
        r matches Ok(u) ==> {
            &&& fits(tensor_dims(*t))
            &&& is_sigmoid(view_of(*t), view_of(u))
            &&& plain(*t) ==> plain(u)
        },
        plain(*t) ==> (r is Ok <==> fits(tensor_dims(*t))),
{
    match settled(t) {
        Ok(t) => lift(candle_sigmoid(&t)),
        Err(e) => Err(e),
    }
}

/// Whether a tensor, and what is left of it once dimension `dim` is reduced, can be held in
/// memory.
fn reduction_fits(t: &Tensor, dim: usize) -> (r: bool)
    ensures
        r == reducible(tensor_dims(*t), dim as int),
{
    let mut d = candle_dims(t);
    if !dims_fit(d.as_slice()) {
        return false;
    }
    if dim < d.len() {
        d.set(dim, 1);
        return dims_fit(d.as_slice());
    }
    true
}

/// Sums along dimension `dim`, which the result no longer has.
pub fn sum_along(t: &Tensor, dim: usize) -> (r: Result<Tensor, TensorError>)
    ensures
        r matches Ok(u) ==> {
            &&& tensor_is_float(*t)
            &&& reducible(tensor_dims(*t), dim as int)
            &&& is_total(view_of(*t), dim, view_of(u))
            &&& plain(*t) ==> plain(u)
        },
        plain(*t) ==> (r is Ok <==> reducible(tensor_dims(*t), dim as int) && dim < tensor_dims(
            *t,
        ).len()),
        reducible(tensor_dims(*t), dim as int) && !tensor_is_float(*t) ==> (r matches Err(e) && e
            is NotFloat),
{
    if !reduction_fits(t, dim) {
        return Err(TensorError::TooLarge);
    }
    if !is_float(t) {
        return Err(TensorError::NotFloat);
    }
    let t = settled(t)?;
    lift(candle_sum(&t, dim))
}

/// Sums along dimension `dim`, of which one index is left.
pub fn sum_keep(t: &Tensor, dim: usize) -> (r: Result<Tensor, TensorError>)
    ensures
        r matches Ok(u) ==> {
            &&& tensor_is_float(*t)
            &&& reducible(tensor_dims(*t), dim as int)
            &&& is_kept_total(view_of(*t), dim, view_of(u))
            &&& plain(*t) ==> plain(u)
        },
        plain(*t) ==> (r is Ok <==> reducible(tensor_dims(*t), dim as int) && dim < tensor_dims(
            *t,
        ).len()),
        reducible(tensor_dims(*t), dim as int) && !tensor_is_float(*t) ==> (r matches Err(e) && e
            is NotFloat),
{
    if !reduction_fits(t, dim) {
        return Err(TensorError::TooLarge);
    }
    if !is_float(t) {
        return Err(TensorError::NotFloat);
    }
    let t = settled(t)?;
    lift(candle_sum_keepdim(&t, dim))
}

/// Means along dimension `dim`, of which one index is left.
pub fn mean_keep(t: &Tensor, dim: usize) -> (r: Result<Tensor, TensorError>)
    ensures
        r matches Ok(u) ==> {
            &&& tensor_is_float(*t)
            &&& reducible(tensor_dims(*t), dim as int)
            &&& is_kept_mean(view_of(*t), dim, view_of(u))
            &&& plain(*t) ==> plain(u)
        },
        plain(*t) ==> (r is Ok <==> reducible(tensor_dims(*t), dim as int) && dim < tensor_dims(
            *t,
        ).len()),
        reducible(tensor_dims(*t), dim as int) && !tensor_is_float(*t) ==> (r matches Err(e) && e
            is NotFloat),
{
    if !reduction_fits(t, dim) {
        return Err(TensorError::TooLarge);
    }
    if !is_float(t) {
        return Err(TensorError::NotFloat);
    }
    let t = settled(t)?;
    lift(candle_mean_keepdim(&t, dim))
}

/// Square of each element.
pub fn square(t: &Tensor) -> (r: Result<Tensor, TensorError>)
    ensures
        r matches Ok(u) ==> {
            &&& tensor_is_float(*t)
            &&& fits(tensor_dims(*t))
            &&& is_square(view_of(*t), view_of(u))
            &&& plain(*t) ==> plain(u)
        },
        plain(*t) ==> (r is Ok <==> fits(tensor_dims(*t))),
        fits(tensor_dims(*t)) && !tensor_is_float(*t) ==> (r matches Err(e) && e is NotFloat),
{
    let _dims = shape(t)?;
    if !is_float(t) {
        return Err(TensorError::NotFloat);
    }
    lift(candle_sqr(t))
}

/// Square root of each element.
pub fn root(t: &Tensor) -> (r: Result<Tensor, TensorError>)
    ensures
        r matches Ok(u) ==> {
            &&& tensor_is_float(*t)
            &&& fits(tensor_dims(*t))
            &&& is_root(view_of(*t), view_of(u))
            &&& plain(*t) ==> plain(u)
        },
        plain(*t) ==> (r is Ok <==> fits(tensor_dims(*t))),
        fits(tensor_dims(*t)) && !tensor_is_float(*t) ==> (r matches Err(e) && e is NotFloat),
{
    let _dims = shape(t)?;
    if !is_float(t) {
        return Err(TensorError::NotFloat);
    }
    lift(candle_sqrt(t))
}

/// Elementwise maximum of two tensors whose shapes stretch to one.
pub fn larger(a: &Tensor, b: &Tensor) -> (r: Result<Tensor, TensorError>)
    ensures
        r matches Ok(u) ==> {
            &&& stretchable(tensor_dims(*a), tensor_dims(*b))
            &&& is_maximum(view_of(*a), view_of(*b), view_of(u))
        },
        plain(*a) && plain(*b) ==> {
            &&& r is Ok <==> stretchable(tensor_dims(*a), tensor_dims(*b)) && stretched(
                tensor_dims(*a),
                tensor_dims(*b),
            ) is Some
            &&& r matches Ok(u) ==> plain(u)
        },
{
    if !stretch_fits(a, b) {
        return Err(TensorError::TooLarge);
    }
    lift(candle_broadcast_maximum(a, b))
}

/// Elementwise quotient of two tensors whose shapes stretch to one.
pub fn over(a: &Tensor, b: &Tensor) -> (r: Result<Tensor, TensorError>)
    ensures
        r matches Ok(u) ==> {
            &&& tensor_is_float(*a) && tensor_is_float(*b)
            &&& stretchable(tensor_dims(*a), tensor_dims(*b))
            &&& is_quotient(view_of(*a), view_of(*b), view_of(u))
        },
        plain(*a) && plain(*b) ==> {
            &&& r is Ok <==> stretchable(tensor_dims(*a), tensor_dims(*b)) && stretched(
                tensor_dims(*a),
                tensor_dims(*b),
            ) is Some
            &&& r matches Ok(u) ==> plain(u)
        },
        stretchable(tensor_dims(*a), tensor_dims(*b)) && !(tensor_is_float(*a) && tensor_is_float(
            *b,
        )) ==> (r matches Err(e) && e is NotFloat),
{
    if !stretch_fits(a, b) {
        return Err(TensorError::TooLarge);
    }
    if !is_float(a) || !is_float(b) {
        return Err(TensorError::NotFloat);
    }
    lift(candle_broadcast_div(a, b))
}

/// `t` in another element type.
pub fn to_dtype(t: &Tensor, dtype: DType) -> (r: Result<Tensor, TensorError>)
    ensures
        r matches Ok(u) ==> {
            &&& fits(tensor_dims(*t))
            &&& tensor_dims(u) == tensor_dims(*t)
            &&& consistent(view_of(u))
            &&& cast_outcome(tensor_words(*t), dtype, tensor_words(u))
            &&& dtype_is_f32(dtype) ==> view_of(u) == view_of(*t)
            &&& tensor_dtype(u) == dtype
            &&& tensor_place(u) == tensor_place(*t)
            &&& tensor_is_dense(*t) ==> tensor_is_dense(u)
            &&& is_settled(u)
        },
        writable(*t) && dtype_is_f32(dtype) ==> (r is Ok <==> fits(tensor_dims(*t))),
        !fits(tensor_dims(*t)) ==> r is Err,
{
    let t = settled(t)?;
    lift(candle_to_dtype(&t, dtype))
}

/// `t` in the element type of `like`.
pub fn to_dtype_of(t: &Tensor, like: &Tensor) -> (r: Result<Tensor, TensorError>)
    ensures
        r matches Ok(u) ==> {
            &&& fits(tensor_dims(*t))
            &&& tensor_dims(u) == tensor_dims(*t)
            &&& consistent(view_of(u))
            &&& cast_outcome(tensor_words(*t), tensor_dtype(*like), tensor_words(u))
            &&& tensor_is_f32(*like) ==> view_of(u) == view_of(*t)
            &&& tensor_dtype(u) == tensor_dtype(*like)
            &&& tensor_place(u) == tensor_place(*t)
        },
        plain(*t) && plain(*like) ==> (r is Ok <==> fits(tensor_dims(*t))),
{
    to_dtype(t, candle_dtype(like))
}

/// `t` with its elements next to one another in memory.
pub fn contiguous(t: &Tensor) -> (r: Result<Tensor, TensorError>)
    ensures
        r matches Ok(u) ==> {
            &&& fits(tensor_dims(*t))
            &&& view_of(u) == view_of(*t)
            &&& stored_alike(u, *t)
            &&& tensor_is_dense(u)
        },
        plain(*t) ==> (r is Ok <==> fits(tensor_dims(*t))),
{
    let t = settled(t)?;
    lift(candle_contiguous(&t))
}

} // verus!
