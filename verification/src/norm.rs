//! Normalisation and activation of tensors.
use candle_core::{DType, Tensor};
use vstd::prelude::*;

use crate::le::{le_bytes, le_bytes_len, push_le};
use crate::ops::{
    exp, is_exp, is_kept_mean, is_kept_total, is_log, is_maximum, is_product, is_quotient, is_root,
    is_silu, is_square, is_sum, larger, lift, log, mean_keep, ones, ones_like, over, plus, reshape,
    root, silu, square, stretchable, sum_keep, times, to_dtype_of, TensorError,
};
use crate::shape::{
    consistent, count, count_small, fits, reducible, reshaped, stretched, TensorView,
};
use crate::tensor::{
    candle_device, candle_dims, candle_double, candle_dtype, candle_from_bytes, candle_is_double,
    cast_outcome, double_seen, dtype_is_double, dtype_is_f32, plain, tensor_dims, tensor_dtype,
    tensor_words, view_of, words_bytes, words_bytes_unique,
};

verus! {

/// The bit pattern of one millionth, the least length that a vector is divided by.
pub const NORM_EPS: u32 = 0x3586_37BD;

/// `r` is the single number with the bit pattern `bits`, in the element type `dtype`.
pub open spec fn is_scalar(bits: u32, dtype: DType, r: TensorView) -> bool {
    &&& r.dims == Seq::<usize>::empty()
    &&& consistent(r)
    &&& cast_outcome(seq![bits], dtype, r.words)
    &&& dtype_is_f32(dtype) ==> r.words == seq![bits]
}

/// The single number with the bit pattern `bits`, stored as `like` is.
fn scalar_like(bits: u32, like: &Tensor) -> (r: Result<Tensor, TensorError>)
    ensures
        r matches Ok(u) ==> {
            &&& is_scalar(bits, tensor_dtype(*like), view_of(u))
            &&& plain(*like) ==> plain(u)
        },
        plain(*like) ==> r is Ok,
{
    let mut bytes: Vec<u8> = Vec::new();
    push_le(&mut bytes, bits as u64, 4);
    let none: [usize; 0] = [];
    proof {
        le_bytes_len(bits as nat, 4);
        assert(bytes@ =~= le_bytes(bits as nat, 4));
        assert(none@ =~= Seq::empty());
        let one = seq![bits];
        assert(one.drop_last() =~= Seq::empty());
        assert(words_bytes(one.drop_last()) =~= Seq::empty());
        assert(words_bytes(one) =~= bytes@);
    }
    let t = lift(candle_from_bytes(bytes.as_slice(), none.as_slice(), candle_device(like)))?;
    proof {
        words_bytes_unique(tensor_words(t), seq![bits]);
    }
    to_dtype_of(&t, like)
}

/// The bit pattern of one millionth as a 64-bit float, the least root mean square that a vector of
/// such floats is divided by.
pub const NORM_EPS_DOUBLE: u64 = 0x3EB0_C6F7_A0B5_ED8D;

/// `r` is the single number one millionth, in the element type `dtype`.
pub open spec fn is_floor(dtype: DType, r: TensorView) -> bool {
    if dtype_is_double(dtype) && !dtype_is_f32(dtype) {
        &&& r.dims == Seq::<usize>::empty()
        &&& consistent(r)
        &&& double_seen(NORM_EPS_DOUBLE, r.words[0])
    } else {
        is_scalar(NORM_EPS, dtype, r)
    }
}

/// One millionth, stored as `like` is.
fn floor_like(like: &Tensor) -> (r: Result<Tensor, TensorError>)
    ensures
        r matches Ok(u) ==> {
            &&& is_floor(tensor_dtype(*like), view_of(u))
            &&& plain(*like) ==> plain(u)
        },
        plain(*like) ==> r is Ok,
{
    if candle_is_double(candle_dtype(like)) {
        lift(candle_double(NORM_EPS_DOUBLE, candle_device(like)))
    } else {
        scalar_like(NORM_EPS, like)
    }
}

/// `r` holds the lengths of the vectors along the last dimension of `x`.
pub open spec fn is_length(x: TensorView, r: TensorView) -> bool {
    exists|squares: TensorView, total: TensorView|
        {
            &&& is_square(x, squares)
            &&& #[trigger] is_kept_total(squares, (x.dims.len() - 1) as usize, total)
            &&& #[trigger] is_root(total, r)
        }
}

/// `r` is `x` with each vector along the last dimension divided by its length, or by `eps` if
/// that is larger.
pub open spec fn is_l2_normed(x: TensorView, eps: u32, dtype: DType, r: TensorView) -> bool {
    exists|length: TensorView, least: TensorView, by: TensorView|
        {
            &&& is_length(x, length)
            &&& is_scalar(eps, dtype, least)
            &&& #[trigger] is_maximum(length, least, by)
            &&& #[trigger] is_quotient(x, by, r)
        }
}

/// A shape stretches to itself.
pub proof fn stretch_self(d: Seq<usize>)
    ensures
        stretched(d, d) == Some(d),
    decreases d.len(),
{
    if d.len() > 0 {
        stretch_self(d.drop_last());
        assert(d.drop_last().push(d.last()) =~= d);
    }
}

/// A shape with one index left in its last dimension stretches to the whole.
pub proof fn stretch_last(d: Seq<usize>)
    requires
        d.len() > 0,
    ensures
        stretched(d, d.update(d.len() - 1, 1)) == Some(d),
{
    let e = d.update(d.len() - 1, 1);
    assert(e.drop_last() =~= d.drop_last());
    stretch_self(d.drop_last());
    assert(d.drop_last().push(d.last()) =~= d);
}

/// Divides each vector along the last dimension by its length, or by the number with the bit
/// pattern `eps` if that is larger.
pub fn l2_norm(x: &Tensor, eps: u32) -> (r: Result<Tensor, TensorError>)
    ensures
        r matches Ok(u) ==> {
            &&& tensor_dims(*x).len() > 0
            &&& reducible(tensor_dims(*x), tensor_dims(*x).len() - 1)
            &&& tensor_dims(u) == tensor_dims(*x)
            &&& is_l2_normed(view_of(*x), eps, tensor_dtype(*x), view_of(u))
        },
        plain(*x) ==> {
            &&& r is Ok <==> tensor_dims(*x).len() > 0 && reducible(
                tensor_dims(*x),
                tensor_dims(*x).len() - 1,
            )
            &&& r matches Ok(u) ==> plain(u)
        },
{
    let rank: usize = candle_dims(x).len();
    if rank == 0 {
        return Err(TensorError::WrongRank { expected: 1, got: 0 });
    }
    let squares = square(x)?;
    let total = sum_keep(&squares, rank - 1)?;
    let length = root(&total)?;
    let least = scalar_like(eps, x)?;
    proof {
        stretch_last(tensor_dims(*x));
        assert(is_length(view_of(*x), view_of(length)));
    }
    let by = larger(&length, &least)?;
    let u = over(x, &by)?;
    assert(is_scalar(eps, tensor_dtype(*x), view_of(least)));
    assert(is_maximum(view_of(length), view_of(least), view_of(by)));
    assert(is_quotient(view_of(*x), view_of(by), view_of(u)));
    Ok(u)
}

/// `r` is the logarithm of one plus the exponential of `x`, element by element.
pub open spec fn is_softplus(x: TensorView, r: TensorView) -> bool {
    exists|powers: TensorView, more: TensorView|
        {
            &&& is_exp(x, powers)
            &&& #[trigger] is_sum(ones(x.dims), powers, more)
            &&& #[trigger] is_log(more, r)
        }
}

/// The logarithm of one plus the exponential of each element.
pub fn softplus(x: &Tensor) -> (r: Result<Tensor, TensorError>)
    ensures
        r matches Ok(u) ==> {
            &&& fits(tensor_dims(*x))
            &&& tensor_dims(u) == tensor_dims(*x)
            &&& is_softplus(view_of(*x), view_of(u))
        },
        plain(*x) ==> {
            &&& r is Ok <==> fits(tensor_dims(*x))
            &&& r matches Ok(u) ==> plain(u)
        },
{
    let unit = ones_like(x)?;
    let powers = exp(x)?;
    let more = plus(&unit, &powers)?;
    let u = log(&more)?;
    assert(is_sum(ones(tensor_dims(*x)), view_of(powers), view_of(more)));
    assert(is_log(view_of(more), view_of(u)));
    Ok(u)
}

/// `r` holds the root mean squares along the last dimension of `x`, and one millionth where they
/// are smaller.
pub open spec fn is_rms(x: TensorView, dtype: DType, r: TensorView) -> bool {
    exists|squares: TensorView, mean: TensorView, rms: TensorView, least: TensorView|
        {
            &&& is_square(x, squares)
            &&& #[trigger] is_kept_mean(squares, (x.dims.len() - 1) as usize, mean)
            &&& #[trigger] is_root(mean, rms)
            &&& is_floor(dtype, least)
            &&& #[trigger] is_maximum(rms, least, r)
        }
}

/// `r` is `x`, divided by its root mean square along the last dimension, times the weights, times
/// the SiLU of `gate`.
pub open spec fn is_norm_gated(
    x: TensorView,
    gate: TensorView,
    weight: TensorView,
    dtype: DType,
    r: TensorView,
) -> bool {
    exists|rms: TensorView, normed: TensorView, weighted: TensorView, act: TensorView|
        {
            &&& is_rms(x, dtype, rms)
            &&& #[trigger] is_quotient(x, rms, normed)
            &&& is_product(normed, reshaped(weight, seq![1, 1, 1, x.dims[3]]), weighted)
            &&& is_silu(gate, act)
            &&& #[trigger] is_product(weighted, act, r)
        }
}

/// The shape that comes out of the gated normalisation.
pub open spec fn gated_dims(x: Seq<usize>, gate: Seq<usize>) -> Option<Seq<usize>> {
    match stretched(x, seq![1, 1, 1, x[3]]) {
        Some(d) => stretched(d, gate),
        None => None,
    }
}

/// The gated normalisation of vectors, one for each head, by others of the same shape leaves their
/// shape.
pub proof fn gated_dims_same(x: Seq<usize>)
    requires
        x.len() == 4,
    ensures
        gated_dims(x, x) == Some(x),
{
    reveal_with_fuel(stretched, 5);
    let w = seq![1usize, 1, 1, x[3]];
    stretch_self(x);
    let x3 = x.drop_last();
    let x2 = x3.drop_last();
    let x1 = x2.drop_last();
    let w3 = w.drop_last();
    let w2 = w3.drop_last();
    let w1 = w2.drop_last();
    assert(x1.drop_last() =~= Seq::empty());
    assert(w1.drop_last() =~= Seq::empty());
    assert(Seq::<usize>::empty().push(x1.last()) =~= x1);
    assert(x1.push(x2.last()) =~= x2);
    assert(x2.push(x3.last()) =~= x3);
    assert(x3.push(x.last()) =~= x);
    assert(stretched(x1, w1) == Some(x1));
    assert(stretched(x2, w2) == Some(x2));
    assert(stretched(x3, w3) == Some(x3));
    assert(stretched(x, w) == Some(x));
}

/// Shapes on which the gated normalisation works.
pub open spec fn gating_fits(x: Seq<usize>, gate: Seq<usize>, weight: Seq<usize>) -> bool {
    let weights = seq![1, 1, 1, x[3]];
    &&& x.len() >= 4
    &&& reducible(x, x.len() - 1)
    &&& fits(weight)
    &&& count(weight) == x[3]
    &&& stretchable(x, weights)
    &&& fits(gate)
    &&& stretched(x, weights) matches Some(d) && stretchable(d, gate) && stretched(d, gate) is Some
}

/// Divides each vector along the last dimension of `output` by its root mean square, multiplies
/// it with the weights, and multiplies the result with the SiLU of `gate`.
pub fn norm_gated(output: &Tensor, gate: &Tensor, norm_weight: &Tensor) -> (r: Result<
    Tensor,
    TensorError,
>)
    requires
        tensor_dims(*output).len() >= 4,
    ensures
        r matches Ok(u) ==> {
            &&& gating_fits(tensor_dims(*output), tensor_dims(*gate), tensor_dims(*norm_weight))
            &&& is_norm_gated(
                view_of(*output),
                view_of(*gate),
                view_of(*norm_weight),
                tensor_dtype(*output),
                view_of(u),
            )
            &&& Some(tensor_dims(u)) == gated_dims(tensor_dims(*output), tensor_dims(*gate))
        },
        plain(*output) && plain(*gate) && plain(*norm_weight) ==> {
            &&& r is Ok <==> gating_fits(
                tensor_dims(*output),
                tensor_dims(*gate),
                tensor_dims(*norm_weight),
            )
            &&& r matches Ok(u) ==> plain(u)
        },
{
    let dims = candle_dims(output);
    let rank: usize = dims.len();
    let state_size: usize = dims[3];
    let squares = square(output)?;
    let mean = mean_keep(&squares, rank - 1)?;
    let rms = root(&mean)?;
    let least = floor_like(output)?;
    proof {
        stretch_last(tensor_dims(*output));
    }
    let by = larger(&rms, &least)?;
    assert(is_floor(tensor_dtype(*output), view_of(least)));
    assert(is_rms(view_of(*output), tensor_dtype(*output), view_of(by)));
    let normed = over(output, &by)?;
    let weights: [usize; 4] = [1, 1, 1, state_size];
    proof {
        assert(weights@ =~= seq![1, 1, 1, state_size]);
        count_small(1, 1, 1, state_size, 0);
        assert(1usize * 1usize * 1usize * state_size == state_size) by (nonlinear_arith);
        assert(count(weights@) == state_size);
    }
    let weight = reshape(norm_weight, weights.as_slice())?;
    let weighted = times(&normed, &weight)?;
    let act = silu(gate)?;
    let u = times(&weighted, &act)?;
    proof {
        assert(is_quotient(view_of(*output), view_of(by), view_of(normed)));
        assert(is_product(
            view_of(normed),
            reshaped(view_of(*norm_weight), seq![1, 1, 1, state_size]),
            view_of(weighted),
        ));
        assert(is_product(view_of(weighted), view_of(act), view_of(u)));
    }
    Ok(u)
}

} // verus!
