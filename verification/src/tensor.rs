//! Tensors of the `candle` crates: what the library relies on of them.
//!
//! A tensor is seen through its dimensions and its elements ([`TensorView`]). Functions that
//! only move elements are described exactly. Of functions that calculate with floats, the last
//! bits can differ from one processor to the next, so no result is pinned to its arguments:
//! each has a relation that holds of the arguments and whatever came out. Where a function works
//! element by element, so does its relation.
use candle_core::quantized::QMatMul;
use candle_core::{DType, Device, DeviceLocation, Error, Module, Tensor};
use vstd::prelude::*;

use crate::le::{byte_range_values, le_bytes, le_bytes_len, le_value_of_bytes};
use crate::rows::row;
use crate::shape::{
    can_narrow, consistent, count, fits, joinable, joined, narrowed, reducible, reshaped, stretched,
    stretched_index, stretched_view, stretches_to, swapped, total_along, zeroed, TensorView,
};
use crate::topology::Location;

verus! {

#[verifier::external_type_specification]
#[verifier::external_body]
pub struct ExTensor(candle_core::Tensor);

#[verifier::external_type_specification]
#[verifier::external_body]
pub struct ExDevice(candle_core::Device);

#[verifier::external_type_specification]
#[verifier::external_body]
pub struct ExError(candle_core::Error);

#[verifier::external_type_specification]
#[verifier::external_body]
pub struct ExDType(candle_core::DType);

#[verifier::external_type_specification]
#[verifier::external_body]
pub struct ExQMatMul(candle_core::quantized::QMatMul);

/// Dimensions of a tensor, outermost first.
pub uninterp spec fn tensor_dims(t: Tensor) -> Seq<usize>;

/// Elements of a tensor in row-major order, each as the bit pattern of its value as a 32-bit
/// float. The library calls nothing that writes to a tensor.
pub uninterp spec fn tensor_words(t: Tensor) -> Seq<u32>;

/// Type of the elements as they are stored.
pub uninterp spec fn tensor_dtype(t: Tensor) -> DType;

/// Where the elements are stored.
pub uninterp spec fn tensor_place(t: Tensor) -> Location;

/// The elements of the tensor, if it has any, begin within what is stored; without elements it
/// can begin past the end.
pub uninterp spec fn tensor_starts_within(t: Tensor) -> bool;

/// The tensor's elements are stored as 32-bit floats.
pub open spec fn tensor_is_f32(t: Tensor) -> bool {
    dtype_is_f32(tensor_dtype(t))
}

/// The tensor's elements are in main memory.
pub open spec fn tensor_on_cpu(t: Tensor) -> bool {
    tensor_place(t) == Location::Cpu
}

/// The tensor's elements are in the memory of a CUDA device.
pub open spec fn tensor_on_cuda(t: Tensor) -> bool {
    tensor_place(t) is Cuda
}

/// What is stored can be read from where the tensor begins.
pub open spec fn is_settled(t: Tensor) -> bool {
    count(tensor_dims(t)) > 0 || tensor_starts_within(t)
}

/// One tensor is stored as another is: in elements of one type, and on one device.
pub open spec fn stored_alike(t: Tensor, u: Tensor) -> bool {
    tensor_dtype(t) == tensor_dtype(u) && tensor_place(t) == tensor_place(u)
}

/// The tensor's elements stand next to one another in memory, in row-major order.
pub uninterp spec fn tensor_is_dense(t: Tensor) -> bool;

/// Elements, in row-major order, of a tensor of 32-bit unsigned integers in main memory; nothing
/// of other tensors.
pub uninterp spec fn tensor_ids(t: Tensor) -> Option<Seq<u32>>;

/// Dimensions of a weight matrix, outputs first.
pub uninterp spec fn qmatmul_dims(w: QMatMul) -> Seq<usize>;

/// Elements of a weight matrix in row-major order, each as the bit pattern of its value as a
/// 32-bit float.
pub uninterp spec fn qmatmul_words(w: QMatMul) -> Seq<u32>;

/// Where the weight matrix is stored.
pub uninterp spec fn qmatmul_place(w: QMatMul) -> Location;

/// The weight matrix is stored in a quantised form in the memory of a CUDA device.
pub uninterp spec fn qmatmul_on_cuda(w: QMatMul) -> bool;

/// The weight matrix is in main memory: as 32-bit floats, or in a quantised form with as many
/// blocks as its dimensions call for.
pub uninterp spec fn qmatmul_on_cpu(w: QMatMul) -> bool;

/// How many bytes hold a quantised matrix; nothing of an ordinary tensor.
pub uninterp spec fn qmatmul_bytes(w: QMatMul) -> Option<usize>;

/// How many elements of a quantised matrix there are in a block; nothing of an ordinary tensor.
pub uninterp spec fn qmatmul_block_len(w: QMatMul) -> Option<usize>;

/// How many bytes a block of a quantised matrix takes; nothing of an ordinary tensor.
pub uninterp spec fn qmatmul_block_bytes(w: QMatMul) -> Option<usize>;

/// A quantised matrix of these dimensions, held in `bytes` bytes, has all its blocks and no others.
pub open spec fn holds_blocks(
    dims: Seq<usize>,
    bytes: Option<usize>,
    block_len: Option<usize>,
    block_bytes: Option<usize>,
) -> bool {
    match (bytes, block_len, block_bytes) {
        (Some(n), Some(len), Some(size)) => {
            &&& len > 0
            &&& size > 0
            &&& n == (count(dims) as int / len as int) * size
        },
        _ => true,
    }
}

/// A quantised matrix has all its blocks and no others.
pub open spec fn is_whole(w: QMatMul) -> bool {
    holds_blocks(qmatmul_dims(w), qmatmul_bytes(w), qmatmul_block_len(w), qmatmul_block_bytes(w))
}

/// The element type is that of 64-bit floats.
pub uninterp spec fn dtype_is_double(d: DType) -> bool;

/// The element type is that of 32-bit floats.
pub uninterp spec fn dtype_is_f32(d: DType) -> bool;

/// Elements of this type are floats: arithmetic with them does not overflow, and none of its
/// operations is missing.
pub uninterp spec fn dtype_is_float(d: DType) -> bool;

/// The elements are floats.
pub open spec fn tensor_is_float(t: Tensor) -> bool {
    dtype_is_float(tensor_dtype(t))
}

/// Numbers are stored in elements of this type, and can be converted: it is not one of those that
/// pack several into a byte or hold exponents alone.
pub uninterp spec fn dtype_is_number(d: DType) -> bool;

/// Where a device is.
pub uninterp spec fn device_place(d: Device) -> Location;

/// The device is the processor itself.
pub open spec fn device_is_cpu(d: Device) -> bool {
    device_place(d) == Location::Cpu
}

/// Two devices are of one kind.
pub open spec fn same_kind(a: Location, b: Location) -> bool {
    match (a, b) {
        (Location::Cpu, Location::Cpu) => true,
        (Location::Cuda { .. }, Location::Cuda { .. }) => true,
        (Location::Metal { .. }, Location::Metal { .. }) => true,
        _ => false,
    }
}

/// What the library sees of a tensor.
pub open spec fn view_of(t: Tensor) -> TensorView {
    TensorView { dims: tensor_dims(t), words: tensor_words(t) }
}

/// What the library sees of each of several tensors.
pub open spec fn views_of(ts: Seq<Tensor>) -> Seq<TensorView> {
    ts.map_values(|t: Tensor| view_of(t))
}

/// Stored as 32-bit floats in main memory: on such tensors `candle` refuses no operation but
/// for its shapes.
pub open spec fn plain(t: Tensor) -> bool {
    tensor_is_f32(t) && tensor_on_cpu(t)
}

/// Numbers in main memory: nothing but their dimensions keeps them from being written as bytes.
pub open spec fn writable(t: Tensor) -> bool {
    plain(t) || (dtype_is_number(tensor_dtype(t)) && tensor_on_cpu(t))
}

/// The bytes of `words`, each word least significant byte first.
pub open spec fn words_bytes(words: Seq<u32>) -> Seq<u8>
    decreases words.len(),
{
    if words.len() == 0 {
        Seq::empty()
    } else {
        words_bytes(words.drop_last()) + le_bytes(words.last() as nat, 4)
    }
}

/// Words take four bytes each.
pub proof fn words_bytes_len(words: Seq<u32>)
    ensures
        words_bytes(words).len() == 4 * words.len(),
    decreases words.len(),
{
    if words.len() > 0 {
        words_bytes_len(words.drop_last());
        le_bytes_len(words.last() as nat, 4);
    }
}

/// Different words have different bytes.
pub proof fn words_bytes_unique(a: Seq<u32>, b: Seq<u32>)
    requires
        words_bytes(a) == words_bytes(b),
    ensures
        a == b,
    decreases a.len(),
{
    words_bytes_len(a);
    words_bytes_len(b);
    if a.len() > 0 {
        let n = 4 * (a.len() - 1);
        words_bytes_len(a.drop_last());
        words_bytes_len(b.drop_last());
        le_bytes_len(a.last() as nat, 4);
        le_bytes_len(b.last() as nat, 4);
        let bytes = words_bytes(a);
        assert(bytes.take(n) =~= words_bytes(a.drop_last()));
        assert(bytes.take(n) =~= words_bytes(b.drop_last()));
        assert(bytes.skip(n) =~= le_bytes(a.last() as nat, 4));
        assert(bytes.skip(n) =~= le_bytes(b.last() as nat, 4));
        words_bytes_unique(a.drop_last(), b.drop_last());
        byte_range_values();
        le_value_of_bytes(a.last() as nat, 4);
        le_value_of_bytes(b.last() as nat, 4);
        assert(a =~= a.drop_last().push(a.last()));
        assert(b =~= b.drop_last().push(b.last()));
    } else {
        assert(a =~= b);
    }
}

/// `r` can be what `Tensor::broadcast_mul` makes of two elements `a` and `b`.
pub uninterp spec fn product_of(a: u32, b: u32, r: u32) -> bool;

/// `out` is an elementwise product that `Tensor::broadcast_mul` gives for `a` and `b`.
pub open spec fn product_outcome(
    a_dims: Seq<usize>,
    a: Seq<u32>,
    b_dims: Seq<usize>,
    b: Seq<u32>,
    out: Seq<u32>,
) -> bool {
    let d = stretched(a_dims, b_dims)->0;
    forall|i: int|
        0 <= i < out.len() ==> product_of(
            a[stretched_index(a_dims, d, i)],
            b[stretched_index(b_dims, d, i)],
            #[trigger] out[i],
        )
}

/// `r` can be what `Tensor::broadcast_add` makes of two elements `a` and `b`.
pub uninterp spec fn stretched_sum_of(a: u32, b: u32, r: u32) -> bool;

/// `out` is an elementwise sum that `Tensor::broadcast_add` gives for `a` and `b`.
pub open spec fn stretched_sum_outcome(
    a_dims: Seq<usize>,
    a: Seq<u32>,
    b_dims: Seq<usize>,
    b: Seq<u32>,
    out: Seq<u32>,
) -> bool {
    let d = stretched(a_dims, b_dims)->0;
    forall|i: int|
        0 <= i < out.len() ==> stretched_sum_of(
            a[stretched_index(a_dims, d, i)],
            b[stretched_index(b_dims, d, i)],
            #[trigger] out[i],
        )
}

/// `r` can be what `Tensor::add` makes of two elements `a` and `b`.
pub uninterp spec fn sum_of(a: u32, b: u32, r: u32) -> bool;

/// `out` is an elementwise sum that `Tensor::add` gives for `a` and `b`.
pub open spec fn sum_outcome(a: Seq<u32>, b: Seq<u32>, out: Seq<u32>) -> bool {
    forall|i: int| 0 <= i < out.len() ==> sum_of(a[i], b[i], #[trigger] out[i])
}

/// `r` can be what `Tensor::sub` makes of two elements `a` and `b`.
pub uninterp spec fn difference_of(a: u32, b: u32, r: u32) -> bool;

/// `out` is an elementwise difference that `Tensor::sub` gives for `a` and `b`.
pub open spec fn difference_outcome(a: Seq<u32>, b: Seq<u32>, out: Seq<u32>) -> bool {
    forall|i: int| 0 <= i < out.len() ==> difference_of(a[i], b[i], #[trigger] out[i])
}

/// `out` is a product of matrices that `Tensor::broadcast_matmul` gives for `a` and `b`.
pub uninterp spec fn matmul_outcome(
    a_dims: Seq<usize>,
    a: Seq<u32>,
    b_dims: Seq<usize>,
    b: Seq<u32>,
    out: Seq<u32>,
) -> bool;

/// `r` can be what `Tensor::exp` makes of an element `a`.
pub uninterp spec fn exp_of(a: u32, r: u32) -> bool;

/// `out` are exponentials that `Tensor::exp` gives for `a`.
pub open spec fn exp_outcome(a: Seq<u32>, out: Seq<u32>) -> bool {
    forall|i: int| 0 <= i < out.len() ==> exp_of(a[i], #[trigger] out[i])
}

/// `r` can be what `Tensor::log` makes of an element `a`.
pub uninterp spec fn log_of(a: u32, r: u32) -> bool;

/// `out` are natural logarithms that `Tensor::log` gives for `a`.
pub open spec fn log_outcome(a: Seq<u32>, out: Seq<u32>) -> bool {
    forall|i: int| 0 <= i < out.len() ==> log_of(a[i], #[trigger] out[i])
}

/// `r` can be what `candle_nn::ops::silu` makes of an element `a`.
pub uninterp spec fn silu_of(a: u32, r: u32) -> bool;

/// `out` is what `candle_nn::ops::silu` gives for `a`.
pub open spec fn silu_outcome(a: Seq<u32>, out: Seq<u32>) -> bool {
    forall|i: int| 0 <= i < out.len() ==> silu_of(a[i], #[trigger] out[i])
}

/// `r` can be what `candle_nn::ops::sigmoid` makes of an element `a`.
pub uninterp spec fn sigmoid_of(a: u32, r: u32) -> bool;

/// `out` is what `candle_nn::ops::sigmoid` gives for `a`.
pub open spec fn sigmoid_outcome(a: Seq<u32>, out: Seq<u32>) -> bool {
    forall|i: int| 0 <= i < out.len() ==> sigmoid_of(a[i], #[trigger] out[i])
}

/// The elements along dimension `dim` that stand under index `o` of the other dimensions.
pub open spec fn line_along(dims: Seq<usize>, words: Seq<u32>, dim: int, o: int) -> Seq<u32> {
    let inner = count(dims.skip(dim + 1)) as int;
    Seq::new(
        dims[dim] as nat,
        |j: int| words[((o / inner) * dims[dim] + j) * inner + o % inner],
    )
}

/// `r` can be what `Tensor::sum` makes of the elements along a dimension.
pub uninterp spec fn total_of(line: Seq<u32>, r: u32) -> bool;

/// `out` are sums along dimension `dim` that `Tensor::sum` gives for `a`.
pub open spec fn total_outcome(
    a_dims: Seq<usize>,
    a: Seq<u32>,
    dim: usize,
    out: Seq<u32>,
) -> bool {
    forall|o: int|
        0 <= o < out.len() ==> total_of(line_along(a_dims, a, dim as int, o), #[trigger] out[o])
}

/// `r` can be what `Tensor::sqr` makes of an element `a`.
pub uninterp spec fn square_of(a: u32, r: u32) -> bool;

/// `out` are squares that `Tensor::sqr` gives for `a`.
pub open spec fn square_outcome(a: Seq<u32>, out: Seq<u32>) -> bool {
    forall|i: int| 0 <= i < out.len() ==> square_of(a[i], #[trigger] out[i])
}

/// `r` can be what `Tensor::sqrt` makes of an element `a`.
pub uninterp spec fn root_of(a: u32, r: u32) -> bool;

/// `out` are square roots that `Tensor::sqrt` gives for `a`.
pub open spec fn root_outcome(a: Seq<u32>, out: Seq<u32>) -> bool {
    forall|i: int| 0 <= i < out.len() ==> root_of(a[i], #[trigger] out[i])
}

/// `r` can be what `Tensor::sum_keepdim` makes of the elements along a dimension.
pub uninterp spec fn kept_total_of(line: Seq<u32>, r: u32) -> bool;

/// `out` are sums along dimension `dim` that `Tensor::sum_keepdim` gives for `a`.
pub open spec fn kept_total_outcome(
    a_dims: Seq<usize>,
    a: Seq<u32>,
    dim: usize,
    out: Seq<u32>,
) -> bool {
    forall|o: int|
        0 <= o < out.len() ==> kept_total_of(line_along(a_dims, a, dim as int, o), #[trigger] out[o])
}

/// `r` can be what `Tensor::mean_keepdim` makes of the elements along a dimension.
pub uninterp spec fn kept_mean_of(line: Seq<u32>, r: u32) -> bool;

/// `out` are means along dimension `dim` that `Tensor::mean_keepdim` gives for `a`.
pub open spec fn kept_mean_outcome(
    a_dims: Seq<usize>,
    a: Seq<u32>,
    dim: usize,
    out: Seq<u32>,
) -> bool {
    forall|o: int|
        0 <= o < out.len() ==> kept_mean_of(line_along(a_dims, a, dim as int, o), #[trigger] out[o])
}

/// `r` can be what `Tensor::broadcast_maximum` makes of two elements `a` and `b`.
pub uninterp spec fn maximum_of(a: u32, b: u32, r: u32) -> bool;

/// `out` is an elementwise maximum that `Tensor::broadcast_maximum` gives for `a` and `b`.
pub open spec fn maximum_outcome(
    a_dims: Seq<usize>,
    a: Seq<u32>,
    b_dims: Seq<usize>,
    b: Seq<u32>,
    out: Seq<u32>,
) -> bool {
    let d = stretched(a_dims, b_dims)->0;
    forall|i: int|
        0 <= i < out.len() ==> maximum_of(
            a[stretched_index(a_dims, d, i)],
            b[stretched_index(b_dims, d, i)],
            #[trigger] out[i],
        )
}

/// `r` can be what `Tensor::broadcast_div` makes of two elements `a` and `b`.
pub uninterp spec fn quotient_of(a: u32, b: u32, r: u32) -> bool;

/// `out` is an elementwise quotient that `Tensor::broadcast_div` gives for `a` and `b`.
pub open spec fn quotient_outcome(
    a_dims: Seq<usize>,
    a: Seq<u32>,
    b_dims: Seq<usize>,
    b: Seq<u32>,
    out: Seq<u32>,
) -> bool {
    let d = stretched(a_dims, b_dims)->0;
    forall|i: int|
        0 <= i < out.len() ==> quotient_of(
            a[stretched_index(a_dims, d, i)],
            b[stretched_index(b_dims, d, i)],
            #[trigger] out[i],
        )
}

/// `r` can be what `QMatMul::forward` makes of a vector `x` with a weight matrix `w`.
pub uninterp spec fn qmatmul_of(
    w_dims: Seq<usize>,
    w: Seq<u32>,
    x: Seq<u32>,
    r: Seq<u32>,
) -> bool;

/// `out` is a product that `QMatMul::forward` gives for a weight matrix `w` and the vectors along
/// the last dimension of `x`.
pub open spec fn qmatmul_outcome(
    w_dims: Seq<usize>,
    w: Seq<u32>,
    x_dims: Seq<usize>,
    x: Seq<u32>,
    out: Seq<u32>,
) -> bool {
    forall|i: int|
        0 <= i < count(x_dims.drop_last()) ==> qmatmul_of(
            w_dims,
            w,
            row(x, i, x_dims.last() as int),
            #[trigger] row(out, i, w_dims[0] as int),
        )
}

/// `out` is what `QMatMul::indexed_moe_forward` gives for expert matrices `w`, tokens `x` and
/// indices `ids`.
pub uninterp spec fn experts_outcome(
    w_dims: Seq<usize>,
    w: Seq<u32>,
    x_dims: Seq<usize>,
    x: Seq<u32>,
    ids_dims: Seq<usize>,
    ids: Seq<u32>,
    out_dims: Seq<usize>,
    out: Seq<u32>,
) -> bool;

/// `out` are the rows that `candle_nn::Embedding::forward` finds for `ids` in a table.
pub uninterp spec fn embedding_outcome(
    table_dims: Seq<usize>,
    table: Seq<u32>,
    ids: Seq<u32>,
    out: Seq<u32>,
) -> bool;

/// `r` can be what `Tensor::to_dtype` makes of an element `a` in the element type `dtype`.
pub uninterp spec fn cast_of(a: u32, dtype: DType, r: u32) -> bool;

/// `out` is what `Tensor::to_dtype` gives for `a` in the element type `dtype`.
pub open spec fn cast_outcome(a: Seq<u32>, dtype: DType, out: Seq<u32>) -> bool {
    forall|i: int| 0 <= i < out.len() ==> cast_of(a[i], dtype, #[trigger] out[i])
}

/// Each id is the number of a row, or the largest number of all, which stands for none.
pub open spec fn ids_known(ids: Seq<u32>, rows: usize) -> bool {
    forall|i: int| 0 <= i < ids.len() ==> #[trigger] ids[i] < rows || ids[i] == u32::MAX
}

/// The rows of a table, each of `width` elements, that the ids name, one after the other; zeros
/// where an id stands for none.
pub open spec fn looked_up(table: Seq<u32>, width: nat, ids: Seq<u32>) -> Seq<u32> {
    Seq::new(
        ids.len() * width,
        |i: int|
            {
                let id = ids[i / width as int];
                if id == u32::MAX {
                    0
                } else {
                    table[id * width + i % width as int]
                }
            },
    )
}

/// `Tensor::clone`: another handle on the same tensor.
pub assume_specification[ <Tensor as Clone>::clone ](t: &Tensor) -> (r: Tensor)
    ensures
        r == *t,
;

/// `Tensor::dims`: the dimensions. A tensor has as many elements as they say.
#[verifier::external_body]
pub(crate) fn candle_dims(t: &Tensor) -> (r: Vec<usize>)
    ensures
        r@ == tensor_dims(*t),
        count(r@) == tensor_words(*t).len(),
        tensor_ids(*t) matches Some(ids) ==> count(r@) == ids.len(),
{
    t.dims().to_vec()
}

/// `Tensor::narrow`: a part of the tensor along one dimension, refused only where the part does
/// not lie within the dimension.
#[verifier::external_body]
pub(crate) fn candle_narrow(t: &Tensor, dim: usize, start: usize, len: usize) -> (r: Result<
    Tensor,
    Error,
>)
    ensures
        r is Ok <==> can_narrow(tensor_dims(*t), dim as int, start as int, len as int),
        r matches Ok(u) ==> {
            &&& view_of(u) == narrowed(view_of(*t), dim as int, start as int, len)
            &&& stored_alike(u, *t)
        },
{
    t.narrow(dim, start, len)
}

/// `Tensor::reshape`: the same elements under other dimensions, if they are as many. They stand
/// next to one another in the result, into which they are copied if they did not before.
#[verifier::external_body]
pub(crate) fn candle_reshape(t: &Tensor, dims: &[usize]) -> (r: Result<Tensor, Error>)
    requires
        fits(tensor_dims(*t)),
        fits(dims@),
        is_settled(*t),
    ensures
        r matches Ok(u) ==> {
            &&& count(dims@) == count(tensor_dims(*t))
            &&& view_of(u) == reshaped(view_of(*t), dims@)
            &&& stored_alike(u, *t)
            &&& tensor_is_dense(u)
            &&& is_settled(u)
        },
        plain(*t) && count(dims@) == count(tensor_dims(*t)) ==> r is Ok,
{
    t.reshape(dims)
}

/// `Tensor::unsqueeze`: one more dimension, of size one.
#[verifier::external_body]
pub(crate) fn candle_unsqueeze(t: &Tensor, dim: usize) -> (r: Result<Tensor, Error>)
    ensures
        r is Ok <==> dim <= tensor_dims(*t).len(),
        r matches Ok(u) ==> {
            &&& view_of(u) == reshaped(view_of(*t), tensor_dims(*t).insert(dim as int, 1))
            &&& stored_alike(u, *t)
        },
{
    t.unsqueeze(dim)
}

/// `Tensor::transpose` of a dimension and the next one.
#[verifier::external_body]
pub(crate) fn candle_swap(t: &Tensor, dim: usize, next: usize) -> (r: Result<Tensor, Error>)
    requires
        next == dim + 1,
    ensures
        r is Ok <==> next < tensor_dims(*t).len(),
        r matches Ok(u) ==> {
            &&& view_of(u) == swapped(view_of(*t), dim as int)
            &&& stored_alike(u, *t)
        },
{
    t.transpose(dim, next)
}

/// `Tensor::broadcast_as`: the tensor read with a larger shape, refused only where the shapes
/// do not match.
#[verifier::external_body]
pub(crate) fn candle_broadcast_as(t: &Tensor, dims: &[usize]) -> (r: Result<Tensor, Error>)
    ensures
        r is Ok <==> stretches_to(tensor_dims(*t), dims@),
        r matches Ok(u) ==> {
            &&& view_of(u) == stretched_view(view_of(*t), dims@)
            &&& stored_alike(u, *t)
        },
{
    t.broadcast_as(dims)
}

/// `Tensor::cat` of several tensors: side by side along one dimension.
#[verifier::external_body]
pub(crate) fn candle_cat(parts: &Vec<Tensor>, dim: usize) -> (r: Result<Tensor, Error>)
    requires
        parts@.len() > 1,
        forall|i: int|
            0 <= i < parts@.len() ==> fits(tensor_dims(#[trigger] parts@[i])) && is_settled(
                parts@[i],
            ),
        joinable(views_of(parts@), dim as int) ==> {
            &&& total_along(views_of(parts@), dim as int) <= usize::MAX
            &&& fits(joined(views_of(parts@), dim as int).dims)
        },
    ensures
        r matches Ok(u) ==> {
            &&& joinable(views_of(parts@), dim as int)
            &&& view_of(u) == joined(views_of(parts@), dim as int)
        },
        (forall|i: int| 0 <= i < parts@.len() ==> plain(#[trigger] parts@[i])) ==> {
            &&& r is Ok <==> joinable(views_of(parts@), dim as int)
            &&& r matches Ok(u) ==> plain(u)
        },
{
    Tensor::cat(parts.as_slice(), dim)
}

/// `Tensor::zeros` with the element type and device of `like`.
#[verifier::external_body]
pub(crate) fn candle_zeros(dims: &[usize], like: &Tensor) -> (r: Result<Tensor, Error>)
    requires
        fits(dims@),
    ensures
        r matches Ok(u) ==> {
            &&& view_of(u) == zeroed(dims@)
            &&& stored_alike(u, *like)
            &&& tensor_is_dense(u)
            &&& tensor_starts_within(u)
            &&& tensor_ids(*like) is Some ==> tensor_ids(u) == Some(
                Seq::new(count(dims@), |i: int| 0u32),
            )
        },
        writable(*like) || tensor_ids(*like) is Some ==> r is Ok,
{
    Tensor::zeros(dims, like.dtype(), like.device())
}

/// `Tensor::ones_like`: a tensor of the same shape whose elements are all one.
#[verifier::external_body]
pub(crate) fn candle_ones_like(t: &Tensor) -> (r: Result<Tensor, Error>)
    requires
        fits(tensor_dims(*t)),
    ensures
        r matches Ok(u) ==> {
            &&& tensor_dims(u) == tensor_dims(*t)
            &&& tensor_words(u) == Seq::new(count(tensor_dims(*t)), |i: int| 0x3F80_0000u32)
            &&& stored_alike(u, *t)
        },
        plain(*t) ==> r is Ok,
{
    t.ones_like()
}

/// `Tensor::broadcast_mul`: elementwise product of two tensors whose shapes stretch to one.
#[verifier::external_body]
pub(crate) fn candle_broadcast_mul(a: &Tensor, b: &Tensor) -> (r: Result<Tensor, Error>)
    requires
        tensor_is_float(*a),
        tensor_is_float(*b),
        fits(tensor_dims(*a)),
        fits(tensor_dims(*b)),
        stretched(tensor_dims(*a), tensor_dims(*b)) matches Some(d) ==> fits(d),
    ensures
        r matches Ok(u) ==> {
            &&& stretched(tensor_dims(*a), tensor_dims(*b)) == Some(tensor_dims(u))
            &&& consistent(view_of(u))
            &&& forall|i: int|
                0 <= i < tensor_words(u).len() ==> product_of(
                    tensor_words(*a)[stretched_index(tensor_dims(*a), tensor_dims(u), i)],
                    tensor_words(*b)[stretched_index(tensor_dims(*b), tensor_dims(u), i)],
                    #[trigger] tensor_words(u)[i],
                )
        },
        plain(*a) && plain(*b) ==> {
            &&& r is Ok <==> stretched(tensor_dims(*a), tensor_dims(*b)) is Some
            &&& r matches Ok(u) ==> plain(u)
        },
{
    a.broadcast_mul(b)
}

/// `Tensor::broadcast_add`: elementwise sum of two tensors whose shapes stretch to one.
#[verifier::external_body]
pub(crate) fn candle_broadcast_add(a: &Tensor, b: &Tensor) -> (r: Result<Tensor, Error>)
    requires
        tensor_is_float(*a),
        tensor_is_float(*b),
        fits(tensor_dims(*a)),
        fits(tensor_dims(*b)),
        stretched(tensor_dims(*a), tensor_dims(*b)) matches Some(d) ==> fits(d),
    ensures
        r matches Ok(u) ==> {
            &&& stretched(tensor_dims(*a), tensor_dims(*b)) == Some(tensor_dims(u))
            &&& consistent(view_of(u))
            &&& forall|i: int|
                0 <= i < tensor_words(u).len() ==> stretched_sum_of(
                    tensor_words(*a)[stretched_index(tensor_dims(*a), tensor_dims(u), i)],
                    tensor_words(*b)[stretched_index(tensor_dims(*b), tensor_dims(u), i)],
                    #[trigger] tensor_words(u)[i],
                )
        },
        plain(*a) && plain(*b) ==> {
            &&& r is Ok <==> stretched(tensor_dims(*a), tensor_dims(*b)) is Some
            &&& r matches Ok(u) ==> plain(u)
        },
{
    a.broadcast_add(b)
}

/// `Tensor::add`: elementwise sum of two tensors of one shape.
#[verifier::external_body]
pub(crate) fn candle_add(a: &Tensor, b: &Tensor) -> (r: Result<Tensor, Error>)
    requires
        tensor_is_float(*a),
        tensor_is_float(*b),
        fits(tensor_dims(*a)),
    ensures
        r matches Ok(u) ==> {
            &&& tensor_dims(*a) == tensor_dims(*b)
            &&& tensor_dims(u) == tensor_dims(*a)
            &&& consistent(view_of(u))
            &&& forall|i: int|
                0 <= i < tensor_words(u).len() ==> sum_of(
                    tensor_words(*a)[i],
                    tensor_words(*b)[i],
                    #[trigger] tensor_words(u)[i],
                )
        },
        plain(*a) && plain(*b) ==> {
            &&& r is Ok <==> tensor_dims(*a) == tensor_dims(*b)
            &&& r matches Ok(u) ==> plain(u)
        },
{
    a.add(b)
}

/// `Tensor::sub`: elementwise difference of two tensors of one shape.
#[verifier::external_body]
pub(crate) fn candle_sub(a: &Tensor, b: &Tensor) -> (r: Result<Tensor, Error>)
    requires
        tensor_is_float(*a),
        tensor_is_float(*b),
        fits(tensor_dims(*a)),
    ensures
        r matches Ok(u) ==> {
            &&& tensor_dims(*a) == tensor_dims(*b)
            &&& tensor_dims(u) == tensor_dims(*a)
            &&& consistent(view_of(u))
            &&& forall|i: int|
                0 <= i < tensor_words(u).len() ==> difference_of(
                    tensor_words(*a)[i],
                    tensor_words(*b)[i],
                    #[trigger] tensor_words(u)[i],
                )
        },
        plain(*a) && plain(*b) ==> {
            &&& r is Ok <==> tensor_dims(*a) == tensor_dims(*b)
            &&& r matches Ok(u) ==> plain(u)
        },
{
    a.sub(b)
}

/// `Tensor::broadcast_matmul` of two stacks of equally many matrices: the product of each pair,
/// refused only where the inner sizes differ.
#[verifier::external_body]
pub(crate) fn candle_matmul(a: &Tensor, b: &Tensor) -> (r: Result<Tensor, Error>)
    requires
        tensor_dims(*a).len() == 3,
        tensor_dims(*b).len() == 3,
        tensor_dims(*a)[0] == tensor_dims(*b)[0],
        fits(tensor_dims(*a)),
        fits(tensor_dims(*b)),
        fits(seq![tensor_dims(*a)[0], tensor_dims(*a)[1], tensor_dims(*b)[2]]),
    ensures
        r matches Ok(u) ==> {
            &&& tensor_dims(*a)[2] == tensor_dims(*b)[1]
            &&& tensor_dims(u) == seq![tensor_dims(*a)[0], tensor_dims(*a)[1], tensor_dims(*b)[2]]
            &&& consistent(view_of(u))
            &&& matmul_outcome(
                tensor_dims(*a),
                tensor_words(*a),
                tensor_dims(*b),
                tensor_words(*b),
                tensor_words(u),
            )
        },
        plain(*a) && plain(*b) ==> {
            &&& r is Ok <==> tensor_dims(*a)[2] == tensor_dims(*b)[1]
            &&& r matches Ok(u) ==> plain(u)
        },
{
    a.broadcast_matmul(b)
}

/// `Tensor::exp`, element by element of floats.
#[verifier::external_body]
pub(crate) fn candle_exp(t: &Tensor) -> (r: Result<Tensor, Error>)
    requires
        tensor_is_float(*t),
        fits(tensor_dims(*t)),
    ensures
        r matches Ok(u) ==> {
            &&& tensor_dims(u) == tensor_dims(*t)
            &&& consistent(view_of(u))
            &&& forall|i: int|
                0 <= i < tensor_words(u).len() ==> exp_of(
                    tensor_words(*t)[i],
                    #[trigger] tensor_words(u)[i],
                )
        },
        plain(*t) ==> r is Ok,
        r matches Ok(u) ==> (plain(*t) ==> plain(u)),
{
    t.exp()
}

/// `Tensor::log`, element by element of floats.
#[verifier::external_body]
pub(crate) fn candle_log(t: &Tensor) -> (r: Result<Tensor, Error>)
    requires
        tensor_is_float(*t),
        fits(tensor_dims(*t)),
    ensures
        r matches Ok(u) ==> {
            &&& tensor_dims(u) == tensor_dims(*t)
            &&& consistent(view_of(u))
            &&& forall|i: int|
                0 <= i < tensor_words(u).len() ==> log_of(
                    tensor_words(*t)[i],
                    #[trigger] tensor_words(u)[i],
                )
        },
        plain(*t) ==> r is Ok,
        r matches Ok(u) ==> (plain(*t) ==> plain(u)),
{
    t.log()
}

/// `candle_nn::ops::silu`, element by element.
#[verifier::external_body]
pub(crate) fn candle_silu(t: &Tensor) -> (r: Result<Tensor, Error>)
    requires
        fits(tensor_dims(*t)),
    ensures
        r matches Ok(u) ==> {
            &&& tensor_dims(u) == tensor_dims(*t)
            &&& consistent(view_of(u))
            &&& forall|i: int|
                0 <= i < tensor_words(u).len() ==> silu_of(
                    tensor_words(*t)[i],
                    #[trigger] tensor_words(u)[i],
                )
        },
        plain(*t) ==> r is Ok,
        r matches Ok(u) ==> (plain(*t) ==> plain(u)),
{
    candle_nn::ops::silu(t)
}

/// `candle_nn::ops::sigmoid`, element by element.
#[verifier::external_body]
pub(crate) fn candle_sigmoid(t: &Tensor) -> (r: Result<Tensor, Error>)
    requires
        fits(tensor_dims(*t)),
        is_settled(*t),
    ensures
        r matches Ok(u) ==> {
            &&& tensor_dims(u) == tensor_dims(*t)
            &&& consistent(view_of(u))
            &&& forall|i: int|
                0 <= i < tensor_words(u).len() ==> sigmoid_of(
                    tensor_words(*t)[i],
                    #[trigger] tensor_words(u)[i],
                )
        },
        plain(*t) ==> r is Ok,
        r matches Ok(u) ==> (plain(*t) ==> plain(u)),
{
    candle_nn::ops::sigmoid(t)
}

/// `Tensor::sum` along one dimension, which the result no longer has.
#[verifier::external_body]
pub(crate) fn candle_sum(t: &Tensor, dim: usize) -> (r: Result<Tensor, Error>)
    requires
        tensor_is_float(*t),
        reducible(tensor_dims(*t), dim as int),
        is_settled(*t),
    ensures
        r matches Ok(u) ==> {
            &&& dim < tensor_dims(*t).len()
            &&& tensor_dims(u) == tensor_dims(*t).remove(dim as int)
            &&& consistent(view_of(u))
            &&& forall|o: int|
                0 <= o < tensor_words(u).len() ==> total_of(
                    line_along(tensor_dims(*t), tensor_words(*t), dim as int, o),
                    #[trigger] tensor_words(u)[o],
                )
        },
        plain(*t) ==> {
            &&& r is Ok <==> dim < tensor_dims(*t).len()
            &&& r matches Ok(u) ==> plain(u)
        },
{
    t.sum(dim)
}

/// `Tensor::sqr`, element by element of floats.
#[verifier::external_body]
pub(crate) fn candle_sqr(t: &Tensor) -> (r: Result<Tensor, Error>)
    requires
        tensor_is_float(*t),
        fits(tensor_dims(*t)),
    ensures
        r matches Ok(u) ==> {
            &&& tensor_dims(u) == tensor_dims(*t)
            &&& consistent(view_of(u))
            &&& forall|i: int|
                0 <= i < tensor_words(u).len() ==> square_of(
                    tensor_words(*t)[i],
                    #[trigger] tensor_words(u)[i],
                )
        },
        plain(*t) ==> r is Ok,
        r matches Ok(u) ==> (plain(*t) ==> plain(u)),
{
    t.sqr()
}

/// `Tensor::sqrt`, element by element of floats.
#[verifier::external_body]
pub(crate) fn candle_sqrt(t: &Tensor) -> (r: Result<Tensor, Error>)
    requires
        tensor_is_float(*t),
        fits(tensor_dims(*t)),
    ensures
        r matches Ok(u) ==> {
            &&& tensor_dims(u) == tensor_dims(*t)
            &&& consistent(view_of(u))
            &&& forall|i: int|
                0 <= i < tensor_words(u).len() ==> root_of(
                    tensor_words(*t)[i],
                    #[trigger] tensor_words(u)[i],
                )
        },
        plain(*t) ==> r is Ok,
        r matches Ok(u) ==> (plain(*t) ==> plain(u)),
{
    t.sqrt()
}

/// `Tensor::sum_keepdim` along one dimension, of which one index is left: the sum.
#[verifier::external_body]
pub(crate) fn candle_sum_keepdim(t: &Tensor, dim: usize) -> (r: Result<Tensor, Error>)
    requires
        tensor_is_float(*t),
        reducible(tensor_dims(*t), dim as int),
        is_settled(*t),
    ensures
        r matches Ok(u) ==> {
            &&& dim < tensor_dims(*t).len()
            &&& tensor_dims(u) == tensor_dims(*t).update(dim as int, 1)
            &&& consistent(view_of(u))
            &&& forall|o: int|
                0 <= o < tensor_words(u).len() ==> kept_total_of(
                    line_along(tensor_dims(*t), tensor_words(*t), dim as int, o),
                    #[trigger] tensor_words(u)[o],
                )
        },
        plain(*t) ==> {
            &&& r is Ok <==> dim < tensor_dims(*t).len()
            &&& r matches Ok(u) ==> plain(u)
        },
{
    t.sum_keepdim(dim)
}

/// `Tensor::mean_keepdim` along one dimension, of which one index is left: the mean.
#[verifier::external_body]
pub(crate) fn candle_mean_keepdim(t: &Tensor, dim: usize) -> (r: Result<Tensor, Error>)
    requires
        tensor_is_float(*t),
        reducible(tensor_dims(*t), dim as int),
        is_settled(*t),
    ensures
        r matches Ok(u) ==> {
            &&& dim < tensor_dims(*t).len()
            &&& tensor_dims(u) == tensor_dims(*t).update(dim as int, 1)
            &&& consistent(view_of(u))
            &&& forall|o: int|
                0 <= o < tensor_words(u).len() ==> kept_mean_of(
                    line_along(tensor_dims(*t), tensor_words(*t), dim as int, o),
                    #[trigger] tensor_words(u)[o],
                )
        },
        plain(*t) ==> {
            &&& r is Ok <==> dim < tensor_dims(*t).len()
            &&& r matches Ok(u) ==> plain(u)
        },
{
    t.mean_keepdim(dim)
}

/// `Tensor::broadcast_maximum`: elementwise maximum of two
/// tensors whose shapes stretch to one.
#[verifier::external_body]
pub(crate) fn candle_broadcast_maximum(a: &Tensor, b: &Tensor) -> (r: Result<Tensor, Error>)
    requires
        fits(tensor_dims(*a)),
        fits(tensor_dims(*b)),
        stretched(tensor_dims(*a), tensor_dims(*b)) matches Some(d) ==> fits(d),
    ensures
        r matches Ok(u) ==> {
            &&& stretched(tensor_dims(*a), tensor_dims(*b)) == Some(tensor_dims(u))
            &&& consistent(view_of(u))
            &&& forall|i: int|
                0 <= i < tensor_words(u).len() ==> maximum_of(
                    tensor_words(*a)[stretched_index(tensor_dims(*a), tensor_dims(u), i)],
                    tensor_words(*b)[stretched_index(tensor_dims(*b), tensor_dims(u), i)],
                    #[trigger] tensor_words(u)[i],
                )
        },
        plain(*a) && plain(*b) ==> {
            &&& r is Ok <==> stretched(tensor_dims(*a), tensor_dims(*b)) is Some
            &&& r matches Ok(u) ==> plain(u)
        },
{
    a.broadcast_maximum(b)
}

/// `Tensor::broadcast_div`: elementwise quotient of two tensors
/// whose shapes stretch to one.
#[verifier::external_body]
pub(crate) fn candle_broadcast_div(a: &Tensor, b: &Tensor) -> (r: Result<Tensor, Error>)
    requires
        tensor_is_float(*a),
        tensor_is_float(*b),
        fits(tensor_dims(*a)),
        fits(tensor_dims(*b)),
        stretched(tensor_dims(*a), tensor_dims(*b)) matches Some(d) ==> fits(d),
    ensures
        r matches Ok(u) ==> {
            &&& stretched(tensor_dims(*a), tensor_dims(*b)) == Some(tensor_dims(u))
            &&& consistent(view_of(u))
            &&& forall|i: int|
                0 <= i < tensor_words(u).len() ==> quotient_of(
                    tensor_words(*a)[stretched_index(tensor_dims(*a), tensor_dims(u), i)],
                    tensor_words(*b)[stretched_index(tensor_dims(*b), tensor_dims(u), i)],
                    #[trigger] tensor_words(u)[i],
                )
        },
        plain(*a) && plain(*b) ==> {
            &&& r is Ok <==> stretched(tensor_dims(*a), tensor_dims(*b)) is Some
            &&& r matches Ok(u) ==> plain(u)
        },
{
    a.broadcast_div(b)
}

/// The dimensions of a `QMatMul`: `QTensor::shape` of one that is quantised, `Tensor::dims` of
/// one that is not.
#[verifier::external_body]
pub(crate) fn candle_qmatmul_dims(w: &QMatMul) -> (r: Vec<usize>)
    ensures
        r@ == qmatmul_dims(*w),
{
    match w {
        QMatMul::QTensor(t) => t.shape().dims().to_vec(),
        QMatMul::Tensor(t) => t.dims().to_vec(),
        QMatMul::TensorF16(t) => t.dims().to_vec(),
    }
}

/// The device that holds a `QMatMul`: `QTensor::device` of one that is quantised,
/// `Tensor::device` of one that is not.
#[verifier::external_body]
pub(crate) fn candle_qmatmul_device(w: &QMatMul) -> (r: Device)
    ensures
        device_place(r) == qmatmul_place(*w),
        qmatmul_on_cpu(*w) ==> device_is_cpu(r),
{
    match w {
        QMatMul::QTensor(t) => t.device(),
        QMatMul::Tensor(t) => t.device().clone(),
        QMatMul::TensorF16(t) => t.device().clone(),
    }
}

/// `GgmlDType::block_size` of the type of a quantised `QMatMul`.
#[verifier::external_body]
pub(crate) fn candle_block_len(w: &QMatMul) -> (r: Option<usize>)
    ensures
        r == qmatmul_block_len(*w),
{
    match w {
        QMatMul::QTensor(t) => Some(t.dtype().block_size()),
        QMatMul::Tensor(_) => None,
        QMatMul::TensorF16(_) => None,
    }
}

/// `GgmlDType::type_size` of the type of a quantised `QMatMul`.
#[verifier::external_body]
pub(crate) fn candle_block_bytes(w: &QMatMul) -> (r: Option<usize>)
    ensures
        r == qmatmul_block_bytes(*w),
{
    match w {
        QMatMul::QTensor(t) => Some(t.dtype().type_size()),
        QMatMul::Tensor(_) => None,
        QMatMul::TensorF16(_) => None,
    }
}

/// `QTensor::storage_size_in_bytes` of a quantised `QMatMul`. Of one that is wholly in main memory,
/// these are the bytes of its blocks.
#[verifier::external_body]
pub(crate) fn candle_qmatmul_bytes(w: &QMatMul) -> (r: Option<usize>)
    ensures
        r == qmatmul_bytes(*w),
        qmatmul_on_cpu(*w) ==> holds_blocks(
            qmatmul_dims(*w),
            r,
            qmatmul_block_len(*w),
            qmatmul_block_bytes(*w),
        ),
{
    match w {
        QMatMul::QTensor(t) => Some(t.storage_size_in_bytes()),
        QMatMul::Tensor(_) => None,
        QMatMul::TensorF16(_) => None,
    }
}

/// `Device::is_cuda` of the device that holds a quantised `QMatMul`. It is not so of main memory.
#[verifier::external_body]
pub(crate) fn candle_qmatmul_is_cuda(w: &QMatMul) -> (r: bool)
    ensures
        r == qmatmul_on_cuda(*w),
        r ==> !qmatmul_on_cpu(*w),
{
    match w {
        QMatMul::QTensor(t) => t.device().is_cuda(),
        QMatMul::Tensor(_) => false,
        QMatMul::TensorF16(_) => false,
    }
}

/// `QMatMul::forward`: the product of the tensor with the transposed weight matrix, one vector
/// along the last dimension after the other. The last dimension becomes the number of outputs. In
/// main memory, a matrix whose elements stand next to one another is refused only where it has
/// another width. On which other tensors it is refused is left unsaid: that depends on how their
/// elements lie in memory, and on the device.
#[verifier::external_body]
pub(crate) fn candle_qmatmul(w: &QMatMul, x: &Tensor) -> (r: Result<Tensor, Error>)
    requires
        qmatmul_dims(*w).len() == 2,
        qmatmul_dims(*w)[0] > 0,
        qmatmul_dims(*w)[1] > 0,
        same_kind(tensor_place(*x), qmatmul_place(*w)),
        qmatmul_place(*w) is Cpu ==> is_whole(*w),
        is_settled(*x),
        fits(tensor_dims(*x)),
        tensor_dims(*x).len() > 0 ==> fits(
            tensor_dims(*x).update(tensor_dims(*x).len() - 1, qmatmul_dims(*w)[0]),
        ),
    ensures
        r matches Ok(u) ==> {
            &&& tensor_dims(*x).len() > 0
            &&& tensor_dims(*x).last() == qmatmul_dims(*w)[1]
            &&& tensor_dims(u) == tensor_dims(*x).update(
                tensor_dims(*x).len() - 1,
                qmatmul_dims(*w)[0],
            )
            &&& consistent(view_of(u))
            &&& forall|i: int|
                0 <= i < count(tensor_dims(*x).drop_last()) ==> qmatmul_of(
                    qmatmul_dims(*w),
                    qmatmul_words(*w),
                    row(tensor_words(*x), i, tensor_dims(*x).last() as int),
                    #[trigger] row(tensor_words(u), i, qmatmul_dims(*w)[0] as int),
                )
        },
        qmatmul_on_cpu(*w) && plain(*x) && tensor_is_dense(*x) && tensor_dims(*x).len() == 2 ==> {
            &&& r is Ok <==> tensor_dims(*x)[1] == qmatmul_dims(*w)[1]
            &&& r matches Ok(u) ==> plain(u)
        },
{
    w.forward(x)
}

/// `QMatMul::indexed_moe_forward`: each token times the experts that its indices name, on a CUDA
/// device. On which shapes it is refused is left unsaid: that is decided by a kernel.
#[verifier::external_body]
pub(crate) fn candle_indexed_moe(w: &QMatMul, x: &Tensor, ids: &Tensor) -> (r: Result<
    Tensor,
    Error,
>)
    requires
        qmatmul_on_cuda(*w),
        tensor_on_cuda(*x),
        tensor_on_cuda(*ids),
        tensor_dims(*x).len() >= 2,
        tensor_dims(*ids).len() >= 2,
        tensor_dims(*x)[0] == tensor_dims(*ids)[0],
    ensures
        r matches Ok(u) ==> experts_outcome(
            qmatmul_dims(*w),
            qmatmul_words(*w),
            tensor_dims(*x),
            tensor_words(*x),
            tensor_dims(*ids),
            tensor_words(*ids),
            tensor_dims(u),
            tensor_words(u),
        ),
{
    w.indexed_moe_forward(x, ids)
}

/// `Tensor::dtype`: the type of the elements.
#[verifier::external_body]
pub(crate) fn candle_dtype(t: &Tensor) -> (r: DType)
    ensures
        r == tensor_dtype(*t),
{
    t.dtype()
}

/// `DType::is_float`. It is so of 32-bit floats.
#[verifier::external_body]
pub(crate) fn candle_is_float(d: DType) -> (r: bool)
    ensures
        r == dtype_is_float(d),
        dtype_is_f32(d) ==> r,
{
    d.is_float()
}

/// Whether the type is `DType::F64`, which is not that of 32-bit floats.
#[verifier::external_body]
pub(crate) fn candle_is_double(d: DType) -> (r: bool)
    ensures
        r == dtype_is_double(d),
        r ==> !dtype_is_f32(d),
{
    matches!(d, DType::F64)
}

/// `DType::F32`.
#[verifier::external_body]
pub(crate) fn candle_f32() -> (r: DType)
    ensures
        dtype_is_f32(r),
        dtype_is_number(r),
{
    DType::F32
}

/// `Tensor::to_dtype`. In 32-bit floats the elements are what they are seen as. A tensor that has
/// the type already is handed back as it is.
#[verifier::external_body]
pub(crate) fn candle_to_dtype(t: &Tensor, dtype: DType) -> (r: Result<Tensor, Error>)
    requires
        fits(tensor_dims(*t)),
        is_settled(*t),
    ensures
        r matches Ok(u) ==> {
            &&& tensor_dims(u) == tensor_dims(*t)
            &&& consistent(view_of(u))
            &&& forall|i: int|
                0 <= i < tensor_words(u).len() ==> cast_of(
                    tensor_words(*t)[i],
                    dtype,
                    #[trigger] tensor_words(u)[i],
                )
            &&& dtype_is_f32(dtype) ==> view_of(u) == view_of(*t)
            &&& tensor_dtype(u) == dtype
            &&& tensor_place(u) == tensor_place(*t)
            &&& tensor_is_dense(*t) ==> tensor_is_dense(u)
            &&& is_settled(u)
        },
        writable(*t) && dtype_is_f32(dtype) ==> r is Ok,
{
    t.to_dtype(dtype)
}

/// `Tensor::to_device`: the same tensor in the memory of `device`.
#[verifier::external_body]
pub(crate) fn candle_to_device(t: &Tensor, device: &Device) -> (r: Result<Tensor, Error>)
    ensures
        r matches Ok(u) ==> {
            &&& view_of(u) == view_of(*t)
            &&& tensor_dtype(u) == tensor_dtype(*t)
            &&& tensor_place(u) == device_place(*device)
        },
        tensor_on_cpu(*t) && device_is_cpu(*device) ==> r is Ok,
{
    t.to_device(device)
}

/// `Tensor::device`: where the elements are.
#[verifier::external_body]
pub(crate) fn candle_device(t: &Tensor) -> (r: &Device)
    ensures
        device_place(*r) == tensor_place(*t),
{
    t.device()
}

/// `Device::location` of a device.
#[verifier::external_body]
pub(crate) fn candle_place(device: &Device) -> (r: Location)
    ensures
        r == device_place(*device),
{
    match device.location() {
        DeviceLocation::Cpu => Location::Cpu,
        DeviceLocation::Cuda { gpu_id } => Location::Cuda { gpu_id },
        DeviceLocation::Metal { gpu_id } => Location::Metal { gpu_id },
    }
}

/// `Device::Cpu`.
#[verifier::external_body]
pub(crate) fn candle_cpu() -> (r: Device)
    ensures
        device_is_cpu(r),
{
    Device::Cpu
}

/// `Tensor::contiguous`: the same tensor, with its elements next to one another in memory.
#[verifier::external_body]
pub(crate) fn candle_contiguous(t: &Tensor) -> (r: Result<Tensor, Error>)
    requires
        fits(tensor_dims(*t)),
        is_settled(*t),
    ensures
        r matches Ok(u) ==> {
            &&& view_of(u) == view_of(*t)
            &&& stored_alike(u, *t)
            &&& tensor_is_dense(u)
        },
        plain(*t) ==> r is Ok,
{
    t.contiguous()
}

/// `Embedding::new` and then `Embedding::forward`: the row of the table for each of the ids. In
/// main memory, with ids of 32 bits and a table whose elements stand next to one another, it is
/// refused only where an id is not known or a row has another size than is asked for. Of ids in
/// other element types or elsewhere it is left unsaid which rows they name and where they are
/// refused.
#[verifier::external_body]
pub(crate) fn candle_embed(table: &Tensor, hidden_size: usize, ids: &Tensor) -> (r: Result<
    Tensor,
    Error,
>)
    requires
        is_settled(*ids),
        is_settled(*table),
        fits(tensor_dims(*ids)),
        fits(tensor_dims(*ids).push(hidden_size)),
        fits(tensor_dims(*table)),
        tensor_dims(*table).len() > 0 ==> fits(
            tensor_dims(*table).update(0, count(tensor_dims(*ids)) as usize),
        ),
    ensures
        r matches Ok(u) ==> {
            &&& tensor_dims(u) == tensor_dims(*ids).push(hidden_size)
            &&& consistent(view_of(u))
            &&& embedding_outcome(
                tensor_dims(*table),
                tensor_words(*table),
                tensor_words(*ids),
                tensor_words(u),
            )
        },
        tensor_ids(*ids) matches Some(named) ==> {
            &&& r matches Ok(u) ==> {
                &&& tensor_dims(*table).len() > 0
                &&& ids_known(named, tensor_dims(*table)[0])
                &&& tensor_words(u) == looked_up(
                    tensor_words(*table),
                    count(tensor_dims(*table).skip(1)),
                    named,
                )
                &&& plain(*table) ==> plain(u)
            }
            &&& plain(*table) && tensor_is_dense(*table) ==> (r is Ok <==> {
                &&& tensor_dims(*table).len() > 0
                &&& ids_known(named, tensor_dims(*table)[0])
                &&& count(
                    tensor_dims(*table).update(0, count(tensor_dims(*ids)) as usize),
                ) == count(tensor_dims(*ids).push(hidden_size))
            })
        },
{
    candle_nn::Embedding::new(table.clone(), hidden_size).forward(ids)
}

/// `Tensor::write_bytes` of 32-bit floats: four bytes for each element, least significant
/// first, in row-major order.
#[verifier::external_body]
pub(crate) fn candle_write_bytes(t: &Tensor) -> (r: Result<Vec<u8>, Error>)
    requires
        tensor_is_f32(*t),
        fits(tensor_dims(*t)),
        is_settled(*t),
    ensures
        r matches Ok(b) ==> b@ == words_bytes(tensor_words(*t)),
        plain(*t) ==> r is Ok,
{
    let mut buf: Vec<u8> = Vec::new();
    t.write_bytes(&mut buf)?;
    Ok(buf)
}

/// An element is seen as `r` where it is the 64-bit float with the bit pattern `bits`.
pub uninterp spec fn double_seen(bits: u64, r: u32) -> bool;

/// `Tensor::from_raw_buffer` of a single 64-bit float, from its bytes. They are read in the
/// machine's own order, which is least significant first on the machines that the library is for.
#[verifier::external_body]
pub(crate) fn candle_double(bits: u64, device: &Device) -> (r: Result<Tensor, Error>)
    ensures
        r matches Ok(u) ==> {
            &&& tensor_dims(u) == Seq::<usize>::empty()
            &&& consistent(view_of(u))
            &&& double_seen(bits, tensor_words(u)[0])
            &&& dtype_is_double(tensor_dtype(u))
        },
{
    Tensor::from_raw_buffer(&bits.to_le_bytes(), DType::F64, &[], device)
}

/// `Tensor::from_raw_buffer` of 32-bit floats: a tensor of the given dimensions from the bytes
/// of its elements, if they are as many. The bytes are read in the machine's own order, which
/// is least significant first on the machines that the library is for.
#[verifier::external_body]
pub(crate) fn candle_from_bytes(data: &[u8], dims: &[usize], device: &Device) -> (r: Result<
    Tensor,
    Error,
>)
    requires
        data@.len() % 4 == 0,
        fits(dims@),
    ensures
        r matches Ok(u) ==> {
            &&& data@.len() == 4 * count(dims@)
            &&& tensor_dims(u) == dims@
            &&& tensor_words(u).len() == count(dims@)
            &&& words_bytes(tensor_words(u)) == data@
            &&& tensor_is_f32(u)
            &&& tensor_place(u) == device_place(*device)
            &&& tensor_starts_within(u)
        },
        device_is_cpu(*device) ==> (r is Ok <==> data@.len() == 4 * count(dims@)),
{
    Tensor::from_raw_buffer(data, DType::F32, dims, device)
}

} // verus!
