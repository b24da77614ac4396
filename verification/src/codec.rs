//! Tensors as bytes.
//!
//! A tensor is written as its number of elements and its number of dimensions, each in eight
//! bytes, then each dimension in eight bytes, then each element as a 32-bit float, all least
//! significant byte first.
use candle_core::{Device, Tensor};
use vstd::prelude::*;

use crate::le::{
    byte_range_values, le_bytes, le_bytes_len, le_value, le_value_of_bytes, push_le, read_le,
};
use crate::ops::{lift, shape, to_dtype, TensorError};
use crate::shape::{consistent, dims_fit, fits, TensorView};
use crate::tensor::{
    candle_cpu, candle_f32, candle_from_bytes, candle_to_device, candle_write_bytes, device_is_cpu,
    device_place, tensor_dims, tensor_is_f32, tensor_place, tensor_words, view_of, words_bytes,
    words_bytes_len, writable,
};

verus! {

/// Dimensions in eight bytes each.
pub open spec fn dims_bytes(dims: Seq<usize>) -> Seq<u8>
    decreases dims.len(),
{
    if dims.len() == 0 {
        Seq::empty()
    } else {
        dims_bytes(dims.drop_last()) + le_bytes(dims.last() as nat, 8)
    }
}

/// A tensor as bytes.
pub open spec fn tensor_bytes(v: TensorView) -> Seq<u8> {
    le_bytes(v.words.len(), 8) + le_bytes(v.dims.len(), 8) + dims_bytes(v.dims) + words_bytes(
        v.words,
    )
}

/// The number that eight bytes from `at` on write.
pub open spec fn number_at(data: Seq<u8>, at: int) -> nat {
    le_value(data.subrange(at, at + 8))
}

/// Where the elements begin.
pub open spec fn words_start(data: Seq<u8>) -> int {
    16 + 8 * number_at(data, 8) as int
}

/// Where the elements end.
pub open spec fn words_end(data: Seq<u8>) -> int {
    words_start(data) + 4 * number_at(data, 0) as int
}

/// The bytes hold all the dimensions that they announce, and the elements that they announce
/// can be counted in bytes.
pub open spec fn readable(data: Seq<u8>) -> bool {
    &&& data.len() >= 16
    &&& words_start(data) <= data.len()
    &&& words_end(data) <= usize::MAX
}

/// The dimensions that the bytes write.
pub open spec fn read_dims(data: Seq<u8>) -> Seq<usize> {
    Seq::new(number_at(data, 8), |i: int| number_at(data, 16 + 8 * i) as u64 as usize)
}

/// The elements that the bytes write.
pub open spec fn read_words(data: Seq<u8>) -> Seq<u32> {
    Seq::new(
        number_at(data, 0),
        |i: int|
            {
                let at = words_start(data) + 4 * i;
                le_value(data.subrange(at, at + 4)) as u32
            },
    )
}

/// The tensor that the bytes write.
pub open spec fn read_tensor(data: Seq<u8>) -> TensorView {
    TensorView { dims: read_dims(data), words: read_words(data) }
}

/// Dimensions take eight bytes each.
pub proof fn dims_bytes_len(dims: Seq<usize>)
    ensures
        dims_bytes(dims).len() == 8 * dims.len(),
    decreases dims.len(),
{
    if dims.len() > 0 {
        dims_bytes_len(dims.drop_last());
        le_bytes_len(dims.last() as nat, 8);
    }
}

/// Where a dimension stands among the bytes of all.
proof fn dims_bytes_at(dims: Seq<usize>, i: int)
    requires
        0 <= i < dims.len(),
    ensures
        dims_bytes(dims).len() == 8 * dims.len(),
        dims_bytes(dims).subrange(8 * i, 8 * i + 8) == le_bytes(dims[i] as nat, 8),
    decreases dims.len(),
{
    dims_bytes_len(dims);
    dims_bytes_len(dims.drop_last());
    le_bytes_len(dims.last() as nat, 8);
    if i < dims.len() - 1 {
        dims_bytes_at(dims.drop_last(), i);
        assert(dims_bytes(dims).subrange(8 * i, 8 * i + 8) =~= dims_bytes(
            dims.drop_last(),
        ).subrange(8 * i, 8 * i + 8));
    } else {
        assert(dims_bytes(dims).subrange(8 * i, 8 * i + 8) =~= le_bytes(dims.last() as nat, 8));
    }
}

/// Where an element stands among the bytes of all.
proof fn words_bytes_at(words: Seq<u32>, i: int)
    requires
        0 <= i < words.len(),
    ensures
        words_bytes(words).len() == 4 * words.len(),
        words_bytes(words).subrange(4 * i, 4 * i + 4) == le_bytes(words[i] as nat, 4),
    decreases words.len(),
{
    words_bytes_len(words);
    words_bytes_len(words.drop_last());
    le_bytes_len(words.last() as nat, 4);
    if i < words.len() - 1 {
        words_bytes_at(words.drop_last(), i);
        assert(words_bytes(words).subrange(4 * i, 4 * i + 4) =~= words_bytes(
            words.drop_last(),
        ).subrange(4 * i, 4 * i + 4));
    } else {
        assert(words_bytes(words).subrange(4 * i, 4 * i + 4) =~= le_bytes(words.last() as nat, 4));
    }
}

/// Writes a tensor as bytes.
pub fn serialize_tensor(t: &Tensor) -> (r: Result<Vec<u8>, TensorError>)
    ensures
        r matches Ok(b) ==> fits(tensor_dims(*t)) && b@ == tensor_bytes(view_of(*t)),
        writable(*t) ==> (r is Ok <==> fits(tensor_dims(*t))),
{
    let cpu = candle_cpu();
    let near = lift(candle_to_device(t, &cpu))?;
    let floats = to_dtype(&near, candle_f32())?;
    let dims = shape(&floats)?;
    let body = match candle_write_bytes(&floats) {
        Ok(b) => b,
        Err(e) => {
            return Err(TensorError::Candle(e));
        },
    };
    let n: usize = body.len() / 4;
    let mut buf: Vec<u8> = Vec::new();
    proof {
        words_bytes_len(tensor_words(floats));
        assert(n == tensor_words(floats).len());
    }
    push_le(&mut buf, n as u64, 8);
    push_le(&mut buf, dims.len() as u64, 8);
    let ghost head = buf@;
    let mut i: usize = 0;
    assert(dims@.take(0) =~= Seq::empty());
    while i < dims.len()
        invariant
            i <= dims@.len(),
            buf@ == head + dims_bytes(dims@.take(i as int)),
        decreases dims@.len() - i,
    {
        push_le(&mut buf, dims[i] as u64, 8);
        proof {
            let next = dims@.take(i + 1);
            assert(next.drop_last() =~= dims@.take(i as int));
        }
        i += 1;
    }
    assert(dims@.take(i as int) =~= dims@);
    let mut rest = body;
    buf.append(&mut rest);
    assert(buf@ =~= tensor_bytes(view_of(*t)));
    Ok(buf)
}

/// Whether bytes hold all the dimensions that they announce, and announce no more elements than
/// can be counted in bytes.
pub fn is_readable(data: &[u8]) -> (r: bool)
    ensures
        r == readable(data@),
{
    let len: usize = data.len();
    if len < 16 {
        return false;
    }
    let n_elements: u64 = read_le(data, 0, 8);
    let n_dims: u64 = read_le(data, 8, 8);
    if n_dims > ((len - 16) / 8) as u64 {
        return false;
    }
    let start: usize = 16 + n_dims as usize * 8;
    if n_elements > ((usize::MAX - start) / 4) as u64 {
        return false;
    }
    true
}

/// Reads a tensor from bytes, into the memory of `device`. Bytes beyond its end are left alone.
pub fn deserialize_tensor(data: &[u8], device: &Device) -> (r: Result<Tensor, TensorError>)
    requires
        readable(data@),
    ensures
        data@.len() < words_end(data@) ==> r == Err::<Tensor, TensorError>(
            TensorError::ShortBuffer {
                expected: words_end(data@) as usize,
                got: data@.len() as usize,
            },
        ),
        data@.len() >= words_end(data@) && !fits(read_dims(data@)) ==> r == Err::<
            Tensor,
            TensorError,
        >(TensorError::TooLarge),
        r matches Ok(t) ==> {
            &&& data@.len() >= words_end(data@)
            &&& fits(read_dims(data@))
            &&& consistent(read_tensor(data@))
            &&& view_of(t) == read_tensor(data@)
            &&& tensor_is_f32(t)
            &&& tensor_place(t) == device_place(*device)
        },
        device_is_cpu(*device) ==> (r is Ok <==> {
            &&& data@.len() >= words_end(data@)
            &&& fits(read_dims(data@))
            &&& consistent(read_tensor(data@))
        }),
{
    let len: usize = data.len();
    let n_elements: usize = read_le(data, 0, 8) as usize;
    let n_dims: usize = read_le(data, 8, 8) as usize;
    proof {
        assert(n_elements == number_at(data@, 0));
        assert(n_dims == number_at(data@, 8));
    }
    let mut dims: Vec<usize> = Vec::new();
    let mut i: usize = 0;
    while i < n_dims
        invariant
            i <= n_dims,
            n_dims == number_at(data@, 8),
            16 + 8 * n_dims <= data@.len() == len,
            dims@ == read_dims(data@).take(i as int),
        decreases n_dims - i,
    {
        let d: usize = read_le(data, 16 + i * 8, 8) as usize;
        proof {
            let at = 16 + 8 * i;
            assert(data@.subrange(at, at + 8) =~= data@.subrange(16 + i * 8, 16 + i * 8 + 8));
            assert(read_dims(data@)[i as int] == d);
            assert(read_dims(data@).take(i + 1) =~= read_dims(data@).take(i as int).push(d));
        }
        dims.push(d);
        i += 1;
    }
    assert(read_dims(data@).take(i as int) =~= read_dims(data@));
    let start: usize = 16 + n_dims * 8;
    let expected: usize = start + n_elements * 4;
    if len < expected {
        return Err(TensorError::ShortBuffer { expected, got: len });
    }
    if !dims_fit(dims.as_slice()) {
        return Err(TensorError::TooLarge);
    }
    let body = vstd::slice::slice_subrange(data, start, expected);
    let t = lift(candle_from_bytes(body, dims.as_slice(), device))?;
    proof {
        let words = tensor_words(t);
        assert(words.len() == n_elements);
        assert forall|k: int| 0 <= k < n_elements implies words[k] == read_words(data@)[k] by {
            words_bytes_at(words, k);
            assert(body@.subrange(4 * k, 4 * k + 4) =~= data@.subrange(
                start + 4 * k,
                start + 4 * k + 4,
            ));
            byte_range_values();
            le_value_of_bytes(words[k] as nat, 4);
        }
        assert(words =~= read_words(data@));
        assert(view_of(t) =~= read_tensor(data@));
    }
    Ok(t)
}

/// What was written is read back, whatever follows it.
pub proof fn written_tensor_is_read(v: TensorView, rest: Seq<u8>)
    requires
        consistent(v),
        fits(v.dims),
        v.dims.len() <= usize::MAX,
        16 + 8 * v.dims.len() + 4 * v.words.len() <= usize::MAX,
    ensures
        readable(tensor_bytes(v) + rest),
        words_end(tensor_bytes(v) + rest) == tensor_bytes(v).len(),
        read_tensor(tensor_bytes(v) + rest) == v,
{
    let data = tensor_bytes(v) + rest;
    let n = v.words.len();
    let m = v.dims.len();
    le_bytes_len(n, 8);
    le_bytes_len(m, 8);
    dims_bytes_len(v.dims);
    words_bytes_len(v.words);
    byte_range_values();
    assert(data.subrange(0, 8) =~= le_bytes(n, 8));
    assert(data.subrange(8, 16) =~= le_bytes(m, 8));
    le_value_of_bytes(n, 8);
    le_value_of_bytes(m, 8);
    assert(number_at(data, 0) == n);
    assert(number_at(data, 8) == m);
    assert forall|i: int| 0 <= i < m implies read_dims(data)[i] == v.dims[i] by {
        dims_bytes_at(v.dims, i);
        let at = 16 + 8 * i;
        assert(data.subrange(at, at + 8) =~= dims_bytes(v.dims).subrange(8 * i, 8 * i + 8));
        le_value_of_bytes(v.dims[i] as nat, 8);
    }
    assert(read_dims(data) =~= v.dims);
    assert forall|i: int| 0 <= i < n implies read_words(data)[i] == v.words[i] by {
        words_bytes_at(v.words, i);
        let at = words_start(data) + 4 * i;
        assert(data.subrange(at, at + 4) =~= words_bytes(v.words).subrange(4 * i, 4 * i + 4));
        le_value_of_bytes(v.words[i] as nat, 4);
    }
    assert(read_words(data) =~= v.words);
    assert(read_tensor(data) =~= v);
}

} // verus!
