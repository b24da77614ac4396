//! Attention layers.
use candle_core::{DType, Tensor};
use vstd::prelude::*;

use crate::backend::{
    answers, appends, attends, attention_obliges, masks, pages, places, projects, turns,
    weight_obliges, AttentionKernels, QuantMethod,
};
use crate::ops::{dims3, lift, reshape, shape, swap_dims, to_dtype, to_dtype_of, TensorError};
use crate::rows::{swap_one, swap_twice};
use crate::shape::{
    consistent, count, count_small, elements, factor, fits, reshaped, span_front, span_small,
    swapped, TensorView,
};
use crate::tensor::{
    cast_outcome, dtype_is_f32, plain, tensor_dims, tensor_dtype, tensor_is_f32, tensor_words,
    view_of,
};

verus! {

/// `x`, of `len` positions, cut into vectors for `heads` heads: `[batch, heads, positions, size]`.
pub open spec fn head_view(x: TensorView, dims: Seq<usize>) -> TensorView {
    swapped(reshaped(x, dims), 1)
}

/// Cuts each position into one vector per head, and puts heads before positions.
pub fn split_heads(x: &Tensor, batch: usize, len: usize, heads: usize, size: usize) -> (r: Result<
    Tensor,
    TensorError,
>)
    ensures
        r matches Ok(u) ==> {
            &&& count(tensor_dims(*x)) == count(seq![batch, len, heads, size])
            &&& view_of(u) == head_view(view_of(*x), seq![batch, len, heads, size])
            &&& tensor_dims(u) == seq![batch, heads, len, size]
            &&& plain(u) == plain(*x)
        },
        plain(*x) ==> (r is Ok <==> {
            &&& fits(tensor_dims(*x))
            &&& fits(
                if len == 1 {
                    seq![batch, heads, len, size]
                } else {
                    seq![batch, len, heads, size]
                },
            )
            &&& count(tensor_dims(*x)) == count(seq![batch, len, heads, size])
        }),
{
    let rows: [usize; 4] = [batch, len, heads, size];
    let turned: [usize; 4] = [batch, heads, len, size];
    assert(rows@ =~= seq![batch, len, heads, size]);
    assert(turned@ =~= seq![batch, heads, len, size]);
    proof {
        count_small(batch, len, heads, size, 0);
        count_small(batch, heads, len, size, 0);
        assert(batch * len * heads * size == batch * heads * len * size) by (nonlinear_arith);
    }
    if len != 1 {
        let cut = reshape(x, rows.as_slice())?;
        let u = swap_dims(&cut, 1)?;
        assert(tensor_dims(u) =~= turned@);
        Ok(u)
    } else {
        let u = reshape(x, turned.as_slice())?;
        proof {
            let v = reshaped(view_of(*x), rows@);
            swap_one(v, 1);
            assert(swapped(v, 1).dims =~= turned@);
            assert(view_of(u) =~= swapped(v, 1));
        }
        Ok(u)
    }
}

/// `y` with positions before heads, if they are not so yet.
pub open spec fn unturned(y: TensorView, custom: bool) -> TensorView {
    if custom {
        swapped(y, 1)
    } else {
        y
    }
}

/// Puts the vectors of all heads of a position side by side.
pub fn merge_heads(y: &Tensor, batch: usize, len: usize, custom: bool) -> (r: Result<
    Tensor,
    TensorError,
>)
    requires
        batch * len <= usize::MAX,
    ensures
        r matches Ok(u) ==> {
            let width = count(tensor_dims(*y)) / ((batch * len) as nat);
            &&& batch * len > 0
            &&& fits(tensor_dims(*y))
            &&& width * (batch * len) == count(tensor_dims(*y))
            &&& custom ==> tensor_dims(*y).len() >= 3
            &&& view_of(u) == reshaped(
                unturned(view_of(*y), custom),
                seq![batch, len, width as usize],
            )
            &&& plain(u) == plain(*y)
        },
        plain(*y) ==> (r is Ok <==> {
            let width = count(tensor_dims(*y)) / ((batch * len) as nat);
            &&& batch * len > 0
            &&& fits(tensor_dims(*y))
            &&& custom ==> tensor_dims(*y).len() >= 3 && fits(swapped(view_of(*y), 1).dims)
            &&& width * (batch * len) == count(tensor_dims(*y))
            &&& fits(seq![batch, len, width as usize])
        }),
{
    let d = shape(y)?;
    let parts: usize = batch * len;
    if parts == 0 {
        return Err(TensorError::UnknownSize);
    }
    let total = elements(d.as_slice());
    if total % parts != 0 {
        proof {
            let w = count(tensor_dims(*y)) / (parts as nat);
            assert(w * parts != total) by (nonlinear_arith)
                requires
                    total as nat % parts as nat != 0,
                    parts > 0,
                    w >= 0,
            ;
        }
        return Err(TensorError::UnknownSize);
    }
    let width: usize = total / parts;
    let dims: [usize; 3] = [batch, len, width];
    proof {
        assert(dims@ =~= seq![batch, len, width]);
        count_small(batch, len, width, 0, 0);
        assert(width * parts == total) by (nonlinear_arith)
            requires
                width == total / parts,
                total % parts == 0,
                parts > 0,
        ;
        assert(batch * len * width == width * parts) by (nonlinear_arith)
            requires
                parts == batch * len,
        ;
    }
    if custom {
        let back = swap_dims(y, 1)?;
        proof {
            swap_twice(view_of(*y), 1);
        }
        reshape(&back, dims.as_slice())
    } else {
        reshape(y, dims.as_slice())
    }
}

/// Merging what was split gives it back: heads that were put before positions are put behind
/// them again.
pub proof fn heads_come_back(x: TensorView, batch: usize, len: usize, heads: usize, size: usize)
    requires
        consistent(x),
        count(x.dims) == count(seq![batch, len, heads, size]),
    ensures
        unturned(head_view(x, seq![batch, len, heads, size]), true) == reshaped(
            x,
            seq![batch, len, heads, size],
        ),
{
    swap_twice(reshaped(x, seq![batch, len, heads, size]), 1);
}

/// Weights of an attention layer.
pub struct AttentionWeights<Q> {
    pub attention_wq: Q,
    pub attention_wk: Q,
    pub attention_wv: Q,
    pub attention_wo: Q,
    pub n_head: usize,
    pub n_kv_head: usize,
    pub head_dim: usize,
    /// Whether attention goes over pages.
    pub paged: bool,
    pub dtype: DType,
}

/// `u` is `t` in the element type `dtype`.
pub open spec fn is_cast(t: TensorView, dtype: DType, u: TensorView) -> bool {
    &&& u.dims == t.dims
    &&& consistent(u)
    &&& cast_outcome(t.words, dtype, u.words)
    &&& dtype_is_f32(dtype) ==> u == t
}

impl<Q: QuantMethod> AttentionWeights<Q> {
    /// `y` is what a projection of `x` gives, cut into `heads` heads.
    pub open spec fn is_headed(&self, w: Q, x: Tensor, heads: usize, y: Tensor) -> bool {
        let dims = seq![tensor_dims(x)[0], tensor_dims(x)[1], heads, self.head_dim];
        exists|p: Tensor| #[trigger] projects(w, x, p) && view_of(y) == head_view(view_of(p), dims)
    }

    /// `q`, `k` and `v` go into attention where the input is `x` and the positions follow on
    /// `start_offsets`.
    pub open spec fn is_turned<K: AttentionKernels>(
        &self,
        kernels: K,
        x: Tensor,
        start_offsets: &[usize],
        q: Tensor,
        k: Tensor,
        v: Tensor,
    ) -> bool {
        exists|q0: Tensor, k0: Tensor, v0: Tensor, at: Tensor, q1: Tensor, k1: Tensor|
            {
                &&& #[trigger] self.is_headed(self.attention_wq, x, self.n_head, q0)
                &&& #[trigger] self.is_headed(self.attention_wk, x, self.n_kv_head, k0)
                &&& #[trigger] self.is_headed(self.attention_wv, x, self.n_kv_head, v0)
                &&& places(kernels, start_offsets, tensor_dims(x)[1], q0, at)
                &&& #[trigger] turns(kernels, q0, k0, at, q1, k1)
                &&& is_cast(view_of(q1), self.dtype, view_of(q))
                &&& is_cast(view_of(k1), self.dtype, view_of(k))
                &&& is_cast(view_of(v0), self.dtype, view_of(v))
            }
    }

    /// `y` comes out of attention under a mask: over pages, or over all keys and values once these
    /// have been taken in. They are taken in once; over pages the cache stays as it is.
    pub open spec fn is_attended<K: AttentionKernels>(
        &self,
        kernels: K,
        paging: Option<&K::Paging>,
        mask: K::Mask,
        cache0: K::Cache,
        cache1: K::Cache,
        q: Tensor,
        k: Tensor,
        v: Tensor,
        y: Tensor,
    ) -> bool {
        if self.paged {
            cache1 == cache0 && pages(kernels, q, k, v, mask, *paging->0, y)
        } else {
            exists|k1: Tensor, v1: Tensor| #[trigger]
                appends(kernels, cache0, k, v, cache1, k1, v1) && attends(
                    kernels,
                    q,
                    k1,
                    v1,
                    mask,
                    y,
                )
        }
    }

    /// `r` is the output for what attention under a mask has given.
    pub open spec fn is_closed<K: AttentionKernels>(
        &self,
        kernels: K,
        mask: K::Mask,
        x: Tensor,
        y: Tensor,
        r: Tensor,
    ) -> bool {
        let batch = tensor_dims(x)[0];
        let len = tensor_dims(x)[1];
        let width = (count(tensor_dims(y)) / ((batch * len) as nat)) as usize;
        exists|custom: bool, z: Tensor|
            {
                &&& #[trigger] masks(kernels, mask, custom)
                &&& tensor_dims(z) == seq![batch, len, width]
                &&& consistent(view_of(z))
                &&& tensor_dtype(z) == tensor_dtype(x)
                &&& cast_outcome(
                    unturned(view_of(y), custom).words,
                    tensor_dtype(x),
                    tensor_words(z),
                )
                &&& tensor_is_f32(x) ==> tensor_words(z) == unturned(view_of(y), custom).words
                &&& #[trigger] projects(self.attention_wo, z, r)
            }
    }

    /// `r` can come out of the layer where `x` goes in, under a mask, while the cache goes from
    /// `cache0` to `cache1`.
    pub open spec fn is_forward<K: AttentionKernels>(
        &self,
        kernels: K,
        x: Tensor,
        start_offsets: &[usize],
        paging: Option<&K::Paging>,
        mask: K::Mask,
        cache0: K::Cache,
        cache1: K::Cache,
        r: Tensor,
    ) -> bool {
        exists|q: Tensor, k: Tensor, v: Tensor, y: Tensor|
            {
                &&& #[trigger] self.is_turned(kernels, x, start_offsets, q, k, v)
                &&& #[trigger] self.is_attended(
                    kernels,
                    paging,
                    mask,
                    cache0,
                    cache1,
                    q,
                    k,
                    v,
                    y,
                )
                &&& self.is_closed(kernels, mask, x, y, r)
            }
    }

    /// The cache can go from `cache0` to `cache1` where `x` goes in, whatever comes of the layer:
    /// it stays as it is, or keys and values are taken in once, unless attention goes over pages.
    pub open spec fn is_cached<K: AttentionKernels>(
        &self,
        kernels: K,
        x: Tensor,
        start_offsets: &[usize],
        cache0: K::Cache,
        cache1: K::Cache,
    ) -> bool {
        ||| cache1 == cache0
        ||| !self.paged && exists|q: Tensor, k: Tensor, v: Tensor, k1: Tensor, v1: Tensor|
            {
                &&& #[trigger] self.is_turned(kernels, x, start_offsets, q, k, v)
                &&& #[trigger] appends(kernels, cache0, k, v, cache1, k1, v1)
            }
    }

    /// Nothing is in the way of running the layer on a tensor of these dimensions,
    /// `[batch, positions, width]`: weights and kernels oblige, and all sizes fit in memory.
    pub open spec fn is_obliged<K: AttentionKernels>(
        &self,
        kernels: K,
        dims: Seq<usize>,
        start_offsets: &[usize],
        paging: Option<&K::Paging>,
        mask: K::Mask,
        cache: K::Cache,
    ) -> bool {
        let inner = (self.n_head * self.head_dim) as usize;
        let kv_inner = (self.n_kv_head * self.head_dim) as usize;
        &&& dims.len() == 3
        &&& dims[0] > 0
        &&& dims[1] > 0
        &&& fits(dims)
        &&& dtype_is_f32(self.dtype)
        &&& self.n_head * self.head_dim <= usize::MAX
        &&& self.n_kv_head * self.head_dim <= usize::MAX
        &&& fits(seq![dims[0], dims[1], self.n_head, self.head_dim])
        &&& fits(seq![dims[0], dims[1], self.n_kv_head, self.head_dim])
        &&& fits(seq![dims[0], self.n_head, dims[1], self.head_dim])
        &&& fits(seq![dims[0], self.n_kv_head, dims[1], self.head_dim])
        &&& weight_obliges(self.attention_wq, dims[2], inner)
        &&& weight_obliges(self.attention_wk, dims[2], kv_inner)
        &&& weight_obliges(self.attention_wv, dims[2], kv_inner)
        &&& weight_obliges(self.attention_wo, inner, dims[2])
        &&& attention_obliges(
            kernels,
            start_offsets,
            paging,
            mask,
            cache,
            dims[0],
            self.n_head,
            self.n_kv_head,
            self.head_dim,
        )
    }

    /// Projects `x` and cuts the projection into heads.
    fn headed(&self, w: &Q, x: &Tensor, batch: usize, len: usize, heads: usize) -> (r: Result<
        Tensor,
        TensorError,
    >)
        requires
            tensor_dims(*x).len() == 3,
            tensor_dims(*x)[0] == batch,
            tensor_dims(*x)[1] == len,
        ensures
            r matches Ok(u) ==> {
                &&& self.is_headed(*w, *x, heads, u)
                &&& tensor_dims(u) == seq![batch, heads, len, self.head_dim]
            },
            plain(*x) && fits(tensor_dims(*x)) && heads * self.head_dim <= usize::MAX && fits(
                seq![batch, len, heads, self.head_dim],
            ) && fits(seq![batch, heads, len, self.head_dim]) && weight_obliges(
                *w,
                tensor_dims(*x)[2],
                (heads * self.head_dim) as usize,
            ) ==> (r matches Ok(u) && plain(u)),
    {
        let a = w.forward(x);
        proof {
            assert(answers(*w, *x, a));
            let width = heads * self.head_dim;
            if width <= usize::MAX && fits(seq![batch, len, heads, self.head_dim]) {
                let flat = seq![batch, len, width as usize];
                heads_side_by_side(batch, len, heads, self.head_dim);
                assert(tensor_dims(*x).update(2, width as usize) =~= flat);
            }
        }
        let p = lift(a)?;
        assert(projects(*w, *x, p));
        split_heads(&p, batch, len, heads, self.head_dim)
    }

    /// Converts `t` to the element type of attention.
    fn cast(&self, t: &Tensor) -> (r: Result<Tensor, TensorError>)
        ensures
            r matches Ok(u) ==> is_cast(view_of(*t), self.dtype, view_of(u)),
            plain(*t) && fits(tensor_dims(*t)) && dtype_is_f32(self.dtype) ==> (r matches Ok(u)
                && plain(u)),
    {
        to_dtype(t, self.dtype)
    }

    /// Runs the layer on `x`, of shape `[batch, positions, width]`, under a mask. The cache takes
    /// in keys and values, unless attention goes over pages.
    pub fn forward_attn<K: AttentionKernels>(
        &self,
        kernels: &K,
        x: &Tensor,
        mask: &K::Mask,
        start_offsets: &[usize],
        kv_cache: &mut K::Cache,
        paging: Option<&K::Paging>,
    ) -> (r: Result<Tensor, TensorError>)
        requires
            self.paged ==> paging is Some,
        ensures
            r matches Ok(u) ==> {
                &&& tensor_dims(*x).len() == 3
                &&& self.is_forward(
                    *kernels,
                    *x,
                    start_offsets,
                    paging,
                    *mask,
                    *old(kv_cache),
                    *final(kv_cache),
                    u,
                )
            },
            self.is_cached(*kernels, *x, start_offsets, *old(kv_cache), *final(kv_cache)),
            !fits(tensor_dims(*x)) || tensor_dims(*x).len() != 3 ==> r is Err && *final(kv_cache)
                == *old(kv_cache),
            plain(*x) && self.is_obliged(
                *kernels,
                tensor_dims(*x),
                start_offsets,
                paging,
                *mask,
                *old(kv_cache),
            ) ==> {
                &&& r matches Ok(u)
                &&& plain(u)
                &&& tensor_dims(u) == tensor_dims(*x)
            },
    {
        let ghost obliged = plain(*x) && self.is_obliged(
            *kernels,
            tensor_dims(*x),
            start_offsets,
            paging,
            *mask,
            *old(kv_cache),
        );
        let (batch, len, _width) = dims3(x)?;
        proof {
            span_front(tensor_dims(*x), 2);
            assert(tensor_dims(*x).take(2) =~= seq![batch, len]);
            count_small(batch, len, 0, 0, 0);
        }
        let q0 = self.headed(&self.attention_wq, x, batch, len, self.n_head)?;
        let k0 = self.headed(&self.attention_wk, x, batch, len, self.n_kv_head)?;
        let v0 = self.headed(&self.attention_wv, x, batch, len, self.n_kv_head)?;
        let at = lift(kernels.text_positions(start_offsets, len, &q0))?;
        let (q1, k1) = match kernels.forward_qk_norm(&q0, &k0, &at) {
            Ok(turned) => turned,
            Err(e) => {
                return Err(TensorError::Candle(e));
            },
        };
        let q = self.cast(&q1)?;
        let k = self.cast(&k1)?;
        let v = self.cast(&v0)?;
        proof {
            assert(places(*kernels, start_offsets, len, q0, at));
            assert(turns(*kernels, q0, k0, at, q1, k1));
            assert(self.is_headed(self.attention_wq, *x, self.n_head, q0));
            assert(self.is_turned(*kernels, *x, start_offsets, q, k, v));
        }
        let y = if self.paged {
            match paging {
                Some(pages_in_use) => lift(
                    kernels.paged_forward(&q, &k, &v, mask, pages_in_use),
                )?,
                None => {
                    return Err(TensorError::WrongState);
                },
            }
        } else {
            let (grown, k2, v2) = match kernels.append(&*kv_cache, &k, &v) {
                Ok(all) => all,
                Err(e) => {
                    return Err(TensorError::Candle(e));
                },
            };
            assert(appends(*kernels, *kv_cache, k, v, grown, k2, v2));
            *kv_cache = grown;
            let y = lift(kernels.run_attention(&q, &k2, &v2, mask))?;
            assert(attends(*kernels, q, k2, v2, *mask, y));
            y
        };
        assert(self.is_attended(
            *kernels,
            paging,
            *mask,
            *old(kv_cache),
            *kv_cache,
            q,
            k,
            v,
            y,
        ));
        let custom = kernels.mask_is_custom(mask);
        proof {
            if obliged {
                merged_width(tensor_dims(y), batch, len, self.n_head, self.head_dim);
                assert(swapped(view_of(y), 1).dims =~= seq![
                    tensor_dims(y)[0],
                    tensor_dims(y)[2],
                    tensor_dims(y)[1],
                    tensor_dims(y)[3],
                ]);
            }
        }
        let merged = merge_heads(&y, batch, len, custom)?;
        let z = to_dtype_of(&merged, x)?;
        let a = self.attention_wo.forward(&z);
        proof {
            assert(answers(self.attention_wo, z, a));
            if obliged {
                assert(tensor_dims(z).update(2, tensor_dims(*x)[2]) =~= tensor_dims(*x));
            }
        }
        let u = lift(a)?;
        proof {
            assert(masks(*kernels, *mask, custom));
            assert(projects(self.attention_wo, z, u));
            assert(self.is_closed(*kernels, *mask, *x, y, u));
        }
        Ok(u)
    }
}

/// What is left for each position of what attention has given, whichever way round its dimensions
/// are.
proof fn merged_width(d: Seq<usize>, batch: usize, len: usize, heads: usize, size: usize)
    requires
        batch > 0,
        len > 0,
        heads * size <= usize::MAX,
        fits(seq![batch, len, heads, size]),
        fits(seq![batch, heads, len, size]),
        d == seq![batch, len, heads, size] || d == seq![batch, heads, len, size],
    ensures
        batch * len > 0,
        fits(d),
        count(d) / ((batch * len) as nat) == heads * size,
        (heads * size) * (batch * len) == count(d),
        fits(seq![batch, len, (heads * size) as usize]),
        fits(seq![d[0], d[2], d[1], d[3]]),
{
    heads_side_by_side(batch, len, heads, size);
    count_small(batch, len, heads, size, 0);
    count_small(batch, heads, len, size, 0);
    let n = batch * len;
    let w = heads * size;
    assert(n > 0) by (nonlinear_arith)
        requires
            n == batch * len,
            batch > 0,
            len > 0,
    ;
    assert(batch * heads * len * size == batch * len * heads * size && batch * len * heads * size
        == w * n) by (nonlinear_arith)
        requires
            n == batch * len,
            w == heads * size,
    ;
    assert((w * n) / n == w) by (nonlinear_arith)
        requires
            n > 0,
    ;
    assert(seq![d[0], d[2], d[1], d[3]] =~= seq![batch, heads, len, size] || seq![
        d[0],
        d[2],
        d[1],
        d[3],
    ] =~= seq![batch, len, heads, size]);
}

/// The vectors of all heads of a position take as much room side by side.
pub proof fn heads_side_by_side(batch: usize, len: usize, heads: usize, size: usize)
    requires
        heads * size <= usize::MAX,
        fits(seq![batch, len, heads, size]),
    ensures
        fits(seq![batch, len, (heads * size) as usize]),
        count(seq![batch, len, (heads * size) as usize]) == count(seq![batch, len, heads, size]),
{
    let d = seq![batch, len, heads, size];
    let width = (heads * size) as usize;
    let e = seq![batch, len, width];
    count_small(batch, len, heads, size, 0);
    count_small(batch, len, width, 0, 0);
    let n = batch * len;
    assert(n * heads * size == n * width) by (nonlinear_arith)
        requires
            width == heads * size,
    ;
    span_small(batch, len, heads, size, 0);
    span_small(batch, len, width, 0, 0);
    let f = factor(heads);
    let g = factor(size);
    let h = factor(width);
    assert(h <= f * g) by (nonlinear_arith)
        requires
            width == heads * size,
            h == (if width == 0 {
                1nat
            } else {
                width as nat
            }),
            f >= heads,
            f >= 1,
            g >= size,
            g >= 1,
    ;
    let m = factor(batch) * factor(len);
    assert(m * h <= m * f * g) by (nonlinear_arith)
        requires
            0 <= m,
            h <= f * g,
    ;
}

} // verus!
