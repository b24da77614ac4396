//! What the models take from their surroundings: weights in a quantised form and the kernels
//! that work on them. Nothing is promised of their results.
//!
//! Some can be relied on to refuse nothing that has the right shape; they are said to oblige.
use candle_core::quantized::QMatMul;
use candle_core::{DType, Device, Error, Tensor};
use vstd::prelude::*;

use crate::shape::fits;
use crate::tensor::{plain, tensor_dims};

verus! {

/// A weight that tensors are multiplied with, in whatever form it is stored.
pub trait QuantMethod {
    /// Multiplies `xs` with the weight.
    fn forward(&self, xs: &Tensor) -> Result<Tensor, Error>;
}

/// `r` can come back where `x` is multiplied with the weight `w`.
pub open spec fn answers<Q: QuantMethod>(w: Q, x: Tensor, r: Result<Tensor, Error>) -> bool {
    call_ensures(Q::forward, (&w, &x), r)
}

/// `y` can come out where `x` is multiplied with the weight `w`.
pub open spec fn projects<Q: QuantMethod>(w: Q, x: Tensor, y: Tensor) -> bool {
    answers(w, x, Ok(y))
}

/// The weight takes whatever has a last dimension of `from`, and makes one of `to` of it.
pub open spec fn weight_obliges<Q: QuantMethod>(w: Q, from: usize, to: usize) -> bool {
    forall|x: Tensor, r: Result<Tensor, Error>| #[trigger]
        answers(w, x, r) && plain(x) && tensor_dims(x).len() == 3 && tensor_dims(x)[2] == from
            && fits(tensor_dims(x)) && fits(tensor_dims(x).update(2, to)) ==> {
            &&& r matches Ok(y)
            &&& plain(y)
            &&& tensor_dims(y) == tensor_dims(x).update(2, to)
        }
}

/// Kernels that feed-forward layers call.
pub trait Kernels {
    /// The product of the SiLU of `a` with `b`.
    fn mul_and_act(&self, a: &Tensor, b: &Tensor) -> Result<Tensor, Error>;

    /// Scores and indices of the `top_k` experts that the softmax of the logits rates highest,
    /// for each token; the scores sum up to one if `renormalize`.
    fn moe_router_topk(&self, logits: &Tensor, top_k: usize, renormalize: bool) -> Result<
        (Tensor, Tensor),
        Error,
    >;

    /// Multiplies each token with the experts that its indices name, on the processor.
    fn cpu_indexed_moe_forward(&self, w: &QMatMul, xs: &Tensor, indices: &Tensor) -> Result<
        Tensor,
        Error,
    >;
}

/// `r` can come back for the product of the SiLU of `a` with `b`.
pub open spec fn activates<K: Kernels>(
    kernels: K,
    a: Tensor,
    b: Tensor,
    r: Result<Tensor, Error>,
) -> bool {
    call_ensures(K::mul_and_act, (&kernels, &a, &b), r)
}

/// The product of one tensor's SiLU with another is made wherever they have one shape.
pub open spec fn activation_obliges<K: Kernels>(kernels: K) -> bool {
    forall|a: Tensor, b: Tensor, r: Result<Tensor, Error>| #[trigger]
        activates(kernels, a, b, r) && plain(a) && plain(b) && tensor_dims(a) == tensor_dims(b)
            && fits(tensor_dims(a)) ==> {
            &&& r matches Ok(y)
            &&& plain(y)
            &&& tensor_dims(y) == tensor_dims(a)
        }
}

/// `r` can come back where the router picks experts.
pub open spec fn routes<K: Kernels>(
    kernels: K,
    logits: Tensor,
    top_k: usize,
    renormalize: bool,
    r: Result<(Tensor, Tensor), Error>,
) -> bool {
    call_ensures(K::moe_router_topk, (&kernels, &logits, top_k, renormalize), r)
}

/// `r` can come back where tokens are multiplied with their experts on the processor.
pub open spec fn gathers<K: Kernels>(
    kernels: K,
    w: QMatMul,
    xs: Tensor,
    indices: Tensor,
    r: Result<Tensor, Error>,
) -> bool {
    call_ensures(K::cpu_indexed_moe_forward, (&kernels, &w, &xs, &indices), r)
}

/// The router picks `top_k` experts for each of `tokens` tokens.
pub open spec fn router_obliges<K: Kernels>(
    kernels: K,
    logits: Tensor,
    top_k: usize,
    renormalize: bool,
    tokens: usize,
) -> bool {
    forall|r: Result<(Tensor, Tensor), Error>| #[trigger]
        routes(kernels, logits, top_k, renormalize, r) ==> {
            &&& r matches Ok(t)
            &&& plain(t.0)
            &&& tensor_dims(t.0) == seq![tokens, top_k]
        }
}

/// The experts that `indices` name take tokens of these dimensions, and make vectors of size `to`
/// of them.
pub open spec fn experts_oblige<K: Kernels>(
    kernels: K,
    w: QMatMul,
    indices: Tensor,
    dims: Seq<usize>,
    top_k: usize,
    to: usize,
) -> bool {
    forall|xs: Tensor, r: Result<Tensor, Error>| #[trigger]
        gathers(kernels, w, xs, indices, r) && plain(xs) && tensor_dims(xs) == dims ==> {
            &&& r matches Ok(y)
            &&& plain(y)
            &&& tensor_dims(y) == seq![dims[0], top_k, to]
        }
}

/// Kernels that attention layers call.
pub trait AttentionKernels {
    /// What paged attention needs to find its pages.
    type Paging;

    /// Which positions are hidden from which others.
    type Mask;

    /// Keys and values of earlier positions.
    type Cache;

    /// The positions of `len` tokens that follow on `start_offsets`, on the device of `like`.
    fn text_positions(&self, start_offsets: &[usize], len: usize, like: &Tensor) -> Result<
        Tensor,
        Error,
    >;

    /// Normalises queries and keys and turns them by their positions.
    fn forward_qk_norm(&self, q: &Tensor, k: &Tensor, positions: &Tensor) -> Result<
        (Tensor, Tensor),
        Error,
    >;

    /// Attention under a mask over pages, which take in keys and values.
    fn paged_forward(
        &self,
        q: &Tensor,
        k: &Tensor,
        v: &Tensor,
        mask: &Self::Mask,
        paging: &Self::Paging,
    ) -> Result<Tensor, Error>;

    /// The cache with keys and values taken in, and all that it then holds.
    fn append(&self, cache: &Self::Cache, k: &Tensor, v: &Tensor) -> Result<
        (Self::Cache, Tensor, Tensor),
        Error,
    >;

    /// Attention under a mask over all keys and values.
    fn run_attention(&self, q: &Tensor, k: &Tensor, v: &Tensor, mask: &Self::Mask) -> Result<
        Tensor,
        Error,
    >;

    /// Whether the mask was made for this call.
    fn mask_is_custom(&self, mask: &Self::Mask) -> bool;
}

/// `r` can come back where positions are asked for.
pub open spec fn places<K: AttentionKernels>(
    kernels: K,
    start_offsets: &[usize],
    len: usize,
    like: Tensor,
    r: Tensor,
) -> bool {
    call_ensures(K::text_positions, (&kernels, start_offsets, len, &like), Ok::<Tensor, Error>(r))
}

/// `q1` and `k1` can come back where queries and keys are turned.
pub open spec fn turns<K: AttentionKernels>(
    kernels: K,
    q: Tensor,
    k: Tensor,
    positions: Tensor,
    q1: Tensor,
    k1: Tensor,
) -> bool {
    call_ensures(
        K::forward_qk_norm,
        (&kernels, &q, &k, &positions),
        Ok::<(Tensor, Tensor), Error>((q1, k1)),
    )
}

/// `y` can come back from paged attention under a mask.
pub open spec fn pages<K: AttentionKernels>(
    kernels: K,
    q: Tensor,
    k: Tensor,
    v: Tensor,
    mask: K::Mask,
    paging: K::Paging,
    y: Tensor,
) -> bool {
    call_ensures(K::paged_forward, (&kernels, &q, &k, &v, &mask, &paging), Ok::<Tensor, Error>(y))
}

/// Taking keys and values in can lead from one cache to another, which then holds `k1` and `v1`.
pub open spec fn appends<K: AttentionKernels>(
    kernels: K,
    before: K::Cache,
    k: Tensor,
    v: Tensor,
    after: K::Cache,
    k1: Tensor,
    v1: Tensor,
) -> bool {
    call_ensures(
        K::append,
        (&kernels, &before, &k, &v),
        Ok::<(K::Cache, Tensor, Tensor), Error>((after, k1, v1)),
    )
}

/// `y` can come back from attention under a mask over all keys and values.
pub open spec fn attends<K: AttentionKernels>(
    kernels: K,
    q: Tensor,
    k: Tensor,
    v: Tensor,
    mask: K::Mask,
    y: Tensor,
) -> bool {
    call_ensures(K::run_attention, (&kernels, &q, &k, &v, &mask), Ok::<Tensor, Error>(y))
}

/// `custom` can come back where a mask is asked about.
pub open spec fn masks<K: AttentionKernels>(kernels: K, mask: K::Mask, custom: bool) -> bool {
    call_ensures(K::mask_is_custom, (&kernels, &mask), custom)
}

/// A tensor of the shape `[batch, heads, positions, size]`, with one position at least.
pub open spec fn is_headed(t: Tensor, batch: usize, heads: usize, size: usize) -> bool {
    &&& plain(t)
    &&& tensor_dims(t).len() == 4
    &&& tensor_dims(t)[0] == batch
    &&& tensor_dims(t)[1] == heads
    &&& tensor_dims(t)[2] > 0
    &&& tensor_dims(t)[3] == size
    &&& fits(tensor_dims(t))
}

/// What comes out of attention has the shape of the queries, or that shape with heads and
/// positions exchanged.
pub open spec fn is_attention_of(q: Tensor, y: Tensor) -> bool {
    let d = tensor_dims(q);
    &&& plain(y)
    &&& tensor_dims(y) == d || tensor_dims(y) == seq![d[0], d[2], d[1], d[3]]
}

/// The kernels place, turn and take in whatever has these sizes, and attend to it under a mask.
pub open spec fn attention_obliges<K: AttentionKernels>(
    kernels: K,
    start_offsets: &[usize],
    paging: Option<&K::Paging>,
    mask: K::Mask,
    cache: K::Cache,
    batch: usize,
    heads: usize,
    kv_heads: usize,
    size: usize,
) -> bool {
    &&& forall|len: usize, like: Tensor, r: Result<Tensor, Error>| #[trigger]
        call_ensures(K::text_positions, (&kernels, start_offsets, len, &like), r) && plain(like)
            ==> r is Ok
    &&& forall|q: Tensor, k: Tensor, at: Tensor, r: Result<(Tensor, Tensor), Error>| #[trigger]
        call_ensures(K::forward_qk_norm, (&kernels, &q, &k, &at), r) && is_headed(
            q,
            batch,
            heads,
            size,
        ) && is_headed(k, batch, kv_heads, size) ==> {
            &&& r matches Ok(t)
            &&& plain(t.0) && tensor_dims(t.0) == tensor_dims(q)
            &&& plain(t.1) && tensor_dims(t.1) == tensor_dims(k)
        }
    &&& forall|k: Tensor, v: Tensor, r: Result<(K::Cache, Tensor, Tensor), Error>| #[trigger]
        call_ensures(K::append, (&kernels, &cache, &k, &v), r) && is_headed(
            k,
            batch,
            kv_heads,
            size,
        ) && is_headed(v, batch, kv_heads, size) && tensor_dims(k) == tensor_dims(v) ==> {
            &&& r matches Ok(t)
            &&& is_headed(t.1, batch, kv_heads, size)
            &&& is_headed(t.2, batch, kv_heads, size)
            &&& tensor_dims(t.1) == tensor_dims(t.2)
        }
    &&& forall|q: Tensor, k: Tensor, v: Tensor, r: Result<Tensor, Error>| #[trigger]
        call_ensures(K::run_attention, (&kernels, &q, &k, &v, &mask), r) && is_headed(
            q,
            batch,
            heads,
            size,
        ) && is_headed(k, batch, kv_heads, size) && is_headed(v, batch, kv_heads, size)
            && tensor_dims(k) == tensor_dims(v) ==> (r matches Ok(y) && is_attention_of(q, y))
    &&& paging matches Some(pages_in_use) ==> forall|
        q: Tensor,
        k: Tensor,
        v: Tensor,
        r: Result<Tensor, Error>,
    | #[trigger]
        call_ensures(K::paged_forward, (&kernels, &q, &k, &v, &mask, pages_in_use), r) && is_headed(
            q,
            batch,
            heads,
            size,
        ) && is_headed(k, batch, kv_heads, size) && is_headed(v, batch, kv_heads, size)
            && tensor_dims(k) == tensor_dims(v) ==> (r matches Ok(y) && is_attention_of(q, y))
}

/// Weights of a normalisation.
pub trait Norm {
    /// Normalises `x`.
    fn forward(&self, x: &Tensor) -> Result<Tensor, Error>;
}

/// `y` can come out where `x` is normalised.
pub open spec fn norms<N: Norm>(n: N, x: Tensor, y: Tensor) -> bool {
    call_ensures(N::forward, (&n, &x), Ok::<Tensor, Error>(y))
}

/// Whatever has a shape is normalised.
pub open spec fn norm_obliges<N: Norm>(n: N) -> bool {
    forall|x: Tensor, r: Result<Tensor, Error>| #[trigger]
        call_ensures(N::forward, (&n, &x), r) && plain(x) && fits(tensor_dims(x)) ==> {
            &&& r matches Ok(y)
            &&& plain(y)
            &&& tensor_dims(y) == tensor_dims(x)
        }
}

/// Takes hidden states to where layers run. What it keeps from one call to the next, such as
/// connections and the number of cached positions, goes from hand to hand.
pub trait DeviceMapper: Sized {
    /// Takes hidden states to where a layer runs, or through the layer where that is elsewhere.
    fn map(self, input: Tensor, layer: usize) -> (Self, Result<Tensor, Error>);

    /// Tells how many positions are already cached.
    fn set_past_kv(self, past_kv: u32) -> Self;
}

/// `r` can come back where `x` is taken to a layer, while the mapper becomes `after`.
pub open spec fn maps<M: DeviceMapper>(
    mapper: M,
    x: Tensor,
    layer: usize,
    after: M,
    r: Result<Tensor, Error>,
) -> bool {
    call_ensures(M::map, (mapper, x, layer), (after, r))
}

/// Telling the mapper that `past_kv` positions are already cached can make it `after`.
pub open spec fn tells<M: DeviceMapper>(mapper: M, past_kv: u32, after: M) -> bool {
    call_ensures(M::set_past_kv, (mapper, past_kv), after)
}

/// Hidden states are taken to any layer, and keep their shape.
pub open spec fn mapper_obliges<M: DeviceMapper>(mapper: M) -> bool {
    forall|x: Tensor, layer: usize, after: M, r: Result<Tensor, Error>| #[trigger]
        maps(mapper, x, layer, after, r) && plain(x) && fits(tensor_dims(x)) ==> {
            &&& r matches Ok(y)
            &&& plain(y)
            &&& tensor_dims(y) == tensor_dims(x)
        }
}

/// All mappers that meet a condition oblige, and it holds of them from then on.
pub open spec fn mappers_oblige<M: DeviceMapper>(good: spec_fn(M) -> bool) -> bool {
    &&& forall|m: M| #[trigger] good(m) ==> mapper_obliges(m)
    &&& forall|m: M, past_kv: u32, after: M| #[trigger]
        tells(m, past_kv, after) && good(m) ==> good(after)
    &&& forall|m: M, x: Tensor, layer: usize, after: M, r: Result<Tensor, Error>| #[trigger]
        maps(m, x, layer, after, r) && good(m) ==> good(after)
}

/// Where a mask learns how many positions come before.
pub enum PastPositions<'a, C> {
    /// From what is cached.
    Cache(&'a Vec<C>),
    /// From these numbers.
    Offsets(&'a [usize]),
}

/// What a model has around it: the kernels of its attention layers, masks, and the choice of
/// positions to make logits of.
pub trait Surroundings {
    /// Kernels of an attention layer.
    type Attention: AttentionKernels;

    /// The kernels of a layer.
    fn attention(&self, layer: usize) -> &Self::Attention;

    /// A causal mask for `ids`, in the element type `dtype`.
    fn causal_mask(
        &self,
        ids: &Tensor,
        past: PastPositions<'_, <Self::Attention as AttentionKernels>::Cache>,
        dtype: DType,
    ) -> Result<<Self::Attention as AttentionKernels>::Mask, Error>;

    /// A causal mask for `len` positions after `past` others, in the element type `dtype` and on
    /// a device.
    fn causal_mask_for(&self, len: usize, past: usize, dtype: DType, device: &Device) -> Result<
        <Self::Attention as AttentionKernels>::Mask,
        Error,
    >;

    /// A mask that hides nothing.
    fn no_mask(&self) -> <Self::Attention as AttentionKernels>::Mask;

    /// Picks the positions that logits are made of.
    fn extract_logits(&self, x: &Tensor, context_lens: &Vec<(usize, usize)>) -> Result<
        Tensor,
        Error,
    >;
}

/// Masks of the attention layers.
pub type MaskOf<S> = <<S as Surroundings>::Attention as AttentionKernels>::Mask;

/// Caches of the attention layers.
pub type CacheOf<S> = <<S as Surroundings>::Attention as AttentionKernels>::Cache;

/// `a` can be the kernels of a layer.
pub open spec fn serves<S: Surroundings>(around: S, layer: usize, a: S::Attention) -> bool {
    call_ensures(S::attention, (&around, layer), &a)
}

/// `r` can come back where a causal mask is made for `ids`.
pub open spec fn makes_mask<S: Surroundings>(
    around: S,
    ids: Tensor,
    past: PastPositions<'_, <S::Attention as AttentionKernels>::Cache>,
    dtype: DType,
    r: Result<<S::Attention as AttentionKernels>::Mask, Error>,
) -> bool {
    call_ensures(S::causal_mask, (&around, &ids, past, dtype), r)
}

/// `r` can come back where a causal mask is made for `len` positions after `past` others.
pub open spec fn makes_mask_for<S: Surroundings>(
    around: S,
    len: usize,
    past: usize,
    dtype: DType,
    device: Device,
    r: Result<<S::Attention as AttentionKernels>::Mask, Error>,
) -> bool {
    call_ensures(S::causal_mask_for, (&around, len, past, dtype, &device), r)
}

/// `mask` can be one that hides nothing.
pub open spec fn hides_nothing<S: Surroundings>(
    around: S,
    mask: <S::Attention as AttentionKernels>::Mask,
) -> bool {
    call_ensures(S::no_mask, (&around,), mask)
}

/// `y` can come back where positions are picked.
pub open spec fn picks<S: Surroundings>(
    around: S,
    x: Tensor,
    context_lens: Vec<(usize, usize)>,
    y: Tensor,
) -> bool {
    call_ensures(S::extract_logits, (&around, &x, &context_lens), Ok::<Tensor, Error>(y))
}

/// Positions are picked of hidden states of any shape, and keep their width.
pub open spec fn choice_obliges<S: Surroundings>(
    around: S,
    context_lens: Vec<(usize, usize)>,
) -> bool {
    forall|x: Tensor, r: Result<Tensor, Error>| #[trigger]
        call_ensures(S::extract_logits, (&around, &x, &context_lens), r) && plain(x)
            && tensor_dims(x).len() == 3 && fits(tensor_dims(x)) ==> {
            &&& r matches Ok(y)
            &&& plain(y)
            &&& tensor_dims(y).len() == 3
            &&& tensor_dims(y)[2] == tensor_dims(x)[2]
            &&& fits(tensor_dims(y))
        }
}

/// The weight takes whatever has a last dimension of `width`.
pub open spec fn output_obliges<Q: QuantMethod>(w: Q, width: usize) -> bool {
    forall|x: Tensor, r: Result<Tensor, Error>| #[trigger]
        answers(w, x, r) && plain(x) && tensor_dims(x).len() == 3 && tensor_dims(x)[2] == width
            && fits(tensor_dims(x)) ==> r is Ok
}

} // verus!
