//! A model of layers, run as a whole by a host or in part by a worker.
use candle_core::{DType, Device, Error, Tensor};
use vstd::prelude::*;

use crate::attention::AttentionWeights;
use crate::backend::{
    answers, choice_obliges, hides_nothing, makes_mask, makes_mask_for, mapper_obliges,
    mappers_oblige, maps, norm_obliges, norms, output_obliges, picks, projects, serves, tells,
    AttentionKernels, CacheOf, DeviceMapper, Kernels, MaskOf, Norm, PastPositions, QuantMethod,
    Surroundings,
};
use crate::chain::{chain, chain_agrees, chain_grows, only, takes};
use crate::moe::MoeOrMlp;
use crate::ops::{contiguous, is_sum, lift, plus, settled, shape, TensorError};
use crate::shape::{count, dims_fit, elements, fits};
use crate::ssm::SsmWeights;
use crate::tensor::{
    candle_cpu, candle_dims, candle_embed, candle_to_device, device_is_cpu, embedding_outcome,
    ids_known, looked_up, plain, tensor_dims, tensor_ids, tensor_is_dense, tensor_on_cpu,
    tensor_words, view_of,
};

verus! {

/// How a layer mixes positions.
pub enum Mixer<Q> {
    /// By attention.
    Attention(AttentionWeights<Q>),
    /// By convolution and the delta rule, which keep a state.
    Ssm { ssm: SsmWeights<Q>, conv_state: Option<Tensor>, ssm_state: Option<Tensor> },
}

/// Weights and state of a layer.
pub struct LayerWeights<Q, N> {
    pub mixer: Mixer<Q>,
    pub attention_norm: N,
    pub mlp: MoeOrMlp<Q>,
    pub ffn_norm: N,
}

/// What a model is given at one call beside its input: the kernels around it, the positions that
/// come before, and the pages of each layer if attention goes over pages.
pub struct CallContext<'a, K, S: Surroundings> {
    pub kernels: &'a K,
    pub around: &'a S,
    pub start_offsets: &'a [usize],
    pub paging: Option<&'a [<S::Attention as AttentionKernels>::Paging]>,
}

/// The pages of a layer.
pub open spec fn pages_of<'a, K, S: Surroundings>(
    ctx: CallContext<'a, K, S>,
    layer: int,
) -> Option<&'a <S::Attention as AttentionKernels>::Paging> {
    match ctx.paging {
        Some(all) => Some(&all@[layer]),
        None => None,
    }
}

/// How many layers there are pages for, if attention goes over pages.
pub open spec fn page_count<K, S: Surroundings>(ctx: CallContext<'_, K, S>) -> Option<nat> {
    match ctx.paging {
        Some(all) => Some(all@.len()),
        None => None,
    }
}

/// The cache of a layer, if there is one.
pub open spec fn cache_of<C>(cache: Seq<C>, layer: int) -> Option<C> {
    if 0 <= layer < cache.len() {
        Some(cache[layer])
    } else {
        None
    }
}

/// The caches of all layers but one are the same.
pub open spec fn same_but<C>(before: Seq<C>, after: Seq<C>, layer: int) -> bool {
    &&& after.len() == before.len()
    &&& forall|j: int| 0 <= j < before.len() && j != layer ==> #[trigger] after[j] == before[j]
}

impl<Q: QuantMethod> Mixer<Q> {
    /// The layer can be run where there are pages for `pages` layers and caches for `caches`:
    /// sizes can be calculated with, and attention finds the cache and the pages of the layer, and
    /// has some if it goes over pages.
    pub open spec fn is_ready(&self, pages: Option<nat>, caches: nat, layer: int) -> bool {
        match self {
            Mixer::Attention(attn) => {
                &&& layer < caches
                &&& attn.paged ==> pages is Some
                &&& pages matches Some(n) ==> layer < n
            },
            Mixer::Ssm { ssm, .. } => ssm.sizes_ok(),
        }
    }

    /// The weights are the same, whatever the state.
    pub open spec fn same_weights(&self, other: &Self) -> bool {
        match (self, other) {
            (Mixer::Attention(a), Mixer::Attention(b)) => *a == *b,
            (Mixer::Ssm { ssm: a, .. }, Mixer::Ssm { ssm: b, .. }) => *a == *b,
            _ => false,
        }
    }

    /// `y` can come out where `x` goes in, under a mask, while `self` becomes `after` and the
    /// layer's cache goes from `cache0` to `cache1`.
    pub open spec fn is_mixed<K, S: Surroundings>(
        &self,
        after: &Self,
        ctx: CallContext<'_, K, S>,
        mask: MaskOf<S>,
        cache0: Option<CacheOf<S>>,
        cache1: Option<CacheOf<S>>,
        layer: usize,
        x: Tensor,
        y: Tensor,
    ) -> bool {
        match (self, after) {
            (Mixer::Attention(a), Mixer::Attention(b)) => {
                &&& *a == *b
                &&& cache0 is Some
                &&& cache1 is Some
                &&& exists|kernels: S::Attention|
                    {
                        &&& #[trigger] serves(*ctx.around, layer, kernels)
                        &&& a.is_forward(
                            kernels,
                            x,
                            ctx.start_offsets,
                            pages_of(ctx, layer as int),
                            mask,
                            cache0->0,
                            cache1->0,
                            y,
                        )
                    }
            },
            (
                Mixer::Ssm { ssm: a, conv_state: c0, ssm_state: m0 },
                Mixer::Ssm { ssm: b, conv_state: c1, ssm_state: m1 },
            ) => *a == *b && cache1 == cache0 && a.is_forward(x, *c0, *c1, *m0, *m1, y),
            _ => false,
        }
    }

    /// What is kept can go from that of `self` and `cache0` to that of `after` and `cache1` where
    /// `x` goes in, whatever comes of it.
    pub open spec fn is_kept<K, S: Surroundings>(
        &self,
        after: &Self,
        ctx: CallContext<'_, K, S>,
        cache0: Option<CacheOf<S>>,
        cache1: Option<CacheOf<S>>,
        layer: usize,
        x: Tensor,
    ) -> bool {
        match (self, after) {
            (Mixer::Attention(a), Mixer::Attention(b)) => {
                &&& *a == *b
                &&& cache0 is Some
                &&& cache1 is Some
                &&& exists|kernels: S::Attention|
                    {
                        &&& #[trigger] serves(*ctx.around, layer, kernels)
                        &&& a.is_cached(kernels, x, ctx.start_offsets, cache0->0, cache1->0)
                    }
            },
            (
                Mixer::Ssm { ssm: a, conv_state: c0, ssm_state: m0 },
                Mixer::Ssm { ssm: b, conv_state: c1, ssm_state: m1 },
            ) => *a == *b && cache1 == cache0 && a.is_kept(x, *c0, *c1, *m0, *m1),
            _ => false,
        }
    }

    /// Nothing is in the way of mixing the positions of a tensor of these dimensions.
    pub open spec fn is_obliged<K, S: Surroundings>(
        &self,
        ctx: CallContext<'_, K, S>,
        mask: MaskOf<S>,
        cache: Option<CacheOf<S>>,
        layer: usize,
        dims: Seq<usize>,
    ) -> bool {
        match self {
            Mixer::Attention(attn) => cache is Some && forall|kernels: S::Attention| #[trigger]
                serves(*ctx.around, layer, kernels) ==> attn.is_obliged(
                    kernels,
                    dims,
                    ctx.start_offsets,
                    pages_of(ctx, layer as int),
                    mask,
                    cache->0,
                ),
            Mixer::Ssm { ssm, conv_state, ssm_state } => ssm.is_obliged(
                dims,
                *conv_state,
                *ssm_state,
            ),
        }
    }

    /// Mixes the positions of `x`.
    fn mix<K, S: Surroundings>(
        &mut self,
        ctx: &CallContext<'_, K, S>,
        mask: &MaskOf<S>,
        cache: &mut Vec<CacheOf<S>>,
        layer: usize,
        x: &Tensor,
    ) -> (r: Result<Tensor, TensorError>)
        requires
            old(self).is_ready(page_count(*ctx), old(cache)@.len(), layer as int),
        ensures
            final(self).same_weights(old(self)),
            same_but(old(cache)@, final(cache)@, layer as int),
            r matches Ok(u) ==> old(self).is_mixed(
                final(self),
                *ctx,
                *mask,
                cache_of(old(cache)@, layer as int),
                cache_of(final(cache)@, layer as int),
                layer,
                *x,
                u,
            ),
            old(self).is_kept(
                final(self),
                *ctx,
                cache_of(old(cache)@, layer as int),
                cache_of(final(cache)@, layer as int),
                layer,
                *x,
            ),
            plain(*x) && old(self).is_obliged(
                *ctx,
                *mask,
                cache_of(old(cache)@, layer as int),
                layer,
                tensor_dims(*x),
            ) ==> {
                &&& r matches Ok(u)
                &&& plain(u)
                &&& tensor_dims(u) == tensor_dims(*x)
                &&& (*old(self)) is Ssm ==> final(self).is_obliged(
                    *ctx,
                    *mask,
                    cache_of(final(cache)@, layer as int),
                    layer,
                    tensor_dims(*x),
                )
            },
    {
        match self {
            Mixer::Attention(attn) => {
                let kernels = ctx.around.attention(layer);
                assert(serves(*ctx.around, layer, *kernels));
                let paging = match ctx.paging {
                    Some(all) => Some(&all[layer]),
                    None => None,
                };
                assert(paging == pages_of(*ctx, layer as int));
                attn.forward_attn(kernels, x, mask, ctx.start_offsets, &mut cache[layer], paging)
            },
            Mixer::Ssm { ssm, conv_state, ssm_state } => ssm.forward(x, conv_state, ssm_state),
        }
    }
}

impl<Q: QuantMethod, N: Norm> LayerWeights<Q, N> {
    /// The layer can be run.
    pub open spec fn is_ready(&self, pages: Option<nat>, caches: nat, layer: int) -> bool {
        self.mixer.is_ready(pages, caches, layer)
    }

    /// The weights are the same, whatever the state.
    pub open spec fn same_weights(&self, other: &Self) -> bool {
        &&& self.mixer.same_weights(&other.mixer)
        &&& self.attention_norm == other.attention_norm
        &&& self.mlp == other.mlp
        &&& self.ffn_norm == other.ffn_norm
    }

    /// `h` can come out of the first half of the layer where `x` goes in: what the mixer makes of
    /// the normalised input, added to the input.
    pub open spec fn is_first_half<K: Kernels, S: Surroundings>(
        &self,
        after: &Self,
        ctx: CallContext<'_, K, S>,
        mask: MaskOf<S>,
        cache0: Option<CacheOf<S>>,
        cache1: Option<CacheOf<S>>,
        layer: usize,
        x: Tensor,
        h: Tensor,
    ) -> bool {
        exists|normed: Tensor, mixed: Tensor|
            {
                &&& #[trigger] norms(self.attention_norm, x, normed)
                &&& self.mixer.is_mixed(
                    &after.mixer,
                    ctx,
                    mask,
                    cache0,
                    cache1,
                    layer,
                    normed,
                    mixed,
                )
                &&& #[trigger] is_sum(view_of(mixed), view_of(x), view_of(h))
                &&& plain(x) && self.is_obliged(ctx, mask, cache0, layer, tensor_dims(x))
                    ==> plain(h)
            }
    }

    /// `y` can come out of the second half of the layer where `h` goes in: what the feed-forward
    /// part makes of the normalised input, added to the input.
    pub open spec fn is_second_half<K: Kernels>(&self, kernels: K, h: Tensor, y: Tensor) -> bool {
        exists|normed: Tensor, risen: Tensor|
            {
                &&& #[trigger] norms(self.ffn_norm, h, normed)
                &&& self.mlp.is_forward(kernels, normed, risen)
                &&& #[trigger] is_sum(view_of(risen), view_of(h), view_of(y))
            }
    }

    /// `y` can come out of the layer where `x` goes in, under a mask, while `self` becomes `after`
    /// and the layer's cache goes from `cache0` to `cache1`.
    pub open spec fn is_forward<K: Kernels, S: Surroundings>(
        &self,
        after: &Self,
        ctx: CallContext<'_, K, S>,
        mask: MaskOf<S>,
        cache0: Option<CacheOf<S>>,
        cache1: Option<CacheOf<S>>,
        layer: usize,
        x: Tensor,
        y: Tensor,
    ) -> bool {
        &&& self.same_weights(after)
        &&& exists|h: Tensor|
            {
                &&& #[trigger] self.is_first_half(after, ctx, mask, cache0, cache1, layer, x, h)
                &&& self.is_second_half(*ctx.kernels, h, y)
            }
        &&& plain(x) && self.is_obliged(ctx, mask, cache0, layer, tensor_dims(x)) ==> plain(y)
    }

    /// What is kept can go from that of `self` and `cache0` to that of `after` and `cache1` where
    /// `x` goes in, whatever comes of the layer: it stays, or becomes what the mixer makes of it.
    pub open spec fn is_kept<K, S: Surroundings>(
        &self,
        after: &Self,
        ctx: CallContext<'_, K, S>,
        cache0: Option<CacheOf<S>>,
        cache1: Option<CacheOf<S>>,
        layer: usize,
        x: Tensor,
    ) -> bool {
        ||| *after == *self && cache1 == cache0
        ||| self.same_weights(after) && exists|normed: Tensor| #[trigger]
            norms(self.attention_norm, x, normed) && self.mixer.is_kept(
                &after.mixer,
                ctx,
                cache0,
                cache1,
                layer,
                normed,
            )
    }

    /// Nothing is in the way of running the layer on a tensor of these dimensions.
    pub open spec fn is_obliged<K: Kernels, S: Surroundings>(
        &self,
        ctx: CallContext<'_, K, S>,
        mask: MaskOf<S>,
        cache: Option<CacheOf<S>>,
        layer: usize,
        dims: Seq<usize>,
    ) -> bool {
        &&& fits(dims)
        &&& norm_obliges(self.attention_norm)
        &&& self.mixer.is_obliged(ctx, mask, cache, layer, dims)
        &&& norm_obliges(self.ffn_norm)
        &&& self.mlp.is_obliged(*ctx.kernels, dims)
    }

    /// Runs the layer on `x`, under a mask.
    pub fn forward<K: Kernels, S: Surroundings>(
        &mut self,
        ctx: &CallContext<'_, K, S>,
        mask: &MaskOf<S>,
        cache: &mut Vec<CacheOf<S>>,
        layer: usize,
        x: &Tensor,
    ) -> (r: Result<Tensor, TensorError>)
        requires
            old(self).is_ready(page_count(*ctx), old(cache)@.len(), layer as int),
        ensures
            final(self).same_weights(old(self)),
            same_but(old(cache)@, final(cache)@, layer as int),
            r matches Ok(u) ==> old(self).is_forward(
                final(self),
                *ctx,
                *mask,
                cache_of(old(cache)@, layer as int),
                cache_of(final(cache)@, layer as int),
                layer,
                *x,
                u,
            ),
            old(self).is_kept(
                final(self),
                *ctx,
                cache_of(old(cache)@, layer as int),
                cache_of(final(cache)@, layer as int),
                layer,
                *x,
            ),
            plain(*x) && old(self).is_obliged(
                *ctx,
                *mask,
                cache_of(old(cache)@, layer as int),
                layer,
                tensor_dims(*x),
            ) ==> {
                &&& r matches Ok(u)
                &&& plain(u)
                &&& tensor_dims(u) == tensor_dims(*x)
                &&& old(self).mixer is Ssm ==> final(self).is_obliged(
                    *ctx,
                    *mask,
                    cache_of(final(cache)@, layer as int),
                    layer,
                    tensor_dims(*x),
                )
            },
    {
        let normed = lift(self.attention_norm.forward(x))?;
        assert(norms(self.attention_norm, *x, normed));
        let mixed = self.mixer.mix(ctx, mask, cache, layer, &normed)?;
        let h = plus(&mixed, x)?;
        proof {
            assert(is_sum(view_of(mixed), view_of(*x), view_of(h)));
            assert(old(self).is_first_half(
                self,
                *ctx,
                *mask,
                cache_of(old(cache)@, layer as int),
                cache_of(cache@, layer as int),
                layer,
                *x,
                h,
            ));
        }
        let normed = lift(self.ffn_norm.forward(&h))?;
        let risen = self.mlp.forward(ctx.kernels, &normed)?;
        let y = plus(&risen, &h)?;
        proof {
            assert(norms(self.ffn_norm, h, normed));
            assert(is_sum(view_of(risen), view_of(h), view_of(y)));
            assert(old(self).is_second_half(*ctx.kernels, h, y));
        }
        Ok(y)
    }
}

/// A model of layers. Those that run elsewhere have no weights here.
pub struct ModelWeights<Q, N, M, C> {
    /// The table that token ids are looked up in.
    pub tok_embeddings: Tensor,
    pub embedding_length: usize,
    pub layers: Vec<Option<LayerWeights<Q, N>>>,
    pub norm: N,
    pub output: Q,
    pub device: Device,
    /// Keys and values of earlier positions, for each layer.
    pub cache: Vec<C>,
    pub max_seq_len: usize,
    pub mapper: Option<M>,
    pub dtype: DType,
}

/// Layers with what they keep from one call to the next.
pub ghost struct Stage<Q, N, C> {
    pub layers: Seq<Option<LayerWeights<Q, N>>>,
    pub cache: Seq<C>,
}

/// `y` can come out of layer `i` where `x` goes in, under a mask, while the layers go from `before`
/// to `after`. A layer without weights passes hidden states on, and leaves its cache alone.
pub open spec fn runs<Q: QuantMethod, N: Norm, K: Kernels, S: Surroundings>(
    before: Stage<Q, N, CacheOf<S>>,
    after: Stage<Q, N, CacheOf<S>>,
    ctx: CallContext<'_, K, S>,
    mask: MaskOf<S>,
) -> spec_fn(int, Tensor, Tensor) -> bool {
    |i: int, x: Tensor, y: Tensor|
        match (before.layers[i], after.layers[i]) {
            (Some(a), Some(b)) => a.is_forward(
                &b,
                ctx,
                mask,
                cache_of(before.cache, i),
                cache_of(after.cache, i),
                i as usize,
                x,
                y,
            ),
            (None, None) => x == y && cache_of(after.cache, i) == cache_of(before.cache, i),
            _ => false,
        }
}

/// What layer `i` keeps can go from that of `before` to that of `after` where `x` goes in,
/// whatever comes of it.
pub open spec fn touches<Q: QuantMethod, N: Norm, K: Kernels, S: Surroundings>(
    before: Stage<Q, N, CacheOf<S>>,
    after: Stage<Q, N, CacheOf<S>>,
    ctx: CallContext<'_, K, S>,
    i: int,
    x: Tensor,
) -> bool {
    match (before.layers[i], after.layers[i]) {
        (Some(a), Some(b)) => a.is_kept(
            &b,
            ctx,
            cache_of(before.cache, i),
            cache_of(after.cache, i),
            i as usize,
            x,
        ),
        (None, None) => cache_of(after.cache, i) == cache_of(before.cache, i),
        _ => false,
    }
}

/// `r` can come back where the mapper takes `x` to layer `i`, while it becomes `after`; without a
/// mapper nothing happens.
pub open spec fn is_mapped<M: DeviceMapper>(
    before: Option<M>,
    x: Tensor,
    i: int,
    after: Option<M>,
    r: Result<Tensor, Error>,
) -> bool {
    match (before, after) {
        (Some(a), Some(b)) => maps(a, x, i as usize, b, r),
        (None, None) => r == Ok::<Tensor, Error>(x),
        _ => false,
    }
}

/// The mapper can become `after` where it is told that `past_kv` positions are already cached.
pub open spec fn is_told<M: DeviceMapper>(
    before: Option<M>,
    past_kv: u32,
    after: Option<M>,
) -> bool {
    match (before, after) {
        (Some(a), Some(b)) => tells(a, past_kv, b),
        (None, None) => true,
        _ => false,
    }
}

/// What a host does at layer `i`: it has hidden states taken to the layer, once, and runs the
/// layer on them if it has its weights.
pub open spec fn hosts<Q: QuantMethod, N: Norm, M: DeviceMapper, K: Kernels, S: Surroundings>(
    before: Stage<Q, N, CacheOf<S>>,
    after: Stage<Q, N, CacheOf<S>>,
    ctx: CallContext<'_, K, S>,
    mask: MaskOf<S>,
) -> spec_fn(int, (Option<M>, Tensor), (Option<M>, Tensor)) -> bool {
    |i: int, u: (Option<M>, Tensor), v: (Option<M>, Tensor)|
        exists|m: Tensor| #[trigger]
            is_mapped(u.0, u.1, i, v.0, Ok(m)) && runs(before, after, ctx, mask)(i, m, v.1)
}

/// The layers have kept their weights, and there are as many caches.
pub open spec fn same_layers<Q: QuantMethod, N: Norm, C>(
    before: Stage<Q, N, C>,
    after: Stage<Q, N, C>,
) -> bool {
    &&& after.cache.len() == before.cache.len()
    &&& after.layers.len() == before.layers.len()
    &&& forall|i: int|
        0 <= i < before.layers.len() ==> match (#[trigger] after.layers[i], before.layers[i]) {
            (Some(b), Some(a)) => b.same_weights(&a),
            (None, None) => true,
            _ => false,
        }
}

/// Layer `i` and its cache are as before.
pub open spec fn same_at<Q, N, C>(before: Stage<Q, N, C>, after: Stage<Q, N, C>, i: int) -> bool {
    &&& 0 <= i < before.layers.len() ==> after.layers[i] == before.layers[i]
    &&& 0 <= i < before.cache.len() ==> after.cache[i] == before.cache[i]
}

/// The layers from `from` on are as before.
pub open spec fn same_from<Q, N, C>(
    before: Stage<Q, N, C>,
    after: Stage<Q, N, C>,
    from: int,
) -> bool {
    forall|i: int| from <= i ==> #[trigger] same_at(before, after, i)
}

/// A host was stopped on its way: it has been through some layers, then the mapper or a layer has
/// refused, and nothing has come of those behind.
pub open spec fn is_halted<Q: QuantMethod, N: Norm, M: DeviceMapper, K: Kernels, S: Surroundings>(
    before: Stage<Q, N, CacheOf<S>>,
    after: Stage<Q, N, CacheOf<S>>,
    ctx: CallContext<'_, K, S>,
    mask: MaskOf<S>,
    start: (Option<M>, Tensor),
    end: Option<M>,
) -> bool {
    exists|k: int, u: (Option<M>, Tensor)|
        {
            &&& 0 <= k < before.layers.len()
            &&& #[trigger] chain(hosts(before, after, ctx, mask), 0, k, start, u)
            &&& same_from(before, after, k + 1)
            &&& exists|r: Result<Tensor, Error>| #[trigger]
                is_mapped(u.0, u.1, k, end, r) && match r {
                    Ok(m) => touches(before, after, ctx, k, m),
                    Err(_) => same_at(before, after, k),
                }
        }
}

/// Takes hidden states to a layer.
fn mapped<M: DeviceMapper>(mapper: Option<M>, x: Tensor, layer: usize) -> (r: (
    Option<M>,
    Result<Tensor, Error>,
))
    ensures
        is_mapped(mapper, x, layer as int, r.0, r.1),
{
    match mapper {
        Some(m) => {
            let (after, y) = m.map(x, layer);
            assert(maps(m, x, layer, after, y));
            (Some(after), y)
        },
        None => (None, Ok(x)),
    }
}

/// Tells the mapper how many positions are already cached.
fn told<M: DeviceMapper>(mapper: Option<M>, past_kv: u32) -> (r: Option<M>)
    ensures
        is_told(mapper, past_kv, r),
{
    match mapper {
        Some(m) => {
            let after = m.set_past_kv(past_kv);
            assert(tells(m, past_kv, after));
            Some(after)
        },
        None => None,
    }
}

/// Runs a layer on hidden states, if it has weights.
fn run_layer<Q: QuantMethod, N: Norm, K: Kernels, S: Surroundings>(
    layers: &mut Vec<Option<LayerWeights<Q, N>>>,
    cache: &mut Vec<CacheOf<S>>,
    ctx: &CallContext<'_, K, S>,
    mask: &MaskOf<S>,
    i: usize,
    x: Tensor,
) -> (r: Result<Tensor, TensorError>)
    requires
        i < old(layers)@.len(),
        old(layers)@[i as int] matches Some(layer) ==> layer.is_ready(
            page_count(*ctx),
            old(cache)@.len(),
            i as int,
        ),
    ensures
        ({
            let before = Stage { layers: old(layers)@, cache: old(cache)@ };
            let after = Stage { layers: final(layers)@, cache: final(cache)@ };
            &&& after.layers.len() == before.layers.len()
            &&& after.cache.len() == before.cache.len()
            &&& forall|j: int| j != i ==> #[trigger] same_at(before, after, j)
            &&& match (after.layers[i as int], before.layers[i as int]) {
                (Some(b), Some(a)) => b.same_weights(&a),
                (None, None) => true,
                _ => false,
            }
            &&& r matches Ok(y) ==> runs(before, after, *ctx, *mask)(i as int, x, y)
            &&& touches(before, after, *ctx, i as int, x)
            &&& plain(x) && (before.layers[i as int] matches Some(layer) ==> layer.is_obliged(
                *ctx,
                *mask,
                cache_of(before.cache, i as int),
                i,
                tensor_dims(x),
            )) ==> (r matches Ok(y) && plain(y) && tensor_dims(y) == tensor_dims(x))
        }),
{
    let mut layer: Option<LayerWeights<Q, N>> = None;
    layers.set_and_swap(i, &mut layer);
    let r = match &mut layer {
        None => Ok(x),
        Some(l) => l.forward(ctx, mask, cache, i, &x),
    };
    layers.set_and_swap(i, &mut layer);
    proof {
        let before = Stage { layers: old(layers)@, cache: old(cache)@ };
        let after = Stage { layers: layers@, cache: cache@ };
        assert forall|j: int| j != i implies #[trigger] same_at(before, after, j) by {}
    }
    r
}

/// Takes hidden states through all layers: each time to the layer, and then through it.
fn host_layers<Q: QuantMethod, N: Norm, M: DeviceMapper, K: Kernels, S: Surroundings>(
    layers: &mut Vec<Option<LayerWeights<Q, N>>>,
    cache: &mut Vec<CacheOf<S>>,
    mapper: Option<M>,
    ctx: &CallContext<'_, K, S>,
    mask: &MaskOf<S>,
    h0: &Tensor,
) -> (r: (Option<M>, Result<Tensor, TensorError>))
    requires
        forall|i: int|
            0 <= i < old(layers)@.len() ==> (#[trigger] old(layers)@[i] matches Some(layer)
                ==> layer.is_ready(page_count(*ctx), old(cache)@.len(), i)),
    ensures
        ({
            let before = Stage { layers: old(layers)@, cache: old(cache)@ };
            let after = Stage { layers: final(layers)@, cache: final(cache)@ };
            let n = before.layers.len() as int;
            &&& same_layers(before, after)
            &&& same_from(before, after, n)
            &&& match r.1 {
                Ok(h) => chain(
                    hosts(before, after, *ctx, *mask),
                    0,
                    n,
                    (mapper, *h0),
                    (r.0, h),
                ),
                Err(_) => is_halted(before, after, *ctx, *mask, (mapper, *h0), r.0),
            }
            &&& plain(*h0) && fits(tensor_dims(*h0)) && stage_obliges(
                before,
                *ctx,
                *mask,
                0,
                n - 1,
                tensor_dims(*h0),
            ) && mapper_is_good(mapper) ==> {
                &&& r.1 matches Ok(h)
                &&& plain(h)
                &&& tensor_dims(h) == tensor_dims(*h0)
            }
        }),
{
    let ghost before = Stage { layers: layers@, cache: cache@ };
    let ghost dims = tensor_dims(*h0);
    let ghost start = (mapper, *h0);
    let ghost good: spec_fn(M) -> bool = choose|good: spec_fn(M) -> bool| #[trigger]
        mappers_oblige(good) && (mapper matches Some(m) ==> good(m));
    let ghost obliged = plain(*h0) && fits(dims) && stage_obliges(
        before,
        *ctx,
        *mask,
        0,
        before.layers.len() - 1,
        dims,
    ) && mapper_is_good(mapper);
    let mut at = mapper;
    let mut h = h0.clone();
    let n: usize = layers.len();
    let mut i: usize = 0;
    while i < n
        invariant
            i <= n == layers@.len() == before.layers.len(),
            dims == tensor_dims(*h0),
            before.layers == old(layers)@,
            before.cache == old(cache)@,
            start == (mapper, *h0),
            forall|j: int|
                0 <= j < before.layers.len() ==> (#[trigger] before.layers[j] matches Some(layer)
                    ==> layer.is_ready(page_count(*ctx), before.cache.len(), j)),
            same_layers(before, Stage { layers: layers@, cache: cache@ }),
            same_from(before, Stage { layers: layers@, cache: cache@ }, i as int),
            chain(
                hosts(before, Stage { layers: layers@, cache: cache@ }, *ctx, *mask),
                0,
                i as int,
                start,
                (at, h),
            ),
            obliged == (plain(*h0) && fits(dims) && stage_obliges(
                before,
                *ctx,
                *mask,
                0,
                before.layers.len() - 1,
                dims,
            ) && mapper_is_good(mapper)),
            obliged ==> {
                &&& plain(h)
                &&& tensor_dims(h) == dims
                &&& fits(dims)
                &&& mappers_oblige(good)
                &&& at matches Some(m) ==> good(m)
                &&& stage_obliges(before, *ctx, *mask, 0, before.layers.len() - 1, dims)
            },
        decreases n - i,
    {
        let ghost known = Stage { layers: layers@, cache: cache@ };
        let ghost u = (at, h);
        assert(same_at(before, known, i as int));
        let (next, answer) = mapped(at, h, i);
        at = next;
        assert(is_mapped(u.0, u.1, i as int, at, answer));
        proof {
            if obliged && u.0 is Some {
                assert(mapper_obliges(u.0->0));
                assert(maps(u.0->0, u.1, i, at->0, answer));
            }
        }
        let m = match answer {
            Ok(m) => m,
            Err(e) => {
                proof {
                    assert(same_from(before, known, i + 1));
                    assert(is_halted(before, known, *ctx, *mask, start, at));
                    assert forall|j: int| n <= j implies #[trigger] same_at(before, known, j) by {}
                }
                return (at, Err(TensorError::Candle(e)));
            },
        };
        proof {
            if obliged {
                assert(before.layers[i as int] matches Some(layer) ==> layer.is_obliged(
                    *ctx,
                    *mask,
                    cache_of(before.cache, i as int),
                    i,
                    dims,
                ));
            }
        }
        let out = run_layer(layers, cache, ctx, mask, i, m);
        let ghost now = Stage { layers: layers@, cache: cache@ };
        proof {
            let f = hosts::<Q, N, M, K, S>(before, known, *ctx, *mask);
            let g = hosts::<Q, N, M, K, S>(before, now, *ctx, *mask);
            assert forall|j: int| j > i implies #[trigger] same_at(before, now, j) by {
                assert(same_at(before, known, j));
                assert(same_at(known, now, j));
            }
            assert forall|j: int, x: (Option<M>, Tensor), y: (Option<M>, Tensor)|
                0 <= j < i implies #[trigger] f(j, x, y) == g(j, x, y) by {
                assert(same_at(known, now, j));
                host_same(before, known, now, *ctx, *mask, j, x, y);
            }
            chain_agrees(f, g, 0, i as int, start, u);
            assert forall|j: int| 0 <= j < before.layers.len() implies match (
                #[trigger] now.layers[j],
                before.layers[j],
            ) {
                (Some(b), Some(a)) => b.same_weights(&a),
                (None, None) => true,
                _ => false,
            } by {
                if j != i {
                    assert(same_at(known, now, j));
                }
                assert(known.layers[j] == known.layers[j]);
            }
            stage_split(before, known, now, *ctx, *mask, i as int, m);
        }
        h = match out {
            Ok(y) => y,
            Err(e) => {
                proof {
                    assert(touches(before, now, *ctx, i as int, m));
                    assert(is_halted(before, now, *ctx, *mask, start, at));
                }
                return (at, Err(e));
            },
        };
        proof {
            let g = hosts::<Q, N, M, K, S>(before, now, *ctx, *mask);
            let v = (at, h);
            let step = i as int;
            assert(is_mapped(u.0, u.1, step, v.0, Ok(m)) && runs(before, now, *ctx, *mask)(
                step,
                m,
                v.1,
            ));
            assert(g(step, u, v));
            assert(takes(g, step, u, v));
            chain_grows(g, step, start, u, v);
        }
        i += 1;
    }
    (at, Ok(h))
}

/// Where a layer has not run yet, it runs as it would have from the start.
proof fn stage_split<Q: QuantMethod, N: Norm, K: Kernels, S: Surroundings>(
    before: Stage<Q, N, CacheOf<S>>,
    known: Stage<Q, N, CacheOf<S>>,
    now: Stage<Q, N, CacheOf<S>>,
    ctx: CallContext<'_, K, S>,
    mask: MaskOf<S>,
    i: int,
    x: Tensor,
)
    requires
        0 <= i < before.layers.len(),
        same_at(before, known, i),
        known.cache.len() == before.cache.len(),
    ensures
        touches(known, now, ctx, i, x) == touches(before, now, ctx, i, x),
        forall|y: Tensor| #[trigger]
            runs(known, now, ctx, mask)(i, x, y) == runs(before, now, ctx, mask)(i, x, y),
{
    assert(cache_of(known.cache, i) == cache_of(before.cache, i));
}

/// Nothing is in the way of running layers `first` to `last` on a tensor of these dimensions,
/// under a mask.
pub open spec fn stage_obliges<Q: QuantMethod, N: Norm, K: Kernels, S: Surroundings>(
    stage: Stage<Q, N, CacheOf<S>>,
    ctx: CallContext<'_, K, S>,
    mask: MaskOf<S>,
    first: int,
    last: int,
    dims: Seq<usize>,
) -> bool {
    forall|i: int|
        0 <= i < stage.layers.len() && first <= i <= last ==> (#[trigger] stage.layers[i]
            matches Some(layer) ==> layer.is_obliged(
            ctx,
            mask,
            cache_of(stage.cache, i),
            i as usize,
            dims,
        ))
}

/// The mapper, if there is one, obliges, and goes on to do so.
pub open spec fn mapper_is_good<M: DeviceMapper>(mapper: Option<M>) -> bool {
    exists|good: spec_fn(M) -> bool| #[trigger]
        mappers_oblige(good) && (mapper matches Some(m) ==> good(m))
}

/// What a host does at a layer depends on that layer's own state alone.
proof fn host_same<Q: QuantMethod, N: Norm, M: DeviceMapper, K: Kernels, S: Surroundings>(
    before: Stage<Q, N, CacheOf<S>>,
    a: Stage<Q, N, CacheOf<S>>,
    b: Stage<Q, N, CacheOf<S>>,
    ctx: CallContext<'_, K, S>,
    mask: MaskOf<S>,
    i: int,
    u: (Option<M>, Tensor),
    v: (Option<M>, Tensor),
)
    requires
        0 <= i < a.layers.len(),
        same_at(a, b, i),
        a.cache.len() == b.cache.len(),
    ensures
        hosts::<Q, N, M, K, S>(before, a, ctx, mask)(i, u, v) == hosts::<Q, N, M, K, S>(
            before,
            b,
            ctx,
            mask,
        )(i, u, v),
{
    let f = hosts::<Q, N, M, K, S>(before, a, ctx, mask);
    let g = hosts::<Q, N, M, K, S>(before, b, ctx, mask);
    assert(cache_of(a.cache, i) == cache_of(b.cache, i));
    assert forall|x: Tensor, y: Tensor| #[trigger]
        runs(before, a, ctx, mask)(i, x, y) == runs(before, b, ctx, mask)(i, x, y) by {}
    if f(i, u, v) {
        let m = choose|m: Tensor| #[trigger]
            is_mapped(u.0, u.1, i, v.0, Ok(m)) && runs(before, a, ctx, mask)(i, m, v.1);
        assert(is_mapped(u.0, u.1, i, v.0, Ok(m)) && runs(before, b, ctx, mask)(i, m, v.1));
    }
    if g(i, u, v) {
        let m = choose|m: Tensor| #[trigger]
            is_mapped(u.0, u.1, i, v.0, Ok(m)) && runs(before, b, ctx, mask)(i, m, v.1);
        assert(runs(before, a, ctx, mask)(i, m, v.1) == runs(before, b, ctx, mask)(i, m, v.1));
        assert(is_mapped(u.0, u.1, i, v.0, Ok(m)) && runs(before, a, ctx, mask)(i, m, v.1));
    }
}

impl<Q: QuantMethod, N: Norm, M: DeviceMapper, C> ModelWeights<Q, N, M, C> {
    /// The layers with what they keep.
    pub open spec fn stage(&self) -> Stage<Q, N, C> {
        Stage { layers: self.layers@, cache: self.cache@ }
    }

    /// Layers `first` to `last` can be run where there are pages for `pages` layers and caches for
    /// `caches`.
    pub open spec fn is_ready(
        &self,
        first: int,
        last: int,
        pages: Option<nat>,
        caches: nat,
    ) -> bool {
        forall|i: int|
            0 <= i < self.layers@.len() && first <= i <= last ==> (#[trigger] self.layers@[i]
                matches Some(layer) ==> layer.is_ready(pages, caches, i))
    }

    /// Whether layers `start_layer` to `end_layer` can be run where there are pages for `pages`
    /// layers and caches for `caches`.
    pub fn can_run(
        &self,
        start_layer: usize,
        end_layer: usize,
        pages: Option<usize>,
        caches: usize,
    ) -> (r: bool)
        ensures
            r == self.is_ready(
                start_layer as int,
                end_layer as int,
                match pages {
                    Some(n) => Some(n as nat),
                    None => None,
                },
                caches as nat,
            ),
    {
        let ghost count = match pages {
            Some(n) => Some(n as nat),
            None => None,
        };
        let n: usize = self.layers.len();
        let mut i: usize = 0;
        while i < n
            invariant
                i <= n == self.layers@.len(),
                count == (match pages {
                    Some(k) => Some(k as nat),
                    None => None,
                }),
                forall|j: int|
                    0 <= j < i && start_layer <= j <= end_layer ==> (#[trigger] self.layers@[j]
                        matches Some(layer) ==> layer.is_ready(count, caches as nat, j)),
            decreases n - i,
        {
            if start_layer <= i && i <= end_layer {
                if let Some(layer) = &self.layers[i] {
                    let ready = match &layer.mixer {
                        Mixer::Attention(attn) => i < caches && match pages {
                            Some(k) => i < k,
                            None => !attn.paged,
                        },
                        Mixer::Ssm { ssm, .. } => ssm.has_sizes(),
                    };
                    if !ready {
                        assert(!layer.is_ready(count, caches as nat, i as int));
                        assert(self.layers@[i as int] == Some(*layer));
                        return false;
                    }
                }
            }
            i += 1;
        }
        true
    }

    /// Everything but the layers, their caches and the mapper is the same.
    pub open spec fn same_frame(&self, other: &Self) -> bool {
        &&& self.tok_embeddings == other.tok_embeddings
        &&& self.embedding_length == other.embedding_length
        &&& self.norm == other.norm
        &&& self.output == other.output
        &&& self.device == other.device
        &&& self.max_seq_len == other.max_seq_len
        &&& self.dtype == other.dtype
    }

    /// `h` is what the table holds for the token ids.
    pub open spec fn is_embedded(&self, ids: Tensor, h: Tensor) -> bool {
        &&& tensor_dims(h) == tensor_dims(ids).push(self.embedding_length)
        &&& embedding_outcome(
            tensor_dims(self.tok_embeddings),
            tensor_words(self.tok_embeddings),
            tensor_words(ids),
            tensor_words(h),
        )
        &&& tensor_ids(ids) matches Some(named) ==> {
            &&& tensor_dims(self.tok_embeddings).len() > 0
            &&& ids_known(named, tensor_dims(self.tok_embeddings)[0])
            &&& tensor_words(h) == looked_up(
                tensor_words(self.tok_embeddings),
                count(tensor_dims(self.tok_embeddings).skip(1)),
                named,
            )
        }
    }

    /// The table is in main memory as 32-bit floats, one next to the other.
    pub open spec fn has_plain_table(&self) -> bool {
        plain(self.tok_embeddings) && tensor_is_dense(self.tok_embeddings)
    }

    /// Token ids can be looked up: each is known, a row of the table has the size that hidden
    /// states have, and what comes out fits in memory. The ids stand in a tensor of dimensions
    /// `dims`.
    pub open spec fn can_embed(&self, dims: Seq<usize>, ids: Seq<u32>) -> bool {
        let table = tensor_dims(self.tok_embeddings);
        let found = table.update(0, count(dims) as usize);
        &&& fits(dims)
        &&& fits(dims.push(self.embedding_length))
        &&& fits(table)
        &&& table.len() > 0
        &&& fits(found)
        &&& count(found) == count(dims.push(self.embedding_length))
        &&& ids_known(ids, table[0])
    }

    /// `r` are logits that can be made of the hidden states `h`.
    pub open spec fn is_output<S: Surroundings>(
        &self,
        around: S,
        h: Tensor,
        context_lens: Vec<(usize, usize)>,
        r: Tensor,
    ) -> bool {
        exists|normed: Tensor, picked: Tensor, dense: Tensor|
            {
                &&& #[trigger] norms(self.norm, h, normed)
                &&& #[trigger] picks(around, normed, context_lens, picked)
                &&& view_of(dense) == view_of(picked)
                &&& #[trigger] projects(self.output, dense, r)
            }
    }

    /// `mask` can be the one that the layers of a host run under: a causal mask for the token ids,
    /// or none for a later part of a prompt whose attention goes over pages.
    pub open spec fn is_host_mask<K, S: Surroundings>(
        &self,
        ctx: CallContext<'_, K, S>,
        ids: Tensor,
        is_first_prompt_chunk: bool,
        mask: MaskOf<S>,
    ) -> bool where S::Attention: AttentionKernels<Cache = C> {
        exists|made: MaskOf<S>|
            {
                &&& #[trigger] makes_mask(
                    *ctx.around,
                    ids,
                    self.mask_past(ctx.start_offsets, ctx.paging is Some),
                    self.dtype,
                    Ok(made),
                )
                &&& if mask_kept(ctx.paging is Some, is_first_prompt_chunk) {
                    mask == made
                } else {
                    hides_nothing(*ctx.around, mask)
                }
            }
    }

    /// Where the mask learns how many positions come before: from the offsets if attention goes
    /// over pages.
    pub open spec fn mask_past<'a>(
        &'a self,
        start_offsets: &'a [usize],
        paged: bool,
    ) -> PastPositions<'a, C> {
        if paged {
            PastPositions::Offsets(start_offsets)
        } else {
            PastPositions::Cache(&self.cache)
        }
    }

    /// `r` are logits that can come out of the model where the token ids go in, while it becomes
    /// `after`.
    pub open spec fn is_forward<K: Kernels, S: Surroundings>(
        &self,
        after: &Self,
        ctx: CallContext<'_, K, S>,
        ids: Tensor,
        context_lens: Vec<(usize, usize)>,
        is_first_prompt_chunk: bool,
        r: Tensor,
    ) -> bool where S::Attention: AttentionKernels<Cache = C> {
        exists|h0: Tensor| #[trigger]
            self.is_embedded(ids, h0) && self.is_hosted(
                after,
                ctx,
                ids,
                h0,
                context_lens,
                is_first_prompt_chunk,
                r,
            )
    }

    /// `r` are logits that can come out of the model where the hidden states `h0` of the token ids
    /// go in, while it becomes `after`: a mask is made, the mapper is told how many positions come
    /// before, then hidden states go through all layers, and logits are made of them.
    pub open spec fn is_hosted<K: Kernels, S: Surroundings>(
        &self,
        after: &Self,
        ctx: CallContext<'_, K, S>,
        ids: Tensor,
        h0: Tensor,
        context_lens: Vec<(usize, usize)>,
        is_first_prompt_chunk: bool,
        r: Tensor,
    ) -> bool where S::Attention: AttentionKernels<Cache = C> {
        exists|mask: MaskOf<S>, start: Option<M>, h: Tensor|
            {
                &&& #[trigger] self.is_host_mask(ctx, ids, is_first_prompt_chunk, mask)
                &&& #[trigger] is_told(self.mapper, first_offset(ctx.start_offsets@), start)
                &&& chain(
                    hosts(self.stage(), after.stage(), ctx, mask),
                    0,
                    self.layers@.len() as int,
                    (start, h0),
                    (after.mapper, h),
                )
                &&& #[trigger] self.is_output(*ctx.around, h, context_lens, r)
            }
    }

    /// What the model keeps can become that of `after` where the hidden states `h0` of the token
    /// ids go in and no logits come out: it stays, or the model was stopped on its way.
    pub open spec fn is_left<K: Kernels, S: Surroundings>(
        &self,
        after: &Self,
        ctx: CallContext<'_, K, S>,
        ids: Tensor,
        h0: Tensor,
        is_first_prompt_chunk: bool,
    ) -> bool where S::Attention: AttentionKernels<Cache = C> {
        ||| after.stage() == self.stage() && after.mapper == self.mapper
        ||| exists|mask: MaskOf<S>, start: Option<M>|
            {
                &&& #[trigger] self.is_host_mask(ctx, ids, is_first_prompt_chunk, mask)
                &&& #[trigger] is_told(self.mapper, first_offset(ctx.start_offsets@), start)
                &&& {
                    ||| is_halted(
                        self.stage(),
                        after.stage(),
                        ctx,
                        mask,
                        (start, h0),
                        after.mapper,
                    )
                    ||| exists|h: Tensor| #[trigger]
                        chain(
                            hosts(self.stage(), after.stage(), ctx, mask),
                            0,
                            self.layers@.len() as int,
                            (start, h0),
                            (after.mapper, h),
                        )
                }
            }
    }

    /// Nothing is in the way of running the whole model on hidden states of these dimensions: a
    /// mask is made, the mapper and all layers oblige, and so does what makes the logits.
    pub open spec fn is_host_obliged<K: Kernels, S: Surroundings>(
        &self,
        ctx: CallContext<'_, K, S>,
        ids: Tensor,
        dims: Seq<usize>,
        context_lens: Vec<(usize, usize)>,
        is_first_prompt_chunk: bool,
    ) -> bool where S::Attention: AttentionKernels<Cache = C> {
        &&& dims.len() == 3
        &&& fits(dims)
        &&& forall|r: Result<MaskOf<S>, Error>| #[trigger]
            makes_mask(
                *ctx.around,
                ids,
                self.mask_past(ctx.start_offsets, ctx.paging is Some),
                self.dtype,
                r,
            ) ==> r is Ok
        &&& forall|mask: MaskOf<S>| #[trigger]
            self.is_host_mask(ctx, ids, is_first_prompt_chunk, mask) ==> stage_obliges(
                self.stage(),
                ctx,
                mask,
                0,
                self.layers@.len() - 1,
                dims,
            )
        &&& mapper_is_good(self.mapper)
        &&& norm_obliges(self.norm)
        &&& choice_obliges(*ctx.around, context_lens)
        &&& output_obliges(self.output, dims[2])
    }

    /// Looks token ids up.
    fn embed(&self, ids: &Tensor) -> (r: Result<Tensor, TensorError>)
        ensures
            r matches Ok(h) ==> self.is_embedded(*ids, h),
            tensor_ids(*ids) matches Some(named) ==> (self.has_plain_table() ==> {
                &&& r is Ok <==> self.can_embed(tensor_dims(*ids), named)
                &&& r matches Ok(h) ==> plain(h)
            }),
    {
        let d = shape(ids)?;
        let n: usize = elements(d.as_slice());
        let mut wide = d;
        wide.push(self.embedding_length);
        if !dims_fit(wide.as_slice()) {
            return Err(TensorError::TooLarge);
        }
        let mut rows = shape(&self.tok_embeddings)?;
        if rows.len() > 0 {
            rows.set(0, n);
            if !dims_fit(rows.as_slice()) {
                return Err(TensorError::TooLarge);
            }
        }
        let table = settled(&self.tok_embeddings)?;
        let ids = settled(ids)?;
        lift(candle_embed(&table, self.embedding_length, &ids))
    }

    /// The mask that the layers of a host run under.
    fn host_mask<K, S: Surroundings>(
        &self,
        ctx: &CallContext<'_, K, S>,
        ids: &Tensor,
        is_first_prompt_chunk: bool,
    ) -> (r: Result<MaskOf<S>, TensorError>) where S::Attention: AttentionKernels<Cache = C>
        ensures
            r matches Ok(mask) ==> self.is_host_mask(*ctx, *ids, is_first_prompt_chunk, mask),
            r is Err ==> exists|a: Result<MaskOf<S>, Error>| #[trigger]
                makes_mask(
                    *ctx.around,
                    *ids,
                    self.mask_past(ctx.start_offsets, ctx.paging is Some),
                    self.dtype,
                    a,
                ) && a is Err,
    {
        let paged = ctx.paging.is_some();
        let past = if paged {
            PastPositions::Offsets(ctx.start_offsets)
        } else {
            PastPositions::Cache(&self.cache)
        };
        let made = ctx.around.causal_mask(ids, past, self.dtype);
        assert(makes_mask(
            *ctx.around,
            *ids,
            self.mask_past(ctx.start_offsets, paged),
            self.dtype,
            made,
        ));
        match made {
            Ok(mask) => {
                if !paged || is_first_prompt_chunk {
                    Ok(mask)
                } else {
                    let none = ctx.around.no_mask();
                    assert(hides_nothing(*ctx.around, none));
                    Ok(none)
                }
            },
            Err(e) => Err(TensorError::Candle(e)),
        }
    }

    /// Makes logits of hidden states.
    fn finish<S: Surroundings>(
        &self,
        around: &S,
        h: &Tensor,
        context_lens: &Vec<(usize, usize)>,
    ) -> (r: Result<Tensor, TensorError>)
        ensures
            r matches Ok(u) ==> self.is_output(*around, *h, *context_lens, u),
            plain(*h) && tensor_dims(*h).len() == 3 && fits(tensor_dims(*h)) && norm_obliges(
                self.norm,
            ) && choice_obliges(*around, *context_lens) && output_obliges(
                self.output,
                tensor_dims(*h)[2],
            ) ==> r is Ok,
    {
        let normed = lift(self.norm.forward(h))?;
        let picked = lift(around.extract_logits(&normed, context_lens))?;
        let dense = contiguous(&picked)?;
        let a = self.output.forward(&dense);
        assert(answers(self.output, dense, a));
        let u = lift(a)?;
        proof {
            assert(norms(self.norm, *h, normed));
            assert(picks(*around, normed, *context_lens, picked));
            assert(projects(self.output, dense, u));
        }
        Ok(u)
    }

    /// Runs the whole model on token ids: looks them up in the table, and runs the layers on what
    /// was found.
    pub fn forward<K: Kernels, S: Surroundings>(
        &mut self,
        ctx: &CallContext<'_, K, S>,
        ids: &Tensor,
        context_lens: &Vec<(usize, usize)>,
        is_first_prompt_chunk: bool,
    ) -> (r: Result<Tensor, TensorError>) where S::Attention: AttentionKernels<Cache = C>
        requires
            old(self).is_ready(
                0,
                old(self).layers@.len() - 1,
                page_count(*ctx),
                old(self).cache@.len(),
            ),
        ensures
            final(self).same_frame(old(self)),
            same_layers(old(self).stage(), final(self).stage()),
            same_from(old(self).stage(), final(self).stage(), old(self).layers@.len() as int),
            match r {
                Ok(u) => old(self).is_forward(
                    final(self),
                    *ctx,
                    *ids,
                    *context_lens,
                    is_first_prompt_chunk,
                    u,
                ),
                Err(_) => {
                    ||| final(self).stage() == old(self).stage() && final(self).mapper == old(
                        self,
                    ).mapper
                    ||| exists|h0: Tensor| #[trigger]
                        old(self).is_embedded(*ids, h0) && old(self).is_left(
                            final(self),
                            *ctx,
                            *ids,
                            h0,
                            is_first_prompt_chunk,
                        )
                },
            },
            tensor_ids(*ids) matches Some(named) ==> (old(self).has_plain_table() && old(
                self,
            ).can_embed(tensor_dims(*ids), named) && old(self).is_host_obliged(
                *ctx,
                *ids,
                tensor_dims(*ids).push(old(self).embedding_length),
                *context_lens,
                is_first_prompt_chunk,
            ) ==> r is Ok),
    {
        let h0 = self.embed(ids)?;
        assert(old(self).is_embedded(*ids, h0));
        self.forward_hidden(ctx, ids, &h0, context_lens, is_first_prompt_chunk)
    }

    /// Runs the layers on the hidden states of token ids, and makes logits. A mask is made for the
    /// ids, and in use unless the call is for a later part of a prompt whose attention goes over
    /// pages; the mapper learns how many positions come before, and then takes hidden states to
    /// each layer.
    pub fn forward_hidden<K: Kernels, S: Surroundings>(
        &mut self,
        ctx: &CallContext<'_, K, S>,
        ids: &Tensor,
        h0: &Tensor,
        context_lens: &Vec<(usize, usize)>,
        is_first_prompt_chunk: bool,
    ) -> (r: Result<Tensor, TensorError>) where S::Attention: AttentionKernels<Cache = C>
        requires
            old(self).is_ready(
                0,
                old(self).layers@.len() - 1,
                page_count(*ctx),
                old(self).cache@.len(),
            ),
        ensures
            final(self).same_frame(old(self)),
            same_layers(old(self).stage(), final(self).stage()),
            same_from(old(self).stage(), final(self).stage(), old(self).layers@.len() as int),
            match r {
                Ok(u) => old(self).is_hosted(
                    final(self),
                    *ctx,
                    *ids,
                    *h0,
                    *context_lens,
                    is_first_prompt_chunk,
                    u,
                ),
                Err(_) => old(self).is_left(final(self), *ctx, *ids, *h0, is_first_prompt_chunk),
            },
            plain(*h0) && old(self).is_host_obliged(
                *ctx,
                *ids,
                tensor_dims(*h0),
                *context_lens,
                is_first_prompt_chunk,
            ) ==> r is Ok,
    {
        let ghost dims = tensor_dims(*h0);
        let ghost before = self.stage();
        let mask = self.host_mask(ctx, ids, is_first_prompt_chunk)?;
        let ghost was = self.mapper;
        let start = told(self.mapper.take(), past_kv_of(ctx.start_offsets));
        proof {
            assert(is_told(was, first_offset(ctx.start_offsets@), start));
            told_stays_good(was, first_offset(ctx.start_offsets@), start);
            assert(self.stage() == before);
            assert forall|i: int| 0 <= i < self.layers@.len() implies (#[trigger] self.layers@[i]
                matches Some(layer) ==> layer.is_ready(
                page_count(*ctx),
                self.cache@.len(),
                i,
            )) by {
                assert(old(self).layers@[i] == self.layers@[i]);
            }
        }
        let ghost from = start;
        let (end, out) = host_layers(
            &mut self.layers,
            &mut self.cache,
            start,
            ctx,
            &mask,
            h0,
        );
        self.mapper = end;
        proof {
            assert(self.stage() == Stage { layers: self.layers@, cache: self.cache@ });
            assert(old(self).is_host_mask(*ctx, *ids, is_first_prompt_chunk, mask));
        }
        let h = out?;
        assert(chain(
            hosts(before, self.stage(), *ctx, mask),
            0,
            before.layers.len() as int,
            (from, *h0),
            (self.mapper, h),
        ));
        let u = self.finish(ctx.around, &h, context_lens)?;
        proof {
            assert(self.is_output(*ctx.around, h, *context_lens, u));
            assert(old(self).is_output(*ctx.around, h, *context_lens, u));
        }
        Ok(u)
    }
}

/// A mapper that obliges goes on to do so when it has been told how many positions are cached.
proof fn told_stays_good<M: DeviceMapper>(before: Option<M>, past_kv: u32, after: Option<M>)
    requires
        is_told(before, past_kv, after),
    ensures
        mapper_is_good(before) ==> mapper_is_good(after),
{
    if mapper_is_good(before) {
        let good = choose|good: spec_fn(M) -> bool| #[trigger]
            mappers_oblige(good) && (before matches Some(m) ==> good(m));
        if let Some(a) = before {
            assert(tells(a, past_kv, after->0));
        }
        assert(mappers_oblige(good) && (after matches Some(m) ==> good(m)));
    }
}

/// What a worker's model is given at one call beside its input.
pub open spec fn worker_context<'a, K, S: Surroundings>(
    kernels: &'a K,
    around: &'a S,
    offsets: &'a [usize],
) -> CallContext<'a, K, S> {
    CallContext { kernels, around, start_offsets: offsets, paging: None }
}

impl<Q: QuantMethod, N: Norm, M: DeviceMapper, C> ModelWeights<Q, N, M, C> {
    /// `mask` can be the one that a worker runs `len` positions under, before which come `past`
    /// others: a causal mask, or none for a single position.
    pub open spec fn is_worker_mask<S: Surroundings>(
        &self,
        around: S,
        len: usize,
        past: usize,
        mask: MaskOf<S>,
    ) -> bool {
        if len > 1 {
            makes_mask_for(around, len, past, self.dtype, self.device, Ok(mask))
        } else {
            hides_nothing(around, mask)
        }
    }

    /// `r` can come out of layers `first` to `last` where `hidden` goes in, under a mask, while the
    /// layers go from those of `self` and `cache0` to those of `after` and `cache1`.
    pub open spec fn is_part<K: Kernels, S: Surroundings>(
        &self,
        after: &Self,
        ctx: CallContext<'_, K, S>,
        mask: MaskOf<S>,
        cache0: Seq<CacheOf<S>>,
        cache1: Seq<CacheOf<S>>,
        hidden: Tensor,
        first: int,
        last: int,
        r: Tensor,
    ) -> bool {
        let before = Stage { layers: self.layers@, cache: cache0 };
        let then = Stage { layers: after.layers@, cache: cache1 };
        exists|h0: Tensor, h: Tensor|
            {
                &&& view_of(h0) == view_of(hidden)
                &&& plain(hidden) && device_is_cpu(self.device) ==> plain(h0)
                &&& #[trigger] chain(
                    only(runs(before, then, ctx, mask), first, last),
                    0,
                    self.layers@.len() as int,
                    h0,
                    h,
                )
                &&& view_of(r) == view_of(h)
                &&& tensor_on_cpu(r)
                &&& plain(h) ==> plain(r)
            }
    }

    /// `r` can come back from a call for layers `first` to `last` on `hidden`, of which `past`
    /// positions come before, while the layers go from those of `self` and `cache0` to those of
    /// `after` and `cache1`: they are run under a mask for as many positions, which start there.
    pub open spec fn is_ranged<K: Kernels, S: Surroundings>(
        &self,
        after: &Self,
        kernels: &K,
        around: &S,
        cache0: Seq<CacheOf<S>>,
        cache1: Seq<CacheOf<S>>,
        hidden: Tensor,
        first: int,
        last: int,
        past: usize,
        r: Tensor,
    ) -> bool {
        exists|offsets: &[usize], mask: MaskOf<S>|
            {
                &&& offsets@ == seq![past]
                &&& #[trigger] self.is_worker_mask(*around, tensor_dims(hidden)[1], past, mask)
                &&& self.is_part(
                    after,
                    #[trigger] worker_context(kernels, around, offsets),
                    mask,
                    cache0,
                    cache1,
                    hidden,
                    first,
                    last,
                    r,
                )
            }
    }

    /// What layers `first` to `last` keep can go from that of `self` and `cache0` to that of
    /// `after` and `cache1` where `hidden` goes in, under a mask, and nothing comes out: the layers
    /// have been run up to one that has refused, or all of them.
    pub open spec fn is_part_left<K: Kernels, S: Surroundings>(
        &self,
        after: &Self,
        ctx: CallContext<'_, K, S>,
        mask: MaskOf<S>,
        cache0: Seq<CacheOf<S>>,
        cache1: Seq<CacheOf<S>>,
        hidden: Tensor,
        first: int,
        last: int,
    ) -> bool {
        let before = Stage { layers: self.layers@, cache: cache0 };
        let then = Stage { layers: after.layers@, cache: cache1 };
        exists|h0: Tensor, k: int, x: Tensor|
            {
                &&& view_of(h0) == view_of(hidden)
                &&& 0 <= k <= self.layers@.len()
                &&& #[trigger] chain(
                    only(runs(before, then, ctx, mask), first, last),
                    0,
                    k,
                    h0,
                    x,
                )
                &&& k < self.layers@.len() ==> first <= k <= last && touches(
                    before,
                    then,
                    ctx,
                    k,
                    x,
                )
                &&& same_from(before, then, k + 1)
            }
    }

    /// Nothing is in the way of running layers `first` to `last` on hidden states in main memory,
    /// before which come `past` positions: several positions get a mask, and the layers oblige.
    pub open spec fn is_part_obliged<K: Kernels, S: Surroundings>(
        &self,
        kernels: &K,
        around: &S,
        cache: Seq<CacheOf<S>>,
        dims: Seq<usize>,
        first: int,
        last: int,
        past: usize,
    ) -> bool {
        &&& device_is_cpu(self.device)
        &&& dims[1] > 1 ==> forall|r: Result<MaskOf<S>, Error>| #[trigger]
            makes_mask_for(*around, dims[1], past, self.dtype, self.device, r) ==> r is Ok
        &&& forall|offsets: &[usize], mask: MaskOf<S>|
            offsets@ == seq![past] && #[trigger] self.is_worker_mask(*around, dims[1], past, mask)
                ==> stage_obliges(
                Stage { layers: self.layers@, cache },
                #[trigger] worker_context(kernels, around, offsets),
                mask,
                first,
                last,
                dims,
            )
    }

    /// Runs layers `start_layer` to `end_layer`, both included, on hidden states, of which
    /// `past_kv_len` positions come before. Several positions at once are run under a causal mask.
    /// The result is in main memory.
    pub fn forward_from_layer<K: Kernels, S: Surroundings>(
        &mut self,
        kernels: &K,
        around: &S,
        hidden: &Tensor,
        start_layer: usize,
        end_layer: usize,
        past_kv_len: usize,
        cache: &mut Vec<CacheOf<S>>,
    ) -> (r: Result<Tensor, TensorError>)
        requires
            tensor_dims(*hidden).len() >= 2,
            old(self).is_ready(start_layer as int, end_layer as int, None, old(cache)@.len()),
        ensures
            final(self).same_frame(old(self)),
            final(self).mapper == old(self).mapper,
            final(self).cache == old(self).cache,
            same_layers(
                (Stage { layers: old(self).layers@, cache: old(cache)@ }),
                (Stage { layers: final(self).layers@, cache: final(cache)@ }),
            ),
            forall|i: int|
                !(start_layer <= i <= end_layer && i < old(self).layers@.len()) ==> #[trigger]
                    same_at(
                        (Stage { layers: old(self).layers@, cache: old(cache)@ }),
                        (Stage { layers: final(self).layers@, cache: final(cache)@ }),
                        i,
                    ),
            r matches Ok(u) ==> old(self).is_ranged(
                final(self),
                kernels,
                around,
                old(cache)@,
                final(cache)@,
                *hidden,
                start_layer as int,
                end_layer as int,
                past_kv_len,
                u,
            ),
            r matches Ok(u) ==> (tensor_dims(*hidden)[1] > 1 ==> exists|
                offsets: &[usize],
                mask: MaskOf<S>,
            |
                {
                    &&& offsets@ == seq![past_kv_len]
                    &&& #[trigger] makes_mask_for(
                        *around,
                        tensor_dims(*hidden)[1],
                        past_kv_len,
                        old(self).dtype,
                        old(self).device,
                        Ok(mask),
                    )
                    &&& old(self).is_part(
                        final(self),
                        #[trigger] worker_context(kernels, around, offsets),
                        mask,
                        old(cache)@,
                        final(cache)@,
                        *hidden,
                        start_layer as int,
                        end_layer as int,
                        u,
                    )
                }),
            r is Err ==> {
                ||| final(self).layers@ == old(self).layers@ && final(cache)@ == old(cache)@
                ||| exists|offsets: &[usize], mask: MaskOf<S>|
                    {
                        &&& offsets@ == seq![past_kv_len]
                        &&& #[trigger] old(self).is_worker_mask(
                            *around,
                            tensor_dims(*hidden)[1],
                            past_kv_len,
                            mask,
                        )
                        &&& old(self).is_part_left(
                            final(self),
                            #[trigger] worker_context(kernels, around, offsets),
                            mask,
                            old(cache)@,
                            final(cache)@,
                            *hidden,
                            start_layer as int,
                            end_layer as int,
                        )
                    }
            },
            plain(*hidden) && old(self).is_part_obliged(
                kernels,
                around,
                old(cache)@,
                tensor_dims(*hidden),
                start_layer as int,
                end_layer as int,
                past_kv_len,
            ) ==> (r matches Ok(u) && plain(u) && tensor_dims(u) == tensor_dims(*hidden)),
    {
        let ghost dims = tensor_dims(*hidden);
        let ghost obliged = plain(*hidden) && old(self).is_part_obliged(
            kernels,
            around,
            old(cache)@,
            dims,
            start_layer as int,
            end_layer as int,
            past_kv_len,
        );
        let h0 = lift(candle_to_device(hidden, &self.device))?;
        let len: usize = candle_dims(hidden)[1];
        let offset: [usize; 1] = [past_kv_len];
        let ctx = CallContext {
            kernels,
            around,
            start_offsets: offset.as_slice(),
            paging: None,
        };
        assert(ctx.start_offsets@ =~= seq![past_kv_len]);
        assert(ctx == worker_context(kernels, around, ctx.start_offsets));
        let mask = if len > 1 {
            let made = around.causal_mask_for(len, past_kv_len, self.dtype, &self.device);
            assert(makes_mask_for(*around, len, past_kv_len, self.dtype, self.device, made));
            match made {
                Ok(mask) => mask,
                Err(e) => {
                    return Err(TensorError::Candle(e));
                },
            }
        } else {
            around.no_mask()
        };
        assert(old(self).is_worker_mask(*around, len, past_kv_len, mask));
        let ghost before = Stage { layers: self.layers@, cache: cache@ };
        let ghost first = start_layer as int;
        let ghost last = end_layer as int;
        let mut h = h0.clone();
        let n: usize = self.layers.len();
        let mut i: usize = 0;
        while i < n
            invariant
                i <= n == self.layers@.len() == before.layers.len(),
                before.layers == old(self).layers@,
                before.cache == old(cache)@,
                first == start_layer,
                last == end_layer,
                ctx.paging is None,
                ctx.start_offsets@ == seq![past_kv_len],
                ctx == worker_context(kernels, around, ctx.start_offsets),
                len == tensor_dims(*hidden)[1],
                old(self).is_worker_mask(*around, len, past_kv_len, mask),
                view_of(h0) == view_of(*hidden),
                plain(*hidden) && device_is_cpu(old(self).device) ==> plain(h0),
                self.same_frame(old(self)),
                self.mapper == old(self).mapper,
                self.cache == old(self).cache,
                old(self).is_ready(first, last, None, before.cache.len()),
                same_layers(before, (Stage { layers: self.layers@, cache: cache@ })),
                same_from(before, (Stage { layers: self.layers@, cache: cache@ }), i as int),
                forall|j: int|
                    !(first <= j <= last && j < n) ==> #[trigger] same_at(
                        before,
                        (Stage { layers: self.layers@, cache: cache@ }),
                        j,
                    ),
                chain(
                    only(
                        runs(
                            before,
                            (Stage { layers: self.layers@, cache: cache@ }),
                            ctx,
                            mask,
                        ),
                        first,
                        last,
                    ),
                    0,
                    i as int,
                    h0,
                    h,
                ),
                dims == tensor_dims(*hidden),
                obliged == (plain(*hidden) && old(self).is_part_obliged(
                    kernels,
                    around,
                    before.cache,
                    dims,
                    first,
                    last,
                    past_kv_len,
                )),
                obliged ==> {
                    &&& plain(h)
                    &&& tensor_dims(h) == dims
                    &&& stage_obliges(before, ctx, mask, first, last, dims)
                },
            decreases n - i,
        {
            let ghost known = Stage { layers: self.layers@, cache: cache@ };
            let ghost x = h;
            assert(same_at(before, known, i as int));
            if start_layer <= i && i <= end_layer {
                assert(old(self).layers@[i as int] == self.layers@[i as int]);
                let out = run_layer(&mut self.layers, cache, &ctx, &mask, i, h);
                let ghost now = Stage { layers: self.layers@, cache: cache@ };
                proof {
                    stage_split(before, known, now, ctx, mask, i as int, x);
                    part_goes_on(before, known, now, ctx, mask, first, last, i as int, h0, x);
                }
                h = match out {
                    Ok(y) => y,
                    Err(e) => {
                        proof {
                            assert(chain(
                                only(runs(before, now, ctx, mask), first, last),
                                0,
                                i as int,
                                h0,
                                x,
                            ));
                            assert(old(self).is_part_left(
                                self,
                                worker_context(kernels, around, ctx.start_offsets),
                                mask,
                                old(cache)@,
                                cache@,
                                *hidden,
                                first,
                                last,
                            ));
                        }
                        return Err(e);
                    },
                };
                assert(runs(before, now, ctx, mask)(i as int, x, h));
            }
            proof {
                let now = only(
                    runs(before, (Stage { layers: self.layers@, cache: cache@ }), ctx, mask),
                    first,
                    last,
                );
                assert(takes(now, i as int, x, h));
                chain_grows(now, i as int, h0, x, h);
            }
            i += 1;
        }
        let cpu = candle_cpu();
        let ghost then = Stage { layers: self.layers@, cache: cache@ };
        proof {
            assert(same_from(before, then, n + 1));
            assert(old(self).is_part_left(
                self,
                worker_context(kernels, around, ctx.start_offsets),
                mask,
                old(cache)@,
                cache@,
                *hidden,
                first,
                last,
            ));
        }
        let u = lift(candle_to_device(&h, &cpu))?;
        proof {
            assert(chain(
                only(runs(before, then, ctx, mask), first, last),
                0,
                before.layers.len() as int,
                h0,
                h,
            ));
            assert(old(self).is_part(
                self,
                worker_context(kernels, around, ctx.start_offsets),
                mask,
                old(cache)@,
                cache@,
                *hidden,
                first,
                last,
                u,
            ));
        }
        Ok(u)
    }
}

/// Running one more layer leaves what the layers before have done.
proof fn part_goes_on<Q: QuantMethod, N: Norm, K: Kernels, S: Surroundings>(
    before: Stage<Q, N, CacheOf<S>>,
    known: Stage<Q, N, CacheOf<S>>,
    now: Stage<Q, N, CacheOf<S>>,
    ctx: CallContext<'_, K, S>,
    mask: MaskOf<S>,
    first: int,
    last: int,
    i: int,
    h0: Tensor,
    x: Tensor,
)
    requires
        0 <= i < before.layers.len(),
        first <= i <= last,
        same_layers(before, known),
        now.layers.len() == known.layers.len(),
        now.cache.len() == known.cache.len(),
        forall|j: int| j != i ==> #[trigger] same_at(known, now, j),
        match (now.layers[i], known.layers[i]) {
            (Some(b), Some(a)) => b.same_weights(&a),
            (None, None) => true,
            _ => false,
        },
        same_from(before, known, i),
        forall|j: int|
            !(first <= j <= last && j < before.layers.len()) ==> #[trigger] same_at(
                before,
                known,
                j,
            ),
        chain(only(runs(before, known, ctx, mask), first, last), 0, i, h0, x),
    ensures
        same_layers(before, now),
        same_from(before, now, i + 1),
        forall|j: int|
            !(first <= j <= last && j < before.layers.len()) ==> #[trigger] same_at(
                before,
                now,
                j,
            ),
        chain(only(runs(before, now, ctx, mask), first, last), 0, i, h0, x),
{
    let was = only(runs(before, known, ctx, mask), first, last);
    let then = only(runs(before, now, ctx, mask), first, last);
    assert forall|j: int, u: Tensor, v: Tensor| 0 <= j < i implies #[trigger] was(j, u, v) == then(
        j,
        u,
        v,
    ) by {
        assert(same_at(known, now, j));
        assert(cache_of(known.cache, j) == cache_of(now.cache, j));
    }
    chain_agrees(was, then, 0, i, h0, x);
    assert forall|j: int| j >= i + 1 implies #[trigger] same_at(before, now, j) by {
        assert(same_at(before, known, j));
        assert(same_at(known, now, j));
    }
    assert forall|j: int|
        !(first <= j <= last && j < before.layers.len()) implies #[trigger] same_at(
        before,
        now,
        j,
    ) by {
        assert(same_at(before, known, j));
        assert(same_at(known, now, j));
    }
    assert forall|j: int| 0 <= j < before.layers.len() implies match (
        #[trigger] now.layers[j],
        before.layers[j],
    ) {
        (Some(b), Some(a)) => b.same_weights(&a),
        (None, None) => true,
        _ => false,
    } by {
        assert(known.layers[j] == known.layers[j]);
        if j != i {
            assert(same_at(known, now, j));
        } else {
            assert(same_at(before, known, i));
        }
    }
}

/// The mask is in use: always, but for later parts of a prompt where attention goes over pages.
pub open spec fn mask_kept(paged: bool, is_first_prompt_chunk: bool) -> bool {
    !paged || is_first_prompt_chunk
}

/// How many positions are already cached, as workers are told: the first offset, or none.
pub open spec fn first_offset(start_offsets: Seq<usize>) -> u32 {
    if start_offsets.len() > 0 {
        start_offsets[0] as u32
    } else {
        0
    }
}

/// How many positions are already cached, as workers are told.
pub fn past_kv_of(start_offsets: &[usize]) -> (r: u32)
    ensures
        r == first_offset(start_offsets@),
        start_offsets@.len() > 0 ==> r == start_offsets@[0] as u32,
        start_offsets@.len() == 0 ==> r == 0,
{
    if start_offsets.len() > 0 {
        start_offsets[0] as u32
    } else {
        0
    }
}

} // verus!
