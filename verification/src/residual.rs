//! Layers add to what they are given: hidden states go through them, and each part of a layer adds
//! what it makes of them.
use candle_core::Tensor;
use vstd::prelude::*;

use crate::backend::{
    norms, picks, projects, serves, AttentionKernels, CacheOf, DeviceMapper, Kernels, MaskOf, Norm,
    QuantMethod, Surroundings,
};
use crate::chain::{chain, chain_of_only, only, takes};
use crate::lookback::mlp_opened;
use crate::model::{
    cache_of, pages_of, runs, CallContext, LayerWeights, Mixer, ModelWeights, Stage,
};
use crate::moe::MoeOrMlp;
use crate::ops::is_sum;
use crate::ranges::{hosted_opened, stays};
use crate::shape::{consistent, count, TensorView};
use crate::tensor::{
    device_is_cpu, plain, sum_of, tensor_dims, tensor_on_cpu, tensor_words, view_of,
};

verus! {

/// All elements are zero.
pub open spec fn is_nothing(t: Tensor) -> bool {
    forall|i: int| 0 <= i < count(tensor_dims(t)) ==> #[trigger] tensor_words(t)[i] == 0
}

/// The weight makes zeros of whatever it is given.
pub open spec fn weight_is_silent<Q: QuantMethod>(w: Q) -> bool {
    forall|x: Tensor, y: Tensor| #[trigger] projects(w, x, y) ==> is_nothing(y)
}

/// What mixes positions makes zeros in the end: its last weight does.
pub open spec fn mixer_is_silent<Q: QuantMethod>(mixer: Mixer<Q>) -> bool {
    match mixer {
        Mixer::Attention(a) => weight_is_silent(a.attention_wo),
        Mixer::Ssm { ssm, .. } => weight_is_silent(ssm.ssm_out),
    }
}

/// The feed-forward part makes zeros in the end: its last weight does, or all its experts together.
pub open spec fn mlp_is_silent<Q: QuantMethod, K: Kernels>(mlp: MoeOrMlp<Q>, kernels: K) -> bool {
    match mlp {
        MoeOrMlp::Mlp(m) => weight_is_silent(m.feed_forward_w2),
        MoeOrMlp::FusedMoe(m) => forall|x: Tensor, y: Tensor| #[trigger]
            m.is_forward(kernels, x, y) ==> is_nothing(y),
    }
}

/// Zero can be added to these elements, and changes none of them.
pub open spec fn zero_adds_nothing(words: Seq<u32>) -> bool {
    forall|i: int, r: u32|
        0 <= i < words.len() && #[trigger] sum_of(0, words[i], r) ==> r == words[i]
}

/// Adding zeros changes nothing.
proof fn nothing_added(t: Tensor, x: Tensor, y: Tensor)
    requires
        is_nothing(t),
        zero_adds_nothing(tensor_words(x)),
        consistent(view_of(x)),
        is_sum(view_of(t), view_of(x), view_of(y)),
    ensures
        view_of(y) == view_of(x),
{
    let (a, b, r) = (view_of(t), view_of(x), view_of(y));
    assert forall|i: int| 0 <= i < r.words.len() implies r.words[i] == b.words[i] by {
        assert(tensor_words(t)[i] == 0);
        assert(sum_of(a.words[i], b.words[i], r.words[i]));
    }
    assert(r.words =~= b.words);
}

/// What a silent mixer has made is zeros.
proof fn silent_mixer<Q: QuantMethod, K: Kernels, S: Surroundings>(
    mixer: Mixer<Q>,
    after: Mixer<Q>,
    ctx: CallContext<'_, K, S>,
    mask: MaskOf<S>,
    cache0: Option<CacheOf<S>>,
    cache1: Option<CacheOf<S>>,
    i: usize,
    x: Tensor,
    y: Tensor,
)
    requires
        mixer_is_silent(mixer),
        mixer.is_mixed(&after, ctx, mask, cache0, cache1, i, x, y),
    ensures
        is_nothing(y),
{
    match mixer {
        Mixer::Attention(a) => {
            let kernels = choose|k: S::Attention|
                {
                    &&& #[trigger] serves(*ctx.around, i, k)
                    &&& a.is_forward(
                        k,
                        x,
                        ctx.start_offsets,
                        pages_of(ctx, i as int),
                        mask,
                        cache0->0,
                        cache1->0,
                        y,
                    )
                };
            let (q, k, v, out) = choose|q: Tensor, k: Tensor, v: Tensor, out: Tensor|
                {
                    &&& #[trigger] a.is_turned(kernels, x, ctx.start_offsets, q, k, v)
                    &&& #[trigger] a.is_attended(
                        kernels,
                        pages_of(ctx, i as int),
                        mask,
                        cache0->0,
                        cache1->0,
                        q,
                        k,
                        v,
                        out,
                    )
                    &&& a.is_closed(kernels, mask, x, out, y)
                };
            assert(a.is_closed(kernels, mask, x, out, y));
        },
        Mixer::Ssm { ssm, conv_state, ssm_state } => {
            assert(after is Ssm);
        },
    }
}

/// What a silent feed-forward part has made is zeros.
proof fn silent_mlp<Q: QuantMethod, K: Kernels>(mlp: MoeOrMlp<Q>, kernels: K, x: Tensor, y: Tensor)
    requires
        mlp_is_silent(mlp, kernels),
        mlp.is_forward(kernels, x, y),
    ensures
        is_nothing(y),
{
    if let MoeOrMlp::Mlp(m) = mlp {
        mlp_opened(m, kernels, x, y);
    }
}

/// Hidden states go through a layer: where neither of its parts makes anything but zeros, the layer
/// puts out what it was given, whatever its norms make of that.
pub proof fn silent_layer_passes_on<Q: QuantMethod, N: Norm, K: Kernels, S: Surroundings>(
    layer: LayerWeights<Q, N>,
    after: LayerWeights<Q, N>,
    ctx: CallContext<'_, K, S>,
    mask: MaskOf<S>,
    cache0: Option<CacheOf<S>>,
    cache1: Option<CacheOf<S>>,
    i: usize,
    x: Tensor,
    y: Tensor,
)
    requires
        mixer_is_silent(layer.mixer),
        mlp_is_silent(layer.mlp, *ctx.kernels),
        consistent(view_of(x)),
        zero_adds_nothing(tensor_words(x)),
        layer.is_forward(&after, ctx, mask, cache0, cache1, i, x, y),
    ensures
        view_of(y) == view_of(x),
{
    let h = choose|h: Tensor|
        {
            &&& #[trigger] layer.is_first_half(&after, ctx, mask, cache0, cache1, i, x, h)
            &&& layer.is_second_half(*ctx.kernels, h, y)
        };
    let (normed, mixed) = choose|normed: Tensor, mixed: Tensor|
        {
            &&& #[trigger] norms(layer.attention_norm, x, normed)
            &&& layer.mixer.is_mixed(&after.mixer, ctx, mask, cache0, cache1, i, normed, mixed)
            &&& #[trigger] is_sum(view_of(mixed), view_of(x), view_of(h))
            &&& plain(x) && layer.is_obliged(ctx, mask, cache0, i, tensor_dims(x)) ==> plain(h)
        };
    silent_mixer(layer.mixer, after.mixer, ctx, mask, cache0, cache1, i, normed, mixed);
    nothing_added(mixed, x, h);
    let (lifted, risen) = choose|lifted: Tensor, risen: Tensor|
        {
            &&& #[trigger] norms(layer.ffn_norm, h, lifted)
            &&& layer.mlp.is_forward(*ctx.kernels, lifted, risen)
            &&& #[trigger] is_sum(view_of(risen), view_of(h), view_of(y))
        };
    silent_mlp(layer.mlp, *ctx.kernels, lifted, risen);
    assert(tensor_words(h) == view_of(h).words && tensor_words(x) == view_of(x).words);
    nothing_added(risen, h, y);
}

/// The elements of two tensors of one shape, added up.
pub open spec fn added(
    add_up: spec_fn(u32, u32) -> u32,
    a: TensorView,
    b: TensorView,
) -> TensorView {
    TensorView {
        dims: b.dims,
        words: Seq::new(count(b.dims), |i: int| add_up(a.words[i], b.words[i])),
    }
}

/// A layer puts out what it was given, plus what it mixes of that once normalised, plus what the
/// feed-forward part makes of that sum once normalised. Stated for norms and parts that are functions
/// of what they are given, and for additions that give one result.
pub proof fn layer_adds_to_its_input<Q: QuantMethod, N: Norm, K: Kernels, S: Surroundings>(
    layer: LayerWeights<Q, N>,
    after: LayerWeights<Q, N>,
    ctx: CallContext<'_, K, S>,
    mask: MaskOf<S>,
    cache0: Option<CacheOf<S>>,
    cache1: Option<CacheOf<S>>,
    i: usize,
    x: Tensor,
    y: Tensor,
    add_up: spec_fn(u32, u32) -> u32,
    first_norm: spec_fn(TensorView) -> TensorView,
    mix: spec_fn(TensorView) -> TensorView,
    second_norm: spec_fn(TensorView) -> TensorView,
    feed: spec_fn(TensorView) -> TensorView,
)
    requires
        forall|a: u32, b: u32, r: u32| #[trigger] sum_of(a, b, r) ==> r == add_up(a, b),
        forall|t: Tensor, u: Tensor| #[trigger]
            norms(layer.attention_norm, t, u) ==> view_of(u) == first_norm(view_of(t)),
        forall|t: Tensor, u: Tensor| #[trigger]
            layer.mixer.is_mixed(&after.mixer, ctx, mask, cache0, cache1, i, t, u) ==> view_of(u)
                == mix(view_of(t)),
        forall|t: Tensor, u: Tensor| #[trigger]
            norms(layer.ffn_norm, t, u) ==> view_of(u) == second_norm(view_of(t)),
        forall|t: Tensor, u: Tensor| #[trigger]
            layer.mlp.is_forward(*ctx.kernels, t, u) ==> view_of(u) == feed(view_of(t)),
        layer.is_forward(&after, ctx, mask, cache0, cache1, i, x, y),
    ensures
        ({
            let x = view_of(x);
            let h = added(add_up, mix(first_norm(x)), x);
            view_of(y) == added(add_up, feed(second_norm(h)), h)
        }),
{
    let h = choose|h: Tensor|
        {
            &&& #[trigger] layer.is_first_half(&after, ctx, mask, cache0, cache1, i, x, h)
            &&& layer.is_second_half(*ctx.kernels, h, y)
        };
    let (normed, mixed) = choose|normed: Tensor, mixed: Tensor|
        {
            &&& #[trigger] norms(layer.attention_norm, x, normed)
            &&& layer.mixer.is_mixed(&after.mixer, ctx, mask, cache0, cache1, i, normed, mixed)
            &&& #[trigger] is_sum(view_of(mixed), view_of(x), view_of(h))
            &&& plain(x) && layer.is_obliged(ctx, mask, cache0, i, tensor_dims(x)) ==> plain(h)
        };
    sum_is_added(add_up, view_of(mixed), view_of(x), view_of(h));
    let (lifted, risen) = choose|lifted: Tensor, risen: Tensor|
        {
            &&& #[trigger] norms(layer.ffn_norm, h, lifted)
            &&& layer.mlp.is_forward(*ctx.kernels, lifted, risen)
            &&& #[trigger] is_sum(view_of(risen), view_of(h), view_of(y))
        };
    sum_is_added(add_up, view_of(risen), view_of(h), view_of(y));
}

proof fn sum_is_added(
    add_up: spec_fn(u32, u32) -> u32,
    a: TensorView,
    b: TensorView,
    r: TensorView,
)
    requires
        forall|x: u32, y: u32, z: u32| #[trigger] sum_of(x, y, z) ==> z == add_up(x, y),
        is_sum(a, b, r),
    ensures
        r == added(add_up, a, b),
{
    assert(r.words =~= added(add_up, a, b).words);
}

/// All layers from `from` up to, but not including, `to` are silent, or have no weights here.
pub open spec fn layers_are_silent<Q: QuantMethod, N: Norm, C, K: Kernels>(
    stage: Stage<Q, N, C>,
    kernels: K,
    from: int,
    to: int,
) -> bool {
    forall|i: int|
        from <= i < to ==> (#[trigger] stage.layers[i] matches Some(layer) ==> {
            &&& mixer_is_silent(layer.mixer)
            &&& mlp_is_silent(layer.mlp, kernels)
        })
}

/// Hidden states go through layers, one after the other.
pub proof fn silent_layers_pass_on<Q: QuantMethod, N: Norm, K: Kernels, S: Surroundings>(
    before: Stage<Q, N, CacheOf<S>>,
    after: Stage<Q, N, CacheOf<S>>,
    ctx: CallContext<'_, K, S>,
    mask: MaskOf<S>,
    from: int,
    to: int,
    x: Tensor,
    y: Tensor,
)
    requires
        layers_are_silent(before, *ctx.kernels, from, to),
        consistent(view_of(x)),
        zero_adds_nothing(tensor_words(x)),
        chain(runs(before, after, ctx, mask), from, to, x, y),
    ensures
        view_of(y) == view_of(x),
    decreases to - from,
{
    let step = runs(before, after, ctx, mask);
    if from < to {
        let i = to - 1;
        let z = choose|z: Tensor| chain(step, from, i, x, z) && #[trigger] takes(step, i, z, y);
        silent_layers_pass_on(before, after, ctx, mask, from, i, x, z);
        assert(tensor_words(z) == view_of(z).words && tensor_words(x) == view_of(x).words);
        match (before.layers[i], after.layers[i]) {
            (Some(a), Some(b)) => {
                silent_layer_passes_on(
                    a,
                    b,
                    ctx,
                    mask,
                    cache_of(before.cache, i),
                    cache_of(after.cache, i),
                    i as usize,
                    z,
                    y,
                );
            },
            _ => {},
        }
    }
}

/// A worker hands on the hidden states that it was given where none of its layers adds to them.
pub proof fn silent_part_passes_on<
    Q: QuantMethod,
    N: Norm,
    M: DeviceMapper,
    C,
    K: Kernels,
    S: Surroundings,
>(
    model: ModelWeights<Q, N, M, C>,
    after: ModelWeights<Q, N, M, C>,
    ctx: CallContext<'_, K, S>,
    mask: MaskOf<S>,
    cache0: Seq<CacheOf<S>>,
    cache1: Seq<CacheOf<S>>,
    hidden: Tensor,
    first: int,
    last: int,
    r: Tensor,
)
    requires
        0 <= first <= last < model.layers@.len(),
        layers_are_silent(
            (Stage { layers: model.layers@, cache: cache0 }),
            *ctx.kernels,
            first,
            last + 1,
        ),
        consistent(view_of(hidden)),
        zero_adds_nothing(tensor_words(hidden)),
        model.is_part(&after, ctx, mask, cache0, cache1, hidden, first, last, r),
    ensures
        view_of(r) == view_of(hidden),
{
    let before = Stage { layers: model.layers@, cache: cache0 };
    let then = Stage { layers: after.layers@, cache: cache1 };
    let step = runs(before, then, ctx, mask);
    let n = model.layers@.len() as int;
    let (h0, h) = choose|h0: Tensor, h: Tensor|
        {
            &&& view_of(h0) == view_of(hidden)
            &&& plain(hidden) && device_is_cpu(model.device) ==> plain(h0)
            &&& #[trigger] chain(only(step, first, last), 0, n, h0, h)
            &&& view_of(r) == view_of(h)
            &&& tensor_on_cpu(r)
            &&& plain(h) ==> plain(r)
        };
    chain_of_only(step, first, last, n, h0, h);
    assert(tensor_words(h0) == view_of(h0).words && tensor_words(hidden) == view_of(hidden).words);
    silent_layers_pass_on(before, then, ctx, mask, first, last + 1, h0, h);
}

/// A host makes logits of the hidden states that it starts from where none of its layers adds to
/// them and its mapper takes them nowhere.
pub proof fn silent_host_finishes<
    Q: QuantMethod,
    N: Norm,
    M: DeviceMapper,
    C,
    K: Kernels,
    S: Surroundings,
>(
    good: spec_fn(M) -> bool,
    model: ModelWeights<Q, N, M, C>,
    after: ModelWeights<Q, N, M, C>,
    ctx: CallContext<'_, K, S>,
    ids: Tensor,
    h0: Tensor,
    context_lens: Vec<(usize, usize)>,
    is_first_prompt_chunk: bool,
    r: Tensor,
) where S::Attention: AttentionKernels<Cache = C>
    requires
        stays(good),
        model.mapper matches Some(m) ==> good(m),
        layers_are_silent(model.stage(), *ctx.kernels, 0, model.layers@.len() as int),
        consistent(view_of(h0)),
        zero_adds_nothing(tensor_words(h0)),
        model.is_hosted(&after, ctx, ids, h0, context_lens, is_first_prompt_chunk, r),
    ensures
        exists|h: Tensor, normed: Tensor, picked: Tensor, dense: Tensor|
            {
                &&& view_of(h) == view_of(h0)
                &&& #[trigger] norms(model.norm, h, normed)
                &&& #[trigger] picks(*ctx.around, normed, context_lens, picked)
                &&& view_of(dense) == view_of(picked)
                &&& #[trigger] projects(model.output, dense, r)
            },
{
    let (mask, h) = hosted_opened(
        good,
        model,
        after,
        ctx,
        ids,
        h0,
        context_lens,
        is_first_prompt_chunk,
        r,
    );
    silent_layers_pass_on(
        model.stage(),
        after.stage(),
        ctx,
        mask,
        0,
        model.layers@.len() as int,
        h0,
        h,
    );
    assert(model.is_output(*ctx.around, h, context_lens, r));
}

} // verus!
