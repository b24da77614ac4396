//! Ranges of layers: no position sees a later one, and where layers are run in one call or in
//! several, on one machine or on others, the same comes out.
use candle_core::Tensor;
use vstd::prelude::*;

use crate::agree::{agree, agree_at_all, arithmetic_is_determined, pairs_agree};
use crate::backend::{
    hides_nothing, makes_mask_for, maps, norm_obliges, norms, picks, projects, serves, tells, AttentionKernels, CacheOf,
    DeviceMapper, Kernels, MaskOf, Norm, QuantMethod, Surroundings,
};
use crate::causal::{state_layer_looks_back, state_weights_look_at_positions};
use crate::chain::{chain, chain_of_only, chain_splits, only, takes};
use crate::conv::history;
use crate::lookback::{
    attention_looks_back, attention_sees_back, attention_weights_look_at_positions,
    experts_look_at_tokens, looks_at_tokens, mlp_agrees, mlp_looks_at_positions,
};
use crate::model::{
    cache_of, first_offset, hosts, is_mapped, is_told, pages_of, runs, same_at, stage_obliges,
    CallContext, LayerWeights, Mixer, ModelWeights, Stage,
};
use crate::moe::MoeOrMlp;
use crate::ops::is_sum;
use crate::shape::{consistent, count, count_small, fits};
use crate::tensor::{device_is_cpu, plain, tensor_dims, tensor_on_cpu, view_of};

verus! {

/// The norm looks at each position alone.
pub open spec fn norm_looks_at_positions<N: Norm>(norm: N) -> bool {
    forall|x1: Tensor, x2: Tensor, y1: Tensor, y2: Tensor, from: int, to: int|
        #![trigger norms(norm, x1, y1), norms(norm, x2, y2), agree(
            view_of(x1), view_of(x2), 2, from, to,
        )]
        norms(norm, x1, y1) && norms(norm, x2, y2) && agree(view_of(x1), view_of(x2), 2, from, to)
            ==> agree(view_of(y1), view_of(y2), 2, from, to)
}

/// What a layer mixes positions with looks back only, at two calls with their own masks.
pub open spec fn mixer_sees_back<Q: QuantMethod, K: Kernels, S: Surroundings>(
    mixer: Mixer<Q>,
    ctx1: CallContext<'_, K, S>,
    ctx2: CallContext<'_, K, S>,
    mask1: MaskOf<S>,
    mask2: MaskOf<S>,
    i: usize,
    cache: Option<CacheOf<S>>,
    len: usize,
) -> bool {
    match mixer {
        Mixer::Attention(a) => {
            &&& attention_weights_look_at_positions(a)
            &&& forall|k1: S::Attention, k2: S::Attention| #[trigger]
                serves(*ctx1.around, i, k1) && #[trigger] serves(*ctx2.around, i, k2)
                    ==> attention_sees_back(
                    a,
                    k1,
                    k2,
                    ctx1.start_offsets,
                    ctx2.start_offsets,
                    len,
                    pages_of(ctx1, i as int),
                    pages_of(ctx2, i as int),
                    mask1,
                    mask2,
                    cache->0,
                )
        },
        Mixer::Ssm { ssm, .. } => state_weights_look_at_positions(ssm) && ssm.sizes_ok(),
    }
}

/// The parts that a layer is given from outside look at each position alone, and those that mix
/// positions look back only, at two calls with their own masks.
pub open spec fn layer_sees_back<Q: QuantMethod, N: Norm, K: Kernels, S: Surroundings>(
    layer: LayerWeights<Q, N>,
    ctx1: CallContext<'_, K, S>,
    ctx2: CallContext<'_, K, S>,
    mask1: MaskOf<S>,
    mask2: MaskOf<S>,
    i: usize,
    cache: Option<CacheOf<S>>,
    len: usize,
) -> bool {
    &&& *ctx1.kernels == *ctx2.kernels
    &&& norm_looks_at_positions(layer.attention_norm)
    &&& mixer_sees_back(layer.mixer, ctx1, ctx2, mask1, mask2, i, cache, len)
    &&& norm_looks_at_positions(layer.ffn_norm)
    &&& match layer.mlp {
        MoeOrMlp::FusedMoe(m) => looks_at_tokens(m, *ctx1.kernels),
        MoeOrMlp::Mlp(m) => mlp_looks_at_positions(m, *ctx1.kernels),
    }
}

/// Two mixers have kept the same, as far as it can be seen.
pub open spec fn keeps_alike<Q>(a: Mixer<Q>, b: Mixer<Q>) -> bool {
    match (a, b) {
        (
            Mixer::Ssm { conv_state: c1, ssm_state: m1, .. },
            Mixer::Ssm { conv_state: c2, ssm_state: m2, .. },
        ) => history(c1) == history(c2) && view_of(m1->0) == view_of(m2->0),
        (Mixer::Attention(_), Mixer::Attention(_)) => true,
        _ => false,
    }
}

/// What mixes positions looks back only.
proof fn mixer_looks_back<Q: QuantMethod, K: Kernels, S: Surroundings>(
    mixer: Mixer<Q>,
    after1: Mixer<Q>,
    after2: Mixer<Q>,
    ctx1: CallContext<'_, K, S>,
    ctx2: CallContext<'_, K, S>,
    mask1: MaskOf<S>,
    mask2: MaskOf<S>,
    cache0: Option<CacheOf<S>>,
    cache1: Option<CacheOf<S>>,
    cache2: Option<CacheOf<S>>,
    i: usize,
    x1: Tensor,
    x2: Tensor,
    n: int,
    y1: Tensor,
    y2: Tensor,
)
    requires
        arithmetic_is_determined(),
        mixer_sees_back(mixer, ctx1, ctx2, mask1, mask2, i, cache0, tensor_dims(x1)[1]),
        plain(x1),
        plain(x2),
        tensor_dims(x1).len() == 3,
        tensor_dims(x1)[0] == 1,
        agree(view_of(x1), view_of(x2), 2, 0, n),
        mixer.is_obliged(ctx1, mask1, cache0, i, tensor_dims(x1)),
        mixer.is_mixed(&after1, ctx1, mask1, cache0, cache1, i, x1, y1),
        mixer.is_mixed(&after2, ctx2, mask2, cache0, cache2, i, x2, y2),
    ensures
        agree(view_of(y1), view_of(y2), 2, 0, n),
        n == tensor_dims(x1)[1] ==> cache1 == cache2 && keeps_alike(after1, after2),
{
    match mixer {
        Mixer::Attention(a) => {
            let k1 = choose|k: S::Attention|
                {
                    &&& #[trigger] serves(*ctx1.around, i, k)
                    &&& a.is_forward(
                        k,
                        x1,
                        ctx1.start_offsets,
                        pages_of(ctx1, i as int),
                        mask1,
                        cache0->0,
                        cache1->0,
                        y1,
                    )
                };
            let k2 = choose|k: S::Attention|
                {
                    &&& #[trigger] serves(*ctx2.around, i, k)
                    &&& a.is_forward(
                        k,
                        x2,
                        ctx2.start_offsets,
                        pages_of(ctx2, i as int),
                        mask2,
                        cache0->0,
                        cache2->0,
                        y2,
                    )
                };
            attention_looks_back(
                a,
                k1,
                k2,
                x1,
                x2,
                n,
                ctx1.start_offsets,
                ctx2.start_offsets,
                pages_of(ctx1, i as int),
                pages_of(ctx2, i as int),
                mask1,
                mask2,
                cache0->0,
                cache1->0,
                cache2->0,
                y1,
                y2,
            );
        },
        Mixer::Ssm { ssm, conv_state: c0, ssm_state: m0 } => {
            match (after1, after2) {
                (
                    Mixer::Ssm { conv_state: c1, ssm_state: m1, .. },
                    Mixer::Ssm { conv_state: c2, ssm_state: m2, .. },
                ) => {
                    state_layer_looks_back(ssm, x1, x2, n, c0, c1, c2, m0, m1, m2, y1, y2);
                },
                _ => {},
            }
        },
    }
}

/// A layer looks back only: what it puts out at the first positions is the same whatever the others
/// hold. Where all positions are the same, it keeps the same.
pub proof fn layer_looks_back<Q: QuantMethod, N: Norm, K: Kernels, S: Surroundings>(
    layer: LayerWeights<Q, N>,
    after1: LayerWeights<Q, N>,
    after2: LayerWeights<Q, N>,
    ctx1: CallContext<'_, K, S>,
    ctx2: CallContext<'_, K, S>,
    mask1: MaskOf<S>,
    mask2: MaskOf<S>,
    cache0: Option<CacheOf<S>>,
    cache1: Option<CacheOf<S>>,
    cache2: Option<CacheOf<S>>,
    i: usize,
    x1: Tensor,
    x2: Tensor,
    n: int,
    y1: Tensor,
    y2: Tensor,
)
    requires
        arithmetic_is_determined(),
        layer_sees_back(layer, ctx1, ctx2, mask1, mask2, i, cache0, tensor_dims(x1)[1]),
        plain(x1),
        plain(x2),
        tensor_dims(x1).len() == 3,
        tensor_dims(x1)[0] == 1,
        agree(view_of(x1), view_of(x2), 2, 0, n),
        layer.is_obliged(ctx1, mask1, cache0, i, tensor_dims(x1)),
        layer.is_obliged(ctx2, mask2, cache0, i, tensor_dims(x1)),
        layer.is_forward(&after1, ctx1, mask1, cache0, cache1, i, x1, y1),
        layer.is_forward(&after2, ctx2, mask2, cache0, cache2, i, x2, y2),
    ensures
        agree(view_of(y1), view_of(y2), 2, 0, n),
        tensor_dims(y1) == tensor_dims(x1),
        plain(y1),
        plain(y2),
        n == tensor_dims(x1)[1] ==> cache1 == cache2 && keeps_alike(after1.mixer, after2.mixer),
{
    let h1 = choose|h: Tensor|
        {
            &&& #[trigger] layer.is_first_half(&after1, ctx1, mask1, cache0, cache1, i, x1, h)
            &&& layer.is_second_half(*ctx1.kernels, h, y1)
        };
    let h2 = choose|h: Tensor|
        {
            &&& #[trigger] layer.is_first_half(&after2, ctx2, mask2, cache0, cache2, i, x2, h)
            &&& layer.is_second_half(*ctx2.kernels, h, y2)
        };
    first_half_agrees(
        layer,
        after1,
        after2,
        ctx1,
        ctx2,
        mask1,
        mask2,
        cache0,
        cache1,
        cache2,
        i,
        x1,
        x2,
        n,
        h1,
        h2,
    );
    second_half_agrees(layer, *ctx1.kernels, h1, h2, n, y1, y2);
}

proof fn first_half_agrees<Q: QuantMethod, N: Norm, K: Kernels, S: Surroundings>(
    layer: LayerWeights<Q, N>,
    after1: LayerWeights<Q, N>,
    after2: LayerWeights<Q, N>,
    ctx1: CallContext<'_, K, S>,
    ctx2: CallContext<'_, K, S>,
    mask1: MaskOf<S>,
    mask2: MaskOf<S>,
    cache0: Option<CacheOf<S>>,
    cache1: Option<CacheOf<S>>,
    cache2: Option<CacheOf<S>>,
    i: usize,
    x1: Tensor,
    x2: Tensor,
    n: int,
    h1: Tensor,
    h2: Tensor,
)
    requires
        arithmetic_is_determined(),
        layer_sees_back(layer, ctx1, ctx2, mask1, mask2, i, cache0, tensor_dims(x1)[1]),
        plain(x1),
        plain(x2),
        tensor_dims(x1).len() == 3,
        tensor_dims(x1)[0] == 1,
        agree(view_of(x1), view_of(x2), 2, 0, n),
        layer.is_obliged(ctx1, mask1, cache0, i, tensor_dims(x1)),
        layer.is_obliged(ctx2, mask2, cache0, i, tensor_dims(x1)),
        layer.is_first_half(&after1, ctx1, mask1, cache0, cache1, i, x1, h1),
        layer.is_first_half(&after2, ctx2, mask2, cache0, cache2, i, x2, h2),
    ensures
        agree(view_of(h1), view_of(h2), 2, 0, n),
        tensor_dims(h1) == tensor_dims(x1),
        plain(h1),
        plain(h2),
        n == tensor_dims(x1)[1] ==> cache1 == cache2 && keeps_alike(after1.mixer, after2.mixer),
{
    let (normed1, mixed1) = choose|normed: Tensor, mixed: Tensor|
        {
            &&& #[trigger] norms(layer.attention_norm, x1, normed)
            &&& layer.mixer.is_mixed(
                &after1.mixer,
                ctx1,
                mask1,
                cache0,
                cache1,
                i,
                normed,
                mixed,
            )
            &&& #[trigger] is_sum(view_of(mixed), view_of(x1), view_of(h1))
            &&& plain(x1) && layer.is_obliged(ctx1, mask1, cache0, i, tensor_dims(x1)) ==> plain(h1)
        };
    let (normed2, mixed2) = choose|normed: Tensor, mixed: Tensor|
        {
            &&& #[trigger] norms(layer.attention_norm, x2, normed)
            &&& layer.mixer.is_mixed(
                &after2.mixer,
                ctx2,
                mask2,
                cache0,
                cache2,
                i,
                normed,
                mixed,
            )
            &&& #[trigger] is_sum(view_of(mixed), view_of(x2), view_of(h2))
            &&& plain(x2) && layer.is_obliged(ctx2, mask2, cache0, i, tensor_dims(x2)) ==> plain(h2)
        };
    assert(agree(view_of(normed1), view_of(normed2), 2, 0, n));
    assert(plain(normed1) && plain(normed2) && tensor_dims(normed1) == tensor_dims(x1));
    mixer_looks_back(
        layer.mixer,
        after1.mixer,
        after2.mixer,
        ctx1,
        ctx2,
        mask1,
        mask2,
        cache0,
        cache1,
        cache2,
        i,
        normed1,
        normed2,
        n,
        mixed1,
        mixed2,
    );
    pairs_agree(
        view_of(mixed1),
        view_of(mixed2),
        view_of(x1),
        view_of(x2),
        2,
        0,
        n,
        view_of(h1),
        view_of(h2),
    );
}

proof fn second_half_agrees<Q: QuantMethod, N: Norm, K: Kernels>(
    layer: LayerWeights<Q, N>,
    kernels: K,
    h1: Tensor,
    h2: Tensor,
    n: int,
    y1: Tensor,
    y2: Tensor,
)
    requires
        arithmetic_is_determined(),
        norm_looks_at_positions(layer.ffn_norm),
        match layer.mlp {
            MoeOrMlp::FusedMoe(m) => looks_at_tokens(m, kernels),
            MoeOrMlp::Mlp(m) => mlp_looks_at_positions(m, kernels),
        },
        norm_obliges(layer.ffn_norm),
        layer.mlp.is_obliged(kernels, tensor_dims(h1)),
        fits(tensor_dims(h1)),
        plain(h1),
        plain(h2),
        agree(view_of(h1), view_of(h2), 2, 0, n),
        layer.is_second_half(kernels, h1, y1),
        layer.is_second_half(kernels, h2, y2),
    ensures
        agree(view_of(y1), view_of(y2), 2, 0, n),
        tensor_dims(y1) == tensor_dims(h1),
{
    let (normed1, risen1) = choose|normed: Tensor, risen: Tensor|
        {
            &&& #[trigger] norms(layer.ffn_norm, h1, normed)
            &&& layer.mlp.is_forward(kernels, normed, risen)
            &&& #[trigger] is_sum(view_of(risen), view_of(h1), view_of(y1))
        };
    let (normed2, risen2) = choose|normed: Tensor, risen: Tensor|
        {
            &&& #[trigger] norms(layer.ffn_norm, h2, normed)
            &&& layer.mlp.is_forward(kernels, normed, risen)
            &&& #[trigger] is_sum(view_of(risen), view_of(h2), view_of(y2))
        };
    assert(agree(view_of(normed1), view_of(normed2), 2, 0, n));
    assert(plain(normed1) && plain(normed2) && tensor_dims(normed1) == tensor_dims(h1));
    match layer.mlp {
        MoeOrMlp::FusedMoe(m) => {
            experts_look_at_tokens(m, kernels, normed1, normed2, 0, n, risen1, risen2);
        },
        MoeOrMlp::Mlp(m) => {
            mlp_agrees(m, kernels, normed1, normed2, 0, n, risen1, risen2);
        },
    }
    pairs_agree(
        view_of(risen1),
        view_of(risen2),
        view_of(h1),
        view_of(h2),
        2,
        0,
        n,
        view_of(y1),
        view_of(y2),
    );
}

/// Layers `first` to `last` look back only, at two calls with their own masks.
pub open spec fn stage_sees_back<Q: QuantMethod, N: Norm, K: Kernels, S: Surroundings>(
    stage: Stage<Q, N, CacheOf<S>>,
    ctx1: CallContext<'_, K, S>,
    ctx2: CallContext<'_, K, S>,
    mask1: MaskOf<S>,
    mask2: MaskOf<S>,
    first: int,
    last: int,
    len: usize,
) -> bool {
    forall|i: int|
        0 <= i < stage.layers.len() && first <= i <= last ==> (#[trigger] stage.layers[i]
            matches Some(layer) ==> layer_sees_back(
            layer,
            ctx1,
            ctx2,
            mask1,
            mask2,
            i as usize,
            cache_of(stage.cache, i),
            len,
        ))
}

/// Layer `i` and its cache have kept the same, as far as it can be seen.
pub open spec fn alike_at<Q, N, C>(a: Stage<Q, N, C>, b: Stage<Q, N, C>, i: int) -> bool {
    &&& cache_of(a.cache, i) == cache_of(b.cache, i)
    &&& match (a.layers[i], b.layers[i]) {
        (Some(l), Some(m)) => keeps_alike(l.mixer, m.mixer),
        (None, None) => true,
        _ => false,
    }
}

/// Layers that start alike look back only, one after the other.
pub proof fn layers_look_back<Q: QuantMethod, N: Norm, K: Kernels, S: Surroundings>(
    before1: Stage<Q, N, CacheOf<S>>,
    before2: Stage<Q, N, CacheOf<S>>,
    after1: Stage<Q, N, CacheOf<S>>,
    after2: Stage<Q, N, CacheOf<S>>,
    ctx1: CallContext<'_, K, S>,
    ctx2: CallContext<'_, K, S>,
    mask1: MaskOf<S>,
    mask2: MaskOf<S>,
    from: int,
    to: int,
    x1: Tensor,
    x2: Tensor,
    n: int,
    y1: Tensor,
    y2: Tensor,
)
    requires
        arithmetic_is_determined(),
        0 <= from,
        to <= before1.layers.len(),
        before2.layers.len() == before1.layers.len(),
        before2.cache.len() == before1.cache.len(),
        forall|i: int| from <= i < to ==> #[trigger] same_at(before1, before2, i),
        stage_obliges(before1, ctx1, mask1, from, to - 1, tensor_dims(x1)),
        stage_obliges(before1, ctx2, mask2, from, to - 1, tensor_dims(x1)),
        stage_sees_back(
            before1,
            ctx1,
            ctx2,
            mask1,
            mask2,
            from,
            to - 1,
            tensor_dims(x1)[1],
        ),
        plain(x1),
        plain(x2),
        tensor_dims(x1).len() == 3,
        tensor_dims(x1)[0] == 1,
        agree(view_of(x1), view_of(x2), 2, 0, n),
        chain(runs(before1, after1, ctx1, mask1), from, to, x1, y1),
        chain(runs(before2, after2, ctx2, mask2), from, to, x2, y2),
    ensures
        agree(view_of(y1), view_of(y2), 2, 0, n),
        tensor_dims(y1) == tensor_dims(x1),
        plain(y1),
        plain(y2),
        n == tensor_dims(x1)[1] ==> forall|i: int|
            from <= i < to ==> #[trigger] alike_at(after1, after2, i),
    decreases to - from,
{
    if from < to {
        let i = to - 1;
        let step1 = runs(before1, after1, ctx1, mask1);
        let step2 = runs(before2, after2, ctx2, mask2);
        let z1 = choose|z: Tensor| chain(step1, from, i, x1, z) && #[trigger] takes(step1, i, z, y1);
        let z2 = choose|z: Tensor| chain(step2, from, i, x2, z) && #[trigger] takes(step2, i, z, y2);
        layers_look_back(
            before1,
            before2,
            after1,
            after2,
            ctx1,
            ctx2,
            mask1,
            mask2,
            from,
            i,
            x1,
            x2,
            n,
            z1,
            z2,
        );
        assert(same_at(before1, before2, i));
        step_looks_back(
            before1,
            before2,
            after1,
            after2,
            ctx1,
            ctx2,
            mask1,
            mask2,
            i,
            z1,
            z2,
            n,
            y1,
            y2,
        );
    }
}

/// One of several layers looks back only.
proof fn step_looks_back<Q: QuantMethod, N: Norm, K: Kernels, S: Surroundings>(
    before1: Stage<Q, N, CacheOf<S>>,
    before2: Stage<Q, N, CacheOf<S>>,
    after1: Stage<Q, N, CacheOf<S>>,
    after2: Stage<Q, N, CacheOf<S>>,
    ctx1: CallContext<'_, K, S>,
    ctx2: CallContext<'_, K, S>,
    mask1: MaskOf<S>,
    mask2: MaskOf<S>,
    i: int,
    x1: Tensor,
    x2: Tensor,
    n: int,
    y1: Tensor,
    y2: Tensor,
)
    requires
        arithmetic_is_determined(),
        0 <= i < before1.layers.len(),
        before2.cache.len() == before1.cache.len(),
        same_at(before1, before2, i),
        before1.layers[i] matches Some(layer) ==> {
            let cache = cache_of(before1.cache, i);
            let dims = tensor_dims(x1);
            &&& layer_sees_back(layer, ctx1, ctx2, mask1, mask2, i as usize, cache, dims[1])
            &&& layer.is_obliged(ctx1, mask1, cache, i as usize, dims)
            &&& layer.is_obliged(ctx2, mask2, cache, i as usize, dims)
        },
        plain(x1),
        plain(x2),
        tensor_dims(x1).len() == 3,
        tensor_dims(x1)[0] == 1,
        agree(view_of(x1), view_of(x2), 2, 0, n),
        takes(runs(before1, after1, ctx1, mask1), i, x1, y1),
        takes(runs(before2, after2, ctx2, mask2), i, x2, y2),
    ensures
        agree(view_of(y1), view_of(y2), 2, 0, n),
        tensor_dims(y1) == tensor_dims(x1),
        plain(y1),
        plain(y2),
        n == tensor_dims(x1)[1] ==> alike_at(after1, after2, i),
{
    assert(cache_of(before1.cache, i) == cache_of(before2.cache, i));
    match (before1.layers[i], after1.layers[i], after2.layers[i]) {
        (Some(layer), Some(a), Some(b)) => {
            layer_looks_back(
                layer,
                a,
                b,
                ctx1,
                ctx2,
                mask1,
                mask2,
                cache_of(before1.cache, i),
                cache_of(after1.cache, i),
                cache_of(after2.cache, i),
                i as usize,
                x1,
                x2,
                n,
                y1,
                y2,
            );
        },
        _ => {},
    }
}

/// What a call for some layers does, opened.
pub proof fn part_opened<Q: QuantMethod, N: Norm, M: DeviceMapper, C, K: Kernels, S: Surroundings>(
    model: ModelWeights<Q, N, M, C>,
    after: ModelWeights<Q, N, M, C>,
    ctx: CallContext<'_, K, S>,
    mask: MaskOf<S>,
    cache0: Seq<CacheOf<S>>,
    cache1: Seq<CacheOf<S>>,
    hidden: Tensor,
    first: int,
    last: int,
    r: Tensor,
) -> (o: (Tensor, Tensor))
    requires
        0 <= first <= last < model.layers@.len(),
        plain(hidden),
        device_is_cpu(model.device),
        model.is_part(&after, ctx, mask, cache0, cache1, hidden, first, last, r),
    ensures
        ({
            let (h0, h) = o;
            let step = runs(
                Stage { layers: model.layers@, cache: cache0 },
                Stage { layers: after.layers@, cache: cache1 },
                ctx,
                mask,
            );
            &&& plain(h0)
            &&& view_of(h0) == view_of(hidden)
            &&& chain(step, first, last + 1, h0, h)
            &&& view_of(r) == view_of(h)
            &&& plain(h) ==> plain(r)
        }),
{
    let before = Stage { layers: model.layers@, cache: cache0 };
    let then = Stage { layers: after.layers@, cache: cache1 };
    let step = runs(before, then, ctx, mask);
    let n = model.layers@.len() as int;
    let (h0, h) = choose|h0: Tensor, h: Tensor|
        {
            &&& view_of(h0) == view_of(hidden)
            &&& plain(hidden) && device_is_cpu(model.device) ==> plain(h0)
            &&& #[trigger] chain(only(step, first, last), 0, n, h0, h)
            &&& view_of(r) == view_of(h)
            &&& tensor_on_cpu(r)
            &&& plain(h) ==> plain(r)
        };
    chain_of_only(step, first, last, n, h0, h);
    (h0, h)
}

/// Nothing is in the way of running layers `first` to `last` on hidden states of these dimensions,
/// and they look back only, at two calls with their own masks.
pub open spec fn range_sees_back<
    Q: QuantMethod,
    N: Norm,
    M: DeviceMapper,
    C,
    K: Kernels,
    S: Surroundings,
>(
    model: ModelWeights<Q, N, M, C>,
    cache: Seq<CacheOf<S>>,
    ctx1: CallContext<'_, K, S>,
    ctx2: CallContext<'_, K, S>,
    mask1: MaskOf<S>,
    mask2: MaskOf<S>,
    first: int,
    last: int,
    dims: Seq<usize>,
) -> bool {
    let stage = Stage { layers: model.layers@, cache };
    &&& stage_obliges(stage, ctx1, mask1, first, last, dims)
    &&& stage_obliges(stage, ctx2, mask2, first, last, dims)
    &&& stage_sees_back(stage, ctx1, ctx2, mask1, mask2, first, last, dims[1])
}

/// No position of a prompt sees a later one, however many come before the prompt: where a worker has
/// run the same layers, from the same start, on hidden states that are the same at the first
/// positions, what has come out is the same at these. The layers' own parts must look back under
/// causal masks made for as many positions after as many others; under others, or none, they need
/// not.
pub proof fn no_position_sees_a_later_one<
    Q: QuantMethod,
    N: Norm,
    M: DeviceMapper,
    C,
    K: Kernels,
    S: Surroundings,
>(
    model: ModelWeights<Q, N, M, C>,
    after1: ModelWeights<Q, N, M, C>,
    after2: ModelWeights<Q, N, M, C>,
    ctx1: CallContext<'_, K, S>,
    ctx2: CallContext<'_, K, S>,
    past: usize,
    mask1: MaskOf<S>,
    mask2: MaskOf<S>,
    cache0: Seq<CacheOf<S>>,
    cache1: Seq<CacheOf<S>>,
    cache2: Seq<CacheOf<S>>,
    h1: Tensor,
    h2: Tensor,
    first: int,
    last: int,
    n: int,
    r1: Tensor,
    r2: Tensor,
)
    requires
        arithmetic_is_determined(),
        0 <= first <= last < model.layers@.len(),
        device_is_cpu(model.device),
        plain(h1),
        plain(h2),
        tensor_dims(h1).len() == 3,
        tensor_dims(h1)[0] == 1,
        agree(view_of(h1), view_of(h2), 2, 0, n),
        // Several positions: the layers look back under masks made for as many, after as many others.
        tensor_dims(h1)[1] > 1 ==> forall|mask: MaskOf<S>, other: MaskOf<S>| #[trigger]
            makes_mask_for(
                *ctx1.around,
                tensor_dims(h1)[1],
                past,
                model.dtype,
                model.device,
                Ok(mask),
            ) && #[trigger] makes_mask_for(
                *ctx2.around,
                tensor_dims(h1)[1],
                past,
                model.dtype,
                model.device,
                Ok(other),
            ) ==> range_sees_back(
                model,
                cache0,
                ctx1,
                ctx2,
                mask,
                other,
                first,
                last,
                tensor_dims(h1),
            ),
        // A single one: they do so without a mask.
        tensor_dims(h1)[1] <= 1 ==> forall|mask: MaskOf<S>, other: MaskOf<S>| #[trigger]
            hides_nothing(*ctx1.around, mask) && #[trigger] hides_nothing(*ctx2.around, other)
                ==> range_sees_back(
                model,
                cache0,
                ctx1,
                ctx2,
                mask,
                other,
                first,
                last,
                tensor_dims(h1),
            ),
        model.is_worker_mask(*ctx1.around, tensor_dims(h1)[1], past, mask1),
        model.is_worker_mask(*ctx2.around, tensor_dims(h1)[1], past, mask2),
        model.is_part(&after1, ctx1, mask1, cache0, cache1, h1, first, last, r1),
        model.is_part(&after2, ctx2, mask2, cache0, cache2, h2, first, last, r2),
    ensures
        agree(view_of(r1), view_of(r2), 2, 0, n),
        n == tensor_dims(h1)[1] ==> {
            &&& view_of(r1) == view_of(r2)
            &&& forall|i: int|
                first <= i <= last ==> #[trigger] alike_at(
                    (Stage { layers: after1.layers@, cache: cache1 }),
                    (Stage { layers: after2.layers@, cache: cache2 }),
                    i,
                )
        },
{
    let before = Stage { layers: model.layers@, cache: cache0 };
    let then1 = Stage { layers: after1.layers@, cache: cache1 };
    let then2 = Stage { layers: after2.layers@, cache: cache2 };
    assert(range_sees_back(
        model,
        cache0,
        ctx1,
        ctx2,
        mask1,
        mask2,
        first,
        last,
        tensor_dims(h1),
    ));
    let (x1, y1) = part_opened(model, after1, ctx1, mask1, cache0, cache1, h1, first, last, r1);
    let (x2, y2) = part_opened(model, after2, ctx2, mask2, cache0, cache2, h2, first, last, r2);
    layers_look_back(
        before,
        before,
        then1,
        then2,
        ctx1,
        ctx2,
        mask1,
        mask2,
        first,
        last + 1,
        x1,
        x2,
        n,
        y1,
        y2,
    );
    if n == tensor_dims(h1)[1] {
        rows_of_one(tensor_dims(y1));
        agree_at_all(view_of(r1), view_of(r2), 2);
    }
}

/// One item has as many positions as its second dimension says.
proof fn rows_of_one(d: Seq<usize>)
    requires
        d.len() >= 2,
        d[0] == 1,
    ensures
        count(d.take(2)) == d[1],
{
    assert(d.take(2) =~= seq![1, d[1]]);
    count_small(1, d[1], 0, 0, 0);
    let len = d[1] as int;
    assert(1 * len == len);
}

/// Splitting a range of layers over two calls changes nothing: where some layers and then those that
/// follow have been run, and, from the same start, all of them in one call, the same has come out
/// and all of them have kept the same. Each call has a mask of its own.
pub proof fn two_calls_are_one<
    Q: QuantMethod,
    N: Norm,
    M: DeviceMapper,
    C,
    K: Kernels,
    S: Surroundings,
>(
    model: ModelWeights<Q, N, M, C>,
    middle: ModelWeights<Q, N, M, C>,
    after: ModelWeights<Q, N, M, C>,
    whole: ModelWeights<Q, N, M, C>,
    ctx1: CallContext<'_, K, S>,
    ctx2: CallContext<'_, K, S>,
    ctx: CallContext<'_, K, S>,
    mask1: MaskOf<S>,
    mask2: MaskOf<S>,
    mask: MaskOf<S>,
    cache0: Seq<CacheOf<S>>,
    cache1: Seq<CacheOf<S>>,
    cache2: Seq<CacheOf<S>>,
    cache: Seq<CacheOf<S>>,
    hidden: Tensor,
    first: int,
    mid: int,
    last: int,
    m: Tensor,
    r: Tensor,
    s: Tensor,
)
    requires
        arithmetic_is_determined(),
        0 <= first <= mid < last < model.layers@.len(),
        device_is_cpu(model.device),
        device_is_cpu(middle.device),
        plain(hidden),
        consistent(view_of(hidden)),
        tensor_dims(hidden).len() == 3,
        tensor_dims(hidden)[0] == 1,
        middle.layers@.len() == model.layers@.len(),
        cache1.len() == cache0.len(),
        cache2.len() == cache0.len(),
        // What the calls for some layers leave alone.
        forall|i: int|
            !(first <= i <= mid) ==> #[trigger] same_at(
                (Stage { layers: model.layers@, cache: cache0 }),
                (Stage { layers: middle.layers@, cache: cache1 }),
                i,
            ),
        forall|i: int|
            !(mid + 1 <= i <= last) ==> #[trigger] same_at(
                (Stage { layers: middle.layers@, cache: cache1 }),
                (Stage { layers: after.layers@, cache: cache2 }),
                i,
            ),
        // Nothing is in the way, and the layers look back under these masks.
        ({
            let before = Stage { layers: model.layers@, cache: cache0 };
            let dims = tensor_dims(hidden);
            &&& stage_obliges(before, ctx, mask, first, last, dims)
            &&& stage_obliges(before, ctx1, mask1, first, mid, dims)
            &&& stage_obliges(before, ctx2, mask2, mid + 1, last, dims)
            &&& stage_sees_back(before, ctx, ctx1, mask, mask1, first, mid, dims[1])
            &&& stage_sees_back(before, ctx, ctx2, mask, mask2, mid + 1, last, dims[1])
        }),
        model.is_part(&middle, ctx1, mask1, cache0, cache1, hidden, first, mid, m),
        middle.is_part(&after, ctx2, mask2, cache1, cache2, m, mid + 1, last, r),
        model.is_part(&whole, ctx, mask, cache0, cache, hidden, first, last, s),
    ensures
        view_of(r) == view_of(s),
        forall|i: int|
            first <= i <= last ==> #[trigger] alike_at(
                (Stage { layers: whole.layers@, cache }),
                (Stage { layers: after.layers@, cache: cache2 }),
                i,
            ),
{
    let a = Stage { layers: model.layers@, cache: cache0 };
    let b = Stage { layers: middle.layers@, cache: cache1 };
    let c = Stage { layers: after.layers@, cache: cache2 };
    let w = Stage { layers: whole.layers@, cache };
    let step = runs(a, w, ctx, mask);
    let next = mid + 1;
    let end = last + 1;
    let (x, y) = part_opened(model, whole, ctx, mask, cache0, cache, hidden, first, last, s);
    let (x1, y1) = part_opened(model, middle, ctx1, mask1, cache0, cache1, hidden, first, mid, m);
    chain_splits(step, first, next, end, x, y);
    let z = choose|z: Tensor|
        #![trigger chain(step, first, next, x, z)]
        chain(step, first, next, x, z) && chain(step, next, end, z, y);
    let n = tensor_dims(hidden)[1] as int;
    rows_of_one(tensor_dims(hidden));
    assert(agree(view_of(x), view_of(x1), 2, 0, n));
    assert(stage_obliges(a, ctx, mask, first, mid, tensor_dims(x)));
    layers_look_back(a, a, w, b, ctx, ctx1, mask, mask1, first, next, x, x1, n, z, y1);
    agree_at_all(view_of(z), view_of(y1), 2);
    assert(plain(m));
    let (x2, y2) = part_opened(middle, after, ctx2, mask2, cache1, cache2, m, next, last, r);
    assert(agree(view_of(z), view_of(x2), 2, 0, n));
    assert(stage_obliges(a, ctx, mask, next, last, tensor_dims(z)));
    layers_look_back(a, b, w, c, ctx, ctx2, mask, mask2, next, end, z, x2, n, y, y2);
    agree_at_all(view_of(y), view_of(y2), 2);
    assert forall|i: int| first <= i <= last implies #[trigger] alike_at(w, c, i) by {
        if i <= mid {
            assert(alike_at(w, b, i));
            assert(same_at(b, c, i));
            assert(cache_of(b.cache, i) == cache_of(c.cache, i));
        }
    }
}

/// Mappers of which `good` holds take hidden states nowhere, and it holds of them from then on.
pub open spec fn stays<M: DeviceMapper>(good: spec_fn(M) -> bool) -> bool {
    &&& forall|m: M, x: Tensor, i: usize, after: M, y: Tensor| #[trigger]
        maps(m, x, i, after, Ok(y)) && good(m) ==> y == x && good(after)
    &&& forall|m: M, past_kv: u32, after: M| #[trigger]
        tells(m, past_kv, after) && good(m) ==> good(after)
}

/// Where the mapper takes hidden states nowhere, a host runs its layers.
proof fn host_runs<Q: QuantMethod, N: Norm, M: DeviceMapper, K: Kernels, S: Surroundings>(
    good: spec_fn(M) -> bool,
    before: Stage<Q, N, CacheOf<S>>,
    after: Stage<Q, N, CacheOf<S>>,
    ctx: CallContext<'_, K, S>,
    mask: MaskOf<S>,
    k: int,
    u: (Option<M>, Tensor),
    v: (Option<M>, Tensor),
)
    requires
        stays(good),
        u.0 matches Some(m) ==> good(m),
        chain(hosts(before, after, ctx, mask), 0, k, u, v),
    ensures
        v.0 matches Some(m) ==> good(m),
        chain(runs(before, after, ctx, mask), 0, k, u.1, v.1),
    decreases k,
{
    let host = hosts::<Q, N, M, K, S>(before, after, ctx, mask);
    let step = runs(before, after, ctx, mask);
    if k > 0 {
        let i = k - 1;
        let w = choose|w: (Option<M>, Tensor)|
            chain(host, 0, i, u, w) && #[trigger] takes(host, i, w, v);
        host_runs(good, before, after, ctx, mask, i, u, w);
        let m = choose|m: Tensor| #[trigger]
            is_mapped(w.0, w.1, i, v.0, Ok(m)) && step(i, m, v.1);
        if let Some(a) = w.0 {
            assert(maps(a, w.1, i as usize, v.0->0, Ok(m)));
        }
        assert(m == w.1);
        assert(takes(step, i, w.1, v.1));
    }
}

/// Logits are determined by what is seen of the hidden states, of what is picked, and of what goes
/// into the last weight.
pub open spec fn output_is_determined<
    Q: QuantMethod,
    N: Norm,
    M: DeviceMapper,
    C,
    S: Surroundings,
>(model: ModelWeights<Q, N, M, C>, around: S, context_lens: Vec<(usize, usize)>) -> bool {
    &&& forall|x1: Tensor, x2: Tensor, y1: Tensor, y2: Tensor| #[trigger]
        norms(model.norm, x1, y1) && #[trigger] norms(model.norm, x2, y2) && view_of(x1) == view_of(
            x2,
        ) ==> view_of(y1) == view_of(y2)
    &&& forall|x1: Tensor, x2: Tensor, y1: Tensor, y2: Tensor| #[trigger]
        picks(around, x1, context_lens, y1) && #[trigger] picks(around, x2, context_lens, y2)
            && view_of(x1) == view_of(x2) ==> view_of(y1) == view_of(y2)
    &&& forall|x1: Tensor, x2: Tensor, y1: Tensor, y2: Tensor| #[trigger]
        projects(model.output, x1, y1) && #[trigger] projects(model.output, x2, y2) && view_of(x1)
            == view_of(x2) ==> view_of(y1) == view_of(y2)
}

proof fn output_agrees<Q: QuantMethod, N: Norm, M: DeviceMapper, C, S: Surroundings>(
    model: ModelWeights<Q, N, M, C>,
    around: S,
    context_lens: Vec<(usize, usize)>,
    h1: Tensor,
    h2: Tensor,
    r1: Tensor,
    r2: Tensor,
)
    requires
        output_is_determined(model, around, context_lens),
        view_of(h1) == view_of(h2),
        model.is_output(around, h1, context_lens, r1),
        model.is_output(around, h2, context_lens, r2),
    ensures
        view_of(r1) == view_of(r2),
{
    let (normed1, picked1, dense1) = choose|normed: Tensor, picked: Tensor, dense: Tensor|
        {
            &&& #[trigger] norms(model.norm, h1, normed)
            &&& #[trigger] picks(around, normed, context_lens, picked)
            &&& view_of(dense) == view_of(picked)
            &&& #[trigger] projects(model.output, dense, r1)
        };
    let (normed2, picked2, dense2) = choose|normed: Tensor, picked: Tensor, dense: Tensor|
        {
            &&& #[trigger] norms(model.norm, h2, normed)
            &&& #[trigger] picks(around, normed, context_lens, picked)
            &&& view_of(dense) == view_of(picked)
            &&& #[trigger] projects(model.output, dense, r2)
        };
    assert(view_of(normed1) == view_of(normed2));
    assert(view_of(picked1) == view_of(picked2));
}

/// Running all layers as a worker does, and then making logits, gives what the whole model gives:
/// where a host whose mapper takes hidden states nowhere has made logits of them, and a worker, from
/// the same start, has run all layers on them and logits were made of what came out, these are the
/// same, and all layers have kept the same.
pub proof fn whole_pass_is_all_layers<
    Q: QuantMethod,
    N: Norm,
    M: DeviceMapper,
    C,
    K: Kernels,
    S: Surroundings,
>(
    good: spec_fn(M) -> bool,
    model: ModelWeights<Q, N, M, C>,
    after: ModelWeights<Q, N, M, C>,
    other: ModelWeights<Q, N, M, C>,
    ctx: CallContext<'_, K, S>,
    worker: CallContext<'_, K, S>,
    worker_mask: MaskOf<S>,
    cache: Seq<CacheOf<S>>,
    ids: Tensor,
    h0: Tensor,
    context_lens: Vec<(usize, usize)>,
    is_first_prompt_chunk: bool,
    u: Tensor,
    r: Tensor,
    s: Tensor,
) where S::Attention: AttentionKernels<Cache = C>
    requires
        arithmetic_is_determined(),
        model.layers@.len() > 0,
        device_is_cpu(model.device),
        plain(h0),
        consistent(view_of(h0)),
        tensor_dims(h0).len() == 3,
        tensor_dims(h0)[0] == 1,
        stays(good),
        model.mapper matches Some(m) ==> good(m),
        output_is_determined(model, *ctx.around, context_lens),
        // Nothing is in the way, and the layers look back under the masks of host and worker.
        forall|mask: MaskOf<S>| #[trigger]
            model.is_host_mask(ctx, ids, is_first_prompt_chunk, mask) ==> {
                let last = model.layers@.len() - 1;
                let dims = tensor_dims(h0);
                &&& stage_obliges(model.stage(), ctx, mask, 0, last, dims)
                &&& stage_obliges(model.stage(), worker, worker_mask, 0, last, dims)
                &&& stage_sees_back(
                    model.stage(),
                    ctx,
                    worker,
                    mask,
                    worker_mask,
                    0,
                    last,
                    dims[1],
                )
            },
        model.is_hosted(&after, ctx, ids, h0, context_lens, is_first_prompt_chunk, r),
        model.is_part(
            &other,
            worker,
            worker_mask,
            model.cache@,
            cache,
            h0,
            0,
            model.layers@.len() - 1,
            u,
        ),
        model.is_output(*ctx.around, u, context_lens, s),
    ensures
        view_of(r) == view_of(s),
        forall|i: int|
            0 <= i < model.layers@.len() ==> #[trigger] alike_at(
                after.stage(),
                (Stage { layers: other.layers@, cache }),
                i,
            ),
{
    let n = model.layers@.len() as int;
    let before = model.stage();
    let then = Stage { layers: other.layers@, cache };
    let (mask, h) = hosted_opened(
        good,
        model,
        after,
        ctx,
        ids,
        h0,
        context_lens,
        is_first_prompt_chunk,
        r,
    );
    let (x, y) = part_opened(
        model,
        other,
        worker,
        worker_mask,
        model.cache@,
        cache,
        h0,
        0,
        n - 1,
        u,
    );
    let len = tensor_dims(h0)[1] as int;
    rows_of_one(tensor_dims(h0));
    assert(agree(view_of(h0), view_of(x), 2, 0, len));
    assert(before == Stage { layers: model.layers@, cache: model.cache@ });
    layers_look_back(
        before,
        before,
        after.stage(),
        then,
        ctx,
        worker,
        mask,
        worker_mask,
        0,
        n,
        h0,
        x,
        len,
        h,
        y,
    );
    agree_at_all(view_of(h), view_of(y), 2);
    output_agrees(model, *ctx.around, context_lens, h, u, r, s);
}

/// Models of the same parts give the same logits: wherever the parts were loaded from, such as a
/// weight for logits that a file has under a name of its own or under that of the embedding, and
/// whatever else the models hold, the same comes out for the same hidden states, if the mappers take
/// these nowhere.
pub proof fn same_parts_give_same_logits<
    Q: QuantMethod,
    N: Norm,
    M: DeviceMapper,
    C,
    K: Kernels,
    S: Surroundings,
>(
    good: spec_fn(M) -> bool,
    model: ModelWeights<Q, N, M, C>,
    other: ModelWeights<Q, N, M, C>,
    after1: ModelWeights<Q, N, M, C>,
    after2: ModelWeights<Q, N, M, C>,
    ctx: CallContext<'_, K, S>,
    ids: Tensor,
    h1: Tensor,
    h2: Tensor,
    context_lens: Vec<(usize, usize)>,
    is_first_prompt_chunk: bool,
    r1: Tensor,
    r2: Tensor,
) where S::Attention: AttentionKernels<Cache = C>
    requires
        arithmetic_is_determined(),
        other.stage() == model.stage(),
        other.norm == model.norm,
        other.output == model.output,
        plain(h1),
        plain(h2),
        consistent(view_of(h1)),
        view_of(h1) == view_of(h2),
        tensor_dims(h1).len() == 3,
        tensor_dims(h1)[0] == 1,
        stays(good),
        model.mapper matches Some(m) ==> good(m),
        other.mapper matches Some(m) ==> good(m),
        output_is_determined(model, *ctx.around, context_lens),
        // Nothing is in the way, and the layers look back under the masks.
        forall|mask1: MaskOf<S>, mask2: MaskOf<S>| #[trigger]
            model.is_host_mask(ctx, ids, is_first_prompt_chunk, mask1)
                && #[trigger] other.is_host_mask(ctx, ids, is_first_prompt_chunk, mask2) ==> {
                let last = model.layers@.len() - 1;
                let dims = tensor_dims(h1);
                &&& stage_obliges(model.stage(), ctx, mask1, 0, last, dims)
                &&& stage_obliges(model.stage(), ctx, mask2, 0, last, dims)
                &&& stage_sees_back(model.stage(), ctx, ctx, mask1, mask2, 0, last, dims[1])
            },
        model.is_hosted(&after1, ctx, ids, h1, context_lens, is_first_prompt_chunk, r1),
        other.is_hosted(&after2, ctx, ids, h2, context_lens, is_first_prompt_chunk, r2),
    ensures
        view_of(r1) == view_of(r2),
        forall|i: int|
            0 <= i < model.layers@.len() ==> #[trigger] alike_at(
                after1.stage(),
                after2.stage(),
                i,
            ),
{
    let n = model.layers@.len() as int;
    let before = model.stage();
    let (mask1, y1) = hosted_opened(
        good,
        model,
        after1,
        ctx,
        ids,
        h1,
        context_lens,
        is_first_prompt_chunk,
        r1,
    );
    let (mask2, y2) = hosted_opened(
        good,
        other,
        after2,
        ctx,
        ids,
        h2,
        context_lens,
        is_first_prompt_chunk,
        r2,
    );
    let len = tensor_dims(h1)[1] as int;
    rows_of_one(tensor_dims(h1));
    assert(agree(view_of(h1), view_of(h2), 2, 0, len));
    assert(before.layers == model.layers@ && other.stage().layers == other.layers@);
    layers_look_back(
        before,
        before,
        after1.stage(),
        after2.stage(),
        ctx,
        ctx,
        mask1,
        mask2,
        0,
        n,
        h1,
        h2,
        len,
        y1,
        y2,
    );
    agree_at_all(view_of(y1), view_of(y2), 2);
    assert(model.is_output(*ctx.around, y2, context_lens, r2));
    output_agrees(model, *ctx.around, context_lens, y1, y2, r1, r2);
}

/// What a host whose mapper takes hidden states nowhere does, opened.
pub proof fn hosted_opened<Q: QuantMethod, N: Norm, M: DeviceMapper, C, K: Kernels, S: Surroundings>(
    good: spec_fn(M) -> bool,
    model: ModelWeights<Q, N, M, C>,
    after: ModelWeights<Q, N, M, C>,
    ctx: CallContext<'_, K, S>,
    ids: Tensor,
    h0: Tensor,
    context_lens: Vec<(usize, usize)>,
    is_first_prompt_chunk: bool,
    r: Tensor,
) -> (o: (MaskOf<S>, Tensor)) where S::Attention: AttentionKernels<Cache = C>
    requires
        stays(good),
        model.mapper matches Some(m) ==> good(m),
        model.is_hosted(&after, ctx, ids, h0, context_lens, is_first_prompt_chunk, r),
    ensures
        model.is_host_mask(ctx, ids, is_first_prompt_chunk, o.0),
        chain(
            runs(model.stage(), after.stage(), ctx, o.0),
            0,
            model.layers@.len() as int,
            h0,
            o.1,
        ),
        model.is_output(*ctx.around, o.1, context_lens, r),
{
    let n = model.layers@.len() as int;
    let (mask, start, h) = choose|mask: MaskOf<S>, start: Option<M>, h: Tensor|
        {
            &&& #[trigger] model.is_host_mask(ctx, ids, is_first_prompt_chunk, mask)
            &&& #[trigger] is_told(model.mapper, first_offset(ctx.start_offsets@), start)
            &&& chain(
                hosts(model.stage(), after.stage(), ctx, mask),
                0,
                n,
                (start, h0),
                (after.mapper, h),
            )
            &&& #[trigger] model.is_output(*ctx.around, h, context_lens, r)
        };
    if let Some(m) = model.mapper {
        assert(tells(m, first_offset(ctx.start_offsets@), start->0));
    }
    host_runs(good, model.stage(), after.stage(), ctx, mask, n, (start, h0), (after.mapper, h));
    (mask, h)
}

} // verus!
