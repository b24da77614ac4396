//! Passes through layers, one step after the other: what each layer is given, under which mask, and
//! what the mapper is told and asked.
use candle_core::{Error, Tensor};
use vstd::prelude::*;

use crate::backend::{
    hides_nothing, makes_mask, makes_mask_for, maps, norms, picks, projects, serves, tells,
    AttentionKernels, CacheOf, DeviceMapper, Kernels, MaskOf, Norm, PastPositions, QuantMethod,
    Surroundings,
};
use crate::chain::{chain, chain_of_only, only, takes};
use crate::model::{
    cache_of, first_offset, hosts, is_halted, is_mapped, is_told, pages_of, runs, same_at,
    same_from, touches, worker_context, CallContext, LayerWeights, Mixer, ModelWeights, Stage,
};
use crate::shape::count_small;
use crate::tensor::{
    device_is_cpu, plain, tensor_dims, tensor_ids, tensor_on_cpu, tensor_words, view_of,
};

verus! {

/// The points that a chain goes through.
proof fn chain_points<V>(
    step: spec_fn(int, V, V) -> bool,
    from: int,
    to: int,
    x: V,
    y: V,
) -> (points: Seq<V>)
    requires
        from <= to,
        chain(step, from, to, x, y),
    ensures
        points.len() == to - from + 1,
        points[0] == x,
        points[to - from] == y,
        forall|i: int|
            from <= i < to ==> #[trigger] takes(step, i, points[i - from], points[i - from + 1]),
    decreases to - from,
{
    if from == to {
        seq![x]
    } else {
        let z = choose|z: V| chain(step, from, to - 1, x, z) && #[trigger] takes(step, to - 1, z, y);
        let less = chain_points(step, from, to - 1, x, z);
        let points = less.push(y);
        assert forall|i: int| from <= i < to implies #[trigger] takes(
            step,
            i,
            points[i - from],
            points[i - from + 1],
        ) by {
            if i < to - 1 {
                assert(takes(step, i, less[i - from], less[i - from + 1]));
            }
        }
        points
    }
}

/// Layer `i`, if it has weights, makes `y` of `x` under a mask, and keeps what it keeps then; without
/// weights it hands `x` on and leaves its cache alone.
pub open spec fn layer_step<Q: QuantMethod, N: Norm, K: Kernels, S: Surroundings>(
    layer: Option<LayerWeights<Q, N>>,
    after: Option<LayerWeights<Q, N>>,
    ctx: CallContext<'_, K, S>,
    mask: MaskOf<S>,
    cache0: Seq<CacheOf<S>>,
    cache1: Seq<CacheOf<S>>,
    i: int,
    x: Tensor,
    y: Tensor,
) -> bool {
    match layer {
        Some(l) => after is Some && l.is_forward(
            &after->0,
            ctx,
            mask,
            cache_of(cache0, i),
            cache_of(cache1, i),
            i as usize,
            x,
            y,
        ),
        None => after is None && y == x && cache_of(cache1, i) == cache_of(cache0, i),
    }
}

/// What a mapper does to hidden states on their way to layer `i`.
pub open spec fn map_step<M: DeviceMapper>(
    mapper: Option<M>,
    after: Option<M>,
    i: int,
    x: Tensor,
    y: Tensor,
) -> bool {
    match mapper {
        Some(m) => after is Some && maps(m, x, i as usize, after->0, Ok(y)),
        None => after is None && y == x,
    }
}

/// What comes before the positions of a call: what is cached, or as many positions as the offsets say
/// where attention goes over pages.
pub open spec fn positions_before<'a, C, K, S: Surroundings>(
    cache: &'a Vec<C>,
    ctx: CallContext<'a, K, S>,
) -> PastPositions<'a, C> {
    match ctx.paging {
        Some(_) => PastPositions::Offsets(ctx.start_offsets),
        None => PastPositions::Cache(cache),
    }
}

/// What a host does, step by step. A causal mask is made for the token ids, after the positions that
/// are cached, or after the offsets where attention goes over pages; the layers run under it, but for
/// later parts of a prompt over pages, which run under one that hides nothing. The mapper is told the
/// first offset, or zero without one, and then takes hidden states to each layer in turn before that
/// layer runs. What the last layer has put out is normalised, the positions asked for are picked, and
/// these are projected.
pub proof fn host_passes_through_layers<
    Q: QuantMethod,
    N: Norm,
    M: DeviceMapper,
    C,
    K: Kernels,
    S: Surroundings,
>(
    model: ModelWeights<Q, N, M, C>,
    after: ModelWeights<Q, N, M, C>,
    ctx: CallContext<'_, K, S>,
    ids: Tensor,
    h0: Tensor,
    context_lens: Vec<(usize, usize)>,
    is_first_prompt_chunk: bool,
    r: Tensor,
) where S::Attention: AttentionKernels<Cache = C>
    requires
        model.is_hosted(&after, ctx, ids, h0, context_lens, is_first_prompt_chunk, r),
    ensures
        exists|
            made: MaskOf<S>,
            mask: MaskOf<S>,
            mappers: Seq<Option<M>>,
            brought: Seq<Tensor>,
            hidden: Seq<Tensor>,
            normed: Tensor,
            picked: Tensor,
            dense: Tensor,
        |
            {
                let n = model.layers@.len() as int;
                let offsets = ctx.start_offsets;
                &&& #[trigger] makes_mask(
                    *ctx.around,
                    ids,
                    positions_before(&model.cache, ctx),
                    model.dtype,
                    Ok(made),
                )
                &&& if ctx.paging is Some && !is_first_prompt_chunk {
                    hides_nothing(*ctx.around, mask)
                } else {
                    mask == made
                }
                &&& mappers.len() == n + 1 && hidden.len() == n + 1 && brought.len() == n
                &&& match model.mapper {
                    Some(m) => mappers[0] is Some && tells(
                        m,
                        if offsets@.len() > 0 {
                            offsets@[0] as u32
                        } else {
                            0
                        },
                        mappers[0]->0,
                    ),
                    None => mappers[0] is None,
                }
                &&& mappers[n] == after.mapper
                &&& hidden[0] == h0
                &&& #[trigger] passes(model, after, ctx, mask, mappers, brought, hidden)
                &&& #[trigger] norms(model.norm, hidden.last(), normed)
                &&& #[trigger] picks(*ctx.around, normed, context_lens, picked)
                &&& view_of(dense) == view_of(picked)
                &&& #[trigger] projects(model.output, dense, r)
            },
{
    let n = model.layers@.len() as int;
    let past = positions_before(&model.cache, ctx);
    let (mask, start, h) = choose|mask: MaskOf<S>, start: Option<M>, h: Tensor|
        {
            &&& #[trigger] model.is_host_mask(ctx, ids, is_first_prompt_chunk, mask)
            &&& #[trigger] is_told(model.mapper, first_offset(ctx.start_offsets@), start)
            &&& chain(
                hosts(model.stage(), after.stage(), ctx, mask),
                0,
                n,
                (start, h0),
                (after.mapper, h),
            )
            &&& #[trigger] model.is_output(*ctx.around, h, context_lens, r)
        };
    let made = choose|made: MaskOf<S>|
        {
            &&& #[trigger] makes_mask(*ctx.around, ids, past, model.dtype, Ok(made))
            &&& if ctx.paging is Some && !is_first_prompt_chunk {
                hides_nothing(*ctx.around, mask)
            } else {
                mask == made
            }
        };
    let step = hosts::<Q, N, M, K, S>(model.stage(), after.stage(), ctx, mask);
    let points = chain_points(step, 0, n, (start, h0), (after.mapper, h));
    let mappers = Seq::new((n + 1) as nat, |i: int| points[i].0);
    let hidden = Seq::new((n + 1) as nat, |i: int| points[i].1);
    let found = |i: int, m: Tensor| {
        &&& is_mapped(points[i].0, points[i].1, i, points[i + 1].0, Ok(m))
        &&& runs(model.stage(), after.stage(), ctx, mask)(i, m, points[i + 1].1)
    };
    let brought = Seq::new(n as nat, |i: int| choose|m: Tensor| #[trigger] found(i, m));
    assert forall|i: int| 0 <= i < n implies {
        &&& #[trigger] map_step(mappers[i], mappers[i + 1], i, hidden[i], brought[i])
        &&& layer_step(
            model.layers@[i],
            after.layers@[i],
            ctx,
            mask,
            model.cache@,
            after.cache@,
            i,
            brought[i],
            hidden[i + 1],
        )
    } by {
        assert(takes(step, i, points[i - 0], points[i - 0 + 1]));
        let m = choose|m: Tensor| #[trigger]
            is_mapped(points[i].0, points[i].1, i, points[i + 1].0, Ok(m)) && runs(
                model.stage(),
                after.stage(),
                ctx,
                mask,
            )(i, m, points[i + 1].1);
        assert(found(i, m));
        assert(found(i, brought[i]));
    }
    assert(passes(model, after, ctx, mask, mappers, brought, hidden));
    let (normed, picked, dense) = choose|normed: Tensor, picked: Tensor, dense: Tensor|
        {
            &&& #[trigger] norms(model.norm, h, normed)
            &&& #[trigger] picks(*ctx.around, normed, context_lens, picked)
            &&& view_of(dense) == view_of(picked)
            &&& #[trigger] projects(model.output, dense, r)
        };
    assert(hidden.last() == h);
    assert(norms(model.norm, hidden.last(), normed));
    assert(picks(*ctx.around, normed, context_lens, picked));
}

/// Hidden states are brought to each layer in turn and go through it.
pub open spec fn passes<
    Q: QuantMethod,
    N: Norm,
    M: DeviceMapper,
    C,
    K: Kernels,
    S: Surroundings,
>(
    model: ModelWeights<Q, N, M, C>,
    after: ModelWeights<Q, N, M, C>,
    ctx: CallContext<'_, K, S>,
    mask: MaskOf<S>,
    mappers: Seq<Option<M>>,
    brought: Seq<Tensor>,
    hidden: Seq<Tensor>,
) -> bool where S::Attention: AttentionKernels<Cache = C> {
    forall|i: int|
        0 <= i < model.layers@.len() ==> {
            &&& #[trigger] map_step(mappers[i], mappers[i + 1], i, hidden[i], brought[i])
            &&& layer_step(
                model.layers@[i],
                after.layers@[i],
                ctx,
                mask,
                model.cache@,
                after.cache@,
                i,
                brought[i],
                hidden[i + 1],
            )
        }
}

/// What a worker does, step by step: hidden states go through layers `first` to `last`, both
/// included, one after the other, whose positions start after `past` others, under a mask that was
/// made for as many positions after those, or that hides nothing from a single one; what the last has
/// put out comes back in main memory.
pub proof fn worker_passes_through_layers<
    Q: QuantMethod,
    N: Norm,
    M: DeviceMapper,
    C,
    K: Kernels,
    S: Surroundings,
>(
    model: ModelWeights<Q, N, M, C>,
    after: ModelWeights<Q, N, M, C>,
    kernels: &K,
    around: &S,
    past: usize,
    cache0: Seq<CacheOf<S>>,
    cache1: Seq<CacheOf<S>>,
    given: Tensor,
    first: int,
    last: int,
    r: Tensor,
)
    requires
        0 <= first <= last < model.layers@.len(),
        model.is_ranged(&after, kernels, around, cache0, cache1, given, first, last, past, r),
    ensures
        tensor_on_cpu(r),
        exists|offsets: &[usize], mask: MaskOf<S>, hidden: Seq<Tensor>|
            {
                let len = tensor_dims(given)[1];
                &&& offsets@ == seq![past]
                &&& len > 1 ==> makes_mask_for(
                    *around,
                    len,
                    past,
                    model.dtype,
                    model.device,
                    Ok(mask),
                )
                &&& len <= 1 ==> hides_nothing(*around, mask)
                &&& hidden.len() == last - first + 2
                &&& view_of(hidden[0]) == view_of(given)
                &&& view_of(r) == view_of(hidden[last - first + 1])
                &&& #[trigger] goes_through(
                    model,
                    after,
                    CallContext { kernels, around, start_offsets: offsets, paging: None },
                    mask,
                    cache0,
                    cache1,
                    first,
                    last,
                    hidden,
                )
            },
{
    let before = Stage { layers: model.layers@, cache: cache0 };
    let then = Stage { layers: after.layers@, cache: cache1 };
    let n = model.layers@.len() as int;
    let (offsets, mask) = choose|offsets: &[usize], mask: MaskOf<S>|
        {
            &&& offsets@ == seq![past]
            &&& #[trigger] model.is_worker_mask(*around, tensor_dims(given)[1], past, mask)
            &&& model.is_part(
                &after,
                #[trigger] worker_context(kernels, around, offsets),
                mask,
                cache0,
                cache1,
                given,
                first,
                last,
                r,
            )
        };
    let ctx = CallContext { kernels, around, start_offsets: offsets, paging: None };
    let step = runs(before, then, ctx, mask);
    let (h0, h) = choose|h0: Tensor, h: Tensor|
        {
            &&& view_of(h0) == view_of(given)
            &&& plain(given) && device_is_cpu(model.device) ==> plain(h0)
            &&& #[trigger] chain(only(step, first, last), 0, n, h0, h)
            &&& view_of(r) == view_of(h)
            &&& tensor_on_cpu(r)
            &&& plain(h) ==> plain(r)
        };
    chain_of_only(step, first, last, n, h0, h);
    let hidden = chain_points(step, first, last + 1, h0, h);
    assert forall|i: int| first <= i <= last implies layer_step(
        #[trigger] model.layers@[i],
        after.layers@[i],
        ctx,
        mask,
        cache0,
        cache1,
        i,
        hidden[i - first],
        hidden[i - first + 1],
    ) by {
        assert(takes(step, i, hidden[i - first], hidden[i - first + 1]));
    }
    assert(goes_through(model, after, ctx, mask, cache0, cache1, first, last, hidden));
}

/// Hidden states go through layers `first` to `last`, one after the other.
pub open spec fn goes_through<
    Q: QuantMethod,
    N: Norm,
    M: DeviceMapper,
    C,
    K: Kernels,
    S: Surroundings,
>(
    model: ModelWeights<Q, N, M, C>,
    after: ModelWeights<Q, N, M, C>,
    ctx: CallContext<'_, K, S>,
    mask: MaskOf<S>,
    cache0: Seq<CacheOf<S>>,
    cache1: Seq<CacheOf<S>>,
    first: int,
    last: int,
    hidden: Seq<Tensor>,
) -> bool {
    forall|i: int|
        first <= i <= last ==> layer_step(
            #[trigger] model.layers@[i],
            after.layers@[i],
            ctx,
            mask,
            cache0,
            cache1,
            i,
            hidden[i - first],
            hidden[i - first + 1],
        )
}

/// What mixes positions works with what it is given and has kept: attention with the kernels, the
/// pages and the cache of its layer and the positions of the call, a layer that keeps a state with
/// the rows and the memory that it has kept, which then become those that it keeps.
pub proof fn mixer_works_with_its_own<Q: QuantMethod, K, S: Surroundings>(
    mixer: Mixer<Q>,
    after: Mixer<Q>,
    ctx: CallContext<'_, K, S>,
    mask: MaskOf<S>,
    cache0: Option<CacheOf<S>>,
    cache1: Option<CacheOf<S>>,
    i: usize,
    x: Tensor,
    y: Tensor,
)
    requires
        mixer.is_mixed(&after, ctx, mask, cache0, cache1, i, x, y),
    ensures
        match mixer {
            Mixer::Attention(a) => {
                &&& after == mixer
                &&& exists|kernels: S::Attention| #[trigger]
                    serves(*ctx.around, i, kernels) && a.is_forward(
                        kernels,
                        x,
                        ctx.start_offsets,
                        match ctx.paging {
                            Some(pages) => Some(&pages@[i as int]),
                            None => None,
                        },
                        mask,
                        cache0->0,
                        cache1->0,
                        y,
                    )
            },
            Mixer::Ssm { ssm, conv_state, ssm_state } => {
                &&& cache1 == cache0
                &&& after matches Mixer::Ssm { ssm: same, conv_state: rows, ssm_state: memory }
                    && same == ssm && ssm.is_forward(x, conv_state, rows, ssm_state, memory, y)
            },
        },
{
    match mixer {
        Mixer::Attention(a) => {
            let kernels = choose|kernels: S::Attention|
                {
                    &&& #[trigger] serves(*ctx.around, i, kernels)
                    &&& a.is_forward(
                        kernels,
                        x,
                        ctx.start_offsets,
                        pages_of(ctx, i as int),
                        mask,
                        cache0->0,
                        cache1->0,
                        y,
                    )
                };
            assert(serves(*ctx.around, i, kernels));
        },
        _ => {},
    }
}

/// Each token id is looked up in the table: what comes out for it is its row, or zeros for the one
/// that stands for none.
pub proof fn ids_become_rows<Q: QuantMethod, N: Norm, M: DeviceMapper, C>(
    model: ModelWeights<Q, N, M, C>,
    ids: Tensor,
    h: Tensor,
    j: int,
    i: int,
)
    requires
        model.is_embedded(ids, h),
        tensor_ids(ids) is Some,
        tensor_dims(model.tok_embeddings).len() == 2,
        0 <= j < (tensor_ids(ids)->0).len(),
        0 <= i < tensor_dims(model.tok_embeddings)[1],
    ensures
        ({
            let width = tensor_dims(model.tok_embeddings)[1];
            let id = (tensor_ids(ids)->0)[j];
            tensor_words(h)[j * width + i] == (if id == u32::MAX {
                0
            } else {
                tensor_words(model.tok_embeddings)[id * width + i]
            })
        }),
        tensor_dims(h) == tensor_dims(ids).push(model.embedding_length),
{
    let d = tensor_dims(model.tok_embeddings);
    let named = tensor_ids(ids)->0;
    let w = d[1] as int;
    let n = named.len() as int;
    assert(d.skip(1) =~= seq![d[1]]);
    count_small(d[1], 0, 0, 0, 0);
    let p = j * w + i;
    assert(0 <= p < n * w && p / w == j && p % w == i) by (nonlinear_arith)
        requires
            p == j * w + i,
            0 <= j < n,
            0 <= i < w,
    ;
}

/// The whole model looks the token ids up and passes what it finds through its layers, with the same
/// choice of positions and for the same part of the prompt.
pub proof fn whole_model_starts_from_ids<
    Q: QuantMethod,
    N: Norm,
    M: DeviceMapper,
    C,
    K: Kernels,
    S: Surroundings,
>(
    model: ModelWeights<Q, N, M, C>,
    after: ModelWeights<Q, N, M, C>,
    ctx: CallContext<'_, K, S>,
    ids: Tensor,
    context_lens: Vec<(usize, usize)>,
    is_first_prompt_chunk: bool,
    r: Tensor,
) where S::Attention: AttentionKernels<Cache = C>
    requires
        model.is_forward(&after, ctx, ids, context_lens, is_first_prompt_chunk, r),
    ensures
        exists|h0: Tensor| #[trigger]
            model.is_embedded(ids, h0) && model.is_hosted(
                &after,
                ctx,
                ids,
                h0,
                context_lens,
                is_first_prompt_chunk,
                r,
            ),
{
}

/// A host that is stopped on its way has changed nothing behind the layer where it stopped, and has
/// passed hidden states through all layers before it, as it does otherwise.
pub proof fn stopped_host_leaves_the_rest<
    Q: QuantMethod,
    N: Norm,
    M: DeviceMapper,
    K: Kernels,
    S: Surroundings,
>(
    before: Stage<Q, N, CacheOf<S>>,
    after: Stage<Q, N, CacheOf<S>>,
    ctx: CallContext<'_, K, S>,
    mask: MaskOf<S>,
    start: (Option<M>, Tensor),
    end: Option<M>,
)
    requires
        is_halted(before, after, ctx, mask, start, end),
    ensures
        exists|k: int, points: Seq<(Option<M>, Tensor)>|
            {
                &&& 0 <= k < before.layers.len()
                &&& points.len() == k + 1
                &&& points[0] == start
                &&& #[trigger] host_steps(before, after, ctx, mask, k, points)
                &&& forall|i: int|
                    #![trigger after.layers[i]]
                    k < i < before.layers.len() ==> after.layers[i] == before.layers[i]
                &&& forall|i: int|
                    #![trigger after.cache[i]]
                    k < i < before.cache.len() ==> after.cache[i] == before.cache[i]
            },
{
    let (k, u) = choose|k: int, u: (Option<M>, Tensor)|
        {
            &&& 0 <= k < before.layers.len()
            &&& #[trigger] chain(hosts(before, after, ctx, mask), 0, k, start, u)
            &&& same_from(before, after, k + 1)
            &&& exists|r: Result<Tensor, Error>| #[trigger]
                is_mapped(u.0, u.1, k, end, r) && match r {
                    Ok(m) => touches(before, after, ctx, k, m),
                    Err(_) => same_at(before, after, k),
                }
        };
    let step = hosts::<Q, N, M, K, S>(before, after, ctx, mask);
    let points = chain_points(step, 0, k, start, u);
    assert forall|i: int| 0 <= i < k implies #[trigger] host_step_at(
        before,
        after,
        ctx,
        mask,
        i,
        points[i],
        points[i + 1],
    ) by {
        assert(takes(step, i, points[i - 0], points[i - 0 + 1]));
        let m = choose|m: Tensor| #[trigger]
            is_mapped(points[i].0, points[i].1, i, points[i + 1].0, Ok(m)) && runs(
                before,
                after,
                ctx,
                mask,
            )(i, m, points[i + 1].1);
        assert(map_step(points[i].0, points[i + 1].0, i, points[i].1, m));
    }
    assert(host_steps(before, after, ctx, mask, k, points));
    assert forall|i: int|
        #![trigger after.layers[i]]
        k < i < before.layers.len() implies after.layers[i] == before.layers[i] by {
        assert(same_at(before, after, i));
    }
    assert forall|i: int|
        #![trigger after.cache[i]]
        k < i < before.cache.len() implies after.cache[i] == before.cache[i] by {
        assert(same_at(before, after, i));
    }
}

/// The mapper takes hidden states to layer `i`, and they go through it.
pub open spec fn host_step_at<
    Q: QuantMethod,
    N: Norm,
    M: DeviceMapper,
    K: Kernels,
    S: Surroundings,
>(
    before: Stage<Q, N, CacheOf<S>>,
    after: Stage<Q, N, CacheOf<S>>,
    ctx: CallContext<'_, K, S>,
    mask: MaskOf<S>,
    i: int,
    u: (Option<M>, Tensor),
    v: (Option<M>, Tensor),
) -> bool {
    exists|m: Tensor| #[trigger]
        map_step(u.0, v.0, i, u.1, m) && layer_step(
            before.layers[i],
            after.layers[i],
            ctx,
            mask,
            before.cache,
            after.cache,
            i,
            m,
            v.1,
        )
}

/// Hidden states have been taken to the first `k` layers, one after the other, and through them.
pub open spec fn host_steps<
    Q: QuantMethod,
    N: Norm,
    M: DeviceMapper,
    K: Kernels,
    S: Surroundings,
>(
    before: Stage<Q, N, CacheOf<S>>,
    after: Stage<Q, N, CacheOf<S>>,
    ctx: CallContext<'_, K, S>,
    mask: MaskOf<S>,
    k: int,
    points: Seq<(Option<M>, Tensor)>,
) -> bool {
    forall|i: int|
        0 <= i < k ==> #[trigger] host_step_at(
            before,
            after,
            ctx,
            mask,
            i,
            points[i],
            points[i + 1],
        )
}

/// A worker that is stopped on its way, or at its end, has changed nothing behind the layer where it
/// stopped, which is one of those asked for, and has passed hidden states through the layers before
/// it, as it does otherwise.
pub proof fn stopped_worker_leaves_the_rest<
    Q: QuantMethod,
    N: Norm,
    M: DeviceMapper,
    C,
    K: Kernels,
    S: Surroundings,
>(
    model: ModelWeights<Q, N, M, C>,
    after: ModelWeights<Q, N, M, C>,
    ctx: CallContext<'_, K, S>,
    mask: MaskOf<S>,
    cache0: Seq<CacheOf<S>>,
    cache1: Seq<CacheOf<S>>,
    given: Tensor,
    first: int,
    last: int,
)
    requires
        0 <= first <= last < model.layers@.len(),
        model.is_part_left(&after, ctx, mask, cache0, cache1, given, first, last),
    ensures
        exists|k: int, hidden: Seq<Tensor>|
            {
                &&& 0 <= k <= model.layers@.len()
                &&& k < model.layers@.len() ==> first <= k <= last
                &&& hidden.len() == k + 1
                &&& view_of(hidden[0]) == view_of(given)
                &&& #[trigger] passes_some(
                    model,
                    after,
                    ctx,
                    mask,
                    cache0,
                    cache1,
                    first,
                    last,
                    k,
                    hidden,
                )
                &&& forall|i: int|
                    #![trigger after.layers@[i]]
                    k < i < model.layers@.len() ==> after.layers@[i] == model.layers@[i]
                &&& forall|i: int|
                    #![trigger cache1[i]]
                    k < i < cache0.len() ==> cache1[i] == cache0[i]
            },
{
    let before = Stage { layers: model.layers@, cache: cache0 };
    let then = Stage { layers: after.layers@, cache: cache1 };
    let step = only(runs(before, then, ctx, mask), first, last);
    let (h0, k, x) = choose|h0: Tensor, k: int, x: Tensor|
        {
            &&& view_of(h0) == view_of(given)
            &&& 0 <= k <= model.layers@.len()
            &&& #[trigger] chain(only(runs(before, then, ctx, mask), first, last), 0, k, h0, x)
            &&& k < model.layers@.len() ==> first <= k <= last && touches(before, then, ctx, k, x)
            &&& same_from(before, then, k + 1)
        };
    let hidden = chain_points(step, 0, k, h0, x);
    assert forall|i: int|
        #![trigger hidden[i]]
        0 <= i < k implies {
        &&& first <= i <= last ==> layer_step(
            model.layers@[i],
            after.layers@[i],
            ctx,
            mask,
            cache0,
            cache1,
            i,
            hidden[i],
            hidden[i + 1],
        )
        &&& !(first <= i <= last) ==> hidden[i + 1] == hidden[i]
    } by {
        assert(takes(step, i, hidden[i - 0], hidden[i - 0 + 1]));
    }
    assert(passes_some(model, after, ctx, mask, cache0, cache1, first, last, k, hidden));
    assert forall|i: int|
        #![trigger after.layers@[i]]
        k < i < model.layers@.len() implies after.layers@[i] == model.layers@[i] by {
        assert(same_at(before, then, i));
    }
    assert forall|i: int|
        #![trigger cache1[i]]
        k < i < cache0.len() implies cache1[i] == cache0[i] by {
        assert(same_at(before, then, i));
    }
}

/// Of the first `k` layers, hidden states have gone through those from `first` to `last`.
pub open spec fn passes_some<
    Q: QuantMethod,
    N: Norm,
    M: DeviceMapper,
    C,
    K: Kernels,
    S: Surroundings,
>(
    model: ModelWeights<Q, N, M, C>,
    after: ModelWeights<Q, N, M, C>,
    ctx: CallContext<'_, K, S>,
    mask: MaskOf<S>,
    cache0: Seq<CacheOf<S>>,
    cache1: Seq<CacheOf<S>>,
    first: int,
    last: int,
    k: int,
    hidden: Seq<Tensor>,
) -> bool {
    forall|i: int|
        #![trigger hidden[i]]
        0 <= i < k ==> {
            &&& first <= i <= last ==> layer_step(
                model.layers@[i],
                after.layers@[i],
                ctx,
                mask,
                cache0,
                cache1,
                i,
                hidden[i],
                hidden[i + 1],
            )
            &&& !(first <= i <= last) ==> hidden[i + 1] == hidden[i]
        }
}

/// Whatever comes of a layer, what it keeps stays as it is, or becomes what its mixer makes of the
/// normalised input: a cache that takes in keys and values, or rows and a memory.
pub proof fn layer_keeps_what_its_mixer_keeps<
    Q: QuantMethod,
    N: Norm,
    K,
    S: Surroundings,
>(
    layer: LayerWeights<Q, N>,
    after: LayerWeights<Q, N>,
    ctx: CallContext<'_, K, S>,
    cache0: Option<CacheOf<S>>,
    cache1: Option<CacheOf<S>>,
    i: usize,
    x: Tensor,
)
    requires
        layer.is_kept(&after, ctx, cache0, cache1, i, x),
    ensures
        after.attention_norm == layer.attention_norm && after.ffn_norm == layer.ffn_norm && after.mlp
            == layer.mlp,
        after == layer && cache1 == cache0 || exists|normed: Tensor| #[trigger]
            norms(layer.attention_norm, x, normed) && match layer.mixer {
                Mixer::Attention(a) => {
                    &&& after.mixer == layer.mixer
                    &&& exists|kernels: S::Attention| #[trigger]
                        serves(*ctx.around, i, kernels) && a.is_cached(
                            kernels,
                            normed,
                            ctx.start_offsets,
                            cache0->0,
                            cache1->0,
                        )
                },
                Mixer::Ssm { ssm, conv_state, ssm_state } => {
                    &&& cache1 == cache0
                    &&& after.mixer matches Mixer::Ssm {
                        ssm: same,
                        conv_state: rows,
                        ssm_state: memory,
                    } && same == ssm && ssm.is_kept(normed, conv_state, rows, ssm_state, memory)
                },
            },
{
    if !(after == layer && cache1 == cache0) {
        let normed = choose|normed: Tensor| #[trigger]
            norms(layer.attention_norm, x, normed) && layer.mixer.is_kept(
                &after.mixer,
                ctx,
                cache0,
                cache1,
                i,
                normed,
            );
        assert(norms(layer.attention_norm, x, normed));
        match layer.mixer {
            Mixer::Attention(a) => {
                let kernels = choose|kernels: S::Attention|
                    {
                        &&& #[trigger] serves(*ctx.around, i, kernels)
                        &&& a.is_cached(
                            kernels,
                            normed,
                            ctx.start_offsets,
                            cache0->0,
                            cache1->0,
                        )
                    };
                assert(serves(*ctx.around, i, kernels));
            },
            _ => {},
        }
    }
}

} // verus!
