//! What comes out of a model whose layers are split between a host and its workers.
//!
//! A worker does not get the host's own tensors but others with the same dimensions and elements,
//! so that is how far the two can be compared.
use candle_core::Tensor;
use vstd::prelude::*;

use crate::backend::{
    maps, tells, AttentionKernels, CacheOf, DeviceMapper, Kernels, MaskOf, Norm, QuantMethod,
    Surroundings,
};
use crate::chain::{
    chain, chain_agrees, chain_of_only, chain_splits, host_step, only, takes,
    workers_are_transparent,
};
use crate::codec::read_tensor;
use crate::le::le_bytes;
use crate::mapper::{
    are_blocks, in_block, is_block, worker_of, RemoteBlock, RemoteLayerMapper, RemoteRequest,
};
use crate::model::{
    cache_of, first_offset, hosts, is_mapped, is_told, runs, same_at, CallContext, ModelWeights,
    Stage,
};
use crate::shape::{consistent, TensorView};
use crate::tensor::view_of;
use crate::topology::RemoteAwareDevice;
use crate::wire::{range_bytes, CMD_COMPUTE};
use crate::worker::{
    host_reads_what_was_computed, is_worker_step, worker_runs_what_was_sent, WorkerEvent,
    WorkerState,
};

verus! {

/// Steps as they look to one who sees of tensors only their dimensions and elements.
pub open spec fn seen(step: spec_fn(int, Tensor, Tensor) -> bool) -> spec_fn(
    int,
    TensorView,
    TensorView,
) -> bool {
    |i: int, v: TensorView, w: TensorView|
        exists|x: Tensor, y: Tensor|
            view_of(x) == v && view_of(y) == w && #[trigger] takes(step, i, x, y)
}

/// What the layers do, each where it runs: `own` says what those of the host do, `remote` what
/// those of the workers do.
pub open spec fn everywhere(
    specs: Seq<RemoteAwareDevice>,
    own: spec_fn(int, Tensor, Tensor) -> bool,
    remote: spec_fn(int, Tensor, Tensor) -> bool,
) -> spec_fn(int, TensorView, TensorView) -> bool {
    |i: int, v: TensorView, w: TensorView|
        if worker_of(specs, i) is None {
            seen(own)(i, v, w)
        } else {
            seen(remote)(i, v, w)
        }
}

/// The layers from `first` to `last`, both included, can lead from `x` to `m`.
pub open spec fn is_block_run(
    step: spec_fn(int, Tensor, Tensor) -> bool,
    first: int,
    last: int,
    x: Tensor,
    m: Tensor,
) -> bool {
    exists|h0: Tensor, h: Tensor|
        {
            &&& view_of(h0) == view_of(x)
            &&& #[trigger] chain(step, first, last + 1, h0, h)
            &&& view_of(m) == view_of(h)
        }
}

/// Layer `i` is the first of a block.
pub open spec fn is_first(blocks: Seq<RemoteBlock>, i: int) -> bool {
    exists|b: int| 0 <= b < blocks.len() && (#[trigger] blocks[b]).1 == i
}

/// At the first layer of a block the whole block leads from `x` to `m`; at other layers the two
/// are the same.
pub open spec fn is_bridged(
    blocks: Seq<RemoteBlock>,
    remote: spec_fn(int, Tensor, Tensor) -> bool,
    i: int,
    x: Tensor,
    m: Tensor,
) -> bool {
    if is_first(blocks, i) {
        exists|b: int|
            {
                &&& 0 <= b < blocks.len()
                &&& (#[trigger] blocks[b]).1 == i
                &&& is_block_run(remote, i, blocks[b].2 as int, x, m)
            }
    } else {
        view_of(m) == view_of(x)
    }
}

/// Mappers of which `good` holds have workers run their blocks, and change nothing otherwise, and
/// it holds of them from then on.
pub open spec fn bridges<M: DeviceMapper>(
    good: spec_fn(M) -> bool,
    blocks: Seq<RemoteBlock>,
    remote: spec_fn(int, Tensor, Tensor) -> bool,
) -> bool {
    forall|mapper: M, i: usize, x: Tensor, after: M, m: Tensor| #[trigger]
        maps(mapper, x, i, after, Ok(m)) && good(mapper) ==> good(after) && is_bridged(
            blocks,
            remote,
            i as int,
            x,
            m,
        )
}

/// Steps between tensors are steps between what is seen of them.
proof fn chain_through(
    a: spec_fn(int, Tensor, Tensor) -> bool,
    b: spec_fn(int, TensorView, TensorView) -> bool,
    from: int,
    to: int,
    x: Tensor,
    y: Tensor,
)
    requires
        forall|i: int, u: Tensor, v: Tensor|
            from <= i < to && #[trigger] takes(a, i, u, v) ==> takes(b, i, view_of(u), view_of(v)),
        chain(a, from, to, x, y),
    ensures
        chain(b, from, to, view_of(x), view_of(y)),
    decreases to - from,
{
    if from < to {
        let z = choose|z: Tensor| chain(a, from, to - 1, x, z) && #[trigger] takes(a, to - 1, z, y);
        chain_through(a, b, from, to - 1, x, z);
        assert(takes(b, to - 1, view_of(z), view_of(y)));
    }
}

/// What is seen of a block that has been run.
proof fn block_is_seen(
    specs: Seq<RemoteAwareDevice>,
    own: spec_fn(int, Tensor, Tensor) -> bool,
    remote: spec_fn(int, Tensor, Tensor) -> bool,
    block: RemoteBlock,
    x: Tensor,
    m: Tensor,
)
    requires
        is_block(specs, block),
        is_block_run(remote, block.1 as int, block.2 as int, x, m),
    ensures
        chain(
            everywhere(specs, own, remote),
            block.1 as int,
            block.2 + 1,
            view_of(x),
            view_of(m),
        ),
{
    let first = block.1 as int;
    let end = block.2 + 1;
    let all = everywhere(specs, own, remote);
    let (h0, h) = choose|h0: Tensor, h: Tensor|
        {
            &&& view_of(h0) == view_of(x)
            &&& #[trigger] chain(remote, first, end, h0, h)
            &&& view_of(m) == view_of(h)
        };
    assert forall|i: int, u: Tensor, v: Tensor|
        first <= i < end && #[trigger] takes(remote, i, u, v) implies takes(
        all,
        i,
        view_of(u),
        view_of(v),
    ) by {
        assert(in_block(block, i));
        assert(worker_of(specs, i) == Some(block.0@));
        assert(seen(remote)(i, view_of(u), view_of(v)));
    }
    chain_through(remote, all, first, end, h0, h);
}

/// What a host does at a layer, as it is seen.
proof fn host_is_seen<Q: QuantMethod, N: Norm, M: DeviceMapper, K: Kernels, S: Surroundings>(
    good: spec_fn(M) -> bool,
    before: Stage<Q, N, CacheOf<S>>,
    after: Stage<Q, N, CacheOf<S>>,
    ctx: CallContext<'_, K, S>,
    mask: MaskOf<S>,
    specs: Seq<RemoteAwareDevice>,
    blocks: Seq<RemoteBlock>,
    remote: spec_fn(int, Tensor, Tensor) -> bool,
    i: int,
    u: (Option<M>, Tensor),
    v: (Option<M>, Tensor),
)
    requires
        are_blocks(specs, blocks, specs.len() as int),
        specs.len() <= usize::MAX,
        before.layers.len() == specs.len(),
        after.layers.len() == specs.len(),
        forall|k: int|
            0 <= k < specs.len() && #[trigger] worker_of(specs, k) is Some ==> before.layers[k]
                is None,
        bridges(good, blocks, remote),
        0 <= i < specs.len(),
        u.0 matches Some(m) && good(m),
        hosts(before, after, ctx, mask)(i, u, v),
    ensures
        v.0 matches Some(m) && good(m),
        host_step(everywhere(specs, runs(before, after, ctx, mask), remote), specs, blocks)(
            i,
            view_of(u.1),
            view_of(v.1),
        ),
{
    let own = runs(before, after, ctx, mask);
    let all = everywhere(specs, own, remote);
    let x = u.1;
    let y = v.1;
    let m = choose|m: Tensor| #[trigger] is_mapped(u.0, x, i, v.0, Ok(m)) && own(i, m, y);
    assert(maps(u.0->0, x, i as usize, v.0->0, Ok(m)));
    assert(is_bridged(blocks, remote, i, x, m));
    if worker_of(specs, i) is None {
        if is_first(blocks, i) {
            let b = choose|b: int| 0 <= b < blocks.len() && (#[trigger] blocks[b]).1 == i;
            assert(is_block(specs, blocks[b]));
            assert(in_block(blocks[b], i));
        }
        assert(takes(own, i, m, y));
        assert(seen(own)(i, view_of(x), view_of(y)));
    } else {
        assert(m == y);
        let c = choose|c: int| 0 <= c < blocks.len() && in_block(#[trigger] blocks[c], i);
        assert(is_block(specs, blocks[c]));
        if is_first(blocks, i) {
            let b = choose|b: int|
                {
                    &&& 0 <= b < blocks.len()
                    &&& (#[trigger] blocks[b]).1 == i
                    &&& is_block_run(remote, i, blocks[b].2 as int, x, m)
                };
            assert(is_block(specs, blocks[b]));
            assert(in_block(blocks[b], i));
            block_is_seen(specs, own, remote, blocks[b], x, m);
        } else {
            assert(in_block(blocks[c], i));
            assert(blocks[c].1 != i);
        }
    }
}

/// What a host does up to a layer, as it is seen.
proof fn hosts_are_seen<Q: QuantMethod, N: Norm, M: DeviceMapper, K: Kernels, S: Surroundings>(
    good: spec_fn(M) -> bool,
    before: Stage<Q, N, CacheOf<S>>,
    after: Stage<Q, N, CacheOf<S>>,
    ctx: CallContext<'_, K, S>,
    mask: MaskOf<S>,
    specs: Seq<RemoteAwareDevice>,
    blocks: Seq<RemoteBlock>,
    remote: spec_fn(int, Tensor, Tensor) -> bool,
    k: int,
    u: (Option<M>, Tensor),
    v: (Option<M>, Tensor),
)
    requires
        are_blocks(specs, blocks, specs.len() as int),
        specs.len() <= usize::MAX,
        before.layers.len() == specs.len(),
        after.layers.len() == specs.len(),
        forall|i: int|
            0 <= i < specs.len() && #[trigger] worker_of(specs, i) is Some ==> before.layers[i]
                is None,
        bridges(good, blocks, remote),
        0 <= k <= specs.len(),
        u.0 matches Some(m) && good(m),
        chain(hosts(before, after, ctx, mask), 0, k, u, v),
    ensures
        v.0 matches Some(m) && good(m),
        chain(
            host_step(everywhere(specs, runs(before, after, ctx, mask), remote), specs, blocks),
            0,
            k,
            view_of(u.1),
            view_of(v.1),
        ),
    decreases k,
{
    let host = hosts::<Q, N, M, K, S>(before, after, ctx, mask);
    let step = host_step(everywhere(specs, runs(before, after, ctx, mask), remote), specs, blocks);
    if k > 0 {
        let i = k - 1;
        let w = choose|w: (Option<M>, Tensor)|
            chain(host, 0, i, u, w) && #[trigger] takes(host, i, w, v);
        hosts_are_seen(good, before, after, ctx, mask, specs, blocks, remote, i, u, w);
        host_is_seen(good, before, after, ctx, mask, specs, blocks, remote, i, w, v);
        assert(takes(step, i, view_of(w.1), view_of(v.1)));
    }
}

/// Splitting a model changes nothing: where a host runs its own layers and its mapper has workers
/// run theirs, what comes out is what running all layers in order, each where it is, puts out.
pub proof fn split_model_is_whole<
    Q: QuantMethod,
    N: Norm,
    M: DeviceMapper,
    K: Kernels,
    S: Surroundings,
>(
    good: spec_fn(M) -> bool,
    before: Stage<Q, N, CacheOf<S>>,
    after: Stage<Q, N, CacheOf<S>>,
    ctx: CallContext<'_, K, S>,
    mask: MaskOf<S>,
    specs: Seq<RemoteAwareDevice>,
    blocks: Seq<RemoteBlock>,
    remote: spec_fn(int, Tensor, Tensor) -> bool,
    u: (Option<M>, Tensor),
    v: (Option<M>, Tensor),
)
    requires
        are_blocks(specs, blocks, specs.len() as int),
        specs.len() <= usize::MAX,
        before.layers.len() == specs.len(),
        after.layers.len() == specs.len(),
        forall|k: int|
            0 <= k < specs.len() && #[trigger] worker_of(specs, k) is Some ==> before.layers[k]
                is None,
        bridges(good, blocks, remote),
        u.0 matches Some(m) && good(m),
        chain(hosts(before, after, ctx, mask), 0, specs.len() as int, u, v),
    ensures
        chain(
            everywhere(specs, runs(before, after, ctx, mask), remote),
            0,
            specs.len() as int,
            view_of(u.1),
            view_of(v.1),
        ),
{
    let n = specs.len() as int;
    let all = everywhere(specs, runs(before, after, ctx, mask), remote);
    hosts_are_seen(good, before, after, ctx, mask, specs, blocks, remote, n, u, v);
    workers_are_transparent(all, specs, blocks, view_of(u.1), view_of(v.1));
}

/// Leaving all layers to workers changes nothing either: a host that runs no layer of its own gets
/// what the workers' layers, one after the other, put out.
pub proof fn remote_model_is_whole<
    Q: QuantMethod,
    N: Norm,
    M: DeviceMapper,
    K: Kernels,
    S: Surroundings,
>(
    good: spec_fn(M) -> bool,
    before: Stage<Q, N, CacheOf<S>>,
    after: Stage<Q, N, CacheOf<S>>,
    ctx: CallContext<'_, K, S>,
    mask: MaskOf<S>,
    specs: Seq<RemoteAwareDevice>,
    blocks: Seq<RemoteBlock>,
    remote: spec_fn(int, Tensor, Tensor) -> bool,
    u: (Option<M>, Tensor),
    v: (Option<M>, Tensor),
)
    requires
        are_blocks(specs, blocks, specs.len() as int),
        specs.len() <= usize::MAX,
        before.layers.len() == specs.len(),
        after.layers.len() == specs.len(),
        forall|k: int|
            0 <= k < specs.len() ==> #[trigger] worker_of(specs, k) is Some && before.layers[k]
                is None,
        bridges(good, blocks, remote),
        u.0 matches Some(m) && good(m),
        chain(hosts(before, after, ctx, mask), 0, specs.len() as int, u, v),
    ensures
        chain(seen(remote), 0, specs.len() as int, view_of(u.1), view_of(v.1)),
{
    let n = specs.len() as int;
    let all = everywhere(specs, runs(before, after, ctx, mask), remote);
    split_model_is_whole(good, before, after, ctx, mask, specs, blocks, remote, u, v);
    assert forall|i: int, x: TensorView, y: TensorView| 0 <= i < n implies #[trigger] all(i, x, y)
        == seen(remote)(i, x, y) by {
        assert(worker_of(specs, i) is Some);
    }
    chain_agrees(all, seen(remote), 0, n, view_of(u.1), view_of(v.1));
}

/// A whole pass of a split model: the hidden states that logits are made of are what running all
/// layers in order, each where it is, puts out for those that went in. The mapper has been told
/// how many positions come before.
pub proof fn split_pass_is_whole<
    Q: QuantMethod,
    N: Norm,
    M: DeviceMapper,
    C,
    K: Kernels,
    S: Surroundings,
>(
    good: spec_fn(M) -> bool,
    told: spec_fn(M) -> bool,
    model: ModelWeights<Q, N, M, C>,
    after: ModelWeights<Q, N, M, C>,
    ctx: CallContext<'_, K, S>,
    ids: Tensor,
    h0: Tensor,
    context_lens: Vec<(usize, usize)>,
    is_first_prompt_chunk: bool,
    specs: Seq<RemoteAwareDevice>,
    blocks: Seq<RemoteBlock>,
    remote: spec_fn(int, Tensor, Tensor) -> bool,
    r: Tensor,
) where S::Attention: AttentionKernels<Cache = C>
    requires
        are_blocks(specs, blocks, specs.len() as int),
        specs.len() <= usize::MAX,
        model.layers@.len() == specs.len(),
        after.layers@.len() == specs.len(),
        forall|k: int|
            0 <= k < specs.len() && #[trigger] worker_of(specs, k) is Some ==> model.layers@[k]
                is None,
        model.mapper matches Some(m) && good(m),
        forall|m: M, t: M| #[trigger]
            tells(m, first_offset(ctx.start_offsets@), t) && good(m) ==> told(t),
        bridges(told, blocks, remote),
        model.is_hosted(&after, ctx, ids, h0, context_lens, is_first_prompt_chunk, r),
    ensures
        exists|mask: MaskOf<S>, h: Tensor|
            {
                &&& #[trigger] model.is_host_mask(ctx, ids, is_first_prompt_chunk, mask)
                &&& chain(
                    everywhere(specs, runs(model.stage(), after.stage(), ctx, mask), remote),
                    0,
                    specs.len() as int,
                    view_of(h0),
                    view_of(h),
                )
                &&& #[trigger] model.is_output(*ctx.around, h, context_lens, r)
            },
{
    let n = specs.len() as int;
    let (mask, start, h) = choose|mask: MaskOf<S>, start: Option<M>, h: Tensor|
        {
            &&& #[trigger] model.is_host_mask(ctx, ids, is_first_prompt_chunk, mask)
            &&& #[trigger] is_told(model.mapper, first_offset(ctx.start_offsets@), start)
            &&& chain(
                hosts(model.stage(), after.stage(), ctx, mask),
                0,
                model.layers@.len() as int,
                (start, h0),
                (after.mapper, h),
            )
            &&& #[trigger] model.is_output(*ctx.around, h, context_lens, r)
        };
    assert(tells(model.mapper->0, first_offset(ctx.start_offsets@), start->0));
    split_model_is_whole(
        told,
        model.stage(),
        after.stage(),
        ctx,
        mask,
        specs,
        blocks,
        remote,
        (start, h0),
        (after.mapper, h),
    );
}

/// What the layers of a worker's model do, while it and its caches go from one state to another.
pub open spec fn part_step<
    Q: QuantMethod,
    N: Norm,
    M: DeviceMapper,
    C,
    K: Kernels,
    S: Surroundings,
>(
    model: ModelWeights<Q, N, M, C>,
    after: ModelWeights<Q, N, M, C>,
    ctx: CallContext<'_, K, S>,
    mask: MaskOf<S>,
    cache0: Seq<CacheOf<S>>,
    cache1: Seq<CacheOf<S>>,
) -> spec_fn(int, Tensor, Tensor) -> bool {
    runs(
        Stage { layers: model.layers@, cache: cache0 },
        Stage { layers: after.layers@, cache: cache1 },
        ctx,
        mask,
    )
}

/// What a worker has made of a part of its model is what the layers of that part lead to.
pub proof fn part_is_block_run<
    Q: QuantMethod,
    N: Norm,
    M: DeviceMapper,
    C,
    K: Kernels,
    S: Surroundings,
>(
    model: ModelWeights<Q, N, M, C>,
    after: ModelWeights<Q, N, M, C>,
    ctx: CallContext<'_, K, S>,
    mask: MaskOf<S>,
    cache0: Seq<CacheOf<S>>,
    cache1: Seq<CacheOf<S>>,
    hidden: Tensor,
    first: int,
    last: int,
    r: Tensor,
)
    requires
        0 <= first <= last < model.layers@.len(),
        model.is_part(&after, ctx, mask, cache0, cache1, hidden, first, last, r),
    ensures
        is_block_run(part_step(model, after, ctx, mask, cache0, cache1), first, last, hidden, r),
{
    let step = part_step(model, after, ctx, mask, cache0, cache1);
    let n = model.layers@.len() as int;
    let (h0, h) = choose|h0: Tensor, h: Tensor|
        {
            &&& view_of(h0) == view_of(hidden)
            &&& #[trigger] chain(only(step, first, last), 0, n, h0, h)
            &&& view_of(r) == view_of(h)
        };
    chain_of_only(step, first, last, n, h0, h);
    assert(chain(step, first, last + 1, h0, h));
}

/// Running some layers and then those that follow, with what the first have put out, is running
/// them all.
pub proof fn parts_follow(
    step: spec_fn(int, Tensor, Tensor) -> bool,
    first: int,
    mid: int,
    last: int,
    x: Tensor,
    m: Tensor,
    r: Tensor,
)
    requires
        first <= mid <= last,
        is_block_run(step, first, mid, x, m),
        is_block_run(step, mid + 1, last, m, r),
    ensures
        chain(seen(step), first, last + 1, view_of(x), view_of(r)),
{
    let next = mid + 1;
    let end = last + 1;
    let all = seen(step);
    let (a0, a) = choose|a0: Tensor, a: Tensor|
        {
            &&& view_of(a0) == view_of(x)
            &&& #[trigger] chain(step, first, next, a0, a)
            &&& view_of(m) == view_of(a)
        };
    let (b0, b) = choose|b0: Tensor, b: Tensor|
        {
            &&& view_of(b0) == view_of(m)
            &&& #[trigger] chain(step, next, end, b0, b)
            &&& view_of(r) == view_of(b)
        };
    assert forall|i: int, u: Tensor, v: Tensor| #[trigger] takes(step, i, u, v) implies takes(
        all,
        i,
        view_of(u),
        view_of(v),
    ) by {}
    chain_through(step, all, first, next, a0, a);
    chain_through(step, all, next, end, b0, b);
    chain_splits(all, first, next, end, view_of(x), view_of(r));
}

/// Two calls of a worker, for some layers and for those that follow, are one for all of them: what
/// the second puts out is what all the layers lead to, and what they keep is what each call has
/// left. Each call leaves the layers that it was not for, and their caches, as they were.
pub proof fn two_parts_are_one<
    Q: QuantMethod,
    N: Norm,
    M: DeviceMapper,
    C,
    K: Kernels,
    S: Surroundings,
>(
    model: ModelWeights<Q, N, M, C>,
    middle: ModelWeights<Q, N, M, C>,
    after: ModelWeights<Q, N, M, C>,
    ctx: CallContext<'_, K, S>,
    mask: MaskOf<S>,
    cache0: Seq<CacheOf<S>>,
    cache1: Seq<CacheOf<S>>,
    cache2: Seq<CacheOf<S>>,
    hidden: Tensor,
    first: int,
    mid: int,
    last: int,
    m: Tensor,
    r: Tensor,
)
    requires
        0 <= first <= mid < last < model.layers@.len(),
        middle.layers@.len() == model.layers@.len(),
        after.layers@.len() == model.layers@.len(),
        cache1.len() == cache0.len(),
        cache2.len() == cache0.len(),
        model.is_part(&middle, ctx, mask, cache0, cache1, hidden, first, mid, m),
        middle.is_part(&after, ctx, mask, cache1, cache2, m, mid + 1, last, r),
        forall|i: int|
            !(first <= i <= mid) ==> #[trigger] same_at(
                (Stage { layers: model.layers@, cache: cache0 }),
                (Stage { layers: middle.layers@, cache: cache1 }),
                i,
            ),
        forall|i: int|
            !(mid + 1 <= i <= last) ==> #[trigger] same_at(
                (Stage { layers: middle.layers@, cache: cache1 }),
                (Stage { layers: after.layers@, cache: cache2 }),
                i,
            ),
    ensures
        chain(
            seen(part_step(model, after, ctx, mask, cache0, cache2)),
            first,
            last + 1,
            view_of(hidden),
            view_of(r),
        ),
{
    let a = Stage { layers: model.layers@, cache: cache0 };
    let b = Stage { layers: middle.layers@, cache: cache1 };
    let c = Stage { layers: after.layers@, cache: cache2 };
    let whole = part_step(model, after, ctx, mask, cache0, cache2);
    let one = part_step(model, middle, ctx, mask, cache0, cache1);
    let two = part_step(middle, after, ctx, mask, cache1, cache2);
    let next = mid + 1;
    let end = last + 1;
    part_is_block_run(model, middle, ctx, mask, cache0, cache1, hidden, first, mid, m);
    part_is_block_run(middle, after, ctx, mask, cache1, cache2, m, next, last, r);
    assert forall|i: int, x: Tensor, y: Tensor| first <= i < next implies #[trigger] one(i, x, y)
        == whole(i, x, y) by {
        assert(same_at(b, c, i));
        assert(cache_of(b.cache, i) == cache_of(c.cache, i));
    }
    assert forall|i: int, x: Tensor, y: Tensor| next <= i < end implies #[trigger] two(i, x, y)
        == whole(i, x, y) by {
        assert(same_at(a, b, i));
        assert(cache_of(a.cache, i) == cache_of(b.cache, i));
    }
    let (h0, h) = choose|h0: Tensor, h: Tensor|
        {
            &&& view_of(h0) == view_of(hidden)
            &&& #[trigger] chain(one, first, next, h0, h)
            &&& view_of(m) == view_of(h)
        };
    chain_agrees(one, whole, first, next, h0, h);
    assert(is_block_run(whole, first, mid, hidden, m));
    let (g0, g) = choose|g0: Tensor, g: Tensor|
        {
            &&& view_of(g0) == view_of(m)
            &&& #[trigger] chain(two, next, end, g0, g)
            &&& view_of(r) == view_of(g)
        };
    chain_agrees(two, whole, next, end, g0, g);
    assert(is_block_run(whole, next, last, m, r));
    parts_follow(whole, first, mid, last, hidden, m, r);
}

/// One round trip runs one block: where a host sends its hidden states, the worker reads the
/// request, runs the layers that it names, and writes what they put out, and the host reads that,
/// the host holds what the layers of the block lead to. Layers are numbered in 32 bits.
pub proof fn round_trip_runs_block<
    Q: QuantMethod,
    N: Norm,
    M: DeviceMapper,
    C,
    K: Kernels,
    S: Surroundings,
>(
    mapper: RemoteLayerMapper,
    input: Tensor,
    layer: int,
    q: RemoteRequest,
    cmd: Vec<u8>,
    range: Vec<u8>,
    len: Vec<u8>,
    payload: Vec<u8>,
    s1: WorkerState,
    s2: WorkerState,
    s3: WorkerState,
    s4: WorkerState,
    s5: WorkerState,
    model: ModelWeights<Q, N, M, C>,
    after: ModelWeights<Q, N, M, C>,
    ctx: CallContext<'_, K, S>,
    mask: MaskOf<S>,
    cache0: Seq<CacheOf<S>>,
    cache1: Seq<CacheOf<S>>,
    output: Tensor,
    t: Tensor,
)
    requires
        mapper.wf(),
        mapper.specs().len() <= u32::MAX,
        mapper.specs().len() == model.layers@.len(),
        consistent(view_of(input)),
        mapper.is_request(input, layer, q),
        // The worker reads the request.
        cmd@ == seq![CMD_COMPUTE],
        range@ == range_bytes(q.layer_start, q.layer_end, q.past_kv),
        payload@ == q.payload@,
        payload@.len() <= usize::MAX,
        len@ == le_bytes(payload@.len(), 8),
        is_worker_step(WorkerState::Command, WorkerEvent::Received(cmd), s1),
        is_worker_step(s1, WorkerEvent::Received(range), s2),
        is_worker_step(s2, WorkerEvent::Received(len), s3),
        is_worker_step(s3, WorkerEvent::Received(payload), s4),
        // It runs the layers.
        s4 matches WorkerState::Compute { hidden, span } ==> model.is_part(
            &after,
            ctx,
            mask,
            cache0,
            cache1,
            hidden,
            span.start as int,
            span.end as int,
            output,
        ),
        consistent(view_of(output)),
        // It writes what they put out, and the host reads it.
        is_worker_step(s4, WorkerEvent::Computed(output), s5),
        s5 matches WorkerState::RespondLen { response } ==> response@.len() <= usize::MAX
            && view_of(t) == read_tensor(response@),
        s5 is RespondLen,
    ensures
        is_bridged(
            mapper.blocks(),
            part_step(model, after, ctx, mask, cache0, cache1),
            layer,
            input,
            t,
        ),
{
    let blocks = mapper.blocks();
    let b = choose|b: int|
        {
            &&& 0 <= b < blocks.len()
            &&& (#[trigger] blocks[b]).1 == layer
            &&& q.layer_start == blocks[b].1 as u32
            &&& q.layer_end == blocks[b].2 as u32
        };
    assert(is_block(mapper.specs(), blocks[b]));
    worker_runs_what_was_sent(
        view_of(input),
        q.layer_start,
        q.layer_end,
        q.past_kv,
        cmd,
        range,
        len,
        payload,
        s1,
        s2,
        s3,
        s4,
    );
    let hidden = s4->Compute_hidden;
    let first = blocks[b].1 as int;
    let last = blocks[b].2 as int;
    let step = part_step(model, after, ctx, mask, cache0, cache1);
    part_is_block_run(model, after, ctx, mask, cache0, cache1, hidden, first, last, output);
    host_reads_what_was_computed(output, s5);
    let (h0, h) = choose|h0: Tensor, h: Tensor|
        {
            &&& view_of(h0) == view_of(hidden)
            &&& #[trigger] chain(step, first, last + 1, h0, h)
            &&& view_of(output) == view_of(h)
        };
    assert(is_block_run(step, first, last, input, t));
}

} // verus!
