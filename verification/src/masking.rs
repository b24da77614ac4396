//! Masks that hosts and workers run their layers under: neither lets a position see a later one, and
//! both hide the same.
use candle_core::Tensor;
use vstd::prelude::*;

use crate::agree::{agree, arithmetic_is_determined};
use crate::backend::{
    hides_nothing, makes_mask, makes_mask_for, AttentionKernels, CacheOf, DeviceMapper, Kernels,
    MaskOf, Norm, QuantMethod, Surroundings,
};
use crate::model::{worker_context, CallContext, ModelWeights, Stage};
use crate::ranges::{
    alike_at, hosted_opened, layers_look_back, no_position_sees_a_later_one, output_is_determined,
    range_sees_back, stays, whole_pass_is_all_layers,
};
use crate::shape::consistent;
use crate::tensor::{device_is_cpu, plain, tensor_dims, view_of};

verus! {

/// Masks for `len` positions after `past` others are the same, whether they are made for the token
/// ids of these positions or for their number; a single position is hidden from nothing.
pub open spec fn masks_are_one<
    Q: QuantMethod,
    N: Norm,
    M: DeviceMapper,
    C,
    K: Kernels,
    S: Surroundings,
>(
    model: ModelWeights<Q, N, M, C>,
    ctx: CallContext<'_, K, S>,
    ids: Tensor,
    len: usize,
    past: usize,
) -> bool where S::Attention: AttentionKernels<Cache = C> {
    let before = model.mask_past(ctx.start_offsets, ctx.paging is Some);
    &&& len > 1 ==> forall|mask: MaskOf<S>, other: MaskOf<S>| #[trigger]
        makes_mask(*ctx.around, ids, before, model.dtype, Ok(mask)) && #[trigger] makes_mask_for(
            *ctx.around,
            len,
            past,
            model.dtype,
            model.device,
            Ok(other),
        ) ==> mask == other
    &&& len <= 1 ==> forall|mask: MaskOf<S>, other: MaskOf<S>| #[trigger]
        makes_mask(*ctx.around, ids, before, model.dtype, Ok(mask)) && #[trigger] hides_nothing(
            *ctx.around,
            other,
        ) ==> mask == other
}

/// A worker's positions see what the host's see, however many come before: where a host has made
/// logits of hidden states, and a worker, told how many positions come before, has run all layers
/// on the same ones from the same start, and logits were made of what came out, these are the same
/// and all layers have kept the same. Masks that are made for the same positions must be the same,
/// and the layers must look back under them; under others they need not.
pub proof fn worker_sees_what_host_sees<
    Q: QuantMethod,
    N: Norm,
    M: DeviceMapper,
    C,
    K: Kernels,
    S: Surroundings,
>(
    good: spec_fn(M) -> bool,
    model: ModelWeights<Q, N, M, C>,
    after: ModelWeights<Q, N, M, C>,
    other: ModelWeights<Q, N, M, C>,
    ctx: CallContext<'_, K, S>,
    past: usize,
    cache: Seq<CacheOf<S>>,
    ids: Tensor,
    h0: Tensor,
    context_lens: Vec<(usize, usize)>,
    is_first_prompt_chunk: bool,
    u: Tensor,
    r: Tensor,
    s: Tensor,
) where S::Attention: AttentionKernels<Cache = C>
    requires
        arithmetic_is_determined(),
        model.layers@.len() > 0,
        device_is_cpu(model.device),
        plain(h0),
        consistent(view_of(h0)),
        tensor_dims(h0).len() == 3,
        tensor_dims(h0)[0] == 1,
        stays(good),
        model.mapper matches Some(m) ==> good(m),
        output_is_determined(model, *ctx.around, context_lens),
        ctx.paging is None,
        masks_are_one(model, ctx, ids, tensor_dims(h0)[1], past),
        // Nothing is in the way, and the layers look back under causal masks, wherever the same
        // number of positions comes before.
        forall|mask: MaskOf<S>, at: &[usize]|
            at@ == seq![past] && #[trigger] makes_mask(
                *ctx.around,
                ids,
                model.mask_past(ctx.start_offsets, false),
                model.dtype,
                Ok(mask),
            ) ==> range_sees_back(
                model,
                model.cache@,
                ctx,
                #[trigger] worker_context(ctx.kernels, ctx.around, at),
                mask,
                mask,
                0,
                model.layers@.len() - 1,
                tensor_dims(h0),
            ),
        model.is_hosted(&after, ctx, ids, h0, context_lens, is_first_prompt_chunk, r),
        model.is_ranged(
            &other,
            ctx.kernels,
            ctx.around,
            model.cache@,
            cache,
            h0,
            0,
            model.layers@.len() - 1,
            past,
            u,
        ),
        model.is_output(*ctx.around, u, context_lens, s),
    ensures
        view_of(r) == view_of(s),
        forall|i: int|
            0 <= i < model.layers@.len() ==> #[trigger] alike_at(
                after.stage(),
                (Stage { layers: other.layers@, cache }),
                i,
            ),
{
    let (offsets, worker_mask) = choose|offsets: &[usize], mask: MaskOf<S>|
        {
            &&& offsets@ == seq![past]
            &&& #[trigger] model.is_worker_mask(*ctx.around, tensor_dims(h0)[1], past, mask)
            &&& model.is_part(
                &other,
                #[trigger] worker_context(ctx.kernels, ctx.around, offsets),
                mask,
                model.cache@,
                cache,
                h0,
                0,
                model.layers@.len() - 1,
                u,
            )
        };
    let worker = worker_context(ctx.kernels, ctx.around, offsets);
    let before = model.mask_past(ctx.start_offsets, false);
    assert forall|mask: MaskOf<S>| #[trigger]
        model.is_host_mask(ctx, ids, is_first_prompt_chunk, mask) implies mask == worker_mask
        && range_sees_back(
        model,
        model.cache@,
        ctx,
        worker,
        mask,
        worker_mask,
        0,
        model.layers@.len() - 1,
        tensor_dims(h0),
    ) by {
        assert(makes_mask(*ctx.around, ids, before, model.dtype, Ok(mask)));
    }
    whole_pass_is_all_layers(
        good,
        model,
        after,
        other,
        ctx,
        worker,
        worker_mask,
        cache,
        ids,
        h0,
        context_lens,
        is_first_prompt_chunk,
        u,
        r,
        s,
    );
}

/// No position of a call to a worker sees a later one, however many positions come before: where the
/// same layers were run, from the same start, on hidden states that are the same at the first
/// positions, what has come back is the same at these. The layers' own parts must look back where
/// positions start after as many others, several of them under a causal mask made for as many; under
/// other masks, or none, they need not.
pub proof fn no_position_of_a_call_sees_a_later_one<
    Q: QuantMethod,
    N: Norm,
    M: DeviceMapper,
    C,
    K: Kernels,
    S: Surroundings,
>(
    model: ModelWeights<Q, N, M, C>,
    after1: ModelWeights<Q, N, M, C>,
    after2: ModelWeights<Q, N, M, C>,
    kernels: &K,
    around: &S,
    past: usize,
    cache0: Seq<CacheOf<S>>,
    cache1: Seq<CacheOf<S>>,
    cache2: Seq<CacheOf<S>>,
    h1: Tensor,
    h2: Tensor,
    first: int,
    last: int,
    n: int,
    r1: Tensor,
    r2: Tensor,
)
    requires
        arithmetic_is_determined(),
        0 <= first <= last < model.layers@.len(),
        device_is_cpu(model.device),
        plain(h1),
        plain(h2),
        tensor_dims(h1).len() == 3,
        tensor_dims(h1)[0] == 1,
        agree(view_of(h1), view_of(h2), 2, 0, n),
        forall|o1: &[usize], o2: &[usize], mask1: MaskOf<S>, mask2: MaskOf<S>|
            #![trigger worker_context(kernels, around, o1), worker_context(
                kernels, around, o2,
            ), is_made_for(model, *around, tensor_dims(h1)[1], past, mask1), is_made_for(
                model, *around, tensor_dims(h1)[1], past, mask2,
            )]
            o1@ == seq![past] && o2@ == seq![past] && is_made_for(
                model,
                *around,
                tensor_dims(h1)[1],
                past,
                mask1,
            ) && is_made_for(model, *around, tensor_dims(h1)[1], past, mask2) ==> range_sees_back(
                model,
                cache0,
                worker_context(kernels, around, o1),
                worker_context(kernels, around, o2),
                mask1,
                mask2,
                first,
                last,
                tensor_dims(h1),
            ),
        model.is_ranged(&after1, kernels, around, cache0, cache1, h1, first, last, past, r1),
        model.is_ranged(&after2, kernels, around, cache0, cache2, h2, first, last, past, r2),
    ensures
        agree(view_of(r1), view_of(r2), 2, 0, n),
{
    let len = tensor_dims(h1)[1];
    let (o1, mask1) = choose|offsets: &[usize], mask: MaskOf<S>|
        {
            &&& offsets@ == seq![past]
            &&& #[trigger] model.is_worker_mask(*around, tensor_dims(h1)[1], past, mask)
            &&& model.is_part(
                &after1,
                #[trigger] worker_context(kernels, around, offsets),
                mask,
                cache0,
                cache1,
                h1,
                first,
                last,
                r1,
            )
        };
    let (o2, mask2) = choose|offsets: &[usize], mask: MaskOf<S>|
        {
            &&& offsets@ == seq![past]
            &&& #[trigger] model.is_worker_mask(*around, tensor_dims(h2)[1], past, mask)
            &&& model.is_part(
                &after2,
                #[trigger] worker_context(kernels, around, offsets),
                mask,
                cache0,
                cache2,
                h2,
                first,
                last,
                r2,
            )
        };
    let ctx1 = worker_context(kernels, around, o1);
    let ctx2 = worker_context(kernels, around, o2);
    assert(tensor_dims(h1) == tensor_dims(h2));
    if len > 1 {
        assert forall|a: MaskOf<S>, b: MaskOf<S>| #[trigger]
            makes_mask_for(*around, len, past, model.dtype, model.device, Ok(a))
                && #[trigger] makes_mask_for(
                *around,
                len,
                past,
                model.dtype,
                model.device,
                Ok(b),
            ) implies range_sees_back(
            model,
            cache0,
            ctx1,
            ctx2,
            a,
            b,
            first,
            last,
            tensor_dims(h1),
        ) by {
            assert(is_made_for(model, *around, len, past, a));
            assert(is_made_for(model, *around, len, past, b));
        }
    } else {
        assert forall|a: MaskOf<S>, b: MaskOf<S>| #[trigger]
            hides_nothing(*around, a) && #[trigger] hides_nothing(*around, b) implies range_sees_back(
            model,
            cache0,
            ctx1,
            ctx2,
            a,
            b,
            first,
            last,
            tensor_dims(h1),
        ) by {
            assert(is_made_for(model, *around, len, past, a));
            assert(is_made_for(model, *around, len, past, b));
        }
    }
    no_position_sees_a_later_one(
        model,
        after1,
        after2,
        ctx1,
        ctx2,
        past,
        mask1,
        mask2,
        cache0,
        cache1,
        cache2,
        h1,
        h2,
        first,
        last,
        n,
        r1,
        r2,
    );
}

/// The mask was made for `len` positions after `past` others; for a single position it hides nothing.
pub open spec fn is_made_for<Q: QuantMethod, N: Norm, M: DeviceMapper, C, S: Surroundings>(
    model: ModelWeights<Q, N, M, C>,
    around: S,
    len: usize,
    past: usize,
    mask: MaskOf<S>,
) -> bool {
    &&& len > 1 ==> makes_mask_for(around, len, past, model.dtype, model.device, Ok(mask))
    &&& len <= 1 ==> hides_nothing(around, mask)
}

/// No token sees a later one: where a host has made logits of two sequences of hidden states that are
/// the same at the first positions, from the same start, what its layers have put out, and logits
/// were made of, is the same at these. The layers' own parts must look back under causal masks made
/// for the token ids; under others, or none, they need not. Over pages this is so for the first part
/// of a prompt, and otherwise always. The mapper takes hidden states nowhere.
pub proof fn no_token_sees_a_later_one<
    Q: QuantMethod,
    N: Norm,
    M: DeviceMapper,
    C,
    K: Kernels,
    S: Surroundings,
>(
    good: spec_fn(M) -> bool,
    model: ModelWeights<Q, N, M, C>,
    after1: ModelWeights<Q, N, M, C>,
    after2: ModelWeights<Q, N, M, C>,
    ctx: CallContext<'_, K, S>,
    ids1: Tensor,
    ids2: Tensor,
    h1: Tensor,
    h2: Tensor,
    context_lens: Vec<(usize, usize)>,
    is_first_prompt_chunk: bool,
    n: int,
    r1: Tensor,
    r2: Tensor,
) where S::Attention: AttentionKernels<Cache = C>
    requires
        arithmetic_is_determined(),
        plain(h1),
        plain(h2),
        tensor_dims(h1).len() == 3,
        tensor_dims(h1)[0] == 1,
        agree(view_of(h1), view_of(h2), 2, 0, n),
        stays(good),
        model.mapper matches Some(m) ==> good(m),
        ctx.paging is None || is_first_prompt_chunk,
        forall|mask1: MaskOf<S>, mask2: MaskOf<S>| #[trigger]
            makes_mask(
                *ctx.around,
                ids1,
                model.mask_past(ctx.start_offsets, ctx.paging is Some),
                model.dtype,
                Ok(mask1),
            ) && #[trigger] makes_mask(
                *ctx.around,
                ids2,
                model.mask_past(ctx.start_offsets, ctx.paging is Some),
                model.dtype,
                Ok(mask2),
            ) ==> range_sees_back(
                model,
                model.cache@,
                ctx,
                ctx,
                mask1,
                mask2,
                0,
                model.layers@.len() - 1,
                tensor_dims(h1),
            ),
        model.is_hosted(&after1, ctx, ids1, h1, context_lens, is_first_prompt_chunk, r1),
        model.is_hosted(&after2, ctx, ids2, h2, context_lens, is_first_prompt_chunk, r2),
    ensures
        exists|y1: Tensor, y2: Tensor|
            {
                &&& #[trigger] model.is_output(*ctx.around, y1, context_lens, r1)
                &&& #[trigger] model.is_output(*ctx.around, y2, context_lens, r2)
                &&& agree(view_of(y1), view_of(y2), 2, 0, n)
            },
{
    let past = model.mask_past(ctx.start_offsets, ctx.paging is Some);
    let (mask1, y1) = hosted_opened(
        good,
        model,
        after1,
        ctx,
        ids1,
        h1,
        context_lens,
        is_first_prompt_chunk,
        r1,
    );
    let (mask2, y2) = hosted_opened(
        good,
        model,
        after2,
        ctx,
        ids2,
        h2,
        context_lens,
        is_first_prompt_chunk,
        r2,
    );
    assert(makes_mask(*ctx.around, ids1, past, model.dtype, Ok(mask1)));
    assert(makes_mask(*ctx.around, ids2, past, model.dtype, Ok(mask2)));
    assert(model.stage() == Stage { layers: model.layers@, cache: model.cache@ });
    layers_look_back(
        model.stage(),
        model.stage(),
        after1.stage(),
        after2.stage(),
        ctx,
        ctx,
        mask1,
        mask2,
        0,
        model.layers@.len() as int,
        h1,
        h2,
        n,
        y1,
        y2,
    );
}

} // verus!
