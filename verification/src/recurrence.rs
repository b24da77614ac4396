//! The gated delta rule: a memory of one square matrix per head, rewritten at each position.
use candle_core::Tensor;
use vstd::prelude::*;

use crate::ops::{
    broadcast_as, cat, contiguous, dims4, is_difference, is_matmul, is_product, is_sum, join_fits,
    matmul, minus, narrow, plus, reshape, swap_dims, times, unsqueeze, zeros, TensorError,
};
use crate::rows::{count_around, join_of_units, narrow_of_narrow, narrow_to_all, total_of_even};
use crate::shape::{
    consistent, count, count_small, dims_fit, fits, fits_shrink, fits_without, joinable, joined,
    narrowed, reshaped, span_count, span_front, stretched, stretched_view, stretches_to, swapped,
    zeroed, TensorView,
};
use crate::tensor::{candle_dims, plain, tensor_dims, view_of, views_of};

verus! {

/// Position `t` of `x`, whose second dimension runs over positions, under the dimensions `dims`.
pub open spec fn at_position(x: TensorView, t: int, dims: Seq<usize>) -> TensorView {
    reshaped(narrowed(x, 1, t, 1), dims)
}

/// Item `b` of `x`, whose first dimension runs over the batch, under the dimensions `dims`.
pub open spec fn at_batch(x: TensorView, b: int, dims: Seq<usize>) -> TensorView {
    reshaped(narrowed(x, 0, b, 1), dims)
}

/// What goes into the recurrence at one position: query, key and value of shape
/// `[batch, heads, size]`, decay and gate of shape `[batch, heads]`.
pub ghost struct Position {
    pub q: TensorView,
    pub k: TensorView,
    pub v: TensorView,
    pub decay: TensorView,
    pub beta: TensorView,
}

/// What goes into the recurrence at all positions.
pub ghost struct DeltaInputs {
    pub q: TensorView,
    pub k: TensorView,
    pub v: TensorView,
    pub decay: TensorView,
    pub beta: TensorView,
}

/// Sizes of a recurrence.
pub ghost struct Sizes {
    pub batch: usize,
    pub heads: usize,
    pub size: usize,
}

/// Position `t` of the inputs.
pub open spec fn position(x: DeltaInputs, t: int, z: Sizes) -> Position {
    let wide = seq![z.batch, z.heads, z.size];
    let slim = seq![z.batch, z.heads];
    Position {
        q: at_position(x.q, t, wide),
        k: at_position(x.k, t, wide),
        v: at_position(x.v, t, wide),
        decay: at_position(x.decay, t, slim),
        beta: at_position(x.beta, t, slim),
    }
}

/// The first `len` positions of the inputs.
pub open spec fn positions(x: DeltaInputs, len: nat, z: Sizes) -> Seq<Position> {
    Seq::new(len, |t: int| position(x, t, z))
}

/// `r` holds, for each item of the batch, the product of each head's matrix in `m` with the
/// item's vector for that head in `x`.
pub open spec fn is_read(m: TensorView, x: TensorView, z: Sizes, r: TensorView) -> bool {
    let column = seq![z.heads, z.size, 1];
    &&& r.dims == seq![z.batch, z.heads, z.size]
    &&& consistent(r)
    &&& forall|b: int|
        0 <= b < z.batch ==> is_matmul(
            m,
            at_batch(x, b, column),
            #[trigger] at_batch(r, b, column),
        )
}

/// `s2` is the memory `s`, faded by the decay, plus the outer product of key and change, all of
/// item `b` of the batch.
pub open spec fn is_update(
    s: TensorView,
    decay: TensorView,
    k: TensorView,
    delta: TensorView,
    b: int,
    z: Sizes,
    s2: TensorView,
) -> bool {
    exists|outer: TensorView, faded: TensorView|
        {
            &&& #[trigger] is_sum(faded, outer, s2)
            &&& is_matmul(
                at_batch(k, b, seq![z.heads, z.size, 1]),
                at_batch(delta, b, seq![z.heads, 1, z.size]),
                outer,
            )
            &&& is_product(s, at_batch(decay, b, seq![z.heads, 1, 1]), faded)
        }
}

/// `delta` is the change at a position: `beta` times the difference between the value and what
/// the memory `s` holds under the key.
pub open spec fn is_change(p: Position, s: TensorView, z: Sizes, delta: TensorView) -> bool {
    exists|kv: TensorView, diff: TensorView|
        {
            &&& is_read(swapped(s, 1), p.k, z, kv)
            &&& #[trigger] is_difference(p.v, kv, diff)
            &&& is_product(reshaped(p.beta, seq![z.batch, z.heads, 1]), diff, delta)
        }
}

/// One position takes the memory from `s` to `s2` and puts out `out`. The memory is that of the
/// last item of the batch.
pub open spec fn is_step(
    p: Position,
    s: TensorView,
    z: Sizes,
    s2: TensorView,
    out: TensorView,
) -> bool {
    &&& exists|delta: TensorView|
        {
            &&& #[trigger] is_change(p, s, z, delta)
            &&& is_update(s, p.decay, p.k, delta, z.batch - 1, z, s2)
        }
    &&& is_read(s2, p.q, z, out)
}

/// The positions, one after the other, take the memory from `s` to `s2` and put out `outs`.
pub open spec fn is_run(
    ps: Seq<Position>,
    s: TensorView,
    z: Sizes,
    s2: TensorView,
    outs: Seq<TensorView>,
) -> bool
    decreases ps.len(),
{
    if ps.len() == 0 {
        s2 == s && outs.len() == 0
    } else {
        &&& outs.len() == ps.len()
        &&& exists|mid: TensorView|
            {
                &&& is_run(ps.drop_last(), s, z, mid, outs.drop_last())
                &&& #[trigger] is_step(ps.last(), mid, z, s2, outs.last())
            }
    }
}

/// The positions of the output.
pub open spec fn output_positions(out: TensorView, len: nat, z: Sizes) -> Seq<TensorView> {
    Seq::new(len, |t: int| at_position(out, t, seq![z.batch, z.heads, z.size]))
}

/// Memory of the given sizes.
pub open spec fn memory_dims(heads: usize, size: usize) -> Seq<usize> {
    seq![heads, size, size]
}

/// The kept memory has the shape that these sizes call for, or that of one head, which then is
/// that of all.
pub open spec fn memory_ok(state: Option<Tensor>, heads: usize, size: usize) -> bool {
    state matches Some(t) ==> {
        ||| tensor_dims(t) == memory_dims(heads, size)
        ||| tensor_dims(t) == memory_dims(1, size)
    }
}

/// The memory at the start: all zeros if none was kept.
pub open spec fn memory_of(state: Option<Tensor>, heads: usize, size: usize) -> TensorView {
    match state {
        Some(t) => if tensor_dims(t) == memory_dims(heads, size) {
            view_of(t)
        } else {
            stretched_view(view_of(t), memory_dims(heads, size))
        },
        None => zeroed(memory_dims(heads, size)),
    }
}

/// The memory of one head stretches over all.
proof fn memory_stretches(heads: usize, size: usize)
    ensures
        stretches_to(memory_dims(1, size), memory_dims(heads, size)),
{
    reveal_with_fuel(stretches_to, 4);
    let a = memory_dims(1, size);
    let b = memory_dims(heads, size);
    assert(a.drop_last() =~= seq![1, size]);
    assert(b.drop_last() =~= seq![heads, size]);
    assert(seq![1, size].drop_last() =~= seq![1usize]);
    assert(seq![heads, size].drop_last() =~= seq![heads]);
    assert(seq![1usize].drop_last() =~= Seq::empty());
}

/// Each of the first `len` positions of a tensor with these dimensions holds `n` elements.
pub open spec fn positions_hold(dims: Seq<usize>, len: int, n: nat) -> bool {
    &&& dims.len() >= 2
    &&& len <= dims[1]
    &&& fits(dims.update(1, 1))
    &&& count(dims.update(1, 1)) == n
}

/// Position `t` of `x` under the dimensions `dims`.
fn position_of(x: &Tensor, t: usize, dims: &[usize]) -> (r: Result<Tensor, TensorError>)
    requires
        t < usize::MAX,
    ensures
        r matches Ok(u) ==> {
            &&& view_of(u) == at_position(view_of(*x), t as int, dims@)
            &&& consistent(view_of(u))
            &&& plain(u) == plain(*x)
            &&& fits(dims@)
            &&& positions_hold(tensor_dims(*x), t + 1, count(dims@))
        },
        plain(*x) ==> (r is Ok <==> fits(dims@) && positions_hold(
            tensor_dims(*x),
            t + 1,
            count(dims@),
        )),
{
    let one = narrow(x, 1, t, 1)?;
    reshape(&one, dims)
}

/// Item `b` of `x` under the dimensions `dims`.
fn batch_item(x: &Tensor, b: usize, dims: &[usize], item: usize) -> (r: Result<Tensor, TensorError>)
    requires
        tensor_dims(*x).len() > 0,
        b < tensor_dims(*x)[0],
        fits(tensor_dims(*x)),
        fits(dims@),
        count(dims@) == item,
        count(tensor_dims(*x).skip(1)) == item,
    ensures
        r matches Ok(u) ==> {
            &&& view_of(u) == at_batch(view_of(*x), b as int, dims@)
            &&& consistent(view_of(u))
            &&& plain(u) == plain(*x)
        },
        plain(*x) ==> r is Ok,
{
    let one = narrow(x, 0, b, 1)?;
    proof {
        let d = tensor_dims(*x);
        fits_shrink(d.update(0, 1), d);
        count_around(d.update(0, 1), 0);
        assert(d.update(0, 1).take(0) =~= Seq::empty());
        assert(d.update(0, 1).skip(1) =~= d.skip(1));
        assert(1 * 1 * item == item) by (nonlinear_arith);
    }
    reshape(&one, dims)
}

/// Shapes made of the sizes of a recurrence.
proof fn size_facts(batch: usize, heads: usize, size: usize)
    requires
        batch > 0,
        fits(seq![batch, heads]),
        fits(seq![batch, heads, size]),
        fits(memory_dims(heads, size)),
    ensures
        fits(seq![heads, size]),
        fits(seq![heads, size, 1]),
        fits(seq![heads, 1, size]),
        fits(seq![heads, 1, 1]),
        fits(seq![1, heads, size]),
        fits(seq![batch, heads]),
        fits(seq![batch, heads, 1]),
        count(seq![heads, size]) == heads * size,
        count(seq![heads, size, 1]) == heads * size,
        count(seq![heads, 1, size]) == heads * size,
        count(seq![1, heads, size]) == heads * size,
        count(seq![heads, 1, 1]) == heads,
        count(seq![heads]) == heads,
        count(seq![batch, heads, 1]) == count(seq![batch, heads]),
        heads * size <= usize::MAX,
{
    let m = memory_dims(heads, size);
    span_front(m, 2);
    assert(m.take(2) =~= seq![heads, size]);
    count_small(heads, size, 1, 0, 0);
    count_small(heads, 1, size, 0, 0);
    count_small(heads, 1, 1, 0, 0);
    count_small(1, heads, size, 0, 0);
    count_small(batch, heads, 1, 0, 0);
    let h = heads as int;
    let d = size as int;
    let b = batch as int;
    assert(h * d * 1 == h * d && h * 1 * d == h * d && h * 1 * 1 == h && 1 * h * d == h * d && b * h
        * 1 == b * h && h * 1 == h && 1 * h == h && 0 <= h * d) by (nonlinear_arith)
        requires
            h >= 0,
            d >= 0,
    ;
    if size > 0 {
        fits_without(m, 2);
        assert(m.remove(2) =~= seq![heads, size]);
    } else {
        assert(h * d == 0) by (nonlinear_arith)
            requires
                d == 0,
        ;
    }
    fits_without(seq![batch, heads], 0);
    assert(seq![batch, heads].remove(0) =~= seq![heads]);
    fits_without(seq![heads, size, 1], 2);
    assert(seq![heads, size, 1usize].remove(2) =~= seq![heads, size]);
    fits_without(seq![heads, 1, size], 1);
    assert(seq![heads, 1usize, size].remove(1) =~= seq![heads, size]);
    fits_without(seq![heads, 1, 1], 2);
    assert(seq![heads, 1usize, 1usize].remove(2) =~= seq![heads, 1]);
    fits_without(seq![heads, 1], 1);
    assert(seq![heads, 1usize].remove(1) =~= seq![heads]);
    fits_without(seq![1, heads, size], 0);
    assert(seq![1usize, heads, size].remove(0) =~= seq![heads, size]);
    fits_without(seq![batch, heads, 1], 2);
    assert(seq![batch, heads, 1usize].remove(2) =~= seq![batch, heads]);
    span_count(seq![heads, size]);
}

/// Reads every item of the batch from the matrices `m`.
fn read_heads(m: &Tensor, x: &Tensor, batch: usize, heads: usize, size: usize) -> (r: Result<
    Tensor,
    TensorError,
>)
    requires
        batch > 0,
        fits(seq![batch, heads]),
        tensor_dims(*m) == memory_dims(heads, size),
        tensor_dims(*x) == seq![batch, heads, size],
        fits(tensor_dims(*x)),
        fits(memory_dims(heads, size)),
        consistent(view_of(*x)),
    ensures
        r matches Ok(u) ==> {
            &&& is_read(view_of(*m), view_of(*x), (Sizes { batch, heads, size }), view_of(u))
            &&& plain(*m) && plain(*x) ==> plain(u)
        },
        plain(*m) && plain(*x) ==> r is Ok,
{
    let ghost z = Sizes { batch, heads, size };
    let ghost column = seq![heads, size, 1usize];
    let ghost unit = seq![1usize, heads, size];
    let flat: [usize; 2] = [heads, size];
    let single: [usize; 3] = [1, heads, size];
    proof {
        size_facts(batch, heads, size);
        assert(flat@ =~= seq![heads, size]);
        assert(single@ =~= unit);
        assert(tensor_dims(*x).skip(1) =~= seq![heads, size]);
        assert(seq![heads, size].insert(2, 1) =~= column);
    }
    let item: usize = heads * size;
    let mut parts: Vec<Tensor> = Vec::new();
    let mut b: usize = 0;
    while b < batch
        invariant
            b <= batch,
            z == (Sizes { batch, heads, size }),
            column == seq![heads, size, 1usize],
            unit == seq![1usize, heads, size],
            flat@ == seq![heads, size],
            single@ == unit,
            item == heads * size,
            tensor_dims(*m) == memory_dims(heads, size),
            tensor_dims(*x) == seq![batch, heads, size],
            fits(tensor_dims(*x)),
            fits(memory_dims(heads, size)),
            consistent(view_of(*x)),
            fits(column),
            fits(unit),
            fits(flat@),
            count(column) == item,
            count(unit) == item,
            count(flat@) == item,
            tensor_dims(*x).skip(1) == seq![heads, size],
            seq![heads, size].insert(2, 1) == column,
            parts@.len() == b,
            forall|i: int|
                0 <= i < b ==> {
                    &&& tensor_dims(#[trigger] parts@[i]) == unit
                    &&& consistent(view_of(parts@[i]))
                    &&& is_matmul(
                        view_of(*m),
                        at_batch(view_of(*x), i, column),
                        reshaped(view_of(parts@[i]), column),
                    )
                    &&& plain(*m) && plain(*x) ==> plain(parts@[i])
                },
        decreases batch - b,
    {
        let vector = batch_item(x, b, flat.as_slice(), item)?;
        let vertical = unsqueeze(&vector, 2)?;
        assert(view_of(vertical) == at_batch(view_of(*x), b as int, column));
        assert(seq![tensor_dims(*m)[0], tensor_dims(*m)[1], tensor_dims(vertical)[2]] =~= column);
        let product = matmul(m, &vertical)?;
        assert(reshaped(reshaped(view_of(product), unit), column) == view_of(product));
        let part = reshape(&product, single.as_slice())?;
        parts.push(part);
        b += 1;
    }
    let ghost views = views_of(parts@);
    proof {
        assert forall|i: int| 0 <= i < views.len() implies (#[trigger] views[i]).dims == unit
            && consistent(views[i]) by {
            assert(views[i] == view_of(parts@[i]));
        }
        if batch > 0 {
            join_of_units(views, 0, unit, 0);
            total_of_even(views, 0, 1);
            assert(joined(views, 0).dims =~= seq![batch, heads, size]);
            assert(joinable(views, 0));
            assert(join_fits(views, 0));
        }
    }
    let all = cat(&parts, 0)?;
    proof {
        if batch == 1 {
            assert(views[0] == view_of(parts@[0]));
            assert(unit =~= seq![batch, heads, size]);
            narrow_to_all(view_of(all), 0);
        }
        assert forall|i: int| 0 <= i < batch implies is_matmul(
            view_of(*m),
            at_batch(view_of(*x), i, column),
            #[trigger] at_batch(view_of(all), i, column),
        ) by {
            assert(views[i] == view_of(parts@[i]));
            if batch > 1 {
                join_of_units(views, 0, unit, i);
            }
            assert(narrowed(view_of(all), 0, i, 1) == view_of(parts@[i]));
        }
    }
    Ok(all)
}

/// Shapes of three dimensions of which one stretches to the other.
pub proof fn stretch_three(a: Seq<usize>, b: Seq<usize>)
    requires
        a.len() == 3,
        b.len() == 3,
        forall|i: int| 0 <= i < 3 ==> a[i] == b[i] || a[i] == 1 || b[i] == 1,
    ensures
        stretched(a, b) == Some(
            Seq::new(
                3,
                |i: int|
                    if a[i] == b[i] || b[i] == 1 {
                        a[i]
                    } else {
                        b[i]
                    },
            ),
        ),
{
    reveal_with_fuel(stretched, 4);
    assert(a.drop_last().drop_last().drop_last() =~= Seq::empty());
    assert(b.drop_last().drop_last().drop_last() =~= Seq::empty());
    let pick = |i: int|
        if a[i] == b[i] || b[i] == 1 {
            a[i]
        } else {
            b[i]
        };
    assert(a.drop_last().drop_last().last() == a[0]);
    assert(b.drop_last().drop_last().last() == b[0]);
    assert(a.drop_last().last() == a[1]);
    assert(b.drop_last().last() == b[1]);
    assert(stretched(a.drop_last().drop_last(), b.drop_last().drop_last()) == Some(
        Seq::<usize>::empty().push(pick(0)),
    ));
    assert(stretched(a, b)->0 =~= Seq::<usize>::empty().push(pick(0)).push(pick(1)).push(pick(2)));
    assert(Seq::<usize>::empty().push(pick(0)).push(pick(1)).push(pick(2)) =~= Seq::new(3, pick));
}

/// The inputs of a recurrence as they stand in tensors.
pub open spec fn inputs_of(
    q: Tensor,
    k: Tensor,
    v: Tensor,
    decay: Tensor,
    beta: Tensor,
) -> DeltaInputs {
    DeltaInputs {
        q: view_of(q),
        k: view_of(k),
        v: view_of(v),
        decay: view_of(decay),
        beta: view_of(beta),
    }
}

/// Each of the first `len` positions of the inputs holds what these sizes call for.
pub open spec fn inputs_hold(x: DeltaInputs, len: int, z: Sizes) -> bool {
    let wide = count(seq![z.batch, z.heads, z.size]);
    let slim = count(seq![z.batch, z.heads]);
    &&& positions_hold(x.q.dims, len, wide)
    &&& positions_hold(x.k.dims, len, wide)
    &&& positions_hold(x.v.dims, len, wide)
    &&& positions_hold(x.decay.dims, len, slim)
    &&& positions_hold(x.beta.dims, len, slim)
}

/// One position of the recurrence: the new memory, and what is put out.
fn delta_step(
    q: &Tensor,
    k: &Tensor,
    v: &Tensor,
    decay: &Tensor,
    beta: &Tensor,
    t: usize,
    s: &Tensor,
    batch: usize,
    heads: usize,
    size: usize,
) -> (r: Result<(Tensor, Tensor), TensorError>)
    requires
        t < usize::MAX,
        tensor_dims(*s) == memory_dims(heads, size),
        fits(memory_dims(heads, size)),
    ensures
        r matches Ok(u) ==> {
            let z = Sizes { batch, heads, size };
            let x = inputs_of(*q, *k, *v, *decay, *beta);
            &&& batch > 0
            &&& fits(seq![batch, heads])
            &&& fits(seq![batch, heads, size])
            &&& inputs_hold(x, t + 1, z)
            &&& tensor_dims(u.0) == memory_dims(heads, size)
            &&& is_step(position(x, t as int, z), view_of(*s), z, view_of(u.0), view_of(u.1))
        },
        plain(*q) && plain(*k) && plain(*v) && plain(*decay) && plain(*beta) && plain(*s) ==> {
            &&& r is Ok <==> batch > 0 && fits(seq![batch, heads]) && fits(
                seq![batch, heads, size],
            ) && inputs_hold(
                inputs_of(*q, *k, *v, *decay, *beta),
                t + 1,
                (Sizes { batch, heads, size }),
            )
            &&& r matches Ok(u) ==> plain(u.0) && plain(u.1)
        },
{
    let ghost z = Sizes { batch, heads, size };
    let ghost x = inputs_of(*q, *k, *v, *decay, *beta);
    let ghost p = position(x, t as int, z);
    let wide: [usize; 3] = [batch, heads, size];
    let slim: [usize; 2] = [batch, heads];
    assert(wide@ =~= seq![batch, heads, size]);
    assert(slim@ =~= seq![batch, heads]);
    if batch == 0 {
        return Err(TensorError::WrongState);
    }
    let q_t = position_of(q, t, wide.as_slice())?;
    let k_t = position_of(k, t, wide.as_slice())?;
    let v_t = position_of(v, t, wide.as_slice())?;
    let decay_t = position_of(decay, t, slim.as_slice())?;
    let beta_t = position_of(beta, t, slim.as_slice())?;
    proof {
        size_facts(batch, heads, size);
    }
    // What the memory holds under the key.
    let turned = swap_dims(s, 1)?;
    assert(tensor_dims(turned) =~= memory_dims(heads, size));
    let kv = read_heads(&turned, &k_t, batch, heads, size)?;
    // The change.
    let diff = minus(&v_t, &kv)?;
    let gate = unsqueeze(&beta_t, 2)?;
    proof {
        assert(seq![batch, heads].insert(2, 1) =~= seq![batch, heads, 1]);
        stretch_three(seq![batch, heads, 1], seq![batch, heads, size]);
        assert(stretched(seq![batch, heads, 1], seq![batch, heads, size])->0 =~= seq![
            batch,
            heads,
            size,
        ]);
    }
    let delta = times(&gate, &diff)?;
    assert(view_of(gate) == reshaped(p.beta, seq![batch, heads, 1]));
    assert(is_difference(p.v, view_of(kv), view_of(diff)));
    assert(is_change(p, view_of(*s), z, view_of(delta)));
    // The new memory, of which that of the last item stays.
    let flat: [usize; 2] = [heads, size];
    let cube: [usize; 3] = [heads, 1, 1];
    proof {
        assert(flat@ =~= seq![heads, size]);
        assert(cube@ =~= seq![heads, 1, 1]);
        assert(seq![batch, heads].skip(1) =~= seq![heads]);
        assert(seq![batch, heads, size].skip(1) =~= seq![heads, size]);
        assert(seq![heads, size].insert(2, 1) =~= seq![heads, size, 1]);
        assert(seq![heads, size].insert(1, 1) =~= seq![heads, 1, size]);
        stretch_three(memory_dims(heads, size), seq![heads, 1, 1]);
        assert(stretched(memory_dims(heads, size), seq![heads, 1, 1])->0 =~= memory_dims(
            heads,
            size,
        ));
    }
    let item: usize = heads * size;
    let mut latest: Option<Tensor> = None;
    let mut b: usize = 0;
    while b < batch
        invariant
            b <= batch,
            z == (Sizes { batch, heads, size }),
            p.decay == view_of(decay_t),
            p.k == view_of(k_t),
            plain(decay_t) == plain(*decay),
            plain(k_t) == plain(*k),
            plain(*q) && plain(*k) && plain(*v) && plain(*decay) && plain(*beta) && plain(*s)
                ==> plain(delta),
            flat@ == seq![heads, size],
            cube@ == seq![heads, 1, 1],
            item == heads * size,
            tensor_dims(*s) == memory_dims(heads, size),
            fits(memory_dims(heads, size)),
            tensor_dims(decay_t) == seq![batch, heads],
            tensor_dims(k_t) == seq![batch, heads, size],
            tensor_dims(delta) == seq![batch, heads, size],
            fits(seq![batch, heads]),
            fits(seq![batch, heads, size]),
            fits(flat@),
            fits(cube@),
            fits(seq![heads, size, 1]),
            fits(seq![heads, 1, size]),
            count(flat@) == item,
            count(cube@) == heads,
            count(seq![heads]) == heads,
            seq![batch, heads].skip(1) == seq![heads],
            seq![batch, heads, size].skip(1) == seq![heads, size],
            seq![heads, size].insert(2, 1) == seq![heads, size, 1],
            seq![heads, size].insert(1, 1) == seq![heads, 1, size],
            stretched(memory_dims(heads, size), seq![heads, 1, 1]) == Some(
                memory_dims(heads, size),
            ),
            b > 0 ==> {
                &&& latest is Some
                &&& tensor_dims(latest->0) == memory_dims(heads, size)
                &&& is_update(
                    view_of(*s),
                    p.decay,
                    p.k,
                    view_of(delta),
                    b - 1,
                    z,
                    view_of(latest->0),
                )
                &&& plain(*s) && plain(decay_t) && plain(k_t) && plain(delta) ==> plain(latest->0)
            },
        decreases batch - b,
    {
        let fade = batch_item(&decay_t, b, cube.as_slice(), heads)?;
        let key = batch_item(&k_t, b, flat.as_slice(), item)?;
        let change = batch_item(&delta, b, flat.as_slice(), item)?;
        let key_column = unsqueeze(&key, 2)?;
        let change_row = unsqueeze(&change, 1)?;
        assert(seq![heads, size, size] =~= seq![
            tensor_dims(key_column)[0],
            tensor_dims(key_column)[1],
            tensor_dims(change_row)[2],
        ]);
        let outer = matmul(&key_column, &change_row)?;
        let faded = times(s, &fade)?;
        let sum = plus(&faded, &outer)?;
        assert(is_sum(view_of(faded), view_of(outer), view_of(sum)));
        latest = Some(sum);
        b += 1;
    }
    match latest {
        Some(s2) => {
            let out = read_heads(&s2, &q_t, batch, heads, size)?;
            assert(is_change(p, view_of(*s), z, view_of(delta)));
            Ok((s2, out))
        },
        None => Err(TensorError::WrongState),
    }
}

/// Shapes on which the recurrence works: `[batch, positions, heads, size]` of which there is at
/// least one item and one position, with as much at each position of every input, all of which
/// fits in memory.
pub open spec fn recurrence_fits(x: DeltaInputs, heads: usize, size: usize) -> bool {
    let z = Sizes { batch: x.q.dims[0], heads, size };
    &&& x.q.dims.len() == 4
    &&& fits(x.q.dims)
    &&& x.q.dims[0] > 0
    &&& x.q.dims[1] > 0
    &&& fits(memory_dims(heads, size))
    &&& fits(seq![x.q.dims[0], heads])
    &&& fits(seq![x.q.dims[0], heads, size])
    &&& fits(seq![x.q.dims[0], x.q.dims[1], heads, size])
    &&& inputs_hold(x, x.q.dims[1] as int, z)
}

/// `out` is what the gated delta rule puts out for the inputs. The memory kept goes from `before`
/// to `after`.
pub open spec fn is_recurred(
    x: DeltaInputs,
    heads: usize,
    size: usize,
    before: Option<Tensor>,
    after: Option<Tensor>,
    out: TensorView,
) -> bool {
    let z = Sizes { batch: x.q.dims[0], heads, size };
    let len = x.q.dims[1];
    &&& recurrence_fits(x, heads, size)
    &&& memory_ok(before, heads, size)
    &&& out.dims == seq![z.batch, len, heads, size]
    &&& consistent(out)
    &&& after is Some
    &&& tensor_dims(after->0) == memory_dims(heads, size)
    &&& is_run(
        positions(x, len as nat, z),
        memory_of(before, heads, size),
        z,
        view_of(after->0),
        output_positions(out, len as nat, z),
    )
}

/// The memory kept is the same as before, or cleared where there was none, or what all positions
/// have made of it.
pub open spec fn memory_touched(
    x: DeltaInputs,
    heads: usize,
    size: usize,
    before: Option<Tensor>,
    after: Option<Tensor>,
) -> bool {
    let z = Sizes { batch: x.q.dims[0], heads, size };
    ||| after == before
    ||| before is None && after is Some && view_of(after->0) == memory_of(None, heads, size)
    ||| after is Some && exists|outs: Seq<TensorView>| #[trigger]
        is_run(
            positions(x, x.q.dims[1] as nat, z),
            memory_of(before, heads, size),
            z,
            view_of(after->0),
            outs,
        )
}

/// Runs the gated delta rule over all positions. At each, the memory fades by `alpha_decay`,
/// moves towards holding the value under the key as far as `beta` says, and is then read with
/// the query. The memory is kept in `ssm_state` for the next call.
pub fn gated_delta_net_recurrence(
    q: &Tensor,
    k: &Tensor,
    v: &Tensor,
    alpha_decay: &Tensor,
    beta: &Tensor,
    ssm_state: &mut Option<Tensor>,
    state_size: usize,
    n_heads: usize,
) -> (r: Result<Tensor, TensorError>)
    ensures
        r matches Ok(u) ==> is_recurred(
            inputs_of(*q, *k, *v, *alpha_decay, *beta),
            n_heads,
            state_size,
            *old(ssm_state),
            *final(ssm_state),
            view_of(u),
        ),
        memory_touched(
            inputs_of(*q, *k, *v, *alpha_decay, *beta),
            n_heads,
            state_size,
            *old(ssm_state),
            *final(ssm_state),
        ),
        plain(*q) && plain(*k) && plain(*v) && plain(*alpha_decay) && plain(*beta) && (*old(
            ssm_state,
        ) matches Some(t) ==> plain(t)) ==> {
            &&& r is Ok <==> recurrence_fits(
                inputs_of(*q, *k, *v, *alpha_decay, *beta),
                n_heads,
                state_size,
            ) && memory_ok(*old(ssm_state), n_heads, state_size)
            &&& r matches Ok(u) ==> plain(u) && plain((*final(ssm_state))->0)
        },
{
    let (batch, seq_len, _heads, _size) = dims4(q)?;
    let ghost z = Sizes { batch, heads: n_heads, size: state_size };
    let ghost x = inputs_of(*q, *k, *v, *alpha_decay, *beta);
    let ghost start = memory_of(*old(ssm_state), n_heads, state_size);
    let memory: [usize; 3] = [n_heads, state_size, state_size];
    assert(memory@ =~= memory_dims(n_heads, state_size));
    if !dims_fit(memory.as_slice()) {
        return Err(TensorError::TooLarge);
    }
    let found = match &*ssm_state {
        None => None,
        Some(kept) => {
            let d = candle_dims(kept);
            if d.len() != 3 || d[1] != state_size || d[2] != state_size || (d[0] != n_heads && d[0]
                != 1) {
                return Err(TensorError::WrongState);
            }
            if d[0] == n_heads {
                assert(tensor_dims(*kept) =~= memory_dims(n_heads, state_size));
                Some(kept.clone())
            } else {
                assert(tensor_dims(*kept) =~= memory_dims(1, state_size));
                proof {
                    memory_stretches(n_heads, state_size);
                }
                let wide = broadcast_as(kept, memory.as_slice())?;
                Some(contiguous(&wide)?)
            }
        },
    };
    let mut s = match found {
        Some(s) => s,
        None => {
            let blank = zeros(memory.as_slice(), q)?;
            *ssm_state = Some(blank.clone());
            blank
        },
    };
    assert(view_of(s) == start);
    let mut outputs: Vec<Tensor> = Vec::new();
    let ghost mut outs: Seq<TensorView> = Seq::empty();
    let ghost wide = seq![batch, n_heads, state_size];
    let ghost unit = seq![batch, 1usize, n_heads, state_size];
    let mut t: usize = 0;
    assert(positions(x, 0, z) =~= Seq::empty());
    while t < seq_len
        invariant
            t <= seq_len,
            z == (Sizes { batch, heads: n_heads, size: state_size }),
            x == inputs_of(*q, *k, *v, *alpha_decay, *beta),
            start == memory_of(*old(ssm_state), n_heads, state_size),
            memory_ok(*old(ssm_state), n_heads, state_size),
            wide == seq![batch, n_heads, state_size],
            unit == seq![batch, 1usize, n_heads, state_size],
            tensor_dims(*q).len() == 4,
            tensor_dims(*q)[0] == batch,
            tensor_dims(*q)[1] == seq_len,
            fits(tensor_dims(*q)),
            *ssm_state is Some,
            *old(ssm_state) is None ==> view_of((*ssm_state)->0) == start,
            *old(ssm_state) is Some ==> *ssm_state == *old(ssm_state),
            tensor_dims(s) == memory_dims(n_heads, state_size),
            fits(memory_dims(n_heads, state_size)),
            is_run(positions(x, t as nat, z), start, z, view_of(s), outs),
            outs.len() == t,
            outputs@.len() == t,
            t > 0 ==> {
                &&& batch > 0
                &&& fits(seq![batch, n_heads])
                &&& fits(wide)
                &&& inputs_hold(x, t as int, z)
            },
            forall|i: int|
                0 <= i < t ==> {
                    &&& (#[trigger] outs[i]).dims == wide
                    &&& consistent(outs[i])
                    &&& view_of(outputs@[i]) == reshaped(outs[i], unit)
                },
            plain(*q) && plain(*k) && plain(*v) && plain(*alpha_decay) && plain(*beta) && (*old(
                ssm_state,
            ) matches Some(old_s) ==> plain(old_s)) ==> {
                &&& plain(s)
                &&& forall|i: int| 0 <= i < t ==> plain(#[trigger] outputs@[i])
            },
        decreases seq_len - t,
    {
        let (s2, out) = delta_step(
            q,
            k,
            v,
            alpha_decay,
            beta,
            t,
            &s,
            batch,
            n_heads,
            state_size,
        )?;
        let placed = unsqueeze(&out, 1)?;
        proof {
            let ps = positions(x, (t + 1) as nat, z);
            assert(ps.drop_last() =~= positions(x, t as nat, z));
            assert(outs.push(view_of(out)).drop_last() =~= outs);
            assert(wide.insert(1, 1) =~= unit);
            let more = outs.push(view_of(out));
            assert(ps.last() == position(x, t as int, z));
            assert(is_step(ps.last(), view_of(s), z, view_of(s2), more.last()));
            assert(is_run(ps, start, z, view_of(s2), more));
            outs = more;
        }
        outputs.push(placed);
        s = s2;
        t += 1;
    }
    *ssm_state = Some(s);
    assert(is_run(
        positions(x, x.q.dims[1] as nat, z),
        memory_of(*old(ssm_state), n_heads, state_size),
        z,
        view_of((*ssm_state)->0),
        outs,
    ));
    let ghost views = views_of(outputs@);
    proof {
        count_small(batch, n_heads, state_size, 0, 0);
        count_small(batch, 1, n_heads, state_size, 0);
        assert(batch * 1 * n_heads * state_size == batch * n_heads * state_size)
            by (nonlinear_arith);
        assert forall|i: int| 0 <= i < views.len() implies (#[trigger] views[i]).dims == unit
            && consistent(views[i]) by {
            assert(views[i] == view_of(outputs@[i]));
            assert(outs[i].dims == wide);
        }
        if seq_len > 0 {
            join_of_units(views, 1, unit, 0);
            assert(joined(views, 1).dims =~= seq![batch, seq_len, n_heads, state_size]);
            total_of_even(views, 1, 1);
            assert(views[0].dims == unit);
            assert(joinable(views, 1));
            if fits(seq![batch, seq_len, n_heads, state_size]) {
                fits_shrink(unit, seq![batch, seq_len, n_heads, state_size]);
                assert(join_fits(views, 1));
            }
        }
    }
    let all = cat(&outputs, 1)?;
    proof {
        if seq_len == 1 {
            assert(views[0] == view_of(outputs@[0]));
            assert(unit =~= seq![batch, seq_len, n_heads, state_size]);
            narrow_to_all(view_of(all), 1);
        }
        let found = output_positions(view_of(all), seq_len as nat, z);
        assert forall|i: int| 0 <= i < seq_len implies #[trigger] found[i] == outs[i] by {
            assert(views[i] == view_of(outputs@[i]));
            if seq_len > 1 {
                join_of_units(views, 1, unit, i);
            }
            assert(narrowed(view_of(all), 1, i, 1) == view_of(outputs@[i]));
            assert(outs[i].dims == wide);
        }
        assert(found =~= outs);
    }
    Ok(all)
}

/// A run over some positions and then more goes through one memory in between.
pub proof fn run_splits(
    first: Seq<Position>,
    rest: Seq<Position>,
    s: TensorView,
    z: Sizes,
    s2: TensorView,
    outs_first: Seq<TensorView>,
    outs_rest: Seq<TensorView>,
)
    requires
        outs_first.len() == first.len(),
        outs_rest.len() == rest.len(),
    ensures
        is_run(first + rest, s, z, s2, outs_first + outs_rest) <==> exists|mid: TensorView|
            {
                &&& #[trigger] is_run(first, s, z, mid, outs_first)
                &&& is_run(rest, mid, z, s2, outs_rest)
            },
    decreases rest.len(),
{
    let all = first + rest;
    let outs = outs_first + outs_rest;
    if rest.len() == 0 {
        assert(all =~= first);
        assert(outs =~= outs_first);
        if is_run(all, s, z, s2, outs) {
            assert(is_run(first, s, z, s2, outs_first) && is_run(rest, s2, z, s2, outs_rest));
        }
    } else {
        let less = rest.drop_last();
        let outs_less = outs_rest.drop_last();
        assert(all.drop_last() =~= first + less);
        assert(outs.drop_last() =~= outs_first + outs_less);
        assert(all.last() == rest.last());
        assert(outs.last() == outs_rest.last());
        if is_run(all, s, z, s2, outs) {
            let late = choose|late: TensorView|
                {
                    &&& is_run(all.drop_last(), s, z, late, outs.drop_last())
                    &&& #[trigger] is_step(all.last(), late, z, s2, outs.last())
                };
            run_splits(first, less, s, z, late, outs_first, outs_less);
            let mid = choose|mid: TensorView|
                {
                    &&& #[trigger] is_run(first, s, z, mid, outs_first)
                    &&& is_run(less, mid, z, late, outs_less)
                };
            assert(is_step(rest.last(), late, z, s2, outs_rest.last()));
            assert(is_run(rest, mid, z, s2, outs_rest));
        }
        if exists|mid: TensorView|
            {
                &&& #[trigger] is_run(first, s, z, mid, outs_first)
                &&& is_run(rest, mid, z, s2, outs_rest)
            } {
            let mid = choose|mid: TensorView|
                {
                    &&& #[trigger] is_run(first, s, z, mid, outs_first)
                    &&& is_run(rest, mid, z, s2, outs_rest)
                };
            let late = choose|late: TensorView|
                {
                    &&& is_run(less, mid, z, late, outs_less)
                    &&& #[trigger] is_step(rest.last(), late, z, s2, outs_rest.last())
                };
            run_splits(first, less, s, z, late, outs_first, outs_less);
            assert(is_run(all.drop_last(), s, z, late, outs.drop_last()));
            assert(is_step(all.last(), late, z, s2, outs.last()));
            assert(is_run(all, s, z, s2, outs));
        }
    }
}

/// `len` positions of the inputs, from `start` on.
pub open spec fn inputs_part(x: DeltaInputs, start: int, len: usize) -> DeltaInputs {
    DeltaInputs {
        q: narrowed(x.q, 1, start, len),
        k: narrowed(x.k, 1, start, len),
        v: narrowed(x.v, 1, start, len),
        decay: narrowed(x.decay, 1, start, len),
        beta: narrowed(x.beta, 1, start, len),
    }
}

/// Running the recurrence over positions in two calls, the second with the memory that the first
/// has kept, is running it in one: the same outputs come out and the same memory is kept.
pub proof fn recurrence_splits(
    x: DeltaInputs,
    s: TensorView,
    z: Sizes,
    s2: TensorView,
    out: TensorView,
    len: usize,
    first: usize,
)
    requires
        first <= len,
        inputs_hold(x, len as int, z),
        out.dims.len() >= 2,
        out.dims[1] == len,
    ensures
        is_run(positions(x, len as nat, z), s, z, s2, output_positions(out, len as nat, z)) <==> {
            let rest = (len - first) as usize;
            exists|mid: TensorView|
                {
                    &&& #[trigger] is_run(
                        positions(inputs_part(x, 0, first), first as nat, z),
                        s,
                        z,
                        mid,
                        output_positions(narrowed(out, 1, 0, first), first as nat, z),
                    )
                    &&& is_run(
                        positions(inputs_part(x, first as int, rest), rest as nat, z),
                        mid,
                        z,
                        s2,
                        output_positions(narrowed(out, 1, first as int, rest), rest as nat, z),
                    )
                }
        },
{
    let rest = (len - first) as usize;
    let a = positions(inputs_part(x, 0, first), first as nat, z);
    let b = positions(inputs_part(x, first as int, rest), rest as nat, z);
    let oa = output_positions(narrowed(out, 1, 0, first), first as nat, z);
    let ob = output_positions(narrowed(out, 1, first as int, rest), rest as nat, z);
    let all = positions(x, len as nat, z);
    let outs = output_positions(out, len as nat, z);
    assert forall|t: int| 0 <= t < first implies #[trigger] a[t] == all[t] by {
        part_position(x, 0, first, t, z);
    }
    assert forall|t: int| 0 <= t < first implies #[trigger] oa[t] == outs[t] by {
        narrow_of_narrow(out, 1, 0, first, t, 1);
    }
    assert forall|t: int| 0 <= t < rest implies #[trigger] b[t] == all[first + t] by {
        part_position(x, first as int, rest, t, z);
    }
    assert forall|t: int| 0 <= t < rest implies #[trigger] ob[t] == outs[first + t] by {
        narrow_of_narrow(out, 1, first as int, rest, t, 1);
    }
    assert(a + b =~= all);
    assert(oa + ob =~= outs);
    run_splits(a, b, s, z, s2, oa, ob);
}

/// A position of a part of the inputs.
proof fn part_position(x: DeltaInputs, start: int, len: usize, t: int, z: Sizes)
    requires
        0 <= start,
        0 <= t < len,
        inputs_hold(x, start + len, z),
    ensures
        position(inputs_part(x, start, len), t, z) == position(x, start + t, z),
{
    narrow_of_narrow(x.q, 1, start, len, t, 1);
    narrow_of_narrow(x.k, 1, start, len, t, 1);
    narrow_of_narrow(x.v, 1, start, len, t, 1);
    narrow_of_narrow(x.decay, 1, start, len, t, 1);
    narrow_of_narrow(x.beta, 1, start, len, t, 1);
}

/// The recurrence looks back only: what it puts out at the first positions is the same whatever
/// positions follow them.
pub proof fn recurrence_is_causal(
    x: DeltaInputs,
    y: DeltaInputs,
    s: TensorView,
    z: Sizes,
    s2: TensorView,
    outs: Seq<TensorView>,
    len: usize,
    first: usize,
)
    requires
        first <= len,
        inputs_hold(x, len as int, z),
        inputs_hold(y, first as int, z),
        inputs_part(x, 0, first) == inputs_part(y, 0, first),
        is_run(positions(x, len as nat, z), s, z, s2, outs),
    ensures
        exists|mid: TensorView| #[trigger]
            is_run(positions(y, first as nat, z), s, z, mid, outs.take(first as int)),
{
    prefix_same(x, y, z, len, first);
    run_prefix(positions(x, len as nat, z), s, z, s2, outs, first as int);
}

/// The first positions of a run are a run.
pub proof fn run_prefix(
    ps: Seq<Position>,
    s: TensorView,
    z: Sizes,
    s2: TensorView,
    outs: Seq<TensorView>,
    first: int,
)
    requires
        0 <= first <= ps.len(),
        is_run(ps, s, z, s2, outs),
    ensures
        exists|mid: TensorView| #[trigger] is_run(ps.take(first), s, z, mid, outs.take(first)),
    decreases ps.len(),
{
    run_length(ps, s, z, s2, outs);
    if first == ps.len() {
        assert(ps.take(first) =~= ps);
        assert(outs.take(first) =~= outs);
    } else {
        let before = choose|mid: TensorView|
            {
                &&& is_run(ps.drop_last(), s, z, mid, outs.drop_last())
                &&& #[trigger] is_step(ps.last(), mid, z, s2, outs.last())
            };
        run_prefix(ps.drop_last(), s, z, before, outs.drop_last(), first);
        assert(ps.drop_last().take(first) =~= ps.take(first));
        assert(outs.drop_last().take(first) =~= outs.take(first));
    }
}

/// The first positions of inputs that agree there.
proof fn prefix_same(x: DeltaInputs, y: DeltaInputs, z: Sizes, len: usize, first: usize)
    requires
        first <= len,
        inputs_hold(x, len as int, z),
        inputs_hold(y, first as int, z),
        inputs_part(x, 0, first) == inputs_part(y, 0, first),
    ensures
        positions(x, len as nat, z).take(first as int) == positions(y, first as nat, z),
{
    let a = positions(x, len as nat, z).take(first as int);
    let b = positions(y, first as nat, z);
    assert forall|t: int| 0 <= t < first implies #[trigger] a[t] == b[t] by {
        part_position(x, 0, first, t, z);
        part_position(y, 0, first, t, z);
    }
    assert(a =~= b);
}

/// A run puts something out at each position.
pub proof fn run_length(
    ps: Seq<Position>,
    s: TensorView,
    z: Sizes,
    s2: TensorView,
    outs: Seq<TensorView>,
)
    requires
        is_run(ps, s, z, s2, outs),
    ensures
        outs.len() == ps.len(),
{
}

} // verus!
