//! Causal depthwise convolution over time.
//!
//! Each channel has its own kernel, laid over the current row and the rows before it. The rows
//! that later positions still need are kept from one call to the next.
use candle_core::Tensor;
use vstd::prelude::*;

use crate::ops::{
    broadcast_as, cat, dims3, is_product, is_sum, join_fits, narrow, plus, reshape, times, zeros,
    TensorError,
};
use crate::rows::{
    chain_of_two, chain_rows, join_is_chain, narrow_is_run, narrow_to_all, row, total_of_even,
    total_of_two,
};
use crate::shape::{
    consistent, count, count_small, count_split, factor, fits, fits_shrink, fits_without, joinable,
    joined, narrowed, span, span_count, span_small, span_split, stretched, stretched_view,
    stretches_to, total_along, TensorView,
};
use crate::tensor::{candle_dims, plain, tensor_dims, tensor_words, view_of, views_of};

verus! {

/// How many rows are kept between calls: one fewer than the kernel has, and at least one.
pub open spec fn kept_rows(kernel: usize) -> usize {
    if kernel <= 2 {
        1
    } else {
        (kernel - 1) as usize
    }
}

/// The kept rows have the shape that this kernel and this many channels call for.
pub open spec fn state_ok(state: Option<Tensor>, kernel: usize, channels: usize) -> bool {
    state matches Some(t) ==> tensor_dims(t) == seq![kept_rows(kernel), channels]
}

/// The elements of the kept rows, if there are any.
pub open spec fn history(state: Option<Tensor>) -> Option<Seq<u32>> {
    match state {
        Some(t) => Some(tensor_words(t)),
        None => None,
    }
}

/// The kept rows, zeros where there are none, and then the rows of `x`.
pub open spec fn timeline(
    history: Option<Seq<u32>>,
    x: Seq<u32>,
    kernel: usize,
    channels: usize,
) -> Seq<u32> {
    (match history {
        Some(h) => h,
        None => Seq::new((kept_rows(kernel) * channels) as nat, |i: int| 0u32),
    }) + x
}

/// A row as a tensor.
pub open spec fn as_row(words: Seq<u32>, channels: usize) -> TensorView {
    TensorView { dims: seq![1, channels], words }
}

/// `r` is `acc` with tap `n` added: the row `n` before row `at` of `line`, times row `n` of the
/// kernel, is `p`.
pub open spec fn tap_added(
    line: Seq<u32>,
    kernel: Seq<u32>,
    channels: usize,
    at: int,
    n: nat,
    acc: Seq<u32>,
    p: Seq<u32>,
    r: Seq<u32>,
) -> bool {
    &&& is_product(
        as_row(row(line, at - n, channels as int), channels),
        as_row(row(kernel, n as int, channels as int), channels),
        as_row(p, channels),
    )
    &&& is_sum(as_row(acc, channels), as_row(p, channels), as_row(r, channels))
}

/// `r` is the sum of taps 0 to `n` at row `at` of `line`: of row `at` times row 0 of the kernel,
/// the row before it times row 1, and so on.
pub open spec fn is_tap_sum(
    line: Seq<u32>,
    kernel: Seq<u32>,
    channels: usize,
    at: int,
    n: nat,
    r: Seq<u32>,
) -> bool
    decreases n,
{
    if n == 0 {
        is_product(
            as_row(row(line, at, channels as int), channels),
            as_row(row(kernel, 0, channels as int), channels),
            as_row(r, channels),
        )
    } else {
        exists|acc: Seq<u32>, p: Seq<u32>|
            {
                &&& #[trigger] tap_added(line, kernel, channels, at, n, acc, p, r)
                &&& is_tap_sum(line, kernel, channels, at, (n - 1) as nat, acc)
            }
    }
}

/// The last tap in use at position `t`: at the first position of all, only the current row
/// counts.
pub open spec fn last_tap(history: Option<Seq<u32>>, kernel: usize, t: int) -> nat {
    if history is None && t == 0 {
        0
    } else {
        (kernel - 1) as nat
    }
}

/// `out` is the convolution of the first `len` rows of `x`, where `history` was kept from
/// before.
pub open spec fn is_convolution(
    history: Option<Seq<u32>>,
    x: Seq<u32>,
    weight: Seq<u32>,
    kernel: usize,
    channels: usize,
    len: int,
    out: Seq<u32>,
) -> bool {
    forall|t: int|
        0 <= t < len ==> #[trigger] is_tap_sum(
            timeline(history, x, kernel, channels),
            weight,
            channels,
            t + kept_rows(kernel),
            last_tap(history, kernel, t),
            row(out, t, channels as int),
        )
}

/// What is kept once `t` rows of `x` have been taken in.
pub open spec fn kept_after(
    history: Option<Seq<u32>>,
    x: Seq<u32>,
    kernel: usize,
    channels: usize,
    t: int,
) -> Option<Seq<u32>> {
    if t == 0 {
        history
    } else {
        Some(
            timeline(history, x, kernel, channels).subrange(
                t * channels,
                (t + kept_rows(kernel)) * channels,
            ),
        )
    }
}

/// Taps see the same wherever the rows that they read are the same.
pub proof fn tap_sum_moves(
    line1: Seq<u32>,
    line2: Seq<u32>,
    kernel: Seq<u32>,
    channels: usize,
    at1: int,
    at2: int,
    n: nat,
    r: Seq<u32>,
)
    requires
        is_tap_sum(line1, kernel, channels, at1, n, r),
        forall|k: int|
            0 <= k <= n ==> row(line1, #[trigger] (at1 - k), channels as int) == row(
                line2,
                at2 - k,
                channels as int,
            ),
    ensures
        is_tap_sum(line2, kernel, channels, at2, n, r),
    decreases n,
{
    if n == 0 {
        let k = 0int;
        assert(row(line1, at1 - k, channels as int) == row(line2, at2 - k, channels as int));
    } else {
        let (acc, p) = choose|acc: Seq<u32>, p: Seq<u32>|
            {
                &&& #[trigger] tap_added(line1, kernel, channels, at1, n, acc, p, r)
                &&& is_tap_sum(line1, kernel, channels, at1, (n - 1) as nat, acc)
            };
        tap_sum_moves(line1, line2, kernel, channels, at1, at2, (n - 1) as nat, acc);
        let k = n as int;
        assert(row(line1, at1 - k, channels as int) == row(line2, at2 - k, channels as int));
        assert(tap_added(line2, kernel, channels, at2, n, acc, p, r));
    }
}

/// Stretching a row over several rows.
proof fn stretch_rows(rows: usize, channels: usize)
    ensures
        stretched(seq![rows, channels], seq![1, channels]) == Some(seq![rows, channels]),
{
    reveal_with_fuel(stretched, 4);
    let a = seq![rows, channels];
    let b = seq![1usize, channels];
    assert(a.drop_last() =~= seq![rows]);
    assert(b.drop_last() =~= seq![1usize]);
    assert(seq![rows].drop_last() =~= Seq::empty());
    assert(seq![1usize].drop_last() =~= Seq::empty());
    assert(Seq::<usize>::empty().push(rows) =~= seq![rows]);
    assert(seq![rows].push(channels) =~= a);
}

/// Row `k` of the kernel.
fn weight_row(weight: &Tensor, k: usize, channels: usize) -> (r: Result<Tensor, TensorError>)
    requires
        tensor_dims(*weight).len() > 0,
        k < tensor_dims(*weight)[0],
    ensures
        r matches Ok(u) ==> {
            &&& fits(seq![1, channels])
            &&& count(tensor_dims(*weight).skip(1)) == channels
            &&& view_of(u) == as_row(
                row(tensor_words(*weight), k as int, channels as int),
                channels,
            )
            &&& tensor_words(u).len() == channels
            &&& plain(u) == plain(*weight)
        },
        plain(*weight) && fits(tensor_dims(*weight)) && fits(seq![1, channels]) ==> (r is Ok
            <==> count(tensor_dims(*weight).skip(1)) == channels),
{
    let dims = candle_dims(weight);
    let one = narrow(weight, 0, k, 1)?;
    let shape: [usize; 2] = [1, channels];
    proof {
        let v = view_of(*weight);
        assert(v.dims.take(0) =~= Seq::empty());
        narrow_is_run(v, 0, k as int, 1);
        let inner = count(v.dims.skip(1)) as int;
        assert((k + 1) * inner - k * inner == inner) by (nonlinear_arith);
        assert(shape@ =~= seq![1, channels]);
        count_small(1, channels, 0, 0, 0);
        assert(count(seq![1, channels]) == channels);
        if fits(v.dims) {
            fits_shrink(v.dims.update(0, 1), v.dims);
        }
    }
    reshape(&one, shape.as_slice())
}

/// The convolution at one position, `row_in` being the current row. Takes that row into what is
/// kept.
fn conv_step(
    row_in: &Tensor,
    weight: &Tensor,
    state: &mut Option<Tensor>,
    batch: usize,
    channels: usize,
) -> (r: Result<Tensor, TensorError>)
    requires
        tensor_dims(*weight).len() > 0,
        tensor_dims(*weight)[0] > 0,
        tensor_dims(*row_in) == seq![batch, channels],
        consistent(view_of(*row_in)),
        state_ok(*old(state), tensor_dims(*weight)[0], channels),
        *old(state) matches Some(t) ==> consistent(view_of(t)),
    ensures
        r is Err ==> *final(state) == *old(state),
        r matches Ok(u) ==> {
            let kernel = tensor_dims(*weight)[0];
            let line = timeline(history(*old(state)), tensor_words(*row_in), kernel, channels);
            &&& count(tensor_dims(*weight).skip(1)) == channels
            &&& batch == 1 || channels == 0
            &&& tensor_dims(u) == seq![batch, channels]
            &&& consistent(view_of(u))
            &&& batch == 1 ==> is_tap_sum(
                line,
                tensor_words(*weight),
                channels,
                kept_rows(kernel) as int,
                last_tap(history(*old(state)), kernel, 0),
                tensor_words(u),
            )
            &&& *final(state) is Some
            &&& state_ok(*final(state), kernel, channels)
            &&& history(*final(state)) == kept_after(
                history(*old(state)),
                tensor_words(*row_in),
                kernel,
                channels,
                1,
            )
            &&& consistent(view_of((*final(state))->0))
        },
        plain(*row_in) && plain(*weight) && (*old(state) matches Some(t) ==> plain(t)) ==> {
            &&& batch == 1 && fits(tensor_dims(*weight)) && fits(seq![1, channels]) ==> (r is Ok
                <==> count(tensor_dims(*weight).skip(1)) == channels)
            &&& r matches Ok(u) ==> plain(u) && plain((*final(state))->0)
        },
{
    let dims = candle_dims(weight);
    let kernel: usize = dims[0];
    let pad: usize = kernel - 1;
    let ghost line = timeline(history(*old(state)), tensor_words(*row_in), kernel, channels);
    let ghost kept = kept_rows(kernel) as int;
    let ghost ch = channels as int;
    let ghost prev_words = line.take(kept * ch);
    proof {
        count_small(batch, channels, 0, 0, 0);
        count_small(kept_rows(kernel), channels, 0, 0, 0);
        count_small(1, channels, 0, 0, 0);
        assert(kept * ch >= 0) by (nonlinear_arith)
            requires
                kept >= 0,
                ch >= 0,
        ;
        assert(line.len() == kept * ch + tensor_words(*row_in).len());
        assert((kept + 1) * ch == kept * ch + ch) by (nonlinear_arith);
        stretch_rows(batch, channels);
        stretch_rows(1, channels);
        if batch == 1 {
            assert(batch * ch == ch) by (nonlinear_arith)
                requires
                    batch == 1,
            ;
            assert(row(line, kept, ch) =~= tensor_words(*row_in));
        }
    }
    let w0 = weight_row(weight, 0, channels)?;
    let mut acc = times(row_in, &w0)?;
    proof {
        if batch == 1 {
            assert(view_of(*row_in) == as_row(row(line, kept, ch), channels));
            assert(view_of(acc) == as_row(tensor_words(acc), channels));
        }
    }
    if let Some(prev) = &*state {
        let mut k: usize = 1;
        assert(prev_words =~= tensor_words(*prev));
        while k < kernel
            invariant
                1 <= k <= kernel,
                pad == kernel - 1,
                kernel == tensor_dims(*weight)[0],
                tensor_dims(*weight).len() > 0,
                kept == kept_rows(kernel),
                ch == channels,
                *state == Some(*prev),
                *state == *old(state),
                tensor_dims(*prev) == seq![kept_rows(kernel), channels],
                consistent(view_of(*prev)),
                tensor_words(*prev) == prev_words,
                prev_words == line.take(kept * ch),
                line.len() >= kept * ch >= 0,
                tensor_dims(*row_in) == seq![batch, channels],
                tensor_dims(acc) == seq![batch, channels],
                consistent(view_of(acc)),
                fits(seq![1, channels]),
                k > 1 ==> batch == 1,
                count(tensor_dims(*weight).skip(1)) == channels,
                batch == 1 ==> is_tap_sum(
                    line,
                    tensor_words(*weight),
                    channels,
                    kept,
                    (k - 1) as nat,
                    tensor_words(acc),
                ),
                plain(*row_in) && plain(*weight) ==> (plain(*prev) ==> plain(acc)),
            decreases kernel - k,
        {
            proof {
                let v = view_of(*prev);
                let i = pad - k;
                assert(v.dims.take(0) =~= Seq::empty());
                narrow_is_run(v, 0, i, 1);
                assert(v.dims.skip(1) =~= seq![channels]);
                count_small(channels, 0, 0, 0, 0);
                assert(narrowed(v, 0, i, 1).dims =~= seq![1, channels]);
                assert(row(line, kept - k, ch) =~= row(prev_words, i, ch)) by {
                    assert(0 <= i * ch && (i + 1) * ch <= kept * ch) by (nonlinear_arith)
                        requires
                            0 <= i < kept,
                            0 <= ch,
                    ;
                }
                stretch_rows(1, channels);
            }
            let before = narrow(prev, 0, pad - k, 1)?;
            let w = weight_row(weight, k, channels)?;
            let p = times(&before, &w)?;
            let sum = plus(&acc, &p)?;
            proof {
                assert(seq![batch, channels][0] == tensor_dims(p)[0]);
                assert(view_of(before) == as_row(row(line, kept - k, ch), channels));
                assert(view_of(acc) == as_row(tensor_words(acc), channels));
                assert(view_of(p) == as_row(tensor_words(p), channels));
                assert(view_of(sum) == as_row(tensor_words(sum), channels));
                assert(tap_added(
                    line,
                    tensor_words(*weight),
                    channels,
                    kept,
                    k as nat,
                    tensor_words(acc),
                    tensor_words(p),
                    tensor_words(sum),
                ));
            }
            acc = sum;
            k += 1;
        }
    }
    let shape: [usize; 2] = [1, channels];
    assert(shape@ =~= seq![1, channels]);
    let row_one = reshape(row_in, shape.as_slice())?;
    proof {
        assert(batch == 1 || channels == 0) by (nonlinear_arith)
            requires
                batch * channels == 1 * channels,
        ;
        assert(tensor_words(row_one) == tensor_words(*row_in));
        assert(tensor_words(row_one).len() == ch);
    }
    let next = if pad > 1 {
        let kept_part = match &*state {
            Some(prev) => narrow(prev, 0, 1, pad - 1)?,
            None => {
                let blank: [usize; 2] = [pad - 1, channels];
                assert(blank@ =~= seq![(pad - 1) as usize, channels]);
                proof {
                    if fits(tensor_dims(*weight)) {
                        rows_fit(tensor_dims(*weight), (pad - 1) as usize, channels);
                    }
                }
                zeros(blank.as_slice(), &row_one)?
            },
        };
        let ghost part = view_of(kept_part);
        proof {
            let less = (pad - 1) as usize;
            count_small(less, channels, 0, 0, 0);
            assert(prev_words.len() == kept * ch);
            assert(kept * ch == ch + less * ch) by (nonlinear_arith)
                requires
                    kept == less + 1,
            ;
            assert(less * ch >= 0) by (nonlinear_arith)
                requires
                    ch >= 0,
                    less >= 0,
            ;
            if *state is Some {
                let v = view_of((*state)->0);
                assert(v.dims.take(0) =~= Seq::empty());
                narrow_is_run(v, 0, 1, less);
                assert(v.dims.skip(1) =~= seq![channels]);
                count_small(channels, 0, 0, 0, 0);
                assert(1 * ch == ch && (1 + less) * ch == kept * ch) by (nonlinear_arith)
                    requires
                        kept == less + 1,
                ;
                assert(part.dims =~= seq![less, channels]);
                assert(part.words =~= prev_words.subrange(ch, kept * ch));
            } else {
                assert(part.words =~= prev_words.subrange(ch, kept * ch));
            }
        }
        let mut parts: Vec<Tensor> = Vec::new();
        parts.push(kept_part);
        parts.push(row_one);
        proof {
            let less = (pad - 1) as usize;
            let views = views_of(parts@);
            assert(views =~= seq![part, view_of(row_one)]);
            total_of_two(part, view_of(row_one), 0);
            chain_of_two(part, view_of(row_one));
            assert(part.dims.take(0) =~= Seq::empty());
            assert(view_of(row_one).dims.take(0) =~= Seq::empty());
            join_is_chain(views, 0);
            assert(part.dims.update(0, 0) =~= view_of(row_one).dims.update(0, 0));
            assert(joinable(views, 0));
            assert(joined(views, 0).dims =~= seq![pad, channels]);
            if fits(tensor_dims(*weight)) {
                rows_fit(tensor_dims(*weight), pad, channels);
                rows_fit(tensor_dims(*weight), less, channels);
                assert(join_fits(views, 0));
            }
        }
        cat(&parts, 0)?
    } else {
        row_one
    };
    proof {
        assert(history(Some(next))->0 =~= line.subrange(1 * ch, (1 + kept) * ch));
    }
    *state = Some(next);
    Ok(acc)
}

/// The shape of those of the kept rows that a kernel reads: as many as it needs, the oldest first.
pub open spec fn read_dims(state: Tensor, kernel: usize) -> Seq<usize> {
    tensor_dims(state).update(0, kept_rows(kernel))
}

/// What a kernel reads of the kept rows: one of a single row reads none. If more rows were kept
/// than it needs, those behind are not read. A single row that is narrower is stretched.
pub open spec fn used_history(state: Option<Tensor>, kernel: usize, channels: usize) -> Option<
    Seq<u32>,
> {
    match state {
        None => None,
        Some(t) => if kernel <= 1 {
            None
        } else {
            let part = narrowed(view_of(t), 0, 0, kept_rows(kernel));
            if part.dims == seq![kept_rows(kernel), channels] {
                Some(part.words)
            } else {
                Some(stretched_view(part, seq![kept_rows(kernel), channels]).words)
            }
        },
    }
}

/// A kernel of several rows finds enough kept rows, of as many channels as there are. Where one
/// row is read, and a single position comes, the row can be narrower.
pub open spec fn usable(
    state: Option<Tensor>,
    kernel: usize,
    channels: usize,
    len: usize,
) -> bool {
    kernel <= 1 || (state matches Some(t) ==> {
        &&& tensor_dims(t).len() > 0
        &&& tensor_dims(t)[0] >= kept_rows(kernel)
        &&& {
            ||| read_dims(t, kernel) == seq![kept_rows(kernel), channels]
            ||| kernel == 2 && len <= 1 && stretches_to(
                read_dims(t, kernel),
                seq![kept_rows(kernel), channels],
            )
        }
    })
}

/// What a kernel reads of rows in just the shape that it keeps is all of them.
pub proof fn exact_history(state: Option<Tensor>, kernel: usize, channels: usize)
    requires
        kernel > 1,
        state_ok(state, kernel, channels),
        state matches Some(t) ==> consistent(view_of(t)),
    ensures
        used_history(state, kernel, channels) == history(state),
{
    if let Some(t) = state {
        narrow_to_all(view_of(t), 0);
    }
}

/// Rows in just the shape that a kernel keeps can be read by it.
pub proof fn kept_is_usable(state: Option<Tensor>, kernel: usize, channels: usize, len: usize)
    requires
        state_ok(state, kernel, channels),
    ensures
        usable(state, kernel, channels, len),
{
    if let Some(t) = state {
        assert(read_dims(t, kernel) =~= seq![kept_rows(kernel), channels]);
    }
}

/// The kept rows that a kernel reads.
fn read_state(state: &Option<Tensor>, kernel: usize, channels: usize, len: usize) -> (r: Result<
    Option<Tensor>,
    TensorError,
>)
    requires
        kernel > 0,
    ensures
        r is Ok <==> usable(*state, kernel, channels, len),
        r matches Ok(s) ==> {
            &&& state_ok(s, kernel, channels)
            &&& history(s) == used_history(*state, kernel, channels)
            &&& s matches Some(t) ==> consistent(view_of(t))
            &&& (*state matches Some(t) ==> plain(t)) ==> (s matches Some(t) ==> plain(t))
        },
{
    match state {
        None => Ok(None),
        Some(kept) => {
            if kernel == 1 {
                return Ok(None);
            }
            let rows: usize = if kernel == 2 {
                1
            } else {
                kernel - 1
            };
            let d = candle_dims(kept);
            if d.len() == 0 || d[0] < rows {
                return Err(TensorError::WrongState);
            }
            let part = narrow(kept, 0, 0, rows)?;
            let e = candle_dims(&part);
            let whole: [usize; 2] = [rows, channels];
            assert(whole@ =~= seq![kept_rows(kernel), channels]);
            assert(e@ == read_dims(*kept, kernel));
            if e.len() == 2 && e[1] == channels {
                assert(e@ =~= whole@);
                return Ok(Some(part));
            }
            assert(e@ != whole@) by {
                assert(whole@.len() == 2 && whole@[1] == channels);
            }
            if kernel != 2 || len > 1 {
                return Err(TensorError::WrongState);
            }
            let wide = broadcast_as(&part, whole.as_slice())?;
            let _count = candle_dims(&wide);
            Ok(Some(wide))
        },
    }
}

/// `out` is the convolution of `x`, of shape `[1, positions, channels]`, with `weight`, whose
/// first dimension runs over the taps. The rows kept go from `before` to `after`.
pub open spec fn is_convolved(
    x: TensorView,
    weight: TensorView,
    before: Option<Tensor>,
    after: Option<Tensor>,
    out: TensorView,
) -> bool {
    let kernel = weight.dims[0];
    let batch = x.dims[0];
    let len = x.dims[1];
    let channels = x.dims[2];
    let past = used_history(before, kernel, channels);
    &&& fits(x.dims)
    &&& x.dims.len() == 3
    &&& consistent(x)
    &&& kernel == 0 ==> out == x && after == before
    &&& kernel > 0 ==> {
        &&& usable(before, kernel, channels, len)
        &&& count(weight.dims.skip(1)) == channels
        &&& channels > 0 ==> batch == 1 && len > 0
        &&& out.dims == seq![batch, if len > 1 { len } else { 1 }, channels]
        &&& consistent(out)
        &&& batch == 1 ==> is_convolution(
            past,
            x.words,
            weight.words,
            kernel,
            channels,
            len as int,
            out.words,
        )
        &&& after is Some
        &&& state_ok(after, kernel, channels)
        &&& batch == 1 && len > 0 ==> history(after) == kept_after(
            past,
            x.words,
            kernel,
            channels,
            len as int,
        )
    }
}

/// The rows kept are the same as before, or as many rows of `x` have been taken in as there were
/// convolutions that succeeded. Of rows without channels there is nothing to say.
pub open spec fn conv_touched(
    x: TensorView,
    weight: TensorView,
    before: Option<Tensor>,
    after: Option<Tensor>,
) -> bool {
    let kernel = weight.dims[0];
    ||| after == before
    ||| x.dims[2] == 0
    ||| exists|t: int| 0 < t <= x.dims[1] && {
        &&& state_ok(after, kernel, x.dims[2])
        &&& history(after) == #[trigger] kept_after(
            used_history(before, kernel, x.dims[2]),
            x.words,
            kernel,
            x.dims[2],
            t,
        )
    }
}

/// Convolves `x`, of shape `[1, positions, channels]`, with a kernel whose first dimension runs
/// over the taps, the current row first. `conv_state` holds the rows that were kept from earlier
/// calls and takes in those of `x`.
pub fn causal_conv1d_depthwise(
    x: &Tensor,
    conv_weight: &Tensor,
    conv_state: &mut Option<Tensor>,
) -> (r: Result<Tensor, TensorError>)
    requires
        tensor_dims(*conv_weight).len() > 0,
    ensures
        r matches Ok(u) ==> is_convolved(
            view_of(*x),
            view_of(*conv_weight),
            *old(conv_state),
            *final(conv_state),
            view_of(u),
        ),
        tensor_dims(*conv_weight)[0] == 0 ==> {
            &&& r is Ok <==> fits(tensor_dims(*x)) && tensor_dims(*x).len() == 3
            &&& r matches Ok(u) ==> u == *x
        },
        conv_touched(view_of(*x), view_of(*conv_weight), *old(conv_state), *final(conv_state)),
        plain(*x) && plain(*conv_weight) && (*old(conv_state) matches Some(t) ==> plain(t)) ==> {
            &&& {
                let kernel = tensor_dims(*conv_weight)[0];
                &&& fits(tensor_dims(*conv_weight))
                &&& fits(tensor_dims(*x))
                &&& tensor_dims(*x).len() == 3
                &&& tensor_dims(*x)[0] == 1
                &&& tensor_dims(*x)[1] > 0
                &&& count(tensor_dims(*conv_weight).skip(1)) == tensor_dims(*x)[2]
                &&& usable(*old(conv_state), kernel, tensor_dims(*x)[2], tensor_dims(*x)[1])
            } ==> r is Ok
            &&& r matches Ok(u) ==> plain(u) && (*final(conv_state) matches Some(t) ==> plain(t))
        },
{
    let (batch, seq_len, channels) = dims3(x)?;
    let kernel: usize = candle_dims(conv_weight)[0];
    if kernel == 0 {
        return Ok(x.clone());
    }
    let mut kept_now = read_state(&*conv_state, kernel, channels, seq_len)?;
    let ghost ch = channels as int;
    let ghost xw = tensor_words(*x);
    let ghost ww = tensor_words(*conv_weight);
    let ghost before = used_history(*old(conv_state), kernel, channels);
    let ghost kept = kept_rows(kernel) as int;
    let flat: [usize; 2] = [batch, channels];
    let shape: [usize; 3] = [batch, 1, channels];
    proof {
        assert(flat@ =~= seq![batch, channels]);
        assert(shape@ =~= seq![batch, 1, channels]);
        count_small(batch, channels, 0, 0, 0);
        count_small(batch, 1, channels, 0, 0);
        count_small(batch, seq_len, channels, 0, 0);
        count_small(1, channels, 0, 0, 0);
        count_small(batch, 0, 0, 0, 0);
        assert(tensor_dims(*x).take(1) =~= seq![batch]);
        assert(tensor_dims(*x).skip(2) =~= seq![channels]);
        count_small(channels, 0, 0, 0, 0);
        assert(batch * 1 * channels == batch * channels) by (nonlinear_arith);
        token_fits(batch, seq_len, channels);
        if before is Some {
            candle_history(kept_now, kernel, channels);
        }
        assert(kept * ch >= 0) by (nonlinear_arith)
            requires
                kept >= 0,
                ch >= 0,
        ;
    }
    if seq_len > 1 {
        let mut outputs: Vec<Tensor> = Vec::new();
        let mut t: usize = 0;
        while t < seq_len
            invariant
                t <= seq_len,
                1 < seq_len,
                0 < kernel,
                kernel == tensor_dims(*conv_weight)[0],
                tensor_dims(*conv_weight).len() > 0,
                tensor_dims(*x) == seq![batch, seq_len, channels],
                fits(tensor_dims(*x)),
                consistent(view_of(*x)),
                flat@ == seq![batch, channels],
                shape@ == seq![batch, 1, channels],
                count(flat@) == batch * channels,
                count(shape@) == batch * channels,
                fits(flat@),
                fits(shape@),
                batch > 0 ==> fits(seq![1, channels]),
                ch == channels,
                xw == tensor_words(*x),
                ww == tensor_words(*conv_weight),
                before == used_history(*old(conv_state), kernel, channels),
                usable(*old(conv_state), kernel, channels, seq_len),
                kept == kept_rows(kernel),
                before matches Some(h) ==> h.len() == kept * ch,
                state_ok(kept_now, kernel, channels),
                kept_now matches Some(s) ==> consistent(view_of(s)),
                kernel == 1 ==> kept_now is None && before is None,
                t == 0 ==> history(kept_now) == before && *conv_state == *old(conv_state),
                t > 0 ==> {
                    &&& *conv_state is Some
                    &&& state_ok(*conv_state, kernel, channels)
                    &&& count(tensor_dims(*conv_weight).skip(1)) == channels
                    &&& batch == 1 || channels == 0
                    &&& kernel > 1 ==> kept_now == *conv_state
                },
                t > 0 && batch == 1 ==> history(*conv_state) == kept_after(
                    before,
                    xw,
                    kernel,
                    channels,
                    t as int,
                ),
                outputs@.len() == t,
                forall|i: int|
                    0 <= i < t ==> {
                        &&& tensor_dims(#[trigger] outputs@[i]) == seq![batch, 1, channels]
                        &&& consistent(view_of(outputs@[i]))
                    },
                batch == 1 ==> forall|i: int|
                    0 <= i < t ==> is_tap_sum(
                        timeline(before, xw, kernel, channels),
                        ww,
                        channels,
                        i + kept_rows(kernel),
                        last_tap(before, kernel, i),
                        tensor_words(#[trigger] outputs@[i]),
                    ),
                plain(*x) && plain(*conv_weight) && (*old(conv_state) matches Some(s) ==> plain(s))
                    ==> {
                    &&& kept_now matches Some(s) ==> plain(s)
                    &&& *conv_state matches Some(s) ==> plain(s)
                    &&& forall|i: int| 0 <= i < t ==> plain(#[trigger] outputs@[i])
                },
            decreases seq_len - t,
        {
            let one = narrow(x, 1, t, 1)?;
            proof {
                assert(tensor_dims(one) =~= seq![batch, 1, channels]);
                if batch == 1 {
                    token_is_row(view_of(*x), t as int, seq_len, channels);
                }
            }
            let row_in = reshape(&one, flat.as_slice())?;
            let out = conv_step(&row_in, conv_weight, &mut kept_now, batch, channels)?;
            *conv_state = kept_now.clone();
            if kernel == 1 {
                // A kernel of one row reads nothing of what was kept.
                kept_now = None;
            }
            proof {
                if batch == 1 {
                    assert(tensor_words(row_in) == row(xw, t as int, ch));
                    if kernel == 1 {
                        alone_in_line(xw, ww, channels, t as int, seq_len as int, tensor_words(out));
                    }
                    step_in_line(
                        before,
                        xw,
                        ww,
                        kernel,
                        channels,
                        t as int,
                        seq_len as int,
                        tensor_words(out),
                    );
                    let done = t + 1;
                    assert(history(*conv_state) == kept_after(before, xw, kernel, channels, done));
                }
            }
            let out3 = reshape(&out, shape.as_slice())?;
            outputs.push(out3);
            t += 1;
        }
        let ghost views = views_of(outputs@);
        proof {
            assert forall|i: int| 0 <= i < views.len() implies (#[trigger] views[i]).dims
                == seq![batch, 1, channels] && consistent(views[i]) by {
                assert(views[i] == view_of(outputs@[i]));
            }
            total_of_even(views, 1, 1);
            assert(total_along(views, 1) == seq_len);
            assert(joinable(views, 1)) by {
                assert forall|i: int| 0 <= i < views.len() implies {
                    &&& (#[trigger] views[i]).dims.len() == views[0].dims.len()
                    &&& views[i].dims.update(1, 0) == views[0].dims.update(1, 0)
                } by {
                    assert(views[0].dims == seq![batch, 1, channels]);
                }
            }
            assert(joined(views, 1).dims =~= seq![batch, seq_len, channels]);
            assert(join_fits(views, 1));
        }
        let out = cat(&outputs, 1)?;
        let _whole = candle_dims(&out);
        proof {
            if batch == 1 {
                assert forall|i: int| 0 <= i < views.len() implies {
                    &&& 1 < (#[trigger] views[i]).dims.len()
                    &&& consistent(views[i])
                    &&& count(views[i].dims.take(1)) == 1
                } by {
                    assert(views[i].dims.take(1) =~= seq![batch]);
                }
                join_is_chain(views, 1);
                assert forall|i: int| 0 <= i < views.len() implies (#[trigger] views[i]).words.len()
                    == ch by {
                    assert(batch * channels == ch) by (nonlinear_arith)
                        requires
                            batch == 1,
                            ch == channels,
                    ;
                }
                chain_rows(views, ch);
                assert forall|i: int| 0 <= i < seq_len implies #[trigger] is_tap_sum(
                    timeline(before, xw, kernel, channels),
                    ww,
                    channels,
                    i + kept_rows(kernel),
                    last_tap(before, kernel, i),
                    row(tensor_words(out), i, channels as int),
                ) by {
                    assert(views[i].words == tensor_words(outputs@[i]));
                }
            }
        }
        Ok(out)
    } else {
        let row_in = reshape(x, flat.as_slice())?;
        let out = conv_step(&row_in, conv_weight, &mut kept_now, batch, channels)?;
        *conv_state = kept_now;
        proof {
            if batch == 1 {
                assert(batch * channels == ch) by (nonlinear_arith)
                    requires
                        batch == 1,
                        ch == channels,
                ;
                assert(seq_len * ch == batch * seq_len * channels) by (nonlinear_arith)
                    requires
                        batch == 1,
                        ch == channels,
                ;
                assert(0 * ch == 0 && 1 * ch == ch) by (nonlinear_arith);
                assert(row(tensor_words(out), 0, ch) =~= tensor_words(out));
                assert(xw =~= tensor_words(row_in));
                if seq_len == 0 {
                    assert(ch == 0) by (nonlinear_arith)
                        requires
                            seq_len * ch == 1 * ch,
                            seq_len == 0,
                    ;
                } else {
                    let done = 1int;
                    assert(history(*conv_state) == kept_after(before, xw, kernel, channels, done));
                }
            }
        }
        reshape(&out, shape.as_slice())
    }
}

/// Kept rows in the right shape hold as many elements as it says.
proof fn candle_history(state: Option<Tensor>, kernel: usize, channels: usize)
    requires
        state is Some,
        state_ok(state, kernel, channels),
        consistent(view_of(state->0)),
    ensures
        history(state)->0.len() == kept_rows(kernel) * channels,
{
    count_small(kept_rows(kernel), channels, 0, 0, 0);
}

/// Parts of the shape `[batch, positions, channels]` fit in memory where it does.
proof fn token_fits(batch: usize, len: usize, channels: usize)
    requires
        fits(seq![batch, len, channels]),
    ensures
        len > 0 ==> fits(seq![batch, channels]) && fits(seq![batch, 1, channels]),
        len > 0 && batch > 0 ==> fits(seq![1, channels]),
{
    if len > 0 {
        let d = seq![batch, len, channels];
        let e = seq![batch, 1, channels];
        let f = seq![batch, channels];
        fits_shrink(e, d);
        fits_without(d, 1);
        assert(d.remove(1) =~= f);
        if batch > 0 {
            fits_shrink(seq![1, channels], f);
        }
    }
}

/// A position of a tensor of the shape `[1, positions, channels]` is a row.
proof fn token_is_row(x: TensorView, t: int, len: usize, channels: usize)
    requires
        x.dims == seq![1, len, channels],
        consistent(x),
        0 <= t < len,
    ensures
        narrowed(x, 1, t, 1).words == row(x.words, t, channels as int),
        x.words.len() == len * channels,
{
    assert(x.dims.take(1) =~= seq![1usize]);
    assert(x.dims.skip(2) =~= seq![channels]);
    count_small(1, 0, 0, 0, 0);
    count_small(channels, 0, 0, 0, 0);
    narrow_is_run(x, 1, t, 1);
}

/// A step from what is kept after `t` rows is position `t` of the whole.
proof fn step_in_line(
    before: Option<Seq<u32>>,
    x: Seq<u32>,
    weight: Seq<u32>,
    kernel: usize,
    channels: usize,
    t: int,
    len: int,
    out: Seq<u32>,
)
    requires
        kernel > 0,
        0 <= t < len,
        x.len() == len * channels,
        before matches Some(h) ==> h.len() == kept_rows(kernel) * channels,
        is_tap_sum(
            timeline(
                kept_after(before, x, kernel, channels, t),
                row(x, t, channels as int),
                kernel,
                channels,
            ),
            weight,
            channels,
            kept_rows(kernel) as int,
            last_tap(kept_after(before, x, kernel, channels, t), kernel, 0),
            out,
        ),
    ensures
        is_tap_sum(
            timeline(before, x, kernel, channels),
            weight,
            channels,
            t + kept_rows(kernel),
            last_tap(before, kernel, t),
            out,
        ),
        kept_after(
            kept_after(before, x, kernel, channels, t),
            row(x, t, channels as int),
            kernel,
            channels,
            1,
        ) == kept_after(before, x, kernel, channels, t + 1),
{
    let ch = channels as int;
    let kept = kept_rows(kernel) as int;
    let line = timeline(before, x, kernel, channels);
    let here = kept_after(before, x, kernel, channels, t);
    let small = timeline(here, row(x, t, ch), kernel, channels);
    assert(0 <= kept * ch) by (nonlinear_arith)
        requires
            0 <= kept,
            0 <= ch,
    ;
    assert(line.len() == kept * ch + len * ch);
    assert(0 <= t * ch && (t + 1) * ch == t * ch + ch && (t + kept) * ch == t * ch + kept * ch && (t
        + 1 + kept) * ch == t * ch + ch + kept * ch && (t + 1) * ch <= len * ch) by (
    nonlinear_arith)
        requires
            0 <= t < len,
            0 <= ch,
    ;
    assert((kept + 1) * ch == kept * ch + ch && (1 + kept) * ch == kept * ch + ch && 1 * ch == ch)
        by (nonlinear_arith);
    assert(small =~= line.subrange(t * ch, (t + 1 + kept) * ch));
    let n = last_tap(before, kernel, t);
    assert(n <= kept);
    assert forall|k: int| 0 <= k <= n implies row(small, #[trigger] (kept - k), ch) == row(
        line,
        t + kept - k,
        ch,
    ) by {
        let i = kept - k;
        assert(0 <= i * ch && (i + 1) * ch <= (kept + 1) * ch && (i + 1) * ch == i * ch + ch && (t
            + i) * ch == t * ch + i * ch && (t + i + 1) * ch == t * ch + (i + 1) * ch) by (
        nonlinear_arith)
            requires
                0 <= i <= kept,
                0 <= ch,
        ;
        assert(t + kept - k == t + i);
        assert(row(small, i, ch) =~= row(line, t + i, ch));
    }
    tap_sum_moves(small, line, weight, channels, kept, t + kept, n, out);
    assert(small.subrange(ch, (1 + kept) * ch) =~= line.subrange(
        (t + 1) * ch,
        (t + 1 + kept) * ch,
    ));
}

/// A kernel of one row puts out the same whatever was kept.
proof fn alone_in_line(
    x: Seq<u32>,
    weight: Seq<u32>,
    channels: usize,
    t: int,
    len: int,
    out: Seq<u32>,
)
    requires
        0 <= t < len,
        x.len() == len * channels,
        is_tap_sum(
            timeline(None, row(x, t, channels as int), 1, channels),
            weight,
            channels,
            1,
            0,
            out,
        ),
    ensures
        is_tap_sum(
            timeline(
                kept_after(None, x, 1, channels, t),
                row(x, t, channels as int),
                1,
                channels,
            ),
            weight,
            channels,
            1,
            0,
            out,
        ),
        kept_after(None, row(x, t, channels as int), 1, channels, 1) == kept_after(
            kept_after(None, x, 1, channels, t),
            row(x, t, channels as int),
            1,
            channels,
            1,
        ),
{
    let ch = channels as int;
    let here = row(x, t, ch);
    let before = kept_after(None, x, 1, channels, t);
    let a = timeline(None, here, 1, channels);
    let b = timeline(before, here, 1, channels);
    assert(0 <= t * ch && (t + 1) * ch == t * ch + ch && (t + 1) * ch <= len * ch && 1 * ch == ch && (1
        + 1) * ch == ch + ch) by (nonlinear_arith)
        requires
            0 <= t < len,
            0 <= ch,
    ;
    assert(here.len() == ch);
    assert(row(a, 1, ch) =~= here);
    assert(row(b, 1, ch) =~= here);
    tap_sum_moves(a, b, weight, channels, 1, 1, 0, out);
    assert(a.subrange(1 * ch, (1 + 1) * ch) =~= here);
    assert(b.subrange(1 * ch, (1 + 1) * ch) =~= here);
}

/// Fewer rows than the kernel has fit in memory where the kernel does.
proof fn rows_fit(weight: Seq<usize>, rows: usize, channels: usize)
    requires
        weight.len() > 0,
        fits(weight),
        rows < weight[0],
        count(weight.skip(1)) == channels,
    ensures
        fits(seq![rows, channels]),
{
    count_small(rows, channels, 0, 0, 0);
    span_small(rows, channels, 0, 0, 0);
    let rest = weight.skip(1);
    count_split(weight, 1);
    span_split(weight, 1);
    span_count(rest);
    assert(weight.take(1) =~= seq![weight[0]]);
    count_small(weight[0], 0, 0, 0, 0);
    span_small(weight[0], 0, 0, 0, 0);
    let n = weight[0] as nat;
    assert(rows * channels <= n * channels) by (nonlinear_arith)
        requires
            rows <= n,
            channels >= 0,
    ;
    let f = factor(rows);
    let g = factor(channels);
    let h = span(rest);
    assert(f * g <= n * h) by (nonlinear_arith)
        requires
            0 <= f <= n,
            0 <= g <= h,
    ;
}

/// Convolving rows in two calls, the second with what the first has kept, is convolving them in
/// one: the same outputs come out and the same rows are kept.
pub proof fn convolution_splits(
    history: Option<Seq<u32>>,
    x: Seq<u32>,
    weight: Seq<u32>,
    kernel: usize,
    channels: usize,
    len: int,
    first: int,
    out: Seq<u32>,
)
    requires
        kernel > 0,
        0 < first < len,
        x.len() == len * channels,
        out.len() == len * channels,
        history matches Some(h) ==> h.len() == kept_rows(kernel) * channels,
    ensures
        ({
            let cut = first * channels;
            let middle = kept_after(history, x.take(cut), kernel, channels, first);
            &&& is_convolution(history, x, weight, kernel, channels, len, out) <==> {
                &&& is_convolution(
                    history,
                    x.take(cut),
                    weight,
                    kernel,
                    channels,
                    first,
                    out.take(cut),
                )
                &&& is_convolution(
                    middle,
                    x.skip(cut),
                    weight,
                    kernel,
                    channels,
                    len - first,
                    out.skip(cut),
                )
            }
            &&& kept_after(middle, x.skip(cut), kernel, channels, len - first) == kept_after(
                history,
                x,
                kernel,
                channels,
                len,
            )
        }),
{
    let ch = channels as int;
    let kept = kept_rows(kernel) as int;
    let cut = first * ch;
    let line = timeline(history, x, kernel, channels);
    let x1 = x.take(cut);
    let x2 = x.skip(cut);
    let middle = kept_after(history, x1, kernel, channels, first);
    let line1 = timeline(history, x1, kernel, channels);
    let line2 = timeline(middle, x2, kernel, channels);
    assert(0 <= cut <= len * ch && (first + kept) * ch == cut + kept * ch && 0 <= kept * ch) by (
    nonlinear_arith)
        requires
            0 < first < len,
            0 <= ch,
            0 <= kept,
            cut == first * ch,
    ;
    assert(line1 =~= line.take(cut + kept * ch));
    assert(middle->0 =~= line.subrange(cut, cut + kept * ch));
    assert(line2 =~= line.skip(cut));
    assert forall|t: int| 0 <= t < len implies {
        &&& t < first ==> row(out, t, ch) == row(out.take(cut), t, ch)
        &&& t >= first ==> #[trigger] row(out, t, ch) == row(out.skip(cut), t - first, ch)
    } by {
        assert(0 <= t * ch && (t + 1) * ch == t * ch + ch && (t + 1) * ch <= len * ch && (t - first)
            * ch == t * ch - cut && (t - first + 1) * ch == (t + 1) * ch - cut && (t < first ==> (t
            + 1) * ch <= cut) && (t >= first ==> t * ch >= cut)) by (nonlinear_arith)
            requires
                0 <= t < len,
                0 <= ch,
                cut == first * ch,
        ;
        if t < first {
            assert(row(out, t, ch) =~= row(out.take(cut), t, ch));
        } else {
            assert(row(out, t, ch) =~= row(out.skip(cut), t - first, ch));
        }
    }
    assert forall|t: int, k: int|
        #![trigger row(line, t + kept - k, ch)]
        0 <= t < len && 0 <= k <= kept implies {
        &&& t < first ==> row(line, t + kept - k, ch) == row(line1, t + kept - k, ch)
        &&& t >= first ==> row(line, t + kept - k, ch) == row(line2, t - first + kept - k, ch)
    } by {
        let i = t + kept - k;
        assert(0 <= i * ch && (i + 1) * ch == i * ch + ch && (i + 1) * ch <= len * ch + kept * ch
            && (i - first) * ch == i * ch - cut && (i - first + 1) * ch == (i + 1) * ch - cut && (t
            < first ==> (i + 1) * ch <= cut + kept * ch) && (t >= first ==> i * ch >= cut)) by (
        nonlinear_arith)
            requires
                0 <= t < len,
                0 <= k <= kept,
                0 <= ch,
                i == t + kept - k,
                cut == first * ch,
        ;
        if t < first {
            assert(row(line, i, ch) =~= row(line1, i, ch));
        } else {
            assert(t - first + kept - k == i - first);
            assert(row(line, i, ch) =~= row(line2, i - first, ch));
        }
    }
    if is_convolution(history, x, weight, kernel, channels, len, out) {
        assert forall|t: int| 0 <= t < first implies #[trigger] is_tap_sum(
            line1,
            weight,
            channels,
            t + kept_rows(kernel),
            last_tap(history, kernel, t),
            row(out.take(cut), t, ch),
        ) by {
            let n = last_tap(history, kernel, t);
            let r = row(out, t, ch);
            assert(is_tap_sum(line, weight, channels, t + kept_rows(kernel), n, r));
            tap_sum_moves(line, line1, weight, channels, t + kept, t + kept, n, r);
        }
        assert forall|t: int| 0 <= t < len - first implies #[trigger] is_tap_sum(
            line2,
            weight,
            channels,
            t + kept_rows(kernel),
            last_tap(middle, kernel, t),
            row(out.skip(cut), t, ch),
        ) by {
            let u = t + first;
            let n = last_tap(history, kernel, u);
            let r = row(out, u, ch);
            assert(is_tap_sum(line, weight, channels, u + kept_rows(kernel), n, r));
            tap_sum_moves(line, line2, weight, channels, u + kept, t + kept, n, r);
        }
    }
    if is_convolution(history, x1, weight, kernel, channels, first, out.take(cut))
        && is_convolution(middle, x2, weight, kernel, channels, len - first, out.skip(cut)) {
        assert forall|t: int| 0 <= t < len implies #[trigger] is_tap_sum(
            line,
            weight,
            channels,
            t + kept_rows(kernel),
            last_tap(history, kernel, t),
            row(out, t, ch),
        ) by {
            let n = last_tap(history, kernel, t);
            let r = row(out, t, ch);
            if t < first {
                assert(is_tap_sum(
                    line1,
                    weight,
                    channels,
                    t + kept_rows(kernel),
                    n,
                    row(out.take(cut), t, ch),
                ));
                assert forall|k: int| 0 <= k <= n implies row(
                    line1,
                    #[trigger] (t + kept - k),
                    ch,
                ) == row(line, t + kept - k, ch) by {}
                tap_sum_moves(line1, line, weight, channels, t + kept, t + kept, n, r);
            } else {
                let u = t - first;
                assert(is_tap_sum(
                    line2,
                    weight,
                    channels,
                    u + kept_rows(kernel),
                    last_tap(middle, kernel, u),
                    row(out.skip(cut), u, ch),
                ));
                assert forall|k: int| 0 <= k <= n implies row(
                    line2,
                    #[trigger] (u + kept - k),
                    ch,
                ) == row(line, t + kept - k, ch) by {}
                tap_sum_moves(line2, line, weight, channels, u + kept, t + kept, n, r);
            }
        }
    }
    let rest = len - first;
    assert(rest * ch == len * ch - cut && (rest + kept) * ch == len * ch - cut + kept * ch && (len
        + kept) * ch == len * ch + kept * ch) by (nonlinear_arith)
        requires
            rest == len - first,
            cut == first * ch,
    ;
    assert(rest * ch >= 0) by (nonlinear_arith)
        requires
            rest > 0,
            ch >= 0,
    ;
    assert(line2.subrange(rest * ch, (rest + kept) * ch) =~= line.subrange(
        len * ch,
        (len + kept) * ch,
    ));
}

/// Convolution looks back only: what comes out of the first rows is the same whatever rows follow
/// them.
pub proof fn convolution_is_causal(
    history: Option<Seq<u32>>,
    x: Seq<u32>,
    y: Seq<u32>,
    weight: Seq<u32>,
    kernel: usize,
    channels: usize,
    first: int,
    out: Seq<u32>,
)
    requires
        kernel > 0,
        0 <= first,
        first * channels <= x.len(),
        first * channels <= y.len(),
        x.take(first * channels) == y.take(first * channels),
        history matches Some(h) ==> h.len() == kept_rows(kernel) * channels,
    ensures
        is_convolution(history, x, weight, kernel, channels, first, out) <==> is_convolution(
            history,
            y,
            weight,
            kernel,
            channels,
            first,
            out,
        ),
{
    if is_convolution(history, x, weight, kernel, channels, first, out) {
        looks_back(history, x, y, weight, kernel, channels, first, out);
    }
    if is_convolution(history, y, weight, kernel, channels, first, out) {
        looks_back(history, y, x, weight, kernel, channels, first, out);
    }
}

proof fn looks_back(
    history: Option<Seq<u32>>,
    x: Seq<u32>,
    y: Seq<u32>,
    weight: Seq<u32>,
    kernel: usize,
    channels: usize,
    first: int,
    out: Seq<u32>,
)
    requires
        kernel > 0,
        0 <= first,
        first * channels <= x.len(),
        first * channels <= y.len(),
        x.take(first * channels) == y.take(first * channels),
        history matches Some(h) ==> h.len() == kept_rows(kernel) * channels,
        is_convolution(history, x, weight, kernel, channels, first, out),
    ensures
        is_convolution(history, y, weight, kernel, channels, first, out),
{
    let ch = channels as int;
    let kept = kept_rows(kernel) as int;
    let cut = first * ch;
    let line1 = timeline(history, x, kernel, channels);
    let line2 = timeline(history, y, kernel, channels);
    assert(0 <= kept * ch && 0 <= cut) by (nonlinear_arith)
        requires
            0 <= kept,
            0 <= ch,
            0 <= first,
            cut == first * ch,
    ;
    assert(line1.take(kept * ch + cut) =~= line2.take(kept * ch + cut)) by {
        assert forall|i: int| 0 <= i < cut implies #[trigger] x[i] == y[i] by {
            assert(x.take(cut)[i] == y.take(cut)[i]);
        }
    }
    assert forall|t: int| 0 <= t < first implies #[trigger] is_tap_sum(
        line2,
        weight,
        channels,
        t + kept_rows(kernel),
        last_tap(history, kernel, t),
        row(out, t, ch),
    ) by {
        let n = last_tap(history, kernel, t);
        let r = row(out, t, ch);
        assert(is_tap_sum(line1, weight, channels, t + kept_rows(kernel), n, r));
        assert forall|k: int| 0 <= k <= n implies row(line1, #[trigger] (t + kept - k), ch) == row(
            line2,
            t + kept - k,
            ch,
        ) by {
            let i = t + kept - k;
            assert(0 <= i * ch && (i + 1) * ch == i * ch + ch && (i + 1) * ch <= kept * ch + cut)
                by (nonlinear_arith)
                requires
                    0 <= i < first + kept,
                    0 <= ch,
                    cut == first * ch,
            ;
            assert(row(line1.take(kept * ch + cut), i, ch) =~= row(line1, i, ch));
            assert(row(line2.take(kept * ch + cut), i, ch) =~= row(line2, i, ch));
        }
        tap_sum_moves(line1, line2, weight, channels, t + kept, t + kept, n, r);
    }
}

} // verus!
