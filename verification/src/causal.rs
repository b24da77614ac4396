//! No position sees a later one: what comes out of a layer at the first positions is the same
//! whatever the positions that follow hold.
use candle_core::{DType, Tensor};
use vstd::prelude::*;

use crate::agree::{
    agree, agree_at_all, agree_within, arithmetic_is_determined, breadth, channels_agree,
    constants_agree, elements_agree, gated_agree, heads_agree, l2_agree, reshape_agree,
    softplus_agree,
};
use crate::backend::{projects, weight_obliges, QuantMethod};
use crate::conv::{
    as_row, history, is_convolved, is_tap_sum, kept_rows, last_tap, tap_added, timeline,
    used_history,
};
use crate::norm::{is_l2_normed, is_softplus, NORM_EPS};
use crate::ops::{
    is_difference, is_exp, is_matmul, is_product, is_sigmoid, is_silu, is_stretched_sum, is_sum,
};
use crate::positions::{behind, behind_facts, stretch_ones};
use crate::prompt::{
    by_position, comes_in_parts, holds_both, layer_splits, past_length, tensors_join,
};
use crate::recurrence::{
    at_batch, at_position, is_change, is_read, is_recurred, is_run, is_step, is_update, memory_of,
    output_positions, positions, run_prefix, DeltaInputs, Position, Sizes,
};
use crate::rows::{narrow_is_run, narrow_to_all, row};
use crate::shape::{consistent, count, count_small, fits, narrowed, reshaped, swapped, TensorView};
use crate::ssm::SsmWeights;
use crate::tensor::{difference_of, dtype_is_f32, plain, sum_of, tensor_dims, view_of};

verus! {

/// Operations on the same operands give the same.
proof fn same_operands(a: TensorView, b: TensorView, r: TensorView, s: TensorView)
    requires
        arithmetic_is_determined(),
    ensures
        is_product(a, b, r) && is_product(a, b, s) ==> r == s,
        is_sum(a, b, r) && is_sum(a, b, s) ==> r == s,
        is_difference(a, b, r) && is_difference(a, b, s) ==> r == s,
        is_matmul(a, b, r) && is_matmul(a, b, s) ==> r == s,
{
    reveal(arithmetic_is_determined);
    if is_product(a, b, r) && is_product(a, b, s) {
        assert forall|i: int| 0 <= i < r.words.len() implies (#[trigger] r.words[i])
            == s.words[i] by {}
        assert(r.words =~= s.words);
    }
    if is_sum(a, b, r) && is_sum(a, b, s) {
        assert forall|i: int| 0 <= i < r.words.len() implies (#[trigger] r.words[i])
            == s.words[i] by {
            assert(sum_of(a.words[i], b.words[i], s.words[i]));
        }
        assert(r.words =~= s.words);
    }
    if is_difference(a, b, r) && is_difference(a, b, s) {
        assert forall|i: int| 0 <= i < r.words.len() implies (#[trigger] r.words[i])
            == s.words[i] by {
            assert(difference_of(a.words[i], b.words[i], s.words[i]));
        }
        assert(r.words =~= s.words);
    }
}

/// Taps that read the same rows add up to the same.
proof fn taps_agree(
    line1: Seq<u32>,
    line2: Seq<u32>,
    kernel: Seq<u32>,
    channels: usize,
    at: int,
    n: nat,
    r1: Seq<u32>,
    r2: Seq<u32>,
)
    requires
        arithmetic_is_determined(),
        is_tap_sum(line1, kernel, channels, at, n, r1),
        is_tap_sum(line2, kernel, channels, at, n, r2),
        forall|k: int|
            0 <= k <= n ==> row(line1, #[trigger] (at - k), channels as int) == row(
                line2,
                at - k,
                channels as int,
            ),
    ensures
        r1 == r2,
    decreases n,
{
    let ch = channels as int;
    if n == 0 {
        let k = 0int;
        assert(row(line1, at - k, ch) == row(line2, at - k, ch));
        same_operands(
            as_row(row(line1, at, ch), channels),
            as_row(row(kernel, 0, ch), channels),
            as_row(r1, channels),
            as_row(r2, channels),
        );
    } else {
        let (acc1, p1) = choose|acc: Seq<u32>, p: Seq<u32>|
            {
                &&& #[trigger] tap_added(line1, kernel, channels, at, n, acc, p, r1)
                &&& is_tap_sum(line1, kernel, channels, at, (n - 1) as nat, acc)
            };
        let (acc2, p2) = choose|acc: Seq<u32>, p: Seq<u32>|
            {
                &&& #[trigger] tap_added(line2, kernel, channels, at, n, acc, p, r2)
                &&& is_tap_sum(line2, kernel, channels, at, (n - 1) as nat, acc)
            };
        taps_agree(line1, line2, kernel, channels, at, (n - 1) as nat, acc1, acc2);
        let k = n as int;
        assert(row(line1, at - k, ch) == row(line2, at - k, ch));
        same_operands(
            as_row(row(line1, at - n, ch), channels),
            as_row(row(kernel, n as int, ch), channels),
            as_row(p1, channels),
            as_row(p2, channels),
        );
        same_operands(
            as_row(acc1, channels),
            as_row(p1, channels),
            as_row(r1, channels),
            as_row(r2, channels),
        );
    }
}

/// What is convolved agrees at the first positions where its inputs do, and the same is kept where
/// they agree at all.
proof fn convolved_agree(
    x1: TensorView,
    x2: TensorView,
    n: int,
    weight: TensorView,
    conv0: Option<Tensor>,
    conv1: Option<Tensor>,
    conv2: Option<Tensor>,
    out1: TensorView,
    out2: TensorView,
)
    requires
        arithmetic_is_determined(),
        agree(x1, x2, 2, 0, n),
        x1.dims.len() == 3,
        x1.dims[0] == 1,
        x1.dims[1] > 0,
        weight.dims[0] > 0,
        is_convolved(x1, weight, conv0, conv1, out1),
        is_convolved(x2, weight, conv0, conv2, out2),
    ensures
        agree(out1, out2, 2, 0, n),
        out1.dims == x1.dims,
        n == x1.dims[1] ==> history(conv1) == history(conv2),
{
    let kernel = weight.dims[0];
    let channels = x1.dims[2];
    let ch = channels as int;
    let kept = kept_rows(kernel) as int;
    let len = x1.dims[1] as int;
    let past = used_history(conv0, kernel, channels);
    past_length(conv0, kernel, channels, x1.dims[1]);
    agree_within(x1, x2, 2, 0, n);
    assert(out1.dims =~= x1.dims);
    assert(out2.dims =~= x1.dims);
    assert(x1.dims.skip(2) =~= seq![channels]);
    count_small(channels, 0, 0, 0, 0);
    count_small(x1.dims[0], x1.dims[1], 0, 0, 0);
    assert(x1.dims.take(2) =~= seq![x1.dims[0], x1.dims[1]]);
    assert(1 * len == len);
    let line1 = timeline(past, x1.words, kernel, channels);
    let line2 = timeline(past, x2.words, kernel, channels);
    assert(0 <= kept * ch && 0 <= n * ch && 0 * ch == 0) by (nonlinear_arith)
        requires
            0 <= kept,
            0 <= ch,
            0 <= n,
    ;
    assert(line1.take(kept * ch + n * ch) =~= line2.take(kept * ch + n * ch)) by {
        assert forall|i: int| 0 <= i < n * ch implies #[trigger] x1.words[i] == x2.words[i] by {}
    }
    assert forall|t: int| 0 <= t < n implies #[trigger] row(out1.words, t, ch) == row(
        out2.words,
        t,
        ch,
    ) by {
        let taps = last_tap(past, kernel, t);
        let r1 = row(out1.words, t, ch);
        let r2 = row(out2.words, t, ch);
        assert(is_tap_sum(line1, weight.words, channels, t + kept_rows(kernel), taps, r1));
        assert(is_tap_sum(line2, weight.words, channels, t + kept_rows(kernel), taps, r2));
        assert forall|k: int| 0 <= k <= taps implies row(line1, #[trigger] (t + kept - k), ch)
            == row(line2, t + kept - k, ch) by {
            let i = t + kept - k;
            assert(0 <= i * ch && (i + 1) * ch == i * ch + ch && (i + 1) * ch <= kept * ch + n * ch)
                by (nonlinear_arith)
                requires
                    0 <= i < n + kept,
                    0 <= ch,
            ;
            assert(row(line1.take(kept * ch + n * ch), i, ch) =~= row(line1, i, ch));
            assert(row(line2.take(kept * ch + n * ch), i, ch) =~= row(line2, i, ch));
        }
        taps_agree(line1, line2, weight.words, channels, t + kept, taps, r1, r2);
    }
    assert forall|i: int| 0 * ch <= i < n * ch implies #[trigger] out1.words[i]
        == out2.words[i] by {
        let t = i / ch;
        let e = i % ch;
        assert(0 <= t < n && 0 <= e < ch && i == t * ch + e && (t + 1) * ch == t * ch + ch && (t
            + 1) * ch <= n * ch) by (nonlinear_arith)
            requires
                0 <= i < n * ch,
                0 <= ch,
                t == i / ch,
                e == i % ch,
        ;
        assert(n * ch <= len * ch) by (nonlinear_arith)
            requires
                n <= len,
                0 <= ch,
        ;
        assert(row(out1.words, t, ch)[e] == row(out2.words, t, ch)[e]);
    }
    if n == len {
        assert(x1.words =~= x2.words);
    }
}

/// What is read of a memory for one item is determined.
proof fn read_determined(m: TensorView, x: TensorView, z: Sizes, r: TensorView, s: TensorView)
    requires
        arithmetic_is_determined(),
        z.batch == 1,
        is_read(m, x, z, r),
        is_read(m, x, z, s),
    ensures
        r == s,
{
    let column = seq![z.heads, z.size, 1];
    narrow_to_all(r, 0);
    narrow_to_all(s, 0);
    assert(is_matmul(m, at_batch(x, 0, column), at_batch(r, 0, column)));
    assert(is_matmul(m, at_batch(x, 0, column), at_batch(s, 0, column)));
    same_operands(m, at_batch(x, 0, column), at_batch(r, 0, column), at_batch(s, 0, column));
    assert(r.words == at_batch(r, 0, column).words);
    assert(s.words == at_batch(s, 0, column).words);
}

/// One position of the recurrence, for one item, is determined.
proof fn step_determined(
    p: Position,
    s: TensorView,
    z: Sizes,
    s1: TensorView,
    s2: TensorView,
    out1: TensorView,
    out2: TensorView,
)
    requires
        arithmetic_is_determined(),
        z.batch == 1,
        is_step(p, s, z, s1, out1),
        is_step(p, s, z, s2, out2),
    ensures
        s1 == s2,
        out1 == out2,
{
    let delta1 = choose|delta: TensorView|
        {
            &&& #[trigger] is_change(p, s, z, delta)
            &&& is_update(s, p.decay, p.k, delta, z.batch - 1, z, s1)
        };
    let delta2 = choose|delta: TensorView|
        {
            &&& #[trigger] is_change(p, s, z, delta)
            &&& is_update(s, p.decay, p.k, delta, z.batch - 1, z, s2)
        };
    let beta = reshaped(p.beta, seq![z.batch, z.heads, 1]);
    let (kv1, diff1) = choose|kv: TensorView, diff: TensorView|
        {
            &&& is_read(swapped(s, 1), p.k, z, kv)
            &&& #[trigger] is_difference(p.v, kv, diff)
            &&& is_product(beta, diff, delta1)
        };
    let (kv2, diff2) = choose|kv: TensorView, diff: TensorView|
        {
            &&& is_read(swapped(s, 1), p.k, z, kv)
            &&& #[trigger] is_difference(p.v, kv, diff)
            &&& is_product(beta, diff, delta2)
        };
    read_determined(swapped(s, 1), p.k, z, kv1, kv2);
    same_operands(p.v, kv1, diff1, diff2);
    same_operands(beta, diff1, delta1, delta2);
    let kc = at_batch(p.k, 0, seq![z.heads, z.size, 1]);
    let dc = at_batch(delta1, 0, seq![z.heads, 1, z.size]);
    let fc = at_batch(p.decay, 0, seq![z.heads, 1, 1]);
    let (outer1, faded1) = choose|outer: TensorView, faded: TensorView|
        {
            &&& #[trigger] is_sum(faded, outer, s1)
            &&& is_matmul(kc, dc, outer)
            &&& is_product(s, fc, faded)
        };
    let (outer2, faded2) = choose|outer: TensorView, faded: TensorView|
        {
            &&& #[trigger] is_sum(faded, outer, s2)
            &&& is_matmul(kc, dc, outer)
            &&& is_product(s, fc, faded)
        };
    same_operands(kc, dc, outer1, outer2);
    same_operands(s, fc, faded1, faded2);
    same_operands(faded1, outer1, s1, s2);
    read_determined(s1, p.q, z, out1, out2);
}

/// A run over one item is determined.
proof fn run_determined(
    ps: Seq<Position>,
    s: TensorView,
    z: Sizes,
    s1: TensorView,
    s2: TensorView,
    outs1: Seq<TensorView>,
    outs2: Seq<TensorView>,
)
    requires
        arithmetic_is_determined(),
        z.batch == 1,
        is_run(ps, s, z, s1, outs1),
        is_run(ps, s, z, s2, outs2),
    ensures
        s1 == s2,
        outs1 == outs2,
    decreases ps.len(),
{
    if ps.len() == 0 {
        assert(outs1 =~= outs2);
    } else {
        let mid1 = choose|mid: TensorView|
            {
                &&& is_run(ps.drop_last(), s, z, mid, outs1.drop_last())
                &&& #[trigger] is_step(ps.last(), mid, z, s1, outs1.last())
            };
        let mid2 = choose|mid: TensorView|
            {
                &&& is_run(ps.drop_last(), s, z, mid, outs2.drop_last())
                &&& #[trigger] is_step(ps.last(), mid, z, s2, outs2.last())
            };
        run_determined(ps.drop_last(), s, z, mid1, mid2, outs1.drop_last(), outs2.drop_last());
        step_determined(ps.last(), mid1, z, s1, s2, outs1.last(), outs2.last());
        assert(outs1 =~= outs1.drop_last().push(outs1.last()));
        assert(outs2 =~= outs2.drop_last().push(outs2.last()));
    }
}

/// Tensors that agree at a position have the same there.
proof fn position_agrees(a: TensorView, b: TensorView, n: int, t: int, dims: Seq<usize>)
    requires
        agree(a, b, 2, 0, n),
        a.dims[0] == 1,
        0 <= t < n,
    ensures
        at_position(a, t, dims) == at_position(b, t, dims),
{
    agree_within(a, b, 2, 0, n);
    assert(a.dims.take(1) =~= seq![1usize]);
    count_small(1, a.dims[1], 0, 0, 0);
    assert(a.dims.take(2) =~= seq![1, a.dims[1]]);
    let w = breadth(a.dims, 2);
    let len = a.dims[1] as int;
    assert(1 * len == len);
    narrow_is_run(a, 1, t, 1);
    narrow_is_run(b, 1, t, 1);
    assert(0 * w == 0 && 0 <= t * w && (t + 1) * w <= n * w) by (nonlinear_arith)
        requires
            0 <= t < n,
            0 <= w,
    ;
    assert(narrowed(a, 1, t, 1).words =~= narrowed(b, 1, t, 1).words) by {
        assert forall|i: int| t * w <= i < (t + 1) * w implies #[trigger] a.words[i]
            == b.words[i] by {}
    }
}

/// Tensors that have the same at the first positions agree there.
proof fn positions_make_agree(a: TensorView, b: TensorView, n: int, dims: Seq<usize>)
    requires
        a.dims == b.dims,
        consistent(a),
        consistent(b),
        a.dims.len() >= 2,
        a.dims[0] == 1,
        0 <= n <= a.dims[1],
        forall|t: int|
            0 <= t < n ==> #[trigger] at_position(a, t, dims) == at_position(b, t, dims),
    ensures
        agree(a, b, 2, 0, n),
{
    let w = breadth(a.dims, 2);
    let len = a.dims[1] as int;
    assert(a.dims.take(1) =~= seq![1usize]);
    count_small(1, a.dims[1], 0, 0, 0);
    assert(a.dims.take(2) =~= seq![1, a.dims[1]]);
    assert(1 * len == len);
    assert forall|i: int| 0 * w <= i < n * w implies #[trigger] a.words[i] == b.words[i] by {
        let t = i / w;
        let e = i % w;
        assert(0 <= t < n && 0 <= e < w && i == t * w + e && (t + 1) * w == t * w + w)
            by (nonlinear_arith)
            requires
                0 <= i < n * w,
                0 <= w,
                t == i / w,
                e == i % w,
        ;
        narrow_is_run(a, 1, t, 1);
        narrow_is_run(b, 1, t, 1);
        assert(at_position(a, t, dims) == at_position(b, t, dims));
        assert(a.words.subrange(t * w, (t + 1) * w)[e] == b.words.subrange(
            t * w,
            (t + 1) * w,
        )[e]);
    }
}

/// Inputs of the delta rule agree at the first positions.
pub open spec fn inputs_agree(a: DeltaInputs, b: DeltaInputs, n: int) -> bool {
    &&& agree(a.q, b.q, 2, 0, n)
    &&& agree(a.k, b.k, 2, 0, n)
    &&& agree(a.v, b.v, 2, 0, n)
    &&& agree(a.decay, b.decay, 2, 0, n)
    &&& agree(a.beta, b.beta, 2, 0, n)
}

/// What the delta rule puts out agrees at the first positions where its inputs do, and the same is
/// kept where they agree at all.
proof fn recurred_agree(
    x1: DeltaInputs,
    x2: DeltaInputs,
    n: int,
    heads: usize,
    size: usize,
    mem0: Option<Tensor>,
    mem1: Option<Tensor>,
    mem2: Option<Tensor>,
    out1: TensorView,
    out2: TensorView,
)
    requires
        arithmetic_is_determined(),
        inputs_agree(x1, x2, n),
        x1.q.dims[0] == 1,
        x1.k.dims[0] == 1,
        x1.v.dims[0] == 1,
        x1.decay.dims[0] == 1,
        x1.beta.dims[0] == 1,
        n <= x1.q.dims[1],
        is_recurred(x1, heads, size, mem0, mem1, out1),
        is_recurred(x2, heads, size, mem0, mem2, out2),
    ensures
        agree(out1, out2, 2, 0, n),
        out1.dims == seq![1, x1.q.dims[1], heads, size],
        n == x1.q.dims[1] ==> view_of(mem1->0) == view_of(mem2->0),
{
    let z = Sizes { batch: 1, heads, size };
    let len = x1.q.dims[1] as nat;
    let wide = seq![1, heads, size];
    let slim = seq![1, heads];
    let ps1 = positions(x1, len, z);
    let ps2 = positions(x2, len, z);
    let outs1 = output_positions(out1, len, z);
    let outs2 = output_positions(out2, len, z);
    let s = memory_of(mem0, heads, size);
    let s1 = view_of(mem1->0);
    let s2 = view_of(mem2->0);
    assert forall|t: int| 0 <= t < n implies #[trigger] ps1[t] == ps2[t] by {
        position_agrees(x1.q, x2.q, n, t, wide);
        position_agrees(x1.k, x2.k, n, t, wide);
        position_agrees(x1.v, x2.v, n, t, wide);
        position_agrees(x1.decay, x2.decay, n, t, slim);
        position_agrees(x1.beta, x2.beta, n, t, slim);
    }
    run_prefix(ps1, s, z, s1, outs1, n);
    run_prefix(ps2, s, z, s2, outs2, n);
    assert(ps1.take(n) =~= ps2.take(n));
    let mid1 = choose|mid: TensorView| #[trigger]
        is_run(ps1.take(n), s, z, mid, outs1.take(n));
    let mid2 = choose|mid: TensorView| #[trigger]
        is_run(ps2.take(n), s, z, mid, outs2.take(n));
    run_determined(ps1.take(n), s, z, mid1, mid2, outs1.take(n), outs2.take(n));
    assert forall|t: int| 0 <= t < n implies #[trigger] at_position(out1, t, wide) == at_position(
        out2,
        t,
        wide,
    ) by {
        assert(outs1.take(n)[t] == outs2.take(n)[t]);
        assert(outs1[t] == outs2[t]);
    }
    positions_make_agree(out1, out2, n, wide);
    if n == len {
        assert(ps1 =~= ps2);
        run_determined(ps1, s, z, s1, s2, outs1, outs2);
    }
}

/// The weight looks at each position alone: what it makes agrees where what it is given agrees.
pub open spec fn looks_at_positions<Q: QuantMethod>(w: Q) -> bool {
    forall|x1: Tensor, x2: Tensor, y1: Tensor, y2: Tensor, from: int, to: int|
        #![trigger projects(w, x1, y1), projects(w, x2, y2), agree(
            view_of(x1), view_of(x2), 2, from, to,
        )]
        projects(w, x1, y1) && projects(w, x2, y2) && agree(
            view_of(x1),
            view_of(x2),
            2,
            from,
            to,
        ) ==> agree(view_of(y1), view_of(y2), 2, from, to)
}

impl<Q: QuantMethod> SsmWeights<Q> {
    /// What is cut up agrees.
    proof fn cut_agrees(
        &self,
        len: usize,
        n: int,
        qkv1: TensorView,
        qkv2: TensorView,
        conv0: Option<Tensor>,
        conv1: Option<Tensor>,
        conv2: Option<Tensor>,
        q1: TensorView,
        q2: TensorView,
        k1: TensorView,
        k2: TensorView,
        v1: TensorView,
        v2: TensorView,
    )
        requires
            arithmetic_is_determined(),
            self.sizes_ok(),
            agree(qkv1, qkv2, 2, 0, n),
            self.cut_fits(qkv1.dims, 1, len, conv0),
            self.is_cut(1, len, qkv1, conv0, conv1, q1, k1, v1),
            self.is_cut(1, len, qkv2, conv0, conv2, q2, k2, v2),
        ensures
            agree(q1, q2, 2, 0, n),
            agree(k1, k2, 2, 0, n),
            agree(v1, v2, 2, 0, n),
            q1.dims == seq![1, len, self.n_kv_heads, self.state_size],
            k1.dims == q1.dims,
            v1.dims == self.head_dims(1, len),
            n == len ==> history(conv1) == history(conv2),
    {
        let ks = (self.n_kv_heads * self.state_size) as usize;
        let vs = (self.n_heads * self.state_size) as usize;
        let w = view_of(self.ssm_conv1d);
        let key_dims = seq![1, len, self.n_kv_heads, self.state_size];
        let value_dims = seq![1, len, self.n_heads, self.state_size];
        let (mixed1, act1) = choose|mixed: TensorView, act: TensorView|
            {
                &&& is_convolved(qkv1, w, conv0, conv1, mixed)
                &&& #[trigger] is_silu(mixed, act)
                &&& 2 * ks + vs <= act.dims[2]
                &&& q1 == reshaped(narrowed(act, 2, 0, ks), key_dims)
                &&& k1 == reshaped(narrowed(act, 2, ks as int, ks), key_dims)
                &&& v1 == reshaped(narrowed(act, 2, 2 * ks, vs), value_dims)
            };
        let (mixed2, act2) = choose|mixed: TensorView, act: TensorView|
            {
                &&& is_convolved(qkv2, w, conv0, conv2, mixed)
                &&& #[trigger] is_silu(mixed, act)
                &&& 2 * ks + vs <= act.dims[2]
                &&& q2 == reshaped(narrowed(act, 2, 0, ks), key_dims)
                &&& k2 == reshaped(narrowed(act, 2, ks as int, ks), key_dims)
                &&& v2 == reshaped(narrowed(act, 2, 2 * ks, vs), value_dims)
            };
        convolved_agree(qkv1, qkv2, n, w, conv0, conv1, conv2, mixed1, mixed2);
        elements_agree(mixed1, mixed2, 2, 0, n, act1, act2);
        assert(self.n_kv_heads * self.state_size >= 0 && self.n_heads * self.state_size >= 0)
            by (nonlinear_arith);
        self.part_agrees(act1, act2, n, 0, ks, len, self.n_kv_heads);
        self.part_agrees(act1, act2, n, ks as int, ks, len, self.n_kv_heads);
        self.part_agrees(act1, act2, n, 2 * ks, vs, len, self.n_heads);
    }

    proof fn part_agrees(
        &self,
        a: TensorView,
        b: TensorView,
        n: int,
        start: int,
        part: usize,
        len: usize,
        heads: usize,
    )
        requires
            agree(a, b, 2, 0, n),
            a.dims.len() == 3,
            a.dims[0] == 1,
            a.dims[1] == len,
            0 <= start,
            start + part <= a.dims[2],
            part == heads * self.state_size,
        ensures
            ({
                let d = seq![1, len, heads, self.state_size];
                agree(
                    reshaped(narrowed(a, 2, start, part), d),
                    reshaped(narrowed(b, 2, start, part), d),
                    2,
                    0,
                    n,
                )
            }),
    {
        let size = self.state_size;
        let d = seq![1, len, heads, size];
        let na = narrowed(a, 2, start, part);
        let nb = narrowed(b, 2, start, part);
        channels_agree(a, b, 0, n, start, part);
        assert(na.dims =~= seq![1, len, part]);
        count_small(1, len, part, 0, 0);
        count_small(1, len, heads, size, 0);
        assert(1 * len * part == 1 * len * heads * size) by (nonlinear_arith)
            requires
                part == heads * size,
        ;
        assert(d.skip(2) =~= seq![heads, size]);
        assert(na.dims.skip(2) =~= seq![part]);
        count_small(heads, size, 0, 0, 0);
        count_small(part, 0, 0, 0, 0);
        assert(d.take(2) =~= na.dims.take(2));
        reshape_agree(na, nb, 2, 0, n, d, 2);
    }

    /// Scaled vectors of heads agree.
    proof fn scaled_agree(
        &self,
        n: int,
        d1: DType,
        d2: DType,
        a1: TensorView,
        a2: TensorView,
        b1: TensorView,
        b2: TensorView,
        q1: TensorView,
        q2: TensorView,
        k1: TensorView,
        k2: TensorView,
    )
        requires
            arithmetic_is_determined(),
            self.sizes_ok(),
            dtype_is_f32(d1),
            dtype_is_f32(d2),
            agree(a1, a2, 2, 0, n),
            agree(b1, b2, 2, 0, n),
            a1.dims == seq![1, a1.dims[1], self.n_kv_heads, self.state_size],
            b1.dims == a1.dims,
            self.n_kv_heads != self.n_heads ==> self.n_heads * self.state_size == self.n_kv_heads * (
            self.n_heads / self.n_kv_heads) * self.state_size,
            self.is_scaled(d1, a1, b1, q1, k1),
            self.is_scaled(d2, a2, b2, q2, k2),
        ensures
            agree(q1, q2, 2, 0, n),
            agree(k1, k2, 2, 0, n),
            q1.dims == self.head_dims(1, a1.dims[1]),
            k1.dims == q1.dims,
    {
        let (x1, y1) = choose|x: TensorView, y: TensorView|
            {
                &&& #[trigger] is_l2_normed(a1, NORM_EPS, d1, x)
                &&& #[trigger] is_l2_normed(b1, NORM_EPS, d1, y)
                &&& q1 == self.spread(x)
                &&& k1 == self.spread(y)
            };
        let (x2, y2) = choose|x: TensorView, y: TensorView|
            {
                &&& #[trigger] is_l2_normed(a2, NORM_EPS, d2, x)
                &&& #[trigger] is_l2_normed(b2, NORM_EPS, d2, y)
                &&& q2 == self.spread(x)
                &&& k2 == self.spread(y)
            };
        l2_agree(a1, a2, 2, 0, n, NORM_EPS, d1, d2, x1, x2);
        l2_agree(b1, b2, 2, 0, n, NORM_EPS, d1, d2, y1, y2);
        if self.n_kv_heads != self.n_heads {
            let repeat = self.n_heads / self.n_kv_heads;
            heads_agree(x1, x2, 0, n, self.n_heads, repeat);
            heads_agree(y1, y2, 0, n, self.n_heads, repeat);
        }
        assert(q1.dims =~= self.head_dims(1, a1.dims[1]));
        assert(k1.dims =~= self.head_dims(1, a1.dims[1]));
    }

    /// Decays agree.
    proof fn decay_agrees(
        &self,
        n: int,
        a1: TensorView,
        a2: TensorView,
        r1: TensorView,
        r2: TensorView,
    )
        requires
            arithmetic_is_determined(),
            agree(a1, a2, 2, 0, n),
            a1.dims.len() == 3,
            a1.dims[2] == self.n_heads,
            self.is_decay(a1, r1),
            self.is_decay(a2, r2),
        ensures
            agree(r1, r2, 2, 0, n),
            r1.dims == a1.dims,
    {
        let per_head = seq![1, 1, self.n_heads];
        let dt = reshaped(view_of(self.ssm_dt), per_head);
        let a = reshaped(view_of(self.ssm_a), per_head);
        let (shifted1, soft1, rate1) = choose|
            shifted: TensorView,
            soft: TensorView,
            rate: TensorView,
        |
            {
                &&& is_stretched_sum(a1, dt, shifted)
                &&& #[trigger] is_softplus(shifted, soft)
                &&& is_product(soft, a, rate)
                &&& #[trigger] is_exp(rate, r1)
            };
        let (shifted2, soft2, rate2) = choose|
            shifted: TensorView,
            soft: TensorView,
            rate: TensorView,
        |
            {
                &&& is_stretched_sum(a2, dt, shifted)
                &&& #[trigger] is_softplus(shifted, soft)
                &&& is_product(soft, a, rate)
                &&& #[trigger] is_exp(rate, r2)
            };
        stretch_ones(a1.dims, per_head);
        constants_agree(a1, a2, dt, 2, 0, n, shifted1, shifted2);
        softplus_agree(shifted1, shifted2, 2, 0, n, soft1, soft2);
        constants_agree(soft1, soft2, a, 2, 0, n, rate1, rate2);
        elements_agree(rate1, rate2, 2, 0, n, r1, r2);
    }
}

/// What an obliging weight makes has its shape.
pub proof fn projected_dims<Q: QuantMethod>(w: Q, from: usize, to: usize, x: Tensor, y: Tensor)
    requires
        weight_obliges(w, from, to),
        plain(x),
        tensor_dims(x).len() == 3,
        tensor_dims(x)[0] == 1,
        tensor_dims(x)[2] == from,
        fits(tensor_dims(x)),
        fits(seq![1, tensor_dims(x)[1], to]),
        projects(w, x, y),
    ensures
        plain(y),
        tensor_dims(y) == seq![1, tensor_dims(x)[1], to],
{
    assert(tensor_dims(x).update(2, to) =~= seq![1, tensor_dims(x)[1], to]);
}

/// The weights of a layer that keeps a state look at each position alone.
pub open spec fn state_weights_look_at_positions<Q: QuantMethod>(w: SsmWeights<Q>) -> bool {
    &&& looks_at_positions(w.attn_qkv)
    &&& looks_at_positions(w.ssm_alpha)
    &&& looks_at_positions(w.ssm_beta)
    &&& looks_at_positions(w.attn_gate)
    &&& looks_at_positions(w.ssm_out)
}

proof fn prepared_agree<Q: QuantMethod>(
    w: SsmWeights<Q>,
    x1: Tensor,
    x2: Tensor,
    n: int,
    conv0: Option<Tensor>,
    conv1: Option<Tensor>,
    conv2: Option<Tensor>,
    mem0: Option<Tensor>,
    d1: DType,
    d2: DType,
    q1: TensorView,
    q2: TensorView,
    k1: TensorView,
    k2: TensorView,
    v1: TensorView,
    v2: TensorView,
)
    requires
        arithmetic_is_determined(),
        looks_at_positions(w.attn_qkv),
        w.sizes_ok(),
        plain(x1),
        plain(x2),
        agree(view_of(x1), view_of(x2), 2, 0, n),
        w.is_obliged(tensor_dims(x1), conv0, mem0),
        dtype_is_f32(d1),
        dtype_is_f32(d2),
        w.is_prepared(x1, conv0, conv1, d1, q1, k1, v1),
        w.is_prepared(x2, conv0, conv2, d2, q2, k2, v2),
    ensures
        agree(q1, q2, 2, 0, n),
        agree(k1, k2, 2, 0, n),
        agree(v1, v2, 2, 0, n),
        q1.dims == w.head_dims(1, tensor_dims(x1)[1]),
        k1.dims == q1.dims,
        v1.dims == q1.dims,
        n == tensor_dims(x1)[1] ==> history(conv1) == history(conv2),
{
    let len = tensor_dims(x1)[1];
    let channels = count(tensor_dims(w.ssm_conv1d).skip(1)) as usize;
    let qkv1 = choose|qkv: Tensor|
        {
            &&& #[trigger] projects(w.attn_qkv, x1, qkv)
            &&& w.is_made_of(1, len, view_of(qkv), conv0, conv1, d1, q1, k1, v1)
        };
    let qkv2 = choose|qkv: Tensor|
        {
            &&& #[trigger] projects(w.attn_qkv, x2, qkv)
            &&& w.is_made_of(1, len, view_of(qkv), conv0, conv2, d2, q2, k2, v2)
        };
    let (a1, b1) = choose|a: TensorView, b: TensorView|
        {
            &&& w.is_cut(1, len, view_of(qkv1), conv0, conv1, a, b, v1)
            &&& #[trigger] w.is_scaled(d1, a, b, q1, k1)
        };
    let (a2, b2) = choose|a: TensorView, b: TensorView|
        {
            &&& w.is_cut(1, len, view_of(qkv2), conv0, conv2, a, b, v2)
            &&& #[trigger] w.is_scaled(d2, a, b, q2, k2)
        };
    projected_dims(w.attn_qkv, tensor_dims(x1)[2], channels, x1, qkv1);
    assert(agree(view_of(qkv1), view_of(qkv2), 2, 0, n));
    w.cut_agrees(
        len,
        n,
        view_of(qkv1),
        view_of(qkv2),
        conv0,
        conv1,
        conv2,
        a1,
        a2,
        b1,
        b2,
        v1,
        v2,
    );
    if w.n_kv_heads != w.n_heads {
        let repeat = w.n_heads / w.n_kv_heads;
        let size = w.state_size;
        let g = w.n_kv_heads;
        let h = w.n_heads;
        count_small(1, len, g, repeat, size);
        count_small(1, len, h, size, 0);
        assert(h * size == g * repeat * size) by (nonlinear_arith)
            requires
                len > 0,
                1 * len * g * repeat * size == 1 * len * h * size,
        ;
    }
    w.scaled_agree(n, d1, d2, a1, a2, b1, b2, q1, q2, k1, k2);
}

proof fn steered_agree<Q: QuantMethod>(
    w: SsmWeights<Q>,
    x1: Tensor,
    x2: Tensor,
    n: int,
    conv0: Option<Tensor>,
    mem0: Option<Tensor>,
    decay1: TensorView,
    decay2: TensorView,
    beta1: TensorView,
    beta2: TensorView,
)
    requires
        arithmetic_is_determined(),
        looks_at_positions(w.ssm_alpha),
        looks_at_positions(w.ssm_beta),
        plain(x1),
        agree(view_of(x1), view_of(x2), 2, 0, n),
        w.is_obliged(tensor_dims(x1), conv0, mem0),
        w.is_steered(x1, decay1, beta1),
        w.is_steered(x2, decay2, beta2),
    ensures
        agree(decay1, decay2, 2, 0, n),
        agree(beta1, beta2, 2, 0, n),
        decay1.dims == seq![1, tensor_dims(x1)[1], w.n_heads],
        beta1.dims == decay1.dims,
{
    let (alpha1, raw1) = choose|alpha: Tensor, raw: Tensor|
        {
            &&& #[trigger] projects(w.ssm_alpha, x1, alpha)
            &&& consistent(view_of(alpha))
            &&& w.is_decay(view_of(alpha), decay1)
            &&& #[trigger] projects(w.ssm_beta, x1, raw)
            &&& consistent(view_of(raw))
            &&& is_sigmoid(view_of(raw), beta1)
        };
    let (alpha2, raw2) = choose|alpha: Tensor, raw: Tensor|
        {
            &&& #[trigger] projects(w.ssm_alpha, x2, alpha)
            &&& consistent(view_of(alpha))
            &&& w.is_decay(view_of(alpha), decay2)
            &&& #[trigger] projects(w.ssm_beta, x2, raw)
            &&& consistent(view_of(raw))
            &&& is_sigmoid(view_of(raw), beta2)
        };
    projected_dims(w.ssm_alpha, tensor_dims(x1)[2], w.n_heads, x1, alpha1);
    projected_dims(w.ssm_beta, tensor_dims(x1)[2], w.n_heads, x1, raw1);
    assert(agree(view_of(alpha1), view_of(alpha2), 2, 0, n));
    assert(agree(view_of(raw1), view_of(raw2), 2, 0, n));
    w.decay_agrees(n, view_of(alpha1), view_of(alpha2), decay1, decay2);
    elements_agree(view_of(raw1), view_of(raw2), 2, 0, n, beta1, beta2);
}

proof fn flat_agree<Q: QuantMethod>(
    w: SsmWeights<Q>,
    x1: Tensor,
    x2: Tensor,
    n: int,
    conv0: Option<Tensor>,
    mem0: Option<Tensor>,
    d1: DType,
    d2: DType,
    out1: TensorView,
    out2: TensorView,
    flat1: TensorView,
    flat2: TensorView,
)
    requires
        arithmetic_is_determined(),
        looks_at_positions(w.attn_gate),
        plain(x1),
        agree(view_of(x1), view_of(x2), 2, 0, n),
        w.is_obliged(tensor_dims(x1), conv0, mem0),
        dtype_is_f32(d1),
        dtype_is_f32(d2),
        agree(out1, out2, 2, 0, n),
        out1.dims == w.head_dims(1, tensor_dims(x1)[1]),
        w.is_gated(x1, out1, d1, flat1),
        w.is_gated(x2, out2, d2, flat2),
    ensures
        agree(flat1, flat2, 2, 0, n),
{
    let len = tensor_dims(x1)[1];
    let inner = w.inner_size;
    let heads = w.head_dims(1, len);
    let flat = seq![1, len, inner];
    let (gate1, r1) = choose|gate: Tensor, gated: TensorView|
        {
            &&& #[trigger] projects(w.attn_gate, x1, gate)
            &&& #[trigger] w.is_gated_by(1, len, view_of(gate), out1, d1, gated)
            &&& flat1 == reshaped(gated, seq![1, len, w.inner_size])
        };
    let (gate2, r2) = choose|gate: Tensor, gated: TensorView|
        {
            &&& #[trigger] projects(w.attn_gate, x2, gate)
            &&& #[trigger] w.is_gated_by(1, len, view_of(gate), out2, d2, gated)
            &&& flat2 == reshaped(gated, seq![1, len, w.inner_size])
        };
    projected_dims(w.attn_gate, tensor_dims(x1)[2], inner, x1, gate1);
    assert(agree(view_of(gate1), view_of(gate2), 2, 0, n));
    count_small(1, len, w.n_heads, w.state_size, 0);
    count_small(1, len, inner, 0, 0);
    count_small(w.n_heads, w.state_size, 0, 0, 0);
    count_small(inner, 0, 0, 0, 0);
    assert(heads.skip(2) =~= seq![w.n_heads, w.state_size]);
    assert(flat.skip(2) =~= seq![inner]);
    assert(heads.take(2) =~= flat.take(2));
    let (h, s) = (w.n_heads, w.state_size);
    assert(1 * len * inner == 1 * len * h * s) by (nonlinear_arith)
        requires
            inner == h * s,
    ;
    reshape_agree(view_of(gate1), view_of(gate2), 2, 0, n, heads, 2);
    gated_agree(
        out1,
        out2,
        reshaped(view_of(gate1), heads),
        reshaped(view_of(gate2), heads),
        view_of(w.ssm_norm),
        2,
        0,
        n,
        d1,
        d2,
        r1,
        r2,
    );
    reshape_agree(r1, r2, 2, 0, n, flat, 2);
}

/// A layer that keeps a state looks back only: what it puts out at the first positions is the same
/// whatever the others hold. Where all positions are the same, all that it puts out and all that it
/// keeps is the same.
#[verifier::rlimit(40)]
pub proof fn state_layer_looks_back<Q: QuantMethod>(
    w: SsmWeights<Q>,
    x1: Tensor,
    x2: Tensor,
    n: int,
    conv0: Option<Tensor>,
    conv1: Option<Tensor>,
    conv2: Option<Tensor>,
    mem0: Option<Tensor>,
    mem1: Option<Tensor>,
    mem2: Option<Tensor>,
    r1: Tensor,
    r2: Tensor,
)
    requires
        arithmetic_is_determined(),
        state_weights_look_at_positions(w),
        w.sizes_ok(),
        plain(x1),
        plain(x2),
        agree(view_of(x1), view_of(x2), 2, 0, n),
        w.is_obliged(tensor_dims(x1), conv0, mem0),
        w.is_forward(x1, conv0, conv1, mem0, mem1, r1),
        w.is_forward(x2, conv0, conv2, mem0, mem2, r2),
    ensures
        agree(view_of(r1), view_of(r2), 2, 0, n),
        n == tensor_dims(x1)[1] ==> {
            &&& history(conv1) == history(conv2)
            &&& view_of(mem1->0) == view_of(mem2->0)
        },
{
    let (d1, e1, q1, k1, v1, decay1, beta1, out1, flat1) = choose|
        early: DType,
        late: DType,
        q: TensorView,
        k: TensorView,
        v: TensorView,
        decay: TensorView,
        beta: TensorView,
        out: TensorView,
        flat: Tensor,
    |
        {
            &&& #[trigger] w.is_prepared(x1, conv0, conv1, early, q, k, v)
            &&& #[trigger] w.is_steered(x1, decay, beta)
            &&& is_recurred(
                DeltaInputs { q, k, v, decay, beta },
                w.n_heads,
                w.state_size,
                mem0,
                mem1,
                out,
            )
            &&& #[trigger] w.is_gated(x1, out, late, view_of(flat))
            &&& #[trigger] projects(w.ssm_out, flat, r1)
            &&& plain(x1) && w.is_obliged(tensor_dims(x1), conv0, mem0) ==> {
                &&& dtype_is_f32(early)
                &&& dtype_is_f32(late)
                &&& plain(flat)
            }
        };
    let (d2, e2, q2, k2, v2, decay2, beta2, out2, flat2) = choose|
        early: DType,
        late: DType,
        q: TensorView,
        k: TensorView,
        v: TensorView,
        decay: TensorView,
        beta: TensorView,
        out: TensorView,
        flat: Tensor,
    |
        {
            &&& #[trigger] w.is_prepared(x2, conv0, conv2, early, q, k, v)
            &&& #[trigger] w.is_steered(x2, decay, beta)
            &&& is_recurred(
                DeltaInputs { q, k, v, decay, beta },
                w.n_heads,
                w.state_size,
                mem0,
                mem2,
                out,
            )
            &&& #[trigger] w.is_gated(x2, out, late, view_of(flat))
            &&& #[trigger] projects(w.ssm_out, flat, r2)
            &&& plain(x2) && w.is_obliged(tensor_dims(x2), conv0, mem0) ==> {
                &&& dtype_is_f32(early)
                &&& dtype_is_f32(late)
                &&& plain(flat)
            }
        };
    prepared_agree(w, x1, x2, n, conv0, conv1, conv2, mem0, d1, d2, q1, q2, k1, k2, v1, v2);
    steered_agree(w, x1, x2, n, conv0, mem0, decay1, decay2, beta1, beta2);
    let a = DeltaInputs { q: q1, k: k1, v: v1, decay: decay1, beta: beta1 };
    let b = DeltaInputs { q: q2, k: k2, v: v2, decay: decay2, beta: beta2 };
    rows_within(view_of(x1), view_of(x2), n);
    recurred_agree(a, b, n, w.n_heads, w.state_size, mem0, mem1, mem2, out1, out2);
    let f1 = view_of(flat1);
    let f2 = view_of(flat2);
    flat_agree(w, x1, x2, n, conv0, mem0, e1, e2, out1, out2, f1, f2);
    assert(agree(f1, f2, 2, 0, n));
}

/// Tensors of one item agree at no more positions than there are.
proof fn rows_within(a: TensorView, b: TensorView, n: int)
    requires
        agree(a, b, 2, 0, n),
        a.dims.len() >= 2,
        a.dims[0] == 1,
    ensures
        n <= a.dims[1],
{
    assert(a.dims.take(2) =~= seq![1, a.dims[1]]);
    count_small(1, a.dims[1], 0, 0, 0);
    let len = a.dims[1] as int;
    assert(1 * len == len);
}

/// What comes out of an obliging layer has the shape of what went in.
pub proof fn shape_kept<Q: QuantMethod>(
    w: SsmWeights<Q>,
    x: Tensor,
    conv0: Option<Tensor>,
    conv1: Option<Tensor>,
    mem0: Option<Tensor>,
    mem1: Option<Tensor>,
    r: Tensor,
)
    requires
        plain(x),
        w.is_obliged(tensor_dims(x), conv0, mem0),
        w.is_forward(x, conv0, conv1, mem0, mem1, r),
    ensures
        tensor_dims(r) == tensor_dims(x),
{
    let (late, out, flat) = choose|late: DType, out: TensorView, flat: Tensor|
        {
            &&& #[trigger] w.is_gated(x, out, late, view_of(flat))
            &&& #[trigger] projects(w.ssm_out, flat, r)
            &&& plain(flat)
        };
    assert(tensor_dims(flat) == seq![1, tensor_dims(x)[1], w.inner_size]);
    assert(tensor_dims(x) =~= seq![1, tensor_dims(x)[1], tensor_dims(x)[2]]);
    projected_dims(w.ssm_out, w.inner_size, tensor_dims(x)[2], flat, r);
}

/// What a layer that keeps a state puts out, and what it keeps, is determined by what goes in and
/// what it has kept before.
pub proof fn state_layer_is_determined<Q: QuantMethod>(
    w: SsmWeights<Q>,
    x: Tensor,
    conv0: Option<Tensor>,
    conv1: Option<Tensor>,
    conv2: Option<Tensor>,
    mem0: Option<Tensor>,
    mem1: Option<Tensor>,
    mem2: Option<Tensor>,
    r1: Tensor,
    r2: Tensor,
)
    requires
        arithmetic_is_determined(),
        state_weights_look_at_positions(w),
        w.sizes_ok(),
        plain(x),
        consistent(view_of(x)),
        w.is_obliged(tensor_dims(x), conv0, mem0),
        w.is_forward(x, conv0, conv1, mem0, mem1, r1),
        w.is_forward(x, conv0, conv2, mem0, mem2, r2),
    ensures
        view_of(r1) == view_of(r2),
        history(conv1) == history(conv2),
        view_of(mem1->0) == view_of(mem2->0),
{
    let v = view_of(x);
    let n = v.dims[1] as int;
    assert(v.dims.take(2) =~= seq![1, v.dims[1]]);
    count_small(1, v.dims[1], 0, 0, 0);
    assert(1 * n == n);
    assert(agree(v, v, 2, 0, n));
    state_layer_looks_back(w, x, x, n, conv0, conv1, conv2, mem0, mem1, mem2, r1, r2);
    shape_kept(w, x, conv0, conv1, mem0, mem1, r1);
    agree_at_all(view_of(r1), view_of(r2), 2);
}

/// A prompt that comes in two parts gives what it gives in one: where a layer that keeps a state
/// has been run on all positions, and, from the same start, on the first of them and then on the
/// others, the same has come out and the same is kept.
pub proof fn layer_in_parts_is_layer_in_one<Q: QuantMethod>(
    w: SsmWeights<Q>,
    x: Tensor,
    x1: Tensor,
    x2: Tensor,
    conv0: Option<Tensor>,
    conv1: Option<Tensor>,
    conv2: Option<Tensor>,
    conv: Option<Tensor>,
    mem0: Option<Tensor>,
    mem1: Option<Tensor>,
    mem2: Option<Tensor>,
    mem: Option<Tensor>,
    r1: Tensor,
    r2: Tensor,
    r: Tensor,
)
    requires
        arithmetic_is_determined(),
        state_weights_look_at_positions(w),
        comes_in_parts(w, x, x1, x2, conv0, conv1, mem0, mem1),
        tensors_join(),
        by_position(w.attn_qkv),
        by_position(w.ssm_alpha),
        by_position(w.ssm_beta),
        by_position(w.attn_gate),
        by_position(w.ssm_out),
        w.is_forward(x1, conv0, conv1, mem0, mem1, r1),
        w.is_forward(x2, conv1, conv2, mem1, mem2, r2),
        w.is_forward(x, conv0, conv, mem0, mem, r),
    ensures
        view_of(r) == behind(view_of(r1), view_of(r2)),
        history(conv) == history(conv2),
        view_of(mem->0) == view_of(mem2->0),
{
    layer_splits(w, x, x1, x2, conv0, conv1, conv2, mem0, mem1, mem2, r1, r2);
    let s = choose|s: Tensor| #[trigger]
        w.is_forward(x, conv0, conv2, mem0, mem2, s) && holds_both(s, r1, r2);
    assert(consistent(view_of(x))) by {
        behind_facts(view_of(x1), view_of(x2));
    }
    state_layer_is_determined(w, x, conv0, conv, conv2, mem0, mem, mem2, r, s);
}

} // verus!
