//! Prompts that come in parts: running a layer that keeps a state on some positions and then on
//! more is running it on all of them.
use candle_core::{DType, Tensor};
use vstd::prelude::*;

use crate::backend::{projects, weight_obliges, QuantMethod};
use crate::conv::{
    convolution_splits, exact_history, history, is_convolution, is_convolved, is_tap_sum,
    kept_after, kept_rows, last_tap, tap_sum_moves, timeline, usable, used_history,
};
use crate::norm::{is_l2_normed, is_softplus, NORM_EPS};
use crate::ops::{is_exp, is_product, is_sigmoid, is_silu, is_stretched_sum};
use crate::positions::{
    behind, behind_facts, behind_parts, channels_behind, elements_behind, follows, gated_behind,
    heads_behind, is_tail, l2_behind, reshape_behind, softplus_behind, tail_behind,
};
use crate::recurrence::{
    inputs_part, is_recurred, is_run, memory_of, output_positions, positions, recurrence_splits,
    DeltaInputs, Sizes,
};
use crate::rows::row;
use crate::shape::{consistent, count, count_small, fits, narrowed, reshaped, TensorView};
use crate::ssm::{positions_even, repeated_heads, SsmWeights};
use crate::tensor::{dtype_is_f32, plain, tensor_dims, view_of};

verus! {

/// `x` holds the positions of `x1` and then those of `x2`.
pub open spec fn holds_both(x: Tensor, x1: Tensor, x2: Tensor) -> bool {
    view_of(x) == behind(view_of(x1), view_of(x2))
}

/// The weight takes positions one by one: of what holds both of two tensors it can make what
/// holds both of what it makes of them.
pub open spec fn by_position<Q: QuantMethod>(w: Q) -> bool {
    forall|x: Tensor, x1: Tensor, x2: Tensor, y1: Tensor, y2: Tensor|
        #![trigger holds_both(x, x1, x2), projects(w, x1, y1), projects(w, x2, y2)]
        holds_both(x, x1, x2) && projects(w, x1, y1) && projects(w, x2, y2) ==> exists|y: Tensor|
            #[trigger] projects(w, x, y) && holds_both(y, y1, y2)
}

/// The positions of any two tensors that fit in memory together can be held by one.
pub open spec fn tensors_join() -> bool {
    forall|a: Tensor, b: Tensor|
        plain(a) && plain(b) && #[trigger] follows(view_of(a), view_of(b)) && fits(
            behind(view_of(a), view_of(b)).dims,
        ) ==> exists|c: Tensor| plain(c) && #[trigger] holds_both(c, a, b)
}

/// What a kernel reads of kept rows is as much as it needs.
pub proof fn past_length(state: Option<Tensor>, kernel: usize, channels: usize, len: usize)
    requires
        kernel > 0,
        usable(state, kernel, channels, len),
    ensures
        used_history(state, kernel, channels) matches Some(h) ==> h.len() == kept_rows(kernel)
            * channels,
{
    if let Some(t) = state {
        if kernel > 1 {
            let kept = kept_rows(kernel);
            let part = narrowed(view_of(t), 0, 0, kept);
            count_small(kept, channels, 0, 0, 0);
            if part.dims == seq![kept, channels] {
                let d = tensor_dims(t);
                assert(d.take(0) =~= Seq::empty());
                assert(part.dims.skip(1) =~= seq![channels]);
                assert(d.skip(1) =~= part.dims.skip(1));
                count_small(channels, 0, 0, 0, 0);
                assert(1 * (kept as nat) * (channels as nat) == kept * channels)
                    by (nonlinear_arith);
            }
        }
    }
}

/// A kernel of one row reads nothing of what was kept.
proof fn one_tap(
    kept: Seq<u32>,
    x: Seq<u32>,
    weight: Seq<u32>,
    channels: usize,
    len: int,
    out: Seq<u32>,
)
    requires
        kept.len() == channels,
        x.len() == len * channels,
        len > 0,
        is_convolution(None, x, weight, 1, channels, len, out),
    ensures
        is_convolution(Some(kept), x, weight, 1, channels, len, out),
        kept_after(None, x, 1, channels, len) == kept_after(Some(kept), x, 1, channels, len),
{
    let ch = channels as int;
    let line1 = timeline(None, x, 1, channels);
    let line2 = timeline(Some(kept), x, 1, channels);
    assert(1 * channels == ch);
    assert forall|t: int| 0 <= t < len implies #[trigger] is_tap_sum(
        line2,
        weight,
        channels,
        t + kept_rows(1),
        last_tap(Some(kept), 1, t),
        row(out, t, ch),
    ) by {
        let r = row(out, t, ch);
        assert(is_tap_sum(line1, weight, channels, t + kept_rows(1), last_tap(None, 1, t), r));
        let i = t + 1;
        assert(ch <= i * ch && (i + 1) * ch == i * ch + ch && (i + 1) * ch <= ch + len * ch)
            by (nonlinear_arith)
            requires
                i == t + 1,
                0 <= t < len,
                0 <= ch,
        ;
        assert(row(line1, i, ch) =~= row(line2, i, ch));
        assert forall|k: int| 0 <= k <= 0 implies row(line1, #[trigger] (i - k), ch) == row(
            line2,
            i - k,
            ch,
        ) by {}
        tap_sum_moves(line1, line2, weight, channels, i, i, 0, r);
    }
    assert(ch <= len * ch && (len + 1) * ch == len * ch + ch) by (nonlinear_arith)
        requires
            0 < len,
            0 <= ch,
    ;
    assert(line1.subrange(len * ch, (len + 1) * ch) =~= line2.subrange(len * ch, (len + 1) * ch));
}

/// Convolving positions in two calls is convolving them in one.
proof fn convolved_behind(
    x1: TensorView,
    x2: TensorView,
    weight: TensorView,
    conv0: Option<Tensor>,
    conv1: Option<Tensor>,
    conv2: Option<Tensor>,
    out1: TensorView,
    out2: TensorView,
)
    requires
        follows(x1, x2),
        x1.dims.len() == 3,
        x1.dims[1] > 0,
        x2.dims[1] > 0,
        fits(behind(x1, x2).dims),
        weight.dims[0] > 0,
        usable(conv0, weight.dims[0], x1.dims[2], behind(x1, x2).dims[1]),
        is_convolved(x1, weight, conv0, conv1, out1),
        is_convolved(x2, weight, conv1, conv2, out2),
    ensures
        follows(out1, out2),
        out1.dims == x1.dims,
        out2.dims == x2.dims,
        is_convolved(behind(x1, x2), weight, conv0, conv2, behind(out1, out2)),
{
    let x = behind(x1, x2);
    let out = behind(out1, out2);
    let kernel = weight.dims[0];
    let channels = x1.dims[2];
    let ch = channels as int;
    let kept = kept_rows(kernel) as int;
    let t1 = x1.dims[1] as int;
    let t2 = x2.dims[1] as int;
    let past = used_history(conv0, kernel, channels);
    behind_facts(x1, x2);
    assert(x1.dims.skip(2) =~= seq![channels]);
    count_small(channels, 0, 0, 0, 0);
    assert(out1.dims =~= x1.dims);
    assert(out2.dims =~= x2.dims);
    behind_facts(out1, out2);
    past_length(conv0, kernel, channels, x1.dims[1]);
    let middle = kept_after(past, x1.words, kernel, channels, t1);
    let line1 = timeline(past, x1.words, kernel, channels);
    assert(0 <= kept * ch && 0 <= t1 * ch && (t1 + kept) * ch == t1 * ch + kept * ch)
        by (nonlinear_arith)
        requires
            0 <= kept,
            0 <= ch,
            0 <= t1,
    ;
    assert(line1.len() == kept * ch + t1 * ch);
    assert(middle->0.len() == kept * ch);
    assert(history(conv1) == middle);
    let (w, o) = (weight.words, out2.words);
    assert(is_convolution(middle, x2.words, w, kernel, channels, t2, o) && history(conv2)
        == kept_after(middle, x2.words, kernel, channels, t2)) by {
        if kernel > 1 {
            count_small(kept_rows(kernel), channels, 0, 0, 0);
            exact_history(conv1, kernel, channels);
        } else {
            assert(kept * ch == ch) by (nonlinear_arith)
                requires
                    kept == 1,
            ;
            one_tap(middle->0, x2.words, weight.words, channels, t2, out2.words);
        }
    }
    let cut = t1 * ch;
    assert(x.words.take(cut) =~= x1.words);
    assert(x.words.skip(cut) =~= x2.words);
    assert(out.words.take(cut) =~= out1.words);
    assert(out.words.skip(cut) =~= out2.words);
    convolution_splits(past, x.words, weight.words, kernel, channels, t1 + t2, t1, out.words);
    assert(out.dims =~= seq![1, x.dims[1], channels]);
}

impl<Q: QuantMethod> SsmWeights<Q> {
    /// Cutting up positions in two calls is cutting them up in one.
    proof fn cut_behind(
        &self,
        n1: usize,
        n2: usize,
        qkv1: TensorView,
        qkv2: TensorView,
        conv0: Option<Tensor>,
        conv1: Option<Tensor>,
        conv2: Option<Tensor>,
        q1: TensorView,
        q2: TensorView,
        k1: TensorView,
        k2: TensorView,
        v1: TensorView,
        v2: TensorView,
    )
        requires
            self.sizes_ok(),
            n1 > 0,
            n2 > 0,
            follows(qkv1, qkv2),
            qkv1.dims.len() == 3,
            qkv1.dims[1] == n1,
            qkv2.dims[1] == n2,
            self.cut_fits(behind(qkv1, qkv2).dims, 1, (n1 + n2) as usize, conv0),
            self.is_cut(1, n1, qkv1, conv0, conv1, q1, k1, v1),
            self.is_cut(1, n2, qkv2, conv1, conv2, q2, k2, v2),
        ensures
            self.is_cut(
                1,
                (n1 + n2) as usize,
                behind(qkv1, qkv2),
                conv0,
                conv2,
                behind(q1, q2),
                behind(k1, k2),
                behind(v1, v2),
            ),
            follows(q1, q2),
            follows(k1, k2),
            follows(v1, v2),
            q1.dims == seq![1, n1, self.n_kv_heads, self.state_size],
            k1.dims == q1.dims,
            v1.dims == self.head_dims(1, n1),
            q2.dims[1] == n2,
            k2.dims[1] == n2,
            v2.dims[1] == n2,
    {
        let n = (n1 + n2) as usize;
        let ks = (self.n_kv_heads * self.state_size) as usize;
        let vs = (self.n_heads * self.state_size) as usize;
        let w = view_of(self.ssm_conv1d);
        let (mixed1, act1) = choose|mixed: TensorView, act: TensorView|
            {
                &&& is_convolved(qkv1, w, conv0, conv1, mixed)
                &&& #[trigger] is_silu(mixed, act)
                &&& 2 * ks + vs <= act.dims[2]
                &&& q1 == reshaped(
                    narrowed(act, 2, 0, ks),
                    seq![1, n1, self.n_kv_heads, self.state_size],
                )
                &&& k1 == reshaped(
                    narrowed(act, 2, ks as int, ks),
                    seq![1, n1, self.n_kv_heads, self.state_size],
                )
                &&& v1 == reshaped(
                    narrowed(act, 2, 2 * ks, vs),
                    seq![1, n1, self.n_heads, self.state_size],
                )
            };
        let (mixed2, act2) = choose|mixed: TensorView, act: TensorView|
            {
                &&& is_convolved(qkv2, w, conv1, conv2, mixed)
                &&& #[trigger] is_silu(mixed, act)
                &&& 2 * ks + vs <= act.dims[2]
                &&& q2 == reshaped(
                    narrowed(act, 2, 0, ks),
                    seq![1, n2, self.n_kv_heads, self.state_size],
                )
                &&& k2 == reshaped(
                    narrowed(act, 2, ks as int, ks),
                    seq![1, n2, self.n_kv_heads, self.state_size],
                )
                &&& v2 == reshaped(
                    narrowed(act, 2, 2 * ks, vs),
                    seq![1, n2, self.n_heads, self.state_size],
                )
            };
        convolved_behind(qkv1, qkv2, w, conv0, conv1, conv2, mixed1, mixed2);
        elements_behind(mixed1, mixed2, act1, act2);
        let act = behind(act1, act2);
        assert(self.n_kv_heads * self.state_size >= 0 && self.n_heads * self.state_size >= 0)
            by (nonlinear_arith);
        self.part_behind(act1, act2, 0, ks, n1, n2, self.n_kv_heads);
        self.part_behind(act1, act2, ks as int, ks, n1, n2, self.n_kv_heads);
        self.part_behind(act1, act2, 2 * ks, vs, n1, n2, self.n_heads);
        assert(is_silu(behind(mixed1, mixed2), act));
    }

    /// A part of the channels, cut into heads.
    proof fn part_behind(
        &self,
        a: TensorView,
        b: TensorView,
        start: int,
        len: usize,
        n1: usize,
        n2: usize,
        heads: usize,
    )
        requires
            follows(a, b),
            a.dims.len() == 3,
            a.dims[1] == n1,
            b.dims[1] == n2,
            0 <= start,
            start + len <= a.dims[2],
            len == heads * self.state_size,
        ensures
            ({
                let da = seq![1, n1, heads, self.state_size];
                let db = seq![1, n2, heads, self.state_size];
                let dc = seq![1, (n1 + n2) as usize, heads, self.state_size];
                let pa = reshaped(narrowed(a, 2, start, len), da);
                let pb = reshaped(narrowed(b, 2, start, len), db);
                &&& follows(pa, pb)
                &&& reshaped(narrowed(behind(a, b), 2, start, len), dc) == behind(pa, pb)
            }),
    {
        let size = self.state_size;
        let da = seq![1, n1, heads, size];
        let db = seq![1, n2, heads, size];
        let dc = seq![1, (n1 + n2) as usize, heads, size];
        let na = narrowed(a, 2, start, len);
        let nb = narrowed(b, 2, start, len);
        channels_behind(a, b, start, len);
        assert(na.dims =~= seq![1, n1, len]);
        assert(nb.dims =~= seq![1, n2, len]);
        count_small(1, n1, len, 0, 0);
        count_small(1, n2, len, 0, 0);
        count_small(1, n1, heads, size, 0);
        count_small(1, n2, heads, size, 0);
        assert(1 * n1 * len == 1 * n1 * heads * size && 1 * n2 * len == 1 * n2 * heads * size)
            by (nonlinear_arith)
            requires
                len == heads * size,
        ;
        assert(db =~= da.update(1, nb.dims[1]));
        reshape_behind(na, nb, da, db);
        assert(dc =~= da.update(1, (na.dims[1] + nb.dims[1]) as usize));
    }

    /// Scaling vectors and giving them to heads in two calls is doing so in one.
    proof fn scaled_behind(
        &self,
        d1: DType,
        d2: DType,
        a1: TensorView,
        a2: TensorView,
        b1: TensorView,
        b2: TensorView,
        q1: TensorView,
        q2: TensorView,
        k1: TensorView,
        k2: TensorView,
    )
        requires
            self.sizes_ok(),
            dtype_is_f32(d1),
            dtype_is_f32(d2),
            follows(a1, a2),
            follows(b1, b2),
            a1.dims == seq![1, a1.dims[1], self.n_kv_heads, self.state_size],
            b1.dims == a1.dims,
            self.n_kv_heads != self.n_heads ==> self.n_heads * self.state_size == self.n_kv_heads * (
            self.n_heads / self.n_kv_heads) * self.state_size,
            self.is_scaled(d1, a1, b1, q1, k1),
            self.is_scaled(d2, a2, b2, q2, k2),
        ensures
            self.is_scaled(d1, behind(a1, a2), behind(b1, b2), behind(q1, q2), behind(k1, k2)),
            follows(q1, q2),
            follows(k1, k2),
            q1.dims == self.head_dims(1, a1.dims[1]),
            k1.dims == q1.dims,
            q2.dims[1] == a2.dims[1],
            k2.dims[1] == b2.dims[1],
    {
        let (x1, y1) = choose|x: TensorView, y: TensorView|
            {
                &&& #[trigger] is_l2_normed(a1, NORM_EPS, d1, x)
                &&& #[trigger] is_l2_normed(b1, NORM_EPS, d1, y)
                &&& q1 == self.spread(x)
                &&& k1 == self.spread(y)
            };
        let (x2, y2) = choose|x: TensorView, y: TensorView|
            {
                &&& #[trigger] is_l2_normed(a2, NORM_EPS, d2, x)
                &&& #[trigger] is_l2_normed(b2, NORM_EPS, d2, y)
                &&& q2 == self.spread(x)
                &&& k2 == self.spread(y)
            };
        l2_behind(a1, a2, NORM_EPS, d1, d2, x1, x2);
        l2_behind(b1, b2, NORM_EPS, d1, d2, y1, y2);
        if self.n_kv_heads != self.n_heads {
            let repeat = self.n_heads / self.n_kv_heads;
            assert(self.spread(x1) == repeated_heads(x1, self.n_heads, repeat));
            heads_behind(x1, x2, self.n_heads, repeat);
            heads_behind(y1, y2, self.n_heads, repeat);
        }
        assert(q1.dims =~= self.head_dims(1, a1.dims[1]));
        assert(k1.dims =~= self.head_dims(1, a1.dims[1]));
        assert(is_l2_normed(behind(a1, a2), NORM_EPS, d1, behind(x1, x2)));
        assert(is_l2_normed(behind(b1, b2), NORM_EPS, d1, behind(y1, y2)));
    }

    /// Making decays in two calls is making them in one.
    proof fn decay_behind(&self, a1: TensorView, a2: TensorView, r1: TensorView, r2: TensorView)
        requires
            follows(a1, a2),
            a1.dims.len() == 3,
            a1.dims[2] == self.n_heads,
            self.is_decay(a1, r1),
            self.is_decay(a2, r2),
        ensures
            self.is_decay(behind(a1, a2), behind(r1, r2)),
            follows(r1, r2),
            r1.dims == a1.dims,
            r2.dims == a2.dims,
    {
        let per_head = seq![1, 1, self.n_heads];
        let dt = reshaped(view_of(self.ssm_dt), per_head);
        let a = reshaped(view_of(self.ssm_a), per_head);
        let (shifted1, soft1, rate1) = choose|
            shifted: TensorView,
            soft: TensorView,
            rate: TensorView,
        |
            {
                &&& is_stretched_sum(a1, dt, shifted)
                &&& #[trigger] is_softplus(shifted, soft)
                &&& is_product(soft, a, rate)
                &&& #[trigger] is_exp(rate, r1)
            };
        let (shifted2, soft2, rate2) = choose|
            shifted: TensorView,
            soft: TensorView,
            rate: TensorView,
        |
            {
                &&& is_stretched_sum(a2, dt, shifted)
                &&& #[trigger] is_softplus(shifted, soft)
                &&& is_product(soft, a, rate)
                &&& #[trigger] is_exp(rate, r2)
            };
        assert(is_tail(per_head, a1.dims));
        tail_behind(a1, a2, dt, shifted1, shifted2);
        softplus_behind(shifted1, shifted2, soft1, soft2);
        tail_behind(soft1, soft2, a, rate1, rate2);
        elements_behind(rate1, rate2, r1, r2);
        assert(is_softplus(behind(shifted1, shifted2), behind(soft1, soft2)));
        assert(is_exp(behind(rate1, rate2), behind(r1, r2)));
    }

    /// Running the delta rule over positions in two calls is running it in one.
    proof fn recurred_behind(
        &self,
        n1: usize,
        n2: usize,
        x1: DeltaInputs,
        x2: DeltaInputs,
        mem0: Option<Tensor>,
        mem1: Option<Tensor>,
        mem2: Option<Tensor>,
        out1: TensorView,
        out2: TensorView,
    )
        requires
            n1 > 0,
            n2 > 0,
            n1 + n2 <= usize::MAX,
            follows(x1.q, x2.q),
            follows(x1.k, x2.k),
            follows(x1.v, x2.v),
            follows(x1.decay, x2.decay),
            follows(x1.beta, x2.beta),
            x1.q.dims == self.head_dims(1, n1),
            x1.k.dims == x1.q.dims,
            x1.v.dims == x1.q.dims,
            x1.decay.dims == seq![1, n1, self.n_heads],
            x1.beta.dims == x1.decay.dims,
            x2.q.dims[1] == n2,
            x2.k.dims[1] == n2,
            x2.v.dims[1] == n2,
            x2.decay.dims[1] == n2,
            x2.beta.dims[1] == n2,
            fits(self.head_dims(1, (n1 + n2) as usize)),
            fits(seq![1, (n1 + n2) as usize, self.n_heads]),
            is_recurred(x1, self.n_heads, self.state_size, mem0, mem1, out1),
            is_recurred(x2, self.n_heads, self.state_size, mem1, mem2, out2),
        ensures
            follows(out1, out2),
            out1.dims == self.head_dims(1, n1),
            is_recurred(
                inputs_behind(x1, x2),
                self.n_heads,
                self.state_size,
                mem0,
                mem2,
                behind(out1, out2),
            ),
    {
        let n = (n1 + n2) as usize;
        let heads = self.n_heads;
        let size = self.state_size;
        let z = Sizes { batch: 1, heads, size };
        let x = inputs_behind(x1, x2);
        let out = behind(out1, out2);
        behind_parts(x1.q, x2.q);
        behind_parts(x1.k, x2.k);
        behind_parts(x1.v, x2.v);
        behind_parts(x1.decay, x2.decay);
        behind_parts(x1.beta, x2.beta);
        assert(out2.dims =~= out1.dims.update(1, out2.dims[1]));
        behind_parts(out1, out2);
        behind_facts(out1, out2);
        assert(inputs_part(x, 0, n1) == x1);
        assert(inputs_part(x, n1 as int, n2) == x2);
        positions_even(n, heads, size);
        assert(x.q.dims =~= self.head_dims(1, n));
        assert(x.k.dims =~= self.head_dims(1, n));
        assert(x.v.dims =~= self.head_dims(1, n));
        assert(x.decay.dims =~= seq![1, n, heads]);
        assert(x.beta.dims =~= seq![1, n, heads]);
        assert(out.dims =~= self.head_dims(1, n));
        let s = memory_of(mem0, heads, size);
        let mid = view_of(mem1->0);
        let s2 = view_of(mem2->0);
        assert(memory_of(mem1, heads, size) == mid);
        assert(is_run(
            positions(inputs_part(x, 0, n1), n1 as nat, z),
            s,
            z,
            mid,
            output_positions(narrowed(out, 1, 0, n1), n1 as nat, z),
        ));
        recurrence_splits(x, s, z, s2, out, n, n1);
    }

    /// Gating what comes out of the delta rule in two calls is gating it in one.
    proof fn gating_behind(
        &self,
        n1: usize,
        n2: usize,
        gate1: TensorView,
        gate2: TensorView,
        out1: TensorView,
        out2: TensorView,
        d1: DType,
        d2: DType,
        r1: TensorView,
        r2: TensorView,
    )
        requires
            n1 + n2 <= usize::MAX,
            dtype_is_f32(d1),
            dtype_is_f32(d2),
            follows(out1, out2),
            out1.dims == self.head_dims(1, n1),
            out2.dims[1] == n2,
            follows(gate1, gate2),
            gate1.dims == seq![1, n1, self.inner_size],
            gate2.dims[1] == n2,
            self.inner_size == self.n_heads * self.state_size,
            self.is_gated_by(1, n1, gate1, out1, d1, r1),
            self.is_gated_by(1, n2, gate2, out2, d2, r2),
        ensures
            self.is_gated_by(
                1,
                (n1 + n2) as usize,
                behind(gate1, gate2),
                behind(out1, out2),
                d1,
                behind(r1, r2),
            ),
            follows(
                reshaped(r1, seq![1, n1, self.inner_size]),
                reshaped(r2, seq![1, n2, self.inner_size]),
            ),
            reshaped(behind(r1, r2), seq![1, (n1 + n2) as usize, self.inner_size]) == behind(
                reshaped(r1, seq![1, n1, self.inner_size]),
                reshaped(r2, seq![1, n2, self.inner_size]),
            ),
    {
        let n = (n1 + n2) as usize;
        let inner = self.inner_size;
        let h1 = self.head_dims(1, n1);
        let h2 = self.head_dims(1, n2);
        let f1 = seq![1, n1, inner];
        let f2 = seq![1, n2, inner];
        count_small(1, n1, self.n_heads, self.state_size, 0);
        count_small(1, n2, self.n_heads, self.state_size, 0);
        count_small(1, n1, inner, 0, 0);
        count_small(1, n2, inner, 0, 0);
        let heads = self.n_heads;
        let size = self.state_size;
        assert(1 * n1 * inner == 1 * n1 * heads * size && 1 * n2 * inner == 1 * n2 * heads * size)
            by (nonlinear_arith)
            requires
                inner == heads * size,
        ;
        assert(gate2.dims =~= f2);
        assert(out2.dims =~= h2);
        assert(h2 =~= h1.update(1, n2));
        assert(f2 =~= f1.update(1, n2));
        behind_facts(gate1, gate2);
        reshape_behind(gate1, gate2, h1, h2);
        assert(h1.update(1, n) =~= self.head_dims(1, n));
        gated_behind(
            out1,
            out2,
            reshaped(gate1, h1),
            reshaped(gate2, h2),
            view_of(self.ssm_norm),
            d1,
            d2,
            r1,
            r2,
        );
        reshape_behind(r1, r2, f1, f2);
        assert(f1.update(1, n) =~= seq![1, n, inner]);
    }
}

/// The inputs of the delta rule at some positions and then at more.
pub open spec fn inputs_behind(a: DeltaInputs, b: DeltaInputs) -> DeltaInputs {
    DeltaInputs {
        q: behind(a.q, b.q),
        k: behind(a.k, b.k),
        v: behind(a.v, b.v),
        decay: behind(a.decay, b.decay),
        beta: behind(a.beta, b.beta),
    }
}

/// `x` holds the positions of `x1` and then those of `x2`, and nothing is in the way of running
/// the layer on `x1`, then on `x2`, or on `x` in place of both.
pub open spec fn comes_in_parts<Q: QuantMethod>(
    w: SsmWeights<Q>,
    x: Tensor,
    x1: Tensor,
    x2: Tensor,
    conv0: Option<Tensor>,
    conv1: Option<Tensor>,
    mem0: Option<Tensor>,
    mem1: Option<Tensor>,
) -> bool {
    &&& w.sizes_ok()
    &&& plain(x)
    &&& plain(x1)
    &&& plain(x2)
    &&& follows(view_of(x1), view_of(x2))
    &&& holds_both(x, x1, x2)
    &&& w.is_obliged(tensor_dims(x), conv0, mem0)
    &&& w.is_obliged(tensor_dims(x1), conv0, mem0)
    &&& w.is_obliged(tensor_dims(x2), conv1, mem1)
}

/// What an obliging weight makes of two parts can stand behind one another.
proof fn projected_follow<Q: QuantMethod>(
    w: Q,
    from: usize,
    to: usize,
    x1: Tensor,
    x2: Tensor,
    y1: Tensor,
    y2: Tensor,
)
    requires
        weight_obliges(w, from, to),
        plain(x1),
        plain(x2),
        tensor_dims(x1).len() == 3,
        tensor_dims(x1)[2] == from,
        fits(tensor_dims(x1)),
        fits(tensor_dims(x2)),
        fits(tensor_dims(x1).update(2, to)),
        fits(tensor_dims(x2).update(2, to)),
        follows(view_of(x1), view_of(x2)),
        projects(w, x1, y1),
        projects(w, x2, y2),
        consistent(view_of(y1)),
        consistent(view_of(y2)),
    ensures
        plain(y1),
        plain(y2),
        follows(view_of(y1), view_of(y2)),
        tensor_dims(y1) == seq![1, tensor_dims(x1)[1], to],
        tensor_dims(y2) == seq![1, tensor_dims(x2)[1], to],
        tensor_dims(x2)[2] == from,
{
    assert(tensor_dims(x1).update(2, to) =~= seq![1, tensor_dims(x1)[1], to]);
    assert(tensor_dims(x2).update(2, to) =~= seq![1, tensor_dims(x2)[1], to]);
    assert(tensor_dims(y2) =~= tensor_dims(y1).update(1, tensor_dims(y2)[1]));
}

proof fn prepared_behind<Q: QuantMethod>(
    w: SsmWeights<Q>,
    x: Tensor,
    x1: Tensor,
    x2: Tensor,
    conv0: Option<Tensor>,
    conv1: Option<Tensor>,
    conv2: Option<Tensor>,
    mem0: Option<Tensor>,
    mem1: Option<Tensor>,
    d1: DType,
    d2: DType,
    q1: TensorView,
    q2: TensorView,
    k1: TensorView,
    k2: TensorView,
    v1: TensorView,
    v2: TensorView,
)
    requires
        comes_in_parts(w, x, x1, x2, conv0, conv1, mem0, mem1),
        by_position(w.attn_qkv),
        dtype_is_f32(d1),
        dtype_is_f32(d2),
        w.is_prepared(x1, conv0, conv1, d1, q1, k1, v1),
        w.is_prepared(x2, conv1, conv2, d2, q2, k2, v2),
    ensures
        w.is_prepared(x, conv0, conv2, d1, behind(q1, q2), behind(k1, k2), behind(v1, v2)),
        follows(q1, q2),
        follows(k1, k2),
        follows(v1, v2),
        q1.dims == w.head_dims(1, tensor_dims(x1)[1]),
        k1.dims == q1.dims,
        v1.dims == q1.dims,
        q2.dims[1] == tensor_dims(x2)[1],
        k2.dims[1] == tensor_dims(x2)[1],
        v2.dims[1] == tensor_dims(x2)[1],
{
    let n1 = tensor_dims(x1)[1];
    let n2 = tensor_dims(x2)[1];
    let n = (n1 + n2) as usize;
    let channels = count(tensor_dims(w.ssm_conv1d).skip(1)) as usize;
    let qkv1 = choose|qkv: Tensor|
        {
            &&& #[trigger] projects(w.attn_qkv, x1, qkv)
            &&& w.is_made_of(1, n1, view_of(qkv), conv0, conv1, d1, q1, k1, v1)
        };
    let qkv2 = choose|qkv: Tensor|
        {
            &&& #[trigger] projects(w.attn_qkv, x2, qkv)
            &&& w.is_made_of(1, n2, view_of(qkv), conv1, conv2, d2, q2, k2, v2)
        };
    let (a1, b1) = choose|a: TensorView, b: TensorView|
        {
            &&& w.is_cut(1, n1, view_of(qkv1), conv0, conv1, a, b, v1)
            &&& #[trigger] w.is_scaled(d1, a, b, q1, k1)
        };
    let (a2, b2) = choose|a: TensorView, b: TensorView|
        {
            &&& w.is_cut(1, n2, view_of(qkv2), conv1, conv2, a, b, v2)
            &&& #[trigger] w.is_scaled(d2, a, b, q2, k2)
        };
    assert(tensor_dims(x1).update(2, channels) =~= seq![1, n1, channels]);
    assert(tensor_dims(x2).update(2, channels) =~= seq![1, n2, channels]);
    projected_follow(w.attn_qkv, tensor_dims(x)[2], channels, x1, x2, qkv1, qkv2);
    assert(behind(view_of(qkv1), view_of(qkv2)).dims =~= seq![1, n, channels]);
    w.cut_behind(
        n1,
        n2,
        view_of(qkv1),
        view_of(qkv2),
        conv0,
        conv1,
        conv2,
        a1,
        a2,
        b1,
        b2,
        v1,
        v2,
    );
    if w.n_kv_heads != w.n_heads {
        let repeat = w.n_heads / w.n_kv_heads;
        let size = w.state_size;
        let g = w.n_kv_heads;
        let h = w.n_heads;
        count_small(1, n, g, repeat, size);
        count_small(1, n, h, size, 0);
        assert(h * size == g * repeat * size) by (nonlinear_arith)
            requires
                n > 0,
                1 * n * g * repeat * size == 1 * n * h * size,
        ;
    }
    w.scaled_behind(d1, d2, a1, a2, b1, b2, q1, q2, k1, k2);
    assert(holds_both(x, x1, x2));
    let qkv = choose|qkv: Tensor| #[trigger]
        projects(w.attn_qkv, x, qkv) && holds_both(qkv, qkv1, qkv2);
    assert(w.is_scaled(d1, behind(a1, a2), behind(b1, b2), behind(q1, q2), behind(k1, k2)));
    assert(w.is_made_of(
        1,
        n,
        view_of(qkv),
        conv0,
        conv2,
        d1,
        behind(q1, q2),
        behind(k1, k2),
        behind(v1, v2),
    ));
}

proof fn steered_behind<Q: QuantMethod>(
    w: SsmWeights<Q>,
    x: Tensor,
    x1: Tensor,
    x2: Tensor,
    conv0: Option<Tensor>,
    conv1: Option<Tensor>,
    mem0: Option<Tensor>,
    mem1: Option<Tensor>,
    decay1: TensorView,
    decay2: TensorView,
    beta1: TensorView,
    beta2: TensorView,
)
    requires
        comes_in_parts(w, x, x1, x2, conv0, conv1, mem0, mem1),
        by_position(w.ssm_alpha),
        by_position(w.ssm_beta),
        w.is_steered(x1, decay1, beta1),
        w.is_steered(x2, decay2, beta2),
    ensures
        w.is_steered(x, behind(decay1, decay2), behind(beta1, beta2)),
        follows(decay1, decay2),
        follows(beta1, beta2),
        decay1.dims == seq![1, tensor_dims(x1)[1], w.n_heads],
        beta1.dims == decay1.dims,
        decay2.dims[1] == tensor_dims(x2)[1],
        beta2.dims[1] == tensor_dims(x2)[1],
{
    let (alpha1, raw1) = choose|alpha: Tensor, raw: Tensor|
        {
            &&& #[trigger] projects(w.ssm_alpha, x1, alpha)
            &&& consistent(view_of(alpha))
            &&& w.is_decay(view_of(alpha), decay1)
            &&& #[trigger] projects(w.ssm_beta, x1, raw)
            &&& consistent(view_of(raw))
            &&& is_sigmoid(view_of(raw), beta1)
        };
    let (alpha2, raw2) = choose|alpha: Tensor, raw: Tensor|
        {
            &&& #[trigger] projects(w.ssm_alpha, x2, alpha)
            &&& consistent(view_of(alpha))
            &&& w.is_decay(view_of(alpha), decay2)
            &&& #[trigger] projects(w.ssm_beta, x2, raw)
            &&& consistent(view_of(raw))
            &&& is_sigmoid(view_of(raw), beta2)
        };
    let from = tensor_dims(x)[2];
    let heads = w.n_heads;
    assert(tensor_dims(x1).update(2, heads) =~= seq![1, tensor_dims(x1)[1], heads]);
    assert(tensor_dims(x2).update(2, heads) =~= seq![1, tensor_dims(x2)[1], heads]);
    projected_follow(w.ssm_alpha, from, heads, x1, x2, alpha1, alpha2);
    projected_follow(w.ssm_beta, from, heads, x1, x2, raw1, raw2);
    w.decay_behind(view_of(alpha1), view_of(alpha2), decay1, decay2);
    elements_behind(view_of(raw1), view_of(raw2), beta1, beta2);
    behind_facts(view_of(alpha1), view_of(alpha2));
    behind_facts(view_of(raw1), view_of(raw2));
    assert(holds_both(x, x1, x2));
    let alpha = choose|y: Tensor| #[trigger]
        projects(w.ssm_alpha, x, y) && holds_both(y, alpha1, alpha2);
    let raw = choose|y: Tensor| #[trigger]
        projects(w.ssm_beta, x, y) && holds_both(y, raw1, raw2);
    assert(projects(w.ssm_alpha, x, alpha) && projects(w.ssm_beta, x, raw));
}

proof fn flat_behind<Q: QuantMethod>(
    w: SsmWeights<Q>,
    x: Tensor,
    x1: Tensor,
    x2: Tensor,
    conv0: Option<Tensor>,
    conv1: Option<Tensor>,
    mem0: Option<Tensor>,
    mem1: Option<Tensor>,
    d1: DType,
    d2: DType,
    out1: TensorView,
    out2: TensorView,
    flat1: TensorView,
    flat2: TensorView,
)
    requires
        comes_in_parts(w, x, x1, x2, conv0, conv1, mem0, mem1),
        by_position(w.attn_gate),
        dtype_is_f32(d1),
        dtype_is_f32(d2),
        follows(out1, out2),
        out1.dims == w.head_dims(1, tensor_dims(x1)[1]),
        out2.dims[1] == tensor_dims(x2)[1],
        w.is_gated(x1, out1, d1, flat1),
        w.is_gated(x2, out2, d2, flat2),
    ensures
        w.is_gated(x, behind(out1, out2), d1, behind(flat1, flat2)),
        follows(flat1, flat2),
        fits(behind(flat1, flat2).dims),
{
    let n1 = tensor_dims(x1)[1];
    let n2 = tensor_dims(x2)[1];
    let n = (n1 + n2) as usize;
    let inner = w.inner_size;
    let (gate1, r1) = choose|gate: Tensor, gated: TensorView|
        {
            &&& #[trigger] projects(w.attn_gate, x1, gate)
            &&& #[trigger] w.is_gated_by(1, n1, view_of(gate), out1, d1, gated)
            &&& flat1 == reshaped(gated, seq![1, n1, w.inner_size])
        };
    let (gate2, r2) = choose|gate: Tensor, gated: TensorView|
        {
            &&& #[trigger] projects(w.attn_gate, x2, gate)
            &&& #[trigger] w.is_gated_by(1, n2, view_of(gate), out2, d2, gated)
            &&& flat2 == reshaped(gated, seq![1, n2, w.inner_size])
        };
    assert(tensor_dims(x1).update(2, inner) =~= seq![1, n1, inner]);
    assert(tensor_dims(x2).update(2, inner) =~= seq![1, n2, inner]);
    projected_follow(w.attn_gate, tensor_dims(x)[2], inner, x1, x2, gate1, gate2);
    w.gating_behind(n1, n2, view_of(gate1), view_of(gate2), out1, out2, d1, d2, r1, r2);
    assert(behind(flat1, flat2).dims =~= seq![1, n, inner]);
    assert(holds_both(x, x1, x2));
    let gate = choose|y: Tensor| #[trigger]
        projects(w.attn_gate, x, y) && holds_both(y, gate1, gate2);
    assert(projects(w.attn_gate, x, gate));
    assert(w.is_gated_by(1, n, view_of(gate), behind(out1, out2), d1, behind(r1, r2)));
}

/// A prompt that comes in two parts is a prompt that comes in one: what the layer puts out for
/// the first part, and then for the second with what it has kept of the first, it can put out for
/// all positions together, and it then keeps the same. What it puts out for the first part does
/// not depend on the second.
#[verifier::rlimit(40)]
pub proof fn layer_splits<Q: QuantMethod>(
    w: SsmWeights<Q>,
    x: Tensor,
    x1: Tensor,
    x2: Tensor,
    conv0: Option<Tensor>,
    conv1: Option<Tensor>,
    conv2: Option<Tensor>,
    mem0: Option<Tensor>,
    mem1: Option<Tensor>,
    mem2: Option<Tensor>,
    r1: Tensor,
    r2: Tensor,
)
    requires
        comes_in_parts(w, x, x1, x2, conv0, conv1, mem0, mem1),
        tensors_join(),
        by_position(w.attn_qkv),
        by_position(w.ssm_alpha),
        by_position(w.ssm_beta),
        by_position(w.attn_gate),
        by_position(w.ssm_out),
        w.is_forward(x1, conv0, conv1, mem0, mem1, r1),
        w.is_forward(x2, conv1, conv2, mem1, mem2, r2),
    ensures
        exists|r: Tensor| #[trigger]
            w.is_forward(x, conv0, conv2, mem0, mem2, r) && holds_both(r, r1, r2),
{
    let n1 = tensor_dims(x1)[1];
    let n2 = tensor_dims(x2)[1];
    let n = (n1 + n2) as usize;
    let (d1, e1, q1, k1, v1, decay1, beta1, out1, flat1) = choose|
        early: DType,
        late: DType,
        q: TensorView,
        k: TensorView,
        v: TensorView,
        decay: TensorView,
        beta: TensorView,
        out: TensorView,
        flat: Tensor,
    |
        {
            &&& #[trigger] w.is_prepared(x1, conv0, conv1, early, q, k, v)
            &&& #[trigger] w.is_steered(x1, decay, beta)
            &&& is_recurred(
                DeltaInputs { q, k, v, decay, beta },
                w.n_heads,
                w.state_size,
                mem0,
                mem1,
                out,
            )
            &&& #[trigger] w.is_gated(x1, out, late, view_of(flat))
            &&& #[trigger] projects(w.ssm_out, flat, r1)
            &&& plain(x1) && w.is_obliged(tensor_dims(x1), conv0, mem0) ==> {
                &&& dtype_is_f32(early)
                &&& dtype_is_f32(late)
                &&& plain(flat)
            }
        };
    let (d2, e2, q2, k2, v2, decay2, beta2, out2, flat2) = choose|
        early: DType,
        late: DType,
        q: TensorView,
        k: TensorView,
        v: TensorView,
        decay: TensorView,
        beta: TensorView,
        out: TensorView,
        flat: Tensor,
    |
        {
            &&& #[trigger] w.is_prepared(x2, conv1, conv2, early, q, k, v)
            &&& #[trigger] w.is_steered(x2, decay, beta)
            &&& is_recurred(
                DeltaInputs { q, k, v, decay, beta },
                w.n_heads,
                w.state_size,
                mem1,
                mem2,
                out,
            )
            &&& #[trigger] w.is_gated(x2, out, late, view_of(flat))
            &&& #[trigger] projects(w.ssm_out, flat, r2)
            &&& plain(x2) && w.is_obliged(tensor_dims(x2), conv1, mem1) ==> {
                &&& dtype_is_f32(early)
                &&& dtype_is_f32(late)
                &&& plain(flat)
            }
        };
    prepared_behind(
        w,
        x,
        x1,
        x2,
        conv0,
        conv1,
        conv2,
        mem0,
        mem1,
        d1,
        d2,
        q1,
        q2,
        k1,
        k2,
        v1,
        v2,
    );
    steered_behind(w, x, x1, x2, conv0, conv1, mem0, mem1, decay1, decay2, beta1, beta2);
    let a = DeltaInputs { q: q1, k: k1, v: v1, decay: decay1, beta: beta1 };
    let b = DeltaInputs { q: q2, k: k2, v: v2, decay: decay2, beta: beta2 };
    w.recurred_behind(n1, n2, a, b, mem0, mem1, mem2, out1, out2);
    let f1 = view_of(flat1);
    let f2 = view_of(flat2);
    flat_behind(w, x, x1, x2, conv0, conv1, mem0, mem1, e1, e2, out1, out2, f1, f2);
    let flat = choose|c: Tensor| plain(c) && #[trigger] holds_both(c, flat1, flat2);
    assert(holds_both(flat, flat1, flat2));
    let r = choose|y: Tensor| #[trigger] projects(w.ssm_out, flat, y) && holds_both(y, r1, r2);
    assert(projects(w.ssm_out, flat, r));
    assert(w.is_gated(x, behind(out1, out2), e1, view_of(flat)));
    assert(w.is_forward(x, conv0, conv2, mem0, mem2, r));
}

} // verus!
