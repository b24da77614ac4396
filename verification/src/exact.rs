//! Arithmetic on whole numbers, which is exact as long as they stay small, and what convolution
//! comes to there.
use candle_core::Tensor;
use vstd::prelude::*;

use crate::conv::{
    as_row, conv_touched, history, is_convolved, is_tap_sum, kept_after, kept_rows, last_tap,
    state_ok, tap_added, timeline, used_history,
};
use crate::norm::stretch_self;
use crate::ops::is_product;
use crate::rows::{narrow_is_run, row};
use crate::shape::{consistent, count_small, count_split, narrowed, TensorView};
use crate::ssm::stretched_index_same;
use crate::tensor::{product_of, sum_of, tensor_dims, tensor_words, view_of};

verus! {

/// A number without its sign.
pub open spec fn magnitude(n: int) -> int {
    if n < 0 {
        -n
    } else {
        n
    }
}

/// Elements that stand for whole numbers are added and multiplied exactly, as long as what comes out
/// is no larger than `bound`. The element of which all bits are zero stands for zero.
pub open spec fn is_exact(value: spec_fn(u32) -> Option<int>, bound: int) -> bool {
    &&& value(0) == Some(0int)
    &&& forall|a: u32, b: u32, r: u32| #[trigger]
        sum_of(a, b, r) && value(a) is Some && value(b) is Some && magnitude(
            value(a)->0 + value(b)->0,
        ) <= bound ==> value(r) == Some(value(a)->0 + value(b)->0)
    &&& forall|a: u32, b: u32, r: u32| #[trigger]
        product_of(a, b, r) && value(a) is Some && value(b) is Some && magnitude(
            value(a)->0 * value(b)->0,
        ) <= bound ==> value(r) == Some(value(a)->0 * value(b)->0)
}

/// The sum of the first `n` products of what `a` and `b` give.
pub open spec fn dot(a: spec_fn(int) -> int, b: spec_fn(int) -> int, n: nat) -> int
    decreases n,
{
    if n == 0 {
        0
    } else {
        dot(a, b, (n - 1) as nat) + a(n - 1) * b(n - 1)
    }
}

/// The sum of the first `n` products of what `a` and `b` give, all taken without their signs.
pub open spec fn size_of_dot(a: spec_fn(int) -> int, b: spec_fn(int) -> int, n: nat) -> int {
    dot(|k: int| magnitude(a(k)), |k: int| magnitude(b(k)), n)
}

/// A sum is no larger than its terms without their signs, and neither is any of these.
proof fn dot_is_bounded(a: spec_fn(int) -> int, b: spec_fn(int) -> int, n: nat)
    ensures
        magnitude(dot(a, b, n)) <= size_of_dot(a, b, n),
        n > 0 ==> magnitude(a(n - 1) * b(n - 1)) <= size_of_dot(a, b, n),
        n > 0 ==> size_of_dot(a, b, (n - 1) as nat) <= size_of_dot(a, b, n),
    decreases n,
{
    if n > 0 {
        dot_is_bounded(a, b, (n - 1) as nat);
        let u = a(n - 1);
        let v = b(n - 1);
        assert(magnitude(u) * magnitude(v) == magnitude(u * v)) by (nonlinear_arith);
    }
}

/// A sum all of whose terms but one are zero is that term.
proof fn dot_of_one(a: spec_fn(int) -> int, b: spec_fn(int) -> int, n: nat, at: int)
    requires
        0 <= at,
        forall|k: int| 0 <= k < n && k != at ==> #[trigger] a(k) == 0,
        at < n ==> a(at) == 1,
    ensures
        dot(a, b, n) == (if at < n {
            b(at)
        } else {
            0
        }),
    decreases n,
{
    if n > 0 {
        dot_of_one(a, b, (n - 1) as nat, at);
        let k = n - 1;
        let u = a(k);
        let v = b(k);
        assert(u == 0 || u == 1);
        assert((u == 0 ==> u * v == 0) && (u == 1 ==> u * v == v)) by (nonlinear_arith);
    }
}

/// A product of two rows, element by element.
proof fn row_product(a: Seq<u32>, b: Seq<u32>, r: Seq<u32>, channels: usize, c: int)
    requires
        is_product(as_row(a, channels), as_row(b, channels), as_row(r, channels)),
        0 <= c < channels,
    ensures
        r.len() == channels,
        product_of(a[c], b[c], r[c]),
{
    let d = seq![1usize, channels];
    stretch_self(d);
    count_small(1, channels, 0, 0, 0);
    stretched_index_same(d, c);
    let out = as_row(r, channels);
    assert(out.words[c] == r[c]);
}

/// Taps over whole numbers add up to the sum of products.
proof fn tap_values(
    value: spec_fn(u32) -> Option<int>,
    bound: int,
    a: spec_fn(int) -> int,
    b: spec_fn(int) -> int,
    line: Seq<u32>,
    kernel: Seq<u32>,
    channels: usize,
    at: int,
    n: nat,
    r: Seq<u32>,
    c: int,
)
    requires
        is_exact(value, bound),
        0 <= c < channels,
        is_tap_sum(line, kernel, channels, at, n, r),
        forall|k: int|
            0 <= k <= n ==> {
                &&& value(row(kernel, k, channels as int)[c]) == Some(#[trigger] a(k))
                &&& value(row(line, at - k, channels as int)[c]) == Some(b(k))
            },
        size_of_dot(a, b, n + 1) <= bound,
    ensures
        r.len() == channels,
        value(r[c]) == Some(dot(a, b, n + 1)),
    decreases n,
{
    let ch = channels as int;
    dot_is_bounded(a, b, n + 1);
    let here = row(line, at - n, ch);
    let w = row(kernel, n as int, ch);
    assert(value(w[c]) == Some(a(n as int)));
    let u = a(n as int);
    let v = b(n as int);
    assert(v * u == u * v) by (nonlinear_arith);
    if n == 0 {
        row_product(here, w, r, channels, c);
        assert(dot(a, b, 0) == 0);
    } else {
        let (acc, p) = choose|acc: Seq<u32>, p: Seq<u32>|
            {
                &&& #[trigger] tap_added(line, kernel, channels, at, n, acc, p, r)
                &&& is_tap_sum(line, kernel, channels, at, (n - 1) as nat, acc)
            };
        row_product(here, w, p, channels, c);
        tap_values(value, bound, a, b, line, kernel, channels, at, (n - 1) as nat, acc, c);
        count_small(1, channels, 0, 0, 0);
        assert(as_row(r, channels).words[c] == r[c]);
        assert(sum_of(acc[c], p[c], r[c]));
        assert(((n - 1) + 1) as nat == n);
    }
}

/// The element of channel `c` at position `t` of `x`, of shape `[1, positions, channels]`. Before the
/// first position come the rows that were kept, one fewer than the kernel has, the latest last; where
/// none were kept, zeros.
pub open spec fn input_at(
    kept: Option<Tensor>,
    kernel: usize,
    x: TensorView,
    t: int,
    c: int,
) -> u32 {
    let channels = x.dims[2];
    if t >= 0 {
        x.words[t * channels + c]
    } else {
        match kept {
            Some(h) => tensor_words(h)[(kernel - 1 + t) * channels + c],
            None => 0,
        }
    }
}

/// Rows that a kernel can read were kept, or none: as many as it has but for one, or more. A kernel of
/// a single row reads none.
pub open spec fn is_kept_shape(kept: Option<Tensor>, kernel: usize, channels: usize) -> bool {
    kernel == 1 || (kept matches Some(h) ==> {
        &&& tensor_dims(h).len() == 2
        &&& tensor_dims(h)[0] >= kernel - 1
        &&& tensor_dims(h)[1] == channels
        &&& consistent(view_of(h))
    })
}

/// Kept rows and the rows of `x`, one after the other, hold what came in.
proof fn line_holds_inputs(kept: Option<Tensor>, kernel: usize, x: TensorView, s: int, c: int)
    requires
        kernel > 0,
        x.dims.len() == 3,
        x.dims[0] == 1,
        consistent(x),
        is_kept_shape(kept, kernel, x.dims[2]),
        1 - kernel <= s < x.dims[1],
        0 <= c < x.dims[2],
    ensures
        ({
            let ch = x.dims[2] as int;
            let line = timeline(used_history(kept, kernel, x.dims[2]), x.words, kernel, x.dims[2]);
            let i = s + kept_rows(kernel);
            &&& 0 <= i * ch
            &&& i * ch + ch == (i + 1) * ch <= line.len()
            &&& line.len() == (kept_rows(kernel) + x.dims[1]) * ch
            &&& row(line, i, ch)[c] == input_at(kept, kernel, x, s, c)
            &&& line[i * ch + c] == input_at(kept, kernel, x, s, c)
        }),
{
    let channels = x.dims[2];
    let ch = channels as int;
    let rows = kept_rows(kernel) as int;
    let len = x.dims[1] as int;
    assert(x.dims =~= seq![1, x.dims[1], channels]);
    count_small(1, x.dims[1], channels, 0, 0);
    assert(1 * x.dims[1] * channels == len * ch) by (nonlinear_arith)
        requires
            len == x.dims[1],
            ch == channels,
    ;
    if kernel > 1 {
        if let Some(h) = kept {
            let v = view_of(h);
            assert(v.dims.take(0) =~= Seq::empty());
            assert(v.dims.skip(1) =~= seq![channels]);
            count_small(channels, 0, 0, 0, 0);
            narrow_is_run(v, 0, 0, kept_rows(kernel));
            assert(narrowed(v, 0, 0, kept_rows(kernel)).dims =~= seq![kept_rows(kernel), channels]);
            assert(0 * ch == 0 && (0 + rows) * ch == rows * ch) by (nonlinear_arith);
        }
    }
    let past = used_history(kept, kernel, channels);
    let line = timeline(past, x.words, kernel, channels);
    let i = s + rows;
    assert(i * ch == s * ch + rows * ch && (i + 1) * ch == i * ch + ch && 0 <= i * ch && (i + 1) * ch
        <= rows * ch + len * ch && 0 <= rows * ch && (s >= 0 ==> s * ch >= 0) && (s < 0 ==> i * ch
        + ch <= rows * ch) && (rows + len) * ch == rows * ch + len * ch) by (nonlinear_arith)
        requires
            i == s + rows,
            0 <= i,
            s < len,
            0 <= ch,
            0 <= rows,
    ;
    assert(row(line, i, ch)[c] == line[i * ch + c]);
    if s < 0 {
        assert(kernel > 1);
        assert(kernel - 1 + s == i);
    }
}

/// Every row of the kernel counts: where `x` is convolved, what comes out at position `t` is the sum,
/// over all rows `k` of the kernel, of that row with what came `k` positions before. Stated for whole
/// numbers that stay small, with which elements are added and multiplied exactly.
pub proof fn convolution_sums_all_rows(
    value: spec_fn(u32) -> Option<int>,
    bound: int,
    x: TensorView,
    weight: TensorView,
    before: Option<Tensor>,
    after: Option<Tensor>,
    out: TensorView,
    t: int,
    c: int,
)
    requires
        is_exact(value, bound),
        weight.dims.len() > 0,
        weight.dims[0] > 0,
        consistent(weight),
        is_convolved(x, weight, before, after, out),
        x.dims[0] == 1,
        is_kept_shape(before, weight.dims[0], x.dims[2]),
        0 <= t < x.dims[1],
        0 <= c < x.dims[2],
        forall|k: int|
            0 <= k < weight.dims[0] ==> {
                &&& value(#[trigger] weight.words[k * x.dims[2] + c]) is Some
                &&& value(input_at(before, weight.dims[0], x, t - k, c)) is Some
            },
        size_of_dot(
            |k: int| value(weight.words[k * x.dims[2] + c])->0,
            |k: int| value(input_at(before, weight.dims[0], x, t - k, c))->0,
            weight.dims[0] as nat,
        ) <= bound,
    ensures
        out.dims == x.dims,
        value(out.words[t * x.dims[2] + c]) == Some(
            dot(
                |k: int| value(weight.words[k * x.dims[2] + c])->0,
                |k: int| value(input_at(before, weight.dims[0], x, t - k, c))->0,
                weight.dims[0] as nat,
            ),
        ),
{
    let kernel = weight.dims[0];
    let channels = x.dims[2];
    let ch = channels as int;
    let len = x.dims[1] as int;
    let a = |k: int| value(weight.words[k * x.dims[2] + c])->0;
    let b = |k: int| value(input_at(before, weight.dims[0], x, t - k, c))->0;
    let past = used_history(before, kernel, channels);
    let line = timeline(past, x.words, kernel, channels);
    let rows = kept_rows(kernel);
    let n = last_tap(past, kernel, t);
    let r = row(out.words, t, ch);
    assert(is_tap_sum(line, weight.words, channels, t + rows, n, r));
    count_split(weight.dims, 1);
    assert(weight.dims.take(1) =~= seq![kernel]);
    count_small(kernel, 0, 0, 0, 0);
    assert(n < kernel);
    assert forall|k: int| 0 <= k <= n implies {
        &&& value(row(weight.words, k, ch)[c]) == Some(#[trigger] a(k))
        &&& value(row(line, (t + rows) - k, ch)[c]) == Some(b(k))
    } by {
        line_holds_inputs(before, kernel, x, t - k, c);
        assert(t + rows - k == t - k + rows);
        assert(0 <= k * ch && (k + 1) * ch == k * ch + ch && (k + 1) * ch <= kernel * ch) by (
        nonlinear_arith)
            requires
                0 <= k < kernel,
                0 <= ch,
        ;
        assert(weight.words[k * x.dims[2] + c] == row(weight.words, k, ch)[c]);
    }
    dot_shrinks(a, b, n + 1, kernel as nat);
    tap_values(value, bound, a, b, line, weight.words, channels, t + rows, n, r, c);
    assert(dot(a, b, n + 1) == dot(a, b, kernel as nat)) by {
        if n + 1 < kernel {
            assert forall|k: int| n + 1 <= k < kernel implies #[trigger] b(k) == 0 by {
                assert(input_at(before, kernel, x, t - k, c) == 0);
            }
            dot_ends(a, b, n + 1, kernel as nat);
        }
    }
    assert(out.dims =~= x.dims);
    count_small(1, x.dims[1], channels, 0, 0);
    assert(out.dims =~= seq![1, x.dims[1], channels]);
    assert(0 <= t * ch && (t + 1) * ch == t * ch + ch && (t + 1) * ch <= 1 * x.dims[1] * channels)
        by (nonlinear_arith)
        requires
            0 <= t < x.dims[1],
            ch == channels,
            0 <= ch,
    ;
}

/// Fewer terms without their signs come to no more.
proof fn dot_shrinks(a: spec_fn(int) -> int, b: spec_fn(int) -> int, m: nat, n: nat)
    requires
        m <= n,
    ensures
        size_of_dot(a, b, m) <= size_of_dot(a, b, n),
    decreases n,
{
    if m < n {
        dot_shrinks(a, b, m, (n - 1) as nat);
        dot_is_bounded(a, b, n);
    }
}

/// Terms that are zero add nothing.
proof fn dot_ends(a: spec_fn(int) -> int, b: spec_fn(int) -> int, m: nat, n: nat)
    requires
        m <= n,
        forall|k: int| m <= k < n ==> #[trigger] b(k) == 0,
    ensures
        dot(a, b, m) == dot(a, b, n),
    decreases n,
{
    if m < n {
        dot_ends(a, b, m, (n - 1) as nat);
        assert(b(n - 1) == 0);
        assert(a(n - 1) * 0 == 0);
    }
}

/// A kernel that is one in a row `k` and zero in all others delays by `k` positions: one that is one
/// in its last row gives back, at each position, what came one fewer position before than it has
/// rows. Stated for whole numbers that stay small.
pub proof fn one_row_delays(
    value: spec_fn(u32) -> Option<int>,
    bound: int,
    x: TensorView,
    weight: TensorView,
    before: Option<Tensor>,
    after: Option<Tensor>,
    out: TensorView,
    t: int,
    c: int,
    at: int,
)
    requires
        is_exact(value, bound),
        weight.dims.len() > 0,
        weight.dims[0] > 0,
        consistent(weight),
        is_convolved(x, weight, before, after, out),
        x.dims[0] == 1,
        is_kept_shape(before, weight.dims[0], x.dims[2]),
        0 <= t < x.dims[1],
        0 <= c < x.dims[2],
        0 <= at < weight.dims[0],
        forall|k: int|
            0 <= k < weight.dims[0] ==> {
                &&& value(#[trigger] weight.words[k * x.dims[2] + c]) == Some(
                    if k == at {
                        1int
                    } else {
                        0int
                    },
                )
                &&& value(input_at(before, weight.dims[0], x, t - k, c)) is Some
            },
        magnitude(value(input_at(before, weight.dims[0], x, t - at, c))->0) <= bound,
    ensures
        value(out.words[t * x.dims[2] + c]) == value(
            input_at(before, weight.dims[0], x, t - at, c),
        ),
{
    let n = weight.dims[0] as nat;
    let a = |k: int| value(weight.words[k * x.dims[2] + c])->0;
    let b = |k: int| value(input_at(before, weight.dims[0], x, t - k, c))->0;
    let aa = |k: int| magnitude(a(k));
    let bb = |k: int| magnitude(b(k));
    assert forall|k: int| 0 <= k < n implies #[trigger] a(k) == (if k == at {
        1int
    } else {
        0int
    }) by {
        assert(value(weight.words[k * x.dims[2] + c]) is Some);
    }
    assert forall|k: int| 0 <= k < n && k != at implies #[trigger] aa(k) == 0 by {
        assert(a(k) == 0);
    }
    assert(a(at) == 1);
    dot_of_one(a, b, n, at);
    dot_of_one(aa, bb, n, at);
    let w = weight.words[at * x.dims[2] + c];
    assert(value(w) is Some);
    convolution_sums_all_rows(value, bound, x, weight, before, after, out, t, c);
}

/// The latest rows are kept, the last of them last: as many as the kernel has, but for one. Where
/// fewer have come in, rows that were kept before stand in front, or zeros.
pub proof fn latest_rows_are_kept(
    x: TensorView,
    weight: TensorView,
    before: Option<Tensor>,
    after: Option<Tensor>,
    out: TensorView,
    j: int,
    c: int,
)
    requires
        weight.dims.len() > 0,
        weight.dims[0] > 1,
        is_convolved(x, weight, before, after, out),
        x.dims[0] == 1,
        x.dims[1] > 0,
        is_kept_shape(before, weight.dims[0], x.dims[2]),
        0 <= j < weight.dims[0] - 1,
        0 <= c < x.dims[2],
    ensures
        after matches Some(kept) && {
            &&& tensor_dims(kept) == seq![(weight.dims[0] - 1) as usize, x.dims[2]]
            &&& tensor_words(kept)[j * x.dims[2] + c] == input_at(
                before,
                weight.dims[0],
                x,
                x.dims[1] - (weight.dims[0] - 1) + j,
                c,
            )
        },
{
    let kernel = weight.dims[0];
    let channels = x.dims[2];
    let ch = channels as int;
    let len = x.dims[1] as int;
    let rows = kept_rows(kernel) as int;
    let past = used_history(before, kernel, channels);
    let line = timeline(past, x.words, kernel, channels);
    let s = len - rows + j;
    line_holds_inputs(before, kernel, x, s, c);
    assert(history(after) == Some(line.subrange(len * ch, (len + rows) * ch)));
    assert((len + j) * ch == len * ch + j * ch && 0 <= len * ch && 0 <= j * ch && j * ch + ch <= rows
        * ch && (len + rows) * ch == len * ch + rows * ch) by (nonlinear_arith)
        requires
            0 <= j < rows,
            0 <= len,
            0 <= ch,
    ;
    assert(s + rows == len + j);
}

/// Whatever comes of a convolution, the rows kept stay as they are, or are the latest that came in up
/// to some position.
pub proof fn latest_rows_or_none_are_kept(
    x: TensorView,
    weight: TensorView,
    before: Option<Tensor>,
    after: Option<Tensor>,
)
    requires
        weight.dims.len() > 0,
        weight.dims[0] > 1,
        x.dims.len() == 3,
        x.dims[0] == 1,
        x.dims[2] > 0,
        consistent(x),
        is_kept_shape(before, weight.dims[0], x.dims[2]),
        conv_touched(x, weight, before, after),
    ensures
        after == before || exists|t: int|
            {
                &&& 0 < t <= x.dims[1]
                &&& #[trigger] are_latest(x, weight.dims[0], before, after, t)
            },
{
    let kernel = weight.dims[0];
    let channels = x.dims[2];
    let ch = channels as int;
    let rows = kept_rows(kernel) as int;
    let past = used_history(before, kernel, channels);
    let line = timeline(past, x.words, kernel, channels);
    if after != before {
        let t = choose|t: int|
            0 < t <= x.dims[1] && {
                &&& state_ok(after, kernel, channels)
                &&& history(after) == #[trigger] kept_after(past, x.words, kernel, channels, t)
            };
        assert(history(after) == Some(line.subrange(t * ch, (t + rows) * ch)));
        assert forall|j: int, c: int|
            #![trigger tensor_words(after->0)[j * channels + c]]
            0 <= j < kernel - 1 && 0 <= c < channels implies tensor_words(after->0)[j * channels + c]
            == input_at(before, kernel, x, t - (kernel - 1) + j, c) by {
            let s = t - rows + j;
            line_holds_inputs(before, kernel, x, s, c);
            assert((t + j) * ch == t * ch + j * ch && 0 <= t * ch && 0 <= j * ch && j * ch + ch
                <= rows * ch && (t + rows) * ch == t * ch + rows * ch && (rows + x.dims[1]) * ch
                >= (t + rows) * ch) by (nonlinear_arith)
                requires
                    0 <= j < rows,
                    0 <= t <= x.dims[1],
                    0 <= ch,
            ;
            assert(s + rows == t + j);
        }
        assert(are_latest(x, kernel, before, after, t));
    }
}

/// The rows kept are the latest of the first `t` that came in, as many as the kernel has but for one.
pub open spec fn are_latest(
    x: TensorView,
    kernel: usize,
    before: Option<Tensor>,
    after: Option<Tensor>,
    t: int,
) -> bool {
    let channels = x.dims[2];
    &&& after is Some
    &&& tensor_dims(after->0) == seq![(kernel - 1) as usize, channels]
    &&& forall|j: int, c: int|
        #![trigger tensor_words(after->0)[j * channels + c]]
        0 <= j < kernel - 1 && 0 <= c < channels ==> tensor_words(after->0)[j * channels + c]
            == input_at(before, kernel, x, t - (kernel - 1) + j, c)
}

} // verus!
