//! What the memory of the delta rule holds, in whole numbers: a value that was written in full under a
//! key is found under it again, and what stands under other keys stays.
use vstd::prelude::*;

use crate::delta::{is_rewritten_at, memory_column};
use crate::exact::{dot, magnitude, size_of_dot};
use crate::formulas::Arithmetic;
use crate::heads::{at3, at4};
use crate::recurrence::{DeltaInputs, Sizes};
use crate::shape::TensorView;

verus! {

/// Elements that stand for whole numbers are calculated with exactly, as long as what comes out, and
/// all that is added up on the way, is no larger than `bound`.
pub open spec fn calculates_exactly(
    ar: Arithmetic,
    value: spec_fn(u32) -> Option<int>,
    bound: int,
) -> bool {
    &&& forall|a: u32, b: u32|
        value(a) is Some && value(b) is Some && magnitude(value(a)->0 + value(b)->0) <= bound
            ==> value(#[trigger] (ar.sum)(a, b)) == Some(value(a)->0 + value(b)->0)
    &&& forall|a: u32, b: u32|
        value(a) is Some && value(b) is Some && magnitude(value(a)->0 - value(b)->0) <= bound
            ==> value(#[trigger] (ar.difference)(a, b)) == Some(value(a)->0 - value(b)->0)
    &&& forall|a: u32, b: u32|
        value(a) is Some && value(b) is Some && magnitude(value(a)->0 * value(b)->0) <= bound
            ==> value(#[trigger] (ar.product)(a, b)) == Some(value(a)->0 * value(b)->0)
    &&& forall|a: Seq<u32>, b: Seq<u32>|
        a.len() == b.len() && all_whole(value, a) && all_whole(value, b) && size_of_dot(
            values_of(value, a),
            values_of(value, b),
            a.len(),
        ) <= bound ==> value(#[trigger] (ar.inner)(a, b)) == Some(
            dot(values_of(value, a), values_of(value, b), a.len()),
        )
}

/// All elements stand for whole numbers.
pub open spec fn all_whole(value: spec_fn(u32) -> Option<int>, line: Seq<u32>) -> bool {
    forall|i: int| 0 <= i < line.len() ==> value(#[trigger] line[i]) is Some
}

/// The numbers that elements stand for.
pub open spec fn values_of(value: spec_fn(u32) -> Option<int>, line: Seq<u32>) -> spec_fn(
    int,
) -> int {
    |i: int| value(line[i])->0
}

/// The key of the last item for head `h` at position `t`.
pub open spec fn key_at(x: DeltaInputs, z: Sizes, t: int, h: int) -> Seq<u32> {
    Seq::new(z.size as nat, |l: int| at4(x.k, z.batch - 1, t, h, l))
}

/// A sum with one factor that is one, and all others zero.
proof fn dot_picks(a: spec_fn(int) -> int, b: spec_fn(int) -> int, n: nat, at: int)
    requires
        0 <= at,
        forall|k: int| 0 <= k < n && k != at ==> #[trigger] b(k) == 0,
        at < n ==> b(at) == 1,
    ensures
        dot(a, b, n) == (if at < n {
            a(at)
        } else {
            0
        }),
        size_of_dot(a, b, n) == (if at < n {
            magnitude(a(at))
        } else {
            0
        }),
    decreases n,
{
    if n > 0 {
        dot_picks(a, b, (n - 1) as nat, at);
        let k = n - 1;
        let u = a(k);
        let v = b(k);
        assert(v == 0 || v == 1);
        assert((v == 0 ==> u * v == 0) && (v == 1 ==> u * v == u)) by (nonlinear_arith);
        let (mu, mv) = (magnitude(u), magnitude(v));
        assert((v == 0 ==> mu * mv == 0) && (v == 1 ==> mu * mv == mu)) by (nonlinear_arith)
            requires
                v == 0 ==> mv == 0,
                v == 1 ==> mv == 1,
        ;
    }
}

/// One number times one number.
proof fn dot_of_two(
    ar: Arithmetic,
    value: spec_fn(u32) -> Option<int>,
    bound: int,
    a: u32,
    b: u32,
)
    requires
        calculates_exactly(ar, value, bound),
        value(a) is Some,
        value(b) is Some,
        magnitude(value(a)->0 * value(b)->0) <= bound,
    ensures
        value((ar.inner)(seq![a], seq![b])) == Some(value(a)->0 * value(b)->0),
{
    let va = values_of(value, seq![a]);
    let vb = values_of(value, seq![b]);
    let (u, v) = (value(a)->0, value(b)->0);
    reveal_with_fuel(dot, 2);
    assert(va(0) == u && vb(0) == v);
    assert(dot(va, vb, 1) == u * v);
    assert(magnitude(u) * magnitude(v) == magnitude(u * v)) by (nonlinear_arith);
    assert(size_of_dot(va, vb, 1) == magnitude(u) * magnitude(v));
    assert(all_whole(value, seq![a]) && all_whole(value, seq![b]));
}

/// A value is written in full where nothing fades and `beta` is one: under a key that is one at a
/// single index and zero elsewhere the memory then holds the value, and what it holds under other such
/// keys stays as it was. Stated for whole numbers that stay small.
pub proof fn written_value_is_held(
    ar: Arithmetic,
    value: spec_fn(u32) -> Option<int>,
    bound: int,
    x: DeltaInputs,
    t: int,
    z: Sizes,
    m: TensorView,
    m2: TensorView,
    h: int,
    row: int,
    i: int,
    j: int,
)
    requires
        calculates_exactly(ar, value, bound),
        is_rewritten_at(ar, x, t, z, m, m2),
        m.dims == seq![z.heads, z.size, z.size],
        0 <= h < z.heads,
        0 <= row < z.size,
        0 <= i < z.size,
        0 <= j < z.size,
        value(at3(x.decay, z.batch - 1, t, h)) == Some(1int),
        value(at3(x.beta, z.batch - 1, t, h)) == Some(1int),
        forall|l: int|
            0 <= l < z.size ==> value(#[trigger] at4(x.k, z.batch - 1, t, h, l)) == Some(
                if l == row {
                    1int
                } else {
                    0int
                },
            ),
        forall|l: int|
            0 <= l < z.size ==> (value(#[trigger] at3(m, h, l, j)) matches Some(n) && 2 * magnitude(
                n,
            ) <= bound),
        value(at4(x.v, z.batch - 1, t, h, j)) matches Some(n) && 2 * magnitude(n) <= bound,
    ensures
        i == row ==> value(at3(m2, h, i, j)) == value(at4(x.v, z.batch - 1, t, h, j)),
        i != row ==> value(at3(m2, h, i, j)) == value(at3(m, h, i, j)),
        // Read under the same key, the memory gives the value back.
        value((ar.inner)(memory_column(m2, h, j), key_at(x, z, t, h))) == value(
            at4(x.v, z.batch - 1, t, h, j),
        ),
{
    element_after_write(ar, value, bound, x, t, z, m, m2, h, row, i, j);
    let n = z.size as nat;
    let key = key_at(x, z, t, h);
    let column = memory_column(m2, h, j);
    let a = values_of(value, column);
    let b = values_of(value, key);
    assert forall|l: int| 0 <= l < n implies value(#[trigger] column[l]) is Some by {
        element_after_write(ar, value, bound, x, t, z, m, m2, h, row, l, j);
        assert(value(at3(m, h, l, j)) is Some);
    }
    element_after_write(ar, value, bound, x, t, z, m, m2, h, row, row, j);
    assert forall|k: int| 0 <= k < n implies value(#[trigger] key[k]) is Some by {
        assert(value(at4(x.k, z.batch - 1, t, h, k)) is Some);
    }
    assert forall|k: int| 0 <= k < n && k != row implies #[trigger] b(k) == 0 by {
        assert(value(at4(x.k, z.batch - 1, t, h, k)) == Some(0int));
    }
    assert(b(row) == 1) by {
        assert(value(at4(x.k, z.batch - 1, t, h, row)) == Some(1int));
    }
    dot_picks(a, b, n, row);
    assert(a(row) == value(at3(m2, h, row, j))->0);
    assert(all_whole(value, column) && all_whole(value, key));
}

proof fn element_after_write(
    ar: Arithmetic,
    value: spec_fn(u32) -> Option<int>,
    bound: int,
    x: DeltaInputs,
    t: int,
    z: Sizes,
    m: TensorView,
    m2: TensorView,
    h: int,
    row: int,
    i: int,
    j: int,
)
    requires
        calculates_exactly(ar, value, bound),
        is_rewritten_at(ar, x, t, z, m, m2),
        m.dims == seq![z.heads, z.size, z.size],
        0 <= h < z.heads,
        0 <= row < z.size,
        0 <= i < z.size,
        0 <= j < z.size,
        value(at3(x.decay, z.batch - 1, t, h)) == Some(1int),
        value(at3(x.beta, z.batch - 1, t, h)) == Some(1int),
        forall|l: int|
            0 <= l < z.size ==> value(#[trigger] at4(x.k, z.batch - 1, t, h, l)) == Some(
                if l == row {
                    1int
                } else {
                    0int
                },
            ),
        forall|l: int|
            0 <= l < z.size ==> (value(#[trigger] at3(m, h, l, j)) matches Some(n) && 2 * magnitude(
                n,
            ) <= bound),
        value(at4(x.v, z.batch - 1, t, h, j)) matches Some(n) && 2 * magnitude(n) <= bound,
    ensures
        i == row ==> value(at3(m2, h, i, j)) == value(at4(x.v, z.batch - 1, t, h, j)),
        i != row ==> value(at3(m2, h, i, j)) == value(at3(m, h, i, j)),
{
    let last = z.batch - 1;
    let n = z.size as nat;
    let key = Seq::new(z.size as nat, |l: int| at4(x.k, last, t, h, l));
    let column = memory_column(m, h, j);
    let a = values_of(value, column);
    let b = values_of(value, key);
    let v = value(at4(x.v, last, t, h, j))->0;
    let old_row = value(at3(m, h, row, j))->0;
    assert(value(at3(m, h, row, j)) is Some);
    assert forall|l: int| 0 <= l < n implies value(#[trigger] column[l]) is Some by {
        assert(value(at3(m, h, l, j)) is Some);
    }
    assert forall|k: int| 0 <= k < n implies value(#[trigger] key[k]) is Some by {
        assert(value(at4(x.k, last, t, h, k)) is Some);
    }
    assert forall|k: int| 0 <= k < n && k != row implies #[trigger] b(k) == 0 by {
        assert(value(at4(x.k, last, t, h, k)) == Some(0int));
    }
    assert(b(row) == 1) by {
        assert(value(at4(x.k, last, t, h, row)) == Some(1int));
    }
    dot_picks(a, b, n, row);
    assert(a(row) == old_row);
    assert(all_whole(value, column) && all_whole(value, key));
    let held = (ar.inner)(column, key);
    assert(value(held) == Some(old_row));
    let diff = (ar.difference)(at4(x.v, last, t, h, j), held);
    assert(value(diff) == Some(v - old_row));
    let beta = at3(x.beta, last, t, h);
    let change = (ar.product)(beta, diff);
    assert(1 * (v - old_row) == v - old_row);
    assert(value(change) == Some(v - old_row));
    let ki = at4(x.k, last, t, h, i);
    let k = value(ki)->0;
    assert(value(ki) is Some && (k == 0 || k == 1));
    assert((k == 0 ==> k * (v - old_row) == 0) && (k == 1 ==> k * (v - old_row) == v - old_row))
        by (nonlinear_arith);
    dot_of_two(ar, value, bound, ki, change);
    let was = at3(m, h, i, j);
    let u = value(was)->0;
    assert(value(was) is Some);
    assert(u * 1 == u);
    let faded = (ar.product)(was, at3(x.decay, last, t, h));
    assert(value(faded) == Some(u));
    let outer = (ar.inner)(seq![ki], seq![change]);
    assert(value((ar.sum)(faded, outer)) == Some(u + k * (v - old_row)));
    assert(at3(m2, h, i, j) == (ar.sum)(faded, outer));
}

} // verus!
