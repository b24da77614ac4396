//! What becomes of single elements of the memory, and of what is read from it, at each position of
//! the gated delta rule.
use candle_core::Tensor;
use vstd::prelude::*;

use crate::formulas::{is_done_by, multiplies, Arithmetic};
use crate::heads::{at3, at4};
use crate::ops::{is_difference, is_matmul, is_product, is_sum};
use crate::positions::index_last;
use crate::recurrence::{
    at_batch, at_position, is_change, is_read, is_recurred, is_run, is_step, is_update, memory_dims,
    memory_of, memory_ok, memory_touched, output_positions, position, positions, stretch_three, DeltaInputs, Position, Sizes,
};
use crate::rows::{narrow_is_run, swap_back};
use crate::shape::{
    consistent, count, count_small, narrowed, reshaped, stretched, stretched_index, swapped, zeroed,
    TensorView,
};
use crate::ssm::stretched_index_same;
use crate::tensor::{difference_of, product_of, sum_of, tensor_dims, view_of};

verus! {

/// Element `c` of item `b`.
proof fn item_element(v: TensorView, b: int, dims: Seq<usize>, c: int)
    requires
        v.dims.len() >= 1,
        consistent(v),
        0 <= b < v.dims[0],
        0 <= c < count(v.dims.skip(1)),
    ensures
        at_batch(v, b, dims).words[c] == v.words[b * count(v.dims.skip(1)) + c],
        at_batch(v, b, dims).words.len() == count(v.dims.skip(1)),
{
    assert(v.dims.take(0) =~= Seq::empty());
    narrow_is_run(v, 0, b, 1);
    let inner = count(v.dims.skip(1)) as int;
    assert((b + 1) * inner == b * inner + inner) by (nonlinear_arith);
}

/// Indices of three dimensions name an element.
proof fn within3(i: int, j: int, k: int, a: int, b: int, c: int)
    requires
        0 <= i < a,
        0 <= j < b,
        0 <= k < c,
    ensures
        0 <= i * b + j < a * b,
        0 <= (i * b + j) * c + k < a * b * c,
        (i * b + j) * c + k == i * (b * c) + (j * c + k),
        0 <= j * c + k < b * c,
        ((i * b + j) * c + k) / c == i * b + j,
        (i * b + j) / b == i,
{
    let x = i * b + j;
    assert(0 <= x < a * b && x / b == i) by (nonlinear_arith)
        requires
            x == i * b + j,
            0 <= i < a,
            0 <= j < b,
    ;
    let y = x * c + k;
    assert(0 <= y < a * b * c && y / c == x) by (nonlinear_arith)
        requires
            y == x * c + k,
            0 <= x < a * b,
            0 <= k < c,
    ;
    assert(x * c + k == i * (b * c) + (j * c + k)) by (nonlinear_arith)
        requires
            x == i * b + j,
    ;
    assert(0 <= j * c + k < b * c) by (nonlinear_arith)
        requires
            0 <= j < b,
            0 <= k < c,
    ;
}

/// Sizes of one position of the inputs.
pub open spec fn is_sized(p: Position, z: Sizes) -> bool {
    let wide = seq![z.batch, z.heads, z.size];
    let slim = seq![z.batch, z.heads];
    &&& p.q.dims == wide && consistent(p.q)
    &&& p.k.dims == wide && consistent(p.k)
    &&& p.v.dims == wide && consistent(p.v)
    &&& p.decay.dims == slim && consistent(p.decay)
    &&& p.beta.dims == slim && consistent(p.beta)
}

/// The vector of item `b` for head `h`.
pub open spec fn vector3(v: TensorView, b: int, h: int) -> Seq<u32> {
    Seq::new(v.dims[2] as nat, |l: int| at3(v, b, h, l))
}

/// Row `i` of the matrix of head `h`.
pub open spec fn memory_row(m: TensorView, h: int, i: int) -> Seq<u32> {
    Seq::new(m.dims[2] as nat, |l: int| at3(m, h, i, l))
}

/// Column `j` of the matrix of head `h`.
pub open spec fn memory_column(m: TensorView, h: int, j: int) -> Seq<u32> {
    Seq::new(m.dims[1] as nat, |l: int| at3(m, h, l, j))
}

/// What is read from matrices is made of their rows and of vectors.
proof fn read_elements(
    ar: Arithmetic,
    m: TensorView,
    x: TensorView,
    z: Sizes,
    r: TensorView,
    b: int,
    h: int,
    i: int,
)
    requires
        is_done_by(ar),
        m.dims == memory_dims(z.heads, z.size),
        x.dims == seq![z.batch, z.heads, z.size],
        consistent(x),
        is_read(m, x, z, r),
        0 <= b < z.batch,
        0 <= h < z.heads,
        0 <= i < z.size,
    ensures
        at3(r, b, h, i) == (ar.inner)(memory_row(m, h, i), vector3(x, b, h)),
{
    reveal(is_done_by);
    let column = seq![z.heads, z.size, 1];
    let (n, d) = (z.heads as int, z.size as int);
    let xb = at_batch(x, b, column);
    let rb = at_batch(r, b, column);
    assert(is_matmul(m, xb, rb));
    assert(multiplies(ar, m.dims, m.words, column, xb.words, rb.words));
    assert(x.dims.skip(1) =~= seq![z.heads, z.size]);
    count_small(z.heads, z.size, 0, 0, 0);
    count_small(z.batch, z.heads, z.size, 0, 0);
    within3(b, h, i, z.batch as int, n, d);
    let c = h * d + i;
    item_element(r, b, column, c);
    assert(at3(r, b, h, i) == rb.words[c]);
    assert((h * d + i) * 1 + 0 == c);
    assert(rb.words[(h * m.dims[1] + i) * column[2] + 0] == (ar.inner)(
        Seq::new(m.dims[2] as nat, |l: int| m.words[(h * m.dims[1] + i) * m.dims[2] + l]),
        Seq::new(column[1] as nat, |l: int| xb.words[(h * column[1] + l) * column[2] + 0]),
    ));
    let col = Seq::new(column[1] as nat, |l: int| xb.words[(h * column[1] + l) * column[2] + 0]);
    assert forall|l: int| 0 <= l < d implies col[l] == vector3(x, b, h)[l] by {
        within3(b, h, l, z.batch as int, n, d);
        item_element(x, b, column, h * d + l);
        assert((h * d + l) * 1 + 0 == h * d + l);
    }
    assert(col =~= vector3(x, b, h));
    let line = Seq::new(m.dims[2] as nat, |l: int| m.words[(h * m.dims[1] + i) * m.dims[2] + l]);
    assert(line =~= memory_row(m, h, i));
}

/// Rows of matrices that were turned over are columns.
proof fn turned_row(m: TensorView, z: Sizes, h: int, j: int)
    requires
        m.dims == memory_dims(z.heads, z.size),
        consistent(m),
        0 <= h < z.heads,
        0 <= j < z.size,
    ensures
        swapped(m, 1).dims == m.dims,
        memory_row(swapped(m, 1), h, j) == memory_column(m, h, j),
{
    let w = swapped(m, 1);
    let (n, d) = (z.heads as int, z.size as int);
    assert(w.dims =~= m.dims);
    assert(m.dims.skip(3) =~= Seq::empty());
    count_small(z.heads, z.size, z.size, 0, 0);
    assert forall|l: int| 0 <= l < d implies memory_row(w, h, j)[l] == memory_column(m, h, j)[l] by {
        within3(h, j, l, n, d, d);
        swap_back(h, j, l, 0, d, d, 1);
        let p = (h * d + j) * d + l;
        assert(p * 1 + 0 == p);
        let q = (h * d + l) * d + j;
        assert(q * 1 + 0 == q);
        assert(w.words[p] == m.words[q]);
    }
    assert(memory_row(w, h, j) =~= memory_column(m, h, j));
}

/// How the memory is to change at an index, under the key of an item and a head: as far as `beta`
/// says from what it holds under the key to the value.
pub open spec fn change_at(
    ar: Arithmetic,
    p: Position,
    m: TensorView,
    z: Sizes,
    b: int,
    h: int,
    j: int,
) -> u32 {
    (ar.product)(
        p.beta.words[b * z.heads + h],
        (ar.difference)(
            at3(p.v, b, h, j),
            (ar.inner)(memory_column(m, h, j), vector3(p.k, b, h)),
        ),
    )
}

proof fn change_elements(
    ar: Arithmetic,
    p: Position,
    m: TensorView,
    z: Sizes,
    delta: TensorView,
    b: int,
    h: int,
    j: int,
)
    requires
        is_done_by(ar),
        is_sized(p, z),
        m.dims == memory_dims(z.heads, z.size),
        consistent(m),
        is_change(p, m, z, delta),
        0 <= b < z.batch,
        0 <= h < z.heads,
        0 <= j < z.size,
    ensures
        delta.dims == seq![z.batch, z.heads, z.size],
        consistent(delta),
        at3(delta, b, h, j) == change_at(ar, p, m, z, b, h, j),
{
    let (kv, diff) = choose|kv: TensorView, diff: TensorView|
        {
            &&& is_read(swapped(m, 1), p.k, z, kv)
            &&& #[trigger] is_difference(p.v, kv, diff)
            &&& is_product(reshaped(p.beta, seq![z.batch, z.heads, 1]), diff, delta)
        };
    let d = seq![z.batch, z.heads, z.size];
    let gate = reshaped(p.beta, seq![z.batch, z.heads, 1]);
    turned_row(m, z, h, j);
    read_elements(ar, swapped(m, 1), p.k, z, kv, b, h, j);
    reveal(is_done_by);
    within3(b, h, j, z.batch as int, z.heads as int, z.size as int);
    count_small(z.batch, z.heads, z.size, 0, 0);
    let i = (b * z.heads + h) * z.size + j;
    assert(difference_of(p.v.words[i], kv.words[i], diff.words[i]));
    stretch_three(gate.dims, d);
    assert(stretched(gate.dims, d)->0 =~= d);
    assert(gate.dims =~= d.update(2, 1));
    index_last(d, i);
    stretched_index_same(d, i);
    assert(product_of(gate.words[b * z.heads + h], diff.words[i], delta.words[i]));
}

/// What becomes of an element of the memory: what is left of it once it has faded, plus what the key
/// and the change of the last item make.
pub open spec fn rewritten_at(
    ar: Arithmetic,
    p: Position,
    m: TensorView,
    z: Sizes,
    h: int,
    i: int,
    j: int,
) -> u32 {
    let b = z.batch - 1;
    (ar.sum)(
        (ar.product)(at3(m, h, i, j), p.decay.words[b * z.heads + h]),
        (ar.inner)(seq![at3(p.k, b, h, i)], seq![change_at(ar, p, m, z, b, h, j)]),
    )
}

proof fn update_elements(
    ar: Arithmetic,
    p: Position,
    m: TensorView,
    z: Sizes,
    delta: TensorView,
    m2: TensorView,
    h: int,
    i: int,
    j: int,
)
    requires
        is_done_by(ar),
        is_sized(p, z),
        z.batch > 0,
        m.dims == memory_dims(z.heads, z.size),
        consistent(m),
        is_change(p, m, z, delta),
        is_update(m, p.decay, p.k, delta, z.batch - 1, z, m2),
        0 <= h < z.heads,
        0 <= i < z.size,
        0 <= j < z.size,
    ensures
        at3(m2, h, i, j) == rewritten_at(ar, p, m, z, h, i, j),
{
    let b = z.batch - 1;
    let (n, d) = (z.heads as int, z.size as int);
    let (outer, faded) = choose|outer: TensorView, faded: TensorView|
        {
            &&& #[trigger] is_sum(faded, outer, m2)
            &&& is_matmul(
                at_batch(p.k, b, seq![z.heads, z.size, 1]),
                at_batch(delta, b, seq![z.heads, 1, z.size]),
                outer,
            )
            &&& is_product(m, at_batch(p.decay, b, seq![z.heads, 1, 1]), faded)
        };
    change_elements(ar, p, m, z, delta, b, h, j);
    reveal(is_done_by);
    let dims = memory_dims(z.heads, z.size);
    let kd = seq![z.heads, z.size, 1];
    let cd = seq![z.heads, 1, z.size];
    let fd = seq![z.heads, 1, 1];
    let kb = at_batch(p.k, b, kd);
    let cb = at_batch(delta, b, cd);
    let fb = at_batch(p.decay, b, fd);
    let at = (h * d + i) * d + j;
    within3(h, i, j, n, d, d);
    count_small(z.heads, z.size, z.size, 0, 0);
    // What the key and the change make.
    assert(multiplies(ar, kd, kb.words, cd, cb.words, outer.words));
    assert(outer.words[(h * kd[1] + i) * cd[2] + j] == (ar.inner)(
        Seq::new(kd[2] as nat, |l: int| kb.words[(h * kd[1] + i) * kd[2] + l]),
        Seq::new(cd[1] as nat, |l: int| cb.words[(h * cd[1] + l) * cd[2] + j]),
    ));
    assert(p.k.dims.skip(1) =~= seq![z.heads, z.size]);
    assert(delta.dims.skip(1) =~= seq![z.heads, z.size]);
    count_small(z.heads, z.size, 0, 0, 0);
    within3(b, h, i, z.batch as int, n, d);
    within3(b, h, j, z.batch as int, n, d);
    item_element(p.k, b, kd, h * d + i);
    item_element(delta, b, cd, h * d + j);
    assert((h * d + i) * 1 + 0 == h * d + i);
    assert((h * 1 + 0) * d + j == h * d + j);
    assert(Seq::new(kd[2] as nat, |l: int| kb.words[(h * kd[1] + i) * kd[2] + l]) =~= seq![
        at3(p.k, b, h, i),
    ]);
    assert(Seq::new(cd[1] as nat, |l: int| cb.words[(h * cd[1] + l) * cd[2] + j]) =~= seq![
        at3(delta, b, h, j),
    ]);
    // What is left.
    stretch_three(dims, fd);
    assert(stretched(dims, fd)->0 =~= dims);
    stretched_index_same(dims, at);
    faded_index(z.heads, z.size, at);
    assert(p.decay.dims.skip(1) =~= seq![z.heads]);
    count_small(z.heads, 0, 0, 0, 0);
    item_element(p.decay, b, fd, h);
    assert(faded.dims == dims);
    assert(at / d / d == h);
    assert(product_of(m.words[at], fb.words[h], faded.words[at]));
    assert(sum_of(faded.words[at], outer.words[at], m2.words[at]));
}

/// One number for each head is the same for its whole matrix.
proof fn faded_index(heads: usize, size: usize, at: int)
    requires
        0 <= at < heads * size * size,
    ensures
        stretched_index(seq![heads, 1, 1], seq![heads, size, size], at) == at / size as int
            / size as int,
{
    reveal_with_fuel(stretched_index, 4);
    let a = seq![heads, 1, 1];
    let d = seq![heads, size, size];
    assert(a.drop_last() =~= seq![heads, 1]);
    assert(d.drop_last() =~= seq![heads, size]);
    assert(seq![heads, 1usize].drop_last() =~= seq![heads]);
    assert(seq![heads, size].drop_last() =~= seq![heads]);
    let s = size as int;
    let (x, n) = (at / s, heads as int);
    assert(s > 0 && 0 <= x < n * s) by (nonlinear_arith)
        requires
            0 <= at < n * s * s,
            0 <= s,
            x == at / s,
    ;
    let y = x / s;
    assert(0 <= y < n) by (nonlinear_arith)
        requires
            0 <= x < n * s,
            0 < s,
            y == x / s,
    ;
    count_small(heads, 0, 0, 0, 0);
    stretched_index_same(seq![heads], y);
    assert(y * 1 + 0 == y);
}

/// One position of the gated delta rule, element by element: the memory fades by the head's decay and
/// takes in the product of the key with the change, which goes as far as the head's gate says from
/// what the memory held under the key to the value. What is put out is read from the new memory with
/// the query.
pub proof fn delta_step_of_elements(
    ar: Arithmetic,
    p: Position,
    m: TensorView,
    z: Sizes,
    m2: TensorView,
    out: TensorView,
)
    requires
        is_done_by(ar),
        is_sized(p, z),
        z.batch > 0,
        m.dims == memory_dims(z.heads, z.size),
        consistent(m),
        is_step(p, m, z, m2, out),
    ensures
        m2.dims == m.dims,
        consistent(m2),
        forall|h: int, i: int, j: int|
            0 <= h < z.heads && 0 <= i < z.size && 0 <= j < z.size ==> #[trigger] at3(m2, h, i, j)
                == rewritten_at(ar, p, m, z, h, i, j),
        forall|b: int, h: int, i: int|
            0 <= b < z.batch && 0 <= h < z.heads && 0 <= i < z.size ==> #[trigger] at3(out, b, h, i)
                == (ar.inner)(memory_row(m2, h, i), vector3(p.q, b, h)),
{
    let delta = choose|delta: TensorView|
        {
            &&& #[trigger] is_change(p, m, z, delta)
            &&& is_update(m, p.decay, p.k, delta, z.batch - 1, z, m2)
        };
    let dims = memory_dims(z.heads, z.size);
    stretch_three(dims, seq![z.heads, 1, 1]);
    assert(stretched(dims, seq![z.heads, 1, 1])->0 =~= dims);
    assert(m2.dims == dims && consistent(m2));
    assert forall|h: int, i: int, j: int|
        0 <= h < z.heads && 0 <= i < z.size && 0 <= j < z.size implies #[trigger] at3(m2, h, i, j)
        == rewritten_at(ar, p, m, z, h, i, j) by {
        update_elements(ar, p, m, z, delta, m2, h, i, j);
    }
    assert forall|b: int, h: int, i: int|
        0 <= b < z.batch && 0 <= h < z.heads && 0 <= i < z.size implies #[trigger] at3(out, b, h, i)
        == (ar.inner)(memory_row(m2, h, i), vector3(p.q, b, h)) by {
        read_elements(ar, m2, p.q, z, out, b, h, i);
    }
}

/// The memories that a run goes through.
pub proof fn run_memories(
    ps: Seq<Position>,
    s: TensorView,
    z: Sizes,
    s2: TensorView,
    outs: Seq<TensorView>,
) -> (ms: Seq<TensorView>)
    requires
        is_run(ps, s, z, s2, outs),
    ensures
        ms.len() == ps.len() + 1,
        ms[0] == s,
        ms[ps.len() as int] == s2,
        forall|t: int|
            0 <= t < ps.len() ==> #[trigger] is_step(ps[t], ms[t], z, ms[t + 1], outs[t]),
    decreases ps.len(),
{
    if ps.len() == 0 {
        seq![s]
    } else {
        let mid = choose|mid: TensorView|
            {
                &&& is_run(ps.drop_last(), s, z, mid, outs.drop_last())
                &&& #[trigger] is_step(ps.last(), mid, z, s2, outs.last())
            };
        let less = run_memories(ps.drop_last(), s, z, mid, outs.drop_last());
        let ms = less.push(s2);
        assert forall|t: int| 0 <= t < ps.len() implies #[trigger] is_step(
            ps[t],
            ms[t],
            z,
            ms[t + 1],
            outs[t],
        ) by {
            if t < ps.len() - 1 {
                assert(ps.drop_last()[t] == ps[t] && outs.drop_last()[t] == outs[t]);
                assert(is_step(
                    ps.drop_last()[t],
                    less[t],
                    z,
                    less[t + 1],
                    outs.drop_last()[t],
                ));
            }
        }
        ms
    }
}

/// Element `c` of an item at position `t`.
proof fn position_element(v: TensorView, t: int, dims: Seq<usize>, b: int, c: int)
    requires
        v.dims.len() >= 2,
        0 <= t < v.dims[1],
        0 <= b < v.dims[0],
        0 <= c < count(v.dims.skip(2)),
    ensures
        at_position(v, t, dims).words.len() == v.dims[0] * count(v.dims.skip(2)),
        at_position(v, t, dims).words[b * count(v.dims.skip(2)) + c] == v.words[(b * v.dims[1] + t)
            * count(v.dims.skip(2)) + c],
{
    let inner = count(v.dims.skip(2)) as int;
    let n = v.dims[0] as int;
    assert(v.dims.take(1) =~= seq![v.dims[0]]);
    count_small(v.dims[0], 0, 0, 0, 0);
    let i = b * inner + c;
    assert(0 <= i < n * inner && i / inner == b && i % inner == c && n * 1 * inner == n * inner && 1
        * inner == inner) by (nonlinear_arith)
        requires
            i == b * inner + c,
            0 <= b < n,
            0 <= c < inner,
    ;
    let w = narrowed(v, 1, t, 1);
    assert(w.words.len() == n * inner);
    assert(w.words[i] == v.words[((i / inner) * v.dims[1] + t) * inner + i % inner]);
}

/// The inputs of a recurrence have the shapes `[batch, positions, heads, size]` and
/// `[batch, positions, heads]`.
pub open spec fn inputs_are_sized(x: DeltaInputs, len: usize, z: Sizes) -> bool {
    let wide = seq![z.batch, len, z.heads, z.size];
    let slim = seq![z.batch, len, z.heads];
    &&& x.q.dims == wide
    &&& x.k.dims == wide
    &&& x.v.dims == wide
    &&& x.decay.dims == slim
    &&& x.beta.dims == slim
}

/// What goes into the recurrence at a position is what the inputs hold there.
pub proof fn position_holds_inputs(x: DeltaInputs, len: usize, z: Sizes, t: int)
    requires
        inputs_are_sized(x, len, z),
        0 <= t < len,
    ensures
        is_sized(position(x, t, z), z),
        forall|b: int, h: int, i: int|
            0 <= b < z.batch && 0 <= h < z.heads && 0 <= i < z.size ==> {
                &&& #[trigger] at3(position(x, t, z).q, b, h, i) == at4(x.q, b, t, h, i)
                &&& at3(position(x, t, z).k, b, h, i) == at4(x.k, b, t, h, i)
                &&& at3(position(x, t, z).v, b, h, i) == at4(x.v, b, t, h, i)
            },
        forall|b: int, h: int|
            #![trigger position(x, t, z).decay.words[b * z.heads + h]]
            #![trigger position(x, t, z).beta.words[b * z.heads + h]]
            0 <= b < z.batch && 0 <= h < z.heads ==> {
                &&& position(x, t, z).decay.words[b * z.heads + h] == at3(x.decay, b, t, h)
                &&& position(x, t, z).beta.words[b * z.heads + h] == at3(x.beta, b, t, h)
            },
{
    let p = position(x, t, z);
    let (n, d) = (z.heads as int, z.size as int);
    let wide = seq![z.batch, z.heads, z.size];
    let slim = seq![z.batch, z.heads];
    assert(x.q.dims.skip(2) =~= seq![z.heads, z.size]);
    assert(x.beta.dims.skip(2) =~= seq![z.heads]);
    count_small(z.heads, z.size, 0, 0, 0);
    count_small(z.batch, z.heads, z.size, 0, 0);
    assert(z.batch * (n * d) == z.batch * n * d) by (nonlinear_arith);
    position_len(x.q, t, wide);
    position_len(x.k, t, wide);
    position_len(x.v, t, wide);
    position_len(x.decay, t, slim);
    position_len(x.beta, t, slim);
    assert forall|b: int, h: int, i: int|
        0 <= b < z.batch && 0 <= h < z.heads && 0 <= i < z.size implies {
        &&& #[trigger] at3(p.q, b, h, i) == at4(x.q, b, t, h, i)
        &&& at3(p.k, b, h, i) == at4(x.k, b, t, h, i)
        &&& at3(p.v, b, h, i) == at4(x.v, b, t, h, i)
    } by {
        let c = h * d + i;
        within3(b, h, i, z.batch as int, n, d);
        let y = b * len + t;
        assert((y * n + h) * d + i == y * (n * d) + c) by (nonlinear_arith)
            requires
                c == h * d + i,
        ;
        position_element(x.q, t, wide, b, c);
        position_element(x.k, t, wide, b, c);
        position_element(x.v, t, wide, b, c);
    }
    assert forall|b: int, h: int|
        #![trigger p.decay.words[b * z.heads + h]]
        #![trigger p.beta.words[b * z.heads + h]]
        0 <= b < z.batch && 0 <= h < z.heads implies {
        &&& p.decay.words[b * z.heads + h] == at3(x.decay, b, t, h)
        &&& p.beta.words[b * z.heads + h] == at3(x.beta, b, t, h)
    } by {
        position_element(x.decay, t, slim, b, h);
        position_element(x.beta, t, slim, b, h);
    }
}

proof fn position_len(v: TensorView, t: int, dims: Seq<usize>)
    requires
        v.dims.len() >= 2,
    ensures
        at_position(v, t, dims).words.len() == v.dims[0] * count(v.dims.skip(2)),
{
    assert(v.dims.take(1) =~= seq![v.dims[0]]);
    count_small(v.dims[0], 0, 0, 0, 0);
    let n = v.dims[0] as int;
    assert(n * 1 == n);
}

/// What the memory starts with: what was kept, zeros where there was nothing, and for each head the
/// same where only one was kept.
pub open spec fn starts_with(before: Option<Tensor>, z: Sizes, h: int, i: int, j: int) -> u32 {
    match before {
        None => 0,
        Some(t) => at3(
            view_of(t),
            if tensor_dims(t)[0] == z.heads {
                h
            } else {
                0
            },
            i,
            j,
        ),
    }
}

proof fn start_elements(before: Option<Tensor>, z: Sizes, h: int, i: int, j: int)
    requires
        memory_ok(before, z.heads, z.size),
        0 <= h < z.heads,
        0 <= i < z.size,
        0 <= j < z.size,
    ensures
        at3(memory_of(before, z.heads, z.size), h, i, j) == starts_with(before, z, h, i, j),
{
    let dims = memory_dims(z.heads, z.size);
    let (n, d) = (z.heads as int, z.size as int);
    within3(h, i, j, n, d, d);
    count_small(z.heads, z.size, z.size, 0, 0);
    let p = (h * d + i) * d + j;
    if let Some(t) = before {
        if tensor_dims(t) != dims {
            let one = memory_dims(1, z.size);
            assert(tensor_dims(t) == one);
            if z.heads == 1 {
                assert(one =~= dims);
            }
            reveal_with_fuel(stretched_index, 4);
            assert(one.drop_last() =~= seq![1, z.size]);
            assert(dims.drop_last() =~= seq![z.heads, z.size]);
            assert(seq![1, z.size].drop_last() =~= seq![1usize]);
            assert(seq![z.heads, z.size].drop_last() =~= seq![z.heads]);
            assert(seq![1usize].drop_last() =~= Seq::empty());
            let y = h * d + i;
            assert(p / d == y && p % d == j && y / d == h && y % d == i) by (nonlinear_arith)
                requires
                    p == y * d + j,
                    y == h * d + i,
                    0 <= i < d,
                    0 <= j < d,
            ;
            assert(d == 1 ==> i == 0 && j == 0);
            assert(stretched_index(seq![1usize], seq![z.heads], h) == 0);
            assert(stretched_index(seq![1, z.size], seq![z.heads, z.size], y) == i) by {
                assert(0 * d == 0);
            }
            assert(stretched_index(one, dims, p) == i * d + j);
            assert((0 * d + i) * d + j == i * d + j) by (nonlinear_arith);
        }
    }
}

/// The gated delta rule over all positions, element by element: the memory that was kept, or zeros
/// where there was none, is rewritten at each position, the last of which leaves what is kept then.
/// What is put out at a position is read from the memory that it leaves, with its query.
pub proof fn recurrence_of_elements(
    ar: Arithmetic,
    x: DeltaInputs,
    len: usize,
    z: Sizes,
    before: Option<Tensor>,
    after: Option<Tensor>,
    out: TensorView,
)
    requires
        is_done_by(ar),
        inputs_are_sized(x, len, z),
        before matches Some(t) ==> consistent(view_of(t)),
        is_recurred(x, z.heads, z.size, before, after, out),
    ensures
        exists|ms: Seq<TensorView>|
            {
                &&& ms.len() == len + 1
                &&& ms[0].dims == seq![z.heads, z.size, z.size]
                &&& forall|h: int, i: int, j: int|
                    0 <= h < z.heads && 0 <= i < z.size && 0 <= j < z.size ==> #[trigger] at3(
                        ms[0],
                        h,
                        i,
                        j,
                    ) == starts_with(before, z, h, i, j)
                &&& after == Some(after->0)
                &&& view_of(after->0) == ms[len as int]
                &&& #[trigger] is_rewritten_along(ar, x, len, z, ms)
                &&& forall|b: int, t: int, h: int, i: int|
                    0 <= b < z.batch && 0 <= t < len && 0 <= h < z.heads && 0 <= i < z.size
                        ==> #[trigger] at4(out, b, t, h, i) == (ar.inner)(
                        memory_row(ms[t + 1], h, i),
                        Seq::new(z.size as nat, |l: int| at4(x.q, b, t, h, l)),
                    )
            },
{
    let ps = positions(x, len as nat, z);
    let outs = output_positions(out, len as nat, z);
    let start = memory_of(before, z.heads, z.size);
    let dims = memory_dims(z.heads, z.size);
    let ms = run_memories(ps, start, z, view_of(after->0), outs);
    assert(consistent(start) && start.dims == dims);
    assert forall|h: int, i: int, j: int|
        0 <= h < z.heads && 0 <= i < z.size && 0 <= j < z.size implies #[trigger] at3(
        ms[0],
        h,
        i,
        j,
    ) == starts_with(before, z, h, i, j) by {
        start_elements(before, z, h, i, j);
    }
    memories_keep_shape(ar, x, len, z, ms, outs, len as int);
    assert forall|t: int| 0 <= t < len implies #[trigger] is_rewritten_at(ar, x, t, z, ms[t], ms[t
        + 1]) by {
        assert(is_step(ps[t], ms[t], z, ms[t + 1], outs[t]));
        assert(ms[t].dims == dims);
        position_holds_inputs(x, len, z, t);
        delta_step_of_elements(ar, position(x, t, z), ms[t], z, ms[t + 1], outs[t]);
        step_in_inputs(ar, x, len, t, z, ms[t], ms[t + 1]);
    }
    assert(is_rewritten_along(ar, x, len, z, ms));
    assert forall|b: int, t: int, h: int, i: int|
        0 <= b < z.batch && 0 <= t < len && 0 <= h < z.heads && 0 <= i < z.size implies #[trigger] at4(
        out,
        b,
        t,
        h,
        i,
    ) == (ar.inner)(
        memory_row(ms[t + 1], h, i),
        Seq::new(z.size as nat, |l: int| at4(x.q, b, t, h, l)),
    ) by {
        let p = position(x, t, z);
        assert(is_step(ps[t], ms[t], z, ms[t + 1], outs[t]));
        assert(ms[t].dims == dims);
        position_holds_inputs(x, len, z, t);
        delta_step_of_elements(ar, p, ms[t], z, ms[t + 1], outs[t]);
        let wide = seq![z.batch, z.heads, z.size];
        let (n, d) = (z.heads as int, z.size as int);
        assert(out.dims.skip(2) =~= seq![z.heads, z.size]);
        count_small(z.heads, z.size, 0, 0, 0);
        within3(b, h, i, z.batch as int, n, d);
        position_element(out, t, wide, b, h * d + i);
        let y = b * len + t;
        assert((y * n + h) * d + i == y * (n * d) + (h * d + i)) by (nonlinear_arith);
        assert(at3(outs[t], b, h, i) == at4(out, b, t, h, i));
        let q = Seq::new(z.size as nat, |l: int| at4(x.q, b, t, h, l));
        assert forall|l: int| 0 <= l < d implies q[l] == vector3(p.q, b, h)[l] by {
            assert(at3(p.q, b, h, l) == at4(x.q, b, t, h, l));
        }
        assert(q =~= vector3(p.q, b, h));
    }
}

/// Whatever comes of a recurrence, the memory kept stays as it is, or is zeros where there was none, or
/// what it has become at one position after the other.
pub proof fn memory_is_rewritten_or_stays(
    ar: Arithmetic,
    x: DeltaInputs,
    len: usize,
    z: Sizes,
    before: Option<Tensor>,
    after: Option<Tensor>,
)
    requires
        is_done_by(ar),
        z.batch > 0,
        inputs_are_sized(x, len, z),
        memory_ok(before, z.heads, z.size),
        before matches Some(t) ==> consistent(view_of(t)),
        memory_touched(x, z.heads, z.size, before, after),
    ensures
        after == before || after is Some && {
            ||| before is None && view_of(after->0) == zeroed(seq![z.heads, z.size, z.size])
            ||| exists|ms: Seq<TensorView>|
                {
                    &&& ms.len() == len + 1
                    &&& forall|h: int, i: int, j: int|
                        0 <= h < z.heads && 0 <= i < z.size && 0 <= j < z.size ==> #[trigger] at3(
                            ms[0],
                            h,
                            i,
                            j,
                        ) == starts_with(before, z, h, i, j)
                    &&& view_of(after->0) == ms[len as int]
                    &&& #[trigger] is_rewritten_along(ar, x, len, z, ms)
                }
        },
{
    let ps = positions(x, len as nat, z);
    let start = memory_of(before, z.heads, z.size);
    let dims = memory_dims(z.heads, z.size);
    if after != before && !(before is None && after is Some && view_of(after->0) == memory_of(
        None,
        z.heads,
        z.size,
    )) {
        let outs = choose|outs: Seq<TensorView>| #[trigger]
            is_run(ps, start, z, view_of(after->0), outs);
        let ms = run_memories(ps, start, z, view_of(after->0), outs);
        assert(consistent(start) && start.dims == dims);
        assert forall|h: int, i: int, j: int|
            0 <= h < z.heads && 0 <= i < z.size && 0 <= j < z.size implies #[trigger] at3(
            ms[0],
            h,
            i,
            j,
        ) == starts_with(before, z, h, i, j) by {
            start_elements(before, z, h, i, j);
        }
        memories_keep_shape(ar, x, len, z, ms, outs, len as int);
        assert forall|t: int| 0 <= t < len implies #[trigger] is_rewritten_at(
            ar,
            x,
            t,
            z,
            ms[t],
            ms[t + 1],
        ) by {
            assert(is_step(ps[t], ms[t], z, ms[t + 1], outs[t]));
            assert(ms[t].dims == dims);
            position_holds_inputs(x, len, z, t);
            delta_step_of_elements(ar, position(x, t, z), ms[t], z, ms[t + 1], outs[t]);
            step_in_inputs(ar, x, len, t, z, ms[t], ms[t + 1]);
        }
        assert(is_rewritten_along(ar, x, len, z, ms));
    }
}

/// The memory goes from `m` to `m2` at position `t`: each element fades by the decay of the last item
/// and its head, and the product is added of the key at its row with the change at its column, which
/// is `beta` times the difference of the value from what the memory held under the key.
pub open spec fn is_rewritten_at(
    ar: Arithmetic,
    x: DeltaInputs,
    t: int,
    z: Sizes,
    m: TensorView,
    m2: TensorView,
) -> bool {
    let b = z.batch - 1;
    &&& m2.dims == m.dims
    &&& forall|h: int, i: int, j: int|
        0 <= h < z.heads && 0 <= i < z.size && 0 <= j < z.size ==> #[trigger] at3(m2, h, i, j) == (
        ar.sum)(
            (ar.product)(at3(m, h, i, j), at3(x.decay, b, t, h)),
            (ar.inner)(
                seq![at4(x.k, b, t, h, i)],
                seq![
                    (ar.product)(
                        at3(x.beta, b, t, h),
                        (ar.difference)(
                            at4(x.v, b, t, h, j),
                            (ar.inner)(
                                memory_column(m, h, j),
                                Seq::new(z.size as nat, |l: int| at4(x.k, b, t, h, l)),
                            ),
                        ),
                    ),
                ],
            ),
        )
}

/// The memory is rewritten at one position after the other.
pub open spec fn is_rewritten_along(
    ar: Arithmetic,
    x: DeltaInputs,
    len: usize,
    z: Sizes,
    ms: Seq<TensorView>,
) -> bool {
    forall|t: int|
        0 <= t < len ==> #[trigger] is_rewritten_at(ar, x, t, z, ms[t], ms[t + 1])
}

proof fn step_in_inputs(
    ar: Arithmetic,
    x: DeltaInputs,
    len: usize,
    t: int,
    z: Sizes,
    m: TensorView,
    m2: TensorView,
)
    requires
        inputs_are_sized(x, len, z),
        0 <= t < len,
        z.batch > 0,
        m2.dims == m.dims,
        forall|h: int, i: int, j: int|
            0 <= h < z.heads && 0 <= i < z.size && 0 <= j < z.size ==> #[trigger] at3(m2, h, i, j)
                == rewritten_at(ar, position(x, t, z), m, z, h, i, j),
    ensures
        is_rewritten_at(ar, x, t, z, m, m2),
{
    let p = position(x, t, z);
    let b = z.batch - 1;
    position_holds_inputs(x, len, z, t);
    assert forall|h: int, i: int, j: int|
        0 <= h < z.heads && 0 <= i < z.size && 0 <= j < z.size implies #[trigger] at3(m2, h, i, j)
        == (ar.sum)(
        (ar.product)(at3(m, h, i, j), at3(x.decay, b, t, h)),
        (ar.inner)(
            seq![at4(x.k, b, t, h, i)],
            seq![
                (ar.product)(
                    at3(x.beta, b, t, h),
                    (ar.difference)(
                        at4(x.v, b, t, h, j),
                        (ar.inner)(
                            memory_column(m, h, j),
                            Seq::new(z.size as nat, |l: int| at4(x.k, b, t, h, l)),
                        ),
                    ),
                ),
            ],
        ),
    ) by {
        let k = Seq::new(z.size as nat, |l: int| at4(x.k, b, t, h, l));
        assert forall|l: int| 0 <= l < z.size implies k[l] == vector3(p.k, b, h)[l] by {
            assert(at3(p.q, b, h, l) == at4(x.q, b, t, h, l));
        }
        assert(k =~= vector3(p.k, b, h));
        assert(at3(p.q, b, h, i) == at4(x.q, b, t, h, i));
        assert(at3(p.q, b, h, j) == at4(x.q, b, t, h, j));
        assert(p.decay.words[b * z.heads + h] == at3(x.decay, b, t, h));
        assert(p.beta.words[b * z.heads + h] == at3(x.beta, b, t, h));
    }
}

/// All memories have one shape.
proof fn memories_keep_shape(
    ar: Arithmetic,
    x: DeltaInputs,
    len: usize,
    z: Sizes,
    ms: Seq<TensorView>,
    outs: Seq<TensorView>,
    n: int,
)
    requires
        is_done_by(ar),
        inputs_are_sized(x, len, z),
        z.batch > 0,
        ms.len() == len + 1,
        0 <= n <= len,
        ms[0].dims == memory_dims(z.heads, z.size),
        consistent(ms[0]),
        forall|t: int|
            0 <= t < len ==> #[trigger] is_step(
                positions(x, len as nat, z)[t],
                ms[t],
                z,
                ms[t + 1],
                outs[t],
            ),
    ensures
        forall|t: int|
            0 <= t <= n ==> {
                &&& (#[trigger] ms[t]).dims == memory_dims(z.heads, z.size)
                &&& consistent(ms[t])
            },
    decreases n,
{
    if n > 0 {
        let t = n - 1;
        memories_keep_shape(ar, x, len, z, ms, outs, t);
        assert(is_step(positions(x, len as nat, z)[t], ms[t], z, ms[t + 1], outs[t]));
        position_holds_inputs(x, len, z, t);
        delta_step_of_elements(ar, position(x, t, z), ms[t], z, ms[t + 1], outs[t]);
    }
}

} // verus!
