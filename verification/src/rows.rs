//! Rows of tensors: parts that stand side by side in row-major order.
use vstd::prelude::*;

use crate::shape::{
    consistent, count, count_split, joined, joined_slab, joined_words, narrowed, swapped,
    total_along, TensorView,
};

verus! {

/// The `i`-th of the rows of `width` elements that `words` is made of.
pub open spec fn row(words: Seq<u32>, i: int, width: int) -> Seq<u32> {
    words.subrange(i * width, (i + 1) * width)
}

/// The elements of `parts`, one part after the other.
pub open spec fn chained(parts: Seq<TensorView>) -> Seq<u32>
    decreases parts.len(),
{
    if parts.len() == 0 {
        Seq::empty()
    } else {
        chained(parts.drop_last()) + parts.last().words
    }
}

/// A part along a dimension before which there is only one index is a run of elements.
pub proof fn narrow_is_run(v: TensorView, dim: int, start: int, len: usize)
    requires
        consistent(v),
        0 <= dim < v.dims.len(),
        count(v.dims.take(dim)) == 1,
        0 <= start,
        start + len <= v.dims[dim],
    ensures
        ({
            let inner = count(v.dims.skip(dim + 1)) as int;
            &&& 0 <= start * inner <= (start + len) * inner <= v.words.len()
            &&& v.words.len() == v.dims[dim] * inner
            &&& narrowed(v, dim, start, len).words == v.words.subrange(
                start * inner,
                (start + len) * inner,
            )
        }),
        consistent(narrowed(v, dim, start, len)),
{
    let inner = count(v.dims.skip(dim + 1)) as int;
    let d = v.dims[dim] as int;
    let n = len as int;
    let block = n * inner;
    count_split(v.dims, dim);
    let tail = v.dims.skip(dim);
    count_split(tail, 1);
    assert(tail.skip(1) =~= v.dims.skip(dim + 1));
    assert(tail.take(1) =~= seq![v.dims[dim]]);
    assert(count(tail.take(1)) == d) by {
        crate::shape::count_small(v.dims[dim], 0, 0, 0, 0);
    }
    assert(v.words.len() == d * inner) by (nonlinear_arith)
        requires
            v.words.len() == count(v.dims),
            count(v.dims) == 1 * count(tail),
            count(tail) == d * inner,
    ;
    assert(0 <= start * inner <= (start + n) * inner <= d * inner) by (nonlinear_arith)
        requires
            0 <= start,
            0 <= n,
            start + n <= d,
            0 <= inner,
    ;
    let w = narrowed(v, dim, start, len);
    assert(w.words.len() == block) by (nonlinear_arith)
        requires
            w.words.len() == 1nat * (len as nat) * (inner as nat),
            block == len * inner,
            inner >= 0,
    ;
    assert((start + n) * inner - start * inner == block) by (nonlinear_arith)
        requires
            block == n * inner,
    ;
    let run = v.words.subrange(start * inner, (start + n) * inner);
    assert forall|i: int| 0 <= i < block implies w.words[i] == run[i] by {
        assert(i / block == 0 && i % block == i) by (nonlinear_arith)
            requires
                0 <= i < block,
        ;
        assert((0 * d + start) * inner + i == start * inner + i) by (nonlinear_arith);
    }
    assert(w.words =~= run);
    // As many elements as the new dimensions say.
    let e = v.dims.update(dim, len);
    count_split(e, dim);
    assert(e.take(dim) =~= v.dims.take(dim));
    let et = e.skip(dim);
    count_split(et, 1);
    assert(et.skip(1) =~= v.dims.skip(dim + 1));
    assert(et.take(1) =~= seq![len]);
    assert(count(et.take(1)) == n) by {
        crate::shape::count_small(len, 0, 0, 0, 0);
    }
    assert(count(e) == block) by (nonlinear_arith)
        requires
            count(e) == 1 * count(et),
            count(et) == n * inner,
            block == n * inner,
    ;
}

/// Parts put side by side along a dimension before which there is only one index follow one
/// another.
pub proof fn join_is_chain(parts: Seq<TensorView>, dim: int)
    requires
        parts.len() > 0,
        0 <= dim,
        forall|i: int|
            0 <= i < parts.len() ==> {
                &&& dim < (#[trigger] parts[i]).dims.len()
                &&& consistent(parts[i])
                &&& count(parts[i].dims.take(dim)) == 1
            },
    ensures
        joined(parts, dim).words == chained(parts),
{
    slab_is_chain(parts, dim);
    assert(joined_words(parts, dim, 0) =~= Seq::empty());
    assert(joined_words(parts, dim, 1) =~= joined_slab(parts, dim, 0));
    assert(parts[0].dims.len() > dim);
}

proof fn slab_is_chain(parts: Seq<TensorView>, dim: int)
    requires
        0 <= dim,
        forall|i: int|
            0 <= i < parts.len() ==> {
                &&& dim < (#[trigger] parts[i]).dims.len()
                &&& consistent(parts[i])
                &&& count(parts[i].dims.take(dim)) == 1
            },
    ensures
        joined_slab(parts, dim, 0) == chained(parts),
    decreases parts.len(),
{
    if parts.len() > 0 {
        let front = parts.drop_last();
        assert forall|i: int| 0 <= i < front.len() implies {
            &&& dim < (#[trigger] front[i]).dims.len()
            &&& consistent(front[i])
            &&& count(front[i].dims.take(dim)) == 1
        } by {
            assert(front[i] == parts[i]);
        }
        slab_is_chain(front, dim);
        let last = parts.last();
        assert(last == parts[parts.len() - 1]);
        count_split(last.dims, dim);
        let block = count(last.dims.skip(dim)) as int;
        assert(last.words.len() == block) by (nonlinear_arith)
            requires
                last.words.len() == 1 * block,
        ;
        assert(0 * block == 0 && (0 + 1) * block == block) by (nonlinear_arith);
        assert(last.words.subrange(0, block) =~= last.words);
    }
}

/// Two parts follow one another.
pub proof fn chain_of_two(a: TensorView, b: TensorView)
    ensures
        chained(seq![a, b]) == a.words + b.words,
{
    let one = seq![a];
    assert(seq![a, b].drop_last() =~= one);
    assert(one.drop_last() =~= Seq::<TensorView>::empty());
    assert(chained(Seq::<TensorView>::empty()) =~= Seq::<u32>::empty());
    assert(chained(one) =~= a.words);
}

/// Sizes of two parts along a dimension.
pub proof fn total_of_two(a: TensorView, b: TensorView, dim: int)
    ensures
        total_along(seq![a, b], dim) == a.dims[dim] + b.dims[dim],
{
    let one = seq![a];
    assert(seq![a, b].drop_last() =~= one);
    assert(one.drop_last() =~= Seq::<TensorView>::empty());
    assert(total_along(Seq::<TensorView>::empty(), dim) == 0);
    assert(total_along(one, dim) == a.dims[dim]);
}

/// Parts of one size along a dimension: their sizes together.
pub proof fn total_of_even(parts: Seq<TensorView>, dim: int, size: usize)
    requires
        forall|i: int| 0 <= i < parts.len() ==> (#[trigger] parts[i]).dims[dim] == size,
    ensures
        total_along(parts, dim) == parts.len() * size,
    decreases parts.len(),
{
    if parts.len() > 0 {
        let front = parts.drop_last();
        assert forall|i: int| 0 <= i < front.len() implies (#[trigger] front[i]).dims[dim]
            == size by {
            assert(front[i] == parts[i]);
        }
        total_of_even(front, dim, size);
        assert(parts.last() == parts[parts.len() - 1]);
        assert((front.len() + 1) * size == front.len() * size + size) by (nonlinear_arith);
    } else {
        assert(0 * size == 0) by (nonlinear_arith);
    }
}

/// Parts of `width` elements each are the rows of what they make one after the other.
pub proof fn chain_rows(parts: Seq<TensorView>, width: int)
    requires
        width >= 0,
        forall|i: int| 0 <= i < parts.len() ==> (#[trigger] parts[i]).words.len() == width,
    ensures
        chained(parts).len() == parts.len() * width,
        forall|i: int|
            0 <= i < parts.len() ==> row(chained(parts), i, width) == (#[trigger] parts[i]).words,
    decreases parts.len(),
{
    if parts.len() > 0 {
        let front = parts.drop_last();
        let n = front.len() as int;
        assert forall|i: int| 0 <= i < front.len() implies (#[trigger] front[i]).words.len()
            == width by {
            assert(front[i] == parts[i]);
        }
        chain_rows(front, width);
        assert(parts.last() == parts[n]);
        assert((n + 1) * width == n * width + width) by (nonlinear_arith);
        assert forall|i: int| 0 <= i < parts.len() implies row(chained(parts), i, width) == (
        #[trigger] parts[i]).words by {
            assert((i + 1) * width == i * width + width) by (nonlinear_arith);
            if i < n {
                assert(front[i] == parts[i]);
                assert(row(chained(front), i, width) == front[i].words);
                assert(0 <= i * width && (i + 1) * width <= n * width) by (nonlinear_arith)
                    requires
                        0 <= i < n,
                        width >= 0,
                ;
                assert(row(chained(parts), i, width) =~= row(chained(front), i, width));
            } else {
                assert(row(chained(parts), i, width) =~= parts.last().words);
            }
        }
    } else {
        assert(0 * width == 0) by (nonlinear_arith);
    }
}

/// Splitting an element count at a dimension and after it.
pub proof fn count_around(dims: Seq<usize>, dim: int)
    requires
        0 <= dim < dims.len(),
    ensures
        count(dims) == count(dims.take(dim)) * dims[dim] * count(dims.skip(dim + 1)),
        count(dims.skip(dim)) == dims[dim] * count(dims.skip(dim + 1)),
{
    count_split(dims, dim);
    let tail = dims.skip(dim);
    count_split(tail, 1);
    assert(tail.skip(1) =~= dims.skip(dim + 1));
    assert(tail.take(1) =~= seq![dims[dim]]);
    crate::shape::count_small(dims[dim], 0, 0, 0, 0);
    let a = count(dims.take(dim)) as int;
    let d = dims[dim] as int;
    let c = count(dims.skip(dim + 1)) as int;
    assert(a * (d * c) == a * d * c) by (nonlinear_arith);
}

/// The part along a dimension that is all of it changes nothing.
pub proof fn narrow_to_all(v: TensorView, dim: int)
    requires
        consistent(v),
        0 <= dim < v.dims.len(),
    ensures
        narrowed(v, dim, 0, v.dims[dim]) == v,
{
    let w = narrowed(v, dim, 0, v.dims[dim]);
    count_around(v.dims, dim);
    let d = v.dims[dim] as int;
    let inner = count(v.dims.skip(dim + 1)) as int;
    let block = d * inner;
    assert(w.dims =~= v.dims);
    assert forall|i: int| 0 <= i < v.words.len() implies w.words[i] == v.words[i] by {
        let outer = count(v.dims.take(dim)) as int;
        assert(block > 0) by (nonlinear_arith)
            requires
                0 <= i < outer * d * inner,
                block == d * inner,
                d >= 0,
                inner >= 0,
        ;
        assert(((i / block) * d + 0) * inner + i % block == i) by (nonlinear_arith)
            requires
                block == d * inner,
                block > 0,
        ;
    }
    assert(w.words =~= v.words);
}

/// A part of a part along the same dimension.
pub proof fn narrow_of_narrow(v: TensorView, dim: int, start: int, len: usize, at: int, n: usize)
    requires
        0 <= dim < v.dims.len(),
        0 <= start,
        start + len <= v.dims[dim],
        0 <= at,
        at + n <= len,
    ensures
        narrowed(narrowed(v, dim, start, len), dim, at, n) == narrowed(v, dim, start + at, n),
{
    let w = narrowed(v, dim, start, len);
    let a = narrowed(w, dim, at, n);
    let b = narrowed(v, dim, start + at, n);
    let outer = count(v.dims.take(dim)) as int;
    let inner = count(v.dims.skip(dim + 1)) as int;
    let d = v.dims[dim] as int;
    let m = len as int;
    assert(w.dims.take(dim) =~= v.dims.take(dim));
    assert(w.dims.skip(dim + 1) =~= v.dims.skip(dim + 1));
    assert(a.dims =~= b.dims);
    assert forall|i: int| 0 <= i < a.words.len() implies a.words[i] == b.words[i] by {
        let block = n * inner;
        assert(block > 0) by (nonlinear_arith)
            requires
                0 <= i < outer * n * inner,
                block == n * inner,
                n >= 0,
                inner >= 0,
                outer >= 0,
        ;
        let o = i / block;
        let r = i % block;
        assert(0 <= o < outer && 0 <= r < block) by (nonlinear_arith)
            requires
                0 <= i < outer * n * inner,
                block == n * inner,
                block > 0,
                o == i / block,
                r == i % block,
        ;
        let j = (o * m + at) * inner + r;
        let wide = m * inner;
        let off = at * inner + r;
        assert(0 <= off < wide && wide > 0) by (nonlinear_arith)
            requires
                off == at * inner + r,
                0 <= r < n * inner,
                0 <= at,
                at + n <= m,
                0 <= inner,
                wide == m * inner,
        ;
        assert(j == o * wide + off) by (nonlinear_arith)
            requires
                j == (o * m + at) * inner + r,
                wide == m * inner,
                off == at * inner + r,
        ;
        assert(j / wide == o && j % wide == off) by (nonlinear_arith)
            requires
                j == o * wide + off,
                0 <= off < wide,
        ;
        assert(0 <= j < outer * m * inner) by (nonlinear_arith)
            requires
                j == o * wide + off,
                0 <= off < wide,
                0 <= o < outer,
                wide == m * inner,
        ;
        assert((o * d + start) * inner + off == (o * d + (start + at)) * inner + r) by (
        nonlinear_arith)
            requires
                off == at * inner + r,
        ;
        assert(a.words[i] == w.words[j]);
        assert(w.words[j] == v.words[(o * d + start) * inner + off]);
    }
    assert(a.words =~= b.words);
}

/// Elements of a slab of parts that have one index along the dimension.
proof fn slab_of_units(parts: Seq<TensorView>, dim: int, dims: Seq<usize>, o: int)
    requires
        0 <= dim < dims.len(),
        dims[dim] == 1,
        forall|i: int|
            0 <= i < parts.len() ==> (#[trigger] parts[i]).dims == dims && consistent(parts[i]),
        0 <= o < count(dims.take(dim)),
    ensures
        ({
            let inner = count(dims.skip(dim + 1)) as int;
            &&& joined_slab(parts, dim, o).len() == parts.len() * inner
            &&& forall|t: int, i: int|
                #![trigger joined_slab(parts, dim, o)[t * inner + i]]
                0 <= t < parts.len() && 0 <= i < inner ==> joined_slab(parts, dim, o)[t * inner + i]
                    == parts[t].words[o * inner + i]
        }),
    decreases parts.len(),
{
    let inner = count(dims.skip(dim + 1)) as int;
    let slab = joined_slab(parts, dim, o);
    if parts.len() > 0 {
        let front = parts.drop_last();
        let n = front.len() as int;
        let last = parts.last();
        assert(last == parts[n]);
        assert forall|i: int| 0 <= i < front.len() implies (#[trigger] front[i]).dims == dims
            && consistent(front[i]) by {
            assert(front[i] == parts[i]);
        }
        slab_of_units(front, dim, dims, o);
        count_around(dims, dim);
        let block = count(last.dims.skip(dim)) as int;
        let outer = count(dims.take(dim)) as int;
        assert(block == inner) by (nonlinear_arith)
            requires
                block == 1 * inner,
        ;
        assert(0 <= o * block && (o + 1) * block == o * block + block && (o + 1) * block <= outer
            * 1 * inner) by (nonlinear_arith)
            requires
                0 <= o < outer,
                block == inner,
                inner >= 0,
        ;
        assert((n + 1) * inner == n * inner + inner) by (nonlinear_arith);
        assert forall|t: int, i: int|
            #![trigger slab[t * inner + i]]
            0 <= t < parts.len() && 0 <= i < inner implies slab[t * inner + i]
            == parts[t].words[o * inner + i] by {
            assert(0 <= t * inner) by (nonlinear_arith)
                requires
                    0 <= t,
                    0 <= inner,
            ;
            if t < n {
                assert(t * inner + i < n * inner) by (nonlinear_arith)
                    requires
                        t < n,
                        i < inner,
                        0 <= inner,
                ;
                assert(front[t] == parts[t]);
                assert(slab[t * inner + i] == joined_slab(front, dim, o)[t * inner + i]);
            }
        }
    } else {
        assert(0 * inner == 0) by (nonlinear_arith);
    }
}

/// Elements of the first slabs of parts that have one index along the dimension.
proof fn words_of_units(parts: Seq<TensorView>, dim: int, dims: Seq<usize>, outer: nat)
    requires
        0 <= dim < dims.len(),
        dims[dim] == 1,
        forall|i: int|
            0 <= i < parts.len() ==> (#[trigger] parts[i]).dims == dims && consistent(parts[i]),
        outer <= count(dims.take(dim)),
    ensures
        ({
            let inner = count(dims.skip(dim + 1)) as int;
            let n = parts.len() as int;
            &&& joined_words(parts, dim, outer).len() == outer * (n * inner)
            &&& forall|o: int, t: int, i: int|
                #![trigger joined_words(parts, dim, outer)[o * (n * inner) + (t * inner + i)]]
                0 <= o < outer && 0 <= t < n && 0 <= i < inner ==> joined_words(parts, dim, outer)[o
                    * (n * inner) + (t * inner + i)] == parts[t].words[o * inner + i]
        }),
    decreases outer,
{
    let inner = count(dims.skip(dim + 1)) as int;
    let n = parts.len() as int;
    let wide = n * inner;
    let all = joined_words(parts, dim, outer);
    if outer > 0 {
        let less = (outer - 1) as nat;
        words_of_units(parts, dim, dims, less);
        slab_of_units(parts, dim, dims, less as int);
        assert((less + 1) * wide == less * wide + wide) by (nonlinear_arith);
        assert forall|o: int, t: int, i: int|
            #![trigger all[o * (n * inner) + (t * inner + i)]]
            0 <= o < outer && 0 <= t < n && 0 <= i < inner implies all[o * (n * inner) + (t * inner
            + i)] == parts[t].words[o * inner + i] by {
            let j = t * inner + i;
            assert(0 <= j < wide) by (nonlinear_arith)
                requires
                    j == t * inner + i,
                    0 <= t < n,
                    0 <= i < inner,
                    wide == n * inner,
            ;
            assert(0 <= o * wide) by (nonlinear_arith)
                requires
                    0 <= o,
                    0 <= wide,
            ;
            if o < less {
                assert(o * wide + j < less * wide) by (nonlinear_arith)
                    requires
                        o < less,
                        j < wide,
                        0 <= wide,
                ;
                assert(all[o * wide + j] == joined_words(parts, dim, less)[o * wide + j]);
            } else {
                assert(all[o * wide + j] == joined_slab(parts, dim, less as int)[j]);
            }
        }
    } else {
        assert(0 * wide == 0) by (nonlinear_arith);
    }
}

/// Parts with one index along a dimension are found again in what they make side by side.
pub proof fn join_of_units(parts: Seq<TensorView>, dim: int, dims: Seq<usize>, t: int)
    requires
        0 <= dim < dims.len(),
        dims[dim] == 1,
        forall|i: int|
            0 <= i < parts.len() ==> (#[trigger] parts[i]).dims == dims && consistent(parts[i]),
        0 <= t < parts.len() <= usize::MAX,
    ensures
        narrowed(joined(parts, dim), dim, t, 1) == parts[t],
        joined(parts, dim).dims == dims.update(dim, parts.len() as usize),
        consistent(joined(parts, dim)),
{
    let whole = joined(parts, dim);
    let n = parts.len() as int;
    let inner = count(dims.skip(dim + 1)) as int;
    let outer = count(dims.take(dim)) as int;
    let wide = n * inner;
    total_of_even(parts, dim, 1);
    assert(n * 1 == n) by (nonlinear_arith);
    assert(parts[0].dims == dims);
    assert(whole.dims == dims.update(dim, n as usize));
    words_of_units(parts, dim, dims, outer as nat);
    assert(whole.dims.take(dim) =~= dims.take(dim));
    assert(whole.dims.skip(dim + 1) =~= dims.skip(dim + 1));
    count_around(whole.dims, dim);
    assert(outer * wide == outer * n * inner) by (nonlinear_arith)
        requires
            wide == n * inner,
    ;
    let found = narrowed(whole, dim, t, 1);
    let part = parts[t];
    assert(found.dims =~= part.dims);
    count_around(dims, dim);
    let block = (1usize * inner) as int;
    assert(block == inner);
    assert forall|j: int| 0 <= j < found.words.len() implies found.words[j] == part.words[j] by {
        assert(inner > 0) by (nonlinear_arith)
            requires
                0 <= j < outer * 1 * inner,
                0 <= inner,
                0 <= outer,
        ;
        let o = j / inner;
        let i = j % inner;
        assert(0 <= o < outer && 0 <= i < inner && j == o * inner + i) by (nonlinear_arith)
            requires
                0 <= j < outer * 1 * inner,
                inner > 0,
                o == j / inner,
                i == j % inner,
        ;
        assert((o * n + t) * inner + i == o * (n * inner) + (t * inner + i)) by (nonlinear_arith);
        assert(found.words[j] == whole.words[(o * n + t) * inner + i]);
        assert(whole.words == joined_words(parts, dim, outer as nat));
        assert(joined_words(parts, dim, outer as nat)[o * (n * inner) + (t * inner + i)]
            == part.words[o * inner + i]);
    }
    assert(found.words =~= part.words);
}

/// Where an element goes when two dimensions are exchanged.
proof fn swap_parts(p: int, outer: int, a: int, b: int, inner: int)
    requires
        0 <= p < outer * b * a * inner,
        0 <= outer,
        0 <= a,
        0 <= b,
        0 <= inner,
    ensures
        ({
            let rest = p % inner;
            let i = (p / inner) % a;
            let j = (p / inner / a) % b;
            let o = p / inner / a / b;
            &&& inner > 0 && a > 0 && b > 0
            &&& 0 <= rest < inner && 0 <= i < a && 0 <= j < b && 0 <= o < outer
            &&& p == ((o * b + j) * a + i) * inner + rest
            &&& 0 <= ((o * a + i) * b + j) * inner + rest < outer * a * b * inner
        }),
{
    let n = outer * b * a;
    assert(inner > 0) by (nonlinear_arith)
        requires
            0 <= p < n * inner,
            0 <= inner,
    ;
    let rest = p % inner;
    let x = p / inner;
    assert(0 <= rest < inner && p == x * inner + rest && 0 <= x < n) by (nonlinear_arith)
        requires
            inner > 0,
            rest == p % inner,
            x == p / inner,
            0 <= p < n * inner,
    ;
    let m = outer * b;
    assert(a > 0) by (nonlinear_arith)
        requires
            0 <= x < m * a,
            0 <= a,
    ;
    let i = x % a;
    let y = x / a;
    assert(0 <= i < a && x == y * a + i && 0 <= y < m) by (nonlinear_arith)
        requires
            a > 0,
            i == x % a,
            y == x / a,
            0 <= x < m * a,
    ;
    assert(b > 0) by (nonlinear_arith)
        requires
            0 <= y < outer * b,
            0 <= b,
    ;
    let j = y % b;
    let o = y / b;
    assert(0 <= j < b && y == o * b + j && 0 <= o < outer) by (nonlinear_arith)
        requires
            b > 0,
            j == y % b,
            o == y / b,
            0 <= y < outer * b,
    ;
    let z = (o * a + i) * b + j;
    assert(0 <= z < outer * a * b) by (nonlinear_arith)
        requires
            z == (o * a + i) * b + j,
            0 <= o < outer,
            0 <= i < a,
            0 <= j < b,
    ;
    assert(0 <= z * inner + rest < outer * a * b * inner) by (nonlinear_arith)
        requires
            0 <= z < outer * a * b,
            0 <= rest < inner,
    ;
}

/// Sizes around two neighbouring dimensions.
proof fn count_around_two(dims: Seq<usize>, dim: int)
    requires
        0 <= dim,
        dim + 1 < dims.len(),
    ensures
        count(dims) == count(dims.take(dim)) * dims[dim] * dims[dim + 1] * count(
            dims.skip(dim + 2),
        ),
{
    count_around(dims, dim);
    let tail = dims.skip(dim + 1);
    count_around(tail, 0);
    assert(tail.skip(1) =~= dims.skip(dim + 2));
    assert(tail.skip(0) =~= tail);
    let o = count(dims.take(dim)) as int;
    let a = dims[dim] as int;
    let b = dims[dim + 1] as int;
    let c = count(dims.skip(dim + 2)) as int;
    assert(o * a * (b * c) == o * a * b * c) by (nonlinear_arith);
}

/// Exchanging two dimensions leaves as many elements, and exchanging them again changes nothing.
pub proof fn swap_twice(v: TensorView, dim: int)
    requires
        consistent(v),
        0 <= dim,
        dim + 1 < v.dims.len(),
    ensures
        consistent(swapped(v, dim)),
        swapped(swapped(v, dim), dim) == v,
{
    let w = swapped(v, dim);
    let u = swapped(w, dim);
    let a = v.dims[dim] as int;
    let b = v.dims[dim + 1] as int;
    let outer = count(v.dims.take(dim)) as int;
    let inner = count(v.dims.skip(dim + 2)) as int;
    assert(w.dims.take(dim) =~= v.dims.take(dim));
    assert(w.dims.skip(dim + 2) =~= v.dims.skip(dim + 2));
    assert(w.dims[dim] == b && w.dims[dim + 1] == a);
    count_around_two(v.dims, dim);
    count_around_two(w.dims, dim);
    assert(outer * a * b * inner == outer * b * a * inner) by (nonlinear_arith);
    assert(u.dims =~= v.dims);
    assert forall|p: int| 0 <= p < v.words.len() implies u.words[p] == v.words[p] by {
        // In `w` the sizes stand the other way round.
        swap_parts(p, outer, b, a, inner);
        let rest = p % inner;
        let i = (p / inner) % b;
        let j = (p / inner / b) % a;
        let o = p / inner / b / a;
        let q = ((o * b + i) * a + j) * inner + rest;
        assert(u.words[p] == w.words[q]);
        swap_back(o, i, j, rest, a, b, inner);
        assert(w.words[q] == v.words[((o * a + j) * b + i) * inner + rest]);
    }
    assert(u.words =~= v.words);
}

/// The indices of an element are found again in its place.
pub proof fn swap_back(o: int, j: int, i: int, rest: int, a: int, b: int, inner: int)
    requires
        0 <= o,
        0 <= i < a,
        0 <= j < b,
        0 <= rest < inner,
    ensures
        ({
            let q = ((o * b + j) * a + i) * inner + rest;
            &&& q % inner == rest
            &&& (q / inner) % a == i
            &&& (q / inner / a) % b == j
            &&& q / inner / a / b == o
        }),
{
    let z = o * b + j;
    let y = z * a + i;
    let q = y * inner + rest;
    assert(q % inner == rest && q / inner == y) by (nonlinear_arith)
        requires
            q == y * inner + rest,
            0 <= rest < inner,
    ;
    assert(y % a == i && y / a == z) by (nonlinear_arith)
        requires
            y == z * a + i,
            0 <= i < a,
    ;
    assert(z % b == j && z / b == o) by (nonlinear_arith)
        requires
            z == o * b + j,
            0 <= j < b,
    ;
}

/// Exchanging a dimension of one with the next moves no element.
pub proof fn swap_one(v: TensorView, dim: int)
    requires
        consistent(v),
        0 <= dim,
        dim + 1 < v.dims.len(),
        v.dims[dim] == 1,
    ensures
        swapped(v, dim).words == v.words,
{
    let w = swapped(v, dim);
    let b = v.dims[dim + 1] as int;
    let outer = count(v.dims.take(dim)) as int;
    let inner = count(v.dims.skip(dim + 2)) as int;
    count_around_two(v.dims, dim);
    assert(outer * 1 * b * inner == outer * b * 1 * inner) by (nonlinear_arith);
    assert forall|p: int| 0 <= p < v.words.len() implies w.words[p] == v.words[p] by {
        swap_parts(p, outer, 1, b, inner);
        let rest = p % inner;
        let i = (p / inner) % 1;
        let j = (p / inner / 1) % b;
        let o = p / inner / 1 / b;
        assert(((o * 1 + i) * b + j) * inner + rest == ((o * b + j) * 1 + i) * inner + rest) by (
        nonlinear_arith)
            requires
                i == 0,
        ;
    }
    assert(w.words =~= v.words);
}

} // verus!
