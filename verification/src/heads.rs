//! What attention layers have attention work on: projections of the input, cut into heads, of which
//! queries and keys are turned by their positions and values are not.
use candle_core::{DType, Tensor};
use vstd::prelude::*;

use crate::attention::{head_view, is_cast, unturned, AttentionWeights};
use crate::backend::{
    appends, attends, masks, pages, places, projects, turns, AttentionKernels, QuantMethod,
};
use crate::rows::swap_back;
use crate::shape::{consistent, count, count_small, reshaped, swapped, TensorView};
use crate::tensor::{
    cast_of, cast_outcome, dtype_is_f32, tensor_dims, tensor_dtype, tensor_is_f32, tensor_words,
    view_of,
};

verus! {

/// The element at these indices of a tensor of three dimensions.
pub open spec fn at3(v: TensorView, i: int, j: int, k: int) -> u32 {
    v.words[(i * v.dims[1] + j) * v.dims[2] + k]
}

/// The element at these indices of a tensor of four dimensions.
pub open spec fn at4(v: TensorView, i: int, j: int, k: int, l: int) -> u32 {
    v.words[((i * v.dims[1] + j) * v.dims[2] + k) * v.dims[3] + l]
}

/// These are indices of a tensor of four dimensions.
pub open spec fn within4(dims: Seq<usize>, i: int, j: int, k: int, l: int) -> bool {
    &&& 0 <= i < dims[0]
    &&& 0 <= j < dims[1]
    &&& 0 <= k < dims[2]
    &&& 0 <= l < dims[3]
}

/// `r` is the element `e` in the element type `dtype`.
pub open spec fn becomes(e: u32, dtype: DType, r: u32) -> bool {
    cast_of(e, dtype, r) && (dtype_is_f32(dtype) ==> r == e)
}

/// Indices name an element.
proof fn index_within4(v: TensorView, i: int, j: int, k: int, l: int)
    requires
        v.dims.len() == 4,
        consistent(v),
        within4(v.dims, i, j, k, l),
    ensures
        0 <= ((i * v.dims[1] + j) * v.dims[2] + k) * v.dims[3] + l < v.words.len(),
{
    let (a, b, c, d) = (v.dims[0] as int, v.dims[1] as int, v.dims[2] as int, v.dims[3] as int);
    assert(v.dims =~= seq![v.dims[0], v.dims[1], v.dims[2], v.dims[3]]);
    count_small(v.dims[0], v.dims[1], v.dims[2], v.dims[3], 0);
    let x = i * b + j;
    assert(0 <= x < a * b) by (nonlinear_arith)
        requires
            x == i * b + j,
            0 <= i < a,
            0 <= j < b,
    ;
    let y = x * c + k;
    assert(0 <= y < a * b * c) by (nonlinear_arith)
        requires
            y == x * c + k,
            0 <= x < a * b,
            0 <= k < c,
    ;
    let z = y * d + l;
    assert(0 <= z < a * b * c * d) by (nonlinear_arith)
        requires
            z == y * d + l,
            0 <= y < a * b * c,
            0 <= l < d,
    ;
}

/// Exchanging the two dimensions in the middle exchanges the indices.
proof fn swap_moves(v: TensorView, i: int, j: int, k: int, l: int)
    requires
        v.dims.len() == 4,
        consistent(v),
        consistent(swapped(v, 1)),
        within4(swapped(v, 1).dims, i, j, k, l),
    ensures
        at4(swapped(v, 1), i, j, k, l) == at4(v, i, k, j, l),
{
    let w = swapped(v, 1);
    let (a, b, inner) = (v.dims[1] as int, v.dims[2] as int, v.dims[3] as int);
    assert(v.dims.skip(3) =~= seq![v.dims[3]]);
    count_small(v.dims[3], 0, 0, 0, 0);
    assert(w.dims[1] == b && w.dims[2] == a && w.dims[3] == inner && w.dims[0] == v.dims[0]);
    index_within4(w, i, j, k, l);
    swap_back(i, j, k, l, a, b, inner);
    let p = ((i * b + j) * a + k) * inner + l;
    assert(w.words[p] == v.words[((i * a + k) * b + j) * inner + l]);
}

/// A vector of a head stands at a position as one part of all that stands there.
proof fn part_of_position(
    v: TensorView,
    flat: TensorView,
    i: int,
    p: int,
    h: int,
    l: int,
)
    requires
        v.dims.len() == 4,
        flat.dims.len() == 3,
        flat.words == v.words,
        flat.dims[1] == v.dims[1],
        flat.dims[2] == v.dims[2] * v.dims[3],
    ensures
        at4(v, i, p, h, l) == at3(flat, i, p, h * v.dims[3] + l),
{
    let (n, heads, size) = (v.dims[1] as int, v.dims[2] as int, v.dims[3] as int);
    let x = i * n + p;
    assert((x * heads + h) * size + l == x * (heads * size) + (h * size + l)) by (nonlinear_arith);
}

/// `t` holds vectors of `heads` heads, of size `size`, for `len` positions of `batch` items.
pub open spec fn is_heads(t: TensorView, batch: usize, heads: usize, len: usize, size: usize) -> bool {
    t.dims == seq![batch, heads, len, size] && consistent(t)
}

/// The kernels turn queries as `turn_q` says and keys as `turn_k` says, by the positions that follow
/// on `start_offsets`.
pub open spec fn turns_by<K: AttentionKernels>(
    kernels: K,
    start_offsets: &[usize],
    len: usize,
    turn_q: spec_fn(TensorView) -> TensorView,
    turn_k: spec_fn(TensorView) -> TensorView,
) -> bool {
    forall|like: Tensor, q0: Tensor, k0: Tensor, at: Tensor, q1: Tensor, k1: Tensor|
        #![trigger places(kernels, start_offsets, len, like, at), turns(
            kernels, q0, k0, at, q1, k1,
        )]
        places(kernels, start_offsets, len, like, at) && turns(kernels, q0, k0, at, q1, k1) ==> {
            &&& view_of(q1) == turn_q(view_of(q0))
            &&& view_of(k1) == turn_k(view_of(k0))
            &&& tensor_dims(q1) == tensor_dims(q0)
            &&& tensor_dims(k1) == tensor_dims(k0)
        }
}

/// What attention gives for queries, keys and values at an item, a head, a position and an index,
/// and what the cache becomes. Heads come first under a mask that was made for the call.
pub open spec fn attends_by<K: AttentionKernels>(
    kernels: K,
    paged: bool,
    paging: Option<&K::Paging>,
    mask: K::Mask,
    custom: bool,
    cache0: K::Cache,
    attend: spec_fn(TensorView, TensorView, TensorView, int, int, int, int) -> u32,
    take_in: spec_fn(TensorView, TensorView) -> K::Cache,
) -> bool {
    &&& forall|c: bool| #[trigger] masks(kernels, mask, c) ==> c == custom
    &&& paged ==> paging is Some && forall|q: Tensor, k: Tensor, v: Tensor, y: Tensor| #[trigger]
        pages(kernels, q, k, v, mask, *paging->0, y) ==> gives(
            attend,
            custom,
            view_of(q),
            view_of(k),
            view_of(v),
            view_of(y),
        )
    &&& !paged ==> forall|
        q: Tensor,
        k: Tensor,
        v: Tensor,
        c1: K::Cache,
        k1: Tensor,
        v1: Tensor,
        y: Tensor,
    |
        #![trigger appends(kernels, cache0, k, v, c1, k1, v1), attends(
            kernels, q, k1, v1, mask, y,
        )]
        appends(kernels, cache0, k, v, c1, k1, v1) && attends(kernels, q, k1, v1, mask, y) ==> {
            &&& c1 == take_in(view_of(k), view_of(v))
            &&& gives(attend, custom, view_of(q), view_of(k), view_of(v), view_of(y))
        }
}

/// `y` holds what `attend` gives for queries, keys and values.
pub open spec fn gives(
    attend: spec_fn(TensorView, TensorView, TensorView, int, int, int, int) -> u32,
    custom: bool,
    q: TensorView,
    k: TensorView,
    v: TensorView,
    y: TensorView,
) -> bool {
    &&& consistent(y)
    &&& y.dims == (if custom {
        q.dims
    } else {
        seq![q.dims[0], q.dims[2], q.dims[1], q.dims[3]]
    })
    &&& forall|b: int, h: int, p: int, i: int|
        within4(q.dims, b, h, p, i) ==> (if custom {
            at4(y, b, h, p, i)
        } else {
            at4(y, b, p, h, i)
        }) == #[trigger] attend(q, k, v, b, h, p, i)
}

/// Whatever the weight makes of `x` has a last dimension of `to`.
pub open spec fn widens<Q: QuantMethod>(w: Q, x: Tensor, to: int) -> bool {
    forall|y: Tensor| #[trigger]
        projects(w, x, y) ==> {
            &&& tensor_dims(y).len() == 3
            &&& tensor_dims(y)[0] == tensor_dims(x)[0]
            &&& tensor_dims(y)[1] == tensor_dims(x)[1]
            &&& tensor_dims(y)[2] == to
            &&& consistent(view_of(y))
        }
}

/// `t` holds the heads of the projection `p`: what stands at an index of a head, at a position, is
/// what the projection has there, one head after the other.
pub open spec fn holds_heads(p: TensorView, heads: usize, size: usize, t: TensorView) -> bool {
    &&& is_heads(t, p.dims[0], heads, p.dims[1], size)
    &&& forall|b: int, h: int, n: int, i: int|
        within4(t.dims, b, h, n, i) ==> #[trigger] at4(t, b, h, n, i) == at3(
            p,
            b,
            n,
            h * size + i,
        )
}

/// `u` holds the elements of `t` in the element type `dtype`.
pub open spec fn is_brought(t: TensorView, dtype: DType, u: TensorView) -> bool {
    &&& u.dims == t.dims
    &&& consistent(u)
    &&& forall|i: int| 0 <= i < u.words.len() ==> becomes(t.words[i], dtype, #[trigger] u.words[i])
}

/// What is projected and cut into heads holds the heads of the projection.
proof fn cut_holds_heads(
    p: TensorView,
    heads: usize,
    size: usize,
    cut: TensorView,
    b: int,
    h: int,
    n: int,
    i: int,
)
    requires
        p.dims.len() == 3,
        p.dims[2] == heads * size,
        consistent(p),
        cut == head_view(p, seq![p.dims[0], p.dims[1], heads, size]),
    ensures
        is_heads(cut, p.dims[0], heads, p.dims[1], size),
        within4(cut.dims, b, h, n, i) ==> at4(cut, b, h, n, i) == at3(p, b, n, h * size + i),
{
    let (items, len) = (p.dims[0], p.dims[1]);
    let v = reshaped(p, seq![items, len, heads, size]);
    count_small(items, len, heads, size, 0);
    count_small(items, heads, len, size, 0);
    assert(p.dims =~= seq![items, len, p.dims[2]]);
    count_small(items, len, p.dims[2], 0, 0);
    assert(items * len * (heads * size) == items * len * heads * size && items * len * heads * size
        == items * heads * len * size) by (nonlinear_arith);
    assert(cut.dims =~= seq![items, heads, len, size]);
    assert(cut.words.len() == v.words.len());
    assert(cut == swapped(v, 1));
    if within4(cut.dims, b, h, n, i) {
        swap_moves(v, b, h, n, i);
        part_of_position(v, p, b, n, h, i);
    }
}

/// What stands at a position of what is projected last is what attention gave there, one head after
/// the other.
proof fn merged_elements(
    custom: bool,
    batch: usize,
    heads: usize,
    len: usize,
    size: usize,
    y: TensorView,
    z: TensorView,
    b: int,
    h: int,
    p: int,
    i: int,
)
    requires
        heads * size <= usize::MAX,
        consistent(y),
        y.dims == (if custom {
            seq![batch, heads, len, size]
        } else {
            seq![batch, len, heads, size]
        }),
        z.dims == seq![batch, len, (heads * size) as usize],
        z.words == unturned(y, custom).words,
        within4(seq![batch, heads, len, size], b, h, p, i),
    ensures
        at3(z, b, p, h * size + i) == (if custom {
            at4(y, b, h, p, i)
        } else {
            at4(y, b, p, h, i)
        }),
{
    let w = unturned(y, custom);
    count_small(batch, heads, len, size, 0);
    count_small(batch, len, heads, size, 0);
    assert(batch * heads * len * size == batch * len * heads * size) by (nonlinear_arith);
    assert(w.dims =~= seq![batch, len, heads, size]);
    if custom {
        swap_moves(y, b, p, h, i);
    }
    part_of_position(w, z, b, p, h, i);
}

/// How wide a position is of what attention gave.
proof fn merged_width(custom: bool, batch: usize, heads: usize, len: usize, size: usize)
    requires
        batch > 0,
        len > 0,
    ensures
        count(
            if custom {
                seq![batch, heads, len, size]
            } else {
                seq![batch, len, heads, size]
            },
        ) / ((batch * len) as nat) == heads * size,
{
    count_small(batch, heads, len, size, 0);
    count_small(batch, len, heads, size, 0);
    let n = batch * len;
    let w = heads * size;
    assert(n > 0 && batch * heads * len * size == w * n && batch * len * heads * size == w * n
        && (w * n) / n == w) by (nonlinear_arith)
        requires
            n == batch * len,
            w == heads * size,
            batch > 0,
            len > 0,
    ;
}

/// Attention works on queries and keys as the kernels have turned them by their positions, and on
/// values as they were projected, all cut into heads and in the element type of the layer; what it
/// gives goes, heads side by side again, through the last weight. The cache takes in the turned keys
/// and the values; over pages it stays as it is. Stated for kernels that turn and attend as functions
/// of what they are given, whichever functions these are.
pub proof fn attention_works_on_turned_heads<Q: QuantMethod, K: AttentionKernels>(
    a: AttentionWeights<Q>,
    kernels: K,
    x: Tensor,
    start_offsets: &[usize],
    paging: Option<&K::Paging>,
    mask: K::Mask,
    cache0: K::Cache,
    cache1: K::Cache,
    r: Tensor,
    turn_q: spec_fn(TensorView) -> TensorView,
    turn_k: spec_fn(TensorView) -> TensorView,
    custom: bool,
    attend: spec_fn(TensorView, TensorView, TensorView, int, int, int, int) -> u32,
    take_in: spec_fn(TensorView, TensorView) -> K::Cache,
)
    requires
        tensor_dims(x).len() == 3,
        tensor_dims(x)[0] > 0,
        tensor_dims(x)[1] > 0,
        widens(a.attention_wq, x, a.n_head * a.head_dim),
        widens(a.attention_wk, x, a.n_kv_head * a.head_dim),
        widens(a.attention_wv, x, a.n_kv_head * a.head_dim),
        turns_by(kernels, start_offsets, tensor_dims(x)[1], turn_q, turn_k),
        attends_by(kernels, a.paged, paging, mask, custom, cache0, attend, take_in),
        a.is_forward(kernels, x, start_offsets, paging, mask, cache0, cache1, r),
    ensures
        exists|
            pq: Tensor,
            pk: Tensor,
            pv: Tensor,
            z: Tensor,
            q0: TensorView,
            k0: TensorView,
            v0: TensorView,
            q: TensorView,
            k: TensorView,
            v: TensorView,
        |
            {
                &&& #[trigger] projects(a.attention_wq, x, pq)
                &&& #[trigger] projects(a.attention_wk, x, pk)
                &&& #[trigger] projects(a.attention_wv, x, pv)
                &&& #[trigger] projects(a.attention_wo, z, r)
                &&& #[trigger] holds_heads(view_of(pq), a.n_head, a.head_dim, q0)
                &&& #[trigger] holds_heads(view_of(pk), a.n_kv_head, a.head_dim, k0)
                &&& #[trigger] holds_heads(view_of(pv), a.n_kv_head, a.head_dim, v0)
                &&& #[trigger] is_brought(turn_q(q0), a.dtype, q)
                &&& #[trigger] is_brought(turn_k(k0), a.dtype, k)
                &&& #[trigger] is_brought(v0, a.dtype, v)
                &&& tensor_dims(z) == tensor_dims(pq)
                &&& forall|b: int, h: int, p: int, i: int|
                    within4(q.dims, b, h, p, i) ==> becomes(
                        #[trigger] attend(q, k, v, b, h, p, i),
                        tensor_dtype(x),
                        at3(view_of(z), b, p, h * a.head_dim + i),
                    )
                &&& cache1 == (if a.paged {
                    cache0
                } else {
                    take_in(k, v)
                })
            },
{
    let batch = tensor_dims(x)[0];
    let len = tensor_dims(x)[1];
    let size = a.head_dim;
    let (q, k, v, y) = choose|q: Tensor, k: Tensor, v: Tensor, y: Tensor|
        {
            &&& #[trigger] a.is_turned(kernels, x, start_offsets, q, k, v)
            &&& #[trigger] a.is_attended(kernels, paging, mask, cache0, cache1, q, k, v, y)
            &&& a.is_closed(kernels, mask, x, y, r)
        };
    let (pq, pk, pv, q0, k0, v0) = turned_heads(
        a,
        kernels,
        x,
        start_offsets,
        turn_q,
        turn_k,
        q,
        k,
        v,
    );
    assert(gives(attend, custom, view_of(q), view_of(k), view_of(v), view_of(y)) && cache1 == (
    if a.paged {
        cache0
    } else {
        take_in(view_of(k), view_of(v))
    })) by {
        if a.paged {
            assert(pages(kernels, q, k, v, mask, *paging->0, y));
        } else {
            let (k1, v1) = choose|k1: Tensor, v1: Tensor| #[trigger]
                appends(kernels, cache0, k, v, cache1, k1, v1) && attends(
                    kernels,
                    q,
                    k1,
                    v1,
                    mask,
                    y,
                );
            assert(appends(kernels, cache0, k, v, cache1, k1, v1));
        }
    }
    let width = (count(tensor_dims(y)) / ((batch * len) as nat)) as usize;
    let (c, z) = choose|c: bool, z: Tensor|
        {
            &&& #[trigger] masks(kernels, mask, c)
            &&& tensor_dims(z) == seq![batch, len, width]
            &&& consistent(view_of(z))
            &&& tensor_dtype(z) == tensor_dtype(x)
            &&& cast_outcome(unturned(view_of(y), c).words, tensor_dtype(x), tensor_words(z))
            &&& tensor_is_f32(x) ==> tensor_words(z) == unturned(view_of(y), c).words
            &&& #[trigger] projects(a.attention_wo, z, r)
        };
    assert(c == custom);
    let qd = seq![batch, a.n_head, len, size];
    assert(tensor_dims(q) == qd);
    assert(seq![qd[0], qd[2], qd[1], qd[3]] =~= seq![batch, len, a.n_head, size]);
    merged_width(custom, batch, a.n_head, len, size);
    assert(tensor_dims(pq) =~= seq![batch, len, width]);
    let flat = TensorView { dims: tensor_dims(z), words: unturned(view_of(y), c).words };
    assert forall|b: int, h: int, p: int, i: int| within4(qd, b, h, p, i) implies becomes(
        #[trigger] attend(view_of(q), view_of(k), view_of(v), b, h, p, i),
        tensor_dtype(x),
        at3(view_of(z), b, p, h * size + i),
    ) by {
        merged_elements(custom, batch, a.n_head, len, size, view_of(y), flat, b, h, p, i);
        let cut = TensorView { dims: seq![batch, len, a.n_head, size], words: tensor_words(z) };
        assert(consistent(cut)) by {
            count_small(batch, len, a.n_head, size, 0);
            count_small(batch, len, width, 0, 0);
            assert(batch * len * width == batch * len * a.n_head * size) by (nonlinear_arith)
                requires
                    width == a.n_head * size,
            ;
        }
        index_within4(cut, b, p, h, i);
        part_of_position(cut, view_of(z), b, p, h, i);
        part_of_position(TensorView { dims: cut.dims, words: flat.words }, flat, b, p, h, i);
    }
    assert(projects(a.attention_wo, z, r));
    assert(projects(a.attention_wq, x, pq));
    assert(is_brought(turn_q(q0), a.dtype, view_of(q)));
}

/// Whatever comes of an attention layer, its cache stays as it is, or takes in turned keys and values
/// as they were projected, cut into heads and in the element type of the layer; over pages it always
/// stays.
pub proof fn cache_takes_in_turned_keys<Q: QuantMethod, K: AttentionKernels>(
    a: AttentionWeights<Q>,
    kernels: K,
    x: Tensor,
    start_offsets: &[usize],
    cache0: K::Cache,
    cache1: K::Cache,
    turn_q: spec_fn(TensorView) -> TensorView,
    turn_k: spec_fn(TensorView) -> TensorView,
    take_in: spec_fn(TensorView, TensorView) -> K::Cache,
)
    requires
        tensor_dims(x).len() == 3,
        widens(a.attention_wq, x, a.n_head * a.head_dim),
        widens(a.attention_wk, x, a.n_kv_head * a.head_dim),
        widens(a.attention_wv, x, a.n_kv_head * a.head_dim),
        turns_by(kernels, start_offsets, tensor_dims(x)[1], turn_q, turn_k),
        forall|k: Tensor, v: Tensor, c: K::Cache, k1: Tensor, v1: Tensor| #[trigger]
            appends(kernels, cache0, k, v, c, k1, v1) ==> c == take_in(view_of(k), view_of(v)),
        a.is_cached(kernels, x, start_offsets, cache0, cache1),
    ensures
        a.paged ==> cache1 == cache0,
        cache1 == cache0 || exists|
            pk: Tensor,
            pv: Tensor,
            k0: TensorView,
            v0: TensorView,
            k: TensorView,
            v: TensorView,
        |
            {
                &&& #[trigger] projects(a.attention_wk, x, pk)
                &&& #[trigger] projects(a.attention_wv, x, pv)
                &&& #[trigger] holds_heads(view_of(pk), a.n_kv_head, a.head_dim, k0)
                &&& #[trigger] holds_heads(view_of(pv), a.n_kv_head, a.head_dim, v0)
                &&& #[trigger] is_brought(turn_k(k0), a.dtype, k)
                &&& #[trigger] is_brought(v0, a.dtype, v)
                &&& cache1 == take_in(k, v)
            },
{
    if cache1 != cache0 {
        let (q, k, v, k1, v1) = choose|q: Tensor, k: Tensor, v: Tensor, k1: Tensor, v1: Tensor|
            {
                &&& #[trigger] a.is_turned(kernels, x, start_offsets, q, k, v)
                &&& #[trigger] appends(kernels, cache0, k, v, cache1, k1, v1)
            };
        let (pq, pk, pv, q0, k0, v0) = turned_heads(
            a,
            kernels,
            x,
            start_offsets,
            turn_q,
            turn_k,
            q,
            k,
            v,
        );
        assert(is_brought(turn_k(k0), a.dtype, view_of(k)));
        assert(is_brought(v0, a.dtype, view_of(v)));
    }
}

/// What goes into attention, opened.
proof fn turned_heads<Q: QuantMethod, K: AttentionKernels>(
    a: AttentionWeights<Q>,
    kernels: K,
    x: Tensor,
    start_offsets: &[usize],
    turn_q: spec_fn(TensorView) -> TensorView,
    turn_k: spec_fn(TensorView) -> TensorView,
    q: Tensor,
    k: Tensor,
    v: Tensor,
) -> (o: (Tensor, Tensor, Tensor, TensorView, TensorView, TensorView))
    requires
        tensor_dims(x).len() == 3,
        widens(a.attention_wq, x, a.n_head * a.head_dim),
        widens(a.attention_wk, x, a.n_kv_head * a.head_dim),
        widens(a.attention_wv, x, a.n_kv_head * a.head_dim),
        turns_by(kernels, start_offsets, tensor_dims(x)[1], turn_q, turn_k),
        a.is_turned(kernels, x, start_offsets, q, k, v),
    ensures
        ({
            let (pq, pk, pv, q0, k0, v0) = o;
            &&& projects(a.attention_wq, x, pq)
            &&& projects(a.attention_wk, x, pk)
            &&& projects(a.attention_wv, x, pv)
            &&& holds_heads(view_of(pq), a.n_head, a.head_dim, q0)
            &&& holds_heads(view_of(pk), a.n_kv_head, a.head_dim, k0)
            &&& holds_heads(view_of(pv), a.n_kv_head, a.head_dim, v0)
            &&& is_brought(turn_q(q0), a.dtype, view_of(q))
            &&& is_brought(turn_k(k0), a.dtype, view_of(k))
            &&& is_brought(v0, a.dtype, view_of(v))
            &&& tensor_dims(q) == q0.dims
            &&& q0.dims == seq![tensor_dims(x)[0], a.n_head, tensor_dims(x)[1], a.head_dim]
        }),
{
    let (q0, k0, v0, at, q1, k1) = choose|
        q0: Tensor,
        k0: Tensor,
        v0: Tensor,
        at: Tensor,
        q1: Tensor,
        k1: Tensor,
    |
        {
            &&& #[trigger] a.is_headed(a.attention_wq, x, a.n_head, q0)
            &&& #[trigger] a.is_headed(a.attention_wk, x, a.n_kv_head, k0)
            &&& #[trigger] a.is_headed(a.attention_wv, x, a.n_kv_head, v0)
            &&& places(kernels, start_offsets, tensor_dims(x)[1], q0, at)
            &&& #[trigger] turns(kernels, q0, k0, at, q1, k1)
            &&& is_cast(view_of(q1), a.dtype, view_of(q))
            &&& is_cast(view_of(k1), a.dtype, view_of(k))
            &&& is_cast(view_of(v0), a.dtype, view_of(v))
        };
    let pq = projection_of(a, a.attention_wq, x, a.n_head, q0);
    let pk = projection_of(a, a.attention_wk, x, a.n_kv_head, k0);
    let pv = projection_of(a, a.attention_wv, x, a.n_kv_head, v0);
    assert(places(kernels, start_offsets, tensor_dims(x)[1], q0, at));
    assert(is_brought(view_of(q1), a.dtype, view_of(q)));
    assert(is_brought(view_of(k1), a.dtype, view_of(k)));
    (pq, pk, pv, view_of(q0), view_of(k0), view_of(v0))
}

/// The projection that heads were cut from.
proof fn projection_of<Q: QuantMethod>(
    a: AttentionWeights<Q>,
    w: Q,
    x: Tensor,
    heads: usize,
    t: Tensor,
) -> (p: Tensor)
    requires
        tensor_dims(x).len() == 3,
        widens(w, x, heads * a.head_dim),
        a.is_headed(w, x, heads, t),
    ensures
        projects(w, x, p),
        tensor_dims(p).len() == 3,
        tensor_dims(p)[0] == tensor_dims(x)[0],
        tensor_dims(p)[1] == tensor_dims(x)[1],
        tensor_dims(p)[2] == heads * a.head_dim,
        holds_heads(view_of(p), heads, a.head_dim, view_of(t)),
{
    let dims = seq![tensor_dims(x)[0], tensor_dims(x)[1], heads, a.head_dim];
    let p = choose|p: Tensor| #[trigger]
        projects(w, x, p) && view_of(t) == head_view(view_of(p), dims);
    assert forall|b: int, h: int, n: int, i: int|
        within4(tensor_dims(t), b, h, n, i) implies #[trigger] at4(view_of(t), b, h, n, i) == at3(
        view_of(p),
        b,
        n,
        h * a.head_dim + i,
    ) by {
        cut_holds_heads(view_of(p), heads, a.head_dim, view_of(t), b, h, n, i);
    }
    cut_holds_heads(view_of(p), heads, a.head_dim, view_of(t), 0, 0, 0, 0);
    p
}

} // verus!
