//! Steps that follow one another, and what holds of any such steps.
use vstd::prelude::*;

use crate::mapper::{are_blocks, in_block, is_block, worker_of, RemoteBlock};
use crate::topology::RemoteAwareDevice;

verus! {

/// Step `i` can lead from `x` to `y`.
pub open spec fn takes<V>(step: spec_fn(int, V, V) -> bool, i: int, x: V, y: V) -> bool {
    step(i, x, y)
}

/// Steps `from` up to, but not including, `to` can lead from `x` to `y`.
pub open spec fn chain<V>(
    step: spec_fn(int, V, V) -> bool,
    from: int,
    to: int,
    x: V,
    y: V,
) -> bool
    decreases to - from,
{
    if from >= to {
        x == y
    } else {
        exists|z: V| chain(step, from, to - 1, x, z) && #[trigger] takes(step, to - 1, z, y)
    }
}

/// One more step.
pub proof fn chain_grows<V>(step: spec_fn(int, V, V) -> bool, n: int, x: V, z: V, y: V)
    requires
        0 <= n,
        chain(step, 0, n, x, z),
        takes(step, n, z, y),
    ensures
        chain(step, 0, n + 1, x, y),
{
    let to = n + 1;
    assert(chain(step, 0, to - 1, x, z) && takes(step, to - 1, z, y));
}

/// Steps that agree lead to the same.
pub proof fn chain_agrees<V>(
    a: spec_fn(int, V, V) -> bool,
    b: spec_fn(int, V, V) -> bool,
    from: int,
    to: int,
    x: V,
    y: V,
)
    requires
        forall|i: int, u: V, v: V| from <= i < to ==> #[trigger] a(i, u, v) == b(i, u, v),
    ensures
        chain(a, from, to, x, y) == chain(b, from, to, x, y),
    decreases to - from,
{
    if from < to {
        if chain(a, from, to, x, y) {
            let z = choose|z: V| chain(a, from, to - 1, x, z) && #[trigger] takes(a, to - 1, z, y);
            chain_agrees(a, b, from, to - 1, x, z);
            assert(takes(b, to - 1, z, y));
        }
        if chain(b, from, to, x, y) {
            let z = choose|z: V| chain(b, from, to - 1, x, z) && #[trigger] takes(b, to - 1, z, y);
            chain_agrees(a, b, from, to - 1, x, z);
            assert(a(to - 1, z, y) == b(to - 1, z, y));
            assert(takes(a, to - 1, z, y));
        }
    }
}

/// Steps can be taken in two parts.
pub proof fn chain_splits<V>(
    step: spec_fn(int, V, V) -> bool,
    from: int,
    mid: int,
    to: int,
    x: V,
    y: V,
)
    requires
        from <= mid <= to,
    ensures
        chain(step, from, to, x, y) <==> exists|z: V|
            #![trigger chain(step, from, mid, x, z)]
            chain(step, from, mid, x, z) && chain(step, mid, to, z, y),
    decreases to - mid,
{
    if mid == to {
        if chain(step, from, to, x, y) {
            assert(chain(step, from, mid, x, y) && chain(step, mid, to, y, y));
        }
    } else {
        if chain(step, from, to, x, y) {
            let w = choose|w: V|
                chain(step, from, to - 1, x, w) && #[trigger] takes(step, to - 1, w, y);
            chain_splits(step, from, mid, to - 1, x, w);
            let z = choose|z: V|
                #![trigger chain(step, from, mid, x, z)]
                chain(step, from, mid, x, z) && chain(step, mid, to - 1, z, w);
            assert(takes(step, to - 1, w, y));
            assert(chain(step, mid, to, z, y));
        }
        if exists|z: V|
            #![trigger chain(step, from, mid, x, z)]
            chain(step, from, mid, x, z) && chain(step, mid, to, z, y) {
            let z = choose|z: V|
                #![trigger chain(step, from, mid, x, z)]
                chain(step, from, mid, x, z) && chain(step, mid, to, z, y);
            let w = choose|w: V|
                chain(step, mid, to - 1, z, w) && #[trigger] takes(step, to - 1, w, y);
            chain_splits(step, from, mid, to - 1, x, w);
            assert(chain(step, from, to - 1, x, w));
            assert(takes(step, to - 1, w, y));
        }
    }
}

/// The steps from `first` to `last`, both included; the others do nothing.
pub open spec fn only<V>(
    step: spec_fn(int, V, V) -> bool,
    first: int,
    last: int,
) -> spec_fn(int, V, V) -> bool {
    |i: int, x: V, y: V|
        if first <= i <= last {
            step(i, x, y)
        } else {
            x == y
        }
}

/// Steps that do nothing lead nowhere else.
proof fn chain_idle<V>(step: spec_fn(int, V, V) -> bool, from: int, to: int, x: V, y: V)
    requires
        forall|i: int, u: V, v: V| from <= i < to ==> #[trigger] step(i, u, v) == (u == v),
    ensures
        chain(step, from, to, x, y) == (x == y),
    decreases to - from,
{
    if from < to {
        if chain(step, from, to, x, y) {
            let z = choose|z: V|
                chain(step, from, to - 1, x, z) && #[trigger] takes(step, to - 1, z, y);
            chain_idle(step, from, to - 1, x, z);
            assert(step(to - 1, z, y) == (z == y));
        }
        if x == y {
            chain_idle(step, from, to - 1, x, x);
            assert(step(to - 1, x, y) == (x == y));
            assert(chain(step, from, to - 1, x, x) && takes(step, to - 1, x, y));
        }
    }
}

/// Of all steps, the ones that are picked out are taken.
pub proof fn chain_of_only<V>(
    step: spec_fn(int, V, V) -> bool,
    first: int,
    last: int,
    n: int,
    x: V,
    y: V,
)
    requires
        0 <= first <= last + 1,
        last < n,
    ensures
        chain(only(step, first, last), 0, n, x, y) == chain(step, first, last + 1, x, y),
{
    let some = only(step, first, last);
    let end = last + 1;
    chain_splits(some, 0, end, n, x, y);
    assert forall|z: V| #[trigger] chain(some, end, n, z, y) == (z == y) by {
        chain_idle(some, end, n, z, y);
    }
    assert forall|z: V| #[trigger]
        chain(some, 0, end, x, z) == chain(step, first, end, x, z) by {
        chain_splits(some, 0, first, end, x, z);
        assert forall|w: V| #[trigger] chain(some, 0, first, x, w) == (x == w) by {
            chain_idle(some, 0, first, x, w);
        }
        chain_agrees(some, step, first, end, x, z);
        assert(chain(some, 0, first, x, x));
    }
    if chain(step, first, end, x, y) {
        assert(chain(some, 0, end, x, y));
        assert(chain(some, end, n, y, y));
    }
}

/// Running some layers and then those that follow is running them all.
pub proof fn ranges_compose<V>(
    step: spec_fn(int, V, V) -> bool,
    first: int,
    mid: int,
    last: int,
    n: int,
    x: V,
    y: V,
)
    requires
        0 <= first <= mid + 1,
        mid <= last < n,
    ensures
        chain(only(step, first, last), 0, n, x, y) <==> exists|z: V|
            #![trigger chain(only(step, first, mid), 0, n, x, z)]
            chain(only(step, first, mid), 0, n, x, z) && chain(
                only(step, mid + 1, last),
                0,
                n,
                z,
                y,
            ),
{
    let next = mid + 1;
    let end = last + 1;
    chain_of_only(step, first, last, n, x, y);
    chain_splits(step, first, next, end, x, y);
    assert forall|z: V| #[trigger] chain(only(step, first, mid), 0, n, x, z) == chain(
        step,
        first,
        next,
        x,
        z,
    ) by {
        chain_of_only(step, first, mid, n, x, z);
    }
    assert forall|z: V| #[trigger] chain(only(step, next, last), 0, n, z, y) == chain(
        step,
        next,
        end,
        z,
        y,
    ) by {
        chain_of_only(step, next, last, n, z, y);
    }
    if chain(step, first, end, x, y) {
        let z = choose|z: V|
            #![trigger chain(step, first, next, x, z)]
            chain(step, first, next, x, z) && chain(step, next, end, z, y);
        assert(chain(only(step, first, mid), 0, n, x, z));
        assert(chain(only(step, next, last), 0, n, z, y));
    }
    if exists|z: V|
        #![trigger chain(only(step, first, mid), 0, n, x, z)]
        chain(only(step, first, mid), 0, n, x, z) && chain(
            only(step, mid + 1, last),
            0,
            n,
            z,
            y,
        ) {
        let z = choose|z: V|
            #![trigger chain(only(step, first, mid), 0, n, x, z)]
            chain(only(step, first, mid), 0, n, x, z) && chain(
                only(step, mid + 1, last),
                0,
                n,
                z,
                y,
            );
        assert(chain(step, first, next, x, z));
        assert(chain(only(step, next, last), 0, n, z, y));
    }
}

/// What a host does at each layer, if `step` is what the layers do: it runs the layers that are
/// its own, has a worker run a whole block at the block's first layer, and does nothing at the
/// others.
pub open spec fn host_step<V>(
    step: spec_fn(int, V, V) -> bool,
    specs: Seq<RemoteAwareDevice>,
    blocks: Seq<RemoteBlock>,
) -> spec_fn(int, V, V) -> bool {
    |i: int, x: V, y: V|
        if worker_of(specs, i) is None {
            step(i, x, y)
        } else {
            exists|b: int|
                {
                    &&& 0 <= b < blocks.len()
                    &&& in_block(#[trigger] blocks[b], i)
                    &&& if blocks[b].1 == i {
                        chain(step, i, blocks[b].2 + 1, x, y)
                    } else {
                        x == y
                    }
                }
        }
}

/// How far the layers have got once a host has passed layer `k`: within a block, to its end.
pub open spec fn reach(blocks: Seq<RemoteBlock>, k: int) -> int {
    if exists|b: int| 0 <= b < blocks.len() && (#[trigger] blocks[b]).1 < k <= blocks[b].2 {
        let b = choose|b: int|
            0 <= b < blocks.len() && (#[trigger] blocks[b]).1 < k <= blocks[b].2;
        blocks[b].2 + 1
    } else {
        k
    }
}

/// What a host has done up to layer `k`.
proof fn host_reaches<V>(
    step: spec_fn(int, V, V) -> bool,
    specs: Seq<RemoteAwareDevice>,
    blocks: Seq<RemoteBlock>,
    k: int,
    x: V,
    y: V,
)
    requires
        are_blocks(specs, blocks, specs.len() as int),
        0 <= k <= specs.len(),
    ensures
        chain(host_step(step, specs, blocks), 0, k, x, y) == chain(step, 0, reach(blocks, k), x, y),
    decreases k,
{
    let host = host_step(step, specs, blocks);
    if k == 0 {
        if exists|b: int| 0 <= b < blocks.len() && (#[trigger] blocks[b]).1 < 0 <= blocks[b].2 {
        }
        assert(reach(blocks, 0) == 0);
    } else {
        let i = k - 1;
        assert forall|z: V| #[trigger] chain(host, 0, i, x, z) == chain(
            step,
            0,
            reach(blocks, i),
            x,
            z,
        ) by {
            host_reaches(step, specs, blocks, i, x, z);
        }
        if worker_of(specs, i) is None {
            // Neither `i` nor `k` is within a block.
            no_block_around(specs, blocks, i);
            assert(reach(blocks, i) == i);
            assert(reach(blocks, k) == k);
            assert forall|z: V| #[trigger] host(i, z, y) == step(i, z, y) by {}
            if chain(host, 0, k, x, y) {
                let z = choose|z: V| chain(host, 0, i, x, z) && #[trigger] takes(host, i, z, y);
                assert(chain(step, 0, i, x, z) && takes(step, i, z, y));
            }
            if chain(step, 0, k, x, y) {
                let z = choose|z: V| chain(step, 0, i, x, z) && #[trigger] takes(step, i, z, y);
                assert(chain(host, 0, i, x, z) && takes(host, i, z, y));
            }
        } else {
            let b = choose|b: int| 0 <= b < blocks.len() && in_block(#[trigger] blocks[b], i);
            let s = blocks[b].1 as int;
            let e = blocks[b].2 as int;
            assert forall|c: int|
                0 <= c < blocks.len() && in_block(#[trigger] blocks[c], i) implies c == b by {
                if c < b {
                    assert(blocks[c].2 < blocks[b].1);
                }
                if b < c {
                    assert(blocks[b].2 < blocks[c].1);
                }
            }
            block_reach(specs, blocks, b, k);
            assert(reach(blocks, k) == e + 1);
            if s == i {
                first_reach(specs, blocks, b);
                assert(reach(blocks, i) == i);
                assert forall|z: V| #[trigger] host(i, z, y) == chain(step, i, e + 1, z, y) by {
                    assert(in_block(blocks[b], i));
                }
                chain_splits(step, 0, i, e + 1, x, y);
                if chain(host, 0, k, x, y) {
                    let z = choose|z: V| chain(host, 0, i, x, z) && #[trigger] takes(host, i, z, y);
                    assert(chain(step, 0, i, x, z) && chain(step, i, e + 1, z, y));
                }
                if chain(step, 0, e + 1, x, y) {
                    let z = choose|z: V|
                        #![trigger chain(step, 0, i, x, z)]
                        chain(step, 0, i, x, z) && chain(step, i, e + 1, z, y);
                    assert(chain(host, 0, i, x, z) && takes(host, i, z, y));
                }
            } else {
                block_reach(specs, blocks, b, i);
                assert(reach(blocks, i) == e + 1);
                assert forall|z: V| #[trigger] host(i, z, y) == (z == y) by {
                    assert(in_block(blocks[b], i));
                }
                if chain(host, 0, k, x, y) {
                    let z = choose|z: V| chain(host, 0, i, x, z) && #[trigger] takes(host, i, z, y);
                    assert(z == y);
                }
                if chain(step, 0, e + 1, x, y) {
                    assert(chain(host, 0, i, x, y) && takes(host, i, y, y));
                }
            }
        }
    }
}

/// Around a layer of the host's own there is no block.
proof fn no_block_around(specs: Seq<RemoteAwareDevice>, blocks: Seq<RemoteBlock>, i: int)
    requires
        are_blocks(specs, blocks, specs.len() as int),
        0 <= i < specs.len(),
        worker_of(specs, i) is None,
    ensures
        reach(blocks, i) == i,
        reach(blocks, i + 1) == i + 1,
{
    assert forall|b: int| 0 <= b < blocks.len() implies !in_block(#[trigger] blocks[b], i) by {
        assert(is_block(specs, blocks[b]));
    }
    if exists|b: int| 0 <= b < blocks.len() && (#[trigger] blocks[b]).1 < i <= blocks[b].2 {
        let b = choose|b: int|
            0 <= b < blocks.len() && (#[trigger] blocks[b]).1 < i <= blocks[b].2;
        assert(in_block(blocks[b], i));
    }
    if exists|b: int|
        0 <= b < blocks.len() && (#[trigger] blocks[b]).1 < i + 1 <= blocks[b].2 {
        let b = choose|b: int|
            0 <= b < blocks.len() && (#[trigger] blocks[b]).1 < i + 1 <= blocks[b].2;
        assert(in_block(blocks[b], i));
    }
}

/// Within a block the layers have got to its end, and one past it to the same place.
proof fn block_reach(specs: Seq<RemoteAwareDevice>, blocks: Seq<RemoteBlock>, b: int, k: int)
    requires
        are_blocks(specs, blocks, specs.len() as int),
        0 <= b < blocks.len(),
        blocks[b].1 < k <= blocks[b].2 + 1,
    ensures
        reach(blocks, k) == blocks[b].2 + 1,
{
    if k <= blocks[b].2 {
        let c = choose|c: int|
            0 <= c < blocks.len() && (#[trigger] blocks[c]).1 < k <= blocks[c].2;
        if c < b {
            assert(blocks[c].2 < blocks[b].1);
        }
        if b < c {
            assert(blocks[b].2 < blocks[c].1);
        }
    } else if exists|c: int|
        0 <= c < blocks.len() && (#[trigger] blocks[c]).1 < k <= blocks[c].2 {
        let c = choose|c: int|
            0 <= c < blocks.len() && (#[trigger] blocks[c]).1 < k <= blocks[c].2;
        if c < b {
            assert(blocks[c].2 < blocks[b].1);
        }
        if b < c {
            assert(blocks[b].2 < blocks[c].1);
        }
    }
}

/// Before the first layer of a block the layers have got just there.
proof fn first_reach(specs: Seq<RemoteAwareDevice>, blocks: Seq<RemoteBlock>, b: int)
    requires
        are_blocks(specs, blocks, specs.len() as int),
        0 <= b < blocks.len(),
    ensures
        reach(blocks, blocks[b].1 as int) == blocks[b].1,
{
    let k = blocks[b].1 as int;
    assert(is_block(specs, blocks[b]));
    if exists|c: int| 0 <= c < blocks.len() && (#[trigger] blocks[c]).1 < k <= blocks[c].2 {
        let c = choose|c: int|
            0 <= c < blocks.len() && (#[trigger] blocks[c]).1 < k <= blocks[c].2;
        if c < b {
            assert(blocks[c].2 < blocks[b].1);
        }
        if b < c {
            assert(blocks[b].2 < blocks[c].1);
        }
    }
}

/// Leaving layers to workers changes nothing: where a host runs its own layers and has each block
/// run by a worker, it gets from one state to another exactly if running all layers in order
/// does.
pub proof fn workers_are_transparent<V>(
    step: spec_fn(int, V, V) -> bool,
    specs: Seq<RemoteAwareDevice>,
    blocks: Seq<RemoteBlock>,
    x: V,
    y: V,
)
    requires
        are_blocks(specs, blocks, specs.len() as int),
    ensures
        chain(host_step(step, specs, blocks), 0, specs.len() as int, x, y) == chain(
            step,
            0,
            specs.len() as int,
            x,
            y,
        ),
{
    let n = specs.len() as int;
    host_reaches(step, specs, blocks, n, x, y);
    if exists|b: int| 0 <= b < blocks.len() && (#[trigger] blocks[b]).1 < n <= blocks[b].2 {
        let b = choose|b: int|
            0 <= b < blocks.len() && (#[trigger] blocks[b]).1 < n <= blocks[b].2;
        assert(is_block(specs, blocks[b]));
    }
    assert(reach(blocks, n) == n);
}

} // verus!
