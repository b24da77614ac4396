//! The layers that a host leaves to its workers, and what it asks of them.
use candle_core::{Device, Tensor};
use vstd::prelude::*;

use crate::codec::{
    deserialize_tensor, read_dims, read_tensor, readable, serialize_tensor, tensor_bytes, words_end,
};
use crate::ops::{lift, TensorError};
use crate::shape::{consistent, fits};
use crate::tensor::{
    candle_cpu, candle_device, candle_to_device, tensor_dims, tensor_is_f32, tensor_on_cpu,
    tensor_place, view_of, writable,
};
use crate::topology::RemoteAwareDevice;

verus! {

/// The worker that layer `i` runs on, if any.
pub open spec fn worker_of(specs: Seq<RemoteAwareDevice>, i: int) -> Option<Seq<char>> {
    specs[i].worker()
}

/// A worker's address, and the first and the last layer of a stretch that runs on it.
pub type RemoteBlock = (String, usize, usize);

/// Layer `i` belongs to the block.
pub open spec fn in_block(block: RemoteBlock, i: int) -> bool {
    block.1 <= i <= block.2
}

/// The block is a stretch of layers on one worker that goes as far as it can both ways.
pub open spec fn is_block(specs: Seq<RemoteAwareDevice>, block: RemoteBlock) -> bool {
    &&& block.1 <= block.2 < specs.len()
    &&& forall|i: int| in_block(block, i) ==> #[trigger] worker_of(specs, i) == Some(block.0@)
    &&& block.1 > 0 ==> worker_of(specs, block.1 - 1) != Some(block.0@)
    &&& block.2 + 1 < specs.len() ==> worker_of(specs, block.2 + 1) != Some(block.0@)
}

/// The blocks are the stretches of the first `n` layers that run on workers, in order, and all of
/// them.
pub open spec fn are_blocks(
    specs: Seq<RemoteAwareDevice>,
    blocks: Seq<RemoteBlock>,
    n: int,
) -> bool {
    &&& forall|b: int| 0 <= b < blocks.len() ==> is_block(specs, #[trigger] blocks[b])
    &&& forall|b: int| 0 <= b < blocks.len() ==> (#[trigger] blocks[b]).2 < n
    &&& forall|a: int, b: int|
        0 <= a < b < blocks.len() ==> (#[trigger] blocks[a]).2 < (#[trigger] blocks[b]).1
    &&& forall|i: int|
        0 <= i < n && #[trigger] worker_of(specs, i) is Some ==> exists|b: int|
            0 <= b < blocks.len() && in_block(#[trigger] blocks[b], i)
}

/// The index says of each of the first `n` layers which block it belongs to, and of the others
/// nothing.
pub open spec fn is_index(
    specs: Seq<RemoteAwareDevice>,
    blocks: Seq<RemoteBlock>,
    index: Seq<Option<usize>>,
    n: int,
) -> bool {
    &&& index.len() == specs.len()
    &&& forall|i: int|
        0 <= i < n ==> match #[trigger] index[i] {
            None => worker_of(specs, i) is None,
            Some(b) => b < blocks.len() && in_block(blocks[b as int], i),
        }
}

/// What a host has to do to take hidden states to a layer.
#[derive(Debug)]
pub enum MapAction {
    /// Move them to the layer's own device.
    Local,
    /// Have a worker run a block on them.
    Send(RemoteRequest),
    /// Nothing: they are where they have to be.
    Pass,
}

/// What a worker is asked to run.
#[derive(Debug)]
pub struct RemoteRequest {
    pub addr: String,
    pub layer_start: u32,
    pub layer_end: u32,
    pub past_kv: u32,
    pub payload: Vec<u8>,
}

/// Which device a layer's weights are loaded to.
pub enum DeviceChoice<'a> {
    /// The one that the mapping of local layers says.
    AskLocal,
    /// This one.
    Here(&'a Device),
    /// None: they are not loaded.
    Nowhere,
}

/// Whether something is left to the mapping of local layers.
#[derive(Debug, Clone, Copy, PartialEq, Eq, Structural)]
pub enum Delegation {
    /// The mapping of local layers answers.
    AskLocal,
    /// The layer is not a local one.
    NotLocal,
}

/// Maps each layer of a model to a device of this machine or to a worker.
#[derive(Debug)]
pub struct RemoteLayerMapper {
    layer_specs: Vec<RemoteAwareDevice>,
    remote_blocks: Vec<RemoteBlock>,
    layer_to_block: Vec<Option<usize>>,
    past_kv: u32,
}

impl RemoteLayerMapper {
    /// Where each layer runs.
    pub closed spec fn specs(&self) -> Seq<RemoteAwareDevice> {
        self.layer_specs@
    }

    /// The stretches of layers that run on workers.
    pub closed spec fn blocks(&self) -> Seq<RemoteBlock> {
        self.remote_blocks@
    }

    /// The block that each layer belongs to.
    pub closed spec fn index(&self) -> Seq<Option<usize>> {
        self.layer_to_block@
    }

    /// How many positions are already cached.
    pub closed spec fn cached(&self) -> u32 {
        self.past_kv
    }

    /// Blocks and index belong to the layers.
    pub open spec fn wf(&self) -> bool {
        &&& are_blocks(self.specs(), self.blocks(), self.specs().len() as int)
        &&& is_index(self.specs(), self.blocks(), self.index(), self.specs().len() as int)
    }

    /// Layer `i` runs on a worker and is the first of its block.
    pub open spec fn opens_block(&self, i: int) -> bool {
        &&& 0 <= i < self.specs().len()
        &&& worker_of(self.specs(), i) is Some
        &&& i == 0 || worker_of(self.specs(), i - 1) != worker_of(self.specs(), i)
    }

    /// The request has the worker of layer `layer`, the first of a block, run that block on
    /// `input`.
    pub open spec fn is_request(&self, input: Tensor, layer: int, q: RemoteRequest) -> bool {
        &&& fits(tensor_dims(input))
        &&& q.payload@ == tensor_bytes(view_of(input))
        &&& q.past_kv == self.cached()
        &&& Some(q.addr@) == worker_of(self.specs(), layer)
        &&& exists|b: int|
            {
                &&& 0 <= b < self.blocks().len()
                &&& (#[trigger] self.blocks()[b]).1 == layer
                &&& q.layer_start == self.blocks()[b].1 as u32
                &&& q.layer_end == self.blocks()[b].2 as u32
            }
    }

    /// Finds the stretches of layers that run on one worker.
    pub fn new(layer_specs: Vec<RemoteAwareDevice>) -> (r: Self)
        ensures
            r.wf(),
            r.specs() == layer_specs@,
            r.cached() == 0,
    {
        let n: usize = layer_specs.len();
        let mut remote_blocks: Vec<RemoteBlock> = Vec::new();
        let mut layer_to_block: Vec<Option<usize>> = Vec::new();
        let mut i: usize = 0;
        while i < n
            invariant
                i <= n == layer_specs@.len(),
                layer_to_block@.len() == i,
                are_blocks(layer_specs@, remote_blocks@, i as int),
                forall|k: int|
                    0 <= k < i ==> match #[trigger] layer_to_block@[k] {
                        None => worker_of(layer_specs@, k) is None,
                        Some(b) => b < remote_blocks@.len() && in_block(
                            remote_blocks@[b as int],
                            k,
                        ),
                    },
                0 < i < n && worker_of(layer_specs@, i - 1) is Some ==> worker_of(
                    layer_specs@,
                    i - 1,
                ) != worker_of(layer_specs@, i as int),
            decreases n - i,
        {
            match &layer_specs[i] {
                RemoteAwareDevice::Remote { addr } => {
                    let start: usize = i;
                    let block: usize = remote_blocks.len();
                    let addr = addr.clone();
                    let ghost before = layer_to_block@;
                    let ghost known = remote_blocks@;
                    while i < n && layer_specs[i].runs_at(&addr)
                        invariant
                            start <= i <= n == layer_specs@.len(),
                            block == remote_blocks@.len(),
                            layer_to_block@.len() == i,
                            before.len() == start,
                            remote_blocks@ == known,
                            forall|k: int|
                                0 <= k < start ==> match #[trigger] before[k] {
                                    None => worker_of(layer_specs@, k) is None,
                                    Some(b) => b < known.len() && in_block(known[b as int], k),
                                },
                            forall|k: int| 0 <= k < start ==> layer_to_block@[k] == before[k],
                            forall|k: int|
                                start <= k < i ==> {
                                    &&& #[trigger] layer_to_block@[k] == Some(block)
                                    &&& worker_of(layer_specs@, k) == Some(addr@)
                                },
                        ensures
                            i < n ==> worker_of(layer_specs@, i as int) != Some(addr@),
                        decreases n - i,
                    {
                        layer_to_block.push(Some(block));
                        i += 1;
                    }
                    assert(worker_of(layer_specs@, start as int) == Some(addr@));
                    assert(i > start);
                    remote_blocks.push((addr, start, i - 1));
                    proof {
                        let fresh = remote_blocks@[block as int];
                        assert forall|k: int| in_block(fresh, k) implies #[trigger] worker_of(
                            layer_specs@,
                            k,
                        ) == Some(fresh.0@) by {
                            assert(layer_to_block@[k] == Some(block));
                        }
                        assert(is_block(layer_specs@, fresh));
                        assert forall|k: int|
                            0 <= k < i && #[trigger] worker_of(
                                layer_specs@,
                                k,
                            ) is Some implies exists|b: int|
                            0 <= b < remote_blocks@.len() && in_block(
                                #[trigger] remote_blocks@[b],
                                k,
                            ) by {
                            if k < start {
                                let b = choose|b: int|
                                    0 <= b < known.len() && in_block(
                                        #[trigger] known[b],
                                        k,
                                    );
                                assert(remote_blocks@[b] == known[b]);
                            } else {
                                assert(in_block(remote_blocks@[block as int], k));
                            }
                        }
                        assert forall|k: int|
                            0 <= k < i implies match #[trigger] layer_to_block@[k] {
                            None => worker_of(layer_specs@, k) is None,
                            Some(b) => b < remote_blocks@.len() && in_block(
                                remote_blocks@[b as int],
                                k,
                            ),
                        } by {
                            if k < start {
                                assert(layer_to_block@[k] == before[k]);
                            }
                        }
                        assert forall|b: int| 0 <= b < remote_blocks@.len() implies is_block(
                            layer_specs@,
                            #[trigger] remote_blocks@[b],
                        ) && remote_blocks@[b].2 < i by {
                            if b < block {
                                assert(remote_blocks@[b] == known[b]);
                            }
                        }
                    }
                },
                RemoteAwareDevice::Local(_) => {
                    layer_to_block.push(None);
                    i += 1;
                },
            }
        }
        RemoteLayerMapper { layer_specs, remote_blocks, layer_to_block, past_kv: 0 }
    }

    /// Tells how many positions are already cached.
    pub fn set_past_kv(&mut self, past_kv: u32)
        ensures
            final(self).cached() == past_kv,
            final(self).specs() == old(self).specs(),
            final(self).blocks() == old(self).blocks(),
            final(self).index() == old(self).index(),
    {
        self.past_kv = past_kv;
    }

    /// How many layers there are.
    pub fn num_device_mapping_layers(&self) -> (r: usize)
        ensures
            r == self.specs().len(),
    {
        self.layer_specs.len()
    }

    /// Whether a layer runs on a worker.
    pub fn is_layer_remote(&self, layer: usize) -> (r: bool)
        ensures
            r == (layer < self.specs().len() && worker_of(self.specs(), layer as int) is Some),
    {
        layer < self.layer_specs.len() && self.layer_specs[layer].is_remote()
    }

    /// Which device a layer's weights are loaded to.
    pub fn device_for(&self, layer: usize, loading_isq: bool) -> (r: DeviceChoice<'_>)
        ensures
            loading_isq || layer >= self.specs().len() ==> r is AskLocal,
            !loading_isq && layer < self.specs().len() ==> match self.specs()[layer as int] {
                RemoteAwareDevice::Local(dev) => r == DeviceChoice::Here(&dev),
                RemoteAwareDevice::Remote { .. } => r is Nowhere,
            },
    {
        if loading_isq || layer >= self.layer_specs.len() {
            return DeviceChoice::AskLocal;
        }
        match &self.layer_specs[layer] {
            RemoteAwareDevice::Local(dev) => DeviceChoice::Here(dev),
            RemoteAwareDevice::Remote { .. } => DeviceChoice::Nowhere,
        }
    }

    /// Whether the mapping of local layers says where a layer's variables are built. If not, that
    /// is in main memory.
    pub fn set_device(&self, layer: usize) -> (r: Delegation)
        ensures
            r == (if layer < self.specs().len() && worker_of(self.specs(), layer as int) is None {
                Delegation::AskLocal
            } else {
                Delegation::NotLocal
            }),
    {
        self.delegation(layer)
    }

    /// Whether the mapping of local layers has a communicator for a layer. If not, there is none.
    pub fn get_comm_for(&self, layer: usize) -> (r: Delegation)
        ensures
            r == (if layer < self.specs().len() && worker_of(self.specs(), layer as int) is None {
                Delegation::AskLocal
            } else {
                Delegation::NotLocal
            }),
    {
        self.delegation(layer)
    }

    fn delegation(&self, layer: usize) -> (r: Delegation)
        ensures
            r == (if layer < self.specs().len() && worker_of(self.specs(), layer as int) is None {
                Delegation::AskLocal
            } else {
                Delegation::NotLocal
            }),
    {
        if layer < self.layer_specs.len() && !self.layer_specs[layer].is_remote() {
            Delegation::AskLocal
        } else {
            Delegation::NotLocal
        }
    }

    /// What has to be done to take hidden states to a layer. A worker is asked once for each of
    /// its blocks, at the first layer; the later layers of the block find its result.
    pub fn map(&self, input: &Tensor, layer: usize) -> (r: Result<MapAction, TensorError>)
        requires
            self.wf(),
        ensures
            layer >= self.specs().len() ==> r matches Ok(MapAction::Pass),
            layer < self.specs().len() ==> match worker_of(self.specs(), layer as int) {
                None => r matches Ok(MapAction::Local),
                Some(_) => if !self.opens_block(layer as int) {
                    r matches Ok(MapAction::Pass)
                } else {
                    &&& r matches Ok(a) ==> {
                        &&& a matches MapAction::Send(q)
                        &&& self.is_request(*input, layer as int, q)
                    }
                    &&& writable(*input) ==> (r is Ok <==> fits(tensor_dims(*input)))
                },
            },
    {
        if layer >= self.layer_specs.len() {
            return Ok(MapAction::Pass);
        }
        match &self.layer_specs[layer] {
            RemoteAwareDevice::Local(_) => Ok(MapAction::Local),
            RemoteAwareDevice::Remote { addr } => {
                let block: usize = match self.layer_to_block[layer] {
                    Some(b) => b,
                    None => {
                        assert(self.index()[layer as int] is None);
                        assert(false);
                        0
                    },
                };
                assert(self.index()[layer as int] == Some(block));
                let (addr, start, end) = &self.remote_blocks[block];
                proof {
                    let found = self.blocks()[block as int];
                    assert(is_block(self.specs(), found));
                    assert(in_block(found, layer as int));
                    assert(worker_of(self.specs(), layer as int) == Some(found.0@));
                    if layer > found.1 {
                        assert(in_block(found, layer - 1));
                        assert(worker_of(self.specs(), layer - 1) == Some(found.0@));
                    }
                }
                if *start != layer {
                    return Ok(MapAction::Pass);
                }
                let payload = serialize_tensor(input)?;
                assert(self.blocks()[block as int].1 == layer);
                Ok(
                    MapAction::Send(
                        RemoteRequest {
                            addr: addr.clone(),
                            layer_start: *start as u32,
                            layer_end: *end as u32,
                            past_kv: self.past_kv,
                            payload,
                        },
                    ),
                )
            },
        }
    }
}

/// Reads a worker's response and moves it to the device that `input` is on.
pub fn finish_map(response: &[u8], input: &Tensor) -> (r: Result<Tensor, TensorError>)
    requires
        readable(response@),
    ensures
        r matches Ok(t) ==> {
            &&& response@.len() >= words_end(response@)
            &&& consistent(read_tensor(response@))
            &&& view_of(t) == read_tensor(response@)
            &&& tensor_is_f32(t)
            &&& tensor_place(t) == tensor_place(*input)
        },
        tensor_on_cpu(*input) ==> (r is Ok <==> {
            &&& response@.len() >= words_end(response@)
            &&& fits(read_dims(response@))
            &&& consistent(read_tensor(response@))
        }),
        response@.len() < words_end(response@) ==> r == Err::<Tensor, TensorError>(
            TensorError::ShortBuffer {
                expected: words_end(response@) as usize,
                got: response@.len() as usize,
            },
        ),
{
    let cpu = candle_cpu();
    match deserialize_tensor(response, &cpu) {
        Ok(t) => lift(candle_to_device(&t, candle_device(input))),
        Err(e) => Err(e),
    }
}

/// Of the layers of a block, the first alone makes the host ask a worker.
pub proof fn one_request_per_block(mapper: RemoteLayerMapper, b: int, layer: int)
    requires
        mapper.wf(),
        0 <= b < mapper.blocks().len(),
        in_block(mapper.blocks()[b], layer),
    ensures
        mapper.opens_block(layer) <==> layer == mapper.blocks()[b].1,
{
    let block = mapper.blocks()[b];
    assert(is_block(mapper.specs(), block));
    assert(worker_of(mapper.specs(), layer) == Some(block.0@));
    if layer > block.1 {
        assert(in_block(block, layer - 1));
        assert(worker_of(mapper.specs(), layer - 1) == Some(block.0@));
    }
}

/// Every layer that makes the host ask a worker is the first of a block.
pub proof fn requests_are_for_blocks(mapper: RemoteLayerMapper, layer: int)
    requires
        mapper.wf(),
        mapper.opens_block(layer),
    ensures
        exists|b: int|
            0 <= b < mapper.blocks().len() && (#[trigger] mapper.blocks()[b]).1 == layer,
{
    assert(worker_of(mapper.specs(), layer) is Some);
    let b = choose|b: int|
        0 <= b < mapper.blocks().len() && in_block(#[trigger] mapper.blocks()[b], layer);
    one_request_per_block(mapper, b, layer);
}

/// A request names the layer that it is made for as the first, and every layer from there to the last
/// one named runs on the worker that is asked; the layer behind, if there is one, does not.
pub proof fn request_covers_stretch(
    mapper: RemoteLayerMapper,
    input: Tensor,
    layer: int,
    q: RemoteRequest,
    i: int,
)
    requires
        mapper.wf(),
        mapper.specs().len() <= u32::MAX,
        mapper.is_request(input, layer, q),
    ensures
        q.layer_start == layer,
        layer <= q.layer_end < mapper.specs().len(),
        q.layer_start <= i <= q.layer_end ==> worker_of(mapper.specs(), i) == Some(q.addr@),
        q.layer_end + 1 < mapper.specs().len() ==> worker_of(mapper.specs(), q.layer_end + 1)
            != Some(q.addr@),
        q.past_kv == mapper.cached(),
        q.payload@ == tensor_bytes(view_of(input)),
{
    let b = choose|b: int|
        {
            &&& 0 <= b < mapper.blocks().len()
            &&& (#[trigger] mapper.blocks()[b]).1 == layer
            &&& q.layer_start == mapper.blocks()[b].1 as u32
            &&& q.layer_end == mapper.blocks()[b].2 as u32
        };
    let block = mapper.blocks()[b];
    assert(is_block(mapper.specs(), block));
    assert(in_block(block, layer));
    assert(worker_of(mapper.specs(), layer) == Some(block.0@));
    if q.layer_start <= i <= q.layer_end {
        assert(in_block(block, i));
        assert(worker_of(mapper.specs(), i) == Some(block.0@));
    }
}

/// Two blocks that share a layer are the same stretch on the same worker.
proof fn blocks_meet(specs: Seq<RemoteAwareDevice>, x: RemoteBlock, y: RemoteBlock, i: int)
    requires
        is_block(specs, x),
        is_block(specs, y),
        in_block(x, i),
        in_block(y, i),
    ensures
        x.0@ == y.0@,
        x.1 == y.1,
        x.2 == y.2,
{
    assert(worker_of(specs, i) == Some(x.0@));
    assert(worker_of(specs, i) == Some(y.0@));
    if x.1 < y.1 {
        assert(in_block(x, y.1 - 1));
        assert(worker_of(specs, y.1 - 1) == Some(x.0@));
    }
    if y.1 < x.1 {
        assert(in_block(y, x.1 - 1));
        assert(worker_of(specs, x.1 - 1) == Some(y.0@));
    }
    if x.2 < y.2 {
        assert(in_block(y, x.2 + 1));
        assert(worker_of(specs, x.2 + 1) == Some(y.0@));
    }
    if y.2 < x.2 {
        assert(in_block(x, y.2 + 1));
        assert(worker_of(specs, y.2 + 1) == Some(x.0@));
    }
}

/// Two lists of blocks agree as far as the first goes.
proof fn blocks_agree(
    specs: Seq<RemoteAwareDevice>,
    xs: Seq<RemoteBlock>,
    ys: Seq<RemoteBlock>,
    k: int,
)
    requires
        are_blocks(specs, xs, specs.len() as int),
        are_blocks(specs, ys, specs.len() as int),
        0 <= k <= xs.len(),
    ensures
        k <= ys.len(),
        forall|j: int|
            0 <= j < k ==> {
                &&& (#[trigger] xs[j]).0@ == ys[j].0@
                &&& xs[j].1 == ys[j].1
                &&& xs[j].2 == ys[j].2
            },
    decreases k,
{
    if k > 0 {
        let m = k - 1;
        blocks_agree(specs, xs, ys, m);
        let x = xs[m];
        assert(is_block(specs, x));
        let s = x.1 as int;
        assert(in_block(x, s));
        assert(worker_of(specs, s) is Some);
        let c = choose|c: int| 0 <= c < ys.len() && in_block(#[trigger] ys[c], s);
        assert(is_block(specs, ys[c]));
        blocks_meet(specs, x, ys[c], s);
        if c < m {
            assert(xs[c].1 == ys[c].1);
            assert(xs[c].2 < xs[m].1);
            assert(is_block(specs, xs[c]));
        }
        if c > m {
            // The block at `m` would come before, and be missing from the first list.
            let y = ys[m];
            assert(is_block(specs, y));
            assert(y.2 < ys[c].1);
            let t = y.1 as int;
            assert(in_block(y, t));
            assert(worker_of(specs, t) is Some);
            let a = choose|a: int| 0 <= a < xs.len() && in_block(#[trigger] xs[a], t);
            assert(is_block(specs, xs[a]));
            blocks_meet(specs, xs[a], y, t);
            if a >= m {
                if a > m {
                    assert(xs[m].2 < xs[a].1);
                }
            } else {
                assert(xs[a].1 == ys[a].1);
                assert(ys[a].2 < ys[m].1);
                assert(is_block(specs, ys[a]));
            }
        }
    }
}

/// The blocks of a list of layers are determined: there is one way only to cut the layers that
/// run on workers into stretches.
pub proof fn blocks_are_determined(
    specs: Seq<RemoteAwareDevice>,
    xs: Seq<RemoteBlock>,
    ys: Seq<RemoteBlock>,
)
    requires
        are_blocks(specs, xs, specs.len() as int),
        are_blocks(specs, ys, specs.len() as int),
    ensures
        xs.len() == ys.len(),
        forall|j: int|
            0 <= j < xs.len() ==> {
                &&& (#[trigger] xs[j]).0@ == ys[j].0@
                &&& xs[j].1 == ys[j].1
                &&& xs[j].2 == ys[j].2
            },
{
    blocks_agree(specs, xs, ys, xs.len() as int);
    blocks_agree(specs, ys, xs, ys.len() as int);
}

} // verus!
