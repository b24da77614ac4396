# remote_layers

Runs a Qwen3 mixture-of-experts model whose layers are split between a host and workers on other
machines. The host keeps some layers, and hands the hidden states of a whole stretch of layers to
a worker over TCP in one round trip. The library is verified with Verus.

## Layout

- `src/wire.rs`, `src/codec.rs`, `src/le.rs`: requests, responses and tensors as bytes.
- `src/mapper.rs`, `src/pool.rs`, `src/topology.rs`: which layers run where, what a host asks its
  workers, and what is exchanged over a connection, with one new attempt if it is lost.
- `src/worker.rs`: what a worker does with a connection.
- `src/model.rs`, `src/attention.rs`, `src/moe.rs`, `src/ssm.rs`: the model and its layers.
- `src/conv.rs`, `src/recurrence.rs`, `src/norm.rs`: the causal convolution, the gated delta rule
  and the normalisations of layers that keep a state.
- `src/props.rs`, `src/loading.rs`, `src/assembly.rs`: the sizes that a model file gives, how its
  tensors are loaded, and how a model is put together from them.
- `src/chain.rs`, `src/split.rs`: why splitting a model changes nothing.
- `src/positions.rs`, `src/prompt.rs`, `src/tokens.rs`: why splitting a prompt changes nothing in
  layers that keep a state and in experts.
- `src/agree.rs`, `src/causal.rs`, `src/lookback.rs`, `src/ranges.rs`: why no position sees a later
  one, and why the same comes out of layers however they are called.
- `src/tensor.rs`: all that is taken on trust of the `candle` crates.
- `src/ops.rs`, `src/shape.rs`, `src/rows.rs`: operations on tensors that refuse what does not
  fit, and what they do to shapes and elements.
- `src/backend.rs`: the kernels and weights that a model is given from outside.
- `app/`: sockets, threads and model files around the library.

## What is stated

Tensors are seen through their dimensions and elements. Operations that move elements are stated
exactly. Arithmetic on floats differs in its last bits from one processor to the next, so its
results are tied to their arguments by relations, element by element where the operation works so.

Masks, caches and mappers are values that are handed on, so that the contracts of the model say
under which mask attention runs, which caches have changed, and that a mapper was told the number
of earlier positions before it was asked for the first layer.

The central statements are:

- a tensor written by one side is read by the other as it was;
- one round trip runs exactly one block of layers;
- a host that leaves some layers to workers, or all of them, gets what running all layers in order
  gives;
- running some layers and then more is running all of them, and running all of them and making
  logits is running the model;
- the convolution, the delta rule and the layer that is made of them put out the same and keep the
  same whether positions come in one call or in two;
- no position of a prompt sees a later one, in a layer or in a range of layers;
- experts work on each token alone.

Some of these ask that the weights, norms and kernels that a model is given look at each position
alone, that attention under a causal mask looks back only, and that arithmetic gives one result for
the same elements.
