//! What a worker does with a connection.
use candle_core::Tensor;
use vstd::prelude::*;

use crate::codec::{
    deserialize_tensor, is_readable, read_dims, read_tensor, readable, serialize_tensor,
    tensor_bytes, words_end, written_tensor_is_read,
};
use crate::le::{byte_range_values, le_bytes, le_bytes_len, le_value, le_value_of_bytes};
use crate::shape::{consistent, fits, TensorView};
use crate::tensor::{writable, candle_cpu, plain, tensor_dims, view_of};
use crate::wire::{
    decode_len, decode_range, encode_len, range_bytes, read_range, CMD_COMPUTE, CMD_RESET,
};

verus! {

/// The layers that a worker loads: all of them if both bounds are zero.
pub fn layer_range(start_layer: usize, end_layer: usize) -> (r: Option<(usize, usize)>)
    ensures
        r == (if start_layer == 0 && end_layer == 0 {
            None::<(usize, usize)>
        } else {
            Some((start_layer, end_layer))
        }),
{
    if start_layer == 0 && end_layer == 0 {
        None
    } else {
        Some((start_layer, end_layer))
    }
}

/// The layers to run and the number of positions that are already cached.
#[derive(Debug, Clone, Copy, PartialEq, Eq, Structural)]
pub struct LayerSpan {
    pub start: usize,
    pub end: usize,
    pub past_kv: usize,
}

/// The span that sixteen bytes of a request name.
pub open spec fn span_of(bytes: Seq<u8>) -> LayerSpan {
    LayerSpan {
        start: read_range(bytes).0 as usize,
        end: read_range(bytes).1 as usize,
        past_kv: read_range(bytes).2 as usize,
    }
}

/// How far a connection has come.
pub enum WorkerState {
    /// A request's command byte is to be read.
    Command,
    /// The layers and positions that it names are to be read.
    Range { cmd: u8 },
    /// The length of its payload is to be read.
    Length { cmd: u8, span: LayerSpan },
    /// Its payload is to be read.
    Payload { cmd: u8, span: LayerSpan, len: usize },
    /// Layers are to be run.
    Compute { hidden: Tensor, span: LayerSpan },
    /// What is cached is to be forgotten.
    Reset,
    /// The length of the response is to be written, and then the response.
    RespondLen { response: Vec<u8> },
    /// The response is to be written.
    Respond { response: Vec<u8> },
    /// The response is to be sent off.
    Flush,
    /// The connection is to be closed.
    Closed,
}

/// What is to be done next.
pub enum WorkerAction<'b> {
    /// Read exactly this many bytes.
    Read(usize),
    /// Run layers on the hidden states.
    Compute(&'b Tensor, LayerSpan),
    /// Forget what is cached. Whether that works out makes no difference.
    Reset,
    /// Write the length of this response.
    WriteLen(Vec<u8>),
    /// Write all these bytes.
    Write(&'b [u8]),
    /// Send off what was written.
    Flush,
    /// Close the connection.
    Close,
}

/// What came of it.
pub enum WorkerEvent {
    /// It was done.
    Did,
    /// These bytes were read.
    Received(Vec<u8>),
    /// The layers have put this out.
    Computed(Tensor),
    /// It failed, or the model was busy.
    Failed,
}

/// This many bytes were read, or reading failed.
pub open spec fn is_bytes(event: WorkerEvent, n: int) -> bool {
    match event {
        WorkerEvent::Received(b) => b@.len() == n,
        WorkerEvent::Failed => true,
        _ => false,
    }
}

/// The event is one that the state can lead to.
pub open spec fn worker_event_fits(state: WorkerState, event: WorkerEvent) -> bool {
    match state {
        WorkerState::Command => is_bytes(event, 1),
        WorkerState::Range { .. } => is_bytes(event, 16),
        WorkerState::Length { .. } => is_bytes(event, 8),
        WorkerState::Payload { len, .. } => is_bytes(event, len as int),
        WorkerState::Compute { .. } => event is Failed || event is Computed,
        WorkerState::Reset => event is Did || event is Failed,
        WorkerState::RespondLen { .. } => event is Did || event is Failed,
        WorkerState::Respond { .. } => event is Did || event is Failed,
        WorkerState::Flush => event is Did || event is Failed,
        WorkerState::Closed => true,
    }
}

/// A payload of hidden states: a tensor is written there in full.
pub open spec fn holds_tensor(payload: Seq<u8>) -> bool {
    &&& readable(payload)
    &&& words_end(payload) <= payload.len()
    &&& fits(read_dims(payload))
    &&& consistent(read_tensor(payload))
}

/// The state after a whole request has been read. A payload that holds no tensor ends the
/// connection, and so does a command that is not known.
pub open spec fn is_after_request(
    cmd: u8,
    span: LayerSpan,
    payload: Seq<u8>,
    next: WorkerState,
) -> bool {
    if cmd == CMD_COMPUTE {
        if holds_tensor(payload) {
            &&& next matches WorkerState::Compute { hidden, span: sent }
            &&& sent == span
            &&& view_of(hidden) == read_tensor(payload)
            &&& plain(hidden)
        } else {
            next is Closed
        }
    } else if cmd == CMD_RESET {
        next is Reset
    } else {
        next is Closed
    }
}

/// The state after layers have put out `output`: its bytes are sent back. An output that cannot be
/// written as bytes ends the connection.
pub open spec fn is_after_compute(output: Tensor, next: WorkerState) -> bool {
    ||| next matches WorkerState::RespondLen { response } && fits(tensor_dims(output))
        && response@ == tensor_bytes(view_of(output))
    ||| next is Closed && (writable(output) ==> !fits(tensor_dims(output)))
}

/// `next` is the state that follows. Any failure ends the connection, but for one to forget what
/// is cached.
pub open spec fn is_worker_step(
    state: WorkerState,
    event: WorkerEvent,
    next: WorkerState,
) -> bool {
    match (state, event) {
        (WorkerState::Reset, _) => next is Command,
        (WorkerState::Closed, _) => next is Closed,
        (_, WorkerEvent::Failed) => next is Closed,
        (WorkerState::Command, WorkerEvent::Received(b)) => next == (WorkerState::Range {
            cmd: b@[0],
        }),
        (WorkerState::Range { cmd }, WorkerEvent::Received(b)) => next == (WorkerState::Length {
            cmd,
            span: span_of(b@),
        }),
        (WorkerState::Length { cmd, span }, WorkerEvent::Received(b)) => next == (
        WorkerState::Payload { cmd, span, len: le_value(b@) as u64 as usize }),
        (WorkerState::Payload { cmd, span, .. }, WorkerEvent::Received(b)) => is_after_request(
            cmd,
            span,
            b@,
            next,
        ),
        (WorkerState::Compute { .. }, WorkerEvent::Computed(t)) => is_after_compute(t, next),
        (WorkerState::RespondLen { response }, _) => next == (WorkerState::Respond { response }),
        (WorkerState::Respond { .. }, _) => next is Flush,
        (WorkerState::Flush, _) => next is Command,
        _ => next is Closed,
    }
}

/// What is to be done in a state.
pub fn worker_action(state: &WorkerState) -> (r: WorkerAction<'_>)
    ensures
        match *state {
            WorkerState::Command => r == WorkerAction::Read(1),
            WorkerState::Range { .. } => r == WorkerAction::Read(16),
            WorkerState::Length { .. } => r == WorkerAction::Read(8),
            WorkerState::Payload { len, .. } => r == WorkerAction::Read(len),
            WorkerState::Compute { hidden, span } => r == WorkerAction::Compute(&hidden, span),
            WorkerState::Reset => r is Reset,
            WorkerState::RespondLen { response } => r matches WorkerAction::WriteLen(b) && b@
                == le_bytes(response@.len(), 8),
            WorkerState::Respond { response } => r matches WorkerAction::Write(b) && b@
                == response@,
            WorkerState::Flush => r is Flush,
            WorkerState::Closed => r is Close,
        },
{
    match state {
        WorkerState::Command => WorkerAction::Read(1),
        WorkerState::Range { .. } => WorkerAction::Read(16),
        WorkerState::Length { .. } => WorkerAction::Read(8),
        WorkerState::Payload { len, .. } => WorkerAction::Read(*len),
        WorkerState::Compute { hidden, span } => WorkerAction::Compute(hidden, *span),
        WorkerState::Reset => WorkerAction::Reset,
        WorkerState::RespondLen { response } => WorkerAction::WriteLen(encode_len(response.len())),
        WorkerState::Respond { response } => WorkerAction::Write(response.as_slice()),
        WorkerState::Flush => WorkerAction::Flush,
        WorkerState::Closed => WorkerAction::Close,
    }
}

/// The state after a whole request has been read.
fn after_request(cmd: u8, span: LayerSpan, payload: &Vec<u8>) -> (next: WorkerState)
    ensures
        is_after_request(cmd, span, payload@, next),
{
    if cmd == CMD_COMPUTE {
        if !is_readable(payload.as_slice()) {
            return WorkerState::Closed;
        }
        let cpu = candle_cpu();
        match deserialize_tensor(payload.as_slice(), &cpu) {
            Ok(hidden) => WorkerState::Compute { hidden, span },
            Err(_) => WorkerState::Closed,
        }
    } else if cmd == CMD_RESET {
        WorkerState::Reset
    } else {
        WorkerState::Closed
    }
}

/// Takes note of what came of an action.
pub fn worker_step(state: WorkerState, event: WorkerEvent) -> (next: WorkerState)
    requires
        worker_event_fits(state, event),
    ensures
        is_worker_step(state, event, next),
{
    match (state, event) {
        (WorkerState::Reset, _) => WorkerState::Command,
        (WorkerState::Closed, _) => WorkerState::Closed,
        (_, WorkerEvent::Failed) => WorkerState::Closed,
        (WorkerState::Command, WorkerEvent::Received(b)) => WorkerState::Range { cmd: b[0] },
        (WorkerState::Range { cmd }, WorkerEvent::Received(b)) => {
            let (start, end, past_kv) = decode_range(b.as_slice());
            WorkerState::Length {
                cmd,
                span: LayerSpan {
                    start: start as usize,
                    end: end as usize,
                    past_kv: past_kv as usize,
                },
            }
        },
        (WorkerState::Length { cmd, span }, WorkerEvent::Received(b)) => WorkerState::Payload {
            cmd,
            span,
            len: decode_len(b.as_slice()),
        },
        (WorkerState::Payload { cmd, span, .. }, WorkerEvent::Received(b)) => after_request(
            cmd,
            span,
            &b,
        ),
        (WorkerState::Compute { .. }, WorkerEvent::Computed(t)) => match serialize_tensor(&t) {
            Ok(response) => WorkerState::RespondLen { response },
            Err(_) => WorkerState::Closed,
        },
        (WorkerState::RespondLen { response }, _) => WorkerState::Respond { response },
        (WorkerState::Respond { .. }, _) => WorkerState::Flush,
        (WorkerState::Flush, _) => WorkerState::Command,
        _ => WorkerState::Closed,
    }
}

/// A worker that reads a request for hidden states runs exactly the layers that the host named on
/// exactly the hidden states that it sent.
pub proof fn worker_runs_what_was_sent(
    v: TensorView,
    layer_start: u32,
    layer_end: u32,
    past_kv: u32,
    cmd: Vec<u8>,
    range: Vec<u8>,
    len: Vec<u8>,
    payload: Vec<u8>,
    s1: WorkerState,
    s2: WorkerState,
    s3: WorkerState,
    s4: WorkerState,
)
    requires
        consistent(v),
        fits(v.dims),
        cmd@ == seq![CMD_COMPUTE],
        range@ == range_bytes(layer_start, layer_end, past_kv),
        payload@ == tensor_bytes(v),
        payload@.len() <= usize::MAX,
        len@ == le_bytes(payload@.len(), 8),
        is_worker_step(WorkerState::Command, WorkerEvent::Received(cmd), s1),
        is_worker_step(s1, WorkerEvent::Received(range), s2),
        is_worker_step(s2, WorkerEvent::Received(len), s3),
        is_worker_step(s3, WorkerEvent::Received(payload), s4),
    ensures
        s3 matches WorkerState::Payload { len: asked, .. } && asked == payload@.len(),
        s4 matches WorkerState::Compute { hidden, span } && view_of(hidden) == v && span == (
        LayerSpan {
            start: layer_start as usize,
            end: layer_end as usize,
            past_kv: past_kv as usize,
        }),
{
    byte_range_values();
    le_bytes_len(layer_start as nat, 4);
    le_bytes_len(layer_end as nat, 4);
    le_bytes_len(past_kv as nat, 4);
    le_bytes_len(0, 4);
    le_value_of_bytes(layer_start as nat, 4);
    le_value_of_bytes(layer_end as nat, 4);
    le_value_of_bytes(past_kv as nat, 4);
    assert(range@.subrange(0, 4) =~= le_bytes(layer_start as nat, 4));
    assert(range@.subrange(4, 8) =~= le_bytes(layer_end as nat, 4));
    assert(range@.subrange(8, 12) =~= le_bytes(past_kv as nat, 4));
    le_value_of_bytes(payload@.len(), 8);
    let none = Seq::<u8>::empty();
    assert(payload@ + none =~= payload@);
    tensor_bytes_len(v);
    written_tensor_is_read(v, none);
}

/// How many bytes a tensor takes.
proof fn tensor_bytes_len(v: TensorView)
    ensures
        tensor_bytes(v).len() == 16 + 8 * v.dims.len() + 4 * v.words.len(),
{
    le_bytes_len(v.words.len(), 8);
    le_bytes_len(v.dims.len(), 8);
    crate::codec::dims_bytes_len(v.dims);
    crate::tensor::words_bytes_len(v.words);
}

/// A host that reads a worker's response finds exactly what the layers have put out.
pub proof fn host_reads_what_was_computed(output: Tensor, next: WorkerState)
    requires
        consistent(view_of(output)),
        is_after_compute(output, next),
        next matches WorkerState::RespondLen { response } && response@.len() <= usize::MAX,
    ensures
        next matches WorkerState::RespondLen { response } && holds_tensor(response@) && read_tensor(
            response@,
        ) == view_of(output),
{
    let none = Seq::<u8>::empty();
    let response = next->RespondLen_response;
    assert(response@ + none =~= response@);
    tensor_bytes_len(view_of(output));
    written_tensor_is_read(view_of(output), none);
}

/// What layers have put out goes back whole: its length, then its bytes, and then the next request is
/// read.
pub proof fn output_goes_back_whole(
    output: Tensor,
    hidden: Tensor,
    span: LayerSpan,
    s1: WorkerState,
    s2: WorkerState,
    s3: WorkerState,
    s4: WorkerState,
)
    requires
        writable(output),
        fits(tensor_dims(output)),
        is_worker_step(WorkerState::Compute { hidden, span }, WorkerEvent::Computed(output), s1),
        is_worker_step(s1, WorkerEvent::Did, s2),
        is_worker_step(s2, WorkerEvent::Did, s3),
        is_worker_step(s3, WorkerEvent::Did, s4),
    ensures
        s1 matches WorkerState::RespondLen { response } && s2 == (WorkerState::Respond { response })
            && response@ == tensor_bytes(view_of(output)),
        s3 is Flush,
        s4 is Command,
{
}

/// Forgetting what is cached is not answered: whether it works out or not, the next request is read.
/// Any other failure closes the connection for good.
pub proof fn failures_close(
    state: WorkerState,
    event: WorkerEvent,
    next: WorkerState,
    later: WorkerEvent,
    last: WorkerState,
)
    requires
        is_worker_step(state, event, next),
        is_worker_step(next, later, last),
    ensures
        state is Reset ==> next is Command,
        !(state is Reset) && event is Failed ==> next is Closed && last is Closed,
        state is Closed ==> next is Closed,
{
}

/// A request to forget what is cached is carried out whatever layers and payload it names, and one
/// with a command that is not known ends the connection.
pub proof fn commands_are_told_apart(
    span: LayerSpan,
    len: usize,
    cmd: u8,
    payload: Vec<u8>,
    next: WorkerState,
)
    requires
        is_worker_step(
            WorkerState::Payload { cmd, span, len },
            WorkerEvent::Received(payload),
            next,
        ),
    ensures
        next is Reset <==> cmd == 1,
        next is Compute ==> cmd == 0,
        cmd > 1 ==> next is Closed,
        cmd == 0 ==> next is Compute || next is Closed,
{
}

} // verus!
