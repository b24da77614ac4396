use candle_core::{Device, Tensor};
use remote_layers::codec::serialize_tensor;
use remote_layers::mapper::{
    finish_map, Delegation, DeviceChoice, MapAction, RemoteLayerMapper,
};
use remote_layers::ops::TensorError;
use remote_layers::pool::{
    connect_options, reconnect_options, Exchange, ExchangeAction, ExchangeEvent, PoolError,
    RemoteConnectionPool,
};
use remote_layers::topology::RemoteAwareDevice;
use remote_layers::wire::{CMD_COMPUTE, CMD_RESET};
use remote_layers::worker::{
    layer_range, worker_action, worker_step, LayerSpan, WorkerAction, WorkerEvent, WorkerState,
};

fn local() -> RemoteAwareDevice {
    RemoteAwareDevice::Local(Device::Cpu)
}

fn remote(addr: &str) -> RemoteAwareDevice {
    RemoteAwareDevice::Remote { addr: addr.to_string() }
}

/// Layers 0, 1 and 7 here; 2 and 3 at `a`; 4 at `b`; 5 and 6 at `a` again.
fn specs() -> Vec<RemoteAwareDevice> {
    vec![
        local(),
        local(),
        remote("a:1"),
        remote("a:1"),
        remote("b:2"),
        remote("a:1"),
        remote("a:1"),
        local(),
    ]
}

fn hidden() -> Tensor {
    Tensor::from_vec(vec![1.0f32, 2.0, 3.0, 4.0], (1, 2, 2), &Device::Cpu).unwrap()
}

fn vals(x: &Tensor) -> Vec<f32> {
    x.flatten_all().unwrap().to_vec1::<f32>().unwrap()
}

#[test]
fn all_layers_if_both_bounds_are_zero() {
    assert_eq!(layer_range(0, 0), None);
    assert_eq!(layer_range(0, 3), Some((0, 3)));
    assert_eq!(layer_range(8, 23), Some((8, 23)));
}

#[test]
fn devices_know_whether_they_are_remote() {
    assert!(!local().is_remote());
    assert!(remote("a:1").is_remote());
}

#[test]
fn worker_is_asked_once_for_each_block() {
    let mut mapper = RemoteLayerMapper::new(specs());
    mapper.set_past_kv(17);
    let payload = serialize_tensor(&hidden()).unwrap();
    let mut asked = Vec::new();
    for layer in 0..10usize {
        match mapper.map(&hidden(), layer).unwrap() {
            MapAction::Local => assert!(matches!(layer, 0 | 1 | 7)),
            MapAction::Pass => assert!(matches!(layer, 3 | 6 | 8 | 9)),
            MapAction::Send(q) => {
                assert_eq!(q.payload, payload);
                assert_eq!(q.past_kv, 17);
                asked.push((layer, q.addr, q.layer_start, q.layer_end));
            }
        }
    }
    assert_eq!(
        asked,
        vec![
            (2, "a:1".to_string(), 2, 3),
            (4, "b:2".to_string(), 4, 4),
            (5, "a:1".to_string(), 5, 6)
        ]
    );
}

#[test]
fn nothing_is_cached_at_first() {
    let mapper = RemoteLayerMapper::new(vec![remote("a:1")]);
    match mapper.map(&hidden(), 0).unwrap() {
        MapAction::Send(q) => assert_eq!(q.past_kv, 0),
        other => panic!("unexpected {other:?}"),
    }
}

#[test]
fn hidden_states_too_large_are_not_sent() {
    let mapper = RemoteLayerMapper::new(vec![remote("a:1")]);
    let endless = Tensor::new(&[1.0f32], &Device::Cpu)
        .unwrap()
        .broadcast_as((1usize << 31, 1usize << 31))
        .unwrap();
    assert!(matches!(mapper.map(&endless, 0), Err(TensorError::TooLarge)));
}

#[test]
fn layers_are_told_apart() {
    let mapper = RemoteLayerMapper::new(specs());
    assert_eq!(mapper.num_device_mapping_layers(), 8);
    let remote_layers: Vec<usize> = (0..10).filter(|i| mapper.is_layer_remote(*i)).collect();
    assert_eq!(remote_layers, vec![2, 3, 4, 5, 6]);
    assert!(matches!(mapper.device_for(0, false), DeviceChoice::Here(d) if d.is_cpu()));
    assert!(matches!(mapper.device_for(2, false), DeviceChoice::Nowhere));
    assert!(matches!(mapper.device_for(9, false), DeviceChoice::AskLocal));
    assert!(matches!(mapper.device_for(2, true), DeviceChoice::AskLocal));
    assert_eq!(mapper.set_device(0), Delegation::AskLocal);
    assert_eq!(mapper.set_device(2), Delegation::NotLocal);
    assert_eq!(mapper.set_device(9), Delegation::NotLocal);
    assert_eq!(mapper.get_comm_for(7), Delegation::AskLocal);
    assert_eq!(mapper.get_comm_for(4), Delegation::NotLocal);
    assert_eq!(mapper.get_comm_for(8), Delegation::NotLocal);
}

#[test]
fn response_is_read_back() {
    let bytes = serialize_tensor(&hidden()).unwrap();
    let t = finish_map(&bytes, &hidden()).unwrap();
    assert_eq!(t.dims(), &[1, 2, 2]);
    assert_eq!(vals(&t), vals(&hidden()));
    assert!(matches!(
        finish_map(&bytes[..bytes.len() - 2], &hidden()),
        Err(TensorError::ShortBuffer { .. })
    ));
}

#[test]
fn each_worker_has_one_connection() {
    let pool = RemoteConnectionPool::new(&specs());
    assert_eq!(pool.len(), 2);
    assert_eq!(pool.addr(0), "a:1");
    assert_eq!(pool.addr(1), "b:2");
    assert_eq!(RemoteConnectionPool::new(&[local()]).len(), 0);
}

#[test]
fn connections_are_set_up() {
    let first = connect_options();
    assert!(first.nodelay);
    assert_eq!(first.read_timeout_secs, Some(300));
    assert_eq!(first.write_timeout_secs, Some(30));
    let again = reconnect_options();
    assert!(again.nodelay);
    assert_eq!(again.read_timeout_secs, Some(300));
    assert_eq!(again.write_timeout_secs, Some(30));
}

#[test]
fn unknown_worker_has_no_connection() {
    let pool = RemoteConnectionPool::new(&specs());
    let r = pool.roundtrip(&"c:3".to_string(), CMD_COMPUTE, 0, 0, 0, &[]);
    assert!(matches!(r, Err(PoolError::NoConnection)));
}

/// Carries an exchange out over a connection that answers `answer` to the `good`-th attempt and
/// fails before. Gives what was written in each attempt, and the response.
fn carry_out(
    mut x: Exchange<'_>,
    answer: &[u8],
    fail_at: &[usize],
) -> (Vec<Vec<u8>>, Option<Vec<u8>>, bool) {
    let mut written = vec![Vec::new()];
    let mut at = 0;
    let mut events = 0;
    let mut body = None;
    let mut reconnected = false;
    loop {
        let fails = fail_at.contains(&events);
        events += 1;
        match x.action() {
            ExchangeAction::Stop => return (written, body, reconnected),
            _ if fails => x.advance(ExchangeEvent::Failed),
            ExchangeAction::Write(b) => {
                let b = b.to_vec();
                written.last_mut().unwrap().extend_from_slice(&b);
                x.advance(ExchangeEvent::Did);
            }
            ExchangeAction::Flush => x.advance(ExchangeEvent::Did),
            ExchangeAction::Read(n) => {
                let got = answer[at..at + n].to_vec();
                at += n;
                x.advance(ExchangeEvent::Received(&got));
                body = Some(got);
            }
            ExchangeAction::Reconnect => {
                reconnected = true;
                at = 0;
                body = None;
                written.push(Vec::new());
                x.advance(ExchangeEvent::Did);
            }
        }
    }
}

fn exchange<'a>(payload: &'a [u8]) -> Exchange<'a> {
    let pool = RemoteConnectionPool::new(&specs());
    let (i, x) = pool
        .roundtrip(&"b:2".to_string(), CMD_COMPUTE, 4, 4, 9, payload)
        .unwrap();
    assert_eq!(i, 1);
    x
}

const ANSWER: [u8; 11] = [3, 0, 0, 0, 0, 0, 0, 0, 7, 8, 9];

fn request() -> Vec<u8> {
    let mut r = vec![0, 4, 0, 0, 0, 4, 0, 0, 0, 9, 0, 0, 0, 0, 0, 0, 0, 2, 0, 0, 0, 0, 0, 0, 0];
    r.extend_from_slice(&[5, 6]);
    r
}

#[test]
fn request_is_written_and_response_read() {
    let (written, body, again) = carry_out(exchange(&[5, 6]), &ANSWER, &[]);
    assert_eq!(written, vec![request()]);
    assert_eq!(body, Some(vec![7, 8, 9]));
    assert!(!again);
}

#[test]
fn lost_connection_is_made_again_once() {
    for at in 0..5usize {
        let (written, body, again) = carry_out(exchange(&[5, 6]), &ANSWER, &[at]);
        assert_eq!(written.len(), 2);
        assert_eq!(written[1], request());
        assert_eq!(body, Some(vec![7, 8, 9]));
        assert!(again);
    }
}

#[test]
fn connection_lost_twice_is_given_up() {
    let mut x = exchange(&[5, 6]);
    x.advance(ExchangeEvent::Failed);
    assert!(matches!(x.action(), ExchangeAction::Reconnect));
    x.advance(ExchangeEvent::Did);
    x.advance(ExchangeEvent::Did);
    x.advance(ExchangeEvent::Failed);
    assert!(matches!(x.action(), ExchangeAction::Stop));
    assert_eq!(x.outcome(), Some(Err(PoolError::Lost)));
}

#[test]
fn worker_that_stays_away_is_given_up() {
    let mut x = exchange(&[5, 6]);
    assert_eq!(x.outcome(), None);
    x.advance(ExchangeEvent::Failed);
    x.advance(ExchangeEvent::Failed);
    assert!(matches!(x.action(), ExchangeAction::Stop));
    assert_eq!(x.outcome(), Some(Err(PoolError::Unreachable)));
}

#[test]
fn finished_exchange_says_so() {
    let mut x = exchange(&[]);
    x.advance(ExchangeEvent::Did);
    x.advance(ExchangeEvent::Did);
    x.advance(ExchangeEvent::Did);
    x.advance(ExchangeEvent::Received(&ANSWER[..8]));
    x.advance(ExchangeEvent::Received(&ANSWER[8..]));
    assert_eq!(x.outcome(), Some(Ok(())));
}

/// Lets a worker read bytes until it wants to do something else.
fn feed(mut state: WorkerState, bytes: &[u8]) -> (WorkerState, usize) {
    let mut at = 0;
    loop {
        let n = match worker_action(&state) {
            WorkerAction::Read(n) => n,
            _ => return (state, at),
        };
        if at + n > bytes.len() {
            return (state, at);
        }
        state = worker_step(state, WorkerEvent::Received(bytes[at..at + n].to_vec()));
        at += n;
    }
}

fn compute_request(payload: &[u8]) -> Vec<u8> {
    let pool = RemoteConnectionPool::new(&[remote("w:1")]);
    let (_, x) = pool
        .roundtrip(&"w:1".to_string(), CMD_COMPUTE, 2, 3, 11, payload)
        .unwrap();
    let (written, _, _) = carry_out(x, &[0; 8], &[]);
    written[0].clone()
}

#[test]
fn worker_runs_what_the_host_sent() {
    let payload = serialize_tensor(&hidden()).unwrap();
    let mut bytes = compute_request(&payload);
    let len = bytes.len();
    bytes.extend_from_slice(&[1, 2, 3]);
    let (state, at) = feed(WorkerState::Command, &bytes);
    assert_eq!(at, len);
    match worker_action(&state) {
        WorkerAction::Compute(h, span) => {
            assert_eq!(h.dims(), &[1, 2, 2]);
            assert_eq!(vals(h), vals(&hidden()));
            assert_eq!(span, LayerSpan { start: 2, end: 3, past_kv: 11 });
        }
        _ => panic!("no layers are run"),
    }
    // The result goes back, and the next request is read.
    let out = Tensor::from_vec(vec![9.0f32, 8.0], (1, 1, 2), &Device::Cpu).unwrap();
    let response = serialize_tensor(&out).unwrap();
    let state = worker_step(state, WorkerEvent::Computed(out));
    match worker_action(&state) {
        WorkerAction::WriteLen(b) => assert_eq!(b, (response.len() as u64).to_le_bytes().to_vec()),
        _ => panic!("no length is written"),
    }
    let state = worker_step(state, WorkerEvent::Did);
    match worker_action(&state) {
        WorkerAction::Write(b) => assert_eq!(b, &response[..]),
        _ => panic!("no response is written"),
    }
    let state = worker_step(state, WorkerEvent::Did);
    assert!(matches!(worker_action(&state), WorkerAction::Flush));
    let state = worker_step(state, WorkerEvent::Did);
    assert!(matches!(worker_action(&state), WorkerAction::Read(1)));
}

fn short_request(cmd: u8, payload: &[u8]) -> Vec<u8> {
    let mut r = vec![cmd];
    r.extend_from_slice(&[0; 16]);
    r.extend_from_slice(&(payload.len() as u64).to_le_bytes());
    r.extend_from_slice(payload);
    r
}

#[test]
fn reset_goes_on_whatever_comes_of_it() {
    let (state, _) = feed(WorkerState::Command, &short_request(CMD_RESET, &[]));
    assert!(matches!(worker_action(&state), WorkerAction::Reset));
    let state = worker_step(state, WorkerEvent::Failed);
    assert!(matches!(worker_action(&state), WorkerAction::Read(1)));
    let (state, _) = feed(state, &short_request(CMD_RESET, &[1, 2]));
    let state = worker_step(state, WorkerEvent::Did);
    assert!(matches!(worker_action(&state), WorkerAction::Read(1)));
}

#[test]
fn unknown_command_ends_the_connection_once_it_is_read() {
    let bytes = short_request(7, &[1, 2, 3]);
    let (state, at) = feed(WorkerState::Command, &bytes);
    assert_eq!(at, bytes.len());
    assert!(matches!(worker_action(&state), WorkerAction::Close));
}

#[test]
fn payload_without_a_tensor_ends_the_connection() {
    let whole = serialize_tensor(&hidden()).unwrap();
    for payload in [&[][..], &[1, 2, 3][..], &whole[..whole.len() - 1]] {
        let (state, _) = feed(WorkerState::Command, &short_request(CMD_COMPUTE, payload));
        assert!(matches!(worker_action(&state), WorkerAction::Close));
    }
}

#[test]
fn failures_end_the_connection() {
    let request = compute_request(&serialize_tensor(&hidden()).unwrap());
    for n in [0, 1, 17, 25] {
        let (state, _) = feed(WorkerState::Command, &request[..n]);
        let state = worker_step(state, WorkerEvent::Failed);
        assert!(matches!(worker_action(&state), WorkerAction::Close));
    }
    let (state, _) = feed(WorkerState::Command, &request);
    let state = worker_step(state, WorkerEvent::Failed);
    assert!(matches!(worker_action(&state), WorkerAction::Close));
    let endless = Tensor::new(&[1.0f32], &Device::Cpu)
        .unwrap()
        .broadcast_as((1usize << 31, 1usize << 31))
        .unwrap();
    let (state, _) = feed(WorkerState::Command, &request);
    let state = worker_step(state, WorkerEvent::Computed(endless));
    assert!(matches!(worker_action(&state), WorkerAction::Close));
    // Whatever numbers are in main memory can be written.
    let double = Tensor::from_vec(vec![1.5f64, -2.0], (1, 1, 2), &Device::Cpu).unwrap();
    let (state, _) = feed(WorkerState::Command, &request);
    let state = worker_step(state, WorkerEvent::Computed(double));
    let single = Tensor::from_vec(vec![1.5f32, -2.0], (1, 1, 2), &Device::Cpu).unwrap();
    assert!(matches!(
        &state,
        WorkerState::RespondLen { response } if *response == serialize_tensor(&single).unwrap()
    ));
    for steps in 0..3usize {
        let (mut state, _) = feed(WorkerState::Command, &request);
        state = worker_step(state, WorkerEvent::Computed(hidden()));
        for _ in 0..steps {
            state = worker_step(state, WorkerEvent::Did);
        }
        state = worker_step(state, WorkerEvent::Failed);
        assert!(matches!(worker_action(&state), WorkerAction::Close));
    }
}
