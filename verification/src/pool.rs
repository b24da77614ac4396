//! A host's connections to its workers, and what is exchanged over them.
use vstd::prelude::*;

use crate::topology::RemoteAwareDevice;
use crate::wire::{decode_len, encode_header, request_bytes, HEADER_LEN, RequestHeader};
use crate::le::le_value;

verus! {

/// How a connection is set up: whether small packets are sent at once, and after how many seconds
/// without progress reading and writing fail.
#[derive(Debug, Clone, Copy, PartialEq, Eq, Structural)]
pub struct ConnectOptions {
    pub nodelay: bool,
    pub read_timeout_secs: Option<u64>,
    pub write_timeout_secs: Option<u64>,
}

/// Setup of the first connection to a worker.
pub fn connect_options() -> (r: ConnectOptions)
    ensures
        r == (ConnectOptions {
            nodelay: true,
            read_timeout_secs: Some(300),
            write_timeout_secs: Some(30),
        }),
{
    ConnectOptions { nodelay: true, read_timeout_secs: Some(300), write_timeout_secs: Some(30) }
}

/// Setup of a connection that replaces one that was lost: that of any other.
pub fn reconnect_options() -> (r: ConnectOptions)
    ensures
        r == (ConnectOptions {
            nodelay: true,
            read_timeout_secs: Some(300),
            write_timeout_secs: Some(30),
        }),
{
    connect_options()
}

/// The workers that layers run on, each once, in the order in which they first occur.
pub open spec fn workers_in(specs: Seq<RemoteAwareDevice>) -> Seq<Seq<char>>
    decreases specs.len(),
{
    if specs.len() == 0 {
        Seq::empty()
    } else {
        let before = workers_in(specs.drop_last());
        match specs.last().worker() {
            None => before,
            Some(addr) => if before.contains(addr) {
                before
            } else {
                before.push(addr)
            },
        }
    }
}

/// The views of some strings.
pub open spec fn texts(addrs: Seq<String>) -> Seq<Seq<char>> {
    addrs.map_values(|s: String| s@)
}

/// Where `addr` stands among `addrs`, if it does.
fn find(addrs: &Vec<String>, addr: &String) -> (r: Option<usize>)
    ensures
        match r {
            Some(i) => i < addrs@.len() && addrs@[i as int]@ == addr@,
            None => !texts(addrs@).contains(addr@),
        },
{
    let mut i: usize = 0;
    while i < addrs.len()
        invariant
            i <= addrs@.len(),
            forall|k: int| 0 <= k < i ==> (#[trigger] addrs@[k])@ != addr@,
        decreases addrs@.len() - i,
    {
        if addrs[i] == *addr {
            return Some(i);
        }
        i += 1;
    }
    proof {
        assert forall|k: int| 0 <= k < texts(addrs@).len() implies texts(addrs@)[k] != addr@ by {
            assert(addrs@[k]@ != addr@);
        }
    }
    None
}

/// Why nothing came back from a worker.
#[derive(Debug, Clone, Copy, PartialEq, Eq, Structural)]
pub enum PoolError {
    /// There is no connection to a worker of this address.
    NoConnection,
    /// The connection was lost and could not be made again.
    Unreachable,
    /// The connection was lost, made again, and lost again.
    Lost,
}

/// The workers that a host keeps connections to.
pub struct RemoteConnectionPool {
    addrs: Vec<String>,
}

impl RemoteConnectionPool {
    /// The workers' addresses.
    pub closed spec fn workers(&self) -> Seq<Seq<char>> {
        texts(self.addrs@)
    }

    /// Finds the workers that layers run on.
    pub fn new(mappings: &[RemoteAwareDevice]) -> (r: Self)
        ensures
            r.workers() == workers_in(mappings@),
    {
        let mut addrs: Vec<String> = Vec::new();
        let mut i: usize = 0;
        assert(mappings@.take(0) =~= Seq::empty());
        assert(texts(addrs@) =~= Seq::empty());
        while i < mappings.len()
            invariant
                i <= mappings@.len(),
                texts(addrs@) == workers_in(mappings@.take(i as int)),
            decreases mappings@.len() - i,
        {
            proof {
                assert(mappings@.take(i + 1).drop_last() =~= mappings@.take(i as int));
            }
            let ghost before = addrs@;
            match &mappings[i] {
                RemoteAwareDevice::Remote { addr } => {
                    match find(&addrs, addr) {
                        Some(at) => {
                            assert(texts(addrs@)[at as int] == addr@);
                        },
                        None => {
                            addrs.push(addr.clone());
                            assert(texts(addrs@) =~= texts(before).push(addr@));
                        },
                    }
                },
                RemoteAwareDevice::Local(_) => {},
            }
            i += 1;
        }
        assert(mappings@.take(i as int) =~= mappings@);
        RemoteConnectionPool { addrs }
    }

    /// How many connections there are.
    pub fn len(&self) -> (r: usize)
        ensures
            r == self.workers().len(),
    {
        self.addrs.len()
    }

    /// The address of a connection.
    pub fn addr(&self, i: usize) -> (r: &String)
        requires
            i < self.workers().len(),
        ensures
            r@ == self.workers()[i as int],
    {
        &self.addrs[i]
    }

    /// The connection to a worker and the exchange to carry out over it: a request, and the
    /// response to it.
    pub fn roundtrip<'a>(
        &self,
        addr: &String,
        cmd: u8,
        layer_start: u32,
        layer_end: u32,
        past_kv: u32,
        payload: &'a [u8],
    ) -> (r: Result<(usize, Exchange<'a>), PoolError>)
        ensures
            match r {
                Ok((i, x)) => {
                    &&& i < self.workers().len()
                    &&& self.workers()[i as int] == addr@
                    &&& x.request() == request_bytes(
                        cmd,
                        layer_start,
                        layer_end,
                        past_kv,
                        payload@,
                    )
                    &&& x.wf()
                    &&& x.stage() == Stage::Header
                    &&& !x.retried()
                },
                Err(e) => e == PoolError::NoConnection && !self.workers().contains(addr@),
            },
    {
        match find(&self.addrs, addr) {
            None => Err(PoolError::NoConnection),
            Some(i) => {
                let n: usize = payload.len();
                let h = RequestHeader {
                    cmd,
                    layer_start,
                    layer_end,
                    past_kv,
                    payload_len: n as u64,
                };
                let header = encode_header(&h);
                Ok((i, Exchange { header, payload, stage: Stage::Header, retried: false }))
            },
        }
    }
}

/// How far an exchange has come.
#[derive(Debug, Clone, Copy, PartialEq, Eq, Structural)]
pub enum Stage {
    /// The header is to be written.
    Header,
    /// The payload is to be written.
    Payload,
    /// What was written is to be sent off.
    Flush,
    /// The length of the response is to be read.
    Length,
    /// The response, of this length, is to be read.
    Body(usize),
    /// The connection is to be made again.
    Reconnect,
    /// The response has been read.
    Done,
    /// Nothing came back.
    Failed(PoolError),
}

/// What is to be done next.
pub enum ExchangeAction<'b> {
    /// Write all these bytes.
    Write(&'b [u8]),
    /// Send off what was written.
    Flush,
    /// Read exactly this many bytes.
    Read(usize),
    /// Connect again to the same address.
    Reconnect,
    /// Nothing.
    Stop,
}

/// What came of it.
pub enum ExchangeEvent<'b> {
    /// It was done.
    Did,
    /// These bytes were read.
    Received(&'b [u8]),
    /// It failed.
    Failed,
}

/// The stage that follows.
pub open spec fn stage_after(stage: Stage, retried: bool, event: ExchangeEvent<'_>) -> Stage {
    match (stage, event) {
        (Stage::Done, _) => Stage::Done,
        (Stage::Failed(e), _) => Stage::Failed(e),
        (Stage::Reconnect, ExchangeEvent::Failed) => Stage::Failed(PoolError::Unreachable),
        (Stage::Reconnect, _) => Stage::Header,
        (_, ExchangeEvent::Failed) => if retried {
            Stage::Failed(PoolError::Lost)
        } else {
            Stage::Reconnect
        },
        (Stage::Header, _) => Stage::Payload,
        (Stage::Payload, _) => Stage::Flush,
        (Stage::Flush, _) => Stage::Length,
        (Stage::Length, ExchangeEvent::Received(bytes)) => Stage::Body(
            le_value(bytes@) as u64 as usize,
        ),
        (Stage::Length, _) => Stage::Length,
        (Stage::Body(_), _) => Stage::Done,
    }
}

/// The event is one that the stage can lead to: exactly as many bytes are read as asked for.
pub open spec fn event_fits(stage: Stage, event: ExchangeEvent<'_>) -> bool {
    match (stage, event) {
        (_, ExchangeEvent::Failed) => true,
        (Stage::Length, ExchangeEvent::Received(bytes)) => bytes@.len() == 8,
        (Stage::Body(n), ExchangeEvent::Received(bytes)) => bytes@.len() == n,
        (Stage::Length, _) => false,
        (Stage::Body(_), _) => false,
        (_, ExchangeEvent::Did) => true,
        _ => false,
    }
}

/// A request to a worker and the response to it. A connection that fails is made again once, and
/// the exchange starts over.
pub struct Exchange<'a> {
    header: Vec<u8>,
    payload: &'a [u8],
    stage: Stage,
    retried: bool,
}

impl<'a> Exchange<'a> {
    /// How far the exchange has come.
    pub closed spec fn stage(&self) -> Stage {
        self.stage
    }

    /// Whether the connection has been made again.
    pub closed spec fn retried(&self) -> bool {
        self.retried
    }

    /// The request.
    pub closed spec fn request(&self) -> Seq<u8> {
        self.header@ + self.payload@
    }

    /// The header has its fixed length.
    pub closed spec fn wf(&self) -> bool {
        self.header@.len() == HEADER_LEN
    }

    /// What is to be done next.
    pub fn action(&self) -> (r: ExchangeAction<'_>)
        requires
            self.wf(),
        ensures
            match self.stage() {
                Stage::Header => r matches ExchangeAction::Write(b) && b@ == self.request().take(
                    HEADER_LEN as int,
                ),
                Stage::Payload => r matches ExchangeAction::Write(b) && b@ == self.request().skip(
                    HEADER_LEN as int,
                ),
                Stage::Flush => r is Flush,
                Stage::Length => r == ExchangeAction::Read(8),
                Stage::Body(n) => r == ExchangeAction::Read(n),
                Stage::Reconnect => r is Reconnect,
                Stage::Done => r is Stop,
                Stage::Failed(_) => r is Stop,
            },
    {
        proof {
            assert(self.request().take(HEADER_LEN as int) =~= self.header@);
            assert(self.request().skip(HEADER_LEN as int) =~= self.payload@);
        }
        match self.stage {
            Stage::Header => ExchangeAction::Write(self.header.as_slice()),
            Stage::Payload => ExchangeAction::Write(self.payload),
            Stage::Flush => ExchangeAction::Flush,
            Stage::Length => ExchangeAction::Read(8),
            Stage::Body(n) => ExchangeAction::Read(n),
            Stage::Reconnect => ExchangeAction::Reconnect,
            Stage::Done => ExchangeAction::Stop,
            Stage::Failed(_) => ExchangeAction::Stop,
        }
    }

    /// How the exchange has ended, once it has.
    pub fn outcome(&self) -> (r: Option<Result<(), PoolError>>)
        ensures
            match self.stage() {
                Stage::Done => r matches Some(Ok(_)),
                Stage::Failed(e) => r matches Some(Err(why)) && why == e,
                _ => r is None,
            },
    {
        match self.stage {
            Stage::Done => Some(Ok(())),
            Stage::Failed(e) => Some(Err(e)),
            _ => None,
        }
    }

    /// Takes note of what came of it.
    pub fn advance(&mut self, event: ExchangeEvent<'_>)
        requires
            old(self).wf(),
            event_fits(old(self).stage(), event),
        ensures
            final(self).wf(),
            final(self).request() == old(self).request(),
            final(self).stage() == stage_after(old(self).stage(), old(self).retried(), event),
            final(self).retried() == (old(self).retried() || (old(self).stage()
                == Stage::Reconnect && !(event is Failed))),
    {
        match self.stage {
            Stage::Done => {},
            Stage::Failed(_) => {},
            Stage::Reconnect => match event {
                ExchangeEvent::Failed => {
                    self.stage = Stage::Failed(PoolError::Unreachable);
                },
                _ => {
                    self.stage = Stage::Header;
                    self.retried = true;
                },
            },
            Stage::Header => match event {
                ExchangeEvent::Failed => self.fail(),
                _ => {
                    self.stage = Stage::Payload;
                },
            },
            Stage::Payload => match event {
                ExchangeEvent::Failed => self.fail(),
                _ => {
                    self.stage = Stage::Flush;
                },
            },
            Stage::Flush => match event {
                ExchangeEvent::Failed => self.fail(),
                _ => {
                    self.stage = Stage::Length;
                },
            },
            Stage::Length => match event {
                ExchangeEvent::Received(bytes) => {
                    self.stage = Stage::Body(decode_len(bytes));
                },
                ExchangeEvent::Failed => self.fail(),
                ExchangeEvent::Did => {},
            },
            Stage::Body(_) => match event {
                ExchangeEvent::Failed => self.fail(),
                _ => {
                    self.stage = Stage::Done;
                },
            },
        }
    }

    /// Takes note of a failure: the first is made good by connecting again.
    fn fail(&mut self)
        ensures
            final(self).header == old(self).header,
            final(self).payload == old(self).payload,
            final(self).retried == old(self).retried,
            final(self).stage == (if old(self).retried {
                Stage::Failed(PoolError::Lost)
            } else {
                Stage::Reconnect
            }),
    {
        if self.retried {
            self.stage = Stage::Failed(PoolError::Lost);
        } else {
            self.stage = Stage::Reconnect;
        }
    }
}

/// How many events an exchange can still take.
pub open spec fn events_left(stage: Stage, retried: bool) -> nat {
    let here: nat = match stage {
        Stage::Header => 5,
        Stage::Payload => 4,
        Stage::Flush => 3,
        Stage::Length => 2,
        Stage::Body(_) => 1,
        Stage::Reconnect => 6,
        Stage::Done => 0,
        Stage::Failed(_) => 0,
    };
    if retried || stage == Stage::Reconnect || here == 0 {
        here
    } else {
        here + 6
    }
}

/// An exchange comes to an end: each event brings it nearer, and the connection is made again at
/// most once.
pub proof fn exchange_ends(stage: Stage, retried: bool, event: ExchangeEvent<'_>)
    requires
        event_fits(stage, event),
        events_left(stage, retried) > 0,
        stage == Stage::Reconnect ==> !retried,
    ensures
        ({
            let next = stage_after(stage, retried, event);
            let again = retried || (stage == Stage::Reconnect && !(event is Failed));
            &&& events_left(next, again) < events_left(stage, retried)
            &&& next == Stage::Reconnect ==> !again
        }),
{
}

/// An exchange over a connection that holds writes the header, then the payload, reads a length,
/// reads as many bytes, and is done.
pub proof fn exchange_succeeds(retried: bool, len: &[u8], body: &[u8])
    requires
        len@.len() == 8,
        body@.len() == le_value(len@) as u64 as usize,
    ensures
        ({
            let did = ExchangeEvent::Did;
            let s1 = stage_after(Stage::Header, retried, did);
            let s2 = stage_after(s1, retried, did);
            let s3 = stage_after(s2, retried, did);
            let s4 = stage_after(s3, retried, ExchangeEvent::Received(len));
            let s5 = stage_after(s4, retried, ExchangeEvent::Received(body));
            &&& s1 == Stage::Payload
            &&& s2 == Stage::Flush
            &&& s3 == Stage::Length
            &&& s4 == Stage::Body(body@.len() as usize)
            &&& event_fits(s4, ExchangeEvent::Received(body))
            &&& s5 == Stage::Done
        }),
{
}

/// A failure before the end of a first attempt leads, once the connection has been made again, to
/// a second attempt that starts over; one in a second attempt is final.
pub proof fn exchange_retries_once(stage: Stage)
    requires
        !(stage is Done),
        !(stage is Failed),
        !(stage is Reconnect),
    ensures
        stage_after(stage, false, ExchangeEvent::Failed) == Stage::Reconnect,
        stage_after(Stage::Reconnect, false, ExchangeEvent::Did) == Stage::Header,
        stage_after(Stage::Reconnect, false, ExchangeEvent::Failed) == Stage::Failed(
            PoolError::Unreachable,
        ),
        stage_after(stage, true, ExchangeEvent::Failed) == Stage::Failed(PoolError::Lost),
{
}

/// No worker is connected to twice, and every worker that a layer runs on is connected to.
pub proof fn workers_are_distinct(specs: Seq<RemoteAwareDevice>)
    ensures
        workers_in(specs).no_duplicates(),
        forall|addr: Seq<char>| #[trigger]
            workers_in(specs).contains(addr) <==> exists|i: int|
                0 <= i < specs.len() && (#[trigger] specs[i]).worker() == Some(addr),
    decreases specs.len(),
{
    if specs.len() > 0 {
        let front = specs.drop_last();
        workers_are_distinct(front);
        let before = workers_in(front);
        let all = workers_in(specs);
        let last = specs.last();
        assert(last == specs[specs.len() - 1]);
        assert forall|addr: Seq<char>| #[trigger] all.contains(addr) implies exists|i: int|
            0 <= i < specs.len() && (#[trigger] specs[i]).worker() == Some(addr) by {
            if before.contains(addr) {
                let i = choose|i: int|
                    0 <= i < front.len() && (#[trigger] front[i]).worker() == Some(addr);
                assert(specs[i] == front[i]);
            } else {
                let k = choose|k: int| 0 <= k < all.len() && all[k] == addr;
                assert(k == before.len());
                assert(specs[specs.len() - 1].worker() == Some(addr));
            }
        }
        assert forall|addr: Seq<char>|
            (exists|i: int|
                0 <= i < specs.len() && (#[trigger] specs[i]).worker() == Some(
                    addr,
                )) implies #[trigger] all.contains(addr) by {
            let i = choose|i: int|
                0 <= i < specs.len() && (#[trigger] specs[i]).worker() == Some(addr);
            if i < front.len() {
                assert(front[i] == specs[i]);
                assert(before.contains(addr));
                let k = choose|k: int| 0 <= k < before.len() && before[k] == addr;
                assert(all[k] == addr);
            } else if before.contains(addr) {
                let k = choose|k: int| 0 <= k < before.len() && before[k] == addr;
                assert(all[k] == addr);
            } else {
                assert(all[before.len() as int] == addr);
            }
        }
    }
}

} // verus!
