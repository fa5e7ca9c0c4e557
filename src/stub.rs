//! Materialization of placeholder ("stub") files: a bounded-retry state
//! machine. The caller performs each requested action (open, read a chunk,
//! sleep) and reports what happened as the next event.

use vstd::prelude::*;

verus! {

/// Most open attempts made for one stub before giving up.
pub const MAX_OPEN_ATTEMPTS: u32 = 5;

/// Seconds to wait between two open attempts.
pub const RETRY_DELAY_SECS: u64 = 2;

/// Size of each read while streaming a stub's content.
pub const CHUNK_SIZE: usize = 8192;

/// The kind of an I/O failure, as far as the retry policy distinguishes it.
#[derive(Clone, Copy, Debug, PartialEq, Eq, Structural)]
pub enum IoKind {
    PermissionDenied,
    WouldBlock,
    NotFound,
    AlreadyExists,
    Other,
}

/// A failure that means "locked or not yet available": worth retrying.
pub open spec fn is_transient(k: IoKind) -> bool {
    k == IoKind::PermissionDenied || k == IoKind::WouldBlock
}

/// Whether a failure of kind `k` is retried.
pub fn transient(k: IoKind) -> (r: bool)
    ensures
        r == is_transient(k),
{
    match k {
        IoKind::PermissionDenied | IoKind::WouldBlock => true,
        _ => false,
    }
}

/// Why materializing a stub failed.
#[derive(Clone, Copy, Debug, PartialEq, Eq, Structural)]
pub enum FetchError {
    /// The file stayed locked through every allowed open attempt.
    LockTimeout,
    /// A failure that is not retried, at open time or while streaming.
    Io(IoKind),
}

/// Where the materialization of one file stands.
#[derive(Clone, Copy, Debug, PartialEq, Eq, Structural)]
pub enum Phase {
    Idle,
    Opening,
    Streaming,
    RetryWait,
    Succeeded,
    Failed(FetchError),
}

/// What the caller reports back.
#[derive(Clone, Copy, Debug, PartialEq, Eq, Structural)]
pub enum FetchEvent {
    /// Start, with the length the file reported at discovery.
    Begin { size: u64 },
    Opened,
    OpenFailed { kind: IoKind },
    BackoffElapsed,
    /// A read returned `len` bytes; zero means end of stream.
    Chunk { len: usize },
    ReadFailed { kind: IoKind },
}

/// What the caller does next.
#[derive(Clone, Copy, Debug, PartialEq, Eq, Structural)]
pub enum FetchAction {
    Open,
    Read,
    Sleep { secs: u64 },
    /// The file is materialized (or was no stub).
    Finish,
    /// The file could not be materialized; the error is in the phase.
    Abort,
    /// The event does not apply in the current phase and changed nothing.
    Ignore,
}

/// The state of one materialization: its phase, the open attempts made so far,
/// and the bytes streamed so far (the progress position).
#[derive(Clone, Copy, Debug, PartialEq, Eq, Structural)]
pub struct StubFetch {
    pub phase: Phase,
    pub attempts: u32,
    pub received: u64,
}

/// One transition of the protocol.
pub open spec fn step(s: StubFetch, e: FetchEvent) -> (StubFetch, FetchAction) {
    match (s.phase, e) {
        (Phase::Idle, FetchEvent::Begin { size }) => if size == 0 {
            (StubFetch { phase: Phase::Opening, attempts: 1, received: 0 }, FetchAction::Open)
        } else {
            (StubFetch { phase: Phase::Succeeded, attempts: 0, received: 0 }, FetchAction::Finish)
        },
        (Phase::Opening, FetchEvent::Opened) => (
            StubFetch { phase: Phase::Streaming, ..s },
            FetchAction::Read,
        ),
        (Phase::Opening, FetchEvent::OpenFailed { kind }) => if !is_transient(kind) {
            (StubFetch { phase: Phase::Failed(FetchError::Io(kind)), ..s }, FetchAction::Abort)
        } else if s.attempts >= MAX_OPEN_ATTEMPTS {
            (StubFetch { phase: Phase::Failed(FetchError::LockTimeout), ..s }, FetchAction::Abort)
        } else {
            (
                StubFetch { phase: Phase::RetryWait, ..s },
                FetchAction::Sleep { secs: RETRY_DELAY_SECS },
            )
        },
        (Phase::RetryWait, FetchEvent::BackoffElapsed) => if s.attempts < MAX_OPEN_ATTEMPTS {
            (
                StubFetch { phase: Phase::Opening, attempts: (s.attempts + 1) as u32, ..s },
                FetchAction::Open,
            )
        } else {
            (StubFetch { phase: Phase::Failed(FetchError::LockTimeout), ..s }, FetchAction::Abort)
        },
        (Phase::Streaming, FetchEvent::Chunk { len }) => if len == 0 {
            (StubFetch { phase: Phase::Succeeded, ..s }, FetchAction::Finish)
        } else {
            (
                StubFetch {
                    received: if s.received + len > u64::MAX {
                        u64::MAX
                    } else {
                        (s.received + len) as u64
                    },
                    ..s
                },
                FetchAction::Read,
            )
        },
        (Phase::Streaming, FetchEvent::ReadFailed { kind }) => (
            StubFetch { phase: Phase::Failed(FetchError::Io(kind)), ..s },
            FetchAction::Abort,
        ),
        _ => (s, FetchAction::Ignore),
    }
}

impl StubFetch {
    /// A materialization that has not started.
    pub fn new() -> (r: StubFetch)
        ensures
            r == (StubFetch { phase: Phase::Idle, attempts: 0, received: 0 }),
    {
        StubFetch { phase: Phase::Idle, attempts: 0, received: 0 }
    }

    /// Applies one event and returns the action the caller takes next.
    pub fn handle(&mut self, e: FetchEvent) -> (r: FetchAction)
        ensures
            (*final(self), r) == step(*old(self), e),
    {
        let s = *self;
        match (s.phase, e) {
            (Phase::Idle, FetchEvent::Begin { size }) => {
                if size == 0 {
                    *self = StubFetch { phase: Phase::Opening, attempts: 1, received: 0 };
                    FetchAction::Open
                } else {
                    *self = StubFetch { phase: Phase::Succeeded, attempts: 0, received: 0 };
                    FetchAction::Finish
                }
            },
            (Phase::Opening, FetchEvent::Opened) => {
                self.phase = Phase::Streaming;
                FetchAction::Read
            },
            (Phase::Opening, FetchEvent::OpenFailed { kind }) => {
                if !transient(kind) {
                    self.phase = Phase::Failed(FetchError::Io(kind));
                    FetchAction::Abort
                } else if s.attempts >= MAX_OPEN_ATTEMPTS {
                    self.phase = Phase::Failed(FetchError::LockTimeout);
                    FetchAction::Abort
                } else {
                    self.phase = Phase::RetryWait;
                    FetchAction::Sleep { secs: RETRY_DELAY_SECS }
                }
            },
            (Phase::RetryWait, FetchEvent::BackoffElapsed) => {
                if s.attempts < MAX_OPEN_ATTEMPTS {
                    self.phase = Phase::Opening;
                    self.attempts = s.attempts + 1;
                    FetchAction::Open
                } else {
                    self.phase = Phase::Failed(FetchError::LockTimeout);
                    FetchAction::Abort
                }
            },
            (Phase::Streaming, FetchEvent::Chunk { len }) => {
                if len == 0 {
                    self.phase = Phase::Succeeded;
                    FetchAction::Finish
                } else {
                    self.received = self.received.saturating_add(len as u64);
                    FetchAction::Read
                }
            },
            (Phase::Streaming, FetchEvent::ReadFailed { kind }) => {
                self.phase = Phase::Failed(FetchError::Io(kind));
                FetchAction::Abort
            },
            _ => FetchAction::Ignore,
        }
    }

    /// The outcome once the machine has stopped: `None` while work remains.
    pub fn outcome(&self) -> (r: Option<Result<(), FetchError>>)
        ensures
            r == outcome_of(*self),
    {
        match self.phase {
            Phase::Succeeded => Some(Ok(())),
            Phase::Failed(err) => Some(Err(err)),
            _ => None,
        }
    }
}

/// The result a stopped machine reports.
pub open spec fn outcome_of(s: StubFetch) -> Option<Result<(), FetchError>> {
    match s.phase {
        Phase::Succeeded => Some(Ok(())),
        Phase::Failed(err) => Some(Err(err)),
        _ => None,
    }
}

/// The state and the actions after feeding `events` in order, starting from `s`.
pub open spec fn run(s: StubFetch, events: Seq<FetchEvent>) -> (StubFetch, Seq<FetchAction>)
    decreases events.len(),
{
    if events.len() == 0 {
        (s, Seq::empty())
    } else {
        let prev = run(s, events.drop_last());
        let next = step(prev.0, events.last());
        (next.0, prev.1.push(next.1))
    }
}

/// How many of `acts` are of the given kind.
pub open spec fn count_of(acts: Seq<FetchAction>, a: FetchAction) -> nat
    decreases acts.len(),
{
    if acts.len() == 0 {
        0
    } else {
        count_of(acts.drop_last(), a) + if acts.last() == a {
            1nat
        } else {
            0nat
        }
    }
}

/// The states the protocol can reach from a fresh start.
pub open spec fn reachable_ok(s: StubFetch) -> bool {
    &&& s.attempts <= MAX_OPEN_ATTEMPTS
    &&& s.phase == Phase::Idle ==> s.attempts == 0
    &&& s.phase == Phase::RetryWait ==> s.attempts < MAX_OPEN_ATTEMPTS
}

/// Feeding one more event extends the run by one step.
proof fn lemma_run_push(s: StubFetch, events: Seq<FetchEvent>, e: FetchEvent)
    ensures
        run(s, events.push(e)) == (step(run(s, events).0, e).0, run(s, events).1.push(
            step(run(s, events).0, e).1,
        )),
{
    assert(events.push(e).drop_last() =~= events);
}

/// Counting over one more action.
proof fn lemma_count_push(acts: Seq<FetchAction>, b: FetchAction, a: FetchAction)
    ensures
        count_of(acts.push(b), a) == count_of(acts, a) + if b == a {
            1nat
        } else {
            0nat
        },
{
    assert(acts.push(b).drop_last() =~= acts);
}

/// Every open the protocol asks for is counted in `attempts`, which never
/// exceeds the cap: from a fresh start, any sequence of events yields at most
/// `MAX_OPEN_ATTEMPTS` opens.
pub proof fn lemma_open_attempts_capped(events: Seq<FetchEvent>)
    ensures
        count_of(run(StubFetch { phase: Phase::Idle, attempts: 0, received: 0 }, events).1,
            FetchAction::Open) == run(StubFetch { phase: Phase::Idle, attempts: 0, received: 0 },
            events).0.attempts,
        count_of(run(StubFetch { phase: Phase::Idle, attempts: 0, received: 0 }, events).1,
            FetchAction::Open) <= MAX_OPEN_ATTEMPTS,
        reachable_ok(run(StubFetch { phase: Phase::Idle, attempts: 0, received: 0 }, events).0),
    decreases events.len(),
{
    let s0 = StubFetch { phase: Phase::Idle, attempts: 0, received: 0 };
    if events.len() > 0 {
        let init = events.drop_last();
        lemma_open_attempts_capped(init);
        assert(init.push(events.last()) =~= events);
        lemma_run_push(s0, init, events.last());
        let prev = run(s0, init);
        lemma_count_push(prev.1, step(prev.0, events.last()).1, FetchAction::Open);
    } else {
        assert(count_of(Seq::<FetchAction>::empty(), FetchAction::Open) == 0);
    }
}

/// Between two opens there is always a backoff: an open is asked for only at
/// the start or right after the wait that a `Sleep` of `RETRY_DELAY_SECS`
/// began, and that wait is entered only by asking for that sleep.
pub proof fn lemma_opens_follow_backoff(s: StubFetch, e: FetchEvent)
    ensures
        step(s, e).1 == FetchAction::Open ==> (s.phase == Phase::Idle || s.phase
            == Phase::RetryWait),
        step(s, e).1 == FetchAction::Open && s.phase == Phase::Idle ==> step(s, e).0.attempts == 1,
        step(s, e).0.phase == Phase::RetryWait && s.phase != Phase::RetryWait ==> step(s, e).1
            == (FetchAction::Sleep { secs: RETRY_DELAY_SECS }),
        s.phase == Phase::RetryWait && step(s, e).0.phase != Phase::RetryWait ==> e
            == FetchEvent::BackoffElapsed,
{
}

/// The events a stub that never becomes openable produces: the start, then for
/// each of `n` attempts a transient open failure, each but the last followed by
/// the end of the backoff.
pub open spec fn locked_events(kind: IoKind, n: nat) -> Seq<FetchEvent>
    decreases n,
{
    if n == 0 {
        seq![FetchEvent::Begin { size: 0 }]
    } else if n == 1 {
        seq![FetchEvent::Begin { size: 0 }, FetchEvent::OpenFailed { kind }]
    } else {
        locked_events(kind, (n - 1) as nat).push(FetchEvent::BackoffElapsed).push(
            FetchEvent::OpenFailed { kind },
        )
    }
}

/// A stub that stays locked is opened exactly `MAX_OPEN_ATTEMPTS` times, with
/// one retry delay before each open after the first, and then fails with
/// `LockTimeout`.
pub proof fn lemma_locked_stub_gives_up(kind: IoKind)
    requires
        is_transient(kind),
    ensures
        ({
            let r = run(
                StubFetch { phase: Phase::Idle, attempts: 0, received: 0 },
                locked_events(kind, MAX_OPEN_ATTEMPTS as nat),
            );
            &&& r.0.phase == Phase::Failed(FetchError::LockTimeout)
            &&& count_of(r.1, FetchAction::Open) == MAX_OPEN_ATTEMPTS
            &&& count_of(r.1, FetchAction::Sleep { secs: RETRY_DELAY_SECS }) == MAX_OPEN_ATTEMPTS
                - 1
            &&& r.1.last() == FetchAction::Abort
        }),
{
    lemma_locked_prefix(kind, MAX_OPEN_ATTEMPTS as nat);
}

/// After `n < MAX_OPEN_ATTEMPTS` locked attempts the machine waits to retry,
/// having opened `n` times and slept `n` times; at the cap it has failed.
proof fn lemma_locked_prefix(kind: IoKind, n: nat)
    requires
        is_transient(kind),
        1 <= n <= MAX_OPEN_ATTEMPTS,
    ensures
        ({
            let r = run(
                StubFetch { phase: Phase::Idle, attempts: 0, received: 0 },
                locked_events(kind, n),
            );
            &&& r.0.attempts == n
            &&& count_of(r.1, FetchAction::Open) == n
            &&& count_of(r.1, FetchAction::Sleep { secs: RETRY_DELAY_SECS }) == if n
                < MAX_OPEN_ATTEMPTS {
                n
            } else {
                (n - 1) as nat
            }
            &&& n < MAX_OPEN_ATTEMPTS ==> r.0.phase == Phase::RetryWait && r.1.last() == (
            FetchAction::Sleep { secs: RETRY_DELAY_SECS })
            &&& n == MAX_OPEN_ATTEMPTS ==> r.0.phase == Phase::Failed(FetchError::LockTimeout)
                && r.1.last() == FetchAction::Abort
        }),
    decreases n,
{
    let s0 = StubFetch { phase: Phase::Idle, attempts: 0, received: 0 };
    let sl = FetchAction::Sleep { secs: RETRY_DELAY_SECS };
    let op = FetchAction::Open;
    let failed = FetchEvent::OpenFailed { kind };
    let empty = Seq::<FetchEvent>::empty();
    let first: Seq<FetchEvent>;
    if n == 1 {
        first = empty.push(FetchEvent::Begin { size: 0 });
        assert(run(s0, empty) == (s0, Seq::<FetchAction>::empty()));
        lemma_run_push(s0, empty, FetchEvent::Begin { size: 0 });
        lemma_count_push(Seq::<FetchAction>::empty(), op, op);
        lemma_count_push(Seq::<FetchAction>::empty(), op, sl);
        assert(count_of(Seq::<FetchAction>::empty(), op) == 0);
        assert(count_of(Seq::<FetchAction>::empty(), sl) == 0);
        assert(Seq::<FetchAction>::empty().push(op) == run(s0, first).1);
    } else {
        lemma_locked_prefix(kind, (n - 1) as nat);
        let prev = locked_events(kind, (n - 1) as nat);
        first = prev.push(FetchEvent::BackoffElapsed);
        lemma_run_push(s0, prev, FetchEvent::BackoffElapsed);
        lemma_count_push(run(s0, prev).1, op, op);
        lemma_count_push(run(s0, prev).1, op, sl);
    }
    assert(locked_events(kind, n) =~= first.push(failed));
    lemma_run_push(s0, first, failed);
    let r1 = run(s0, first);
    lemma_count_push(r1.1, step(r1.0, failed).1, op);
    lemma_count_push(r1.1, step(r1.0, failed).1, sl);
}

} // verus!
