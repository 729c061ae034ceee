//! The decisions of a worker thread: which token each new connection gets,
//! which poll events are served, what to do after each read, and when a
//! connection is closed. The worker's own loop performs the I/O.

use vstd::prelude::*;

verus! {

/// The read buffer size of a worker: at most this many bytes are read and
/// echoed at a time.
pub const READ_BUFFER_SIZE: usize = 1024;

/// How long one poll waits for events.
pub const POLL_TIMEOUT_MS: u64 = 100;

/// The most events handled per poll.
pub const EVENTS_CAPACITY: usize = 1024;

/// What a poll for events gave.
#[derive(Debug, Clone, Copy, PartialEq, Eq, Structural)]
pub enum PollOutcome {
    /// Events (possibly none) are ready.
    Ready,
    /// The poll was interrupted by a signal.
    Interrupted,
    /// Any other error.
    Failed,
}

/// What the worker does after a poll.
#[derive(Debug, Clone, Copy, PartialEq, Eq, Structural)]
pub enum PollAction {
    /// Serve the events that came in.
    HandleEvents,
    /// Start the next round at once (take new connections, poll again).
    Retry,
    /// Stop the worker with `Error::Poll`.
    Stop,
}

/// Decides what to do after a poll.
pub fn on_poll(outcome: PollOutcome) -> (a: PollAction)
    ensures
        outcome == PollOutcome::Ready <==> a == PollAction::HandleEvents,
        outcome == PollOutcome::Interrupted <==> a == PollAction::Retry,
        outcome == PollOutcome::Failed <==> a == PollAction::Stop,
{
    match outcome {
        PollOutcome::Ready => PollAction::HandleEvents,
        PollOutcome::Interrupted => PollAction::Retry,
        PollOutcome::Failed => PollAction::Stop,
    }
}

/// What a read from a connection gave.
#[derive(Debug, Clone, Copy, PartialEq, Eq, Structural)]
pub enum ReadOutcome {
    /// This many bytes were read; 0 means the client closed its side.
    Data(usize),
    /// Nothing more to read for now.
    WouldBlock,
    /// The read was interrupted by a signal.
    Interrupted,
    /// Any other error.
    Failed,
}

/// What to do with a connection after handling an event.
#[derive(Debug, Clone, Copy, PartialEq, Eq, Structural)]
pub enum ConnState {
    Open,
    Closed,
}

/// What the worker does after a read.
#[derive(Debug, Clone, Copy, PartialEq, Eq, Structural)]
pub enum ReadAction {
    /// Write the first `n` bytes just read back to the client, then read again.
    Echo(usize),
    /// Stop reading; the connection ends in this state.
    Done(ConnState),
    /// Read again at once.
    Retry,
    /// Stop reading with `ConnError::Read`.
    Fail,
}

/// Decides what to do after a read. The server is edge-triggered, so it
/// reads until nothing is left (`WouldBlock`), echoing every chunk.
pub fn on_read(outcome: ReadOutcome) -> (a: ReadAction)
    ensures
        a == on_read_spec(outcome),
        outcome == ReadOutcome::Data(0) ==> a == ReadAction::Done(ConnState::Closed),
        outcome matches ReadOutcome::Data(n) ==> (n > 0 ==> a == ReadAction::Echo(n)),
        outcome == ReadOutcome::WouldBlock ==> a == ReadAction::Done(ConnState::Open),
        outcome == ReadOutcome::Interrupted ==> a == ReadAction::Retry,
        outcome == ReadOutcome::Failed ==> a == ReadAction::Fail,
{
    match outcome {
        ReadOutcome::Data(n) => if n == 0 {
            ReadAction::Done(ConnState::Closed)
        } else {
            ReadAction::Echo(n)
        },
        ReadOutcome::WouldBlock => ReadAction::Done(ConnState::Open),
        ReadOutcome::Interrupted => ReadAction::Retry,
        ReadOutcome::Failed => ReadAction::Fail,
    }
}

/// How serving a readable connection ended.
#[derive(Debug, Clone, Copy, PartialEq, Eq, Structural)]
pub enum HandleResult {
    /// Everything was read and echoed; the connection stays.
    Open,
    /// The client closed the connection.
    Closed,
    /// A read or a write failed.
    Failed,
}

/// A worker's connection bookkeeping, as plain values: the next token to
/// hand out, the token handed out last that is not yet registered, and the
/// tokens of the registered connections.
pub struct WorkerState {
    pub next_token: nat,
    pub pending: Option<usize>,
    pub live: Set<usize>,
}

/// Tokens below `next_token` only; a pending token is not live.
pub open spec fn worker_wf(s: WorkerState) -> bool {
    &&& s.live.finite()
    &&& forall|t: usize| s.live.contains(t) ==> t < s.next_token
    &&& s.pending matches Some(p) ==> p < s.next_token && !s.live.contains(p)
    &&& s.next_token <= usize::MAX
}

/// Handing out a token to a new connection: the next number, which is
/// then pending registration. Fails once every number has been used.
pub open spec fn assign_step(s: WorkerState) -> (WorkerState, Option<usize>) {
    if s.next_token >= usize::MAX {
        (s, None)
    } else {
        (
            WorkerState {
                next_token: s.next_token + 1,
                pending: Some(s.next_token as usize),
                live: s.live,
            },
            Some(s.next_token as usize),
        )
    }
}

/// Recording a successful registration: only the pending token joins the
/// live connections.
pub open spec fn register_step(s: WorkerState, t: usize) -> (WorkerState, bool) {
    if s.pending == Some(t) {
        (WorkerState { next_token: s.next_token, pending: None, live: s.live.insert(t) }, true)
    } else {
        (s, false)
    }
}

/// An event is served only for a live connection that is readable.
pub open spec fn serves(s: WorkerState, t: usize, readable: bool) -> bool {
    s.live.contains(t) && readable
}

/// After serving a connection: it stays if it is still open, else it
/// leaves the live set; the flag says whether it was live to be removed.
pub open spec fn finish_step(s: WorkerState, t: usize, r: HandleResult) -> (WorkerState, bool) {
    if r == HandleResult::Open {
        (s, false)
    } else {
        (
            WorkerState { next_token: s.next_token, pending: s.pending, live: s.live.remove(t) },
            s.live.contains(t),
        )
    }
}

/// Finishing with a connection touches that connection only: when it is
/// no longer open, it alone leaves the live set, every other live
/// connection stays, and it is reported dropped exactly when it was live;
/// while it is open nothing changes.
pub proof fn lemma_finish_drops_only_that(s: WorkerState, t: usize, r: HandleResult)
    ensures
        ({
            let (s2, dropped) = finish_step(s, t, r);
            &&& s2.next_token == s.next_token
            &&& s2.pending == s.pending
            &&& r == HandleResult::Open ==> s2.live == s.live && !dropped
            &&& r != HandleResult::Open ==> {
                &&& dropped == s.live.contains(t)
                &&& !s2.live.contains(t)
                &&& forall|u: usize| u != t ==> (#[trigger] s2.live.contains(u) <==> s.live.contains(u))
            }
        }),
{
}

/// Every readable event of a live connection is served, whatever other
/// connections are live, and no other event is; handing out a token,
/// registering a connection or finishing with one never changes whether
/// another connection is served.
pub proof fn lemma_serves_every_live(s: WorkerState, t: usize, u: usize, r: HandleResult, readable: bool)
    ensures
        s.live.contains(t) ==> serves(s, t, true),
        !s.live.contains(t) ==> !serves(s, t, readable),
        !serves(s, t, false),
        u != t ==> serves(register_step(s, u).0, t, readable) == serves(s, t, readable),
        u != t ==> serves(finish_step(s, u, r).0, t, readable) == serves(s, t, readable),
        serves(assign_step(s).0, t, readable) == serves(s, t, readable),
{
}

/// The decisions after a read: a chunk of data is echoed, the end of the
/// stream closes the connection, nothing left to read keeps it open and
/// ends the reads, an interrupted read is retried and any other error
/// fails; the connection is closed for no other reason.
pub proof fn lemma_read_decisions(o: ReadOutcome)
    ensures
        on_read_spec(o) == ReadAction::Done(ConnState::Closed) <==> o == ReadOutcome::Data(0),
        on_read_spec(o) == ReadAction::Done(ConnState::Open) <==> o == ReadOutcome::WouldBlock,
        on_read_spec(o) == ReadAction::Retry <==> o == ReadOutcome::Interrupted,
        on_read_spec(o) == ReadAction::Fail <==> o == ReadOutcome::Failed,
        forall|n: usize| on_read_spec(o) == ReadAction::Echo(n) <==> (n > 0 && o == ReadOutcome::Data(n)),
{
}

/// Handing out a token gives the next number, which is no live token and
/// becomes the pending one; registering takes only the pending token, adds
/// it to the live set and leaves every other token as it was; any other
/// token is refused and nothing changes.
pub proof fn lemma_assign_register(s: WorkerState, t: usize)
    requires
        worker_wf(s),
    ensures
        s.next_token < usize::MAX ==> ({
            let (s2, r) = assign_step(s);
            &&& r == Some(s.next_token as usize)
            &&& !s.live.contains(s.next_token as usize)
            &&& s2.pending == r
            &&& s2.live == s.live
            &&& s2.next_token == s.next_token + 1
        }),
        s.next_token >= usize::MAX ==> assign_step(s) == (s, None::<usize>),
        ({
            let (s2, added) = register_step(s, t);
            &&& added <==> s.pending == Some(t)
            &&& added ==> s2.live.contains(t) && s2.pending is None
            &&& !added ==> s2 == s
            &&& forall|u: usize| u != t ==> (#[trigger] s2.live.contains(u) <==> s.live.contains(u))
            &&& s2.next_token == s.next_token
        }),
{
}

/// The bookkeeping of one worker thread.
pub struct Worker {
    next_token: usize,
    pending: Option<usize>,
    live: Vec<usize>,
}

impl Worker {
    pub closed spec fn state(&self) -> WorkerState {
        WorkerState {
            next_token: self.next_token as nat,
            pending: self.pending,
            live: self.live@.to_set(),
        }
    }

    #[verifier::type_invariant]
    spec fn well_formed(self) -> bool {
        &&& self.live@.no_duplicates()
        &&& forall|i: int| 0 <= i < self.live@.len() ==> #[trigger] self.live@[i] < self.next_token
        &&& self.pending matches Some(p) ==> p < self.next_token && !self.live@.contains(p)
    }

    proof fn lemma_state_wf(&self)
        requires
            self.well_formed(),
        ensures
            worker_wf(self.state()),
    {
        vstd::seq_lib::seq_to_set_is_finite(self.live@);
        assert forall|t: usize| self.state().live.contains(t) implies t < self.state().next_token by {
            let i = choose|i: int| 0 <= i < self.live@.len() && self.live@[i] == t;
        }
    }

    /// A worker with no connections; the first token is 0.
    pub fn new() -> (w: Self)
        ensures
            w.state().next_token == 0,
            w.state().pending is None,
            w.state().live == Set::<usize>::empty(),
            worker_wf(w.state()),
    {
        let w = Worker { next_token: 0, pending: None, live: Vec::new() };
        assert(w.live@.to_set() =~= Set::<usize>::empty());
        proof {
            w.lemma_state_wf();
        }
        w
    }

    /// Hands out the token for a new connection.
    pub fn assign_token(&mut self) -> (t: Option<usize>)
        ensures
            (final(self).state(), t) == assign_step(old(self).state()),
            worker_wf(final(self).state()),
    {
        proof {
            use_type_invariant(&*self);
        }
        if self.next_token == usize::MAX {
            proof {
                self.lemma_state_wf();
            }
            return None;
        }
        let t = self.next_token;
        self.next_token = t + 1;
        self.pending = Some(t);
        proof {
            self.lemma_state_wf();
        }
        Some(t)
    }

    fn position(&self, t: usize) -> (r: Option<usize>)
        ensures
            match r {
                Some(i) => i < self.live@.len() && self.live@[i as int] == t,
                None => !self.live@.contains(t),
            },
    {
        let mut i: usize = 0;
        while i < self.live.len()
            invariant
                0 <= i <= self.live@.len(),
                forall|j: int| 0 <= j < i ==> self.live@[j] != t,
            decreases self.live@.len() - i,
        {
            if self.live[i] == t {
                return Some(i);
            }
            i += 1;
        }
        None
    }

    /// Records that the connection with token `t` was registered for
    /// events; only the token handed out last, and only once, is taken.
    pub fn register(&mut self, t: usize) -> (added: bool)
        ensures
            (final(self).state(), added) == register_step(old(self).state(), t),
            worker_wf(final(self).state()),
    {
        proof {
            use_type_invariant(&*self);
        }
        if self.pending == Some(t) {
            let ghost old_live = self.live@;
            self.pending = None;
            let mut live: Vec<usize> = Vec::new();
            std::mem::swap(&mut live, &mut self.live);
            live.push(t);
            self.live = live;
            proof {
                assert(self.live@ == old_live.push(t));
                assert(self.live@.to_set() =~= old_live.to_set().insert(t)) by {
                    assert forall|x: usize| self.live@.to_set().contains(x) <==> old_live.to_set().insert(t).contains(x) by {
                        if x != t && self.live@.contains(x) {
                            let i = choose|i: int| 0 <= i < self.live@.len() && self.live@[i] == x;
                            assert(old_live[i] == x);
                        }
                        if old_live.contains(x) {
                            let i = choose|i: int| 0 <= i < old_live.len() && old_live[i] == x;
                            assert(self.live@[i] == x);
                        }
                        if x == t {
                            assert(self.live@[old_live.len() as int] == t);
                        }
                    }
                }
                assert forall|i: int, j: int| 0 <= i < j < self.live@.len() implies self.live@[i] != self.live@[j] by {
                    if j == old_live.len() {
                        assert(old_live.contains(old_live[i]));
                    }
                }
                self.lemma_state_wf();
            }
            true
        } else {
            proof {
                self.lemma_state_wf();
            }
            false
        }
    }

    /// Whether an event for token `t` is served.
    pub fn serves(&self, t: usize, readable: bool) -> (b: bool)
        ensures
            b == serves(self.state(), t, readable),
    {
        if !readable {
            return false;
        }
        let p = self.position(t);
        p.is_some()
    }

    /// Updates the live connections after serving token `t`; returns
    /// whether the connection must now be dropped.
    pub fn finish(&mut self, t: usize, result: HandleResult) -> (dropped: bool)
        ensures
            (final(self).state(), dropped) == finish_step(old(self).state(), t, result),
            worker_wf(final(self).state()),
    {
        proof {
            use_type_invariant(&*self);
        }
        if result == HandleResult::Open {
            proof {
                self.lemma_state_wf();
            }
            return false;
        }
        match self.position(t) {
            None => {
                proof {
                    assert(self.live@.to_set().remove(t) =~= self.live@.to_set());
                    self.lemma_state_wf();
                }
                false
            },
            Some(i) => {
                let ghost old_live = self.live@;
                let mut live: Vec<usize> = Vec::new();
                std::mem::swap(&mut live, &mut self.live);
                live.remove(i);
                self.live = live;
                proof {
                    assert(self.live@ == old_live.remove(i as int));
                    assert forall|a: int, b: int| 0 <= a < b < self.live@.len() implies self.live@[a] != self.live@[b] by {
                        let a0 = if a < i { a } else { a + 1 };
                        let b0 = if b < i { b } else { b + 1 };
                        assert(self.live@[a] == old_live[a0]);
                        assert(self.live@[b] == old_live[b0]);
                    }
                    assert(self.live@.to_set() =~= old_live.to_set().remove(t)) by {
                        assert forall|x: usize| self.live@.to_set().contains(x) <==> old_live.to_set().remove(t).contains(x) by {
                            if self.live@.contains(x) {
                                let k = choose|k: int| 0 <= k < self.live@.len() && self.live@[k] == x;
                                let k0 = if k < i { k } else { k + 1 };
                                assert(old_live[k0] == x);
                                assert(k0 != i);
                            }
                            if old_live.contains(x) && x != t {
                                let k = choose|k: int| 0 <= k < old_live.len() && old_live[k] == x;
                                assert(k != i);
                                let k1 = if k < i { k } else { k - 1 };
                                assert(self.live@[k1] == x);
                            }
                        }
                    }
                    assert(old_live.contains(t));
                    self.lemma_state_wf();
                }
                true
            },
        }
    }
}

/// A change to a worker's bookkeeping.
pub enum WorkerEvent {
    /// A token is handed out for a new connection.
    Assign,
    /// The connection with this token was registered.
    Register(usize),
    /// The connection with this token was served, with this result.
    Finish(usize, HandleResult),
}

/// The bookkeeping after one event.
pub open spec fn worker_step(s: WorkerState, e: WorkerEvent) -> WorkerState {
    match e {
        WorkerEvent::Assign => assign_step(s).0,
        WorkerEvent::Register(t) => register_step(s, t).0,
        WorkerEvent::Finish(t, r) => finish_step(s, t, r).0,
    }
}

/// The bookkeeping after a sequence of events.
pub open spec fn run_worker(s: WorkerState, es: Seq<WorkerEvent>) -> WorkerState
    decreases es.len(),
{
    if es.len() == 0 {
        s
    } else {
        run_worker(worker_step(s, es[0]), es.drop_first())
    }
}

/// The tokens handed out along a sequence of events, in order.
pub open spec fn assigned_tokens(s: WorkerState, es: Seq<WorkerEvent>) -> Seq<usize>
    decreases es.len(),
{
    if es.len() == 0 {
        seq![]
    } else {
        let here = match es[0] {
            WorkerEvent::Assign => match assign_step(s).1 {
                Some(t) => seq![t],
                None => seq![],
            },
            _ => seq![],
        };
        here + assigned_tokens(worker_step(s, es[0]), es.drop_first())
    }
}

/// A connection that has been dropped never becomes live again: its token
/// is below the next one to be handed out and is not pending, and nothing
/// that happens afterwards brings it back.
pub proof fn lemma_dropped_stays_dropped(s: WorkerState, es: Seq<WorkerEvent>, t: usize)
    requires
        t < s.next_token,
        !s.live.contains(t),
        s.pending != Some(t),
    ensures
        !run_worker(s, es).live.contains(t),
    decreases es.len(),
{
    if es.len() > 0 {
        let s1 = worker_step(s, es[0]);
        assert(t < s1.next_token && !s1.live.contains(t) && s1.pending != Some(t));
        lemma_dropped_stays_dropped(s1, es.drop_first(), t);
    }
}

/// Tokens are never handed out twice: along any sequence of events they
/// come out strictly increasing, each at least the next token of the start.
pub proof fn lemma_tokens_increase(s: WorkerState, es: Seq<WorkerEvent>)
    ensures
        forall|i: int|
            0 <= i < assigned_tokens(s, es).len() ==> s.next_token <= #[trigger] assigned_tokens(
                s,
                es,
            )[i],
        forall|i: int, j: int|
            0 <= i < j < assigned_tokens(s, es).len() ==> assigned_tokens(s, es)[i]
                < assigned_tokens(s, es)[j],
    decreases es.len(),
{
    if es.len() > 0 {
        let s1 = worker_step(s, es[0]);
        lemma_tokens_increase(s1, es.drop_first());
        let all = assigned_tokens(s, es);
        let rest = assigned_tokens(s1, es.drop_first());
        assert(s.next_token <= s1.next_token);
        match es[0] {
            WorkerEvent::Assign => {
                if s.next_token < usize::MAX {
                    assert(all == seq![s.next_token as usize] + rest);
                    assert(s1.next_token == s.next_token + 1);
                    assert forall|i: int, j: int| 0 <= i < j < all.len() implies all[i] < all[j] by {
                        if i > 0 {
                            assert(all[i] == rest[i - 1]);
                        }
                        assert(all[j] == rest[j - 1]);
                    }
                    assert forall|i: int| 0 <= i < all.len() implies s.next_token <= #[trigger] all[i] by {
                        if i > 0 {
                            assert(all[i] == rest[i - 1]);
                        }
                    }
                } else {
                    assert(all =~= rest);
                }
            },
            _ => {
                assert(all =~= rest);
            },
        }
    }
}

/// How a run of reads on one readable connection ends, as decided by
/// [`on_read`] step by step: the sizes of the chunks echoed back, in order,
/// and the final action (`None` if the reads ran out first).
pub open spec fn read_session(outcomes: Seq<ReadOutcome>) -> (Seq<usize>, Option<ReadAction>)
    decreases outcomes.len(),
{
    if outcomes.len() == 0 {
        (seq![], None)
    } else {
        match on_read_spec(outcomes[0]) {
            ReadAction::Echo(n) => {
                let (rest, end) = read_session(outcomes.drop_first());
                (seq![n] + rest, end)
            },
            ReadAction::Retry => read_session(outcomes.drop_first()),
            a => (seq![], Some(a)),
        }
    }
}

/// The decision that [`on_read`] takes.
pub open spec fn on_read_spec(outcome: ReadOutcome) -> ReadAction {
    match outcome {
        ReadOutcome::Data(n) => if n == 0 {
            ReadAction::Done(ConnState::Closed)
        } else {
            ReadAction::Echo(n)
        },
        ReadOutcome::WouldBlock => ReadAction::Done(ConnState::Open),
        ReadOutcome::Interrupted => ReadAction::Retry,
        ReadOutcome::Failed => ReadAction::Fail,
    }
}

/// The non-empty chunks read before the session ends, in order.
pub open spec fn chunks_before_end(outcomes: Seq<ReadOutcome>) -> Seq<usize>
    decreases outcomes.len(),
{
    if outcomes.len() == 0 {
        seq![]
    } else {
        match outcomes[0] {
            ReadOutcome::Data(n) => if n == 0 {
                seq![]
            } else {
                seq![n] + chunks_before_end(outcomes.drop_first())
            },
            ReadOutcome::Interrupted => chunks_before_end(outcomes.drop_first()),
            _ => seq![],
        }
    }
}

/// Everything read is echoed back: over any run of reads, the chunks
/// echoed are exactly the non-empty chunks read before the run ends (end of
/// stream, nothing left to read, or an error); interrupted reads are
/// retried and change nothing.
pub proof fn lemma_echoes_everything(outcomes: Seq<ReadOutcome>)
    ensures
        read_session(outcomes).0 == chunks_before_end(outcomes),
    decreases outcomes.len(),
{
    if outcomes.len() > 0 {
        lemma_echoes_everything(outcomes.drop_first());
    }
}

} // verus!
