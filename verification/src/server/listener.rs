//! The decisions of the accept loop: what to do after each attempt to
//! accept a connection, and which worker gets each accepted connection.

use vstd::prelude::*;

verus! {

/// How long the accept loop sleeps when no connection is waiting.
pub const ACCEPT_BACKOFF_MS: u64 = 50;

/// What an attempt to accept a connection gave.
#[derive(Debug, Clone, Copy, PartialEq, Eq, Structural)]
pub enum AcceptOutcome {
    /// A connection was accepted.
    Accepted,
    /// No connection is waiting (`WouldBlock`).
    WouldBlock,
    /// The call was interrupted by a signal.
    Interrupted,
    /// The client gave up before it was accepted.
    ConnectionAborted,
    /// Any other error: the listener itself has failed.
    Failed,
}

/// What the accept loop does next.
#[derive(Debug, Clone, Copy, PartialEq, Eq, Structural)]
pub enum AcceptAction {
    /// Hand the accepted connection to the worker with this index.
    Dispatch(usize),
    /// Sleep for [`ACCEPT_BACKOFF_MS`] milliseconds, then try again.
    Backoff,
    /// Try again at once.
    Retry,
    /// Stop the server with `Error::Accept`.
    Stop,
}

/// The round-robin state of the accept loop.
pub struct Dispatcher {
    next: usize,
    workers: usize,
}

/// The accept loop's state as plain values: the worker that gets the next
/// connection, and the number of workers.
pub struct DispatchState {
    pub next: nat,
    pub workers: nat,
}

/// One step of the accept loop on an outcome: the next state and the action.
pub open spec fn accept_step(s: DispatchState, o: AcceptOutcome) -> (DispatchState, AcceptAction) {
    match o {
        AcceptOutcome::Accepted => (
            DispatchState { next: (s.next + 1) % s.workers, workers: s.workers },
            AcceptAction::Dispatch(s.next as usize),
        ),
        AcceptOutcome::WouldBlock => (s, AcceptAction::Backoff),
        AcceptOutcome::Interrupted => (s, AcceptAction::Retry),
        AcceptOutcome::ConnectionAborted => (s, AcceptAction::Retry),
        AcceptOutcome::Failed => (s, AcceptAction::Stop),
    }
}

impl Dispatcher {
    pub closed spec fn state(&self) -> DispatchState {
        DispatchState { next: self.next as nat, workers: self.workers as nat }
    }

    #[verifier::type_invariant]
    spec fn well_formed(self) -> bool {
        0 < self.workers && self.next < self.workers
    }

    /// A dispatcher over `workers` workers; the first connection goes to
    /// worker 0.
    pub fn new(workers: usize) -> (d: Self)
        requires
            workers > 0,
        ensures
            d.state() == (DispatchState { next: 0, workers: workers as nat }),
    {
        Dispatcher { next: 0, workers }
    }

    /// Decides what to do after an attempt to accept a connection.
    pub fn on_accept(&mut self, outcome: AcceptOutcome) -> (a: AcceptAction)
        ensures
            (final(self).state(), a) == accept_step(old(self).state(), outcome),
            a matches AcceptAction::Dispatch(i) ==> i < final(self).state().workers,
    {
        proof {
            use_type_invariant(&*self);
        }
        match outcome {
            AcceptOutcome::Accepted => {
                let i = self.next;
                self.next = (self.next + 1) % self.workers;
                AcceptAction::Dispatch(i)
            },
            AcceptOutcome::WouldBlock => AcceptAction::Backoff,
            AcceptOutcome::Interrupted => AcceptAction::Retry,
            AcceptOutcome::ConnectionAborted => AcceptAction::Retry,
            AcceptOutcome::Failed => AcceptAction::Stop,
        }
    }
}

/// The accept loop stops only when the listener fails; an accepted
/// connection is always handed to the worker whose turn it is and moves
/// the turn on by one; nothing else (no connection waiting, an interrupted
/// call, a client that gave up) dispatches anything or changes the turn.
pub proof fn lemma_accept_actions(s: DispatchState, o: AcceptOutcome)
    ensures
        ({
            let (s2, a) = accept_step(s, o);
            &&& (a == AcceptAction::Stop <==> o == AcceptOutcome::Failed)
            &&& (a == AcceptAction::Backoff <==> o == AcceptOutcome::WouldBlock)
            &&& (a == AcceptAction::Retry <==> (o == AcceptOutcome::Interrupted || o
                == AcceptOutcome::ConnectionAborted))
            &&& (a is Dispatch <==> o == AcceptOutcome::Accepted)
            &&& (o == AcceptOutcome::Accepted ==> a == AcceptAction::Dispatch(s.next as usize)
                && s2.next == (s.next + 1) % s.workers)
            &&& (o != AcceptOutcome::Accepted ==> s2 == s)
            &&& s2.workers == s.workers
        }),
{
}

/// The accept loop run over a sequence of outcomes: its final state and the
/// actions it took, in order.
pub open spec fn run_accepts(s: DispatchState, os: Seq<AcceptOutcome>) -> (
    DispatchState,
    Seq<AcceptAction>,
)
    decreases os.len(),
{
    if os.len() == 0 {
        (s, seq![])
    } else {
        let (s1, a) = accept_step(s, os[0]);
        let (s2, rest) = run_accepts(s1, os.drop_first());
        (s2, seq![a] + rest)
    }
}

/// The workers that connections were handed to, in order.
pub open spec fn dispatch_targets(actions: Seq<AcceptAction>) -> Seq<usize>
    decreases actions.len(),
{
    if actions.len() == 0 {
        seq![]
    } else {
        match actions[0] {
            AcceptAction::Dispatch(i) => seq![i] + dispatch_targets(actions.drop_first()),
            _ => dispatch_targets(actions.drop_first()),
        }
    }
}

/// The number of accepted connections among the outcomes.
pub open spec fn accepted(os: Seq<AcceptOutcome>) -> nat
    decreases os.len(),
{
    if os.len() == 0 {
        0
    } else {
        (if os[0] == AcceptOutcome::Accepted { 1nat } else { 0nat }) + accepted(os.drop_first())
    }
}

/// Round robin: whatever else happens, every accepted connection is handed
/// to a worker, and the `j`-th one goes to worker `(next + j) mod workers`
/// (so to worker `j mod workers` for a new dispatcher).
pub proof fn lemma_round_robin(s: DispatchState, os: Seq<AcceptOutcome>)
    requires
        0 < s.workers <= usize::MAX,
        s.next < s.workers,
    ensures
        dispatch_targets(run_accepts(s, os).1).len() == accepted(os),
        forall|j: int|
            0 <= j < dispatch_targets(run_accepts(s, os).1).len() ==> #[trigger] dispatch_targets(
                run_accepts(s, os).1,
            )[j] == (s.next + j) % (s.workers as int),
    decreases os.len(),
{
    if os.len() > 0 {
        let (s1, a) = accept_step(s, os[0]);
        let rest = os.drop_first();
        assert(s1.next < s1.workers) by {
            if os[0] == AcceptOutcome::Accepted {
                vstd::arithmetic::div_mod::lemma_mod_bound((s.next + 1) as int, s.workers as int);
            }
        }
        lemma_round_robin(s1, rest);
        let acts = run_accepts(s, os).1;
        let rest_acts = run_accepts(s1, rest).1;
        assert(acts == seq![a] + rest_acts);
        assert(acts.drop_first() =~= rest_acts);
        let t = dispatch_targets(acts);
        let rt = dispatch_targets(rest_acts);
        if os[0] == AcceptOutcome::Accepted {
            assert(t == seq![s.next as usize] + rt);
            assert forall|j: int| 0 <= j < t.len() implies #[trigger] t[j] == (s.next + j) % (
            s.workers as int) by {
                if j == 0 {
                    vstd::arithmetic::div_mod::lemma_small_mod(s.next, s.workers);
                } else {
                    assert(t[j] == rt[j - 1]);
                    let x = (s.next + 1) as int;
                    let m = s.workers as int;
                    vstd::arithmetic::div_mod::lemma_add_mod_noop(x, j - 1, m);
                    vstd::arithmetic::div_mod::lemma_add_mod_noop(x % m, j - 1, m);
                    vstd::arithmetic::div_mod::lemma_mod_twice(x, m);
                    assert(s1.next == ((s.next + 1) as int) % (s.workers as int));
                }
            }
        } else {
            assert(t == rt);
        }
    }
}

} // verus!
