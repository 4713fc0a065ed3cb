//! The work-distribution and termination protocol shared by the thread-based
//! and task-based pools.
//!
//! The protocol is strictly request/response per worker: the controller hands
//! each worker one candidate at a time over its command channel, the worker
//! answers with one report over its report channel, and once the target
//! number of matches is confirmed the controller sends every worker a single
//! stop command, the last command that worker ever receives. The channel
//! plumbing (threads or tasks, busy-polling receive loops) lives outside the
//! library and hands every received message to the decision functions here.

use vstd::prelude::*;

use crate::EventData;
use crate::digest::digest_of_number;
use crate::digest::digest_of_u32;
use crate::digest::ends_with_zeros;
use crate::digest::ends_with_zeros_exec;
use crate::digest::is_match;
use crate::digest::match_seq;
use crate::numbers_of;

verus! {

/// A message on one of the two directional channels between the controller
/// and a worker. `FromControlTask(Some(x))` assigns candidate `x`;
/// `FromControlTask(None)` is the stop command. `FromChildTask` reports the
/// outcome of one candidate: `data` carries the match when one was found.
pub enum ChannelEvent {
    FromChildTask { thread_id: u8, data: Option<EventData> },
    FromControlTask(Option<u32>),
}

/// An error of the protocol as a worker or the task-based pool sees it:
/// a message of the wrong variant for its channel, or a failed send to a
/// channel whose receiving end was already closed.
#[derive(Debug)]
pub enum ChannelError {
    IncorrectChannelEventVariant,
    SendError,
}

/// An error of the thread-based pool: a protocol error, a failed send, or a
/// worker that terminated abnormally instead of returning a result.
#[derive(Clone, Copy, Debug)]
pub enum HashFinderError {
    IncorrectChannelEventVariant,
    SendError,
    JoinError,
}

/// The stop command: the payload-free control message.
pub open spec fn is_stop_event(e: ChannelEvent) -> bool {
    e matches ChannelEvent::FromControlTask(None)
}

/// An assignment of candidate `c`.
pub open spec fn is_assign_event(e: ChannelEvent, c: u32) -> bool {
    e matches ChannelEvent::FromControlTask(Some(x)) && x == c
}

/// No command in the sequence is a stop command.
pub open spec fn no_stops(s: Seq<ChannelEvent>) -> bool {
    forall|i: int| 0 <= i < s.len() ==> !is_stop_event(s[i])
}

/// The sequence ends with a stop command, and holds no other.
pub open spec fn stop_is_last(s: Seq<ChannelEvent>) -> bool {
    &&& s.len() > 0
    &&& is_stop_event(s.last())
    &&& forall|i: int| 0 <= i < s.len() - 1 ==> !is_stop_event(s[i])
}

/// The terminal outcome of one spawned unit, as the join sees it: the unit
/// ran to completion, returned an error, or crashed before returning a
/// result.
#[derive(Clone, Copy, Debug)]
pub enum UnitOutcome {
    Completed,
    Failed(HashFinderError),
    Crashed,
}

/// Whether a unit's terminal outcome is fatal to the run. A crash is a join
/// failure: logged, never an error of the run. A worker's failed report send
/// is benign when the controller completed — completion means the stop
/// broadcast was done, and a command channel hands out its queued messages
/// before closing, so the failure came after that worker's stop was sent —
/// and fatal otherwise. Every other unit error is fatal.
pub open spec fn outcome_is_fatal(o: UnitOutcome, controller_completed: bool) -> bool {
    match o {
        UnitOutcome::Completed => false,
        UnitOutcome::Crashed => false,
        UnitOutcome::Failed(e) => !(controller_completed && e is SendError),
    }
}

/// Folds the controller's outcome and every worker's outcome into the run's
/// aggregated result: the run fails exactly when some unit's outcome is
/// fatal, the controller's own error surfaces first, and otherwise the first
/// fatal worker error wins. Crashes are never errors of the run: a join
/// failure does not overwrite an otherwise successful result.
pub fn aggregate_outcomes(controller: UnitOutcome, workers: &Vec<UnitOutcome>) -> (r: Result<
    (),
    HashFinderError,
>)
    ensures
        r is Err <==> (outcome_is_fatal(controller, controller is Completed) || (exists|i: int|
            0 <= i < workers@.len() && outcome_is_fatal(
                #[trigger] workers@[i],
                controller is Completed,
            ))),
        controller matches UnitOutcome::Failed(e) ==> r == Err::<(), HashFinderError>(e),
        r matches Err(e) ==> controller is Failed || (exists|i: int|
            0 <= i < workers@.len() && ((#[trigger] workers@[i]) matches UnitOutcome::Failed(we)
                && we == e) && outcome_is_fatal(workers@[i], controller is Completed) && (forall|
                j: int,
            |
                0 <= j < i ==> !outcome_is_fatal(
                    #[trigger] workers@[j],
                    controller is Completed,
                ))),
{
    let controller_completed = matches!(controller, UnitOutcome::Completed);
    if let UnitOutcome::Failed(e) = controller {
        return Err(e);
    }
    let mut k: usize = 0;
    while k < workers.len()
        invariant
            k <= workers@.len(),
            controller_completed == (controller is Completed),
            !(controller is Failed),
            forall|j: int|
                0 <= j < k ==> !outcome_is_fatal(#[trigger] workers@[j], controller is Completed),
        decreases workers@.len() - k,
    {
        let o = workers[k];
        if let UnitOutcome::Failed(e) = o {
            if !(controller_completed && matches!(e, HashFinderError::SendError)) {
                return Err(e);
            }
        }
        k = k + 1;
    }
    Ok(())
}

/// A unit's protocol violation is always fatal: it surfaces in the
/// aggregated result whatever became of the controller.
pub proof fn lemma_violation_is_fatal(controller_completed: bool)
    ensures
        outcome_is_fatal(
            UnitOutcome::Failed(HashFinderError::IncorrectChannelEventVariant),
            controller_completed,
        ),
{
}

/// A worker's failed report send is benign once the controller has completed
/// — every stop command was sent first — and fatal while it has not.
pub proof fn lemma_send_failure_aggregation()
    ensures
        !outcome_is_fatal(UnitOutcome::Failed(HashFinderError::SendError), true),
        outcome_is_fatal(UnitOutcome::Failed(HashFinderError::SendError), false),
{
}

/// The worker's decision on finding its command channel closed before any
/// stop command arrived: the controller has gone away abnormally, so rather
/// than poll a dead channel forever the worker terminates, reporting the
/// failed channel. (A stop sent before the controller went away is still
/// seen first: a channel hands out its queued messages before reporting
/// itself disconnected.)
pub fn worker_handle_disconnect() -> (r: ChannelError)
    ensures
        r is SendError,
{
    ChannelError::SendError
}

/// The decision a worker takes on one inbound message: a report-shaped
/// message on the command channel is a protocol violation, `None` is the stop
/// command, and `Some(x)` is a candidate to test.
pub fn worker_handle_command(event: ChannelEvent) -> (r: Result<Option<u32>, ChannelError>)
    ensures
        match event {
            ChannelEvent::FromChildTask { .. } => r matches Err(
                ChannelError::IncorrectChannelEventVariant,
            ),
            ChannelEvent::FromControlTask(number) => r matches Ok(x) && x == number,
        },
{
    match event {
        ChannelEvent::FromChildTask { .. } => Err(ChannelError::IncorrectChannelEventVariant),
        ChannelEvent::FromControlTask(number) => Ok(number),
    }
}

/// Builds the report for one tested candidate from its digest: the report
/// names the reporting worker and carries the match data exactly when the
/// digest ends in a run of `n` marker characters.
pub fn classify_report(thread_id: u8, number: u32, hash: String, n: u8) -> (ev: ChannelEvent)
    ensures
        ev matches ChannelEvent::FromChildTask { thread_id: tid, data } && tid == thread_id && (
        if ends_with_zeros(hash@, n as nat) {
            data matches Some(d) && d.number == number && d.hash == hash
        } else {
            data is None
        }),
{
    let matched = ends_with_zeros_exec(hash.as_str(), n as usize);
    let data = if matched {
        Some(EventData { hash, number })
    } else {
        None
    };
    ChannelEvent::FromChildTask { thread_id, data }
}

/// Tests one assigned candidate: computes its digest and builds the report.
pub fn worker_process(thread_id: u8, n: u8, number: u32) -> (ev: ChannelEvent)
    ensures
        ev matches ChannelEvent::FromChildTask { thread_id: tid, data } && tid == thread_id && (
        if is_match(n as nat, number as int) {
            data matches Some(d) && d.number == number && d.hash@ == digest_of_number(
                number as int,
            )
        } else {
            data is None
        }),
{
    let hash = digest_of_u32(number);
    classify_report(thread_id, number, hash, n)
}

/// The pool's forward-moving lifecycle: initial distribution, the dispatch
/// loop, the stop broadcast, and the terminal state.
pub enum PoolPhase {
    Distributing,
    Draining,
    Stopping,
    Terminated,
}

/// The controller's state: it owns the dispatch policy and the termination
/// handshake, while the channels themselves live outside the library. The
/// ghost `history` records every command sent to each worker, and `assigned`
/// records every candidate ever handed out, in order.
pub struct Controller {
    pub workers: u8,
    pub f: u32,
    pub match_count: u32,
    pub next_candidate: u32,
    pub dist_index: u8,
    pub stop_index: u8,
    pub results: Vec<EventData>,
    pub phase: PoolPhase,
    pub history: Ghost<Seq<Seq<ChannelEvent>>>,
    pub assigned: Ghost<Seq<u32>>,
}

impl Controller {
    /// The controller's invariant, established by `new` and preserved by
    /// every method. Candidates are handed out contiguously from zero, stop
    /// commands are sent once per worker and only in the stopping phase, and
    /// the match count never passes the target.
    pub open spec fn wf(self) -> bool {
        &&& self.workers >= 1
        &&& self.match_count <= self.f
        &&& self.results@.len() == self.match_count
        &&& self.history@.len() == self.workers as int
        &&& self.assigned@.len() == self.next_candidate as int
        &&& (forall|i: int| 0 <= i < self.assigned@.len() ==> self.assigned@[i] == i as u32)
        &&& match self.phase {
            PoolPhase::Distributing => {
                &&& self.dist_index < self.workers
                &&& self.next_candidate == self.dist_index
                &&& self.match_count == 0
                &&& self.stop_index == 0
                &&& forall|w: int| 0 <= w < self.workers ==> no_stops(self.history@[w])
            },
            PoolPhase::Draining => {
                &&& self.dist_index == self.workers
                &&& self.next_candidate >= self.workers
                &&& self.stop_index == 0
                &&& forall|w: int| 0 <= w < self.workers ==> no_stops(self.history@[w])
            },
            PoolPhase::Stopping => {
                &&& self.dist_index == self.workers
                &&& self.next_candidate >= self.workers
                &&& self.match_count == self.f
                &&& self.stop_index < self.workers
                &&& (forall|w: int| 0 <= w < self.stop_index ==> stop_is_last(self.history@[w]))
                &&& (forall|w: int|
                    self.stop_index <= w < self.workers ==> no_stops(self.history@[w]))
            },
            PoolPhase::Terminated => {
                &&& self.next_candidate >= self.workers
                &&& self.match_count == self.f
                &&& self.stop_index == self.workers
                &&& forall|w: int| 0 <= w < self.workers ==> stop_is_last(self.history@[w])
            },
        }
    }

    /// Whether worker `w` has already been sent its stop command.
    pub open spec fn stop_sent(self, w: int) -> bool {
        match self.phase {
            PoolPhase::Stopping => w < self.stop_index,
            PoolPhase::Terminated => true,
            _ => false,
        }
    }

    /// A new controller for `workers` workers and target match count `f`,
    /// in its initial distributing phase with nothing sent yet.
    pub fn new(workers: u8, f: u32) -> (r: Controller)
        requires
            workers >= 1,
        ensures
            r.wf(),
            r.workers == workers,
            r.f == f,
            r.match_count == 0,
            r.next_candidate == 0,
            r.phase is Distributing,
            r.dist_index == 0,
            r.results@ =~= Seq::<EventData>::empty(),
            r.history@ =~= Seq::new(workers as nat, |w: int| Seq::<ChannelEvent>::empty()),
            r.assigned@ =~= Seq::<u32>::empty(),
    {
        Controller {
            workers,
            f,
            match_count: 0,
            next_candidate: 0,
            dist_index: 0,
            stop_index: 0,
            results: Vec::new(),
            phase: PoolPhase::Distributing,
            history: Ghost(Seq::new(workers as nat, |w: int| Seq::empty())),
            assigned: Ghost(Seq::empty()),
        }
    }

    /// Is the initial distribution still in progress?
    pub fn distributing(&self) -> (r: bool)
        ensures
            r == (self.phase is Distributing),
    {
        matches!(self.phase, PoolPhase::Distributing)
    }

    /// Hands out the next initial assignment: worker `dist_index` gets the
    /// next candidate. Moves to the draining phase once every worker has its
    /// first candidate.
    pub fn distribute_next(&mut self) -> (r: (u8, ChannelEvent))
        requires
            old(self).wf(),
            old(self).phase is Distributing,
        ensures
            final(self).wf(),
            final(self).workers == old(self).workers,
            final(self).f == old(self).f,
            final(self).match_count == 0,
            final(self).results@ == old(self).results@,
            r.0 == old(self).dist_index,
            is_assign_event(r.1, old(self).next_candidate),
            final(self).next_candidate == old(self).next_candidate + 1,
            final(self).dist_index == old(self).dist_index + 1,
            final(self).assigned@ == old(self).assigned@.push(old(self).next_candidate),
            final(self).history@ == old(self).history@.update(
                r.0 as int,
                old(self).history@[r.0 as int].push(r.1),
            ),
            final(self).phase is Draining <==> final(self).dist_index == final(self).workers,
            final(self).phase is Distributing || final(self).phase is Draining,
    {
        let w = self.dist_index;
        let cand = self.next_candidate;
        let ev = ChannelEvent::FromControlTask(Some(cand));
        self.history = Ghost(
            self.history@.update(
                w as int,
                self.history@[w as int].push(ChannelEvent::FromControlTask(Some(cand))),
            ),
        );
        self.assigned = Ghost(self.assigned@.push(cand));
        self.next_candidate = cand + 1;
        self.dist_index = w + 1;
        if self.dist_index == self.workers {
            self.phase = PoolPhase::Draining;
        }
        (w, ev)
    }

    /// True once the target number of matches has been confirmed.
    pub fn finished(&self) -> (r: bool)
        requires
            self.wf(),
        ensures
            r == (self.match_count == self.f),
    {
        self.match_count == self.f
    }

    /// Handles one report from a worker during the dispatch loop. A
    /// command-shaped message on a report channel is a protocol violation and
    /// leaves the state unchanged. A found match is appended to the results
    /// in arrival order; whether or not the candidate matched, the reporting
    /// worker is handed the next candidate, unless the report just completed
    /// the target, after which no further work is assigned.
    pub fn handle_report(&mut self, event: ChannelEvent) -> (r: Result<
        Option<(u8, ChannelEvent)>,
        ChannelError,
    >)
        requires
            old(self).wf(),
            old(self).phase is Draining,
            old(self).match_count < old(self).f,
            old(self).next_candidate < u32::MAX,
            event matches ChannelEvent::FromChildTask { thread_id, .. } ==> thread_id < old(
                self,
            ).workers,
        ensures
            final(self).wf(),
            final(self).workers == old(self).workers,
            final(self).f == old(self).f,
            final(self).phase is Draining,
            match event {
                ChannelEvent::FromControlTask(_) => {
                    &&& r matches Err(ChannelError::IncorrectChannelEventVariant)
                    &&& *final(self) == *old(self)
                },
                ChannelEvent::FromChildTask { thread_id, data } => {
                    &&& (match data {
                        Some(d) => {
                            &&& final(self).match_count == old(self).match_count + 1
                            &&& final(self).results@ == old(self).results@.push(d)
                        },
                        None => {
                            &&& final(self).match_count == old(self).match_count
                            &&& final(self).results@ == old(self).results@
                        },
                    })
                    &&& if final(self).match_count < final(self).f {
                        &&& r matches Ok(a) && a matches Some((w, ev)) && w == thread_id
                            && is_assign_event(ev, old(self).next_candidate)
                        &&& final(self).next_candidate == old(self).next_candidate + 1
                        &&& final(self).assigned@ == old(self).assigned@.push(
                            old(self).next_candidate,
                        )
                        &&& final(self).history@ == old(self).history@.update(
                            thread_id as int,
                            old(self).history@[thread_id as int].push(
                                ChannelEvent::FromControlTask(Some(old(self).next_candidate)),
                            ),
                        )
                    } else {
                        &&& r matches Ok(a) && a is None
                        &&& final(self).next_candidate == old(self).next_candidate
                        &&& final(self).assigned@ == old(self).assigned@
                        &&& final(self).history@ == old(self).history@
                    }
                },
            },
    {
        match event {
            ChannelEvent::FromControlTask(_) => Err(ChannelError::IncorrectChannelEventVariant),
            ChannelEvent::FromChildTask { thread_id, data } => {
                if let Some(d) = data {
                    self.results.push(d);
                    self.match_count = self.match_count + 1;
                }
                if self.match_count < self.f {
                    let cand = self.next_candidate;
                    let ev = ChannelEvent::FromControlTask(Some(cand));
                    self.history = Ghost(
                        self.history@.update(
                            thread_id as int,
                            self.history@[thread_id as int].push(
                                ChannelEvent::FromControlTask(Some(cand)),
                            ),
                        ),
                    );
                    self.assigned = Ghost(self.assigned@.push(cand));
                    self.next_candidate = cand + 1;
                    Ok(Some((thread_id, ev)))
                } else {
                    Ok(None)
                }
            },
        }
    }

    /// Moves to the stopping phase once the target has been reached; the stop
    /// commands are then handed out one worker at a time.
    pub fn begin_stop(&mut self)
        requires
            old(self).wf(),
            old(self).phase is Draining,
            old(self).match_count == old(self).f,
        ensures
            final(self).wf(),
            final(self).phase is Stopping,
            final(self).workers == old(self).workers,
            final(self).f == old(self).f,
            final(self).match_count == old(self).match_count,
            final(self).next_candidate == old(self).next_candidate,
            final(self).stop_index == 0,
            final(self).results@ == old(self).results@,
            final(self).history@ == old(self).history@,
            final(self).assigned@ == old(self).assigned@,
    {
        self.phase = PoolPhase::Stopping;
    }

    /// Hands out the next stop command, to worker `stop_index`. The pool is
    /// terminated once every worker has its stop command; nothing is ever
    /// sent to a worker after its stop.
    pub fn next_stop(&mut self) -> (r: (u8, ChannelEvent))
        requires
            old(self).wf(),
            old(self).phase is Stopping,
        ensures
            final(self).wf(),
            final(self).workers == old(self).workers,
            final(self).f == old(self).f,
            final(self).match_count == old(self).match_count,
            final(self).next_candidate == old(self).next_candidate,
            final(self).results@ == old(self).results@,
            final(self).assigned@ == old(self).assigned@,
            r.0 == old(self).stop_index,
            is_stop_event(r.1),
            final(self).stop_index == old(self).stop_index + 1,
            final(self).history@ == old(self).history@.update(
                r.0 as int,
                old(self).history@[r.0 as int].push(r.1),
            ),
            final(self).phase is Terminated <==> final(self).stop_index == final(self).workers,
            final(self).phase is Stopping || final(self).phase is Terminated,
    {
        let w = self.stop_index;
        let ev = ChannelEvent::FromControlTask(None);
        self.history = Ghost(
            self.history@.update(
                w as int,
                self.history@[w as int].push(ChannelEvent::FromControlTask(None)),
            ),
        );
        self.stop_index = w + 1;
        if self.stop_index == self.workers {
            self.phase = PoolPhase::Terminated;
        }
        (w, ev)
    }

    /// Has every worker been sent its stop command?
    pub fn terminated(&self) -> (r: bool)
        ensures
            r == (self.phase is Terminated),
    {
        matches!(self.phase, PoolPhase::Terminated)
    }

    /// Classifies a failed command send to worker `w`: fatal exactly when
    /// that worker has not yet been sent its stop command — it indicates a
    /// broken worker — and benign afterwards, since a stopped worker may
    /// already have exited and closed its channel.
    pub fn send_failure_is_fatal(&self, w: u8) -> (r: bool)
        requires
            self.wf(),
            w < self.workers,
        ensures
            r == !self.stop_sent(w as int),
    {
        match self.phase {
            PoolPhase::Stopping => w >= self.stop_index,
            PoolPhase::Terminated => false,
            _ => true,
        }
    }

    /// Once the pool has terminated, the result sequence has length exactly
    /// the target `f`.
    pub proof fn lemma_terminated_results(self)
        requires
            self.wf(),
            self.phase is Terminated,
        ensures
            self.results@.len() == self.f,
    {
    }

    /// The candidates assigned over the pool's lifetime are exactly
    /// `0, 1, ..., K-1` for `K == next_candidate`: contiguous from zero, with
    /// no gaps and no duplicates; and once the initial distribution is done,
    /// `K` is at least the worker count.
    pub proof fn lemma_assignments_contiguous(self)
        requires
            self.wf(),
        ensures
            self.assigned@.len() == self.next_candidate,
            forall|i: int| 0 <= i < self.assigned@.len() ==> self.assigned@[i] == i as u32,
            forall|i: int, j: int|
                0 <= i < j < self.assigned@.len() ==> self.assigned@[i] != self.assigned@[j],
            !(self.phase is Distributing) ==> self.assigned@.len() >= self.workers,
    {
    }

    /// Once the pool has terminated, every worker's command history ends with
    /// a stop command and holds no other stop: each worker received exactly
    /// one stop command, as the last command it was ever sent.
    pub proof fn lemma_stop_is_last_command(self, w: int)
        requires
            self.wf(),
            self.phase is Terminated,
            0 <= w < self.workers,
        ensures
            stop_is_last(self.history@[w]),
    {
    }

    /// In every reachable state, no command follows a worker's stop command:
    /// the controller never assigns work to a worker it has stopped.
    pub proof fn lemma_no_command_after_stop(self, w: int)
        requires
            self.wf(),
            0 <= w < self.workers,
        ensures
            forall|i: int|
                0 <= i < self.history@[w].len() - 1 ==> !is_stop_event(self.history@[w][i]),
    {
    }

    /// Hands the collected matches out; the search result, in arrival order.
    pub fn into_results(self) -> (r: Vec<EventData>)
        ensures
            r@ == self.results@,
    {
        self.results
    }

    /// A send failure to a worker is benign exactly when that worker's
    /// command history already holds its stop command.
    pub proof fn lemma_stop_sent_history(self, w: int)
        requires
            self.wf(),
            0 <= w < self.workers,
        ensures
            self.stop_sent(w) <==> !no_stops(self.history@[w]),
    {
        if self.stop_sent(w) {
            assert(is_stop_event(self.history@[w].last()));
            assert(!no_stops(self.history@[w]));
        }
    }
}

/// The pool discovers the same candidates as the sequential baseline: any two
/// result sequences that hold the matching candidates below some bound — as
/// both `run_synchronous` and the sequential scan ensure of theirs — and that
/// have the same length list the same candidates in the same order, whatever
/// worker count produced them.
pub proof fn lemma_pool_matches_baseline(
    n: nat,
    r1: Seq<EventData>,
    r2: Seq<EventData>,
    k1: nat,
    k2: nat,
)
    requires
        numbers_of(r1) == match_seq(n, k1),
        numbers_of(r2) == match_seq(n, k2),
        r1.len() == r2.len(),
    ensures
        numbers_of(r1) == numbers_of(r2),
{
    assert(numbers_of(r1).len() == r1.len());
    assert(numbers_of(r2).len() == r2.len());
    if k1 <= k2 {
        crate::digest::lemma_match_seq_prefix(n, k1, k2);
    } else {
        crate::digest::lemma_match_seq_prefix(n, k2, k1);
    }
    assert(numbers_of(r1) =~= numbers_of(r2));
}

/// Runs the whole pool protocol under the deterministic synchronous schedule:
/// the workers' in-flight candidates are processed round-robin, oldest first,
/// and every report is handled before the next candidate is tested. Any
/// worker count yields exactly the sequential baseline's results: the first
/// `f` matching candidates, in increasing order, each with its digest. The
/// result is shorter than `f` only when the candidate space ran out, which
/// leaves the last in-flight candidates untested.
pub fn run_synchronous(workers: u8, n: u8, f: u32) -> (r: Vec<EventData>)
    requires
        workers >= 1,
    ensures
        r@.len() <= f,
        forall|i: int|
            0 <= i < r@.len() ==> (#[trigger] r@[i]).hash@ == digest_of_number(r@[i].number as int),
        exists|k: nat|
            #![trigger match_seq(n as nat, k)]
            k <= u32::MAX + 1 && numbers_of(r@) == match_seq(n as nat, k) && (r@.len() == f || k
                + workers >= u32::MAX),
{
    let mut c = Controller::new(workers, f);
    let mut pending: Vec<(u8, u32)> = Vec::new();
    while c.distributing()
        invariant
            c.wf(),
            c.workers == workers,
            c.f == f,
            c.match_count == 0,
            c.results@.len() == 0,
            c.phase is Distributing || c.phase is Draining,
            c.phase is Draining <==> pending@.len() == workers as int,
            c.phase is Distributing ==> c.dist_index as int == pending@.len(),
            c.next_candidate as int == pending@.len(),
            forall|i: int|
                0 <= i < pending@.len() ==> (#[trigger] pending@[i]).0 as int == i
                    && pending@[i].1 as int == i,
        decreases workers as int - c.dist_index as int,
    {
        let (w, cmd) = c.distribute_next();
        match worker_handle_command(cmd) {
            Ok(Some(x)) => { pending.push((w, x)); },
            _ => {
                proof {
                    assert(false);
                }
            },
        }
    }
    if c.finished() {
        proof {
            assert(numbers_of(c.results@) =~= match_seq(n as nat, 0));
        }
        return c.into_results();
    }
    loop
        invariant_except_break
            c.wf(),
            c.workers == workers,
            c.f == f,
            c.phase is Draining,
            c.match_count < c.f,
            pending@.len() == workers as int,
            c.next_candidate >= workers,
            forall|i: int|
                0 <= i < pending@.len() ==> (#[trigger] pending@[i]).0 < workers
                    && pending@[i].1 as int == c.next_candidate - workers + i,
            numbers_of(c.results@) =~= match_seq(n as nat, (c.next_candidate - workers) as nat),
            forall|i: int|
                0 <= i < c.results@.len() ==> (#[trigger] c.results@[i]).hash@ == digest_of_number(
                    c.results@[i].number as int,
                ),
        ensures
            c.results@.len() <= f,
            forall|i: int|
                0 <= i < c.results@.len() ==> (#[trigger] c.results@[i]).hash@ == digest_of_number(
                    c.results@[i].number as int,
                ),
            exists|k: nat|
                #![trigger match_seq(n as nat, k)]
                k <= u32::MAX + 1 && numbers_of(c.results@) == match_seq(n as nat, k) && (
                c.results@.len() == f || k + workers >= u32::MAX),
        decreases u32::MAX - c.next_candidate,
    {
        if c.next_candidate == u32::MAX {
            proof {
                assert(numbers_of(c.results@) == match_seq(
                    n as nat,
                    (c.next_candidate - workers) as nat,
                ));
            }
            break;
        }
        let front = pending.remove(0);
        let report = worker_process(front.0, n, front.1);
        let res = c.handle_report(report);
        match res {
            Ok(opt) => match opt {
                Some(assignment) => {
                    match worker_handle_command(assignment.1) {
                        Ok(Some(x)) => { pending.push((assignment.0, x)); },
                        _ => {
                            proof {
                                assert(false);
                            }
                        },
                    }
                },
                None => {
                    proof {
                        assert(numbers_of(c.results@) =~= match_seq(
                            n as nat,
                            (c.next_candidate - workers + 1) as nat,
                        ));
                    }
                    break;
                },
            },
            Err(_) => {
                proof {
                    assert(false);
                }
                break;
            },
        }
        proof {
            assert(numbers_of(c.results@) =~= match_seq(
                n as nat,
                (c.next_candidate - workers) as nat,
            ));
        }
    }
    c.into_results()
}

/// The candidates still in flight: the payload of each queued assignment.
pub open spec fn in_flight_candidates(pending: Seq<(u8, u32)>) -> Set<u32> {
    pending.map_values(|p: (u8, u32)| p.1).to_set()
}

/// Runs the whole pool protocol under an arbitrary schedule, handed in as
/// data: at each step the schedule picks which worker's in-flight candidate
/// is tested and reported next (an out-of-range or exhausted schedule falls
/// back to the oldest). Whatever the schedule — that is, however the workers
/// happen to interleave — the run terminates and returns exactly the target
/// number of matches, each candidate confirmed against its digest and no
/// candidate reported twice; fewer only when every assignable candidate was
/// handed out first. The second component is the number of candidates
/// assigned over the run — at least one per worker — and the run is complete:
/// every assigned candidate, except the at most one per worker still in
/// flight at the end, was tested, and its match reported if and only if it is
/// one. Throughout the dispatch loop exactly one command is in flight per
/// worker: the protocol is strictly request/response.
pub fn run_with_schedule(workers: u8, n: u8, f: u32, sched: &Vec<usize>) -> (r: (
    Vec<EventData>,
    u32,
))
    requires
        workers >= 1,
    ensures
        r.0@.len() <= f,
        forall|i: int|
            0 <= i < r.0@.len() ==> is_match(n as nat, (#[trigger] r.0@[i]).number as int)
                && r.0@[i].hash@ == digest_of_number(r.0@[i].number as int) && r.0@[i].number
                < r.1,
        forall|i: int, j: int| 0 <= i < j < r.0@.len() ==> r.0@[i].number != r.0@[j].number,
        r.0@.len() == f || r.1 == u32::MAX,
        r.1 >= workers,
        exists|untested: Set<u32>|
            #![trigger untested.finite()]
            untested.finite() && untested.len() <= workers as nat && (forall|x: u32|
                x < r.1 && !untested.contains(x) ==> (is_match(n as nat, x as int)
                    <==> numbers_of(r.0@).contains(x))),
{
    let mut c = Controller::new(workers, f);
    let mut pending: Vec<(u8, u32)> = Vec::new();
    while c.distributing()
        invariant
            c.wf(),
            c.workers == workers,
            c.f == f,
            c.match_count == 0,
            c.results@.len() == 0,
            c.phase is Distributing || c.phase is Draining,
            c.phase is Draining <==> pending@.len() == workers as int,
            c.phase is Distributing ==> c.dist_index as int == pending@.len(),
            c.next_candidate as int == pending@.len(),
            forall|i: int|
                0 <= i < pending@.len() ==> (#[trigger] pending@[i]).0 as int == i
                    && pending@[i].1 as int == i,
        decreases workers as int - c.dist_index as int,
    {
        let (w, cmd) = c.distribute_next();
        match worker_handle_command(cmd) {
            Ok(Some(x)) => { pending.push((w, x)); },
            _ => {
                proof {
                    assert(false);
                }
            },
        }
    }
    if c.finished() {
        let assigned_count = c.next_candidate;
        let results = c.into_results();
        proof {
            broadcast use vstd::seq_lib::seq_to_set_is_finite;

            let untested = in_flight_candidates(pending@);
            pending@.map_values(|p: (u8, u32)| p.1).lemma_cardinality_of_set();
            assert(untested.finite());
            assert(untested.len() <= workers as nat);
            assert forall|x: u32|
                x < assigned_count && !untested.contains(x) implies (is_match(n as nat, x as int)
                <==> numbers_of(results@).contains(x)) by {
                assert(pending@.map_values(|p: (u8, u32)| p.1)[x as int] == x);
                assert(pending@.map_values(|p: (u8, u32)| p.1).contains(x));
            }
        }
        return (results, assigned_count);
    }
    let ghost mut processed: Set<u32> = Set::empty();
    let mut cursor: usize = 0;
    proof {
        assert forall|x: u32| x < c.next_candidate implies processed.contains(x) || (exists|i: int|
            0 <= i < pending@.len() && pending@[i].1 == x) by {
            assert(pending@[x as int].1 == x);
        }
    }
    loop
        invariant_except_break
            c.wf(),
            c.workers == workers,
            c.f == f,
            c.phase is Draining,
            c.match_count < c.f,
            pending@.len() == workers as int,
            forall|i: int|
                0 <= i < pending@.len() ==> (#[trigger] pending@[i]).0 < workers
                    && pending@[i].1 < c.next_candidate && !processed.contains(pending@[i].1),
            forall|i: int, j: int|
                0 <= i < j < pending@.len() ==> pending@[i].1 != pending@[j].1,
            forall|i: int, j: int|
                0 <= i < j < pending@.len() ==> pending@[i].0 != pending@[j].0,
            forall|x: u32| processed.contains(x) ==> x < c.next_candidate,
            forall|x: u32|
                #![trigger processed.contains(x)]
                x < c.next_candidate ==> processed.contains(x) || (exists|i: int|
                    0 <= i < pending@.len() && pending@[i].1 == x),
            forall|x: u32|
                #![trigger processed.contains(x)]
                processed.contains(x) ==> (is_match(n as nat, x as int) <==> numbers_of(
                    c.results@,
                ).contains(x)),
            forall|i: int|
                0 <= i < c.results@.len() ==> is_match(
                    n as nat,
                    (#[trigger] c.results@[i]).number as int,
                ) && c.results@[i].hash@ == digest_of_number(c.results@[i].number as int)
                    && processed.contains(c.results@[i].number),
            forall|i: int, j: int|
                0 <= i < j < c.results@.len() ==> c.results@[i].number != c.results@[j].number,
        ensures
            c.wf(),
            c.f == f,
            c.next_candidate >= workers,
            forall|i: int|
                0 <= i < c.results@.len() ==> is_match(
                    n as nat,
                    (#[trigger] c.results@[i]).number as int,
                ) && c.results@[i].hash@ == digest_of_number(c.results@[i].number as int)
                    && c.results@[i].number < c.next_candidate,
            forall|i: int, j: int|
                0 <= i < j < c.results@.len() ==> c.results@[i].number != c.results@[j].number,
            c.results@.len() == f || c.next_candidate == u32::MAX,
            in_flight_candidates(pending@).finite(),
            in_flight_candidates(pending@).len() <= workers as nat,
            forall|x: u32|
                x < c.next_candidate && !in_flight_candidates(pending@).contains(x) ==> (is_match(
                    n as nat,
                    x as int,
                ) <==> numbers_of(c.results@).contains(x)),
        decreases u32::MAX - c.next_candidate,
    {
        if c.next_candidate == u32::MAX {
            proof {
                broadcast use vstd::seq_lib::seq_to_set_is_finite;

                pending@.map_values(|p: (u8, u32)| p.1).lemma_cardinality_of_set();
                assert forall|x: u32|
                    x < c.next_candidate && !in_flight_candidates(pending@).contains(x) implies (
                is_match(n as nat, x as int) <==> numbers_of(c.results@).contains(x)) by {
                    if !processed.contains(x) {
                        let i = choose|i: int| 0 <= i < pending@.len() && pending@[i].1 == x;
                        assert(pending@.map_values(|p: (u8, u32)| p.1)[i] == x);
                        assert(pending@.map_values(|p: (u8, u32)| p.1).contains(x));
                    }
                }
            }
            break;
        }
        let ghost prev_pending = pending@;
        let ghost prev_processed = processed;
        let ghost prev_results = c.results@;
        let ghost prev_next = c.next_candidate;
        let mut idx: usize = 0;
        if cursor < sched.len() {
            let s = sched[cursor];
            if s < pending.len() {
                idx = s;
            }
        }
        cursor = if cursor < usize::MAX {
            cursor + 1
        } else {
            cursor
        };
        let front = pending.remove(idx);
        let ghost cand = front.1;
        let report = worker_process(front.0, n, front.1);
        proof {
            processed = processed.insert(front.1);
        }
        let res = c.handle_report(report);
        proof {
            if is_match(n as nat, cand as int) {
                let d = c.results@.last();
                assert(c.results@ == prev_results.push(d));
                assert(d.number == cand);
                assert(numbers_of(c.results@) =~= numbers_of(prev_results).push(cand));
            } else {
                assert(c.results@ == prev_results);
            }
            assert forall|x: u32| processed.contains(x) implies (is_match(n as nat, x as int)
                <==> numbers_of(c.results@).contains(x)) by {
                if x == cand {
                    if is_match(n as nat, cand as int) {
                        assert(numbers_of(c.results@)[prev_results.len() as int] == cand);
                        assert(numbers_of(c.results@).contains(cand));
                    } else if numbers_of(c.results@).contains(cand) {
                        let i = choose|i: int|
                            0 <= i < numbers_of(c.results@).len() && numbers_of(c.results@)[i]
                                == cand;
                        assert(prev_results[i].number == cand);
                        assert(prev_processed.contains(cand));
                        assert(false);
                    }
                } else {
                    assert(prev_processed.contains(x));
                    if is_match(n as nat, x as int) {
                        assert(numbers_of(prev_results).contains(x));
                        let i = choose|i: int|
                            0 <= i < numbers_of(prev_results).len() && numbers_of(prev_results)[i]
                                == x;
                        assert(numbers_of(c.results@)[i] == x);
                    } else if numbers_of(c.results@).contains(x) {
                        let i = choose|i: int|
                            0 <= i < numbers_of(c.results@).len() && numbers_of(c.results@)[i]
                                == x;
                        if i < prev_results.len() {
                            assert(numbers_of(prev_results)[i] == x);
                            assert(numbers_of(prev_results).contains(x));
                        }
                        assert(false);
                    }
                }
            }
        }
        match res {
            Ok(opt) => match opt {
                Some(assignment) => {
                    match worker_handle_command(assignment.1) {
                        Ok(Some(x)) => { pending.push((assignment.0, x)); },
                        _ => {
                            proof {
                                assert(false);
                            }
                        },
                    }
                    proof {
                        assert forall|x: u32| x < c.next_candidate implies processed.contains(x)
                            || (exists|i: int|
                            0 <= i < pending@.len() && pending@[i].1 == x) by {
                            if x == prev_next {
                                assert(pending@[pending@.len() - 1].1 == x);
                            } else if x != cand && !processed.contains(x) {
                                assert(!prev_processed.contains(x));
                                let i = choose|i: int|
                                    0 <= i < prev_pending.len() && prev_pending[i].1 == x;
                                if i < idx {
                                    assert(pending@[i].1 == x);
                                } else {
                                    assert(pending@[i - 1].1 == x);
                                }
                            }
                        }
                    }
                },
                None => {
                    proof {
                        broadcast use vstd::seq_lib::seq_to_set_is_finite;

                        pending@.map_values(|p: (u8, u32)| p.1).lemma_cardinality_of_set();
                        assert forall|x: u32|
                            x < c.next_candidate && !in_flight_candidates(pending@).contains(x)
                                implies (is_match(n as nat, x as int) <==> numbers_of(
                            c.results@,
                        ).contains(x)) by {
                            if x != cand && !processed.contains(x) {
                                assert(!prev_processed.contains(x));
                                let i = choose|i: int|
                                    0 <= i < prev_pending.len() && prev_pending[i].1 == x;
                                let j: int = if i < idx {
                                    i
                                } else {
                                    i - 1
                                };
                                assert(pending@[j].1 == x);
                                assert(pending@.map_values(|p: (u8, u32)| p.1)[j] == x);
                                assert(pending@.map_values(|p: (u8, u32)| p.1).contains(x));
                            }
                        }
                    }
                    break;
                },
            },
            Err(_) => {
                proof {
                    assert(false);
                }
                break;
            },
        }
    }
    let assigned_count = c.next_candidate;
    let results = c.into_results();
    proof {
        let untested = in_flight_candidates(pending@);
        assert(untested.finite());
        assert(untested.len() <= workers as nat);
        assert(forall|x: u32|
            x < assigned_count && !untested.contains(x) ==> (is_match(n as nat, x as int)
                <==> numbers_of(results@).contains(x)));
    }
    (results, assigned_count)
}

} // verus!
