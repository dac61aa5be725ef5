use vstd::prelude::*;

verus! {

/// The state of one in-place-driven computation. Shared state of this
/// shape — compared and swapped atomically — is what lets a concurrent
/// deployment guarantee at most one active poll at a time; here the
/// same transitions are taken sequentially, one wake at a time.
#[derive(Clone, Copy, PartialEq, Eq, Structural, Debug)]
pub enum PollerState {
    /// The computation is not being polled by anyone.
    Idle,
    /// One poll pass is running.
    Polling,
    /// A wake arrived while a pass was running; the running pass owes
    /// one more pass before it stops.
    Notified,
}

/// What one poll pass of a computation reports.
pub enum PollStep<T> {
    /// Not done yet; `wake` says whether the computation asked to be
    /// polled again during this very pass.
    Pending { wake: bool },
    /// Done, with the produced value.
    Ready(T),
}

/// A computation that can be driven to completion by repeated polling.
pub trait InPlaceFuture: Sized {
    type Output;

    /// How many pending passes are left before the computation
    /// completes.
    spec fn remaining(&self) -> nat;

    /// The value it completes with.
    spec fn output_spec(&self) -> Self::Output;

    /// Whether it asks to be re-polled on every pending pass, and
    /// keeps doing so.
    spec fn self_waking(&self) -> bool;

    /// One poll pass.
    fn poll_step(&mut self) -> (r: PollStep<Self::Output>)
        ensures
            old(self).remaining() == 0 ==> (r matches PollStep::Ready(t) && t == old(
                self,
            ).output_spec()),
            old(self).remaining() > 0 ==> (r matches PollStep::Pending { wake } && final(self).remaining() == old(self).remaining() - 1 && final(self).output_spec() == old(
                self,
            ).output_spec() && final(self).self_waking() == old(self).self_waking() && (old(
                self,
            ).self_waking() ==> wake)),
    ;
}

/// Drives one computation in place: each wake signal either starts a
/// poll pass on the calling thread or is absorbed by the pass already
/// running, which then owes one more pass. No scheduler is involved
/// and no thread ever parks.
pub struct PollAtWake<F: InPlaceFuture> {
    f: Option<F>,
    state: PollerState,
    polls: u64,
}

impl<F: InPlaceFuture> PollAtWake<F> {
    /// The computation still waiting to complete, if any.
    pub closed spec fn f_spec(&self) -> Option<F> {
        self.f
    }

    /// The state machine's current state.
    pub closed spec fn state_spec(&self) -> PollerState {
        self.state
    }

    /// How many poll passes have run.
    pub closed spec fn polls_spec(&self) -> u64 {
        self.polls
    }

    pub fn new(f: F) -> (r: Self)
        ensures
            r.f_spec() == Some(f),
            r.state_spec() == PollerState::Idle,
            r.polls_spec() == 0,
    {
        PollAtWake { f: Some(f), state: PollerState::Idle, polls: 0 }
    }

    /// How many poll passes have run.
    pub fn polls(&self) -> (r: u64)
        ensures
            r == self.polls_spec(),
    {
        self.polls
    }

    /// Delivers one wake signal. From `Idle` this runs poll passes on
    /// the spot, re-polling immediately as long as the computation
    /// wakes itself, exactly once per owed wake: a computation that
    /// self-reschedules until its last pass is resolved here after
    /// exactly `remaining + 1` passes. A wake that lands while a pass
    /// is already running never starts a second pass — it only marks
    /// the state `Notified` — so no two passes of one computation ever
    /// overlap.
    pub fn poll(&mut self) -> (r: Option<F::Output>)
        requires
            (match old(self).f_spec() {
                Some(f) => old(self).polls_spec() + f.remaining() + 1 <= u64::MAX,
                None => true,
            }),
        ensures
            old(self).state_spec() is Polling ==> r is None && final(self).state_spec()
                is Notified && final(self).f_spec() == old(self).f_spec() && final(self).polls_spec() == old(self).polls_spec(),
            old(self).state_spec() is Notified ==> r is None && *final(self) == *old(self),
            old(self).state_spec() is Idle && old(self).f_spec() is None ==> r is None && final(self).state_spec() is Polling && final(self).f_spec() is None && final(self).polls_spec()
                == old(self).polls_spec(),
            old(self).state_spec() is Idle && old(self).f_spec() is Some ==> ({
                let f = old(self).f_spec().unwrap();
                &&& (r matches Some(v) ==> v == f.output_spec() && final(self).f_spec() is None
                    && final(self).state_spec() is Polling && final(self).polls_spec() == old(
                    self,
                ).polls_spec() + f.remaining() + 1)
                &&& (r is None ==> final(self).state_spec() is Idle && final(self).f_spec()
                    is Some && ({
                    let g = final(self).f_spec().unwrap();
                    g.output_spec() == f.output_spec() && g.self_waking() == f.self_waking()
                        && g.remaining() < f.remaining() && final(self).polls_spec() == old(
                        self,
                    ).polls_spec() + f.remaining() - g.remaining()
                }))
                &&& (f.self_waking() ==> r is Some)
            }),
    {
        match self.state {
            PollerState::Idle => {
                self.state = PollerState::Polling;
            }
            PollerState::Polling => {
                // the pass already running owes one more pass; do not
                // poll concurrently with it
                self.state = PollerState::Notified;
                return None;
            }
            PollerState::Notified => {
                return None;
            }
        }
        let mut fut = match self.f.take() {
            Some(g) => g,
            None => {
                // nothing to drive; leave the state as the running
                // pass would
                return None;
            }
        };
        let ghost f0 = old(self).f_spec().unwrap();
        loop
            invariant
                old(self).state_spec() is Idle,
                old(self).f_spec() == Some(f0),
                self.state is Polling,
                self.f is None,
                fut.output_spec() == f0.output_spec(),
                fut.self_waking() == f0.self_waking(),
                fut.remaining() <= f0.remaining(),
                self.polls == old(self).polls_spec() + f0.remaining() - fut.remaining(),
                self.polls + fut.remaining() + 1 <= u64::MAX,
            decreases fut.remaining(),
        {
            match fut.poll_step() {
                PollStep::Ready(t) => {
                    // all further wakes are ignored once the value is
                    // produced; the computation is released
                    self.polls = self.polls + 1;
                    return Some(t);
                }
                PollStep::Pending { wake } => {
                    self.polls = self.polls + 1;
                    if wake {
                        // the computation woke itself during its own
                        // pass: absorb the wake
                        self.state = PollerState::Notified;
                    }
                    match self.state {
                        PollerState::Notified => {
                            // honor the absorbed wake with one more
                            // pass before returning
                            self.state = PollerState::Polling;
                        }
                        _ => {
                            // no wake arrived: the computation idles
                            // until a future wake
                            self.state = PollerState::Idle;
                            self.f = Some(fut);
                            return None;
                        }
                    }
                }
            }
        }
    }

    /// A wake signal delivered by reference: polls on the spot, as
    /// the waker of the concurrent arrangement does.
    pub fn wake_by_ref(&mut self)
        requires
            (match old(self).f_spec() {
                Some(f) => old(self).polls_spec() + f.remaining() + 1 <= u64::MAX,
                None => true,
            }),
        ensures
            old(self).state_spec() is Polling ==> final(self).state_spec() is Notified && final(self).f_spec() == old(self).f_spec() && final(self).polls_spec() == old(self).polls_spec(),
            old(self).state_spec() is Notified ==> *final(self) == *old(self),
            old(self).state_spec() is Idle && old(self).f_spec() is Some && old(
                self,
            ).f_spec().unwrap().self_waking() ==> final(self).f_spec() is None && final(self).polls_spec() == old(self).polls_spec() + old(self).f_spec().unwrap().remaining() + 1,
    {
        let _ = self.poll();
    }
}

/// Polls the provided computation immediately, re-driving it on the
/// calling thread each time it wakes itself, until it completes.
pub fn poll_future_notify<F: InPlaceFuture>(f: F) -> (r: F::Output)
    requires
        f.self_waking(),
        f.remaining() + 1 <= u64::MAX,
    ensures
        r == f.output_spec(),
{
    let mut poller = PollAtWake::new(f);
    match poller.poll() {
        Some(v) => v,
        None => vstd::pervasive::unreached(),
    }
}

/// The canonical self-rescheduling computation: on every pass it asks
/// to be polled again, burns one unit of fuel, and completes once the
/// fuel is gone — the way a waiter spins on the pending-response
/// table until its response shows up.
pub struct Countdown {
    fuel: u64,
}

impl Countdown {
    pub fn new(fuel: u64) -> (r: Countdown)
        ensures
            r.remaining() == fuel,
            r.self_waking(),
    {
        Countdown { fuel }
    }
}

impl InPlaceFuture for Countdown {
    type Output = u64;

    closed spec fn remaining(&self) -> nat {
        self.fuel as nat
    }

    closed spec fn output_spec(&self) -> u64 {
        0
    }

    closed spec fn self_waking(&self) -> bool {
        true
    }

    fn poll_step(&mut self) -> (r: PollStep<u64>) {
        if self.fuel == 0 {
            PollStep::Ready(0)
        } else {
            self.fuel = self.fuel - 1;
            PollStep::Pending { wake: true }
        }
    }
}

} // verus!
