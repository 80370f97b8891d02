//! The reload state machine of the live display.
//!
//! The driver does what touches the world: it asks the watcher, reads the
//! source, compiles, draws and pauses. After each of these it tells the
//! machine what came of it, and the machine answers with what to do next.
//! One tick runs from `Event::Tick` to `Request::Pause`.

use vstd::prelude::*;

verus! {

/// The pause between two ticks, in milliseconds.
pub const TICK_MILLIS: u64 = 16;

/// What the machine is waiting for.
#[derive(Clone, Copy, Debug, PartialEq, Eq, Structural)]
pub enum Phase {
    /// Between two ticks.
    Idle,
    /// The watcher was asked whether the source is stale.
    Checking,
    /// The stale source is being read again.
    Refreshing,
    /// A new watcher is being made, after a failure.
    Recovering,
    /// The source is being compiled.
    Building,
    /// The frame is being drawn.
    Drawing,
}

/// What the driver has to tell.
pub enum Event<P> {
    /// The pause is over.
    Tick,
    /// The watcher found the source unchanged.
    Fresh,
    /// The watcher found the source changed.
    Stale,
    /// The watcher could not tell, or the source could not be read again.
    SourceFailed,
    /// The source was read again.
    Refreshed,
    /// A new watcher stands.
    WatcherReady,
    /// No new watcher could be made.
    WatcherFailed,
    /// The source compiled to this program.
    Built(P),
    /// The source did not compile.
    BuildFailed,
    /// The frame was drawn and shown.
    Presented,
}

/// What the driver has to do next.
#[derive(Clone, Copy, Debug, PartialEq, Eq, Structural)]
pub enum Request {
    /// Ask the watcher whether the source is stale.
    CheckStaleness,
    /// Read the source again.
    Refresh,
    /// Make a new watcher from scratch.
    MakeWatcher,
    /// Put the uniforms into the source and compile it.
    Build,
    /// Draw the frame with this index with the program in use.
    Draw { frame: i32 },
    /// Wait for the next tick.
    Pause,
}

/// What the driver has to print.
#[derive(Clone, Copy, Debug, PartialEq, Eq, Structural)]
pub enum Report {
    Nothing,
    /// The source could not be loaded.
    LoadError,
    /// The source did not compile.
    CompileError,
}

/// The machine's answer to an event.
#[derive(Clone, Copy, Debug, PartialEq, Eq, Structural)]
pub struct Step {
    pub report: Report,
    /// A new program is in use: elapsed time counts from now.
    pub restart_clock: bool,
    pub request: Request,
}

/// The state of the machine, as the contracts see it.
pub struct State<P> {
    pub phase: Phase,
    /// A watcher stands.
    pub watching: bool,
    /// The program in use: the last that was built.
    pub program: Option<P>,
    /// How many programs were built so far.
    pub generation: nat,
    /// How many frames were drawn with the program in use.
    pub frame: int,
}

/// The state before the first tick.
pub open spec fn initial<P>(watching: bool) -> State<P> {
    State { phase: Phase::Idle, watching, program: None, generation: 0, frame: 0 }
}

/// The event is one that the machine waits for in this state.
pub open spec fn accepts<P>(s: State<P>, e: Event<P>) -> bool {
    match s.phase {
        Phase::Idle => e is Tick,
        Phase::Checking => e is Fresh || e is Stale || e is SourceFailed,
        Phase::Refreshing => e is Refreshed || e is SourceFailed,
        Phase::Recovering => e is WatcherReady || e is WatcherFailed,
        Phase::Building => e is Built || e is BuildFailed,
        Phase::Drawing => e is Presented,
    }
}

/// The event makes a counter run over.
pub open spec fn overflows<P>(s: State<P>, e: Event<P>) -> bool {
    ||| s.phase == Phase::Building && e is Built && s.generation >= u64::MAX
    ||| s.phase == Phase::Drawing && e is Presented && s.frame >= i32::MAX
}

/// The end of a tick: the frame is drawn where there is a program, and the
/// pause follows at once where there is none.
pub open spec fn show<P>(s: State<P>) -> (State<P>, Request) {
    if s.program is Some {
        (State { phase: Phase::Drawing, ..s }, Request::Draw { frame: s.frame as i32 })
    } else {
        (State { phase: Phase::Idle, ..s }, Request::Pause)
    }
}

/// A failure of the watcher or of the source: it is reported, a new
/// watcher is asked for, and nothing is built in this tick.
pub open spec fn recover<P>(s: State<P>) -> (State<P>, Step) {
    (
        State { phase: Phase::Recovering, watching: false, ..s },
        Step { report: Report::LoadError, restart_clock: false, request: Request::MakeWatcher },
    )
}

/// The source is to be compiled.
pub open spec fn build<P>(s: State<P>) -> (State<P>, Step) {
    (
        State { phase: Phase::Building, ..s },
        Step { report: Report::Nothing, restart_clock: false, request: Request::Build },
    )
}

/// The state after an event that the machine accepts, and its answer.
pub open spec fn after<P>(s: State<P>, e: Event<P>) -> (State<P>, Step) {
    match e {
        Event::Tick => if s.watching {
            (
                State { phase: Phase::Checking, ..s },
                Step {
                    report: Report::Nothing,
                    restart_clock: false,
                    request: Request::CheckStaleness,
                },
            )
        } else {
            recover(s)
        },
        Event::Fresh => if s.program is None {
            build(s)
        } else {
            (show(s).0, Step { report: Report::Nothing, restart_clock: false, request: show(s).1 })
        },
        Event::Stale => (
            State { phase: Phase::Refreshing, ..s },
            Step { report: Report::Nothing, restart_clock: false, request: Request::Refresh },
        ),
        Event::SourceFailed => recover(s),
        Event::Refreshed => build(s),
        Event::WatcherReady => {
            let t = State { watching: true, ..s };
            (show(t).0, Step { report: Report::Nothing, restart_clock: false, request: show(t).1 })
        },
        Event::WatcherFailed => {
            let t = State { watching: false, ..s };
            (show(t).0, Step { report: Report::Nothing, restart_clock: false, request: show(t).1 })
        },
        Event::Built(p) => {
            let t = State { program: Some(p), generation: s.generation + 1, frame: 0, ..s };
            (show(t).0, Step { report: Report::Nothing, restart_clock: true, request: show(t).1 })
        },
        Event::BuildFailed => (
            show(s).0,
            Step { report: Report::CompileError, restart_clock: false, request: show(s).1 },
        ),
        Event::Presented => (
            State { phase: Phase::Idle, frame: s.frame + 1, ..s },
            Step { report: Report::Nothing, restart_clock: false, request: Request::Pause },
        ),
    }
}

/// The program in use stays until a build gives a new one: only `Built`
/// replaces it, and with the program that it carries.
pub proof fn law_program_kept_until_built<P>(s: State<P>, e: Event<P>)
    requires
        accepts(s, e),
    ensures
        !(e is Built) ==> after(s, e).0.program == s.program,
        e matches Event::Built(p) ==> after(s, e).0.program == Some(p),
{
}

/// A failure of the watcher or of the source is reported and answered with
/// a request for a new watcher. Whatever comes of that request, the tick
/// ends without a build and with the program that was in use.
pub proof fn law_failure_skips_build<P>(s: State<P>, e: Event<P>, next: Event<P>)
    requires
        accepts(s, e),
        e is SourceFailed || (e is Tick && !s.watching),
        accepts(after(s, e).0, next),
    ensures
        after(s, e).1.report == Report::LoadError,
        after(s, e).1.request == Request::MakeWatcher,
        after(s, e).0.program == s.program,
        after(after(s, e).0, next).0.program == s.program,
        after(after(s, e).0, next).0.generation == s.generation,
        after(after(s, e).0, next).1.request is Draw || after(after(s, e).0, next).1.request
            is Pause,
        after(after(s, e).0, next).1.request is Draw <==> s.program is Some,
{
}

/// The generation counts the builds that gave a program. With each of them
/// the frame index starts again at zero and the clock is restarted; nothing
/// else restarts the clock.
pub proof fn law_generation_counts_builds<P>(s: State<P>, e: Event<P>)
    requires
        accepts(s, e),
    ensures
        e is Built ==> after(s, e).0.generation == s.generation + 1 && after(s, e).0.frame == 0,
        !(e is Built) ==> after(s, e).0.generation == s.generation,
        after(s, e).1.restart_clock <==> e is Built,
{
}

/// A frame is drawn only with a program in use, and its index is the
/// number of frames drawn with that program before.
pub proof fn law_draw_needs_program<P>(s: State<P>, e: Event<P>)
    requires
        accepts(s, e),
        0 <= s.frame <= i32::MAX,
    ensures
        after(s, e).1.request matches Request::Draw { frame } ==> after(s, e).0.program is Some
            && frame == after(s, e).0.frame,
        after(s, e).0.phase == Phase::Drawing <==> after(s, e).1.request is Draw,
{
}

/// A source that is unchanged is built only while no program is in use.
pub proof fn law_fresh_source_builds_once<P>(s: State<P>)
    requires
        s.phase == Phase::Checking,
    ensures
        after(s, Event::Fresh).1.request == Request::Build <==> s.program is None,
{
}

/// How many events a tick can still take before its pause, at most.
pub open spec fn events_left(phase: Phase) -> nat {
    match phase {
        Phase::Idle => 0,
        Phase::Drawing => 1,
        Phase::Building => 2,
        Phase::Recovering => 2,
        Phase::Refreshing => 3,
        Phase::Checking => 4,
    }
}

/// Every tick comes to its pause, whatever the driver has to tell: in each
/// phase there is an event that the machine accepts, the machine is idle
/// again exactly when it asks for the pause, and each event within a tick
/// brings the pause nearer.
pub proof fn law_tick_ends<P>(s: State<P>, e: Event<P>)
    requires
        accepts(s, e),
    ensures
        after(s, e).1.request == Request::Pause <==> after(s, e).0.phase == Phase::Idle,
        s.phase != Phase::Idle ==> events_left(after(s, e).0.phase) < events_left(s.phase),
        s.phase == Phase::Idle ==> after(s, e).0.phase != Phase::Idle,
        exists|next: Event<P>| accepts(after(s, e).0, next),
{
    let t = after(s, e).0;
    match t.phase {
        Phase::Idle => {
            assert(accepts(t, Event::<P>::Tick));
        },
        Phase::Checking => {
            assert(accepts(t, Event::<P>::Fresh));
        },
        Phase::Refreshing => {
            assert(accepts(t, Event::<P>::Refreshed));
        },
        Phase::Recovering => {
            assert(accepts(t, Event::<P>::WatcherReady));
        },
        Phase::Building => {
            assert(accepts(t, Event::<P>::BuildFailed));
        },
        Phase::Drawing => {
            assert(accepts(t, Event::<P>::Presented));
        },
    }
}

/// The reload state machine. It owns the program in use.
pub struct Reloader<P> {
    phase: Phase,
    watching: bool,
    program: Option<P>,
    generation: u64,
    frame: i32,
}

impl<P> View for Reloader<P> {
    type V = State<P>;

    closed spec fn view(&self) -> State<P> {
        State {
            phase: self.phase,
            watching: self.watching,
            program: self.program,
            generation: self.generation as nat,
            frame: self.frame as int,
        }
    }
}

impl<P> Reloader<P> {
    /// No frame index is negative.
    #[verifier::type_invariant]
    spec fn counted_from_zero(&self) -> bool {
        0 <= self.frame
    }

    /// A machine before its first tick. `watching` says whether the first
    /// watcher could be made.
    pub fn new(watching: bool) -> (r: Self)
        ensures
            r@ == initial::<P>(watching),
    {
        Reloader { phase: Phase::Idle, watching, program: None, generation: 0, frame: 0 }
    }

    /// Takes one event. Where the machine does not wait for it, nothing
    /// changes and there is no answer.
    pub fn step(&mut self, event: Event<P>) -> (r: Option<Step>)
        requires
            !overflows(old(self)@, event),
        ensures
            0 <= final(self)@.frame,
            accepts(old(self)@, event) ==> r == Some(after(old(self)@, event).1) && final(self)@
                == after(old(self)@, event).0,
            !accepts(old(self)@, event) ==> r is None && final(self)@ == old(self)@,
    {
        proof {
            use_type_invariant(&*self);
        }
        let quiet = Step {
            report: Report::Nothing,
            restart_clock: false,
            request: Request::Pause,
        };
        match (self.phase, event) {
            (Phase::Idle, Event::Tick) => {
                if self.watching {
                    self.phase = Phase::Checking;
                    Some(Step { request: Request::CheckStaleness, ..quiet })
                } else {
                    Some(self.recover())
                }
            },
            (Phase::Checking, Event::Fresh) => {
                if self.program.is_none() {
                    self.phase = Phase::Building;
                    Some(Step { request: Request::Build, ..quiet })
                } else {
                    Some(Step { request: self.show(), ..quiet })
                }
            },
            (Phase::Checking, Event::Stale) => {
                self.phase = Phase::Refreshing;
                Some(Step { request: Request::Refresh, ..quiet })
            },
            (Phase::Checking, Event::SourceFailed) => Some(self.recover()),
            (Phase::Refreshing, Event::SourceFailed) => Some(self.recover()),
            (Phase::Refreshing, Event::Refreshed) => {
                self.phase = Phase::Building;
                Some(Step { request: Request::Build, ..quiet })
            },
            (Phase::Recovering, Event::WatcherReady) => {
                self.watching = true;
                Some(Step { request: self.show(), ..quiet })
            },
            (Phase::Recovering, Event::WatcherFailed) => {
                self.watching = false;
                Some(Step { request: self.show(), ..quiet })
            },
            (Phase::Building, Event::Built(p)) => {
                self.program = Some(p);
                self.generation = self.generation + 1;
                self.frame = 0;
                Some(Step { restart_clock: true, request: self.show(), ..quiet })
            },
            (Phase::Building, Event::BuildFailed) => {
                Some(Step { report: Report::CompileError, request: self.show(), ..quiet })
            },
            (Phase::Drawing, Event::Presented) => {
                self.phase = Phase::Idle;
                self.frame = self.frame + 1;
                Some(quiet)
            },
            _ => None,
        }
    }

    /// What the machine is waiting for.
    pub fn phase(&self) -> (phase: Phase)
        ensures
            phase == self@.phase,
    {
        self.phase
    }

    /// Whether a watcher stands.
    pub fn watching(&self) -> (watching: bool)
        ensures
            watching == self@.watching,
    {
        self.watching
    }

    /// The program in use.
    pub fn program(&self) -> (program: &Option<P>)
        ensures
            *program == self@.program,
    {
        &self.program
    }

    /// How many programs were built so far.
    pub fn generation(&self) -> (generation: u64)
        ensures
            generation == self@.generation,
    {
        self.generation
    }

    /// How many frames were drawn with the program in use.
    pub fn frame(&self) -> (frame: i32)
        ensures
            frame == self@.frame,
            0 <= frame,
    {
        proof {
            use_type_invariant(self);
        }
        self.frame
    }

    /// Whether `step` can take this event without a counter running over.
    pub fn has_room_for(&self, event: &Event<P>) -> (room: bool)
        ensures
            room == !overflows(self@, *event),
    {
        match (self.phase, event) {
            (Phase::Building, Event::Built(_)) => self.generation < u64::MAX,
            (Phase::Drawing, Event::Presented) => self.frame < i32::MAX,
            _ => true,
        }
    }

    fn recover(&mut self) -> (step: Step)
        ensures
            (final(self)@, step) == recover(old(self)@),
    {
        proof {
            use_type_invariant(&*self);
        }
        self.phase = Phase::Recovering;
        self.watching = false;
        Step { report: Report::LoadError, restart_clock: false, request: Request::MakeWatcher }
    }

    fn show(&mut self) -> (request: Request)
        ensures
            (final(self)@, request) == show(old(self)@),
    {
        proof {
            use_type_invariant(&*self);
        }
        if self.program.is_some() {
            self.phase = Phase::Drawing;
            Request::Draw { frame: self.frame }
        } else {
            self.phase = Phase::Idle;
            Request::Pause
        }
    }
}

} // verus!
