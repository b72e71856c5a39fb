//! A second example machine, written as explicit dispatch over a transition
//! table: `Idle` starts into `Running`, `Running` stops back into `Idle`,
//! and an effect handler counts what happened.

use vstd::prelude::*;

use crate::fsm::Change;
use crate::fsm::Fsm;

verus! {

/// The machine is not running.
pub struct Idle;

/// The machine is running.
pub struct Running;

/// The state: one of the two phases.
pub enum State {
    Idle(Idle),
    Running(Running),
}

/// Ask the machine to start.
pub struct Start;

/// Ask the machine to stop.
pub struct Stop;

/// Commands of the machine.
pub enum Command {
    Start(Start),
    Stop(Stop),
}

/// The machine started.
pub struct Started;

/// The machine stopped.
pub struct Stopped;

/// Events of the machine.
pub enum Event {
    Started(Started),
    Stopped(Stopped),
}

/// Counts the effects performed while stepping the machine.
#[derive(Clone, Copy, Debug, PartialEq, Eq, Structural)]
pub struct EffectHandlers {
    pub started: u32,
    pub stopped: u32,
    pub transitioned_stopped_to_started: u32,
}

impl View for State {
    type V = State;

    open spec fn view(&self) -> State {
        match self {
            State::Idle(_) => State::Idle(Idle),
            State::Running(_) => State::Running(Running),
        }
    }
}

impl View for Command {
    type V = Command;

    open spec fn view(&self) -> Command {
        match self {
            Command::Start(_) => Command::Start(Start),
            Command::Stop(_) => Command::Stop(Stop),
        }
    }
}

impl View for Event {
    type V = Event;

    open spec fn view(&self) -> Event {
        match self {
            Event::Started(_) => Event::Started(Started),
            Event::Stopped(_) => Event::Stopped(Stopped),
        }
    }
}

impl View for EffectHandlers {
    type V = EffectHandlers;

    open spec fn view(&self) -> EffectHandlers {
        *self
    }
}

/// A counter one higher, held at the top of the range.
pub open spec fn counted(c: u32) -> u32 {
    if c < u32::MAX {
        (c + 1) as u32
    } else {
        c
    }
}

impl EffectHandlers {
    /// Record that something was started.
    pub fn start_something(&mut self)
        ensures
            *final(self) == (EffectHandlers { started: counted(old(self).started), ..*old(self) }),
    {
        if self.started < u32::MAX {
            self.started = self.started + 1;
        }
    }

    /// Record that something was stopped.
    pub fn stop_something(&mut self)
        ensures
            *final(self) == (EffectHandlers { stopped: counted(old(self).stopped), ..*old(self) }),
    {
        if self.stopped < u32::MAX {
            self.stopped = self.stopped + 1;
        }
    }

    /// Record a transition into the running phase.
    pub fn enter_running(&mut self)
        ensures
            *final(self) == (EffectHandlers {
                transitioned_stopped_to_started: counted(
                    old(self).transitioned_stopped_to_started,
                ),
                ..*old(self)
            }),
    {
        if self.transitioned_stopped_to_started < u32::MAX {
            self.transitioned_stopped_to_started = self.transitioned_stopped_to_started + 1;
        }
    }
}

/// The start/stop machine.
pub struct StartStopFsm;

/// The effect handler after the entry half of a change reaction: entering
/// the running phase on a transition is recorded.
pub open spec fn entry_effects(s: State, change: Change, se: EffectHandlers) -> EffectHandlers {
    if change is Transitioned && s is Running {
        EffectHandlers {
            transitioned_stopped_to_started: counted(se.transitioned_stopped_to_started),
            ..se
        }
    } else {
        se
    }
}

/// The effect handler after the dispatch half of a change reaction: a stop
/// observed from idle, or a start observed from running, is recorded.
pub open spec fn dispatch_effects(s: State, e: Event, se: EffectHandlers) -> EffectHandlers {
    match (s, e) {
        (State::Idle(_), Event::Stopped(_)) => EffectHandlers {
            stopped: counted(se.stopped),
            ..se
        },
        (State::Running(_), Event::Started(_)) => EffectHandlers {
            started: counted(se.started),
            ..se
        },
        _ => se,
    }
}

impl Fsm for StartStopFsm {
    type S = State;

    type C = Command;

    type E = Event;

    type SE = EffectHandlers;

    open spec fn initial() -> State {
        State::Idle(Idle)
    }

    open spec fn decide(s: State, c: Command, se: EffectHandlers) -> Option<Event> {
        match (s, c) {
            (State::Running(_), Command::Stop(_)) => Some(Event::Stopped(Stopped)),
            (State::Idle(_), Command::Start(_)) => Some(Event::Started(Started)),
            _ => None,
        }
    }

    open spec fn command_effects(s: State, c: Command, se: EffectHandlers) -> EffectHandlers {
        se
    }

    open spec fn apply(s: State, e: Event) -> Option<(Change, State)> {
        match (s, e) {
            (State::Running(_), Event::Stopped(_)) => Some(
                (Change::Transitioned, State::Idle(Idle)),
            ),
            (State::Idle(_), Event::Started(_)) => Some(
                (Change::Transitioned, State::Running(Running)),
            ),
            _ => None,
        }
    }

    open spec fn change_effects(s: State, e: Event, se: EffectHandlers, change: Change) -> EffectHandlers {
        dispatch_effects(s, e, entry_effects(s, change, se))
    }

    fn default_state() -> (s: State) {
        State::Idle(Idle)
    }

    fn for_command(s: &State, c: Command, se: &mut EffectHandlers) -> (r: Option<Event>) {
        match (s, c) {
            (State::Running(rs), Command::Stop(c)) => match Self::for_running_stop(rs, c, se) {
                Some(ev) => Some(Event::Stopped(ev)),
                None => None,
            },
            (State::Idle(is), Command::Start(c)) => match Self::for_idle_start(is, c, se) {
                Some(ev) => Some(Event::Started(ev)),
                None => None,
            },
            _ => None,
        }
    }

    fn on_event(s: &mut State, e: &Event) -> (r: Option<Change>) {
        match (&*s, e) {
            (State::Running(_), Event::Stopped(_)) => {
                *s = State::Idle(Idle);
                Some(Change::Transitioned)
            },
            (State::Idle(_), Event::Started(_)) => {
                *s = State::Running(Running);
                Some(Change::Transitioned)
            },
            _ => None,
        }
    }

    fn on_change(s: &State, e: &Event, se: &mut EffectHandlers, change: Change) {
        if let Change::Transitioned = change {
            if let State::Running(rs) = s {
                Self::on_entry_running(rs, e, se);
            }
        }
        match (s, e) {
            (State::Idle(_), Event::Stopped(_)) => se.stop_something(),
            (State::Running(_), Event::Started(_)) => se.start_something(),
            _ => (),
        }
    }
}

impl StartStopFsm {
    /// Entry handler for the running phase.
    pub fn on_entry_running(_to_s: &Running, _e: &Event, se: &mut EffectHandlers)
        ensures
            *final(se) == (EffectHandlers {
                transitioned_stopped_to_started: counted(old(se).transitioned_stopped_to_started),
                ..*old(se)
            }),
    {
        se.enter_running()
    }

    /// A stop command in the running phase yields a stopped event.
    pub fn for_running_stop(_s: &Running, _c: Stop, se: &mut EffectHandlers) -> (r: Option<
        Stopped,
    >)
        ensures
            r is Some,
            *final(se) == *old(se),
    {
        Some(Stopped)
    }

    /// A started event observed while running is recorded.
    pub fn on_running_started(_s: &Running, _e: &Started, se: &mut EffectHandlers)
        ensures
            *final(se) == (EffectHandlers { started: counted(old(se).started), ..*old(se) }),
    {
        se.start_something();
    }

    /// A stopped event moves the running phase to idle.
    pub fn on_running_stopped(_s: &Running, _e: &Stopped) -> (r: Option<Idle>)
        ensures
            r is Some,
    {
        Some(Idle)
    }

    /// A start command in the idle phase yields a started event.
    pub fn for_idle_start(_s: &Idle, _c: Start, se: &mut EffectHandlers) -> (r: Option<Started>)
        ensures
            r is Some,
            *final(se) == *old(se),
    {
        Some(Started)
    }

    /// A started event moves the idle phase to running.
    pub fn on_idle_started(_s: &Idle, _e: &Started) -> (r: Option<Running>)
        ensures
            r is Some,
    {
        Some(Running)
    }

    /// A stopped event observed while idle is recorded.
    pub fn on_idle_stopped(_s: &Idle, _e: &Stopped, se: &mut EffectHandlers)
        ensures
            *final(se) == (EffectHandlers { stopped: counted(old(se).stopped), ..*old(se) }),
    {
        se.stop_something();
    }
}

} // verus!
