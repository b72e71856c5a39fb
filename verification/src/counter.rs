//! A small example machine: a counter that ticks up, resets to zero, and
//! emits a `Tock` whenever the count lands on a multiple of ten.

use vstd::prelude::*;

use crate::fsm::Change;
use crate::fsm::CloneView;
use crate::fsm::Fsm;
use crate::fsm::Terminating;
use crate::machine::OutputBuffer;

verus! {

/// The counter machine.
pub struct Counter;

/// Commands to the counter.  Neither produces an event: reporting and
/// checking the count are done by whoever runs the machine, reading the
/// state; the commands exist so the machine has a command type to ignore.
#[derive(Clone, Copy, Debug, PartialEq, Eq, Structural)]
pub enum Command {
    Print,
    Assert(u64),
}

/// Events of the counter.  `Reset` is terminating: a multiplexer hosting
/// counters drops the entry it is addressed to.
#[derive(Clone, Copy, Debug, PartialEq, Eq, Structural)]
pub enum Event {
    Tick,
    Reset,
}

/// The one output of the counter.
#[derive(Clone, Copy, Debug, PartialEq, Eq, Structural)]
pub enum Output {
    Tock,
}

/// The counter's state: the count alone.
#[derive(Debug, PartialEq, Eq, Structural)]
pub struct State {
    pub count: u64,
}

impl View for Command {
    type V = Command;

    open spec fn view(&self) -> Command {
        *self
    }
}

impl View for Event {
    type V = Event;

    open spec fn view(&self) -> Event {
        *self
    }
}

impl View for Output {
    type V = Output;

    open spec fn view(&self) -> Output {
        *self
    }
}

impl View for State {
    type V = State;

    open spec fn view(&self) -> State {
        *self
    }
}

impl Default for State {
    /// The count starts at zero.
    fn default() -> (r: Self)
        ensures
            r == (State { count: 0 }),
    {
        State { count: 0 }
    }
}

impl CloneView for Event {
    fn clone_view(&self) -> (r: Self) {
        *self
    }
}

impl CloneView for Output {
    fn clone_view(&self) -> (r: Self) {
        *self
    }
}

/// Counter events all share one compaction key: a compacted log retains
/// only the latest of them.
impl crate::persist::Persistable for Event {
    open spec fn spec_key(v: Event) -> u64 {
        0
    }

    fn compaction_key(&self) -> (k: u64) {
        0
    }
}

impl Terminating for Event {
    open spec fn spec_terminating(v: Event) -> bool {
        v is Reset
    }

    fn terminating(&self) -> (r: bool) {
        matches!(self, Event::Reset)
    }
}

/// The count after a tick: one more, held at the top of the range.
pub open spec fn ticked(c: u64) -> u64 {
    if c < u64::MAX {
        (c + 1) as u64
    } else {
        c
    }
}

impl Fsm for Counter {
    type S = State;

    type C = Command;

    type E = Event;

    type SE = OutputBuffer<Output>;

    open spec fn initial() -> State {
        State { count: 0 }
    }

    open spec fn decide(s: State, c: Command, se: Seq<Output>) -> Option<Event> {
        None
    }

    open spec fn command_effects(s: State, c: Command, se: Seq<Output>) -> Seq<Output> {
        se
    }

    open spec fn apply(s: State, e: Event) -> Option<(Change, State)> {
        match e {
            Event::Tick => Some((Change::Updated, State { count: ticked(s.count) })),
            Event::Reset => if s.count == 0 {
                None
            } else {
                Some((Change::Updated, State { count: 0 }))
            },
        }
    }

    open spec fn change_effects(s: State, e: Event, se: Seq<Output>, change: Change) -> Seq<
        Output,
    > {
        if s.count % 10 == 0 {
            se.push(Output::Tock)
        } else {
            se
        }
    }

    fn default_state() -> (s: State) {
        State { count: 0 }
    }

    fn for_command(s: &State, c: Command, se: &mut OutputBuffer<Output>) -> (r: Option<Event>) {
        None
    }

    fn on_event(s: &mut State, e: &Event) -> (r: Option<Change>) {
        match e {
            Event::Tick => {
                if s.count < u64::MAX {
                    s.count = s.count + 1;
                }
                Some(Change::Updated)
            },
            Event::Reset => {
                if s.count == 0 {
                    None
                } else {
                    s.count = 0;
                    Some(Change::Updated)
                }
            },
        }
    }

    fn on_change(s: &State, e: &Event, se: &mut OutputBuffer<Output>, change: Change) {
        if s.count % 10 == 0 {
            se.push(Output::Tock);
        }
    }
}

} // verus!
