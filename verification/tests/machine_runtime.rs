//! The machine runtime core, driven by the counter machine.

use edfsm::counter::Command;
use edfsm::counter::Counter;
use edfsm::counter::Event;
use edfsm::counter::Output;
use edfsm::machine::machine_with_effects;
use edfsm::machine::run;
use edfsm::machine::OutputBuffer;
use edfsm::Input;

#[test]
fn scenario_counter() {
    // ninety-nine ticks: nine tocks out, a count of ninety-nine
    let mut m = machine_with_effects::<Counter>(OutputBuffer(Vec::new()));
    m.hydrate(&Vec::new());
    let primed = m.initialise();
    assert!(primed.is_empty());
    let mut tocks = 0;
    let mut logged = 0;
    for _ in 0..99 {
        let p = m.handle(Input::Event(Event::Tick));
        if p.event.is_some() {
            logged += 1;
        }
        for o in &p.outputs {
            assert!(matches!(o, Output::Tock));
            tocks += 1;
        }
        assert!(!p.terminating);
    }
    assert_eq!(tocks, 9);
    assert_eq!(logged, 99);
    assert_eq!(m.state().count, 99);
}

#[test]
fn noop_event_leaves_no_trace() {
    // a reset at zero applies to nothing: no event logged, no output, no
    // state change
    let mut m = machine_with_effects::<Counter>(OutputBuffer(Vec::new()));
    let p = m.handle(Input::Event(Event::Reset));
    assert!(p.event.is_none());
    assert!(p.outputs.is_empty());
    assert!(!p.terminating);
    assert_eq!(m.state().count, 0);
}

#[test]
fn commands_decide_nothing_for_the_counter() {
    let mut m = machine_with_effects::<Counter>(OutputBuffer(Vec::new()));
    m.handle(Input::Event(Event::Tick));
    let p = m.handle(Input::Command(Command::Assert(1)));
    assert!(p.event.is_none());
    assert!(p.outputs.is_empty());
    assert_eq!(m.state().count, 1);
    let p = m.handle(Input::Command(Command::Print));
    assert!(p.event.is_none());
}

#[test]
fn replay_equivalence() {
    // replaying exactly the logged events of a run, from a fresh state,
    // reaches the same state as the live run
    let mut live = machine_with_effects::<Counter>(OutputBuffer(Vec::new()));
    let inputs = vec![
        Event::Reset, // no-op at zero, not logged
        Event::Tick,
        Event::Tick,
        Event::Reset,
        Event::Reset, // no-op again
        Event::Tick,
        Event::Tick,
        Event::Tick,
    ];
    let mut log: Vec<Event> = Vec::new();
    for e in inputs {
        let p = live.handle(Input::Event(e));
        if let Some(logged) = p.event {
            log.push(logged);
        }
    }
    assert_eq!(log.len(), 6);
    let mut fresh = machine_with_effects::<Counter>(OutputBuffer(Vec::new()));
    fresh.hydrate(&log);
    assert_eq!(fresh.state(), live.state());
    assert_eq!(fresh.state().count, 3);
}

#[test]
fn terminating_event_reported() {
    let mut m = machine_with_effects::<Counter>(OutputBuffer(Vec::new()));
    m.handle(Input::Event(Event::Tick));
    let p = m.handle(Input::Event(Event::Reset));
    assert!(p.event.is_some());
    assert!(p.terminating);
}

#[test]
fn run_drives_log_and_output() {
    let mut m = machine_with_effects::<Counter>(OutputBuffer(Vec::new()));
    let mut log = OutputBuffer(Vec::new());
    let mut out = OutputBuffer(Vec::new());
    let mut inputs = Vec::new();
    for _ in 0..25 {
        inputs.push(Input::Event(Event::Tick));
    }
    let terminated = run(&mut m, inputs, &mut log, &mut out);
    assert!(!terminated);
    assert_eq!(log.0.len(), 25);
    assert_eq!(out.0, vec![Output::Tock, Output::Tock]);
    assert_eq!(m.state().count, 25);
    // a terminating event stops the run early, after its log entry and
    // outputs went through; the tick behind it is never processed
    let more = vec![Input::Event(Event::Reset), Input::Event(Event::Tick)];
    let terminated = run(&mut m, more, &mut log, &mut out);
    assert!(terminated);
    assert_eq!(m.state().count, 0);
    assert_eq!(log.0.len(), 26);
    assert!(matches!(log.0[25], Event::Reset));
    // the reset landed the count on zero, a multiple of ten
    assert_eq!(out.0.len(), 3);
}

#[test]
fn initialise_flushes_pending_outputs() {
    // outputs already pending in the effect handler come out before any
    // input is processed
    let mut m = machine_with_effects::<Counter>(OutputBuffer(vec![Output::Tock, Output::Tock]));
    let primed = m.initialise();
    assert_eq!(primed.len(), 2);
    let p = m.handle(Input::Event(Event::Tick));
    assert!(p.outputs.is_empty());
}
