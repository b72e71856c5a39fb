//! The step algorithm, exercised through the start/stop machine.

use edfsm::fsm::step;
use edfsm::start_stop::Command;
use edfsm::start_stop::EffectHandlers;
use edfsm::start_stop::Event;
use edfsm::start_stop::Idle;
use edfsm::start_stop::Running;
use edfsm::start_stop::Start;
use edfsm::start_stop::StartStopFsm;
use edfsm::start_stop::Started;
use edfsm::start_stop::State;
use edfsm::start_stop::Stop;
use edfsm::start_stop::Stopped;
use edfsm::Input;

#[test]
fn test_step() {
    // Initialize our effect handlers

    let mut se = EffectHandlers {
        started: 0,
        stopped: 0,
        transitioned_stopped_to_started: 0,
    };

    // First, test the FSM by stepping through various states given commands

    let e = step::<StartStopFsm>(
        &mut State::Idle(Idle),
        Input::Command(Command::Start(Start)),
        &mut se,
    );
    assert!(matches!(e, Some(Event::Started(Started))));
    assert_eq!(se.started, 1);
    assert_eq!(se.stopped, 0);
    assert_eq!(se.transitioned_stopped_to_started, 1);

    let e = step::<StartStopFsm>(
        &mut State::Running(Running),
        Input::Command(Command::Start(Start)),
        &mut se,
    );
    assert!(e.is_none());
    assert_eq!(se.started, 1);
    assert_eq!(se.stopped, 0);
    assert_eq!(se.transitioned_stopped_to_started, 1);

    let e = step::<StartStopFsm>(
        &mut State::Running(Running),
        Input::Command(Command::Stop(Stop)),
        &mut se,
    );
    assert!(matches!(e, Some(Event::Stopped(Stopped))));
    assert_eq!(se.started, 1);
    assert_eq!(se.stopped, 1);
    assert_eq!(se.transitioned_stopped_to_started, 1);

    let e = step::<StartStopFsm>(
        &mut State::Idle(Idle),
        Input::Command(Command::Stop(Stop)),
        &mut se,
    );
    assert!(e.is_none());
    assert_eq!(se.started, 1);
    assert_eq!(se.stopped, 1);
    assert_eq!(se.transitioned_stopped_to_started, 1);

    // Reset our effect handlers

    let mut se = EffectHandlers {
        started: 0,
        stopped: 0,
        transitioned_stopped_to_started: 0,
    };

    // Now, test the FSM by stepping through various states given events

    let e = step::<StartStopFsm>(
        &mut State::Idle(Idle),
        Input::Event(Event::Started(Started)),
        &mut se,
    );
    assert!(matches!(e, Some(Event::Started(Started))));
    assert_eq!(se.started, 1);
    assert_eq!(se.stopped, 0);
    assert_eq!(se.transitioned_stopped_to_started, 1);

    let e = step::<StartStopFsm>(
        &mut State::Running(Running),
        Input::Event(Event::Started(Started)),
        &mut se,
    );
    assert!(e.is_none());
    assert_eq!(se.started, 1);
    assert_eq!(se.stopped, 0);
    assert_eq!(se.transitioned_stopped_to_started, 1);

    let e = step::<StartStopFsm>(
        &mut State::Running(Running),
        Input::Event(Event::Stopped(Stopped)),
        &mut se,
    );
    assert!(matches!(e, Some(Event::Stopped(Stopped))));
    assert_eq!(se.started, 1);
    assert_eq!(se.stopped, 1);
    assert_eq!(se.transitioned_stopped_to_started, 1);

    let e = step::<StartStopFsm>(
        &mut State::Idle(Idle),
        Input::Event(Event::Stopped(Stopped)),
        &mut se,
    );
    assert!(e.is_none());
    assert_eq!(se.started, 1);
    assert_eq!(se.stopped, 1);
    assert_eq!(se.transitioned_stopped_to_started, 1);
}

#[test]
fn effect_handler_counts() {
    let mut se = EffectHandlers {
        started: 0,
        stopped: 0,
        transitioned_stopped_to_started: 0,
    };
    se.start_something();
    se.start_something();
    se.stop_something();
    se.enter_running();
    assert_eq!(se.started, 2);
    assert_eq!(se.stopped, 1);
    assert_eq!(se.transitioned_stopped_to_started, 1);
}
