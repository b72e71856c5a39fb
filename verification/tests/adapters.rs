//! The adapter algebra: fan-out, filtering conversion, the placeholder,
//! and feeds.

use edfsm::adapter::Adapter;
use edfsm::adapter::EventInput;
use edfsm::adapter::Feed;
use edfsm::adapter::FilterMap;
use edfsm::adapter::Merge;
use edfsm::adapter::Placeholder;
use edfsm::counter::Command;
use edfsm::counter::Event;
use edfsm::machine::OutputBuffer;
use edfsm::Input;

#[test]
fn merge_fans_out_in_order() {
    let mut m = Merge::new(OutputBuffer(Vec::new()), OutputBuffer(Vec::new()));
    m.notify(Event::Tick);
    m.notify(Event::Reset);
    assert_eq!(m.first.0, vec![Event::Tick, Event::Reset]);
    assert_eq!(m.next.0, vec![Event::Tick, Event::Reset]);
}

#[test]
fn placeholder_discards() {
    let mut p = Placeholder::<Event>::new();
    p.notify(Event::Tick);
    p.notify(Event::Reset);
}

#[test]
fn filter_map_converts_events_to_inputs() {
    let mut f = FilterMap::new(
        EventInput::<Command, Event>::new(),
        OutputBuffer(Vec::new()),
    );
    f.notify(Event::Tick);
    assert_eq!(f.inner.0.len(), 1);
    assert!(matches!(f.inner.0[0], Input::Event(Event::Tick)));
}

#[test]
fn feed_pushes_everything_in_order() {
    let src = OutputBuffer(vec![Event::Tick, Event::Tick, Event::Reset]);
    let mut dst = OutputBuffer(Vec::new());
    src.feed(&mut dst);
    assert_eq!(dst.0, vec![Event::Tick, Event::Tick, Event::Reset]);
    // a feed does not consume its source
    assert_eq!(src.0.len(), 3);
    // a placeholder feed provides nothing
    let ph = Placeholder::<Event>::new();
    ph.feed(&mut dst);
    assert_eq!(dst.0.len(), 3);
}
