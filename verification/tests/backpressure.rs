//! Backpressure on a machine's bounded input queue: a full queue holds the
//! next sender back until an item is consumed, and nothing is dropped.

use edfsm::counter::Event;
use edfsm::Input;

type In = Input<edfsm::counter::Command, Event>;

#[test]
fn backpressure_test() {
    let rt = tokio::runtime::Builder::new_current_thread()
        .enable_time()
        .build()
        .unwrap();
    rt.block_on(async {
        let capacity = 2;
        let (tx, mut rx) = tokio::sync::mpsc::channel::<In>(capacity);
        tx.send(Input::Event(Event::Tick)).await.unwrap();
        tx.send(Input::Event(Event::Tick)).await.unwrap();
        // the queue is full: the next send cannot proceed
        assert!(tx.try_send(Input::Event(Event::Reset)).is_err());
        // consuming one item unblocks the sender
        assert!(matches!(rx.recv().await, Some(Input::Event(Event::Tick))));
        assert!(tx.try_send(Input::Event(Event::Reset)).is_ok());
        // and nothing was dropped along the way
        drop(tx);
        assert!(matches!(rx.recv().await, Some(Input::Event(Event::Tick))));
        assert!(matches!(rx.recv().await, Some(Input::Event(Event::Reset))));
        assert!(rx.recv().await.is_none());
    });
}
