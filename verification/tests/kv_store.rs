//! The path-keyed multiplexer, driven by counter children.

use edfsm::counter::Counter;
use edfsm::counter::Event;
use edfsm::counter::Output;
use edfsm::kv::Bound;
use edfsm::machine::machine_with_effects;
use edfsm::machine::OutputBuffer;
use edfsm::Extant;
use edfsm::Input;
use edfsm::Keyed;
use edfsm::KvStore;
use edfsm::Path;
use edfsm::PathItem;
use edfsm::Query;

type Store = KvStore<Counter>;

fn store_machine() -> edfsm::Machine<Store> {
    machine_with_effects::<Store>(Keyed {
        key: Path::root(),
        item: OutputBuffer(Vec::new()),
    })
}

fn path(names: &[&str]) -> Path {
    let mut p = Path::root();
    for n in names {
        p.push(PathItem::name(n));
    }
    p
}

#[test]
fn basic_kv_test() {
    // ninety-nine ticks to the root path behave as one counter, and the
    // outputs come back keyed by that path
    let mut m = store_machine();
    let mut tocks = 0;
    for _ in 0..99 {
        let p = m.handle(Input::Event(Keyed {
            key: Path::root(),
            item: Event::Tick,
        }));
        for o in &p.outputs {
            assert_eq!(o.key, Path::root());
            assert!(matches!(o.item, Output::Tock));
            tocks += 1;
        }
        assert!(!p.terminating);
    }
    assert_eq!(tocks, 9);
    // the sum over all keys is ninety-nine
    let st = m.state();
    let mut sum = 0;
    for (_, s) in st.get_all() {
        sum += s.count;
    }
    assert_eq!(sum, 99);
    assert_eq!(st.get(&Path::root()).unwrap().count, 99);
}

#[test]
fn empty_kv_test() {
    let m = store_machine();
    assert!(m.state().get_all().is_empty());
    assert_eq!(m.state().extant(&Path::root()), Extant::NotFound);
}

#[test]
fn scenario_upsert() {
    // an upsert on an absent path reports not-found, creates the value
    // through the ordinary event path, and a second upsert finds it
    let mut m = store_machine();
    let p = path(&["device"]);
    assert_eq!(m.state().extant(&p), Extant::NotFound);
    let r = m.handle(Input::Command(Query::Upsert(p.clone(), Event::Tick)));
    let produced = r.event.expect("upsert must produce an event");
    assert_eq!(produced.key, p);
    assert_eq!(m.state().extant(&p), Extant::Found);
    assert_eq!(m.state().get(&p).unwrap().count, 1);
    // the second upsert: the report is taken before the step, as the
    // query protocol does
    assert_eq!(m.state().extant(&p), Extant::Found);
    m.handle(Input::Command(Query::Upsert(p.clone(), Event::Tick)));
    assert_eq!(m.state().get(&p).unwrap().count, 2);
}

#[test]
fn scenario_insert() {
    let mut m = store_machine();
    let p = path(&["fresh"]);
    let r = m.handle(Input::Command(Query::Insert(Keyed {
        key: p.clone(),
        item: Event::Tick,
    })));
    assert!(r.event.is_some());
    assert_eq!(m.state().get(&p).unwrap().count, 1);
}

#[test]
fn read_queries_produce_no_event() {
    let mut m = store_machine();
    m.handle(Input::Event(Keyed {
        key: path(&["a"]),
        item: Event::Tick,
    }));
    let r = m.handle(Input::Command(Query::Get(path(&["a"]))));
    assert!(r.event.is_none());
    let r = m.handle(Input::Command(Query::GetAll));
    assert!(r.event.is_none());
    assert_eq!(m.state().get(&path(&["a"])).unwrap().count, 1);
}

#[test]
fn multiplexer_lifecycle() {
    let mut m = store_machine();
    let p = path(&["x"]);
    // terminating event to a never-seen path: a no-op, no entry appears
    let r = m.handle(Input::Event(Keyed {
        key: p.clone(),
        item: Event::Reset,
    }));
    assert!(r.event.is_none());
    assert_eq!(m.state().extant(&p), Extant::NotFound);
    // non-terminating event to an unseen path: a default child appears
    // with the event applied
    m.handle(Input::Event(Keyed {
        key: p.clone(),
        item: Event::Tick,
    }));
    assert_eq!(m.state().get(&p).unwrap().count, 1);
    // terminating event to an existing path: the entry goes away
    let r = m.handle(Input::Event(Keyed {
        key: p.clone(),
        item: Event::Reset,
    }));
    assert!(r.event.is_some());
    assert_eq!(m.state().extant(&p), Extant::NotFound);
}

#[test]
fn get_tree_returns_the_subtree() {
    let mut m = store_machine();
    let a = path(&["a"]);
    let mut a1 = a.clone();
    a1.push(PathItem::number(1));
    let mut a2 = a.clone();
    a2.push(PathItem::number(2));
    let b = path(&["b"]);
    for key in [&a, &a1, &a2, &b] {
        m.handle(Input::Event(Keyed {
            key: key.clone(),
            item: Event::Tick,
        }));
    }
    let st = m.state();
    let tree = st.get_tree(&a);
    assert_eq!(tree.len(), 3);
    assert_eq!(tree[0].0, &a);
    assert_eq!(tree[1].0, &a1);
    assert_eq!(tree[2].0, &a2);
    let all = st.get_all();
    assert_eq!(all.len(), 4);
    assert_eq!(all[3].0, &b);
}

#[test]
fn get_range_respects_bounds() {
    let mut m = store_machine();
    let keys: Vec<Path> = (1..=4)
        .map(|n| {
            let mut p = Path::root();
            p.push(PathItem::number(n));
            p
        })
        .collect();
    for key in &keys {
        m.handle(Input::Event(Keyed {
            key: key.clone(),
            item: Event::Tick,
        }));
    }
    let st = m.state();
    let r = st.get_range(
        &Bound::Included(keys[1].clone()),
        &Bound::Excluded(keys[3].clone()),
    );
    assert_eq!(r.len(), 2);
    assert_eq!(r[0].0, &keys[1]);
    assert_eq!(r[1].0, &keys[2]);
    let r = st.get_range(&Bound::Unbounded, &Bound::Unbounded);
    assert_eq!(r.len(), 4);
}
