use std::cell::RefCell;
use std::rc::Rc;

use broadcast::link::Listener;
use broadcast::{Receiver, Sender};

type Log = Rc<RefCell<Vec<(String, i32)>>>;

struct Recorder {
    name: String,
    log: Log,
}

impl Receiver<i32> for Recorder {
    fn on_received(&mut self, params: i32) {
        self.log.borrow_mut().push((self.name.clone(), params));
    }
}

fn recorder(name: &str, log: &Log) -> Listener<i32> {
    Rc::new(RefCell::new(Recorder { name: name.to_string(), log: log.clone() }))
}

fn new_log() -> Log {
    Rc::new(RefCell::new(Vec::new()))
}

fn calls(log: &Log) -> Vec<(String, i32)> {
    log.borrow().clone()
}

fn call(name: &str, v: i32) -> (String, i32) {
    (name.to_string(), v)
}

#[test]
fn default_sender_is_empty() {
    let mut s: Sender<i32> = Sender::default();
    assert_eq!(s.len(), 0);
    s.emit(3);
    assert_eq!(s.len(), 0);
}

#[test]
fn three_listeners_then_one_dropped() {
    let log = new_log();
    let mut s: Sender<i32> = Sender::default();
    let a = recorder("A", &log);
    let b = recorder("B", &log);
    let c = recorder("C", &log);
    s.register(a.clone());
    s.register(b.clone());
    s.register(c.clone());
    s.emit(5);
    assert_eq!(calls(&log), vec![call("A", 5), call("B", 5), call("C", 5)]);
    drop(b);
    log.borrow_mut().clear();
    s.emit(7);
    assert_eq!(calls(&log), vec![call("A", 7), call("C", 7)]);
    assert_eq!(s.len(), 2);
}

#[test]
fn duplicate_registration_keeps_order() {
    let log = new_log();
    let mut s: Sender<i32> = Sender::default();
    let a = recorder("A", &log);
    let c = recorder("C", &log);
    s.register(a.clone());
    s.register(a.clone());
    s.register(c.clone());
    s.emit(1);
    assert_eq!(calls(&log), vec![call("A", 1), call("A", 1), call("C", 1)]);
}

#[test]
fn each_distinct_listener_once_in_order() {
    let log = new_log();
    let mut s: Sender<i32> = Sender::default();
    let names = ["L0", "L1", "L2", "L3", "L4", "L5"];
    let listeners: Vec<Listener<i32>> = names.iter().map(|n| recorder(n, &log)).collect();
    for l in listeners.iter() {
        s.register(l.clone());
    }
    s.emit(42);
    let expected: Vec<(String, i32)> = names.iter().map(|n| call(n, 42)).collect();
    assert_eq!(calls(&log), expected);
    assert_eq!(s.len(), names.len());
}

#[test]
fn twice_registered_gets_two_calls() {
    let log = new_log();
    let mut s: Sender<i32> = Sender::default();
    let a = recorder("A", &log);
    s.register(a.clone());
    s.register(a.clone());
    assert_eq!(s.len(), 2);
    s.emit(9);
    assert_eq!(calls(&log), vec![call("A", 9), call("A", 9)]);
}

#[test]
fn destroyed_listener_is_skipped_and_purged() {
    let log = new_log();
    let mut s: Sender<i32> = Sender::default();
    let a = recorder("A", &log);
    let b = recorder("B", &log);
    s.register(a.clone());
    s.register(b.clone());
    assert_eq!(s.len(), 2);
    drop(a);
    s.emit(4);
    assert_eq!(calls(&log), vec![call("B", 4)]);
    assert_eq!(s.len(), 1);
}

#[test]
fn listener_never_kept_alive_by_sender() {
    let log = new_log();
    let mut s: Sender<i32> = Sender::default();
    let a = recorder("A", &log);
    s.register(a.clone());
    assert_eq!(Rc::strong_count(&a), 1);
    drop(a);
    s.emit(1);
    assert!(calls(&log).is_empty());
    assert_eq!(s.len(), 0);
}

#[test]
fn unregister_removes_every_registration() {
    let log = new_log();
    let mut s: Sender<i32> = Sender::default();
    let a = recorder("A", &log);
    let b = recorder("B", &log);
    s.register(a.clone());
    s.register(b.clone());
    s.register(a.clone());
    s.register(a.clone());
    s.unregister(a.clone());
    assert_eq!(s.len(), 1);
    s.emit(6);
    assert_eq!(calls(&log), vec![call("B", 6)]);
}

#[test]
fn unregister_unknown_is_noop() {
    let log = new_log();
    let mut s: Sender<i32> = Sender::default();
    let a = recorder("A", &log);
    let b = recorder("B", &log);
    let stranger = recorder("X", &log);
    s.register(a.clone());
    s.register(b.clone());
    s.unregister(stranger.clone());
    assert_eq!(s.len(), 2);
    s.emit(2);
    assert_eq!(calls(&log), vec![call("A", 2), call("B", 2)]);
}

#[test]
fn unregister_on_empty_sender() {
    let log = new_log();
    let mut s: Sender<i32> = Sender::default();
    s.unregister(recorder("X", &log));
    assert_eq!(s.len(), 0);
}

#[test]
fn unregister_also_purges_dead_entries() {
    let log = new_log();
    let mut s: Sender<i32> = Sender::default();
    let a = recorder("A", &log);
    let b = recorder("B", &log);
    let c = recorder("C", &log);
    s.register(a.clone());
    s.register(b.clone());
    s.register(c.clone());
    drop(b);
    s.unregister(c.clone());
    assert_eq!(s.len(), 1);
    s.emit(8);
    assert_eq!(calls(&log), vec![call("A", 8)]);
}

#[test]
fn emit_twice_reaches_same_listeners() {
    let log = new_log();
    let mut s: Sender<i32> = Sender::default();
    let a = recorder("A", &log);
    let b = recorder("B", &log);
    let c = recorder("C", &log);
    s.register(c.clone());
    s.register(a.clone());
    s.register(b.clone());
    s.emit(1);
    let first: Vec<String> = calls(&log).into_iter().map(|(n, _)| n).collect();
    log.borrow_mut().clear();
    s.emit(2);
    let second: Vec<String> = calls(&log).into_iter().map(|(n, _)| n).collect();
    assert_eq!(first, vec!["C".to_string(), "A".to_string(), "B".to_string()]);
    assert_eq!(first, second);
    assert_eq!(s.len(), 3);
}

struct Mutator {
    seen: Rc<RefCell<Vec<Vec<i32>>>>,
}

impl Receiver<Vec<i32>> for Mutator {
    fn on_received(&mut self, mut params: Vec<i32>) {
        self.seen.borrow_mut().push(params.clone());
        params.push(0);
    }
}

#[test]
fn each_listener_gets_its_own_copy() {
    let seen = Rc::new(RefCell::new(Vec::new()));
    let mut s: Sender<Vec<i32>> = Sender::default();
    let m1: Rc<RefCell<dyn Receiver<Vec<i32>>>> =
        Rc::new(RefCell::new(Mutator { seen: seen.clone() }));
    let m2: Rc<RefCell<dyn Receiver<Vec<i32>>>> =
        Rc::new(RefCell::new(Mutator { seen: seen.clone() }));
    s.register(m1.clone());
    s.register(m2.clone());
    s.emit(vec![1, 2]);
    assert_eq!(seen.borrow().clone(), vec![vec![1, 2], vec![1, 2]]);
}

struct Relay {
    inner: Sender<i32>,
    log: Log,
}

impl Receiver<i32> for Relay {
    fn on_received(&mut self, params: i32) {
        self.log.borrow_mut().push(("relay".to_string(), params));
        self.inner.emit(params + 1);
    }
}

#[test]
fn nested_emission_does_not_reenter_a_busy_listener() {
    let log = new_log();
    let relay = Rc::new(RefCell::new(Relay { inner: Sender::default(), log: log.clone() }));
    let as_listener: Listener<i32> = relay.clone();
    let other = recorder("B", &log);
    relay.borrow_mut().inner.register(as_listener.clone());
    relay.borrow_mut().inner.register(other.clone());
    let mut s: Sender<i32> = Sender::default();
    s.register(as_listener.clone());
    s.emit(10);
    assert_eq!(calls(&log), vec![call("relay", 10), call("B", 11)]);
    assert_eq!(relay.borrow().inner.len(), 2);
    assert_eq!(s.len(), 1);
}
