use std::cell::RefCell;
use std::rc::Rc;

use balancer::{Async, AsyncSink, Balancer, Sink};

#[derive(Clone, Copy, PartialEq, Debug)]
enum Mode {
    Ready,
    NotReady,
    Fail,
}

/// What every sink of a pool saw, shared between the sinks and the test.
#[derive(Default)]
struct Record {
    send_modes: Vec<Mode>,
    flush_modes: Vec<Mode>,
    received: Vec<Vec<u32>>,
    offers: Vec<usize>,
    flushes: Vec<usize>,
    offer_order: Vec<usize>,
    flush_order: Vec<usize>,
}

type Shared = Rc<RefCell<Record>>;

struct Probe {
    id: usize,
    shared: Shared,
}

impl Sink for Probe {
    type SinkItem = u32;
    type SinkError = String;

    fn start_send(&mut self, item: u32) -> Result<AsyncSink<u32>, String> {
        let mut rec = self.shared.borrow_mut();
        rec.offers[self.id] += 1;
        rec.offer_order.push(self.id);
        match rec.send_modes[self.id] {
            Mode::Ready => {
                rec.received[self.id].push(item);
                Ok(AsyncSink::Ready)
            }
            Mode::NotReady => Ok(AsyncSink::NotReady(item)),
            Mode::Fail => Err(format!("sink {} failed", self.id)),
        }
    }

    fn poll_complete(&mut self) -> Result<Async<()>, String> {
        let mut rec = self.shared.borrow_mut();
        rec.flushes[self.id] += 1;
        rec.flush_order.push(self.id);
        match rec.flush_modes[self.id] {
            Mode::Ready => Ok(Async::Ready(())),
            Mode::NotReady => Ok(Async::NotReady),
            Mode::Fail => Err(format!("flush {} failed", self.id)),
        }
    }
}

fn pool(n: usize) -> (Balancer<Probe, u32, String>, Shared) {
    let shared: Shared = Rc::new(RefCell::new(Record {
        send_modes: vec![Mode::Ready; n],
        flush_modes: vec![Mode::Ready; n],
        received: vec![Vec::new(); n],
        offers: vec![0; n],
        flushes: vec![0; n],
        offer_order: Vec::new(),
        flush_order: Vec::new(),
    }));
    let mut sinks = Vec::new();
    for id in 0..n {
        sinks.push(Probe { id, shared: shared.clone() });
    }
    (Balancer::new(sinks), shared)
}

#[test]
fn eight_sinks_share_items_in_turn() {
    let (mut b, shared) = pool(8);
    for item in 0..256u32 {
        assert_eq!(b.start_send(item), Ok(AsyncSink::Ready));
    }
    let rec = shared.borrow();
    for k in 0..8usize {
        let expected: Vec<u32> = (0..32u32).map(|j| j * 8 + k as u32).collect();
        assert_eq!(rec.received[k], expected);
    }
}

#[test]
fn blocked_sink_is_skipped() {
    let (mut b, shared) = pool(3);
    shared.borrow_mut().send_modes[1] = Mode::NotReady;
    assert_eq!(b.start_send(10), Ok(AsyncSink::Ready));
    assert_eq!(shared.borrow().received[0], vec![10]);
    shared.borrow_mut().send_modes[0] = Mode::NotReady;
    assert_eq!(b.start_send(11), Ok(AsyncSink::Ready));
    let rec = shared.borrow();
    assert_eq!(rec.received[2], vec![11]);
    assert!(rec.received[1].is_empty());
    assert_eq!(rec.offer_order, vec![0, 1, 2]);
}

#[test]
fn all_blocked_hands_item_back() {
    let (mut b, shared) = pool(4);
    for k in 0..4 {
        shared.borrow_mut().send_modes[k] = Mode::NotReady;
    }
    assert_eq!(b.start_send(42), Ok(AsyncSink::NotReady(42)));
    assert_eq!(shared.borrow().offers, vec![1, 1, 1, 1]);
    assert_eq!(shared.borrow().offer_order, vec![0, 1, 2, 3]);
}

#[test]
fn full_sweep_keeps_cursor() {
    let (mut b, shared) = pool(4);
    assert_eq!(b.start_send(1), Ok(AsyncSink::Ready));
    for k in 0..4 {
        shared.borrow_mut().send_modes[k] = Mode::NotReady;
    }
    assert_eq!(b.start_send(2), Ok(AsyncSink::NotReady(2)));
    shared.borrow_mut().send_modes[1] = Mode::Ready;
    shared.borrow_mut().send_modes[2] = Mode::Ready;
    assert_eq!(b.start_send(2), Ok(AsyncSink::Ready));
    let rec = shared.borrow();
    assert_eq!(rec.offer_order, vec![0, 1, 2, 3, 0, 1]);
    assert_eq!(rec.received[1], vec![2]);
    assert!(rec.received[2].is_empty());
}

#[test]
fn error_stops_the_sweep() {
    let (mut b, shared) = pool(3);
    shared.borrow_mut().send_modes[0] = Mode::Fail;
    assert_eq!(b.start_send(7), Err("sink 0 failed".to_string()));
    let rec = shared.borrow();
    assert_eq!(rec.offers, vec![1, 0, 0]);
    assert!(rec.received.iter().all(|r| r.is_empty()));
}

#[test]
fn error_after_refusals() {
    let (mut b, shared) = pool(3);
    shared.borrow_mut().send_modes[0] = Mode::NotReady;
    shared.borrow_mut().send_modes[1] = Mode::Fail;
    assert_eq!(b.start_send(7), Err("sink 1 failed".to_string()));
    assert_eq!(shared.borrow().offers, vec![1, 1, 0]);
    shared.borrow_mut().send_modes[1] = Mode::Ready;
    assert_eq!(b.start_send(8), Ok(AsyncSink::Ready));
    assert_eq!(shared.borrow().received[2], vec![8]);
}

#[test]
fn every_item_reaches_one_sink() {
    let (mut b, shared) = pool(5);
    let mut pending: Vec<u32> = Vec::new();
    for item in 0..100u32 {
        for k in 0..5usize {
            let blocked = (item as usize * 7 + k * 3) % 4 == 0;
            shared.borrow_mut().send_modes[k] = if blocked { Mode::NotReady } else { Mode::Ready };
        }
        match b.start_send(item) {
            Ok(AsyncSink::Ready) => {}
            Ok(AsyncSink::NotReady(back)) => {
                assert_eq!(back, item);
                pending.push(back);
            }
            Err(e) => panic!("unexpected error {}", e),
        }
    }
    let rec = shared.borrow();
    let mut all: Vec<u32> = rec.received.iter().flatten().copied().collect();
    all.extend(pending.iter().copied());
    all.sort();
    assert_eq!(all, (0..100u32).collect::<Vec<u32>>());
}

#[test]
fn turns_follow_the_cursor() {
    let (mut b, shared) = pool(3);
    shared.borrow_mut().send_modes[0] = Mode::NotReady;
    assert_eq!(b.start_send(0), Ok(AsyncSink::Ready));
    shared.borrow_mut().send_modes[0] = Mode::Ready;
    for item in 1..7u32 {
        assert_eq!(b.start_send(item), Ok(AsyncSink::Ready));
    }
    let rec = shared.borrow();
    assert_eq!(rec.received[1], vec![0, 3, 6]);
    assert_eq!(rec.received[2], vec![1, 4]);
    assert_eq!(rec.received[0], vec![2, 5]);
}

#[test]
fn flush_ready_when_all_ready() {
    let (mut b, shared) = pool(3);
    assert_eq!(b.poll_complete(), Ok(Async::Ready(())));
    assert_eq!(shared.borrow().flushes, vec![1, 1, 1]);
}

#[test]
fn flush_not_ready_when_one_is_not() {
    let (mut b, shared) = pool(3);
    shared.borrow_mut().flush_modes[0] = Mode::NotReady;
    assert_eq!(b.poll_complete(), Ok(Async::NotReady));
    assert_eq!(shared.borrow().flushes, vec![1, 1, 1]);
}

#[test]
fn flush_error_stops_the_pass() {
    let (mut b, shared) = pool(4);
    assert_eq!(b.start_send(1), Ok(AsyncSink::Ready));
    shared.borrow_mut().flush_modes[2] = Mode::Fail;
    assert_eq!(b.poll_complete(), Err("flush 2 failed".to_string()));
    let rec = shared.borrow();
    assert_eq!(rec.flush_order, vec![1, 2]);
    assert_eq!(rec.flushes, vec![0, 1, 1, 0]);
}

#[test]
fn flush_leaves_cursor() {
    let (mut b, shared) = pool(3);
    assert_eq!(b.start_send(1), Ok(AsyncSink::Ready));
    assert_eq!(b.poll_complete(), Ok(Async::Ready(())));
    assert_eq!(b.start_send(2), Ok(AsyncSink::Ready));
    let rec = shared.borrow();
    assert_eq!(rec.flush_order, vec![1, 2, 0]);
    assert_eq!(rec.received[1], vec![2]);
}

#[test]
fn empty_pool_never_takes() {
    let mut b: Balancer<Probe, u32, String> = Balancer::new(Vec::new());
    assert_eq!(b.start_send(5), Ok(AsyncSink::NotReady(5)));
    assert_eq!(b.start_send(6), Ok(AsyncSink::NotReady(6)));
    assert_eq!(b.poll_complete(), Ok(Async::Ready(())));
}

#[test]
fn single_sink_takes_everything() {
    let (mut b, shared) = pool(1);
    for item in 0..5u32 {
        assert_eq!(b.start_send(item), Ok(AsyncSink::Ready));
    }
    assert_eq!(shared.borrow().received[0], vec![0, 1, 2, 3, 4]);
}

#[test]
fn balancers_nest() {
    let (inner_a, shared_a) = pool(2);
    let (inner_b, shared_b) = pool(2);
    shared_b.borrow_mut().send_modes[0] = Mode::NotReady;
    let mut outer = Balancer::new(vec![inner_a, inner_b]);
    for item in 0..4u32 {
        assert_eq!(outer.start_send(item), Ok(AsyncSink::Ready));
    }
    assert_eq!(shared_a.borrow().received, vec![vec![0], vec![2]]);
    assert_eq!(shared_b.borrow().received, vec![vec![], vec![1, 3]]);
    assert_eq!(outer.poll_complete(), Ok(Async::Ready(())));
}
