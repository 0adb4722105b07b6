use vstd::prelude::*;

use crate::sink::{Async, AsyncSink, Sink};

verus! {

/// Hands each item to one of a fixed, ordered pool of sinks.
#[verifier::reject_recursive_types(Item)]
#[verifier::reject_recursive_types(Error)]
pub struct Balancer<T, Item, Error> where T: Sink<SinkItem = Item, SinkError = Error> {
    i: usize,
    v: Vec<T>,
}

impl<T, Item, Error> Balancer<T, Item, Error> where T: Sink<SinkItem = Item, SinkError = Error> {
    /// The pool, in order.
    pub closed spec fn sinks(&self) -> Seq<T> {
        self.v@
    }

    /// Index of the sink to offer the next item to first.
    pub closed spec fn cursor(&self) -> int {
        self.i as int
    }

    /// Takes the pool over; the first item goes to the first sink first.
    /// An empty pool is accepted, but such a balancer never takes an item.
    pub fn new(v: Vec<T>) -> (b: Balancer<T, Item, Error>)
        ensures
            b.sinks() == v@,
            b.cursor() == 0,
            (forall|p: int| 0 <= p < v@.len() ==> (#[trigger] v@[p]).inv()) ==> b.inv(),
    {
        Balancer { i: 0, v }
    }
}

/// The turn, counted from 0, in which a sweep over `n` sinks that starts at
/// position `start` reaches position `p`.
pub open spec fn turn(p: int, start: int, n: int) -> int {
    if p >= start {
        p - start
    } else {
        p + n - start
    }
}

/// The position `k` steps after `start` in a ring of `n` positions (`k <= n`).
pub open spec fn advance(start: int, k: int, n: int) -> int {
    if start + k < n {
        start + k
    } else {
        start + k - n
    }
}

/// What the sink tried in turn `t` answered, in a sweep of `k` offers of `item`
/// that ended with `r`: every offer but the last was refused.
pub open spec fn answer<Item, Error>(
    item: Item,
    r: Result<AsyncSink<Item>, Error>,
    k: int,
    t: int,
) -> Result<AsyncSink<Item>, Error> {
    if t + 1 == k {
        r
    } else {
        Ok(AsyncSink::NotReady(item))
    }
}

impl<T, Item, Error> Balancer<T, Item, Error> where T: Sink<SinkItem = Item, SinkError = Error> {
    /// An offer of `item` to `self` made `k` offers to the pool, one to each of
    /// the `k` sinks from the cursor on, answered `r` and left `next`.
    pub open spec fn swept(
        &self,
        item: Item,
        next: Self,
        r: Result<AsyncSink<Item>, Error>,
        k: int,
    ) -> bool {
        let n = self.sinks().len() as int;
        let start = self.cursor();
        &&& next.sinks().len() == n
        &&& 0 <= k <= n
        &&& next.cursor() == advance(start, k, n)
        &&& match r {
            Ok(AsyncSink::NotReady(x)) => x == item && k == n,
            _ => 1 <= k,
        }
        &&& forall|p: int|
            0 <= p < n ==> if turn(p, start, n) < k {
                self.sinks()[p].send_step(
                    item,
                    #[trigger] next.sinks()[p],
                    answer(item, r, k, turn(p, start, n)),
                )
            } else {
                next.sinks()[p] == self.sinks()[p]
            }
    }

    /// A flush of `self` flushed the first `a.len()` sinks from the cursor on,
    /// which answered `a` in that order, answered `r` and left `next`.
    pub open spec fn flushed(
        &self,
        next: Self,
        r: Result<Async<()>, Error>,
        a: Seq<Result<Async<()>, Error>>,
    ) -> bool {
        let n = self.sinks().len() as int;
        let start = self.cursor();
        &&& next.sinks().len() == n
        &&& next.cursor() == start
        &&& a.len() <= n
        &&& forall|t: int| 0 <= t < a.len() - 1 ==> #[trigger] a[t] is Ok
        &&& match r {
            Err(e) => a.len() >= 1 && a.last() == Err::<Async<()>, Error>(e),
            Ok(Async::Ready(_)) => a.len() == n && forall|t: int|
                0 <= t < n ==> #[trigger] a[t] matches Ok(Async::Ready(_)),
            Ok(Async::NotReady) => {
                &&& a.len() == n
                &&& forall|t: int| 0 <= t < n ==> #[trigger] a[t] is Ok
                &&& exists|t: int|
                    0 <= t < n && #[trigger] a[t] matches Ok(Async::NotReady)
            },
        }
        &&& forall|p: int|
            0 <= p < n ==> if turn(p, start, n) < a.len() {
                self.sinks()[p].flush_step(#[trigger] next.sinks()[p], a[turn(p, start, n)])
            } else {
                next.sinks()[p] == self.sinks()[p]
            }
    }
}

impl<T, Item, Error> Sink for Balancer<T, Item, Error> where
    T: Sink<SinkItem = Item, SinkError = Error>,
 {
    type SinkItem = Item;

    type SinkError = Error;

    /// The cursor is a position of the pool (0 for an empty pool) and every
    /// sink of the pool is consistent.
    open spec fn inv(&self) -> bool {
        &&& 0 <= self.cursor()
        &&& (self.cursor() < self.sinks().len() || (self.sinks().len() == 0 && self.cursor()
            == 0))
        &&& forall|p: int| 0 <= p < self.sinks().len() ==> (#[trigger] self.sinks()[p]).inv()
    }

    open spec fn send_step(&self, item: Item, next: Self, r: Result<AsyncSink<Item>, Error>) -> bool {
        exists|k: int| #[trigger] self.swept(item, next, r, k)
    }

    open spec fn flush_step(&self, next: Self, r: Result<Async<()>, Error>) -> bool {
        exists|a: Seq<Result<Async<()>, Error>>| #[trigger] self.flushed(next, r, a)
    }

    /// Offers `item` to the sinks of the pool in turn, from the cursor on,
    /// moving the cursor one step after each offer, until one takes it or
    /// fails. Refused by all, it comes back.
    #[verifier::loop_isolation(false)]
    fn start_send(&mut self, item: Item) -> (r: Result<AsyncSink<Item>, Error>) {
        let n = self.v.len();
        let ghost start = self.i as int;
        let ghost pool = self.v@;
        let ghost item0 = item;
        let mut pending = item;
        let mut t: usize = 0;
        while t < n
            invariant
                n == self.v.len() == pool.len(),
                start == old(self).cursor(),
                pool == old(self).sinks(),
                old(self).inv(),
                0 <= t <= n,
                pending == item0,
                self.i as int == advance(start, t as int, n as int),
                self.i < n || (n == 0 && self.i == 0),
                forall|p: int|
                    0 <= p < n ==> if turn(p, start, n as int) < t {
                        &&& pool[p].send_step(
                            item0,
                            #[trigger] self.v@[p],
                            Ok(AsyncSink::NotReady(item0)),
                        )
                        &&& self.v@[p].inv()
                    } else {
                        self.v@[p] == pool[p]
                    },
            decreases n - t,
        {
            let idx = self.i;
            self.i = if idx + 1 == n {
                0
            } else {
                idx + 1
            };
            assert(turn(idx as int, start, n as int) == t);
            assert(self.v@[idx as int].inv());
            let res = self.v[idx].start_send(pending);
            match res {
                Ok(AsyncSink::NotReady(rejected)) => {
                    pending = rejected;
                },
                _ => {
                    assert(old(self).swept(item0, *self, res, t + 1));
                    return res;
                },
            }
            t = t + 1;
        }
        assert(old(self).swept(item0, *self, Ok(AsyncSink::NotReady(item0)), n as int));
        Ok(AsyncSink::NotReady(pending))
    }

    /// Flushes every sink of the pool once, from the cursor on, and answers
    /// ready when all of them did. The first failure stops the pass. The
    /// cursor does not move.
    fn poll_complete(&mut self) -> (r: Result<Async<()>, Error>) {
        let n = self.v.len();
        let ghost start = self.i as int;
        let ghost pool = self.v@;
        let ghost mut a: Seq<Result<Async<()>, Error>> = Seq::empty();
        let mut all_ready = true;
        let mut i = self.i;
        let mut t: usize = 0;
        while t < n
            invariant
                n == self.v.len() == pool.len(),
                start == old(self).cursor(),
                pool == old(self).sinks(),
                old(self).inv(),
                self.i as int == start,
                0 <= t <= n,
                a.len() == t,
                i as int == advance(start, t as int, n as int),
                i < n || (n == 0 && i == 0),
                forall|u: int| 0 <= u < t ==> #[trigger] a[u] is Ok,
                all_ready <==> forall|u: int| 0 <= u < t ==> #[trigger] a[u] matches Ok(Async::Ready(_)),
                forall|p: int|
                    0 <= p < n ==> if turn(p, start, n as int) < t {
                        &&& pool[p].flush_step(#[trigger] self.v@[p], a[turn(p, start, n as int)])
                        &&& self.v@[p].inv()
                    } else {
                        self.v@[p] == pool[p]
                    },
            decreases n - t,
        {
            let idx = i;
            i = if idx + 1 == n {
                0
            } else {
                idx + 1
            };
            assert(turn(idx as int, start, n as int) == t);
            assert(self.v@[idx as int].inv());
            let res = self.v[idx].poll_complete();
            proof {
                let a0 = a;
                a = a.push(res);
                assert(forall|u: int| 0 <= u < t ==> a[u] == a0[u]);
                assert(a[t as int] == res);
            }
            match res {
                Ok(Async::Ready(())) => {},
                Ok(Async::NotReady) => {
                    assert(a[t as int] matches Ok(Async::NotReady));
                    all_ready = false;
                },
                Err(e) => {
                    assert(old(self).flushed(*self, Err(e), a));
                    return Err(e);
                },
            }
            t = t + 1;
        }
        if all_ready {
            assert(old(self).flushed(*self, Ok(Async::Ready(())), a));
            Ok(Async::Ready(()))
        } else {
            assert(old(self).flushed(*self, Ok(Async::NotReady), a));
            Ok(Async::NotReady)
        }
    }
}

} // verus!
