use vstd::prelude::*;

use vstd::arithmetic::div_mod::{lemma_add_mod_noop, lemma_mod_self_0, lemma_small_mod};

use crate::balancer::{Balancer, advance, answer, turn};
use crate::sink::{Async, AsyncSink, Sink};

verus! {

/// Every offer to any sink of type `T` is taken.
pub open spec fn always_ready<T, Item, Error>() -> bool where
    T: Sink<SinkItem = Item, SinkError = Error>,
 {
    forall|s: T, item: Item, next: T, r: Result<AsyncSink<Item>, Error>|
        #[trigger] s.send_step(item, next, r) ==> r matches Ok(AsyncSink::Ready)
}

/// An item that no sink of the pool takes is refused by every one of them,
/// each offered it exactly once, and comes back; the cursor ends where it was.
pub proof fn lemma_full_sweep<T, Item, Error>(
    b: Balancer<T, Item, Error>,
    item: Item,
    next: Balancer<T, Item, Error>,
    r: Result<AsyncSink<Item>, Error>,
) where T: Sink<SinkItem = Item, SinkError = Error>
    requires
        b.inv(),
        b.send_step(item, next, r),
        r matches Ok(AsyncSink::NotReady(_)),
    ensures
        r == Ok::<AsyncSink<Item>, Error>(AsyncSink::NotReady(item)),
        next.cursor() == b.cursor(),
        next.sinks().len() == b.sinks().len(),
        forall|p: int|
            0 <= p < b.sinks().len() ==> b.sinks()[p].send_step(
                item,
                #[trigger] next.sinks()[p],
                Ok(AsyncSink::NotReady(item)),
            ),
{
    let k = choose|k: int| b.swept(item, next, r, k);
    let n = b.sinks().len() as int;
    assert forall|p: int| 0 <= p < n implies b.sinks()[p].send_step(
        item,
        #[trigger] next.sinks()[p],
        Ok(AsyncSink::NotReady(item)),
    ) by {
        assert(turn(p, b.cursor(), n) < k);
    }
}

/// An item that the pool does not refuse reaches exactly one sink, at
/// position `p`, which answers what the pool answers; every other sink either
/// refused the item or was not offered it. The next offer starts after `p`.
pub proof fn lemma_one_recipient<T, Item, Error>(
    b: Balancer<T, Item, Error>,
    item: Item,
    next: Balancer<T, Item, Error>,
    r: Result<AsyncSink<Item>, Error>,
) where T: Sink<SinkItem = Item, SinkError = Error>
    requires
        b.inv(),
        b.send_step(item, next, r),
        !(r matches Ok(AsyncSink::NotReady(_))),
    ensures
        exists|p: int|
            {
                &&& 0 <= p < b.sinks().len()
                &&& b.sinks()[p].send_step(item, #[trigger] next.sinks()[p], r)
                &&& next.cursor() == advance(p, 1, b.sinks().len() as int)
                &&& forall|q: int|
                    0 <= q < b.sinks().len() && q != p ==> {
                        ||| #[trigger] next.sinks()[q] == b.sinks()[q]
                        ||| b.sinks()[q].send_step(
                            item,
                            next.sinks()[q],
                            Ok(AsyncSink::NotReady(item)),
                        )
                    }
            },
{
    let k = choose|k: int| b.swept(item, next, r, k);
    let n = b.sinks().len() as int;
    let c = b.cursor();
    let p = advance(c, k - 1, n);
    assert(turn(p, c, n) == k - 1);
    assert(next.sinks()[p] == next.sinks()[p]);
    assert(0 <= p < n);
    assert(b.sinks()[p].send_step(item, next.sinks()[p], r));
    assert(next.cursor() == advance(p, 1, n));
    assert forall|q: int| 0 <= q < n && q != p implies {
        ||| #[trigger] next.sinks()[q] == b.sinks()[q]
        ||| b.sinks()[q].send_step(item, next.sinks()[q], Ok(AsyncSink::NotReady(item)))
    } by {
        if turn(q, c, n) < k {
            assert(turn(q, c, n) != k - 1);
        }
    }
}

/// One offer to a pool of always-ready sinks goes to the sink at the cursor,
/// leaves the others alone, and moves the cursor one step.
proof fn lemma_ready_step<T, Item, Error>(
    b: Balancer<T, Item, Error>,
    item: Item,
    next: Balancer<T, Item, Error>,
    r: Result<AsyncSink<Item>, Error>,
) where T: Sink<SinkItem = Item, SinkError = Error>
    requires
        always_ready::<T, Item, Error>(),
        0 <= b.cursor() < b.sinks().len(),
        b.send_step(item, next, r),
    ensures
        r matches Ok(AsyncSink::Ready),
        next.sinks().len() == b.sinks().len(),
        next.cursor() == advance(b.cursor(), 1, b.sinks().len() as int),
        b.sinks()[b.cursor()].send_step(item, next.sinks()[b.cursor()], r),
        forall|q: int|
            0 <= q < b.sinks().len() && q != b.cursor() ==> #[trigger] next.sinks()[q]
                == b.sinks()[q],
{
    let k = choose|k: int| b.swept(item, next, r, k);
    let n = b.sinks().len() as int;
    let c = b.cursor();
    assert(turn(c, c, n) == 0);
    assert(next.sinks()[c] == next.sinks()[c]);
    assert(1 <= k);
    let first = answer(item, r, k, 0);
    assert(b.sinks()[c].send_step(item, next.sinks()[c], first));
    assert(first matches Ok(AsyncSink::Ready));
    assert(k == 1);
    assert forall|q: int| 0 <= q < n && q != c implies #[trigger] next.sinks()[q]
        == b.sinks()[q] by {
        assert(turn(q, c, n) >= 1);
    }
}

/// Offers made one after another to a pool of `n` always-ready sinks go to
/// the sinks in cyclic order from the first cursor: the `m`-th goes to sink
/// `(c + m) % n`, so no sink gets a second item before all the others have
/// had one.
pub proof fn lemma_round_robin<T, Item, Error>(
    bs: Seq<Balancer<T, Item, Error>>,
    items: Seq<Item>,
    rs: Seq<Result<AsyncSink<Item>, Error>>,
) where T: Sink<SinkItem = Item, SinkError = Error>
    requires
        always_ready::<T, Item, Error>(),
        bs.len() == items.len() + 1,
        rs.len() == items.len(),
        bs[0].inv(),
        bs[0].sinks().len() > 0,
        forall|m: int|
            0 <= m < items.len() ==> #[trigger] bs[m].send_step(items[m], bs[m + 1], rs[m]),
    ensures
        forall|m: int|
            0 <= m < items.len() ==> {
                let n = bs[0].sinks().len() as int;
                let p = (bs[0].cursor() + m) % n;
                &&& #[trigger] rs[m] matches Ok(AsyncSink::Ready)
                &&& bs[m].cursor() == p
                &&& bs[m + 1].sinks().len() == n
                &&& bs[m].sinks()[p].send_step(items[m], bs[m + 1].sinks()[p], rs[m])
                &&& forall|q: int|
                    0 <= q < n && q != p ==> #[trigger] bs[m + 1].sinks()[q] == bs[m].sinks()[q]
            },
        forall|m1: int, m2: int|
            #![trigger bs[m1], bs[m2]]
            0 <= m1 < m2 < items.len() && m2 - m1 < bs[0].sinks().len() ==> bs[m1].cursor()
                != bs[m2].cursor(),
    decreases items.len(),
{
    let n = bs[0].sinks().len() as int;
    let c = bs[0].cursor();
    let len = items.len() as int;
    if len > 0 {
        let last = len - 1;
        lemma_round_robin(bs.drop_last(), items.drop_last(), rs.drop_last());
        assert(bs.drop_last()[0] == bs[0]);
        assert forall|m: int| 0 <= m < last implies #[trigger] bs[m].send_step(items[m], bs[m + 1], rs[m])
            by {
            assert(bs.drop_last()[m] == bs[m]);
        }
        // The cursor before the last offer.
        let p = (c + last) % n;
        if last == 0 {
            lemma_small_mod(c as nat, n as nat);
        } else {
            let pp = (c + last - 1) % n;
            assert(bs.drop_last()[last - 1] == bs[last - 1]);
            assert(bs.drop_last()[last] == bs[last]);
            assert(rs.drop_last()[last - 1] == rs[last - 1]);
            assert(items.drop_last()[last - 1] == items[last - 1]);
            assert(rs[last - 1] matches Ok(AsyncSink::Ready));
            assert(bs[last - 1].send_step(items[last - 1], bs[last], rs[last - 1]));
            assert(bs[last - 1].cursor() == pp);
            vstd::arithmetic::div_mod::lemma_mod_bound(c + last - 1, n);
            assert(bs[last - 1].sinks().len() == n) by {
                if last >= 2 {
                    assert(rs.drop_last()[last - 2] == rs[last - 2]);
                    assert(rs[last - 2] matches Ok(AsyncSink::Ready));
                    assert(bs.drop_last()[last - 1] == bs[last - 1]);
                }
            }
            lemma_ready_step(bs[last - 1], items[last - 1], bs[last], rs[last - 1]);
            lemma_add_mod_noop(c + last - 1, 1, n);
            if n == 1 {
                assert(p == 0);
            } else {
                lemma_small_mod(1, n as nat);
                if pp + 1 < n {
                    lemma_small_mod((pp + 1) as nat, n as nat);
                } else {
                    lemma_mod_self_0(n);
                }
            }
            assert(bs[last].cursor() == p);
        }
        assert(0 <= p < n) by {
            vstd::arithmetic::div_mod::lemma_mod_bound(c + last, n);
        }
        assert(bs[last].sinks().len() == n) by {
            if last > 0 {
                assert(bs.drop_last()[last] == bs[last]);
            }
        }
        assert(bs[last].send_step(items[last], bs[last + 1], rs[last]));
        lemma_ready_step(bs[last], items[last], bs[last + 1], rs[last]);
        assert forall|m: int| 0 <= m < len implies {
            let p = (c + m) % n;
            &&& #[trigger] rs[m] matches Ok(AsyncSink::Ready)
            &&& bs[m].cursor() == p
            &&& bs[m + 1].sinks().len() == n
            &&& bs[m].sinks()[p].send_step(items[m], bs[m + 1].sinks()[p], rs[m])
            &&& forall|q: int| 0 <= q < n && q != p ==> #[trigger] bs[m + 1].sinks()[q] == bs[m].sinks()[q]
        } by {
            if m < last {
                assert(bs.drop_last()[m] == bs[m]);
                assert(bs.drop_last()[m + 1] == bs[m + 1]);
                assert(rs.drop_last()[m] == rs[m]);
                assert(items.drop_last()[m] == items[m]);
            }
        }
    }
    assert forall|m1: int, m2: int|
        #![trigger bs[m1], bs[m2]]
        0 <= m1 < m2 < len && m2 - m1 < n implies bs[m1].cursor() != bs[m2].cursor() by {
        assert(rs[m1] matches Ok(AsyncSink::Ready));
        assert(rs[m2] matches Ok(AsyncSink::Ready));
        lemma_mod_gap(c + m1, m2 - m1, n);
    }
}

/// Two numbers less than `n` apart, and not equal, leave different remainders
/// modulo `n`.
proof fn lemma_mod_gap(x: int, d: int, n: int)
    requires
        0 <= x,
        0 < d < n,
    ensures
        x % n != (x + d) % n,
{
    vstd::arithmetic::div_mod::lemma_fundamental_div_mod(x, n);
    vstd::arithmetic::div_mod::lemma_fundamental_div_mod(x + d, n);
    vstd::arithmetic::div_mod::lemma_mod_bound(x, n);
    vstd::arithmetic::div_mod::lemma_mod_bound(x + d, n);
    if x % n == (x + d) % n {
        let q1 = x / n;
        let q2 = (x + d) / n;
        assert(d == (q2 - q1) * n) by (nonlinear_arith)
            requires
                x == n * q1 + x % n,
                x + d == n * q2 + (x + d) % n,
                x % n == (x + d) % n,
        ;
        assert(false) by (nonlinear_arith)
            requires
                d == (q2 - q1) * n,
                0 < d < n,
        ;
    }
}

/// A flush reports everything flushed exactly when every sink of the pool
/// reported so in that pass; it reports not ready exactly when none failed
/// and one reported not ready; it fails exactly when the last sink it reached
/// failed, with that error, and then the sinks after it were not reached.
pub proof fn lemma_flush_aggregate<T, Item, Error>(
    b: Balancer<T, Item, Error>,
    next: Balancer<T, Item, Error>,
    r: Result<Async<()>, Error>,
) where T: Sink<SinkItem = Item, SinkError = Error>
    requires
        b.inv(),
        b.flush_step(next, r),
    ensures
        next.cursor() == b.cursor(),
        exists|a: Seq<Result<Async<()>, Error>>|
            #![trigger b.flushed(next, r, a)]
            {
                let n = b.sinks().len() as int;
                &&& a.len() <= n
                &&& forall|p: int|
                    0 <= p < n ==> if turn(p, b.cursor(), n) < a.len() {
                        b.sinks()[p].flush_step(
                            #[trigger] next.sinks()[p],
                            a[turn(p, b.cursor(), n)],
                        )
                    } else {
                        next.sinks()[p] == b.sinks()[p]
                    }
                &&& (r matches Ok(Async::Ready(_))) <==> (a.len() == n && forall|t: int|
                    0 <= t < n ==> #[trigger] a[t] matches Ok(Async::Ready(_)))
                &&& (r matches Ok(Async::NotReady)) <==> {
                    &&& a.len() == n
                    &&& forall|t: int| 0 <= t < n ==> #[trigger] a[t] is Ok
                    &&& exists|t: int| 0 <= t < n && #[trigger] a[t] matches Ok(Async::NotReady)
                }
                &&& (r is Err) <==> (a.len() >= 1 && a.last() is Err)
                &&& r is Err ==> r == a.last()
            },
{
    let a = choose|a: Seq<Result<Async<()>, Error>>| b.flushed(next, r, a);
    let n = b.sinks().len() as int;
    if r matches Ok(Async::NotReady) {
        let t = choose|t: int| 0 <= t < n && #[trigger] a[t] matches Ok(Async::NotReady);
        assert(!(a[t] matches Ok(Async::Ready(_))));
    }
    if a.len() >= 1 && a.last() is Err && !(r is Err) {
        assert(a[a.len() - 1] is Ok);
    }
}

} // verus!
