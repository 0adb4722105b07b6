use vstd::prelude::*;

verus! {

/// What a sink answers when it is offered an item.
#[derive(Debug, PartialEq, Eq)]
pub enum AsyncSink<T> {
    /// The item was taken.
    Ready,
    /// The sink cannot take the item now; it is handed back.
    NotReady(T),
}

/// What a sink answers when it is asked to complete its pending work.
#[derive(Debug, PartialEq, Eq)]
pub enum Async<T> {
    Ready(T),
    NotReady,
}

/// A consumer that accepts items one at a time, may answer "not ready yet",
/// and can be asked to flush what it holds.
///
/// A sink is described by two step relations: `send_step` tells which answers
/// and which next states an offer may lead to, `flush_step` the same for a
/// flush. An implementation may narrow them; the methods keep to them. By
/// default every answer and every next state is possible.
pub trait Sink: Sized {
    type SinkItem;
    type SinkError;

    /// The sink is in a consistent state.
    open spec fn inv(&self) -> bool {
        true
    }

    /// Offering `item` to `self` may answer `r` and leave the sink as `next`.
    open spec fn send_step(
        &self,
        item: Self::SinkItem,
        next: Self,
        r: Result<AsyncSink<Self::SinkItem>, Self::SinkError>,
    ) -> bool {
        true
    }

    /// Flushing `self` may answer `r` and leave the sink as `next`.
    open spec fn flush_step(&self, next: Self, r: Result<Async<()>, Self::SinkError>) -> bool {
        true
    }

    /// Offers one item. An item that is not taken comes back unchanged.
    fn start_send(&mut self, item: Self::SinkItem) -> (r: Result<
        AsyncSink<Self::SinkItem>,
        Self::SinkError,
    >)
        requires
            old(self).inv(),
        ensures
            final(self).inv(),
            old(self).send_step(item, *final(self), r),
            r matches Ok(AsyncSink::NotReady(x)) ==> x == item,
    ;

    /// Flushes pending work and tells whether all of it is done.
    fn poll_complete(&mut self) -> (r: Result<Async<()>, Self::SinkError>)
        requires
            old(self).inv(),
        ensures
            final(self).inv(),
            old(self).flush_step(*final(self), r),
    ;
}

} // verus!
