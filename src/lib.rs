//! A sink that spreads the items it is given over a fixed pool of sinks,
//! in round-robin order, skipping the ones that are not ready.

pub mod balancer;
mod lemmas;
mod sink;

pub use crate::balancer::Balancer;
pub use crate::sink::{Async, AsyncSink, Sink};
pub use crate::lemmas::{
    always_ready, lemma_flush_aggregate, lemma_full_sweep, lemma_one_recipient, lemma_round_robin,
};
