//! A bounded multi-producer/multi-consumer FIFO queue built on a ring buffer
//! coordinated by per-slot sequence numbers, together with a batch ("vector")
//! variant that claims four contiguous slots at a time for 64-bit payloads.
//!
//! Every operation is specified against an abstract model: a queue is a
//! sequence of pending items, `send` appends to the back, `recv` removes from
//! the front, and the effective capacity is the smallest power of two that is
//! at least the requested capacity.

mod arith;
pub mod laws;
mod queue;
pub mod simd_queue;

pub use queue::{lemma_len_bounded, Consumer, MpmcQueue, Producer};
pub use simd_queue::{Simd64Bit, SimdConsumer, SimdMpmcQueue, SimdProducer};
