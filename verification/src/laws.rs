//! FIFO laws of the queue model.
//!
//! `MpmcQueue::send` and `MpmcQueue::recv` are specified against an abstract
//! state: the sequence of pending items, which `send` pushes to the back of
//! (when the ring is not full) and `recv` pops from the front of. This module
//! states what those contracts add up to over a whole run: a trace of
//! operations driven through the model delivers items in send order, without
//! loss and without duplication.

use vstd::prelude::*;

verus! {

use vstd::seq_lib::lemma_multiset_commutative;

/// One queue operation of a driving trace.
pub enum QueueOp<T> {
    /// Try to enqueue the item.
    Send(T),
    /// Try to dequeue the oldest item.
    Recv,
}

/// The abstract state a trace drives: the pending items, the successfully
/// sent items and the received items, each in order.
pub struct RunState<T> {
    pub pending: Seq<T>,
    pub sent: Seq<T>,
    pub received: Seq<T>,
}

/// One step of the abstract queue, exactly as the contracts of `send` and
/// `recv` describe it: a send on a ring with room appends the item to the
/// pending sequence and counts as sent; a send on a full ring changes
/// nothing; a receive on a non-empty ring removes the oldest pending item
/// and counts it as received; a receive on an empty ring changes nothing.
pub open spec fn step<T>(cap: nat, state: RunState<T>, op: QueueOp<T>) -> RunState<T> {
    match op {
        QueueOp::Send(x) => if state.pending.len() < cap {
            RunState {
                pending: state.pending.push(x),
                sent: state.sent.push(x),
                received: state.received,
            }
        } else {
            state
        },
        QueueOp::Recv => if state.pending.len() > 0 {
            RunState {
                pending: state.pending.drop_first(),
                sent: state.sent,
                received: state.received.push(state.pending.first()),
            }
        } else {
            state
        },
    }
}

/// The state after a whole trace of operations on an initially empty queue
/// of capacity `cap`.
pub open spec fn run<T>(cap: nat, ops: Seq<QueueOp<T>>) -> RunState<T>
    decreases ops.len(),
{
    if ops.len() == 0 {
        RunState { pending: Seq::empty(), sent: Seq::empty(), received: Seq::empty() }
    } else {
        step(cap, run(cap, ops.drop_last()), ops.last())
    }
}

/// FIFO delivery: after any trace of interleaved sends and receives, the
/// received items are exactly the oldest successfully sent items, in send
/// order, and the pending items are exactly the remaining suffix of the sent
/// items.
pub proof fn lemma_fifo_order<T>(cap: nat, ops: Seq<QueueOp<T>>)
    ensures
        ({
            let s = run(cap, ops);
            &&& s.received + s.pending == s.sent
            &&& s.received == s.sent.take(s.received.len() as int)
            &&& s.pending == s.sent.skip(s.received.len() as int)
        }),
    decreases ops.len(),
{
    let s = run(cap, ops);
    if ops.len() == 0 {
        assert(s.received + s.pending =~= s.sent);
    } else {
        lemma_fifo_order(cap, ops.drop_last());
        let p = run(cap, ops.drop_last());
        match ops.last() {
            QueueOp::Send(x) => {
                if p.pending.len() < cap {
                    assert(p.received + p.pending.push(x) =~= (p.received + p.pending).push(x));
                }
            },
            QueueOp::Recv => {
                if p.pending.len() > 0 {
                    assert(p.received.push(p.pending.first()) + p.pending.drop_first() =~= p.received
                        + p.pending);
                }
            },
        }
    }
    assert(s.received =~= s.sent.take(s.received.len() as int));
    assert(s.pending =~= s.sent.skip(s.received.len() as int));
}

/// Conservation: after any trace, the multiset of successfully sent items is
/// exactly the multiset of received items plus the multiset of still-pending
/// items — nothing is lost and nothing is duplicated. In particular, once
/// every pending item has been drained, the received and the sent multisets
/// coincide.
pub proof fn lemma_no_loss_no_duplication<T>(cap: nat, ops: Seq<QueueOp<T>>)
    ensures
        ({
            let s = run(cap, ops);
            s.sent.to_multiset() == s.received.to_multiset().add(s.pending.to_multiset())
        }),
{
    let s = run(cap, ops);
    lemma_fifo_order(cap, ops);
    lemma_multiset_commutative(s.received, s.pending);
}

/// Immediate round trip: a successful send of `x` followed directly by a
/// receive hands `x` back, provided nothing else was pending when `x` was
/// sent; with older items pending, the receive returns the oldest of those
/// instead.
pub proof fn lemma_send_recv_identity<T>(pending: Seq<T>, x: T)
    requires
        pending.len() == 0,
    ensures
        pending.push(x).first() == x,
{
}

} // verus!
