//! The scalar bounded MPMC ring queue.
//!
//! A queue of effective capacity `C` (a power of two) is a ring of `C` slots.
//! Each slot carries a sequence number that encodes its state: for the slot at
//! ring position `p`, tickets `t` with `t % C == p` pass through it, and the
//! stored sequence is `t` while the slot is empty and awaits the producer
//! holding ticket `t`, and `t + 1` once that producer has filled it and it
//! awaits the consumer holding ticket `t`. Tickets grow without bound in the
//! model and wrap modulo the word size in the stored fields.
//!
//! Abstractly the queue is the sequence of pending items: `send` pushes to the
//! back when fewer than `C` items are pending and otherwise rejects the item,
//! and `recv` pops from the front when an item is pending.

use vstd::prelude::*;

verus! {

use vstd::arithmetic::power::pow;
use vstd::arithmetic::power2::{is_pow2, is_pow2_equiv, is_pow2_exists, lemma_pow2, pow2};
use vstd::arithmetic::div_mod::{lemma_mod_add_multiples_vanish, lemma_mod_bound};
use vstd::bits::lemma_usize_low_bits_mask_is_mod;
use vstd::pervasive::VecAdditionalExecFns;

use crate::arith::{
    lemma_mod_congruent_bounded, lemma_mod_mod_divides, lemma_pow2_divides,
    lemma_ticket_at_inverse, lemma_ticket_pos, lemma_word_size_is_pow2, lemma_wrap_add,
    lemma_wrap_sub, lemma_wrap_usize, lemma_wrap_wrap_add, next_pow2_at_least, word_size, wrap,
};

/// One ring cell: a sequence number encoding the slot state, and storage for
/// at most one pending item.
pub(crate) struct Slot<T> {
    pub(crate) sequence: usize,
    pub(crate) data: Option<T>,
}

impl<T> Slot<T> {
    /// A fresh, empty slot awaiting the producer holding ticket `seq`.
    pub(crate) fn new(seq: usize) -> (s: Self)
        ensures
            s.sequence == seq,
            s.data is None,
    {
        Slot { sequence: seq, data: None }
    }
}

/// A bounded multi-producer/multi-consumer FIFO queue on a ring buffer with
/// per-slot sequence numbers.
///
/// The requested capacity is rounded up to the next power of two; a bitmask
/// `capacity - 1` reduces tickets to ring positions. `head` is the next
/// producer ticket and `tail` the next consumer ticket, both stored modulo
/// the word size.
pub struct MpmcQueue<T> {
    pub(crate) slots: Vec<Slot<T>>,
    pub(crate) capacity: usize,
    pub(crate) mask: usize,
    pub(crate) head: usize,
    pub(crate) tail: usize,
    /// Exact number of successful sends: the next producer ticket.
    pub(crate) sent: Ghost<nat>,
    /// Exact number of successful receives: the next consumer ticket.
    pub(crate) taken: Ghost<nat>,
    /// The exponent of the capacity: `capacity == pow2(cap_exp)`.
    pub(crate) cap_exp: Ghost<nat>,
}

impl<T> View for MpmcQueue<T> {
    type V = Seq<T>;

    /// The pending items in FIFO order: the item for ticket `taken + i` sits
    /// in the slot at ring position `(taken + i) % capacity`.
    closed spec fn view(&self) -> Seq<T> {
        Seq::new(
            (self.sent@ - self.taken@) as nat,
            |i: int| self.slots@[(self.taken@ + i) % self.capacity as int].data->Some_0,
        )
    }
}

impl<T> MpmcQueue<T> {
    /// The effective (rounded) capacity.
    pub closed spec fn spec_capacity(&self) -> usize {
        self.capacity
    }

    /// The ticket currently associated with ring position `p`: the unique
    /// ticket congruent to `p` in the window of `capacity` tickets starting
    /// at the next consumer ticket.
    pub(crate) open spec fn ticket_at(&self, p: int) -> int {
        self.taken@ + ((p - self.taken@) % self.capacity as int)
    }

    /// The state the slot at ring position `p` must be in: full slots hold
    /// sequence `ticket + 1` and an item, empty slots hold `ticket` and no
    /// item, with the stored sequence wrapped to the word size.
    pub(crate) open spec fn slot_ok(&self, p: int) -> bool {
        let t = self.ticket_at(p);
        if t < self.sent@ {
            &&& self.slots@[p].sequence as int == wrap(t + 1)
            &&& self.slots@[p].data is Some
        } else {
            &&& self.slots@[p].sequence as int == wrap(t)
            &&& self.slots@[p].data is None
        }
    }

    /// Well-formedness: the ring geometry, the index encoding, and the
    /// per-slot sequence discipline. Every public operation preserves it.
    pub closed spec fn inv(&self) -> bool {
        let c = self.capacity as int;
        &&& self.slots@.len() == c
        &&& c == pow2(self.cap_exp@)
        &&& self.cap_exp@ < usize::BITS
        &&& self.mask as int == c - 1
        &&& self.taken@ <= self.sent@ <= self.taken@ + c
        &&& self.head as int == wrap(self.sent@ as int)
        &&& self.tail as int == wrap(self.taken@ as int)
        &&& forall|p: int| 0 <= p < c ==> #[trigger] self.slot_ok(p)
    }

    /// The word size is a multiple of the capacity, so reducing a stored
    /// (wrapped) ticket by the capacity gives the same ring position as
    /// reducing the exact ticket.
    pub(crate) proof fn lemma_wrapped_position(&self, t: int)
        requires
            self.inv(),
            t >= 0,
        ensures
            wrap(t) % self.capacity as int == t % self.capacity as int,
    {
        lemma_word_size_is_pow2();
        lemma_pow2_divides(self.cap_exp@, usize::BITS as nat);
        lemma_mod_mod_divides(t, self.capacity as int, word_size());
    }

    /// The slot holding the `i`-th pending item shows the full state for its
    /// ticket.
    pub(crate) proof fn lemma_pending_slot(&self, i: int)
        requires
            self.inv(),
            0 <= i < self@.len(),
        ensures
            ({
                let c = self.capacity as int;
                let t = self.taken@ + i;
                &&& self.slots@[t % c].sequence as int == wrap(t + 1)
                &&& self.slots@[t % c].data is Some
                &&& self.slots@[t % c].data->Some_0 == self@[i]
            }),
    {
        let tk = self.taken@ as int;
        let c = self.capacity as int;
        lemma_mod_bound(tk + i, c);
        lemma_ticket_at_inverse(tk, tk + i, c);
        assert(self.slot_ok((tk + i) % c));
    }

    /// The slot for a ticket no producer has claimed yet shows the empty
    /// state for that ticket.
    pub(crate) proof fn lemma_open_slot(&self, t: int)
        requires
            self.inv(),
            self.sent@ <= t < self.taken@ + self.capacity,
        ensures
            self.slots@[t % self.capacity as int].sequence as int == wrap(t),
            self.slots@[t % self.capacity as int].data is None,
    {
        let tk = self.taken@ as int;
        let c = self.capacity as int;
        lemma_mod_bound(t, c);
        lemma_ticket_at_inverse(tk, t, c);
        assert(self.slot_ok(t % c));
    }

    /// Creates a queue with the given capacity, rounded up to the next power
    /// of two.
    ///
    /// Zero capacities are rejected by the original construction (it aborts),
    /// so they are excluded here; the upper bound keeps the rounded capacity
    /// representable.
    pub fn new(capacity: usize) -> (q: Self)
        requires
            1 <= capacity <= usize::MAX / 2 + 1,
        ensures
            q.inv(),
            q@ == Seq::<T>::empty(),
            capacity <= q.capacity(),
            q.capacity() < 2 * capacity,
            is_pow2(q.capacity() as int),
    {
        let (cap, cap_exp) = next_pow2_at_least(capacity);
        let mask = cap - 1;

        let mut slots: Vec<Slot<T>> = Vec::new();
        let mut i: usize = 0;
        while i < cap
            invariant
                i <= cap,
                slots@.len() == i,
                forall|j: int|
                    0 <= j < i ==> (#[trigger] slots@[j]).sequence == j && slots@[j].data is None,
            decreases cap - i,
        {
            slots.push(Slot::new(i));
            i = i + 1;
        }

        let q = MpmcQueue {
            slots,
            capacity: cap,
            mask,
            head: 0,
            tail: 0,
            sent: Ghost(0),
            taken: Ghost(0),
            cap_exp,
        };
        proof {
            let c = cap as int;
            lemma_word_size_is_pow2();
            assert forall|p: int| 0 <= p < c implies #[trigger] q.slot_ok(p) by {
                lemma_ticket_pos(0, p, c);
                vstd::arithmetic::div_mod::lemma_small_mod(p as nat, c as nat);
                vstd::arithmetic::div_mod::lemma_small_mod(p as nat, word_size() as nat);
            }
            vstd::arithmetic::div_mod::lemma_small_mod(0, word_size() as nat);
            assert(q@ =~= Seq::<T>::empty());
            assert(is_pow2_exists(cap as int)) by {
                lemma_pow2(cap_exp@);
                assert(pow(2, cap_exp@) == cap as int);
            }
            is_pow2_equiv(cap as int);
        }
        q
    }

    /// Reduces a stored ticket to its ring position with the bitmask.
    pub(crate) fn slot_index(&self, t: usize) -> (idx: usize)
        requires
            self.inv(),
        ensures
            idx as int == t as int % self.capacity as int,
            idx < self.capacity,
    {
        proof {
            lemma_usize_low_bits_mask_is_mod(t, self.cap_exp@);
            vstd::arithmetic::div_mod::lemma_mod_bound(t as int, self.capacity as int);
        }
        t & self.mask
    }

    /// Attempts to enqueue one item.
    ///
    /// Follows the producer protocol: read the sequence of the slot for the
    /// head ticket, check that the slot is empty for exactly this ticket and
    /// that the ring is not full, then claim the ticket, store the item and
    /// release the slot to consumers by advancing its sequence. Succeeds
    /// exactly when fewer items are pending than the capacity; on a full ring
    /// the item is handed back unchanged. The distance check disambiguates
    /// the capacity-one ring, where the empty and the full state of the
    /// single slot share one sequence value.
    pub fn send(&mut self, item: T) -> (r: Result<(), T>)
        requires
            old(self).inv(),
        ensures
            final(self).inv(),
            final(self).capacity() == old(self).capacity(),
            old(self)@.len() < old(self).capacity() ==> r is Ok && final(self)@ == old(
                self,
            )@.push(item),
            old(self)@.len() == old(self).capacity() ==> r == Err::<(), T>(item) && final(self)@
                == old(self)@,
    {
        let ghost h = self.sent@ as int;
        let ghost tk = self.taken@ as int;
        let ghost c = self.capacity as int;

        let head = self.head;
        let idx = self.slot_index(head);
        let seq = self.slots[idx].sequence;
        let used = head.wrapping_sub(self.tail);

        proof {
            self.lemma_wrapped_position(h);
            lemma_wrap_sub(h, tk);
        }

        if seq == head && used < self.capacity {
            proof {
                lemma_ticket_at_inverse(tk, h, c);
                assert(self.slot_ok(idx as int));
            }
            let next = head.wrapping_add(1);
            self.head = next;
            self.slots.set(idx, Slot { sequence: next, data: Some(item) });
            self.sent = Ghost((h + 1) as nat);
            proof {
                lemma_wrap_add(h, 1);
                assert forall|p: int| 0 <= p < c implies #[trigger] self.slot_ok(p) by {
                    lemma_ticket_pos(tk, p, c);
                    if p == idx as int {
                        lemma_ticket_at_inverse(tk, h, c);
                    } else {
                        assert(old(self).slot_ok(p));
                    }
                }
                assert forall|i: int| 0 <= i < old(self)@.len() implies self@[i] == old(
                    self,
                )@[i] by {
                    lemma_ticket_at_inverse(tk, tk + i, c);
                    lemma_ticket_at_inverse(tk, h, c);
                }
                assert(self@ =~= old(self)@.push(item));
            }
            Ok(())
        } else {
            proof {
                if h - tk < c {
                    lemma_ticket_at_inverse(tk, h, c);
                    assert(self.slot_ok(idx as int));
                    assert(false);
                }
            }
            Err(item)
        }
    }

    /// Attempts to dequeue one item.
    ///
    /// Follows the consumer protocol: read the sequence of the slot for the
    /// tail ticket; if it shows the full state for exactly this ticket, claim
    /// the ticket, move the item out and re-open the slot for the producer of
    /// the next round by advancing its sequence a full capacity ahead.
    /// Returns the oldest pending item, or `None` on an empty queue.
    pub fn recv(&mut self) -> (r: Option<T>)
        requires
            old(self).inv(),
        ensures
            final(self).inv(),
            final(self).capacity() == old(self).capacity(),
            old(self)@.len() == 0 ==> r is None && final(self)@ == old(self)@,
            old(self)@.len() > 0 ==> r == Some(old(self)@.first()) && final(self)@ == old(
                self,
            )@.drop_first(),
    {
        let ghost h = self.sent@ as int;
        let ghost tk = self.taken@ as int;
        let ghost c = self.capacity as int;

        let tail = self.tail;
        let idx = self.slot_index(tail);
        let seq = self.slots[idx].sequence;
        let expected = tail.wrapping_add(1);

        proof {
            self.lemma_wrapped_position(tk);
            lemma_wrap_add(tk, 1);
            lemma_ticket_at_inverse(tk, tk, c);
            assert(self.slot_ok(idx as int));
        }

        if seq == expected {
            proof {
                if h == tk {
                    lemma_mod_congruent_bounded(tk + 1, tk, word_size());
                }
            }
            let next_seq = tail.wrapping_add(self.capacity);
            let mut claimed = Slot { sequence: next_seq, data: None };
            self.slots.set_and_swap(idx, &mut claimed);
            let item = claimed.data.unwrap();
            self.tail = tail.wrapping_add(1);
            self.taken = Ghost((tk + 1) as nat);
            proof {
                lemma_wrap_add(tk, c);
                assert forall|p: int| 0 <= p < c implies #[trigger] self.slot_ok(p) by {
                    lemma_ticket_pos(tk, p, c);
                    lemma_ticket_pos(tk + 1, p, c);
                    if p == idx as int {
                        vstd::arithmetic::div_mod::lemma_mod_add_multiples_vanish(tk, c);
                        lemma_ticket_at_inverse(tk + 1, tk + c, c);
                    } else {
                        assert(old(self).slot_ok(p));
                        lemma_ticket_at_inverse(tk + 1, old(self).ticket_at(p), c);
                    }
                }
                assert forall|i: int| 0 <= i < self@.len() implies self@[i] == old(self)@[i
                    + 1] by {
                    lemma_ticket_at_inverse(tk, tk + 1 + i, c);
                    lemma_ticket_at_inverse(tk, tk, c);
                }
                assert(self@ =~= old(self)@.drop_first());
            }
            Some(item)
        } else {
            proof {
                if h > tk {
                    assert(false);
                }
            }
            None
        }
    }

    /// Returns the capacity of the queue.
    #[verifier::when_used_as_spec(spec_capacity)]
    pub fn capacity(&self) -> (c: usize)
        ensures
            c == self.spec_capacity(),
    {
        self.capacity
    }

    /// Returns the number of pending items (a snapshot).
    pub fn len(&self) -> (n: usize)
        requires
            self.inv(),
        ensures
            n == self@.len(),
    {
        proof {
            lemma_wrap_sub(self.sent@ as int, self.taken@ as int);
        }
        self.head.wrapping_sub(self.tail)
    }

    /// Returns true if no item is pending (a snapshot).
    pub fn is_empty(&self) -> (e: bool)
        requires
            self.inv(),
        ensures
            e == (self@.len() == 0),
    {
        proof {
            if self.head == self.tail {
                lemma_mod_congruent_bounded(self.sent@ as int, self.taken@ as int, word_size());
            }
        }
        self.head == self.tail
    }

    /// Returns true if the queue holds as many items as its capacity (a
    /// snapshot).
    pub fn is_full(&self) -> (f: bool)
        requires
            self.inv(),
        ensures
            f == (self@.len() == self.capacity()),
    {
        proof {
            lemma_wrap_sub(self.sent@ as int, self.taken@ as int);
        }
        self.head.wrapping_sub(self.tail) >= self.capacity
    }
}

/// One lane of a four-lane vector of sequence numbers.
pub(crate) open spec fn lane(s: (usize, usize, usize, usize), i: int) -> usize {
    if i == 0 {
        s.0
    } else if i == 1 {
        s.1
    } else if i == 2 {
        s.2
    } else {
        s.3
    }
}

/// The vector of the four consecutive expected sequence numbers starting at
/// `start`, as the batch paths compare them lanewise.
pub(crate) fn expected_sequences(start: usize) -> (e: (usize, usize, usize, usize))
    ensures
        forall|i: int| 0 <= i < 4 ==> #[trigger] lane(e, i) as int == wrap(start as int + i),
{
    proof {
        lemma_wrap_usize(start);
        lemma_wrap_add(start as int, 1);
        lemma_wrap_add(start as int, 2);
        lemma_wrap_add(start as int, 3);
    }
    (start, start.wrapping_add(1), start.wrapping_add(2), start.wrapping_add(3))
}

impl<T> MpmcQueue<T> {
    /// Loads the sequence numbers of the four consecutive slots starting at
    /// the ring position of the stored ticket `start`, one vector lane each.
    pub(crate) fn load_sequences(&self, start: usize) -> (s: (usize, usize, usize, usize))
        requires
            self.inv(),
        ensures
            forall|i: int|
                0 <= i < 4 ==> #[trigger] lane(s, i) == self.slots@[wrap(start as int + i)
                    % self.spec_capacity() as int].sequence,
    {
        proof {
            lemma_wrap_usize(start);
            lemma_wrap_add(start as int, 1);
            lemma_wrap_add(start as int, 2);
            lemma_wrap_add(start as int, 3);
        }
        let i0 = self.slot_index(start);
        let i1 = self.slot_index(start.wrapping_add(1));
        let i2 = self.slot_index(start.wrapping_add(2));
        let i3 = self.slot_index(start.wrapping_add(3));
        (
            self.slots[i0].sequence,
            self.slots[i1].sequence,
            self.slots[i2].sequence,
            self.slots[i3].sequence,
        )
    }
}

impl<T: Copy> MpmcQueue<T> {
    /// The producer batch path: load the sequences of the four slots ahead of
    /// the head, compare them lanewise against the next four producer
    /// tickets, and on a full match claim the quartet and fill its slots.
    ///
    /// The lanewise match succeeds exactly when the ring has room for four
    /// more items; the payload writes and sequence releases then go slot by
    /// slot, exactly as the scalar protocol performs them.
    pub(crate) fn send_four(&mut self, items: (T, T, T, T)) -> (ok: bool)
        requires
            old(self).inv(),
            old(self).capacity() >= 4,
        ensures
            final(self).inv(),
            final(self).capacity() == old(self).capacity(),
            ok ==> old(self)@.len() + 4 <= old(self).capacity() && final(self)@ == old(self)@
                + seq![items.0, items.1, items.2, items.3],
            !ok ==> old(self)@.len() + 4 > old(self).capacity() && final(self)@ == old(self)@,
    {
        let ghost h = self.sent@ as int;
        let ghost tk = self.taken@ as int;
        let ghost c = self.capacity as int;

        let head = self.head;
        let seqs = self.load_sequences(head);
        let expect = expected_sequences(head);

        proof {
            assert forall|i: int| 0 <= i < 4 implies #[trigger] lane(seqs, i) == self.slots@[(h + i)
                % c].sequence && lane(expect, i) as int == wrap(h + i) by {
                lemma_wrap_wrap_add(h, i);
                self.lemma_wrapped_position(h + i);
            }
            if h - tk + 4 <= c {
                assert forall|i: int| 0 <= i < 4 implies #[trigger] lane(seqs, i) == lane(
                    expect,
                    i,
                ) by {
                    lemma_mod_bound(h + i, c);
                    lemma_ticket_at_inverse(tk, h + i, c);
                    assert(self.slot_ok((h + i) % c));
                }
            } else {
                let i0 = c - (h - tk);
                lemma_mod_add_multiples_vanish(tk, c);
                lemma_mod_bound(tk, c);
                lemma_ticket_at_inverse(tk, tk, c);
                assert(self.slot_ok(tk % c));
                if lane(seqs, i0) == lane(expect, i0) {
                    lemma_mod_congruent_bounded(tk + c, tk + 1, word_size());
                    assert(false);
                }
            }
        }

        if seqs.0 == expect.0 && seqs.1 == expect.1 && seqs.2 == expect.2 && seqs.3 == expect.3 {
            proof {
                if h - tk + 4 > c {
                    let i0 = c - (h - tk);
                    assert(lane(seqs, i0) != lane(expect, i0));
                }
            }
            let _ = self.send(items.0);
            let _ = self.send(items.1);
            let _ = self.send(items.2);
            let _ = self.send(items.3);
            proof {
                assert(self@ =~= old(self)@ + seq![items.0, items.1, items.2, items.3]);
            }
            true
        } else {
            proof {
                if h - tk + 4 <= c {
                    assert(lane(seqs, 0) == lane(expect, 0));
                    assert(lane(seqs, 1) == lane(expect, 1));
                    assert(lane(seqs, 2) == lane(expect, 2));
                    assert(lane(seqs, 3) == lane(expect, 3));
                    assert(false);
                }
            }
            false
        }
    }

    /// The consumer batch path: load the sequences of the four slots ahead of
    /// the tail, compare them lanewise against the full states of the next
    /// four consumer tickets, and on a full match claim the quartet and move
    /// its four items into `buffer` starting at position `at`.
    ///
    /// The lanewise match succeeds exactly when at least four items are
    /// pending.
    #[verifier::rlimit(50)]
    pub(crate) fn recv_four(&mut self, buffer: &mut Vec<T>, at: usize) -> (ok: bool)
        requires
            old(self).inv(),
            old(self).capacity() >= 4,
            at + 4 <= old(buffer)@.len(),
        ensures
            final(self).inv(),
            final(self).capacity() == old(self).capacity(),
            final(buffer)@.len() == old(buffer)@.len(),
            ok ==> old(self)@.len() >= 4 && final(self)@ == old(self)@.skip(4) && final(buffer)@
                == old(buffer)@.update(at as int, old(self)@[0]).update(
                at as int + 1,
                old(self)@[1],
            ).update(at as int + 2, old(self)@[2]).update(at as int + 3, old(self)@[3]),
            !ok ==> old(self)@.len() < 4 && final(self)@ == old(self)@ && final(buffer)@ == old(
                buffer,
            )@,
    {
        let ghost h = self.sent@ as int;
        let ghost tk = self.taken@ as int;
        let ghost c = self.capacity as int;

        let _buffer_len = buffer.len();
        let tail = self.tail;
        let seqs = self.load_sequences(tail);
        let expect = expected_sequences(tail.wrapping_add(1));

        proof {
            lemma_wrap_usize(tail);
            lemma_wrap_add(tk, 1);
            lemma_wrap_wrap_add(tk, 0);
            lemma_wrap_wrap_add(tk, 1);
            lemma_wrap_wrap_add(tk, 2);
            lemma_wrap_wrap_add(tk, 3);
            lemma_wrap_wrap_add(tk + 1, 0);
            lemma_wrap_wrap_add(tk + 1, 1);
            lemma_wrap_wrap_add(tk + 1, 2);
            lemma_wrap_wrap_add(tk + 1, 3);
            self.lemma_wrapped_position(tk);
            self.lemma_wrapped_position(tk + 1);
            self.lemma_wrapped_position(tk + 2);
            self.lemma_wrapped_position(tk + 3);
            assert(lane(seqs, 0) == self.slots@[tk % c].sequence);
            assert(lane(seqs, 1) == self.slots@[(tk + 1) % c].sequence);
            assert(lane(seqs, 2) == self.slots@[(tk + 2) % c].sequence);
            assert(lane(seqs, 3) == self.slots@[(tk + 3) % c].sequence);
            assert(lane(expect, 0) as int == wrap(tk + 1));
            assert(lane(expect, 1) as int == wrap(tk + 2));
            assert(lane(expect, 2) as int == wrap(tk + 3));
            assert(lane(expect, 3) as int == wrap(tk + 4));
            if h - tk >= 4 {
                self.lemma_pending_slot(0);
                self.lemma_pending_slot(1);
                self.lemma_pending_slot(2);
                self.lemma_pending_slot(3);
            } else {
                let i0 = h - tk;
                self.lemma_open_slot(h);
                if lane(seqs, i0) == lane(expect, i0) {
                    lemma_mod_congruent_bounded(tk + i0 + 1, tk + i0, word_size());
                    assert(false);
                }
            }
        }

        if seqs.0 == expect.0 && seqs.1 == expect.1 && seqs.2 == expect.2 && seqs.3 == expect.3 {
            proof {
                if h - tk < 4 {
                    let i0 = h - tk;
                    assert(lane(seqs, i0) != lane(expect, i0));
                }
            }
            let x0 = self.recv().unwrap();
            buffer.set(at, x0);
            let x1 = self.recv().unwrap();
            buffer.set(at + 1, x1);
            let x2 = self.recv().unwrap();
            buffer.set(at + 2, x2);
            let x3 = self.recv().unwrap();
            buffer.set(at + 3, x3);
            proof {
                assert(self@ =~= old(self)@.skip(4));
            }
            true
        } else {
            proof {
                if h - tk >= 4 {
                    assert(lane(seqs, 0) == lane(expect, 0));
                    assert(lane(seqs, 1) == lane(expect, 1));
                    assert(lane(seqs, 2) == lane(expect, 2));
                    assert(lane(seqs, 3) == lane(expect, 3));
                    assert(false);
                }
            }
            false
        }
    }
}

/// A producer view of a queue.
///
/// The original ring is shared between handles through reference counting and
/// interior mutability, which verified code replaces with explicit ownership:
/// a handle owns the ring and `into_queue` hands it back, so producing and
/// consuming phases exchange the queue by value.
pub struct Producer<T> {
    queue: MpmcQueue<T>,
}

impl<T> View for Producer<T> {
    type V = Seq<T>;

    closed spec fn view(&self) -> Seq<T> {
        self.queue@
    }
}

impl<T> Producer<T> {
    /// Well-formedness of the underlying ring.
    pub closed spec fn inv(&self) -> bool {
        self.queue.inv()
    }

    /// The capacity of the underlying ring.
    pub closed spec fn spec_capacity(&self) -> usize {
        self.queue.spec_capacity()
    }

    /// Wraps a queue for producing.
    pub fn new(queue: MpmcQueue<T>) -> (p: Self)
        requires
            queue.inv(),
        ensures
            p.inv(),
            p@ == queue@,
            p.capacity() == queue.capacity(),
    {
        Producer { queue }
    }

    /// Sends an item to the queue.
    pub fn send(&mut self, item: T) -> (r: Result<(), T>)
        requires
            old(self).inv(),
        ensures
            final(self).inv(),
            final(self).capacity() == old(self).capacity(),
            old(self)@.len() < old(self).capacity() ==> r is Ok && final(self)@ == old(
                self,
            )@.push(item),
            old(self)@.len() == old(self).capacity() ==> r == Err::<(), T>(item) && final(self)@
                == old(self)@,
    {
        self.queue.send(item)
    }

    /// Returns true if the queue is full.
    pub fn is_full(&self) -> (f: bool)
        requires
            self.inv(),
        ensures
            f == (self@.len() == self.capacity()),
    {
        self.queue.is_full()
    }

    /// Returns the capacity of the queue.
    #[verifier::when_used_as_spec(spec_capacity)]
    pub fn capacity(&self) -> (c: usize)
        ensures
            c == self.spec_capacity(),
    {
        self.queue.capacity()
    }

    /// Releases the underlying queue.
    pub fn into_queue(self) -> (q: MpmcQueue<T>)
        ensures
            q.inv() == self.inv(),
            q@ == self@,
            q.capacity() == self.capacity(),
    {
        self.queue
    }
}

/// A consumer view of a queue; see `Producer` for the ownership discipline.
pub struct Consumer<T> {
    queue: MpmcQueue<T>,
}

impl<T> View for Consumer<T> {
    type V = Seq<T>;

    closed spec fn view(&self) -> Seq<T> {
        self.queue@
    }
}

impl<T> Consumer<T> {
    /// Well-formedness of the underlying ring.
    pub closed spec fn inv(&self) -> bool {
        self.queue.inv()
    }

    /// The capacity of the underlying ring.
    pub closed spec fn spec_capacity(&self) -> usize {
        self.queue.spec_capacity()
    }

    /// Wraps a queue for consuming.
    pub fn new(queue: MpmcQueue<T>) -> (con: Self)
        requires
            queue.inv(),
        ensures
            con.inv(),
            con@ == queue@,
            con.spec_capacity() == queue.capacity(),
    {
        Consumer { queue }
    }

    /// Receives an item from the queue.
    pub fn recv(&mut self) -> (r: Option<T>)
        requires
            old(self).inv(),
        ensures
            final(self).inv(),
            final(self).spec_capacity() == old(self).spec_capacity(),
            old(self)@.len() == 0 ==> r is None && final(self)@ == old(self)@,
            old(self)@.len() > 0 ==> r == Some(old(self)@.first()) && final(self)@ == old(
                self,
            )@.drop_first(),
    {
        self.queue.recv()
    }

    /// Returns true if the queue is empty.
    pub fn is_empty(&self) -> (e: bool)
        requires
            self.inv(),
        ensures
            e == (self@.len() == 0),
    {
        self.queue.is_empty()
    }

    /// Returns the number of pending items.
    pub fn len(&self) -> (n: usize)
        requires
            self.inv(),
        ensures
            n == self@.len(),
    {
        self.queue.len()
    }

    /// Releases the underlying queue.
    pub fn into_queue(self) -> (q: MpmcQueue<T>)
        ensures
            q.inv() == self.inv(),
            q@ == self@,
            q.capacity() == self.spec_capacity(),
    {
        self.queue
    }
}

/// Every reachable queue state keeps its pending-item count between zero and
/// the capacity.
pub proof fn lemma_len_bounded<T>(q: &MpmcQueue<T>)
    requires
        q.inv(),
    ensures
        0 <= q@.len() <= q.capacity(),
{
}

} // verus!
