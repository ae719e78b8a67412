//! The vector MPMC ring for 64-bit payloads.
//!
//! This variant runs the same slot protocol as the scalar ring and adds a
//! batch path: for each group of four items it loads the sequence numbers of
//! four contiguous slots as one four-lane vector, compares them lanewise
//! against the expected tickets, and on a full match claims all four slots at
//! once, falling back to one scalar step otherwise. Payload writes and
//! sequence releases stay per slot, so batch and scalar callers interoperate.
//!
//! Element types are restricted to values with a lossless 64-bit pattern,
//! expressed by the [`Simd64Bit`] trait.

use vstd::prelude::*;

verus! {

use vstd::arithmetic::power2::is_pow2;
use vstd::math::min;

use crate::queue::{lemma_len_bounded, MpmcQueue};

/// A value type that four vector lanes can carry: it converts losslessly to
/// and from a 64-bit pattern.
pub trait Simd64Bit: Copy + Send + Sync + 'static {
    /// The 64-bit pattern that stands for this value.
    spec fn as_bits(self) -> u64;

    /// The value a 64-bit pattern stands for.
    spec fn from_bits(b: u64) -> Self;

    /// Converts the value to its 64-bit pattern.
    fn to_u64(self) -> (r: u64)
        ensures
            r == self.as_bits(),
    ;

    /// Recovers the value of a 64-bit pattern.
    fn from_u64(val: u64) -> (r: Self)
        ensures
            r == Self::from_bits(val),
    ;

    /// Decoding a value's own pattern yields the value back.
    proof fn lemma_bits_roundtrip(self)
        ensures
            Self::from_bits(self.as_bits()) == self,
    ;
}

impl Simd64Bit for u64 {
    open spec fn as_bits(self) -> u64 {
        self
    }

    open spec fn from_bits(b: u64) -> u64 {
        b
    }

    fn to_u64(self) -> u64 {
        self
    }

    fn from_u64(val: u64) -> u64 {
        val
    }

    proof fn lemma_bits_roundtrip(self) {
    }
}

impl Simd64Bit for i64 {
    open spec fn as_bits(self) -> u64 {
        self as u64
    }

    open spec fn from_bits(b: u64) -> i64 {
        b as i64
    }

    fn to_u64(self) -> u64 {
        #[verifier::truncate] (self as u64)
    }

    fn from_u64(val: u64) -> i64 {
        #[verifier::truncate] (val as i64)
    }

    proof fn lemma_bits_roundtrip(self) {
        assert((self as u64) as i64 == self) by (bit_vector);
    }
}

impl Simd64Bit for usize {
    open spec fn as_bits(self) -> u64 {
        self as u64
    }

    open spec fn from_bits(b: u64) -> usize {
        b as usize
    }

    fn to_u64(self) -> u64 {
        self as u64
    }

    fn from_u64(val: u64) -> usize {
        #[verifier::truncate] (val as usize)
    }

    proof fn lemma_bits_roundtrip(self) {
        assert((self as u64) as usize == self);
    }
}

impl Simd64Bit for isize {
    open spec fn as_bits(self) -> u64 {
        (self as i64) as u64
    }

    open spec fn from_bits(b: u64) -> isize {
        (b as i64) as isize
    }

    fn to_u64(self) -> u64 {
        #[verifier::truncate] ((self as i64) as u64)
    }

    fn from_u64(val: u64) -> isize {
        #[verifier::truncate] ((val as i64) as isize)
    }

    proof fn lemma_bits_roundtrip(self) {
        let y = self as i64;
        assert((y as u64) as i64 == y) by (bit_vector);
    }
}

/// Copies the suffix of a slice starting at `from` into a fresh vector: the
/// unsent remainder handed back by a failed batch send.
fn copy_suffix<T: Copy>(items: &[T], from: usize) -> (v: Vec<T>)
    requires
        from <= items@.len(),
    ensures
        v@ == items@.skip(from as int),
{
    let total = items.len();
    let mut v: Vec<T> = Vec::new();
    let mut j = from;
    while j < total
        invariant
            from <= j <= total,
            total == items@.len(),
            v@ == items@.subrange(from as int, j as int),
        decreases total - j,
    {
        v.push(items[j]);
        proof {
            assert(v@ =~= items@.subrange(from as int, j as int + 1));
        }
        j = j + 1;
    }
    proof {
        assert(v@ =~= items@.skip(from as int));
    }
    v
}

/// The vector MPMC ring: the scalar ring protocol plus the four-lane batch
/// claim paths. The effective capacity is the next power of two of the
/// requested capacity, raised to at least twice the vector width.
pub struct SimdMpmcQueue<T> {
    inner: MpmcQueue<T>,
}

impl<T> View for SimdMpmcQueue<T> {
    type V = Seq<T>;

    closed spec fn view(&self) -> Seq<T> {
        self.inner@
    }
}

impl<T> SimdMpmcQueue<T> {
    /// Well-formedness: the ring discipline, plus room for two full vector
    /// widths, which the batch claim analysis relies on.
    pub closed spec fn inv(&self) -> bool {
        &&& self.inner.inv()
        &&& self.inner.spec_capacity() >= 8
    }

    /// The effective (rounded) capacity.
    pub closed spec fn spec_capacity(&self) -> usize {
        self.inner.spec_capacity()
    }

    /// Returns the capacity of the queue.
    #[verifier::when_used_as_spec(spec_capacity)]
    pub fn capacity(&self) -> (c: usize)
        ensures
            c == self.spec_capacity(),
    {
        self.inner.capacity()
    }
}

impl<T: Simd64Bit> SimdMpmcQueue<T> {
    /// Creates a vector queue: the capacity is rounded up to a power of two
    /// and raised to at least eight (twice the vector width).
    pub fn new(capacity: usize) -> (q: Self)
        requires
            1 <= capacity <= usize::MAX / 2 + 1,
        ensures
            q.inv(),
            q@ == Seq::<T>::empty(),
            8 <= q.capacity(),
            capacity <= q.capacity(),
            is_pow2(q.capacity() as int),
            q.capacity() < 2 * (if capacity < 8 { 8int } else { capacity as int }),
    {
        let eff = if capacity < 8 { 8 } else { capacity };
        SimdMpmcQueue { inner: MpmcQueue::new(eff) }
    }

    /// Best-effort batch send: tries the four-lane claim for every aligned
    /// group of four remaining items and falls back to one scalar send when a
    /// quartet is not claimable.
    ///
    /// Sends the longest prefix of `items` that fits in the free space. When
    /// everything fits the result is the number sent; otherwise the unsent
    /// suffix is handed back.
    pub fn send(&mut self, items: &[T]) -> (r: Result<usize, Vec<T>>)
        requires
            old(self).inv(),
        ensures
            final(self).inv(),
            final(self).capacity() == old(self).capacity(),
            ({
                let free = old(self).capacity() - old(self)@.len();
                let n = min(items@.len() as int, free as int);
                &&& final(self)@ == old(self)@ + items@.take(n)
                &&& (items@.len() <= free <==> r is Ok)
                &&& (r matches Ok(k) ==> k as int == items@.len())
                &&& (r matches Err(rest) ==> rest@ == items@.skip(free as int))
            }),
    {
        let total = items.len();
        let mut idx: usize = 0;
        proof {
            assert(old(self)@ + items@.take(0) =~= old(self)@);
        }
        while idx < total
            invariant
                self.inv(),
                self.spec_capacity() == old(self).spec_capacity(),
                idx <= total,
                total == items@.len(),
                self@ == old(self)@ + items@.take(idx as int),
            decreases total - idx,
        {
            if total - idx >= 4 {
                let quad = (items[idx], items[idx + 1], items[idx + 2], items[idx + 3]);
                if self.inner.send_four(quad) {
                    proof {
                        assert(old(self)@ + items@.take(idx as int) + seq![
                            quad.0,
                            quad.1,
                            quad.2,
                            quad.3,
                        ] =~= old(self)@ + items@.take(idx as int + 4));
                    }
                    idx = idx + 4;
                } else {
                    proof {
                        lemma_len_bounded(&self.inner);
                    }
                    match self.inner.send(items[idx]) {
                        Ok(_) => {
                            proof {
                                assert((old(self)@ + items@.take(idx as int)).push(items@[idx as int])
                                    =~= old(self)@ + items@.take(idx as int + 1));
                            }
                            idx = idx + 1;
                        },
                        Err(_) => {
                            proof {
                                assert(old(self)@.len() + idx == old(self).capacity());
                            }
                            return Err(copy_suffix(items, idx));
                        },
                    }
                }
            } else {
                proof {
                    lemma_len_bounded(&self.inner);
                }
                match self.inner.send(items[idx]) {
                    Ok(_) => {
                        proof {
                            assert((old(self)@ + items@.take(idx as int)).push(items@[idx as int])
                                =~= old(self)@ + items@.take(idx as int + 1));
                        }
                        idx = idx + 1;
                    },
                    Err(_) => {
                        proof {
                            assert(old(self)@.len() + idx == old(self).capacity());
                        }
                        return Err(copy_suffix(items, idx));
                    },
                }
            }
        }
        proof {
            lemma_len_bounded(&self.inner);
            assert(items@.take(total as int) =~= items@);
        }
        Ok(total)
    }

    /// Best-effort batch receive into the prefix of `buffer`: tries the
    /// four-lane claim for every aligned group of four remaining positions
    /// and falls back to one scalar receive when a quartet is not claimable.
    ///
    /// Fills `buffer` front to back with the oldest pending items and returns
    /// how many were received; the rest of `buffer` keeps its old contents.
    pub fn recv(&mut self, buffer: &mut Vec<T>) -> (n: usize)
        requires
            old(self).inv(),
        ensures
            final(self).inv(),
            final(self).capacity() == old(self).capacity(),
            ({
                let n0 = min(old(buffer)@.len() as int, old(self)@.len() as int);
                &&& n == n0
                &&& final(self)@ == old(self)@.skip(n0)
                &&& final(buffer)@ == old(self)@.take(n0) + old(buffer)@.skip(n0)
            }),
    {
        let ghost q0 = old(self)@;
        let ghost b0 = old(buffer)@;
        let total = buffer.len();
        let mut idx: usize = 0;
        proof {
            assert(q0.take(0) + b0.skip(0) =~= b0);
            assert(q0.skip(0) =~= q0);
        }
        while idx < total
            invariant
                self.inv(),
                self.spec_capacity() == old(self).spec_capacity(),
                q0 == old(self)@,
                b0 == old(buffer)@,
                idx <= total,
                total == buffer@.len(),
                total == b0.len(),
                idx <= q0.len(),
                buffer@ == q0.take(idx as int) + b0.skip(idx as int),
                self@ == q0.skip(idx as int),
            decreases total - idx,
        {
            let ghost i = idx as int;
            if total - idx >= 4 {
                if self.inner.recv_four(buffer, idx) {
                    proof {
                        assert(q0.skip(i)[0] == q0[i]);
                        assert(q0.skip(i)[1] == q0[i + 1]);
                        assert(q0.skip(i)[2] == q0[i + 2]);
                        assert(q0.skip(i)[3] == q0[i + 3]);
                        assert(self@ =~= q0.skip(i + 4));
                        assert forall|p: int| 0 <= p < buffer@.len() implies buffer@[p] == (q0.take(
                            i + 4,
                        ) + b0.skip(i + 4))[p] by {
                            if p < i {
                                assert(buffer@[p] == q0[p]);
                            } else if p < i + 4 {
                                assert(buffer@[p] == q0[p]);
                            } else {
                                assert(buffer@[p] == b0[p]);
                            }
                        }
                        assert(buffer@ =~= q0.take(i + 4) + b0.skip(i + 4));
                    }
                    idx = idx + 4;
                } else {
                    match self.inner.recv() {
                        Some(x) => {
                            buffer.set(idx, x);
                            proof {
                                assert(x == q0.skip(i).first());
                                assert(q0.skip(i).first() == q0[i]);
                                assert(self@ =~= q0.skip(i + 1));
                                assert forall|p: int| 0 <= p < buffer@.len() implies buffer@[p] == (
                                q0.take(i + 1) + b0.skip(i + 1))[p] by {
                                    if p < i {
                                        assert(buffer@[p] == q0[p]);
                                    } else if p == i {
                                        assert(buffer@[p] == q0[p]);
                                    } else {
                                        assert(buffer@[p] == b0[p]);
                                    }
                                }
                                assert(buffer@ =~= q0.take(i + 1) + b0.skip(i + 1));
                            }
                            idx = idx + 1;
                        },
                        None => {
                            proof {
                                assert(q0.len() == i);
                            }
                            return idx;
                        },
                    }
                }
            } else {
                match self.inner.recv() {
                    Some(x) => {
                        buffer.set(idx, x);
                        proof {
                            assert(x == q0.skip(i).first());
                            assert(q0.skip(i).first() == q0[i]);
                            assert(self@ =~= q0.skip(i + 1));
                            assert forall|p: int| 0 <= p < buffer@.len() implies buffer@[p] == (
                            q0.take(i + 1) + b0.skip(i + 1))[p] by {
                                if p < i {
                                    assert(buffer@[p] == q0[p]);
                                } else if p == i {
                                    assert(buffer@[p] == q0[p]);
                                } else {
                                    assert(buffer@[p] == b0[p]);
                                }
                            }
                            assert(buffer@ =~= q0.take(i + 1) + b0.skip(i + 1));
                        }
                        idx = idx + 1;
                    },
                    None => {
                        proof {
                            assert(q0.len() == i);
                        }
                        return idx;
                    },
                }
            }
        }
        idx
    }

    /// Sends a single item through the scalar protocol.
    pub fn send_one(&mut self, item: T) -> (r: Result<(), T>)
        requires
            old(self).inv(),
        ensures
            final(self).inv(),
            final(self).capacity() == old(self).capacity(),
            old(self)@.len() < old(self).capacity() ==> r is Ok && final(self)@ == old(
                self,
            )@.push(item),
            old(self)@.len() == old(self).capacity() ==> r == Err::<(), T>(item) && final(self)@
                == old(self)@,
    {
        self.inner.send(item)
    }

    /// Receives a single item through the scalar protocol.
    pub fn recv_one(&mut self) -> (r: Option<T>)
        requires
            old(self).inv(),
        ensures
            final(self).inv(),
            final(self).capacity() == old(self).capacity(),
            old(self)@.len() == 0 ==> r is None && final(self)@ == old(self)@,
            old(self)@.len() > 0 ==> r == Some(old(self)@.first()) && final(self)@ == old(
                self,
            )@.drop_first(),
    {
        self.inner.recv()
    }

    /// Returns true if no item is pending (a snapshot).
    pub fn is_empty(&self) -> (e: bool)
        requires
            self.inv(),
        ensures
            e == (self@.len() == 0),
    {
        self.inner.is_empty()
    }

    /// Returns true if the queue holds as many items as its capacity (a
    /// snapshot).
    pub fn is_full(&self) -> (f: bool)
        requires
            self.inv(),
        ensures
            f == (self@.len() == self.capacity()),
    {
        self.inner.is_full()
    }

    /// Returns the number of pending items (a snapshot).
    pub fn len(&self) -> (n: usize)
        requires
            self.inv(),
        ensures
            n == self@.len(),
    {
        self.inner.len()
    }
}

/// A producer view of a vector queue; ownership is explicit as for the
/// scalar handles.
pub struct SimdProducer<T> {
    queue: SimdMpmcQueue<T>,
}

/// A consumer view of a vector queue; ownership is explicit as for the
/// scalar handles.
pub struct SimdConsumer<T> {
    queue: SimdMpmcQueue<T>,
}

impl<T> View for SimdProducer<T> {
    type V = Seq<T>;

    closed spec fn view(&self) -> Seq<T> {
        self.queue@
    }
}

impl<T> View for SimdConsumer<T> {
    type V = Seq<T>;

    closed spec fn view(&self) -> Seq<T> {
        self.queue@
    }
}

impl<T: Simd64Bit> SimdProducer<T> {
    /// Well-formedness of the underlying ring.
    pub closed spec fn inv(&self) -> bool {
        self.queue.inv()
    }

    /// The capacity of the underlying ring.
    pub closed spec fn spec_capacity(&self) -> usize {
        self.queue.spec_capacity()
    }

    /// Wraps a vector queue for producing.
    pub fn new(queue: SimdMpmcQueue<T>) -> (p: Self)
        requires
            queue.inv(),
        ensures
            p.inv(),
            p@ == queue@,
            p.capacity() == queue.capacity(),
    {
        SimdProducer { queue }
    }

    /// Best-effort batch send; see [`SimdMpmcQueue::send`].
    pub fn send(&mut self, items: &[T]) -> (r: Result<usize, Vec<T>>)
        requires
            old(self).inv(),
        ensures
            final(self).inv(),
            final(self).capacity() == old(self).capacity(),
            ({
                let free = old(self).capacity() - old(self)@.len();
                let n = min(items@.len() as int, free as int);
                &&& final(self)@ == old(self)@ + items@.take(n)
                &&& (items@.len() <= free <==> r is Ok)
                &&& (r matches Ok(k) ==> k as int == items@.len())
                &&& (r matches Err(rest) ==> rest@ == items@.skip(free as int))
            }),
    {
        self.queue.send(items)
    }

    /// Sends a single item.
    pub fn send_one(&mut self, item: T) -> (r: Result<(), T>)
        requires
            old(self).inv(),
        ensures
            final(self).inv(),
            final(self).capacity() == old(self).capacity(),
            old(self)@.len() < old(self).capacity() ==> r is Ok && final(self)@ == old(
                self,
            )@.push(item),
            old(self)@.len() == old(self).capacity() ==> r == Err::<(), T>(item) && final(self)@
                == old(self)@,
    {
        self.queue.send_one(item)
    }

    /// Returns true if the queue is full.
    pub fn is_full(&self) -> (f: bool)
        requires
            self.inv(),
        ensures
            f == (self@.len() == self.capacity()),
    {
        self.queue.is_full()
    }

    /// Returns the capacity of the queue.
    #[verifier::when_used_as_spec(spec_capacity)]
    pub fn capacity(&self) -> (c: usize)
        ensures
            c == self.spec_capacity(),
    {
        self.queue.capacity()
    }

    /// Releases the underlying queue.
    pub fn into_queue(self) -> (q: SimdMpmcQueue<T>)
        ensures
            q.inv() == self.inv(),
            q@ == self@,
            q.capacity() == self.capacity(),
    {
        self.queue
    }
}

impl<T: Simd64Bit> SimdConsumer<T> {
    /// Well-formedness of the underlying ring.
    pub closed spec fn inv(&self) -> bool {
        self.queue.inv()
    }

    /// The capacity of the underlying ring.
    pub closed spec fn spec_capacity(&self) -> usize {
        self.queue.spec_capacity()
    }

    /// Wraps a vector queue for consuming.
    pub fn new(queue: SimdMpmcQueue<T>) -> (con: Self)
        requires
            queue.inv(),
        ensures
            con.inv(),
            con@ == queue@,
            con.spec_capacity() == queue.capacity(),
    {
        SimdConsumer { queue }
    }

    /// Best-effort batch receive; see [`SimdMpmcQueue::recv`].
    pub fn recv(&mut self, buffer: &mut Vec<T>) -> (n: usize)
        requires
            old(self).inv(),
        ensures
            final(self).inv(),
            final(self).spec_capacity() == old(self).spec_capacity(),
            ({
                let n0 = min(old(buffer)@.len() as int, old(self)@.len() as int);
                &&& n == n0
                &&& final(self)@ == old(self)@.skip(n0)
                &&& final(buffer)@ == old(self)@.take(n0) + old(buffer)@.skip(n0)
            }),
    {
        self.queue.recv(buffer)
    }

    /// Receives a single item.
    pub fn recv_one(&mut self) -> (r: Option<T>)
        requires
            old(self).inv(),
        ensures
            final(self).inv(),
            final(self).spec_capacity() == old(self).spec_capacity(),
            old(self)@.len() == 0 ==> r is None && final(self)@ == old(self)@,
            old(self)@.len() > 0 ==> r == Some(old(self)@.first()) && final(self)@ == old(
                self,
            )@.drop_first(),
    {
        self.queue.recv_one()
    }

    /// Returns true if the queue is empty.
    pub fn is_empty(&self) -> (e: bool)
        requires
            self.inv(),
        ensures
            e == (self@.len() == 0),
    {
        self.queue.is_empty()
    }

    /// Returns the number of pending items.
    pub fn len(&self) -> (n: usize)
        requires
            self.inv(),
        ensures
            n == self@.len(),
    {
        self.queue.len()
    }

    /// Releases the underlying queue.
    pub fn into_queue(self) -> (q: SimdMpmcQueue<T>)
        ensures
            q.inv() == self.inv(),
            q@ == self@,
            q.capacity() == self.spec_capacity(),
    {
        self.queue
    }
}

} // verus!
