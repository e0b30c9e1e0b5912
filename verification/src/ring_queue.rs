//! A fixed-capacity circular FIFO queue that rejects work at its bounds.

use vstd::prelude::*;
use crate::modular::{lemma_wrap_mod, wrap};

verus! {

/// The two recoverable failures of the queue: popping while nothing is
/// stored, and pushing while every slot is taken.
#[derive(Clone, Copy, Debug, PartialEq, Eq, Structural)]
pub enum QueueError {
    QueueEmpty,
    QueueFull,
}

impl QueueError {
    /// A human-readable description of the failure.
    pub fn message(&self) -> (r: &'static str)
        ensures
            *self == QueueError::QueueEmpty ==> r@ == "Queue is empty"@,
            *self == QueueError::QueueFull ==> r@ == "Queue is full"@,
    {
        match self {
            QueueError::QueueEmpty => "Queue is empty",
            QueueError::QueueFull => "Queue is full",
        }
    }
}

/// One push applied to the stored contents of a queue of capacity `cap`:
/// the value is appended while there is room, and a full queue is left
/// unchanged.
pub open spec fn queue_push_step<T>(s: Seq<T>, cap: nat, v: T) -> Seq<T> {
    if s.len() < cap {
        s.push(v)
    } else {
        s
    }
}

/// The stored contents of a queue of capacity `cap` after pushing the
/// values of `vs`, in order, onto a queue holding `s`.
pub open spec fn queue_after_pushes<T>(s: Seq<T>, cap: nat, vs: Seq<T>) -> Seq<T>
    decreases vs.len(),
{
    if vs.len() == 0 {
        s
    } else {
        queue_push_step(queue_after_pushes(s, cap, vs.drop_last()), cap, vs.last())
    }
}

/// FIFO round trip: pushing at most `capacity` values onto an empty queue
/// accepts all of them and stores exactly those values in order; each pop
/// in turn then yields them oldest first (the front of what remains after
/// `i` pops is the `i`-th value pushed), and after as many pops as pushes
/// nothing remains.
pub proof fn lemma_queue_round_trip<T>(cap: nat, vs: Seq<T>)
    requires
        vs.len() <= cap,
    ensures
        queue_after_pushes(Seq::<T>::empty(), cap, vs) == vs,
        forall|i: int| 0 <= i < vs.len() ==> #[trigger] vs.skip(i)[0] == vs[i],
        vs.skip(vs.len() as int) == Seq::<T>::empty(),
    decreases vs.len(),
{
    if vs.len() == 0 {
        assert(queue_after_pushes(Seq::<T>::empty(), cap, vs) =~= vs);
    } else {
        lemma_queue_round_trip(cap, vs.drop_last());
        assert(vs.drop_last().push(vs.last()) =~= vs);
    }
    assert(vs.skip(vs.len() as int) =~= Seq::<T>::empty());
}

/// Capacity boundary: pushing exactly `capacity` values onto an empty queue
/// fills it, and one further push is rejected without disturbing the stored
/// contents.
pub proof fn lemma_capacity_boundary<T>(cap: nat, vs: Seq<T>, extra: T)
    requires
        vs.len() == cap,
    ensures
        queue_after_pushes(Seq::<T>::empty(), cap, vs).len() == cap,
        queue_push_step(queue_after_pushes(Seq::<T>::empty(), cap, vs), cap, extra)
            == queue_after_pushes(Seq::<T>::empty(), cap, vs),
{
    lemma_queue_round_trip(cap, vs);
}

/// A preallocated circular FIFO queue. The whole backing block is allocated
/// at construction and reused forever: pushes write at the back cursor, pops
/// clear the front slot, and both cursors wrap around the end of storage.
/// Unlike the ring buffer, a full queue rejects further pushes instead of
/// overwriting.
///
/// The abstract value (`@`) is the sequence of stored elements from front
/// (next to be popped) to back (most recently pushed).
pub struct StaticSizeQueue<T> {
    buff: Vec<Option<T>>,
    front: usize,
    size: usize,
    back: usize,
    cap: usize,
}

impl<T> View for StaticSizeQueue<T> {
    type V = Seq<T>;

    closed spec fn view(&self) -> Seq<T> {
        Seq::new(
            self.size as nat,
            |i: int| self.buff@[wrap(self.front + i, self.cap as int)].unwrap(),
        )
    }
}

impl<T> StaticSizeQueue<T> {
    /// The fixed capacity chosen at construction.
    pub closed spec fn capacity(&self) -> nat {
        self.cap as nat
    }

    /// Well-formedness: storage of exactly `capacity` slots, both cursors in
    /// range, the back cursor exactly `size` steps past the front, and a
    /// value in every stored slot.
    pub closed spec fn wf(&self) -> bool {
        &&& self.buff@.len() == self.cap
        &&& 0 < self.cap
        &&& self.size <= self.cap
        &&& self.front < self.cap
        &&& self.back < self.cap
        &&& self.back as int == wrap(self.front + self.size, self.cap as int)
        &&& (forall|i: int|
            0 <= i < self.size ==> (#[trigger] self.buff@[wrap(
                self.front + i,
                self.cap as int,
            )]).is_some())
    }

    /// Allocates a queue of `cap` empty slots. A capacity of zero would be a
    /// queue that is permanently full and permanently empty at once, so it
    /// is rejected at the contract level.
    pub fn new(cap: usize) -> (r: StaticSizeQueue<T>)
        requires
            0 < cap,
        ensures
            r.wf(),
            r@ == Seq::<T>::empty(),
            r.capacity() == cap,
    {
        let mut buff: Vec<Option<T>> = Vec::new();
        let mut i: usize = 0;
        while i < cap
            invariant
                i <= cap,
                buff@.len() == i,
            decreases cap - i,
        {
            buff.push(None);
            i = i + 1;
        }
        let front: usize = 0;
        let back: usize = 0;
        let size: usize = 0;
        let r = StaticSizeQueue { buff, front, size, back, cap };
        proof {
            assert(r@ =~= Seq::<T>::empty());
        }
        r
    }

    /// Appends `item` at the back of the queue. A full queue rejects the
    /// push with `QueueFull` and stays exactly as it was: no overwrite ever
    /// happens here.
    pub fn push(&mut self, item: T) -> (r: Result<(), QueueError>)
        requires
            old(self).wf(),
        ensures
            final(self).wf(),
            final(self).capacity() == old(self).capacity(),
            old(self)@.len() == old(self).capacity() ==> r == Err::<(), QueueError>(
                QueueError::QueueFull,
            ) && *final(self) == *old(self),
            old(self)@.len() < old(self).capacity() ==> r == Ok::<(), QueueError>(())
                && final(self)@ == old(self)@.push(item),
            final(self)@ == queue_push_step(old(self)@, old(self).capacity(), item),
    {
        if self.size == self.cap {
            return Err(QueueError::QueueFull);
        }
        self.buff[self.back] = Some(item);
        self.back = (self.back + 1) % self.cap;
        self.size = self.size + 1;
        proof {
            let c = self.cap as int;
            let f = self.front as int;
            let s0 = old(self).size as int;
            let b0 = old(self).back as int;
            assert(b0 == wrap(f + s0, c));
            lemma_wrap_mod(b0 + 1, c);
            assert(self.back as int == wrap(f + s0 + 1, c));
            assert forall|i: int| 0 <= i < self.size implies (#[trigger] self.buff@[wrap(
                f + i,
                c,
            )]).is_some() by {
                if i < s0 {
                    assert(old(self).buff@[wrap(f + i, c)].is_some());
                    assert(wrap(f + i, c) != b0);
                }
            };
            assert forall|i: int| 0 <= i < s0 implies #[trigger] self@[i] == old(self)@[i] by {
                assert(wrap(f + i, c) != b0);
            };
            assert(self@[s0] == item);
            assert(self@ =~= old(self)@.push(item));
        }
        Ok(())
    }

    /// Removes and returns the front element, clearing its slot so no stale
    /// value is retained. An empty queue rejects the pop with `QueueEmpty`.
    pub fn pop(&mut self) -> (r: Result<T, QueueError>)
        requires
            old(self).wf(),
        ensures
            final(self).wf(),
            final(self).capacity() == old(self).capacity(),
            old(self)@.len() == 0 ==> r == Err::<T, QueueError>(QueueError::QueueEmpty)
                && *final(self) == *old(self),
            old(self)@.len() > 0 ==> r == Ok::<T, QueueError>(old(self)@[0])
                && final(self)@ == old(self)@.drop_first(),
    {
        if self.is_empty() {
            return Err(QueueError::QueueEmpty);
        }
        proof {
            let c = self.cap as int;
            assert(wrap(self.front + 0, c) == self.front as int);
            assert(self.buff@[wrap(self.front + 0, c)].is_some());
        }
        let item = self.buff[self.front].take();
        self.front = (self.front + 1) % self.cap;
        self.size = self.size - 1;
        proof {
            let c = self.cap as int;
            let f0 = old(self).front as int;
            let s0 = old(self).size as int;
            lemma_wrap_mod(f0 + 1, c);
            let f1 = self.front as int;
            assert(f1 == wrap(f0 + 1, c));
            assert forall|i: int| 0 <= i < self.size implies (#[trigger] self.buff@[wrap(
                f1 + i,
                c,
            )]).is_some() && self.buff@[wrap(f1 + i, c)] == old(self).buff@[wrap(
                f0 + (i + 1),
                c,
            )] by {
                assert(wrap(f1 + i, c) == wrap(f0 + (i + 1), c));
                assert(wrap(f0 + (i + 1), c) != f0);
                assert(old(self).buff@[wrap(f0 + (i + 1), c)].is_some());
            };
            assert(self.back as int == wrap(f1 + self.size, c));
            assert(self@ =~= old(self)@.drop_first());
            assert(item == Some(old(self)@[0]));
        }
        match item {
            Some(x) => Ok(x),
            None => unreached(),
        }
    }

    /// A reference to the front element without removing it, or nothing
    /// while the queue is empty.
    pub fn peek_front(&self) -> (r: Option<&T>)
        requires
            self.wf(),
        ensures
            self@.len() == 0 ==> r.is_none(),
            self@.len() > 0 ==> r.is_some() && *r.unwrap() == self@[0],
    {
        if self.size == 0 {
            return None;
        }
        proof {
            let c = self.cap as int;
            assert(wrap(self.front + 0, c) == self.front as int);
            assert(self.buff@[wrap(self.front + 0, c)].is_some());
        }
        match &self.buff[self.front] {
            Some(x) => Some(x),
            None => None,
        }
    }

    /// A mutable reference to the front element without removing it, or
    /// nothing while the queue is empty. Writing through the reference
    /// replaces the front element in place.
    pub fn peek_front_mut(&mut self) -> (r: Option<&mut T>)
        requires
            old(self).wf(),
        ensures
            old(self)@.len() == 0 ==> r.is_none() && *final(self) == *old(self),
            old(self)@.len() > 0 ==> r.is_some() && *r.unwrap() == old(self)@[0]
                && final(self).wf() && final(self).capacity() == old(self).capacity()
                && final(self)@ == old(self)@.update(0, *final(r.unwrap())),
    {
        if self.size == 0 {
            return None;
        }
        proof {
            let c = self.cap as int;
            assert(wrap(self.front + 0, c) == self.front as int);
            assert(self.buff@[wrap(self.front + 0, c)].is_some());
        }
        let fr = self.front;
        self.buff[fr].as_mut()
    }

    /// The number of stored elements.
    pub fn size(&self) -> (r: usize)
        ensures
            r == self@.len(),
    {
        self.size
    }

    /// Whether nothing is stored.
    pub fn is_empty(&self) -> (r: bool)
        ensures
            r == (self@.len() == 0),
    {
        self.size == 0
    }
}

} // verus!
