//! An overwrite-on-full circular buffer with positional lookback.

use vstd::prelude::*;
use vstd::arithmetic::div_mod::{lemma_mod_multiples_vanish, lemma_small_mod};
use crate::modular::{lemma_wrap_mod, wrap};

verus! {

/// One insertion applied to the retained contents of a buffer of capacity
/// `cap`: the value is appended, and once `cap` values are retained the
/// oldest one is discarded to make room.
pub open spec fn ring_step<T>(s: Seq<T>, cap: nat, v: T) -> Seq<T> {
    if s.len() < cap {
        s.push(v)
    } else {
        s.drop_first().push(v)
    }
}

/// The retained contents of a buffer of capacity `cap` after inserting the
/// values of `vs`, in order, into a freshly constructed buffer.
pub open spec fn ring_contents<T>(cap: nat, vs: Seq<T>) -> Seq<T>
    decreases vs.len(),
{
    if vs.len() == 0 {
        Seq::<T>::empty()
    } else {
        ring_step(ring_contents(cap, vs.drop_last()), cap, vs.last())
    }
}

/// For every capacity of at least one and every run of insertions into a
/// fresh buffer, the retained length is the insertion count until it
/// saturates at the capacity: `min(count, capacity)`.
pub proof fn lemma_ring_length<T>(cap: nat, vs: Seq<T>)
    requires
        1 <= cap,
    ensures
        ring_contents(cap, vs).len() == if vs.len() <= cap {
            vs.len()
        } else {
            cap
        },
    decreases vs.len(),
{
    if vs.len() > 0 {
        lemma_ring_length(cap, vs.drop_last());
    }
}

/// A buffer of capacity `cap` retains exactly the last `cap` insertions, in
/// insertion order — all of them while fewer have happened.
pub proof fn lemma_ring_retains_suffix<T>(cap: nat, vs: Seq<T>)
    requires
        1 <= cap,
    ensures
        vs.len() <= cap ==> ring_contents(cap, vs) == vs,
        vs.len() > cap ==> ring_contents(cap, vs) == vs.skip(vs.len() - cap),
    decreases vs.len(),
{
    if vs.len() == 0 {
        assert(ring_contents(cap, vs) =~= vs);
    } else {
        let prefix = vs.drop_last();
        lemma_ring_retains_suffix(cap, prefix);
        lemma_ring_length(cap, prefix);
        let s0 = ring_contents(cap, prefix);
        if vs.len() <= cap {
            assert(ring_contents(cap, vs) == s0.push(vs.last()));
            assert(prefix.push(vs.last()) =~= vs);
        } else if vs.len() == cap + 1 {
            assert(ring_contents(cap, vs) == s0.drop_first().push(vs.last()));
            assert(prefix.drop_first().push(vs.last()) =~= vs.skip(vs.len() - cap));
        } else {
            assert(ring_contents(cap, vs) == s0.drop_first().push(vs.last()));
            assert(prefix.skip(prefix.len() - cap).drop_first().push(vs.last()) =~= vs.skip(
                vs.len() - cap,
            ));
        }
    }
}

/// Whatever the buffer held before, an insertion leaves it non-empty with
/// the inserted value as its tail: peeking at distance zero right after an
/// insertion sees exactly the value inserted.
pub proof fn lemma_insert_becomes_tail<T>(s: Seq<T>, cap: nat, v: T)
    requires
        1 <= cap,
    ensures
        ring_step(s, cap, v).len() > 0,
        ring_step(s, cap, v).last() == v,
{
}

/// A freshly full buffer — exactly `cap` values inserted into a fresh buffer
/// of capacity `cap` — holds the first value at its head and the latest at
/// its tail.
pub proof fn lemma_freshly_full<T>(cap: nat, vs: Seq<T>)
    requires
        1 <= cap,
        vs.len() == cap,
    ensures
        ring_contents(cap, vs).len() == cap,
        ring_contents(cap, vs).first() == vs.first(),
        ring_contents(cap, vs).last() == vs.last(),
{
    lemma_ring_retains_suffix(cap, vs);
}

/// After more insertions than the capacity, looking back `j` positions from
/// the tail (for `j` up to the capacity) sees the `j`-th most recent
/// insertion; the retained length is exactly the capacity, so every deeper
/// lookback is rejected.
pub proof fn lemma_lookback<T>(cap: nat, vs: Seq<T>, j: int)
    requires
        1 <= cap,
        cap < vs.len(),
        0 <= j < cap,
    ensures
        ring_contents(cap, vs).len() == cap,
        ring_contents(cap, vs)[cap - 1 - j] == vs[vs.len() - 1 - j],
{
    lemma_ring_retains_suffix(cap, vs);
}

/// A fixed-capacity circular buffer. Insertion never fails: once the buffer
/// is full, each new value silently overwrites the oldest retained one.
/// Elements are addressed either by distance from the most recent insertion
/// (`peek_from_end`) or positionally from the oldest retained value onward
/// (`index`).
///
/// The abstract value (`@`) is the sequence of retained elements in
/// insertion order, oldest first.
pub struct CircularBuffer<T> {
    buf: Vec<Option<T>>,
    cap: usize,
    tail: usize,
    len: usize,
}

impl<T> View for CircularBuffer<T> {
    type V = Seq<T>;

    closed spec fn view(&self) -> Seq<T> {
        Seq::new(
            self.len as nat,
            |i: int| self.buf@[wrap(self.head_index() + i, self.cap as int)].unwrap(),
        )
    }
}

impl<T> CircularBuffer<T> {
    /// The fixed capacity chosen at construction.
    pub closed spec fn capacity(&self) -> nat {
        self.cap as nat
    }

    /// The storage slot of the most recently inserted element.
    pub closed spec fn tail_index(&self) -> nat {
        self.tail as nat
    }

    /// The storage slot of the oldest retained element; equal to slot zero
    /// until the buffer first fills, after which it trails one step behind
    /// the tail.
    pub closed spec fn head_index(&self) -> int {
        if self.len == self.cap {
            wrap(self.tail as int + 1, self.cap as int)
        } else {
            0
        }
    }

    /// Well-formedness: the storage was allocated with exactly `capacity`
    /// slots, the tail stays in range, at most `capacity` elements are
    /// retained, the tail sits just before slot zero until the first
    /// wrap-around, and every retained slot holds a value.
    pub closed spec fn wf(&self) -> bool {
        &&& self.buf@.len() == self.cap
        &&& 0 < self.cap
        &&& self.len <= self.cap
        &&& self.tail < self.cap
        &&& (self.len == 0 ==> self.tail == self.cap - 1)
        &&& (0 < self.len && self.len < self.cap ==> self.tail == self.len - 1)
        &&& (forall|i: int|
            0 <= i < self.len ==> (#[trigger] self.buf@[wrap(
                self.head_index() + i,
                self.cap as int,
            )]).is_some())
    }

    /// Allocates a buffer of `cap` empty slots. A capacity of zero is
    /// rejected at the contract level: no buffer without storage exists.
    pub fn new(cap: usize) -> (r: CircularBuffer<T>)
        requires
            0 < cap,
        ensures
            r.wf(),
            r@ == Seq::<T>::empty(),
            r.capacity() == cap,
            r.tail_index() == cap - 1,
    {
        let mut buf: Vec<Option<T>> = Vec::new();
        let mut i: usize = 0;
        while i < cap
            invariant
                i <= cap,
                buf@.len() == i,
            decreases cap - i,
        {
            buf.push(None);
            i = i + 1;
        }
        let r = CircularBuffer { buf, tail: cap - 1, len: 0, cap };
        proof {
            assert(r@ =~= Seq::<T>::empty());
        }
        r
    }

    /// Writes `item` into the slot after the tail, wrapping around the end
    /// of storage, and makes that slot the new tail. The retained length
    /// grows by one until it saturates at the capacity; from then on each
    /// insertion overwrites the oldest retained element. Insertion cannot
    /// fail.
    pub fn insert(&mut self, item: T)
        requires
            old(self).wf(),
        ensures
            final(self).wf(),
            final(self).capacity() == old(self).capacity(),
            final(self).tail_index() as int == (old(self).tail_index() as int + 1) % (
            old(self).capacity() as int),
            final(self)@ == ring_step(old(self)@, old(self).capacity(), item),
    {
        if self.len < self.cap {
            self.len = self.len + 1;
        }
        self.tail = (self.tail + 1) % self.cap;
        self.buf[self.tail] = Some(item);
        proof {
            let c = self.cap as int;
            let t0 = old(self).tail as int;
            let l0 = old(self).len as int;
            let h0 = old(self).head_index();
            lemma_wrap_mod(t0 + 1, c);
            assert(self.tail as int == wrap(t0 + 1, c));
            if l0 < c {
                assert(h0 == 0);
                assert(self.tail as int == l0);
                assert(self.head_index() == 0);
                assert forall|i: int| 0 <= i < self.len implies (#[trigger] self.buf@[wrap(
                    self.head_index() + i,
                    c,
                )]).is_some() by {
                    if i < l0 {
                        assert(old(self).buf@[wrap(h0 + i, c)].is_some());
                    }
                };
                assert(self@ =~= old(self)@.push(item));
            } else {
                let t1 = self.tail as int;
                let h1 = self.head_index();
                assert(t1 == h0);
                assert forall|j: int| 0 <= j < c implies (#[trigger] old(self).buf@[j]).is_some() by {
                    let i = if j >= h0 { j - h0 } else { j + c - h0 };
                    assert(wrap(h0 + i, c) == j);
                    assert(old(self).buf@[wrap(h0 + i, c)].is_some());
                };
                assert forall|i: int| 0 <= i < c - 1 implies #[trigger] self@[i] == old(self)@[i
                    + 1] by {
                    assert(wrap(h1 + i, c) == wrap(h0 + (i + 1), c));
                    assert(wrap(h0 + (i + 1), c) != t1);
                };
                assert(wrap(h1 + (c - 1), c) == t1);
                assert(self@[c - 1] == item);
                assert(self@ =~= old(self)@.drop_first().push(item));
            }
        }
    }

    /// The number of retained elements.
    pub fn len(&self) -> (r: usize)
        ensures
            r == self@.len(),
    {
        self.len
    }

    /// The most recently inserted element, or nothing while the buffer is
    /// empty.
    pub fn peek_tail(&self) -> (r: Option<&T>)
        requires
            self.wf(),
        ensures
            self@.len() == 0 ==> r.is_none(),
            self@.len() > 0 ==> r.is_some() && *r.unwrap() == self@.last(),
    {
        if self.len > 0 {
            proof {
                let c = self.cap as int;
                let l = self.len as int;
                assert(wrap(self.head_index() + (l - 1), c) == self.tail as int);
                assert(self.buf@[wrap(self.head_index() + (l - 1), c)].is_some());
            }
            match &self.buf[self.tail] {
                Some(x) => Some(x),
                None => None,
            }
        } else {
            None
        }
    }

    /// The storage slot holding the oldest retained element, computed as
    /// `(tail + length + 1)` reduced modulo `length`. That reduction is
    /// meaningless for an empty buffer, so at least one element must be
    /// retained.
    pub fn head(&self) -> (r: usize)
        requires
            self.wf(),
            self@.len() > 0,
        ensures
            r == self.head_index(),
            r as int == (self.tail_index() as int + self@.len() + 1) % (self@.len() as int),
    {
        proof {
            let c = self.cap as int;
            let t = self.tail as int;
            let l = self.len as int;
            if l == c {
                lemma_mod_multiples_vanish(1, t + 1, c);
                lemma_wrap_mod(t + 1, c);
                assert((t + l + 1) % l == wrap(t + 1, c));
            } else {
                assert(t == l - 1);
                lemma_mod_multiples_vanish(2, 0, l);
                lemma_small_mod(0, l as nat);
                assert((t + l + 1) % l == 0);
            }
        }
        if self.len == self.cap {
            (self.tail + 1) % self.cap
        } else {
            0
        }
    }

    /// The oldest retained element, or nothing while the buffer is empty.
    pub fn peek_head(&self) -> (r: Option<&T>)
        requires
            self.wf(),
        ensures
            self@.len() == 0 ==> r.is_none(),
            self@.len() > 0 ==> r.is_some() && *r.unwrap() == self@[0],
    {
        if self.len > 0 {
            let h = self.head();
            proof {
                let c = self.cap as int;
                assert(wrap(self.head_index() + 0, c) == h as int);
                assert(self.buf@[wrap(self.head_index() + 0, c)].is_some());
            }
            match &self.buf[h] {
                Some(x) => Some(x),
                None => None,
            }
        } else {
            None
        }
    }

    /// The element `len_from_tail` positions back from the most recent
    /// insertion: distance zero is the tail itself. Nothing is returned for
    /// a distance that reaches past the retained history.
    pub fn peek_from_end(&self, len_from_tail: usize) -> (r: Option<&T>)
        requires
            self.wf(),
        ensures
            len_from_tail >= self@.len() ==> r.is_none(),
            len_from_tail < self@.len() ==> r.is_some() && *r.unwrap() == self@[self@.len() - 1
                - len_from_tail],
    {
        if len_from_tail >= self.len {
            return None;
        }
        let i: usize = if len_from_tail > self.tail {
            if self.len != self.cap {
                return None;
            }
            self.cap - (len_from_tail - self.tail)
        } else {
            self.tail - len_from_tail
        };
        proof {
            let c = self.cap as int;
            let l = self.len as int;
            let n = len_from_tail as int;
            assert(wrap(self.head_index() + (l - 1 - n), c) == i as int);
            assert(self.buf@[wrap(self.head_index() + (l - 1 - n), c)].is_some());
        }
        match &self.buf[i] {
            Some(x) => Some(x),
            None => None,
        }
    }

    /// The `i`-th retained element in insertion order: position zero is the
    /// oldest retained value, position `len() - 1` the most recent. The
    /// position must be within the retained length.
    pub fn index(&self, i: usize) -> (r: &T)
        requires
            self.wf(),
            i < self@.len(),
        ensures
            *r == self@[i as int],
    {
        let h = self.head();
        let pos: usize = if i < self.cap - h {
            h + i
        } else {
            i - (self.cap - h)
        };
        proof {
            let c = self.cap as int;
            assert(wrap(self.head_index() + i, c) == pos as int);
            assert(self.buf@[wrap(self.head_index() + i, c)].is_some());
        }
        match &self.buf[pos] {
            Some(x) => x,
            None => unreached(),
        }
    }
}

} // verus!
