//! A fixed-capacity circular byte buffer.
//!
//! The buffer owns a backing store of `N` byte slots and two indices, `head`
//! and `tail`, that delimit the occupied region. One slot is kept permanently
//! unused as a sentinel, so that an empty buffer (`head == tail`) and a full
//! one (`(tail + 1) % N == head`) stay distinguishable; the usable capacity is
//! therefore `N - 1`. Writes are rejected when the buffer is full and reads
//! when it is empty: no data is ever overwritten silently.

use vstd::prelude::*;

verus! {

/// A bounded, allocation-free staging area for a byte stream, with O(1)
/// write and read operations and a capacity fixed at construction.
pub struct RingBuffer<const N: usize> {
    size: usize,
    buffer: [u8; N],
    head: usize,
    tail: usize,
}

impl<const N: usize> RingBuffer<N> {
    /// Well-formedness: both indices stay inside the backing store, the
    /// recorded size matches it, and the store is large enough to tell an
    /// empty buffer from a full one.
    pub closed spec fn wf(self) -> bool {
        &&& self.size == N
        &&& 2 <= N
        &&& self.head < N
        &&& self.tail < N
    }

    /// Number of buffered bytes: the length of the occupied region from
    /// `head` (inclusive) to `tail` (exclusive), wrapping modulo `N`.
    pub closed spec fn spec_len(self) -> int {
        (self.tail + N - self.head) % (N as int)
    }
}

impl<const N: usize> View for RingBuffer<N> {
    type V = Seq<u8>;

    /// The buffered bytes in FIFO order: the oldest unread byte first.
    closed spec fn view(&self) -> Seq<u8> {
        Seq::new(
            self.spec_len() as nat,
            |i: int| self.buffer@[(self.head + i) % (N as int)],
        )
    }
}

/// The occupied length `(tail + n - head) % n` written without the modulo:
/// `tail - head` when the region does not wrap, `tail + n - head` when it does.
proof fn lemma_len_formula(head: int, tail: int, n: int)
    requires
        2 <= n,
        0 <= head < n,
        0 <= tail < n,
    ensures
        (tail + n - head) % n == if tail >= head {
            tail - head
        } else {
            tail + n - head
        },
        0 <= (tail + n - head) % n < n,
{
    if tail >= head {
        vstd::arithmetic::div_mod::lemma_mod_multiples_vanish(1, tail - head, n);
        vstd::arithmetic::div_mod::lemma_small_mod((tail - head) as nat, n as nat);
    } else {
        vstd::arithmetic::div_mod::lemma_small_mod((tail + n - head) as nat, n as nat);
    }
}

/// An index advanced by one wraps to 0 exactly at the end of the store.
proof fn lemma_incr_mod(i: int, n: int)
    requires
        2 <= n,
        0 <= i < n,
    ensures
        (i + 1) % n == if i + 1 < n {
            i + 1
        } else {
            0
        },
{
    if i + 1 < n {
        vstd::arithmetic::div_mod::lemma_small_mod((i + 1) as nat, n as nat);
    } else {
        vstd::arithmetic::div_mod::lemma_mod_self_0(n);
    }
}

/// A position `head + i` reduced into the store: it wraps past the end at
/// most once because both summands are below `n`.
proof fn lemma_wrap_index(head: int, i: int, n: int)
    requires
        2 <= n,
        0 <= head < n,
        0 <= i < n,
    ensures
        (head + i) % n == if head + i < n {
            head + i
        } else {
            head + i - n
        },
{
    if head + i < n {
        vstd::arithmetic::div_mod::lemma_small_mod((head + i) as nat, n as nat);
    } else {
        vstd::arithmetic::div_mod::lemma_mod_multiples_vanish(1, head + i - n, n);
        vstd::arithmetic::div_mod::lemma_small_mod((head + i - n) as nat, n as nat);
    }
}

impl<const N: usize> RingBuffer<N> {
    /// Creates an empty buffer whose backing store holds `N` zeroed slots.
    /// A store of fewer than 2 slots cannot represent both the empty and the
    /// full state, so such a capacity is rejected at verification time.
    pub fn new() -> (r: Self)
        requires
            2 <= N,
        ensures
            r.wf(),
            r@ == Seq::<u8>::empty(),
    {
        let r = RingBuffer { size: N, buffer: [0u8; N], head: 0, tail: 0 };
        proof {
            vstd::arithmetic::div_mod::lemma_mod_self_0(N as int);
            assert(r@ =~= Seq::<u8>::empty());
        }
        r
    }

    /// Reports whether nothing is buffered, which is the case exactly when
    /// `head` has caught up with `tail`.
    pub fn empty(&self) -> (r: bool)
        requires
            self.wf(),
        ensures
            r == (self@.len() == 0),
    {
        proof {
            lemma_len_formula(self.head as int, self.tail as int, N as int);
        }
        self.head == self.tail
    }

    /// Reports whether the buffer is full, that is, holds its maximum of
    /// `N - 1` bytes; the remaining slot is the sentinel that keeps a full
    /// buffer distinguishable from an empty one.
    pub fn full(&self) -> (r: bool)
        requires
            self.wf(),
        ensures
            r == (self@.len() == N - 1),
    {
        proof {
            lemma_len_formula(self.head as int, self.tail as int, N as int);
            lemma_incr_mod(self.tail as int, N as int);
        }
        (self.tail + 1) % self.size == self.head
    }

    /// Returns the number of buffered bytes, `(tail + N - head) % N`,
    /// always between 0 and `N - 1`.
    pub fn len(&self) -> (r: usize)
        requires
            self.wf(),
        ensures
            r == self@.len(),
            r < N,
    {
        proof {
            lemma_len_formula(self.head as int, self.tail as int, N as int);
        }
        if self.tail >= self.head {
            self.tail - self.head
        } else {
            self.size - self.head + self.tail
        }
    }

    /// Appends one byte at `tail`. A write to a full buffer is rejected:
    /// it returns `false` and leaves the buffer untouched, so the caller can
    /// apply backpressure; unread data is never overwritten. Otherwise the
    /// byte is stored, `tail` advances one slot (wrapping), and the buffered
    /// sequence grows by that byte at its back.
    pub fn write(&mut self, src: u8) -> (r: bool)
        requires
            old(self).wf(),
        ensures
            final(self).wf(),
            r == (old(self)@.len() < N - 1),
            r ==> final(self)@ == old(self)@.push(src),
            !r ==> *final(self) == *old(self),
    {
        proof {
            lemma_len_formula(self.head as int, self.tail as int, N as int);
        }
        if self.full() {
            return false;
        }
        let ghost prev = *self;
        self.buffer[self.tail] = src;
        self.tail = (self.tail + 1) % self.size;
        proof {
            lemma_incr_mod(prev.tail as int, N as int);
            lemma_len_formula(self.head as int, self.tail as int, N as int);
            assert forall|i: int| 0 <= i < prev.spec_len() + 1 implies self@[i] == prev@.push(
                src,
            )[i] by {
                lemma_wrap_index(prev.head as int, i, N as int);
            }
            assert(self@ =~= prev@.push(src));
        }
        true
    }

    /// Removes and returns the oldest buffered byte, at `head`. A read from
    /// an empty buffer returns no value and leaves the buffer untouched: an
    /// empty buffer is a normal steady state, not an error. Otherwise `head`
    /// advances one slot (wrapping) and the buffered sequence loses its
    /// front; the vacated slot's byte becomes stale but is never readable
    /// again through this interface.
    pub fn read(&mut self) -> (r: Option<u8>)
        requires
            old(self).wf(),
        ensures
            final(self).wf(),
            old(self)@.len() == 0 ==> r is None && *final(self) == *old(self),
            old(self)@.len() > 0 ==> r == Some(old(self)@[0]) && final(self)@ == old(
                self,
            )@.drop_first(),
    {
        proof {
            lemma_len_formula(self.head as int, self.tail as int, N as int);
        }
        if self.empty() {
            return None;
        }
        let ghost prev = *self;
        let src = self.buffer[self.head];
        self.head = (self.head + 1) % self.size;
        proof {
            lemma_incr_mod(prev.head as int, N as int);
            lemma_len_formula(self.head as int, self.tail as int, N as int);
            lemma_wrap_index(prev.head as int, 0, N as int);
            assert forall|i: int| 0 <= i < prev.spec_len() - 1 implies self@[i] == prev@.drop_first()[i] by {
                lemma_wrap_index(prev.head as int, i + 1, N as int);
                lemma_wrap_index(self.head as int, i, N as int);
            }
            assert(self@ =~= prev@.drop_first());
        }
        Some(src)
    }
}

/// The buffered sequence after the bytes of `bytes` are written one by one
/// into a buffer with room for all of them: each successful `write` turns
/// contents `s` into `s.push(b)`, starting from the given contents.
pub open spec fn written(init: Seq<u8>, bytes: Seq<u8>) -> Seq<u8>
    decreases bytes.len(),
{
    if bytes.len() == 0 {
        init
    } else {
        written(init, bytes.drop_last()).push(bytes.last())
    }
}

/// The bytes that successive `read`s return, in order, when a buffer whose
/// contents are `s` is drained until it is empty: each `read` returns `s[0]`
/// and leaves `s.drop_first()`.
pub open spec fn drained(s: Seq<u8>) -> Seq<u8>
    decreases s.len(),
{
    if s.len() == 0 {
        Seq::empty()
    } else {
        seq![s[0]] + drained(s.drop_first())
    }
}

/// Emptiness and fullness are mutually exclusive: a well-formed buffer never
/// reports `empty()` and `full()` at the same time, for every capacity,
/// including the smallest one. `empty()` returns `self@.len() == 0` and
/// `full()` returns `self@.len() == N - 1`, which cannot coincide.
pub proof fn lemma_empty_full_exclusive<const N: usize>(rb: RingBuffer<N>)
    requires
        rb.wf(),
    ensures
        !(rb@.len() == 0 && rb@.len() == N - 1),
        2 <= N,
{
}

/// A buffer never holds more than `N - 1` bytes: one slot always stays free,
/// as the sentinel between the empty and the full state.
pub proof fn lemma_occupancy_bounded<const N: usize>(rb: RingBuffer<N>)
    requires
        rb.wf(),
    ensures
        rb@.len() < N,
{
    lemma_len_formula(rb.head as int, rb.tail as int, N as int);
}

/// Writes append and keep order: writing the bytes of `bytes` one by one
/// into a buffer that holds `init` buffers `init + bytes`.
pub proof fn lemma_written_appends(init: Seq<u8>, bytes: Seq<u8>)
    ensures
        written(init, bytes) == init + bytes,
    decreases bytes.len(),
{
    if bytes.len() == 0 {
        assert(written(init, bytes) =~= init + bytes);
    } else {
        lemma_written_appends(init, bytes.drop_last());
        assert(written(init, bytes) =~= init + bytes);
    }
}

/// Writing `b1, ..., bk` into a fresh buffer buffers exactly `b1, ..., bk`:
/// the contents after those writes are the written bytes themselves, in
/// order, so in particular `len()` then returns `k`.
pub proof fn lemma_writes_from_empty(bytes: Seq<u8>)
    ensures
        written(Seq::empty(), bytes) == bytes,
{
    lemma_written_appends(Seq::empty(), bytes);
    assert(written(Seq::empty(), bytes) =~= bytes);
}

/// While a fresh buffer of capacity `cap` is being filled with `k <= cap - 1`
/// bytes, every single write finds room: before the write of byte `i + 1` the
/// buffer holds `i < cap - 1` bytes, which is `write`'s success condition.
pub proof fn lemma_writes_succeed(bytes: Seq<u8>, cap: int, i: int)
    requires
        2 <= cap,
        bytes.len() <= cap - 1,
        0 <= i < bytes.len(),
    ensures
        written(Seq::empty(), bytes.take(i)).len() < cap - 1,
{
    lemma_writes_from_empty(bytes.take(i));
}

/// FIFO round trip: draining a buffer that holds `s` returns exactly `s`,
/// first byte in, first byte out. Together with `lemma_writes_from_empty`
/// this says that writing `b1, ..., bk` and then reading `k` times returns
/// `b1, ..., bk` in that order.
pub proof fn lemma_fifo_round_trip(s: Seq<u8>)
    ensures
        drained(s) == s,
    decreases s.len(),
{
    if s.len() == 0 {
        assert(drained(s) =~= s);
    } else {
        lemma_fifo_round_trip(s.drop_first());
        assert(drained(s) =~= s);
    }
}

} // verus!
