//! The read-ahead buffer.
use circular::Buffer as Ring;
use vstd::prelude::*;

verus! {

/// Once the buffer has been filled, it holds at least this many bytes, or all
/// bytes up to the end of the source.
pub const MIN_BUFFER_SIZE: usize = 8192;

/// Number of bytes for which the buffer has room.
pub const BUFFER_SIZE: usize = 16384;

/// The ring buffer of the `circular` crate: a block of memory of fixed size,
/// with a readable part (the data) followed by a writable part (the space).
#[verifier::external_type_specification]
#[verifier::external_body]
pub struct ExRing(Ring);

/// The bytes that can be read from the ring, as `data` returns them.
pub uninterp spec fn ring_data(ring: Ring) -> Seq<u8>;

/// What the memory after the data holds, as `space` returns it.
pub uninterp spec fn ring_space(ring: Ring) -> Seq<u8>;

/// The size with which the ring was made.
pub uninterp spec fn ring_capacity(ring: Ring) -> nat;

/// Number of bytes of memory before the data, which have been consumed and
/// not been reclaimed.
pub open spec fn ring_head(ring: Ring) -> int {
    ring_capacity(ring) - ring_data(ring).len() - ring_space(ring).len()
}

/// The smaller of two numbers.
pub open spec fn least(a: int, b: int) -> int {
    if a <= b {
        a
    } else {
        b
    }
}

/// The smaller of two numbers is one of them, and is not above the other.
pub proof fn the_least_is_the_smaller(a: int, b: int)
    ensures
        least(a, b) <= a,
        least(a, b) <= b,
        least(a, b) == a || least(a, b) == b,
{
}

/// `circular::Buffer::with_capacity`: the ring starts without data, and all of
/// its memory is space. Memory is allocated for `capacity` bytes, which must
/// not exceed what an allocation can hold.
pub assume_specification[ Ring::with_capacity ](capacity: usize) -> (ring:
    Ring)
    requires
        capacity <= isize::MAX,
    ensures
        ring_data(ring) == Seq::<u8>::empty(),
        ring_space(ring).len() == capacity,
        ring_capacity(ring) == capacity,
;

/// `circular::Buffer::available_data`: the length of the data.
pub assume_specification[ Ring::available_data ](ring: &Ring) -> (n: usize)
    ensures
        n == ring_data(*ring).len(),
;

/// `circular::Buffer::data`: the data.
pub assume_specification[ Ring::data ](ring: &Ring) -> (data: &[u8])
    ensures
        data@ == ring_data(*ring),
;

/// `circular::Buffer::space`: gives write access to the space. Nothing else
/// changes.
pub assume_specification[ Ring::space ](ring: &mut Ring) -> (space:
    &mut [u8])
    ensures
        space@ == ring_space(*old(ring)),
        final(space)@.len() == space@.len(),
        ring_space(*final(ring)) == final(space)@,
        ring_data(*final(ring)) == ring_data(*old(ring)),
        ring_capacity(*final(ring)) == ring_capacity(*old(ring)),
;

/// `circular::Buffer::fill`: turns the first bytes of the space into data, at
/// most as many as there are. If afterwards there is less space than the data
/// and the count together take, the data moves to the start of the memory.
pub assume_specification[ Ring::fill ](ring: &mut Ring, count: usize) -> (n:
    usize)
    ensures
        n == least(count as int, ring_space(*old(ring)).len() as int),
        ring_data(*final(ring)) == ring_data(*old(ring)) + ring_space(*old(ring)).take(n as int),
        ring_space(*old(ring)).len() - n < ring_data(*final(ring)).len() + n ==> ring_head(
            *final(ring),
        ) == 0,
        ring_space(*old(ring)).len() - n >= ring_data(*final(ring)).len() + n ==> ring_head(
            *final(ring),
        ) == ring_head(*old(ring)),
        ring_capacity(*final(ring)) == ring_capacity(*old(ring)),
;

/// `circular::Buffer::consume`: drops bytes from the front of the data, at most
/// as many as there are. If that leaves more than half of the memory before the
/// data, the data moves to the start of the memory.
pub assume_specification[ Ring::consume ](
    ring: &mut Ring,
    count: usize,
) -> (n: usize)
    ensures
        n == least(count as int, ring_data(*old(ring)).len() as int),
        ring_data(*final(ring)) == ring_data(*old(ring)).skip(n as int),
        ring_head(*old(ring)) + n > ring_capacity(*old(ring)) / 2 ==> ring_head(*final(ring)) == 0,
        ring_head(*old(ring)) + n <= ring_capacity(*old(ring)) / 2 ==> ring_head(*final(ring))
            == ring_head(*old(ring)) + n,
        ring_capacity(*final(ring)) == ring_capacity(*old(ring)),
;

/// `Clone` for `circular::Buffer`: the copy holds the same bytes at the same
/// places.
pub assume_specification[ <Ring as Clone>::clone ](ring: &Ring) -> (copy: Ring)
    ensures
        ring_data(copy) == ring_data(*ring),
        ring_space(copy) == ring_space(*ring),
        ring_capacity(copy) == ring_capacity(*ring),
;

/// Internal read ahead buffer.
#[derive(Debug)]
pub struct Buffer {
    inner: Ring,
}

impl View for Buffer {
    type V = Seq<u8>;

    /// The bytes that were read ahead and not consumed.
    closed spec fn view(&self) -> Seq<u8> {
        ring_data(self.inner)
    }
}

impl Clone for Buffer {
    fn clone(&self) -> (copy: Buffer)
        ensures
            copy@ == self@,
            copy.room() == self.room(),
            copy.wf() == self.wf(),
    {
        Buffer { inner: self.inner.clone() }
    }
}

impl AsRef<[u8]> for Buffer {
    fn as_ref(&self) -> (data: &[u8])
        ensures
            data@ == self@,
    {
        self.inner.data()
    }
}

impl Buffer {
    /// What is in the memory that the next bytes will be read into.
    pub closed spec fn room(&self) -> Seq<u8> {
        ring_space(self.inner)
    }

    /// The memory has its size, and at most half of it lies idle before the
    /// data.
    pub closed spec fn wf(&self) -> bool {
        &&& ring_capacity(self.inner) == BUFFER_SIZE
        &&& 0 <= ring_head(self.inner) <= BUFFER_SIZE / 2
    }

    /// A buffer never holds more than `BUFFER_SIZE` bytes, and what it holds and
    /// what can still be filled in are no more than that together.
    pub proof fn the_size_is_bounded(&self)
        requires
            self.wf(),
        ensures
            self@.len() + self.room().len() <= BUFFER_SIZE,
    {
    }

    /// Makes an empty buffer.
    pub fn new() -> (buffer: Buffer)
        ensures
            buffer.wf(),
            buffer@ == Seq::<u8>::empty(),
            buffer.room().len() == BUFFER_SIZE,
    {
        Buffer { inner: Ring::with_capacity(BUFFER_SIZE) }
    }

    /// Number of bytes in the buffer.
    pub fn len(&self) -> (n: usize)
        ensures
            n == self@.len(),
    {
        self.inner.available_data()
    }

    /// The bytes in the buffer.
    pub fn data(&self) -> (data: &[u8])
        ensures
            data@ == self@,
    {
        self.inner.data()
    }

    /// Gives write access to the memory into which the source reads. As long as
    /// the buffer holds less than `MIN_BUFFER_SIZE` bytes, that memory is not
    /// empty, so a read that delivers nothing tells the end of the source.
    pub fn space(&mut self) -> (space: &mut [u8])
        requires
            old(self).wf(),
        ensures
            space@ == old(self).room(),
            old(self)@.len() < MIN_BUFFER_SIZE ==> space@.len() > 0,
            final(space)@.len() == space@.len(),
            final(self).wf(),
            final(self)@ == old(self)@,
            final(self).room() == final(space)@,
    {
        self.inner.space()
    }

    /// Appends the first `count` bytes of the memory that `space` gave access
    /// to, or all of them if there are fewer.
    pub fn fill(&mut self, count: usize)
        requires
            old(self).wf(),
        ensures
            final(self).wf(),
            final(self)@ == old(self)@ + old(self).room().take(
                least(count as int, old(self).room().len() as int),
            ),
    {
        self.inner.fill(count);
    }

    /// Drops `count` bytes from the front of the buffer, or all if there are
    /// fewer.
    pub fn consume(&mut self, count: usize)
        requires
            old(self).wf(),
        ensures
            final(self).wf(),
            final(self)@ == old(self)@.skip(least(count as int, old(self)@.len() as int)),
    {
        self.inner.consume(count);
    }
}

} // verus!
