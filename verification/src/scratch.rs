//! A pool of byte buffers that decoding reuses.

use vstd::prelude::*;

use crate::stream::OwnedStream;

verus! {

/// Byte buffers that are free for reuse. Every pooled buffer is empty.
pub struct DecodeScratch {
    byte_buffers: Vec<Vec<u8>>,
}

/// Returns how many bytes `Vec::capacity` says that `buffer` can hold without
/// growing. That is at least its length; what an allocator gives beyond it is
/// not stated.
#[verifier::external_body]
pub(crate) fn buffer_capacity(buffer: &Vec<u8>) -> (capacity: usize)
    ensures
        capacity >= buffer@.len(),
{
    buffer.capacity()
}

/// Finds the first buffer with room for `capacity` bytes, where `capacities` says how many
/// bytes each buffer can hold.
pub fn find_fitting_buffer(capacities: &[usize], capacity: usize) -> (found: Option<usize>)
    ensures
        match found {
            Some(index) => index < capacities@.len() && capacities@[index as int] >= capacity
                && forall|i: int| 0 <= i < index ==> #[trigger] capacities@[i] < capacity,
            None => forall|i: int|
                0 <= i < capacities@.len() ==> #[trigger] capacities@[i] < capacity,
        },
{
    let mut index: usize = 0;
    while index < capacities.len()
        invariant
            index <= capacities@.len(),
            forall|i: int| 0 <= i < index ==> #[trigger] capacities@[i] < capacity,
        decreases capacities@.len() - index,
    {
        if capacities[index] >= capacity {
            return Some(index);
        }
        index = index + 1;
    }
    None
}

impl DecodeScratch {
    /// The number of buffers in the pool.
    pub closed spec fn pooled(self) -> nat {
        self.byte_buffers@.len()
    }

    /// Every pooled buffer is empty.
    pub closed spec fn well_formed(self) -> bool {
        forall|i: int|
            0 <= i < self.byte_buffers@.len() ==> (#[trigger] self.byte_buffers@[i])@.len() == 0
    }

    pub fn new() -> (scratch: Self)
        ensures
            scratch.pooled() == 0,
            scratch.well_formed(),
    {
        DecodeScratch { byte_buffers: Vec::new() }
    }

    /// Takes an empty buffer: the first pooled one that can hold `capacity`
    /// bytes without growing, or else a new one with room for them, as far as
    /// memory allows. Every buffer has room for zero bytes, so where `capacity` is
    /// zero a pooled one is taken if there is any.
    pub fn take_byte_buffer(&mut self, capacity: usize) -> (buffer: Vec<u8>)
        requires
            old(self).well_formed(),
        ensures
            buffer@ == Seq::<u8>::empty(),
            final(self).well_formed(),
            final(self).pooled() == old(self).pooled() || final(self).pooled() + 1 == old(
                self,
            ).pooled(),
            capacity == 0 && old(self).pooled() > 0 ==> final(self).pooled() + 1 == old(
                self,
            ).pooled(),
    {
        let mut capacities: Vec<usize> = Vec::new();
        while capacities.len() < self.byte_buffers.len()
            invariant
                capacities@.len() <= self.byte_buffers@.len(),
            decreases self.byte_buffers@.len() - capacities@.len(),
        {
            capacities.push(buffer_capacity(&self.byte_buffers[capacities.len()]));
        }
        if let Some(index) = find_fitting_buffer(capacities.as_slice(), capacity) {
            let mut buffer = self.byte_buffers.swap_remove(index);
            buffer.clear();
            return buffer;
        }
        proof {
            assert(self.byte_buffers@.len() > 0 ==> capacities@[0] < capacity);
        }
        let mut buffer: Vec<u8> = Vec::new();
        let _reserved = buffer.try_reserve(capacity);
        buffer
    }

    /// Returns the buffer of a consumed stream to the pool, where it came from
    /// there.
    pub fn recycle_owned_stream(&mut self, stream: OwnedStream)
        requires
            old(self).well_formed(),
        ensures
            final(self).well_formed(),
            final(self).pooled() == old(self).pooled() + (if stream.recyclable {
                1nat
            } else {
                0nat
            }),
    {
        if stream.recyclable {
            self.recycle_byte_buffer(stream.bytes);
        }
    }

    /// Puts a buffer into the pool, emptied.
    pub fn recycle_byte_buffer(&mut self, buffer: Vec<u8>)
        requires
            old(self).well_formed(),
        ensures
            final(self).well_formed(),
            final(self).pooled() == old(self).pooled() + 1,
    {
        let mut buffer = buffer;
        buffer.clear();
        self.byte_buffers.push(buffer);
    }
}

} // verus!
