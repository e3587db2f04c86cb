//! Descriptors and their pool.
//!
//! A descriptor is one reusable pair of payload buffer and raw address block,
//! known by its tag: its index in the pool. Both buffers are allocated once
//! and never change length, so memory that an operation in flight refers to
//! stays where it is. The pool does not know which descriptors have an
//! operation outstanding; its owner must not touch those.

use crate::address::{Endpoint, STORAGE_CAPACITY};
use vstd::prelude::*;

verus! {

/// A length that a descriptor's buffer cannot hold.
#[derive(Clone, Copy, Debug, PartialEq, Eq, Structural)]
pub struct CapacityExceeded {
    pub requested: usize,
    pub capacity: usize,
}

/// One buffer and address slot.
pub struct Descriptor {
    tag: usize,
    buffer: Vec<u8>,
    valid_length: usize,
    storage: Vec<u8>,
    endpoint: Option<Endpoint>,
}

/// A descriptor as contracts see it.
#[verifier::ext_equal]
pub struct DescriptorView {
    pub tag: usize,
    /// The whole payload buffer.
    pub buffer: Seq<u8>,
    /// How many bytes at the start of the buffer are a datagram.
    pub valid_length: usize,
    /// The raw address block.
    pub storage: Seq<u8>,
    /// The peer, once known.
    pub endpoint: Option<Endpoint>,
}

impl DescriptorView {
    /// The valid length is within the buffer, and the address block has room
    /// for any family.
    pub open spec fn valid(self) -> bool {
        &&& self.valid_length <= self.buffer.len()
        &&& self.storage.len() == STORAGE_CAPACITY
    }

    /// The datagram: the valid bytes of the buffer.
    pub open spec fn payload(self) -> Seq<u8> {
        self.buffer.take(self.valid_length as int)
    }

    /// The same descriptor with `payload` copied to the start of its buffer
    /// and declared the datagram.
    pub open spec fn filled(self, payload: Seq<u8>) -> DescriptorView {
        DescriptorView {
            buffer: payload + self.buffer.skip(payload.len() as int),
            valid_length: payload.len() as usize,
            ..self
        }
    }

    /// A descriptor that has not been used: all zeros, no datagram, no peer.
    pub open spec fn blank(tag: usize, capacity: usize) -> DescriptorView {
        DescriptorView {
            tag,
            buffer: Seq::new(capacity as nat, |i: int| 0u8),
            valid_length: 0,
            storage: Seq::new(STORAGE_CAPACITY as nat, |i: int| 0u8),
            endpoint: None,
        }
    }
}

impl View for Descriptor {
    type V = DescriptorView;

    closed spec fn view(&self) -> DescriptorView {
        DescriptorView {
            tag: self.tag,
            buffer: self.buffer@,
            valid_length: self.valid_length,
            storage: self.storage@,
            endpoint: self.endpoint,
        }
    }
}

impl Descriptor {
    /// What every descriptor of a pool satisfies.
    pub open spec fn wf(&self) -> bool {
        self@.valid()
    }

    /// A blank descriptor with a buffer of `capacity` bytes.
    fn new(tag: usize, capacity: usize) -> (descriptor: Descriptor)
        ensures
            descriptor.wf(),
            descriptor@ == DescriptorView::blank(tag, capacity),
    {
        let descriptor = Descriptor {
            tag,
            buffer: vec![0u8; capacity],
            valid_length: 0,
            storage: vec![0u8; STORAGE_CAPACITY],
            endpoint: None,
        };
        assert(descriptor@.buffer =~= DescriptorView::blank(tag, capacity).buffer);
        assert(descriptor@.storage =~= DescriptorView::blank(tag, capacity).storage);
        descriptor
    }

    /// The descriptor's index in its pool.
    pub fn tag(&self) -> (tag: usize)
        ensures
            tag == self@.tag,
    {
        self.tag
    }

    /// The length of the payload buffer.
    pub fn capacity(&self) -> (capacity: usize)
        ensures
            capacity == self@.buffer.len(),
    {
        self.buffer.len()
    }

    /// How many bytes at the start of the buffer are a datagram.
    pub fn valid_length(&self) -> (length: usize)
        ensures
            length == self@.valid_length,
    {
        self.valid_length
    }

    /// The peer, once known.
    pub fn endpoint(&self) -> (endpoint: Option<Endpoint>)
        ensures
            endpoint == self@.endpoint,
    {
        self.endpoint
    }

    /// The whole payload buffer.
    pub fn buffer(&self) -> (bytes: &[u8])
        ensures
            bytes@ == self@.buffer,
    {
        self.buffer.as_slice()
    }

    /// The raw address block.
    pub fn storage(&self) -> (bytes: &[u8])
        ensures
            bytes@ == self@.storage,
    {
        self.storage.as_slice()
    }

    /// The datagram: a copy of the valid bytes of the buffer.
    pub fn payload(&self) -> (bytes: Vec<u8>)
        requires
            self.wf(),
        ensures
            bytes@ == self@.payload(),
    {
        let mut bytes: Vec<u8> = Vec::new();
        let mut i: usize = 0;
        while i < self.valid_length
            invariant
                self.wf(),
                i <= self.valid_length,
                bytes@ == self.buffer@.take(i as int),
            decreases self.valid_length - i,
        {
            bytes.push(self.buffer[i]);
            i += 1;
            assert(self.buffer@.take(i as int) =~= self.buffer@.take(i - 1).push(
                self.buffer@[i - 1],
            ));
        }
        bytes
    }

    /// The payload buffer, to be written in place.
    pub fn buffer_mut(&mut self) -> (bytes: &mut [u8])
        ensures
            bytes@ == old(self)@.buffer,
            final(self)@ == (DescriptorView { buffer: final(bytes)@, ..old(self)@ }),
    {
        self.buffer.as_mut_slice()
    }

    /// The raw address block, to be written in place.
    pub fn storage_mut(&mut self) -> (bytes: &mut [u8])
        ensures
            bytes@ == old(self)@.storage,
            final(self)@ == (DescriptorView { storage: final(bytes)@, ..old(self)@ }),
    {
        self.storage.as_mut_slice()
    }

    /// Declares the first `length` bytes of the buffer a datagram. A length
    /// beyond the buffer is refused and changes nothing.
    pub fn set_valid_length(&mut self, length: usize) -> (result: Result<(), CapacityExceeded>)
        ensures
            match result {
                Ok(()) => length <= old(self)@.buffer.len() && final(self)@ == (DescriptorView {
                    valid_length: length,
                    ..old(self)@
                }),
                Err(error) => {
                    &&& length > old(self)@.buffer.len()
                    &&& final(self)@ == old(self)@
                    &&& error.requested == length
                    &&& error.capacity == old(self)@.buffer.len()
                },
            },
    {
        if length <= self.buffer.len() {
            self.valid_length = length;
            Ok(())
        } else {
            Err(CapacityExceeded { requested: length, capacity: self.buffer.len() })
        }
    }

    /// Records or forgets the peer.
    pub fn set_endpoint(&mut self, endpoint: Option<Endpoint>)
        ensures
            final(self)@ == (DescriptorView { endpoint, ..old(self)@ }),
    {
        self.endpoint = endpoint;
    }

    /// Copies `payload` to the start of the buffer and declares it the
    /// datagram. A payload longer than the buffer is refused and changes
    /// nothing.
    pub fn fill(&mut self, payload: &[u8]) -> (result: Result<(), CapacityExceeded>)
        ensures
            match result {
                Ok(()) => {
                    &&& payload@.len() <= old(self)@.buffer.len()
                    &&& final(self)@ == old(self)@.filled(payload@)
                    &&& final(self)@.valid_length == payload@.len()
                },
                Err(error) => {
                    &&& payload@.len() > old(self)@.buffer.len()
                    &&& final(self)@ == old(self)@
                    &&& error.requested == payload@.len()
                    &&& error.capacity == old(self)@.buffer.len()
                },
            },
    {
        let length = payload.len();
        if length > self.buffer.len() {
            return Err(CapacityExceeded { requested: length, capacity: self.buffer.len() });
        }
        let mut i: usize = 0;
        while i < length
            invariant
                i <= length,
                length == payload@.len(),
                length <= self.buffer@.len(),
                self.buffer@.len() == old(self).buffer@.len(),
                self.tag == old(self).tag,
                self.valid_length == old(self).valid_length,
                self.storage == old(self).storage,
                self.endpoint == old(self).endpoint,
                forall|j: int| 0 <= j < i ==> self.buffer@[j] == payload@[j],
                forall|j: int| i <= j < self.buffer@.len() ==> self.buffer@[j] == old(
                    self,
                ).buffer@[j],
            decreases length - i,
        {
            self.buffer[i] = payload[i];
            i += 1;
        }
        self.valid_length = length;
        assert(self.buffer@ =~= payload@ + old(self)@.buffer.skip(payload@.len() as int));
        assert(self@ =~= old(self)@.filled(payload@));
        Ok(())
    }
}

/// Why a payload was not copied into a pool.
#[derive(Clone, Copy, Debug, PartialEq, Eq, Structural)]
pub enum FillError {
    /// The pool has no descriptor with this tag.
    NoSuchTag(usize),
    /// The payload is longer than the descriptor's buffer.
    TooLong(CapacityExceeded),
}

/// A fixed set of descriptors, each with a buffer of the same capacity.
pub struct Pool {
    slots: Vec<Descriptor>,
    buffer_capacity: usize,
}

impl View for Pool {
    type V = Seq<DescriptorView>;

    open spec fn view(&self) -> Seq<DescriptorView> {
        Seq::new(self.size(), |tag: int| self.slot(tag)@)
    }
}

impl Pool {
    /// How many descriptors the pool holds.
    pub closed spec fn size(&self) -> nat {
        self.slots@.len()
    }

    /// The capacity that every buffer was allocated with.
    pub closed spec fn spec_buffer_capacity(&self) -> usize {
        self.buffer_capacity
    }

    /// The descriptor with tag `tag`.
    pub closed spec fn slot(&self, tag: int) -> Descriptor {
        self.slots@[tag]
    }

    /// Every descriptor sits at its tag, is well formed and has a buffer of
    /// the pool's capacity.
    pub open spec fn wf(&self) -> bool {
        forall|tag: int|
            0 <= tag < self.size() ==> {
                &&& (#[trigger] self.slot(tag)).wf()
                &&& self.slot(tag)@.tag == tag
                &&& self.slot(tag)@.buffer.len() == self.spec_buffer_capacity()
            }
    }

    /// Allocates `batch_size` blank descriptors, each with a zeroed buffer of
    /// `buffer_capacity` bytes.
    pub fn allocate(batch_size: usize, buffer_capacity: usize) -> (pool: Pool)
        ensures
            pool.wf(),
            pool.size() == batch_size,
            pool.spec_buffer_capacity() == buffer_capacity,
            forall|tag: int|
                0 <= tag < batch_size ==> (#[trigger] pool.slot(tag))@ == DescriptorView::blank(
                    tag as usize,
                    buffer_capacity,
                ),
    {
        let mut slots: Vec<Descriptor> = Vec::new();
        let mut tag: usize = 0;
        while tag < batch_size
            invariant
                tag <= batch_size,
                slots@.len() == tag,
                forall|i: int|
                    0 <= i < tag ==> (#[trigger] slots@[i])@ == DescriptorView::blank(
                        i as usize,
                        buffer_capacity,
                    ),
            decreases batch_size - tag,
        {
            slots.push(Descriptor::new(tag, buffer_capacity));
            tag += 1;
        }
        Pool { slots, buffer_capacity }
    }

    /// How many descriptors the pool holds.
    pub fn len(&self) -> (count: usize)
        ensures
            count == self.size(),
    {
        self.slots.len()
    }

    /// The capacity that every buffer was allocated with.
    #[verifier::when_used_as_spec(spec_buffer_capacity)]
    pub fn buffer_capacity(&self) -> (capacity: usize)
        ensures
            capacity == self.spec_buffer_capacity(),
    {
        self.buffer_capacity
    }

    /// The descriptor with tag `tag`, to read.
    pub fn peek(&self, tag: usize) -> (descriptor: Option<&Descriptor>)
        ensures
            match descriptor {
                Some(descriptor) => tag < self.size() && *descriptor == self.slot(tag as int),
                None => tag >= self.size(),
            },
    {
        if tag < self.slots.len() {
            Some(&self.slots[tag])
        } else {
            None
        }
    }

    /// The descriptor with tag `tag`, to change in place. No other
    /// descriptor changes.
    pub(crate) fn at(&mut self, tag: usize) -> (descriptor: &mut Descriptor)
        requires
            tag < old(self).size(),
        ensures
            final(self).size() == old(self).size(),
            final(self).spec_buffer_capacity() == old(self).spec_buffer_capacity(),
            forall|other: int|
                0 <= other < old(self).size() && other != tag ==> final(self).slot(other) == old(
                    self,
                ).slot(other),
            *descriptor == old(self).slot(tag as int),
            final(self).slot(tag as int) == *final(descriptor),
    {
        &mut self.slots[tag]
    }

    /// The descriptor with tag `tag`, to change in place; none for a tag
    /// beyond the pool. The caller must not ask while an operation on that
    /// tag is outstanding. No other descriptor changes.
    pub fn get(&mut self, tag: usize) -> (descriptor: Option<&mut Descriptor>)
        ensures
            final(self).size() == old(self).size(),
            final(self).spec_buffer_capacity() == old(self).spec_buffer_capacity(),
            forall|other: int|
                0 <= other < old(self).size() && other != tag ==> final(self).slot(other) == old(
                    self,
                ).slot(other),
            match descriptor {
                Some(descriptor) => {
                    &&& tag < old(self).size()
                    &&& *descriptor == old(self).slot(tag as int)
                    &&& final(self).slot(tag as int) == *final(descriptor)
                },
                None => tag >= old(self).size() && *final(self) == *old(self),
            },
    {
        if tag < self.slots.len() {
            Some(self.at(tag))
        } else {
            None
        }
    }
}

impl Pool {
    /// Copies `payload` into the descriptor with tag `tag` and declares it
    /// the datagram. A tag beyond the pool or a payload longer than the
    /// buffer is refused and changes nothing.
    pub fn fill(&mut self, tag: usize, payload: &[u8]) -> (result: Result<(), FillError>)
        requires
            old(self).wf(),
        ensures
            final(self).wf(),
            final(self).size() == old(self).size(),
            final(self).spec_buffer_capacity() == old(self).spec_buffer_capacity(),
            match result {
                Ok(()) => {
                    &&& tag < old(self).size()
                    &&& payload@.len() <= old(self).spec_buffer_capacity()
                    &&& final(self)@ == old(self)@.update(
                        tag as int,
                        old(self)@[tag as int].filled(payload@),
                    )
                    &&& final(self)@[tag as int].valid_length == payload@.len()
                },
                Err(FillError::NoSuchTag(missing)) => missing == tag && tag >= old(self).size()
                    && final(self)@ == old(self)@,
                Err(FillError::TooLong(excess)) => {
                    &&& tag < old(self).size()
                    &&& payload@.len() > old(self).spec_buffer_capacity()
                    &&& excess.requested == payload@.len()
                    &&& excess.capacity == old(self).spec_buffer_capacity()
                    &&& final(self)@ == old(self)@
                },
            },
    {
        let outcome = match self.get(tag) {
            None => Err(FillError::NoSuchTag(tag)),
            Some(descriptor) => match descriptor.fill(payload) {
                Ok(()) => Ok(()),
                Err(excess) => Err(FillError::TooLong(excess)),
            },
        };
        proof {
            if tag < old(self).size() {
                assert(final(self).slot(tag as int).wf());
            }
            match outcome {
                Ok(()) => {
                    assert(final(self)@ =~= old(self)@.update(
                        tag as int,
                        old(self)@[tag as int].filled(payload@),
                    ));
                },
                Err(_) => {
                    assert(final(self)@ =~= old(self)@);
                },
            }
        }
        outcome
    }
}

} // verus!
