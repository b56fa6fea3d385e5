//! A ring buffer of log messages.
//!
//! A producer reserves room for a message, writes its payload into the reservation and then
//! commits or finalizes it together with the message's metadata. Readers look messages up by
//! their sequence number.

pub mod descriptor;
pub mod powers;
pub mod ringbuffer;

pub use descriptor::{DescriptorId, DescriptorState, DescriptorStateId};
pub use ringbuffer::{
    CommittedMessage, Descriptor, Message, Metadata, ReservedMessage, Ringbuffer, BASE_SEQUENCE,
    BLOCK_ALIGN, HEADER_SIZE,
};

use vstd::prelude::*;

verus! {

/// A [`Ringbuffer`] that holds its own buffers.
pub type AllocatedRingBuffer<M> = Ringbuffer<M>;

} // verus!
