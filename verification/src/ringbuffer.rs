//! The ring buffer of log messages.
//!
//! Every message owns one descriptor, found at index `sequence % descriptor_count`, and an
//! optional block in the data area. A block starts with a header that holds the descriptor id
//! (the `HEADER_SIZE` bytes of the id, least significant first), followed by the payload. A block
//! never straddles the end of the data area: a block that would is placed at the start of the
//! next lap, and its header is written both at the original position and at the start of the
//! area.
//!
//! A message's data is still there while no later block has claimed a byte of its payload,
//! with its header or its payload. A read hands out the payload only then; otherwise only the
//! metadata is left. The payload of an open reservation is written into its block when it is
//! committed or finalized, and only if its data is still there: it never overwrites a newer
//! block. Each committed or finalized message remembers, as ghost state, the payload its block
//! held then.
//!
//! The buffer is owned by one party at a time: each operation completes before the next one
//! starts, so every compare-and-exchange below sees the value it expects unless the descriptor
//! is in a different state.
//!
//! Descriptors are handed out in order of their ids; a descriptor is never reused, so at most
//! `descriptor_count - 1` messages are ever reserved in one buffer.

use crate::descriptor::{
    code_state, id_space, lemma_id_space, lemma_pack, lemma_sequence_id, lemma_unpack, pack,
    word_space, AtomicDescriptorId, AtomicDescriptorStateId, DescriptorId,
    DescriptorState, DescriptorStateId,
};
use crate::powers::{
    is_power_of_two, lemma_mod_of_mod, lemma_multiple_below, lemma_power_of_two_divides,
    lemma_power_of_two_gap, lemma_spaces, lemma_word_bytes, sequence_space,
};
use vstd::arithmetic::div_mod::{
    lemma_fundamental_div_mod, lemma_fundamental_div_mod_converse, lemma_mod_multiples_vanish,
};
use vstd::prelude::*;

verus! {

/// The sequence number of the first message.
pub const BASE_SEQUENCE: u64 = 0;

/// Size of a block header: the descriptor id, stored as a machine word.
pub const HEADER_SIZE: usize = (usize::BITS / 8) as usize;

/// Blocks start and end on multiples of this alignment.
pub const BLOCK_ALIGN: usize = (usize::BITS / 8) as usize;

/// Data associated with a particular [`Message`].
pub trait Metadata: Copy {

}

/// Internal data associated with a particular message.
pub struct Descriptor {
    state_id: AtomicDescriptorStateId,
    logical_start: usize,
    logical_end: usize,
    sequence: u64,
}

/// A log message, with its associated sequence number, metadata, and the extracted part of the
/// data buffer.
pub struct Message<'buffer, M: Metadata> {
    /// The sequence number of the [`Message`].
    pub sequence: u64,
    /// Associated [`Metadata`] of the [`Message`].
    pub metadata: M,
    /// Extracted portion of the data buffer associated with this [`Message`].
    ///
    /// If `None`, then the message was missing its associated data.
    pub buffer: Option<&'buffer mut [u8]>,
}

/// A reserved segment of the [`Ringbuffer`]: the message's sequence number and the bytes of its
/// payload, which are written into the buffer when the message is committed or finalized, unless
/// a later block has claimed part of its block by then.
pub struct ReservedMessage {
    sequence: u64,
    buffer: Vec<u8>,
}

/// A committed [`Message`].
pub struct CommittedMessage<M: Metadata> {
    sequence: u64,
    metadata: M,
}

/// How the descriptor that a sequence number maps to relates to that sequence number.
#[derive(Clone, Copy, Debug, PartialEq, Eq, Structural)]
pub enum Probe {
    /// The descriptor holds the finalized message with this sequence number.
    Finalized,
    /// The descriptor is empty and carries this sequence number's id.
    Missing,
    /// Anything else.
    Other,
}

/// A ring buffer of log messages.
pub struct Ringbuffer<M: Metadata> {
    /// Size of the data area, a power of two.
    data_capacity: usize,
    /// The data area.
    data_buffer: Vec<u8>,
    /// Logical position at which the next block goes.
    logical_start: usize,
    /// Number of descriptors, a power of two.
    descriptor_count: usize,
    /// The descriptors; message `s` uses descriptor `s % descriptor_count`.
    descriptor_buffer: Vec<Descriptor>,
    /// The metadata of each descriptor's message, once committed or finalized.
    metadata_buffer: Vec<Option<M>>,
    /// Id of the newest reserved descriptor.
    descriptor_id_start: AtomicDescriptorId,
    /// Id of the oldest descriptor.
    descriptor_id_end: AtomicDescriptorId,
    /// Sequence number recorded as the last finalized one.
    last_finalized_sequence: u64,
    /// Set while no message is finalized; the first finalized message clears it.
    empty: bool,
    /// The payload each descriptor's message was stored with, as its block held it then.
    stored: Ghost<Seq<Seq<u8>>>,
}

/// The byte of a block header at offset `j`: byte `j` of the id, least significant first.
pub open spec fn header_byte(id: usize, j: int) -> u8 {
    (id >> ((8 * j) as usize)) as u8
}

/// `data` with a block header for `id` written at `pos`.
pub open spec fn with_header(data: Seq<u8>, pos: int, id: usize) -> Seq<u8> {
    Seq::new(
        data.len(),
        |x: int|
            if pos <= x < pos + HEADER_SIZE as int {
                header_byte(id, x - pos)
            } else {
                data[x]
            },
    )
}

/// `data` with `bytes` written at `pos`.
pub open spec fn with_bytes(data: Seq<u8>, pos: int, bytes: Seq<u8>) -> Seq<u8> {
    Seq::new(
        data.len(),
        |x: int|
            if pos <= x < pos + bytes.len() {
                bytes[x - pos]
            } else {
                data[x]
            },
    )
}

/// Whether the ranges `[a, b)` and `[c, d)` share an index; an empty range shares none.
pub open spec fn overlaps(a: int, b: int, c: int, d: int) -> bool {
    a < b && c < d && a < d && c < b
}

/// The smaller of two integers.
pub open spec fn min(a: int, b: int) -> int {
    if a <= b {
        a
    } else {
        b
    }
}

/// `buffer` with its first bytes replaced by the payload `data[start..end)`, as far as both
/// reach.
pub open spec fn extract(data: Seq<u8>, start: int, end: int, buffer: Seq<u8>) -> Seq<u8> {
    let n = min(buffer.len() as int, end - start);
    Seq::new(
        buffer.len(),
        |j: int|
            if j < n {
                data[start + j]
            } else {
                buffer[j]
            },
    )
}

/// `x` rounded up to a multiple of `m`.
pub open spec fn round_up(x: int, m: int) -> int {
    if x % m == 0 {
        x
    } else {
        x + (m - x % m)
    }
}

/// The size of the block for a message of `size` bytes: header and payload, rounded up to the
/// block alignment; `None` where that does not fit in a `usize`.
pub open spec fn block_size(size: usize) -> Option<usize> {
    let with_header = size + HEADER_SIZE;
    if with_header > usize::MAX {
        None
    } else if round_up(with_header, BLOCK_ALIGN as int) > usize::MAX {
        None
    } else {
        Some(round_up(with_header, BLOCK_ALIGN as int) as usize)
    }
}

/// Whether a buffer of `capacity` bytes takes a message of `size` bytes: its block size is
/// defined, and a block with a payload takes at most half the buffer.
pub open spec fn size_accepted(size: usize, capacity: int) -> bool {
    match block_size(size) {
        Some(b) => size == 0 || b <= capacity / 2,
        None => false,
    }
}

/// `a + b` wrapped to a `usize`.
pub open spec fn wrapped_add(a: usize, b: usize) -> usize {
    if a + b > usize::MAX {
        (a + b - word_space()) as usize
    } else {
        (a + b) as usize
    }
}

/// `a - 1` wrapped to a `usize`.
pub open spec fn wrapped_decrement(a: usize) -> usize {
    if a == 0 {
        usize::MAX
    } else {
        (a - 1) as usize
    }
}

/// The end position of a block of `size` bytes placed at logical position `start`: the block
/// follows `start` if its last byte stays in the lap of `start`, else it goes to the start of
/// the next lap.
pub open spec fn placed_end(start: usize, size: usize, capacity: int) -> usize {
    let end = wrapped_add(start, size);
    if start as int / capacity == wrapped_decrement(end) as int / capacity {
        end
    } else {
        ((end as int / capacity) * capacity + size) as usize
    }
}

/// The payload of the block between the logical positions `start` and `end`, as a range of
/// indices into the data area. The header of the block lies just before the payload.
pub open spec fn payload_range(start: usize, end: usize, capacity: int) -> (int, int) {
    if start == end {
        (0, 0)
    } else if start as int / capacity == wrapped_decrement(end) as int / capacity {
        (start as int % capacity + HEADER_SIZE as int, wrapped_decrement(end) as int % capacity + 1)
    } else {
        (HEADER_SIZE as int, end as int % capacity)
    }
}

/// The sequence number that `s` reaches by counting up to the next multiple of `id_space()`.
pub open spec fn next_round(s: u64) -> u64 {
    ((s as int + id_space() - s as int % id_space()) % sequence_space()) as u64
}

impl Descriptor {
    /// A descriptor carrying `id` in the state `MissingData`, with sequence number `sequence`.
    fn missing(id: DescriptorId, sequence: u64) -> (r: Self)
        ensures
            r.state_id.0 == pack(id.0, DescriptorState::MissingData),
            r.sequence == sequence,
            r.logical_start == 0,
            r.logical_end == 0,
    {
        Descriptor {
            state_id: AtomicDescriptorStateId::new(
                DescriptorStateId::new(id, DescriptorState::MissingData),
            ),
            logical_start: 0,
            logical_end: 0,
            sequence,
        }
    }
}

impl<M: Metadata> Ringbuffer<M> {
    /// Size of the data area.
    pub closed spec fn capacity(&self) -> int {
        self.data_capacity as int
    }

    /// Number of descriptors.
    pub closed spec fn count(&self) -> int {
        self.descriptor_count as int
    }

    /// Number of messages reserved so far; message `i` has sequence number `i`.
    pub closed spec fn reserved(&self) -> int {
        (self.descriptor_id_start.0 as int + 1) % id_space()
    }

    /// The sequence number recorded as the last finalized one.
    pub closed spec fn last_finalized(&self) -> u64 {
        self.last_finalized_sequence
    }

    /// The bytes of the data area.
    pub closed spec fn contents(&self) -> Seq<u8> {
        self.data_buffer@
    }

    /// The logical position at which the next block goes.
    pub closed spec fn position(&self) -> usize {
        self.logical_start
    }

    /// State of message `i`.
    pub closed spec fn slot_state(&self, i: int) -> DescriptorState {
        code_state(self.descriptor_buffer@[i].state_id.0 as int / id_space())
    }

    /// Metadata stored for message `i`.
    pub closed spec fn slot_metadata(&self, i: int) -> Option<M> {
        self.metadata_buffer@[i]
    }

    /// Logical start and end positions of the block of message `i`.
    pub closed spec fn slot_block(&self, i: int) -> (usize, usize) {
        (self.descriptor_buffer@[i].logical_start, self.descriptor_buffer@[i].logical_end)
    }

    /// Range of the data area that holds the payload of message `i`.
    pub closed spec fn payload(&self, i: int) -> (int, int) {
        payload_range(
            self.descriptor_buffer@[i].logical_start,
            self.descriptor_buffer@[i].logical_end,
            self.capacity(),
        )
    }

    /// The payload message `i` was committed or finalized with, as its block held it then.
    pub closed spec fn stored_payload(&self, i: int) -> Seq<u8> {
        self.stored@[i]
    }

    /// Whether the block of message `j` has a header or payload byte in `[lo, hi)` of the data
    /// area.
    pub open spec fn claims(&self, j: int, lo: int, hi: int) -> bool {
        let block = self.slot_block(j);
        let header = block.0 as int % self.capacity();
        &&& block.0 != block.1
        &&& (overlaps(header, header + HEADER_SIZE, lo, hi) || overlaps(
            self.payload(j).0 - HEADER_SIZE,
            self.payload(j).1,
            lo,
            hi,
        ))
    }

    /// Whether no later block has claimed a byte of the payload of message `i`: its data is
    /// still there.
    pub open spec fn intact(&self, i: int) -> bool {
        forall|j: int|
            i < j < self.reserved() ==> !#[trigger] self.claims(j, self.payload(i).0, self.payload(i).1)
    }

    /// Whether message `i` is finalized and its data is still there.
    pub open spec fn is_valid(&self, i: int) -> bool {
        self.is_finalized(i) && self.intact(i)
    }

    /// Whether some message is valid.
    pub open spec fn any_valid(&self) -> bool {
        exists|i: int| self.is_valid(i)
    }

    /// A committed or finalized message whose data is still there has its stored payload in its
    /// block.
    closed spec fn payload_kept(&self, i: int) -> bool {
        (self.slot_state(i) == DescriptorState::Committed || self.slot_state(i)
            == DescriptorState::Finalized) && 0 <= i < self.reserved() && self.intact(i)
            ==> self.contents().subrange(self.payload(i).0, self.payload(i).1) == self.stored@[i]
    }

    /// Every committed or finalized message whose data is still there has its stored payload in
    /// its block.
    closed spec fn payloads_kept(&self) -> bool {
        forall|i: int| #[trigger] self.payload_kept(i)
    }

    /// Whether the header in front of the payload of message `i` still carries the id of
    /// message `i`; a message without a block has no header to lose.
    pub open spec fn header_intact(&self, i: int) -> bool {
        let p = self.payload(i).0;
        ||| self.slot_block(i).0 == self.slot_block(i).1
        ||| self.contents().subrange(p - HEADER_SIZE as int, p) == Seq::new(
            HEADER_SIZE as nat,
            |j: int| header_byte(i as usize, j),
        )
    }

    /// The payload of message `i` is the payload of its block.
    pub proof fn lemma_payload(&self, i: int)
        ensures
            self.payload(i) == payload_range(self.slot_block(i).0, self.slot_block(i).1, self.capacity()),
    {
    }

    /// Whether some message is finalized.
    pub open spec fn any_finalized(&self) -> bool {
        exists|s: int| self.is_finalized(s)
    }

    /// Whether message `s` exists and is finalized.
    pub open spec fn is_finalized(&self, s: int) -> bool {
        0 <= s < self.reserved() && self.slot_state(s) == DescriptorState::Finalized
    }

    /// Whether the descriptor of sequence number `s` has not been reserved in the id round of
    /// `s`: those descriptors are empty and carry the id of `s`.
    pub open spec fn in_missing_run(&self, s: u64) -> bool {
        s as int % id_space() >= id_space() - self.count() + self.reserved()
    }

    /// The message a read of sequence number `s` returns: `s` itself where it is finalized;
    /// past empty descriptors, the first sequence number of the next id round where that one is
    /// finalized; else none.
    pub open spec fn read_target(&self, s: u64) -> Option<u64> {
        if self.is_finalized(s as int) {
            Some(s)
        } else if self.in_missing_run(s) && self.is_finalized(next_round(s) as int) {
            Some(next_round(s))
        } else {
            None
        }
    }

    /// The end of the run of finalized messages that follows message `s`: the largest `t >= s`
    /// such that all messages after `s` up to `t` are finalized.
    pub open spec fn finalized_run_end(&self, s: int) -> int
        decreases self.reserved() - s,
    {
        if s + 1 < self.reserved() && self.slot_state(s + 1) == DescriptorState::Finalized {
            self.finalized_run_end(s + 1)
        } else {
            s
        }
    }

    /// What a descriptor at index `i` holds while no message has used it.
    closed spec fn fresh_slot(&self, i: int) -> bool {
        let d = self.descriptor_buffer@[i];
        &&& d.state_id.0 as int == id_space() - self.count() + i
        &&& d.sequence as int == sequence_space() - self.count() + i
        &&& self.metadata_buffer@[i] is None
    }

    /// What a descriptor at index `i` holds once message `i` was reserved.
    closed spec fn used_slot(&self, i: int) -> bool {
        let d = self.descriptor_buffer@[i];
        let (p, q) = self.payload(i);
        &&& d.state_id.0 as int % id_space() == i
        &&& self.slot_state(i) != DescriptorState::MissingData
        &&& d.sequence == i
        &&& 0 <= p <= q <= self.capacity()
        &&& d.logical_start != d.logical_end ==> HEADER_SIZE <= p
        &&& (self.metadata_buffer@[i] is Some <==> self.slot_state(i) != DescriptorState::Reserved)
    }

    /// The invariant of a buffer's fields.
    closed spec fn inv(&self) -> bool {
        let cap = self.capacity();
        let count = self.count();
        &&& is_power_of_two(cap)
        &&& is_power_of_two(count)
        &&& count <= id_space() / 4
        &&& self.data_buffer@.len() == cap
        &&& self.descriptor_buffer@.len() == count
        &&& self.metadata_buffer@.len() == count
        &&& self.stored@.len() == count
        &&& self.empty_flag_ok()
        &&& self.descriptor_id_end.0 == id_space() - 1
        &&& self.descriptor_id_start.0 < id_space()
        &&& self.reserved() < count
        &&& (self.last_finalized_sequence == 0 || self.last_finalized_sequence < self.reserved())
        &&& (cap >= HEADER_SIZE ==> self.logical_start % HEADER_SIZE == 0)
        &&& forall|i: int| 0 <= i < count ==> #[trigger] self.slot_ok(i)
    }

    /// The invariant of a buffer: its fields are in order, the message after the last finalized
    /// sequence number is not finalized, as every finalization moves that number past the
    /// finalized messages that follow it, and each committed or finalized message whose data is
    /// still there has its stored payload in its block.
    pub closed spec fn wf(&self) -> bool {
        &&& self.inv()
        &&& !self.is_finalized(self.last_finalized_sequence as int + 1)
        &&& self.payloads_kept()
    }

    /// The `empty` flag is set exactly while no message is finalized.
    #[verifier::opaque]
    closed spec fn empty_flag_ok(&self) -> bool {
        self.empty == !self.any_finalized()
    }

    /// In a well-formed buffer the `empty` flag is set exactly while no message is finalized.
    proof fn lemma_empty_flag(&self)
        requires
            self.inv(),
        ensures
            self.empty == !self.any_finalized(),
    {
        reveal(Ringbuffer::empty_flag_ok);
    }

    /// Two buffers that agree on which messages are finalized, except at `j` where neither has
    /// a finalized message, agree on whether some message is finalized.
    proof fn lemma_any_finalized_same(a: &Self, b: &Self, j: int)
        requires
            forall|i: int| i != j ==> a.is_finalized(i) == b.is_finalized(i),
            !a.is_finalized(j),
            !b.is_finalized(j),
        ensures
            a.any_finalized() == b.any_finalized(),
    {
        if a.any_finalized() {
            let w = choose|i: int| a.is_finalized(i);
            assert(b.is_finalized(w));
        }
        if b.any_finalized() {
            let w = choose|i: int| b.is_finalized(i);
            assert(a.is_finalized(w));
        }
    }

    /// Descriptor `i` is used or fresh according to whether message `i` was reserved.
    closed spec fn slot_ok(&self, i: int) -> bool {
        if i < self.reserved() {
            self.used_slot(i)
        } else {
            self.fresh_slot(i)
        }
    }

    /// A buffer that agrees with a well-formed buffer in everything but descriptor `j`, its
    /// metadata, the data bytes, the logical position and the count of reserved messages, and
    /// whose descriptor `j` is in order, is well-formed.
    proof fn lemma_wf_transfer(a: &Self, b: &Self, j: int)
        requires
            a.inv(),
            0 <= j < a.count(),
            b.data_capacity == a.data_capacity,
            b.descriptor_count == a.descriptor_count,
            b.data_buffer@.len() == a.data_buffer@.len(),
            b.descriptor_buffer@.len() == a.descriptor_buffer@.len(),
            b.metadata_buffer@.len() == a.metadata_buffer@.len(),
            b.stored@.len() == a.stored@.len(),
            b.empty == !b.any_finalized(),
            b.descriptor_id_end == a.descriptor_id_end,
            b.descriptor_id_start.0 < id_space(),
            b.reserved() < b.count(),
            b.last_finalized_sequence == 0 || b.last_finalized_sequence < b.reserved(),
            b.capacity() >= HEADER_SIZE ==> b.logical_start % HEADER_SIZE == 0,
            forall|i: int|
                0 <= i < a.count() && i != j ==> {
                    &&& b.descriptor_buffer@[i] == a.descriptor_buffer@[i]
                    &&& b.metadata_buffer@[i] == a.metadata_buffer@[i]
                    &&& (i < b.reserved() <==> i < a.reserved())
                },
            b.slot_ok(j),
        ensures
            b.inv(),
    {
        reveal(Ringbuffer::empty_flag_ok);
        assert forall|i: int| 0 <= i < b.count() implies #[trigger] b.slot_ok(i) by {
            if i != j {
                assert(a.slot_ok(i));
            }
        }
    }

    proof fn lemma_wf_basics(&self)
        requires
            self.inv(),
        ensures
            self.capacity() >= 1,
            self.count() >= 1,
            self.count() <= id_space() / 4,
            id_space() % self.count() == 0,
            word_space() % self.capacity() == 0,
            self.capacity() <= word_space() / 2,
            0 <= self.reserved() < self.count(),
            self.capacity() >= HEADER_SIZE ==> self.capacity() % HEADER_SIZE as int == 0,
            HEADER_SIZE == 4 || HEADER_SIZE == 8,
            BLOCK_ALIGN == HEADER_SIZE,
    {
        lemma_id_space();
        lemma_spaces();
        lemma_word_bytes();
        let cap = self.capacity();
        let count = self.count();
        lemma_power_of_two_divides(count, id_space());
        lemma_power_of_two_divides(cap, word_space());
        lemma_power_of_two_gap(cap, word_space());
        if cap >= HEADER_SIZE {
            lemma_power_of_two_divides(HEADER_SIZE as int, cap);
        }
    }

    /// Probing a sequence number against its descriptor, in terms of the messages.
    #[verifier::spinoff_prover]
    #[verifier::rlimit(40)]
    proof fn lemma_probe(&self, s: u64)
        requires
            self.inv(),
        ensures
            self.probe_spec(s) == Probe::Finalized <==> self.is_finalized(s as int),
            self.probe_spec(s) == Probe::Missing <==> self.in_missing_run(s),
    {
        self.lemma_wf_basics();
        let m = id_space();
        let n = self.count();
        let k = self.reserved();
        let id = s as int % m;
        let i = id % n;
        let d = self.descriptor_buffer@[i];
        lemma_pack(id as usize, DescriptorState::Finalized);
        lemma_pack(id as usize, DescriptorState::MissingData);
        assert(0 <= i < n);
        if i < k {
            assert(self.slot_ok(i));
            lemma_unpack(d.state_id.0);
            if self.is_finalized(s as int) {
                vstd::arithmetic::div_mod::lemma_small_mod(s as nat, m as nat);
                vstd::arithmetic::div_mod::lemma_small_mod(s as nat, n as nat);
            }
            if id >= m - n + k {
                lemma_mod_multiples_vanish(-1, id, n);
                lemma_mod_of_mod(m, n, m);
                let j = id - (m - n);
                lemma_fundamental_div_mod(m, n);
                lemma_mod_multiples_vanish(m / n - 1, j, n);
                vstd::arithmetic::mul::lemma_mul_is_distributive_sub(n, m / n, 1);
                vstd::arithmetic::div_mod::lemma_small_mod(j as nat, n as nat);
            }
        } else {
            assert(self.slot_ok(i));
            if self.is_finalized(s as int) {
                vstd::arithmetic::div_mod::lemma_small_mod(s as nat, m as nat);
                vstd::arithmetic::div_mod::lemma_small_mod(s as nat, n as nat);
            }
            if id >= m - n + k {
                let j = id - (m - n);
                lemma_fundamental_div_mod(m, n);
                lemma_mod_multiples_vanish(m / n - 1, j, n);
                vstd::arithmetic::mul::lemma_mul_is_distributive_sub(n, m / n, 1);
                vstd::arithmetic::div_mod::lemma_small_mod(j as nat, n as nat);
            }
        }
    }

    /// How the descriptor of sequence number `s` relates to `s`.
    pub closed spec fn probe_spec(&self, s: u64) -> Probe {
        let id = s as int % id_space();
        let d = self.descriptor_buffer@[id % self.count()];
        if d.state_id.0 == pack(id as usize, DescriptorState::Finalized) && d.sequence == s {
            Probe::Finalized
        } else if d.state_id.0 == pack(id as usize, DescriptorState::MissingData) {
            Probe::Missing
        } else {
            Probe::Other
        }
    }
}

impl<M: Metadata> Ringbuffer<M> {
    /// Creates an empty buffer with a data area of `data_capacity` bytes and
    /// `descriptor_count` descriptors.
    pub fn new(data_capacity: usize, descriptor_count: usize) -> (r: Self)
        requires
            is_power_of_two(data_capacity as int),
            is_power_of_two(descriptor_count as int),
            descriptor_count <= id_space() / 4,
        ensures
            r.wf(),
            r.capacity() == data_capacity,
            r.count() == descriptor_count,
            r.reserved() == 0,
            r.last_finalized() == BASE_SEQUENCE,
            r.contents() == Seq::new(data_capacity as nat, |i: int| 0u8),
            r.position() as int == word_space() - data_capacity,
    {
        proof {
            lemma_id_space();
            lemma_spaces();
            lemma_word_bytes();
            lemma_power_of_two_divides(descriptor_count as int, id_space());
            lemma_power_of_two_divides(data_capacity as int, data_capacity as int);
            lemma_power_of_two_divides(data_capacity as int, word_space());
        }
        let mut data_buffer: Vec<u8> = Vec::new();
        let mut i: usize = 0;
        while i < data_capacity
            invariant
                i <= data_capacity,
                data_buffer@ == Seq::new(i as nat, |j: int| 0u8),
            decreases data_capacity - i,
        {
            data_buffer.push(0u8);
            i = i + 1;
        }
        let mut metadata_buffer: Vec<Option<M>> = Vec::new();
        let mut i: usize = 0;
        while i < descriptor_count
            invariant
                i <= descriptor_count,
                metadata_buffer@.len() == i,
                forall|j: int| 0 <= j < i ==> metadata_buffer@[j] is None,
            decreases descriptor_count - i,
        {
            metadata_buffer.push(None);
            i = i + 1;
        }
        let starting_logical_position = 0usize.wrapping_sub(data_capacity);
        let starting_descriptor_id = DescriptorId::base_id().prev();
        let descriptor_buffer = Self::initialize_descriptor_buffer(descriptor_count);
        let r = Self {
            data_capacity,
            data_buffer,
            logical_start: starting_logical_position,
            descriptor_count,
            descriptor_buffer,
            metadata_buffer,
            descriptor_id_start: AtomicDescriptorId::new(starting_descriptor_id),
            descriptor_id_end: AtomicDescriptorId::new(starting_descriptor_id),
            last_finalized_sequence: BASE_SEQUENCE,
            empty: true,
            stored: Ghost(Seq::new(descriptor_count as nat, |i: int| Seq::<u8>::empty())),
        };
        proof {
            assert(r.reserved() == 0) by {
                vstd::arithmetic::div_mod::lemma_mod_self_0(id_space());
            }
            if data_capacity >= HEADER_SIZE {
                lemma_power_of_two_divides(HEADER_SIZE as int, data_capacity as int);
                lemma_power_of_two_divides(HEADER_SIZE as int, word_space());
                vstd::arithmetic::div_mod::lemma_mod_sub_multiples_vanish(
                    word_space(), HEADER_SIZE as int);
                lemma_fundamental_div_mod(data_capacity as int, HEADER_SIZE as int);
                let h = HEADER_SIZE as int;
                let q = data_capacity as int / h;
                assert(data_capacity as int == h * q);
                lemma_mod_multiples_vanish(-q, word_space(), h);
                assert(h * -q == -(h * q)) by (nonlinear_arith);
                assert(r.logical_start as int == word_space() - data_capacity);
                assert((word_space() - data_capacity) % h == 0);
            }
            assert forall|i: int| 0 <= i < r.count() implies #[trigger] r.slot_ok(i) by {
                lemma_pack((id_space() - descriptor_count + i) as usize, DescriptorState::MissingData);
            }
            assert(r.descriptor_id_end.0 == id_space() - 1);
            assert(r.reserved() < r.count());
            assert(r.data_buffer@.len() == r.capacity());
            assert(r.capacity() >= HEADER_SIZE ==> r.logical_start % HEADER_SIZE == 0);
            reveal(Ringbuffer::empty_flag_ok);
            if r.any_finalized() {
                let w = choose|i: int| r.is_finalized(i);
                assert(false);
            }
        }
        r
    }

    /// The descriptors of an empty buffer: descriptor `i` carries the id and the sequence
    /// number of message `i` one round of `count` earlier, in the state `MissingData`.
    fn initialize_descriptor_buffer(count: usize) -> (r: Vec<Descriptor>)
        requires
            1 <= count <= id_space() / 4,
        ensures
            r@.len() == count,
            forall|i: int|
                0 <= i < count ==> {
                    &&& r@[i].state_id.0 == pack(
                        (id_space() - count + i) as usize,
                        DescriptorState::MissingData,
                    )
                    &&& r@[i].sequence as int == sequence_space() - count + i
                },
    {
        proof {
            lemma_id_space();
        }
        let mut buffer: Vec<Descriptor> = Vec::new();
        let mut index: usize = 0;
        let mut id = DescriptorId::base_id().prev_wrap(count);
        let mut sequence = BASE_SEQUENCE.wrapping_sub(count as u64);
        proof {
            vstd::arithmetic::div_mod::lemma_small_mod((id_space() - count) as nat, id_space() as nat);
            assert(id.0 as int == (0 - count as int) % id_space());
            lemma_mod_multiples_vanish(1, 0 - count as int, id_space());
        }
        while index < count
            invariant
                index <= count <= id_space() / 4,
                id_space() >= 0x4000_0000,
                buffer@.len() == index,
                index < count ==> id.0 as int == id_space() - count + index,
                index < count ==> sequence as int == sequence_space() - count + index,
                forall|i: int|
                    0 <= i < index ==> {
                        &&& buffer@[i].state_id.0 == pack(
                            (id_space() - count + i) as usize,
                            DescriptorState::MissingData,
                        )
                        &&& buffer@[i].sequence as int == sequence_space() - count + i
                    },
            decreases count - index,
        {
            buffer.push(Descriptor::missing(id, sequence));
            sequence = sequence.wrapping_add(1);
            id = id.next();
            index += 1;
            proof {
                if index < count {
                    vstd::arithmetic::div_mod::lemma_small_mod(
                        (id_space() - count + index) as nat, id_space() as nat);
                }
            }
        }
        buffer
    }

    /// The descriptor that `id` maps to.
    fn descriptor(&self, id: DescriptorId) -> (r: &Descriptor)
        requires
            self.inv(),
        ensures
            *r == self.descriptor_buffer@[id.0 as int % self.count()],
    {
        proof {
            self.lemma_wf_basics();
        }
        let index = id.to_raw() % self.descriptor_count;
        &self.descriptor_buffer[index]
    }

    /// The metadata slot that `id` maps to.
    fn metadata(&self, id: DescriptorId) -> (r: &Option<M>)
        requires
            self.inv(),
        ensures
            *r == self.metadata_buffer@[id.0 as int % self.count()],
    {
        proof {
            self.lemma_wf_basics();
        }
        let index = id.to_raw() % self.descriptor_count;
        &self.metadata_buffer[index]
    }

    /// The index in the data area of a logical position.
    fn data(&self, logical: usize) -> (r: usize)
        requires
            self.data_capacity > 0,
        ensures
            r as int == logical as int % self.capacity(),
            r < self.capacity(),
    {
        logical % self.data_capacity
    }
}

impl<M: Metadata> Ringbuffer<M> {
    /// How the descriptor of `sequence` relates to `sequence`.
    fn probe(&self, sequence: u64) -> (r: Probe)
        requires
            self.inv(),
        ensures
            r == self.probe_spec(sequence),
    {
        proof {
            lemma_sequence_id(sequence);
        }
        let expected_id = DescriptorId::new_truncating(sequence as usize);
        let descriptor = self.descriptor(expected_id);
        let state_id = descriptor.state_id.load();
        if state_id == DescriptorStateId::new(expected_id, DescriptorState::Finalized)
            && descriptor.sequence == sequence {
            Probe::Finalized
        } else if state_id == DescriptorStateId::new(expected_id, DescriptorState::MissingData) {
            Probe::Missing
        } else {
            Probe::Other
        }
    }

    /// Counting up from a sequence number moves its id one step, and leaves the missing run at
    /// the next id round.
    proof fn lemma_successor(&self, s: u64, t: u64)
        requires
            self.inv(),
            t as int == (s as int + 1) % sequence_space(),
        ensures
            t as int % id_space() == (s as int % id_space() + 1) % id_space(),
            s as int % id_space() < id_space() - 1 ==> next_round(t) == next_round(s),
            s as int % id_space() == id_space() - 1 ==> t == next_round(s),
    {
        lemma_spaces();
        let m = id_space();
        let q = sequence_space();
        lemma_mod_of_mod(s as int + 1, m, q);
        vstd::arithmetic::div_mod::lemma_add_mod_noop(s as int, 1, m);
        vstd::arithmetic::div_mod::lemma_small_mod(1, m as nat);
        if s as int % m < m - 1 {
            vstd::arithmetic::div_mod::lemma_small_mod((s as int % m + 1) as nat, m as nat);
            vstd::arithmetic::div_mod::lemma_add_mod_noop(s as int + 1, m - (s as int % m) - 1, q);
            vstd::arithmetic::div_mod::lemma_mod_twice(s as int + 1, q);
            vstd::arithmetic::div_mod::lemma_small_mod((m - (s as int % m) - 1) as nat, q as nat);
            vstd::arithmetic::div_mod::lemma_add_mod_noop(t as int, m - (t as int % m), q);
            vstd::arithmetic::div_mod::lemma_small_mod((m - (t as int % m)) as nat, q as nat);
            vstd::arithmetic::div_mod::lemma_small_mod(t as nat, q as nat);
        } else {
            assert(s as int + m - s as int % m == s as int + 1);
        }
    }

    /// A read of `s` and of the sequence number after it find the same message while `s` lies
    /// in a missing run.
    proof fn lemma_read_target_step(&self, s: u64, t: u64)
        requires
            self.inv(),
            self.in_missing_run(s),
            t as int == (s as int + 1) % sequence_space(),
        ensures
            self.read_target(t) == self.read_target(s),
            self.run_measure(t) < self.run_measure(s),
    {
        self.lemma_wf_basics();
        self.lemma_successor(s, t);
        let m = id_space();
        let k = self.reserved();
        let n = self.count();
        if self.is_finalized(s as int) {
            vstd::arithmetic::div_mod::lemma_small_mod(s as nat, m as nat);
        }
        if self.is_finalized(t as int) && self.in_missing_run(t) {
            vstd::arithmetic::div_mod::lemma_small_mod(t as nat, m as nat);
        }
        if s as int % m == m - 1 {
            vstd::arithmetic::div_mod::lemma_mod_self_0(m);
        }
    }

    /// How far a sequence number in a missing run is from the end of its id round.
    pub open spec fn run_measure(&self, s: u64) -> int {
        if self.in_missing_run(s) {
            id_space() - s as int % id_space()
        } else {
            0
        }
    }

    /// The message that a read of `sequence` returns, found by walking past empty descriptors.
    fn find_finalized(&self, sequence: u64) -> (r: Option<u64>)
        requires
            self.inv(),
        ensures
            r == self.read_target(sequence),
    {
        let ghost target = self.read_target(sequence);
        let mut attempt = sequence;
        loop
            invariant
                self.inv(),
                self.read_target(attempt) == target,
                target == self.read_target(sequence),
            decreases self.run_measure(attempt),
        {
            proof {
                self.lemma_probe(attempt);
                self.lemma_wf_basics();
            }
            let probe = self.probe(attempt);
            if probe == Probe::Finalized {
                return Some(attempt);
            }
            let first_sequence = self.first_sequence();
            if attempt < first_sequence {
                attempt = first_sequence;
            } else if probe == Probe::Missing {
                let next = attempt.wrapping_add(1);
                proof {
                    self.lemma_read_target_step(attempt, next);
                }
                attempt = next;
            } else {
                return None;
            }
        }
    }

    /// Returns the oldest sequence number still in this [`Ringbuffer`].
    ///
    /// This sequence number may correspond to log messages with only their metadata remaining.
    /// Descriptors are never reused, so the first message is always still held.
    pub fn first_sequence(&self) -> (r: u64)
        ensures
            r == BASE_SEQUENCE,
    {
        BASE_SEQUENCE
    }

    /// Returns the oldest sequence number that refers to a fully valid log message in this
    /// [`Ringbuffer`]: finalized, with its data still there. `BASE_SEQUENCE` while there is
    /// none.
    pub fn first_valid_sequence(&self) -> (r: u64)
        requires
            self.wf(),
        ensures
            self.any_valid() ==> {
                &&& self.is_valid(r as int)
                &&& forall|t: int| 0 <= t < r ==> !self.is_valid(t)
            },
            !self.any_valid() ==> r == BASE_SEQUENCE,
    {
        proof {
            self.lemma_empty_flag();
        }
        if self.empty {
            proof {
                if self.any_valid() {
                    let i = choose|i: int| self.is_valid(i);
                    assert(self.any_finalized());
                }
            }
            return BASE_SEQUENCE;
        }
        proof {
            self.lemma_wf_basics();
            lemma_id_space();
        }
        let reserved = self.descriptor_id_start.load().next().to_raw() as u64;
        let mut sequence = BASE_SEQUENCE;
        while sequence < reserved
            invariant
                self.wf(),
                reserved == self.reserved(),
                self.reserved() < self.count(),
                sequence <= reserved,
                forall|t: int| 0 <= t < sequence ==> !self.is_valid(t),
            decreases reserved - sequence,
        {
            proof {
                self.lemma_probe(sequence);
                self.lemma_wf_basics();
            }
            if self.probe(sequence) == Probe::Finalized {
                let (start, end) = self.payload_bounds(&self.descriptor_buffer[sequence as usize]);
                proof {
                    assert(self.slot_ok(sequence as int));
                }
                if !self.claimed_later(sequence, start, end) {
                    proof {
                        assert(self.is_valid(sequence as int));
                    }
                    return sequence;
                }
            }
            sequence = sequence + 1;
        }
        proof {
            if self.any_valid() {
                let i = choose|i: int| self.is_valid(i);
                assert(!self.is_valid(i));
            }
        }
        BASE_SEQUENCE
    }

    /// Returns the sequence number by which the next log message in this [`Ringbuffer`] will be
    /// referred: the one after the last finalized sequence number, or `BASE_SEQUENCE` while no
    /// message is finalized.
    pub fn next_sequence(&self) -> (r: u64)
        requires
            self.wf(),
        ensures
            r as int == if self.any_finalized() {
                self.last_finalized() + 1
            } else {
                BASE_SEQUENCE as int
            },
    {
        proof {
            self.lemma_wf_basics();
            lemma_id_space();
            self.lemma_empty_flag();
        }
        if self.empty {
            return BASE_SEQUENCE;
        }
        self.last_finalized_sequence.wrapping_add(1)
    }

    /// Returns the sequence number by which the next log message slot to be reserved in this
    /// [`Ringbuffer`] will be referred.
    pub fn next_reserve_sequence(&self) -> (r: u64)
        requires
            self.wf(),
        ensures
            r == self.reserved(),
    {
        proof {
            self.lemma_wf_basics();
            lemma_id_space();
        }
        let descriptor_id_start = self.descriptor_id_start.load();
        let base_id = DescriptorId::base_id().prev();
        proof {
            let m = id_space();
            lemma_mod_multiples_vanish(1, -1, m);
            vstd::arithmetic::div_mod::lemma_small_mod((m - 1) as nat, m as nat);
            lemma_mod_multiples_vanish(1, descriptor_id_start.0 + 1 - m, m);
        }
        // The newest reserved id is as many ids ahead of the id before the base one as messages
        // were reserved.
        descriptor_id_start.difference(base_id) as u64
    }

    /// The range of the data area that holds the payload of the block of `descriptor`.
    fn payload_bounds(&self, descriptor: &Descriptor) -> (r: (usize, usize))
        requires
            self.inv(),
        ensures
            r.0 as int == payload_range(descriptor.logical_start, descriptor.logical_end, self.capacity()).0,
            r.1 as int == payload_range(descriptor.logical_start, descriptor.logical_end, self.capacity()).1,
    {
        proof {
            self.lemma_wf_basics();
        }
        let start = descriptor.logical_start;
        let end = descriptor.logical_end;
        let capacity = self.data_capacity;
        let last = end.wrapping_sub(1);
        if start == end {
            (0, 0)
        } else if start / capacity == last / capacity {
            (start % capacity + HEADER_SIZE, last % capacity + 1)
        } else {
            (HEADER_SIZE, end % capacity)
        }
    }

    /// Non-blocking read of the requested [`Message`] or (if the requested [`Message`] is gone, the
    /// next available [`Message`].
    ///
    /// The payload of the message, the one it was stored with, is copied into the front of
    /// `buffer`, as far as both reach, while its data is still there; else the message comes
    /// without a buffer and `buffer` is left as it was.
    pub fn read<'buffer>(&self, sequence: u64, buffer: &'buffer mut [u8]) -> (r: Option<
        Message<'buffer, M>,
    >)
        requires
            self.wf(),
        ensures
            match self.read_target(sequence) {
                Some(s) => match r {
                    Some(message) => {
                        &&& message.sequence == s
                        &&& self.slot_metadata(s as int) == Some(message.metadata)
                        &&& (message.buffer is Some <==> self.intact(s as int))
                        &&& self.intact(s as int) ==> message.buffer.unwrap()@ == extract(
                            self.stored_payload(s as int),
                            0,
                            self.stored_payload(s as int).len() as int,
                            old(buffer)@,
                        )
                        &&& !self.intact(s as int) ==> final(buffer)@ == old(buffer)@
                    },
                    None => false,
                },
                None => r is None && final(buffer)@ == old(buffer)@,
            },
    {
        match self.find_finalized(sequence) {
            None => None,
            Some(found) => {
                proof {
                    self.lemma_wf_basics();
                    lemma_sequence_id(found);
                    vstd::arithmetic::div_mod::lemma_small_mod(found as nat, id_space() as nat);
                    vstd::arithmetic::div_mod::lemma_small_mod(found as nat, self.count() as nat);
                    assert(self.slot_ok(found as int));
                }
                let id = DescriptorId::new_truncating(found as usize);
                let descriptor = self.descriptor(id);
                let metadata = *self.metadata(id);
                let (start, end) = self.payload_bounds(descriptor);
                if self.claimed_later(found, start, end) {
                    // A later block has taken part of the payload: only the metadata is left.
                    return Some(Message { sequence: found, metadata: metadata.unwrap(), buffer: None });
                }
                proof {
                    assert(self.payload_kept(found as int));
                    assert(self.contents().subrange(start as int, end as int) == self.stored_payload(
                        found as int,
                    ));
                }
                let available = end - start;
                let n = if buffer.len() < available {
                    buffer.len()
                } else {
                    available
                };
                let ghost original = buffer@;
                let mut j: usize = 0;
                while j < n
                    invariant
                        self.inv(),
                        j <= n,
                        n <= buffer@.len(),
                        n <= end - start,
                        start <= end <= self.capacity(),
                        buffer@.len() == original.len(),
                        forall|x: int|
                            0 <= x < buffer@.len() ==> buffer@[x] == if x < j {
                                self.contents()[start + x]
                            } else {
                                original[x]
                            },
                    decreases n - j,
                {
                    buffer[j] = self.data_buffer[start + j];
                    j = j + 1;
                }
                proof {
                    assert(buffer@ =~= extract(
                        self.stored_payload(found as int),
                        0,
                        self.stored_payload(found as int).len() as int,
                        original,
                    ));
                }
                Some(Message { sequence: found, metadata: metadata.unwrap(), buffer: Some(buffer) })
            },
        }
    }
}

impl<M: Metadata> Ringbuffer<M> {
    /// The run of finalized messages ends at or after where it starts, and before the first
    /// unreserved message unless it is empty: the last finalized sequence number never moves
    /// back and never passes the reserved messages.
    pub proof fn lemma_run_end_bounds(&self, s: int)
        requires
            0 <= s,
        ensures
            s <= self.finalized_run_end(s),
            self.finalized_run_end(s) == s || self.finalized_run_end(s) < self.reserved(),
        decreases self.reserved() - s,
    {
        if s + 1 < self.reserved() && self.slot_state(s + 1) == DescriptorState::Finalized {
            self.lemma_run_end_bounds(s + 1);
        }
    }

    /// No finalized message follows the end of a run of finalized messages.
    proof fn lemma_run_end_settled(&self, s: int)
        requires
            0 <= s,
        ensures
            !self.is_finalized(self.finalized_run_end(s) + 1),
        decreases self.reserved() - s,
    {
        if s + 1 < self.reserved() && self.slot_state(s + 1) == DescriptorState::Finalized {
            self.lemma_run_end_settled(s + 1);
        }
    }

    /// Walks the finalized messages that follow `sequence` and returns the last of them.
    fn finalized_run(&self, sequence: u64) -> (r: u64)
        requires
            self.inv(),
            sequence == self.last_finalized(),
        ensures
            r as int == self.finalized_run_end(sequence as int),
    {
        proof {
            self.lemma_wf_basics();
        }
        let ghost k = self.reserved();
        let ghost n = self.count();
        let mut finalized_sequence = sequence;
        let mut attempt_sequence = finalized_sequence.wrapping_add(1);
        loop
            invariant
                self.inv(),
                k == self.reserved(),
                n == self.count(),
                1 <= n <= id_space() / 4,
                0 <= k < n,
                finalized_sequence == 0 || finalized_sequence < k,
                attempt_sequence == finalized_sequence + 1,
                self.finalized_run_end(finalized_sequence as int) == self.finalized_run_end(
                    sequence as int,
                ),
            ensures
                self.finalized_run_end(finalized_sequence as int) == self.finalized_run_end(
                    sequence as int,
                ),
                self.finalized_run_end(finalized_sequence as int) == finalized_sequence,
            decreases n + 1 - attempt_sequence,
        {
            proof {
                self.lemma_probe(attempt_sequence);
                vstd::arithmetic::div_mod::lemma_small_mod(attempt_sequence as nat, id_space() as nat);
            }
            let probe = self.probe(attempt_sequence);
            if probe == Probe::Finalized {
                finalized_sequence = attempt_sequence;
                attempt_sequence = attempt_sequence.wrapping_add(1);
                continue;
            }
            let first_sequence = self.first_sequence();
            if attempt_sequence < first_sequence {
                attempt_sequence = first_sequence;
            } else if probe == Probe::Missing {
                attempt_sequence = attempt_sequence.wrapping_add(1);
            } else {
                break;
            }
        }
        finalized_sequence
    }

    /// Advances the last finalized sequence number over the finalized messages that follow it.
    fn update_last_finalized(&mut self)
        requires
            old(self).inv(),
            old(self).payloads_kept(),
        ensures
            final(self).wf(),
            final(self).last_finalized() >= old(self).last_finalized(),
            final(self).stored == old(self).stored,
            final(self).last_finalized_sequence as int == old(self).finalized_run_end(
                old(self).last_finalized_sequence as int,
            ),
            final(self).data_capacity == old(self).data_capacity,
            final(self).data_buffer == old(self).data_buffer,
            final(self).logical_start == old(self).logical_start,
            final(self).descriptor_count == old(self).descriptor_count,
            final(self).descriptor_buffer == old(self).descriptor_buffer,
            final(self).metadata_buffer == old(self).metadata_buffer,
            final(self).descriptor_id_start == old(self).descriptor_id_start,
            final(self).descriptor_id_end == old(self).descriptor_id_end,
            final(self).empty == old(self).empty,
    {
        let sequence = self.last_finalized_sequence;
        let finalized_sequence = self.finalized_run(sequence);
        proof {
            self.lemma_run_end_bounds(sequence as int);
            self.lemma_run_end_settled(sequence as int);
        }
        if finalized_sequence == sequence {
            return;
        }
        let ghost before = *self;
        self.last_finalized_sequence = finalized_sequence;
        proof {
            assert forall|i: int| 0 <= i < self.count() implies #[trigger] self.slot_ok(i) by {
                assert(before.slot_ok(i));
            }
            reveal(Ringbuffer::empty_flag_ok);
            assert forall|i: int| #[trigger] self.is_finalized(i) == before.is_finalized(i) by {}
            Self::lemma_any_finalized_same(&before, self, -1);
            Self::lemma_payloads_frame(&before, self);
        }
    }

    /// Placing the block of a new message, whose headers are the only bytes that change, keeps
    /// the payloads of the messages before it.
    #[verifier::spinoff_prover]
    proof fn lemma_reserve_keeps(pre: &Self, post: &Self)
        requires
            pre.wf(),
            post.inv(),
            post.data_capacity == pre.data_capacity,
            post.reserved() == pre.reserved() + 1,
            forall|i: int|
                0 <= i < pre.reserved() ==> #[trigger] post.slot_block(i) == pre.slot_block(i)
                    && post.slot_state(i) == pre.slot_state(i),
            forall|i: int| 0 <= i < pre.reserved() ==> #[trigger] post.stored@[i] == pre.stored@[i],
            post.slot_state(pre.reserved()) == DescriptorState::Reserved,
            post.contents().len() == pre.contents().len(),
            forall|x: int|
                0 <= x < pre.contents().len() && post.contents()[x] != pre.contents()[x]
                    ==> #[trigger] post.claims(pre.reserved(), x, x + 1),
        ensures
            post.payloads_kept(),
    {
        pre.lemma_wf_basics();
        let k = pre.reserved();
        assert forall|i: int| #[trigger] post.payload_kept(i) by {
            assert(pre.payload_kept(i));
            if 0 <= i < post.reserved() && (post.slot_state(i) == DescriptorState::Committed
                || post.slot_state(i) == DescriptorState::Finalized) && post.intact(i) {
                assert(i < k);
                assert(post.slot_block(i) == pre.slot_block(i));
                assert(post.payload(i) == pre.payload(i));
                assert(pre.slot_ok(i));
                let (p, q) = pre.payload(i);
                assert(post.intact(i));
                assert(!post.claims(k, post.payload(i).0, post.payload(i).1));
                assert forall|j: int| i < j < k implies !#[trigger] pre.claims(j, p, q) by {
                    assert(post.slot_block(j) == pre.slot_block(j));
                    assert(!post.claims(j, p, q));
                }
                assert(!post.claims(k, p, q));
                assert forall|x: int| p <= x < q implies post.contents()[x] == pre.contents()[x] by {
                    if post.contents()[x] != pre.contents()[x] {
                        assert(post.claims(k, x, x + 1));
                    }
                }
                assert(post.contents().subrange(p, q) =~= pre.contents().subrange(p, q));
            }
        }
    }

    /// The payloads stay kept while the data area, the blocks, the stored payloads and the count
    /// of reserved messages stay the same, and no message becomes committed or finalized.
    proof fn lemma_payloads_frame(a: &Self, b: &Self)
        requires
            a.payloads_kept(),
            b.data_capacity == a.data_capacity,
            b.data_buffer@ == a.data_buffer@,
            b.reserved() == a.reserved(),
            b.stored == a.stored,
            forall|i: int| 0 <= i < a.reserved() ==> #[trigger] b.slot_block(i) == a.slot_block(i),
            forall|i: int|
                0 <= i < a.reserved() && (b.slot_state(i) == DescriptorState::Committed
                    || b.slot_state(i) == DescriptorState::Finalized) ==> (#[trigger] a.slot_state(i)
                    == DescriptorState::Committed || a.slot_state(i) == DescriptorState::Finalized),
        ensures
            b.payloads_kept(),
    {
        assert forall|i: int| #[trigger] b.payload_kept(i) by {
            assert(a.payload_kept(i));
            if 0 <= i < b.reserved() {
                assert(b.slot_block(i) == a.slot_block(i));
                assert forall|j: int| i < j < b.reserved() implies #[trigger] b.claims(
                    j,
                    b.payload(i).0,
                    b.payload(i).1,
                ) == a.claims(j, a.payload(i).0, a.payload(i).1) by {
                    assert(b.slot_block(j) == a.slot_block(j));
                }
                if b.intact(i) {
                    assert forall|j: int| i < j < a.reserved() implies !#[trigger] a.claims(
                        j,
                        a.payload(i).0,
                        a.payload(i).1,
                    ) by {
                        assert(!b.claims(j, b.payload(i).0, b.payload(i).1));
                    }
                }
            }
        }
    }
}

/// A block size is a multiple of the alignment that holds the header and the payload.
proof fn lemma_block_size(size: usize)
    requires
        block_size(size) is Some,
    ensures
        block_size(size).unwrap() as int % HEADER_SIZE as int == 0,
        size + HEADER_SIZE <= block_size(size).unwrap(),
        block_size(size).unwrap() < size + 2 * HEADER_SIZE,
        size >= 1 ==> block_size(size).unwrap() >= 2 * HEADER_SIZE,
{
    lemma_word_bytes();
    let h = HEADER_SIZE as int;
    let x = size + h;
    if x % h != 0 {
        vstd::arithmetic::div_mod::lemma_fundamental_div_mod(x, h);
        vstd::arithmetic::div_mod::lemma_mod_multiples_vanish(x / h + 1, 0, h);
        assert(x + (h - x % h) == h * (x / h + 1)) by (nonlinear_arith)
            requires
                x == h * (x / h) + x % h,
        ;
        vstd::arithmetic::div_mod::lemma_small_mod(0, h as nat);
        vstd::arithmetic::mul::lemma_mul_is_commutative(h, x / h + 1);
        vstd::arithmetic::div_mod::lemma_mod_multiples_basic(x / h + 1, h);
        if size >= 1 {
            assert(x / h >= 1) by {
                vstd::arithmetic::div_mod::lemma_div_non_zero(x, h);
            }
            assert(h * (x / h + 1) >= 2 * h) by (nonlinear_arith)
                requires
                    x / h >= 1,
                    h > 0,
            ;
        }
    } else {
        if size >= 1 {
            assert(x >= h + 1);
            vstd::arithmetic::div_mod::lemma_fundamental_div_mod(x, h);
            assert(x / h >= 2) by (nonlinear_arith)
                requires
                    x == h * (x / h),
                    x >= h + 1,
                    h > 0,
            ;
            assert(h * (x / h) >= 2 * h) by (nonlinear_arith)
                requires
                    x / h >= 2,
                    h > 0,
            ;
        }
    }
}

/// A block whose bytes fit in the rest of the lap of its start ends in that lap.
proof fn lemma_stays_in_lap(start: usize, size: usize, capacity: int)
    requires
        capacity > 0,
        word_space() % capacity == 0,
        1 <= size,
        start as int % capacity + size <= capacity,
    ensures
        start as int / capacity == wrapped_decrement(wrapped_add(start, size)) as int / capacity,
{
    let c = capacity;
    let r = word_space();
    let st = start as int;
    let sz = size as int;
    lemma_fundamental_div_mod(st, c);
    let q = st / c;
    let rem = st % c;
    if st + sz < r {
        vstd::arithmetic::mul::lemma_mul_is_commutative(c, q);
        lemma_fundamental_div_mod_converse(st + sz - 1, c, q, rem + sz - 1);
    } else {
        lemma_fundamental_div_mod(r, c);
        let t = r / c;
        assert(c * t == r);
        assert(q == t - 1) by (nonlinear_arith)
            requires
                c > 0,
                c * q <= st,
                st < c * t,
                c * t <= c * q + c,
        ;
        assert((t - 1) * c == t * c - c) by (nonlinear_arith);
        vstd::arithmetic::mul::lemma_mul_is_commutative(c, t);
        vstd::arithmetic::mul::lemma_mul_is_commutative(c, q);
        lemma_fundamental_div_mod_converse(r - 1, c, t - 1, c - 1);
    }
}

/// Two blocks placed one after the other lie side by side, the second one's header right after
/// the first one's payload, when together they fit in the rest of the lap of the first: in
/// particular two blocks of half the capacity fill a lap that the first one starts.
pub proof fn lemma_blocks_side_by_side(start: usize, first: usize, second: usize, capacity: int)
    requires
        is_power_of_two(capacity),
        HEADER_SIZE <= capacity < word_space(),
        start as int % HEADER_SIZE as int == 0,
        first as int % HEADER_SIZE as int == 0,
        second as int % HEADER_SIZE as int == 0,
        2 * HEADER_SIZE <= first <= capacity / 2,
        2 * HEADER_SIZE <= second <= capacity / 2,
        start as int % capacity + first + second <= capacity,
    ensures
        ({
            let middle = placed_end(start, first, capacity);
            let end = placed_end(middle, second, capacity);
            &&& payload_range(start, middle, capacity) == (
                start as int % capacity + HEADER_SIZE,
                start as int % capacity + first,
            )
            &&& payload_range(middle, end, capacity) == (
                start as int % capacity + first + HEADER_SIZE,
                start as int % capacity + first + second,
            )
        }),
{
    lemma_spaces();
    lemma_word_bytes();
    lemma_power_of_two_divides(capacity, word_space());
    lemma_power_of_two_gap(capacity, word_space());
    lemma_power_of_two_divides(HEADER_SIZE as int, capacity);
    lemma_stays_in_lap(start, first, capacity);
    lemma_placement(start, first, capacity);
    let middle = placed_end(start, first, capacity);
    let c = capacity;
    let st = start as int;
    lemma_fundamental_div_mod(st, c);
    if st + first as int >= word_space() {
        lemma_fundamental_div_mod(word_space(), c);
        let t = word_space() / c;
        assert(st / c == t - 1) by (nonlinear_arith)
            requires
                c > 0,
                c * (st / c) <= st,
                st < c * t,
                c * t <= st + first,
                first < c,
                st == c * (st / c) + st % c,
                st % c + first < c,
        ;
        assert(false) by (nonlinear_arith)
            requires
                st == c * (st / c) + st % c,
                st % c + first < c,
                c * t <= st + first,
                st / c == t - 1,
        ;
    }
    assert(middle as int == st + first);
    vstd::arithmetic::mul::lemma_mul_is_commutative(c, st / c);
    lemma_fundamental_div_mod_converse(middle as int, c, st / c, st % c + first);
    lemma_stays_in_lap(middle, second, capacity);
    lemma_placement(middle, second, capacity);
}

/// Where a block of `size` bytes placed at logical position `start` lands in a data area of
/// `capacity` bytes.
proof fn lemma_placement(start: usize, size: usize, capacity: int)
    requires
        capacity <= word_space() / 2,
        word_space() % capacity == 0,
        HEADER_SIZE as int <= capacity,
        capacity % HEADER_SIZE as int == 0,
        start as int % HEADER_SIZE as int == 0,
        size as int % HEADER_SIZE as int == 0,
        2 * HEADER_SIZE <= size <= capacity / 2,
    ensures
        start as int % capacity + HEADER_SIZE <= capacity,
        placed_end(start, size, capacity) as int % HEADER_SIZE as int == 0,
        placed_end(start, size, capacity) != start,
        start as int / capacity == wrapped_decrement(wrapped_add(start, size)) as int / capacity
            ==> {
            &&& start as int % capacity + size <= capacity
            &&& payload_range(start, placed_end(start, size, capacity), capacity) == (
                start as int % capacity + HEADER_SIZE,
                start as int % capacity + size,
            )
        },
        start as int / capacity != wrapped_decrement(wrapped_add(start, size)) as int / capacity
            ==> {
            &&& (wrapped_add(start, size) as int / capacity) * capacity + size <= usize::MAX
            &&& payload_range(start, placed_end(start, size, capacity), capacity) == (
                HEADER_SIZE as int,
                size as int,
            )
            &&& start as int / capacity != wrapped_decrement(placed_end(start, size, capacity))
                as int / capacity
        },
{
    let c = capacity;
    let h = HEADER_SIZE as int;
    let r = word_space();
    let w = wrapped_add(start, size) as int;
    let d = wrapped_decrement(wrapped_add(start, size)) as int;
    let st = start as int;
    let sz = size as int;
    let end = placed_end(start, size, capacity);
    lemma_fundamental_div_mod(st, c);
    let q = st / c;
    let rem = st % c;
    lemma_mod_of_mod(st, h, c);
    lemma_multiple_below(rem, h, c);
    vstd::arithmetic::div_mod::lemma_small_mod(0, h as nat);
    if st + sz > r {
        assert(st >= c);
        vstd::arithmetic::div_mod::lemma_div_non_zero(st, c);
    }
    if st / c == d / c {
        if st + sz > r {
            lemma_fundamental_div_mod_converse(d, c, 0, d);
            assert(false);
        }
        assert(d == st + sz - 1);
        lemma_fundamental_div_mod(d, c);
        assert(c * q + rem + sz - 1 == c * (d / c) + d % c);
        vstd::arithmetic::mul::lemma_mul_is_commutative(c, q);
        lemma_fundamental_div_mod_converse(d, c, q, rem + sz - 1);
        vstd::arithmetic::div_mod::lemma_add_mod_noop(st, sz, h);
        if st + sz == r {
            vstd::arithmetic::div_mod::lemma_mod_self_0(h);
            assert(r % h == 0);
        }
    } else {
        lemma_fundamental_div_mod(w, c);
        let x = (w / c) * c;
        vstd::arithmetic::mul::lemma_mul_is_commutative(w / c, c);
        vstd::arithmetic::div_mod::lemma_mod_multiples_basic(w / c, c);
        lemma_multiple_below(x, c, r);
        assert(end as int == x + sz);
        lemma_fundamental_div_mod_converse(x + sz, c, w / c, sz);
        lemma_fundamental_div_mod_converse(x + sz - 1, c, w / c, sz - 1);
        lemma_mod_of_mod(x, h, c);
        vstd::arithmetic::div_mod::lemma_add_mod_noop(x, sz, h);
        if st + sz <= usize::MAX {
            if w / c == q {
                lemma_fundamental_div_mod_converse(d, c, q, rem + sz - 1);
                assert(false);
            }
        } else {
            if st + sz == r {
                lemma_fundamental_div_mod(r, c);
                let t = r / c;
                assert((t - 1) * c == t * c - c) by (nonlinear_arith);
                vstd::arithmetic::mul::lemma_mul_is_commutative(c, t);
                lemma_fundamental_div_mod_converse(d, c, r / c - 1, c - 1);
                lemma_fundamental_div_mod_converse(st, c, r / c - 1, c - sz);
                assert(false);
            }
            lemma_fundamental_div_mod_converse(w, c, 0, w);
        }
    }
}

impl<M: Metadata> Ringbuffer<M> {
    /// All fields but the data area agree.
    closed spec fn same_but_data(&self, other: &Self) -> bool {
        &&& self.data_capacity == other.data_capacity
        &&& self.data_buffer@.len() == other.data_buffer@.len()
        &&& self.logical_start == other.logical_start
        &&& self.descriptor_count == other.descriptor_count
        &&& self.descriptor_buffer == other.descriptor_buffer
        &&& self.metadata_buffer == other.metadata_buffer
        &&& self.descriptor_id_start == other.descriptor_id_start
        &&& self.descriptor_id_end == other.descriptor_id_end
        &&& self.last_finalized_sequence == other.last_finalized_sequence
        &&& self.empty == other.empty
        &&& self.stored == other.stored
    }

    /// The block size for a message of `size` bytes.
    fn block_size_of(size: usize) -> (r: Option<usize>)
        ensures
            r == block_size(size),
    {
        proof {
            lemma_word_bytes();
        }
        let with_header = match size.checked_add(HEADER_SIZE) {
            Some(b) => b,
            None => return None,
        };
        let remainder = with_header % BLOCK_ALIGN;
        if remainder == 0 {
            Some(with_header)
        } else {
            with_header.checked_add(BLOCK_ALIGN - remainder)
        }
    }

    /// Writes the block header for `id` at `index` of the data area.
    fn write_header(&mut self, index: usize, id: DescriptorId)
        requires
            index + HEADER_SIZE <= old(self).data_buffer@.len(),
        ensures
            final(self).same_but_data(old(self)),
            final(self).data_buffer@ == with_header(old(self).data_buffer@, index as int, id.0),
    {
        proof {
            lemma_word_bytes();
        }
        let raw = id.to_raw();
        let data_len = self.data_buffer.len();
        let ghost original = self.data_buffer@;
        let mut j: usize = 0;
        while j < HEADER_SIZE
            invariant
                j <= HEADER_SIZE,
                HEADER_SIZE == 4 || HEADER_SIZE == 8,
                HEADER_SIZE == usize::BITS / 8,
                index + HEADER_SIZE <= data_len,
                data_len == original.len(),
                self.same_but_data(old(self)),
                original == old(self).data_buffer@,
                self.data_buffer@ == Seq::new(
                    original.len(),
                    |x: int|
                        if index <= x < index + j {
                            header_byte(raw, x - index)
                        } else {
                            original[x]
                        },
                ),
            decreases HEADER_SIZE - j,
        {
            let byte = #[verifier::truncate] ((raw >> (8 * j)) as u8);
            self.data_buffer[index + j] = byte;
            j = j + 1;
            proof {
                assert(self.data_buffer@ =~= Seq::new(
                    original.len(),
                    |x: int|
                        if index <= x < index + j {
                            header_byte(raw, x - index)
                        } else {
                            original[x]
                        },
                ));
            }
        }
        proof {
            assert(self.data_buffer@ =~= with_header(original, index as int, raw));
        }
    }

    /// Writes the first `len` bytes of `bytes` at `index` of the data area.
    fn write_bytes(&mut self, index: usize, bytes: &[u8], len: usize)
        requires
            len <= bytes@.len(),
            index + len <= old(self).data_buffer@.len(),
        ensures
            final(self).same_but_data(old(self)),
            final(self).data_buffer@ == with_bytes(
                old(self).data_buffer@,
                index as int,
                bytes@.subrange(0, len as int),
            ),
    {
        let data_len = self.data_buffer.len();
        let ghost original = self.data_buffer@;
        let mut j: usize = 0;
        while j < len
            invariant
                j <= len <= bytes@.len(),
                index + len <= data_len,
                data_len == original.len(),
                self.same_but_data(old(self)),
                original == old(self).data_buffer@,
                self.data_buffer@ == Seq::new(
                    original.len(),
                    |x: int|
                        if index <= x < index + j {
                            bytes@[x - index]
                        } else {
                            original[x]
                        },
                ),
            decreases len - j,
        {
            self.data_buffer[index + j] = bytes[j];
            j = j + 1;
            proof {
                assert(self.data_buffer@ =~= Seq::new(
                    original.len(),
                    |x: int|
                        if index <= x < index + j {
                            bytes@[x - index]
                        } else {
                            original[x]
                        },
                ));
            }
        }
        proof {
            assert(self.data_buffer@ =~= with_bytes(
                original,
                index as int,
                bytes@.subrange(0, len as int),
            ));
        }
    }

    /// A copy of the data area between `start` and `end`.
    fn copy_out(&self, start: usize, end: usize) -> (r: Vec<u8>)
        requires
            start <= end <= self.data_buffer@.len(),
        ensures
            r@ == self.data_buffer@.subrange(start as int, end as int),
    {
        let mut out: Vec<u8> = Vec::new();
        let mut j: usize = start;
        while j < end
            invariant
                start <= j <= end <= self.data_buffer@.len(),
                out@ == self.data_buffer@.subrange(start as int, j as int),
            decreases end - j,
        {
            out.push(self.data_buffer[j]);
            j = j + 1;
            proof {
                assert(out@ =~= self.data_buffer@.subrange(start as int, j as int));
            }
        }
        out
    }
}

impl ReservedMessage {
    /// The sequence number of the reserved message.
    pub closed spec fn number(&self) -> u64 {
        self.sequence
    }

    /// The payload bytes of the reserved message.
    pub closed spec fn bytes(&self) -> Seq<u8> {
        self.buffer@
    }

    /// Returns the sequence of the [`Message`].
    pub fn sequence(&self) -> (r: u64)
        ensures
            r == self.number(),
    {
        self.sequence
    }

    /// Returns the [`Message`] buffer.
    pub fn buffer(&self) -> (r: &[u8])
        ensures
            r@ == self.bytes(),
    {
        self.buffer.as_slice()
    }

    /// Returns the [`Message`] buffer for writing.
    pub fn buffer_mut(&mut self) -> (r: &mut [u8])
        ensures
            r@ == old(self).bytes(),
            final(self).bytes() == final(r)@,
            final(self).number() == old(self).number(),
    {
        self.buffer.as_mut_slice()
    }
}

impl<M: Metadata> Ringbuffer<M> {
    /// Message `i` is the same in both buffers.
    pub open spec fn same_slot(&self, other: &Self, i: int) -> bool {
        &&& self.slot_state(i) == other.slot_state(i)
        &&& self.slot_metadata(i) == other.slot_metadata(i)
        &&& self.slot_block(i) == other.slot_block(i)
        &&& self.stored_payload(i) == other.stored_payload(i)
    }

    /// The run of finalized messages depends on the messages only.
    proof fn lemma_run_end_congruent(&self, other: &Self, s: int)
        requires
            self.descriptor_buffer == other.descriptor_buffer,
            self.descriptor_id_start == other.descriptor_id_start,
        ensures
            self.finalized_run_end(s) == other.finalized_run_end(s),
        decreases self.reserved() - s,
    {
        if s + 1 < self.reserved() && self.slot_state(s + 1) == DescriptorState::Finalized {
            self.lemma_run_end_congruent(other, s + 1);
        }
    }

    /// What a reservation of `size` bytes made of `pre`, leaving `self` and handing out
    /// `message`.
    pub open spec fn reserved_from(&self, pre: &Self, size: usize, message: ReservedMessage) -> bool {
        let k = pre.reserved();
        let start = pre.position();
        let cap = pre.capacity();
        let end = placed_end(start, block_size(size).unwrap(), cap);
        let previous_committed = k >= 1 && pre.slot_state(k - 1) == DescriptorState::Committed;
        &&& self.capacity() == cap
        &&& self.count() == pre.count()
        &&& self.reserved() == k + 1
        &&& message.number() == k
        &&& self.slot_state(k) == DescriptorState::Reserved
        &&& self.slot_metadata(k) is None
        &&& forall|i: int| 0 <= i < k - 1 ==> self.same_slot(pre, i)
        &&& k >= 1 ==> {
            &&& self.slot_state(k - 1) == if previous_committed {
                DescriptorState::Finalized
            } else {
                pre.slot_state(k - 1)
            }
            &&& self.slot_metadata(k - 1) == pre.slot_metadata(k - 1)
            &&& self.slot_block(k - 1) == pre.slot_block(k - 1)
            &&& self.stored_payload(k - 1) == pre.stored_payload(k - 1)
        }
        &&& self.last_finalized() as int == if previous_committed {
            self.finalized_run_end(pre.last_finalized() as int)
        } else {
            pre.last_finalized() as int
        }
        &&& if size == 0 {
            &&& self.contents() == pre.contents()
            &&& self.position() == start
            &&& self.slot_block(k) == (start, start)
        } else {
            &&& self.position() == end
            &&& self.slot_block(k) == (start, end)
            &&& self.contents() == if start as int / cap == wrapped_decrement(end) as int / cap {
                with_header(pre.contents(), start as int % cap, k as usize)
            } else {
                with_header(with_header(pre.contents(), start as int % cap, k as usize), 0, k as usize)
            }
        }
        &&& self.header_intact(k)
        &&& message.bytes() == self.contents().subrange(self.payload(k).0, self.payload(k).1)
        &&& message.bytes().len() >= size
    }

    /// Two reservations made one right after the other, whose blocks together fit in the rest
    /// of the lap where the first one starts, get payloads side by side: the header of the
    /// second one follows the payload of the first, so the two share no byte.
    pub proof fn lemma_reservations_side_by_side(
        pre: &Self,
        middle: &Self,
        post: &Self,
        first: usize,
        second: usize,
        first_message: ReservedMessage,
        second_message: ReservedMessage,
    )
        requires
            pre.wf(),
            middle.wf(),
            size_accepted(first, pre.capacity()),
            size_accepted(second, pre.capacity()),
            first > 0,
            second > 0,
            middle.reserved_from(pre, first, first_message),
            post.reserved_from(middle, second, second_message),
            pre.position() as int % pre.capacity() + block_size(first).unwrap() + block_size(
                second,
            ).unwrap() <= pre.capacity(),
        ensures
            post.payload(first_message.number() as int).0 < post.payload(
                first_message.number() as int,
            ).1,
            post.payload(first_message.number() as int).1 + HEADER_SIZE == post.payload(
                second_message.number() as int,
            ).0,
            post.payload(second_message.number() as int).0 < post.payload(
                second_message.number() as int,
            ).1,
    {
        pre.lemma_wf_basics();
        lemma_block_size(first);
        lemma_block_size(second);
        let k = pre.reserved();
        assert(post.slot_block(k) == middle.slot_block(k));
        lemma_blocks_side_by_side(
            pre.position(),
            block_size(first).unwrap(),
            block_size(second).unwrap(),
            pre.capacity(),
        );
    }

    /// Reserves at least `size` bytes in this [`Ringbuffer`].
    ///
    /// The returned buffer may be greater than or equal to `size`.
    #[verifier::rlimit(60)]
    #[verifier::spinoff_prover]
    pub fn reserve(&mut self, size: usize) -> (r: Option<ReservedMessage>)
        requires
            old(self).wf(),
            size_accepted(size, old(self).capacity()) ==> old(self).reserved() + 1 < old(self).count(),
        ensures
            final(self).wf(),
            r is Some <==> size_accepted(size, old(self).capacity()),
            r is None ==> *final(self) == *old(self),
            r matches Some(message) ==> final(self).reserved_from(old(self), size, message),
            final(self).last_finalized() >= old(self).last_finalized(),
    {
        proof {
            self.lemma_wf_basics();
            lemma_spaces();
        }
        let block_size = match Self::block_size_of(size) {
            Some(b) => b,
            None => return None,
        };
        if size != 0 && block_size > self.data_capacity / 2 {
            return None;
        }
        let ghost pre = *self;
        let ghost k = self.reserved();
        let ghost m = id_space();
        let ghost n = self.count();
        let current_id = self.descriptor_id_start.load();
        let id = current_id.next();
        let previous_wrap_id = id.prev_wrap(self.descriptor_count);
        proof {
            assert(id.0 == k);
            lemma_mod_multiples_vanish(1, k - n, m);
            vstd::arithmetic::div_mod::lemma_small_mod((m - n + k) as nat, m as nat);
            assert(previous_wrap_id.0 == m - n + k);
        }
        let _ = self.descriptor_id_start.compare_exchange(current_id, id);
        let index = id.to_raw() % self.descriptor_count;
        proof {
            vstd::arithmetic::div_mod::lemma_small_mod(k as nat, n as nat);
            assert(pre.slot_ok(k));
            lemma_pack((m - n + k) as usize, DescriptorState::MissingData);
        }
        let current_state_id = DescriptorStateId::new(previous_wrap_id, DescriptorState::MissingData);
        let new_state_id = DescriptorStateId::new(id, DescriptorState::Reserved);
        proof {
            assert(index == k);
            assert(self.descriptor_buffer@[k] == pre.descriptor_buffer@[k]);
            assert(pre.descriptor_buffer@[k].state_id.0 == m - n + k);
            assert(current_state_id.0 == pack((m - n + k) as usize, DescriptorState::MissingData));
            assert(self.descriptor_buffer@[index as int].state_id.0 == current_state_id.0);
        }
        let claimed = self.descriptor_buffer[index].state_id.compare_exchange(
            current_state_id,
            new_state_id,
        );
        if claimed.is_err() {
            return None;
        }
        let current_seq = self.descriptor_buffer[index].sequence;
        self.descriptor_buffer[index].sequence = current_seq.wrapping_add(
            self.descriptor_count as u64,
        );
        let capacity = self.data_capacity;
        let logical_start = self.logical_start;
        let mut logical_end = logical_start;
        let mut payload_start: usize = 0;
        let mut payload_end: usize = 0;
        proof {
            lemma_block_size(size);
        }
        if size != 0 {
            proof {
                lemma_placement(logical_start, block_size, capacity as int);
            }
            let end = logical_start.wrapping_add(block_size);
            let last = end.wrapping_sub(1);
            let moved = logical_start / capacity != last / capacity;
            logical_end = if moved {
                end / capacity * capacity + block_size
            } else {
                end
            };
            self.logical_start = logical_end;
            let block = self.data(logical_start);
            self.write_header(block, id);
            let block = if moved {
                let block = self.data(0);
                self.write_header(block, id);
                block
            } else {
                block
            };
            proof {
                assert(self.data_buffer@.subrange(block as int, block + HEADER_SIZE) =~= Seq::new(
                    HEADER_SIZE as nat,
                    |j: int| header_byte(k as usize, j),
                ));
                assert forall|x: int|
                    0 <= x < pre.data_buffer@.len() && self.data_buffer@[x]
                        != pre.data_buffer@[x] implies {
                    ||| (logical_start as int % capacity as int <= x < logical_start as int
                        % capacity as int + HEADER_SIZE)
                    ||| (moved && 0 <= x < HEADER_SIZE)
                } by {}
            }
            payload_start = block + HEADER_SIZE;
            payload_end = block + block_size;
        }
        self.descriptor_buffer[index].logical_start = logical_start;
        self.descriptor_buffer[index].logical_end = logical_end;
        let buffer = self.copy_out(payload_start, payload_end);
        let sequence = self.descriptor_buffer[index].sequence;
        let message = ReservedMessage { sequence, buffer };
        proof {
            vstd::arithmetic::div_mod::lemma_small_mod((k + 1) as nat, m as nat);
            assert(self.reserved() == k + 1);
            lemma_pack(k as usize, DescriptorState::Reserved);
            assert(self.descriptor_buffer@[k].sequence == k);
            assert(self.used_slot(k));
            assert(self.slot_ok(k));
            assert forall|i: int| 0 <= i < n && i != k implies {
                &&& self.descriptor_buffer@[i] == pre.descriptor_buffer@[i]
                &&& self.metadata_buffer@[i] == pre.metadata_buffer@[i]
                &&& (i < self.reserved() <==> i < pre.reserved())
            } by {}
            pre.lemma_empty_flag();
            assert forall|i: int| i != k implies #[trigger] self.is_finalized(i) == pre.is_finalized(i) by {
                if 0 <= i < k {
                    assert(self.descriptor_buffer@[i] == pre.descriptor_buffer@[i]);
                }
            }
            Self::lemma_any_finalized_same(&pre, self, k);
            Self::lemma_wf_transfer(&pre, self, k);
            assert forall|x: int|
                0 <= x < pre.contents().len() && self.contents()[x]
                    != pre.contents()[x] implies #[trigger] self.claims(k, x, x + 1) by {
                if size == 0 {
                    assert(self.contents() == pre.contents());
                }
            }
            assert forall|i: int| 0 <= i < k implies #[trigger] self.slot_block(i) == pre.slot_block(i)
                && self.slot_state(i) == pre.slot_state(i) by {
                assert(self.descriptor_buffer@[i] == pre.descriptor_buffer@[i]);
            }
            Self::lemma_reserve_keeps(&pre, self);
        }
        let ghost s1 = *self;
        let prev_id = id.prev();
        let prev_index = prev_id.to_raw() % self.descriptor_count;
        proof {
            if k == 0 {
                lemma_mod_multiples_vanish(1, -1, m);
                vstd::arithmetic::div_mod::lemma_small_mod((m - 1) as nat, m as nat);
                lemma_fundamental_div_mod(m, n);
                vstd::arithmetic::div_mod::lemma_mod_multiples_vanish(m / n - 1, n - 1, n);
                vstd::arithmetic::mul::lemma_mul_is_distributive_sub(n, m / n, 1);
                vstd::arithmetic::div_mod::lemma_small_mod((n - 1) as nat, n as nat);
                assert(prev_index == n - 1);
                assert(s1.slot_ok(n - 1));
                lemma_pack((m - 1) as usize, DescriptorState::Committed);
            } else {
                vstd::arithmetic::div_mod::lemma_small_mod((k - 1) as nat, m as nat);
                vstd::arithmetic::div_mod::lemma_small_mod((k - 1) as nat, n as nat);
                assert(prev_index == k - 1);
                assert(s1.slot_ok(k - 1));
                lemma_pack((k - 1) as usize, DescriptorState::Committed);
                lemma_pack((k - 1) as usize, DescriptorState::Finalized);
                lemma_unpack(s1.descriptor_buffer@[k - 1].state_id.0);
            }
        }
        let finalized_previous = self.descriptor_buffer[prev_index].state_id.compare_exchange(
            DescriptorStateId::new(prev_id, DescriptorState::Committed),
            DescriptorStateId::new(prev_id, DescriptorState::Finalized),
        ).is_ok();
        if finalized_previous {
            self.empty = false;
        }
        proof {
            assert(finalized_previous <==> (k >= 1 && s1.slot_state(k - 1)
                == DescriptorState::Committed));
            s1.lemma_empty_flag();
            if finalized_previous {
                assert(self.is_finalized(k - 1));
            } else {
                assert(self.descriptor_buffer@ =~= s1.descriptor_buffer@);
                assert forall|i: int| #[trigger] self.is_finalized(i) == s1.is_finalized(i) by {}
                Self::lemma_any_finalized_same(&s1, self, -1);
            }
            if k >= 1 && finalized_previous {
                assert(self.used_slot(k - 1));
            }
            assert(self.slot_ok(prev_index as int));
            assert forall|i: int| 0 <= i < n && i != prev_index implies {
                &&& self.descriptor_buffer@[i] == s1.descriptor_buffer@[i]
                &&& self.metadata_buffer@[i] == s1.metadata_buffer@[i]
                &&& (i < self.reserved() <==> i < s1.reserved())
            } by {}
            Self::lemma_wf_transfer(&s1, self, prev_index as int);
            assert forall|i: int| 0 <= i < s1.reserved() implies #[trigger] self.slot_block(i)
                == s1.slot_block(i) by {
                if i != prev_index {
                    assert(self.descriptor_buffer@[i] == s1.descriptor_buffer@[i]);
                }
            }
            assert forall|i: int|
                0 <= i < s1.reserved() && (self.slot_state(i) == DescriptorState::Committed
                    || self.slot_state(i) == DescriptorState::Finalized) implies (
                #[trigger] s1.slot_state(i) == DescriptorState::Committed || s1.slot_state(i)
                    == DescriptorState::Finalized) by {
                if i != prev_index {
                    assert(self.descriptor_buffer@[i] == s1.descriptor_buffer@[i]);
                }
            }
            Self::lemma_payloads_frame(&s1, self);
        }
        let ghost s2 = *self;
        if finalized_previous {
            self.update_last_finalized();
            proof {
                self.lemma_run_end_congruent(&s2, pre.last_finalized() as int);
            }
        }
        Some(message)
    }
}

impl<M: Metadata> Ringbuffer<M> {
    /// Whether `message` is a reservation of this buffer that is still open.
    pub open spec fn is_open(&self, message: &ReservedMessage) -> bool {
        &&& 0 <= message.number() < self.reserved()
        &&& self.slot_state(message.number() as int) == DescriptorState::Reserved
    }

    /// The data area of `self` with the payload of `message` written into its block, as far as
    /// both reach.
    pub open spec fn with_payload(&self, message: &ReservedMessage) -> Seq<u8> {
        let (p, q) = self.payload(message.number() as int);
        with_bytes(
            self.contents(),
            p,
            message.bytes().subrange(0, min(message.bytes().len() as int, q - p)),
        )
    }

    /// What storing `message` with `metadata` in the state `state` made of `pre`, leaving
    /// `self`, apart from the last finalized sequence number.
    pub open spec fn stored_from(
        &self,
        pre: &Self,
        message: &ReservedMessage,
        metadata: M,
        state: DescriptorState,
    ) -> bool {
        let s = message.number() as int;
        &&& self.capacity() == pre.capacity()
        &&& self.count() == pre.count()
        &&& self.reserved() == pre.reserved()
        &&& self.position() == pre.position()
        &&& forall|i: int| 0 <= i < pre.reserved() && i != s ==> self.same_slot(pre, i)
        &&& self.slot_state(s) == state
        &&& self.slot_metadata(s) == Some(metadata)
        &&& self.slot_block(s) == pre.slot_block(s)
        &&& self.stored_payload(s) == pre.with_payload(message).subrange(
            pre.payload(s).0,
            pre.payload(s).1,
        )
        &&& self.contents() == if pre.intact(s) {
            pre.with_payload(message)
        } else {
            pre.contents()
        }
    }

    /// Whether the block of a message after `sequence` has a header or payload byte in
    /// `[lo, hi)` of the data area.
    fn claimed_later(&self, sequence: u64, lo: usize, hi: usize) -> (r: bool)
        requires
            self.inv(),
            sequence < self.reserved(),
            lo <= hi <= self.capacity(),
        ensures
            r == exists|j: int| sequence < j < self.reserved() && #[trigger] self.claims(
                j,
                lo as int,
                hi as int,
            ),
    {
        proof {
            self.lemma_wf_basics();
            lemma_id_space();
        }
        if lo == hi {
            // An empty range holds no byte to claim.
            return false;
        }
        let reserved = self.descriptor_id_start.load().next().to_raw();
        let capacity = self.data_capacity;
        let mut j = sequence as usize + 1;
        while j < reserved
            invariant
                self.inv(),
                reserved == self.reserved(),
                capacity == self.data_capacity,
                1 <= self.capacity() <= word_space() / 2,
                self.reserved() < self.count(),
                HEADER_SIZE == 4 || HEADER_SIZE == 8,
                sequence < j,
                lo < hi <= self.capacity(),
                forall|t: int| sequence < t < j ==> !#[trigger] self.claims(t, lo as int, hi as int),
            decreases reserved - j,
        {
            let descriptor = &self.descriptor_buffer[j];
            if descriptor.logical_start != descriptor.logical_end {
                let header = descriptor.logical_start % capacity;
                let (p, q) = self.payload_bounds(descriptor);
                proof {
                    assert(self.slot_ok(j as int));
                }
                if (header < hi && lo < header + HEADER_SIZE) || (p - HEADER_SIZE < hi && lo < q) {
                    proof {
                        assert(self.claims(j as int, lo as int, hi as int));
                    }
                    return true;
                }
            }
            j = j + 1;
        }
        false
    }

    /// Writes the payload of an open reservation into its block, unless a later block has
    /// claimed part of it, and stores its metadata; the descriptor goes from `Reserved` to
    /// `state`.
    fn store_message(&mut self, message: &ReservedMessage, metadata: M, state: DescriptorState)
        requires
            old(self).wf(),
            old(self).is_open(message),
            state == DescriptorState::Committed || state == DescriptorState::Finalized,
        ensures
            final(self).inv(),
            final(self).payloads_kept(),
            state == DescriptorState::Committed ==> final(self).wf(),
            final(self).stored_from(old(self), message, metadata, state),
            final(self).last_finalized() == old(self).last_finalized(),
            final(self).descriptor_id_start == old(self).descriptor_id_start,
    {
        let ghost pre = *self;
        let ghost s = message.number() as int;
        proof {
            self.lemma_wf_basics();
            lemma_sequence_id(message.sequence);
            vstd::arithmetic::div_mod::lemma_small_mod(s as nat, id_space() as nat);
            vstd::arithmetic::div_mod::lemma_small_mod(s as nat, self.count() as nat);
            assert(self.slot_ok(s));
            lemma_unpack(self.descriptor_buffer@[s].state_id.0);
            lemma_pack(s as usize, DescriptorState::Reserved);
            lemma_pack(s as usize, state);
        }
        let id = DescriptorId::new_truncating(message.sequence as usize);
        let index = id.to_raw() % self.descriptor_count;
        let (start, end) = self.payload_bounds(&self.descriptor_buffer[index]);
        let available = end - start;
        let len = if message.buffer.len() < available {
            message.buffer.len()
        } else {
            available
        };
        let kept = !self.claimed_later(message.sequence, start, end);
        if kept {
            self.write_bytes(start, message.buffer.as_slice(), len);
        }
        let ghost written = pre.with_payload(message).subrange(start as int, end as int);
        self.stored = Ghost(self.stored@.update(s, written));
        self.metadata_buffer[index] = Some(metadata);
        let current_state_id = DescriptorStateId::new(id, DescriptorState::Reserved);
        let new_state_id = DescriptorStateId::new(id, state);
        let _ = self.descriptor_buffer[index].state_id.compare_exchange(
            current_state_id,
            new_state_id,
        );
        if state == DescriptorState::Finalized {
            self.empty = false;
        }
        proof {
            assert(self.used_slot(s));
            assert(self.slot_ok(s));
            pre.lemma_empty_flag();
            if state == DescriptorState::Finalized {
                assert(self.is_finalized(s));
            } else {
                assert forall|i: int| i != s implies #[trigger] self.is_finalized(i)
                    == pre.is_finalized(i) by {
                    if 0 <= i < pre.count() {
                        assert(self.descriptor_buffer@[i] == pre.descriptor_buffer@[i]);
                    }
                }
                Self::lemma_any_finalized_same(&pre, self, s);
                assert(!self.is_finalized(self.last_finalized_sequence as int + 1));
            }
            assert forall|i: int| 0 <= i < pre.count() && i != s implies {
                &&& self.descriptor_buffer@[i] == pre.descriptor_buffer@[i]
                &&& self.metadata_buffer@[i] == pre.metadata_buffer@[i]
                &&& (i < self.reserved() <==> i < pre.reserved())
            } by {}
            Self::lemma_wf_transfer(&pre, self, s);
            if kept {
                assert(self.contents() =~= pre.with_payload(message));
            }
            Self::lemma_store_keeps(&pre, self, s, kept);
        }
    }

    /// Storing the payload of message `s`, written only where no later block has claimed part of
    /// it, keeps the payloads of the other messages.
    #[verifier::spinoff_prover]
    proof fn lemma_store_keeps(pre: &Self, post: &Self, s: int, kept: bool)
        requires
            pre.wf(),
            post.inv(),
            0 <= s < pre.reserved(),
            pre.slot_state(s) == DescriptorState::Reserved,
            kept == pre.intact(s),
            post.data_capacity == pre.data_capacity,
            post.reserved() == pre.reserved(),
            post.descriptor_buffer@.len() == pre.descriptor_buffer@.len(),
            forall|i: int| 0 <= i < pre.count() ==> #[trigger] post.slot_block(i) == pre.slot_block(i),
            forall|i: int| 0 <= i < pre.count() && i != s ==> #[trigger] post.slot_state(i)
                == pre.slot_state(i),
            forall|i: int| 0 <= i < pre.count() && i != s ==> #[trigger] post.stored@[i]
                == pre.stored@[i],
            kept ==> post.contents().subrange(pre.payload(s).0, pre.payload(s).1)
                == post.stored@[s],
            kept ==> forall|x: int|
                0 <= x < pre.contents().len() && !(pre.payload(s).0 <= x < pre.payload(s).1)
                    ==> #[trigger] post.contents()[x] == pre.contents()[x],
            !kept ==> post.contents() == pre.contents(),
            post.contents().len() == pre.contents().len(),
        ensures
            post.payloads_kept(),
    {
        pre.lemma_wf_basics();
        assert forall|i: int| #[trigger] post.payload_kept(i) by {
            assert(pre.payload_kept(i));
            if 0 <= i < post.reserved() && (post.slot_state(i) == DescriptorState::Committed
                || post.slot_state(i) == DescriptorState::Finalized) && post.intact(i) {
                assert(post.slot_block(i) == pre.slot_block(i));
                assert(pre.slot_ok(i));
                assert forall|j: int| i < j < pre.reserved() implies !#[trigger] pre.claims(
                    j,
                    pre.payload(i).0,
                    pre.payload(i).1,
                ) by {
                    assert(post.slot_block(j) == pre.slot_block(j));
                    assert(!post.claims(j, post.payload(i).0, post.payload(i).1));
                }
                if i != s && kept {
                    let (p, q) = pre.payload(i);
                    let (ps, qs) = pre.payload(s);
                    assert(pre.slot_ok(s));
                    if p < q && ps < qs {
                        if i < s {
                            assert(!pre.claims(s, p, q));
                        } else {
                            assert(!pre.claims(i, ps, qs));
                        }
                        assert(qs <= p || q <= ps);
                    }
                    assert(post.contents().subrange(p, q) =~= pre.contents().subrange(p, q));
                }
            }
        }
    }
}

impl<M: Metadata> Ringbuffer<M> {
    /// Storing a message is unaffected by a change of the last finalized sequence number.
    proof fn lemma_stored_frame(
        a: &Self,
        b: &Self,
        pre: &Self,
        message: &ReservedMessage,
        metadata: M,
        state: DescriptorState,
    )
        requires
            b.stored_from(pre, message, metadata, state),
            a.data_capacity == b.data_capacity,
            a.data_buffer == b.data_buffer,
            a.logical_start == b.logical_start,
            a.descriptor_count == b.descriptor_count,
            a.descriptor_buffer == b.descriptor_buffer,
            a.metadata_buffer == b.metadata_buffer,
            a.descriptor_id_start == b.descriptor_id_start,
            a.stored == b.stored,
        ensures
            a.stored_from(pre, message, metadata, state),
    {
        assert forall|i: int|
            0 <= i < pre.reserved() && i != message.number() as int implies a.same_slot(pre, i) by {
            assert(b.same_slot(pre, i));
        }
    }
}

impl ReservedMessage {
    /// Commits the [`Message`] and associated [`Metadata`] into the associated [`Ringbuffer`].
    ///
    /// The newest message stays committed; any other message is finalized at once.
    pub fn commit<M: Metadata>(self, ringbuffer: &mut Ringbuffer<M>, metadata: M) -> (r:
        CommittedMessage<M>)
        requires
            old(ringbuffer).wf(),
            old(ringbuffer).is_open(&self),
        ensures
            final(ringbuffer).wf(),
            final(ringbuffer).last_finalized() >= old(ringbuffer).last_finalized(),
            r.number() == self.number(),
            r.metadata_value() == metadata,
            self.number() == old(ringbuffer).reserved() - 1 ==> {
                &&& final(ringbuffer).stored_from(
                    old(ringbuffer),
                    &self,
                    metadata,
                    DescriptorState::Committed,
                )
                &&& final(ringbuffer).last_finalized() == old(ringbuffer).last_finalized()
            },
            self.number() != old(ringbuffer).reserved() - 1 ==> {
                &&& final(ringbuffer).stored_from(
                    old(ringbuffer),
                    &self,
                    metadata,
                    DescriptorState::Finalized,
                )
                &&& final(ringbuffer).last_finalized() as int == final(ringbuffer).finalized_run_end(
                    old(ringbuffer).last_finalized() as int,
                )
            },
    {
        let sequence = self.sequence;
        let id = DescriptorId::new_truncating(sequence as usize);
        ringbuffer.store_message(&self, metadata, DescriptorState::Committed);
        let ghost stored = *ringbuffer;
        let ghost s = sequence as int;
        let ghost k = ringbuffer.reserved();
        let descriptor_id_start = ringbuffer.descriptor_id_start.load();
        proof {
            ringbuffer.lemma_wf_basics();
            lemma_sequence_id(sequence);
            vstd::arithmetic::div_mod::lemma_small_mod(s as nat, id_space() as nat);
            vstd::arithmetic::div_mod::lemma_small_mod(s as nat, ringbuffer.count() as nat);
            if descriptor_id_start.0 == id_space() - 1 {
                vstd::arithmetic::div_mod::lemma_mod_self_0(id_space());
            } else {
                vstd::arithmetic::div_mod::lemma_small_mod(
                    (descriptor_id_start.0 + 1) as nat, id_space() as nat);
            }
            assert(descriptor_id_start.0 == k - 1);
        }
        if descriptor_id_start != id {
            let index = id.to_raw() % ringbuffer.descriptor_count;
            proof {
                assert(ringbuffer.slot_ok(s));
                lemma_pack(s as usize, DescriptorState::Committed);
                lemma_pack(s as usize, DescriptorState::Finalized);
            }
            let current_state_id = DescriptorStateId::new(id, DescriptorState::Committed);
            let new_state_id = DescriptorStateId::new(id, DescriptorState::Finalized);
            let finalized = ringbuffer.descriptor_buffer[index].state_id.compare_exchange(
                current_state_id,
                new_state_id,
            ).is_ok();
            ringbuffer.empty = false;
            proof {
                assert(finalized) by {
                    assert(ringbuffer.slot_ok(s));
                    lemma_unpack(stored.descriptor_buffer@[s].state_id.0);
                }
                assert(ringbuffer.used_slot(s));
                assert(ringbuffer.slot_ok(s));
                assert forall|i: int| 0 <= i < stored.count() && i != s implies {
                    &&& ringbuffer.descriptor_buffer@[i] == stored.descriptor_buffer@[i]
                    &&& ringbuffer.metadata_buffer@[i] == stored.metadata_buffer@[i]
                    &&& (i < ringbuffer.reserved() <==> i < stored.reserved())
                } by {}
                assert(ringbuffer.is_finalized(s));
                Ringbuffer::lemma_wf_transfer(&stored, ringbuffer, s);
                assert forall|i: int| 0 <= i < stored.reserved() implies #[trigger] ringbuffer.slot_block(i)
                    == stored.slot_block(i) by {
                    if i != s {
                        assert(ringbuffer.descriptor_buffer@[i] == stored.descriptor_buffer@[i]);
                    }
                }
                assert forall|i: int|
                    0 <= i < stored.reserved() && (ringbuffer.slot_state(i) == DescriptorState::Committed
                        || ringbuffer.slot_state(i) == DescriptorState::Finalized) implies (
                    #[trigger] stored.slot_state(i) == DescriptorState::Committed || stored.slot_state(i)
                        == DescriptorState::Finalized) by {
                    if i != s {
                        assert(ringbuffer.descriptor_buffer@[i] == stored.descriptor_buffer@[i]);
                    }
                }
                Ringbuffer::lemma_payloads_frame(&stored, ringbuffer);
            }
            let ghost finalized_state = *ringbuffer;
            proof {
                assert forall|i: int|
                    0 <= i < old(ringbuffer).reserved() && i != s implies finalized_state.same_slot(
                    old(ringbuffer),
                    i,
                ) by {
                    assert(stored.same_slot(old(ringbuffer), i));
                    assert(finalized_state.descriptor_buffer@[i] == stored.descriptor_buffer@[i]);
                }
                assert(finalized_state.slot_state(s) == DescriptorState::Finalized);
                assert(finalized_state.stored_from(
                    old(ringbuffer),
                    &self,
                    metadata,
                    DescriptorState::Finalized,
                ));
            }
            if finalized {
                ringbuffer.update_last_finalized();
                proof {
                    ringbuffer.lemma_run_end_congruent(&finalized_state, stored.last_finalized() as int);
                    Ringbuffer::lemma_stored_frame(
                        ringbuffer,
                        &finalized_state,
                        old(ringbuffer),
                        &self,
                        metadata,
                        DescriptorState::Finalized,
                    );
                }
            }
        }
        CommittedMessage { sequence, metadata }
    }

    /// Finalizes the [`Message`], which closes the editing window.
    pub fn finalize<M: Metadata>(self, ringbuffer: &mut Ringbuffer<M>, metadata: M)
        requires
            old(ringbuffer).wf(),
            old(ringbuffer).is_open(&self),
        ensures
            final(ringbuffer).wf(),
            final(ringbuffer).stored_from(
                old(ringbuffer),
                &self,
                metadata,
                DescriptorState::Finalized,
            ),
            final(ringbuffer).last_finalized() as int == final(ringbuffer).finalized_run_end(
                old(ringbuffer).last_finalized() as int,
            ),
            final(ringbuffer).last_finalized() >= old(ringbuffer).last_finalized(),
    {
        ringbuffer.store_message(&self, metadata, DescriptorState::Finalized);
        let ghost stored = *ringbuffer;
        ringbuffer.update_last_finalized();
        proof {
            ringbuffer.lemma_run_end_congruent(&stored, stored.last_finalized() as int);
            Ringbuffer::lemma_stored_frame(
                ringbuffer,
                &stored,
                old(ringbuffer),
                &self,
                metadata,
                DescriptorState::Finalized,
            );
        }
    }
}

impl<M: Metadata> CommittedMessage<M> {
    /// The sequence number of the committed message.
    pub closed spec fn number(&self) -> u64 {
        self.sequence
    }

    /// The metadata the message was committed with.
    pub closed spec fn metadata_value(&self) -> M {
        self.metadata
    }

    /// Attempts to reopen the [`CommittedMessage`] for additional manipulation.
    ///
    /// This buffer does not reopen messages: the attempt always fails and hands the committed
    /// message back unchanged.
    pub fn reopen(self, additional_size: usize) -> (r: Result<(ReservedMessage, M), Self>)
        ensures
            r matches Err(m) && m == self,
    {
        Err(self)
    }
}

impl<M: Metadata> Ringbuffer<M> {
    /// A finalized message is read back under its own sequence number.
    pub proof fn lemma_read_finalized(&self, s: u64)
        requires
            self.wf(),
            self.is_finalized(s as int),
        ensures
            self.read_target(s) == Some(s),
    {
    }

    /// The last finalized sequence number is the base one or a reserved message, and the message
    /// after it is not finalized: every finalization moves it past the finalized messages that
    /// follow it.
    pub proof fn lemma_last_finalized_settled(&self)
        requires
            self.wf(),
        ensures
            self.last_finalized() == BASE_SEQUENCE || self.last_finalized() < self.reserved(),
            !self.is_finalized(self.last_finalized() + 1),
    {
    }

    /// Once every reserved message is finalized, the next log message is the one after the
    /// newest: `next_sequence` and `next_reserve_sequence` agree.
    pub proof fn lemma_all_finalized(&self)
        requires
            self.wf(),
            self.reserved() >= 1,
            forall|i: int| 0 <= i < self.reserved() ==> self.is_finalized(i),
        ensures
            self.any_finalized(),
            self.last_finalized() + 1 == self.reserved(),
    {
        assert(self.is_finalized(0));
        if self.last_finalized() + 1 < self.reserved() {
            assert(self.is_finalized(self.last_finalized() + 1));
        }
    }

    /// A sequence number that no reservation has reached yet, below the descriptors that are
    /// skipped as empty, reads as nothing.
    pub proof fn lemma_read_unreserved(&self, s: u64)
        requires
            self.wf(),
            self.reserved() <= s < id_space() - self.count() + self.reserved(),
        ensures
            self.read_target(s) == None::<u64>,
    {
        self.lemma_wf_basics();
        vstd::arithmetic::div_mod::lemma_small_mod(s as nat, id_space() as nat);
    }

    /// Whether byte `x` of the data area belongs to the block of message `j`: a byte of the header
    /// written at the block's start position, of the header in front of its payload, or of its
    /// payload.
    pub open spec fn block_byte(&self, j: int, x: int) -> bool {
        let block = self.slot_block(j);
        let header = block.0 as int % self.capacity();
        &&& block.0 != block.1
        &&& (header <= x < header + HEADER_SIZE || self.payload(j).0 - HEADER_SIZE <= x
            < self.payload(j).1)
    }

    /// The block of message `j` claims the range `[lo, hi)` exactly when one of its bytes lies
    /// in it: a range that only touches the block, or an empty one, is not claimed.
    pub proof fn lemma_claims_bytes(&self, j: int, lo: int, hi: int)
        ensures
            self.claims(j, lo, hi) <==> exists|x: int| lo <= x < hi && #[trigger] self.block_byte(j, x),
    {
        let block = self.slot_block(j);
        let h = block.0 as int % self.capacity();
        let p = self.payload(j).0 - HEADER_SIZE;
        let q = self.payload(j).1;
        if self.claims(j, lo, hi) {
            if overlaps(h, h + HEADER_SIZE, lo, hi) {
                let x = if h < lo { lo } else { h };
                assert(self.block_byte(j, x));
            } else {
                let x = if p < lo { lo } else { p };
                assert(self.block_byte(j, x));
            }
        }
        if exists|x: int| lo <= x < hi && #[trigger] self.block_byte(j, x) {
            let x = choose|x: int| lo <= x < hi && #[trigger] self.block_byte(j, x);
            assert(self.claims(j, lo, hi));
        }
    }

    /// The data of message `i` is still there exactly when no byte of a later block lies in its
    /// payload.
    pub proof fn lemma_intact_bytes(&self, i: int)
        ensures
            self.intact(i) <==> forall|j: int, x: int|
                i < j < self.reserved() && self.payload(i).0 <= x < self.payload(i).1
                    ==> !#[trigger] self.block_byte(j, x),
    {
        let (p, q) = self.payload(i);
        if self.intact(i) {
            assert forall|j: int, x: int|
                i < j < self.reserved() && p <= x < q implies !#[trigger] self.block_byte(j, x) by {
                self.lemma_claims_bytes(j, p, q);
                assert(!self.claims(j, p, q));
            }
        }
        if forall|j: int, x: int|
            i < j < self.reserved() && p <= x < q ==> !#[trigger] self.block_byte(j, x) {
            assert forall|j: int| i < j < self.reserved() implies !#[trigger] self.claims(j, p, q) by {
                self.lemma_claims_bytes(j, p, q);
            }
        }
    }

    /// A message without data, reserved with size 0, never loses it: once finalized it is valid
    /// for as long as it exists, and it reads back with the caller's buffer as it was.
    pub proof fn lemma_empty_message(&self, i: int, buffer: Seq<u8>)
        requires
            self.wf(),
            self.is_finalized(i),
            self.slot_block(i).0 == self.slot_block(i).1,
        ensures
            self.intact(i),
            self.is_valid(i),
            self.stored_payload(i).len() == 0,
            extract(self.stored_payload(i), 0, self.stored_payload(i).len() as int, buffer) == buffer,
    {
        let (p, q) = self.payload(i);
        assert(p == q);
        assert forall|j: int| i < j < self.reserved() implies !#[trigger] self.claims(j, p, q) by {}
        assert(self.payload_kept(i));
        assert(extract(self.stored_payload(i), 0, 0, buffer) =~= buffer);
    }

    /// A reservation changes only bytes of the new message's block, and the bytes of that block
    /// outside its payload hold the new message's header.
    pub proof fn lemma_reserve_writes_own_block(
        pre: &Self,
        post: &Self,
        size: usize,
        message: ReservedMessage,
    )
        requires
            pre.wf(),
            post.wf(),
            size_accepted(size, pre.capacity()),
            post.reserved_from(pre, size, message),
        ensures
            forall|x: int|
                0 <= x < pre.capacity() && post.contents()[x] != pre.contents()[x]
                    ==> #[trigger] post.block_byte(pre.reserved(), x),
            forall|x: int|
                #[trigger] post.block_byte(pre.reserved(), x) && !(post.payload(pre.reserved()).0
                    <= x < post.payload(pre.reserved()).1) ==> exists|t: int|
                    0 <= t < HEADER_SIZE && post.contents()[x] == #[trigger] header_byte(
                        pre.reserved() as usize,
                        t,
                    ),
    {
        let k = pre.reserved();
        assert(post.slot_ok(k));
        pre.lemma_wf_basics();
        assert forall|x: int|
            0 <= x < pre.capacity() && post.contents()[x] != pre.contents()[x]
                implies #[trigger] post.block_byte(k, x) by {
            assert(size != 0);
        }
        assert forall|x: int|
            #[trigger] post.block_byte(k, x) && !(post.payload(k).0 <= x < post.payload(k).1)
                implies exists|t: int|
                0 <= t < HEADER_SIZE && post.contents()[x] == #[trigger] header_byte(k as usize, t) by {
            let h = post.slot_block(k).0 as int % post.capacity();
            let p = post.payload(k).0;
            assert(size != 0);
            lemma_block_size(size);
            lemma_placement(pre.position(), block_size(size).unwrap(), pre.capacity());
            if 0 <= x < HEADER_SIZE && !(pre.position() as int / pre.capacity() == wrapped_decrement(
                post.position(),
            ) as int / pre.capacity()) {
                assert(post.contents()[x] == header_byte(k as usize, x));
            } else if h <= x < h + HEADER_SIZE {
                assert(post.contents()[x] == header_byte(k as usize, x - h));
            } else {
                assert(post.contents()[x] == header_byte(k as usize, x - (p - HEADER_SIZE)));
            }
        }
    }

    /// Storing a message changes only bytes of its payload.
    pub proof fn lemma_store_writes_own_payload(
        pre: &Self,
        post: &Self,
        message: &ReservedMessage,
        metadata: M,
        state: DescriptorState,
    )
        requires
            pre.wf(),
            pre.is_open(message),
            post.stored_from(pre, message, metadata, state),
        ensures
            forall|x: int|
                0 <= x < pre.contents().len() && #[trigger] post.contents()[x] != pre.contents()[x]
                    ==> pre.payload(message.number() as int).0 <= x < pre.payload(
                    message.number() as int,
                ).1,
    {
        let s = message.number() as int;
        assert(pre.slot_ok(s));
        let (p, q) = pre.payload(s);
        let n = min(message.bytes().len() as int, q - p);
        assert(0 <= n <= q - p);
        assert(message.bytes().subrange(0, n).len() == n);
    }

    /// Committing or finalizing a message records the bytes written into its reservation, as
    /// far as its block reaches, as its stored payload: the payload that `read` hands back for
    /// as long as the message's data is still there. A finalized message is found by its own
    /// sequence number, with the metadata it was stored with.
    pub proof fn lemma_stored_payload(
        pre: &Self,
        post: &Self,
        message: &ReservedMessage,
        metadata: M,
        state: DescriptorState,
    )
        requires
            pre.wf(),
            post.wf(),
            pre.is_open(message),
            post.stored_from(pre, message, metadata, state),
        ensures
            post.slot_metadata(message.number() as int) == Some(metadata),
            post.stored_payload(message.number() as int).len() == post.payload(
                message.number() as int,
            ).1 - post.payload(message.number() as int).0,
            forall|j: int|
                0 <= j < min(
                    message.bytes().len() as int,
                    post.stored_payload(message.number() as int).len() as int,
                ) ==> #[trigger] post.stored_payload(message.number() as int)[j]
                    == message.bytes()[j],
            state == DescriptorState::Finalized ==> post.read_target(message.number()) == Some(
                message.number(),
            ),
    {
        let s = message.number() as int;
        assert(pre.slot_ok(s));
        assert(post.slot_ok(s));
    }
}

} // verus!
