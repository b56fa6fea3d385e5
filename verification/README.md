# ringbuffer

A ring buffer of log messages, verified with Verus.

A producer calls `Ringbuffer::reserve` to claim room for a message, writes the payload through
`ReservedMessage::buffer_mut`, and hands the message back with `commit` or `finalize` together
with its metadata. Readers call `Ringbuffer::read` with a sequence number and get the metadata
of a finalized message and, while no later block has claimed part of its payload, a copy of
the payload it was stored with.

Layout of `src/`:

- `descriptor.rs`: descriptor ids (counted modulo `id_space()`), the packing of an id and a
  `DescriptorState` into one word, and the laws of both.
- `powers.rs`: powers of two and the modular facts the index arithmetic rests on.
- `ringbuffer.rs`: the buffer itself, its invariant `wf`, the model its contracts speak of
  (`reserved`, `slot_state`, `slot_metadata`, `payload`, `contents`, `read_target`, ...), the
  operations and the laws relating them.
