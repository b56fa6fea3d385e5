//! Descriptor identifiers, their packing together with a descriptor state into one word, and
//! the per-message descriptor record.
//!
//! A descriptor id lives in the low `usize::BITS - 2` bits of a word; the two high bits hold the
//! [`DescriptorState`]. Ids therefore form a modular space of `id_space()` values and all id
//! arithmetic is arithmetic modulo `id_space()`.

use vstd::arithmetic::div_mod::lemma_mod_multiples_vanish;
use vstd::prelude::*;

verus! {

pub const ID_SHIFT: u32 = 0;

pub const FLAGS_SHIFT: u32 = usize::BITS - 2;

pub const FLAGS_BASE_MASK: usize = 0b11;

pub const FLAGS_MASK: usize = 0b11usize << (usize::BITS - 2);

pub const ID_BASE_MASK: usize = !(0b11usize << (usize::BITS - 2));

pub const ID_MASK: usize = !(0b11usize << (usize::BITS - 2));

/// Number of distinct descriptor ids.
pub open spec fn id_space() -> int {
    ID_MASK as int + 1
}

/// Number of distinct `usize` values.
pub open spec fn word_space() -> int {
    usize::MAX as int + 1
}

/// The id mask keeps the low `usize::BITS - 2` bits, so ids form a space a quarter the size of
/// a word.
pub proof fn lemma_id_space()
    ensures
        ID_MASK == (!0usize) >> 2u32,
        ID_BASE_MASK == ID_MASK,
        FLAGS_MASK == !ID_MASK,
        !0usize == usize::MAX,
        word_space() == 4 * id_space(),
        id_space() >= 0x4000_0000,
        usize::BITS == 32 ==> id_space() == 0x4000_0000,
        usize::BITS == 64 ==> id_space() == 0x4000_0000_0000_0000,
{
    assert(!(0b11usize << ((usize::BITS - 2) as u32)) == (!0usize) >> 2u32) by (bit_vector);
    assert(((!0usize) >> 2u32) as int * 4 + 3 == (!0usize) as int) by (bit_vector);
    let m = usize::MAX;
    assert(m <= !0usize) by (bit_vector);
    assert(0b11usize << ((usize::BITS - 2) as u32) == !(!(0b11usize << ((usize::BITS - 2) as u32))))
        by (bit_vector);
}

/// Masking with `ID_MASK` is reduction modulo `id_space()`.
pub proof fn lemma_mask_is_mod(x: usize)
    ensures
        (x & ID_MASK) as int == x as int % id_space(),
{
    lemma_id_space();
    assert(x & ((!0usize) >> 2u32) == x % ((((!0usize) >> 2u32) + 1) as usize)) by (bit_vector);
}

/// A sequence number and its truncation to a word agree modulo `id_space()`.
pub proof fn lemma_sequence_id(s: u64)
    ensures
        (s as usize) as int % id_space() == s as int % id_space(),
{
    lemma_id_space();
    lemma_mask_is_mod(s as usize);
    assert(((s as usize) & ((!0usize) >> 2u32)) as u64 == s % ((((!0usize) >> 2u32) as u64 + 1) as u64))
        by (bit_vector);
}

/// A wrapped word value agrees with the unwrapped value modulo `id_space()`.
pub proof fn lemma_wrap_mod(v: int, w: int)
    requires
        w == v || w == v + word_space() || w == v - word_space(),
    ensures
        w % id_space() == v % id_space(),
{
    lemma_id_space();
    let m = id_space();
    if w == v + word_space() {
        lemma_mod_multiples_vanish(4, v, m);
    } else if w == v - word_space() {
        lemma_mod_multiples_vanish(-4, v, m);
    }
}

/// The state of a message descriptor.
#[derive(Clone, Copy, Debug, PartialEq, Eq, Structural)]
pub enum DescriptorState {
    /// The slot is empty or the data was overwritten.
    MissingData,
    /// A producer has claimed this slot and is currently writing to it.
    Reserved,
    /// The data is written, and the message is visible, but it might still be "reopened" for more
    /// data.
    Committed,
    /// The message is immutable and ready to be consumed or eventually overwritten.
    Finalized,
}

/// The two-bit code under which a state is stored.
pub open spec fn state_code(state: DescriptorState) -> usize {
    match state {
        DescriptorState::MissingData => 0,
        DescriptorState::Reserved => 1,
        DescriptorState::Committed => 2,
        DescriptorState::Finalized => 3,
    }
}

/// The state stored under a two-bit code.
pub open spec fn code_state(code: int) -> DescriptorState {
    if code == 0 {
        DescriptorState::MissingData
    } else if code == 1 {
        DescriptorState::Reserved
    } else if code == 2 {
        DescriptorState::Committed
    } else {
        DescriptorState::Finalized
    }
}

/// The word that holds `id` together with `state`.
pub open spec fn pack(id: usize, state: DescriptorState) -> usize {
    id | (state_code(state) << FLAGS_SHIFT)
}

/// Packing an id below `id_space()` is adding the state code times `id_space()`; unpacking
/// gives back both parts.
pub proof fn lemma_pack(id: usize, state: DescriptorState)
    requires
        (id as int) < id_space(),
    ensures
        pack(id, state) as int == id as int + state_code(state) as int * id_space(),
        pack(id, state) as int % id_space() == id as int,
        pack(id, state) as int / id_space() == state_code(state) as int,
        code_state(state_code(state) as int) == state,
{
    lemma_id_space();
    let c = state_code(state);
    assert(c <= 3);
    assert(id <= (!0usize) >> 2u32 ==> c <= 3 ==> (id | (c << ((usize::BITS - 2) as u32))) as int
        == id as int + c as int * ((((!0usize) >> 2u32) as int) + 1)) by (bit_vector);
    let p = pack(id, state) as int;
    assert(p == id as int + c as int * id_space());
    vstd::arithmetic::div_mod::lemma_fundamental_div_mod_converse(
        p,
        id_space(),
        c as int,
        id as int,
    );
}

/// Every word is the packing of its low bits with the state of its two high bits.
pub proof fn lemma_unpack(raw: usize)
    ensures
        0 <= raw as int / id_space() <= 3,
        ((raw >> FLAGS_SHIFT) & FLAGS_BASE_MASK) as int == raw as int / id_space(),
        raw == pack((raw as int % id_space()) as usize, code_state(raw as int / id_space())),
{
    lemma_id_space();
    lemma_mask_is_mod(raw);
    assert(((raw >> ((usize::BITS - 2) as u32)) & 3) as int * ((((!0usize) >> 2u32) as int) + 1)
        + (raw & ((!0usize) >> 2u32)) as int == raw as int) by (bit_vector);
    assert((raw >> ((usize::BITS - 2) as u32)) & 3 <= 3) by (bit_vector);
    let c = ((raw >> FLAGS_SHIFT) & FLAGS_BASE_MASK) as int;
    let lo = (raw & ID_MASK) as int;
    vstd::arithmetic::div_mod::lemma_fundamental_div_mod_converse(raw as int, id_space(), c, lo);
    let s = code_state(c);
    assert(state_code(s) as int == c);
    lemma_pack(lo as usize, s);
}

/// Packing is injective on ids below `id_space()`: two packed words are equal only when both
/// their ids and their states are.
pub proof fn lemma_pack_injective(id1: usize, state1: DescriptorState, id2: usize, state2: DescriptorState)
    requires
        (id1 as int) < id_space(),
        (id2 as int) < id_space(),
        pack(id1, state1) == pack(id2, state2),
    ensures
        id1 == id2,
        state1 == state2,
{
    lemma_pack(id1, state1);
    lemma_pack(id2, state2);
}

/// Stepping an id forward undoes stepping it back and the other way round; the difference of
/// the next id and an id is one, and an id is `n` ahead of its id `n` wraps earlier, all modulo
/// `id_space()`.
pub proof fn lemma_id_steps(x: int, n: int)
    requires
        0 <= x < id_space(),
    ensures
        ((x - 1) % id_space() + 1) % id_space() == x,
        ((x + 1) % id_space() - 1) % id_space() == x,
        ((x + 1) % id_space() - x) % id_space() == 1,
        (x - (x - n) % id_space()) % id_space() == n % id_space(),
{
    lemma_id_space();
    let m = id_space();
    vstd::arithmetic::div_mod::lemma_add_mod_noop(x - 1, 1, m);
    vstd::arithmetic::div_mod::lemma_mod_twice(x - 1, m);
    vstd::arithmetic::div_mod::lemma_small_mod(1, m as nat);
    vstd::arithmetic::div_mod::lemma_small_mod(x as nat, m as nat);
    vstd::arithmetic::div_mod::lemma_sub_mod_noop(x + 1, 1, m);
    vstd::arithmetic::div_mod::lemma_sub_mod_noop(x + 1, x, m);
    vstd::arithmetic::div_mod::lemma_sub_mod_noop(x, x - n, m);
    vstd::arithmetic::div_mod::lemma_mod_twice(x + 1, m);
    vstd::arithmetic::div_mod::lemma_mod_twice(x - n, m);
    vstd::arithmetic::div_mod::lemma_sub_mod_noop_right(x, x - n, m);
}

/// An identifier of a descriptor slot, counted modulo `id_space()`.
#[derive(Clone, Copy, Debug, PartialEq, Eq, PartialOrd, Ord, Structural)]
pub struct DescriptorId(pub usize);

impl DescriptorId {
    /// Creates a new [`DescriptorId`] from the raw value.
    pub fn from_raw(val: usize) -> (r: Self)
        ensures
            r.0 == val,
    {
        Self(val)
    }

    /// Creates a new [`DescriptorId`] from the provided value, truncating as necessary.
    pub fn new_truncating(val: usize) -> (r: Self)
        ensures
            r.0 as int == val as int % id_space(),
    {
        proof {
            lemma_mask_is_mod(val);
        }
        Self(val & ID_MASK)
    }

    /// Returns the previous [`DescriptorId`] in the modular representation.
    pub fn prev(self) -> (r: Self)
        ensures
            r.0 as int == (self.0 as int - 1) % id_space(),
    {
        let w = self.to_raw().wrapping_sub(1);
        proof {
            lemma_wrap_mod(self.0 as int - 1, w as int);
        }
        Self::new_truncating(w)
    }

    /// Returns the next [`DescriptorId`] in the modular representation.
    pub fn next(self) -> (r: Self)
        ensures
            r.0 as int == (self.0 as int + 1) % id_space(),
    {
        let w = self.to_raw().wrapping_add(1);
        proof {
            lemma_wrap_mod(self.0 as int + 1, w as int);
        }
        Self::new_truncating(w)
    }

    /// Returns the [`DescriptorId`] associated with the same index, but one wrap earlier.
    pub fn prev_wrap(self, descriptor_count: usize) -> (r: Self)
        ensures
            r.0 as int == (self.0 as int - descriptor_count as int) % id_space(),
    {
        let w = self.to_raw().wrapping_sub(descriptor_count);
        proof {
            lemma_wrap_mod(self.0 as int - descriptor_count as int, w as int);
        }
        Self::new_truncating(w)
    }

    /// Returns how many [`DescriptorId`]s `self` is ahead of `lhs`.
    pub fn difference(self, lhs: Self) -> (r: usize)
        ensures
            r as int == (self.0 as int - lhs.0 as int) % id_space(),
    {
        let w = self.to_raw().wrapping_sub(lhs.to_raw());
        proof {
            lemma_wrap_mod(self.0 as int - lhs.0 as int, w as int);
            lemma_mask_is_mod(w);
        }
        w & ID_MASK
    }

    /// Returns the raw representation of this [`DescriptorId`].
    pub fn to_raw(self) -> (r: usize)
        ensures
            r == self.0,
    {
        self.0
    }

    /// The id of the first message.
    pub fn base_id() -> (r: Self)
        ensures
            r.0 == 0,
    {
        Self::new_truncating(0)
    }
}

/// A descriptor id and a descriptor state, packed into one word.
#[derive(Clone, Copy, Debug, PartialEq, Eq, Structural)]
pub struct DescriptorStateId(pub usize);

impl DescriptorStateId {
    pub fn from_raw(val: usize) -> (r: Self)
        ensures
            r.0 == val,
    {
        Self(val)
    }

    pub fn new(id: DescriptorId, state: DescriptorState) -> (r: Self)
        ensures
            r.0 == pack(id.0, state),
    {
        let raw_state: usize = match state {
            DescriptorState::MissingData => 0b00,
            DescriptorState::Reserved => 0b01,
            DescriptorState::Committed => 0b10,
            DescriptorState::Finalized => 0b11,
        };
        let raw_id = id.to_raw();
        assert(raw_id << 0u32 == raw_id) by (bit_vector);
        Self((raw_id << ID_SHIFT) | (raw_state << FLAGS_SHIFT))
    }

    pub fn id(self) -> (r: DescriptorId)
        ensures
            r.0 as int == self.0 as int % id_space(),
    {
        let raw = self.0;
        proof {
            lemma_id_space();
            lemma_mask_is_mod(raw);
            assert(raw >> 0u32 == raw) by (bit_vector);
        }
        DescriptorId::from_raw((raw >> ID_SHIFT) & ID_BASE_MASK)
    }

    pub fn state(self) -> (r: DescriptorState)
        ensures
            r == code_state(self.0 as int / id_space()),
    {
        proof {
            lemma_unpack(self.0);
        }
        let code = (self.0 >> FLAGS_SHIFT) & FLAGS_BASE_MASK;
        if code == 0b00 {
            DescriptorState::MissingData
        } else if code == 0b01 {
            DescriptorState::Reserved
        } else if code == 0b10 {
            DescriptorState::Committed
        } else {
            DescriptorState::Finalized
        }
    }

    pub fn to_raw(self) -> (r: usize)
        ensures
            r == self.0,
    {
        self.0
    }
}

/// A cell holding a [`DescriptorStateId`].
pub struct AtomicDescriptorStateId(pub usize);

impl AtomicDescriptorStateId {
    pub fn new(id: DescriptorStateId) -> (r: Self)
        ensures
            r.0 == id.0,
    {
        Self(id.to_raw())
    }

    pub fn load(&self) -> (r: DescriptorStateId)
        ensures
            r.0 == self.0,
    {
        DescriptorStateId::from_raw(self.0)
    }

    pub fn store(&mut self, id: DescriptorStateId)
        ensures
            final(self).0 == id.0,
    {
        self.0 = id.to_raw();
    }

    /// Replaces the held value by `new` if it equals `current`; returns the held value, as `Ok`
    /// when it was replaced and as `Err` when it was not.
    pub fn compare_exchange(&mut self, current: DescriptorStateId, new: DescriptorStateId) -> (r:
        Result<DescriptorStateId, DescriptorStateId>)
        ensures
            old(self).0 == current.0 ==> final(self).0 == new.0 && r == Ok::<
                DescriptorStateId,
                DescriptorStateId,
            >(current),
            old(self).0 != current.0 ==> final(self).0 == old(self).0 && r == Err::<
                DescriptorStateId,
                DescriptorStateId,
            >(DescriptorStateId(old(self).0)),
    {
        if self.0 == current.to_raw() {
            self.0 = new.to_raw();
            Ok(current)
        } else {
            Err(DescriptorStateId::from_raw(self.0))
        }
    }
}

/// A cell holding a [`DescriptorId`].
pub struct AtomicDescriptorId(pub usize);

impl AtomicDescriptorId {
    pub fn new(id: DescriptorId) -> (r: Self)
        ensures
            r.0 == id.0,
    {
        Self(id.to_raw())
    }

    pub fn load(&self) -> (r: DescriptorId)
        ensures
            r.0 == self.0,
    {
        DescriptorId::from_raw(self.0)
    }

    pub fn store(&mut self, id: DescriptorId)
        ensures
            final(self).0 == id.0,
    {
        self.0 = id.to_raw();
    }

    /// Replaces the held id by `new` if it equals `current`; returns the held id, as `Ok` when
    /// it was replaced and as `Err` when it was not.
    pub fn compare_exchange(&mut self, current: DescriptorId, new: DescriptorId) -> (r: Result<
        DescriptorId,
        DescriptorId,
    >)
        ensures
            old(self).0 == current.0 ==> final(self).0 == new.0 && r == Ok::<
                DescriptorId,
                DescriptorId,
            >(current),
            old(self).0 != current.0 ==> final(self).0 == old(self).0 && r == Err::<
                DescriptorId,
                DescriptorId,
            >(DescriptorId(old(self).0)),
    {
        if self.0 == current.to_raw() {
            self.0 = new.to_raw();
            Ok(current)
        } else {
            Err(DescriptorId::from_raw(self.0))
        }
    }
}

} // verus!
