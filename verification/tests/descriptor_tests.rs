use ringbuffer::{DescriptorId, DescriptorState, DescriptorStateId};

const ID_MAX: usize = usize::MAX >> 2;

#[test]
fn ids_count_modulo_the_id_space() {
    let base = DescriptorId::base_id();
    assert_eq!(base.to_raw(), 0);
    let before = base.prev();
    assert_eq!(before.to_raw(), ID_MAX);
    assert_eq!(before.next(), base);
    assert_eq!(base.next().prev(), base);
    assert_eq!(DescriptorId::new_truncating(usize::MAX).to_raw(), ID_MAX);
    assert_eq!(DescriptorId::new_truncating(ID_MAX + 6).to_raw(), 5);
}

#[test]
fn id_differences_and_wraps() {
    let five = DescriptorId::from_raw(5);
    let three = DescriptorId::from_raw(3);
    assert_eq!(five.difference(three), 2);
    assert_eq!(three.difference(five), ID_MAX - 1);
    assert_eq!(five.next().difference(five), 1);
    let wrapped = DescriptorId::from_raw(2).prev_wrap(4);
    assert_eq!(wrapped.to_raw(), ID_MAX - 1);
    assert_eq!(DescriptorId::from_raw(2).difference(wrapped), 4);
}

#[test]
fn state_ids_pack_id_and_state() {
    let id = DescriptorId::from_raw(5);
    let packed = DescriptorStateId::new(id, DescriptorState::Committed);
    assert_eq!(packed.to_raw(), 5 | (2 << (usize::BITS - 2)));
    assert_eq!(packed.id(), id);
    assert_eq!(packed.state(), DescriptorState::Committed);
    for state in [
        DescriptorState::MissingData,
        DescriptorState::Reserved,
        DescriptorState::Committed,
        DescriptorState::Finalized,
    ] {
        let packed = DescriptorStateId::new(DescriptorId::from_raw(ID_MAX), state);
        assert_eq!(packed.id().to_raw(), ID_MAX);
        assert_eq!(packed.state(), state);
    }
    let all_ones = DescriptorStateId::from_raw(usize::MAX);
    assert_eq!(all_ones.id().to_raw(), ID_MAX);
    assert_eq!(all_ones.state(), DescriptorState::Finalized);
    assert_eq!(DescriptorStateId::new(all_ones.id(), all_ones.state()), all_ones);
}
