use logicsim::data_structures::bit_iter::{word_mask_64, word_mask_8, BitIter};
use logicsim::data_structures::double_stack::DoubleStack;
use logicsim::data_structures::immutable::Immutable;
use logicsim::data_structures::slab::{Slab, SlabIndex};
use logicsim::data_structures::state::State;

fn si(i: usize) -> SlabIndex {
    SlabIndex::i_actually_really_know_what_i_am_doing_and_i_want_to_construct_from_usize(i)
}

fn inner(i: SlabIndex) -> usize {
    i.i_actually_really_know_what_i_am_doing_and_i_want_the_inner_usize()
}

#[test]
fn test_push_pop() {
    let mut s: DoubleStack<u8> = Default::default();

    assert_eq!(s.pop(), None);

    for i in 0..10 {
        s.push(i);
        assert_eq!(s.pop(), None);
    }

    s.swap();

    for i in (0..10).rev() {
        s.push(i);
        assert_eq!(s.pop(), Some(i));
    }
    assert_eq!(s.pop(), None);

    s.swap();

    for i in 0..10 {
        assert_eq!(s.pop(), Some(i));
    }
    assert_eq!(s.pop(), None);
}

#[test]
fn test_extend() {
    let mut s: DoubleStack<u8> = Default::default();

    s.extend((0..10).collect());
    assert_eq!(s.pop(), None);

    s.swap();
    for i in (0..10).rev() {
        assert_eq!(s.pop(), Some(i))
    }
    assert_eq!(s.pop(), None);
}

#[test]
fn test_extend_from_slice() {
    let mut s: DoubleStack<u8> = Default::default();

    s.extend((0..10).collect());
    assert_eq!(s.pop(), None);

    s.swap();
    for i in (0..10).rev() {
        assert_eq!(s.pop(), Some(i))
    }
    assert_eq!(s.pop(), None);
}

#[test]
fn double_stack_extend_from_slice_copies() {
    let mut s: DoubleStack<u8> = DoubleStack::new();
    let items: Vec<u8> = (0..10).collect();
    s.extend_from_slice(&items);
    assert_eq!(s.len(), 10);
    assert_eq!(s.pop(), None);
    s.swap();
    for i in (0..10).rev() {
        assert_eq!(s.pop(), Some(i))
    }
    assert!(s.is_empty());
}

#[test]
fn test_from_iter() {
    let mut s: DoubleStack<u8> = DoubleStack::from_vec((0..10).collect());

    assert_eq!(s.pop(), None);

    s.swap();
    for i in (0..10).rev() {
        assert_eq!(s.pop(), Some(i))
    }
    assert_eq!(s.pop(), None);
}

#[test]
fn double_stack_law_last_pushed_first_popped() {
    let mut s: DoubleStack<u32> = DoubleStack::new();
    s.push(7);
    s.push(9);
    s.swap();
    assert_eq!(s.pop(), Some(9));
    assert_eq!(s.pop(), Some(7));
    assert_eq!(s.pop(), None);
}

#[test]
fn double_stack_size_counts_additions_and_pops() {
    let mut s: DoubleStack<u32> = DoubleStack::new();
    assert!(s.is_empty());
    s.push(1);
    s.extend(vec![2, 3]);
    s.extend_from_slice(&[4]);
    assert_eq!(s.len(), 4);
    assert_eq!(s.pop(), None);
    assert_eq!(s.len(), 4);
    s.swap();
    assert_eq!(s.pop(), Some(4));
    assert_eq!(s.pop(), Some(3));
    assert_eq!(s.len(), 2);
    s.push(5);
    assert_eq!(s.len(), 3);
    assert!(!s.is_empty());
}

#[test]
fn test_immutable() {
    let i = Immutable::new(vec![1, 2, 3]);

    assert_eq!(i[2], 3);
    assert_eq!(i.get().len(), 3);
}

#[test]
fn test_insert_get() {
    let mut s: Slab<i32> = Default::default();

    assert_eq!(s.get(si(0)), None);

    let index = s.insert(1);
    assert_eq!(*s.get(index).unwrap(), 1);
    assert_eq!(s.get(si(1)), None);

    s.remove(index);
    assert_eq!(s.get(index), None);
}

#[test]
fn test_get_mut() {
    let mut s: Slab<i32> = Default::default();

    assert_eq!(s.get_mut(si(0)), None);

    let index = s.insert(1);
    assert_eq!(*s.get_mut(index).unwrap(), 1);
    assert_eq!(s.get_mut(si(1)), None);

    s.remove(index);
    assert_eq!(s.get_mut(index), None);
}

#[test]
fn slab_get_mut_writes_through() {
    let mut s: Slab<i32> = Slab::new();
    let index = s.insert(1);
    *s.get_mut(index).unwrap() = 5;
    assert_eq!(s.get(index), Some(&5));
}

#[test]
fn test_remove() {
    let mut s = Slab::new();

    assert_eq!(s.remove(si(0)), None);

    let index = s.insert(1);
    assert_eq!(s.remove(index), Some(1));

    let new_index = s.insert(2);
    assert_eq!(index, new_index);
    assert_eq!(s.remove(new_index), Some(2));
}

#[test]
fn slab_law_reuses_last_removed_first() {
    let mut s = Slab::new();
    let a = s.insert('a');
    let b = s.insert('b');
    let c = s.insert('c');
    s.remove(a);
    s.remove(c);
    assert_eq!(s.insert('x'), c);
    assert_eq!(s.insert('y'), a);
    assert_eq!(s.insert('z'), si(3));
    assert_eq!(s.get(b), Some(&'b'));
}

#[test]
fn slab_test_len() {
    let mut s = Slab::new();

    assert_eq!(s.len(), 0);
    assert_eq!(s.is_empty(), true);
    assert_eq!(s.total_len(), 0);

    let index = s.insert(1);
    assert_eq!(s.len(), 1);
    assert_eq!(s.is_empty(), false);
    assert_eq!(s.total_len(), 1);

    s.remove(index);
    assert_eq!(s.len(), 0);
    assert_eq!(s.is_empty(), true);
    assert_eq!(s.total_len(), 1);
}

#[test]
fn test_iter() {
    let mut s = Slab::new();
    for i in 0..10 {
        s.insert(i);
    }
    for i in (1..10).step_by(2) {
        s.remove(si(i));
    }
    let mut it = s.iter();
    let mut count = 0;
    while let Some((i, n)) = it.next() {
        assert_eq!(inner(i), *n);
        count += 1;
    }
    assert_eq!(count, 5);
    assert_eq!(s.items().len(), 5);
}

#[test]
fn test_into_iter() {
    let mut s = Slab::new();
    for i in 0..10 {
        s.insert(i);
    }
    for i in (0..10).step_by(2) {
        s.remove(si(i));
    }
    let mut it = s.into_iter();
    let mut count = 0;
    while let Some((i, n)) = it.next() {
        assert_eq!(inner(i), n);
        count += 1;
    }
    assert_eq!(count, 5);
}

#[test]
fn test_clone() {
    let mut s = Slab::new();
    for i in 0..10 {
        s.insert(i);
    }
    for i in (0..10).step_by(2) {
        s.remove(si(i));
    }
    let ss = s.clone();
    let mut a = s.into_iter();
    let mut b = ss.into_iter();
    loop {
        match (a.next(), b.next()) {
            (Some((i1, n1)), Some((i2, n2))) => {
                assert_eq!(i1, i2);
                assert_eq!(n1, n2);
            }
            (None, None) => break,
            _ => panic!("the clone has a different number of items"),
        }
    }
}

#[test]
fn test_get_set() {
    for i in 2..100 {
        let mut state = State::new(100);
        assert_eq!(state.get_state(i), false);
        assert_eq!(state.get_updated(i), false);

        state.set(i, true);

        assert_eq!(state.get_state(i), true);
        assert_eq!(state.get_updated(i), true);

        state.set(i, false);

        assert_eq!(state.get_state(i), false);
        assert_eq!(state.get_updated(i), true);
    }
}

#[test]
fn test_tick() {
    let mut state = State::new(100);
    for i in 2..100 {
        assert_eq!(state.get_state(i), false, "index: {}", i);
        assert_eq!(state.get_updated(i), false, "index: {}", i);

        state.set(i, true);

        assert_eq!(state.get_state(i), true, "index: {}", i);
        assert_eq!(state.get_updated(i), true, "index: {}", i);

        state.tick();

        assert_eq!(state.get_state(i), true, "index: {}", i);
        assert_eq!(state.get_updated(i), false, "index: {}", i);
    }
}

#[test]
fn test_get_if_updated() {
    let mut state = State::new(2);

    assert_eq!(state.get_if_updated(0), None);

    state.set(0, true);
    assert_eq!(state.get_if_updated(0), Some(true));

    state.tick();
    assert_eq!(state.get_if_updated(0), None);
}

#[test]
fn test_set_updated() {
    let mut state = State::new(2);

    assert_eq!(state.get_updated(0), false);

    let old_state = state.get_state(0);

    state.set_updated(0);
    assert_eq!(state.get_if_updated(0), Some(old_state));

    state.tick();
    assert_eq!(state.get_if_updated(0), None);
}

#[test]
fn state_test_len() {
    assert_eq!(State::new(2).len(), 64);
    assert_eq!(State::new(64).len(), 64);
    assert_eq!(State::new(65).len(), 128);
}

#[test]
fn state_law_set_only_touches_its_bit() {
    let mut state = State::new(130);
    state.set(64, true);
    assert_eq!(state.get_state(64), true);
    assert_eq!(state.get_state(63), false);
    assert_eq!(state.get_state(65), false);
    assert_eq!(state.get_if_updated(63), None);
    state.set(64, false);
    assert_eq!(state.get_if_updated(64), Some(false));
}

#[test]
fn test_word_mask_64() {
    let word_slice = [0u64, 1u64];
    let (word_index, mask) = word_mask_64(64);
    assert_eq!((word_index, mask), (1, 1));
    assert_eq!((word_slice[word_index] & mask) != 0, true);
    assert_eq!(word_mask_64(130), (2, 4));
}

#[test]
fn test_word_mask_8() {
    let word_slice = [0u8, 1u8];
    let (word_index, mask) = word_mask_8(8);
    assert_eq!((word_slice[word_index] & mask) != 0, true);
    assert_eq!(word_mask_8(13), (1, 32));
}

fn check_bits(mut bits: BitIter, result: &[bool], expected_len: usize) {
    let mut iterations = 0;
    while let Some(set) = bits.next() {
        assert_eq!(set, *result.get(iterations).unwrap_or(&false));
        iterations = iterations + 1;
    }
    assert_eq!(iterations, expected_len);
}

#[test]
fn bit_iter_test_u8() {
    let n = 0b101u8;
    check_bits(BitIter::new(n), &[true, false, true], std::mem::size_of_val(&n) * 8);
}

#[test]
fn bit_iter_test_u128() {
    let n = 0b110u128;
    check_bits(BitIter::new(n), &[false, true, true], std::mem::size_of_val(&n) * 8);
}

#[test]
fn bit_iter_test_struct() {
    // The bytes of `#[repr(C)] struct Example { a: u8, b: u8 }` with a = 0b1011, b = 0b1.
    let bytes = [0b1011u8, 0b1u8];
    check_bits(
        BitIter::from_bytes(&bytes),
        &[true, true, false, true, false, false, false, false, true],
        16,
    );
}

#[test]
fn bititer_test_u8() {
    let n = 0b101u8;
    check_bits(BitIter::new(n), &[true, false, true], std::mem::size_of_val(&n) * 8);
}

#[test]
fn bititer_test_u128() {
    let n = 0b110u128;
    check_bits(BitIter::new(n), &[false, true, true], std::mem::size_of_val(&n) * 8);
}

#[test]
fn bititer_test_struct() {
    let bytes = [0b1011u8, 0b1u8];
    check_bits(
        BitIter::from_bytes(&bytes),
        &[true, true, false, true, false, false, false, false, true],
        16,
    );
}

#[test]
fn test_is_zero() {
    assert_eq!(BitIter::new(8).is_zero(), false);
    assert_eq!(BitIter::new(0u8).is_zero(), true);
    assert_eq!(BitIter::new(0i16).is_zero(), true);
    assert_eq!(BitIter::from_bytes(&0f32.to_le_bytes()).is_zero(), true);
    assert_eq!(BitIter::from_bytes(&12.2f64.to_le_bytes()).is_zero(), false);
    assert_eq!(BitIter::from_bytes(&(-0f64).to_le_bytes()).is_zero(), false);
}

#[test]
fn bit_iter_negative_numbers_are_twos_complement() {
    let mut bits = BitIter::new(-2i8);
    assert_eq!(bits.collect_bits(), vec![false, true, true, true, true, true, true, true]);
    assert_eq!(bits.next(), None);
}

#[test]
fn immutable_from_value() {
    let i: Immutable<Vec<i32>> = vec![4, 5].into();
    assert_eq!(i[1], 5);
    assert_eq!(i.len(), 2);
}

#[test]
fn test_get_very_unsafely() {
    let mut s = Slab::new();

    let index = s.insert(1);
    let other_index = s.insert(2);

    s.remove(index);
    assert_eq!(*s.get_very_unsafely(other_index), 2);
}

#[test]
fn test_get_set_very_unsafely() {
    let mut state = State::new(101);
    for i in 2..100 {
        assert_eq!(state.get_state_very_unsafely(i), false);
        assert_eq!(state.get_updated_very_unsafely(i), false);

        state.set_very_unsafely(i, true);

        assert_eq!(state.get_state_very_unsafely(i), true);
        assert_eq!(state.get_updated_very_unsafely(i), true);

        state.set_very_unsafely(i, false);

        assert_eq!(state.get_state_very_unsafely(i), false);
        assert_eq!(state.get_updated_very_unsafely(i), true);
    }
}

#[test]
fn test_get_if_updated_very_unsafely() {
    let mut state = State::new(2);

    assert_eq!(state.get_if_updated_very_unsafely(0), None);

    state.set(0, true);
    assert_eq!(state.get_if_updated_very_unsafely(0), Some(true));

    state.tick();
    assert_eq!(state.get_if_updated_very_unsafely(0), None);
}
