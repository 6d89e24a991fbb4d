use tinybitvec::{BitVec, Iter};

fn bits_of(mut iter: Iter<'_>) -> Vec<bool> {
    let mut out = Vec::new();
    while let Some(value) = iter.next() {
        out.push(value);
    }
    out
}

#[test]
fn new_with_true_sets_padding_bits() {
    let bits = BitVec::new(5, true);
    assert_eq!(bits.words(), &[u32::MAX][..]);
    assert_eq!(bits_of(bits.iter()), vec![true; 5]);
}

#[test]
fn new_empty_has_no_words() {
    let bits = BitVec::new(0, true);
    assert_eq!(bits.len(), 0);
    assert!(bits.words().is_empty());
    assert_eq!(bits.get(0), None);
}

#[test]
fn set_all_sets_every_word() {
    let mut bits = BitVec::new(33, false);
    bits.set_all();
    assert_eq!(bits.words(), &[u32::MAX, u32::MAX][..]);
    assert_eq!(bits.get(33), None);
    assert_eq!(bits_of(bits.iter()), vec![true; 33]);
}

#[test]
fn unset_all_keeps_padding_bits() {
    let mut bits = BitVec::new(5, true);
    bits.unset_all();
    assert_eq!(bits.words(), &[0xffff_ffe0u32][..]);
    assert_eq!(bits_of(bits.iter()), vec![false; 5]);
}

#[test]
fn grow_after_set_all_appends_zero_bits() {
    let mut bits = BitVec::new(5, false);
    bits.set_all();
    bits.grow(3);
    assert_eq!(bits.len(), 8);
    assert_eq!(bits.words(), &[0b1_1111u32][..]);
    assert_eq!(
        bits_of(bits.iter()),
        vec![true, true, true, true, true, false, false, false]
    );
}

#[test]
fn grow_by_zero_clears_padding() {
    let mut bits = BitVec::new(5, true);
    bits.grow(0);
    assert_eq!(bits.len(), 5);
    assert_eq!(bits.words(), &[0b1_1111u32][..]);
}

#[test]
fn grow_after_drain_drops_stale_words() {
    let mut bits = BitVec::new(64, true);
    bits.drain(0..40);
    assert_eq!(bits.len(), 24);
    assert_eq!(bits.words().len(), 2);
    bits.grow(20);
    assert_eq!(bits.len(), 44);
    assert_eq!(bits.words().len(), 2);
    assert_eq!(bits.words()[1], 0);
    let mut expected = vec![true; 24];
    expected.extend(vec![false; 20]);
    assert_eq!(bits_of(bits.iter()), expected);
}

#[test]
fn grow_empty_after_drain_all() {
    let mut bits = BitVec::new(40, true);
    bits.drain(0..40);
    assert_eq!(bits.len(), 0);
    bits.grow(10);
    assert_eq!(bits.words(), &[0u32][..]);
    assert_eq!(bits_of(bits.iter()), vec![false; 10]);
}

#[test]
fn push_allocates_a_word_only_when_full() {
    let mut bits = BitVec::default();
    assert!(bits.words().is_empty());
    assert_eq!(bits.capacity(), 0);
    bits.push(true);
    assert_eq!(bits.words(), &[1u32][..]);
    assert_eq!(bits.capacity(), 31);

    let mut bits = BitVec::new(32, false);
    assert_eq!(bits.capacity(), 0);
    bits.push(true);
    assert_eq!(bits.words(), &[0u32, 1u32][..]);
    assert_eq!(bits.get(32), Some(true));
}

#[test]
fn push_then_get_reads_the_pushed_bit() {
    let mut bits = BitVec::from(&[false, true][..]);
    bits.push(true);
    assert_eq!(bits.get(2), Some(true));
    assert_eq!(bits.get(0), Some(false));
    assert_eq!(bits.get(1), Some(true));
}

#[test]
fn push_overwrites_stale_padding_bit() {
    let mut bits = BitVec::new(3, true);
    bits.push(false);
    assert_eq!(bits_of(bits.iter()), vec![true, true, true, false]);
}

#[test]
fn drain_empty_range_changes_nothing() {
    let mut bits = BitVec::from(&[true, false, true][..]);
    bits.drain(1..1);
    assert_eq!(bits_of(bits.iter()), vec![true, false, true]);
    assert_eq!(bits.words(), &[0b101u32][..]);
}

#[test]
fn drain_keeps_bits_past_the_new_length() {
    let mut bits = BitVec::from(&[true, false, true, true][..]);
    bits.drain(0..1);
    assert_eq!(bits_of(bits.iter()), vec![false, true, true]);
    // Bit 3 keeps its old value as padding.
    assert_eq!(bits.words(), &[0b1110u32][..]);
}

#[test]
fn from_empty_is_default() {
    let bits = BitVec::from(&[][..]);
    assert_eq!(bits.len(), 0);
    assert!(bits.words().is_empty());
}

#[test]
fn from_leaves_padding_zero() {
    let bits = BitVec::from(&[true; 33][..]);
    assert_eq!(bits.words(), &[u32::MAX, 1u32][..]);
}

#[test]
fn set_value_reaches_padding_within_storage() {
    let mut bits = BitVec::new(5, false);
    bits.set_value(10, true);
    assert_eq!(bits.len(), 5);
    assert_eq!(bits.words(), &[1u32 << 10][..]);
    assert_eq!(bits.get(10), None);
    assert_eq!(bits_of(bits.iter()), vec![false; 5]);
}

#[test]
fn set_value_then_get_reads_the_written_bit() {
    let mut bits = BitVec::new(40, false);
    bits.set_value(35, true);
    assert_eq!(bits.get(35), Some(true));
    assert_eq!(bits.get(34), Some(false));
    bits.set_value(35, false);
    assert_eq!(bits.get(35), Some(false));
    assert_eq!(bits.words(), &[0u32, 0u32][..]);
}

#[test]
fn set_range_reaches_padding() {
    let mut bits = BitVec::new(5, false);
    bits.set_range(3..8);
    assert_eq!(bits.words(), &[0b1111_1000u32][..]);
    assert_eq!(bits_of(bits.iter()), vec![false, false, false, true, true]);
}

#[test]
fn set_range_empty_or_reversed_is_a_no_op() {
    let mut bits = BitVec::new(5, false);
    bits.set_range(4..2);
    bits.set_range(3..3);
    assert_eq!(bits.words(), &[0u32][..]);
}

#[test]
fn set_range_across_whole_words() {
    let mut bits = BitVec::new(100, false);
    bits.set_range(5..90);
    assert_eq!(bits.words(), &[!0b1_1111u32, u32::MAX, (1u32 << 26) - 1, 0][..]);
    let values = bits_of(bits.iter());
    for (i, value) in values.iter().enumerate() {
        assert_eq!(*value, (5..90).contains(&i));
    }
}

#[test]
fn capacity_counts_unused_storage_bits() {
    let bits = BitVec::new(70, false);
    assert_eq!(bits.capacity(), 3 * 32 - 70);
}

#[test]
fn slice_get_and_len() {
    let bits = BitVec::from(&[true, false, true, true][..]);
    let slice = bits.as_slice().slice(1..4);
    assert_eq!(slice.len(), 3);
    assert_eq!(slice.get(0), Some(false));
    assert_eq!(slice.get(2), Some(true));
    assert_eq!(slice.get(3), None);
    assert_eq!(slice.get_unsafe(3), false);
}

#[test]
fn slice_get_unsafe_reads_padding() {
    let bits = BitVec::new(5, true);
    let slice = bits.as_slice();
    assert_eq!(slice.get(20), None);
    assert!(slice.get_unsafe(20));
}

#[test]
fn slice_words_cover_only_spanned_words() {
    let bits = BitVec::new(100, false);
    let slice = bits.as_slice().slice(40..70);
    assert_eq!(slice.words().len(), 2);
    let slice = bits.as_slice().slice(64..64);
    assert_eq!(slice.words().len(), 0);
    assert_eq!(slice.len(), 0);
}

#[test]
fn iter_size_hint_counts_down() {
    let bits = BitVec::new(5, true);
    let mut iter = bits.iter();
    assert_eq!(iter.size_hint(), (5, Some(5)));
    iter.next();
    assert_eq!(iter.size_hint(), (4, Some(4)));
    let rest = bits_of(iter.clone());
    assert_eq!(rest.len(), 4);
    assert_eq!(iter.size_hint(), (4, Some(4)));
}

#[test]
fn slice_mut_reads() {
    let mut bits = BitVec::from(&[true, false, true, true, false][..]);
    let slice = bits.as_mut_slice().slice(1..4);
    assert_eq!(slice.len(), 3);
    assert_eq!(slice.get(0), Some(false));
    assert_eq!(slice.get(1), Some(true));
    assert_eq!(slice.get(3), None);
    assert!(!slice.get_unsafe(3));
    assert_eq!(slice.words(), &[0b01101u32][..]);
    assert_eq!(bits_of(slice.iter()), vec![false, true, true]);
    assert!(slice[2]);
}

#[test]
fn slice_mut_drain_shortens_the_vector() {
    let mut bits = BitVec::from(&[true, false, false, true, false][..]);
    {
        let mut slice = bits.as_mut_slice();
        slice.drain(1..3);
        assert_eq!(slice.len(), 3);
        assert_eq!(bits_of(slice.iter()), vec![true, true, false]);
    }
    assert_eq!(bits.len(), 3);
    assert_eq!(bits_of(bits.iter()), vec![true, true, false]);
    // The drained positions past the new length keep their old bits.
    assert_eq!(bits.words(), &[0b01011u32][..]);
}

#[test]
fn slice_mut_drain_matches_vector_drain() {
    let booleans: Vec<bool> = (0..70).map(|i| i % 5 == 0 || i % 7 == 0).collect();
    let mut through_slice = BitVec::from(booleans.as_slice());
    let mut direct = BitVec::from(booleans.as_slice());
    through_slice.as_mut_slice().drain(10..45);
    direct.drain(10..45);
    assert_eq!(through_slice.len(), 35);
    assert_eq!(through_slice.words(), direct.words());
    assert_eq!(bits_of(through_slice.iter()), bits_of(direct.iter()));
    assert_eq!(through_slice.capacity(), direct.capacity());
}

#[test]
fn from_trait_and_into() {
    let bits: BitVec = (&[true, false, true][..]).into();
    assert_eq!(bits_of(bits.iter()), vec![true, false, true]);
    let bits = <BitVec as From<&[bool]>>::from(&[false; 3][..]);
    assert_eq!(bits.words(), &[0u32][..]);
}

#[test]
fn slice_mut_set_value_and_unset() {
    let mut bits = BitVec::new(40, false);
    {
        let mut slice = bits.as_mut_slice().slice(30..40);
        slice.set_value(1, true);
        slice.set(3);
        slice.unset(3);
        assert_eq!(slice.get(1), Some(true));
        assert_eq!(slice.get(3), Some(false));
    }
    assert_eq!(bits.get(31), Some(true));
    assert_eq!(bits.words(), &[1u32 << 31, 0][..]);
}

#[test]
fn slice_mut_writes_reach_the_window_past_the_slice() {
    let mut bits = BitVec::new(70, false);
    {
        let mut slice = bits.as_mut_slice().slice(30..35);
        slice.set(5);
    }
    assert_eq!(bits.get(35), Some(true));
}

#[test]
fn slice_mut_set_range_within_slice() {
    let mut bits = BitVec::new(70, true);
    {
        let mut slice = bits.as_mut_slice().slice(10..60);
        slice.unset_all();
        slice.set_range(0..3);
    }
    let values = bits_of(bits.iter());
    for (i, value) in values.iter().enumerate() {
        assert_eq!(*value, i < 13 || i >= 60);
    }
}

#[test]
fn slice_of_slice_matches_one_slice() {
    let booleans: Vec<bool> = (0..80).map(|i| i % 3 == 0).collect();
    let bits = BitVec::from(booleans.as_slice());
    let twice = bits.as_slice().slice(10..70).slice(25..50);
    let once = bits.as_slice().slice(35..60);
    assert_eq!(bits_of(twice.iter()), bits_of(once.iter()));
    assert_eq!(bits_of(once.iter()), booleans[35..60]);
}

#[test]
fn readme_example() {
    let mut bits = BitVec::new(10, false);
    bits.push(false);
    bits.push(true);
    bits.push(false);

    assert!(!bits[1]);
    assert_eq!(bits.get(1), Some(false));

    bits.set(1);
    assert!(bits[1]);

    let bits = BitVec::from(&[false, true, false, false][..]);
    let slice = bits.as_slice();
    assert_eq!(slice.len(), 4);
    let slice = slice.slice(0..3);
    assert_eq!(bits_of(slice.iter()), vec![false, true, false]);
}
