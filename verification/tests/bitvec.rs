use tinybitvec::{BitVec, Iter};

fn collect(mut iter: Iter<'_>) -> Vec<bool> {
    let mut out = Vec::new();
    while let Some(value) = iter.next() {
        out.push(value);
    }
    out
}

#[test]
fn new() {
    let bits = BitVec::new(33, false);
    assert_eq!(bits.len(), 33);
    assert_eq!(bits.words().len(), 2);
}

#[test]
fn unset_all() {
    let mut bits = BitVec::new(40, true);
    bits.unset_all();
    assert_eq!(collect(bits.as_slice().iter()), vec![false; 40]);
}

#[test]
fn set_all() {
    let mut bits = BitVec::new(40, false);

    bits.set_all();
    assert_eq!(collect(bits.as_slice().iter()), vec![true; 40]);
}

#[test]
fn push() {
    let mut bits = BitVec::default();
    bits.push(true);
    bits.push(false);
    bits.push(true);

    let mut expected = vec![true, false, true];

    assert_eq!(bits.len(), 3);
    assert_eq!(bits.get(0), Some(expected[0]));
    assert_eq!(bits.get(1), Some(expected[1]));
    assert_eq!(bits.get(2), Some(expected[2]));
    assert_eq!(bits.get(3), None);

    // Push beyond first word
    for i in 0..64 {
        let value = i % 2 == 0;
        expected.push(value);
        bits.push(value);
    }

    assert_eq!(collect(bits.as_slice().iter()), expected);
}

#[test]
fn set_range() {
    let mut bits = BitVec::new(8, false);
    bits.set_range(2..6);

    assert_eq!(
        collect(bits.as_slice().iter()),
        vec![false, false, true, true, true, true, false, false]
    );
}

#[test]
fn slice_range() {
    let mut booleans = vec![false; 70];
    booleans[29] = true;
    booleans[32] = true;
    booleans[34] = true;

    let bits = BitVec::from(booleans.as_slice());
    let slice = bits.as_slice().slice(30..35);

    assert_eq!(slice.words().len(), 2);
    assert_eq!(
        collect(slice.iter()),
        vec![false, false, true, false, true]
    );
}

#[test]
fn slice_range_can_be_sliced_again() {
    let booleans = [
        false, true, false, true, true, false, true, false, true, false,
    ];
    let bits = BitVec::from(booleans.as_slice());

    let slice = bits.as_slice().slice(1..9).slice(2..7);
    assert_eq!(collect(slice.iter()), booleans[3..8]);
}

#[test]
fn slice_mut_range() {
    let mut bits = BitVec::new(70, false);
    {
        let mut slice = bits.as_mut_slice().slice(30..35);
        slice.set(2);
        slice.set(4);
    }
    assert!(bits[32]);
    assert!(bits[34]);
    assert!(!bits[31]);
    assert!(!bits[33]);

    // `set_all` shouldn't set values outside of range
    let mut bits = BitVec::new(4, false);
    bits.as_mut_slice().slice(1..2).set_all();
    assert_eq!(collect(bits.iter()), [false, true, false, false]);

    // Same for `unset_all`
    let mut bits = BitVec::new(4, true);
    bits.as_mut_slice().slice(1..2).unset_all();
    assert_eq!(collect(bits.iter()), [true, false, true, true]);
}

#[test]
fn grow() {
    let mut bits = BitVec::from(&[true, false][..]);

    bits.grow(31);

    assert_eq!(bits.len(), 33);
    assert_eq!(bits.words().len(), 2);
    let mut expected = vec![false; 33];
    expected[0] = true;
    assert_eq!(collect(bits.as_slice().iter()), expected);
}

#[test]
fn grow_clears_exposed_padding_bits() {
    let mut bits = BitVec::new(1, true);

    bits.grow(31);

    let mut expected = vec![false; 32];
    expected[0] = true;
    assert_eq!(collect(bits.as_slice().iter()), expected);
}

#[test]
fn unset() {
    let mut bits = BitVec::new(4, true);

    bits.unset(2);

    assert_eq!(bits.get(0), Some(true));
    assert_eq!(bits.get(1), Some(true));
    assert_eq!(bits.get(2), Some(false));
    assert_eq!(bits.get(3), Some(true));
}

#[test]
fn capacity() {
    let mut bits = BitVec::new(33, false);
    assert_eq!(bits.len(), 33);
    assert_eq!(bits.capacity(), 31);

    bits.drain(10..21);
    assert_eq!(bits.len(), 22);
    assert_eq!(bits.capacity(), 42);
}

#[test]
fn index() {
    let mut bits = BitVec::from(&[true, false, true][..]);

    assert!(bits[0]);
    assert!(!bits[1]);
    assert!(bits[2]);

    let slice = bits.as_slice();
    assert!(slice[0]);
    assert!(!slice[1]);
    assert!(slice[2]);

    let mut slice = bits.as_mut_slice();
    slice.set(1);
    assert!(slice[0]);
    assert!(slice[1]);
    assert!(slice[2]);
}

#[test]
fn get_set() {
    // Less than a word
    let booleans = [true, false, false, true];
    let bits = BitVec::from(booleans.as_slice());
    assert_eq!(bits.len(), 4);
    assert_eq!(collect(bits.as_slice().iter()), booleans);

    // Exactly a word
    let mut booleans = Vec::new();
    booleans.resize(32, false);
    booleans[1] = true;
    booleans[29] = true;
    booleans[31] = true;
    let bits = BitVec::from(booleans.as_slice());
    assert_eq!(bits.len(), 32);
    assert_eq!(collect(bits.as_slice().iter()), booleans);

    // Multi-words
    let mut booleans = Vec::new();
    booleans.resize(33, false);
    booleans[0] = true;
    booleans[29] = true;
    booleans[32] = true;
    let bits = BitVec::from(booleans.as_slice());
    assert_eq!(bits.len(), 33);
    assert_eq!(collect(bits.as_slice().iter()), booleans);
}

#[test]
fn drain() {
    let mut expected = Vec::new();
    expected.resize(33, false);
    expected[0] = true;
    expected[4] = true;
    expected[29] = true;
    expected[32] = true;

    let mut bits = BitVec::from(expected.as_slice());

    // Drain by the start
    let range = 0..5;
    bits.drain(range.clone());
    expected.drain(range);
    assert_eq!(bits.len(), expected.len());
    assert_eq!(collect(bits.as_slice().iter()), expected);

    // Drain middle
    let range = 11..17;
    expected[13] = true;
    bits.set(13);
    bits.drain(range.clone());
    expected.drain(range);
    assert_eq!(bits.len(), expected.len());
    assert_eq!(collect(bits.as_slice().iter()), expected);

    // Drain by the end
    let range = (bits.len() - 5)..bits.len();
    bits.drain(range.clone());
    expected.drain(range);
    assert_eq!(bits.len(), expected.len());
    assert_eq!(collect(bits.as_slice().iter()), expected);

    // Drain all
    let range = 0..bits.len();
    bits.drain(range.clone());
    expected.drain(range);
}
