use schedule1::flat_storage::{convert_offsets, FlatStorage};
use schedule1::mixing::Substance;
use schedule1::packing::{Packable, PackedValues};

#[test]
fn flat_storage_round_trip() {
    let ragged: Vec<Vec<u32>> = vec![vec![1, 2, 3], vec![], vec![4], vec![5, 6]];
    let stored = FlatStorage::from(ragged.clone());
    assert_eq!(stored.len(), 4);
    for (i, row) in ragged.iter().enumerate() {
        assert_eq!(stored.get(i), row.as_slice());
    }
    assert_eq!(*stored.values(), vec![1, 2, 3, 4, 5, 6]);
    assert_eq!(*stored.offsets(), vec![0, 3, 3, 4, 6]);
}

#[test]
fn flat_storage_of_nothing() {
    let stored = FlatStorage::from(Vec::<Vec<u8>>::new());
    assert_eq!(stored.len(), 0);
    assert_eq!(*stored.offsets(), vec![0]);
    let empty_rows = FlatStorage::from(vec![Vec::<u8>::new(), Vec::new()]);
    assert_eq!(empty_rows.len(), 2);
    assert!(empty_rows.get(1).is_empty());
}

#[test]
fn flat_storage_from_raw_checks_the_offsets() {
    assert!(FlatStorage::from_raw(vec![7u8, 8, 9], vec![0, 1, 3]).is_some());
    // no offsets at all
    assert!(FlatStorage::from_raw(vec![7u8], Vec::new()).is_none());
    // does not start at 0
    assert!(FlatStorage::from_raw(vec![7u8, 8], vec![1, 2]).is_none());
    // falls
    assert!(FlatStorage::from_raw(vec![7u8, 8, 9], vec![0, 2, 1, 3]).is_none());
    // does not end at the number of values
    assert!(FlatStorage::from_raw(vec![7u8, 8, 9], vec![0, 2]).is_none());
    let stored = FlatStorage::from_raw(vec![7u8, 8, 9], vec![0, 0, 2, 3]).unwrap();
    assert_eq!(stored.get(0), &[] as &[u8]);
    assert_eq!(stored.get(1), &[7, 8]);
    assert_eq!(stored.get(2), &[9]);
}

#[test]
fn offsets_are_narrowed() {
    assert_eq!(convert_offsets(vec![0, 3, 70000]), vec![0u32, 3, 70000]);
    assert_eq!(convert_offsets(Vec::new()), Vec::<u32>::new());
    if usize::BITS > 32 {
        assert_eq!(convert_offsets(vec![(1usize << 32) + 5]), vec![5u32]);
    }
}

type Recipe = PackedValues<Substance, 4>;

#[test]
fn packed_values_push_get_pop() {
    let mut p = Recipe::new();
    assert!(p.is_empty());
    assert_eq!(p.len(), 0);
    assert_eq!(p.bits(), 0);
    assert_eq!(p.push(Substance::Banana), Ok(()));
    assert_eq!(p.push(Substance::Cuke), Ok(()));
    assert_eq!(p.push(Substance::Battery), Ok(()));
    assert_eq!(p.len(), 3);
    assert_eq!(p.bits(), 7 | (0 << 4) | (15 << 8));
    assert_eq!(p.get(0), Some(Substance::Banana));
    assert_eq!(p.get(1), Some(Substance::Cuke));
    assert_eq!(p.get(2), Some(Substance::Battery));
    assert_eq!(p.get(3), None);
    assert_eq!(p.to_vec(), vec![Substance::Banana, Substance::Cuke, Substance::Battery]);
    assert_eq!(p.pop(), Some(Substance::Battery));
    assert_eq!(p.len(), 2);
    assert_eq!(p.pop(), Some(Substance::Cuke));
    assert_eq!(p.pop(), Some(Substance::Banana));
    assert_eq!(p.pop(), None);
    assert!(p.is_empty());
}

#[test]
fn packed_values_set_and_clear() {
    let mut p = Recipe::new();
    p.push(Substance::Addy).unwrap();
    p.push(Substance::Chili).unwrap();
    assert_eq!(p.set(0, Substance::Donut), Ok(()));
    assert_eq!(p.get(0), Some(Substance::Donut));
    assert_eq!(p.get(1), Some(Substance::Chili));
    assert_eq!(p.set(2, Substance::Donut), Err("Index out of bounds"));
    assert_eq!(p.len(), 2);
    p.clear();
    assert_eq!(p.len(), 0);
    assert_eq!(p.bits(), 0);
}

#[test]
fn packed_values_hold_thirty_two_entries_of_four_bits() {
    assert_eq!(Recipe::max_entries(), 32);
    let mut p = Recipe::new();
    for i in 0..32u8 {
        assert_eq!(p.push(Substance::from_index(i % 16).unwrap()), Ok(()));
    }
    assert_eq!(p.push(Substance::Cuke), Err("Cannot store more entries"));
    assert_eq!(p.len(), 32);
    for i in 0..32usize {
        assert_eq!(p.get(i), Substance::from_index((i % 16) as u8));
    }
    // a new value over an old one that was popped leaves no trace of the old
    assert_eq!(p.pop(), Some(Substance::Battery));
    assert_eq!(p.push(Substance::FluMedicine), Ok(()));
    assert_eq!(p.get(31), Some(Substance::FluMedicine));
}

#[test]
fn packed_values_iterate_in_order() {
    let mut p = Recipe::new();
    p.push(Substance::Iodine).unwrap();
    p.push(Substance::Viagra).unwrap();
    let mut it = p.iter();
    assert_eq!(it.next(), Some(Substance::Iodine));
    assert_eq!(it.next(), Some(Substance::Viagra));
    assert_eq!(it.next(), None);
    assert_eq!(it.next(), None);
}

#[test]
fn packed_values_from_bits_count_up_to_the_first_zero() {
    let p = Recipe::from_bits(0x0f21).unwrap();
    assert_eq!(p.bits(), 0x0f21);
    assert_eq!(p.len(), 3);
    assert_eq!(p.get(0), Some(Substance::FluMedicine));
    assert_eq!(p.get(1), Some(Substance::Gasoline));
    assert_eq!(p.get(2), Some(Substance::Battery));
    // counting stops at the zero entry
    let cut = Recipe::from_bits(0x0f01).unwrap();
    assert_eq!(cut.len(), 1);
    let full = Recipe::from_bits(u128::MAX).unwrap();
    assert_eq!(full.len(), 32);
    assert_eq!(Recipe::from_bits(0).unwrap().len(), 0);
}

#[test]
fn substances_pack_by_their_position() {
    assert_eq!(<Substance as Packable>::max_value(), 16);
    for i in 0..16u8 {
        let s = <Substance as Packable>::from_u8(i);
        assert_eq!(s.to_u8(), i);
    }
    let copy = {
        let mut p = Recipe::new();
        p.push(Substance::Chili).unwrap();
        p
    };
    let other = copy;
    assert_eq!(copy, other);
    assert_eq!(copy.clone().get(0), Some(Substance::Chili));
}
