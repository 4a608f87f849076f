use cells::cells::Cells;
use cells::field::FieldData;

use proptest::bits::{BitSetLike, VarBitSet};

#[test]
fn filter_list_alloc() {
    // a freshly allocated filter mask has every bit clear, so
    // filtering with it selects no rows
    let c = Cells::new(vec![(
        "a".to_string(),
        FieldData::UInt64(vec![1, 2, 3]),
    )])
    .unwrap();
    let mask = VarBitSet::new_bitset(3);
    let f = c.filter(&mask);
    assert_eq!(f.len(), 0);
    assert_eq!(f.fields().len(), 1);
}

#[test]
fn filter_mask_bits_select_rows() {
    // setting bits selects exactly those rows, in original order
    let c = Cells::new(vec![(
        "a".to_string(),
        FieldData::UInt64(vec![5, 6, 7, 8]),
    )])
    .unwrap();
    let mut mask = VarBitSet::new_bitset(4);
    mask.set(0);
    mask.set(2);
    let f = c.filter(&mask);
    assert_eq!(f.len(), 2);
    match &f.fields()[0].1 {
        FieldData::UInt64(v) => assert_eq!(*v, vec![5, 7]),
        _ => panic!("unexpected column type"),
    }
}
