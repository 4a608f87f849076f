use cells::cells::Cells;
use cells::field::FieldData;
use cells::structured::StructuredCells;
use cells::CellsError;

fn grid(values: Vec<u64>) -> Cells {
    Cells::new(vec![("v".to_string(), FieldData::UInt64(values))]).unwrap()
}

fn u64_col(c: &Cells, name: &str) -> Vec<u64> {
    for (n, d) in c.fields().iter() {
        if n == name {
            match d {
                FieldData::UInt64(v) => return v.clone(),
                _ => panic!("field {} is not a u64 column", name),
            }
        }
    }
    panic!("field {} not found", name)
}

#[test]
fn new_validates_the_dimension_product() {
    let ok = StructuredCells::new(vec![2, 3], grid(vec![0, 1, 2, 3, 4, 5]));
    assert!(ok.is_ok());
    let bad = StructuredCells::new(vec![2, 2], grid(vec![0, 1, 2, 3, 4, 5]));
    assert!(matches!(bad, Err(CellsError::DimensionMismatch)));
}

#[test]
fn shape_accessors() {
    let s = StructuredCells::new(vec![2, 3], grid(vec![0, 1, 2, 3, 4, 5])).unwrap();
    assert_eq!(s.num_dimensions(), 2);
    assert_eq!(s.dimension_len(0), 2);
    assert_eq!(s.dimension_len(1), 3);
    let inner = s.into_inner();
    assert_eq!(inner.len(), 6);
}

#[test]
fn slice_selects_the_hyper_rectangle_in_row_major_order() {
    // dimensions [2, 3] with row values 0..6 in row-major order;
    // slicing rows 0..2 and columns 1..3 selects flat indices
    // 1, 2, 4, 5, in that order
    let s = StructuredCells::new(vec![2, 3], grid(vec![0, 1, 2, 3, 4, 5])).unwrap();
    let sliced = s.slice(vec![0..2, 1..3]);
    let inner = sliced.into_inner();
    assert_eq!(u64_col(&inner, "v"), vec![1, 2, 4, 5]);
}

#[test]
fn slice_keeps_the_original_extents() {
    let s = StructuredCells::new(vec![2, 3], grid(vec![0, 1, 2, 3, 4, 5])).unwrap();
    let sliced = s.slice(vec![0..1, 0..2]);
    // the shape is not recomputed from the ranges
    assert_eq!(sliced.num_dimensions(), 2);
    assert_eq!(sliced.dimension_len(0), 2);
    assert_eq!(sliced.dimension_len(1), 3);
    assert_eq!(sliced.into_inner().len(), 2);
}

#[test]
fn slice_with_an_empty_range_selects_nothing() {
    let s = StructuredCells::new(vec![2, 3], grid(vec![0, 1, 2, 3, 4, 5])).unwrap();
    let sliced = s.slice(vec![1..1, 0..3]);
    assert_eq!(sliced.into_inner().len(), 0);
}

#[test]
fn slice_one_dimensional() {
    let s = StructuredCells::new(vec![5], grid(vec![10, 11, 12, 13, 14])).unwrap();
    let sliced = s.slice(vec![1..4]);
    assert_eq!(u64_col(&sliced.into_inner(), "v"), vec![11, 12, 13]);
}

#[test]
fn slice_three_dimensional() {
    // dimensions [2, 2, 2]: flat index = 4*z + 2*y + x
    let s = StructuredCells::new(vec![2, 2, 2], grid(vec![0, 1, 2, 3, 4, 5, 6, 7])).unwrap();
    let sliced = s.slice(vec![0..2, 1..2, 0..1]);
    // z in {0,1}, y = 1, x = 0: flat indices 2 and 6
    assert_eq!(u64_col(&sliced.into_inner(), "v"), vec![2, 6]);
}

#[test]
fn zero_extent_requires_zero_rows() {
    let ok = StructuredCells::new(vec![0, 4], grid(vec![]));
    assert!(ok.is_ok());
    let bad = StructuredCells::new(vec![0, 4], grid(vec![1]));
    assert!(matches!(bad, Err(CellsError::DimensionMismatch)));
}
