use cells::cells::Cells;
use cells::field::FieldData;
use cells::CellsError;

use proptest::bits::{BitSetLike, VarBitSet};

fn keys(names: &[&str]) -> Vec<String> {
    names.iter().map(|s| s.to_string()).collect()
}

fn cells_of(fields: Vec<(&str, FieldData)>) -> Cells {
    Cells::new(
        fields
            .into_iter()
            .map(|(n, d)| (n.to_string(), d))
            .collect(),
    )
    .unwrap()
}

fn u64_col(c: &Cells, name: &str) -> Vec<u64> {
    for (n, d) in c.fields().iter() {
        if n == name {
            match d {
                FieldData::UInt64(v) => return v.clone(),
                _ => panic!("field {} is not a u64 column", name),
            }
        }
    }
    panic!("field {} not found", name)
}

fn u32_col(c: &Cells, name: &str) -> Vec<u32> {
    for (n, d) in c.fields().iter() {
        if n == name {
            match d {
                FieldData::UInt32(v) => return v.clone(),
                FieldData::Float32Bits(v) => return v.clone(),
                _ => panic!("field {} is not a 32-bit column", name),
            }
        }
    }
    panic!("field {} not found", name)
}

fn bytes_col(c: &Cells, name: &str) -> Vec<Vec<u8>> {
    for (n, d) in c.fields().iter() {
        if n == name {
            match d {
                FieldData::Bytes(v) => return v.clone(),
                _ => panic!("field {} is not a bytes column", name),
            }
        }
    }
    panic!("field {} not found", name)
}

#[test]
fn new_rejects_mismatched_lengths() {
    let r = Cells::new(vec![
        ("a".to_string(), FieldData::UInt64(vec![1, 2, 3])),
        ("b".to_string(), FieldData::UInt64(vec![1, 2])),
    ]);
    assert!(matches!(r, Err(CellsError::LengthMismatch)));
}

#[test]
fn new_rejects_duplicate_names() {
    let r = Cells::new(vec![
        ("a".to_string(), FieldData::UInt64(vec![1, 2])),
        ("a".to_string(), FieldData::UInt64(vec![3, 4])),
    ]);
    assert!(matches!(r, Err(CellsError::DuplicateField)));
}

#[test]
fn len_and_is_empty() {
    let c = cells_of(vec![("a", FieldData::UInt64(vec![5, 6, 7]))]);
    assert_eq!(c.len(), 3);
    assert!(!c.is_empty());
    let e = cells_of(vec![("a", FieldData::UInt64(vec![]))]);
    assert_eq!(e.len(), 0);
    assert!(e.is_empty());
}

#[test]
fn sort_single_key_permutes_all_fields() {
    // field x = [3,1,2]; sorting on x yields x = [1,2,3] and any
    // co-resident field is permuted identically
    let mut c = cells_of(vec![
        ("x", FieldData::UInt64(vec![3, 1, 2])),
        ("y", FieldData::UInt64(vec![30, 10, 20])),
    ]);
    c.sort(&keys(&["x"]));
    assert_eq!(u64_col(&c, "x"), vec![1, 2, 3]);
    assert_eq!(u64_col(&c, "y"), vec![10, 20, 30]);
}

#[test]
fn sorted_is_sorted_and_keeps_the_original() {
    let c = cells_of(vec![
        ("x", FieldData::UInt64(vec![3, 1, 2, 1])),
        ("y", FieldData::Int32(vec![-1, -2, -3, -4])),
    ]);
    let s = c.sorted(&keys(&["x", "y"]));
    assert!(s.is_sorted(&keys(&["x", "y"])));
    // the receiver is untouched
    assert_eq!(u64_col(&c, "x"), vec![3, 1, 2, 1]);
}

#[test]
fn sorting_a_sorted_collection_changes_nothing() {
    let c = cells_of(vec![
        ("x", FieldData::UInt64(vec![1, 1, 2, 3])),
        ("y", FieldData::UInt64(vec![9, 8, 7, 6])),
    ]);
    assert!(c.is_sorted(&keys(&["x"])));
    let s = c.sorted(&keys(&["x"]));
    assert!(s.bits_eq(&c));
    assert!(c.bits_eq(&s));
}

#[test]
fn is_sorted_detects_disorder() {
    let c = cells_of(vec![("x", FieldData::UInt64(vec![2, 1]))]);
    assert!(!c.is_sorted(&keys(&["x"])));
    assert!(c.is_sorted(&keys(&[])));
}

#[test]
fn sort_on_empty_key_list_is_stable() {
    let mut c = cells_of(vec![("x", FieldData::UInt64(vec![3, 1, 2]))]);
    c.sort(&keys(&[]));
    assert_eq!(u64_col(&c, "x"), vec![3, 1, 2]);
}

#[test]
fn dedup_keeps_first_occurrences() {
    // field k = [1,1,2,2,3]; dedup on k keeps original indices 0, 2, 4
    let c = cells_of(vec![
        ("k", FieldData::UInt64(vec![1, 1, 2, 2, 3])),
        ("v", FieldData::UInt64(vec![10, 11, 12, 13, 14])),
    ]);
    let d = c.dedup(&keys(&["k"]));
    assert_eq!(u64_col(&d, "k"), vec![1, 2, 3]);
    assert_eq!(u64_col(&d, "v"), vec![10, 12, 14]);
}

#[test]
fn dedup_count_distinct_equals_len() {
    let c = cells_of(vec![
        ("k", FieldData::UInt64(vec![5, 1, 5, 2, 1, 5])),
        ("v", FieldData::UInt64(vec![0, 1, 2, 3, 4, 5])),
    ]);
    let d = c.dedup(&keys(&["k"]));
    assert_eq!(d.count_distinct(&keys(&["k"])), d.len());
    assert_eq!(d.len(), 3);
}

#[test]
fn count_distinct_single_field() {
    let c = cells_of(vec![("k", FieldData::UInt64(vec![4, 2, 4, 4, 2]))]);
    // sorting the column and dropping adjacent duplicates leaves 2, 4
    assert_eq!(c.count_distinct(&keys(&["k"])), 2);
}

#[test]
fn count_distinct_two_fields() {
    let c = cells_of(vec![
        ("a", FieldData::UInt64(vec![1, 1, 2, 2, 1])),
        ("b", FieldData::UInt64(vec![1, 2, 1, 1, 1])),
    ]);
    // distinct pairs: (1,1), (1,2), (2,1)
    assert_eq!(c.count_distinct(&keys(&["a", "b"])), 3);
    assert_eq!(c.count_distinct(&keys(&["a"])), 2);
}

#[test]
fn count_distinct_trivial_sizes() {
    let empty = cells_of(vec![("k", FieldData::UInt64(vec![]))]);
    assert_eq!(empty.count_distinct(&keys(&["k"])), 0);
    let one = cells_of(vec![("k", FieldData::UInt64(vec![7]))]);
    assert_eq!(one.count_distinct(&keys(&["k"])), 1);
}

#[test]
fn identify_groups_boundaries() {
    let c = cells_of(vec![("k", FieldData::UInt64(vec![1, 1, 2, 2, 3]))]);
    let g = c.identify_groups(&keys(&["k"])).unwrap();
    assert_eq!(g, vec![0, 2, 4, 5]);
}

#[test]
fn identify_groups_empty_returns_none() {
    let c = cells_of(vec![("k", FieldData::UInt64(vec![]))]);
    assert!(c.identify_groups(&keys(&["k"])).is_none());
}

#[test]
fn identify_groups_is_not_a_global_group_by() {
    // non-adjacent equal rows start new runs
    let c = cells_of(vec![("k", FieldData::UInt64(vec![1, 2, 1]))]);
    let g = c.identify_groups(&keys(&["k"])).unwrap();
    assert_eq!(g, vec![0, 1, 2, 3]);
}

#[test]
fn projection_keeps_requested_columns() {
    let c = cells_of(vec![
        ("a", FieldData::UInt64(vec![1, 2])),
        ("b", FieldData::UInt64(vec![3, 4])),
        ("c", FieldData::UInt64(vec![5, 6])),
    ]);
    let p = c.projection(&keys(&["c", "a"])).unwrap();
    assert_eq!(p.fields().len(), 2);
    assert_eq!(u64_col(&p, "a"), vec![1, 2]);
    assert_eq!(u64_col(&p, "c"), vec![5, 6]);
}

#[test]
fn projection_fails_on_unknown_field() {
    let c = cells_of(vec![("a", FieldData::UInt64(vec![1, 2]))]);
    assert!(c.projection(&keys(&["a", "nope"])).is_none());
}

#[test]
fn extend_appends_rows() {
    let mut dst = cells_of(vec![
        ("a", FieldData::UInt64(vec![1, 2])),
        ("b", FieldData::Int8(vec![-1, -2])),
    ]);
    let src = cells_of(vec![
        ("a", FieldData::UInt64(vec![3])),
        ("b", FieldData::Int8(vec![-3])),
    ]);
    dst.extend(src).unwrap();
    assert_eq!(dst.len(), 3);
    assert_eq!(u64_col(&dst, "a"), vec![1, 2, 3]);
}

#[test]
fn extend_rejects_mismatched_schema() {
    let mut dst = cells_of(vec![("a", FieldData::UInt64(vec![1]))]);
    let other_name = cells_of(vec![("b", FieldData::UInt64(vec![2]))]);
    assert!(matches!(
        dst.extend(other_name),
        Err(CellsError::TypeMismatch)
    ));
    let other_type = cells_of(vec![("a", FieldData::UInt32(vec![2]))]);
    assert!(matches!(
        dst.extend(other_type),
        Err(CellsError::TypeMismatch)
    ));
    // the receiver is unchanged after a failed extend
    assert_eq!(u64_col(&dst, "a"), vec![1]);
}

#[test]
fn truncate_shortens_every_field() {
    let mut c = cells_of(vec![
        ("a", FieldData::UInt64(vec![1, 2, 3])),
        ("b", FieldData::UInt64(vec![4, 5, 6])),
    ]);
    c.truncate(2);
    assert_eq!(u64_col(&c, "a"), vec![1, 2]);
    assert_eq!(u64_col(&c, "b"), vec![4, 5]);
    c.truncate(10);
    assert_eq!(c.len(), 2);
}

#[test]
fn add_field_validates_length_and_name() {
    let mut c = cells_of(vec![("a", FieldData::UInt64(vec![1, 2]))]);
    assert!(!c.add_field("b", FieldData::UInt64(vec![1])));
    assert!(!c.add_field("a", FieldData::UInt64(vec![3, 4])));
    assert!(c.add_field("b", FieldData::UInt64(vec![3, 4])));
    assert_eq!(u64_col(&c, "b"), vec![3, 4]);
}

#[test]
fn copy_from_replaces_shorter_and_overwrites_prefix_of_longer() {
    // existing column not longer than the incoming one: replaced outright
    let mut c = cells_of(vec![("a", FieldData::UInt64(vec![1, 2]))]);
    c.copy_from(cells_of(vec![("a", FieldData::UInt64(vec![7, 8, 9]))]));
    assert_eq!(u64_col(&c, "a"), vec![7, 8, 9]);

    // existing column strictly longer: only the first rows are overwritten
    let mut c = cells_of(vec![("a", FieldData::UInt64(vec![1, 2, 3]))]);
    c.copy_from(cells_of(vec![("a", FieldData::UInt64(vec![7]))]));
    assert_eq!(u64_col(&c, "a"), vec![7, 2, 3]);
}

#[test]
fn copy_from_adopts_new_fields() {
    let mut c = cells_of(vec![("a", FieldData::UInt64(vec![1, 2]))]);
    c.copy_from(cells_of(vec![("b", FieldData::UInt64(vec![5, 6]))]));
    assert_eq!(u64_col(&c, "a"), vec![1, 2]);
    assert_eq!(u64_col(&c, "b"), vec![5, 6]);
}

#[test]
fn copy_from_can_desynchronize_and_still_merge() {
    let mut c = cells_of(vec![
        ("a", FieldData::UInt64(vec![1, 2, 3])),
        ("b", FieldData::UInt64(vec![4, 5, 6])),
    ]);
    // replacing one column outright changes its length and leaves the
    // fields' row counts out of step
    c.copy_from(cells_of(vec![("a", FieldData::UInt64(vec![9, 9, 9, 9]))]));
    assert_eq!(u64_col(&c, "a"), vec![9, 9, 9, 9]);
    assert_eq!(u64_col(&c, "b"), vec![4, 5, 6]);
    // a later merge still works on the out-of-step collection
    c.copy_from(cells_of(vec![("b", FieldData::UInt64(vec![7]))]));
    assert_eq!(u64_col(&c, "b"), vec![7, 5, 6]);
}

#[test]
fn filter_keeps_rows_with_set_bits() {
    let c = cells_of(vec![
        ("a", FieldData::UInt64(vec![10, 11, 12, 13])),
        ("b", FieldData::UInt64(vec![20, 21, 22, 23])),
    ]);
    let mut set = VarBitSet::new_bitset(4);
    set.set(1);
    set.set(3);
    let f = c.filter(&set);
    assert_eq!(u64_col(&f, "a"), vec![11, 13]);
    assert_eq!(u64_col(&f, "b"), vec![21, 23]);
}

#[test]
fn filter_with_empty_bitset_empties_the_rows() {
    let c = cells_of(vec![("a", FieldData::UInt64(vec![10, 11]))]);
    let set = VarBitSet::new_bitset(2);
    let f = c.filter(&set);
    assert_eq!(f.len(), 0);
}

#[test]
fn bits_eq_compares_exactly() {
    let c = cells_of(vec![("a", FieldData::UInt64(vec![1, 2]))]);
    let same = cells_of(vec![("a", FieldData::UInt64(vec![1, 2]))]);
    let other_value = cells_of(vec![("a", FieldData::UInt64(vec![1, 3]))]);
    let other_type = cells_of(vec![("a", FieldData::Int64(vec![1, 2]))]);
    let extra = cells_of(vec![
        ("a", FieldData::UInt64(vec![1, 2])),
        ("b", FieldData::UInt64(vec![0, 0])),
    ]);
    assert!(c.bits_eq(&same));
    assert!(!c.bits_eq(&other_value));
    assert!(!c.bits_eq(&other_type));
    assert!(!c.bits_eq(&extra));
    assert!(!extra.bits_eq(&c));
}

#[test]
fn float_bits_compare_exactly_not_numerically() {
    let nan = f32::NAN.to_bits();
    let pz = 0.0f32.to_bits();
    let nz = (-0.0f32).to_bits();
    // a NaN is bit-equal to itself; the two signed zeros are
    // numerically equal but not bit-equal
    let c = cells_of(vec![("f", FieldData::Float32Bits(vec![nan, nan, pz, nz]))]);
    assert_eq!(c.count_distinct(&keys(&["f"])), 3);
    let d = c.dedup(&keys(&["f"]));
    assert_eq!(d.len(), 3);
    assert_eq!(u32_col(&d, "f"), vec![nan, pz, nz]);
}

#[test]
fn byte_columns_sort_lexicographically() {
    let mut c = cells_of(vec![(
        "s",
        FieldData::Bytes(vec![b"cab".to_vec(), b"ab".to_vec(), b"abc".to_vec(), vec![]]),
    )]);
    c.sort(&keys(&["s"]));
    assert_eq!(
        bytes_col(&c, "s"),
        vec![vec![], b"ab".to_vec(), b"abc".to_vec(), b"cab".to_vec()]
    );
}

#[test]
fn sort_breaks_ties_only_within_equal_keys() {
    let mut c = cells_of(vec![
        ("k", FieldData::UInt64(vec![2, 1, 2, 1])),
        ("v", FieldData::UInt64(vec![0, 1, 2, 3])),
    ]);
    c.sort(&keys(&["k"]));
    assert_eq!(u64_col(&c, "k"), vec![1, 1, 2, 2]);
    let v = u64_col(&c, "v");
    // rows kept whole: the values travel with their keys
    assert!(v[0] == 1 || v[0] == 3);
    assert!(v[2] == 0 || v[2] == 2);
}

#[test]
fn every_integer_width_sorts() {
    let mut c = cells_of(vec![
        ("a", FieldData::UInt8(vec![2, 1])),
        ("b", FieldData::UInt16(vec![20, 10])),
        ("c", FieldData::UInt32(vec![200, 100])),
        ("d", FieldData::UInt64(vec![2000, 1000])),
        ("e", FieldData::Int8(vec![-1, -2])),
        ("f", FieldData::Int16(vec![-10, -20])),
        ("g", FieldData::Int32(vec![-100, -200])),
        ("h", FieldData::Int64(vec![-1000, -2000])),
    ]);
    c.sort(&keys(&["h"]));
    // sorting on h reverses the rows; every column follows
    match &c.fields().iter().find(|(n, _)| n == "a").unwrap().1 {
        FieldData::UInt8(v) => assert_eq!(*v, vec![1, 2]),
        _ => panic!("unexpected column type"),
    }
    match &c.fields().iter().find(|(n, _)| n == "e").unwrap().1 {
        FieldData::Int8(v) => assert_eq!(*v, vec![-2, -1]),
        _ => panic!("unexpected column type"),
    }
}

#[test]
fn signed_columns_order_numerically() {
    let mut c = cells_of(vec![("k", FieldData::Int32(vec![3, -5, 0, -5]))]);
    c.sort(&keys(&["k"]));
    match &c.fields()[0].1 {
        FieldData::Int32(v) => assert_eq!(*v, vec![-5, -5, 0, 3]),
        _ => panic!("unexpected column type"),
    }
    assert_eq!(c.count_distinct(&keys(&["k"])), 3);
}

#[test]
fn float64_bits_and_uint64_are_different_types() {
    // the two variants carry the same representation but are distinct
    // physical types: extending one with the other fails
    let mut c = cells_of(vec![("x", FieldData::Float64Bits(vec![1, 2]))]);
    let other = cells_of(vec![("x", FieldData::UInt64(vec![3]))]);
    assert!(matches!(c.extend(other), Err(CellsError::TypeMismatch)));
}

#[test]
fn bytes_dedup_is_exact() {
    let c = cells_of(vec![(
        "s",
        FieldData::Bytes(vec![b"aa".to_vec(), b"ab".to_vec(), b"aa".to_vec()]),
    )]);
    let d = c.dedup(&keys(&["s"]));
    assert_eq!(bytes_col(&d, "s"), vec![b"aa".to_vec(), b"ab".to_vec()]);
    assert_eq!(c.count_distinct(&keys(&["s"])), 2);
}

#[test]
fn view_compares_row_ranges() {
    let c = cells_of(vec![
        ("k", FieldData::UInt64(vec![1, 2, 3, 4])),
        ("v", FieldData::UInt64(vec![9, 9, 9, 9])),
    ]);
    let d = cells_of(vec![("k", FieldData::UInt64(vec![2, 3, 7]))]);
    let ks = keys(&["k"]);
    let va = c.view(&ks, 1..3).unwrap();
    let vb = d.view(&ks, 0..2).unwrap();
    assert!(va.matches(&vb));
    let vc = d.view(&ks, 1..3).unwrap();
    assert!(!va.matches(&vc));
    // ranges of different lengths never match
    let vd = d.view(&ks, 0..3).unwrap();
    assert!(!va.matches(&vd));
}

#[test]
fn views_over_different_column_types_never_match() {
    let c = cells_of(vec![("k", FieldData::UInt32(vec![1]))]);
    let d = cells_of(vec![("k", FieldData::Float32Bits(vec![1]))]);
    let ks = keys(&["k"]);
    let va = c.view(&ks, 0..1).unwrap();
    let vb = d.view(&ks, 0..1).unwrap();
    assert!(!va.matches(&vb));
    // not even over empty row ranges
    let ea = c.view(&ks, 0..0).unwrap();
    let eb = d.view(&ks, 0..0).unwrap();
    assert!(!ea.matches(&eb));
}

#[test]
fn view_fails_on_unknown_key() {
    let c = cells_of(vec![("k", FieldData::UInt64(vec![1]))]);
    let ks = keys(&["nope"]);
    let r = c.view(&ks, 0..1);
    assert!(matches!(r, Err(CellsError::FieldNotFound)));
}

#[test]
fn view_lacking_key_field_is_unequal_not_a_failure() {
    let c = cells_of(vec![("k", FieldData::UInt64(vec![1]))]);
    let d = cells_of(vec![("other", FieldData::UInt64(vec![1]))]);
    let ks = keys(&["k"]);
    let empty: Vec<String> = Vec::new();
    let va = c.view(&ks, 0..1).unwrap();
    let vb = d.view(&empty, 0..1).unwrap();
    assert!(!va.matches(&vb));
}
