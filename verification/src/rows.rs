//! The mathematical model of a field collection — a sequence of
//! (name, type rank, values) entries — and the composite row order
//! that the row-level algorithms are specified against.

use vstd::prelude::*;

use crate::seqs::{kept_indices, select};
use crate::value::{value_lt, Value};

verus! {

/// The model of a field collection: for each field its name, the rank
/// of its physical type, and the sequence of its cell values.
pub type FieldsModel = Seq<(Seq<char>, int, Seq<Value>)>;

/// The position of the first field named `name`, or `-1` if absent.
pub open spec fn field_index(m: FieldsModel, name: Seq<char>) -> int
    decreases m.len(),
{
    if m.len() == 0 {
        -1
    } else if m[0].0 == name {
        0
    } else {
        let r = field_index(m.drop_first(), name);
        if r < 0 {
            -1
        } else {
            r + 1
        }
    }
}

/// Whether a field named `name` is present.
pub open spec fn has_field(m: FieldsModel, name: Seq<char>) -> bool {
    field_index(m, name) >= 0
}

/// The values of the field named `name`.
pub open spec fn col(m: FieldsModel, name: Seq<char>) -> Seq<Value> {
    m[field_index(m, name)].2
}

/// The type rank of the field named `name`.
pub open spec fn col_rank(m: FieldsModel, name: Seq<char>) -> int {
    m[field_index(m, name)].1
}

/// No two fields share a name.
pub open spec fn distinct_names(m: FieldsModel) -> bool {
    forall|i: int, j: int| 0 <= i < j < m.len() ==> m[i].0 != m[j].0
}

/// The shared row count (the row count of the first field; a
/// collection with no fields has no rows).
pub open spec fn rows_of(m: FieldsModel) -> int {
    if m.len() == 0 {
        0
    } else {
        m[0].2.len() as int
    }
}

/// Every field holds exactly the shared row count of cells.
pub open spec fn uniform(m: FieldsModel) -> bool {
    forall|i: int| 0 <= i < m.len() ==> (#[trigger] m[i].2).len() == rows_of(m)
}

/// Every key names a present field.
pub open spec fn keys_ok(m: FieldsModel, keys: Seq<Seq<char>>) -> bool {
    forall|k: int| 0 <= k < keys.len() ==> has_field(m, #[trigger] keys[k])
}

/// `field_index` finds exactly the first field with the given name.
pub proof fn lemma_field_index(m: FieldsModel, name: Seq<char>)
    ensures
        has_field(m, name) ==> 0 <= field_index(m, name) < m.len() && m[field_index(m, name)].0
            == name,
        !has_field(m, name) ==> forall|i: int| 0 <= i < m.len() ==> m[i].0 != name,
        forall|i: int| 0 <= i < m.len() && m[i].0 == name ==> field_index(m, name) <= i,
    decreases m.len(),
{
    if m.len() > 0 && m[0].0 != name {
        lemma_field_index(m.drop_first(), name);
        assert forall|i: int| 0 <= i < m.len() && m[i].0 == name implies field_index(m, name)
            <= i by {
            assert(m.drop_first()[i - 1] == m[i]);
        }
        if !has_field(m, name) {
            assert forall|i: int| 0 <= i < m.len() implies m[i].0 != name by {
                if i > 0 {
                    assert(m.drop_first()[i - 1] == m[i]);
                }
            }
        }
    }
}

/// The strict composite row order: rows `i` and `j` are compared
/// key by key, in key order; the first key whose values differ
/// decides.
pub open spec fn row_lt(m: FieldsModel, keys: Seq<Seq<char>>, i: int, j: int) -> bool
    decreases keys.len(),
{
    if keys.len() == 0 {
        false
    } else {
        let a = col(m, keys[0])[i];
        let b = col(m, keys[0])[j];
        if value_lt(a, b) {
            true
        } else if a == b {
            row_lt(m, keys.drop_first(), i, j)
        } else {
            false
        }
    }
}

/// Rows `i` and `j` agree on every key field.
pub open spec fn row_eq(m: FieldsModel, keys: Seq<Seq<char>>, i: int, j: int) -> bool {
    forall|k: int| 0 <= k < keys.len() ==> col(m, #[trigger] keys[k])[i] == col(m, keys[k])[j]
}

/// The key values of row `i`, in key order.
pub open spec fn key_row(m: FieldsModel, keys: Seq<Seq<char>>, i: int) -> Seq<Value> {
    Seq::new(keys.len(), |k: int| col(m, keys[k])[i])
}

/// The key values of every row, in row order.
pub open spec fn key_rows(m: FieldsModel, keys: Seq<Seq<char>>) -> Seq<Seq<Value>> {
    Seq::new(rows_of(m) as nat, |i: int| key_row(m, keys, i))
}

/// Rows agree on every key field exactly when their key value tuples
/// are equal.
pub proof fn lemma_row_eq_is_key_row_eq(m: FieldsModel, keys: Seq<Seq<char>>, i: int, j: int)
    ensures
        row_eq(m, keys, i, j) == (key_row(m, keys, i) == key_row(m, keys, j)),
{
    if row_eq(m, keys, i, j) {
        assert(key_row(m, keys, i) =~= key_row(m, keys, j));
    }
    if key_row(m, keys, i) == key_row(m, keys, j) {
        assert forall|k: int| 0 <= k < keys.len() implies col(m, #[trigger] keys[k])[i] == col(
            m,
            keys[k],
        )[j] by {
            assert(key_row(m, keys, i)[k] == key_row(m, keys, j)[k]);
        }
    }
}

/// Unfolding of `row_eq` along the first key.
pub proof fn lemma_row_eq_unfold(m: FieldsModel, keys: Seq<Seq<char>>, i: int, j: int)
    requires
        keys.len() > 0,
    ensures
        row_eq(m, keys, i, j) == (col(m, keys[0])[i] == col(m, keys[0])[j] && row_eq(
            m,
            keys.drop_first(),
            i,
            j,
        )),
{
    if col(m, keys[0])[i] == col(m, keys[0])[j] && row_eq(m, keys.drop_first(), i, j) {
        assert forall|k: int| 0 <= k < keys.len() implies col(m, #[trigger] keys[k])[i] == col(
            m,
            keys[k],
        )[j] by {
            if k > 0 {
                assert(keys.drop_first()[k - 1] == keys[k]);
                assert(col(m, keys.drop_first()[k - 1])[i] == col(m, keys.drop_first()[k - 1])[j]);
            }
        }
    }
    if row_eq(m, keys, i, j) {
        assert forall|k: int| 0 <= k < keys.drop_first().len() implies col(
            m,
            #[trigger] keys.drop_first()[k],
        )[i] == col(m, keys.drop_first()[k])[j] by {
            assert(keys.drop_first()[k] == keys[k + 1]);
            assert(col(m, keys[k + 1])[i] == col(m, keys[k + 1])[j]);
        }
    }
}

/// Exactly one of `row_lt(i, j)`, `row_eq(i, j)`, `row_lt(j, i)` holds.
pub proof fn lemma_row_trichotomy(m: FieldsModel, keys: Seq<Seq<char>>, i: int, j: int)
    ensures
        row_lt(m, keys, i, j) || row_eq(m, keys, i, j) || row_lt(m, keys, j, i),
        row_lt(m, keys, i, j) ==> !row_eq(m, keys, i, j) && !row_lt(m, keys, j, i),
        row_eq(m, keys, i, j) ==> !row_lt(m, keys, i, j) && !row_lt(m, keys, j, i),
    decreases keys.len(),
{
    if keys.len() > 0 {
        let a = col(m, keys[0])[i];
        let b = col(m, keys[0])[j];
        crate::value::lemma_value_trichotomy(a, b);
        lemma_row_eq_unfold(m, keys, i, j);
        if a == b {
            lemma_row_trichotomy(m, keys.drop_first(), i, j);
        }
    }
}

/// Transitivity of the strict composite row order.
pub proof fn lemma_row_lt_trans(m: FieldsModel, keys: Seq<Seq<char>>, i: int, j: int, k: int)
    requires
        row_lt(m, keys, i, j),
        row_lt(m, keys, j, k),
    ensures
        row_lt(m, keys, i, k),
    decreases keys.len(),
{
    let a = col(m, keys[0])[i];
    let b = col(m, keys[0])[j];
    let c = col(m, keys[0])[k];
    if value_lt(a, b) && value_lt(b, c) {
        crate::value::lemma_value_lt_trans(a, b, c);
    } else if a == b && b == c {
        lemma_row_lt_trans(m, keys.drop_first(), i, j, k);
    }
}

/// The composite row order compares only key-field values: any two
/// (model, row) pairs with the same key values compare the same way.
pub proof fn lemma_row_lt_congruent(
    m1: FieldsModel,
    i1: int,
    j1: int,
    m2: FieldsModel,
    i2: int,
    j2: int,
    keys: Seq<Seq<char>>,
)
    requires
        forall|k: int|
            0 <= k < keys.len() ==> col(m1, #[trigger] keys[k])[i1] == col(m2, keys[k])[i2],
        forall|k: int|
            0 <= k < keys.len() ==> col(m1, #[trigger] keys[k])[j1] == col(m2, keys[k])[j2],
    ensures
        row_lt(m1, keys, i1, j1) == row_lt(m2, keys, i2, j2),
    decreases keys.len(),
{
    if keys.len() > 0 {
        assert forall|k: int| 0 <= k < keys.drop_first().len() implies col(
            m1,
            #[trigger] keys.drop_first()[k],
        )[i1] == col(m2, keys.drop_first()[k])[i2] by {
            assert(keys.drop_first()[k] == keys[k + 1]);
            assert(col(m1, keys[k + 1])[i1] == col(m2, keys[k + 1])[i2]);
        }
        assert forall|k: int| 0 <= k < keys.drop_first().len() implies col(
            m1,
            #[trigger] keys.drop_first()[k],
        )[j1] == col(m2, keys.drop_first()[k])[j2] by {
            assert(keys.drop_first()[k] == keys[k + 1]);
            assert(col(m1, keys[k + 1])[j1] == col(m2, keys[k + 1])[j2]);
        }
        lemma_row_lt_congruent(m1, i1, j1, m2, i2, j2, keys.drop_first());
    }
}

/// Replacing a row by one that agrees on all keys does not change how
/// it compares: a corollary of congruence within one model.
pub proof fn lemma_row_lt_substitute(m: FieldsModel, keys: Seq<Seq<char>>, i: int, i2: int, j: int)
    requires
        row_eq(m, keys, i, i2),
    ensures
        row_lt(m, keys, i, j) == row_lt(m, keys, i2, j),
        row_lt(m, keys, j, i) == row_lt(m, keys, j, i2),
{
    lemma_row_lt_congruent(m, i, j, m, i2, j, keys);
    lemma_row_lt_congruent(m, j, i, m, j, i2, keys);
}

/// The order that the row-sorting permutation is stated against:
/// indices compare by their rows' composite order, with the index
/// itself breaking ties. This is a total order on indices.
pub open spec fn idx_le_fn(m: FieldsModel, keys: Seq<Seq<char>>) -> spec_fn(usize, usize) -> bool {
    |a: usize, b: usize|
        row_lt(m, keys, a as int, b as int) || (row_eq(m, keys, a as int, b as int) && a <= b)
}

/// `idx_le_fn` is a total ordering.
pub proof fn lemma_idx_le_total(m: FieldsModel, keys: Seq<Seq<char>>)
    ensures
        vstd::relations::total_ordering(idx_le_fn(m, keys)),
{
    let leq = idx_le_fn(m, keys);
    assert forall|x: usize| #[trigger] leq(x, x) by {
        lemma_row_trichotomy(m, keys, x as int, x as int);
    }
    assert forall|x: usize, y: usize| #[trigger] leq(x, y) && #[trigger] leq(y, x) implies x
        == y by {
        lemma_row_trichotomy(m, keys, x as int, y as int);
    }
    assert forall|x: usize, y: usize, z: usize| #[trigger] leq(x, y) && #[trigger] leq(
        y,
        z,
    ) implies leq(x, z) by {
        lemma_row_trichotomy(m, keys, x as int, y as int);
        lemma_row_trichotomy(m, keys, y as int, z as int);
        if row_lt(m, keys, x as int, y as int) && row_lt(m, keys, y as int, z as int) {
            lemma_row_lt_trans(m, keys, x as int, y as int, z as int);
        } else if row_lt(m, keys, x as int, y as int) && row_eq(m, keys, y as int, z as int) {
            lemma_row_lt_substitute(m, keys, y as int, z as int, x as int);
        } else if row_eq(m, keys, x as int, y as int) && row_lt(m, keys, y as int, z as int) {
            lemma_row_lt_substitute(m, keys, x as int, y as int, z as int);
        } else {
            assert forall|k: int| 0 <= k < keys.len() implies col(m, #[trigger] keys[k])[x as int]
                == col(m, keys[k])[z as int] by {
                assert(col(m, keys[k])[x as int] == col(m, keys[k])[y as int]);
            }
        }
    }
    assert forall|x: usize, y: usize| #[trigger] leq(x, y) || #[trigger] leq(y, x) by {
        lemma_row_trichotomy(m, keys, x as int, y as int);
    }
}

/// Once rows `i` and `j` agree on the first `k` keys, the composite
/// order is decided by the remaining keys.
pub proof fn lemma_row_lt_skip(m: FieldsModel, keys: Seq<Seq<char>>, i: int, j: int, k: int)
    requires
        0 <= k <= keys.len(),
        forall|t: int| 0 <= t < k ==> col(m, #[trigger] keys[t])[i] == col(m, keys[t])[j],
    ensures
        row_lt(m, keys, i, j) == row_lt(m, keys.skip(k), i, j),
    decreases k,
{
    if k == 0 {
        assert(keys.skip(0) =~= keys);
    } else {
        assert(col(m, keys[0])[i] == col(m, keys[0])[j]);
        crate::value::lemma_value_trichotomy(col(m, keys[0])[i], col(m, keys[0])[j]);
        assert forall|t: int| 0 <= t < k - 1 implies col(m, #[trigger] keys.drop_first()[t])[i]
            == col(m, keys.drop_first()[t])[j] by {
            assert(keys.drop_first()[t] == keys[t + 1]);
            assert(col(m, keys[t + 1])[i] == col(m, keys[t + 1])[j]);
        }
        lemma_row_lt_skip(m, keys.drop_first(), i, j, k - 1);
        assert(keys.drop_first().skip(k - 1) =~= keys.skip(k));
    }
}

/// Two models with the same field names place every field at the same
/// position.
pub proof fn lemma_field_index_same_names(m1: FieldsModel, m2: FieldsModel, name: Seq<char>)
    requires
        m1.len() == m2.len(),
        forall|i: int| 0 <= i < m1.len() ==> (#[trigger] m1[i]).0 == m2[i].0,
    ensures
        field_index(m1, name) == field_index(m2, name),
    decreases m1.len(),
{
    if m1.len() > 0 {
        assert forall|i: int| 0 <= i < m1.drop_first().len() implies (#[trigger] m1.drop_first()[
            i
        ]).0 == m2.drop_first()[i].0 by {
            assert(m1.drop_first()[i] == m1[i + 1]);
            assert(m2.drop_first()[i] == m2[i + 1]);
        }
        lemma_field_index_same_names(m1.drop_first(), m2.drop_first(), name);
    }
}

/// The sorting permutation has one entry per row, each a valid row
/// index, and it is sorted by the index order.
pub proof fn lemma_sort_perm_ensures(m: FieldsModel, keys: Seq<Seq<char>>)
    ensures
        sort_perm(m, keys).len() == rows_of(m),
        forall|t: int|
            0 <= t < sort_perm(m, keys).len() ==> (#[trigger] sort_perm(m, keys)[t]) < rows_of(m),
        vstd::relations::sorted_by(sort_perm(m, keys), idx_le_fn(m, keys)),
        sort_perm(m, keys).to_multiset() == Seq::new(
            rows_of(m) as nat,
            |i: int| i as usize,
        ).to_multiset(),
{
    broadcast use vstd::seq_lib::group_to_multiset_ensures;

    let id0 = Seq::new(rows_of(m) as nat, |i: int| i as usize);
    let leq = idx_le_fn(m, keys);
    let p = sort_perm(m, keys);
    lemma_idx_le_total(m, keys);
    id0.lemma_sort_by_ensures(leq);
    assert(p.to_multiset() == id0.to_multiset());
    assert(p.to_multiset().len() == p.len());
    assert(id0.to_multiset().len() == id0.len());
    assert forall|t: int| 0 <= t < p.len() implies (#[trigger] p[t]) < rows_of(m) by {
        if rows_of(m) <= usize::MAX {
            assert(p.contains(p[t]));
            assert(p.to_multiset().count(p[t]) > 0);
            assert(id0.contains(p[t]));
            let s = choose|s: int| 0 <= s < id0.len() && id0[s] == p[t];
            assert(id0[s] == s as usize);
            assert(s as usize == s);
        }
    }
}

/// Whether the rows are sorted: every adjacent pair is non-decreasing
/// under the composite row order.
pub open spec fn sorted_rows(m: FieldsModel, keys: Seq<Seq<char>>) -> bool {
    forall|i: int| 0 <= i < rows_of(m) - 1 ==> !(#[trigger] row_lt(m, keys, i + 1, i))
}

/// In a sorted collection no later row is below an earlier one.
pub proof fn lemma_sorted_pairwise(m: FieldsModel, keys: Seq<Seq<char>>, i: int, j: int)
    requires
        sorted_rows(m, keys),
        0 <= i <= j < rows_of(m),
    ensures
        !row_lt(m, keys, j, i),
    decreases j - i,
{
    if i < j {
        lemma_sorted_pairwise(m, keys, i, j - 1);
        assert(!row_lt(m, keys, (j - 1) + 1, j - 1));
        assert(!row_lt(m, keys, j, j - 1));
        if row_lt(m, keys, j, i) {
            lemma_row_trichotomy(m, keys, i, j - 1);
            if row_lt(m, keys, i, j - 1) {
                lemma_row_lt_trans(m, keys, j, i, j - 1);
            } else if row_eq(m, keys, i, j - 1) {
                lemma_row_lt_substitute(m, keys, i, j - 1, j);
            }
        }
    } else {
        lemma_row_trichotomy(m, keys, i, j);
    }
}

/// The sorting permutation: the row indices, ordered by the composite
/// row order with the index itself breaking ties. Because the order on
/// indices is total, this permutation is unique.
pub open spec fn sort_perm(m: FieldsModel, keys: Seq<Seq<char>>) -> Seq<usize> {
    Seq::new(rows_of(m) as nat, |i: int| i as usize).sort_by(idx_le_fn(m, keys))
}

/// `col` applied after a permutation of the rows.
pub open spec fn apply_perm(vals: Seq<Value>, perm: Seq<usize>) -> Seq<Value> {
    Seq::new(perm.len(), |t: int| vals[perm[t] as int])
}

/// The model after sorting: every field's values permuted by the one
/// shared sorting permutation; names and types unchanged.
pub open spec fn sorted_model(m: FieldsModel, keys: Seq<Seq<char>>) -> FieldsModel {
    m.map_values(
        |e: (Seq<char>, int, Seq<Value>)| (e.0, e.1, apply_perm(e.2, sort_perm(m, keys))),
    )
}

/// What sorting promises: the sorted model keeps every field's name
/// and type, permutes every field's values by the one shared sorting
/// permutation, and its rows are sorted on `keys`.
pub proof fn lemma_sorted_model_ensures(m: FieldsModel, keys: Seq<Seq<char>>)
    requires
        uniform(m),
        keys_ok(m, keys),
    ensures
        sorted_model(m, keys).len() == m.len(),
        forall|i: int|
            0 <= i < m.len() ==> (#[trigger] sorted_model(m, keys)[i]) == (
            m[i].0,
            m[i].1,
            apply_perm(m[i].2, sort_perm(m, keys)),
            ),
        rows_of(sorted_model(m, keys)) == rows_of(m),
        uniform(sorted_model(m, keys)),
        distinct_names(m) ==> distinct_names(sorted_model(m, keys)),
        forall|k: int, t: int|
            0 <= k < keys.len() && 0 <= t < rows_of(m) ==> #[trigger] col(
                sorted_model(m, keys),
                keys[k],
            )[t] == col(m, keys[k])[sort_perm(m, keys)[t] as int],
        keys_ok(sorted_model(m, keys), keys),
        sorted_rows(sorted_model(m, keys), keys),
{
    let p = sort_perm(m, keys);
    let sm = sorted_model(m, keys);
    let leq = idx_le_fn(m, keys);
    lemma_sort_perm_ensures(m, keys);
    lemma_idx_le_total(m, keys);
    if m.len() > 0 {
        assert(sm[0].2.len() == p.len());
    }
    assert forall|name: Seq<char>| true implies field_index(sm, name) == field_index(
        m,
        name,
    ) by {
        lemma_field_index_same_names(sm, m, name);
    }
    assert forall|k: int, t: int| 0 <= k < keys.len() && 0 <= t < rows_of(m) implies #[trigger] col(
        sm,
        keys[k],
    )[t] == col(m, keys[k])[p[t] as int] by {
        lemma_field_index(m, keys[k]);
        let fi = field_index(m, keys[k]);
        assert(sm[fi].2 == apply_perm(m[fi].2, p));
    }
    assert forall|t: int| 0 <= t < rows_of(sm) - 1 implies !(#[trigger] row_lt(
        sm,
        keys,
        t + 1,
        t,
    )) by {
        assert(vstd::relations::sorted_by(p, leq));
        assert(leq(p[t], p[t + 1]));
        lemma_row_trichotomy(m, keys, p[t] as int, p[t + 1] as int);
        assert forall|k: int| 0 <= k < keys.len() implies col(sm, #[trigger] keys[k])[t + 1] == col(
            m,
            keys[k],
        )[p[t + 1] as int] by {}
        lemma_row_lt_congruent(sm, t + 1, t, m, p[t + 1] as int, p[t] as int, keys);
    }
}

/// The model after keeping only the rows in `kept`: every field's
/// values restricted to the kept row indices, in increasing row order.
pub open spec fn filter_model(m: FieldsModel, kept: Set<int>) -> FieldsModel {
    m.map_values(
        |e: (Seq<char>, int, Seq<Value>)| (e.0, e.1, select(e.2, kept_indices(kept, rows_of(m)))),
    )
}

/// Whether the field index of `name` in `s.push(e)` relates to the one
/// in `s`: appending a field can only make a previously absent name
/// present, at the end.
pub proof fn lemma_field_index_push(s: FieldsModel, e: (Seq<char>, int, Seq<Value>), name: Seq<
    char,
>)
    ensures
        field_index(s.push(e), name) == if has_field(s, name) {
            field_index(s, name)
        } else if e.0 == name {
            s.len() as int
        } else {
            -1
        },
    decreases s.len(),
{
    if s.len() == 0 {
        assert(s.push(e)[0] == e);
        assert(s.push(e).drop_first() =~= Seq::<(Seq<char>, int, Seq<Value>)>::empty());
        assert(field_index(s, name) == -1);
        if e.0 != name {
            assert(field_index(s.push(e).drop_first(), name) == -1);
            assert(field_index(s.push(e), name) == -1);
        }
    } else {
        assert(s.push(e)[0] == s[0]);
        assert(s.push(e).drop_first() =~= s.drop_first().push(e));
        lemma_field_index_push(s.drop_first(), e, name);
        assert(field_index(s.push(e).drop_first(), name) == field_index(
            s.drop_first().push(e),
            name,
        ));
        if s[0].0 != name {
            assert(field_index(s, name) == if field_index(s.drop_first(), name) < 0 {
                -1
            } else {
                field_index(s.drop_first(), name) + 1
            });
        }
    }
}

/// Exact-bit equality of collections: every field of `a` exists in
/// `b` with the same physical type and exactly the same cell values,
/// and the collections have the same number of fields (which catches
/// extra fields on either side).
pub open spec fn cells_bits_eq(a: FieldsModel, b: FieldsModel) -> bool {
    a.len() == b.len() && forall|i: int|
        0 <= i < a.len() ==> has_field(b, (#[trigger] a[i]).0) && col_rank(b, a[i].0) == a[i].1
            && col(b, a[i].0) == a[i].2
}

/// Two collections have the same schema: the same field names, each
/// with the same physical type.
pub open spec fn same_schema(a: FieldsModel, b: FieldsModel) -> bool {
    a.len() == b.len() && forall|i: int|
        0 <= i < a.len() ==> has_field(b, (#[trigger] a[i]).0) && col_rank(b, a[i].0) == a[i].1
}

/// The model after appending `b`'s rows to `a`'s (for collections with
/// the same schema): each field's values are its `a`-values followed
/// by its `b`-values.
pub open spec fn concat_model(a: FieldsModel, b: FieldsModel) -> FieldsModel {
    a.map_values(|e: (Seq<char>, int, Seq<Value>)| (e.0, e.1, e.2 + col(b, e.0)))
}

/// How one existing column absorbs an incoming one: an incoming column
/// at least as long replaces it outright; a shorter one overwrites
/// only the first rows, leaving the tail untouched.
pub open spec fn merge_col(mine: Seq<Value>, theirs: Seq<Value>) -> Seq<Value> {
    if mine.len() <= theirs.len() {
        theirs
    } else {
        theirs + mine.skip(theirs.len() as int)
    }
}

/// The fields of `b` whose names are absent from `a`, in `b`'s order.
pub open spec fn new_fields(a: FieldsModel, b: FieldsModel) -> FieldsModel
    decreases b.len(),
{
    if b.len() == 0 {
        Seq::empty()
    } else if has_field(a, b.last().0) {
        new_fields(a, b.drop_last())
    } else {
        new_fields(a, b.drop_last()).push(b.last())
    }
}

/// The model after copying `b` into `a`: fields of `a` that `b` also
/// has absorb `b`'s column by `merge_col`, other fields of `a` stay,
/// and fields only in `b` are adopted at the end.
pub open spec fn merge_model(a: FieldsModel, b: FieldsModel) -> FieldsModel {
    a.map_values(
        |e: (Seq<char>, int, Seq<Value>)|
            if has_field(b, e.0) {
                (e.0, e.1, merge_col(e.2, col(b, e.0)))
            } else {
                e
            },
    ) + new_fields(a, b)
}

/// Field lookup in a concatenation: the left part is searched first.
pub proof fn lemma_field_index_concat(a: FieldsModel, rest: FieldsModel, name: Seq<char>)
    ensures
        field_index(a + rest, name) == if has_field(a, name) {
            field_index(a, name)
        } else if has_field(rest, name) {
            a.len() + field_index(rest, name)
        } else {
            -1
        },
    decreases a.len(),
{
    lemma_field_index(a, name);
    lemma_field_index(rest, name);
    if a.len() == 0 {
        assert(a + rest =~= rest);
    } else {
        assert((a + rest)[0] == a[0]);
        assert((a + rest).drop_first() =~= a.drop_first() + rest);
        lemma_field_index_concat(a.drop_first(), rest, name);
    }
}

/// The adopted fields of a merge carry names from `b` that `a` lacks,
/// and are distinct when `b`'s names are.
pub proof fn lemma_new_fields_ensures(a: FieldsModel, b: FieldsModel)
    ensures
        forall|name: Seq<char>|
            #[trigger] has_field(new_fields(a, b), name) ==> has_field(b, name) && !has_field(
                a,
                name,
            ),
        distinct_names(b) ==> distinct_names(new_fields(a, b)),
        forall|t: int|
            0 <= t < new_fields(a, b).len() ==> b.contains(#[trigger] new_fields(a, b)[t]),
    decreases b.len(),
{
    if b.len() > 0 {
        lemma_new_fields_ensures(a, b.drop_last());
        let nf = new_fields(a, b);
        let nfp = new_fields(a, b.drop_last());
        assert forall|t: int| 0 <= t < b.drop_last().len() implies b.contains(
            #[trigger] b.drop_last()[t],
        ) by {
            assert(b[t] == b.drop_last()[t]);
        }
        assert forall|t: int| 0 <= t < nf.len() implies b.contains(#[trigger] nf[t]) by {
            if t < nfp.len() {
                assert(nf[t] == nfp[t]);
                assert(b.drop_last().contains(nfp[t]));
            } else {
                assert(nf[t] == b.last());
                assert(b[b.len() - 1] == b.last());
            }
        }
        assert forall|name: Seq<char>| #[trigger] has_field(nf, name) implies has_field(b, name)
            && !has_field(a, name) by {
            lemma_field_index(nf, name);
            let w = field_index(nf, name);
            assert(nf[w].0 == name);
            assert(b.contains(nf[w]));
            let v = choose|v: int| 0 <= v < b.len() && b[v] == nf[w];
            lemma_field_index(b, name);
            if !has_field(b, name) {
                assert(b[v].0 != name);
            }
            if w < nfp.len() {
                assert(nfp[w] == nf[w]);
                assert(nfp[w].0 == name);
                lemma_field_index(nfp, name);
                if !has_field(nfp, name) {
                    assert(nfp[w].0 != name);
                }
                assert(has_field(nfp, name));
            }
        }
        if distinct_names(b) {
            assert forall|p: int, q: int| 0 <= p < q < nf.len() implies nf[p].0 != nf[q].0 by {
                if q < nfp.len() {
                    assert(nf[p] == nfp[p] && nf[q] == nfp[q]);
                } else if !has_field(a, b.last().0) {
                    assert(nf[q] == b.last());
                    assert(nf[p] == nfp[p]);
                    assert(b.drop_last().contains(nfp[p]));
                    let v = choose|v: int|
                        0 <= v < b.drop_last().len() && #[trigger] b.drop_last()[v] == nfp[p];
                    assert(b[v] == nfp[p]);
                    assert(b[v].0 != b[b.len() - 1].0);
                }
            }
        }
    }
}

/// Looking up the next incoming field in a partial merge finds it
/// where it sits in `a`, untouched, or not at all.
pub proof fn lemma_merge_lookup(a: FieldsModel, b: FieldsModel, ci: int)
    requires
        distinct_names(b),
        0 <= ci < b.len(),
    ensures
        has_field(merge_model(a, b.take(ci)), b[ci].0) == has_field(a, b[ci].0),
        has_field(a, b[ci].0) ==> field_index(merge_model(a, b.take(ci)), b[ci].0) == field_index(
            a,
            b[ci].0,
        ) && merge_model(a, b.take(ci))[field_index(a, b[ci].0)] == a[field_index(a, b[ci].0)],
        !has_field(b.take(ci), b[ci].0),
        merge_model(a, b.take(ci)).len() == a.len() + new_fields(a, b.take(ci)).len(),
    decreases ci,
{
    let name = b[ci].0;
    let btake = b.take(ci);
    let mm = merge_model(a, btake);
    let nf = new_fields(a, btake);
    lemma_field_index(btake, name);
    if has_field(btake, name) {
        let w = field_index(btake, name);
        assert(btake[w] == b[w]);
        assert(b[w].0 == b[ci].0);
        assert(false);
    }
    lemma_new_fields_ensures(a, btake);
    assert(mm.len() == a.len() + nf.len());
    assert forall|k: int| 0 <= k < a.len() implies (#[trigger] mm[k]).0 == a[k].0 by {}
    assert forall|k: int| 0 <= k < (a + nf).len() implies (#[trigger] mm[k]).0 == (a + nf)[k].0
        && mm.len() == (a + nf).len() by {
        if k >= a.len() {
            assert(mm[k] == nf[k - a.len()]);
            assert((a + nf)[k] == nf[k - a.len()]);
        }
    }
    lemma_field_index_same_names(mm, a + nf, name);
    lemma_field_index_concat(a, nf, name);
    lemma_field_index(a, name);
    if has_field(nf, name) {
        assert(has_field(btake, name));
    }
    if has_field(a, name) {
        let fi = field_index(a, name);
        assert(mm[fi] == if has_field(btake, a[fi].0) {
            (a[fi].0, a[fi].1, merge_col(a[fi].2, col(btake, a[fi].0)))
        } else {
            a[fi]
        });
        assert(!has_field(btake, a[fi].0));
    }
}

/// How one more incoming field changes the merged model: a field
/// already in `a` absorbs the incoming column in place; a new field
/// is adopted at the end.
pub proof fn lemma_merge_model_step(a: FieldsModel, b: FieldsModel, ci: int)
    requires
        distinct_names(a),
        distinct_names(b),
        0 <= ci < b.len(),
    ensures
        has_field(a, b[ci].0) ==> merge_model(a, b.take(ci + 1)) == merge_model(
            a,
            b.take(ci),
        ).update(
            field_index(a, b[ci].0),
            (
                b[ci].0,
                a[field_index(a, b[ci].0)].1,
                merge_col(a[field_index(a, b[ci].0)].2, b[ci].2),
            ),
        ),
        !has_field(a, b[ci].0) ==> merge_model(a, b.take(ci + 1)) == merge_model(
            a,
            b.take(ci),
        ).push(b[ci]),
{
    let name = b[ci].0;
    let e = b[ci];
    let btake = b.take(ci);
    let btake1 = b.take(ci + 1);
    assert(btake1 =~= btake.push(e));
    assert(btake1.drop_last() =~= btake);
    lemma_merge_lookup(a, b, ci);
    lemma_field_index(a, name);
    lemma_new_fields_ensures(a, btake);
    // how lookups in the processed prefix change with one more field
    assert forall|x: Seq<char>| true implies field_index(btake1, x) == (if has_field(btake, x) {
        field_index(btake, x)
    } else if x == name {
        btake.len() as int
    } else {
        -1
    }) by {
        lemma_field_index_push(btake, e, x);
        assert(field_index(btake.push(e), x) == field_index(btake1, x));
    }
    assert forall|x: Seq<char>| has_field(btake, x) implies col(btake1, x) == col(btake, x) by {
        lemma_field_index(btake, x);
        assert(btake1[field_index(btake, x)] == btake[field_index(btake, x)]);
    }
    assert(col(btake1, name) == e.2) by {
        assert(btake1[btake.len() as int] == e);
    }
    let mm = merge_model(a, btake);
    let mm1 = merge_model(a, btake1);
    let nf = new_fields(a, btake);
    assert(mm.len() == a.len() + nf.len());
    if has_field(a, name) {
        lemma_field_index(a, name);
        let fi = field_index(a, name);
        assert(new_fields(a, btake1) == new_fields(a, btake));
        assert(mm1.len() == mm.len());
        assert forall|k: int| 0 <= k < a.len() && k != fi implies #[trigger] mm1[k] == mm[k] by {
            assert(a[k].0 != a[fi].0);
            if has_field(btake, a[k].0) {
                assert(mm1[k] == (a[k].0, a[k].1, merge_col(a[k].2, col(btake1, a[k].0))));
                assert(mm[k] == (a[k].0, a[k].1, merge_col(a[k].2, col(btake, a[k].0))));
            } else {
                assert(mm1[k] == a[k]);
                assert(mm[k] == a[k]);
            }
        }
        assert forall|k: int| a.len() <= k < mm1.len() implies #[trigger] mm1[k] == mm[k] by {
            assert(mm1[k] == new_fields(a, btake1)[k - a.len()]);
            assert(mm[k] == nf[k - a.len()]);
        }
        assert(!has_field(btake, a[fi].0));
        assert(mm1[fi] == (name, a[fi].1, merge_col(a[fi].2, e.2)));
        assert(mm1 =~= mm.update(fi, (name, a[fi].1, merge_col(a[fi].2, e.2))));
    } else {
        lemma_field_index(a, name);
        assert(new_fields(a, btake1) == new_fields(a, btake).push(e));
        assert(mm1.len() == mm.len() + 1);
        assert forall|k: int| 0 <= k < a.len() implies #[trigger] mm1[k] == mm[k] by {
            assert(a[k].0 != name);
            if has_field(btake, a[k].0) {
                assert(mm1[k] == (a[k].0, a[k].1, merge_col(a[k].2, col(btake1, a[k].0))));
                assert(mm[k] == (a[k].0, a[k].1, merge_col(a[k].2, col(btake, a[k].0))));
            } else {
                assert(mm1[k] == a[k]);
                assert(mm[k] == a[k]);
            }
        }
        assert forall|k: int| a.len() <= k < mm1.len() implies #[trigger] mm1[k] == mm.push(e)[
            k
        ] by {
            assert(mm1[k] == new_fields(a, btake).push(e)[k - a.len()]);
            if k < mm.len() {
                assert(mm[k] == nf[k - a.len()]);
            }
        }
        assert(mm1 =~= mm.push(e));
    }
}

/// A merged model has distinct field names when both sides do.
pub proof fn lemma_merge_model_distinct(a: FieldsModel, b: FieldsModel)
    requires
        distinct_names(a),
        distinct_names(b),
    ensures
        distinct_names(merge_model(a, b)),
{
    let mm = merge_model(a, b);
    let nf = new_fields(a, b);
    lemma_new_fields_ensures(a, b);
    assert forall|p: int, q: int| 0 <= p < q < mm.len() implies mm[p].0 != mm[q].0 by {
        if q < a.len() {
            assert(mm[p].0 == a[p].0 && mm[q].0 == a[q].0);
        } else if p < a.len() {
            assert(mm[p].0 == a[p].0);
            assert(mm[q] == nf[q - a.len()]);
            lemma_field_index(a, nf[q - a.len()].0);
            assert(has_field(nf, nf[q - a.len()].0)) by {
                lemma_field_index(nf, nf[q - a.len()].0);
                if !has_field(nf, nf[q - a.len()].0) {
                    assert(nf[q - a.len()].0 != nf[q - a.len()].0);
                }
            }
            if mm[p].0 == nf[q - a.len()].0 {
                assert(!has_field(a, nf[q - a.len()].0));
                assert(a[p].0 == nf[q - a.len()].0);
            }
        } else {
            assert(mm[p] == nf[p - a.len()] && mm[q] == nf[q - a.len()]);
        }
    }
}

/// The requested names with duplicates dropped, keeping the first
/// occurrence of each.
pub open spec fn dedup_names(names: Seq<Seq<char>>) -> Seq<Seq<char>>
    decreases names.len(),
{
    if names.len() == 0 {
        Seq::empty()
    } else if names.drop_last().contains(names.last()) {
        dedup_names(names.drop_last())
    } else {
        dedup_names(names.drop_last()).push(names.last())
    }
}

/// `dedup_names` keeps exactly the requested names, once each.
pub proof fn lemma_dedup_names(names: Seq<Seq<char>>)
    ensures
        forall|x: Seq<char>| dedup_names(names).contains(x) <==> names.contains(x),
        forall|p: int, q: int|
            0 <= p < q < dedup_names(names).len() ==> dedup_names(names)[p] != dedup_names(
                names,
            )[q],
        names.len() == 0 ==> dedup_names(names).len() == 0,
    decreases names.len(),
{
    if names.len() > 0 {
        lemma_dedup_names(names.drop_last());
        let d = dedup_names(names);
        let dp = dedup_names(names.drop_last());
        assert forall|x: Seq<char>| d.contains(x) <==> names.contains(x) by {
            if names.contains(x) {
                let w = choose|w: int| 0 <= w < names.len() && names[w] == x;
                if w < names.len() - 1 {
                    assert(names.drop_last()[w] == x);
                    assert(names.drop_last().contains(x));
                    assert(dp.contains(x));
                    let v = choose|v: int| 0 <= v < dp.len() && dp[v] == x;
                    assert(d[v] == x);
                } else {
                    if names.drop_last().contains(x) {
                        let v = choose|v: int| 0 <= v < dp.len() && dp[v] == x;
                        assert(d[v] == x);
                    } else {
                        assert(d.last() == x);
                    }
                }
            }
            if d.contains(x) {
                let w = choose|w: int| 0 <= w < d.len() && d[w] == x;
                if w < dp.len() {
                    assert(d[w] == dp[w]);
                    assert(dp.contains(x));
                    assert(names.drop_last().contains(x));
                    let v = choose|v: int|
                        0 <= v < names.drop_last().len() && #[trigger] names.drop_last()[v] == x;
                    assert(names[v] == names.drop_last()[v]);
                    assert(names.contains(x));
                } else {
                    assert(names.last() == x);
                    assert(names.contains(x));
                }
            }
        }
        assert forall|p: int, q: int| 0 <= p < q < d.len() implies d[p] != d[q] by {
            if q < dp.len() {
                assert(d[p] == dp[p] && d[q] == dp[q]);
            } else {
                assert(d[q] == names.last());
                assert(d[p] == dp[p]);
                assert(!names.drop_last().contains(names.last()));
                assert(dp.contains(dp[p]));
            }
        }
    }
}

/// The model of a projection: the requested fields (first occurrence
/// of each name), each with its column from `m`.
pub open spec fn projection_model(m: FieldsModel, names: Seq<Seq<char>>) -> FieldsModel {
    dedup_names(names).map_values(|n: Seq<char>| (n, col_rank(m, n), col(m, n)))
}

/// What filtering promises: names and types are kept, every field's
/// values are restricted to the kept rows in increasing row order, and
/// the result is uniform.
pub proof fn lemma_filter_model_ensures(m: FieldsModel, kept: Set<int>)
    requires
        uniform(m),
    ensures
        filter_model(m, kept).len() == m.len(),
        forall|i: int|
            0 <= i < m.len() ==> (#[trigger] filter_model(m, kept)[i]) == (
            m[i].0,
            m[i].1,
            select(m[i].2, kept_indices(kept, rows_of(m))),
            ),
        rows_of(filter_model(m, kept)) == kept_indices(kept, rows_of(m)).len(),
        uniform(filter_model(m, kept)),
        distinct_names(m) ==> distinct_names(filter_model(m, kept)),
        forall|name: Seq<char>| #![all_triggers]
            field_index(filter_model(m, kept), name) == field_index(m, name),
        forall|name: Seq<char>, t: int| #![all_triggers]
            has_field(m, name) && 0 <= t < kept_indices(kept, rows_of(m)).len() ==> col(
                filter_model(m, kept),
                name,
            )[t] == col(m, name)[kept_indices(kept, rows_of(m))[t]],
{
    let fm = filter_model(m, kept);
    let ki = kept_indices(kept, rows_of(m));
    crate::seqs::lemma_kept_indices_range(kept, rows_of(m));
    assert forall|name: Seq<char>| true implies field_index(fm, name) == field_index(m, name) by {
        lemma_field_index_same_names(fm, m, name);
    }
    if m.len() > 0 {
        assert(fm[0].2.len() == ki.len());
    }
    assert forall|name: Seq<char>, t: int|
        has_field(m, name) && 0 <= t < ki.len() implies #[trigger] col(fm, name)[t] == col(
        m,
        name,
    )[ki[t]] by {
        lemma_field_index(m, name);
        let fi = field_index(m, name);
        assert(fm[fi].2 == select(m[fi].2, ki));
    }
}

/// A projection keeps each requested field's column and type intact.
pub proof fn lemma_projection_cols(m: FieldsModel, names: Seq<Seq<char>>)
    ensures
        forall|x: Seq<char>|
            names.contains(x) ==> #[trigger] has_field(projection_model(m, names), x) && col(
                projection_model(m, names),
                x,
            ) == col(m, x) && col_rank(projection_model(m, names), x) == col_rank(m, x),
        uniform(m) && keys_ok(m, names) ==> rows_of(projection_model(m, names)) == if names.len()
            == 0 {
            0
        } else {
            rows_of(m)
        },
{
    let pm = projection_model(m, names);
    let d = dedup_names(names);
    lemma_dedup_names(names);
    assert forall|x: Seq<char>| names.contains(x) implies #[trigger] has_field(pm, x) && col(
        pm,
        x,
    ) == col(m, x) && col_rank(pm, x) == col_rank(m, x) by {
        assert(d.contains(x));
        let w = choose|w: int| 0 <= w < d.len() && d[w] == x;
        assert(pm[w] == (x, col_rank(m, x), col(m, x)));
        lemma_field_index(pm, x);
        if !has_field(pm, x) {
            assert(pm[w].0 != x);
        }
        let fi = field_index(pm, x);
        assert(pm[fi].0 == d[fi]);
        assert(fi == w);
        assert(pm[fi] == (x, col_rank(m, x), col(m, x)));
    }
    if uniform(m) && keys_ok(m, names) && names.len() > 0 {
        assert(names.contains(names[0]));
        assert(d.contains(names[0]));
        let w0 = choose|w0: int| 0 <= w0 < d.len() && d[w0] == names[0];
        assert(pm.len() > 0);
        assert(pm[0] == (d[0], col_rank(m, d[0]), col(m, d[0])));
        assert(d.contains(d[0]));
        assert(names.contains(d[0]));
        let v = choose|v: int| 0 <= v < names.len() && names[v] == d[0];
        assert(has_field(m, names[v]));
        lemma_field_index(m, d[0]);
        assert(col(m, d[0]).len() == rows_of(m));
    }
}

/// Sorting permutes the rows, so the set of key combinations is
/// unchanged.
pub proof fn lemma_sorted_key_rows_set(m: FieldsModel, keys: Seq<Seq<char>>)
    requires
        uniform(m),
        keys_ok(m, keys),
        rows_of(m) <= usize::MAX,
    ensures
        key_rows(sorted_model(m, keys), keys).to_set() == key_rows(m, keys).to_set(),
{
    broadcast use vstd::seq_lib::group_to_multiset_ensures;

    let sm = sorted_model(m, keys);
    let p = sort_perm(m, keys);
    let id0 = Seq::new(rows_of(m) as nat, |i: int| i as usize);
    lemma_sorted_model_ensures(m, keys);
    lemma_sort_perm_ensures(m, keys);
    let krs = key_rows(sm, keys);
    let krm = key_rows(m, keys);
    assert forall|t: int| 0 <= t < rows_of(m) implies #[trigger] krs[t] == krm[p[t] as int] by {
        assert(krs[t] =~= krm[p[t] as int]);
    }
    assert forall|x: Seq<Value>| krs.to_set().contains(x) implies krm.to_set().contains(x) by {
        let t = choose|t: int| 0 <= t < krs.len() && #[trigger] krs[t] == x;
        assert(krm[p[t] as int] == x);
        assert(krm.contains(x));
    }
    assert forall|x: Seq<Value>| krm.to_set().contains(x) implies krs.to_set().contains(x) by {
        let r = choose|r: int| 0 <= r < krm.len() && #[trigger] krm[r] == x;
        // the permutation reaches every row index
        assert(id0[r] == r as usize);
        assert(id0.contains(r as usize));
        assert(id0.to_multiset().count(r as usize) > 0);
        assert(p.to_multiset().count(r as usize) > 0);
        assert(p.contains(r as usize));
        let t = choose|t: int| 0 <= t < p.len() && #[trigger] p[t] == r as usize;
        assert(krs[t] == x);
        assert(krs.contains(x));
    }
    assert(krs.to_set() =~= krm.to_set());
}

/// Row `i` is the first row of its key combination.
pub open spec fn is_first_occ(m: FieldsModel, keys: Seq<Seq<char>>, i: int) -> bool {
    forall|j: int| 0 <= j < i ==> !row_eq(m, keys, j, i)
}

/// The rows that are the first occurrence of their key combination.
pub open spec fn first_occ_set(m: FieldsModel, keys: Seq<Seq<char>>) -> Set<int> {
    Set::new(|i: int| 0 <= i < rows_of(m) && is_first_occ(m, keys, i))
}

/// The model after order-preserving deduplication on `keys`.
pub open spec fn dedup_model(m: FieldsModel, keys: Seq<Seq<char>>) -> FieldsModel {
    filter_model(m, first_occ_set(m, keys))
}

/// The number of distinct key combinations across all rows.
pub open spec fn distinct_count(m: FieldsModel, keys: Seq<Seq<char>>) -> int {
    key_rows(m, keys).to_set().len() as int
}

} // verus!
