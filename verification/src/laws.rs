//! The general laws of the row-level algorithms, stated and proved
//! over the same models that the public contracts use. (That a sorted
//! copy is sorted, that a projection keeps the requested columns,
//! that extending appends rows, and the group-boundary shape are
//! stated directly in the `ensures` of `sort`/`sorted`, `projection`,
//! `extend` and `identify_groups`.)

use vstd::prelude::*;

use crate::rows::{
    apply_perm, cells_bits_eq, col, col_rank, dedup_model, distinct_count, distinct_names,
    field_index, first_occ_set, has_field, idx_le_fn, is_first_occ, key_row, key_rows, keys_ok,
    lemma_field_index, lemma_filter_model_ensures, lemma_idx_le_total,
    lemma_row_eq_is_key_row_eq, lemma_row_trichotomy, lemma_sort_perm_ensures,
    lemma_sorted_model_ensures, lemma_sorted_pairwise, row_eq, rows_of, sort_perm, sorted_model,
    sorted_rows, uniform, FieldsModel,
};
use crate::seqs::kept_indices;
use crate::value::Value;

verus! {

/// Sorting changes nothing on a collection whose rows are already
/// sorted on `keys`: its sorted model is the collection itself, and
/// in particular the two are exactly bit-equal.
pub proof fn lemma_sorted_of_sorted_unchanged(m: FieldsModel, keys: Seq<Seq<char>>)
    requires
        distinct_names(m),
        uniform(m),
        keys_ok(m, keys),
        sorted_rows(m, keys),
        rows_of(m) <= usize::MAX,
    ensures
        sorted_model(m, keys) == m,
        cells_bits_eq(sorted_model(m, keys), m),
{
    let n = rows_of(m);
    let id0 = Seq::new(n as nat, |t: int| t as usize);
    let leq = idx_le_fn(m, keys);
    lemma_idx_le_total(m, keys);
    lemma_sort_perm_ensures(m, keys);
    assert forall|p: int, q: int| 0 <= p < q < id0.len() implies #[trigger] leq(
        id0[p],
        id0[q],
    ) by {
        assert(id0[p] == p as usize && id0[q] == q as usize);
        lemma_sorted_pairwise(m, keys, p, q);
        lemma_row_trichotomy(m, keys, p, q);
    }
    assert(vstd::relations::sorted_by(id0, leq));
    id0.lemma_sort_by_ensures(leq);
    vstd::seq_lib::lemma_sorted_unique(id0.sort_by(leq), id0, leq);
    assert(sort_perm(m, keys) == id0);
    lemma_sorted_model_ensures(m, keys);
    assert forall|i: int| 0 <= i < m.len() implies #[trigger] sorted_model(m, keys)[i]
        == m[i] by {
        assert(m[i].2.len() == n);
        assert(apply_perm(m[i].2, id0) =~= m[i].2);
    }
    assert(sorted_model(m, keys) =~= m);
    assert forall|i: int| 0 <= i < m.len() implies has_field(m, (#[trigger] m[i]).0) && col_rank(
        m,
        m[i].0,
    ) == m[i].1 && col(m, m[i].0) == m[i].2 by {
        lemma_field_index(m, m[i].0);
        if !has_field(m, m[i].0) {
            assert(m[i].0 != m[i].0);
        }
        let fi = field_index(m, m[i].0);
        assert(m[fi].0 == m[i].0);
        assert(fi == i);
    }
}

/// Deduplication leaves one row per distinct key combination: counting
/// the distinct key combinations of a deduplicated collection gives
/// exactly its row count.
pub proof fn lemma_dedup_count_distinct(m: FieldsModel, keys: Seq<Seq<char>>)
    requires
        uniform(m),
        keys_ok(m, keys),
    ensures
        distinct_count(dedup_model(m, keys), keys) == rows_of(dedup_model(m, keys)),
{
    broadcast use vstd::set::group_set_axioms, vstd::seq_lib::seq_to_set_is_finite;

    let d = dedup_model(m, keys);
    let fo = first_occ_set(m, keys);
    let ki = kept_indices(fo, rows_of(m));
    lemma_filter_model_ensures(m, fo);
    crate::seqs::lemma_kept_indices_range(fo, rows_of(m));
    let krd = key_rows(d, keys);
    assert(krd.len() == ki.len());
    assert forall|r: int| 0 <= r < ki.len() implies #[trigger] krd[r] == key_row(
        m,
        keys,
        ki[r],
    ) by {
        assert forall|k: int| 0 <= k < keys.len() implies col(d, #[trigger] keys[k])[r] == col(
            m,
            keys[k],
        )[ki[r]] by {}
        assert(krd[r] =~= key_row(m, keys, ki[r]));
    }
    assert forall|r1: int, r2: int| 0 <= r1 < r2 < krd.len() implies krd[r1] != krd[r2] by {
        assert(fo.contains(ki[r1]) && fo.contains(ki[r2]));
        assert(is_first_occ(m, keys, ki[r2]));
        assert(ki[r1] < ki[r2]);
        assert(!row_eq(m, keys, ki[r1], ki[r2]));
        lemma_row_eq_is_key_row_eq(m, keys, ki[r1], ki[r2]);
    }
    assert(krd.no_duplicates());
    krd.unique_seq_to_set();
}

/// Order-preserving deduplication: the kept rows are exactly the
/// first occurrence of each distinct key combination, in their
/// original relative order, with every field's values carried over
/// from the kept rows.
pub proof fn lemma_dedup_keeps_first_occurrences(m: FieldsModel, keys: Seq<Seq<char>>)
    requires
        uniform(m),
    ensures
        forall|r1: int, r2: int|
            0 <= r1 < r2 < kept_indices(first_occ_set(m, keys), rows_of(m)).len()
                ==> #[trigger] kept_indices(first_occ_set(m, keys), rows_of(m))[r1] < #[trigger] kept_indices(
                first_occ_set(m, keys),
                rows_of(m),
            )[r2],
        forall|r: int|
            0 <= r < kept_indices(first_occ_set(m, keys), rows_of(m)).len() ==> 0
                <= #[trigger] kept_indices(first_occ_set(m, keys), rows_of(m))[r] < rows_of(m)
                && is_first_occ(m, keys, kept_indices(first_occ_set(m, keys), rows_of(m))[r]),
        forall|i: int|
            0 <= i < rows_of(m) && is_first_occ(m, keys, i) ==> kept_indices(
                first_occ_set(m, keys),
                rows_of(m),
            ).contains(i),
        rows_of(dedup_model(m, keys)) == kept_indices(first_occ_set(m, keys), rows_of(m)).len(),
        forall|fi: int, r: int|
            0 <= fi < m.len() && 0 <= r < kept_indices(first_occ_set(m, keys), rows_of(m)).len()
                ==> (#[trigger] dedup_model(m, keys)[fi]).2[r] == m[fi].2[#[trigger] kept_indices(
                first_occ_set(m, keys),
                rows_of(m),
            )[r]],
{
    let fo = first_occ_set(m, keys);
    let ki = kept_indices(fo, rows_of(m));
    crate::seqs::lemma_kept_indices_range(fo, rows_of(m));
    lemma_filter_model_ensures(m, fo);
    assert forall|i: int| 0 <= i < rows_of(m) && is_first_occ(m, keys, i) implies ki.contains(
        i,
    ) by {
        crate::seqs::lemma_kept_indices_contains(fo, rows_of(m), i);
    }
}

/// Extending splits every field's rows: after appending `b`'s rows to
/// `a`'s, the first rows of each field are exactly `a`'s and the
/// remainder exactly `b`'s, and the row count is the sum.
pub proof fn lemma_extend_splits_rows(a: FieldsModel, b: FieldsModel)
    requires
        crate::rows::same_schema(a, b),
        uniform(a),
        uniform(b),
    ensures
        a.len() > 0 ==> rows_of(crate::rows::concat_model(a, b)) == rows_of(a) + rows_of(b),
        forall|i: int|
            0 <= i < a.len() ==> (#[trigger] crate::rows::concat_model(a, b)[i]).2.subrange(
                0,
                rows_of(a),
            ) == a[i].2,
        forall|i: int|
            0 <= i < a.len() ==> (#[trigger] crate::rows::concat_model(a, b)[i]).2.subrange(
                rows_of(a),
                rows_of(a) + rows_of(b),
            ) == col(b, a[i].0),
{
    let cm = crate::rows::concat_model(a, b);
    assert forall|i: int| 0 <= i < a.len() implies (#[trigger] cm[i]).2.subrange(0, rows_of(a))
        == a[i].2 && cm[i].2.subrange(rows_of(a), rows_of(a) + rows_of(b)) == col(b, a[i].0) by {
        lemma_field_index(b, a[i].0);
        assert(col(b, a[i].0).len() == rows_of(b));
        assert(cm[i].2 == a[i].2 + col(b, a[i].0));
        assert(cm[i].2.subrange(0, rows_of(a)) =~= a[i].2);
        assert(cm[i].2.subrange(rows_of(a), rows_of(a) + rows_of(b)) =~= col(b, a[i].0));
    }
    if a.len() > 0 {
        lemma_field_index(b, a[0].0);
        assert(cm[0].2 == a[0].2 + col(b, a[0].0));
    }
}

/// A list of pairwise distinct names dedups to itself.
proof fn lemma_dedup_names_distinct(names: Seq<Seq<char>>)
    requires
        forall|p: int, q: int| 0 <= p < q < names.len() ==> names[p] != names[q],
    ensures
        crate::rows::dedup_names(names) == names,
    decreases names.len(),
{
    if names.len() > 0 {
        lemma_dedup_names_distinct(names.drop_last());
        if names.drop_last().contains(names.last()) {
            let w = choose|w: int|
                0 <= w < names.drop_last().len() && #[trigger] names.drop_last()[w]
                    == names.last();
            assert(names[w] == names[names.len() - 1]);
        }
        assert(crate::rows::dedup_names(names) =~= names);
    } else {
        assert(crate::rows::dedup_names(names) =~= names);
    }
}

/// Projecting a set of distinct present field names yields exactly
/// those fields, each with its column and type carried over intact.
pub proof fn lemma_projection_exact(m: FieldsModel, names: Seq<Seq<char>>)
    requires
        keys_ok(m, names),
        forall|p: int, q: int| 0 <= p < q < names.len() ==> names[p] != names[q],
    ensures
        crate::rows::projection_model(m, names).len() == names.len(),
        forall|k: int|
            0 <= k < names.len() ==> #[trigger] crate::rows::projection_model(m, names)[k] == (
            names[k],
            col_rank(m, names[k]),
            col(m, names[k]),
            ),
{
    lemma_dedup_names_distinct(names);
}

/// A finite set and its image under a function with a one-sided
/// inverse have the same cardinality.
proof fn lemma_injective_image_card<A, B>(s: Set<A>, f: spec_fn(A) -> B, g: spec_fn(B) -> A)
    requires
        s.finite(),
        forall|a: A| s.contains(a) ==> #[trigger] g(f(a)) == a,
    ensures
        s.map(f).finite(),
        s.map(f).len() == s.len(),
    decreases s.len(),
{
    broadcast use vstd::set::group_set_axioms;

    if s.len() == 0 {
        assert(s.map(f) =~= Set::<B>::empty());
    } else {
        let a = s.choose();
        assert(s.contains(a));
        let rest = s.remove(a);
        lemma_injective_image_card(rest, f, g);
        assert(!rest.map(f).contains(f(a))) by {
            if rest.map(f).contains(f(a)) {
                let b = choose|b: A| rest.contains(b) && f(b) == f(a);
                assert(s.contains(b));
                assert(g(f(b)) == b && g(f(a)) == a);
            }
        }
        assert(s.map(f) =~= rest.map(f).insert(f(a))) by {
            assert forall|x: B| s.map(f).contains(x) implies rest.map(f).insert(f(a)).contains(
                x,
            ) by {
                let b = choose|b: A| s.contains(b) && x == f(b);
                if b == a {
                } else {
                    assert(rest.contains(b));
                    assert(rest.map(f).contains(x));
                }
            }
            assert forall|x: B| rest.map(f).insert(f(a)).contains(x) implies s.map(f).contains(
                x,
            ) by {
                if x == f(a) {
                } else {
                    let b = choose|b: A| rest.contains(b) && x == f(b);
                    assert(s.contains(b));
                }
            }
        }
    }
}

/// Counting distinct combinations on a single key field counts the
/// distinct values of that field's column: the count that sorting the
/// column and dropping exactly bit-equal adjacent duplicates yields.
pub proof fn lemma_count_distinct_single_key(m: FieldsModel, k: Seq<char>)
    requires
        uniform(m),
        has_field(m, k),
    ensures
        distinct_count(m, seq![k]) == col(m, k).to_set().len(),
{
    broadcast use vstd::set::group_set_axioms, vstd::seq_lib::seq_to_set_is_finite;

    let keys = seq![k];
    let krm = key_rows(m, keys);
    let vals = col(m, k);
    let vs = vals.to_set();
    let f = |v: Value| seq![v];
    let g = |s: Seq<Value>| s[0];
    lemma_field_index(m, k);
    assert(vals.len() == rows_of(m));
    assert forall|i: int| 0 <= i < rows_of(m) implies #[trigger] krm[i] == seq![vals[i]] by {
        assert(keys[0] == k);
        assert(key_row(m, keys, i) =~= seq![vals[i]]);
    }
    assert(krm.to_set() =~= vs.map(f)) by {
        assert forall|x: Seq<Value>| krm.to_set().contains(x) implies vs.map(f).contains(x) by {
            let i = choose|i: int| 0 <= i < krm.len() && #[trigger] krm[i] == x;
            assert(vals.contains(vals[i]));
            assert(vs.contains(vals[i]));
            assert(f(vals[i]) == x);
        }
        assert forall|x: Seq<Value>| vs.map(f).contains(x) implies krm.to_set().contains(x) by {
            let v = choose|v: Value| vs.contains(v) && x == f(v);
            let i = choose|i: int| 0 <= i < vals.len() && #[trigger] vals[i] == v;
            assert(krm[i] == x);
            assert(krm.contains(x));
        }
    }
    lemma_injective_image_card(vs, f, g);
}

} // verus!
