//! The in-memory columnar collection: named, typed columns sharing one
//! row count, with the row-level algorithms (sort, group, dedup,
//! count-distinct, projection, merge).

use vstd::prelude::*;

use crate::bitset::bit_set_of;
use crate::field::FieldData;
use crate::rows::{
    col, col_rank, dedup_names, distinct_names, field_index, filter_model, has_field, keys_ok,
    lemma_dedup_names, lemma_field_index, lemma_filter_model_ensures, lemma_row_lt_skip,
    lemma_row_trichotomy, projection_model, row_eq, row_lt, rows_of, sorted_rows, uniform,
    FieldsModel,
};
use crate::value::Cmp;
use crate::CellsError;

verus! {

/// The model of a sequence of (name, column) pairs: for each field its
/// name, its physical-type rank, and its cell values.
pub open spec fn pairs_model(s: Seq<(String, FieldData)>) -> FieldsModel {
    Seq::new(s.len(), |i: int| (s[i].0@, s[i].1.type_rank(), s[i].1.values()))
}

/// A columnar collection of cells: a mapping from unique field name to
/// a typed column, all columns sharing one row count. Row `i` of every
/// field describes the same logical record.
pub struct Cells {
    fields: Vec<(String, FieldData)>,
}

impl Cells {
    /// The model of the collection: for each field its name, its
    /// physical-type rank, and its cell values.
    pub closed spec fn model(&self) -> FieldsModel {
        pairs_model(self.fields@)
    }

    /// The collection's invariant: field names are unique and every
    /// column holds the one shared row count of cells.
    /// (`copy_from` can break the shared row count; see there.)
    pub open spec fn wf(&self) -> bool {
        distinct_names(self.model()) && uniform(self.model())
    }

    /// Whether the collection has at least one field. The row count of
    /// a collection without fields is undefined.
    pub open spec fn has_fields(&self) -> bool {
        self.model().len() > 0
    }

    /// Builds a collection from (name, column) pairs. Fails with
    /// `LengthMismatch` if the columns do not all share one row count,
    /// and with `DuplicateField` if two pairs share a name (which the
    /// field-map data model cannot hold).
    pub fn new(fields: Vec<(String, FieldData)>) -> (r: Result<Cells, CellsError>)
        ensures
            match r {
                Ok(c) => c.model() == pairs_model(fields@) && c.wf(),
                Err(e) => (e == CellsError::LengthMismatch && !uniform(pairs_model(fields@))) || (e
                    == CellsError::DuplicateField && uniform(pairs_model(fields@))
                    && !distinct_names(pairs_model(fields@))),
            },
    {
        let ghost m = pairs_model(fields@);
        if fields.len() > 0 {
            let n = fields[0].1.len();
            proof {
                assert(m[0].2 == fields@[0].1.values());
            }
            let mut i: usize = 1;
            while i < fields.len()
                invariant
                    1 <= i <= fields@.len(),
                    m == pairs_model(fields@),
                    n == rows_of(m),
                    forall|k: int| 0 <= k < i ==> (#[trigger] m[k].2).len() == n,
                decreases fields@.len() - i,
            {
                proof {
                    assert(m[i as int].2 == fields@[i as int].1.values());
                }
                if fields[i].1.len() != n {
                    proof {
                        assert(!uniform(m));
                    }
                    return Err(CellsError::LengthMismatch);
                }
                i += 1;
            }
        }
        assert(uniform(m));
        let mut i: usize = 0;
        while i < fields.len()
            invariant
                i <= fields@.len(),
                m == pairs_model(fields@),
                uniform(m),
                forall|p: int, q: int| 0 <= p < q < m.len() && p < i ==> m[p].0 != m[q].0,
            decreases fields@.len() - i,
        {
            let mut j: usize = i + 1;
            while j < fields.len()
                invariant
                    i < j <= fields@.len(),
                    m == pairs_model(fields@),
                    uniform(m),
                    forall|q: int| i < q < j ==> m[i as int].0 != m[q].0,
                decreases fields@.len() - j,
            {
                proof {
                    assert(m[i as int].0 == fields@[i as int].0@);
                    assert(m[j as int].0 == fields@[j as int].0@);
                }
                if fields[i].0 == fields[j].0 {
                    proof {
                        assert(m[i as int].0 == m[j as int].0);
                        assert(!distinct_names(m));
                    }
                    return Err(CellsError::DuplicateField);
                }
                j += 1;
            }
            i += 1;
        }
        assert(distinct_names(m));
        Ok(Cells { fields })
    }

    /// The fields of the collection, as (name, column) pairs.
    pub fn fields(&self) -> (r: &Vec<(String, FieldData)>)
        ensures
            pairs_model(r@) == self.model(),
    {
        &self.fields
    }

    /// The shared row count. Undefined (and not callable) on a
    /// collection without fields.
    pub fn len(&self) -> (r: usize)
        requires
            self.has_fields(),
        ensures
            r == rows_of(self.model()),
    {
        self.fields[0].1.len()
    }

    /// Whether the collection has zero rows. Undefined (and not
    /// callable) on a collection without fields.
    pub fn is_empty(&self) -> (r: bool)
        requires
            self.has_fields(),
        ensures
            r == (rows_of(self.model()) == 0),
    {
        self.len() == 0
    }

    /// A deep, non-aliased copy of the collection.
    pub fn deep_clone(&self) -> (r: Self)
        ensures
            r.model() == self.model(),
    {
        let mut nf: Vec<(String, FieldData)> = Vec::new();
        let mut i: usize = 0;
        while i < self.fields.len()
            invariant
                i <= self.fields@.len(),
                nf@.len() == i,
                pairs_model(nf@) == pairs_model(self.fields@).subrange(0, i as int),
            decreases self.fields@.len() - i,
        {
            let name = self.fields[i].0.clone();
            let fd = self.fields[i].1.deep_clone();
            nf.push((name, fd));
            proof {
                assert(nf@.len() == i + 1);
                assert(nf@[i as int] == (name, fd));
                assert(nf@[i as int].0 == self.fields@[i as int].0);
                assert(nf@[i as int].1.values() == self.fields@[i as int].1.values());
                assert(pairs_model(nf@) =~= pairs_model(self.fields@).subrange(0, i + 1 as int));
            }
            i += 1;
        }
        proof {
            assert(pairs_model(self.fields@).subrange(0, self.fields@.len() as int) =~= self.model());
        }
        Cells { fields: nf }
    }

    /// The column of the field at position `i`.
    pub(crate) fn field_data(&self, i: usize) -> (r: &FieldData)
        requires
            i < self.model().len(),
        ensures
            r.type_rank() == self.model()[i as int].1,
            r.values() == self.model()[i as int].2,
    {
        proof {
            assert(self.model()[i as int] == (
                self.fields@[i as int].0@,
                self.fields@[i as int].1.type_rank(),
                self.fields@[i as int].1.values(),
            ));
        }
        &self.fields[i].1
    }

    /// The position of the field named `name`, if present.
    pub(crate) fn find_field(&self, name: &String) -> (r: Option<usize>)
        ensures
            match r {
                Some(i) => has_field(self.model(), name@) && i as int == field_index(self.model(), name@),
                None => !has_field(self.model(), name@),
            },
    {
        let ghost m = self.model();
        let mut i: usize = 0;
        while i < self.fields.len()
            invariant
                i <= m.len(),
                m == self.model(),
                forall|k: int| 0 <= k < i ==> m[k].0 != name@,
            decreases m.len() - i,
        {
            if self.fields[i].0 == *name {
                proof {
                    lemma_field_index(m, name@);
                    assert(m[i as int].0 == name@);
                }
                return Some(i);
            }
            i += 1;
        }
        proof {
            lemma_field_index(m, name@);
            if has_field(m, name@) {
                assert(m[field_index(m, name@)].0 == name@);
            }
        }
        None
    }

    /// Compares rows `i` and `j` under the composite key order: keys
    /// are consulted in order and the first key whose values differ
    /// decides; rows that agree on all keys are equal.
    fn row_cmp(&self, keys: &Vec<String>, i: usize, j: usize) -> (c: Cmp)
        requires
            self.wf(),
            keys_ok(self.model(), keys.deep_view()),
            i < rows_of(self.model()),
            j < rows_of(self.model()),
        ensures
            (c == Cmp::Less) == row_lt(self.model(), keys.deep_view(), i as int, j as int),
            (c == Cmp::Equal) == row_eq(self.model(), keys.deep_view(), i as int, j as int),
            (c == Cmp::Greater) == row_lt(self.model(), keys.deep_view(), j as int, i as int),
    {
        let ghost m = self.model();
        let ghost kv = keys.deep_view();
        let mut k: usize = 0;
        while k < keys.len()
            invariant
                k <= kv.len(),
                m == self.model(),
                kv == keys.deep_view(),
                kv.len() == keys@.len(),
                self.wf(),
                keys_ok(m, kv),
                i < rows_of(m),
                j < rows_of(m),
                forall|t: int| 0 <= t < k ==> col(m, #[trigger] kv[t])[i as int] == col(
                    m,
                    kv[t],
                )[j as int],
            decreases kv.len() - k,
        {
            proof {
                assert(has_field(m, kv[k as int]));
                lemma_field_index(m, kv[k as int]);
            }
            let fi = match self.find_field(&keys[k]) {
                Some(fi) => fi,
                None => {
                    // unreachable: every key names a field
                    proof {
                        assert(keys@[k as int]@ == kv[k as int]);
                        assert(false);
                    }
                    0
                },
            };
            let ghost name = kv[k as int];
            proof {
                assert(m[fi as int] == (self.fields@[fi as int].0@, self.fields@[fi as int].1.type_rank(), self.fields@[fi as int].1.values()));
                assert(m[fi as int].2 == col(m, name));
                assert(col(m, name).len() == rows_of(m));
            }
            let c = self.fields[fi].1.cmp_rows(i, j);
            proof {
                lemma_row_lt_skip(m, kv, i as int, j as int, k as int);
                lemma_row_lt_skip(m, kv, j as int, i as int, k as int);
                assert(kv.skip(k as int).len() == kv.len() - k);
                if kv.len() - k > 0 {
                    assert(kv.skip(k as int)[0] == kv[k as int]);
                }
            }
            match c {
                Cmp::Less => {
                    proof {
                        assert(row_lt(m, kv.skip(k as int), i as int, j as int));
                        crate::value::lemma_value_trichotomy(
                            col(m, name)[i as int],
                            col(m, name)[j as int],
                        );
                        assert(!row_lt(m, kv.skip(k as int), j as int, i as int));
                        assert(!row_eq(m, kv, i as int, j as int));
                    }
                    return Cmp::Less;
                },
                Cmp::Greater => {
                    proof {
                        assert(row_lt(m, kv.skip(k as int), j as int, i as int));
                        crate::value::lemma_value_trichotomy(
                            col(m, name)[i as int],
                            col(m, name)[j as int],
                        );
                        assert(!row_lt(m, kv.skip(k as int), i as int, j as int));
                        assert(!row_eq(m, kv, i as int, j as int));
                    }
                    return Cmp::Greater;
                },
                Cmp::Equal => {
                },
            }
            k += 1;
        }
        proof {
            assert(row_eq(m, kv, i as int, j as int));
            lemma_row_trichotomy(m, kv, i as int, j as int);
        }
        Cmp::Equal
    }

    /// Whether row `a` comes strictly before row `b` in the sorting
    /// order: by the composite key order, with the index breaking ties.
    fn lt_idx(&self, keys: &Vec<String>, a: usize, b: usize) -> (r: bool)
        requires
            self.wf(),
            keys_ok(self.model(), keys.deep_view()),
            a < rows_of(self.model()),
            b < rows_of(self.model()),
        ensures
            r == (crate::rows::idx_le_fn(self.model(), keys.deep_view())(a, b) && a != b),
    {
        let c = self.row_cmp(keys, a, b);
        match c {
            Cmp::Less => true,
            Cmp::Equal => a < b,
            Cmp::Greater => false,
        }
    }

    /// Computes the sorting permutation of the row indices: an
    /// insertion sort under the total index order, so the result is
    /// the one stable permutation `sort_perm`.
    fn sort_indices(&self, keys: &Vec<String>) -> (idx: Vec<usize>)
        requires
            self.wf(),
            self.has_fields(),
            keys_ok(self.model(), keys.deep_view()),
        ensures
            idx@ == crate::rows::sort_perm(self.model(), keys.deep_view()),
    {
        broadcast use vstd::seq_lib::group_to_multiset_ensures;

        let ghost m = self.model();
        let ghost kv = keys.deep_view();
        let ghost leq = crate::rows::idx_le_fn(m, kv);
        proof {
            crate::rows::lemma_idx_le_total(m, kv);
        }
        let n = self.len();
        let ghost id0 = Seq::new(n as nat, |t: int| t as usize);
        let mut idx: Vec<usize> = Vec::new();
        let mut i: usize = 0;
        while i < n
            invariant
                i <= n,
                idx@.len() == i,
                forall|k: int| 0 <= k < i ==> (#[trigger] idx@[k]) == k as usize,
            decreases n - i,
        {
            idx.push(i);
            i += 1;
        }
        proof {
            assert(idx@ =~= id0);
        }
        let mut i: usize = 1;
        while i < n
            invariant
                m == self.model(),
                kv == keys.deep_view(),
                leq == crate::rows::idx_le_fn(m, kv),
                vstd::relations::total_ordering(leq),
                self.wf(),
                keys_ok(m, kv),
                n == rows_of(m),
                id0 == Seq::new(n as nat, |t: int| t as usize),
                1 <= i && (i <= n || n <= 1),
                idx@.len() == n,
                forall|k: int| 0 <= k < n ==> (#[trigger] idx@[k]) < n,
                idx@.to_multiset() == id0.to_multiset(),
                forall|p: int, q: int| 0 <= p < q < i ==> #[trigger] leq(idx@[p], idx@[q]),
            decreases n - i,
        {
            let mut j: usize = i;
            while j > 0 && self.lt_idx(keys, idx[j], idx[j - 1])
                invariant
                    m == self.model(),
                    kv == keys.deep_view(),
                    leq == crate::rows::idx_le_fn(m, kv),
                    vstd::relations::total_ordering(leq),
                    self.wf(),
                    keys_ok(m, kv),
                    n == rows_of(m),
                    id0 == Seq::new(n as nat, |t: int| t as usize),
                    0 <= j <= i < n,
                    idx@.len() == n,
                    forall|k: int| 0 <= k < n ==> (#[trigger] idx@[k]) < n,
                    idx@.to_multiset() == id0.to_multiset(),
                    forall|p: int, q: int|
                        0 <= p < q <= i && q != j ==> #[trigger] leq(idx@[p], idx@[q]),
                    forall|q: int| j < q <= i ==> #[trigger] leq(idx@[j as int], idx@[q]),
                decreases j,
            {
                let ghost prev = idx@;
                let a = idx[j];
                let b = idx[j - 1];
                idx[j] = b;
                idx[j - 1] = a;
                proof {
                    broadcast use vstd::multiset::group_multiset_axioms;

                    let cur = idx@;
                    let mid = prev.update(j as int, b);
                    assert(cur == mid.update(j - 1, a));
                    vstd::seq_lib::to_multiset_update(prev, j as int, b);
                    vstd::seq_lib::to_multiset_update(mid, j - 1, a);
                    assert(mid[j - 1] == b);
                    vstd::seq_lib::to_multiset_contains(prev, a);
                    assert(prev[j as int] == a);
                    assert(prev.contains(a));
                    assert(prev.to_multiset().count(a) > 0);
                    assert(cur.to_multiset() =~= prev.to_multiset());
                    assert(leq(a, b) && a != b);
                    assert forall|p: int, q: int|
                        0 <= p < q <= i && q != j - 1 implies #[trigger] leq(cur[p], cur[q]) by {
                        if p == j - 1 {
                            if q == j {
                                assert(leq(a, b));
                            } else {
                                assert(leq(prev[j as int], prev[q]));
                            }
                        } else if q == j {
                            assert(leq(prev[p], prev[j - 1]));
                        } else if p == j {
                            assert(leq(prev[j - 1], prev[q]));
                        } else {
                            assert(leq(prev[p], prev[q]));
                        }
                    }
                    assert forall|q: int| j - 1 < q <= i implies #[trigger] leq(
                        cur[j - 1],
                        cur[q],
                    ) by {
                        if q == j {
                            assert(leq(a, b));
                        } else {
                            assert(leq(prev[j as int], prev[q]));
                        }
                    }
                }
                j -= 1;
            }
            proof {
                let cur = idx@;
                assert forall|p: int, q: int| 0 <= p < q < i + 1 implies #[trigger] leq(
                    cur[p],
                    cur[q],
                ) by {
                    if j == 0 {
                        if p == j {
                            assert(leq(cur[j as int], cur[q]));
                        } else {
                            assert(leq(cur[p], cur[q]));
                        }
                    } else {
                        // the loop stopped because the moving element is
                        // no longer below its left neighbour
                        assert(!(leq(cur[j as int], cur[j - 1]) && cur[j as int] != cur[j - 1]));
                        assert(leq(cur[j - 1], cur[j as int]));
                        if q == j {
                            if p == j - 1 {
                            } else {
                                assert(leq(cur[p], cur[j - 1]));
                            }
                        } else if p == j {
                            assert(leq(cur[j as int], cur[q]));
                        } else {
                            assert(leq(cur[p], cur[q]));
                        }
                    }
                }
            }
            i += 1;
        }
        proof {
            assert(vstd::relations::sorted_by(idx@, leq));
            id0.lemma_sort_by_ensures(leq);
            vstd::seq_lib::lemma_sorted_unique(idx@, id0.sort_by(leq), leq);
            assert(id0 =~= Seq::new(rows_of(m) as nat, |t: int| t as usize));
            assert(idx@ == crate::rows::sort_perm(m, kv));
        }
        idx
    }

    /// Sorts the rows on `keys` in place: computes the sorting
    /// permutation and applies it to every field's column, preserving
    /// cross-field row alignment. The order among rows that agree on
    /// all keys is an implementation choice that callers should not
    /// lean on; this implementation keeps such rows in their original
    /// relative order, which is what the contract pins down.
    pub fn sort(&mut self, keys: &Vec<String>)
        requires
            old(self).wf(),
            old(self).has_fields(),
            keys_ok(old(self).model(), keys.deep_view()),
        ensures
            final(self).model() == crate::rows::sorted_model(old(self).model(), keys.deep_view()),
            final(self).wf(),
            final(self).has_fields(),
            sorted_rows(final(self).model(), keys.deep_view()),
    {
        let ghost m = old(self).model();
        let ghost kv = keys.deep_view();
        proof {
            crate::rows::lemma_sort_perm_ensures(m, kv);
            crate::rows::lemma_sorted_model_ensures(m, kv);
        }
        let idx = self.sort_indices(keys);
        let mut nf: Vec<(String, FieldData)> = Vec::new();
        let mut fi: usize = 0;
        while fi < self.fields.len()
            invariant
                fi <= self.fields@.len(),
                m == self.model(),
                kv == keys.deep_view(),
                self.wf(),
                keys_ok(m, kv),
                idx@ == crate::rows::sort_perm(m, kv),
                nf@.len() == fi,
                forall|k: int|
                    0 <= k < fi ==> (#[trigger] pairs_model(nf@)[k]) == crate::rows::sorted_model(
                        m,
                        kv,
                    )[k],
            decreases self.fields@.len() - fi,
        {
            proof {
                crate::rows::lemma_sort_perm_ensures(m, kv);
                crate::rows::lemma_sorted_model_ensures(m, kv);
                assert(m[fi as int] == (
                    self.fields@[fi as int].0@,
                    self.fields@[fi as int].1.type_rank(),
                    self.fields@[fi as int].1.values(),
                ));
                assert(m[fi as int].2.len() == rows_of(m));
            }
            let name = self.fields[fi].0.clone();
            let fd = self.fields[fi].1.permuted(&idx);
            let ghost nfprev = nf@;
            nf.push((name, fd));
            proof {
                assert(nf@[fi as int] == (name, fd));
                assert forall|k: int| 0 <= k < fi implies (#[trigger] pairs_model(nf@)[k])
                    == crate::rows::sorted_model(m, kv)[k] by {
                    assert(nf@[k] == nfprev[k]);
                    assert(pairs_model(nfprev)[k] == crate::rows::sorted_model(m, kv)[k]);
                }
                assert(pairs_model(nf@)[fi as int].2 =~= crate::rows::apply_perm(
                    m[fi as int].2,
                    idx@,
                ));
                assert(pairs_model(nf@)[fi as int] == crate::rows::sorted_model(m, kv)[fi as int]);
            }
            fi += 1;
        }
        self.fields = nf;
        proof {
            crate::rows::lemma_sorted_model_ensures(m, kv);
            assert(self.model() =~= crate::rows::sorted_model(m, kv));
        }
    }

    /// A copy of the collection, sorted on `keys` as by `sort`; the
    /// receiver is not changed.
    pub fn sorted(&self, keys: &Vec<String>) -> (r: Cells)
        requires
            self.wf(),
            self.has_fields(),
            keys_ok(self.model(), keys.deep_view()),
        ensures
            r.model() == crate::rows::sorted_model(self.model(), keys.deep_view()),
            r.wf(),
            sorted_rows(r.model(), keys.deep_view()),
    {
        let mut r = self.deep_clone();
        r.sort(keys);
        r
    }

    /// Whether the rows are sorted on `keys`: every adjacent row pair
    /// is non-decreasing under the composite key order.
    pub fn is_sorted(&self, keys: &Vec<String>) -> (r: bool)
        requires
            self.wf(),
            self.has_fields(),
            keys_ok(self.model(), keys.deep_view()),
        ensures
            r == sorted_rows(self.model(), keys.deep_view()),
    {
        let ghost m = self.model();
        let ghost kv = keys.deep_view();
        let n = self.len();
        let mut i: usize = 1;
        if n == 0 {
            return true;
        }
        while i < n
            invariant
                1 <= i <= n,
                m == self.model(),
                kv == keys.deep_view(),
                self.wf(),
                keys_ok(m, kv),
                n == rows_of(m),
                forall|t: int| 0 <= t < i - 1 ==> !(#[trigger] row_lt(m, kv, t + 1, t)),
            decreases n - i,
        {
            let c = self.row_cmp(keys, i - 1, i);
            match c {
                Cmp::Greater => {
                    proof {
                        assert(row_lt(m, kv, i as int, i - 1 as int));
                        assert(row_lt(m, kv, (i - 1) + 1, i - 1));
                    }
                    return false;
                },
                _ => {
                    proof {
                        assert(!row_lt(m, kv, (i - 1) + 1, i - 1));
                    }
                },
            }
            i += 1;
        }
        true
    }

    /// Shortens the collection, keeping the first `length` rows of
    /// every field and dropping the rest; columns already at most
    /// `length` long are unchanged.
    pub fn truncate(&mut self, length: usize)
        ensures
            final(self).model().len() == old(self).model().len(),
            forall|i: int|
                0 <= i < old(self).model().len() ==> (#[trigger] final(self).model()[i]) == (
                old(self).model()[i].0,
                old(self).model()[i].1,
                if length <= old(self).model()[i].2.len() {
                    old(self).model()[i].2.subrange(0, length as int)
                } else {
                    old(self).model()[i].2
                },
            ),
            old(self).wf() ==> final(self).wf(),
    {
        let ghost m = old(self).model();
        let mut nf: Vec<(String, FieldData)> = Vec::new();
        let mut fi: usize = 0;
        while fi < self.fields.len()
            invariant
                fi <= self.fields@.len(),
                m == self.model(),
                nf@.len() == fi,
                forall|k: int|
                    0 <= k < fi ==> (#[trigger] pairs_model(nf@)[k]) == (
                    m[k].0,
                    m[k].1,
                    if length <= m[k].2.len() {
                        m[k].2.subrange(0, length as int)
                    } else {
                        m[k].2
                    },
                ),
            decreases self.fields@.len() - fi,
        {
            proof {
                assert(m[fi as int] == (
                    self.fields@[fi as int].0@,
                    self.fields@[fi as int].1.type_rank(),
                    self.fields@[fi as int].1.values(),
                ));
            }
            let name = self.fields[fi].0.clone();
            let n = self.fields[fi].1.len();
            let keep = if length < n {
                length
            } else {
                n
            };
            let fd = self.fields[fi].1.slice(0, keep);
            let ghost nfprev = nf@;
            nf.push((name, fd));
            proof {
                assert(nf@[fi as int] == (name, fd));
                if length > n {
                    assert(m[fi as int].2.subrange(0, n as int) =~= m[fi as int].2);
                }
                assert forall|k: int| 0 <= k < fi implies (#[trigger] pairs_model(nf@)[k])
                    == pairs_model(nfprev)[k] by {
                    assert(nf@[k] == nfprev[k]);
                }
            }
            fi += 1;
        }
        self.fields = nf;
        proof {
            if old(self).wf() {
                assert forall|i: int| 0 <= i < self.model().len() implies (#[trigger] self.model()[i].2).len()
                    == rows_of(self.model()) by {
                    assert(m[0].2.len() == rows_of(m));
                    assert(m[i].2.len() == rows_of(m));
                }
            }
        }
    }

    /// A new collection keeping exactly the rows whose bit is set in
    /// `set`, for every field, preserving original relative row order.
    pub fn filter(&self, set: &proptest::bits::VarBitSet) -> (r: Cells)
        requires
            self.wf(),
        ensures
            r.model() == filter_model(self.model(), bit_set_of(*set)),
            r.wf(),
    {
        let ghost m = self.model();
        let ghost kept = bit_set_of(*set);
        proof {
            lemma_filter_model_ensures(m, kept);
        }
        let mut nf: Vec<(String, FieldData)> = Vec::new();
        let mut fi: usize = 0;
        while fi < self.fields.len()
            invariant
                fi <= self.fields@.len(),
                m == self.model(),
                self.wf(),
                kept == bit_set_of(*set),
                nf@.len() == fi,
                forall|k: int|
                    0 <= k < fi ==> (#[trigger] pairs_model(nf@)[k]) == filter_model(m, kept)[k],
            decreases self.fields@.len() - fi,
        {
            proof {
                lemma_filter_model_ensures(m, kept);
                assert(m[fi as int] == (
                    self.fields@[fi as int].0@,
                    self.fields@[fi as int].1.type_rank(),
                    self.fields@[fi as int].1.values(),
                ));
                assert(m[fi as int].2.len() == rows_of(m));
            }
            let name = self.fields[fi].0.clone();
            let fd = self.fields[fi].1.filter(set);
            let ghost nfprev = nf@;
            nf.push((name, fd));
            proof {
                assert(nf@[fi as int] == (name, fd));
                assert(pairs_model(nf@)[fi as int] == filter_model(m, kept)[fi as int]);
                assert forall|k: int| 0 <= k < fi implies (#[trigger] pairs_model(nf@)[k])
                    == pairs_model(nfprev)[k] by {
                    assert(nf@[k] == nfprev[k]);
                }
            }
            fi += 1;
        }
        let r = Cells { fields: nf };
        proof {
            lemma_filter_model_ensures(m, kept);
            assert(r.model() =~= filter_model(m, kept));
        }
        r
    }

    /// A copy of the collection with only the named fields, or `None`
    /// if any requested field is absent (no partial result). A name
    /// requested twice yields its field once.
    pub fn projection(&self, fields: &Vec<String>) -> (r: Option<Cells>)
        requires
            self.wf(),
        ensures
            match r {
                Some(p) => keys_ok(self.model(), fields.deep_view()) && p.model() == projection_model(
                    self.model(),
                    fields.deep_view(),
                ) && p.wf(),
                None => !keys_ok(self.model(), fields.deep_view()),
            },
    {
        let ghost m = self.model();
        let ghost nv = fields.deep_view();
        let mut out: Vec<(String, FieldData)> = Vec::new();
        let mut k: usize = 0;
        while k < fields.len()
            invariant
                k <= nv.len(),
                m == self.model(),
                self.wf(),
                nv == fields.deep_view(),
                nv.len() == fields@.len(),
                out@.len() == dedup_names(nv.take(k as int)).len(),
                pairs_model(out@) == projection_model(m, nv.take(k as int)),
                forall|t: int| 0 <= t < k ==> has_field(m, #[trigger] nv[t]),
            decreases nv.len() - k,
        {
            let ghost name = nv[k as int];
            proof {
                assert(fields@[k as int]@ == name);
                lemma_dedup_names(nv.take(k as int));
                assert(nv.take(k + 1 as int).drop_last() =~= nv.take(k as int));
                assert(nv.take(k + 1 as int).last() == name);
            }
            let fi = match self.find_field(&fields[k]) {
                Some(fi) => fi,
                None => {
                    return None;
                },
            };
            proof {
                lemma_field_index(m, name);
            }
            // skip a name that is already in the projection
            let mut seen = false;
            let mut t: usize = 0;
            while t < out.len()
                invariant
                    t <= out@.len(),
                    k < nv.len(),
                    nv == fields.deep_view(),
                    nv.len() == fields@.len(),
                    out@.len() == dedup_names(nv.take(k as int)).len(),
                    pairs_model(out@) == projection_model(m, nv.take(k as int)),
                    name == nv[k as int],
                    seen ==> dedup_names(nv.take(k as int)).contains(name),
                    !seen ==> forall|u: int|
                        0 <= u < t ==> dedup_names(nv.take(k as int))[u] != name,
                decreases out@.len() - t,
            {
                proof {
                    assert(pairs_model(out@)[t as int].0 == out@[t as int].0@);
                    assert(pairs_model(out@)[t as int].0 == dedup_names(nv.take(k as int))[t as int]);
                    assert(fields@[k as int]@ == name);
                }
                if out[t].0 == fields[k] {
                    seen = true;
                    proof {
                        assert(dedup_names(nv.take(k as int))[t as int] == name);
                    }
                }
                t += 1;
            }
            proof {
                lemma_dedup_names(nv.take(k as int));
                if seen {
                    assert(nv.take(k as int).contains(name));
                } else {
                    if nv.take(k as int).contains(name) {
                        assert(dedup_names(nv.take(k as int)).contains(name));
                        let u = choose|u: int|
                            0 <= u < dedup_names(nv.take(k as int)).len() && #[trigger] dedup_names(
                                nv.take(k as int),
                            )[u] == name;
                        assert(false);
                    }
                }
                assert(seen == nv.take(k as int).contains(name));
            }
            if !seen {
                let fname = self.fields[fi].0.clone();
                let fd = self.fields[fi].1.deep_clone();
                let ghost outprev = out@;
                out.push((fname, fd));
                proof {
                    lemma_field_index(m, name);
                    assert(m[fi as int] == (
                        self.fields@[fi as int].0@,
                        self.fields@[fi as int].1.type_rank(),
                        self.fields@[fi as int].1.values(),
                    ));
                    assert(out@[outprev.len() as int] == (fname, fd));
                    assert(pairs_model(out@)[outprev.len() as int] == (
                        name,
                        col_rank(m, name),
                        col(m, name),
                    ));
                    assert forall|u: int| 0 <= u < outprev.len() implies (#[trigger] pairs_model(
                        out@,
                    )[u]) == pairs_model(outprev)[u] by {
                        assert(out@[u] == outprev[u]);
                    }
                    assert(pairs_model(out@) =~= projection_model(m, nv.take(k + 1 as int)));
                }
            } else {
                proof {
                    assert(pairs_model(out@) =~= projection_model(m, nv.take(k + 1 as int)));
                }
            }
            k += 1;
        }
        proof {
            assert(nv.take(nv.len() as int) =~= nv);
        }
        let p = Cells { fields: out };
        proof {
            lemma_dedup_names(nv);
            assert forall|i: int, j: int| 0 <= i < j < p.model().len() implies p.model()[i].0 != p.model()[j].0 by {
                assert(p.model()[i].0 == dedup_names(nv)[i]);
                assert(p.model()[j].0 == dedup_names(nv)[j]);
            }
            assert forall|i: int| 0 <= i < p.model().len() implies (#[trigger] p.model()[i].2).len() == rows_of(
                p.model(),
            ) by {
                assert(p.model()[i].2 == col(m, dedup_names(nv)[i]));
                assert(dedup_names(nv).contains(dedup_names(nv)[i]));
                assert(nv.contains(dedup_names(nv)[i]));
                let w = choose|w: int| 0 <= w < nv.len() && nv[w] == dedup_names(nv)[i];
                lemma_field_index(m, dedup_names(nv)[i]);
                assert(col(m, dedup_names(nv)[i]).len() == rows_of(m));
                if p.model().len() > 0 {
                    assert(p.model()[0].2 == col(m, dedup_names(nv)[0]));
                    assert(dedup_names(nv).contains(dedup_names(nv)[0]));
                    assert(nv.contains(dedup_names(nv)[0]));
                    let w0 = choose|w0: int| 0 <= w0 < nv.len() && nv[w0] == dedup_names(nv)[0];
                    lemma_field_index(m, dedup_names(nv)[0]);
                    assert(rows_of(p.model()) == rows_of(m));
                }
            }
        }
        Some(p)
    }

    /// Adds a field to the collection. Returns `true` on success;
    /// returns `false`, leaving the collection unchanged, if the
    /// column's length does not match the current row count or a field
    /// of that name already exists.
    pub fn add_field(&mut self, key: &str, values: FieldData) -> (r: bool)
        requires
            old(self).wf(),
            old(self).has_fields(),
        ensures
            r == (values.values().len() == rows_of(old(self).model()) && !has_field(old(self).model(), key@)),
            r ==> final(self).model() == old(self).model().push((key@, values.type_rank(), values.values()))
                && final(self).wf(),
            !r ==> final(self).model() == old(self).model(),
    {
        let ghost m = old(self).model();
        if self.len() != values.len() {
            return false;
        }
        let key_string = key.to_owned();
        match self.find_field(&key_string) {
            Some(_) => false,
            None => {
                proof {
                    lemma_field_index(m, key@);
                }
                self.fields.push((key_string, values));
                proof {
                    assert(self.model() =~= m.push((key@, values.type_rank(), values.values())));
                    assert forall|i: int, j: int| 0 <= i < j < self.model().len() implies self.model()[i].0
                        != self.model()[j].0 by {
                        if j == m.len() {
                            assert(self.model()[i].0 == m[i].0);
                            assert(m[i].0 != key@);
                        } else {
                            assert(self.model()[i].0 == m[i].0 && self.model()[j].0 == m[j].0);
                        }
                    }
                    assert forall|i: int| 0 <= i < self.model().len() implies (#[trigger] self.model()[i].2).len()
                        == rows_of(self.model()) by {
                        assert(self.model()[0].2 == m[0].2);
                        if i < m.len() {
                            assert(self.model()[i].2 == m[i].2);
                        }
                    }
                }
                true
            },
        }
    }

    /// The row offsets that begin each group: each maximal contiguous
    /// run of rows that agree on all key fields with the run's first
    /// row. Returns `None` on an empty collection; otherwise the
    /// boundaries start at `0`, end at the row count, and are strictly
    /// increasing; rows within a run agree on all keys with the run's
    /// first row, and adjacent runs' first rows differ on some key.
    /// This assumes adjacency already reflects grouping (typically the
    /// rows are pre-sorted); it is not a global group-by.
    pub fn identify_groups(&self, keys: &Vec<String>) -> (r: Option<Vec<usize>>)
        requires
            self.wf(),
            self.has_fields(),
            keys_ok(self.model(), keys.deep_view()),
        ensures
            match r {
                None => rows_of(self.model()) == 0,
                Some(g) => {
                    &&& rows_of(self.model()) > 0
                    &&& g@.len() >= 2
                    &&& g@[0] == 0
                    &&& g@[g@.len() - 1] == rows_of(self.model())
                    &&& forall|x: int| 0 <= x < g@.len() - 1 ==> (#[trigger] g@[x]) < g@[x + 1]
                    &&& forall|x: int, t: int|
                        0 <= x < g@.len() - 1 && g@[x] <= t < g@[x + 1] ==> #[trigger] row_eq(
                            self.model(),
                            keys.deep_view(),
                            g@[x] as int,
                            t,
                        )
                    &&& forall|x: int|
                        0 <= x < g@.len() - 2 ==> !row_eq(
                            self.model(),
                            keys.deep_view(),
                            (#[trigger] g@[x]) as int,
                            g@[x + 1] as int,
                        )
                },
            },
    {
        let ghost m = self.model();
        let ghost kv = keys.deep_view();
        if self.is_empty() {
            return None;
        }
        let n = self.len();
        let mut groups: Vec<usize> = Vec::new();
        groups.push(0);
        let mut icmp: usize = 0;
        let mut i: usize = 1;
        while i < n
            invariant
                1 <= i <= n,
                0 <= icmp < i,
                m == self.model(),
                kv == keys.deep_view(),
                self.wf(),
                keys_ok(m, kv),
                n == rows_of(m),
                groups@.len() >= 1,
                groups@[0] == 0,
                groups@[groups@.len() - 1] == icmp,
                forall|x: int| 0 <= x < groups@.len() - 1 ==> (#[trigger] groups@[x]) < groups@[x
                    + 1],
                forall|x: int| 0 <= x < groups@.len() ==> (#[trigger] groups@[x]) < i,
                forall|x: int, t: int|
                    0 <= x < groups@.len() - 1 && groups@[x] <= t < groups@[x + 1]
                        ==> #[trigger] row_eq(m, kv, groups@[x] as int, t),
                forall|t: int| icmp <= t < i ==> row_eq(m, kv, icmp as int, t),
                forall|x: int|
                    0 <= x < groups@.len() - 1 ==> !row_eq(
                        m,
                        kv,
                        (#[trigger] groups@[x]) as int,
                        groups@[x + 1] as int,
                    ),
            decreases n - i,
        {
            let c = self.row_cmp(keys, i, icmp);
            let distinct = match c {
                Cmp::Equal => false,
                _ => true,
            };
            if distinct {
                let ghost gprev = groups@;
                groups.push(i);
                icmp = i;
                proof {
                    assert(groups@[groups@.len() - 1] == i);
                    assert forall|x: int, t: int|
                        0 <= x < groups@.len() - 1 && groups@[x] <= t < groups@[x + 1] implies
                        #[trigger] row_eq(m, kv, groups@[x] as int, t) by {
                        if x < gprev.len() - 1 {
                            assert(groups@[x] == gprev[x] && groups@[x + 1] == gprev[x + 1]);
                        } else {
                            assert(groups@[x] == gprev[gprev.len() - 1]);
                        }
                    }
                    assert forall|x: int|
                        0 <= x < groups@.len() - 1 implies !row_eq(
                        m,
                        kv,
                        (#[trigger] groups@[x]) as int,
                        groups@[x + 1] as int,
                    ) by {
                        if x < gprev.len() - 1 {
                            assert(groups@[x] == gprev[x] && groups@[x + 1] == gprev[x + 1]);
                        } else {
                            assert(groups@[x] == gprev[gprev.len() - 1]);
                            assert(groups@[x + 1] == i);
                        }
                    }
                }
            } else {
                proof {
                    assert(row_eq(m, kv, icmp as int, i as int));
                }
            }
            i += 1;
        }
        let ghost gprev = groups@;
        groups.push(n);
        proof {
            assert forall|x: int, t: int|
                0 <= x < groups@.len() - 1 && groups@[x] <= t < groups@[x + 1] implies
                #[trigger] row_eq(m, kv, groups@[x] as int, t) by {
                if x < gprev.len() - 1 {
                    assert(groups@[x] == gprev[x] && groups@[x + 1] == gprev[x + 1]);
                } else {
                    assert(groups@[x] == gprev[gprev.len() - 1]);
                }
            }
            assert forall|x: int|
                0 <= x < groups@.len() - 2 implies !row_eq(
                m,
                kv,
                (#[trigger] groups@[x]) as int,
                groups@[x + 1] as int,
            ) by {
                assert(groups@[x] == gprev[x] && groups@[x + 1] == gprev[x + 1]);
            }
        }
        Some(groups)
    }

    /// The number of distinct key-field value combinations across all
    /// rows (adjacency not required): the key fields are projected
    /// out, sorted, and the contiguous-group transitions counted.
    pub fn count_distinct(&self, keys: &Vec<String>) -> (r: usize)
        requires
            self.wf(),
            self.has_fields(),
            keys_ok(self.model(), keys.deep_view()),
            rows_of(self.model()) > 1 ==> keys@.len() > 0,
        ensures
            r as int == crate::rows::distinct_count(self.model(), keys.deep_view()),
    {
        broadcast use vstd::set::group_set_axioms, vstd::seq_lib::seq_to_set_is_finite;

        let ghost m = self.model();
        let ghost kv = keys.deep_view();
        let ghost krm = crate::rows::key_rows(m, kv);
        let n = self.len();
        if n == 0 {
            proof {
                assert(krm.to_set() =~= Set::<Seq<crate::value::Value>>::empty());
            }
            return 0;
        }
        if n == 1 {
            proof {
                crate::seqs::lemma_take_set_step(krm, 0);
                assert(krm.take(0).to_set() =~= Set::<Seq<crate::value::Value>>::empty());
                assert(krm.take(1) =~= krm);
            }
            return 1;
        }
        let proj = match self.projection(keys) {
            Some(p) => p,
            None => {
                // unreachable: every key names a field
                proof {
                    assert(false);
                }
                return 0;
            },
        };
        let ghost pm = proj.model();
        proof {
            crate::rows::lemma_projection_cols(m, kv);
            lemma_dedup_names(kv);
            assert(kv.contains(kv[0 as int]));
            assert(dedup_names(kv).contains(kv[0 as int]));
            assert(pm.len() > 0);
            assert(rows_of(pm) == rows_of(m));
            assert forall|k: int| 0 <= k < kv.len() implies has_field(pm, #[trigger] kv[k]) by {
                assert(kv.contains(kv[k]));
            }
        }
        let sorted_proj = proj.sorted(keys);
        let ghost ms = sorted_proj.model();
        let ghost krs = crate::rows::key_rows(ms, kv);
        proof {
            crate::rows::lemma_sorted_model_ensures(pm, kv);
            crate::rows::lemma_sorted_key_rows_set(pm, kv);
            assert forall|t: int| 0 <= t < rows_of(m) implies #[trigger] crate::rows::key_rows(
                pm,
                kv,
            )[t] == krm[t] by {
                assert forall|k: int| 0 <= k < kv.len() implies col(pm, #[trigger] kv[k])[t] == col(
                    m,
                    kv[k],
                )[t] by {
                    assert(kv.contains(kv[k]));
                }
                assert(crate::rows::key_row(pm, kv, t) =~= crate::rows::key_row(m, kv, t));
            }
            assert(crate::rows::key_rows(pm, kv) =~= krm);
            assert(krs.to_set() == krm.to_set());
            crate::seqs::lemma_take_set_step(krs, 0);
            assert(krs.take(0).to_set() =~= Set::<Seq<crate::value::Value>>::empty());
        }
        let mut count: usize = 1;
        let mut icmp: usize = 0;
        let mut i: usize = 1;
        while i < n
            invariant
                1 <= i <= n,
                0 <= icmp < i,
                ms == sorted_proj.model(),
                kv == keys.deep_view(),
                sorted_proj.wf(),
                keys_ok(ms, kv),
                n == rows_of(ms),
                krs == crate::rows::key_rows(ms, kv),
                sorted_rows(ms, kv),
                count <= i,
                count as int == krs.take(i as int).to_set().len(),
                forall|t: int| icmp <= t < i ==> row_eq(ms, kv, icmp as int, t),
            decreases n - i,
        {
            broadcast use vstd::set::group_set_axioms, vstd::seq_lib::seq_to_set_is_finite;

            let c = sorted_proj.row_cmp(keys, i, icmp);
            proof {
                crate::seqs::lemma_take_set_step(krs, i as int);
                crate::rows::lemma_row_eq_is_key_row_eq(ms, kv, icmp as int, i as int);
            }
            let distinct = match c {
                Cmp::Equal => false,
                _ => true,
            };
            if distinct {
                proof {
                    assert(!row_eq(ms, kv, icmp as int, i as int));
                    assert(!krs.take(i as int).to_set().contains(krs[i as int])) by {
                        if krs.take(i as int).to_set().contains(krs[i as int]) {
                            let j = choose|j: int|
                                0 <= j < i && #[trigger] krs.take(i as int)[j] == krs[i as int];
                            assert(krs[j] == krs[i as int]);
                            crate::rows::lemma_row_eq_is_key_row_eq(ms, kv, j, i as int);
                            assert(row_eq(ms, kv, j, i as int));
                            if j >= icmp {
                                assert(row_eq(ms, kv, icmp as int, j));
                                assert forall|k: int| 0 <= k < kv.len() implies col(
                                    ms,
                                    #[trigger] kv[k],
                                )[icmp as int] == col(ms, kv[k])[i as int] by {
                                    assert(col(ms, kv[k])[icmp as int] == col(ms, kv[k])[j]);
                                }
                                assert(row_eq(ms, kv, icmp as int, i as int));
                            } else {
                                lemma_row_trichotomy(ms, kv, j, icmp as int);
                                if row_eq(ms, kv, j, icmp as int) {
                                    assert forall|k: int| 0 <= k < kv.len() implies col(
                                        ms,
                                        #[trigger] kv[k],
                                    )[icmp as int] == col(ms, kv[k])[i as int] by {
                                        assert(col(ms, kv[k])[j] == col(ms, kv[k])[icmp as int]);
                                        assert(col(ms, kv[k])[j] == col(ms, kv[k])[i as int]);
                                    }
                                    assert(row_eq(ms, kv, icmp as int, i as int));
                                } else if row_lt(ms, kv, j, icmp as int) {
                                    crate::rows::lemma_row_lt_substitute(
                                        ms,
                                        kv,
                                        j,
                                        i as int,
                                        icmp as int,
                                    );
                                    assert(row_lt(ms, kv, i as int, icmp as int));
                                    crate::rows::lemma_sorted_pairwise(
                                        ms,
                                        kv,
                                        icmp as int,
                                        i as int,
                                    );
                                } else {
                                    crate::rows::lemma_sorted_pairwise(ms, kv, j, icmp as int);
                                }
                            }
                        }
                    }
                    assert(krs.take(i + 1 as int).to_set().len() == krs.take(
                        i as int,
                    ).to_set().len() + 1);
                }
                count += 1;
                icmp = i;
            } else {
                proof {
                    assert(row_eq(ms, kv, icmp as int, i as int));
                    assert(krs.take(i as int)[icmp as int] == krs[icmp as int]);
                    assert(krs[icmp as int] == krs[i as int]);
                    assert(krs.take(i as int).contains(krs[i as int]));
                    assert(krs.take(i as int).to_set().contains(krs[i as int]));
                    assert(krs.take(i + 1 as int).to_set().len() == krs.take(
                        i as int,
                    ).to_set().len());
                    assert forall|t: int| icmp <= t < i + 1 implies row_eq(
                        ms,
                        kv,
                        icmp as int,
                        t,
                    ) by {}
                }
            }
            i += 1;
        }
        proof {
            assert(krs.take(n as int) =~= krs);
        }
        count
    }

    /// The subset of rows with one row per distinct key combination,
    /// keeping the first occurrence, in original row order, of each
    /// combination.
    pub fn dedup(&self, keys: &Vec<String>) -> (r: Cells)
        requires
            self.wf(),
            self.has_fields(),
            keys_ok(self.model(), keys.deep_view()),
        ensures
            r.model() == crate::rows::dedup_model(self.model(), keys.deep_view()),
            r.wf(),
    {
        let ghost m = self.model();
        let ghost kv = keys.deep_view();
        let n = self.len();
        let mut preserve = crate::bitset::bitset_new(n);
        let mut i: usize = 0;
        while i < n
            invariant
                i <= n,
                m == self.model(),
                kv == keys.deep_view(),
                self.wf(),
                keys_ok(m, kv),
                n == rows_of(m),
                forall|t: int|
                    bit_set_of(preserve).contains(t) <==> 0 <= t < i && crate::rows::is_first_occ(
                        m,
                        kv,
                        t,
                    ),
            decreases n - i,
        {
            let mut found = false;
            let mut j: usize = 0;
            while j < i
                invariant
                    j <= i < n,
                    m == self.model(),
                    kv == keys.deep_view(),
                    self.wf(),
                    keys_ok(m, kv),
                    n == rows_of(m),
                    found ==> !crate::rows::is_first_occ(m, kv, i as int),
                    !found ==> forall|t: int| 0 <= t < j ==> !row_eq(m, kv, t, i as int),
                decreases i - j,
            {
                let c = self.row_cmp(keys, j, i);
                match c {
                    Cmp::Equal => {
                        found = true;
                    },
                    _ => {},
                }
                j += 1;
            }
            let ghost before = bit_set_of(preserve);
            if !found {
                crate::bitset::bitset_set(&mut preserve, i);
                proof {
                    assert(crate::rows::is_first_occ(m, kv, i as int));
                    assert forall|t: int|
                        bit_set_of(preserve).contains(t) <==> (0 <= t < i + 1
                            && crate::rows::is_first_occ(m, kv, t)) by {
                        assert(bit_set_of(preserve) == before.insert(i as int));
                    }
                }
            } else {
                proof {
                    assert forall|t: int|
                        bit_set_of(preserve).contains(t) <==> (0 <= t < i + 1
                            && crate::rows::is_first_occ(m, kv, t)) by {}
                }
            }
            i += 1;
        }
        let r = self.filter(&preserve);
        proof {
            crate::seqs::lemma_kept_indices_congruent(
                bit_set_of(preserve),
                crate::rows::first_occ_set(m, kv),
                rows_of(m),
            );
            lemma_filter_model_ensures(m, bit_set_of(preserve));
            lemma_filter_model_ensures(m, crate::rows::first_occ_set(m, kv));
            assert(r.model() =~= crate::rows::dedup_model(m, kv));
        }
        r
    }

    /// Extends this collection with the rows of another. The two must
    /// have exactly the same field names and types; otherwise the call
    /// fails with a type mismatch and leaves this collection unchanged.
    /// On success every field's rows are `self`'s followed by
    /// `other`'s.
    pub fn extend(&mut self, other: Self) -> (r: Result<(), CellsError>)
        requires
            old(self).wf(),
            other.wf(),
        ensures
            match r {
                Ok(_) => crate::rows::same_schema(old(self).model(), other.model()) && final(self).model()
                    == crate::rows::concat_model(old(self).model(), other.model()) && final(self).wf(),
                Err(e) => e == CellsError::TypeMismatch && !crate::rows::same_schema(
                    old(self).model(),
                    other.model(),
                ) && final(self).model() == old(self).model(),
            },
    {
        let ghost a = old(self).model();
        let ghost b = other.model();
        if self.fields.len() != other.fields.len() {
            return Err(CellsError::TypeMismatch);
        }
        let mut i: usize = 0;
        while i < self.fields.len()
            invariant
                i <= a.len(),
                a == self.model(),
                b == other.model(),
                a.len() == b.len(),
                forall|k: int|
                    0 <= k < i ==> has_field(b, (#[trigger] a[k]).0) && col_rank(b, a[k].0)
                        == a[k].1,
            decreases a.len() - i,
        {
            proof {
                assert(a[i as int] == (
                    self.fields@[i as int].0@,
                    self.fields@[i as int].1.type_rank(),
                    self.fields@[i as int].1.values(),
                ));
            }
            let oi = match other.find_field(&self.fields[i].0) {
                Some(oi) => oi,
                None => {
                    return Err(CellsError::TypeMismatch);
                },
            };
            proof {
                lemma_field_index(b, a[i as int].0);
                assert(b[oi as int] == (
                    other.fields@[oi as int].0@,
                    other.fields@[oi as int].1.type_rank(),
                    other.fields@[oi as int].1.values(),
                ));
            }
            if !self.fields[i].1.same_type(&other.fields[oi].1) {
                proof {
                    assert(col_rank(b, a[i as int].0) != a[i as int].1);
                }
                return Err(CellsError::TypeMismatch);
            }
            i += 1;
        }
        assert(crate::rows::same_schema(a, b));
        let mut nf: Vec<(String, FieldData)> = Vec::new();
        let mut fi: usize = 0;
        while fi < self.fields.len()
            invariant
                fi <= a.len(),
                a == self.model(),
                b == other.model(),
                other.wf(),
                crate::rows::same_schema(a, b),
                nf@.len() == fi,
                forall|k: int|
                    0 <= k < fi ==> (#[trigger] pairs_model(nf@)[k]) == crate::rows::concat_model(
                        a,
                        b,
                    )[k],
            decreases a.len() - fi,
        {
            proof {
                assert(a[fi as int] == (
                    self.fields@[fi as int].0@,
                    self.fields@[fi as int].1.type_rank(),
                    self.fields@[fi as int].1.values(),
                ));
            }
            let oi = match other.find_field(&self.fields[fi].0) {
                Some(oi) => oi,
                None => {
                    // unreachable: the schemas were checked equal above
                    proof {
                        assert(has_field(b, a[fi as int].0));
                        assert(false);
                    }
                    return Err(CellsError::TypeMismatch);
                },
            };
            proof {
                lemma_field_index(b, a[fi as int].0);
                assert(b[oi as int] == (
                    other.fields@[oi as int].0@,
                    other.fields@[oi as int].1.type_rank(),
                    other.fields@[oi as int].1.values(),
                ));
                assert(col(b, a[fi as int].0) == other.fields@[oi as int].1.values());
                assert(col_rank(b, a[fi as int].0) == other.fields@[oi as int].1.type_rank());
            }
            let name = self.fields[fi].0.clone();
            let mut fd = self.fields[fi].1.deep_clone();
            let res = fd.extend(&other.fields[oi].1);
            match res {
                Ok(_) => {},
                Err(_) => {
                    // unreachable: the column types were checked equal above
                    proof {
                        assert(false);
                    }
                    return Err(CellsError::TypeMismatch);
                },
            }
            let ghost nfprev = nf@;
            nf.push((name, fd));
            proof {
                assert(nf@[fi as int] == (name, fd));
                assert(pairs_model(nf@)[fi as int] == crate::rows::concat_model(a, b)[fi as int]);
                assert forall|k: int| 0 <= k < fi implies (#[trigger] pairs_model(nf@)[k])
                    == pairs_model(nfprev)[k] by {
                    assert(nf@[k] == nfprev[k]);
                }
            }
            fi += 1;
        }
        self.fields = nf;
        proof {
            assert(self.model() =~= crate::rows::concat_model(a, b));
            assert forall|k: int| 0 <= k < self.model().len() implies (#[trigger] self.model()[k].2).len()
                == rows_of(self.model()) by {
                assert(self.model()[k].2 == a[k].2 + col(b, a[k].0));
                lemma_field_index(b, a[k].0);
                assert(col(b, a[k].0).len() == rows_of(b));
                assert(self.model()[0].2 == a[0].2 + col(b, a[0].0));
                lemma_field_index(b, a[0].0);
            }
            assert forall|p: int, q: int| 0 <= p < q < self.model().len() implies self.model()[p].0
                != self.model()[q].0 by {
                assert(self.model()[p].0 == a[p].0 && self.model()[q].0 == a[q].0);
            }
        }
        Ok(())
    }

    /// Copies data from the argument. A field absent from `self` is
    /// adopted; a field present in both absorbs the incoming column:
    /// an incoming column at least as long replaces the existing one
    /// outright (which can change the overall row count and leave the
    /// fields' lengths out of step — a latent invariant risk inherited
    /// from this operation's contract), while a shorter incoming
    /// column overwrites only the first rows in place.
    pub fn copy_from(&mut self, cells: Self)
        requires
            distinct_names(old(self).model()),
            distinct_names(cells.model()),
            forall|i: int|
                0 <= i < cells.model().len() && has_field(old(self).model(), (#[trigger] cells.model()[i]).0)
                    ==> col_rank(old(self).model(), cells.model()[i].0) == cells.model()[i].1,
        ensures
            final(self).model() == crate::rows::merge_model(old(self).model(), cells.model()),
            distinct_names(final(self).model()),
    {
        let ghost a = old(self).model();
        let ghost b = cells.model();
        let mut ci: usize = 0;
        while ci < cells.fields.len()
            invariant
                ci <= b.len(),
                a == old(self).model(),
                b == cells.model(),
                distinct_names(a),
                distinct_names(b),
                forall|i: int|
                    0 <= i < b.len() && has_field(a, (#[trigger] b[i]).0) ==> col_rank(a, b[i].0)
                        == b[i].1,
                self.model() == crate::rows::merge_model(a, b.take(ci as int)),
            decreases b.len() - ci,
        {
            let ghost btake = b.take(ci as int);
            let ghost btake1 = b.take(ci + 1 as int);
            let ghost name = b[ci as int].0;
            let ghost cur = self.model();
            proof {
                assert(b[ci as int] == (
                    cells.fields@[ci as int].0@,
                    cells.fields@[ci as int].1.type_rank(),
                    cells.fields@[ci as int].1.values(),
                ));
                crate::rows::lemma_merge_lookup(a, b, ci as int);
                crate::rows::lemma_merge_model_step(a, b, ci as int);
                lemma_field_index(a, name);
            }
            let target = self.find_field(&cells.fields[ci].0);
            match target {
                Some(fi) => {
                    proof {
                        assert(has_field(cur, name));
                        assert(has_field(a, name));
                        assert(fi as int == field_index(cur, name));
                        assert(fi as int == field_index(a, name));
                        assert(cur[fi as int] == a[fi as int]);
                        assert(cur[fi as int] == (
                            self.fields@[fi as int].0@,
                            self.fields@[fi as int].1.type_rank(),
                            self.fields@[fi as int].1.values(),
                        ));
                        assert(col_rank(a, name) == a[fi as int].1);
                        assert(a[fi as int].1 == b[ci as int].1);
                    }
                    let mine_len = self.fields[fi].1.len();
                    let theirs_len = cells.fields[ci].1.len();
                    let newfd = if mine_len <= theirs_len {
                        cells.fields[ci].1.deep_clone()
                    } else {
                        let mut base = self.fields[fi].1.deep_clone();
                        base.overwrite_prefix(&cells.fields[ci].1);
                        base
                    };
                    let nm = self.fields[fi].0.clone();
                    self.fields[fi] = (nm, newfd);
                    proof {
                        assert(newfd.values() == crate::rows::merge_col(
                            a[fi as int].2,
                            b[ci as int].2,
                        ));
                        assert(newfd.type_rank() == a[fi as int].1);
                        assert(self.model().len() == cur.len());
                        assert(self.model()[fi as int] == (
                            name,
                            a[fi as int].1,
                            crate::rows::merge_col(a[fi as int].2, b[ci as int].2),
                        ));
                        assert forall|t: int| 0 <= t < cur.len() && t != fi implies #[trigger] self.model()[t]
                            == cur[t] by {}
                        assert(self.model() =~= crate::rows::merge_model(a, btake1));
                    }
                },
                None => {
                    proof {
                        assert(!has_field(cur, name));
                        assert(!has_field(a, name));
                    }
                    let nm = cells.fields[ci].0.clone();
                    let fd = cells.fields[ci].1.deep_clone();
                    self.fields.push((nm, fd));
                    proof {
                        assert(self.model().len() == cur.len() + 1);
                        assert(self.model()[cur.len() as int] == b[ci as int]);
                        assert forall|t: int| 0 <= t < cur.len() implies #[trigger] self.model()[t]
                            == cur[t] by {}
                        assert(self.model() =~= crate::rows::merge_model(a, btake1));
                    }
                },
            }
            ci += 1;
        }
        proof {
            assert(b.take(b.len() as int) =~= b);
            crate::rows::lemma_merge_model_distinct(a, b);
        }
    }

    /// Exact-bit equality of collections: every field of `self` must
    /// exist in `other` with an exactly bit-equal column of the same
    /// physical type, and the two collections must have the same
    /// number of fields.
    pub fn bits_eq(&self, other: &Cells) -> (r: bool)
        ensures
            r == crate::rows::cells_bits_eq(self.model(), other.model()),
    {
        let ghost m = self.model();
        let ghost o = other.model();
        if self.fields.len() != other.fields.len() {
            return false;
        }
        let mut i: usize = 0;
        while i < self.fields.len()
            invariant
                i <= m.len(),
                m == self.model(),
                o == other.model(),
                m.len() == o.len(),
                forall|k: int|
                    0 <= k < i ==> has_field(o, (#[trigger] m[k]).0) && col_rank(o, m[k].0)
                        == m[k].1 && col(o, m[k].0) == m[k].2,
            decreases m.len() - i,
        {
            proof {
                assert(m[i as int] == (
                    self.fields@[i as int].0@,
                    self.fields@[i as int].1.type_rank(),
                    self.fields@[i as int].1.values(),
                ));
            }
            let oi = match other.find_field(&self.fields[i].0) {
                Some(oi) => oi,
                None => {
                    return false;
                },
            };
            proof {
                lemma_field_index(o, m[i as int].0);
                assert(o[oi as int] == (
                    other.fields@[oi as int].0@,
                    other.fields@[oi as int].1.type_rank(),
                    other.fields@[oi as int].1.values(),
                ));
                assert(col(o, m[i as int].0) == other.fields@[oi as int].1.values());
                assert(col_rank(o, m[i as int].0) == other.fields@[oi as int].1.type_rank());
            }
            if !column_eq(&self.fields[i].1, &other.fields[oi].1) {
                return false;
            }
            i += 1;
        }
        true
    }
}

/// Exact-bit equality of two columns: the same physical type and the
/// same cell values.
fn column_eq(x: &FieldData, y: &FieldData) -> (r: bool)
    ensures
        r == (x.type_rank() == y.type_rank() && x.values() == y.values()),
{
    if !x.same_type(y) {
        return false;
    }
    let n = x.len();
    if n != y.len() {
        proof {
            assert(x.values() != y.values());
        }
        return false;
    }
    let mut i: usize = 0;
    while i < n
        invariant
            i <= n,
            n == x.values().len(),
            n == y.values().len(),
            forall|k: int| 0 <= k < i ==> x.values()[k] == y.values()[k],
        decreases n - i,
    {
        if !x.values_eq_at(i, y, i) {
            return false;
        }
        i += 1;
    }
    proof {
        assert(x.values() =~= y.values());
    }
    true
}

} // verus!
