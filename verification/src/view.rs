//! A borrowed, lazily evaluated comparator over a field subset and a
//! row range of a collection: used to compare sub-ranges of two
//! collections without copying.

use vstd::prelude::*;

use crate::cells::Cells;
use crate::rows::{col, col_rank, has_field, keys_ok, lemma_field_index, rows_of};
use crate::CellsError;

verus! {

impl Cells {
    /// A view over a slice of the rows, with the fields restricted to
    /// `keys`: useful for comparing a section of this collection to
    /// another one. Fails with a lookup failure if any key names no
    /// field.
    pub fn view<'a>(
        &'a self,
        keys: &'a Vec<String>,
        slice: core::ops::Range<usize>,
    ) -> (r: Result<CellsView<'a>, CellsError>)
        requires
            self.wf(),
            slice.start <= slice.end <= rows_of(self.model()),
        ensures
            match r {
                Ok(v) => {
                    &&& keys_ok(self.model(), keys.deep_view())
                    &&& v.cells_model() == self.model()
                    &&& v.keys_model() == keys.deep_view()
                    &&& v.start() == slice.start
                    &&& v.end() == slice.end
                    &&& v.wf()
                },
                Err(e) => e == CellsError::FieldNotFound && !keys_ok(self.model(), keys.deep_view()),
            },
    {
        let ghost m = self.model();
        let ghost kv = keys.deep_view();
        let mut k: usize = 0;
        while k < keys.len()
            invariant
                k <= kv.len(),
                m == self.model(),
                kv == keys.deep_view(),
                kv.len() == keys@.len(),
                forall|t: int| 0 <= t < k ==> has_field(m, #[trigger] kv[t]),
            decreases kv.len() - k,
        {
            proof {
                assert(keys@[k as int]@ == kv[k as int]);
            }
            match self.find_field(&keys[k]) {
                Some(_) => {},
                None => {
                    return Err(CellsError::FieldNotFound);
                },
            }
            k += 1;
        }
        Ok(
            CellsView {
                cells: self,
                keys,
                lo: slice.start,
                hi: slice.end,
            },
        )
    }
}

/// A view of rows `[lo, hi)` of a collection, restricted to the key
/// fields. It borrows the collection and must not outlive it.
pub struct CellsView<'a> {
    pub(crate) cells: &'a Cells,
    pub(crate) keys: &'a Vec<String>,
    pub(crate) lo: usize,
    pub(crate) hi: usize,
}

impl<'a> CellsView<'a> {
    /// The model of the viewed collection.
    pub closed spec fn cells_model(&self) -> crate::rows::FieldsModel {
        self.cells.model()
    }

    /// The names of the viewed key fields, in order.
    pub closed spec fn keys_model(&self) -> Seq<Seq<char>> {
        self.keys.deep_view()
    }

    /// The start of the viewed row range.
    pub closed spec fn start(&self) -> int {
        self.lo as int
    }

    /// The end of the viewed row range.
    pub closed spec fn end(&self) -> int {
        self.hi as int
    }

    /// A valid view: the collection is well formed, every key names a
    /// field, and the row range lies within the rows. `Cells::view`
    /// hands out views for which this holds.
    pub closed spec fn wf(&self) -> bool {
        &&& self.cells.wf()
        &&& keys_ok(self.cells_model(), self.keys_model())
        &&& 0 <= self.start() <= self.end() <= rows_of(self.cells_model())
    }

    /// When two views are equal: their row ranges have the same
    /// length; for every key field of this view, the other collection
    /// has a field of that name, of the same physical type, whose
    /// rows over the other range are exactly bit-equal to this
    /// field's rows over this range; and both views select the same
    /// number of key fields. A key field that the other collection
    /// lacks makes the views unequal (not a failure).
    pub open spec fn eq_spec(&self, other: &CellsView) -> bool {
        &&& self.end() - self.start() == other.end() - other.start()
        &&& self.keys_model().len() == other.keys_model().len()
        &&& forall|k: int|
            0 <= k < self.keys_model().len() ==> {
                let name = #[trigger] self.keys_model()[k];
                &&& has_field(other.cells_model(), name)
                &&& col_rank(other.cells_model(), name) == col_rank(self.cells_model(), name)
                &&& col(other.cells_model(), name).subrange(
                    other.start(),
                    other.start() + (self.end() - self.start()),
                ) == col(self.cells_model(), name).subrange(self.start(), self.end())
            }
    }

    /// Whether the two views are equal, by the contract of `eq_spec`.
    pub fn matches(&self, other: &CellsView) -> (r: bool)
        requires
            self.wf(),
            other.wf(),
        ensures
            r == self.eq_spec(other),
    {
        let ghost m = self.cells.model();
        let ghost o = other.cells.model();
        let ghost kv = self.keys.deep_view();
        let len = self.hi - self.lo;
        if len != other.hi - other.lo {
            return false;
        }
        if self.keys.len() != other.keys.len() {
            return false;
        }
        let mut k: usize = 0;
        while k < self.keys.len()
            invariant
                k <= kv.len(),
                m == self.cells.model(),
                o == other.cells.model(),
                kv == self.keys.deep_view(),
                kv.len() == self.keys@.len(),
                self.wf(),
                other.wf(),
                len == self.hi - self.lo,
                len == other.hi - other.lo,
                forall|t: int|
                    0 <= t < k ==> {
                        let name = #[trigger] kv[t];
                        &&& has_field(o, name)
                        &&& col_rank(o, name) == col_rank(m, name)
                        &&& col(o, name).subrange(
                            other.lo as int,
                            other.lo + len,
                        ) == col(m, name).subrange(self.lo as int, self.lo + len)
                    },
            decreases kv.len() - k,
        {
            let ghost name = kv[k as int];
            proof {
                assert(self.keys@[k as int]@ == name);
                assert(has_field(m, name));
            }
            let fi = match self.cells.find_field(&self.keys[k]) {
                Some(fi) => fi,
                None => {
                    // unreachable: a valid view's keys all name fields
                    proof {
                        assert(false);
                    }
                    0
                },
            };
            let oi = match other.cells.find_field(&self.keys[k]) {
                Some(oi) => oi,
                None => {
                    return false;
                },
            };
            proof {
                lemma_field_index(m, name);
                lemma_field_index(o, name);
            }
            let mine = self.cells.field_data(fi);
            let theirs = other.cells.field_data(oi);
            if !mine.same_type(theirs) {
                return false;
            }
            proof {
                assert(col(m, name).len() == rows_of(m));
                assert(col(o, name).len() == rows_of(o));
            }
            let mut t: usize = 0;
            while t < len
                invariant
                    t <= len,
                    m == self.cells.model(),
                    o == other.cells.model(),
                    self.wf(),
                    other.wf(),
                    len == self.hi - self.lo,
                    len == other.hi - other.lo,
                    name == kv[k as int],
                    0 <= k < kv.len(),
                    kv == self.keys.deep_view(),
                    col(m, name).len() == rows_of(m),
                    col(o, name).len() == rows_of(o),
                    self.lo + len <= rows_of(m),
                    other.lo + len <= rows_of(o),
                    mine.values() == col(m, name),
                    theirs.values() == col(o, name),
                    forall|u: int|
                        0 <= u < t ==> #[trigger] col(m, name)[self.lo + u] == col(o, name)[
                            other.lo + u],
                decreases len - t,
            {
                let e = mine.values_eq_at(self.lo + t, theirs, other.lo + t);
                if !e {
                    proof {
                        assert(col(m, name).subrange(self.lo as int, self.lo + len)[t as int]
                            != col(o, name).subrange(other.lo as int, other.lo + len)[t as int]);
                    }
                    return false;
                }
                t += 1;
            }
            proof {
                assert forall|u: int| 0 <= u < len implies #[trigger] col(o, name).subrange(
                    other.lo as int,
                    other.lo + len,
                )[u] == col(m, name).subrange(self.lo as int, self.lo + len)[u] by {
                    assert(col(m, name)[self.lo + u] == col(o, name)[other.lo + u]);
                }
                assert(col(o, name).subrange(other.lo as int, other.lo + len) =~= col(
                    m,
                    name,
                ).subrange(self.lo as int, self.lo + len));
            }
            k += 1;
        }
        true
    }
}

} // verus!
