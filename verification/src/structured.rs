//! N-dimensional addressing over a collection: a `Cells` plus an
//! ordered list of dimension extents, giving row-major flattening and
//! hyper-rectangle slicing.

use vstd::prelude::*;

use crate::bitset::{bit_set_of, bitset_new, bitset_set};
use crate::cells::Cells;
use crate::rows::{distinct_names, filter_model, rows_of, uniform, FieldsModel};
use crate::CellsError;

verus! {

/// The product of the extents `dims[d..]`; the empty product is `1`.
pub open spec fn prod_from(dims: Seq<usize>, d: int) -> int
    decreases dims.len() - d,
{
    if d < 0 || d >= dims.len() {
        1
    } else {
        dims[d] * prod_from(dims, d + 1)
    }
}

/// The row-major stride of dimension `d`: how far apart consecutive
/// coordinates of that dimension sit in the flat row order (the last
/// dimension varies fastest).
pub open spec fn stride_of(dims: Seq<usize>, d: int) -> int {
    prod_from(dims, d + 1)
}

/// The coordinate along dimension `d` of the flat row index `i`,
/// under row-major flattening.
pub open spec fn coord_of(i: int, dims: Seq<usize>, d: int) -> int {
    (i / stride_of(dims, d)) % (dims[d] as int)
}

/// Whether the flat row index `i` lies inside the hyper-rectangle
/// given by the per-dimension ranges.
pub open spec fn in_slice(i: int, dims: Seq<usize>, ranges: Seq<core::ops::Range<usize>>) -> bool {
    forall|d: int|
        0 <= d < dims.len() ==> (#[trigger] ranges[d]).start <= coord_of(i, dims, d)
            < ranges[d].end
}

/// The flat row indices below `n` selected by the hyper-rectangle.
pub open spec fn slice_set(
    dims: Seq<usize>,
    ranges: Seq<core::ops::Range<usize>>,
    n: int,
) -> Set<int> {
    Set::new(|i: int| 0 <= i < n && in_slice(i, dims, ranges))
}

/// A zero extent anywhere makes the whole product zero.
proof fn lemma_prod_zero(dims: Seq<usize>, z: int, d: int)
    requires
        0 <= d <= z < dims.len(),
        dims[z] == 0,
    ensures
        prod_from(dims, d) == 0,
    decreases z - d,
{
    if d < z {
        lemma_prod_zero(dims, z, d + 1);
    }
}

/// With all extents positive, every suffix product is positive and no
/// larger than any product of a longer suffix.
proof fn lemma_prod_pos(dims: Seq<usize>, d: int)
    requires
        forall|t: int| 0 <= t < dims.len() ==> (#[trigger] dims[t]) >= 1,
        0 <= d,
    ensures
        prod_from(dims, d) >= 1,
        forall|e: int| d <= e ==> prod_from(dims, d) >= #[trigger] prod_from(dims, e),
    decreases dims.len() - d,
{
    if d >= dims.len() {
        assert forall|e: int| d <= e implies prod_from(dims, d) >= #[trigger] prod_from(
            dims,
            e,
        ) by {
            if e >= dims.len() {
            } else {
                assert(false);
            }
        }
    } else {
        lemma_prod_pos(dims, d + 1);
        assert(prod_from(dims, d) == dims[d] * prod_from(dims, d + 1));
        assert(prod_from(dims, d) >= prod_from(dims, d + 1)) by (nonlinear_arith)
            requires
                dims[d] >= 1,
                prod_from(dims, d + 1) >= 1,
                prod_from(dims, d) == dims[d] * prod_from(dims, d + 1),
        ;
        assert forall|e: int| d <= e implies prod_from(dims, d) >= #[trigger] prod_from(
            dims,
            e,
        ) by {
            if e > d {
                assert(prod_from(dims, d + 1) >= prod_from(dims, e));
            }
        }
    }
}

/// The row-major flat index of the coordinate tuple `c`, summing from
/// dimension `d` on: each coordinate is scaled by its stride, so the
/// last dimension varies fastest.
pub open spec fn flatten_from(c: Seq<int>, dims: Seq<usize>, d: int) -> int
    decreases dims.len() - d,
{
    if d < 0 || d >= dims.len() {
        0
    } else {
        c[d] * stride_of(dims, d) + flatten_from(c, dims, d + 1)
    }
}

/// Valid coordinates flatten below the suffix product.
proof fn lemma_flatten_bound(c: Seq<int>, dims: Seq<usize>, d: int)
    requires
        c.len() == dims.len(),
        0 <= d,
        forall|e: int| 0 <= e < dims.len() ==> 0 <= #[trigger] c[e] < dims[e],
    ensures
        0 <= flatten_from(c, dims, d) < prod_from(dims, d),
    decreases dims.len() - d,
{
    if d < dims.len() {
        lemma_flatten_bound(c, dims, d + 1);
        let s = stride_of(dims, d);
        assert(0 <= flatten_from(c, dims, d) < prod_from(dims, d)) by (nonlinear_arith)
            requires
                0 <= c[d] < dims[d],
                0 <= flatten_from(c, dims, d + 1) < s,
                flatten_from(c, dims, d) == c[d] * s + flatten_from(c, dims, d + 1),
                prod_from(dims, d) == dims[d] * s,
        ;
    }
}

/// The flat index splits, at each dimension, into a multiple of that
/// dimension's block and the flattening of the remaining dimensions.
proof fn lemma_flatten_decompose(c: Seq<int>, dims: Seq<usize>, d: int) -> (q: int)
    requires
        c.len() == dims.len(),
        0 <= d <= dims.len(),
        forall|e: int| 0 <= e < dims.len() ==> 0 <= #[trigger] c[e] < dims[e],
    ensures
        q >= 0,
        flatten_from(c, dims, 0) == q * prod_from(dims, d) + flatten_from(c, dims, d),
    decreases d,
{
    if d == 0 {
        0
    } else {
        let q0 = lemma_flatten_decompose(c, dims, d - 1);
        let q = q0 * (dims[d - 1] as int) + c[d - 1];
        assert(q >= 0 && flatten_from(c, dims, 0) == q * prod_from(dims, d) + flatten_from(
            c,
            dims,
            d,
        )) by (nonlinear_arith)
            requires
                q0 >= 0,
                0 <= c[d - 1] < dims[d - 1],
                q == q0 * (dims[d - 1] as int) + c[d - 1],
                flatten_from(c, dims, 0) == q0 * prod_from(dims, d - 1) + flatten_from(
                    c,
                    dims,
                    d - 1,
                ),
                flatten_from(c, dims, d - 1) == c[d - 1] * stride_of(dims, d - 1) + flatten_from(
                    c,
                    dims,
                    d,
                ),
                prod_from(dims, d - 1) == dims[d - 1] * prod_from(dims, d),
                stride_of(dims, d - 1) == prod_from(dims, d),
        ;
        q
    }
}

/// Row-major flattening and coordinate extraction are inverse: the
/// flat index of a valid coordinate tuple lies below the shape's
/// product and decomposes back into exactly those coordinates.
pub proof fn lemma_flatten_coords(c: Seq<int>, dims: Seq<usize>)
    requires
        c.len() == dims.len(),
        forall|d: int| 0 <= d < dims.len() ==> 0 <= #[trigger] c[d] < dims[d],
    ensures
        0 <= flatten_from(c, dims, 0) < prod_from(dims, 0),
        forall|d: int|
            0 <= d < dims.len() ==> #[trigger] coord_of(flatten_from(c, dims, 0), dims, d) == c[d],
{
    let f = flatten_from(c, dims, 0);
    lemma_flatten_bound(c, dims, 0);
    assert forall|d: int| 0 <= d < dims.len() implies #[trigger] coord_of(f, dims, d) == c[d] by {
        let q = lemma_flatten_decompose(c, dims, d);
        lemma_flatten_bound(c, dims, d + 1);
        let s = stride_of(dims, d);
        let r = flatten_from(c, dims, d + 1);
        let a = q * (dims[d] as int) + c[d];
        assert(0 <= r < s);
        assert(f == s * a + r && a >= 0) by (nonlinear_arith)
            requires
                q >= 0,
                0 <= c[d],
                f == q * prod_from(dims, d) + flatten_from(c, dims, d),
                flatten_from(c, dims, d) == c[d] * s + r,
                prod_from(dims, d) == dims[d] * s,
                a == q * (dims[d] as int) + c[d],
        ;
        vstd::arithmetic::div_mod::lemma_div_multiples_vanish_fancy(a, r, s);
        assert(f / s == a);
        assert((dims[d] as int) * q + c[d] == a) by (nonlinear_arith)
            requires
                a == q * (dims[d] as int) + c[d],
        ;
        vstd::arithmetic::div_mod::lemma_mod_multiples_vanish(q, c[d], dims[d] as int);
        vstd::arithmetic::div_mod::lemma_small_mod(c[d] as nat, dims[d] as nat);
        assert(a % (dims[d] as int) == c[d]);
    }
}

/// A valid coordinate tuple's flat row index is selected by a slice
/// exactly when every coordinate lies in its dimension's range.
pub proof fn lemma_slice_selects_coordinates(
    c: Seq<int>,
    dims: Seq<usize>,
    ranges: Seq<core::ops::Range<usize>>,
)
    requires
        c.len() == dims.len(),
        ranges.len() == dims.len(),
        forall|d: int| 0 <= d < dims.len() ==> 0 <= #[trigger] c[d] < dims[d],
    ensures
        in_slice(flatten_from(c, dims, 0), dims, ranges) <==> forall|d: int|
            0 <= d < dims.len() ==> (#[trigger] ranges[d]).start <= c[d] < ranges[d].end,
{
    lemma_flatten_coords(c, dims);
}

/// A collection with an N-dimensional shape: the product of the
/// dimension extents equals the row count at construction. Slicing
/// keeps the original extents even though the row count shrinks, so
/// shape and row count can drift apart after slicing.
pub struct StructuredCells {
    dimensions: Vec<usize>,
    cells: Cells,
}

impl StructuredCells {
    /// The dimension extents.
    pub closed spec fn dims(&self) -> Seq<usize> {
        self.dimensions@
    }

    /// The model of the wrapped collection.
    pub closed spec fn inner(&self) -> FieldsModel {
        self.cells.model()
    }

    /// The wrapped collection is well formed and non-degenerate, and
    /// the shape's product fits the machine (established at
    /// construction; slicing keeps the extents, so this is preserved
    /// even when shape and row count drift apart).
    pub open spec fn wf(&self) -> bool {
        &&& distinct_names(self.inner())
        &&& uniform(self.inner())
        &&& self.inner().len() > 0
        &&& prod_from(self.dims(), 0) <= usize::MAX
    }

    /// Wraps a collection in a shape. Fails with `DimensionMismatch`
    /// if the product of the extents does not equal the row count.
    pub fn new(dimensions: Vec<usize>, cells: Cells) -> (r: Result<StructuredCells, CellsError>)
        requires
            cells.wf(),
            cells.has_fields(),
        ensures
            match r {
                Ok(s) => {
                    &&& prod_from(dimensions@, 0) == rows_of(cells.model())
                    &&& s.dims() == dimensions@
                    &&& s.inner() == cells.model()
                    &&& s.wf()
                },
                Err(e) => e == CellsError::DimensionMismatch && prod_from(dimensions@, 0)
                    != rows_of(cells.model()),
            },
    {
        let ghost dv = dimensions@;
        let n = cells.len();
        let mut d: usize = 0;
        while d < dimensions.len()
            invariant
                d <= dv.len(),
                dv == dimensions@,
                n == rows_of(cells.model()),
                cells.wf(),
                cells.has_fields(),
                forall|t: int| 0 <= t < d ==> (#[trigger] dv[t]) >= 1,
            decreases dv.len() - d,
        {
            if dimensions[d] == 0 {
                proof {
                    lemma_prod_zero(dv, d as int, 0);
                }
                if n == 0 {
                    return Ok(StructuredCells { dimensions, cells });
                } else {
                    return Err(CellsError::DimensionMismatch);
                }
            }
            d += 1;
        }
        // all extents are positive
        let mut acc: usize = 1;
        let mut e: usize = dimensions.len();
        while e > 0
            invariant
                0 <= e <= dv.len(),
                dv == dimensions@,
                n == rows_of(cells.model()),
                forall|t: int| 0 <= t < dv.len() ==> (#[trigger] dv[t]) >= 1,
                acc as int == prod_from(dv, e as int),
            decreases e,
        {
            let next = e - 1;
            match dimensions[next].checked_mul(acc) {
                Some(x) => {
                    acc = x;
                },
                None => {
                    proof {
                        lemma_prod_pos(dv, 0);
                        assert(prod_from(dv, next as int) == dv[next as int] * prod_from(
                            dv,
                            next + 1,
                        ));
                        assert(prod_from(dv, 0) >= prod_from(dv, next as int));
                    }
                    return Err(CellsError::DimensionMismatch);
                },
            }
            e = next;
        }
        if acc == n {
            Ok(StructuredCells { dimensions, cells })
        } else {
            Err(CellsError::DimensionMismatch)
        }
    }

    /// The number of dimensions of the shape.
    pub fn num_dimensions(&self) -> (r: usize)
        ensures
            r == self.dims().len(),
    {
        self.dimensions.len()
    }

    /// The extent of dimension `d`.
    pub fn dimension_len(&self, d: usize) -> (r: usize)
        requires
            d < self.dims().len(),
        ensures
            r == self.dims()[d as int],
    {
        self.dimensions[d]
    }

    /// Unwraps to the underlying collection, discarding the shape.
    pub fn into_inner(self) -> (r: Cells)
        ensures
            r.model() == self.inner(),
    {
        self.cells
    }

    /// Whether flat row `i` lies inside the hyper-rectangle.
    fn slice_contains(&self, i: usize, slices: &Vec<core::ops::Range<usize>>) -> (r: bool)
        requires
            self.wf(),
            slices@.len() == self.dims().len(),
            forall|d: int|
                0 <= d < slices@.len() ==> (#[trigger] slices@[d]).start < slices@[d].end
                    && slices@[d].end <= self.dims()[d],
        ensures
            r == in_slice(i as int, self.dims(), slices@),
    {
        let ghost dv = self.dims();
        proof {
            assert forall|t: int| 0 <= t < dv.len() implies (#[trigger] dv[t]) >= 1 by {
                assert(slices@[t].start < slices@[t].end && slices@[t].end <= dv[t]);
            }
            lemma_prod_pos(dv, 0);
        }
        let ndims = self.dimensions.len();
        let mut d: usize = 0;
        while d < ndims
            invariant
                d <= ndims,
                ndims == dv.len(),
                dv == self.dims(),
                self.wf(),
                slices@.len() == dv.len(),
                forall|t: int|
                    0 <= t < slices@.len() ==> (#[trigger] slices@[t]).start < slices@[t].end
                        && slices@[t].end <= dv[t],
                forall|t: int| 0 <= t < dv.len() ==> (#[trigger] dv[t]) >= 1,
                forall|t: int|
                    0 <= t < d ==> (#[trigger] slices@[t]).start <= coord_of(i as int, dv, t)
                        < slices@[t].end,
            decreases ndims - d,
        {
            // the stride of dimension d: the product of the extents
            // after it
            let mut st: usize = 1;
            let mut e: usize = ndims;
            proof {
                lemma_prod_pos(dv, 0);
            }
            while e > d + 1
                invariant
                    d < e <= ndims,
                    ndims == dv.len(),
                    dv == self.dims(),
                    prod_from(dv, 0) <= usize::MAX,
                    forall|t: int| 0 <= t < dv.len() ==> (#[trigger] dv[t]) >= 1,
                    st as int == prod_from(dv, e as int),
                decreases e,
            {
                let next = e - 1;
                proof {
                    lemma_prod_pos(dv, 0);
                    assert(prod_from(dv, next as int) == dv[next as int] * prod_from(
                        dv,
                        next + 1,
                    ));
                    assert(prod_from(dv, 0) >= prod_from(dv, next as int));
                }
                st = self.dimensions[next] * st;
                e = next;
            }
            let dim = self.dimensions[d];
            proof {
                lemma_prod_pos(dv, d + 1);
            }
            let c = (i / st) % dim;
            if !(slices[d].start <= c && c < slices[d].end) {
                proof {
                    assert(coord_of(i as int, dv, d as int) == c);
                    assert(!in_slice(i as int, dv, slices@));
                }
                return false;
            }
            d += 1;
        }
        true
    }

    /// Selects the hyper-rectangle given by one range per dimension:
    /// keeps exactly the rows whose row-major coordinates lie in every
    /// range (none, if any range is empty). The result keeps the
    /// original extents — they are not recomputed from the ranges —
    /// so its shape and row count go out of step; integrators must
    /// account for that before slicing again.
    pub fn slice(&self, slices: Vec<core::ops::Range<usize>>) -> (r: StructuredCells)
        requires
            self.wf(),
            slices@.len() == self.dims().len(),
            forall|d: int|
                0 <= d < slices@.len() ==> (#[trigger] slices@[d]).end <= self.dims()[d],
        ensures
            r.dims() == self.dims(),
            r.inner() == filter_model(
                self.inner(),
                slice_set(self.dims(), slices@, rows_of(self.inner())),
            ),
            r.wf(),
    {
        let ghost dv = self.dims();
        let ghost m = self.inner();
        let n = self.cells.len();
        let mut mask = bitset_new(n);
        let mut any_empty = false;
        let mut d: usize = 0;
        while d < slices.len()
            invariant
                d <= slices@.len(),
                slices@.len() == dv.len(),
                dv == self.dims(),
                !any_empty ==> forall|t: int|
                    0 <= t < d ==> (#[trigger] slices@[t]).start < slices@[t].end,
                any_empty ==> exists|t: int|
                    0 <= t < d && (#[trigger] slices@[t]).start >= slices@[t].end,
            decreases slices@.len() - d,
        {
            if slices[d].start >= slices[d].end {
                any_empty = true;
            }
            d += 1;
        }
        if any_empty {
            proof {
                let t = choose|t: int|
                    0 <= t < dv.len() && (#[trigger] slices@[t]).start >= slices@[t].end;
                assert forall|i: int| 0 <= i < rows_of(m) implies !in_slice(i, dv, slices@) by {
                    if in_slice(i, dv, slices@) {
                        assert(slices@[t].start <= coord_of(i, dv, t) < slices@[t].end);
                    }
                }
                assert(bit_set_of(mask) =~= slice_set(dv, slices@, rows_of(m)));
            }
        } else {
            let mut i: usize = 0;
            while i < n
                invariant
                    i <= n,
                    dv == self.dims(),
                    m == self.inner(),
                    self.wf(),
                    n == rows_of(m),
                    slices@.len() == dv.len(),
                    forall|t: int|
                        0 <= t < slices@.len() ==> (#[trigger] slices@[t]).start < slices@[t].end
                            && slices@[t].end <= dv[t],
                    forall|t: int|
                        bit_set_of(mask).contains(t) <==> 0 <= t < i && in_slice(t, dv, slices@),
                decreases n - i,
            {
                let ghost before = bit_set_of(mask);
                if self.slice_contains(i, &slices) {
                    bitset_set(&mut mask, i);
                    proof {
                        assert(bit_set_of(mask) == before.insert(i as int));
                    }
                }
                i += 1;
            }
            proof {
                assert(bit_set_of(mask) =~= slice_set(dv, slices@, rows_of(m)));
            }
        }
        let filtered = self.cells.filter(&mask);
        let dims_copy = copy_extents(&self.dimensions);
        proof {
            assert(filtered.model() == filter_model(m, slice_set(dv, slices@, rows_of(m))));
            crate::rows::lemma_filter_model_ensures(m, slice_set(dv, slices@, rows_of(m)));
        }
        StructuredCells { dimensions: dims_copy, cells: filtered }
    }
}

/// A copy of the extent list.
fn copy_extents(v: &Vec<usize>) -> (r: Vec<usize>)
    ensures
        r@ == v@,
{
    let mut r: Vec<usize> = Vec::new();
    let mut i: usize = 0;
    while i < v.len()
        invariant
            i <= v@.len(),
            r@ == v@.subrange(0, i as int),
        decreases v@.len() - i,
    {
        r.push(v[i]);
        proof {
            assert(v@.subrange(0, i + 1 as int) =~= v@.subrange(0, i as int).push(v@[i as int]));
        }
        i += 1;
    }
    proof {
        assert(v@.subrange(0, v@.len() as int) =~= v@);
    }
    r
}

} // verus!
