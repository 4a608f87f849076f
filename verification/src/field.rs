//! Homogeneous column storage: a tagged union with one variant per
//! supported physical type, and the uniform per-column operations
//! (length, slice, truncate, extend, filter, exact-bit comparison).

use vstd::prelude::*;

use crate::bitset::{bit_set_of, bitset_test};
use crate::seqs::{kept_indices, select};
use crate::value::{bytes_lt, value_lt, Cmp, Value};
use crate::CellsError;

verus! {

/// A homogeneous column of cell values, one variant per supported
/// physical type.
///
/// The `Float32Bits`/`Float64Bits` variants carry 32/64-bit float
/// columns as their IEEE-754 bit patterns, so that all comparison is
/// exact-bit comparison; `Bytes` carries a variable-length byte type.
pub enum FieldData {
    UInt8(Vec<u8>),
    UInt16(Vec<u16>),
    UInt32(Vec<u32>),
    UInt64(Vec<u64>),
    Int8(Vec<i8>),
    Int16(Vec<i16>),
    Int32(Vec<i32>),
    Int64(Vec<i64>),
    Float32Bits(Vec<u32>),
    Float64Bits(Vec<u64>),
    Bytes(Vec<Vec<u8>>),
}

impl FieldData {
    /// The mathematical content of the column: its entries as values.
    pub open spec fn values(&self) -> Seq<Value> {
        match self {
            FieldData::UInt8(v) => v@.map_values(|x: u8| Value::U8(x)),
            FieldData::UInt16(v) => v@.map_values(|x: u16| Value::U16(x)),
            FieldData::UInt32(v) => v@.map_values(|x: u32| Value::U32(x)),
            FieldData::UInt64(v) => v@.map_values(|x: u64| Value::U64(x)),
            FieldData::Int8(v) => v@.map_values(|x: i8| Value::I8(x)),
            FieldData::Int16(v) => v@.map_values(|x: i16| Value::I16(x)),
            FieldData::Int32(v) => v@.map_values(|x: i32| Value::I32(x)),
            FieldData::Int64(v) => v@.map_values(|x: i64| Value::I64(x)),
            FieldData::Float32Bits(v) => v@.map_values(|x: u32| Value::F32Bits(x)),
            FieldData::Float64Bits(v) => v@.map_values(|x: u64| Value::F64Bits(x)),
            FieldData::Bytes(v) => v@.map_values(|x: Vec<u8>| Value::Bytes(x@)),
        }
    }

    /// Rank of the column's physical type; two columns have the same
    /// physical type exactly when their ranks coincide.
    pub open spec fn type_rank(&self) -> int {
        match self {
            FieldData::UInt8(_) => 0,
            FieldData::UInt16(_) => 1,
            FieldData::UInt32(_) => 2,
            FieldData::UInt64(_) => 3,
            FieldData::Int8(_) => 4,
            FieldData::Int16(_) => 5,
            FieldData::Int32(_) => 6,
            FieldData::Int64(_) => 7,
            FieldData::Float32Bits(_) => 8,
            FieldData::Float64Bits(_) => 9,
            FieldData::Bytes(_) => 10,
        }
    }

    /// The number of cells in this column.
    pub fn len(&self) -> (r: usize)
        ensures
            r == self.values().len(),
    {
        match self {
            FieldData::UInt8(v) => v.len(),
            FieldData::UInt16(v) => v.len(),
            FieldData::UInt32(v) => v.len(),
            FieldData::UInt64(v) => v.len(),
            FieldData::Int8(v) => v.len(),
            FieldData::Int16(v) => v.len(),
            FieldData::Int32(v) => v.len(),
            FieldData::Int64(v) => v.len(),
            FieldData::Float32Bits(v) => v.len(),
            FieldData::Float64Bits(v) => v.len(),
            FieldData::Bytes(v) => v.len(),
        }
    }

    /// Whether this column holds no cells.
    pub fn is_empty(&self) -> (r: bool)
        ensures
            r == (self.values().len() == 0),
    {
        self.len() == 0
    }

    /// The rank of the column's physical type, as a runtime value.
    pub fn rank(&self) -> (r: u8)
        ensures
            r as int == self.type_rank(),
    {
        match self {
            FieldData::UInt8(_) => 0,
            FieldData::UInt16(_) => 1,
            FieldData::UInt32(_) => 2,
            FieldData::UInt64(_) => 3,
            FieldData::Int8(_) => 4,
            FieldData::Int16(_) => 5,
            FieldData::Int32(_) => 6,
            FieldData::Int64(_) => 7,
            FieldData::Float32Bits(_) => 8,
            FieldData::Float64Bits(_) => 9,
            FieldData::Bytes(_) => 10,
        }
    }

    /// Whether `self` and `other` are columns of the same physical type.
    pub fn same_type(&self, other: &Self) -> (r: bool)
        ensures
            r == (self.type_rank() == other.type_rank()),
    {
        self.rank() == other.rank()
    }

    /// A deep, non-aliased copy of the column.
    pub fn deep_clone(&self) -> (r: Self)
        ensures
            r.values() == self.values(),
            r.type_rank() == self.type_rank(),
    {
        let r = match self {
            FieldData::UInt8(v) => FieldData::UInt8(vec_copy(v)),
            FieldData::UInt16(v) => FieldData::UInt16(vec_copy(v)),
            FieldData::UInt32(v) => FieldData::UInt32(vec_copy(v)),
            FieldData::UInt64(v) => FieldData::UInt64(vec_copy(v)),
            FieldData::Int8(v) => FieldData::Int8(vec_copy(v)),
            FieldData::Int16(v) => FieldData::Int16(vec_copy(v)),
            FieldData::Int32(v) => FieldData::Int32(vec_copy(v)),
            FieldData::Int64(v) => FieldData::Int64(vec_copy(v)),
            FieldData::Float32Bits(v) => FieldData::Float32Bits(vec_copy(v)),
            FieldData::Float64Bits(v) => FieldData::Float64Bits(vec_copy(v)),
            FieldData::Bytes(v) => FieldData::Bytes(byte_rows_copy(v)),
        };
        proof {
            assert(r.values() =~= self.values());
        }
        r
    }

    /// Drops the cells at or beyond `length`; a no-op if the column is
    /// already at most `length` long.
    pub fn truncate(&mut self, length: usize)
        ensures
            final(self).values() == if length <= old(self).values().len() {
                old(self).values().subrange(0, length as int)
            } else {
                old(self).values()
            },
            final(self).type_rank() == old(self).type_rank(),
    {
        let n = self.len();
        let m = if length < n {
            length
        } else {
            n
        };
        let t = self.slice(0, m);
        proof {
            if length > n {
                assert(old(self).values().subrange(0, n as int) =~= old(self).values());
            }
        }
        *self = t;
    }

    /// Appends `other`'s cells after this column's cells; fails with a
    /// type mismatch if `other` is a different physical-type variant,
    /// leaving this column unchanged.
    pub fn extend(&mut self, other: &Self) -> (r: Result<(), CellsError>)
        ensures
            final(self).type_rank() == old(self).type_rank(),
            old(self).type_rank() == other.type_rank() ==> r == Ok::<(), CellsError>(())
                && final(self).values() == old(self).values() + other.values(),
            old(self).type_rank() != other.type_rank() ==> r == Err::<(), CellsError>(
                CellsError::TypeMismatch,
            ) && final(self).values() == old(self).values(),
    {
        if !self.same_type(other) {
            return Err(CellsError::TypeMismatch);
        }
        let r = match (&*self, other) {
            (FieldData::UInt8(v), FieldData::UInt8(w)) => {
                let mut nv = vec_copy(v);
                vec_append_from(&mut nv, w);
                let out = FieldData::UInt8(nv);
                proof {
                    assert(out.values() =~= self.values() + other.values());
                }
                out
            },
            (FieldData::UInt16(v), FieldData::UInt16(w)) => {
                let mut nv = vec_copy(v);
                vec_append_from(&mut nv, w);
                let out = FieldData::UInt16(nv);
                proof {
                    assert(out.values() =~= self.values() + other.values());
                }
                out
            },
            (FieldData::UInt32(v), FieldData::UInt32(w)) => {
                let mut nv = vec_copy(v);
                vec_append_from(&mut nv, w);
                let out = FieldData::UInt32(nv);
                proof {
                    assert(out.values() =~= self.values() + other.values());
                }
                out
            },
            (FieldData::UInt64(v), FieldData::UInt64(w)) => {
                let mut nv = vec_copy(v);
                vec_append_from(&mut nv, w);
                let out = FieldData::UInt64(nv);
                proof {
                    assert(out.values() =~= self.values() + other.values());
                }
                out
            },
            (FieldData::Int8(v), FieldData::Int8(w)) => {
                let mut nv = vec_copy(v);
                vec_append_from(&mut nv, w);
                let out = FieldData::Int8(nv);
                proof {
                    assert(out.values() =~= self.values() + other.values());
                }
                out
            },
            (FieldData::Int16(v), FieldData::Int16(w)) => {
                let mut nv = vec_copy(v);
                vec_append_from(&mut nv, w);
                let out = FieldData::Int16(nv);
                proof {
                    assert(out.values() =~= self.values() + other.values());
                }
                out
            },
            (FieldData::Int32(v), FieldData::Int32(w)) => {
                let mut nv = vec_copy(v);
                vec_append_from(&mut nv, w);
                let out = FieldData::Int32(nv);
                proof {
                    assert(out.values() =~= self.values() + other.values());
                }
                out
            },
            (FieldData::Int64(v), FieldData::Int64(w)) => {
                let mut nv = vec_copy(v);
                vec_append_from(&mut nv, w);
                let out = FieldData::Int64(nv);
                proof {
                    assert(out.values() =~= self.values() + other.values());
                }
                out
            },
            (FieldData::Float32Bits(v), FieldData::Float32Bits(w)) => {
                let mut nv = vec_copy(v);
                vec_append_from(&mut nv, w);
                let out = FieldData::Float32Bits(nv);
                proof {
                    assert(out.values() =~= self.values() + other.values());
                }
                out
            },
            (FieldData::Float64Bits(v), FieldData::Float64Bits(w)) => {
                let mut nv = vec_copy(v);
                vec_append_from(&mut nv, w);
                let out = FieldData::Float64Bits(nv);
                proof {
                    assert(out.values() =~= self.values() + other.values());
                }
                out
            },
            (FieldData::Bytes(v), FieldData::Bytes(w)) => {
                let mut nv = byte_rows_copy(v);
                byte_rows_append(&mut nv, w);
                let out = FieldData::Bytes(nv);
                proof {
                    assert(out.values() =~= self.values() + other.values());
                }
                out
            },
            _ => {
                // unreachable: the variants were checked equal above
                proof {
                    assert(false);
                }
                FieldData::UInt8(Vec::new())
            },
        };
        *self = r;
        Ok(())
    }

    /// A new owned column keeping only the rows whose bit is set, in
    /// original relative order.
    pub fn filter(&self, set: &proptest::bits::VarBitSet) -> (r: Self)
        ensures
            r.values() == select(
                self.values(),
                kept_indices(bit_set_of(*set), self.values().len() as int),
            ),
            r.type_rank() == self.type_rank(),
    {
        let r = match self {
            FieldData::UInt8(v) => FieldData::UInt8(vec_filter(v, set)),
            FieldData::UInt16(v) => FieldData::UInt16(vec_filter(v, set)),
            FieldData::UInt32(v) => FieldData::UInt32(vec_filter(v, set)),
            FieldData::UInt64(v) => FieldData::UInt64(vec_filter(v, set)),
            FieldData::Int8(v) => FieldData::Int8(vec_filter(v, set)),
            FieldData::Int16(v) => FieldData::Int16(vec_filter(v, set)),
            FieldData::Int32(v) => FieldData::Int32(vec_filter(v, set)),
            FieldData::Int64(v) => FieldData::Int64(vec_filter(v, set)),
            FieldData::Float32Bits(v) => FieldData::Float32Bits(vec_filter(v, set)),
            FieldData::Float64Bits(v) => FieldData::Float64Bits(vec_filter(v, set)),
            FieldData::Bytes(v) => FieldData::Bytes(byte_rows_filter(v, set)),
        };
        proof {
            crate::seqs::lemma_kept_indices_range(bit_set_of(*set), self.values().len() as int);
            assert(r.values() =~= select(
                self.values(),
                kept_indices(bit_set_of(*set), self.values().len() as int),
            ));
        }
        r
    }

    /// A new owned column whose row `t` is this column's row `idx[t]`.
    pub fn permuted(&self, idx: &Vec<usize>) -> (r: Self)
        requires
            forall|t: int| 0 <= t < idx@.len() ==> #[trigger] idx@[t] < self.values().len(),
        ensures
            r.values().len() == idx@.len(),
            forall|t: int|
                0 <= t < idx@.len() ==> #[trigger] r.values()[t] == self.values()[idx@[t] as int],
            r.type_rank() == self.type_rank(),
    {
        let r = match self {
            FieldData::UInt8(v) => FieldData::UInt8(vec_permute(v, idx)),
            FieldData::UInt16(v) => FieldData::UInt16(vec_permute(v, idx)),
            FieldData::UInt32(v) => FieldData::UInt32(vec_permute(v, idx)),
            FieldData::UInt64(v) => FieldData::UInt64(vec_permute(v, idx)),
            FieldData::Int8(v) => FieldData::Int8(vec_permute(v, idx)),
            FieldData::Int16(v) => FieldData::Int16(vec_permute(v, idx)),
            FieldData::Int32(v) => FieldData::Int32(vec_permute(v, idx)),
            FieldData::Int64(v) => FieldData::Int64(vec_permute(v, idx)),
            FieldData::Float32Bits(v) => FieldData::Float32Bits(vec_permute(v, idx)),
            FieldData::Float64Bits(v) => FieldData::Float64Bits(vec_permute(v, idx)),
            FieldData::Bytes(v) => FieldData::Bytes(byte_rows_permute(v, idx)),
        };
        r
    }

    /// Overwrites the first `src.len()` rows of this column with `src`'s
    /// rows, leaving the remaining rows untouched.
    pub fn overwrite_prefix(&mut self, src: &Self)
        requires
            old(self).type_rank() == src.type_rank(),
            src.values().len() <= old(self).values().len(),
        ensures
            final(self).values() == src.values() + old(self).values().subrange(
                src.values().len() as int,
                old(self).values().len() as int,
            ),
            final(self).type_rank() == old(self).type_rank(),
    {
        let m = src.len();
        let n = self.len();
        let tail = self.slice(m, n - m);
        let mut head = src.deep_clone();
        let r = head.extend(&tail);
        proof {
            assert(head.values() =~= src.values() + old(self).values().subrange(
                m as int,
                n as int,
            ));
        }
        *self = head;
    }

    /// Compares the cells at rows `i` and `j` of this column, by the
    /// exact-bit value order.
    pub fn cmp_rows(&self, i: usize, j: usize) -> (c: Cmp)
        requires
            i < self.values().len(),
            j < self.values().len(),
        ensures
            (c == Cmp::Less) == value_lt(self.values()[i as int], self.values()[j as int]),
            (c == Cmp::Equal) == (self.values()[i as int] == self.values()[j as int]),
            (c == Cmp::Greater) == value_lt(self.values()[j as int], self.values()[i as int]),
    {
        match self {
            FieldData::UInt8(v) => {
                let (x, y) = (v[i], v[j]);
                if x < y {
                    Cmp::Less
                } else if x == y {
                    Cmp::Equal
                } else {
                    Cmp::Greater
                }
            },
            FieldData::UInt16(v) => {
                let (x, y) = (v[i], v[j]);
                if x < y {
                    Cmp::Less
                } else if x == y {
                    Cmp::Equal
                } else {
                    Cmp::Greater
                }
            },
            FieldData::UInt32(v) => {
                let (x, y) = (v[i], v[j]);
                if x < y {
                    Cmp::Less
                } else if x == y {
                    Cmp::Equal
                } else {
                    Cmp::Greater
                }
            },
            FieldData::UInt64(v) => {
                let (x, y) = (v[i], v[j]);
                if x < y {
                    Cmp::Less
                } else if x == y {
                    Cmp::Equal
                } else {
                    Cmp::Greater
                }
            },
            FieldData::Int8(v) => {
                let (x, y) = (v[i], v[j]);
                if x < y {
                    Cmp::Less
                } else if x == y {
                    Cmp::Equal
                } else {
                    Cmp::Greater
                }
            },
            FieldData::Int16(v) => {
                let (x, y) = (v[i], v[j]);
                if x < y {
                    Cmp::Less
                } else if x == y {
                    Cmp::Equal
                } else {
                    Cmp::Greater
                }
            },
            FieldData::Int32(v) => {
                let (x, y) = (v[i], v[j]);
                if x < y {
                    Cmp::Less
                } else if x == y {
                    Cmp::Equal
                } else {
                    Cmp::Greater
                }
            },
            FieldData::Int64(v) => {
                let (x, y) = (v[i], v[j]);
                if x < y {
                    Cmp::Less
                } else if x == y {
                    Cmp::Equal
                } else {
                    Cmp::Greater
                }
            },
            FieldData::Float32Bits(v) => {
                let (x, y) = (v[i], v[j]);
                if x < y {
                    Cmp::Less
                } else if x == y {
                    Cmp::Equal
                } else {
                    Cmp::Greater
                }
            },
            FieldData::Float64Bits(v) => {
                let (x, y) = (v[i], v[j]);
                if x < y {
                    Cmp::Less
                } else if x == y {
                    Cmp::Equal
                } else {
                    Cmp::Greater
                }
            },
            FieldData::Bytes(v) => bytes_cmp(&v[i], &v[j]),
        }
    }

    /// Whether the cell at row `i` of this column and the cell at row
    /// `j` of `other` are exactly bit-equal. Cells of different
    /// physical types are never bit-equal.
    pub fn values_eq_at(&self, i: usize, other: &Self, j: usize) -> (r: bool)
        requires
            i < self.values().len(),
            j < other.values().len(),
        ensures
            r == (self.values()[i as int] == other.values()[j as int]),
    {
        match (self, other) {
            (FieldData::UInt8(v), FieldData::UInt8(w)) => v[i] == w[j],
            (FieldData::UInt16(v), FieldData::UInt16(w)) => v[i] == w[j],
            (FieldData::UInt32(v), FieldData::UInt32(w)) => v[i] == w[j],
            (FieldData::UInt64(v), FieldData::UInt64(w)) => v[i] == w[j],
            (FieldData::Int8(v), FieldData::Int8(w)) => v[i] == w[j],
            (FieldData::Int16(v), FieldData::Int16(w)) => v[i] == w[j],
            (FieldData::Int32(v), FieldData::Int32(w)) => v[i] == w[j],
            (FieldData::Int64(v), FieldData::Int64(w)) => v[i] == w[j],
            (FieldData::Float32Bits(v), FieldData::Float32Bits(w)) => v[i] == w[j],
            (FieldData::Float64Bits(v), FieldData::Float64Bits(w)) => v[i] == w[j],
            (FieldData::Bytes(v), FieldData::Bytes(w)) => {
                let c = bytes_cmp(&v[i], &w[j]);
                match c {
                    Cmp::Equal => true,
                    _ => false,
                }
            },
            _ => false,
        }
    }

    /// A new owned column holding rows `[start, start + length)`.
    pub fn slice(&self, start: usize, length: usize) -> (r: Self)
        requires
            start + length <= self.values().len(),
        ensures
            r.values() == self.values().subrange(start as int, start as int + length as int),
            r.type_rank() == self.type_rank(),
    {
        let r = match self {
            FieldData::UInt8(v) => FieldData::UInt8(vec_slice_copy(v, start, length)),
            FieldData::UInt16(v) => FieldData::UInt16(vec_slice_copy(v, start, length)),
            FieldData::UInt32(v) => FieldData::UInt32(vec_slice_copy(v, start, length)),
            FieldData::UInt64(v) => FieldData::UInt64(vec_slice_copy(v, start, length)),
            FieldData::Int8(v) => FieldData::Int8(vec_slice_copy(v, start, length)),
            FieldData::Int16(v) => FieldData::Int16(vec_slice_copy(v, start, length)),
            FieldData::Int32(v) => FieldData::Int32(vec_slice_copy(v, start, length)),
            FieldData::Int64(v) => FieldData::Int64(vec_slice_copy(v, start, length)),
            FieldData::Float32Bits(v) => FieldData::Float32Bits(vec_slice_copy(v, start, length)),
            FieldData::Float64Bits(v) => FieldData::Float64Bits(vec_slice_copy(v, start, length)),
            FieldData::Bytes(v) => FieldData::Bytes(byte_rows_slice(v, start, length)),
        };
        proof {
            assert(r.values() =~= self.values().subrange(
                start as int,
                start as int + length as int,
            ));
        }
        r
    }
}

/// A copy of a vector of plain values.
fn vec_copy<T: Copy>(v: &Vec<T>) -> (r: Vec<T>)
    ensures
        r@ == v@,
{
    let mut r: Vec<T> = Vec::new();
    let mut i: usize = 0;
    while i < v.len()
        invariant
            i <= v.len(),
            r@ == v@.subrange(0, i as int),
        decreases v.len() - i,
    {
        r.push(v[i]);
        proof {
            assert(v@.subrange(0, i + 1 as int) =~= v@.subrange(0, i as int).push(v@[i as int]));
        }
        i += 1;
    }
    proof {
        assert(v@.subrange(0, v@.len() as int) =~= v@);
    }
    r
}

/// A copy of the entries `[start, start + length)` of a vector of
/// plain values.
fn vec_slice_copy<T: Copy>(v: &Vec<T>, start: usize, length: usize) -> (r: Vec<T>)
    requires
        start + length <= v@.len(),
    ensures
        r@ == v@.subrange(start as int, start as int + length as int),
{
    let mut r: Vec<T> = Vec::new();
    let mut i: usize = 0;
    let n = v.len();
    while i < length
        invariant
            i <= length,
            start + length <= n == v@.len(),
            r@ == v@.subrange(start as int, start as int + i as int),
        decreases length - i,
    {
        r.push(v[start + i]);
        proof {
            assert(v@.subrange(start as int, start as int + i + 1) =~= v@.subrange(
                start as int,
                start as int + i,
            ).push(v@[start as int + i]));
        }
        i += 1;
    }
    r
}

/// A deep copy of a byte-string row vector.
fn byte_rows_copy(v: &Vec<Vec<u8>>) -> (r: Vec<Vec<u8>>)
    ensures
        r@.len() == v@.len(),
        forall|i: int| 0 <= i < v@.len() ==> #[trigger] r@[i]@ == v@[i]@,
{
    let mut r: Vec<Vec<u8>> = Vec::new();
    let mut i: usize = 0;
    while i < v.len()
        invariant
            i <= v.len(),
            r@.len() == i,
            forall|k: int| 0 <= k < i ==> #[trigger] r@[k]@ == v@[k]@,
        decreases v.len() - i,
    {
        r.push(vec_copy(&v[i]));
        i += 1;
    }
    r
}

/// A deep copy of the byte-string rows `[start, start + length)`.
fn byte_rows_slice(v: &Vec<Vec<u8>>, start: usize, length: usize) -> (r: Vec<Vec<u8>>)
    requires
        start + length <= v@.len(),
    ensures
        r@.len() == length,
        forall|i: int| 0 <= i < length ==> #[trigger] r@[i]@ == v@[start + i]@,
{
    let mut r: Vec<Vec<u8>> = Vec::new();
    let mut i: usize = 0;
    let n = v.len();
    while i < length
        invariant
            i <= length,
            start + length <= n == v@.len(),
            r@.len() == i,
            forall|k: int| 0 <= k < i ==> #[trigger] r@[k]@ == v@[start + k]@,
        decreases length - i,
    {
        r.push(vec_copy(&v[start + i]));
        i += 1;
    }
    r
}

/// Appends a copy of `src`'s entries to `dst`.
fn vec_append_from<T: Copy>(dst: &mut Vec<T>, src: &Vec<T>)
    ensures
        final(dst)@ == old(dst)@ + src@,
{
    let mut i: usize = 0;
    while i < src.len()
        invariant
            i <= src.len(),
            dst@ == old(dst)@ + src@.subrange(0, i as int),
        decreases src.len() - i,
    {
        dst.push(src[i]);
        proof {
            assert(old(dst)@ + src@.subrange(0, i + 1 as int) =~= (old(dst)@ + src@.subrange(
                0,
                i as int,
            )).push(src@[i as int]));
        }
        i += 1;
    }
    proof {
        assert(src@.subrange(0, src@.len() as int) =~= src@);
    }
}

/// Appends a deep copy of `src`'s byte-string entries to `dst`.
fn byte_rows_append(dst: &mut Vec<Vec<u8>>, src: &Vec<Vec<u8>>)
    ensures
        final(dst)@.len() == old(dst)@.len() + src@.len(),
        forall|t: int| 0 <= t < old(dst)@.len() ==> #[trigger] final(dst)@[t] == old(dst)@[t],
        forall|t: int|
            old(dst)@.len() <= t < final(dst)@.len() ==> #[trigger] final(dst)@[t]@ == src@[t
                - old(dst)@.len()]@,
{
    let mut i: usize = 0;
    while i < src.len()
        invariant
            i <= src.len(),
            dst@.len() == old(dst)@.len() + i,
            forall|t: int| 0 <= t < old(dst)@.len() ==> #[trigger] dst@[t] == old(dst)@[t],
            forall|t: int|
                old(dst)@.len() <= t < dst@.len() ==> #[trigger] dst@[t]@ == src@[t - old(
                    dst,
                )@.len()]@,
        decreases src.len() - i,
    {
        dst.push(vec_copy(&src[i]));
        i += 1;
    }
}

/// The entries of `v` whose index has its bit set, in original order.
fn vec_filter<T: Copy>(v: &Vec<T>, set: &proptest::bits::VarBitSet) -> (r: Vec<T>)
    ensures
        r@ == select(v@, kept_indices(bit_set_of(*set), v@.len() as int)),
{
    let mut r: Vec<T> = Vec::new();
    let mut i: usize = 0;
    while i < v.len()
        invariant
            i <= v.len(),
            r@ == select(v@, kept_indices(bit_set_of(*set), i as int)),
        decreases v.len() - i,
    {
        proof {
            crate::seqs::lemma_kept_indices_range(bit_set_of(*set), i as int);
        }
        if bitset_test(set, i) {
            r.push(v[i]);
            proof {
                assert(select(v@, kept_indices(bit_set_of(*set), i + 1 as int)) =~= select(
                    v@,
                    kept_indices(bit_set_of(*set), i as int),
                ).push(v@[i as int]));
            }
        } else {
            proof {
                assert(select(v@, kept_indices(bit_set_of(*set), i + 1 as int)) =~= select(
                    v@,
                    kept_indices(bit_set_of(*set), i as int),
                ));
            }
        }
        i += 1;
    }
    r
}

/// The byte-string entries of `v` whose index has its bit set.
fn byte_rows_filter(v: &Vec<Vec<u8>>, set: &proptest::bits::VarBitSet) -> (r: Vec<Vec<u8>>)
    ensures
        r@.len() == kept_indices(bit_set_of(*set), v@.len() as int).len(),
        forall|t: int|
            0 <= t < r@.len() ==> #[trigger] r@[t]@ == v@[kept_indices(
                bit_set_of(*set),
                v@.len() as int,
            )[t]]@,
{
    let ghost ks = bit_set_of(*set);
    let mut r: Vec<Vec<u8>> = Vec::new();
    let mut i: usize = 0;
    while i < v.len()
        invariant
            i <= v.len(),
            ks == bit_set_of(*set),
            r@.len() == kept_indices(ks, i as int).len(),
            forall|t: int|
                0 <= t < r@.len() ==> #[trigger] r@[t]@ == v@[kept_indices(ks, i as int)[t]]@,
        decreases v.len() - i,
    {
        proof {
            crate::seqs::lemma_kept_indices_range(ks, i as int);
            crate::seqs::lemma_kept_indices_range(ks, i + 1 as int);
        }
        if bitset_test(set, i) {
            r.push(vec_copy(&v[i]));
        }
        proof {
            assert forall|t: int| 0 <= t < r@.len() implies #[trigger] r@[t]@ == v@[kept_indices(
                ks,
                i + 1 as int,
            )[t]]@ by {
                if t < kept_indices(ks, i as int).len() {
                    assert(kept_indices(ks, i + 1 as int)[t] == kept_indices(ks, i as int)[t]);
                }
            }
        }
        i += 1;
    }
    proof {
        crate::seqs::lemma_kept_indices_range(ks, v@.len() as int);
    }
    r
}

/// The entries of `v` at the positions listed in `idx`, in that order.
fn vec_permute<T: Copy>(v: &Vec<T>, idx: &Vec<usize>) -> (r: Vec<T>)
    requires
        forall|t: int| 0 <= t < idx@.len() ==> #[trigger] idx@[t] < v@.len(),
    ensures
        r@.len() == idx@.len(),
        forall|t: int| 0 <= t < idx@.len() ==> #[trigger] r@[t] == v@[idx@[t] as int],
{
    let mut r: Vec<T> = Vec::new();
    let mut i: usize = 0;
    while i < idx.len()
        invariant
            i <= idx.len(),
            forall|t: int| 0 <= t < idx@.len() ==> #[trigger] idx@[t] < v@.len(),
            r@.len() == i,
            forall|t: int| 0 <= t < i ==> #[trigger] r@[t] == v@[idx@[t] as int],
        decreases idx.len() - i,
    {
        r.push(v[idx[i]]);
        i += 1;
    }
    r
}

/// The byte-string entries of `v` at the positions listed in `idx`.
fn byte_rows_permute(v: &Vec<Vec<u8>>, idx: &Vec<usize>) -> (r: Vec<Vec<u8>>)
    requires
        forall|t: int| 0 <= t < idx@.len() ==> #[trigger] idx@[t] < v@.len(),
    ensures
        r@.len() == idx@.len(),
        forall|t: int| 0 <= t < idx@.len() ==> #[trigger] r@[t]@ == v@[idx@[t] as int]@,
{
    let mut r: Vec<Vec<u8>> = Vec::new();
    let mut i: usize = 0;
    while i < idx.len()
        invariant
            i <= idx.len(),
            forall|t: int| 0 <= t < idx@.len() ==> #[trigger] idx@[t] < v@.len(),
            r@.len() == i,
            forall|t: int| 0 <= t < i ==> #[trigger] r@[t]@ == v@[idx@[t] as int]@,
        decreases idx.len() - i,
    {
        r.push(vec_copy(&v[idx[i]]));
        i += 1;
    }
    r
}

/// The lexicographic order restricted to equal prefixes: once the first
/// `k` bytes agree, the order is decided by the remainders.
proof fn lemma_bytes_lt_common_prefix(a: Seq<u8>, b: Seq<u8>, k: int)
    requires
        0 <= k <= a.len(),
        k <= b.len(),
        forall|m: int| 0 <= m < k ==> a[m] == b[m],
    ensures
        bytes_lt(a, b) == bytes_lt(a.skip(k), b.skip(k)),
    decreases k,
{
    if k == 0 {
        assert(a.skip(0) =~= a);
        assert(b.skip(0) =~= b);
    } else {
        assert(a.len() > 0 && b.len() > 0 && a[0] == b[0]);
        assert(a.drop_first().skip(k - 1) =~= a.skip(k));
        assert(b.drop_first().skip(k - 1) =~= b.skip(k));
        lemma_bytes_lt_common_prefix(a.drop_first(), b.drop_first(), k - 1);
    }
}

/// Compares two byte strings in the lexicographic order.
fn bytes_cmp(a: &Vec<u8>, b: &Vec<u8>) -> (c: Cmp)
    ensures
        (c == Cmp::Less) == bytes_lt(a@, b@),
        (c == Cmp::Equal) == (a@ == b@),
        (c == Cmp::Greater) == bytes_lt(b@, a@),
{
    let n = if a.len() < b.len() {
        a.len()
    } else {
        b.len()
    };
    let mut i: usize = 0;
    while i < n
        invariant
            i <= n,
            n == if a@.len() < b@.len() {
                a@.len()
            } else {
                b@.len()
            },
            forall|m: int| 0 <= m < i ==> a@[m] == b@[m],
        decreases n - i,
    {
        let (x, y) = (a[i], b[i]);
        if x < y {
            proof {
                lemma_bytes_lt_common_prefix(a@, b@, i as int);
                lemma_bytes_lt_common_prefix(b@, a@, i as int);
                assert(a@.skip(i as int)[0] == x && b@.skip(i as int)[0] == y);
                assert(a@[i as int] != b@[i as int]);
            }
            return Cmp::Less;
        } else if x > y {
            proof {
                lemma_bytes_lt_common_prefix(a@, b@, i as int);
                lemma_bytes_lt_common_prefix(b@, a@, i as int);
                assert(a@.skip(i as int)[0] == x && b@.skip(i as int)[0] == y);
                assert(a@[i as int] != b@[i as int]);
            }
            return Cmp::Greater;
        }
        i += 1;
    }
    proof {
        lemma_bytes_lt_common_prefix(a@, b@, n as int);
        lemma_bytes_lt_common_prefix(b@, a@, n as int);
    }
    if a.len() < b.len() {
        proof {
            assert(a@.skip(n as int).len() == 0 && b@.skip(n as int).len() > 0);
        }
        Cmp::Less
    } else if a.len() > b.len() {
        proof {
            assert(b@.skip(n as int).len() == 0 && a@.skip(n as int).len() > 0);
        }
        Cmp::Greater
    } else {
        proof {
            assert(a@ =~= b@);
        }
        Cmp::Equal
    }
}

} // verus!
