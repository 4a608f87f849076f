//! The mathematical model of a single cell value, and the exact-bit
//! total order that every comparison in this crate is stated against.

use vstd::prelude::*;

verus! {

/// One cell value, as the mathematical content of a column entry.
///
/// Values of 32/64-bit float columns appear here as their IEEE-754 bit
/// patterns (`F32Bits`/`F64Bits`): the model compares representations
/// exactly, never numeric float semantics, so two values are equal
/// precisely when their bits coincide.
#[verifier::ext_equal]
pub enum Value {
    U8(u8),
    U16(u16),
    U32(u32),
    U64(u64),
    I8(i8),
    I16(i16),
    I32(i32),
    I64(i64),
    F32Bits(u32),
    F64Bits(u64),
    Bytes(Seq<u8>),
}

/// The outcome of comparing two values or two rows.
#[derive(Clone, Copy, Debug, PartialEq, Eq, Structural)]
pub enum Cmp {
    Less,
    Equal,
    Greater,
}

/// Rank of a value's physical type; values of different physical types
/// are ordered by rank so that the value order is total.
pub open spec fn tag_rank(v: Value) -> int {
    match v {
        Value::U8(_) => 0,
        Value::U16(_) => 1,
        Value::U32(_) => 2,
        Value::U64(_) => 3,
        Value::I8(_) => 4,
        Value::I16(_) => 5,
        Value::I32(_) => 6,
        Value::I64(_) => 7,
        Value::F32Bits(_) => 8,
        Value::F64Bits(_) => 9,
        Value::Bytes(_) => 10,
    }
}

/// Lexicographic strict order on byte strings.
pub open spec fn bytes_lt(a: Seq<u8>, b: Seq<u8>) -> bool
    decreases a.len(),
{
    if b.len() == 0 {
        false
    } else if a.len() == 0 {
        true
    } else if a[0] < b[0] {
        true
    } else if a[0] > b[0] {
        false
    } else {
        bytes_lt(a.drop_first(), b.drop_first())
    }
}

/// Strict total order on values: by type rank, then by the payload
/// (numerically for integer and bit-pattern payloads, lexicographically
/// for byte strings).
pub open spec fn value_lt(a: Value, b: Value) -> bool {
    match (a, b) {
        (Value::U8(x), Value::U8(y)) => x < y,
        (Value::U16(x), Value::U16(y)) => x < y,
        (Value::U32(x), Value::U32(y)) => x < y,
        (Value::U64(x), Value::U64(y)) => x < y,
        (Value::I8(x), Value::I8(y)) => x < y,
        (Value::I16(x), Value::I16(y)) => x < y,
        (Value::I32(x), Value::I32(y)) => x < y,
        (Value::I64(x), Value::I64(y)) => x < y,
        (Value::F32Bits(x), Value::F32Bits(y)) => x < y,
        (Value::F64Bits(x), Value::F64Bits(y)) => x < y,
        (Value::Bytes(x), Value::Bytes(y)) => bytes_lt(x, y),
        _ => tag_rank(a) < tag_rank(b),
    }
}

/// Non-strict companion of `value_lt`.
pub open spec fn value_le(a: Value, b: Value) -> bool {
    value_lt(a, b) || a == b
}

/// Exactly one of `bytes_lt(a, b)`, `a == b`, `bytes_lt(b, a)` holds.
pub proof fn lemma_bytes_lt_trichotomy(a: Seq<u8>, b: Seq<u8>)
    ensures
        bytes_lt(a, b) || a == b || bytes_lt(b, a),
        bytes_lt(a, b) ==> a != b,
        bytes_lt(a, b) ==> !bytes_lt(b, a),
    decreases a.len(),
{
    if a.len() == 0 && b.len() == 0 {
        assert(a =~= b);
    } else if a.len() > 0 && b.len() > 0 && a[0] == b[0] {
        lemma_bytes_lt_trichotomy(a.drop_first(), b.drop_first());
        if a.drop_first() == b.drop_first() {
            assert forall|i: int| 0 <= i < a.len() implies a[i] == b[i] by {
                if i > 0 {
                    assert(a[i] == a.drop_first()[i - 1]);
                    assert(b[i] == b.drop_first()[i - 1]);
                }
            }
            assert(a =~= b);
        }
        if a == b {
            assert(a.drop_first() =~= b.drop_first());
        }
    } else {
        if a == b && a.len() > 0 {
            assert(a[0] == b[0]);
        }
    }
}

/// Transitivity of the lexicographic order on byte strings.
pub proof fn lemma_bytes_lt_trans(a: Seq<u8>, b: Seq<u8>, c: Seq<u8>)
    requires
        bytes_lt(a, b),
        bytes_lt(b, c),
    ensures
        bytes_lt(a, c),
    decreases a.len(),
{
    if a.len() == 0 {
        assert(b.len() > 0 && c.len() > 0);
    } else {
        assert(b.len() > 0 && c.len() > 0);
        if a[0] == b[0] && b[0] == c[0] {
            lemma_bytes_lt_trans(a.drop_first(), b.drop_first(), c.drop_first());
        }
    }
}

/// Exactly one of `value_lt(a, b)`, `a == b`, `value_lt(b, a)` holds.
pub proof fn lemma_value_trichotomy(a: Value, b: Value)
    ensures
        value_lt(a, b) || a == b || value_lt(b, a),
        value_lt(a, b) ==> a != b,
        value_lt(a, b) ==> !value_lt(b, a),
{
    match (a, b) {
        (Value::Bytes(x), Value::Bytes(y)) => {
            lemma_bytes_lt_trichotomy(x, y);
        },
        _ => {},
    }
}

/// Transitivity of the strict order on values.
pub proof fn lemma_value_lt_trans(a: Value, b: Value, c: Value)
    requires
        value_lt(a, b),
        value_lt(b, c),
    ensures
        value_lt(a, c),
{
    match (a, b, c) {
        (Value::Bytes(x), Value::Bytes(y), Value::Bytes(z)) => {
            lemma_bytes_lt_trans(x, y, z);
        },
        _ => {},
    }
}

} // verus!
