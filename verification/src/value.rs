//! Nested values: a single word, or an array whose items are values again (a vector of words, a matrix of rows).

use vstd::prelude::*;

use crate::inspect::matrix_view;

verus! {

/// A value flowing through the graph: a single word, or a (possibly nested) array. A 1-D vector is `Array` of
/// `Scalar`s; a 2-D matrix is `Array` of `Array`s.
pub enum Value {
    Scalar(u64),
    Array(Vec<Value>),
}

/// The word a value holds, if it is a scalar.
pub open spec fn scalar_of(v: Value) -> Option<u64> {
    match v {
        Value::Scalar(s) => Some(s),
        Value::Array(_) => None,
    }
}

/// The words of a value that is an array of scalars.
pub open spec fn row_of(v: Value) -> Option<Seq<u64>> {
    match v {
        Value::Array(items) => if forall|i: int| 0 <= i < items@.len() ==> #[trigger] items@[i] is Scalar {
            Some(Seq::new(items@.len(), |i: int| items@[i]->Scalar_0))
        } else {
            None
        },
        Value::Scalar(_) => None,
    }
}

/// The rows of a value that is an array of arrays of scalars.
pub open spec fn matrix_of(v: Value) -> Option<Seq<Seq<u64>>> {
    match v {
        Value::Array(rows) => if forall|i: int| 0 <= i < rows@.len() ==> #[trigger] row_of(rows@[i]) is Some {
            Some(Seq::new(rows@.len(), |i: int| row_of(rows@[i])->0))
        } else {
            None
        },
        Value::Scalar(_) => None,
    }
}

/// The model of an optional vector of words.
pub open spec fn words_view(r: Option<Vec<u64>>) -> Option<Seq<u64>> {
    match r {
        Some(v) => Some(v@),
        None => None,
    }
}

/// The model of an optional matrix of words.
pub open spec fn rows_view(r: Option<Vec<Vec<u64>>>) -> Option<Seq<Seq<u64>>> {
    match r {
        Some(m) => Some(matrix_view(m)),
        None => None,
    }
}

/// The word of a scalar value; `None` for an array.
pub fn as_scalar(v: &Value) -> (r: Option<u64>)
    ensures
        r == scalar_of(*v),
{
    match v {
        Value::Scalar(s) => Some(*s),
        Value::Array(_) => None,
    }
}

/// The words of a 1-D array; `None` for a scalar, or for an array with an item that is not a scalar.
pub fn as_row(v: &Value) -> (r: Option<Vec<u64>>)
    ensures
        words_view(r) == row_of(*v),
{
    match v {
        Value::Array(items) => {
            let mut out: Vec<u64> = Vec::new();
            let mut i: usize = 0;
            while i < items.len()
                invariant
                    *v == Value::Array(*items),
                    i <= items@.len(),
                    out@.len() == i,
                    forall|j: int| 0 <= j < i ==> #[trigger] items@[j] is Scalar && out@[j] == items@[j]->Scalar_0,
                decreases items.len() - i,
            {
                match as_scalar(&items[i]) {
                    Some(s) => out.push(s),
                    None => {
                        assert(!(items@[i as int] is Scalar));
                        return None;
                    },
                }
                i += 1;
            }
            proof {
                assert(out@ =~= Seq::new(items@.len(), |k: int| items@[k]->Scalar_0));
            }
            Some(out)
        },
        Value::Scalar(_) => None,
    }
}

/// The rows of a 2-D array; `None` for a scalar, or for an array with an item that is not a 1-D array of scalars.
pub fn as_matrix(v: &Value) -> (r: Option<Vec<Vec<u64>>>)
    ensures
        rows_view(r) == matrix_of(*v),
{
    match v {
        Value::Array(rows) => {
            let mut out: Vec<Vec<u64>> = Vec::new();
            let mut i: usize = 0;
            while i < rows.len()
                invariant
                    *v == Value::Array(*rows),
                    i <= rows@.len(),
                    out@.len() == i,
                    forall|j: int| 0 <= j < i ==> #[trigger] row_of(rows@[j]) == Some(out@[j]@),
                decreases rows.len() - i,
            {
                match as_row(&rows[i]) {
                    Some(row) => out.push(row),
                    None => {
                        assert(!(row_of(rows@[i as int]) is Some));
                        return None;
                    },
                }
                i += 1;
            }
            proof {
                assert forall|j: int| 0 <= j < rows@.len() implies #[trigger] row_of(rows@[j]) is Some by {
                    assert(row_of(rows@[j]) == Some(out@[j]@));
                }
                assert(matrix_view(out) =~= Seq::new(rows@.len(), |k: int| row_of(rows@[k])->0));
            }
            Some(out)
        },
        Value::Scalar(_) => None,
    }
}

} // verus!
