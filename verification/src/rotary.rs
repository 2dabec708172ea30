//! The tables of the rotary embedding.
use vstd::prelude::*;

verus! {

/// The even numbers below `dim`: the frequency of column `k` is the base to the power of minus
/// `2k / dim`.
pub fn frequency_indices(dim: usize) -> (r: Vec<usize>)
    ensures
        r@.len() == (dim + 1) / 2,
        forall|k: int| 0 <= k < r@.len() ==> #[trigger] r@[k] == 2 * k,
{
    let mut r: Vec<usize> = Vec::new();
    let mut i: usize = 0;
    while i < dim
        invariant
            i == 2 * r@.len(),
            i <= dim + 1,
            forall|k: int| 0 <= k < r@.len() ==> #[trigger] r@[k] == 2 * k,
        decreases dim - i,
    {
        r.push(i);
        if dim - i <= 2 {
            assert(r@.len() == (dim + 1) / 2);
            return r;
        }
        i = i + 2;
    }
    r
}

/// The shape of the tables for heads of width `dim`: a row for each position, a column for each
/// pair of dimensions.
pub open spec fn table_shape(positions: nat, dim: nat) -> Seq<nat> {
    seq![positions, ((dim + 1) / 2) as nat]
}

}
