//! The formulas that the layers have in common.
use crate::graph::{Dims, FloatSetting, Node, Pairwise, SameShape, Scalar, Slot};
use crate::ops::{
    apply, expand, leaf, mean_keep, pair, plus, reshape, same, sum_keep, unsqueeze,
};
use std::rc::Rc;
use vstd::prelude::*;

verus! {

/// One over the root of `x`.
#[verifier::allow_in_spec]
pub fn inverse_root(x: &Rc<Node>) -> Rc<Node>
    returns
        apply(SameShape::Recip, &apply(SameShape::Sqrt, x)),
{
    apply(SameShape::Recip, &apply(SameShape::Sqrt, x))
}

/// `x` scaled so that the last dimension has length one.
#[verifier::allow_in_spec]
pub fn l2_norm(x: &Rc<Node>) -> Rc<Node>
    returns
        pair(
            Pairwise::BroadcastMul,
            x,
            &inverse_root(&plus(&sum_keep(&apply(SameShape::Sqr, x)), Scalar::Millionth)),
        ),
{
    pair(
        Pairwise::BroadcastMul,
        x,
        &inverse_root(&plus(&sum_keep(&apply(SameShape::Sqr, x)), Scalar::Millionth)),
    )
}

/// `x` divided by the root of the mean square of its last dimension plus `eps`.
#[verifier::allow_in_spec]
pub fn mean_square_norm(x: &Rc<Node>, eps: FloatSetting) -> Rc<Node>
    returns
        pair(
            Pairwise::BroadcastMul,
            x,
            &inverse_root(&plus(&mean_keep(&apply(SameShape::Sqr, x)), Scalar::Epsilon(eps))),
        ),
{
    pair(
        Pairwise::BroadcastMul,
        x,
        &inverse_root(&plus(&mean_keep(&apply(SameShape::Sqr, x)), Scalar::Epsilon(eps))),
    )
}

/// Dimensions of a tensor that holds one vector for each head of each position.
#[derive(Debug, Clone, Copy, PartialEq, Eq, Structural)]
pub struct Heads {
    pub batch: usize,
    pub len: usize,
    pub heads: usize,
    pub width: usize,
}

/// Each of the heads of `x` repeated `n` times, one after the other.
#[verifier::allow_in_spec]
pub fn repeat_interleave(x: &Rc<Node>, n: usize, dims: Heads) -> Rc<Node>
    requires
        dims.heads * n <= usize::MAX,
    returns
        if n == 1 {
            *x
        } else {
            reshape(
                &expand(
                    &unsqueeze(x, 3),
                    Dims::Five(dims.batch, dims.len, dims.heads, n, dims.width),
                ),
                Dims::Four(dims.batch, dims.len, (dims.heads * n) as usize, dims.width),
            )
        },
{
    if n == 1 {
        same(x)
    } else {
        reshape(
            &expand(
                &unsqueeze(x, 3),
                Dims::Five(dims.batch, dims.len, dims.heads, n, dims.width),
            ),
            Dims::Four(dims.batch, dims.len, dims.heads * n, dims.width),
        )
    }
}

/// `log(1 + exp(a + dt_bias))`.
#[verifier::allow_in_spec]
pub fn softplus(a: &Rc<Node>) -> Rc<Node>
    returns
        apply(
            SameShape::Log,
            &plus(
                &apply(
                    SameShape::Exp,
                    &pair(
                        Pairwise::BroadcastAdd,
                        &apply(SameShape::Single, a),
                        &leaf(Slot::DtBias),
                    ),
                ),
                Scalar::One,
            ),
        ),
{
    apply(
        SameShape::Log,
        &plus(
            &apply(
                SameShape::Exp,
                &pair(
                    Pairwise::BroadcastAdd,
                    &apply(SameShape::Single, a),
                    &leaf(Slot::DtBias),
                ),
            ),
            Scalar::One,
        ),
    )
}

}
