//! The gated delta rule: a linear attention that keeps a matrix per head.
//!
//! A step decays the matrix, reads the key's value from it, writes back the difference to the
//! step's own value, and answers the query from the result.
use crate::blocks::l2_norm;
use crate::graph;
use crate::shapes;
use crate::graph::{Dims, Node, Pairwise, SameShape, Scalar, Scan, Slot};
use crate::ops::{
    apply, leaf, narrow_step, pair, scan, scan_items, scan_state, times, transpose, unsqueeze,
    zeros_single,
};
use std::rc::Rc;
use vstd::prelude::*;

verus! {

broadcast use {graph::group_shape, graph::group_closed};

/// The dimensions of the rule's inputs.
#[derive(Debug, Clone, Copy, PartialEq, Eq, Structural)]
pub struct DeltaDims {
    pub batch: usize,
    pub heads: usize,
    pub len: usize,
    pub key_width: usize,
    pub value_width: usize,
}

/// The inputs of the rule, position by position and head by head.
#[derive(Debug)]
pub struct DeltaInputs {
    pub query: Rc<Node>,
    pub key: Rc<Node>,
    pub value: Rc<Node>,
    /// The logarithm of the decay.
    pub decay: Rc<Node>,
    /// How much of a difference is written back.
    pub beta: Rc<Node>,
}

/// `x` of the current step.
#[verifier::allow_in_spec]
pub fn current(x: &Rc<Node>) -> Rc<Node>
    returns
        narrow_step(x, 2, 1),
{
    narrow_step(x, 2, 1)
}

/// `x` in single precision, heads before positions.
#[verifier::allow_in_spec]
pub fn by_head(x: &Rc<Node>) -> Rc<Node>
    returns
        apply(SameShape::Single, &transpose(x, 1, 2)),
{
    apply(SameShape::Single, &transpose(x, 1, 2))
}

/// The queries: of length one, divided by the root of their width.
#[verifier::allow_in_spec]
pub fn scaled_query(query: &Rc<Node>, width: usize) -> Rc<Node>
    returns
        apply(
            SameShape::Single,
            &times(&transpose(&l2_norm(query), 1, 2), Scalar::InvSqrt(width)),
        ),
{
    apply(
        SameShape::Single,
        &times(&transpose(&l2_norm(query), 1, 2), Scalar::InvSqrt(width)),
    )
}

/// The carried matrices after the decay of the step.
#[verifier::allow_in_spec]
pub fn decayed(inputs: &DeltaInputs) -> Rc<Node>
    returns
        pair(
            Pairwise::BroadcastMul,
            &leaf(Slot::Carry),
            &current(&unsqueeze(&apply(SameShape::Exp, &by_head(&inputs.decay)), 3)),
        ),
{
    pair(
        Pairwise::BroadcastMul,
        &leaf(Slot::Carry),
        &current(&unsqueeze(&apply(SameShape::Exp, &by_head(&inputs.decay)), 3)),
    )
}

/// The step's key, of length one.
#[verifier::allow_in_spec]
pub fn current_key(inputs: &DeltaInputs) -> Rc<Node>
    returns
        current(&by_head(&l2_norm(&inputs.key))),
{
    current(&by_head(&l2_norm(&inputs.key)))
}

/// What the step writes back for `key`: the difference between its value and what the matrices
/// `held` have for the key, weighted by `beta`.
#[verifier::allow_in_spec]
pub fn correction(inputs: &DeltaInputs, key: &Rc<Node>, held: &Rc<Node>) -> Rc<Node>
    returns
        pair(
            Pairwise::BroadcastMul,
            &pair(
                Pairwise::Sub,
                &current(&by_head(&inputs.value)),
                &pair(Pairwise::MatMul, key, held),
            ),
            &current(&unsqueeze(&by_head(&inputs.beta), 3)),
        ),
{
    pair(
        Pairwise::BroadcastMul,
        &pair(
            Pairwise::Sub,
            &current(&by_head(&inputs.value)),
            &pair(Pairwise::MatMul, key, held),
        ),
        &current(&unsqueeze(&by_head(&inputs.beta), 3)),
    )
}

/// The matrices after the step.
#[verifier::allow_in_spec]
pub fn updated(inputs: &DeltaInputs) -> Rc<Node>
    returns
        pair(
            Pairwise::Add,
            &decayed(inputs),
            &pair(
                Pairwise::MatMul,
                &transpose(&current_key(inputs), 2, 3),
                &correction(inputs, &current_key(inputs), &decayed(inputs)),
            ),
        ),
{
    let held = decayed(inputs);
    let key = current_key(inputs);
    let written = correction(inputs, &key, &held);
    pair(
        Pairwise::Add,
        &held,
        &pair(Pairwise::MatMul, &transpose(&key, 2, 3), &written),
    )
}

/// The matrices before the first step: those that were kept, or zeros.
#[verifier::allow_in_spec]
pub fn initial(dims: DeltaDims, kept: bool) -> Rc<Node>
    returns
        if kept {
            apply(SameShape::Single, &leaf(Slot::RecurrentState))
        } else {
            zeros_single(Dims::Four(dims.batch, dims.heads, dims.key_width, dims.value_width))
        },
{
    if kept {
        apply(SameShape::Single, &leaf(Slot::RecurrentState))
    } else {
        zeros_single(Dims::Four(dims.batch, dims.heads, dims.key_width, dims.value_width))
    }
}

/// The rule over all positions.
#[verifier::allow_in_spec]
pub fn torch_recurrent_gated_delta_rule(inputs: &DeltaInputs, dims: DeltaDims, kept: bool) -> Rc<
    Scan,
>
    returns
        scan(
            dims.len,
            &initial(dims, kept),
            &updated(inputs),
            &pair(
                Pairwise::MatMul,
                &current(&scaled_query(&inputs.query, dims.key_width)),
                &updated(inputs),
            ),
            2,
        ),
{
    let next = updated(inputs);
    let item = pair(
        Pairwise::MatMul,
        &current(&scaled_query(&inputs.query, dims.key_width)),
        &next,
    );
    scan(dims.len, &initial(dims, kept), &next, &item, 2)
}

/// The answers, positions before heads.
#[verifier::allow_in_spec]
pub fn answers(rule: &Rc<Scan>) -> Rc<Node>
    returns
        transpose(&scan_items(rule), 1, 2),
{
    transpose(&scan_items(rule), 1, 2)
}

impl DeltaInputs {
    /// The inputs have the shapes that `dims` gives, and do not depend on a scan around them.
    pub open spec fn fit(&self, dims: DeltaDims, env: graph::Shapes) -> bool {
        let (b, s, h) = (dims.batch as nat, dims.len as nat, dims.heads as nat);
        &&& graph::closed(&self.query)
        &&& graph::closed(&self.key)
        &&& graph::closed(&self.value)
        &&& graph::closed(&self.decay)
        &&& graph::closed(&self.beta)
        &&& graph::shape(&self.query, env) == Some(seq![b, s, h, dims.key_width as nat])
        &&& graph::shape(&self.key, env) == Some(seq![b, s, h, dims.key_width as nat])
        &&& graph::shape(&self.value, env) == Some(seq![b, s, h, dims.value_width as nat])
        &&& graph::shape(&self.decay, env) == Some(seq![b, s, h])
        &&& graph::shape(&self.beta, env) == Some(seq![b, s, h])
    }
}

/// The shape of the carried matrices.
pub open spec fn state_shape(dims: DeltaDims) -> Seq<nat> {
    seq![
        dims.batch as nat,
        dims.heads as nat,
        dims.key_width as nat,
        dims.value_width as nat,
    ]
}

/// Turning positions and heads around within a scan, and taking the step's part.
proof fn lemma_current(x: Rc<Node>, env: graph::Shapes, d: Seq<nat>, inner: graph::Shapes)
    requires
        graph::closed(&x),
        graph::shape(&x, env) == Some(d),
        d.len() == 4,
        inner == env.within(d[1], inner.carry),
        d[1] > 0,
    ensures
        graph::shape(&current(&by_head(&x)), inner) == Some(seq![d[0], d[2], 1, d[3]]),
{
    graph::lemma_closed(&x, env, d[1], inner.carry);
    let t = seq![d[0], d[2], d[1], d[3]];
    assert(graph::transposed(Some(d), 1, 2)->0 =~= t);
    assert(graph::shape(&by_head(&x), inner) == Some(t));
    assert(t.update(2, 1) =~= seq![d[0], d[2], 1, d[3]]);
}

/// The same with a last dimension added.
proof fn lemma_current_scalar(
    x: Rc<Node>,
    env: graph::Shapes,
    d: Seq<nat>,
    inner: graph::Shapes,
)
    requires
        graph::closed(&x),
        graph::shape(&x, env) == Some(d),
        d.len() == 3,
        inner == env.within(d[1], inner.carry),
        d[1] > 0,
    ensures
        graph::shape(&current(&unsqueeze(&by_head(&x), 3)), inner) == Some(
            seq![d[0], d[2], 1, 1],
        ),
        graph::shape(&current(&unsqueeze(&apply(SameShape::Exp, &by_head(&x)), 3)), inner)
            == Some(seq![d[0], d[2], 1, 1]),
{
    graph::lemma_closed(&x, env, d[1], inner.carry);
    let t = seq![d[0], d[2], d[1]];
    assert(graph::transposed(Some(d), 1, 2)->0 =~= t);
    assert(graph::shape(&by_head(&x), inner) == Some(t));
    assert(t.insert(3, 1) =~= seq![d[0], d[2], d[1], 1]);
    assert(seq![d[0], d[2], d[1], 1nat].update(2, 1) =~= seq![d[0], d[2], 1, 1]);
}

/// A step keeps the shape of the carried matrices, and answers with one value per head.
proof fn lemma_step(
    inputs: &DeltaInputs,
    dims: DeltaDims,
    env: graph::Shapes,
    inner: graph::Shapes,
)
    requires
        inputs.fit(dims, env),
        dims.len > 0,
        inner == env.within(dims.len as nat, Some(state_shape(dims))),
    ensures
        graph::shape(&updated(inputs), inner) == Some(state_shape(dims)),
        graph::shape(
            &pair(
                Pairwise::MatMul,
                &current(&scaled_query(&inputs.query, dims.key_width)),
                &updated(inputs),
            ),
            inner,
        ) == Some(seq![dims.batch as nat, dims.heads as nat, 1, dims.value_width as nat]),
{
    let (b, s, h) = (dims.batch as nat, dims.len as nat, dims.heads as nat);
    let (kw, vw) = (dims.key_width as nat, dims.value_width as nat);
    let st = state_shape(dims);
    shapes::lemma_l2_norm(inputs.key, env, seq![b, s, h, kw]);
    shapes::lemma_l2_norm(inputs.query, env, seq![b, s, h, kw]);
    lemma_current(l2_norm(&inputs.key), env, seq![b, s, h, kw], inner);
    lemma_current(inputs.value, env, seq![b, s, h, vw], inner);
    lemma_current_scalar(inputs.decay, env, seq![b, s, h], inner);
    lemma_current_scalar(inputs.beta, env, seq![b, s, h], inner);
    let key = current_key(inputs);
    assert(graph::shape(&key, inner) == Some(seq![b, h, 1, kw]));
    let held = decayed(inputs);
    assert(graph::shape(&held, inner) == Some(st)) by {
        shapes::lemma_broadcast4(st, seq![b, h, 1, 1]);
        assert(graph::shape(&leaf(Slot::Carry), inner) == Some(st));
    }
    let one_value = seq![b, h, 1, vw];
    let memory = pair(Pairwise::MatMul, &key, &held);
    assert(graph::shape(&memory, inner) == Some(one_value)) by {
        shapes::lemma_product4(b, h, 1, kw, vw);
    }
    let written = correction(inputs, &key, &held);
    assert(graph::shape(&written, inner) == Some(one_value)) by {
        shapes::lemma_broadcast4(one_value, seq![b, h, 1, 1]);
        let difference = pair(Pairwise::Sub, &current(&by_head(&inputs.value)), &memory);
        assert(graph::shape(&difference, inner) == Some(one_value));
    }
    let column = transpose(&key, 2, 3);
    assert(graph::shape(&column, inner) == Some(seq![b, h, kw, 1])) by {
        assert(graph::transposed(Some(seq![b, h, 1, kw]), 2, 3)->0 =~= seq![b, h, kw, 1]);
    }
    let outer = pair(Pairwise::MatMul, &column, &written);
    assert(graph::shape(&outer, inner) == Some(st)) by {
        shapes::lemma_product4(b, h, kw, 1, vw);
    }
    let query = current(&scaled_query(&inputs.query, dims.key_width));
    assert(graph::shape(&query, inner) == Some(seq![b, h, 1, kw])) by {
        graph::lemma_closed(&l2_norm(&inputs.query), env, s, inner.carry);
        let t = seq![b, h, s, kw];
        assert(graph::transposed(Some(seq![b, s, h, kw]), 1, 2)->0 =~= t);
        assert(t.update(2, 1) =~= seq![b, h, 1, kw]);
    }
    shapes::lemma_product4(b, h, 1, kw, vw);
}

/// A scan over the second of four dimensions, with its items turned around.
proof fn lemma_answers(
    rule: Rc<Scan>,
    env: graph::Shapes,
    st: Seq<nat>,
    b: nat,
    h: nat,
    w: nat,
)
    requires
        rule.steps > 0,
        rule.dim == 2,
        graph::closed(&rule.first),
        graph::shape(&rule.first, env) == Some(st),
        graph::shape(&rule.next, env.within(rule.steps as nat, Some(st))) == Some(st),
        graph::shape(&rule.item, env.within(rule.steps as nat, Some(st))) == Some(
            seq![b, h, 1, w],
        ),
    ensures
        graph::shape(&scan_state(&rule), env) == Some(st),
        graph::shape(&answers(&rule), env) == Some(seq![b, rule.steps as nat, h, w]),
        graph::closed(&answers(&rule)),
{
    let s = rule.steps as nat;
    let item = seq![b, h, 1, w];
    assert(item.update(2, s * 1) =~= seq![b, h, s, w]);
    assert(graph::shape(&scan_items(&rule), env) == Some(seq![b, h, s, w]));
    assert(graph::transposed(Some(seq![b, h, s, w]), 1, 2)->0 =~= seq![b, s, h, w]);
}

/// On inputs of the given dimensions the rule answers each position with a value per head, and
/// leaves matrices of the shape that it started from.
pub proof fn delta_rule_keeps_its_state(
    inputs: &DeltaInputs,
    dims: DeltaDims,
    kept: bool,
    env: graph::Shapes,
)
    requires
        inputs.fit(dims, env),
        dims.len > 0,
        kept ==> (env.leaf)(Slot::RecurrentState) == Some(state_shape(dims)),
    ensures
        ({
            let rule = torch_recurrent_gated_delta_rule(inputs, dims, kept);
            &&& graph::shape(&scan_state(&rule), env) == Some(state_shape(dims))
            &&& graph::shape(&answers(&rule), env) == Some(
                seq![
                    dims.batch as nat,
                    dims.len as nat,
                    dims.heads as nat,
                    dims.value_width as nat,
                ],
            )
            &&& graph::closed(&answers(&rule))
        }),
{
    let rule = torch_recurrent_gated_delta_rule(inputs, dims, kept);
    let st = state_shape(dims);
    lemma_step(inputs, dims, env, env.within(dims.len as nat, Some(st)));
    lemma_answers(
        rule,
        env,
        st,
        dims.batch as nat,
        dims.heads as nat,
        dims.value_width as nat,
    );
}

}
