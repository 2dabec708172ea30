//! What the gated delta rule computes, element by element.
use crate::blocks::l2_norm;
use crate::delta;
use crate::delta::{
    answers, by_head, correction, current, current_key, decayed, scaled_query,
    torch_recurrent_gated_delta_rule, updated, DeltaDims, DeltaInputs,
};
use crate::delta_laws;
use crate::delta_laws::{answer, are_closed, have_dims};
use crate::graph;
use crate::graph::{Node, Pairwise, SameShape, Scalar, Slot};
use crate::layer_laws::{converted, lemma_broadcast_row};
use crate::meaning;
use crate::meaning::{line, state_after, value, within, Arithmetic, Tensor, World};
use crate::ops;
use crate::shapes;
use std::rc::Rc;
use vstd::prelude::*;

verus! {

/// A row scaled to length one: divided by the root of the sum of its squares plus one millionth.
pub open spec fn unit_row<E>(a: Arithmetic<E>, row: Seq<E>) -> Seq<E> {
    let scale = (a.apply)(
        SameShape::Recip,
        (a.apply)(
            SameShape::Sqrt,
            (a.plus)(
                (a.sum)(Seq::new(row.len(), |k: int| (a.apply)(SameShape::Sqr, row[k]))),
                Scalar::Millionth,
            ),
        ),
    );
    Seq::new(row.len(), |k: int| (a.pair)(Pairwise::BroadcastMul, row[k], scale))
}

/// The row of head `h` at position `t` of sequence `i`.
pub open spec fn head_at<E>(x: Tensor<E>, i: int, t: int, h: int) -> Seq<E> {
    Seq::new(x.shape[3], |k: int| (x.at)(seq![i, t, h, k]))
}

/// What goes into a step of the rule for one head.
#[verifier::reject_recursive_types(E)]
pub struct HeadInputs<E> {
    pub query: Seq<E>,
    pub key: Seq<E>,
    pub value: Seq<E>,
    pub decay: E,
    pub beta: E,
}

/// What goes into step `t` for head `h` of sequence `i`, all in single precision: the query, of
/// length one and divided by the root of its width; the key, of length one; the value; what the
/// matrix decays by, the logarithm of which is given; and what is written of a difference.
pub open spec fn head_inputs<E>(
    inputs: &DeltaInputs,
    env: World<E>,
    width: usize,
    i: int,
    t: int,
    h: int,
) -> HeadInputs<E> {
    let a = env.arithmetic;
    let (query, key) = (value(&inputs.query, env), value(&inputs.key, env));
    let (values, decay) = (value(&inputs.value, env), value(&inputs.decay, env));
    let beta = value(&inputs.beta, env);
    let q = unit_row(a, head_at(query, i, t, h));
    let k = unit_row(a, head_at(key, i, t, h));
    let v = head_at(values, i, t, h);
    HeadInputs {
        query: Seq::new(
            q.len(),
            |r: int|
                converted(a, query.format, a.single, (a.times)(q[r], Scalar::InvSqrt(width))),
        ),
        key: Seq::new(k.len(), |r: int| converted(a, key.format, a.single, k[r])),
        value: Seq::new(v.len(), |c: int| converted(a, values.format, a.single, v[c])),
        decay: (a.apply)(
            SameShape::Exp,
            converted(a, decay.format, a.single, (decay.at)(seq![i, t, h])),
        ),
        beta: converted(a, beta.format, a.single, (beta.at)(seq![i, t, h])),
    }
}

/// The matrix of a head after a step, row `r` and column `c`: the decayed matrix, with the key
/// times the difference between the step's value and what the decayed matrix has for the key,
/// as much of it as `beta` says.
pub open spec fn written<E>(
    a: Arithmetic<E>,
    x: HeadInputs<E>,
    matrix: spec_fn(int, int) -> E,
    r: int,
    c: int,
) -> E {
    let held = |p: int, q: int| (a.pair)(Pairwise::BroadcastMul, matrix(p, q), x.decay);
    let remembered = (a.dot)(x.key, Seq::new(x.key.len(), |p: int| held(p, c)));
    let difference = (a.pair)(Pairwise::Sub, x.value[c], remembered);
    (a.pair)(
        Pairwise::Add,
        held(r, c),
        (a.dot)(seq![x.key[r]], seq![(a.pair)(Pairwise::BroadcastMul, difference, x.beta)]),
    )
}

/// The matrix of head `h` of sequence `i`.
pub open spec fn matrix_of<E>(t: Tensor<E>, i: int, h: int) -> spec_fn(int, int) -> E {
    |r: int, c: int| (t.at)(seq![i, h, r, c])
}

/// Rows scaled to length one.
pub proof fn rows_are_scaled_to_length_one<E>(x: Rc<Node>, env: World<E>, idx: Seq<int>)
    requires
        value(&x, env).shape.len() == 4,
        within(value(&x, env).shape, idx),
    ensures
        ({
            let r = value(&l2_norm(&x), env);
            &&& r.shape == value(&x, env).shape
            &&& r.format == value(&x, env).format
            &&& (r.at)(idx) == unit_row(
                env.arithmetic,
                head_at(value(&x, env), idx[0], idx[1], idx[2]),
            )[idx[3]]
        }),
{
    broadcast use meaning::group_value;

    let a = env.arithmetic;
    let t = value(&x, env);
    let squares = ops::apply(SameShape::Sqr, &x);
    let st = value(&squares, env);
    let scale = crate::blocks::inverse_root(
        &ops::plus(&ops::sum_keep(&squares), Scalar::Millionth),
    );
    let zt = value(&scale, env);
    assert(zt.shape =~= t.shape.update(3, 1));
    lemma_broadcast_row(t.shape);
    meaning::lemma_clipped(t.shape, idx);
    let i = idx.update(3, 0);
    let row = head_at(t, idx[0], idx[1], idx[2]);
    assert(0 <= idx[3] < t.shape[3]);
    assert(line(st, 3, i) =~= Seq::new(row.len(), |k: int| (a.apply)(SameShape::Sqr, row[k]))) by {
        assert forall|k: int| 0 <= k < t.shape[3] implies (st.at)(#[trigger] i.update(3, k)) == (
        a.apply)(SameShape::Sqr, row[k]) by {
            assert(i.update(3, k) =~= seq![idx[0], idx[1], idx[2], k]);
            assert(i.update(3, k) =~= idx.update(3, k));
            assert(within(t.shape, i.update(3, k)));
        }
    }
    assert(idx =~= seq![idx[0], idx[1], idx[2], idx[3]]);
}

/// A tensor of four dimensions at the position of a step: heads before positions, in single
/// precision.
proof fn lemma_now<E>(x: Rc<Node>, env: World<E>, t: int, carry: Tensor<E>, idx: Seq<int>)
    requires
        graph::closed(&x),
        value(&x, env).shape.len() == 4,
        0 <= t < value(&x, env).shape[1],
        within(
            seq![value(&x, env).shape[0], value(&x, env).shape[2], 1, value(&x, env).shape[3]],
            idx,
        ),
    ensures
        ({
            let d = value(&x, env).shape;
            let r = value(&current(&by_head(&x)), env.in_step(t, carry));
            &&& r.shape == seq![d[0], d[2], 1, d[3]]
            &&& r.format == env.arithmetic.single
            &&& (r.at)(idx) == converted(
                env.arithmetic,
                value(&x, env).format,
                env.arithmetic.single,
                (value(&x, env).at)(seq![idx[0], t, idx[1], idx[3]]),
            )
        }),
{
    broadcast use meaning::group_value;

    meaning::lemma_closed(&x, env, t, carry);
    let e = env.in_step(t, carry);
    let y = value(&x, env);
    let d = y.shape;
    let full = seq![d[0], d[2], 1, d[3]];
    assert(0 <= idx[0] < full[0] && 0 <= idx[1] < full[1] && 0 <= idx[2] < full[2] && 0 <= idx[3]
        < full[3]);
    let turned = value(&by_head(&x), e);
    assert(turned.shape =~= seq![d[0], d[2], d[1], d[3]]);
    let r = value(&current(&by_head(&x)), e);
    assert(r.shape =~= full);
    let i = idx.update(2, idx[2] + t);
    assert(i =~= seq![idx[0], idx[1], t, idx[3]]);
    assert(within(turned.shape, i));
    assert(i.update(1, i[2]).update(2, i[1]) =~= seq![idx[0], t, idx[1], idx[3]]);
    assert(within(d, seq![idx[0], t, idx[1], idx[3]]));
}

/// One number for each head at the position of a step, in single precision.
proof fn lemma_number_now<E>(x: Rc<Node>, env: World<E>, t: int, carry: Tensor<E>, idx: Seq<int>)
    requires
        graph::closed(&x),
        value(&x, env).shape.len() == 3,
        0 <= t < value(&x, env).shape[1],
        within(seq![value(&x, env).shape[0], value(&x, env).shape[2], 1, 1], idx),
    ensures
        ({
            let a = env.arithmetic;
            let y = value(&x, env);
            let e = env.in_step(t, carry);
            let full = seq![y.shape[0], y.shape[2], 1, 1];
            let plain = value(&current(&ops::unsqueeze(&by_head(&x), 3)), e);
            let power = value(
                &current(&ops::unsqueeze(&ops::apply(SameShape::Exp, &by_head(&x)), 3)),
                e,
            );
            let number = converted(a, y.format, a.single, (y.at)(seq![idx[0], t, idx[1]]));
            &&& plain.shape == full
            &&& power.shape == full
            &&& (plain.at)(idx) == number
            &&& (power.at)(idx) == (a.apply)(SameShape::Exp, number)
        }),
{
    broadcast use meaning::group_value;

    meaning::lemma_closed(&x, env, t, carry);
    let e = env.in_step(t, carry);
    let y = value(&x, env);
    let d = y.shape;
    let full = seq![d[0], d[2], 1, 1];
    assert(0 <= idx[0] < full[0] && 0 <= idx[1] < full[1] && 0 <= idx[2] < full[2] && 0 <= idx[3]
        < full[3]);
    let turned = value(&by_head(&x), e);
    assert(turned.shape =~= seq![d[0], d[2], d[1]]);
    let wide = value(&ops::unsqueeze(&by_head(&x), 3), e);
    let powers = value(&ops::unsqueeze(&ops::apply(SameShape::Exp, &by_head(&x)), 3), e);
    assert(wide.shape =~= seq![d[0], d[2], d[1], 1]);
    assert(powers.shape =~= seq![d[0], d[2], d[1], 1]);
    let i = idx.update(2, idx[2] + t);
    assert(within(wide.shape, i));
    let j = seq![idx[0], idx[1], t];
    assert(i.remove(3) =~= j);
    assert(within(turned.shape, j));
    assert(j.update(1, j[2]).update(2, j[1]) =~= seq![idx[0], t, idx[1]]);
    assert(within(d, seq![idx[0], t, idx[1]]));
    let plain = value(&current(&ops::unsqueeze(&by_head(&x), 3)), e);
    let power = value(
        &current(&ops::unsqueeze(&ops::apply(SameShape::Exp, &by_head(&x)), 3)),
        e,
    );
    assert(plain.shape =~= full);
    assert(power.shape =~= full);
}

/// Scaled rows are closed where the rows are.
proof fn lemma_scaled_is_closed(x: Rc<Node>)
    requires
        graph::closed(&x),
    ensures
        graph::closed(&l2_norm(&x)),
{
    broadcast use graph::group_closed;

}

/// The key of a step.
proof fn lemma_key<E>(
    inputs: &DeltaInputs,
    env: World<E>,
    dims: DeltaDims,
    t: int,
    carry: Tensor<E>,
    idx: Seq<int>,
)
    requires
        are_closed(inputs),
        have_dims(inputs, env, dims),
        0 <= t < dims.len,
        within(
            seq![dims.batch as nat, dims.heads as nat, 1, dims.key_width as nat],
            idx,
        ),
    ensures
        ({
            let r = value(&current_key(inputs), env.in_step(t, carry));
            &&& r.shape == seq![dims.batch as nat, dims.heads as nat, 1, dims.key_width as nat]
            &&& (r.at)(idx) == head_inputs(
                inputs,
                env,
                dims.key_width,
                idx[0],
                t,
                idx[1],
            ).key[idx[3]]
        }),
{
    let d = seq![dims.batch as nat, dims.len as nat, dims.heads as nat, dims.key_width as nat];
    let full = seq![d[0], d[2], 1, d[3]];
    assert(0 <= idx[0] < full[0] && 0 <= idx[1] < full[1] && 0 <= idx[2] < full[2] && 0 <= idx[3]
        < full[3]);
    let at = seq![idx[0], t, idx[1], idx[3]];
    assert(within(d, at));
    lemma_scaled_is_closed(inputs.key);
    rows_are_scaled_to_length_one(inputs.key, env, at);
    lemma_now(l2_norm(&inputs.key), env, t, carry, idx);
}

/// The query of a step.
proof fn lemma_query<E>(
    inputs: &DeltaInputs,
    env: World<E>,
    dims: DeltaDims,
    t: int,
    carry: Tensor<E>,
    idx: Seq<int>,
)
    requires
        are_closed(inputs),
        have_dims(inputs, env, dims),
        0 <= t < dims.len,
        within(
            seq![dims.batch as nat, dims.heads as nat, 1, dims.key_width as nat],
            idx,
        ),
    ensures
        ({
            let r = value(
                &current(&scaled_query(&inputs.query, dims.key_width)),
                env.in_step(t, carry),
            );
            &&& r.shape == seq![dims.batch as nat, dims.heads as nat, 1, dims.key_width as nat]
            &&& (r.at)(idx) == head_inputs(
                inputs,
                env,
                dims.key_width,
                idx[0],
                t,
                idx[1],
            ).query[idx[3]]
        }),
{
    broadcast use meaning::group_value;

    let d = seq![dims.batch as nat, dims.len as nat, dims.heads as nat, dims.key_width as nat];
    let full = seq![d[0], d[2], 1, d[3]];
    assert(0 <= idx[0] < full[0] && 0 <= idx[1] < full[1] && 0 <= idx[2] < full[2] && 0 <= idx[3]
        < full[3]);
    let at = seq![idx[0], t, idx[1], idx[3]];
    assert(within(d, at));
    lemma_scaled_is_closed(inputs.query);
    rows_are_scaled_to_length_one(inputs.query, env, at);
    let e = env.in_step(t, carry);
    let unit = l2_norm(&inputs.query);
    meaning::lemma_closed(&unit, env, t, carry);
    let y = value(&unit, env);
    let turned = value(&scaled_query(&inputs.query, dims.key_width), e);
    assert(turned.shape =~= seq![d[0], d[2], d[1], d[3]]);
    let r = value(&current(&scaled_query(&inputs.query, dims.key_width)), e);
    assert(r.shape =~= full);
    let i = idx.update(2, idx[2] + t);
    assert(i =~= seq![idx[0], idx[1], t, idx[3]]);
    assert(within(turned.shape, i));
    assert(i.update(1, i[2]).update(2, i[1]) =~= at);
    let flipped = value(&ops::transpose(&unit, 1, 2), e);
    assert(flipped.shape =~= turned.shape);
    assert((flipped.at)(i) == (y.at)(at));
}

/// The matrices after a step, element by element.
#[verifier::rlimit(40)]
pub proof fn step_writes_the_difference<E>(
    inputs: &DeltaInputs,
    env: World<E>,
    dims: DeltaDims,
    t: int,
    carry: Tensor<E>,
    idx: Seq<int>,
)
    requires
        are_closed(inputs),
        have_dims(inputs, env, dims),
        0 <= t < dims.len,
        carry.shape == delta::state_shape(dims),
        carry.format == env.arithmetic.single,
        within(delta::state_shape(dims), idx),
    ensures
        (value(&updated(inputs), env.in_step(t, carry)).at)(idx) == written(
            env.arithmetic,
            head_inputs(inputs, env, dims.key_width, idx[0], t, idx[1]),
            matrix_of(carry, idx[0], idx[1]),
            idx[2],
            idx[3],
        ),
        value(&updated(inputs), env.in_step(t, carry)).shape == delta::state_shape(dims),
        value(&updated(inputs), env.in_step(t, carry)).format == env.arithmetic.single,
{
    broadcast use meaning::group_value;

    delta_laws::lemma_step_shape(inputs, env, dims, t, carry);
    let a = env.arithmetic;
    let e = env.in_step(t, carry);
    let (b, h, kw, vw) = (
        dims.batch as nat,
        dims.heads as nat,
        dims.key_width as nat,
        dims.value_width as nat,
    );
    let st = delta::state_shape(dims);
    assert(0 <= idx[0] < st[0] && 0 <= idx[1] < st[1] && 0 <= idx[2] < st[2] && 0 <= idx[3]
        < st[3]);
    let (i, hd, r, c) = (idx[0], idx[1], idx[2], idx[3]);
    let x = head_inputs(inputs, env, dims.key_width, i, t, hd);
    let one = seq![i, hd, 0, 0];
    assert(within(seq![b, h, 1, 1], one));
    lemma_number_now(inputs.decay, env, t, carry, one);
    lemma_number_now(inputs.beta, env, t, carry, one);
    shapes::lemma_broadcast4(st, seq![b, h, 1, 1]);
    let held = value(&decayed(inputs), e);
    let matrix = matrix_of(carry, i, hd);
    assert forall|p: int, q: int| 0 <= p < kw && 0 <= q < vw implies (held.at)(
        #[trigger] idx.update(2, p).update(3, q),
    ) == (a.pair)(Pairwise::BroadcastMul, matrix(p, q), x.decay) by {
        let at = idx.update(2, p).update(3, q);
        assert(at =~= seq![i, hd, p, q]);
        assert(within(st, at));
        meaning::lemma_clipped(st, at);
        let cut = meaning::clipped(seq![b, h, 1, 1], at);
        lemma_clipped_number(b, h, at);
        assert(cut =~= one);
    }
    let key = value(&current_key(inputs), e);
    assert forall|p: int| 0 <= p < kw implies (key.at)(#[trigger] one.update(3, p))
        == x.key[p] by {
        assert(within(seq![b, h, 1, kw], one.update(3, p)));
        lemma_key(inputs, env, dims, t, carry, one.update(3, p));
    }
    let first = one.update(3, r);
    assert(within(seq![b, h, 1, kw], first));
    lemma_key(inputs, env, dims, t, carry, first);
    let product = value(&ops::pair(Pairwise::MatMul, &current_key(inputs), &decayed(inputs)), e);
    assert(held.shape == st);
    assert(product.shape =~= seq![b, h, 1, vw]);
    let at = seq![i, hd, 0, c];
    assert(within(product.shape, at));
    assert(line(key, 3, at) =~= x.key) by {
        assert forall|p: int| 0 <= p < kw implies #[trigger] at.update(3, p) == one.update(
            3,
            p,
        ) by {
            assert(at.update(3, p) =~= one.update(3, p));
        }
    }
    let column = Seq::new(
        kw,
        |p: int| (a.pair)(Pairwise::BroadcastMul, matrix(p, c), x.decay),
    );
    assert(line(held, 2, at) =~= column) by {
        assert forall|p: int| 0 <= p < kw implies (held.at)(#[trigger] at.update(2, p))
            == column[p] by {
            assert(at.update(2, p) =~= idx.update(2, p).update(3, c));
        }
    }
    assert(column =~= Seq::new(
        x.key.len(),
        |p: int|
            (|p: int, q: int| (a.pair)(Pairwise::BroadcastMul, matrix(p, q), x.decay))(p, c),
    ));
    lemma_now(inputs.value, env, t, carry, at);
    let now = value(&current(&by_head(&inputs.value)), e);
    let difference = value(
        &ops::pair(
            Pairwise::Sub,
            &current(&by_head(&inputs.value)),
            &ops::pair(Pairwise::MatMul, &current_key(inputs), &decayed(inputs)),
        ),
        e,
    );
    assert(difference.shape == seq![b, h, 1, vw]);
    shapes::lemma_broadcast4(seq![b, h, 1, vw], seq![b, h, 1, 1]);
    meaning::lemma_clipped(seq![b, h, 1, vw], at);
    lemma_clipped_number(b, h, at);
    let fix = value(&correction(inputs, &current_key(inputs), &decayed(inputs)), e);
    assert(fix.shape == seq![b, h, 1, vw]);
    let fixed = (a.pair)(
        Pairwise::BroadcastMul,
        (a.pair)(Pairwise::Sub, x.value[c], (a.dot)(x.key, column)),
        x.beta,
    );
    assert((fix.at)(at) == fixed);
    let flipped = value(&ops::transpose(&current_key(inputs), 2, 3), e);
    assert(flipped.shape =~= seq![b, h, kw, 1]);
    assert(line(flipped, 3, idx) =~= seq![x.key[r]]) by {
        let z = idx.update(3, 0);
        assert(within(flipped.shape, z));
        assert(z.update(2, z[3]).update(3, z[2]) =~= first);
    }
    assert(line(fix, 2, idx) =~= seq![fixed]) by {
        assert(idx.update(2, 0) =~= at);
    }
    let outer = value(
        &ops::pair(
            Pairwise::MatMul,
            &ops::transpose(&current_key(inputs), 2, 3),
            &correction(inputs, &current_key(inputs), &decayed(inputs)),
        ),
        e,
    );
    assert(outer.shape =~= st);
    assert(idx.update(2, r).update(3, c) =~= idx);
}

/// One number for each head, wherever it is broadcast to.
proof fn lemma_clipped_number(b: nat, h: nat, at: Seq<int>)
    requires
        at.len() == 4,
        0 <= at[0] < b,
        0 <= at[1] < h,
    ensures
        meaning::clipped(seq![b, h, 1, 1], at) == seq![at[0], at[1], 0, 0],
{
    assert(meaning::clipped(seq![b, h, 1, 1], at) =~= seq![at[0], at[1], 0, 0]);
}

/// The matrices keep their shape and format from step to step.
pub proof fn matrices_keep_their_shape<E>(
    inputs: &DeltaInputs,
    env: World<E>,
    dims: DeltaDims,
    kept: bool,
    t: nat,
)
    requires
        are_closed(inputs),
        have_dims(inputs, env, dims),
        t <= dims.len,
        kept ==> (env.leaf)(Slot::RecurrentState).shape == delta::state_shape(dims),
    ensures
        ({
            let s = state_after(torch_recurrent_gated_delta_rule(inputs, dims, kept), t, env);
            s.shape == delta::state_shape(dims) && s.format == env.arithmetic.single
        }),
    decreases t,
{
    let rule = torch_recurrent_gated_delta_rule(inputs, dims, kept);
    if t == 0 {
        broadcast use meaning::group_value;

        meaning::lemma_state_first(rule, env);
        assert(rule.first == delta::initial(dims, kept));
    } else {
        let j = (t - 1) as nat;
        matrices_keep_their_shape(inputs, env, dims, kept, j);
        meaning::lemma_state_next(rule, j, env);
        delta_laws::lemma_step_shape(inputs, env, dims, j as int, state_after(rule, j, env));
    }
}

/// The rule begins with the matrices that were kept, or with zeros, and each step writes into the
/// matrices that the step before left.
pub proof fn matrices_go_from_step_to_step<E>(
    inputs: &DeltaInputs,
    env: World<E>,
    dims: DeltaDims,
    kept: bool,
    t: nat,
    idx: Seq<int>,
)
    requires
        are_closed(inputs),
        have_dims(inputs, env, dims),
        t < dims.len,
        kept ==> (env.leaf)(Slot::RecurrentState).shape == delta::state_shape(dims),
        within(delta::state_shape(dims), idx),
    ensures
        ({
            let a = env.arithmetic;
            let rule = torch_recurrent_gated_delta_rule(inputs, dims, kept);
            let before = state_after(rule, t, env);
            let old = (env.leaf)(Slot::RecurrentState);
            &&& (state_after(rule, 0, env).at)(idx) == (if kept {
                converted(a, old.format, a.single, (old.at)(idx))
            } else {
                a.zero
            })
            &&& (state_after(rule, t + 1, env).at)(idx) == written(
                a,
                head_inputs(inputs, env, dims.key_width, idx[0], t as int, idx[1]),
                matrix_of(before, idx[0], idx[1]),
                idx[2],
                idx[3],
            )
            &&& value(&ops::scan_state(&rule), env) == state_after(rule, dims.len as nat, env)
        }),
{
    broadcast use meaning::group_value;

    let rule = torch_recurrent_gated_delta_rule(inputs, dims, kept);
    meaning::lemma_state_first(rule, env);
    assert(rule.first == delta::initial(dims, kept));
    matrices_keep_their_shape(inputs, env, dims, kept, t);
    meaning::lemma_state_next(rule, t, env);
    let before = state_after(rule, t, env);
    step_writes_the_difference(inputs, env, dims, t as int, before, idx);
}

/// Each position is answered from the matrix of its head after the step of that position: the
/// query times the matrix.
#[verifier::rlimit(40)]
pub proof fn positions_are_answered<E>(
    inputs: &DeltaInputs,
    env: World<E>,
    dims: DeltaDims,
    kept: bool,
    idx: Seq<int>,
)
    requires
        are_closed(inputs),
        have_dims(inputs, env, dims),
        kept ==> (env.leaf)(Slot::RecurrentState).shape == delta::state_shape(dims),
        within(
            seq![
                dims.batch as nat,
                dims.len as nat,
                dims.heads as nat,
                dims.value_width as nat,
            ],
            idx,
        ),
    ensures
        ({
            let a = env.arithmetic;
            let rule = torch_recurrent_gated_delta_rule(inputs, dims, kept);
            let after = state_after(rule, (idx[1] + 1) as nat, env);
            let x = head_inputs(inputs, env, dims.key_width, idx[0], idx[1], idx[2]);
            let r = value(&answers(&rule), env);
            &&& r.shape == seq![
                dims.batch as nat,
                dims.len as nat,
                dims.heads as nat,
                dims.value_width as nat,
            ]
            &&& r.format == a.single
            &&& (r.at)(idx) == (a.dot)(
                x.query,
                Seq::new(
                    dims.key_width as nat,
                    |p: int| (after.at)(seq![idx[0], idx[2], p, idx[3]]),
                ),
            )
        }),
{
    broadcast use meaning::group_value;

    let a = env.arithmetic;
    let rule = torch_recurrent_gated_delta_rule(inputs, dims, kept);
    let (b, s, h, kw, vw) = (
        dims.batch as nat,
        dims.len as nat,
        dims.heads as nat,
        dims.key_width as nat,
        dims.value_width as nat,
    );
    let full = seq![b, s, h, vw];
    assert(0 <= idx[0] < full[0] && 0 <= idx[1] < full[1] && 0 <= idx[2] < full[2] && 0 <= idx[3]
        < full[3]);
    let t = idx[1];
    let items = meaning::scanned(rule, env);
    meaning::lemma_scanned(rule, env);
    matrices_keep_their_shape(inputs, env, dims, kept, 0);
    delta_laws::lemma_step_shape(inputs, env, dims, 0, state_after(rule, 0, env));
    assert(items[0].shape == seq![b, h, 1, vw]);
    matrices_keep_their_shape(inputs, env, dims, kept, t as nat);
    let before = state_after(rule, t as nat, env);
    delta_laws::lemma_step_shape(inputs, env, dims, t, before);
    let e = env.in_step(t, before);
    let item = value(&answer(inputs, dims.key_width), e);
    assert(items[t] == item);
    let after = state_after(rule, (t + 1) as nat, env);
    meaning::lemma_state_next(rule, t as nat, env);
    assert(after == value(&updated(inputs), e));
    let laid = meaning::laid(items, 2);
    assert(laid.shape =~= seq![b, h, s, vw]);
    let i = seq![idx[0], idx[2], t, idx[3]];
    assert(within(laid.shape, i));
    let at = seq![idx[0], idx[2], 0, idx[3]];
    assert(i.update(2, 0) =~= at);
    assert((laid.at)(i) == (item.at)(at));
    assert(idx.update(1, idx[2]).update(2, idx[1]) =~= i);
    let query = value(&current(&scaled_query(&inputs.query, dims.key_width)), e);
    let x = head_inputs(inputs, env, dims.key_width, idx[0], t, idx[2]);
    assert(kw > 0 ==> query.shape == seq![b, h, 1, kw]) by {
        if kw > 0 {
            let z = seq![idx[0], idx[2], 0, 0];
            assert(within(seq![b, h, 1, kw], z));
            lemma_query(inputs, env, dims, t, before, z);
        }
    }
    lemma_query_shape(inputs, env, dims, t, before);
    assert(line(query, 3, at) =~= x.query) by {
        assert forall|p: int| 0 <= p < kw implies (query.at)(#[trigger] at.update(3, p))
            == x.query[p] by {
            assert(within(seq![b, h, 1, kw], at.update(3, p)));
            lemma_query(inputs, env, dims, t, before, at.update(3, p));
        }
    }
    assert(line(after, 2, at) =~= Seq::new(
        kw,
        |p: int| (after.at)(seq![idx[0], idx[2], p, idx[3]]),
    )) by {
        assert forall|p: int| 0 <= p < kw implies #[trigger] at.update(2, p) == seq![
            idx[0],
            idx[2],
            p,
            idx[3],
        ] by {
            assert(at.update(2, p) =~= seq![idx[0], idx[2], p, idx[3]]);
        }
    }
    let r = value(&answers(&rule), env);
    assert(r.shape =~= full);
}

proof fn lemma_query_shape<E>(
    inputs: &DeltaInputs,
    env: World<E>,
    dims: DeltaDims,
    t: int,
    carry: Tensor<E>,
)
    requires
        are_closed(inputs),
        have_dims(inputs, env, dims),
    ensures
        value(
            &current(&scaled_query(&inputs.query, dims.key_width)),
            env.in_step(t, carry),
        ).shape == seq![dims.batch as nat, dims.heads as nat, 1, dims.key_width as nat],
{
    broadcast use meaning::group_value;

    let (b, s, h, kw) = (
        dims.batch as nat,
        dims.len as nat,
        dims.heads as nat,
        dims.key_width as nat,
    );
    let e = env.in_step(t, carry);
    meaning::lemma_closed(&inputs.query, env, t, carry);
    let y = value(&inputs.query, e);
    lemma_broadcast_row(y.shape);
    let squares = ops::apply(SameShape::Sqr, &inputs.query);
    let scale = crate::blocks::inverse_root(
        &ops::plus(&ops::sum_keep(&squares), Scalar::Millionth),
    );
    assert(value(&scale, e).shape =~= y.shape.update(3, 1));
    assert(value(&l2_norm(&inputs.query), e).shape == y.shape);
    let r = value(&current(&scaled_query(&inputs.query, dims.key_width)), e);
    assert(r.shape =~= seq![b, h, 1, kw]);
}

}
