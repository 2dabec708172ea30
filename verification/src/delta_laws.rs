//! The gated delta rule run in pieces.
use crate::blocks::l2_norm;
use crate::delta;
use crate::delta::{
    answers, by_head, correction, current, current_key, decayed, initial, scaled_query,
    torch_recurrent_gated_delta_rule, updated, DeltaDims, DeltaInputs,
};
use crate::graph;
use crate::graph::{Node, Pairwise, SameShape, Scalar, Scan, Slot};
use crate::meaning;
use crate::meaning::{
    applied, broadcasted, by_row, formatted, joined, laid, line, mapped, narrowed, paired, scanned,
    state_after, transposed, unsqueezed, value, within, Arithmetic, Tensor, World,
};
use crate::ops::{apply, leaf, pair, scan_items, scan_state, times, transpose, unsqueeze};
use crate::shapes;
use std::rc::Rc;
use vstd::prelude::*;

verus! {

/// Broadcasting a tensor of four dimensions with one number for each of its rows.
pub proof fn lemma_broadcast_rows(d: Seq<nat>)
    requires
        d.len() == 4,
    ensures
        graph::broadcast(d, d.update(3, 1)) == Some(d),
{
    shapes::lemma_broadcast4(d, d.update(3, 1));
}

/// The rows of `x` scaled to length one.
pub open spec fn unit_rows<E>(x: Tensor<E>, a: Arithmetic<E>) -> Tensor<E> {
    paired(Pairwise::BroadcastMul, x, row_scales(x, a), a)
}

/// What the rows of `x` are scaled by.
pub open spec fn row_scales<E>(x: Tensor<E>, a: Arithmetic<E>) -> Tensor<E> {
    applied(
        SameShape::Recip,
        applied(
            SameShape::Sqrt,
            mapped(
                by_row(applied(SameShape::Sqr, x, a), a.sum),
                |e: E| (a.plus)(e, Scalar::Millionth),
            ),
            a,
        ),
        a,
    )
}

/// What [`l2_norm`] computes.
proof fn lemma_l2_norm<E>(x: Rc<Node>, env: World<E>)
    ensures
        value(&l2_norm(&x), env) == unit_rows(value(&x, env), env.arithmetic),
{
    broadcast use meaning::group_value;

}

/// The scale of a row of a part is that of the row of the whole.
proof fn lemma_row_scales<E>(x: Tensor<E>, off: int, len: nat, a: Arithmetic<E>, idx: Seq<int>)
    requires
        x.shape.len() == 4,
        0 <= off,
        off + len <= x.shape[1],
        within(x.shape.update(1, len).update(3, 1), idx),
    ensures
        (row_scales(narrowed(x, 1, off, len), a).at)(idx) == (row_scales(x, a).at)(
            idx.update(1, idx[1] + off),
        ),
{
    let part = narrowed(x, 1, off, len);
    let there = idx.update(1, idx[1] + off);
    let (p, q) = (applied(SameShape::Sqr, part, a), applied(SameShape::Sqr, x, a));
    assert(within(x.shape.update(3, 1), there));
    assert(line(p, 3, idx) =~= line(q, 3, there)) by {
        assert forall|k: int| 0 <= k < x.shape[3] implies #[trigger] line(p, 3, idx)[k] == line(
            q,
            3,
            there,
        )[k] by {
            let i = idx.update(3, k);
            assert(within(part.shape, i));
            assert(i.update(1, i[1] + off) =~= there.update(3, k));
            assert(within(x.shape, there.update(3, k)));
        }
    }
}

/// Scaling rows commutes with taking a part of the positions.
proof fn lemma_unit_rows<E>(x: Tensor<E>, off: int, len: nat, a: Arithmetic<E>)
    requires
        x.shape.len() == 4,
        0 <= off,
        off + len <= x.shape[1],
    ensures
        unit_rows(narrowed(x, 1, off, len), a) == narrowed(unit_rows(x, a), 1, off, len),
        unit_rows(x, a).shape == x.shape,
        unit_rows(x, a).format == x.format,
{
    let part = narrowed(x, 1, off, len);
    let (l, r) = (unit_rows(part, a), narrowed(unit_rows(x, a), 1, off, len));
    lemma_broadcast_rows(x.shape);
    lemma_broadcast_rows(part.shape);
    assert(row_scales(x, a).shape == x.shape.update(3, 1));
    assert(row_scales(part, a).shape == part.shape.update(3, 1));
    assert forall|idx: Seq<int>| #[trigger] within(l.shape, idx) implies (l.at)(idx) == (r.at)(
        idx,
    ) by {
        let there = idx.update(1, idx[1] + off);
        assert(within(x.shape, there));
        meaning::lemma_clipped(part.shape, idx);
        meaning::lemma_clipped(x.shape, there);
        lemma_row_scales(x, off, len, a, idx.update(3, 0));
        assert(idx.update(3, 0).update(1, idx[1] + off) =~= there.update(3, 0));
        assert(part.shape.update(3, 1) =~= x.shape.update(1, len).update(3, 1));
    }
    let f = |p: E, q: E| (a.pair)(Pairwise::BroadcastMul, p, q);
    assert(l == broadcasted(part, row_scales(part, a), f));
    meaning::lemma_equal(l, r);
}

/// The row of a position, heads before positions, in another format.
proof fn lemma_turned_part<E>(x: Tensor<E>, off: int, len: nat, f: int, a: Arithmetic<E>)
    requires
        x.shape.len() >= 3,
        0 <= off,
        off + len <= x.shape[1],
    ensures
        formatted(transposed(narrowed(x, 1, off, len), 1, 2), f, a) == narrowed(
            formatted(transposed(x, 1, 2), f, a),
            2,
            off,
            len,
        ),
        formatted(transposed(x, 1, 2), f, a).shape == x.shape.update(1, x.shape[2]).update(
            2,
            x.shape[1],
        ),
{
    let part = narrowed(x, 1, off, len);
    let l = formatted(transposed(part, 1, 2), f, a);
    let r = narrowed(formatted(transposed(x, 1, 2), f, a), 2, off, len);
    assert(l.shape =~= r.shape);
    assert forall|idx: Seq<int>| #[trigger] within(l.shape, idx) implies (l.at)(idx) == (r.at)(
        idx,
    ) by {
        let there = idx.update(2, idx[2] + off);
        assert(within(transposed(x, 1, 2).shape, there));
        let i = idx.update(1, idx[2]).update(2, idx[1]);
        assert(within(part.shape, i));
        assert(i.update(1, i[1] + off) =~= there.update(1, there[2]).update(2, there[1]));
    }
    meaning::lemma_equal(l, r);
}

/// Another format commutes with taking a part.
proof fn lemma_formatted_part<E>(
    x: Tensor<E>,
    dim: int,
    off: int,
    len: nat,
    f: int,
    a: Arithmetic<E>,
)
    requires
        0 <= dim < x.shape.len(),
        0 <= off,
        off + len <= x.shape[dim],
    ensures
        formatted(narrowed(x, dim, off, len), f, a) == narrowed(
            formatted(x, f, a),
            dim,
            off,
            len,
        ),
{
    let l = formatted(narrowed(x, dim, off, len), f, a);
    let r = narrowed(formatted(x, f, a), dim, off, len);
    assert forall|idx: Seq<int>| #[trigger] within(l.shape, idx) implies (l.at)(idx) == (r.at)(
        idx,
    ) by {
        assert(within(x.shape, idx.update(dim, idx[dim] + off)));
    }
    meaning::lemma_equal(l, r);
}

/// A dimension added behind the third commutes with taking a part.
proof fn lemma_unsqueezed_part<E>(x: Tensor<E>, off: int, len: nat)
    requires
        x.shape.len() == 3,
        0 <= off,
        off + len <= x.shape[2],
    ensures
        unsqueezed(narrowed(x, 2, off, len), 3) == narrowed(unsqueezed(x, 3), 2, off, len),
{
    let l = unsqueezed(narrowed(x, 2, off, len), 3);
    let r = narrowed(unsqueezed(x, 3), 2, off, len);
    assert(l.shape =~= r.shape);
    assert forall|idx: Seq<int>| #[trigger] within(l.shape, idx) implies (l.at)(idx) == (r.at)(
        idx,
    ) by {
        let there = idx.update(2, idx[2] + off);
        assert(within(unsqueezed(x, 3).shape, there));
        let i = idx.remove(3);
        assert(within(x.shape.update(2, len), i));
        assert(i.update(2, i[2] + off) =~= there.remove(3));
    }
    meaning::lemma_equal(l, r);
}

/// The tensors of the inputs have the dimensions `dims`.
pub open spec fn have_dims<E>(inputs: &DeltaInputs, env: World<E>, dims: DeltaDims) -> bool {
    let (b, s, h) = (dims.batch as nat, dims.len as nat, dims.heads as nat);
    &&& value(&inputs.query, env).shape == seq![b, s, h, dims.key_width as nat]
    &&& value(&inputs.key, env).shape == seq![b, s, h, dims.key_width as nat]
    &&& value(&inputs.value, env).shape == seq![b, s, h, dims.value_width as nat]
    &&& value(&inputs.decay, env).shape == seq![b, s, h]
    &&& value(&inputs.beta, env).shape == seq![b, s, h]
}

/// The inputs do not depend on a scan around them.
pub open spec fn are_closed(inputs: &DeltaInputs) -> bool {
    &&& graph::closed(&inputs.query)
    &&& graph::closed(&inputs.key)
    &&& graph::closed(&inputs.value)
    &&& graph::closed(&inputs.decay)
    &&& graph::closed(&inputs.beta)
}

/// The inputs `part` are the `len` positions of `whole` from `off` on.
pub open spec fn is_part<E>(
    part: &DeltaInputs,
    inner: World<E>,
    whole: &DeltaInputs,
    env: World<E>,
    off: int,
    len: nat,
) -> bool {
    &&& inner.arithmetic == env.arithmetic
    &&& value(&part.query, inner) == narrowed(value(&whole.query, env), 1, off, len)
    &&& value(&part.key, inner) == narrowed(value(&whole.key, env), 1, off, len)
    &&& value(&part.value, inner) == narrowed(value(&whole.value, env), 1, off, len)
    &&& value(&part.decay, inner) == narrowed(value(&whole.decay, env), 1, off, len)
    &&& value(&part.beta, inner) == narrowed(value(&whole.beta, env), 1, off, len)
}

/// A tensor of four dimensions at one position: in the part and in the whole.
proof fn lemma_row_of_part<E>(
    p: Rc<Node>,
    pe: World<E>,
    w: Rc<Node>,
    we: World<E>,
    off: int,
    len: nat,
)
    requires
        pe.arithmetic == we.arithmetic,
        value(&w, we).shape.len() >= 3,
        value(&p, pe) == narrowed(value(&w, we), 1, off, len),
        0 <= off,
        off + len <= value(&w, we).shape[1],
        0 <= pe.step < len,
        we.step == off + pe.step,
    ensures
        value(&current(&by_head(&p)), pe) == value(&current(&by_head(&w)), we),
{
    broadcast use meaning::group_value;

    let a = we.arithmetic;
    let x = value(&w, we);
    lemma_turned_part(x, off, len, a.single, a);
    meaning::lemma_part_of_part(formatted(transposed(x, 1, 2), a.single, a), 2, off, len, pe.step, 1);
}

/// A tensor of three dimensions at one position: in the part and in the whole.
proof fn lemma_number_of_part<E>(
    p: Rc<Node>,
    pe: World<E>,
    w: Rc<Node>,
    we: World<E>,
    off: int,
    len: nat,
)
    requires
        pe.arithmetic == we.arithmetic,
        value(&w, we).shape.len() == 3,
        value(&p, pe) == narrowed(value(&w, we), 1, off, len),
        0 <= off,
        off + len <= value(&w, we).shape[1],
        0 <= pe.step < len,
        we.step == off + pe.step,
    ensures
        value(&current(&unsqueeze(&by_head(&p), 3)), pe) == value(
            &current(&unsqueeze(&by_head(&w), 3)),
            we,
        ),
        value(&current(&unsqueeze(&apply(SameShape::Exp, &by_head(&p)), 3)), pe) == value(
            &current(&unsqueeze(&apply(SameShape::Exp, &by_head(&w)), 3)),
            we,
        ),
{
    broadcast use meaning::group_value;

    let a = we.arithmetic;
    let x = value(&w, we);
    lemma_turned_part(x, off, len, a.single, a);
    let t = formatted(transposed(x, 1, 2), a.single, a);
    lemma_unsqueezed_part(t, off, len);
    meaning::lemma_part_of_part(unsqueezed(t, 3), 2, off, len, pe.step, 1);
    let f = |e: E| (a.apply)(SameShape::Exp, e);
    meaning::lemma_mapped_part(t, 2, off, len, f);
    lemma_unsqueezed_part(mapped(t, f), off, len);
    meaning::lemma_part_of_part(unsqueezed(mapped(t, f), 3), 2, off, len, pe.step, 1);
}

/// The query of one position: in the part and in the whole.
proof fn lemma_query_of_part<E>(
    p: Rc<Node>,
    pe: World<E>,
    w: Rc<Node>,
    we: World<E>,
    off: int,
    len: nat,
    width: usize,
)
    requires
        pe.arithmetic == we.arithmetic,
        value(&w, we).shape.len() == 4,
        value(&p, pe) == narrowed(value(&w, we), 1, off, len),
        0 <= off,
        off + len <= value(&w, we).shape[1],
        0 <= pe.step < len,
        we.step == off + pe.step,
    ensures
        value(&current(&scaled_query(&p, width)), pe) == value(
            &current(&scaled_query(&w, width)),
            we,
        ),
        value(&current(&by_head(&l2_norm(&p))), pe) == value(
            &current(&by_head(&l2_norm(&w))),
            we,
        ),
{
    broadcast use meaning::group_value;

    let a = we.arithmetic;
    let x = value(&w, we);
    lemma_l2_norm(w, we);
    lemma_l2_norm(p, pe);
    lemma_unit_rows(x, off, len, a);
    lemma_row_of_part(l2_norm(&p), pe, l2_norm(&w), we, off, len);
    let u = unit_rows(x, a);
    let t = transposed(u, 1, 2);
    lemma_turned_part(u, off, len, u.format, a);
    let f = |e: E| (a.times)(e, Scalar::InvSqrt(width));
    meaning::lemma_mapped_part(t, 2, off, len, f);
    lemma_formatted_part(mapped(t, f), 2, off, len, a.single, a);
    meaning::lemma_part_of_part(formatted(mapped(t, f), a.single, a), 2, off, len, pe.step, 1);
}

/// What a step answers.
#[verifier::inline]
pub open spec fn answer(inputs: &DeltaInputs, width: usize) -> Rc<Node> {
    pair(
        Pairwise::MatMul,
        &current(&scaled_query(&inputs.query, width)),
        &updated(inputs),
    )
}

/// A step of the part is a step of the whole.
proof fn lemma_step_of_part<E>(
    part: &DeltaInputs,
    inner: World<E>,
    whole: &DeltaInputs,
    env: World<E>,
    dims: DeltaDims,
    off: int,
    len: nat,
    k: int,
    carry: Tensor<E>,
)
    requires
        are_closed(part),
        are_closed(whole),
        have_dims(whole, env, dims),
        is_part(part, inner, whole, env, off, len),
        0 <= off,
        off + len <= dims.len,
        0 <= k < len,
    ensures
        value(&updated(part), inner.in_step(k, carry)) == value(
            &updated(whole),
            env.in_step(off + k, carry),
        ),
        value(&answer(part, dims.key_width), inner.in_step(k, carry)) == value(
            &answer(whole, dims.key_width),
            env.in_step(off + k, carry),
        ),
{
    let pe = inner.in_step(k, carry);
    let we = env.in_step(off + k, carry);
    meaning::lemma_closed(&part.query, inner, k, carry);
    meaning::lemma_closed(&part.key, inner, k, carry);
    meaning::lemma_closed(&part.value, inner, k, carry);
    meaning::lemma_closed(&part.decay, inner, k, carry);
    meaning::lemma_closed(&part.beta, inner, k, carry);
    meaning::lemma_closed(&whole.query, env, off + k, carry);
    meaning::lemma_closed(&whole.key, env, off + k, carry);
    meaning::lemma_closed(&whole.value, env, off + k, carry);
    meaning::lemma_closed(&whole.decay, env, off + k, carry);
    meaning::lemma_closed(&whole.beta, env, off + k, carry);
    lemma_query_of_part(part.query, pe, whole.query, we, off, len, dims.key_width);
    lemma_query_of_part(part.key, pe, whole.key, we, off, len, dims.key_width);
    lemma_row_of_part(part.value, pe, whole.value, we, off, len);
    lemma_number_of_part(part.decay, pe, whole.decay, we, off, len);
    lemma_number_of_part(part.beta, pe, whole.beta, we, off, len);
    assert(value(&current_key(part), pe) == value(&current_key(whole), we));
    assert(value(&decayed(part), pe) == value(&decayed(whole), we)) by {
        broadcast use meaning::group_value;

    }
    let (pk, wk) = (current_key(part), current_key(whole));
    let (ph, wh) = (decayed(part), decayed(whole));
    assert(value(&correction(part, &pk, &ph), pe) == value(&correction(whole, &wk, &wh), we)) by {
        broadcast use meaning::group_value;

    }
    let (pc, wc) = (correction(part, &pk, &ph), correction(whole, &wk, &wh));
    assert(value(&updated(part), pe) == value(&updated(whole), we)) by {
        broadcast use meaning::group_value;

        assert(value(&pair(Pairwise::MatMul, &transpose(&pk, 2, 3), &pc), pe) == value(
            &pair(Pairwise::MatMul, &transpose(&wk, 2, 3), &wc),
            we,
        ));
    }
    assert(value(&answer(part, dims.key_width), pe) == value(&answer(whole, dims.key_width), we))
        by {
        broadcast use meaning::group_value;

    }
}

/// A step keeps the shape and the format of the matrices, and answers with one value per head.
pub proof fn lemma_step_shape<E>(
    inputs: &DeltaInputs,
    env: World<E>,
    dims: DeltaDims,
    k: int,
    carry: Tensor<E>,
)
    requires
        are_closed(inputs),
        have_dims(inputs, env, dims),
        0 <= k < dims.len,
        carry.shape == delta::state_shape(dims),
        carry.format == env.arithmetic.single,
    ensures
        value(&updated(inputs), env.in_step(k, carry)).shape == delta::state_shape(dims),
        value(&updated(inputs), env.in_step(k, carry)).format == env.arithmetic.single,
        value(&answer(inputs, dims.key_width), env.in_step(k, carry)).shape == seq![
            dims.batch as nat,
            dims.heads as nat,
            1,
            dims.value_width as nat,
        ],
        value(&answer(inputs, dims.key_width), env.in_step(k, carry)).format
            == env.arithmetic.single,
{
    broadcast use meaning::group_value;

    let e = env.in_step(k, carry);
    let (b, s, h) = (dims.batch as nat, dims.len as nat, dims.heads as nat);
    let st = delta::state_shape(dims);
    let a = env.arithmetic;
    meaning::lemma_closed(&inputs.query, env, k, carry);
    meaning::lemma_closed(&inputs.decay, env, k, carry);
    let factor = current(&unsqueeze(&apply(SameShape::Exp, &by_head(&inputs.decay)), 3));
    assert(value(&factor, e).shape =~= seq![b, h, 1, 1]) by {
        let x = value(&inputs.decay, env);
        assert(transposed(x, 1, 2).shape =~= seq![b, h, s]);
        assert(seq![b, h, s].insert(3, 1) =~= seq![b, h, s, 1]);
    }
    shapes::lemma_broadcast4(st, seq![b, h, 1, 1]);
    assert(value(&decayed(inputs), e).shape == st);
    assert(value(&updated(inputs), e).shape == st);
    let query = current(&scaled_query(&inputs.query, dims.key_width));
    let x = value(&inputs.query, env);
    lemma_l2_norm(inputs.query, e);
    lemma_unit_rows(x, 0, s, a);
    assert(value(&query, e).shape =~= seq![b, h, 1, dims.key_width as nat]) by {
        assert(transposed(unit_rows(x, a), 1, 2).shape =~= seq![b, h, s, dims.key_width as nat]);
    }
    assert(value(&answer(inputs, dims.key_width), e).shape =~= seq![
        b,
        h,
        1,
        dims.value_width as nat,
    ]);
}

/// The rule on `inputs` with the parts taken out of it that the proofs need.
#[verifier::inline]
spec fn rule(inputs: &DeltaInputs, dims: DeltaDims, kept: bool) -> Rc<Scan> {
    torch_recurrent_gated_delta_rule(inputs, dims, kept)
}

/// The matrices have their shape and format after each step.
proof fn lemma_state_shape<E>(
    inputs: &DeltaInputs,
    env: World<E>,
    dims: DeltaDims,
    kept: bool,
    k: nat,
)
    requires
        are_closed(inputs),
        have_dims(inputs, env, dims),
        k <= dims.len,
        kept ==> (env.leaf)(Slot::RecurrentState).shape == delta::state_shape(dims),
    ensures
        state_after(rule(inputs, dims, kept), k, env).shape == delta::state_shape(dims),
        state_after(rule(inputs, dims, kept), k, env).format == env.arithmetic.single,
    decreases k,
{
    let r = rule(inputs, dims, kept);
    if k == 0 {
        broadcast use meaning::group_value;

        meaning::lemma_state_first(r, env);
        assert(r.first == initial(dims, kept));
    } else {
        let j = (k - 1) as nat;
        lemma_state_shape(inputs, env, dims, kept, j);
        meaning::lemma_state_next(r, j, env);
        lemma_step_shape(inputs, env, dims, j as int, state_after(r, j, env));
    }
}

/// The first piece goes through the states of the whole.
proof fn lemma_first_piece<E>(
    part: &DeltaInputs,
    inner: World<E>,
    whole: &DeltaInputs,
    env: World<E>,
    dims: DeltaDims,
    m: usize,
    kept: bool,
    k: nat,
)
    requires
        are_closed(part),
        are_closed(whole),
        have_dims(whole, env, dims),
        is_part(part, inner, whole, env, 0, m as nat),
        k <= m <= dims.len,
        kept ==> (inner.leaf)(Slot::RecurrentState) == (env.leaf)(Slot::RecurrentState),
    ensures
        state_after(rule(part, DeltaDims { len: m, ..dims }, kept), k, inner) == state_after(
            rule(whole, dims, kept),
            k,
            env,
        ),
    decreases k,
{
    let p = rule(part, DeltaDims { len: m, ..dims }, kept);
    let w = rule(whole, dims, kept);
    if k == 0 {
        broadcast use meaning::group_value;

        meaning::lemma_state_first(p, inner);
        meaning::lemma_state_first(w, env);
        assert(p.first == initial(dims, kept));
        assert(w.first == initial(dims, kept));
    } else {
        let j = (k - 1) as nat;
        lemma_first_piece(part, inner, whole, env, dims, m, kept, j);
        meaning::lemma_state_next(p, j, inner);
        meaning::lemma_state_next(w, j, env);
        let carry = state_after(w, j, env);
        lemma_step_of_part(part, inner, whole, env, dims, 0, m as nat, j as int, carry);
    }
}

/// The second piece goes on through the states of the whole.
proof fn lemma_second_piece<E>(
    part: &DeltaInputs,
    inner: World<E>,
    whole: &DeltaInputs,
    env: World<E>,
    dims: DeltaDims,
    m: usize,
    kept: bool,
    k: nat,
)
    requires
        are_closed(part),
        are_closed(whole),
        have_dims(whole, env, dims),
        m <= dims.len,
        is_part(part, inner, whole, env, m as int, (dims.len - m) as nat),
        k <= dims.len - m,
        (inner.leaf)(Slot::RecurrentState) == state_after(rule(whole, dims, kept), m as nat, env),
        (inner.leaf)(Slot::RecurrentState).format == env.arithmetic.single,
    ensures
        state_after(
            rule(part, DeltaDims { len: (dims.len - m) as usize, ..dims }, true),
            k,
            inner,
        ) == state_after(rule(whole, dims, kept), m as nat + k, env),
    decreases k,
{
    let p = rule(part, DeltaDims { len: (dims.len - m) as usize, ..dims }, true);
    let w = rule(whole, dims, kept);
    if k == 0 {
        broadcast use meaning::group_value;

        meaning::lemma_state_first(p, inner);
        assert(p.first == initial(dims, true));
    } else {
        let j = (k - 1) as nat;
        lemma_second_piece(part, inner, whole, env, dims, m, kept, j);
        meaning::lemma_state_next(p, j, inner);
        meaning::lemma_state_next(w, m as nat + j, env);
        let carry = state_after(w, m as nat + j, env);
        lemma_step_of_part(
            part,
            inner,
            whole,
            env,
            dims,
            m as int,
            (dims.len - m) as nat,
            j as int,
            carry,
        );
    }
}

/// Items laid behind one another, in two pieces, and turned around.
proof fn lemma_laid_pieces<E>(
    a: Seq<Tensor<E>>,
    b: Seq<Tensor<E>>,
    d: Seq<nat>,
    f: int,
)
    requires
        a.len() > 0,
        b.len() > 0,
        d.len() == 4,
        d[2] == 1,
        forall|i: int| 0 <= i < a.len() ==> (#[trigger] a[i]).shape == d && a[i].format == f,
        forall|i: int| 0 <= i < b.len() ==> (#[trigger] b[i]).shape == d && b[i].format == f,
    ensures
        transposed(laid(a + b, 2), 1, 2) == joined(
            transposed(laid(a, 2), 1, 2),
            transposed(laid(b, 2), 1, 2),
            1,
        ),
{
    let l = transposed(laid(a + b, 2), 1, 2);
    let (x, y) = (transposed(laid(a, 2), 1, 2), transposed(laid(b, 2), 1, 2));
    let r = joined(x, y, 1);
    assert((a + b)[0] == a[0]);
    assert((a + b).len() * 1 == a.len() + b.len());
    assert(a.len() * 1 == a.len() && b.len() * 1 == b.len());
    assert(laid(a + b, 2).shape =~= d.update(2, a.len() + b.len()));
    assert(laid(a, 2).shape =~= d.update(2, a.len()));
    assert(laid(b, 2).shape =~= d.update(2, b.len()));
    assert(l.shape =~= r.shape);
    assert forall|idx: Seq<int>| #[trigger] within(l.shape, idx) implies (l.at)(idx) == (r.at)(
        idx,
    ) by {
        let i = idx.update(1, idx[2]).update(2, idx[1]);
        assert(within(laid(a + b, 2).shape, i));
        if idx[1] < a.len() {
            assert(within(x.shape, idx));
            assert(within(laid(a, 2).shape, i));
            assert((a + b)[i[2]] == a[i[2]]);
        } else {
            let there = idx.update(1, idx[1] - a.len());
            assert(within(y.shape, there));
            let j = there.update(1, there[2]).update(2, there[1]);
            assert(within(laid(b, 2).shape, j));
            assert(j[2] == i[2] - a.len());
            assert((a + b)[i[2]] == b[j[2]]);
            assert(i.update(2, 0) =~= j.update(2, 0));
        }
    }
    meaning::lemma_equal(l, r);
}

/// The rule can be run in two pieces: on the first positions, and on the others with the matrices
/// that the first piece left. The answers are those of one run over all positions, one piece behind
/// the other, and the matrices in the end are the same.
pub proof fn delta_rule_in_two_pieces<E>(
    whole: &DeltaInputs,
    env: World<E>,
    first: &DeltaInputs,
    first_env: World<E>,
    second: &DeltaInputs,
    second_env: World<E>,
    dims: DeltaDims,
    m: usize,
    kept: bool,
)
    requires
        0 < m < dims.len,
        are_closed(whole),
        are_closed(first),
        are_closed(second),
        have_dims(whole, env, dims),
        is_part(first, first_env, whole, env, 0, m as nat),
        is_part(second, second_env, whole, env, m as int, (dims.len - m) as nat),
        kept ==> {
            &&& (env.leaf)(Slot::RecurrentState).shape == delta::state_shape(dims)
            &&& (first_env.leaf)(Slot::RecurrentState) == (env.leaf)(Slot::RecurrentState)
        },
        (second_env.leaf)(Slot::RecurrentState) == value(
            &scan_state(
                &torch_recurrent_gated_delta_rule(first, DeltaDims { len: m, ..dims }, kept),
            ),
            first_env,
        ),
    ensures
        ({
            let all = torch_recurrent_gated_delta_rule(whole, dims, kept);
            let one = torch_recurrent_gated_delta_rule(
                first,
                DeltaDims { len: m, ..dims },
                kept,
            );
            let two = torch_recurrent_gated_delta_rule(
                second,
                DeltaDims { len: (dims.len - m) as usize, ..dims },
                true,
            );
            &&& value(&answers(&all), env) == joined(
                value(&answers(&one), first_env),
                value(&answers(&two), second_env),
                1,
            )
            &&& value(&scan_state(&all), env) == value(&scan_state(&two), second_env)
            &&& value(&answers(&one), first_env).shape == seq![
                dims.batch as nat,
                m as nat,
                dims.heads as nat,
                dims.value_width as nat,
            ]
            &&& value(&answers(&two), second_env).shape == seq![
                dims.batch as nat,
                (dims.len - m) as nat,
                dims.heads as nat,
                dims.value_width as nat,
            ]
            &&& value(&answers(&one), first_env).format == env.arithmetic.single
            &&& value(&answers(&two), second_env).format == env.arithmetic.single
        }),
{
    let n = (dims.len - m) as usize;
    let all = rule(whole, dims, kept);
    let one = rule(first, DeltaDims { len: m, ..dims }, kept);
    let two = rule(second, DeltaDims { len: n, ..dims }, true);
    meaning::value_of_scan_state(all, env);
    meaning::value_of_scan_state(one, first_env);
    meaning::value_of_scan_state(two, second_env);
    lemma_first_piece(first, first_env, whole, env, dims, m, kept, m as nat);
    lemma_state_shape(whole, env, dims, kept, m as nat);
    lemma_second_piece(second, second_env, whole, env, dims, m, kept, n as nat);
    meaning::lemma_scanned(all, env);
    meaning::lemma_scanned(one, first_env);
    meaning::lemma_scanned(two, second_env);
    let (a, b, c) = (scanned(one, first_env), scanned(two, second_env), scanned(all, env));
    let d = seq![dims.batch as nat, dims.heads as nat, 1, dims.value_width as nat];
    let f = env.arithmetic.single;
    assert forall|i: int| 0 <= i < dims.len implies (#[trigger] c[i]).shape == d && c[i].format
        == f by {
        lemma_state_shape(whole, env, dims, kept, i as nat);
        lemma_step_shape(whole, env, dims, i, state_after(all, i as nat, env));
    }
    assert forall|i: int| 0 <= i < m implies #[trigger] a[i] == c[i] by {
        lemma_first_piece(first, first_env, whole, env, dims, m, kept, i as nat);
        let carry = state_after(all, i as nat, env);
        lemma_step_of_part(first, first_env, whole, env, dims, 0, m as nat, i, carry);
    }
    assert forall|i: int| 0 <= i < n implies #[trigger] b[i] == c[m + i] by {
        lemma_second_piece(second, second_env, whole, env, dims, m, kept, i as nat);
        let carry = state_after(all, (m + i) as nat, env);
        lemma_step_of_part(second, second_env, whole, env, dims, m as int, n as nat, i, carry);
    }
    assert(c =~= a + b);
    lemma_laid_pieces(a, b, d, f);
    meaning::value_of_scan_items(all, env);
    meaning::value_of_scan_items(one, first_env);
    meaning::value_of_scan_items(two, second_env);
    meaning::value_of_transpose(scan_items(&all), 1, 2, env);
    meaning::value_of_transpose(scan_items(&one), 1, 2, first_env);
    meaning::value_of_transpose(scan_items(&two), 1, 2, second_env);
    assert(a.len() * 1 == m && b.len() * 1 == n);
    assert(laid(a, 2).shape =~= d.update(2, m as nat)) by {
        assert(a[0] == c[0]);
    }
    assert(laid(b, 2).shape =~= d.update(2, n as nat)) by {
        assert(b[0] == c[m + 0]);
    }
    assert(value(&answers(&one), first_env).shape =~= seq![d[0], m as nat, d[1], d[3]]);
    assert(value(&answers(&two), second_env).shape =~= seq![d[0], n as nat, d[1], d[3]]);
}

}
