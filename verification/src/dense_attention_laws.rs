//! What attention of the dense model computes, element by element: which projection, norm and table
//! goes into queries, keys, values and gates, and what a head makes of them.
use crate::attention::gated;
use crate::attention_laws;
use crate::attention_laws::{
    attended_to, column_of_head, mask_row, row_of, rows_of_head, table_row, tables_reach,
};
use crate::graph::{Node, Pairwise, Projection, SameShape, Slot};
use crate::layer_laws;
use crate::layer_laws::{converted, dense_norm, lemma_broadcast_row};
use crate::meaning;
use crate::meaning::{line, reshaped, value, within, Tensor, World};
use crate::ops;
use crate::pass::Step;
use crate::qwen3_5::{in_heads, normed, rotated, AttentionState};
use std::rc::Rc;
use vstd::prelude::*;

verus! {

/// A row with the rotary embedding of a position.
pub open spec fn turned<E>(env: World<E>, row: Seq<E>, position: int) -> Seq<E> {
    let a = env.arithmetic;
    let (cos, sin) = ((env.leaf)(Slot::Cos), (env.leaf)(Slot::Sin));
    Seq::new(
        row.len(),
        |k: int|
            (a.rotate)(
                row,
                table_row(cos, position, cos.format, a),
                table_row(sin, position, sin.format, a),
            )[k],
    )
}

/// `width` elements of a projection of `row` from `start` on.
pub open spec fn part_of<E>(
    env: World<E>,
    map: Projection,
    row: Seq<E>,
    start: int,
    width: nat,
) -> Seq<E> {
    Seq::new(width, |k: int| (env.arithmetic.linear)(map, row)[start + k])
}

/// A part of a projection of a row of the format `f`, normalised with the weights in a slot.
pub open spec fn normed_part<E>(
    env: World<E>,
    map: Projection,
    norm: Slot,
    eps: u64,
    row: Seq<E>,
    start: int,
    width: nat,
    f: int,
) -> Seq<E> {
    let weight = (env.leaf)(norm);
    dense_norm(
        env.arithmetic,
        eps,
        line(weight, 0, seq![0]),
        weight.format,
        part_of(env, map, row, start, width),
        f,
    )
}

/// The tensors behind an attention layer and its input have the sizes that it expects, `past`
/// positions being cached.
pub open spec fn suits<E>(
    w: AttentionState,
    x: Tensor<E>,
    step: Step,
    env: World<E>,
    past: nat,
) -> bool {
    let a = env.arithmetic;
    let (h, g, d) = (
        w.dims.num_heads as nat,
        w.dims.num_kv_heads as nat,
        w.dims.head_dim as nat,
    );
    &&& w.dims.fits()
    &&& g * w.dims.num_kv_groups as nat == h
    &&& x.shape.len() == 3
    &&& x.shape[0] == step.batch
    &&& x.shape[1] == step.len
    &&& (a.width)(Projection::Query) == h * (2 * d)
    &&& (a.width)(Projection::Key) == g * d
    &&& (a.width)(Projection::Value) == g * d
    &&& (env.leaf)(Slot::QueryNorm).shape == seq![d]
    &&& (env.leaf)(Slot::KeyNorm).shape == seq![d]
    &&& tables_reach(env, step)
    &&& if w.cached {
        &&& (env.leaf)(Slot::CachedKeys).shape == seq![step.batch as nat, g, past, d]
        &&& (env.leaf)(Slot::CachedValues).shape == seq![step.batch as nat, g, past, d]
    } else {
        past == 0
    }
    &&& step.masked ==> {
        let mask = (env.leaf)(Slot::Mask).shape;
        &&& mask.len() == 4
        &&& mask[0] == 1 || mask[0] == step.batch
        &&& mask[1] == 1 || mask[1] == h
        &&& mask[2] == 1 || mask[2] == step.len
        &&& mask[3] == 1 || mask[3] == past + step.len
    }
}

/// A projection split into heads.
proof fn lemma_split<E>(
    map: Projection,
    x: Rc<Node>,
    step: Step,
    heads: usize,
    width: usize,
    env: World<E>,
    idx: Seq<int>,
)
    requires
        value(&x, env).shape.len() == 3,
        value(&x, env).shape[0] == step.batch,
        value(&x, env).shape[1] == step.len,
        (env.arithmetic.width)(map) == heads as nat * width as nat,
        within(seq![step.batch as nat, step.len as nat, heads as nat, width as nat], idx),
    ensures
        (value(&in_heads(&ops::linear(map, &x), step, heads, width), env).at)(idx) == (
        env.arithmetic.linear)(map, row_of(value(&x, env), idx[0], idx[1]))[idx[2] * width
            + idx[3]],
{
    broadcast use meaning::group_value;

    let (b, s, h, d) = (step.batch as nat, step.len as nat, heads as nat, width as nat);
    let t = value(&x, env);
    let p = value(&ops::linear(map, &x), env);
    assert(p.shape =~= seq![b, s, h * d]);
    attention_laws::lemma_in_heads(p, b, s, h, d, idx);
    let at = seq![idx[0], idx[1], idx[2] * d + idx[3]];
    assert(line(t, 2, at) =~= row_of(t, idx[0], idx[1])) by {
        assert forall|k: int| 0 <= k < t.shape[2] implies #[trigger] at.update(2, k) == seq![
            idx[0],
            idx[1],
            k,
        ] by {
            assert(at.update(2, k) =~= seq![idx[0], idx[1], k]);
        }
    }
}

/// Queries or keys: parts of a projection, normalised, heads before positions.
proof fn lemma_normed_part<E>(
    map: Projection,
    norm: Slot,
    eps: u64,
    x: Rc<Node>,
    step: Step,
    heads: usize,
    room: usize,
    width: usize,
    env: World<E>,
    idx: Seq<int>,
)
    requires
        norm != Slot::Carry,
        value(&x, env).shape.len() == 3,
        value(&x, env).shape[0] == step.batch,
        value(&x, env).shape[1] == step.len,
        width <= room,
        (env.arithmetic.width)(map) == heads as nat * room as nat,
        (env.leaf)(norm).shape == seq![width as nat],
        within(seq![step.batch as nat, heads as nat, step.len as nat, width as nat], idx),
    ensures
        ({
            let part = ops::narrow(
                &in_heads(&ops::linear(map, &x), step, heads, room),
                3,
                0,
                width,
            );
            let r = value(&ops::transpose(&normed(norm, eps, &part), 1, 2), env);
            &&& r.shape == seq![step.batch as nat, heads as nat, step.len as nat, width as nat]
            &&& r.format == value(&x, env).format
            &&& (r.at)(idx) == normed_part(
                env,
                map,
                norm,
                eps,
                row_of(value(&x, env), idx[0], idx[2]),
                idx[1] * room,
                width as nat,
                value(&x, env).format,
            )[idx[3]]
        }),
{
    broadcast use meaning::group_value;

    let (b, s, h, d) = (step.batch as nat, step.len as nat, heads as nat, width as nat);
    let split = in_heads(&ops::linear(map, &x), step, heads, room);
    let part = ops::narrow(&split, 3, 0, width);
    let t = value(&part, env);
    let full = seq![b, s, h, d];
    assert(t.shape =~= full);
    let turned_full = seq![b, h, s, d];
    assert(0 <= idx[0] < turned_full[0] && 0 <= idx[1] < turned_full[1] && 0 <= idx[2]
        < turned_full[2] && 0 <= idx[3] < turned_full[3]);
    let at = seq![idx[0], idx[2], idx[1], idx[3]];
    assert(within(full, at));
    assert(idx.update(1, idx[2]).update(2, idx[1]) =~= at);
    layer_laws::dense_norm_of_rows(norm, eps, part, env, at);
    let row = row_of(value(&x, env), idx[0], idx[2]);
    assert(line(t, 3, at) =~= part_of(env, map, row, idx[1] * room, d)) by {
        assert forall|k: int| 0 <= k < d implies (t.at)(#[trigger] at.update(3, k)) == (
        env.arithmetic.linear)(map, row)[idx[1] * room + k] by {
            let i = at.update(3, k);
            assert(within(full, i));
            assert(i.update(3, i[3] + 0) =~= i);
            assert(within(seq![b, s, h, room as nat], i));
            lemma_split(map, x, step, heads, room, env, i);
        }
    }
    let r = value(&ops::transpose(&normed(norm, eps, &part), 1, 2), env);
    assert(r.shape =~= turned_full);
}

/// Narrowing to all that there is changes no element.
proof fn lemma_whole<E>(x: Rc<Node>, step: Step, heads: usize, width: usize, env: World<E>)
    ensures
        ({
            let whole = in_heads(&x, step, heads, width);
            value(&ops::narrow(&whole, 3, 0, width), env) == value(&whole, env)
        }),
{
    broadcast use meaning::group_value;

    let whole = value(&in_heads(&x, step, heads, width), env);
    let part = meaning::narrowed(whole, 3, 0, width as nat);
    assert(part.shape =~= whole.shape);
    assert forall|idx: Seq<int>| #[trigger] within(part.shape, idx) implies (part.at)(idx) == (
    whole.at)(idx) by {
        assert(idx.update(3, idx[3] + 0) =~= idx);
    }
    meaning::lemma_equal(part, whole);
}

/// The same formula of equal values.
proof fn lemma_same_norm<E>(norm: Slot, eps: u64, x: Rc<Node>, y: Rc<Node>, env: World<E>)
    requires
        value(&x, env) == value(&y, env),
    ensures
        value(&ops::transpose(&normed(norm, eps, &x), 1, 2), env) == value(
            &ops::transpose(&normed(norm, eps, &y), 1, 2),
            env,
        ),
{
    broadcast use meaning::group_value;

}

/// The queries before the rotary embedding: each head of each position is a part of the query
/// projection of that position, normalised; its gate stands behind it.
pub proof fn queries_are_projected<E>(
    w: AttentionState,
    x: Rc<Node>,
    step: Step,
    env: World<E>,
    past: nat,
    idx: Seq<int>,
)
    requires
        suits(w, value(&x, env), step, env, past),
        within(
            seq![
                step.batch as nat,
                w.dims.num_heads as nat,
                step.len as nat,
                w.dims.head_dim as nat,
            ],
            idx,
        ),
    ensures
        ({
            let d = w.dims.head_dim;
            let row = row_of(value(&x, env), idx[0], idx[2]);
            let r = value(&w.query(x, step), env);
            let gates = value(&w.gate(x, step), env);
            &&& r.shape == seq![
                step.batch as nat,
                w.dims.num_heads as nat,
                step.len as nat,
                d as nat,
            ]
            &&& r.format == value(&x, env).format
            &&& (r.at)(idx) == normed_part(
                env,
                Projection::Query,
                Slot::QueryNorm,
                w.query_eps,
                row,
                idx[1] * (2 * d),
                d as nat,
                value(&x, env).format,
            )[idx[3]]
            &&& gates.format == value(&x, env).format
            &&& gates.shape == seq![
                step.batch as nat,
                step.len as nat,
                w.dims.num_heads as nat,
                d as nat,
            ]
            &&& (gates.at)(seq![idx[0], idx[2], idx[1], idx[3]]) == (env.arithmetic.linear)(
                Projection::Query,
                row,
            )[idx[1] * (2 * d) + d + idx[3]]
        }),
{
    broadcast use meaning::group_value;

    let (b, s, h, d) = (
        step.batch as nat,
        step.len as nat,
        w.dims.num_heads as nat,
        w.dims.head_dim as nat,
    );
    let room = (w.dims.head_dim * 2) as usize;
    lemma_normed_part(
        Projection::Query,
        Slot::QueryNorm,
        w.query_eps,
        x,
        step,
        w.dims.num_heads,
        room,
        w.dims.head_dim,
        env,
        idx,
    );
    let turned_full = seq![b, h, s, d];
    assert(0 <= idx[0] < turned_full[0] && 0 <= idx[1] < turned_full[1] && 0 <= idx[2]
        < turned_full[2] && 0 <= idx[3] < turned_full[3]);
    let at = seq![idx[0], idx[2], idx[1], idx[3]];
    let gates = value(&w.gate(x, step), env);
    assert(gates.shape =~= seq![b, s, h, d]);
    assert(within(gates.shape, at));
    let i = at.update(3, at[3] + d);
    assert(within(seq![b, s, h, room as nat], i));
    lemma_split(Projection::Query, x, step, w.dims.num_heads, room, env, i);
}

/// The keys before the rotary embedding: each head of each position is a part of the key projection
/// of that position, normalised.
pub proof fn keys_are_projected<E>(
    w: AttentionState,
    x: Rc<Node>,
    step: Step,
    env: World<E>,
    past: nat,
    idx: Seq<int>,
)
    requires
        suits(w, value(&x, env), step, env, past),
        within(
            seq![
                step.batch as nat,
                w.dims.num_kv_heads as nat,
                step.len as nat,
                w.dims.head_dim as nat,
            ],
            idx,
        ),
    ensures
        ({
            let d = w.dims.head_dim;
            let r = value(&w.key(x, step), env);
            &&& r.shape == seq![
                step.batch as nat,
                w.dims.num_kv_heads as nat,
                step.len as nat,
                d as nat,
            ]
            &&& (r.at)(idx) == normed_part(
                env,
                Projection::Key,
                Slot::KeyNorm,
                w.key_eps,
                row_of(value(&x, env), idx[0], idx[2]),
                idx[1] * d,
                d as nat,
                value(&x, env).format,
            )[idx[3]]
        }),
{
    lemma_normed_part(
        Projection::Key,
        Slot::KeyNorm,
        w.key_eps,
        x,
        step,
        w.dims.num_kv_heads,
        w.dims.head_dim,
        w.dims.head_dim,
        env,
        idx,
    );
    let split = in_heads(
        &ops::linear(Projection::Key, &x),
        step,
        w.dims.num_kv_heads,
        w.dims.head_dim,
    );
    let part = ops::narrow(&split, 3, 0, w.dims.head_dim);
    lemma_whole(
        ops::linear(Projection::Key, &x),
        step,
        w.dims.num_kv_heads,
        w.dims.head_dim,
        env,
    );
    lemma_same_norm(Slot::KeyNorm, w.key_eps, part, split, env);
}

/// The row of a table that was cut to the positions of a step.
proof fn lemma_table<E>(table: Slot, step: Step, env: World<E>, i: int)
    requires
        table != Slot::Carry,
        (env.leaf)(table).shape.len() == 2,
        step.offset + step.len <= (env.leaf)(table).shape[0],
        0 <= i < step.len,
    ensures
        line(
            value(&ops::narrow(&ops::leaf(table), 0, step.offset, step.len), env),
            1,
            seq![i, 0],
        ) == table_row(
            (env.leaf)(table),
            step.offset + i,
            (env.leaf)(table).format,
            env.arithmetic,
        ),
{
    broadcast use meaning::group_value;

    let t = (env.leaf)(table);
    let cut = meaning::narrowed(t, 0, step.offset as int, step.len as nat);
    let first = seq![i, 0];
    assert(line(cut, 1, first) =~= table_row(t, step.offset + i, t.format, env.arithmetic)) by {
        assert forall|k: int| 0 <= k < t.shape[1] implies (cut.at)(#[trigger] first.update(1, k))
            == (t.at)(seq![step.offset + i, k]) by {
            let at = first.update(1, k);
            assert(at =~= seq![i, k]);
            assert(within(cut.shape, at));
            assert(at.update(0, at[0] + step.offset) =~= seq![step.offset + i, k]);
        }
    }
}

/// The rotary embedding turns each row by the angles of its own position, counted from the first
/// position of the context.
pub proof fn rows_are_turned_by_their_position<E>(
    x: Rc<Node>,
    step: Step,
    env: World<E>,
    idx: Seq<int>,
)
    requires
        tables_reach(env, step),
        value(&x, env).shape.len() == 4,
        value(&x, env).shape[2] == step.len,
        within(value(&x, env).shape, idx),
    ensures
        ({
            let r = value(&rotated(&x, step), env);
            &&& r.shape == value(&x, env).shape
            &&& r.format == value(&x, env).format
            &&& (r.at)(idx) == turned(
                env,
                line(value(&x, env), 3, idx),
                step.offset + idx[2],
            )[idx[3]]
        }),
{
    broadcast use meaning::group_value;

    lemma_table(Slot::Cos, step, env, idx[2]);
    lemma_table(Slot::Sin, step, env, idx[2]);
    assert(0 <= idx[3] < value(&x, env).shape[3]);
}

/// The keys that an attention layer leaves behind: those that were cached, and behind them the
/// projected keys of the step, each turned by its position.
#[verifier::rlimit(40)]
pub proof fn kept_keys<E>(
    w: AttentionState,
    x: Rc<Node>,
    step: Step,
    env: World<E>,
    past: nat,
    idx: Seq<int>,
)
    requires
        suits(w, value(&x, env), step, env, past),
        step.len > 0,
        within(
            seq![
                step.batch as nat,
                w.dims.num_kv_heads as nat,
                past + step.len as nat,
                w.dims.head_dim as nat,
            ],
            idx,
        ),
    ensures
        ({
            let d = w.dims.head_dim;
            let r = value(&w.all_keys(x, step), env);
            let i = idx[2] - past;
            &&& r.shape == seq![
                step.batch as nat,
                w.dims.num_kv_heads as nat,
                past + step.len as nat,
                d as nat,
            ]
            &&& (r.at)(idx) == (if idx[2] < past {
                ((env.leaf)(Slot::CachedKeys).at)(idx)
            } else {
                turned(
                    env,
                    normed_part(
                        env,
                        Projection::Key,
                        Slot::KeyNorm,
                        w.key_eps,
                        row_of(value(&x, env), idx[0], i),
                        idx[1] * d,
                        d as nat,
                        value(&x, env).format,
                    ),
                    step.offset + i,
                )[idx[3]]
            })
        }),
{
    broadcast use meaning::group_value;

    let (b, s, g, d) = (
        step.batch as nat,
        step.len as nat,
        w.dims.num_kv_heads as nat,
        w.dims.head_dim as nat,
    );
    let all = seq![b, g, past + s, d];
    let full = seq![b, g, s, d];
    assert(0 <= idx[0] < all[0] && 0 <= idx[1] < all[1] && 0 <= idx[2] < all[2] && 0 <= idx[3]
        < all[3]);
    let key = value(&w.key(x, step), env);
    let fresh = value(&rotated(&w.key(x, step), step), env);
    let first = idx.update(2, 0);
    assert(within(full, first));
    keys_are_projected(w, x, step, env, past, first);
    let r = value(&w.all_keys(x, step), env);
    assert(r.shape =~= all);
    if idx[2] >= past {
        let i = idx[2] - past;
        let at = idx.update(2, i);
        assert(within(full, at));
        let row = normed_part(
            env,
            Projection::Key,
            Slot::KeyNorm,
            w.key_eps,
            row_of(value(&x, env), idx[0], i),
            idx[1] * w.dims.head_dim,
            d,
            value(&x, env).format,
        );
        assert(line(key, 3, at) =~= row) by {
            assert forall|k: int| 0 <= k < d implies (key.at)(#[trigger] at.update(3, k))
                == row[k] by {
                assert(within(full, at.update(3, k)));
                keys_are_projected(w, x, step, env, past, at.update(3, k));
            }
        }
        rows_are_turned_by_their_position(w.key(x, step), step, env, at);
        if !w.cached {
            assert(at =~= idx);
        }
    }
}

/// The values that an attention layer leaves behind: those that were cached, and behind them the
/// projected values of the step, as they are.
pub proof fn kept_values<E>(
    w: AttentionState,
    x: Rc<Node>,
    step: Step,
    env: World<E>,
    past: nat,
    idx: Seq<int>,
)
    requires
        suits(w, value(&x, env), step, env, past),
        within(
            seq![
                step.batch as nat,
                w.dims.num_kv_heads as nat,
                past + step.len as nat,
                w.dims.head_dim as nat,
            ],
            idx,
        ),
    ensures
        ({
            let d = w.dims.head_dim;
            let r = value(&w.all_values(x, step), env);
            let i = idx[2] - past;
            &&& r.shape == seq![
                step.batch as nat,
                w.dims.num_kv_heads as nat,
                past + step.len as nat,
                d as nat,
            ]
            &&& (r.at)(idx) == (if idx[2] < past {
                ((env.leaf)(Slot::CachedValues).at)(idx)
            } else {
                (env.arithmetic.linear)(
                    Projection::Value,
                    row_of(value(&x, env), idx[0], i),
                )[idx[1] * d + idx[3]]
            })
        }),
{
    broadcast use meaning::group_value;

    let (b, s, g, d) = (
        step.batch as nat,
        step.len as nat,
        w.dims.num_kv_heads as nat,
        w.dims.head_dim as nat,
    );
    let all = seq![b, g, past + s, d];
    assert(0 <= idx[0] < all[0] && 0 <= idx[1] < all[1] && 0 <= idx[2] < all[2] && 0 <= idx[3]
        < all[3]);
    let fresh = value(&w.value(x, step), env);
    assert(fresh.shape =~= seq![b, g, s, d]);
    let r = value(&w.all_values(x, step), env);
    assert(r.shape =~= all);
    if idx[2] >= past {
        let at = idx.update(2, idx[2] - past);
        assert(within(fresh.shape, at));
        let from = at.update(1, at[2]).update(2, at[1]);
        assert(from =~= seq![idx[0], idx[2] - past, idx[1], idx[3]]);
        assert(within(seq![b, s, g, d], from));
        lemma_split(
            Projection::Value,
            x,
            step,
            w.dims.num_kv_heads,
            w.dims.head_dim,
            env,
            from,
        );
        if !w.cached {
            assert(at =~= idx);
        }
    }
}

/// Element `k` of head `hd` at position `j` of sequence `i`, before the output projection: what the
/// head attends to, multiplied by the logistic function of its gate.
pub open spec fn head_output<E>(
    w: AttentionState,
    env: World<E>,
    x: Tensor<E>,
    keys: Tensor<E>,
    values: Tensor<E>,
    step: Step,
    i: int,
    j: int,
    hd: int,
    k: int,
) -> E {
    let a = env.arithmetic;
    let d = w.dims.head_dim;
    let g = hd / w.dims.num_kv_groups as int;
    let mask = (env.leaf)(Slot::Mask);
    let query = normed_part(
        env,
        Projection::Query,
        Slot::QueryNorm,
        w.query_eps,
        row_of(x, i, j),
        hd * (2 * d),
        d as nat,
        x.format,
    );
    let found = attended_to(
        a,
        turned(env, query, step.offset + j),
        rows_of_head(keys, i, g),
        column_of_head(values, i, g, k),
        if step.masked {
            Some(mask_row(mask, mask.format, a, i, hd, j, keys.shape[2]))
        } else {
            None
        },
        d,
    );
    let gate = (a.linear)(Projection::Query, row_of(x, i, j))[hd * (2 * d) + d + k];
    (a.pair)(
        Pairwise::BroadcastMul,
        found,
        converted(
            a,
            a.single,
            x.format,
            (a.apply)(SameShape::Sigmoid, converted(a, x.format, a.single, gate)),
        ),
    )
}

/// Reshaping to the dimensions that are there changes no element.
proof fn lemma_same_shape<E>(t: Tensor<E>, idx: Seq<int>)
    requires
        within(t.shape, idx),
    ensures
        (reshaped(t, t.shape).at)(idx) == (t.at)(idx),
{
    crate::causal_laws::lemma_place(t.shape, idx);
}

/// The gated context of a head, element by element.
#[verifier::spinoff_prover]
#[verifier::rlimit(60)]
proof fn lemma_head_output<E>(
    w: AttentionState,
    x: Rc<Node>,
    step: Step,
    env: World<E>,
    past: nat,
    at: Seq<int>,
)
    requires
        suits(w, value(&x, env), step, env, past),
        within(
            seq![
                step.batch as nat,
                step.len as nat,
                w.dims.num_heads as nat,
                w.dims.head_dim as nat,
            ],
            at,
        ),
    ensures
        ({
            let r = value(&gated(&w.context(x, step), &w.gate(x, step)), env);
            &&& r.shape == seq![
                step.batch as nat,
                step.len as nat,
                w.dims.num_heads as nat,
                w.dims.head_dim as nat,
            ]
            &&& (r.at)(at) == head_output(
                w,
                env,
                value(&x, env),
                value(&w.all_keys(x, step), env),
                value(&w.all_values(x, step), env),
                step,
                at[0],
                at[1],
                at[2],
                at[3],
            )
        }),
{
    broadcast use meaning::group_value;

    let a = env.arithmetic;
    let t = value(&x, env);
    let (b, s, h, g, d) = (
        step.batch as nat,
        step.len as nat,
        w.dims.num_heads as nat,
        w.dims.num_kv_heads as nat,
        w.dims.head_dim as nat,
    );
    let groups = w.dims.num_kv_groups as nat;
    let full = seq![b, s, h, d];
    assert(0 <= at[0] < full[0] && 0 <= at[1] < full[1] && 0 <= at[2] < full[2] && 0 <= at[3]
        < full[3]);
    let idx = seq![at[0], at[2], at[1], at[3]];
    let turned_full = seq![b, h, s, d];
    assert(within(turned_full, idx));
    let query = w.query(x, step);
    let qt = value(&query, env);
    queries_are_projected(w, x, step, env, past, idx);
    let q = value(&rotated(&query, step), env);
    rows_are_turned_by_their_position(query, step, env, idx);
    let keys = value(&w.all_keys(x, step), env);
    let values = value(&w.all_values(x, step), env);
    let hd = at[2];
    assert(g > 0) by (nonlinear_arith)
        requires
            g * groups == h,
            0 <= hd < h,
            g >= 0,
    ;
    let first = seq![0int, 0, 0, 0];
    assert(within(seq![b, g, past + s, d], first));
    kept_keys(w, x, step, env, past, first);
    kept_values(w, x, step, env, past, first);
    let mask = if step.masked {
        Some((env.leaf)(Slot::Mask))
    } else {
        None
    };
    attention_laws::lemma_attended(q, keys, values, mask, w.dims.head_dim, groups, a, idx);
    let row = normed_part(
        env,
        Projection::Query,
        Slot::QueryNorm,
        w.query_eps,
        row_of(t, at[0], at[1]),
        hd * (2 * w.dims.head_dim),
        d,
        t.format,
    );
    assert(line(qt, 3, idx) =~= row) by {
        assert forall|k: int| 0 <= k < d implies (qt.at)(#[trigger] idx.update(3, k)) == row[k] by {
            assert(within(turned_full, idx.update(3, k)));
            queries_are_projected(w, x, step, env, past, idx.update(3, k));
        }
    }
    assert(line(q, 3, idx) =~= turned(env, row, step.offset + at[1])) by {
        assert forall|k: int| 0 <= k < d implies (q.at)(#[trigger] idx.update(3, k)) == turned(
            env,
            row,
            step.offset + at[1],
        )[k] by {
            let c = idx.update(3, k);
            assert(within(turned_full, c));
            rows_are_turned_by_their_position(query, step, env, c);
            assert(line(qt, 3, c) =~= row) by {
                assert forall|m: int| 0 <= m < d implies #[trigger] c.update(3, m) == idx.update(
                    3,
                    m,
                ) by {
                    assert(c.update(3, m) =~= idx.update(3, m));
                }
            }
        }
    }
    let context = value(&w.context(x, step), env);
    assert(context.shape =~= full);
    assert(at.update(1, at[2]).update(2, at[1]) =~= idx);
    let found = ops::transpose(
        &ops::pair(
            Pairwise::MatMul,
            &ops::apply(
                SameShape::Softmax,
                &crate::qwen3_5::hiding_later(
                    &crate::attention::scores(
                        &rotated(&query, step),
                        &crate::attention::for_each_query_head(
                            &w.all_keys(x, step),
                            w.dims.num_kv_groups,
                        ),
                        w.dims.head_dim,
                    ),
                    step.masked,
                ),
            ),
            &crate::attention::for_each_query_head(
                &w.all_values(x, step),
                w.dims.num_kv_groups,
            ),
        ),
        1,
        2,
    );
    let ft = value(&found, env);
    assert(ft.shape =~= full);
    assert(context == reshaped(ft, full));
    lemma_same_shape(ft, at);
    assert(seq![idx[0], idx[2], idx[1], idx[3]] =~= at);
    lemma_broadcast_row(full);
    meaning::lemma_clipped(full, at);
    assert(context.format == t.format);
}

/// The output of an attention layer: each position is the output projection of what the heads give
/// for it, head behind head.
#[verifier::rlimit(40)]
pub proof fn attention_output<E>(
    w: AttentionState,
    x: Rc<Node>,
    step: Step,
    env: World<E>,
    past: nat,
    idx: Seq<int>,
)
    requires
        suits(w, value(&x, env), step, env, past),
        w.dims.num_heads > 0,
        w.dims.head_dim > 0,
        within(
            seq![
                step.batch as nat,
                step.len as nat,
                (env.arithmetic.width)(Projection::Output),
            ],
            idx,
        ),
    ensures
        ({
            let (h, d) = (w.dims.num_heads as nat, w.dims.head_dim as nat);
            let keys = value(&w.all_keys(x, step), env);
            let values = value(&w.all_values(x, step), env);
            let r = value(&w.output(x, step), env);
            &&& r.shape == seq![
                step.batch as nat,
                step.len as nat,
                (env.arithmetic.width)(Projection::Output),
            ]
            &&& (r.at)(idx) == (env.arithmetic.linear)(
                Projection::Output,
                Seq::new(
                    h * d,
                    |c: int|
                        head_output(
                            w,
                            env,
                            value(&x, env),
                            keys,
                            values,
                            step,
                            idx[0],
                            idx[1],
                            c / d as int,
                            c % d as int,
                        ),
                ),
            )[idx[2]]
        }),
{
    broadcast use meaning::group_value;

    let (b, s, h, d) = (
        step.batch as nat,
        step.len as nat,
        w.dims.num_heads as nat,
        w.dims.head_dim as nat,
    );
    let n = (env.arithmetic.width)(Projection::Output);
    let full = seq![b, s, n];
    assert(0 <= idx[0] < full[0] && 0 <= idx[1] < full[1] && 0 <= idx[2] < full[2]);
    assert(0 <= h * d) by (nonlinear_arith);
    assert(h * d <= usize::MAX) by (nonlinear_arith)
        requires
            h * d * 2 <= usize::MAX,
            0 <= h * d,
    ;
    let t = value(&gated(&w.context(x, step), &w.gate(x, step)), env);
    let start = seq![idx[0], idx[1], 0, 0];
    assert(within(seq![b, s, h, d], start));
    lemma_head_output(w, x, step, env, past, start);
    let joint = reshaped(t, seq![b, s, h * d]);
    let keys = value(&w.all_keys(x, step), env);
    let values = value(&w.all_values(x, step), env);
    let expected = Seq::new(
        h * d,
        |c: int|
            head_output(
                w,
                env,
                value(&x, env),
                keys,
                values,
                step,
                idx[0],
                idx[1],
                c / d as int,
                c % d as int,
            ),
    );
    assert(line(joint, 2, idx) =~= expected) by {
        assert forall|c: int| 0 <= c < h * d implies (joint.at)(#[trigger] idx.update(2, c))
            == expected[c] by {
            let i = idx.update(2, c);
            assert(within(seq![b, s, h * d], i));
            attention_laws::lemma_from_heads(t, b, s, h, d, i);
            let at = seq![i[0], i[1], i[2] / d as int, i[2] % d as int];
            lemma_head_output(w, x, step, env, past, at);
        }
    }
    assert(value(&w.output(x, step), env).shape =~= full);
}

}
