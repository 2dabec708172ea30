//! What a position sees under the causal mask.
use crate::attention;
use crate::attention::{
    for_each_query_head, gated, head_norm, heads_first, project, scores, with_mask,
    AttentionWeights,
};
use crate::graph;
use crate::graph::{Dims, FloatSetting, Node, Pairwise, Projection, SameShape, Scalar, Slot};
use crate::meaning;
use crate::meaning::{
    broadcasted, by_rows, clipped, flattened, formatted, line, mapped, multiplied, narrowed,
    normed, offset, place, repeated, reshaped, rotated, transposed, value, weighed, within,
    Arithmetic, Tensor, World,
};
use crate::ops::{apply, linear, narrow, pair, reshape, transpose};
use crate::pass::Step;
use crate::quantized_qwen3_5::causal_mask;
use crate::shapes;
use crate::value_shapes::matches_shapes;
use std::rc::Rc;
use vstd::prelude::*;

verus! {

/// The tensors agree at the indices up to `i` of the dimension `dim`.
pub open spec fn agree<E>(a: Tensor<E>, b: Tensor<E>, dim: int, i: int) -> bool {
    &&& a.shape == b.shape
    &&& a.format == b.format
    &&& 0 <= dim < a.shape.len()
    &&& forall|idx: Seq<int>| #[trigger]
        within(a.shape, idx) && idx[dim] <= i ==> (a.at)(idx) == (b.at)(idx)
}

/// Operations on single numbers.
pub proof fn lemma_mapped<E>(a: Tensor<E>, b: Tensor<E>, dim: int, i: int, f: spec_fn(E) -> E)
    requires
        agree(a, b, dim, i),
    ensures
        agree(mapped(a, f), mapped(b, f), dim, i),
{
}

/// Another format.
pub proof fn lemma_formatted<E>(
    a: Tensor<E>,
    b: Tensor<E>,
    dim: int,
    i: int,
    f: int,
    arithmetic: Arithmetic<E>,
)
    requires
        agree(a, b, dim, i),
    ensures
        agree(formatted(a, f, arithmetic), formatted(b, f, arithmetic), dim, i),
{
}

/// Operations on rows of another dimension.
pub proof fn lemma_by_rows<E>(
    a: Tensor<E>,
    b: Tensor<E>,
    dim: int,
    i: int,
    width: nat,
    f: spec_fn(Seq<E>) -> Seq<E>,
)
    requires
        agree(a, b, dim, i),
        dim < a.shape.len() - 1,
    ensures
        agree(by_rows(a, width, f), by_rows(b, width, f), dim, i),
{
    let last = a.shape.len() - 1;
    let (l, r) = (by_rows(a, width, f), by_rows(b, width, f));
    assert forall|idx: Seq<int>| #[trigger] within(l.shape, idx) && idx[dim] <= i implies (l.at)(
        idx,
    ) == (r.at)(idx) by {
        assert(line(a, last, idx) =~= line(b, last, idx)) by {
            assert forall|k: int| 0 <= k < a.shape[last] implies (a.at)(
                #[trigger] idx.update(last, k),
            ) == (b.at)(idx.update(last, k)) by {
                assert(within(a.shape, idx.update(last, k)));
            }
        }
    }
}

/// Operations on two tensors, the second one broadcast to the first one.
pub proof fn lemma_broadcasted<E>(
    a: Tensor<E>,
    b: Tensor<E>,
    c: Tensor<E>,
    d: Tensor<E>,
    dim: int,
    i: int,
    f: spec_fn(E, E) -> E,
)
    requires
        agree(a, b, dim, i),
        c.shape == d.shape,
        graph::broadcast(a.shape, c.shape) == Some(a.shape),
        c == d || agree(c, d, dim, i) && c.shape == a.shape,
    ensures
        agree(broadcasted(a, c, f), broadcasted(b, d, f), dim, i),
{
    let (l, r) = (broadcasted(a, c, f), broadcasted(b, d, f));
    assert forall|idx: Seq<int>| #[trigger] within(l.shape, idx) && idx[dim] <= i implies (l.at)(
        idx,
    ) == (r.at)(idx) by {
        meaning::lemma_clipped(a.shape, idx);
    }
}

/// A part of another dimension.
pub proof fn lemma_narrowed<E>(
    a: Tensor<E>,
    b: Tensor<E>,
    dim: int,
    i: int,
    other: int,
    start: int,
    len: nat,
)
    requires
        agree(a, b, dim, i),
        0 <= other < a.shape.len(),
        other != dim,
        0 <= start,
        start + len <= a.shape[other],
    ensures
        agree(narrowed(a, other, start, len), narrowed(b, other, start, len), dim, i),
{
    let (l, r) = (narrowed(a, other, start, len), narrowed(b, other, start, len));
    assert forall|idx: Seq<int>| #[trigger] within(l.shape, idx) && idx[dim] <= i implies (l.at)(
        idx,
    ) == (r.at)(idx) by {
        assert(within(a.shape, idx.update(other, idx[other] + start)));
    }
}

/// Two dimensions that change places.
proof fn lemma_transposed<E>(a: Tensor<E>, b: Tensor<E>, dim: int, to: int, i: int)
    requires
        agree(a, b, dim, i),
        0 <= to < a.shape.len(),
    ensures
        agree(transposed(a, dim, to), transposed(b, dim, to), to, i),
        agree(transposed(a, to, dim), transposed(b, to, dim), to, i),
{
    let (l, r) = (transposed(a, dim, to), transposed(b, dim, to));
    assert forall|idx: Seq<int>| #[trigger] within(l.shape, idx) && idx[to] <= i implies (l.at)(
        idx,
    ) == (r.at)(idx) by {
        assert(within(a.shape, idx.update(dim, idx[to]).update(to, idx[dim])));
    }
    let (p, q) = (transposed(a, to, dim), transposed(b, to, dim));
    assert forall|idx: Seq<int>| #[trigger] within(p.shape, idx) && idx[to] <= i implies (p.at)(
        idx,
    ) == (q.at)(idx) by {
        assert(within(a.shape, idx.update(to, idx[dim]).update(dim, idx[to])));
    }
}

/// The position of an index lies below the number of elements, and leads back to the index.
pub proof fn lemma_place(shape: Seq<nat>, idx: Seq<int>)
    requires
        within(shape, idx),
    ensures
        0 <= offset(shape, idx) < graph::elements(shape),
        place(shape, offset(shape, idx)) == idx,
    decreases shape.len(),
{
    if shape.len() == 0 {
        assert(place(shape, 0) =~= idx);
    } else {
        let (s, j) = (shape.drop_last(), idx.drop_last());
        assert(within(s, j)) by {
            assert forall|k: int| 0 <= k < j.len() implies 0 <= #[trigger] j[k] < s[k] by {
                assert(0 <= idx[k] < shape[k]);
            }
        }
        lemma_place(s, j);
        let (q, n) = (offset(s, j), shape.last() as int);
        let r = idx.last();
        assert(0 <= idx[shape.len() - 1] < shape[shape.len() - 1]);
        let e = graph::elements(s) as int;
        assert(0 <= q * n + r < e * n && (q * n + r) / n == q && (q * n + r) % n == r)
            by (nonlinear_arith)
            requires
                0 <= q < e,
                0 <= r < n,
        ;
        assert(place(shape, q * n + r) =~= j.push(r));
        assert(j.push(r) =~= idx);
    }
}

/// Positions in three and in four dimensions, the last of the three split.
pub proof fn lemma_offset_split(b: nat, s: nat, h: nat, d: nat, idx: Seq<int>)
    requires
        idx.len() == 4,
    ensures
        offset(seq![b, s, h, d], idx) == offset(
            seq![b, s, h * d],
            seq![idx[0], idx[1], idx[2] * d + idx[3]],
        ),
{
    reveal_with_fuel(offset, 5);
    let three = seq![idx[0], idx[1], idx[2] * d + idx[3]];
    assert(seq![b, s, h, d].drop_last() =~= seq![b, s, h]);
    assert(seq![b, s, h].drop_last() =~= seq![b, s]);
    assert(seq![b, s, h * d].drop_last() =~= seq![b, s]);
    assert(idx.drop_last().drop_last() =~= seq![idx[0], idx[1]]);
    assert(three.drop_last() =~= seq![idx[0], idx[1]]);
    let q = offset(seq![b, s], seq![idx[0], idx[1]]);
    let (i2, i3) = (idx[2], idx[3]);
    assert((q * h + i2) * d + i3 == q * (h * d) + (i2 * d + i3)) by (nonlinear_arith);
}

/// The last of three dimensions split into two.
proof fn lemma_split<E>(a: Tensor<E>, c: Tensor<E>, b: nat, s: nat, h: nat, d: nat, i: int)
    requires
        agree(a, c, 1, i),
        a.shape == seq![b, s, h * d],
    ensures
        agree(reshaped(a, seq![b, s, h, d]), reshaped(c, seq![b, s, h, d]), 1, i),
{
    let to = seq![b, s, h, d];
    let (l, r) = (reshaped(a, to), reshaped(c, to));
    assert forall|idx: Seq<int>| #[trigger] within(l.shape, idx) && idx[1] <= i implies (l.at)(
        idx,
    ) == (r.at)(idx) by {
        lemma_offset_split(b, s, h, d, idx);
        assert(0 <= idx[0] < b && 0 <= idx[1] < s && 0 <= idx[2] < h && 0 <= idx[3] < d);
        let (i2, i3) = (idx[2], idx[3]);
        assert(0 <= i2 * d + i3 < h * d) by (nonlinear_arith)
            requires
                0 <= i2 < h,
                0 <= i3 < d,
        ;
        let from = seq![idx[0], idx[1], idx[2] * d + idx[3]];
        assert(within(a.shape, from));
        lemma_place(a.shape, from);
    }
}

/// The last two of four dimensions joined.
proof fn lemma_merged<E>(a: Tensor<E>, c: Tensor<E>, b: nat, s: nat, h: nat, d: nat, i: int)
    requires
        agree(a, c, 1, i),
        a.shape == seq![b, s, h, d],
    ensures
        agree(reshaped(a, seq![b, s, h * d]), reshaped(c, seq![b, s, h * d]), 1, i),
{
    let to = seq![b, s, h * d];
    let (l, r) = (reshaped(a, to), reshaped(c, to));
    assert forall|idx: Seq<int>| #[trigger] within(l.shape, idx) && idx[1] <= i implies (l.at)(
        idx,
    ) == (r.at)(idx) by {
        assert(0 <= idx[0] < b && 0 <= idx[1] < s && 0 <= idx[2] < h * d);
        let k = idx[2];
        let n = d as int;
        assert(n > 0 && 0 <= k / n < h && 0 <= k % n < n && (k / n) * n + k % n == k)
            by (nonlinear_arith)
            requires
                0 <= k < h * n,
                n >= 0,
        ;
        let from = seq![idx[0], idx[1], k / n, k % n];
        assert(within(a.shape, from));
        lemma_offset_split(b, s, h, d, from);
        assert(seq![from[0], from[1], from[2] * d + from[3]] =~= idx);
        lemma_place(a.shape, from);
    }
}

/// Normalising the rows of the flattened tensor normalises the rows of the tensor itself.
pub proof fn lemma_normed_flat<E>(
    t: Tensor<E>,
    weight: Tensor<E>,
    eps: FloatSetting,
    arithmetic: Arithmetic<E>,
)
    requires
        t.shape.len() == 4,
    ensures
        reshaped(normed(flattened(t), weight, eps, arithmetic), t.shape) == normed(
            t,
            weight,
            eps,
            arithmetic,
        ),
{
    let s3 = t.shape.take(3);
    let n = graph::elements(s3);
    let d = t.shape[3];
    let flat = flattened(t);
    assert(t.shape.skip(3) =~= seq![d]);
    assert(flat.shape =~= seq![n, d]);
    let nf = normed(flat, weight, eps, arithmetic);
    assert(nf.shape =~= seq![n, d]);
    let l = reshaped(nf, t.shape);
    let r = normed(t, weight, eps, arithmetic);
    assert(r.shape =~= t.shape);
    assert forall|idx: Seq<int>| #[trigger] within(l.shape, idx) implies (l.at)(idx) == (r.at)(
        idx,
    ) by {
        lemma_flat_row(t, idx);
        let u = offset(s3, idx.take(3));
        let to = seq![u, idx[3]];
        let (x, y) = (line(flat, 1, to), line(t, 3, idx));
        assert forall|k: int| 0 <= k < d implies #[trigger] x[k] == y[k] by {
            let j = idx.update(3, k);
            assert(within(t.shape, j));
            lemma_flat_row(t, j);
            assert(j.take(3) =~= idx.take(3));
            assert(to.update(1, k) =~= seq![u, k]);
        }
        assert(x =~= y);
    }
    meaning::lemma_equal(l, r);
}

/// Where an element of a tensor of four dimensions lies in the flattened tensor.
pub proof fn lemma_flat_row<E>(t: Tensor<E>, idx: Seq<int>)
    requires
        t.shape.len() == 4,
        within(t.shape, idx),
    ensures
        ({
            let s3 = t.shape.take(3);
            let flat = seq![graph::elements(s3), t.shape[3]];
            let to = seq![offset(s3, idx.take(3)), idx[3]];
            &&& within(flat, to)
            &&& place(flat, offset(t.shape, idx)) == to
            &&& (flattened(t).at)(to) == (t.at)(idx)
        }),
{
    let s3 = t.shape.take(3);
    let j = idx.take(3);
    let flat = seq![graph::elements(s3), t.shape[3]];
    assert(within(s3, j)) by {
        assert forall|k: int| 0 <= k < j.len() implies 0 <= #[trigger] j[k] < s3[k] by {
            assert(0 <= idx[k] < t.shape[k]);
        }
    }
    lemma_place(s3, j);
    lemma_place(t.shape, idx);
    let to = seq![offset(s3, j), idx[3]];
    assert(0 <= idx[3] < t.shape[3]);
    assert(within(flat, to));
    lemma_place(flat, to);
    assert(t.shape.drop_last() =~= s3);
    assert(idx.drop_last() =~= j);
    reveal_with_fuel(offset, 3);
    assert(flat.drop_last() =~= seq![graph::elements(s3)]);
    assert(to.drop_last() =~= seq![offset(s3, j)]);
    assert(seq![graph::elements(s3)].drop_last() =~= Seq::<nat>::empty());
    assert(offset(flat, to) == offset(t.shape, idx));
    assert(t.shape.skip(3) =~= seq![t.shape[3]]);
    assert(flattened(t).shape =~= flat);
}

/// Rows of the same position in tables.
pub proof fn lemma_rotated<E>(
    a: Tensor<E>,
    b: Tensor<E>,
    cos: Tensor<E>,
    sin: Tensor<E>,
    i: int,
    arithmetic: Arithmetic<E>,
)
    requires
        agree(a, b, 2, i),
        a.shape.len() == 4,
    ensures
        agree(rotated(a, cos, sin, arithmetic), rotated(b, cos, sin, arithmetic), 2, i),
{
    let (l, r) = (rotated(a, cos, sin, arithmetic), rotated(b, cos, sin, arithmetic));
    assert forall|idx: Seq<int>| #[trigger] within(l.shape, idx) && idx[2] <= i implies (l.at)(
        idx,
    ) == (r.at)(idx) by {
        assert(line(a, 3, idx) =~= line(b, 3, idx)) by {
            assert forall|k: int| 0 <= k < a.shape[3] implies (a.at)(#[trigger] idx.update(3, k))
                == (b.at)(idx.update(3, k)) by {
                assert(within(a.shape, idx.update(3, k)));
            }
        }
    }
}

/// Heads that are repeated.
proof fn lemma_repeated<E>(a: Tensor<E>, b: Tensor<E>, times: nat, i: int)
    requires
        agree(a, b, 2, i),
        a.shape.len() == 4,
    ensures
        agree(repeated(a, times), repeated(b, times), 2, i),
{
    let (l, r) = (repeated(a, times), repeated(b, times));
    assert forall|idx: Seq<int>| #[trigger] within(l.shape, idx) && idx[2] <= i implies (l.at)(
        idx,
    ) == (r.at)(idx) by {
        let (k, n, h) = (idx[1], times as int, a.shape[1] as int);
        assert(0 <= idx[1] < l.shape[1]);
        assert(0 <= k / n < h) by (nonlinear_arith)
            requires
                0 <= k < h * n,
                n >= 0,
                h >= 0,
        ;
        assert(within(a.shape, idx.update(1, k / n)));
    }
}

/// All numbers of the tensor are finite.
pub open spec fn all_finite<E>(t: Tensor<E>, finite: spec_fn(E) -> bool) -> bool {
    forall|idx: Seq<int>| within(t.shape, idx) ==> finite(#[trigger] (t.at)(idx))
}

/// The mask adds `later` to the score of a later position, `past` positions having come before, and
/// `now` to that of any other one. It is for scores of the shape `d`.
pub open spec fn is_causal<E>(mask: Tensor<E>, d: Seq<nat>, past: nat, later: E, now: E) -> bool {
    &&& mask.shape.len() == 4
    &&& mask.shape[0] == 1 || mask.shape[0] == d[0]
    &&& mask.shape[1] == 1
    &&& mask.shape[2] == d[2]
    &&& mask.shape[3] == d[3]
    &&& forall|idx: Seq<int>|
        within(mask.shape, idx) ==> #[trigger] (mask.at)(idx) == (if idx[3] > past + idx[2] {
            later
        } else {
            now
        })
}

/// What the arithmetic has to grant for masked scores to be without effect. A score that is hidden
/// becomes `no`, which is not finite:
///
/// * adding `later` makes `no` of a finite score, and adding `now` a finite number;
/// * in a row of finite numbers and `no`, at least one of them finite, softmax gives `nil` for `no`;
/// * where a weight is `nil`, a sum of products does not depend on the finite number that it weighs.
pub open spec fn hides<E>(
    a: Arithmetic<E>,
    later: E,
    now: E,
    finite: spec_fn(E) -> bool,
    no: E,
    nil: E,
) -> bool {
    &&& !finite(no)
    &&& forall|e: E|
        finite(e) ==> #[trigger] (a.pair)(Pairwise::BroadcastAdd, e, later) == no && finite(
            (a.pair)(Pairwise::BroadcastAdd, e, now),
        )
    &&& forall|row: Seq<E>, j: int|
        is_masked_row(row, finite, no) && 0 <= j < row.len() && row[j] == no ==> #[trigger] (
        a.softmax)(row)[j] == nil
    &&& forall|weights: Seq<E>, x: Seq<E>, y: Seq<E>|
        weights.len() == x.len() && x.len() == y.len() && (forall|j: int|
            0 <= j < x.len() ==> finite(#[trigger] x[j]) && finite(y[j]) && (weights[j] == nil
                || x[j] == y[j])) ==> #[trigger] (a.dot)(weights, x) == #[trigger] (a.dot)(
            weights,
            y,
        )
}

/// The row consists of finite numbers and of `no`, at least one of them finite.
pub open spec fn is_masked_row<E>(row: Seq<E>, finite: spec_fn(E) -> bool, no: E) -> bool {
    &&& forall|l: int| 0 <= l < row.len() ==> finite(#[trigger] row[l]) || row[l] == no
    &&& exists|k: int| 0 <= k < row.len() && finite(#[trigger] row[k])
}

/// The scores of keys for queries.
pub open spec fn scored<E>(
    query: Tensor<E>,
    keys: Tensor<E>,
    width: usize,
    a: Arithmetic<E>,
) -> Tensor<E> {
    mapped(
        multiplied(query, transposed(keys, 2, 3), a),
        |e: E| (a.times)(e, Scalar::InvSqrt(width)),
    )
}

/// The scores with the mask added.
pub open spec fn masked<E>(scores: Tensor<E>, mask: Tensor<E>, a: Arithmetic<E>) -> Tensor<E> {
    broadcasted(scores, mask, |p: E, q: E| (a.pair)(Pairwise::BroadcastAdd, p, q))
}

/// The score of an earlier position for a position up to `i`.
pub proof fn lemma_score<E>(
    q1: Tensor<E>,
    q2: Tensor<E>,
    k1: Tensor<E>,
    k2: Tensor<E>,
    width: usize,
    past: nat,
    i: int,
    a: Arithmetic<E>,
    d: Seq<nat>,
    t: nat,
    idx: Seq<int>,
)
    requires
        d.len() == 4,
        q1.shape == d,
        k1.shape == d.update(2, t),
        agree(q1, q2, 2, i),
        agree(k1, k2, 2, past + i),
        within(d.update(3, t), idx),
        idx[2] <= i,
        idx[3] <= past + i,
    ensures
        (scored(q1, k1, width, a).at)(idx) == (scored(q2, k2, width, a).at)(idx),
{
    let (t1, t2) = (transposed(k1, 2, 3), transposed(k2, 2, 3));
    assert(t1.shape[3] == t);
    assert(scored(q1, k1, width, a).shape =~= d.update(3, t));
    assert(scored(q2, k2, width, a).shape =~= d.update(3, t));
    assert(0 <= idx[2] < d[2] && 0 <= idx[3] < t);
    assert(line(q1, 3, idx) =~= line(q2, 3, idx)) by {
        assert forall|k: int| 0 <= k < d[3] implies (q1.at)(#[trigger] idx.update(3, k)) == (q2.at)(
            idx.update(3, k),
        ) by {
            assert(within(d, idx.update(3, k)));
        }
    }
    let (x, y) = (line(t1, 2, idx), line(t2, 2, idx));
    assert forall|k: int| 0 <= k < d[3] implies #[trigger] x[k] == y[k] by {
        let j = idx.update(2, k);
        assert(within(t1.shape, j));
        let from = j.update(2, j[3]).update(3, j[2]);
        assert(within(d.update(2, t), from));
    }
    assert(x =~= y);
}

/// The weights of a position up to `i` do not depend on later positions, which weigh nothing.
proof fn lemma_weights<E>(
    s1: Tensor<E>,
    s2: Tensor<E>,
    mask: Tensor<E>,
    past: nat,
    i: int,
    a: Arithmetic<E>,
    later: E,
    now: E,
    finite: spec_fn(E) -> bool,
    no: E,
    nil: E,
    d: Seq<nat>,
    idx: Seq<int>,
)
    requires
        d.len() == 4,
        past + d[2] == d[3],
        s1.shape == d,
        s2.shape == d,
        is_causal(mask, d, past, later, now),
        all_finite(s1, finite),
        all_finite(s2, finite),
        hides(a, later, now, finite, no, nil),
        forall|j: Seq<int>| #[trigger]
            within(d, j) && j[2] <= i && j[3] <= past + i ==> (s1.at)(j) == (s2.at)(j),
        within(d, idx),
        idx[2] <= i,
    ensures
        (weighed(masked(s1, mask, a), a).at)(idx) == (weighed(masked(s2, mask, a), a).at)(idx),
        idx[3] > past + idx[2] ==> (weighed(masked(s1, mask, a), a).at)(idx) == nil,
{
    let (m1, m2) = (masked(s1, mask, a), masked(s2, mask, a));
    shapes::lemma_broadcast4(d, mask.shape);
    let (x, y) = (line(m1, 3, idx), line(m2, 3, idx));
    assert(0 <= idx[2] < d[2] && 0 <= idx[3] < d[3] && 0 <= idx[0] < d[0] && 0 <= idx[1] < d[1]);
    assert forall|k: int| 0 <= k < d[3] implies #[trigger] x[k] == y[k] && (if k > past + idx[2] {
        x[k] == no
    } else {
        finite(x[k])
    }) by {
        let j = idx.update(3, k);
        assert(within(d, j));
        meaning::lemma_clipped(d, j);
        let c = clipped(mask.shape, j);
        assert(within(mask.shape, c));
        assert(c[2] == idx[2] && c[3] == k);
        assert(finite((s1.at)(j)) && finite((s2.at)(j)));
        let e = (mask.at)(c);
        assert(x[k] == (a.pair)(Pairwise::BroadcastAdd, (s1.at)(j), e));
        assert(y[k] == (a.pair)(Pairwise::BroadcastAdd, (s2.at)(j), e));
        assert((a.pair)(Pairwise::BroadcastAdd, (s1.at)(j), later) == no);
        assert((a.pair)(Pairwise::BroadcastAdd, (s2.at)(j), later) == no);
    }
    assert(x =~= y);
    if idx[3] > past + idx[2] {
        assert(x[idx[3]] == no);
        assert(finite(x[past + idx[2]]));
        assert(is_masked_row(x, finite, no));
        assert((a.softmax)(x)[idx[3]] == nil);
    }
}

/// What a position up to `i` attends to does not depend on later positions.
pub proof fn lemma_attended<E>(
    q1: Tensor<E>,
    q2: Tensor<E>,
    k1: Tensor<E>,
    k2: Tensor<E>,
    v1: Tensor<E>,
    v2: Tensor<E>,
    mask: Tensor<E>,
    width: usize,
    past: nat,
    i: int,
    a: Arithmetic<E>,
    later: E,
    now: E,
    finite: spec_fn(E) -> bool,
    no: E,
    nil: E,
    d: Seq<nat>,
)
    requires
        d.len() == 4,
        q1.shape == d,
        k1.shape == d.update(2, past + d[2]),
        v1.shape == d.update(2, past + d[2]),
        is_causal(mask, d.update(3, past + d[2]), past, later, now),
        agree(q1, q2, 2, i),
        agree(k1, k2, 2, past + i),
        agree(v1, v2, 2, past + i),
        all_finite(scored(q1, k1, width, a), finite),
        all_finite(scored(q2, k2, width, a), finite),
        all_finite(v1, finite),
        all_finite(v2, finite),
        hides(a, later, now, finite, no, nil),
    ensures
        agree(
            multiplied(weighed(masked(scored(q1, k1, width, a), mask, a), a), v1, a),
            multiplied(weighed(masked(scored(q2, k2, width, a), mask, a), a), v2, a),
            2,
            i,
        ),
        multiplied(weighed(masked(scored(q1, k1, width, a), mask, a), a), v1, a).shape == d,
{
    let t = past + d[2];
    let (s1, s2) = (scored(q1, k1, width, a), scored(q2, k2, width, a));
    let e = d.update(3, t);
    assert(s1.shape =~= e && s2.shape =~= e);
    shapes::lemma_broadcast4(e, mask.shape);
    let (w1, w2) = (weighed(masked(s1, mask, a), a), weighed(masked(s2, mask, a), a));
    let (l, r) = (multiplied(w1, v1, a), multiplied(w2, v2, a));
    assert(l.shape =~= d && r.shape =~= d);
    assert forall|j: Seq<int>| #[trigger] within(e, j) && j[2] <= i && j[3] <= past + i implies (
    s1.at)(j) == (s2.at)(j) by {
        lemma_score(q1, q2, k1, k2, width, past, i, a, d, t, j);
    }
    assert forall|idx: Seq<int>| #[trigger] within(l.shape, idx) && idx[2] <= i implies (l.at)(idx)
        == (r.at)(idx) by {
        let (u1, u2) = (line(w1, 3, idx), line(w2, 3, idx));
        let (x, y) = (line(v1, 2, idx), line(v2, 2, idx));
        assert(0 <= idx[2] < d[2]);
        assert forall|k: int| 0 <= k < t implies #[trigger] u1[k] == u2[k] && (k > past + idx[2]
            ==> u1[k] == nil) by {
            let j = idx.update(3, k);
            assert(within(e, j));
            lemma_weights(s1, s2, mask, past, i, a, later, now, finite, no, nil, e, j);
        }
        assert(u1 =~= u2);
        assert forall|k: int| 0 <= k < x.len() implies finite(#[trigger] x[k]) && finite(y[k]) && (
        u1[k] == nil || x[k] == y[k]) by {
            let j = idx.update(2, k);
            assert(within(v1.shape, j));
            assert(u1[k] == u2[k]);
        }
        assert((a.dot)(u1, x) == (a.dot)(u1, y));
    }
}

/// The worlds have the same weights, tables and mask.
pub open spec fn same_weights<E>(e1: World<E>, e2: World<E>) -> bool {
    &&& e1.arithmetic == e2.arithmetic
    &&& forall|slot: Slot| slot != Slot::Input ==> #[trigger] (e1.leaf)(slot) == (e2.leaf)(slot)
}

/// A formula computes, in both worlds, tensors of the shape `d` that agree up to `i`.
pub open spec fn keeps<E>(
    n: Rc<Node>,
    e1: World<E>,
    e2: World<E>,
    d: Seq<nat>,
    dim: int,
    i: int,
) -> bool {
    &&& value(&n, e1).shape == d
    &&& agree(value(&n, e1), value(&n, e2), dim, i)
}

/// A linear map, with or without a bias.
pub proof fn lemma_keeps_project<E>(
    map: Projection,
    bias: Slot,
    biased: bool,
    x: Rc<Node>,
    e1: World<E>,
    e2: World<E>,
    b: nat,
    s: nat,
    from: nat,
    to: nat,
    i: int,
)
    requires
        same_weights(e1, e2),
        keeps(x, e1, e2, seq![b, s, from], 1, i),
        (e1.arithmetic.width)(map) == to,
        bias != Slot::Carry,
        bias != Slot::Input,
        biased ==> (e1.leaf)(bias).shape == seq![to],
    ensures
        keeps(project(map, bias, biased, &x), e1, e2, seq![b, s, to], 1, i),
{
    broadcast use meaning::group_value;

    let a = e1.arithmetic;
    let (x1, x2) = (value(&x, e1), value(&x, e2));
    let f = |row: Seq<E>| (a.linear)(map, row);
    lemma_by_rows(x1, x2, 1, i, to, f);
    let (y1, y2) = (by_rows(x1, to, f), by_rows(x2, to, f));
    let d = seq![b, s, to];
    assert(y1.shape =~= d);
    if biased {
        let w = (e1.leaf)(bias);
        assert(graph::broadcast(d, w.shape)->0 =~= d && graph::broadcast(d, w.shape) is Some) by {
            assert(forall|k: int| 0 <= k < 3 ==> graph::aligned(d, 3, k) == d[k]);
            assert(graph::aligned(w.shape, 3, 0) == 1 && graph::aligned(w.shape, 3, 1) == 1);
            assert(graph::aligned(w.shape, 3, 2) == to);
        }
        let add = |p: E, q: E| (a.pair)(Pairwise::BroadcastAdd, p, q);
        lemma_broadcasted(y1, y2, w, w, 1, i, add);
    }
}

/// The last dimension split into heads.
pub proof fn lemma_keeps_heads<E>(
    x: Rc<Node>,
    e1: World<E>,
    e2: World<E>,
    b: usize,
    s: usize,
    h: usize,
    d: usize,
    i: int,
)
    requires
        keeps(x, e1, e2, seq![b as nat, s as nat, (h * d) as nat], 1, i),
    ensures
        keeps(
            reshape(&x, Dims::Four(b, s, h, d)),
            e1,
            e2,
            seq![b as nat, s as nat, h as nat, d as nat],
            1,
            i,
        ),
{
    broadcast use meaning::group_value;

    lemma_split(
        value(&x, e1),
        value(&x, e2),
        b as nat,
        s as nat,
        h as nat,
        d as nat,
        i,
    );
}

/// Positions and heads that change places.
pub proof fn lemma_keeps_transpose<E>(
    x: Rc<Node>,
    e1: World<E>,
    e2: World<E>,
    d: Seq<nat>,
    dim: int,
    i: int,
)
    requires
        d.len() == 4,
        dim == 1 || dim == 2,
        keeps(x, e1, e2, d, dim, i),
    ensures
        keeps(transpose(&x, 1, 2), e1, e2, seq![d[0], d[2], d[1], d[3]], 3 - dim, i),
{
    broadcast use meaning::group_value;

    lemma_transposed(value(&x, e1), value(&x, e2), dim, 3 - dim, i);
    assert(d.update(1, d[2]).update(2, d[1]) =~= seq![d[0], d[2], d[1], d[3]]);
}

/// The norm of each head.
proof fn lemma_keeps_norm<E>(
    x: Rc<Node>,
    norm: Slot,
    normed_heads: bool,
    eps: FloatSetting,
    e1: World<E>,
    e2: World<E>,
    p: usize,
    q: usize,
    r: usize,
    d: usize,
    dim: int,
    i: int,
)
    requires
        same_weights(e1, e2),
        norm != Slot::Input,
        0 <= dim < 3,
        keeps(x, e1, e2, seq![p as nat, q as nat, r as nat, d as nat], dim, i),
    ensures
        keeps(
            head_norm(&x, norm, normed_heads, eps, Dims::Four(p, q, r, d)),
            e1,
            e2,
            seq![p as nat, q as nat, r as nat, d as nat],
            dim,
            i,
        ),
{
    broadcast use meaning::group_value;

    if normed_heads {
        let a = e1.arithmetic;
        let full = seq![p as nat, q as nat, r as nat, d as nat];
        let (x1, x2) = (value(&x, e1), value(&x, e2));
        let weight = (e1.leaf)(norm);
        lemma_normed_flat(x1, weight, eps, a);
        lemma_normed_flat(x2, weight, eps, a);
        let w = line(weight, 0, seq![0]);
        let f = |row: Seq<E>| (a.rms_norm)(eps, w, row);
        lemma_by_rows(x1, x2, dim, i, d as nat, f);
        assert(full.update(3, d as nat) =~= full);
    }
}

/// The rotary embedding.
proof fn lemma_keeps_rotated<E>(
    x: Rc<Node>,
    like: Rc<Node>,
    step: Step,
    e1: World<E>,
    e2: World<E>,
    d: Seq<nat>,
    i: int,
)
    requires
        same_weights(e1, e2),
        d.len() == 4,
        keeps(x, e1, e2, d, 2, i),
        value(&like, e1).format == value(&like, e2).format,
    ensures
        keeps(attention::rotated(&x, &like, step), e1, e2, d, 2, i),
{
    broadcast use meaning::group_value;

    let a = e1.arithmetic;
    let f = value(&like, e1).format;
    let (start, len) = (step.offset as int, step.len as nat);
    let cos = formatted(narrowed((e1.leaf)(Slot::Cos), 0, start, len), f, a);
    let sin = formatted(narrowed((e1.leaf)(Slot::Sin), 0, start, len), f, a);
    lemma_rotated(value(&x, e1), value(&x, e2), cos, sin, i, a);
}

/// Keys or values for each query head.
pub proof fn lemma_keeps_repeated<E>(
    x: Rc<Node>,
    groups: usize,
    e1: World<E>,
    e2: World<E>,
    d: Seq<nat>,
    h: nat,
    i: int,
)
    requires
        d.len() == 4,
        keeps(x, e1, e2, d, 2, i),
        d[1] * groups as nat == h,
    ensures
        keeps(for_each_query_head(&x, groups), e1, e2, d.update(1, h), 2, i),
{
    broadcast use meaning::group_value;

    lemma_repeated(value(&x, e1), value(&x, e2), groups as nat, i);
}

/// A number of the format `from` in the format `to`.
pub open spec fn in_format<E>(e: E, from: int, to: int, a: Arithmetic<E>) -> E {
    if from == to {
        e
    } else {
        (a.cast)(to, e)
    }
}

/// A mask in another format.
pub proof fn lemma_formatted_mask<E>(
    mask: Tensor<E>,
    d: Seq<nat>,
    past: nat,
    later: E,
    now: E,
    f: int,
    a: Arithmetic<E>,
)
    requires
        is_causal(mask, d, past, later, now),
    ensures
        is_causal(
            formatted(mask, f, a),
            d,
            past,
            in_format(later, mask.format, f, a),
            in_format(now, mask.format, f, a),
        ),
{
    let m = formatted(mask, f, a);
    assert forall|idx: Seq<int>| within(m.shape, idx) implies #[trigger] (m.at)(idx) == (
    if idx[3] > past + idx[2] {
        in_format(later, mask.format, f, a)
    } else {
        in_format(now, mask.format, f, a)
    }) by {
        assert((mask.at)(idx) == (if idx[3] > past + idx[2] {
            later
        } else {
            now
        }));
    }
}

/// The mask of the quantized model: it hides exactly the later positions.
pub proof fn causal_mask_hides_later_positions<E>(len: usize, d: Seq<nat>, env: World<E>)
    requires
        d.len() == 4,
        d[2] == len,
        d[3] == len,
    ensures
        ({
            let a = env.arithmetic;
            let mask = value(&causal_mask(len), env);
            &&& mask.format == a.model
            &&& is_causal(
                mask,
                d,
                0,
                in_format(a.hidden, a.single, a.model, a),
                in_format(a.zero, a.single, a.model, a),
            )
        }),
{
    broadcast use meaning::group_value;

    let a = env.arithmetic;
    let square = meaning::causal(len as nat, a);
    let l = len as nat;
    let to = seq![1, 1, l, l];
    let mask = reshaped(square, to);
    assert forall|idx: Seq<int>| within(to, idx) implies #[trigger] (mask.at)(idx) == (if idx[3]
        > 0 + idx[2] {
        a.hidden
    } else {
        a.zero
    }) by {
        assert(0 <= idx[0] < 1 && 0 <= idx[1] < 1 && 0 <= idx[2] < l && 0 <= idx[3] < l);
        let from = seq![idx[2], idx[3]];
        assert(within(square.shape, from));
        lemma_place(square.shape, from);
        assert(offset(to, idx) == offset(square.shape, from)) by {
            reveal_with_fuel(offset, 5);
            assert(to.drop_last() =~= seq![1, 1, l]);
            assert(seq![1, 1, l].drop_last() =~= seq![1, 1]);
            assert(seq![1nat, 1].drop_last() =~= seq![1]);
            assert(idx.drop_last() =~= seq![idx[0], idx[1], idx[2]]);
            assert(seq![idx[0], idx[1], idx[2]].drop_last() =~= seq![idx[0], idx[1]]);
            assert(seq![idx[0], idx[1]].drop_last() =~= seq![idx[0]]);
            assert(square.shape.drop_last() =~= seq![l]);
            assert(from.drop_last() =~= seq![idx[2]]);
            assert(0 * l == 0) by (nonlinear_arith);
        }
    }
    lemma_formatted_mask(mask, d, 0, a.hidden, a.zero, a.model, a);
}

/// The queries that the keys are held against.
pub open spec fn asked(w: AttentionWeights, x: Rc<Node>, step: Step) -> Rc<Node> {
    attention::rotated(&w.query(x, step), &w.query(x, step), step)
}

/// The scores of a step, before the mask is added.
pub open spec fn raw_scores(w: AttentionWeights, x: Rc<Node>, step: Step) -> Rc<Node> {
    scores(
        &asked(w, x, step),
        &for_each_query_head(&w.all_keys(x, step), w.num_kv_groups),
        w.head_dim,
    )
}

/// The values of a step, one for each query head.
pub open spec fn spread_values(w: AttentionWeights, x: Rc<Node>, step: Step) -> Rc<Node> {
    for_each_query_head(&w.all_values(x, step), w.num_kv_groups)
}

/// The queries, and the gates where there are some.
proof fn lemma_keeps_query<E>(
    w: AttentionWeights,
    x: Rc<Node>,
    step: Step,
    known: graph::Shapes,
    hidden: nat,
    rows: nat,
    e1: World<E>,
    e2: World<E>,
    i: int,
)
    requires
        w.fits(),
        w.consistent(),
        w.described_by(known, step, hidden, 0, rows),
        matches_shapes(e1, known),
        same_weights(e1, e2),
        keeps(x, e1, e2, seq![step.batch as nat, step.len as nat, hidden], 1, i),
    ensures
        keeps(
            w.query(x, step),
            e1,
            e2,
            seq![step.batch as nat, w.num_heads as nat, step.len as nat, w.head_dim as nat],
            2,
            i,
        ),
        w.has_gate() ==> keeps(
            w.gate(x, step),
            e1,
            e2,
            seq![step.batch as nat, step.len as nat, w.num_heads as nat, w.head_dim as nat],
            1,
            i,
        ),
{
    broadcast use meaning::group_value;

    let (b, s, h, d) = (step.batch, step.len, w.num_heads, w.head_dim);
    let (bn, sn, hn, dn) = (b as nat, s as nat, h as nat, d as nat);
    let q = w.projected_query(x);
    assert((known.linear)(Projection::Query) is Some);
    assert(w.q_bias ==> (known.leaf)(Slot::QueryBias) is Some);
    lemma_keeps_project(
        Projection::Query,
        Slot::QueryBias,
        w.q_bias,
        x,
        e1,
        e2,
        bn,
        sn,
        hidden,
        w.q_out_dim as nat,
        i,
    );
    if w.has_gate() {
        let dd = (d * 2) as usize;
        assert(w.q_out_dim == h * dd) by (nonlinear_arith)
            requires
                w.q_out_dim == h * d * 2,
                dd == d * 2,
        ;
        lemma_keeps_heads(q, e1, e2, b, s, h, dd, i);
        let both = w.query_and_gate(x, step);
        let (y1, y2) = (value(&both, e1), value(&both, e2));
        let full = seq![bn, sn, hn, dn];
        assert(seq![bn, sn, hn, dd as nat].update(3, dn) =~= full);
        lemma_narrowed(y1, y2, 1, i, 3, d as int, dn);
        lemma_narrowed(y1, y2, 1, i, 3, 0, dn);
        let states = narrow(&both, 3, 0, d);
        assert(keeps(states, e1, e2, full, 1, i));
        lemma_keeps_norm(states, Slot::QueryNorm, w.q_norm, w.norm_eps, e1, e2, b, s, h, d, 1, i);
        let normed_query = head_norm(
            &states,
            Slot::QueryNorm,
            w.q_norm,
            w.norm_eps,
            Dims::Four(b, s, h, d),
        );
        lemma_keeps_transpose(normed_query, e1, e2, full, 1, i);
    } else {
        lemma_keeps_heads(q, e1, e2, b, s, h, d, i);
        let split = reshape(&q, Dims::Four(b, s, h, d));
        lemma_keeps_transpose(split, e1, e2, seq![bn, sn, hn, dn], 1, i);
        lemma_keeps_norm(
            heads_first(&q, step, h, d),
            Slot::QueryNorm,
            w.q_norm,
            w.norm_eps,
            e1,
            e2,
            b,
            h,
            s,
            d,
            2,
            i,
        );
    }
}

/// The keys and values.
proof fn lemma_keeps_cache<E>(
    w: AttentionWeights,
    x: Rc<Node>,
    step: Step,
    known: graph::Shapes,
    hidden: nat,
    rows: nat,
    e1: World<E>,
    e2: World<E>,
    i: int,
)
    requires
        w.fits(),
        w.consistent(),
        !w.cached,
        w.described_by(known, step, hidden, 0, rows),
        matches_shapes(e1, known),
        same_weights(e1, e2),
        keeps(x, e1, e2, seq![step.batch as nat, step.len as nat, hidden], 1, i),
    ensures
        keeps(
            w.all_keys(x, step),
            e1,
            e2,
            seq![step.batch as nat, w.num_kv_heads as nat, step.len as nat, w.head_dim as nat],
            2,
            i,
        ),
        keeps(
            w.all_values(x, step),
            e1,
            e2,
            seq![step.batch as nat, w.num_kv_heads as nat, step.len as nat, w.head_dim as nat],
            2,
            i,
        ),
{
    broadcast use meaning::group_value;

    let (b, s, h, d) = (step.batch, step.len, w.num_kv_heads, w.head_dim);
    let (bn, sn, hn, dn) = (b as nat, s as nat, h as nat, d as nat);
    let kv = (h * d) as nat;
    assert((known.linear)(Projection::Key) is Some && (known.linear)(Projection::Value) is Some);
    assert(w.k_bias ==> (known.leaf)(Slot::KeyBias) is Some);
    assert(w.v_bias ==> (known.leaf)(Slot::ValueBias) is Some);
    lemma_keeps_project(
        Projection::Key,
        Slot::KeyBias,
        w.k_bias,
        x,
        e1,
        e2,
        bn,
        sn,
        hidden,
        kv,
        i,
    );
    lemma_keeps_project(
        Projection::Value,
        Slot::ValueBias,
        w.v_bias,
        x,
        e1,
        e2,
        bn,
        sn,
        hidden,
        kv,
        i,
    );
    let k = project(Projection::Key, Slot::KeyBias, w.k_bias, &x);
    let v = project(Projection::Value, Slot::ValueBias, w.v_bias, &x);
    lemma_keeps_heads(k, e1, e2, b, s, h, d, i);
    lemma_keeps_heads(v, e1, e2, b, s, h, d, i);
    let full = seq![bn, sn, hn, dn];
    lemma_keeps_transpose(reshape(&k, Dims::Four(b, s, h, d)), e1, e2, full, 1, i);
    lemma_keeps_transpose(reshape(&v, Dims::Four(b, s, h, d)), e1, e2, full, 1, i);
    let turned = seq![bn, hn, sn, dn];
    lemma_keeps_norm(
        heads_first(&k, step, h, d),
        Slot::KeyNorm,
        w.k_norm,
        w.norm_eps,
        e1,
        e2,
        b,
        h,
        s,
        d,
        2,
        i,
    );
    lemma_keeps_query(w, x, step, known, hidden, rows, e1, e2, i);
    lemma_keeps_rotated(w.key(x, step), w.query(x, step), step, e1, e2, turned, i);
}

/// What the heads attend to, gated where there are gates, and the heads joined.
pub proof fn lemma_keeps_joined<E>(
    context: Rc<Node>,
    gate: Rc<Node>,
    has_gate: bool,
    b: usize,
    s: usize,
    h: usize,
    d: usize,
    hidden: nat,
    e1: World<E>,
    e2: World<E>,
    i: int,
)
    requires
        same_weights(e1, e2),
        (e1.arithmetic.width)(Projection::Output) == hidden,
        h * d <= usize::MAX,
        keeps(context, e1, e2, seq![b as nat, s as nat, h as nat, d as nat], 1, i),
        has_gate ==> keeps(gate, e1, e2, seq![b as nat, s as nat, h as nat, d as nat], 1, i),
    ensures
        keeps(
            linear(
                Projection::Output,
                &reshape(
                    &(if has_gate {
                        gated(&context, &gate)
                    } else {
                        context
                    }),
                    Dims::Three(b, s, (h * d) as usize),
                ),
            ),
            e1,
            e2,
            seq![b as nat, s as nat, hidden],
            1,
            i,
        ),
{
    broadcast use meaning::group_value;

    let a = e1.arithmetic;
    let full = seq![b as nat, s as nat, h as nat, d as nat];
    let (c1, c2) = (value(&context, e1), value(&context, e2));
    let shown = if has_gate {
        gated(&context, &gate)
    } else {
        context
    };
    if has_gate {
        let (g1, g2) = (value(&gate, e1), value(&gate, e2));
        lemma_formatted(g1, g2, 1, i, a.single, a);
        let (p1, p2) = (formatted(g1, a.single, a), formatted(g2, a.single, a));
        let f = |e: E| (a.apply)(SameShape::Sigmoid, e);
        lemma_mapped(p1, p2, 1, i, f);
        lemma_formatted(mapped(p1, f), mapped(p2, f), 1, i, c1.format, a);
        shapes::lemma_broadcast4(full, full);
        let mul = |p: E, q: E| (a.pair)(Pairwise::BroadcastMul, p, q);
        lemma_broadcasted(
            c1,
            c2,
            formatted(mapped(p1, f), c1.format, a),
            formatted(mapped(p2, f), c1.format, a),
            1,
            i,
            mul,
        );
    }
    assert(keeps(shown, e1, e2, full, 1, i));
    let (y1, y2) = (value(&shown, e1), value(&shown, e2));
    lemma_merged(y1, y2, b as nat, s as nat, h as nat, d as nat, i);
    let to = seq![b as nat, s as nat, (h * d) as nat];
    let g = |row: Seq<E>| (a.linear)(Projection::Output, row);
    lemma_by_rows(reshaped(y1, to), reshaped(y2, to), 1, i, hidden, g);
    assert(to.update(2, hidden) =~= seq![b as nat, s as nat, hidden]);
}

/// An attention layer of the quantized model that has cached nothing, under the causal mask: where
/// two inputs agree up to position `i`, so do the outputs, and the keys and values to cache. What
/// comes after a position does not change what the layer makes of it.
///
/// Scores and values have to be finite, and the arithmetic to hide masked scores.
pub proof fn attention_sees_no_later_positions<E>(
    w: AttentionWeights,
    x: Rc<Node>,
    step: Step,
    known: graph::Shapes,
    hidden: nat,
    rows: nat,
    e1: World<E>,
    e2: World<E>,
    i: int,
    finite: spec_fn(E) -> bool,
    no: E,
    nil: E,
)
    requires
        w.fits(),
        w.consistent(),
        !w.cached,
        step.masked,
        w.described_by(known, step, hidden, 0, rows),
        matches_shapes(e1, known),
        same_weights(e1, e2),
        keeps(x, e1, e2, seq![step.batch as nat, step.len as nat, hidden], 1, i),
        (e1.leaf)(Slot::Mask) == value(&causal_mask(step.len), e1),
        all_finite(value(&raw_scores(w, x, step), e1), finite),
        all_finite(value(&raw_scores(w, x, step), e2), finite),
        all_finite(value(&spread_values(w, x, step), e1), finite),
        all_finite(value(&spread_values(w, x, step), e2), finite),
        ({
            let a = e1.arithmetic;
            let f = value(&w.query(x, step), e1).format;
            let later = in_format(in_format(a.hidden, a.single, a.model, a), a.model, f, a);
            let now = in_format(in_format(a.zero, a.single, a.model, a), a.model, f, a);
            hides(a, later, now, finite, no, nil)
        }),
    ensures
        keeps(
            w.output(x, step),
            e1,
            e2,
            seq![step.batch as nat, step.len as nat, hidden],
            1,
            i,
        ),
        agree(value(&w.all_keys(x, step), e1), value(&w.all_keys(x, step), e2), 2, i),
        agree(value(&w.all_values(x, step), e1), value(&w.all_values(x, step), e2), 2, i),
{
    let a = e1.arithmetic;
    let (b, s, h, d) = (step.batch, step.len, w.num_heads, w.head_dim);
    let (bn, sn, hn, dn) = (b as nat, s as nat, h as nat, d as nat);
    let full = seq![bn, hn, sn, dn];
    let few = seq![bn, w.num_kv_heads as nat, sn, dn];
    let f = value(&w.query(x, step), e1).format;
    lemma_keeps_query(w, x, step, known, hidden, rows, e1, e2, i);
    lemma_keeps_cache(w, x, step, known, hidden, rows, e1, e2, i);
    lemma_keeps_rotated(w.query(x, step), w.query(x, step), step, e1, e2, full, i);
    lemma_keeps_repeated(w.all_keys(x, step), w.num_kv_groups, e1, e2, few, hn, i);
    lemma_keeps_repeated(w.all_values(x, step), w.num_kv_groups, e1, e2, few, hn, i);
    assert(few.update(1, hn) =~= full);
    let query = asked(w, x, step);
    let keys = for_each_query_head(&w.all_keys(x, step), w.num_kv_groups);
    let values = spread_values(w, x, step);
    causal_mask_hides_later_positions(s, full.update(3, sn), e1);
    let mask = (e1.leaf)(Slot::Mask);
    let later = in_format(in_format(a.hidden, a.single, a.model, a), a.model, f, a);
    let now = in_format(in_format(a.zero, a.single, a.model, a), a.model, f, a);
    lemma_formatted_mask(
        mask,
        full.update(3, sn),
        0,
        in_format(a.hidden, a.single, a.model, a),
        in_format(a.zero, a.single, a.model, a),
        f,
        a,
    );
    assert(full.update(2, 0 + sn) =~= full);
    let (q1, q2) = (value(&query, e1), value(&query, e2));
    let (k1, k2) = (value(&keys, e1), value(&keys, e2));
    let (v1, v2) = (value(&values, e1), value(&values, e2));
    assert(q1.format == f && value(&raw_scores(w, x, step), e1) == scored(q1, k1, d, a) && value(
        &raw_scores(w, x, step),
        e2,
    ) == scored(q2, k2, d, a)) by {
        broadcast use meaning::group_value;

    }
    let m = formatted(mask, f, a);
    lemma_attended(
        q1,
        q2,
        k1,
        k2,
        v1,
        v2,
        m,
        d,
        0,
        i,
        a,
        later,
        now,
        finite,
        no,
        nil,
        full,
    );
    let weights = apply(SameShape::Softmax, &with_mask(&raw_scores(w, x, step), true));
    let product = pair(Pairwise::MatMul, &weights, &values);
    assert(keeps(product, e1, e2, full, 2, i)) by {
        broadcast use meaning::group_value;

        assert(value(&weights, e1) == weighed(masked(scored(q1, k1, d, a), m, a), a));
        assert(value(&weights, e2) == weighed(masked(scored(q2, k2, d, a), m, a), a));
    }
    lemma_keeps_transpose(product, e1, e2, full, 2, i);
    assert(w.context(x, step) == transpose(&product, 1, 2));
    assert((known.linear)(Projection::Output) is Some);
    assert(h * d <= usize::MAX) by {
        assert(h * d <= h * d * 2);
    }
    lemma_keeps_joined(
        w.context(x, step),
        w.gate(x, step),
        w.has_gate(),
        b,
        s,
        h,
        d,
        hidden,
        e1,
        e2,
        i,
    );
}

}
